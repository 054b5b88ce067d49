//! A hierarchical configuration library: a tagged value tree, a dotted and
//! indexed path language for addressing places inside it, a deep-merge rule
//! that lets later sources override earlier ones, and sources (in-memory
//! tables, environment snapshots, configuration files) that produce partial
//! trees which are folded together in registration order.

pub mod env;
pub mod error;
pub mod file;
pub mod format;
pub mod nested_env_vars;
pub mod path;
pub mod source;
pub mod value;
