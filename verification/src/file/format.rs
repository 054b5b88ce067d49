//! The format parsers the library calls through trusted boundaries.

pub mod dotenv;
pub mod ini;
