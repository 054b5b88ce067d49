//! The boundary with format parsers: each parser turns raw text into a
//! table of values; the library is agnostic to which grammar produced it
//! and only checks that the root is table-shaped.

use vstd::prelude::*;

use crate::error::ConfigError;
use crate::value::Table;
use crate::value::Value;
use crate::value::ValueKind;

verus! {

/// Requires the parsed root to be a table, as every configuration root
/// must be; anything else is an error naming the source.
pub fn extract_root_table(uri: Option<&str>, value: Value) -> (r: Result<Table, ConfigError>)
    ensures
        value.kind matches ValueKind::Table(t) ==> (r matches Ok(rt) && rt == t),
        !(value.kind is Table) ==> (r matches Err(e) && e is Foreign),
{
    match value.kind {
        ValueKind::Table(t) => Ok(t),
        _ => Err(
            ConfigError::Foreign {
                uri: match uri {
                    Some(u) => Some(u.to_owned()),
                    None => None,
                },
                cause: "invalid root type: expected a map".to_owned(),
            },
        ),
    }
}

} // verus!
