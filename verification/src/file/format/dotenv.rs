//! The dotenv format: each line of the text names a key and a string
//! value; the parsing itself is dotenvy's, and the table is built here.

use vstd::prelude::*;

use crate::error::ConfigError;
use crate::value::Table;
use crate::value::ValView;
use crate::value::Value;
use crate::value::ValueKind;

verus! {

/// The models of a sequence of key-value pairs.
pub open spec fn pairs_view(v: Seq<(String, String)>) -> Seq<(Seq<char>, Seq<char>)> {
    Seq::new(v.len(), |i: int| (v[i].0@, v[i].1@))
}

/// Whether the text holds a `$`, the character that starts dotenvy's
/// variable references.
pub open spec fn has_reference(text: Seq<char>) -> bool {
    exists|i: int| 0 <= i < text.len() && text[i] == '$'
}

/// What dotenvy reads from text that holds no `$`: the pairs, or the
/// message of the parse failure. Only for such text is the outcome a
/// function of the text alone: on a `$` reference dotenvy substitutes the
/// named variable from the process environment while parsing, so nothing
/// is named for text that holds one.
pub uninterp spec fn dotenv_pairs_of(text: Seq<char>) -> Result<
    Seq<(Seq<char>, Seq<char>)>,
    Seq<char>,
>;

/// Relies on dotenvy's Iter over the text: yields the key-value pairs the
/// dotenv grammar reads, or the first parse failure. For text without a
/// `$` the outcome is the named one; text with a `$` may read the process
/// environment, and only the outcome's shape is stated.
#[verifier::external_body]
fn dotenv_iter(text: &str) -> (r: Result<Vec<(String, String)>, String>)
    ensures
        !has_reference(text@) && r is Ok ==> (dotenv_pairs_of(text@) matches Ok(ps) && r
            matches Ok(v) && pairs_view(v@) == ps),
        !has_reference(text@) && r is Err ==> (dotenv_pairs_of(text@) matches Err(m) && r
            matches Err(e) && e@ == m),
{
    let iter = dotenvy::Iter::new(std::io::Cursor::new(text.as_bytes()));
    let mut out: Vec<(String, String)> = Vec::new();
    for item in iter {
        match item {
            Ok(kv) => out.push(kv),
            Err(e) => return Err(e.to_string()),
        }
    }
    Ok(out)
}

/// The model of an optional origin string.
pub open spec fn uri_view_opt(uri: Option<&str>) -> Option<Seq<char>> {
    match uri {
        Some(u) => Some(u@),
        None => None,
    }
}

/// The table the pairs build, later pairs overriding earlier ones, every
/// value a string carrying the given origin.
pub open spec fn pairs_table(
    ps: Seq<(Seq<char>, Seq<char>)>,
    i: int,
    origin: Option<Seq<char>>,
) -> Map<Seq<char>, ValView>
    decreases i,
{
    if i <= 0 {
        Map::empty()
    } else {
        pairs_table(ps, i - 1, origin).insert(
            ps[i - 1].0,
            ValView { origin, kind: crate::value::KindView::Str(ps[i - 1].1) },
        )
    }
}

/// Parses dotenv text into a table of string values; a failure of the
/// dotenv grammar is reported with the parser's message and the source's
/// name. For text without a `$` reference the table is pinned exactly;
/// with one, dotenvy's substitution may read the process environment, and
/// the result is the table of whatever pairs came back.
pub fn parse(uri: Option<&str>, text: &str) -> (r: Result<Table, ConfigError>)
    ensures
        dotenv_pairs_of(text@) matches Ok(ps) ==> (!has_reference(text@) ==> (r matches Ok(t)
            && t@ == pairs_table(ps, ps.len() as int, uri_view_opt(uri)))),
        dotenv_pairs_of(text@) matches Err(m) ==> (!has_reference(text@) ==> (r matches Err(e)
            && (e matches ConfigError::Foreign { uri: u, cause } && cause@ == m))),
        r matches Ok(t) ==> t.wf() && (exists|ps: Seq<(Seq<char>, Seq<char>)>|
            t@ == #[trigger] pairs_table(ps, ps.len() as int, uri_view_opt(uri))),
        r matches Err(e) ==> e is Foreign,
{
    match dotenv_iter(text) {
        Err(e) => Err(
            ConfigError::Foreign {
                uri: match uri {
                    Some(u) => Some(u.to_owned()),
                    None => None,
                },
                cause: e,
            },
        ),
        Ok(pairs) => {
            let ghost ps = pairs_view(pairs@);
            let ghost ov: Option<Seq<char>> = match uri {
                Some(u) => Some(u@),
                None => None,
            };
            let mut t = Table::new();
            let n = pairs.len();
            let mut i: usize = 0;
            while i < n
                invariant
                    i <= n,
                    n == pairs@.len(),
                    ps == pairs_view(pairs@),
                    match uri {
                        Some(u) => ov == Some(u@),
                        None => ov is None,
                    },
                    t.wf(),
                    t@ == pairs_table(ps, i as int, ov),
                decreases n - i,
            {
                let key = pairs[i].0.clone();
                let val = Value::new(uri, ValueKind::Str(pairs[i].1.clone()));
                t.insert(key, val);
                i += 1;
            }
            proof {
                assert(t@ == pairs_table(ps, ps.len() as int, ov));
            }
            Ok(t)
        },
    }
}

} // verus!
