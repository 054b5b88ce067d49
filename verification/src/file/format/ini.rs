//! The ini format: properties, optionally grouped under sections; the
//! parsing itself is rust-ini's, the table is built here, and every value
//! passes through environment variable expansion against an explicit
//! snapshot.

use vstd::prelude::*;

use crate::error::ConfigError;
use crate::file::format::dotenv::pairs_view;
use crate::nested_env_vars::expand_env_vars;
use crate::nested_env_vars::spec_expand;
use crate::value::KindView;
use crate::value::Table;
use crate::value::ValView;
use crate::value::Value;
use crate::value::ValueKind;

verus! {

/// The models of parsed sections: the optional section name, and its
/// properties in order.
pub open spec fn sections_view(v: Seq<(Option<String>, Vec<(String, String)>)>) -> Seq<
    (Option<Seq<char>>, Seq<(Seq<char>, Seq<char>)>),
> {
    Seq::new(
        v.len(),
        |i: int|
            (
                match v[i].0 {
                    Some(s) => Some(s@),
                    None => None,
                },
                pairs_view(v[i].1@),
            ),
    )
}

/// What rust-ini reads from given text: the sections with their
/// properties, or the message of the parse failure; the outcome depends on
/// the text alone.
pub uninterp spec fn ini_sections_of(text: Seq<char>) -> Result<
    Seq<(Option<Seq<char>>, Seq<(Seq<char>, Seq<char>)>)>,
    Seq<char>,
>;

/// Relies on rust-ini's Ini::load_from_str and its section iteration:
/// yields each section with its properties in order, or the parse failure.
#[verifier::external_body]
fn ini_load(text: &str) -> (r: Result<Vec<(Option<String>, Vec<(String, String)>)>, String>)
    ensures
        r matches Ok(v) ==> (ini_sections_of(text@) matches Ok(ss) && sections_view(v@) == ss),
        r matches Err(e) ==> (ini_sections_of(text@) matches Err(m) && e@ == m),
{
    match ini::Ini::load_from_str(text) {
        Ok(doc) => Ok(
            doc.iter().map(
                |(sec, props)|
                    (
                        sec.map(|s| s.to_owned()),
                        props.iter().map(|(k, v)| (k.to_owned(), v.to_owned())).collect(),
                    ),
            ).collect(),
        ),
        Err(e) => Err(e.to_string()),
    }
}

/// A section's properties as a table: each value expanded against the
/// snapshot, a later duplicate key overriding an earlier one.
pub open spec fn props_table(
    props: Seq<(Seq<char>, Seq<char>)>,
    j: int,
    origin: Option<Seq<char>>,
    vars: Seq<(String, String)>,
) -> Map<Seq<char>, ValView>
    decreases j,
{
    if j <= 0 {
        Map::empty()
    } else {
        props_table(props, j - 1, origin, vars).insert(
            props[j - 1].0,
            ValView { origin, kind: KindView::Str(spec_expand(props[j - 1].1, vars)) },
        )
    }
}

/// Properties inserted over an existing map.
pub open spec fn props_into(
    m: Map<Seq<char>, ValView>,
    props: Seq<(Seq<char>, Seq<char>)>,
    j: int,
    origin: Option<Seq<char>>,
    vars: Seq<(String, String)>,
) -> Map<Seq<char>, ValView>
    decreases j,
{
    if j <= 0 {
        m
    } else {
        props_into(m, props, j - 1, origin, vars).insert(
            props[j - 1].0,
            ValView { origin, kind: KindView::Str(spec_expand(props[j - 1].1, vars)) },
        )
    }
}

/// The table the sections build: a named section becomes a nested table
/// under its name, an unnamed one contributes its properties at the top.
pub open spec fn sections_table(
    ss: Seq<(Option<Seq<char>>, Seq<(Seq<char>, Seq<char>)>)>,
    i: int,
    origin: Option<Seq<char>>,
    vars: Seq<(String, String)>,
) -> Map<Seq<char>, ValView>
    decreases i,
{
    if i <= 0 {
        Map::empty()
    } else {
        let prev = sections_table(ss, i - 1, origin, vars);
        match ss[i - 1].0 {
            Some(name) => prev.insert(
                name,
                ValView {
                    origin,
                    kind: KindView::Table(
                        props_table(ss[i - 1].1, ss[i - 1].1.len() as int, origin, vars),
                    ),
                },
            ),
            None => props_into(prev, ss[i - 1].1, ss[i - 1].1.len() as int, origin, vars),
        }
    }
}

/// Builds a table of expanded string properties.
fn build_props(
    uri: Option<&str>,
    props: &Vec<(String, String)>,
    vars: &Vec<(String, String)>,
) -> (r: Table)
    ensures
        r.wf(),
        r@ == props_table(
            pairs_view(props@),
            props@.len() as int,
            match uri {
                Some(u) => Some(u@),
                None => None,
            },
            vars@,
        ),
{
    let ghost ov: Option<Seq<char>> = match uri {
        Some(u) => Some(u@),
        None => None,
    };
    let mut t = Table::new();
    let n = props.len();
    let mut j: usize = 0;
    while j < n
        invariant
            j <= n,
            n == props@.len(),
            match uri {
                Some(u) => ov == Some(u@),
                None => ov is None,
            },
            t.wf(),
            t@ == props_table(pairs_view(props@), j as int, ov, vars@),
        decreases n - j,
    {
        let key = props[j].0.clone();
        let expanded = expand_env_vars(props[j].1.as_str(), vars);
        let val = Value::new(uri, ValueKind::Str(expanded));
        t.insert(key, val);
        j += 1;
    }
    t
}

/// Inserts expanded string properties into an existing table.
fn insert_props(
    uri: Option<&str>,
    t: &mut Table,
    props: &Vec<(String, String)>,
    vars: &Vec<(String, String)>,
)
    requires
        old(t).wf(),
    ensures
        final(t).wf(),
        final(t)@ == props_into(
            old(t)@,
            pairs_view(props@),
            props@.len() as int,
            match uri {
                Some(u) => Some(u@),
                None => None,
            },
            vars@,
        ),
{
    let ghost ov: Option<Seq<char>> = match uri {
        Some(u) => Some(u@),
        None => None,
    };
    let ghost m0 = t@;
    let n = props.len();
    let mut j: usize = 0;
    while j < n
        invariant
            j <= n,
            n == props@.len(),
            match uri {
                Some(u) => ov == Some(u@),
                None => ov is None,
            },
            t.wf(),
            t@ == props_into(m0, pairs_view(props@), j as int, ov, vars@),
        decreases n - j,
    {
        let key = props[j].0.clone();
        let expanded = expand_env_vars(props[j].1.as_str(), vars);
        let val = Value::new(uri, ValueKind::Str(expanded));
        t.insert(key, val);
        j += 1;
    }
}

/// Parses ini text into a table, expanding variable references in every
/// value against the snapshot; a failure of the ini grammar is reported
/// with the parser's message and the source's name.
pub fn parse(uri: Option<&str>, text: &str, vars: &Vec<(String, String)>) -> (r: Result<
    Table,
    ConfigError,
>)
    ensures
        ini_sections_of(text@) matches Ok(ss) ==> (r matches Ok(t) && t.wf() && t@
            == sections_table(
            ss,
            ss.len() as int,
            match uri {
                Some(u) => Some(u@),
                None => None,
            },
            vars@,
        )),
        ini_sections_of(text@) matches Err(m) ==> (r matches Err(e) && (e matches
            ConfigError::Foreign { uri: u, cause } && cause@ == m)),
{
    match ini_load(text) {
        Err(e) => Err(
            ConfigError::Foreign {
                uri: match uri {
                    Some(u) => Some(u.to_owned()),
                    None => None,
                },
                cause: e,
            },
        ),
        Ok(sections) => {
            let ghost ss = sections_view(sections@);
            let ghost ov: Option<Seq<char>> = match uri {
                Some(u) => Some(u@),
                None => None,
            };
            let mut t = Table::new();
            let n = sections.len();
            let mut i: usize = 0;
            while i < n
                invariant
                    i <= n,
                    n == sections@.len(),
                    ss == sections_view(sections@),
                    match uri {
                        Some(u) => ov == Some(u@),
                        None => ov is None,
                    },
                    t.wf(),
                    t@ == sections_table(ss, i as int, ov, vars@),
                decreases n - i,
            {
                match &sections[i].0 {
                    Some(name) => {
                        let sec = build_props(uri, &sections[i].1, vars);
                        let val = Value::new(uri, ValueKind::Table(sec));
                        t.insert(name.clone(), val);
                    },
                    None => {
                        insert_props(uri, &mut t, &sections[i].1, vars);
                    },
                }
                i += 1;
            }
            Ok(t)
        },
    }
}

} // verus!