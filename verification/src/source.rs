//! Sources and their orchestration: a source produces a partial value tree
//! keyed at its own root; an ordered list of sources, together with a
//! defaults layer merged first and an overrides layer merged last, folds
//! into one final table, later sources overriding earlier ones. The
//! registration order is the sole tie-break rule.

use vstd::prelude::*;

use crate::env::Environment;
use crate::error::ConfigError;
use crate::path::spec_get;
use crate::path::spec_set;
use crate::path::Expression;
use crate::value::spec_merge;
use crate::value::KindView;
use crate::value::Table;
use crate::value::ValView;
use crate::value::Value;
use crate::value::ValueKind;

verus! {

/// A producer of a partial value tree: an in-memory table handed over as it
/// is, or an environment snapshot reshaped at collection time. File-backed
/// and remote sources are read outside this library and handed in as
/// in-memory tables.
#[derive(Debug)]
pub enum Source {
    Memory(Table),
    Environment(Environment),
}

impl Source {
    /// Whether the source can collect: tables must be well-formed and an
    /// environment source needs its snapshot.
    pub open spec fn ready(self) -> bool {
        match self {
            Source::Memory(t) => t.wf(),
            Source::Environment(e) => e.source is Some,
        }
    }

    /// The table this source produces.
    pub open spec fn spec_collect(self) -> Map<Seq<char>, ValView> {
        match self {
            Source::Memory(t) => t@,
            Source::Environment(e) => e.spec_collect(),
        }
    }

    /// Produces the source's partial tree.
    pub fn collect(&self) -> (r: Result<Table, ConfigError>)
        requires
            self.ready(),
        ensures
            r matches Ok(t) && t@ == self.spec_collect() && t.wf(),
    {
        match self {
            Source::Memory(t) => Ok(t.duplicate()),
            Source::Environment(e) => e.collect(),
        }
    }

    /// A name identifying the source in build failures.
    pub fn describe(&self) -> (r: String)
        ensures
            match self {
                Source::Memory(_) => r@ == "an in-memory table"@,
                Source::Environment(_) => r@ == "the environment"@,
            },
    {
        match self {
            Source::Memory(_) => "an in-memory table".to_owned(),
            Source::Environment(_) => "the environment".to_owned(),
        }
    }
}

/// The running tree after the first `i` sources were folded over the
/// defaults, each one's table merged in as a whole value.
pub open spec fn build_fold(d: ValView, srcs: Seq<Source>, i: int) -> ValView
    decreases i,
{
    if i <= 0 {
        d
    } else {
        spec_merge(
            build_fold(d, srcs, i - 1),
            ValView { origin: None, kind: KindView::Table(srcs[i - 1].spec_collect()) },
        )
    }
}

/// The final tree a build produces: defaults first, then each source in
/// registration order, then the overrides.
pub open spec fn spec_build(d: ValView, srcs: Seq<Source>, o: ValView) -> ValView {
    spec_merge(build_fold(d, srcs, srcs.len() as int), o)
}

/// An ordered collection of sources plus the two special layers: defaults,
/// merged before every source, and overrides, merged after all of them.
#[derive(Debug)]
pub struct ConfigBuilder {
    pub defaults: Value,
    pub sources: Vec<Source>,
    pub overrides: Value,
}

/// A finished configuration: the merged tree, read through parsed paths.
#[derive(Debug)]
pub struct Config {
    pub cache: Value,
}

impl ConfigBuilder {
    /// The builder's invariant: both special layers are well-formed tables
    /// and every source can collect.
    pub open spec fn wf(self) -> bool {
        &&& self.defaults.wf()
        &&& self.defaults@.kind is Table
        &&& self.overrides.wf()
        &&& self.overrides@.kind is Table
        &&& forall|i: int| 0 <= i < self.sources@.len() ==> (#[trigger] self.sources@[i]).ready()
    }

    /// An empty builder: empty defaults, no sources, empty overrides.
    pub fn new() -> (r: ConfigBuilder)
        ensures
            r.wf(),
            r.defaults@ == (ValView {
                origin: None,
                kind: KindView::Table(Map::<Seq<char>, ValView>::empty()),
            }),
            r.sources@.len() == 0,
            r.overrides@ == (ValView {
                origin: None,
                kind: KindView::Table(Map::<Seq<char>, ValView>::empty()),
            }),
    {
        let r = ConfigBuilder {
            defaults: Value::new(None, ValueKind::Table(Table::new())),
            sources: Vec::new(),
            overrides: Value::new(None, ValueKind::Table(Table::new())),
        };
        proof {
            assert(r.defaults@.kind->Table_0 =~= Map::<Seq<char>, ValView>::empty());
            assert(r.overrides@.kind->Table_0 =~= Map::<Seq<char>, ValView>::empty());
        }
        r
    }

    /// Writes a value into the defaults layer at a path string; a string
    /// the path grammar refuses is reported and changes nothing.
    pub fn set_default(&mut self, key: &str, value: Value) -> (r: Result<(), ConfigError>)
        requires
            old(self).wf(),
            value.wf(),
        ensures
            final(self).wf(),
            crate::path::parser::spec_parse(key@) matches Ok(gs) ==> r is Ok
                && final(self).defaults@ == spec_set(old(self).defaults@, gs, value@)
                && final(self).sources == old(self).sources
                && final(self).overrides == old(self).overrides,
            crate::path::parser::spec_parse(key@) is Err ==> r is Err
                && *final(self) == *old(self),
    {
        match Expression::from_str(key) {
            Ok(expr) => {
                expr.set(&mut self.defaults, value);
                proof {
                    expr.lemma_segs_nonempty();
                }
                Ok(())
            },
            Err(e) => Err(e),
        }
    }

    /// Writes a value into the overrides layer at a path string; a string
    /// the path grammar refuses is reported and changes nothing.
    pub fn set_override(&mut self, key: &str, value: Value) -> (r: Result<(), ConfigError>)
        requires
            old(self).wf(),
            value.wf(),
        ensures
            final(self).wf(),
            crate::path::parser::spec_parse(key@) matches Ok(gs) ==> r is Ok
                && final(self).overrides@ == spec_set(old(self).overrides@, gs, value@)
                && final(self).sources == old(self).sources
                && final(self).defaults == old(self).defaults,
            crate::path::parser::spec_parse(key@) is Err ==> r is Err
                && *final(self) == *old(self),
    {
        match Expression::from_str(key) {
            Ok(expr) => {
                expr.set(&mut self.overrides, value);
                proof {
                    expr.lemma_segs_nonempty();
                }
                Ok(())
            },
            Err(e) => Err(e),
        }
    }

    /// Registers a source after every source registered so far.
    pub fn add_source(&mut self, source: Source)
        requires
            old(self).wf(),
            source.ready(),
        ensures
            final(self).wf(),
            final(self).sources@ == old(self).sources@.push(source),
            final(self).defaults == old(self).defaults,
            final(self).overrides == old(self).overrides,
    {
        let ghost s0 = self.sources@;
        self.sources.push(source);
        proof {
            assert forall|i: int| 0 <= i < self.sources@.len() implies (
            #[trigger] self.sources@[i]).ready() by {
                if i < s0.len() {
                    assert(self.sources@[i] == s0[i]);
                }
            }
        }
    }

    /// Builds the configuration: folds the defaults, every source in
    /// registration order, and the overrides into one tree. A source that
    /// fails to collect aborts the whole build and is named in the error.
    pub fn build(&self) -> (r: Result<Config, ConfigError>)
        requires
            self.wf(),
        ensures
            r matches Ok(c) && c.cache@ == spec_build(
                self.defaults@,
                self.sources@,
                self.overrides@,
            ) && c.cache.wf(),
    {
        let mut cache = self.defaults.duplicate();
        let n = self.sources.len();
        let mut i: usize = 0;
        while i < n
            invariant
                i <= n,
                n == self.sources@.len(),
                self.wf(),
                cache.wf(),
                cache@ == build_fold(self.defaults@, self.sources@, i as int),
            decreases n - i,
        {
            match self.sources[i].collect() {
                Ok(t) => {
                    let part = Value::new(None, ValueKind::Table(t));
                    cache.merge(part);
                },
                Err(e) => {
                    let name = self.sources[i].describe();
                    return Err(ConfigError::BuildAbort { source: name, cause: Box::new(e) });
                },
            }
            i += 1;
        }
        let over = self.overrides.duplicate();
        cache.merge(over);
        Ok(Config { cache })
    }
}

impl Config {
    /// Reads the boolean at a path string. The library does not coerce: a
    /// value of any other kind is a type mismatch carrying the path.
    pub fn get_bool(&self, key: &str) -> (r: Result<bool, ConfigError>)
        requires
            self.cache.wf(),
        ensures
            crate::path::parser::spec_parse(key@) matches Ok(gs) ==> match r {
                Ok(b) => spec_get(self.cache@, gs) matches Some(u) && u.kind
                    == crate::value::KindView::Boolean(b),
                Err(e) => (spec_get(self.cache@, gs) is None && (e matches
                    ConfigError::NotFound(p) && p@ == key@)) || (spec_get(self.cache@, gs)
                    matches Some(u) && !(u.kind is Boolean) && (e matches ConfigError::Type {
                    path,
                    ..
                } && path@ == key@)),
            },
            crate::path::parser::spec_parse(key@) is Err ==> (r matches Err(e) && e is PathParse),
    {
        match self.get(key) {
            Err(e) => Err(e),
            Ok(v) => match &v.kind {
                ValueKind::Boolean(b) => Ok(*b),
                _ => Err(
                    ConfigError::Type {
                        path: key.to_owned(),
                        expected: "a boolean".to_owned(),
                        got: v.kind_name().to_owned(),
                    },
                ),
            },
        }
    }

    /// Reads the integer at a path string, without coercion.
    pub fn get_i64(&self, key: &str) -> (r: Result<i64, ConfigError>)
        requires
            self.cache.wf(),
        ensures
            crate::path::parser::spec_parse(key@) matches Ok(gs) ==> match r {
                Ok(n) => spec_get(self.cache@, gs) matches Some(u) && u.kind
                    == crate::value::KindView::I64(n),
                Err(e) => (spec_get(self.cache@, gs) is None && (e matches
                    ConfigError::NotFound(p) && p@ == key@)) || (spec_get(self.cache@, gs)
                    matches Some(u) && !(u.kind is I64) && (e matches ConfigError::Type {
                    path,
                    ..
                } && path@ == key@)),
            },
            crate::path::parser::spec_parse(key@) is Err ==> (r matches Err(e) && e is PathParse),
    {
        match self.get(key) {
            Err(e) => Err(e),
            Ok(v) => match &v.kind {
                ValueKind::I64(n) => Ok(*n),
                _ => Err(
                    ConfigError::Type {
                        path: key.to_owned(),
                        expected: "an integer".to_owned(),
                        got: v.kind_name().to_owned(),
                    },
                ),
            },
        }
    }

    /// Reads the string at a path string, without coercion.
    pub fn get_string(&self, key: &str) -> (r: Result<String, ConfigError>)
        requires
            self.cache.wf(),
        ensures
            crate::path::parser::spec_parse(key@) matches Ok(gs) ==> match r {
                Ok(s) => spec_get(self.cache@, gs) matches Some(u) && u.kind
                    == crate::value::KindView::Str(s@),
                Err(e) => (spec_get(self.cache@, gs) is None && (e matches
                    ConfigError::NotFound(p) && p@ == key@)) || (spec_get(self.cache@, gs)
                    matches Some(u) && !(u.kind is Str) && (e matches ConfigError::Type {
                    path,
                    ..
                } && path@ == key@)),
            },
            crate::path::parser::spec_parse(key@) is Err ==> (r matches Err(e) && e is PathParse),
    {
        match self.get(key) {
            Err(e) => Err(e),
            Ok(v) => match &v.kind {
                ValueKind::Str(s) => Ok(s.clone()),
                _ => Err(
                    ConfigError::Type {
                        path: key.to_owned(),
                        expected: "a string".to_owned(),
                        got: v.kind_name().to_owned(),
                    },
                ),
            },
        }
    }

    /// Reads the value at a path string: a parse failure is reported as
    /// such, an absent or unreachable value as not found, and otherwise the
    /// value is returned.
    pub fn get(&self, key: &str) -> (r: Result<&Value, ConfigError>)
        requires
            self.cache.wf(),
        ensures
            crate::path::parser::spec_parse(key@) matches Ok(gs) ==> match r {
                Ok(v) => spec_get(self.cache@, gs) == Some(v@),
                Err(e) => spec_get(self.cache@, gs) is None && (e matches
                    ConfigError::NotFound(p) && p@ == key@),
            },
            crate::path::parser::spec_parse(key@) is Err ==> (r matches Err(e) && e is PathParse),
    {
        match Expression::from_str(key) {
            Ok(expr) => match expr.get(&self.cache) {
                Some(v) => Ok(v),
                None => Err(ConfigError::NotFound(key.to_owned())),
            },
            Err(e) => Err(e),
        }
    }
}

} // verus!
