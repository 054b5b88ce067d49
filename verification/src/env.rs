//! The environment source: a snapshot of environment variables reshaped
//! into a value tree. Keys are lowercased, filtered and stripped by an
//! optional prefix, their segment separator replaced by the canonical dot,
//! optionally case-converted; values are optionally parsed into booleans,
//! integers, floats or lists; numeric path segments rebuild arrays.

use vstd::prelude::*;

use convert_case::Case;
use convert_case::Casing;

use crate::error::ConfigError;
use crate::path::digit_end;
use crate::path::digits_val;
use crate::path::is_digit;
use crate::value::entries_view;
use crate::value::KindView;
use crate::value::Table;
use crate::value::ValView;
use crate::value::Value;
use crate::value::ValueKind;

verus! {

/// What `str::to_lowercase` returns for given characters; the result
/// depends on the characters alone.
pub uninterp spec fn lower_of(s: Seq<char>) -> Seq<char>;

/// Relies on str::to_lowercase: lowercases a string, depending on its
/// characters alone.
#[verifier::external_body]
fn to_lowercase(s: &str) -> (r: String)
    ensures
        r@ == lower_of(s@),
{
    s.to_lowercase()
}

/// A key transform for matching the spelling that a consumer of the
/// configuration expects.
#[derive(Debug, Clone, Copy, PartialEq, Eq)]
pub enum CaseStyle {
    Snake,
    Kebab,
    Camel,
    Pascal,
    Lower,
    Upper,
}

impl CaseStyle {
    /// A number standing for the style, to name its conversion.
    pub open spec fn id(self) -> int {
        match self {
            CaseStyle::Snake => 0,
            CaseStyle::Kebab => 1,
            CaseStyle::Camel => 2,
            CaseStyle::Pascal => 3,
            CaseStyle::Lower => 4,
            CaseStyle::Upper => 5,
        }
    }
}

/// What convert_case's `Casing::to_case` returns for given characters and
/// style; the result depends on both alone.
pub uninterp spec fn cased(style: int, s: Seq<char>) -> Seq<char>;

/// Relies on convert_case's Casing::to_case: rewrites a string into the
/// given case style, depending on the characters and the style alone.
#[verifier::external_body]
fn to_case_style(s: &str, style: &CaseStyle) -> (r: String)
    ensures
        r@ == cased(style.id(), s@),
{
    let case = match style {
        CaseStyle::Snake => Case::Snake,
        CaseStyle::Kebab => Case::Kebab,
        CaseStyle::Camel => Case::Camel,
        CaseStyle::Pascal => Case::Pascal,
        CaseStyle::Lower => Case::Lower,
        CaseStyle::Upper => Case::Upper,
    };
    s.to_case(case)
}

/// An environment source: which keys of the snapshot count, how they are
/// reshaped into paths, and how their values are typed.
#[derive(Debug)]
pub struct Environment {
    /// Only keys beginning with this prefix (followed by the prefix
    /// separator) are taken, and the prefix is stripped.
    pub prefix: Option<String>,
    /// What separates the prefix from the rest of the key; falls back to
    /// the segment separator, then to an underscore.
    pub prefix_separator: Option<String>,
    /// What separates the path segments inside a key; replaced by the
    /// canonical dot.
    pub separator: Option<String>,
    /// An optional case transform applied to the reshaped key.
    pub convert_case: Option<CaseStyle>,
    /// What splits a value into a list, when parsing is on.
    pub list_separator: Option<String>,
    /// The keys whose values are split into lists; when absent, every
    /// value splits once a list separator is set.
    pub list_parse_keys: Option<Vec<String>>,
    /// Treat empty values as unset.
    pub ignore_empty: bool,
    /// Try to parse values as booleans, integers, floats and lists.
    pub try_parsing: bool,
    /// Keep the stripped prefix as a literal leading path segment.
    pub keep_prefix: bool,
    /// The snapshot of variables this source reads.
    pub source: Option<Vec<(String, String)>>,
}

impl Default for Environment {
    /// An environment source with nothing configured.
    fn default() -> (r: Environment)
        ensures
            r.prefix is None,
            r.prefix_separator is None,
            r.separator is None,
            r.convert_case is None,
            r.list_separator is None,
            r.list_parse_keys is None,
            !r.ignore_empty,
            !r.try_parsing,
            !r.keep_prefix,
            r.source is None,
    {
        Environment {
            prefix: None,
            prefix_separator: None,
            separator: None,
            convert_case: None,
            list_separator: None,
            list_parse_keys: None,
            ignore_empty: false,
            try_parsing: false,
            keep_prefix: false,
            source: None,
        }
    }
}

impl Environment {
    /// An environment source with nothing configured.
    pub fn new() -> (r: Environment)
        ensures
            r == Environment::default_spec(),
    {
        Environment::default()
    }

    /// What `default` builds.
    pub open spec fn default_spec() -> Environment {
        Environment {
            prefix: None,
            prefix_separator: None,
            separator: None,
            convert_case: None,
            list_separator: None,
            list_parse_keys: None,
            ignore_empty: false,
            try_parsing: false,
            keep_prefix: false,
            source: None,
        }
    }

    /// An environment source limited to keys carrying the given prefix.
    pub fn with_prefix(s: &str) -> (r: Environment)
        ensures
            r == (Environment {
                prefix: r.prefix,
                ..Environment::default_spec()
            }),
            r.prefix matches Some(p) && p@ == s@,
    {
        let mut e = Environment::default();
        e.prefix = Some(s.to_owned());
        e
    }

    /// See [`Environment::with_prefix`].
    pub fn prefix(self, s: &str) -> (r: Environment)
        ensures
            r == (Environment { prefix: r.prefix, ..self }),
            r.prefix matches Some(p) && p@ == s@,
    {
        let mut e = self;
        e.prefix = Some(s.to_owned());
        e
    }

    /// An environment source whose keys are rewritten into the given case.
    pub fn with_convert_case(tt: CaseStyle) -> (r: Environment)
        ensures
            r == (Environment {
                convert_case: Some(tt),
                ..Environment::default_spec()
            }),
    {
        Environment::default().convert_case(tt)
    }

    /// Rewrites reshaped keys into the given case.
    pub fn convert_case(self, tt: CaseStyle) -> (r: Environment)
        ensures
            r == (Environment { convert_case: Some(tt), ..self }),
    {
        let mut e = self;
        e.convert_case = Some(tt);
        e
    }

    /// Sets what separates the prefix from the rest of the key.
    pub fn prefix_separator(self, s: &str) -> (r: Environment)
        ensures
            r == (Environment { prefix_separator: r.prefix_separator, ..self }),
            r.prefix_separator matches Some(p) && p@ == s@,
    {
        let mut e = self;
        e.prefix_separator = Some(s.to_owned());
        e
    }

    /// Sets what separates the path segments inside a key.
    pub fn separator(self, s: &str) -> (r: Environment)
        ensures
            r == (Environment { separator: r.separator, ..self }),
            r.separator matches Some(p) && p@ == s@,
    {
        let mut e = self;
        e.separator = Some(s.to_owned());
        e
    }

    /// Sets what splits a value into a list when parsing is on.
    pub fn list_separator(self, s: &str) -> (r: Environment)
        ensures
            r == (Environment { list_separator: r.list_separator, ..self }),
            r.list_separator matches Some(p) && p@ == s@,
    {
        let mut e = self;
        e.list_separator = Some(s.to_owned());
        e
    }

    /// Registers a key whose value is always split into a list; the key is
    /// kept lowercased, as the lookup at collection time is.
    pub fn with_list_parse_key(self, key: &str) -> (r: Environment)
        ensures
            r == (Environment { list_parse_keys: r.list_parse_keys, ..self }),
            r.list_parse_keys matches Some(ks) && ks@.len() >= 1 && ks@.last()@ == lower_of(key@),
            self.list_parse_keys matches Some(ks0) ==> (r.list_parse_keys matches Some(ks)
                && ks@ == ks0@.push(ks@.last())),
            self.list_parse_keys is None ==> (r.list_parse_keys matches Some(ks) && ks@.len()
                == 1),
    {
        let lowered = to_lowercase(key);
        let mut e = self;
        match e.list_parse_keys {
            None => {
                let mut v: Vec<String> = Vec::new();
                v.push(lowered);
                e.list_parse_keys = Some(v);
            },
            Some(mut ks) => {
                ks.push(lowered);
                e.list_parse_keys = Some(ks);
            },
        }
        e
    }

    /// Treats empty values as unset.
    pub fn ignore_empty(self, ignore: bool) -> (r: Environment)
        ensures
            r == (Environment { ignore_empty: ignore, ..self }),
    {
        let mut e = self;
        e.ignore_empty = ignore;
        e
    }

    /// Tries to parse each value as a boolean, an integer, a float and
    /// possibly a list before falling back to a string.
    pub fn try_parsing(self, try_parsing: bool) -> (r: Environment)
        ensures
            r == (Environment { try_parsing, ..self }),
    {
        let mut e = self;
        e.try_parsing = try_parsing;
        e
    }

    /// Keeps the stripped prefix as a literal leading path segment.
    pub fn keep_prefix(self, keep: bool) -> (r: Environment)
        ensures
            r == (Environment { keep_prefix: keep, ..self }),
    {
        let mut e = self;
        e.keep_prefix = keep;
        e
    }

    /// Supplies the snapshot of variables this source reads. The snapshot
    /// stands in for the process environment, which the caller reads once
    /// and hands over as plain pairs.
    pub fn source(self, source: Option<Vec<(String, String)>>) -> (r: Environment)
        ensures
            r == (Environment { source, ..self }),
    {
        let mut e = self;
        e.source = source;
        e
    }
}

/// The first position at or after `pos` where `sep` occurs in `s`, or the
/// length when it never does.
pub open spec fn find_sub(s: Seq<char>, sep: Seq<char>, pos: int) -> int
    decreases s.len() - pos,
    via find_sub_dec
{
    if pos < 0 || pos + sep.len() > s.len() {
        s.len() as int
    } else if s.subrange(pos, pos + sep.len() as int) == sep {
        pos
    } else {
        find_sub(s, sep, pos + 1)
    }
}

#[via_fn]
proof fn find_sub_dec(s: Seq<char>, sep: Seq<char>, pos: int) {
    if !(pos < 0 || pos + sep.len() > s.len()) && sep.len() == 0 {
        assert(s.subrange(pos, pos + sep.len() as int) =~= sep);
    }
}

/// Found occurrences lie at or after the start and fit inside the string.
pub proof fn lemma_find_sub(s: Seq<char>, sep: Seq<char>, pos: int)
    ensures
        find_sub(s, sep, pos) >= pos || find_sub(s, sep, pos) == s.len(),
        find_sub(s, sep, pos) <= s.len(),
        find_sub(s, sep, pos) < s.len() ==> find_sub(s, sep, pos) + sep.len() <= s.len() && s
            .subrange(find_sub(s, sep, pos), find_sub(s, sep, pos) + sep.len() as int) == sep,
    decreases s.len() - pos,
{
    if !(pos < 0 || pos + sep.len() > s.len()) && s.subrange(pos, pos + sep.len() as int) != sep {
        if sep.len() == 0 {
            assert(s.subrange(pos, pos + sep.len() as int) =~= sep);
        }
        lemma_find_sub(s, sep, pos + 1);
    }
}

/// Splitting on a separator: the pieces between the non-overlapping,
/// leftmost occurrences. An empty separator leaves the string whole.
pub open spec fn split_str(s: Seq<char>, sep: Seq<char>) -> Seq<Seq<char>>
    decreases s.len(),
    via split_str_dec
{
    if sep.len() == 0 {
        seq![s]
    } else {
        let m = find_sub(s, sep, 0);
        if m >= s.len() {
            seq![s]
        } else {
            seq![s.subrange(0, m)] + split_str(s.skip(m + sep.len() as int), sep)
        }
    }
}

#[via_fn]
proof fn split_str_dec(s: Seq<char>, sep: Seq<char>) {
    if sep.len() > 0 {
        lemma_find_sub(s, sep, 0);
    }
}

/// A split always yields at least one piece.
pub proof fn lemma_split_nonempty(s: Seq<char>, sep: Seq<char>)
    ensures
        split_str(s, sep).len() >= 1,
{
    if sep.len() > 0 {
        lemma_find_sub(s, sep, 0);
    }
}

/// Replacing every non-overlapping, leftmost occurrence of `from` with
/// `to`. An empty `from` leaves the string unchanged.
pub open spec fn replace_seq(s: Seq<char>, from: Seq<char>, to: Seq<char>) -> Seq<char>
    decreases s.len(),
{
    if s.len() == 0 {
        s
    } else if from.len() >= 1 && s.len() >= from.len() && s.subrange(0, from.len() as int)
        == from {
        to + replace_seq(s.skip(from.len() as int), from, to)
    } else {
        seq![s[0]] + replace_seq(s.skip(1), from, to)
    }
}

/// What `str::parse::<i64>` accepts: an optional sign, then digits spelling
/// a number the type can hold.
pub open spec fn spec_parse_i64(s: Seq<char>) -> Option<i64> {
    let ds: int = if s.len() >= 1 && (s[0] == '-' || s[0] == '+') {
        1
    } else {
        0
    };
    if s.len() <= ds || digit_end(s, ds) != s.len() {
        None
    } else {
        let mag = digits_val(s, ds, s.len() as int);
        let val = if s.len() >= 1 && s[0] == '-' {
            -mag
        } else {
            mag
        };
        if i64::MIN <= val <= i64::MAX {
            Some(val as i64)
        } else {
            None
        }
    }
}

/// What `str::parse::<usize>` accepts, as the number it spells: an
/// optional plus sign, then digits spelling a number the type can hold.
pub open spec fn spec_parse_usize(s: Seq<char>) -> Option<int> {
    let ds: int = if s.len() >= 1 && s[0] == '+' {
        1
    } else {
        0
    };
    if s.len() <= ds || digit_end(s, ds) != s.len() {
        None
    } else {
        let mag = digits_val(s, ds, s.len() as int);
        if mag <= usize::MAX {
            Some(mag)
        } else {
            None
        }
    }
}

/// Case-insensitive match of a character against a lowercase letter.
pub open spec fn ci_eq(a: char, l: char) -> bool {
    a == l || ('A' <= a && a <= 'Z' && a as int + 32 == l as int)
}

/// Case-insensitive match against a lowercase word.
pub open spec fn matches_ci(b: Seq<char>, lit: Seq<char>) -> bool {
    b.len() == lit.len() && (forall|i: int| 0 <= i < b.len() ==> ci_eq(b[i], #[trigger] lit[i]))
}

/// A well-formed exponent suffix starting at `p`, running to the end.
pub open spec fn exp_ok(b: Seq<char>, p: int) -> bool {
    if p == b.len() {
        true
    } else if 0 <= p < b.len() && (b[p] == 'e' || b[p] == 'E') {
        let q: int = if p + 1 < b.len() && (b[p + 1] == '+' || b[p + 1] == '-') {
            p + 2
        } else {
            p + 1
        };
        digit_end(b, q) > q && digit_end(b, q) == b.len()
    } else {
        false
    }
}

/// A number with digits, an optional fraction and an optional exponent:
/// digits on at least one side of the dot.
pub open spec fn is_float_number(b: Seq<char>) -> bool {
    let de = digit_end(b, 0);
    if 0 <= de < b.len() && b[de] == '.' {
        let fe = digit_end(b, de + 1);
        (de > 0 || fe > de + 1) && exp_ok(b, fe)
    } else {
        de > 0 && exp_ok(b, de)
    }
}

/// What `str::parse::<f64>` accepts: an optional sign, then an infinity or
/// not-a-number word in any case, or a number.
pub open spec fn is_float_literal(s: Seq<char>) -> bool {
    let b = if s.len() >= 1 && (s[0] == '+' || s[0] == '-') {
        s.skip(1)
    } else {
        s
    };
    matches_ci(b, "inf"@) || matches_ci(b, "infinity"@) || matches_ci(b, "nan"@)
        || is_float_number(b)
}

/// The models of a sequence of strings.
pub open spec fn strs_view(v: Seq<String>) -> Seq<Seq<char>> {
    Seq::new(v.len(), |i: int| v[i]@)
}

impl Environment {
    /// The configured segment separator, or nothing.
    pub open spec fn sep_view(self) -> Seq<char> {
        match self.separator {
            Some(s) => s@,
            None => Seq::empty(),
        }
    }

    /// What separates the prefix from the rest of the key.
    pub open spec fn prefix_sep_view(self) -> Seq<char> {
        match self.prefix_separator {
            Some(p) => p@,
            None => match self.separator {
                Some(s) => s@,
                None => "_"@,
            },
        }
    }

    /// The lowercased pattern a key must begin with, when a prefix is set.
    pub open spec fn prefix_pattern_view(self) -> Option<Seq<char>> {
        match self.prefix {
            Some(p) => Some(lower_of(p@ + self.prefix_sep_view())),
            None => None,
        }
    }

    /// The origin string every value of this source carries.
    pub open spec fn uri_view() -> Seq<char> {
        "the environment"@
    }

    /// A value of this source: the given kind, with the source's origin.
    pub open spec fn env_val(kind: KindView) -> ValView {
        ValView { origin: Some(Self::uri_view()), kind }
    }

    /// Whether a key was registered for list parsing.
    pub open spec fn list_keys_contain(self, k: Seq<char>) -> bool {
        self.list_parse_keys matches Some(ks) && exists|i: int|
            0 <= i < ks@.len() && (#[trigger] ks@[i])@ == k
    }

    /// The elements of a split value, each a string of this source.
    pub open spec fn list_view(parts: Seq<Seq<char>>) -> Seq<ValView> {
        Seq::new(parts.len(), |i: int| Self::env_val(KindView::Str(parts[i])))
    }

    /// The kind a raw value turns into: with parsing off, a string; with it
    /// on, the first of boolean, integer, float, list (when configured and,
    /// given an allow-list, the key is on it) and string that fits.
    pub open spec fn spec_leaf(self, key: Seq<char>, v: Seq<char>) -> KindView {
        if !self.try_parsing {
            KindView::Str(v)
        } else if lower_of(v) == "true"@ {
            KindView::Boolean(true)
        } else if lower_of(v) == "false"@ {
            KindView::Boolean(false)
        } else if spec_parse_i64(v) is Some {
            KindView::I64(spec_parse_i64(v)->Some_0)
        } else if is_float_literal(v) {
            KindView::Float(v)
        } else {
            match self.list_separator {
                Some(ls) => if self.list_parse_keys is Some {
                    if self.list_keys_contain(lower_of(key)) {
                        KindView::Array(Self::list_view(split_str(v, ls@)))
                    } else {
                        KindView::Str(v)
                    }
                } else {
                    KindView::Array(Self::list_view(split_str(v, ls@)))
                },
                None => KindView::Str(v),
            }
        }
    }

    /// One wrapping step of index reconstruction: a numeric segment wraps
    /// the value into an array holding it at that index behind nil padding,
    /// any other segment into a single-entry table.
    pub open spec fn wrap_one(part: Seq<char>, acc: ValView) -> ValView {
        match spec_parse_usize(part) {
            Some(ix) => Self::env_val(
                KindView::Array(
                    Seq::new(
                        (ix + 1) as nat,
                        |j: int|
                            if j == ix {
                                acc
                            } else {
                                Self::env_val(KindView::Nil)
                            },
                    ),
                ),
            ),
            None => Self::env_val(KindView::Table(Map::empty().insert(part, acc))),
        }
    }

    /// The wrapped value for the segments after the first, innermost last.
    pub open spec fn wrap_chain(parts: Seq<Seq<char>>, idx: int, leaf: ValView) -> ValView
        decreases parts.len() - idx,
    {
        if idx >= parts.len() || idx < 0 {
            leaf
        } else {
            Self::wrap_one(parts[idx], Self::wrap_chain(parts, idx + 1, leaf))
        }
    }

    /// What one snapshot pair contributes: nothing when empty values are
    /// ignored and the value is empty, or the key fails the prefix test;
    /// otherwise the reshaped key and the wrapped value.
    pub open spec fn spec_entry(self, k: Seq<char>, v: Seq<char>) -> Option<(Seq<char>, ValView)> {
        if self.ignore_empty && v.len() == 0 {
            None
        } else {
            let key0 = lower_of(k);
            let stripped: Option<(Seq<char>, Seq<char>)> = match self.prefix_pattern_view() {
                Some(pat) => if key0.len() >= pat.len() && key0.subrange(0, pat.len() as int)
                    == pat {
                    Some(
                        (
                            key0.skip(pat.len() as int),
                            if self.keep_prefix {
                                pat
                            } else {
                                Seq::empty()
                            },
                        ),
                    )
                } else {
                    None
                },
                None => Some((key0, Seq::empty())),
            };
            match stripped {
                None => None,
                Some((key1, kept1)) => {
                    let key2 = if self.sep_view().len() > 0 {
                        replace_seq(key1, self.sep_view(), "."@)
                    } else {
                        key1
                    };
                    let key3 = match self.convert_case {
                        Some(cs) => cased(cs.id(), key2),
                        None => key2,
                    };
                    let kept = match self.convert_case {
                        Some(cs) => cased(cs.id(), kept1),
                        None => kept1,
                    };
                    let leaf = Self::env_val(self.spec_leaf(key3, v));
                    let parts = split_str(key3, "."@);
                    let value = Self::wrap_chain(parts, 1, leaf);
                    Some((kept + parts[0], value))
                },
            }
        }
    }

    /// The table the first `i` snapshot pairs build, each contribution
    /// deep-merged over the previous ones.
    pub open spec fn collect_upto(self, pairs: Seq<(String, String)>, i: int) -> Map<
        Seq<char>,
        ValView,
    >
        decreases i,
    {
        if i <= 0 {
            Map::empty()
        } else {
            let prev = self.collect_upto(pairs, i - 1);
            match self.spec_entry(pairs[i - 1].0@, pairs[i - 1].1@) {
                None => prev,
                Some((k, v)) => env_merge_into(prev, k, v),
            }
        }
    }

    /// The table this source collects from its snapshot.
    pub open spec fn spec_collect(self) -> Map<Seq<char>, ValView>
        recommends
            self.source is Some,
    {
        self.collect_upto(self.source->0@, self.source->0@.len() as int)
    }
}

/// The combination rule of the environment source, used when the
/// single-entry trees of the snapshot pairs are folded together. It differs
/// from the value tree's own merge in two ways that index reconstruction
/// needs: arrays combine element by element (so sibling indexes build one
/// array), and an incoming nil never erases an existing value (so one
/// pair's padding cannot clobber another pair's element).
pub open spec fn spec_env_merge(a: ValView, b: ValView) -> ValView
    decreases b,
    via spec_env_merge_dec
{
    if b.kind is Nil {
        a
    } else if a.kind is Table && b.kind is Table {
        let ma = a.kind->Table_0;
        let mb = b.kind->Table_0;
        ValView {
            origin: a.origin,
            kind: KindView::Table(
                Map::new(
                    |k: Seq<char>| ma.dom().contains(k) || mb.dom().contains(k),
                    |k: Seq<char>|
                        if ma.dom().contains(k) && mb.dom().contains(k) {
                            spec_env_merge(ma[k], mb[k])
                        } else if mb.dom().contains(k) {
                            mb[k]
                        } else {
                            ma[k]
                        },
                ),
            ),
        }
    } else if a.kind is Array && b.kind is Array {
        ValView {
            origin: a.origin,
            kind: KindView::Array(env_merge_arrays(a.kind->Array_0, b.kind->Array_0)),
        }
    } else {
        b
    }
}

/// Arrays combined element by element; the longer side's tail survives.
pub open spec fn env_merge_arrays(va: Seq<ValView>, vb: Seq<ValView>) -> Seq<ValView>
    decreases vb,
{
    if vb.len() == 0 {
        va
    } else if va.len() == 0 {
        vb
    } else {
        seq![spec_env_merge(va[0], vb[0])] + env_merge_arrays(va.drop_first(), vb.drop_first())
    }
}

/// What the element-by-element combination holds at each index.
pub proof fn lemma_env_merge_arrays_index(va: Seq<ValView>, vb: Seq<ValView>)
    ensures
        env_merge_arrays(va, vb).len() == if va.len() >= vb.len() {
            va.len()
        } else {
            vb.len()
        },
        forall|i: int| 0 <= i < env_merge_arrays(va, vb).len() ==> #[trigger] env_merge_arrays(
            va,
            vb,
        )[i] == (if i < va.len() && i < vb.len() {
            spec_env_merge(va[i], vb[i])
        } else if i < vb.len() {
            vb[i]
        } else {
            va[i]
        }),
    decreases vb.len(),
{
    if vb.len() > 0 && va.len() > 0 {
        lemma_env_merge_arrays_index(va.drop_first(), vb.drop_first());
        let r = env_merge_arrays(va, vb);
        let rr = env_merge_arrays(va.drop_first(), vb.drop_first());
        assert forall|i: int| 0 <= i < r.len() implies #[trigger] r[i] == (if i < va.len() && i
            < vb.len() {
            spec_env_merge(va[i], vb[i])
        } else if i < vb.len() {
            vb[i]
        } else {
            va[i]
        }) by {
            if i > 0 {
                assert(r[i] == rr[i - 1]);
                assert(va.drop_first().len() == va.len() - 1);
                if i - 1 < va.drop_first().len() && i - 1 < vb.drop_first().len() {
                    assert(va.drop_first()[i - 1] == va[i]);
                    assert(vb.drop_first()[i - 1] == vb[i]);
                } else if i - 1 < vb.drop_first().len() {
                    assert(vb.drop_first()[i - 1] == vb[i]);
                } else {
                    assert(va.drop_first()[i - 1] == va[i]);
                }
            }
        }
    }
}

#[via_fn]
proof fn spec_env_merge_dec(a: ValView, b: ValView) {
    if !(b.kind is Nil) && a.kind is Array && b.kind is Array {
        assert(decreases_to!(b => b.kind));
        assert(decreases_to!(b.kind => b.kind->Array_0));
    }
}

/// One entry combined into a table map under the environment source's rule.
pub open spec fn env_merge_into(m: Map<Seq<char>, ValView>, k: Seq<char>, v: ValView) -> Map<
    Seq<char>,
    ValView,
> {
    m.insert(
        k,
        if m.dom().contains(k) {
            spec_env_merge(m[k], v)
        } else {
            v
        },
    )
}

/// The executable combination rule of the environment source.
fn env_merged(a: Value, b: &Value) -> (r: Value)
    requires
        a.wf(),
        b.wf(),
    ensures
        r@ == spec_env_merge(a@, b@),
        r.wf(),
    decreases b,
{
    let ghost a0 = a;
    if matches!(b.kind, ValueKind::Nil) {
        return a;
    }
    let a_is_table = matches!(a.kind, ValueKind::Table(_));
    let b_is_table = matches!(b.kind, ValueKind::Table(_));
    let a_is_array = matches!(a.kind, ValueKind::Array(_));
    let b_is_array = matches!(b.kind, ValueKind::Array(_));
    if a_is_table && b_is_table {
        let origin = a.origin;
        let mut ta = match a.kind {
            ValueKind::Table(t) => t,
            _ => Table::new(),
        };
        match &b.kind {
            ValueKind::Table(tb) => {
                let ghost ma = ta@;
                let n = tb.entries.len();
                let mut i: usize = 0;
                while i < n
                    invariant
                        i <= n,
                        b.kind is Table,
                        b.kind->Table_0 == *tb,
                        b.wf(),
                        n == tb.entries@.len(),
                        ta.wf(),
                        ta@ == env_entries_upto(ma, tb.entries@, i as int),
                    decreases n - i,
                {
                    proof {
                        crate::value::lemma_entries_wf_all(tb.entries@);
                        crate::value::lemma_entries_wf_all(ta.entries@);
                        crate::value::lemma_entries_view_dom(
                            ta.entries@,
                            tb.entries@[i as int].0@,
                        );
                    }
                    let k = tb.entries[i].0.clone();
                    let bv = &tb.entries[i].1;
                    proof {
                        assert(decreases_to!(*b => b.kind));
                        assert(decreases_to!(b.kind => b.kind->Table_0));
                        assert(decreases_to!(*tb => tb.entries));
                        assert(decreases_to!(tb.entries => tb.entries@));
                        assert(decreases_to!(tb.entries@ => tb.entries@[i as int]));
                        assert(decreases_to!(tb.entries@[i as int] => tb.entries@[i as int].1));
                    }
                    match ta.index_of(&k) {
                        Some(j) => {
                            let ghost s0 = ta.entries@;
                            proof {
                                crate::value::lemma_entries_view_index(s0, j as int);
                            }
                            let old_e = ta.take_at(j);
                            let nv = env_merged(old_e, bv);
                            ta.put_at(j, nv);
                            proof {
                                let s2 = ta.entries@;
                                assert(s2 =~= s0.update(j as int, (s0[j as int].0, nv)));
                                crate::value::lemma_entries_view_update(s0, j as int, nv);
                                assert forall|x: int| 0 <= x < s2.len() implies (
                                #[trigger] s2[x]).1.wf() by {
                                    if x != j {
                                        assert(s2[x] == s0[x]);
                                    }
                                }
                                assert forall|x: int, y: int| 0 <= x < y < s2.len() implies
                                    s2[x].0@ != s2[y].0@ by {
                                    assert(s2[x].0@ == s0[x].0@);
                                    assert(s2[y].0@ == s0[y].0@);
                                }
                                crate::value::lemma_entries_wf_intro(s2);
                                assert(ta@ == env_merge_into(
                                    env_entries_upto(ma, tb.entries@, i as int),
                                    k@,
                                    bv@,
                                ));
                            }
                        },
                        None => {
                            let ghost s0 = ta.entries@;
                            let copied = bv.duplicate();
                            ta.push_entry(k, copied);
                            proof {
                                let s2 = ta.entries@;
                                assert(s2 =~= s0.push((s2.last().0, copied)));
                                crate::value::lemma_entries_view_push(s0, s2.last().0, copied);
                                assert forall|x: int| 0 <= x < s2.len() implies (
                                #[trigger] s2[x]).1.wf() by {
                                    if x < s2.len() - 1 {
                                        assert(s2[x] == s0[x]);
                                    }
                                }
                                assert forall|x: int, y: int| 0 <= x < y < s2.len() implies
                                    s2[x].0@ != s2[y].0@ by {
                                    assert(s2[x] == s0[x]);
                                    if y < s2.len() - 1 {
                                        assert(s2[y] == s0[y]);
                                    }
                                }
                                crate::value::lemma_entries_wf_intro(s2);
                                assert(!entries_view(s0).dom().contains(s2.last().0@));
                                assert(ta@ == env_merge_into(
                                    env_entries_upto(ma, tb.entries@, i as int),
                                    k@,
                                    bv@,
                                ));
                            }
                        },
                    }
                    i += 1;
                }
                proof {
                    crate::value::lemma_entries_wf_all(tb.entries@);
                    lemma_env_entries_full(ma, tb.entries@);
                }
                let r = Value { origin, kind: ValueKind::Table(ta) };
                proof {
                    assert(a0@.kind->Table_0 == ma);
                    assert(b@.kind->Table_0 == entries_view(tb.entries@));
                    let smk = spec_env_merge(a0@, b@).kind;
                    assert(smk is Table);
                    assert(ta@ =~= smk->Table_0);
                    assert(smk == KindView::Table(smk->Table_0));
                    assert(r@.kind == KindView::Table(ta@));
                    assert(r@.origin == spec_env_merge(a0@, b@).origin);
                }
                r
            },
            _ => {
                proof {
                    assert(false);
                }
                b.duplicate()
            },
        }
    } else if a_is_array && b_is_array {
        let origin = a.origin;
        let mut va = match a.kind {
            ValueKind::Array(x) => x,
            _ => Vec::new(),
        };
        match &b.kind {
            ValueKind::Array(vb) => {
                let ghost e0 = crate::value::elems_view(va@);
                let ghost eb = crate::value::elems_view(vb@);
                proof {
                    crate::value::lemma_elems_view_index(va@);
                    crate::value::lemma_elems_view_index(vb@);
                    crate::value::lemma_elems_wf_all(va@);
                    crate::value::lemma_elems_wf_all(vb@);
                }
                let la = va.len();
                let lb = vb.len();
                let mut i: usize = 0;
                while i < lb
                    invariant
                        i <= lb,
                        b.kind is Array,
                        b.kind->Array_0 == *vb,
                        b.wf(),
                        lb == vb@.len(),
                        la == e0.len(),
                        eb == crate::value::elems_view(vb@),
                        e0.len() == la,
                        va@.len() == (if la >= lb {
                            la as int
                        } else if i > la {
                            i as int
                        } else {
                            la as int
                        }),
                        forall|x: int| 0 <= x < va@.len() ==> (#[trigger] va@[x]).wf(),
                        forall|x: int| i <= x < la ==> (#[trigger] va@[x])@ == e0[x],
                        forall|x: int| 0 <= x < i && x < va@.len() ==> (#[trigger] va@[x])@ == (
                        if x < la && x < lb {
                            spec_env_merge(e0[x], eb[x])
                        } else if x < lb {
                            eb[x]
                        } else {
                            e0[x]
                        }),
                    decreases lb - i,
                {
                    proof {
                        crate::value::lemma_elems_view_index(vb@);
                        crate::value::lemma_elems_wf_all(vb@);
                        assert(decreases_to!(*b => b.kind));
                        assert(decreases_to!(b.kind => b.kind->Array_0));
                        assert(decreases_to!(*vb => vb@));
                        assert(decreases_to!(vb@ => vb@[i as int]));
                    }
                    let bv = &vb[i];
                    proof {
                        assert(bv@ == eb[i as int]);
                    }
                    if i < la {
                        let mut child = Value::nil();
                        let ghost va0 = va@;
                        let p = &mut va[i];
                        core::mem::swap(p, &mut child);
                        proof {
                            assert(child == va0[i as int]);
                            assert(child@ == e0[i as int]);
                        }
                        let nv = env_merged(child, bv);
                        let mut tmp = nv;
                        let q = &mut va[i];
                        core::mem::swap(q, &mut tmp);
                        proof {
                            assert(va@ =~= va0.update(i as int, nv));
                            assert forall|x: int| 0 <= x < va@.len() implies (
                            #[trigger] va@[x]).wf() by {
                                if x != i {
                                    assert(va@[x] == va0[x]);
                                }
                            }
                            assert(va@[i as int]@ == spec_env_merge(e0[i as int], eb[i as int]));
                        }
                    } else {
                        let ghost va0 = va@;
                        va.push(bv.duplicate());
                        proof {
                            assert(va@.last() == va@[va@.len() - 1]);
                            assert(va@.last()@ == eb[i as int]);
                            assert forall|x: int| 0 <= x < va@.len() implies (
                            #[trigger] va@[x]).wf() by {
                                if x < va@.len() - 1 {
                                    assert(va@[x] == va0[x]);
                                }
                            }
                        }
                    }
                    i += 1;
                }
                proof {
                    crate::value::lemma_elems_view_index(va@);
                    assert forall|x: int| 0 <= x < va@.len() implies (#[trigger] va@[x]).wf() by {}
                    crate::value::lemma_elems_wf_intro(va@);
                    assert(a0@.kind->Array_0 == e0);
                    assert(b@.kind->Array_0 == eb);
                    lemma_env_merge_arrays_index(e0, eb);
                    let smk = spec_env_merge(a0@, b@).kind;
                    assert(smk is Array);
                    assert(crate::value::elems_view(va@) =~= smk->Array_0);
                    assert(smk == KindView::Array(smk->Array_0));
                }
                let r = Value { origin, kind: ValueKind::Array(va) };
                proof {
                    assert(r@.kind == KindView::Array(crate::value::elems_view(
                        r.kind->Array_0@,
                    )));
                    assert(r@.origin == spec_env_merge(a0@, b@).origin);
                }
                r
            },
            _ => {
                proof {
                    assert(false);
                }
                b.duplicate()
            },
        }
    } else {
        b.duplicate()
    }
}

/// The environment combination of the first `i` entries of `s` into `m0`.
spec fn env_entries_upto(m0: Map<Seq<char>, ValView>, s: Seq<(String, Value)>, i: int) -> Map<
    Seq<char>,
    ValView,
>
    decreases i,
{
    if i <= 0 {
        m0
    } else {
        env_merge_into(env_entries_upto(m0, s, i - 1), s[i - 1].0@, s[i - 1].1@)
    }
}

/// Folding a table's entries one by one under the environment rule reaches
/// the key union that `spec_env_merge` describes.
proof fn lemma_env_entries_full(m0: Map<Seq<char>, ValView>, s: Seq<(String, Value)>)
    requires
        forall|x: int, y: int| 0 <= x < y < s.len() ==> s[x].0@ != s[y].0@,
    ensures
        env_entries_upto(m0, s, s.len() as int) =~= Map::new(
            |k: Seq<char>| m0.dom().contains(k) || entries_view(s).dom().contains(k),
            |k: Seq<char>|
                if m0.dom().contains(k) && entries_view(s).dom().contains(k) {
                    spec_env_merge(m0[k], entries_view(s)[k])
                } else if entries_view(s).dom().contains(k) {
                    entries_view(s)[k]
                } else {
                    m0[k]
                },
        ),
    decreases s.len(),
{
    if s.len() == 0 {
    } else {
        let d = s.drop_last();
        assert(forall|x: int| 0 <= x < d.len() ==> d[x] == s[x]);
        lemma_env_entries_full(m0, d);
        crate::value::lemma_entries_view_dom(d, s.last().0@);
        assert(forall|i: int| 0 <= i < d.len() ==> d[i].0@ != s.last().0@);
        assert(!entries_view(d).dom().contains(s.last().0@));
        assert(env_entries_upto(m0, s, s.len() as int) == env_merge_into(
            env_entries_upto(m0, s, s.len() - 1),
            s.last().0@,
            s.last().1@,
        ));
        assert(forall|i: int| 0 <= i <= d.len() ==> env_entries_upto(m0, s, i)
            == env_entries_upto(m0, d, i)) by {
            assert forall|i: int| 0 <= i <= d.len() implies env_entries_upto(m0, s, i)
                == env_entries_upto(m0, d, i) by {
                lemma_env_entries_prefix(m0, s, d, i);
            }
        }
        assert(entries_view(s) == entries_view(d).insert(s.last().0@, s.last().1@));
    }
}

/// The environment fold of a prefix of entries sees only that prefix.
proof fn lemma_env_entries_prefix(
    m0: Map<Seq<char>, ValView>,
    s: Seq<(String, Value)>,
    d: Seq<(String, Value)>,
    i: int,
)
    requires
        d.len() <= s.len(),
        forall|x: int| 0 <= x < d.len() ==> d[x] == s[x],
        i <= d.len(),
    ensures
        env_entries_upto(m0, s, i) == env_entries_upto(m0, d, i),
    decreases i,
{
    if i > 0 {
        lemma_env_entries_prefix(m0, s, d, i - 1);
    }
}

/// Combining a single-entry table into a table combines that one entry.
proof fn lemma_env_merge_single(a: ValView, o2: Option<Seq<char>>, k: Seq<char>, v: ValView)
    requires
        a.kind is Table,
    ensures
        spec_env_merge(
            a,
            (ValView { origin: o2, kind: KindView::Table(Map::empty().insert(k, v)) }),
        ) == (ValView {
            origin: a.origin,
            kind: KindView::Table(env_merge_into(a.kind->Table_0, k, v)),
        }),
{
    let b = ValView { origin: o2, kind: KindView::Table(Map::empty().insert(k, v)) };
    let r = spec_env_merge(a, b);
    assert(r.kind is Table);
    assert(r.kind->Table_0 =~= env_merge_into(a.kind->Table_0, k, v));
    assert(r.kind == KindView::Table(r.kind->Table_0));
}

/// Whether `s` begins with `p`.
fn str_starts_with(s: &str, p: &str) -> (r: bool)
    ensures
        r == (s@.len() >= p@.len() && s@.subrange(0, p@.len() as int) == p@),
{
    let cs = crate::path::str_chars(s);
    let cp = crate::path::str_chars(p);
    let np = cp.len();
    if np > cs.len() {
        return false;
    }
    let mut i: usize = 0;
    while i < np
        invariant
            i <= np,
            np == cp.len(),
            np <= cs@.len(),
            cs@ == s@,
            cp@ == p@,
            forall|x: int| 0 <= x < i ==> cs@[x] == cp@[x],
        decreases np - i,
    {
        if cs[i] != cp[i] {
            proof {
                assert(s@.subrange(0, p@.len() as int)[i as int] != p@[i as int]);
            }
            return false;
        }
        i += 1;
    }
    proof {
        assert(s@.subrange(0, p@.len() as int) =~= p@);
    }
    true
}

/// Occurrence search shifted into a suffix.
proof fn lemma_find_sub_shift(s: Seq<char>, sep: Seq<char>, base: int, off: int)
    requires
        0 <= base,
        0 <= off,
        base + off <= s.len(),
        sep.len() >= 1,
    ensures
        find_sub(s.skip(base), sep, off) == if find_sub(s, sep, base + off) == s.len() {
            s.skip(base).len() as int
        } else {
            find_sub(s, sep, base + off) - base
        },
    decreases s.len() - base - off,
{
    let rest = s.skip(base);
    lemma_find_sub(s, sep, base + off);
    lemma_find_sub(rest, sep, off);
    if base + off + sep.len() <= s.len() {
        assert(rest.subrange(off, off + sep.len() as int) =~= s.subrange(
            base + off,
            base + off + sep.len() as int,
        ));
        if s.subrange(base + off, base + off + sep.len() as int) != sep {
            lemma_find_sub_shift(s, sep, base, off + 1);
        }
    }
}

/// The first occurrence of `sep` in `cs` at or after `pos`.
fn find_sub_at(cs: &Vec<char>, sep: &Vec<char>, pos: usize) -> (r: usize)
    requires
        pos <= cs@.len(),
        sep@.len() >= 1,
    ensures
        r == find_sub(cs@, sep@, pos as int),
        pos <= r <= cs@.len(),
    decreases cs@.len() - pos,
{
    proof {
        lemma_find_sub(cs@, sep@, pos as int);
    }
    if cs.len() - pos < sep.len() {
        return cs.len();
    }
    let mut i: usize = 0;
    let np = sep.len();
    proof {
        assert(pos + np <= cs@.len());
    }
    let mut matched = true;
    while i < np
        invariant
            i <= np,
            np == sep@.len(),
            pos <= cs@.len(),
            pos + np <= cs@.len(),
            cs@.len() <= usize::MAX,
            matched <==> (forall|x: int| 0 <= x < i ==> cs@[pos + x] == sep@[x]),
        decreases np - i,
    {
        if cs[pos + i] != sep[i] {
            matched = false;
            proof {
                assert(cs@[pos + i as int] != sep@[i as int]);
            }
            i = np;
        } else {
            i += 1;
        }
    }
    if matched {
        proof {
            assert(cs@.subrange(pos as int, pos + sep@.len() as int) =~= sep@);
        }
        pos
    } else {
        proof {
            assert(cs@.subrange(pos as int, pos + sep@.len() as int) != sep@) by {
                let w = cs@.subrange(pos as int, pos + sep@.len() as int);
                let x = choose|x: int| 0 <= x < sep@.len() && cs@[pos + x] != sep@[x];
                assert(w[x] == cs@[pos + x]);
            }
        }
        find_sub_at(cs, sep, pos + 1)
    }
}

/// Splits a string on a separator, keeping empty pieces; an empty
/// separator leaves the string whole.
fn split_string(s: &str, sep: &str) -> (r: Vec<String>)
    ensures
        strs_view(r@) == split_str(s@, sep@),
        r@.len() >= 1,
{
    let mut parts: Vec<String> = Vec::new();
    if sep.is_empty() {
        parts.push(s.to_owned());
        proof {
            assert(strs_view(parts@) =~= split_str(s@, sep@));
        }
        return parts;
    }
    let cs = crate::path::str_chars(s);
    let cl = crate::path::str_chars(sep);
    let n = cs.len();
    let sl = cl.len();
    let mut base: usize = 0;
    proof {
        assert(s@.skip(0) =~= s@);
        assert(strs_view(parts@) =~= Seq::<Seq<char>>::empty());
        assert(split_str(s@, sep@) =~= strs_view(parts@) + split_str(s@.skip(0), sep@));
    }
    loop
        invariant
            cs@ == s@,
            cl@ == sep@,
            n == cs@.len(),
            sl == cl@.len(),
            sl >= 1,
            base <= n,
            split_str(s@, sep@) == strs_view(parts@) + split_str(s@.skip(base as int), sep@),
        decreases n - base,
    {
        let m = find_sub_at(&cs, &cl, base);
        proof {
            lemma_find_sub_shift(cs@, cl@, base as int, 0);
            lemma_find_sub(cs@.skip(base as int), cl@, 0);
        }
        if m >= n {
            let piece = s.substring_char(base, n);
            let ghost p0 = parts@;
            parts.push(piece.to_owned());
            proof {
                assert(piece@ =~= s@.skip(base as int));
                assert(split_str(s@.skip(base as int), sep@) =~= seq![s@.skip(base as int)]);
                assert(strs_view(parts@) =~= strs_view(p0).push(s@.skip(base as int)));
                assert(strs_view(parts@) =~= split_str(s@, sep@));
            }
            return parts;
        } else {
            let piece = s.substring_char(base, m);
            let ghost p0 = parts@;
            parts.push(piece.to_owned());
            proof {
                let rest = s@.skip(base as int);
                assert(piece@ =~= rest.subrange(0, m - base));
                assert(s@.skip(m + sl) =~= rest.skip(m - base + sl));
                assert(strs_view(parts@) =~= strs_view(p0).push(rest.subrange(0, m - base)));
                assert(strs_view(p0) + split_str(rest, sep@) =~= strs_view(parts@) + split_str(
                    s@.skip(m + sl),
                    sep@,
                ));
            }
            base = m + sl;
        }
    }
}

/// Replaces every leftmost, non-overlapping occurrence of `from` in `s`
/// with `to`; an empty `from` leaves the string unchanged.
fn replace_all(s: &str, from: &str, to: &str) -> (r: String)
    ensures
        r@ == replace_seq(s@, from@, to@),
{
    let mut out = String::new();
    if from.is_empty() {
        out.append(s);
        proof {
            lemma_replace_empty_from(s@, from@, to@);
        }
        return out;
    }
    let cs = crate::path::str_chars(s);
    let cf = crate::path::str_chars(from);
    let n = cs.len();
    let fl = cf.len();
    let mut i: usize = 0;
    proof {
        assert(s@.skip(0) =~= s@);
        assert(out@ =~= Seq::<char>::empty());
        assert(replace_seq(s@, from@, to@) =~= out@ + replace_seq(s@.skip(0), from@, to@));
    }
    loop
        invariant
            cs@ == s@,
            cf@ == from@,
            n == cs@.len(),
            fl == cf@.len(),
            fl >= 1,
            i <= n,
            replace_seq(s@, from@, to@) == out@ + replace_seq(s@.skip(i as int), from@, to@),
        decreases n - i,
    {
        if i >= n {
            proof {
                assert(s@.skip(i as int).len() == 0);
                assert(replace_seq(s@.skip(i as int), from@, to@) =~= Seq::<char>::empty());
                assert(out@ =~= out@ + replace_seq(s@.skip(i as int), from@, to@));
            }
            return out;
        }
        let ghost rest = s@.skip(i as int);
        let mut matched = n - i >= fl;
        if matched {
            let mut j: usize = 0;
            while j < fl
                invariant
                    j <= fl,
                    fl == cf@.len(),
                    i + fl <= n,
                    i <= n,
                    n == cs@.len(),
                    matched <==> (forall|x: int| 0 <= x < j ==> cs@[i + x] == cf@[x]),
                decreases fl - j,
            {
                if cs[i + j] != cf[j] {
                    matched = false;
                    proof {
                        assert(cs@[i + j as int] != cf@[j as int]);
                    }
                    j = fl;
                } else {
                    j += 1;
                }
            }
        }
        if matched {
            out.append(to);
            proof {
                assert(rest.subrange(0, fl as int) =~= from@) by {
                    assert(forall|x: int| 0 <= x < fl ==> rest.subrange(0, fl as int)[x] == cs@[
                        i + x]);
                }
                assert(s@.skip(i + fl) =~= rest.skip(fl as int));
            }
            i = i + fl;
        } else {
            let one = s.substring_char(i, i + 1);
            out.append(one);
            proof {
                if i + fl <= n {
                    assert(rest.subrange(0, fl as int) != from@) by {
                        let x = choose|x: int|
                            0 <= x < fl && cs@[i + x] != cf@[x];
                        assert(rest.subrange(0, fl as int)[x] == cs@[i + x]);
                    }
                } else {
                    assert(rest.len() < from@.len());
                }
                assert(one@ =~= seq![rest[0]]);
                assert(s@.skip(i as int + 1) =~= rest.skip(1));
            }
            i = i + 1;
        }
    }
}

/// Digit values grow with more digits and never go negative.
proof fn lemma_digits_grow(s: Seq<char>, a: int, b: int)
    requires
        a <= b <= s.len(),
        forall|x: int| a <= x < b ==> is_digit(s[x]),
    ensures
        forall|m: int| a <= m <= b ==> digits_val(s, a, b) >= #[trigger] digits_val(s, a, m) >= 0,
    decreases b - a,
{
    if a < b {
        lemma_digits_grow(s, a, b - 1);
        assert(is_digit(s[b - 1]));
        let prev = digits_val(s, a, b - 1);
        assert(digits_val(s, a, b) == prev * 10 + (s[b - 1] as int - '0' as int));
        assert(prev * 10 >= prev) by (nonlinear_arith)
            requires
                prev >= 0,
        ;
        assert forall|m: int| a <= m <= b implies digits_val(s, a, b) >= #[trigger] digits_val(
            s,
            a,
            m,
        ) >= 0 by {
            if m < b {
                assert(digits_val(s, a, b - 1) >= digits_val(s, a, m) >= 0);
            }
        }
    }
}

/// Every position inside a scanned digit run holds a digit.
proof fn lemma_digit_run(s: Seq<char>, a: int, b: int, x: int)
    requires
        0 <= a <= s.len(),
        b == digit_end(s, a),
        a <= x < b,
    ensures
        is_digit(s[x]),
    decreases x - a,
{
    crate::path::lemma_digit_end(s, a);
    if x > a {
        lemma_digit_run(s, a + 1, b, x);
    }
}

/// The step check of decimal accumulation: adding a digit passes the bound
/// exactly when the accumulator passed the divided bound.
proof fn lemma_accum_step(acc: int, d: int, m: int)
    requires
        0 <= acc,
        0 <= d <= 9,
        10 <= m,
    ensures
        acc > (m - d) / 10 <==> acc * 10 + d > m,
{
    vstd::arithmetic::div_mod::lemma_fundamental_div_mod(m - d, 10);
    let q = (m - d) / 10;
    let r = (m - d) % 10;
    assert(m - d == 10 * q + r);
    if acc > q {
        assert(acc * 10 >= (q + 1) * 10) by (nonlinear_arith)
            requires
                acc >= q + 1,
        ;
    } else {
        assert(acc * 10 <= q * 10) by (nonlinear_arith)
            requires
                acc <= q,
        ;
    }
}

/// Reads a whole string of digits (after an optional sign at `ds`) as the
/// number it spells, detecting when it passes `bound`.
fn accumulate_digits(cs: &Vec<char>, ds: usize, bound: u64) -> (r: Option<u64>)
    requires
        ds <= cs@.len(),
        crate::path::digit_end(cs@, ds as int) == cs@.len(),
        bound >= 10,
    ensures
        ({
            let mag = digits_val(cs@, ds as int, cs@.len() as int);
            if mag <= bound {
                r matches Some(a) && a == mag
            } else {
                r is None
            }
        }),
{
    let n = cs.len();
    proof {
        assert forall|x: int| ds <= x < n implies is_digit(cs@[x]) by {
            lemma_digit_run(cs@, ds as int, n as int, x);
        }
        lemma_digits_grow(cs@, ds as int, n as int);
    }
    let mut acc: u64 = 0;
    let mut over = false;
    let mut j: usize = ds;
    while j < n
        invariant
            ds <= j <= n,
            n == cs@.len(),
            bound >= 10,
            forall|x: int| ds <= x < n ==> is_digit(cs@[x]),
            forall|m: int| ds <= m <= n ==> digits_val(cs@, ds as int, n as int)
                >= #[trigger] digits_val(cs@, ds as int, m) >= 0,
            !over ==> acc == digits_val(cs@, ds as int, j as int) && acc <= bound,
            over ==> digits_val(cs@, ds as int, j as int) > bound,
        decreases n - j,
    {
        let d: u32 = (cs[j] as u32) - ('0' as u32);
        proof {
            assert(is_digit(cs@[j as int]));
            assert(0 <= d <= 9);
        }
        if !over {
            if acc > (bound - d as u64) / 10 {
                over = true;
                proof {
                    lemma_accum_step(acc as int, d as int, bound as int);
                    assert(digits_val(cs@, ds as int, j as int + 1) == acc * 10 + d);
                }
            } else {
                proof {
                    lemma_accum_step(acc as int, d as int, bound as int);
                }
                acc = acc * 10 + d as u64;
            }
        }
        j += 1;
    }
    if over {
        None
    } else {
        Some(acc)
    }
}

/// What `str::parse::<i64>` accepts, executably.
fn parse_i64_str(v: &str) -> (r: Option<i64>)
    ensures
        r == spec_parse_i64(v@),
{
    let cs = crate::path::str_chars(v);
    let n = cs.len();
    let neg = n >= 1 && cs[0] == '-';
    let ds: usize = if n >= 1 && (cs[0] == '-' || cs[0] == '+') {
        1
    } else {
        0
    };
    if n <= ds {
        return None;
    }
    if crate::path::scan_digit(&cs, ds) != n {
        return None;
    }
    match accumulate_digits(&cs, ds, 0x8000_0000_0000_0000u64) {
        None => None,
        Some(mag) => {
            if neg {
                if mag <= 0x7fff_ffff_ffff_ffffu64 {
                    Some(-(mag as i64))
                } else {
                    Some(i64::MIN)
                }
            } else {
                if mag <= 0x7fff_ffff_ffff_ffffu64 {
                    Some(mag as i64)
                } else {
                    None
                }
            }
        },
    }
}

/// What `str::parse::<usize>` accepts, executably.
fn parse_usize_str(v: &str) -> (r: Option<usize>)
    ensures
        match r {
            Some(u) => spec_parse_usize(v@) == Some(u as int),
            None => spec_parse_usize(v@) is None,
        },
{
    let cs = crate::path::str_chars(v);
    let n = cs.len();
    let ds: usize = if n >= 1 && cs[0] == '+' {
        1
    } else {
        0
    };
    if n <= ds {
        return None;
    }
    if n >= 1 && cs[0] == '-' {
        return None;
    }
    if crate::path::scan_digit(&cs, ds) != n {
        return None;
    }
    match accumulate_digits(&cs, ds, usize::MAX as u64) {
        None => None,
        Some(mag) => Some(mag as usize),
    }
}

/// Case-insensitive comparison of a suffix against a lowercase word.
fn eq_ci(cs: &Vec<char>, from: usize, lit: &str) -> (r: bool)
    requires
        from <= cs@.len(),
    ensures
        r == matches_ci(cs@.skip(from as int), lit@),
{
    let ln = lit.unicode_len();
    if cs.len() - from != ln {
        return false;
    }
    let mut i: usize = 0;
    while i < ln
        invariant
            i <= ln,
            from + ln == cs@.len(),
            cs@.len() <= usize::MAX,
            ln == lit@.len(),
            forall|x: int| 0 <= x < i ==> ci_eq(cs@[from + x], #[trigger] lit@[x]),
        decreases ln - i,
    {
        let a = cs[from + i];
        let l = lit.get_char(i);
        if !(a == l || ('A' <= a && a <= 'Z' && (a as u32) + 32 == (l as u32))) {
            proof {
                assert(!ci_eq(cs@[from + i as int], lit@[i as int]));
                assert(cs@.skip(from as int)[i as int] == cs@[from + i as int]);
            }
            return false;
        }
        i += 1;
    }
    proof {
        assert forall|x: int| 0 <= x < lit@.len() implies ci_eq(
            cs@.skip(from as int)[x],
            #[trigger] lit@[x],
        ) by {
            assert(cs@.skip(from as int)[x] == cs@[from + x]);
        }
    }
    true
}

/// Digit scans shifted into a suffix.
proof fn lemma_digit_shift(s: Seq<char>, base: int, off: int)
    requires
        0 <= base,
        0 <= off,
        base + off <= s.len(),
    ensures
        digit_end(s.skip(base), off) == digit_end(s, base + off) - base,
    decreases s.len() - base - off,
{
    let rest = s.skip(base);
    if base + off < s.len() {
        assert(rest[off] == s[base + off]);
        if is_digit(s[base + off]) {
            lemma_digit_shift(s, base, off + 1);
        }
    }
}

/// Whether the text from `off` on is a number with optional fraction and
/// exponent.
fn is_float_number_at(cs: &Vec<char>, off: usize) -> (r: bool)
    requires
        off <= cs@.len(),
    ensures
        r == is_float_number(cs@.skip(off as int)),
{
    let ghost b = cs@.skip(off as int);
    let n = cs.len();
    let de = crate::path::scan_digit(cs, off);
    proof {
        lemma_digit_shift(cs@, off as int, 0);
    }
    if de < n && cs[de] == '.' {
        proof {
            assert(b[de - off] == cs@[de as int]);
        }
        let fe = crate::path::scan_digit(cs, de + 1);
        proof {
            lemma_digit_shift(cs@, off as int, de + 1 - off);
        }
        if de > off || fe > de + 1 {
            exp_ok_at(cs, off, fe)
        } else {
            false
        }
    } else {
        proof {
            if de < n {
                assert(b[de - off] == cs@[de as int]);
            }
        }
        if de > off {
            exp_ok_at(cs, off, de)
        } else {
            false
        }
    }
}

/// Whether the text from `p` on is a well-formed exponent suffix of the
/// text starting at `off`.
fn exp_ok_at(cs: &Vec<char>, off: usize, p: usize) -> (r: bool)
    requires
        off <= p <= cs@.len(),
    ensures
        r == exp_ok(cs@.skip(off as int), p - off),
{
    let ghost b = cs@.skip(off as int);
    let n = cs.len();
    if p == n {
        return true;
    }
    proof {
        assert(b[p - off] == cs@[p as int]);
    }
    if cs[p] == 'e' || cs[p] == 'E' {
        let q: usize = if p + 1 < n && (cs[p + 1] == '+' || cs[p + 1] == '-') {
            proof {
                assert(b[p + 1 - off] == cs@[p as int + 1]);
            }
            p + 2
        } else {
            proof {
                if p + 1 < n {
                    assert(b[p + 1 - off] == cs@[p as int + 1]);
                }
            }
            p + 1
        };
        if q > n {
            return false;
        }
        let ee = crate::path::scan_digit(cs, q);
        proof {
            lemma_digit_shift(cs@, off as int, q - off);
        }
        ee > q && ee == n
    } else {
        false
    }
}

/// What `str::parse::<f64>` accepts, executably.
fn is_float_str(v: &str) -> (r: bool)
    ensures
        r == is_float_literal(v@),
{
    let cs = crate::path::str_chars(v);
    let n = cs.len();
    let off: usize = if n >= 1 && (cs[0] == '+' || cs[0] == '-') {
        1
    } else {
        0
    };
    proof {
        if off == 0 {
            assert(cs@.skip(0) =~= cs@);
        }
    }
    eq_ci(&cs, off, "inf") || eq_ci(&cs, off, "infinity") || eq_ci(&cs, off, "nan")
        || is_float_number_at(&cs, off)
}

/// Whether the vector holds a string with this model.
fn contains_str(keys: &Vec<String>, k: &String) -> (r: bool)
    ensures
        r == exists|i: int| 0 <= i < keys@.len() && (#[trigger] keys@[i])@ == k@,
{
    let n = keys.len();
    let mut i: usize = 0;
    while i < n
        invariant
            i <= n,
            n == keys@.len(),
            forall|x: int| 0 <= x < i ==> (#[trigger] keys@[x])@ != k@,
        decreases n - i,
    {
        if keys[i].eq(k) {
            return true;
        }
        i += 1;
    }
    false
}

impl Environment {
    /// Builds the value for one raw string, under the source's parsing
    /// rules.
    fn leaf_value(&self, key: &str, v: &str) -> (r: Value)
        ensures
            r@ == Environment::env_val(self.spec_leaf(key@, v@)),
            r.wf(),
    {
        let uri = "the environment";
        if !self.try_parsing {
            return Value::new(Some(uri), ValueKind::Str(v.to_owned()));
        }
        let lowered = to_lowercase(v);
        if lowered.eq(&"true".to_owned()) {
            return Value::new(Some(uri), ValueKind::Boolean(true));
        }
        if lowered.eq(&"false".to_owned()) {
            return Value::new(Some(uri), ValueKind::Boolean(false));
        }
        match parse_i64_str(v) {
            Some(n) => {
                return Value::new(Some(uri), ValueKind::I64(n));
            },
            None => {},
        }
        if is_float_str(v) {
            return Value::new(Some(uri), ValueKind::Float(v.to_owned()));
        }
        match &self.list_separator {
            Some(ls) => {
                let split_it: bool = match &self.list_parse_keys {
                    Some(keys) => {
                        let klow = to_lowercase(key);
                        contains_str(keys, &klow)
                    },
                    None => true,
                };
                if split_it {
                    let parts = split_string(v, ls.as_str());
                    let mut elems: Vec<Value> = Vec::new();
                    let n = parts.len();
                    let mut i: usize = 0;
                    while i < n
                        invariant
                            uri@ == Environment::uri_view(),
                            i <= n,
                            n == parts@.len(),
                            elems@.len() == i,
                            forall|x: int| 0 <= x < i ==> (#[trigger] elems@[x])@
                                == Environment::env_val(KindView::Str(parts@[x]@)) && elems@[x].wf(),
                        decreases n - i,
                    {
                        let ghost e0 = elems@;
                        let p = parts[i].clone();
                        let ghost pv = p@;
                        let e = Value::new(Some(uri), ValueKind::Str(p));
                        proof {
                            assert(e@.kind == KindView::Str(pv));
                            assert(e@ == Environment::env_val(KindView::Str(parts@[i as int]@)));
                        }
                        elems.push(e);
                        i += 1;
                        proof {
                            assert(forall|x: int| 0 <= x < i - 1 ==> elems@[x] == e0[x]);
                        }
                    }
                    proof {
                        crate::value::lemma_elems_view_index(elems@);
                        assert forall|x: int| 0 <= x < elems@.len() implies (
                        #[trigger] elems@[x]).wf() by {}
                        crate::value::lemma_elems_wf_intro(elems@);
                        assert(crate::value::elems_view(elems@) =~= Environment::list_view(
                            split_str(v@, ls@),
                        ));
                    }
                    let r = Value::new(Some(uri), ValueKind::Array(elems));
                    proof {
                        assert(r@.kind == KindView::Array(crate::value::elems_view(elems@)));
                    }
                    return r;
                } else {
                    return Value::new(Some(uri), ValueKind::Str(v.to_owned()));
                }
            },
            None => {},
        }
        Value::new(Some(uri), ValueKind::Str(v.to_owned()))
    }

    /// One wrapping step of index reconstruction.
    fn wrap_one_exec(part: &String, acc: Value) -> (r: Value)
        requires
            acc.wf(),
        ensures
            r@ == Environment::wrap_one(part@, acc@),
            r.wf(),
    {
        let uri = "the environment";
        match parse_usize_str(part.as_str()) {
            Some(ix) => {
                let mut elems: Vec<Value> = Vec::new();
                let mut i: usize = 0;
                while i < ix
                    invariant
                        uri@ == Environment::uri_view(),
                        i <= ix,
                        elems@.len() == i,
                        forall|x: int| 0 <= x < i ==> (#[trigger] elems@[x])@
                            == Environment::env_val(KindView::Nil) && elems@[x].wf(),
                    decreases ix - i,
                {
                    let ghost e0 = elems@;
                    let e = Value::new(Some(uri), ValueKind::Nil);
                    proof {
                        assert(e@ == Environment::env_val(KindView::Nil));
                    }
                    elems.push(e);
                    i += 1;
                    proof {
                        assert(forall|x: int| 0 <= x < i - 1 ==> elems@[x] == e0[x]);
                    }
                }
                let ghost acc0 = acc;
                elems.push(acc);
                proof {
                    crate::value::lemma_elems_view_index(elems@);
                    assert forall|x: int| 0 <= x < elems@.len() implies (
                    #[trigger] elems@[x]).wf() by {}
                    crate::value::lemma_elems_wf_intro(elems@);
                    assert(crate::value::elems_view(elems@) =~= Seq::new(
                        (ix + 1) as nat,
                        |j: int|
                            if j == ix {
                                acc0@
                            } else {
                                Environment::env_val(KindView::Nil)
                            },
                    ));
                }
                Value::new(Some(uri), ValueKind::Array(elems))
            },
            None => {
                let mut t = Table::new();
                t.insert(part.clone(), acc);
                proof {
                    assert(t@ =~= Map::<Seq<char>, ValView>::empty().insert(part@, acc@));
                }
                Value::new(Some(uri), ValueKind::Table(t))
            },
        }
    }

    /// What one snapshot pair contributes, executably.
    fn entry_for(&self, pat: &Option<String>, k: &str, v: &str) -> (r: Option<(String, Value)>)
        requires
            match pat {
                Some(p) => self.prefix_pattern_view() == Some(p@),
                None => self.prefix_pattern_view() is None,
            },
        ensures
            match r {
                Some(kv) => self.spec_entry(k@, v@) matches Some(skv) && kv.0@ == skv.0 && kv.1@
                    == skv.1 && kv.1.wf(),
                None => self.spec_entry(k@, v@) is None,
            },
    {
        if self.ignore_empty && v.is_empty() {
            return None;
        }
        let key0 = to_lowercase(k);
        let (key1, kept1): (String, String) = match pat {
            Some(pattern) => {
                if str_starts_with(key0.as_str(), pattern.as_str()) {
                    let plen = pattern.as_str().unicode_len();
                    let klen = key0.as_str().unicode_len();
                    let stripped = key0.as_str().substring_char(plen, klen).to_owned();
                    let kept = if self.keep_prefix {
                        pattern.clone()
                    } else {
                        String::new()
                    };
                    (stripped, kept)
                } else {
                    return None;
                }
            },
            None => (key0, String::new()),
        };
        let key2: String = match &self.separator {
            Some(sep) => {
                if !sep.as_str().is_empty() {
                    replace_all(key1.as_str(), sep.as_str(), ".")
                } else {
                    key1
                }
            },
            None => key1,
        };
        let (key3, kept): (String, String) = match &self.convert_case {
            Some(cs) => (to_case_style(key2.as_str(), cs), to_case_style(kept1.as_str(), cs)),
            None => (key2, kept1),
        };
        let leaf = self.leaf_value(key3.as_str(), v);
        let parts = split_string(key3.as_str(), ".");
        let ghost parts_v = split_str(key3@, "."@);
        let mut acc = leaf;
        let mut j = parts.len();
        while j > 1
            invariant
                1 <= j <= parts@.len(),
                strs_view(parts@) == parts_v,
                acc.wf(),
                acc@ == Environment::wrap_chain(parts_v, j as int, Environment::env_val(
                    self.spec_leaf(key3@, v@),
                )),
            decreases j,
        {
            j = j - 1;
            let prev = acc;
            acc = Environment::wrap_one_exec(&parts[j], prev);
            proof {
                assert(parts@[j as int]@ == parts_v[j as int]);
            }
        }
        let mut final_key = kept;
        final_key.append(parts[0].as_str());
        proof {
            assert(parts@[0]@ == parts_v[0]);
        }
        Some((final_key, acc))
    }

    /// Collects the snapshot into a table: each accepted pair's reshaped
    /// key and wrapped value are deep-merged over what came before, so
    /// sibling keys build up shared structure and later pairs win on
    /// conflicts.
    pub fn collect(&self) -> (r: Result<Table, ConfigError>)
        requires
            self.source is Some,
        ensures
            r matches Ok(t) && t@ == self.spec_collect() && t.wf(),
    {
        let uri = "the environment";
        let mut m = Value::new(Some(uri), ValueKind::Table(Table::new()));
        let prefix_pattern: Option<String> = match &self.prefix {
            Some(p) => {
                let mut t = p.clone();
                match (&self.prefix_separator, &self.separator) {
                    (Some(x), _) => t.append(x.as_str()),
                    (None, Some(s)) => t.append(s.as_str()),
                    (None, None) => t.append("_"),
                }
                Some(to_lowercase(t.as_str()))
            },
            None => None,
        };
        proof {
            match &prefix_pattern {
                Some(pp) => {
                    assert(self.prefix_pattern_view() == Some(pp@));
                },
                None => {},
            }
        }
        let pairs: &Vec<(String, String)> = match &self.source {
            Some(v) => v,
            None => {
                proof {
                    assert(false);
                }
                return Err(ConfigError::Message("the snapshot is missing".to_owned()));
            },
        };
        let n = pairs.len();
        let mut i: usize = 0;
        proof {
            assert(m@.kind->Table_0 =~= self.collect_upto(pairs@, 0));
        }
        while i < n
            invariant
                i <= n,
                n == pairs@.len(),
                self.source matches Some(sv) && sv@ == pairs@,
                match prefix_pattern {
                    Some(p) => self.prefix_pattern_view() == Some(p@),
                    None => self.prefix_pattern_view() is None,
                },
                m.wf(),
                m@.kind is Table,
                m@.origin == Some(Environment::uri_view()),
                m@.kind->Table_0 == self.collect_upto(pairs@, i as int),
            decreases n - i,
        {
            let entry = self.entry_for(&prefix_pattern, pairs[i].0.as_str(), pairs[i].1.as_str());
            match entry {
                Some((key, val)) => {
                    let ghost kk = key@;
                    let ghost vv = val@;
                    let mut single = Table::new();
                    single.insert(key, val);
                    let wrapped = Value::new(Some(uri), ValueKind::Table(single));
                    proof {
                        assert(wrapped@.kind->Table_0 =~= Map::<Seq<char>, ValView>::empty()
                            .insert(kk, vv));
                        assert(wrapped@ == (ValView {
                            origin: wrapped@.origin,
                            kind: KindView::Table(
                                Map::<Seq<char>, ValView>::empty().insert(kk, vv),
                            ),
                        }));
                        lemma_env_merge_single(m@, wrapped@.origin, kk, vv);
                    }
                    m = env_merged(m, &wrapped);
                },
                None => {},
            }
            i += 1;
        }
        match m.kind {
            ValueKind::Table(t) => Ok(t),
            _ => {
                proof {
                    assert(false);
                }
                Err(ConfigError::Message("the collected root is not a table".to_owned()))
            },
        }
    }
}

/// An empty `from` replaces nothing.
proof fn lemma_replace_empty_from(s: Seq<char>, from: Seq<char>, to: Seq<char>)
    requires
        from.len() == 0,
    ensures
        replace_seq(s, from, to) == s,
    decreases s.len(),
{
    if s.len() > 0 {
        lemma_replace_empty_from(s.skip(1), from, to);
        assert(replace_seq(s, from, to) =~= seq![s[0]] + s.skip(1));
        assert(seq![s[0]] + s.skip(1) =~= s);
    }
}

} // verus!