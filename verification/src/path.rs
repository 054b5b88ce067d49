//! The path expression language: dotted and bracketed addresses into the
//! value tree (`a.b[2].c`), with read-only navigation, forced creation of
//! missing structure, and deep-merging assignment.

use vstd::prelude::*;

use crate::value::empty_table_view;
use crate::value::entries_view;
use crate::value::lemma_entries_view_dom;
use crate::value::lemma_entries_view_index;
use crate::value::lemma_entries_view_push;
use crate::value::lemma_entries_view_update;
use crate::value::lemma_entries_wf_all;
use crate::value::lemma_entries_wf_intro;
use crate::value::lemma_elems_wf_all;
use crate::value::lemma_elems_wf_intro;
use crate::value::nil_view;
use crate::value::KindView;
use crate::value::Table;
use crate::value::ValView;
use crate::value::Value;
use crate::value::ValueKind;

pub mod parser;

pub use parser::from_str;
pub(crate) use parser::str_chars;
pub(crate) use parser::scan_digit;
pub use parser::lemma_digit_end;
pub use parser::digit_end;
pub use parser::digits_val;
pub use parser::is_digit;
pub use parser::ParseError;
pub use parser::ParseErrorKind;

verus! {

/// A parsed path: an identifier at the root, extended to the right by `.key`
/// accesses and `[index]` subscripts.
#[derive(Debug, PartialEq, Eq, Hash)]
pub enum Expression {
    Identifier(String),
    Child(Box<Expression>, String),
    Subscript(Box<Expression>, i32),
}

/// One step of a path, as specifications see it.
pub enum PathSeg {
    Key(Seq<char>),
    Index(int),
}

impl Expression {
    /// Builds the root of an expression chain from a key.
    pub fn root(root: String) -> (r: Expression)
        ensures
            r == Expression::Identifier(root),
    {
        Expression::Identifier(root)
    }

    /// The steps of this path, leftmost first.
    pub open spec fn segs(&self) -> Seq<PathSeg>
        decreases self,
    {
        match self {
            Expression::Identifier(id) => seq![PathSeg::Key(id@)],
            Expression::Child(e, k) => e.segs().push(PathSeg::Key(k@)),
            Expression::Subscript(e, i) => e.segs().push(PathSeg::Index(*i as int)),
        }
    }

    /// Every path has at least its root identifier.
    pub proof fn lemma_segs_nonempty(&self)
        ensures
            self.segs().len() >= 1,
            self.segs()[0] is Key,
        decreases self,
    {
        match self {
            Expression::Identifier(_) => {},
            Expression::Child(e, _) => {
                e.lemma_segs_nonempty();
            },
            Expression::Subscript(e, _) => {
                e.lemma_segs_nonempty();
            },
        }
    }
}

/// Where a possibly negative index lands in an array of length `len`: a
/// non-negative index counts from the front, a negative one from the end.
pub open spec fn resolved_index(i: int, len: int) -> int {
    if i >= 0 {
        i
    } else {
        len + i
    }
}

/// One navigation step from a value: a key step reads a table entry, an
/// index step reads an array slot, counting negative indexes from the end.
/// Everything else is absence.
pub open spec fn spec_step(v: ValView, seg: PathSeg) -> Option<ValView> {
    match seg {
        PathSeg::Key(k) => if v.kind is Table && v.kind->Table_0.dom().contains(k) {
            Some(v.kind->Table_0[k])
        } else {
            None
        },
        PathSeg::Index(i) => if v.kind is Array && 0 <= resolved_index(i, v.kind->Array_0.len() as int)
            < v.kind->Array_0.len() {
            Some(v.kind->Array_0[resolved_index(i, v.kind->Array_0.len() as int)])
        } else {
            None
        },
    }
}

/// Read-only navigation along a whole path. Navigation failures are not
/// distinguished from absence: both are `None`.
pub open spec fn spec_get(v: ValView, segs: Seq<PathSeg>) -> Option<ValView>
    decreases segs.len(),
{
    if segs.len() == 0 {
        Some(v)
    } else {
        match spec_step(v, segs[0]) {
            Some(child) => spec_get(child, segs.drop_first()),
            None => None,
        }
    }
}

/// Navigating a path extended by one step first navigates the path, then
/// takes the step.
pub proof fn lemma_get_push(v: ValView, s: Seq<PathSeg>, x: PathSeg)
    ensures
        spec_get(v, s) is None ==> spec_get(v, s.push(x)) is None,
        spec_get(v, s) matches Some(u) ==> spec_get(v, s.push(x)) == spec_step(u, x),
    decreases s.len(),
{
    let p = s.push(x);
    if s.len() == 0 {
        assert(p.len() == 1);
        assert(p[0] == x);
        assert(p.drop_first() =~= Seq::<PathSeg>::empty());
        assert(spec_get(v, s) == Some(v));
        match spec_step(v, x) {
            Some(c) => {
                assert(spec_get(v, p) == spec_get(c, p.drop_first()));
                assert(spec_get(c, p.drop_first()) == Some(c));
            },
            None => {
                assert(spec_get(v, p) is None);
            },
        }
    } else {
        assert(p.len() == s.len() + 1);
        assert(p[0] == s[0]);
        assert(p.drop_first() =~= s.drop_first().push(x));
        match spec_step(v, s[0]) {
            Some(child) => {
                assert(spec_get(v, p) == spec_get(child, p.drop_first()));
                assert(spec_get(v, s) == spec_get(child, s.drop_first()));
                lemma_get_push(child, s.drop_first(), x);
            },
            None => {
                assert(spec_get(v, p) is None);
                assert(spec_get(v, s) is None);
            },
        }
    }
}

/// Converts a relative index into an absolute one. A non-negative index
/// stands for itself; a negative one counts from the end. When a negative
/// index reaches below the front of the array, the error carries how many
/// slots are missing before position zero.
pub fn abs_index(index: i32, len: usize) -> (r: Result<usize, usize>)
    ensures
        index >= 0 ==> r == Result::<usize, usize>::Ok(index as usize),
        index < 0 && -(index as int) <= len ==> (r matches Ok(u) && u as int == len + index),
        index < 0 && -(index as int) > len ==> (r matches Err(e) && e as int == -(index as int)
            - len),
{
    if index >= 0 {
        Ok(index as usize)
    } else {
        let mag: u64 = ((-((index as i64) + 1)) as u64) + 1;
        if mag <= len as u64 {
            Ok(len - (mag as usize))
        } else {
            Err((mag - len as u64) as usize)
        }
    }
}

impl Expression {
    /// Read-only navigation from `root`: a table lookup for each key step,
    /// an array access for each index step, `None` on absence or any shape
    /// mismatch.
    pub fn get<'a>(&self, root: &'a Value) -> (r: Option<&'a Value>)
        requires
            root.wf(),
        ensures
            match r {
                Some(v) => spec_get(root@, self.segs()) == Some(v@) && v.wf(),
                None => spec_get(root@, self.segs()) is None,
            },
        decreases self,
    {
        match self {
            Expression::Identifier(id) => {
                proof {
                    self.lemma_segs_nonempty();
                    assert(self.segs() =~= Seq::<PathSeg>::empty().push(PathSeg::Key(id@)));
                    lemma_get_push(root@, Seq::<PathSeg>::empty(), PathSeg::Key(id@));
                }
                Self::step_key(root, id)
            },
            Expression::Child(e, key) => {
                proof {
                    lemma_get_push(root@, e.segs(), PathSeg::Key(key@));
                }
                match e.get(root) {
                    Some(value) => Self::step_key(value, key),
                    None => None,
                }
            },
            Expression::Subscript(e, index) => {
                proof {
                    lemma_get_push(root@, e.segs(), PathSeg::Index(*index as int));
                }
                match e.get(root) {
                    Some(value) => Self::step_index(value, *index),
                    None => None,
                }
            },
        }
    }

    /// One key step of `get`.
    fn step_key<'a>(value: &'a Value, key: &String) -> (r: Option<&'a Value>)
        requires
            value.wf(),
        ensures
            match r {
                Some(v) => spec_step(value@, PathSeg::Key(key@)) == Some(v@) && v.wf(),
                None => spec_step(value@, PathSeg::Key(key@)) is None,
            },
    {
        match &value.kind {
            ValueKind::Table(map) => {
                proof {
                    lemma_entries_wf_all(map.entries@);
                    lemma_entries_view_dom(map.entries@, key@);
                }
                let r = map.get(key.as_str());
                proof {
                    if map@.dom().contains(key@) {
                        let i = choose|i: int|
                            0 <= i < map.entries@.len() && map.entries@[i].0@ == key@;
                        assert(map.entries@[i].1.wf());
                    }
                }
                r
            },
            _ => None,
        }
    }

    /// One index step of `get`.
    fn step_index<'a>(value: &'a Value, index: i32) -> (r: Option<&'a Value>)
        requires
            value.wf(),
        ensures
            match r {
                Some(v) => spec_step(value@, PathSeg::Index(index as int)) == Some(v@) && v.wf(),
                None => spec_step(value@, PathSeg::Index(index as int)) is None,
            },
    {
        match &value.kind {
            ValueKind::Array(array) => {
                proof {
                    lemma_elems_wf_all(array@);
                    crate::value::lemma_elems_view_index(array@);
                }
                match abs_index(index, array.len()) {
                    Ok(u) => {
                        if u < array.len() {
                            Some(&array[u])
                        } else {
                            None
                        }
                    },
                    Err(_) => None,
                }
            },
            _ => None,
        }
    }
}

/// An executable path step.
enum Seg {
    Key(String),
    Index(i32),
}

/// The step a segment stands for.
spec fn seg_view(s: Seg) -> PathSeg {
    match s {
        Seg::Key(k) => PathSeg::Key(k@),
        Seg::Index(i) => PathSeg::Index(i as int),
    }
}

/// The steps of an executable segment list.
spec fn segs_view(s: Seq<Seg>) -> Seq<PathSeg> {
    Seq::new(s.len(), |i: int| seg_view(s[i]))
}

/// The model of an option of values.
pub open spec fn opt_val_view(o: Option<Value>) -> Option<ValView> {
    match o {
        Some(v) => Some(v@),
        None => None,
    }
}

/// The model of a freshly created empty array without origin.
pub open spec fn empty_array_view() -> ValView {
    ValView { origin: None, kind: KindView::Array(Seq::empty()) }
}

/// A sequence of `n` nil placeholders.
pub open spec fn nil_seq(n: int) -> Seq<ValView> {
    Seq::new(n as nat, |i: int| nil_view())
}

/// The array after forced indexing: grown with nil padding at the back for a
/// non-negative index beyond the end, left alone for an in-range index, and
/// padded at the front when a negative index reaches below position zero.
pub open spec fn padded_array(arr: Seq<ValView>, i: int) -> Seq<ValView> {
    if i >= 0 {
        if i < arr.len() {
            arr
        } else {
            arr + nil_seq(i + 1 - arr.len())
        }
    } else if arr.len() + i >= 0 {
        arr
    } else {
        nil_seq(-(arr.len() as int) - i) + arr
    }
}

/// Where a forced index lands inside the padded array.
pub open spec fn padded_target(arr: Seq<ValView>, i: int) -> int {
    if i >= 0 {
        i
    } else if arr.len() + i >= 0 {
        arr.len() + i
    } else {
        0
    }
}

/// Assigning a value into a slot. A non-table value replaces the slot. A
/// table value deep-merges into it: an empty table leaves whatever was there
/// (creating an empty table only where the slot was missing), a non-empty
/// one rebuilds the slot as a table, entry by entry.
pub open spec fn spec_set_value(old: Option<ValView>, val: ValView) -> ValView
    decreases val,
{
    if !(val.kind is Table) {
        val
    } else {
        let mv = val.kind->Table_0;
        if mv.dom() == Set::<Seq<char>>::empty() {
            match old {
                Some(o) => o,
                None => empty_table_view(),
            }
        } else {
            let base = match old {
                Some(o) => if o.kind is Table {
                    o
                } else {
                    empty_table_view()
                },
                None => empty_table_view(),
            };
            let mb = base.kind->Table_0;
            ValView {
                origin: base.origin,
                kind: KindView::Table(
                    Map::new(
                        |k: Seq<char>| mb.dom().contains(k) || mv.dom().contains(k),
                        |k: Seq<char>|
                            if mv.dom().contains(k) {
                                spec_set_value(
                                    if mb.dom().contains(k) {
                                        Some(mb[k])
                                    } else {
                                        None
                                    },
                                    mv[k],
                                )
                            } else {
                                mb[k]
                            },
                    ),
                ),
            }
        }
    }
}

/// Writing `val` at the path `segs` below `node`, coercing every node along
/// the way to the shape the next step needs and creating what is missing.
pub open spec fn spec_set_at(node: ValView, segs: Seq<PathSeg>, val: ValView) -> ValView
    decreases segs.len(),
{
    match segs[0] {
        PathSeg::Key(k) => {
            let t = if node.kind is Table {
                node
            } else {
                empty_table_view()
            };
            let m = t.kind->Table_0;
            let oldk = if m.dom().contains(k) {
                Some(m[k])
            } else {
                None
            };
            let newk = if segs.len() <= 1 {
                spec_set_value(oldk, val)
            } else {
                spec_set_at(
                    match oldk {
                        Some(c) => c,
                        None => nil_view(),
                    },
                    segs.drop_first(),
                    val,
                )
            };
            ValView { origin: t.origin, kind: KindView::Table(m.insert(k, newk)) }
        },
        PathSeg::Index(i) => {
            let a = if node.kind is Array {
                node
            } else {
                empty_array_view()
            };
            let arr = padded_array(a.kind->Array_0, i);
            let u = padded_target(a.kind->Array_0, i);
            let newu = if segs.len() <= 1 {
                val
            } else {
                spec_set_at(arr[u], segs.drop_first(), val)
            };
            ValView { origin: a.origin, kind: KindView::Array(arr.update(u, newu)) }
        },
    }
}

/// Writing at a path: a bare identifier coerces even a non-table root, a
/// longer path leaves a non-table root untouched, since forced navigation
/// never succeeds there.
pub open spec fn spec_set(root: ValView, segs: Seq<PathSeg>, val: ValView) -> ValView {
    if root.kind is Table || segs.len() <= 1 {
        spec_set_at(root, segs, val)
    } else {
        root
    }
}

/// Forcing the path `segs` below `node` to exist: every node along the way
/// is coerced to the shape the next step needs, missing entries become nil,
/// and arrays grow nil padding; the slot at the end is created but its value
/// kept when it already existed.
pub open spec fn spec_force_at(node: ValView, segs: Seq<PathSeg>) -> ValView
    decreases segs.len(),
{
    match segs[0] {
        PathSeg::Key(k) => {
            let t = if node.kind is Table {
                node
            } else {
                empty_table_view()
            };
            let m = t.kind->Table_0;
            let oldk = if m.dom().contains(k) {
                Some(m[k])
            } else {
                None
            };
            let child = match oldk {
                Some(c) => c,
                None => nil_view(),
            };
            let newk = if segs.len() <= 1 {
                child
            } else {
                spec_force_at(child, segs.drop_first())
            };
            ValView { origin: t.origin, kind: KindView::Table(m.insert(k, newk)) }
        },
        PathSeg::Index(i) => {
            let a = if node.kind is Array {
                node
            } else {
                empty_array_view()
            };
            let arr = padded_array(a.kind->Array_0, i);
            let u = padded_target(a.kind->Array_0, i);
            let newu = if segs.len() <= 1 {
                arr[u]
            } else {
                spec_force_at(arr[u], segs.drop_first())
            };
            ValView { origin: a.origin, kind: KindView::Array(arr.update(u, newu)) }
        },
    }
}

/// Forced navigation only ever succeeds below a table root, and never
/// touches a non-table root.
pub open spec fn spec_force(root: ValView, segs: Seq<PathSeg>) -> ValView {
    if root.kind is Table {
        spec_force_at(root, segs)
    } else {
        root
    }
}

/// Assigning the first `i` entries of `s` into `m0`, one after the other,
/// as the executable table-assignment loop does.
spec fn set_entries_upto(m0: Map<Seq<char>, ValView>, s: Seq<(String, Value)>, i: int) -> Map<
    Seq<char>,
    ValView,
>
    decreases i,
{
    if i <= 0 {
        m0
    } else {
        let prev = set_entries_upto(m0, s, i - 1);
        let k = s[i - 1].0@;
        prev.insert(
            k,
            spec_set_value(
                if prev.dom().contains(k) {
                    Some(prev[k])
                } else {
                    None
                },
                s[i - 1].1@,
            ),
        )
    }
}

/// Folding a table's entries one by one into `m0` reaches exactly what
/// `spec_set_value` describes for a non-empty table, because unique keys
/// make the entry assignments independent of each other.
proof fn lemma_set_entries_full(m0: Map<Seq<char>, ValView>, s: Seq<(String, Value)>)
    requires
        forall|x: int, y: int| 0 <= x < y < s.len() ==> s[x].0@ != s[y].0@,
    ensures
        set_entries_upto(m0, s, s.len() as int) =~= Map::new(
            |k: Seq<char>| m0.dom().contains(k) || entries_view(s).dom().contains(k),
            |k: Seq<char>|
                if entries_view(s).dom().contains(k) {
                    spec_set_value(
                        if m0.dom().contains(k) {
                            Some(m0[k])
                        } else {
                            None
                        },
                        entries_view(s)[k],
                    )
                } else {
                    m0[k]
                },
        ),
    decreases s.len(),
{
    if s.len() == 0 {
    } else {
        let d = s.drop_last();
        assert(forall|x: int| 0 <= x < d.len() ==> d[x] == s[x]);
        lemma_set_entries_full(m0, d);
        lemma_entries_view_dom(d, s.last().0@);
        assert(forall|i: int| 0 <= i < d.len() ==> d[i].0@ != s.last().0@);
        assert(!entries_view(d).dom().contains(s.last().0@));
        assert(set_entries_upto(m0, s, s.len() as int) == ({
            let prev = set_entries_upto(m0, s, s.len() - 1);
            let k = s.last().0@;
            prev.insert(
                k,
                spec_set_value(
                    if prev.dom().contains(k) {
                        Some(prev[k])
                    } else {
                        None
                    },
                    s.last().1@,
                ),
            )
        }));
        assert(forall|i: int| 0 <= i <= d.len() ==> set_entries_upto(m0, s, i)
            == set_entries_upto(m0, d, i)) by {
            assert forall|i: int| 0 <= i <= d.len() implies set_entries_upto(m0, s, i)
                == set_entries_upto(m0, d, i) by {
                lemma_set_entries_prefix(m0, s, d, i);
            }
        }
        assert(entries_view(s) == entries_view(d).insert(s.last().0@, s.last().1@));
    }
}

/// Assigning a prefix of entries sees only that prefix.
proof fn lemma_set_entries_prefix(
    m0: Map<Seq<char>, ValView>,
    s: Seq<(String, Value)>,
    d: Seq<(String, Value)>,
    i: int,
)
    requires
        d.len() <= s.len(),
        forall|x: int| 0 <= x < d.len() ==> d[x] == s[x],
        i <= d.len(),
    ensures
        set_entries_upto(m0, s, i) == set_entries_upto(m0, d, i),
    decreases i,
{
    if i > 0 {
        lemma_set_entries_prefix(m0, s, d, i - 1);
    }
}

impl Expression {
    /// Parses a path string, wrapping a failure into the library's error
    /// type. Success happens exactly on the strings the grammar admits.
    pub fn from_str(s: &str) -> (r: Result<Expression, crate::error::ConfigError>)
        ensures
            parser::spec_parse(s@) matches Ok(gs) ==> (r matches Ok(e) && e.segs() == gs),
            parser::spec_parse(s@) matches Err(se) ==> (r matches Err(ce) && ce matches
                crate::error::ConfigError::PathParse { cause } && cause.input@ == s@
                && cause.offset as int == se.off && cause.kind == se.kind),
    {
        match parser::from_str(s) {
            Ok(e) => Ok(e),
            Err(pe) => Err(crate::error::ConfigError::path_parse(pe)),
        }
    }

    /// The executable steps of this path, leftmost first.
    fn to_segments(&self) -> (r: Vec<Seg>)
        ensures
            segs_view(r@) == self.segs(),
        decreases self,
    {
        match self {
            Expression::Identifier(id) => {
                let mut v: Vec<Seg> = Vec::new();
                v.push(Seg::Key(id.clone()));
                proof {
                    assert(segs_view(v@) =~= self.segs());
                }
                v
            },
            Expression::Child(e, k) => {
                let mut v = e.to_segments();
                let ghost v0 = v@;
                v.push(Seg::Key(k.clone()));
                proof {
                    assert(segs_view(v@) =~= segs_view(v0).push(PathSeg::Key(k@)));
                }
                v
            },
            Expression::Subscript(e, i) => {
                let mut v = e.to_segments();
                let ghost v0 = v@;
                v.push(Seg::Index(*i));
                proof {
                    assert(segs_view(v@) =~= segs_view(v0).push(PathSeg::Index(*i as int)));
                }
                v
            },
        }
    }
}

/// Grows or pads an array so that `index` lands inside it, and says where.
fn pad_array(arr: &mut Vec<Value>, index: i32) -> (u: usize)
    requires
        crate::value::elems_wf(old(arr)@),
    ensures
        crate::value::elems_view(final(arr)@) =~= padded_array(
            crate::value::elems_view(old(arr)@),
            index as int,
        ),
        u as int == padded_target(crate::value::elems_view(old(arr)@), index as int),
        u < final(arr)@.len(),
        crate::value::elems_wf(final(arr)@),
{
    proof {
        lemma_elems_wf_all(arr@);
        crate::value::lemma_elems_view_index(arr@);
    }
    let ghost a0 = arr@;
    match abs_index(index, arr.len()) {
        Ok(t) => {
            while arr.len() <= t
                invariant
                    crate::value::elems_wf(a0),
                    a0.len() <= arr@.len(),
                    arr@.len() <= (if a0.len() > t + 1 {
                        a0.len() as int
                    } else {
                        t + 1
                    }),
                    arr@ =~= a0 + Seq::new((arr@.len() - a0.len()) as nat, |i: int| Value::nil_const()),
                decreases t + 1 - arr@.len(),
            {
                let ghost b0 = arr@;
                arr.push(Value::nil());
                proof {
                    assert(arr@ =~= b0.push(Value { origin: None, kind: ValueKind::Nil }));
                    assert(arr@ =~= a0 + Seq::new(
                        (arr@.len() - a0.len()) as nat,
                        |i: int| Value::nil_const(),
                    ));
                }
            }
            proof {
                crate::value::lemma_elems_view_index(arr@);
                assert forall|i: int| 0 <= i < arr@.len() implies (#[trigger] arr@[i]).wf() by {
                    if i < a0.len() {
                        assert(arr@[i] == a0[i]);
                    } else {
                        assert(arr@[i] == Value::nil_const());
                    }
                }
                lemma_elems_wf_intro(arr@);
                assert(crate::value::elems_view(arr@) =~= padded_array(
                    crate::value::elems_view(a0),
                    index as int,
                ));
            }
            t
        },
        Err(missing) => {
            let mut front: Vec<Value> = Vec::new();
            let mut i: usize = 0;
            while i < missing
                invariant
                    i <= missing,
                    front@ =~= Seq::new(i as nat, |j: int| Value::nil_const()),
                decreases missing - i,
            {
                let ghost f0 = front@;
                front.push(Value::nil());
                i += 1;
                proof {
                    assert(front@ =~= f0.push(Value { origin: None, kind: ValueKind::Nil }));
                }
            }
            front.append(arr);
            core::mem::swap(arr, &mut front);
            proof {
                crate::value::lemma_elems_view_index(arr@);
                assert forall|x: int| 0 <= x < arr@.len() implies (#[trigger] arr@[x]).wf() by {
                    if x < missing {
                        assert(arr@[x] == Value::nil_const());
                    } else {
                        assert(arr@[x] == a0[x - missing]);
                    }
                }
                lemma_elems_wf_intro(arr@);
                assert(crate::value::elems_view(arr@) =~= padded_array(
                    crate::value::elems_view(a0),
                    index as int,
                ));
            }
            0
        },
    }
}

impl Expression {
    /// Assigns `val` into the slot whose previous value was `old`, under the
    /// rule that `spec_set_value` states.
    fn set_value(old: Option<Value>, val: &Value) -> (r: Value)
        requires
            old matches Some(o) ==> o.wf(),
            val.wf(),
        ensures
            r@ == spec_set_value(opt_val_view(old), val@),
            r.wf(),
        decreases val,
    {
        let ghost ov = opt_val_view(old);
        let is_table = matches!(val.kind, ValueKind::Table(_));
        if !is_table {
            return val.duplicate();
        }
        match &val.kind {
            ValueKind::Table(vt) => {
                proof {
                    lemma_entries_view_dom(vt.entries@, vt.entries@.last().0@);
                }
                if vt.entries.len() == 0 {
                    proof {
                        assert(entries_view(vt.entries@) =~= Map::<Seq<char>, ValView>::empty());
                        assert(entries_view(vt.entries@).dom() =~= Set::<Seq<char>>::empty());
                    }
                    return match old {
                        Some(o) => o,
                        None => Value { origin: None, kind: ValueKind::Table(Table::new()) },
                    };
                }
                proof {
                    assert(vt.entries@.last() == vt.entries@[vt.entries@.len() - 1]);
                    assert(entries_view(vt.entries@).dom().contains(vt.entries@.last().0@));
                }
                let (base_origin, mut bt): (Option<String>, Table) = match old {
                    Some(o) => match o.kind {
                        ValueKind::Table(t) => (o.origin, t),
                        _ => (None, Table::new()),
                    },
                    None => (None, Table::new()),
                };
                let ghost base = match ov {
                    Some(o) => if o.kind is Table {
                        o
                    } else {
                        empty_table_view()
                    },
                    None => empty_table_view(),
                };
                let ghost mb0 = bt@;
                proof {
                    assert(base.kind->Table_0 == mb0);
                }
                let n = vt.entries.len();
                let mut i: usize = 0;
                while i < n
                    invariant
                        i <= n,
                        val.kind is Table,
                        val.kind->Table_0 == *vt,
                        val.wf(),
                        n == vt.entries@.len(),
                        bt.wf(),
                        bt@ == set_entries_upto(mb0, vt.entries@, i as int),
                    decreases n - i,
                {
                    proof {
                        lemma_entries_wf_all(vt.entries@);
                        lemma_entries_wf_all(bt.entries@);
                        lemma_entries_view_dom(bt.entries@, vt.entries@[i as int].0@);
                    }
                    let k = vt.entries[i].0.clone();
                    let bv = &vt.entries[i].1;
                    proof {
                        assert(decreases_to!(*val => val.kind));
                        assert(decreases_to!(val.kind => val.kind->Table_0));
                        assert(decreases_to!(*vt => vt.entries));
                        assert(decreases_to!(vt.entries => vt.entries@));
                        assert(decreases_to!(vt.entries@ => vt.entries@[i as int]));
                        assert(decreases_to!(vt.entries@[i as int] => vt.entries@[i as int].1));
                    }
                    match bt.index_of(&k) {
                        Some(j) => {
                            let ghost s0 = bt.entries@;
                            let old_e = bt.take_at(j);
                            proof {
                                lemma_entries_view_index(s0, j as int);
                            }
                            let nv = Self::set_value(Some(old_e), bv);
                            bt.put_at(j, nv);
                            proof {
                                let s2 = bt.entries@;
                                assert(s2 =~= s0.update(j as int, (s0[j as int].0, nv)));
                                lemma_entries_view_update(s0, j as int, nv);
                                assert forall|x: int| 0 <= x < s2.len() implies (
                                #[trigger] s2[x]).1.wf() by {
                                    if x != j {
                                        assert(s2[x] == s0[x]);
                                    }
                                }
                                assert forall|x: int, y: int| 0 <= x < y < s2.len() implies
                                    s2[x].0@ != s2[y].0@ by {
                                    assert(s2[x].0@ == s0[x].0@);
                                    assert(s2[y].0@ == s0[y].0@);
                                }
                                lemma_entries_wf_intro(s2);
                                assert(bt@ == set_entries_upto(mb0, vt.entries@, i + 1));
                            }
                        },
                        None => {
                            let ghost s0 = bt.entries@;
                            let nv = Self::set_value(None, bv);
                            bt.push_entry(k, nv);
                            proof {
                                let s2 = bt.entries@;
                                lemma_entries_view_push(s0, s2.last().0, nv);
                                assert(s2 =~= s0.push((s2.last().0, nv)));
                                assert forall|x: int| 0 <= x < s2.len() implies (
                                #[trigger] s2[x]).1.wf() by {
                                    if x < s2.len() - 1 {
                                        assert(s2[x] == s0[x]);
                                    }
                                }
                                assert forall|x: int, y: int| 0 <= x < y < s2.len() implies
                                    s2[x].0@ != s2[y].0@ by {
                                    assert(s2[x] == s0[x]);
                                    if y < s2.len() - 1 {
                                        assert(s2[y] == s0[y]);
                                    }
                                }
                                lemma_entries_wf_intro(s2);
                                assert(!entries_view(s0).dom().contains(s2.last().0@));
                                assert(bt@ == set_entries_upto(mb0, vt.entries@, i + 1));
                            }
                        },
                    }
                    i += 1;
                }
                proof {
                    lemma_entries_wf_all(vt.entries@);
                    lemma_set_entries_full(mb0, vt.entries@);
                }
                let r = Value { origin: base_origin, kind: ValueKind::Table(bt) };
                proof {
                    let sv = spec_set_value(ov, val@);
                    assert(sv.kind is Table);
                    assert(bt@ =~= sv.kind->Table_0);
                    assert(sv.kind == KindView::Table(sv.kind->Table_0));
                    assert(r@.kind == KindView::Table(bt@));
                    assert(r@.origin == sv.origin);
                }
                r
            },
            _ => {
                proof {
                    assert(false);
                }
                val.duplicate()
            },
        }
    }
}

impl Expression {
    /// Writes `value` below `node` along the path tail that starts at `i`.
    fn set_at(node: Value, segs: &Vec<Seg>, i: usize, value: Value) -> (r: Value)
        requires
            i < segs@.len(),
            node.wf(),
            value.wf(),
        ensures
            r@ == spec_set_at(node@, segs_view(segs@).skip(i as int), value@),
            r.wf(),
        decreases segs@.len() - i,
    {
        let ghost node0 = node;
        let ghost tail = segs_view(segs@).skip(i as int);
        proof {
            assert(tail.len() == segs@.len() - i);
            assert(tail[0] == seg_view(segs@[i as int]));
            assert(tail.drop_first() =~= segs_view(segs@).skip(i as int + 1));
        }
        let Value { origin: norig, kind: nkind } = node;
        let n = segs.len();
        let last = i == n - 1;
        match &segs[i] {
            Seg::Key(k) => {
                let (t_origin, mut t): (Option<String>, Table) = match nkind {
                    ValueKind::Table(tb) => (norig, tb),
                    _ => (None, Table::new()),
                };
                let ghost tv = if node0@.kind is Table {
                    node0@
                } else {
                    empty_table_view()
                };
                let ghost m0 = t@;
                proof {
                    assert(tv.kind->Table_0 == m0);
                    lemma_entries_wf_all(t.entries@);
                    lemma_entries_view_dom(t.entries@, k@);
                }
                let ghost s0 = t.entries@;
                let ghost newk_spec = if tail.len() <= 1 {
                    spec_set_value(
                        if m0.dom().contains(k@) {
                            Some(m0[k@])
                        } else {
                            None
                        },
                        value@,
                    )
                } else {
                    spec_set_at(
                        if m0.dom().contains(k@) {
                            m0[k@]
                        } else {
                            nil_view()
                        },
                        tail.drop_first(),
                        value@,
                    )
                };
                match t.index_of(k) {
                    Some(j) => {
                        proof {
                            lemma_entries_view_index(s0, j as int);
                        }
                        let old_e = t.take_at(j);
                        let nv = if last {
                            Self::set_value(Some(old_e), &value)
                        } else {
                            Self::set_at(old_e, segs, i + 1, value)
                        };
                        proof {
                            assert(nv@ == newk_spec);
                        }
                        t.put_at(j, nv);
                        proof {
                            let s2 = t.entries@;
                            assert(s2 =~= s0.update(j as int, (s0[j as int].0, nv)));
                            lemma_entries_view_update(s0, j as int, nv);
                            assert forall|x: int| 0 <= x < s2.len() implies (
                            #[trigger] s2[x]).1.wf() by {
                                if x != j {
                                    assert(s2[x] == s0[x]);
                                }
                            }
                            assert forall|x: int, y: int| 0 <= x < y < s2.len() implies s2[x].0@
                                != s2[y].0@ by {
                                assert(s2[x].0@ == s0[x].0@);
                                assert(s2[y].0@ == s0[y].0@);
                            }
                            lemma_entries_wf_intro(s2);
                            assert(t@ =~= m0.insert(k@, newk_spec));
                        }
                    },
                    None => {
                        let nv = if last {
                            Self::set_value(None, &value)
                        } else {
                            Self::set_at(Value::nil(), segs, i + 1, value)
                        };
                        proof {
                            lemma_entries_view_dom(s0, k@);
                            assert(!m0.dom().contains(k@));
                            assert(nv@ == newk_spec);
                        }
                        t.push_entry(k.clone(), nv);
                        proof {
                            let s2 = t.entries@;
                            assert(s2 =~= s0.push((s2.last().0, nv)));
                            lemma_entries_view_push(s0, s2.last().0, nv);
                            assert forall|x: int| 0 <= x < s2.len() implies (
                            #[trigger] s2[x]).1.wf() by {
                                if x < s2.len() - 1 {
                                    assert(s2[x] == s0[x]);
                                }
                            }
                            assert forall|x: int, y: int| 0 <= x < y < s2.len() implies s2[x].0@
                                != s2[y].0@ by {
                                assert(s2[x] == s0[x]);
                                if y < s2.len() - 1 {
                                    assert(s2[y] == s0[y]);
                                }
                            }
                            lemma_entries_wf_intro(s2);
                            assert(t@ =~= m0.insert(k@, newk_spec));
                        }
                    },
                }
                let r = Value { origin: t_origin, kind: ValueKind::Table(t) };
                proof {
                    let sv = spec_set_at(node0@, tail, value@);
                    assert(sv.kind is Table);
                    assert(t@ =~= sv.kind->Table_0);
                    assert(sv.kind == KindView::Table(sv.kind->Table_0));
                    assert(r@.kind == KindView::Table(t@));
                    assert(r@.origin == sv.origin);
                }
                r
            },
            Seg::Index(idx) => {
                let (a_origin, mut arr): (Option<String>, Vec<Value>) = match nkind {
                    ValueKind::Array(a) => (norig, a),
                    _ => (None, Vec::new()),
                };
                let ghost av = if node0@.kind is Array {
                    node0@
                } else {
                    empty_array_view()
                };
                let ghost e0 = crate::value::elems_view(arr@);
                proof {
                    assert(av.kind->Array_0 == e0);
                }
                let u = pad_array(&mut arr, *idx);
                let ghost padded = crate::value::elems_view(arr@);
                proof {
                    crate::value::lemma_elems_view_index(arr@);
                    lemma_elems_wf_all(arr@);
                }
                let ghost newu_spec = if tail.len() <= 1 {
                    value@
                } else {
                    spec_set_at(padded[u as int], tail.drop_first(), value@)
                };
                let ghost b0 = arr@;
                if last {
                    let mut tmp = value;
                    let p = &mut arr[u];
                    core::mem::swap(p, &mut tmp);
                } else {
                    let mut child = Value::nil();
                    let p = &mut arr[u];
                    core::mem::swap(p, &mut child);
                    let ghost b1 = arr@;
                    let nv = Self::set_at(child, segs, i + 1, value);
                    let mut tmp = nv;
                    let q = &mut arr[u];
                    core::mem::swap(q, &mut tmp);
                    proof {
                        assert(arr@ =~= b1.update(u as int, nv));
                        assert(arr@ =~= b0.update(u as int, nv));
                    }
                }
                proof {
                    crate::value::lemma_elems_view_index(arr@);
                    assert forall|x: int| 0 <= x < arr@.len() implies (#[trigger] arr@[x]).wf() by {
                        if x != u {
                            assert(arr@[x] == b0[x]);
                        }
                    }
                    lemma_elems_wf_intro(arr@);
                    assert(crate::value::elems_view(arr@) =~= padded.update(u as int, newu_spec));
                }
                let r = Value { origin: a_origin, kind: ValueKind::Array(arr) };
                proof {
                    let sv = spec_set_at(node0@, tail, value@);
                    assert(sv.kind is Array);
                    assert(crate::value::elems_view(arr@) =~= sv.kind->Array_0);
                    assert(sv.kind == KindView::Array(sv.kind->Array_0));
                    assert(r@.kind == KindView::Array(crate::value::elems_view(arr@)));
                    assert(r@.origin == sv.origin);
                }
                r
            },
        }
    }

    /// Writes `value` at this path inside `root`, forcing intermediate
    /// structure into existence and deep-merging table values into the slot,
    /// as `spec_set` states. A longer path below a non-table root does
    /// nothing, since forced navigation cannot enter such a root.
    pub fn set(&self, root: &mut Value, value: Value)
        requires
            old(root).wf(),
            value.wf(),
        ensures
            final(root)@ == spec_set(old(root)@, self.segs(), value@),
            final(root).wf(),
    {
        let segs = self.to_segments();
        proof {
            self.lemma_segs_nonempty();
            assert(segs_view(segs@) =~= segs_view(segs@).skip(0));
        }
        let root_is_table = matches!(root.kind, ValueKind::Table(_));
        if root_is_table || segs.len() == 1 {
            let mut tmp = Value::nil();
            core::mem::swap(root, &mut tmp);
            let out = Self::set_at(tmp, &segs, 0, value);
            *root = out;
        }
    }
}

impl Expression {
    /// Forces the path tail starting at `i` into existence below `node`.
    fn force_at(node: Value, segs: &Vec<Seg>, i: usize) -> (r: Value)
        requires
            i < segs@.len(),
            node.wf(),
        ensures
            r@ == spec_force_at(node@, segs_view(segs@).skip(i as int)),
            r.wf(),
        decreases segs@.len() - i,
    {
        let ghost node0 = node;
        let ghost tail = segs_view(segs@).skip(i as int);
        proof {
            assert(tail.len() == segs@.len() - i);
            assert(tail[0] == seg_view(segs@[i as int]));
            assert(tail.drop_first() =~= segs_view(segs@).skip(i as int + 1));
        }
        let Value { origin: norig, kind: nkind } = node;
        let n = segs.len();
        let last = i == n - 1;
        match &segs[i] {
            Seg::Key(k) => {
                let (t_origin, mut t): (Option<String>, Table) = match nkind {
                    ValueKind::Table(tb) => (norig, tb),
                    _ => (None, Table::new()),
                };
                let ghost m0 = t@;
                proof {
                    lemma_entries_wf_all(t.entries@);
                    lemma_entries_view_dom(t.entries@, k@);
                }
                let ghost s0 = t.entries@;
                let ghost child_spec = if m0.dom().contains(k@) {
                    m0[k@]
                } else {
                    nil_view()
                };
                let ghost newk_spec = if tail.len() <= 1 {
                    child_spec
                } else {
                    spec_force_at(child_spec, tail.drop_first())
                };
                match t.index_of(k) {
                    Some(j) => {
                        proof {
                            lemma_entries_view_index(s0, j as int);
                        }
                        if last {
                            proof {
                                assert(t@ =~= m0.insert(k@, newk_spec));
                            }
                        } else {
                            let old_e = t.take_at(j);
                            let nv = Self::force_at(old_e, segs, i + 1);
                            proof {
                                assert(nv@ == newk_spec);
                            }
                            t.put_at(j, nv);
                            proof {
                                let s2 = t.entries@;
                                assert(s2 =~= s0.update(j as int, (s0[j as int].0, nv)));
                                lemma_entries_view_update(s0, j as int, nv);
                                assert forall|x: int| 0 <= x < s2.len() implies (
                                #[trigger] s2[x]).1.wf() by {
                                    if x != j {
                                        assert(s2[x] == s0[x]);
                                    }
                                }
                                assert forall|x: int, y: int| 0 <= x < y < s2.len() implies
                                    s2[x].0@ != s2[y].0@ by {
                                    assert(s2[x].0@ == s0[x].0@);
                                    assert(s2[y].0@ == s0[y].0@);
                                }
                                lemma_entries_wf_intro(s2);
                                assert(t@ =~= m0.insert(k@, newk_spec));
                            }
                        }
                    },
                    None => {
                        let nv = if last {
                            Value::nil()
                        } else {
                            Self::force_at(Value::nil(), segs, i + 1)
                        };
                        proof {
                            lemma_entries_view_dom(s0, k@);
                            assert(!m0.dom().contains(k@));
                            assert(nv@ == newk_spec);
                        }
                        t.push_entry(k.clone(), nv);
                        proof {
                            let s2 = t.entries@;
                            assert(s2 =~= s0.push((s2.last().0, nv)));
                            lemma_entries_view_push(s0, s2.last().0, nv);
                            assert forall|x: int| 0 <= x < s2.len() implies (
                            #[trigger] s2[x]).1.wf() by {
                                if x < s2.len() - 1 {
                                    assert(s2[x] == s0[x]);
                                }
                            }
                            assert forall|x: int, y: int| 0 <= x < y < s2.len() implies s2[x].0@
                                != s2[y].0@ by {
                                assert(s2[x] == s0[x]);
                                if y < s2.len() - 1 {
                                    assert(s2[y] == s0[y]);
                                }
                            }
                            lemma_entries_wf_intro(s2);
                            assert(t@ =~= m0.insert(k@, newk_spec));
                        }
                    },
                }
                let r = Value { origin: t_origin, kind: ValueKind::Table(t) };
                proof {
                    let sv = spec_force_at(node0@, tail);
                    assert(sv.kind is Table);
                    assert(t@ =~= sv.kind->Table_0);
                    assert(sv.kind == KindView::Table(sv.kind->Table_0));
                    assert(r@.kind == KindView::Table(t@));
                    assert(r@.origin == sv.origin);
                }
                r
            },
            Seg::Index(idx) => {
                let (a_origin, mut arr): (Option<String>, Vec<Value>) = match nkind {
                    ValueKind::Array(a) => (norig, a),
                    _ => (None, Vec::new()),
                };
                let u = pad_array(&mut arr, *idx);
                let ghost padded = crate::value::elems_view(arr@);
                proof {
                    crate::value::lemma_elems_view_index(arr@);
                    lemma_elems_wf_all(arr@);
                }
                let ghost newu_spec = if tail.len() <= 1 {
                    padded[u as int]
                } else {
                    spec_force_at(padded[u as int], tail.drop_first())
                };
                let ghost b0 = arr@;
                if !last {
                    let mut child = Value::nil();
                    let p = &mut arr[u];
                    core::mem::swap(p, &mut child);
                    let ghost b1 = arr@;
                    let nv = Self::force_at(child, segs, i + 1);
                    let mut tmp = nv;
                    let q = &mut arr[u];
                    core::mem::swap(q, &mut tmp);
                    proof {
                        assert(arr@ =~= b1.update(u as int, nv));
                        assert(arr@ =~= b0.update(u as int, nv));
                    }
                }
                proof {
                    crate::value::lemma_elems_view_index(arr@);
                    assert forall|x: int| 0 <= x < arr@.len() implies (#[trigger] arr@[x]).wf() by {
                        if x != u {
                            assert(arr@[x] == b0[x]);
                        }
                    }
                    lemma_elems_wf_intro(arr@);
                    assert(crate::value::elems_view(arr@) =~= padded.update(u as int, newu_spec));
                }
                let r = Value { origin: a_origin, kind: ValueKind::Array(arr) };
                proof {
                    let sv = spec_force_at(node0@, tail);
                    assert(sv.kind is Array);
                    assert(crate::value::elems_view(arr@) =~= sv.kind->Array_0);
                    assert(sv.kind == KindView::Array(sv.kind->Array_0));
                    assert(r@.kind == KindView::Array(crate::value::elems_view(arr@)));
                    assert(r@.origin == sv.origin);
                }
                r
            },
        }
    }

    /// Forces this path to exist inside `root`, coercing wrongly shaped
    /// intermediate nodes and creating missing entries and padding, so that
    /// a write can land at the end of the path. Returns whether navigation
    /// succeeded, which it does exactly when the root is a table; a
    /// non-table root is left untouched. After success the path resolves to
    /// a value.
    pub fn get_mut_forcibly(&self, root: &mut Value) -> (found: bool)
        requires
            old(root).wf(),
        ensures
            final(root)@ == spec_force(old(root)@, self.segs()),
            final(root).wf(),
            found <==> old(root)@.kind is Table,
            found ==> spec_get(final(root)@, self.segs()) is Some,
    {
        let segs = self.to_segments();
        proof {
            self.lemma_segs_nonempty();
            assert(segs_view(segs@) =~= segs_view(segs@).skip(0));
        }
        let root_is_table = matches!(root.kind, ValueKind::Table(_));
        if root_is_table {
            let mut tmp = Value::nil();
            core::mem::swap(root, &mut tmp);
            let out = Self::force_at(tmp, &segs, 0);
            *root = out;
            proof {
                lemma_force_get(old(root)@, segs_view(segs@));
            }
            true
        } else {
            false
        }
    }
}

/// After forcing a path below a node, the path resolves to a value.
pub proof fn lemma_force_get(node: ValView, segs: Seq<PathSeg>)
    requires
        segs.len() >= 1,
    ensures
        spec_get(spec_force_at(node, segs), segs) is Some,
    decreases segs.len(),
{
    let r = spec_force_at(node, segs);
    match segs[0] {
        PathSeg::Key(k) => {
            assert(r.kind is Table);
            assert(r.kind->Table_0.dom().contains(k));
            let child = r.kind->Table_0[k];
            if segs.len() > 1 {
                lemma_force_get(
                    match spec_step(node, segs[0]) {
                        Some(c) => c,
                        None => nil_view(),
                    },
                    segs.drop_first(),
                );
                let t = if node.kind is Table {
                    node
                } else {
                    empty_table_view()
                };
                let m = t.kind->Table_0;
                let oldk = if m.dom().contains(k) {
                    Some(m[k])
                } else {
                    None
                };
                let c0 = match oldk {
                    Some(c) => c,
                    None => nil_view(),
                };
                lemma_force_get(c0, segs.drop_first());
                assert(child == spec_force_at(c0, segs.drop_first()));
                assert(spec_get(r, segs) == spec_get(child, segs.drop_first()));
            } else {
                assert(spec_get(r, segs) == spec_get(child, segs.drop_first()));
                assert(segs.drop_first().len() == 0);
            }
        },
        PathSeg::Index(i) => {
            assert(r.kind is Array);
            let a = if node.kind is Array {
                node
            } else {
                empty_array_view()
            };
            let arr0 = a.kind->Array_0;
            let arr = padded_array(arr0, i);
            let u = padded_target(arr0, i);
            let newa = r.kind->Array_0;
            assert(newa.len() == arr.len());
            lemma_padded_target(arr0, i);
            assert(resolved_index(i, newa.len() as int) == u);
            let child = newa[u];
            if segs.len() > 1 {
                lemma_force_get(arr[u], segs.drop_first());
                assert(child == spec_force_at(arr[u], segs.drop_first()));
                assert(spec_get(r, segs) == spec_get(child, segs.drop_first()));
            } else {
                assert(spec_get(r, segs) == spec_get(child, segs.drop_first()));
                assert(segs.drop_first().len() == 0);
            }
        },
    }
}

/// The forced target index is in range and is where the original index
/// resolves in the padded array.
pub proof fn lemma_padded_target(arr: Seq<ValView>, i: int)
    ensures
        0 <= padded_target(arr, i) < padded_array(arr, i).len(),
        resolved_index(i, padded_array(arr, i).len() as int) == padded_target(arr, i),
{
}

/// The path round-trip law below a node: after writing a non-table value at
/// a path, reading the same path gives that value back unchanged. (A table
/// value is not returned verbatim because writing one deep-merges it into
/// what the slot already held.)
pub proof fn lemma_set_then_get_at(node: ValView, segs: Seq<PathSeg>, val: ValView)
    requires
        segs.len() >= 1,
        !(val.kind is Table),
    ensures
        spec_get(spec_set_at(node, segs, val), segs) == Some(val),
    decreases segs.len(),
{
    let r = spec_set_at(node, segs, val);
    match segs[0] {
        PathSeg::Key(k) => {
            assert(r.kind is Table);
            assert(r.kind->Table_0.dom().contains(k));
            let child = r.kind->Table_0[k];
            assert(spec_get(r, segs) == spec_get(child, segs.drop_first()));
            if segs.len() > 1 {
                let t = if node.kind is Table {
                    node
                } else {
                    empty_table_view()
                };
                let m = t.kind->Table_0;
                let c0 = if m.dom().contains(k) {
                    m[k]
                } else {
                    nil_view()
                };
                assert(child == spec_set_at(c0, segs.drop_first(), val));
                lemma_set_then_get_at(c0, segs.drop_first(), val);
            } else {
                assert(child == val);
                assert(segs.drop_first().len() == 0);
            }
        },
        PathSeg::Index(i) => {
            assert(r.kind is Array);
            let a = if node.kind is Array {
                node
            } else {
                empty_array_view()
            };
            let arr0 = a.kind->Array_0;
            let arr = padded_array(arr0, i);
            let u = padded_target(arr0, i);
            lemma_padded_target(arr0, i);
            let newa = r.kind->Array_0;
            assert(newa.len() == arr.len());
            assert(resolved_index(i, newa.len() as int) == u);
            let child = newa[u];
            assert(spec_get(r, segs) == spec_get(child, segs.drop_first()));
            if segs.len() > 1 {
                assert(child == spec_set_at(arr[u], segs.drop_first(), val));
                lemma_set_then_get_at(arr[u], segs.drop_first(), val);
            } else {
                assert(child == val);
                assert(segs.drop_first().len() == 0);
            }
        },
    }
}

/// The path round-trip law: for a table root (or a bare identifier path),
/// writing a non-table value at a path and reading the same path back gives
/// exactly that value. Together with the parser's contract, whose success on
/// a string pins the parsed expression, this is the set-then-get round trip
/// for every syntactically valid path string.
pub proof fn lemma_set_then_get(root: ValView, segs: Seq<PathSeg>, val: ValView)
    requires
        segs.len() >= 1,
        root.kind is Table || segs.len() == 1,
        !(val.kind is Table),
    ensures
        spec_get(spec_set(root, segs, val), segs) == Some(val),
{
    lemma_set_then_get_at(root, segs, val);
}

/// The path round-trip law for path strings: a syntactically valid path
/// string parses, and writing a non-table value at the parsed path inside a
/// table root, then reading the same path back, gives exactly that value.
pub proof fn lemma_parse_set_get(s: Seq<char>, root: ValView, val: ValView)
    requires
        parser::spec_parse(s) matches Ok(gs),
        root.kind is Table,
        !(val.kind is Table),
    ensures
        parser::spec_parse(s) matches Ok(gs) && spec_get(spec_set(root, gs, val), gs) == Some(
            val,
        ),
{
    parser::lemma_spec_parse_len(s);
    let gs = parser::spec_parse(s)->Ok_0;
    lemma_set_then_get(root, gs, val);
}

/// The negative subscript law: on an array of length `n` reached by some
/// path, the index `-m` addresses the same element as `n - m`, and an index
/// out of range on either side resolves to absence, never a failure.
pub proof fn lemma_negative_subscript(root: ValView, s: Seq<PathSeg>, i: int)
    requires
        spec_get(root, s) matches Some(a) && a.kind is Array,
        -(spec_get(root, s)->Some_0.kind->Array_0.len() as int) <= i < 0,
    ensures
        spec_get(root, s.push(PathSeg::Index(i))) == spec_get(
            root,
            s.push(PathSeg::Index(spec_get(root, s)->Some_0.kind->Array_0.len() + i)),
        ),
        spec_get(root, s.push(PathSeg::Index(i))) is Some,
{
    let a = spec_get(root, s)->Some_0;
    let n = a.kind->Array_0.len() as int;
    lemma_get_push(root, s, PathSeg::Index(i));
    lemma_get_push(root, s, PathSeg::Index(n + i));
    assert(resolved_index(i, n) == n + i);
    assert(resolved_index(n + i, n) == n + i);
}

/// The out-of-range half of the negative subscript law: an index at or past
/// either end of the array resolves to absence.
pub proof fn lemma_subscript_out_of_range(root: ValView, s: Seq<PathSeg>, i: int)
    requires
        spec_get(root, s) matches Some(a) && a.kind is Array,
        i >= spec_get(root, s)->Some_0.kind->Array_0.len() || i < -(spec_get(
            root,
            s,
        )->Some_0.kind->Array_0.len() as int),
    ensures
        spec_get(root, s.push(PathSeg::Index(i))) is None,
{
    lemma_get_push(root, s, PathSeg::Index(i));
}

} // verus!
