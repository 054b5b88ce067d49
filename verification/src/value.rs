//! The value tree: a tagged union of scalars, tables and arrays, each node
//! carrying an optional origin string for diagnostics, together with the
//! deep-merge rule that later configuration layers use to override earlier
//! ones.

use vstd::prelude::*;

verus! {


/// Mathematical model of a value tree node: the kind of the node, with
/// tables abstracted as maps from key strings to child models and arrays as
/// sequences of child models.
#[verifier::ext_equal]
pub enum KindView {
    Nil,
    Boolean(bool),
    I64(i64),
    Float(Seq<char>),
    Str(Seq<char>),
    Table(Map<Seq<char>, ValView>),
    Array(Seq<ValView>),
}

/// Mathematical model of a value: its origin (a diagnostic string naming the
/// source it came from) and its kind.
#[verifier::ext_equal]
pub struct ValView {
    pub origin: Option<Seq<char>>,
    pub kind: KindView,
}

/// A table of configuration values: a mapping from unique string keys to
/// values. Entries are held as an association list; lookups are by exact
/// string key.
#[derive(Debug, PartialEq)]
pub struct Table {
    pub entries: Vec<(String, Value)>,
}

/// The kind of a configuration value. `Float` keeps the number as the text
/// it was read from: this library never interprets it numerically, it only
/// carries it through merging and addressing.
#[derive(Debug, PartialEq)]
pub enum ValueKind {
    Nil,
    Boolean(bool),
    I64(i64),
    Float(String),
    Str(String),
    Table(Table),
    Array(Vec<Value>),
}

/// A configuration value: a kind plus an optional origin describing which
/// source produced it. The origin is purely diagnostic and has no effect on
/// merging or addressing.
#[derive(Debug, PartialEq)]
pub struct Value {
    pub origin: Option<String>,
    pub kind: ValueKind,
}

/// Model of a sequence of table entries as a map; a later entry with the
/// same key would override an earlier one, though well-formed tables have
/// unique keys.
pub open spec fn entries_view(s: Seq<(String, Value)>) -> Map<Seq<char>, ValView>
    decreases s,
{
    if s.len() == 0 {
        Map::empty()
    } else {
        entries_view(s.drop_last()).insert(s.last().0@, s.last().1@)
    }
}

/// Model of a sequence of array elements.
pub open spec fn elems_view(s: Seq<Value>) -> Seq<ValView>
    decreases s,
{
    if s.len() == 0 {
        Seq::empty()
    } else {
        elems_view(s.drop_last()).push(s.last()@)
    }
}

impl View for Value {
    type V = ValView;

    open spec fn view(&self) -> ValView
        decreases self,
    {
        ValView {
            origin: match self.origin {
                Some(s) => Some(s@),
                None => None,
            },
            kind: match self.kind {
                ValueKind::Nil => KindView::Nil,
                ValueKind::Boolean(b) => KindView::Boolean(b),
                ValueKind::I64(n) => KindView::I64(n),
                ValueKind::Float(s) => KindView::Float(s@),
                ValueKind::Str(s) => KindView::Str(s@),
                ValueKind::Table(t) => KindView::Table(entries_view(t.entries@)),
                ValueKind::Array(a) => KindView::Array(elems_view(a@)),
            },
        }
    }
}

/// The model of a value that does not exist yet: a `Nil` without origin.
pub open spec fn nil_view() -> ValView {
    ValView { origin: None, kind: KindView::Nil }
}

/// The model of a freshly created empty table without origin, as forced
/// path creation materialises it.
pub open spec fn empty_table_view() -> ValView {
    ValView { origin: None, kind: KindView::Table(Map::empty()) }
}

/// Well-formedness of table entries: keys are unique and children are
/// themselves well-formed.
pub open spec fn entries_wf(s: Seq<(String, Value)>) -> bool
    decreases s,
{
    if s.len() == 0 {
        true
    } else {
        entries_wf(s.drop_last()) && s.last().1.wf() && (forall|i: int|
            0 <= i < s.len() - 1 ==> (#[trigger] s[i].0@) != s.last().0@)
    }
}

/// Well-formedness of array elements.
pub open spec fn elems_wf(s: Seq<Value>) -> bool
    decreases s,
{
    if s.len() == 0 {
        true
    } else {
        elems_wf(s.drop_last()) && s.last().wf()
    }
}

/// What well-formedness of entries spells out: each child is well-formed
/// and keys are pairwise distinct.
pub proof fn lemma_entries_wf_all(s: Seq<(String, Value)>)
    requires
        entries_wf(s),
    ensures
        forall|i: int| 0 <= i < s.len() ==> (#[trigger] s[i]).1.wf(),
        forall|i: int, j: int| 0 <= i < j < s.len() ==> s[i].0@ != s[j].0@,
    decreases s.len(),
{
    if s.len() > 0 {
        let d = s.drop_last();
        lemma_entries_wf_all(d);
        assert(forall|i: int| 0 <= i < d.len() ==> d[i] == s[i]);
        assert forall|i: int| 0 <= i < s.len() implies (#[trigger] s[i]).1.wf() by {
            if i < s.len() - 1 {
                assert(d[i].1.wf());
            } else {
                assert(s.last().1.wf());
            }
        }
        assert forall|i: int, j: int| 0 <= i < j < s.len() implies s[i].0@ != s[j].0@ by {
            if j < s.len() - 1 {
                assert(d[i].0@ != d[j].0@);
            }
        }
    }
}

/// The converse: pairwise-distinct keys and well-formed children make the
/// entries well-formed.
pub proof fn lemma_entries_wf_intro(s: Seq<(String, Value)>)
    requires
        forall|i: int| 0 <= i < s.len() ==> (#[trigger] s[i]).1.wf(),
        forall|i: int, j: int| 0 <= i < j < s.len() ==> s[i].0@ != s[j].0@,
    ensures
        entries_wf(s),
    decreases s.len(),
{
    if s.len() > 0 {
        let d = s.drop_last();
        assert(forall|i: int| 0 <= i < d.len() ==> d[i] == s[i]);
        lemma_entries_wf_intro(d);
        assert(s.last() == s[s.len() - 1]);
    }
}

/// What well-formedness of elements spells out.
pub proof fn lemma_elems_wf_all(s: Seq<Value>)
    requires
        elems_wf(s),
    ensures
        forall|i: int| 0 <= i < s.len() ==> (#[trigger] s[i]).wf(),
    decreases s.len(),
{
    if s.len() > 0 {
        let d = s.drop_last();
        lemma_elems_wf_all(d);
        assert(forall|i: int| 0 <= i < d.len() ==> d[i] == s[i]);
        assert forall|i: int| 0 <= i < s.len() implies (#[trigger] s[i]).wf() by {
            if i < s.len() - 1 {
                assert(d[i].wf());
            } else {
                assert(s.last().wf());
            }
        }
    }
}

/// The converse for elements.
pub proof fn lemma_elems_wf_intro(s: Seq<Value>)
    requires
        forall|i: int| 0 <= i < s.len() ==> (#[trigger] s[i]).wf(),
    ensures
        elems_wf(s),
    decreases s.len(),
{
    if s.len() > 0 {
        let d = s.drop_last();
        assert(forall|i: int| 0 <= i < d.len() ==> d[i] == s[i]);
        lemma_elems_wf_intro(d);
        assert(s.last() == s[s.len() - 1]);
    }
}

impl Value {
    /// The nil placeholder, as specifications name it.
    pub open spec fn nil_const() -> Value {
        Value { origin: None, kind: ValueKind::Nil }
    }

    /// A value is well-formed when every table inside it has unique keys.
    pub open spec fn wf(&self) -> bool
        decreases self,
    {
        match self.kind {
            ValueKind::Table(t) => entries_wf(t.entries@),
            ValueKind::Array(a) => elems_wf(a@),
            _ => true,
        }
    }
}

/// The deep-merge rule. When both sides are tables the result is the union
/// of their keys, merged recursively on collision, and keeps the left-hand
/// origin; in every other case the right-hand value replaces the left-hand
/// one wholesale.
pub open spec fn spec_merge(a: ValView, b: ValView) -> ValView
    decreases b,
{
    if a.kind is Table && b.kind is Table {
        let ma = a.kind->Table_0;
        let mb = b.kind->Table_0;
        ValView {
            origin: a.origin,
            kind: KindView::Table(
                Map::new(
                    |k: Seq<char>| ma.dom().contains(k) || mb.dom().contains(k),
                    |k: Seq<char>|
                        if ma.dom().contains(k) && mb.dom().contains(k) {
                            spec_merge(ma[k], mb[k])
                        } else if mb.dom().contains(k) {
                            mb[k]
                        } else {
                            ma[k]
                        },
                ),
            ),
        }
    } else {
        b
    }
}

/// One step of merging a single entry into a table map: an absent key is
/// inserted, a present one is merged recursively.
pub open spec fn merge_into(m: Map<Seq<char>, ValView>, k: Seq<char>, v: ValView) -> Map<
    Seq<char>,
    ValView,
> {
    m.insert(
        k,
        if m.dom().contains(k) {
            spec_merge(m[k], v)
        } else {
            v
        },
    )
}

/// Merging the first `i` entries of `s` into `m0`, one after the other, as
/// the executable merge loop does.
pub open spec fn merge_entries_upto(
    m0: Map<Seq<char>, ValView>,
    s: Seq<(String, Value)>,
    i: int,
) -> Map<Seq<char>, ValView>
    decreases i,
{
    if i <= 0 {
        m0
    } else {
        merge_into(merge_entries_upto(m0, s, i - 1), s[i - 1].0@, s[i - 1].1@)
    }
}

/// Folding a table's entries one by one into `m0` reaches exactly the
/// key-union that the deep-merge rule describes, because unique keys make
/// the entry merges independent of each other.
pub proof fn lemma_merge_entries_full(m0: Map<Seq<char>, ValView>, s: Seq<(String, Value)>)
    requires
        forall|x: int, y: int| 0 <= x < y < s.len() ==> s[x].0@ != s[y].0@,
    ensures
        merge_entries_upto(m0, s, s.len() as int) =~= Map::new(
            |k: Seq<char>| m0.dom().contains(k) || entries_view(s).dom().contains(k),
            |k: Seq<char>|
                if m0.dom().contains(k) && entries_view(s).dom().contains(k) {
                    spec_merge(m0[k], entries_view(s)[k])
                } else if entries_view(s).dom().contains(k) {
                    entries_view(s)[k]
                } else {
                    m0[k]
                },
        ),
    decreases s.len(),
{
    if s.len() == 0 {
    } else {
        let d = s.drop_last();
        assert(forall|x: int| 0 <= x < d.len() ==> d[x] == s[x]);
        lemma_merge_entries_full(m0, d);
        lemma_entries_view_dom(d, s.last().0@);
        assert(forall|i: int| 0 <= i < d.len() ==> d[i].0@ != s.last().0@);
        assert(!entries_view(d).dom().contains(s.last().0@));
        assert(merge_entries_upto(m0, s, s.len() as int) == merge_into(
            merge_entries_upto(m0, s, s.len() - 1),
            s.last().0@,
            s.last().1@,
        ));
        assert(forall|i: int| 0 <= i <= d.len() ==> merge_entries_upto(m0, s, i)
            == merge_entries_upto(m0, d, i)) by {
            assert forall|i: int| 0 <= i <= d.len() implies merge_entries_upto(m0, s, i)
                == merge_entries_upto(m0, d, i) by {
                lemma_merge_entries_prefix(m0, s, d, i);
            }
        }
        assert(entries_view(s) == entries_view(d).insert(s.last().0@, s.last().1@));
    }
}

/// Merging a prefix of entries sees only that prefix, so a sequence and its
/// front agree on it.
proof fn lemma_merge_entries_prefix(
    m0: Map<Seq<char>, ValView>,
    s: Seq<(String, Value)>,
    d: Seq<(String, Value)>,
    i: int,
)
    requires
        d.len() <= s.len(),
        forall|x: int| 0 <= x < d.len() ==> d[x] == s[x],
        i <= d.len(),
    ensures
        merge_entries_upto(m0, s, i) == merge_entries_upto(m0, d, i),
    decreases i,
{
    if i > 0 {
        lemma_merge_entries_prefix(m0, s, d, i - 1);
    }
}

/// Outside the table-table case the right-hand side always wins: arrays
/// are replaced wholesale, never merged element by element, and on scalars
/// merging is right-biased.
pub proof fn lemma_merge_replaces_non_tables(a: ValView, b: ValView)
    requires
        !(a.kind is Table) || !(b.kind is Table),
    ensures
        spec_merge(a, b) == b,
{
}

/// The inputs on which merging is associative. Merging is right-biased, and
/// the one way associativity can break is a non-table in the middle layer
/// standing between two tables: the left table then survives on one side and
/// not on the other. This predicate rules exactly those inputs out, at every
/// shared key path.
pub open spec fn merge_assoc_pre(a: ValView, b: ValView, c: ValView) -> bool
    decreases b,
{
    if a.kind is Table && b.kind is Table && c.kind is Table {
        let ma = a.kind->Table_0;
        let mb = b.kind->Table_0;
        let mc = c.kind->Table_0;
        forall|k: Seq<char>|
            ma.dom().contains(k) && #[trigger] mb.dom().contains(k) && mc.dom().contains(k)
                ==> merge_assoc_pre(ma[k], mb[k], mc[k])
    } else if a.kind is Table && !(b.kind is Table) && c.kind is Table {
        spec_merge(a, c) == c
    } else {
        true
    }
}

/// Merging is associative and right-biased: on every input that
/// `merge_assoc_pre` admits, merging `b` then `c` into `a` gives the same
/// value as merging `c` into `b` first. On scalars the right-hand side always
/// wins, which is the `else` branch of `spec_merge` itself.
pub proof fn lemma_merge_associative(a: ValView, b: ValView, c: ValView)
    requires
        merge_assoc_pre(a, b, c),
    ensures
        spec_merge(spec_merge(a, b), c) == spec_merge(a, spec_merge(b, c)),
    decreases b,
{
    if a.kind is Table && b.kind is Table && c.kind is Table {
        let ma = a.kind->Table_0;
        let mb = b.kind->Table_0;
        let mc = c.kind->Table_0;
        let l = spec_merge(spec_merge(a, b), c);
        let r = spec_merge(a, spec_merge(b, c));
        assert(l.kind is Table);
        assert(r.kind is Table);
        let lm = l.kind->Table_0;
        let rm = r.kind->Table_0;
        assert forall|k: Seq<char>| #[trigger]
            lm.dom().contains(k) || rm.dom().contains(k) implies lm.dom().contains(k)
            && rm.dom().contains(k) && lm[k] == rm[k] by {
            if ma.dom().contains(k) && mb.dom().contains(k) && mc.dom().contains(k) {
                assert(merge_assoc_pre(ma[k], mb[k], mc[k]));
                lemma_merge_associative(ma[k], mb[k], mc[k]);
            } else if mb.dom().contains(k) && mc.dom().contains(k) {
                assert(lm[k] == spec_merge(mb[k], mc[k]));
                assert(rm[k] == spec_merge(mb[k], mc[k]));
            }
        }
        assert(lm =~= rm);
        assert(l == ValView { origin: l.origin, kind: KindView::Table(lm) });
        assert(r == ValView { origin: r.origin, kind: KindView::Table(rm) });
        assert(l.origin == a.origin);
        assert(r.origin == a.origin);
    } else if a.kind is Table && !(b.kind is Table) && c.kind is Table {
        assert(spec_merge(a, b) == b);
        assert(spec_merge(spec_merge(a, b), c) == c);
        assert(spec_merge(b, c) == c);
        assert(spec_merge(a, spec_merge(b, c)) == c);
    } else {
    }
}

/// The array model is the sequence of the element models.
pub proof fn lemma_elems_view_index(s: Seq<Value>)
    ensures
        elems_view(s).len() == s.len(),
        forall|i: int| 0 <= i < s.len() ==> elems_view(s)[i] == s[i]@,
    decreases s.len(),
{
    if s.len() > 0 {
        let d = s.drop_last();
        lemma_elems_view_index(d);
        assert(elems_view(s) == elems_view(d).push(s.last()@));
        assert(forall|i: int| 0 <= i < d.len() ==> d[i] == s[i]);
        assert(s.last() == s[s.len() - 1]);
    }
}

/// A key occurs in the model of an entry sequence exactly when some entry
/// carries it.
pub proof fn lemma_entries_view_dom(s: Seq<(String, Value)>, k: Seq<char>)
    ensures
        entries_view(s).dom().contains(k) <==> exists|i: int| 0 <= i < s.len() && s[i].0@ == k,
    decreases s.len(),
{
    if s.len() > 0 {
        let d = s.drop_last();
        lemma_entries_view_dom(d, k);
        assert(entries_view(s) == entries_view(d).insert(s.last().0@, s.last().1@));
        assert(forall|i: int| 0 <= i < d.len() ==> d[i] == s[i]);
        if s.last().0@ == k {
            assert(s[s.len() - 1].0@ == k);
        } else if entries_view(s).dom().contains(k) {
            assert(entries_view(d).dom().contains(k));
            let i = choose|i: int| 0 <= i < d.len() && d[i].0@ == k;
            assert(s[i].0@ == k);
        } else if exists|i: int| 0 <= i < s.len() && s[i].0@ == k {
            let i = choose|i: int| 0 <= i < s.len() && s[i].0@ == k;
            assert(i < s.len() - 1);
            assert(d[i].0@ == k);
        }
    }
}

/// Under unique keys, the model maps each entry's key to that entry's value.
pub proof fn lemma_entries_view_index(s: Seq<(String, Value)>, i: int)
    requires
        forall|x: int, y: int| 0 <= x < y < s.len() ==> s[x].0@ != s[y].0@,
        0 <= i < s.len(),
    ensures
        entries_view(s).dom().contains(s[i].0@),
        entries_view(s)[s[i].0@] == s[i].1@,
    decreases s.len(),
{
    let d = s.drop_last();
    assert(entries_view(s) == entries_view(d).insert(s.last().0@, s.last().1@));
    if i == s.len() - 1 {
        assert(s.last() == s[i]);
    } else {
        assert(forall|x: int| 0 <= x < d.len() ==> d[x] == s[x]);
        lemma_entries_view_index(d, i);
        assert(d[i] == s[i]);
        assert(s[i].0@ != s.last().0@);
    }
}

/// Replacing the value of the entry at `j` replaces the key's image in the
/// model, provided keys are unique.
pub proof fn lemma_entries_view_update(s: Seq<(String, Value)>, j: int, v: Value)
    requires
        forall|x: int, y: int| 0 <= x < y < s.len() ==> s[x].0@ != s[y].0@,
        0 <= j < s.len(),
    ensures
        entries_view(s.update(j, (s[j].0, v))) =~= entries_view(s).insert(s[j].0@, v@),
    decreases s.len(),
{
    let t = s.update(j, (s[j].0, v));
    let d = s.drop_last();
    assert(entries_view(s) == entries_view(d).insert(s.last().0@, s.last().1@));
    assert(t.len() == s.len());
    assert(entries_view(t) == entries_view(t.drop_last()).insert(t.last().0@, t.last().1@));
    if j == s.len() - 1 {
        assert(t.drop_last() =~= d);
        assert(t.last() == (s[j].0, v));
    } else {
        assert(forall|x: int| 0 <= x < d.len() ==> d[x] == s[x]);
        lemma_entries_view_update(d, j, v);
        assert(t.drop_last() =~= d.update(j, (s[j].0, v)));
        assert(d[j] == s[j]);
        assert(t.last() == s.last());
        assert(s[j].0@ != s.last().0@);
    }
}

/// Appending an entry inserts its key into the model.
pub proof fn lemma_entries_view_push(s: Seq<(String, Value)>, k: String, v: Value)
    ensures
        entries_view(s.push((k, v))) =~= entries_view(s).insert(k@, v@),
{
    assert(s.push((k, v)).drop_last() =~= s);
}

impl View for Table {
    type V = Map<Seq<char>, ValView>;

    open spec fn view(&self) -> Map<Seq<char>, ValView> {
        entries_view(self.entries@)
    }
}

impl Table {
    /// A table is well-formed when its keys are unique and its children are
    /// well-formed.
    pub open spec fn wf(&self) -> bool {
        entries_wf(self.entries@)
    }

    /// The empty table.
    pub fn new() -> (t: Table)
        ensures
            t@ =~= Map::<Seq<char>, ValView>::empty(),
            t.wf(),
            t.entries@.len() == 0,
    {
        Table { entries: Vec::new() }
    }

    /// How many entries the table holds.
    pub fn len(&self) -> (n: usize)
        ensures
            n == self.entries@.len(),
    {
        self.entries.len()
    }

    /// The position of the entry carrying `key`, if any.
    pub(crate) fn index_of(&self, key: &String) -> (r: Option<usize>)
        ensures
            match r {
                Some(j) => j < self.entries@.len() && self.entries@[j as int].0@ == key@,
                None => forall|i: int| 0 <= i < self.entries@.len() ==> self.entries@[i].0@ != key@,
            },
    {
        let n = self.entries.len();
        let mut i: usize = 0;
        while i < n
            invariant
                i <= n,
                n == self.entries@.len(),
                forall|x: int| 0 <= x < i ==> self.entries@[x].0@ != key@,
            decreases n - i,
        {
            if self.entries[i].0.eq(key) {
                return Some(i);
            }
            i += 1;
        }
        None
    }

    /// Looks a key up; `None` both when the key is absent.
    pub fn get(&self, key: &str) -> (r: Option<&Value>)
        requires
            self.wf(),
        ensures
            match r {
                Some(v) => self@.dom().contains(key@) && v@ == self@[key@] && *v
                    == self.entries@[choose|i: int|
                    0 <= i < self.entries@.len() && self.entries@[i].0@ == key@].1,
                None => !self@.dom().contains(key@),
            },
    {
        proof {
            lemma_entries_view_dom(self.entries@, key@);
            lemma_entries_wf_all(self.entries@);
        }
        let owned = key.to_owned();
        match self.index_of(&owned) {
            Some(j) => {
                proof {
                    lemma_entries_view_index(self.entries@, j as int);
                    let i = choose|i: int|
                        0 <= i < self.entries@.len() && self.entries@[i].0@ == key@;
                    assert(i == j as int);
                }
                Some(&self.entries[j].1)
            },
            None => None,
        }
    }

    /// Inserts or replaces the entry for `key`.
    pub fn insert(&mut self, key: String, value: Value)
        requires
            old(self).wf(),
            value.wf(),
        ensures
            final(self)@ =~= old(self)@.insert(key@, value@),
            final(self).wf(),
    {
        proof {
            lemma_entries_wf_all(self.entries@);
        }
        match self.index_of(&key) {
            Some(j) => {
                proof {
                    lemma_entries_view_update(self.entries@, j as int, value);
                }
                let ghost s0 = self.entries@;
                let ghost v0 = value;
                let mut tmp = value;
                let p = &mut self.entries[j];
                core::mem::swap(&mut p.1, &mut tmp);
                proof {
                    let s1 = self.entries@;
                    assert(s1 =~= s0.update(j as int, (s0[j as int].0, v0)));
                    assert forall|x: int| 0 <= x < s1.len() implies (#[trigger] s1[x]).1.wf() by {
                        if x != j {
                            assert(s1[x] == s0[x]);
                        }
                    }
                    assert forall|x: int, y: int| 0 <= x < y < s1.len() implies s1[x].0@
                        != s1[y].0@ by {
                        assert(s1[x].0@ == s0[x].0@);
                        assert(s1[y].0@ == s0[y].0@);
                    }
                    lemma_entries_wf_intro(s1);
                }
            },
            None => {
                proof {
                    lemma_entries_view_push(self.entries@, key, value);
                }
                let ghost s0 = self.entries@;
                let ghost k0 = key;
                let ghost v0 = value;
                self.entries.push((key, value));
                proof {
                    let s1 = self.entries@;
                    assert(s1 =~= s0.push((k0, v0)));
                    assert forall|x: int| 0 <= x < s1.len() implies (#[trigger] s1[x]).1.wf() by {
                        if x < s1.len() - 1 {
                            assert(s1[x] == s0[x]);
                        }
                    }
                    assert forall|x: int, y: int| 0 <= x < y < s1.len() implies s1[x].0@
                        != s1[y].0@ by {
                        assert(s1[x] == s0[x]);
                        if y < s1.len() - 1 {
                            assert(s1[y] == s0[y]);
                        } else {
                            assert(s1[y].0@ == k0@);
                            assert(s0[x].0@ != k0@);
                        }
                    }
                    lemma_entries_wf_intro(s1);
                }
            },
        }
    }

    /// Takes the value at position `j` out, leaving `Nil` in its place.
    pub(crate) fn take_at(&mut self, j: usize) -> (r: Value)
        requires
            j < old(self).entries@.len(),
        ensures
            r == old(self).entries@[j as int].1,
            final(self).entries@ =~= old(self).entries@.update(
                j as int,
                (old(self).entries@[j as int].0, Value { origin: None, kind: ValueKind::Nil }),
            ),
    {
        let mut tmp = Value { origin: None, kind: ValueKind::Nil };
        let p = &mut self.entries[j];
        core::mem::swap(&mut p.1, &mut tmp);
        tmp
    }

    /// Puts a value back at position `j`, keeping the key there.
    pub(crate) fn put_at(&mut self, j: usize, v: Value)
        requires
            j < old(self).entries@.len(),
        ensures
            final(self).entries@ =~= old(self).entries@.update(
                j as int,
                (old(self).entries@[j as int].0, v),
            ),
    {
        let mut tmp = v;
        let p = &mut self.entries[j];
        core::mem::swap(&mut p.1, &mut tmp);
    }
}

impl Table {
    /// Appends an entry; the caller is responsible for the key being new.
    pub(crate) fn push_entry(&mut self, key: String, value: Value)
        ensures
            final(self).entries@ =~= old(self).entries@.push((key, value)),
    {
        self.entries.push((key, value));
    }
}

impl Value {
    /// Builds a value from a kind and an optional origin string.
    pub fn new(origin: Option<&str>, kind: ValueKind) -> (r: Value)
        ensures
            r.kind == kind,
            origin matches Some(s) ==> r.origin matches Some(o) && o@ == s@,
            origin is None ==> r.origin is None,
    {
        Value {
            origin: match origin {
                Some(s) => Some(s.to_owned()),
                None => None,
            },
            kind,
        }
    }

    /// The placeholder that forced path creation leaves in fresh slots.
    pub fn nil() -> (r: Value)
        ensures
            r@ == nil_view(),
            r.wf(),
            r == (Value { origin: None, kind: ValueKind::Nil }),
    {
        Value { origin: None, kind: ValueKind::Nil }
    }

    /// The table inside, when this value is a table.
    pub fn as_table(&self) -> (r: Option<&Table>)
        ensures
            match r {
                Some(t) => self.kind matches ValueKind::Table(t0) && t0 == *t,
                None => !(self.kind is Table),
            },
    {
        match &self.kind {
            ValueKind::Table(t) => Some(t),
            _ => None,
        }
    }

    /// The table inside, writable, when this value is a table.
    pub fn as_table_mut(&mut self) -> (r: Option<&mut Table>)
        ensures
            old(self).kind is Table <==> r is Some,
            r matches Some(t) ==> (*t == old(self).kind->Table_0 && final(self).kind
                == ValueKind::Table(*final(t)) && final(self).origin == old(self).origin),
            r is None ==> *final(self) == *old(self),
    {
        match &mut self.kind {
            ValueKind::Table(t) => Some(t),
            _ => None,
        }
    }

    /// The elements inside, when this value is an array.
    pub fn as_array(&self) -> (r: Option<&Vec<Value>>)
        ensures
            match r {
                Some(a) => self.kind matches ValueKind::Array(a0) && a0 == *a,
                None => !(self.kind is Array),
            },
    {
        match &self.kind {
            ValueKind::Array(a) => Some(a),
            _ => None,
        }
    }

    /// The elements inside, writable, when this value is an array.
    pub fn as_array_mut(&mut self) -> (r: Option<&mut Vec<Value>>)
        ensures
            old(self).kind is Array <==> r is Some,
            r matches Some(a) ==> (*a == old(self).kind->Array_0 && final(self).kind
                == ValueKind::Array(*final(a)) && final(self).origin == old(self).origin),
            r is None ==> *final(self) == *old(self),
    {
        match &mut self.kind {
            ValueKind::Array(a) => Some(a),
            _ => None,
        }
    }

    /// The name of this value's kind, for diagnostics.
    pub fn kind_name(&self) -> (r: &'static str)
        ensures
            self.kind is Nil ==> r@ == "nil"@,
            self.kind is Boolean ==> r@ == "a boolean"@,
            self.kind is I64 ==> r@ == "an integer"@,
            self.kind is Float ==> r@ == "a float"@,
            self.kind is Str ==> r@ == "a string"@,
            self.kind is Table ==> r@ == "a table"@,
            self.kind is Array ==> r@ == "an array"@,
    {
        match &self.kind {
            ValueKind::Nil => "nil",
            ValueKind::Boolean(_) => "a boolean",
            ValueKind::I64(_) => "an integer",
            ValueKind::Float(_) => "a float",
            ValueKind::Str(_) => "a string",
            ValueKind::Table(_) => "a table",
            ValueKind::Array(_) => "an array",
        }
    }

    /// A deep copy whose model is the same as this value's.
    pub fn duplicate(&self) -> (r: Value)
        ensures
            r@ == self@,
            self.wf() ==> r.wf(),
        decreases self,
    {
        let origin: Option<String> = match &self.origin {
            Some(s) => Some(s.clone()),
            None => None,
        };
        let kind: ValueKind = match &self.kind {
            ValueKind::Nil => ValueKind::Nil,
            ValueKind::Boolean(b) => ValueKind::Boolean(*b),
            ValueKind::I64(n) => ValueKind::I64(*n),
            ValueKind::Float(s) => ValueKind::Float(s.clone()),
            ValueKind::Str(s) => ValueKind::Str(s.clone()),
            ValueKind::Table(t) => {
                let mut entries: Vec<(String, Value)> = Vec::new();
                let n = t.entries.len();
                let mut i: usize = 0;
                while i < n
                    invariant
                        i <= n,
                        self.kind is Table,
                        self.kind->Table_0 == *t,
                        n == t.entries@.len(),
                        entries@.len() == i,
                        forall|x: int| 0 <= x < i ==> (#[trigger] entries@[x]).0@
                            == t.entries@[x].0@ && entries@[x].1@ == t.entries@[x].1@,
                        forall|x: int|
                            0 <= x < i ==> (t.entries@[x].1.wf() ==> (
                            #[trigger] entries@[x]).1.wf()),
                    decreases n - i,
                {
                    let k = t.entries[i].0.clone();
                    proof {
                        assert(decreases_to!(*self => self.kind));
                        assert(decreases_to!(self.kind => self.kind->Table_0));
                        assert(self.kind->Table_0 == *t);
                        assert(decreases_to!(*t => t.entries));
                        assert(decreases_to!(t.entries => t.entries@));
                        assert(decreases_to!(t.entries@ => t.entries@[i as int]));
                        assert(decreases_to!(t.entries@[i as int] => t.entries@[i as int].1));
                    }
                    let v = t.entries[i].1.duplicate();
                    entries.push((k, v));
                    i += 1;
                }
                proof {
                    lemma_entries_views_equal(entries@, t.entries@);
                    if entries_wf(t.entries@) {
                        lemma_entries_dup_wf(entries@, t.entries@);
                    }
                }
                ValueKind::Table(Table { entries })
            },
            ValueKind::Array(a) => {
                let mut elems: Vec<Value> = Vec::new();
                let n = a.len();
                let mut i: usize = 0;
                while i < n
                    invariant
                        i <= n,
                        self.kind is Array,
                        self.kind->Array_0 == *a,
                        n == a@.len(),
                        elems@.len() == i,
                        forall|x: int| 0 <= x < i ==> (#[trigger] elems@[x])@ == a@[x]@,
                        forall|x: int| 0 <= x < i ==> (a@[x].wf() ==> (#[trigger] elems@[x]).wf()),
                    decreases n - i,
                {
                    proof {
                        assert(decreases_to!(*self => self.kind));
                        assert(decreases_to!(self.kind => self.kind->Array_0));
                        assert(self.kind->Array_0 == *a);
                        assert(decreases_to!(*a => a@));
                        assert(decreases_to!(a@ => a@[i as int]));
                    }
                    let v = a[i].duplicate();
                    elems.push(v);
                    i += 1;
                }
                proof {
                    lemma_elems_views_equal(elems@, a@);
                    if elems_wf(a@) {
                        lemma_elems_dup_wf(elems@, a@);
                    }
                }
                ValueKind::Array(elems)
            },
        };
        Value { origin, kind }
    }
}

/// Entry copies that agree on keys and whose children's well-formedness
/// carried over keep the whole sequence well-formed.
proof fn lemma_entries_dup_wf(a: Seq<(String, Value)>, b: Seq<(String, Value)>)
    requires
        a.len() == b.len(),
        entries_wf(b),
        forall|x: int| 0 <= x < a.len() ==> (#[trigger] a[x]).0@ == b[x].0@,
        forall|x: int| 0 <= x < a.len() ==> ((#[trigger] b[x]).1.wf() ==> a[x].1.wf()),
    ensures
        entries_wf(a),
{
    lemma_entries_wf_all(b);
    assert forall|x: int, y: int| 0 <= x < y < a.len() implies a[x].0@ != a[y].0@ by {
        assert(a[x].0@ == b[x].0@);
        assert(a[y].0@ == b[y].0@);
        assert(b[x].0@ != b[y].0@);
    }
    assert forall|x: int| 0 <= x < a.len() implies (#[trigger] a[x]).1.wf() by {
        assert(b[x].1.wf());
    }
    lemma_entries_wf_intro(a);
}

/// Element copies whose well-formedness carried over keep the sequence
/// well-formed.
proof fn lemma_elems_dup_wf(a: Seq<Value>, b: Seq<Value>)
    requires
        a.len() == b.len(),
        elems_wf(b),
        forall|x: int| 0 <= x < a.len() ==> ((#[trigger] b[x]).wf() ==> a[x].wf()),
    ensures
        elems_wf(a),
{
    lemma_elems_wf_all(b);
    assert forall|x: int| 0 <= x < a.len() implies (#[trigger] a[x]).wf() by {
        assert(b[x].wf());
    }
    lemma_elems_wf_intro(a);
}

impl Value {
    /// Deep merge: consumes `other` and merges it into `self` under the
    /// right-biased rule that `spec_merge` states.
    pub fn merge(&mut self, other: Value)
        requires
            old(self).wf(),
            other.wf(),
        ensures
            final(self)@ == spec_merge(old(self)@, other@),
            final(self).wf(),
    {
        let mut tmp = Value::nil();
        core::mem::swap(self, &mut tmp);
        let merged = Value::merged(tmp, &other);
        *self = merged;
    }

    /// The merge of `a` with `b`, built as a fresh value.
    fn merged(a: Value, b: &Value) -> (r: Value)
        requires
            a.wf(),
            b.wf(),
        ensures
            r@ == spec_merge(a@, b@),
            r.wf(),
        decreases b,
    {
        let ghost a0 = a;
        let a_is_table = matches!(a.kind, ValueKind::Table(_));
        let b_is_table = matches!(b.kind, ValueKind::Table(_));
        if !(a_is_table && b_is_table) {
            return b.duplicate();
        }
        let origin = a.origin;
        let mut ta = match a.kind {
            ValueKind::Table(t) => t,
            _ => Table { entries: Vec::new() },
        };
        match &b.kind {
            ValueKind::Table(tb) => {
                let ghost ma = ta@;
                let n = tb.entries.len();
                let mut i: usize = 0;
                while i < n
                    invariant
                        i <= n,
                        b.kind is Table,
                        b.kind->Table_0 == *tb,
                        b.wf(),
                        n == tb.entries@.len(),
                        ta.wf(),
                        ta@ == merge_entries_upto(ma, tb.entries@, i as int),
                    decreases n - i,
                {
                    proof {
                        lemma_entries_wf_all(tb.entries@);
                        lemma_entries_wf_all(ta.entries@);
                        lemma_entries_view_dom(ta.entries@, tb.entries@[i as int].0@);
                    }
                    let k = tb.entries[i].0.clone();
                    let bv = &tb.entries[i].1;
                    proof {
                        assert(decreases_to!(*b => b.kind));
                        assert(decreases_to!(b.kind => b.kind->Table_0));
                        assert(decreases_to!(*tb => tb.entries));
                        assert(decreases_to!(tb.entries => tb.entries@));
                        assert(decreases_to!(tb.entries@ => tb.entries@[i as int]));
                        assert(decreases_to!(tb.entries@[i as int] => tb.entries@[i as int].1));
                    }
                    match ta.index_of(&k) {
                        Some(j) => {
                            let ghost s0 = ta.entries@;
                            let old_child = ta.take_at(j);
                            proof {
                                lemma_entries_view_index(s0, j as int);
                            }
                            let new_child = Value::merged(old_child, bv);
                            let ghost s1 = ta.entries@;
                            ta.put_at(j, new_child);
                            proof {
                                let s2 = ta.entries@;
                                assert(s2 =~= s0.update(j as int, (s0[j as int].0, new_child)));
                                lemma_entries_view_update(s0, j as int, new_child);
                                assert(entries_view(s2) =~= entries_view(s0).insert(
                                    k@,
                                    new_child@,
                                ));
                                assert forall|x: int| 0 <= x < s2.len() implies (
                                #[trigger] s2[x]).1.wf() by {
                                    if x != j {
                                        assert(s2[x] == s0[x]);
                                    }
                                }
                                assert forall|x: int, y: int| 0 <= x < y < s2.len() implies
                                    s2[x].0@ != s2[y].0@ by {
                                    assert(s2[x].0@ == s0[x].0@);
                                    assert(s2[y].0@ == s0[y].0@);
                                }
                                lemma_entries_wf_intro(s2);
                                assert(ta@ == merge_into(
                                    merge_entries_upto(ma, tb.entries@, i as int),
                                    k@,
                                    bv@,
                                ));
                            }
                        },
                        None => {
                            let ghost s0 = ta.entries@;
                            let copied = bv.duplicate();
                            ta.push_entry(k, copied);
                            proof {
                                let s2 = ta.entries@;
                                assert(s2 =~= s0.push((k, copied)));
                                lemma_entries_view_push(s0, k, copied);
                                assert forall|x: int| 0 <= x < s2.len() implies (
                                #[trigger] s2[x]).1.wf() by {
                                    if x < s2.len() - 1 {
                                        assert(s2[x] == s0[x]);
                                    }
                                }
                                assert forall|x: int, y: int| 0 <= x < y < s2.len() implies
                                    s2[x].0@ != s2[y].0@ by {
                                    assert(s2[x] == s0[x]);
                                    if y < s2.len() - 1 {
                                        assert(s2[y] == s0[y]);
                                    }
                                }
                                lemma_entries_wf_intro(s2);
                                assert(!entries_view(s0).dom().contains(k@));
                                assert(ta@ == merge_into(
                                    merge_entries_upto(ma, tb.entries@, i as int),
                                    k@,
                                    bv@,
                                ));
                            }
                        },
                    }
                    i += 1;
                }
                proof {
                    lemma_entries_wf_all(tb.entries@);
                    lemma_merge_entries_full(ma, tb.entries@);
                    let r = Value { origin, kind: ValueKind::Table(ta) };
                    assert(a0@.kind->Table_0 == ma);
                    assert(b@.kind->Table_0 == entries_view(tb.entries@));
                    let smk = spec_merge(a0@, b@).kind;
                    assert(smk is Table);
                    assert(ta@ =~= smk->Table_0);
                    assert(smk == KindView::Table(smk->Table_0));
                    assert(r@.kind == KindView::Table(ta@));
                    assert(r@ == spec_merge(a0@, b@));
                }
                Value { origin, kind: ValueKind::Table(ta) }
            },
            _ => {
                proof {
                    assert(false);
                }
                b.duplicate()
            },
        }
    }
}

impl Table {
    /// A deep copy whose model is the same as this table's.
    pub fn duplicate(&self) -> (r: Table)
        requires
            self.wf(),
        ensures
            r@ == self@,
            r.wf(),
    {
        let mut entries: Vec<(String, Value)> = Vec::new();
        let n = self.entries.len();
        let mut i: usize = 0;
        proof {
            lemma_entries_wf_all(self.entries@);
        }
        while i < n
            invariant
                i <= n,
                n == self.entries@.len(),
                entries@.len() == i,
                forall|x: int| 0 <= x < n ==> (#[trigger] self.entries@[x]).1.wf(),
                forall|x: int, y: int| 0 <= x < y < n ==> self.entries@[x].0@
                    != self.entries@[y].0@,
                forall|x: int| 0 <= x < i ==> (#[trigger] entries@[x]).0@ == self.entries@[x].0@
                    && entries@[x].1@ == self.entries@[x].1@,
                forall|x: int| 0 <= x < i ==> (self.entries@[x].1.wf() ==> (
                #[trigger] entries@[x]).1.wf()),
            decreases n - i,
        {
            let k = self.entries[i].0.clone();
            let v = self.entries[i].1.duplicate();
            entries.push((k, v));
            i += 1;
        }
        proof {
            lemma_entries_views_equal(entries@, self.entries@);
            lemma_entries_dup_wf(entries@, self.entries@);
        }
        Table { entries }
    }
}

/// Entry sequences that agree key-by-key and model-by-model have the same
/// table model.
proof fn lemma_entries_views_equal(a: Seq<(String, Value)>, b: Seq<(String, Value)>)
    requires
        a.len() == b.len(),
        forall|x: int| 0 <= x < a.len() ==> (#[trigger] a[x]).0@ == b[x].0@ && a[x].1@ == b[x].1@,
    ensures
        entries_view(a) =~= entries_view(b),
    decreases a.len(),
{
    if a.len() > 0 {
        assert(forall|x: int| 0 <= x < a.len() - 1 ==> a.drop_last()[x] == a[x]);
        assert(forall|x: int| 0 <= x < b.len() - 1 ==> b.drop_last()[x] == b[x]);
        lemma_entries_views_equal(a.drop_last(), b.drop_last());
    }
}

/// Element sequences that agree model-by-model have the same array model.
proof fn lemma_elems_views_equal(a: Seq<Value>, b: Seq<Value>)
    requires
        a.len() == b.len(),
        forall|x: int| 0 <= x < a.len() ==> (#[trigger] a[x])@ == b[x]@,
    ensures
        elems_view(a) =~= elems_view(b),
    decreases a.len(),
{
    if a.len() > 0 {
        assert(forall|x: int| 0 <= x < a.len() - 1 ==> a.drop_last()[x] == a[x]);
        assert(forall|x: int| 0 <= x < b.len() - 1 ==> b.drop_last()[x] == b[x]);
        lemma_elems_views_equal(a.drop_last(), b.drop_last());
    }
}

} // verus!
