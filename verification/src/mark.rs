//! Inline marks (bold, italic, link, …) and their schema-bound types.

use std::sync::Arc;
use vstd::prelude::*;

use crate::attrs::{Attrs, AttrsV};
use crate::schema::MarkSpec;

verus! {

#[derive(Debug)]
pub struct MarkTypeInner {
    pub(crate) id: usize,
    pub(crate) name: String,
    pub(crate) spec: MarkSpec,
}

/// A schema-bound mark type. Cheap to clone; identity is by schema id.
#[derive(Debug)]
pub struct MarkType(pub(crate) Arc<MarkTypeInner>);

impl MarkType {
    /// The schema-assigned id.
    pub open(crate) spec fn spec_id(self) -> usize {
        self.0.id
    }

    /// The declaration the type was built from.
    pub open(crate) spec fn spec_decl(self) -> MarkSpec {
        self.0.spec
    }

    /// The type's name.
    pub open(crate) spec fn spec_name(self) -> Seq<char> {
        self.0.name@
    }

    /// The mark type's unique name within its schema.
    pub fn name(&self) -> (r: &str)
        ensures
            r@ == self.spec_name(),
    {
        self.0.name.as_str()
    }

    /// The schema-assigned id (stable for the lifetime of the schema).
    pub fn id(&self) -> (r: usize)
        ensures
            r == self.spec_id(),
    {
        self.0.id
    }

    /// The spec this type was built from.
    pub fn spec(&self) -> (r: &MarkSpec)
        ensures
            *r == self.spec_decl(),
    {
        &self.0.spec
    }

    /// Instantiate a mark of this type with the given attributes.
    pub fn create(&self, attrs: Attrs) -> (m: Mark)
        ensures
            m.spec_type_id() == self.spec_id(),
            m.spec_attrs() == attrs@,
            m.mark_type_spec() == *self,
            m.attrs_wf() == attrs.wf(),
    {
        Mark { type_: self.clone(), attrs }
    }
}

impl Clone for MarkType {
    fn clone(&self) -> (r: Self)
        ensures
            r == *self,
    {
        MarkType(Arc::clone(&self.0))
    }
}

impl PartialEq for MarkType {
    fn eq(&self, other: &Self) -> (r: bool) {
        self.0.id == other.0.id
    }
}

impl vstd::std_specs::cmp::PartialEqSpecImpl for MarkType {
    open spec fn obeys_eq_spec() -> bool {
        true
    }

    open spec fn eq_spec(&self, other: &MarkType) -> bool {
        self.spec_id() == other.spec_id()
    }
}

impl Eq for MarkType {}

/// The mathematical value of a mark: its type id and attributes.
pub type MarkV = (usize, AttrsV);

/// An applied inline annotation: a [`MarkType`] plus its attributes.
#[derive(Debug)]
pub struct Mark {
    pub(crate) type_: MarkType,
    pub(crate) attrs: Attrs,
}

/// The values of a sequence of marks.
pub open spec fn marks_view(s: Seq<Mark>) -> Seq<MarkV> {
    Seq::new(s.len(), |i: int| s[i].view_spec())
}

impl Mark {
    pub open(crate) spec fn spec_type_id(self) -> usize {
        self.type_.0.id
    }

    pub open(crate) spec fn spec_attrs(self) -> AttrsV {
        self.attrs@
    }

    pub open(crate) spec fn mark_type_spec(self) -> MarkType {
        self.type_
    }

    pub open(crate) spec fn attrs_wf(self) -> bool {
        self.attrs.wf()
    }

    /// The mark's value.
    pub open(crate) spec fn view_spec(self) -> MarkV {
        (self.type_.0.id, self.attrs@)
    }

    /// The type of this mark.
    pub fn mark_type(&self) -> (r: &MarkType)
        ensures
            *r == self.mark_type_spec(),
    {
        &self.type_
    }

    /// This mark's attributes.
    pub fn attrs(&self) -> (r: &Attrs)
        ensures
            r@ == self.spec_attrs(),
            r.wf() == self.attrs_wf(),
    {
        &self.attrs
    }

    /// Same type and same attributes.
    pub fn same_mark(&self, other: &Mark) -> (r: bool)
        ensures
            r == (self.view_spec() == other.view_spec()),
    {
        self.type_.0.id == other.type_.0.id && self.attrs.same_attrs(&other.attrs)
    }

    /// Whether this mark is in `set` (same type and attributes).
    pub fn is_in_set(&self, set: &[Mark]) -> (r: bool)
        ensures
            r == marks_view(set@).contains(self.view_spec()),
    {
        let mut i: usize = 0;
        while i < set.len()
            invariant
                i <= set.len(),
                forall|j: int| 0 <= j < i ==> set@[j].view_spec() != self.view_spec(),
            decreases set.len() - i,
        {
            if set[i].same_mark(self) {
                proof {
                    assert(marks_view(set@)[i as int] == self.view_spec());
                }
                return true;
            }
            i = i + 1;
        }
        proof {
            if marks_view(set@).contains(self.view_spec()) {
                let j = choose|j: int| 0 <= j < marks_view(set@).len() && marks_view(set@)[j] == self.view_spec();
                assert(set@[j].view_spec() == self.view_spec());
            }
        }
        false
    }

    /// Return `set` with this mark added. If a mark of the same type is
    /// present it is replaced. The result stays sorted by mark type id so
    /// serialization is deterministic.
    pub fn add_to_set(&self, set: &[Mark]) -> (r: Vec<Mark>)
        ensures
            marks_view(r@) == marks_view(set@).filter(|m: MarkV| m.0 < self.spec_type_id())
                + seq![self.view_spec()]
                + marks_view(set@).filter(|m: MarkV| m.0 > self.spec_type_id()),
            marks_view(r@) == with_mark(marks_view(set@), self.view_spec()),
            forall|k: int| 0 <= k < r@.len() ==> typed_from(#[trigger] r@[k], set@, self.mark_type_spec()),
    {
        let tid = self.type_.0.id;
        let ghost lo = |m: MarkV| m.0 < tid;
        let ghost hi = |m: MarkV| m.0 > tid;
        let mut out: Vec<Mark> = Vec::new();
        let mut i: usize = 0;
        proof {
            lemma_filter_empty(marks_view(set@.take(0)), lo);
            assert(marks_view(set@.take(0)) =~= Seq::<MarkV>::empty());
            assert(marks_view(out@) =~= marks_view(set@.take(0)).filter(lo));
        }
        while i < set.len()
            invariant
                i <= set.len(),
                tid == self.spec_type_id(),
                lo == (|m: MarkV| m.0 < tid),
                marks_view(out@) == marks_view(set@.take(i as int)).filter(lo),
                forall|k: int| 0 <= k < out@.len() ==> typed_from(#[trigger] out@[k], set@, self.mark_type_spec()),
            decreases set.len() - i,
        {
            proof {
                assert(set@.take(i as int + 1) =~= set@.take(i as int).push(set@[i as int]));
                assert(marks_view(set@.take(i as int + 1)) =~= marks_view(set@.take(i as int)).push(set@[i as int].view_spec()));
                lemma_filter_step(marks_view(set@.take(i as int)), lo, set@[i as int].view_spec());
            }
            let ghost x = set@[i as int].view_spec();
            let ghost before = out@;
            let keep = set[i].type_.0.id < tid;
            proof {
                assert(keep == lo(x));
            }
            if keep {
                let c = set[i].clone_mark();
                let ghost prev = out@;
                out.push(c);
                proof {
                    assert(out@.drop_last() =~= prev);
                    assert(c.mark_type_spec() == set@[i as int].mark_type_spec());
                    assert(typed_from(c, set@, self.mark_type_spec()));
                    assert(marks_view(out@) =~= marks_view(prev).push(c.view_spec()));
                }
            }
            proof {
                if lo(x) {
                    assert(marks_view(out@) == marks_view(before).push(x));
                } else {
                    assert(out@ == before);
                }
                assert(marks_view(out@) == marks_view(set@.take(i as int + 1)).filter(lo));
            }
            i = i + 1;
        }
        proof {
            assert(set@.take(set@.len() as int) =~= set@);
        }
        let me = self.clone_mark();
        let ghost prev = out@;
        out.push(me);
        proof {
            assert(out@.drop_last() =~= prev);
            assert(typed_from(me, set@, self.mark_type_spec()));
        }
        let ghost mid = marks_view(out@);
        proof {
            assert(mid =~= marks_view(set@).filter(lo) + seq![self.view_spec()]);
        }
        let mut i: usize = 0;
        proof {
            lemma_filter_empty(marks_view(set@.take(0)), hi);
            assert(marks_view(set@.take(0)) =~= Seq::<MarkV>::empty());
            assert(marks_view(out@) =~= mid + marks_view(set@.take(0)).filter(hi));
        }
        while i < set.len()
            invariant
                i <= set.len(),
                tid == self.spec_type_id(),
                hi == (|m: MarkV| m.0 > tid),
                marks_view(out@) == mid + marks_view(set@.take(i as int)).filter(hi),
                forall|k: int| 0 <= k < out@.len() ==> typed_from(#[trigger] out@[k], set@, self.mark_type_spec()),
            decreases set.len() - i,
        {
            proof {
                assert(set@.take(i as int + 1) =~= set@.take(i as int).push(set@[i as int]));
                assert(marks_view(set@.take(i as int + 1)) =~= marks_view(set@.take(i as int)).push(set@[i as int].view_spec()));
                lemma_filter_step(marks_view(set@.take(i as int)), hi, set@[i as int].view_spec());
            }
            if set[i].type_.0.id > tid {
                let c = set[i].clone_mark();
                let ghost prev = out@;
                out.push(c);
                proof {
                    assert(out@.drop_last() =~= prev);
                    assert(c.mark_type_spec() == set@[i as int].mark_type_spec());
                    assert(typed_from(c, set@, self.mark_type_spec()));
                    assert(marks_view(out@) =~= marks_view(prev).push(c.view_spec()));
                }
            }
            i = i + 1;
        }
        proof {
            assert(set@.take(set@.len() as int) =~= set@);
        }
        out
    }

    /// Return `set` with any mark of this mark's type removed (whatever its
    /// attributes), the others kept in order.
    pub fn remove_from_set(&self, set: &[Mark]) -> (r: Vec<Mark>)
        ensures
            marks_view(r@) == marks_view(set@).filter(|m: MarkV| m.0 != self.view_spec().0),
            marks_view(r@) == without_mark(marks_view(set@), self.view_spec()),
            forall|k: int| 0 <= k < r@.len() ==> type_in(#[trigger] r@[k], set@),
    {
        let mut out: Vec<Mark> = Vec::new();
        let mut i: usize = 0;
        proof {
            lemma_filter_empty(marks_view(set@.take(0)), |m: MarkV| m.0 != self.view_spec().0);
            assert(marks_view(set@.take(0)) =~= Seq::<MarkV>::empty());
            assert(marks_view(out@) =~= marks_view(set@.take(0)).filter(|m: MarkV| m.0 != self.view_spec().0));
        }
        while i < set.len()
            invariant
                i <= set.len(),
                marks_view(out@) == marks_view(set@.take(i as int)).filter(|m: MarkV| m.0 != self.view_spec().0),
                forall|k: int| 0 <= k < out@.len() ==> type_in(#[trigger] out@[k], set@),
            decreases set.len() - i,
        {
            proof {
                assert(set@.take(i as int + 1) =~= set@.take(i as int).push(set@[i as int]));
                assert(marks_view(set@.take(i as int + 1)) =~= marks_view(set@.take(i as int)).push(set@[i as int].view_spec()));
                lemma_filter_step(marks_view(set@.take(i as int)), |m: MarkV| m.0 != self.view_spec().0, set@[i as int].view_spec());
            }
            if set[i].mark_type().id() != self.mark_type().id() {
                let c = set[i].clone_mark();
                let ghost prev = out@;
                out.push(c);
                proof {
                    assert(out@.drop_last() =~= prev);
                    assert(c.mark_type_spec() == set@[i as int].mark_type_spec());
                    assert(type_in(c, set@));
                    assert(marks_view(out@) =~= marks_view(prev).push(c.view_spec()));
                }
            }
            i = i + 1;
        }
        proof {
            assert(set@.take(set@.len() as int) =~= set@);
            let v = self.view_spec();
            let f = |m: MarkV| m.0 != self.view_spec().0;
            assert(f =~= differs(v));
        }
        out
    }

    pub(crate) fn clone_mark(&self) -> (r: Mark)
        ensures
            r.view_spec() == self.view_spec(),
            r.type_ == self.type_,
            r.attrs_wf() == self.attrs_wf(),
    {
        Mark { type_: self.type_.clone(), attrs: self.attrs.clone() }
    }
}

impl Clone for Mark {
    fn clone(&self) -> (r: Self)
        ensures
            r.view_spec() == self.view_spec(),
    {
        self.clone_mark()
    }
}

impl PartialEq for Mark {
    fn eq(&self, other: &Self) -> (r: bool) {
        self.same_mark(other)
    }
}

impl vstd::std_specs::cmp::PartialEqSpecImpl for Mark {
    open spec fn obeys_eq_spec() -> bool {
        true
    }

    open spec fn eq_spec(&self, other: &Mark) -> bool {
        self.view_spec() == other.view_spec()
    }
}

impl Eq for Mark {}

/// One step of `filter`.
pub proof fn lemma_filter_step<A>(s: Seq<A>, p: spec_fn(A) -> bool, x: A)
    ensures
        s.push(x).filter(p) == (if p(x) { s.filter(p).push(x) } else { s.filter(p) }),
{
    reveal(Seq::filter);
    assert(s.push(x).drop_last() =~= s);
}

/// Filtering the empty sequence.
pub proof fn lemma_filter_empty<A>(s: Seq<A>, p: spec_fn(A) -> bool)
    requires
        s.len() == 0,
    ensures
        s.filter(p) == s,
{
    reveal(Seq::filter);
}


/// `s` with the mark `m` added: the marks of lower type, `m`, then the
/// marks of higher type (a mark of `m`'s own type is replaced).
pub open spec fn with_mark(s: Seq<MarkV>, m: MarkV) -> Seq<MarkV> {
    s.filter(|x: MarkV| x.0 < m.0) + seq![m] + s.filter(|x: MarkV| x.0 > m.0)
}

/// Whether `m` is of type `own` or of the type of one of `set`: a mark set
/// operation hands out no mark of a type it was not given.
pub open spec fn typed_from(m: Mark, set: Seq<Mark>, own: MarkType) -> bool {
    m.mark_type_spec() == own || type_in(m, set)
}

/// Whether `m` is of the type of one of `set`.
pub open spec fn type_in(m: Mark, set: Seq<Mark>) -> bool {
    exists|j: int| 0 <= j < set.len() && m.mark_type_spec() == (#[trigger] set[j]).mark_type_spec()
}

/// Whether a mark is of another type than `m`.
pub open spec fn differs(m: MarkV) -> spec_fn(MarkV) -> bool {
    |x: MarkV| x.0 != m.0
}

/// `s` without any mark of `m`'s type.
pub open spec fn without_mark(s: Seq<MarkV>, m: MarkV) -> Seq<MarkV> {
    s.filter(differs(m))
}

/// A mark added to a set is in it.
pub proof fn law_added_mark_is_present(s: Seq<MarkV>, m: MarkV)
    ensures
        with_mark(s, m).contains(m),
{
    let lo = s.filter(|x: MarkV| x.0 < m.0);
    assert(with_mark(s, m)[lo.len() as int] == m);
}

/// A mark removed from a set is not in it.
pub proof fn law_removed_mark_is_absent(s: Seq<MarkV>, m: MarkV)
    ensures
        !without_mark(s, m).contains(m),
{
    broadcast use vstd::seq_lib::group_filter_ensures;
    let f = without_mark(s, m);
    if f.contains(m) {
        let i = choose|i: int| 0 <= i < f.len() && f[i] == m;
        s.lemma_filter_pred(differs(m), i);
    }
}

/// Adding a mark keeps a set sorted by type (so one mark per type).
pub proof fn law_add_keeps_sorted(s: Seq<MarkV>, m: MarkV)
    requires
        sorted_by_type(s),
    ensures
        sorted_by_type(with_mark(s, m)),
{
    let lo = s.filter(|x: MarkV| x.0 < m.0);
    let hi = s.filter(|x: MarkV| x.0 > m.0);
    lemma_filter_sorted(s, |x: MarkV| x.0 < m.0);
    lemma_filter_sorted(s, |x: MarkV| x.0 > m.0);
    let r = with_mark(s, m);
    assert forall|i: int, j: int| 0 <= i < j < r.len() implies r[i].0 < r[j].0 by {
        if i < lo.len() {
            s.lemma_filter_pred(|x: MarkV| x.0 < m.0, i);
            assert(r[i] == lo[i]);
        } else if i == lo.len() {
            assert(r[i] == m);
        } else {
            assert(r[i] == hi[i - lo.len() - 1]);
        }
        if j < lo.len() {
            assert(r[j] == lo[j]);
        } else if j == lo.len() {
            assert(r[j] == m);
            s.lemma_filter_pred(|x: MarkV| x.0 < m.0, i);
        } else {
            assert(r[j] == hi[j - lo.len() - 1]);
            s.lemma_filter_pred(|x: MarkV| x.0 > m.0, j - lo.len() - 1);
            if i < lo.len() {
                s.lemma_filter_pred(|x: MarkV| x.0 < m.0, i);
            } else if i > lo.len() {
                assert(sorted_by_type(hi));
            }
        }
    }
}

/// Filtering keeps a set sorted by type.
proof fn lemma_filter_sorted(s: Seq<MarkV>, p: spec_fn(MarkV) -> bool)
    requires
        sorted_by_type(s),
    ensures
        sorted_by_type(s.filter(p)),
    decreases s.len(),
{
    broadcast use vstd::seq_lib::group_filter_ensures;
    if s.len() > 0 {
        let t = s.drop_last();
        assert(sorted_by_type(t));
        lemma_filter_sorted(t, p);
        lemma_filter_step(t, p, s.last());
        assert(t.push(s.last()) =~= s);
        if p(s.last()) {
            let f = t.filter(p);
            assert forall|i: int| 0 <= i < f.len() implies f[i].0 < s.last().0 by {
                assert(f.contains(f[i]));
                t.lemma_filter_contains_rev(p, f[i]);
                let k = choose|k: int| 0 <= k < t.len() && t[k] == f[i];
                assert(s[k] == t[k]);
                assert(s[s.len() - 1] == s.last());
            }
            let g = f.push(s.last());
            assert forall|i: int, j: int| 0 <= i < j < g.len() implies g[i].0 < g[j].0 by {
                if j < f.len() {
                    assert(g[i] == f[i] && g[j] == f[j]);
                } else {
                    assert(g[i] == f[i]);
                }
            }
        }
    }
}

/// Adding a mark twice is adding it once.
pub proof fn law_add_idempotent(s: Seq<MarkV>, m: MarkV)
    ensures
        with_mark(with_mark(s, m), m) == with_mark(s, m),
{
    broadcast use vstd::seq_lib::group_filter_ensures;
    let lo = |x: MarkV| x.0 < m.0;
    let hi = |x: MarkV| x.0 > m.0;
    let a = s.filter(lo);
    let b = s.filter(hi);
    let r = with_mark(s, m);
    assert(r == a + seq![m] + b);
    Seq::filter_distributes_over_add(a + seq![m], b, lo);
    Seq::filter_distributes_over_add(a, seq![m], lo);
    Seq::filter_distributes_over_add(a + seq![m], b, hi);
    Seq::filter_distributes_over_add(a, seq![m], hi);
    assert forall|i: int| 0 <= i < a.len() implies lo(#[trigger] a[i]) && !hi(a[i]) by {
        s.lemma_filter_pred(lo, i);
    }
    assert forall|i: int| 0 <= i < b.len() implies hi(#[trigger] b[i]) && !lo(b[i]) by {
        s.lemma_filter_pred(hi, i);
    }
    assert(!lo(seq![m][0]) && !hi(seq![m][0]));
    lemma_filter_all(a, lo);
    lemma_filter_none(b, lo);
    lemma_filter_none(a, hi);
    lemma_filter_all(b, hi);
    lemma_filter_none(seq![m], lo);
    lemma_filter_none(seq![m], hi);
    assert(r.filter(lo) =~= a);
    assert(r.filter(hi) =~= b);
}

/// Whether a mark's type comes before `m`'s.
pub open spec fn below(m: MarkV) -> spec_fn(MarkV) -> bool {
    |x: MarkV| x.0 < m.0
}

/// Whether a mark's type comes after `m`'s.
pub open spec fn above(m: MarkV) -> spec_fn(MarkV) -> bool {
    |x: MarkV| x.0 > m.0
}

/// The index of the first mark from `i` on whose type comes after `m`'s
/// (or the length).
pub open spec fn first_above(s: Seq<MarkV>, m: MarkV, i: int) -> int
    decreases s.len() - i,
{
    if i < 0 || i >= s.len() || s[i].0 > m.0 {
        i
    } else {
        first_above(s, m, i + 1)
    }
}

proof fn lemma_first_above(s: Seq<MarkV>, m: MarkV, i: int)
    requires
        0 <= i <= s.len(),
    ensures
        i <= first_above(s, m, i) <= s.len(),
        forall|k: int| i <= k < first_above(s, m, i) ==> (#[trigger] s[k]).0 <= m.0,
        first_above(s, m, i) < s.len() ==> s[first_above(s, m, i)].0 > m.0,
    decreases s.len() - i,
{
    if i < s.len() && s[i].0 <= m.0 {
        lemma_first_above(s, m, i + 1);
    }
}

/// A set sorted by type with no mark of `m`'s type splits into the marks
/// below `m`'s type followed by those above it.
proof fn lemma_split_around(s: Seq<MarkV>, m: MarkV)
    requires
        sorted_by_type(s),
        forall|i: int| 0 <= i < s.len() ==> (#[trigger] s[i]).0 != m.0,
    ensures
        s.filter(below(m)) + s.filter(above(m)) =~= s,
{
    lemma_first_above(s, m, 0);
    let k = first_above(s, m, 0);
    let a = s.take(k);
    let b = s.skip(k);
    assert(a + b =~= s);
    assert forall|i: int| 0 <= i < a.len() implies below(m)(#[trigger] a[i]) && !above(m)(a[i]) by {
        assert(a[i] == s[i]);
    }
    assert forall|i: int| 0 <= i < b.len() implies above(m)(#[trigger] b[i]) && !below(m)(b[i]) by {
        assert(b[i] == s[k + i]);
        if i > 0 {
            assert(s[k].0 < s[k + i].0);
        }
    }
    lemma_filter_all(a, below(m));
    lemma_filter_none(b, below(m));
    lemma_filter_none(a, above(m));
    lemma_filter_all(b, above(m));
    Seq::filter_distributes_over_add(a, b, below(m));
    Seq::filter_distributes_over_add(a, b, above(m));
    assert(a + Seq::<MarkV>::empty() =~= a);
    assert(Seq::<MarkV>::empty() + b =~= b);
}

/// Removing a mark just added to a set sorted by type that held no mark of
/// its type gives the set back: a remove-mark step undoes an add-mark step
/// on such content.
pub proof fn law_remove_undoes_add(s: Seq<MarkV>, m: MarkV)
    requires
        sorted_by_type(s),
        forall|i: int| 0 <= i < s.len() ==> (#[trigger] s[i]).0 != m.0,
    ensures
        without_mark(with_mark(s, m), m) == s,
{
    let a = s.filter(below(m));
    let b = s.filter(above(m));
    let d = differs(m);
    assert(with_mark(s, m) == a + seq![m] + b) by {
        assert(below(m) =~= |x: MarkV| x.0 < m.0);
        assert(above(m) =~= |x: MarkV| x.0 > m.0);
    }
    assert(a.filter(d) == a) by {
        assert forall|i: int| 0 <= i < a.len() implies d(#[trigger] a[i]) by {
            s.lemma_filter_pred(below(m), i);
        }
        lemma_filter_all(a, d);
    }
    assert(b.filter(d) == b) by {
        assert forall|i: int| 0 <= i < b.len() implies d(#[trigger] b[i]) by {
            s.lemma_filter_pred(above(m), i);
        }
        lemma_filter_all(b, d);
    }
    assert(seq![m].filter(d) == Seq::<MarkV>::empty()) by {
        assert(!d(seq![m][0]));
        lemma_filter_none(seq![m], d);
    }
    assert((a + seq![m] + b).filter(d) == a + b) by {
        Seq::filter_distributes_over_add(a + seq![m], b, d);
        Seq::filter_distributes_over_add(a, seq![m], d);
        assert(a + Seq::<MarkV>::empty() =~= a);
    }
    lemma_split_around(s, m);
}

/// Filtering by a predicate every element meets changes nothing.
proof fn lemma_filter_all(s: Seq<MarkV>, p: spec_fn(MarkV) -> bool)
    requires
        forall|i: int| 0 <= i < s.len() ==> p(#[trigger] s[i]),
    ensures
        s.filter(p) == s,
    decreases s.len(),
{
    if s.len() > 0 {
        let t = s.drop_last();
        assert forall|i: int| 0 <= i < t.len() implies p(#[trigger] t[i]) by {
            assert(t[i] == s[i]);
        }
        lemma_filter_all(t, p);
        assert(p(s[s.len() - 1]));
        lemma_filter_step(t, p, s.last());
        assert(t.push(s.last()) =~= s);
    } else {
        lemma_filter_empty(s, p);
    }
}

/// Filtering by a predicate no element meets leaves nothing.
proof fn lemma_filter_none(s: Seq<MarkV>, p: spec_fn(MarkV) -> bool)
    requires
        forall|i: int| 0 <= i < s.len() ==> !p(#[trigger] s[i]),
    ensures
        s.filter(p) == Seq::<MarkV>::empty(),
    decreases s.len(),
{
    if s.len() > 0 {
        let t = s.drop_last();
        assert forall|i: int| 0 <= i < t.len() implies !p(#[trigger] t[i]) by {
            assert(t[i] == s[i]);
        }
        lemma_filter_none(t, p);
        assert(!p(s[s.len() - 1]));
        lemma_filter_step(t, p, s.last());
        assert(t.push(s.last()) =~= s);
    } else {
        lemma_filter_empty(s, p);
        assert(s =~= Seq::<MarkV>::empty());
    }
}

/// Mark values ordered by type id, one mark per type.
pub open spec fn sorted_by_type(s: Seq<MarkV>) -> bool {
    forall|i: int, j: int| 0 <= i < j < s.len() ==> s[i].0 < s[j].0
}

/// A copy of a mark vector.
pub(crate) fn clone_marks(set: &[Mark]) -> (r: Vec<Mark>)
    ensures
        marks_view(r@) == marks_view(set@),
        r@.len() == set@.len(),
        forall|i: int| 0 <= i < set@.len() ==> (#[trigger] r@[i]).attrs_wf() == set@[i].attrs_wf(),
        forall|i: int| 0 <= i < set@.len() ==> (#[trigger] r@[i]).mark_type_spec() == set@[i].mark_type_spec(),
{
    let mut out: Vec<Mark> = Vec::new();
    let mut i: usize = 0;
    while i < set.len()
        invariant
            i <= set.len(),
            out@.len() == i,
            forall|j: int| 0 <= j < i ==> (#[trigger] out@[j]).view_spec() == set@[j].view_spec(),
            forall|j: int| 0 <= j < i ==> (#[trigger] out@[j]).attrs_wf() == set@[j].attrs_wf(),
            forall|j: int| 0 <= j < i ==> (#[trigger] out@[j]).mark_type_spec() == set@[j].mark_type_spec(),
        decreases set.len() - i,
    {
        out.push(set[i].clone_mark());
        i = i + 1;
    }
    proof {
        assert(marks_view(out@) =~= marks_view(set@));
    }
    out
}

/// Whether two mark vectors hold the same marks in the same order.
pub(crate) fn same_mark_list(a: &[Mark], b: &[Mark]) -> (r: bool)
    ensures
        r == (marks_view(a@) == marks_view(b@)),
{
    if a.len() != b.len() {
        proof {
            assert(marks_view(a@).len() != marks_view(b@).len());
        }
        return false;
    }
    let mut i: usize = 0;
    while i < a.len()
        invariant
            i <= a.len(),
            a.len() == b.len(),
            forall|j: int| 0 <= j < i ==> a@[j].view_spec() == b@[j].view_spec(),
        decreases a.len() - i,
    {
        if !a[i].same_mark(&b[i]) {
            proof {
                assert(marks_view(a@)[i as int] != marks_view(b@)[i as int]);
            }
            return false;
        }
        i = i + 1;
    }
    proof {
        assert(marks_view(a@) =~= marks_view(b@));
    }
    true
}

/// Whether two mark sets are equal as sets (order-insensitive).
pub fn same_mark_set(a: &[Mark], b: &[Mark]) -> (r: bool)
    ensures
        r == (a@.len() == b@.len() && forall|i: int| 0 <= i < a@.len() ==> marks_view(b@).contains(#[trigger] marks_view(a@)[i])),
{
    if a.len() != b.len() {
        proof {
            assert(a@.len() != b@.len());
        }
        return false;
    }
    let mut i: usize = 0;
    while i < a.len()
        invariant
            i <= a.len(),
            a.len() == b.len(),
            a@.len() == b@.len(),
            forall|j: int| 0 <= j < i ==> marks_view(b@).contains(#[trigger] marks_view(a@)[j]),
        decreases a.len() - i,
    {
        if !a[i].is_in_set(b) {
            proof {
                assert(marks_view(a@)[i as int] == a@[i as int].view_spec());
            }
            return false;
        }
        i = i + 1;
    }
    true
}

} // verus!
