//! [`Transform`] — a document being changed by a sequence of steps, with
//! the document before each step and the composed position mapping.

use vstd::prelude::*;

use crate::attrs::AttrValue;
use crate::fragment::Fragment;
use crate::map::Mapping;
use crate::mark::Mark;
use crate::node::Node;
use crate::pos::{res_depth, ResolvedPos};
use crate::schema::Schema;
use crate::slice::Slice;
use crate::step::{AddMarkStep, AnyStep, AttrStep, RemoveMarkStep, ReplaceStep, Step, StepError};
use crate::attr_change::{attr_changed, node_starts_at};
use crate::strutil::{push_str, push_chars, decimal_chars, string_from_chars};

verus! {

/// Whether applying `step` to `doc` under `schema` can give `n`: `n` is an
/// outcome of the step's `apply`.
pub open spec fn step_applies(step: AnyStep, doc: Node, schema: Schema, n: Node) -> bool {
    call_ensures(AnyStep::apply, (&step, &doc, &schema), Ok::<Node, StepError>(n))
}

/// Whether `inv` is what inverting `step` against `doc`, the document it
/// applied to, can give.
pub open spec fn inverts(step: AnyStep, doc: Node, inv: AnyStep) -> bool {
    call_ensures(AnyStep::invert, (&step, &doc), Ok::<AnyStep, StepError>(inv))
}

/// The document after step `i` of a chain whose documents before each
/// step are `docs` and whose last step gave `last`.
pub open spec fn next_doc(docs: Seq<Node>, i: int, last: Node) -> Node {
    if i + 1 < docs.len() {
        docs[i + 1]
    } else {
        last
    }
}

/// Whether `docs` are the documents that `steps` applied to in turn under
/// `schema`, the last step giving `last`: each step applies to its
/// document and gives the next one.
pub open spec fn docs_chain(steps: Seq<AnyStep>, docs: Seq<Node>, schema: Schema, last: Node) -> bool {
    &&& docs.len() == steps.len()
    &&& forall|i: int| 0 <= i < steps.len() ==> #[trigger] step_applies(steps[i], docs[i], schema, next_doc(docs, i, last))
}

/// Whether applying `steps` to `doc` in order under `schema` can give `n`.
pub open spec fn steps_apply(steps: Seq<AnyStep>, doc: Node, schema: Schema, n: Node) -> bool {
    if steps.len() == 0 {
        n == doc
    } else {
        exists|docs: Seq<Node>| #[trigger] docs_chain(steps, docs, schema, n) && docs[0] == doc
    }
}

/// A transform's document is its steps applied in order to the document
/// it started from, under the schema its steps were applied with.
pub proof fn law_transform_applies_its_steps(t: Transform, schema: Schema)
    requires
        t.wf(),
        t.applied_in_order(schema),
        t.spec_steps().len() > 0,
    ensures
        steps_apply(t.spec_steps(), t.spec_docs()[0], schema, t.spec_doc()),
{
    assert(docs_chain(t.spec_steps(), t.spec_docs(), schema, t.spec_doc()));
}

/// A document under change: the current document, the steps applied so
/// far, the document each step applied to, and the mapping they compose.
#[derive(Debug, Clone)]
pub struct Transform {
    pub(crate) doc: Node,
    pub(crate) steps: Vec<AnyStep>,
    pub(crate) docs: Vec<Node>,
    pub(crate) mapping: Mapping,
}

impl Transform {
    /// The current document.
    pub open(crate) spec fn spec_doc(self) -> Node {
        self.doc
    }

    /// The steps applied so far.
    pub open(crate) spec fn spec_steps(self) -> Seq<AnyStep> {
        self.steps@
    }

    /// The document each step applied to.
    pub open(crate) spec fn spec_docs(self) -> Seq<Node> {
        self.docs@
    }

    /// The composed mapping.
    pub open(crate) spec fn spec_mapping(self) -> Mapping {
        self.mapping
    }

    /// One step, one document before it, one map per step.
    pub open(crate) spec fn wf(self) -> bool {
        &&& self.docs@.len() == self.steps@.len()
        &&& self.mapping.spec_maps().len() == self.steps@.len()
    }

    /// Whether the document is the transform's steps applied in order
    /// under `schema`, each to the document recorded before it.
    pub open spec fn applied_in_order(self, schema: Schema) -> bool {
        docs_chain(self.spec_steps(), self.spec_docs(), schema, self.spec_doc())
    }

    /// A transform of `doc` with no steps yet.
    pub fn new(doc: Node) -> (r: Transform)
        ensures
            r.wf(),
            r.spec_doc() == doc,
            r.spec_steps().len() == 0,
            forall|schema: Schema| #[trigger] r.applied_in_order(schema),
    {
        Transform { doc, steps: Vec::new(), docs: Vec::new(), mapping: Mapping::new() }
    }

    /// The current document.
    pub fn doc(&self) -> (r: &Node)
        ensures
            *r == self.spec_doc(),
    {
        &self.doc
    }

    /// The steps applied so far.
    pub fn steps(&self) -> (r: &[AnyStep])
        ensures
            r@ == self.spec_steps(),
    {
        self.steps.as_slice()
    }

    /// The document step `i` applied to.
    pub fn doc_before(&self, i: usize) -> (r: &Node)
        requires
            i < self.spec_docs().len(),
        ensures
            *r == self.spec_docs()[i as int],
    {
        &self.docs[i]
    }

    /// The composed mapping of all steps.
    pub fn mapping(&self) -> (r: &Mapping)
        ensures
            *r == self.spec_mapping(),
    {
        &self.mapping
    }

    /// Whether any step has been applied.
    pub fn doc_changed(&self) -> (r: bool)
        ensures
            r == (self.spec_steps().len() > 0),
    {
        self.steps.len() > 0
    }

    /// Apply `step`; on failure nothing changes.
    pub fn step(&mut self, step: AnyStep, schema: &Schema) -> (r: Result<(), StepError>)
        requires
            old(self).wf(),
        ensures
            final(self).wf(),
            old(self).applied_in_order(*schema) ==> final(self).applied_in_order(*schema),
            r is Err ==> final(self).spec_doc() == old(self).spec_doc() && final(self).spec_steps() == old(self).spec_steps()
                && final(self).spec_docs() == old(self).spec_docs(),
            r is Ok ==> final(self).spec_steps() == old(self).spec_steps().push(step)
                && final(self).spec_docs() == old(self).spec_docs().push(old(self).spec_doc())
                && final(self).spec_doc().spec_type() == old(self).spec_doc().spec_type(),
            !step.step_wf() ==> r is Err,
            r is Ok ==> step_applies(step, old(self).spec_doc(), *schema, final(self).spec_doc()),
            step matches AnyStep::Attr(s) ==> (r is Ok <==> node_starts_at(old(self).spec_doc(), s.spec_pos() as int)),
            step matches AnyStep::Attr(s) ==> (r is Ok ==> attr_changed(old(self).spec_doc(), final(self).spec_doc(),
                s.spec_pos() as int, s.spec_attr()@, s.spec_value()@)),
    {
        if !step.is_wf() {
            return Err(StepError("malformed step".to_string()));
        }
        let next = match step.apply(&self.doc, schema) {
            Ok(n) => n,
            Err(e) => {
                return Err(e);
            },
        };
        let ghost t0 = *self;
        let map = step.get_map();
        self.mapping.append_map(map);
        let before = self.doc.clone();
        self.docs.push(before);
        self.doc = next;
        self.steps.push(step);
        proof {
            if t0.applied_in_order(*schema) {
                let n = t0.steps@.len() as int;
                assert forall|i: int| 0 <= i < self.steps@.len() implies #[trigger] step_applies(self.steps@[i],
                    self.docs@[i], *schema, next_doc(self.docs@, i, self.doc)) by {
                    if i < n {
                        assert(self.steps@[i] == t0.steps@[i]);
                        assert(self.docs@[i] == t0.docs@[i]);
                        assert(next_doc(self.docs@, i, self.doc) == next_doc(t0.docs@, i, t0.doc));
                    }
                }
            }
        }
        Ok(())
    }

    /// Replace `from..to` with `slice`.
    pub fn replace(&mut self, from: usize, to: usize, slice: Slice, schema: &Schema) -> (r: Result<(), StepError>)
        requires
            old(self).wf(),
        ensures
            final(self).wf(),
            old(self).applied_in_order(*schema) ==> final(self).applied_in_order(*schema),
            r is Err ==> final(self).spec_doc() == old(self).spec_doc() && final(self).spec_steps() == old(self).spec_steps(),
            r is Ok ==> final(self).spec_steps().len() == old(self).spec_steps().len() + 1
                && (final(self).spec_steps().last() matches AnyStep::Replace(s) && s.spec_from() == from && s.spec_to() == to && s.spec_slice() == slice),
            r is Ok ==> step_applies(final(self).spec_steps().last(), old(self).spec_doc(), *schema, final(self).spec_doc()),
            r is Ok ==> final(self).spec_docs() == old(self).spec_docs().push(old(self).spec_doc())
                && final(self).spec_steps().drop_last() == old(self).spec_steps(),
            r is Err ==> final(self).spec_docs() == old(self).spec_docs(),
    {
        self.step(AnyStep::Replace(ReplaceStep::new(from, to, slice)), schema)
    }

    /// Delete `from..to`.
    pub fn delete(&mut self, from: usize, to: usize, schema: &Schema) -> (r: Result<(), StepError>)
        requires
            old(self).wf(),
        ensures
            final(self).wf(),
            old(self).applied_in_order(*schema) ==> final(self).applied_in_order(*schema),
            r is Err ==> final(self).spec_doc() == old(self).spec_doc() && final(self).spec_steps() == old(self).spec_steps(),
            r is Ok ==> final(self).spec_steps().len() == old(self).spec_steps().len() + 1
                && (final(self).spec_steps().last() matches AnyStep::Replace(s) && s.spec_from() == from && s.spec_to() == to
                    && s.spec_slice().spec_content().spec_children().len() == 0
                    && s.spec_slice().spec_open_start() == 0 && s.spec_slice().spec_open_end() == 0),
            r is Ok ==> step_applies(final(self).spec_steps().last(), old(self).spec_doc(), *schema, final(self).spec_doc()),
    {
        self.replace(from, to, Slice::empty(), schema)
    }

    /// Insert `slice` at `pos`.
    pub fn insert(&mut self, pos: usize, slice: Slice, schema: &Schema) -> (r: Result<(), StepError>)
        requires
            old(self).wf(),
        ensures
            final(self).wf(),
            old(self).applied_in_order(*schema) ==> final(self).applied_in_order(*schema),
            r is Err ==> final(self).spec_doc() == old(self).spec_doc() && final(self).spec_steps() == old(self).spec_steps(),
            r is Ok ==> final(self).spec_steps().len() == old(self).spec_steps().len() + 1
                && (final(self).spec_steps().last() matches AnyStep::Replace(s) && s.spec_from() == pos && s.spec_to() == pos && s.spec_slice() == slice),
            r is Ok ==> step_applies(final(self).spec_steps().last(), old(self).spec_doc(), *schema, final(self).spec_doc()),
    {
        self.replace(pos, pos, slice, schema)
    }

    /// Add `mark` to the inline content of `from..to`.
    pub fn add_mark(&mut self, from: usize, to: usize, mark: Mark, schema: &Schema) -> (r: Result<(), StepError>)
        requires
            old(self).wf(),
        ensures
            final(self).wf(),
            old(self).applied_in_order(*schema) ==> final(self).applied_in_order(*schema),
            r is Err ==> final(self).spec_doc() == old(self).spec_doc() && final(self).spec_steps() == old(self).spec_steps(),
            r is Ok ==> final(self).spec_steps().len() == old(self).spec_steps().len() + 1
                && (final(self).spec_steps().last() matches AnyStep::AddMark(s) && s.spec_from() == from && s.spec_to() == to
                    && s.spec_mark() == mark),
            r is Ok ==> step_applies(final(self).spec_steps().last(), old(self).spec_doc(), *schema, final(self).spec_doc()),
    {
        self.step(AnyStep::AddMark(AddMarkStep::new(from, to, mark)), schema)
    }

    /// Remove `mark` from the inline content of `from..to`.
    pub fn remove_mark(&mut self, from: usize, to: usize, mark: Mark, schema: &Schema) -> (r: Result<(), StepError>)
        requires
            old(self).wf(),
        ensures
            final(self).wf(),
            old(self).applied_in_order(*schema) ==> final(self).applied_in_order(*schema),
            r is Err ==> final(self).spec_doc() == old(self).spec_doc() && final(self).spec_steps() == old(self).spec_steps(),
            r is Ok ==> final(self).spec_steps().len() == old(self).spec_steps().len() + 1
                && (final(self).spec_steps().last() matches AnyStep::RemoveMark(s) && s.spec_from() == from && s.spec_to() == to
                    && s.spec_mark() == mark),
            r is Ok ==> step_applies(final(self).spec_steps().last(), old(self).spec_doc(), *schema, final(self).spec_doc()),
    {
        self.step(AnyStep::RemoveMark(RemoveMarkStep::new(from, to, mark)), schema)
    }

    /// Split the innermost node at `pos` in two.
    pub fn split(&mut self, pos: usize, schema: &Schema) -> (r: Result<(), StepError>)
        requires
            old(self).wf(),
        ensures
            final(self).wf(),
            old(self).applied_in_order(*schema) ==> final(self).applied_in_order(*schema),
            r is Err ==> final(self).spec_doc() == old(self).spec_doc() && final(self).spec_steps() == old(self).spec_steps(),
            r is Ok ==> final(self).spec_steps().len() == old(self).spec_steps().len() + 1,
            r is Ok ==> step_applies(final(self).spec_steps().last(), old(self).spec_doc(), *schema, final(self).spec_doc()),
            pos > old(self).spec_doc().spec_content().spec_size() ==> r is Err,
            pos <= old(self).spec_doc().spec_content().spec_size() && res_depth(old(self).spec_doc(), pos as int) == 0 ==> r is Err,
            r is Ok ==> (final(self).spec_steps().last() matches AnyStep::Replace(s) && s.spec_from() == pos && s.spec_to() == pos
                && s.spec_slice().spec_open_start() == 1 && s.spec_slice().spec_open_end() == 1),
    {
        self.split_at_depth(pos, 1, schema)
    }

    /// Split the `levels` innermost ancestors of `pos`: close them at `pos`
    /// and open copies of them after it.
    pub fn split_at_depth(&mut self, pos: usize, levels: usize, schema: &Schema) -> (r: Result<(), StepError>)
        requires
            old(self).wf(),
        ensures
            final(self).wf(),
            old(self).applied_in_order(*schema) ==> final(self).applied_in_order(*schema),
            levels == 0 ==> r is Err,
            pos > old(self).spec_doc().spec_content().spec_size() ==> r is Err,
            pos <= old(self).spec_doc().spec_content().spec_size()
                && res_depth(old(self).spec_doc(), pos as int) < levels ==> r is Err,
            r is Err ==> final(self).spec_doc() == old(self).spec_doc() && final(self).spec_steps() == old(self).spec_steps(),
            r is Ok ==> (final(self).spec_steps().last() matches AnyStep::Replace(s) && s.spec_from() == pos && s.spec_to() == pos
                && s.spec_slice().spec_open_start() == levels && s.spec_slice().spec_open_end() == levels),
            r is Ok ==> final(self).spec_steps().len() == old(self).spec_steps().len() + 1
                && final(self).spec_steps().last() is Replace,
            r is Ok ==> step_applies(final(self).spec_steps().last(), old(self).spec_doc(), *schema, final(self).spec_doc()),
    {
        if levels == 0 {
            return Err(StepError("split_at_depth requires levels >= 1".to_string()));
        }
        let rp = match ResolvedPos::resolve(&self.doc, pos) {
            Ok(p) => p,
            Err(e) => {
                return Err(StepError(e.message()));
            },
        };
        let depth = rp.depth();
        proof {
            rp.lemma_resolved();
        }
        if depth < levels {
            let mut msg: Vec<char> = Vec::new();
            push_str(&mut msg, "split_at_depth(");
            push_chars(&mut msg, &decimal_chars(levels as u64));
            push_str(&mut msg, ") needs at least ");
            push_chars(&mut msg, &decimal_chars(levels as u64));
            push_str(&mut msg, " ancestors at pos ");
            push_chars(&mut msg, &decimal_chars(pos as u64));
            push_str(&mut msg, ", found ");
            push_chars(&mut msg, &decimal_chars(depth as u64));
            return Err(StepError(string_from_chars(&msg)));
        }
        let mut inner = rp.parent().copy_content(Fragment::empty());
        let mut d = depth - 1;
        while d > depth - levels
            invariant
                depth == rp.spec_depth(),
                levels <= depth,
                *self == *old(self),
                old(self).wf(),
                depth - levels <= d < depth,
            decreases d,
        {
            let size = inner.node_size();
            if size > usize::MAX - 2 {
                return Err(StepError("document too large".to_string()));
            }
            let wrapped = Fragment::from_node(inner);
            inner = rp.node(d).copy_content(wrapped);
            d = d - 1;
        }
        let size = inner.node_size();
        if size > usize::MAX / 2 {
            return Err(StepError("document too large".to_string()));
        }
        let first = Fragment::from_node(inner.clone());
        let second = Fragment::from_node(inner);
        let content = first.append(&second);
        self.replace(pos, pos, Slice::new(content, levels, levels), schema)
    }

    /// Set attribute `attr` of the node starting at `pos` to `value`.
    pub fn set_node_attr(&mut self, pos: usize, attr: &str, value: AttrValue, schema: &Schema) -> (r: Result<(), StepError>)
        requires
            old(self).wf(),
        ensures
            final(self).wf(),
            old(self).applied_in_order(*schema) ==> final(self).applied_in_order(*schema),
            r is Err ==> final(self).spec_doc() == old(self).spec_doc() && final(self).spec_steps() == old(self).spec_steps(),
            r is Ok ==> final(self).spec_steps().len() == old(self).spec_steps().len() + 1
                && final(self).spec_steps().last() is Attr,
            r is Ok ==> step_applies(final(self).spec_steps().last(), old(self).spec_doc(), *schema, final(self).spec_doc()),
            r is Ok <==> node_starts_at(old(self).spec_doc(), pos as int),
            r is Ok ==> attr_changed(old(self).spec_doc(), final(self).spec_doc(), pos as int, attr@, value@),
    {
        self.step(AnyStep::Attr(AttrStep::new(pos, attr, value)), schema)
    }

    /// The steps that undo this transform, last step first: step `i`
    /// inverted against the document it applied to.
    pub fn invert_steps(&self) -> (r: Result<Vec<AnyStep>, StepError>)
        requires
            self.wf(),
        ensures
            r matches Ok(v) ==> v@.len() == self.spec_steps().len(),
            r matches Ok(v) ==> forall|k: int| 0 <= k < v@.len() ==> #[trigger] inverts(self.spec_steps()[v@.len() - 1 - k],
                self.spec_docs()[v@.len() - 1 - k], v@[k]),
    {
        let mut inverted: Vec<AnyStep> = Vec::new();
        let mut i = self.steps.len();
        while i > 0
            invariant
                i <= self.steps@.len(),
                self.wf(),
                inverted@.len() == self.steps@.len() - i,
                forall|k: int| 0 <= k < inverted@.len() ==> #[trigger] inverts(self.steps@[self.steps@.len() - 1 - k],
                    self.docs@[self.steps@.len() - 1 - k], inverted@[k]),
            decreases i,
        {
            i = i - 1;
            match self.steps[i].invert(&self.docs[i]) {
                Ok(s) => {
                    proof {
                        assert(inverts(self.steps@[i as int], self.docs@[i as int], s));
                    }
                    inverted.push(s);
                },
                Err(e) => {
                    return Err(e);
                },
            }
        }
        Ok(inverted)
    }
}

} // verus!
