//! [`EditorState`] — document, selection, schema and undo history — and
//! the [`Transaction`]s that move it from one state to the next.

use vstd::prelude::*;

use crate::node::Node;
use crate::schema::Schema;
use crate::selection::{mapped_selection, Selection};
use crate::step::{AnyStep, Step, StepError};
use crate::transform::{docs_chain, next_doc, step_applies, steps_apply, Transform};

verus! {

/// The number of undo groups kept when none is configured.
pub const DEFAULT_HISTORY_DEPTH: usize = 100;

/// Apply `steps` to `doc` in order.
fn apply_steps(doc: &Node, steps: &Vec<AnyStep>, schema: &Schema) -> (r: Result<Node, StepError>)
    ensures
        r matches Ok(n) ==> n.spec_type() == doc.spec_type(),
        r matches Ok(n) ==> steps_apply(steps@, *doc, *schema, n),
{
    let mut cur = doc.clone();
    let mut i: usize = 0;
    let ghost mut docs: Seq<Node> = Seq::empty();
    while i < steps.len()
        invariant
            i <= steps@.len(),
            cur.spec_type() == doc.spec_type(),
            docs.len() == i,
            i == 0 ==> cur == *doc,
            i > 0 ==> docs[0] == *doc,
            docs_chain(steps@.take(i as int), docs, *schema, cur),
        decreases steps.len() - i,
    {
        let next = match steps[i].apply(&cur, schema) {
            Ok(n) => n,
            Err(e) => {
                return Err(e);
            },
        };
        proof {
            let d0 = docs;
            let c0 = cur;
            assert(step_applies(steps@[i as int], c0, *schema, next));
            docs = d0.push(c0);
            let st = steps@.take(i as int + 1);
            assert forall|j: int| 0 <= j < st.len() implies #[trigger] step_applies(st[j], docs[j], *schema,
                next_doc(docs, j, next)) by {
                if j < i {
                    assert(st[j] == steps@.take(i as int)[j]);
                    assert(next_doc(docs, j, next) == next_doc(d0, j, c0));
                }
            }
        }
        cur = next;
        i = i + 1;
    }
    proof {
        assert(steps@.take(i as int) =~= steps@);
    }
    Ok(cur)
}

/// One undo group: the steps that undo it, the steps that redo it, and the
/// selections around it.
#[derive(Debug, Clone)]
pub struct HistEntry {
    pub(crate) undo: Vec<AnyStep>,
    pub(crate) redo: Vec<AnyStep>,
    pub(crate) selection_before: Selection,
    pub(crate) selection_after: Selection,
}

impl HistEntry {
    /// The selection before the group's changes.
    pub open(crate) spec fn spec_selection_before(self) -> Selection {
        self.selection_before
    }

    /// The selection after the group's changes.
    pub open(crate) spec fn spec_selection_after(self) -> Selection {
        self.selection_after
    }

    /// The steps that undo the group.
    pub open(crate) spec fn spec_undo(self) -> Seq<AnyStep> {
        self.undo@
    }

    /// The steps that redo the group.
    pub open(crate) spec fn spec_redo(self) -> Seq<AnyStep> {
        self.redo@
    }
}

/// Whether `e` is the undo group recorded for the change `t` made from a
/// state whose selection was `before`: its undo steps are `t`'s steps
/// inverted, and it restores that selection.
pub open spec fn undoes(t: Transform, e: HistEntry, before: Selection) -> bool {
    &&& exists|u: Vec<AnyStep>| #[trigger] call_ensures(Transform::invert_steps, (&t,), Ok::<Vec<AnyStep>, StepError>(u))
        && u@ == e.spec_undo()
    &&& e.spec_selection_before() == before
}

/// Undoing right after a recorded change (not folded into the previous
/// group) applies the change's steps, inverted, to the changed document,
/// and brings back the selection from before the change.
pub proof fn law_undo_after_change(s: EditorState, tx: Transaction, s2: EditorState, s3: EditorState)
    requires
        call_ensures(EditorState::apply, (&s, tx), s2),
        call_ensures(EditorState::undo, (&s2,), Some(s3)),
        tx.spec_add_to_history(),
        tx.spec_transform().spec_steps().len() > 0,
        !tx.spec_join(),
        s.spec_history().spec_depth() > 0,
        forall|e: StepError| !call_ensures(Transform::invert_steps, (&tx.spec_transform(),), Err::<Vec<AnyStep>, StepError>(e)),
    ensures
        exists|u: Vec<AnyStep>| #[trigger] call_ensures(Transform::invert_steps, (&tx.spec_transform(),),
            Ok::<Vec<AnyStep>, StepError>(u)) && steps_apply(u@, tx.spec_transform().spec_doc(), s.spec_schema(), s3.spec_doc()),
        s3.spec_selection() == s.spec_selection(),
{
    let last = s2.spec_history().spec_done().last();
    assert(undoes(tx.spec_transform(), last, s.spec_selection()));
    let u = choose|u: Vec<AnyStep>| #[trigger] call_ensures(Transform::invert_steps, (&tx.spec_transform(),),
        Ok::<Vec<AnyStep>, StepError>(u)) && u@ == last.spec_undo();
    assert(steps_apply(u@, tx.spec_transform().spec_doc(), s.spec_schema(), s3.spec_doc()));
}

/// How many groups can be undone after recording one more on a history
/// with `done` of them and room for `depth`: the same number when it is
/// folded into the newest group, else one more, dropping the oldest when
/// the depth would be exceeded.
pub open spec fn recorded_len(done: nat, depth: nat, join: bool) -> nat {
    if join && done > 0 {
        done
    } else if done + 1 > depth {
        done
    } else {
        done + 1
    }
}

/// Undo history: the groups that can be undone (oldest first), the groups
/// that can be redone, and how many groups are kept.
#[derive(Debug)]
pub struct History {
    pub(crate) done: Vec<HistEntry>,
    pub(crate) undone: Vec<HistEntry>,
    pub(crate) depth: usize,
}

impl History {
    /// Never more groups than the depth, counting both directions.
    #[verifier::type_invariant]
    closed spec fn inv(self) -> bool {
        self.done@.len() + self.undone@.len() <= self.depth
    }

    /// The groups that can be undone, oldest first.
    pub open(crate) spec fn spec_done(self) -> Seq<HistEntry> {
        self.done@
    }

    /// The groups that can be redone, most recently undone last.
    pub open(crate) spec fn spec_undone(self) -> Seq<HistEntry> {
        self.undone@
    }

    /// The most groups kept.
    pub open(crate) spec fn spec_depth(self) -> usize {
        self.depth
    }

    /// An empty history keeping at most `depth` groups.
    pub fn with_depth(depth: usize) -> (r: History)
        ensures
            r.spec_done().len() == 0,
            r.spec_undone().len() == 0,
            r.spec_depth() == depth,
    {
        History { done: Vec::new(), undone: Vec::new(), depth }
    }

    /// The number of groups that can be undone. It never exceeds the
    /// depth, together with the groups that can be redone.
    pub fn undo_depth(&self) -> (r: usize)
        ensures
            r == self.spec_done().len(),
            r + self.spec_undone().len() <= self.spec_depth(),
    {
        proof {
            use_type_invariant(self);
        }
        self.done.len()
    }

    /// The number of groups that can be redone.
    pub fn redo_depth(&self) -> (r: usize)
        ensures
            r == self.spec_undone().len(),
            self.spec_done().len() + r <= self.spec_depth(),
    {
        proof {
            use_type_invariant(self);
        }
        self.undone.len()
    }

    /// This history with a new group recorded (or folded into the newest
    /// one when `join`): the redo groups are dropped, and the oldest group
    /// when the depth is exceeded.
    fn recorded(&self, entry: HistEntry, join: bool) -> (r: History)
        ensures
            r.spec_undone().len() == 0,
            r.spec_depth() == self.spec_depth(),
            join && self.spec_done().len() > 0 ==> r.spec_done().len() == self.spec_done().len(),
            !(join && self.spec_done().len() > 0) ==> r.spec_done().len()
                == if self.spec_done().len() + 1 > self.spec_depth() {
                    self.spec_done().len()
                } else {
                    self.spec_done().len() + 1
                },
            !(join && self.spec_done().len() > 0) && r.spec_done().len() > 0 ==> r.spec_done().last() == entry,
    {
        proof {
            use_type_invariant(self);
        }
        let n = self.done.len();
        let keep = if join && n > 0 { n - 1 } else { n };
        let mut done = copy_entries(&self.done, keep);
        if join && n > 0 {
            let prev = &self.done[n - 1];
            let mut undo = entry.undo;
            let mut i: usize = 0;
            while i < prev.undo.len()
                invariant
                    i <= prev.undo@.len(),
                decreases prev.undo.len() - i,
            {
                undo.push(prev.undo[i].clone());
                i = i + 1;
            }
            let mut redo = copy_steps(&prev.redo);
            let mut j: usize = 0;
            while j < entry.redo.len()
                invariant
                    j <= entry.redo@.len(),
                decreases entry.redo.len() - j,
            {
                redo.push(entry.redo[j].clone());
                j = j + 1;
            }
            done.push(HistEntry { undo, redo, selection_before: prev.selection_before, selection_after: entry.selection_after });
        } else {
            done.push(entry);
            if done.len() > self.depth {
                done.remove(0);
            }
        }
        History { done, undone: Vec::new(), depth: self.depth }
    }
}

/// The first `n` entries of `v`, copied.
fn copy_entries(v: &Vec<HistEntry>, n: usize) -> (r: Vec<HistEntry>)
    requires
        n <= v@.len(),
    ensures
        r@.len() == n,
{
    let mut out: Vec<HistEntry> = Vec::new();
    let mut i: usize = 0;
    while i < n
        invariant
            i <= n <= v@.len(),
            out@.len() == i,
        decreases n - i,
    {
        out.push(v[i].clone());
        i = i + 1;
    }
    out
}

/// A copy of a list of steps.
fn copy_steps(v: &Vec<AnyStep>) -> (r: Vec<AnyStep>)
    ensures
        r@.len() == v@.len(),
{
    let mut out: Vec<AnyStep> = Vec::new();
    let mut i: usize = 0;
    while i < v.len()
        invariant
            i <= v@.len(),
            out@.len() == i,
        decreases v.len() - i,
    {
        out.push(v[i].clone());
        i = i + 1;
    }
    out
}

impl Clone for History {
    fn clone(&self) -> (r: Self)
        ensures
            r.spec_done().len() == self.spec_done().len(),
            r.spec_undone().len() == self.spec_undone().len(),
            r.spec_depth() == self.spec_depth(),
    {
        proof {
            use_type_invariant(self);
        }
        History {
            done: copy_entries(&self.done, self.done.len()),
            undone: copy_entries(&self.undone, self.undone.len()),
            depth: self.depth,
        }
    }
}

impl Default for History {
    fn default() -> (r: Self)
        ensures
            r.spec_done().len() == 0,
            r.spec_undone().len() == 0,
            r.spec_depth() == DEFAULT_HISTORY_DEPTH,
    {
        History::with_depth(DEFAULT_HISTORY_DEPTH)
    }
}

/// The state of an editor: document, selection, schema and history.
#[derive(Debug)]
pub struct EditorState {
    pub(crate) doc: Node,
    pub(crate) selection: Selection,
    pub(crate) schema: Schema,
    pub(crate) history: History,
}

impl EditorState {
    /// The document.
    pub open(crate) spec fn spec_doc(self) -> Node {
        self.doc
    }

    /// The selection.
    pub open(crate) spec fn spec_selection(self) -> Selection {
        self.selection
    }

    /// The schema.
    pub open(crate) spec fn spec_schema(self) -> Schema {
        self.schema
    }

    /// The history.
    pub open(crate) spec fn spec_history(self) -> History {
        self.history
    }

    /// A state for `doc` with the caret at 0 and an empty history.
    pub fn new(doc: Node, schema: Schema) -> (r: EditorState)
        ensures
            r.spec_doc() == doc,
            r.spec_schema() == schema,
            r.spec_selection() == Selection::caret_spec(0),
            r.spec_history().spec_done().len() == 0,
            r.spec_history().spec_undone().len() == 0,
            r.spec_history().spec_depth() == DEFAULT_HISTORY_DEPTH,
    {
        EditorState { doc, selection: Selection::caret(0), schema, history: History::default() }
    }

    /// This state with `history` in place of its own.
    pub fn with_history(self, history: History) -> (r: EditorState)
        ensures
            r.spec_doc() == self.spec_doc(),
            r.spec_selection() == self.spec_selection(),
            r.spec_schema() == self.spec_schema(),
            r.spec_history() == history,
    {
        EditorState { doc: self.doc, selection: self.selection, schema: self.schema, history }
    }

    /// The document.
    pub fn doc(&self) -> (r: &Node)
        ensures
            *r == self.spec_doc(),
    {
        &self.doc
    }

    /// The selection.
    pub fn selection(&self) -> (r: Selection)
        ensures
            r == self.spec_selection(),
    {
        self.selection
    }

    /// The schema.
    pub fn schema(&self) -> (r: &Schema)
        ensures
            *r == self.spec_schema(),
    {
        &self.schema
    }

    /// The history.
    pub fn history(&self) -> (r: &History)
        ensures
            *r == self.spec_history(),
    {
        &self.history
    }

    /// A transaction starting from this state.
    pub fn tr(&self) -> (r: Transaction)
        ensures
            r.spec_transform().wf(),
            r.spec_transform().spec_doc() == self.spec_doc(),
            r.spec_transform().spec_steps().len() == 0,
            r.spec_selection() == self.spec_selection(),
            !r.spec_selection_set(),
            r.spec_add_to_history(),
            !r.spec_join(),
    {
        Transaction {
            tr: Transform::new(self.doc.clone()),
            selection: self.selection,
            selection_set: false,
            add_to_history: true,
            join: false,
        }
    }

    /// The state after `tx`: its document; its selection if it set one,
    /// else this selection mapped through its steps; and, when it changed
    /// the document and records history, a new undo group.
    pub fn apply(&self, tx: Transaction) -> (r: EditorState)
        requires
            tx.spec_transform().wf(),
        ensures
            r.spec_doc() == tx.spec_transform().spec_doc(),
            r.spec_schema() == self.spec_schema(),
            tx.spec_selection_set() ==> r.spec_selection() == tx.spec_selection(),
            !tx.spec_selection_set() ==> r.spec_selection() == mapped_selection(self.spec_selection(),
                tx.spec_transform().spec_doc().spec_content().spec_size() as usize, tx.spec_transform().spec_mapping()),
            !(tx.spec_add_to_history() && tx.spec_transform().spec_steps().len() > 0) ==>
                r.spec_history().spec_done().len() == self.spec_history().spec_done().len()
                && r.spec_history().spec_undone().len() == self.spec_history().spec_undone().len(),
            r.spec_history().spec_depth() == self.spec_history().spec_depth(),
            tx.spec_add_to_history() && tx.spec_transform().spec_steps().len() > 0 ==> {
                ||| r.spec_history().spec_undone().len() == 0 && r.spec_history().spec_done().len()
                    == recorded_len(self.spec_history().spec_done().len(), self.spec_history().spec_depth() as nat, tx.spec_join())
                    && (!(tx.spec_join() && self.spec_history().spec_done().len() > 0) && r.spec_history().spec_done().len() > 0
                        ==> undoes(tx.spec_transform(), r.spec_history().spec_done().last(), self.spec_selection()))
                ||| r.spec_history().spec_done().len() == self.spec_history().spec_done().len()
                    && r.spec_history().spec_undone().len() == self.spec_history().spec_undone().len()
                    && exists|e: StepError| #[trigger] call_ensures(Transform::invert_steps, (&tx.spec_transform(),),
                        Err::<Vec<AnyStep>, StepError>(e))
            },
    {
        let new_doc = tx.tr.doc().clone();
        let selection = if tx.selection_set {
            tx.selection
        } else {
            self.selection.map(&new_doc, tx.tr.mapping())
        };
        let history = if tx.add_to_history && tx.tr.doc_changed() {
            let inverted = tx.tr.invert_steps();
            proof {
                if inverted is Err {
                    assert(call_ensures(Transform::invert_steps, (&tx.tr,), inverted));
                }
            }
            match inverted {
                Ok(undo) => {
                    proof {
                        assert(call_ensures(Transform::invert_steps, (&tx.tr,), Ok::<Vec<AnyStep>, StepError>(undo)));
                    }
                    let redo = copy_steps(&tx.tr.steps);
                    self.history.recorded(
                        HistEntry { undo, redo, selection_before: self.selection, selection_after: selection },
                        tx.join,
                    )
                },
                Err(_) => self.history.clone(),
            }
        } else {
            self.history.clone()
        };
        EditorState { doc: new_doc, selection, schema: self.schema.clone(), history }
    }

    /// The state before the newest undo group, or `None` when there is
    /// nothing to undo (or its steps no longer apply).
    pub fn undo(&self) -> (r: Option<EditorState>)
        ensures
            self.spec_history().spec_done().len() == 0 ==> r is None,
            r matches Some(s) ==> s.spec_history().spec_done().len() == self.spec_history().spec_done().len() - 1
                && s.spec_history().spec_undone().len() == self.spec_history().spec_undone().len() + 1
                && s.spec_history().spec_depth() == self.spec_history().spec_depth()
                && s.spec_selection() == self.spec_history().spec_done().last().spec_selection_before()
                && s.spec_schema() == self.spec_schema()
                && s.spec_doc().spec_type() == self.spec_doc().spec_type(),
            r matches Some(s) ==> steps_apply(self.spec_history().spec_done().last().spec_undo(), self.spec_doc(),
                self.spec_schema(), s.spec_doc()),
    {
        let h = &self.history;
        proof {
            use_type_invariant(h);
        }
        let n = h.done.len();
        if n == 0 {
            return None;
        }
        let entry = &h.done[n - 1];
        let doc = match apply_steps(&self.doc, &entry.undo, &self.schema) {
            Ok(d) => d,
            Err(_) => {
                return None;
            },
        };
        let done = copy_entries(&h.done, n - 1);
        let mut undone = copy_entries(&h.undone, h.undone.len());
        undone.push(entry.clone());
        let history = History { done, undone, depth: h.depth };
        Some(EditorState { doc, selection: entry.selection_before, schema: self.schema.clone(), history })
    }

    /// The state after redoing the most recently undone group, or `None`
    /// when there is nothing to redo (or its steps no longer apply).
    pub fn redo(&self) -> (r: Option<EditorState>)
        ensures
            self.spec_history().spec_undone().len() == 0 ==> r is None,
            r matches Some(s) ==> s.spec_history().spec_undone().len() == self.spec_history().spec_undone().len() - 1
                && s.spec_history().spec_done().len() == self.spec_history().spec_done().len() + 1
                && s.spec_history().spec_depth() == self.spec_history().spec_depth()
                && s.spec_selection() == self.spec_history().spec_undone().last().spec_selection_after()
                && s.spec_schema() == self.spec_schema()
                && s.spec_doc().spec_type() == self.spec_doc().spec_type(),
            r matches Some(s) ==> steps_apply(self.spec_history().spec_undone().last().spec_redo(), self.spec_doc(),
                self.spec_schema(), s.spec_doc()),
    {
        let h = &self.history;
        proof {
            use_type_invariant(h);
        }
        let n = h.undone.len();
        if n == 0 {
            return None;
        }
        let entry = &h.undone[n - 1];
        let doc = match apply_steps(&self.doc, &entry.redo, &self.schema) {
            Ok(d) => d,
            Err(_) => {
                return None;
            },
        };
        let undone = copy_entries(&h.undone, n - 1);
        let mut done = copy_entries(&h.done, h.done.len());
        done.push(entry.clone());
        let history = History { done, undone, depth: h.depth };
        Some(EditorState { doc, selection: entry.selection_after, schema: self.schema.clone(), history })
    }
}

impl Clone for EditorState {
    fn clone(&self) -> (r: Self)
        ensures
            r.spec_doc() == self.spec_doc(),
            r.spec_selection() == self.spec_selection(),
            r.spec_schema() == self.spec_schema(),
    {
        EditorState { doc: self.doc.clone(), selection: self.selection, schema: self.schema.clone(), history: self.history.clone() }
    }
}

/// A transform of a state's document, plus a selection and history flags.
#[derive(Debug, Clone)]
pub struct Transaction {
    pub(crate) tr: Transform,
    pub(crate) selection: Selection,
    pub(crate) selection_set: bool,
    pub(crate) add_to_history: bool,
    pub(crate) join: bool,
}

impl Transaction {
    /// The transform.
    pub open(crate) spec fn spec_transform(self) -> Transform {
        self.tr
    }

    /// The selection.
    pub open(crate) spec fn spec_selection(self) -> Selection {
        self.selection
    }

    /// Whether the selection was set explicitly.
    pub open(crate) spec fn spec_selection_set(self) -> bool {
        self.selection_set
    }

    /// Whether the transaction is recorded in the history.
    pub open(crate) spec fn spec_add_to_history(self) -> bool {
        self.add_to_history
    }

    /// Whether the transaction joins the newest undo group.
    pub open(crate) spec fn spec_join(self) -> bool {
        self.join
    }

    /// The transaction's current document.
    pub fn doc(&self) -> (r: &Node)
        ensures
            *r == self.spec_transform().spec_doc(),
    {
        self.tr.doc()
    }

    /// The transform, to add steps to.
    pub fn transform(&mut self) -> (r: &mut Transform)
        ensures
            *r == old(self).spec_transform(),
            final(self).spec_transform() == *final(r),
            final(self).spec_selection() == old(self).spec_selection(),
            final(self).spec_selection_set() == old(self).spec_selection_set(),
            final(self).spec_add_to_history() == old(self).spec_add_to_history(),
            final(self).spec_join() == old(self).spec_join(),
    {
        &mut self.tr
    }

    /// Set the selection the resulting state will have.
    pub fn set_selection(&mut self, selection: Selection)
        ensures
            final(self).spec_selection() == selection,
            final(self).spec_selection_set(),
            final(self).spec_transform() == old(self).spec_transform(),
            final(self).spec_add_to_history() == old(self).spec_add_to_history(),
            final(self).spec_join() == old(self).spec_join(),
    {
        self.selection = selection;
        self.selection_set = true;
    }

    /// Leave this transaction out of the undo history.
    pub fn no_history(&mut self)
        ensures
            !final(self).spec_add_to_history(),
            final(self).spec_transform() == old(self).spec_transform(),
            final(self).spec_selection() == old(self).spec_selection(),
            final(self).spec_selection_set() == old(self).spec_selection_set(),
            final(self).spec_join() == old(self).spec_join(),
    {
        self.add_to_history = false;
    }

    /// Fold this transaction into the newest undo group.
    pub fn join_history(&mut self)
        ensures
            final(self).spec_join(),
            final(self).spec_transform() == old(self).spec_transform(),
            final(self).spec_selection() == old(self).spec_selection(),
            final(self).spec_selection_set() == old(self).spec_selection_set(),
            final(self).spec_add_to_history() == old(self).spec_add_to_history(),
    {
        self.join = true;
    }

    /// Whether the transaction changed the document.
    pub fn doc_changed(&self) -> (r: bool)
        ensures
            r == (self.spec_transform().spec_steps().len() > 0),
    {
        self.tr.doc_changed()
    }
}

} // verus!
