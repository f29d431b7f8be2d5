//! Editing commands — the standard vocabulary every WYSIWYG needs.
//!
//! A command, run without dispatch, only reports whether it applies; run
//! with dispatch it also builds the change, as a [`Transaction`] to hand to
//! [`EditorState::apply`]. This makes commands composable (try in order,
//! stop at the first that applies) and keymap-bindable.

use vstd::prelude::*;

use crate::attrs::Attrs;
use crate::fragment::{prefix_size, Fragment};
use crate::mark::MarkType;
use crate::node::{nodes_size, Node};
use crate::schema::distinct;
use crate::pos::{descent, res_depth, res_level, ResolvedPos};
use crate::schema::Schema;
use crate::node::NodeType;
use crate::selection::Selection;
use crate::slice::Slice;
use crate::state::{EditorState, Transaction};
use crate::inputrules::inside_top_block;
use crate::step::{AnyStep, ReplaceAroundStep};
use crate::transform::{docs_chain, steps_apply};

verus! {

/// What a command run returns: whether it applies, and (when dispatched and
/// the change could be built) the transaction performing it.
pub type Outcome = (bool, Option<Transaction>);

/// A dispatched transaction comes only from an applicable command that
/// was asked to dispatch, and its transform is well formed (so it can be
/// applied to the state).
pub open spec fn outcome_ok(r: Outcome, dispatch: bool) -> bool {
    &&& r.1 is Some ==> r.0 && dispatch
    &&& r.1 matches Some(tx) ==> tx.spec_transform().wf()
}

/// What a command other than a chain can report when run on `state`: the
/// outcome of the command function it names. A chain reports by
/// [`chain_outcome`]; here it may report anything.
pub open spec fn leaf_report(cmd: Command, state: EditorState, dispatch: bool, r: Outcome) -> bool {
    match cmd {
        Command::SelectAll => call_ensures(select_all, (&state, dispatch), r),
        Command::DeleteSelection => call_ensures(delete_selection, (&state, dispatch), r),
        Command::ToggleMark(m) => call_ensures(marked_command, (&state, &m, None::<bool>, dispatch), r),
        Command::SetMark(m) => call_ensures(marked_command, (&state, &m, Some(true), dispatch), r),
        Command::RemoveMark(m) => call_ensures(marked_command, (&state, &m, Some(false), dispatch), r),
        Command::SetBlockType(n, a) => (!a.wf() ==> !r.0)
            && (a.wf() ==> (r.0 <==> exists|j: int| 0 <= j < top_blocks(state.spec_doc(), state.spec_selection().spec_from(),
                state.spec_selection().spec_to(state.spec_doc())).len() && #[trigger] block_converts(state.spec_schema(),
                top_blocks(state.spec_doc(), state.spec_selection().spec_from(), state.spec_selection().spec_to(state.spec_doc()))[j].0,
                n@)))
            && (r.1 matches Some(tx) ==> tx_from(state, tx)
            && tx.spec_transform().spec_steps().len() > 0
            && forall|k: int| 0 <= k < tx.spec_transform().spec_steps().len()
                ==> #[trigger] retypes(tx.spec_transform().spec_steps()[k], n@)),
        Command::WrapIn(n, a) => (r.0 <==> wrap_applies(state, n@, a))
            && (r.1 matches Some(tx) ==> tx.spec_transform().spec_steps().len() == 1
                && wraps(tx.spec_transform().spec_steps()[0], state, n@) && tx_from(state, tx)),
        Command::Lift => call_ensures(lift, (&state, dispatch), r),
        Command::SplitBlock => call_ensures(split_block, (&state, dispatch), r),
        Command::DeleteBackward => call_ensures(delete_backward, (&state, dispatch), r),
        Command::DeleteForward => call_ensures(delete_forward, (&state, dispatch), r),
        Command::CaretLeft => call_ensures(caret_left, (&state, dispatch), r),
        Command::CaretRight => call_ensures(caret_right, (&state, dispatch), r),
        Command::CaretLineStart => call_ensures(caret_line_start, (&state, dispatch), r),
        Command::CaretLineEnd => call_ensures(caret_line_end, (&state, dispatch), r),
        Command::JoinBackward => call_ensures(join_backward, (&state, dispatch), r),
        Command::JoinForward => call_ensures(join_forward, (&state, dispatch), r),
        Command::Chain(_) => true,
    }
}

/// Whether `cmd`, run on `state` without dispatch, can report `applies`.
pub open spec fn probes(cmd: Command, state: EditorState, applies: bool) -> bool {
    exists|o: Outcome| #[trigger] leaf_report(cmd, state, false, o) && o.0 == applies
}

/// The outcome of a chain of `cmds` on `state`: when it does not apply,
/// no command in it applies; when it does, the commands before some
/// command that applies do not, and with dispatch that command's
/// dispatched change is the chain's.
pub open spec fn chain_outcome(cmds: Seq<Command>, state: EditorState, dispatch: bool, r: Outcome) -> bool {
    &&& !r.0 ==> forall|i: int| 0 <= i < cmds.len() ==> #[trigger] probes(cmds[i], state, false)
    &&& r.0 ==> exists|i: int| 0 <= i < cmds.len() && #[trigger] probes(cmds[i], state, true)
        && (forall|j: int| 0 <= j < i ==> #[trigger] probes(cmds[j], state, false))
        && (dispatch ==> exists|o: Outcome| #[trigger] leaf_report(cmds[i], state, true, o) && r.1 == o.1)
        && (!dispatch ==> r.1 is None)
}

/// An editing command.
#[derive(Debug)]
pub enum Command {
    /// [`select_all`].
    SelectAll,
    /// [`delete_selection`].
    DeleteSelection,
    /// [`toggle_mark`] of a mark type.
    ToggleMark(MarkType),
    /// [`set_mark`] of a mark type.
    SetMark(MarkType),
    /// [`remove_mark`] of a mark type.
    RemoveMark(MarkType),
    /// [`set_block_type`] to a node type with attributes.
    SetBlockType(String, Attrs),
    /// [`wrap_in`] a node type with attributes.
    WrapIn(String, Attrs),
    /// [`lift`].
    Lift,
    /// [`split_block`].
    SplitBlock,
    /// [`delete_backward`].
    DeleteBackward,
    /// [`delete_forward`].
    DeleteForward,
    /// [`caret_left`].
    CaretLeft,
    /// [`caret_right`].
    CaretRight,
    /// [`caret_line_start`].
    CaretLineStart,
    /// [`caret_line_end`].
    CaretLineEnd,
    /// [`join_backward`].
    JoinBackward,
    /// [`join_forward`].
    JoinForward,
    /// [`chain`] of commands.
    Chain(Vec<Command>),
}

impl Command {
    /// Run the command on `state`; with `dispatch`, also build its change.
    pub fn run(&self, state: &EditorState, dispatch: bool) -> (r: Outcome)
        ensures
            outcome_ok(r, dispatch),
            !(*self is Chain) ==> leaf_report(*self, *state, dispatch, r),
            *self matches Command::Chain(cmds) ==> chain_outcome(cmds@, *state, dispatch, r),
        decreases *self,
    {
        match self {
            Command::SelectAll => select_all(state, dispatch),
            Command::DeleteSelection => delete_selection(state, dispatch),
            Command::ToggleMark(m) => marked_command(state, m, None, dispatch),
            Command::SetMark(m) => marked_command(state, m, Some(true), dispatch),
            Command::RemoveMark(m) => marked_command(state, m, Some(false), dispatch),
            Command::SetBlockType(n, a) => run_set_block_type(state, n.as_str(), a, dispatch),
            Command::WrapIn(n, a) => run_wrap_in(state, n.as_str(), a, dispatch),
            Command::Lift => lift(state, dispatch),
            Command::SplitBlock => split_block(state, dispatch),
            Command::DeleteBackward => delete_backward(state, dispatch),
            Command::DeleteForward => delete_forward(state, dispatch),
            Command::CaretLeft => caret_left(state, dispatch),
            Command::CaretRight => caret_right(state, dispatch),
            Command::CaretLineStart => caret_line_start(state, dispatch),
            Command::CaretLineEnd => caret_line_end(state, dispatch),
            Command::JoinBackward => join_backward(state, dispatch),
            Command::JoinForward => join_forward(state, dispatch),
            Command::Chain(cmds) => {
                let mut i: usize = 0;
                while i < cmds.len()
                    invariant
                        i <= cmds@.len(),
                        *self is Chain,
                        (*self)->Chain_0 == *cmds,
                        forall|j: int| 0 <= j < i ==> #[trigger] probes(cmds@[j], *state, false),
                    decreases cmds.len() - i,
                {
                    proof {
                        assert((*self)->Chain_0 == *cmds);
                        assert(decreases_to!(*self => (*self)->Chain_0));
                        assert(decreases_to!(*cmds => cmds@));
                        assert(decreases_to!(cmds@ => cmds@[i as int]));
                    }
                    let probe = cmds[i].run(state, false);
                    proof {
                        assert(leaf_report(cmds@[i as int], *state, false, probe));
                        assert(probes(cmds@[i as int], *state, probe.0));
                    }
                    if probe.0 {
                        if dispatch {
                            let done = cmds[i].run(state, true);
                            proof {
                                assert(leaf_report(cmds@[i as int], *state, true, done));
                            }
                            return (true, done.1);
                        }
                        return (true, None);
                    }
                    i = i + 1;
                }
                (false, None)
            },
        }
    }
}

/// Try `commands` in order; the first that applies is the one that runs.
pub fn chain(commands: Vec<Command>) -> (r: Command)
    ensures
        r matches Command::Chain(v) && v@ == commands@,
{
    Command::Chain(commands)
}

/// `step` deletes `from..to`: it replaces the range with nothing.
pub open spec fn deletes(step: AnyStep, from: usize, to: usize) -> bool {
    step matches AnyStep::Replace(s) && s.spec_from() == from && s.spec_to() == to
        && s.spec_slice().spec_content().spec_children().len() == 0
        && s.spec_slice().spec_open_start() == 0 && s.spec_slice().spec_open_end() == 0
}

/// A transaction of `state` that only sets the selection.
fn select_tx(state: &EditorState, selection: Selection) -> (r: Transaction)
    ensures
        r.spec_selection() == selection,
        tx_from(*state, r),
        r.spec_selection_set(),
        r.spec_transform().spec_steps().len() == 0,
        r.spec_transform().wf(),
{
    let mut tx = state.tr();
    tx.set_selection(selection);
    tx
}

/// Select the whole document. Always applies.
pub fn select_all(state: &EditorState, dispatch: bool) -> (r: Outcome)
    ensures
        outcome_ok(r, dispatch),
        r.0,
        dispatch <==> r.1 is Some,
        r.1 matches Some(tx) ==> tx.spec_selection() == Selection::All && tx.spec_selection_set()
            && tx.spec_transform().spec_steps().len() == 0,
        r.1 matches Some(tx) ==> tx_from(*state, tx),
{
    if dispatch {
        return (true, Some(select_tx(state, Selection::All)));
    }
    (true, None)
}

/// Delete the selection. Applies when it is not empty.
pub fn delete_selection(state: &EditorState, dispatch: bool) -> (r: Outcome)
    ensures
        outcome_ok(r, dispatch),
        state.spec_selection() matches Selection::Text { anchor, head } ==> r.0 == (anchor != head),
        r.1 matches Some(tx) ==> tx.spec_transform().spec_steps().len() == 1
            && tx.spec_selection() == Selection::caret_spec(state.spec_selection().spec_from())
            && deletes(tx.spec_transform().spec_steps()[0], state.spec_selection().spec_from(),
                match state.spec_selection() {
                    Selection::Text { anchor, head } => crate::selection::max_pos(anchor, head),
                    _ => tx.spec_transform().spec_steps()[0]->Replace_0.spec_to(),
                }),
        r.1 matches Some(tx) ==> tx_from(*state, tx),
{
    let sel = state.selection();
    let from = sel.from();
    let to = sel.to(state.doc());
    if from == to {
        return (false, None);
    }
    if dispatch {
        let mut tx = state.tr();
        if tx.transform().delete(from, to, state.schema()).is_ok() {
            tx.set_selection(Selection::caret(from));
            proof {
                lemma_single_step_tx(*state, tx);
            }
            return (true, Some(tx));
        }
    }
    (true, None)
}

/// Whether `n` carries a mark whose type has id `id`.
pub closed spec fn has_mark_id(n: Node, id: usize) -> bool {
    exists|k: int| 0 <= k < n.spec_marks().len() && (#[trigger] n.spec_marks()[k]).mark_type_spec().spec_id() == id
}

/// Whether `nodes` (or their descendants) hold an inline node.
pub closed spec fn inline_seen(nodes: Seq<Node>) -> bool
    decreases nodes,
{
    if nodes.len() == 0 {
        false
    } else {
        proof {
            assert(decreases_to!(nodes => nodes.drop_last()));
            assert(decreases_to!(nodes => nodes[nodes.len() - 1]));
            assert(decreases_to!(nodes[nodes.len() - 1] => nodes[nodes.len() - 1].0.content.0.content@));
        }
        inline_seen(nodes.drop_last()) || nodes.last().spec_type().spec_is_inline()
            || inline_seen(nodes.last().0.content.0.content@)
    }
}

/// Whether every inline node in `nodes` (and below) carries a mark of the
/// type with id `id`.
pub closed spec fn all_marked(nodes: Seq<Node>, id: usize) -> bool
    decreases nodes,
{
    if nodes.len() == 0 {
        true
    } else {
        proof {
            assert(decreases_to!(nodes => nodes.drop_last()));
            assert(decreases_to!(nodes => nodes[nodes.len() - 1]));
            assert(decreases_to!(nodes[nodes.len() - 1] => nodes[nodes.len() - 1].0.content.0.content@));
        }
        all_marked(nodes.drop_last(), id)
            && (nodes.last().spec_type().spec_is_inline() ==> has_mark_id(nodes.last(), id))
            && all_marked(nodes.last().0.content.0.content@, id)
    }
}

/// Whether every inline node in `nodes` (and below) carries a mark of
/// type `mark`, and whether any inline node was seen.
fn marks_cover(nodes: &[Node], mark: &MarkType) -> (r: (bool, bool))
    ensures
        r.0 == inline_seen(nodes@),
        r.1 == all_marked(nodes@, mark.spec_id()),
    decreases nodes@,
{
    let mut seen = false;
    let mut all = true;
    let mut i: usize = 0;
    while i < nodes.len()
        invariant
            i <= nodes@.len(),
            seen == inline_seen(nodes@.take(i as int)),
            all == all_marked(nodes@.take(i as int), mark.spec_id()),
        decreases nodes.len() - i,
    {
        let n = &nodes[i];
        let ghost t = nodes@.take(i as int + 1);
        proof {
            assert(t.drop_last() =~= nodes@.take(i as int));
            assert(t.last() == nodes@[i as int]);
        }
        let ghost seen0 = seen;
        let ghost all0 = all;
        let mut found = false;
        if n.is_inline() {
            seen = true;
            let ms = n.marks();
            let mut k: usize = 0;
            while k < ms.len()
                invariant
                    k <= ms@.len(),
                    ms@ == n.spec_marks(),
                    found == exists|j: int| 0 <= j < k && (#[trigger] n.spec_marks()[j]).mark_type_spec().spec_id() == mark.spec_id(),
                decreases ms.len() - k,
            {
                if ms[k].mark_type().id() == mark.id() {
                    found = true;
                }
                k = k + 1;
            }
            if !found {
                all = false;
            }
        }
        proof {
            assert(decreases_to!(nodes@ => nodes@[i as int]));
            assert(decreases_to!(nodes@[i as int] => nodes@[i as int].0.content.0.content@));
        }
        let (s, a) = marks_cover(n.content().children(), mark);
        proof {
            assert(n.spec_content().spec_children() == n.0.content.0.content@);
        }
        if s {
            seen = true;
        }
        if !a {
            all = false;
        }
        i = i + 1;
    }
    proof {
        assert(nodes@.take(nodes@.len() as int) =~= nodes@);
    }
    (seen, all)
}

/// Whether `s`, a slice of `doc` between `from` and `to`, holds an inline
/// node and every inline node in it carries a mark of type `mark`.
pub open spec fn slice_fully_marked(doc: Node, from: usize, to: usize, mark: MarkType, s: Slice) -> bool {
    &&& crate::replace::slice_of(doc, from as int, to as int, s)
    &&& inline_seen(s.spec_content().spec_children())
    &&& all_marked(s.spec_content().spec_children(), mark.spec_id())
}

/// Whether every inline node in `from..to` carries `mark` (and there is at
/// least one inline node).
fn range_fully_marked(doc: &Node, from: usize, to: usize, mark: &MarkType) -> (r: bool)
    ensures
        r ==> exists|s: Slice| #[trigger] slice_fully_marked(*doc, from, to, *mark, s),
        !r && from <= to <= doc.spec_content().spec_size() ==> exists|s: Slice| #[trigger] crate::replace::slice_of(*doc,
            from as int, to as int, s) && !slice_fully_marked(*doc, from, to, *mark, s),
{
    let slice = match doc.slice(from, to) {
        Ok(s) => s,
        Err(_) => {
            return false;
        },
    };
    let (seen, all) = marks_cover(slice.content().children(), mark);
    proof {
        assert(crate::replace::slice_of(*doc, from as int, to as int, slice));
        if seen && all {
            assert(slice_fully_marked(*doc, from, to, *mark, slice));
        }
    }
    seen && all
}

/// Whether `step` adds (`Some(true)`), removes (`Some(false)`) or either
/// (`None`) a mark of type `mark`, with no attributes, over `from..to`.
pub open spec fn marks_selection(step: AnyStep, from: usize, to: usize, mark: MarkType, force_add: Option<bool>) -> bool {
    match step {
        AnyStep::AddMark(s) => force_add != Some(false) && s.spec_from() == from && s.spec_to() == to
            && s.spec_mark().mark_type_spec() == mark && s.spec_mark().spec_attrs().len() == 0,
        AnyStep::RemoveMark(s) => force_add != Some(true) && s.spec_from() == from && s.spec_to() == to
            && s.spec_mark().mark_type_spec() == mark && s.spec_mark().spec_attrs().len() == 0,
        _ => false,
    }
}

/// Add (`Some(true)`), remove (`Some(false)`) or toggle (`None`) `mark` over
/// the selection. Applies when the selection is not empty.
pub fn marked_command(state: &EditorState, mark: &MarkType, force_add: Option<bool>, dispatch: bool) -> (r: Outcome)
    ensures
        outcome_ok(r, dispatch),
        state.spec_selection() matches Selection::Text { anchor, head } ==> r.0 == (anchor != head),
        r.0 == (state.spec_selection().spec_from() < state.spec_selection().spec_to(state.spec_doc())),
        r.1 matches Some(tx) ==> tx.spec_transform().spec_steps().len() == 1,
        r.1 matches Some(tx) ==> tx_from(*state, tx),
        r.1 matches Some(tx) ==> marks_selection(tx.spec_transform().spec_steps()[0], state.spec_selection().spec_from(),
            state.spec_selection().spec_to(state.spec_doc()), *mark, force_add),
        r.1 matches Some(tx) ==> (force_add is None && tx.spec_transform().spec_steps()[0] is RemoveMark
            ==> exists|s: Slice| #[trigger] slice_fully_marked(state.spec_doc(), state.spec_selection().spec_from(),
                state.spec_selection().spec_to(state.spec_doc()), *mark, s)),
        r.1 matches Some(tx) ==> (force_add is None && tx.spec_transform().spec_steps()[0] is AddMark
            && state.spec_selection().spec_to(state.spec_doc()) <= state.spec_doc().spec_content().spec_size()
            ==> exists|s: Slice| #[trigger] crate::replace::slice_of(state.spec_doc(), state.spec_selection().spec_from() as int,
                state.spec_selection().spec_to(state.spec_doc()) as int, s)
                && !slice_fully_marked(state.spec_doc(), state.spec_selection().spec_from(),
                    state.spec_selection().spec_to(state.spec_doc()), *mark, s)),
{
    let sel = state.selection();
    let from = sel.from();
    let to = sel.to(state.doc());
    if from >= to {
        return (false, None);
    }
    if dispatch {
        let add = match force_add {
            Some(v) => v,
            None => !range_fully_marked(state.doc(), from, to, mark),
        };
        let mut tx = state.tr();
        let m = mark.create(Attrs::new());
        let ok = if add {
            tx.transform().add_mark(from, to, m, state.schema()).is_ok()
        } else {
            tx.transform().remove_mark(from, to, m, state.schema()).is_ok()
        };
        if ok {
            proof {
                lemma_single_step_tx(*state, tx);
            }
            return (true, Some(tx));
        }
    }
    (true, None)
}

/// Toggle `mark` over the selection: add it if any covered inline content
/// lacks it, else remove it.
pub fn toggle_mark(mark: MarkType) -> (r: Command)
    ensures
        r matches Command::ToggleMark(m) && m == mark,
{
    Command::ToggleMark(mark)
}

/// Add `mark` over the selection.
pub fn set_mark(mark: MarkType) -> (r: Command)
    ensures
        r matches Command::SetMark(m) && m == mark,
{
    Command::SetMark(mark)
}

/// Remove `mark` over the selection.
pub fn remove_mark(mark: MarkType) -> (r: Command)
    ensures
        r matches Command::RemoveMark(m) && m == mark,
{
    Command::RemoveMark(mark)
}

/// A closed slice holding just `node`.
fn node_slice(node: Node) -> (r: Slice)
    ensures
        r.spec_content().spec_children() == seq![node],
        r.spec_open_start() == 0,
        r.spec_open_end() == 0,
{
    Slice::new(Fragment::from_node(node), 0, 0)
}

/// The top-level blocks among the first `k` children of `doc` whose extent
/// meets the range `from..to`, as `(node, before, after)` in order.
pub open spec fn blocks_meeting(doc: Node, k: int, from: usize, to: usize) -> Seq<(Node, usize, usize)>
    decreases k,
{
    let c = doc.spec_children();
    if k <= 0 || k > c.len() {
        Seq::empty()
    } else {
        let start = prefix_size(c, k - 1);
        let after = prefix_size(c, k);
        blocks_meeting(doc, k - 1, from, to) + if from < after && to > start {
            seq![(c[k - 1], start as usize, after as usize)]
        } else {
            Seq::empty()
        }
    }
}

/// Every top-level block whose extent meets the range `from..to`, as
/// `(node, before, after)` in document order; for a range touching none
/// (a caret at a boundary), the block enclosing `from`.
pub fn top_blocks_in_range(doc: &Node, from: usize, to: usize) -> (r: Vec<(Node, usize, usize)>)
    ensures
        blocks_meeting(*doc, doc.spec_children().len() as int, from, to).len() > 0
            ==> r@ == blocks_meeting(*doc, doc.spec_children().len() as int, from, to),
        blocks_meeting(*doc, doc.spec_children().len() as int, from, to).len() == 0 ==> r@.len() <= 1
            && (r@.len() == 1 ==> exists|k: int| 0 <= k < doc.spec_children().len()
                && #[trigger] r@[0] == (doc.spec_children()[k], prefix_size(doc.spec_children(), k) as usize,
                    prefix_size(doc.spec_children(), k + 1) as usize)
                && prefix_size(doc.spec_children(), k) < from < prefix_size(doc.spec_children(), k + 1)),
        blocks_meeting(*doc, doc.spec_children().len() as int, from, to).len() == 0 ==> (r@.len() == 1 <==>
            (from <= doc.spec_content().spec_size() && inside_top_block(*doc, from as int))),
        forall|i: int| 0 <= i < r@.len() ==> (#[trigger] r@[i]).1 <= r@[i].2,
        r@ == top_blocks(*doc, from, to),
{
    doc.check_wf();
    let mut out: Vec<(Node, usize, usize)> = Vec::new();
    let mut pos: usize = 0;
    let n = doc.child_count();
    let ghost c = doc.spec_children();
    proof {
        assert(c.take(0) =~= Seq::<Node>::empty());
    }
    let mut i: usize = 0;
    while i < n
        invariant
            i <= n,
            n == c.len(),
            c == doc.spec_children(),
            nodes_size(c) <= usize::MAX,
            pos == prefix_size(c, i as int),
            out@ == blocks_meeting(*doc, i as int, from, to),
            forall|k: int| 0 <= k < out@.len() ==> (#[trigger] out@[k]).1 <= out@[k].2,
        decreases n - i,
    {
        let child = doc.child(i);
        let size = child.node_size();
        proof {
            assert(c.take(i as int + 1).drop_last() =~= c.take(i as int));
            assert(c.take(i as int + 1).last() == c[i as int]);
            crate::node::lemma_nodes_size_prefix(c, i as int + 1);
        }
        let start = pos;
        let after = start + size;
        if from < after && to > start {
            out.push((child.clone(), start, after));
        }
        proof {
            assert(out@ =~= blocks_meeting(*doc, i as int + 1, from, to));
        }
        pos = after;
        i = i + 1;
    }
    if out.len() == 0 {
        match ResolvedPos::resolve(doc, from) {
            Ok(rp) => {
                rp.check_wf();
                if rp.depth() == 0 {
                    proof {
                        rp.lemma_depth0_outside();
                    }
                }
                if rp.depth() > 0 {
                    proof {
                        rp.lemma_top_child();
                        rp.lemma_block_bounds();
                    }
                    let before = rp.before(1);
                    let after = rp.after(1);
                    let k = rp.index(0);
                    proof {
                        crate::node::lemma_nodes_size_prefix(c, k as int + 1);
                        assert(c.take(k as int + 1).drop_last() =~= c.take(k as int));
                        assert(c.take(k as int + 1).last() == c[k as int]);
                    }
                    out.push((rp.node(1).clone(), before, after));
                    proof {
                        assert(out@[0] == (c[k as int], prefix_size(c, k as int) as usize, prefix_size(c, k as int + 1) as usize));
                        assert(doc.spec_children()[k as int] == rp.spec_node(1));
                    }
                }
            },
            Err(_) => {},
        }
    }
    proof {
        lemma_top_blocks_exact(*doc, from, to, out@);
    }
    out
}

/// Change every block the selection touches to node type `node` with
/// `attrs`, keeping its content and marks; blocks whose content the new
/// type cannot hold are left alone. Applies when some block converts.
pub fn set_block_type(node: &str, attrs: Attrs) -> (r: Command)
    ensures
        r matches Command::SetBlockType(n, a) && n@ == node@ && a == attrs,
{
    Command::SetBlockType(node.to_string(), attrs)
}

/// Whether `node` can wrap the selection of `state`: the schema has the
/// type, the attributes are well formed, and the selection touches some
/// top-level block (or lies inside one).
pub open spec fn wrap_applies(state: EditorState, node: Seq<char>, attrs: Attrs) -> bool {
    let doc = state.spec_doc();
    let from = state.spec_selection().spec_from();
    let to = state.spec_selection().spec_to(doc);
    &&& state.spec_schema().spec_node_names().contains(node)
    &&& attrs.wf()
    &&& (blocks_meeting(doc, doc.spec_children().len() as int, from, to).len() > 0
        || (from <= doc.spec_content().spec_size() && inside_top_block(doc, from as int)))
}

/// Whether `step` wraps a range of `state`'s document in an empty node of
/// type `node`: a replace-around step whose gap is the whole range, with a
/// closed slice of one such node and the gap inserted inside it; the range
/// runs from the first to the last block of [`top_blocks`].
pub open spec fn wraps(step: AnyStep, state: EditorState, node: Seq<char>) -> bool {
    let doc = state.spec_doc();
    let bm = top_blocks(doc, state.spec_selection().spec_from(), state.spec_selection().spec_to(doc));
    &&& step matches AnyStep::ReplaceAround(st)
    &&& st.spec_gap_from() == st.spec_from()
    &&& st.spec_gap_to() == st.spec_to()
    &&& st.spec_insert() == 1
    &&& st.spec_slice().spec_open_start() == 0
    &&& st.spec_slice().spec_open_end() == 0
    &&& st.spec_slice().spec_content().spec_children().len() == 1
    &&& st.spec_slice().spec_content().spec_children()[0].spec_type().spec_name() == node
    &&& st.spec_slice().spec_content().spec_children()[0].spec_children().len() == 0
    &&& st.spec_from() == bm[0].1
    &&& st.spec_to() == bm.last().2
}

/// The top-level blocks a block command works on for the range
/// `from..to` of `doc`: those whose extent meets the range, or, when none
/// does, the block enclosing `from` (if any).
pub open spec fn top_blocks(doc: Node, from: usize, to: usize) -> Seq<(Node, usize, usize)> {
    let c = doc.spec_children();
    let bm = blocks_meeting(doc, c.len() as int, from, to);
    if bm.len() > 0 {
        bm
    } else if from <= doc.spec_content().spec_size() && inside_top_block(doc, from as int) {
        let k = choose|k: int| #[trigger] encloses(c, k, from as int);
        seq![(c[k], prefix_size(c, k) as usize, prefix_size(c, k + 1) as usize)]
    } else {
        Seq::empty()
    }
}

/// Whether child `k` of `c` holds position `from` strictly inside.
pub open spec fn encloses(c: Seq<Node>, k: int, from: int) -> bool {
    0 <= k < c.len() && prefix_size(c, k) < from < prefix_size(c, k + 1)
}

/// Whether the schema can retype block `b` to the node type named `name`:
/// `b` is a block (not text), the type exists and accepts `b`'s children.
pub open spec fn block_converts(s: Schema, b: Node, name: Seq<char>) -> bool {
    &&& !b.spec_is_text()
    &&& !b.spec_type().spec_is_inline()
    &&& s.spec_node_names().contains(name)
    &&& s.spec_content_valid(s.spec_id_of(name), b.spec_children())
}

/// What [`top_blocks_in_range`] returns is [`top_blocks`].
proof fn lemma_top_blocks_exact(doc: Node, from: usize, to: usize, r: Seq<(Node, usize, usize)>)
    requires
        blocks_meeting(doc, doc.spec_children().len() as int, from, to).len() > 0
            ==> r == blocks_meeting(doc, doc.spec_children().len() as int, from, to),
        blocks_meeting(doc, doc.spec_children().len() as int, from, to).len() == 0 ==> r.len() <= 1
            && (r.len() == 1 ==> exists|k: int| 0 <= k < doc.spec_children().len()
                && #[trigger] r[0] == (doc.spec_children()[k], prefix_size(doc.spec_children(), k) as usize,
                    prefix_size(doc.spec_children(), k + 1) as usize)
                && prefix_size(doc.spec_children(), k) < from < prefix_size(doc.spec_children(), k + 1)),
        blocks_meeting(doc, doc.spec_children().len() as int, from, to).len() == 0 ==> (r.len() == 1 <==>
            (from <= doc.spec_content().spec_size() && inside_top_block(doc, from as int))),
    ensures
        r == top_blocks(doc, from, to),
{
    let c = doc.spec_children();
    let bm = blocks_meeting(doc, c.len() as int, from, to);
    if bm.len() == 0 && r.len() == 1 {
        let k = choose|k: int| 0 <= k < c.len() && r[0] == (c[k], prefix_size(c, k) as usize,
            prefix_size(c, k + 1) as usize) && prefix_size(c, k) < from < prefix_size(c, k + 1);
        assert(encloses(c, k, from as int));
        let k2 = choose|k: int| #[trigger] encloses(c, k, from as int);
        lemma_enclosing_unique(c, k, k2, from as int);
    }
    assert(r =~= top_blocks(doc, from, to));
}

/// Two children ranges that both hold `from` strictly inside are the same.
proof fn lemma_enclosing_unique(c: Seq<Node>, k1: int, k2: int, from: int)
    requires
        0 <= k1 < c.len(),
        0 <= k2 < c.len(),
        prefix_size(c, k1) < from < prefix_size(c, k1 + 1),
        prefix_size(c, k2) < from < prefix_size(c, k2 + 1),
    ensures
        k1 == k2,
{
    if k1 < k2 {
        crate::fragment::lemma_prefix_mono(c, k1 + 1, k2);
    } else if k2 < k1 {
        crate::fragment::lemma_prefix_mono(c, k2 + 1, k1);
    }
}

/// Whether `step` puts in place of a range one node of type `node`: a
/// replace step with a closed slice holding just such a node.
pub open spec fn retypes(step: AnyStep, node: Seq<char>) -> bool {
    &&& step matches AnyStep::Replace(s)
    &&& s.spec_slice().spec_open_start() == 0
    &&& s.spec_slice().spec_open_end() == 0
    &&& s.spec_slice().spec_content().spec_children().len() == 1
    &&& s.spec_slice().spec_content().spec_children()[0].spec_type().spec_name() == node
}

/// Run [`set_block_type`].
fn run_set_block_type(state: &EditorState, node: &str, attrs: &Attrs, dispatch: bool) -> (r: Outcome)
    ensures
        outcome_ok(r, dispatch),
        !attrs.wf() ==> !r.0,
        attrs.wf() ==> (r.0 <==> exists|j: int| 0 <= j < top_blocks(state.spec_doc(), state.spec_selection().spec_from(),
            state.spec_selection().spec_to(state.spec_doc())).len() && #[trigger] block_converts(state.spec_schema(),
            top_blocks(state.spec_doc(), state.spec_selection().spec_from(), state.spec_selection().spec_to(state.spec_doc()))[j].0,
            node@)),
        r.1 matches Some(tx) ==> tx_from(*state, tx) && tx.spec_transform().spec_steps().len() > 0
            && forall|k: int| 0 <= k < tx.spec_transform().spec_steps().len()
                ==> #[trigger] retypes(tx.spec_transform().spec_steps()[k], node@),
{
    if !attrs.is_wf() {
        return (false, None);
    }
    let sel = state.selection();
    let from = sel.from();
    let to = sel.to(state.doc());
    let blocks = top_blocks_in_range(state.doc(), from, to);
    let ghost doc = state.spec_doc();
    let ghost sch = state.spec_schema();
    state.schema().check_names();
    let mut targets: Vec<(usize, usize, Node)> = Vec::new();
    let mut i: usize = 0;
    while i < blocks.len()
        invariant
            i <= blocks@.len(),
            attrs.wf(),
            doc == state.spec_doc(),
            sch == state.spec_schema(),
            distinct(sch.spec_node_names()),
            forall|j: int| 0 <= j < targets@.len() ==> (#[trigger] targets@[j]).2.spec_type().spec_name() == node@,
            targets@.len() > 0 <==> exists|j: int| 0 <= j < i && #[trigger] block_converts(sch, blocks@[j].0, node@),
        decreases blocks.len() - i,
    {
        let block = &blocks[i].0;
        if !block.is_text() && block.node_type().is_block() {
            block.check_wf();
            let children = crate::fragment::copy_nodes(block.content().children());
            let marks = crate::mark::clone_marks(block.marks());
            match state.schema().node(node, attrs.clone(), children, marks) {
                Ok(nb) => {
                    proof {
                        assert(sch.spec_node_names()[nb.spec_type_id() as int] == node@);
                        sch.lemma_id_of(nb.spec_type_id());
                        assert(block_converts(sch, blocks@[i as int].0, node@));
                    }
                    targets.push((blocks[i].1, blocks[i].2, nb));
                },
                Err(_) => {
                    proof {
                        assert(!block_converts(sch, blocks@[i as int].0, node@));
                    }
                },
            }
        } else {
            proof {
                assert(!block_converts(sch, blocks@[i as int].0, node@));
            }
        }
        i = i + 1;
    }
    if targets.len() == 0 {
        return (false, None);
    }
    if dispatch {
        let mut tx = state.tr();
        let mut any = false;
        let mut k: usize = 0;
        while k < targets.len()
            invariant
                k <= targets@.len(),
                tx.spec_transform().wf(),
                tx.spec_transform().applied_in_order(state.spec_schema()),
                tx.spec_transform().spec_steps().len() == 0 ==> tx.spec_transform().spec_doc() == state.spec_doc(),
                tx.spec_transform().spec_steps().len() > 0 ==> tx.spec_transform().spec_docs()[0] == state.spec_doc(),
                any <==> tx.spec_transform().spec_steps().len() > 0,
                forall|j: int| 0 <= j < targets@.len() ==> (#[trigger] targets@[j]).2.spec_type().spec_name() == node@,
                forall|j: int| 0 <= j < tx.spec_transform().spec_steps().len()
                    ==> #[trigger] retypes(tx.spec_transform().spec_steps()[j], node@),
            decreases targets.len() - k,
        {
            let (start, end, nb) = (targets[k].0, targets[k].1, targets[k].2.clone());
            let ghost t0 = tx.spec_transform();
            let slice = node_slice(nb);
            if tx.transform().replace(start, end, slice, state.schema()).is_ok() {
                any = true;
                proof {
                    let t1 = tx.spec_transform();
                    assert forall|j: int| 0 <= j < t1.spec_steps().len() implies #[trigger] retypes(t1.spec_steps()[j], node@) by {
                        if j < t0.spec_steps().len() {
                            assert(t1.spec_steps()[j] == t1.spec_steps().drop_last()[j]);
                        }
                    }
                    if t0.spec_steps().len() > 0 {
                        assert(t1.spec_docs()[0] == t0.spec_docs()[0]);
                    }
                }
            }
            k = k + 1;
        }
        if any {
            proof {
                let t = tx.spec_transform();
                assert(docs_chain(t.spec_steps(), t.spec_docs(), state.spec_schema(), t.spec_doc()));
            }
            return (true, Some(tx));
        }
    }
    (true, None)
}

/// Wrap every block the selection touches in one new node of type `node`
/// with `attrs`. Applies when the type exists and some block is touched.
pub fn wrap_in(node: &str, attrs: Attrs) -> (r: Command)
    ensures
        r matches Command::WrapIn(n, a) && n@ == node@ && a == attrs,
{
    Command::WrapIn(node.to_string(), attrs)
}

/// Run [`wrap_in`].
fn run_wrap_in(state: &EditorState, node: &str, attrs: &Attrs, dispatch: bool) -> (r: Outcome)
    ensures
        outcome_ok(r, dispatch),
        r.0 <==> wrap_applies(*state, node@, *attrs),
        r.1 matches Some(tx) ==> tx.spec_transform().spec_steps().len() == 1
            && wraps(tx.spec_transform().spec_steps()[0], *state, node@),
        r.1 matches Some(tx) ==> tx_from(*state, tx),
{
    match state.schema().node_type(node) {
        Some(t) => {
            proof {
                assert(state.spec_schema().spec_node_names()[t.spec_id() as int] == node@);
            }
        },
        None => {
            return (false, None);
        },
    }
    if !attrs.is_wf() {
        return (false, None);
    }
    let sel = state.selection();
    let blocks = top_blocks_in_range(state.doc(), sel.from(), sel.to(state.doc()));
    let n = blocks.len();
    if n == 0 {
        return (false, None);
    }
    let start = blocks[0].1;
    let end = blocks[n - 1].2;
    let wrapper = match state.schema().create_node(node, attrs.clone(), Vec::new(), Vec::new()) {
        Ok(w) => w,
        Err(_) => {
            return (false, None);
        },
    };
    if dispatch {
        let mut tx = state.tr();
        let step = ReplaceAroundStep::new(start, end, start, end, node_slice(wrapper), 1);
        if tx.transform().step(AnyStep::ReplaceAround(step), state.schema()).is_ok() {
            proof {
                lemma_single_step_tx(*state, tx);
            }
            return (true, Some(tx));
        }
    }
    (true, None)
}

/// Lift the block at the selection's start out of a wrapper that holds it
/// alone (a paragraph out of a one-paragraph blockquote).
pub fn lift(state: &EditorState, dispatch: bool) -> (r: Outcome)
    ensures
        outcome_ok(r, dispatch),
        r.1 matches Some(tx) ==> tx.spec_transform().spec_steps().len() == 1,
        r.0 <==> ({
            let pos = state.spec_selection().spec_from() as int;
            let d = res_depth(state.spec_doc(), pos) as int;
            &&& pos <= state.spec_doc().spec_content().spec_size()
            &&& d >= 2
            &&& res_level(state.spec_doc(), pos, d - 1).0.spec_children().len() == 1
        }),
        r.1 matches Some(tx) ==> ({
            let pos = state.spec_selection().spec_from() as int;
            let w = res_level(state.spec_doc(), pos, res_depth(state.spec_doc(), pos) - 1);
            tx.spec_transform().spec_steps()[0] matches AnyStep::Replace(st)
                && st.spec_from() == pos - w.1 - 1 && st.spec_to() == st.spec_from() + w.0.spec_size()
                && st.spec_slice().spec_content() == w.0.spec_content()
                && st.spec_slice().spec_open_start() == 0 && st.spec_slice().spec_open_end() == 0
        }),
        r.1 matches Some(tx) ==> tx_from(*state, tx),
{
    let rp = match ResolvedPos::resolve(state.doc(), state.selection().from()) {
        Ok(p) => p,
        Err(_) => {
            return (false, None);
        },
    };
    rp.check_wf();
    proof {
        rp.lemma_resolved();
        let dd = rp.spec_depth();
        assert(res_level(rp.spec_node(0), rp.spec_pos() as int, dd) == (rp.spec_node(dd), rp.spec_pos() - rp.spec_start(dd)));
        if dd > 0 {
            assert(res_level(rp.spec_node(0), rp.spec_pos() as int, dd - 1)
                == (rp.spec_node(dd - 1), rp.spec_pos() - rp.spec_start(dd - 1)));
        }
    }
    let d = rp.depth();
    if d < 2 {
        return (false, None);
    }
    let wrapper_depth = d - 1;
    let wrapper = rp.node(wrapper_depth);
    if wrapper.child_count() != 1 {
        return (false, None);
    }
    let start = rp.before(wrapper_depth);
    let end = rp.after(wrapper_depth);
    let content = Slice::new(wrapper.content().clone(), 0, 0);
    if dispatch {
        let mut tx = state.tr();
        if tx.transform().replace(start, end, content, state.schema()).is_ok() {
            proof {
                lemma_single_step_tx(*state, tx);
            }
            return (true, Some(tx));
        }
    }
    (true, None)
}

/// Split the block at an empty caret (Enter). Applies when the caret is
/// inside a block.
pub fn split_block(state: &EditorState, dispatch: bool) -> (r: Outcome)
    ensures
        outcome_ok(r, dispatch),
        !state.spec_selection().spec_is_empty() ==> !r.0,
        r.0 <==> ({
            let pos = state.spec_selection().spec_from() as int;
            &&& state.spec_selection().spec_is_empty()
            &&& pos <= state.spec_doc().spec_content().spec_size()
            &&& res_depth(state.spec_doc(), pos) > 0
            &&& !res_inner(state.spec_doc(), pos).0.spec_type().spec_is_inline()
        }),
        r.1 matches Some(tx) ==> tx.spec_transform().spec_steps().len() == 1
            && tx.spec_selection() == Selection::caret_spec((state.spec_selection().spec_from() + 2) as usize),
        r.1 matches Some(tx) ==> tx_from(*state, tx),
        r.1 matches Some(tx) ==> (tx.spec_transform().spec_steps()[0] matches AnyStep::Replace(s)
            && s.spec_from() == state.spec_selection().spec_from() && s.spec_to() == state.spec_selection().spec_from()
            && s.spec_slice().spec_open_start() == 1 && s.spec_slice().spec_open_end() == 1),
{
    let sel = state.selection();
    if !sel.is_empty() {
        return (false, None);
    }
    let pos = sel.from();
    let rp = match ResolvedPos::resolve(state.doc(), pos) {
        Ok(p) => p,
        Err(_) => {
            return (false, None);
        },
    };
    rp.check_wf();
    proof {
        rp.lemma_resolved();
        let dd = rp.spec_depth();
        assert(res_level(rp.spec_node(0), rp.spec_pos() as int, dd) == (rp.spec_node(dd), rp.spec_pos() - rp.spec_start(dd)));
        if dd > 0 {
            assert(res_level(rp.spec_node(0), rp.spec_pos() as int, dd - 1)
                == (rp.spec_node(dd - 1), rp.spec_pos() - rp.spec_start(dd - 1)));
        }
    }
    if rp.depth() == 0 || !rp.parent().node_type().is_block() {
        return (false, None);
    }
    if dispatch && pos <= usize::MAX - 2 {
        let mut tx = state.tr();
        if tx.transform().split(pos, state.schema()).is_ok() {
            tx.set_selection(Selection::caret(pos + 2));
            proof {
                lemma_single_step_tx(*state, tx);
            }
            return (true, Some(tx));
        }
    }
    (true, None)
}

/// Delete the character before an empty caret within its block
/// (Backspace). Applies when the caret is inside a block, not at its start.
pub fn delete_backward(state: &EditorState, dispatch: bool) -> (r: Outcome)
    ensures
        outcome_ok(r, dispatch),
        !state.spec_selection().spec_is_empty() ==> !r.0,
        r.0 <==> ({
            let pos = state.spec_selection().spec_from() as int;
            &&& state.spec_selection().spec_is_empty()
            &&& pos <= state.spec_doc().spec_content().spec_size()
            &&& pos != 0
            &&& res_depth(state.spec_doc(), pos) > 0
            &&& res_inner(state.spec_doc(), pos).1 != 0
        }),
        r.1 matches Some(tx) ==> tx.spec_transform().spec_steps().len() == 1
            && tx.spec_selection() == Selection::caret_spec((state.spec_selection().spec_from() - 1) as usize)
            && deletes(tx.spec_transform().spec_steps()[0], (state.spec_selection().spec_from() - 1) as usize,
                state.spec_selection().spec_from()),
        r.1 matches Some(tx) ==> tx_from(*state, tx),
{
    let sel = state.selection();
    if !sel.is_empty() {
        return (false, None);
    }
    let pos = sel.from();
    let rp = match ResolvedPos::resolve(state.doc(), pos) {
        Ok(p) => p,
        Err(_) => {
            return (false, None);
        },
    };
    rp.check_wf();
    proof {
        rp.lemma_resolved();
        let dd = rp.spec_depth();
        assert(res_level(rp.spec_node(0), rp.spec_pos() as int, dd) == (rp.spec_node(dd), rp.spec_pos() - rp.spec_start(dd)));
        if dd > 0 {
            assert(res_level(rp.spec_node(0), rp.spec_pos() as int, dd - 1)
                == (rp.spec_node(dd - 1), rp.spec_pos() - rp.spec_start(dd - 1)));
        }
    }
    if rp.depth() == 0 || rp.parent_offset() == 0 || pos == 0 {
        return (false, None);
    }
    if dispatch {
        let mut tx = state.tr();
        if tx.transform().delete(pos - 1, pos, state.schema()).is_ok() {
            tx.set_selection(Selection::caret(pos - 1));
            proof {
                lemma_single_step_tx(*state, tx);
            }
            return (true, Some(tx));
        }
    }
    (true, None)
}

/// Delete the character after an empty caret within its block (Delete).
/// Applies when the caret is inside a block, not at its end.
pub fn delete_forward(state: &EditorState, dispatch: bool) -> (r: Outcome)
    ensures
        outcome_ok(r, dispatch),
        !state.spec_selection().spec_is_empty() ==> !r.0,
        r.1 matches Some(tx) ==> tx.spec_transform().spec_steps().len() == 1
            && deletes(tx.spec_transform().spec_steps()[0], state.spec_selection().spec_from(),
                (state.spec_selection().spec_from() + 1) as usize),
        r.0 <==> ({
            let pos = state.spec_selection().spec_from() as int;
            &&& state.spec_selection().spec_is_empty()
            &&& pos <= state.spec_doc().spec_content().spec_size()
            &&& pos != usize::MAX
            &&& res_depth(state.spec_doc(), pos) > 0
            &&& res_inner(state.spec_doc(), pos).1 != res_inner(state.spec_doc(), pos).0.spec_content().spec_size()
        }),
        r.1 matches Some(tx) ==> tx_from(*state, tx),
{
    let sel = state.selection();
    if !sel.is_empty() {
        return (false, None);
    }
    let pos = sel.from();
    let rp = match ResolvedPos::resolve(state.doc(), pos) {
        Ok(p) => p,
        Err(_) => {
            return (false, None);
        },
    };
    rp.check_wf();
    proof {
        rp.lemma_resolved();
        let dd = rp.spec_depth();
        assert(res_level(rp.spec_node(0), rp.spec_pos() as int, dd) == (rp.spec_node(dd), rp.spec_pos() - rp.spec_start(dd)));
    }
    if rp.depth() == 0 || rp.parent_offset() == rp.parent().content().size() || pos == usize::MAX {
        return (false, None);
    }
    if dispatch {
        let mut tx = state.tr();
        if tx.transform().delete(pos, pos + 1, state.schema()).is_ok() {
            proof {
                lemma_single_step_tx(*state, tx);
            }
            return (true, Some(tx));
        }
    }
    (true, None)
}

/// Whether `rp` lies inside a textblock — a block whose content accepts
/// text — the only places a text caret may rest.
fn pos_in_textblock(rp: &ResolvedPos, schema: &Schema) -> (r: bool)
    ensures
        r == (rp.spec_depth() > 0 && {
            let t = rp.spec_node(rp.spec_depth()).spec_type();
            &&& !t.spec_is_inline()
            &&& schema.spec_owns(t)
            &&& exists|tt: NodeType| #![trigger schema.has_node_type(tt)] schema.has_node_type(tt) && tt.spec_name() == "text"@
                && !schema.spec_content_match(t.spec_id()).spec_next(tt.spec_id()).is_empty()
        }),
{
    if rp.depth() == 0 {
        return false;
    }
    let parent = rp.parent();
    let t = parent.node_type();
    if !t.is_block() || !schema.owns_node_type(t) {
        return false;
    }
    let text_type = match schema.node_type("text") {
        Some(tt) => tt,
        None => {
            proof {
                assert forall|tt: NodeType| #[trigger] schema.has_node_type(tt) implies tt.spec_name() != "text"@ by {
                    assert(schema.spec_node_names()[tt.spec_id() as int] == tt.spec_name());
                }
            }
            return false;
        },
    };
    let ghost tv = *text_type;
    schema.names_identify_types();
    let res = schema.content_match(t.id()).match_type(text_type.id()).is_some();
    proof {
        if !res {
            assert forall|tt: NodeType| #[trigger] schema.has_node_type(tt) && tt.spec_name() == "text"@
                implies schema.spec_content_match(t.spec_id()).spec_next(tt.spec_id()).is_empty() by {
                assert(schema.has_node_type(tv));
            }
        }
    }
    res
}

/// The next position past `from` (forward or backward) where a text caret
/// may rest, or `None` at the edge of the document.
fn next_text_caret(doc: &Node, schema: &Schema, from: usize, forward: bool) -> (r: Option<usize>)
    ensures
        r matches Some(p) ==> (forward ==> p > from) && (!forward ==> p < from),
        r matches Some(p) ==> caret_spot(*doc, *schema, p as int),
        forward ==> match r {
            Some(p) => forall|q: int| from < q < p ==> !#[trigger] caret_spot(*doc, *schema, q),
            None => forall|q: int| from < q ==> !#[trigger] caret_spot(*doc, *schema, q),
        },
        !forward ==> match r {
            Some(p) => forall|q: int| p < q < from ==> !#[trigger] caret_spot(*doc, *schema, q),
            None => forall|q: int| q < from ==> !#[trigger] caret_spot(*doc, *schema, q),
        },
{
    let max = doc.content().size();
    let mut p = from;
    loop
        invariant
            forward ==> p >= from,
            !forward ==> p <= from,
            max == doc.spec_content().spec_size(),
            forward ==> forall|q: int| from < q <= p ==> !#[trigger] caret_spot(*doc, *schema, q),
            !forward ==> forall|q: int| p <= q < from ==> !#[trigger] caret_spot(*doc, *schema, q),
        decreases (if forward { max - p } else { p as int }),
    {
        if forward {
            if p >= max {
                return None;
            }
            p = p + 1;
        } else {
            if p == 0 {
                return None;
            }
            p = p - 1;
        }
        match ResolvedPos::resolve(doc, p) {
            Ok(rp) => {
                rp.check_wf();
                proof {
                    rp.lemma_resolved();
                    let dd = rp.spec_depth();
                    assert(res_level(rp.spec_node(0), rp.spec_pos() as int, dd) == (rp.spec_node(dd), rp.spec_pos() - rp.spec_start(dd)));
                }
                if pos_in_textblock(&rp, schema) {
                    return Some(p);
                }
            },
            Err(_) => {},
        }
    }
}

/// Whether a text caret may rest at position `p` of `doc`: inside the
/// document, in a block owned by `s` whose content accepts text.
pub open spec fn caret_spot(doc: Node, s: Schema, p: int) -> bool {
    &&& 0 <= p <= doc.spec_content().spec_size()
    &&& res_depth(doc, p) > 0
    &&& {
        let t = res_inner(doc, p).0.spec_type();
        &&& !t.spec_is_inline()
        &&& s.spec_owns(t)
        &&& exists|tt: NodeType| #![trigger s.has_node_type(tt)] s.has_node_type(tt) && tt.spec_name() == "text"@
            && !s.spec_content_match(t.spec_id()).spec_next(tt.spec_id()).is_empty()
    }
}

/// Collapse a range selection to its start, or move an empty caret to the
/// previous place a text caret may rest.
pub fn caret_left(state: &EditorState, dispatch: bool) -> (r: Outcome)
    ensures
        outcome_ok(r, dispatch),
        r.0 <==> (!state.spec_selection().spec_is_empty() || exists|q: int| q < state.spec_selection().spec_from()
            && #[trigger] caret_spot(state.spec_doc(), state.spec_schema(), q)),
        r.1 is Some <==> r.0 && dispatch,
        r.1 matches Some(tx) ==> (state.spec_selection().spec_is_empty() ==> (tx.spec_selection() matches Selection::Text { anchor, head }
            && anchor == head && anchor < state.spec_selection().spec_from()
            && caret_spot(state.spec_doc(), state.spec_schema(), anchor as int)
            && forall|q: int| anchor < q < state.spec_selection().spec_from() ==> !#[trigger] caret_spot(state.spec_doc(), state.spec_schema(), q))),
        !state.spec_selection().spec_is_empty() ==> r.0,
        r.1 matches Some(tx) ==> tx.spec_transform().spec_steps().len() == 0 && tx.spec_selection_set()
            && (!state.spec_selection().spec_is_empty() ==> tx.spec_selection() == Selection::caret_spec(state.spec_selection().spec_from())),
        r.1 matches Some(tx) ==> tx_from(*state, tx),
{
    let sel = state.selection();
    let target = if !sel.is_empty() {
        sel.from()
    } else {
        match next_text_caret(state.doc(), state.schema(), sel.from(), false) {
            Some(p) => p,
            None => {
                return (false, None);
            },
        }
    };
    if dispatch {
        return (true, Some(select_tx(state, Selection::caret(target))));
    }
    (true, None)
}

/// Collapse a range selection to its end, or move an empty caret to the
/// next place a text caret may rest.
pub fn caret_right(state: &EditorState, dispatch: bool) -> (r: Outcome)
    ensures
        outcome_ok(r, dispatch),
        r.0 <==> (!state.spec_selection().spec_is_empty() || exists|q: int| q > state.spec_selection().spec_from()
            && #[trigger] caret_spot(state.spec_doc(), state.spec_schema(), q)),
        r.1 is Some <==> r.0 && dispatch,
        r.1 matches Some(tx) ==> (state.spec_selection().spec_is_empty() ==> (tx.spec_selection() matches Selection::Text { anchor, head }
            && anchor == head && anchor > state.spec_selection().spec_from()
            && caret_spot(state.spec_doc(), state.spec_schema(), anchor as int)
            && forall|q: int| state.spec_selection().spec_from() < q < anchor ==> !#[trigger] caret_spot(state.spec_doc(), state.spec_schema(), q))),
        !state.spec_selection().spec_is_empty() ==> r.0,
        r.1 matches Some(tx) ==> tx.spec_transform().spec_steps().len() == 0 && tx.spec_selection_set()
            && (state.spec_selection() matches Selection::Text { anchor, head } ==> (anchor != head
                ==> tx.spec_selection() == Selection::caret_spec(crate::selection::max_pos(anchor, head)))),
        r.1 matches Some(tx) ==> tx_from(*state, tx),
{
    let sel = state.selection();
    let target = if !sel.is_empty() {
        sel.to(state.doc())
    } else {
        match next_text_caret(state.doc(), state.schema(), sel.from(), true) {
            Some(p) => p,
            None => {
                return (false, None);
            },
        }
    };
    if dispatch {
        return (true, Some(select_tx(state, Selection::caret(target))));
    }
    (true, None)
}

/// Move the caret to the start of its block (Home). Applies inside a block.
pub fn caret_line_start(state: &EditorState, dispatch: bool) -> (r: Outcome)
    ensures
        outcome_ok(r, dispatch),
        r.1 matches Some(tx) ==> tx.spec_transform().spec_steps().len() == 0 && tx.spec_selection_set(),
        r.0 <==> state.spec_selection().spec_from() <= state.spec_doc().spec_content().spec_size()
            && res_depth(state.spec_doc(), state.spec_selection().spec_from() as int) > 0,
        r.1 is Some <==> r.0 && dispatch,
        r.1 matches Some(tx) ==> ({
            let pos = state.spec_selection().spec_from() as int;
            tx.spec_selection() == Selection::caret_spec((pos - res_inner(state.spec_doc(), pos).1) as usize)
        }),
        r.1 matches Some(tx) ==> tx_from(*state, tx),
{
    let rp = match ResolvedPos::resolve(state.doc(), state.selection().from()) {
        Ok(p) => p,
        Err(_) => {
            return (false, None);
        },
    };
    rp.check_wf();
    proof {
        rp.lemma_resolved();
        let dd = rp.spec_depth();
        assert(res_level(rp.spec_node(0), rp.spec_pos() as int, dd) == (rp.spec_node(dd), rp.spec_pos() - rp.spec_start(dd)));
    }
    if rp.depth() == 0 {
        return (false, None);
    }
    if dispatch {
        let d = rp.depth();
        return (true, Some(select_tx(state, Selection::caret(rp.start(d)))));
    }
    (true, None)
}

/// Move the caret to the end of its block (End). Applies inside a block.
pub fn caret_line_end(state: &EditorState, dispatch: bool) -> (r: Outcome)
    ensures
        outcome_ok(r, dispatch),
        r.1 matches Some(tx) ==> tx.spec_transform().spec_steps().len() == 0 && tx.spec_selection_set(),
        r.0 <==> state.spec_selection().spec_from() <= state.spec_doc().spec_content().spec_size()
            && res_depth(state.spec_doc(), state.spec_selection().spec_from() as int) > 0,
        r.1 is Some <==> r.0 && dispatch,
        r.1 matches Some(tx) ==> ({
            let pos = state.spec_selection().spec_from() as int;
            tx.spec_selection() == Selection::caret_spec((pos - res_inner(state.spec_doc(), pos).1 + res_inner(state.spec_doc(), pos).0.spec_content().spec_size()) as usize)
        }),
        r.1 matches Some(tx) ==> tx_from(*state, tx),
{
    let rp = match ResolvedPos::resolve(state.doc(), state.selection().from()) {
        Ok(p) => p,
        Err(_) => {
            return (false, None);
        },
    };
    rp.check_wf();
    proof {
        rp.lemma_resolved();
        let dd = rp.spec_depth();
        assert(res_level(rp.spec_node(0), rp.spec_pos() as int, dd) == (rp.spec_node(dd), rp.spec_pos() - rp.spec_start(dd)));
    }
    if rp.depth() == 0 {
        return (false, None);
    }
    if dispatch {
        let d = rp.depth();
        return (true, Some(select_tx(state, Selection::caret(rp.end(d)))));
    }
    (true, None)
}

/// The last textblock at the end of `node` (a block whose first child is
/// inline, or which is empty), with the position before it.
/// The last textblock at the end of `n`, which starts at `start` (a block
/// whose first child is inline, or which is empty), with the position before
/// it; `None` for a text node, a node ending in no such block, or where a
/// position would not fit a `usize`.
pub open spec fn last_textblock(n: Node, start: int) -> Option<(Node, int)>
    decreases n,
{
    let c = n.spec_children();
    if n.spec_is_text() {
        None
    } else if !n.spec_type().spec_is_inline() && (c.len() == 0 || c[0].spec_type().spec_is_inline()) {
        Some((n, start))
    } else if start >= usize::MAX || c.len() == 0 || start + 1 + prefix_size(c, c.len() - 1) > usize::MAX {
        None
    } else {
        proof {
            assert(decreases_to!(n => n.spec_children()[c.len() - 1]));
        }
        last_textblock(c[c.len() - 1], start + 1 + prefix_size(c, c.len() - 1))
    }
}

fn find_last_textblock(node: &Node, start_pos: usize) -> (r: Option<(Node, usize)>)
    ensures
        match r {
            Some((b, p)) => last_textblock(*node, start_pos as int) == Some((b, p as int)),
            None => last_textblock(*node, start_pos as int) is None,
        },
    decreases *node,
{
    if node.is_text() {
        return None;
    }
    let n = node.child_count();
    if node.is_block() && (n == 0 || node.child(0).is_inline()) {
        return Some((node.clone(), start_pos));
    }
    if start_pos == usize::MAX {
        return None;
    }
    let mut pos = start_pos + 1;
    let mut i: usize = 0;
    let ghost c = node.spec_children();
    while i < n
        invariant
            i <= n,
            n == node.spec_children().len(),
            c == node.spec_children(),
            i < n || n == 0,
            !(!node.spec_type().spec_is_inline() && (c.len() == 0 || c[0].spec_type().spec_is_inline())),
            !node.spec_is_text(),
            start_pos < usize::MAX,
            pos == start_pos + 1 + prefix_size(c, i as int),
        decreases n - i,
    {
        let child = node.child(i);
        proof {
            assert(c.take(i + 1).drop_last() =~= c.take(i as int));
            assert(prefix_size(c, i + 1) == prefix_size(c, i as int) + c[i as int].spec_size());
        }
        if i == n - 1 {
            proof {
                assert(decreases_to!(*node => node.0.content.0.content@[i as int]));
            }
            return find_last_textblock(child, pos);
        }
        let size = child.node_size();
        if pos > usize::MAX - size {
            proof {
                crate::fragment::lemma_prefix_mono(c, i + 1, n - 1);
            }
            return None;
        }
        pos = pos + size;
        i = i + 1;
    }
    None
}

/// The innermost node `pos` of `doc` resolves into, with the offset of the
/// position inside its content.
pub open spec fn res_inner(doc: Node, pos: int) -> (Node, int) {
    res_level(doc, pos, res_depth(doc, pos) as int)
}

/// Whether position `pos` of `doc` sits at the very start of a block's
/// content, and that block has a preceding sibling.
pub open spec fn at_joinable_start(doc: Node, pos: int) -> bool {
    let d = res_depth(doc, pos) as int;
    let up = res_level(doc, pos, d - 1);
    &&& d > 0
    &&& res_level(doc, pos, d).1 == 0
    &&& descent(up.0, up.1) matches Some(i) && i > 0
}

/// Whether a backward join applies: the selection is a caret, inside the
/// document, at the start of a block with a preceding sibling.
pub open spec fn backward_join_applies(doc: Node, sel: Selection) -> bool {
    &&& sel.spec_is_empty()
    &&& sel.spec_from() <= doc.spec_content().spec_size()
    &&& at_joinable_start(doc, sel.spec_from() as int)
}

/// Whether `tx` changes `state`'s document by applying its steps in order,
/// under the state's schema.
pub open spec fn tx_from(state: EditorState, tx: Transaction) -> bool {
    steps_apply(tx.spec_transform().spec_steps(), state.spec_doc(), state.spec_schema(), tx.spec_transform().spec_doc())
}

/// Whether `prev`, a node ending at position `end`, is a wrapper a
/// backward join reaches into: a block whose first child is a block, and
/// that holds a textblock.
pub open spec fn wrapper_before(prev: Node, end: int) -> bool {
    &&& !prev.spec_type().spec_is_inline()
    &&& prev.spec_children().len() > 0
    &&& !prev.spec_children()[0].spec_type().spec_is_inline()
    &&& prev.spec_size() <= end
    &&& last_textblock(prev, end - prev.spec_size()) is Some
}

/// Whether the block that position `pos` of `doc` starts follows a
/// wrapper (see [`wrapper_before`]), into whose last textblock a backward
/// join moves it.
pub open spec fn joins_into_wrapper(doc: Node, pos: int) -> bool {
    let d = res_depth(doc, pos) as int;
    let up = res_level(doc, pos, d - 1);
    descent(up.0, up.1) matches Some(i) && wrapper_before(up.0.spec_children()[i - 1], pos - 1)
}

/// The end of the content of the last textblock of the wrapper before the
/// block that position `pos` of `doc` starts.
pub open spec fn wrapper_join_end(doc: Node, pos: int) -> int {
    let d = res_depth(doc, pos) as int;
    let up = res_level(doc, pos, d - 1);
    match descent(up.0, up.1) {
        Some(i) => {
            let prev = up.0.spec_children()[i - 1];
            match last_textblock(prev, pos - 1 - prev.spec_size()) {
                Some((b, p)) => p + 1 + b.spec_content().spec_size(),
                None => 0,
            }
        },
        None => 0,
    }
}

/// A transaction of one step that applies to the state's document and
/// gives the transaction's document changes the state by its steps.
proof fn lemma_single_step_tx(state: EditorState, tx: Transaction)
    requires
        tx.spec_transform().spec_steps().len() == 1,
        crate::transform::step_applies(tx.spec_transform().spec_steps().last(), state.spec_doc(), state.spec_schema(),
            tx.spec_transform().spec_doc()),
    ensures
        tx_from(state, tx),
{
    let steps = tx.spec_transform().spec_steps();
    let docs = seq![state.spec_doc()];
    assert(crate::transform::step_applies(steps[0], docs[0], state.spec_schema(),
        crate::transform::next_doc(docs, 0, tx.spec_transform().spec_doc())));
    assert(docs_chain(steps, docs, state.spec_schema(), tx.spec_transform().spec_doc()));
}

/// Whether position `pos` of `doc` sits at the very end of a block's
/// content, and that block has a following sibling.
pub open spec fn at_joinable_end(doc: Node, pos: int) -> bool {
    let d = res_depth(doc, pos) as int;
    let up = res_level(doc, pos, d - 1);
    let here = res_level(doc, pos, d);
    &&& d > 0
    &&& here.1 == here.0.spec_content().spec_size()
    &&& descent(up.0, up.1) matches Some(i) && i + 1 < up.0.spec_children().len()
}

/// Whether a forward join applies: the selection is a caret, inside the
/// document, at the end of a block with a following sibling.
pub open spec fn forward_join_applies(doc: Node, sel: Selection) -> bool {
    &&& sel.spec_is_empty()
    &&& sel.spec_from() <= doc.spec_content().spec_size()
    &&& at_joinable_end(doc, sel.spec_from() as int)
}

/// At the start of a block with a preceding sibling, join it onto that
/// sibling (Backspace at block start); when the sibling is a wrapper such
/// as a list, join into the last textblock inside it.
pub fn join_backward(state: &EditorState, dispatch: bool) -> (r: Outcome)
    ensures
        outcome_ok(r, dispatch),
        !state.spec_selection().spec_is_empty() ==> !r.0,
        r.1 matches Some(tx) ==> tx.spec_transform().spec_steps().len() == 1,
        r.0 ==> backward_join_applies(state.spec_doc(), state.spec_selection()),
        !dispatch ==> (r.0 <==> backward_join_applies(state.spec_doc(), state.spec_selection())),
        backward_join_applies(state.spec_doc(), state.spec_selection())
            && !joins_into_wrapper(state.spec_doc(), state.spec_selection().spec_from() as int) ==> r.0,
        r.1 matches Some(tx) ==> tx_from(*state, tx),
        r.1 matches Some(tx) ==> (!joins_into_wrapper(state.spec_doc(), state.spec_selection().spec_from() as int) ==>
            deletes(tx.spec_transform().spec_steps()[0], (state.spec_selection().spec_from() - 2) as usize,
                state.spec_selection().spec_from())
            && tx.spec_selection() == Selection::caret_spec((state.spec_selection().spec_from() - 2) as usize)),
        r.1 matches Some(tx) ==> (joins_into_wrapper(state.spec_doc(), state.spec_selection().spec_from() as int) ==>
            (tx.spec_transform().spec_steps()[0] matches AnyStep::Replace(s)
                && s.spec_from() == wrapper_join_end(state.spec_doc(), state.spec_selection().spec_from() as int)
                && s.spec_to() == state.spec_selection().spec_from() - 1
                    + res_inner(state.spec_doc(), state.spec_selection().spec_from() as int).0.spec_size()
                && s.spec_slice().spec_open_end() == 0
                && tx.spec_selection() == Selection::caret_spec(s.spec_from()))),
{
    let sel = state.selection();
    if !sel.is_empty() {
        return (false, None);
    }
    let rp = match ResolvedPos::resolve(state.doc(), sel.from()) {
        Ok(p) => p,
        Err(_) => {
            return (false, None);
        },
    };
    rp.check_wf();
    proof {
        rp.lemma_resolved();
        let dd = rp.spec_depth();
        if dd > 0 {
            assert(res_level(state.spec_doc(), sel.spec_from() as int, dd - 1)
                == (rp.spec_node(dd - 1), rp.spec_pos() - rp.spec_start(dd - 1)));
            assert(res_level(state.spec_doc(), sel.spec_from() as int, dd)
                == (rp.spec_node(dd), rp.spec_pos() - rp.spec_start(dd)));
            assert(descent(rp.spec_node(dd - 1), rp.spec_pos() - rp.spec_start(dd - 1)) == Some(rp.spec_index(dd - 1) as int));
        }
    }
    let d = rp.depth();
    if d == 0 || rp.parent_offset() != 0 || rp.index(d - 1) == 0 {
        return (false, None);
    }
    let parent = rp.node(d - 1);
    let prev_idx = rp.index(d - 1) - 1;
    if prev_idx >= parent.child_count() {
        return (false, None);
    }
    let prev_sibling = parent.child(prev_idx);
    let before_d = rp.before(d);
    let prev_size = prev_sibling.node_size();
    let ghost doc = state.spec_doc();
    let ghost from = sel.spec_from() as int;
    proof {
        assert(before_d == from - 1);
        assert(res_level(doc, from, d - 1).0 == *parent);
        assert(res_level(doc, from, d - 1).0.spec_children()[prev_idx as int] == *prev_sibling);
    }
    if prev_sibling.is_block() && prev_sibling.child_count() > 0 && !prev_sibling.child(0).is_inline() && prev_size <= before_d {
        let prev_start = before_d - prev_size;
        match find_last_textblock(prev_sibling, prev_start) {
            Some((last_p, last_p_start)) => {
                proof {
                    assert(wrapper_before(*prev_sibling, from - 1));
                    assert(joins_into_wrapper(doc, from));
                    assert(wrapper_join_end(doc, from) == last_p_start + 1 + last_p.spec_content().spec_size());
                }
                let inner = last_p.content().size();
                if inner > usize::MAX - 1 || last_p_start > usize::MAX - 1 - inner {
                    return (true, None);
                }
                let target_end = last_p_start + 1 + inner;
                let current_end = rp.after(d);
                if dispatch {
                    let rp_last = match ResolvedPos::resolve(state.doc(), last_p_start + 1) {
                        Ok(p) => p,
                        Err(_) => {
                            return (false, None);
                        },
                    };
                    let mut current = rp.node(d).clone();
                    let mut depth = rp_last.depth();
                    while depth > 1
                        invariant
                            depth <= rp_last.spec_depth(),
                            dispatch,
                            joins_into_wrapper(state.spec_doc(), state.spec_selection().spec_from() as int),
                        decreases depth,
                    {
                        depth = depth - 1;
                        let ancestor = rp_last.node(depth);
                        ancestor.check_wf();
                        let size = current.node_size();
                        if size > usize::MAX - 2 {
                            return (false, None);
                        }
                        let kids = crate::fragment::one_node(current);
                        let marks = crate::mark::clone_marks(ancestor.marks());
                        current = match state.schema().create_node(ancestor.node_type().name(), ancestor.attrs().clone(), kids, marks) {
                            Ok(w) => w,
                            Err(_) => {
                                return (false, None);
                            },
                        };
                    }
                    let slice = Slice::new(Fragment::from_node(current), rp_last.depth(), 0);
                    let mut tx = state.tr();
                    if tx.transform().replace(target_end, current_end, slice, state.schema()).is_ok() {
                        tx.set_selection(Selection::caret(target_end));
                        proof {
                            lemma_single_step_tx(*state, tx);
                            assert(current_end == from - 1 + res_inner(doc, from).0.spec_size());
                        }
                        return (true, Some(tx));
                    }
                    return (true, None);
                }
                return (true, None);
            },
            None => {
                proof {
                    assert(!wrapper_before(*prev_sibling, from - 1));
                }
            },
        }
    }
    proof {
        assert(!joins_into_wrapper(doc, from));
    }
    if dispatch && before_d >= 1 && before_d < usize::MAX {
        let mut tx = state.tr();
        if tx.transform().delete(before_d - 1, before_d + 1, state.schema()).is_ok() {
            tx.set_selection(Selection::caret(before_d - 1));
            proof {
                lemma_single_step_tx(*state, tx);
            }
            return (true, Some(tx));
        }
    }
    (true, None)
}

/// At the end of a block with a following sibling, join that sibling onto
/// it (Delete at block end).
pub fn join_forward(state: &EditorState, dispatch: bool) -> (r: Outcome)
    ensures
        outcome_ok(r, dispatch),
        !state.spec_selection().spec_is_empty() ==> !r.0,
        r.1 matches Some(tx) ==> tx.spec_transform().spec_steps().len() == 1,
        r.0 <==> forward_join_applies(state.spec_doc(), state.spec_selection()),
        r.1 matches Some(tx) ==> tx_from(*state, tx),
        r.1 matches Some(tx) ==> deletes(tx.spec_transform().spec_steps()[0], state.spec_selection().spec_from(),
            (state.spec_selection().spec_from() + 2) as usize),
{
    let sel = state.selection();
    if !sel.is_empty() {
        return (false, None);
    }
    let rp = match ResolvedPos::resolve(state.doc(), sel.from()) {
        Ok(p) => p,
        Err(_) => {
            return (false, None);
        },
    };
    rp.check_wf();
    proof {
        rp.lemma_resolved();
        let dd = rp.spec_depth();
        if dd > 0 {
            assert(res_level(state.spec_doc(), sel.spec_from() as int, dd - 1)
                == (rp.spec_node(dd - 1), rp.spec_pos() - rp.spec_start(dd - 1)));
            assert(res_level(state.spec_doc(), sel.spec_from() as int, dd)
                == (rp.spec_node(dd), rp.spec_pos() - rp.spec_start(dd)));
            assert(descent(rp.spec_node(dd - 1), rp.spec_pos() - rp.spec_start(dd - 1)) == Some(rp.spec_index(dd - 1) as int));
        }
    }
    let d = rp.depth();
    if d == 0 || rp.parent_offset() != rp.parent().content().size() {
        return (false, None);
    }
    let parent = rp.node(d - 1);
    let idx = rp.index(d - 1);
    if idx >= parent.child_count() || idx + 1 >= parent.child_count() {
        return (false, None);
    }
    let after = rp.after(d);
    if dispatch && after >= 1 && after < usize::MAX {
        let mut tx = state.tr();
        if tx.transform().delete(after - 1, after + 1, state.schema()).is_ok() {
            proof {
                lemma_single_step_tx(*state, tx);
                rp.lemma_bounds(d as int);
                assert(after - 1 == sel.spec_from());
            }
            return (true, Some(tx));
        }
    }
    (true, None)
}

} // verus!
