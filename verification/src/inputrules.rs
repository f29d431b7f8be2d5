//! The editing side of input rules: the text typed before the caret, the
//! top-level block around a position, and the transactions a matching rule
//! builds (replace the trigger text, retype its block, wrap its block).
//!
//! Matching a pattern against the text is left to the caller; these
//! functions take the matched range `from..to` (document positions ending at
//! the caret) and build the change.

use vstd::prelude::*;

use crate::attrs::Attrs;
use crate::fragment::{copy_nodes, prefix_size, Fragment};
use crate::mark::clone_marks;
use crate::node::{text_of, Node};
use crate::pos::ResolvedPos;
use crate::slice::Slice;
use crate::replace::slice_of;
use crate::pos::{res_depth, res_level};
use crate::state::{EditorState, Transaction};
use crate::step::{AnyStep, ReplaceAroundStep};
use crate::strutil::{chars_of, push_chars, string_from_chars};

verus! {

/// The text of a list of nodes, one after another.
pub open spec fn nodes_text(nodes: Seq<Node>) -> Seq<char>
    decreases nodes.len(),
{
    if nodes.len() == 0 {
        Seq::empty()
    } else {
        nodes_text(nodes.drop_last()) + text_of(nodes.last())
    }
}

/// The text of `nodes`, concatenated.
fn collect_text(nodes: &[Node]) -> (r: String)
    ensures
        r@ == nodes_text(nodes@),
{
    let mut out: Vec<char> = Vec::new();
    let mut i: usize = 0;
    while i < nodes.len()
        invariant
            i <= nodes@.len(),
            out@ == nodes_text(nodes@.take(i as int)),
        decreases nodes.len() - i,
    {
        let t = nodes[i].text_content();
        let cs = chars_of(&t);
        push_chars(&mut out, &cs);
        proof {
            assert(nodes@.take(i as int + 1).drop_last() =~= nodes@.take(i as int));
        }
        i = i + 1;
    }
    proof {
        assert(nodes@.take(nodes@.len() as int) =~= nodes@);
    }
    string_from_chars(&out)
}

/// Whether `t` is the text of the slice of `doc` from the start of the
/// innermost block holding `pos` up to `pos`.
pub open spec fn text_to_caret(doc: Node, pos: int, t: Seq<char>) -> bool {
    exists|sl: Slice| #[trigger] slice_of(doc, pos - res_level(doc, pos, res_depth(doc, pos) as int).1, pos, sl)
        && t == nodes_text(sl.spec_content().spec_children())
}

/// Whether `pos` lies strictly inside one of `doc`'s non-text children.
pub open spec fn inside_top_block(doc: Node, pos: int) -> bool {
    exists|i: int| #![trigger doc.spec_children()[i]]
        0 <= i < doc.spec_children().len()
        && !doc.spec_children()[i].spec_is_text()
        && prefix_size(doc.spec_children(), i) < pos < prefix_size(doc.spec_children(), i) + doc.spec_children()[i].spec_size()
}

/// The document range a rule's match covers, given the length of the text
/// before the caret and the match's start and end in it (all in
/// characters) and the caret position: the match must end at the caret,
/// and then it covers the positions just before the caret, as many as it
/// has characters. `None` when the match does not end at the caret, is
/// reversed, or is longer than the caret position.
pub fn trigger_range(text_len: usize, match_start: usize, match_end: usize, pos: usize) -> (r: Option<(usize, usize)>)
    ensures
        r is Some <==> match_end == text_len && match_start <= match_end && match_end - match_start <= pos,
        r matches Some((from, to)) ==> to == pos && from == pos - (match_end - match_start),
{
    if match_end != text_len || match_start > match_end {
        return None;
    }
    let count = match_end - match_start;
    if count > pos {
        return None;
    }
    Some((pos - count, pos))
}

/// The plain text of the current textblock from its start up to the caret,
/// with the caret's position; `None` when the selection is not a caret
/// inside a block.
pub fn text_before_caret(state: &EditorState) -> (r: Option<(String, usize)>)
    ensures
        !state.spec_selection().spec_is_empty() ==> r is None,
        state.spec_selection().spec_from() > state.spec_doc().spec_content().spec_size() ==> r is None,
        r matches Some((_, pos)) ==> pos == state.spec_selection().spec_from(),
        r is Some <==> state.spec_selection().spec_is_empty()
            && state.spec_selection().spec_from() <= state.spec_doc().spec_content().spec_size()
            && inside_top_block(state.spec_doc(), state.spec_selection().spec_from() as int),
        r matches Some((t, pos)) ==> text_to_caret(state.spec_doc(), pos as int, t@),
{
    let sel = state.selection();
    if !sel.is_empty() {
        return None;
    }
    let pos = sel.from();
    let rp = match ResolvedPos::resolve(state.doc(), pos) {
        Ok(p) => p,
        Err(_) => {
            return None;
        },
    };
    rp.check_wf();
    if rp.depth() == 0 {
        proof {
            rp.lemma_depth0_outside();
        }
        return None;
    }
    proof {
        rp.lemma_block_bounds();
        rp.lemma_top_child();
        let i = rp.spec_index(0) as int;
        assert(state.spec_doc().spec_children()[i] == rp.spec_node(1));
        rp.lemma_start_le_pos(rp.spec_depth());
    }
    proof {
        rp.lemma_resolved();
        let dd = rp.spec_depth();
        assert(res_level(rp.spec_node(0), rp.spec_pos() as int, dd) == (rp.spec_node(dd), rp.spec_pos() - rp.spec_start(dd)));
    }
    let start = rp.start(rp.depth());
    let slice = match state.doc().slice(start, pos) {
        Ok(s) => s,
        Err(_) => {
            return None;
        },
    };
    let text = collect_text(slice.content().children());
    proof {
        assert(res_depth(state.spec_doc(), pos as int) == rp.spec_depth());
        assert(pos - res_level(state.spec_doc(), pos as int, res_depth(state.spec_doc(), pos as int) as int).1 == start as int);
        assert(slice_of(state.spec_doc(), start as int, pos as int, slice));
        assert(slice_of(state.spec_doc(),
            pos - res_level(state.spec_doc(), pos as int, res_depth(state.spec_doc(), pos as int) as int).1, pos as int, slice));
        assert(text@ == nodes_text(slice.spec_content().spec_children()));
        assert(text_to_caret(state.spec_doc(), pos as int, text@));
    }
    Some((text, pos))
}

/// The top-level block enclosing `pos` in `state`'s document, as the
/// positions just before and just after it; `None` when `pos` lies outside
/// every top-level block.
pub fn top_block_range(state: &EditorState, pos: usize) -> (r: Option<(usize, usize)>)
    ensures
        pos > state.spec_doc().spec_content().spec_size() ==> r is None,
        r matches Some((before, after)) ==> before < pos < after
            && after <= state.spec_doc().spec_content().spec_size(),
        match r {
            Some((before, after)) => exists|i: int| #![trigger state.spec_doc().spec_children()[i]]
                0 <= i < state.spec_doc().spec_children().len()
                && !state.spec_doc().spec_children()[i].spec_is_text()
                && before == prefix_size(state.spec_doc().spec_children(), i)
                && after == before + state.spec_doc().spec_children()[i].spec_size(),
            None => pos > state.spec_doc().spec_content().spec_size()
                || forall|i: int| 0 <= i < state.spec_doc().spec_children().len()
                    && !(#[trigger] state.spec_doc().spec_children()[i]).spec_is_text()
                    ==> !(prefix_size(state.spec_doc().spec_children(), i) < pos
                        < prefix_size(state.spec_doc().spec_children(), i) + state.spec_doc().spec_children()[i].spec_size()),
        },
{
    let rp = match ResolvedPos::resolve(state.doc(), pos) {
        Ok(p) => p,
        Err(_) => {
            return None;
        },
    };
    rp.check_wf();
    if rp.depth() == 0 {
        proof {
            rp.lemma_depth0_outside();
        }
        return None;
    }
    proof {
        rp.lemma_block_bounds();
        rp.lemma_top_child();
        let i = rp.spec_index(0) as int;
        assert(state.spec_doc().spec_children()[i] == rp.spec_node(1));
    }
    Some((rp.before(1), rp.after(1)))
}

/// A slice holding exactly `node`, closed on both sides.
fn single_node_slice(node: Node) -> (r: Slice)
    ensures
        r.spec_content().spec_children() == seq![node],
        r.spec_open_start() == 0,
        r.spec_open_end() == 0,
{
    Slice::new(Fragment::from_node(node), 0, 0)
}

/// Replace the matched text `from..to` with `replacement` (as `"(c)"` →
/// `"©"`): delete the range, then insert a text node at `from`. `None` when
/// the schema has no text type or a step does not apply.
pub fn replace_trigger_text(state: &EditorState, from: usize, to: usize, replacement: &str) -> (r: Option<Transaction>)
    ensures
        r matches Some(tx) ==> {
            let steps = tx.spec_transform().spec_steps();
            &&& tx.spec_transform().wf()
            &&& steps.len() == 2
            &&& steps[1] matches AnyStep::Replace(s) && s.spec_from() == from && s.spec_to() == from
                && s.spec_slice().spec_content().spec_children().len() == 1
                && s.spec_slice().spec_content().spec_children()[0].spec_text() == Some(replacement@)
            &&& tx.spec_selection() == state.spec_selection()
            &&& !tx.spec_selection_set()
        },
{
    let mut tx = state.tr();
    let node = match state.schema().text(replacement, Vec::new()) {
        Ok(n) => n,
        Err(_) => {
            return None;
        },
    };
    if tx.transform().delete(from, to, state.schema()).is_err() {
        return None;
    }
    if tx.transform().insert(from, single_node_slice(node), state.schema()).is_err() {
        return None;
    }
    Some(tx)
}

/// Drop the matched text `from..to` and retype the top-level block it was
/// in as `node` with `attrs`, keeping its content and marks (as `"## "` →
/// heading). `None` when a step does not apply, the position is outside a
/// block, or the block's content does not fit the new type.
pub fn retype_block(state: &EditorState, from: usize, to: usize, node: &str, attrs: Attrs) -> (r: Option<Transaction>)
    ensures
        r matches Some(tx) ==> {
            let steps = tx.spec_transform().spec_steps();
            &&& tx.spec_transform().wf()
            &&& steps.len() == 2
            &&& steps[1] matches AnyStep::Replace(s) && s.spec_slice().spec_content().spec_children().len() == 1
                && s.spec_slice().spec_content().spec_children()[0].spec_type().spec_name() == node@
            &&& tx.spec_selection() == state.spec_selection()
            &&& !tx.spec_selection_set()
        },
{
    if !attrs.is_wf() {
        return None;
    }
    let mut tx = state.tr();
    if tx.transform().delete(from, to, state.schema()).is_err() {
        return None;
    }
    let after = tx.transform().doc().clone();
    let rp = match ResolvedPos::resolve(&after, from) {
        Ok(p) => p,
        Err(_) => {
            return None;
        },
    };
    if rp.depth() == 0 {
        return None;
    }
    let block = rp.node(1).clone();
    let start = rp.before(1);
    let end = rp.after(1);
    rp.check_wf();
    proof {
        rp.lemma_block_bounds();
    }
    let children = copy_nodes(block.content().children());
    let marks = clone_marks(block.marks());
    let new_block = match state.schema().node(node, attrs, children, marks) {
        Ok(n) => n,
        Err(_) => {
            return None;
        },
    };
    if tx.transform().replace(start, end, single_node_slice(new_block), state.schema()).is_err() {
        return None;
    }
    Some(tx)
}

/// Drop the matched text `from..to` and wrap the top-level block it was in
/// in a new `node` with `attrs` (as `"> "` → blockquote). `None` when a step
/// does not apply, the position is outside a block, or `node` is unknown.
pub fn wrap_block(state: &EditorState, from: usize, to: usize, node: &str, attrs: Attrs) -> (r: Option<Transaction>)
    ensures
        r matches Some(tx) ==> {
            let steps = tx.spec_transform().spec_steps();
            &&& tx.spec_transform().wf()
            &&& steps.len() == 2
            &&& steps[1] matches AnyStep::ReplaceAround(s) && s.spec_insert() == 1
                && s.spec_gap_from() == s.spec_from() && s.spec_gap_to() == s.spec_to()
                && s.spec_from() < from < s.spec_to()
                && s.spec_slice().spec_content().spec_children().len() == 1
                && s.spec_slice().spec_content().spec_children()[0].spec_type().spec_name() == node@
            &&& tx.spec_selection() == state.spec_selection()
            &&& !tx.spec_selection_set()
        },
{
    if !attrs.is_wf() {
        return None;
    }
    let mut tx = state.tr();
    if tx.transform().delete(from, to, state.schema()).is_err() {
        return None;
    }
    let after = tx.transform().doc().clone();
    let probe = EditorState::new(after, state.schema().clone());
    let (start, end) = match top_block_range(&probe, from) {
        Some(range) => range,
        None => {
            return None;
        },
    };
    let wrapper = match state.schema().create_node(node, attrs, Vec::new(), Vec::new()) {
        Ok(w) => w,
        Err(_) => {
            return None;
        },
    };
    let step = ReplaceAroundStep::new(start, end, start, end, single_node_slice(wrapper), 1);
    if tx.transform().step(AnyStep::ReplaceAround(step), state.schema()).is_err() {
        return None;
    }
    Some(tx)
}

} // verus!
