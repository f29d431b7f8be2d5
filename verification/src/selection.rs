//! [`Selection`] — what the user has selected: a text range, a node, a
//! table-cell range, or the whole document.

use vstd::prelude::*;

use crate::map::{map_result_from, map_through, Mapping, DEL_ACROSS, DEL_AFTER};
use crate::node::Node;
use crate::attr_change::node_at_spec;

verus! {

/// The current selection.
#[derive(Debug, Clone, Copy, PartialEq, Eq, Structural)]
pub enum Selection {
    /// A text range from `anchor` (where it started) to `head` (where it
    /// ends); a caret when they are equal.
    Text {
        /// Where the selection started.
        anchor: usize,
        /// Where the selection ends (the moving end).
        head: usize,
    },
    /// The node starting at `pos`.
    Node {
        /// The position before the selected node.
        pos: usize,
    },
    /// A range of table cells from the cell at `anchor` to the one at
    /// `head`.
    Cell {
        /// The position before the anchor cell.
        anchor: usize,
        /// The position before the head cell.
        head: usize,
    },
    /// The whole document.
    All,
}

/// `sel` moved through `mapping` into a document of content size `max`:
/// text ends map forward, associating right; a node or cell selection
/// whose content was deleted collapses to a caret; positions past `max`
/// are clamped to it.
pub open spec fn mapped_selection(sel: Selection, max: usize, mapping: Mapping) -> Selection {
    let maps = mapping.spec_maps();
    let mirror = mapping.spec_mirror();
    match sel {
        Selection::Text { anchor, head } => Selection::Text {
            anchor: min_pos(map_through(maps, 0, anchor, 1), max),
            head: min_pos(map_through(maps, 0, head, 1), max),
        },
        Selection::Node { pos } => {
            let (p, d) = map_result_from(maps, mirror, 0, pos, 0, 1);
            if d & (DEL_AFTER | DEL_ACROSS) > 0 {
                Selection::Text { anchor: min_pos(p, max), head: min_pos(p, max) }
            } else {
                Selection::Node { pos: min_pos(p, max) }
            }
        },
        Selection::Cell { anchor, head } => {
            let (pa, da) = map_result_from(maps, mirror, 0, anchor, 0, 1);
            let (ph, dh) = map_result_from(maps, mirror, 0, head, 0, 1);
            if da & (DEL_AFTER | DEL_ACROSS) > 0 || dh & (DEL_AFTER | DEL_ACROSS) > 0 {
                Selection::Text { anchor: min_pos(pa, max), head: min_pos(pa, max) }
            } else {
                Selection::Cell { anchor: min_pos(pa, max), head: min_pos(ph, max) }
            }
        },
        Selection::All => Selection::All,
    }
}

/// Where an insertion of `n` positions at `p` moves position `e`, for a
/// text end (which associates right): ends before `p` stay, ends at or
/// after `p` move forward by `n`.
pub open spec fn past_insertion(e: usize, p: usize, n: usize) -> int {
    if e < p { e as int } else { e + n }
}

/// A text end at `e` mapped through a mapping that only inserts `n`
/// positions at `p`.
proof fn lemma_text_end_through_insertion(mapping: Mapping, p: usize, n: usize, e: usize)
    requires
        mapping.spec_maps().len() == 1,
        mapping.spec_maps()[0].spec_ranges() == seq![p, 0usize, n],
        !mapping.spec_maps()[0].spec_inverted(),
        past_insertion(e, p, n) <= usize::MAX,
    ensures
        map_through(mapping.spec_maps(), 0, e, 1) == past_insertion(e, p, n),
{
    let maps = mapping.spec_maps();
    let r = seq![p, 0usize, n];
    assert(maps[0].spec_map(e, 1) == crate::map::map_from(r, false, 0, 0, e as int, 1));
    if e > p {
        assert(crate::map::map_from(r, false, 3, n as int, e as int, 1) == (e + n, 0u8, None::<(usize, usize)>));
    }
    assert(map_through(maps, 1, maps[0].spec_map(e, 1).0 as usize, 1) == maps[0].spec_map(e, 1).0 as usize);
}

/// Typing moves a text selection along: mapped through a mapping that only
/// inserts `n` positions at `p`, a text selection keeps its ends before
/// `p` and moves its ends at or after `p` (a caret at `p` included) past
/// the inserted positions.
pub proof fn law_text_selection_follows_insertion(sel: Selection, max: usize, mapping: Mapping, p: usize, n: usize)
    requires
        sel is Text,
        mapping.spec_maps().len() == 1,
        mapping.spec_maps()[0].spec_ranges() == seq![p, 0usize, n],
        !mapping.spec_maps()[0].spec_inverted(),
        sel matches Selection::Text { anchor, head } && past_insertion(anchor, p, n) <= max
            && past_insertion(head, p, n) <= max,
    ensures
        sel matches Selection::Text { anchor, head } && mapped_selection(sel, max, mapping) == (Selection::Text {
            anchor: past_insertion(anchor, p, n) as usize,
            head: past_insertion(head, p, n) as usize,
        }),
{
    if let Selection::Text { anchor, head } = sel {
        lemma_text_end_through_insertion(mapping, p, n, anchor);
        lemma_text_end_through_insertion(mapping, p, n, head);
    }
}

/// The smaller of two positions.
pub open spec fn min_pos(a: usize, b: usize) -> usize {
    if a <= b { a } else { b }
}

/// The larger of two positions.
pub open spec fn max_pos(a: usize, b: usize) -> usize {
    if a >= b { a } else { b }
}

/// The position past the node of `doc` starting at `pos` (saturating at
/// the largest `usize`), or `pos` when no node starts there.
pub open spec fn past_node_at(doc: Node, pos: usize) -> usize {
    match node_at_spec(doc, pos as int) {
        Some(n) => if pos + n.spec_size() > usize::MAX {
            usize::MAX
        } else {
            (pos + n.spec_size()) as usize
        },
        None => pos,
    }
}

impl Selection {
    /// An empty text selection at `pos`.
    pub open spec fn caret_spec(pos: usize) -> Selection {
        Selection::Text { anchor: pos, head: pos }
    }

    /// The start of the selection.
    pub open spec fn spec_from(self) -> usize {
        match self {
            Selection::Text { anchor, head } => min_pos(anchor, head),
            Selection::Node { pos } => pos,
            Selection::Cell { anchor, head } => min_pos(anchor, head),
            Selection::All => 0,
        }
    }

    /// The end of the selection in `doc`: the later end of a text range;
    /// past the node starting at the selected position (or at the later
    /// cell), saturating at the largest `usize`, or that position when no
    /// node starts there; the end of the document for everything.
    pub open spec fn spec_to(self, doc: Node) -> usize {
        match self {
            Selection::Text { anchor, head } => max_pos(anchor, head),
            Selection::Node { pos } => past_node_at(doc, pos),
            Selection::Cell { anchor, head } => past_node_at(doc, max_pos(anchor, head)),
            Selection::All => doc.spec_content().spec_size() as usize,
        }
    }

    /// Whether this is a caret.
    pub open spec fn spec_is_empty(self) -> bool {
        self matches Selection::Text { anchor, head } && anchor == head
    }

    /// An empty text selection at `pos`.
    pub fn caret(pos: usize) -> (r: Selection)
        ensures
            r == (Selection::Text { anchor: pos, head: pos }),
    {
        Selection::Text { anchor: pos, head: pos }
    }

    /// The start of the selection.
    pub fn from(&self) -> (r: usize)
        ensures
            r == self.spec_from(),
    {
        match self {
            Selection::Text { anchor, head } => if *anchor <= *head { *anchor } else { *head },
            Selection::Node { pos } => *pos,
            Selection::Cell { anchor, head } => if *anchor <= *head { *anchor } else { *head },
            Selection::All => 0,
        }
    }

    /// The end of the selection in `doc`: past the selected node (or the
    /// later cell), or the end of the document for [`Selection::All`].
    pub fn to(&self, doc: &Node) -> (r: usize)
        ensures
            r == self.spec_to(*doc),
    {
        match self {
            Selection::Text { anchor, head } => if *anchor >= *head { *anchor } else { *head },
            Selection::Node { pos } => match doc.node_at(*pos) {
                Some(n) => pos.saturating_add(n.node_size()),
                None => *pos,
            },
            Selection::Cell { anchor, head } => {
                let later = if *anchor >= *head { *anchor } else { *head };
                match doc.node_at(later) {
                    Some(n) => later.saturating_add(n.node_size()),
                    None => later,
                }
            },
            Selection::All => doc.content().size(),
        }
    }

    /// Whether this is a caret (an empty text selection).
    pub fn is_empty(&self) -> (r: bool)
        ensures
            r == self.spec_is_empty(),
    {
        match self {
            Selection::Text { anchor, head } => *anchor == *head,
            _ => false,
        }
    }

    /// The selection moved through `mapping` into `doc`, positions clamped
    /// to the document; a node or cell selection whose content was deleted
    /// collapses to a caret.
    pub fn map(&self, doc: &Node, mapping: &Mapping) -> (r: Selection)
        ensures
            r == mapped_selection(*self, doc.spec_content().spec_size() as usize, *mapping),
            *self == Selection::All ==> r == Selection::All,
            *self is Text ==> r is Text,
            match r {
                Selection::Text { anchor, head } => anchor <= doc.spec_content().spec_size() && head <= doc.spec_content().spec_size(),
                Selection::Node { pos } => pos <= doc.spec_content().spec_size(),
                Selection::Cell { anchor, head } => anchor <= doc.spec_content().spec_size() && head <= doc.spec_content().spec_size(),
                Selection::All => true,
            },
    {
        let max = doc.content().size();
        match self {
            Selection::Text { anchor, head } => {
                let a = mapping.map(*anchor, 1);
                let h = mapping.map(*head, 1);
                Selection::Text { anchor: clamp(a, max), head: clamp(h, max) }
            },
            Selection::Node { pos } => {
                let m = mapping.map_result(*pos, 1);
                if m.deleted_after() {
                    Selection::caret(clamp(m.pos, max))
                } else {
                    Selection::Node { pos: clamp(m.pos, max) }
                }
            },
            Selection::Cell { anchor, head } => {
                let a = mapping.map_result(*anchor, 1);
                let h = mapping.map_result(*head, 1);
                if a.deleted_after() || h.deleted_after() {
                    Selection::caret(clamp(a.pos, max))
                } else {
                    Selection::Cell { anchor: clamp(a.pos, max), head: clamp(h.pos, max) }
                }
            },
            Selection::All => Selection::All,
        }
    }
}

/// `p`, or `max` when it is past it.
fn clamp(p: usize, max: usize) -> (r: usize)
    ensures
        r == min_pos(p, max),
{
    if p <= max { p } else { max }
}

} // verus!
