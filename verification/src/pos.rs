//! [`ResolvedPos`] — an absolute document position resolved into the path of
//! ancestor nodes that contain it.

use vstd::prelude::*;

use crate::error::DocError;
use crate::fragment::prefix_size;
use crate::attr_change::{find_ok, found_index, lemma_found};
use crate::node::{Node, nodes_size};

verus! {

/// One level of a resolved position: an ancestor node, the index of the
/// child the position is in (or before), and where that child starts.
#[derive(Debug)]
pub struct PathStep {
    pub(crate) node: Node,
    pub(crate) index: usize,
    pub(crate) start: usize,
}

/// Where the content of the node at level `d` of `path` starts.
pub open(crate) spec fn content_start(path: Seq<PathStep>, d: int) -> int {
    if d <= 0 {
        0
    } else {
        path[d - 1].start + 1
    }
}

/// Each level's child index and start agree with its node's content, and
/// each deeper level is the (non-text) child the level above points at.
#[verifier::opaque]
pub open(crate) spec fn path_wf(path: Seq<PathStep>) -> bool {
    &&& forall|d: int| 0 <= d < path.len() ==> (#[trigger] path[d]).index <= path[d].node.spec_children().len()
        && path[d].start == content_start(path, d) + prefix_size(path[d].node.spec_children(), path[d].index as int)
    &&& forall|d: int| 0 <= d < path.len() - 1 ==> (#[trigger] path[d]).index < path[d].node.spec_children().len()
        && path[d + 1].node == path[d].node.spec_children()[path[d].index as int]
        && !path[d + 1].node.spec_is_text()
        && !path[d + 1].node.spec_type().spec_is_leaf()
    &&& forall|d: int| 0 <= d < path.len() ==> content_start(path, d) + (#[trigger] path[d]).node.spec_content().spec_size() + 1 <= usize::MAX
}

/// Extending a consistent path by a consistent level keeps it consistent.
proof fn lemma_path_push(old: Seq<PathStep>, step: PathStep)
    requires
        path_wf(old),
        step.index <= step.node.spec_children().len(),
        step.start == content_start(old, old.len() as int) + prefix_size(step.node.spec_children(), step.index as int),
        old.len() > 0 ==> old.last().index < old.last().node.spec_children().len()
            && step.node == old.last().node.spec_children()[old.last().index as int]
            && !step.node.spec_is_text() && !step.node.spec_type().spec_is_leaf(),
        content_start(old, old.len() as int) + step.node.spec_content().spec_size() + 1 <= usize::MAX,
    ensures
        path_wf(old.push(step)),
{
    reveal(path_wf);
    let new = old.push(step);
    assert forall|d: int| 0 <= d < new.len() implies (#[trigger] new[d]).index <= new[d].node.spec_children().len()
        && new[d].start == content_start(new, d) + prefix_size(new[d].node.spec_children(), new[d].index as int) by {
        if d < old.len() {
            assert(new[d] == old[d]);
            assert(content_start(new, d) == content_start(old, d));
        }
    }
    assert forall|d: int| 0 <= d < new.len() - 1 implies (#[trigger] new[d]).index < new[d].node.spec_children().len()
        && new[d + 1].node == new[d].node.spec_children()[new[d].index as int]
        && !new[d + 1].node.spec_is_text()
        && !new[d + 1].node.spec_type().spec_is_leaf() by {
        assert(new[d] == old[d]);
        if d + 1 < old.len() {
            assert(new[d + 1] == old[d + 1]);
        }
    }
    assert forall|d: int| 0 <= d < new.len() implies content_start(new, d)
        + (#[trigger] new[d]).node.spec_content().spec_size() + 1 <= usize::MAX by {
        if d < old.len() {
            assert(new[d] == old[d]);
            assert(content_start(new, d) == content_start(old, d));
        }
    }
}

/// Some child index is where a position at or after the start of the run
/// falls: scanning on from `k`.
proof fn lemma_find_from(c: Seq<Node>, pos: int, k: int)
    requires
        0 <= k <= c.len(),
        prefix_size(c, k) <= pos,
        forall|j: int| 0 <= j < k ==> pos > #[trigger] prefix_size(c, j),
    ensures
        exists|i: int| find_ok(c, pos, i),
    decreases c.len() - k,
{
    if prefix_size(c, k) == pos || k == c.len() {
        assert(find_ok(c, pos, k));
    } else {
        assert(c.take(k + 1).drop_last() =~= c.take(k));
        assert(prefix_size(c, k + 1) == prefix_size(c, k) + c[k].spec_size());
        if pos < prefix_size(c, k) + c[k].spec_size() {
            assert(find_ok(c, pos, k));
        } else {
            lemma_find_from(c, pos, k + 1);
        }
    }
}

/// Whether the ancestor `d` levels down on the way to position `from` of
/// `doc` also holds position `to` in its content.
pub open spec fn holds_both(doc: Node, from: int, to: int, d: int) -> bool {
    let lv = res_level(doc, from, d);
    from - lv.1 <= to <= from - lv.1 + lv.0.spec_content().spec_size()
}

/// The deepest level at most `d` whose ancestor (on the way to `from`)
/// holds `to` too, or 0.
pub open spec fn shared_from(doc: Node, from: int, to: int, d: int) -> int
    decreases d,
{
    if d <= 0 {
        0
    } else if holds_both(doc, from, to, d) {
        d
    } else {
        shared_from(doc, from, to, d - 1)
    }
}

/// The index of the child of `n` that strictly contains position `pos` of
/// `n`'s content, when that child is neither text nor a leaf (so a
/// resolved position goes down into it).
pub open spec fn descent(n: Node, pos: int) -> Option<int> {
    let c = n.spec_children();
    let i = found_index(c, pos);
    if 0 <= i < c.len() && prefix_size(c, i) < pos && !c[i].spec_is_text() && !c[i].spec_type().spec_is_leaf() {
        Some(i)
    } else {
        None
    }
}

/// How many levels below `n` the position `pos` of its content resolves.
pub open spec fn res_depth(n: Node, pos: int) -> nat
    decreases n,
{
    match descent(n, pos) {
        Some(i) => {
            proof {
                assert(decreases_to!(n => n.spec_children()[i]));
            }
            1 + res_depth(n.spec_children()[i], pos - prefix_size(n.spec_children(), i) - 1)
        },
        None => 0,
    }
}

/// The ancestor `d` levels below `n` on the way to the position `pos` of
/// `n`'s content, with the offset of the position inside that ancestor's
/// content.
pub open spec fn res_level(n: Node, pos: int, d: int) -> (Node, int)
    decreases n,
{
    if d <= 0 {
        (n, pos)
    } else {
        match descent(n, pos) {
            Some(i) => {
                proof {
                    assert(decreases_to!(n => n.spec_children()[i]));
                }
                res_level(n.spec_children()[i], pos - prefix_size(n.spec_children(), i) - 1, d - 1)
            },
            None => (n, pos),
        }
    }
}

/// A position resolved against a document: the path of ancestors from the
/// root to the innermost node that contains it.
#[derive(Debug)]
pub struct ResolvedPos {
    pub(crate) pos: usize,
    pub(crate) path: Vec<PathStep>,
    pub(crate) parent_offset: usize,
}

impl ResolvedPos {
    /// The path is consistent and the position lies inside the innermost
    /// node, at or after the start of the child it points at.
    pub open(crate) spec fn wf(self) -> bool {
        let p = self.path@;
        let d = p.len() - 1;
        &&& p.len() >= 1
        &&& path_wf(p)
        &&& self.pos == content_start(p, d) + self.parent_offset
        &&& self.parent_offset <= p[d].node.spec_content().spec_size()
        &&& prefix_size(p[d].node.spec_children(), p[d].index as int) <= self.parent_offset
        &&& (prefix_size(p[d].node.spec_children(), p[d].index as int) < self.parent_offset ==>
            p[d].index < p[d].node.spec_children().len() && p[d].node.spec_children()[p[d].index as int].spec_is_text()
            && self.parent_offset < prefix_size(p[d].node.spec_children(), p[d].index as int)
                + p[d].node.spec_children()[p[d].index as int].spec_size())
    }

    #[verifier::type_invariant]
    closed spec fn inv(self) -> bool {
        self.wf()
    }

    /// The position.
    pub open(crate) spec fn spec_pos(self) -> usize {
        self.pos
    }

    /// The depth of the innermost node (0 for the root).
    pub open(crate) spec fn spec_depth(self) -> int {
        self.path@.len() - 1
    }

    /// The ancestor at depth `d`.
    pub open(crate) spec fn spec_node(self, d: int) -> Node {
        self.path@[d].node
    }

    /// The child index at depth `d`.
    pub open(crate) spec fn spec_index(self, d: int) -> usize {
        self.path@[d].index
    }

    /// Where the content of the ancestor at depth `d` starts.
    pub open(crate) spec fn spec_start(self, d: int) -> int {
        content_start(self.path@, d)
    }

    /// The offset of the position inside its innermost node.
    pub open(crate) spec fn spec_parent_offset(self) -> usize {
        self.parent_offset
    }

    /// The offset of the position inside the text node it points into
    /// (0 between nodes).
    pub open(crate) spec fn spec_text_offset(self) -> int {
        self.pos - self.path@[self.spec_depth()].start
    }

    /// The type invariant, for callers in other modules.
    pub(crate) fn check_wf(&self)
        ensures
            self.wf(),
    {
        proof {
            use_type_invariant(self);
        }
    }

    /// Resolve `pos` in `root`. Fails when `pos` is past the end of the
    /// root's content.
    #[verifier::rlimit(50)]
    pub fn resolve(root: &Node, pos: usize) -> (r: Result<ResolvedPos, DocError>)
        ensures
            match r {
                Ok(rp) => rp.wf() && rp.spec_pos() == pos && rp.spec_node(0) == *root
                    && pos <= root.spec_content().spec_size(),
                Err(e) => pos > root.spec_content().spec_size()
                    && e == (DocError::PositionOutOfRange { pos, max: root.spec_content().spec_size() as usize }),
            },
    {
        root.check_wf();
        let max = root.content().size();
        if pos > max {
            return Err(DocError::PositionOutOfRange { pos, max });
        }
        let mut path: Vec<PathStep> = Vec::new();
        let mut node = root.clone();
        let mut start: usize = 0;
        let mut parent_offset: usize = pos;
        proof {
            reveal(path_wf);
        }
        loop
            invariant_except_break
                path@.len() == 0 ==> node == *root && start == 0,
                path@.len() > 0 ==> path@[path@.len() - 1].index < path@[path@.len() - 1].node.spec_children().len()
                    && node == path@[path@.len() - 1].node.spec_children()[path@[path@.len() - 1].index as int]
                    && !node.spec_is_text() && !node.spec_type().spec_is_leaf(),
                start == content_start(path@, path@.len() as int),
            invariant
                path_wf(path@),
                start + node.spec_content().spec_size() + 1 <= usize::MAX,
                pos == start + parent_offset,
                parent_offset <= node.spec_content().spec_size(),
                path@.len() > 0 ==> path@[0].node == *root,
            ensures
                path@.len() >= 1,
                path_wf(path@),
                path@[0].node == *root,
                ({
                    let p = path@;
                    let d = p.len() - 1;
                    &&& pos == content_start(p, d) + parent_offset
                    &&& parent_offset <= p[d].node.spec_content().spec_size()
                    &&& prefix_size(p[d].node.spec_children(), p[d].index as int) <= parent_offset
                    &&& (prefix_size(p[d].node.spec_children(), p[d].index as int) < parent_offset ==>
                        p[d].index < p[d].node.spec_children().len() && p[d].node.spec_children()[p[d].index as int].spec_is_text()
                        && parent_offset < prefix_size(p[d].node.spec_children(), p[d].index as int)
                            + p[d].node.spec_children()[p[d].index as int].spec_size())
                }),
            decreases parent_offset,
        {
            let (index, offset) = node.content().find_index(parent_offset);
            let rem = parent_offset - offset;
            let _ = node.content().size();
            proof {
                crate::node::lemma_nodes_size_prefix(node.spec_children(), index as int);
                assert(node.spec_children().take(node.spec_children().len() as int) =~= node.spec_children());
            }
            let ghost old_path = path@;
            let step = PathStep { node: node.clone(), index, start: start + offset };
            proof {
                lemma_path_push(old_path, step);
            }
            path.push(step);
            if rem == 0 {
                break;
            }
            let child = node.child(index).clone();
            if child.is_text() {
                break;
            }
            child.check_wf();
            proof {
                assert(node.spec_children().take(index as int + 1).drop_last() =~= node.spec_children().take(index as int));
                assert(node.spec_children().take(index as int + 1).last() == node.spec_children()[index as int]);
                crate::node::lemma_nodes_size_prefix(node.spec_children(), index as int + 1);
                assert(!child.spec_type().spec_is_leaf());
                assert(child.spec_size() == child.spec_content().spec_size() + 2);
            }
            start = start + offset + 1;
            parent_offset = rem - 1;
            node = child;
        }
        Ok(ResolvedPos { pos, path, parent_offset })
    }

    /// The resolved position.
    pub fn pos(&self) -> (r: usize)
        ensures
            r == self.spec_pos(),
    {
        self.pos
    }

    /// The depth of the innermost node containing the position.
    pub fn depth(&self) -> (r: usize)
        ensures
            r == self.spec_depth(),
    {
        proof {
            use_type_invariant(self);
        }
        self.path.len() - 1
    }

    /// The offset of the position inside its innermost node's content.
    pub fn parent_offset(&self) -> (r: usize)
        ensures
            r == self.spec_parent_offset(),
    {
        self.parent_offset
    }

    /// The ancestor node at `depth`.
    pub fn node(&self, depth: usize) -> (r: &Node)
        requires
            depth <= self.spec_depth(),
        ensures
            *r == self.spec_node(depth as int),
    {
        &self.path[depth].node
    }

    /// The innermost node containing the position.
    pub fn parent(&self) -> (r: &Node)
        ensures
            *r == self.spec_node(self.spec_depth()),
    {
        proof {
            use_type_invariant(self);
        }
        &self.path[self.path.len() - 1].node
    }

    /// The root node.
    pub fn doc(&self) -> (r: &Node)
        ensures
            *r == self.spec_node(0),
    {
        proof {
            use_type_invariant(self);
        }
        &self.path[0].node
    }

    /// The child index at `depth`.
    pub fn index(&self, depth: usize) -> (r: usize)
        requires
            depth <= self.spec_depth(),
        ensures
            r == self.spec_index(depth as int),
    {
        self.path[depth].index
    }

    /// The position where the content of the ancestor at `depth` starts.
    pub fn start(&self, depth: usize) -> (r: usize)
        requires
            depth <= self.spec_depth(),
        ensures
            r == self.spec_start(depth as int),
    {
        proof {
            use_type_invariant(self);
            self.lemma_bounds(depth as int);
        }
        if depth == 0 {
            0
        } else {
            self.path[depth - 1].start + 1
        }
    }

    /// The position where the content of the ancestor at `depth` ends.
    pub fn end(&self, depth: usize) -> (r: usize)
        requires
            depth <= self.spec_depth(),
        ensures
            r == self.spec_start(depth as int) + self.spec_node(depth as int).spec_content().spec_size(),
    {
        proof {
            use_type_invariant(self);
            self.lemma_bounds(depth as int);
        }
        self.start(depth) + self.path[depth].node.content().size()
    }

    /// The position just before the ancestor at `depth` (depth ≥ 1).
    pub fn before(&self, depth: usize) -> (r: usize)
        requires
            1 <= depth <= self.spec_depth(),
        ensures
            r == self.spec_start(depth as int) - 1,
    {
        self.path[depth - 1].start
    }

    /// The position just after the ancestor at `depth` (depth ≥ 1).
    pub fn after(&self, depth: usize) -> (r: usize)
        requires
            1 <= depth <= self.spec_depth(),
        ensures
            r == self.spec_start(depth as int) - 1 + self.spec_node(depth as int).spec_size(),
    {
        proof {
            use_type_invariant(self);
            self.lemma_bounds(depth as int);
        }
        self.path[depth - 1].start + self.path[depth].node.node_size()
    }

    /// The offset into the text node the position points into (0 when it
    /// lies between nodes).
    pub fn text_offset(&self) -> (r: usize)
        ensures
            r == self.spec_text_offset(),
    {
        proof {
            use_type_invariant(self);
            reveal(path_wf);
        }
        self.pos - self.path[self.path.len() - 1].start
    }

    /// The node directly after the position: the child it points at, or
    /// the rest of the text node it lies inside; `None` at the end of its
    /// parent.
    pub fn node_after(&self) -> (r: Option<Node>)
        ensures
            ({
                let d = self.spec_depth();
                let parent = self.spec_node(d);
                let i = self.spec_index(d) as int;
                match r {
                    None => i == parent.spec_children().len(),
                    Some(n) => i < parent.spec_children().len() && if self.spec_text_offset() == 0 {
                        n == parent.spec_children()[i]
                    } else {
                        let t = parent.spec_children()[i].spec_text().unwrap();
                        n.spec_text() == Some(t.subrange(self.spec_text_offset(), t.len() as int))
                            && n.spec_type() == parent.spec_children()[i].spec_type()
                    },
                }
            }),
    {
        proof {
            use_type_invariant(self);
            reveal(path_wf);
        }
        let parent = self.parent();
        let d = self.path.len() - 1;
        let index = self.path[d].index;
        if index == parent.child_count() {
            return None;
        }
        let off = self.text_offset();
        let child = parent.child(index);
        if off > 0 {
            let size = child.node_size();
            Some(child.cut(off, size))
        } else {
            Some(child.clone())
        }
    }

    /// The node directly before the position: the preceding child, or the
    /// start of the text node it lies inside; `None` at the start of its
    /// parent.
    pub fn node_before(&self) -> (r: Option<Node>)
        ensures
            ({
                let d = self.spec_depth();
                let parent = self.spec_node(d);
                let i = self.spec_index(d) as int;
                match r {
                    None => i == 0 && self.spec_text_offset() == 0,
                    Some(n) => if self.spec_text_offset() == 0 {
                        0 < i <= parent.spec_children().len() && n == parent.spec_children()[i - 1]
                    } else {
                        let t = parent.spec_children()[i].spec_text().unwrap();
                        i < parent.spec_children().len() && n.spec_text() == Some(t.subrange(0, self.spec_text_offset()))
                            && n.spec_type() == parent.spec_children()[i].spec_type()
                    },
                }
            }),
    {
        proof {
            use_type_invariant(self);
            reveal(path_wf);
        }
        let parent = self.parent();
        let d = self.path.len() - 1;
        let index = self.path[d].index;
        let off = self.text_offset();
        if off > 0 {
            let child = parent.child(index);
            return Some(child.cut(0, off));
        }
        if index == 0 {
            None
        } else {
            Some(parent.child(index - 1).clone())
        }
    }

    /// The deepest depth whose node's content contains both this position
    /// and `pos`.
    pub fn shared_depth(&self, pos: usize) -> (r: usize)
        ensures
            self.wf() ==> r == shared_from(self.spec_node(0), self.spec_pos() as int, pos as int, self.spec_depth()),
            r <= self.spec_depth(),
            r > 0 ==> self.spec_start(r as int) <= pos
                <= self.spec_start(r as int) + self.spec_node(r as int).spec_content().spec_size(),
            forall|d: int| r < d <= self.spec_depth() ==> !(self.spec_start(d) <= pos
                <= self.spec_start(d) + #[trigger] self.spec_node(d).spec_content().spec_size()),
    {
        proof {
            use_type_invariant(self);
            self.lemma_resolved();
        }
        let mut depth = self.depth();
        while depth > 0
            invariant
                self.wf(),
                depth <= self.spec_depth(),
                forall|d: int| depth < d <= self.spec_depth() ==> !(self.spec_start(d) <= pos
                    <= self.spec_start(d) + #[trigger] self.spec_node(d).spec_content().spec_size()),
                forall|d: int| 0 <= d <= self.spec_depth() ==> #[trigger] res_level(self.spec_node(0), self.spec_pos() as int, d)
                    == (self.spec_node(d), self.spec_pos() - self.spec_start(d)),
                shared_from(self.spec_node(0), self.spec_pos() as int, pos as int, self.spec_depth())
                    == shared_from(self.spec_node(0), self.spec_pos() as int, pos as int, depth as int),
            decreases depth,
        {
            proof {
                assert(res_level(self.spec_node(0), self.spec_pos() as int, depth as int)
                    == (self.spec_node(depth as int), self.spec_pos() - self.spec_start(depth as int)));
            }
            if self.start(depth) <= pos && self.end(depth) >= pos {
                return depth;
            }
            depth = depth - 1;
        }
        0
    }

    /// The content of every ancestor starts at or before the position.
    pub(crate) proof fn lemma_start_le_pos(self, d: int)
        requires
            self.wf(),
            0 <= d <= self.spec_depth(),
        ensures
            self.spec_start(d) <= self.spec_pos(),
        decreases self.spec_depth() - d,
    {
        reveal(path_wf);
        if d < self.spec_depth() {
            self.lemma_start_le_pos(d + 1);
            assert(self.path@[d] == self.path@[d]);
        }
    }

    /// Every level's start, and the end of its content, fit a `usize`.
    /// Each ancestor at depth `d` surrounds the position: it lies within
    /// that ancestor's content.
    proof fn lemma_within(self, d: int)
        requires
            self.wf(),
            0 <= d <= self.spec_depth(),
        ensures
            self.spec_start(d) <= self.spec_pos() <= self.spec_start(d) + self.spec_node(d).spec_content().spec_size(),
        decreases self.spec_depth() - d,
    {
        if d < self.spec_depth() {
            self.lemma_within(d + 1);
            self.lemma_nested(d + 1);
        }
    }

    /// The ancestor at depth `d` lies inside the content of the one above
    /// it, one position in from its start and end.
    proof fn lemma_nested(self, d: int)
        requires
            self.wf(),
            1 <= d <= self.spec_depth(),
        ensures
            self.spec_start(d) >= self.spec_start(d - 1) + 1,
            self.spec_start(d) + self.spec_node(d).spec_content().spec_size() + 1
                <= self.spec_start(d - 1) + self.spec_node(d - 1).spec_content().spec_size(),
            self.spec_node(d).spec_size() == self.spec_node(d).spec_content().spec_size() + 2,
    {
        let p = self.path@;
        let parent = p[d - 1].node;
        let i = p[d - 1].index as int;
        let kids = parent.spec_children();
        let n = p[d].node;
        assert(i < kids.len() && n == kids[i] && !n.spec_is_text() && !n.spec_type().spec_is_leaf()
            && p[d - 1].start == content_start(p, d - 1) + prefix_size(kids, i)) by {
            reveal(path_wf);
            assert(p[d - 1] == p[d - 1]);
        }
        assert(n.spec_size() == n.spec_content().spec_size() + 2);
        assert(prefix_size(kids, i + 1) == prefix_size(kids, i) + n.spec_size()) by {
            assert(kids.take(i + 1).drop_last() =~= kids.take(i));
            assert(kids.take(i + 1).last() == kids[i]);
        }
        assert(prefix_size(kids, i + 1) <= nodes_size(kids)) by {
            crate::node::lemma_nodes_size_prefix(kids, i + 1);
        }
    }

    /// A resolved position follows the resolution of its position in its
    /// root: its depth, its ancestors, and the offsets inside them, are
    /// those `res_depth` and `res_level` give, and each ancestor above the
    /// innermost descends into the child at its index.
    pub(crate) proof fn lemma_resolved(self)
        requires
            self.wf(),
        ensures
            res_depth(self.spec_node(0), self.spec_pos() as int) == self.spec_depth(),
            forall|d: int| 0 <= d <= self.spec_depth() ==> #[trigger] res_level(self.spec_node(0), self.spec_pos() as int, d)
                == (self.spec_node(d), self.spec_pos() - self.spec_start(d)),
            forall|d: int| 0 <= d < self.spec_depth() ==> #[trigger] descent(self.spec_node(d), self.spec_pos() - self.spec_start(d))
                == Some(self.spec_index(d) as int),
            self.spec_parent_offset() == self.spec_pos() - self.spec_start(self.spec_depth()),
    {
        let depth = self.spec_depth();
        self.lemma_level_descends_all();
        self.lemma_resolved_from(0);
        assert forall|d: int| 0 <= d <= depth implies #[trigger] res_level(self.spec_node(0), self.spec_pos() as int, d)
            == (self.spec_node(d), self.spec_pos() - self.spec_start(d)) by {
            self.lemma_resolved_from(0);
            assert(self.spec_start(0) == 0);
        }
    }

    /// Every level above the innermost descends into the child at its index.
    proof fn lemma_level_descends_all(self)
        requires
            self.wf(),
        ensures
            forall|d: int| 0 <= d < self.spec_depth() ==> #[trigger] descent(self.spec_node(d), self.spec_pos() - self.spec_start(d))
                == Some(self.spec_index(d) as int),
            descent(self.spec_node(self.spec_depth()), self.spec_pos() - self.spec_start(self.spec_depth())) is None,
    {
        assert forall|d: int| 0 <= d < self.spec_depth() implies #[trigger] descent(self.spec_node(d), self.spec_pos() - self.spec_start(d))
            == Some(self.spec_index(d) as int) by {
            self.lemma_level_descends(d);
        }
        self.lemma_innermost_stops();
    }

    /// A level above the innermost descends into the child at its index.
    proof fn lemma_level_descends(self, d: int)
        requires
            self.wf(),
            0 <= d < self.spec_depth(),
        ensures
            descent(self.spec_node(d), self.spec_pos() - self.spec_start(d)) == Some(self.spec_index(d) as int),
    {
        let p = self.path@;
        let c = p[d].node.spec_children();
        let i = p[d].index as int;
        let off = self.spec_pos() - self.spec_start(d);
        self.lemma_within(d + 1);
        self.lemma_nested(d + 1);
        assert(i < c.len() && p[d + 1].node == c[i] && !c[i].spec_is_text() && !c[i].spec_type().spec_is_leaf()
            && p[d].start == content_start(p, d) + prefix_size(c, i)) by {
            reveal(path_wf);
            assert(p[d] == p[d]);
        }
        assert(self.spec_start(d + 1) == p[d].start + 1);
        assert(c.take(i + 1).drop_last() =~= c.take(i));
        assert(prefix_size(c, i + 1) == prefix_size(c, i) + c[i].spec_size());
        assert forall|k: int| 0 <= k < i implies off > #[trigger] prefix_size(c, k) by {
            crate::fragment::lemma_prefix_mono(c, k, i);
        }
        assert(find_ok(c, off, i));
        lemma_found(c, off, i);
    }

    /// The innermost level does not descend further.
    proof fn lemma_innermost_stops(self)
        requires
            self.wf(),
        ensures
            descent(self.spec_node(self.spec_depth()), self.spec_pos() - self.spec_start(self.spec_depth())) is None,
    {
        let p = self.path@;
        let d = self.spec_depth();
        let c = p[d].node.spec_children();
        let idx = p[d].index as int;
        let off = self.spec_pos() - self.spec_start(d);
        assert(off == self.parent_offset);
        assert(idx <= c.len()) by {
            reveal(path_wf);
            assert(p[d] == p[d]);
        }
        let j = found_index(c, off);
        if 0 <= j < c.len() && prefix_size(c, j) < off {
            // `j` strictly contains `off`; so does (or starts at it) `idx`.
            assert(c.take(0) =~= Seq::<Node>::empty());
            lemma_find_from(c, off, 0);
            assert(find_ok(c, off, j));
            assert(c.take(j + 1).drop_last() =~= c.take(j));
            assert(prefix_size(c, j + 1) == prefix_size(c, j) + c[j].spec_size());
            if j < idx {
                crate::fragment::lemma_prefix_mono(c, j + 1, idx);
            } else if j > idx {
                assert(c.take(idx + 1).drop_last() =~= c.take(idx));
                assert(prefix_size(c, idx + 1) == prefix_size(c, idx) + c[idx].spec_size());
                crate::fragment::lemma_prefix_mono(c, idx + 1, j);
            }
            assert(j == idx);
            assert(c[j].spec_is_text());
        }
    }

    /// From level `d` down, the resolution of the offset inside the node at
    /// `d` gives the rest of the path.
    proof fn lemma_resolved_from(self, d: int)
        requires
            self.wf(),
            0 <= d <= self.spec_depth(),
            forall|e: int| 0 <= e < self.spec_depth() ==> #[trigger] descent(self.spec_node(e), self.spec_pos() - self.spec_start(e))
                == Some(self.spec_index(e) as int),
            descent(self.spec_node(self.spec_depth()), self.spec_pos() - self.spec_start(self.spec_depth())) is None,
        ensures
            res_depth(self.spec_node(d), self.spec_pos() - self.spec_start(d)) == self.spec_depth() - d,
            forall|k: int| 0 <= k <= self.spec_depth() - d ==> #[trigger] res_level(self.spec_node(d), self.spec_pos() - self.spec_start(d), k)
                == (self.spec_node(d + k), self.spec_pos() - self.spec_start(d + k)),
        decreases self.spec_depth() - d,
    {
        let depth = self.spec_depth();
        if d < depth {
            self.lemma_resolved_from(d + 1);
            let p = self.path@;
            let c = p[d].node.spec_children();
            let i = p[d].index as int;
            assert(i < c.len() && p[d + 1].node == c[i] && p[d].start == content_start(p, d) + prefix_size(c, i)) by {
                reveal(path_wf);
                assert(p[d] == p[d]);
            }
            assert(descent(self.spec_node(d), self.spec_pos() - self.spec_start(d)) == Some(i));
            assert(self.spec_start(d + 1) == p[d].start + 1);
            assert(self.spec_pos() - self.spec_start(d) - prefix_size(c, i) - 1 == self.spec_pos() - self.spec_start(d + 1));
            assert forall|k: int| 0 <= k <= depth - d implies #[trigger] res_level(self.spec_node(d), self.spec_pos() - self.spec_start(d), k)
                == (self.spec_node(d + k), self.spec_pos() - self.spec_start(d + k)) by {
                if k > 0 {
                    assert(res_level(self.spec_node(d + 1), self.spec_pos() - self.spec_start(d + 1), k - 1)
                        == (self.spec_node(d + 1 + (k - 1)), self.spec_pos() - self.spec_start(d + 1 + (k - 1))));
                }
            }
        }
    }

    /// The ancestor at depth 1 is the root's child the position is in, and
    /// it starts where that child starts.
    pub(crate) proof fn lemma_top_child(self)
        requires
            self.wf(),
            self.spec_depth() >= 1,
        ensures
            self.spec_index(0) < self.spec_node(0).spec_children().len(),
            self.spec_node(1) == self.spec_node(0).spec_children()[self.spec_index(0) as int],
            self.spec_start(1) - 1 == prefix_size(self.spec_node(0).spec_children(), self.spec_index(0) as int),
            !self.spec_node(1).spec_is_text(),
    {
        reveal(path_wf);
        let p = self.path@;
        assert(p[0] == p[0]);
    }

    /// A position resolved at depth 0 lies strictly inside none of the
    /// root's non-text children.
    pub(crate) proof fn lemma_depth0_outside(self)
        requires
            self.wf(),
            self.spec_depth() == 0,
        ensures
            forall|i: int| 0 <= i < self.spec_node(0).spec_children().len()
                && !(#[trigger] self.spec_node(0).spec_children()[i]).spec_is_text()
                ==> !(prefix_size(self.spec_node(0).spec_children(), i) < self.spec_pos()
                    < prefix_size(self.spec_node(0).spec_children(), i) + self.spec_node(0).spec_children()[i].spec_size()),
    {
        reveal(path_wf);
        let p = self.path@;
        let c = p[0].node.spec_children();
        let idx = p[0].index as int;
        assert(p[0] == p[0]);
        let pos = self.spec_pos() as int;
        assert(pos == self.parent_offset);
        assert forall|i: int| 0 <= i < c.len() && !(#[trigger] c[i]).spec_is_text()
            implies !(prefix_size(c, i) < pos < prefix_size(c, i) + c[i].spec_size()) by {
            assert(c.take(i + 1).drop_last() =~= c.take(i));
            assert(prefix_size(c, i + 1) == prefix_size(c, i) + c[i].spec_size());
            if i < idx {
                crate::fragment::lemma_prefix_mono(c, i + 1, idx);
            } else if i > idx {
                assert(c.take(idx + 1).drop_last() =~= c.take(idx));
                assert(prefix_size(c, idx + 1) == prefix_size(c, idx) + c[idx].spec_size());
                crate::fragment::lemma_prefix_mono(c, idx + 1, i);
            }
        }
    }

    /// The top-level block holding the position (depth ≥ 1) strictly
    /// surrounds it and ends inside the root's content.
    pub(crate) proof fn lemma_block_bounds(self)
        requires
            self.wf(),
            self.spec_depth() >= 1,
        ensures
            self.spec_start(1) - 1 < self.spec_pos() < self.spec_start(1) - 1 + self.spec_node(1).spec_size(),
            self.spec_start(1) - 1 + self.spec_node(1).spec_size() <= self.spec_node(0).spec_content().spec_size(),
            self.spec_node(1).spec_content().spec_size() + 2 <= usize::MAX,
    {
        self.lemma_within(1);
        self.lemma_nested(1);
        self.lemma_bounds(1);
    }

    /// The offset of the position in its innermost node splits into the
    /// children before its index and the offset inside the text node at
    /// the index (when it lies inside one).
    pub(crate) proof fn lemma_offset_split(self)
        requires
            self.wf(),
        ensures
            ({
                let c = self.spec_node(self.spec_depth()).spec_children();
                let i = self.spec_index(self.spec_depth()) as int;
                &&& i <= c.len()
                &&& self.spec_parent_offset() == prefix_size(c, i) + self.spec_text_offset()
                &&& self.spec_text_offset() >= 0
                &&& self.spec_text_offset() > 0 ==> i < c.len() && c[i].spec_text() is Some
                    && self.spec_text_offset() < c[i].spec_size()
            }),
    {
        reveal(path_wf);
        let p = self.path@;
        let d = p.len() - 1;
        assert(p[d].start == content_start(p, d) + prefix_size(p[d].node.spec_children(), p[d].index as int));
    }

    pub(crate) proof fn lemma_bounds(self, d: int)
        requires
            self.wf(),
            0 <= d <= self.spec_depth(),
        ensures
            self.spec_start(d) + self.spec_node(d).spec_content().spec_size() + 1 <= usize::MAX,
            d >= 1 ==> self.spec_start(d) >= 1
                && self.spec_node(d).spec_size() == self.spec_node(d).spec_content().spec_size() + 2,
    {
        reveal(path_wf);
        let p = self.path@;
        assert(content_start(p, d) + p[d].node.spec_content().spec_size() + 1 <= usize::MAX);
        if d >= 1 {
            assert(p[d - 1].index < p[d - 1].node.spec_children().len());
            let n = p[d].node;
            assert(!n.spec_is_text() && !n.spec_type().spec_is_leaf());
        }
    }
}

} // verus!
