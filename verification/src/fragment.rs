//! [`Fragment`] — an immutable, ordered sequence of sibling [`Node`]s.

use std::sync::Arc;
use vstd::prelude::*;
use vstd::std_specs::iter::IteratorSpec;

use crate::node::{Node, nodes_size, cut_nodes, cut_run, lemma_nodes_size_add, lemma_nodes_size_prefix};
use crate::mark::marks_view;
use crate::strutil::concat_str;

verus! {

#[derive(Debug)]
pub struct FragmentInner {
    pub(crate) content: Vec<Node>,
    pub(crate) size: usize,
}

/// An immutable, ordered run of sibling nodes. Cloning is O(1) (an [`Arc`]
/// bump); structural sharing is intentional.
#[derive(Debug)]
pub struct Fragment(pub(crate) Arc<FragmentInner>);

impl Fragment {
    /// The stored size is the summed size of the children.
    #[verifier::type_invariant]
    pub(crate) closed spec fn inv(self) -> bool {
        self.0.size == nodes_size(self.0.content@)
    }

    /// The children.
    pub open(crate) spec fn spec_children(self) -> Seq<Node> {
        self.0.content@
    }

    /// The number of positions the children fill.
    pub open(crate) spec fn spec_size(self) -> nat {
        nodes_size(self.0.content@)
    }

    /// The empty fragment.
    pub fn empty() -> (r: Fragment)
        ensures
            r.spec_children() == Seq::<Node>::empty(),
            r.spec_size() == 0,
    {
        Fragment(Arc::new(FragmentInner { content: Vec::new(), size: 0 }))
    }

    /// Build a fragment from a sequence of sibling nodes.
    pub fn from_nodes(content: Vec<Node>) -> (r: Fragment)
        requires
            nodes_size(content@) <= usize::MAX,
        ensures
            r.spec_children() == content@,
    {
        let size = sum_sizes(&content);
        Fragment(Arc::new(FragmentInner { content, size }))
    }

    /// Build a fragment, or `None` when its size would not fit a `usize`.
    pub(crate) fn try_from_nodes(content: Vec<Node>) -> (r: Option<Fragment>)
        ensures
            match r {
                Some(f) => f.spec_children() == content@ && nodes_size(content@) <= usize::MAX,
                None => nodes_size(content@) > usize::MAX,
            },
    {
        match checked_sum_sizes(&content) {
            Some(size) => Some(Fragment(Arc::new(FragmentInner { content, size }))),
            None => None,
        }
    }

    /// Build a single-node fragment.
    pub fn from_node(node: Node) -> (r: Fragment)
        ensures
            r.spec_children() == seq![node],
            r.spec_size() == node.spec_size(),
    {
        let _ = node.node_size();
        let mut v = Vec::new();
        v.push(node);
        proof {
            assert(v@ =~= seq![node]);
            assert(nodes_size(v@.drop_last()) == 0);
            assert(nodes_size(v@) == nodes_size(v@.drop_last()) + v@.last().spec_size());
            assert(v@.drop_last() =~= Seq::<Node>::empty());
        }
        Fragment::from_nodes(v)
    }

    /// Number of direct children.
    pub fn child_count(&self) -> (r: usize)
        ensures
            r == self.spec_children().len(),
    {
        self.0.content.len()
    }

    /// Whether the fragment has no children.
    pub fn is_empty(&self) -> (r: bool)
        ensures
            r == (self.spec_children().len() == 0),
    {
        self.0.content.len() == 0
    }

    /// Borrow the child at index `i`.
    pub fn child(&self, i: usize) -> (r: &Node)
        requires
            i < self.spec_children().len(),
        ensures
            *r == self.spec_children()[i as int],
    {
        &self.0.content[i]
    }

    /// All children as a slice.
    pub fn children(&self) -> (r: &[Node])
        ensures
            r@ == self.spec_children(),
    {
        self.0.content.as_slice()
    }

    /// Iterate over the children.
    pub fn iter(&self) -> (r: std::slice::Iter<'_, Node>)
        ensures
            r.remaining() == self.spec_children().as_ref(),
    {
        self.children().iter()
    }

    /// Summed [`Node::node_size`] of all children — the number of
    /// addressable positions inside the parent this fragment fills.
    pub fn size(&self) -> (r: usize)
        ensures
            r == self.spec_size(),
    {
        proof {
            use_type_invariant(self);
        }
        self.0.size
    }

    /// The first child, if any.
    pub fn first_child(&self) -> (r: Option<&Node>)
        ensures
            match r {
                Some(n) => self.spec_children().len() > 0 && *n == self.spec_children()[0],
                None => self.spec_children().len() == 0,
            },
    {
        if self.0.content.len() == 0 {
            None
        } else {
            Some(&self.0.content[0])
        }
    }

    /// The last child, if any.
    pub fn last_child(&self) -> (r: Option<&Node>)
        ensures
            match r {
                Some(n) => self.spec_children().len() > 0 && *n == self.spec_children().last(),
                None => self.spec_children().len() == 0,
            },
    {
        let n = self.0.content.len();
        if n == 0 {
            None
        } else {
            Some(&self.0.content[n - 1])
        }
    }
}

/// A run holding just `node`.
pub(crate) fn one_node(node: Node) -> (r: Vec<Node>)
    ensures
        r@ == seq![node],
        nodes_size(r@) == node.spec_size(),
{
    let mut v = Vec::new();
    v.push(node);
    proof {
        assert(v@ =~= seq![node]);
        assert(nodes_size(v@.drop_last()) == 0);
        assert(nodes_size(v@) == nodes_size(v@.drop_last()) + v@.last().spec_size());
    }
    v
}

/// A copy of a run of nodes.
pub(crate) fn copy_nodes(nodes: &[Node]) -> (r: Vec<Node>)
    ensures
        r@ == nodes@,
{
    let mut out: Vec<Node> = Vec::new();
    let mut i: usize = 0;
    while i < nodes.len()
        invariant
            i <= nodes@.len(),
            out@ == nodes@.take(i as int),
        decreases nodes.len() - i,
    {
        out.push(nodes[i].clone());
        proof {
            assert(out@ =~= nodes@.take(i as int + 1));
        }
        i = i + 1;
    }
    proof {
        assert(nodes@.take(nodes@.len() as int) =~= nodes@);
    }
    out
}

/// The position at which child `i` of a run starts.
pub open spec fn prefix_size(children: Seq<Node>, i: int) -> nat {
    nodes_size(children.take(i))
}

/// Whether `r` is the cut of `f` between `from` and `to`: `f` itself when
/// the range covers it, nothing for an empty range, else what the cut keeps
/// of each child the range overlaps.
pub open spec fn cut_of(f: Fragment, from: int, to: int, r: Fragment) -> bool {
    if from == 0 && to == f.spec_size() {
        r == f
    } else if to <= from {
        r.spec_children().len() == 0
    } else {
        cut_run(f.spec_children(), from, to, f.spec_children().len() as int, r.spec_children())
    }
}

/// Prefix sizes grow with the prefix.
pub proof fn lemma_prefix_mono(c: Seq<Node>, i: int, j: int)
    requires
        0 <= i <= j <= c.len(),
    ensures
        prefix_size(c, i) <= prefix_size(c, j),
    decreases j - i,
{
    if i < j {
        lemma_prefix_mono(c, i, j - 1);
        assert(c.take(j).drop_last() =~= c.take(j - 1));
    }
}

/// Whether adjacent nodes `a` and `b` are text runs with the same markup,
/// which concatenation merges into one.
pub open spec fn mergeable(a: Node, b: Node) -> bool {
    &&& a.spec_is_text()
    &&& b.spec_is_text()
    &&& a.spec_type_id() == b.spec_type_id()
    &&& a.spec_attrs() == b.spec_attrs()
    &&& marks_view(a.spec_marks()) == marks_view(b.spec_marks())
}

impl Fragment {
    /// The children of this fragment overlapping `from..to`, the boundary
    /// ones cut (see [`Node`]'s cut); the whole fragment when the range
    /// covers it.
    pub fn cut(&self, from: usize, to: usize) -> (r: Fragment)
        ensures
            r.spec_size() <= self.spec_size(),
            from == 0 && to == self.spec_size() ==> r == *self,
            to <= from && !(from == 0 && to == self.spec_size()) ==> r.spec_children().len() == 0,
            from < to && !(from == 0 && to == self.spec_size()) ==> cut_run(self.spec_children(), from as int, to as int,
                self.spec_children().len() as int, r.spec_children()),
            cut_of(*self, from as int, to as int, r),
    {
        proof {
            use_type_invariant(self);
        }
        if from == 0 && to == self.0.size {
            return self.clone();
        }
        let pieces = cut_nodes(self.0.content.as_slice(), from, to);
        Fragment::from_nodes(pieces)
    }

    /// The index of the child at (or after) position `pos`, and the
    /// position where that child starts.
    pub(crate) fn find_index(&self, pos: usize) -> (r: (usize, usize))
        ensures
            r.0 <= self.spec_children().len(),
            r.1 == prefix_size(self.spec_children(), r.0 as int),
            r.1 <= pos,
            r.1 == pos || (r.0 < self.spec_children().len() && pos < r.1 + self.spec_children()[r.0 as int].spec_size())
                || (r.0 == self.spec_children().len() && pos > r.1),
            forall|k: int| 0 <= k < r.0 ==> pos > #[trigger] prefix_size(self.spec_children(), k),
    {
        proof {
            use_type_invariant(self);
            assert(self.spec_children().take(0) =~= Seq::<Node>::empty());
        }
        if pos == 0 {
            return (0, 0);
        }
        let children = self.0.content.as_slice();
        let mut offset: usize = 0;
        let mut i: usize = 0;
        while i < children.len()
            invariant
                i <= children@.len(),
                children@ == self.spec_children(),
                nodes_size(children@) <= usize::MAX,
                offset == prefix_size(children@, i as int),
                offset <= pos,
                forall|k: int| 0 <= k < i ==> pos > #[trigger] prefix_size(children@, k),
            decreases children.len() - i,
        {
            proof {
                assert(children@.take(i as int + 1).drop_last() =~= children@.take(i as int));
                lemma_nodes_size_prefix(children@, i as int + 1);
            }
            let end = offset + children[i].node_size();
            proof {
                assert(children@.take(i as int + 1).last() == children@[i as int]);
                assert(prefix_size(children@, i as int + 1) == offset + children@[i as int].spec_size());
            }
            if pos == offset {
                return (i, offset);
            }
            if pos < end {
                return (i, offset);
            }
            if pos == end {
                return (i + 1, end);
            }
            proof {
                assert forall|k: int| 0 <= k < i + 1 implies pos > #[trigger] prefix_size(children@, k) by {
                    if k == i {
                        assert(prefix_size(children@, k) == offset);
                    }
                }
            }
            offset = end;
            i = i + 1;
        }
        (children.len(), offset)
    }

    /// `self` followed by `other`; when the last child of `self` and the
    /// first of `other` are text runs with the same markup they are merged.
    pub fn append(&self, other: &Fragment) -> (r: Fragment)
        requires
            self.spec_size() + other.spec_size() <= usize::MAX,
        ensures
            r.spec_size() == self.spec_size() + other.spec_size(),
            other.spec_size() == 0 ==> r == *self,
            self.spec_size() == 0 && other.spec_size() != 0 ==> r == *other,
            self.spec_size() != 0 && other.spec_size() != 0 ==> {
                let a = self.spec_children();
                let b = other.spec_children();
                if mergeable(a.last(), b[0]) {
                    &&& r.spec_children().len() == a.len() + b.len() - 1
                    &&& r.spec_children().take(a.len() - 1) == a.drop_last()
                    &&& r.spec_children().skip(a.len() as int) == b.skip(1)
                    &&& r.spec_children()[a.len() - 1].spec_type() == a.last().spec_type()
                    &&& marks_view(r.spec_children()[a.len() - 1].spec_marks()) == marks_view(a.last().spec_marks())
                    &&& r.spec_children()[a.len() - 1].spec_text() == Some(a.last().spec_text().unwrap() + b[0].spec_text().unwrap())
                    &&& r.spec_children()[a.len() - 1].spec_attrs().len() == 0
                } else {
                    r.spec_children() == a + b
                }
            },
    {
        proof {
            use_type_invariant(self);
            use_type_invariant(other);
        }
        if other.0.size == 0 {
            return self.clone();
        }
        if self.0.size == 0 {
            return other.clone();
        }
        let a = self.0.content.as_slice();
        let b = other.0.content.as_slice();
        proof {
            if a@.len() == 0 {
                assert(nodes_size(a@) == 0);
            }
            if b@.len() == 0 {
                assert(nodes_size(b@) == 0);
            }
        }
        let last = &a[a.len() - 1];
        let first = &b[0];
        let merge = last.is_text() && first.is_text() && last.same_markup(first);
        let mut content: Vec<Node> = Vec::new();
        let n = if merge { a.len() - 1 } else { a.len() };
        let mut i: usize = 0;
        while i < n
            invariant
                n <= a@.len(),
                i <= n,
                content@ == a@.take(i as int),
            decreases n - i,
        {
            content.push(a[i].clone());
            proof {
                assert(content@ =~= a@.take(i as int + 1));
            }
            i = i + 1;
        }
        let start: usize = if merge { 1 } else { 0 };
        if merge {
            let lt = match last.text() { Some(t) => t, None => "" };
            let ft = match first.text() { Some(t) => t, None => "" };
            let merged = last.with_text(concat_str(lt, ft));
            proof {
                assert(merged.spec_size() == last.spec_size() + first.spec_size());
            }
            content.push(merged);
        }
        let ghost head = content@;
        let mut j: usize = start;
        while j < b.len()
            invariant
                start <= j <= b@.len(),
                content@ == head + b@.subrange(start as int, j as int),
            decreases b.len() - j,
        {
            content.push(b[j].clone());
            proof {
                assert(content@ =~= head + b@.subrange(start as int, j as int + 1));
            }
            j = j + 1;
        }
        proof {
            lemma_nodes_size_add(a@, b@);
            if merge {
                let m = head.last();
                assert(a@ =~= a@.take(n as int).push(a@.last()));
                assert(b@ =~= seq![b@[0]] + b@.skip(1));
                assert(head =~= a@.take(n as int).push(m));
                assert(b@.subrange(1, b@.len() as int) =~= b@.skip(1));
                lemma_nodes_size_add(a@.take(n as int).push(m), b@.skip(1));
                lemma_nodes_size_add(seq![b@[0]], b@.skip(1));
                assert(seq![b@[0]].drop_last() =~= Seq::<Node>::empty());
                assert(seq![b@[0]].last() == b@[0]);
                assert(nodes_size(Seq::<Node>::empty()) == 0);
                assert(nodes_size(seq![b@[0]]) == b@[0].spec_size());
                assert(a@.take(n as int).push(m).drop_last() =~= a@.take(n as int));
                assert(a@.take(n as int).push(a@.last()).drop_last() =~= a@.take(n as int));
                assert(nodes_size(a@.take(n as int).push(m)) == nodes_size(a@.take(n as int)) + m.spec_size());
                assert(nodes_size(a@) == nodes_size(a@.take(n as int)) + a@.last().spec_size());
                assert(content@ =~= a@.take(n as int).push(m) + b@.skip(1));
                assert(content@.take(a@.len() - 1) =~= a@.drop_last());
                assert(content@.skip(a@.len() as int) =~= b@.skip(1));
            } else {
                assert(b@.subrange(0, b@.len() as int) =~= b@);
                assert(content@ =~= a@ + b@);
            }
        }
        Fragment::from_nodes(content)
    }

    /// This fragment with child `index` replaced by `node`, or `None` when
    /// the resulting size would not fit a `usize`.
    pub(crate) fn replace_child(&self, index: usize, node: Node) -> (r: Option<Fragment>)
        requires
            index < self.spec_children().len(),
        ensures
            match r {
                Some(f) => f.spec_children() == self.spec_children().update(index as int, node),
                None => nodes_size(self.spec_children().update(index as int, node)) > usize::MAX,
            },
    {
        let mut content: Vec<Node> = Vec::new();
        let children = self.0.content.as_slice();
        let mut i: usize = 0;
        while i < children.len()
            invariant
                i <= children@.len(),
                children@ == self.spec_children(),
                index < children@.len(),
                content@ == children@.update(index as int, node).take(i as int),
            decreases children.len() - i,
        {
            if i == index {
                content.push(node.clone());
            } else {
                content.push(children[i].clone());
            }
            proof {
                assert(content@ =~= children@.update(index as int, node).take(i as int + 1));
            }
            i = i + 1;
        }
        proof {
            assert(content@ =~= children@.update(index as int, node));
        }
        Fragment::try_from_nodes(content)
    }
}

/// Two fragments hold pairwise equivalent children.
pub open spec fn frag_equiv(a: Fragment, b: Fragment) -> bool {
    &&& a.spec_children().len() == b.spec_children().len()
    &&& forall|i: int| 0 <= i < a.spec_children().len() ==> crate::node::node_equiv(#[trigger] a.spec_children()[i], b.spec_children()[i])
}

impl Fragment {
    /// Whether both fragments hold equivalent children, in order.
    pub fn same_fragment(&self, other: &Fragment) -> (r: bool)
        ensures
            r == frag_equiv(*self, *other),
    {
        let a = self.0.content.as_slice();
        let b = other.0.content.as_slice();
        if a.len() != b.len() {
            return false;
        }
        let mut i: usize = 0;
        while i < a.len()
            invariant
                i <= a@.len(),
                a@.len() == b@.len(),
                a@ == self.spec_children(),
                b@ == other.spec_children(),
                forall|j: int| 0 <= j < i ==> crate::node::node_equiv(#[trigger] a@[j], b@[j]),
            decreases a.len() - i,
        {
            if !a[i].same_node(&b[i]) {
                return false;
            }
            i = i + 1;
        }
        true
    }
}

impl PartialEq for Fragment {
    fn eq(&self, other: &Self) -> (r: bool) {
        self.same_fragment(other)
    }
}

impl vstd::std_specs::cmp::PartialEqSpecImpl for Fragment {
    open spec fn obeys_eq_spec() -> bool {
        true
    }

    open spec fn eq_spec(&self, other: &Fragment) -> bool {
        frag_equiv(*self, *other)
    }
}

impl Eq for Fragment {}

impl Clone for Fragment {
    fn clone(&self) -> (r: Self)
        ensures
            r == *self,
    {
        proof {
            use_type_invariant(self);
        }
        Fragment(Arc::clone(&self.0))
    }
}

/// The summed size of `nodes` (which must fit a `usize`).
pub(crate) fn sum_sizes(nodes: &Vec<Node>) -> (r: usize)
    requires
        nodes_size(nodes@) <= usize::MAX,
    ensures
        r == nodes_size(nodes@),
{
    let mut total: usize = 0;
    let mut i: usize = 0;
    while i < nodes.len()
        invariant
            i <= nodes.len(),
            nodes_size(nodes@) <= usize::MAX,
            total == nodes_size(nodes@.take(i as int)),
        decreases nodes.len() - i,
    {
        proof {
            assert(nodes@.take(i as int + 1).drop_last() =~= nodes@.take(i as int));
            crate::node::lemma_nodes_size_prefix(nodes@, i as int + 1);
        }
        let s = nodes[i].node_size();
        total = total + s;
        i = i + 1;
    }
    proof {
        assert(nodes@.take(nodes@.len() as int) =~= nodes@);
    }
    total
}

/// The summed size of `nodes`, or `None` when it does not fit a `usize`.
pub(crate) fn checked_sum_sizes(nodes: &Vec<Node>) -> (r: Option<usize>)
    ensures
        match r {
            Some(t) => t == nodes_size(nodes@),
            None => nodes_size(nodes@) > usize::MAX,
        },
{
    let mut total: usize = 0;
    let mut i: usize = 0;
    while i < nodes.len()
        invariant
            i <= nodes.len(),
            total == nodes_size(nodes@.take(i as int)),
        decreases nodes.len() - i,
    {
        proof {
            assert(nodes@.take(i as int + 1).drop_last() =~= nodes@.take(i as int));
        }
        let s = nodes[i].node_size();
        if total > usize::MAX - s {
            proof {
                crate::node::lemma_nodes_size_prefix(nodes@, i as int + 1);
            }
            return None;
        }
        total = total + s;
        i = i + 1;
    }
    proof {
        assert(nodes@.take(nodes@.len() as int) =~= nodes@);
    }
    Some(total)
}

} // verus!
