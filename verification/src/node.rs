//! [`Node`] — a single element (or text run) in the document tree — and
//! [`NodeType`], its schema-bound descriptor.

use std::sync::Arc;
use vstd::prelude::*;

use crate::attrs::{Attrs, AttrsV};
use crate::fragment::Fragment;
use crate::mark::{Mark, MarkV, marks_view, same_mark_list};
use crate::schema::NodeSpec;
use crate::strutil::{str_eq, char_count, push_str, string_from_chars, sub_chars};

verus! {

#[derive(Debug)]
pub struct NodeTypeInner {
    pub(crate) id: usize,
    pub(crate) name: String,
    pub(crate) spec: NodeSpec,
    pub(crate) groups: Vec<String>,
    pub(crate) is_text: bool,
    /// `true` when the compiled content expression accepts no children.
    pub(crate) content_is_empty: bool,
}

/// A schema-bound node type. Cheap to clone; identity is by schema id.
#[derive(Debug)]
pub struct NodeType(pub(crate) Arc<NodeTypeInner>);

impl NodeType {
    pub open(crate) spec fn spec_id(self) -> usize {
        self.0.id
    }

    pub open(crate) spec fn spec_name(self) -> Seq<char> {
        self.0.name@
    }

    pub open(crate) spec fn spec_decl(self) -> NodeSpec {
        self.0.spec
    }

    pub open(crate) spec fn spec_is_text(self) -> bool {
        self.0.is_text
    }

    pub open(crate) spec fn spec_is_inline(self) -> bool {
        self.0.is_text || self.0.spec.inline
    }

    pub open(crate) spec fn spec_is_leaf(self) -> bool {
        self.0.content_is_empty
    }

    pub open(crate) spec fn spec_groups(self) -> Seq<Seq<char>> {
        Seq::new(self.0.groups@.len(), |i: int| self.0.groups@[i]@)
    }

    /// The type's unique name within its schema.
    pub fn name(&self) -> (r: &str)
        ensures
            r@ == self.spec_name(),
    {
        self.0.name.as_str()
    }

    /// The schema-assigned id (stable for the lifetime of the schema).
    pub fn id(&self) -> (r: usize)
        ensures
            r == self.spec_id(),
    {
        self.0.id
    }

    /// The spec this type was built from.
    pub fn spec(&self) -> (r: &NodeSpec)
        ensures
            *r == self.spec_decl(),
    {
        &self.0.spec
    }

    /// Whether this is the text node type.
    pub fn is_text(&self) -> (r: bool)
        ensures
            r == self.spec_is_text(),
    {
        self.0.is_text
    }

    /// Whether this type is inline (text, or a spec marked `inline`).
    pub fn is_inline(&self) -> (r: bool)
        ensures
            r == self.spec_is_inline(),
    {
        self.0.is_text || self.0.spec.inline
    }

    /// Whether this type is a block (the negation of `is_inline`).
    pub fn is_block(&self) -> (r: bool)
        ensures
            r == !self.spec_is_inline(),
    {
        !self.is_inline()
    }

    /// Whether this type never has content (a leaf such as an image, or any
    /// node whose content expression accepts nothing).
    pub fn is_leaf(&self) -> (r: bool)
        ensures
            r == self.spec_is_leaf(),
    {
        self.0.content_is_empty
    }

    /// Whether this type is treated as a single opaque unit (`atom` in the
    /// spec, or any leaf).
    pub fn is_atom(&self) -> (r: bool)
        ensures
            r == (self.spec_decl().atom || self.spec_is_leaf()),
    {
        self.0.spec.atom || self.0.content_is_empty
    }

    /// Whether this type belongs to content group `group`.
    pub fn is_in_group(&self, group: &str) -> (r: bool)
        ensures
            r == self.spec_groups().contains(group@),
    {
        let mut i: usize = 0;
        while i < self.0.groups.len()
            invariant
                i <= self.0.groups.len(),
                forall|j: int| 0 <= j < i ==> self.0.groups@[j]@ != group@,
            decreases self.0.groups.len() - i,
        {
            if str_eq(self.0.groups[i].as_str(), group) {
                proof {
                    assert(self.spec_groups()[i as int] == group@);
                }
                return true;
            }
            i = i + 1;
        }
        proof {
            if self.spec_groups().contains(group@) {
                let j = choose|j: int| 0 <= j < self.spec_groups().len() && self.spec_groups()[j] == group@;
                assert(self.0.groups@[j]@ == group@);
            }
        }
        false
    }
}

impl Clone for NodeType {
    fn clone(&self) -> (r: Self)
        ensures
            r == *self,
    {
        NodeType(Arc::clone(&self.0))
    }
}

impl PartialEq for NodeType {
    fn eq(&self, other: &Self) -> (r: bool) {
        self.0.id == other.0.id
    }
}

impl vstd::std_specs::cmp::PartialEqSpecImpl for NodeType {
    open spec fn obeys_eq_spec() -> bool {
        true
    }

    open spec fn eq_spec(&self, other: &NodeType) -> bool {
        self.spec_id() == other.spec_id()
    }
}

impl Eq for NodeType {}

#[derive(Debug)]
pub struct NodeInner {
    pub(crate) type_: NodeType,
    pub(crate) attrs: Attrs,
    pub(crate) content: Fragment,
    pub(crate) marks: Vec<Mark>,
    /// `Some` only for text nodes.
    pub(crate) text: Option<String>,
}

/// A node in the document tree: an element with attributes, child content and
/// marks, or — when [`is_text`](Node::is_text) — a marked text run.
///
/// A text node's size is its length in characters; a non-text leaf has
/// size 1; any other node has size `content.size + 2`.
#[derive(Debug)]
pub struct Node(pub(crate) Arc<NodeInner>);

/// The summed size of a run of sibling nodes.
pub open spec fn nodes_size(s: Seq<Node>) -> nat
    decreases s,
{
    if s.len() == 0 {
        0
    } else {
        proof {
            assert(decreases_to!(s => s.drop_last()));
            assert(decreases_to!(s => s[s.len() - 1]));
        }
        nodes_size(s.drop_last()) + s.last().spec_size()
    }
}

/// A prefix of a run is no larger than the run.
pub proof fn lemma_nodes_size_prefix(s: Seq<Node>, k: int)
    requires
        0 <= k <= s.len(),
    ensures
        nodes_size(s.take(k)) <= nodes_size(s),
    decreases s.len() - k,
{
    if k < s.len() {
        lemma_nodes_size_prefix(s, k + 1);
        assert(s.take(k + 1).drop_last() =~= s.take(k));
    } else {
        assert(s.take(k) =~= s);
    }
}

/// The size of a concatenation is the sum of the sizes.
pub proof fn lemma_nodes_size_add(a: Seq<Node>, b: Seq<Node>)
    ensures
        nodes_size(a + b) == nodes_size(a) + nodes_size(b),
    decreases b.len(),
{
    if b.len() == 0 {
        assert(a + b =~= a);
    } else {
        assert((a + b).drop_last() =~= a + b.drop_last());
        lemma_nodes_size_add(a, b.drop_last());
    }
}

/// Structural equality of two trees: same types, attributes, marks, text,
/// and pairwise-equal children.
pub open spec fn node_equiv(a: Node, b: Node) -> bool
    decreases a, a.spec_children().len() + 1,
{
    &&& a.spec_type_id() == b.spec_type_id()
    &&& a.spec_attrs() == b.spec_attrs()
    &&& marks_view(a.spec_marks()) == marks_view(b.spec_marks())
    &&& a.spec_text() == b.spec_text()
    &&& a.spec_children().len() == b.spec_children().len()
    &&& children_equiv(a, b, a.spec_children().len() as int)
}

/// The first `k` children of `a` and `b` are pairwise equivalent.
pub open spec fn children_equiv(a: Node, b: Node, k: int) -> bool
    decreases a, k,
{
    if k <= 0 || k > a.spec_children().len() {
        true
    } else {
        proof {
            assert(decreases_to!(a => a.spec_children()[k - 1]));
        }
        children_equiv(a, b, k - 1) && node_equiv(a.spec_children()[k - 1], b.spec_children()[k - 1])
    }
}

/// A failing prefix stays failing when extended.
proof fn lemma_children_equiv_prefix(a: Node, b: Node, j: int, k: int)
    requires
        0 <= j <= k <= a.spec_children().len(),
        children_equiv(a, b, k),
    ensures
        children_equiv(a, b, j),
    decreases k - j,
{
    if j < k {
        lemma_children_equiv_prefix(a, b, j, k - 1);
    }
}

/// The concatenated text of a tree.
pub open spec fn text_of(n: Node) -> Seq<char>
    decreases n, n.spec_children().len() + 1,
{
    match n.spec_text() {
        Some(t) => t,
        None => children_text(n, n.spec_children().len() as int),
    }
}

/// The concatenated text of the first `k` children of `n`.
pub open spec fn children_text(n: Node, k: int) -> Seq<char>
    decreases n, k,
{
    if k <= 0 || k > n.spec_children().len() {
        Seq::empty()
    } else {
        proof {
            assert(decreases_to!(n => n.spec_children()[k - 1]));
        }
        children_text(n, k - 1) + text_of(n.spec_children()[k - 1])
    }
}

impl Node {
    /// Text nodes have no children; sizes fit; attributes are well formed.
    #[verifier::type_invariant]
    pub(crate) closed spec fn inv(self) -> bool {
        self.wf()
    }

    /// Text nodes have no children; sizes fit; attributes are well formed.
    pub open(crate) spec fn wf(self) -> bool {
        &&& self.0.text is Some ==> self.0.content.spec_children().len() == 0
        &&& self.0.content.spec_size() + 2 <= usize::MAX
        &&& self.0.attrs.wf()
        &&& self.spec_size() <= usize::MAX
    }

    /// The type invariant, for callers in other modules.
    pub(crate) fn check_wf(&self)
        ensures
            self.wf(),
    {
        proof {
            use_type_invariant(self);
        }
    }

    pub open(crate) spec fn spec_type(self) -> NodeType {
        self.0.type_
    }

    pub open(crate) spec fn spec_type_id(self) -> usize {
        self.0.type_.0.id
    }

    pub open(crate) spec fn spec_attrs(self) -> AttrsV {
        self.0.attrs@
    }

    pub open(crate) spec fn spec_content(self) -> Fragment {
        self.0.content
    }

    pub open(crate) spec fn spec_children(self) -> Seq<Node> {
        self.0.content.spec_children()
    }

    pub open(crate) spec fn spec_marks(self) -> Seq<Mark> {
        self.0.marks@
    }

    pub open(crate) spec fn spec_text(self) -> Option<Seq<char>> {
        match self.0.text {
            Some(t) => Some(t@),
            None => None,
        }
    }

    pub open(crate) spec fn spec_is_text(self) -> bool {
        self.0.text is Some
    }

    /// The number of positions this node occupies in its parent.
    pub open(crate) spec fn spec_size(self) -> nat
        decreases self,
    {
        match self.0.text {
            Some(t) => t@.len(),
            None => if self.0.type_.0.content_is_empty {
                1
            } else {
                proof {
                    assert(decreases_to!(self => self.0.content.0.content@));
                }
                nodes_size(self.0.content.0.content@) + 2
            },
        }
    }

    pub(crate) fn new_element(type_: NodeType, attrs: Attrs, content: Fragment, marks: Vec<Mark>) -> (r: Node)
        requires
            content.spec_size() + 2 <= usize::MAX,
            attrs.wf(),
        ensures
            r.spec_type() == type_,
            r.spec_attrs() == attrs@,
            r.spec_content() == content,
            r.spec_marks() == marks@,
            r.spec_text() is None,
    {
        Node(Arc::new(NodeInner { type_, attrs, content, marks, text: None }))
    }

    pub(crate) fn new_text(type_: NodeType, text: String, marks: Vec<Mark>) -> (r: Node)
        ensures
            r.spec_type() == type_,
            r.spec_attrs() == Seq::<(Seq<char>, crate::attrs::AttrValueV)>::empty(),
            r.spec_children() == Seq::<Node>::empty(),
            r.spec_marks() == marks@,
            r.spec_text() == Some(text@),
    {
        let _ = char_count(text.as_str());
        let content = Fragment::empty();
        Node(Arc::new(NodeInner { type_, attrs: Attrs::new(), content, marks, text: Some(text) }))
    }

    /// This node's type.
    pub fn node_type(&self) -> (r: &NodeType)
        ensures
            *r == self.spec_type(),
    {
        &self.0.type_
    }

    /// This node's attributes.
    pub fn attrs(&self) -> (r: &Attrs)
        ensures
            r@ == self.spec_attrs(),
            r.wf(),
    {
        proof {
            use_type_invariant(self);
        }
        &self.0.attrs
    }

    /// This node's child fragment (empty for text and leaf nodes).
    pub fn content(&self) -> (r: &Fragment)
        ensures
            *r == self.spec_content(),
    {
        &self.0.content
    }

    /// The marks applied to this node.
    pub fn marks(&self) -> (r: &[Mark])
        ensures
            r@ == self.spec_marks(),
    {
        self.0.marks.as_slice()
    }

    /// The text of a text node, or `None` for element nodes.
    pub fn text(&self) -> (r: Option<&str>)
        ensures
            match r {
                Some(t) => self.spec_text() == Some(t@),
                None => self.spec_text() is None,
            },
    {
        match &self.0.text {
            Some(t) => Some(t.as_str()),
            None => None,
        }
    }

    /// Whether this is a text node.
    pub fn is_text(&self) -> (r: bool)
        ensures
            r == self.spec_is_text(),
    {
        self.0.text.is_some()
    }

    /// Whether this node is a leaf (its type accepts no content).
    pub fn is_leaf(&self) -> (r: bool)
        ensures
            r == self.spec_type().spec_is_leaf(),
    {
        self.0.type_.is_leaf()
    }

    /// Whether this node is inline.
    pub fn is_inline(&self) -> (r: bool)
        ensures
            r == self.spec_type().spec_is_inline(),
    {
        self.0.type_.is_inline()
    }

    /// Whether this node is a block.
    pub fn is_block(&self) -> (r: bool)
        ensures
            r == !self.spec_type().spec_is_inline(),
    {
        self.0.type_.is_block()
    }

    /// Number of direct children.
    pub fn child_count(&self) -> (r: usize)
        ensures
            r == self.spec_children().len(),
    {
        self.0.content.child_count()
    }

    /// Borrow the child at index `i`.
    pub fn child(&self, i: usize) -> (r: &Node)
        requires
            i < self.spec_children().len(),
        ensures
            *r == self.spec_children()[i as int],
    {
        self.0.content.child(i)
    }

    /// The number of positions this node occupies in its parent.
    pub fn node_size(&self) -> (r: usize)
        ensures
            r == self.spec_size(),
    {
        proof {
            use_type_invariant(self);
        }
        match &self.0.text {
            Some(t) => char_count(t.as_str()),
            None => {
                if self.0.type_.0.content_is_empty {
                    1
                } else {
                    self.0.content.size() + 2
                }
            },
        }
    }

    /// The concatenated text of this node and its descendants.
    pub fn text_content(&self) -> (r: String)
        ensures
            r@ == text_of(*self),
    {
        let mut out: Vec<char> = Vec::new();
        self.collect_text(&mut out);
        string_from_chars(&out)
    }

    fn collect_text(&self, out: &mut Vec<char>)
        ensures
            final(out)@ == old(out)@ + text_of(*self),
        decreases *self,
    {
        match &self.0.text {
            Some(t) => {
                push_str(out, t.as_str());
            },
            None => {
                let ghost start = out@;
                let children = self.0.content.children();
                let mut i: usize = 0;
                while i < children.len()
                    invariant
                        i <= children.len(),
                        children@ == self.spec_children(),
                        self.spec_text() is None,
                        out@ == start + children_text(*self, i as int),
                    decreases children.len() - i,
                {
                    proof {
                        assert(decreases_to!(*self => self.spec_children()[i as int]));
                    }
                    children[i].collect_text(out);
                    i = i + 1;
                    proof {
                        assert(start + children_text(*self, i as int) =~= start + children_text(*self, i - 1)
                            + text_of(self.spec_children()[i - 1]));
                    }
                }
            },
        }
    }

    /// A copy of this node with `marks` as its mark set.
    pub fn with_marks(&self, marks: Vec<Mark>) -> (r: Node)
        ensures
            r.spec_type() == self.spec_type(),
            r.spec_attrs() == self.spec_attrs(),
            r.spec_content() == self.spec_content(),
            r.spec_text() == self.spec_text(),
            r.spec_marks() == marks@,
    {
        proof {
            use_type_invariant(self);
        }
        let inner = &*self.0;
        Node(Arc::new(NodeInner {
            type_: inner.type_.clone(),
            attrs: inner.attrs.clone(),
            content: inner.content.clone(),
            marks,
            text: clone_text(&inner.text),
        }))
    }

    /// A copy with the same type, attributes and marks but `content`. Not
    /// schema-validated.
    pub(crate) fn copy_content(&self, content: Fragment) -> (r: Node)
        requires
            content.spec_size() + 2 <= usize::MAX,
        ensures
            r.spec_type() == self.spec_type(),
            r.spec_attrs() == self.spec_attrs(),
            marks_view(r.spec_marks()) == marks_view(self.spec_marks()),
            r.spec_content() == content,
            r.spec_text() is None,
    {
        proof {
            use_type_invariant(self);
        }
        let inner = &*self.0;
        Node(Arc::new(NodeInner {
            type_: inner.type_.clone(),
            attrs: inner.attrs.clone(),
            content,
            marks: crate::mark::clone_marks(inner.marks.as_slice()),
            text: None,
        }))
    }

    /// A text node with this node's type and marks carrying `text`.
    pub(crate) fn with_text(&self, text: String) -> (r: Node)
        ensures
            r.spec_type() == self.spec_type(),
            marks_view(r.spec_marks()) == marks_view(self.spec_marks()),
            r.spec_text() == Some(text@),
            r.spec_children() == Seq::<Node>::empty(),
            r.spec_attrs() == Seq::<(Seq<char>, crate::attrs::AttrValueV)>::empty(),
    {
        Node::new_text(self.0.type_.clone(), text, crate::mark::clone_marks(self.0.marks.as_slice()))
    }

    /// Whether two nodes have the same type, attributes and marks, so that
    /// adjacent text runs can be merged.
    pub(crate) fn same_markup(&self, other: &Node) -> (r: bool)
        ensures
            r == (self.spec_type_id() == other.spec_type_id() && self.spec_attrs() == other.spec_attrs()
                && marks_view(self.spec_marks()) == marks_view(other.spec_marks())),
    {
        self.0.type_.0.id == other.0.type_.0.id && self.0.attrs.same_attrs(&other.0.attrs)
            && same_mark_list(self.0.marks.as_slice(), other.0.marks.as_slice())
    }

    /// A copy with `attrs` replacing the current attribute map.
    pub(crate) fn with_attrs(&self, attrs: Attrs) -> (r: Node)
        requires
            attrs.wf(),
        ensures
            r.spec_type() == self.spec_type(),
            r.spec_attrs() == attrs@,
            r.spec_content() == self.spec_content(),
            r.spec_text() == self.spec_text(),
            marks_view(r.spec_marks()) == marks_view(self.spec_marks()),
    {
        proof {
            use_type_invariant(self);
        }
        let inner = &*self.0;
        Node(Arc::new(NodeInner {
            type_: inner.type_.clone(),
            attrs,
            content: inner.content.clone(),
            marks: crate::mark::clone_marks(inner.marks.as_slice()),
            text: clone_text(&inner.text),
        }))
    }

    /// The part of this node between `from` and `to`, positions counted
    /// inside it: a text node keeps the characters in that range (`to` is
    /// clamped to its length); an element keeps its markup around the cut
    /// content, and is returned as is when the range covers all of it.
    pub(crate) fn cut(&self, from: usize, to: usize) -> (r: Node)
        requires
            self.spec_is_text() ==> from <= to && from <= self.spec_size(),
        ensures
            r.spec_type() == self.spec_type(),
            !self.spec_is_text() ==> r.spec_attrs() == self.spec_attrs(),
            marks_view(r.spec_marks()) == marks_view(self.spec_marks()),
            r.spec_size() <= self.spec_size(),
            match self.spec_text() {
                Some(t) => r.spec_text() == Some(t.subrange(from as int, if to <= t.len() { to as int } else { t.len() as int })),
                None => r.spec_text() is None
                    && (from == 0 && to == self.spec_content().spec_size() ==> r == *self)
                    && (to <= from && !(from == 0 && to == self.spec_content().spec_size()) ==> r.spec_children().len() == 0)
                    && (from < to && !(from == 0 && to == self.spec_content().spec_size()) ==> cut_run(self.spec_children(),
                        from as int, to as int, self.spec_children().len() as int, r.spec_children())),
            },
        decreases *self, 1nat,
    {
        proof {
            use_type_invariant(self);
        }
        match &self.0.text {
            Some(t) => {
                let len = char_count(t.as_str());
                let end = if to <= len { to } else { len };
                if from == 0 && end == len {
                    proof {
                        assert(t@.subrange(0, len as int) =~= t@);
                    }
                    return self.clone();
                }
                let piece = sub_chars(t.as_str(), from, end);
                self.with_text(piece)
            },
            None => {
                if from == 0 && to == self.0.content.size() {
                    return self.clone();
                }
                proof {
                    assert(decreases_to!(*self => self.0.content.0.content@));
                }
                let pieces = cut_nodes(self.0.content.children(), from, to);
                let content = Fragment::from_nodes(pieces);
                self.copy_content(content)
            },
        }
    }

    /// Structural equality (see [`node_equiv`]).
    pub fn same_node(&self, other: &Node) -> (r: bool)
        ensures
            r == node_equiv(*self, *other),
        decreases *self,
    {
        if self.0.type_.0.id != other.0.type_.0.id {
            return false;
        }
        if !self.0.attrs.same_attrs(&other.0.attrs) {
            return false;
        }
        if !same_mark_list(self.0.marks.as_slice(), other.0.marks.as_slice()) {
            return false;
        }
        if !same_text(&self.0.text, &other.0.text) {
            return false;
        }
        let a = self.0.content.children();
        let b = other.0.content.children();
        if a.len() != b.len() {
            return false;
        }
        let mut i: usize = 0;
        while i < a.len()
            invariant
                i <= a.len(),
                a.len() == b.len(),
                a@ == self.spec_children(),
                b@ == other.spec_children(),
                children_equiv(*self, *other, i as int),
            decreases a.len() - i,
        {
            proof {
                assert(decreases_to!(*self => self.spec_children()[i as int]));
            }
            if !a[i].same_node(&b[i]) {
                proof {
                    assert(!children_equiv(*self, *other, i as int + 1));
                    if children_equiv(*self, *other, a.len() as int) {
                        lemma_children_equiv_prefix(*self, *other, i as int + 1, a.len() as int);
                    }
                }
                return false;
            }
            i = i + 1;
        }
        true
    }
}

/// Whether child `i` of the run `c` overlaps the range `from..to`.
pub open spec fn overlaps(c: Seq<Node>, i: int, from: int, to: int) -> bool {
    nodes_size(c.take(i)) < to && nodes_size(c.take(i)) + c[i].spec_size() > from
}

/// The indices of the first `n` children of `c` that overlap `from..to`,
/// in order.
pub open spec fn cut_indices(c: Seq<Node>, from: int, to: int, n: int) -> Seq<int>
    decreases n,
{
    if n <= 0 {
        Seq::empty()
    } else {
        cut_indices(c, from, to, n - 1) + if overlaps(c, n - 1, from, to) { seq![n - 1] } else { Seq::empty() }
    }
}

/// Whether `p` is what a cut of `from..to` keeps of `child`, which starts
/// at `pos` in its run: the child itself when the range covers it, else a
/// node of its type and marks holding the covered part (for a text node,
/// the covered characters; for an element, its attributes).
pub open spec fn cut_piece(child: Node, pos: int, from: int, to: int, p: Node) -> bool {
    if pos >= from && pos + child.spec_size() <= to {
        p == child
    } else {
        &&& p.spec_type() == child.spec_type()
        &&& marks_view(p.spec_marks()) == marks_view(child.spec_marks())
        &&& match child.spec_text() {
            Some(t) => p.spec_text() == Some(t.subrange(
                if from > pos { from - pos } else { 0 },
                if to - pos < t.len() { to - pos } else { t.len() as int },
            )),
            None => p.spec_text() is None && p.spec_attrs() == child.spec_attrs(),
        }
    }
}

/// Whether `r` holds, in order, what a cut of `from..to` keeps of each of
/// the first `n` children of `c` that overlap the range.
pub open spec fn cut_run(c: Seq<Node>, from: int, to: int, n: int, r: Seq<Node>) -> bool {
    let idx = cut_indices(c, from, to, n);
    &&& r.len() == idx.len()
    &&& forall|k: int| 0 <= k < r.len() ==> #[trigger] cut_piece(c[idx[k]], nodes_size(c.take(idx[k])) as int, from, to, r[k])
}

/// Children starting at or after `to` overlap nothing: the indices stop
/// growing once a child starts there.
proof fn lemma_cut_indices_stop(c: Seq<Node>, from: int, to: int, i: int, n: int)
    requires
        0 <= i <= n <= c.len(),
        nodes_size(c.take(i)) >= to,
    ensures
        cut_indices(c, from, to, n) == cut_indices(c, from, to, i),
    decreases n - i,
{
    if n > i {
        lemma_cut_indices_stop(c, from, to, i, n - 1);
        crate::fragment::lemma_prefix_mono(c, i, n - 1);
        assert(!overlaps(c, n - 1, from, to));
        assert(cut_indices(c, from, to, n) =~= cut_indices(c, from, to, n - 1));
    }
}

/// How much of `from..to` lies before position `p`.
pub open spec fn covered(from: int, to: int, p: int) -> int {
    if p <= from { 0 } else if p >= to { to - from } else { p - from }
}

/// The indices that overlap up to `n` come first among those up to `m`.
proof fn lemma_cut_indices_prefix(c: Seq<Node>, from: int, to: int, n: int, m: int)
    requires
        0 <= n <= m,
    ensures
        cut_indices(c, from, to, n).len() <= cut_indices(c, from, to, m).len(),
        forall|k: int| 0 <= k < cut_indices(c, from, to, n).len() ==>
            #[trigger] cut_indices(c, from, to, m)[k] == cut_indices(c, from, to, n)[k],
        forall|k: int| 0 <= k < cut_indices(c, from, to, m).len() ==> 0 <= #[trigger] cut_indices(c, from, to, m)[k] < m,
    decreases m - n,
{
    if n < m {
        lemma_cut_indices_prefix(c, from, to, n, m - 1);
        let a = cut_indices(c, from, to, m - 1);
        assert(cut_indices(c, from, to, m) == a + if overlaps(c, m - 1, from, to) { seq![m - 1] } else { Seq::<int>::empty() });
    } else {
        lemma_cut_indices_bounds(c, from, to, m);
    }
}

/// The indices that overlap up to `m` are below `m`.
proof fn lemma_cut_indices_bounds(c: Seq<Node>, from: int, to: int, m: int)
    ensures
        forall|k: int| 0 <= k < cut_indices(c, from, to, m).len() ==> 0 <= #[trigger] cut_indices(c, from, to, m)[k] < m,
    decreases m,
{
    if m > 0 {
        lemma_cut_indices_bounds(c, from, to, m - 1);
        let a = cut_indices(c, from, to, m - 1);
        let extra = if overlaps(c, m - 1, from, to) { seq![m - 1] } else { Seq::<int>::empty() };
        assert(cut_indices(c, from, to, m) == a + extra);
        assert forall|k: int| 0 <= k < cut_indices(c, from, to, m).len() implies 0 <= #[trigger] cut_indices(c, from, to, m)[k] < m by {
            if k < a.len() {
                assert(cut_indices(c, from, to, m)[k] == a[k]);
            } else {
                assert(cut_indices(c, from, to, m)[k] == extra[k - a.len()]);
            }
        }
    }
}

/// Cutting a run of text nodes keeps exactly the characters in the range:
/// the pieces fill `to - from` positions.
pub proof fn law_text_cut_size(c: Seq<Node>, from: int, to: int, r: Seq<Node>)
    requires
        forall|i: int| 0 <= i < c.len() ==> (#[trigger] c[i]).spec_text() is Some,
        0 <= from < to <= nodes_size(c),
        cut_run(c, from, to, c.len() as int, r),
    ensures
        nodes_size(r) == to - from,
{
    let len = c.len() as int;
    lemma_text_cut_size_upto(c, from, to, r, len);
    let idx = cut_indices(c, from, to, len);
    assert(r.take(idx.len() as int) =~= r);
    assert(c.take(len) =~= c);
}

/// The pieces cut from the first `n` text nodes fill the part of the range
/// before the end of the `n`th.
proof fn lemma_text_cut_size_upto(c: Seq<Node>, from: int, to: int, r: Seq<Node>, n: int)
    requires
        forall|i: int| 0 <= i < c.len() ==> (#[trigger] c[i]).spec_text() is Some,
        0 <= from < to,
        cut_run(c, from, to, c.len() as int, r),
        0 <= n <= c.len(),
    ensures
        cut_indices(c, from, to, n).len() <= r.len(),
        nodes_size(r.take(cut_indices(c, from, to, n).len() as int)) == covered(from, to, nodes_size(c.take(n)) as int),
    decreases n,
{
    let len = c.len() as int;
    lemma_cut_indices_prefix(c, from, to, n, len);
    if n == 0 {
        assert(r.take(0) =~= Seq::<Node>::empty());
        assert(c.take(0) =~= Seq::<Node>::empty());
    } else {
        lemma_text_cut_size_upto(c, from, to, r, n - 1);
        lemma_cut_indices_prefix(c, from, to, n - 1, len);
        let a = cut_indices(c, from, to, n - 1);
        let b = cut_indices(c, from, to, n);
        let i = n - 1;
        let p0 = nodes_size(c.take(i)) as int;
        assert(c.take(n).drop_last() =~= c.take(i));
        let p1 = nodes_size(c.take(n)) as int;
        assert(p1 == p0 + c[i].spec_size());
        if overlaps(c, i, from, to) {
            assert(b == a.push(i));
            let k = a.len() as int;
            assert(cut_indices(c, from, to, len)[k] == b[k]);
            assert(cut_piece(c[i], p0, from, to, r[k]));
            assert(r.take(k + 1).drop_last() =~= r.take(k));
            let t = c[i].spec_text()->0;
            assert(c[i].spec_size() == t.len());
            if !(p0 >= from && p0 + c[i].spec_size() <= to) {
                assert(r[k].spec_size() == r[k].spec_text()->0.len());
            }
        } else {
            assert(b =~= a);
        }
    }
}

/// The nodes of `children` that overlap the range `from..to` (positions
/// counted from the start of the run), the ones cut by a boundary replaced
/// by their cut parts.
pub(crate) fn cut_nodes(children: &[Node], from: usize, to: usize) -> (r: Vec<Node>)
    requires
        nodes_size(children@) <= usize::MAX,
    ensures
        nodes_size(r@) <= nodes_size(children@),
        to <= from ==> r@.len() == 0,
        from < to ==> cut_run(children@, from as int, to as int, children@.len() as int, r@),
    decreases children@, 0nat,
{
    let mut result: Vec<Node> = Vec::new();
    if to <= from {
        return result;
    }
    let mut pos: usize = 0;
    let mut i: usize = 0;
    while i < children.len() && pos < to
        invariant
            i <= children@.len(),
            from < to,
            nodes_size(children@) <= usize::MAX,
            pos == nodes_size(children@.take(i as int)),
            nodes_size(result@) <= pos,
            cut_run(children@, from as int, to as int, i as int, result@),
        decreases children.len() - i,
    {
        let child = &children[i];
        proof {
            assert(children@.take(i as int + 1).drop_last() =~= children@.take(i as int));
            lemma_nodes_size_prefix(children@, i as int + 1);
            use_type_invariant(child);
        }
        let size = child.node_size();
        let end = pos + size;
        if end > from {
            let piece = if pos < from || end > to {
                if child.is_text() {
                    let a = if from > pos { from - pos } else { 0 };
                    let b = if to - pos < size { to - pos } else { size };
                    child.cut(a, b)
                } else {
                    let csize = child.0.content.size();
                    let a = if from > pos + 1 { from - (pos + 1) } else { 0 };
                    let b = if to - pos - 1 < csize { to - pos - 1 } else { csize };
                    proof {
                        assert(decreases_to!(children@ => children@[i as int]));
                    }
                    child.cut(a, b)
                }
            } else {
                child.clone()
            };
            let ghost prev = result@;
            result.push(piece);
            proof {
                assert(result@.drop_last() =~= prev);
                let c = children@;
                assert(overlaps(c, i as int, from as int, to as int));
                assert(cut_indices(c, from as int, to as int, i as int + 1)
                    =~= cut_indices(c, from as int, to as int, i as int).push(i as int));
                assert(cut_piece(c[i as int], pos as int, from as int, to as int, piece));
                let idx = cut_indices(c, from as int, to as int, i as int + 1);
                assert forall|k: int| 0 <= k < result@.len() implies #[trigger] cut_piece(c[idx[k]], nodes_size(c.take(idx[k])) as int,
                    from as int, to as int, result@[k]) by {
                    if k < prev.len() {
                        assert(idx[k] == cut_indices(c, from as int, to as int, i as int)[k]);
                        assert(result@[k] == prev[k]);
                    }
                }
            }
        } else {
            proof {
                let c = children@;
                assert(!overlaps(c, i as int, from as int, to as int));
                assert(cut_indices(c, from as int, to as int, i as int + 1) =~= cut_indices(c, from as int, to as int, i as int));
            }
        }
        pos = end;
        i = i + 1;
    }
    proof {
        lemma_nodes_size_prefix(children@, i as int);
        if i < children@.len() {
            lemma_cut_indices_stop(children@, from as int, to as int, i as int, children@.len() as int);
        }
    }
    result
}

fn same_text(a: &Option<String>, b: &Option<String>) -> (r: bool)
    ensures
        r == (match (*a, *b) {
            (Some(x), Some(y)) => x@ == y@,
            (None, None) => true,
            _ => false,
        }),
{
    match a {
        Some(x) => match b {
            Some(y) => str_eq(x.as_str(), y.as_str()),
            None => false,
        },
        None => b.is_none(),
    }
}

fn clone_text(t: &Option<String>) -> (r: Option<String>)
    ensures
        r == *t,
{
    match t {
        Some(s) => Some(s.clone()),
        None => None,
    }
}

impl Clone for Node {
    fn clone(&self) -> (r: Self)
        ensures
            r == *self,
    {
        proof {
            use_type_invariant(self);
        }
        Node(Arc::clone(&self.0))
    }
}

impl PartialEq for Node {
    fn eq(&self, other: &Self) -> (r: bool) {
        self.same_node(other)
    }
}

impl vstd::std_specs::cmp::PartialEqSpecImpl for Node {
    open spec fn obeys_eq_spec() -> bool {
        true
    }

    open spec fn eq_spec(&self, other: &Node) -> bool {
        node_equiv(*self, *other)
    }
}

impl Eq for Node {}

} // verus!
