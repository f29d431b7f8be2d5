//! What setting one attribute of a node inside a tree means, and why
//! setting it back to its old value restores the tree.

use vstd::prelude::*;

use crate::attrs::{attrs_lookup, keys_sorted, lemma_sorted_ext, AttrValueV};
use crate::fragment::prefix_size;
use crate::mark::marks_view;
use crate::node::{children_equiv, node_equiv, nodes_size, Node};

verus! {

/// Child `i` is where position `pos` falls among `children`: the first child
/// that starts at `pos` or contains it, or the end when `pos` lies past
/// every child.
pub open spec fn find_ok(children: Seq<Node>, pos: int, i: int) -> bool {
    &&& 0 <= i <= children.len()
    &&& prefix_size(children, i) <= pos
    &&& (prefix_size(children, i) == pos
        || (i < children.len() && pos < prefix_size(children, i) + children[i].spec_size())
        || (i == children.len() && pos > prefix_size(children, i)))
    &&& forall|k: int| 0 <= k < i ==> pos > #[trigger] prefix_size(children, k)
}

/// The child index position `pos` falls at among `children`.
pub open spec fn found_index(children: Seq<Node>, pos: int) -> int {
    choose|i: int| find_ok(children, pos, i)
}

/// The node starting at `pos` inside `n` (a text node is found at any
/// position inside it).
pub open spec fn node_at_spec(n: Node, pos: int) -> Option<Node>
    decreases n,
{
    let c = n.spec_children();
    let i = found_index(c, pos);
    if !(0 <= i < c.len()) {
        None
    } else if prefix_size(c, i) == pos || c[i].spec_is_text() {
        Some(c[i])
    } else {
        proof {
            assert(decreases_to!(n => n.spec_children()[i]));
        }
        node_at_spec(c[i], pos - prefix_size(c, i) - 1)
    }
}

/// Whether a node starts at `pos` inside `n` (a position inside a text
/// node is no node's start).
pub open spec fn node_starts_at(n: Node, pos: int) -> bool
    decreases n,
{
    let c = n.spec_children();
    let i = found_index(c, pos);
    if !(0 <= i < c.len()) {
        false
    } else if prefix_size(c, i) == pos {
        true
    } else {
        proof {
            assert(decreases_to!(n => n.spec_children()[i]));
        }
        node_starts_at(c[i], pos - prefix_size(c, i) - 1)
    }
}

/// `b` is `a` with attribute `key` set to `v`; everything else is the same.
pub open spec fn attr_set_one(a: Node, b: Node, key: Seq<char>, v: AttrValueV) -> bool {
    &&& a.spec_type() == b.spec_type()
    &&& keys_sorted(a.spec_attrs())
    &&& keys_sorted(b.spec_attrs())
    &&& forall|k: Seq<char>| #[trigger] attrs_lookup(b.spec_attrs(), k) == (if k == key {
        Some(v)
    } else {
        attrs_lookup(a.spec_attrs(), k)
    })
    &&& marks_view(a.spec_marks()) == marks_view(b.spec_marks())
    &&& a.spec_text() == b.spec_text()
    &&& a.spec_children() == b.spec_children()
}

/// `b` is `a` with attribute `key` of the node starting at `pos` (counted
/// inside `a`) set to `v`; everything else is the same.
pub open spec fn attr_changed(a: Node, b: Node, pos: int, key: Seq<char>, v: AttrValueV) -> bool
    decreases a,
{
    let c = a.spec_children();
    let i = found_index(c, pos);
    let off = prefix_size(c, i);
    if !(0 <= i < c.len()) {
        false
    } else {
        &&& find_ok(c, pos, i)
        &&& a.spec_type() == b.spec_type()
        &&& a.spec_attrs() == b.spec_attrs()
        &&& marks_view(a.spec_marks()) == marks_view(b.spec_marks())
        &&& a.spec_text() == b.spec_text()
        &&& b.spec_children().len() == c.len()
        &&& b.spec_children() == c.update(i, b.spec_children()[i])
        &&& if off == pos {
            attr_set_one(c[i], b.spec_children()[i], key, v)
        } else {
            &&& !c[i].spec_is_text()
            &&& {
                proof {
                    assert(decreases_to!(a => a.spec_children()[i]));
                }
                attr_changed(c[i], b.spec_children()[i], pos - off - 1, key, v)
            }
        }
    }
}

/// Two runs of nodes with the same sizes, one by one.
pub open spec fn same_sizes(a: Seq<Node>, b: Seq<Node>) -> bool {
    &&& a.len() == b.len()
    &&& forall|j: int| 0 <= j < a.len() ==> (#[trigger] a[j]).spec_size() == b[j].spec_size()
}

proof fn lemma_prefix_step(c: Seq<Node>, i: int)
    requires
        0 <= i < c.len(),
    ensures
        prefix_size(c, i + 1) == prefix_size(c, i) + c[i].spec_size(),
{
    assert(c.take(i + 1).drop_last() =~= c.take(i));
    assert(c.take(i + 1).last() == c[i]);
}

/// Runs with the same sizes have the same prefix sizes.
proof fn lemma_same_prefix(a: Seq<Node>, b: Seq<Node>, i: int)
    requires
        same_sizes(a, b),
        0 <= i <= a.len(),
    ensures
        prefix_size(a, i) == prefix_size(b, i),
    decreases i,
{
    if i > 0 {
        lemma_same_prefix(a, b, i - 1);
        lemma_prefix_step(a, i - 1);
        lemma_prefix_step(b, i - 1);
    } else {
        assert(a.take(0) =~= Seq::<Node>::empty());
        assert(b.take(0) =~= Seq::<Node>::empty());
    }
}

/// At most one index satisfies [`find_ok`], also across runs with the
/// same sizes.
proof fn lemma_find_unique(a: Seq<Node>, b: Seq<Node>, pos: int, i: int, j: int)
    requires
        same_sizes(a, b),
        find_ok(a, pos, i),
        find_ok(b, pos, j),
    ensures
        i == j,
{
    if i != j {
        let (lo, hi, s, t) = if i < j { (i, j, a, b) } else { (j, i, b, a) };
        assert(same_sizes(s, t));
        lemma_same_prefix(a, b, lo);
        lemma_same_prefix(a, b, hi);
        lemma_same_prefix(a, b, lo + 1);
        lemma_prefix_step(s, lo);
        assert(pos > prefix_size(t, lo));
        if lo + 1 < hi {
            assert(pos > prefix_size(t, lo + 1));
        }
    }
}

/// The index found by [`find_ok`] is [`found_index`].
pub proof fn lemma_found(c: Seq<Node>, pos: int, i: int)
    requires
        find_ok(c, pos, i),
    ensures
        found_index(c, pos) == i,
{
    let j = found_index(c, pos);
    assert(find_ok(c, pos, j));
    lemma_find_unique(c, c, pos, i, j);
}

/// A run has the same sizes as itself with one node swapped for one of the
/// same size.
pub(crate) proof fn lemma_update_sizes(c: Seq<Node>, i: int, x: Node)
    requires
        0 <= i < c.len(),
        x.spec_size() == c[i].spec_size(),
    ensures
        same_sizes(c, c.update(i, x)),
        nodes_size(c.update(i, x)) == nodes_size(c),
{
    lemma_same_prefix(c, c.update(i, x), c.len() as int);
    assert(c.take(c.len() as int) =~= c);
    assert(c.update(i, x).take(c.len() as int) =~= c.update(i, x));
}

/// Changing an attribute keeps the size of the tree.
pub(crate) proof fn lemma_attr_changed_size(a: Node, b: Node, pos: int, key: Seq<char>, v: AttrValueV)
    requires
        attr_changed(a, b, pos, key, v),
    ensures
        a.spec_size() == b.spec_size(),
    decreases a,
{
    let c = a.spec_children();
    let i = found_index(c, pos);
    let x = b.spec_children()[i];
    if prefix_size(c, i) != pos {
        assert(decreases_to!(a => a.spec_children()[i]));
        lemma_attr_changed_size(c[i], x, pos - prefix_size(c, i) - 1, key, v);
    }
    lemma_update_sizes(c, i, x);
}

/// Every tree is equivalent to itself.
pub proof fn lemma_node_equiv_refl(a: Node)
    ensures
        node_equiv(a, a),
    decreases a, a.spec_children().len() + 1,
{
    lemma_children_equiv_refl(a, a, a.spec_children().len() as int);
}

/// Trees with the same children have pairwise-equivalent children.
proof fn lemma_children_equiv_refl(a: Node, b: Node, k: int)
    requires
        a.spec_children() == b.spec_children(),
        k <= a.spec_children().len(),
    ensures
        children_equiv(a, b, k),
    decreases a, k,
{
    if k > 0 {
        assert(decreases_to!(a => a.spec_children()[k - 1]));
        lemma_children_equiv_refl(a, b, k - 1);
        lemma_node_equiv_refl(a.spec_children()[k - 1]);
    }
}

/// Children equivalent one by one are equivalent as a run.
proof fn lemma_children_equiv_pointwise(a: Node, b: Node, k: int)
    requires
        a.spec_children().len() == b.spec_children().len(),
        k <= a.spec_children().len(),
        forall|j: int| 0 <= j < k ==> node_equiv(#[trigger] a.spec_children()[j], b.spec_children()[j]),
    ensures
        children_equiv(a, b, k),
    decreases k,
{
    if k > 0 {
        lemma_children_equiv_pointwise(a, b, k - 1);
        assert(node_equiv(a.spec_children()[k - 1], b.spec_children()[k - 1]));
    }
}

/// Setting attribute `key` of the node at `pos` to `value`, and then setting
/// it back to the value `old_value` that node had, restores the tree: the
/// inverse of an attribute step undoes it.
pub proof fn law_attr_change_round_trip(
    doc: Node,
    changed: Node,
    restored: Node,
    pos: int,
    key: Seq<char>,
    value: AttrValueV,
    old_value: AttrValueV,
)
    requires
        attr_changed(doc, changed, pos, key, value),
        node_at_spec(doc, pos) matches Some(t) && attrs_lookup(t.spec_attrs(), key) == Some(old_value),
        attr_changed(changed, restored, pos, key, old_value),
    ensures
        node_equiv(restored, doc),
    decreases doc,
{
    let c = doc.spec_children();
    let i = found_index(c, pos);
    let off = prefix_size(c, i);
    let c1 = changed.spec_children();
    let x1 = c1[i];
    let x2 = restored.spec_children()[i];
    // The changed tree finds the same child at `pos`.
    if off != pos {
        assert(decreases_to!(doc => doc.spec_children()[i]));
        lemma_attr_changed_size(c[i], x1, pos - off - 1, key, value);
    }
    lemma_update_sizes(c, i, x1);
    assert(c1 == c.update(i, x1));
    lemma_same_prefix(c, c1, i);
    assert(find_ok(c1, pos, i)) by {
        assert forall|k: int| 0 <= k < i implies pos > #[trigger] prefix_size(c1, k) by {
            lemma_same_prefix(c, c1, k);
            assert(pos > prefix_size(c, k));
        }
    }
    lemma_found(c1, pos, i);
    // The child at `i` comes back.
    if off == pos {
        let a = c[i];
        assert forall|k: Seq<char>| #[trigger] attrs_lookup(x2.spec_attrs(), k) == attrs_lookup(a.spec_attrs(), k) by {
            if k != key {
                assert(attrs_lookup(x1.spec_attrs(), k) == attrs_lookup(a.spec_attrs(), k));
            }
        }
        lemma_sorted_ext(x2.spec_attrs(), a.spec_attrs());
        lemma_children_equiv_refl(x2, a, x2.spec_children().len() as int);
    } else {
        assert(decreases_to!(doc => doc.spec_children()[i]));
        law_attr_change_round_trip(c[i], x1, x2, pos - off - 1, key, value, old_value);
    }
    // The other children were never touched.
    let c2 = restored.spec_children();
    assert forall|j: int| 0 <= j < c2.len() implies node_equiv(#[trigger] c2[j], c[j]) by {
        if j != i {
            assert(c2[j] == c1[j]);
            assert(c1[j] == c[j]);
            lemma_node_equiv_refl(c[j]);
        }
    }
    lemma_children_equiv_pointwise(restored, doc, c2.len() as int);
}

} // verus!
