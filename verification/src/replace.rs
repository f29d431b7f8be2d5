//! The tree-replace algorithm: substitute the document range `from..to`
//! with a [`Slice`], producing a new, schema-valid document.
//!
//! It is purely functional — nodes are immutable, so `replace` returns a
//! fresh root and the old tree is untouched, which is exactly what
//! invertible steps and undo/redo need.

use vstd::prelude::*;

use crate::error::DocError;
use crate::fragment::{cut_of, prefix_size, Fragment};
use crate::node::{Node, nodes_size};
use crate::pos::{descent, res_depth, res_level, shared_from, ResolvedPos};
use crate::schema::Schema;
use crate::slice::Slice;
use crate::strutil::concat_str;

verus! {

/// Why a [`Node::replace`] could not be performed.
#[derive(Debug, Clone, PartialEq, Eq)]
pub enum ReplaceError {
    /// The slice's open depth exceeds the insertion position's depth.
    OpenTooDeep,
    /// `from`'s and `to`'s open depths are inconsistent with the slice.
    InconsistentOpenDepths,
    /// Two nodes that would have to be joined have incompatible content.
    CannotJoin {
        /// The node type being joined on.
        onto: String,
        /// The node type being joined.
        joined: String,
    },
    /// The resulting content would violate the schema for `parent`.
    InvalidContent {
        /// The parent node type whose content became invalid.
        parent: String,
    },
    /// A boundary position was out of range.
    Position {
        /// The offending position.
        pos: usize,
        /// The maximum valid position.
        max: usize,
    },
    /// The resulting document would have more positions than a `usize`
    /// can count.
    TooLarge,
}

impl ReplaceError {
    /// Human-readable description of the error.
    pub fn message(&self) -> (r: String)
        ensures
            match self {
                ReplaceError::OpenTooDeep => r@ == "inserted content deeper than the insertion position"@,
                ReplaceError::InconsistentOpenDepths => r@ == "inconsistent open depths"@,
                ReplaceError::CannotJoin { onto, joined } => r@ == "cannot join `"@ + joined@ + "` onto `"@ + onto@ + "`"@,
                ReplaceError::InvalidContent { parent } => r@ == "replacement violates the schema for `"@ + parent@ + "`"@,
                ReplaceError::Position { pos, max } => r@ == "position "@ + crate::strutil::decimal(*pos as nat)
                    + " out of range (max "@ + crate::strutil::decimal(*max as nat) + ")"@,
                ReplaceError::TooLarge => r@ == "replacement result is too large"@,
            },
    {
        let mut out: Vec<char> = Vec::new();
        match self {
            ReplaceError::OpenTooDeep => {
                crate::strutil::push_str(&mut out, "inserted content deeper than the insertion position");
            },
            ReplaceError::InconsistentOpenDepths => {
                crate::strutil::push_str(&mut out, "inconsistent open depths");
            },
            ReplaceError::CannotJoin { onto, joined } => {
                crate::strutil::push_str(&mut out, "cannot join `");
                crate::strutil::push_str(&mut out, joined.as_str());
                crate::strutil::push_str(&mut out, "` onto `");
                crate::strutil::push_str(&mut out, onto.as_str());
                crate::strutil::push_str(&mut out, "`");
            },
            ReplaceError::InvalidContent { parent } => {
                crate::strutil::push_str(&mut out, "replacement violates the schema for `");
                crate::strutil::push_str(&mut out, parent.as_str());
                crate::strutil::push_str(&mut out, "`");
            },
            ReplaceError::Position { pos, max } => {
                crate::strutil::push_str(&mut out, "position ");
                let p = crate::strutil::decimal_chars(*pos as u64);
                crate::strutil::push_chars(&mut out, &p);
                crate::strutil::push_str(&mut out, " out of range (max ");
                let m = crate::strutil::decimal_chars(*max as u64);
                crate::strutil::push_chars(&mut out, &m);
                crate::strutil::push_str(&mut out, ")");
            },
            ReplaceError::TooLarge => {
                crate::strutil::push_str(&mut out, "replacement result is too large");
            },
        }
        crate::strutil::string_from_chars(&out)
    }
}

/// A resolution failure as a replace error.
fn map_pos(e: DocError) -> (r: ReplaceError)
    ensures
        match e {
            DocError::PositionOutOfRange { pos, max } => r == (ReplaceError::Position { pos, max }),
            _ => r == (ReplaceError::Position { pos: 0, max: 0 }),
        },
        !(r is OpenTooDeep),
{
    match e {
        DocError::PositionOutOfRange { pos, max } => ReplaceError::Position { pos, max },
        _ => ReplaceError::Position { pos: 0, max: 0 },
    }
}

impl Node {
    /// Replace the range `from..to` with `slice`, returning the new root.
    ///
    /// The document is treated as the root. Content that would violate the
    /// schema (including illegal joins at the boundaries) is rejected with a
    /// [`ReplaceError`] rather than silently produced.
    pub fn replace(&self, from: usize, to: usize, slice: &Slice, schema: &Schema) -> (r: Result<Node, ReplaceError>)
        ensures
            from > self.spec_content().spec_size() ==> r == Err::<Node, ReplaceError>(ReplaceError::Position {
                pos: from,
                max: self.spec_content().spec_size() as usize,
            }),
            from <= self.spec_content().spec_size() < to ==> r == Err::<Node, ReplaceError>(ReplaceError::Position {
                pos: to,
                max: self.spec_content().spec_size() as usize,
            }),
            r matches Ok(n) ==> n.spec_type() == self.spec_type() && n.spec_text() is None,
            from <= to <= self.spec_content().spec_size() ==> ((r == Err::<Node, ReplaceError>(ReplaceError::OpenTooDeep))
                <==> slice.spec_open_start() > res_depth(*self, from as int)),
            from <= to <= self.spec_content().spec_size() && slice.spec_open_start() <= res_depth(*self, from as int)
                && (slice.spec_open_end() > res_depth(*self, to as int) || res_depth(*self, from as int) - slice.spec_open_start()
                    != res_depth(*self, to as int) - slice.spec_open_end())
                ==> r == Err::<Node, ReplaceError>(ReplaceError::InconsistentOpenDepths),
            flat_replace(*self, from as int, to as int, *slice) ==> (r matches Ok(n)
                ==> flat_replaced(*self, from as int, to as int, *slice, n)),
            flat_replace_in_child(*self, from as int, to as int, *slice) ==> (r matches Ok(n)
                ==> child_flat_replaced(*self, from as int, to as int, *slice, n)),
            flat_delete(*self, from as int, to as int, *slice) ==> (r matches Ok(n)
                ==> n.spec_content().spec_size() == self.spec_content().spec_size() - (to - from)),
            flat_delete_in_child(*self, from as int, to as int, *slice) ==> (r matches Ok(n)
                ==> child_deleted(*self, from as int, to as int, n)),
    {
        let rf = match ResolvedPos::resolve(self, from) {
            Ok(p) => p,
            Err(e) => {
                return Err(map_pos(e));
            },
        };
        let rt = match ResolvedPos::resolve(self, to) {
            Ok(p) => p,
            Err(e) => {
                return Err(map_pos(e));
            },
        };
        proof {
            rf.lemma_resolved();
            rt.lemma_resolved();
            if flat_replace_in_child(*self, from as int, to as int, *slice)
                || flat_delete_in_child(*self, from as int, to as int, *slice) {
                assert(rf.spec_start(0) == 0);
                assert(rt.spec_start(0) == 0);
                assert(res_level(*self, from as int, 0) == (rf.spec_node(0), from - rf.spec_start(0)));
                assert(descent(*self, from as int) == Some(rf.spec_index(0) as int));
                assert(res_level(*self, to as int, 0) == (rt.spec_node(0), to - rt.spec_start(0)));
                assert(descent(*self, to as int) == Some(rt.spec_index(0) as int));
                assert(rf.spec_index(0) == rt.spec_index(0));
                let i = rf.spec_index(0) as int;
                let c = self.spec_children();
                assert(res_level(*self, from as int, 1) == res_level(c[i], from - prefix_size(c, i) - 1, 0));
                assert(res_level(*self, from as int, 1) == (rf.spec_node(1), from - rf.spec_start(1)));
                assert(res_level(*self, from as int, 1).1 == rf.spec_parent_offset());
                assert(res_level(*self, to as int, 1).1 == rt.spec_parent_offset());
                assert(rf.spec_node(1) == self.spec_children()[rf.spec_index(0) as int]);
                assert(res_level(*self, to as int, 1) == res_level(c[i], to - prefix_size(c, i) - 1, 0));
                assert(res_level(*self, to as int, 1) == (rt.spec_node(1), to - rt.spec_start(1)));
                assert(rt.spec_node(1) == c[i]);
            }
        }
        replace_resolved(&rf, &rt, slice, schema)
    }

    /// Extract the content between `from` and `to` as a [`Slice`], recording
    /// how deeply each end is open so it can be re-inserted faithfully.
    pub fn slice(&self, from: usize, to: usize) -> (r: Result<Slice, DocError>)
        ensures
            from == to ==> (r matches Ok(s) && s.spec_content().spec_children().len() == 0
                && s.spec_open_start() == 0 && s.spec_open_end() == 0),
            from != to && from > self.spec_content().spec_size() ==> r == Err::<Slice, DocError>(DocError::PositionOutOfRange {
                pos: from,
                max: self.spec_content().spec_size() as usize,
            }),
            from != to && from <= self.spec_content().spec_size() < to ==> r == Err::<Slice, DocError>(
                DocError::PositionOutOfRange { pos: to, max: self.spec_content().spec_size() as usize }),
            from != to && from <= self.spec_content().spec_size() && to <= self.spec_content().spec_size() ==> r is Ok,
            r matches Ok(s) ==> slice_of(*self, from as int, to as int, s),
    {
        if from == to {
            return Ok(Slice::empty());
        }
        let rf = ResolvedPos::resolve(self, from)?;
        let rt = ResolvedPos::resolve(self, to)?;
        rf.check_wf();
        rt.check_wf();
        let depth = rf.shared_depth(to);
        proof {
            rf.lemma_resolved();
            rt.lemma_resolved();
            assert(res_level(*self, from as int, depth as int) == (rf.spec_node(depth as int), from - rf.spec_start(depth as int)));
        }
        let start = rf.start(depth);
        proof {
            rf.lemma_start_le_pos(depth as int);
        }
        let node = rf.node(depth);
        let a = rf.pos() - start;
        let b = if to >= start { to - start } else { 0 };
        let content = node.content().cut(a, b);
        let open_end = if rt.depth() >= depth { rt.depth() - depth } else { 0 };
        Ok(Slice::new(content, rf.depth() - depth, open_end))
    }
}

/// Whether `s` is the slice of `doc` between `from` and `to`: empty and
/// closed for an empty range; else the content of the deepest ancestor of
/// `from` that also holds `to`, cut between the two, open as deep as each
/// end lies below that ancestor.
pub open spec fn slice_of(doc: Node, from: int, to: int, s: Slice) -> bool {
    if from == to {
        s.spec_content().spec_children().len() == 0 && s.spec_open_start() == 0 && s.spec_open_end() == 0
    } else {
        let sd = shared_from(doc, from, to, res_depth(doc, from) as int);
        let lv = res_level(doc, from, sd);
        let start = from - lv.1;
        &&& cut_of(lv.0.spec_content(), lv.1, if to >= start { to - start } else { 0 }, s.spec_content())
        &&& s.spec_open_start() == res_depth(doc, from) - sd
        &&& s.spec_open_end() == if res_depth(doc, to) >= sd { res_depth(doc, to) - sd } else { 0 }
    }
}

/// Whether `r` is what [`Fragment::append`] can give for `a` followed by
/// `b`.
pub open spec fn appends(a: Fragment, b: Fragment, r: Fragment) -> bool {
    call_ensures(Fragment::append, (&a, &b), r)
}

/// Whether `n` is `doc` with the range `from..to` of its own content
/// replaced by the content of `slice`: the content before `from`, the
/// slice's content and the content after `to`, appended in turn.
pub open spec fn flat_replaced(doc: Node, from: int, to: int, slice: Slice, n: Node) -> bool {
    exists|head: Fragment, tail: Fragment, left: Fragment| {
        &&& #[trigger] cut_of(doc.spec_content(), 0, from, head)
        &&& #[trigger] cut_of(doc.spec_content(), to, doc.spec_content().spec_size() as int, tail)
        &&& #[trigger] appends(head, slice.spec_content(), left)
        &&& appends(left, tail, n.spec_content())
    }
}

/// Whether `m` is a copy of `n` (same type) keeping `before` positions of
/// its content before a deleted range and `after` positions after it.
pub open spec fn deleted_inside(n: Node, before: int, after: int, m: Node) -> bool {
    &&& m.spec_type() == n.spec_type()
    &&& m.spec_content().spec_size() == before + after
}

/// Whether a replace of `from..to` in `doc` by `slice` works on `doc`'s own
/// content: both ends lie directly in it, and the slice is closed and not
/// empty.
pub open spec fn flat_replace(doc: Node, from: int, to: int, slice: Slice) -> bool {
    &&& 0 <= from <= to <= doc.spec_content().spec_size()
    &&& res_depth(doc, from) == 0
    &&& res_depth(doc, to) == 0
    &&& slice.spec_open_start() == 0
    &&& slice.spec_open_end() == 0
    &&& slice.spec_content().spec_size() > 0
}

/// Whether a replace of `from..to` in `doc` by `slice` works inside one
/// child of `doc` (a textblock of the document, say): both ends lie
/// directly in the content of the same child, and the slice is closed and
/// not empty.
pub open spec fn flat_replace_in_child(doc: Node, from: int, to: int, slice: Slice) -> bool {
    &&& 0 <= from <= to <= doc.spec_content().spec_size()
    &&& res_depth(doc, from) == 1
    &&& res_depth(doc, to) == 1
    &&& descent(doc, from) == descent(doc, to)
    &&& slice.spec_open_start() == 0
    &&& slice.spec_open_end() == 0
    &&& slice.spec_content().spec_size() > 0
}

/// Whether `n` is `doc` with the child holding `from` and `to` replaced by
/// a copy of it whose range between the two is replaced by `slice` (see
/// [`flat_replaced`]).
pub open spec fn child_flat_replaced(doc: Node, from: int, to: int, slice: Slice, n: Node) -> bool {
    descent(doc, from) matches Some(i) && exists|m: Node| #[trigger] flat_replaced(doc.spec_children()[i],
        res_level(doc, from, 1).1, res_level(doc, to, 1).1, slice, m) && n.spec_children() == doc.spec_children().update(i, m)
}

/// Whether a replace of `from..to` in `doc` by `slice` deletes inside
/// `doc`'s own content: both ends lie directly in it and the slice is
/// closed and empty.
pub open spec fn flat_delete(doc: Node, from: int, to: int, slice: Slice) -> bool {
    &&& 0 <= from <= to <= doc.spec_content().spec_size()
    &&& res_depth(doc, from) == 0
    &&& res_depth(doc, to) == 0
    &&& slice.spec_open_start() == 0
    &&& slice.spec_open_end() == 0
    &&& slice.spec_content().spec_size() == 0
}

/// Whether a replace of `from..to` in `doc` by `slice` deletes inside one
/// child of `doc`: both ends lie directly in the content of the same
/// child, and the slice is closed and empty.
pub open spec fn flat_delete_in_child(doc: Node, from: int, to: int, slice: Slice) -> bool {
    &&& 0 <= from <= to <= doc.spec_content().spec_size()
    &&& res_depth(doc, from) == 1
    &&& res_depth(doc, to) == 1
    &&& descent(doc, from) == descent(doc, to)
    &&& slice.spec_open_start() == 0
    &&& slice.spec_open_end() == 0
    &&& slice.spec_content().spec_size() == 0
}

/// Whether `n` is `doc` with the child holding `from` and `to` replaced by
/// a copy of it (same type) whose content lost the positions between the
/// two.
pub open spec fn child_deleted(doc: Node, from: int, to: int, n: Node) -> bool {
    descent(doc, from) matches Some(i) && exists|m: Node| #[trigger] deleted_inside(doc.spec_children()[i],
        res_level(doc, from, 1).1, doc.spec_children()[i].spec_content().spec_size() - res_level(doc, to, 1).1, m)
        && n.spec_children() == doc.spec_children().update(i, m)
}

/// Replace between two resolved positions of the same document.
fn replace_resolved(from: &ResolvedPos, to: &ResolvedPos, slice: &Slice, schema: &Schema) -> (r: Result<Node, ReplaceError>)
    ensures
        (r == Err::<Node, ReplaceError>(ReplaceError::OpenTooDeep)) <==> slice.spec_open_start() > from.spec_depth(),
        slice.spec_open_start() <= from.spec_depth() && (slice.spec_open_end() > to.spec_depth()
            || from.spec_depth() - slice.spec_open_start() != to.spec_depth() - slice.spec_open_end())
            ==> r == Err::<Node, ReplaceError>(ReplaceError::InconsistentOpenDepths),
        r matches Ok(n) ==> n.spec_type() == from.spec_node(0).spec_type() && n.spec_text() is None,
        from.spec_depth() == 0 && to.spec_depth() == 0 && slice.spec_open_start() == 0 && slice.spec_open_end() == 0
            && slice.spec_content().spec_size() > 0 ==> (r matches Ok(n) ==> flat_replaced(from.spec_node(0),
            from.spec_parent_offset() as int, to.spec_parent_offset() as int, *slice, n)),
        from.spec_depth() == 1 && to.spec_depth() == 1 && from.spec_index(0) == to.spec_index(0)
            && slice.spec_open_start() == 0 && slice.spec_open_end() == 0 && slice.spec_content().spec_size() > 0
            ==> (r matches Ok(n) ==> exists|m: Node| #[trigger] flat_replaced(from.spec_node(1),
                from.spec_parent_offset() as int, to.spec_parent_offset() as int, *slice, m)
                && n.spec_children() == from.spec_node(0).spec_children().update(from.spec_index(0) as int, m)),
        from.spec_depth() == 0 && to.spec_depth() == 0 && slice.spec_open_start() == 0 && slice.spec_open_end() == 0
            && slice.spec_content().spec_size() == 0 ==> (r matches Ok(n) ==> n.spec_content().spec_size()
            == from.spec_parent_offset() + to.spec_node(0).spec_content().spec_size() - to.spec_parent_offset()),
        from.spec_depth() == 1 && to.spec_depth() == 1 && from.spec_index(0) == to.spec_index(0)
            && slice.spec_open_start() == 0 && slice.spec_open_end() == 0 && slice.spec_content().spec_size() == 0
            ==> (r matches Ok(n) ==> exists|m: Node| #[trigger] deleted_inside(from.spec_node(1),
                from.spec_parent_offset() as int, to.spec_node(1).spec_content().spec_size() - to.spec_parent_offset(), m)
                && n.spec_children() == from.spec_node(0).spec_children().update(from.spec_index(0) as int, m)),
{
    from.check_wf();
    to.check_wf();
    if slice.open_start() > from.depth() {
        return Err(ReplaceError::OpenTooDeep);
    }
    if slice.open_end() > to.depth() || from.depth() - slice.open_start() != to.depth() - slice.open_end() {
        return Err(ReplaceError::InconsistentOpenDepths);
    }
    replace_outer(from, to, slice, 0, schema)
}

/// A copy of `template` holding `content`, provided the schema accepts it.
fn close(schema: &Schema, template: &Node, content: Fragment) -> (r: Result<Node, ReplaceError>)
    ensures
        r matches Ok(n) ==> n.spec_type() == template.spec_type() && n.spec_content() == content
            && n.spec_text() is None
            && schema.spec_content_valid(template.spec_type_id(), content.spec_children()),
        r is Ok <==> schema.spec_owns(template.spec_type())
            && schema.spec_content_valid(template.spec_type_id(), content.spec_children())
            && content.spec_size() + 2 <= usize::MAX,
        r matches Err(e) ==> !(e is OpenTooDeep),
{
    let t = template.node_type();
    if !schema.owns_node_type(t) || !schema.fragment_valid(t, &content) {
        return Err(ReplaceError::InvalidContent { parent: t.name().to_string() });
    }
    if content.size() > usize::MAX - 2 {
        return Err(ReplaceError::TooLarge);
    }
    Ok(template.copy_content(content))
}

/// Whether the schema owns the types of `onto` and `joined` and lets nodes
/// of `joined`'s type be joined onto `onto`.
pub open spec fn joins(s: Schema, onto: Node, joined: Node) -> bool {
    &&& s.spec_owns(joined.spec_type())
    &&& s.spec_owns(onto.spec_type())
    &&& s.spec_types_compatible(joined.spec_type().spec_id(), onto.spec_type().spec_id())
}

/// Fail unless nodes of `joined`'s type may be joined onto `onto`.
fn check_join(schema: &Schema, onto: &Node, joined: &Node) -> (r: Result<(), ReplaceError>)
    ensures
        r is Ok <==> joins(*schema, *onto, *joined),
        r matches Err(e) ==> !(e is OpenTooDeep),
{
    let a = joined.node_type();
    let b = onto.node_type();
    if !schema.owns_node_type(a) || !schema.owns_node_type(b) || !schema.types_compatible(a, b) {
        return Err(ReplaceError::CannotJoin { onto: b.name().to_string(), joined: a.name().to_string() });
    }
    Ok(())
}

/// The node at `depth` in `before`, once checked to be joinable with the
/// one at `depth` in `after`.
fn joinable(schema: &Schema, before: &ResolvedPos, after: &ResolvedPos, depth: usize) -> (r: Result<Node, ReplaceError>)
    requires
        depth <= before.spec_depth(),
        depth <= after.spec_depth(),
    ensures
        r matches Ok(n) ==> n == before.spec_node(depth as int),
        r is Ok <==> joins(*schema, before.spec_node(depth as int), after.spec_node(depth as int)),
        r matches Err(e) ==> !(e is OpenTooDeep),
{
    let node = before.node(depth).clone();
    check_join(schema, &node, after.node(depth))?;
    Ok(node)
}

/// Append `child` to `target`, merging it into a preceding text node with
/// the same markup.
fn add_node(child: Node, target: &mut Vec<Node>)
    ensures
        nodes_size(final(target)@) == nodes_size(old(target)@) + child.spec_size(),
{
    let n = target.len();
    if n > 0 {
        let last = &target[n - 1];
        if child.is_text() && last.is_text() && child.same_markup(last) {
            let lt = match last.text() { Some(t) => t, None => "" };
            let ct = match child.text() { Some(t) => t, None => "" };
            let merged = child.with_text(concat_str(lt, ct));
            let ghost before = target@;
            target.set(n - 1, merged);
            proof {
                assert(before.drop_last() =~= target@.drop_last());
                assert(nodes_size(target@) == nodes_size(target@.drop_last()) + merged.spec_size());
                assert(nodes_size(before) == nodes_size(before.drop_last()) + before.last().spec_size());
            }
            return;
        }
    }
    let ghost before = target@;
    target.push(child);
    proof {
        assert(target@.drop_last() =~= before);
    }
}

/// Append the children of the node at `depth` between `start` and `end`
/// (either may be absent, meaning that side's edge of the node).
fn add_range(start: Option<&ResolvedPos>, end: Option<&ResolvedPos>, depth: usize, target: &mut Vec<Node>)
    requires
        start is Some || end is Some,
        start matches Some(s) ==> depth <= s.spec_depth(),
        end matches Some(e) ==> depth <= e.spec_depth(),
    ensures
        start is None && (end matches Some(e) && depth == e.spec_depth()) ==> nodes_size(final(target)@)
            == nodes_size(old(target)@) + end->0.spec_parent_offset(),
        end is None && (start matches Some(s) && depth == s.spec_depth()) ==> nodes_size(final(target)@)
            == nodes_size(old(target)@) + start->0.spec_node(depth as int).spec_content().spec_size() - start->0.spec_parent_offset(),
{
    let ghost base = nodes_size(target@);
    let anchor = match end {
        Some(e) => e,
        None => match start {
            Some(s) => s,
            None => {
                return;
            },
        },
    };
    anchor.check_wf();
    let node = anchor.node(depth);
    let ghost c = node.spec_children();
    let count = node.child_count();
    let mut start_index: usize = 0;
    let end_index = match end {
        Some(e) => e.index(depth),
        None => count,
    };
    proof {
        match end {
            Some(e) => {
                if depth == e.spec_depth() {
                    e.lemma_offset_split();
                }
            },
            None => {},
        }
        assert(c.take(0) =~= Seq::<Node>::empty());
    }
    let ghost mut extra: int = 0;
    match start {
        Some(s) => {
            s.check_wf();
            proof {
                if depth == s.spec_depth() {
                    s.lemma_offset_split();
                }
            }
            start_index = s.index(depth);
            if s.depth() > depth {
                start_index = if start_index < count { start_index + 1 } else { count };
            } else if s.text_offset() > 0 {
                match s.node_after() {
                    Some(n) => {
                        add_node(n, target);
                        proof {
                            extra = n.spec_size() as int;
                            if end is None && depth == s.spec_depth() {
                                let k = start_index as int;
                                let t = c[k].spec_text().unwrap();
                                assert(c[k].spec_size() == t.len());
                                assert(n.spec_size() == t.len() - s.spec_text_offset());
                                assert(c.take(k + 1).drop_last() =~= c.take(k));
                                assert(prefix_size(c, k + 1) == prefix_size(c, k) + c[k].spec_size());
                            }
                        }
                    },
                    None => {},
                }
                start_index = if start_index < count { start_index + 1 } else { count };
            }
        },
        None => {},
    }
    let ghost s0 = start_index as int;
    let mut i = start_index;
    while i < end_index && i < count
        invariant
            count == node.spec_children().len(),
            c == node.spec_children(),
            s0 <= i,
            s0 <= count ==> i <= count,
            s0 <= end_index ==> i <= end_index,
            nodes_size(target@) == base + extra + prefix_size(c, i as int) - prefix_size(c, s0),
        decreases end_index - i,
    {
        let ghost before = target@;
        add_node(node.child(i).clone(), target);
        proof {
            assert(c.take(i as int + 1).drop_last() =~= c.take(i as int));
        }
        i = i + 1;
    }
    match end {
        Some(e) => {
            if e.depth() == depth && e.text_offset() > 0 {
                match e.node_before() {
                    Some(n) => {
                        proof {
                            let k = e.spec_index(depth as int) as int;
                            let t = c[k].spec_text().unwrap();
                            assert(c[k].spec_size() == t.len());
                            assert(n.spec_size() == e.spec_text_offset());
                        }
                        add_node(n, target);
                    },
                    None => {},
                }
            }
        },
        None => {},
    }
    proof {
        if end is None && (start matches Some(s) && depth == s.spec_depth()) {
            assert(c.take(c.len() as int) =~= c);
            assert(i == count);
        }
        if start is None && (end matches Some(e) && depth == e.spec_depth()) {
            assert(i == end_index);
        }
    }
}

/// The fragment of `nodes`, or [`ReplaceError::TooLarge`].
fn fragment_of(nodes: Vec<Node>) -> (r: Result<Fragment, ReplaceError>)
    ensures
        r matches Ok(f) ==> f.spec_children() == nodes@,
        r is Ok <==> nodes_size(nodes@) <= usize::MAX,
        r matches Err(e) ==> !(e is OpenTooDeep),
{
    match Fragment::try_from_nodes(nodes) {
        Some(f) => Ok(f),
        None => Err(ReplaceError::TooLarge),
    }
}

/// Join the content before `from` with the content after `to`, from
/// `depth` down to the deeper of the two.
fn replace_two_way(from: &ResolvedPos, to: &ResolvedPos, depth: usize, schema: &Schema) -> (r: Result<Fragment, ReplaceError>)
    requires
        depth <= from.spec_depth(),
        depth <= to.spec_depth(),
    ensures
        from.spec_depth() == depth && to.spec_depth() == depth ==> (r matches Ok(f) ==> f.spec_size()
            == from.spec_parent_offset() + to.spec_node(depth as int).spec_content().spec_size() - to.spec_parent_offset()),
        r matches Err(e) ==> !(e is OpenTooDeep),
    decreases from.spec_depth() - depth,
{
    let mut content: Vec<Node> = Vec::new();
    add_range(None, Some(from), depth, &mut content);
    if from.depth() > depth {
        if to.depth() <= depth {
            return Err(ReplaceError::InconsistentOpenDepths);
        }
        let template = joinable(schema, from, to, depth + 1)?;
        let inner = replace_two_way(from, to, depth + 1, schema)?;
        let closed = close(schema, &template, inner)?;
        add_node(closed, &mut content);
    }
    add_range(Some(to), None, depth, &mut content);
    fragment_of(content)
}

/// Replace between `from` and `to` with the slice content that lies between
/// `start` and `end` (positions in the prepared slice node).
fn replace_three_way(
    from: &ResolvedPos,
    start: &ResolvedPos,
    end: &ResolvedPos,
    to: &ResolvedPos,
    depth: usize,
    schema: &Schema,
) -> (r: Result<Fragment, ReplaceError>)
    requires
        depth <= from.spec_depth(),
        depth <= start.spec_depth(),
        depth <= end.spec_depth(),
        depth <= to.spec_depth(),
    ensures
        r matches Err(e) ==> !(e is OpenTooDeep),
    decreases from.spec_depth() - depth,
{
    let open_start = if from.depth() > depth {
        if start.depth() <= depth {
            return Err(ReplaceError::InconsistentOpenDepths);
        }
        Some(joinable(schema, from, start, depth + 1)?)
    } else {
        None
    };
    let open_end = if to.depth() > depth {
        if end.depth() <= depth {
            return Err(ReplaceError::InconsistentOpenDepths);
        }
        Some(joinable(schema, end, to, depth + 1)?)
    } else {
        None
    };
    let mut content: Vec<Node> = Vec::new();
    add_range(None, Some(from), depth, &mut content);
    let same_child = start.index(depth) == end.index(depth);
    match (&open_start, &open_end) {
        (Some(os), Some(oe)) if same_child => {
            check_join(schema, os, oe)?;
            if to.depth() <= depth + 1 && from.depth() > depth + 1 {
                return Err(ReplaceError::InconsistentOpenDepths);
            }
            let inner = replace_three_way(from, start, end, to, depth + 1, schema)?;
            let closed = close(schema, os, inner)?;
            add_node(closed, &mut content);
        },
        _ => {
            match &open_start {
                Some(os) => {
                    let inner = replace_two_way(from, start, depth + 1, schema)?;
                    let closed = close(schema, os, inner)?;
                    add_node(closed, &mut content);
                },
                None => {},
            }
            add_range(Some(start), Some(end), depth, &mut content);
            match &open_end {
                Some(oe) => {
                    let inner = replace_two_way(end, to, depth + 1, schema)?;
                    let closed = close(schema, oe, inner)?;
                    add_node(closed, &mut content);
                },
                None => {},
            }
        },
    }
    add_range(Some(to), None, depth, &mut content);
    fragment_of(content)
}

/// Wrap the slice content in copies of the ancestors of `along` above its
/// open start, and resolve the slice's start and end in the result.
fn prepare_slice_for_replace(slice: &Slice, along: &ResolvedPos) -> (r: Result<(Node, ResolvedPos, ResolvedPos), ReplaceError>)
    requires
        slice.spec_open_start() <= along.spec_depth(),
    ensures
        r matches Ok((node, s, e)) ==> s.spec_node(0) == node && e.spec_node(0) == node,
        r matches Err(e) ==> !(e is OpenTooDeep),
{
    let extra = along.depth() - slice.open_start();
    let parent = along.node(extra);
    if slice.content().size() > usize::MAX - 2 {
        return Err(ReplaceError::TooLarge);
    }
    let mut node = parent.copy_content(slice.content().clone());
    let mut i = extra;
    while i > 0
        invariant
            i <= extra,
            extra <= along.spec_depth(),
        decreases i,
    {
        i = i - 1;
        let mut wrap: Vec<Node> = Vec::new();
        wrap.push(node);
        let frag = fragment_of(wrap)?;
        if frag.size() > usize::MAX - 2 {
            return Err(ReplaceError::TooLarge);
        }
        node = along.node(i).copy_content(frag);
    }
    let start_pos = match slice.open_start().checked_add(extra) {
        Some(p) => p,
        None => {
            return Err(ReplaceError::TooLarge);
        },
    };
    let start = match ResolvedPos::resolve(&node, start_pos) {
        Ok(p) => p,
        Err(e) => {
            return Err(map_pos(e));
        },
    };
    let inner = node.content().size();
    let end_pos = if inner >= slice.open_end() && inner - slice.open_end() >= extra {
        inner - slice.open_end() - extra
    } else {
        return Err(ReplaceError::Position { pos: 0, max: 0 });
    };
    let end = match ResolvedPos::resolve(&node, end_pos) {
        Ok(p) => p,
        Err(e) => {
            return Err(map_pos(e));
        },
    };
    Ok((node, start, end))
}

/// Replace from the root down: descend while both ends stay inside the
/// same child, then rebuild the level where they diverge.
fn replace_outer(from: &ResolvedPos, to: &ResolvedPos, slice: &Slice, depth: usize, schema: &Schema) -> (r: Result<Node, ReplaceError>)
    requires
        slice.spec_open_start() <= from.spec_depth(),
        depth <= from.spec_depth() - slice.spec_open_start(),
        from.spec_depth() - slice.spec_open_start() + slice.spec_open_end() == to.spec_depth(),
    ensures
        r matches Ok(n) ==> n.spec_type() == from.spec_node(depth as int).spec_type() && n.spec_text() is None,
        from.spec_depth() == depth && to.spec_depth() == depth && slice.spec_open_start() == 0
            && slice.spec_open_end() == 0 && slice.spec_content().spec_size() > 0 ==> (r matches Ok(n)
            ==> flat_replaced(from.spec_node(depth as int), from.spec_parent_offset() as int, to.spec_parent_offset() as int,
                *slice, n)),
        from.spec_depth() == depth + 1 && to.spec_depth() == depth + 1 && from.spec_index(depth as int) == to.spec_index(depth as int)
            && slice.spec_open_start() == 0 && slice.spec_open_end() == 0 && slice.spec_content().spec_size() > 0
            ==> (r matches Ok(n) ==> exists|m: Node| #[trigger] flat_replaced(from.spec_node(depth + 1),
                from.spec_parent_offset() as int, to.spec_parent_offset() as int, *slice, m)
                && n.spec_children() == from.spec_node(depth as int).spec_children().update(from.spec_index(depth as int) as int, m)),
        from.spec_depth() == depth && to.spec_depth() == depth && slice.spec_content().spec_size() == 0
            ==> (r matches Ok(n) ==> n.spec_content().spec_size() == from.spec_parent_offset()
                + to.spec_node(depth as int).spec_content().spec_size() - to.spec_parent_offset()),
        from.spec_depth() == depth + 1 && to.spec_depth() == depth + 1 && from.spec_index(depth as int) == to.spec_index(depth as int)
            && slice.spec_content().spec_size() == 0 && slice.spec_open_start() == 0
            ==> (r matches Ok(n) ==> exists|m: Node| #[trigger] deleted_inside(from.spec_node(depth + 1),
                from.spec_parent_offset() as int, to.spec_node(depth + 1).spec_content().spec_size() - to.spec_parent_offset(), m)
                && n.spec_children() == from.spec_node(depth as int).spec_children().update(from.spec_index(depth as int) as int, m)),
        r matches Err(e) ==> !(e is OpenTooDeep),
    decreases from.spec_depth() - depth,
{
    from.check_wf();
    to.check_wf();
    let index = from.index(depth);
    let node = from.node(depth);
    if index == to.index(depth) && depth < from.depth() - slice.open_start() {
        let inner = replace_outer(from, to, slice, depth + 1, schema)?;
        if index >= node.child_count() {
            return Err(ReplaceError::InconsistentOpenDepths);
        }
        let content = match node.content().replace_child(index, inner) {
            Some(c) => c,
            None => {
                return Err(ReplaceError::TooLarge);
            },
        };
        if content.size() > usize::MAX - 2 {
            return Err(ReplaceError::TooLarge);
        }
        proof {
            if from.spec_depth() == depth + 1 && to.spec_depth() == depth + 1 && slice.spec_open_start() == 0
                && slice.spec_open_end() == 0 && slice.spec_content().spec_size() > 0 {
                assert(flat_replaced(from.spec_node(depth + 1), from.spec_parent_offset() as int, to.spec_parent_offset() as int,
                    *slice, inner));
            }
            if from.spec_depth() == depth + 1 && to.spec_depth() == depth + 1 && slice.spec_content().spec_size() == 0 {
                assert(deleted_inside(from.spec_node(depth + 1), from.spec_parent_offset() as int,
                    to.spec_node(depth + 1).spec_content().spec_size() - to.spec_parent_offset(), inner));
            }
        }
        return Ok(node.copy_content(content));
    }
    if slice.content().size() == 0 {
        let frag = replace_two_way(from, to, depth, schema)?;
        return close(schema, node, frag);
    }
    if slice.open_start() == 0 && slice.open_end() == 0 && from.depth() == depth && to.depth() == depth {
        let parent = from.parent();
        let content = parent.content();
        let size = content.size();
        let head = content.cut(0, from.parent_offset());
        let tail = content.cut(to.parent_offset(), size);
        if head.size() > usize::MAX - slice.content().size() {
            return Err(ReplaceError::TooLarge);
        }
        let left = head.append(slice.content());
        if left.size() > usize::MAX - tail.size() {
            return Err(ReplaceError::TooLarge);
        }
        let merged = left.append(&tail);
        proof {
            assert(appends(head, slice.spec_content(), left));
            assert(appends(left, tail, merged));
        }
        return close(schema, parent, merged);
    }
    let (_root, start, end) = prepare_slice_for_replace(slice, from)?;
    start.check_wf();
    end.check_wf();
    if end.depth() < depth || start.depth() < depth {
        return Err(ReplaceError::InconsistentOpenDepths);
    }
    let frag = replace_three_way(from, &start, &end, to, depth, schema)?;
    close(schema, node, frag)
}

} // verus!
