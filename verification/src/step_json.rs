//! The JSON encoding of steps, what it determines, and why a step read back
//! from its own JSON is the same step.

use vstd::prelude::*;

use crate::json::{
    json_attr_value, json_mark, json_node, json_ready, lemma_json_attr_value_unique, lemma_json_mark_unique,
    lemma_json_node_unique, mark_ready, member, JsonValue,
};
use crate::node::{children_equiv, node_equiv, nodes_size, Node};
use crate::schema::{distinct, Schema};
use crate::slice::Slice;
use crate::step::AnyStep;
use crate::strutil::decimal;

verus! {

/// `j` holds the JSON number `n`.
pub open spec fn json_num(j: Option<JsonValue>, n: usize) -> bool {
    j matches Some(JsonValue::Number(t)) && t@ == decimal(n as nat)
}

/// `j`'s `stepType` is `kind`.
pub open spec fn json_kind(j: JsonValue, kind: Seq<char>) -> bool {
    member(j, "stepType"@) matches Some(JsonValue::String(t)) && t@ == kind
}

/// `j` is the JSON of the slice `s`: no `content` for a slice without
/// content, else its nodes and both open depths.
pub open spec fn json_slice(j: JsonValue, s: Slice) -> bool {
    let c = s.spec_content().spec_children();
    &&& j is Object
    &&& if c.len() == 0 {
        member(j, "content"@) is None
    } else {
        &&& member(j, "content"@) matches Some(JsonValue::Array(a))
        &&& member(j, "content"@)->0->Array_0@.len() == c.len()
        &&& forall|i: int| 0 <= i < c.len() ==> json_node(#[trigger] member(j, "content"@)->0->Array_0@[i], c[i])
        &&& json_num(member(j, "openStart"@), s.spec_open_start())
        &&& json_num(member(j, "openEnd"@), s.spec_open_end())
    }
}

/// A slice whose JSON reads back into an equal slice: its nodes are ready,
/// their sizes fit, and a slice without content is closed on both sides.
pub open spec fn slice_ready(sc: Schema, s: Slice) -> bool {
    let c = s.spec_content().spec_children();
    &&& forall|i: int| 0 <= i < c.len() ==> json_ready(sc, #[trigger] c[i])
    &&& nodes_size(c) <= usize::MAX
    &&& c.len() == 0 ==> s.spec_open_start() == 0 && s.spec_open_end() == 0
}

/// `j` is the JSON of the step `st`.
pub open spec fn json_step(j: JsonValue, st: AnyStep) -> bool {
    &&& j is Object
    &&& match st {
        AnyStep::Replace(s) => {
            &&& json_kind(j, "replace"@)
            &&& json_num(member(j, "from"@), s.spec_from())
            &&& json_num(member(j, "to"@), s.spec_to())
            &&& member(j, "slice"@) matches Some(x) && json_slice(x, s.spec_slice())
        },
        AnyStep::ReplaceAround(s) => {
            &&& json_kind(j, "replaceAround"@)
            &&& json_num(member(j, "from"@), s.spec_from())
            &&& json_num(member(j, "to"@), s.spec_to())
            &&& json_num(member(j, "gapFrom"@), s.spec_gap_from())
            &&& json_num(member(j, "gapTo"@), s.spec_gap_to())
            &&& json_num(member(j, "insert"@), s.spec_insert())
            &&& member(j, "slice"@) matches Some(x) && json_slice(x, s.spec_slice())
        },
        AnyStep::AddMark(s) => {
            &&& json_kind(j, "addMark"@)
            &&& member(j, "mark"@) matches Some(x) && json_mark(x, s.spec_mark())
            &&& json_num(member(j, "from"@), s.spec_from())
            &&& json_num(member(j, "to"@), s.spec_to())
        },
        AnyStep::RemoveMark(s) => {
            &&& json_kind(j, "removeMark"@)
            &&& member(j, "mark"@) matches Some(x) && json_mark(x, s.spec_mark())
            &&& json_num(member(j, "from"@), s.spec_from())
            &&& json_num(member(j, "to"@), s.spec_to())
        },
        AnyStep::Attr(s) => {
            &&& json_kind(j, "attr"@)
            &&& json_num(member(j, "pos"@), s.spec_pos())
            &&& member(j, "attr"@) matches Some(JsonValue::String(t)) && t@ == s.spec_attr()@
            &&& member(j, "value"@) matches Some(x) && json_attr_value(x, s.spec_value()@)
        },
    }
}

/// A step whose JSON reads back into an equal step: its slice or mark is
/// ready.
pub open spec fn step_ready(sc: Schema, st: AnyStep) -> bool {
    match st {
        AnyStep::Replace(s) => slice_ready(sc, s.spec_slice()),
        AnyStep::ReplaceAround(s) => slice_ready(sc, s.spec_slice()),
        AnyStep::AddMark(s) => mark_ready(sc, s.spec_mark()),
        AnyStep::RemoveMark(s) => mark_ready(sc, s.spec_mark()),
        AnyStep::Attr(_) => true,
    }
}

/// Two slices with the same open depths and equal nodes.
pub open spec fn slice_equiv(a: Slice, b: Slice) -> bool {
    let ca = a.spec_content().spec_children();
    let cb = b.spec_content().spec_children();
    &&& a.spec_open_start() == b.spec_open_start()
    &&& a.spec_open_end() == b.spec_open_end()
    &&& ca.len() == cb.len()
    &&& forall|i: int| 0 <= i < ca.len() ==> node_equiv(#[trigger] ca[i], cb[i])
}

/// Two steps of the same kind with the same positions and equal slices,
/// marks and attributes.
pub open spec fn step_equiv(a: AnyStep, b: AnyStep) -> bool {
    match (a, b) {
        (AnyStep::Replace(x), AnyStep::Replace(y)) => x.spec_from() == y.spec_from() && x.spec_to() == y.spec_to()
            && slice_equiv(x.spec_slice(), y.spec_slice()),
        (AnyStep::ReplaceAround(x), AnyStep::ReplaceAround(y)) => x.spec_from() == y.spec_from()
            && x.spec_to() == y.spec_to() && x.spec_gap_from() == y.spec_gap_from() && x.spec_gap_to() == y.spec_gap_to()
            && x.spec_insert() == y.spec_insert() && slice_equiv(x.spec_slice(), y.spec_slice()),
        (AnyStep::AddMark(x), AnyStep::AddMark(y)) => x.spec_from() == y.spec_from() && x.spec_to() == y.spec_to()
            && x.spec_mark().view_spec() == y.spec_mark().view_spec(),
        (AnyStep::RemoveMark(x), AnyStep::RemoveMark(y)) => x.spec_from() == y.spec_from() && x.spec_to() == y.spec_to()
            && x.spec_mark().view_spec() == y.spec_mark().view_spec(),
        (AnyStep::Attr(x), AnyStep::Attr(y)) => x.spec_pos() == y.spec_pos() && x.spec_attr()@ == y.spec_attr()@
            && x.spec_value()@ == y.spec_value()@,
        _ => false,
    }
}

/// The member names and step kinds of the encoding are distinct where it
/// matters.
pub proof fn lemma_step_names()
    ensures
        "stepType"@ != "from"@,
        "stepType"@ != "to"@,
        "stepType"@ != "slice"@,
        "stepType"@ != "gapFrom"@,
        "stepType"@ != "gapTo"@,
        "stepType"@ != "insert"@,
        "stepType"@ != "mark"@,
        "stepType"@ != "pos"@,
        "stepType"@ != "attr"@,
        "stepType"@ != "value"@,
        "from"@ != "to"@,
        "from"@ != "slice"@,
        "from"@ != "gapFrom"@,
        "from"@ != "gapTo"@,
        "from"@ != "insert"@,
        "from"@ != "mark"@,
        "to"@ != "slice"@,
        "to"@ != "gapFrom"@,
        "to"@ != "gapTo"@,
        "to"@ != "insert"@,
        "to"@ != "mark"@,
        "gapFrom"@ != "gapTo"@,
        "gapFrom"@ != "insert"@,
        "gapFrom"@ != "slice"@,
        "gapTo"@ != "insert"@,
        "gapTo"@ != "slice"@,
        "insert"@ != "slice"@,
        "pos"@ != "attr"@,
        "pos"@ != "value"@,
        "attr"@ != "value"@,
        "content"@ != "openStart"@,
        "content"@ != "openEnd"@,
        "openStart"@ != "openEnd"@,
        "replace"@ != "replaceAround"@,
        "replace"@ != "addMark"@,
        "replace"@ != "removeMark"@,
        "replace"@ != "attr"@,
        "replaceAround"@ != "addMark"@,
        "replaceAround"@ != "removeMark"@,
        "replaceAround"@ != "attr"@,
        "addMark"@ != "removeMark"@,
        "addMark"@ != "attr"@,
        "removeMark"@ != "attr"@,
{
    reveal_strlit("stepType");
    reveal_strlit("from");
    reveal_strlit("to");
    reveal_strlit("slice");
    reveal_strlit("gapFrom");
    reveal_strlit("gapTo");
    reveal_strlit("insert");
    reveal_strlit("mark");
    reveal_strlit("pos");
    reveal_strlit("attr");
    reveal_strlit("value");
    reveal_strlit("content");
    reveal_strlit("openStart");
    reveal_strlit("openEnd");
    reveal_strlit("replace");
    reveal_strlit("replaceAround");
    reveal_strlit("addMark");
    reveal_strlit("removeMark");
    assert("stepType"@.len() == 8);
    assert("from"@.len() == 4);
    assert("to"@.len() == 2);
    assert("slice"@.len() == 5);
    assert("gapFrom"@.len() == 7);
    assert("gapTo"@.len() == 5);
    assert("insert"@.len() == 6);
    assert("mark"@.len() == 4);
    assert("pos"@.len() == 3);
    assert("attr"@.len() == 4);
    assert("value"@.len() == 5);
    assert("content"@.len() == 7);
    assert("openStart"@.len() == 9);
    assert("openEnd"@.len() == 7);
    assert("replace"@.len() == 7);
    assert("replaceAround"@.len() == 13);
    assert("addMark"@.len() == 7);
    assert("removeMark"@.len() == 10);
    assert("gapTo"@[0] != "slice"@[0]);
    assert("from"@[0] != "mark"@[0]);
    assert("content"@[0] != "openEnd"@[0]);
    assert("replace"@[0] != "addMark"@[0]);
}

/// A JSON number holds one value.
proof fn lemma_json_num_unique(j: Option<JsonValue>, a: usize, b: usize)
    requires
        json_num(j, a),
        json_num(j, b),
    ensures
        a == b,
{
    crate::json::lemma_decimal_digits(a as nat);
    crate::json::lemma_decimal_digits(b as nat);
}

/// The JSON of a ready slice determines it.
proof fn lemma_json_slice_unique(sc: Schema, j: JsonValue, a: Slice, b: Slice)
    requires
        distinct(sc.spec_node_names()),
        distinct(sc.spec_mark_names()),
        json_slice(j, a),
        json_slice(j, b),
        slice_ready(sc, a),
        slice_ready(sc, b),
    ensures
        slice_equiv(a, b),
{
    let ca = a.spec_content().spec_children();
    let cb = b.spec_content().spec_children();
    if ca.len() == 0 {
        assert(cb.len() == 0);
    } else {
        assert(cb.len() > 0);
        let arr = member(j, "content"@)->0->Array_0@;
        assert forall|i: int| 0 <= i < ca.len() implies node_equiv(#[trigger] ca[i], cb[i]) by {
            assert(json_node(arr[i], ca[i]));
            assert(json_node(arr[i], cb[i]));
            assert(json_ready(sc, ca[i]));
            assert(json_ready(sc, cb[i]));
            lemma_json_node_unique(sc, arr[i], ca[i], cb[i]);
        }
        lemma_json_num_unique(member(j, "openStart"@), a.spec_open_start(), b.spec_open_start());
        lemma_json_num_unique(member(j, "openEnd"@), a.spec_open_end(), b.spec_open_end());
    }
}

/// Equal ready nodes have the same size.
pub proof fn lemma_equiv_size(sc: Schema, a: Node, b: Node)
    requires
        node_equiv(a, b),
        json_ready(sc, a),
        json_ready(sc, b),
    ensures
        a.spec_size() == b.spec_size(),
    decreases a, a.spec_children().len() + 1,
{
    assert(a.spec_type() == b.spec_type());
    if a.spec_text() is None {
        let ca = a.spec_children();
        let cb = b.spec_children();
        assert forall|i: int| 0 <= i < ca.len() implies (#[trigger] ca[i]).spec_size() == cb[i].spec_size() by {
            lemma_children_equiv_at(a, b, ca.len() as int, i);
            crate::json::lemma_ready_children_at(sc, a, ca.len() as int, i);
            crate::json::lemma_ready_children_at(sc, b, cb.len() as int, i);
            assert(decreases_to!(a => a.spec_children()[i]));
            lemma_equiv_size(sc, ca[i], cb[i]);
        }
        lemma_same_sizes_sum(ca, cb);
    }
}

/// Pairwise-equivalent children are equivalent one by one.
proof fn lemma_children_equiv_at(a: Node, b: Node, k: int, i: int)
    requires
        0 <= i < k <= a.spec_children().len(),
        children_equiv(a, b, k),
    ensures
        node_equiv(a.spec_children()[i], b.spec_children()[i]),
    decreases k,
{
    if i < k - 1 {
        lemma_children_equiv_at(a, b, k - 1, i);
    }
}

/// Runs with the same sizes one by one have the same total size.
pub proof fn lemma_same_sizes_sum(a: Seq<Node>, b: Seq<Node>)
    requires
        a.len() == b.len(),
        forall|i: int| 0 <= i < a.len() ==> (#[trigger] a[i]).spec_size() == b[i].spec_size(),
    ensures
        nodes_size(a) == nodes_size(b),
    decreases a.len(),
{
    if a.len() > 0 {
        assert forall|i: int| 0 <= i < a.len() - 1 implies (#[trigger] a.drop_last()[i]).spec_size() == b.drop_last()[i].spec_size() by {
            assert(a.drop_last()[i] == a[i] && b.drop_last()[i] == b[i]);
        }
        lemma_same_sizes_sum(a.drop_last(), b.drop_last());
        assert(a.last() == a[a.len() - 1] && b.last() == b[b.len() - 1]);
    }
}

/// The JSON of a ready step determines the step: two ready steps with the
/// same JSON are equal, so a step read back from its own JSON is the step
/// it was written from.
pub proof fn law_step_json_round_trip(sc: Schema, j: JsonValue, a: AnyStep, b: AnyStep)
    requires
        distinct(sc.spec_node_names()),
        distinct(sc.spec_mark_names()),
        json_step(j, a),
        json_step(j, b),
        step_ready(sc, a),
        step_ready(sc, b),
    ensures
        step_equiv(a, b),
{
    lemma_step_names();
    match (a, b) {
        (AnyStep::Replace(x), AnyStep::Replace(y)) => {
            lemma_json_num_unique(member(j, "from"@), x.spec_from(), y.spec_from());
            lemma_json_num_unique(member(j, "to"@), x.spec_to(), y.spec_to());
            lemma_json_slice_unique(sc, member(j, "slice"@)->0, x.spec_slice(), y.spec_slice());
        },
        (AnyStep::ReplaceAround(x), AnyStep::ReplaceAround(y)) => {
            lemma_json_num_unique(member(j, "from"@), x.spec_from(), y.spec_from());
            lemma_json_num_unique(member(j, "to"@), x.spec_to(), y.spec_to());
            lemma_json_num_unique(member(j, "gapFrom"@), x.spec_gap_from(), y.spec_gap_from());
            lemma_json_num_unique(member(j, "gapTo"@), x.spec_gap_to(), y.spec_gap_to());
            lemma_json_num_unique(member(j, "insert"@), x.spec_insert(), y.spec_insert());
            lemma_json_slice_unique(sc, member(j, "slice"@)->0, x.spec_slice(), y.spec_slice());
        },
        (AnyStep::AddMark(x), AnyStep::AddMark(y)) => {
            lemma_json_num_unique(member(j, "from"@), x.spec_from(), y.spec_from());
            lemma_json_num_unique(member(j, "to"@), x.spec_to(), y.spec_to());
            lemma_json_mark_unique(sc, member(j, "mark"@)->0, x.spec_mark(), y.spec_mark());
        },
        (AnyStep::RemoveMark(x), AnyStep::RemoveMark(y)) => {
            lemma_json_num_unique(member(j, "from"@), x.spec_from(), y.spec_from());
            lemma_json_num_unique(member(j, "to"@), x.spec_to(), y.spec_to());
            lemma_json_mark_unique(sc, member(j, "mark"@)->0, x.spec_mark(), y.spec_mark());
        },
        (AnyStep::Attr(x), AnyStep::Attr(y)) => {
            lemma_json_num_unique(member(j, "pos"@), x.spec_pos(), y.spec_pos());
            lemma_json_attr_value_unique(member(j, "value"@)->0, x.spec_value()@, y.spec_value()@);
        },
        _ => {},
    }
}

} // verus!
