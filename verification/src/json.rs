//! JSON (de)serialization of documents.
//!
//! The wire format is an object with `type`, optional `attrs`, optional
//! `content` (array), optional `marks` (array), and `text` for text nodes.
//! Deserialization is schema-checked — content that violates the parent's
//! content expression is rejected — so a document round-trips through JSON
//! without loss.

use vstd::prelude::*;

use crate::attrs::{attrs_lookup, keys_sorted, AttrValue, AttrValueV, Attrs, AttrsV};
use crate::error::DocError;
use crate::fragment::checked_sum_sizes;
use crate::mark::{marks_view, Mark};
use crate::node::{children_equiv, node_equiv, Node, nodes_size};
use crate::schema::{default_for, distinct, valid_tree, Schema};
use crate::strutil::{decimal, decimal_chars, str_eq, string_from_chars, chars_of};

verus! {

/// A JSON value. Numbers keep their JSON text, so any number survives a
/// round trip; [`JsonValue::as_u64`] reads the non-negative integers.
#[derive(Debug, PartialEq)]
pub enum JsonValue {
    /// `null`.
    Null,
    /// `true` or `false`.
    Bool(bool),
    /// A number, as text: as written in the document when built by hand;
    /// as serde_json prints it when read from JSON text (which may differ
    /// from the input, e.g. `1e2` reads back as `100.0`).
    Number(String),
    /// A string.
    String(String),
    /// An array.
    Array(Vec<JsonValue>),
    /// An object: its members in order.
    Object(Vec<(String, JsonValue)>),
}

/// The value of the first member named `key`.
pub open spec fn field_of(fields: Seq<(String, JsonValue)>, key: Seq<char>) -> Option<JsonValue>
    decreases fields.len(),
{
    if fields.len() == 0 {
        None
    } else if fields[0].0@ == key {
        Some(fields[0].1)
    } else {
        field_of(fields.drop_first(), key)
    }
}

/// The member `key` of `v`, when `v` is an object that has one.
pub open spec fn member(v: JsonValue, key: Seq<char>) -> Option<JsonValue> {
    match v {
        JsonValue::Object(fields) => field_of(fields@, key),
        _ => None,
    }
}

/// Whether `s` is a non-empty run of ASCII digits.
pub open spec fn is_digits(s: Seq<char>) -> bool {
    s.len() > 0 && forall|i: int| 0 <= i < s.len() ==> '0' <= #[trigger] s[i] <= '9'
}

/// The number a run of ASCII digits denotes.
pub open spec fn digits_value(s: Seq<char>) -> nat
    decreases s.len(),
{
    if s.len() == 0 {
        0
    } else {
        digits_value(s.drop_last()) * 10 + ((s.last() as nat) - ('0' as nat)) as nat
    }
}

/// The name of the JSON text `text` parsed as a value (`None` when it is
/// not valid JSON).
pub uninterp spec fn json_parse(text: Seq<char>) -> Option<JsonValue>;


// ---- the encoding ---------------------------------------------------------

/// `j` is the JSON of the attribute value `v`.
pub open spec fn json_attr_value(j: JsonValue, v: AttrValueV) -> bool {
    match v {
        AttrValueV::Null => j is Null,
        AttrValueV::Bool(b) => j == JsonValue::Bool(b),
        AttrValueV::Number(n) => j matches JsonValue::Number(t) && t@ == decimal(n as nat),
        AttrValueV::String(x) => j matches JsonValue::String(t) && t@ == x,
    }
}

/// `j` is the JSON object of the attributes `a`, member for entry.
pub open spec fn json_attrs(j: JsonValue, a: AttrsV) -> bool {
    &&& j is Object
    &&& j->Object_0@.len() == a.len()
    &&& forall|i: int| 0 <= i < a.len() ==> (#[trigger] j->Object_0@[i]).0@ == a[i].0 && json_attr_value(j->Object_0@[i].1, a[i].1)
}

/// `j`, a member of an object, holds the attributes `a` (and is absent
/// when there are none).
pub open spec fn json_attrs_member(j: Option<JsonValue>, a: AttrsV) -> bool {
    if a.len() > 0 {
        j matches Some(x) && json_attrs(x, a)
    } else {
        j is None
    }
}

/// `j` is the JSON of the mark `m`.
pub open spec fn json_mark(j: JsonValue, m: Mark) -> bool {
    &&& j is Object
    &&& member(j, "type"@) matches Some(JsonValue::String(t)) && t@ == m.mark_type_spec().spec_name()
    &&& json_attrs_member(member(j, "attrs"@), m.spec_attrs())
}

/// `j`, a member of an object, holds the marks `ms` (and is absent when
/// there are none).
pub open spec fn json_marks(j: Option<JsonValue>, ms: Seq<Mark>) -> bool {
    if ms.len() > 0 {
        &&& j matches Some(JsonValue::Array(a))
        &&& j->0->Array_0@.len() == ms.len()
        &&& forall|i: int| 0 <= i < ms.len() ==> json_mark(#[trigger] j->0->Array_0@[i], ms[i])
    } else {
        j is None
    }
}

/// `j` is the JSON of the node `n`: an object with `type`, `text` for a
/// text node, and `attrs`, `content` and `marks` when present.
pub open spec fn json_node(j: JsonValue, n: Node) -> bool
    decreases n, n.spec_children().len() + 1,
{
    &&& j is Object
    &&& member(j, "type"@) matches Some(JsonValue::String(t)) && t@ == n.spec_type().spec_name()
    &&& match n.spec_text() {
        Some(x) => member(j, "text"@) matches Some(JsonValue::String(t)) && t@ == x,
        None => member(j, "text"@) is None,
    }
    &&& json_attrs_member(member(j, "attrs"@), n.spec_attrs())
    &&& json_marks(member(j, "marks"@), n.spec_marks())
    &&& if n.spec_children().len() > 0 {
        &&& member(j, "content"@) matches Some(JsonValue::Array(a))
        &&& member(j, "content"@)->0->Array_0@.len() == n.spec_children().len()
        &&& json_children(member(j, "content"@)->0->Array_0@, n, n.spec_children().len() as int)
    } else {
        member(j, "content"@) is None
    }
}

/// The first `k` of `a` are the JSON of the first `k` children of `n`.
pub open spec fn json_children(a: Seq<JsonValue>, n: Node, k: int) -> bool
    decreases n, k,
{
    if k <= 0 || k > n.spec_children().len() {
        true
    } else {
        proof {
            assert(decreases_to!(n => n.spec_children()[k - 1]));
        }
        json_children(a, n, k - 1) && json_node(a[k - 1], n.spec_children()[k - 1])
    }
}

proof fn lemma_json_children(a: Seq<JsonValue>, n: Node, k: int)
    requires
        0 <= k <= n.spec_children().len(),
        k <= a.len(),
        forall|i: int| 0 <= i < k ==> json_node(#[trigger] a[i], n.spec_children()[i]),
    ensures
        json_children(a, n, k),
    decreases k,
{
    if k > 0 {
        lemma_json_children(a, n, k - 1);
    }
}

proof fn lemma_json_children_at(a: Seq<JsonValue>, n: Node, k: int, i: int)
    requires
        0 <= i < k <= n.spec_children().len(),
        json_children(a, n, k),
    ensures
        json_node(a[i], n.spec_children()[i]),
    decreases k,
{
    if i < k - 1 {
        lemma_json_children_at(a, n, k - 1, i);
    }
}

/// The member found at index `i`, when no earlier member has its name.
pub(crate) proof fn lemma_field_at(f: Seq<(String, JsonValue)>, key: Seq<char>, i: int)
    requires
        0 <= i < f.len(),
        f[i].0@ == key,
        forall|j: int| 0 <= j < i ==> (#[trigger] f[j]).0@ != key,
    ensures
        field_of(f, key) == Some(f[i].1),
    decreases i,
{
    if i > 0 {
        assert(f[0].0@ != key);
        assert forall|j: int| 0 <= j < i - 1 implies (#[trigger] f.drop_first()[j]).0@ != key by {
            assert(f.drop_first()[j] == f[j + 1]);
        }
        lemma_field_at(f.drop_first(), key, i - 1);
    }
}

/// No member has the name.
pub(crate) proof fn lemma_field_absent(f: Seq<(String, JsonValue)>, key: Seq<char>)
    requires
        forall|j: int| 0 <= j < f.len() ==> (#[trigger] f[j]).0@ != key,
    ensures
        field_of(f, key) is None,
    decreases f.len(),
{
    if f.len() > 0 {
        assert forall|j: int| 0 <= j < f.len() - 1 implies (#[trigger] f.drop_first()[j]).0@ != key by {
            assert(f.drop_first()[j] == f[j + 1]);
        }
        lemma_field_absent(f.drop_first(), key);
    }
}

/// The member names the encoding uses are distinct.
proof fn lemma_member_names()
    ensures
        "type"@ != "text"@,
        "type"@ != "attrs"@,
        "type"@ != "content"@,
        "type"@ != "marks"@,
        "text"@ != "attrs"@,
        "text"@ != "content"@,
        "text"@ != "marks"@,
        "attrs"@ != "content"@,
        "attrs"@ != "marks"@,
        "content"@ != "marks"@,
{
    reveal_strlit("type");
    reveal_strlit("text");
    reveal_strlit("attrs");
    reveal_strlit("content");
    reveal_strlit("marks");
    assert("type"@[1] != "text"@[1]);
    assert("type"@.len() != "attrs"@.len());
    assert("type"@.len() != "content"@.len());
    assert("type"@.len() != "marks"@.len());
    assert("text"@.len() != "attrs"@.len());
    assert("text"@.len() != "content"@.len());
    assert("text"@.len() != "marks"@.len());
    assert("attrs"@.len() != "content"@.len());
    assert("attrs"@[0] != "marks"@[0]);
    assert("content"@.len() != "marks"@.len());
}


// ---- what the encoding determines -----------------------------------------

/// A mark whose JSON reads back into an equal mark: its type is the
/// schema's and its attributes are sorted.
pub open spec fn mark_ready(s: Schema, m: Mark) -> bool {
    &&& m.spec_type_id() < s.spec_mark_types().len()
    &&& s.spec_mark_types()[m.spec_type_id() as int] == m.mark_type_spec()
    &&& keys_sorted(m.spec_attrs())
}

/// A node whose JSON reads back into an equal node: it is well formed, its
/// types are the schema's, its attributes are sorted, its marks are ready;
/// a text node has no attributes; an element's children are valid content
/// for its type and ready, and it holds every attribute its type declares
/// a default for.
pub open spec fn json_ready(s: Schema, n: Node) -> bool
    decreases n, n.spec_children().len() + 1,
{
    &&& n.wf()
    &&& s.has_node_type(n.spec_type())
    &&& keys_sorted(n.spec_attrs())
    &&& forall|i: int| 0 <= i < n.spec_marks().len() ==> mark_ready(s, #[trigger] n.spec_marks()[i])
    &&& match n.spec_text() {
        Some(_) => n.spec_type().spec_is_text() && n.spec_attrs().len() == 0 && n.spec_children().len() == 0,
        None => {
            &&& s.spec_content_valid(n.spec_type_id(), n.spec_children())
            &&& forall|k: Seq<char>| #[trigger] attrs_lookup(n.spec_attrs(), k) is None
                ==> default_for(n.spec_type().spec_decl().attrs@, k) is None
            &&& ready_children(s, n, n.spec_children().len() as int)
        },
    }
}

/// The first `k` children of `n` are ready.
pub open spec fn ready_children(s: Schema, n: Node, k: int) -> bool
    decreases n, k,
{
    if k <= 0 || k > n.spec_children().len() {
        true
    } else {
        proof {
            assert(decreases_to!(n => n.spec_children()[k - 1]));
        }
        ready_children(s, n, k - 1) && json_ready(s, n.spec_children()[k - 1])
    }
}

pub(crate) proof fn lemma_ready_children_at(s: Schema, n: Node, k: int, i: int)
    requires
        0 <= i < k <= n.spec_children().len(),
        ready_children(s, n, k),
    ensures
        json_ready(s, n.spec_children()[i]),
    decreases k,
{
    if i < k - 1 {
        lemma_ready_children_at(s, n, k - 1, i);
    }
}

proof fn lemma_ready_children(s: Schema, n: Node, k: int)
    requires
        0 <= k <= n.spec_children().len(),
        forall|i: int| 0 <= i < k ==> json_ready(s, #[trigger] n.spec_children()[i]),
    ensures
        ready_children(s, n, k),
    decreases k,
{
    if k > 0 {
        lemma_ready_children(s, n, k - 1);
    }
}

/// Decimal digits read back as the number they render.
pub proof fn lemma_decimal_digits(n: nat)
    ensures
        is_digits(decimal(n)),
        digits_value(decimal(n)) == n,
    decreases n,
{
    lemma_digit_char_value(n % 10);
    if n < 10 {
        assert(n % 10 == n);
        assert(decimal(n).drop_last() =~= Seq::<char>::empty());
        assert(decimal(n).last() == crate::strutil::digit_char(n));
        assert(digits_value(decimal(n)) == digits_value(Seq::<char>::empty()) * 10 + n);
    } else {
        lemma_decimal_digits(n / 10);
        let d = decimal(n / 10);
        assert(decimal(n).drop_last() =~= d);
        assert(decimal(n).last() == crate::strutil::digit_char(n % 10));
        assert(digits_value(decimal(n)) == digits_value(d) * 10 + n % 10);
        assert((n / 10) * 10 + n % 10 == n) by (nonlinear_arith);
        assert forall|i: int| 0 <= i < decimal(n).len() implies '0' <= #[trigger] decimal(n)[i] <= '9' by {
            if i < d.len() {
                assert(decimal(n)[i] == d[i]);
            }
        }
    }
}

proof fn lemma_digit_char_value(d: nat)
    requires
        d < 10,
    ensures
        '0' <= crate::strutil::digit_char(d) <= '9',
        (crate::strutil::digit_char(d) as nat) - ('0' as nat) == d,
{
}

/// The JSON of an attribute value determines it.
pub(crate) proof fn lemma_json_attr_value_unique(j: JsonValue, a: AttrValueV, b: AttrValueV)
    requires
        json_attr_value(j, a),
        json_attr_value(j, b),
    ensures
        a == b,
{
    match (a, b) {
        (AttrValueV::Number(x), AttrValueV::Number(y)) => {
            lemma_decimal_digits(x as nat);
            lemma_decimal_digits(y as nat);
        },
        _ => {},
    }
}

/// The JSON of an attribute map determines it.
proof fn lemma_json_attrs_unique(j: JsonValue, a: AttrsV, b: AttrsV)
    requires
        json_attrs(j, a),
        json_attrs(j, b),
    ensures
        a == b,
{
    assert forall|i: int| 0 <= i < a.len() implies a[i] == b[i] by {
        let f = j->Object_0@;
        assert(f[i].0@ == a[i].0 && json_attr_value(f[i].1, a[i].1));
        assert(f[i].0@ == b[i].0 && json_attr_value(f[i].1, b[i].1));
        lemma_json_attr_value_unique(f[i].1, a[i].1, b[i].1);
    }
    assert(a =~= b);
}

proof fn lemma_json_attrs_member_unique(j: Option<JsonValue>, a: AttrsV, b: AttrsV)
    requires
        json_attrs_member(j, a),
        json_attrs_member(j, b),
    ensures
        a == b,
{
    if a.len() > 0 {
        lemma_json_attrs_unique(j->0, a, b);
    } else {
        assert(a =~= b);
    }
}

/// Distinct names locate distinct entries.
proof fn lemma_distinct_index(names: Seq<Seq<char>>, i: int, j: int)
    requires
        distinct(names),
        0 <= i < names.len(),
        0 <= j < names.len(),
        names[i] == names[j],
    ensures
        i == j,
{
    if i < j {
        assert(names[i] != names[j]);
    } else if j < i {
        assert(names[j] != names[i]);
    }
}

/// The JSON of a ready mark determines the mark's value.
pub(crate) proof fn lemma_json_mark_unique(s: Schema, j: JsonValue, a: Mark, b: Mark)
    requires
        distinct(s.spec_mark_names()),
        json_mark(j, a),
        json_mark(j, b),
        mark_ready(s, a),
        mark_ready(s, b),
    ensures
        a.view_spec() == b.view_spec(),
{
    assert(s.spec_mark_names()[a.spec_type_id() as int] == a.mark_type_spec().spec_name());
    assert(s.spec_mark_names()[b.spec_type_id() as int] == b.mark_type_spec().spec_name());
    lemma_distinct_index(s.spec_mark_names(), a.spec_type_id() as int, b.spec_type_id() as int);
    lemma_json_attrs_member_unique(member(j, "attrs"@), a.spec_attrs(), b.spec_attrs());
}

/// The JSON of a ready node determines the node: two ready nodes with the
/// same JSON are equal.
pub proof fn lemma_json_node_unique(s: Schema, j: JsonValue, a: Node, b: Node)
    requires
        distinct(s.spec_node_names()),
        distinct(s.spec_mark_names()),
        json_node(j, a),
        json_node(j, b),
        json_ready(s, a),
        json_ready(s, b),
    ensures
        node_equiv(a, b),
    decreases a, a.spec_children().len() + 1,
{
    assert(s.spec_node_names()[a.spec_type_id() as int] == a.spec_type().spec_name());
    assert(s.spec_node_names()[b.spec_type_id() as int] == b.spec_type().spec_name());
    lemma_distinct_index(s.spec_node_names(), a.spec_type_id() as int, b.spec_type_id() as int);
    lemma_json_attrs_member_unique(member(j, "attrs"@), a.spec_attrs(), b.spec_attrs());
    let ma = a.spec_marks();
    let mb = b.spec_marks();
    if ma.len() > 0 {
        assert(mb.len() > 0);
        let arr = member(j, "marks"@)->0->Array_0@;
        assert forall|i: int| 0 <= i < ma.len() implies ma[i].view_spec() == mb[i].view_spec() by {
            assert(json_mark(arr[i], ma[i]));
            assert(json_mark(arr[i], mb[i]));
            assert(mark_ready(s, ma[i]));
            assert(mark_ready(s, mb[i]));
            lemma_json_mark_unique(s, arr[i], ma[i], mb[i]);
        }
    } else {
        assert(mb.len() == 0);
    }
    assert(marks_view(ma) =~= marks_view(mb));
    let len = a.spec_children().len();
    if len > 0 {
        assert(b.spec_children().len() == len);
        let arr = member(j, "content"@)->0->Array_0@;
        lemma_children_unique(s, arr, a, b, len as int);
    } else {
        assert(b.spec_children().len() == 0);
    }
}

proof fn lemma_children_unique(s: Schema, arr: Seq<JsonValue>, a: Node, b: Node, k: int)
    requires
        distinct(s.spec_node_names()),
        distinct(s.spec_mark_names()),
        0 <= k <= a.spec_children().len(),
        a.spec_children().len() == b.spec_children().len(),
        json_children(arr, a, a.spec_children().len() as int),
        json_children(arr, b, b.spec_children().len() as int),
        ready_children(s, a, a.spec_children().len() as int),
        ready_children(s, b, b.spec_children().len() as int),
    ensures
        children_equiv(a, b, k),
    decreases a, k,
{
    if k > 0 {
        lemma_children_unique(s, arr, a, b, k - 1);
        let len = a.spec_children().len() as int;
        lemma_json_children_at(arr, a, len, k - 1);
        lemma_json_children_at(arr, b, len, k - 1);
        lemma_ready_children_at(s, a, len, k - 1);
        lemma_ready_children_at(s, b, len, k - 1);
        assert(decreases_to!(a => a.spec_children()[k - 1]));
        lemma_json_node_unique(s, arr[k - 1], a.spec_children()[k - 1], b.spec_children()[k - 1]);
    }
}

/// Equal ready nodes have equal sizes.
proof fn lemma_equiv_size(s: Schema, a: Node, b: Node)
    requires
        node_equiv(a, b),
        json_ready(s, a),
        json_ready(s, b),
    ensures
        a.spec_size() == b.spec_size(),
    decreases a, a.spec_children().len() + 1,
{
    assert(a.spec_type() == s.spec_node_types()[a.spec_type_id() as int]);
    assert(b.spec_type() == s.spec_node_types()[b.spec_type_id() as int]);
    if a.spec_text() is None {
        let len = a.spec_children().len() as int;
        assert forall|k: int| 0 <= k < len implies node_equiv(#[trigger] a.spec_children()[k], b.spec_children()[k])
            && json_ready(s, a.spec_children()[k]) && json_ready(s, b.spec_children()[k]) by {
            lemma_equiv_at(a, b, len, k);
            lemma_ready_children_at(s, a, len, k);
            lemma_ready_children_at(s, b, len, k);
        }
        lemma_sizes_equal_rec(s, a, b, len);
        assert(a.spec_children().take(len) =~= a.spec_children());
        assert(b.spec_children().take(len) =~= b.spec_children());
    }
}

/// Pairwise equal ready children sum to equal sizes.
proof fn lemma_sizes_equal_rec(s: Schema, a: Node, b: Node, k: int)
    requires
        0 <= k <= a.spec_children().len(),
        a.spec_children().len() == b.spec_children().len(),
        forall|i: int| 0 <= i < a.spec_children().len() ==> node_equiv(#[trigger] a.spec_children()[i], b.spec_children()[i])
            && json_ready(s, a.spec_children()[i]) && json_ready(s, b.spec_children()[i]),
    ensures
        nodes_size(a.spec_children().take(k)) == nodes_size(b.spec_children().take(k)),
    decreases a, k,
{
    if k > 0 {
        lemma_sizes_equal_rec(s, a, b, k - 1);
        assert(a.spec_children().take(k).drop_last() =~= a.spec_children().take(k - 1));
        assert(b.spec_children().take(k).drop_last() =~= b.spec_children().take(k - 1));
        assert(decreases_to!(a => a.spec_children()[k - 1]));
        lemma_equiv_size(s, a.spec_children()[k - 1], b.spec_children()[k - 1]);
    }
}

/// Sequences of pairwise equal ready nodes have equal summed sizes.
proof fn lemma_sizes_equal(s: Schema, xs: Seq<Node>, ys: Seq<Node>)
    requires
        xs.len() == ys.len(),
        forall|i: int| 0 <= i < xs.len() ==> node_equiv(#[trigger] xs[i], ys[i]) && json_ready(s, ys[i]),
        forall|i: int| 0 <= i < xs.len() ==> json_ready(s, #[trigger] xs[i]),
    ensures
        nodes_size(xs) == nodes_size(ys),
    decreases xs.len(),
{
    if xs.len() > 0 {
        let n = xs.len() - 1;
        assert(node_equiv(xs[n], ys[n]) && json_ready(s, ys[n]) && json_ready(s, xs[n]));
        lemma_equiv_size(s, xs[n], ys[n]);
        lemma_sizes_equal(s, xs.drop_last(), ys.drop_last());
    }
}

/// The children of equal nodes are equal.
proof fn lemma_equiv_at(a: Node, b: Node, k: int, i: int)
    requires
        0 <= i < k <= a.spec_children().len(),
        children_equiv(a, b, k),
    ensures
        node_equiv(a.spec_children()[i], b.spec_children()[i]),
    decreases k,
{
    if i < k - 1 {
        lemma_equiv_at(a, b, k - 1, i);
    }
}

/// A node built from valid children is built from valid children.
proof fn lemma_valid_children_of(s: Schema, n: Node, kids: Seq<Node>)
    requires
        n.spec_children() == kids,
        forall|i: int| 0 <= i < kids.len() ==> valid_tree(s, #[trigger] kids[i]),
    ensures
        crate::schema::valid_children(s, n, kids.len() as int),
{
    crate::schema::lemma_valid_children(s, n, kids.len() as int);
}

impl JsonValue {
    /// The member `key` of an object (the first, when it repeats).
    pub fn get(&self, key: &str) -> (r: Option<&JsonValue>)
        ensures
            match r {
                Some(v) => member(*self, key@) == Some(*v),
                None => member(*self, key@) is None,
            },
    {
        match self {
            JsonValue::Object(fields) => {
                let mut i: usize = 0;
                proof {
                    assert(fields@.skip(0) =~= fields@);
                }
                while i < fields.len()
                    invariant
                        i <= fields@.len(),
                        member(*self, key@) == field_of(fields@, key@),
                        field_of(fields@, key@) == field_of(fields@.skip(i as int), key@),
                    decreases fields.len() - i,
                {
                    proof {
                        assert(fields@.skip(i as int).drop_first() =~= fields@.skip(i as int + 1));
                    }
                    proof {
                        assert(fields@.skip(i as int)[0] == fields@[i as int]);
                    }
                    if str_eq(fields[i].0.as_str(), key) {
                        proof {
                            assert(field_of(fields@.skip(i as int), key@) == Some(fields@[i as int].1));
                        }
                        return Some(&fields[i].1);
                    }
                    i = i + 1;
                }
                proof {
                    assert(fields@.skip(i as int) =~= Seq::<(String, JsonValue)>::empty());
                }
                None
            },
            _ => None,
        }
    }

    /// The string, when this is a JSON string.
    pub fn as_str(&self) -> (r: Option<&str>)
        ensures
            match *self {
                JsonValue::String(s) => (r matches Some(t) && t@ == s@),
                _ => r is None,
            },
    {
        match self {
            JsonValue::String(s) => Some(s.as_str()),
            _ => None,
        }
    }

    /// The value of a number written as a plain non-negative integer that
    /// fits a `u64`.
    pub fn as_u64(&self) -> (r: Option<u64>)
        ensures
            match *self {
                JsonValue::Number(t) => match r {
                    Some(n) => is_digits(t@) && n == digits_value(t@),
                    None => !is_digits(t@) || digits_value(t@) > u64::MAX,
                },
                _ => r is None,
            },
    {
        match self {
            JsonValue::Number(t) => parse_digits(t.as_str()),
            _ => None,
        }
    }

    /// The number `n`.
    pub fn from_u64(n: u64) -> (r: JsonValue)
        ensures
            r matches JsonValue::Number(t) && t@ == decimal(n as nat),
    {
        let cs = decimal_chars(n);
        JsonValue::Number(string_from_chars(&cs))
    }

    /// The string `s`.
    pub fn from_str(s: &str) -> (r: JsonValue)
        ensures
            r matches JsonValue::String(t) && t@ == s@,
    {
        JsonValue::String(s.to_string())
    }
}

/// The value of `s` read as decimal digits, when it is one that fits a `u64`.
pub(crate) fn parse_digits(s: &str) -> (r: Option<u64>)
    ensures
        match r {
            Some(n) => is_digits(s@) && n == digits_value(s@),
            None => !is_digits(s@) || digits_value(s@) > u64::MAX,
        },
{
    let cs = chars_of(s);
    if cs.len() == 0 {
        return None;
    }
    let mut value: u64 = 0;
    let mut i: usize = 0;
    while i < cs.len()
        invariant
            i <= cs@.len(),
            cs@ == s@,
            cs@.len() > 0,
            forall|k: int| 0 <= k < i ==> '0' <= #[trigger] cs@[k] <= '9',
            value == digits_value(cs@.take(i as int)),
        decreases cs.len() - i,
    {
        let c = cs[i];
        proof {
            assert(cs@.take(i as int + 1).drop_last() =~= cs@.take(i as int));
            assert(cs@.take(i as int + 1).last() == c);
        }
        if c < '0' || c > '9' {
            return None;
        }
        let d = (c as u32 - '0' as u32) as u64;
        if value > (u64::MAX - d) / 10 {
            proof {
                assert(value * 10 + d > u64::MAX);
                if is_digits(cs@) {
                    lemma_digits_grow(cs@, i as int + 1);
                }
            }
            return None;
        }
        value = value * 10 + d;
        i = i + 1;
    }
    proof {
        assert(cs@.take(cs@.len() as int) =~= cs@);
    }
    Some(value)
}

/// The value of a prefix bounds the value of the whole run from below.
proof fn lemma_digits_grow(s: Seq<char>, k: int)
    requires
        0 <= k <= s.len(),
        is_digits(s),
    ensures
        digits_value(s.take(k)) <= digits_value(s),
    decreases s.len() - k,
{
    if k < s.len() {
        lemma_digits_grow(s, k + 1);
        assert(s.take(k + 1).drop_last() =~= s.take(k));
    } else {
        assert(s.take(k) =~= s);
    }
}

/// The JSON encoding of an attribute value.
pub(crate) fn attr_value_to_json(v: &AttrValue) -> (r: JsonValue)
    ensures
        json_attr_value(r, v@),
{
    match v {
        AttrValue::Null => JsonValue::Null,
        AttrValue::Bool(b) => JsonValue::Bool(*b),
        AttrValue::Number(n) => JsonValue::from_u64(*n),
        AttrValue::String(s) => JsonValue::String(s.clone()),
    }
}

/// An attribute value read from JSON: null, booleans, strings and
/// non-negative integers.
pub(crate) fn attr_value_from_json(v: &JsonValue) -> (r: Result<AttrValue, DocError>)
    ensures
        match *v {
            JsonValue::Null => (r matches Ok(AttrValue::Null)),
            JsonValue::Bool(b) => (r matches Ok(AttrValue::Bool(c)) && c == b),
            JsonValue::String(s) => (r matches Ok(AttrValue::String(t)) && t@ == s@),
            JsonValue::Number(t) => match r {
                Ok(AttrValue::Number(n)) => is_digits(t@) && n == digits_value(t@),
                Ok(_) => false,
                Err(e) => (e is MalformedJson) && (!is_digits(t@) || digits_value(t@) > u64::MAX),
            },
            _ => (r matches Err(DocError::MalformedJson(_))),
        },
{
    match v {
        JsonValue::Null => Ok(AttrValue::Null),
        JsonValue::Bool(b) => Ok(AttrValue::Bool(*b)),
        JsonValue::String(s) => Ok(AttrValue::String(s.clone())),
        JsonValue::Number(_) => match v.as_u64() {
            Some(n) => Ok(AttrValue::Number(n)),
            None => Err(DocError::MalformedJson("attribute numbers must be non-negative integers".to_string())),
        },
        _ => Err(DocError::MalformedJson("attribute values must be null, booleans, numbers or strings".to_string())),
    }
}

/// The JSON object of an attribute map, in key order.
fn attrs_to_json(attrs: &Attrs) -> (r: JsonValue)
    ensures
        json_attrs(r, attrs@),
{
    let mut fields: Vec<(String, JsonValue)> = Vec::new();
    let mut i: usize = 0;
    while i < attrs.len()
        invariant
            i <= attrs@.len(),
            fields@.len() == i,
            forall|k: int| 0 <= k < i ==> (#[trigger] fields@[k]).0@ == attrs@[k].0 && json_attr_value(fields@[k].1, attrs@[k].1),
        decreases attrs@.len() - i,
    {
        fields.push((attrs.key_at(i).to_string(), attr_value_to_json(attrs.value_at(i))));
        i = i + 1;
    }
    JsonValue::Object(fields)
}

/// The attributes held by the optional `attrs` member; when it is the JSON
/// of a sorted attribute map, exactly that map.
fn attrs_from_json(v: Option<&JsonValue>) -> (r: Result<Attrs, DocError>)
    ensures
        r matches Ok(a) ==> a.wf(),
        v is None ==> (r matches Ok(a) && a@.len() == 0),
        (v matches Some(j) && !(j is Object)) ==> (r matches Err(DocError::MalformedJson(_))),
        v matches Some(j) ==> forall|a: AttrsV| a.len() > 0 && keys_sorted(a) && #[trigger] json_attrs(*j, a)
            ==> (r matches Ok(res) && res@ == a),
        r matches Err(e) ==> e is MalformedJson,
{
    match v {
        None => Ok(Attrs::new()),
        Some(JsonValue::Object(fields)) => {
            let ghost j = *v.unwrap();
            let ghost has_a = exists|a: AttrsV| a.len() > 0 && keys_sorted(a) && #[trigger] json_attrs(j, a);
            let ghost a0 = choose|a: AttrsV| a.len() > 0 && keys_sorted(a) && #[trigger] json_attrs(j, a);
            let mut attrs = Attrs::new();
            let mut i: usize = 0;
            while i < fields.len()
                invariant
                    i <= fields@.len(),
                    attrs.wf(),
                    v is Some,
                    *v.unwrap() == j,
                    j == JsonValue::Object(*fields),
                    has_a == (exists|a: AttrsV| a.len() > 0 && keys_sorted(a) && #[trigger] json_attrs(j, a)),
                    has_a ==> a0.len() > 0 && keys_sorted(a0) && json_attrs(j, a0),
                    has_a ==> forall|k: Seq<char>| #[trigger] attrs.spec_get(k) == attrs_lookup(a0.take(i as int), k),
                decreases fields.len() - i,
            {
                let value = match attr_value_from_json(&fields[i].1) {
                    Ok(v) => v,
                    Err(e) => {
                        proof {
                            if has_a {
                                assert(json_attr_value(fields@[i as int].1, a0[i as int].1));
                                match a0[i as int].1 {
                                    AttrValueV::Number(n) => lemma_decimal_digits(n as nat),
                                    _ => {},
                                }
                                assert(false);
                            }
                            assert(!has_a);
                            assert forall|a: AttrsV| a.len() > 0 && keys_sorted(a) && #[trigger] json_attrs(j, a) implies false by {
                                assert(has_a);
                            }
                        }
                        return Err(e);
                    },
                };
                proof {
                    if has_a {
                        assert(json_attr_value(fields@[i as int].1, a0[i as int].1));
                        match a0[i as int].1 {
                            AttrValueV::Number(n) => lemma_decimal_digits(n as nat),
                            _ => {},
                        }
                        assert(value@ == a0[i as int].1);
                    }
                }
                let ghost before = attrs;
                attrs.insert(fields[i].0.clone(), value);
                proof {
                    if has_a {
                        assert(fields@[i as int].0@ == a0[i as int].0);
                        assert(a0.take(i as int + 1) =~= a0.take(i as int).push(a0[i as int]));
                        crate::attrs::lemma_sorted_prefix_absent(a0, i as int);
                        assert forall|k: Seq<char>| #[trigger] attrs.spec_get(k) == attrs_lookup(a0.take(i as int + 1), k) by {
                            crate::attrs::lemma_lookup_push(a0.take(i as int), a0[i as int], k);
                        }
                    }
                }
                i = i + 1;
            }
            proof {
                if has_a {
                    assert(a0.take(a0.len() as int) =~= a0);
                    assert(fields@.len() == a0.len());
                    assert forall|k: Seq<char>| #[trigger] attrs_lookup(attrs@, k) == attrs_lookup(a0, k) by {
                        assert(attrs.spec_get(k) == attrs_lookup(a0.take(a0.len() as int), k));
                    }
                    crate::attrs::lemma_sorted_ext(attrs@, a0);
                    assert forall|a: AttrsV| a.len() > 0 && keys_sorted(a) && #[trigger] json_attrs(j, a) implies attrs@ == a by {
                        lemma_json_attrs_unique(j, a, a0);
                    }
                }
            }
            Ok(attrs)
        },
        Some(_) => Err(DocError::MalformedJson("`attrs` must be an object".to_string())),
    }
}

impl Mark {
    /// The mark as JSON: its `type`, and its `attrs` when it has any.
    pub fn to_json(&self) -> (r: JsonValue)
        ensures
            r matches JsonValue::Object(f) && keys_of(f@) == mark_keys(*self)
                && (f@[0].1 matches JsonValue::String(t) && t@ == self.mark_type_spec().spec_name()),
            json_mark(r, *self),
    {
        let mut fields: Vec<(String, JsonValue)> = Vec::new();
        fields.push(("type".to_string(), JsonValue::String(self.mark_type().name().to_string())));
        if !self.attrs().is_empty() {
            fields.push(("attrs".to_string(), attrs_to_json(self.attrs())));
        }
        proof {
            assert(keys_of(fields@) =~= mark_keys(*self));
            lemma_member_names();
            lemma_field_at(fields@, "type"@, 0);
            if fields@.len() > 1 {
                assert(fields@[1].0@ == "attrs"@);
                lemma_field_at(fields@, "attrs"@, 1);
            } else {
                lemma_field_absent(fields@, "attrs"@);
            }
        }
        JsonValue::Object(fields)
    }
}

/// The member names of a JSON object, in order.
pub open spec fn keys_of(f: Seq<(String, JsonValue)>) -> Seq<Seq<char>> {
    Seq::new(f.len(), |i: int| f[i].0@)
}

/// The members a mark's JSON has: `type`, then `attrs` when it has any.
pub open spec fn mark_keys(m: Mark) -> Seq<Seq<char>> {
    seq!["type"@] + if m.spec_attrs().len() > 0 { seq!["attrs"@] } else { Seq::empty() }
}

/// The members a node's JSON has, in order: `type`, then `text`, `attrs`,
/// `content` and `marks` when present.
pub open spec fn node_keys(n: Node) -> Seq<Seq<char>> {
    seq!["type"@]
        + (if n.spec_text() is Some { seq!["text"@] } else { Seq::empty() })
        + (if n.spec_attrs().len() > 0 { seq!["attrs"@] } else { Seq::empty() })
        + (if n.spec_children().len() > 0 { seq!["content"@] } else { Seq::empty() })
        + (if n.spec_marks().len() > 0 { seq!["marks"@] } else { Seq::empty() })
}

impl Node {
    /// The node as JSON: `type`, then `text`, `attrs`, `content` and
    /// `marks` when present.
    pub fn to_json(&self) -> (r: JsonValue)
        ensures
            r matches JsonValue::Object(f) && keys_of(f@) == node_keys(*self)
                && (f@[0].1 matches JsonValue::String(t) && t@ == self.spec_type().spec_name()),
            json_node(r, *self),
        decreases *self,
    {
        let mut fields: Vec<(String, JsonValue)> = Vec::new();
        fields.push(("type".to_string(), JsonValue::String(self.node_type().name().to_string())));
        let ghost i_text = fields@.len();
        match self.text() {
            Some(t) => {
                fields.push(("text".to_string(), JsonValue::String(t.to_string())));
            },
            None => {},
        }
        let ghost i_attrs = fields@.len();
        if !self.attrs().is_empty() {
            fields.push(("attrs".to_string(), attrs_to_json(self.attrs())));
        }
        let ghost i_content = fields@.len();
        let n = self.child_count();
        if n > 0 {
            let mut content: Vec<JsonValue> = Vec::new();
            let mut i: usize = 0;
            while i < n
                invariant
                    i <= n,
                    n == self.spec_children().len(),
                    content@.len() == i,
                    forall|k: int| 0 <= k < i ==> json_node(#[trigger] content@[k], self.spec_children()[k]),
                decreases n - i,
            {
                proof {
                    assert(decreases_to!(*self => self.0.content.0.content@[i as int]));
                }
                content.push(self.child(i).to_json());
                i = i + 1;
            }
            proof {
                lemma_json_children(content@, *self, n as int);
            }
            fields.push(("content".to_string(), JsonValue::Array(content)));
        }
        let ghost i_marks = fields@.len();
        let marks = self.marks();
        if marks.len() > 0 {
            let mut ms: Vec<JsonValue> = Vec::new();
            let mut i: usize = 0;
            while i < marks.len()
                invariant
                    i <= marks@.len(),
                    ms@.len() == i,
                    forall|k: int| 0 <= k < i ==> json_mark(#[trigger] ms@[k], marks@[k]),
                decreases marks.len() - i,
            {
                ms.push(marks[i].to_json());
                i = i + 1;
            }
            fields.push(("marks".to_string(), JsonValue::Array(ms)));
        }
        proof {
            assert(keys_of(fields@) =~= node_keys(*self));
            lemma_member_names();
            let f = fields@;
            assert forall|j: int| 0 <= j < f.len() implies ((#[trigger] f[j]).0@ == "type"@ <==> j == 0) by {
                assert(f[j].0@ == keys_of(f)[j]);
            }
            lemma_field_at(f, "type"@, 0);
            if self.spec_text() is Some {
                assert forall|j: int| 0 <= j < i_text implies (#[trigger] f[j]).0@ != "text"@ by {
                    assert(f[j].0@ == keys_of(f)[j]);
                }
                lemma_field_at(f, "text"@, i_text as int);
            } else {
                assert forall|j: int| 0 <= j < f.len() implies (#[trigger] f[j]).0@ != "text"@ by {
                    assert(f[j].0@ == keys_of(f)[j]);
                }
                lemma_field_absent(f, "text"@);
            }
            if self.spec_attrs().len() > 0 {
                assert forall|j: int| 0 <= j < i_attrs implies (#[trigger] f[j]).0@ != "attrs"@ by {
                    assert(f[j].0@ == keys_of(f)[j]);
                }
                lemma_field_at(f, "attrs"@, i_attrs as int);
            } else {
                assert forall|j: int| 0 <= j < f.len() implies (#[trigger] f[j]).0@ != "attrs"@ by {
                    assert(f[j].0@ == keys_of(f)[j]);
                }
                lemma_field_absent(f, "attrs"@);
            }
            if self.spec_children().len() > 0 {
                assert forall|j: int| 0 <= j < i_content implies (#[trigger] f[j]).0@ != "content"@ by {
                    assert(f[j].0@ == keys_of(f)[j]);
                }
                lemma_field_at(f, "content"@, i_content as int);
            } else {
                assert forall|j: int| 0 <= j < f.len() implies (#[trigger] f[j]).0@ != "content"@ by {
                    assert(f[j].0@ == keys_of(f)[j]);
                }
                lemma_field_absent(f, "content"@);
            }
            if self.spec_marks().len() > 0 {
                assert forall|j: int| 0 <= j < i_marks implies (#[trigger] f[j]).0@ != "marks"@ by {
                    assert(f[j].0@ == keys_of(f)[j]);
                }
                lemma_field_at(f, "marks"@, i_marks as int);
            } else {
                assert forall|j: int| 0 <= j < f.len() implies (#[trigger] f[j]).0@ != "marks"@ by {
                    assert(f[j].0@ == keys_of(f)[j]);
                }
                lemma_field_absent(f, "marks"@);
            }
        }
        JsonValue::Object(fields)
    }
}

impl Schema {
    /// Read a mark from its JSON.
    pub fn mark_from_json(&self, v: &JsonValue) -> (r: Result<Mark, DocError>)
        ensures
            !(*v is Object) ==> (r matches Err(DocError::MalformedJson(_))),
            (*v is Object && !(member(*v, "type"@) matches Some(JsonValue::String(_)))) ==> (r matches Err(DocError::MalformedJson(_))),
            (member(*v, "type"@) matches Some(JsonValue::String(t)) && !self.spec_mark_names().contains(t@))
                ==> (r matches Err(DocError::UnknownMarkType(n)) && member(*v, "type"@) matches Some(JsonValue::String(t)) && n@ == t@),
            r matches Ok(m) ==> (member(*v, "type"@) matches Some(JsonValue::String(t)) && m.mark_type_spec().spec_name() == t@
                && m.spec_type_id() < self.spec_mark_types().len()
                && self.spec_mark_types()[m.spec_type_id() as int] == m.mark_type_spec()),
            forall|mk: Mark| #[trigger] json_mark(*v, mk) && mark_ready(*self, mk)
                ==> (r matches Ok(m) && json_mark(*v, m) && mark_ready(*self, m)),
            r matches Err(e) ==> e is MalformedJson || e is UnknownMarkType,
    {
        if !matches!(v, JsonValue::Object(_)) {
            return Err(DocError::MalformedJson("mark: expected an object".to_string()));
        }
        let name = match v.get("type") {
            Some(JsonValue::String(t)) => t.as_str(),
            _ => {
                return Err(DocError::MalformedJson("mark: missing `type`".to_string()));
            },
        };
        let mt = match self.mark_type(name) {
            Some(t) => t,
            None => {
                proof {
                    assert forall|mk: Mark| #[trigger] json_mark(*v, mk) && mark_ready(*self, mk) implies false by {
                        assert(self.spec_mark_names()[mk.spec_type_id() as int] == name@);
                    }
                }
                return Err(DocError::UnknownMarkType(name.to_string()));
            },
        };
        proof {
            assert(self.spec_mark_names()[mt.spec_id() as int] == name@);
        }
        let attrs = match attrs_from_json(v.get("attrs")) {
            Ok(a) => a,
            Err(e) => {
                proof {
                    assert forall|mk: Mark| #[trigger] json_mark(*v, mk) && mark_ready(*self, mk) implies false by {
                        if mk.spec_attrs().len() > 0 {
                            assert(json_attrs(member(*v, "attrs"@)->0, mk.spec_attrs()));
                        }
                    }
                }
                return Err(e);
            },
        };
        let m = mt.create(attrs);
        proof {
            assert forall|mk: Mark| #[trigger] json_mark(*v, mk) && mark_ready(*self, mk) implies json_mark(*v, m)
                && mark_ready(*self, m) by {
                if mk.spec_attrs().len() > 0 {
                    assert(json_attrs(member(*v, "attrs"@)->0, mk.spec_attrs()));
                    assert(m.spec_attrs() == mk.spec_attrs());
                } else {
                    assert(m.spec_attrs().len() == 0);
                }
            }
        }
        Ok(m)
    }

    /// Read the optional `marks` member.
    fn marks_from_json(&self, v: Option<&JsonValue>) -> (r: Result<Vec<Mark>, DocError>)
        ensures
            v is None ==> (r matches Ok(ms) && ms@.len() == 0),
            (v matches Some(j) && !(j is Array)) ==> (r matches Err(DocError::MalformedJson(_))),
            v matches Some(JsonValue::Array(a)) ==> (r matches Ok(ms) ==> ms@.len() == a@.len()),
            v matches Some(j) ==> forall|ms: Seq<Mark>| #[trigger] json_marks(Some(*j), ms) && ms.len() > 0
                && (forall|i: int| 0 <= i < ms.len() ==> mark_ready(*self, #[trigger] ms[i]))
                ==> (r matches Ok(out) && json_marks(Some(*j), out@) && forall|i: int| 0 <= i < out@.len() ==> mark_ready(*self, #[trigger] out@[i])),
            r matches Err(e) ==> e is MalformedJson || e is UnknownMarkType,
    {
        match v {
            None => Ok(Vec::new()),
            Some(JsonValue::Array(a)) => {
                let ghost j = *v.unwrap();
                let ghost has = exists|ms: Seq<Mark>| #[trigger] json_marks(Some(j), ms) && ms.len() > 0
                    && (forall|i: int| 0 <= i < ms.len() ==> mark_ready(*self, #[trigger] ms[i]));
                let ghost w = choose|ms: Seq<Mark>| #[trigger] json_marks(Some(j), ms) && ms.len() > 0
                    && (forall|i: int| 0 <= i < ms.len() ==> mark_ready(*self, #[trigger] ms[i]));
                let mut out: Vec<Mark> = Vec::new();
                let mut i: usize = 0;
                while i < a.len()
                    invariant
                        i <= a@.len(),
                        out@.len() == i,
                        v matches Some(JsonValue::Array(b)) && b == a,
                        *v.unwrap() == j,
                        has == (exists|ms: Seq<Mark>| #[trigger] json_marks(Some(j), ms) && ms.len() > 0
                            && (forall|i: int| 0 <= i < ms.len() ==> mark_ready(*self, #[trigger] ms[i]))),
                        has ==> json_marks(Some(j), w) && w.len() > 0 && (forall|i: int| 0 <= i < w.len() ==> mark_ready(*self, #[trigger] w[i])),
                        has ==> forall|k: int| 0 <= k < i ==> json_mark(a@[k], #[trigger] out@[k]) && mark_ready(*self, out@[k]),
                    decreases a.len() - i,
                {
                    proof {
                        if has {
                            assert(json_mark(a@[i as int], w[i as int]) && mark_ready(*self, w[i as int]));
                        }
                    }
                    match self.mark_from_json(&a[i]) {
                        Ok(m) => out.push(m),
                        Err(e) => {
                            proof {
                                if has {
                                    assert(json_mark(a@[i as int], w[i as int]) && mark_ready(*self, w[i as int]));
                                    assert(false);
                                }
                                assert forall|ms: Seq<Mark>| #[trigger] json_marks(Some(j), ms) && ms.len() > 0
                                    && (forall|i: int| 0 <= i < ms.len() ==> mark_ready(*self, #[trigger] ms[i])) implies false by {
                                    assert(has);
                                }
                            }
                            return Err(e);
                        },
                    }
                    i = i + 1;
                }
                proof {
                    assert forall|ms: Seq<Mark>| #[trigger] json_marks(Some(j), ms) && ms.len() > 0
                        && (forall|i: int| 0 <= i < ms.len() ==> mark_ready(*self, #[trigger] ms[i])) implies json_marks(Some(j), out@) by {
                        assert(out@.len() == a@.len());
                    }
                }
                Ok(out)
            },
            Some(_) => Err(DocError::MalformedJson("`marks` must be an array".to_string())),
        }
    }

    /// Read a node (and its descendants) from its JSON, checking every
    /// node against the schema. The JSON of a ready node reads back into a
    /// ready node with the same JSON (hence an equal node, see
    /// [`lemma_json_node_unique`]).
    pub fn node_from_json(&self, v: &JsonValue) -> (r: Result<Node, DocError>)
        ensures
            !(*v is Object) ==> (r matches Err(DocError::MalformedJson(_))),
            (*v is Object && !(member(*v, "type"@) matches Some(JsonValue::String(_)))) ==> (r matches Err(DocError::MalformedJson(_))),
            r matches Ok(n) ==> match member(*v, "text"@) {
                Some(JsonValue::String(t)) => n.spec_text() == Some(t@) && n.spec_type().spec_is_text(),
                _ => n.spec_text() is None && (member(*v, "type"@) matches Some(JsonValue::String(t))
                    && n.spec_type().spec_name() == t@)
                    && self.spec_content_valid(n.spec_type_id(), n.spec_children()),
            },
            r matches Ok(n) ==> valid_tree(*self, n),
            forall|w: Node| #[trigger] json_node(*v, w) && json_ready(*self, w)
                ==> (r matches Ok(m) && json_node(*v, m) && json_ready(*self, m)),
            member(*v, "text"@) is None ==> (member(*v, "type"@) matches Some(JsonValue::String(t))
                ==> (!self.spec_node_names().contains(t@) ==> r is Err)),
            r matches Err(DocError::UnknownNodeType(m)) ==> !self.spec_node_names().contains(m@),
            r matches Err(DocError::InvalidContent { parent }) ==> self.spec_node_names().contains(parent@),
        decreases *v,
    {
        let ghost has = exists|w: Node| #[trigger] json_node(*v, w) && json_ready(*self, w);
        let ghost w = choose|w: Node| #[trigger] json_node(*v, w) && json_ready(*self, w);
        self.check_names();
        if !matches!(v, JsonValue::Object(_)) {
            proof {
                assert forall|w2: Node| #[trigger] json_node(*v, w2) && json_ready(*self, w2) implies false by {}
            }
            return Err(DocError::MalformedJson("node: expected an object".to_string()));
        }
        let name = match v.get("type") {
            Some(JsonValue::String(t)) => t.as_str(),
            _ => {
                proof {
                    assert forall|w2: Node| #[trigger] json_node(*v, w2) && json_ready(*self, w2) implies false by {}
                }
                return Err(DocError::MalformedJson("node: missing `type`".to_string()));
            },
        };
        let marks = match self.marks_from_json(v.get("marks")) {
            Ok(m) => m,
            Err(e) => {
                proof {
                    assert forall|w2: Node| #[trigger] json_node(*v, w2) && json_ready(*self, w2) implies false by {
                        assert(forall|i: int| 0 <= i < w2.spec_marks().len() ==> mark_ready(*self, #[trigger] w2.spec_marks()[i]));
                        if w2.spec_marks().len() > 0 {
                            assert(json_marks(Some(member(*v, "marks"@)->0), w2.spec_marks()));
                        }
                    }
                }
                return Err(e);
            },
        };
        proof {
            if has {
                if w.spec_marks().len() > 0 {
                    assert(forall|i: int| 0 <= i < w.spec_marks().len() ==> mark_ready(*self, #[trigger] w.spec_marks()[i]));
                    assert(json_marks(Some(member(*v, "marks"@)->0), w.spec_marks()));
                } else {
                    assert(marks@.len() == 0);
                }
                assert(json_marks(member(*v, "marks"@), marks@));
                assert(forall|i: int| 0 <= i < marks@.len() ==> mark_ready(*self, #[trigger] marks@[i]));
            }
        }
        match v.get("text") {
            Some(t) => {
                return match t {
                    JsonValue::String(text) => {
                        let r = self.text(text.as_str(), marks);
                        match &r {
                            Ok(m) => m.check_wf(),
                            Err(_) => {},
                        }
                        proof {
                            if has {
                                assert(w.spec_text() is Some);
                                assert(w.spec_type() == self.spec_node_types()[w.spec_type_id() as int]);
                                assert(w.spec_type().spec_name() == "text"@);
                                assert(self.spec_node_names()[w.spec_type_id() as int] == "text"@);
                                assert(r is Ok);
                                let m = r->Ok_0;
                                assert(w.spec_type() == self.spec_node_types()[w.spec_type_id() as int]);
                                assert(m.spec_type() == self.spec_node_types()[m.spec_type_id() as int]);
                                assert(m.spec_type().spec_name() == "text"@);
                                assert(w.spec_type().spec_name() == "text"@);
                                assert(m.spec_attrs() =~= w.spec_attrs());
                                assert(json_node(*v, m));
                                assert(json_ready(*self, m));
                            }
                            assert forall|w2: Node| #[trigger] json_node(*v, w2) && json_ready(*self, w2)
                                implies (r matches Ok(m) && json_node(*v, m) && json_ready(*self, m)) by {
                                assert(has);
                            }
                        }
                        r
                    },
                    _ => {
                        proof {
                            assert forall|w2: Node| #[trigger] json_node(*v, w2) && json_ready(*self, w2) implies false by {}
                        }
                        Err(DocError::MalformedJson("`text` must be a string".to_string()))
                    },
                };
            },
            None => {},
        }
        let mut children: Vec<Node> = Vec::new();
        match v.get("content") {
            None => {},
            Some(JsonValue::Array(a)) => {
                let mut i: usize = 0;
                while i < a.len()
                    invariant
                        i <= a@.len(),
                        children@.len() == i,
                        member(*v, "content"@) == Some(JsonValue::Array(*a)),
                        *v is Object,
                        member(*v, "type"@) matches Some(JsonValue::String(_)),
                        has == (exists|w: Node| #[trigger] json_node(*v, w) && json_ready(*self, w)),
                        has ==> json_node(*v, w) && json_ready(*self, w),
                        has ==> a@.len() == w.spec_children().len(),
                        forall|k: int| 0 <= k < i ==> valid_tree(*self, #[trigger] children@[k]),
                        has ==> forall|k: int| 0 <= k < i ==> json_node(a@[k], #[trigger] children@[k])
                            && json_ready(*self, children@[k]),
                    decreases a.len() - i,
                {
                    proof {
                        lemma_member_decreases(*v, "content"@);
                        let c = member(*v, "content"@).unwrap();
                        assert(c->Array_0 == *a);
                        assert(decreases_to!(c => c->Array_0));
                        assert(decreases_to!(*a => a@));
                        assert(decreases_to!(a@ => a@[i as int]));
                        if has {
                            let len = w.spec_children().len() as int;
                            lemma_json_children_at(a@, w, len, i as int);
                            lemma_ready_children_at(*self, w, len, i as int);
                            assert(json_node(a@[i as int], w.spec_children()[i as int]));
                        }
                    }
                    match self.node_from_json(&a[i]) {
                        Ok(n) => children.push(n),
                        Err(e) => {
                            proof {
                                assert(!has);
                                assert forall|w2: Node| #[trigger] json_node(*v, w2) && json_ready(*self, w2) implies false by {
                                    assert(has);
                                }
                            }
                            return Err(e);
                        },
                    }
                    i = i + 1;
                }
            },
            Some(_) => {
                proof {
                    assert forall|w2: Node| #[trigger] json_node(*v, w2) && json_ready(*self, w2) implies false by {}
                }
                return Err(DocError::MalformedJson("`content` must be an array".to_string()));
            },
        }
        let ghost len = children@.len();
        proof {
            if has {
                if w.spec_children().len() == 0 {
                    assert(children@.len() == 0);
                } else {
                    assert(len == w.spec_children().len());
                }
                // The children read back equal the witness's children.
                assert forall|k: int| 0 <= k < len implies node_equiv(#[trigger] children@[k], w.spec_children()[k])
                    && json_ready(*self, w.spec_children()[k]) by {
                    let arr = member(*v, "content"@)->0->Array_0@;
                    lemma_json_children_at(arr, w, len as int, k);
                    lemma_ready_children_at(*self, w, len as int, k);
                    lemma_json_node_unique(*self, arr[k], children@[k], w.spec_children()[k]);
                }
            }
        }
        let attrs = match attrs_from_json(v.get("attrs")) {
            Ok(a) => a,
            Err(e) => {
                proof {
                    assert forall|w2: Node| #[trigger] json_node(*v, w2) && json_ready(*self, w2) implies false by {
                        if w2.spec_attrs().len() > 0 {
                            assert(json_attrs(member(*v, "attrs"@)->0, w2.spec_attrs()));
                        }
                    }
                }
                return Err(e);
            },
        };
        proof {
            if has {
                if w.spec_attrs().len() > 0 {
                    assert(json_attrs(member(*v, "attrs"@)->0, w.spec_attrs()));
                }
                assert(attrs@ =~= w.spec_attrs());
            }
        }
        match checked_sum_sizes(&children) {
            Some(total) => {
                if total > usize::MAX - 2 {
                    proof {
                        if has {
                            lemma_sizes_equal(*self, children@, w.spec_children());
                        }
                        assert forall|w2: Node| #[trigger] json_node(*v, w2) && json_ready(*self, w2) implies false by {
                            assert(has);
                        }
                    }
                    return Err(DocError::TooLarge);
                }
            },
            None => {
                proof {
                    if has {
                        lemma_sizes_equal(*self, children@, w.spec_children());
                    }
                    assert forall|w2: Node| #[trigger] json_node(*v, w2) && json_ready(*self, w2) implies false by {
                        assert(has);
                    }
                }
                return Err(DocError::TooLarge);
            },
        }
        proof {
            if has {
                let ids = Seq::new(len, |i: int| children@[i].spec_type_id());
                let wids = Seq::new(len, |i: int| w.spec_children()[i].spec_type_id());
                assert(ids =~= wids);
                assert(self.spec_node_names()[w.spec_type_id() as int] == name@);
                self.lemma_id_of(w.spec_type_id());
            }
        }
        let ghost given = attrs;
        let r = self.node(name, attrs, children, marks);
        match r {
            Ok(n) => {
                n.check_wf();
                proof {
                    lemma_valid_children_of(*self, n, children@);
                    assert(self.spec_node_names()[n.spec_type_id() as int] == name@);
                    if has {
                        assert(n.spec_type() == self.spec_node_types()[n.spec_type_id() as int]);
                        assert(w.spec_type() == self.spec_node_types()[w.spec_type_id() as int]);
                        assert(self.spec_node_names()[n.spec_type_id() as int] == name@);
                        lemma_distinct_index(self.spec_node_names(), n.spec_type_id() as int, w.spec_type_id() as int);
                        assert(n.spec_type() == w.spec_type());
                        assert forall|k: Seq<char>| #[trigger] attrs_lookup(n.spec_attrs(), k) == attrs_lookup(w.spec_attrs(), k) by {
                            assert(attrs_lookup(n.spec_attrs(), k) == crate::schema::filled_attr(n.spec_type().spec_decl().attrs@, given, k));
                        }
                        crate::attrs::lemma_sorted_ext(n.spec_attrs(), w.spec_attrs());
                        if len > 0 {
                            let arr = member(*v, "content"@)->0->Array_0@;
                            lemma_json_children(arr, n, len as int);
                        }
                        assert(json_node(*v, n));
                        assert forall|k: Seq<char>| #[trigger] attrs_lookup(n.spec_attrs(), k) is None
                            implies default_for(n.spec_type().spec_decl().attrs@, k) is None by {
                            assert(attrs_lookup(n.spec_attrs(), k) == crate::schema::filled_attr(n.spec_type().spec_decl().attrs@, given, k));
                        }
                        lemma_ready_children(*self, n, len as int);
                        assert(json_ready(*self, n));
                    }
                    assert forall|w2: Node| #[trigger] json_node(*v, w2) && json_ready(*self, w2)
                        implies json_node(*v, n) && json_ready(*self, n) by {
                        assert(has);
                    }
                }
                Ok(n)
            },
            Err(e) => {
                proof {
                    assert forall|w2: Node| #[trigger] json_node(*v, w2) && json_ready(*self, w2) implies false by {
                        assert(has);
                    }
                }
                Err(e)
            },
        }
    }

    /// Parse JSON text into a document.
    pub fn parse_json_str(&self, s: &str) -> (r: Result<Node, DocError>)
        ensures
            json_parse(s@) is None ==> (r matches Err(DocError::MalformedJson(_))),
            json_parse(s@) matches Some(v) ==> {
                &&& !(v is Object) ==> (r matches Err(DocError::MalformedJson(_)))
                &&& (v is Object && !(member(v, "type"@) matches Some(JsonValue::String(_)))) ==> (r matches Err(DocError::MalformedJson(_)))
                &&& r matches Ok(n) ==> valid_tree(*self, n) && match member(v, "text"@) {
                    Some(JsonValue::String(t)) => n.spec_text() == Some(t@) && n.spec_type().spec_is_text(),
                    _ => n.spec_text() is None && (member(v, "type"@) matches Some(JsonValue::String(t))
                        && n.spec_type().spec_name() == t@)
                        && self.spec_content_valid(n.spec_type_id(), n.spec_children()),
                }
                &&& forall|w: Node| #[trigger] json_node(v, w) && json_ready(*self, w)
                    ==> (r matches Ok(m) && json_node(v, m) && json_ready(*self, m))
            },
    {
        match parse_json_text(s) {
            Ok(v) => self.node_from_json(&v),
            Err(m) => Err(DocError::MalformedJson(m)),
        }
    }
}

/// A member of an object is smaller than the object.
proof fn lemma_member_decreases(v: JsonValue, key: Seq<char>)
    requires
        member(v, key) is Some,
    ensures
        decreases_to!(v => member(v, key).unwrap()),
{
    match v {
        JsonValue::Object(f) => {
            lemma_field_decreases(f@, key);
            assert(decreases_to!(v => f));
            assert(decreases_to!(f => f@));
        },
        _ => {},
    }
}

/// A member found in a list of members is smaller than the list.
proof fn lemma_field_decreases(f: Seq<(String, JsonValue)>, key: Seq<char>)
    requires
        field_of(f, key) is Some,
    ensures
        decreases_to!(f => field_of(f, key).unwrap()),
    decreases f.len(),
{
    if f[0].0@ == key {
        assert(decreases_to!(f => f[0]));
        assert(decreases_to!(f[0] => f[0].1));
    } else {
        lemma_field_decreases(f.drop_first(), key);
        assert(decreases_to!(f => f.drop_first()));
    }
}

/// Parse JSON text (serde_json's parser).
#[verifier::external_body]
fn parse_json_text(s: &str) -> (r: Result<JsonValue, String>)
    ensures
        match r {
            Ok(v) => json_parse(s@) == Some(v),
            Err(_) => json_parse(s@) is None,
        },
{
    match serde_json::from_str::<serde_json::Value>(s) {
        Ok(v) => Ok(json_from_serde(&v)),
        Err(e) => Err(e.to_string()),
    }
}

/// serde_json's value as a [`JsonValue`], member for member.
#[verifier::external_body]
fn json_from_serde(v: &serde_json::Value) -> JsonValue {
    match v {
        serde_json::Value::Null => JsonValue::Null,
        serde_json::Value::Bool(b) => JsonValue::Bool(*b),
        serde_json::Value::Number(n) => JsonValue::Number(n.to_string()),
        serde_json::Value::String(s) => JsonValue::String(s.clone()),
        serde_json::Value::Array(a) => JsonValue::Array(a.iter().map(json_from_serde).collect()),
        serde_json::Value::Object(m) => JsonValue::Object(m.iter().map(|(k, x)| (k.clone(), json_from_serde(x))).collect()),
    }
}

/// serde_json's JSON value type.
#[verifier::external_type_specification]
#[verifier::external_body]
pub struct ExSerdeJsonValue(serde_json::Value);

} // verus!
