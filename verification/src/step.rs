//! Steps: atomic, invertible document changes. Each step applies to a
//! document, reports how it moved positions ([`StepMap`]), can be inverted
//! against the document it applied to, mapped through later changes, and
//! serialized to JSON.

use vstd::prelude::*;

use crate::attr_change::{attr_changed, attr_set_one, lemma_attr_changed_size, lemma_found, lemma_update_sizes, node_at_spec, node_starts_at};
use crate::attrs::{attrs_lookup, keys_sorted, AttrValue, AttrValueV, Attrs};
use crate::error::DocError;
use crate::fragment::{Fragment, prefix_size};
use crate::json::{digits_value, is_digits, lemma_decimal_digits, attr_value_from_json, attr_value_to_json, json_mark, json_node, json_ready, lemma_field_absent, lemma_field_at, lemma_json_node_unique, JsonValue, member};
use crate::schema::distinct;
use crate::pos::{res_depth, shared_from};
use crate::step_json::{json_kind, json_num, json_slice, json_step, lemma_equiv_size, lemma_same_sizes_sum, lemma_step_names, slice_ready, step_ready};
use crate::map::{map_result_from, map_through, MapResult, Mapping, StepMap, DEL_ACROSS, DEL_AFTER, DEL_SIDE};
use crate::mark::{Mark, MarkV, marks_view, with_mark, without_mark};
use crate::node::{Node, nodes_size};
use crate::replace::ReplaceError;
use crate::schema::Schema;
use crate::slice::Slice;
use crate::strutil::{push_str, string_from_chars};

verus! {

/// Why a step could not be applied or inverted.
#[derive(Debug, Clone, PartialEq, Eq)]
pub struct StepError(pub String);

impl StepError {
    /// Human-readable description of the error.
    pub fn message(&self) -> (r: String)
        ensures
            r@ == "step failed: "@ + self.0@,
    {
        let mut out: Vec<char> = Vec::new();
        push_str(&mut out, "step failed: ");
        push_str(&mut out, self.0.as_str());
        string_from_chars(&out)
    }
}

/// A replace failure as a step failure.
fn step_error(e: ReplaceError) -> (r: StepError) {
    StepError(e.message())
}

/// A document-change step.
pub trait Step {
    /// Whether the step's numbers are consistent (its ranges are ordered
    /// and its slice's open depths fit its content).
    spec fn step_wf(&self) -> bool;

    /// Whether the step's numbers are consistent.
    fn is_wf(&self) -> (r: bool)
        ensures
            r == self.step_wf();

    /// Apply the step to `doc`.
    fn apply(&self, doc: &Node, schema: &Schema) -> Result<Node, StepError>;

    /// How the step moves positions.
    fn get_map(&self) -> StepMap
        requires
            self.step_wf();

    /// The step that undoes this one, given the document it applied to.
    fn invert(&self, doc: &Node) -> Result<AnyStep, StepError>;

    /// This step moved through `mapping`, or `None` when the content it
    /// applied to was deleted.
    fn map(&self, mapping: &Mapping) -> Option<AnyStep>;

    /// The step as JSON.
    fn to_json(&self) -> JsonValue;
}

/// The JSON of a slice: `{}` when empty, else its content and open depths.
fn slice_to_json(slice: &Slice) -> (r: JsonValue)
    ensures
        json_slice(r, *slice),
{
    let mut fields: Vec<(String, JsonValue)> = Vec::new();
    if slice.is_empty() {
        proof {
            lemma_field_absent(fields@, "content"@);
        }
        return JsonValue::Object(fields);
    }
    let content = slice.content();
    let mut nodes: Vec<JsonValue> = Vec::new();
    let mut i: usize = 0;
    while i < content.child_count()
        invariant
            i <= content.spec_children().len(),
            nodes@.len() == i,
            forall|k: int| 0 <= k < i ==> json_node(#[trigger] nodes@[k], content.spec_children()[k]),
        decreases content.spec_children().len() - i,
    {
        nodes.push(content.child(i).to_json());
        i = i + 1;
    }
    let ghost arr = nodes@;
    fields.push(("content".to_string(), JsonValue::Array(nodes)));
    fields.push(("openStart".to_string(), JsonValue::from_u64(slice.open_start() as u64)));
    fields.push(("openEnd".to_string(), JsonValue::from_u64(slice.open_end() as u64)));
    proof {
        lemma_step_names();
        lemma_field_at(fields@, "content"@, 0);
        lemma_field_at(fields@, "openStart"@, 1);
        lemma_field_at(fields@, "openEnd"@, 2);
        assert(member(JsonValue::Object(fields), "content"@)->0->Array_0@ == arr);
    }
    JsonValue::Object(fields)
}

/// Read a slice from its JSON. The JSON of a ready slice reads back into a
/// ready slice with the same JSON.
fn slice_from_json(schema: &Schema, v: &JsonValue) -> (r: Result<Slice, DocError>)
    ensures
        !(*v is Object) ==> (r matches Err(DocError::MalformedJson(_))),
        (*v is Object && member(*v, "content"@) is None) ==> (r matches Ok(s) && s.spec_content().spec_children().len() == 0
            && s.spec_open_start() == 0 && s.spec_open_end() == 0),
        forall|w: Slice| #[trigger] json_slice(*v, w) && slice_ready(*schema, w)
            ==> (r matches Ok(x) && json_slice(*v, x) && slice_ready(*schema, x)),
{
    let ghost has = exists|w: Slice| #[trigger] json_slice(*v, w) && slice_ready(*schema, w);
    let ghost w = choose|w: Slice| #[trigger] json_slice(*v, w) && slice_ready(*schema, w);
    let ghost wc = w.spec_content().spec_children();
    schema.check_names();
    proof {
        lemma_step_names();
        if has {
            crate::json::lemma_decimal_digits(w.spec_open_start() as nat);
            crate::json::lemma_decimal_digits(w.spec_open_end() as nat);
        }
    }
    if !matches!(v, JsonValue::Object(_)) {
        return Err(DocError::MalformedJson("slice must be an object".to_string()));
    }
    let mut nodes: Vec<Node> = Vec::new();
    match v.get("content") {
        None => {
            return Ok(Slice::empty());
        },
        Some(JsonValue::Array(a)) => {
            let mut i: usize = 0;
            while i < a.len()
                invariant
                    i <= a@.len(),
                    *v is Object,
                    member(*v, "content"@) == Some(JsonValue::Array(*a)),
                    distinct(schema.spec_node_names()),
                    distinct(schema.spec_mark_names()),
                    has ==> json_slice(*v, w) && slice_ready(*schema, w),
                    wc == w.spec_content().spec_children(),
                    has ==> nodes@.len() == i && a@.len() == wc.len()
                        && forall|k: int| 0 <= k < i ==> json_node(#[trigger] a@[k], nodes@[k])
                            && json_ready(*schema, nodes@[k]) && nodes@[k].spec_size() == wc[k].spec_size(),
                decreases a.len() - i,
            {
                let ghost before = nodes@;
                match schema.node_from_json(&a[i]) {
                    Ok(n) => {
                        proof {
                            if has {
                                assert(json_node(a@[i as int], wc[i as int]));
                                assert(json_ready(*schema, wc[i as int]));
                                lemma_json_node_unique(*schema, a@[i as int], n, wc[i as int]);
                                lemma_equiv_size(*schema, n, wc[i as int]);
                            }
                        }
                        nodes.push(n);
                        proof {
                            if has {
                                assert forall|k: int| 0 <= k < i + 1 implies json_node(#[trigger] a@[k], nodes@[k])
                                    && json_ready(*schema, nodes@[k]) && nodes@[k].spec_size() == wc[k].spec_size() by {
                                    if k < i {
                                        assert(nodes@[k] == before[k]);
                                    }
                                }
                            }
                        }
                    },
                    Err(e) => {
                        proof {
                            if has {
                                assert(json_node(a@[i as int], wc[i as int]));
                                assert(json_ready(*schema, wc[i as int]));
                            }
                        }
                        return Err(e);
                    },
                }
                i = i + 1;
            }
            proof {
                if has {
                    assert forall|k: int| 0 <= k < nodes@.len() implies (#[trigger] nodes@[k]).spec_size() == wc[k].spec_size()
                        && json_ready(*schema, nodes@[k]) && json_node(a@[k], nodes@[k]) by {
                        assert(json_node(a@[k], nodes@[k]));
                    }
                }
            }
        },
        Some(_) => {
            return Err(DocError::MalformedJson("slice.content must be an array".to_string()));
        },
    }
    let open_start = match v.get("openStart") {
        Some(n) => match n.as_u64() {
            Some(k) => k as usize,
            None => 0,
        },
        None => 0,
    };
    let open_end = match v.get("openEnd") {
        Some(n) => match n.as_u64() {
            Some(k) => k as usize,
            None => 0,
        },
        None => 0,
    };
    proof {
        if has {
            lemma_same_sizes_sum(nodes@, wc);
        }
    }
    let ghost read = nodes@;
    let content = match Fragment::try_from_nodes(nodes) {
        Some(f) => f,
        None => {
            return Err(DocError::MalformedJson("slice too large".to_string()));
        },
    };
    let result = Slice::new(content, open_start, open_end);
    proof {
        if has {
            let arr = member(*v, "content"@)->0->Array_0@;
            assert(result.spec_content().spec_children() == read);
            assert forall|k: int| 0 <= k < read.len() implies json_node(#[trigger] arr[k], read[k]) by {
                assert(read[k] == nodes@[k]);
            }
        }
    }
    Ok(result)
}

/// A number member of a step's JSON.
fn json_usize(v: &JsonValue, key: &str, message: &str) -> (r: Result<usize, DocError>)
    ensures
        r is Err ==> (r matches Err(DocError::MalformedJson(m)) && m@ == message@),
        (member(*v, key@) matches Some(JsonValue::Number(t)) && is_digits(t@) && digits_value(t@) <= usize::MAX)
            ==> (r matches Ok(n) && member(*v, key@) matches Some(JsonValue::Number(t)) && n == digits_value(t@)),
{
    match v.get(key) {
        Some(n) => match n.as_u64() {
            Some(k) => {
                if k > usize::MAX as u64 {
                    Err(DocError::MalformedJson(message.to_string()))
                } else {
                    Ok(k as usize)
                }
            },
            None => Err(DocError::MalformedJson(message.to_string())),
        },
        None => Err(DocError::MalformedJson(message.to_string())),
    }
}

/// The larger of two positions.
/// Where `pos` goes through `m`, associating with `assoc`, and the flags of
/// what was deleted around it.
pub open spec fn mapped(m: Mapping, pos: usize, assoc: i32) -> (usize, u8) {
    map_result_from(m.spec_maps(), m.spec_mirror(), 0, pos, 0, assoc)
}

/// The ranges of the position map of `step`: `(start, old size, new size)`
/// for each replaced range; none for mark and attribute steps.
pub open spec fn step_ranges(step: AnyStep) -> Seq<usize> {
    match step {
        AnyStep::Replace(s) => seq![s.spec_from(), (s.spec_to() - s.spec_from()) as usize, slice_size(s.spec_slice()) as usize],
        AnyStep::ReplaceAround(s) => seq![s.spec_from(), (s.spec_gap_from() - s.spec_from()) as usize, s.spec_insert(),
            s.spec_gap_to(), (s.spec_to() - s.spec_gap_to()) as usize, (slice_size(s.spec_slice()) - s.spec_insert()) as usize],
        _ => Seq::empty(),
    }
}

/// Whether mapping `step` through `m` drops it: its content was deleted
/// (for a replace, from inside on both sides; for a mark step, on its side
/// at both ends, or its range collapsed; for an attribute step, after its
/// position), or a wrapper's gap no longer lies inside its range.
pub open spec fn map_drops(step: AnyStep, m: Mapping) -> bool {
    match step {
        AnyStep::Replace(s) => {
            let f = mapped(m, s.spec_from(), 1i32);
            let t = mapped(m, s.spec_to(), -1i32);
            f.1 & DEL_ACROSS > 0 && t.1 & DEL_ACROSS > 0
        },
        AnyStep::ReplaceAround(s) => {
            let f = mapped(m, s.spec_from(), 1i32);
            let t = mapped(m, s.spec_to(), -1i32);
            (f.1 & DEL_ACROSS > 0 && t.1 & DEL_ACROSS > 0) || around_gap_from(s, m) < f.0 || around_gap_to(s, m) > t.0
        },
        AnyStep::AddMark(s) => {
            let f = mapped(m, s.spec_from(), 1i32);
            let t = mapped(m, s.spec_to(), -1i32);
            (f.1 & DEL_SIDE > 0 && t.1 & DEL_SIDE > 0) || f.0 >= t.0
        },
        AnyStep::RemoveMark(s) => {
            let f = mapped(m, s.spec_from(), 1i32);
            let t = mapped(m, s.spec_to(), -1i32);
            (f.1 & DEL_SIDE > 0 && t.1 & DEL_SIDE > 0) || f.0 >= t.0
        },
        AnyStep::Attr(s) => mapped(m, s.spec_pos(), 1i32).1 & (DEL_AFTER | DEL_ACROSS) > 0,
    }
}

/// Where the gap start of `s` goes through `m`.
pub open spec fn around_gap_from(s: ReplaceAroundStep, m: Mapping) -> usize {
    if s.spec_from() == s.spec_gap_from() {
        mapped(m, s.spec_from(), 1i32).0
    } else {
        map_through(m.spec_maps(), 0, s.spec_gap_from(), -1i32)
    }
}

/// Where the gap end of `s` goes through `m`.
pub open spec fn around_gap_to(s: ReplaceAroundStep, m: Mapping) -> usize {
    if s.spec_to() == s.spec_gap_to() {
        mapped(m, s.spec_to(), -1i32).0
    } else {
        map_through(m.spec_maps(), 0, s.spec_gap_to(), 1i32)
    }
}

/// Whether `r` is `step` moved through `m`: the same kind of step with its
/// positions mapped (start associating forward, end backward) and its
/// slice, mark or attribute kept.
pub open spec fn step_moved(step: AnyStep, m: Mapping, r: AnyStep) -> bool {
    match step {
        AnyStep::Replace(s) => {
            let f = mapped(m, s.spec_from(), 1i32);
            let t = mapped(m, s.spec_to(), -1i32);
            r matches AnyStep::Replace(q) && q.spec_from() == f.0 && q.spec_to() == max_of(f.0, t.0)
                && q.spec_slice() == s.spec_slice()
        },
        AnyStep::ReplaceAround(s) => {
            r matches AnyStep::ReplaceAround(q) && q.spec_from() == mapped(m, s.spec_from(), 1i32).0
                && q.spec_to() == mapped(m, s.spec_to(), -1i32).0
                && q.spec_gap_from() == around_gap_from(s, m) && q.spec_gap_to() == around_gap_to(s, m)
                && q.spec_slice() == s.spec_slice() && q.spec_insert() == s.spec_insert()
        },
        AnyStep::AddMark(s) => {
            r matches AnyStep::AddMark(q) && q.spec_from() == mapped(m, s.spec_from(), 1i32).0
                && q.spec_to() == mapped(m, s.spec_to(), -1i32).0
                && q.spec_mark().view_spec() == s.spec_mark().view_spec()
        },
        AnyStep::RemoveMark(s) => {
            r matches AnyStep::RemoveMark(q) && q.spec_from() == mapped(m, s.spec_from(), 1i32).0
                && q.spec_to() == mapped(m, s.spec_to(), -1i32).0
                && q.spec_mark().view_spec() == s.spec_mark().view_spec()
        },
        AnyStep::Attr(s) => {
            r matches AnyStep::Attr(q) && q.spec_pos() == mapped(m, s.spec_pos(), 1i32).0
                && q.spec_attr()@ == s.spec_attr()@ && q.spec_value()@ == s.spec_value()@
        },
    }
}

/// The greater of two positions.
pub open spec fn max_of(a: usize, b: usize) -> usize {
    if a >= b { a } else { b }
}

fn max_pos(a: usize, b: usize) -> (r: usize)
    ensures
        r == if a >= b { a } else { b },
{
    if a >= b { a } else { b }
}

// ---- replace ---------------------------------------------------------------

/// Replace the range `from..to` with a slice.
#[derive(Debug, Clone)]
pub struct ReplaceStep {
    pub(crate) from: usize,
    pub(crate) to: usize,
    pub(crate) slice: Slice,
}

impl ReplaceStep {
    /// The step's `from`.
    pub open(crate) spec fn spec_from(self) -> usize {
        self.from
    }

    /// The step's `to`.
    pub open(crate) spec fn spec_to(self) -> usize {
        self.to
    }

    /// The step's `slice`.
    pub open(crate) spec fn spec_slice(self) -> Slice {
        self.slice
    }

    /// A step replacing `from..to` with `slice`.
    pub fn new(from: usize, to: usize, slice: Slice) -> (r: ReplaceStep)
        ensures
            r.spec_from() == from,
            r.spec_to() == to,
            r.spec_slice() == slice,
    {
        ReplaceStep { from, to, slice }
    }
}

/// Whether a slice's open depths fit its content.
pub open spec fn slice_wf(s: Slice) -> bool {
    s.spec_open_start() + s.spec_open_end() <= s.spec_content().spec_size()
}

/// The number of positions a slice adds.
pub open spec fn slice_size(s: Slice) -> int {
    s.spec_content().spec_size() - s.spec_open_start() - s.spec_open_end()
}

impl Step for ReplaceStep {
    open spec fn step_wf(&self) -> bool {
        self.spec_from() <= self.spec_to() && slice_wf(self.spec_slice())
    }

    fn is_wf(&self) -> (r: bool) {
        self.from <= self.to && self.slice.open_start() <= self.slice.content().size()
            && self.slice.open_end() <= self.slice.content().size() - self.slice.open_start()
    }

    fn apply(&self, doc: &Node, schema: &Schema) -> (r: Result<Node, StepError>)
        ensures
            self.spec_from() > doc.spec_content().spec_size() ==> r is Err,
            r matches Ok(n) ==> n.spec_type() == doc.spec_type(),
            r matches Ok(n) ==> call_ensures(Node::replace, (doc, self.spec_from(), self.spec_to(), &self.spec_slice(), schema),
                Ok::<Node, ReplaceError>(n)),
            r is Err ==> exists|e: ReplaceError| call_ensures(Node::replace, (doc, self.spec_from(), self.spec_to(), &self.spec_slice(), schema),
                Err::<Node, ReplaceError>(e)),
    {
        match doc.replace(self.from, self.to, &self.slice, schema) {
            Ok(n) => Ok(n),
            Err(e) => Err(step_error(e)),
        }
    }

    fn get_map(&self) -> (r: StepMap)
        ensures
            r.spec_ranges() == seq![self.spec_from(), (self.spec_to() - self.spec_from()) as usize, slice_size(self.spec_slice()) as usize],
            !r.spec_inverted(),
    {
        let mut ranges: Vec<usize> = Vec::new();
        ranges.push(self.from);
        ranges.push(self.to - self.from);
        ranges.push(self.slice.size());
        proof {
            assert(ranges@ =~= seq![self.from, (self.to - self.from) as usize, slice_size(self.slice) as usize]);
        }
        StepMap::new(ranges)
    }

    fn invert(&self, doc: &Node) -> (r: Result<AnyStep, StepError>)
        ensures
            r matches Ok(AnyStep::Replace(s)) ==> s.spec_from() == self.spec_from() && s.spec_to() == self.spec_from() + slice_size(self.spec_slice()),
            r matches Ok(AnyStep::Replace(s)) ==> crate::replace::slice_of(*doc, self.spec_from() as int, self.spec_to() as int,
                s.spec_slice()),
            r matches Ok(s) ==> s is Replace,
            r is Ok <==> self.step_wf() && (self.spec_from() == self.spec_to() || self.spec_to() <= doc.spec_content().spec_size())
                && self.spec_from() + slice_size(self.spec_slice()) <= usize::MAX,
    {
        let removed = match doc.slice(self.from, self.to) {
            Ok(s) => s,
            Err(e) => {
                return Err(StepError(e.message()));
            },
        };
        if !self.is_wf() {
            return Err(StepError("malformed replace step".to_string()));
        }
        let size = self.slice.size();
        if self.from > usize::MAX - size {
            return Err(StepError("position overflow".to_string()));
        }
        Ok(AnyStep::Replace(ReplaceStep { from: self.from, to: self.from + size, slice: removed }))
    }

    fn map(&self, mapping: &Mapping) -> (r: Option<AnyStep>)
        ensures
            r matches Some(s) ==> s is Replace,
            r is None <==> map_drops(AnyStep::Replace(*self), *mapping),
            r matches Some(t) ==> step_moved(AnyStep::Replace(*self), *mapping, t),
    {
        let from = mapping.map_result(self.from, 1);
        let to = mapping.map_result(self.to, -1);
        if from.deleted_across() && to.deleted_across() {
            return None;
        }
        Some(AnyStep::Replace(ReplaceStep { from: from.pos, to: max_pos(from.pos, to.pos), slice: self.slice.clone() }))
    }

    fn to_json(&self) -> (r: JsonValue)
        ensures
            json_step(r, AnyStep::Replace(*self)),
    {
        let mut fields: Vec<(String, JsonValue)> = Vec::new();
        fields.push(("stepType".to_string(), JsonValue::from_str("replace")));
        fields.push(("from".to_string(), JsonValue::from_u64(self.from as u64)));
        fields.push(("to".to_string(), JsonValue::from_u64(self.to as u64)));
        fields.push(("slice".to_string(), slice_to_json(&self.slice)));
        proof {
            lemma_step_names();
            lemma_field_at(fields@, "stepType"@, 0);
            lemma_field_at(fields@, "from"@, 1);
            lemma_field_at(fields@, "to"@, 2);
            lemma_field_at(fields@, "slice"@, 3);
        }
        JsonValue::Object(fields)
    }
}

// ---- replace around -------------------------------------------------------

/// Replace `from..to` with a slice while keeping the content of the gap
/// `gap_from..gap_to`, which is re-inserted into the slice at `insert` —
/// the step that wraps content in a new parent, or lifts it out of one.
#[derive(Debug, Clone)]
pub struct ReplaceAroundStep {
    pub(crate) from: usize,
    pub(crate) to: usize,
    pub(crate) gap_from: usize,
    pub(crate) gap_to: usize,
    pub(crate) slice: Slice,
    pub(crate) insert: usize,
}

impl ReplaceAroundStep {
    /// The step's `from`.
    pub open(crate) spec fn spec_from(self) -> usize {
        self.from
    }

    /// The step's `to`.
    pub open(crate) spec fn spec_to(self) -> usize {
        self.to
    }

    /// The step's `gap_from`.
    pub open(crate) spec fn spec_gap_from(self) -> usize {
        self.gap_from
    }

    /// The step's `gap_to`.
    pub open(crate) spec fn spec_gap_to(self) -> usize {
        self.gap_to
    }

    /// The step's `slice`.
    pub open(crate) spec fn spec_slice(self) -> Slice {
        self.slice
    }

    /// The step's `insert`.
    pub open(crate) spec fn spec_insert(self) -> usize {
        self.insert
    }

    /// A step replacing `from..to` with `slice`, keeping the gap
    /// `gap_from..gap_to` and inserting it into the slice at `insert`.
    pub fn new(from: usize, to: usize, gap_from: usize, gap_to: usize, slice: Slice, insert: usize) -> (r: ReplaceAroundStep)
        ensures
            r.spec_from() == from,
            r.spec_to() == to,
            r.spec_gap_from() == gap_from,
            r.spec_gap_to() == gap_to,
            r.spec_slice() == slice,
            r.spec_insert() == insert,
    {
        ReplaceAroundStep { from, to, gap_from, gap_to, slice, insert }
    }
}

/// Inverting a replace step against the document it applies to gives the
/// replace step that puts back exactly what it removed: it spans the
/// inserted content (from the step's start, as long as the step's slice)
/// and inserts the slice of the document between the step's ends, open as
/// deep as those ends lie below the node holding both. Replacing a join of
/// two paragraphs, say, the inverse re-inserts the removed boundary as a
/// slice open on both sides, which splits the paragraph again.
pub proof fn law_replace_invert_reinserts_removed(step: ReplaceStep, doc: Node, inverse: AnyStep)
    requires
        call_ensures(ReplaceStep::invert, (&step, &doc), Ok::<AnyStep, StepError>(inverse)),
    ensures
        inverse matches AnyStep::Replace(u) && u.spec_from() == step.spec_from()
            && u.spec_to() == step.spec_from() + slice_size(step.spec_slice())
            && crate::replace::slice_of(doc, step.spec_from() as int, step.spec_to() as int, u.spec_slice()),
        step.spec_from() != step.spec_to() ==> (inverse matches AnyStep::Replace(u) && u.spec_slice().spec_open_start()
            == res_depth(doc, step.spec_from() as int) - shared_from(doc, step.spec_from() as int, step.spec_to() as int,
                res_depth(doc, step.spec_from() as int) as int)),
{
}

/// The parts a replace-around step builds on `doc`: the closed slice
/// `gap` of the gap, and `ins`, the step's slice with the gap's content
/// inserted at its insert position.
pub open spec fn around_parts(st: ReplaceAroundStep, doc: Node, schema: Schema, gap: Slice, ins: Slice) -> bool {
    &&& crate::replace::slice_of(doc, st.spec_gap_from() as int, st.spec_gap_to() as int, gap)
    &&& gap.spec_open_start() == 0
    &&& gap.spec_open_end() == 0
    &&& call_ensures(Slice::insert_at, (&st.spec_slice(), st.spec_insert(), gap.spec_content()), Some(ins))
}

/// Names a replace error (a trigger for quantifying over errors).
pub open spec fn replace_err(e: ReplaceError) -> bool {
    true
}

/// Why a replace-around step can fail on `doc`: its gap lies outside the
/// document, the gap is not a closed slice, the step's slice cannot take
/// the gap's content, or the replace fails.
pub open spec fn around_fails(st: ReplaceAroundStep, doc: Node, schema: Schema) -> bool {
    ||| (st.spec_gap_from() != st.spec_gap_to() && (st.spec_gap_from() > doc.spec_content().spec_size()
        || st.spec_gap_to() > doc.spec_content().spec_size()))
    ||| exists|gap: Slice| #[trigger] crate::replace::slice_of(doc, st.spec_gap_from() as int, st.spec_gap_to() as int, gap) && {
        ||| gap.spec_open_start() != 0
        ||| gap.spec_open_end() != 0
        ||| call_ensures(Slice::insert_at, (&st.spec_slice(), st.spec_insert(), gap.spec_content()), None::<Slice>)
        ||| exists|ins: Slice, e: ReplaceError| #![trigger around_parts(st, doc, schema, gap, ins), replace_err(e)]
            around_parts(st, doc, schema, gap, ins)
            && call_ensures(Node::replace, (&doc, st.spec_from(), st.spec_to(), &ins, &schema), Err::<Node, ReplaceError>(e))
    }
}

impl Step for ReplaceAroundStep {
    open spec fn step_wf(&self) -> bool {
        &&& self.spec_from() <= self.spec_gap_from() <= self.spec_gap_to() <= self.spec_to()
        &&& slice_wf(self.spec_slice())
        &&& self.spec_insert() <= slice_size(self.spec_slice())
    }

    fn is_wf(&self) -> (r: bool) {
        self.from <= self.gap_from && self.gap_from <= self.gap_to && self.gap_to <= self.to
            && self.slice.open_start() <= self.slice.content().size()
            && self.slice.open_end() <= self.slice.content().size() - self.slice.open_start()
            && self.insert <= self.slice.content().size() - self.slice.open_start() - self.slice.open_end()
    }

    fn apply(&self, doc: &Node, schema: &Schema) -> (r: Result<Node, StepError>)
        ensures
            r matches Ok(n) ==> n.spec_type() == doc.spec_type(),
            r matches Ok(n) ==> exists|gap: Slice, ins: Slice| #[trigger] around_parts(*self, *doc, *schema, gap, ins)
                && call_ensures(Node::replace, (doc, self.spec_from(), self.spec_to(), &ins, schema), Ok::<Node, ReplaceError>(n)),
            r is Err ==> around_fails(*self, *doc, *schema),
    {
        let gap = match doc.slice(self.gap_from, self.gap_to) {
            Ok(s) => s,
            Err(e) => {
                return Err(StepError(e.message()));
            },
        };
        if gap.open_start() != 0 || gap.open_end() != 0 {
            proof {
                assert(crate::replace::slice_of(*doc, self.gap_from as int, self.gap_to as int, gap));
            }
            return Err(StepError("structure gap-replace would overwrite content".to_string()));
        }
        let inserted = match self.slice.insert_at(self.insert, gap.content().clone()) {
            Some(s) => s,
            None => {
                proof {
                    assert(crate::replace::slice_of(*doc, self.gap_from as int, self.gap_to as int, gap));
                }
                return Err(StepError("content does not fit in gap".to_string()));
            },
        };
        proof {
            assert(around_parts(*self, *doc, *schema, gap, inserted));
        }
        match doc.replace(self.from, self.to, &inserted, schema) {
            Ok(n) => Ok(n),
            Err(e) => {
                proof {
                    assert(replace_err(e));
                    assert(crate::replace::slice_of(*doc, self.gap_from as int, self.gap_to as int, gap));
                }
                Err(step_error(e))
            },
        }
    }

    fn get_map(&self) -> (r: StepMap)
        ensures
            r.spec_ranges() == seq![self.spec_from(), (self.spec_gap_from() - self.spec_from()) as usize, self.spec_insert(),
                self.spec_gap_to(), (self.spec_to() - self.spec_gap_to()) as usize, (slice_size(self.spec_slice()) - self.spec_insert()) as usize],
            !r.spec_inverted(),
    {
        let size = self.slice.size();
        let mut ranges: Vec<usize> = Vec::new();
        ranges.push(self.from);
        ranges.push(self.gap_from - self.from);
        ranges.push(self.insert);
        ranges.push(self.gap_to);
        ranges.push(self.to - self.gap_to);
        ranges.push(size - self.insert);
        proof {
            assert(ranges@ =~= seq![self.from, (self.gap_from - self.from) as usize, self.insert,
                self.gap_to, (self.to - self.gap_to) as usize, (slice_size(self.slice) - self.insert) as usize]);
        }
        StepMap::new(ranges)
    }

    fn invert(&self, doc: &Node) -> (r: Result<AnyStep, StepError>)
        ensures
            r matches Ok(AnyStep::ReplaceAround(s)) ==> s.spec_from() == self.spec_from()
                && s.spec_to() == self.spec_from() + slice_size(self.spec_slice()) + (self.spec_gap_to() - self.spec_gap_from())
                && s.spec_gap_from() == self.spec_from() + self.spec_insert()
                && s.spec_gap_to() == self.spec_from() + self.spec_insert() + (self.spec_gap_to() - self.spec_gap_from())
                && s.spec_insert() == self.spec_gap_from() - self.spec_from(),
            r matches Ok(s) ==> s is ReplaceAround,
    {
        if !self.is_wf() {
            return Err(StepError("malformed replace-around step".to_string()));
        }
        let size = self.slice.size();
        let gap = self.gap_to - self.gap_from;
        if self.from > usize::MAX - size || self.from + size > usize::MAX - gap {
            return Err(StepError("position overflow".to_string()));
        }
        let removed = match doc.slice(self.from, self.to) {
            Ok(s) => s,
            Err(e) => {
                return Err(StepError(e.message()));
            },
        };
        let kept = match removed.remove_between(self.gap_from - self.from, self.gap_to - self.from) {
            Some(s) => s,
            None => {
                return Err(StepError("gap does not fall within one node".to_string()));
            },
        };
        Ok(AnyStep::ReplaceAround(ReplaceAroundStep {
            from: self.from,
            to: self.from + size + gap,
            gap_from: self.from + self.insert,
            gap_to: self.from + self.insert + gap,
            slice: kept,
            insert: self.gap_from - self.from,
        }))
    }

    fn map(&self, mapping: &Mapping) -> (r: Option<AnyStep>)
        ensures
            r matches Some(s) ==> s is ReplaceAround,
            r is None <==> map_drops(AnyStep::ReplaceAround(*self), *mapping),
            r matches Some(t) ==> step_moved(AnyStep::ReplaceAround(*self), *mapping, t),
    {
        let from = mapping.map_result(self.from, 1);
        let to = mapping.map_result(self.to, -1);
        let gap_from = if self.from == self.gap_from { from.pos } else { mapping.map(self.gap_from, -1) };
        let gap_to = if self.to == self.gap_to { to.pos } else { mapping.map(self.gap_to, 1) };
        if (from.deleted_across() && to.deleted_across()) || gap_from < from.pos || gap_to > to.pos {
            return None;
        }
        Some(AnyStep::ReplaceAround(ReplaceAroundStep {
            from: from.pos,
            to: to.pos,
            gap_from,
            gap_to,
            slice: self.slice.clone(),
            insert: self.insert,
        }))
    }

    fn to_json(&self) -> (r: JsonValue)
        ensures
            json_step(r, AnyStep::ReplaceAround(*self)),
    {
        let mut fields: Vec<(String, JsonValue)> = Vec::new();
        fields.push(("stepType".to_string(), JsonValue::from_str("replaceAround")));
        fields.push(("from".to_string(), JsonValue::from_u64(self.from as u64)));
        fields.push(("to".to_string(), JsonValue::from_u64(self.to as u64)));
        fields.push(("gapFrom".to_string(), JsonValue::from_u64(self.gap_from as u64)));
        fields.push(("gapTo".to_string(), JsonValue::from_u64(self.gap_to as u64)));
        fields.push(("insert".to_string(), JsonValue::from_u64(self.insert as u64)));
        fields.push(("slice".to_string(), slice_to_json(&self.slice)));
        proof {
            lemma_step_names();
            lemma_field_at(fields@, "stepType"@, 0);
            lemma_field_at(fields@, "from"@, 1);
            lemma_field_at(fields@, "to"@, 2);
            lemma_field_at(fields@, "gapFrom"@, 3);
            lemma_field_at(fields@, "gapTo"@, 4);
            lemma_field_at(fields@, "insert"@, 5);
            lemma_field_at(fields@, "slice"@, 6);
        }
        JsonValue::Object(fields)
    }
}

// ---- marks -----------------------------------------------------------------

/// `children` with every inline node's mark set changed — `mark` added
/// (`add`) or removed — descending into nodes with content.
/// The marks of `n` once `m` is added to (or removed from) it, when it is
/// inline; unchanged otherwise.
pub closed spec fn marks_after(n: Node, m: MarkV, add: bool) -> Seq<MarkV> {
    if n.spec_type().spec_is_inline() {
        if add {
            with_mark(marks_view(n.spec_marks()), m)
        } else {
            without_mark(marks_view(n.spec_marks()), m)
        }
    } else {
        marks_view(n.spec_marks())
    }
}

/// `b` is `a` with `m` added to (or removed from) it and every node below
/// it that is inline; nothing else changes.
pub closed spec fn mark_mapped(a: Node, b: Node, m: MarkV, add: bool) -> bool
    decreases a, 1nat,
{
    &&& b.spec_type() == a.spec_type()
    &&& b.spec_attrs() == a.spec_attrs()
    &&& b.spec_text() == a.spec_text()
    &&& marks_view(b.spec_marks()) == marks_after(a, m, add)
    &&& {
        proof {
            assert(decreases_to!(a => a.0.content.0.content@));
        }
        runs_mapped(a.0.content.0.content@, b.0.content.0.content@, m, add)
    }
}

/// Each node of `a` mapped as [`mark_mapped`] says, giving `b`.
pub closed spec fn runs_mapped(a: Seq<Node>, b: Seq<Node>, m: MarkV, add: bool) -> bool
    decreases a, 0nat,
{
    &&& a.len() == b.len()
    &&& a.len() > 0 ==> {
        proof {
            assert(decreases_to!(a => a.drop_last()));
            assert(decreases_to!(a => a[a.len() - 1]));
        }
        runs_mapped(a.drop_last(), b.drop_last(), m, add) && mark_mapped(a.last(), b.last(), m, add)
    }
}

/// A mapped node occupies as many positions as the original.
proof fn lemma_mark_mapped_size(a: Node, b: Node, m: MarkV, add: bool)
    requires
        mark_mapped(a, b, m, add),
    ensures
        a.spec_size() == b.spec_size(),
    decreases a, 1nat,
{
    assert(decreases_to!(a => a.0.content.0.content@));
    lemma_runs_mapped_size(a.0.content.0.content@, b.0.content.0.content@, m, add);
}

/// Mapped runs occupy as many positions as the originals.
proof fn lemma_runs_mapped_size(a: Seq<Node>, b: Seq<Node>, m: MarkV, add: bool)
    requires
        runs_mapped(a, b, m, add),
    ensures
        nodes_size(a) == nodes_size(b),
    decreases a, 0nat,
{
    if a.len() > 0 {
        assert(decreases_to!(a => a.drop_last()));
        assert(decreases_to!(a => a[a.len() - 1]));
        lemma_runs_mapped_size(a.drop_last(), b.drop_last(), m, add);
        lemma_mark_mapped_size(a.last(), b.last(), m, add);
    }
}

fn map_inline(children: &[Node], mark: &Mark, add: bool) -> (r: Option<Vec<Node>>)
    ensures
        r matches Some(v) ==> v@.len() == children@.len(),
        r matches Some(v) ==> runs_mapped(children@, v@, mark.view_spec(), add),
        r is Some,
    decreases children@,
{
    let mut out: Vec<Node> = Vec::new();
    let mut i: usize = 0;
    while i < children.len()
        invariant
            i <= children@.len(),
            out@.len() == i,
            runs_mapped(children@.take(i as int), out@, mark.view_spec(), add),
        decreases children.len() - i,
    {
        let child = &children[i];
        child.check_wf();
        let mut c = child.clone();
        if child.child_count() > 0 {
            proof {
                assert(decreases_to!(children@ => children@[i as int]));
                assert(decreases_to!(children@[i as int] => children@[i as int].0.content.0.content@));
            }
            let inner = match map_inline(child.content().children(), mark, add) {
                Some(v) => v,
                None => {
                    return None;
                },
            };
            proof {
                lemma_runs_mapped_size(child.0.content.0.content@, inner@, mark.view_spec(), add);
            }
            let content = match Fragment::try_from_nodes(inner) {
                Some(f) => f,
                None => {
                    return None;
                },
            };
            if content.size() > usize::MAX - 2 {
                return None;
            }
            c = c.copy_content(content);
        }
        let ghost c0 = c;
        if c.is_inline() {
            let marks = if add { mark.add_to_set(c.marks()) } else { mark.remove_from_set(c.marks()) };
            c = c.with_marks(marks);
        }
        proof {
            assert(c.0.content.0.content@ == c.spec_content().spec_children());
            assert(child.0.content.0.content@ == child.spec_content().spec_children());
            assert(mark_mapped(*child, c, mark.view_spec(), add));
            let t = children@.take(i as int + 1);
            assert(t.drop_last() =~= children@.take(i as int));
        }
        let ghost before = out@;
        out.push(c);
        proof {
            assert(out@.drop_last() =~= before);
        }
        i = i + 1;
    }
    proof {
        assert(children@.take(children@.len() as int) =~= children@);
    }
    Some(out)
}

/// The parts a mark step over `from..to` builds on `doc`: `old`, the slice
/// of the range, and `marked`, the same slice with `mark` added to (or
/// removed from) each of its inline nodes.
pub open spec fn mark_parts(doc: Node, from: usize, to: usize, mark: Mark, add: bool, old: Slice, marked: Slice) -> bool {
    &&& crate::replace::slice_of(doc, from as int, to as int, old)
    &&& runs_mapped(old.spec_content().spec_children(), marked.spec_content().spec_children(), mark.view_spec(), add)
    &&& marked.spec_open_start() == old.spec_open_start()
    &&& marked.spec_open_end() == old.spec_open_end()
}

/// Whether `n` is what a mark step over `from..to` of `doc` gives: the
/// range's slice, marked, replaced back into the range.
pub open spec fn mark_applied(doc: Node, from: usize, to: usize, mark: Mark, add: bool, schema: Schema, n: Node) -> bool {
    exists|old: Slice, marked: Slice| #[trigger] mark_parts(doc, from, to, mark, add, old, marked)
        && call_ensures(Node::replace, (&doc, from, to, &marked, &schema), Ok::<Node, ReplaceError>(n))
}

/// Apply a mark change over `from..to`: re-insert the slice there with the
/// mark added to (or removed from) its inline content.
fn apply_mark(doc: &Node, from: usize, to: usize, mark: &Mark, add: bool, schema: &Schema) -> (r: Result<Node, StepError>)
    ensures
        r matches Ok(n) ==> n.spec_type() == doc.spec_type(),
        r matches Ok(n) ==> mark_applied(*doc, from, to, *mark, add, *schema, n),
{
    let old = match doc.slice(from, to) {
        Ok(s) => s,
        Err(e) => {
            return Err(StepError(e.message()));
        },
    };
    let nodes = match map_inline(old.content().children(), mark, add) {
        Some(v) => v,
        None => {
            return Err(StepError("content too large".to_string()));
        },
    };
    let content = match Fragment::try_from_nodes(nodes) {
        Some(f) => f,
        None => {
            return Err(StepError("content too large".to_string()));
        },
    };
    let slice = Slice::new(content, old.open_start(), old.open_end());
    proof {
        assert(mark_parts(*doc, from, to, *mark, add, old, slice));
    }
    match doc.replace(from, to, &slice, schema) {
        Ok(n) => Ok(n),
        Err(e) => Err(step_error(e)),
    }
}

/// The JSON of a mark step.
fn mark_step_json(kind: &str, mark: &Mark, from: usize, to: usize) -> (r: JsonValue)
    ensures
        r is Object,
        json_kind(r, kind@),
        member(r, "mark"@) matches Some(x) && json_mark(x, *mark),
        json_num(member(r, "from"@), from),
        json_num(member(r, "to"@), to),
{
    let mut fields: Vec<(String, JsonValue)> = Vec::new();
    fields.push(("stepType".to_string(), JsonValue::from_str(kind)));
    fields.push(("mark".to_string(), mark.to_json()));
    fields.push(("from".to_string(), JsonValue::from_u64(from as u64)));
    fields.push(("to".to_string(), JsonValue::from_u64(to as u64)));
    proof {
        lemma_step_names();
        lemma_field_at(fields@, "stepType"@, 0);
        lemma_field_at(fields@, "mark"@, 1);
        lemma_field_at(fields@, "from"@, 2);
        lemma_field_at(fields@, "to"@, 3);
    }
    JsonValue::Object(fields)
}

/// Add a mark to the inline content of `from..to`.
#[derive(Debug, Clone)]
pub struct AddMarkStep {
    pub(crate) from: usize,
    pub(crate) to: usize,
    pub(crate) mark: Mark,
}

impl AddMarkStep {
    /// The step's `from`.
    pub open(crate) spec fn spec_from(self) -> usize {
        self.from
    }

    /// The step's `to`.
    pub open(crate) spec fn spec_to(self) -> usize {
        self.to
    }

    /// The step's `mark`.
    pub open(crate) spec fn spec_mark(self) -> Mark {
        self.mark
    }

    /// A step adding `mark` over `from..to`.
    pub fn new(from: usize, to: usize, mark: Mark) -> (r: AddMarkStep)
        ensures
            r.spec_from() == from,
            r.spec_to() == to,
            r.spec_mark() == mark,
    {
        AddMarkStep { from, to, mark }
    }
}

impl Step for AddMarkStep {
    open spec fn step_wf(&self) -> bool {
        true
    }

    fn is_wf(&self) -> (r: bool) {
        true
    }

    fn apply(&self, doc: &Node, schema: &Schema) -> (r: Result<Node, StepError>)
        ensures
            r matches Ok(n) ==> n.spec_type() == doc.spec_type(),
            r matches Ok(n) ==> mark_applied(*doc, self.spec_from(), self.spec_to(), self.spec_mark(), true, *schema, n),
    {
        apply_mark(doc, self.from, self.to, &self.mark, true, schema)
    }

    fn get_map(&self) -> (r: StepMap)
        ensures
            r.spec_ranges().len() == 0,
            !r.spec_inverted(),
    {
        StepMap::identity()
    }

    fn invert(&self, doc: &Node) -> (r: Result<AnyStep, StepError>)
        ensures
            r matches Ok(AnyStep::RemoveMark(s)) && s.spec_from() == self.spec_from() && s.spec_to() == self.spec_to()
                && s.spec_mark().view_spec() == self.spec_mark().view_spec(),
    {
        Ok(AnyStep::RemoveMark(RemoveMarkStep { from: self.from, to: self.to, mark: self.mark.clone() }))
    }

    fn map(&self, mapping: &Mapping) -> (r: Option<AnyStep>)
        ensures
            r matches Some(s) ==> s is AddMark,
            r is None <==> map_drops(AnyStep::AddMark(*self), *mapping),
            r matches Some(t) ==> step_moved(AnyStep::AddMark(*self), *mapping, t),
    {
        let from = mapping.map_result(self.from, 1);
        let to = mapping.map_result(self.to, -1);
        if (from.deleted() && to.deleted()) || from.pos >= to.pos {
            return None;
        }
        Some(AnyStep::AddMark(AddMarkStep { from: from.pos, to: max_pos(from.pos, to.pos), mark: self.mark.clone() }))
    }

    fn to_json(&self) -> (r: JsonValue)
        ensures
            json_step(r, AnyStep::AddMark(*self)),
    {
        mark_step_json("addMark", &self.mark, self.from, self.to)
    }
}

/// Remove a mark from the inline content of `from..to`.
#[derive(Debug, Clone)]
pub struct RemoveMarkStep {
    pub(crate) from: usize,
    pub(crate) to: usize,
    pub(crate) mark: Mark,
}

impl RemoveMarkStep {
    /// The step's `from`.
    pub open(crate) spec fn spec_from(self) -> usize {
        self.from
    }

    /// The step's `to`.
    pub open(crate) spec fn spec_to(self) -> usize {
        self.to
    }

    /// The step's `mark`.
    pub open(crate) spec fn spec_mark(self) -> Mark {
        self.mark
    }

    /// A step removing `mark` over `from..to`.
    pub fn new(from: usize, to: usize, mark: Mark) -> (r: RemoveMarkStep)
        ensures
            r.spec_from() == from,
            r.spec_to() == to,
            r.spec_mark() == mark,
    {
        RemoveMarkStep { from, to, mark }
    }
}

impl Step for RemoveMarkStep {
    open spec fn step_wf(&self) -> bool {
        true
    }

    fn is_wf(&self) -> (r: bool) {
        true
    }

    fn apply(&self, doc: &Node, schema: &Schema) -> (r: Result<Node, StepError>)
        ensures
            r matches Ok(n) ==> n.spec_type() == doc.spec_type(),
            r matches Ok(n) ==> mark_applied(*doc, self.spec_from(), self.spec_to(), self.spec_mark(), false, *schema, n),
    {
        apply_mark(doc, self.from, self.to, &self.mark, false, schema)
    }

    fn get_map(&self) -> (r: StepMap)
        ensures
            r.spec_ranges().len() == 0,
            !r.spec_inverted(),
    {
        StepMap::identity()
    }

    fn invert(&self, doc: &Node) -> (r: Result<AnyStep, StepError>)
        ensures
            r matches Ok(AnyStep::AddMark(s)) && s.spec_from() == self.spec_from() && s.spec_to() == self.spec_to()
                && s.spec_mark().view_spec() == self.spec_mark().view_spec(),
    {
        Ok(AnyStep::AddMark(AddMarkStep { from: self.from, to: self.to, mark: self.mark.clone() }))
    }

    fn map(&self, mapping: &Mapping) -> (r: Option<AnyStep>)
        ensures
            r matches Some(s) ==> s is RemoveMark,
            r is None <==> map_drops(AnyStep::RemoveMark(*self), *mapping),
            r matches Some(t) ==> step_moved(AnyStep::RemoveMark(*self), *mapping, t),
    {
        let from = mapping.map_result(self.from, 1);
        let to = mapping.map_result(self.to, -1);
        if (from.deleted() && to.deleted()) || from.pos >= to.pos {
            return None;
        }
        Some(AnyStep::RemoveMark(RemoveMarkStep { from: from.pos, to: max_pos(from.pos, to.pos), mark: self.mark.clone() }))
    }

    fn to_json(&self) -> (r: JsonValue)
        ensures
            json_step(r, AnyStep::RemoveMark(*self)),
    {
        mark_step_json("removeMark", &self.mark, self.from, self.to)
    }
}

// ---- attributes ------------------------------------------------------------

impl Node {
    /// The node that starts at `pos` (counted inside this node), if any.
    pub fn node_at(&self, pos: usize) -> (r: Option<Node>)
        ensures
            r == node_at_spec(*self, pos as int),
        decreases *self,
    {
        let (index, offset) = self.content().find_index(pos);
        proof {
            lemma_found(self.spec_children(), pos as int, index as int);
        }
        if index >= self.child_count() {
            return None;
        }
        let child = self.child(index);
        if offset == pos || child.is_text() {
            return Some(child.clone());
        }
        proof {
            assert(decreases_to!(*self => self.0.content.0.content@[index as int]));
        }
        child.node_at(pos - offset - 1)
    }

    /// This node with the node starting at `pos` given attribute `attr` =
    /// `value`; `None` when no node starts there.
    fn set_attr_at(&self, pos: usize, attr: &String, value: &AttrValue) -> (r: Option<Node>)
        ensures
            r matches Some(n) ==> n.spec_type() == self.spec_type()
                && attr_changed(*self, n, pos as int, attr@, value@),
            r is Some <==> node_starts_at(*self, pos as int),
        decreases *self,
    {
        self.check_wf();
        let (index, offset) = self.content().find_index(pos);
        proof {
            lemma_found(self.spec_children(), pos as int, index as int);
        }
        if index >= self.child_count() {
            return None;
        }
        let child = self.child(index);
        child.check_wf();
        let ghost c = self.spec_children();
        let new_child = if offset == pos {
            let mut attrs = child.attrs().clone();
            let key = attr.clone();
            let v = value.clone();
            proof {
                assert(key@ == attr@);
                assert(v == *value);
                assert(keys_sorted(attrs@));
            }
            let ghost before = attrs;
            attrs.insert(key, v);
            let ghost after = attrs;
            let n = child.with_attrs(attrs);
            proof {
                assert(n.spec_size() == c[index as int].spec_size());
                assert forall|k: Seq<char>| #[trigger] attrs_lookup(n.spec_attrs(), k) == (if k == attr@ {
                    Some(value@)
                } else {
                    attrs_lookup(c[index as int].spec_attrs(), k)
                }) by {
                    assert(after.spec_get(k) == attrs_lookup(n.spec_attrs(), k));
                    assert(before.spec_get(k) == attrs_lookup(c[index as int].spec_attrs(), k));
                }
            }
            n
        } else {
            proof {
                assert(decreases_to!(*self => self.0.content.0.content@[index as int]));
            }
            match child.set_attr_at(pos - offset - 1, attr, value) {
                Some(n) => {
                    proof {
                        assert(!c[index as int].spec_is_text());
                        lemma_attr_changed_size(c[index as int], n, pos - offset - 1, attr@, value@);
                    }
                    n
                },
                None => {
                    return None;
                },
            }
        };
        proof {
            lemma_update_sizes(c, index as int, new_child);
        }
        let content = match self.content().replace_child(index, new_child) {
            Some(f) => f,
            None => {
                return None;
            },
        };
        if content.size() > usize::MAX - 2 {
            return None;
        }
        let result = self.copy_content(content);
        proof {
            assert(result.spec_children() == c.update(index as int, new_child));
            assert(result.spec_children()[index as int] == new_child);
            assert(self.spec_text() is None);
        }
        Some(result)
    }
}

/// Set one attribute of the node starting at `pos`.
#[derive(Debug, Clone)]
pub struct AttrStep {
    pub(crate) pos: usize,
    pub(crate) attr: String,
    pub(crate) value: AttrValue,
}

impl AttrStep {
    /// The step's `pos`.
    pub open(crate) spec fn spec_pos(self) -> usize {
        self.pos
    }

    /// The step's `attr`.
    pub open(crate) spec fn spec_attr(self) -> String {
        self.attr
    }

    /// The step's `value`.
    pub open(crate) spec fn spec_value(self) -> AttrValue {
        self.value
    }

    /// A step setting `attr` to `value` on the node starting at `pos`.
    pub fn new(pos: usize, attr: &str, value: AttrValue) -> (r: AttrStep)
        ensures
            r.spec_pos() == pos,
            r.spec_attr()@ == attr@,
            r.spec_value() == value,
    {
        AttrStep { pos, attr: attr.to_string(), value }
    }
}

impl Step for AttrStep {
    open spec fn step_wf(&self) -> bool {
        true
    }

    fn is_wf(&self) -> (r: bool) {
        true
    }

    fn apply(&self, doc: &Node, _schema: &Schema) -> (r: Result<Node, StepError>)
        ensures
            r matches Ok(n) ==> n.spec_type() == doc.spec_type()
                && attr_changed(*doc, n, self.spec_pos() as int, self.spec_attr()@, self.spec_value()@),
            r is Ok <==> node_starts_at(*doc, self.spec_pos() as int),
    {
        match doc.set_attr_at(self.pos, &self.attr, &self.value) {
            Some(n) => Ok(n),
            None => Err(StepError("no node at the attribute step's position".to_string())),
        }
    }

    fn get_map(&self) -> (r: StepMap)
        ensures
            r.spec_ranges().len() == 0,
            !r.spec_inverted(),
    {
        StepMap::identity()
    }

    fn invert(&self, doc: &Node) -> (r: Result<AnyStep, StepError>)
        ensures
            r is Ok <==> node_at_spec(*doc, self.spec_pos() as int) is Some,
            r matches Ok(AnyStep::Attr(s)) ==> s.spec_pos() == self.spec_pos() && s.spec_attr()@ == self.spec_attr()@
                && s.spec_value()@ == (match attrs_lookup(node_at_spec(*doc, self.spec_pos() as int)->0.spec_attrs(), self.spec_attr()@) {
                    Some(v) => v,
                    None => AttrValueV::Null,
                }),
            r matches Ok(s) ==> s is Attr,
    {
        let node = match doc.node_at(self.pos) {
            Some(n) => n,
            None => {
                return Err(StepError("no node at the attribute step's position".to_string()));
            },
        };
        let old = match node.attrs().get(self.attr.as_str()) {
            Some(v) => v.clone(),
            None => AttrValue::Null,
        };
        Ok(AnyStep::Attr(AttrStep { pos: self.pos, attr: self.attr.clone(), value: old }))
    }

    fn map(&self, mapping: &Mapping) -> (r: Option<AnyStep>)
        ensures
            r matches Some(s) ==> s is Attr,
            r is None <==> map_drops(AnyStep::Attr(*self), *mapping),
            r matches Some(t) ==> step_moved(AnyStep::Attr(*self), *mapping, t),
    {
        let m = mapping.map_result(self.pos, 1);
        if m.deleted_after() {
            None
        } else {
            Some(AnyStep::Attr(AttrStep { pos: m.pos, attr: self.attr.clone(), value: self.value.clone() }))
        }
    }

    fn to_json(&self) -> (r: JsonValue)
        ensures
            json_step(r, AnyStep::Attr(*self)),
    {
        let mut fields: Vec<(String, JsonValue)> = Vec::new();
        fields.push(("stepType".to_string(), JsonValue::from_str("attr")));
        fields.push(("pos".to_string(), JsonValue::from_u64(self.pos as u64)));
        fields.push(("attr".to_string(), JsonValue::String(self.attr.clone())));
        fields.push(("value".to_string(), attr_value_to_json(&self.value)));
        proof {
            lemma_step_names();
            lemma_field_at(fields@, "stepType"@, 0);
            lemma_field_at(fields@, "pos"@, 1);
            lemma_field_at(fields@, "attr"@, 2);
            lemma_field_at(fields@, "value"@, 3);
        }
        JsonValue::Object(fields)
    }
}

// ---- any step --------------------------------------------------------------

/// Any of the step kinds.
#[derive(Debug, Clone)]
pub enum AnyStep {
    /// A [`ReplaceStep`].
    Replace(ReplaceStep),
    /// A [`ReplaceAroundStep`].
    ReplaceAround(ReplaceAroundStep),
    /// An [`AddMarkStep`].
    AddMark(AddMarkStep),
    /// A [`RemoveMarkStep`].
    RemoveMark(RemoveMarkStep),
    /// An [`AttrStep`].
    Attr(AttrStep),
}

impl Step for AnyStep {
    open spec fn step_wf(&self) -> bool {
        match self {
            AnyStep::Replace(s) => s.step_wf(),
            AnyStep::ReplaceAround(s) => s.step_wf(),
            AnyStep::AddMark(s) => s.step_wf(),
            AnyStep::RemoveMark(s) => s.step_wf(),
            AnyStep::Attr(s) => s.step_wf(),
        }
    }

    fn is_wf(&self) -> (r: bool) {
        match self {
            AnyStep::Replace(s) => s.is_wf(),
            AnyStep::ReplaceAround(s) => s.is_wf(),
            AnyStep::AddMark(s) => s.is_wf(),
            AnyStep::RemoveMark(s) => s.is_wf(),
            AnyStep::Attr(s) => s.is_wf(),
        }
    }

    fn apply(&self, doc: &Node, schema: &Schema) -> (r: Result<Node, StepError>)
        ensures
            r matches Ok(n) ==> n.spec_type() == doc.spec_type(),
            *self matches AnyStep::Attr(s) ==> (r matches Ok(n)
                ==> attr_changed(*doc, n, s.spec_pos() as int, s.spec_attr()@, s.spec_value()@)),
            *self matches AnyStep::Attr(s) ==> (r is Ok <==> node_starts_at(*doc, s.spec_pos() as int)),
    {
        match self {
            AnyStep::Replace(s) => s.apply(doc, schema),
            AnyStep::ReplaceAround(s) => s.apply(doc, schema),
            AnyStep::AddMark(s) => s.apply(doc, schema),
            AnyStep::RemoveMark(s) => s.apply(doc, schema),
            AnyStep::Attr(s) => s.apply(doc, schema),
        }
    }

    fn get_map(&self) -> (r: StepMap)
        ensures
            r.spec_ranges() == step_ranges(*self),
            !r.spec_inverted(),
    {
        match self {
            AnyStep::Replace(s) => s.get_map(),
            AnyStep::ReplaceAround(s) => s.get_map(),
            AnyStep::AddMark(s) => s.get_map(),
            AnyStep::RemoveMark(s) => s.get_map(),
            AnyStep::Attr(s) => s.get_map(),
        }
    }

    fn invert(&self, doc: &Node) -> (r: Result<AnyStep, StepError>)
        ensures
            *self matches AnyStep::Attr(s) ==> {
                &&& (r is Ok <==> node_at_spec(*doc, s.spec_pos() as int) is Some)
                &&& r matches Ok(t) ==> t matches AnyStep::Attr(inv) && inv.spec_pos() == s.spec_pos()
                    && inv.spec_attr()@ == s.spec_attr()@
                    && inv.spec_value()@ == (match attrs_lookup(node_at_spec(*doc, s.spec_pos() as int)->0.spec_attrs(), s.spec_attr()@) {
                        Some(v) => v,
                        None => AttrValueV::Null,
                    })
            },
    {
        match self {
            AnyStep::Replace(s) => s.invert(doc),
            AnyStep::ReplaceAround(s) => s.invert(doc),
            AnyStep::AddMark(s) => s.invert(doc),
            AnyStep::RemoveMark(s) => s.invert(doc),
            AnyStep::Attr(s) => s.invert(doc),
        }
    }

    fn map(&self, mapping: &Mapping) -> (r: Option<AnyStep>)
        ensures
            r is None <==> map_drops(*self, *mapping),
            r matches Some(t) ==> step_moved(*self, *mapping, t),
    {
        match self {
            AnyStep::Replace(s) => s.map(mapping),
            AnyStep::ReplaceAround(s) => s.map(mapping),
            AnyStep::AddMark(s) => s.map(mapping),
            AnyStep::RemoveMark(s) => s.map(mapping),
            AnyStep::Attr(s) => s.map(mapping),
        }
    }

    fn to_json(&self) -> (r: JsonValue)
        ensures
            json_step(r, *self),
    {
        match self {
            AnyStep::Replace(s) => s.to_json(),
            AnyStep::ReplaceAround(s) => s.to_json(),
            AnyStep::AddMark(s) => s.to_json(),
            AnyStep::RemoveMark(s) => s.to_json(),
            AnyStep::Attr(s) => s.to_json(),
        }
    }
}

/// Read a step from its JSON.
pub fn step_from_json(schema: &Schema, v: &JsonValue) -> (r: Result<AnyStep, DocError>)
    ensures
        forall|w: AnyStep| #[trigger] json_step(*v, w) && step_ready(*schema, w)
            ==> (r matches Ok(x) && json_step(*v, x) && step_ready(*schema, x)),
        !(*v is Object) ==> (r matches Err(DocError::MalformedJson(_))),
        (*v is Object && !(member(*v, "stepType"@) matches Some(JsonValue::String(_)))) ==> (r matches Err(DocError::MalformedJson(_))),
        r matches Ok(AnyStep::Replace(_)) ==> (member(*v, "stepType"@) matches Some(JsonValue::String(k)) && k@ == "replace"@),
        r matches Ok(AnyStep::ReplaceAround(_)) ==> (member(*v, "stepType"@) matches Some(JsonValue::String(k)) && k@ == "replaceAround"@),
        r matches Ok(AnyStep::AddMark(_)) ==> (member(*v, "stepType"@) matches Some(JsonValue::String(k)) && k@ == "addMark"@),
        r matches Ok(AnyStep::RemoveMark(_)) ==> (member(*v, "stepType"@) matches Some(JsonValue::String(k)) && k@ == "removeMark"@),
        r matches Ok(AnyStep::Attr(_)) ==> (member(*v, "stepType"@) matches Some(JsonValue::String(k)) && k@ == "attr"@),
        (member(*v, "stepType"@) matches Some(JsonValue::String(k)) && k@ != "replace"@ && k@ != "replaceAround"@
            && k@ != "addMark"@ && k@ != "removeMark"@ && k@ != "attr"@) ==> (r matches Err(DocError::MalformedJson(_))),
{
    let ghost has = exists|w: AnyStep| #[trigger] json_step(*v, w) && step_ready(*schema, w);
    let ghost w = choose|w: AnyStep| #[trigger] json_step(*v, w) && step_ready(*schema, w);
    proof {
        lemma_step_names();
        if has {
            match w {
                AnyStep::Replace(s) => {
                    lemma_decimal_digits(s.spec_from() as nat);
                    lemma_decimal_digits(s.spec_to() as nat);
                },
                AnyStep::ReplaceAround(s) => {
                    lemma_decimal_digits(s.spec_from() as nat);
                    lemma_decimal_digits(s.spec_to() as nat);
                    lemma_decimal_digits(s.spec_gap_from() as nat);
                    lemma_decimal_digits(s.spec_gap_to() as nat);
                    lemma_decimal_digits(s.spec_insert() as nat);
                },
                AnyStep::AddMark(s) => {
                    lemma_decimal_digits(s.spec_from() as nat);
                    lemma_decimal_digits(s.spec_to() as nat);
                },
                AnyStep::RemoveMark(s) => {
                    lemma_decimal_digits(s.spec_from() as nat);
                    lemma_decimal_digits(s.spec_to() as nat);
                },
                AnyStep::Attr(s) => {
                    lemma_decimal_digits(s.spec_pos() as nat);
                    match s.spec_value()@ {
                        AttrValueV::Number(n) => lemma_decimal_digits(n as nat),
                        _ => {},
                    }
                },
            }
        }
    }
    if !matches!(v, JsonValue::Object(_)) {
        return Err(DocError::MalformedJson("step must be an object".to_string()));
    }
    let kind = match v.get("stepType") {
        Some(JsonValue::String(k)) => k.as_str(),
        _ => {
            return Err(DocError::MalformedJson("step missing `stepType`".to_string()));
        },
    };
    if crate::strutil::str_eq(kind, "replace") {
        let from = json_usize(v, "from", "replace step missing `from`")?;
        let to = json_usize(v, "to", "replace step missing `to`")?;
        let slice = match v.get("slice") {
            Some(s) => slice_from_json(schema, s)?,
            None => Slice::empty(),
        };
        return Ok(AnyStep::Replace(ReplaceStep::new(from, to, slice)));
    }
    if crate::strutil::str_eq(kind, "replaceAround") {
        let from = json_usize(v, "from", "replaceAround step missing `from`")?;
        let to = json_usize(v, "to", "replaceAround step missing `to`")?;
        let gap_from = json_usize(v, "gapFrom", "replaceAround step missing `gapFrom`")?;
        let gap_to = json_usize(v, "gapTo", "replaceAround step missing `gapTo`")?;
        let insert = json_usize(v, "insert", "replaceAround step missing `insert`")?;
        let slice = match v.get("slice") {
            Some(s) => slice_from_json(schema, s)?,
            None => Slice::empty(),
        };
        return Ok(AnyStep::ReplaceAround(ReplaceAroundStep::new(from, to, gap_from, gap_to, slice, insert)));
    }
    let add = crate::strutil::str_eq(kind, "addMark");
    if add || crate::strutil::str_eq(kind, "removeMark") {
        let from = json_usize(v, "from", "mark step missing `from`")?;
        let to = json_usize(v, "to", "mark step missing `to`")?;
        let mark = match v.get("mark") {
            Some(m) => schema.mark_from_json(m)?,
            None => {
                return Err(DocError::MalformedJson("mark step missing `mark`".to_string()));
            },
        };
        return Ok(if add {
            AnyStep::AddMark(AddMarkStep::new(from, to, mark))
        } else {
            AnyStep::RemoveMark(RemoveMarkStep::new(from, to, mark))
        });
    }
    if crate::strutil::str_eq(kind, "attr") {
        let pos = json_usize(v, "pos", "attr step missing `pos`")?;
        let attr = match v.get("attr") {
            Some(JsonValue::String(a)) => a.as_str(),
            _ => {
                return Err(DocError::MalformedJson("attr step missing `attr`".to_string()));
            },
        };
        let value = match v.get("value") {
            Some(x) => attr_value_from_json(x)?,
            None => AttrValue::Null,
        };
        return Ok(AnyStep::Attr(AttrStep::new(pos, attr, value)));
    }
    let mut msg: Vec<char> = Vec::new();
    push_str(&mut msg, "unknown stepType `");
    push_str(&mut msg, kind);
    push_str(&mut msg, "`");
    Err(DocError::MalformedJson(string_from_chars(&msg)))
}

} // verus!
