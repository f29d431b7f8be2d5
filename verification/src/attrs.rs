//! Node and mark attribute values and the ordered attribute map.
//!
//! Attribute maps are kept sorted by key so that two maps holding the same
//! entries are identical, and serialization is deterministic.

use vstd::prelude::*;
use crate::strutil::{chars_lt, chars_of, seq_lt, str_eq};

verus! {

/// A single attribute value (the JSON scalars: null, booleans, non-negative
/// integers and strings).
#[derive(Debug)]
pub enum AttrValue {
    /// JSON `null`.
    Null,
    /// A boolean.
    Bool(bool),
    /// A non-negative integer.
    Number(u64),
    /// A string.
    String(String),
}

/// The mathematical value of an [`AttrValue`].
pub enum AttrValueV {
    Null,
    Bool(bool),
    Number(u64),
    String(Seq<char>),
}

impl View for AttrValue {
    type V = AttrValueV;

    open spec fn view(&self) -> AttrValueV {
        match self {
            AttrValue::Null => AttrValueV::Null,
            AttrValue::Bool(b) => AttrValueV::Bool(*b),
            AttrValue::Number(n) => AttrValueV::Number(*n),
            AttrValue::String(s) => AttrValueV::String(s@),
        }
    }
}

impl AttrValue {
    /// A string value.
    pub fn from_str(s: &str) -> (r: AttrValue)
        ensures
            r@ == AttrValueV::String(s@),
    {
        AttrValue::String(s.to_owned())
    }

    /// A numeric value.
    pub fn from_u64(n: u64) -> (r: AttrValue)
        ensures
            r@ == AttrValueV::Number(n),
    {
        AttrValue::Number(n)
    }

    /// The value as an unsigned integer, if it is a number.
    pub fn as_u64(&self) -> (r: Option<u64>)
        ensures
            r == (match self@ {
                AttrValueV::Number(n) => Some(n),
                _ => None::<u64>,
            }),
    {
        match self {
            AttrValue::Number(n) => Some(*n),
            _ => None,
        }
    }

    /// The value as a string slice, if it is a string.
    pub fn as_str(&self) -> (r: Option<&str>)
        ensures
            match self@ {
                AttrValueV::String(s) => r is Some && r->0@ == s,
                _ => r is None,
            },
    {
        match self {
            AttrValue::String(s) => Some(s.as_str()),
            _ => None,
        }
    }

    /// Whether the value is `null`.
    pub fn is_null(&self) -> (r: bool)
        ensures
            r == (self@ == AttrValueV::Null),
    {
        match self {
            AttrValue::Null => true,
            _ => false,
        }
    }

    /// Value equality.
    pub fn same_value(&self, other: &AttrValue) -> (r: bool)
        ensures
            r == (self@ == other@),
    {
        match (self, other) {
            (AttrValue::Null, AttrValue::Null) => true,
            (AttrValue::Bool(a), AttrValue::Bool(b)) => *a == *b,
            (AttrValue::Number(a), AttrValue::Number(b)) => *a == *b,
            (AttrValue::String(a), AttrValue::String(b)) => str_eq(a.as_str(), b.as_str()),
            _ => false,
        }
    }
}

impl Clone for AttrValue {
    fn clone(&self) -> (r: Self)
        ensures
            r == *self,
    {
        match self {
            AttrValue::Null => AttrValue::Null,
            AttrValue::Bool(b) => AttrValue::Bool(*b),
            AttrValue::Number(n) => AttrValue::Number(*n),
            AttrValue::String(s) => AttrValue::String(s.clone()),
        }
    }
}

impl PartialEq for AttrValue {
    fn eq(&self, other: &Self) -> (r: bool) {
        self.same_value(other)
    }
}

impl vstd::std_specs::cmp::PartialEqSpecImpl for AttrValue {
    open spec fn obeys_eq_spec() -> bool {
        true
    }

    open spec fn eq_spec(&self, other: &AttrValue) -> bool {
        self@ == other@
    }
}

impl Eq for AttrValue {}

/// The mathematical value of an attribute map: its entries in key order.
pub type AttrsV = Seq<(Seq<char>, AttrValueV)>;

/// Keys strictly increasing: the invariant of every [`Attrs`].
pub open spec fn keys_sorted(s: AttrsV) -> bool {
    forall|i: int, j: int| 0 <= i < j < s.len() ==> seq_lt(#[trigger] s[i].0, #[trigger] s[j].0)
}

/// The value stored under `key`, if any.
pub open spec fn attrs_lookup(s: AttrsV, key: Seq<char>) -> Option<AttrValueV>
    decreases s.len(),
{
    if s.len() == 0 {
        None
    } else if s[0].0 == key {
        Some(s[0].1)
    } else {
        attrs_lookup(s.drop_first(), key)
    }
}

/// An ordered map of attribute name to [`AttrValue`].
#[derive(Debug)]
pub struct Attrs {
    pub(crate) entries: Vec<(String, AttrValue)>,
}

impl View for Attrs {
    type V = AttrsV;

    closed spec fn view(&self) -> AttrsV {
        Seq::new(self.entries@.len(), |i: int| (self.entries@[i].0@, self.entries@[i].1@))
    }
}

proof fn lemma_seq_lt_irreflexive(a: Seq<char>)
    ensures
        !seq_lt(a, a),
    decreases a.len(),
{
    if a.len() > 0 {
        lemma_seq_lt_irreflexive(a.drop_first());
    }
}

proof fn lemma_seq_lt_transitive(a: Seq<char>, b: Seq<char>, c: Seq<char>)
    requires
        seq_lt(a, b),
        seq_lt(b, c),
    ensures
        seq_lt(a, c),
    decreases a.len(),
{
    if a.len() > 0 && b.len() > 0 && c.len() > 0 {
        if a[0] == b[0] && b[0] == c[0] {
            lemma_seq_lt_transitive(a.drop_first(), b.drop_first(), c.drop_first());
        }
    }
}

proof fn lemma_seq_lt_total(a: Seq<char>, b: Seq<char>)
    requires
        a != b,
        !seq_lt(a, b),
    ensures
        seq_lt(b, a),
    decreases a.len(),
{
    if a.len() > 0 && b.len() > 0 && a[0] == b[0] {
        if a.drop_first() == b.drop_first() {
            assert(a =~= seq![a[0]] + a.drop_first());
            assert(b =~= seq![b[0]] + b.drop_first());
        }
        lemma_seq_lt_total(a.drop_first(), b.drop_first());
    } else if a.len() > 0 && b.len() > 0 {
    } else if a.len() == 0 {
        assert(b.len() == 0);
        assert(a =~= b);
    }
}

/// In a key-sorted map the lookup is determined by position.
proof fn lemma_lookup_at(s: AttrsV, i: int)
    requires
        keys_sorted(s),
        0 <= i < s.len(),
    ensures
        attrs_lookup(s, s[i].0) == Some(s[i].1),
    decreases i,
{
    if i > 0 {
        lemma_lookup_at(s.drop_first(), i - 1);
        assert(s.drop_first()[i - 1] == s[i]);
        assert(seq_lt(s[0].0, s[i].0));
        if s[0].0 == s[i].0 {
            lemma_seq_lt_irreflexive(s[0].0);
        }
    }
}

proof fn lemma_lookup_absent(s: AttrsV, key: Seq<char>)
    requires
        forall|i: int| 0 <= i < s.len() ==> s[i].0 != key,
    ensures
        attrs_lookup(s, key) == None::<AttrValueV>,
    decreases s.len(),
{
    if s.len() > 0 {
        lemma_lookup_absent(s.drop_first(), key);
    }
}

/// The lookup finds the first entry holding the key.
proof fn lemma_lookup_first(s: AttrsV, key: Seq<char>, i: int)
    requires
        0 <= i < s.len(),
        s[i].0 == key,
        forall|j: int| 0 <= j < i ==> s[j].0 != key,
    ensures
        attrs_lookup(s, key) == Some(s[i].1),
    decreases i,
{
    if i > 0 {
        assert(s[0].0 != key);
        assert forall|j: int| 0 <= j < i - 1 implies s.drop_first()[j].0 != key by {
            assert(s.drop_first()[j] == s[j + 1]);
        }
        lemma_lookup_first(s.drop_first(), key, i - 1);
    }
}

/// Two key-sorted maps with the same lookups are the same map.
pub proof fn lemma_sorted_ext(a: AttrsV, b: AttrsV)
    requires
        keys_sorted(a),
        keys_sorted(b),
        forall|k: Seq<char>| #[trigger] attrs_lookup(a, k) == attrs_lookup(b, k),
    ensures
        a == b,
    decreases a.len() + b.len(),
{
    if a.len() == 0 && b.len() == 0 {
        assert(a =~= b);
    } else if a.len() == 0 {
        lemma_lookup_at(b, 0);
        assert(attrs_lookup(a, b[0].0) is None);
    } else if b.len() == 0 {
        lemma_lookup_at(a, 0);
        assert(attrs_lookup(b, a[0].0) is None);
    } else {
        let ka = a[0].0;
        let kb = b[0].0;
        lemma_lookup_at(a, 0);
        lemma_lookup_at(b, 0);
        if ka != kb {
            // Each first key appears in the other map, after its first key.
            let ia = lemma_lookup_index(b, ka);
            let ib = lemma_lookup_index(a, kb);
            assert(ia > 0);
            assert(ib > 0);
            assert(seq_lt(kb, ka));
            assert(seq_lt(ka, kb));
            lemma_seq_lt_transitive(ka, kb, ka);
            lemma_seq_lt_irreflexive(ka);
        }
        assert(a[0] == b[0]);
        let ta = a.drop_first();
        let tb = b.drop_first();
        assert forall|k: Seq<char>| #[trigger] attrs_lookup(ta, k) == attrs_lookup(tb, k) by {
            if k == ka {
                assert forall|i: int| 0 <= i < ta.len() implies ta[i].0 != k by {
                    assert(ta[i] == a[i + 1]);
                    assert(seq_lt(a[0].0, a[i + 1].0));
                    lemma_seq_lt_irreflexive(k);
                }
                assert forall|i: int| 0 <= i < tb.len() implies tb[i].0 != k by {
                    assert(tb[i] == b[i + 1]);
                    assert(seq_lt(b[0].0, b[i + 1].0));
                    lemma_seq_lt_irreflexive(k);
                }
                lemma_lookup_absent(ta, k);
                lemma_lookup_absent(tb, k);
            } else {
                assert(attrs_lookup(a, k) == attrs_lookup(ta, k));
                assert(attrs_lookup(b, k) == attrs_lookup(tb, k));
            }
        }
        assert forall|i: int, j: int| 0 <= i < j < ta.len() implies seq_lt(#[trigger] ta[i].0, #[trigger] ta[j].0) by {
            assert(ta[i] == a[i + 1]);
            assert(ta[j] == a[j + 1]);
        }
        assert forall|i: int, j: int| 0 <= i < j < tb.len() implies seq_lt(#[trigger] tb[i].0, #[trigger] tb[j].0) by {
            assert(tb[i] == b[i + 1]);
            assert(tb[j] == b[j + 1]);
        }
        lemma_sorted_ext(ta, tb);
        assert(a =~= seq![a[0]] + ta);
        assert(b =~= seq![b[0]] + tb);
    }
}

/// A key that has a value sits at some index.
proof fn lemma_lookup_index(s: AttrsV, key: Seq<char>) -> (i: int)
    requires
        attrs_lookup(s, key) is Some,
    ensures
        0 <= i < s.len(),
        s[i].0 == key,
        attrs_lookup(s, key) == Some(s[i].1),
    decreases s.len(),
{
    if s[0].0 == key {
        0
    } else {
        let j = lemma_lookup_index(s.drop_first(), key);
        assert(s.drop_first()[j] == s[j + 1]);
        j + 1
    }
}

/// Looking up in a map extended at the end by a new key.
pub proof fn lemma_lookup_push(s: AttrsV, x: (Seq<char>, AttrValueV), key: Seq<char>)
    ensures
        attrs_lookup(s.push(x), key) == (if attrs_lookup(s, key) is Some {
            attrs_lookup(s, key)
        } else if x.0 == key {
            Some(x.1)
        } else {
            None
        }),
    decreases s.len(),
{
    let p = s.push(x);
    if s.len() > 0 {
        assert(p[0] == s[0]);
        assert(p.drop_first() =~= s.drop_first().push(x));
        lemma_lookup_push(s.drop_first(), x, key);
        if s[0].0 != key {
            assert(attrs_lookup(p, key) == attrs_lookup(p.drop_first(), key));
            assert(attrs_lookup(s, key) == attrs_lookup(s.drop_first(), key));
        }
    } else {
        assert(p[0] == x);
        assert(p.drop_first() =~= Seq::<(Seq<char>, AttrValueV)>::empty());
        assert(attrs_lookup(p.drop_first(), key) is None);
        assert(attrs_lookup(s, key) is None);
    }
}

/// In a key-sorted map, the key at `i` is not among the first `i` keys.
pub proof fn lemma_sorted_prefix_absent(s: AttrsV, i: int)
    requires
        keys_sorted(s),
        0 <= i < s.len(),
    ensures
        attrs_lookup(s.take(i), s[i].0) is None,
{
    assert forall|j: int| 0 <= j < s.take(i).len() implies s.take(i)[j].0 != s[i].0 by {
        assert(s.take(i)[j] == s[j]);
        assert(seq_lt(s[j].0, s[i].0));
        lemma_seq_lt_irreflexive(s[i].0);
    }
    lemma_lookup_absent(s.take(i), s[i].0);
}

impl Attrs {
    /// The well-formedness invariant: keys strictly increasing.
    pub open(crate) spec fn wf(self) -> bool {
        keys_sorted(self@)
    }

    /// The value stored under `key` in this map.
    pub open(crate) spec fn spec_get(self, key: Seq<char>) -> Option<AttrValueV> {
        attrs_lookup(self@, key)
    }

    /// Whether the keys are in strictly increasing order (always the case
    /// for maps built through this API).
    pub fn is_wf(&self) -> (r: bool)
        ensures
            r == self.wf(),
    {
        let n = self.entries.len();
        if n == 0 {
            return true;
        }
        let mut i: usize = 1;
        while i < n
            invariant
                1 <= i <= n,
                n == self@.len(),
                keys_sorted(self@.take(i as int)),
            decreases n - i,
        {
            let a = chars_of(self.entries[i - 1].0.as_str());
            let b = chars_of(self.entries[i].0.as_str());
            if !chars_lt(&a, &b) {
                proof {
                    assert(self@[i - 1].0 == a@);
                    assert(self@[i as int].0 == b@);
                }
                return false;
            }
            proof {
                let t = self@.take(i as int + 1);
                assert forall|x: int, y: int| 0 <= x < y < t.len() implies seq_lt(#[trigger] t[x].0, #[trigger] t[y].0) by {
                    if y < i {
                        assert(self@.take(i as int)[x] == t[x]);
                        assert(self@.take(i as int)[y] == t[y]);
                    } else if x < i - 1 {
                        assert(self@.take(i as int)[x] == t[x]);
                        assert(self@.take(i as int)[i - 1] == t[i - 1]);
                        lemma_seq_lt_transitive(t[x].0, t[i - 1].0, t[y].0);
                    }
                }
            }
            i = i + 1;
        }
        proof {
            assert(self@.take(n as int) =~= self@);
        }
        true
    }

    /// An empty map.
    pub fn new() -> (r: Attrs)
        ensures
            r@ == Seq::<(Seq<char>, AttrValueV)>::empty(),
            r.wf(),
    {
        let r = Attrs { entries: Vec::new() };
        assert(r@ =~= Seq::<(Seq<char>, AttrValueV)>::empty());
        r
    }

    /// Number of entries.
    pub fn len(&self) -> (n: usize)
        ensures
            n == self@.len(),
    {
        self.entries.len()
    }

    /// Whether the map has no entries.
    pub fn is_empty(&self) -> (b: bool)
        ensures
            b == (self@.len() == 0),
    {
        self.entries.len() == 0
    }

    /// The key of the `i`th entry (in key order).
    pub fn key_at(&self, i: usize) -> (k: &str)
        requires
            i < self@.len(),
        ensures
            k@ == self@[i as int].0,
    {
        self.entries[i].0.as_str()
    }

    /// The value of the `i`th entry (in key order).
    pub fn value_at(&self, i: usize) -> (v: &AttrValue)
        requires
            i < self@.len(),
        ensures
            v@ == self@[i as int].1,
    {
        &self.entries[i].1
    }

    /// The index of `key`, if present.
    fn index_of(&self, key: &str) -> (r: Option<usize>)
        ensures
            match r {
                Some(i) => i < self@.len() && self@[i as int].0 == key@
                    && forall|j: int| 0 <= j < i ==> self@[j].0 != key@,
                None => forall|i: int| 0 <= i < self@.len() ==> self@[i].0 != key@,
            },
    {
        let mut i: usize = 0;
        while i < self.entries.len()
            invariant
                i <= self.entries.len(),
                forall|j: int| 0 <= j < i ==> self@[j].0 != key@,
            decreases self.entries.len() - i,
        {
            if str_eq(self.entries[i].0.as_str(), key) {
                return Some(i);
            }
            i = i + 1;
        }
        None
    }

    /// The value stored under `key` (the first entry with that key), for
    /// maps whose ordering is not known.
    pub(crate) fn lookup(&self, key: &str) -> (r: Option<&AttrValue>)
        ensures
            match r {
                Some(v) => attrs_lookup(self@, key@) == Some(v@),
                None => attrs_lookup(self@, key@) == None::<AttrValueV>,
            },
    {
        match self.index_of(key) {
            Some(i) => {
                proof {
                    lemma_lookup_first(self@, key@, i as int);
                }
                Some(&self.entries[i].1)
            },
            None => {
                proof {
                    lemma_lookup_absent(self@, key@);
                }
                None
            },
        }
    }

    /// The value stored under `key`.
    pub fn get(&self, key: &str) -> (r: Option<&AttrValue>)
        requires
            self.wf(),
        ensures
            match r {
                Some(v) => self.spec_get(key@) == Some(v@),
                None => self.spec_get(key@) == None::<AttrValueV>,
            },
    {
        match self.index_of(key) {
            Some(i) => {
                proof {
                    lemma_lookup_at(self@, i as int);
                }
                Some(&self.entries[i].1)
            },
            None => {
                proof {
                    lemma_lookup_absent(self@, key@);
                }
                None
            },
        }
    }

    /// Whether `key` has a value.
    pub fn contains_key(&self, key: &str) -> (r: bool)
        requires
            self.wf(),
        ensures
            r == self.spec_get(key@).is_some(),
    {
        self.get(key).is_some()
    }

    /// Set `key` to `value`, replacing any previous value; keys stay sorted.
    pub fn insert(&mut self, key: String, value: AttrValue)
        requires
            old(self).wf(),
        ensures
            final(self).wf(),
            forall|k: Seq<char>| #[trigger] final(self).spec_get(k) == (if k == key@ {
                Some(value@)
            } else {
                old(self).spec_get(k)
            }),
    {
        let ghost old_v = self@;
        let kc = chars_of(key.as_str());
        let mut i: usize = 0;
        while i < self.entries.len()
            invariant
                i <= self.entries.len(),
                self@ == old_v,
                keys_sorted(old_v),
                kc@ == key@,
                forall|j: int| 0 <= j < i ==> seq_lt(old_v[j].0, key@),
            ensures
                i <= self.entries.len(),
                self@ == old_v,
                forall|j: int| 0 <= j < i ==> seq_lt(old_v[j].0, key@),
                i < self.entries.len() ==> !seq_lt(old_v[i as int].0, key@),
            decreases self.entries.len() - i,
        {
            let ec = chars_of(self.entries[i].0.as_str());
            if !chars_lt(&ec, &kc) {
                break;
            }
            i = i + 1;
        }
        if i < self.entries.len() && str_eq(self.entries[i].0.as_str(), key.as_str()) {
            self.entries.set(i, (key, value));
            proof {
                let nv = self@;
                assert(nv =~= old_v.update(i as int, (key@, value@)));
                assert forall|a: int, b: int| 0 <= a < b < nv.len() implies seq_lt(nv[a].0, nv[b].0) by {
                    assert(nv[a].0 == old_v[a].0);
                    assert(nv[b].0 == old_v[b].0);
                }
                assert forall|k: Seq<char>| #[trigger] self.spec_get(k) == (if k == key@ {
                    Some(value@)
                } else {
                    attrs_lookup(old_v, k)
                }) by {
                    if k == key@ {
                        lemma_lookup_at(nv, i as int);
                    } else {
                        lemma_lookup_update(old_v, i as int, (key@, value@), k);
                    }
                }
            }
        } else {
            self.entries.insert(i, (key, value));
            proof {
                let nv = self@;
                assert(nv =~= old_v.insert(i as int, (key@, value@)));
                if i < old_v.len() {
                    if !seq_lt(key@, old_v[i as int].0) {
                        lemma_seq_lt_total(old_v[i as int].0, key@);
                    }
                }
                assert forall|a: int, b: int| 0 <= a < b < nv.len() implies seq_lt(nv[a].0, nv[b].0) by {
                    if b < i {
                    } else if a < i && b == i {
                    } else if a < i {
                        assert(nv[b].0 == old_v[b - 1].0);
                        if i < old_v.len() {
                            if b - 1 > i {
                                lemma_seq_lt_transitive(key@, old_v[i as int].0, old_v[b - 1].0);
                            }
                            lemma_seq_lt_transitive(nv[a].0, key@, nv[b].0);
                        }
                    } else if a == i {
                        if b - 1 > i {
                            lemma_seq_lt_transitive(key@, old_v[i as int].0, old_v[b - 1].0);
                        }
                    } else {
                        assert(nv[a].0 == old_v[a - 1].0);
                        assert(nv[b].0 == old_v[b - 1].0);
                    }
                }
                assert forall|k: Seq<char>| #[trigger] self.spec_get(k) == (if k == key@ {
                    Some(value@)
                } else {
                    attrs_lookup(old_v, k)
                }) by {
                    if k == key@ {
                        lemma_lookup_at(nv, i as int);
                    } else {
                        lemma_lookup_insert(old_v, i as int, (key@, value@), k);
                    }
                }
            }
        }
    }

    /// Entry-wise equality (same keys and values).
    pub fn same_attrs(&self, other: &Attrs) -> (r: bool)
        ensures
            r == (self@ == other@),
    {
        if self.entries.len() != other.entries.len() {
            return false;
        }
        let mut i: usize = 0;
        while i < self.entries.len()
            invariant
                i <= self.entries.len(),
                self.entries.len() == other.entries.len(),
                forall|j: int| 0 <= j < i ==> self@[j] == other@[j],
            decreases self.entries.len() - i,
        {
            if !str_eq(self.entries[i].0.as_str(), other.entries[i].0.as_str()) {
                assert(self@[i as int] != other@[i as int]);
                return false;
            }
            if !self.entries[i].1.same_value(&other.entries[i].1) {
                assert(self@[i as int] != other@[i as int]);
                return false;
            }
            i = i + 1;
        }
        assert(self@ =~= other@);
        true
    }
}

/// Inserting an entry under another key leaves the lookup of `k` unchanged.
proof fn lemma_lookup_insert(old_v: AttrsV, p: int, e: (Seq<char>, AttrValueV), k: Seq<char>)
    requires
        keys_sorted(old_v),
        keys_sorted(old_v.insert(p, e)),
        0 <= p <= old_v.len(),
        e.0 != k,
    ensures
        attrs_lookup(old_v.insert(p, e), k) == attrs_lookup(old_v, k),
{
    let nv = old_v.insert(p, e);
    if exists|j: int| 0 <= j < old_v.len() && old_v[j].0 == k {
        let j = choose|j: int| 0 <= j < old_v.len() && old_v[j].0 == k;
        lemma_lookup_at(old_v, j);
        let jj = if j < p { j } else { j + 1 };
        assert(nv[jj] == old_v[j]);
        lemma_lookup_at(nv, jj);
    } else {
        lemma_lookup_absent(old_v, k);
        assert forall|j: int| 0 <= j < nv.len() implies nv[j].0 != k by {
            if j < p {
                assert(nv[j] == old_v[j]);
            } else if j > p {
                assert(nv[j] == old_v[j - 1]);
            }
        }
        lemma_lookup_absent(nv, k);
    }
}

/// Overwriting the value of an existing key leaves other keys unchanged.
proof fn lemma_lookup_update(old_v: AttrsV, p: int, e: (Seq<char>, AttrValueV), k: Seq<char>)
    requires
        keys_sorted(old_v),
        keys_sorted(old_v.update(p, e)),
        0 <= p < old_v.len(),
        e.0 == old_v[p].0,
        e.0 != k,
    ensures
        attrs_lookup(old_v.update(p, e), k) == attrs_lookup(old_v, k),
{
    let nv = old_v.update(p, e);
    if exists|j: int| 0 <= j < old_v.len() && old_v[j].0 == k {
        let j = choose|j: int| 0 <= j < old_v.len() && old_v[j].0 == k;
        lemma_lookup_at(old_v, j);
        assert(nv[j] == old_v[j]);
        lemma_lookup_at(nv, j);
    } else {
        lemma_lookup_absent(old_v, k);
        assert forall|j: int| 0 <= j < nv.len() implies nv[j].0 != k by {
            if j != p {
                assert(nv[j] == old_v[j]);
            }
        }
        lemma_lookup_absent(nv, k);
    }
}

impl Clone for Attrs {
    fn clone(&self) -> (r: Self)
        ensures
            r@ == self@,
    {
        let mut entries: Vec<(String, AttrValue)> = Vec::new();
        let mut i: usize = 0;
        while i < self.entries.len()
            invariant
                i <= self.entries.len(),
                entries@.len() == i,
                forall|j: int| 0 <= j < i ==> #[trigger] entries@[j] == self.entries@[j],
            decreases self.entries.len() - i,
        {
            let k = self.entries[i].0.clone();
            let v = self.entries[i].1.clone();
            entries.push((k, v));
            i = i + 1;
        }
        let r = Attrs { entries };
        assert(r@ =~= self@);
        r
    }
}

impl PartialEq for Attrs {
    fn eq(&self, other: &Self) -> (r: bool) {
        self.same_attrs(other)
    }
}

impl vstd::std_specs::cmp::PartialEqSpecImpl for Attrs {
    open spec fn obeys_eq_spec() -> bool {
        true
    }

    open spec fn eq_spec(&self, other: &Attrs) -> bool {
        self@ == other@
    }
}

impl Eq for Attrs {}

impl Default for Attrs {
    fn default() -> (r: Self)
        ensures
            r@ == Seq::<(Seq<char>, AttrValueV)>::empty(),
    {
        Attrs::new()
    }
}

} // verus!
