//! [`Slice`] — a [`Fragment`] plus the open depths at its two ends, the unit
//! produced by cut and consumed by paste/replace operations.

use vstd::prelude::*;

use crate::fragment::{Fragment, frag_equiv};
use crate::node::Node;

verus! {

/// A fragment cut out of a document, with how many levels are open at its
/// start and at its end.
#[derive(Debug)]
pub struct Slice {
    pub(crate) content: Fragment,
    pub(crate) open_start: usize,
    pub(crate) open_end: usize,
}

impl Slice {
    /// The slice's content.
    pub open(crate) spec fn spec_content(self) -> Fragment {
        self.content
    }

    /// The open depth at the start.
    pub open(crate) spec fn spec_open_start(self) -> usize {
        self.open_start
    }

    /// The open depth at the end.
    pub open(crate) spec fn spec_open_end(self) -> usize {
        self.open_end
    }

    /// The empty slice.
    pub fn empty() -> (r: Slice)
        ensures
            r.spec_content().spec_children().len() == 0,
            r.spec_content().spec_size() == 0,
            r.spec_open_start() == 0,
            r.spec_open_end() == 0,
    {
        Slice { content: Fragment::empty(), open_start: 0, open_end: 0 }
    }

    /// A slice of `content` open `open_start` levels at its start and
    /// `open_end` at its end.
    pub fn new(content: Fragment, open_start: usize, open_end: usize) -> (r: Slice)
        ensures
            r.spec_content() == content,
            r.spec_open_start() == open_start,
            r.spec_open_end() == open_end,
    {
        Slice { content, open_start, open_end }
    }

    /// The slice's content.
    pub fn content(&self) -> (r: &Fragment)
        ensures
            *r == self.spec_content(),
    {
        &self.content
    }

    /// The open depth at the start.
    pub fn open_start(&self) -> (r: usize)
        ensures
            r == self.spec_open_start(),
    {
        self.open_start
    }

    /// The open depth at the end.
    pub fn open_end(&self) -> (r: usize)
        ensures
            r == self.spec_open_end(),
    {
        self.open_end
    }

    /// The number of positions the slice adds when inserted: its content
    /// size less the open tokens at both ends.
    pub fn size(&self) -> (r: usize)
        requires
            self.spec_open_start() + self.spec_open_end() <= self.spec_content().spec_size(),
        ensures
            r == self.spec_content().spec_size() - self.spec_open_start() - self.spec_open_end(),
    {
        self.content.size() - self.open_start - self.open_end
    }

    /// Whether the slice has no content.
    pub fn is_empty(&self) -> (r: bool)
        ensures
            r == (self.spec_content().spec_children().len() == 0),
    {
        self.content.is_empty()
    }

    /// Insert `fragment` at position `pos` (counted from the start of the
    /// slice's own content, past its open start), descending into the node
    /// that contains `pos`. `None` when the position is not a place the
    /// fragment can go.
    pub fn insert_at(&self, pos: usize, fragment: Fragment) -> (r: Option<Slice>)
        ensures
            r matches Some(s) ==> s.spec_open_start() == self.spec_open_start() && s.spec_open_end() == self.spec_open_end(),
    {
        let dist = match pos.checked_add(self.open_start) {
            Some(d) => d,
            None => {
                return None;
            },
        };
        match insert_into(&self.content, dist, fragment) {
            Some(content) => Some(Slice::new(content, self.open_start, self.open_end)),
            None => None,
        }
    }

    /// Remove the content between `from` and `to` (counted like
    /// [`insert_at`](Slice::insert_at)). `None` when the range does not
    /// fall within one node.
    pub fn remove_between(&self, from: usize, to: usize) -> (r: Option<Slice>)
        ensures
            r matches Some(s) ==> s.spec_open_start() == self.spec_open_start() && s.spec_open_end() == self.spec_open_end(),
    {
        let a = match from.checked_add(self.open_start) {
            Some(d) => d,
            None => {
                return None;
            },
        };
        let b = match to.checked_add(self.open_start) {
            Some(d) => d,
            None => {
                return None;
            },
        };
        match remove_range(&self.content, a, b) {
            Some(content) => Some(Slice::new(content, self.open_start, self.open_end)),
            None => None,
        }
    }
}

/// Insert `insert` at `dist` in `content`, descending into the child that
/// contains `dist` when it is not a child boundary or inside a text node.
fn insert_into(content: &Fragment, dist: usize, insert: Fragment) -> (r: Option<Fragment>)
    decreases content,
{
    let (index, offset) = content.find_index(dist);
    let n = content.child_count();
    let in_text = index < n && content.child(index).is_text();
    if offset == dist || in_text {
        let size = content.size();
        let head = content.cut(0, dist);
        let tail = content.cut(dist, size);
        if head.size() > usize::MAX - insert.size() {
            return None;
        }
        let left = head.append(&insert);
        if left.size() > usize::MAX - tail.size() {
            return None;
        }
        return Some(left.append(&tail));
    }
    if index >= n {
        return None;
    }
    let child = content.child(index);
    proof {
        assert(decreases_to!(*content => content.0));
        assert(decreases_to!(content.0 => content.0.content));
        assert(decreases_to!(content.0.content => content.0.content@));
        assert(decreases_to!(content.0.content@ => content.0.content@[index as int]));
        assert(decreases_to!(content.0.content@[index as int] => content.0.content@[index as int].0));
        assert(decreases_to!(content.0.content@[index as int].0 => content.0.content@[index as int].0.content));
    }
    let inner = match insert_into(child.content(), dist - offset - 1, insert) {
        Some(f) => f,
        None => {
            return None;
        },
    };
    if inner.size() > usize::MAX - 2 {
        return None;
    }
    content.replace_child(index, child.copy_content(inner))
}

/// Remove `from..to` from `content`, descending into the child that
/// contains both ends when they are not boundaries of `content` itself.
fn remove_range(content: &Fragment, from: usize, to: usize) -> (r: Option<Fragment>)
    decreases content,
{
    let (index, offset) = content.find_index(from);
    let (index_to, offset_to) = content.find_index(to);
    let n = content.child_count();
    let in_text = index < n && content.child(index).is_text();
    if offset == from || in_text {
        let to_in_text = index_to < n && content.child(index_to).is_text();
        if offset_to != to && !to_in_text {
            return None;
        }
        let size = content.size();
        let head = content.cut(0, from);
        let tail = content.cut(to, size);
        if head.size() > usize::MAX - tail.size() {
            return None;
        }
        return Some(head.append(&tail));
    }
    if index != index_to || index >= n {
        return None;
    }
    let child = content.child(index);
    proof {
        assert(decreases_to!(*content => content.0));
        assert(decreases_to!(content.0 => content.0.content));
        assert(decreases_to!(content.0.content => content.0.content@));
        assert(decreases_to!(content.0.content@ => content.0.content@[index as int]));
        assert(decreases_to!(content.0.content@[index as int] => content.0.content@[index as int].0));
        assert(decreases_to!(content.0.content@[index as int].0 => content.0.content@[index as int].0.content));
    }
    if to < offset + 1 {
        return None;
    }
    let inner = match remove_range(child.content(), from - offset - 1, to - offset - 1) {
        Some(f) => f,
        None => {
            return None;
        },
    };
    if inner.size() > usize::MAX - 2 {
        return None;
    }
    content.replace_child(index, child.copy_content(inner))
}

impl Clone for Slice {
    fn clone(&self) -> (r: Self)
        ensures
            r == *self,
    {
        Slice { content: self.content.clone(), open_start: self.open_start, open_end: self.open_end }
    }
}

impl PartialEq for Slice {
    fn eq(&self, other: &Self) -> (r: bool) {
        self.open_start == other.open_start && self.open_end == other.open_end && self.content.same_fragment(&other.content)
    }
}

impl vstd::std_specs::cmp::PartialEqSpecImpl for Slice {
    open spec fn obeys_eq_spec() -> bool {
        true
    }

    open spec fn eq_spec(&self, other: &Slice) -> bool {
        self.spec_open_start() == other.spec_open_start() && self.spec_open_end() == other.spec_open_end()
            && frag_equiv(self.spec_content(), other.spec_content())
    }
}

impl Eq for Slice {}

} // verus!
