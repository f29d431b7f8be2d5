//! Content expressions: a minimal regex-like grammar describing which child
//! node types a parent may contain, compiled to a nondeterministic automaton
//! that is simulated state-set by state-set.
//!
//! Supported grammar: node/group names, sequence (juxtaposition), `|`
//! choice, parentheses, and the `+`, `*`, `?` quantifiers — e.g.
//! `"paragraph+"`, `"(text | image)*"`, `"heading paragraph+"`.
//!
//! The expression is compiled Thompson-style to an automaton with
//! epsilon edges; a [`ContentMatch`] is an epsilon-closed set of automaton
//! states, advanced one child type at a time.

use std::sync::Arc;
use vstd::prelude::*;

use crate::error::SchemaError;
use crate::strutil::{chars_of, str_eq, string_from_chars, push_str};

verus! {

/// One automaton edge: labelled with a node-type id (`term`) or an epsilon
/// edge (`term == None`), pointing at `to` once connected.
#[derive(Debug, Clone, Copy)]
pub struct Edge {
    pub term: Option<usize>,
    pub to: Option<usize>,
}

fn clone_edges(v: &Vec<Edge>) -> (r: Vec<Edge>)
    ensures
        r@ == v@,
{
    let mut out: Vec<Edge> = Vec::new();
    let mut i: usize = 0;
    while i < v.len()
        invariant
            i <= v.len(),
            out@ == v@.take(i as int),
        decreases v.len() - i,
    {
        out.push(v[i]);
        i = i + 1;
        proof {
            assert(out@ =~= v@.take(i as int));
        }
    }
    proof {
        assert(v@.take(v.len() as int) =~= v@);
    }
    out
}

/// The automaton: node 0 is the start, `accept` the accepting node.
#[derive(Debug)]
pub struct Nfa {
    pub nodes: Vec<Vec<Edge>>,
    pub accept: usize,
}

/// Every connected edge points at an existing node.
pub open spec fn edges_wf(nodes: Seq<Vec<Edge>>) -> bool {
    forall|n: int, i: int|
        0 <= n < nodes.len() && 0 <= i < nodes[n]@.len() && (#[trigger] nodes[n]@[i]).to is Some
            ==> nodes[n]@[i].to->0 < nodes.len()
}

impl Nfa {
    pub open spec fn wf(self) -> bool {
        &&& edges_wf(self.nodes@)
        &&& self.accept < self.nodes@.len()
        &&& self.nodes@.len() > 0
    }

    pub open spec fn len(self) -> nat {
        self.nodes@.len()
    }

    /// `x` is reached from `y` by one epsilon edge.
    pub open spec fn eps_edge(self, y: int, x: int) -> bool {
        0 <= y < self.nodes@.len() && exists|i: int|
            0 <= i < self.nodes@[y]@.len() && (#[trigger] self.nodes@[y]@[i]).term is None
                && self.nodes@[y]@[i].to is Some && self.nodes@[y]@[i].to->0 as int == x
    }

    /// `x` is reached from `y` by one edge labelled `t`.
    pub open spec fn term_edge(self, y: int, t: usize, x: int) -> bool {
        0 <= y < self.nodes@.len() && exists|i: int|
            0 <= i < self.nodes@[y]@.len() && (#[trigger] self.nodes@[y]@[i]).term == Some(t)
                && self.nodes@[y]@[i].to is Some && self.nodes@[y]@[i].to->0 as int == x
    }

    /// `p` is a chain of epsilon edges.
    pub open spec fn eps_path(self, p: Seq<int>) -> bool {
        &&& p.len() >= 1
        &&& forall|k: int| 0 <= k < p.len() - 1 ==> self.eps_edge(#[trigger] p[k], p[k + 1])
    }

    /// `x` is epsilon-reachable from some member of `seeds`.
    pub open spec fn reachable(self, seeds: Set<int>, x: int) -> bool {
        exists|p: Seq<int>| #[trigger] self.eps_path(p) && seeds.contains(p[0]) && p.last() == x
    }

    /// The epsilon closure of `seeds`.
    pub open spec fn closure(self, seeds: Set<int>) -> Set<int> {
        Set::new(|x: int| self.reachable(seeds, x))
    }

    /// The nodes reached from `from` by one `t`-labelled edge.
    pub open spec fn targets(self, from: Set<int>, t: usize) -> Set<int> {
        Set::new(|x: int| exists|y: int| from.contains(y) && #[trigger] self.term_edge(y, t, x))
    }

    /// A set is closed under epsilon edges.
    pub open spec fn eps_closed(self, s: Set<int>) -> bool {
        forall|y: int, x: int| s.contains(y) && #[trigger] self.eps_edge(y, x) ==> s.contains(x)
    }
}

/// A closed superset of the seeds holds everything reachable from them.
proof fn lemma_closed_contains_reachable(nfa: &Nfa, seeds: Set<int>, s: Set<int>, p: Seq<int>)
    requires
        nfa.eps_closed(s),
        seeds.subset_of(s),
        nfa.eps_path(p),
        seeds.contains(p[0]),
    ensures
        s.contains(p.last()),
    decreases p.len(),
{
    if p.len() > 1 {
        let q = p.drop_last();
        assert forall|k: int| 0 <= k < q.len() - 1 implies nfa.eps_edge(#[trigger] q[k], q[k + 1]) by {
            assert(q[k] == p[k]);
            assert(q[k + 1] == p[k + 1]);
        }
        lemma_closed_contains_reachable(nfa, seeds, s, q);
        assert(nfa.eps_edge(p[p.len() - 2], p[p.len() - 1]));
    }
}

/// Extending a path by one epsilon edge.
proof fn lemma_path_extend(nfa: &Nfa, p: Seq<int>, x: int)
    requires
        nfa.eps_path(p),
        nfa.eps_edge(p.last(), x),
    ensures
        nfa.eps_path(p.push(x)),
        p.push(x)[0] == p[0],
        p.push(x).last() == x,
{
    let q = p.push(x);
    assert forall|k: int| 0 <= k < q.len() - 1 implies nfa.eps_edge(#[trigger] q[k], q[k + 1]) by {
        if k < p.len() - 1 {
            assert(q[k] == p[k]);
            assert(q[k + 1] == p[k + 1]);
        } else {
            assert(q[k] == p.last());
        }
    }
}

/// The members of a vector of node indices, as a set.
pub open spec fn as_set(v: Seq<usize>) -> Set<int> {
    Set::new(|x: int| exists|i: int| 0 <= i < v.len() && v[i] as int == x)
}

/// A position within a node type's content automaton: an epsilon-closed set
/// of automaton states.
///
/// [`match_type`](ContentMatch::match_type) and
/// [`match_types`](ContentMatch::match_types) advance the position, while
/// [`valid_end`](ContentMatch::valid_end) reports whether stopping here
/// satisfies the expression.
#[derive(Debug)]
pub struct ContentMatch {
    pub(crate) nfa: Arc<Nfa>,
    pub(crate) states: Vec<usize>,
}

impl ContentMatch {
    /// Every state exists, and the state set is epsilon-closed.
    pub open(crate) spec fn wf(self) -> bool {
        &&& self.nfa.wf()
        &&& forall|i: int| 0 <= i < self.states@.len() ==> (#[trigger] self.states@[i]) < self.nfa.len()
        &&& self.nfa.eps_closed(as_set(self.states@))
    }

    /// The automaton this match runs on.
    pub open(crate) spec fn automaton(self) -> Nfa {
        *self.nfa
    }

    /// The current states, as stored.
    pub open(crate) spec fn state_vec(self) -> Seq<usize> {
        self.states@
    }

    /// The current state set.
    pub open(crate) spec fn state_set(self) -> Set<int> {
        as_set(self.states@)
    }

    /// Whether stopping here satisfies the expression.
    pub open(crate) spec fn spec_valid_end(self) -> bool {
        self.state_set().contains(self.nfa.accept as int)
    }

    /// The state set after one child of type `t` (empty if not allowed).
    pub open(crate) spec fn spec_next(self, t: usize) -> Set<int> {
        self.nfa.closure(self.nfa.targets(self.state_set(), t))
    }

    /// Whether ending the content here satisfies the expression.
    pub fn valid_end(&self) -> (r: bool)
        ensures
            r == self.spec_valid_end(),
    {
        let mut i: usize = 0;
        while i < self.states.len()
            invariant
                i <= self.states.len(),
                forall|j: int| 0 <= j < i ==> self.states@[j] != self.nfa.accept,
            decreases self.states.len() - i,
        {
            if self.states[i] == self.nfa.accept {
                return true;
            }
            i = i + 1;
        }
        proof {
            if self.state_set().contains(self.nfa.accept as int) {
                let j = choose|j: int| 0 <= j < self.states@.len() && self.states@[j] as int == self.nfa.accept as int;
                assert(self.states@[j] == self.nfa.accept);
            }
        }
        false
    }

    /// Advance the match by a single child of type `type_id`, or `None` if no
    /// such child is allowed in this position.
    pub fn match_type(&self, type_id: usize) -> (r: Option<ContentMatch>)
        requires
            self.wf(),
        ensures
            match r {
                Some(m) => m.wf() && m.automaton() == self.automaton() && m.state_set() == self.spec_next(type_id)
                    && !m.state_set().is_empty(),
                None => self.spec_next(type_id).is_empty(),
            },
    {
        let nfa: &Nfa = &self.nfa;
        let seeds = collect_targets(nfa, &self.states, type_id);
        let states = eps_closure(nfa, &seeds);
        if states.len() == 0 {
            proof {
                assert(as_set(states@) =~= Set::<int>::empty());
            }
            None
        } else {
            proof {
                assert(as_set(states@).contains(states@[0] as int));
            }
            Some(ContentMatch { nfa: Arc::clone(&self.nfa), states })
        }
    }

    /// Advance the match across an ordered sequence of child type ids,
    /// returning the resulting position or `None` if the sequence is invalid.
    pub fn match_types(&self, types: &[usize]) -> (r: Option<ContentMatch>)
        requires
            self.wf(),
        ensures
            match r {
                Some(m) => m.wf() && m.automaton() == self.automaton() && m.state_set() == run_types(self.automaton(), self.state_set(), types@),
                None => run_types(self.automaton(), self.state_set(), types@).is_empty(),
            },
    {
        let mut cur = self.clone_match();
        let mut i: usize = 0;
        proof {
            assert(types@.skip(0) =~= types@);
            assert(cur.state_set() =~= self.state_set());
        }
        while i < types.len()
            invariant
                i <= types.len(),
                cur.wf(),
                cur.nfa == self.nfa,
                run_types(self.automaton(), self.state_set(), types@) == run_types(self.automaton(), cur.state_set(), types@.skip(i as int)),
            decreases types.len() - i,
        {
            proof {
                lemma_run_types_unfold(self.automaton(), cur.state_set(), types@.skip(i as int));
                assert(types@.skip(i as int).drop_first() =~= types@.skip(i as int + 1));
            }
            match cur.match_type(types[i]) {
                Some(next) => {
                    cur = next;
                },
                None => {
                    proof {
                        lemma_run_types_empty(self.automaton(), types@.skip(i as int + 1));
                    }
                    return None;
                },
            }
            i = i + 1;
        }
        proof {
            assert(types@.skip(types.len() as int) =~= Seq::<usize>::empty());
        }
        if cur.states.len() == 0 {
            proof {
                assert(cur.state_set() =~= Set::<int>::empty());
            }
            return None;
        }
        Some(cur)
    }

    /// Whether the given ordered child types form valid, complete content.
    pub fn matches_complete(&self, types: &[usize]) -> (r: bool)
        requires
            self.wf(),
        ensures
            r == run_types(self.automaton(), self.state_set(), types@).contains(self.automaton().accept as int),
    {
        match self.match_types(types) {
            Some(end) => end.valid_end(),
            None => false,
        }
    }

    /// Whether the two positions share an acceptable next child type — the
    /// condition under which two nodes may be joined.
    pub fn compatible(&self, other: &ContentMatch) -> (r: bool)
        requires
            self.wf(),
            other.wf(),
        ensures
            r == exists|t: usize| !self.automaton().targets(self.state_set(), t).is_empty()
                && !other.automaton().targets(other.state_set(), t).is_empty(),
    {
        let la = labels_of(&self.nfa, &self.states);
        let lb = labels_of(&other.nfa, &other.states);
        let mut i: usize = 0;
        while i < la.len()
            invariant
                i <= la.len(),
                la@.to_set() == labels(self.automaton(), self.state_set()),
                lb@.to_set() == labels(other.automaton(), other.state_set()),
                forall|k: int, m: int| 0 <= k < i && 0 <= m < lb@.len() ==> la@[k] != lb@[m],
            decreases la.len() - i,
        {
            let mut j: usize = 0;
            while j < lb.len()
                invariant
                    i < la.len(),
                    j <= lb.len(),
                    la@.to_set() == labels(self.automaton(), self.state_set()),
                    lb@.to_set() == labels(other.automaton(), other.state_set()),
                    forall|m: int| 0 <= m < j ==> la@[i as int] != lb@[m],
                decreases lb.len() - j,
            {
                if la[i] == lb[j] {
                    proof {
                        let t = la@[i as int];
                        assert(la@.to_set().contains(t));
                        assert(lb@.to_set().contains(t));
                        assert(labels(self.automaton(), self.state_set()).contains(t));
                        assert(labels(other.automaton(), other.state_set()).contains(t));
                    }
                    return true;
                }
                j = j + 1;
            }
            i = i + 1;
        }
        proof {
            assert forall|t: usize| !(!self.automaton().targets(self.state_set(), t).is_empty()
                && !other.automaton().targets(other.state_set(), t).is_empty()) by {
                if !self.automaton().targets(self.state_set(), t).is_empty()
                    && !other.automaton().targets(other.state_set(), t).is_empty() {
                    assert(labels(self.automaton(), self.state_set()).contains(t));
                    assert(labels(other.automaton(), other.state_set()).contains(t));
                    assert(la@.to_set().contains(t));
                    assert(lb@.to_set().contains(t));
                    let k = choose|k: int| 0 <= k < la@.len() && la@[k] == t;
                    let m = choose|m: int| 0 <= m < lb@.len() && lb@[m] == t;
                }
            }
        }
        false
    }

    fn clone_match(&self) -> (r: ContentMatch)
        ensures
            r.nfa == self.nfa,
            r.states@ == self.states@,
    {
        ContentMatch { nfa: Arc::clone(&self.nfa), states: self.states.clone() }
    }
}

impl Clone for ContentMatch {
    fn clone(&self) -> (r: Self)
        ensures
            r.automaton() == self.automaton(),
            r.state_vec() == self.state_vec(),
    {
        self.clone_match()
    }
}

/// The state set reached from `start` by the child types `ts`, one at a time.
pub open spec fn run_types(nfa: Nfa, start: Set<int>, ts: Seq<usize>) -> Set<int>
    decreases ts.len(),
{
    if ts.len() == 0 {
        start
    } else {
        run_types(nfa, nfa.closure(nfa.targets(start, ts[0])), ts.drop_first())
    }
}

proof fn lemma_run_types_unfold(nfa: Nfa, start: Set<int>, ts: Seq<usize>)
    requires
        ts.len() > 0,
    ensures
        run_types(nfa, start, ts) == run_types(nfa, nfa.closure(nfa.targets(start, ts[0])), ts.drop_first()),
{
}

proof fn lemma_run_types_empty(nfa: Nfa, ts: Seq<usize>)
    ensures
        run_types(nfa, Set::<int>::empty(), ts).is_empty(),
    decreases ts.len(),
{
    if ts.len() > 0 {
        assert(nfa.targets(Set::<int>::empty(), ts[0]) =~= Set::<int>::empty());
        assert(nfa.closure(Set::<int>::empty()) =~= Set::<int>::empty());
        lemma_run_types_empty(nfa, ts.drop_first());
    }
}

/// The targets of the `t`-labelled edges in `edges`.
pub open spec fn edge_targets(edges: Seq<Edge>, t: usize) -> Set<int> {
    Set::new(|x: int| exists|e: int| 0 <= e < edges.len() && (#[trigger] edges[e]).term == Some(t)
        && edges[e].to is Some && edges[e].to->0 as int == x)
}

proof fn lemma_edge_targets_push(edges: Seq<Edge>, e: Edge, t: usize)
    ensures
        edge_targets(edges.push(e), t) == (if e.term == Some(t) && e.to is Some {
            edge_targets(edges, t).insert(e.to->0 as int)
        } else {
            edge_targets(edges, t)
        }),
{
    let ne = edges.push(e);
    let rhs = if e.term == Some(t) && e.to is Some {
        edge_targets(edges, t).insert(e.to->0 as int)
    } else {
        edge_targets(edges, t)
    };
    assert forall|x: int| edge_targets(ne, t).contains(x) implies rhs.contains(x) by {
        let k = choose|k: int| 0 <= k < ne.len() && (#[trigger] ne[k]).term == Some(t) && ne[k].to is Some && ne[k].to->0 as int == x;
        if k < edges.len() {
            assert(ne[k] == edges[k]);
            assert(edge_targets(edges, t).contains(x));
        }
    }
    assert forall|x: int| rhs.contains(x) implies edge_targets(ne, t).contains(x) by {
        if edge_targets(edges, t).contains(x) {
            let k = choose|k: int| 0 <= k < edges.len() && (#[trigger] edges[k]).term == Some(t) && edges[k].to is Some && edges[k].to->0 as int == x;
            assert(ne[k] == edges[k]);
        } else {
            assert(ne[edges.len() as int] == e);
        }
    }
    assert(edge_targets(ne, t) =~= rhs);
}

proof fn lemma_as_set_push(v: Seq<usize>, x: usize)
    ensures
        as_set(v.push(x)) == as_set(v).insert(x as int),
{
    let nv = v.push(x);
    assert forall|y: int| as_set(nv).contains(y) implies as_set(v).insert(x as int).contains(y) by {
        let i = choose|i: int| 0 <= i < nv.len() && nv[i] as int == y;
        if i < v.len() {
            assert(nv[i] == v[i]);
        }
    }
    assert forall|y: int| as_set(v).insert(x as int).contains(y) implies as_set(nv).contains(y) by {
        if as_set(v).contains(y) {
            let i = choose|i: int| 0 <= i < v.len() && v[i] as int == y;
            assert(nv[i] == v[i]);
        } else {
            assert(nv[v.len() as int] == x);
        }
    }
    assert(as_set(nv) =~= as_set(v).insert(x as int));
}

proof fn lemma_as_set_pop(v: Seq<usize>)
    requires
        v.len() > 0,
    ensures
        as_set(v) == as_set(v.drop_last()).insert(v.last() as int),
{
    assert(v =~= v.drop_last().push(v.last()));
    lemma_as_set_push(v.drop_last(), v.last());
}

/// The nodes reached from `states` by one `t`-labelled edge.
fn collect_targets(nfa: &Nfa, states: &Vec<usize>, t: usize) -> (r: Vec<usize>)
    requires
        nfa.wf(),
        forall|k: int| 0 <= k < states@.len() ==> (#[trigger] states@[k]) < nfa.len(),
    ensures
        forall|k: int| 0 <= k < r@.len() ==> (#[trigger] r@[k]) < nfa.len(),
        as_set(r@) == nfa.targets(as_set(states@), t),
{
    let mut seeds: Vec<usize> = Vec::new();
    let mut i: usize = 0;
    while i < states.len()
        invariant
            nfa.wf(),
            i <= states.len(),
            forall|k: int| 0 <= k < states@.len() ==> (#[trigger] states@[k]) < nfa.len(),
            forall|k: int| 0 <= k < seeds@.len() ==> (#[trigger] seeds@[k]) < nfa.len(),
            as_set(seeds@) == nfa.targets(as_set(states@.take(i as int)), t),
        decreases states.len() - i,
    {
        let s = states[i];
        let edges = &nfa.nodes[s];
        let ghost before = seeds@;
        let mut j: usize = 0;
        while j < edges.len()
            invariant
                nfa.wf(),
                s < nfa.len(),
                edges == &nfa.nodes@[s as int],
                j <= edges.len(),
                forall|k: int| 0 <= k < seeds@.len() ==> (#[trigger] seeds@[k]) < nfa.len(),
                as_set(seeds@) == as_set(before).union(edge_targets(edges@.take(j as int), t)),
            decreases edges.len() - j,
        {
            let e = &edges[j];
            proof {
                assert(edges@.take(j as int + 1) =~= edges@.take(j as int).push(*e));
                lemma_edge_targets_push(edges@.take(j as int), *e, t);
            }
            if e.term == Some(t) && e.to.is_some() {
                let to = e.to.unwrap();
                proof {
                    lemma_as_set_push(seeds@, to);
                    assert(to < nfa.len());
                }
                seeds.push(to);
                proof {
                    assert(as_set(seeds@) =~= as_set(before).union(edge_targets(edges@.take(j as int + 1), t)));
                }
            }
            j = j + 1;
        }
        proof {
            assert(edges@.take(edges@.len() as int) =~= edges@);
            let prev = as_set(states@.take(i as int));
            let cur = as_set(states@.take(i as int + 1));
            assert(states@.take(i as int + 1) =~= states@.take(i as int).push(s));
            lemma_as_set_push(states@.take(i as int), s);
            assert(cur == prev.insert(s as int));
            let et = edge_targets(edges@, t);
            assert forall|x: int| nfa.targets(cur, t).contains(x) implies nfa.targets(prev, t).union(et).contains(x) by {
                let y = choose|y: int| cur.contains(y) && #[trigger] nfa.term_edge(y, t, x);
                if y != s as int {
                    assert(prev.contains(y));
                } else {
                    let k = choose|k: int| 0 <= k < nfa.nodes@[y]@.len() && (#[trigger] nfa.nodes@[y]@[k]).term == Some(t)
                        && nfa.nodes@[y]@[k].to is Some && nfa.nodes@[y]@[k].to->0 as int == x;
                    assert(edges@[k] == nfa.nodes@[y]@[k]);
                }
            }
            assert forall|x: int| nfa.targets(prev, t).union(et).contains(x) implies nfa.targets(cur, t).contains(x) by {
                if nfa.targets(prev, t).contains(x) {
                    let y = choose|y: int| prev.contains(y) && #[trigger] nfa.term_edge(y, t, x);
                    assert(cur.contains(y));
                } else {
                    let k = choose|k: int| 0 <= k < edges@.len() && (#[trigger] edges@[k]).term == Some(t)
                        && edges@[k].to is Some && edges@[k].to->0 as int == x;
                    assert(nfa.term_edge(s as int, t, x));
                    assert(cur.contains(s as int));
                }
            }
            assert(nfa.targets(cur, t) =~= nfa.targets(prev, t).union(et));
        }
        i = i + 1;
    }
    proof {
        assert(states@.take(states@.len() as int) =~= states@);
    }
    seeds
}

/// The labels of the connected, labelled edges in `edges`.
pub open spec fn edge_labels(edges: Seq<Edge>) -> Set<usize> {
    Set::new(|t: usize| exists|e: int| 0 <= e < edges.len() && (#[trigger] edges[e]).term == Some(t) && edges[e].to is Some)
}

/// The labels `t` with at least one `t`-edge out of `set`.
pub open spec fn labels(nfa: Nfa, set: Set<int>) -> Set<usize> {
    Set::new(|t: usize| !nfa.targets(set, t).is_empty())
}

proof fn lemma_edge_labels_push(edges: Seq<Edge>, e: Edge)
    ensures
        edge_labels(edges.push(e)) == (if e.term is Some && e.to is Some {
            edge_labels(edges).insert(e.term->0)
        } else {
            edge_labels(edges)
        }),
{
    let ne = edges.push(e);
    let rhs = if e.term is Some && e.to is Some { edge_labels(edges).insert(e.term->0) } else { edge_labels(edges) };
    assert forall|t: usize| edge_labels(ne).contains(t) implies rhs.contains(t) by {
        let k = choose|k: int| 0 <= k < ne.len() && (#[trigger] ne[k]).term == Some(t) && ne[k].to is Some;
        if k < edges.len() {
            assert(ne[k] == edges[k]);
            assert(edge_labels(edges).contains(t));
        }
    }
    assert forall|t: usize| rhs.contains(t) implies edge_labels(ne).contains(t) by {
        if edge_labels(edges).contains(t) {
            let k = choose|k: int| 0 <= k < edges.len() && (#[trigger] edges[k]).term == Some(t) && edges[k].to is Some;
            assert(ne[k] == edges[k]);
        } else {
            assert(ne[edges.len() as int] == e);
        }
    }
    assert(edge_labels(ne) =~= rhs);
}

proof fn lemma_to_set_push(v: Seq<usize>, x: usize)
    ensures
        v.push(x).to_set() == v.to_set().insert(x),
{
    let nv = v.push(x);
    assert forall|y: usize| nv.to_set().contains(y) implies v.to_set().insert(x).contains(y) by {
        let i = choose|i: int| 0 <= i < nv.len() && nv[i] == y;
        if i < v.len() {
            assert(nv[i] == v[i]);
        }
    }
    assert forall|y: usize| v.to_set().insert(x).contains(y) implies nv.to_set().contains(y) by {
        if v.to_set().contains(y) {
            let i = choose|i: int| 0 <= i < v.len() && v[i] == y;
            assert(nv[i] == v[i]);
        } else {
            assert(nv[v.len() as int] == x);
        }
    }
    assert(nv.to_set() =~= v.to_set().insert(x));
}

/// The labels `t` that lead somewhere from `states`.
fn labels_of(nfa: &Nfa, states: &Vec<usize>) -> (r: Vec<usize>)
    requires
        nfa.wf(),
        forall|k: int| 0 <= k < states@.len() ==> (#[trigger] states@[k]) < nfa.len(),
    ensures
        r@.to_set() == labels(*nfa, as_set(states@)),
{
    let mut out: Vec<usize> = Vec::new();
    let mut i: usize = 0;
    proof {
        assert(out@.to_set() =~= labels(*nfa, as_set(states@.take(0))));
    }
    while i < states.len()
        invariant
            nfa.wf(),
            i <= states.len(),
            forall|k: int| 0 <= k < states@.len() ==> (#[trigger] states@[k]) < nfa.len(),
            out@.to_set() == labels(*nfa, as_set(states@.take(i as int))),
        decreases states.len() - i,
    {
        let s = states[i];
        let edges = &nfa.nodes[s];
        let ghost before = out@.to_set();
        let mut j: usize = 0;
        proof {
            assert(edge_labels(edges@.take(0)) =~= Set::<usize>::empty());
            assert(out@.to_set() =~= before.union(edge_labels(edges@.take(0))));
        }
        while j < edges.len()
            invariant
                nfa.wf(),
                s < nfa.len(),
                edges == &nfa.nodes@[s as int],
                j <= edges.len(),
                out@.to_set() == before.union(edge_labels(edges@.take(j as int))),
            decreases edges.len() - j,
        {
            let e = &edges[j];
            proof {
                assert(edges@.take(j as int + 1) =~= edges@.take(j as int).push(*e));
                lemma_edge_labels_push(edges@.take(j as int), *e);
            }
            if e.term.is_some() && e.to.is_some() {
                let t = e.term.unwrap();
                proof {
                    lemma_to_set_push(out@, t);
                }
                out.push(t);
            }
            proof {
                assert(out@.to_set() =~= before.union(edge_labels(edges@.take(j as int + 1))));
            }
            j = j + 1;
        }
        proof {
            assert(edges@.take(edges@.len() as int) =~= edges@);
            let prev = as_set(states@.take(i as int));
            let cur = as_set(states@.take(i as int + 1));
            assert(states@.take(i as int + 1) =~= states@.take(i as int).push(s));
            lemma_as_set_push(states@.take(i as int), s);
            assert forall|t: usize| before.union(edge_labels(edges@)).contains(t) <==> labels(*nfa, cur).contains(t) by {
                if before.contains(t) {
                    let x = nfa.targets(prev, t).choose();
                    assert(nfa.targets(prev, t).contains(x));
                    let y = choose|y: int| prev.contains(y) && #[trigger] nfa.term_edge(y, t, x);
                    assert(nfa.targets(cur, t).contains(x));
                } else if edge_labels(edges@).contains(t) {
                    let e = choose|e: int| 0 <= e < edges@.len() && (#[trigger] edges@[e]).term == Some(t) && edges@[e].to is Some;
                    let x = edges@[e].to->0 as int;
                    assert(nfa.term_edge(s as int, t, x));
                    assert(nfa.targets(cur, t).contains(x));
                }
                if labels(*nfa, cur).contains(t) {
                    let x = nfa.targets(cur, t).choose();
                    assert(nfa.targets(cur, t).contains(x));
                    let y = choose|y: int| cur.contains(y) && #[trigger] nfa.term_edge(y, t, x);
                    if y == s as int {
                        let e = choose|e: int| 0 <= e < nfa.nodes@[y]@.len() && (#[trigger] nfa.nodes@[y]@[e]).term == Some(t)
                            && nfa.nodes@[y]@[e].to is Some && nfa.nodes@[y]@[e].to->0 as int == x;
                        assert(edges@[e] == nfa.nodes@[y]@[e]);
                        assert(edge_labels(edges@).contains(t));
                    } else {
                        assert(prev.contains(y));
                        assert(nfa.targets(prev, t).contains(x));
                        assert(labels(*nfa, prev).contains(t));
                    }
                }
            }
            assert(out@.to_set() =~= labels(*nfa, cur));
        }
        i = i + 1;
    }
    proof {
        assert(states@.take(states@.len() as int) =~= states@);
    }
    out
}

/// The number of `true` entries.
pub open spec fn count_true(s: Seq<bool>) -> nat
    decreases s.len(),
{
    if s.len() == 0 {
        0
    } else {
        count_true(s.drop_last()) + if s.last() { 1nat } else { 0nat }
    }
}

proof fn lemma_count_true_le(s: Seq<bool>)
    ensures
        count_true(s) <= s.len(),
    decreases s.len(),
{
    if s.len() > 0 {
        lemma_count_true_le(s.drop_last());
    }
}

proof fn lemma_count_true_set(s: Seq<bool>, i: int)
    requires
        0 <= i < s.len(),
        !s[i],
    ensures
        count_true(s.update(i, true)) == count_true(s) + 1,
    decreases s.len(),
{
    let t = s.update(i, true);
    if i == s.len() - 1 {
        assert(t.drop_last() =~= s.drop_last());
    } else {
        assert(t.drop_last() =~= s.drop_last().update(i, true));
        lemma_count_true_set(s.drop_last(), i);
    }
}

/// Bookkeeping shared by the closure worklist: `visited` mirrors `result`,
/// `work` holds only found states, and everything found is reachable.
pub open spec fn closure_inv(nfa: Nfa, seeds: Set<int>, visited: Seq<bool>, result: Seq<usize>, work: Seq<usize>) -> bool {
    &&& nfa.wf()
    &&& visited.len() == nfa.len()
    &&& forall|j: int| 0 <= j < result.len() ==> (#[trigger] result[j]) < nfa.len()
    &&& forall|j: int| 0 <= j < work.len() ==> (#[trigger] work[j]) < nfa.len()
    &&& forall|x: int| 0 <= x < nfa.len() ==> (visited[x] <==> #[trigger] as_set(result).contains(x))
    &&& as_set(work).subset_of(as_set(result))
    &&& forall|x: int| #[trigger] as_set(result).contains(x) ==> nfa.reachable(seeds, x)
    &&& count_true(visited) <= nfa.len()
}

/// Add `x` (reachable, not yet found) to the closure under construction.
fn add_found(
    nfa: &Nfa,
    Ghost(seeds): Ghost<Set<int>>,
    visited: &mut Vec<bool>,
    result: &mut Vec<usize>,
    work: &mut Vec<usize>,
    x: usize,
)
    requires
        closure_inv(*nfa, seeds, old(visited)@, old(result)@, old(work)@),
        x < nfa.len(),
        !old(visited)@[x as int],
        nfa.reachable(seeds, x as int),
    ensures
        closure_inv(*nfa, seeds, final(visited)@, final(result)@, final(work)@),
        as_set(final(result)@) == as_set(old(result)@).insert(x as int),
        as_set(final(work)@) == as_set(old(work)@).insert(x as int),
        final(work)@ == old(work)@.push(x),
        count_true(final(visited)@) == count_true(old(visited)@) + 1,
{
    proof {
        lemma_count_true_set(visited@, x as int);
        lemma_count_true_le(visited@.update(x as int, true));
        lemma_as_set_push(result@, x);
        lemma_as_set_push(work@, x);
    }
    visited.set(x, true);
    result.push(x);
    work.push(x);
}

/// The epsilon closure of `seeds`, as a duplicate-free vector of states.
#[verifier::rlimit(60)]
pub(crate) fn eps_closure(nfa: &Nfa, seeds: &Vec<usize>) -> (r: Vec<usize>)
    requires
        nfa.wf(),
        forall|k: int| 0 <= k < seeds@.len() ==> (#[trigger] seeds@[k]) < nfa.len(),
    ensures
        forall|k: int| 0 <= k < r@.len() ==> (#[trigger] r@[k]) < nfa.len(),
        as_set(r@) == nfa.closure(as_set(seeds@)),
        nfa.eps_closed(as_set(r@)),
{
    let n = nfa.nodes.len();
    let mut visited: Vec<bool> = Vec::new();
    let mut k: usize = 0;
    while k < n
        invariant
            k <= n,
            visited@.len() == k,
            forall|j: int| 0 <= j < k ==> !visited@[j],
        decreases n - k,
    {
        visited.push(false);
        k = k + 1;
    }
    proof {
        lemma_count_false(visited@);
    }
    let ghost seed_set = as_set(seeds@);
    let mut result: Vec<usize> = Vec::new();
    let mut work: Vec<usize> = Vec::new();
    proof {
        assert(as_set(result@) =~= Set::<int>::empty());
        assert(as_set(work@) =~= Set::<int>::empty());
    }
    let mut s: usize = 0;
    while s < seeds.len()
        invariant
            closure_inv(*nfa, seed_set, visited@, result@, work@),
            n == nfa.len(),
            s <= seeds.len(),
            seed_set == as_set(seeds@),
            forall|k: int| 0 <= k < seeds@.len() ==> (#[trigger] seeds@[k]) < nfa.len(),
            forall|j: int| 0 <= j < s ==> as_set(result@).contains(#[trigger] seeds@[j] as int),
            forall|y: int, x: int| as_set(result@).contains(y) && !as_set(work@).contains(y) && #[trigger] nfa.eps_edge(y, x)
                ==> as_set(result@).contains(x),
        decreases seeds.len() - s,
    {
        let x = seeds[s];
        if !visited[x] {
            proof {
                let p = seq![x as int];
                assert(nfa.eps_path(p));
                assert(seed_set.contains(p[0]));
            }
            add_found(nfa, Ghost(seed_set), &mut visited, &mut result, &mut work, x);
        }
        s = s + 1;
    }
    proof {
        assert forall|x: int| seed_set.contains(x) implies as_set(result@).contains(x) by {
            let j = choose|j: int| 0 <= j < seeds@.len() && seeds@[j] as int == x;
        }
    }
    while work.len() > 0
        invariant
            closure_inv(*nfa, seed_set, visited@, result@, work@),
            n == nfa.len(),
            seed_set.subset_of(as_set(result@)),
            forall|y: int, x: int| as_set(result@).contains(y) && !as_set(work@).contains(y) && #[trigger] nfa.eps_edge(y, x)
                ==> as_set(result@).contains(x),
        decreases n - count_true(visited@), work.len(),
    {
        proof {
            lemma_as_set_pop(work@);
        }
        let y = work.pop().unwrap();
        let ghost work_after_pop = work@;
        let ghost result_before = as_set(result@);
        let ghost count_before = count_true(visited@);
        let edges = &nfa.nodes[y];
        let mut i: usize = 0;
        while i < edges.len()
            invariant
                closure_inv(*nfa, seed_set, visited@, result@, work@),
                n == nfa.len(),
                y < n,
                edges == &nfa.nodes@[y as int],
                i <= edges.len(),
                as_set(result@).contains(y as int),
                result_before.subset_of(as_set(result@)),
                seed_set.subset_of(as_set(result@)),
                as_set(work_after_pop).subset_of(as_set(work@)),
                as_set(result@).difference(result_before).subset_of(as_set(work@)),
                count_true(visited@) >= count_before,
                count_true(visited@) == count_before ==> work@ == work_after_pop,
                forall|y2: int, x: int| result_before.contains(y2) && !as_set(work_after_pop).contains(y2)
                    && y2 != y && #[trigger] nfa.eps_edge(y2, x) ==> result_before.contains(x),
                forall|e: int| 0 <= e < i && (#[trigger] edges@[e]).term is None && edges@[e].to is Some
                    ==> as_set(result@).contains(edges@[e].to->0 as int),
            decreases edges.len() - i,
        {
            let e = &edges[i];
            if e.term.is_none() && e.to.is_some() {
                let to = e.to.unwrap();
                if !visited[to] {
                    proof {
                        assert(nfa.eps_edge(y as int, to as int));
                        let p = choose|p: Seq<int>| #[trigger] nfa.eps_path(p) && seed_set.contains(p[0]) && p.last() == y as int;
                        lemma_path_extend(nfa, p, to as int);
                    }
                    add_found(nfa, Ghost(seed_set), &mut visited, &mut result, &mut work, to);
                }
            }
            i = i + 1;
        }
        proof {
            assert forall|y2: int, x: int| as_set(result@).contains(y2) && !as_set(work@).contains(y2)
                && #[trigger] nfa.eps_edge(y2, x) implies as_set(result@).contains(x) by {
                if y2 == y as int {
                    let e = choose|e: int| 0 <= e < nfa.nodes@[y2]@.len() && (#[trigger] nfa.nodes@[y2]@[e]).term is None
                        && nfa.nodes@[y2]@[e].to is Some && nfa.nodes@[y2]@[e].to->0 as int == x;
                    assert(edges@[e] == nfa.nodes@[y2]@[e]);
                } else if result_before.contains(y2) {
                    assert(!as_set(work_after_pop).contains(y2));
                    assert(y2 != y);
                } else {
                    assert(as_set(work@).contains(y2));
                }
            }
        }
    }
    proof {
        assert(as_set(work@) =~= Set::<int>::empty());
        assert forall|x: int| nfa.closure(seed_set).contains(x) implies as_set(result@).contains(x) by {
            let p = choose|p: Seq<int>| #[trigger] nfa.eps_path(p) && seed_set.contains(p[0]) && p.last() == x;
            lemma_closed_contains_reachable(nfa, seed_set, as_set(result@), p);
        }
        assert(as_set(result@) =~= nfa.closure(seed_set));
    }
    result
}

proof fn lemma_count_false(s: Seq<bool>)
    requires
        forall|j: int| 0 <= j < s.len() ==> !s[j],
    ensures
        count_true(s) == 0,
    decreases s.len(),
{
    if s.len() > 0 {
        lemma_count_false(s.drop_last());
    }
}

} // verus!

verus! {

// ---- expression AST -------------------------------------------------------

/// A parsed content expression.
pub enum Expr {
    Choice(Vec<Expr>),
    Sequence(Vec<Expr>),
    Plus(Box<Expr>),
    Star(Box<Expr>),
    Opt(Box<Expr>),
    /// The node-type ids this token may match (one for a node name, several
    /// for a group name).
    Match(Vec<usize>),
    Empty,
}

/// Whether the run of child types `s` matches `e`, read as a regular
/// expression: a name matches one child of its types, juxtaposition
/// matches the parts' matches one after another, `|` either option, `?`
/// nothing or the inner expression, `*` any number of inner matches and
/// `+` one inner match followed by any number more.
pub open spec fn expr_lang(e: Expr, s: Seq<usize>) -> bool
    decreases e, s.len(), 0nat,
{
    match e {
        Expr::Match(ids) => s.len() == 1 && ids@.contains(s[0]),
        Expr::Empty => s.len() == 0,
        Expr::Choice(opts) => exists|i: int| 0 <= i < opts@.len() && {
            proof {
                assert(decreases_to!(e => opts));
                assert(decreases_to!(opts => opts@));
            }
            expr_lang(#[trigger] opts@[i], s)
        },
        Expr::Sequence(parts) => exists|cuts: Seq<int>| #[trigger] cuts_of(cuts, parts@.len() as int, s.len() as int)
            && forall|i: int| 0 <= i < parts@.len() ==> {
                proof {
                    assert(decreases_to!(e => parts));
                    assert(decreases_to!(parts => parts@));
                }
                expr_lang(#[trigger] parts@[i], s.subrange(cuts[i], cuts[i + 1]))
            },
        Expr::Opt(inner) => s.len() == 0 || expr_lang(*inner, s),
        Expr::Star(inner) => star_lang(*inner, s),
        Expr::Plus(inner) => exists|k: int| 0 <= k <= s.len() && expr_lang(*inner, #[trigger] s.take(k))
            && star_lang(*inner, s.skip(k)),
    }
}

/// Whether `s` is any number of consecutive matches of `e`.
pub open spec fn star_lang(e: Expr, s: Seq<usize>) -> bool
    decreases e, s.len(), 1nat,
{
    s.len() == 0 || exists|k: int| 0 < k <= s.len() && expr_lang(e, #[trigger] s.take(k)) && star_lang(e, s.skip(k))
}

/// Whether `cuts` splits a run of length `len` into `n` consecutive pieces:
/// it starts at 0, ends at `len` and never goes back.
pub open spec fn cuts_of(cuts: Seq<int>, n: int, len: int) -> bool {
    &&& cuts.len() == n + 1
    &&& cuts[0] == 0
    &&& cuts[n] == len
    &&& forall|i: int, j: int| 0 <= i <= j <= n ==> #[trigger] cuts[i] <= #[trigger] cuts[j]
}

// ---- tokenizer ------------------------------------------------------------

/// A content-expression token.
pub enum Tok {
    Name(String),
    Pipe,
    Open,
    Close,
    Plus,
    Star,
    Opt,
}

/// The number of a punctuation token (0 `|`, 1 `(`, 2 `)`, 3 `+`, 4 `*`,
/// 5 `?`); -1 for a name.
pub open spec fn punct_kind(t: Tok) -> int {
    match t {
        Tok::Pipe => 0,
        Tok::Open => 1,
        Tok::Close => 2,
        Tok::Plus => 3,
        Tok::Star => 4,
        Tok::Opt => 5,
        Tok::Name(_) => -1,
    }
}

/// Whether `c` is alphanumeric in Unicode's sense (as `char::is_alphanumeric`).
pub uninterp spec fn unicode_alphanumeric(c: char) -> bool;

/// Whether `c` is whitespace in Unicode's sense (the `White_Space`
/// property, as `char::is_whitespace` has it): the controls U+0009 to
/// U+000D, space, U+0085, no-break space, U+1680, U+2000 to U+200A, the
/// line and paragraph separators U+2028 and U+2029, U+202F, U+205F and
/// U+3000.
pub open spec fn unicode_whitespace(c: char) -> bool {
    let u = c as u32;
    ||| 0x09 <= u <= 0x0D
    ||| u == 0x20
    ||| u == 0x85
    ||| u == 0xA0
    ||| u == 0x1680
    ||| 0x2000 <= u <= 0x200A
    ||| u == 0x2028
    ||| u == 0x2029
    ||| u == 0x202F
    ||| u == 0x205F
    ||| u == 0x3000
}

/// `char::is_alphanumeric`.
#[verifier::external_body]
pub(crate) fn char_is_alphanumeric(c: char) -> (r: bool)
    ensures
        r == unicode_alphanumeric(c),
{
    c.is_alphanumeric()
}

/// Whether `c` is whitespace (as `char::is_whitespace`).
pub(crate) fn char_is_whitespace(c: char) -> (r: bool)
    ensures
        r == unicode_whitespace(c),
{
    let u = c as u32;
    (0x09 <= u && u <= 0x0D) || u == 0x20 || u == 0x85 || u == 0xA0 || u == 0x1680 || (0x2000 <= u && u <= 0x200A)
        || u == 0x2028 || u == 0x2029 || u == 0x202F || u == 0x205F || u == 0x3000
}

/// A character that may appear in a node or group name.
pub open spec fn is_name_char(c: char) -> bool {
    unicode_alphanumeric(c) || c == '_' || c == '-'
}

/// A character the content-expression tokenizer accepts.
pub open spec fn is_expr_char(c: char) -> bool {
    unicode_whitespace(c) || c == '|' || c == '(' || c == ')' || c == '+' || c == '*' || c == '?'
        || is_name_char(c)
}

fn name_char(c: char) -> (r: bool)
    ensures
        r == is_name_char(c),
{
    c == '_' || c == '-' || char_is_alphanumeric(c)
}

/// Split a content expression into tokens. Fails exactly when the source
/// holds a character outside the grammar.
pub(crate) fn tokenize(src: &str) -> (r: Result<Vec<Tok>, String>)
    ensures
        r is Ok <==> forall|i: int| 0 <= i < src@.len() ==> is_expr_char(#[trigger] src@[i]),
        src@.len() == 0 ==> (r matches Ok(t) && t@.len() == 0),
{
    let chars = chars_of(src);
    let mut toks: Vec<Tok> = Vec::new();
    let mut i: usize = 0;
    while i < chars.len()
        invariant
            chars@ == src@,
            i <= chars.len(),
            forall|k: int| 0 <= k < i ==> is_expr_char(#[trigger] chars@[k]),
            src@.len() == 0 ==> toks@.len() == 0,
        decreases chars.len() - i,
    {
        let c = chars[i];
        if char_is_whitespace(c) {
            i = i + 1;
        } else if c == '|' {
            toks.push(Tok::Pipe);
            i = i + 1;
        } else if c == '(' {
            toks.push(Tok::Open);
            i = i + 1;
        } else if c == ')' {
            toks.push(Tok::Close);
            i = i + 1;
        } else if c == '+' {
            toks.push(Tok::Plus);
            i = i + 1;
        } else if c == '*' {
            toks.push(Tok::Star);
            i = i + 1;
        } else if c == '?' {
            toks.push(Tok::Opt);
            i = i + 1;
        } else if name_char(c) {
            let mut name: Vec<char> = Vec::new();
            name.push(c);
            i = i + 1;
            let ghost i1 = i;
            while i < chars.len() && name_char(chars[i])
                invariant
                    chars@ == src@,
                    i <= chars.len(),
                    i >= i1,
                    forall|k: int| 0 <= k < i ==> is_expr_char(#[trigger] chars@[k]),
                decreases chars.len() - i,
            {
                name.push(chars[i]);
                i = i + 1;
            }
            toks.push(Tok::Name(string_from_chars(&name)));
        } else {
            let mut msg: Vec<char> = Vec::new();
            push_str(&mut msg, "unexpected character `");
            msg.push(c);
            push_str(&mut msg, "`");
            return Err(string_from_chars(&msg));
        }
    }
    Ok(toks)
}

// ---- name resolution -------------------------------------------------------

/// Maps names in content expressions to node-type ids: a node name to its
/// own id, a group name to the ids of its members.
pub struct Resolver {
    pub names: Vec<String>,
    pub groups: Vec<(String, Vec<usize>)>,
}

/// Whether `i` is the first node name of `r` equal to `name`.
pub open spec fn first_name(r: Resolver, name: Seq<char>, i: int) -> bool {
    &&& 0 <= i < r.names@.len()
    &&& r.names@[i]@ == name
    &&& forall|k: int| 0 <= k < i ==> (#[trigger] r.names@[k])@ != name
}

/// Whether `g` is the first group of `r` named `name`.
pub open spec fn first_group(r: Resolver, name: Seq<char>, g: int) -> bool {
    &&& 0 <= g < r.groups@.len()
    &&& r.groups@[g].0@ == name
    &&& forall|k: int| 0 <= k < g ==> (#[trigger] r.groups@[k]).0@ != name
}

/// The node-type ids `name` stands for: a node name its own id, else a
/// group name the ids of its members; `None` for an unknown name.
pub open spec fn name_ids(r: Resolver, name: Seq<char>) -> Option<Seq<usize>> {
    if exists|i: int| #[trigger] first_name(r, name, i) {
        Some(seq![(choose|i: int| #[trigger] first_name(r, name, i)) as usize])
    } else if exists|g: int| #[trigger] first_group(r, name, g) {
        Some(r.groups@[choose|g: int| #[trigger] first_group(r, name, g)].1@)
    } else {
        None
    }
}

impl Resolver {
    pub open spec fn wf(self) -> bool {
        forall|g: int, k: int| 0 <= g < self.groups@.len() && 0 <= k < self.groups@[g].1@.len()
            ==> (#[trigger] self.groups@[g].1@[k]) < self.names@.len()
    }

    /// The ids `name` stands for, or `None` for an unknown reference.
    pub fn resolve(&self, name: &str) -> (r: Option<Vec<usize>>)
        requires
            self.wf(),
        ensures
            match r {
                Some(ids) => forall|k: int| 0 <= k < ids@.len() ==> (#[trigger] ids@[k]) < self.names@.len(),
                None => true,
            },
            r is None <==> (forall|i: int| 0 <= i < self.names@.len() ==> (#[trigger] self.names@[i])@ != name@)
                && (forall|g: int| 0 <= g < self.groups@.len() ==> (#[trigger] self.groups@[g]).0@ != name@),
            match r {
                Some(ids) => name_ids(*self, name@) == Some(ids@),
                None => name_ids(*self, name@) is None,
            },
    {
        let mut i: usize = 0;
        while i < self.names.len()
            invariant
                i <= self.names.len(),
                forall|k: int| 0 <= k < i ==> (#[trigger] self.names@[k])@ != name@,
            decreases self.names.len() - i,
        {
            if str_eq(self.names[i].as_str(), name) {
                let mut v = Vec::new();
                v.push(i);
                proof {
                    assert(first_name(*self, name@, i as int));
                    let j = choose|j: int| #[trigger] first_name(*self, name@, j);
                    if j < i {
                        assert(self.names@[j]@ != name@);
                    } else if j > i {
                        assert(self.names@[i as int]@ != name@);
                    }
                    assert(v@ =~= seq![i]);
                }
                return Some(v);
            }
            i = i + 1;
        }
        let mut g: usize = 0;
        while g < self.groups.len()
            invariant
                self.wf(),
                g <= self.groups.len(),
                forall|k: int| 0 <= k < g ==> (#[trigger] self.groups@[k]).0@ != name@,
                forall|k: int| 0 <= k < self.names@.len() ==> (#[trigger] self.names@[k])@ != name@,
            decreases self.groups.len() - g,
        {
            if str_eq(self.groups[g].0.as_str(), name) {
                let ids = self.groups[g].1.clone();
                proof {
                    assert forall|i: int| !#[trigger] first_name(*self, name@, i) by {
                        if 0 <= i < self.names@.len() {
                            assert(self.names@[i]@ != name@);
                        }
                    }
                    assert(first_group(*self, name@, g as int));
                    let h = choose|h: int| #[trigger] first_group(*self, name@, h);
                    if h < g {
                        assert(self.groups@[h].0@ != name@);
                    } else if h > g {
                        assert(self.groups@[g as int].0@ != name@);
                    }
                    assert forall|k: int| 0 <= k < ids@.len() implies (#[trigger] ids@[k]) < self.names@.len() by {
                        assert(ids@[k] == self.groups@[g as int].1@[k]);
                    }
                }
                return Some(ids);
            }
            g = g + 1;
        }
        None
    }
}

/// Whether `e` matches one child of any of the types `ids`.
pub open spec fn is_match_of(e: Expr, ids: Seq<usize>) -> bool {
    e matches Expr::Match(v) && v@ == ids
}

/// Whether every token of `toks` from `from` on is a name that `r`
/// resolves.
pub open spec fn names_from(toks: Seq<Tok>, r: Resolver, from: int) -> bool {
    forall|j: int| from <= j < toks.len() ==> (#[trigger] toks[j]) is Name && name_ids(r, toks[j]->Name_0@) is Some
}

/// The ids the name token `toks[j]` stands for.
pub open spec fn tok_ids(toks: Seq<Tok>, r: Resolver, j: int) -> Seq<usize> {
    match name_ids(r, toks[j]->Name_0@) {
        Some(ids) => ids,
        None => Seq::empty(),
    }
}

/// Whether `e` is the expression written by the names `toks[from..]`: the
/// empty expression for none, the name's match for one, else the names'
/// matches in the order written.
pub open spec fn names_expr(e: Expr, toks: Seq<Tok>, r: Resolver, from: int) -> bool {
    let k = toks.len() - from;
    if k <= 0 {
        e is Empty
    } else if k == 1 {
        is_match_of(e, tok_ids(toks, r, from))
    } else {
        e matches Expr::Sequence(parts) && (parts@.len() == k && forall|j: int| 0 <= j < k
            ==> is_match_of(#[trigger] parts@[j], tok_ids(toks, r, from + j)))
    }
}

/// Whether the child types `s` are, one for one, of the types the names
/// `toks` stand for, in the order written.
pub open spec fn names_lang(toks: Seq<Tok>, r: Resolver, s: Seq<usize>) -> bool {
    &&& s.len() == toks.len()
    &&& forall|j: int| 0 <= j < s.len() ==> #[trigger] tok_ids(toks, r, j).contains(s[j])
}

/// Cuts that advance by one each step sit at their own index.
proof fn lemma_unit_cuts(cuts: Seq<int>, n: int, i: int)
    requires
        0 <= i <= n,
        cuts.len() == n + 1,
        cuts[0] == 0,
        forall|j: int| 0 <= j < n ==> #[trigger] cuts[j + 1] == cuts[j] + 1,
    ensures
        cuts[i] == i,
    decreases i,
{
    if i > 0 {
        lemma_unit_cuts(cuts, n, i - 1);
        assert(cuts[(i - 1) + 1] == cuts[i - 1] + 1);
    }
}

/// A single name matches exactly one child of its types.
proof fn lemma_match_lang(e: Expr, ids: Seq<usize>, s: Seq<usize>)
    requires
        is_match_of(e, ids),
    ensures
        expr_lang(e, s) <==> (s.len() == 1 && ids.contains(s[0])),
{
}

/// A sequence matches what its cut pieces match.
proof fn lemma_sequence_lang(e: Expr, s: Seq<usize>)
    requires
        e is Sequence,
    ensures
        expr_lang(e, s) <==> exists|cuts: Seq<int>| #[trigger] cuts_of(cuts, e->Sequence_0@.len() as int, s.len() as int)
            && forall|i: int| 0 <= i < e->Sequence_0@.len() ==> expr_lang(#[trigger] e->Sequence_0@[i],
                s.subrange(cuts[i], cuts[i + 1])),
{
}

/// A child run of the names' types in order matches their sequence.
proof fn lemma_names_lang_in(parts: Seq<Expr>, toks: Seq<Tok>, r: Resolver, s: Seq<usize>)
    requires
        toks.len() >= 2,
        parts.len() == toks.len(),
        forall|j: int| 0 <= j < toks.len() ==> is_match_of(#[trigger] parts[j], tok_ids(toks, r, 0 + j)),
        names_lang(toks, r, s),
    ensures
        exists|cuts: Seq<int>| #[trigger] cuts_of(cuts, parts.len() as int, s.len() as int) && forall|i: int|
            0 <= i < parts.len() ==> expr_lang(#[trigger] parts[i], s.subrange(cuts[i], cuts[i + 1])),
{
    let k = toks.len() as int;
    let cuts = Seq::new((k + 1) as nat, |i: int| i);
    assert(cuts_of(cuts, k, s.len() as int));
    assert forall|i: int| 0 <= i < k implies expr_lang(#[trigger] parts[i], s.subrange(cuts[i], cuts[i + 1])) by {
        assert(is_match_of(parts[i], tok_ids(toks, r, 0 + i)));
        let piece = s.subrange(cuts[i], cuts[i + 1]);
        assert(piece.len() == 1 && piece[0] == s[i]);
        assert(tok_ids(toks, r, i).contains(s[i]));
        lemma_match_lang(parts[i], tok_ids(toks, r, i), piece);
    }
}

/// A child run matching the sequence of the names has their types in order.
proof fn lemma_names_lang_out(parts: Seq<Expr>, toks: Seq<Tok>, r: Resolver, s: Seq<usize>, cuts: Seq<int>)
    requires
        toks.len() >= 2,
        parts.len() == toks.len(),
        forall|j: int| 0 <= j < toks.len() ==> is_match_of(#[trigger] parts[j], tok_ids(toks, r, 0 + j)),
        cuts_of(cuts, parts.len() as int, s.len() as int),
        forall|i: int| 0 <= i < parts.len() ==> expr_lang(#[trigger] parts[i], s.subrange(cuts[i], cuts[i + 1])),
    ensures
        names_lang(toks, r, s),
{
    let k = toks.len() as int;
    assert forall|j: int| 0 <= j < k implies #[trigger] cuts[j + 1] == cuts[j] + 1 by {
        assert(is_match_of(parts[j], tok_ids(toks, r, 0 + j)));
        assert(expr_lang(parts[j], s.subrange(cuts[j], cuts[j + 1])));
        assert(cuts[j] <= cuts[j + 1]);
        lemma_match_lang(parts[j], tok_ids(toks, r, j), s.subrange(cuts[j], cuts[j + 1]));
    }
    lemma_unit_cuts(cuts, k, k);
    assert forall|j: int| 0 <= j < s.len() implies #[trigger] tok_ids(toks, r, j).contains(s[j]) by {
        lemma_unit_cuts(cuts, k, j);
        lemma_unit_cuts(cuts, k, j + 1);
        assert(is_match_of(parts[j], tok_ids(toks, r, 0 + j)));
        assert(expr_lang(parts[j], s.subrange(cuts[j], cuts[j + 1])));
        lemma_match_lang(parts[j], tok_ids(toks, r, j), s.subrange(j, j + 1));
        assert(s.subrange(j, j + 1)[0] == s[j]);
    }
}

/// The expression written by a run of names matches exactly the child
/// runs whose children are, one for one and in order, of those names'
/// types.
proof fn lemma_names_lang(e: Expr, toks: Seq<Tok>, r: Resolver, s: Seq<usize>)
    requires
        names_expr(e, toks, r, 0),
    ensures
        expr_lang(e, s) <==> names_lang(toks, r, s),
{
    let k = toks.len() as int;
    if k == 1 {
        lemma_match_lang(e, tok_ids(toks, r, 0), s);
    } else if k >= 2 {
        let parts = e->Sequence_0@;
        lemma_sequence_lang(e, s);
        assert forall|j: int| 0 <= j < toks.len() implies is_match_of(#[trigger] parts[j], tok_ids(toks, r, 0 + j)) by {}
        if names_lang(toks, r, s) {
            lemma_names_lang_in(parts, toks, r, s);
        }
        if expr_lang(e, s) {
            let cuts = choose|cuts: Seq<int>| #[trigger] cuts_of(cuts, parts.len() as int, s.len() as int) && forall|i: int|
                0 <= i < parts.len() ==> expr_lang(#[trigger] parts[i], s.subrange(cuts[i], cuts[i + 1]));
            lemma_names_lang_out(parts, toks, r, s, cuts);
        }
    }
}

/// Parse a whole token list into an expression, or say why it is not one:
/// the unknown reference, when that is the reason, and a message.
pub fn parse_tokens(toks: Vec<Tok>, resolver: &Resolver) -> (r: Result<Expr, (Option<String>, String)>)
    requires
        resolver.wf(),
    ensures
        toks@.len() == 0 ==> (r matches Ok(e) && e is Empty),
        names_from(toks@, *resolver, 0) ==> (r matches Ok(e) && names_expr(e, toks@, *resolver, 0)),
{
    let mut parser = Parser { toks, pos: 0, resolver, bad_ref: None };
    match parser.parse_expr() {
        Ok(e) => {
            if parser.pos != parser.toks.len() {
                Err((None, "trailing tokens after expression".to_string()))
            } else {
                Ok(e)
            }
        },
        Err(message) => Err((parser.bad_ref, message)),
    }
}

/// A content expression written as a run of names is their sequence in
/// the order written: it matches exactly the child runs whose first child
/// is of the first name's types, the second of the second's, and so on
/// (`heading paragraph` matches a heading then a paragraph, not the other
/// way round).
pub proof fn law_names_match_in_written_order(toks: Vec<Tok>, resolver: Resolver, e: Expr, s: Seq<usize>)
    requires
        call_ensures(parse_tokens, (toks, &resolver), Ok::<Expr, (Option<String>, String)>(e)),
        resolver.wf(),
        names_from(toks@, resolver, 0),
    ensures
        expr_lang(e, s) <==> names_lang(toks@, resolver, s),
{
    lemma_names_lang(e, toks@, resolver, s);
}

// ---- recursive-descent parser --------------------------------------------

pub struct Parser<'a> {
    pub toks: Vec<Tok>,
    pub pos: usize,
    pub resolver: &'a Resolver,
    pub bad_ref: Option<String>,
}

impl<'a> Parser<'a> {
    pub open spec fn wf(self) -> bool {
        self.pos <= self.toks@.len() && self.resolver.wf()
    }

    pub open spec fn at_seq_start_spec(self) -> bool {
        self.pos < self.toks@.len() && (self.toks@[self.pos as int] is Name || self.toks@[self.pos as int] is Open)
    }

    fn at_seq_start(&self) -> (r: bool)
        requires
            self.wf(),
        ensures
            r == self.at_seq_start_spec(),
    {
        if self.pos < self.toks.len() {
            match &self.toks[self.pos] {
                Tok::Name(_) => true,
                Tok::Open => true,
                _ => false,
            }
        } else {
            false
        }
    }

    /// Consume the next token if it is the punctuation `kind`
    /// (0 `|`, 1 `(`, 2 `)`, 3 `+`, 4 `*`, 5 `?`).
    fn eat(&mut self, kind: u8) -> (r: bool)
        requires
            old(self).wf(),
        ensures
            final(self).wf(),
            final(self).toks == old(self).toks,
            final(self).resolver == old(self).resolver,
            final(self).bad_ref == old(self).bad_ref,
            r ==> final(self).pos == old(self).pos + 1,
            !r ==> final(self).pos == old(self).pos,
            r == (old(self).pos < old(self).toks@.len() && punct_kind(old(self).toks@[old(self).pos as int]) == kind as int),
    {
        if self.pos < self.toks.len() {
            let hit = match &self.toks[self.pos] {
                Tok::Pipe => kind == 0,
                Tok::Open => kind == 1,
                Tok::Close => kind == 2,
                Tok::Plus => kind == 3,
                Tok::Star => kind == 4,
                Tok::Opt => kind == 5,
                Tok::Name(_) => false,
            };
            if hit {
                self.pos = self.pos + 1;
            }
            hit
        } else {
            false
        }
    }

    fn parse_expr(&mut self) -> (r: Result<Expr, String>)
        requires
            old(self).wf(),
        ensures
            final(self).wf(),
            final(self).toks == old(self).toks,
            final(self).resolver == old(self).resolver,
            final(self).pos >= old(self).pos,
            old(self).pos == old(self).toks@.len() ==> (r matches Ok(e) && e is Empty && final(self).pos == old(self).pos),
            names_from(old(self).toks@, *old(self).resolver, old(self).pos as int) ==> (r matches Ok(e)
                && names_expr(e, old(self).toks@, *old(self).resolver, old(self).pos as int)
                && final(self).pos == old(self).toks@.len()),
        decreases old(self).toks@.len() - old(self).pos, 3nat,
    {
        let first = self.parse_seq()?;
        let mut opts: Vec<Expr> = Vec::new();
        opts.push(first);
        while self.eat(0)
            invariant
                self.wf(),
                self.toks == old(self).toks,
                self.resolver == old(self).resolver,
                self.pos >= old(self).pos,
                old(self).pos == old(self).toks@.len() ==> self.pos == old(self).pos && opts@.len() == 1
                    && opts@[0] is Empty,
                names_from(old(self).toks@, *old(self).resolver, old(self).pos as int) ==> self.pos == self.toks@.len()
                    && opts@.len() == 1 && names_expr(opts@[0], old(self).toks@, *old(self).resolver, old(self).pos as int),
            decreases self.toks@.len() - self.pos,
        {
            let next = self.parse_seq()?;
            opts.push(next);
        }
        if opts.len() == 1 {
            let e = opts.pop().unwrap();
            Ok(e)
        } else {
            let e = Expr::Choice(opts);
            Ok(e)
        }
    }

    fn parse_seq(&mut self) -> (r: Result<Expr, String>)
        requires
            old(self).wf(),
        ensures
            final(self).wf(),
            final(self).toks == old(self).toks,
            final(self).resolver == old(self).resolver,
            final(self).pos >= old(self).pos,
            old(self).pos == old(self).toks@.len() ==> (r matches Ok(e) && e is Empty && final(self).pos == old(self).pos),
            names_from(old(self).toks@, *old(self).resolver, old(self).pos as int) ==> (r matches Ok(e)
                && names_expr(e, old(self).toks@, *old(self).resolver, old(self).pos as int)
                && final(self).pos == old(self).toks@.len()),
        decreases old(self).toks@.len() - old(self).pos, 2nat,
    {
        let ghost names = names_from(old(self).toks@, *old(self).resolver, old(self).pos as int);
        let ghost p0 = old(self).pos as int;
        let mut parts: Vec<Expr> = Vec::new();
        while self.at_seq_start()
            invariant
                self.wf(),
                self.toks == old(self).toks,
                self.resolver == old(self).resolver,
                self.pos >= old(self).pos,
                p0 == old(self).pos,
                names == names_from(old(self).toks@, *old(self).resolver, p0),
                old(self).pos == old(self).toks@.len() ==> self.pos == old(self).pos && parts@.len() == 0,
                names ==> parts@.len() == self.pos - p0 && forall|j: int| 0 <= j < parts@.len()
                    ==> is_match_of(#[trigger] parts@[j], tok_ids(self.toks@, *self.resolver, p0 + j)),
            decreases self.toks@.len() - self.pos,
        {
            let ghost q = self.pos as int;
            let p = self.parse_postfix()?;
            let ghost before = parts@;
            parts.push(p);
            proof {
                if names {
                    assert forall|j: int| 0 <= j < parts@.len() implies is_match_of(#[trigger] parts@[j],
                        tok_ids(self.toks@, *self.resolver, p0 + j)) by {
                        if j < before.len() {
                            assert(parts@[j] == before[j]);
                        }
                    }
                }
            }
        }
        proof {
            if names && self.pos < self.toks@.len() {
                assert(self.toks@[self.pos as int] is Name);
            }
        }
        if parts.len() == 0 {
            Ok(Expr::Empty)
        } else if parts.len() == 1 {
            let e = parts.pop().unwrap();
            Ok(e)
        } else {
            let e = Expr::Sequence(parts);
            Ok(e)
        }
    }

    fn parse_postfix(&mut self) -> (r: Result<Expr, String>)
        requires
            old(self).wf(),
            old(self).at_seq_start_spec(),
        ensures
            final(self).wf(),
            final(self).toks == old(self).toks,
            final(self).resolver == old(self).resolver,
            final(self).pos >= old(self).pos,
            r is Ok ==> final(self).pos > old(self).pos,
            names_from(old(self).toks@, *old(self).resolver, old(self).pos as int) ==> (r matches Ok(e)
                && is_match_of(e, tok_ids(old(self).toks@, *old(self).resolver, old(self).pos as int))
                && final(self).pos == old(self).pos + 1),
        decreases old(self).toks@.len() - old(self).pos, 1nat,
    {
        let ghost names = names_from(old(self).toks@, *old(self).resolver, old(self).pos as int);
        let mut e = self.parse_atom()?;
        let ghost e0 = e;
        loop
            invariant
                self.wf(),
                self.toks == old(self).toks,
                self.resolver == old(self).resolver,
                self.pos > old(self).pos,
                names == names_from(old(self).toks@, *old(self).resolver, old(self).pos as int),
                names ==> self.pos == old(self).pos + 1 && e == e0
                    && is_match_of(e0, tok_ids(old(self).toks@, *old(self).resolver, old(self).pos as int)),
            decreases self.toks@.len() - self.pos,
        {
            proof {
                if names && self.pos < self.toks@.len() {
                    assert(self.toks@[self.pos as int] is Name);
                }
            }
            if self.eat(3) {
                e = Expr::Plus(Box::new(e));
            } else if self.eat(4) {
                e = Expr::Star(Box::new(e));
            } else if self.eat(5) {
                e = Expr::Opt(Box::new(e));
            } else {
                break;
            }
        }
        Ok(e)
    }

    fn parse_atom(&mut self) -> (r: Result<Expr, String>)
        requires
            old(self).wf(),
            old(self).at_seq_start_spec(),
        ensures
            final(self).wf(),
            final(self).toks == old(self).toks,
            final(self).resolver == old(self).resolver,
            final(self).pos > old(self).pos,
            names_from(old(self).toks@, *old(self).resolver, old(self).pos as int) ==> (r matches Ok(e)
                && is_match_of(e, tok_ids(old(self).toks@, *old(self).resolver, old(self).pos as int))
                && final(self).pos == old(self).pos + 1),
        decreases old(self).toks@.len() - old(self).pos, 0nat,
    {
        proof {
            if names_from(old(self).toks@, *old(self).resolver, old(self).pos as int) {
                assert(self.toks@[self.pos as int] is Name);
            }
        }
        if self.eat(1) {
            let e = self.parse_expr()?;
            if !self.eat(2) {
                return Err("expected `)`".to_string());
            }
            Ok(e)
        } else {
            if self.pos >= self.toks.len() {
                return Err("expected a name or `(`".to_string());
            }
            let name: String = match &self.toks[self.pos] {
                Tok::Name(n) => n.clone(),
                _ => String::new(),
            };
            self.pos = self.pos + 1;
            match self.resolver.resolve(name.as_str()) {
                Some(ids) => Ok(Expr::Match(ids)),
                None => {
                    self.bad_ref = Some(name);
                    Err("unknown reference".to_string())
                },
            }
        }
    }
}

// ---- automaton construction (Thompson) ------------------------------------

/// Every edge reference in `refs` names an existing edge.
pub open spec fn refs_valid(nodes: Seq<Vec<Edge>>, refs: Seq<(usize, usize)>) -> bool {
    forall|k: int| 0 <= k < refs.len() ==> (#[trigger] refs[k]).0 < nodes.len()
        && refs[k].1 < nodes[refs[k].0 as int]@.len()
}

/// Every edge label is below `n`.
pub open spec fn terms_below(nodes: Seq<Vec<Edge>>, n: nat) -> bool {
    forall|a: int, i: int| 0 <= a < nodes.len() && 0 <= i < nodes[a]@.len() && (#[trigger] nodes[a]@[i]).term is Some
        ==> nodes[a]@[i].term->0 < n
}

/// Whether the nodes `from..from + idss.len()` of `nodes` form a chain for
/// the id lists `idss`: node `from + j` has one edge per id of `idss[j]`,
/// in order, each to the next node of the chain, the last node's edges to
/// `last`.
pub open spec fn chain_at(nodes: Seq<Vec<Edge>>, from: int, idss: Seq<Seq<usize>>, last: Option<usize>) -> bool {
    &&& 0 <= from
    &&& from + idss.len() <= nodes.len()
    &&& forall|a: int| from <= a < from + idss.len() ==> (#[trigger] nodes[a])@.len() == idss[a - from].len()
    &&& forall|a: int, m: int| from <= a < from + idss.len() && 0 <= m < idss[a - from].len()
        ==> (#[trigger] nodes[a]@[m]) == (Edge {
            term: Some(idss[a - from][m]),
            to: if a + 1 < from + idss.len() { Some((a + 1) as usize) } else { last },
        })
}

/// The edges of node `a`, numbers `0..n`, as references.
pub open spec fn all_edges(a: int, n: int) -> Seq<(usize, usize)> {
    Seq::new(n as nat, |m: int| (a as usize, m as usize))
}

/// Whether every expression of `parts` is a name match.
pub open spec fn all_match(parts: Seq<Expr>) -> bool {
    forall|j: int| 0 <= j < parts.len() ==> (#[trigger] parts[j]) is Match
}

/// The id lists of a run of name matches.
pub open spec fn ids_of(parts: Seq<Expr>) -> Seq<Seq<usize>> {
    Seq::new(parts.len(), |j: int| parts[j]->Match_0@)
}

/// A chain whose last node points at `cur`, followed at `cur` by a node
/// with one edge per id of `ids` to `to`, is one chain longer.
proof fn lemma_chain_push(nodes: Seq<Vec<Edge>>, from: int, idss: Seq<Seq<usize>>, ids: Seq<usize>, to: Option<usize>)
    requires
        chain_at(nodes, from, idss, Some((from + idss.len()) as usize)),
        from + idss.len() < nodes.len(),
        nodes[from + idss.len()]@.len() == ids.len(),
        forall|m: int| 0 <= m < ids.len() ==> (#[trigger] nodes[from + idss.len()]@[m]) == (Edge { term: Some(ids[m]), to }),
    ensures
        chain_at(nodes, from, idss.push(ids), to),
{
    let k = idss.len() as int;
    let nk = idss.push(ids);
    assert forall|a: int| from <= a < from + nk.len() implies (#[trigger] nodes[a])@.len() == nk[a - from].len() by {
        if a < from + k {
            assert(nk[a - from] == idss[a - from]);
        }
    }
    assert forall|a: int, m: int| from <= a < from + nk.len() && 0 <= m < nk[a - from].len()
        implies (#[trigger] nodes[a]@[m]) == (Edge {
            term: Some(nk[a - from][m]),
            to: if a + 1 < from + nk.len() { Some((a + 1) as usize) } else { to },
        }) by {
        if a < from + k {
            assert(nk[a - from] == idss[a - from]);
        } else {
            assert(a == from + k);
        }
    }
}

/// The automaton under construction: connected edges point at existing
/// nodes and labels are node-type ids below `n_types`.
pub struct Builder {
    pub nodes: Vec<Vec<Edge>>,
    pub n_types: usize,
}

impl Builder {
    pub open spec fn wf(self) -> bool {
        edges_wf(self.nodes@) && terms_below(self.nodes@, self.n_types as nat) && self.nodes@.len() > 0
    }

    fn node(&mut self) -> (r: usize)
        requires
            old(self).wf(),
            old(self).nodes@.len() < usize::MAX,
        ensures
            final(self).wf(),
            final(self).n_types == old(self).n_types,
            r == old(self).nodes@.len(),
            final(self).nodes@.len() == old(self).nodes@.len() + 1,
            forall|a: int| 0 <= a < old(self).nodes@.len() ==> final(self).nodes@[a] == old(self).nodes@[a],
            final(self).nodes@[r as int]@.len() == 0,
    {
        self.nodes.push(Vec::new());
        proof {
            let ns = self.nodes@;
            assert forall|n: int, i: int| 0 <= n < ns.len() && 0 <= i < ns[n]@.len() && (#[trigger] ns[n]@[i]).to is Some
                implies ns[n]@[i].to->0 < ns.len() by {
                assert(n < old(self).nodes@.len());
            }
            assert forall|a: int, i: int| 0 <= a < ns.len() && 0 <= i < ns[a]@.len() && (#[trigger] ns[a]@[i]).term is Some
                implies ns[a]@[i].term->0 < self.n_types by {
                assert(a < old(self).nodes@.len());
            }
        }
        self.nodes.len() - 1
    }

    fn edge(&mut self, from: usize, to: Option<usize>, term: Option<usize>) -> (r: (usize, usize))
        requires
            old(self).wf(),
            from < old(self).nodes@.len(),
            to matches Some(t) ==> t < old(self).nodes@.len(),
            term matches Some(t) ==> t < old(self).n_types,
        ensures
            final(self).wf(),
            final(self).n_types == old(self).n_types,
            final(self).nodes@.len() == old(self).nodes@.len(),
            r.0 == from,
            r.1 < final(self).nodes@[from as int]@.len(),
            forall|a: int| 0 <= a < old(self).nodes@.len() ==> final(self).nodes@[a]@.len() >= old(self).nodes@[a]@.len(),
            r.1 == old(self).nodes@[from as int]@.len(),
            final(self).nodes@[from as int]@ == old(self).nodes@[from as int]@.push(Edge { term, to }),
            forall|a: int| 0 <= a < old(self).nodes@.len() && a != from ==> final(self).nodes@[a] == old(self).nodes@[a],
    {
        let mut list = clone_edges(&self.nodes[from]);
        list.push(Edge { term, to });
        let idx = list.len() - 1;
        let ghost old_nodes = old(self).nodes@;
        self.nodes.set(from, list);
        proof {
            let ns = self.nodes@;
            assert forall|n: int, i: int| 0 <= n < ns.len() && 0 <= i < ns[n]@.len() && (#[trigger] ns[n]@[i]).to is Some
                implies ns[n]@[i].to->0 < ns.len() by {
                if n != from as int {
                    assert(ns[n] == old_nodes[n]);
                } else if i < old_nodes[n]@.len() {
                    assert(ns[n]@[i] == old_nodes[n]@[i]);
                }
            }
            assert forall|a: int, i: int| 0 <= a < ns.len() && 0 <= i < ns[a]@.len() && (#[trigger] ns[a]@[i]).term is Some
                implies ns[a]@[i].term->0 < self.n_types by {
                if a != from as int {
                    assert(ns[a] == old_nodes[a]);
                } else if i < old_nodes[a]@.len() {
                    assert(ns[a]@[i] == old_nodes[a]@[i]);
                }
            }
        }
        (from, idx)
    }

    fn connect(&mut self, edges: &Vec<(usize, usize)>, to: usize)
        requires
            old(self).wf(),
            refs_valid(old(self).nodes@, edges@),
            to < old(self).nodes@.len(),
        ensures
            final(self).wf(),
            final(self).n_types == old(self).n_types,
            final(self).nodes@.len() == old(self).nodes@.len(),
            forall|a: int| 0 <= a < old(self).nodes@.len() ==> final(self).nodes@[a]@.len() == old(self).nodes@[a]@.len(),
            forall|a: usize, j: usize| a < old(self).nodes@.len() && j < old(self).nodes@[a as int]@.len() ==>
                (#[trigger] final(self).nodes@[a as int]@[j as int]).term == old(self).nodes@[a as int]@[j as int].term
                && final(self).nodes@[a as int]@[j as int].to == (if edges@.contains((a, j)) {
                    Some(to)
                } else {
                    old(self).nodes@[a as int]@[j as int].to
                }),
            forall|a: int| 0 <= a < old(self).nodes@.len() && (forall|k: int| 0 <= k < edges@.len() ==> (#[trigger] edges@[k]).0 != a)
                ==> #[trigger] final(self).nodes@[a] == old(self).nodes@[a],
    {
        let mut k: usize = 0;
        while k < edges.len()
            invariant
                self.wf(),
                self.n_types == old(self).n_types,
                self.nodes@.len() == old(self).nodes@.len(),
                forall|a: int| 0 <= a < old(self).nodes@.len() ==> self.nodes@[a]@.len() == old(self).nodes@[a]@.len(),
                refs_valid(old(self).nodes@, edges@),
                to < old(self).nodes@.len(),
                k <= edges.len(),
                forall|a: int| 0 <= a < old(self).nodes@.len() && (forall|q: int| 0 <= q < edges@.len() ==> (#[trigger] edges@[q]).0 != a)
                    ==> #[trigger] self.nodes@[a] == old(self).nodes@[a],
                forall|a: usize, j: usize| a < old(self).nodes@.len() && j < old(self).nodes@[a as int]@.len() ==>
                    (#[trigger] self.nodes@[a as int]@[j as int]).term == old(self).nodes@[a as int]@[j as int].term
                    && self.nodes@[a as int]@[j as int].to == (if edges@.take(k as int).contains((a, j)) {
                        Some(to)
                    } else {
                        old(self).nodes@[a as int]@[j as int].to
                    }),
            decreases edges.len() - k,
        {
            let (n, i) = edges[k];
            let ghost before = self.nodes@;
            let mut list = clone_edges(&self.nodes[n]);
            let term = list[i].term;
            list.set(i, Edge { term, to: Some(to) });
            self.nodes.set(n, list);
            proof {
                let ns = self.nodes@;
                assert forall|m: int, j: int| 0 <= m < ns.len() && 0 <= j < ns[m]@.len() && (#[trigger] ns[m]@[j]).to is Some
                    implies ns[m]@[j].to->0 < ns.len() by {
                    if m != n as int {
                        assert(ns[m] == before[m]);
                    } else if j != i as int {
                        assert(ns[m]@[j] == before[m]@[j]);
                    }
                }
                assert forall|a: int, j: int| 0 <= a < ns.len() && 0 <= j < ns[a]@.len() && (#[trigger] ns[a]@[j]).term is Some
                    implies ns[a]@[j].term->0 < self.n_types by {
                    if a != n as int {
                        assert(ns[a] == before[a]);
                    } else if j != i as int {
                        assert(ns[a]@[j] == before[a]@[j]);
                    } else {
                        assert(before[a]@[j].term == term);
                    }
                }
                assert forall|a: int| 0 <= a < old(self).nodes@.len() implies self.nodes@[a]@.len() == old(self).nodes@[a]@.len() by {
                    if a != n as int {
                        assert(ns[a] == before[a]);
                    }
                }
                assert forall|a: int| 0 <= a < old(self).nodes@.len() && (forall|q: int| 0 <= q < edges@.len() ==> (#[trigger] edges@[q]).0 != a)
                    implies #[trigger] ns[a] == old(self).nodes@[a] by {
                    assert(edges@[k as int].0 != a);
                    assert(ns[a] == before[a]);
                }
                let tk = edges@.take(k as int + 1);
                assert(tk =~= edges@.take(k as int).push(edges@[k as int]));
                assert forall|a: usize, j: usize| a < old(self).nodes@.len() && j < old(self).nodes@[a as int]@.len() implies
                    (#[trigger] ns[a as int]@[j as int]).term == old(self).nodes@[a as int]@[j as int].term
                    && ns[a as int]@[j as int].to == (if tk.contains((a, j)) {
                        Some(to)
                    } else {
                        old(self).nodes@[a as int]@[j as int].to
                    }) by {
                    let tp = edges@.take(k as int);
                    assert(tk[k as int] == (n, i));
                    if tp.contains((a, j)) {
                        let w = choose|w: int| 0 <= w < tp.len() && tp[w] == (a, j);
                        assert(tk[w] == (a, j));
                    }
                    if a == n && j == i {
                        assert(ns[a as int]@[j as int] == Edge { term, to: Some(to) });
                        assert(tk.contains((a, j)));
                    } else {
                        if a != n {
                            assert(ns[a as int] == before[a as int]);
                        } else {
                            assert(ns[a as int]@[j as int] == before[a as int]@[j as int]);
                        }
                        if tk.contains((a, j)) {
                            let w = choose|w: int| 0 <= w < tk.len() && tk[w] == (a, j);
                            assert(w != k);
                            assert(tp[w] == (a, j));
                        }
                    }
                }
            }
            k = k + 1;
        }
        proof {
            assert(edges@.take(edges@.len() as int) =~= edges@);
        }
    }

    /// Compile `expr` starting at node `from`; returns the dangling edges
    /// that leave the sub-automaton.
    fn compile(&mut self, expr: &Expr, from: usize) -> (r: Result<Vec<(usize, usize)>, ()>)
        requires
            old(self).wf(),
            from < old(self).nodes@.len(),
        ensures
            final(self).wf(),
            final(self).n_types == old(self).n_types,
            final(self).nodes@.len() >= old(self).nodes@.len(),
            forall|a: int| 0 <= a < old(self).nodes@.len() ==> final(self).nodes@[a]@.len() >= old(self).nodes@[a]@.len(),
            r matches Ok(v) ==> refs_valid(final(self).nodes@, v@),
            *expr is Empty && old(self).nodes@.len() < usize::MAX - 4 ==> r is Ok
                && final(self).nodes@.len() == old(self).nodes@.len(),
            (*expr is Match && from + 1 == old(self).nodes@.len() && old(self).nodes@[from as int]@.len() == 0)
                ==> (r matches Ok(v) ==> final(self).nodes@.len() == old(self).nodes@.len()
                    && final(self).nodes@.take(from as int) == old(self).nodes@.take(from as int)
                    && chain_at(final(self).nodes@, from as int, seq![(*expr)->Match_0@], None)
                    && v@ == all_edges(from as int, (*expr)->Match_0@.len() as int)),
            (*expr is Sequence && all_match((*expr)->Sequence_0@) && (*expr)->Sequence_0@.len() >= 1
                && from + 1 == old(self).nodes@.len() && old(self).nodes@[from as int]@.len() == 0)
                ==> (r matches Ok(v) ==> final(self).nodes@.len() == from + (*expr)->Sequence_0@.len()
                    && final(self).nodes@.take(from as int) == old(self).nodes@.take(from as int)
                    && chain_at(final(self).nodes@, from as int, ids_of((*expr)->Sequence_0@), None)
                    && v@ == all_edges(from + (*expr)->Sequence_0@.len() - 1,
                        ids_of((*expr)->Sequence_0@).last().len() as int)),
        decreases expr,
    {
        if self.nodes.len() >= usize::MAX - 4 {
            return Err(());
        }
        match expr {
            Expr::Choice(opts) => {
                let mut out: Vec<(usize, usize)> = Vec::new();
                let mut i: usize = 0;
                while i < opts.len()
                    invariant
                        self.wf(),
                        self.n_types == old(self).n_types,
                        from < old(self).nodes@.len(),
                        self.nodes@.len() >= old(self).nodes@.len(),
                        forall|a: int| 0 <= a < old(self).nodes@.len() ==> self.nodes@[a]@.len() >= old(self).nodes@[a]@.len(),
                        refs_valid(self.nodes@, out@),
                        i <= opts.len(),
                                    *expr == Expr::Choice(*opts),
                    decreases opts.len() - i,
                {
                    proof {
                        assert((*expr)->Choice_0 == *opts);
                        assert(decreases_to!(*expr => (*expr)->Choice_0));
                        assert(decreases_to!(*opts => opts@));
                        assert(decreases_to!(opts@ => opts@[i as int]));
                        assert(decreases_to!(*expr => opts@[i as int]));
                    }
                    let ghost before = self.nodes@;
                    let part = self.compile(&opts[i], from)?;
                    proof {
                        lemma_refs_grow(before, self.nodes@, out@);
                    }
                    let ghost prev = out@;
                    extend_refs(&mut out, &part);
                    proof {
                        assert forall|k: int| 0 <= k < out@.len() implies (#[trigger] out@[k]).0 < self.nodes@.len()
                            && out@[k].1 < self.nodes@[out@[k].0 as int]@.len() by {
                            if k < prev.len() {
                                assert(out@[k] == prev[k]);
                            } else {
                                assert(out@[k] == part@[k - prev.len()]);
                            }
                        }
                    }
                    i = i + 1;
                }
                Ok(out)
            },
            Expr::Sequence(parts) => {
                let ghost chain = all_match(parts@) && from + 1 == old(self).nodes@.len()
                    && old(self).nodes@[from as int]@.len() == 0;
                let ghost idss = ids_of(parts@);
                let mut cur = from;
                let mut i: usize = 0;
                let mut last: Vec<(usize, usize)> = Vec::new();
                while i < parts.len()
                    invariant
                        self.wf(),
                        self.n_types == old(self).n_types,
                        cur < self.nodes@.len(),
                        self.nodes@.len() >= old(self).nodes@.len(),
                        forall|a: int| 0 <= a < old(self).nodes@.len() ==> self.nodes@[a]@.len() >= old(self).nodes@[a]@.len(),
                        refs_valid(self.nodes@, last@),
                        i <= parts.len(),
                                    *expr == Expr::Sequence(*parts),
                        idss == ids_of(parts@),
                        parts@.len() > 0 ==> i < parts@.len(),
                        chain == (all_match(parts@) && from + 1 == old(self).nodes@.len()
                            && old(self).nodes@[from as int]@.len() == 0),
                        chain ==> cur == from + i && self.nodes@.len() == cur + 1 && self.nodes@[cur as int]@.len() == 0
                            && self.nodes@.take(from as int) == old(self).nodes@.take(from as int)
                            && chain_at(self.nodes@, from as int, idss.take(i as int), Some(cur)),
                    decreases parts.len() - i,
                {
                    proof {
                        assert((*expr)->Sequence_0 == *parts);
                        assert(decreases_to!(*expr => (*expr)->Sequence_0));
                        assert(decreases_to!(*parts => parts@));
                        assert(decreases_to!(parts@ => parts@[i as int]));
                        assert(decreases_to!(*expr => parts@[i as int]));
                    }
                    let ghost before = self.nodes@;
                    let next = self.compile(&parts[i], cur)?;
                    let ghost after = self.nodes@;
                    proof {
                        if chain {
                            assert(parts@[i as int] is Match);
                            assert(idss[i as int] == parts@[i as int]->Match_0@);
                            assert(after.take(from as int) =~= before.take(from as int)) by {
                                assert(after.take(cur as int).take(from as int) =~= after.take(from as int));
                                assert(before.take(cur as int).take(from as int) =~= before.take(from as int));
                            }
                            assert forall|a: int| from <= a < cur implies #[trigger] after[a] == before[a] by {
                                assert(after.take(cur as int)[a] == after[a]);
                                assert(before.take(cur as int)[a] == before[a]);
                            }
                            let ti = idss.take(i as int);
                            assert(chain_at(after, from as int, ti, Some(cur))) by {
                                assert forall|a: int| from <= a < from + ti.len() implies (#[trigger] after[a])@.len()
                                    == ti[a - from].len() by {
                                    assert(after[a] == before[a]);
                                }
                                assert forall|a: int, m: int| from <= a < from + ti.len() && 0 <= m < ti[a - from].len()
                                    implies (#[trigger] after[a]@[m]) == (Edge {
                                        term: Some(ti[a - from][m]),
                                        to: if a + 1 < from + ti.len() { Some((a + 1) as usize) } else { Some(cur) },
                                    }) by {
                                    assert(after[a] == before[a]);
                                }
                            }
                            assert(after[cur as int]@.len() == idss[i as int].len());
                            assert forall|m: int| 0 <= m < idss[i as int].len() implies (#[trigger] after[from + ti.len()]@[m])
                                == (Edge { term: Some(idss[i as int][m]), to: None }) by {
                                assert(after[cur as int]@[m] == (Edge { term: Some(seq![parts@[i as int]->Match_0@][0][m]), to: None }));
                            }
                            lemma_chain_push(after, from as int, ti, idss[i as int], None);
                            assert(ti.push(idss[i as int]) =~= idss.take(i as int + 1));
                        }
                    }
                    if i == parts.len() - 1 {
                        proof {
                            if chain {
                                assert(idss.take(i as int + 1) =~= idss);
                                assert(after.take(from as int) =~= old(self).nodes@.take(from as int));
                                assert((*expr)->Sequence_0@ == parts@);
                                assert(after.len() == from + parts@.len());
                                assert(chain_at(after, from as int, idss, None));
                                assert(idss.last() == parts@[i as int]->Match_0@);
                                assert(next@ == all_edges(cur as int, parts@[i as int]->Match_0@.len() as int));
                                assert(next@ == all_edges(from + (*expr)->Sequence_0@.len() - 1,
                                    ids_of((*expr)->Sequence_0@).last().len() as int));
                                assert(chain_at(self.nodes@, from as int, ids_of((*expr)->Sequence_0@), None));
                                assert(self.nodes@.take(from as int) == old(self).nodes@.take(from as int));
                            }
                        }
                        return Ok(next);
                    }
                    if self.nodes.len() >= usize::MAX - 1 {
                        return Err(());
                    }
                    let ghost mid = self.nodes@;
                    let n = self.node();
                    proof {
                        lemma_refs_grow(mid, self.nodes@, next@);
                    }
                    let ghost grown = self.nodes@;
                    self.connect(&next, n);
                    proof {
                        if chain {
                            let ns = self.nodes@;
                            let ti = idss.take(i as int);
                            assert forall|a: int| 0 <= a < cur implies #[trigger] ns[a]@ == grown[a]@ by {
                                assert(ns[a]@ =~= grown[a]@) by {
                                    assert(grown[a]@.len() == grown[a].len());
                                    assert(ns[a]@.len() == grown[a]@.len());
                                    assert forall|j: int| 0 <= j < grown[a]@.len() implies ns[a]@[j] == grown[a]@[j] by {
                                        assert(a as usize as int == a);
                                        assert(j as usize as int == j);
                                        assert(!next@.contains((a as usize, j as usize))) by {
                                            if next@.contains((a as usize, j as usize)) {
                                                let w = choose|w: int| 0 <= w < next@.len() && next@[w] == (a as usize, j as usize);
                                                assert(next@[w].0 == cur);
                                            }
                                        }
                                        assert(ns[a as usize as int]@[j as usize as int] == grown[a as usize as int]@[j as usize as int]);
                                    }
                                }
                            }
                            assert(ns.take(from as int) =~= old(self).nodes@.take(from as int)) by {
                                assert forall|a: int| 0 <= a < from implies ns[a] == old(self).nodes@[a] by {
                                    assert forall|q: int| 0 <= q < next@.len() implies (#[trigger] next@[q]).0 != a by {
                                        assert(next@[q].0 == cur);
                                    }
                                    assert(ns[a] == grown[a]);
                                    assert(grown[a] == after[a]);
                                    assert(after.take(from as int)[a] == after[a]);
                                }
                            }
                            assert forall|m: int| 0 <= m < idss[i as int].len() implies (#[trigger] ns[from + ti.len()]@[m])
                                == (Edge { term: Some(idss[i as int][m]), to: Some(n) }) by {
                                assert(grown[cur as int]@.len() == grown[cur as int].len());
                                assert(m as usize as int == m);
                                assert(next@[m] == (cur, m as usize));
                                assert(next@.contains((cur, m as usize)));
                                assert(grown[cur as int]@[m] == after[cur as int]@[m]);
                                assert(ns[cur as usize as int]@[m as usize as int].term == grown[cur as usize as int]@[m as usize as int].term);
                            }
                            assert(chain_at(ns, from as int, ti, Some(cur))) by {
                                assert forall|a: int| from <= a < from + ti.len() implies (#[trigger] ns[a])@.len()
                                    == ti[a - from].len() by {
                                    assert(ns[a]@ == grown[a]@);
                                    assert(grown[a] == after[a]);
                                }
                                assert forall|a: int, m: int| from <= a < from + ti.len() && 0 <= m < ti[a - from].len()
                                    implies (#[trigger] ns[a]@[m]) == (Edge {
                                        term: Some(ti[a - from][m]),
                                        to: if a + 1 < from + ti.len() { Some((a + 1) as usize) } else { Some(cur) },
                                    }) by {
                                    assert(ns[a]@ == grown[a]@);
                                    assert(grown[a] == after[a]);
                                }
                            }
                            lemma_chain_push(ns, from as int, ti, idss[i as int], Some(n));
                            assert(ti.push(idss[i as int]) =~= idss.take(i as int + 1));
                        }
                    }
                    cur = n;
                    last = Vec::new();
                    i = i + 1;
                }
                Ok(last)
            },
            Expr::Star(inner) => {
                let loop_node = self.node();
                let _ = self.edge(from, Some(loop_node), None);
                let body = self.compile(inner, loop_node)?;
                self.connect(&body, loop_node);
                let e = self.edge(loop_node, None, None);
                let mut v = Vec::new();
                v.push(e);
                Ok(v)
            },
            Expr::Plus(inner) => {
                let loop_node = self.node();
                let ghost before = self.nodes@;
                let body = self.compile(inner, from)?;
                self.connect(&body, loop_node);
                let body2 = self.compile(inner, loop_node)?;
                self.connect(&body2, loop_node);
                let e = self.edge(loop_node, None, None);
                let mut v = Vec::new();
                v.push(e);
                Ok(v)
            },
            Expr::Opt(inner) => {
                let e = self.edge(from, None, None);
                let ghost before = self.nodes@;
                let rest = self.compile(inner, from)?;
                let mut out: Vec<(usize, usize)> = Vec::new();
                out.push(e);
                extend_refs(&mut out, &rest);
                proof {
                    assert(before[from as int]@.len() <= self.nodes@[from as int]@.len());
                    assert forall|k: int| 0 <= k < out@.len() implies (#[trigger] out@[k]).0 < self.nodes@.len()
                        && out@[k].1 < self.nodes@[out@[k].0 as int]@.len() by {
                        if k > 0 {
                            assert(out@[k] == rest@[k - 1]);
                        }
                    }
                }
                Ok(out)
            },
            Expr::Match(ids) => {
                let ghost fresh = from + 1 == old(self).nodes@.len() && old(self).nodes@[from as int]@.len() == 0;
                let mut out: Vec<(usize, usize)> = Vec::new();
                let mut i: usize = 0;
                while i < ids.len()
                    invariant
                        self.wf(),
                        self.n_types == old(self).n_types,
                        from < self.nodes@.len(),
                        self.nodes@.len() == old(self).nodes@.len(),
                        forall|a: int| 0 <= a < old(self).nodes@.len() ==> self.nodes@[a]@.len() >= old(self).nodes@[a]@.len(),
                        refs_valid(self.nodes@, out@),
                        i <= ids.len(),
                        !(*expr is Empty),
                        *expr == Expr::Match(*ids),
                        fresh ==> self.nodes@.take(from as int) == old(self).nodes@.take(from as int)
                            && self.nodes@[from as int]@.len() == i
                            && (forall|m: int| 0 <= m < i ==> (#[trigger] self.nodes@[from as int]@[m]) == (Edge {
                                term: Some(ids@[m]),
                                to: None,
                            }))
                            && out@ == all_edges(from as int, i as int),
                    decreases ids.len() - i,
                {
                    if ids[i] >= self.n_types {
                        return Err(());
                    }
                    let ghost before = self.nodes@;
                    let e = self.edge(from, None, Some(ids[i]));
                    proof {
                        lemma_refs_grow(before, self.nodes@, out@);
                    }
                    out.push(e);
                    proof {
                        if fresh {
                            assert(self.nodes@.take(from as int) =~= before.take(from as int));
                            assert(out@ =~= all_edges(from as int, i as int + 1));
                            assert forall|m: int| 0 <= m < i + 1 implies (#[trigger] self.nodes@[from as int]@[m]) == (Edge {
                                term: Some(ids@[m]),
                                to: None,
                            }) by {
                                if m < i {
                                    assert(self.nodes@[from as int]@[m] == before[from as int]@[m]);
                                }
                            }
                        }
                    }
                    i = i + 1;
                }
                proof {
                    if fresh {
                        let ns = self.nodes@;
                        let idss = seq![ids@];
                        assert forall|a: int, m: int| from <= a < from + idss.len() && 0 <= m < idss[a - from].len()
                            implies (#[trigger] ns[a]@[m]) == (Edge {
                                term: Some(idss[a - from][m]),
                                to: if a + 1 < from + idss.len() { Some((a + 1) as usize) } else { None },
                            }) by {
                            assert(a == from);
                        }
                        assert(chain_at(ns, from as int, idss, None));
                    }
                }
                Ok(out)
            },
            Expr::Empty => {
                let e = self.edge(from, None, None);
                let mut v = Vec::new();
                v.push(e);
                Ok(v)
            },
        }
    }
}

fn extend_refs(out: &mut Vec<(usize, usize)>, part: &Vec<(usize, usize)>)
    ensures
        final(out)@ == old(out)@ + part@,
{
    let ghost start = out@;
    let mut k: usize = 0;
    while k < part.len()
        invariant
            k <= part.len(),
            out@ == start + part@.take(k as int),
        decreases part.len() - k,
    {
        out.push(part[k]);
        k = k + 1;
        proof {
            assert(out@ =~= start + part@.take(k as int));
        }
    }
    proof {
        assert(part@.take(part.len() as int) =~= part@);
    }
}

/// Edge references stay valid as the automaton only grows.
proof fn lemma_refs_grow(before: Seq<Vec<Edge>>, after: Seq<Vec<Edge>>, refs: Seq<(usize, usize)>)
    requires
        refs_valid(before, refs),
        after.len() >= before.len(),
        forall|a: int| 0 <= a < before.len() ==> after[a]@.len() >= before[a]@.len(),
    ensures
        refs_valid(after, refs),
{
    assert forall|k: int| 0 <= k < refs.len() implies (#[trigger] refs[k]).0 < after.len()
        && refs[k].1 < after[refs[k].0 as int]@.len() by {
        assert(refs[k].0 < before.len());
    }
}

/// Parse and compile a content expression for node type `in_type`.
///
/// An empty or whitespace-only expression yields a match that is
/// immediately a valid end and accepts nothing.
pub(crate) fn compile_content(in_type: &str, src: &str, resolver: &Resolver) -> (r: Result<ContentMatch, SchemaError>)
    requires
        resolver.wf(),
    ensures
        r matches Ok(cm) ==> cm.wf() && terms_below(cm.automaton().nodes@, resolver.names@.len())
            && cm.state_set() == cm.automaton().closure(set![0int]),
        (exists|i: int| 0 <= i < src@.len() && !is_expr_char(#[trigger] src@[i])) ==> r is Err,
        r matches Err(e) ==> (e is UnknownContentRef || e is BadContentExpression),
        src@.len() == 0 ==> r is Ok,
{
    let toks = match tokenize(src) {
        Ok(t) => t,
        Err(message) => {
            return Err(SchemaError::BadContentExpression { in_type: in_type.to_string(), message });
        },
    };
    content_from_tokens(in_type, toks, resolver)
}

/// The id lists the name tokens `toks` stand for, in the order written.
pub open spec fn names_ids(toks: Seq<Tok>, r: Resolver) -> Seq<Seq<usize>> {
    Seq::new(toks.len(), |j: int| tok_ids(toks, r, j))
}

/// Whether `nfa` is a straight chain from node 0 to its accepting node
/// `idss.len()`, step `j` taking one child of any type in `idss[j]`.
pub open spec fn is_chain_nfa(nfa: Nfa, idss: Seq<Seq<usize>>) -> bool {
    &&& nfa.nodes@.len() == idss.len() + 1
    &&& nfa.accept == idss.len()
    &&& chain_at(nfa.nodes@, 0, idss, Some(nfa.accept))
    &&& nfa.nodes@[idss.len() as int]@.len() == 0
}

/// Whether the child types `ts`, taken from chain node `a` on, each fit
/// their step.
pub open spec fn steps_fit(idss: Seq<Seq<usize>>, a: int, ts: Seq<usize>) -> bool {
    &&& a + ts.len() <= idss.len()
    &&& forall|j: int| 0 <= j < ts.len() ==> idss[a + j].contains(#[trigger] ts[j])
}

/// A chain has no epsilon edges, so every set is its own closure.
proof fn lemma_chain_closure(nfa: Nfa, idss: Seq<Seq<usize>>, s: Set<int>)
    requires
        is_chain_nfa(nfa, idss),
    ensures
        nfa.closure(s) == s,
{
    let k = idss.len() as int;
    assert forall|y: int, x: int| !#[trigger] nfa.eps_edge(y, x) by {
        if nfa.eps_edge(y, x) {
            let i = choose|i: int| 0 <= i < nfa.nodes@[y]@.len() && (#[trigger] nfa.nodes@[y]@[i]).term is None
                && nfa.nodes@[y]@[i].to is Some && nfa.nodes@[y]@[i].to->0 as int == x;
            if y < k {
                assert(nfa.nodes@[y]@[i].term == Some(idss[y - 0][i]));
            }
        }
    }
    assert forall|x: int| nfa.closure(s).contains(x) <==> s.contains(x) by {
        if s.contains(x) {
            let p = seq![x];
            assert(nfa.eps_path(p));
            assert(nfa.reachable(s, x));
        }
        if nfa.reachable(s, x) {
            let p = choose|p: Seq<int>| #[trigger] nfa.eps_path(p) && s.contains(p[0]) && p.last() == x;
            if p.len() >= 2 {
                assert(nfa.eps_edge(p[0], p[0int + 1]));
            }
        }
    }
    assert(nfa.closure(s) =~= s);
}

/// From chain node `a`, a child of type `t` leads to the next node when the
/// step takes `t`, and nowhere otherwise.
proof fn lemma_chain_targets(nfa: Nfa, idss: Seq<Seq<usize>>, a: int, t: usize)
    requires
        is_chain_nfa(nfa, idss),
        0 <= a <= idss.len(),
    ensures
        nfa.targets(set![a], t) == (if a < idss.len() && idss[a].contains(t) { set![a + 1] } else { Set::<int>::empty() }),
{
    let k = idss.len() as int;
    let want = if a < k && idss[a].contains(t) { set![a + 1] } else { Set::<int>::empty() };
    assert forall|x: int| nfa.targets(set![a], t).contains(x) <==> want.contains(x) by {
        if nfa.targets(set![a], t).contains(x) {
            let y = choose|y: int| set![a].contains(y) && #[trigger] nfa.term_edge(y, t, x);
            assert(y == a);
            let i = choose|i: int| 0 <= i < nfa.nodes@[y]@.len() && (#[trigger] nfa.nodes@[y]@[i]).term == Some(t)
                && nfa.nodes@[y]@[i].to is Some && nfa.nodes@[y]@[i].to->0 as int == x;
            assert(a < k);
            assert(nfa.nodes@[a]@[i] == (Edge {
                term: Some(idss[a - 0][i]),
                to: if a + 1 < 0 + k { Some((a + 1) as usize) } else { Some(nfa.accept) },
            }));
            assert(idss[a][i] == t);
            assert(x == a + 1);
        }
        if want.contains(x) {
            let i = choose|i: int| 0 <= i < idss[a].len() && idss[a][i] == t;
            assert(nfa.nodes@[a]@[i] == (Edge {
                term: Some(idss[a - 0][i]),
                to: if a + 1 < 0 + k { Some((a + 1) as usize) } else { Some(nfa.accept) },
            }));
            assert(nfa.term_edge(a, t, x));
            assert(set![a].contains(a));
        }
    }
    assert(nfa.targets(set![a], t) =~= want);
}

/// Running child types through a chain from node `a` ends at one node,
/// `ts.len()` further on, when every child fits its step, and nowhere
/// otherwise.
proof fn lemma_chain_run(nfa: Nfa, idss: Seq<Seq<usize>>, a: int, ts: Seq<usize>)
    requires
        is_chain_nfa(nfa, idss),
        0 <= a <= idss.len(),
    ensures
        run_types(nfa, set![a], ts) == (if steps_fit(idss, a, ts) { set![a + ts.len()] } else { Set::<int>::empty() }),
    decreases ts.len(),
{
    let k = idss.len() as int;
    if ts.len() > 0 {
        let rest = ts.drop_first();
        lemma_chain_targets(nfa, idss, a, ts[0]);
        let tg = nfa.targets(set![a], ts[0]);
        lemma_chain_closure(nfa, idss, tg);
        if a < k && idss[a].contains(ts[0]) {
            lemma_chain_run(nfa, idss, a + 1, rest);
            assert(steps_fit(idss, a, ts) == steps_fit(idss, a + 1, rest)) by {
                if steps_fit(idss, a + 1, rest) {
                    assert forall|j: int| 0 <= j < ts.len() implies idss[a + j].contains(#[trigger] ts[j]) by {
                        if j > 0 {
                            assert(rest[j - 1] == ts[j]);
                            assert(idss[a + 1 + (j - 1)].contains(rest[j - 1]));
                        }
                    }
                }
                if steps_fit(idss, a, ts) {
                    assert forall|j: int| 0 <= j < rest.len() implies idss[a + 1 + j].contains(#[trigger] rest[j]) by {
                        assert(rest[j] == ts[j + 1]);
                        assert(idss[a + (j + 1)].contains(ts[j + 1]));
                    }
                }
            }
        } else {
            lemma_run_types_empty(nfa, rest);
            if steps_fit(idss, a, ts) {
                assert(idss[a + 0].contains(ts[0]));
            }
        }
    }
}

/// Compile a token list into the content automaton for node type
/// `in_type`.
///
/// For a run of names the automaton accepts exactly the children that
/// are, one for one and in the order written, of those names' types.
pub fn content_from_tokens(in_type: &str, toks: Vec<Tok>, resolver: &Resolver) -> (r: Result<ContentMatch, SchemaError>)
    requires
        resolver.wf(),
    ensures
        r matches Ok(cm) ==> cm.wf() && terms_below(cm.automaton().nodes@, resolver.names@.len())
            && cm.state_set() == cm.automaton().closure(set![0int]),
        r matches Err(e) ==> (e is UnknownContentRef || e is BadContentExpression),
        toks@.len() == 0 ==> r is Ok,
        (names_from(toks@, *resolver, 0) && toks@.len() > 0) ==> (r matches Ok(cm) ==> forall|s: Seq<usize>|
            #[trigger] run_types(cm.automaton(), cm.state_set(), s).contains(cm.automaton().accept as int)
                <==> names_lang(toks@, *resolver, s)),
{
    let ghost tseq = toks@;
    let ghost names = names_from(toks@, *resolver, 0) && toks@.len() > 0;
    let ghost idss = names_ids(toks@, *resolver);
    let ghost k = toks@.len() as int;
    let expr = match parse_tokens(toks, resolver) {
        Ok(e) => e,
        Err((bad_ref, message)) => {
            return match bad_ref {
                Some(reference) => Err(SchemaError::UnknownContentRef { in_type: in_type.to_string(), reference }),
                None => Err(SchemaError::BadContentExpression { in_type: in_type.to_string(), message }),
            };
        },
    };
    let mut first: Vec<Vec<Edge>> = Vec::new();
    first.push(Vec::new());
    let mut b = Builder { nodes: first, n_types: resolver.names.len() };
    proof {
        if names && k >= 2 {
            let parts = expr->Sequence_0@;
            assert(all_match(parts)) by {
                assert forall|j: int| 0 <= j < parts.len() implies (#[trigger] parts[j]) is Match by {
                    assert(is_match_of(parts[j], tok_ids(tseq, *resolver, 0 + j)));
                }
            }
            assert(ids_of(parts) =~= idss) by {
                assert forall|j: int| 0 <= j < k implies #[trigger] ids_of(parts)[j] == idss[j] by {
                    assert(is_match_of(parts[j], tok_ids(tseq, *resolver, 0 + j)));
                }
            }
        }
        if names && k == 1 {
            assert(seq![expr->Match_0@] =~= idss);
        }
    }
    let dangling = match b.compile(&expr, 0) {
        Ok(d) => d,
        Err(_) => {
            return Err(SchemaError::BadContentExpression {
                in_type: in_type.to_string(),
                message: "expression too large".to_string(),
            });
        },
    };
    proof {
        if names {
            assert(b.nodes@.len() == k);
            assert(chain_at(b.nodes@, 0, idss, None));
            assert(dangling@ == all_edges(k - 1, idss[k - 1].len() as int));
        }
    }
    if b.nodes.len() >= usize::MAX - 1 {
        return Err(SchemaError::BadContentExpression {
            in_type: in_type.to_string(),
            message: "expression too large".to_string(),
        });
    }
    let ghost mid = b.nodes@;
    let accept = b.node();
    proof {
        lemma_refs_grow(mid, b.nodes@, dangling@);
    }
    let ghost grown = b.nodes@;
    b.connect(&dangling, accept);
    let nfa = Nfa { nodes: b.nodes, accept };
    proof {
        if names {
            let ns = nfa.nodes@;
            assert(accept == k);
            assert forall|a: int| 0 <= a <= k && a != k - 1 implies #[trigger] ns[a] == grown[a] by {
                assert forall|q: int| 0 <= q < dangling@.len() implies (#[trigger] dangling@[q]).0 != a by {
                    assert(dangling@[q].0 == k - 1);
                }
            }
            assert(ns[k]@.len() == 0);
            assert(grown[k - 1]@.len() == grown[k - 1].len());
            assert forall|m: int| 0 <= m < idss[k - 1].len() implies (#[trigger] ns[k - 1]@[m])
                == (Edge { term: Some(idss[k - 1][m]), to: Some(accept) }) by {
                assert(m as usize as int == m);
                assert(dangling@[m] == ((k - 1) as usize, m as usize));
                assert(dangling@.contains(((k - 1) as usize, m as usize)));
                assert(grown[k - 1] == mid[k - 1]);
                assert(mid[k - 1]@[m] == (Edge {
                    term: Some(idss[(k - 1) - 0][m]),
                    to: if (k - 1) + 1 < 0 + k { Some(((k - 1) + 1) as usize) } else { None },
                }));
                assert(ns[(k - 1) as usize as int]@[m as usize as int].term == grown[(k - 1) as usize as int]@[m as usize as int].term);
            }
            assert(chain_at(ns, 0, idss, Some(accept))) by {
                assert forall|a: int| 0 <= a < 0 + idss.len() implies (#[trigger] ns[a])@.len() == idss[a - 0].len() by {
                    if a != k - 1 {
                        assert(grown[a] == mid[a]);
                    }
                }
                assert forall|a: int, m: int| 0 <= a < 0 + idss.len() && 0 <= m < idss[a - 0].len()
                    implies (#[trigger] ns[a]@[m]) == (Edge {
                        term: Some(idss[a - 0][m]),
                        to: if a + 1 < 0 + idss.len() { Some((a + 1) as usize) } else { Some(accept) },
                    }) by {
                    if a != k - 1 {
                        assert(grown[a] == mid[a]);
                    }
                }
            }
            assert(is_chain_nfa(nfa, idss));
        }
    }
    let mut seeds = Vec::new();
    seeds.push(0usize);
    let states = eps_closure(&nfa, &seeds);
    proof {
        assert(seeds@[0] == 0usize);
        assert(as_set(seeds@).contains(0int));
        assert(as_set(seeds@) =~= set![0int]);
        if names {
            lemma_chain_closure(nfa, idss, set![0int]);
            assert forall|s: Seq<usize>| #[trigger] run_types(nfa, as_set(states@), s).contains(nfa.accept as int)
                <==> names_lang(tseq, *resolver, s) by {
                lemma_chain_run(nfa, idss, 0, s);
                if steps_fit(idss, 0, s) && s.len() == k {
                    assert forall|j: int| 0 <= j < s.len() implies #[trigger] tok_ids(tseq, *resolver, j).contains(s[j]) by {
                        assert(idss[0 + j].contains(s[j]));
                    }
                }
                if names_lang(tseq, *resolver, s) {
                    assert forall|j: int| 0 <= j < s.len() implies idss[0 + j].contains(#[trigger] s[j]) by {
                        assert(tok_ids(tseq, *resolver, j).contains(s[j]));
                    }
                }
            }
        }
    }
    Ok(ContentMatch { nfa: Arc::new(nfa), states })
}

/// A content expression written as a run of names, once compiled, accepts
/// exactly the children that are, one for one and in the order written, of
/// those names' types: the language of `a b` is that of `a` followed by
/// that of `b`, so `heading paragraph` accepts a heading then a paragraph
/// and refuses them the other way round.
pub proof fn law_compiled_names_accept_in_written_order(
    in_type: &str,
    toks: Vec<Tok>,
    resolver: Resolver,
    cm: ContentMatch,
    types: &[usize],
    valid: bool,
)
    requires
        call_ensures(content_from_tokens, (in_type, toks, &resolver), Ok::<ContentMatch, SchemaError>(cm)),
        call_ensures(ContentMatch::matches_complete, (&cm, types), valid),
        resolver.wf(),
        names_from(toks@, resolver, 0),
        toks@.len() > 0,
    ensures
        valid == names_lang(toks@, resolver, types@),
{
    assert(run_types(cm.automaton(), cm.state_set(), types@).contains(cm.automaton().accept as int)
        <==> names_lang(toks@, resolver, types@));
}

} // verus!
