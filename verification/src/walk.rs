//! Walking a graph with the way back remembered.
use std::collections::HashMap;

use vstd::prelude::*;

use crate::store::{holds_id, lemma_push_contains};

verus! {

broadcast use vstd::std_specs::hash::group_hash_axioms;

/// A finite graph whose edges may carry a label.
pub trait Graph {
    /// There is an edge with the label from the one node to the other.
    spec fn links(&self, a: u64, b: u64, label: Option<u64>) -> bool;

    /// All nodes that an edge leads to.
    spec fn ends(&self) -> Set<u64>;

    /// What the graph needs to be walked.
    spec fn sound(&self) -> bool;

    proof fn lemma_ends(&self)
        requires
            self.sound(),
        ensures
            self.ends().finite(),
            forall|a: u64, b: u64, label: Option<u64>| #[trigger] self.links(a, b, label) ==> self.ends().contains(b),
    ;

    /// The edges out of the node.
    fn next(&self, a: u64) -> (r: Vec<(u64, Option<u64>)>)
        requires
            self.sound(),
        ensures
            forall|i: int| 0 <= i < r@.len() ==> self.links(a, (#[trigger] r@[i]).0, r@[i].1),
            forall|b: u64, label: Option<u64>| #[trigger]
                self.links(a, b, label) ==> exists|i: int| 0 <= i < r@.len() && (#[trigger] r@[i]).0 == b,
    ;
}

/// Some edge leads from the one node to the other.
pub open spec fn linked<G: Graph>(g: &G, a: u64, b: u64) -> bool {
    exists|label: Option<u64>| #[trigger] g.links(a, b, label)
}

/// Each node of the path has an edge to the next.
pub open spec fn is_path<G: Graph>(g: &G, p: Seq<u64>) -> bool {
    p.len() > 0 && forall|i: int, j: int| 0 <= i < p.len() && j == i + 1 && j < p.len() ==> linked(
        g,
        #[trigger] p[i],
        #[trigger] p[j],
    )
}

/// The path leads from the one node to the other.
pub open spec fn path_between<G: Graph>(g: &G, a: u64, b: u64, p: Seq<u64>) -> bool {
    is_path(g, p) && p[0] == a && p.last() == b
}

/// Some path leads from the one node to the other.
pub open spec fn reachable<G: Graph>(g: &G, a: u64, b: u64) -> bool {
    exists|p: Seq<u64>| path_between(g, a, b, p)
}

/// The nodes reached from a start, and for each the edge it was reached by.
pub struct Walk {
    order: Vec<u64>,
    hops: HashMap<u64, (u64, Option<u64>)>,
}

impl Walk {
    /// The nodes in the order they were reached.
    pub closed spec fn nodes(&self) -> Seq<u64> {
        self.order@
    }

    /// The edges the nodes were reached by: where from, and the label.
    pub closed spec fn back(&self) -> Map<u64, (u64, Option<u64>)> {
        self.hops@
    }

    /// What a walk over the graph from the start gives: every node in reach,
    /// once, and behind each but the start an edge from an earlier node.
    pub open spec fn covers<G: Graph>(&self, g: &G, start: u64) -> bool {
        &&& self.nodes().len() > 0
        &&& self.nodes()[0] == start
        &&& self.nodes().no_duplicates()
        &&& forall|b: u64| #[trigger] self.nodes().contains(b) <==> reachable(g, start, b)
        &&& self.back().dom() == self.nodes().to_set().remove(start)
        &&& forall|i: int| 1 <= i < self.nodes().len() ==> self.hop_fits(g, #[trigger] self.nodes()[i], i)
    }

    /// The node was reached over an edge from a node before the place.
    pub open spec fn hop_fits<G: Graph>(&self, g: &G, b: u64, i: int) -> bool {
        self.back().dom().contains(b) && g.links(self.back()[b].0, b, self.back()[b].1) && exists|j: int|
            0 <= j < i && #[trigger] self.nodes()[j] == self.back()[b].0
    }

    /// What is reached from the start but the start itself: every node in
    /// reach, once, and behind each an edge from the start or an earlier node.
    pub open spec fn covers_beyond<G: Graph>(&self, g: &G, start: u64) -> bool {
        &&& self.nodes().no_duplicates()
        &&& forall|b: u64| #[trigger] self.nodes().contains(b) <==> b != start && reachable(g, start, b)
        &&& self.back().dom() == self.nodes().to_set()
        &&& forall|i: int| 0 <= i < self.nodes().len() ==> self.step_fits(g, start, #[trigger] self.nodes()[i], i)
    }

    /// The node was reached over an edge from the start or from a node before
    /// the place.
    pub open spec fn step_fits<G: Graph>(&self, g: &G, start: u64, b: u64, i: int) -> bool {
        self.back().dom().contains(b) && g.links(self.back()[b].0, b, self.back()[b].1) && (self.back()[b].0 == start
            || exists|j: int| 0 <= j < i && #[trigger] self.nodes()[j] == self.back()[b].0)
    }

    /// How many nodes were reached.
    pub fn len(&self) -> (n: usize)
        ensures
            n == self.nodes().len(),
    {
        self.order.len()
    }

    /// The node at the place.
    pub fn node(&self, i: usize) -> (b: u64)
        requires
            i < self.nodes().len(),
        ensures
            b == self.nodes()[i as int],
    {
        self.order[i]
    }

    /// The node was reached.
    pub fn contains_key(&self, b: u64) -> (r: bool)
        ensures
            r == self.nodes().contains(b),
    {
        holds_id(&self.order, b)
    }

    /// The edge that the node was reached by: nothing for the start and for
    /// what was not reached.
    pub fn hop(&self, b: u64) -> (r: Option<(u64, Option<u64>)>)
        ensures
            r == (if self.back().dom().contains(b) {
                Some(self.back()[b])
            } else {
                None
            }),
    {
        match self.hops.get(&b) {
            Some(h) => Some(*h),
            None => None,
        }
    }
}

proof fn lemma_closed_path<G: Graph>(g: &G, seen: Seq<u64>, p: Seq<u64>, k: int)
    requires
        is_path(g, p),
        seen.contains(p[0]),
        forall|a: u64, b: u64| #[trigger] linked(g, a, b) && seen.contains(a) ==> seen.contains(b),
        0 <= k < p.len(),
    ensures
        seen.contains(p[k]),
    decreases k,
{
    if k > 0 {
        lemma_closed_path(g, seen, p, k - 1);
        assert(linked(g, p[k - 1], p[k]));
    }
}

proof fn lemma_path_step<G: Graph>(g: &G, a: u64, b: u64, c: u64)
    requires
        reachable(g, a, b),
        linked(g, b, c),
    ensures
        reachable(g, a, c),
{
    let p = choose|p: Seq<u64>| path_between(g, a, b, p);
    let q = p.push(c);
    assert forall|i: int, j: int| 0 <= i < q.len() && j == i + 1 && j < q.len() implies linked(
        g,
        #[trigger] q[i],
        #[trigger] q[j],
    ) by {
        if j < p.len() {
            assert(p[i] == q[i] && p[j] == q[j]);
        } else {
            assert(q[i] == p.last());
        }
    }
    assert(path_between(g, a, c, q));
}

proof fn lemma_within(s: Seq<u64>, all: Set<u64>)
    requires
        all.finite(),
        s.no_duplicates(),
        forall|k: int| 0 <= k < s.len() ==> all.contains(#[trigger] s[k]),
    ensures
        s.len() <= all.len(),
{
    s.unique_seq_to_set();
    assert forall|x: u64| s.to_set().contains(x) implies all.contains(x) by {
        let k = choose|k: int| 0 <= k < s.len() && s[k] == x;
        assert(all.contains(s[k]));
    }
    vstd::set_lib::lemma_len_subset(s.to_set(), all);
}

/// A hop that fits goes on fitting when nodes are added.
proof fn lemma_hop_kept<G: Graph>(g: &G, before: Walk, after: Walk, b: u64, i: int)
    requires
        before.hop_fits(g, b, i),
        i <= before.nodes().len() <= after.nodes().len(),
        after.nodes().take(before.nodes().len() as int) == before.nodes(),
        after.back().dom().contains(b),
        after.back()[b] == before.back()[b],
    ensures
        after.hop_fits(g, b, i),
{
    let j = choose|j: int| 0 <= j < i && #[trigger] before.nodes()[j] == before.back()[b].0;
    assert(after.nodes().take(before.nodes().len() as int)[j] == after.nodes()[j]);
}

/// The one node was reached from the other.
pub open spec fn came_from(w: Walk, b: u64, a: u64) -> bool {
    w.back().dom().contains(b) && w.back()[b].0 == a
}

/// Each node of the path was reached from the one before it.
pub open spec fn retraces(w: Walk, p: Seq<u64>) -> bool {
    forall|i: int, j: int|
        0 <= i < p.len() && j == i + 1 && j < p.len() ==> came_from(w, #[trigger] p[j], #[trigger] p[i])
}

proof fn lemma_retrace_step<G: Graph>(g: &G, w: Walk, start: u64, b: u64, q: Seq<u64>) -> (p: Seq<u64>)
    requires
        w.back().dom().contains(b),
        g.links(w.back()[b].0, b, w.back()[b].1),
        path_between(g, start, w.back()[b].0, q),
        retraces(w, q),
    ensures
        path_between(g, start, b, p),
        retraces(w, p),
{
    let p = q.push(b);
    assert forall|k: int, l: int| 0 <= k < p.len() && l == k + 1 && l < p.len() implies linked(
        g,
        #[trigger] p[k],
        #[trigger] p[l],
    ) by {
        if l < q.len() {
            assert(p[k] == q[k] && p[l] == q[l]);
        } else {
            assert(p[k] == q.last() && p[l] == b);
            assert(g.links(w.back()[b].0, b, w.back()[b].1));
        }
    }
    assert(p[0] == q[0]);
    assert forall|k: int, l: int| 0 <= k < p.len() && l == k + 1 && l < p.len() implies came_from(
        w,
        #[trigger] p[l],
        #[trigger] p[k],
    ) by {
        if l < q.len() {
            assert(p[k] == q[k] && p[l] == q[l]);
            assert(came_from(w, q[l], q[k]));
        } else {
            assert(p[k] == q.last() && p[l] == b);
        }
    }
    p
}

/// The same of a walk without its start: to follow the remembered edges back
/// from any node leads to the start.
pub proof fn law_way_back_leads_out<G: Graph>(g: &G, w: Walk, start: u64, i: int)
    requires
        w.covers_beyond(g, start),
        0 <= i < w.nodes().len(),
    ensures
        exists|p: Seq<u64>| path_between(g, start, w.nodes()[i], p) && #[trigger] retraces(w, p),
    decreases i,
{
    let b = w.nodes()[i];
    assert(w.step_fits(g, start, b, i));
    if w.back()[b].0 == start {
        let q = seq![start];
        assert(path_between(g, start, start, q));
        let p = lemma_retrace_step(g, w, start, b, q);
        assert(retraces(w, p));
    } else {
        let j = choose|j: int| 0 <= j < i && #[trigger] w.nodes()[j] == w.back()[b].0;
        law_way_back_leads_out(g, w, start, j);
        let q = choose|q: Seq<u64>| path_between(g, start, w.nodes()[j], q) && #[trigger] retraces(w, q);
        let p = lemma_retrace_step(g, w, start, b, q);
        assert(retraces(w, p));
    }
}

/// The remembered edges are a witness: to follow them back from any node that
/// was reached leads to the start, over edges of the graph.
pub proof fn law_way_back_leads_to_start<G: Graph>(g: &G, w: Walk, start: u64, i: int)
    requires
        w.covers(g, start),
        0 <= i < w.nodes().len(),
    ensures
        exists|p: Seq<u64>| path_between(g, start, w.nodes()[i], p) && #[trigger] retraces(w, p),
    decreases i,
{
    let b = w.nodes()[i];
    if i == 0 {
        let p = seq![start];
        assert(path_between(g, start, b, p));
        assert(retraces(w, p));
    } else {
        assert(w.hop_fits(g, b, i));
        let j = choose|j: int| 0 <= j < i && #[trigger] w.nodes()[j] == w.back()[b].0;
        law_way_back_leads_to_start(g, w, start, j);
        let q = choose|q: Seq<u64>| path_between(g, start, w.nodes()[j], q) && #[trigger] retraces(w, q);
        let p = lemma_retrace_step(g, w, start, b, q);
        assert(retraces(w, p));
    }
}

/// The nodes in reach of the start, each with the edge it was reached by.
pub fn walk<G: Graph>(g: &G, start: u64) -> (w: Walk)
    requires
        g.sound(),
    ensures
        w.covers(g, start),
{
    let ghost all = g.ends().insert(start);
    let mut w = Walk { order: Vec::new(), hops: HashMap::new() };
    w.order.push(start);
    proof {
        g.lemma_ends();
        assert(path_between(g, start, start, seq![start]));
        assert(w.order@[0] == start);
        lemma_within(w.order@, all);
        assert(w.order@.to_set().remove(start) =~= Set::empty());
        assert(w.hops@.dom() =~= Set::empty());
    }
    let mut i: usize = 0;
    while i < w.order.len()
        invariant
            g.sound(),
            all == g.ends().insert(start),
            all.finite(),
            0 < w.order@.len(),
            i <= w.order@.len() <= all.len(),
            w.order@[0] == start,
            w.order@.no_duplicates(),
            w.hops@.dom() == w.order@.to_set().remove(start),
            forall|k: int| 0 <= k < w.order@.len() ==> all.contains(#[trigger] w.order@[k]) && reachable(
                g,
                start,
                w.order@[k],
            ),
            forall|k: int| 1 <= k < w.order@.len() ==> w.hop_fits(g, #[trigger] w.order@[k], k),
            forall|a: u64, b: u64| #[trigger] linked(g, a, b) && w.order@.take(i as int).contains(a)
                ==> w.order@.contains(b),
        decreases all.len() - i,
    {
        let at = w.order[i];
        let next = g.next(at);
        let ghost before = w.order@;
        let mut k: usize = 0;
        while k < next.len()
            invariant
                g.sound(),
                all == g.ends().insert(start),
                all.finite(),
                0 < w.order@.len(),
                i < before.len() <= w.order@.len() <= all.len(),
                before == w.order@.take(before.len() as int),
                at == before[i as int],
                w.order@[0] == start,
                w.order@.no_duplicates(),
                w.hops@.dom() == w.order@.to_set().remove(start),
                k <= next@.len(),
                reachable(g, start, at),
                forall|j: int| 0 <= j < next@.len() ==> g.links(at, (#[trigger] next@[j]).0, next@[j].1),
                forall|j: int| 0 <= j < w.order@.len() ==> all.contains(#[trigger] w.order@[j]) && reachable(
                    g,
                    start,
                    w.order@[j],
                ),
                forall|j: int| 1 <= j < w.order@.len() ==> w.hop_fits(g, #[trigger] w.order@[j], j),
                forall|j: int| 0 <= j < k ==> w.order@.contains((#[trigger] next@[j]).0),
            decreases next@.len() - k,
        {
            let (b, label) = next[k];
            let ghost now = w;
            if !holds_id(&w.order, b) {
                proof {
                    g.lemma_ends();
                    assert(g.links(at, next@[k as int].0, next@[k as int].1));
                    assert(linked(g, at, b));
                    lemma_path_step(g, start, at, b);
                    lemma_push_contains(w.order@, b);
                }
                w.order.push(b);
                w.hops.insert(b, (at, label));
                proof {
                    assert(w.order@.take(before.len() as int) =~= now.order@.take(before.len() as int));
                    assert(w.nodes().take(now.nodes().len() as int) =~= now.nodes());
                    assert(w.order@.to_set() =~= now.order@.to_set().insert(b)) by {
                        crate::store::lemma_push_set(now.order@, b);
                    }
                    assert(b != start) by {
                        assert(now.order@.contains(start)) by {
                            assert(now.order@[0] == start);
                        }
                    }
                    assert(w.hops@.dom() =~= w.order@.to_set().remove(start));
                    assert forall|j: int| 0 <= j < w.order@.len() implies all.contains(#[trigger] w.order@[j])
                        && reachable(g, start, w.order@[j]) by {
                        if j < now.order@.len() {
                            assert(w.order@[j] == now.order@[j]);
                        }
                    }
                    assert forall|j: int| 1 <= j < w.order@.len() implies w.hop_fits(g, #[trigger] w.order@[j], j) by {
                        if j < now.order@.len() {
                            assert(w.order@[j] == now.order@[j]);
                            let x = now.order@[j];
                            assert(now.hop_fits(g, now.order@[j], j));
                            assert(x != b) by {
                                assert(now.order@.contains(x));
                            }
                            lemma_hop_kept(g, now, w, x, j);
                        } else {
                            assert(w.nodes()[i as int] == at) by {
                                assert(before[i as int] == w.order@.take(before.len() as int)[i as int]);
                            }
                        }
                    }
                    lemma_within(w.order@, all);
                    assert forall|j: int| 0 <= j < k + 1 implies w.order@.contains((#[trigger] next@[j]).0) by {
                        if j < k {
                            assert(now.order@.contains(next@[j].0));
                        }
                    }
                }
            }
            k += 1;
        }
        assert forall|a: u64, b: u64| #[trigger] linked(g, a, b) && w.order@.take(i + 1).contains(a) implies w.order@.contains(
            b,
        ) by {
            let part = w.order@.take(i + 1);
            let j = choose|j: int| 0 <= j < part.len() && part[j] == a;
            assert(before[j] == w.order@.take(before.len() as int)[j]);
            if j < i {
                assert(before.take(i as int)[j] == a);
                assert(before.take(i as int).contains(a));
                assert(before.contains(b));
                let m = choose|m: int| 0 <= m < before.len() && before[m] == b;
                assert(w.order@[m] == w.order@.take(before.len() as int)[m]);
            } else {
                let label = choose|label: Option<u64>| #[trigger] g.links(a, b, label);
                let m = choose|m: int| 0 <= m < next@.len() && (#[trigger] next@[m]).0 == b;
                assert(w.order@.contains(next@[m].0));
            }
        }
        i += 1;
    }
    assert(w.order@.take(i as int) =~= w.order@);
    assert forall|b: u64| #[trigger] w.order@.contains(b) <==> reachable(g, start, b) by {
        if reachable(g, start, b) {
            let p = choose|p: Seq<u64>| path_between(g, start, b, p);
            assert(w.order@.contains(p[0])) by {
                assert(w.order@[0] == start);
            }
            lemma_closed_path(g, w.order@, p, p.len() - 1);
        }
        if w.order@.contains(b) {
            let k = choose|k: int| 0 <= k < w.order@.len() && w.order@[k] == b;
            assert(all.contains(w.order@[k]));
        }
    }
    w
}

/// The nodes in reach of the start but the start itself, each with the edge it
/// was reached by.
pub fn walk_beyond<G: Graph>(g: &G, start: u64) -> (w: Walk)
    requires
        g.sound(),
    ensures
        w.covers_beyond(g, start),
{
    let mut w: Walk = walk(g, start);
    let ghost whole = w;
    let first: u64 = w.order.remove(0);
    proof {
        let (s, t) = (whole.nodes(), w.nodes());
        assert(first == start);
        assert(t =~= s.drop_first());
        assert forall|b: u64| #[trigger] t.contains(b) <==> b != start && reachable(g, start, b) by {
            assert(s.contains(b) <==> reachable(g, start, b));
            if t.contains(b) {
                let k = choose|k: int| 0 <= k < t.len() && t[k] == b;
                assert(s[k + 1] == b);
            }
            if b != start && s.contains(b) {
                let k = choose|k: int| 0 <= k < s.len() && s[k] == b;
                assert(t[k - 1] == b);
            }
        }
        assert(t.to_set() =~= s.to_set().remove(start)) by {
            assert forall|b: u64| t.to_set().contains(b) <==> s.to_set().remove(start).contains(b) by {
                assert(t.contains(b) <==> b != start && reachable(g, start, b));
                assert(s.contains(b) <==> reachable(g, start, b));
            }
        }
        assert forall|i: int| 0 <= i < t.len() implies w.step_fits(g, start, #[trigger] t[i], i) by {
            let b = s[i + 1];
            assert(whole.hop_fits(g, b, i + 1));
            let j = choose|j: int| 0 <= j < i + 1 && #[trigger] s[j] == whole.back()[b].0;
            if j > 0 {
                assert(t[j - 1] == s[j]);
            }
        }
    }
    w
}

} // verus!
