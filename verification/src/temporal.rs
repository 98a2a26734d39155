//! Point-constraint networks over time-interval endpoints.
//!
//! Every interval contributes a `Begin` and an `End` point; interval relations
//! become `<`, `<=` and `=` constraints between points.  The network closes
//! the constraints under transitivity and answers order queries.
use vstd::prelude::*;

use crate::order::{increasing, lemma_distinct_below, sort_dedup};
use crate::types::{name_id, SentenceId, Symbol, SymbolId};

verus! {

/// A time point: a bare point, or one of the two ends of an interval.
#[derive(Clone, Copy, PartialEq, Eq, Structural, Debug, Hash)]
pub enum PointKey {
    Point(SymbolId),
    Begin(SymbolId),
    End(SymbolId),
}

/// An order between two points.
#[derive(Clone, Copy, PartialEq, Eq, Structural, Debug)]
pub enum Order {
    /// strictly before
    Lt,
    /// before or equal
    Le,
    /// equal
    Eq,
}

/// One stated constraint `a rel b`, with the sentence it came from.
pub struct Constraint {
    pub a: PointKey,
    pub b: PointKey,
    pub rel: Order,
    pub sid: Option<SentenceId>,
}

/// One step that a constraint licenses: from a point to one not before it.
pub struct Hop {
    pub from: PointKey,
    pub to: PointKey,
    pub strict: bool,
    pub sid: Option<SentenceId>,
}

/// Whether constraint `c` licenses the step `h`.  An equality licenses a
/// non-strict step both ways.
pub open spec fn gives(c: Constraint, h: Hop) -> bool {
    &&& h.sid == c.sid
    &&& match c.rel {
        Order::Lt => h.from == c.a && h.to == c.b && h.strict,
        Order::Le => h.from == c.a && h.to == c.b && !h.strict,
        Order::Eq => !h.strict && ((h.from == c.a && h.to == c.b) || (h.from == c.b && h.to
            == c.a)),
    }
}

/// The steps that the constraints license.
pub open spec fn hops(cs: Seq<Constraint>) -> Set<Hop> {
    Set::new(|h: Hop| exists|i: int| 0 <= i < cs.len() && gives(#[trigger] cs[i], h))
}

/// The steps that the equality constraints alone license.
pub open spec fn eq_hops(cs: Seq<Constraint>) -> Set<Hop> {
    Set::new(
        |h: Hop|
            exists|i: int|
                0 <= i < cs.len() && (#[trigger] cs[i]).rel == Order::Eq && gives(cs[i], h),
    )
}

/// `p` is a path of steps in `hs` leading from `a` to `b`.
pub open spec fn is_path(hs: Set<Hop>, p: Seq<Hop>, a: PointKey, b: PointKey) -> bool
    decreases p.len(),
{
    if p.len() == 0 {
        a == b
    } else {
        hs.contains(p.last()) && p.last().to == b && is_path(hs, p.drop_last(), a, p.last().from)
    }
}

/// The path crosses at least one strict step.
pub open spec fn crosses(p: Seq<Hop>) -> bool
    decreases p.len(),
{
    p.len() > 0 && (p.last().strict || crosses(p.drop_last()))
}

/// The sentences cited along a path, last step first.
pub open spec fn cited(p: Seq<Hop>) -> Seq<SentenceId>
    decreases p.len(),
{
    if p.len() == 0 {
        Seq::empty()
    } else {
        match p.last().sid {
            Some(s) => seq![s] + cited(p.drop_last()),
            None => cited(p.drop_last()),
        }
    }
}

/// `b` can be reached from `a`.
pub open spec fn reach(hs: Set<Hop>, a: PointKey, b: PointKey) -> bool {
    exists|p: Seq<Hop>| is_path(hs, p, a, b)
}

/// `b` can be reached from `a` across at least one strict step.
pub open spec fn reach_strict(hs: Set<Hop>, a: PointKey, b: PointKey) -> bool {
    exists|p: Seq<Hop>| is_path(hs, p, a, b) && crosses(p)
}

/// The point occurs in some constraint.
pub open spec fn known(cs: Seq<Constraint>, k: PointKey) -> bool {
    exists|i: int| 0 <= i < cs.len() && ((#[trigger] cs[i]).a == k || cs[i].b == k)
}

/// The order `a rel b` follows from the constraints.  Points that no
/// constraint mentions are in no order.
pub open spec fn entailed(cs: Seq<Constraint>, a: PointKey, b: PointKey, rel: Order) -> bool {
    &&& known(cs, a)
    &&& known(cs, b)
    &&& match rel {
        Order::Lt => reach_strict(hops(cs), a, b),
        Order::Le => reach(hops(cs), a, b),
        Order::Eq => reach(eq_hops(cs), a, b),
    }
}

/// No point comes strictly before itself.
pub open spec fn acyclic(cs: Seq<Constraint>) -> bool {
    forall|k: PointKey| !#[trigger] reach_strict(hops(cs), k, k)
}

/// The placement `v` of points on a line satisfies the constraint.
pub open spec fn satisfies(v: spec_fn(PointKey) -> int, c: Constraint) -> bool {
    match c.rel {
        Order::Lt => v(c.a) < v(c.b),
        Order::Le => v(c.a) <= v(c.b),
        Order::Eq => v(c.a) == v(c.b),
    }
}

/// The placement `v` satisfies every constraint.
pub open spec fn models(v: spec_fn(PointKey) -> int, cs: Seq<Constraint>) -> bool {
    forall|i: int| 0 <= i < cs.len() ==> satisfies(v, #[trigger] cs[i])
}

// ---------------------------------------------------------------------------
// Paths
// ---------------------------------------------------------------------------

pub proof fn lemma_path_join(hs: Set<Hop>, p: Seq<Hop>, q: Seq<Hop>, a: PointKey, b: PointKey, c: PointKey)
    requires
        is_path(hs, p, a, b),
        is_path(hs, q, b, c),
    ensures
        is_path(hs, p + q, a, c),
        crosses(p + q) == (crosses(p) || crosses(q)),
    decreases q.len(),
{
    if q.len() == 0 {
        assert(p + q =~= p);
    } else {
        lemma_path_join(hs, p, q.drop_last(), a, b, q.last().from);
        assert((p + q).drop_last() =~= p + q.drop_last());
        assert((p + q).last() == q.last());
    }
}

proof fn lemma_path_mono(hs: Set<Hop>, ks: Set<Hop>, p: Seq<Hop>, a: PointKey, b: PointKey)
    requires
        is_path(hs, p, a, b),
        hs.subset_of(ks),
    ensures
        is_path(ks, p, a, b),
    decreases p.len(),
{
    if p.len() > 0 {
        lemma_path_mono(hs, ks, p.drop_last(), a, p.last().from);
    }
}

pub proof fn lemma_one_hop(hs: Set<Hop>, h: Hop)
    requires
        hs.contains(h),
    ensures
        is_path(hs, seq![h], h.from, h.to),
        crosses(seq![h]) == h.strict,
{
    let p = seq![h];
    assert(p.drop_last() =~= Seq::empty());
    assert(is_path(hs, p.drop_last(), h.from, h.from));
    assert(!crosses(p.drop_last()));
}

proof fn lemma_reach_refl(hs: Set<Hop>, a: PointKey)
    ensures
        reach(hs, a, a),
{
    assert(is_path(hs, Seq::empty(), a, a));
}

proof fn lemma_reach_trans(hs: Set<Hop>, a: PointKey, b: PointKey, c: PointKey)
    requires
        reach(hs, a, b),
        reach(hs, b, c),
    ensures
        reach(hs, a, c),
        reach_strict(hs, a, b) || reach_strict(hs, b, c) ==> reach_strict(hs, a, c),
{
    let p = choose|p: Seq<Hop>| is_path(hs, p, a, b);
    let q = choose|q: Seq<Hop>| is_path(hs, q, b, c);
    lemma_path_join(hs, p, q, a, b, c);
    if reach_strict(hs, a, b) {
        let ps = choose|p: Seq<Hop>| is_path(hs, p, a, b) && crosses(p);
        lemma_path_join(hs, ps, q, a, b, c);
    }
    if reach_strict(hs, b, c) {
        let qs = choose|q: Seq<Hop>| is_path(hs, q, b, c) && crosses(q);
        lemma_path_join(hs, p, qs, a, b, c);
    }
}

pub proof fn lemma_reach_mono(hs: Set<Hop>, ks: Set<Hop>, a: PointKey, b: PointKey)
    requires
        hs.subset_of(ks),
    ensures
        reach(hs, a, b) ==> reach(ks, a, b),
        reach_strict(hs, a, b) ==> reach_strict(ks, a, b),
{
    if reach(hs, a, b) {
        let p = choose|p: Seq<Hop>| is_path(hs, p, a, b);
        lemma_path_mono(hs, ks, p, a, b);
    }
    if reach_strict(hs, a, b) {
        let p = choose|p: Seq<Hop>| is_path(hs, p, a, b) && crosses(p);
        lemma_path_mono(hs, ks, p, a, b);
    }
}

proof fn lemma_hop_reach(hs: Set<Hop>, h: Hop)
    requires
        hs.contains(h),
    ensures
        reach(hs, h.from, h.to),
        h.strict ==> reach_strict(hs, h.from, h.to),
{
    lemma_one_hop(hs, h);
}

proof fn lemma_strict_reaches(hs: Set<Hop>, a: PointKey, b: PointKey)
    requires
        reach_strict(hs, a, b),
    ensures
        reach(hs, a, b),
{
}

/// Equality steps can be walked backwards.
proof fn lemma_eq_reverse(cs: Seq<Constraint>, p: Seq<Hop>, a: PointKey, b: PointKey)
    requires
        is_path(eq_hops(cs), p, a, b),
    ensures
        reach(eq_hops(cs), b, a),
    decreases p.len(),
{
    let hs = eq_hops(cs);
    if p.len() == 0 {
        lemma_reach_refl(hs, a);
    } else {
        let h = p.last();
        let back = Hop { from: h.to, to: h.from, strict: false, sid: h.sid };
        let i = choose|i: int|
            0 <= i < cs.len() && (#[trigger] cs[i]).rel == Order::Eq && gives(cs[i], h);
        assert(gives(cs[i], back));
        assert(hs.contains(back));
        lemma_hop_reach(hs, back);
        lemma_eq_reverse(cs, p.drop_last(), a, h.from);
        lemma_reach_trans(hs, b, h.from, a);
    }
}

proof fn lemma_eq_symmetric(cs: Seq<Constraint>, a: PointKey, b: PointKey)
    requires
        reach(eq_hops(cs), a, b),
    ensures
        reach(eq_hops(cs), b, a),
{
    let p = choose|p: Seq<Hop>| is_path(eq_hops(cs), p, a, b);
    lemma_eq_reverse(cs, p, a, b);
}

pub proof fn lemma_eq_hops_sub(cs: Seq<Constraint>)
    ensures
        eq_hops(cs).subset_of(hops(cs)),
{
}

proof fn lemma_hop_known(cs: Seq<Constraint>, h: Hop)
    requires
        hops(cs).contains(h),
    ensures
        known(cs, h.from),
        known(cs, h.to),
{
    let i = choose|i: int| 0 <= i < cs.len() && gives(#[trigger] cs[i], h);
    assert(cs[i].a == h.from || cs[i].b == h.from);
    assert(cs[i].a == h.to || cs[i].b == h.to);
}

proof fn lemma_push_hops(cs: Seq<Constraint>, c: Constraint)
    ensures
        hops(cs).subset_of(hops(cs.push(c))),
        eq_hops(cs).subset_of(eq_hops(cs.push(c))),
        c.rel != Order::Eq ==> eq_hops(cs.push(c)) =~= eq_hops(cs),
        forall|h: Hop| #[trigger] hops(cs.push(c)).contains(h) ==> hops(cs).contains(h) || gives(c, h),
        forall|h: Hop| gives(c, h) ==> #[trigger] hops(cs.push(c)).contains(h),
        forall|h: Hop| #[trigger]
            eq_hops(cs.push(c)).contains(h) ==> eq_hops(cs).contains(h) || gives(c, h),
        forall|h: Hop|
            c.rel == Order::Eq && gives(c, h) ==> #[trigger] eq_hops(cs.push(c)).contains(h),
        forall|k: PointKey| #[trigger]
            known(cs.push(c), k) <==> known(cs, k) || c.a == k || c.b == k,
{
    let ds = cs.push(c);
    assert forall|i: int| 0 <= i < cs.len() implies ds[i] == cs[i] by {}
    assert(ds[cs.len() as int] == c);
    assert forall|h: Hop| hops(cs).contains(h) implies hops(ds).contains(h) by {
        let i = choose|i: int| 0 <= i < cs.len() && gives(#[trigger] cs[i], h);
        assert(gives(ds[i], h));
    }
    assert forall|h: Hop| eq_hops(cs).contains(h) implies eq_hops(ds).contains(h) by {
        let i = choose|i: int|
            0 <= i < cs.len() && (#[trigger] cs[i]).rel == Order::Eq && gives(cs[i], h);
        assert(gives(ds[i], h));
    }
    assert forall|k: PointKey| #[trigger] known(ds, k) <==> known(cs, k) || c.a == k || c.b
        == k by {
        if known(cs, k) {
            let i = choose|i: int| 0 <= i < cs.len() && ((#[trigger] cs[i]).a == k || cs[i].b == k);
            assert(ds[i].a == k || ds[i].b == k);
        }
        if c.a == k || c.b == k {
            assert(ds[cs.len() as int].a == k || ds[cs.len() as int].b == k);
        }
    }
}

// ---------------------------------------------------------------------------
// The network
// ---------------------------------------------------------------------------

/// A network of point constraints.  Its view is the sequence of constraints
/// stated so far.
pub struct TemporalNet {
    /// the points, by node number
    points: Vec<PointKey>,
    /// parents of the equality classes, by node number
    parent: Vec<usize>,
    /// the order constraints `(a, b, strict)` between nodes
    edges: Vec<(usize, usize, bool)>,
    /// the steps that leave each node
    wadj: Vec<Vec<(PointKey, bool, Option<SentenceId>)>>,
    le: Vec<Vec<bool>>,
    lt: Vec<Vec<bool>>,
    consistent: bool,
    closed: bool,
    log: Ghost<Seq<Constraint>>,
    rank: Ghost<Seq<nat>>,
    class: Ghost<Seq<int>>,
}

impl View for TemporalNet {
    type V = Seq<Constraint>;

    closed spec fn view(&self) -> Seq<Constraint> {
        self.log@
    }
}

/// Node `i` hangs below the representative of its class: its parent is in the
/// same class and, unless `i` is itself the representative, of higher rank.
pub open spec fn rooted(parent: Seq<usize>, class: Seq<int>, rank: Seq<nat>, i: int) -> bool {
    let p = parent[i] as int;
    let c = class[i];
    &&& 0 <= p < class.len()
    &&& 0 <= c < class.len()
    &&& class[c] == c
    &&& class[p] == c
    &&& (p == i <==> c == i)
    &&& (p != i ==> rank[i] < rank[p])
    &&& rank[i] <= rank[c]
}

/// The edge `t` between two nodes stands for a step of the constraints.
pub open spec fn backed(points: Seq<PointKey>, cs: Seq<Constraint>, t: (usize, usize, bool)) -> bool {
    &&& t.0 < points.len()
    &&& t.1 < points.len()
    &&& exists|s: Option<SentenceId>| #[trigger]
        hops(cs).contains(
            Hop { from: points[t.0 as int], to: points[t.1 as int], strict: t.2, sid: s },
        )
}

/// The edges are the steps of the order constraints.
pub open spec fn edges_stand(
    points: Seq<PointKey>,
    edges: Seq<(usize, usize, bool)>,
    cs: Seq<Constraint>,
) -> bool {
    &&& forall|e: int| 0 <= e < edges.len() ==> backed(points, cs, #[trigger] edges[e])
    &&& forall|i: int, j: int, st: bool, s: Option<SentenceId>|
        0 <= i < points.len() && 0 <= j < points.len() && #[trigger] hops(cs).contains(
            Hop { from: points[i], to: points[j], strict: st, sid: s },
        ) ==> edges.contains((i as usize, j as usize, st)) || eq_hops(cs).contains(
            Hop { from: points[i], to: points[j], strict: st, sid: s },
        )
}

/// A square matrix of truth values, `n` wide.
pub open spec fn square(m: Seq<Vec<bool>>, n: int) -> bool {
    &&& m.len() == n
    &&& forall|i: int| 0 <= i < n ==> (#[trigger] m[i])@.len() == n
}

/// The strict order stays strict when a step is put before or after it.
pub open spec fn composes(le: Seq<Vec<bool>>, lt: Seq<Vec<bool>>, n: int) -> bool {
    forall|i: int, m: int, j: int|
        #![trigger le[i]@[m], le[m]@[j]]
        0 <= i < n && 0 <= m < n && 0 <= j < n && le[i]@[m] && le[m]@[j] && (lt[i]@[m] || lt[m]@[j])
            ==> lt[i]@[j]
}

/// The order is transitive through every node below `k`.
pub open spec fn transitive(le: Seq<Vec<bool>>, n: int, k: int) -> bool {
    forall|i: int, m: int, j: int|
        #![trigger le[i]@[m], le[m]@[j]]
        0 <= i < n && 0 <= m < k && 0 <= j < n && le[i]@[m] && le[m]@[j] ==> le[i]@[j]
}

/// No node is strictly before itself.
pub open spec fn no_loop(lt: Seq<Vec<bool>>, n: int) -> bool {
    forall|i: int| 0 <= i < n ==> !(#[trigger] lt[i]@[i])
}

/// Every entry of the matrix stands for a path.
pub open spec fn sound_order(hs: Set<Hop>, points: Seq<PointKey>, le: Seq<Vec<bool>>) -> bool {
    forall|i: int, j: int|
        0 <= i < points.len() && 0 <= j < points.len() && #[trigger] le[i]@[j] ==> reach(
            hs,
            points[i],
            points[j],
        )
}

/// Every entry of the two matrices stands for a path.
pub open spec fn sound(
    hs: Set<Hop>,
    points: Seq<PointKey>,
    le: Seq<Vec<bool>>,
    lt: Seq<Vec<bool>>,
) -> bool {
    &&& sound_order(hs, points, le)
    &&& forall|i: int, j: int|
        0 <= i < points.len() && 0 <= j < points.len() && #[trigger] lt[i]@[j] ==> reach_strict(
            hs,
            points[i],
            points[j],
        ) && le[i]@[j]
}

/// The matrices cover the reflexive order and the stated edges, between
/// class representatives.
pub open spec fn covers(
    class: Seq<int>,
    edges: Seq<(usize, usize, bool)>,
    le: Seq<Vec<bool>>,
    lt: Seq<Vec<bool>>,
) -> bool {
    &&& forall|i: int| 0 <= i < class.len() ==> (#[trigger] le[class[i]]@[class[i]])
    &&& forall|e: int|
        0 <= e < edges.len() ==> {
            let t = #[trigger] edges[e];
            le[class[t.0 as int]]@[class[t.1 as int]] && (t.2 ==> lt[class[t.0 as int]]@[class[t.1 as int]])
        }
}

impl TemporalNet {
    /// The invariant of the points, the equality classes and the edges.
    closed spec fn base_wf(&self) -> bool {
        let n = self.points@.len();
        &&& self.parent@.len() == n
        &&& self.wadj@.len() == n
        &&& self.rank@.len() == n
        &&& self.class@.len() == n
        &&& forall|i: int, j: int|
            #![trigger self.points@[i], self.points@[j]]
            0 <= i < j < n ==> self.points@[i] != self.points@[j]
        &&& forall|k: PointKey| #[trigger] known(self.log@, k) ==> self.points@.contains(k)
        &&& self.forest_wf()
        &&& self.class_wf()
        &&& self.edges_wf()
        &&& self.wadj_wf()
    }

    closed spec fn forest_wf(&self) -> bool {
        forall|i: int|
            0 <= i < self.points@.len() ==> #[trigger] rooted(
                self.parent@,
                self.class@,
                self.rank@,
                i,
            )
    }

    closed spec fn class_wf(&self) -> bool {
        let n = self.points@.len();
        &&& forall|i: int|
            #![trigger self.class@[i]]
            0 <= i < n ==> reach(eq_hops(self.log@), self.points@[i], self.points@[self.class@[i]])
        &&& forall|i: int, j: int, s: Option<SentenceId>|
            0 <= i < n && 0 <= j < n && #[trigger] eq_hops(self.log@).contains(
                Hop { from: self.points@[i], to: self.points@[j], strict: false, sid: s },
            ) ==> self.class@[i] == self.class@[j]
    }

    closed spec fn edges_wf(&self) -> bool {
        edges_stand(self.points@, self.edges@, self.log@)
    }

    closed spec fn wadj_wf(&self) -> bool {
        forall|i: int, to: PointKey, st: bool, s: Option<SentenceId>|
            #![trigger self.wadj@[i]@.contains((to, st, s))]
            0 <= i < self.points@.len() ==> (self.wadj@[i]@.contains((to, st, s)) <==> hops(
                self.log@,
            ).contains(Hop { from: self.points@[i], to: to, strict: st, sid: s }))
    }

    /// What holds of the closure once it has been computed.
    closed spec fn closure_wf(&self) -> bool {
        self.closed_by(self.le@, self.lt@, self.consistent)
    }

    /// The two orders are the closure of the constraints.
    closed spec fn closed_by(&self, le: Seq<Vec<bool>>, lt: Seq<Vec<bool>>, ok: bool) -> bool {
        let n = self.points@.len() as int;
        &&& square(le, n)
        &&& square(lt, n)
        &&& sound(hops(self.log@), self.points@, le, lt)
        &&& covers(self.class@, self.edges@, le, lt)
        &&& transitive(le, n, n)
        &&& ok == no_loop(lt, n)
        &&& composes(le, lt, n)
    }

    /// The invariant of a network.
    pub closed spec fn wf(&self) -> bool {
        &&& self.base_wf()
        &&& forall|k: PointKey| #[trigger] self.points@.contains(k) ==> known(self.log@, k)
        &&& self.closed ==> self.closure_wf()
    }

    /// The network without constraints.
    pub fn new() -> (net: Self)
        ensures
            net.wf(),
            net@ == Seq::<Constraint>::empty(),
    {
        TemporalNet {
            points: Vec::new(),
            parent: Vec::new(),
            edges: Vec::new(),
            wadj: Vec::new(),
            le: Vec::new(),
            lt: Vec::new(),
            consistent: true,
            closed: false,
            log: Ghost(Seq::empty()),
            rank: Ghost(Seq::empty()),
            class: Ghost(Seq::empty()),
        }
    }

    /// The node of a point, if it has one.
    fn lookup(&self, key: PointKey) -> (r: Option<usize>)
        requires
            self.base_wf(),
        ensures
            match r {
                Some(n) => n < self.points@.len() && self.points@[n as int] == key,
                None => !self.points@.contains(key),
            },
    {
        let mut i: usize = 0;
        while i < self.points.len()
            invariant
                i <= self.points@.len(),
                forall|j: int| 0 <= j < i ==> self.points@[j] != key,
            decreases self.points@.len() - i,
        {
            if self.points[i] == key {
                return Some(i);
            }
            i += 1;
        }
        None
    }

    /// The representative of the equality class of node `a`, shortening the
    /// chain of parents on the way.
    fn find(&mut self, a: usize) -> (r: usize)
        requires
            old(self).base_wf(),
            a < old(self).points@.len(),
        ensures
            final(self).base_wf(),
            *final(self) == (TemporalNet { parent: final(self).parent, ..*old(self) }),
            r == old(self).class@[a as int],
            r < old(self).points@.len(),
    {
        let mut a: usize = a;
        let ghost a0 = a as int;
        assert(rooted(self.parent@, self.class@, self.rank@, a as int));
        while self.parent[a] != a
            invariant
                self.base_wf(),
                *self == (TemporalNet { parent: self.parent, ..*old(self) }),
                a < self.points@.len(),
                self.class@[a as int] == self.class@[a0],
            decreases self.rank@[self.class@[a as int]] - self.rank@[a as int],
        {
            assert(rooted(self.parent@, self.class@, self.rank@, a as int));
            let p: usize = self.parent[a];
            assert(rooted(self.parent@, self.class@, self.rank@, p as int));
            let pp: usize = self.parent[p];
            let ghost before = *self;
            self.parent.set(a, pp);
            proof {
                assert forall|i: int| 0 <= i < self.points@.len() implies #[trigger] rooted(
                    self.parent@,
                    self.class@,
                    self.rank@,
                    i,
                ) by {
                    assert(rooted(before.parent@, before.class@, before.rank@, i));
                }
                assert(rooted(before.parent@, before.class@, before.rank@, pp as int));
                assert(self.forest_wf());
                assert(self.class_wf()) by {
                    assert(before.class_wf());
                }
                assert(self.edges_wf()) by {
                    assert(before.edges_wf());
                }
                assert(self.wadj_wf()) by {
                    assert(before.wadj_wf());
                }
            }
            a = pp;
        }
        assert(rooted(self.parent@, self.class@, self.rank@, a as int));
        a
    }

    /// The representative of the equality class of node `a`.
    fn find_imm(&self, a: usize) -> (r: usize)
        requires
            self.base_wf(),
            a < self.points@.len(),
        ensures
            r == self.class@[a as int],
            r < self.points@.len(),
    {
        let mut a: usize = a;
        let ghost a0 = a as int;
        while self.parent[a] != a
            invariant
                self.base_wf(),
                a < self.points@.len(),
                self.class@[a as int] == self.class@[a0],
            decreases self.rank@[self.class@[a as int]] - self.rank@[a as int],
        {
            assert(rooted(self.parent@, self.class@, self.rank@, a as int));
            a = self.parent[a];
            assert(rooted(self.parent@, self.class@, self.rank@, a as int));
        }
        assert(rooted(self.parent@, self.class@, self.rank@, a as int));
        a
    }

    /// The node of a point, entering the point if it is new.
    fn node(&mut self, key: PointKey) -> (n: usize)
        requires
            old(self).base_wf(),
            old(self).closed ==> old(self).closure_wf(),
        ensures
            final(self).base_wf(),
            final(self).closed ==> final(self).closure_wf() && *final(self) == *old(self),
            final(self).log@ == old(self).log@,
            n < final(self).points@.len(),
            final(self).points@[n as int] == key,
            old(self).points@.len() <= final(self).points@.len(),
            forall|i: int|
                0 <= i < old(self).points@.len() ==> #[trigger] final(self).points@[i] == old(
                    self,
                ).points@[i],
            forall|k: PointKey| #[trigger]
                final(self).points@.contains(k) <==> old(self).points@.contains(k) || k == key,
    {
        match self.lookup(key) {
            Some(n) => n,
            None => {
                let ghost before = *self;
                let n: usize = self.parent.len();
                self.points.push(key);
                self.parent.push(n);
                self.wadj.push(Vec::new());
                self.closed = false;
                proof {
                    self.rank = Ghost(self.rank@.push(0));
                    self.class = Ghost(self.class@.push(n as int));
                    let hs = hops(self.log@);
                    lemma_eq_hops_sub(self.log@);
                    assert forall|h: Hop| #[trigger] hs.contains(h) implies before.points@.contains(
                        h.from,
                    ) && before.points@.contains(h.to) && h.from != key && h.to != key by {
                        lemma_hop_known(self.log@, h);
                    }
                    assert(self.points@[n as int] == key);
                    assert forall|k: PointKey|
                        self.points@.contains(k) <==> before.points@.contains(k) || k == key by {
                        if before.points@.contains(k) {
                            let i = before.points@.index_of(k);
                            assert(self.points@[i] == k);
                        }
                    }
                    lemma_reach_refl(eq_hops(self.log@), key);
                    assert forall|i: int| 0 <= i < self.points@.len() implies #[trigger] rooted(
                        self.parent@,
                        self.class@,
                        self.rank@,
                        i,
                    ) by {
                        if i < n {
                            assert(rooted(before.parent@, before.class@, before.rank@, i));
                        }
                    }
                    assert(self.class_wf()) by {
                        assert forall|i: int| 0 <= i < self.points@.len() implies reach(
                            eq_hops(self.log@),
                            self.points@[i],
                            self.points@[#[trigger] self.class@[i]],
                        ) by {
                            if i < n {
                                assert(rooted(before.parent@, before.class@, before.rank@, i));
                            }
                        }
                    }
                    assert forall|e: int| 0 <= e < self.edges@.len() implies backed(
                        self.points@,
                        self.log@,
                        #[trigger] self.edges@[e],
                    ) by {
                        let t = self.edges@[e];
                        assert(backed(before.points@, before.log@, before.edges@[e]));
                        assert(before.points@[t.0 as int] == self.points@[t.0 as int]);
                        assert(before.points@[t.1 as int] == self.points@[t.1 as int]);
                    }
                    assert(self.edges_wf());
                    assert(self.wadj_wf());
                }
                n
            },
        }
    }

    /// Joins the equality classes of two nodes.
    fn union(&mut self, a: usize, b: usize)
        requires
            a < old(self).points@.len(),
            b < old(self).points@.len(),
            old(self).base_wf(),
        ensures
            *final(self) == (TemporalNet {
                parent: final(self).parent,
                rank: final(self).rank,
                class: final(self).class,
                closed: old(self).closed && old(self).class@[a as int] == old(self).class@[b as int],
                ..*old(self)
            }),
            final(self).parent@.len() == old(self).parent@.len(),
            final(self).rank@.len() == old(self).rank@.len(),
            final(self).forest_wf(),
            final(self).class@ == merged_class(
                old(self).class@,
                old(self).class@[a as int],
                old(self).class@[b as int],
            ),
    {
        let ghost start = *self;
        let ra: usize = self.find(a);
        let rb: usize = self.find(b);
        if ra != rb {
            let ghost before = *self;
            self.parent.set(ra, rb);
            self.closed = false;
            proof {
                assert(rooted(before.parent@, before.class@, before.rank@, a as int));
                assert(rooted(before.parent@, before.class@, before.rank@, b as int));
                let up = if before.rank@[rb as int] > before.rank@[ra as int] {
                    before.rank@[rb as int]
                } else {
                    before.rank@[ra as int] + 1
                };
                self.rank = Ghost(self.rank@.update(rb as int, up));
                self.class = Ghost(merged_class(start.class@, ra as int, rb as int));
                assert forall|i: int| 0 <= i < self.points@.len() implies #[trigger] rooted(
                    self.parent@,
                    self.class@,
                    self.rank@,
                    i,
                ) by {
                    assert(rooted(before.parent@, before.class@, before.rank@, i));
                    assert(rooted(before.parent@, before.class@, before.rank@, before.class@[i]));
                }
            }
        } else {
            assert(self.class@ =~= merged_class(start.class@, ra as int, rb as int));
        }
    }

    /// `a < b`, citing the sentence it came from.
    pub fn add_lt_w(&mut self, a: PointKey, b: PointKey, sid: Option<SentenceId>)
        requires
            old(self).wf(),
        ensures
            final(self).wf(),
            final(self)@ == old(self)@.push(Constraint { a, b, rel: Order::Lt, sid }),
    {
        self.add_edge(a, b, true, sid);
    }

    /// `a <= b`, citing the sentence it came from.
    pub fn add_le_w(&mut self, a: PointKey, b: PointKey, sid: Option<SentenceId>)
        requires
            old(self).wf(),
        ensures
            final(self).wf(),
            final(self)@ == old(self)@.push(Constraint { a, b, rel: Order::Le, sid }),
    {
        self.add_edge(a, b, false, sid);
    }

    /// Enters an order constraint between two points.
    fn add_edge(&mut self, a: PointKey, b: PointKey, strict: bool, sid: Option<SentenceId>)
        requires
            old(self).wf(),
        ensures
            final(self).wf(),
            final(self)@ == old(self)@.push(
                Constraint { a, b, rel: if strict { Order::Lt } else { Order::Le }, sid },
            ),
    {
        let ghost start = *self;
        let na: usize = self.node(a);
        let ghost mid = *self;
        let nb: usize = self.node(b);
        let ghost before = *self;
        assert(self.points@[na as int] == mid.points@[na as int]);
        self.wedge(na, b, strict, sid);
        self.edges.push((na, nb, strict));
        self.closed = false;
        proof {
            let c = Constraint { a, b, rel: if strict { Order::Lt } else { Order::Le }, sid };
            let h = Hop { from: a, to: b, strict, sid };
            let cs = before.log@;
            let n = self.points@.len() as int;
            self.log = Ghost(cs.push(c));
            lemma_push_hops(cs, c);
            assert(gives(c, h));
            assert forall|g: Hop| gives(c, g) implies g == h by {}
            assert(hops(self.log@).contains(h));
            assert(self.forest_wf()) by {
                assert(before.forest_wf());
            }
            assert(self.class_wf()) by {
                assert(before.class_wf());
            }
            assert(self.edges_wf()) by {
                assert forall|e: int| 0 <= e < self.edges@.len() implies backed(
                    self.points@,
                    self.log@,
                    #[trigger] self.edges@[e],
                ) by {
                    if e < before.edges@.len() {
                        assert(backed(before.points@, before.log@, before.edges@[e]));
                        lemma_backed_push(self.points@, cs, c, before.edges@[e]);
                    } else {
                        assert(self.edges@[e] == (na, nb, strict));
                    }
                }
                assert forall|i: int, j: int, st: bool, s: Option<SentenceId>|
                    0 <= i < n && 0 <= j < n && #[trigger] hops(self.log@).contains(
                        Hop { from: self.points@[i], to: self.points@[j], strict: st, sid: s },
                    ) implies self.edges@.contains((i as usize, j as usize, st)) || eq_hops(
                    self.log@,
                ).contains(
                    Hop { from: self.points@[i], to: self.points@[j], strict: st, sid: s },
                ) by {
                    let g = Hop { from: self.points@[i], to: self.points@[j], strict: st, sid: s };
                    let t = (i as usize, j as usize, st);
                    if hops(cs).contains(g) {
                        if before.edges@.contains(t) {
                            let e = before.edges@.index_of(t);
                            assert(self.edges@[e] == t);
                        }
                    } else {
                        assert(g == h);
                        assert(i == na && j == nb);
                        assert(self.edges@[before.edges@.len() as int] == t);
                    }
                }
            }
            assert(self.wadj_wf());
        }
    }

    /// Records the step `from -> to` for witnesses.
    fn wedge(&mut self, from: usize, to: PointKey, strict: bool, sid: Option<SentenceId>)
        requires
            from < old(self).wadj@.len(),
        ensures
            *final(self) == (TemporalNet { wadj: final(self).wadj, ..*old(self) }),
            final(self).wadj@.len() == old(self).wadj@.len(),
            forall|i: int, t: PointKey, st: bool, s: Option<SentenceId>|
                #![trigger final(self).wadj@[i]@.contains((t, st, s))]
                0 <= i < old(self).wadj@.len() ==> (final(self).wadj@[i]@.contains((t, st, s)) <==> old(
                    self,
                ).wadj@[i]@.contains((t, st, s)) || (i == from && t == to && st == strict && s == sid)),
    {
        let ghost before = self.wadj@;
        let step: (PointKey, bool, Option<SentenceId>) = (to, strict, sid);
        self.wadj[from].push(step);
        proof {
            assert(self.wadj@[from as int]@ == before[from as int]@.push(step));
            assert forall|i: int, t: PointKey, st: bool, s: Option<SentenceId>|
                #![trigger self.wadj@[i]@.contains((t, st, s))]
                0 <= i < before.len() implies (self.wadj@[i]@.contains((t, st, s)) <==> before[i]@.contains(
                (t, st, s),
            ) || (i == from && t == to && st == strict && s == sid)) by {
                let old_row = before[i]@;
                let row = self.wadj@[i]@;
                let e = (t, st, s);
                if i == from {
                    if old_row.contains(e) {
                        let k = old_row.index_of(e);
                        assert(row[k] == e);
                    }
                    assert(row[old_row.len() as int] == step);
                }
            }
        }
    }

    /// `a = b`, citing the sentence it came from.
    pub fn add_eq_w(&mut self, a: PointKey, b: PointKey, sid: Option<SentenceId>)
        requires
            old(self).wf(),
        ensures
            final(self).wf(),
            final(self)@ == old(self)@.push(Constraint { a, b, rel: Order::Eq, sid }),
    {
        let na: usize = self.node(a);
        let ghost mid = *self;
        let nb: usize = self.node(b);
        let ghost before = *self;
        assert(self.points@[na as int] == mid.points@[na as int]);
        self.union(na, nb);
        let ghost joined = *self;
        self.wedge(na, b, false, sid);
        self.wedge(nb, a, false, sid);
        proof {
            let c = Constraint { a, b, rel: Order::Eq, sid };
            let cs = before.log@;
            let ds = cs.push(c);
            let n = self.points@.len() as int;
            self.log = Ghost(ds);
            lemma_push_hops(cs, c);
            let fw = Hop { from: a, to: b, strict: false, sid };
            let bw = Hop { from: b, to: a, strict: false, sid };
            assert(gives(c, fw) && gives(c, bw));
            assert forall|g: Hop| gives(c, g) implies g == fw || g == bw by {}
            assert(eq_hops(ds).contains(fw) && eq_hops(ds).contains(bw));
            lemma_hop_reach(eq_hops(ds), fw);
            lemma_hop_reach(eq_hops(ds), bw);
            let ra = before.class@[na as int];
            let rb = before.class@[nb as int];
            assert(self.class_wf()) by {
                assert forall|i: int| 0 <= i < before.class@.len() implies 0 <= #[trigger] before.class@[i]
                    < before.class@.len() && before.class@[before.class@[i]] == before.class@[i] by {
                    assert(rooted(before.parent@, before.class@, before.rank@, i));
                }
                lemma_joined_classes(before.points@, before.class@, cs, na as int, nb as int, sid);
            }
            assert(self.edges_wf()) by {
                assert(before.edges_wf());
                assert(self.edges@ == before.edges@);
                lemma_edges_kept(self.points@, self.edges@, cs, c);
            }
            assert(self.wadj_wf());
            assert(self.base_wf());
            if self.closed {
                assert(ra == rb);
                assert(self.class@ =~= before.class@);
                assert(sound(hops(ds), self.points@, self.le@, self.lt@)) by {
                    assert forall|i: int, j: int|
                        0 <= i < n && 0 <= j < n && #[trigger] self.le@[i]@[j] implies reach(
                        hops(ds),
                        self.points@[i],
                        self.points@[j],
                    ) by {
                        lemma_reach_mono(hops(cs), hops(ds), self.points@[i], self.points@[j]);
                    }
                    assert forall|i: int, j: int|
                        0 <= i < n && 0 <= j < n && #[trigger] self.lt@[i]@[j] implies reach_strict(
                        hops(ds),
                        self.points@[i],
                        self.points@[j],
                    ) && self.le@[i]@[j] by {
                        lemma_reach_mono(hops(cs), hops(ds), self.points@[i], self.points@[j]);
                    }
                }
            }
        }
    }

    /// `a < b`.
    pub fn add_lt(&mut self, a: PointKey, b: PointKey)
        requires
            old(self).wf(),
        ensures
            final(self).wf(),
            final(self)@ == old(self)@.push(Constraint { a, b, rel: Order::Lt, sid: None }),
    {
        self.add_lt_w(a, b, None);
    }

    /// `a <= b`.
    pub fn add_le(&mut self, a: PointKey, b: PointKey)
        requires
            old(self).wf(),
        ensures
            final(self).wf(),
            final(self)@ == old(self)@.push(Constraint { a, b, rel: Order::Le, sid: None }),
    {
        self.add_le_w(a, b, None);
    }

    /// `a = b`.
    pub fn add_eq(&mut self, a: PointKey, b: PointKey)
        requires
            old(self).wf(),
        ensures
            final(self).wf(),
            final(self)@ == old(self)@.push(Constraint { a, b, rel: Order::Eq, sid: None }),
    {
        self.add_eq_w(a, b, None);
    }

    /// An interval begins strictly before it ends.
    pub fn add_interval(&mut self, i: SymbolId)
        requires
            old(self).wf(),
        ensures
            final(self).wf(),
            final(self)@ == old(self)@.push(proper(i)),
    {
        self.add_lt(PointKey::Begin(i), PointKey::End(i));
    }
}

/// The constraint that interval `i` begins strictly before it ends.
pub open spec fn proper(i: SymbolId) -> Constraint {
    Constraint { a: PointKey::Begin(i), b: PointKey::End(i), rel: Order::Lt, sid: None }
}

/// The classes after class `ra` has been joined to class `rb`.
spec fn merged_class(class: Seq<int>, ra: int, rb: int) -> Seq<int> {
    Seq::new(class.len(), |i: int| if class[i] == ra { rb } else { class[i] })
}

/// Joining the classes of the two sides keeps the classes in step with the
/// equality constraints.
proof fn lemma_joined_classes(
    points: Seq<PointKey>,
    class: Seq<int>,
    cs: Seq<Constraint>,
    na: int,
    nb: int,
    sid: Option<SentenceId>,
)
    requires
        class.len() == points.len(),
        0 <= na < points.len(),
        0 <= nb < points.len(),
        forall|i: int, j: int|
            #![trigger points[i], points[j]]
            0 <= i < j < points.len() ==> points[i] != points[j],
        forall|i: int|
            0 <= i < class.len() ==> 0 <= #[trigger] class[i] < class.len() && class[class[i]]
                == class[i],
        forall|i: int|
            #![trigger class[i]]
            0 <= i < points.len() ==> reach(eq_hops(cs), points[i], points[class[i]]),
        forall|i: int, j: int, s: Option<SentenceId>|
            0 <= i < points.len() && 0 <= j < points.len() && #[trigger] eq_hops(cs).contains(
                Hop { from: points[i], to: points[j], strict: false, sid: s },
            ) ==> class[i] == class[j],
    ensures
        ({
            let ds = cs.push(Constraint { a: points[na], b: points[nb], rel: Order::Eq, sid });
            let new = merged_class(class, class[na], class[nb]);
            &&& forall|i: int|
                #![trigger new[i]]
                0 <= i < points.len() ==> reach(eq_hops(ds), points[i], points[new[i]])
            &&& forall|i: int, j: int, s: Option<SentenceId>|
                0 <= i < points.len() && 0 <= j < points.len() && #[trigger] eq_hops(ds).contains(
                    Hop { from: points[i], to: points[j], strict: false, sid: s },
                ) ==> new[i] == new[j]
        }),
{
    let c = Constraint { a: points[na], b: points[nb], rel: Order::Eq, sid };
    let ds = cs.push(c);
    let ra = class[na];
    let rb = class[nb];
    let new = merged_class(class, ra, rb);
    let hs = eq_hops(ds);
    lemma_push_hops(cs, c);
    let fw = Hop { from: points[na], to: points[nb], strict: false, sid };
    assert(gives(c, fw));
    lemma_hop_reach(hs, fw);
    assert forall|i: int| 0 <= i < points.len() implies reach(hs, points[i], points[#[trigger] new[i]]) by {
        lemma_reach_mono(eq_hops(cs), hs, points[i], points[class[i]]);
        if class[i] == ra {
            lemma_reach_mono(eq_hops(cs), hs, points[na], points[ra]);
            lemma_reach_mono(eq_hops(cs), hs, points[nb], points[rb]);
            lemma_eq_symmetric(ds, points[na], points[ra]);
            lemma_reach_trans(hs, points[i], points[ra], points[na]);
            lemma_reach_trans(hs, points[i], points[na], points[nb]);
            lemma_reach_trans(hs, points[i], points[nb], points[rb]);
        }
    }
    assert forall|i: int, j: int, s: Option<SentenceId>|
        0 <= i < points.len() && 0 <= j < points.len() && #[trigger] eq_hops(ds).contains(
            Hop { from: points[i], to: points[j], strict: false, sid: s },
        ) implies new[i] == new[j] by {
        let h = Hop { from: points[i], to: points[j], strict: false, sid: s };
        if eq_hops(cs).contains(h) {
        } else {
            assert(gives(c, h));
        }
    }
}

proof fn lemma_backed_push(
    points: Seq<PointKey>,
    cs: Seq<Constraint>,
    c: Constraint,
    t: (usize, usize, bool),
)
    requires
        backed(points, cs, t),
    ensures
        backed(points, cs.push(c), t),
{
    lemma_push_hops(cs, c);
    let s = choose|s: Option<SentenceId>| #[trigger]
        hops(cs).contains(
            Hop { from: points[t.0 as int], to: points[t.1 as int], strict: t.2, sid: s },
        );
    assert(hops(cs.push(c)).contains(
        Hop { from: points[t.0 as int], to: points[t.1 as int], strict: t.2, sid: s },
    ));
}

/// An equality constraint leaves the edges in step with the order constraints.
proof fn lemma_edges_kept(
    points: Seq<PointKey>,
    edges: Seq<(usize, usize, bool)>,
    cs: Seq<Constraint>,
    c: Constraint,
)
    requires
        c.rel == Order::Eq,
        edges_stand(points, edges, cs),
    ensures
        edges_stand(points, edges, cs.push(c)),
{
    lemma_push_hops(cs, c);
    assert forall|e: int| 0 <= e < edges.len() implies backed(points, cs.push(c), #[trigger] edges[e]) by {
        lemma_backed_push(points, cs, c, edges[e]);
    }
}

// ---------------------------------------------------------------------------
// Closure
// ---------------------------------------------------------------------------

/// The matrix `a` after stage `k` of the closure, over the order `le`.
spec fn staged_le(le: Seq<Vec<bool>>, k: int, i: int, j: int) -> bool {
    le[i]@[j] || (le[i]@[k] && le[k]@[j])
}

proof fn lemma_stage_transitive(le: Seq<Vec<bool>>, new: Seq<Vec<bool>>, n: int, k: int)
    requires
        0 <= k < n,
        transitive(le, n, k),
        forall|i: int, j: int|
            0 <= i < n && 0 <= j < n ==> #[trigger] new[i]@[j] == staged_le(le, k, i, j),
    ensures
        transitive(new, n, k + 1),
{
    assert forall|i: int, m: int, j: int|
        #![trigger new[i]@[m], new[m]@[j]]
        0 <= i < n && 0 <= m < k + 1 && 0 <= j < n && new[i]@[m] && new[m]@[j] implies new[i]@[j] by {
        assert(new[i]@[m] == staged_le(le, k, i, m));
        assert(new[m]@[j] == staged_le(le, k, m, j));
        assert(new[i]@[j] == staged_le(le, k, i, j));
        if m < k {
            if le[i]@[m] && le[m]@[j] {
            } else if le[i]@[m] {
                assert(le[i]@[m] && le[m]@[k]);
            } else if le[m]@[j] {
                assert(le[k]@[m] && le[m]@[j]);
            }
        }
    }
}

/// One stage of the closure: lets paths go through node `k`.
fn close_through(
    le: &mut Vec<Vec<bool>>,
    n: usize,
    k: usize,
    Ghost(hs): Ghost<Set<Hop>>,
    Ghost(points): Ghost<Seq<PointKey>>,
)
    requires
        square(old(le)@, n as int),
        points.len() == n,
        k < n,
        sound_order(hs, points, old(le)@),
        transitive(old(le)@, n as int, k as int),
    ensures
        square(final(le)@, n as int),
        sound_order(hs, points, final(le)@),
        transitive(final(le)@, n as int, k + 1),
        forall|i: int, j: int|
            0 <= i < n && 0 <= j < n && #[trigger] old(le)@[i]@[j] ==> final(le)@[i]@[j],
{
    let ghost le0 = le@;
    let mut i: usize = 0;
    while i < n
        invariant
            k < n,
            i <= n,
            points.len() == n,
            square(le0, n as int),
            square(le@, n as int),
            sound_order(hs, points, le0),
            sound_order(hs, points, le@),
            forall|r: int, c: int|
                0 <= r < n && 0 <= c < n ==> #[trigger] le@[r]@[c] == if r < i {
                    staged_le(le0, k as int, r, c)
                } else {
                    le0[r]@[c]
                },
        decreases n - i,
    {
        if le[i][k] {
            let mut j: usize = 0;
            while j < n
                invariant
                    k < n,
                    i < n,
                    j <= n,
                    points.len() == n,
                    square(le0, n as int),
                    square(le@, n as int),
                    sound_order(hs, points, le0),
                    sound_order(hs, points, le@),
                    le0[i as int]@[k as int],
                    forall|r: int, c: int|
                        0 <= r < n && 0 <= c < n ==> #[trigger] le@[r]@[c] == if r < i || (r == i
                            && c < j) {
                            staged_le(le0, k as int, r, c)
                        } else {
                            le0[r]@[c]
                        },
                decreases n - j,
            {
                let ghost le1 = le@;
                assert(le1[i as int]@[k as int]);
                if le[k][j] {
                    proof {
                        lemma_reach_trans(
                            hs,
                            points[i as int],
                            points[k as int],
                            points[j as int],
                        );
                    }
                    le[i].set(j, true);
                }
                j += 1;
            }
        }
        i += 1;
    }
    proof {
        lemma_stage_transitive(le0, le@, n as int, k as int);
    }
}

/// One of the first `m` edges is strict and lies on the way from `i` to `j`.
spec fn strict_between(
    le: Seq<Vec<bool>>,
    edges: Seq<(usize, usize, bool)>,
    rep: Seq<usize>,
    m: int,
    i: int,
    j: int,
) -> bool {
    exists|e: int| 0 <= e < m && #[trigger] on_the_way(le, edges, rep, e, i, j)
}

spec fn on_the_way(
    le: Seq<Vec<bool>>,
    edges: Seq<(usize, usize, bool)>,
    rep: Seq<usize>,
    e: int,
    i: int,
    j: int,
) -> bool {
    edges[e].2 && le[i]@[rep[edges[e].0 as int] as int] && le[rep[edges[e].1 as int] as int]@[j]
}

/// The strict order: what a strict edge lies between.
fn strict_orders(le: &Vec<Vec<bool>>, edges: &Vec<(usize, usize, bool)>, rep: &Vec<usize>, n: usize) -> (lt: Vec<
    Vec<bool>,
>)
    requires
        square(le@, n as int),
        rep@.len() == n,
        forall|r: int| 0 <= r < n ==> #[trigger] rep@[r] < n,
        forall|d: int| 0 <= d < edges@.len() ==> (#[trigger] edges@[d]).0 < n && edges@[d].1 < n,
    ensures
        square(lt@, n as int),
        forall|i: int, j: int|
            0 <= i < n && 0 <= j < n ==> #[trigger] lt@[i]@[j] == strict_between(
                le@,
                edges@,
                rep@,
                edges@.len() as int,
                i,
                j,
            ),
{
    let mut lt: Vec<Vec<bool>> = blank(n);
    let mut e: usize = 0;
    while e < edges.len()
        invariant
            e <= edges@.len(),
            square(le@, n as int),
            square(lt@, n as int),
            rep@.len() == n,
            forall|r: int| 0 <= r < n ==> #[trigger] rep@[r] < n,
            forall|d: int| 0 <= d < edges@.len() ==> (#[trigger] edges@[d]).0 < n && edges@[d].1 < n,
            forall|i: int, j: int|
                0 <= i < n && 0 <= j < n ==> #[trigger] lt@[i]@[j] == strict_between(
                    le@,
                    edges@,
                    rep@,
                    e as int,
                    i,
                    j,
                ),
        decreases edges@.len() - e,
    {
        let t: (usize, usize, bool) = edges[e];
        let ghost before = lt@;
        assert(edges@[e as int].0 < n && edges@[e as int].1 < n);
        if t.2 {
            let a: usize = rep[t.0];
            let b: usize = rep[t.1];
            let mut i: usize = 0;
            while i < n
                invariant
                    i <= n,
                    a < n,
                    b < n,
                    square(le@, n as int),
                    square(lt@, n as int),
                    forall|r: int, c: int|
                        0 <= r < n && 0 <= c < n ==> #[trigger] lt@[r]@[c] == (before[r]@[c] || (r < i
                            && le@[r]@[a as int] && le@[b as int]@[c])),
                decreases n - i,
            {
                if le[i][a] {
                    let mut j: usize = 0;
                    while j < n
                        invariant
                            i < n,
                            j <= n,
                            a < n,
                            b < n,
                            square(le@, n as int),
                            square(lt@, n as int),
                            le@[i as int]@[a as int],
                            forall|r: int, c: int|
                                0 <= r < n && 0 <= c < n ==> #[trigger] lt@[r]@[c] == (before[r]@[c] || ((r < i
                                    || (r == i && c < j)) && le@[r]@[a as int] && le@[b as int]@[c])),
                        decreases n - j,
                    {
                        if le[b][j] {
                            lt[i].set(j, true);
                        }
                        j += 1;
                    }
                }
                i += 1;
            }
        }
        proof {
            assert forall|i: int, j: int| 0 <= i < n && 0 <= j < n implies #[trigger] lt@[i]@[j] == strict_between(
                le@,
                edges@,
                rep@,
                e + 1,
                i,
                j,
            ) by {
                assert(before[i]@[j] == strict_between(le@, edges@, rep@, e as int, i, j));
                if lt@[i]@[j] && !before[i]@[j] {
                    assert(on_the_way(le@, edges@, rep@, e as int, i, j));
                }
                if before[i]@[j] {
                    let d = choose|d: int| 0 <= d < e && on_the_way(le@, edges@, rep@, d, i, j);
                    assert(on_the_way(le@, edges@, rep@, d, i, j));
                }
            }
        }
        e += 1;
    }
    lt
}

/// A square matrix of `false`, `n` wide.
fn blank(n: usize) -> (m: Vec<Vec<bool>>)
    ensures
        square(m@, n as int),
        forall|i: int, j: int| 0 <= i < n && 0 <= j < n ==> !(#[trigger] m@[i]@[j]),
{
    let mut m: Vec<Vec<bool>> = Vec::new();
    let mut i: usize = 0;
    while i < n
        invariant
            i <= n,
            m@.len() == i,
            forall|r: int| 0 <= r < i ==> (#[trigger] m@[r])@.len() == n,
            forall|r: int, c: int| 0 <= r < i && 0 <= c < n ==> !(#[trigger] m@[r]@[c]),
        decreases n - i,
    {
        let mut row: Vec<bool> = Vec::new();
        let mut j: usize = 0;
        while j < n
            invariant
                j <= n,
                row@.len() == j,
                forall|c: int| 0 <= c < j ==> !(#[trigger] row@[c]),
            decreases n - j,
        {
            row.push(false);
            j += 1;
        }
        m.push(row);
        i += 1;
    }
    m
}

/// Each representative stands before itself, and the ends of each edge stand in
/// its order.
spec fn orders_hold(le: Seq<Vec<bool>>, edges: Seq<(usize, usize, bool)>, rep: Seq<usize>) -> bool {
    &&& forall|r: int| 0 <= r < rep.len() ==> (#[trigger] le[rep[r] as int]@[rep[r] as int])
    &&& forall|d: int|
        0 <= d < edges.len() ==> {
            let t = #[trigger] edges[d];
            le[rep[t.0 as int] as int]@[rep[t.1 as int] as int]
        }
}

/// Closes an order over the ways through any of the points.
fn saturate(
    le: &mut Vec<Vec<bool>>,
    rep: &Vec<usize>,
    n: usize,
    Ghost(hs): Ghost<Set<Hop>>,
    Ghost(points): Ghost<Seq<PointKey>>,
    Ghost(edges): Ghost<Seq<(usize, usize, bool)>>,
)
    requires
        square(old(le)@, n as int),
        points.len() == n,
        rep@.len() == n,
        forall|r: int| 0 <= r < n ==> #[trigger] rep@[r] < n,
        forall|d: int| 0 <= d < edges.len() ==> (#[trigger] edges[d]).0 < n && edges[d].1 < n,
        sound_order(hs, points, old(le)@),
        orders_hold(old(le)@, edges, rep@),
    ensures
        square(final(le)@, n as int),
        sound_order(hs, points, final(le)@),
        orders_hold(final(le)@, edges, rep@),
        transitive(final(le)@, n as int, n as int),
{
    let mut k: usize = 0;
    while k < n
        invariant
            k <= n,
            n == points.len(),
            rep@.len() == n,
            square(le@, n as int),
            sound_order(hs, points, le@),
            forall|r: int| 0 <= r < n ==> #[trigger] rep@[r] < n,
            forall|d: int| 0 <= d < edges.len() ==> (#[trigger] edges[d]).0 < n && edges[d].1 < n,
            orders_hold(le@, edges, rep@),
            transitive(le@, n as int, k as int),
        decreases n - k,
    {
        let ghost le1 = le@;
        close_through(le, n, k, Ghost(hs), Ghost(points));
        proof {
            assert forall|r: int| 0 <= r < n implies (#[trigger] le@[rep@[r] as int]@[rep@[r] as int]) by {
                assert(le1[rep@[r] as int]@[rep@[r] as int]);
            }
            assert forall|d: int| 0 <= d < edges.len() implies {
                let t = #[trigger] edges[d];
                le@[rep@[t.0 as int] as int]@[rep@[t.1 as int] as int]
            } by {
                let t = edges[d];
                assert(rep@[t.0 as int] < n && rep@[t.1 as int] < n);
                assert(le1[rep@[t.0 as int] as int]@[rep@[t.1 as int] as int]);
            }
        }
        k += 1;
    }
}

/// Whether no point stands before itself.
fn loop_free(lt: &Vec<Vec<bool>>, n: usize) -> (ok: bool)
    requires
        square(lt@, n as int),
    ensures
        ok == no_loop(lt@, n as int),
{
    let mut ok: bool = true;
    let mut i: usize = 0;
    while i < n
        invariant
            i <= n,
            square(lt@, n as int),
            ok <==> forall|r: int| 0 <= r < i ==> !(#[trigger] lt@[r]@[r]),
        decreases n - i,
    {
        if lt[i][i] {
            ok = false;
        }
        i += 1;
    }
    ok
}

impl TemporalNet {
    /// The closure has been computed and is up to date.
    pub closed spec fn is_closed(&self) -> bool {
        self.closed
    }

    /// A node and the representative of its class reach each other.
    proof fn lemma_class_reach(&self, i: int)
        requires
            self.base_wf(),
            0 <= i < self.points@.len(),
        ensures
            0 <= self.class@[i] < self.points@.len(),
            reach(hops(self.log@), self.points@[i], self.points@[self.class@[i]]),
            reach(hops(self.log@), self.points@[self.class@[i]], self.points@[i]),
            reach(eq_hops(self.log@), self.points@[self.class@[i]], self.points@[i]),
    {
        assert(rooted(self.parent@, self.class@, self.rank@, i));
        let a = self.points@[i];
        let b = self.points@[self.class@[i]];
        lemma_eq_hops_sub(self.log@);
        lemma_eq_symmetric(self.log@, a, b);
        lemma_reach_mono(eq_hops(self.log@), hops(self.log@), a, b);
        lemma_reach_mono(eq_hops(self.log@), hops(self.log@), b, a);
    }

    /// The representatives of an edge's ends are in the order of the edge.
    proof fn lemma_edge_reach(&self, e: int)
        requires
            self.base_wf(),
            0 <= e < self.edges@.len(),
        ensures
            self.edges@[e].0 < self.points@.len(),
            self.edges@[e].1 < self.points@.len(),
            reach(
                hops(self.log@),
                self.points@[self.class@[self.edges@[e].0 as int]],
                self.points@[self.class@[self.edges@[e].1 as int]],
            ),
            self.edges@[e].2 ==> reach_strict(
                hops(self.log@),
                self.points@[self.class@[self.edges@[e].0 as int]],
                self.points@[self.class@[self.edges@[e].1 as int]],
            ),
    {
        let hs = hops(self.log@);
        let t = self.edges@[e];
        assert(backed(self.points@, self.log@, self.edges@[e]));
        let s = choose|s: Option<SentenceId>| #[trigger]
            hs.contains(
                Hop { from: self.points@[t.0 as int], to: self.points@[t.1 as int], strict: t.2, sid: s },
            );
        let h = Hop { from: self.points@[t.0 as int], to: self.points@[t.1 as int], strict: t.2, sid: s };
        lemma_hop_reach(hs, h);
        self.lemma_class_reach(t.0 as int);
        self.lemma_class_reach(t.1 as int);
        let (a, b) = (self.points@[self.class@[t.0 as int]], self.points@[self.class@[t.1 as int]]);
        lemma_reach_trans(hs, a, h.from, h.to);
        lemma_reach_trans(hs, a, h.to, b);
    }

    /// The order and the strict order found by the closure are what the
    /// constraints say.
    proof fn lemma_orders(&self, le: Seq<Vec<bool>>, lt: Seq<Vec<bool>>, rep: Seq<usize>)
        requires
            self.base_wf(),
            square(le, self.points@.len() as int),
            square(lt, self.points@.len() as int),
            rep.len() == self.points@.len(),
            forall|r: int|
                0 <= r < rep.len() ==> #[trigger] rep[r] == self.class@[r] && rep[r] < self.points@.len(),
            sound_order(hops(self.log@), self.points@, le),
            forall|r: int| 0 <= r < rep.len() ==> (#[trigger] le[rep[r] as int]@[rep[r] as int]),
            forall|d: int|
                0 <= d < self.edges@.len() ==> {
                    let t = #[trigger] self.edges@[d];
                    le[rep[t.0 as int] as int]@[rep[t.1 as int] as int]
                },
            transitive(le, self.points@.len() as int, self.points@.len() as int),
            forall|i: int, j: int|
                0 <= i < self.points@.len() && 0 <= j < self.points@.len() ==> #[trigger] lt[i]@[j]
                    == strict_between(le, self.edges@, rep, self.edges@.len() as int, i, j),
        ensures
            sound(hops(self.log@), self.points@, le, lt),
            covers(self.class@, self.edges@, le, lt),
            composes(le, lt, self.points@.len() as int),
    {
        let n = self.points@.len() as int;
        let hs = hops(self.log@);
        let points = self.points@;
        let class = self.class@;
        let edges = self.edges@;
        assert forall|d: int| 0 <= d < edges.len() implies (#[trigger] edges[d]).0 < n && edges[d].1 < n by {
            assert(backed(points, self.log@, edges[d]));
        }
        let m = edges.len() as int;
        assert forall|i: int, j: int| 0 <= i < n && 0 <= j < n && #[trigger] lt[i]@[j] implies reach_strict(
            hs,
            points[i],
            points[j],
        ) && le[i]@[j] by {
            assert(strict_between(le, edges, rep, m, i, j));
            let e = choose|e: int| 0 <= e < m && on_the_way(le, edges, rep, e, i, j);
            let (a, b) = (rep[edges[e].0 as int] as int, rep[edges[e].1 as int] as int);
            self.lemma_edge_reach(e);
            assert(le[i]@[a] && le[a]@[b] && le[b]@[j]);
            assert(le[i]@[b]);
            lemma_reach_trans(hs, points[i], points[a], points[b]);
            lemma_reach_trans(hs, points[i], points[b], points[j]);
        }
        assert(covers(class, edges, le, lt)) by {
            assert forall|i: int| 0 <= i < class.len() implies (#[trigger] le[class[i]]@[class[i]]) by {
                assert(rep[i] == class[i]);
                assert(le[rep[i] as int]@[rep[i] as int]);
            }
            assert forall|d: int| 0 <= d < edges.len() implies {
                let t = #[trigger] edges[d];
                le[class[t.0 as int]]@[class[t.1 as int]] && (t.2
                    ==> lt[class[t.0 as int]]@[class[t.1 as int]])
            } by {
                let t = edges[d];
                assert(rep[t.0 as int] == class[t.0 as int] && rep[t.1 as int] == class[t.1 as int]);
                assert(le[rep[t.0 as int] as int]@[rep[t.0 as int] as int]);
                assert(le[rep[t.1 as int] as int]@[rep[t.1 as int] as int]);
                if t.2 {
                    assert(on_the_way(le, edges, rep, d, class[t.0 as int], class[t.1 as int]));
                    assert(strict_between(le, edges, rep, m, class[t.0 as int], class[t.1 as int]));
                }
            }
        }
        assert(composes(le, lt, n)) by {
            assert forall|i: int, q: int, j: int|
                #![trigger le[i]@[q], le[q]@[j]]
                0 <= i < n && 0 <= q < n && 0 <= j < n && le[i]@[q] && le[q]@[j] && (lt[i]@[q]
                    || lt[q]@[j]) implies lt[i]@[j] by {
                if lt[i]@[q] {
                    assert(strict_between(le, edges, rep, m, i, q));
                    let e = choose|e: int| 0 <= e < m && on_the_way(le, edges, rep, e, i, q);
                    let b = rep[edges[e].1 as int] as int;
                    assert(le[b]@[q] && le[q]@[j]);
                    assert(on_the_way(le, edges, rep, e, i, j));
                } else {
                    assert(strict_between(le, edges, rep, m, q, j));
                    let e = choose|e: int| 0 <= e < m && on_the_way(le, edges, rep, e, q, j);
                    let a = rep[edges[e].0 as int] as int;
                    assert(le[i]@[q] && le[q]@[a]);
                    assert(on_the_way(le, edges, rep, e, i, j));
                }
                assert(strict_between(le, edges, rep, m, i, j));
            }
        }
    }

    /// The representative of each point.
    fn representatives(&mut self) -> (rep: Vec<usize>)
        requires
            old(self).base_wf(),
        ensures
            final(self).base_wf(),
            *final(self) == (TemporalNet { parent: final(self).parent, ..*old(self) }),
            rep@.len() == old(self).points@.len(),
            forall|r: int|
                0 <= r < rep@.len() ==> #[trigger] rep@[r] == old(self).class@[r] && rep@[r]
                    < old(self).points@.len(),
    {
        let n: usize = self.parent.len();
        let mut rep: Vec<usize> = Vec::new();
        let mut i: usize = 0;
        while i < n
            invariant
                i <= n,
                n == old(self).points@.len(),
                self.base_wf(),
                *self == (TemporalNet { parent: self.parent, ..*old(self) }),
                rep@.len() == i,
                forall|r: int| 0 <= r < i ==> #[trigger] rep@[r] == old(self).class@[r] && rep@[r] < n,
            decreases n - i,
        {
            let r: usize = self.find(i);
            rep.push(r);
            i += 1;
        }
        rep
    }

    /// Every edge ends at points of the network.
    proof fn lemma_edge_ends(&self)
        requires
            self.base_wf(),
        ensures
            forall|d: int|
                0 <= d < self.edges@.len() ==> (#[trigger] self.edges@[d]).0 < self.points@.len() && self.edges@[d].1
                    < self.points@.len(),
    {
        assert forall|d: int| 0 <= d < self.edges@.len() implies (#[trigger] self.edges@[d]).0 < self.points@.len()
            && self.edges@[d].1 < self.points@.len() by {
            assert(backed(self.points@, self.log@, self.edges@[d]));
        }
    }

    /// The order that the edges state between representatives.
    fn stated_order(&self, rep: &Vec<usize>) -> (le: Vec<Vec<bool>>)
        requires
            self.base_wf(),
            rep@.len() == self.points@.len(),
            forall|r: int|
                0 <= r < rep@.len() ==> #[trigger] rep@[r] == self.class@[r] && rep@[r] < self.points@.len(),
        ensures
            square(le@, self.points@.len() as int),
            sound_order(hops(self.log@), self.points@, le@),
            orders_hold(le@, self.edges@, rep@),
    {
        let n: usize = rep.len();
        let ghost hs = hops(self.log@);
        let ghost points = self.points@;
        let ghost edges = self.edges@;
        let mut le: Vec<Vec<bool>> = blank(n);
        let mut i: usize = 0;
        while i < n
            invariant
                i <= n,
                n == points.len(),
                square(le@, n as int),
                rep@.len() == n,
                forall|r: int| 0 <= r < n ==> #[trigger] rep@[r] < n,
                sound_order(hs, points, le@),
                forall|r: int| 0 <= r < i ==> (#[trigger] le@[rep@[r] as int]@[rep@[r] as int]),
            decreases n - i,
        {
            let r: usize = rep[i];
            proof {
                lemma_reach_refl(hs, points[r as int]);
            }
            le[r].set(r, true);
            i += 1;
        }
        proof {
            self.lemma_edge_ends();
        }
        let mut e: usize = 0;
        while e < self.edges.len()
            invariant
                e <= edges.len(),
                edges == self.edges@,
                n == points.len(),
                hs == hops(self.log@),
                points == self.points@,
                self.base_wf(),
                square(le@, n as int),
                rep@.len() == n,
                forall|r: int| 0 <= r < n ==> #[trigger] rep@[r] == self.class@[r] && rep@[r] < n,
                forall|d: int|
                    0 <= d < edges.len() ==> (#[trigger] edges[d]).0 < n && edges[d].1 < n,
                sound_order(hs, points, le@),
                forall|r: int| 0 <= r < n ==> (#[trigger] le@[rep@[r] as int]@[rep@[r] as int]),
                forall|d: int|
                    0 <= d < e ==> {
                        let t = #[trigger] edges[d];
                        le@[rep@[t.0 as int] as int]@[rep@[t.1 as int] as int]
                    },
            decreases edges.len() - e,
        {
            let t: (usize, usize, bool) = self.edges[e];
            assert(edges[e as int].0 < n && edges[e as int].1 < n);
            let a: usize = rep[t.0];
            let b: usize = rep[t.1];
            proof {
                self.lemma_edge_reach(e as int);
            }
            let ghost le1 = le@;
            le[a].set(b, true);
            proof {
                assert forall|d: int| 0 <= d < e + 1 implies {
                    let u = #[trigger] edges[d];
                    le@[rep@[u.0 as int] as int]@[rep@[u.1 as int] as int]
                } by {
                    let u = edges[d];
                    if d < e {
                        assert(le1[rep@[u.0 as int] as int]@[rep@[u.1 as int] as int]);
                    }
                }
            }
            e += 1;
        }
        le
    }

    /// The closed order, the closed strict order, and whether no point stands
    /// before itself.
    fn closed_orders(&self, rep: &Vec<usize>) -> (r: (Vec<Vec<bool>>, Vec<Vec<bool>>, bool))
        requires
            self.base_wf(),
            rep@.len() == self.points@.len(),
            forall|r: int|
                0 <= r < rep@.len() ==> #[trigger] rep@[r] == self.class@[r] && rep@[r] < self.points@.len(),
        ensures
            self.closed_by(r.0@, r.1@, r.2),
    {
        let n: usize = rep.len();
        let mut le: Vec<Vec<bool>> = self.stated_order(rep);
        proof {
            self.lemma_edge_ends();
        }
        saturate(&mut le, rep, n, Ghost(hops(self.log@)), Ghost(self.points@), Ghost(self.edges@));
        let lt: Vec<Vec<bool>> = strict_orders(&le, &self.edges, rep, n);
        proof {
            self.lemma_orders(le@, lt@, rep@);
        }
        let ok: bool = loop_free(&lt, n);
        (le, lt, ok)
    }

    /// A network that takes in its closure is well formed.
    proof fn lemma_installed(&self, m: TemporalNet)
        requires
            self.base_wf(),
            forall|k: PointKey| #[trigger] self.points@.contains(k) ==> known(self.log@, k),
            m == (TemporalNet { le: m.le, lt: m.lt, consistent: m.consistent, closed: true, ..*self }),
            self.closed_by(m.le@, m.lt@, m.consistent),
        ensures
            m.wf(),
            m.is_closed(),
            m@ == self@,
    {
    }

    /// Computes the transitive closure over the equality classes.
    pub fn close(&mut self)
        requires
            old(self).wf(),
        ensures
            final(self).wf(),
            final(self).is_closed(),
            final(self)@ == old(self)@,
    {
        let rep: Vec<usize> = self.representatives();
        let (le, lt, ok): (Vec<Vec<bool>>, Vec<Vec<bool>>, bool) = self.closed_orders(&rep);
        let ghost before = *self;
        self.consistent = ok;
        self.le = le;
        self.lt = lt;
        self.closed = true;
        proof {
            before.lemma_installed(*self);
        }
    }

    /// Computes the closure unless it is up to date.
    fn ensure_closed(&mut self)
        requires
            old(self).wf(),
        ensures
            final(self).wf(),
            final(self).is_closed(),
            final(self)@ == old(self)@,
    {
        if !self.closed {
            self.close();
        }
    }

    /// Every path between two points shows in the closure.
    proof fn lemma_complete(&self, p: Seq<Hop>, i: int, j: int)
        requires
            self.wf(),
            self.is_closed(),
            0 <= i < self.points@.len(),
            0 <= j < self.points@.len(),
            is_path(hops(self.log@), p, self.points@[i], self.points@[j]),
        ensures
            self.le@[self.class@[i]]@[self.class@[j]],
            crosses(p) ==> self.lt@[self.class@[i]]@[self.class@[j]],
        decreases p.len(),
    {
        assert(rooted(self.parent@, self.class@, self.rank@, i));
        assert(rooted(self.parent@, self.class@, self.rank@, j));
        if p.len() == 0 {
            assert(i == j);
        } else {
            let h = p.last();
            lemma_hop_known(self.log@, h);
            let m = self.points@.index_of(h.from);
            assert(self.points@[m] == h.from);
            assert(rooted(self.parent@, self.class@, self.rank@, m));
            self.lemma_complete(p.drop_last(), i, m);
            let (ci, cm, cj) = (self.class@[i], self.class@[m], self.class@[j]);
            assert(hops(self.log@).contains(
                Hop { from: self.points@[m], to: self.points@[j], strict: h.strict, sid: h.sid },
            ));
            assert(self.points.len() == self.points@.len());
            let t = (m as usize, j as usize, h.strict);
            if self.edges@.contains(t) {
                let e = self.edges@.index_of(t);
                assert(self.edges@[e] == t);
            } else {
                assert(!h.strict) by {
                    let i = choose|i: int|
                        0 <= i < self.log@.len() && (#[trigger] self.log@[i]).rel == Order::Eq && gives(
                            self.log@[i],
                            h,
                        );
                }
                assert(cm == cj);
            }
            assert(self.le@[ci]@[cm] && self.le@[cm]@[cj]);
        }
    }

    /// Points of one class are exactly those that equality constraints join.
    proof fn lemma_same_class(&self, p: Seq<Hop>, i: int, j: int)
        requires
            self.base_wf(),
            0 <= i < self.points@.len(),
            0 <= j < self.points@.len(),
            is_path(eq_hops(self.log@), p, self.points@[i], self.points@[j]),
        ensures
            self.class@[i] == self.class@[j],
        decreases p.len(),
    {
        if p.len() == 0 {
            assert(i == j);
        } else {
            let h = p.last();
            lemma_eq_hops_sub(self.log@);
            lemma_hop_known(self.log@, h);
            let m = self.points@.index_of(h.from);
            assert(self.points@[m] == h.from);
            self.lemma_same_class(p.drop_last(), i, m);
            let c = choose|i: int|
                0 <= i < self.log@.len() && (#[trigger] self.log@[i]).rel == Order::Eq && gives(
                    self.log@[i],
                    h,
                );
            assert(eq_hops(self.log@).contains(
                Hop { from: self.points@[m], to: self.points@[j], strict: false, sid: h.sid },
            ));
        }
    }

    /// Whether the constraints can be satisfied: no point comes strictly
    /// before itself.
    pub fn consistent(&mut self) -> (r: bool)
        requires
            old(self).wf(),
        ensures
            final(self).wf(),
            final(self)@ == old(self)@,
            r == acyclic(old(self)@),
    {
        self.ensure_closed();
        proof {
            let hs = hops(self.log@);
            let n = self.points@.len() as int;
            if self.consistent {
                assert forall|k: PointKey| !#[trigger] reach_strict(hs, k, k) by {
                    if reach_strict(hs, k, k) {
                        let p = choose|p: Seq<Hop>| is_path(hs, p, k, k) && crosses(p);
                        assert(p.len() > 0);
                        lemma_hop_known(self.log@, p.last());
                        let i = self.points@.index_of(k);
                        assert(self.points@[i] == k);
                        self.lemma_complete(p, i, i);
                        assert(rooted(self.parent@, self.class@, self.rank@, i));
                    }
                }
            } else {
                let i = choose|i: int| 0 <= i < n && (#[trigger] self.lt@[i]@[i]);
                assert(reach_strict(hs, self.points@[i], self.points@[i]));
            }
        }
        self.consistent
    }

    /// Whether the order `a rel b` follows from the constraints.
    pub fn entails(&mut self, a: PointKey, b: PointKey, rel: Order) -> (r: bool)
        requires
            old(self).wf(),
        ensures
            final(self).wf(),
            final(self)@ == old(self)@,
            r == entailed(old(self)@, a, b, rel),
    {
        self.ensure_closed();
        let na: usize = match self.lookup(a) {
            Some(n) => n,
            None => {
                return false;
            },
        };
        let nb: usize = match self.lookup(b) {
            Some(n) => n,
            None => {
                return false;
            },
        };
        let ra: usize = self.find_imm(na);
        let rb: usize = self.find_imm(nb);
        proof {
            let hs = hops(self.log@);
            let es = eq_hops(self.log@);
            assert(self.points@.contains(a));
            assert(self.points@.contains(b));
            self.lemma_class_reach(na as int);
            self.lemma_class_reach(nb as int);
            let pa = self.points@[ra as int];
            let pb = self.points@[rb as int];
            if self.le@[ra as int]@[rb as int] {
                lemma_reach_trans(hs, a, pa, pb);
                lemma_reach_trans(hs, a, pb, b);
            }
            if reach(hs, a, b) {
                let p = choose|p: Seq<Hop>| is_path(hs, p, a, b);
                self.lemma_complete(p, na as int, nb as int);
            }
            if ra == rb {
                lemma_reach_trans(es, a, pa, b);
            }
            if reach(es, a, b) {
                let p = choose|p: Seq<Hop>| is_path(es, p, a, b);
                self.lemma_same_class(p, na as int, nb as int);
            }
            if reach_strict(hs, a, b) {
                let p = choose|p: Seq<Hop>| is_path(hs, p, a, b) && crosses(p);
                self.lemma_complete(p, na as int, nb as int);
            }
        }
        match rel {
            Order::Eq => ra == rb,
            Order::Le => self.le[ra][rb],
            Order::Lt => self.lt[ra][rb],
        }
    }
}

// ---------------------------------------------------------------------------
// Witnesses
// ---------------------------------------------------------------------------

/// A state of the search for a path: a node, whether a strict step has been
/// crossed, and the step by which the state was reached.
struct Visit {
    node: usize,
    crossed: bool,
    prev: usize,
    strict: bool,
    sid: Option<SentenceId>,
}

/// The steps by which visit `k` was reached.
spec fn trail(points: Seq<PointKey>, vs: Seq<Visit>, k: int) -> Seq<Hop>
    decreases k,
{
    if 0 < k && vs[k].prev < k {
        let v = vs[k];
        trail(points, vs, v.prev as int).push(
            Hop {
                from: points[vs[v.prev as int].node as int],
                to: points[v.node as int],
                strict: v.strict,
                sid: v.sid,
            },
        )
    } else {
        Seq::empty()
    }
}

/// Visit `k` stands for a path from `a`.
spec fn arrived(points: Seq<PointKey>, hs: Set<Hop>, a: PointKey, vs: Seq<Visit>, k: int) -> bool {
    let v = vs[k];
    &&& v.node < points.len()
    &&& k > 0 ==> v.prev < k
    &&& is_path(hs, trail(points, vs, k), a, points[v.node as int])
    &&& crosses(trail(points, vs, k)) == v.crossed
}

/// The visits hold the state `(to, crossed)`, reached in at most `len` steps.
spec fn holds_state(points: Seq<PointKey>, vs: Seq<Visit>, to: PointKey, crossed: bool, len: nat) -> bool {
    exists|l: int|
        0 <= l < vs.len() && points[(#[trigger] vs[l]).node as int] == to && vs[l].crossed == crossed
            && trail(points, vs, l).len() <= len
}

/// Every step that leaves visit `k` leads to a visit.
spec fn settled(points: Seq<PointKey>, hs: Set<Hop>, vs: Seq<Visit>, k: int) -> bool {
    forall|h: Hop| #[trigger]
        hs.contains(h) && h.from == points[vs[k].node as int] ==> holds_state(
            points,
            vs,
            h.to,
            vs[k].crossed || h.strict,
            trail(points, vs, k).len() + 1,
        )
}

proof fn lemma_trail_prefix(points: Seq<PointKey>, vs: Seq<Visit>, ws: Seq<Visit>, k: int)
    requires
        0 <= k < vs.len() <= ws.len(),
        forall|i: int| 0 <= i < vs.len() ==> ws[i] == vs[i],
    ensures
        trail(points, ws, k) == trail(points, vs, k),
    decreases k,
{
    if 0 < k && vs[k].prev < k {
        lemma_trail_prefix(points, vs, ws, vs[k].prev as int);
    }
}

/// What holds of the visits while the search is at visit `h`.
spec fn searching(
    points: Seq<PointKey>,
    hs: Set<Hop>,
    a: PointKey,
    vs: Seq<Visit>,
    h: int,
) -> bool {
    &&& 0 < vs.len()
    &&& 0 <= h <= vs.len()
    &&& !vs[0].crossed
    &&& points[vs[0].node as int] == a
    &&& forall|k: int| 0 <= k < vs.len() ==> #[trigger] arrived(points, hs, a, vs, k)
    &&& forall|k: int, l: int|
        #![trigger vs[k], vs[l]]
        0 <= k < l < vs.len() ==> vs[k].node != vs[l].node || vs[k].crossed != vs[l].crossed
    &&& forall|k: int, l: int|
        #![trigger trail(points, vs, k), trail(points, vs, l)]
        0 <= k < l < vs.len() ==> trail(points, vs, k).len() <= trail(points, vs, l).len()
    &&& forall|l: int|
        0 <= l < vs.len() && h < vs.len() ==> (#[trigger] trail(points, vs, l)).len() <= trail(
            points,
            vs,
            h,
        ).len() + 1
    &&& forall|k: int| 0 <= k < h ==> #[trigger] settled(points, hs, vs, k)
}

proof fn lemma_visits_bounded(points: Seq<PointKey>, hs: Set<Hop>, a: PointKey, vs: Seq<Visit>, h: int)
    requires
        searching(points, hs, a, vs, h),
    ensures
        vs.len() <= 2 * points.len(),
{
    let code = Seq::new(
        vs.len(),
        |k: int| 2 * (vs[k].node as int) + if vs[k].crossed { 1int } else { 0int },
    );
    assert(code.no_duplicates()) by {
        assert forall|k: int, l: int| 0 <= k < l < vs.len() implies code[k] != code[l] by {
            let (x, y) = (vs[k], vs[l]);
            assert(x.node != y.node || x.crossed != y.crossed);
        }
    }
    assert forall|k: int| 0 <= k < code.len() implies 0 <= #[trigger] code[k] < 2 * points.len() by {
        assert(arrived(points, hs, a, vs, k));
    }
    lemma_distinct_below(code, 2 * points.len() as int);
}

/// A path no longer than the current depth ends in a state already visited.
proof fn lemma_search_reaches(
    points: Seq<PointKey>,
    hs: Set<Hop>,
    a: PointKey,
    b: PointKey,
    vs: Seq<Visit>,
    h: int,
    p: Seq<Hop>,
)
    requires
        searching(points, hs, a, vs, h),
        is_path(hs, p, a, b),
        h < vs.len() ==> p.len() <= trail(points, vs, h).len(),
    ensures
        holds_state(points, vs, b, crosses(p), p.len()),
    decreases p.len(),
{
    if p.len() == 0 {
        assert(trail(points, vs, 0).len() == 0);
        assert(points[vs[0].node as int] == b);
    } else {
        let g = p.last();
        let q = p.drop_last();
        lemma_search_reaches(points, hs, a, g.from, vs, h, q);
        let k = choose|l: int|
            0 <= l < vs.len() && points[(#[trigger] vs[l]).node as int] == g.from && vs[l].crossed
                == crosses(q) && trail(points, vs, l).len() <= q.len();
        assert(k < h) by {
            if h <= k {
                if h < k {
                    assert(trail(points, vs, h).len() <= trail(points, vs, k).len());
                }
            }
        }
        assert(settled(points, hs, vs, k));
        let l = choose|l: int|
            0 <= l < vs.len() && points[(#[trigger] vs[l]).node as int] == g.to && vs[l].crossed == (
            vs[k].crossed || g.strict) && trail(points, vs, l).len() <= trail(points, vs, k).len() + 1;
        assert(vs[l].crossed == crosses(p));
    }
}

/// The sentences cited along a shortest path from `a` to `b`, a strict one if
/// `need_strict`; nothing where there is no such path.
pub open spec fn is_witness(
    cs: Seq<Constraint>,
    a: PointKey,
    b: PointKey,
    need_strict: bool,
    sids: Seq<SentenceId>,
) -> bool {
    ||| exists|p: Seq<Hop>|
        is_shortest(hops(cs), p, a, b, need_strict) && sids == #[trigger] cited(p)
    ||| sids.len() == 0 && !linked(hops(cs), a, b, need_strict)
}

/// There is a path from `a` to `b`, a strict one if `need_strict`.
pub open spec fn linked(hs: Set<Hop>, a: PointKey, b: PointKey, need_strict: bool) -> bool {
    if need_strict {
        reach_strict(hs, a, b)
    } else {
        reach(hs, a, b)
    }
}

proof fn lemma_linked(hs: Set<Hop>, a: PointKey, b: PointKey, need_strict: bool) -> (p: Seq<Hop>)
    requires
        linked(hs, a, b, need_strict),
    ensures
        is_path(hs, p, a, b),
        need_strict ==> crosses(p),
{
    if need_strict {
        choose|p: Seq<Hop>| is_path(hs, p, a, b) && crosses(p)
    } else {
        choose|p: Seq<Hop>| is_path(hs, p, a, b)
    }
}

/// `p` is a shortest path from `a` to `b`, among the strict ones if
/// `need_strict`.
pub open spec fn is_shortest(hs: Set<Hop>, p: Seq<Hop>, a: PointKey, b: PointKey, need_strict: bool) -> bool {
    &&& is_path(hs, p, a, b)
    &&& need_strict ==> crosses(p)
    &&& forall|q: Seq<Hop>| #[trigger] is_path(hs, q, a, b) && (need_strict ==> crosses(q)) ==> p.len() <= q.len()
}

impl TemporalNet {
    /// The sentences along the way to visit `k`, last step first.
    fn collect(vs: &Vec<Visit>, k: usize, Ghost(points): Ghost<Seq<PointKey>>) -> (sids: Vec<SentenceId>)
        requires
            k < vs@.len(),
            forall|i: int| 0 < i < vs@.len() ==> (#[trigger] vs@[i]).prev < i,
        ensures
            sids@ == cited(trail(points, vs@, k as int)),
    {
        let mut sids: Vec<SentenceId> = Vec::new();
        let mut cur: usize = k;
        let ghost whole = cited(trail(points, vs@, k as int));
        while cur != 0
            invariant
                cur < vs@.len(),
                forall|i: int| 0 < i < vs@.len() ==> (#[trigger] vs@[i]).prev < i,
                whole == sids@ + cited(trail(points, vs@, cur as int)),
            decreases cur,
        {
            let ghost t = trail(points, vs@, cur as int);
            let prev: usize = vs[cur].prev;
            proof {
                assert(t.drop_last() =~= trail(points, vs@, prev as int));
            }
            match vs[cur].sid {
                Some(s) => {
                    let ghost rest = cited(trail(points, vs@, prev as int));
                    assert(sids@ + (seq![s] + rest) =~= sids@.push(s) + rest);
                    sids.push(s);
                },
                None => {},
            }
            cur = prev;
        }
        assert(sids@ + Seq::<SentenceId>::empty() =~= sids@);
        sids
    }

    /// A breadth-first search for a path from `a` to `b` that crosses a strict
    /// step if `need_strict`: the sentences cited along the path found.
    fn path_witness(&self, a: PointKey, b: PointKey, need_strict: bool) -> (sids: Vec<SentenceId>)
        requires
            self.wf(),
        ensures
            is_witness(self@, a, b, need_strict, sids@),
    {
        let ghost hs = hops(self.log@);
        let ghost points = self.points@;
        if a == b && !need_strict {
            proof {
                let p = Seq::<Hop>::empty();
                assert(is_shortest(hs, p, a, b, need_strict));
                assert(cited(p) =~= Seq::empty());
            }
            return Vec::new();
        }
        let start: usize = match self.lookup(a) {
            Some(n) => n,
            None => {
                proof {
                    if linked(hs, a, b, need_strict) {
                        let p = lemma_linked(hs, a, b, need_strict);
                        lemma_path_start_known(self.log@, p, a, b);
                    }
                }
                return Vec::new();
            },
        };
        let mut vs: Vec<Visit> = Vec::new();
        vs.push(Visit { node: start, crossed: false, prev: 0, strict: false, sid: None });
        proof {
            assert(trail(points, vs@, 0) =~= Seq::empty());
            assert(arrived(points, hs, a, vs@, 0));
        }
        let mut h: usize = 0;
        while h < vs.len()
            invariant
                self.wf(),
                hs == hops(self.log@),
                points == self.points@,
                searching(points, hs, a, vs@, h as int),
                a != b || need_strict,
                forall|k: int|
                    0 <= k < h ==> points[(#[trigger] vs@[k]).node as int] != b || (need_strict
                        && !vs@[k].crossed),
            decreases 2 * points.len() - h,
        {
            let node: usize = vs[h].node;
            let crossed: bool = vs[h].crossed;
            assert(arrived(points, hs, a, vs@, h as int));
            if self.points[node] == b && (crossed || !need_strict) {
                proof {
                    let p = trail(points, vs@, h as int);
                    assert forall|q: Seq<Hop>| #[trigger] is_path(hs, q, a, b) && (need_strict ==> crosses(
                        q,
                    )) implies p.len() <= q.len() by {
                        if q.len() < p.len() {
                            lemma_search_reaches(points, hs, a, b, vs@, h as int, q);
                            let l = choose|l: int|
                                0 <= l < vs@.len() && points[(#[trigger] vs@[l]).node as int] == b
                                    && vs@[l].crossed == crosses(q) && trail(points, vs@, l).len() <= q.len();
                            if h < l {
                                assert(trail(points, vs@, h as int).len() <= trail(points, vs@, l).len());
                            }
                        }
                    }
                    assert(is_shortest(hs, p, a, b, need_strict));
                    assert forall|i: int| 0 < i < vs@.len() implies (#[trigger] vs@[i]).prev < i by {
                        assert(arrived(points, hs, a, vs@, i));
                    }
                }
                return Self::collect(&vs, h, Ghost(points));
            }
            let mut j: usize = 0;
            while j < self.wadj[node].len()
                invariant
                    self.wf(),
                    hs == hops(self.log@),
                    points == self.points@,
                    j <= self.wadj@[node as int]@.len(),
                    h < vs@.len(),
                    node == vs@[h as int].node,
                    crossed == vs@[h as int].crossed,
                    node < points.len(),
                    searching(points, hs, a, vs@, h as int),
                    forall|k: int|
                        0 <= k <= h ==> points[(#[trigger] vs@[k]).node as int] != b || (need_strict
                            && !vs@[k].crossed),
                    forall|i: int|
                        0 <= i < j ==> {
                            let e = #[trigger] self.wadj@[node as int]@[i];
                            holds_state(
                                points,
                                vs@,
                                e.0,
                                crossed || e.1,
                                trail(points, vs@, h as int).len() + 1,
                            )
                        },
                decreases self.wadj@[node as int]@.len() - j,
            {
                let (to, strict, sid) = self.wadj[node][j];
                assert(self.wadj@[node as int]@.contains((to, strict, sid)));
                let ghost g = Hop { from: points[node as int], to, strict, sid };
                proof {
                    assert(hs.contains(g));
                    lemma_hop_known(self.log@, g);
                }
                let next: bool = crossed || strict;
                let tn: usize = match self.lookup(to) {
                    Some(n) => n,
                    None => 0,
                };
                let found: bool = Self::visited(&vs, tn, next);
                let ghost before = vs@;
                if !found {
                    vs.push(Visit { node: tn, crossed: next, prev: h, strict, sid });
                    proof {
                        lemma_search_step(points, hs, a, before, h as int, vs@.last(), g);
                        assert(vs@ =~= before.push(vs@.last()));
                    }
                }
                proof {
                    assert forall|i: int| 0 <= i < j + 1 implies {
                        let e = #[trigger] self.wadj@[node as int]@[i];
                        holds_state(
                            points,
                            vs@,
                            e.0,
                            crossed || e.1,
                            trail(points, vs@, h as int).len() + 1,
                        )
                    } by {
                        let e = self.wadj@[node as int]@[i];
                        if i < j {
                            if !found {
                                lemma_trail_prefix(points, before, vs@, h as int);
                                lemma_state_kept(
                                    points,
                                    before,
                                    vs@,
                                    e.0,
                                    crossed || e.1,
                                    trail(points, before, h as int).len() + 1,
                                );
                            }
                        } else if found {
                            let l = choose|l: int|
                                0 <= l < vs@.len() && (#[trigger] vs@[l]).node == tn && vs@[l].crossed
                                    == next;
                            assert(trail(points, vs@, l).len() <= trail(points, vs@, h as int).len()
                                + 1);
                        }
                    }
                }
                j += 1;
            }
            proof {
                assert(settled(points, hs, vs@, h as int)) by {
                    assert forall|g: Hop| #[trigger] hs.contains(g) && g.from == points[node as int] implies holds_state(
                        points,
                        vs@,
                        g.to,
                        crossed || g.strict,
                        trail(points, vs@, h as int).len() + 1,
                    ) by {
                        let e = (g.to, g.strict, g.sid);
                        assert(g == Hop { from: points[node as int], to: e.0, strict: e.1, sid: e.2 });
                        assert(self.wadj@[node as int]@.contains(e));
                        let i = self.wadj@[node as int]@.index_of(e);
                        assert(self.wadj@[node as int]@[i] == e);
                    }
                }
                assert forall|l: int| 0 <= l < vs@.len() && h + 1 < vs@.len() implies (#[trigger] trail(
                    points,
                    vs@,
                    l,
                )).len() <= trail(points, vs@, h + 1).len() + 1 by {
                    assert(trail(points, vs@, h as int).len() <= trail(points, vs@, h + 1).len());
                }
                lemma_visits_bounded(points, hs, a, vs@, h as int);
            }
            h += 1;
        }
        proof {
            if linked(hs, a, b, need_strict) {
                let p = lemma_linked(hs, a, b, need_strict);
                lemma_search_reaches(points, hs, a, b, vs@, h as int, p);
            }
        }
        Vec::new()
    }

    /// Whether the visits hold the state `(node, crossed)`.
    fn visited(vs: &Vec<Visit>, node: usize, crossed: bool) -> (r: bool)
        ensures
            r == exists|l: int|
                0 <= l < vs@.len() && (#[trigger] vs@[l]).node == node && vs@[l].crossed == crossed,
    {
        let mut i: usize = 0;
        while i < vs.len()
            invariant
                i <= vs@.len(),
                forall|l: int|
                    0 <= l < i ==> (#[trigger] vs@[l]).node != node || vs@[l].crossed != crossed,
            decreases vs@.len() - i,
        {
            if vs[i].node == node && vs[i].crossed == crossed {
                return true;
            }
            i += 1;
        }
        false
    }
}

proof fn lemma_path_start_known(cs: Seq<Constraint>, p: Seq<Hop>, a: PointKey, b: PointKey)
    requires
        is_path(hops(cs), p, a, b),
        p.len() > 0,
    ensures
        known(cs, a),
    decreases p.len(),
{
    if p.len() == 1 {
        lemma_hop_known(cs, p.last());
        assert(is_path(hops(cs), p.drop_last(), a, p.last().from));
    } else {
        lemma_path_start_known(cs, p.drop_last(), a, p.last().from);
    }
}

proof fn lemma_state_kept(
    points: Seq<PointKey>,
    vs: Seq<Visit>,
    ws: Seq<Visit>,
    to: PointKey,
    crossed: bool,
    len: nat,
)
    requires
        vs.len() <= ws.len(),
        forall|i: int| 0 <= i < vs.len() ==> ws[i] == vs[i],
        holds_state(points, vs, to, crossed, len),
    ensures
        holds_state(points, ws, to, crossed, len),
{
    let l = choose|l: int|
        0 <= l < vs.len() && points[(#[trigger] vs[l]).node as int] == to && vs[l].crossed == crossed
            && trail(points, vs, l).len() <= len;
    lemma_trail_prefix(points, vs, ws, l);
    assert(ws[l] == vs[l]);
}

/// A new state, one step on from visit `h`, keeps the search in order.
proof fn lemma_search_step(
    points: Seq<PointKey>,
    hs: Set<Hop>,
    a: PointKey,
    vs: Seq<Visit>,
    h: int,
    v: Visit,
    g: Hop,
)
    requires
        searching(points, hs, a, vs, h),
        h < vs.len(),
        hs.contains(g),
        g.from == points[vs[h].node as int],
        v.node < points.len(),
        g.to == points[v.node as int],
        v.prev == h,
        v.strict == g.strict,
        v.sid == g.sid,
        v.crossed == (vs[h].crossed || g.strict),
        forall|l: int| 0 <= l < vs.len() ==> (#[trigger] vs[l]).node != v.node || vs[l].crossed != v.crossed,
    ensures
        searching(points, hs, a, vs.push(v), h),
        holds_state(points, vs.push(v), g.to, v.crossed, trail(points, vs.push(v), h).len() + 1),
{
    let ws = vs.push(v);
    let n = vs.len() as int;
    assert forall|k: int| 0 <= k < n implies trail(points, ws, k) == #[trigger] trail(points, vs, k) by {
        lemma_trail_prefix(points, vs, ws, k);
    }
    let t = trail(points, ws, n);
    assert(ws[n] == v);
    assert(ws[h] == vs[h]);
    assert(t == trail(points, ws, h).push(g));
    assert(t.drop_last() =~= trail(points, ws, h));
    assert(arrived(points, hs, a, vs, h));
    assert(trail(points, vs, h) == trail(points, ws, h));
    assert(arrived(points, hs, a, ws, n));
    assert forall|k: int| 0 <= k < ws.len() implies #[trigger] arrived(points, hs, a, ws, k) by {
        if k < n {
            assert(arrived(points, hs, a, vs, k));
            assert(trail(points, ws, k) == trail(points, vs, k));
            assert(ws[k] == vs[k]);
        }
    }
    assert forall|k: int, l: int|
        #![trigger trail(points, ws, k), trail(points, ws, l)]
        0 <= k < l < ws.len() implies trail(points, ws, k).len() <= trail(points, ws, l).len() by {
        assert(trail(points, ws, k) == trail(points, vs, k));
        if l < n {
            assert(trail(points, ws, l) == trail(points, vs, l));
        }
    }
    assert forall|l: int| 0 <= l < ws.len() && h < ws.len() implies (#[trigger] trail(points, ws, l)).len()
        <= trail(points, ws, h).len() + 1 by {
        if l < n {
            assert(trail(points, ws, l) == trail(points, vs, l));
        }
    }
    assert forall|k: int| 0 <= k < h implies #[trigger] settled(points, hs, ws, k) by {
        assert(settled(points, hs, vs, k));
        assert(trail(points, ws, k) == trail(points, vs, k));
        assert(ws[k] == vs[k]);
        assert forall|f: Hop| #[trigger] hs.contains(f) && f.from == points[ws[k].node as int] implies holds_state(
            points,
            ws,
            f.to,
            ws[k].crossed || f.strict,
            trail(points, ws, k).len() + 1,
        ) by {
            lemma_state_kept(
                points,
                vs,
                ws,
                f.to,
                vs[k].crossed || f.strict,
                trail(points, vs, k).len() + 1,
            );
        }
    }
    assert(points[ws[n].node as int] == g.to);
}

/// The increasing sequence of the sentences that witness `a rel b`: those of
/// one path, or of one path each way for an equality.
pub open spec fn witnesses(
    cs: Seq<Constraint>,
    a: PointKey,
    b: PointKey,
    rel: Order,
    sids: Set<SentenceId>,
) -> bool {
    match rel {
        Order::Lt => exists|w: Seq<SentenceId>| #[trigger] is_witness(cs, a, b, true, w) && sids == w.to_set(),
        Order::Le => exists|w: Seq<SentenceId>| #[trigger] is_witness(cs, a, b, false, w) && sids == w.to_set(),
        Order::Eq => exists|w: Seq<SentenceId>, x: Seq<SentenceId>|
            #![trigger is_witness(cs, a, b, false, w), is_witness(cs, b, a, false, x)]
            is_witness(cs, a, b, false, w) && is_witness(cs, b, a, false, x) && sids == w.to_set() + x.to_set(),
    }
}

proof fn lemma_joined_set(v: Seq<u64>, w: Seq<u64>)
    ensures
        (v + w).to_set() =~= v.to_set() + w.to_set(),
{
    assert forall|x: u64| (v + w).to_set().contains(x) <==> (v.to_set() + w.to_set()).contains(x) by {
        if v.contains(x) {
            assert((v + w)[v.index_of(x)] == x);
        }
        if w.contains(x) {
            assert((v + w)[v.len() + w.index_of(x)] == x);
        }
    }
}

/// Two vectors, one after the other.
fn joined(v: Vec<u64>, w: Vec<u64>) -> (r: Vec<u64>)
    ensures
        r@ == v@ + w@,
        r@.to_set() == v@.to_set() + w@.to_set(),
{
    let mut r: Vec<u64> = v;
    let mut i: usize = 0;
    while i < w.len()
        invariant
            i <= w@.len(),
            r@ == v@ + w@.take(i as int),
        decreases w@.len() - i,
    {
        r.push(w[i]);
        i += 1;
        assert(w@.take(i as int) =~= w@.take(i - 1).push(w@[i - 1]));
    }
    assert(w@.take(w@.len() as int) =~= w@);
    proof {
        lemma_joined_set(v@, w@);
    }
    r
}

impl TemporalNet {
    /// The sentences behind an order between two points, in increasing order.
    pub fn witness(&self, a: PointKey, b: PointKey, rel: Order) -> (sids: Vec<SentenceId>)
        requires
            self.wf(),
        ensures
            increasing(sids@),
            witnesses(self@, a, b, rel, sids@.to_set()),
    {
        let out: Vec<SentenceId> = match rel {
            Order::Le => self.path_witness(a, b, false),
            Order::Lt => self.path_witness(a, b, true),
            Order::Eq => {
                let w: Vec<SentenceId> = self.path_witness(a, b, false);
                let x: Vec<SentenceId> = self.path_witness(b, a, false);
                joined(w, x)
            },
        };
        sort_dedup(out)
    }
}

// ---------------------------------------------------------------------------
// Interval relations
// ---------------------------------------------------------------------------

/// The symbols of the temporal relations.
#[derive(Clone, Copy, Debug)]
pub struct TemporalRelIds {
    pub before: SymbolId,
    pub earlier: SymbolId,
    pub meets: SymbolId,
    pub during: SymbolId,
    pub starts: SymbolId,
    pub finishes: SymbolId,
    pub temporal_part: SymbolId,
    pub time_point: SymbolId,
}

/// How a relation between two intervals constrains their ends.
#[derive(Clone, Copy, PartialEq, Eq, Structural, Debug)]
pub enum IntervalShape {
    Earlier,
    Meets,
    During,
    Starts,
    Finishes,
}

/// A ground fact `(rel x y)`, with the sentence that states it.
#[derive(Clone, Copy, Debug)]
pub struct TemporalFact {
    pub rel: SymbolId,
    pub x: SymbolId,
    pub y: SymbolId,
    pub sid: Option<SentenceId>,
}

impl TemporalRelIds {
    /// The relations under their SUMO names.
    pub fn standard() -> (ids: Self)
        ensures
            ids.before == name_id("before"@),
            ids.earlier == name_id("earlier"@),
            ids.meets == name_id("meetsTemporally"@),
            ids.during == name_id("during"@),
            ids.starts == name_id("starts"@),
            ids.finishes == name_id("finishes"@),
            ids.temporal_part == name_id("temporalPart"@),
            ids.time_point == name_id("TimePoint"@),
    {
        TemporalRelIds {
            before: Symbol::hash_name("before"),
            earlier: Symbol::hash_name("earlier"),
            meets: Symbol::hash_name("meetsTemporally"),
            during: Symbol::hash_name("during"),
            starts: Symbol::hash_name("starts"),
            finishes: Symbol::hash_name("finishes"),
            temporal_part: Symbol::hash_name("temporalPart"),
            time_point: Symbol::hash_name("TimePoint"),
        }
    }

    /// Whether `rel` is a relation that the network can reason about.
    pub open spec fn temporal(&self, rel: SymbolId) -> bool {
        ||| rel == self.before
        ||| rel == self.earlier
        ||| rel == self.meets
        ||| rel == self.during
        ||| rel == self.starts
        ||| rel == self.finishes
        ||| rel == self.temporal_part
    }

    /// Whether `rel` is a relation that the network can reason about.
    pub fn is_temporal(&self, rel: SymbolId) -> (r: bool)
        ensures
            r == self.temporal(rel),
    {
        rel == self.before || rel == self.earlier || rel == self.meets || rel == self.during || rel
            == self.starts || rel == self.finishes || rel == self.temporal_part
    }

    /// The relations between two intervals, with their shapes.
    pub open spec fn intervals(&self) -> Seq<(SymbolId, IntervalShape)> {
        seq![
            (self.earlier, IntervalShape::Earlier),
            (self.meets, IntervalShape::Meets),
            (self.during, IntervalShape::During),
            (self.starts, IntervalShape::Starts),
            (self.finishes, IntervalShape::Finishes),
        ]
    }

    /// The relations between two intervals, with their shapes.
    fn interval_rels(&self) -> (r: [(SymbolId, IntervalShape); 5])
        ensures
            r@ == self.intervals(),
    {
        let r: [(SymbolId, IntervalShape); 5] = [
            (self.earlier, IntervalShape::Earlier),
            (self.meets, IntervalShape::Meets),
            (self.during, IntervalShape::During),
            (self.starts, IntervalShape::Starts),
            (self.finishes, IntervalShape::Finishes),
        ];
        assert(r@ =~= self.intervals());
        r
    }
}

/// The constraints that one interval fact of the given shape states.
pub open spec fn shape_constraints(shape: IntervalShape, f: TemporalFact) -> Seq<Constraint> {
    let (bi, ei) = (PointKey::Begin(f.x), PointKey::End(f.x));
    let (bj, ej) = (PointKey::Begin(f.y), PointKey::End(f.y));
    let lt = |a: PointKey, b: PointKey| Constraint { a, b, rel: Order::Lt, sid: f.sid };
    let eq = |a: PointKey, b: PointKey| Constraint { a, b, rel: Order::Eq, sid: f.sid };
    seq![proper(f.x), proper(f.y)] + match shape {
        IntervalShape::Earlier => seq![lt(ei, bj)],
        IntervalShape::Meets => seq![eq(ei, bj)],
        IntervalShape::During => seq![lt(bj, bi), lt(ei, ej)],
        IntervalShape::Starts => seq![eq(bi, bj), lt(ei, ej)],
        IntervalShape::Finishes => seq![eq(ei, ej), lt(bj, bi)],
    }
}

/// The constraints that one fact `(before x y)` states.
pub open spec fn before_constraints(f: TemporalFact) -> Seq<Constraint> {
    seq![Constraint { a: PointKey::Point(f.x), b: PointKey::Point(f.y), rel: Order::Lt, sid: f.sid }]
}

/// The constraints that one fact `(temporalPart x y)` states; `x` may be a
/// point.
pub open spec fn part_constraints(points: Seq<SymbolId>, f: TemporalFact) -> Seq<Constraint> {
    let le = |a: PointKey, b: PointKey| Constraint { a, b, rel: Order::Le, sid: f.sid };
    if points.contains(f.x) {
        seq![
            proper(f.y),
            le(PointKey::Begin(f.y), PointKey::Point(f.x)),
            le(PointKey::Point(f.x), PointKey::End(f.y)),
        ]
    } else {
        seq![
            proper(f.x),
            proper(f.y),
            le(PointKey::Begin(f.y), PointKey::Begin(f.x)),
            le(PointKey::End(f.x), PointKey::End(f.y)),
        ]
    }
}

/// The constraints of the facts about `rel`, in the order of the facts.
pub open spec fn constraints_of(
    facts: Seq<TemporalFact>,
    rel: SymbolId,
    states: spec_fn(TemporalFact) -> Seq<Constraint>,
) -> Seq<Constraint>
    decreases facts.len(),
{
    if facts.len() == 0 {
        Seq::empty()
    } else {
        let rest = constraints_of(facts.drop_last(), rel, states);
        if facts.last().rel == rel {
            rest + states(facts.last())
        } else {
            rest
        }
    }
}

/// The constraints of the first `n` interval relations.
pub open spec fn interval_constraints(
    ids: TemporalRelIds,
    facts: Seq<TemporalFact>,
    n: nat,
) -> Seq<Constraint>
    decreases n,
{
    if n == 0 {
        Seq::empty()
    } else {
        let (rel, shape) = ids.intervals()[n - 1];
        interval_constraints(ids, facts, (n - 1) as nat) + constraints_of(
            facts,
            rel,
            |f: TemporalFact| shape_constraints(shape, f),
        )
    }
}

/// The constraints of the network built from `facts`.
pub open spec fn net_constraints(
    ids: TemporalRelIds,
    facts: Seq<TemporalFact>,
    points: Seq<SymbolId>,
) -> Seq<Constraint> {
    constraints_of(facts, ids.before, |f: TemporalFact| before_constraints(f))
        + interval_constraints(ids, facts, 5) + constraints_of(
        facts,
        ids.temporal_part,
        |f: TemporalFact| part_constraints(points, f),
    )
}

/// Whether `s` is one of the symbols.
fn listed(points: &Vec<SymbolId>, s: SymbolId) -> (r: bool)
    ensures
        r == points@.contains(s),
{
    let mut i: usize = 0;
    while i < points.len()
        invariant
            i <= points@.len(),
            forall|k: int| 0 <= k < i ==> points@[k] != s,
        decreases points@.len() - i,
    {
        if points[i] == s {
            return true;
        }
        i += 1;
    }
    false
}

/// The two ends of a symbol: a point is both of its own ends, an interval
/// enters the network as a proper one.
fn endpoints(net: &mut TemporalNet, s: SymbolId, is_point: bool) -> (r: (PointKey, PointKey))
    requires
        old(net).wf(),
    ensures
        final(net).wf(),
        is_point ==> final(net)@ == old(net)@ && r == (PointKey::Point(s), PointKey::Point(s)),
        !is_point ==> final(net)@ == old(net)@.push(proper(s)) && r == (
            PointKey::Begin(s),
            PointKey::End(s),
        ),
{
    if is_point {
        (PointKey::Point(s), PointKey::Point(s))
    } else {
        net.add_interval(s);
        (PointKey::Begin(s), PointKey::End(s))
    }
}

/// Enters one interval fact.
fn add_shape(net: &mut TemporalNet, shape: IntervalShape, f: TemporalFact)
    requires
        old(net).wf(),
    ensures
        final(net).wf(),
        final(net)@ == old(net)@ + shape_constraints(shape, f),
{
    let ghost start = net@;
    let (i, j, sid) = (f.x, f.y, f.sid);
    net.add_interval(i);
    net.add_interval(j);
    match shape {
        IntervalShape::Earlier => {
            net.add_lt_w(PointKey::End(i), PointKey::Begin(j), sid);
        },
        IntervalShape::Meets => {
            net.add_eq_w(PointKey::End(i), PointKey::Begin(j), sid);
        },
        IntervalShape::During => {
            net.add_lt_w(PointKey::Begin(j), PointKey::Begin(i), sid);
            net.add_lt_w(PointKey::End(i), PointKey::End(j), sid);
        },
        IntervalShape::Starts => {
            net.add_eq_w(PointKey::Begin(i), PointKey::Begin(j), sid);
            net.add_lt_w(PointKey::End(i), PointKey::End(j), sid);
        },
        IntervalShape::Finishes => {
            net.add_eq_w(PointKey::End(i), PointKey::End(j), sid);
            net.add_lt_w(PointKey::Begin(j), PointKey::Begin(i), sid);
        },
    }
    assert(net@ =~= start + shape_constraints(shape, f));
}

/// Enters one `temporalPart` fact.
fn add_part(net: &mut TemporalNet, points: &Vec<SymbolId>, f: TemporalFact)
    requires
        old(net).wf(),
    ensures
        final(net).wf(),
        final(net)@ == old(net)@ + part_constraints(points@, f),
{
    let ghost start = net@;
    let (bx, ex) = endpoints(net, f.x, listed(points, f.x));
    let (by, ey) = endpoints(net, f.y, false);
    net.add_le_w(by, bx, f.sid);
    net.add_le_w(ex, ey, f.sid);
    assert(net@ =~= start + part_constraints(points@, f));
}

proof fn lemma_constraints_step(
    facts: Seq<TemporalFact>,
    i: int,
    rel: SymbolId,
    states: spec_fn(TemporalFact) -> Seq<Constraint>,
)
    requires
        0 <= i < facts.len(),
    ensures
        constraints_of(facts.take(i + 1), rel, states) == if facts[i].rel == rel {
            constraints_of(facts.take(i), rel, states) + states(facts[i])
        } else {
            constraints_of(facts.take(i), rel, states)
        },
{
    assert(facts.take(i + 1).drop_last() =~= facts.take(i));
}

/// The network of the temporal facts.  `points` lists the symbols that stand
/// for bare time points.
pub fn build_net(
    ids: &TemporalRelIds,
    facts: &Vec<TemporalFact>,
    points: &Vec<SymbolId>,
) -> (net: TemporalNet)
    ensures
        net.wf(),
        net@ == net_constraints(*ids, facts@, points@),
{
    let mut net: TemporalNet = TemporalNet::new();
    let ghost fbefore = |f: TemporalFact| before_constraints(f);
    let ghost fpart = |f: TemporalFact| part_constraints(points@, f);
    let mut i: usize = 0;
    while i < facts.len()
        invariant
            i <= facts@.len(),
            net.wf(),
            fbefore == (|f: TemporalFact| before_constraints(f)),
            net@ == constraints_of(facts@.take(i as int), ids.before, fbefore),
        decreases facts@.len() - i,
    {
        let f: TemporalFact = facts[i];
        proof {
            lemma_constraints_step(facts@, i as int, ids.before, fbefore);
        }
        if f.rel == ids.before {
            let ghost start = net@;
            net.add_lt_w(PointKey::Point(f.x), PointKey::Point(f.y), f.sid);
            assert(net@ =~= start + before_constraints(f));
        }
        i += 1;
    }
    assert(facts@.take(facts@.len() as int) =~= facts@);
    let ghost head = net@;
    assert(head + interval_constraints(*ids, facts@, 0) =~= head);
    let rels: [(SymbolId, IntervalShape); 5] = ids.interval_rels();
    let mut k: usize = 0;
    while k < 5
        invariant
            k <= 5,
            net.wf(),
            rels@ == ids.intervals(),
            net@ == head + interval_constraints(*ids, facts@, k as nat),
        decreases 5 - k,
    {
        let (rel, shape) = rels[k];
        assert(rels@[k as int] == (rel, shape));
        let ghost fshape = |f: TemporalFact| shape_constraints(shape, f);
        let ghost mid = net@;
        assert(constraints_of(facts@.take(0), rel, fshape) =~= Seq::empty());
        let mut i: usize = 0;
        while i < facts.len()
            invariant
                i <= facts@.len(),
                net.wf(),
                fshape == (|f: TemporalFact| shape_constraints(shape, f)),
                net@ == mid + constraints_of(facts@.take(i as int), rel, fshape),
            decreases facts@.len() - i,
        {
            let f: TemporalFact = facts[i];
            let ghost sofar = constraints_of(facts@.take(i as int), rel, fshape);
            proof {
                lemma_constraints_step(facts@, i as int, rel, fshape);
            }
            if f.rel == rel {
                add_shape(&mut net, shape, f);
                assert((mid + sofar) + shape_constraints(shape, f) =~= mid + (sofar
                    + shape_constraints(shape, f)));
            }
            i += 1;
        }
        assert(facts@.take(facts@.len() as int) =~= facts@);
        proof {
            let a = interval_constraints(*ids, facts@, k as nat);
            let b = constraints_of(facts@, rel, fshape);
            assert((head + a) + b =~= head + (a + b));
        }
        k += 1;
    }
    let ghost mid = net@;
    assert(constraints_of(facts@.take(0), ids.temporal_part, fpart) =~= Seq::empty());
    let mut i: usize = 0;
    while i < facts.len()
        invariant
            i <= facts@.len(),
            net.wf(),
            fpart == (|f: TemporalFact| part_constraints(points@, f)),
            net@ == mid + constraints_of(facts@.take(i as int), ids.temporal_part, fpart),
        decreases facts@.len() - i,
    {
        let f: TemporalFact = facts[i];
        let ghost sofar = constraints_of(facts@.take(i as int), ids.temporal_part, fpart);
        proof {
            lemma_constraints_step(facts@, i as int, ids.temporal_part, fpart);
        }
        if f.rel == ids.temporal_part {
            add_part(&mut net, points, f);
            assert((mid + sofar) + part_constraints(points@, f) =~= mid + (sofar + part_constraints(
                points@,
                f,
            )));
        }
        i += 1;
    }
    net
}

/// The point orders that the goal `(rel x y)` comes down to; `None` for a
/// relation that is not temporal.
pub open spec fn goal_orders(
    ids: TemporalRelIds,
    rel: SymbolId,
    x: SymbolId,
    y: SymbolId,
    x_is_point: bool,
) -> Option<Seq<(PointKey, PointKey, Order)>> {
    let (bx, ex) = (PointKey::Begin(x), PointKey::End(x));
    let (by, ey) = (PointKey::Begin(y), PointKey::End(y));
    if rel == ids.before {
        Some(seq![(PointKey::Point(x), PointKey::Point(y), Order::Lt)])
    } else if rel == ids.earlier {
        Some(seq![(ex, by, Order::Lt)])
    } else if rel == ids.meets {
        Some(seq![(ex, by, Order::Eq)])
    } else if rel == ids.during {
        Some(seq![(by, bx, Order::Lt), (ex, ey, Order::Lt)])
    } else if rel == ids.starts {
        Some(seq![(bx, by, Order::Eq), (ex, ey, Order::Lt)])
    } else if rel == ids.finishes {
        Some(seq![(ex, ey, Order::Eq), (by, bx, Order::Lt)])
    } else if rel == ids.temporal_part {
        if x_is_point {
            Some(seq![(by, PointKey::Point(x), Order::Le), (PointKey::Point(x), ey, Order::Le)])
        } else {
            Some(seq![(by, bx, Order::Le), (ex, ey, Order::Le)])
        }
    } else {
        None
    }
}

/// Every point order of the goal `(rel x y)` follows from the constraints.
pub open spec fn goal_entailed(
    cs: Seq<Constraint>,
    ids: TemporalRelIds,
    rel: SymbolId,
    x: SymbolId,
    y: SymbolId,
    x_is_point: bool,
) -> bool {
    match goal_orders(ids, rel, x, y, x_is_point) {
        Some(os) => forall|i: int|
            0 <= i < os.len() ==> entailed(cs, (#[trigger] os[i]).0, os[i].1, os[i].2),
        None => false,
    }
}

/// The point orders of the goal `(rel x y)`.
fn goal_parts(
    ids: &TemporalRelIds,
    rel: SymbolId,
    x: SymbolId,
    y: SymbolId,
    x_is_point: bool,
) -> (r: Option<Vec<(PointKey, PointKey, Order)>>)
    ensures
        match r {
            Some(v) => goal_orders(*ids, rel, x, y, x_is_point) == Some(v@),
            None => goal_orders(*ids, rel, x, y, x_is_point) is None,
        },
{
    let (bx, ex) = (PointKey::Begin(x), PointKey::End(x));
    let (by, ey) = (PointKey::Begin(y), PointKey::End(y));
    let mut v: Vec<(PointKey, PointKey, Order)> = Vec::new();
    if rel == ids.before {
        v.push((PointKey::Point(x), PointKey::Point(y), Order::Lt));
    } else if rel == ids.earlier {
        v.push((ex, by, Order::Lt));
    } else if rel == ids.meets {
        v.push((ex, by, Order::Eq));
    } else if rel == ids.during {
        v.push((by, bx, Order::Lt));
        v.push((ex, ey, Order::Lt));
    } else if rel == ids.starts {
        v.push((bx, by, Order::Eq));
        v.push((ex, ey, Order::Lt));
    } else if rel == ids.finishes {
        v.push((ex, ey, Order::Eq));
        v.push((by, bx, Order::Lt));
    } else if rel == ids.temporal_part {
        if x_is_point {
            v.push((by, PointKey::Point(x), Order::Le));
            v.push((PointKey::Point(x), ey, Order::Le));
        } else {
            v.push((by, bx, Order::Le));
            v.push((ex, ey, Order::Le));
        }
    } else {
        return None;
    }
    assert(v@ =~= goal_orders(*ids, rel, x, y, x_is_point)->0);
    Some(v)
}

/// Whether the temporal goal `(rel x y)` follows from the network.
pub fn query(
    net: &mut TemporalNet,
    ids: &TemporalRelIds,
    rel: SymbolId,
    x: SymbolId,
    y: SymbolId,
    points: &Vec<SymbolId>,
) -> (r: bool)
    requires
        old(net).wf(),
    ensures
        final(net).wf(),
        final(net)@ == old(net)@,
        r == goal_entailed(old(net)@, *ids, rel, x, y, points@.contains(x)),
{
    let ghost cs = net@;
    let parts: Vec<(PointKey, PointKey, Order)> = match goal_parts(ids, rel, x, y, listed(points, x)) {
        Some(v) => v,
        None => {
            return false;
        },
    };
    let mut i: usize = 0;
    while i < parts.len()
        invariant
            i <= parts@.len(),
            net.wf(),
            net@ == cs,
            cs == old(net)@,
            goal_orders(*ids, rel, x, y, points@.contains(x)) == Some(parts@),
            forall|k: int|
                0 <= k < i ==> entailed(cs, (#[trigger] parts@[k]).0, parts@[k].1, parts@[k].2),
        decreases parts@.len() - i,
    {
        let (a, b, o) = parts[i];
        if !net.entails(a, b, o) {
            proof {
                let os = goal_orders(*ids, rel, x, y, points@.contains(x))->0;
                assert(!entailed(cs, os[i as int].0, os[i as int].1, os[i as int].2));
                assert(!goal_entailed(cs, *ids, rel, x, y, points@.contains(x)));
            }
            return false;
        }
        i += 1;
    }
    true
}

/// The sentences `ws[i]` witness the order `os[i]`, for each of the orders.
pub open spec fn all_witnesses(
    cs: Seq<Constraint>,
    os: Seq<(PointKey, PointKey, Order)>,
    ws: Seq<Set<SentenceId>>,
) -> bool {
    &&& ws.len() == os.len()
    &&& forall|i: int|
        0 <= i < os.len() ==> witnesses(cs, os[i].0, os[i].1, os[i].2, #[trigger] ws[i])
}

/// The sentences that witness a goal: those of its orders, together.
pub open spec fn goal_witnesses(
    cs: Seq<Constraint>,
    os: Seq<(PointKey, PointKey, Order)>,
    sids: Set<SentenceId>,
) -> bool {
    exists|ws: Seq<Set<SentenceId>>| #[trigger]
        all_witnesses(cs, os, ws) && sids == union_of(ws)
}

/// The union of the sets.
pub open spec fn union_of(ws: Seq<Set<SentenceId>>) -> Set<SentenceId> {
    Set::new(|s: SentenceId| exists|i: int| 0 <= i < ws.len() && (#[trigger] ws[i]).contains(s))
}

/// The sentences that witness the temporal goal `(rel x y)`, in increasing
/// order; none for a relation that is not temporal.
pub fn query_witness(
    net: &mut TemporalNet,
    ids: &TemporalRelIds,
    rel: SymbolId,
    x: SymbolId,
    y: SymbolId,
    points: &Vec<SymbolId>,
) -> (sids: Vec<SentenceId>)
    requires
        old(net).wf(),
    ensures
        final(net).wf(),
        final(net)@ == old(net)@,
        increasing(sids@),
        match goal_orders(*ids, rel, x, y, points@.contains(x)) {
            Some(os) => goal_witnesses(old(net)@, os, sids@.to_set()),
            None => sids@.len() == 0,
        },
{
    net.ensure_closed();
    let ghost cs = net@;
    let parts: Vec<(PointKey, PointKey, Order)> = match goal_parts(ids, rel, x, y, listed(points, x)) {
        Some(v) => v,
        None => {
            return Vec::new();
        },
    };
    let mut all: Vec<SentenceId> = Vec::new();
    let ghost mut ws: Seq<Set<SentenceId>> = Seq::empty();
    let mut i: usize = 0;
    assert(all@.to_set() =~= union_of(ws));
    while i < parts.len()
        invariant
            i <= parts@.len(),
            net.wf(),
            net@ == cs,
            all_witnesses(cs, parts@.take(i as int), ws),
            all@.to_set() == union_of(ws),
        decreases parts@.len() - i,
    {
        let (a, b, o) = parts[i];
        let w: Vec<SentenceId> = net.witness(a, b, o);
        let ghost before = ws;
        proof {
            ws = ws.push(w@.to_set());
            assert(ws[i as int] == w@.to_set());
            assert forall|k: int| 0 <= k < before.len() implies ws[k] == #[trigger] before[k] by {}
            assert(union_of(ws) =~= union_of(before) + w@.to_set()) by {
                assert forall|s: SentenceId| union_of(before).contains(s) implies union_of(ws).contains(s) by {
                    let k = choose|k: int| 0 <= k < before.len() && (#[trigger] before[k]).contains(s);
                    assert(ws[k].contains(s));
                }
                assert forall|s: SentenceId| w@.to_set().contains(s) implies union_of(ws).contains(s) by {
                    assert(ws[i as int].contains(s));
                }
            }
        }
        all = joined(all, w);
        i += 1;
        assert(all_witnesses(cs, parts@.take(i as int), ws)) by {
            let os = parts@.take(i as int);
            assert forall|k: int| 0 <= k < os.len() implies witnesses(
                cs,
                os[k].0,
                os[k].1,
                os[k].2,
                #[trigger] ws[k],
            ) by {
                if k < i - 1 {
                    assert(os[k] == parts@.take(i - 1)[k]);
                    assert(ws[k] == before[k]);
                }
            }
        }
    }
    assert(parts@.take(parts@.len() as int) =~= parts@);
    assert(goal_witnesses(cs, parts@, all@.to_set()));
    sort_dedup(all)
}

// ---------------------------------------------------------------------------
// Laws
// ---------------------------------------------------------------------------

proof fn lemma_path_placed(v: spec_fn(PointKey) -> int, cs: Seq<Constraint>, p: Seq<Hop>, a: PointKey, b: PointKey)
    requires
        models(v, cs),
        is_path(hops(cs), p, a, b),
    ensures
        v(a) <= v(b),
        crosses(p) ==> v(a) < v(b),
    decreases p.len(),
{
    if p.len() > 0 {
        let h = p.last();
        lemma_path_placed(v, cs, p.drop_last(), a, h.from);
        let i = choose|i: int| 0 <= i < cs.len() && gives(#[trigger] cs[i], h);
        assert(satisfies(v, cs[i]));
    }
}

proof fn lemma_eq_path_placed(v: spec_fn(PointKey) -> int, cs: Seq<Constraint>, p: Seq<Hop>, a: PointKey, b: PointKey)
    requires
        models(v, cs),
        is_path(eq_hops(cs), p, a, b),
    ensures
        v(a) == v(b),
    decreases p.len(),
{
    if p.len() > 0 {
        let h = p.last();
        lemma_eq_path_placed(v, cs, p.drop_last(), a, h.from);
        let i = choose|i: int|
            0 <= i < cs.len() && (#[trigger] cs[i]).rel == Order::Eq && gives(cs[i], h);
        assert(satisfies(v, cs[i]));
    }
}

/// An order that the network entails holds in every placement of the points
/// that satisfies the constraints.
pub proof fn law_entailment_is_sound(
    v: spec_fn(PointKey) -> int,
    cs: Seq<Constraint>,
    a: PointKey,
    b: PointKey,
)
    requires
        models(v, cs),
    ensures
        entailed(cs, a, b, Order::Lt) ==> v(a) < v(b),
        entailed(cs, a, b, Order::Le) ==> v(a) <= v(b),
        entailed(cs, a, b, Order::Eq) ==> v(a) == v(b),
{
    let hs = hops(cs);
    if reach_strict(hs, a, b) {
        let p = choose|p: Seq<Hop>| is_path(hs, p, a, b) && crosses(p);
        lemma_path_placed(v, cs, p, a, b);
    }
    if reach(hs, a, b) {
        let p = choose|p: Seq<Hop>| is_path(hs, p, a, b);
        lemma_path_placed(v, cs, p, a, b);
    }
    if reach(eq_hops(cs), a, b) {
        let p = choose|p: Seq<Hop>| is_path(eq_hops(cs), p, a, b);
        lemma_eq_path_placed(v, cs, p, a, b);
    }
}

/// The points strictly before `k`.
spec fn below(cs: Seq<Constraint>, k: PointKey) -> Set<PointKey> {
    Set::new(|j: PointKey| known(cs, j) && reach_strict(hops(cs), j, k))
}

/// The points that the constraints mention.
spec fn mentioned(cs: Seq<Constraint>) -> Set<PointKey>
    decreases cs.len(),
{
    if cs.len() == 0 {
        Set::empty()
    } else {
        mentioned(cs.drop_last()).insert(cs.last().a).insert(cs.last().b)
    }
}

proof fn lemma_mentioned(cs: Seq<Constraint>)
    ensures
        mentioned(cs).finite(),
        forall|k: PointKey| known(cs, k) <==> mentioned(cs).contains(k),
    decreases cs.len(),
{
    if cs.len() > 0 {
        let ds = cs.drop_last();
        lemma_mentioned(ds);
        assert(cs =~= ds.push(cs.last()));
        lemma_push_hops(ds, cs.last());
    }
}

/// The placement that puts each point at the number of points strictly before
/// it.
pub closed spec fn rank_placement(cs: Seq<Constraint>) -> spec_fn(PointKey) -> int {
    |k: PointKey| below(cs, k).len() as int
}

proof fn lemma_below_grows(cs: Seq<Constraint>, a: PointKey, b: PointKey)
    requires
        reach(hops(cs), a, b),
        acyclic(cs),
    ensures
        below(cs, a).len() <= below(cs, b).len(),
        known(cs, a) && reach_strict(hops(cs), a, b) ==> below(cs, a).len() < below(cs, b).len(),
{
    let hs = hops(cs);
    lemma_mentioned(cs);
    assert(below(cs, b).subset_of(mentioned(cs)));
    vstd::set_lib::lemma_len_subset(below(cs, b), mentioned(cs));
    assert(below(cs, a).subset_of(below(cs, b))) by {
        assert forall|j: PointKey| below(cs, a).contains(j) implies below(cs, b).contains(j) by {
            lemma_strict_reaches(hs, j, a);
            lemma_reach_trans(hs, j, a, b);
        }
    }
    vstd::set_lib::lemma_len_subset(below(cs, a), below(cs, b));
    if known(cs, a) && reach_strict(hs, a, b) {
        assert(!reach_strict(hs, a, a));
        assert(below(cs, b).contains(a));
        assert(!below(cs, a).contains(a));
        assert(below(cs, a).subset_of(below(cs, b).remove(a)));
        vstd::set_lib::lemma_len_subset(below(cs, a), below(cs, b).remove(a));
    }
}

/// The constraints can be satisfied exactly when no point comes strictly
/// before itself.
pub proof fn law_consistent_iff_satisfiable(cs: Seq<Constraint>)
    ensures
        acyclic(cs) <==> exists|v: spec_fn(PointKey) -> int| models(v, cs),
{
    let hs = hops(cs);
    if acyclic(cs) {
        let v = rank_placement(cs);
        assert forall|i: int| 0 <= i < cs.len() implies satisfies(v, #[trigger] cs[i]) by {
            let c = cs[i];
            let h = Hop { from: c.a, to: c.b, strict: c.rel == Order::Lt, sid: c.sid };
            assert(gives(c, h));
            assert(hs.contains(h));
            lemma_hop_reach(hs, h);
            lemma_hop_known(cs, h);
            lemma_below_grows(cs, c.a, c.b);
            if c.rel == Order::Eq {
                let g = Hop { from: c.b, to: c.a, strict: false, sid: c.sid };
                assert(gives(c, g));
                assert(hs.contains(g));
                lemma_hop_reach(hs, g);
                lemma_below_grows(cs, c.b, c.a);
            }
        }
        assert(models(v, cs));
    }
    if exists|v: spec_fn(PointKey) -> int| models(v, cs) {
        let v = choose|v: spec_fn(PointKey) -> int| models(v, cs);
        assert forall|k: PointKey| !#[trigger] reach_strict(hs, k, k) by {
            if reach_strict(hs, k, k) {
                let p = choose|p: Seq<Hop>| is_path(hs, p, k, k) && crosses(p);
                lemma_path_placed(v, cs, p, k, k);
            }
        }
    }
}

/// A path with one more constraint at hand either does without it or ends
/// with its last use.
proof fn lemma_path_split(cs: Seq<Constraint>, c: Constraint, p: Seq<Hop>, x: PointKey, y: PointKey)
    requires
        c.rel != Order::Eq,
        is_path(hops(cs.push(c)), p, x, y),
    ensures
        ({
            let hs = hops(cs);
            ||| reach(hs, x, y) && (crosses(p) ==> reach_strict(hs, x, y))
            ||| reach(hs, c.b, y) && exists|q: Seq<Hop>| #[trigger]
                is_path(hops(cs.push(c)), q, x, c.a) && q.len() < p.len() && (crosses(p) && c.rel
                    == Order::Le ==> crosses(q) || reach_strict(hs, c.b, y))
        }),
    decreases p.len(),
{
    let hs = hops(cs);
    let ks = hops(cs.push(c));
    lemma_push_hops(cs, c);
    if p.len() == 0 {
        lemma_reach_refl(hs, x);
    } else {
        let h = p.last();
        let q = p.drop_last();
        lemma_path_split(cs, c, q, x, h.from);
        if hs.contains(h) {
            lemma_hop_reach(hs, h);
            if reach(hs, x, h.from) && (crosses(q) ==> reach_strict(hs, x, h.from)) {
                lemma_reach_trans(hs, x, h.from, y);
            } else {
                lemma_reach_trans(hs, c.b, h.from, y);
            }
        } else {
            assert(gives(c, h));
            lemma_reach_refl(hs, c.b);
            assert(is_path(ks, q, x, c.a));
        }
    }
}

/// With the constraint `b < a` or `b <= a` added, a strict loop needs a path
/// back from `a` to `b` in the old network.
proof fn lemma_added_loop(cs: Seq<Constraint>, c: Constraint, p: Seq<Hop>, k: PointKey)
    requires
        c.rel != Order::Eq,
        acyclic(cs),
        is_path(hops(cs.push(c)), p, k, k),
        crosses(p),
    ensures
        reach(hops(cs), c.b, c.a),
        c.rel == Order::Le ==> reach_strict(hops(cs), c.b, c.a),
{
    let hs = hops(cs);
    let ks = hops(cs.push(c));
    lemma_path_split(cs, c, p, k, k);
    assert(!reach_strict(hs, k, k));
    let q = choose|q: Seq<Hop>| #[trigger]
        is_path(ks, q, k, c.a) && q.len() < p.len() && (crosses(p) && c.rel == Order::Le ==> crosses(q)
            || reach_strict(hs, c.b, k));
    lemma_back_path(cs, c, q, k);
}

/// A path from `k`, which `c.b` reaches, to `c.a`: the old network leads from
/// `c.b` to `c.a`.
proof fn lemma_back_path(cs: Seq<Constraint>, c: Constraint, q: Seq<Hop>, k: PointKey)
    requires
        c.rel != Order::Eq,
        is_path(hops(cs.push(c)), q, k, c.a),
        reach(hops(cs), c.b, k),
    ensures
        reach(hops(cs), c.b, c.a),
        c.rel == Order::Le && (crosses(q) || reach_strict(hops(cs), c.b, k)) ==> reach_strict(
            hops(cs),
            c.b,
            c.a,
        ),
    decreases q.len(),
{
    let hs = hops(cs);
    let ks = hops(cs.push(c));
    lemma_path_split(cs, c, q, k, c.a);
    if reach(hs, k, c.a) && (crosses(q) ==> reach_strict(hs, k, c.a)) {
        lemma_reach_trans(hs, c.b, k, c.a);
    } else {
        let r = choose|r: Seq<Hop>| #[trigger]
            is_path(ks, r, k, c.a) && r.len() < q.len() && (crosses(q) && c.rel == Order::Le
                ==> crosses(r) || reach_strict(hs, c.b, c.a));
        lemma_back_path(cs, c, r, k);
    }
}

/// In a network that can be satisfied, a strict order between two of its
/// points is entailed exactly when it holds in every placement that satisfies
/// the constraints, and so is a non-strict one.
pub proof fn law_entailment_is_complete(cs: Seq<Constraint>, a: PointKey, b: PointKey)
    requires
        acyclic(cs),
        known(cs, a),
        known(cs, b),
    ensures
        entailed(cs, a, b, Order::Lt) <==> forall|v: spec_fn(PointKey) -> int| #[trigger]
            models(v, cs) ==> v(a) < v(b),
        entailed(cs, a, b, Order::Le) <==> forall|v: spec_fn(PointKey) -> int| #[trigger]
            models(v, cs) ==> v(a) <= v(b),
{
    assert forall|v: spec_fn(PointKey) -> int| #[trigger] models(v, cs) implies (entailed(
        cs,
        a,
        b,
        Order::Lt,
    ) ==> v(a) < v(b)) && (entailed(cs, a, b, Order::Le) ==> v(a) <= v(b)) by {
        law_entailment_is_sound(v, cs, a, b);
    }
    if !entailed(cs, a, b, Order::Lt) {
        let c = Constraint { a: b, b: a, rel: Order::Le, sid: None };
        let v = lemma_countermodel(cs, c);
        assert(v(b) <= v(a));
    }
    if !entailed(cs, a, b, Order::Le) {
        let c = Constraint { a: b, b: a, rel: Order::Lt, sid: None };
        let v = lemma_countermodel(cs, c);
        assert(v(b) < v(a));
    }
}

/// A placement of the old network that satisfies the new constraint too.
proof fn lemma_countermodel(cs: Seq<Constraint>, c: Constraint) -> (v: spec_fn(PointKey) -> int)
    requires
        acyclic(cs),
        c.rel == Order::Lt ==> !reach(hops(cs), c.b, c.a),
        c.rel == Order::Le ==> !reach_strict(hops(cs), c.b, c.a),
        c.rel != Order::Eq,
    ensures
        models(v, cs),
        satisfies(v, c),
{
    let ds = cs.push(c);
    assert(acyclic(ds)) by {
        assert forall|k: PointKey| !#[trigger] reach_strict(hops(ds), k, k) by {
            if reach_strict(hops(ds), k, k) {
                let p = choose|p: Seq<Hop>| is_path(hops(ds), p, k, k) && crosses(p);
                lemma_added_loop(cs, c, p, k);
            }
        }
    }
    law_consistent_iff_satisfiable(ds);
    let v = choose|v: spec_fn(PointKey) -> int| models(v, ds);
    assert forall|i: int| 0 <= i < cs.len() implies satisfies(v, #[trigger] cs[i]) by {
        assert(ds[i] == cs[i]);
    }
    assert(ds[cs.len() as int] == c);
    v
}

/// More constraints entail at least as much.
pub proof fn law_entailment_is_monotone(
    cs: Seq<Constraint>,
    c: Constraint,
    a: PointKey,
    b: PointKey,
    rel: Order,
)
    requires
        entailed(cs, a, b, rel),
    ensures
        entailed(cs.push(c), a, b, rel),
{
    lemma_push_hops(cs, c);
    lemma_reach_mono(hops(cs), hops(cs.push(c)), a, b);
    lemma_reach_mono(eq_hops(cs), eq_hops(cs.push(c)), a, b);
}

/// The strict order is transitive, and an equality carries over to it.
pub proof fn law_orders_compose(cs: Seq<Constraint>, a: PointKey, b: PointKey, c: PointKey)
    ensures
        entailed(cs, a, b, Order::Lt) && entailed(cs, b, c, Order::Le) ==> entailed(cs, a, c, Order::Lt),
        entailed(cs, a, b, Order::Le) && entailed(cs, b, c, Order::Lt) ==> entailed(cs, a, c, Order::Lt),
        entailed(cs, a, b, Order::Le) && entailed(cs, b, c, Order::Le) ==> entailed(cs, a, c, Order::Le),
        entailed(cs, a, b, Order::Eq) && entailed(cs, b, c, Order::Lt) ==> entailed(cs, a, c, Order::Lt),
        entailed(cs, a, b, Order::Lt) ==> entailed(cs, a, b, Order::Le),
{
    let hs = hops(cs);
    lemma_eq_hops_sub(cs);
    lemma_reach_mono(eq_hops(cs), hs, a, b);
    if reach(hs, a, b) && reach(hs, b, c) {
        lemma_reach_trans(hs, a, b, c);
    }
}

} // verus!
