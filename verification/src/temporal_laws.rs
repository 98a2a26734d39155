//! What the witnesses of temporal orders are worth, and that facts are entailed.
use vstd::prelude::*;

use crate::temporal::{
    acyclic, all_witnesses, before_constraints, cited, constraints_of, crosses, entailed, eq_hops, gives, goal_entailed,
    goal_orders, goal_witnesses, hops, interval_constraints, is_path, is_shortest, is_witness, known,
    law_entailment_is_complete, law_entailment_is_sound, lemma_eq_hops_sub, lemma_one_hop, lemma_path_join,
    lemma_reach_mono, linked, models, net_constraints, part_constraints, reach, satisfies, shape_constraints, union_of,
    witnesses, Constraint, Hop, IntervalShape, Order, PointKey, TemporalFact, TemporalRelIds,
};
use crate::types::{SentenceId, SymbolId};

verus! {

/// The placement satisfies the constraints of the cited sentences, and those
/// that come from no sentence.
pub open spec fn models_cited(v: spec_fn(PointKey) -> int, cs: Seq<Constraint>, sids: Set<SentenceId>) -> bool {
    forall|i: int|
        0 <= i < cs.len() && ((#[trigger] cs[i]).sid matches Some(s) ==> sids.contains(s)) ==> satisfies(v, cs[i])
}

/// The order holds in the placement.
pub open spec fn placed(v: spec_fn(PointKey) -> int, a: PointKey, b: PointKey, rel: Order) -> bool {
    match rel {
        Order::Lt => v(a) < v(b),
        Order::Le => v(a) <= v(b),
        Order::Eq => v(a) == v(b),
    }
}

proof fn lemma_cited_path(
    v: spec_fn(PointKey) -> int,
    cs: Seq<Constraint>,
    sids: Set<SentenceId>,
    p: Seq<Hop>,
    a: PointKey,
    b: PointKey,
)
    requires
        models_cited(v, cs, sids),
        is_path(hops(cs), p, a, b),
        forall|s: SentenceId| #[trigger] cited(p).contains(s) ==> sids.contains(s),
    ensures
        v(a) <= v(b),
        crosses(p) ==> v(a) < v(b),
    decreases p.len(),
{
    if p.len() > 0 {
        let h = p.last();
        let front = p.drop_last();
        assert forall|s: SentenceId| #[trigger] cited(front).contains(s) implies sids.contains(s) by {
            let k = cited(front).index_of(s);
            match h.sid {
                Some(x) => {
                    assert(cited(p)[k + 1] == s);
                },
                None => {},
            }
            assert(cited(p).contains(s));
        }
        lemma_cited_path(v, cs, sids, front, a, h.from);
        let i = choose|i: int| 0 <= i < cs.len() && gives(#[trigger] cs[i], h);
        if let Some(x) = h.sid {
            assert(cited(p)[0] == x);
            assert(cited(p).contains(x));
        }
        assert(satisfies(v, cs[i]));
    }
}

proof fn lemma_witness_placed(
    v: spec_fn(PointKey) -> int,
    cs: Seq<Constraint>,
    sids: Set<SentenceId>,
    a: PointKey,
    b: PointKey,
    need_strict: bool,
    w: Seq<SentenceId>,
)
    requires
        models_cited(v, cs, sids),
        linked(hops(cs), a, b, need_strict),
        is_witness(cs, a, b, need_strict, w),
        w.to_set().subset_of(sids),
    ensures
        v(a) <= v(b),
        need_strict ==> v(a) < v(b),
{
    let p = choose|p: Seq<Hop>| is_shortest(hops(cs), p, a, b, need_strict) && w == #[trigger] cited(p);
    assert forall|s: SentenceId| #[trigger] cited(p).contains(s) implies sids.contains(s) by {
        assert(w.to_set().contains(s));
    }
    lemma_cited_path(v, cs, sids, p, a, b);
}

/// The cited sentences bear the order out: it holds in every placement that
/// satisfies their constraints, whatever becomes of the others.
pub proof fn law_witnesses_suffice(
    v: spec_fn(PointKey) -> int,
    cs: Seq<Constraint>,
    a: PointKey,
    b: PointKey,
    rel: Order,
    cites: Set<SentenceId>,
    sids: Set<SentenceId>,
)
    requires
        entailed(cs, a, b, rel),
        witnesses(cs, a, b, rel, cites),
        cites.subset_of(sids),
        models_cited(v, cs, sids),
    ensures
        placed(v, a, b, rel),
{
    lemma_eq_hops_sub(cs);
    match rel {
        Order::Lt => {
            let w = choose|w: Seq<SentenceId>| #[trigger] is_witness(cs, a, b, true, w) && cites == w.to_set();
            lemma_witness_placed(v, cs, sids, a, b, true, w);
        },
        Order::Le => {
            let w = choose|w: Seq<SentenceId>| #[trigger] is_witness(cs, a, b, false, w) && cites == w.to_set();
            lemma_witness_placed(v, cs, sids, a, b, false, w);
        },
        Order::Eq => {
            let (w, x) = choose|w: Seq<SentenceId>, x: Seq<SentenceId>|
                #![trigger is_witness(cs, a, b, false, w), is_witness(cs, b, a, false, x)]
                is_witness(cs, a, b, false, w) && is_witness(cs, b, a, false, x) && cites == w.to_set()
                    + x.to_set();
            let p = choose|p: Seq<Hop>| is_path(eq_hops(cs), p, a, b);
            let q = lemma_eq_path_back(cs, p, a, b);
            lemma_reach_mono(eq_hops(cs), hops(cs), a, b);
            lemma_reach_mono(eq_hops(cs), hops(cs), b, a);
            lemma_witness_placed(v, cs, sids, a, b, false, w);
            lemma_witness_placed(v, cs, sids, b, a, false, x);
        },
    }
}

/// A path of equalities can be walked back.
proof fn lemma_eq_path_back(cs: Seq<Constraint>, p: Seq<Hop>, a: PointKey, b: PointKey) -> (q: Seq<Hop>)
    requires
        is_path(eq_hops(cs), p, a, b),
    ensures
        is_path(eq_hops(cs), q, b, a),
    decreases p.len(),
{
    let hs = eq_hops(cs);
    if p.len() == 0 {
        p
    } else {
        let h = p.last();
        let r = lemma_eq_path_back(cs, p.drop_last(), a, h.from);
        let back = Hop { from: h.to, to: h.from, strict: false, sid: h.sid };
        let i = choose|i: int| 0 <= i < cs.len() && (#[trigger] cs[i]).rel == Order::Eq && gives(cs[i], h);
        assert(gives(cs[i], back));
        let one = seq![back];
        lemma_one_hop(hs, back);
        lemma_path_join(hs, one, r, b, h.from, a);
        one + r
    }
}

/// The sentences cited for a goal bear out every order that it comes down to.
pub proof fn law_goal_witnesses_suffice(
    v: spec_fn(PointKey) -> int,
    cs: Seq<Constraint>,
    os: Seq<(PointKey, PointKey, Order)>,
    sids: Set<SentenceId>,
    i: int,
)
    requires
        0 <= i < os.len(),
        entailed(cs, os[i].0, os[i].1, os[i].2),
        goal_witnesses(cs, os, sids),
        models_cited(v, cs, sids),
    ensures
        placed(v, os[i].0, os[i].1, os[i].2),
{
    let ws = choose|ws: Seq<Set<SentenceId>>| #[trigger] all_witnesses(cs, os, ws) && sids == union_of(ws);
    assert(witnesses(cs, os[i].0, os[i].1, os[i].2, ws[i]));
    law_witnesses_suffice(v, cs, os[i].0, os[i].1, os[i].2, ws[i], sids);
}

/// What the constraints state follows from them.
proof fn lemma_stated_holds(cs: Seq<Constraint>, c: Constraint)
    requires
        cs.contains(c),
    ensures
        entailed(cs, c.a, c.b, c.rel),
{
    let i = choose|i: int| 0 <= i < cs.len() && cs[i] == c;
    assert(cs[i].a == c.a && cs[i].b == c.b);
    let h = Hop { from: c.a, to: c.b, strict: c.rel == Order::Lt, sid: c.sid };
    assert(gives(cs[i], h));
    assert(hops(cs).contains(h));
    lemma_one_hop(hops(cs), h);
    if c.rel == Order::Eq {
        assert(cs[i].rel == Order::Eq && gives(cs[i], h));
        assert(eq_hops(cs).contains(h));
        lemma_one_hop(eq_hops(cs), h);
    }
}

/// What a fact states stands among the constraints of the facts about its
/// relation.
proof fn lemma_fact_stated(
    facts: Seq<TemporalFact>,
    i: int,
    states: spec_fn(TemporalFact) -> Seq<Constraint>,
    c: Constraint,
)
    requires
        0 <= i < facts.len(),
        states(facts[i]).contains(c),
    ensures
        constraints_of(facts, facts[i].rel, states).contains(c),
    decreases facts.len(),
{
    let rel = facts[i].rel;
    let rest = constraints_of(facts.drop_last(), rel, states);
    if i == facts.len() - 1 {
        let own = states(facts[i]);
        let k = choose|k: int| 0 <= k < own.len() && own[k] == c;
        assert(constraints_of(facts, rel, states)[rest.len() + k] == c);
    } else {
        assert(facts.drop_last()[i] == facts[i]);
        lemma_fact_stated(facts.drop_last(), i, states, c);
        let k = choose|k: int| 0 <= k < rest.len() && rest[k] == c;
        assert(constraints_of(facts, rel, states)[k] == c);
    }
}

proof fn lemma_interval_stated(ids: TemporalRelIds, facts: Seq<TemporalFact>, i: int, k: int, n: nat, c: Constraint)
    requires
        0 <= i < facts.len(),
        0 <= k < n <= 5,
        facts[i].rel == ids.intervals()[k].0,
        shape_constraints(ids.intervals()[k].1, facts[i]).contains(c),
    ensures
        interval_constraints(ids, facts, n).contains(c),
    decreases n,
{
    let (rel, shape) = ids.intervals()[n - 1];
    let a = interval_constraints(ids, facts, (n - 1) as nat);
    let states = |f: TemporalFact| shape_constraints(shape, f);
    let b = constraints_of(facts, rel, states);
    let all = interval_constraints(ids, facts, n);
    assert(all == a + b);
    if k == n - 1 {
        lemma_fact_stated(facts, i, states, c);
        let m = choose|m: int| 0 <= m < b.len() && b[m] == c;
        assert(all[a.len() + m] == c);
    } else {
        lemma_interval_stated(ids, facts, i, k, (n - 1) as nat, c);
        let m = choose|m: int| 0 <= m < a.len() && a[m] == c;
        assert(all[m] == c);
    }
}

/// What a fact between intervals states is in force in the network.
proof fn lemma_interval_holds(ids: TemporalRelIds, facts: Seq<TemporalFact>, points: Seq<SymbolId>, i: int, k: int, m: int)
    requires
        0 <= i < facts.len(),
        0 <= k < 5,
        facts[i].rel == ids.intervals()[k].0,
        0 <= m < shape_constraints(ids.intervals()[k].1, facts[i]).len(),
    ensures
        ({
            let c = shape_constraints(ids.intervals()[k].1, facts[i])[m];
            entailed(net_constraints(ids, facts, points), c.a, c.b, c.rel)
        }),
{
    let c = shape_constraints(ids.intervals()[k].1, facts[i])[m];
    lemma_interval_stated(ids, facts, i, k, 5, c);
    let cs = net_constraints(ids, facts, points);
    let a = constraints_of(facts, ids.before, |f: TemporalFact| before_constraints(f));
    let b = interval_constraints(ids, facts, 5);
    let j = choose|j: int| 0 <= j < b.len() && b[j] == c;
    assert(cs[a.len() + j] == c);
    lemma_stated_holds(cs, c);
}

proof fn lemma_part_holds(ids: TemporalRelIds, facts: Seq<TemporalFact>, points: Seq<SymbolId>, i: int, m: int)
    requires
        0 <= i < facts.len(),
        facts[i].rel == ids.temporal_part,
        0 <= m < part_constraints(points, facts[i]).len(),
    ensures
        ({
            let c = part_constraints(points, facts[i])[m];
            entailed(net_constraints(ids, facts, points), c.a, c.b, c.rel)
        }),
{
    let c = part_constraints(points, facts[i])[m];
    let states = |f: TemporalFact| part_constraints(points, f);
    lemma_fact_stated(facts, i, states, c);
    let cs = net_constraints(ids, facts, points);
    let b = constraints_of(facts, ids.temporal_part, states);
    let j = choose|j: int| 0 <= j < b.len() && b[j] == c;
    assert(cs[cs.len() - b.len() + j] == c);
    lemma_stated_holds(cs, c);
}

proof fn lemma_before_holds(ids: TemporalRelIds, facts: Seq<TemporalFact>, points: Seq<SymbolId>, i: int)
    requires
        0 <= i < facts.len(),
        facts[i].rel == ids.before,
    ensures
        entailed(
            net_constraints(ids, facts, points),
            PointKey::Point(facts[i].x),
            PointKey::Point(facts[i].y),
            Order::Lt,
        ),
{
    let c = before_constraints(facts[i])[0];
    let states = |f: TemporalFact| before_constraints(f);
    lemma_fact_stated(facts, i, states, c);
    let cs = net_constraints(ids, facts, points);
    let b = constraints_of(facts, ids.before, states);
    let j = choose|j: int| 0 <= j < b.len() && b[j] == c;
    assert(cs[j] == c);
    lemma_stated_holds(cs, c);
}

/// Every temporal fact is answered with yes: the network built from facts entails
/// each of them as a goal.
pub proof fn law_stated_facts_are_entailed(
    ids: TemporalRelIds,
    facts: Seq<TemporalFact>,
    points: Seq<SymbolId>,
    i: int,
)
    requires
        0 <= i < facts.len(),
        ids.temporal(facts[i].rel),
    ensures
        goal_entailed(
            net_constraints(ids, facts, points),
            ids,
            facts[i].rel,
            facts[i].x,
            facts[i].y,
            points.contains(facts[i].x),
        ),
{
    let f = facts[i];
    let s = ids.intervals();
    if f.rel == ids.before {
        lemma_before_holds(ids, facts, points, i);
    } else if f.rel == ids.earlier {
        assert(s[0] == (ids.earlier, IntervalShape::Earlier));
        lemma_interval_holds(ids, facts, points, i, 0, 2);
    } else if f.rel == ids.meets {
        assert(s[1] == (ids.meets, IntervalShape::Meets));
        lemma_interval_holds(ids, facts, points, i, 1, 2);
    } else if f.rel == ids.during {
        assert(s[2] == (ids.during, IntervalShape::During));
        lemma_interval_holds(ids, facts, points, i, 2, 2);
        lemma_interval_holds(ids, facts, points, i, 2, 3);
    } else if f.rel == ids.starts {
        assert(s[3] == (ids.starts, IntervalShape::Starts));
        lemma_interval_holds(ids, facts, points, i, 3, 2);
        lemma_interval_holds(ids, facts, points, i, 3, 3);
    } else if f.rel == ids.finishes {
        assert(s[4] == (ids.finishes, IntervalShape::Finishes));
        lemma_interval_holds(ids, facts, points, i, 4, 2);
        lemma_interval_holds(ids, facts, points, i, 4, 3);
    } else if points.contains(f.x) {
        lemma_part_holds(ids, facts, points, i, 1);
        lemma_part_holds(ids, facts, points, i, 2);
    } else {
        lemma_part_holds(ids, facts, points, i, 2);
        lemma_part_holds(ids, facts, points, i, 3);
    }
}

// ---------------------------------------------------------------------------
// What the relations mean
// ---------------------------------------------------------------------------

/// No symbol stands for two of the temporal relations.
pub open spec fn relations_differ(ids: TemporalRelIds) -> bool {
    seq![ids.before, ids.earlier, ids.meets, ids.during, ids.starts, ids.finishes, ids.temporal_part].no_duplicates()
}

proof fn lemma_relations_differ(ids: TemporalRelIds)
    requires
        relations_differ(ids),
    ensures
        ids.before != ids.earlier && ids.before != ids.meets && ids.before != ids.during && ids.before != ids.starts
            && ids.before != ids.finishes && ids.before != ids.temporal_part,
        ids.earlier != ids.meets && ids.earlier != ids.during && ids.earlier != ids.starts && ids.earlier != ids.finishes
            && ids.earlier != ids.temporal_part,
        ids.meets != ids.during && ids.meets != ids.starts && ids.meets != ids.finishes && ids.meets != ids.temporal_part,
        ids.during != ids.starts && ids.during != ids.finishes && ids.during != ids.temporal_part,
        ids.starts != ids.finishes && ids.starts != ids.temporal_part && ids.finishes != ids.temporal_part,
{
    let s = seq![ids.before, ids.earlier, ids.meets, ids.during, ids.starts, ids.finishes, ids.temporal_part];
    assert forall|i: int, j: int| 0 <= i < j < 7 implies s[i] != s[j] by {}
    assert(s[0] == ids.before && s[1] == ids.earlier && s[2] == ids.meets && s[3] == ids.during);
    assert(s[4] == ids.starts && s[5] == ids.finishes && s[6] == ids.temporal_part);
}

/// A goal that is answered with yes is true: in every placement of the points that
/// satisfies the constraints, the one point lies before the other, the one interval
/// ends before the other begins, ends where it begins, lies strictly inside it on
/// both sides, begins with it and ends sooner, ends with it and begins later, or lies
/// within it, as the relation says.
pub proof fn law_answered_goals_are_true(
    v: spec_fn(PointKey) -> int,
    cs: Seq<Constraint>,
    ids: TemporalRelIds,
    rel: SymbolId,
    x: SymbolId,
    y: SymbolId,
    x_is_point: bool,
)
    requires
        relations_differ(ids),
        goal_entailed(cs, ids, rel, x, y, x_is_point),
        models(v, cs),
    ensures
        rel == ids.before ==> v(PointKey::Point(x)) < v(PointKey::Point(y)),
        rel == ids.earlier ==> v(PointKey::End(x)) < v(PointKey::Begin(y)),
        rel == ids.meets ==> v(PointKey::End(x)) == v(PointKey::Begin(y)),
        rel == ids.during ==> v(PointKey::Begin(y)) < v(PointKey::Begin(x)) && v(PointKey::End(x)) < v(PointKey::End(y)),
        rel == ids.starts ==> v(PointKey::Begin(x)) == v(PointKey::Begin(y)) && v(PointKey::End(x)) < v(PointKey::End(y)),
        rel == ids.finishes ==> v(PointKey::End(x)) == v(PointKey::End(y)) && v(PointKey::Begin(y)) < v(PointKey::Begin(x)),
        rel == ids.temporal_part && x_is_point ==> v(PointKey::Begin(y)) <= v(PointKey::Point(x)) && v(PointKey::Point(x))
            <= v(PointKey::End(y)),
        rel == ids.temporal_part && !x_is_point ==> v(PointKey::Begin(y)) <= v(PointKey::Begin(x)) && v(PointKey::End(x))
            <= v(PointKey::End(y)),
        ids.temporal(rel),
{
    lemma_relations_differ(ids);
    let os = goal_orders(ids, rel, x, y, x_is_point)->0;
    assert forall|i: int| 0 <= i < os.len() implies #[trigger] placed(v, os[i].0, os[i].1, os[i].2) by {
        assert(entailed(cs, os[i].0, os[i].1, os[i].2));
        law_entailment_is_sound(v, cs, os[i].0, os[i].1);
    }
    assert(os.len() > 0 ==> placed(v, os[0].0, os[0].1, os[0].2));
    assert(os.len() > 1 ==> placed(v, os[1].0, os[1].1, os[1].2));
}

/// What the fact says of the points of its arguments, placed on a line: as for the
/// goal; and an interval ends after it begins.
pub open spec fn fact_holds(v: spec_fn(PointKey) -> int, ids: TemporalRelIds, f: TemporalFact, points: Seq<SymbolId>) -> bool {
    let (bx, ex) = (v(PointKey::Begin(f.x)), v(PointKey::End(f.x)));
    let (by, ey) = (v(PointKey::Begin(f.y)), v(PointKey::End(f.y)));
    let (px, py) = (v(PointKey::Point(f.x)), v(PointKey::Point(f.y)));
    &&& f.rel == ids.before ==> px < py
    &&& f.rel == ids.earlier ==> bx < ex && by < ey && ex < by
    &&& f.rel == ids.meets ==> bx < ex && by < ey && ex == by
    &&& f.rel == ids.during ==> bx < ex && by < ey && by < bx && ex < ey
    &&& f.rel == ids.starts ==> bx < ex && by < ey && bx == by && ex < ey
    &&& f.rel == ids.finishes ==> bx < ex && by < ey && ex == ey && by < bx
    &&& f.rel == ids.temporal_part && points.contains(f.x) ==> by < ey && by <= px && px <= ey
    &&& f.rel == ids.temporal_part && !points.contains(f.x) ==> bx < ex && by < ey && by <= bx && ex <= ey
}

proof fn lemma_of_relation(v: spec_fn(PointKey) -> int, facts: Seq<TemporalFact>, rel: SymbolId, states: spec_fn(
    TemporalFact,
) -> Seq<Constraint>)
    ensures
        models(v, constraints_of(facts, rel, states)) <==> forall|i: int|
            0 <= i < facts.len() && (#[trigger] facts[i]).rel == rel ==> models(v, states(facts[i])),
    decreases facts.len(),
{
    if facts.len() > 0 {
        let d = facts.drop_last();
        lemma_of_relation(v, d, rel, states);
        let rest = constraints_of(d, rel, states);
        let all = constraints_of(facts, rel, states);
        let own = states(facts.last());
        assert forall|i: int| 0 <= i < d.len() implies #[trigger] d[i] == facts[i] by {}
        if facts.last().rel == rel {
            lemma_models_both(v, rest, own);
        }
        if models(v, all) {
            assert forall|i: int| 0 <= i < facts.len() && (#[trigger] facts[i]).rel == rel implies models(v, states(facts[i])) by {
                if i < d.len() {
                    assert(d[i] == facts[i]);
                }
            }
        }
        if forall|i: int| 0 <= i < facts.len() && (#[trigger] facts[i]).rel == rel ==> models(v, states(facts[i])) {
            assert forall|i: int| 0 <= i < d.len() && (#[trigger] d[i]).rel == rel implies models(v, states(d[i])) by {
                assert(facts[i].rel == rel);
            }
            assert(facts[facts.len() - 1] == facts.last());
        }
    }
}

proof fn lemma_models_both(v: spec_fn(PointKey) -> int, a: Seq<Constraint>, b: Seq<Constraint>)
    ensures
        models(v, a + b) <==> models(v, a) && models(v, b),
{
    let c = a + b;
    if models(v, c) {
        assert forall|i: int| 0 <= i < a.len() implies satisfies(v, #[trigger] a[i]) by {
            assert(c[i] == a[i]);
        }
        assert forall|i: int| 0 <= i < b.len() implies satisfies(v, #[trigger] b[i]) by {
            assert(c[a.len() + i] == b[i]);
        }
    }
    if models(v, a) && models(v, b) {
        assert forall|i: int| 0 <= i < c.len() implies satisfies(v, #[trigger] c[i]) by {
            if i < a.len() {
                assert(c[i] == a[i]);
            } else {
                assert(c[i] == b[i - a.len()]);
            }
        }
    }
}

proof fn lemma_models_three(v: spec_fn(PointKey) -> int, cs: Seq<Constraint>)
    ensures
        cs.len() == 1 ==> (models(v, cs) <==> satisfies(v, cs[0])),
        cs.len() == 3 ==> (models(v, cs) <==> satisfies(v, cs[0]) && satisfies(v, cs[1]) && satisfies(v, cs[2])),
        cs.len() == 4 ==> (models(v, cs) <==> satisfies(v, cs[0]) && satisfies(v, cs[1]) && satisfies(v, cs[2]) && satisfies(
            v,
            cs[3],
        )),
{
}

proof fn lemma_intervals(v: spec_fn(PointKey) -> int, ids: TemporalRelIds, facts: Seq<TemporalFact>, n: nat)
    requires
        n <= 5,
    ensures
        models(v, interval_constraints(ids, facts, n)) <==> forall|k: int, i: int| #![trigger ids.intervals()[k], facts[i]]
            0 <= k < n && 0 <= i < facts.len() && facts[i].rel == ids.intervals()[k].0 ==> models(
                v,
                shape_constraints(ids.intervals()[k].1, facts[i]),
            ),
    decreases n,
{
    if n > 0 {
        lemma_intervals(v, ids, facts, (n - 1) as nat);
        let (rel, shape) = ids.intervals()[n - 1];
        let states = |f: TemporalFact| shape_constraints(shape, f);
        lemma_of_relation(v, facts, rel, states);
        lemma_models_both(v, interval_constraints(ids, facts, (n - 1) as nat), constraints_of(facts, rel, states));
        if models(v, interval_constraints(ids, facts, n)) {
            assert forall|k: int, i: int| #![trigger ids.intervals()[k], facts[i]]
                0 <= k < n && 0 <= i < facts.len() && facts[i].rel == ids.intervals()[k].0 implies models(
                v,
                shape_constraints(ids.intervals()[k].1, facts[i]),
            ) by {
                if k == n - 1 {
                    assert(models(v, states(facts[i])));
                }
            }
        }
        if forall|k: int, i: int| #![trigger ids.intervals()[k], facts[i]]
            0 <= k < n && 0 <= i < facts.len() && facts[i].rel == ids.intervals()[k].0 ==> models(
                v,
                shape_constraints(ids.intervals()[k].1, facts[i]),
            ) {
            assert forall|i: int| 0 <= i < facts.len() && (#[trigger] facts[i]).rel == rel implies models(v, states(facts[i])) by {
                assert(ids.intervals()[n - 1].0 == rel);
            }
        }
    }
}

/// The network built from facts is satisfied by exactly the placements in which all
/// the facts hold.
pub proof fn law_networks_say_what_the_facts_say(
    v: spec_fn(PointKey) -> int,
    ids: TemporalRelIds,
    facts: Seq<TemporalFact>,
    points: Seq<SymbolId>,
)
    ensures
        models(v, net_constraints(ids, facts, points)) <==> forall|i: int|
            0 <= i < facts.len() ==> fact_holds(v, ids, #[trigger] facts[i], points),
{
    let s = ids.intervals();
    let sb = |f: TemporalFact| before_constraints(f);
    let sp = |f: TemporalFact| part_constraints(points, f);
    let a = constraints_of(facts, ids.before, sb);
    let b = interval_constraints(ids, facts, 5);
    let c = constraints_of(facts, ids.temporal_part, sp);
    lemma_models_both(v, a, b);
    lemma_models_both(v, a + b, c);
    lemma_of_relation(v, facts, ids.before, sb);
    lemma_intervals(v, ids, facts, 5);
    lemma_of_relation(v, facts, ids.temporal_part, sp);
    assert(s[0] == (ids.earlier, IntervalShape::Earlier));
    assert(s[1] == (ids.meets, IntervalShape::Meets));
    assert(s[2] == (ids.during, IntervalShape::During));
    assert(s[3] == (ids.starts, IntervalShape::Starts));
    assert(s[4] == (ids.finishes, IntervalShape::Finishes));
    if models(v, net_constraints(ids, facts, points)) {
        assert forall|i: int| 0 <= i < facts.len() implies fact_holds(v, ids, #[trigger] facts[i], points) by {
            lemma_fact_means(v, ids, facts[i], points);
            if facts[i].rel == ids.before {
                assert(models(v, sb(facts[i])));
            }
            if facts[i].rel == ids.temporal_part {
                assert(models(v, sp(facts[i])));
            }
        }
    }
    if forall|i: int| 0 <= i < facts.len() ==> fact_holds(v, ids, #[trigger] facts[i], points) {
        assert forall|i: int| 0 <= i < facts.len() && (#[trigger] facts[i]).rel == ids.before implies models(v, sb(facts[i])) by {
            assert(fact_holds(v, ids, facts[i], points));
            lemma_fact_means(v, ids, facts[i], points);
        }
        assert forall|k: int, i: int| #![trigger ids.intervals()[k], facts[i]]
            0 <= k < 5 && 0 <= i < facts.len() && facts[i].rel == ids.intervals()[k].0 implies models(
            v,
            shape_constraints(ids.intervals()[k].1, facts[i]),
        ) by {
            assert(fact_holds(v, ids, facts[i], points));
            lemma_fact_means(v, ids, facts[i], points);
            assert(k == 0 || k == 1 || k == 2 || k == 3 || k == 4);
        }
        assert forall|i: int| 0 <= i < facts.len() && (#[trigger] facts[i]).rel == ids.temporal_part implies models(
            v,
            sp(facts[i]),
        ) by {
            assert(fact_holds(v, ids, facts[i], points));
            lemma_fact_means(v, ids, facts[i], points);
        }
    }
}

proof fn lemma_fact_means(v: spec_fn(PointKey) -> int, ids: TemporalRelIds, f: TemporalFact, points: Seq<SymbolId>)
    ensures
        ({
            let means = |shape: IntervalShape| models(v, shape_constraints(shape, f));
            fact_holds(v, ids, f, points) <==> {
                &&& f.rel == ids.before ==> models(v, before_constraints(f))
                &&& f.rel == ids.earlier ==> means(IntervalShape::Earlier)
                &&& f.rel == ids.meets ==> means(IntervalShape::Meets)
                &&& f.rel == ids.during ==> means(IntervalShape::During)
                &&& f.rel == ids.starts ==> means(IntervalShape::Starts)
                &&& f.rel == ids.finishes ==> means(IntervalShape::Finishes)
                &&& f.rel == ids.temporal_part ==> models(v, part_constraints(points, f))
            }
        }),
{
    lemma_models_three(v, before_constraints(f));
    lemma_models_three(v, shape_constraints(IntervalShape::Earlier, f));
    lemma_models_three(v, shape_constraints(IntervalShape::Meets, f));
    lemma_models_three(v, shape_constraints(IntervalShape::During, f));
    lemma_models_three(v, shape_constraints(IntervalShape::Starts, f));
    lemma_models_three(v, shape_constraints(IntervalShape::Finishes, f));
    lemma_models_three(v, part_constraints(points, f));
}

/// What is answered with yes follows from the facts: wherever all the facts hold, so
/// does the goal.
pub proof fn law_answers_follow_from_the_facts(
    v: spec_fn(PointKey) -> int,
    ids: TemporalRelIds,
    facts: Seq<TemporalFact>,
    points: Seq<SymbolId>,
    goal: TemporalFact,
)
    requires
        relations_differ(ids),
        forall|i: int| 0 <= i < facts.len() ==> fact_holds(v, ids, #[trigger] facts[i], points),
        goal_entailed(net_constraints(ids, facts, points), ids, goal.rel, goal.x, goal.y, points.contains(goal.x)),
    ensures
        goal.rel == ids.before ==> v(PointKey::Point(goal.x)) < v(PointKey::Point(goal.y)),
        goal.rel == ids.earlier ==> v(PointKey::End(goal.x)) < v(PointKey::Begin(goal.y)),
        goal.rel == ids.meets ==> v(PointKey::End(goal.x)) == v(PointKey::Begin(goal.y)),
        goal.rel == ids.during ==> v(PointKey::Begin(goal.y)) < v(PointKey::Begin(goal.x)) && v(PointKey::End(goal.x)) < v(
            PointKey::End(goal.y),
        ),
        goal.rel == ids.starts ==> v(PointKey::Begin(goal.x)) == v(PointKey::Begin(goal.y)) && v(PointKey::End(goal.x)) < v(
            PointKey::End(goal.y),
        ),
        goal.rel == ids.finishes ==> v(PointKey::End(goal.x)) == v(PointKey::End(goal.y)) && v(PointKey::Begin(goal.y)) < v(
            PointKey::Begin(goal.x),
        ),
        goal.rel == ids.temporal_part && !points.contains(goal.x) ==> v(PointKey::Begin(goal.y)) <= v(
            PointKey::Begin(goal.x),
        ) && v(PointKey::End(goal.x)) <= v(PointKey::End(goal.y)),
        goal.rel == ids.temporal_part && points.contains(goal.x) ==> v(PointKey::Begin(goal.y)) <= v(
            PointKey::Point(goal.x),
        ) && v(PointKey::Point(goal.x)) <= v(PointKey::End(goal.y)),
{
    law_networks_say_what_the_facts_say(v, ids, facts, points);
    law_answered_goals_are_true(
        v,
        net_constraints(ids, facts, points),
        ids,
        goal.rel,
        goal.x,
        goal.y,
        points.contains(goal.x),
    );
}

/// A goal about known points that comes down to orders, not to equality, is answered
/// with yes wherever it is true: if it holds in every placement that satisfies the
/// constraints, and there is one, it is entailed.
pub proof fn law_true_orders_are_answered(
    cs: Seq<Constraint>,
    ids: TemporalRelIds,
    x: SymbolId,
    y: SymbolId,
    x_is_point: bool,
)
    requires
        relations_differ(ids),
        acyclic(cs),
    ensures
        known(cs, PointKey::Point(x)) && known(cs, PointKey::Point(y)) && (forall|v: spec_fn(PointKey) -> int| #[trigger]
            models(v, cs) ==> v(PointKey::Point(x)) < v(PointKey::Point(y))) ==> goal_entailed(
            cs,
            ids,
            ids.before,
            x,
            y,
            x_is_point,
        ),
        known(cs, PointKey::End(x)) && known(cs, PointKey::Begin(y)) && (forall|v: spec_fn(PointKey) -> int| #[trigger]
            models(v, cs) ==> v(PointKey::End(x)) < v(PointKey::Begin(y))) ==> goal_entailed(
            cs,
            ids,
            ids.earlier,
            x,
            y,
            x_is_point,
        ),
        intervals_known(cs, x, y) && (forall|v: spec_fn(PointKey) -> int| #[trigger]
            models(v, cs) ==> v(PointKey::Begin(y)) < v(PointKey::Begin(x)) && v(PointKey::End(x)) < v(PointKey::End(y)))
            ==> goal_entailed(cs, ids, ids.during, x, y, x_is_point),
        intervals_known(cs, x, y) && (forall|v: spec_fn(PointKey) -> int| #[trigger]
            models(v, cs) ==> v(PointKey::Begin(y)) <= v(PointKey::Begin(x)) && v(PointKey::End(x)) <= v(PointKey::End(y)))
            ==> goal_entailed(cs, ids, ids.temporal_part, x, y, false),
        intervals_known(cs, y, y) && known(cs, PointKey::Point(x)) && (forall|v: spec_fn(PointKey) -> int| #[trigger]
            models(v, cs) ==> v(PointKey::Begin(y)) <= v(PointKey::Point(x)) && v(PointKey::Point(x)) <= v(
                PointKey::End(y),
            )) ==> goal_entailed(cs, ids, ids.temporal_part, x, y, true),
{
    lemma_relations_differ(ids);
    let (bx, ex, px) = (PointKey::Begin(x), PointKey::End(x), PointKey::Point(x));
    let (by, ey, py) = (PointKey::Begin(y), PointKey::End(y), PointKey::Point(y));
    if known(cs, px) && known(cs, py) {
        law_entailment_is_complete(cs, px, py);
    }
    if known(cs, ex) && known(cs, by) {
        law_entailment_is_complete(cs, ex, by);
    }
    if intervals_known(cs, x, y) {
        law_entailment_is_complete(cs, by, bx);
        law_entailment_is_complete(cs, ex, ey);
    }
    if intervals_known(cs, y, y) && known(cs, px) {
        law_entailment_is_complete(cs, by, px);
        law_entailment_is_complete(cs, px, ey);
    }
}

/// The ends of both intervals occur in the constraints.
pub open spec fn intervals_known(cs: Seq<Constraint>, x: SymbolId, y: SymbolId) -> bool {
    known(cs, PointKey::Begin(x)) && known(cs, PointKey::End(x)) && known(cs, PointKey::Begin(y)) && known(
        cs,
        PointKey::End(y),
    )
}

/// Labels that no equality among the constraints tells apart.
pub open spec fn equals_agree(w: spec_fn(PointKey) -> int, cs: Seq<Constraint>) -> bool {
    forall|i: int| 0 <= i < cs.len() && (#[trigger] cs[i]).rel == Order::Eq ==> w(cs[i].a) == w(cs[i].b)
}

proof fn lemma_eq_path_labels(w: spec_fn(PointKey) -> int, cs: Seq<Constraint>, p: Seq<Hop>, a: PointKey, b: PointKey)
    requires
        equals_agree(w, cs),
        is_path(eq_hops(cs), p, a, b),
    ensures
        w(a) == w(b),
    decreases p.len(),
{
    if p.len() > 0 {
        let h = p.last();
        lemma_eq_path_labels(w, cs, p.drop_last(), a, h.from);
        let i = choose|i: int| 0 <= i < cs.len() && (#[trigger] cs[i]).rel == Order::Eq && gives(cs[i], h);
        assert(w(cs[i].a) == w(cs[i].b));
    }
}

/// Two known points count as equal exactly if the equalities among the constraints
/// make them so: no labels that agree wherever an equality is stated tell them apart.
pub proof fn law_equality_is_what_is_stated(cs: Seq<Constraint>, a: PointKey, b: PointKey)
    requires
        known(cs, a),
        known(cs, b),
    ensures
        entailed(cs, a, b, Order::Eq) <==> forall|w: spec_fn(PointKey) -> int| #[trigger] equals_agree(w, cs) ==> w(a) == w(b),
{
    let hs = eq_hops(cs);
    if reach(hs, a, b) {
        let p = choose|p: Seq<Hop>| is_path(hs, p, a, b);
        assert forall|w: spec_fn(PointKey) -> int| #[trigger] equals_agree(w, cs) implies w(a) == w(b) by {
            lemma_eq_path_labels(w, cs, p, a, b);
        }
    } else {
        let w = |k: PointKey|
            if reach(hs, a, k) {
                1int
            } else {
                0int
            };
        assert forall|i: int| 0 <= i < cs.len() && (#[trigger] cs[i]).rel == Order::Eq implies w(cs[i].a) == w(cs[i].b) by {
            let there = Hop { from: cs[i].a, to: cs[i].b, strict: false, sid: cs[i].sid };
            let back = Hop { from: cs[i].b, to: cs[i].a, strict: false, sid: cs[i].sid };
            assert(gives(cs[i], there) && gives(cs[i], back));
            lemma_one_hop(hs, there);
            lemma_one_hop(hs, back);
            if reach(hs, a, cs[i].a) {
                let p = choose|p: Seq<Hop>| is_path(hs, p, a, cs[i].a);
                lemma_path_join(hs, p, seq![there], a, cs[i].a, cs[i].b);
            }
            if reach(hs, a, cs[i].b) {
                let p = choose|p: Seq<Hop>| is_path(hs, p, a, cs[i].b);
                lemma_path_join(hs, p, seq![back], a, cs[i].b, cs[i].a);
            }
        }
        assert(equals_agree(w, cs));
        assert(is_path(hs, Seq::empty(), a, a));
    }
}

/// A goal about known points that asks for an equality is answered with yes wherever
/// the equality is stated, directly or by way of others, and the order beside it holds
/// in every placement that satisfies the constraints.
pub proof fn law_stated_equalities_are_answered(
    cs: Seq<Constraint>,
    ids: TemporalRelIds,
    x: SymbolId,
    y: SymbolId,
    x_is_point: bool,
)
    requires
        relations_differ(ids),
        acyclic(cs),
        intervals_known(cs, x, y),
    ensures
        (forall|w: spec_fn(PointKey) -> int| #[trigger]
            equals_agree(w, cs) ==> w(PointKey::End(x)) == w(PointKey::Begin(y))) ==> goal_entailed(
            cs,
            ids,
            ids.meets,
            x,
            y,
            x_is_point,
        ),
        (forall|w: spec_fn(PointKey) -> int| #[trigger]
            equals_agree(w, cs) ==> w(PointKey::Begin(x)) == w(PointKey::Begin(y))) && (forall|
            v: spec_fn(PointKey) -> int,
        | #[trigger] models(v, cs) ==> v(PointKey::End(x)) < v(PointKey::End(y))) ==> goal_entailed(
            cs,
            ids,
            ids.starts,
            x,
            y,
            x_is_point,
        ),
        (forall|w: spec_fn(PointKey) -> int| #[trigger]
            equals_agree(w, cs) ==> w(PointKey::End(x)) == w(PointKey::End(y))) && (forall|v: spec_fn(PointKey) -> int|
         #[trigger] models(v, cs) ==> v(PointKey::Begin(y)) < v(PointKey::Begin(x))) ==> goal_entailed(
            cs,
            ids,
            ids.finishes,
            x,
            y,
            x_is_point,
        ),
{
    lemma_relations_differ(ids);
    law_equality_is_what_is_stated(cs, PointKey::End(x), PointKey::Begin(y));
    law_equality_is_what_is_stated(cs, PointKey::Begin(x), PointKey::Begin(y));
    law_equality_is_what_is_stated(cs, PointKey::End(x), PointKey::End(y));
    law_entailment_is_complete(cs, PointKey::End(x), PointKey::End(y));
    law_entailment_is_complete(cs, PointKey::Begin(y), PointKey::Begin(x));
}

/// The sentences cited for a goal that is answered with yes bear it out: it is true
/// in every placement that satisfies their constraints, and those that come from no
/// sentence.
pub proof fn law_cited_sentences_bear_the_goal_out(
    v: spec_fn(PointKey) -> int,
    cs: Seq<Constraint>,
    ids: TemporalRelIds,
    rel: SymbolId,
    x: SymbolId,
    y: SymbolId,
    x_is_point: bool,
    os: Seq<(PointKey, PointKey, Order)>,
    sids: Set<SentenceId>,
)
    requires
        relations_differ(ids),
        goal_entailed(cs, ids, rel, x, y, x_is_point),
        goal_orders(ids, rel, x, y, x_is_point) == Some(os),
        goal_witnesses(cs, os, sids),
        models_cited(v, cs, sids),
    ensures
        rel == ids.before ==> v(PointKey::Point(x)) < v(PointKey::Point(y)),
        rel == ids.earlier ==> v(PointKey::End(x)) < v(PointKey::Begin(y)),
        rel == ids.meets ==> v(PointKey::End(x)) == v(PointKey::Begin(y)),
        rel == ids.during ==> v(PointKey::Begin(y)) < v(PointKey::Begin(x)) && v(PointKey::End(x)) < v(PointKey::End(y)),
        rel == ids.starts ==> v(PointKey::Begin(x)) == v(PointKey::Begin(y)) && v(PointKey::End(x)) < v(PointKey::End(y)),
        rel == ids.finishes ==> v(PointKey::End(x)) == v(PointKey::End(y)) && v(PointKey::Begin(y)) < v(PointKey::Begin(x)),
        rel == ids.temporal_part && x_is_point ==> v(PointKey::Begin(y)) <= v(PointKey::Point(x)) && v(PointKey::Point(x))
            <= v(PointKey::End(y)),
        rel == ids.temporal_part && !x_is_point ==> v(PointKey::Begin(y)) <= v(PointKey::Begin(x)) && v(PointKey::End(x))
            <= v(PointKey::End(y)),
{
    lemma_relations_differ(ids);
    assert forall|i: int| 0 <= i < os.len() implies #[trigger] placed(v, os[i].0, os[i].1, os[i].2) by {
        let gs = goal_orders(ids, rel, x, y, x_is_point)->0;
        assert(entailed(cs, gs[i].0, gs[i].1, gs[i].2));
        law_goal_witnesses_suffice(v, cs, os, sids, i);
    }
    assert(os.len() > 0 ==> placed(v, os[0].0, os[0].1, os[0].2));
    assert(os.len() > 1 ==> placed(v, os[1].0, os[1].1, os[1].2));
}

/// The cited sentences are those of a shortest way: every other way from the one point to
/// the other, strict where the order is, takes at least as many steps.
pub proof fn law_witnesses_take_the_shortest_way(
    cs: Seq<Constraint>,
    a: PointKey,
    b: PointKey,
    need_strict: bool,
    sids: Seq<SentenceId>,
    q: Seq<Hop>,
)
    requires
        is_witness(cs, a, b, need_strict, sids),
        is_path(hops(cs), q, a, b),
        need_strict ==> crosses(q),
    ensures
        exists|p: Seq<Hop>| #[trigger]
            is_path(hops(cs), p, a, b) && (need_strict ==> crosses(p)) && cited(p) == sids && p.len() <= q.len(),
{
    if !linked(hops(cs), a, b, need_strict) {
        assert(reach(hops(cs), a, b));
        if need_strict {
            assert(crate::temporal::reach_strict(hops(cs), a, b));
        }
    }
    let p = choose|p: Seq<Hop>| is_shortest(hops(cs), p, a, b, need_strict) && sids == #[trigger] cited(p);
    assert(is_path(hops(cs), p, a, b));
}

} // verus!
