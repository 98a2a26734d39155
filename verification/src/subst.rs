//! Substitutions over trees: instantiation, solutions of a set of bindings,
//! and the substitution that acyclic bindings stand for.
use vstd::prelude::*;

use crate::term::Tree;

verus! {

/// The tree `t` with every variable `v` replaced by `f(v)`.
pub open spec fn inst(f: spec_fn(int) -> Tree, t: Tree) -> Tree
    decreases t,
{
    match t {
        Tree::Var(v) => f(v),
        Tree::App(ts) => Tree::App(
            Seq::new(
                ts.len(),
                |i: int|
                    if 0 <= i < ts.len() {
                        inst(f, ts[i])
                    } else {
                        arbitrary()
                    },
            ),
        ),
        _ => t,
    }
}

/// The elements of an application, each with its variables replaced.
pub open spec fn insts(f: spec_fn(int) -> Tree, ts: Seq<Tree>) -> Seq<Tree> {
    Seq::new(ts.len(), |i: int| inst(f, ts[i]))
}

/// The tree `t` with every variable moved up by `off`.
pub open spec fn shift(t: Tree, off: int) -> Tree {
    inst(|v: int| Tree::Var(v + off), t)
}

/// Variable `v` occurs in `t`.
pub open spec fn occurs(v: int, t: Tree) -> bool
    decreases t,
{
    match t {
        Tree::Var(u) => u == v,
        Tree::App(ts) => exists|i: int| 0 <= i < ts.len() && occurs(v, #[trigger] ts[i]),
        _ => false,
    }
}

/// The number of nodes of a tree.
pub open spec fn size(t: Tree) -> nat
    decreases t,
{
    match t {
        Tree::App(ts) => 1 + sizes(ts),
        _ => 1,
    }
}

/// The number of nodes of a sequence of trees.
pub open spec fn sizes(ts: Seq<Tree>) -> nat
    decreases ts,
{
    if ts.len() == 0 {
        0
    } else {
        sizes(ts.drop_last()) + size(ts.last())
    }
}

/// Every variable of `t` is below `n`.
pub open spec fn within(t: Tree, n: int) -> bool {
    forall|v: int| #[trigger] occurs(v, t) ==> 0 <= v < n
}

/// No variable occurs in `t`.
pub open spec fn ground(t: Tree) -> bool {
    forall|v: int| !#[trigger] occurs(v, t)
}

/// Slot `i` is bound.
pub open spec fn bound(s: Seq<Option<Tree>>, i: int) -> bool {
    0 <= i < s.len() && s[i] is Some
}

/// The substitution `f` makes every bound slot equal to its binding.
pub open spec fn solves(f: spec_fn(int) -> Tree, s: Seq<Option<Tree>>) -> bool {
    forall|i: int| #[trigger] bound(s, i) ==> f(i) == inst(f, s[i]->0)
}

/// Every binding mentions only slots of lower rank than its own.
pub open spec fn ranked(s: Seq<Option<Tree>>, r: Seq<nat>) -> bool {
    &&& r.len() == s.len()
    &&& forall|i: int, v: int|
        bound(s, i) && #[trigger] occurs(v, s[i]->0) ==> 0 <= v < s.len() && r[v] < r[i]
}

/// No slot depends on itself.
pub open spec fn acyclic(s: Seq<Option<Tree>>) -> bool {
    exists|r: Seq<nat>| ranked(s, r)
}

/// `f` is the substitution that the bindings stand for: it solves them and
/// leaves every other variable alone.
pub open spec fn stands_for(s: Seq<Option<Tree>>, f: spec_fn(int) -> Tree) -> bool {
    forall|i: int| #[trigger]
        f(i) == if bound(s, i) {
            inst(f, s[i]->0)
        } else {
            Tree::Var(i)
        }
}

/// The substitution that acyclic bindings stand for.
pub open spec fn meaning(s: Seq<Option<Tree>>) -> spec_fn(int) -> Tree {
    choose|f: spec_fn(int) -> Tree| stands_for(s, f)
}

/// The tree `t` under the bindings, resolved through and through.
pub open spec fn resolved(s: Seq<Option<Tree>>, t: Tree) -> Tree {
    inst(meaning(s), t)
}

/// The number of slots that are not bound.
pub open spec fn unbound(s: Seq<Option<Tree>>) -> nat
    decreases s.len(),
{
    if s.len() == 0 {
        0
    } else {
        unbound(s.drop_last()) + if s.last() is Some {
            0nat
        } else {
            1nat
        }
    }
}

// ---------------------------------------------------------------------------
// Instantiation
// ---------------------------------------------------------------------------

pub broadcast proof fn lemma_inst_app(f: spec_fn(int) -> Tree, ts: Seq<Tree>)
    ensures
        #[trigger] inst(f, Tree::App(ts)) == Tree::App(insts(f, ts)),
{
    reveal_with_fuel(inst, 2);
    assert(inst(f, Tree::App(ts))->App_0 =~= insts(f, ts));
}

pub proof fn lemma_occurs_elem(v: int, ts: Seq<Tree>, i: int)
    requires
        0 <= i < ts.len(),
        occurs(v, ts[i]),
    ensures
        occurs(v, Tree::App(ts)),
{
    reveal_with_fuel(occurs, 2);
    let t = Tree::App(ts);
    assert(occurs(v, t->App_0[i]));
}

pub proof fn lemma_occurs_split(v: int, ts: Seq<Tree>) -> (i: int)
    requires
        occurs(v, Tree::App(ts)),
    ensures
        0 <= i < ts.len(),
        occurs(v, ts[i]),
{
    choose|i: int| 0 <= i < ts.len() && occurs(v, #[trigger] ts[i])
}

/// An application is ground if its elements are.
pub proof fn lemma_ground_app(ts: Seq<Tree>)
    ensures
        ground(Tree::App(ts)) <==> forall|i: int| 0 <= i < ts.len() ==> ground(#[trigger] ts[i]),
{
    if ground(Tree::App(ts)) {
        assert forall|i: int| 0 <= i < ts.len() implies ground(#[trigger] ts[i]) by {
            assert forall|v: int| !#[trigger] occurs(v, ts[i]) by {
                if occurs(v, ts[i]) {
                    lemma_occurs_elem(v, ts, i);
                }
            }
        }
    } else {
        let v = choose|v: int| #[trigger] occurs(v, Tree::App(ts));
        let i = lemma_occurs_split(v, ts);
        assert(!ground(ts[i]));
    }
}

/// Substitutions that agree on the variables of a tree treat it alike.
pub proof fn lemma_inst_agree(f: spec_fn(int) -> Tree, g: spec_fn(int) -> Tree, t: Tree)
    requires
        forall|v: int| #[trigger] occurs(v, t) ==> f(v) == g(v),
    ensures
        inst(f, t) == inst(g, t),
    decreases t,
{
    match t {
        Tree::Var(v) => {
            assert(occurs(v, t));
        },
        Tree::App(ts) => {
            lemma_inst_app(f, ts);
            lemma_inst_app(g, ts);
            assert forall|i: int| 0 <= i < ts.len() implies inst(f, ts[i]) == inst(g, ts[i]) by {
                assert forall|v: int| #[trigger] occurs(v, ts[i]) implies f(v) == g(v) by {
                    lemma_occurs_elem(v, ts, i);
                }
                lemma_inst_agree(f, g, ts[i]);
            }
            assert(insts(f, ts) =~= insts(g, ts));
        },
        _ => {},
    }
}

/// Replacing twice is replacing once by the composition.
pub proof fn lemma_inst_compose(f: spec_fn(int) -> Tree, g: spec_fn(int) -> Tree, t: Tree)
    ensures
        inst(f, inst(g, t)) == inst(|v: int| inst(f, g(v)), t),
    decreases t,
{
    let h = |v: int| inst(f, g(v));
    match t {
        Tree::App(ts) => {
            lemma_inst_app(g, ts);
            lemma_inst_app(h, ts);
            lemma_inst_app(f, insts(g, ts));
            assert forall|i: int| 0 <= i < ts.len() implies inst(f, inst(g, ts[i])) == inst(h, ts[i]) by {
                lemma_inst_compose(f, g, ts[i]);
            }
            assert(insts(f, insts(g, ts)) =~= insts(h, ts));
        },
        _ => {},
    }
}

/// Replacing every variable by itself changes nothing.
pub proof fn lemma_inst_id(f: spec_fn(int) -> Tree, t: Tree)
    requires
        forall|v: int| #[trigger] occurs(v, t) ==> f(v) == Tree::Var(v),
    ensures
        inst(f, t) == t,
    decreases t,
{
    match t {
        Tree::Var(v) => {
            assert(occurs(v, t));
        },
        Tree::App(ts) => {
            lemma_inst_app(f, ts);
            assert forall|i: int| 0 <= i < ts.len() implies inst(f, ts[i]) == ts[i] by {
                assert forall|v: int| #[trigger] occurs(v, ts[i]) implies f(v) == Tree::Var(v) by {
                    lemma_occurs_elem(v, ts, i);
                }
                lemma_inst_id(f, ts[i]);
            }
            assert(insts(f, ts) =~= ts);
        },
        _ => {},
    }
}

pub proof fn lemma_shift_zero(t: Tree)
    ensures
        shift(t, 0) == t,
{
    lemma_inst_id(|v: int| Tree::Var(v + 0), t);
}

/// A variable of an instance comes from a variable of the tree.
pub proof fn lemma_occurs_inst(w: int, f: spec_fn(int) -> Tree, t: Tree)
    ensures
        occurs(w, inst(f, t)) <==> exists|v: int| #[trigger] occurs(v, t) && occurs(w, f(v)),
    decreases t,
{
    match t {
        Tree::Var(v) => {
            assert(occurs(v, t));
        },
        Tree::App(ts) => {
            lemma_inst_app(f, ts);
            let us = insts(f, ts);
            if occurs(w, Tree::App(us)) {
                let i = lemma_occurs_split(w, us);
                lemma_occurs_inst(w, f, ts[i]);
                let v = choose|v: int| #[trigger] occurs(v, ts[i]) && occurs(w, f(v));
                lemma_occurs_elem(v, ts, i);
            }
            if exists|v: int| #[trigger] occurs(v, t) && occurs(w, f(v)) {
                let v = choose|v: int| #[trigger] occurs(v, t) && occurs(w, f(v));
                let i = lemma_occurs_split(v, ts);
                lemma_occurs_inst(w, f, ts[i]);
                assert(occurs(w, us[i]));
                lemma_occurs_elem(w, us, i);
            }
        },
        _ => {},
    }
}

/// One element of a sequence is no larger than the whole.
pub proof fn lemma_size_elem(ts: Seq<Tree>, i: int)
    requires
        0 <= i < ts.len(),
    ensures
        size(ts[i]) <= sizes(ts),
        size(ts[i]) < size(Tree::App(ts)),
    decreases ts.len(),
{
    if i < ts.len() - 1 {
        lemma_size_elem(ts.drop_last(), i);
        assert(ts.drop_last()[i] == ts[i]);
    }
}

/// The value of a variable of `t` is no larger than the instance, and smaller
/// where `t` is an application.
pub proof fn lemma_size_inst(v: int, f: spec_fn(int) -> Tree, t: Tree)
    requires
        occurs(v, t),
    ensures
        size(f(v)) <= size(inst(f, t)),
        t is App ==> size(f(v)) < size(inst(f, t)),
    decreases t,
{
    if let Tree::App(ts) = t {
        lemma_inst_app(f, ts);
        let i = lemma_occurs_split(v, ts);
        lemma_size_inst(v, f, ts[i]);
        lemma_size_elem(insts(f, ts), i);
    }
}

// ---------------------------------------------------------------------------
// Bindings
// ---------------------------------------------------------------------------

/// The substitution that chases each slot through at most `n` bindings.
spec fn unfold(s: Seq<Option<Tree>>, n: nat) -> spec_fn(int) -> Tree
    decreases n,
{
    if n == 0 {
        |i: int| Tree::Var(i)
    } else {
        let f = unfold(s, (n - 1) as nat);
        |i: int|
            if bound(s, i) {
                inst(f, s[i]->0)
            } else {
                Tree::Var(i)
            }
    }
}

proof fn lemma_unfold_stable(s: Seq<Option<Tree>>, r: Seq<nat>, n: nat, m: nat, i: int)
    requires
        ranked(s, r),
        bound(s, i) ==> r[i] < n && r[i] < m,
    ensures
        unfold(s, n)(i) == unfold(s, m)(i),
    decreases n,
{
    if bound(s, i) {
        let f = unfold(s, (n - 1) as nat);
        let g = unfold(s, (m - 1) as nat);
        let t = s[i]->0;
        assert forall|v: int| #[trigger] occurs(v, t) implies f(v) == g(v) by {
            lemma_unfold_stable(s, r, (n - 1) as nat, (m - 1) as nat, v);
        }
        lemma_inst_agree(f, g, t);
    }
}

proof fn lemma_upper_bound(r: Seq<nat>) -> (n: nat)
    ensures
        forall|i: int| 0 <= i < r.len() ==> r[i] < n,
    decreases r.len(),
{
    if r.len() == 0 {
        0
    } else {
        let m = lemma_upper_bound(r.drop_last());
        let n = if m > r.last() {
            m
        } else {
            r.last() + 1
        };
        assert forall|i: int| 0 <= i < r.len() implies r[i] < n by {
            if i < r.len() - 1 {
                assert(r.drop_last()[i] == r[i]);
            }
        }
        n
    }
}

/// Acyclic bindings stand for a substitution.
pub proof fn lemma_meaning(s: Seq<Option<Tree>>)
    requires
        acyclic(s),
    ensures
        stands_for(s, meaning(s)),
        solves(meaning(s), s),
{
    let r = choose|r: Seq<nat>| ranked(s, r);
    let n = lemma_upper_bound(r);
    let f = unfold(s, n);
    assert forall|i: int| #[trigger]
        f(i) == if bound(s, i) {
            inst(f, s[i]->0)
        } else {
            Tree::Var(i)
        } by {
        if bound(s, i) {
            assert(r[i] < n);
            let g = unfold(s, (n - 1) as nat);
            let t = s[i]->0;
            assert forall|v: int| #[trigger] occurs(v, t) implies g(v) == f(v) by {
                lemma_unfold_stable(s, r, (n - 1) as nat, n, v);
            }
            lemma_inst_agree(g, f, t);
        }
    }
    assert(stands_for(s, f));
}

/// What any solution makes of a tree it makes of the resolved tree.
pub proof fn lemma_solution_factors(g: spec_fn(int) -> Tree, s: Seq<Option<Tree>>, t: Tree)
    requires
        acyclic(s),
        solves(g, s),
    ensures
        inst(g, resolved(s, t)) == inst(g, t),
{
    let r = choose|r: Seq<nat>| ranked(s, r);
    let m = meaning(s);
    lemma_meaning(s);
    let h = |v: int| inst(g, m(v));
    lemma_inst_compose(g, m, t);
    assert forall|v: int| #[trigger] occurs(v, t) implies h(v) == g(v) by {
        lemma_slot_factors(g, s, r, v);
    }
    lemma_inst_agree(h, g, t);
}

proof fn lemma_slot_factors(g: spec_fn(int) -> Tree, s: Seq<Option<Tree>>, r: Seq<nat>, v: int)
    requires
        ranked(s, r),
        solves(g, s),
    ensures
        inst(g, meaning(s)(v)) == g(v),
    decreases (if bound(s, v) { r[v] + 1 } else { 0 }),
{
    let m = meaning(s);
    lemma_meaning(s);
    assert(m(v) == if bound(s, v) { inst(m, s[v]->0) } else { Tree::Var(v) });
    if bound(s, v) {
        let t = s[v]->0;
        let h = |u: int| inst(g, m(u));
        lemma_inst_compose(g, m, t);
        assert forall|u: int| #[trigger] occurs(u, t) implies h(u) == g(u) by {
            lemma_slot_factors(g, s, r, u);
        }
        lemma_inst_agree(h, g, t);
    }
}

/// A resolved tree mentions no bound slot.
pub proof fn lemma_resolved_free(s: Seq<Option<Tree>>, t: Tree, w: int)
    requires
        acyclic(s),
        occurs(w, resolved(s, t)),
    ensures
        !bound(s, w),
{
    let r = choose|r: Seq<nat>| ranked(s, r);
    lemma_occurs_inst(w, meaning(s), t);
    let v = choose|v: int| #[trigger] occurs(v, t) && occurs(w, meaning(s)(v));
    lemma_slot_free(s, r, v, w);
}

proof fn lemma_slot_free(s: Seq<Option<Tree>>, r: Seq<nat>, v: int, w: int)
    requires
        ranked(s, r),
        occurs(w, meaning(s)(v)),
    ensures
        !bound(s, w),
    decreases (if bound(s, v) { r[v] + 1 } else { 0 }),
{
    let m = meaning(s);
    lemma_meaning(s);
    assert(m(v) == if bound(s, v) { inst(m, s[v]->0) } else { Tree::Var(v) });
    if bound(s, v) {
        lemma_occurs_inst(w, m, s[v]->0);
        let u = choose|u: int| #[trigger] occurs(u, s[v]->0) && occurs(w, m(u));
        lemma_slot_free(s, r, u, w);
    }
}

/// Binding a free slot to a tree that does not mention it keeps the bindings
/// acyclic.
pub proof fn lemma_bind_acyclic(s: Seq<Option<Tree>>, i: int, t: Tree)
    requires
        acyclic(s),
        0 <= i < s.len(),
        !bound(s, i),
        within(t, s.len() as int),
        !occurs(i, resolved(s, t)),
    ensures
        acyclic(s.update(i, Some(t))),
{
    let r = choose|r: Seq<nat>| ranked(s, r);
    let n = lemma_upper_bound(r);
    let m = meaning(s);
    let s2 = s.update(i, Some(t));
    lemma_meaning(s);
    // slots that depend on `i` move up
    let r2 = Seq::new(
        r.len(),
        |k: int|
            if occurs(i, m(k)) {
                r[k] + n
            } else {
                r[k]
            },
    );
    assert(m(i) == Tree::Var(i));
    assert forall|j: int, v: int|
        bound(s2, j) && #[trigger] occurs(v, s2[j]->0) implies 0 <= v < s2.len() && r2[v] < r2[j] by {
        if j == i {
            assert(0 <= v < s.len());
            if occurs(i, m(v)) {
                lemma_occurs_inst(i, m, t);
            }
            assert(r2[v] == r[v] && r[v] < n);
        } else {
            assert(bound(s, j));
            assert(occurs(v, s[j]->0));
            assert(m(j) == inst(m, s[j]->0));
            if occurs(i, m(v)) {
                lemma_occurs_inst(i, m, s[j]->0);
                assert(occurs(i, m(j)));
            }
        }
    }
    assert(ranked(s2, r2));
}

/// Binding a free slot leaves one slot fewer free.
pub proof fn lemma_bind_unbound(s: Seq<Option<Tree>>, i: int, t: Tree)
    requires
        0 <= i < s.len(),
        !bound(s, i),
    ensures
        unbound(s.update(i, Some(t))) + 1 == unbound(s),
    decreases s.len(),
{
    let s2 = s.update(i, Some(t));
    if i == s.len() - 1 {
        assert(s2.drop_last() =~= s.drop_last());
    } else {
        lemma_bind_unbound(s.drop_last(), i, t);
        assert(s2.drop_last() =~= s.drop_last().update(i, Some(t)));
    }
}

/// Bindings taken away leave at least as many slots free.
pub proof fn lemma_bind_solutions(s: Seq<Option<Tree>>, i: int, t: Tree, g: spec_fn(int) -> Tree)
    requires
        0 <= i < s.len(),
        !bound(s, i),
    ensures
        solves(g, s.update(i, Some(t))) <==> solves(g, s) && g(i) == inst(g, t),
{
    let s2 = s.update(i, Some(t));
    if solves(g, s2) {
        assert(bound(s2, i));
        assert forall|j: int| #[trigger] bound(s, j) implies g(j) == inst(g, s[j]->0) by {
            assert(bound(s2, j));
        }
    }
    if solves(g, s) && g(i) == inst(g, t) {
        assert forall|j: int| #[trigger] bound(s2, j) implies g(j) == inst(g, s2[j]->0) by {
            if j != i {
                assert(bound(s, j));
            }
        }
    }
}

} // verus!
