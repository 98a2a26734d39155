//! Unification and one-way matching of terms under slot substitutions.
//!
//! A substitution is a vector of optional bindings indexed by slot.  Two terms
//! are kept apart by reading each at a slot offset of its own; only the
//! fragments that get bound are moved.
use vstd::prelude::*;

use std::collections::BTreeSet;

use crate::subst::{
    acyclic, bound, inst, insts, lemma_bind_acyclic, lemma_bind_solutions, lemma_bind_unbound, lemma_inst_agree,
    lemma_inst_app, lemma_inst_compose, lemma_inst_id, lemma_meaning, lemma_occurs_elem, lemma_occurs_inst,
    lemma_occurs_split, lemma_resolved_free, lemma_shift_zero, lemma_size_elem, lemma_size_inst,
    lemma_solution_factors, meaning, occurs, ranked, resolved, shift, size, solves, unbound, within,
};
use crate::term::{lemma_app_view, views, Term, Tree};

verus! {

broadcast use {lemma_app_view, lemma_inst_app};

/// A substitution: the term that each slot is bound to, if any.
pub type Subst = Vec<Option<Term>>;

/// The bindings of a substitution.
pub open spec fn bindings(s: Seq<Option<Term>>) -> Seq<Option<Tree>> {
    Seq::new(
        s.len(),
        |i: int|
            match s[i] {
                Some(t) => Some(t@),
                None => None,
            },
    )
}

/// The tree of `t` read at slot offset `off`.
pub open spec fn at(t: Term, off: u64) -> Tree {
    shift(t@, off as int)
}

/// Every variable of the tree is a slot number.
pub open spec fn fits(t: Tree) -> bool {
    within(t, u64::MAX + 1)
}

/// The bindings of `s` all stand in `u`.
pub open spec fn extends(s: Seq<Option<Tree>>, u: Seq<Option<Tree>>) -> bool {
    &&& s.len() == u.len()
    &&& forall|i: int| #[trigger] bound(s, i) ==> u[i] == s[i]
}

/// How far a bound variable still has to be chased.
spec fn chain(s: Seq<Option<Tree>>, t: Tree) -> nat {
    match t {
        Tree::Var(v) if bound(s, v) => {
            let r = choose|r: Seq<nat>| ranked(s, r);
            r[v] + 1
        },
        _ => 0,
    }
}

/// What the bindings hold is within the slots.
proof fn lemma_binding(s: Seq<Option<Tree>>, i: int)
    requires
        acyclic(s),
        bound(s, i),
    ensures
        within(s[i]->0, s.len() as int),
        chain(s, s[i]->0) < chain(s, Tree::Var(i)),
        resolved(s, s[i]->0) == resolved(s, Tree::Var(i)),
        forall|g: spec_fn(int) -> Tree| #[trigger] solves(g, s) ==> inst(g, s[i]->0) == g(i),
{
    let r = choose|r: Seq<nat>| ranked(s, r);
    lemma_meaning(s);
    let m = meaning(s);
    assert(m(i) == inst(m, s[i]->0));
    let t = s[i]->0;
    assert forall|v: int| #[trigger] occurs(v, t) implies 0 <= v < s.len() by {}
    if let Tree::Var(v) = t {
        assert(occurs(v, t));
    }
}

/// The elements of an application read at an offset.
proof fn lemma_at_elems(elems: Vec<Term>, off: u64)
    ensures
        at(Term::App(elems), off) == Tree::App(
            Seq::new(elems@.len(), |i: int| at(elems@[i], off)),
        ),
{
    let f = |v: int| Tree::Var(v + off as int);
    assert(insts(f, views(elems@)) =~= Seq::new(elems@.len(), |i: int| at(elems@[i], off)));
}

pub proof fn lemma_elem_within(ts: Seq<Tree>, i: int, n: int)
    requires
        within(Tree::App(ts), n),
        0 <= i < ts.len(),
    ensures
        within(ts[i], n),
{
    assert forall|v: int| #[trigger] occurs(v, ts[i]) implies 0 <= v < n by {
        lemma_occurs_elem(v, ts, i);
    }
}

/// Resolving an element gives the element of the resolved application.
proof fn lemma_resolved_elem(s: Seq<Option<Tree>>, ts: Seq<Tree>, i: int)
    requires
        0 <= i < ts.len(),
    ensures
        resolved(s, Tree::App(ts)) == Tree::App(insts(meaning(s), ts)),
        insts(meaning(s), ts)[i] == resolved(s, ts[i]),
        size(resolved(s, ts[i])) < size(resolved(s, Tree::App(ts))),
{
    lemma_size_elem(insts(meaning(s), ts), i);
}

/// Chases a variable through the substitution.
fn walk_off<'a>(t: &'a Term, off: u64, s: &'a Subst) -> (r: (&'a Term, u64))
    requires
        acyclic(bindings(s@)),
        fits(at(*t, off)),
    ensures
        fits(at(*r.0, r.1)),
        within(at(*t, off), s@.len() as int) ==> within(at(*r.0, r.1), s@.len() as int),
        at(*r.0, r.1) matches Tree::Var(v) ==> !bound(bindings(s@), v),
        resolved(bindings(s@), at(*r.0, r.1)) == resolved(bindings(s@), at(*t, off)),
        forall|g: spec_fn(int) -> Tree| #[trigger]
            solves(g, bindings(s@)) ==> inst(g, at(*r.0, r.1)) == inst(g, at(*t, off)),
        !(t is Var) ==> r.0 == t && r.1 == off,
        r.1 == off || r.1 == 0,
{
    let ghost b = bindings(s@);
    let ghost start = at(*t, off);
    let ghost (t0, off0) = (t, off);
    let mut t: &Term = t;
    let mut off: u64 = off;
    loop
        invariant
            b == bindings(s@),
            acyclic(b),
            fits(at(*t, off)),
            within(start, s@.len() as int) ==> within(at(*t, off), s@.len() as int),
            resolved(b, at(*t, off)) == resolved(b, start),
            forall|g: spec_fn(int) -> Tree| #[trigger]
                solves(g, b) ==> inst(g, at(*t, off)) == inst(g, start),
            !(t0 is Var) ==> t == t0 && off == off0,
            off == off0 || off == 0,
        ensures
            at(*t, off) matches Tree::Var(v) ==> !bound(b, v),
        decreases chain(b, at(*t, off)),
    {
        match t {
            Term::Var(v) => {
                assert(at(*t, off) == Tree::Var(*v + off));
                assert(occurs(*v + off, at(*t, off)));
                let slot: u64 = *v + off;
                if slot >= s.len() as u64 {
                    break;
                }
                match &s[slot as usize] {
                    Some(next) => {
                        proof {
                            assert(b[slot as int] == Some(next@));
                            assert(bound(b, slot as int));
                            lemma_binding(b, slot as int);
                            lemma_shift_zero(next@);
                        }
                        t = next;
                        off = 0;
                    },
                    None => {
                        break;
                    },
                }
            },
            _ => {
                break;
            },
        }
    }
    (t, off)
}

/// Chases a variable through the substitution to its representative: a term
/// that is no bound variable and resolves to the same tree.
pub fn walk<'a>(t: &'a Term, s: &'a Subst) -> (r: &'a Term)
    requires
        acyclic(bindings(s@)),
    ensures
        r@ matches Tree::Var(v) ==> !bound(bindings(s@), v),
        resolved(bindings(s@), r@) == resolved(bindings(s@), t@),
        !(t is Var) ==> r == t,
        forall|g: spec_fn(int) -> Tree| #[trigger]
            solves(g, bindings(s@)) ==> inst(g, r@) == inst(g, t@),
{
    proof {
        lemma_shift_zero(t@);
        lemma_term_fits(*t);
    }
    let r: (&'a Term, u64) = walk_off(t, 0, s);
    proof {
        lemma_shift_zero(r.0@);
    }
    r.0
}

/// The variables of a term are slot numbers.
pub proof fn lemma_term_fits(t: Term)
    ensures
        fits(t@),
    decreases t,
{
    assert forall|v: int| #[trigger] occurs(v, t@) implies 0 <= v < u64::MAX + 1 by {
        match t {
            Term::App(elems) => {
                let i = lemma_occurs_split(v, views(elems@));
                lemma_term_fits(elems@[i]);
            },
            _ => {},
        }
    }
}

/// The term with every slot moved up by `off`.
pub fn shift_slots(t: &Term, off: u64) -> (r: Term)
    requires
        fits(at(*t, off)),
    ensures
        r@ == at(*t, off),
    decreases t,
{
    match t {
        Term::Var(v) => {
            assert(occurs(*v + off, at(*t, off)));
            Term::Var(*v + off)
        },
        Term::App(elems) => {
            let ghost ts = Seq::new(elems@.len(), |i: int| at(elems@[i], off));
            proof {
                lemma_at_elems(*elems, off);
            }
            let mut out: Vec<Term> = Vec::new();
            let mut i: usize = 0;
            while i < elems.len()
                invariant
                    i <= elems@.len(),
                    ts == Seq::new(elems@.len(), |i: int| at(elems@[i], off)),
                    fits(Tree::App(ts)),
                    out@.len() == i,
                    forall|k: int| 0 <= k < i ==> (#[trigger] out@[k])@ == at(elems@[k], off),
                    decreases_to!(t => elems@),
                decreases elems@.len() - i,
            {
                proof {
                    lemma_elem_within(ts, i as int, u64::MAX + 1);
                }
                let e: Term = shift_slots(&elems[i], off);
                out.push(e);
                i += 1;
            }
            assert(views(out@) =~= ts);
            Term::App(out)
        },
        _ => t.clone(),
    }
}

/// Whether slot `slot` occurs in the term once it is resolved.
fn occurs_off(slot: u64, t: &Term, off: u64, s: &Subst) -> (r: bool)
    requires
        acyclic(bindings(s@)),
        fits(at(*t, off)),
    ensures
        r == occurs(slot as int, resolved(bindings(s@), at(*t, off))),
    decreases size(resolved(bindings(s@), at(*t, off))),
{
    let ghost b = bindings(s@);
    let ghost whole = resolved(b, at(*t, off));
    let (u, uo) = walk_off(t, off, s);
    match u {
        Term::Var(v) => {
            proof {
                assert(at(*u, uo) == Tree::Var(*v + uo));
                assert(occurs(*v + uo, at(*u, uo)));
                lemma_meaning(b);
                assert(meaning(b)(*v + uo) == Tree::Var(*v + uo));
            }
            *v + uo == slot
        },
        Term::App(elems) => {
            let ghost ts = Seq::new(elems@.len(), |i: int| at(elems@[i], uo));
            proof {
                lemma_at_elems(*elems, uo);
            }
            let mut i: usize = 0;
            while i < elems.len()
                invariant
                    b == bindings(s@),
                    acyclic(b),
                    i <= elems@.len(),
                    ts == Seq::new(elems@.len(), |i: int| at(elems@[i], uo)),
                    fits(Tree::App(ts)),
                    whole == resolved(b, Tree::App(ts)),
                    whole == resolved(b, at(*t, off)),
                    forall|k: int|
                        0 <= k < i ==> !occurs(slot as int, resolved(b, #[trigger] ts[k])),
                decreases elems@.len() - i,
            {
                proof {
                    lemma_elem_within(ts, i as int, u64::MAX + 1);
                    lemma_resolved_elem(b, ts, i as int);
                }
                if occurs_off(slot, &elems[i], uo, s) {
                    proof {
                        lemma_occurs_elem(slot as int, insts(meaning(b), ts), i as int);
                    }
                    return true;
                }
                i += 1;
            }
            proof {
                if occurs(slot as int, whole) {
                    let k = lemma_occurs_split(slot as int, insts(meaning(b), ts));
                    assert(!occurs(slot as int, resolved(b, ts[k])));
                }
            }
            false
        },
        _ => false,
    }
}

/// The term, read at offset `off`, resolved through the substitution.  A
/// variable that is not bound surfaces at its own slot.
pub fn apply_off(t: &Term, off: u64, s: &Subst) -> (r: Term)
    requires
        acyclic(bindings(s@)),
        fits(at(*t, off)),
    ensures
        r@ == resolved(bindings(s@), at(*t, off)),
    decreases size(resolved(bindings(s@), at(*t, off))),
{
    let ghost b = bindings(s@);
    let ghost whole = resolved(b, at(*t, off));
    let (u, uo) = walk_off(t, off, s);
    match u {
        Term::Var(v) => {
            proof {
                assert(at(*u, uo) == Tree::Var(*v + uo));
                assert(occurs(*v + uo, at(*u, uo)));
                lemma_meaning(b);
                assert(meaning(b)(*v + uo) == Tree::Var(*v + uo));
            }
            Term::Var(*v + uo)
        },
        Term::App(elems) => {
            let ghost ts = Seq::new(elems@.len(), |i: int| at(elems@[i], uo));
            proof {
                lemma_at_elems(*elems, uo);
            }
            let mut out: Vec<Term> = Vec::new();
            let mut i: usize = 0;
            while i < elems.len()
                invariant
                    b == bindings(s@),
                    acyclic(b),
                    i <= elems@.len(),
                    ts == Seq::new(elems@.len(), |i: int| at(elems@[i], uo)),
                    fits(Tree::App(ts)),
                    whole == resolved(b, Tree::App(ts)),
                    whole == resolved(b, at(*t, off)),
                    out@.len() == i,
                    forall|k: int| 0 <= k < i ==> (#[trigger] out@[k])@ == resolved(b, ts[k]),
                decreases elems@.len() - i,
            {
                proof {
                    lemma_elem_within(ts, i as int, u64::MAX + 1);
                    lemma_resolved_elem(b, ts, i as int);
                }
                let e: Term = apply_off(&elems[i], uo, s);
                out.push(e);
                i += 1;
            }
            assert(views(out@) =~= insts(meaning(b), ts));
            Term::App(out)
        },
        _ => u.clone(),
    }
}

/// The term resolved through the substitution.
pub fn apply(t: &Term, s: &Subst) -> (r: Term)
    requires
        acyclic(bindings(s@)),
    ensures
        r@ == resolved(bindings(s@), t@),
{
    proof {
        lemma_shift_zero(t@);
        lemma_term_fits(*t);
    }
    apply_off(t, 0, s)
}

/// Binds slot `slot` to a term that is not itself a bound variable, unless the
/// slot occurs in it.
fn bind_off(slot: u64, t: &Term, toff: u64, s: &mut Subst, trail: &mut Vec<usize>) -> (r: bool)
    requires
        acyclic(bindings(old(s)@)),
        slot < old(s)@.len(),
        !bound(bindings(old(s)@), slot as int),
        within(at(*t, toff), old(s)@.len() as int),
        at(*t, toff) matches Tree::Var(v) ==> v != slot && !bound(bindings(old(s)@), v),
    ensures
        r ==> bindings(final(s)@) == bindings(old(s)@).update(slot as int, Some(at(*t, toff))),
        r ==> final(trail)@ == old(trail)@.push(slot as usize),
        r ==> acyclic(bindings(final(s)@)),
        !r ==> *final(s) == *old(s) && *final(trail) == *old(trail),
        !r ==> forall|g: spec_fn(int) -> Tree| #[trigger]
            solves(g, bindings(old(s)@)) ==> g(slot as int) != inst(g, at(*t, toff)),
{
    let ghost b = bindings(s@);
    let ghost tree = at(*t, toff);
    assert(s.len() == s@.len());
    if occurs_off(slot, t, toff, s) {
        proof {
            lemma_meaning(b);
            if let Tree::Var(v) = tree {
                assert(meaning(b)(v) == Tree::Var(v));
            }
            if let Tree::App(ts) = tree {
                assert(resolved(b, tree) == Tree::App(insts(meaning(b), ts)));
            }
            assert forall|g: spec_fn(int) -> Tree| #[trigger] solves(g, b) implies g(slot as int) != inst(
                g,
                tree,
            ) by {
                lemma_solution_factors(g, b, tree);
                lemma_size_inst(slot as int, g, resolved(b, tree));
            }
        }
        return false;
    }
    let i: usize = slot as usize;
    let moved: Term = if toff == 0 {
        proof {
            lemma_shift_zero(t@);
        }
        t.clone()
    } else {
        shift_slots(t, toff)
    };
    s.set(i, Some(moved));
    trail.push(i);
    proof {
        assert(bindings(s@) =~= b.update(slot as int, Some(tree)));
        lemma_bind_acyclic(b, slot as int, tree);
    }
    true
}

/// The slots in `trail` from position `from` on are those that `u` binds and
/// `s` does not.
pub open spec fn trails(s: Seq<Option<Tree>>, u: Seq<Option<Tree>>, trail: Seq<usize>, from: int) -> bool {
    &&& forall|k: int| from <= k < trail.len() ==> #[trigger] trail[k] < s.len() && !bound(s, trail[k] as int)
    &&& forall|i: int|
        #[trigger] bound(u, i) && !bound(s, i) ==> exists|k: int|
            from <= k < trail.len() && #[trigger] trail[k] == i
}

/// Whether the two trees are equal under every solution of `s` that `u`
/// admits, and `u` admits no fewer.
spec fn narrows(s: Seq<Option<Tree>>, u: Seq<Option<Tree>>, a: Tree, b: Tree) -> bool {
    forall|g: spec_fn(int) -> Tree| #[trigger]
        solves(g, u) <==> solves(g, s) && inst(g, a) == inst(g, b)
}

/// No solution of `s` makes the two trees equal.
spec fn clash(s: Seq<Option<Tree>>, a: Tree, b: Tree) -> bool {
    forall|g: spec_fn(int) -> Tree| #[trigger] solves(g, s) ==> inst(g, a) != inst(g, b)
}

fn unify_off_inner(
    a: &Term,
    ao: u64,
    b: &Term,
    bo: u64,
    s: &mut Subst,
    trail: &mut Vec<usize>,
) -> (r: bool)
    requires
        acyclic(bindings(old(s)@)),
        within(at(*a, ao), old(s)@.len() as int),
        within(at(*b, bo), old(s)@.len() as int),
    ensures
        acyclic(bindings(final(s)@)),
        extends(bindings(old(s)@), bindings(final(s)@)),
        old(trail)@.len() <= final(trail)@.len(),
        forall|k: int| 0 <= k < old(trail)@.len() ==> #[trigger] final(trail)@[k] == old(trail)@[k],
        trails(bindings(old(s)@), bindings(final(s)@), final(trail)@, old(trail)@.len() as int),
        bindings(final(s)@) == bindings(old(s)@) || unbound(bindings(final(s)@)) < unbound(
            bindings(old(s)@),
        ),
        r ==> narrows(bindings(old(s)@), bindings(final(s)@), at(*a, ao), at(*b, bo)),
        !r ==> clash(bindings(old(s)@), at(*a, ao), at(*b, bo)),
    decreases
        unbound(bindings(old(s)@)),
        size(resolved(bindings(old(s)@), at(*a, ao))) + size(
            resolved(bindings(old(s)@), at(*b, bo)),
        ),
        chain(bindings(old(s)@), at(*a, ao)) + chain(bindings(old(s)@), at(*b, bo)),
{
    let ghost s0 = bindings(s@);
    let ghost ta = at(*a, ao);
    let ghost tb = at(*b, bo);
    assert(s.len() == s@.len());
    if let Term::Var(v) = a {
        assert(ta == Tree::Var(*v + ao));
        assert(occurs(*v + ao, ta));
        let slot: u64 = *v + ao;
        if let Some(bt) = &s[slot as usize] {
            let bt: Term = bt.clone();
            proof {
                assert(bound(s0, slot as int));
                lemma_binding(s0, slot as int);
                lemma_shift_zero(bt@);
            }
            return unify_off_inner(&bt, 0, b, bo, s, trail);
        }
        if let Term::Var(u) = b {
            assert(tb == Tree::Var(*u + bo));
            assert(occurs(*u + bo, tb));
            let bslot: u64 = *u + bo;
            if let Some(bt) = &s[bslot as usize] {
                let bt: Term = bt.clone();
                proof {
                    assert(bound(s0, bslot as int));
                    lemma_binding(s0, bslot as int);
                    lemma_shift_zero(bt@);
                }
                return unify_off_inner(a, ao, &bt, 0, s, trail);
            }
            if slot == bslot {
                return true;
            }
        }
        let r: bool = bind_off(slot, b, bo, s, trail);
        proof {
            if r {
                lemma_bound_step(s0, slot as int, tb, trail@, old(trail)@);
                assert forall|g: spec_fn(int) -> Tree| #[trigger] solves(g, bindings(s@)) <==> solves(
                    g,
                    s0,
                ) && inst(g, ta) == inst(g, tb) by {
                    lemma_bind_solutions(s0, slot as int, tb, g);
                }
            }
        }
        return r;
    }
    if let Term::Var(u) = b {
        assert(tb == Tree::Var(*u + bo));
        assert(occurs(*u + bo, tb));
        let bslot: u64 = *u + bo;
        if let Some(bt) = &s[bslot as usize] {
            let bt: Term = bt.clone();
            proof {
                assert(bound(s0, bslot as int));
                lemma_binding(s0, bslot as int);
                lemma_shift_zero(bt@);
            }
            return unify_off_inner(a, ao, &bt, 0, s, trail);
        }
        let r: bool = bind_off(bslot, a, ao, s, trail);
        proof {
            if r {
                lemma_bound_step(s0, bslot as int, ta, trail@, old(trail)@);
                assert forall|g: spec_fn(int) -> Tree| #[trigger] solves(g, bindings(s@)) <==> solves(
                    g,
                    s0,
                ) && inst(g, ta) == inst(g, tb) by {
                    lemma_bind_solutions(s0, bslot as int, ta, g);
                }
            }
        }
        return r;
    }
    match (a, b) {
        (Term::App(xs), Term::App(ys)) => {
            let ghost us = Seq::new(xs@.len(), |i: int| at(xs@[i], ao));
            let ghost ws = Seq::new(ys@.len(), |i: int| at(ys@[i], bo));
            proof {
                lemma_at_elems(*xs, ao);
                lemma_at_elems(*ys, bo);
            }
            if xs.len() != ys.len() {
                proof {
                    assert forall|g: spec_fn(int) -> Tree| #[trigger] solves(g, s0) implies inst(g, ta)
                        != inst(g, tb) by {
                        assert(insts(g, us).len() != insts(g, ws).len());
                    }
                }
                return false;
            }
            let mut i: usize = 0;
            while i < xs.len()
                invariant
                    i <= xs@.len(),
                    xs@.len() == ys@.len(),
                    s0 == bindings(old(s)@),
                    acyclic(s0),
                    ta == at(*a, ao),
                    tb == at(*b, bo),
                    ta == Tree::App(us),
                    tb == Tree::App(ws),
                    us == Seq::new(xs@.len(), |i: int| at(xs@[i], ao)),
                    ws == Seq::new(ys@.len(), |i: int| at(ys@[i], bo)),
                    within(ta, s0.len() as int),
                    within(tb, s0.len() as int),
                    acyclic(bindings(s@)),
                    extends(s0, bindings(s@)),
                    old(trail)@.len() <= trail@.len(),
                    forall|k: int|
                        0 <= k < old(trail)@.len() ==> #[trigger] trail@[k] == old(trail)@[k],
                    trails(s0, bindings(s@), trail@, old(trail)@.len() as int),
                    bindings(s@) == s0 || unbound(bindings(s@)) < unbound(s0),
                    forall|g: spec_fn(int) -> Tree| #[trigger]
                        solves(g, bindings(s@)) <==> solves(g, s0) && agree(g, us, ws, i as int),
                decreases xs@.len() - i,
            {
                let ghost s1 = bindings(s@);
                let ghost trail1 = trail@;
                proof {
                    lemma_elem_within(us, i as int, s0.len() as int);
                    lemma_elem_within(ws, i as int, s0.len() as int);
                    lemma_resolved_elem(s0, us, i as int);
                    lemma_resolved_elem(s0, ws, i as int);
                }
                let ok: bool = unify_off_inner(&xs[i], ao, &ys[i], bo, s, trail);
                proof {
                    lemma_extends_trans(s0, s1, bindings(s@), trail1, trail@, old(trail)@.len() as int);
                    if !ok {
                        assert forall|g: spec_fn(int) -> Tree| #[trigger] solves(g, s0) implies inst(g, ta)
                            != inst(g, tb) by {
                            if inst(g, ta) == inst(g, tb) {
                                lemma_apps_agree(g, us, ws);
                                assert(agree(g, us, ws, i as int));
                                assert(solves(g, s1));
                                assert(inst(g, us[i as int]) == inst(g, ws[i as int]));
                            }
                        }
                    } else {
                        assert forall|g: spec_fn(int) -> Tree| #[trigger] solves(g, bindings(s@)) <==> solves(
                            g,
                            s0,
                        ) && agree(g, us, ws, i + 1) by {
                            assert(solves(g, bindings(s@)) <==> solves(g, s1) && inst(g, us[i as int])
                                == inst(g, ws[i as int]));
                            assert(solves(g, s1) <==> solves(g, s0) && agree(g, us, ws, i as int));
                            assert(agree(g, us, ws, i + 1) <==> agree(g, us, ws, i as int) && inst(
                                g,
                                us[i as int],
                            ) == inst(g, ws[i as int]));
                        }
                    }
                }
                if !ok {
                    return false;
                }
                i += 1;
            }
            proof {
                assert forall|g: spec_fn(int) -> Tree| #[trigger] solves(g, bindings(s@)) <==> solves(g, s0)
                    && inst(g, ta) == inst(g, tb) by {
                    lemma_apps_agree(g, us, ws);
                }
            }
            true
        },
        _ => {
            let r: bool = a.same(b);
            proof {
                lemma_leaves(*a, ao, *b, bo);
                if r {
                    assert(narrows(s0, bindings(s@), ta, tb));
                }
            }
            r
        },
    }
}

/// The first `n` elements are equal under `g`.
spec fn agree(g: spec_fn(int) -> Tree, us: Seq<Tree>, ws: Seq<Tree>, n: int) -> bool {
    forall|k: int| 0 <= k < n ==> inst(g, #[trigger] us[k]) == inst(g, ws[k])
}

proof fn lemma_apps_agree(g: spec_fn(int) -> Tree, us: Seq<Tree>, ws: Seq<Tree>)
    requires
        us.len() == ws.len(),
    ensures
        inst(g, Tree::App(us)) == inst(g, Tree::App(ws)) <==> agree(g, us, ws, us.len() as int),
{
    if inst(g, Tree::App(us)) == inst(g, Tree::App(ws)) {
        assert forall|k: int| 0 <= k < us.len() implies inst(g, #[trigger] us[k]) == inst(g, ws[k]) by {
            assert(insts(g, us)[k] == insts(g, ws)[k]);
        }
    }
    if agree(g, us, ws, us.len() as int) {
        assert(insts(g, us) =~= insts(g, ws));
    }
}

/// Terms that are not both applications, and neither a variable, are equal
/// under a substitution only if they are the same.
proof fn lemma_leaves(a: Term, ao: u64, b: Term, bo: u64)
    requires
        !(a is Var),
        !(b is Var),
        !(a is App && b is App),
    ensures
        forall|g: spec_fn(int) -> Tree|
            #![trigger inst(g, at(a, ao))]
            #![trigger inst(g, at(b, bo))]
            inst(g, at(a, ao)) == inst(g, at(b, bo)) <==> a@ == b@,
{
}

pub proof fn lemma_bound_step(s: Seq<Option<Tree>>, i: int, t: Tree, trail: Seq<usize>, before: Seq<usize>)
    requires
        0 <= i < s.len(),
        s.len() <= usize::MAX,
        !bound(s, i),
        trail == before.push(i as usize),
    ensures
        extends(s, s.update(i, Some(t))),
        unbound(s.update(i, Some(t))) < unbound(s),
        trails(s, s.update(i, Some(t)), trail, before.len() as int),
{
    lemma_bind_unbound(s, i, t);
    let u = s.update(i, Some(t));
    assert forall|j: int| #[trigger] bound(u, j) && !bound(s, j) implies exists|k: int|
        before.len() <= k < trail.len() && #[trigger] trail[k] == j by {
        assert(trail[before.len() as int] == j);
    }
}

pub proof fn lemma_extends_trans(
    s: Seq<Option<Tree>>,
    u: Seq<Option<Tree>>,
    w: Seq<Option<Tree>>,
    trail1: Seq<usize>,
    trail2: Seq<usize>,
    from: int,
)
    requires
        extends(s, u),
        extends(u, w),
        0 <= from <= trail1.len() <= trail2.len(),
        forall|k: int| 0 <= k < trail1.len() ==> #[trigger] trail2[k] == trail1[k],
        trails(s, u, trail1, from),
        trails(u, w, trail2, trail1.len() as int),
    ensures
        extends(s, w),
        trails(s, w, trail2, from),
{
    assert forall|i: int| #[trigger] bound(s, i) implies w[i] == s[i] by {
        assert(bound(u, i));
    }
    assert forall|k: int| from <= k < trail2.len() implies #[trigger] trail2[k] < s.len() && !bound(
        s,
        trail2[k] as int,
    ) by {
        if k < trail1.len() {
            assert(trail2[k] == trail1[k]);
        } else if bound(s, trail2[k] as int) {
            assert(bound(u, trail2[k] as int));
        }
    }
    assert forall|i: int| #[trigger] bound(w, i) && !bound(s, i) implies exists|k: int|
        from <= k < trail2.len() && #[trigger] trail2[k] == i by {
        if bound(u, i) {
            let k = choose|k: int| from <= k < trail1.len() && #[trigger] trail1[k] == i;
            assert(trail2[k] == i);
        } else {
            let k = choose|k: int| trail1.len() <= k < trail2.len() && #[trigger] trail2[k] == i;
            assert(trail2[k] == i);
        }
    }
}

/// Takes the bindings in `trail` away again.
fn roll_back(s: &mut Subst, trail: &Vec<usize>, Ghost(s0): Ghost<Seq<Option<Tree>>>)
    requires
        extends(s0, bindings(old(s)@)),
        trails(s0, bindings(old(s)@), trail@, 0),
    ensures
        bindings(final(s)@) == s0,
{
    let ghost s1 = bindings(s@);
    let mut k: usize = 0;
    while k < trail.len()
        invariant
            k <= trail@.len(),
            extends(s0, s1),
            trails(s0, s1, trail@, 0),
            s@.len() == s0.len(),
            forall|i: int|
                0 <= i < s0.len() ==> #[trigger] bindings(s@)[i] == s1[i] || bindings(s@)[i] == s0[i],
            forall|j: int|
                0 <= j < k ==> bindings(s@)[#[trigger] trail@[j] as int] == s0[trail@[j] as int],
        decreases trail@.len() - k,
    {
        let ghost before = bindings(s@);
        assert(trail@[k as int] < s0.len());
        assert(!bound(s0, trail@[k as int] as int));
        s.set(trail[k], None);
        proof {
            let x = trail@[k as int] as int;
            assert(bindings(s@) =~= before.update(x, None));
            assert forall|j: int| 0 <= j < k + 1 implies bindings(s@)[#[trigger] trail@[j] as int]
                == s0[trail@[j] as int] by {
                assert(trail@[j] < s0.len());
            }
        }
        k += 1;
    }
    assert(bindings(s@) =~= s0) by {
        assert forall|i: int| 0 <= i < s0.len() implies bindings(s@)[i] == s0[i] by {
            if bound(s0, i) {
                assert(s1[i] == s0[i]);
            } else if bound(s1, i) {
                let j = choose|j: int| 0 <= j < trail@.len() && #[trigger] trail@[j] == i;
                assert(bindings(s@)[trail@[j] as int] == s0[i]);
            }
        }
    }
}

/// What unifying `a` and `b` under the bindings `s` comes to.  On success the
/// new bindings `u` extend `s`, and their solutions are exactly the solutions
/// of `s` that make the two trees equal.  On failure no solution of `s` makes
/// them equal, and the bindings are those of before.
pub open spec fn unified(
    s: Seq<Option<Tree>>,
    u: Seq<Option<Tree>>,
    a: Tree,
    b: Tree,
    ok: bool,
) -> bool {
    if ok {
        &&& acyclic(u)
        &&& extends(s, u)
        &&& forall|g: spec_fn(int) -> Tree| #[trigger]
            solves(g, u) <==> solves(g, s) && inst(g, a) == inst(g, b)
    } else {
        &&& u == s
        &&& forall|g: spec_fn(int) -> Tree| #[trigger] solves(g, s) ==> inst(g, a) != inst(g, b)
    }
}

/// Unifies `a`, read at offset `ao`, with `b`, read at offset `bo`, extending
/// the substitution.  A failure leaves the substitution as it was.
pub fn unify_off(a: &Term, ao: u64, b: &Term, bo: u64, s: &mut Subst) -> (r: bool)
    requires
        acyclic(bindings(old(s)@)),
        within(at(*a, ao), old(s)@.len() as int),
        within(at(*b, bo), old(s)@.len() as int),
    ensures
        unified(bindings(old(s)@), bindings(final(s)@), at(*a, ao), at(*b, bo), r),
{
    let ghost s0 = bindings(s@);
    let mut trail: Vec<usize> = Vec::new();
    if unify_off_inner(a, ao, b, bo, s, &mut trail) {
        true
    } else {
        roll_back(s, &trail, Ghost(s0));
        false
    }
}

/// Unifies `a` and `b`, extending the substitution.  A failure leaves the
/// substitution as it was.
pub fn unify(a: &Term, b: &Term, s: &mut Subst) -> (r: bool)
    requires
        acyclic(bindings(old(s)@)),
        within(a@, old(s)@.len() as int),
        within(b@, old(s)@.len() as int),
    ensures
        unified(bindings(old(s)@), bindings(final(s)@), a@, b@, r),
{
    proof {
        lemma_shift_zero(a@);
        lemma_shift_zero(b@);
    }
    unify_off(a, 0, b, 0, s)
}

// ---------------------------------------------------------------------------
// One-way matching
// ---------------------------------------------------------------------------

/// The substitution that puts each bound slot's binding in its place, once.
pub open spec fn fill(s: Seq<Option<Tree>>) -> spec_fn(int) -> Tree {
    |i: int|
        if bound(s, i) {
            s[i]->0
        } else {
            Tree::Var(i)
        }
}

/// Every variable of `p` is bound.
pub open spec fn covers(s: Seq<Option<Tree>>, p: Tree) -> bool {
    forall|i: int| #[trigger] occurs(i, p) ==> bound(s, i)
}

/// What matching pattern `p` against `t` under the bindings `s` comes to.  On
/// success the new bindings `u` extend `s` by the variables of `p` alone, and
/// put in place they turn `p` into `t`.  On failure no bindings that extend
/// `s` do so, and the bindings are those of before.
pub open spec fn matched(
    s: Seq<Option<Tree>>,
    u: Seq<Option<Tree>>,
    p: Tree,
    t: Tree,
    ok: bool,
) -> bool {
    if ok {
        &&& extends(s, u)
        &&& forall|i: int| #[trigger] bound(u, i) <==> bound(s, i) || occurs(i, p)
        &&& inst(fill(u), p) == t
    } else {
        &&& u == s
        &&& forall|w: Seq<Option<Tree>>| #[trigger]
            extends(s, w) && covers(w, p) ==> inst(fill(w), p) != t
    }
}

/// Equal instances come from equal values.
proof fn lemma_inst_injective(f: spec_fn(int) -> Tree, g: spec_fn(int) -> Tree, t: Tree, v: int)
    requires
        inst(f, t) == inst(g, t),
        occurs(v, t),
    ensures
        f(v) == g(v),
    decreases t,
{
    if let Tree::App(ts) = t {
        let i = lemma_occurs_split(v, ts);
        assert(insts(f, ts)[i] == insts(g, ts)[i]);
        lemma_inst_injective(f, g, ts[i], v);
    }
}

/// Bindings that agree with `u` on the variables of `p` fill `p` alike.
pub proof fn lemma_fill_extends(s: Seq<Option<Tree>>, u: Seq<Option<Tree>>, p: Tree)
    requires
        extends(s, u),
        covers(s, p),
    ensures
        inst(fill(u), p) == inst(fill(s), p),
{
    assert forall|v: int| #[trigger] occurs(v, p) implies fill(u)(v) == fill(s)(v) by {
        assert(bound(s, v));
    }
    lemma_inst_agree(fill(u), fill(s), p);
}

fn match_inner(p: &Term, t: &Term, s: &mut Subst, trail: &mut Vec<usize>) -> (r: bool)
    requires
        within(p@, old(s)@.len() as int),
    ensures
        extends(bindings(old(s)@), bindings(final(s)@)),
        old(trail)@.len() <= final(trail)@.len(),
        forall|k: int| 0 <= k < old(trail)@.len() ==> #[trigger] final(trail)@[k] == old(trail)@[k],
        trails(bindings(old(s)@), bindings(final(s)@), final(trail)@, old(trail)@.len() as int),
        r ==> matched(bindings(old(s)@), bindings(final(s)@), p@, t@, true),
        !r ==> matched(bindings(old(s)@), bindings(old(s)@), p@, t@, false),
    decreases p,
{
    let ghost s0 = bindings(s@);
    assert(s.len() == s@.len());
    if let Term::Var(v) = p {
        assert(occurs(*v as int, p@));
        let slot: usize = *v as usize;
        if let Some(bt) = &s[slot] {
            let r: bool = bt.same(t);
            proof {
                assert(bound(s0, slot as int));
                assert(s0[slot as int] == Some(bt@));
                assert(fill(s0)(slot as int) == bt@);
                if !r {
                    assert forall|w: Seq<Option<Tree>>| #[trigger] extends(s0, w) && covers(w, p@) implies inst(
                        fill(w),
                        p@,
                    ) != t@ by {
                        assert(w[slot as int] == s0[slot as int]);
                    }
                }
            }
            return r;
        }
        s.set(slot, Some(t.clone()));
        trail.push(slot);
        proof {
            assert(bindings(s@) =~= s0.update(slot as int, Some(t@)));
            lemma_bound_step(s0, slot as int, t@, trail@, old(trail)@);
            assert(bound(bindings(s@), slot as int));
            assert forall|i: int| #[trigger] bound(bindings(s@), i) <==> bound(s0, i) || occurs(i, p@) by {}
        }
        return true;
    }
    match (p, t) {
        (Term::App(xs), Term::App(ys)) => {
            let ghost us = views(xs@);
            let ghost ws = views(ys@);
            assert(p@ == Tree::App(us));
            assert(t@ == Tree::App(ws));
            if xs.len() != ys.len() {
                proof {
                    assert forall|w: Seq<Option<Tree>>| #[trigger] extends(s0, w) && covers(w, p@) implies inst(
                        fill(w),
                        p@,
                    ) != t@ by {
                        assert(insts(fill(w), us).len() != ws.len());
                    }
                }
                return false;
            }
            let mut i: usize = 0;
            while i < xs.len()
                invariant
                    i <= xs@.len(),
                    xs@.len() == ys@.len(),
                    s0 == bindings(old(s)@),
                    us == views(xs@),
                    ws == views(ys@),
                    p@ == Tree::App(us),
                    t@ == Tree::App(ws),
                    within(p@, s0.len() as int),
                    extends(s0, bindings(s@)),
                    old(trail)@.len() <= trail@.len(),
                    forall|k: int|
                        0 <= k < old(trail)@.len() ==> #[trigger] trail@[k] == old(trail)@[k],
                    trails(s0, bindings(s@), trail@, old(trail)@.len() as int),
                    filled(s0, bindings(s@), us, ws, i as int),
                    decreases_to!(p => xs@),
                decreases xs@.len() - i,
            {
                let ghost s1 = bindings(s@);
                let ghost trail1 = trail@;
                proof {
                    lemma_elem_within(us, i as int, s0.len() as int);
                }
                let ok: bool = match_inner(&xs[i], &ys[i], s, trail);
                proof {
                    lemma_extends_trans(s0, s1, bindings(s@), trail1, trail@, old(trail)@.len() as int);
                    if ok {
                        lemma_filled_step(s0, s1, bindings(s@), us, ws, i as int);
                    } else {
                        assert forall|w: Seq<Option<Tree>>| #[trigger] extends(s0, w) && covers(w, p@) implies inst(
                            fill(w),
                            p@,
                        ) != t@ by {
                            if inst(fill(w), p@) == t@ {
                                lemma_filled_unique(s0, s1, w, us, ws, i as int);
                                assert(covers(w, us[i as int])) by {
                                    assert forall|v: int| #[trigger] occurs(v, us[i as int]) implies bound(
                                        w,
                                        v,
                                    ) by {
                                        lemma_occurs_elem(v, us, i as int);
                                    }
                                }
                                assert(insts(fill(w), us)[i as int] == ws[i as int]);
                                assert(extends(s1, w));
                            }
                        }
                    }
                }
                if !ok {
                    return false;
                }
                i += 1;
            }
            proof {
                let u = bindings(s@);
                assert(insts(fill(u), us) =~= ws);
                assert forall|v: int| #[trigger] bound(u, v) <==> bound(s0, v) || occurs(v, p@) by {
                    if occurs(v, p@) {
                        let k = lemma_occurs_split(v, us);
                        assert(covers(u, us[k]));
                    }
                    if bound(u, v) && !bound(s0, v) {
                        let k = choose|k: int| 0 <= k < us.len() && occurs(v, #[trigger] us[k]);
                        lemma_occurs_elem(v, us, k);
                    }
                }
            }
            true
        },
        _ => {
            let r: bool = p.same(t);
            proof {
                lemma_pattern_leaf(*p, *t, s0);
                if r {
                    assert(matched(s0, bindings(s@), p@, t@, true));
                }
            }
            r
        },
    }
}

/// A pattern that is no variable, with a target that is not an application
/// where the pattern is one, matches only itself.
proof fn lemma_pattern_leaf(p: Term, t: Term, s: Seq<Option<Tree>>)
    requires
        !(p is Var),
        !(p is App && t is App),
    ensures
        p@ == t@ ==> !(p is App),
        forall|f: spec_fn(int) -> Tree| #[trigger] inst(f, p@) == t@ <==> p@ == t@,
        p@ == t@ ==> forall|i: int| !#[trigger] occurs(i, p@),
{
}

/// The first `n` elements have been matched: `u` turns them into the targets
/// and binds nothing else.
pub open spec fn filled(s: Seq<Option<Tree>>, u: Seq<Option<Tree>>, us: Seq<Tree>, ws: Seq<Tree>, n: int) -> bool {
    &&& forall|k: int| 0 <= k < n ==> inst(fill(u), #[trigger] us[k]) == ws[k] && covers(u, us[k])
    &&& forall|v: int|
        #[trigger] bound(u, v) && !bound(s, v) ==> exists|k: int| 0 <= k < n && occurs(v, #[trigger] us[k])
}

pub proof fn lemma_filled_step(
    s0: Seq<Option<Tree>>,
    s1: Seq<Option<Tree>>,
    s2: Seq<Option<Tree>>,
    us: Seq<Tree>,
    ws: Seq<Tree>,
    i: int,
)
    requires
        0 <= i < us.len(),
        us.len() == ws.len(),
        filled(s0, s1, us, ws, i),
        matched(s1, s2, us[i], ws[i], true),
    ensures
        filled(s0, s2, us, ws, i + 1),
{
    assert forall|k: int| 0 <= k < i + 1 implies inst(fill(s2), #[trigger] us[k]) == ws[k] && covers(
        s2,
        us[k],
    ) by {
        if k < i {
            lemma_fill_extends(s1, s2, us[k]);
            assert forall|v: int| #[trigger] occurs(v, us[k]) implies bound(s2, v) by {
                assert(bound(s1, v));
            }
        }
    }
    assert forall|v: int| #[trigger] bound(s2, v) && !bound(s0, v) implies exists|k: int|
        0 <= k < i + 1 && occurs(v, #[trigger] us[k]) by {
        if bound(s1, v) {
            let k = choose|k: int| 0 <= k < i && occurs(v, #[trigger] us[k]);
            assert(occurs(v, us[k]));
        } else {
            assert(occurs(v, us[i]));
        }
    }
}

/// Bindings that match the whole agree with those found for a part.
pub proof fn lemma_filled_unique(
    s0: Seq<Option<Tree>>,
    s1: Seq<Option<Tree>>,
    w: Seq<Option<Tree>>,
    us: Seq<Tree>,
    ws: Seq<Tree>,
    n: int,
)
    requires
        0 <= n <= us.len(),
        us.len() == ws.len(),
        extends(s0, s1),
        extends(s0, w),
        filled(s0, s1, us, ws, n),
        covers(w, Tree::App(us)),
        inst(fill(w), Tree::App(us)) == Tree::App(ws),
    ensures
        extends(s1, w),
{
    assert forall|v: int| #[trigger] bound(s1, v) implies w[v] == s1[v] by {
        if bound(s0, v) {
            assert(w[v] == s0[v]);
        } else {
            let k = choose|k: int| 0 <= k < n && occurs(v, #[trigger] us[k]);
            assert(insts(fill(w), us)[k] == ws[k]);
            lemma_inst_injective(fill(s1), fill(w), us[k], v);
            lemma_occurs_elem(v, us, k);
            assert(bound(w, v));
        }
    }
}

/// Matches pattern `p` against `t`, binding variables of the pattern alone;
/// the variables of `t` stand for themselves.  A failure leaves the
/// substitution as it was.
pub fn match_one_way(p: &Term, t: &Term, s: &mut Subst) -> (r: bool)
    requires
        within(p@, old(s)@.len() as int),
    ensures
        matched(bindings(old(s)@), bindings(final(s)@), p@, t@, r),
{
    let ghost s0 = bindings(s@);
    let mut trail: Vec<usize> = Vec::new();
    if match_inner(p, t, s, &mut trail) {
        true
    } else {
        roll_back(s, &trail, Ghost(s0));
        false
    }
}

/// The slots that occur in a tree.
pub open spec fn slots(t: Tree) -> Set<u64> {
    Set::new(|v: u64| occurs(v as int, t))
}

/// Puts one slot into `out`.
fn add_slot(out: &mut BTreeSet<u64>, v: u64)
    ensures
        final(out)@ == old(out)@.insert(v),
{
    broadcast use vstd::std_specs::btree::group_btree_axioms;
    broadcast use vstd::laws_cmp::group_laws_cmp;

    out.insert(v);
}

/// Puts the slots of `t` into `out`.
pub fn term_slots(t: &Term, out: &mut BTreeSet<u64>)
    ensures
        final(out)@ == old(out)@ + slots(t@),
    decreases t,
{
    match t {
        Term::Var(v) => {
            add_slot(out, *v);
            assert(out@ =~= old(out)@ + slots(t@));
        },
        Term::App(elems) => {
            let mut i: usize = 0;
            while i < elems.len()
                invariant
                    i <= elems@.len(),
                    forall|v: u64| #[trigger]
                        out@.contains(v) <==> old(out)@.contains(v) || exists|k: int|
                            0 <= k < i && occurs(v as int, (#[trigger] elems@[k])@),
                    decreases_to!(t => elems@),
                decreases elems@.len() - i,
            {
                let ghost before = out@;
                term_slots(&elems[i], out);
                proof {
                    assert forall|v: u64| #[trigger] out@.contains(v) <==> old(out)@.contains(v) || exists|
                        k: int,
                    |
                        0 <= k < i + 1 && occurs(v as int, (#[trigger] elems@[k])@) by {
                        assert(before.contains(v) <==> old(out)@.contains(v) || exists|k: int|
                            0 <= k < i && occurs(v as int, (#[trigger] elems@[k])@));
                        if occurs(v as int, elems@[i as int]@) {
                            assert(out@.contains(v));
                        }
                    }
                }
                i += 1;
            }
            proof {
                assert forall|v: u64| #[trigger] out@.contains(v) <==> (old(out)@ + slots(t@)).contains(v) by {
                    let ts = views(elems@);
                    if occurs(v as int, t@) {
                        let k = lemma_occurs_split(v as int, ts);
                        assert(occurs(v as int, elems@[k]@));
                    }
                    if exists|k: int| 0 <= k < elems@.len() && occurs(v as int, (#[trigger] elems@[k])@) {
                        let k = choose|k: int|
                            0 <= k < elems@.len() && occurs(v as int, (#[trigger] elems@[k])@);
                        assert(ts[k] == elems@[k]@);
                        lemma_occurs_elem(v as int, ts, k);
                    }
                }
                assert(out@ =~= old(out)@ + slots(t@));
            }
        },
        _ => {
            assert(out@ =~= old(out)@ + slots(t@));
        },
    }
}

// ---------------------------------------------------------------------------
// Laws
// ---------------------------------------------------------------------------

/// Two trees that have been unified resolve to the same tree.
pub proof fn law_unified_trees_resolve_alike(
    s: Seq<Option<Tree>>,
    u: Seq<Option<Tree>>,
    a: Tree,
    b: Tree,
)
    requires
        unified(s, u, a, b, true),
    ensures
        resolved(u, a) == resolved(u, b),
{
    lemma_meaning(u);
}

/// The unifier found is a most general one: every solution of the earlier
/// bindings that makes the two trees equal is an instance of it.
pub proof fn law_unifier_is_most_general(
    s: Seq<Option<Tree>>,
    u: Seq<Option<Tree>>,
    a: Tree,
    b: Tree,
    g: spec_fn(int) -> Tree,
    t: Tree,
)
    requires
        unified(s, u, a, b, true),
        solves(g, s),
        inst(g, a) == inst(g, b),
    ensures
        inst(g, resolved(u, t)) == inst(g, t),
{
    lemma_solution_factors(g, u, t);
}

/// Unification does not depend on the order of the two trees.
pub proof fn law_unification_is_symmetric(
    s: Seq<Option<Tree>>,
    u: Seq<Option<Tree>>,
    w: Seq<Option<Tree>>,
    a: Tree,
    b: Tree,
    ok: bool,
    ok_swapped: bool,
)
    requires
        unified(s, u, a, b, ok),
        unified(s, w, b, a, ok_swapped),
    ensures
        ok == ok_swapped,
{
    if ok && !ok_swapped {
        lemma_meaning(u);
        assert(solves(meaning(u), s));
    }
    if !ok && ok_swapped {
        lemma_meaning(w);
        assert(solves(meaning(w), s));
    }
}

/// Unification succeeds exactly when some solution of the bindings makes the
/// two trees equal.
pub proof fn law_unification_decides_solvability(
    s: Seq<Option<Tree>>,
    u: Seq<Option<Tree>>,
    a: Tree,
    b: Tree,
    ok: bool,
)
    requires
        unified(s, u, a, b, ok),
    ensures
        ok <==> exists|g: spec_fn(int) -> Tree| #[trigger] solves(g, s) && inst(g, a) == inst(g, b),
{
    if ok {
        lemma_meaning(u);
        let g = meaning(u);
        assert(solves(g, s) && inst(g, a) == inst(g, b));
    }
}

/// Resolving a resolved tree changes nothing.
pub proof fn law_resolving_is_idempotent(s: Seq<Option<Tree>>, t: Tree)
    requires
        acyclic(s),
    ensures
        resolved(s, resolved(s, t)) == resolved(s, t),
{
    lemma_meaning(s);
    lemma_solution_factors(meaning(s), s, t);
}

/// A resolved tree mentions no bound slot.
pub proof fn law_resolved_trees_are_free(s: Seq<Option<Tree>>, t: Tree, v: int)
    requires
        acyclic(s),
        bound(s, v),
    ensures
        !occurs(v, resolved(s, t)),
{
    if occurs(v, resolved(s, t)) {
        lemma_resolved_free(s, t, v);
    }
}

/// After a match from free slots against a target that shares no variable with
/// the pattern, the pattern resolves to the target and the target to itself.
pub proof fn law_matched_pattern_resolves_to_target(
    s: Seq<Option<Tree>>,
    u: Seq<Option<Tree>>,
    p: Tree,
    t: Tree,
)
    requires
        forall|i: int| !#[trigger] bound(s, i),
        matched(s, u, p, t, true),
        forall|v: int| #[trigger] occurs(v, p) ==> !occurs(v, t),
        within(t, s.len() as int),
    ensures
        acyclic(u),
        resolved(u, p) == t,
        resolved(u, t) == t,
{
    let r = Seq::new(
        u.len(),
        |i: int|
            if bound(u, i) {
                1nat
            } else {
                0nat
            },
    );
    assert forall|i: int, v: int| bound(u, i) && #[trigger] occurs(v, u[i]->0) implies 0 <= v < u.len()
        && r[v] < r[i] by {
        assert(occurs(i, p));
        assert(fill(u)(i) == u[i]->0);
        lemma_occurs_inst(v, fill(u), p);
        assert(occurs(v, t));
        assert(!bound(u, v)) by {
            if bound(u, v) {
                assert(occurs(v, p));
            }
        }
    }
    assert(ranked(u, r));
    lemma_meaning(u);
    let m = meaning(u);
    assert forall|v: int| #[trigger] occurs(v, t) implies m(v) == Tree::Var(v) by {
        if bound(u, v) {
            assert(occurs(v, p));
        }
    }
    lemma_inst_id(m, t);
    lemma_inst_compose(m, fill(u), p);
    let h = |v: int| inst(m, fill(u)(v));
    assert forall|v: int| #[trigger] occurs(v, p) implies m(v) == h(v) by {
        assert(bound(u, v));
    }
    lemma_inst_agree(m, h, p);
}

/// From free slots a match succeeds exactly if some replacement of the pattern's variables
/// turns the pattern into the target, and two places of one variable are replaced alike.
pub proof fn law_matching_decides_instances(
    s: Seq<Option<Tree>>,
    u: Seq<Option<Tree>>,
    p: Tree,
    t: Tree,
    ok: bool,
)
    requires
        forall|i: int| !#[trigger] bound(s, i),
        within(p, s.len() as int),
        matched(s, u, p, t, ok),
    ensures
        ok <==> exists|f: spec_fn(int) -> Tree| #[trigger] inst(f, p) == t,
{
    if ok {
        assert(inst(fill(u), p) == t);
    } else if exists|f: spec_fn(int) -> Tree| #[trigger] inst(f, p) == t {
        let f = choose|f: spec_fn(int) -> Tree| #[trigger] inst(f, p) == t;
        let w = Seq::new(
            s.len(),
            |i: int|
                if occurs(i, p) {
                    Some(f(i))
                } else {
                    None
                },
        );
        assert(extends(s, w));
        assert forall|v: int| #[trigger] occurs(v, p) implies bound(w, v) && fill(w)(v) == f(v) by {
            assert(0 <= v < s.len());
        }
        assert(covers(w, p));
        lemma_inst_agree(fill(w), f, p);
    }
}

} // verus!
