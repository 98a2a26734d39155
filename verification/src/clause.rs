//! Clauses in canonical form: literals in a fixed order, variables numbered by
//! first occurrence.
use vstd::prelude::*;

use crate::canon::{canonical, law_slot_of_identity, lemma_slot_below, slot_of, slotted, CanonVars};
use crate::subst::{
    inst, insts, lemma_inst_agree, lemma_inst_app, lemma_inst_compose, lemma_occurs_elem, lemma_occurs_split, occurs,
};
use crate::term::{lemma_app_view, views, Term, Tree};
use crate::types::SymbolId;
use crate::unify::fits;

verus! {

broadcast use lemma_app_view;

/// A literal: a polarity and an atom.
pub struct PLit {
    pub pos: bool,
    pub term: Term,
}

/// A literal with its atom as a tree.
pub struct LitView {
    pub pos: bool,
    pub term: Tree,
}

impl View for PLit {
    type V = LitView;

    open spec fn view(&self) -> LitView {
        LitView { pos: self.pos, term: self.term@ }
    }
}

impl Clone for PLit {
    fn clone(&self) -> (r: PLit)
        ensures
            r@ == self@,
    {
        PLit { pos: self.pos, term: self.term.clone() }
    }
}

/// The views of the literals.
pub open spec fn lit_views(lits: Seq<PLit>) -> Seq<LitView> {
    Seq::new(lits.len(), |i: int| lits[i]@)
}

/// The place of a literal in the order: negative before positive, then by the
/// kind of the head.  Symbols and variables themselves play no part.
pub open spec fn blank_rank(l: LitView) -> int {
    let head = match l.term {
        Tree::App(ts) => if ts.len() == 0 {
            2int
        } else {
            match ts[0] {
                Tree::Op(_) => 0int,
                Tree::Sym(_) => 1int,
                _ => 2int,
            }
        },
        _ => 2int,
    };
    if l.pos {
        head + 3
    } else {
        head
    }
}

/// The literals of rank `r`, in their order.
pub open spec fn of_rank(lits: Seq<LitView>, r: int) -> Seq<LitView>
    decreases lits.len(),
{
    if lits.len() == 0 {
        Seq::empty()
    } else {
        let rest = of_rank(lits.drop_last(), r);
        if blank_rank(lits.last()) == r {
            rest.push(lits.last())
        } else {
            rest
        }
    }
}

/// The literals of the ranks below `n`, rank by rank.
pub open spec fn ordered(lits: Seq<LitView>, n: nat) -> Seq<LitView>
    decreases n,
{
    if n == 0 {
        Seq::empty()
    } else {
        ordered(lits, (n - 1) as nat) + of_rank(lits, n - 1)
    }
}

/// The variables noted in `ids`, with those of `t` put behind them in order of
/// first occurrence.
pub open spec fn noted(ids: Seq<SymbolId>, t: Tree) -> Seq<SymbolId>
    decreases t,
{
    match t {
        Tree::Var(v) => if ids.contains(v as u64) {
            ids
        } else {
            ids.push(v as u64)
        },
        Tree::App(ts) => noted_all(ids, ts),
        _ => ids,
    }
}

/// The same for a sequence of trees.
pub open spec fn noted_all(ids: Seq<SymbolId>, ts: Seq<Tree>) -> Seq<SymbolId>
    decreases ts,
{
    if ts.len() == 0 {
        ids
    } else {
        noted(noted_all(ids, ts.drop_last()), ts.last())
    }
}

/// The variables of the literals, in order of first occurrence.
pub open spec fn variables(lits: Seq<LitView>) -> Seq<SymbolId>
    decreases lits.len(),
{
    if lits.len() == 0 {
        Seq::empty()
    } else {
        noted(variables(lits.drop_last()), lits.last().term)
    }
}

/// The literals with their variables replaced by slots.
pub open spec fn slotted_lits(ids: Seq<SymbolId>, lits: Seq<LitView>) -> Seq<LitView> {
    Seq::new(
        lits.len(),
        |i: int| LitView { pos: lits[i].pos, term: slotted(ids, 0, lits[i].term) },
    )
}

/// The canonical form of a clause.
pub open spec fn canonical_form(lits: Seq<LitView>) -> Seq<LitView> {
    let sorted = ordered(lits, 6);
    slotted_lits(variables(sorted), sorted)
}

/// The place of a literal in the order.
fn rank_of(l: &PLit) -> (r: u8)
    ensures
        r == blank_rank(l@),
        r < 6,
{
    let head: u8 = match &l.term {
        Term::App(elems) => {
            assert(l.term@ == Tree::App(views(elems@)));
            if elems.len() == 0 {
                2
            } else {
                assert(views(elems@)[0] == elems@[0]@);
                match &elems[0] {
                    Term::Op(_) => 0,
                    Term::Sym(_) => 1,
                    _ => 2,
                }
            }
        },
        _ => 2,
    };
    if l.pos {
        head + 3
    } else {
        head
    }
}

/// The literals in their order.
fn sort_lits(lits: &Vec<PLit>) -> (out: Vec<PLit>)
    ensures
        lit_views(out@) == ordered(lit_views(lits@), 6),
{
    let mut out: Vec<PLit> = Vec::new();
    let ghost ls = lit_views(lits@);
    let mut r: u8 = 0;
    assert(lit_views(out@) =~= ordered(ls, 0));
    while r < 6
        invariant
            r <= 6,
            ls == lit_views(lits@),
            lit_views(out@) == ordered(ls, r as nat),
        decreases 6 - r,
    {
        let ghost base = ordered(ls, r as nat);
        let mut i: usize = 0;
        assert(base + of_rank(ls.take(0), r as int) =~= base);
        while i < lits.len()
            invariant
                i <= lits@.len(),
                ls == lit_views(lits@),
                lit_views(out@) == base + of_rank(ls.take(i as int), r as int),
            decreases lits@.len() - i,
        {
            assert(ls.take(i + 1).drop_last() =~= ls.take(i as int));
            assert(ls.take(i + 1).last() == lits@[i as int]@);
            if rank_of(&lits[i]) == r {
                let ghost sofar = lit_views(out@);
                out.push(lits[i].clone());
                assert(lit_views(out@) =~= sofar.push(lits@[i as int]@));
                assert(lit_views(out@) =~= base + of_rank(ls.take(i + 1), r as int));
            }
            i += 1;
        }
        assert(ls.take(i as int) =~= ls);
        r += 1;
    }
    out
}

/// Notes the variables of `t`.
fn note(ids: &mut Vec<SymbolId>, t: &Term)
    ensures
        final(ids)@ == noted(old(ids)@, t@),
    decreases t,
{
    match t {
        Term::Var(v) => {
            let mut i: usize = 0;
            while i < ids.len()
                invariant
                    i <= ids@.len(),
                    ids@ == old(ids)@,
                    t@ == Tree::Var(*v as int),
                    forall|k: int| 0 <= k < i ==> ids@[k] != *v,
                decreases ids@.len() - i,
            {
                if ids[i] == *v {
                    assert(old(ids)@[i as int] == (*v as int) as u64);
                    return;
                }
                i += 1;
            }
            ids.push(*v);
        },
        Term::App(elems) => {
            let ghost ts = views(elems@);
            let mut i: usize = 0;
            while i < elems.len()
                invariant
                    i <= elems@.len(),
                    ts == views(elems@),
                    ids@ == noted_all(old(ids)@, ts.take(i as int)),
                    decreases_to!(t => elems@),
                decreases elems@.len() - i,
            {
                assert(ts.take(i + 1).drop_last() =~= ts.take(i as int));
                assert(ts.take(i + 1).last() == elems@[i as int]@);
                note(ids, &elems[i]);
                i += 1;
            }
            assert(ts.take(i as int) =~= ts);
        },
        _ => {},
    }
}

/// Noting keeps what was noted and covers the variables of the tree.
proof fn lemma_noted(ids: Seq<SymbolId>, t: Tree)
    ensures
        forall|x: u64| ids.contains(x) ==> #[trigger] noted(ids, t).contains(x),
        forall|v: int| #[trigger] occurs(v, t) ==> noted(ids, t).contains(v as u64),
    decreases t,
{
    match t {
        Tree::Var(v) => {
            let new = ids.push(v as u64);
            assert(new[ids.len() as int] == v as u64);
            assert forall|x: u64| ids.contains(x) implies #[trigger] new.contains(x) by {
                assert(new[ids.index_of(x)] == x);
            }
        },
        Tree::App(ts) => {
            lemma_noted_all(ids, ts);
            assert(noted(ids, t) == noted_all(ids, ts));
            assert forall|v: int| #[trigger] occurs(v, t) implies noted(ids, t).contains(v as u64) by {
                let k = lemma_occurs_split(v, ts);
            }
        },
        _ => {},
    }
}

proof fn lemma_noted_all(ids: Seq<SymbolId>, ts: Seq<Tree>)
    ensures
        forall|x: u64| ids.contains(x) ==> #[trigger] noted_all(ids, ts).contains(x),
        forall|i: int, v: int|
            0 <= i < ts.len() && #[trigger] occurs(v, ts[i]) ==> noted_all(ids, ts).contains(v as u64),
    decreases ts,
{
    if ts.len() > 0 {
        let front = ts.drop_last();
        lemma_noted_all(ids, front);
        lemma_noted(noted_all(ids, front), ts.last());
        assert(noted_all(ids, ts) == noted(noted_all(ids, front), ts.last()));
        assert forall|x: u64| ids.contains(x) implies #[trigger] noted_all(ids, ts).contains(x) by {
            assert(noted_all(ids, front).contains(x));
        }
        assert forall|i: int, v: int| 0 <= i < ts.len() && #[trigger] occurs(v, ts[i]) implies noted_all(
            ids,
            ts,
        ).contains(v as u64) by {
            if i < ts.len() - 1 {
                assert(occurs(v, front[i]));
                assert(noted_all(ids, front).contains(v as u64));
            }
        }
    }
}

/// The variables of the literals cover each of them.
pub proof fn lemma_variables(lits: Seq<LitView>, i: int, v: int)
    requires
        0 <= i < lits.len(),
        occurs(v, lits[i].term),
    ensures
        variables(lits).contains(v as u64),
    decreases lits.len(),
{
    let front = lits.drop_last();
    lemma_noted(variables(front), lits.last().term);
    if i < lits.len() - 1 {
        lemma_variables(front, i, v);
    }
}

/// A listed identity has a slot.
pub proof fn lemma_listed_slot(ids: Seq<SymbolId>, x: u64)
    requires
        ids.contains(x),
    ensures
        slot_of(ids, x as int) is Some,
    decreases ids.len(),
{
    let k = ids.index_of(x);
    if k < ids.len() - 1 {
        assert(ids.drop_last()[k] == x);
        lemma_listed_slot(ids.drop_last(), x);
    }
}

/// The canonical form of a clause; `None` if it has more variables than there
/// are slots.
pub fn canonical_clause(lits: &Vec<PLit>) -> (r: Option<Vec<PLit>>)
    ensures
        match r {
            Some(out) => lit_views(out@) == canonical_form(lit_views(lits@)),
            None => variables(ordered(lit_views(lits@), 6)).len() > u32::MAX,
        },
{
    let sorted: Vec<PLit> = sort_lits(lits);
    let ghost ls = lit_views(sorted@);
    let mut ids: Vec<SymbolId> = Vec::new();
    let mut i: usize = 0;
    while i < sorted.len()
        invariant
            i <= sorted@.len(),
            ls == lit_views(sorted@),
            ids@ == variables(ls.take(i as int)),
        decreases sorted@.len() - i,
    {
        assert(ls.take(i + 1).drop_last() =~= ls.take(i as int));
        assert(ls.take(i + 1).last() == sorted@[i as int]@);
        note(&mut ids, &sorted[i].term);
        i += 1;
    }
    assert(ls.take(i as int) =~= ls);
    if ids.len() as u64 > u32::MAX as u64 {
        return None;
    }
    let canon: CanonVars = CanonVars::from_ids(ids);
    let mut out: Vec<PLit> = Vec::new();
    let mut i: usize = 0;
    while i < sorted.len()
        invariant
            i <= sorted@.len(),
            ls == lit_views(sorted@),
            canon@ == variables(ls),
            canon@.len() <= u32::MAX,
            out@.len() == i,
            forall|k: int|
                0 <= k < i ==> (#[trigger] out@[k])@ == (LitView {
                    pos: ls[k].pos,
                    term: slotted(canon@, 0, ls[k].term),
                }),
        decreases sorted@.len() - i,
    {
        proof {
            assert(ls[i as int] == sorted@[i as int]@);
            lemma_term_listed(canon@, sorted@[i as int].term, ls, i as int);
        }
        match canon.reslot(&sorted[i].term, 0) {
            Some(t) => {
                out.push(PLit { pos: sorted[i].pos, term: t });
            },
            None => {
                assert(false);
            },
        }
        i += 1;
    }
    assert(lit_views(out@) =~= slotted_lits(canon@, ls));
    Some(out)
}

proof fn lemma_term_listed(ids: Seq<SymbolId>, t: Term, ls: Seq<LitView>, i: int)
    requires
        0 <= i < ls.len(),
        ls[i].term == t@,
        ids == variables(ls),
    ensures
        canonical(ids, t@),
{
    crate::unify::lemma_term_fits(t);
    assert forall|v: int| #[trigger] occurs(v, t@) implies slot_of(ids, v) is Some by {
        lemma_variables(ls, i, v);
        lemma_listed_slot(ids, v as u64);
    }
}

// ---------------------------------------------------------------------------
// What the canonical form is good for
// ---------------------------------------------------------------------------

/// Every variable of the literals is an identity.
pub open spec fn lits_fit(lits: Seq<LitView>) -> bool {
    forall|i: int| 0 <= i < lits.len() ==> fits(#[trigger] lits[i].term)
}

/// The variable stands in one of the literals.
pub open spec fn stands_in(lits: Seq<LitView>, v: int) -> bool {
    exists|i: int| 0 <= i < lits.len() && occurs(v, #[trigger] lits[i].term)
}

/// Each variable under its new name.
pub open spec fn renaming(g: spec_fn(int) -> int) -> spec_fn(int) -> Tree {
    |v: int| Tree::Var(g(v))
}

/// The literals with their variables renamed.
pub open spec fn renamed_lits(g: spec_fn(int) -> int, lits: Seq<LitView>) -> Seq<LitView> {
    Seq::new(lits.len(), |i: int| LitView { pos: lits[i].pos, term: inst(renaming(g), lits[i].term) })
}

/// The new names of the variables are identities, and no two variables get one name.
pub open spec fn names_apart(g: spec_fn(int) -> int, lits: Seq<LitView>) -> bool {
    &&& forall|v: int| #[trigger] stands_in(lits, v) ==> 0 <= g(v) <= u64::MAX
    &&& forall|v: int, w: int|
        #[trigger] stands_in(lits, v) && #[trigger] stands_in(lits, w) && g(v) == g(w) ==> v == w
}

proof fn lemma_renamed_rank(g: spec_fn(int) -> int, l: LitView)
    ensures
        blank_rank(LitView { pos: l.pos, term: inst(renaming(g), l.term) }) == blank_rank(l),
{
    if let Tree::App(ts) = l.term {
        lemma_inst_app(renaming(g), ts);
        if ts.len() > 0 {
            assert(insts(renaming(g), ts)[0] == inst(renaming(g), ts[0]));
        }
    }
}

proof fn lemma_renamed_of_rank(g: spec_fn(int) -> int, lits: Seq<LitView>, r: int)
    ensures
        of_rank(renamed_lits(g, lits), r) == renamed_lits(g, of_rank(lits, r)),
    decreases lits.len(),
{
    if lits.len() > 0 {
        let front = lits.drop_last();
        lemma_renamed_of_rank(g, front, r);
        lemma_renamed_rank(g, lits.last());
        assert(renamed_lits(g, lits).drop_last() =~= renamed_lits(g, front));
        assert(of_rank(renamed_lits(g, lits), r) =~= renamed_lits(g, of_rank(lits, r)));
    } else {
        assert(of_rank(renamed_lits(g, lits), r) =~= renamed_lits(g, of_rank(lits, r)));
    }
}

proof fn lemma_renamed_ordered(g: spec_fn(int) -> int, lits: Seq<LitView>, n: nat)
    ensures
        ordered(renamed_lits(g, lits), n) == renamed_lits(g, ordered(lits, n)),
    decreases n,
{
    if n > 0 {
        lemma_renamed_ordered(g, lits, (n - 1) as nat);
        lemma_renamed_of_rank(g, lits, n - 1);
    }
    assert(ordered(renamed_lits(g, lits), n) =~= renamed_lits(g, ordered(lits, n)));
}

proof fn lemma_of_rank_takes(lits: Seq<LitView>, r: int, k: int)
    requires
        0 <= k < of_rank(lits, r).len(),
    ensures
        lits.contains(of_rank(lits, r)[k]),
        blank_rank(of_rank(lits, r)[k]) == r,
    decreases lits.len(),
{
    let front = lits.drop_last();
    if k < of_rank(front, r).len() {
        lemma_of_rank_takes(front, r, k);
        let i = choose|i: int| 0 <= i < front.len() && front[i] == of_rank(front, r)[k];
        assert(lits[i] == of_rank(lits, r)[k]);
    } else {
        assert(lits[lits.len() - 1] == of_rank(lits, r)[k]);
    }
}

proof fn lemma_ordered_takes(lits: Seq<LitView>, n: nat, k: int)
    requires
        0 <= k < ordered(lits, n).len(),
    ensures
        lits.contains(ordered(lits, n)[k]),
        0 <= blank_rank(ordered(lits, n)[k]) < n,
    decreases n,
{
    let rest = ordered(lits, (n - 1) as nat);
    if k < rest.len() {
        lemma_ordered_takes(lits, (n - 1) as nat, k);
    } else {
        lemma_of_rank_takes(lits, n - 1, k - rest.len());
    }
}

proof fn lemma_ordered_ranks(lits: Seq<LitView>, n: nat, i: int, j: int)
    requires
        0 <= i <= j < ordered(lits, n).len(),
    ensures
        blank_rank(ordered(lits, n)[i]) <= blank_rank(ordered(lits, n)[j]),
    decreases n,
{
    let rest = ordered(lits, (n - 1) as nat);
    if j < rest.len() {
        lemma_ordered_ranks(lits, (n - 1) as nat, i, j);
    } else {
        lemma_of_rank_takes(lits, n - 1, j - rest.len());
        lemma_ordered_takes(lits, n, i);
    }
}

proof fn lemma_of_rank_once(lits: Seq<LitView>, r: int, l: LitView)
    ensures
        of_rank(lits, r).to_multiset().count(l) == if blank_rank(l) == r {
            lits.to_multiset().count(l)
        } else {
            0
        },
    decreases lits.len(),
{
    broadcast use vstd::seq_lib::group_to_multiset_ensures;

    if lits.len() > 0 {
        let front = lits.drop_last();
        lemma_of_rank_once(front, r, l);
        assert(lits =~= front.push(lits.last()));
    }
}

proof fn lemma_ordered_once(lits: Seq<LitView>, n: nat, l: LitView)
    ensures
        ordered(lits, n).to_multiset().count(l) == if 0 <= blank_rank(l) < n {
            lits.to_multiset().count(l)
        } else {
            0
        },
    decreases n,
{
    broadcast use vstd::seq_lib::group_to_multiset_ensures;

    if n > 0 {
        let rest = ordered(lits, (n - 1) as nat);
        lemma_ordered_once(lits, (n - 1) as nat, l);
        lemma_of_rank_once(lits, n - 1, l);
        vstd::seq_lib::lemma_multiset_commutative(rest, of_rank(lits, n - 1));
    }
}

/// The order has each literal of the clause as often as the clause has it.
pub proof fn law_ordering_keeps_the_literals(lits: Seq<LitView>)
    ensures
        ordered(lits, 6).to_multiset() == lits.to_multiset(),
{
    assert forall|l: LitView| ordered(lits, 6).to_multiset().count(l) == lits.to_multiset().count(l) by {
        lemma_ordered_once(lits, 6, l);
    }
    assert(ordered(lits, 6).to_multiset() =~= lits.to_multiset());
}

/// The atom is headed by an operator.
pub open spec fn op_headed(t: Tree) -> bool {
    t matches Tree::App(ts) && ts.len() > 0 && ts[0] is Op
}

/// The atom is headed by a symbol.
pub open spec fn sym_headed(t: Tree) -> bool {
    t matches Tree::App(ts) && ts.len() > 0 && ts[0] is Sym
}

/// In a canonical form negative literals stand before positive ones, and among those of
/// one sign atoms with an operator before those with a symbol, and these before the rest.
pub proof fn law_how_literals_are_ordered(lits: Seq<LitView>, i: int, j: int)
    requires
        0 <= i < j < canonical_form(lits).len(),
    ensures
        ({
            let a = canonical_form(lits)[i];
            let b = canonical_form(lits)[j];
            &&& a.pos ==> b.pos
            &&& a.pos == b.pos && sym_headed(a.term) ==> !op_headed(b.term)
            &&& a.pos == b.pos && !sym_headed(a.term) && !op_headed(a.term) ==> !op_headed(b.term) && !sym_headed(b.term)
        }),
{
    let s = ordered(lits, 6);
    let ids = variables(s);
    lemma_ordered_ranks(lits, 6, i, j);
    lemma_slotted_head(ids, s[i].term);
    lemma_slotted_head(ids, s[j].term);
}

proof fn lemma_slotted_head(ids: Seq<SymbolId>, t: Tree)
    ensures
        op_headed(slotted(ids, 0, t)) == op_headed(t),
        sym_headed(slotted(ids, 0, t)) == sym_headed(t),
{
    let f = slot_map(ids);
    assert(slotted(ids, 0, t) == inst(f, t));
    if let Tree::App(ts) = t {
        lemma_inst_app(f, ts);
        if ts.len() > 0 {
            assert(insts(f, ts)[0] == inst(f, ts[0]));
        }
    }
}

spec fn slot_map(ids: Seq<SymbolId>) -> spec_fn(int) -> Tree {
    |v: int|
        match slot_of(ids, v) {
            Some(k) => Tree::Var(k + 0),
            None => Tree::Var(v),
        }
}

spec fn slot_number(ids: Seq<SymbolId>) -> spec_fn(int) -> int {
    |v: int|
        match slot_of(ids, v) {
            Some(k) => k,
            None => v,
        }
}

spec fn renamed_ids(g: spec_fn(int) -> int, ids: Seq<SymbolId>) -> Seq<SymbolId> {
    Seq::new(ids.len(), |i: int| g(ids[i] as int) as u64)
}

/// The identities listed are all among the literals' variables.
spec fn listed_stand(lits: Seq<LitView>, ids: Seq<SymbolId>) -> bool {
    forall|i: int| 0 <= i < ids.len() ==> stands_in(lits, #[trigger] ids[i] as int)
}

proof fn lemma_renamed_noted(g: spec_fn(int) -> int, lits: Seq<LitView>, ids: Seq<SymbolId>, t: Tree)
    requires
        names_apart(g, lits),
        listed_stand(lits, ids),
        fits(t),
        forall|v: int| #[trigger] occurs(v, t) ==> stands_in(lits, v),
    ensures
        noted(renamed_ids(g, ids), inst(renaming(g), t)) == renamed_ids(g, noted(ids, t)),
        listed_stand(lits, noted(ids, t)),
    decreases t,
{
    match t {
        Tree::Var(v) => {
            assert(occurs(v, t));
            let x = v as u64;
            let y = g(v) as u64;
            let rs = renamed_ids(g, ids);
            if ids.contains(x) {
                let i = choose|i: int| 0 <= i < ids.len() && ids[i] == x;
                assert(rs[i] == y);
            }
            if rs.contains(y) {
                let i = choose|i: int| 0 <= i < rs.len() && rs[i] == y;
                assert(stands_in(lits, ids[i] as int));
                assert(stands_in(lits, v));
                assert(ids[i] as int == v);
            }
            assert(renamed_ids(g, ids.push(x)) =~= rs.push(y));
        },
        Tree::App(ts) => {
            lemma_inst_app(renaming(g), ts);
            assert forall|i: int, v: int| 0 <= i < ts.len() && #[trigger] occurs(v, ts[i]) implies stands_in(lits, v)
                && 0 <= v < u64::MAX + 1 by {
                lemma_occurs_elem(v, ts, i);
            }
            lemma_renamed_noted_all(g, lits, ids, ts);
        },
        _ => {},
    }
}

proof fn lemma_renamed_noted_all(g: spec_fn(int) -> int, lits: Seq<LitView>, ids: Seq<SymbolId>, ts: Seq<Tree>)
    requires
        names_apart(g, lits),
        listed_stand(lits, ids),
        forall|i: int, v: int|
            0 <= i < ts.len() && #[trigger] occurs(v, ts[i]) ==> stands_in(lits, v) && 0 <= v < u64::MAX + 1,
    ensures
        noted_all(renamed_ids(g, ids), insts(renaming(g), ts)) == renamed_ids(g, noted_all(ids, ts)),
        listed_stand(lits, noted_all(ids, ts)),
    decreases ts,
{
    let us = insts(renaming(g), ts);
    if ts.len() > 0 {
        let front = ts.drop_last();
        assert(us.drop_last() =~= insts(renaming(g), front));
        assert forall|i: int, v: int| 0 <= i < front.len() && #[trigger] occurs(v, front[i]) implies stands_in(lits, v)
            && 0 <= v < u64::MAX + 1 by {
            assert(occurs(v, ts[i]));
        }
        lemma_renamed_noted_all(g, lits, ids, front);
        assert forall|v: int| #[trigger] occurs(v, ts.last()) implies stands_in(lits, v) && 0 <= v < u64::MAX + 1 by {
            assert(occurs(v, ts[ts.len() - 1]));
        }
        lemma_renamed_noted(g, lits, noted_all(ids, front), ts.last());
    }
}

proof fn lemma_renamed_variables(g: spec_fn(int) -> int, whole: Seq<LitView>, lits: Seq<LitView>)
    requires
        names_apart(g, whole),
        lits_fit(lits),
        forall|v: int| #[trigger] stands_in(lits, v) ==> stands_in(whole, v),
    ensures
        variables(renamed_lits(g, lits)) == renamed_ids(g, variables(lits)),
        listed_stand(whole, variables(lits)),
    decreases lits.len(),
{
    let rs = renamed_lits(g, lits);
    if lits.len() > 0 {
        let front = lits.drop_last();
        assert(rs.drop_last() =~= renamed_lits(g, front));
        assert forall|v: int| #[trigger] stands_in(front, v) implies stands_in(whole, v) by {
            let i = choose|i: int| 0 <= i < front.len() && occurs(v, #[trigger] front[i].term);
            assert(occurs(v, lits[i].term));
            assert(stands_in(lits, v));
        }
        assert forall|i: int| 0 <= i < front.len() implies fits(#[trigger] front[i].term) by {
            assert(front[i] == lits[i]);
        }
        lemma_renamed_variables(g, whole, front);
        let t = lits.last().term;
        assert(lits[lits.len() - 1].term == t);
        assert forall|v: int| #[trigger] occurs(v, t) implies stands_in(whole, v) by {
            assert(occurs(v, lits[lits.len() - 1].term));
            assert(stands_in(lits, v));
        }
        lemma_renamed_noted(g, whole, variables(front), t);
    } else {
        assert(variables(rs) =~= renamed_ids(g, variables(lits)));
    }
}

proof fn lemma_renamed_slot(g: spec_fn(int) -> int, lits: Seq<LitView>, ids: Seq<SymbolId>, v: int)
    requires
        names_apart(g, lits),
        listed_stand(lits, ids),
        stands_in(lits, v),
    ensures
        slot_of(renamed_ids(g, ids), g(v)) == slot_of(ids, v),
    decreases ids.len(),
{
    if ids.len() > 0 {
        let front = ids.drop_last();
        assert(renamed_ids(g, ids).drop_last() =~= renamed_ids(g, front));
        assert forall|i: int| 0 <= i < front.len() implies stands_in(lits, #[trigger] front[i] as int) by {
            assert(front[i] == ids[i]);
        }
        lemma_renamed_slot(g, lits, front, v);
        assert(stands_in(lits, ids[ids.len() - 1] as int));
    }
}

proof fn lemma_ordered_stands(lits: Seq<LitView>, v: int)
    ensures
        stands_in(ordered(lits, 6), v) ==> stands_in(lits, v),
        lits_fit(lits) ==> lits_fit(ordered(lits, 6)),
{
    let s = ordered(lits, 6);
    if stands_in(s, v) {
        let k = choose|k: int| 0 <= k < s.len() && occurs(v, #[trigger] s[k].term);
        lemma_ordered_takes(lits, 6, k);
        let i = choose|i: int| 0 <= i < lits.len() && lits[i] == s[k];
        assert(occurs(v, lits[i].term));
    }
    if lits_fit(lits) {
        assert forall|k: int| 0 <= k < s.len() implies fits(#[trigger] s[k].term) by {
            lemma_ordered_takes(lits, 6, k);
            let i = choose|i: int| 0 <= i < lits.len() && lits[i] == s[k];
            assert(fits(lits[i].term));
        }
    }
}

/// Clauses that differ in the names of their variables alone have one canonical form.
pub proof fn law_variants_share_their_form(g: spec_fn(int) -> int, lits: Seq<LitView>)
    requires
        lits_fit(lits),
        names_apart(g, lits),
    ensures
        canonical_form(renamed_lits(g, lits)) == canonical_form(lits),
{
    let s = ordered(lits, 6);
    let ids = variables(s);
    let r = renamed_lits(g, s);
    let rids = renamed_ids(g, ids);
    lemma_renamed_ordered(g, lits, 6);
    assert forall|v: int| #[trigger] stands_in(s, v) implies stands_in(lits, v) by {
        lemma_ordered_stands(lits, v);
    }
    lemma_ordered_stands(lits, 0);
    lemma_renamed_variables(g, lits, s);
    assert forall|i: int| 0 <= i < s.len() implies slotted(rids, 0, r[i].term) == slotted(ids, 0, #[trigger] s[i].term) by {
        let t = s[i].term;
        let f = slot_map(rids);
        let h = slot_map(ids);
        let c = |v: int| inst(f, renaming(g)(v));
        assert(slotted(rids, 0, r[i].term) == inst(f, inst(renaming(g), t)));
        assert(slotted(ids, 0, t) == inst(h, t));
        lemma_inst_compose(f, renaming(g), t);
        assert forall|v: int| #[trigger] occurs(v, t) implies c(v) == h(v) by {
            assert(occurs(v, s[i].term));
            assert(stands_in(s, v));
            assert(stands_in(lits, v));
            lemma_renamed_slot(g, lits, ids, v);
            lemma_variables(s, i, v);
            lemma_listed_slot(ids, v as u64);
        }
        lemma_inst_agree(c, h, t);
    }
    assert(slotted_lits(rids, r) =~= slotted_lits(ids, s));
}

proof fn lemma_of_rank_sorted(lits: Seq<LitView>, n: nat, r: int)
    ensures
        of_rank(ordered(lits, n), r) == if 0 <= r < n {
            of_rank(lits, r)
        } else {
            Seq::empty()
        },
    decreases n,
{
    if n > 0 {
        let rest = ordered(lits, (n - 1) as nat);
        lemma_of_rank_sorted(lits, (n - 1) as nat, r);
        lemma_of_rank_sum(rest, of_rank(lits, n - 1), r);
        lemma_of_rank_again(lits, n - 1, r);
        assert(of_rank(ordered(lits, n), r) =~= if 0 <= r < n {
            of_rank(lits, r)
        } else {
            Seq::empty()
        });
    }
}

proof fn lemma_of_rank_sum(a: Seq<LitView>, b: Seq<LitView>, r: int)
    ensures
        of_rank(a + b, r) == of_rank(a, r) + of_rank(b, r),
    decreases b.len(),
{
    if b.len() > 0 {
        lemma_of_rank_sum(a, b.drop_last(), r);
        assert((a + b).drop_last() =~= a + b.drop_last());
        assert((a + b).last() == b.last());
    } else {
        assert(a + b =~= a);
    }
    assert(of_rank(a + b, r) =~= of_rank(a, r) + of_rank(b, r));
}

proof fn lemma_of_rank_again(lits: Seq<LitView>, q: int, r: int)
    ensures
        of_rank(of_rank(lits, q), r) == if q == r {
            of_rank(lits, r)
        } else {
            Seq::empty()
        },
    decreases lits.len(),
{
    if lits.len() > 0 {
        lemma_of_rank_again(lits.drop_last(), q, r);
        let s = of_rank(lits.drop_last(), q);
        if blank_rank(lits.last()) == q {
            assert(s.push(lits.last()).drop_last() =~= s);
        }
    }
}

proof fn lemma_ordered_again(lits: Seq<LitView>, n: nat)
    requires
        n <= 6,
    ensures
        ordered(ordered(lits, 6), n) == ordered(lits, n),
    decreases n,
{
    if n > 0 {
        lemma_ordered_again(lits, (n - 1) as nat);
        lemma_of_rank_sorted(lits, 6, n - 1);
    }
}

/// The canonical form of a canonical form is itself, as long as there are slots for the
/// variables.
pub proof fn law_the_form_is_its_own(lits: Seq<LitView>)
    requires
        lits_fit(lits),
        variables(ordered(lits, 6)).len() <= u32::MAX,
    ensures
        canonical_form(canonical_form(lits)) == canonical_form(lits),
{
    let s = ordered(lits, 6);
    let ids = variables(s);
    let g = slot_number(ids);
    lemma_ordered_again(lits, 6);
    lemma_ordered_stands(lits, 0);
    assert(canonical_form(s) == canonical_form(lits));
    assert forall|i: int| 0 <= i < s.len() implies slotted(ids, 0, #[trigger] s[i].term) == inst(renaming(g), s[i].term) by {
        lemma_inst_agree(slot_map(ids), renaming(g), s[i].term);
    }
    assert(canonical_form(lits) =~= renamed_lits(g, s));
    assert forall|v: int| #[trigger] stands_in(s, v) implies slot_of(ids, v) is Some && 0 <= g(v) < ids.len() && ids[g(v)]
        == v by {
        let i = choose|i: int| 0 <= i < s.len() && occurs(v, #[trigger] s[i].term);
        assert(fits(s[i].term));
        lemma_variables(s, i, v);
        lemma_listed_slot(ids, v as u64);
        lemma_slot_below(ids, v);
    }
    assert(names_apart(g, s));
    law_variants_share_their_form(g, s);
}

/// The variables of a tree as they occur, from left to right.
pub open spec fn occurrences(t: Tree) -> Seq<int>
    decreases t,
{
    match t {
        Tree::Var(v) => seq![v],
        Tree::App(ts) => occurrences_all(ts),
        _ => Seq::empty(),
    }
}

/// The same for a sequence of trees.
pub open spec fn occurrences_all(ts: Seq<Tree>) -> Seq<int>
    decreases ts,
{
    if ts.len() == 0 {
        Seq::empty()
    } else {
        occurrences_all(ts.drop_last()) + occurrences(ts.last())
    }
}

/// The variables of the literals as they occur, from left to right.
pub open spec fn lit_occurrences(lits: Seq<LitView>) -> Seq<int>
    decreases lits.len(),
{
    if lits.len() == 0 {
        Seq::empty()
    } else {
        lit_occurrences(lits.drop_last()) + occurrences(lits.last().term)
    }
}

spec fn entered(ids: Seq<SymbolId>, os: Seq<int>) -> Seq<SymbolId>
    decreases os.len(),
{
    if os.len() == 0 {
        ids
    } else {
        let s = entered(ids, os.drop_last());
        if s.contains(os.last() as u64) {
            s
        } else {
            s.push(os.last() as u64)
        }
    }
}

proof fn lemma_entered_sum(ids: Seq<SymbolId>, a: Seq<int>, b: Seq<int>)
    ensures
        entered(ids, a + b) == entered(entered(ids, a), b),
    decreases b.len(),
{
    if b.len() > 0 {
        lemma_entered_sum(ids, a, b.drop_last());
        assert((a + b).drop_last() =~= a + b.drop_last());
        assert((a + b).last() == b.last());
    } else {
        assert(a + b =~= a);
    }
}

proof fn lemma_noted_entered(ids: Seq<SymbolId>, t: Tree)
    ensures
        noted(ids, t) == entered(ids, occurrences(t)),
    decreases t,
{
    match t {
        Tree::Var(v) => {
            let os = seq![v];
            assert(os.drop_last() =~= Seq::empty());
            assert(entered(ids, os.drop_last()) == ids);
            assert(os.last() == v);
        },
        Tree::App(ts) => {
            lemma_noted_entered_all(ids, ts);
        },
        _ => {},
    }
}

proof fn lemma_noted_entered_all(ids: Seq<SymbolId>, ts: Seq<Tree>)
    ensures
        noted_all(ids, ts) == entered(ids, occurrences_all(ts)),
    decreases ts,
{
    if ts.len() > 0 {
        lemma_noted_entered_all(ids, ts.drop_last());
        lemma_noted_entered(noted_all(ids, ts.drop_last()), ts.last());
        lemma_entered_sum(ids, occurrences_all(ts.drop_last()), occurrences(ts.last()));
    }
}

proof fn lemma_variables_entered(lits: Seq<LitView>)
    ensures
        variables(lits) == entered(Seq::empty(), lit_occurrences(lits)),
    decreases lits.len(),
{
    if lits.len() > 0 {
        lemma_variables_entered(lits.drop_last());
        lemma_noted_entered(variables(lits.drop_last()), lits.last().term);
        lemma_entered_sum(Seq::empty(), lit_occurrences(lits.drop_last()), occurrences(lits.last().term));
    }
}

spec fn mapped(g: spec_fn(int) -> int, os: Seq<int>) -> Seq<int> {
    Seq::new(os.len(), |i: int| g(os[i]))
}

proof fn lemma_renamed_occurrences(g: spec_fn(int) -> int, t: Tree)
    ensures
        occurrences(inst(renaming(g), t)) == mapped(g, occurrences(t)),
    decreases t,
{
    match t {
        Tree::Var(v) => {
            assert(occurrences(inst(renaming(g), t)) =~= mapped(g, occurrences(t)));
        },
        Tree::App(ts) => {
            lemma_inst_app(renaming(g), ts);
            lemma_renamed_occurrences_all(g, ts);
        },
        _ => {
            assert(mapped(g, occurrences(t)) =~= Seq::empty());
        },
    }
}

proof fn lemma_renamed_occurrences_all(g: spec_fn(int) -> int, ts: Seq<Tree>)
    ensures
        occurrences_all(insts(renaming(g), ts)) == mapped(g, occurrences_all(ts)),
    decreases ts,
{
    let us = insts(renaming(g), ts);
    if ts.len() > 0 {
        assert(us.drop_last() =~= insts(renaming(g), ts.drop_last()));
        lemma_renamed_occurrences_all(g, ts.drop_last());
        lemma_renamed_occurrences(g, ts.last());
    }
    assert(occurrences_all(us) =~= mapped(g, occurrences_all(ts)));
}

proof fn lemma_renamed_lit_occurrences(g: spec_fn(int) -> int, lits: Seq<LitView>)
    ensures
        lit_occurrences(renamed_lits(g, lits)) == mapped(g, lit_occurrences(lits)),
    decreases lits.len(),
{
    let us = renamed_lits(g, lits);
    if lits.len() > 0 {
        assert(us.drop_last() =~= renamed_lits(g, lits.drop_last()));
        lemma_renamed_lit_occurrences(g, lits.drop_last());
        lemma_renamed_occurrences(g, lits.last().term);
    }
    assert(lit_occurrences(us) =~= mapped(g, lit_occurrences(lits)));
}

spec fn in_range(os: Seq<int>) -> bool {
    forall|i: int| 0 <= i < os.len() ==> 0 <= #[trigger] os[i] <= u64::MAX
}

proof fn lemma_occurrences_fit(t: Tree)
    requires
        fits(t),
    ensures
        in_range(occurrences(t)),
    decreases t,
{
    match t {
        Tree::Var(v) => {
            assert(occurs(v, t));
        },
        Tree::App(ts) => {
            assert forall|i: int| 0 <= i < ts.len() implies fits(#[trigger] ts[i]) by {
                assert forall|v: int| #[trigger] occurs(v, ts[i]) implies 0 <= v < u64::MAX + 1 by {
                    lemma_occurs_elem(v, ts, i);
                }
            }
            lemma_occurrences_fit_all(ts);
        },
        _ => {},
    }
}

proof fn lemma_occurrences_fit_all(ts: Seq<Tree>)
    requires
        forall|i: int| 0 <= i < ts.len() ==> fits(#[trigger] ts[i]),
    ensures
        in_range(occurrences_all(ts)),
    decreases ts,
{
    if ts.len() > 0 {
        lemma_occurrences_fit_all(ts.drop_last());
        lemma_occurrences_fit(ts[ts.len() - 1]);
    }
}

proof fn lemma_lit_occurrences_fit(lits: Seq<LitView>)
    requires
        lits_fit(lits),
    ensures
        in_range(lit_occurrences(lits)),
    decreases lits.len(),
{
    if lits.len() > 0 {
        let front = lits.drop_last();
        assert forall|i: int| 0 <= i < front.len() implies fits(#[trigger] front[i].term) by {
            assert(front[i] == lits[i]);
        }
        lemma_lit_occurrences_fit(front);
        lemma_occurrences_fit(lits[lits.len() - 1].term);
    }
}

proof fn lemma_entered_from(os: Seq<int>, j: int)
    requires
        in_range(os),
        0 <= j < entered(Seq::empty(), os).len(),
    ensures
        exists|q: int| 0 <= q < os.len() && #[trigger] os[q] == entered(Seq::empty(), os)[j],
    decreases os.len(),
{
    if os.len() > 0 {
        let front = os.drop_last();
        let s = entered(Seq::empty(), front);
        if j < s.len() {
            lemma_entered_from(front, j);
            let q = choose|q: int| 0 <= q < front.len() && #[trigger] front[q] == s[j];
            assert(os[q] == s[j]);
        } else {
            assert(os[os.len() - 1] == entered(Seq::empty(), os)[j]);
        }
    }
}

proof fn lemma_entered_first(os: Seq<int>, p: int, j: int)
    requires
        in_range(os),
        0 <= p < os.len(),
        slot_of(entered(Seq::empty(), os), os[p]) matches Some(k) && 0 <= j < k,
    ensures
        j < entered(Seq::empty(), os).len(),
        exists|q: int| 0 <= q < p && #[trigger] os[q] == entered(Seq::empty(), os)[j],
    decreases os.len(),
{
    let front = os.drop_last();
    let s = entered(Seq::empty(), front);
    let t = entered(Seq::empty(), os);
    lemma_slot_below(t, os[p]);
    lemma_slot_below(s, os[p]);
    if p < os.len() - 1 {
        assert(front[p] == os[p]);
        assert(s.contains(os[p] as u64)) by {
            lemma_entered_holds(front, p);
        }
        lemma_listed_slot(s, os[p] as u64);
        if t != s {
            assert(t.drop_last() =~= s);
        }
        lemma_entered_first(front, p, j);
        let q = choose|q: int| 0 <= q < p && #[trigger] front[q] == s[j];
        assert(os[q] == t[j]);
    } else {
        let k = slot_of(t, os[p])->0;
        if t != s {
            assert(t.drop_last() =~= s);
        }
        assert(j < s.len());
        lemma_entered_from(front, j);
        let q = choose|q: int| 0 <= q < front.len() && #[trigger] front[q] == s[j];
        assert(os[q] == t[j]);
    }
}

proof fn lemma_entered_holds(os: Seq<int>, p: int)
    requires
        0 <= p < os.len(),
    ensures
        entered(Seq::empty(), os).contains(os[p] as u64),
    decreases os.len(),
{
    let front = os.drop_last();
    let s = entered(Seq::empty(), front);
    let t = entered(Seq::empty(), os);
    if p < os.len() - 1 {
        lemma_entered_holds(front, p);
        let i = choose|i: int| 0 <= i < s.len() && s[i] == front[p] as u64;
        assert(t[i] == os[p] as u64);
    } else if !s.contains(os[p] as u64) {
        assert(t[s.len() as int] == os[p] as u64);
    }
}

/// In a canonical form the variables are numbered in the order in which they first occur:
/// left of each number stand all the smaller ones.
pub proof fn law_variables_are_numbered_as_they_come(lits: Seq<LitView>, p: int, j: int)
    requires
        lits_fit(lits),
        0 <= p < lit_occurrences(canonical_form(lits)).len(),
        0 <= j < lit_occurrences(canonical_form(lits))[p],
    ensures
        exists|q: int| 0 <= q < p && #[trigger] lit_occurrences(canonical_form(lits))[q] == j,
{
    let s = ordered(lits, 6);
    let ids = variables(s);
    let g = slot_number(ids);
    let os = lit_occurrences(s);
    let ns = lit_occurrences(canonical_form(lits));
    lemma_ordered_stands(lits, 0);
    assert forall|i: int| 0 <= i < s.len() implies slotted(ids, 0, #[trigger] s[i].term) == inst(renaming(g), s[i].term) by {
        lemma_inst_agree(slot_map(ids), renaming(g), s[i].term);
    }
    assert(canonical_form(lits) =~= renamed_lits(g, s));
    lemma_renamed_lit_occurrences(g, s);
    lemma_variables_entered(s);
    lemma_lit_occurrences_fit(s);
    lemma_entered_holds(os, p);
    lemma_listed_slot(ids, os[p] as u64);
    lemma_entered_first(os, p, j);
    let q = choose|q: int| 0 <= q < p && #[trigger] os[q] == ids[j];
    lemma_entered_distinct(os);
    law_slot_of_identity(ids, j);
    assert(ns[q] == g(os[q]));
}

proof fn lemma_entered_distinct(os: Seq<int>)
    ensures
        entered(Seq::empty(), os).no_duplicates(),
    decreases os.len(),
{
    if os.len() > 0 {
        lemma_entered_distinct(os.drop_last());
        crate::store::lemma_push_contains(entered(Seq::empty(), os.drop_last()), os.last() as u64);
    }
}

} // verus!
