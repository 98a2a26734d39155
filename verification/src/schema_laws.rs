//! The patterns of the rules are recognised, whatever their relation.
use vstd::prelude::*;

use crate::canon::{lemma_slot_below, slot_of, slotted};
use crate::clause::{
    blank_rank, canonical_form, lemma_listed_slot, lemma_variables, noted, noted_all, of_rank, ordered, slotted_lits,
    variables, LitView,
};
use crate::schema::{
    arg_of, clause_key, collapse, composition, guarded, head_of, headed_by, law_key_is_the_same_for_every_relation,
    lemma_pattern_variables, lemma_sums_factor, lit, pattern, pattern_over, probed, reheaded, reversal, shape_of,
    shapes_of, states, substitution, sums, symmetric, transitive, ArgK, HeadView, HitView, SchemaKind, Shape,
    PATTERNS,
};
use crate::subst::{inst, insts, lemma_inst_app, lemma_occurs_elem, occurs};
use crate::term::Tree;
use crate::types::{name_id, OpKind, SymbolId};

verus! {

// ---------------------------------------------------------------------------
// Clauses in order stay in order
// ---------------------------------------------------------------------------

/// The literals stand in the order of their ranks.
pub open spec fn in_order(lits: Seq<LitView>) -> bool {
    forall|i: int, j: int| 0 <= i <= j < lits.len() ==> blank_rank(#[trigger] lits[i]) <= blank_rank(#[trigger] lits[j])
}

proof fn lemma_no_rank(lits: Seq<LitView>, r: int)
    requires
        forall|i: int| 0 <= i < lits.len() ==> blank_rank(#[trigger] lits[i]) != r,
    ensures
        of_rank(lits, r) == Seq::<LitView>::empty(),
    decreases lits.len(),
{
    if lits.len() > 0 {
        let d = lits.drop_last();
        assert forall|i: int| 0 <= i < d.len() implies blank_rank(#[trigger] d[i]) != r by {
            assert(d[i] == lits[i]);
        }
        lemma_no_rank(d, r);
        assert(blank_rank(lits[lits.len() - 1]) != r);
    }
}

proof fn lemma_last_comes_last(lits: Seq<LitView>, n: nat)
    requires
        lits.len() > 0,
        in_order(lits),
    ensures
        ordered(lits, n) == if blank_rank(lits.last()) < n {
            ordered(lits.drop_last(), n).push(lits.last())
        } else {
            ordered(lits.drop_last(), n)
        },
    decreases n,
{
    if n > 0 {
        let d = lits.drop_last();
        let x = lits.last();
        lemma_last_comes_last(lits, (n - 1) as nat);
        if blank_rank(x) < n - 1 {
            assert forall|i: int| 0 <= i < d.len() implies blank_rank(#[trigger] d[i]) != n - 1 by {
                assert(blank_rank(lits[i]) <= blank_rank(lits[lits.len() - 1]));
            }
            lemma_no_rank(d, n - 1);
        }
        assert(ordered(lits, n) =~= if blank_rank(x) < n {
            ordered(d, n).push(x)
        } else {
            ordered(d, n)
        });
    }
}

/// Literals that stand in order are left as they are.
proof fn lemma_stays_ordered(lits: Seq<LitView>)
    requires
        in_order(lits),
    ensures
        ordered(lits, 6) == lits,
    decreases lits.len(),
{
    if lits.len() == 0 {
        lemma_nothing_ordered(lits, 6);
        assert(lits =~= Seq::empty());
    } else {
        let d = lits.drop_last();
        assert forall|i: int, j: int| 0 <= i <= j < d.len() implies blank_rank(#[trigger] d[i]) <= blank_rank(
            #[trigger] d[j],
        ) by {
            assert(blank_rank(lits[i]) <= blank_rank(lits[j]));
        }
        lemma_stays_ordered(d);
        lemma_last_comes_last(lits, 6);
        assert(d.push(lits.last()) =~= lits);
    }
}

proof fn lemma_nothing_ordered(lits: Seq<LitView>, n: nat)
    requires
        lits.len() == 0,
    ensures
        ordered(lits, n) == Seq::<LitView>::empty(),
    decreases n,
{
    if n > 0 {
        lemma_nothing_ordered(lits, (n - 1) as nat);
        assert(ordered(lits, n) =~= Seq::empty());
    }
}

// ---------------------------------------------------------------------------
// The shapes of a clause in slot form
// ---------------------------------------------------------------------------

/// A symbol, a variable or the equality.
pub open spec fn leaf(t: Tree) -> bool {
    match t {
        Tree::Sym(_) => true,
        Tree::Var(v) => 0 <= v <= u32::MAX,
        Tree::Op(op) => op == OpKind::Equal,
        _ => false,
    }
}

/// A binary literal over variables and symbols.
pub open spec fn simple(l: LitView) -> bool {
    l.term matches Tree::App(ts) && ts.len() == 3 && leaf(ts[0]) && leaf(ts[1]) && leaf(ts[2]) && !(ts[1] is Op) && !(
    ts[2] is Op)
}

/// The slot of a listed variable.
pub open spec fn seat(ids: Seq<SymbolId>, v: int) -> u32 {
    slot_of(ids, v)->0 as u32
}

/// The argument in slot form.
pub open spec fn seated(ids: Seq<SymbolId>, t: Tree) -> ArgK {
    match t {
        Tree::Var(v) => ArgK::Slot(seat(ids, v)),
        _ => arg_of(t)->0,
    }
}

/// The head in slot form.
pub open spec fn seated_head(ids: Seq<SymbolId>, t: Tree) -> HeadView {
    match t {
        Tree::Var(v) => HeadView::Var(seat(ids, v)),
        _ => head_of(t)->0,
    }
}

/// The shape of a literal in slot form.
pub open spec fn seated_lit(ids: Seq<SymbolId>, l: LitView) -> Shape {
    let ts = l.term->App_0;
    Shape { pos: l.pos, head: seated_head(ids, ts[0]), a: seated(ids, ts[1]), b: seated(ids, ts[2]) }
}

/// The shapes of the literals in slot form.
pub open spec fn seated_all(ids: Seq<SymbolId>, lits: Seq<LitView>) -> Seq<Shape> {
    Seq::new(lits.len(), |i: int| seated_lit(ids, lits[i]))
}

/// A variable of the literals has a slot, and no other has the same.
proof fn lemma_seats(lits: Seq<LitView>, i: int, k: int, j: int, m: int)
    requires
        0 <= i < lits.len(),
        0 <= j < lits.len(),
        simple(lits[i]),
        simple(lits[j]),
        0 <= k < 3,
        0 <= m < 3,
        lits[i].term->App_0[k] is Var,
        lits[j].term->App_0[m] is Var,
        variables(lits).len() <= u32::MAX,
    ensures
        ({
            let ids = variables(lits);
            let (v, w) = (lits[i].term->App_0[k]->Var_0, lits[j].term->App_0[m]->Var_0);
            &&& slot_of(ids, v) == Some(seat(ids, v) as int)
            &&& seat(ids, v) == seat(ids, w) ==> v == w
        }),
{
    let ids = variables(lits);
    let (v, w) = (lits[i].term->App_0[k]->Var_0, lits[j].term->App_0[m]->Var_0);
    assert(occurs(v, lits[i].term->App_0[k]));
    lemma_occurs_elem(v, lits[i].term->App_0, k);
    lemma_variables(lits, i, v);
    assert(occurs(w, lits[j].term->App_0[m]));
    lemma_occurs_elem(w, lits[j].term->App_0, m);
    lemma_variables(lits, j, w);
    lemma_listed_slot(ids, v as u64);
    lemma_listed_slot(ids, w as u64);
    lemma_slot_below(ids, v);
    lemma_slot_below(ids, w);
}

proof fn lemma_seated_lit(lits: Seq<LitView>, i: int)
    requires
        0 <= i < lits.len(),
        simple(lits[i]),
        variables(lits).len() <= u32::MAX,
    ensures
        shape_of(lits[i].pos, slotted(variables(lits), 0, lits[i].term)) == Some(seated_lit(variables(lits), lits[i])),
{
    let ids = variables(lits);
    let ts = lits[i].term->App_0;
    let f = |v: int|
        match slot_of(ids, v) {
            Some(k) => Tree::Var(k + 0),
            None => Tree::Var(v),
        };
    lemma_inst_app(f, ts);
    let us = insts(f, ts);
    assert(slotted(ids, 0, lits[i].term) == Tree::App(us));
    assert(us[0] == inst(f, ts[0]) && us[1] == inst(f, ts[1]) && us[2] == inst(f, ts[2]));
    if ts[0] is Var {
        lemma_seats(lits, i, 0, i, 0);
    }
    if ts[1] is Var {
        lemma_seats(lits, i, 1, i, 1);
    }
    if ts[2] is Var {
        lemma_seats(lits, i, 2, i, 2);
    }
}

/// The shapes of the canonical form of literals in order.
proof fn lemma_seated(lits: Seq<LitView>)
    requires
        in_order(lits),
        forall|i: int| 0 <= i < lits.len() ==> simple(#[trigger] lits[i]),
        variables(lits).len() <= u32::MAX,
    ensures
        canonical_form(lits).len() == lits.len(),
        shapes_of(canonical_form(lits)) == Some(seated_all(variables(lits), lits)),
{
    let ids = variables(lits);
    lemma_stays_ordered(lits);
    let us = slotted_lits(ids, lits);
    assert(canonical_form(lits) == us);
    assert forall|i: int| 0 <= i < us.len() implies shape_of(us[i].pos, (#[trigger] us[i]).term) == Some(
        seated_lit(ids, lits[i]),
    ) by {
        assert(simple(lits[i]));
        lemma_seated_lit(lits, i);
    }
    assert(shapes_of(us)->0 =~= seated_all(ids, lits));
}

/// The elements are the same but for symbols.
pub open spec fn alike_but_symbols(ts: Seq<Tree>, us: Seq<Tree>) -> bool {
    ts.len() == us.len() && forall|i: int| 0 <= i < ts.len() ==> #[trigger] ts[i] == us[i] || (ts[i] is Sym && us[i] is Sym)
}

proof fn lemma_noted_alike(ids: Seq<SymbolId>, ts: Seq<Tree>, us: Seq<Tree>)
    requires
        alike_but_symbols(ts, us),
    ensures
        noted_all(ids, ts) == noted_all(ids, us),
    decreases ts.len(),
{
    if ts.len() > 0 {
        let (c, d) = (ts.drop_last(), us.drop_last());
        assert forall|i: int| 0 <= i < c.len() implies #[trigger] c[i] == d[i] || (c[i] is Sym && d[i] is Sym) by {
            assert(ts[i] == us[i] || (ts[i] is Sym && us[i] is Sym));
        }
        lemma_noted_alike(ids, c, d);
        let k = ts.len() - 1;
        assert(ts[k] == us[k] || (ts[k] is Sym && us[k] is Sym));
        assert(noted_all(ids, ts) == noted(noted_all(ids, c), ts.last()));
        assert(noted_all(ids, us) == noted(noted_all(ids, d), us.last()));
    }
}

proof fn lemma_variables_alike(ls: Seq<LitView>, ms: Seq<LitView>)
    requires
        ls.len() == ms.len(),
        forall|i: int| 0 <= i < ls.len() ==> (#[trigger] ls[i]).term is App,
        forall|i: int| 0 <= i < ls.len() ==> (#[trigger] ms[i]).term is App,
        forall|i: int| 0 <= i < ls.len() ==> alike_but_symbols((#[trigger] ls[i]).term->App_0, ms[i].term->App_0),
    ensures
        variables(ls) == variables(ms),
    decreases ls.len(),
{
    if ls.len() > 0 {
        let (c, d) = (ls.drop_last(), ms.drop_last());
        assert forall|i: int| 0 <= i < c.len() implies (#[trigger] c[i]).term is App by {
            assert(ls[i].term is App);
        }
        assert forall|i: int| 0 <= i < c.len() implies (#[trigger] d[i]).term is App by {
            assert(ms[i].term is App);
        }
        assert forall|i: int| 0 <= i < c.len() implies alike_but_symbols((#[trigger] c[i]).term->App_0, d[i].term->App_0) by {
            assert(alike_but_symbols(ls[i].term->App_0, ms[i].term->App_0));
        }
        lemma_variables_alike(c, d);
        let k = ls.len() - 1;
        assert(ls[k].term is App && ms[k].term is App);
        assert(alike_but_symbols(ls[k].term->App_0, ms[k].term->App_0));
        let ids = variables(c);
        lemma_noted_alike(ids, ls[k].term->App_0, ms[k].term->App_0);
        assert(noted(ids, ls.last().term) == noted_all(ids, ls[k].term->App_0));
        assert(noted(ids, ms.last().term) == noted_all(ids, ms[k].term->App_0));
    }
}

// ---------------------------------------------------------------------------
// The patterns
// ---------------------------------------------------------------------------

/// The pattern is a second-order rule.
pub open spec fn second_order(kind: SchemaKind) -> bool {
    kind == SchemaKind::SymMetaschema || kind == SchemaKind::TransMetaschema
}

proof fn lemma_pattern_simple(n: int, q: SymbolId)
    requires
        0 <= n < PATTERNS,
    ensures
        1 <= pattern_over(n, q).1.len() <= 4,
        in_order(pattern_over(n, q).1),
        forall|i: int| 0 <= i < pattern_over(n, q).1.len() ==> simple(#[trigger] pattern_over(n, q).1[i]),
        pattern_over(n, q).0 == pattern(n).0,
        second_order(pattern(n).0) ==> pattern_over(n, q).1 == pattern(n).1,
{
}

proof fn lemma_pattern_alike(n: int, q: SymbolId)
    requires
        0 <= n < PATTERNS,
    ensures
        pattern_over(n, q).1.len() == pattern(n).1.len(),
        variables(pattern_over(n, q).1) == variables(pattern(n).1),
        variables(pattern(n).1).len() <= u32::MAX,
{
    let (ls, ms) = (pattern_over(n, q).1, pattern(n).1);
    lemma_pattern_simple(n, q);
    lemma_pattern_simple(n, name_id("schema-rel"@));
    lemma_pattern_variables(n);
    lemma_stays_ordered(ms);
    assert forall|i: int| 0 <= i < ls.len() implies alike_but_symbols((#[trigger] ls[i]).term->App_0, ms[i].term->App_0) by {
        let (ts, us) = (ls[i].term->App_0, ms[i].term->App_0);
        assert(simple(ls[i]) && simple(ms[i]));
        assert(ts[0] == us[0] || (ts[0] is Sym && us[0] is Sym));
        assert(ts[1] == us[1] && ts[2] == us[2]);
    }
    assert forall|i: int| 0 <= i < ls.len() implies (#[trigger] ls[i]).term is App by {
        assert(simple(ls[i]));
    }
    assert forall|i: int| 0 <= i < ls.len() implies (#[trigger] ms[i]).term is App by {
        assert(simple(ms[i]));
    }
    lemma_variables_alike(ls, ms);
}

proof fn lemma_some_head(ss: Seq<Shape>, i: int)
    requires
        0 <= i < ss.len(),
        ss[i].head is Sym,
    ensures
        sums(ss).heads.len() > 0,
    decreases ss.len(),
{
    if i < ss.len() - 1 {
        lemma_some_head(ss.drop_last(), i);
    }
}

/// The one relation of a pattern.
pub open spec fn pattern_head(n: int, q: SymbolId) -> SymbolId {
    if second_order(pattern(n).0) {
        name_id("instance"@)
    } else {
        q
    }
}

proof fn lemma_pattern_heads(n: int, q: SymbolId)
    requires
        0 <= n < PATTERNS,
    ensures
        ({
            let ss = seated_all(variables(pattern_over(n, q).1), pattern_over(n, q).1);
            &&& headed_by(ss, pattern_head(n, q))
            &&& sums(ss).heads == seq![pattern_head(n, q)]
        }),
{
    let ls = pattern_over(n, q).1;
    let ids = variables(ls);
    let ss = seated_all(ids, ls);
    lemma_pattern_simple(n, q);
    assert forall|i: int| 0 <= i < ss.len() implies match (#[trigger] ss[i]).head {
        HeadView::Sym(id) => id == pattern_head(n, q),
        _ => true,
    } by {
        assert(ss[i] == seated_lit(ids, ls[i]));
    }
    lemma_sums_factor(ss, pattern_head(n, q));
    let k: int = if 3 <= n < 7 {
        1
    } else {
        0
    };
    assert(ss[k] == seated_lit(ids, ls[k]));
    lemma_some_head(ss, k);
}

/// The relation in the pattern's place is the head of the pattern's own literals.
proof fn lemma_pattern_reheaded(n: int, q: SymbolId, ids: Seq<SymbolId>)
    requires
        0 <= n < PATTERNS,
        !second_order(pattern(n).0),
    ensures
        seated_all(ids, pattern_over(n, q).1) == reheaded(seated_all(ids, pattern(n).1), q),
{
    let (ls, ms) = (pattern_over(n, q).1, pattern(n).1);
    let (ss, tt) = (seated_all(ids, ms), seated_all(ids, ls));
    assert(ls.len() == ms.len());
    assert forall|i: int| 0 <= i < tt.len() implies #[trigger] tt[i] == reheaded(ss, q)[i] by {
        assert(tt[i] == seated_lit(ids, ls[i]));
        assert(ss[i] == seated_lit(ids, ms[i]));
    }
    assert(tt =~= reheaded(ss, q));
}

proof fn lemma_pattern_key(n: int, q: SymbolId)
    requires
        0 <= n < PATTERNS,
    ensures
        clause_key(canonical_form(pattern(n).1)) is Some,
        clause_key(canonical_form(pattern_over(n, q).1)) == clause_key(canonical_form(pattern(n).1)),
{
    let r = name_id("schema-rel"@);
    let (ls, ms) = (pattern_over(n, q).1, pattern(n).1);
    lemma_pattern_simple(n, q);
    lemma_pattern_simple(n, r);
    lemma_pattern_alike(n, q);
    lemma_seated(ls);
    lemma_seated(ms);
    lemma_pattern_heads(n, r);
    let ids = variables(ms);
    let ss = seated_all(ids, ms);
    if !second_order(pattern(n).0) {
        law_key_is_the_same_for_every_relation(ss, r, q);
        lemma_pattern_reheaded(n, q, ids);
    }
}

/// Different variables of the pattern have different slots.
proof fn lemma_two_seats(n: int, q: SymbolId, i: int, k: int, j: int, m: int)
    requires
        0 <= n < PATTERNS,
        0 <= i < pattern_over(n, q).1.len(),
        0 <= j < pattern_over(n, q).1.len(),
        0 <= k < 3,
        0 <= m < 3,
        pattern_over(n, q).1[i].term->App_0[k] is Var,
        pattern_over(n, q).1[j].term->App_0[m] is Var,
    ensures
        ({
            let ls = pattern_over(n, q).1;
            let ids = variables(ls);
            let (v, w) = (ls[i].term->App_0[k]->Var_0, ls[j].term->App_0[m]->Var_0);
            seat(ids, v) == seat(ids, w) ==> v == w
        }),
{
    lemma_pattern_simple(n, q);
    lemma_pattern_alike(n, q);
    lemma_seats(pattern_over(n, q).1, i, k, j, m);
}

proof fn lemma_pattern_states(n: int, q: SymbolId)
    requires
        0 <= n < PATTERNS,
    ensures
        states(pattern(n).0, seated_all(variables(pattern_over(n, q).1), pattern_over(n, q).1)),
{
    let ls = pattern_over(n, q).1;
    let ids = variables(ls);
    let ss = seated_all(ids, ls);
    let (x, y, z, rv) = (seat(ids, 0), seat(ids, 1), seat(ids, 2), seat(ids, 3));
    let h = HeadView::Sym(q);
    if n == 0 {
        lemma_two_seats(n, q, 0, 1, 0, 2);
        assert(ss[0] == lit(false, h, x, y) && ss[1] == lit(true, h, y, x));
        assert(reversal(ss, h, h, x, y));
        assert(symmetric(ss, h));
    } else if n == 1 {
        assert(ss[0] == lit(false, h, x, x));
    } else if n == 2 {
        lemma_two_seats(n, q, 1, 1, 1, 2);
        let class = name_id("SymmetricRelation"@);
        assert(guarded(ss, class, 0, rv));
        let tt = ss.remove(0);
        let v = HeadView::Var(rv);
        assert(tt[0] == lit(false, v, x, y) && tt[1] == lit(true, v, y, x));
        assert(reversal(tt, v, v, x, y));
        assert(symmetric(tt, v));
    } else if n < 7 {
        lemma_two_seats(n, q, 0, 1, 0, 2);
        assert(ss[0] == seated_lit(ids, ls[0]) && ss[1] == seated_lit(ids, ls[1]) && ss[2] == seated_lit(ids, ls[2]));
        assert(substitution(ss, q, x, y, 0, 1, 2));
    } else if n < 9 {
        lemma_composed(n, q, 0, h);
    } else if n < 11 {
        let class = name_id("TransitiveRelation"@);
        assert(guarded(ss, class, 0, rv));
        lemma_composed(n, q, 1, HeadView::Var(rv));
    } else {
        assert(ss[0] == seated_lit(ids, ls[0]) && ss[1] == seated_lit(ids, ls[1]) && ss[2] == seated_lit(ids, ls[2]));
        lemma_two_seats(n, q, 0, 1, 0, 2);
        if n < 13 {
            assert(collapse(ss, q, x, y, 0, 1, 2));
        } else {
            assert(collapse(ss, q, x, y, 1, 0, 2));
        }
    }
}

/// The literals behind the guard, if there is one, compose.
proof fn lemma_composed(n: int, q: SymbolId, from: int, h: HeadView)
    requires
        7 <= n < 11,
        from == if n < 9 {
            0int
        } else {
            1int
        },
        h == if n < 9 {
            HeadView::Sym(q)
        } else {
            HeadView::Var(seat(variables(pattern_over(n, q).1), 3))
        },
    ensures
        ({
            let ss = seated_all(variables(pattern_over(n, q).1), pattern_over(n, q).1);
            transitive(
                if from == 0 {
                    ss
                } else {
                    ss.remove(0)
                },
                h,
            )
        }),
{
    let ls = pattern_over(n, q).1;
    let ids = variables(ls);
    let ss = seated_all(ids, ls);
    let tt = if from == 0 {
        ss
    } else {
        ss.remove(0)
    };
    let (x, y, z) = (seat(ids, 0), seat(ids, 1), seat(ids, 2));
    lemma_two_seats(n, q, from, 1, from, 2);
    lemma_two_seats(n, q, from + 1, 1, from + 1, 2);
    lemma_two_seats(n, q, from + 2, 1, from + 2, 2);
    assert(tt[0] == seated_lit(ids, ls[from]));
    assert(tt[1] == seated_lit(ids, ls[from + 1]));
    assert(tt[2] == seated_lit(ids, ls[from + 2]));
    if n == 7 || n == 9 {
        assert(composition(tt, h, x, y, z, 0, 1, 2));
    } else {
        assert(composition(tt, h, x, y, z, 1, 0, 2));
    }
}

/// Every pattern is recognised, whatever relation stands in its place: where its
/// key is entered under its kind, the canonical form is found with that kind and
/// with the relation.
pub proof fn law_patterns_are_recognised(map: Map<u64, SchemaKind>, n: int, q: SymbolId)
    requires
        0 <= n < PATTERNS,
        map.dom().contains(clause_key(canonical_form(pattern(n).1))->0),
        map[clause_key(canonical_form(pattern(n).1))->0] == pattern(n).0,
    ensures
        clause_key(canonical_form(pattern(n).1)) is Some,
        probed(map, canonical_form(pattern_over(n, q).1)) == Some(
            HitView {
                kind: pattern(n).0,
                rel: if second_order(pattern(n).0) {
                    None
                } else {
                    Some(q)
                },
                rel2: None,
            },
        ),
{
    lemma_pattern_simple(n, q);
    lemma_pattern_alike(n, q);
    lemma_seated(pattern_over(n, q).1);
    lemma_pattern_key(n, q);
    lemma_pattern_heads(n, q);
    lemma_pattern_states(n, q);
}

} // verus!
