//! Equal symbols are classified alike.
use vstd::prelude::*;

use crate::content::Part;
use crate::inferred::{
    collapsed, denied, denies, dominated, equal_between, equal_path, equal_to, equates, equation_gives_kind,
    equals_kind, evidence, evident, evident_class, findable, gives, inferred_of, inferred_via,
    inherited_via, is_variable, leaf_list, leaves, member_gives, most_specific, names_variable, near, number_class, only_subclass, outcome_via, settled_via,
    place_takes, place_takes_kind, same_thing, shows, shows_class, split_at, takes_at, told_class, told_is_class, within_root, ClassView,
};
use crate::roles::{tax_role, TaxRelation};
use crate::semantic::{
    counts_in, law_ancestors_chain, lemma_parents, lemma_reaches_self, linked, parents, reaches, uppers, Above, Facts,
};
use crate::signature::{domain_of, range_of, range_steps, RelationDomain, RelationRange};
use crate::store::{
    body, entries_ordered, head_of, lemma_tree_rank, mentioned, mentioning, names, part_names, picked, place, stored,
    subtrees, tree, tree_rank, Entry, RootView, Scope,
};
use crate::taxonomy::{end_id, RecordView};
use crate::text::all_digits;
use crate::types::{name_id, OpKind, SentenceId, SymbolId};

verus! {

/// The sentences of the roots that are picked.
pub proof fn lemma_picked(rs: Seq<RootView>, p: spec_fn(RootView) -> bool, sid: SentenceId)
    ensures
        picked(rs, p).contains(sid) <==> exists|i: int| 0 <= i < rs.len() && p(#[trigger] rs[i]) && rs[i].sid == sid,
    decreases rs.len(),
{
    if rs.len() > 0 {
        let d = rs.drop_last();
        lemma_picked(d, p, sid);
        let s = picked(d, p);
        let t = picked(rs, p);
        if t.contains(sid) {
            let k = choose|k: int| 0 <= k < t.len() && t[k] == sid;
            if k < s.len() {
                assert(s[k] == sid);
                let i = choose|i: int| 0 <= i < d.len() && p(#[trigger] d[i]) && d[i].sid == sid;
                assert(p(rs[i]) && rs[i].sid == sid);
            } else {
                assert(p(rs[rs.len() - 1]) && rs[rs.len() - 1].sid == sid);
            }
        }
        if exists|i: int| 0 <= i < rs.len() && p(#[trigger] rs[i]) && rs[i].sid == sid {
            let i = choose|i: int| 0 <= i < rs.len() && p(#[trigger] rs[i]) && rs[i].sid == sid;
            if i < d.len() {
                assert(p(d[i]) && d[i].sid == sid);
                let k = choose|k: int| 0 <= k < s.len() && s[k] == sid;
                assert(t[k] == sid);
            } else {
                assert(t[t.len() - 1] == sid);
            }
        }
    }
}

/// The parts of a part are parts.
pub proof fn lemma_tree_child(es: Seq<Entry>, r: SentenceId, n: SentenceId, k: int, s: SentenceId)
    requires
        entries_ordered(es),
        tree(es, r).contains(n),
        stored(es, n),
        0 <= k < es[place(es, n)].parts.len(),
        es[place(es, n)].parts[k] == Part::Sub(s),
    ensures
        tree(es, r).contains(s),
    decreases tree_rank(es, r), 1nat, 0nat,
{
    let len = es[place(es, r)].parts.len();
    let t = tree(es, r);
    let u = subtrees(es, r, len);
    assert(t == seq![r] + u);
    let i = choose|i: int| 0 <= i < t.len() && t[i] == n;
    if n == r {
        lemma_sub_within(es, r, k, s, len);
    } else {
        assert(u[i - 1] == n);
        lemma_subtrees_child(es, r, len, n, k, s);
    }
    let j = choose|j: int| 0 <= j < u.len() && u[j] == s;
    assert(t[j + 1] == s);
}

proof fn lemma_subtrees_child(es: Seq<Entry>, r: SentenceId, m: nat, n: SentenceId, k: int, s: SentenceId)
    requires
        entries_ordered(es),
        stored(es, r),
        m <= es[place(es, r)].parts.len(),
        subtrees(es, r, m).contains(n),
        stored(es, n),
        0 <= k < es[place(es, n)].parts.len(),
        es[place(es, n)].parts[k] == Part::Sub(s),
    ensures
        subtrees(es, r, m).contains(s),
    decreases tree_rank(es, r), 0nat, m,
{
    if m > 0 {
        let before = subtrees(es, r, (m - 1) as nat);
        let u = subtrees(es, r, m);
        let i = choose|i: int| 0 <= i < u.len() && u[i] == n;
        if i < before.len() {
            assert(before[i] == n);
            lemma_subtrees_child(es, r, (m - 1) as nat, n, k, s);
            let j = choose|j: int| 0 <= j < before.len() && before[j] == s;
            assert(u[j] == s);
        } else {
            let sub = es[place(es, r)].parts[m - 1]->Sub_0;
            lemma_tree_rank(es, r, m - 1, sub);
            let t = tree(es, sub);
            assert(t[i - before.len()] == n);
            lemma_tree_child(es, sub, n, k, s);
            let j = choose|j: int| 0 <= j < t.len() && t[j] == s;
            assert(u[before.len() + j] == s);
        }
    }
}

/// A direct part stands among the parts.
proof fn lemma_sub_within(es: Seq<Entry>, r: SentenceId, k: int, s: SentenceId, m: nat)
    requires
        entries_ordered(es),
        stored(es, r),
        0 <= k < m <= es[place(es, r)].parts.len(),
        es[place(es, r)].parts[k] == Part::Sub(s),
    ensures
        subtrees(es, r, m).contains(s),
    decreases m,
{
    let before = subtrees(es, r, (m - 1) as nat);
    let u = subtrees(es, r, m);
    if k < m - 1 {
        lemma_sub_within(es, r, k, s, (m - 1) as nat);
        let j = choose|j: int| 0 <= j < before.len() && before[j] == s;
        assert(u[j] == s);
    } else {
        lemma_tree_rank(es, r, k, s);
        assert(tree(es, s)[0] == s);
        assert(u[before.len() as int] == s);
    }
}

/// A root with a part that names the symbol is near the symbol, and so are
/// its parts.
proof fn lemma_near_other(f: Facts, a: SymbolId, b: SymbolId, scope: Scope, sid: SentenceId, eq: SentenceId)
    requires
        entries_ordered(f.layer.entries),
        near(f, a, scope, sid),
        forall|r: SentenceId| #[trigger] within_root(f, r, sid) ==> within_root(f, r, eq),
        names(f.layer, eq, b),
    ensures
        near(f, b, scope, sid),
{
    let pa = picked(f.layer.roots, mentioning(f.layer, a, scope));
    let i = choose|i: int| 0 <= i < pa.len() && within_root(f, #[trigger] pa[i], sid);
    let r = pa[i];
    assert(pa.contains(r));
    lemma_picked(f.layer.roots, mentioning(f.layer, a, scope), r);
    let pred_a = mentioning(f.layer, a, scope);
    let k = choose|k: int| 0 <= k < f.layer.roots.len() && pred_a(#[trigger] f.layer.roots[k]) && f.layer.roots[k].sid == r;
    assert(within_root(f, r, eq));
    let t = tree(f.layer.entries, r);
    let j = choose|j: int| 0 <= j < t.len() && t[j] == eq;
    assert(names(f.layer, tree(f.layer.entries, r)[j], b));
    assert(mentioned(f.layer, r, b));
    let pred_b = mentioning(f.layer, b, scope);
    assert(pred_b(f.layer.roots[k]));
    lemma_picked(f.layer.roots, pred_b, r);
    let pb = picked(f.layer.roots, pred_b);
    let m = choose|m: int| 0 <= m < pb.len() && pb[m] == r;
    assert(within_root(f, pb[m], sid));
}

/// An equation names both its sides.
proof fn lemma_equation_names(f: Facts, sid: SentenceId, a: SymbolId, b: SymbolId)
    requires
        body(f.layer, sid) matches Some(ps) && equates(ps, a, b),
    ensures
        names(f.layer, sid, a),
        names(f.layer, sid, b),
{
    let ps = body(f.layer, sid)->0;
    if end_id(ps[1]) == Some(a) {
        assert(part_names(ps[1], a) && part_names(ps[2], b));
    } else {
        assert(part_names(ps[2], a) && part_names(ps[1], b));
    }
}

/// Being equal goes both ways.
pub proof fn law_equality_is_symmetric(f: Facts, scope: Scope, a: SymbolId, b: SymbolId)
    requires
        entries_ordered(f.layer.entries),
        equal_to(f, scope, a, b),
    ensures
        equal_to(f, scope, b, a),
{
    let sid = choose|sid: SentenceId| #[trigger] near(f, a, scope, sid) && !denied(f, a, scope, sid) && (body(
        f.layer,
        sid,
    ) matches Some(ps) && equates(ps, a, b));
    lemma_equation_names(f, sid, a, b);
    lemma_near_other(f, a, b, scope, sid, sid);
    if denied(f, b, scope, sid) {
        let n = choose|n: SentenceId| #[trigger] near(f, b, scope, n) && denies(f.layer, n, sid);
        assert forall|r: SentenceId| #[trigger] within_root(f, r, n) implies within_root(f, r, sid) by {
            lemma_tree_child(f.layer.entries, r, n, 1, sid);
        }
        lemma_near_other(f, b, a, scope, n, sid);
        assert(denied(f, a, scope, sid));
    }
    assert(equates(body(f.layer, sid)->0, b, a));
}

/// Being the same thing goes both ways.
pub proof fn law_sameness_is_symmetric(f: Facts, scope: Scope, a: SymbolId, b: SymbolId)
    requires
        entries_ordered(f.layer.entries),
        same_thing(f, scope, a, b),
    ensures
        same_thing(f, scope, b, a),
{
    let p = choose|p: Seq<SymbolId>| equal_between(f, scope, a, b, p);
    let q = p.reverse();
    assert forall|i: int, j: int| 0 <= i < q.len() && j == i + 1 && j < q.len() implies equal_to(
        f,
        scope,
        #[trigger] q[i],
        #[trigger] q[j],
    ) by {
        let m = p.len() - 1 - j;
        assert(q[i] == p[m + 1] && q[j] == p[m]);
        assert(equal_to(f, scope, p[m], p[m + 1]));
        law_equality_is_symmetric(f, scope, p[m], p[m + 1]);
    }
    assert(equal_between(f, scope, b, a, q));
}

/// What is the same as the same thing is the same thing.
pub proof fn law_sameness_is_transitive(f: Facts, scope: Scope, a: SymbolId, b: SymbolId, c: SymbolId)
    requires
        same_thing(f, scope, a, b),
        same_thing(f, scope, b, c),
    ensures
        same_thing(f, scope, a, c),
{
    let p = choose|p: Seq<SymbolId>| equal_between(f, scope, a, b, p);
    let q = choose|q: Seq<SymbolId>| equal_between(f, scope, b, c, q);
    let r = p + q.subrange(1, q.len() as int);
    assert forall|i: int, j: int| 0 <= i < r.len() && j == i + 1 && j < r.len() implies equal_to(
        f,
        scope,
        #[trigger] r[i],
        #[trigger] r[j],
    ) by {
        if j < p.len() {
            assert(r[i] == p[i] && r[j] == p[j]);
        } else {
            let k = j - p.len() + 1;
            assert(r[j] == q[k]);
            if i < p.len() {
                assert(r[i] == p.last());
                assert(r[i] == q[k - 1]);
            } else {
                assert(r[i] == q[k - 1]);
            }
            assert(equal_to(f, scope, q[k - 1], q[k]));
        }
    }
    if q.len() == 1 {
        assert(r =~= p);
    }
    assert(r.last() == c);
    assert(equal_between(f, scope, a, c, r));
}

/// Equal symbols have the same evident classes, and what is inferred of the
/// one from them is inferred of the other.
pub proof fn law_equal_symbols_agree(f: Facts, scope: Scope, a: SymbolId, b: SymbolId)
    requires
        entries_ordered(f.layer.entries),
        same_thing(f, scope, a, b),
    ensures
        evidence(f, scope, a) == evidence(f, scope, b),
        evident_class(f, scope, a) == evident_class(f, scope, b),
        (exists|c: SymbolId| evident(f, scope, a, c)) || evident_class(f, scope, a) ==> inferred_of(f, scope, a)
            == inferred_of(f, scope, b),
{
    law_sameness_is_symmetric(f, scope, a, b);
    assert forall|m: SymbolId| #[trigger] same_thing(f, scope, a, m) == same_thing(f, scope, b, m) by {
        if same_thing(f, scope, a, m) {
            law_sameness_is_transitive(f, scope, b, a, m);
        }
        if same_thing(f, scope, b, m) {
            law_sameness_is_transitive(f, scope, a, b, m);
        }
    }
    assert forall|c: SymbolId| #[trigger] evident(f, scope, a, c) == evident(f, scope, b, c) by {
        if evident(f, scope, a, c) {
            let m = choose|m: SymbolId| #[trigger] same_thing(f, scope, a, m) && member_gives(f, scope, m, c);
            assert(same_thing(f, scope, b, m));
        }
        if evident(f, scope, b, c) {
            let m = choose|m: SymbolId| #[trigger] same_thing(f, scope, b, m) && member_gives(f, scope, m, c);
            assert(same_thing(f, scope, a, m));
        }
    }
    assert(evidence(f, scope, a) =~= evidence(f, scope, b));
    if evident_class(f, scope, a) {
        let m = choose|m: SymbolId| #[trigger] same_thing(f, scope, a, m) && told_is_class(f, scope, m);
        assert(same_thing(f, scope, b, m));
    }
    if evident_class(f, scope, b) {
        let m = choose|m: SymbolId| #[trigger] same_thing(f, scope, b, m) && told_is_class(f, scope, m);
        assert(same_thing(f, scope, a, m));
    }
    if exists|c: SymbolId| evident(f, scope, a, c) {
        let c = choose|c: SymbolId| evident(f, scope, a, c);
        assert(evident(f, scope, b, c));
    }
    if exists|c: SymbolId| evident(f, scope, b, c) {
        let c = choose|c: SymbolId| evident(f, scope, b, c);
        assert(evident(f, scope, a, c));
    }
}

// ---------------------------------------------------------------------------
// What sentences say of a symbol
// ---------------------------------------------------------------------------

/// The sentence is an equation between the two parts, in this order.
pub open spec fn equation(f: Facts, sid: SentenceId, l: Part, r: Part) -> bool {
    body(f.layer, sid) == Some(seq![Part::Op(OpKind::Equal), l, r])
}

/// The sentence is an equation with the part on one side and the other on the other,
/// either way round.
pub open spec fn equated(f: Facts, sid: SentenceId, a: Part, b: Part) -> bool {
    equation(f, sid, a, b) || equation(f, sid, b, a)
}

/// Turning an equation round changes nothing of what it says: it gives every symbol
/// the same classes, shows the same symbols to be classes, and equates the same.
pub proof fn law_equations_turn_round(
    f: Facts,
    scope: Scope,
    sym: SymbolId,
    s: SentenceId,
    t: SentenceId,
    l: Part,
    r: Part,
    c: SymbolId,
)
    requires
        equation(f, s, l, r),
        equation(f, t, r, l),
    ensures
        gives(f, scope, sym, s, c) == gives(f, scope, sym, t, c),
        shows_class(f, scope, sym, s) == shows_class(f, scope, sym, t),
        equates(body(f.layer, s)->0, sym, c) == equates(body(f.layer, t)->0, sym, c),
{
    let ps = body(f.layer, s)->0;
    let qs = body(f.layer, t)->0;
    assert forall|k: SymbolId| #[trigger] equals_kind(f, scope, ps, sym, k) == equals_kind(f, scope, qs, sym, k) by {}
    if equation_gives_kind(f, scope, ps, sym) {
        let k = choose|k: SymbolId| #[trigger] equals_kind(f, scope, ps, sym, k);
        assert(equals_kind(f, scope, qs, sym, k));
    }
    if equation_gives_kind(f, scope, qs, sym) {
        let k = choose|k: SymbolId| #[trigger] equals_kind(f, scope, qs, sym, k);
        assert(equals_kind(f, scope, ps, sym, k));
    }
}

/// An equation of a symbol with a term gives the symbol the range of the term's
/// function, whichever side the term stands on; with a range of subclasses it shows
/// that the symbol is a class.
pub proof fn law_equal_terms_give_their_range(
    f: Facts,
    scope: Scope,
    sym: SymbolId,
    sid: SentenceId,
    side: Part,
    term: SentenceId,
    h: SymbolId,
    c: SymbolId,
)
    requires
        findable(f.layer, sym),
        side == Part::Sym(sym) || side == Part::Var(sym, false),
        equated(f, sid, side, Part::Sub(term)),
        body(f.layer, term) matches Some(qs) && qs.len() > 0 && qs[0] == Part::Sym(h),
    ensures
        range_of(f, scope, h) == RelationRange::Range(c) ==> gives(f, scope, sym, sid, c),
        range_of(f, scope, h) == RelationRange::RangeSubclass(c) ==> shows_class(f, scope, sym, sid),
        !(range_of(f, scope, h) is RangeSubclass) ==> !shows_class(f, scope, sym, sid),
        gives(f, scope, sym, sid, c) ==> range_of(f, scope, h) == RelationRange::Range(c),
{
    let ps = body(f.layer, sid)->0;
    assert(head_of(ps) is None);
    if range_of(f, scope, h) == RelationRange::RangeSubclass(c) {
        assert(equals_kind(f, scope, ps, sym, c));
    }
    if equation_gives_kind(f, scope, ps, sym) {
        let k = choose|k: SymbolId| #[trigger] equals_kind(f, scope, ps, sym, k);
    }
}

/// An equation of a symbol with a number gives the symbol the class of the number,
/// whichever side the number stands on: with a point in it a real number, else with a
/// stroke a rational number, else an integer.
pub proof fn law_equal_numbers_give_their_class(
    f: Facts,
    scope: Scope,
    sym: SymbolId,
    sid: SentenceId,
    side: Part,
    number: Part,
    c: SymbolId,
)
    requires
        findable(f.layer, sym),
        side == Part::Sym(sym) || side == Part::Var(sym, false),
        number matches Part::Lit(l) && !l.is_str,
        equated(f, sid, side, number),
        f.layer.names.dom().contains(c),
    ensures
        number->Lit_0.text.contains('.') ==> (gives(f, scope, sym, sid, c) <==> c == name_id("RealNumber"@)),
        !number->Lit_0.text.contains('.') && number->Lit_0.text.contains('/') ==> (gives(f, scope, sym, sid, c) <==> c
            == name_id("RationalNumber"@)),
        !number->Lit_0.text.contains('.') && !number->Lit_0.text.contains('/') ==> (gives(f, scope, sym, sid, c) <==> c
            == name_id("Integer"@)),
{
    let ps = body(f.layer, sid)->0;
    assert(head_of(ps) is None);
}

/// A symbol at a place of an atom, of a relation outside the taxonomy, has the class
/// that the place takes; at a place for subclasses it is shown to be a class.
pub proof fn law_arguments_have_the_class_of_their_place(
    f: Facts,
    scope: Scope,
    sym: SymbolId,
    sid: SentenceId,
    h: SymbolId,
    k: int,
    c: SymbolId,
)
    requires
        findable(f.layer, sym),
        tax_role(f.roles, h) is None,
        body(f.layer, sid) matches Some(ps) && ps.len() > 0 && ps[0] == Part::Sym(h) && 1 <= k < ps.len() && ps[k] == if is_variable(
            f.layer,
            sym,
        ) {
            Part::Var(sym, false)
        } else {
            Part::Sym(sym)
        },
        k <= domain_of(f, scope, h).len(),
    ensures
        domain_of(f, scope, h)[k - 1] == RelationDomain::Domain(c) ==> gives(f, scope, sym, sid, c),
        domain_of(f, scope, h)[k - 1] == RelationDomain::DomainSubclass(c) ==> shows_class(f, scope, sym, sid),
{
    let ps = body(f.layer, sid)->0;
    assert(shows(ps, sym, is_variable(f.layer, sym)));
    if domain_of(f, scope, h)[k - 1] == RelationDomain::Domain(c) {
        assert(takes_at(f, scope, ps, sym, RelationDomain::Domain(c), k));
        assert(place_takes(f, scope, ps, sym, RelationDomain::Domain(c)));
    }
    if domain_of(f, scope, h)[k - 1] == RelationDomain::DomainSubclass(c) {
        assert(takes_at(f, scope, ps, sym, RelationDomain::DomainSubclass(c), k));
        assert(place_takes(f, scope, ps, sym, RelationDomain::DomainSubclass(c)));
        assert(place_takes_kind(f, scope, ps, sym));
    }
}

/// An atom gives a symbol no class but those of the places where the symbol stands.
pub proof fn law_atoms_give_no_other_class(
    f: Facts,
    scope: Scope,
    sym: SymbolId,
    sid: SentenceId,
    h: SymbolId,
    c: SymbolId,
) -> (k: int)
    requires
        body(f.layer, sid) matches Some(ps) && ps.len() > 0 && ps[0] == Part::Sym(h),
        h != f.roles.instance,
        gives(f, scope, sym, sid, c),
    ensures
        tax_role(f.roles, h) is None,
        1 <= k < body(f.layer, sid)->0.len(),
        body(f.layer, sid)->0[k] == Part::Sym(sym) || body(f.layer, sid)->0[k] == Part::Var(sym, false),
        k <= domain_of(f, scope, h).len(),
        domain_of(f, scope, h)[k - 1] == RelationDomain::Domain(c),
{
    let ps = body(f.layer, sid)->0;
    choose|k: int| #[trigger] takes_at(f, scope, ps, sym, RelationDomain::Domain(c), k)
}

/// The sentence `(instance sym c)` gives the symbol the class, and no other.
pub proof fn law_instances_have_their_class(
    f: Facts,
    scope: Scope,
    sym: SymbolId,
    sid: SentenceId,
    side: Part,
    c: SymbolId,
    d: SymbolId,
)
    requires
        side == Part::Sym(sym) || side == Part::Var(sym, false),
        body(f.layer, sid) == Some(seq![Part::Sym(f.roles.instance), side, Part::Sym(c)]),
        tax_role(f.roles, f.roles.instance) is Some,
    ensures
        gives(f, scope, sym, sid, c),
        gives(f, scope, sym, sid, d) ==> d == c,
{
}

/// What is said near a symbol counts for it unless it is denied there: a class that a
/// sentence gives is evident, for the symbol and for all that it is equal to.
pub proof fn law_what_is_told_is_evident(
    f: Facts,
    scope: Scope,
    sym: SymbolId,
    other: SymbolId,
    sid: SentenceId,
    c: SymbolId,
)
    requires
        near(f, sym, scope, sid),
        forall|n: SentenceId| #[trigger]
            near(f, sym, scope, n) ==> body(f.layer, n) != Some(seq![Part::Op(OpKind::Not), Part::Sub(sid)]),
        same_thing(f, scope, other, sym),
    ensures
        gives(f, scope, sym, sid, c) ==> evident(f, scope, other, c),
        shows_class(f, scope, sym, sid) ==> evident_class(f, scope, other),
{
    assert(!denied(f, sym, scope, sid)) by {
        if denied(f, sym, scope, sid) {
            let n = choose|n: SentenceId| #[trigger] near(f, sym, scope, n) && denies(f.layer, n, sid);
            let ps = body(f.layer, n)->0;
            assert(ps =~= seq![Part::Op(OpKind::Not), Part::Sub(sid)]);
        }
    }
    if gives(f, scope, sym, sid, c) {
        assert(told_class(f, scope, sym, c));
        assert(member_gives(f, scope, sym, c));
    }
}

/// A class is told only by a sentence near the symbol that gives it and that no
/// sentence near the symbol denies.
pub proof fn law_denied_sentences_tell_nothing(f: Facts, scope: Scope, sym: SymbolId, c: SymbolId) -> (sid: SentenceId)
    requires
        told_class(f, scope, sym, c),
    ensures
        near(f, sym, scope, sid),
        gives(f, scope, sym, sid, c),
        forall|n: SentenceId| #[trigger]
            near(f, sym, scope, n) ==> body(f.layer, n) != Some(seq![Part::Op(OpKind::Not), Part::Sub(sid)]),
{
    let sid = choose|sid: SentenceId| #[trigger]
        near(f, sym, scope, sid) && !denied(f, sym, scope, sid) && gives(f, scope, sym, sid, c);
    assert forall|n: SentenceId| #[trigger] near(f, sym, scope, n) implies body(f.layer, n) != Some(
        seq![Part::Op(OpKind::Not), Part::Sub(sid)],
    ) by {
        if body(f.layer, n) == Some(seq![Part::Op(OpKind::Not), Part::Sub(sid)]) {
            assert(denies(f.layer, n, sid));
        }
    }
    sid
}

/// Two different symbols that a sentence near the one equates, either way round and
/// not denied, are the same thing.
pub proof fn law_equated_symbols_are_the_same(f: Facts, scope: Scope, a: SymbolId, b: SymbolId, sid: SentenceId, x: Part, y: Part)
    requires
        a != b,
        x == Part::Sym(a) || x == Part::Var(a, false),
        y == Part::Sym(b) || y == Part::Var(b, false),
        equated(f, sid, x, y),
        near(f, a, scope, sid),
        !denied(f, a, scope, sid),
    ensures
        same_thing(f, scope, a, b),
        same_thing(f, scope, a, a),
{
    assert(equates(body(f.layer, sid)->0, a, b));
    assert(equal_to(f, scope, a, b));
    assert(equal_path(f, scope, seq![a, b]));
    assert(equal_between(f, scope, a, b, seq![a, b]));
    assert(equal_between(f, scope, a, a, seq![a]));
}

/// A link to a class by instance makes the class evident for a symbol that is no
/// variable.
pub proof fn law_links_are_evident(f: Facts, scope: Scope, sym: SymbolId, i: int)
    requires
        0 <= i < f.edges.len(),
        f.edges[i].edge.to == sym,
        f.edges[i].edge.rel == TaxRelation::Instance,
        f.edges[i].scopes.contains(Scope::Base) || f.edges[i].scopes.contains(scope),
        !is_variable(f.layer, sym),
    ensures
        evident(f, scope, sym, f.edges[i].edge.from),
{
    let c = f.edges[i].edge.from;
    lemma_parents(f.edges, sym, scope);
    assert(linked(f.edges, scope, sym, c, TaxRelation::Instance));
    assert(parents(f.edges, sym, scope).contains((c, TaxRelation::Instance)));
    assert(equal_between(f, scope, sym, sym, seq![sym]));
    assert(same_thing(f, scope, sym, sym));
}

// ---------------------------------------------------------------------------
// The most specific classes
// ---------------------------------------------------------------------------

/// Symbols are numbers, so any set of them is finite.
proof fn lemma_symbols_finite(s: Set<SymbolId>)
    ensures
        s.finite(),
{
    let all = vstd::set_lib::set_int_range(0, u64::MAX + 1);
    vstd::set_lib::lemma_int_range(0, u64::MAX + 1);
    let g = |i: int| i as u64;
    all.lemma_map_finite(g);
    assert forall|x: u64| s.contains(x) implies all.map(g).contains(x) by {
        assert(all.contains(x as int) && g(x as int) == x);
    }
    vstd::set_lib::lemma_set_subset_finite(all.map(g), s);
}

/// No two different classes of the set stand each above the other.
pub open spec fn no_circle(rs: Seq<RecordView>, scope: Scope, s: Set<SymbolId>) -> bool {
    forall|a: SymbolId, b: SymbolId|
        #![trigger reaches(rs, scope, None, a, b), reaches(rs, scope, None, b, a)]
        s.contains(a) && s.contains(b) && reaches(rs, scope, None, a, b) && reaches(rs, scope, None, b, a) ==> a == b
}

proof fn lemma_leaf_below(rs: Seq<RecordView>, scope: Scope, s: Set<SymbolId>, c: SymbolId) -> (d: SymbolId)
    requires
        no_circle(rs, scope, s),
        s.contains(c),
    ensures
        leaves(rs, scope, s).contains(d),
        reaches(rs, scope, None, d, c),
    decreases s.filter(|e: SymbolId| reaches(rs, scope, None, e, c)).len(),
{
    let below = s.filter(|e: SymbolId| reaches(rs, scope, None, e, c));
    crate::semantic::lemma_reaches_self(rs, scope, None, c);
    if dominated(rs, scope, s, c) {
        let e = choose|e: SymbolId| #[trigger] s.contains(e) && e != c && reaches(rs, scope, None, e, c);
        let lower = s.filter(|x: SymbolId| reaches(rs, scope, None, x, e));
        lemma_symbols_finite(below);
        assert forall|x: SymbolId| lower.contains(x) implies below.contains(x) by {
            law_ancestors_chain(rs, scope, None, x, e, c);
        }
        assert(below.contains(c) && !lower.contains(c));
        vstd::set_lib::lemma_len_subset(lower, below.remove(c));
        let d = lemma_leaf_below(rs, scope, s, e);
        law_ancestors_chain(rs, scope, None, d, e, c);
        d
    } else {
        c
    }
}

/// The classes of what was inferred.
pub open spec fn inferred_classes(v: ClassView) -> Set<SymbolId> {
    match v {
        ClassView::Single(c) => set![c],
        ClassView::Multiple(s) => s,
        _ => Set::empty(),
    }
}

/// The most specific of some classes are those among them with no other of them below;
/// one of them stands at or under each, where no two classes stand each above the
/// other.
pub proof fn law_collapsing_keeps_the_most_specific(rs: Seq<RecordView>, scope: Scope, s: Set<SymbolId>, c: SymbolId)
    ensures
        inferred_classes(collapsed(rs, scope, s)).contains(c) <==> s.contains(c) && forall|d: SymbolId| #[trigger]
            s.contains(d) && d != c ==> !reaches(rs, scope, None, d, c),
        s.contains(c) && no_circle(rs, scope, s) ==> exists|d: SymbolId| #[trigger]
            inferred_classes(collapsed(rs, scope, s)).contains(d) && reaches(rs, scope, None, d, c),
        collapsed(rs, scope, s) matches ClassView::Multiple(m) ==> m.finite() && m.len() > 1,
        !(collapsed(rs, scope, s) is Class),
{
    let l = leaves(rs, scope, s);
    lemma_symbols_finite(l);
    assert(inferred_classes(collapsed(rs, scope, s)) =~= l) by {
        if l.len() == 1 {
            let x = l.choose();
            assert(l.contains(x));
            assert forall|y: SymbolId| l.contains(y) implies y == x by {
                if y != x {
                    assert(l.remove(x).contains(y));
                    assert(l.remove(x).len() == 0);
                }
            }
            assert(l =~= set![x]);
        } else if l.len() == 0 {
            assert(l =~= Set::empty());
        }
    }
    if s.contains(c) && no_circle(rs, scope, s) {
        let d = lemma_leaf_below(rs, scope, s, c);
        assert(inferred_classes(collapsed(rs, scope, s)).contains(d));
    }
}

/// What is inferred of a symbol with evident classes are the most specific of these;
/// of one with a single evident class, that class.  Without any, a symbol that is
/// shown to be a class is one.
pub proof fn law_evidence_decides(f: Facts, scope: Scope, sym: SymbolId, c: SymbolId)
    ensures
        evident(f, scope, sym, c) ==> (inferred_classes(inferred_of(f, scope, sym)).contains(c) <==> forall|d: SymbolId|
         #[trigger] evident(f, scope, sym, d) && d != c ==> !reaches(f.edges, scope, None, d, c)),
        evident(f, scope, sym, c) && (forall|d: SymbolId| #[trigger] evident(f, scope, sym, d) ==> d == c) ==> inferred_of(
            f,
            scope,
            sym,
        ) == ClassView::Single(c),
        evident(f, scope, sym, c) ==> forall|d: SymbolId| #[trigger]
            inferred_classes(inferred_of(f, scope, sym)).contains(d) ==> evident(f, scope, sym, d),
        (forall|d: SymbolId| !evident(f, scope, sym, d)) && evident_class(f, scope, sym) ==> inferred_of(f, scope, sym)
            == ClassView::Class,
{
    let s = evidence(f, scope, sym);
    if evident(f, scope, sym, c) {
        assert(s.contains(c));
        assert forall|d: SymbolId| #[trigger] s.contains(d) == evident(f, scope, sym, d) by {}
        law_collapsing_keeps_the_most_specific(f.edges, scope, s, c);
        if inferred_classes(inferred_of(f, scope, sym)).contains(c) {
            assert forall|d: SymbolId| #[trigger] evident(f, scope, sym, d) && d != c implies !reaches(
                f.edges,
                scope,
                None,
                d,
                c,
            ) by {
                assert(s.contains(d));
            }
        }
        if forall|d: SymbolId| #[trigger] evident(f, scope, sym, d) && d != c ==> !reaches(f.edges, scope, None, d, c) {
            assert forall|d: SymbolId| #[trigger] s.contains(d) && d != c implies !reaches(f.edges, scope, None, d, c) by {
                assert(evident(f, scope, sym, d));
            }
        }
        assert forall|d: SymbolId| #[trigger]
            inferred_classes(inferred_of(f, scope, sym)).contains(d) implies evident(f, scope, sym, d) by {
            law_collapsing_keeps_the_most_specific(f.edges, scope, s, d);
        }
        if forall|d: SymbolId| #[trigger] evident(f, scope, sym, d) ==> d == c {
            assert forall|d: SymbolId| #[trigger] s.contains(d) && d != c implies !reaches(f.edges, scope, None, d, c) by {}
            let v = inferred_of(f, scope, sym);
            assert(inferred_classes(v).contains(c));
            if let ClassView::Multiple(m) = v {
                assert(m =~= set![c]) by {
                    assert forall|d: SymbolId| m.contains(d) implies d == c by {
                        assert(inferred_classes(v).contains(d));
                    }
                }
            }
        }
    }
}

/// A term on either side of an equation with a symbol, and nothing else said of the
/// symbol, make its class the range of the term's function.
pub proof fn law_an_equation_alone_decides(
    f: Facts,
    scope: Scope,
    sym: SymbolId,
    sid: SentenceId,
    side: Part,
    term: SentenceId,
    h: SymbolId,
    c: SymbolId,
)
    requires
        findable(f.layer, sym),
        side == Part::Sym(sym) || side == Part::Var(sym, false),
        equated(f, sid, side, Part::Sub(term)),
        body(f.layer, term) matches Some(qs) && qs.len() > 0 && qs[0] == Part::Sym(h),
        range_of(f, scope, h) == RelationRange::Range(c),
        near(f, sym, scope, sid),
        !denied(f, sym, scope, sid),
    ensures
        evident(f, scope, sym, c),
        (forall|d: SymbolId| #[trigger] evident(f, scope, sym, d) ==> d == c) ==> inferred_of(f, scope, sym)
            == ClassView::Single(c),
{
    law_equal_terms_give_their_range(f, scope, sym, sid, side, term, h, c);
    assert(told_class(f, scope, sym, c));
    assert(member_gives(f, scope, sym, c));
    assert(equal_between(f, scope, sym, sym, seq![sym]));
    assert(same_thing(f, scope, sym, sym));
    law_evidence_decides(f, scope, sym, c);
}

/// What is near a symbol is what stands in a root that the scope sees and that names
/// the symbol somewhere.
pub proof fn law_what_is_near(f: Facts, sym: SymbolId, scope: Scope, sid: SentenceId)
    ensures
        near(f, sym, scope, sid) <==> exists|k: int|
            0 <= k < f.layer.roots.len() && crate::store::seen_in(#[trigger] f.layer.roots[k], scope) && mentioned(
                f.layer,
                f.layer.roots[k].sid,
                sym,
            ) && tree(f.layer.entries, f.layer.roots[k].sid).contains(sid),
{
    let p = mentioning(f.layer, sym, scope);
    let pa = picked(f.layer.roots, p);
    if near(f, sym, scope, sid) {
        let i = choose|i: int| 0 <= i < pa.len() && within_root(f, #[trigger] pa[i], sid);
        assert(pa.contains(pa[i]));
        lemma_picked(f.layer.roots, p, pa[i]);
        let k = choose|k: int| 0 <= k < f.layer.roots.len() && p(#[trigger] f.layer.roots[k]) && f.layer.roots[k].sid == pa[i];
        assert(crate::store::seen_in(f.layer.roots[k], scope));
    }
    if exists|k: int|
        0 <= k < f.layer.roots.len() && crate::store::seen_in(#[trigger] f.layer.roots[k], scope) && mentioned(
            f.layer,
            f.layer.roots[k].sid,
            sym,
        ) && tree(f.layer.entries, f.layer.roots[k].sid).contains(sid) {
        let k = choose|k: int|
            0 <= k < f.layer.roots.len() && crate::store::seen_in(#[trigger] f.layer.roots[k], scope) && mentioned(
                f.layer,
                f.layer.roots[k].sid,
                sym,
            ) && tree(f.layer.entries, f.layer.roots[k].sid).contains(sid);
        let r = f.layer.roots[k].sid;
        assert(p(f.layer.roots[k]));
        lemma_picked(f.layer.roots, p, r);
        let i = choose|i: int| 0 <= i < pa.len() && pa[i] == r;
        assert(within_root(f, pa[i], sid));
    }
}

/// The taxonomy says nothing of the symbol: it is a variable, or nothing stands above it.
pub open spec fn says_nothing(f: Facts, scope: Scope, m: SymbolId) -> bool {
    is_variable(f.layer, m) || forall|p: SymbolId, rel: TaxRelation| !linked(f.edges, scope, m, p, rel)
}

/// Nothing is evident about the symbol, and the taxonomy says something of `m` alone among
/// the symbols that are the same thing.
pub open spec fn left_to_taxonomy(f: Facts, scope: Scope, sym: SymbolId, m: SymbolId) -> bool {
    &&& forall|c: SymbolId| !evident(f, scope, sym, c)
    &&& !evident_class(f, scope, sym)
    &&& same_thing(f, scope, sym, m)
    &&& forall|n: SymbolId| #[trigger] same_thing(f, scope, sym, n) && n != m ==> says_nothing(f, scope, n)
}

/// The symbol is a subrelation or a subattribute of the other.
pub open spec fn takes_after(f: Facts, scope: Scope, m: SymbolId, p: SymbolId) -> bool {
    linked(f.edges, scope, m, p, TaxRelation::Subrelation) || linked(f.edges, scope, m, p, TaxRelation::SubAttribute)
}

/// The single classes of what the symbol is a subrelation or a subattribute of.
pub open spec fn handed_down(f: Facts, scope: Scope, m: SymbolId) -> Set<SymbolId> {
    Set::new(
        |c: SymbolId|
            exists|p: SymbolId| #[trigger] takes_after(f, scope, m, p) && inferred_of(f, scope, p) == ClassView::Single(c),
    )
}

proof fn lemma_nothing_said(f: Facts, scope: Scope, q: Set<SymbolId>, m: SymbolId)
    requires
        says_nothing(f, scope, m),
    ensures
        outcome_via(f, scope, q, m) is Unknown,
{
    let ps = parents(f.edges, m, scope);
    if !is_variable(f.layer, m) {
        lemma_parents(f.edges, m, scope);
        if ps.len() > 0 {
            let (p, rel) = ps[0];
            assert(ps.contains((p, rel)));
        }
        assert(inherited_via(f, scope, q, ps) == Set::<SymbolId>::empty());
    }
}

proof fn lemma_settled(f: Facts, scope: Scope, sym: SymbolId, m: SymbolId)
    requires
        left_to_taxonomy(f, scope, sym, m),
    ensures
        inferred_of(f, scope, sym) == outcome_via(f, scope, set![sym], m),
{
    let q = Set::<SymbolId>::empty().insert(sym);
    assert(q =~= set![sym]);
    assert forall|n: SymbolId| #[trigger] same_thing(f, scope, sym, n) && n != m implies outcome_via(
        f,
        scope,
        q,
        n,
    ) is Unknown by {
        lemma_nothing_said(f, scope, q, n);
    }
    assert(inferred_of(f, scope, sym) == settled_via(f, scope, q, sym));
    if !(outcome_via(f, scope, q, m) is Unknown) {
        assert(same_thing(f, scope, sym, m) && !(outcome_via(f, scope, q, m) is Unknown) && forall|n: SymbolId|
            #[trigger] same_thing(f, scope, sym, n) && !(outcome_via(f, scope, q, n) is Unknown) ==> m <= n);
        let c = choose|m: SymbolId| #[trigger]
            same_thing(f, scope, sym, m) && !(outcome_via(f, scope, q, m) is Unknown) && forall|n: SymbolId|
                #[trigger] same_thing(f, scope, sym, n) && !(outcome_via(f, scope, q, n) is Unknown) ==> m <= n;
        assert(c == m);
    }
}

proof fn lemma_upper_asked(f: Facts, scope: Scope, m: SymbolId, p: SymbolId, rel: TaxRelation)
    requires
        linked(f.edges, scope, m, p, rel),
    ensures
        range_steps(f).contains(p),
{
    let rs = f.edges;
    let i = choose|i: int|
        0 <= i < rs.len() && (#[trigger] rs[i]).edge.to == m && rs[i].edge.from == p && rs[i].edge.rel == rel && counts_in(
            rs[i],
            scope,
        );
    assert(uppers(rs)[i] == p);
}

/// The symbol above hands the class down.
#[verifier::opaque]
spec fn hands(f: Facts, scope: Scope, a: Above, c: SymbolId) -> bool {
    (a.1 == TaxRelation::Subrelation || a.1 == TaxRelation::SubAttribute) && inferred_of(f, scope, a.0) == ClassView::Single(c)
}

proof fn lemma_inherited_step(f: Facts, scope: Scope, sym: SymbolId, ps: Seq<Above>, c: SymbolId)
    requires
        ps.len() > 0,
        range_steps(f).contains(ps.last().0),
        ps.last().1 == TaxRelation::Subrelation || ps.last().1 == TaxRelation::SubAttribute ==> ps.last().0 != sym
            && exists|d: SymbolId| evident(f, scope, ps.last().0, d),
    ensures
        inherited_via(f, scope, set![sym], ps).contains(c) <==> inherited_via(f, scope, set![sym], ps.drop_last()).contains(c)
            || hands(f, scope, ps.last(), c),
{
    reveal(hands);
    let q = set![sym];
    let r = inherited_via(f, scope, q, ps.drop_last());
    let (p, rel) = ps.last();
    if rel == TaxRelation::Subrelation || rel == TaxRelation::SubAttribute {
        assert(!q.contains(p));
        assert(inferred_via(f, scope, q, p) == collapsed(f.edges, scope, evidence(f, scope, p)));
        assert(inferred_of(f, scope, p) == collapsed(f.edges, scope, evidence(f, scope, p)));
        let v = inferred_of(f, scope, p);
        assert(inherited_via(f, scope, q, ps) == match v {
            ClassView::Single(c) => r.insert(c),
            _ => r,
        });
    } else {
        assert(inherited_via(f, scope, q, ps) == r);
    }
}

proof fn lemma_inherited(f: Facts, scope: Scope, sym: SymbolId, m: SymbolId, ps: Seq<Above>, c: SymbolId)
    requires
        forall|i: int| 0 <= i < ps.len() ==> linked(f.edges, scope, m, (#[trigger] ps[i]).0, ps[i].1),
        forall|p: SymbolId| #[trigger] takes_after(f, scope, m, p) ==> p != sym && exists|d: SymbolId| evident(f, scope, p, d),
    ensures
        inherited_via(f, scope, set![sym], ps).contains(c) <==> exists|i: int|
            0 <= i < ps.len() && hands(f, scope, #[trigger] ps[i], c),
    decreases ps.len(),
{
    if ps.len() > 0 {
        let rest = ps.drop_last();
        let n = ps.len() - 1;
        assert forall|i: int| 0 <= i < rest.len() implies linked(f.edges, scope, m, (#[trigger] rest[i]).0, rest[i].1) by {
            assert(rest[i] == ps[i]);
        }
        lemma_inherited(f, scope, sym, m, rest, c);
        assert(linked(f.edges, scope, m, ps[n].0, ps[n].1));
        lemma_upper_asked(f, scope, m, ps[n].0, ps[n].1);
        if ps[n].1 == TaxRelation::Subrelation || ps[n].1 == TaxRelation::SubAttribute {
            assert(takes_after(f, scope, m, ps[n].0));
        }
        lemma_inherited_step(f, scope, sym, ps, c);
        if exists|i: int| 0 <= i < rest.len() && hands(f, scope, #[trigger] rest[i], c) {
            let i = choose|i: int| 0 <= i < rest.len() && hands(f, scope, #[trigger] rest[i], c);
            assert(hands(f, scope, ps[i], c));
        }
        if exists|i: int| 0 <= i < ps.len() && hands(f, scope, #[trigger] ps[i], c) {
            let i = choose|i: int| 0 <= i < ps.len() && hands(f, scope, #[trigger] ps[i], c);
            if i < n {
                assert(hands(f, scope, rest[i], c));
            }
        }
    } else {
        assert(inherited_via(f, scope, set![sym], ps) == Set::<SymbolId>::empty());
    }
}

proof fn lemma_handed_down(f: Facts, scope: Scope, sym: SymbolId, m: SymbolId, c: SymbolId)
    requires
        forall|p: SymbolId| #[trigger] takes_after(f, scope, m, p) ==> p != sym && exists|d: SymbolId| evident(f, scope, p, d),
    ensures
        inherited_via(f, scope, set![sym], parents(f.edges, m, scope)).contains(c) == handed_down(f, scope, m).contains(c),
{
    let ps = parents(f.edges, m, scope);
    lemma_parents(f.edges, m, scope);
    assert forall|i: int| 0 <= i < ps.len() implies linked(f.edges, scope, m, (#[trigger] ps[i]).0, ps[i].1) by {
        assert(ps.contains((ps[i].0, ps[i].1)));
    }
    lemma_inherited(f, scope, sym, m, ps, c);
    reveal(hands);
    if exists|i: int| 0 <= i < ps.len() && hands(f, scope, #[trigger] ps[i], c) {
        let i = choose|i: int| 0 <= i < ps.len() && hands(f, scope, #[trigger] ps[i], c);
        assert(takes_after(f, scope, m, ps[i].0));
    }
    if handed_down(f, scope, m).contains(c) {
        let p = choose|p: SymbolId| #[trigger]
            takes_after(f, scope, m, p) && inferred_of(f, scope, p) == ClassView::Single(c);
        let rel = if linked(f.edges, scope, m, p, TaxRelation::Subrelation) {
            TaxRelation::Subrelation
        } else {
            TaxRelation::SubAttribute
        };
        assert(ps.contains((p, rel)));
        let i = choose|i: int| 0 <= i < ps.len() && ps[i] == (p, rel);
        assert(hands(f, scope, ps[i], c));
    }
}

/// Where nothing is evident the taxonomy decides: a symbol that is a subclass and nothing
/// else is a class; one of which nothing is said stays unknown; and any other is what the
/// relations and attributes that it stands under are, the most specific of these.
pub proof fn law_the_taxonomy_decides_the_rest(f: Facts, scope: Scope, sym: SymbolId, m: SymbolId)
    requires
        left_to_taxonomy(f, scope, sym, m),
    ensures
        says_nothing(f, scope, m) ==> inferred_of(f, scope, sym) is Unknown,
        !says_nothing(f, scope, m) && (forall|p: SymbolId, rel: TaxRelation| #[trigger]
            linked(f.edges, scope, m, p, rel) ==> rel == TaxRelation::Subclass) ==> inferred_of(f, scope, sym) is Class,
        !says_nothing(f, scope, m) && (exists|p: SymbolId, rel: TaxRelation| #[trigger]
            linked(f.edges, scope, m, p, rel) && rel != TaxRelation::Subclass) && (forall|p: SymbolId| #[trigger]
            takes_after(f, scope, m, p) ==> p != sym && exists|d: SymbolId| evident(f, scope, p, d)) ==> inferred_of(
            f,
            scope,
            sym,
        ) == collapsed(f.edges, scope, handed_down(f, scope, m)),
{
    lemma_settled(f, scope, sym, m);
    if says_nothing(f, scope, m) {
        lemma_nothing_said(f, scope, set![sym], m);
    } else {
        lemma_outcome(f, scope, sym, m);
    }
}

/// The class is at the bottom of the list: it is one of the list, and stands under every
/// other one.
pub open spec fn lowest(rs: Seq<RecordView>, classes: Seq<SymbolId>, c: SymbolId) -> bool {
    classes.contains(c) && forall|i: int| 0 <= i < classes.len() ==> reaches(rs, Scope::Base, None, c, #[trigger] classes[i])
}

/// Of classes that stand under one another the lowest is the most specific, in whatever
/// order they are given; the answer is always one of them.
pub proof fn law_the_most_specific_is_the_lowest(rs: Seq<RecordView>, classes: Seq<SymbolId>)
    ensures
        classes.len() == 0 <==> most_specific(rs, classes) is None,
        most_specific(rs, classes) matches Some(c) ==> classes.contains(c),
        classes.len() > 0 && (forall|i: int, j: int|
            0 <= i < j < classes.len() ==> reaches(rs, Scope::Base, None, #[trigger] classes[i], #[trigger] classes[j])
                || reaches(rs, Scope::Base, None, classes[j], classes[i])) ==> lowest(
            rs,
            classes,
            most_specific(rs, classes)->0,
        ),
    decreases classes.len(),
{
    if classes.len() > 0 {
        let rest = classes.drop_last();
        let n = classes.len() - 1;
        let z = classes[n];
        law_the_most_specific_is_the_lowest(rs, rest);
        lemma_reaches_self(rs, Scope::Base, None, z);
        if rest.len() > 0 {
            let a = most_specific(rs, rest)->0;
            let k = choose|k: int| 0 <= k < rest.len() && rest[k] == a;
            assert(classes[k] == a);
            if forall|i: int, j: int|
                0 <= i < j < classes.len() ==> reaches(rs, Scope::Base, None, #[trigger] classes[i], #[trigger] classes[j])
                    || reaches(rs, Scope::Base, None, classes[j], classes[i]) {
                assert forall|i: int, j: int| 0 <= i < j < rest.len() implies reaches(
                    rs,
                    Scope::Base,
                    None,
                    #[trigger] rest[i],
                    #[trigger] rest[j],
                ) || reaches(rs, Scope::Base, None, rest[j], rest[i]) by {
                    assert(rest[i] == classes[i] && rest[j] == classes[j]);
                }
                assert(lowest(rs, rest, a));
                let c = most_specific(rs, classes)->0;
                assert forall|i: int| 0 <= i < classes.len() implies reaches(rs, Scope::Base, None, c, #[trigger] classes[i]) by {
                    if i < n {
                        assert(rest[i] == classes[i]);
                        assert(reaches(rs, Scope::Base, None, a, rest[i]));
                        if c == z {
                            assert(reaches(rs, Scope::Base, None, classes[k], classes[n]) || reaches(
                                rs,
                                Scope::Base,
                                None,
                                classes[n],
                                classes[k],
                            ));
                            law_ancestors_chain(rs, Scope::Base, None, z, a, classes[i]);
                        }
                    }
                }
            }
        } else {
            assert(classes[n] == most_specific(rs, classes)->0);
        }
    }
}

/// The classes that are left of a list are the most specific of the whole, each once, in
/// the order in which the list first has them.
pub proof fn law_what_is_left_keeps_its_order(
    rs: Seq<RecordView>,
    scope: Scope,
    whole: Set<SymbolId>,
    s: Seq<SymbolId>,
    c: SymbolId,
)
    ensures
        leaf_list(rs, scope, whole, s).no_duplicates(),
        leaf_list(rs, scope, whole, s).contains(c) <==> s.contains(c) && !dominated(rs, scope, whole, c),
        forall|i: int, j: int|
            0 <= i < j < leaf_list(rs, scope, whole, s).len() ==> comes_first(
                s,
                #[trigger] leaf_list(rs, scope, whole, s)[i],
                #[trigger] leaf_list(rs, scope, whole, s)[j],
            ),
    decreases s.len(),
{
    if s.len() > 0 {
        let d = s.drop_last();
        let l = leaf_list(rs, scope, whole, d);
        let m = leaf_list(rs, scope, whole, s);
        let z = s.last();
        law_what_is_left_keeps_its_order(rs, scope, whole, d, c);
        law_what_is_left_keeps_its_order(rs, scope, whole, d, z);
        crate::store::lemma_push_contains(l, z);
        assert(s =~= d.push(z));
        crate::store::lemma_push_contains(d, z);
        assert forall|i: int, j: int| 0 <= i < j < m.len() implies comes_first(s, #[trigger] m[i], #[trigger] m[j]) by {
            if j < l.len() {
                assert(comes_first(d, l[i], l[j]));
                let a = choose|a: int|
                    0 <= a < d.len() && #[trigger] d[a] == l[i] && forall|b: int| 0 <= b <= a ==> #[trigger] d[b] != l[j];
                assert(s[a] == m[i]);
                assert forall|b: int| 0 <= b <= a implies #[trigger] s[b] != m[j] by {
                    assert(d[b] != l[j]);
                }
            } else {
                assert(m[j] == z && !l.contains(z) && !dominated(rs, scope, whole, z));
                assert(!d.contains(z));
                law_what_is_left_keeps_its_order(rs, scope, whole, d, m[i]);
                assert(l.contains(l[i]));
                let a = choose|a: int| 0 <= a < d.len() && d[a] == m[i];
                assert(s[a] == m[i]);
                assert forall|b: int| 0 <= b <= a implies #[trigger] s[b] != m[j] by {
                    assert(d[b] == s[b]);
                    assert(d.contains(d[b]));
                }
            }
        }
    }
}

/// The list has the first symbol before it ever has the second.
pub open spec fn comes_first(s: Seq<SymbolId>, x: SymbolId, y: SymbolId) -> bool {
    exists|a: int| 0 <= a < s.len() && #[trigger] s[a] == x && forall|b: int| 0 <= b <= a ==> #[trigger] s[b] != y
}

/// A name with two underscores and a number behind them is a variable's, whatever stands
/// before; a name that ends with no digit, or has no underscore, is none.
pub proof fn law_names_of_variables(s: Seq<char>, d: Seq<char>)
    ensures
        d.len() > 0 && all_digits(d) ==> names_variable(s + seq!['_', '_'] + d),
        s.len() > 0 && !all_digits(seq![s.last()]) ==> !names_variable(s),
        !s.contains('_') ==> !names_variable(s),
{
    if d.len() > 0 && all_digits(d) {
        let t = s + seq!['_', '_'] + d;
        let k = s.len() as int;
        assert(t.subrange(k + 2, t.len() as int) =~= d);
        assert(t[k] == '_' && t[k + 1] == '_');
        assert(split_at(t, k));
    }
    if names_variable(s) {
        let k = choose|k: int| #[trigger] split_at(s, k);
        let e = s.subrange(k + 2, s.len() as int);
        assert(e[e.len() - 1] == s.last());
        assert(s[k] == '_');
        assert(s.contains('_'));
        assert(seq![s.last()][0] == e[e.len() - 1]);
    }
}

/// A number without a point or a stroke is an integer, one with a point a real number, and
/// one with a stroke and no point a rational.
pub proof fn law_classes_of_numbers(a: Seq<char>, b: Seq<char>)
    requires
        all_digits(a),
        all_digits(b),
    ensures
        number_class(a) == "Integer"@,
        number_class(seq!['-'] + a) == "Integer"@,
        number_class(a + seq!['.'] + b) == "RealNumber"@,
        number_class(seq!['-'] + a + seq!['.'] + b) == "RealNumber"@,
        number_class(a + seq!['/'] + b) == "RationalNumber"@,
        number_class(seq!['-'] + a + seq!['/'] + b) == "RationalNumber"@,
{
    let x = a + seq!['.'] + b;
    assert(x[a.len() as int] == '.');
    let y = seq!['-'] + a + seq!['.'] + b;
    assert(y[a.len() as int + 1] == '.');
    let z = a + seq!['/'] + b;
    assert(z[a.len() as int] == '/');
    let w = seq!['-'] + a + seq!['/'] + b;
    assert(w[a.len() as int + 1] == '/');
    lemma_digits_have_no(a, '.');
    lemma_digits_have_no(a, '/');
    lemma_digits_have_no(b, '.');
    assert(!(seq!['-'] + a).contains('.') && !(seq!['-'] + a).contains('/')) by {
        let v = seq!['-'] + a;
        assert forall|i: int| 0 <= i < v.len() implies v[i] != '.' && v[i] != '/' by {
            if i > 0 {
                assert(v[i] == a[i - 1]);
                assert(a.contains(a[i - 1]));
            }
        }
    }
    assert(!z.contains('.')) by {
        assert forall|i: int| 0 <= i < z.len() implies z[i] != '.' by {
            if i < a.len() {
                assert(a.contains(a[i]));
            } else if i > a.len() {
                assert(b.contains(b[i - a.len() - 1]));
            }
        }
    }
    assert(!w.contains('.')) by {
        assert forall|i: int| 0 <= i < w.len() implies w[i] != '.' by {
            if 1 <= i <= a.len() {
                assert(a.contains(a[i - 1]));
            } else if i > a.len() + 1 {
                assert(b.contains(b[i - a.len() - 2]));
            }
        }
    }
}

proof fn lemma_digits_have_no(s: Seq<char>, c: char)
    requires
        all_digits(s),
        c == '.' || c == '/',
    ensures
        !s.contains(c),
{
    if s.contains(c) {
        let i = choose|i: int| 0 <= i < s.len() && s[i] == c;
        assert(s[i] == c);
    }
}

/// Among several symbols that are the same thing the first by identity of which the
/// taxonomy says anything decides.
pub proof fn law_the_first_by_identity_decides(f: Facts, scope: Scope, sym: SymbolId, m: SymbolId)
    requires
        forall|c: SymbolId| !evident(f, scope, sym, c),
        !evident_class(f, scope, sym),
        same_thing(f, scope, sym, m),
        forall|n: SymbolId| #[trigger] same_thing(f, scope, sym, n) && n < m ==> says_nothing(f, scope, n),
        !says_nothing(f, scope, m),
    ensures
        (forall|p: SymbolId, rel: TaxRelation| #[trigger] linked(f.edges, scope, m, p, rel) ==> rel == TaxRelation::Subclass)
            ==> inferred_of(f, scope, sym) is Class,
        (exists|p: SymbolId, rel: TaxRelation| #[trigger]
            linked(f.edges, scope, m, p, rel) && rel != TaxRelation::Subclass) && (forall|p: SymbolId| #[trigger]
            takes_after(f, scope, m, p) ==> p != sym && exists|d: SymbolId| evident(f, scope, p, d)) && !(collapsed(
            f.edges,
            scope,
            handed_down(f, scope, m),
        ) is Unknown) ==> inferred_of(f, scope, sym) == collapsed(f.edges, scope, handed_down(f, scope, m)),
{
    let q = Set::<SymbolId>::empty().insert(sym);
    assert(q =~= set![sym]);
    lemma_outcome(f, scope, sym, m);
    let o = outcome_via(f, scope, q, m);
    assert(inferred_of(f, scope, sym) == settled_via(f, scope, q, sym));
    if !(o is Unknown) {
        assert forall|n: SymbolId| #[trigger] same_thing(f, scope, sym, n) && !(outcome_via(f, scope, q, n) is Unknown) implies m
            <= n by {
            if n < m {
                lemma_nothing_said(f, scope, q, n);
            }
        }
        let c = choose|m: SymbolId| #[trigger]
            same_thing(f, scope, sym, m) && !(outcome_via(f, scope, q, m) is Unknown) && forall|n: SymbolId|
                #[trigger] same_thing(f, scope, sym, n) && !(outcome_via(f, scope, q, n) is Unknown) ==> m <= n;
        assert(c == m);
    }
}

proof fn lemma_outcome(f: Facts, scope: Scope, sym: SymbolId, m: SymbolId)
    requires
        !says_nothing(f, scope, m),
    ensures
        (forall|p: SymbolId, rel: TaxRelation| #[trigger] linked(f.edges, scope, m, p, rel) ==> rel == TaxRelation::Subclass)
            ==> outcome_via(f, scope, set![sym], m) is Class,
        (exists|p: SymbolId, rel: TaxRelation| #[trigger]
            linked(f.edges, scope, m, p, rel) && rel != TaxRelation::Subclass) && (forall|p: SymbolId| #[trigger]
            takes_after(f, scope, m, p) ==> p != sym && exists|d: SymbolId| evident(f, scope, p, d)) ==> outcome_via(
            f,
            scope,
            set![sym],
            m,
        ) == collapsed(f.edges, scope, handed_down(f, scope, m)),
{
    let ps = parents(f.edges, m, scope);
    let (p, rel) = choose|p: SymbolId, rel: TaxRelation| linked(f.edges, scope, m, p, rel);
    lemma_parents(f.edges, m, scope);
    assert(ps.contains((p, rel)));
    if exists|p: SymbolId, rel: TaxRelation| #[trigger]
        linked(f.edges, scope, m, p, rel) && rel != TaxRelation::Subclass {
        let (p, rel) = choose|p: SymbolId, rel: TaxRelation| #[trigger]
            linked(f.edges, scope, m, p, rel) && rel != TaxRelation::Subclass;
        assert(ps.contains((p, rel)));
        let i = choose|i: int| 0 <= i < ps.len() && ps[i] == (p, rel);
        assert(ps[i].1 != TaxRelation::Subclass);
        if forall|p: SymbolId| #[trigger]
            takes_after(f, scope, m, p) ==> p != sym && exists|d: SymbolId| evident(f, scope, p, d) {
            let s = inherited_via(f, scope, set![sym], ps);
            let h = handed_down(f, scope, m);
            assert forall|c: SymbolId| s.contains(c) == h.contains(c) by {
                lemma_handed_down(f, scope, sym, m, c);
            }
            assert(s =~= h);
            if s == Set::<SymbolId>::empty() {
                assert(leaves(f.edges, scope, s) =~= Set::empty());
            }
        }
    } else {
        assert forall|i: int| 0 <= i < ps.len() implies (#[trigger] ps[i]).1 == TaxRelation::Subclass by {
            assert(ps.contains((ps[i].0, ps[i].1)));
            assert(linked(f.edges, scope, m, ps[i].0, ps[i].1));
        }
        assert(only_subclass(ps));
    }
}

/// A sentence is denied for a symbol exactly if some sentence near the symbol is its
/// negation; and a symbol is a variable exactly if its name is one's.
pub proof fn law_what_denies(f: Facts, scope: Scope, sym: SymbolId, sid: SentenceId)
    ensures
        denied(f, sym, scope, sid) <==> exists|n: SentenceId| #[trigger]
            near(f, sym, scope, n) && body(f.layer, n) == Some(seq![Part::Op(OpKind::Not), Part::Sub(sid)]),
        f.layer.names.dom().contains(sym) ==> findable(f.layer, sym) && is_variable(f.layer, sym) == names_variable(
            f.layer.names[sym],
        ),
        !f.layer.names.dom().contains(sym) ==> !is_variable(f.layer, sym),
{
    let whole = seq![Part::Op(OpKind::Not), Part::Sub(sid)];
    if denied(f, sym, scope, sid) {
        let n = choose|n: SentenceId| #[trigger] near(f, sym, scope, n) && denies(f.layer, n, sid);
        assert(body(f.layer, n)->0 =~= whole);
    }
    if exists|n: SentenceId| #[trigger] near(f, sym, scope, n) && body(f.layer, n) == Some(whole) {
        let n = choose|n: SentenceId| #[trigger] near(f, sym, scope, n) && body(f.layer, n) == Some(whole);
        assert(denies(f.layer, n, sid));
    }
}

/// An equation gives a class only to a symbol on one of its sides, and only the class of
/// what stands on the other: the range of a function that is applied there, or the class of
/// a number that is written there.  A text gives none.
pub proof fn law_equations_give_no_other_class(
    f: Facts,
    scope: Scope,
    sym: SymbolId,
    sid: SentenceId,
    a: Part,
    b: Part,
    c: SymbolId,
)
    requires
        body(f.layer, sid) == Some(seq![Part::Op(OpKind::Equal), a, b]),
        gives(f, scope, sym, sid, c),
    ensures
        classed_by(f, scope, sym, a, b, c) || classed_by(f, scope, sym, b, a, c),
        (b matches Part::Lit(l) && l.is_str) ==> classed_by(f, scope, sym, b, a, c),
{
    let ps = body(f.layer, sid)->0;
    assert(ps[1] == a && ps[2] == b && ps[0] == Part::Op(OpKind::Equal));
}

/// The first part is the symbol, and the second gives it the class: an application of a
/// function with that range, or a number of that class.
pub open spec fn classed_by(f: Facts, scope: Scope, sym: SymbolId, side: Part, other: Part, c: SymbolId) -> bool {
    &&& side == Part::Sym(sym) || side == Part::Var(sym, false)
    &&& match other {
        Part::Sub(s) => body(f.layer, s) matches Some(qs) && qs.len() > 0 && (qs[0] matches Part::Sym(h) && range_of(
            f,
            scope,
            h,
        ) == RelationRange::Range(c)),
        Part::Lit(l) => !l.is_str && c == name_id(number_class(l.text)),
        _ => false,
    }
}

/// The taxonomy gives a variable no class: what a variable is, sentences tell.
pub proof fn law_variables_stand_outside_the_taxonomy(f: Facts, scope: Scope, m: SymbolId, c: SymbolId)
    requires
        is_variable(f.layer, m),
    ensures
        member_gives(f, scope, m, c) <==> told_class(f, scope, m, c),
        says_nothing(f, scope, m),
{
}

} // verus!
