//! What is inferred of symbols stays true under a change that says nothing about
//! what it depends on.
use vstd::prelude::*;

use crate::changes::{facts_after, lemma_picked_alike, lemma_quiet_taxonomy, possible, reports, root_reports, Change};
use crate::classify::{forgets_all, forgets_scope, forgotten, inferences_left, inferences_true, names_arg};
use crate::content::Part;
use crate::inferred::{
    denied, denies, equal_between, equal_path, equal_to, equals_kind, equates, equation_gives, equation_gives_kind,
    evidence, evident, evident_class, gives, inferred_of, inferred_via, inherited_via, instance_gives, listed_once,
    member_gives, near, outcome_via, place_takes, place_takes_kind, same_thing, settled_via, shows_class, takes_at,
    told_class, told_is_class, within_root, ClassInference,
};
use crate::inferred_laws::{lemma_picked, lemma_tree_child};
use crate::memo::MemoKey;
use crate::roles::{tax_role, TaxRelation};
use crate::semantic::{parents, Above, Facts};
use crate::signature::{declarations, domain_of, left_to_ask, lemma_asking, range_of, range_steps, RelationDomain};
use crate::signature_cache::{declares, Facet};
use crate::signature_laws::{
    blind, elsewhere, lemma_about_blind, lemma_blind, lemma_picked_in, lemma_promotion_kept, lemma_same_domain,
    lemma_same_range, named, promoted_alike, same_signatures, silent,
};
use crate::store::{
    about, body, entries_ordered, head_of, is_root, mentioned, mentioning, picked, place, root_is,
    root_place, roots_distinct, seen_in, tree, without_session, RootView, Scope,
};
use crate::taxonomy::end_id;
use crate::types::{OpKind, SentenceId, SymbolId};

verus! {

// ---------------------------------------------------------------------------
// What is inferred is read off the sentences that classify
// ---------------------------------------------------------------------------

/// The sentence says something about classes in the scope: it is an instance
/// atom, an equation, or an atom of a relation with declared places.
pub open spec fn classifies(f: Facts, scope: Scope, ps: Seq<Part>) -> bool {
    ps.len() > 0 && match ps[0] {
        Part::Sym(h) => h == f.roles.instance || (tax_role(f.roles, h) is None && domain_of(f, scope, h).len() > 0),
        Part::Op(op) => op == OpKind::Equal,
        _ => false,
    }
}

/// The sentence says something about the class of the symbol in the scope.
pub open spec fn bears(f: Facts, scope: Scope, sid: SentenceId, sym: SymbolId) -> bool {
    body(f.layer, sid) matches Some(ps) && classifies(f, scope, ps) && names_arg(ps, sym)
}

/// No part of the root says anything about the class of one of the symbols.
pub open spec fn apart(f: Facts, scope: Scope, d: Set<SymbolId>, root: SentenceId) -> bool {
    forall|sid: SentenceId, sym: SymbolId|
        within_root(f, root, sid) && d.contains(sym) ==> !(#[trigger] bears(f, scope, sid, sym))
}

/// What the class of one of the symbols depends on is among them: what it is
/// equal to, and what it is a subrelation or subattribute of.
pub open spec fn closed_under(f: Facts, scope: Scope, d: Set<SymbolId>) -> bool {
    &&& forall|a: SymbolId, b: SymbolId| d.contains(a) && #[trigger] equal_to(f, scope, a, b) ==> d.contains(b)
    &&& forall|m: SymbolId, i: int|
        d.contains(m) && 0 <= i < parents(f.edges, m, scope).len() && lends(
            #[trigger] parents(f.edges, m, scope)[i],
        ) ==> d.contains(parents(f.edges, m, scope)[i].0)
}

/// A class is taken over from what is above.
pub open spec fn lends(p: Above) -> bool {
    p.1 == TaxRelation::Subrelation || p.1 == TaxRelation::SubAttribute
}

/// The two facts have the same sentences and taxonomy.
pub open spec fn same_ground(f: Facts, g: Facts) -> bool {
    &&& f.layer.entries == g.layer.entries
    &&& f.layer.names == g.layer.names
    &&& f.roles == g.roles
    &&& f.edges == g.edges
}

/// The scope sees the sentence as a root.
pub open spec fn shown_root(f: Facts, scope: Scope, r: SentenceId) -> bool {
    exists|i: int| 0 <= i < f.layer.roots.len() && seen_in(#[trigger] f.layer.roots[i], scope) && f.layer.roots[i].sid == r
}

/// The two facts have the same sentences, taxonomy, domains and ranges, and the
/// scope sees the same roots that say anything about the symbols.
pub open spec fn same_evidence(f: Facts, g: Facts, scope: Scope, d: Set<SymbolId>) -> bool {
    &&& same_ground(f, g)
    &&& entries_ordered(f.layer.entries)
    &&& forall|h: SymbolId| #[trigger] domain_of(f, scope, h) == domain_of(g, scope, h)
    &&& forall|h: SymbolId| #[trigger] range_of(f, scope, h) == range_of(g, scope, h)
    &&& forall|r: SentenceId| !apart(f, scope, d, r) ==> #[trigger] shown_root(f, scope, r) == shown_root(g, scope, r)
}

proof fn lemma_bears_alike(f: Facts, g: Facts, scope: Scope, d: Set<SymbolId>, sid: SentenceId, sym: SymbolId)
    requires
        same_evidence(f, g, scope, d),
    ensures
        bears(f, scope, sid, sym) == bears(g, scope, sid, sym),
{
    if let Some(ps) = body(f.layer, sid) {
        if ps.len() > 0 {
            if let Part::Sym(h) = ps[0] {
                assert(domain_of(f, scope, h) == domain_of(g, scope, h));
            }
        }
    }
}

proof fn lemma_same_evidence_back(f: Facts, g: Facts, scope: Scope, d: Set<SymbolId>)
    requires
        same_evidence(f, g, scope, d),
    ensures
        same_evidence(g, f, scope, d),
{
    assert forall|h: SymbolId| #[trigger] domain_of(g, scope, h) == domain_of(f, scope, h) by {
        assert(domain_of(f, scope, h) == domain_of(g, scope, h));
    }
    assert forall|h: SymbolId| #[trigger] range_of(g, scope, h) == range_of(f, scope, h) by {
        assert(range_of(f, scope, h) == range_of(g, scope, h));
    }
    assert forall|r: SentenceId| !apart(g, scope, d, r) implies #[trigger] shown_root(g, scope, r) == shown_root(
        f,
        scope,
        r,
    ) by {
        let (sid, sym) = choose|sid: SentenceId, sym: SymbolId|
            within_root(g, r, sid) && d.contains(sym) && #[trigger] bears(g, scope, sid, sym);
        lemma_bears_alike(f, g, scope, d, sid, sym);
        assert(within_root(f, r, sid));
        assert(!apart(f, scope, d, r));
        assert(shown_root(f, scope, r) == shown_root(g, scope, r));
    }
}

/// What is near a symbol is part of a root that the scope sees.
proof fn lemma_near_root(f: Facts, sym: SymbolId, scope: Scope, sid: SentenceId) -> (r: SentenceId)
    requires
        near(f, sym, scope, sid),
    ensures
        shown_root(f, scope, r),
        mentioned(f.layer, r, sym),
        within_root(f, r, sid),
{
    let p = mentioning(f.layer, sym, scope);
    let s = picked(f.layer.roots, p);
    let i = choose|i: int| 0 <= i < s.len() && within_root(f, #[trigger] s[i], sid);
    assert(s.contains(s[i]));
    lemma_picked(f.layer.roots, p, s[i]);
    let k = choose|k: int| 0 <= k < f.layer.roots.len() && p(#[trigger] f.layer.roots[k]) && f.layer.roots[k].sid == s[i];
    assert(seen_in(f.layer.roots[k], scope));
    s[i]
}

proof fn lemma_root_near(f: Facts, sym: SymbolId, scope: Scope, sid: SentenceId, r: SentenceId)
    requires
        shown_root(f, scope, r),
        mentioned(f.layer, r, sym),
        within_root(f, r, sid),
    ensures
        near(f, sym, scope, sid),
{
    let p = mentioning(f.layer, sym, scope);
    let k = choose|k: int|
        0 <= k < f.layer.roots.len() && seen_in(#[trigger] f.layer.roots[k], scope) && f.layer.roots[k].sid == r;
    assert(p(f.layer.roots[k]));
    lemma_picked(f.layer.roots, p, r);
    let s = picked(f.layer.roots, p);
    let i = choose|i: int| 0 <= i < s.len() && s[i] == r;
    assert(within_root(f, s[i], sid));
}

/// A sentence about one of the symbols is near it in both.
proof fn lemma_near_kept(f: Facts, g: Facts, scope: Scope, d: Set<SymbolId>, sym: SymbolId, sid: SentenceId)
    requires
        same_evidence(f, g, scope, d),
        near(f, sym, scope, sid),
        d.contains(sym),
        bears(f, scope, sid, sym),
    ensures
        near(g, sym, scope, sid),
{
    let r = lemma_near_root(f, sym, scope, sid);
    let t = tree(f.layer.entries, r);
    assert(!apart(f, scope, d, r));
    assert(shown_root(f, scope, r) == shown_root(g, scope, r));
    let k = choose|k: int| 0 <= k < t.len() && crate::store::names(f.layer, #[trigger] t[k], sym);
    assert(crate::store::names(g.layer, tree(g.layer.entries, r)[k], sym));
    assert(within_root(g, r, sid));
    lemma_root_near(g, sym, scope, sid, r);
}

/// A sentence about one of the symbols is denied in both.
proof fn lemma_denied_kept(f: Facts, g: Facts, scope: Scope, d: Set<SymbolId>, sym: SymbolId, sid: SentenceId)
    requires
        same_evidence(f, g, scope, d),
        denied(f, sym, scope, sid),
        d.contains(sym),
        bears(f, scope, sid, sym),
    ensures
        denied(g, sym, scope, sid),
{
    let n = choose|n: SentenceId| #[trigger] near(f, sym, scope, n) && denies(f.layer, n, sid);
    let r = lemma_near_root(f, sym, scope, n);
    let es = f.layer.entries;
    assert(es[place(es, n)].parts[1] == Part::Sub(sid));
    lemma_tree_child(es, r, n, 1, sid);
    let t = tree(es, r);
    assert(within_root(f, r, sid));
    assert(!apart(f, scope, d, r));
    assert(shown_root(f, scope, r) == shown_root(g, scope, r));
    let k = choose|k: int| 0 <= k < t.len() && crate::store::names(f.layer, #[trigger] t[k], sym);
    assert(crate::store::names(g.layer, tree(g.layer.entries, r)[k], sym));
    assert(within_root(g, r, n));
    lemma_root_near(g, sym, scope, n, r);
    assert(denies(g.layer, n, sid));
}

proof fn lemma_heard_kept(f: Facts, g: Facts, scope: Scope, d: Set<SymbolId>, sym: SymbolId, sid: SentenceId)
    requires
        same_evidence(f, g, scope, d),
        near(f, sym, scope, sid),
        !denied(f, sym, scope, sid),
        d.contains(sym),
        bears(f, scope, sid, sym),
    ensures
        near(g, sym, scope, sid),
        !denied(g, sym, scope, sid),
{
    lemma_near_kept(f, g, scope, d, sym, sid);
    if denied(g, sym, scope, sid) {
        lemma_same_evidence_back(f, g, scope, d);
        lemma_bears_alike(f, g, scope, d, sid, sym);
        lemma_denied_kept(g, f, scope, d, sym, sid);
    }
}

proof fn lemma_takes_kept(
    f: Facts,
    g: Facts,
    scope: Scope,
    d: Set<SymbolId>,
    ps: Seq<Part>,
    sym: SymbolId,
    what: RelationDomain,
)
    requires
        same_evidence(f, g, scope, d),
        place_takes(f, scope, ps, sym, what),
    ensures
        place_takes(g, scope, ps, sym, what),
        names_arg(ps, sym),
        head_of(ps) matches Some(h) && domain_of(f, scope, h).len() > 0,
{
    let k = choose|k: int| #[trigger] takes_at(f, scope, ps, sym, what, k);
    let h = head_of(ps)->0;
    assert(domain_of(f, scope, h) == domain_of(g, scope, h));
    assert(takes_at(g, scope, ps, sym, what, k));
    assert(end_id(ps[k]) == Some(sym));
}

proof fn lemma_equation_kept(
    f: Facts,
    g: Facts,
    scope: Scope,
    d: Set<SymbolId>,
    ps: Seq<Part>,
    sym: SymbolId,
    c: SymbolId,
)
    requires
        same_evidence(f, g, scope, d),
    ensures
        equation_gives(f, scope, ps, sym, c) ==> equation_gives(g, scope, ps, sym, c) && names_arg(ps, sym),
        equals_kind(f, scope, ps, sym, c) ==> equals_kind(g, scope, ps, sym, c) && names_arg(ps, sym),
{
    if ps.len() == 3 {
        assert(end_id(ps[1]) == Some(sym) ==> names_arg(ps, sym));
        assert(end_id(ps[2]) == Some(sym) ==> names_arg(ps, sym));
        lemma_side_range(f, g, scope, d, ps[1]);
        lemma_side_range(f, g, scope, d, ps[2]);
    }
}

proof fn lemma_side_range(f: Facts, g: Facts, scope: Scope, d: Set<SymbolId>, p: Part)
    requires
        same_evidence(f, g, scope, d),
    ensures
        p matches Part::Sub(s) ==> (body(f.layer, s) matches Some(qs) ==> (head_of(qs) matches Some(h) ==> range_of(
            f,
            scope,
            h,
        ) == range_of(g, scope, h))),
{
}

proof fn lemma_told_kept(f: Facts, g: Facts, scope: Scope, d: Set<SymbolId>, sym: SymbolId, c: SymbolId)
    requires
        same_evidence(f, g, scope, d),
        d.contains(sym),
        told_class(f, scope, sym, c),
    ensures
        told_class(g, scope, sym, c),
{
    let sid = choose|sid: SentenceId| #[trigger]
        near(f, sym, scope, sid) && !denied(f, sym, scope, sid) && gives(f, scope, sym, sid, c);
    let ps = body(f.layer, sid)->0;
    lemma_equation_kept(f, g, scope, d, ps, sym, c);
    if place_takes(f, scope, ps, sym, RelationDomain::Domain(c)) {
        lemma_takes_kept(f, g, scope, d, ps, sym, RelationDomain::Domain(c));
    }
    if instance_gives(f, ps, sym, c) {
        assert(end_id(ps[1]) == Some(sym));
    }
    assert(gives(g, scope, sym, sid, c));
    assert(bears(f, scope, sid, sym));
    lemma_heard_kept(f, g, scope, d, sym, sid);
}

proof fn lemma_told_is_class_kept(f: Facts, g: Facts, scope: Scope, d: Set<SymbolId>, sym: SymbolId)
    requires
        same_evidence(f, g, scope, d),
        d.contains(sym),
        told_is_class(f, scope, sym),
    ensures
        told_is_class(g, scope, sym),
{
    let sid = choose|sid: SentenceId| #[trigger]
        near(f, sym, scope, sid) && !denied(f, sym, scope, sid) && shows_class(f, scope, sym, sid);
    let ps = body(f.layer, sid)->0;
    if place_takes_kind(f, scope, ps, sym) {
        let c = choose|c: SymbolId| #[trigger] place_takes(f, scope, ps, sym, RelationDomain::DomainSubclass(c));
        lemma_takes_kept(f, g, scope, d, ps, sym, RelationDomain::DomainSubclass(c));
        assert(place_takes_kind(g, scope, ps, sym));
    }
    if equation_gives_kind(f, scope, ps, sym) {
        let c = choose|c: SymbolId| #[trigger] equals_kind(f, scope, ps, sym, c);
        lemma_equation_kept(f, g, scope, d, ps, sym, c);
        assert(equation_gives_kind(g, scope, ps, sym));
    }
    assert(shows_class(g, scope, sym, sid));
    assert(bears(f, scope, sid, sym));
    lemma_heard_kept(f, g, scope, d, sym, sid);
}

proof fn lemma_equal_kept(f: Facts, g: Facts, scope: Scope, d: Set<SymbolId>, a: SymbolId, b: SymbolId)
    requires
        same_evidence(f, g, scope, d),
        d.contains(a),
        equal_to(f, scope, a, b),
    ensures
        equal_to(g, scope, a, b),
{
    let sid = choose|sid: SentenceId| #[trigger]
        near(f, a, scope, sid) && !denied(f, a, scope, sid) && (body(f.layer, sid) matches Some(ps) && equates(ps, a, b));
    let ps = body(f.layer, sid)->0;
    assert(end_id(ps[1]) == Some(a) || end_id(ps[2]) == Some(a));
    assert(bears(f, scope, sid, a));
    lemma_heard_kept(f, g, scope, d, a, sid);
}

proof fn lemma_path_within(f: Facts, scope: Scope, d: Set<SymbolId>, p: Seq<SymbolId>, i: int)
    requires
        closed_under(f, scope, d),
        equal_path(f, scope, p),
        d.contains(p[0]),
        0 <= i < p.len(),
    ensures
        d.contains(p[i]),
    decreases i,
{
    if i > 0 {
        lemma_path_within(f, scope, d, p, i - 1);
        assert(equal_to(f, scope, p[i - 1], p[i]));
    }
}

proof fn lemma_closed_kept(f: Facts, g: Facts, scope: Scope, d: Set<SymbolId>)
    requires
        same_evidence(f, g, scope, d),
        closed_under(f, scope, d),
    ensures
        closed_under(g, scope, d),
{
    lemma_same_evidence_back(f, g, scope, d);
    assert forall|a: SymbolId, b: SymbolId| d.contains(a) && #[trigger] equal_to(g, scope, a, b) implies d.contains(b) by {
        lemma_equal_kept(g, f, scope, d, a, b);
    }
}

proof fn lemma_same_thing_kept(f: Facts, g: Facts, scope: Scope, d: Set<SymbolId>, a: SymbolId, b: SymbolId)
    requires
        same_evidence(f, g, scope, d),
        closed_under(f, scope, d),
        d.contains(a),
        same_thing(f, scope, a, b),
    ensures
        same_thing(g, scope, a, b),
        d.contains(b),
{
    let p = choose|p: Seq<SymbolId>| equal_between(f, scope, a, b, p);
    assert forall|i: int| 0 <= i < p.len() implies d.contains(#[trigger] p[i]) by {
        lemma_path_within(f, scope, d, p, i);
    }
    assert forall|i: int, j: int| 0 <= i < p.len() && j == i + 1 && j < p.len() implies equal_to(
        g,
        scope,
        #[trigger] p[i],
        #[trigger] p[j],
    ) by {
        assert(equal_to(f, scope, p[i], p[j]));
        lemma_equal_kept(f, g, scope, d, p[i], p[j]);
    }
    assert(equal_path(g, scope, p));
    assert(equal_between(g, scope, a, b, p));
}

proof fn lemma_evident_kept(f: Facts, g: Facts, scope: Scope, d: Set<SymbolId>, sym: SymbolId, c: SymbolId)
    requires
        same_evidence(f, g, scope, d),
        closed_under(f, scope, d),
        d.contains(sym),
        evident(f, scope, sym, c),
    ensures
        evident(g, scope, sym, c),
{
    let m = choose|m: SymbolId| #[trigger] same_thing(f, scope, sym, m) && member_gives(f, scope, m, c);
    lemma_same_thing_kept(f, g, scope, d, sym, m);
    if told_class(f, scope, m, c) {
        lemma_told_kept(f, g, scope, d, m, c);
    }
    assert(member_gives(g, scope, m, c));
}

proof fn lemma_evident_class_kept(f: Facts, g: Facts, scope: Scope, d: Set<SymbolId>, sym: SymbolId)
    requires
        same_evidence(f, g, scope, d),
        closed_under(f, scope, d),
        d.contains(sym),
        evident_class(f, scope, sym),
    ensures
        evident_class(g, scope, sym),
{
    let m = choose|m: SymbolId| #[trigger] same_thing(f, scope, sym, m) && told_is_class(f, scope, m);
    lemma_same_thing_kept(f, g, scope, d, sym, m);
    lemma_told_is_class_kept(f, g, scope, d, m);
}

/// The evidence is the same.
proof fn lemma_evidence_alike(f: Facts, g: Facts, scope: Scope, d: Set<SymbolId>, sym: SymbolId)
    requires
        same_evidence(f, g, scope, d),
        closed_under(f, scope, d),
        d.contains(sym),
    ensures
        forall|m: SymbolId| #[trigger] same_thing(f, scope, sym, m) ==> d.contains(m),
        forall|c: SymbolId| #[trigger] evident(f, scope, sym, c) == evident(g, scope, sym, c),
        evidence(f, scope, sym) == evidence(g, scope, sym),
        evident_class(f, scope, sym) == evident_class(g, scope, sym),
        forall|m: SymbolId| #[trigger] same_thing(f, scope, sym, m) == same_thing(g, scope, sym, m),
{
    lemma_same_evidence_back(f, g, scope, d);
    lemma_closed_kept(f, g, scope, d);
    assert forall|m: SymbolId| #[trigger] same_thing(f, scope, sym, m) implies d.contains(m) by {
        lemma_same_thing_kept(f, g, scope, d, sym, m);
    }
    assert forall|c: SymbolId| #[trigger] evident(f, scope, sym, c) == evident(g, scope, sym, c) by {
        if evident(f, scope, sym, c) {
            lemma_evident_kept(f, g, scope, d, sym, c);
        }
        if evident(g, scope, sym, c) {
            lemma_evident_kept(g, f, scope, d, sym, c);
        }
    }
    assert(evidence(f, scope, sym) =~= evidence(g, scope, sym));
    if evident_class(f, scope, sym) {
        lemma_evident_class_kept(f, g, scope, d, sym);
    }
    if evident_class(g, scope, sym) {
        lemma_evident_class_kept(g, f, scope, d, sym);
    }
    assert forall|m: SymbolId| #[trigger] same_thing(f, scope, sym, m) == same_thing(g, scope, sym, m) by {
        if same_thing(f, scope, sym, m) {
            lemma_same_thing_kept(f, g, scope, d, sym, m);
        }
        if same_thing(g, scope, sym, m) {
            lemma_same_thing_kept(g, f, scope, d, sym, m);
        }
    }
}

/// The symbol is the same thing, and the taxonomy says something of it.
pub open spec fn tells(f: Facts, scope: Scope, q: Set<SymbolId>, sym: SymbolId, m: SymbolId) -> bool {
    same_thing(f, scope, sym, m) && !(outcome_via(f, scope, q, m) is Unknown)
}

/// Among the symbols that tell something one is least.
proof fn lemma_least(f: Facts, scope: Scope, q: Set<SymbolId>, sym: SymbolId, m: SymbolId) -> (l: SymbolId)
    requires
        tells(f, scope, q, sym, m),
    ensures
        tells(f, scope, q, sym, l),
        forall|n: SymbolId| #[trigger] tells(f, scope, q, sym, n) ==> l <= n,
    decreases m,
{
    if exists|n: SymbolId| #[trigger] tells(f, scope, q, sym, n) && n < m {
        let n = choose|n: SymbolId| #[trigger] tells(f, scope, q, sym, n) && n < m;
        lemma_least(f, scope, q, sym, n)
    } else {
        m
    }
}

/// What the taxonomy settles is what it says of the least.
proof fn lemma_settled_least(f: Facts, scope: Scope, q: Set<SymbolId>, sym: SymbolId, l: SymbolId)
    requires
        tells(f, scope, q, sym, l),
        forall|n: SymbolId| #[trigger] tells(f, scope, q, sym, n) ==> l <= n,
    ensures
        settled_via(f, scope, q, sym) == outcome_via(f, scope, q, l),
{
    assert(forall|n: SymbolId| #[trigger]
        same_thing(f, scope, sym, n) && !(outcome_via(f, scope, q, n) is Unknown) ==> tells(f, scope, q, sym, n));
    assert(same_thing(f, scope, sym, l) && !(outcome_via(f, scope, q, l) is Unknown));
    let m = choose|m: SymbolId| #[trigger]
        same_thing(f, scope, sym, m) && !(outcome_via(f, scope, q, m) is Unknown) && forall|n: SymbolId|
            #[trigger] same_thing(f, scope, sym, n) && !(outcome_via(f, scope, q, n) is Unknown) ==> m <= n;
    assert(tells(f, scope, q, sym, m));
    assert(m == l);
}

proof fn lemma_inferred_alike(f: Facts, g: Facts, scope: Scope, d: Set<SymbolId>, path: Set<SymbolId>, sym: SymbolId)
    requires
        same_evidence(f, g, scope, d),
        closed_under(f, scope, d),
        d.contains(sym),
    ensures
        inferred_via(f, scope, path, sym) == inferred_via(g, scope, path, sym),
    decreases range_steps(f).insert(sym).difference(path).len(), 0nat, 0nat,
{
    if !path.contains(sym) {
        lemma_evidence_alike(f, g, scope, d, sym);
        if exists|c: SymbolId| evident(f, scope, sym, c) {
            let c = choose|c: SymbolId| evident(f, scope, sym, c);
            assert(evident(g, scope, sym, c));
        } else {
            assert forall|c: SymbolId| !evident(g, scope, sym, c) by {
                assert(evident(f, scope, sym, c) == evident(g, scope, sym, c));
            }
            if !evident_class(f, scope, sym) {
                lemma_asking(f, path, sym);
                lemma_settled_alike(f, g, scope, d, path.insert(sym), sym);
            }
        }
    }
}

proof fn lemma_settled_alike(f: Facts, g: Facts, scope: Scope, d: Set<SymbolId>, q: Set<SymbolId>, sym: SymbolId)
    requires
        same_evidence(f, g, scope, d),
        closed_under(f, scope, d),
        d.contains(sym),
    ensures
        settled_via(f, scope, q, sym) == settled_via(g, scope, q, sym),
    decreases left_to_ask(f, q), 3nat, 0nat,
{
    lemma_evidence_alike(f, g, scope, d, sym);
    assert forall|m: SymbolId| #[trigger] tells(f, scope, q, sym, m) == tells(g, scope, q, sym, m) by {
        assert(same_thing(f, scope, sym, m) == same_thing(g, scope, sym, m));
        if same_thing(f, scope, sym, m) {
            lemma_outcome_alike(f, g, scope, d, q, m);
        }
    }
    if exists|m: SymbolId| #[trigger] tells(f, scope, q, sym, m) {
        let m = choose|m: SymbolId| #[trigger] tells(f, scope, q, sym, m);
        let l = lemma_least(f, scope, q, sym, m);
        lemma_settled_least(f, scope, q, sym, l);
        assert(tells(g, scope, q, sym, l));
        assert forall|n: SymbolId| #[trigger] tells(g, scope, q, sym, n) implies l <= n by {
            assert(tells(f, scope, q, sym, n));
        }
        lemma_settled_least(g, scope, q, sym, l);
        lemma_outcome_alike(f, g, scope, d, q, l);
    } else {
        assert forall|m: SymbolId| #[trigger] same_thing(f, scope, sym, m) implies outcome_via(f, scope, q, m) is Unknown by {
            assert(!tells(f, scope, q, sym, m));
        }
        assert forall|m: SymbolId| #[trigger] same_thing(g, scope, sym, m) implies outcome_via(g, scope, q, m) is Unknown by {
            assert(!tells(f, scope, q, sym, m));
            assert(!tells(g, scope, q, sym, m));
        }
    }
}

proof fn lemma_outcome_alike(f: Facts, g: Facts, scope: Scope, d: Set<SymbolId>, q: Set<SymbolId>, m: SymbolId)
    requires
        same_evidence(f, g, scope, d),
        closed_under(f, scope, d),
        d.contains(m),
    ensures
        outcome_via(f, scope, q, m) == outcome_via(g, scope, q, m),
    decreases left_to_ask(f, q), 2nat, 0nat,
{
    lemma_inherited_alike(f, g, scope, d, q, parents(f.edges, m, scope));
}

proof fn lemma_inherited_alike(f: Facts, g: Facts, scope: Scope, d: Set<SymbolId>, q: Set<SymbolId>, ps: Seq<Above>)
    requires
        same_evidence(f, g, scope, d),
        closed_under(f, scope, d),
        forall|i: int| 0 <= i < ps.len() && lends(#[trigger] ps[i]) ==> d.contains(ps[i].0),
    ensures
        inherited_via(f, scope, q, ps) == inherited_via(g, scope, q, ps),
    decreases left_to_ask(f, q), 1nat, ps.len(),
{
    if ps.len() > 0 {
        let rest = ps.drop_last();
        assert forall|i: int| 0 <= i < rest.len() && lends(#[trigger] rest[i]) implies d.contains(rest[i].0) by {
            assert(rest[i] == ps[i]);
        }
        lemma_inherited_alike(f, g, scope, d, q, rest);
        let p = ps.last().0;
        if lends(ps[ps.len() - 1]) && !q.contains(p) && range_steps(f).contains(p) {
            lemma_asking(f, q, p);
            lemma_inferred_alike(f, g, scope, d, q, p);
        }
    }
}

// ---------------------------------------------------------------------------
// A change that says nothing about a class
// ---------------------------------------------------------------------------

/// The scope sees the root that the change names before and after, or neither
/// before nor after.
pub open spec fn steady(rs: Seq<RootView>, scope: Scope, c: Change) -> bool {
    match c {
        Change::Promoted { sid } => is_root(rs, sid) ==> seen_in(rs[root_place(rs, sid)], scope) == seen_in(
            RootView { promoted: true, ..rs[root_place(rs, sid)] },
            scope,
        ),
        Change::Removed { sid } => is_root(rs, sid) ==> !seen_in(rs[root_place(rs, sid)], scope),
        _ => elsewhere(c, scope),
    }
}

/// The change says nothing about the classes of the symbols in the scope: it
/// concerns another session, or a root that declares neither a domain nor a
/// range and either shows in the scope as before or says nothing about them.
pub open spec fn undisturbed(f: Facts, scope: Scope, c: Change, d: Set<SymbolId>) -> bool {
    elsewhere(c, scope) || (named(c) matches Some(sid) && silent(f, Facet::Domain, sid) && silent(f, Facet::Range, sid)
        && (steady(f.layer.roots, scope, c) || apart(f, scope, d, sid)))
}

/// The change says nothing about what the class of the symbol depends on.
pub open spec fn unmoved(f: Facts, k: MemoKey, c: Change) -> bool {
    exists|d: Set<SymbolId>| #[trigger] d.contains(k.1) && closed_under(f, k.0, d) && undisturbed(f, k.0, c, d)
}

/// The root of the sentence, seen in the scope.
pub open spec fn one_root(scope: Scope, r: SentenceId) -> spec_fn(RootView) -> bool {
    |x: RootView| seen_in(x, scope) && x.sid == r
}

proof fn lemma_root_blind(f: Facts, scope: Scope, c: Change, r: SentenceId)
    requires
        named(c) != Some(r) || steady(f.layer.roots, scope, c) || elsewhere(c, scope),
        named(c) is None ==> elsewhere(c, scope),
    ensures
        blind(f.layer.roots, c, one_root(scope, r)),
{
    let rs = f.layer.roots;
    if let Some(sid) = named(c) {
        if is_root(rs, sid) {
            assert(root_is(rs, sid, root_place(rs, sid)));
        }
    }
    if let Change::Retracted { session } = c {
        let p = one_root(scope, r);
        assert forall|x: RootView| #[trigger] p(x) == p(without_session(x, session)) by {
            assert(seen_in(x, scope) == seen_in(without_session(x, session), scope));
        }
    }
}

proof fn lemma_shown_kept(f: Facts, scope: Scope, c: Change, r: SentenceId)
    requires
        possible(f.layer, c),
        named(c) != Some(r) || steady(f.layer.roots, scope, c) || elsewhere(c, scope),
        named(c) is None ==> elsewhere(c, scope),
    ensures
        shown_root(facts_after(f, c), scope, r) == shown_root(f, scope, r),
{
    let p = one_root(scope, r);
    lemma_root_blind(f, scope, c, r);
    lemma_blind(f.layer, c, p);
    lemma_shown_picked(f, scope, r);
    lemma_shown_picked(facts_after(f, c), scope, r);
}

proof fn lemma_shown_picked(f: Facts, scope: Scope, r: SentenceId)
    ensures
        shown_root(f, scope, r) == picked(f.layer.roots, one_root(scope, r)).contains(r),
{
    let rs = f.layer.roots;
    let p = one_root(scope, r);
    lemma_picked(rs, p, r);
    if shown_root(f, scope, r) {
        let i = choose|i: int| 0 <= i < rs.len() && seen_in(#[trigger] rs[i], scope) && rs[i].sid == r;
        assert(p(rs[i]) && rs[i].sid == r);
    }
    if picked(rs, p).contains(r) {
        let i = choose|i: int| 0 <= i < rs.len() && p(#[trigger] rs[i]) && rs[i].sid == r;
        assert(seen_in(rs[i], scope));
    }
}

/// A change that declares nothing leaves the declarations.
proof fn lemma_declarations_kept(f: Facts, facet: Facet, scope: Scope, c: Change)
    requires
        roots_distinct(f.layer.roots),
        possible(f.layer, c),
        facts_after(f, c).edges == f.edges,
        elsewhere(c, scope) || (named(c) matches Some(sid) && silent(f, facet, sid)),
    ensures
        same_signatures(f, facts_after(f, c), facet, scope),
{
    let g = facts_after(f, c);
    let (rs, ts) = (f.layer.roots, g.layer.roots);
    assert forall|h: SymbolId, rel: SymbolId| declares(f.roles, facet, h) implies #[trigger] declarations(
        f,
        h,
        rel,
        scope,
    ) == declarations(g, h, rel, scope) by {
        let (p, q) = (about(f.layer, h, rel, scope), about(g.layer, h, rel, scope));
        lemma_picked_alike(ts, p, q);
        lemma_about_blind(f, facet, scope, c, h, rel);
        lemma_blind(f.layer, c, p);
    }
    assert forall|h: SymbolId, rel: SymbolId, k: int|
        declares(f.roles, facet, h) && 0 <= k < declarations(f, h, rel, scope).len() implies promoted_alike(
        f,
        g,
        #[trigger] declarations(f, h, rel, scope)[k],
    ) by {
        let p = about(f.layer, h, rel, scope);
        lemma_picked_in(rs, p, k);
        let i = choose|i: int| 0 <= i < rs.len() && p(#[trigger] rs[i]) && rs[i].sid == picked(rs, p)[k];
        assert(root_is(rs, rs[i].sid, i));
        lemma_promotion_kept(rs, c, rs[i].sid);
    }
}

/// Remembered classes that were true before a change are true of what is
/// remembered after it, where the change says nothing about what they depend on.
/// A session that takes hold of a root is forgotten itself, and is nothing to
/// the other scopes.
pub proof fn law_inferences_follow_changes(m: Map<MemoKey, ClassInference>, f: Facts, c: Change)
    requires
        entries_ordered(f.layer.entries),
        roots_distinct(f.layer.roots),
        possible(f.layer, c),
        inferences_true(m, f),
        forall|k: MemoKey| #[trigger] inferences_left(facts_after(f, c), m, reports(f, c)).dom().contains(k)
            ==> c is Referenced || unmoved(f, k, c),
    ensures
        inferences_true(inferences_left(facts_after(f, c), m, reports(f, c)), facts_after(f, c)),
{
    let g = facts_after(f, c);
    let es = reports(f, c);
    let left = inferences_left(g, m, es);
    if !(exists|i: int| 0 <= i < es.len() && forgets_all(#[trigger] es[i])) {
        assert forall|i: int| 0 <= i < es.len() implies !(#[trigger] es[i] is TaxonomyChanged) by {
            assert(!forgets_all(es[i]));
        }
        lemma_quiet_taxonomy(f, c);
        assert forall|k: MemoKey| #[trigger] left.dom().contains(k) implies left[k]@ == inferred_of(g, k.0, k.1)
            && listed_once(left[k]) by {
            assert(m.dom().contains(k));
            assert(!forgotten(g, es, k));
            if let Change::Referenced { sid, session } = c {
                assert(es[0] == root_reports(f.layer, c)[0]);
                assert(!forgets_scope(es[0], k.0));
                assert(elsewhere(c, k.0));
                assert(Set::<SymbolId>::full().contains(k.1));
            }
            let d = choose|d: Set<SymbolId>| #[trigger]
                d.contains(k.1) && closed_under(f, k.0, d) && undisturbed(f, k.0, c, d);
            lemma_unmoved(f, c, k.0, k.1, d);
        }
    }
}

/// What is inferred of a symbol stays the same.
proof fn lemma_unmoved(f: Facts, c: Change, scope: Scope, sym: SymbolId, d: Set<SymbolId>)
    requires
        entries_ordered(f.layer.entries),
        roots_distinct(f.layer.roots),
        possible(f.layer, c),
        facts_after(f, c).edges == f.edges,
        d.contains(sym),
        closed_under(f, scope, d),
        undisturbed(f, scope, c, d),
    ensures
        inferred_of(f, scope, sym) == inferred_of(facts_after(f, c), scope, sym),
{
    let g = facts_after(f, c);
    assert(elsewhere(c, scope) ==> elsewhere(c, Scope::Base));
    lemma_declarations_kept(f, Facet::Domain, scope, c);
    lemma_declarations_kept(f, Facet::Range, scope, c);
    lemma_declarations_kept(f, Facet::Range, Scope::Base, c);
    assert forall|h: SymbolId| #[trigger] domain_of(f, scope, h) == domain_of(g, scope, h) by {
        lemma_same_domain(f, g, scope, Set::empty(), h);
    }
    assert forall|h: SymbolId| #[trigger] range_of(f, scope, h) == range_of(g, scope, h) by {
        lemma_same_range(f, g, scope, Set::empty(), h);
    }
    assert forall|r: SentenceId| !apart(f, scope, d, r) implies #[trigger] shown_root(f, scope, r) == shown_root(
        g,
        scope,
        r,
    ) by {
        lemma_shown_kept(f, scope, c, r);
    }
    lemma_inferred_alike(f, g, scope, d, Set::empty(), sym);
}

} // verus!
