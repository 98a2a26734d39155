//! Remembered domains and ranges are true again once a change was taken in, and
//! what a relation declares for itself.
use vstd::prelude::*;

use crate::changes::{
    facts_after, in_step, law_changes_keep_the_taxonomy_in_step, lemma_picked_alike, lemma_picked_push,
    lemma_picked_retracted, possible, reports, root_reports, roots_after, Change,
};
use crate::content::Part;
use crate::events::{ErrorView, EventView};
use crate::inferred_laws::lemma_picked;
use crate::memo::MemoKey;
use crate::roles::TaxRelation;
use crate::semantic::{counts_in, parents, Above, Facts};
use crate::signature::{
    all_claims, claimed, claims, class_at_via, declarations, declared_domains, declared_via, denoted_via, domain_above,
    domain_extracted, domain_of, domain_via, first_class_via, last_claim, law_own_domain_wins, lemma_above_keeps, lemma_asking,
    lemma_head_asked, lemma_parent_asked, lemma_trimmed, lemma_width_bounds, left_to_ask, name_of, place_at, range_above,
    range_extracted, range_of, range_steps, range_via, resolved_via, width, Claim, RelationDomain, RelationRange,
};
use crate::signature_cache::{
    declares, domains_true, double_range, effect, effects, ranges_true, sub_child, sub_child_of, survivors, touched, touched_all, Facet,
};
use crate::store::{
    about, body, head_of, is_promoted, is_root, lemma_retracted, lemma_root_place, picked, retracted, root_is,
    root_place, roots_distinct, seen_in, without_session, LayerView, RootView, Scope, SessionId,
};
use crate::taxonomy::{edge_stated, lemma_rebuilt_entries, rebuilt, roots_live, scopes_where};
use crate::types::{SentenceId, SymbolId};

verus! {

/// The sentence, if it declares a domain or a range, does so in full and names
/// the class.
pub open spec fn plain(f: Facts, sid: SentenceId) -> bool {
    match body(f.layer, sid) {
        None => true,
        Some(ps) => match head_of(ps) {
            None => true,
            Some(h) => {
                &&& declares(f.roles, Facet::Domain, h) ==> ps.len() == 4 && ps[1] is Sym && place_at(ps) is Some
                    && ps[3] is Sym
                &&& declares(f.roles, Facet::Range, h) ==> ps.len() == 3 && ps[1] is Sym && ps[2] is Sym
            },
        },
    }
}

/// Every root that declares a domain or a range names the class.
pub open spec fn all_plain(f: Facts) -> bool {
    forall|i: int| 0 <= i < f.layer.roots.len() ==> plain(f, (#[trigger] f.layer.roots[i]).sid)
}

/// The sentence does not declare the thing.
pub open spec fn silent(f: Facts, facet: Facet, sid: SentenceId) -> bool {
    match body(f.layer, sid) {
        None => true,
        Some(ps) => match head_of(ps) {
            None => true,
            Some(h) => !declares(f.roles, facet, h),
        },
    }
}

/// The sentence neither declares the thing nor puts a relation below another.
pub open spec fn quiet(f: Facts, facet: Facet, sid: SentenceId) -> bool {
    sub_child(f, sid) is None && silent(f, facet, sid)
}

// ---------------------------------------------------------------------------
// What domains and ranges depend on
// ---------------------------------------------------------------------------

/// The relations among what is above.
pub open spec fn subs(ps: Seq<Above>) -> Seq<Above>
    decreases ps.len(),
{
    if ps.len() == 0 {
        Seq::empty()
    } else if ps.last().1 == TaxRelation::Subrelation {
        subs(ps.drop_last()).push(ps.last())
    } else {
        subs(ps.drop_last())
    }
}

/// The two facts give the scope the same declarations, read alike, and the same
/// relations above relations.
pub open spec fn same_signatures(f: Facts, g: Facts, facet: Facet, scope: Scope) -> bool {
    &&& f.layer.entries == g.layer.entries
    &&& f.layer.names == g.layer.names
    &&& f.roles == g.roles
    &&& forall|h: SymbolId, rel: SymbolId|
        declares(f.roles, facet, h) ==> #[trigger] declarations(f, h, rel, scope) == declarations(g, h, rel, scope)
    &&& forall|h: SymbolId, rel: SymbolId, k: int|
        declares(f.roles, facet, h) && 0 <= k < declarations(f, h, rel, scope).len() ==> promoted_alike(
            f,
            g,
            #[trigger] declarations(f, h, rel, scope)[k],
        )
    &&& forall|rel: SymbolId| #[trigger] subs(parents(f.edges, rel, scope)) == subs(parents(g.edges, rel, scope))
}

/// The sentence is promoted in both or in neither.
pub open spec fn promoted_alike(f: Facts, g: Facts, sid: SentenceId) -> bool {
    is_promoted(f.layer.roots, sid) == is_promoted(g.layer.roots, sid)
}

/// The sentence is a plain one with the head.
pub open spec fn plain_with(f: Facts, h: SymbolId, sid: SentenceId) -> bool {
    plain(f, sid) && (body(f.layer, sid) matches Some(ps) && head_of(ps) == Some(h))
}

proof fn lemma_claims_alike(f: Facts, g: Facts, rel: SymbolId, head: SymbolId, sids: Seq<SentenceId>)
    requires
        f.layer.entries == g.layer.entries,
        f.layer.names == g.layer.names,
        f.roles == g.roles,
        declares(f.roles, Facet::Domain, head),
        forall|k: int| 0 <= k < sids.len() ==> promoted_alike(f, g, #[trigger] sids[k]),
        same_signatures(f, g, Facet::Range, Scope::Base) || (forall|k: int|
            0 <= k < sids.len() ==> plain_with(f, head, #[trigger] sids[k])),
    ensures
        claims(f, rel, head, sids) == claims(g, rel, head, sids),
    decreases sids.len(),
{
    if sids.len() > 0 {
        let d = sids.drop_last();
        assert forall|k: int| 0 <= k < d.len() implies promoted_alike(f, g, #[trigger] d[k]) by {
            assert(d[k] == sids[k]);
        }
        if !same_signatures(f, g, Facet::Range, Scope::Base) {
            assert forall|k: int| 0 <= k < d.len() implies plain_with(f, head, #[trigger] d[k]) by {
                assert(d[k] == sids[k]);
            }
            assert(plain_with(f, head, sids[sids.len() - 1]));
        } else if let Some(ps) = body(f.layer, sids.last()) {
            if ps.len() > 3 {
                lemma_same_denoted(f, g, Scope::Base, Set::empty(), ps[3]);
            }
        }
        lemma_claims_alike(f, g, rel, head, d);
        assert(promoted_alike(f, g, sids[sids.len() - 1]));
        if let Some(ps) = body(f.layer, sids.last()) {
            assert(domain_extracted(f, head, sids.last(), ps) == domain_extracted(g, head, sids.last(), ps));
        }
    }
}

proof fn lemma_declared_plain(f: Facts, h: SymbolId, rel: SymbolId, scope: Scope)
    requires
        all_plain(f),
    ensures
        forall|k: int|
            0 <= k < declarations(f, h, rel, scope).len() ==> plain_with(f, h, #[trigger] declarations(f, h, rel, scope)[k]),
{
    let rs = f.layer.roots;
    let p = about(f.layer, h, rel, scope);
    assert forall|k: int| 0 <= k < declarations(f, h, rel, scope).len() implies plain_with(
        f,
        h,
        #[trigger] declarations(f, h, rel, scope)[k],
    ) by {
        lemma_picked_in(rs, p, k);
        let i = choose|i: int| 0 <= i < rs.len() && p(#[trigger] rs[i]) && rs[i].sid == picked(rs, p)[k];
        assert(plain(f, rs[i].sid));
    }
}

proof fn lemma_declared_alike(f: Facts, g: Facts, rel: SymbolId, scope: Scope)
    requires
        same_signatures(f, g, Facet::Domain, scope),
        all_plain(f) || same_signatures(f, g, Facet::Range, Scope::Base),
    ensures
        declared_domains(f, rel, scope) == declared_domains(g, rel, scope),
{
    let (a, b) = (f.roles.domain, f.roles.domain_subclass);
    assert(declares(f.roles, Facet::Domain, a) && declares(f.roles, Facet::Domain, b));
    if all_plain(f) {
        lemma_declared_plain(f, a, rel, scope);
        lemma_declared_plain(f, b, rel, scope);
    }
    assert(declarations(f, a, rel, scope) == declarations(g, a, rel, scope));
    assert(declarations(f, b, rel, scope) == declarations(g, b, rel, scope));
    lemma_claims_alike(f, g, rel, a, declarations(f, a, rel, scope));
    lemma_claims_alike(f, g, rel, b, declarations(f, b, rel, scope));
}

/// What is above other than relations plays no part.
proof fn lemma_domain_above_subs(f: Facts, scope: Scope, q: Set<SymbolId>, own: Seq<RelationDomain>, ps: Seq<Above>)
    ensures
        domain_above(f, scope, q, own, ps) == domain_above(f, scope, q, own, subs(ps)),
    decreases ps.len(),
{
    if ps.len() > 0 {
        let d = ps.drop_last();
        lemma_domain_above_subs(f, scope, q, own, d);
        if ps.last().1 == TaxRelation::Subrelation {
            assert(subs(d).push(ps.last()).drop_last() =~= subs(d));
            assert(subs(ps).last() == ps.last());
        }
    }
}

proof fn lemma_range_above_subs(f: Facts, scope: Scope, q: Set<SymbolId>, ps: Seq<Above>)
    ensures
        range_above(f, scope, q, ps) == range_above(f, scope, q, subs(ps)),
    decreases ps.len(),
{
    if ps.len() > 0 {
        let d = ps.drop_last();
        lemma_range_above_subs(f, scope, q, d);
        if ps.last().1 == TaxRelation::Subrelation {
            assert(subs(d).push(ps.last()).drop_last() =~= subs(d));
            assert(subs(ps).last() == ps.last());
        }
    }
}

proof fn lemma_subs_in(ps: Seq<Above>, k: int)
    requires
        0 <= k < subs(ps).len(),
    ensures
        exists|j: int| 0 <= j < ps.len() && #[trigger] ps[j] == subs(ps)[k],
        subs(ps)[k].1 == TaxRelation::Subrelation,
    decreases ps.len(),
{
    if ps.len() > 0 {
        let d = ps.drop_last();
        if k < subs(d).len() {
            lemma_subs_in(d, k);
            let j = choose|j: int| 0 <= j < d.len() && #[trigger] d[j] == subs(d)[k];
            assert(ps[j] == subs(ps)[k]);
        } else {
            assert(ps[ps.len() - 1] == subs(ps)[k]);
        }
    }
}

/// Every relation above can be asked for.
proof fn lemma_subs_asked(f: Facts, scope: Scope, rel: SymbolId, k: int)
    requires
        0 <= k < subs(parents(f.edges, rel, scope)).len(),
    ensures
        range_steps(f).contains(subs(parents(f.edges, rel, scope))[k].0),
        subs(parents(f.edges, rel, scope))[k].1 == TaxRelation::Subrelation,
{
    let ps = parents(f.edges, rel, scope);
    lemma_subs_in(ps, k);
    let j = choose|j: int| 0 <= j < ps.len() && #[trigger] ps[j] == subs(ps)[k];
    lemma_parent_asked(f, scope, rel, j);
}

/// The domains are the same.
pub proof fn lemma_same_domain(f: Facts, g: Facts, scope: Scope, path: Set<SymbolId>, rel: SymbolId)
    requires
        same_signatures(f, g, Facet::Domain, scope),
        all_plain(f) || same_signatures(f, g, Facet::Range, Scope::Base),
    ensures
        domain_via(f, scope, path, rel) == domain_via(g, scope, path, rel),
    decreases range_steps(f).insert(rel).difference(path).len(), 0nat, 0nat,
{
    if !path.contains(rel) {
        lemma_asking(f, path, rel);
        let q = path.insert(rel);
        let own = declared_domains(f, rel, scope);
        lemma_declared_alike(f, g, rel, scope);
        let us = subs(parents(f.edges, rel, scope));
        assert(us == subs(parents(g.edges, rel, scope)));
        lemma_domain_above_subs(f, scope, q, own, parents(f.edges, rel, scope));
        lemma_domain_above_subs(g, scope, q, own, parents(g.edges, rel, scope));
        assert forall|k: int| 0 <= k < us.len() implies range_steps(f).contains((#[trigger] us[k]).0) && range_steps(
            g,
        ).contains(us[k].0) && us[k].1 == TaxRelation::Subrelation by {
            lemma_subs_asked(f, scope, rel, k);
            lemma_subs_asked(g, scope, rel, k);
        }
        lemma_same_domains_above(f, g, scope, q, own, us);
    }
}

proof fn lemma_same_domains_above(
    f: Facts,
    g: Facts,
    scope: Scope,
    q: Set<SymbolId>,
    own: Seq<RelationDomain>,
    us: Seq<Above>,
)
    requires
        same_signatures(f, g, Facet::Domain, scope),
        all_plain(f) || same_signatures(f, g, Facet::Range, Scope::Base),
        forall|k: int|
            0 <= k < us.len() ==> range_steps(f).contains((#[trigger] us[k]).0) && range_steps(g).contains(us[k].0)
                && us[k].1 == TaxRelation::Subrelation,
    ensures
        domain_above(f, scope, q, own, us) == domain_above(g, scope, q, own, us),
    decreases left_to_ask(f, q), 1nat, us.len(),
{
    if us.len() > 0 {
        let d = us.drop_last();
        assert forall|k: int| 0 <= k < d.len() implies range_steps(f).contains((#[trigger] d[k]).0) && range_steps(
            g,
        ).contains(d[k].0) && d[k].1 == TaxRelation::Subrelation by {
            assert(d[k] == us[k]);
        }
        lemma_same_domains_above(f, g, scope, q, own, d);
        let u = us[us.len() - 1].0;
        if !q.contains(u) {
            lemma_asking(f, q, u);
            lemma_same_domain(f, g, scope, q, u);
        }
    }
}

proof fn lemma_same_denoted(f: Facts, g: Facts, scope: Scope, q: Set<SymbolId>, p: Part)
    requires
        same_signatures(f, g, Facet::Range, scope),
    ensures
        denoted_via(f, scope, q, p) == denoted_via(g, scope, q, p),
    decreases left_to_ask(f, q), 1nat, 0nat,
{
    if let Part::Sub(sid) = p {
        if let Some(ps) = body(f.layer, sid) {
            if let Some(h) = head_of(ps) {
                lemma_head_asked(f, sid, h);
                lemma_head_asked(g, sid, h);
                if !q.contains(h) {
                    lemma_asking(f, q, h);
                    lemma_same_range(f, g, scope, q, h);
                }
            }
        }
    }
}

proof fn lemma_class_alike(f: Facts, g: Facts, scope: Scope, q: Set<SymbolId>, sids: Seq<SentenceId>, base: bool)
    requires
        same_signatures(f, g, Facet::Range, scope),
        forall|k: int| 0 <= k < sids.len() ==> promoted_alike(f, g, #[trigger] sids[k]),
    ensures
        first_class_via(f, scope, q, sids, base) == first_class_via(g, scope, q, sids, base),
    decreases left_to_ask(f, q), 2nat, sids.len(),
{
    if sids.len() > 0 {
        let d = sids.drop_last();
        assert forall|k: int| 0 <= k < d.len() implies promoted_alike(f, g, #[trigger] d[k]) by {
            assert(d[k] == sids[k]);
        }
        lemma_class_alike(f, g, scope, q, d, base);
        assert(promoted_alike(f, g, sids[sids.len() - 1]));
        if let Some(ps) = body(f.layer, sids.last()) {
            if ps.len() > 2 {
                lemma_same_denoted(f, g, scope, q, ps[2]);
            }
        }
        assert(class_at_via(f, scope, q, sids.last()) == class_at_via(g, scope, q, sids.last()));
    }
}

proof fn lemma_range_declared_alike(f: Facts, g: Facts, scope: Scope, q: Set<SymbolId>, rel: SymbolId)
    requires
        same_signatures(f, g, Facet::Range, scope),
    ensures
        declared_via(f, scope, q, rel) == declared_via(g, scope, q, rel),
    decreases left_to_ask(f, q), 4nat, 0nat,
{
    let (a, b) = (f.roles.range, f.roles.range_subclass);
    assert(declares(f.roles, Facet::Range, a) && declares(f.roles, Facet::Range, b));
    assert(declarations(f, a, rel, scope) == declarations(g, a, rel, scope));
    assert(declarations(f, b, rel, scope) == declarations(g, b, rel, scope));
    lemma_class_alike(f, g, scope, q, declarations(f, a, rel, scope), true);
    lemma_class_alike(f, g, scope, q, declarations(f, b, rel, scope), true);
    lemma_class_alike(f, g, scope, q, declarations(f, a, rel, scope), false);
    lemma_class_alike(f, g, scope, q, declarations(f, b, rel, scope), false);
    assert(resolved_via(f, scope, q, rel, true) == resolved_via(g, scope, q, rel, true));
    assert(resolved_via(f, scope, q, rel, false) == resolved_via(g, scope, q, rel, false));
}

/// The ranges are the same.
pub proof fn lemma_same_range(f: Facts, g: Facts, scope: Scope, path: Set<SymbolId>, rel: SymbolId)
    requires
        same_signatures(f, g, Facet::Range, scope),
    ensures
        range_via(f, scope, path, rel) == range_via(g, scope, path, rel),
    decreases range_steps(f).insert(rel).difference(path).len(), 0nat, 0nat,
{
    if !path.contains(rel) {
        lemma_asking(f, path, rel);
        let q = path.insert(rel);
        lemma_range_declared_alike(f, g, scope, q, rel);
        let us = subs(parents(f.edges, rel, scope));
        assert(us == subs(parents(g.edges, rel, scope)));
        lemma_range_above_subs(f, scope, q, parents(f.edges, rel, scope));
        lemma_range_above_subs(g, scope, q, parents(g.edges, rel, scope));
        assert forall|k: int| 0 <= k < us.len() implies range_steps(f).contains((#[trigger] us[k]).0) && range_steps(
            g,
        ).contains(us[k].0) && us[k].1 == TaxRelation::Subrelation by {
            lemma_subs_asked(f, scope, rel, k);
            lemma_subs_asked(g, scope, rel, k);
        }
        lemma_same_ranges_above(f, g, scope, q, us);
    }
}

proof fn lemma_same_ranges_above(f: Facts, g: Facts, scope: Scope, q: Set<SymbolId>, us: Seq<Above>)
    requires
        same_signatures(f, g, Facet::Range, scope),
        forall|k: int|
            0 <= k < us.len() ==> range_steps(f).contains((#[trigger] us[k]).0) && range_steps(g).contains(us[k].0)
                && us[k].1 == TaxRelation::Subrelation,
    ensures
        range_above(f, scope, q, us) == range_above(g, scope, q, us),
    decreases left_to_ask(f, q), 1nat, us.len(),
{
    if us.len() > 0 {
        let d = us.drop_last();
        assert forall|k: int| 0 <= k < d.len() implies range_steps(f).contains((#[trigger] d[k]).0) && range_steps(
            g,
        ).contains(d[k].0) && d[k].1 == TaxRelation::Subrelation by {
            assert(d[k] == us[k]);
        }
        lemma_same_ranges_above(f, g, scope, q, d);
        let u = us[us.len() - 1].0;
        if !q.contains(u) {
            lemma_asking(f, q, u);
            lemma_same_range(f, g, scope, q, u);
        }
    }
}

// ---------------------------------------------------------------------------
// What a change leaves alone
// ---------------------------------------------------------------------------

/// The root puts a relation below another, and the edge counts in the scope.
pub open spec fn sub_in(f: Facts, scope: Scope) -> spec_fn(RootView) -> bool {
    |r: RootView|
        sub_child(f, r.sid) is Some && counts_in_scope(r, scope)
}

/// What the root states counts in the scope.
pub open spec fn counts_in_scope(r: RootView, scope: Scope) -> bool {
    r.promoted || (scope matches Scope::Session(s) && r.sessions.contains(s))
}

/// The relations that the sentences put above the relation, none twice.
pub open spec fn sub_list(f: Facts, sids: Seq<SentenceId>, rel: SymbolId) -> Seq<Above>
    decreases sids.len(),
{
    if sids.len() == 0 {
        Seq::empty()
    } else {
        let s = sub_list(f, sids.drop_last(), rel);
        match edge_stated(f.layer, f.roles, sids.last()) {
            Some(Ok(e)) => if e.to == rel && !s.contains((e.from, e.rel)) {
                s.push((e.from, e.rel))
            } else {
                s
            },
            _ => s,
        }
    }
}

proof fn lemma_subs_hold(ps: Seq<Above>, a: SymbolId)
    ensures
        subs(ps).contains((a, TaxRelation::Subrelation)) == ps.contains((a, TaxRelation::Subrelation)),
    decreases ps.len(),
{
    let x = (a, TaxRelation::Subrelation);
    if ps.len() > 0 {
        let d = ps.drop_last();
        lemma_subs_hold(d, a);
        if ps.contains(x) {
            let j = choose|j: int| 0 <= j < ps.len() && ps[j] == x;
            if j < d.len() {
                assert(d[j] == x);
                let k = choose|k: int| 0 <= k < subs(d).len() && subs(d)[k] == x;
                assert(subs(ps)[k] == x);
            } else {
                assert(subs(ps)[subs(d).len() as int] == x);
            }
        }
        if subs(ps).contains(x) {
            let k = choose|k: int| 0 <= k < subs(ps).len() && subs(ps)[k] == x;
            if k < subs(d).len() {
                assert(subs(d)[k] == x);
                let j = choose|j: int| 0 <= j < d.len() && d[j] == x;
                assert(ps[j] == x);
            } else {
                assert(ps[ps.len() - 1] == x);
            }
        }
    }
}

/// The relations above are those that the roots which count put there.
proof fn lemma_subs_rebuilt(f: Facts, roots: Seq<RootView>, rel: SymbolId, scope: Scope)
    ensures
        subs(parents(rebuilt(f.layer, f.roles, roots), rel, scope)) == sub_list(f, picked(roots, sub_in(f, scope)), rel),
    decreases roots.len(),
{
    if roots.len() > 0 {
        let d = roots.drop_last();
        let r = roots.last();
        lemma_subs_rebuilt(f, d, rel, scope);
        let rs = rebuilt(f.layer, f.roles, d);
        let ps = parents(rs, rel, scope);
        let s = picked(d, sub_in(f, scope));
        assert(s.push(r.sid).drop_last() =~= s);
        if let Some(Ok(e)) = edge_stated(f.layer, f.roles, r.sid) {
            let x = crate::taxonomy::RecordView { sid: r.sid, edge: e, scopes: scopes_where(r.promoted, r.sessions) };
            assert(rs.push(x).drop_last() =~= rs);
            assert(counts_in(x, scope) == counts_in_scope(r, scope)) by {
                assert(x.scopes.contains(Scope::Base) == r.promoted);
            }
            lemma_subs_hold(ps, e.from);
            assert(ps.push((e.from, e.rel)).drop_last() =~= ps);
        }
    }
}

/// The predicate does not notice the change.
pub open spec fn blind(rs: Seq<RootView>, c: Change, p: spec_fn(RootView) -> bool) -> bool {
    match c {
        Change::Added { sid, session } => !p(
            RootView { sid, promoted: false, sessions: Set::empty().insert(session), hidden: Set::empty() },
        ),
        Change::Promoted { sid } => is_root(rs, sid) ==> p(rs[root_place(rs, sid)]) == p(
            RootView { promoted: true, ..rs[root_place(rs, sid)] },
        ),
        Change::Referenced { sid, session } => is_root(rs, sid) ==> p(rs[root_place(rs, sid)]) == p(
            RootView {
                sessions: rs[root_place(rs, sid)].sessions.insert(session),
                ..rs[root_place(rs, sid)]
            },
        ),
        Change::Retracted { session } => {
            &&& forall|r: RootView| #[trigger] p(r) == p(without_session(r, session))
            &&& forall|r: RootView| #[trigger] p(r) && !r.promoted ==> r.sessions != Set::<SessionId>::empty()
        },
        Change::Removed { sid } => is_root(rs, sid) ==> !p(rs[root_place(rs, sid)]),
    }
}

proof fn lemma_picked_update(rs: Seq<RootView>, i: int, r: RootView, p: spec_fn(RootView) -> bool)
    requires
        0 <= i < rs.len(),
        r.sid == rs[i].sid,
        p(r) == p(rs[i]),
    ensures
        picked(rs.update(i, r), p) == picked(rs, p),
    decreases rs.len(),
{
    let d = rs.drop_last();
    if i < d.len() {
        assert(rs.update(i, r).drop_last() =~= d.update(i, r));
        lemma_picked_update(d, i, r, p);
    } else {
        assert(rs.update(i, r).drop_last() =~= d);
    }
}

proof fn lemma_picked_remove(rs: Seq<RootView>, i: int, p: spec_fn(RootView) -> bool)
    requires
        0 <= i < rs.len(),
        !p(rs[i]),
    ensures
        picked(rs.remove(i), p) == picked(rs, p),
    decreases rs.len(),
{
    let d = rs.drop_last();
    if i < d.len() {
        assert(rs.remove(i).drop_last() =~= d.remove(i));
        assert(rs.remove(i).last() == rs.last());
        lemma_picked_remove(d, i, p);
    } else {
        assert(rs.remove(i) =~= d);
    }
}

/// A predicate that does not notice the change picks the same roots.
pub proof fn lemma_blind(v: LayerView, c: Change, p: spec_fn(RootView) -> bool)
    requires
        possible(v, c),
        blind(v.roots, c, p),
    ensures
        picked(roots_after(v.roots, c), p) == picked(v.roots, p),
{
    let rs = v.roots;
    match c {
        Change::Added { sid, session } => {
            let r = RootView { sid, promoted: false, sessions: Set::empty().insert(session), hidden: Set::empty() };
            lemma_picked_push(rs, r, p);
        },
        Change::Promoted { sid } => {
            if is_root(rs, sid) {
                let i = root_place(rs, sid);
                assert(root_is(rs, sid, i));
                lemma_picked_update(rs, i, RootView { promoted: true, ..rs[i] }, p);
            }
        },
        Change::Referenced { sid, session } => {
            let i = root_place(rs, sid);
            assert(root_is(rs, sid, i));
            lemma_picked_update(rs, i, RootView { sessions: rs[i].sessions.insert(session), ..rs[i] }, p);
        },
        Change::Retracted { session } => {
            lemma_picked_retracted(rs, session, p);
        },
        Change::Removed { sid } => {
            if is_root(rs, sid) {
                let i = root_place(rs, sid);
                assert(root_is(rs, sid, i));
                lemma_picked_remove(rs, i, p);
            }
        },
    }
}

pub proof fn lemma_picked_in(rs: Seq<RootView>, p: spec_fn(RootView) -> bool, k: int)
    requires
        0 <= k < picked(rs, p).len(),
    ensures
        exists|i: int| 0 <= i < rs.len() && p(#[trigger] rs[i]) && rs[i].sid == picked(rs, p)[k],
    decreases rs.len(),
{
    if rs.len() > 0 {
        let d = rs.drop_last();
        if k < picked(d, p).len() {
            lemma_picked_in(d, p, k);
            let i = choose|i: int| 0 <= i < d.len() && p(#[trigger] d[i]) && d[i].sid == picked(d, p)[k];
            assert(p(rs[i]) && rs[i].sid == picked(rs, p)[k]);
        } else {
            assert(p(rs[rs.len() - 1]));
        }
    }
}

/// The sentence that the change names.
pub open spec fn named(c: Change) -> Option<SentenceId> {
    match c {
        Change::Added { sid, .. } => Some(sid),
        Change::Promoted { sid } => Some(sid),
        Change::Referenced { sid, .. } => Some(sid),
        Change::Retracted { .. } => None,
        Change::Removed { sid } => Some(sid),
    }
}

/// The change concerns one session alone, and that is not the scope.
pub open spec fn elsewhere(c: Change, scope: Scope) -> bool {
    match c {
        Change::Added { session, .. } => scope != Scope::Session(session),
        Change::Referenced { session, .. } => scope != Scope::Session(session),
        Change::Retracted { session } => scope != Scope::Session(session),
        _ => false,
    }
}

/// The change is none for the scope: it concerns another session, a root that
/// plays no part, or no root.
pub open spec fn harmless(f: Facts, facet: Facet, scope: Scope, c: Change) -> bool {
    ||| elsewhere(c, scope)
    ||| named(c) matches Some(sid) && quiet(f, facet, sid)
    ||| roots_after(f.layer.roots, c) == f.layer.roots
}

proof fn lemma_still_distinct(rs: Seq<RootView>, c: Change)
    requires
        roots_distinct(rs),
    ensures
        roots_distinct(roots_after(rs, c)),
{
    let t = roots_after(rs, c);
    if let Some(n) = named(c) {
        let place = root_place(rs, n);
        if is_root(rs, n) {
            assert(root_is(rs, n, place));
        }
        assert forall|i: int, j: int| 0 <= i < t.len() && 0 <= j < t.len() && i != j implies #[trigger] t[i].sid
            != #[trigger] t[j].sid by {
            if is_root(rs, n) && c is Removed {
                let a: int = if i < place {
                    i
                } else {
                    i + 1
                };
                let b: int = if j < place {
                    j
                } else {
                    j + 1
                };
                assert(t[i] == rs[a] && t[j] == rs[b]);
            } else if !is_root(rs, n) {
                assert(!root_is(rs, n, i) && !root_is(rs, n, j));
            } else {
                assert(t[i].sid == rs[i].sid && t[j].sid == rs[j].sid);
            }
        }
    } else if let Change::Retracted { session } = c {
        lemma_retracted(rs, session);
    }
}

pub proof fn lemma_promotion_kept(rs: Seq<RootView>, c: Change, sid: SentenceId)
    requires
        roots_distinct(rs),
        named(c) != Some(sid) || c is Referenced || roots_after(rs, c) == rs,
    ensures
        is_promoted(roots_after(rs, c), sid) == is_promoted(rs, sid),
{
    let t = roots_after(rs, c);
    if t != rs {
        lemma_still_distinct(rs, c);
        match c {
            Change::Retracted { session } => {
                lemma_retracted_promoted(rs, session, sid);
            },
            _ => {
                if is_promoted(rs, sid) {
                    let i = root_place(rs, sid);
                    assert(root_is(rs, sid, i));
                    let n = named(c)->0;
                    let j: int = if c is Removed && is_root(rs, n) && root_place(rs, n) < i {
                        i - 1
                    } else {
                        i
                    };
                    if is_root(rs, n) {
                        assert(root_is(rs, n, root_place(rs, n)));
                    }
                    assert(root_is(t, sid, j));
                    lemma_root_place(t, sid, j);
                }
                if is_promoted(t, sid) {
                    let j = root_place(t, sid);
                    assert(root_is(t, sid, j));
                    let n = named(c)->0;
                    let i: int = if c is Removed && is_root(rs, n) && root_place(rs, n) <= j {
                        j + 1
                    } else {
                        j
                    };
                    if is_root(rs, n) {
                        assert(root_is(rs, n, root_place(rs, n)));
                    }
                    assert(root_is(rs, sid, i));
                    lemma_root_place(rs, sid, i);
                }
            },
        }
    }
}

proof fn lemma_retracted_promoted(rs: Seq<RootView>, session: SessionId, sid: SentenceId)
    requires
        roots_distinct(rs),
    ensures
        is_promoted(retracted(rs, session), sid) == is_promoted(rs, sid),
{
    let t = retracted(rs, session);
    lemma_retracted(rs, session);
    if is_promoted(rs, sid) {
        let i = root_place(rs, sid);
        assert(root_is(rs, sid, i));
        let j = lemma_retracted_keeps(rs, session, i);
        lemma_root_place(t, sid, j);
    }
    if is_promoted(t, sid) {
        let j = root_place(t, sid);
        assert(root_is(t, sid, j));
        let i = lemma_retracted_comes(rs, session, j);
        lemma_root_place(rs, sid, i);
    }
}

proof fn lemma_retracted_keeps(rs: Seq<RootView>, session: SessionId, i: int) -> (j: int)
    requires
        0 <= i < rs.len(),
        rs[i].promoted,
    ensures
        root_is(retracted(rs, session), rs[i].sid, j),
        retracted(rs, session)[j].promoted,
    decreases rs.len(),
{
    let d = rs.drop_last();
    let s = retracted(d, session);
    if i < d.len() {
        let j = lemma_retracted_keeps(d, session, i);
        assert(retracted(rs, session)[j] == s[j]);
        j
    } else {
        s.len() as int
    }
}

proof fn lemma_retracted_comes(rs: Seq<RootView>, session: SessionId, j: int) -> (i: int)
    requires
        0 <= j < retracted(rs, session).len(),
    ensures
        0 <= i < rs.len(),
        rs[i].sid == retracted(rs, session)[j].sid,
        rs[i].promoted == retracted(rs, session)[j].promoted,
    decreases rs.len(),
{
    let d = rs.drop_last();
    let s = retracted(d, session);
    if j < s.len() {
        let i = lemma_retracted_comes(d, session, j);
        i
    } else {
        rs.len() - 1
    }
}

/// A change that is none for the scope leaves it the same declarations and the
/// same relations above relations.
proof fn lemma_harmless(f: Facts, facet: Facet, scope: Scope, c: Change)
    requires
        roots_distinct(f.layer.roots),
        roots_live(f.layer.roots),
        possible(f.layer, c),
        in_step(f),
        harmless(f, facet, scope, c),
    ensures
        same_signatures(f, facts_after(f, c), facet, scope),
{
    let g = facts_after(f, c);
    let (rs, ts) = (f.layer.roots, g.layer.roots);
    law_changes_keep_the_taxonomy_in_step(f, c);
    lemma_rebuilt_entries(g.layer, f.layer, f.roles, ts);
    assert forall|h: SymbolId, rel: SymbolId| declares(f.roles, facet, h) implies #[trigger] declarations(
        f,
        h,
        rel,
        scope,
    ) == declarations(g, h, rel, scope) by {
        let (p, q) = (about(f.layer, h, rel, scope), about(g.layer, h, rel, scope));
        lemma_picked_alike(ts, p, q);
        if ts != rs {
            assert(blind(rs, c, p)) by {
                lemma_about_blind(f, facet, scope, c, h, rel);
            }
            lemma_blind(f.layer, c, p);
        }
    }
    assert forall|rel: SymbolId| #[trigger] subs(parents(f.edges, rel, scope)) == subs(parents(g.edges, rel, scope)) by {
        let p = sub_in(f, scope);
        lemma_subs_rebuilt(f, rs, rel, scope);
        lemma_subs_rebuilt(f, ts, rel, scope);
        if ts != rs {
            assert(blind(rs, c, p)) by {
                lemma_sub_blind(f, facet, scope, c);
            }
            lemma_blind(f.layer, c, p);
        }
    }
    assert forall|h: SymbolId, rel: SymbolId, k: int|
        declares(f.roles, facet, h) && 0 <= k < declarations(f, h, rel, scope).len() implies promoted_alike(
        f,
        g,
        #[trigger] declarations(f, h, rel, scope)[k],
    ) by {
        let p = about(f.layer, h, rel, scope);
        lemma_picked_in(rs, p, k);
        let i = choose|i: int| 0 <= i < rs.len() && p(#[trigger] rs[i]) && rs[i].sid == picked(rs, p)[k];
        assert(root_is(rs, rs[i].sid, i));
        lemma_promotion_kept(rs, c, rs[i].sid);
    }
}

pub proof fn lemma_about_blind(f: Facts, facet: Facet, scope: Scope, c: Change, h: SymbolId, rel: SymbolId)
    requires
        declares(f.roles, facet, h),
        elsewhere(c, scope) || (named(c) matches Some(sid) && silent(f, facet, sid)),
    ensures
        blind(f.layer.roots, c, about(f.layer, h, rel, scope)),
{
    let rs = f.layer.roots;
    if let Some(sid) = named(c) {
        if is_root(rs, sid) {
            assert(root_is(rs, sid, root_place(rs, sid)));
        }
    }
    if let Change::Retracted { session } = c {
        let p = about(f.layer, h, rel, scope);
        assert forall|r: RootView| #[trigger] p(r) == p(without_session(r, session)) by {
            assert(seen_in(r, scope) == seen_in(without_session(r, session), scope));
        }
    }
}

proof fn lemma_sub_blind(f: Facts, facet: Facet, scope: Scope, c: Change)
    requires
        elsewhere(c, scope) || (named(c) matches Some(sid) && quiet(f, facet, sid)),
    ensures
        blind(f.layer.roots, c, sub_in(f, scope)),
{
    let rs = f.layer.roots;
    if let Some(sid) = named(c) {
        if is_root(rs, sid) {
            assert(root_is(rs, sid, root_place(rs, sid)));
        }
    }
    if let Change::Retracted { session } = c {
        let p = sub_in(f, scope);
        assert forall|r: RootView| #[trigger] p(r) == p(without_session(r, session)) by {
            assert(counts_in_scope(r, scope) == counts_in_scope(without_session(r, session), scope));
        }
    }
}

// ---------------------------------------------------------------------------
// What a change makes forgotten
// ---------------------------------------------------------------------------

proof fn lemma_effects_have(f: Facts, facet: Facet, es: Seq<EventView>, i: int)
    requires
        0 <= i < es.len(),
    ensures
        effect(f, facet, es[i]).all ==> effects(f, facet, es).all,
        effect(f, facet, es[i]).scope matches Some(s) ==> effects(f, facet, es).scopes.contains(s),
    decreases es.len(),
{
    if i < es.len() - 1 {
        assert(es.drop_last()[i] == es[i]);
        lemma_effects_have(f, facet, es.drop_last(), i);
    }
}

/// A plain declaration is read in full.
proof fn lemma_plain_read(f: Facts, g: Facts, facet: Facet, h: SymbolId, sid: SentenceId, ps: Seq<Part>)
    requires
        g.roles == f.roles,
        plain(f, sid),
        body(f.layer, sid) == Some(ps),
        head_of(ps) == Some(h),
        declares(f.roles, facet, h),
    ensures
        facet == Facet::Domain ==> domain_extracted(g, h, sid, ps) is Ok,
        facet == Facet::Range ==> crate::signature::range_extracted(g, h, sid, ps) is Ok,
{
}

proof fn lemma_untouched(f: Facts, g: Facts, facet: Facet, sid: SentenceId)
    requires
        g.roles == f.roles,
        g.layer.entries == f.layer.entries,
        plain(f, sid),
        touched(g, facet, sid) is None,
    ensures
        quiet(f, facet, sid),
{
    assert(sub_child(g, sid) == sub_child(f, sid));
    if let Some(ps) = body(f.layer, sid) {
        if let Some(h) = head_of(ps) {
            if declares(f.roles, facet, h) {
                lemma_plain_read(f, g, facet, h, sid, ps);
            }
        }
    }
}

proof fn lemma_added_quiet(f: Facts, g: Facts, facet: Facet, sid: SentenceId)
    requires
        g.roles == f.roles,
        g.layer.entries == f.layer.entries,
        plain(f, sid),
        body(f.layer, sid) matches Some(ps) && head_of(ps) matches Some(h) && !effect(
            g,
            facet,
            EventView::RelationAdded { sid, head_id: h },
        ).all,
    ensures
        quiet(f, facet, sid),
{
    let ps = body(f.layer, sid)->0;
    let h = head_of(ps)->0;
    assert(body(g.layer, sid) == Some(ps));
    assert(sub_child(g, sid) == sub_child(f, sid));
    if declares(f.roles, facet, h) {
        lemma_plain_read(f, g, facet, h, sid, ps);
    }
}

proof fn lemma_removed_quiet(f: Facts, g: Facts, facet: Facet, sid: SentenceId)
    requires
        g.roles == f.roles,
        g.layer.entries == f.layer.entries,
        plain(f, sid),
        body(f.layer, sid) matches Some(ps) && head_of(ps) is Some && !effect(
            g,
            facet,
            EventView::RelationRemoved { sid, sentence: ps },
        ).all,
    ensures
        quiet(f, facet, sid),
{
    let ps = body(f.layer, sid)->0;
    let h = head_of(ps)->0;
    if declares(f.roles, facet, h) {
        lemma_plain_read(f, g, facet, h, sid, ps);
    } else {
        assert(sub_child(f, sid) == sub_child_of(g.roles, sid, ps));
    }
}

proof fn lemma_one_touched(g: Facts, facet: Facet, sid: SentenceId)
    ensures
        touched_all(g, facet, seq![sid]).len() > 0 <==> touched(g, facet, sid) is Some,
{
    assert(seq![sid].drop_last() =~= Seq::empty());
    reveal_with_fuel(touched_all, 2);
}

/// What the reports of a change leave remembered belongs to scopes for which it
/// is none.
proof fn lemma_left_is_harmless(f: Facts, facet: Facet, scope: Scope, c: Change)
    requires
        roots_distinct(f.layer.roots),
        possible(f.layer, c),
        named(c) matches Some(sid) ==> plain(f, sid),
        ({
            let e = effects(facts_after(f, c), facet, reports(f, c));
            !e.all && !e.scopes.contains(scope)
        }),
    ensures
        harmless(f, facet, scope, c),
{
    let g = facts_after(f, c);
    let es = root_reports(f.layer, c);
    let all = reports(f, c);
    let rs = f.layer.roots;
    if let Some(sid) = named(c) {
        if is_root(rs, sid) {
            assert(root_is(rs, sid, root_place(rs, sid)));
        }
    }
    match c {
        Change::Added { sid, .. } => {
            let ps = body(f.layer, sid)->0;
            if head_of(ps) is Some {
                assert(all[1] == es[1]);
                lemma_effects_have(g, facet, all, 1);
                lemma_added_quiet(f, g, facet, sid);
            }
        },
        Change::Promoted { sid } => {
            assert(all[0] == es[0]);
            lemma_effects_have(g, facet, all, 0);
            lemma_one_touched(g, facet, sid);
            if is_root(rs, sid) {
                lemma_untouched(f, g, facet, sid);
            }
        },
        Change::Referenced { sid, session } => {
            assert(all[0] == es[0]);
            lemma_effects_have(g, facet, all, 0);
            lemma_one_touched(g, facet, sid);
            if !elsewhere(c, scope) {
                lemma_untouched(f, g, facet, sid);
            }
        },
        Change::Retracted { session } => {
            assert(all[0] == es[0]);
            lemma_effects_have(g, facet, all, 0);
        },
        Change::Removed { sid } => {
            let ps = body(f.layer, sid)->0;
            if is_root(rs, sid) && head_of(ps) is Some {
                assert(all[1] == es[1]);
                lemma_effects_have(g, facet, all, 1);
                lemma_removed_quiet(f, g, facet, sid);
            }
        },
    }
}

/// The change leaves the common ranges alone, or no declaration needs them.
pub open spec fn ranges_settled(f: Facts, c: Change) -> bool {
    ||| all_plain(f)
    ||| elsewhere(c, Scope::Base)
    ||| named(c) matches Some(sid) && silent(f, Facet::Range, sid)
}

/// Remembered domains that were true before a change are true of what is
/// remembered after it, where the root that changes is no malformed declaration,
/// and is no declaration of a range while a domain is declared by a function
/// term.
pub proof fn law_domains_follow_changes(m: Map<MemoKey, Vec<RelationDomain>>, f: Facts, c: Change)
    requires
        roots_distinct(f.layer.roots),
        roots_live(f.layer.roots),
        possible(f.layer, c),
        in_step(f),
        named(c) matches Some(sid) ==> plain(f, sid),
        ranges_settled(f, c),
        domains_true(m, f),
    ensures
        domains_true(survivors(m, effects(facts_after(f, c), Facet::Domain, reports(f, c))), facts_after(f, c)),
{
    let g = facts_after(f, c);
    let e = effects(g, Facet::Domain, reports(f, c));
    let left = survivors(m, e);
    assert forall|k: MemoKey| #[trigger] left.dom().contains(k) implies left[k]@ == domain_of(g, k.0, k.1) by {
        assert(m.dom().contains(k));
        lemma_left_is_harmless(f, Facet::Domain, k.0, c);
        lemma_harmless(f, Facet::Domain, k.0, c);
        if !all_plain(f) {
            assert(harmless(f, Facet::Range, Scope::Base, c));
            lemma_harmless(f, Facet::Range, Scope::Base, c);
        }
        lemma_same_domain(f, g, k.0, Set::empty(), k.1);
    }
}

/// Remembered ranges that were true before a change are true of what is
/// remembered after it, where the root that changes is no malformed declaration.
pub proof fn law_ranges_follow_changes(m: Map<MemoKey, RelationRange>, f: Facts, c: Change)
    requires
        roots_distinct(f.layer.roots),
        roots_live(f.layer.roots),
        possible(f.layer, c),
        in_step(f),
        named(c) matches Some(sid) ==> plain(f, sid),
        ranges_true(m, f),
    ensures
        ranges_true(survivors(m, effects(facts_after(f, c), Facet::Range, reports(f, c))), facts_after(f, c)),
{
    let g = facts_after(f, c);
    let e = effects(g, Facet::Range, reports(f, c));
    let left = survivors(m, e);
    assert forall|k: MemoKey| #[trigger] left.dom().contains(k) implies left[k] == range_of(g, k.0, k.1) by {
        assert(m.dom().contains(k));
        lemma_left_is_harmless(f, Facet::Range, k.0, c);
        lemma_harmless(f, Facet::Range, k.0, c);
        lemma_same_range(f, g, k.0, Set::empty(), k.1);
    }
}

// ---------------------------------------------------------------------------
// What a relation declares for itself
// ---------------------------------------------------------------------------

/// The root is a declaration of the relation's range with the head that the scope
/// sees.
pub open spec fn range_root(f: Facts, head: SymbolId, rel: SymbolId, scope: Scope, i: int) -> bool {
    0 <= i < f.layer.roots.len() && about(f.layer, head, rel, scope)(f.layer.roots[i])
}

/// The scope sees a declaration of the relation's range.
pub open spec fn range_visible(f: Facts, rel: SymbolId, scope: Scope) -> bool {
    ||| exists|i: int| range_root(f, f.roles.range, rel, scope, i)
    ||| exists|i: int| range_root(f, f.roles.range_subclass, rel, scope, i)
}

/// The root names its class by a symbol.
pub open spec fn names_class(f: Facts, i: int) -> bool {
    body(f.layer, f.layer.roots[i].sid) matches Some(ps) && ps.len() > 2 && ps[2] is Sym
}

/// Every declaration of the relation's range that the scope sees names its class.
pub open spec fn ranges_named(f: Facts, rel: SymbolId, scope: Scope) -> bool {
    forall|head: SymbolId, i: int| #[trigger]
        range_root(f, head, rel, scope, i) && declares(f.roles, Facet::Range, head) ==> names_class(f, i)
}

/// A class is given exactly where one of the declarations gives it.
proof fn lemma_first_class(f: Facts, scope: Scope, q: Set<SymbolId>, sids: Seq<SentenceId>, base: bool)
    ensures
        first_class_via(f, scope, q, sids, base) is Some <==> exists|k: int|
            0 <= k < sids.len() && is_promoted(f.layer.roots, #[trigger] sids[k]) == base && class_at_via(
                f,
                scope,
                q,
                sids[k],
            ) is Some,
    decreases sids.len(),
{
    if sids.len() > 0 {
        let d = sids.drop_last();
        lemma_first_class(f, scope, q, d, base);
        let n = sids.len() - 1;
        assert(sids[n] == sids.last());
        if first_class_via(f, scope, q, d, base) is Some {
            let k = choose|k: int|
                0 <= k < d.len() && is_promoted(f.layer.roots, #[trigger] d[k]) == base && class_at_via(f, scope, q, d[k]) is Some;
            assert(sids[k] == d[k]);
        }
        if exists|k: int|
            0 <= k < sids.len() && is_promoted(f.layer.roots, #[trigger] sids[k]) == base && class_at_via(
                f,
                scope,
                q,
                sids[k],
            ) is Some {
            let k = choose|k: int|
                0 <= k < sids.len() && is_promoted(f.layer.roots, #[trigger] sids[k]) == base && class_at_via(
                    f,
                    scope,
                    q,
                    sids[k],
                ) is Some;
            if k < n {
                assert(d[k] == sids[k]);
            }
        }
    }
}

/// The declarations with the head give a class exactly where there is one, among
/// the promoted or among the others.
proof fn lemma_head_gives(f: Facts, scope: Scope, q: Set<SymbolId>, head: SymbolId, rel: SymbolId, base: bool)
    requires
        roots_distinct(f.layer.roots),
        declares(f.roles, Facet::Range, head),
        ranges_named(f, rel, scope),
    ensures
        first_class_via(f, scope, q, declarations(f, head, rel, scope), base) is Some <==> exists|i: int| #[trigger]
            range_root(f, head, rel, scope, i) && f.layer.roots[i].promoted == base,
{
    let rs = f.layer.roots;
    let p = about(f.layer, head, rel, scope);
    let sids = declarations(f, head, rel, scope);
    lemma_first_class(f, scope, q, sids, base);
    if first_class_via(f, scope, q, sids, base) is Some {
        let k = choose|k: int|
            0 <= k < sids.len() && is_promoted(rs, #[trigger] sids[k]) == base && class_at_via(f, scope, q, sids[k]) is Some;
        lemma_picked_in(rs, p, k);
        let i = choose|i: int| 0 <= i < rs.len() && p(#[trigger] rs[i]) && rs[i].sid == sids[k];
        assert(root_is(rs, sids[k], i));
        lemma_root_place(rs, sids[k], i);
        assert(range_root(f, head, rel, scope, i));
    }
    if exists|i: int| #[trigger] range_root(f, head, rel, scope, i) && rs[i].promoted == base {
        let i = choose|i: int| #[trigger] range_root(f, head, rel, scope, i) && rs[i].promoted == base;
        let sid = rs[i].sid;
        assert(p(rs[i]));
        lemma_picked(rs, p, sid);
        assert(sids.contains(sid));
        let k = choose|k: int| 0 <= k < sids.len() && sids[k] == sid;
        assert(root_is(rs, sid, i));
        lemma_root_place(rs, sid, i);
        assert(names_class(f, i));
        assert(class_at_via(f, scope, q, sids[k]) is Some);
    }
}

/// A relation declares no range exactly where the scope sees neither a range nor a
/// subclass range of it, where declarations name their classes.
pub proof fn law_no_range_without_a_declaration(f: Facts, scope: Scope, q: Set<SymbolId>, rel: SymbolId)
    requires
        roots_distinct(f.layer.roots),
        ranges_named(f, rel, scope),
    ensures
        declared_via(f, scope, q, rel) is None <==> !range_visible(f, rel, scope),
{
    let (a, b) = (f.roles.range, f.roles.range_subclass);
    lemma_head_gives(f, scope, q, a, rel, true);
    lemma_head_gives(f, scope, q, b, rel, true);
    lemma_head_gives(f, scope, q, a, rel, false);
    lemma_head_gives(f, scope, q, b, rel, false);
}

/// A relation with both a range and a subclass range in common has an unknown
/// range of its own.
pub proof fn law_two_ranges_conflict(f: Facts, scope: Scope, q: Set<SymbolId>, rel: SymbolId, i: int, j: int)
    requires
        roots_distinct(f.layer.roots),
        ranges_named(f, rel, scope),
        range_root(f, f.roles.range, rel, scope, i),
        range_root(f, f.roles.range_subclass, rel, scope, j),
        f.layer.roots[i].promoted,
        f.layer.roots[j].promoted,
    ensures
        declared_via(f, scope, q, rel) == Some(RelationRange::Unknown),
{
    lemma_head_gives(f, scope, q, f.roles.range, rel, true);
    lemma_head_gives(f, scope, q, f.roles.range_subclass, rel, true);
}

proof fn lemma_classes_named(f: Facts, g: Facts, scope: Scope, q: Set<SymbolId>, sids: Seq<SentenceId>, base: bool)
    requires
        f.layer == g.layer,
        forall|k: int|
            0 <= k < sids.len() ==> (body(f.layer, #[trigger] sids[k]) matches Some(ps) && ps.len() > 2 && ps[2] is Sym),
    ensures
        first_class_via(f, scope, q, sids, base) == first_class_via(g, scope, q, sids, base),
    decreases sids.len(),
{
    if sids.len() > 0 {
        let d = sids.drop_last();
        assert forall|k: int| 0 <= k < d.len() implies (body(f.layer, #[trigger] d[k]) matches Some(ps) && ps.len() > 2
            && ps[2] is Sym) by {
            assert(d[k] == sids[k]);
        }
        lemma_classes_named(f, g, scope, q, d, base);
        assert(body(f.layer, sids[sids.len() - 1]) is Some);
        assert(class_at_via(f, scope, q, sids.last()) == class_at_via(g, scope, q, sids.last()));
    }
}

/// What is above a relation plays no part in the range that it declares for
/// itself, where declarations name their classes.
pub proof fn law_declared_range_ignores_parents(f: Facts, g: Facts, scope: Scope, q: Set<SymbolId>, rel: SymbolId)
    requires
        f.layer == g.layer,
        f.roles == g.roles,
        ranges_named(f, rel, scope),
    ensures
        declared_via(f, scope, q, rel) == declared_via(g, scope, q, rel),
{
    let (a, b) = (f.roles.range, f.roles.range_subclass);
    assert forall|head: SymbolId, k: int|
        declares(f.roles, Facet::Range, head) && 0 <= k < declarations(f, head, rel, scope).len() implies (body(
        f.layer,
        #[trigger] declarations(f, head, rel, scope)[k],
    ) matches Some(ps) && ps.len() > 2 && ps[2] is Sym) by {
        let p = about(f.layer, head, rel, scope);
        lemma_picked_in(f.layer.roots, p, k);
        let i = choose|i: int|
            0 <= i < f.layer.roots.len() && p(#[trigger] f.layer.roots[i]) && f.layer.roots[i].sid == declarations(
                f,
                head,
                rel,
                scope,
            )[k];
        assert(range_root(f, head, rel, scope, i));
        assert(names_class(f, i));
    }
    let (s, t) = (declarations(f, a, rel, scope), declarations(f, b, rel, scope));
    lemma_classes_named(f, g, scope, q, s, true);
    lemma_classes_named(f, g, scope, q, t, true);
    lemma_classes_named(f, g, scope, q, s, false);
    lemma_classes_named(f, g, scope, q, t, false);
    assert(resolved_via(f, scope, q, rel, true) == resolved_via(g, scope, q, rel, true));
    assert(resolved_via(f, scope, q, rel, false) == resolved_via(g, scope, q, rel, false));
}

/// The root, which the scope sees, says with the head that the relation has the class
/// as its range.
pub open spec fn range_said(f: Facts, head: SymbolId, rel: SymbolId, c: SymbolId, scope: Scope, i: int) -> bool {
    0 <= i < f.layer.roots.len() && seen_in(f.layer.roots[i], scope) && body(f.layer, f.layer.roots[i].sid) == Some(
        seq![Part::Sym(head), Part::Sym(rel), Part::Sym(c)],
    )
}

proof fn lemma_first_said(f: Facts, scope: Scope, q: Set<SymbolId>, head: SymbolId, rel: SymbolId, c: SymbolId, i: int, n: int)
    requires
        roots_distinct(f.layer.roots),
        range_said(f, head, rel, c, scope, i),
        forall|j: int| #[trigger]
            range_root(f, head, rel, scope, j) && j < i ==> f.layer.roots[j].promoted != f.layer.roots[i].promoted,
        0 <= n <= f.layer.roots.len(),
    ensures
        first_class_via(
            f,
            scope,
            q,
            picked(f.layer.roots.take(n), about(f.layer, head, rel, scope)),
            f.layer.roots[i].promoted,
        ) == if i < n {
            Some(c)
        } else {
            None
        },
    decreases n,
{
    let rs = f.layer.roots;
    let p = about(f.layer, head, rel, scope);
    if n > 0 {
        lemma_first_said(f, scope, q, head, rel, c, i, n - 1);
        let r = rs[n - 1];
        assert(rs.take(n).drop_last() =~= rs.take(n - 1));
        assert(rs.take(n).last() == r);
        let s = picked(rs.take(n - 1), p);
        assert(s.push(r.sid).drop_last() =~= s);
        assert(root_is(rs, r.sid, n - 1));
        lemma_root_place(rs, r.sid, n - 1);
        if p(r) {
            assert(range_root(f, head, rel, scope, n - 1));
        }
        if n - 1 == i {
            assert(p(r));
            assert(class_at_via(f, scope, q, r.sid) == Some(c));
        }
    }
}

proof fn lemma_none_said(f: Facts, scope: Scope, q: Set<SymbolId>, head: SymbolId, rel: SymbolId, base: bool, n: int)
    requires
        roots_distinct(f.layer.roots),
        forall|j: int| #[trigger] range_root(f, head, rel, scope, j) ==> f.layer.roots[j].promoted != base,
        0 <= n <= f.layer.roots.len(),
    ensures
        first_class_via(f, scope, q, picked(f.layer.roots.take(n), about(f.layer, head, rel, scope)), base) is None,
    decreases n,
{
    let rs = f.layer.roots;
    let p = about(f.layer, head, rel, scope);
    if n > 0 {
        lemma_none_said(f, scope, q, head, rel, base, n - 1);
        let r = rs[n - 1];
        assert(rs.take(n).drop_last() =~= rs.take(n - 1));
        assert(rs.take(n).last() == r);
        let s = picked(rs.take(n - 1), p);
        assert(s.push(r.sid).drop_last() =~= s);
        assert(root_is(rs, r.sid, n - 1));
        lemma_root_place(rs, r.sid, n - 1);
        if p(r) {
            assert(range_root(f, head, rel, scope, n - 1));
        }
    }
}

/// A relation has the range that is declared for it, by the first such declaration: a
/// class, or the subclasses of one, as the head says, where no declaration with the
/// other head stands beside it.  A promoted declaration counts whatever a session
/// declares; one of a session counts where none is promoted.
pub proof fn law_ranges_are_what_is_declared(
    f: Facts,
    scope: Scope,
    head: SymbolId,
    rel: SymbolId,
    c: SymbolId,
    i: int,
)
    requires
        roots_distinct(f.layer.roots),
        f.roles.range != f.roles.range_subclass,
        head == f.roles.range || head == f.roles.range_subclass,
        range_said(f, head, rel, c, scope, i),
        forall|j: int| #[trigger]
            range_root(f, head, rel, scope, j) && j < i ==> f.layer.roots[j].promoted != f.layer.roots[i].promoted,
        forall|other: SymbolId, j: int|
            other != head && declares(f.roles, Facet::Range, other) && #[trigger] range_root(f, other, rel, scope, j)
                ==> f.layer.roots[j].promoted != f.layer.roots[i].promoted,
        !f.layer.roots[i].promoted ==> forall|any: SymbolId, j: int|
            declares(f.roles, Facet::Range, any) && #[trigger] range_root(f, any, rel, scope, j) ==> !f.layer.roots[j].promoted,
    ensures
        head == f.roles.range ==> range_of(f, scope, rel) == RelationRange::Range(c),
        head == f.roles.range_subclass ==> range_of(f, scope, rel) == RelationRange::RangeSubclass(c),
        declared_via(f, scope, Set::empty(), rel) == Some(range_of(f, scope, rel)),
{
    let rs = f.layer.roots;
    let n = rs.len() as int;
    let base = rs[i].promoted;
    let other = if head == f.roles.range {
        f.roles.range_subclass
    } else {
        f.roles.range
    };
    assert(rs.take(n) =~= rs);
    assert(declares(f.roles, Facet::Range, head) && declares(f.roles, Facet::Range, other));
    let none = Set::<SymbolId>::empty();
    let q = none.insert(rel);
    lemma_first_said(f, scope, q, head, rel, c, i, n);
    lemma_first_said(f, scope, none, head, rel, c, i, n);
    lemma_none_said(f, scope, q, other, rel, base, n);
    lemma_none_said(f, scope, none, other, rel, base, n);
    if !base {
        lemma_none_said(f, scope, q, head, rel, true, n);
        lemma_none_said(f, scope, q, other, rel, true, n);
        lemma_none_said(f, scope, none, head, rel, true, n);
        lemma_none_said(f, scope, none, other, rel, true, n);
        assert(scope is Session);
        assert(resolved_via(f, scope, q, rel, true) is None);
        assert(resolved_via(f, scope, none, rel, true) is None);
    }
    let d = if head == f.roles.range {
        RelationRange::Range(c)
    } else {
        RelationRange::RangeSubclass(c)
    };
    assert(resolved_via(f, scope, q, rel, base) == Some(d));
    assert(resolved_via(f, scope, none, rel, base) == Some(d));
    assert(declared_via(f, scope, q, rel) == Some(d));
    assert(declared_via(f, scope, none, rel) == Some(d));
}

/// A relation without a range of its own has that of the first relation that it is a
/// subrelation of, where that declares one.
pub proof fn law_ranges_are_inherited(f: Facts, scope: Scope, rel: SymbolId, p: SymbolId, k: int, r: RelationRange)
    requires
        0 <= k < parents(f.edges, rel, scope).len(),
        parents(f.edges, rel, scope)[k] == (p, TaxRelation::Subrelation),
        forall|j: int| 0 <= j < k ==> (#[trigger] parents(f.edges, rel, scope)[j]).1 != TaxRelation::Subrelation,
        p != rel,
        declared_via(f, scope, Set::empty().insert(rel), rel) is None,
        declared_via(f, scope, Set::empty().insert(rel).insert(p), p) == Some(r),
        r != RelationRange::Unknown,
    ensures
        range_of(f, scope, rel) == r,
{
    let ps = parents(f.edges, rel, scope);
    let q = Set::<SymbolId>::empty().insert(rel);
    lemma_parent_asked(f, scope, rel, k);
    lemma_range_from(f, scope, q, ps, k, ps.len() as int, p, r);
    assert(ps.take(ps.len() as int) =~= ps);
}

proof fn lemma_range_from(
    f: Facts,
    scope: Scope,
    q: Set<SymbolId>,
    ps: Seq<Above>,
    k: int,
    n: int,
    p: SymbolId,
    r: RelationRange,
)
    requires
        0 <= k < ps.len(),
        ps[k] == (p, TaxRelation::Subrelation),
        forall|j: int| 0 <= j < k ==> (#[trigger] ps[j]).1 != TaxRelation::Subrelation,
        !q.contains(p),
        range_steps(f).contains(p),
        range_via(f, scope, q, p) == r,
        r != RelationRange::Unknown,
        0 <= n <= ps.len(),
    ensures
        range_above(f, scope, q, ps.take(n)) == if k < n {
            r
        } else {
            RelationRange::Unknown
        },
    decreases n,
{
    if n > 0 {
        lemma_range_from(f, scope, q, ps, k, n - 1, p, r);
        assert(ps.take(n).drop_last() =~= ps.take(n - 1));
        assert(ps.take(n).last() == ps[n - 1]);
    }
}

/// The root, which the scope sees, says with the head that the place of the relation,
/// counted from zero, takes the class.
pub open spec fn domain_said(f: Facts, head: SymbolId, rel: SymbolId, pos: nat, c: SymbolId, scope: Scope, i: int) -> bool {
    0 <= i < f.layer.roots.len() && seen_in(f.layer.roots[i], scope) && (body(f.layer, f.layer.roots[i].sid) matches Some(
        ps,
    ) && ps.len() == 4 && ps[0] == Part::Sym(head) && ps[1] == Part::Sym(rel) && ps[3] == Part::Sym(c) && (ps[2] matches Part::Lit(
        l,
    ) && !l.is_str && crate::text::parsed(l.text, usize::MAX as nat) == Some(pos + 1)))
}

/// The root, which the scope sees, says something of the place of the relation.
pub open spec fn place_said(f: Facts, rel: SymbolId, pos: nat, scope: Scope, i: int) -> bool {
    0 <= i < f.layer.roots.len() && seen_in(f.layer.roots[i], scope) && (body(f.layer, f.layer.roots[i].sid) matches Some(
        ps,
    ) && ps.len() > 2 && (ps[0] == Part::Sym(f.roles.domain) || ps[0] == Part::Sym(f.roles.domain_subclass)) && ps[1]
        == Part::Sym(rel) && place_at(ps) == Some(pos))
}

proof fn lemma_claim_found(
    f: Facts,
    scope: Scope,
    head: SymbolId,
    rel: SymbolId,
    pos: nat,
    base: bool,
    at: Option<(int, RelationDomain)>,
    n: int,
)
    requires
        roots_distinct(f.layer.roots),
        head == f.roles.domain || head == f.roles.domain_subclass,
        at matches Some(x) ==> 0 <= x.0 < f.layer.roots.len() && f.layer.roots[x.0].promoted == base && about(
            f.layer,
            head,
            rel,
            scope,
        )(f.layer.roots[x.0]) && domain_extracted(
            f,
            head,
            f.layer.roots[x.0].sid,
            body(f.layer, f.layer.roots[x.0].sid)->0,
        ) == Ok::<(SymbolId, nat, RelationDomain), ErrorView>((rel, pos, x.1)),
        forall|j: int| #[trigger]
            place_said(f, rel, pos, scope, j) && f.layer.roots[j].promoted == base ==> (at matches Some(x) && x.0 == j) || !about(
                f.layer,
                head,
                rel,
                scope,
            )(f.layer.roots[j]),
        0 <= n <= f.layer.roots.len(),
    ensures
        last_claim(claims(f, rel, head, picked(f.layer.roots.take(n), about(f.layer, head, rel, scope))), pos as int, base)
            == match at {
            Some(x) => if x.0 < n {
                Some(x.1)
            } else {
                None
            },
            None => None,
        },
    decreases n,
{
    let rs = f.layer.roots;
    let p = about(f.layer, head, rel, scope);
    if n > 0 {
        lemma_claim_found(f, scope, head, rel, pos, base, at, n - 1);
        let r = rs[n - 1];
        assert(rs.take(n).drop_last() =~= rs.take(n - 1));
        assert(rs.take(n).last() == r);
        let s = picked(rs.take(n - 1), p);
        assert(s.push(r.sid).drop_last() =~= s);
        assert(root_is(rs, r.sid, n - 1));
        lemma_root_place(rs, r.sid, n - 1);
        if p(r) {
            let cs = claims(f, rel, head, s);
            let ps = body(f.layer, r.sid)->0;
            match domain_extracted(f, head, r.sid, ps) {
                Ok((a, b, what)) => {
                    if a == rel {
                        let c = Claim { pos: b as usize, what, promoted: r.promoted };
                        assert(cs.push(c).drop_last() =~= cs);
                        assert(place_said(f, rel, b, scope, n - 1));
                        assert(b <= usize::MAX);
                    }
                },
                Err(_) => {},
            }
        }
    }
}

proof fn lemma_last_of_both(a: Seq<Claim>, b: Seq<Claim>, pos: int, promoted: bool)
    ensures
        last_claim(a + b, pos, promoted) == match last_claim(b, pos, promoted) {
            Some(d) => Some(d),
            None => last_claim(a, pos, promoted),
        },
    decreases b.len(),
{
    if b.len() == 0 {
        assert(a + b =~= a);
    } else {
        assert((a + b).drop_last() =~= a + b.drop_last());
        lemma_last_of_both(a, b.drop_last(), pos, promoted);
    }
}

proof fn lemma_claim_within(cs: Seq<Claim>, pos: int, promoted: bool)
    requires
        last_claim(cs, pos, promoted) is Some,
    ensures
        pos < width(cs),
    decreases cs.len(),
{
    if cs.last().pos == pos && cs.last().promoted == promoted {
        lemma_width_bounds(cs, cs.len() - 1);
    } else {
        lemma_claim_within(cs.drop_last(), pos, promoted);
    }
}

/// A place of a relation takes what is declared for it: instances of the class, or its
/// subclasses, as the head says.  A promoted declaration counts whatever a session
/// declares; one of a session counts where none is promoted for the place.
pub proof fn law_places_take_what_is_declared(
    f: Facts,
    scope: Scope,
    head: SymbolId,
    rel: SymbolId,
    pos: nat,
    c: SymbolId,
    i: int,
)
    requires
        roots_distinct(f.layer.roots),
        f.roles.domain != f.roles.domain_subclass,
        head == f.roles.domain || head == f.roles.domain_subclass,
        domain_said(f, head, rel, pos, c, scope, i),
        forall|j: int| #[trigger]
            place_said(f, rel, pos, scope, j) && j != i ==> !f.layer.roots[j].promoted && f.layer.roots[i].promoted,
    ensures
        pos < domain_of(f, scope, rel).len(),
        head == f.roles.domain ==> domain_of(f, scope, rel)[pos as int] == RelationDomain::Domain(c),
        head == f.roles.domain_subclass ==> domain_of(f, scope, rel)[pos as int] == RelationDomain::DomainSubclass(c),
        declared_domains(f, rel, scope).len() > pos,
        declared_domains(f, rel, scope)[pos as int] == domain_of(f, scope, rel)[pos as int],
{
    let rs = f.layer.roots;
    let n = rs.len() as int;
    assert(rs.take(n) =~= rs);
    let base = rs[i].promoted;
    let d = if head == f.roles.domain {
        RelationDomain::Domain(c)
    } else {
        RelationDomain::DomainSubclass(c)
    };
    let other = if head == f.roles.domain {
        f.roles.domain_subclass
    } else {
        f.roles.domain
    };
    assert(place_said(f, rel, pos, scope, i));
    lemma_claim_found(f, scope, head, rel, pos, base, Some((i, d)), n);
    lemma_claim_found(f, scope, other, rel, pos, base, None, n);
    if !base {
        lemma_claim_found(f, scope, head, rel, pos, true, None, n);
        lemma_claim_found(f, scope, other, rel, pos, true, None, n);
    }
    let a = claims(f, rel, f.roles.domain, declarations(f, f.roles.domain, rel, scope));
    let b = claims(f, rel, f.roles.domain_subclass, declarations(f, f.roles.domain_subclass, rel, scope));
    lemma_last_of_both(a, b, pos as int, true);
    lemma_last_of_both(a, b, pos as int, false);
    let cs = all_claims(f, rel, scope);
    lemma_claim_within(cs, pos as int, base);
    assert(claimed(cs, pos as int) == d);
    law_own_domain_wins(f, scope, rel, pos as int);
}

proof fn lemma_place_from(
    f: Facts,
    scope: Scope,
    q: Set<SymbolId>,
    own: Seq<RelationDomain>,
    ps: Seq<Above>,
    k: int,
    n: int,
    p: SymbolId,
    i: int,
    d: RelationDomain,
)
    requires
        0 <= k < ps.len(),
        ps[k] == (p, TaxRelation::Subrelation),
        forall|j: int| 0 <= j < k ==> (#[trigger] ps[j]).1 != TaxRelation::Subrelation,
        !q.contains(p),
        range_steps(f).contains(p),
        0 <= i < domain_via(f, scope, q, p).len(),
        domain_via(f, scope, q, p)[i] == d,
        d != RelationDomain::Unknown,
        i < own.len() ==> own[i] == RelationDomain::Unknown,
        0 <= n <= ps.len(),
    ensures
        n <= k ==> domain_above(f, scope, q, own, ps.take(n)) == own,
        k < n ==> i < domain_above(f, scope, q, own, ps.take(n)).len() && domain_above(f, scope, q, own, ps.take(n))[i] == d,
    decreases n,
{
    if n > 0 {
        lemma_place_from(f, scope, q, own, ps, k, n - 1, p, i, d);
        assert(ps.take(n).drop_last() =~= ps.take(n - 1));
        assert(ps.take(n).last() == ps[n - 1]);
    }
}

/// A relation inherits what a place takes: where it declares nothing for the place,
/// the first relation that it is a subrelation of decides, by its own declaration.
pub proof fn law_places_are_inherited(f: Facts, scope: Scope, rel: SymbolId, p: SymbolId, k: int, i: int, d: RelationDomain)
    requires
        0 <= k < parents(f.edges, rel, scope).len(),
        parents(f.edges, rel, scope)[k] == (p, TaxRelation::Subrelation),
        forall|j: int| 0 <= j < k ==> (#[trigger] parents(f.edges, rel, scope)[j]).1 != TaxRelation::Subrelation,
        p != rel,
        i < declared_domains(f, rel, scope).len() ==> declared_domains(f, rel, scope)[i] == RelationDomain::Unknown,
        0 <= i < declared_domains(f, p, scope).len(),
        declared_domains(f, p, scope)[i] == d,
        d != RelationDomain::Unknown,
    ensures
        i < domain_of(f, scope, rel).len(),
        domain_of(f, scope, rel)[i] == d,
{
    let ps = parents(f.edges, rel, scope);
    let q = Set::<SymbolId>::empty().insert(rel);
    let r = q.insert(p);
    let own = declared_domains(f, rel, scope);
    lemma_parent_asked(f, scope, rel, k);
    let above = parents(f.edges, p, scope);
    lemma_above_keeps(f, scope, r, declared_domains(f, p, scope), above, i);
    lemma_trimmed(domain_above(f, scope, r, declared_domains(f, p, scope), above));
    assert(domain_via(f, scope, q, p)[i] == d);
    lemma_place_from(f, scope, q, own, ps, k, ps.len() as int, p, i, d);
    assert(ps.take(ps.len() as int) =~= ps);
    lemma_trimmed(domain_above(f, scope, q, own, ps));
}

/// A declaration of a domain is read exactly where it names a relation, a place from
/// one on and a class, and nothing else; the first of these that is not there is what
/// is reported.
pub proof fn law_what_a_domain_declaration_needs(f: Facts, head: SymbolId, sid: SentenceId, ps: Seq<Part>)
    requires
        ps.len() > 0,
    ensures
        ({
            let r = domain_extracted(f, head, sid, ps);
            let rel = name_of(f.layer, head);
            let named = ps.len() > 1 && ps[1] is Sym;
            let placed = ps.len() > 2 && (ps[2] matches Part::Lit(l) && !l.is_str && (crate::text::parsed(
                l.text,
                usize::MAX as nat,
            ) matches Some(n) && n >= 1));
            let classed = ps.len() > 3 && denoted_via(f, Scope::Base, Set::empty(), ps[3]) is Some;
            &&& r is Ok <==> named && placed && classed && ps.len() == 4
            &&& !named ==> r == Err::<(SymbolId, nat, RelationDomain), ErrorView>(
                ErrorView::Domain { sid, rel, arg: 0, domain: "Relation"@ },
            )
            &&& named && !placed ==> r == Err::<(SymbolId, nat, RelationDomain), ErrorView>(
                ErrorView::Domain { sid, rel, arg: 1, domain: "PositiveInteger"@ },
            )
            &&& named && placed && !classed ==> r == Err::<(SymbolId, nat, RelationDomain), ErrorView>(
                ErrorView::Domain { sid, rel, arg: 2, domain: "Class"@ },
            )
            &&& named && placed && classed && ps.len() > 4 ==> r == Err::<(SymbolId, nat, RelationDomain), ErrorView>(
                ErrorView::Arity { sid, rel, expected: 3, got: (ps.len() - 1) as nat },
            )
        }),
{
}

/// A declaration of a range is read exactly where it names a function and a class, and
/// nothing else; the first of these that is not there is what is reported.
pub proof fn law_what_a_range_declaration_needs(f: Facts, head: SymbolId, sid: SentenceId, ps: Seq<Part>)
    requires
        ps.len() > 0,
    ensures
        ({
            let r = range_extracted(f, head, sid, ps);
            let rel = name_of(f.layer, head);
            let named = ps.len() > 1 && ps[1] is Sym;
            let class = denoted_via(f, Scope::Base, Set::empty(), ps[2]);
            let classed = ps.len() > 2 && class is Some;
            &&& named && classed && ps.len() == 3 ==> r == Ok::<(SymbolId, RelationRange), ErrorView>(
                (
                    ps[1]->Sym_0,
                    if head == f.roles.range {
                        RelationRange::Range(class->0)
                    } else {
                        RelationRange::RangeSubclass(class->0)
                    },
                ),
            )
            &&& !named ==> r == Err::<(SymbolId, RelationRange), ErrorView>(
                ErrorView::Domain { sid, rel, arg: 0, domain: "Function"@ },
            )
            &&& named && !classed ==> r == Err::<(SymbolId, RelationRange), ErrorView>(
                ErrorView::Domain { sid, rel, arg: 1, domain: "Function"@ },
            )
            &&& named && classed && ps.len() > 3 ==> r == Err::<(SymbolId, RelationRange), ErrorView>(
                ErrorView::Arity { sid, rel, expected: 2, got: (ps.len() - 1) as nat },
            )
        }),
{
}

/// The event is in the list.
pub open spec fn tells(out: Seq<EventView>, e: EventView) -> bool {
    exists|k: int| 0 <= k < out.len() && #[trigger] out[k] == e
}

/// A function is reported for two ranges exactly if some promoted root declares a range and
/// some promoted root a subclass range for it.
pub proof fn law_two_ranges_are_reported(f: Facts, func: SymbolId)
    requires
        f.layer.names.dom().contains(func),
    ensures
        tells(
            double_range(f, func),
            EventView::Diagnostic(ErrorView::DoubleRange { sym: f.layer.names[func] }),
        ) <==> (exists|i: int| range_root(f, f.roles.range, func, Scope::Base, i)) && (exists|j: int|
            range_root(f, f.roles.range_subclass, func, Scope::Base, j)),
{
    let out = double_range(f, func);
    lemma_some_declared(f, f.roles.range, func);
    lemma_some_declared(f, f.roles.range_subclass, func);
    if out.len() > 0 {
        assert(out[0] == EventView::Diagnostic(ErrorView::DoubleRange { sym: f.layer.names[func] }));
    }
}

proof fn lemma_some_declared(f: Facts, head: SymbolId, func: SymbolId)
    ensures
        declarations(f, head, func, Scope::Base).len() > 0 <==> exists|i: int| range_root(f, head, func, Scope::Base, i),
{
    let ds = declarations(f, head, func, Scope::Base);
    let p = about(f.layer, head, func, Scope::Base);
    let rs = f.layer.roots;
    if ds.len() > 0 {
        assert(ds.contains(ds[0]));
        lemma_picked(rs, p, ds[0]);
        let i = choose|i: int| 0 <= i < rs.len() && p(#[trigger] rs[i]) && rs[i].sid == ds[0];
        assert(range_root(f, head, func, Scope::Base, i));
    }
    if exists|i: int| range_root(f, head, func, Scope::Base, i) {
        let i = choose|i: int| range_root(f, head, func, Scope::Base, i);
        assert(p(rs[i]));
        lemma_picked(rs, p, rs[i].sid);
        let k = choose|k: int| 0 <= k < ds.len() && ds[k] == rs[i].sid;
        assert(ds.len() > 0);
    }
}

/// A declaration that comes in is reported for its relation and unsettles what is
/// remembered; one that is malformed is reported as such and unsettles nothing.
pub proof fn law_declarations_are_reported(f: Facts, sid: SentenceId, ps: Seq<Part>, h: SymbolId)
    requires
        body(f.layer, sid) == Some(ps),
        head_of(ps) == Some(h),
    ensures
        h == f.roles.domain || h == f.roles.domain_subclass ==> match domain_extracted(f, h, sid, ps) {
            Ok((rel, _, _)) => tells(
                effect(f, Facet::Domain, EventView::RelationAdded { sid, head_id: h }).out,
                EventView::DomainRangeChanged { syms: seq![rel] },
            ) && effect(f, Facet::Domain, EventView::RelationAdded { sid, head_id: h }).all,
            Err(e) => effect(f, Facet::Domain, EventView::RelationAdded { sid, head_id: h }).out == seq![
                EventView::Diagnostic(e),
            ] && !effect(f, Facet::Domain, EventView::RelationAdded { sid, head_id: h }).all,
        },
        h == f.roles.range || h == f.roles.range_subclass ==> match range_extracted(f, h, sid, ps) {
            Ok((rel, _)) => tells(
                effect(f, Facet::Range, EventView::RelationAdded { sid, head_id: h }).out,
                EventView::DomainRangeChanged { syms: seq![rel] },
            ) && effect(f, Facet::Range, EventView::RelationAdded { sid, head_id: h }).all,
            Err(e) => effect(f, Facet::Range, EventView::RelationAdded { sid, head_id: h }).out == seq![
                EventView::Diagnostic(e),
            ] && !effect(f, Facet::Range, EventView::RelationAdded { sid, head_id: h }).all,
        },
{
    if h == f.roles.domain || h == f.roles.domain_subclass {
        let out = effect(f, Facet::Domain, EventView::RelationAdded { sid, head_id: h }).out;
        if let Ok((rel, _, _)) = domain_extracted(f, h, sid, ps) {
            assert(out[0] == (EventView::DomainRangeChanged { syms: seq![rel] }));
        }
    }
    if h == f.roles.range || h == f.roles.range_subclass {
        let out = effect(f, Facet::Range, EventView::RelationAdded { sid, head_id: h }).out;
        if let Ok((rel, _)) = range_extracted(f, h, sid, ps) {
            assert(out[out.len() - 1] == (EventView::DomainRangeChanged { syms: seq![rel] }));
        }
    }
}

} // verus!
