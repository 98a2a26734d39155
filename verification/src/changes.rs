//! Changes of the roots, what is reported of them, and that what was remembered
//! before is true again once the reports were taken in.
use vstd::prelude::*;

use crate::classify::bodies_of;
use crate::docs::{
    all_doc_syms, clears_docs, doc_of, doc_syms, doc_views, docs_after, docs_after_all, docs_of, docs_true, documented,
    headed_seen, DocEntry,
};
use crate::events::EventView;
use crate::lattice::{
    below_step, fact_step, lattice_stale, mined, moves_facts, moves_relations, object_of, reach_stale, FactGraph,
    SubrelGraph,
};
use crate::lattice_cache::{lattice_true, reach_fits, reach_true, Reach};
use crate::memo::MemoKey;
use crate::query_cache::{answers_left, answers_true, law_answers_follow_the_taxonomy, AnswersView};
use crate::semantic::{Facts, SemanticLayer};
use crate::signature::declarations;
use crate::store::{
    about, body, head_of, headed_by, is_root, lemma_root_place, picked, promoted, retracted, root_is, root_place,
    root_seen_in, rooted, roots_distinct, seen_in, tree, unrooted, without_session, LayerView, RootView, Scope, SessionId,
};
use crate::taxonomy::{
    edge_stated, law_index_follows_addition, law_index_follows_promotion, law_index_follows_reference,
    law_index_follows_removal, law_index_follows_retraction, law_silence_keeps_the_taxonomy, lemma_rebuilt_entries,
    rebuilt, roots_live, tax_steps,
};
use crate::types::{SentenceId, SymbolId};
use crate::walk::{is_path, linked, path_between, reachable, Graph, Walk};

verus! {

/// A change of the roots.
pub enum Change {
    /// A stored sentence that is no root becomes one, held by the session.
    Added { sid: SentenceId, session: SessionId },
    /// A root is promoted.
    Promoted { sid: SentenceId },
    /// A session takes hold of a root.
    Referenced { sid: SentenceId, session: SessionId },
    /// A session is dropped.
    Retracted { session: SessionId },
    /// A root goes out.
    Removed { sid: SentenceId },
}

/// The change can happen.
pub open spec fn possible(v: LayerView, c: Change) -> bool {
    match c {
        Change::Added { sid, .. } => !is_root(v.roots, sid) && body(v, sid) is Some,
        Change::Referenced { sid, .. } => is_root(v.roots, sid),
        Change::Removed { sid } => body(v, sid) is Some,
        _ => true,
    }
}

/// The roots after the change.
pub open spec fn roots_after(rs: Seq<RootView>, c: Change) -> Seq<RootView> {
    match c {
        Change::Added { sid, session } => rooted(rs, sid, session),
        Change::Promoted { sid } => promoted(rs, sid),
        Change::Referenced { sid, session } => rooted(rs, sid, session),
        Change::Retracted { session } => retracted(rs, session),
        Change::Removed { sid } => unrooted(rs, sid),
    }
}

/// The sentences after the change: the same, with other roots.
pub open spec fn layer_after(v: LayerView, c: Change) -> LayerView {
    LayerView { roots: roots_after(v.roots, c), ..v }
}

/// What is reported of the sentences.
pub open spec fn root_reports(v: LayerView, c: Change) -> Seq<EventView> {
    match c {
        Change::Added { sid, .. } => match body(v, sid) {
            Some(ps) => match head_of(ps) {
                Some(h) => seq![EventView::RootAdded { sid }, EventView::RelationAdded { sid, head_id: h }],
                None => seq![EventView::RootAdded { sid }],
            },
            None => Seq::empty(),
        },
        Change::Promoted { sid } => seq![EventView::AxiomsPromoted { sids: seq![sid] }],
        Change::Referenced { sid, session } => seq![EventView::SessionReferenced { session, sids: seq![sid] }],
        Change::Retracted { session } => seq![EventView::SessionRetracted { session }],
        Change::Removed { sid } => match body(v, sid) {
            Some(ps) => match head_of(ps) {
                Some(h) => seq![
                    EventView::RootRemoved { sentences: bodies_of(v, tree(v.entries, sid)) },
                    EventView::RelationRemoved { sid, sentence: ps },
                ],
                None => seq![EventView::RootRemoved { sentences: bodies_of(v, tree(v.entries, sid)) }],
            },
            None => Seq::empty(),
        },
    }
}

/// The facts after the change, the taxonomy told of it.
pub open spec fn facts_after(f: Facts, c: Change) -> Facts {
    let w = layer_after(f.layer, c);
    Facts { layer: w, edges: tax_steps(w, f.roles, f.edges, root_reports(f.layer, c)).0, roles: f.roles }
}

/// What is reported of the change, by the sentences and by the taxonomy.
pub open spec fn reports(f: Facts, c: Change) -> Seq<EventView> {
    let es = root_reports(f.layer, c);
    es + tax_steps(layer_after(f.layer, c), f.roles, f.edges, es).1
}

/// The taxonomy is that of the roots.
pub open spec fn in_step(f: Facts) -> bool {
    f.edges == rebuilt(f.layer, f.roles, f.layer.roots)
}

/// A change, reported, leaves the taxonomy that of the roots.
pub proof fn law_changes_keep_the_taxonomy_in_step(f: Facts, c: Change)
    requires
        roots_distinct(f.layer.roots),
        roots_live(f.layer.roots),
        possible(f.layer, c),
        in_step(f),
    ensures
        in_step(facts_after(f, c)),
{
    let v = f.layer;
    let w = layer_after(v, c);
    let es = root_reports(v, c);
    reveal_with_fuel(tax_steps, 3);
    match c {
        Change::Added { sid, session } => {
            let ps = body(v, sid)->0;
            match head_of(ps) {
                Some(h) => {
                    assert(es.drop_last() =~= seq![EventView::RootAdded { sid }]);
                    assert(es.drop_last().drop_last() =~= Seq::empty());
                    law_index_follows_addition(v, f.roles, sid, session, h, ps);
                },
                None => {
                    assert(es.drop_last() =~= Seq::empty());
                    lemma_rebuilt_entries(v, w, f.roles, v.roots);
                    assert(w.roots.drop_last() =~= v.roots);
                },
            }
        },
        Change::Promoted { sid } => {
            assert(es.drop_last() =~= Seq::empty());
            law_index_follows_promotion(v, f.roles, sid);
        },
        Change::Referenced { sid, session } => {
            assert(es.drop_last() =~= Seq::empty());
            law_index_follows_reference(v, f.roles, sid, session);
        },
        Change::Retracted { session } => {
            assert(es.drop_last() =~= Seq::empty());
            law_index_follows_retraction(v, f.roles, session);
        },
        Change::Removed { sid } => {
            let ps = body(v, sid)->0;
            match head_of(ps) {
                Some(h) => {
                    assert(es.drop_last() =~= seq![
                        EventView::RootRemoved { sentences: bodies_of(v, tree(v.entries, sid)) },
                    ]);
                    assert(es.drop_last().drop_last() =~= Seq::empty());
                    law_index_follows_removal(v, f.roles, sid, ps);
                },
                None => {
                    assert(es.drop_last() =~= Seq::empty());
                    law_index_follows_removal(v, f.roles, sid, ps);
                    lemma_untracked(f, sid);
                },
            }
        },
    }
}

/// A root that states no edge has no record.
proof fn lemma_untracked(f: Facts, sid: SentenceId)
    requires
        in_step(f),
        body(f.layer, sid) matches Some(ps) && head_of(ps) is None,
    ensures
        !crate::taxonomy::tracked_edge(f.edges, sid),
{
    lemma_recorded(f, f.layer.roots, sid);
}

proof fn lemma_recorded(f: Facts, roots: Seq<RootView>, sid: SentenceId)
    requires
        !(edge_stated(f.layer, f.roles, sid) matches Some(Ok(_))),
    ensures
        !crate::taxonomy::tracked_edge(rebuilt(f.layer, f.roles, roots), sid),
    decreases roots.len(),
{
    if roots.len() > 0 {
        lemma_recorded(f, roots.drop_last(), sid);
        let rs = rebuilt(f.layer, f.roles, roots);
        let ds = rebuilt(f.layer, f.roles, roots.drop_last());
        if crate::taxonomy::tracked_edge(rs, sid) {
            let i = choose|i: int| crate::taxonomy::record_is(rs, sid, i);
            if i < ds.len() {
                assert(crate::taxonomy::record_is(ds, sid, i));
            }
        }
    }
}

/// Answers about the taxonomy that were true before a change are true of what is
/// remembered after it.
pub proof fn law_answers_follow_changes(a: AnswersView, f: Facts, c: Change)
    requires
        answers_true(a, f),
    ensures
        answers_true(answers_left(a, reports(f, c)), facts_after(f, c)),
{
    let w = layer_after(f.layer, c);
    let es = root_reports(f.layer, c);
    let p = tax_steps(w, f.roles, f.edges, es);
    law_answers_follow_the_taxonomy(a, f, w, es);
    if crate::query_cache::taxonomy_changed(p.1) {
        let i = choose|i: int| 0 <= i < p.1.len() && #[trigger] p.1[i] is TaxonomyChanged;
        assert(reports(f, c)[es.len() + i] == p.1[i]);
        assert(crate::query_cache::taxonomy_changed(reports(f, c)));
    }
    if crate::query_cache::roots_changed(p.1) {
        let i = choose|i: int| 0 <= i < p.1.len() && (#[trigger] p.1[i] is TaxonomyChanged || p.1[i] is OtherRootsChanged);
        let e = reports(f, c)[es.len() + i];
        assert(e is TaxonomyChanged || e is OtherRootsChanged);
        assert(crate::query_cache::roots_changed(reports(f, c)));
    }
}

// ---------------------------------------------------------------------------
// Relations below others, and what facts lead to
// ---------------------------------------------------------------------------

/// The two graphs have the same edges.
pub open spec fn same_links<G: Graph>(g: &G, h: &G) -> bool {
    forall|a: u64, b: u64, label: Option<u64>| #[trigger] g.links(a, b, label) == h.links(a, b, label)
}

proof fn lemma_reach_kept<G: Graph>(g: &G, h: &G, a: u64, b: u64)
    requires
        same_links(g, h),
        reachable(g, a, b),
    ensures
        reachable(h, a, b),
{
    let p = choose|p: Seq<u64>| path_between(g, a, b, p);
    assert forall|i: int, j: int| 0 <= i < p.len() && j == i + 1 && j < p.len() implies linked(
        h,
        #[trigger] p[i],
        #[trigger] p[j],
    ) by {
        assert(linked(g, p[i], p[j]));
        let label = choose|label: Option<u64>| #[trigger] g.links(p[i], p[j], label);
        assert(h.links(p[i], p[j], label));
    }
    assert(is_path(h, p));
    assert(path_between(h, a, b, p));
}

proof fn lemma_same_reach<G: Graph>(g: &G, h: &G)
    requires
        same_links(g, h),
    ensures
        forall|a: u64, b: u64| #[trigger] reachable(g, a, b) == reachable(h, a, b),
{
    assert(same_links(h, g)) by {
        assert forall|a: u64, b: u64, label: Option<u64>| #[trigger] h.links(a, b, label) == g.links(a, b, label) by {
            assert(g.links(a, b, label) == h.links(a, b, label));
        }
    }
    assert forall|a: u64, b: u64| #[trigger] reachable(g, a, b) == reachable(h, a, b) by {
        if reachable(g, a, b) {
            lemma_reach_kept(g, h, a, b);
        }
        if reachable(h, a, b) {
            lemma_reach_kept(h, g, a, b);
        }
    }
}

proof fn lemma_covers_kept<G: Graph>(g: &G, h: &G, w: Walk, start: u64)
    requires
        same_links(g, h),
        w.covers(g, start),
    ensures
        w.covers(h, start),
{
    lemma_same_reach(g, h);
    assert forall|b: u64| #[trigger] w.nodes().contains(b) <==> reachable(h, start, b) by {
        assert(reachable(g, start, b) == reachable(h, start, b));
    }
    assert forall|i: int| 1 <= i < w.nodes().len() implies w.hop_fits(h, #[trigger] w.nodes()[i], i) by {
        let b = w.nodes()[i];
        assert(w.hop_fits(g, b, i));
        assert(g.links(w.back()[b].0, b, w.back()[b].1) == h.links(w.back()[b].0, b, w.back()[b].1));
    }
}

proof fn lemma_covers_beyond_kept<G: Graph>(g: &G, h: &G, w: Walk, start: u64)
    requires
        same_links(g, h),
        w.covers_beyond(g, start),
    ensures
        w.covers_beyond(h, start),
{
    lemma_same_reach(g, h);
    assert forall|b: u64| #[trigger] w.nodes().contains(b) <==> b != start && reachable(h, start, b) by {
        assert(reachable(g, start, b) == reachable(h, start, b));
    }
    assert forall|i: int| 0 <= i < w.nodes().len() implies w.step_fits(h, start, #[trigger] w.nodes()[i], i) by {
        let b = w.nodes()[i];
        assert(w.step_fits(g, start, b, i));
        assert(g.links(w.back()[b].0, b, w.back()[b].1) == h.links(w.back()[b].0, b, w.back()[b].1));
    }
}

/// A scope goes on seeing the roots that a change does not name.
proof fn lemma_others_seen(rs: Seq<RootView>, c: Change, sid: SentenceId, scope: Scope)
    requires
        roots_distinct(rs),
        match c {
            Change::Added { sid: s, .. } => s != sid && !is_root(rs, s),
            Change::Promoted { sid: s } => s != sid,
            _ => false,
        },
    ensures
        root_seen_in(roots_after(rs, c), sid, scope) == root_seen_in(rs, sid, scope),
{
    let t = roots_after(rs, c);
    assert(roots_distinct(t)) by {
        assert forall|i: int, j: int| 0 <= i < t.len() && 0 <= j < t.len() && i != j implies #[trigger] t[i].sid
            != #[trigger] t[j].sid by {
            if let Change::Added { sid: s, .. } = c {
                if i == rs.len() {
                    assert(!root_is(rs, s, j));
                }
                if j == rs.len() {
                    assert(!root_is(rs, s, i));
                }
            }
        }
    }
    if is_root(rs, sid) {
        let i = choose|i: int| root_is(rs, sid, i);
        lemma_root_place(rs, sid, i);
        assert(root_is(t, sid, i));
        lemma_root_place(t, sid, i);
        if let Change::Promoted { sid: s } = c {
            if is_root(rs, s) {
                assert(root_is(rs, s, root_place(rs, s)));
            }
        }
    }
    if is_root(t, sid) {
        let i = choose|i: int| root_is(t, sid, i);
        assert(root_is(rs, sid, i));
    }
}

/// Nothing reported of the taxonomy, nothing changed in it.
pub proof fn lemma_quiet_taxonomy(f: Facts, c: Change)
    requires
        forall|i: int| 0 <= i < reports(f, c).len() ==> !(#[trigger] reports(f, c)[i] is TaxonomyChanged),
    ensures
        facts_after(f, c).edges == f.edges,
{
    let w = layer_after(f.layer, c);
    let es = root_reports(f.layer, c);
    let p = tax_steps(w, f.roles, f.edges, es);
    assert forall|i: int| 0 <= i < p.1.len() implies !(#[trigger] p.1[i] is TaxonomyChanged) by {
        assert(reports(f, c)[es.len() + i] == p.1[i]);
    }
    law_silence_keeps_the_taxonomy(w, f.roles, f.edges, es);
}

/// The change shows the scope a rule between relations that was promoted.
pub open spec fn uncovers_rule(v: LayerView, c: Change, scope: Scope) -> bool {
    c matches Change::Promoted { sid } && mined(v, sid) is Some && root_seen_in(roots_after(v.roots, c), sid, scope)
        != root_seen_in(v.roots, sid, scope)
}

/// A change that leaves the remembered relations leaves the rules that the scope
/// sees.
proof fn lemma_lattice_quiet(f: Facts, c: Change, sid: SentenceId, scope: Scope)
    requires
        roots_distinct(f.layer.roots),
        possible(f.layer, c),
        !lattice_stale(layer_after(f.layer, c), reports(f, c)),
        !uncovers_rule(f.layer, c, scope),
        mined(f.layer, sid) is Some,
    ensures
        root_seen_in(roots_after(f.layer.roots, c), sid, scope) == root_seen_in(f.layer.roots, sid, scope),
{
    let w = layer_after(f.layer, c);
    let es = root_reports(f.layer, c);
    let all = reports(f, c);
    assert(all[0] == es[0]);
    assert(!moves_relations(w, all[0]));
    match c {
        Change::Added { sid: s, .. } => {
            assert(mined(w, s) == mined(f.layer, s));
            assert(s != sid);
            lemma_others_seen(f.layer.roots, c, sid, scope);
        },
        Change::Promoted { sid: s } => {
            if s != sid {
                lemma_others_seen(f.layer.roots, c, sid, scope);
            }
        },
        _ => {},
    }
}

proof fn lemma_subrel_links(before: &SemanticLayer, after: &SemanticLayer, scope: Scope, c: Change)
    requires
        roots_distinct(before@.layer.roots),
        possible(before@.layer, c),
        after@ == facts_after(before@, c),
        !lattice_stale(after@.layer, reports(before@, c)),
        !uncovers_rule(before@.layer, c, scope),
    ensures
        same_links(&(SubrelGraph { layer: before, scope }), &(SubrelGraph { layer: after, scope })),
{
    let (f, g) = (before@, after@);
    let all = reports(f, c);
    assert(g.edges == f.edges) by {
        assert forall|i: int| 0 <= i < all.len() implies !(#[trigger] all[i] is TaxonomyChanged) by {
            assert(!moves_relations(g.layer, all[i]));
        }
        lemma_quiet_taxonomy(f, c);
    }
    assert forall|a: u64, b: u64, label: Option<u64>| #[trigger] below_step(f, scope, a, b, label) == below_step(
        g,
        scope,
        a,
        b,
        label,
    ) by {
        if let Some(sid) = label {
            assert(mined(g.layer, sid) == mined(f.layer, sid));
            if mined(f.layer, sid) is Some {
                lemma_lattice_quiet(f, c, sid, scope);
                assert(root_seen_in(roots_after(f.layer.roots, c), sid, scope) == root_seen_in(
                    f.layer.roots,
                    sid,
                    scope,
                ));
            }
        }
    }
    let (x, y) = (SubrelGraph { layer: before, scope }, SubrelGraph { layer: after, scope });
    assert forall|a: u64, b: u64, label: Option<u64>| #[trigger] x.links(a, b, label) == y.links(a, b, label) by {
        assert(below_step(f, scope, a, b, label) == below_step(g, scope, a, b, label));
    }
}

/// Remembered relations below others that were true before a change are true of
/// what is remembered after it, where the change does not promote a rule into
/// their scopes.
pub proof fn law_lattice_follows_changes(
    m: Map<MemoKey, Walk>,
    before: &SemanticLayer,
    after: &SemanticLayer,
    c: Change,
)
    requires
        roots_distinct(before@.layer.roots),
        possible(before@.layer, c),
        after@ == facts_after(before@, c),
        lattice_true(m, before),
        forall|k: MemoKey| #[trigger] m.dom().contains(k) ==> !uncovers_rule(before@.layer, c, k.0),
    ensures
        lattice_true(
            if lattice_stale(after@.layer, reports(before@, c)) {
                Map::empty()
            } else {
                m
            },
            after,
        ),
{
    if !lattice_stale(after@.layer, reports(before@, c)) {
        assert forall|k: MemoKey| #[trigger] m.dom().contains(k) implies m[k].covers(
            &(SubrelGraph { layer: after, scope: k.0 }),
            k.1,
        ) by {
            lemma_subrel_links(before, after, k.0, c);
            lemma_covers_kept(
                &(SubrelGraph { layer: before, scope: k.0 }),
                &(SubrelGraph { layer: after, scope: k.0 }),
                m[k],
                k.1,
            );
        }
    }
}

/// The roots that are picked stay the same where a root that is not picked comes
/// last.
pub proof fn lemma_picked_push(rs: Seq<RootView>, r: RootView, p: spec_fn(RootView) -> bool)
    ensures
        picked(rs.push(r), p) == if p(r) {
            picked(rs, p).push(r.sid)
        } else {
            picked(rs, p)
        },
{
    assert(rs.push(r).drop_last() =~= rs);
}

/// What is picked depends on what the predicate says of the roots.
pub proof fn lemma_picked_alike(rs: Seq<RootView>, p: spec_fn(RootView) -> bool, q: spec_fn(RootView) -> bool)
    requires
        forall|r: RootView| #[trigger] p(r) == q(r),
    ensures
        picked(rs, p) == picked(rs, q),
    decreases rs.len(),
{
    if rs.len() > 0 {
        lemma_picked_alike(rs.drop_last(), p, q);
    }
}

proof fn lemma_fact_links(before: &SemanticLayer, after: &SemanticLayer, scope: Scope, rels: &Walk, c: Change)
    requires
        roots_distinct(before@.layer.roots),
        possible(before@.layer, c),
        after@ == facts_after(before@, c),
        !reach_stale(after@.layer, reports(before@, c)),
    ensures
        same_links(&(FactGraph { layer: before, scope, rels }), &(FactGraph { layer: after, scope, rels })),
{
    let (f, g) = (before@, after@);
    let es = root_reports(f.layer, c);
    let all = reports(f, c);
    assert(all[0] == es[0]);
    assert(!moves_facts(all[0]) && !moves_relations(g.layer, all[0]));
    if es.len() > 1 {
        assert(all[1] == es[1]);
        assert(!moves_facts(all[1]));
    }
    assert forall|rel: SymbolId, x: SymbolId| #[trigger] declarations(f, rel, x, scope) == declarations(
        g,
        rel,
        x,
        scope,
    ) by {
        let (p, q) = (about(f.layer, rel, x, scope), about(g.layer, rel, x, scope));
        lemma_picked_alike(g.layer.roots, p, q);
        if let Change::Added { sid, session } = c {
            let r = RootView { sid, promoted: false, sessions: Set::empty().insert(session), hidden: Set::empty() };
            assert(g.layer.roots == f.layer.roots.push(r));
            lemma_picked_push(f.layer.roots, r, p);
        }
    }
    let (x, y) = (FactGraph { layer: before, scope, rels }, FactGraph { layer: after, scope, rels });
    assert forall|a: u64, b: u64, label: Option<u64>| #[trigger] x.links(a, b, label) == y.links(a, b, label) by {
        if let Some(sid) = label {
            assert(object_of(f.layer, sid) == object_of(g.layer, sid));
            if fact_step(f, scope, rels.nodes(), a, b, sid) {
                let i = choose|i: int|
                    0 <= i < rels.nodes().len() && declarations(f, #[trigger] rels.nodes()[i], a, scope).contains(sid);
                assert(declarations(g, rels.nodes()[i], a, scope).contains(sid));
            }
            if fact_step(g, scope, rels.nodes(), a, b, sid) {
                let i = choose|i: int|
                    0 <= i < rels.nodes().len() && declarations(g, #[trigger] rels.nodes()[i], a, scope).contains(sid);
                assert(declarations(f, rels.nodes()[i], a, scope).contains(sid));
            }
        }
    }
}

/// Remembered reachability that was true before a change is true of what is
/// remembered after it.
pub proof fn law_reach_follows_changes(s: Seq<Reach>, before: &SemanticLayer, after: &SemanticLayer, c: Change)
    requires
        roots_distinct(before@.layer.roots),
        possible(before@.layer, c),
        after@ == facts_after(before@, c),
        reach_true(s, before),
    ensures
        reach_true(
            if reach_stale(after@.layer, reports(before@, c)) {
                Seq::empty()
            } else {
                s
            },
            after,
        ),
{
    if !reach_stale(after@.layer, reports(before@, c)) {
        assert forall|i: int| 0 <= i < s.len() implies reach_fits(#[trigger] s[i], after) by {
            let e = s[i];
            assert(reach_fits(e, before));
            assert(!(c is Promoted)) by {
                let all = reports(before@, c);
                assert(all[0] == root_reports(before@.layer, c)[0]);
                assert(!moves_facts(all[0]));
            }
            lemma_subrel_links(before, after, e.scope, c);
            lemma_covers_kept(
                &(SubrelGraph { layer: before, scope: e.scope }),
                &(SubrelGraph { layer: after, scope: e.scope }),
                e.below,
                e.rel,
            );
            lemma_fact_links(before, after, e.scope, &e.below, c);
            lemma_covers_beyond_kept(
                &(FactGraph { layer: before, scope: e.scope, rels: &e.below }),
                &(FactGraph { layer: after, scope: e.scope, rels: &e.below }),
                e.reach,
                e.start,
            );
        }
    }
}

// ---------------------------------------------------------------------------
// What people read
// ---------------------------------------------------------------------------

/// The root has the head and is seen in the scope.
pub open spec fn headed_in(v: LayerView, head: SymbolId, scope: Scope) -> spec_fn(RootView) -> bool {
    |r: RootView| seen_in(r, scope) && (body(v, r.sid) matches Some(ps) && head_of(ps) == Some(head))
}

proof fn lemma_headed_seen(v: LayerView, head: SymbolId, scope: Scope, n: int)
    requires
        roots_distinct(v.roots),
        0 <= n <= v.roots.len(),
    ensures
        picked(v.roots.take(n), headed_by(v, head)).filter(|sid: SentenceId| root_seen_in(v.roots, sid, scope))
            == picked(v.roots.take(n), headed_in(v, head, scope)),
    decreases n,
{
    let rs = v.roots;
    let p = |sid: SentenceId| root_seen_in(rs, sid, scope);
    reveal(Seq::filter);
    if n == 0 {
        assert(rs.take(0) =~= Seq::empty());
    } else {
        lemma_headed_seen(v, head, scope, n - 1);
        let r = rs[n - 1];
        assert(rs.take(n).drop_last() =~= rs.take(n - 1));
        assert(rs.take(n).last() == r);
        assert(root_is(rs, r.sid, n - 1));
        lemma_root_place(rs, r.sid, n - 1);
        let s = picked(rs.take(n - 1), headed_by(v, head));
        assert(s.push(r.sid).drop_last() =~= s);
        assert(s.push(r.sid).last() == r.sid);
        assert(p(r.sid) == seen_in(r, scope));
    }
}

/// The roots of a head that a scope sees are picked in one pass.
proof fn lemma_headed_picked(v: LayerView, head: SymbolId, scope: Scope)
    requires
        roots_distinct(v.roots),
    ensures
        headed_seen(v, head, scope) == picked(v.roots, headed_in(v, head, scope)),
{
    lemma_headed_seen(v, head, scope, v.roots.len() as int);
    assert(v.roots.take(v.roots.len() as int) =~= v.roots);
}

/// What sentences say does not depend on which of them are roots.
proof fn lemma_docs_alike(v: LayerView, w: LayerView, head: SymbolId, target: SymbolId, sids: Seq<SentenceId>)
    requires
        v.entries == w.entries,
        v.names == w.names,
    ensures
        docs_of(v, head, target, sids) == docs_of(w, head, target, sids),
    decreases sids.len(),
{
    if sids.len() > 0 {
        lemma_docs_alike(v, w, head, target, sids.drop_last());
    }
}

/// A root can change where it says nothing about the symbol, or is picked as
/// before.
proof fn lemma_docs_update(
    v: LayerView,
    head: SymbolId,
    target: SymbolId,
    rs: Seq<RootView>,
    i: int,
    r: RootView,
    p: spec_fn(RootView) -> bool,
)
    requires
        0 <= i < rs.len(),
        r.sid == rs[i].sid,
        p(r) == p(rs[i]) || doc_of(v, head, target, r.sid) is None,
    ensures
        docs_of(v, head, target, picked(rs.update(i, r), p)) == docs_of(v, head, target, picked(rs, p)),
    decreases rs.len(),
{
    let d = rs.drop_last();
    let s = picked(d, p);
    let x = rs.last().sid;
    assert(s.push(x).drop_last() =~= s);
    if i < d.len() {
        assert(rs.update(i, r).drop_last() =~= d.update(i, r));
        lemma_docs_update(v, head, target, d, i, r, p);
        let t = picked(d.update(i, r), p);
        assert(t.push(x).drop_last() =~= t);
    } else {
        assert(rs.update(i, r).drop_last() =~= d);
    }
}

/// Roots that only the dropped session saw are picked by no other scope.
pub proof fn lemma_picked_retracted(rs: Seq<RootView>, session: SessionId, p: spec_fn(RootView) -> bool)
    requires
        forall|r: RootView| #[trigger] p(r) == p(without_session(r, session)),
        forall|r: RootView| #[trigger] p(r) && !r.promoted ==> r.sessions != Set::<SessionId>::empty(),
    ensures
        picked(retracted(rs, session), p) == picked(rs, p),
    decreases rs.len(),
{
    if rs.len() > 0 {
        let d = rs.drop_last();
        lemma_picked_retracted(d, session, p);
        let r = without_session(rs.last(), session);
        assert(p(rs.last()) == p(r));
        let s = retracted(d, session);
        assert(s.push(r).drop_last() =~= s);
        if !(r.promoted || r.sessions != Set::<SessionId>::empty()) {
            assert(!p(r));
        }
    }
}

/// What an event leaves of less was left of more, unchanged.
proof fn lemma_docs_step<V>(f: Facts, n: Map<MemoKey, V>, m: Map<MemoKey, V>, e: EventView, k: MemoKey)
    requires
        docs_after(f, n, e).dom().contains(k),
        n.dom().contains(k) ==> m.dom().contains(k),
    ensures
        n.dom().contains(k),
        docs_after(f, n, e)[k] == n[k],
        docs_after(f, m, e).dom().contains(k),
{
}

proof fn lemma_docs_left<V>(f: Facts, m: Map<MemoKey, V>, es: Seq<EventView>, k: MemoKey)
    requires
        docs_after_all(f, m, es).dom().contains(k),
    ensures
        m.dom().contains(k),
        docs_after_all(f, m, es)[k] == m[k],
        forall|i: int| 0 <= i < es.len() ==> docs_after(f, m, #[trigger] es[i]).dom().contains(k),
    decreases es.len(),
{
    if es.len() > 0 {
        let d = es.drop_last();
        let n = docs_after_all(f, m, d);
        lemma_docs_step(f, n, n, es.last(), k);
        lemma_docs_left(f, m, d, k);
        lemma_docs_step(f, n, m, es.last(), k);
        assert forall|i: int| 0 <= i < es.len() implies docs_after(f, m, #[trigger] es[i]).dom().contains(k) by {
            if i < d.len() {
                assert(d[i] == es[i]);
            }
        }
    }
}

/// What is reported to the entries for people to read: of a session, that it took
/// hold of the root or was dropped; of any other change, that the taxonomy or
/// other roots changed.
pub open spec fn tells_readers(es: Seq<EventView>, c: Change) -> bool {
    match c {
        Change::Referenced { sid, session } => es.contains(EventView::SessionReferenced { session, sids: seq![sid] }),
        Change::Retracted { session } => es.contains(EventView::SessionRetracted { session }),
        _ => exists|i: int| 0 <= i < es.len() && clears_docs(#[trigger] es[i]),
    }
}

proof fn lemma_docs_of_head(f: Facts, c: Change, head: SymbolId, sym: SymbolId, scope: Scope)
    requires
        roots_distinct(f.layer.roots),
        head == f.roles.documentation || head == f.roles.format || head == f.roles.term_format,
        match c {
            Change::Referenced { sid, session } => is_root(f.layer.roots, sid) && (scope != Scope::Session(session)
                || !doc_syms(f, sid).contains(sym)),
            Change::Retracted { session } => scope != Scope::Session(session),
            _ => false,
        },
    ensures
        docs_of(f.layer, head, sym, headed_seen(f.layer, head, scope)) == docs_of(
            layer_after(f.layer, c),
            head,
            sym,
            headed_seen(layer_after(f.layer, c), head, scope),
        ),
{
    let (v, w) = (f.layer, layer_after(f.layer, c));
    let (p, q) = (headed_in(v, head, scope), headed_in(w, head, scope));
    assert(roots_distinct(w.roots)) by {
        if let Change::Retracted { session } = c {
            crate::store::lemma_retracted(v.roots, session);
        }
    }
    lemma_headed_picked(v, head, scope);
    lemma_headed_picked(w, head, scope);
    lemma_picked_alike(w.roots, p, q);
    lemma_docs_alike(v, w, head, sym, picked(w.roots, q));
    match c {
        Change::Referenced { sid, session } => {
            let i = root_place(v.roots, sid);
            assert(root_is(v.roots, sid, i));
            let r = RootView { sessions: v.roots[i].sessions.insert(session), ..v.roots[i] };
            lemma_docs_update(v, head, sym, v.roots, i, r, p);
        },
        Change::Retracted { session } => {
            lemma_picked_retracted(v.roots, session, p);
        },
        _ => {},
    }
}

/// Entries for people to read that were true before a change are true of what is
/// remembered after it.
pub proof fn law_docs_follow_changes(m: Map<MemoKey, Vec<DocEntry>>, f: Facts, c: Change, es: Seq<EventView>)
    requires
        roots_distinct(f.layer.roots),
        possible(f.layer, c),
        docs_true(m, f),
        tells_readers(es, c),
    ensures
        docs_true(docs_after_all(facts_after(f, c), m, es), facts_after(f, c)),
{
    let g = facts_after(f, c);
    let left = docs_after_all(g, m, es);
    let i = match c {
        Change::Referenced { sid, session } => {
            es.index_of(EventView::SessionReferenced { session, sids: seq![sid] })
        },
        Change::Retracted { session } => es.index_of(EventView::SessionRetracted { session }),
        _ => choose|i: int| 0 <= i < es.len() && clears_docs(#[trigger] es[i]),
    };
    assert forall|k: MemoKey| #[trigger] left.dom().contains(k) implies doc_views(left[k]@) == documented(g, k.1, k.0) by {
        lemma_docs_left(g, m, es, k);
        assert(docs_after(g, m, es[i]).dom().contains(k));
        if let Change::Referenced { sid, session } = c {
            assert(seq![sid].drop_last() =~= Seq::empty());
            reveal_with_fuel(all_doc_syms, 2);
            assert(all_doc_syms(g, seq![sid]) =~= doc_syms(f, sid));
        }
        lemma_docs_of_head(f, c, f.roles.documentation, k.1, k.0);
        lemma_docs_of_head(f, c, f.roles.format, k.1, k.0);
        lemma_docs_of_head(f, c, f.roles.term_format, k.1, k.0);
    }
}

} // verus!
