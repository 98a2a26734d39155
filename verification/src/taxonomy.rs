//! The taxonomy: which symbol stands directly under which, and in whose eyes.
use dashmap::DashMap;
use vstd::prelude::*;

use crate::content::Part;
use crate::events::{event_views, lemma_event_push, taxonomy_change, ErrorView, Event, EventView, SemanticError};
use crate::roles::{rel_name, tax_role, Roles, TaxRelation};
use crate::shared::{index_entries, index_get, index_insert, index_new, index_remove};
use crate::store::{
    body, head_of, is_promoted, is_root, lemma_root_place, promoted, retracted, root_is, root_place, rooted,
    roots_distinct, session_id, sessions_holding, unrooted, without_session, Element, LayerView, RootView, Scope,
    Sentence, SessionId, SyntacticLayer,
};
use crate::types::{SentenceId, SymbolId};

verus! {

/// One edge: `to` stands under `from` by the relation.
#[derive(Clone, Copy, Debug, PartialEq, Eq, Structural)]
pub struct TaxEdge {
    pub from: SymbolId,
    pub to: SymbolId,
    pub rel: TaxRelation,
}

/// The edge that a root states, and where it counts.
#[derive(Debug)]
pub struct EdgeRecord {
    pub sid: SentenceId,
    pub edge: TaxEdge,
    pub scopes: Vec<Scope>,
}

/// A record, its scopes as a set.
#[verifier::ext_equal]
pub struct RecordView {
    pub sid: SentenceId,
    pub edge: TaxEdge,
    pub scopes: Set<Scope>,
}

impl View for EdgeRecord {
    type V = RecordView;

    open spec fn view(&self) -> RecordView {
        RecordView { sid: self.sid, edge: self.edge, scopes: self.scopes@.to_set() }
    }
}

/// The views of the records.
pub open spec fn record_views(rs: Seq<EdgeRecord>) -> Seq<RecordView> {
    Seq::new(rs.len(), |i: int| rs[i]@)
}

/// The record at the place is that of the sentence.
pub open spec fn record_is(rs: Seq<RecordView>, sid: SentenceId, i: int) -> bool {
    0 <= i < rs.len() && rs[i].sid == sid
}

/// The sentence has a record.
pub open spec fn tracked_edge(rs: Seq<RecordView>, sid: SentenceId) -> bool {
    exists|i: int| record_is(rs, sid, i)
}

/// Where the record of the sentence is.
pub open spec fn record_place(rs: Seq<RecordView>, sid: SentenceId) -> int {
    choose|i: int| record_is(rs, sid, i)
}

/// No sentence has two records.
pub open spec fn records_distinct(rs: Seq<RecordView>) -> bool {
    forall|i: int, j: int|
        0 <= i < rs.len() && 0 <= j < rs.len() && i != j ==> #[trigger] rs[i].sid != #[trigger] rs[j].sid
}

pub proof fn lemma_record_place(rs: Seq<RecordView>, sid: SentenceId, i: int)
    requires
        records_distinct(rs),
        record_is(rs, sid, i),
    ensures
        tracked_edge(rs, sid),
        record_place(rs, sid) == i,
{
    let j = record_place(rs, sid);
    assert(record_is(rs, sid, j));
    assert(rs[i].sid == rs[j].sid);
}

/// The symbol that an argument of a taxonomy statement names.
pub open spec fn end_id(p: Part) -> Option<SymbolId> {
    match p {
        Part::Sym(id) => Some(id),
        Part::Var(id, row) => if row {
            None
        } else {
            Some(id)
        },
        _ => None,
    }
}

/// The edge that the sentence states: nothing if it states none, an error
/// if it states one badly.
pub open spec fn extracted(roles: Roles, sid: SentenceId, ps: Seq<Part>) -> Option<Result<TaxEdge, ErrorView>> {
    match head_of(ps) {
        None => None,
        Some(head) => match tax_role(roles, head) {
            None => None,
            Some(rel) => if ps.len() != 3 {
                Some(
                    Err(
                        ErrorView::Arity {
                            sid,
                            rel: rel_name(rel),
                            expected: 2,
                            got: (ps.len() - 1) as nat,
                        },
                    ),
                )
            } else if ps[1] is Lit {
                Some(Err(ErrorView::Domain { sid, rel: rel_name(rel), arg: 0, domain: "Entity"@ }))
            } else if end_id(ps[1]) is None {
                None
            } else if ps[2] is Lit {
                Some(Err(ErrorView::Domain { sid, rel: rel_name(rel), arg: 1, domain: "Entity"@ }))
            } else if end_id(ps[2]) is None {
                None
            } else {
                Some(Ok(TaxEdge { from: end_id(ps[2])->0, to: end_id(ps[1])->0, rel }))
            },
        },
    }
}

/// The edge that a stored sentence states.
pub open spec fn edge_stated(v: LayerView, roles: Roles, sid: SentenceId) -> Option<Result<TaxEdge, ErrorView>> {
    match body(v, sid) {
        None => None,
        Some(ps) => extracted(roles, sid, ps),
    }
}

/// How an argument of a taxonomy statement is taken.
enum EdgeArg {
    Id(SymbolId),
    Skip,
    Bad,
}

fn classify_arg(el: &Element) -> (r: EdgeArg)
    ensures
        r matches EdgeArg::Bad <==> el@ is Lit,
        r matches EdgeArg::Id(id) ==> end_id(el@) == Some(id),
        r matches EdgeArg::Skip ==> end_id(el@) is None,
{
    match el {
        Element::Symbol(s) => EdgeArg::Id(s.id()),
        Element::Variable { id, is_row, .. } => if *is_row {
            EdgeArg::Skip
        } else {
            EdgeArg::Id(*id)
        },
        Element::Literal(_) => EdgeArg::Bad,
        _ => EdgeArg::Skip,
    }
}

/// What the extraction of an edge gives, the error by its view.
pub open spec fn extraction(r: Option<Result<TaxEdge, SemanticError>>) -> Option<Result<TaxEdge, ErrorView>> {
    match r {
        None => None,
        Some(Ok(e)) => Some(Ok(e)),
        Some(Err(e)) => Some(Err(e@)),
    }
}

/// The edge that the sentence states.
pub fn try_extract_edge_from(roles: &Roles, sid: SentenceId, sentence: &Sentence) -> (r: Option<
    Result<TaxEdge, SemanticError>,
>)
    ensures
        extraction(r) == extracted(*roles, sid, sentence@),
{
    let head = match sentence.head_symbol() {
        None => return None,
        Some(h) => h,
    };
    let rel = match roles.tax_role_of(head) {
        None => return None,
        Some(rel) => rel,
    };
    if sentence.elements.len() != 3 {
        return Some(
            Err(
                SemanticError::ArityMismatch {
                    sid,
                    rel: rel.name().to_owned(),
                    expected: 2,
                    got: sentence.elements.len() - 1,
                },
            ),
        );
    }
    assert(sentence@[1] == sentence.elements@[1]@);
    assert(sentence@[2] == sentence.elements@[2]@);
    let to = match classify_arg(&sentence.elements[1]) {
        EdgeArg::Id(id) => id,
        EdgeArg::Skip => return None,
        EdgeArg::Bad => {
            return Some(
                Err(
                    SemanticError::DomainMismatch {
                        sid,
                        rel: rel.name().to_owned(),
                        arg: 0,
                        domain: "Entity".to_owned(),
                    },
                ),
            );
        },
    };
    let from = match classify_arg(&sentence.elements[2]) {
        EdgeArg::Id(id) => id,
        EdgeArg::Skip => return None,
        EdgeArg::Bad => {
            return Some(
                Err(
                    SemanticError::DomainMismatch {
                        sid,
                        rel: rel.name().to_owned(),
                        arg: 1,
                        domain: "Entity".to_owned(),
                    },
                ),
            );
        },
    };
    Some(Ok(TaxEdge { from, to, rel }))
}

/// The sessions as scopes.
pub open spec fn session_scopes(sessions: Set<SessionId>) -> Set<Scope> {
    Set::new(|s: Scope| s matches Scope::Session(id) && sessions.contains(id))
}

/// Where an edge counts that a promoted root or the sessions state.
pub open spec fn scopes_where(promoted: bool, sessions: Set<SessionId>) -> Set<Scope> {
    if promoted {
        set![Scope::Base]
    } else {
        session_scopes(sessions)
    }
}

/// Where an edge counts that a root states.
pub open spec fn edge_scopes_of(v: LayerView, sid: SentenceId) -> Set<Scope> {
    scopes_where(is_promoted(v.roots, sid), sessions_holding(v.roots, sid))
}

fn edge_scopes(layer: &SyntacticLayer, sid: SentenceId) -> (r: Vec<Scope>)
    requires
        layer.wf(),
    ensures
        r@.to_set() == edge_scopes_of(layer@, sid),
{
    let mut out: Vec<Scope> = Vec::new();
    if layer.is_axiom(sid) {
        out.push(Scope::Base);
        assert(out@[0] == Scope::Base);
        assert(out@.to_set() =~= set![Scope::Base]);
        return out;
    }
    let sessions = layer.sessions_of(sid);
    let mut i: usize = 0;
    while i < sessions.len()
        invariant
            i <= sessions@.len(),
            out@.len() == i,
            forall|j: int| 0 <= j < i ==> #[trigger] out@[j] == Scope::Session(sessions@[j]),
        decreases sessions@.len() - i,
    {
        out.push(Scope::Session(sessions[i]));
        i += 1;
    }
    assert forall|s: Scope| out@.to_set().contains(s) <==> edge_scopes_of(layer@, sid).contains(s) by {
        if out@.to_set().contains(s) {
            let j = choose|j: int| 0 <= j < out@.len() && out@[j] == s;
            assert(sessions@.to_set().contains(sessions@[j]));
        }
        if edge_scopes_of(layer@, sid).contains(s) {
            let id = s->Session_0;
            assert(sessions@.to_set().contains(id));
            let j = choose|j: int| 0 <= j < sessions@.len() && sessions@[j] == id;
            assert(out@[j] == s);
        }
    }
    assert(out@.to_set() =~= edge_scopes_of(layer@, sid));
    out
}

fn holds_scope(list: &Vec<Scope>, scope: Scope) -> (r: bool)
    ensures
        r == list@.to_set().contains(scope),
{
    let mut i: usize = 0;
    while i < list.len()
        invariant
            i <= list@.len(),
            forall|j: int| 0 <= j < i ==> list@[j] != scope,
        decreases list@.len() - i,
    {
        if list[i] == scope {
            assert(list@.contains(scope));
            return true;
        }
        i += 1;
    }
    assert(!list@.contains(scope));
    false
}

fn without_scope(list: &Vec<Scope>, scope: Scope) -> (r: Vec<Scope>)
    ensures
        r@.to_set() == list@.to_set().remove(scope),
{
    let mut out: Vec<Scope> = Vec::new();
    let mut i: usize = 0;
    assert(out@.to_set() =~= list@.take(0).to_set().remove(scope));
    while i < list.len()
        invariant
            i <= list@.len(),
            out@.to_set() == list@.take(i as int).to_set().remove(scope),
        decreases list@.len() - i,
    {
        let ghost before = out@;
        assert(list@.take(i + 1) =~= list@.take(i as int).push(list@[i as int]));
        proof {
            lemma_scope_push(list@.take(i as int), list@[i as int]);
            lemma_scope_push(before, list@[i as int]);
        }
        if list[i] != scope {
            out.push(list[i]);
        }
        assert(out@.to_set() =~= list@.take(i + 1).to_set().remove(scope));
        i += 1;
    }
    assert(list@.take(i as int) =~= list@);
    out
}

proof fn lemma_scope_push(s: Seq<Scope>, x: Scope)
    ensures
        s.push(x).to_set() == s.to_set().insert(x),
{
    assert forall|y: Scope| s.push(x).to_set().contains(y) <==> s.to_set().insert(x).contains(y) by {
        if s.push(x).contains(y) {
            let j = choose|j: int| 0 <= j < s.push(x).len() && s.push(x)[j] == y;
            if j < s.len() {
                assert(s[j] == y);
            }
        }
        if s.contains(y) {
            let j = choose|j: int| 0 <= j < s.len() && s[j] == y;
            assert(s.push(x)[j] == y);
        }
        assert(s.push(x)[s.len() as int] == x);
    }
    assert(s.push(x).to_set() =~= s.to_set().insert(x));
}

/// The records once a root with the sentence came in.
pub open spec fn edge_added(v: LayerView, roles: Roles, rs: Seq<RecordView>, sid: SentenceId) -> Seq<RecordView> {
    match edge_stated(v, roles, sid) {
        Some(Ok(edge)) => {
            let r = RecordView { sid, edge, scopes: edge_scopes_of(v, sid) };
            if tracked_edge(rs, sid) {
                rs.update(record_place(rs, sid), r)
            } else {
                rs.push(r)
            }
        },
        _ => rs,
    }
}

/// What is reported when a root with the sentence came in.
pub open spec fn add_report(v: LayerView, roles: Roles, sid: SentenceId) -> Seq<EventView> {
    match edge_stated(v, roles, sid) {
        Some(Ok(edge)) => taxonomy_change(seq![edge.from, edge.to]),
        Some(Err(e)) => seq![EventView::Diagnostic(e)],
        None => Seq::empty(),
    }
}

/// The two ends of the edge of a tracked sentence.
pub open spec fn ends_of(rs: Seq<RecordView>, sid: SentenceId) -> Seq<SymbolId> {
    if tracked_edge(rs, sid) {
        let e = rs[record_place(rs, sid)].edge;
        seq![e.from, e.to]
    } else {
        Seq::empty()
    }
}

/// The records with one edge that counts everywhere.
pub open spec fn edge_promoted(rs: Seq<RecordView>, sid: SentenceId) -> Seq<RecordView> {
    if tracked_edge(rs, sid) {
        let i = record_place(rs, sid);
        rs.update(i, RecordView { scopes: set![Scope::Base], ..rs[i] })
    } else {
        rs
    }
}

/// The records once the roots were promoted, and what is reported.
pub open spec fn edges_promoted(rs: Seq<RecordView>, sids: Seq<SentenceId>) -> (Seq<RecordView>, Seq<EventView>)
    decreases sids.len(),
{
    if sids.len() == 0 {
        (rs, Seq::empty())
    } else {
        let p = edges_promoted(rs, sids.drop_last());
        (edge_promoted(p.0, sids.last()), p.1 + taxonomy_change(ends_of(p.0, sids.last())))
    }
}

/// The session takes hold of an edge that did not count for it.
pub open spec fn newly_held(rs: Seq<RecordView>, scope: Scope, sid: SentenceId) -> bool {
    tracked_edge(rs, sid) && !rs[record_place(rs, sid)].scopes.contains(Scope::Base) && !rs[record_place(
        rs,
        sid,
    )].scopes.contains(scope)
}

/// The records once the session took hold of one root.
pub open spec fn edge_referenced(rs: Seq<RecordView>, scope: Scope, sid: SentenceId) -> Seq<RecordView> {
    if newly_held(rs, scope, sid) {
        let i = record_place(rs, sid);
        rs.update(i, RecordView { scopes: rs[i].scopes.insert(scope), ..rs[i] })
    } else {
        rs
    }
}

/// The records once the session took hold of the roots, and the symbols
/// at which the taxonomy changed.
pub open spec fn edges_referenced(rs: Seq<RecordView>, scope: Scope, sids: Seq<SentenceId>) -> (
    Seq<RecordView>,
    Seq<SymbolId>,
)
    decreases sids.len(),
{
    if sids.len() == 0 {
        (rs, Seq::empty())
    } else {
        let p = edges_referenced(rs, scope, sids.drop_last());
        (
            edge_referenced(p.0, scope, sids.last()),
            if newly_held(p.0, scope, sids.last()) {
                p.1 + ends_of(p.0, sids.last())
            } else {
                p.1
            },
        )
    }
}

/// Some edge counts for the scope.
pub open spec fn overlay(rs: Seq<RecordView>, scope: Scope) -> bool {
    exists|i: int| 0 <= i < rs.len() && (#[trigger] rs[i]).scopes.contains(scope)
}

/// One if the record counts for the session, else zero.
pub open spec fn counted_once(r: RecordView, session: SessionId) -> nat {
    if r.scopes.contains(Scope::Session(session)) {
        1
    } else {
        0
    }
}

/// How many records count for the session.
pub open spec fn held(rs: Seq<RecordView>, session: SessionId) -> nat
    decreases rs.len(),
{
    if rs.len() == 0 {
        0
    } else {
        held(rs.drop_last(), session) + counted_once(rs.last(), session)
    }
}

proof fn lemma_held(rs: Seq<RecordView>, session: SessionId)
    ensures
        held(rs, session) <= rs.len(),
        held(rs, session) > 0 <==> overlay(rs, Scope::Session(session)),
    decreases rs.len(),
{
    let scope = Scope::Session(session);
    if rs.len() > 0 {
        let d = rs.drop_last();
        lemma_held(d, session);
        if overlay(d, scope) {
            let i = choose|i: int| 0 <= i < d.len() && (#[trigger] d[i]).scopes.contains(scope);
            assert(rs[i].scopes.contains(scope));
        }
        if overlay(rs, scope) {
            let i = choose|i: int| 0 <= i < rs.len() && (#[trigger] rs[i]).scopes.contains(scope);
            if i < d.len() {
                assert(d[i].scopes.contains(scope));
            }
        }
        assert(rs[rs.len() - 1] == rs.last());
    }
}

proof fn lemma_held_push(rs: Seq<RecordView>, r: RecordView, session: SessionId)
    ensures
        held(rs.push(r), session) == held(rs, session) + counted_once(r, session),
{
    assert(rs.push(r).drop_last() =~= rs);
}

proof fn lemma_held_update(rs: Seq<RecordView>, i: int, r: RecordView, session: SessionId)
    requires
        0 <= i < rs.len(),
    ensures
        held(rs.update(i, r), session) + counted_once(rs[i], session) == held(rs, session) + counted_once(r, session),
    decreases rs.len(),
{
    let d = rs.drop_last();
    if i < d.len() {
        lemma_held_update(d, i, r, session);
        assert(rs.update(i, r).drop_last() =~= d.update(i, r));
    } else {
        assert(rs.update(i, r).drop_last() =~= d);
    }
}

proof fn lemma_held_remove(rs: Seq<RecordView>, i: int, session: SessionId)
    requires
        0 <= i < rs.len(),
    ensures
        held(rs.remove(i), session) + counted_once(rs[i], session) == held(rs, session),
    decreases rs.len(),
{
    let d = rs.drop_last();
    if i < d.len() {
        lemma_held_remove(d, i, session);
        assert(rs.remove(i).drop_last() =~= d.remove(i));
        assert(rs.remove(i).last() == rs.last());
    } else {
        assert(rs.remove(i) =~= d);
    }
}

proof fn lemma_held_dropped(rs: Seq<RecordView>, scope: Scope, session: SessionId)
    ensures
        held(scope_dropped(rs, scope).0, session) == if scope == Scope::Session(session) {
            0
        } else {
            held(rs, session)
        },
    decreases rs.len(),
{
    if rs.len() > 0 {
        let p = scope_dropped(rs.drop_last(), scope).0;
        let r = rs.last();
        let s = r.scopes.remove(scope);
        lemma_held_dropped(rs.drop_last(), scope, session);
        lemma_held_push(p, RecordView { scopes: s, ..r }, session);
        if s == Set::<Scope>::empty() {
            assert(!s.contains(Scope::Session(session)));
        }
    }
}

/// What the counts say of the session.
pub open spec fn count_at(m: Map<u64, usize>, session: SessionId) -> nat {
    if m.dom().contains(session) {
        m[session] as nat
    } else {
        0
    }
}

/// No count is zero.
pub open spec fn no_zero(m: Map<u64, usize>) -> bool {
    forall|k: u64| #[trigger] m.dom().contains(k) ==> m[k] > 0
}

/// The counts are those of the records.
pub open spec fn counts_fit(rs: Seq<RecordView>, m: Map<u64, usize>) -> bool {
    no_zero(m) && forall|s: SessionId| #[trigger] count_at(m, s) == held(rs, s)
}

/// The index gives the place of every record.
pub open spec fn index_fits(rs: Seq<RecordView>, m: Map<u64, usize>) -> bool {
    &&& forall|i: int| 0 <= i < rs.len() ==> m.dom().contains((#[trigger] rs[i]).sid) && m[rs[i].sid] == i
    &&& forall|k: u64| #[trigger] m.dom().contains(k) ==> m[k] < rs.len() && rs[m[k] as int].sid == k
}

/// The records without the scope, those that then count nowhere left out,
/// and the symbols at which the taxonomy changed.
pub open spec fn scope_dropped(rs: Seq<RecordView>, scope: Scope) -> (Seq<RecordView>, Seq<SymbolId>)
    decreases rs.len(),
{
    if rs.len() == 0 {
        (Seq::empty(), Seq::empty())
    } else {
        let p = scope_dropped(rs.drop_last(), scope);
        let r = rs.last();
        let s = r.scopes.remove(scope);
        (
            if s == Set::<Scope>::empty() {
                p.0
            } else {
                p.0.push(RecordView { scopes: s, ..r })
            },
            if r.scopes.contains(scope) {
                p.1 + seq![r.edge.from, r.edge.to]
            } else {
                p.1
            },
        )
    }
}

/// The records without that of the sentence.
pub open spec fn edge_removed(rs: Seq<RecordView>, sid: SentenceId) -> Seq<RecordView> {
    if tracked_edge(rs, sid) {
        rs.remove(record_place(rs, sid))
    } else {
        rs
    }
}

/// The records after an event, and what is reported.
pub open spec fn tax_step(v: LayerView, roles: Roles, rs: Seq<RecordView>, e: EventView) -> (
    Seq<RecordView>,
    Seq<EventView>,
) {
    match e {
        EventView::RelationAdded { sid, head_id } => if tax_role(roles, head_id) is None {
            (rs, Seq::empty())
        } else {
            (edge_added(v, roles, rs, sid), add_report(v, roles, sid))
        },
        EventView::AxiomsPromoted { sids } => edges_promoted(rs, sids),
        EventView::SessionReferenced { session, sids } => {
            let p = edges_referenced(rs, Scope::Session(session), sids);
            (p.0, taxonomy_change(p.1))
        },
        EventView::SessionRetracted { session } => if overlay(rs, Scope::Session(session)) {
            let p = scope_dropped(rs, Scope::Session(session));
            (p.0, taxonomy_change(p.1))
        } else {
            (rs, Seq::empty())
        },
        EventView::RelationRemoved { sid, sentence } => (
            edge_removed(rs, sid),
            taxonomy_change(ends_of(rs, sid)),
        ),
        _ => (rs, Seq::empty()),
    }
}

/// The records after the events, and what is reported.
pub open spec fn tax_steps(v: LayerView, roles: Roles, rs: Seq<RecordView>, es: Seq<EventView>) -> (
    Seq<RecordView>,
    Seq<EventView>,
)
    decreases es.len(),
{
    if es.len() == 0 {
        (rs, Seq::empty())
    } else {
        let p = tax_steps(v, roles, rs, es.drop_last());
        let q = tax_step(v, roles, p.0, es.last());
        (q.0, p.1 + q.1)
    }
}

/// The records of all roots.
pub open spec fn rebuilt(v: LayerView, roles: Roles, roots: Seq<RootView>) -> Seq<RecordView>
    decreases roots.len(),
{
    if roots.len() == 0 {
        Seq::empty()
    } else {
        let s = rebuilt(v, roles, roots.drop_last());
        let r = roots.last();
        match edge_stated(v, roles, r.sid) {
            Some(Ok(edge)) => s.push(
                RecordView { sid: r.sid, edge, scopes: scopes_where(r.promoted, r.sessions) },
            ),
            _ => s,
        }
    }
}

/// The records after one has been entered: it replaces that of its sentence, or
/// comes last.
pub open spec fn record_entered(rs: Seq<RecordView>, r: RecordView) -> Seq<RecordView> {
    if tracked_edge(rs, r.sid) {
        rs.update(record_place(rs, r.sid), r)
    } else {
        rs.push(r)
    }
}

/// The records after all of these have been entered.
pub open spec fn records_entered(all: Seq<RecordView>) -> Seq<RecordView>
    decreases all.len(),
{
    if all.len() == 0 {
        Seq::empty()
    } else {
        record_entered(records_entered(all.drop_last()), all.last())
    }
}

/// What was kept of the edges gives them back.
pub proof fn law_kept_edges_come_back(all: Seq<RecordView>)
    requires
        records_distinct(all),
    ensures
        records_entered(all) == all,
    decreases all.len(),
{
    if all.len() > 0 {
        let front = all.drop_last();
        assert forall|i: int, j: int| 0 <= i < front.len() && 0 <= j < front.len() && i != j implies #[trigger] front[i].sid
            != #[trigger] front[j].sid by {
            assert(all[i].sid != all[j].sid);
        }
        law_kept_edges_come_back(front);
        if tracked_edge(front, all.last().sid) {
            let k = record_place(front, all.last().sid);
            assert(record_is(front, all.last().sid, k));
            assert(all[k].sid != all[all.len() - 1].sid);
        }
        assert(front.push(all.last()) =~= all);
    } else {
        assert(all =~= Seq::empty());
    }
}

/// The scope stands among the first scopes of the list.
spec fn stands_before(list: Seq<Scope>, n: int, scope: Scope) -> bool {
    exists|j: int| 0 <= j < n && #[trigger] list[j] == scope
}

fn found_before(list: &Vec<Scope>, n: usize, scope: Scope) -> (r: bool)
    requires
        n <= list@.len(),
    ensures
        r == stands_before(list@, n as int, scope),
{
    let mut i: usize = 0;
    while i < n
        invariant
            i <= n <= list@.len(),
            forall|j: int| 0 <= j < i ==> list@[j] != scope,
        decreases n - i,
    {
        if list[i] == scope {
            return true;
        }
        i += 1;
    }
    false
}

/// The places of the records.
fn places_of(records: &Vec<EdgeRecord>) -> (m: DashMap<u64, usize>)
    requires
        records_distinct(record_views(records@)),
    ensures
        index_fits(record_views(records@), index_entries(m)),
{
    let ghost rs = record_views(records@);
    let mut m = index_new();
    let mut i: usize = 0;
    while i < records.len()
        invariant
            i <= records@.len(),
            rs == record_views(records@),
            records_distinct(rs),
            forall|j: int|
                0 <= j < i ==> index_entries(m).dom().contains((#[trigger] rs[j]).sid) && index_entries(m)[rs[j].sid] == j,
            forall|k: u64| #[trigger]
                index_entries(m).dom().contains(k) ==> index_entries(m)[k] < i && rs[index_entries(m)[k] as int].sid == k,
        decreases records@.len() - i,
    {
        assert(rs[i as int] == records@[i as int]@);
        let ghost before = index_entries(m);
        index_insert(&mut m, records[i].sid, i);
        assert forall|j: int| 0 <= j < i + 1 implies index_entries(m).dom().contains((#[trigger] rs[j]).sid)
            && index_entries(m)[rs[j].sid] == j by {
            if j < i {
                assert(rs[j].sid != rs[i as int].sid);
                assert(before.dom().contains(rs[j].sid));
            }
        }
        i += 1;
    }
    m
}

/// Counts one more for each session of the list.
fn bump_overlay(m: &mut DashMap<u64, usize>, scopes: &Vec<Scope>)
    requires
        no_zero(index_entries(*old(m))),
        forall|s: SessionId| #[trigger] count_at(index_entries(*old(m)), s) < usize::MAX,
    ensures
        no_zero(index_entries(*final(m))),
        forall|s: SessionId| #[trigger]
            count_at(index_entries(*final(m)), s) == count_at(index_entries(*old(m)), s) + if scopes@.contains(
                Scope::Session(s),
            ) {
                1nat
            } else {
                0nat
            },
{
    let ghost start = index_entries(*m);
    let mut i: usize = 0;
    while i < scopes.len()
        invariant
            i <= scopes@.len(),
            no_zero(index_entries(*m)),
            forall|s: SessionId| #[trigger] count_at(start, s) < usize::MAX,
            forall|s: SessionId| #[trigger]
                count_at(index_entries(*m), s) == count_at(start, s) + if stands_before(
                    scopes@,
                    i as int,
                    Scope::Session(s),
                ) {
                    1nat
                } else {
                    0nat
                },
        decreases scopes@.len() - i,
    {
        let ghost now = index_entries(*m);
        if let Scope::Session(s) = scopes[i] {
            if !found_before(scopes, i, scopes[i]) {
                assert(count_at(now, s) == count_at(start, s));
                let c: usize = match index_get(m, s) {
                    Some(c) => c,
                    None => 0,
                };
                index_insert(m, s, c + 1);
            }
        }
        assert forall|s: SessionId| #[trigger] count_at(index_entries(*m), s) == count_at(start, s) + if stands_before(
            scopes@,
            i + 1,
            Scope::Session(s),
        ) {
            1nat
        } else {
            0nat
        } by {
            lemma_stands(scopes@, i as int, Scope::Session(s));
            assert(count_at(now, s) == count_at(start, s) + if stands_before(scopes@, i as int, Scope::Session(s)) {
                1nat
            } else {
                0nat
            });
        }
        i += 1;
    }
    assert forall|s: SessionId| stands_before(scopes@, i as int, Scope::Session(s)) == #[trigger] scopes@.contains(
        Scope::Session(s),
    ) by {}
}

/// Counts one less for each session of the list, and forgets those at zero.
fn unbump_overlay(m: &mut DashMap<u64, usize>, scopes: &Vec<Scope>)
    requires
        no_zero(index_entries(*old(m))),
        forall|s: SessionId| #[trigger] scopes@.contains(Scope::Session(s)) ==> count_at(index_entries(*old(m)), s) > 0,
    ensures
        no_zero(index_entries(*final(m))),
        forall|s: SessionId| #[trigger]
            count_at(index_entries(*final(m)), s) + if scopes@.contains(Scope::Session(s)) {
                1nat
            } else {
                0nat
            } == count_at(index_entries(*old(m)), s),
{
    let ghost start = index_entries(*m);
    let mut i: usize = 0;
    while i < scopes.len()
        invariant
            i <= scopes@.len(),
            no_zero(index_entries(*m)),
            forall|s: SessionId| #[trigger] scopes@.contains(Scope::Session(s)) ==> count_at(start, s) > 0,
            forall|s: SessionId| #[trigger]
                count_at(index_entries(*m), s) + if stands_before(scopes@, i as int, Scope::Session(s)) {
                    1nat
                } else {
                    0nat
                } == count_at(start, s),
        decreases scopes@.len() - i,
    {
        let ghost now = index_entries(*m);
        if let Scope::Session(s) = scopes[i] {
            if !found_before(scopes, i, scopes[i]) {
                assert(scopes@.contains(Scope::Session(s)));
                assert(count_at(now, s) == count_at(start, s));
                match index_get(m, s) {
                    Some(c) => {
                        if c == 1 {
                            index_remove(m, s);
                        } else {
                            index_insert(m, s, c - 1);
                        }
                    },
                    None => {},
                }
            }
        }
        assert forall|s: SessionId| #[trigger]
            count_at(index_entries(*m), s) + if stands_before(scopes@, i + 1, Scope::Session(s)) {
                1nat
            } else {
                0nat
            } == count_at(start, s) by {
            lemma_stands(scopes@, i as int, Scope::Session(s));
            assert(count_at(now, s) + if stands_before(scopes@, i as int, Scope::Session(s)) {
                1nat
            } else {
                0nat
            } == count_at(start, s));
        }
        i += 1;
    }
    assert forall|s: SessionId| stands_before(scopes@, i as int, Scope::Session(s)) == #[trigger] scopes@.contains(
        Scope::Session(s),
    ) by {}
}

proof fn lemma_stands(list: Seq<Scope>, n: int, scope: Scope)
    requires
        0 <= n < list.len(),
    ensures
        stands_before(list, n + 1, scope) == (stands_before(list, n, scope) || list[n] == scope),
{
    if stands_before(list, n + 1, scope) {
        let j = choose|j: int| 0 <= j < n + 1 && #[trigger] list[j] == scope;
        assert(list[j] == scope);
    }
    if stands_before(list, n, scope) {
        let j = choose|j: int| 0 <= j < n && #[trigger] list[j] == scope;
        assert(list[j] == scope);
    }
}

/// The edges that the roots state: the records, the place of each sentence's
/// record, and how many records count for each session.
#[derive(Debug)]
pub struct TaxEdges {
    records: Vec<EdgeRecord>,
    places: DashMap<u64, usize>,
    session_overlay: DashMap<u64, usize>,
}

impl View for TaxEdges {
    type V = Seq<RecordView>;

    closed spec fn view(&self) -> Seq<RecordView> {
        record_views(self.records@)
    }
}

impl TaxEdges {
    /// No sentence has two records, and the places and counts are those of the
    /// records.
    pub closed spec fn wf(&self) -> bool {
        &&& records_distinct(self@)
        &&& index_fits(self@, index_entries(self.places))
        &&& counts_fit(self@, index_entries(self.session_overlay))
    }

    /// No sentence has two records, whatever was added, moved or dropped
    /// before.
    pub proof fn law_records_are_distinct(&self)
        requires
            self.wf(),
        ensures
            records_distinct(self@),
    {
    }

    /// No edges.
    pub fn new() -> (t: TaxEdges)
        ensures
            t.wf(),
            t@ == Seq::<RecordView>::empty(),
    {
        let t = TaxEdges { records: Vec::new(), places: index_new(), session_overlay: index_new() };
        assert(t@ =~= Seq::<RecordView>::empty());
        t
    }

    fn find(&self, sid: SentenceId) -> (r: Option<usize>)
        requires
            self.wf(),
        ensures
            r is Some <==> tracked_edge(self@, sid),
            r matches Some(i) ==> i < self.records@.len() && i == record_place(self@, sid) && self@[i as int].sid
                == sid,
    {
        let r = index_get(&self.places, sid);
        proof {
            match r {
                Some(i) => {
                    assert(record_is(self@, sid, i as int));
                    lemma_record_place(self@, sid, i as int);
                },
                None => {
                    if tracked_edge(self@, sid) {
                        let j = record_place(self@, sid);
                        assert(record_is(self@, sid, j));
                        assert(self@[j].sid == sid);
                    }
                },
            }
        }
        r
    }

    /// The edge that the sentence states, if it is tracked.
    pub fn edge_of(&self, sid: SentenceId) -> (r: Option<TaxEdge>)
        requires
            self.wf(),
        ensures
            r == (if tracked_edge(self@, sid) {
                Some(self@[record_place(self@, sid)].edge)
            } else {
                None
            }),
    {
        match self.find(sid) {
            None => None,
            Some(i) => {
                assert(self@[i as int] == self.records@[i as int]@);
                Some(self.records[i].edge)
            },
        }
    }

    /// How many edges there are.
    pub fn len(&self) -> (n: usize)
        ensures
            n == self@.len(),
    {
        self.records.len()
    }

    /// The edge at the place.
    pub fn edge_at(&self, i: usize) -> (e: TaxEdge)
        requires
            i < self@.len(),
        ensures
            e == self@[i as int].edge,
    {
        self.records[i].edge
    }

    /// The edge at the place counts in the scope.
    pub fn counts_at(&self, i: usize, scope: Scope) -> (r: bool)
        requires
            i < self@.len(),
        ensures
            r == (self@[i as int].scopes.contains(Scope::Base) || self@[i as int].scopes.contains(scope)),
    {
        assert(self@[i as int] == self.records@[i as int]@);
        holds_scope(&self.records[i].scopes, Scope::Base) || holds_scope(&self.records[i].scopes, scope)
    }

    /// The scope is that of a session with edges of its own.
    pub fn session_active(&self, scope: Scope) -> (r: bool)
        requires
            self.wf(),
        ensures
            r == (scope is Session && overlay(self@, scope)),
    {
        match scope {
            Scope::Base => false,
            Scope::Session(s) => {
                proof {
                    lemma_held(self@, s);
                    assert(count_at(index_entries(self.session_overlay), s) == held(self@, s));
                }
                index_get(&self.session_overlay, s).is_some()
            },
        }
    }

    /// The record in place of the one at the place.
    fn replace(&mut self, i: usize, rec: EdgeRecord)
        requires
            old(self).wf(),
            i < old(self)@.len(),
            old(self)@[i as int].sid == rec.sid,
        ensures
            final(self).wf(),
            final(self)@ == old(self)@.update(i as int, rec@),
    {
        let ghost rs = self@;
        let ghost rv = rec@;
        let ghost counts = index_entries(self.session_overlay);
        proof {
            assert(rs[i as int] == self.records@[i as int]@);
            assert forall|s: SessionId| #[trigger] self.records@[i as int].scopes@.contains(Scope::Session(s)) implies count_at(
                counts,
                s,
            ) > 0 by {
                assert(rs[i as int].scopes.contains(Scope::Session(s)));
                lemma_held(rs, s);
                assert(count_at(counts, s) == held(rs, s));
            }
        }
        unbump_overlay(&mut self.session_overlay, &self.records[i].scopes);
        let ghost less = index_entries(self.session_overlay);
        proof {
            assert(rs.len() == self.records.len());
            assert forall|s: SessionId| #[trigger] count_at(less, s) < usize::MAX by {
                lemma_held(rs.remove(i as int), s);
                lemma_held_remove(rs, i as int, s);
                assert(count_at(counts, s) == held(rs, s));
            }
        }
        bump_overlay(&mut self.session_overlay, &rec.scopes);
        self.records.set(i, rec);
        proof {
            assert(self@ =~= rs.update(i as int, rv));
            let now = index_entries(self.session_overlay);
            assert forall|s: SessionId| #[trigger] count_at(now, s) == held(self@, s) by {
                lemma_held_update(rs, i as int, rv, s);
                assert(count_at(counts, s) == held(rs, s));
                assert(count_at(less, s) + counted_once(rs[i as int], s) == count_at(counts, s));
            }
            assert forall|j: int| 0 <= j < self@.len() implies (#[trigger] self@[j]).sid == rs[j].sid by {}
        }
    }

    fn put(&mut self, layer: &SyntacticLayer, sid: SentenceId, edge: TaxEdge)
        requires
            old(self).wf(),
            layer.wf(),
        ensures
            final(self).wf(),
            final(self)@ == record_entered(
                old(self)@,
                RecordView { sid, edge, scopes: edge_scopes_of(layer@, sid) },
            ),
    {
        let scopes = edge_scopes(layer, sid);
        self.enter(EdgeRecord { sid, edge, scopes });
    }

    fn enter(&mut self, rec: EdgeRecord)
        requires
            old(self).wf(),
        ensures
            final(self).wf(),
            final(self)@ == record_entered(old(self)@, rec@),
    {
        let ghost rs = self@;
        let ghost rv = rec@;
        let sid: SentenceId = rec.sid;
        match self.find(sid) {
            Some(i) => {
                self.replace(i, rec);
            },
            None => {
                let ghost counts = index_entries(self.session_overlay);
                assert(!index_entries(self.places).dom().contains(sid)) by {
                    if index_entries(self.places).dom().contains(sid) {
                        assert(record_is(rs, sid, index_entries(self.places)[sid] as int));
                    }
                }
                self.records.push(rec);
                let last: usize = self.records.len() - 1;
                assert forall|s: SessionId| #[trigger] count_at(counts, s) < usize::MAX by {
                    lemma_held(rs, s);
                    assert(count_at(counts, s) == held(rs, s));
                }
                bump_overlay(&mut self.session_overlay, &self.records[last].scopes);
                index_insert(&mut self.places, sid, last);
                assert(self@ =~= rs.push(rv));
                assert forall|s: SessionId| #[trigger] count_at(index_entries(self.session_overlay), s) == held(self@, s) by {
                    lemma_held_push(rs, rv, s);
                    assert(count_at(counts, s) == held(rs, s));
                }
                assert(self.wf()) by {
                    assert forall|i: int, j: int|
                        0 <= i < self@.len() && 0 <= j < self@.len() && i != j implies #[trigger] self@[i].sid
                        != #[trigger] self@[j].sid by {
                        if i == rs.len() {
                            assert(!record_is(rs, sid, j));
                        }
                        if j == rs.len() {
                            assert(!record_is(rs, sid, i));
                        }
                    }
                }
            },
        }
    }

    /// The records, to be kept elsewhere.
    pub fn snapshot_side(&self) -> (r: Vec<EdgeRecord>)
        ensures
            record_views(r@) == self@,
    {
        let mut out: Vec<EdgeRecord> = Vec::new();
        let mut i: usize = 0;
        while i < self.records.len()
            invariant
                i <= self.records@.len(),
                out@.len() == i,
                forall|k: int| 0 <= k < i ==> (#[trigger] out@[k])@ == self.records@[k]@,
            decreases self.records@.len() - i,
        {
            let rec: &EdgeRecord = &self.records[i];
            let mut scopes: Vec<Scope> = Vec::new();
            let mut j: usize = 0;
            while j < rec.scopes.len()
                invariant
                    j <= rec.scopes@.len(),
                    scopes@ == rec.scopes@.take(j as int),
                decreases rec.scopes@.len() - j,
            {
                scopes.push(rec.scopes[j]);
                assert(scopes@ =~= rec.scopes@.take(j + 1));
                j += 1;
            }
            assert(scopes@ =~= rec.scopes@);
            out.push(EdgeRecord { sid: rec.sid, edge: rec.edge, scopes });
            i += 1;
        }
        assert(record_views(out@) =~= self@);
        out
    }

    /// The edges of kept records; of two records of one sentence the later
    /// counts.
    pub fn restore_side(snap: Vec<EdgeRecord>) -> (t: TaxEdges)
        ensures
            t.wf(),
            t@ == records_entered(record_views(snap@)),
    {
        let ghost all = record_views(snap@);
        let mut rest: Vec<EdgeRecord> = snap;
        let mut back: Vec<EdgeRecord> = Vec::new();
        while rest.len() > 0
            invariant
                record_views(rest@) == all.take(rest@.len() as int),
                rest@.len() + back@.len() == all.len(),
                forall|k: int| 0 <= k < back@.len() ==> (#[trigger] back@[k])@ == all[all.len() - 1 - k],
            decreases rest@.len(),
        {
            let ghost before = rest@;
            if let Some(rec) = rest.pop() {
                proof {
                    assert(record_views(before)[before.len() - 1] == rec@);
                    assert(record_views(rest@) =~= all.take(rest@.len() as int));
                }
                back.push(rec);
            }
        }
        let mut t = TaxEdges::new();
        assert(all.take(0) =~= Seq::empty());
        while back.len() > 0
            invariant
                back@.len() <= all.len(),
                forall|k: int| 0 <= k < back@.len() ==> (#[trigger] back@[k])@ == all[all.len() - 1 - k],
                t.wf(),
                t@ == records_entered(all.take(all.len() - back@.len())),
            decreases back@.len(),
        {
            let ghost n = all.len() - back@.len();
            if let Some(rec) = back.pop() {
                proof {
                    assert(all.take(n + 1).drop_last() =~= all.take(n));
                    assert(rec@ == all[n]);
                }
                t.enter(rec);
            }
        }
        assert(all.take(all.len() as int) =~= all);
        t
    }

    fn promote_one(&mut self, sid: SentenceId) -> (r: Option<TaxEdge>)
        requires
            old(self).wf(),
        ensures
            final(self).wf(),
            final(self)@ == edge_promoted(old(self)@, sid),
            r matches Some(e) ==> ends_of(old(self)@, sid) == seq![e.from, e.to],
            r is None ==> ends_of(old(self)@, sid).len() == 0,
    {
        let ghost rs = self@;
        match self.find(sid) {
            None => None,
            Some(i) => {
                assert(self@[i as int] == self.records@[i as int]@);
                let edge = self.records[i].edge;
                let mut scopes: Vec<Scope> = Vec::new();
                scopes.push(Scope::Base);
                assert(scopes@[0] == Scope::Base);
                assert(scopes@.to_set() =~= set![Scope::Base]);
                let rec = EdgeRecord { sid, edge, scopes };
                let ghost rv = rec@;
                self.replace(i, rec);
                assert(rv =~= RecordView { scopes: set![Scope::Base], ..rs[i as int] });
                Some(edge)
            },
        }
    }

    fn reference_one(&mut self, scope: Scope, sid: SentenceId) -> (r: Option<TaxEdge>)
        requires
            old(self).wf(),
        ensures
            final(self).wf(),
            final(self)@ == edge_referenced(old(self)@, scope, sid),
            r is Some <==> newly_held(old(self)@, scope, sid),
            r matches Some(e) ==> ends_of(old(self)@, sid) == seq![e.from, e.to],
    {
        let ghost rs = self@;
        match self.find(sid) {
            None => None,
            Some(i) => {
                assert(self@[i as int] == self.records@[i as int]@);
                if holds_scope(&self.records[i].scopes, Scope::Base) || holds_scope(
                    &self.records[i].scopes,
                    scope,
                ) {
                    return None;
                }
                let edge = self.records[i].edge;
                let mut scopes: Vec<Scope> = copy_scopes(&self.records[i].scopes);
                proof {
                    lemma_scope_push(scopes@, scope);
                }
                scopes.push(scope);
                let rec = EdgeRecord { sid, edge, scopes };
                let ghost rv = rec@;
                self.replace(i, rec);
                assert(rv =~= RecordView { scopes: rs[i as int].scopes.insert(scope), ..rs[i as int] });
                Some(edge)
            },
        }
    }

    fn drop_scope(&mut self, scope: Scope) -> (syms: Vec<SymbolId>)
        requires
            old(self).wf(),
        ensures
            final(self).wf(),
            (final(self)@, syms@) == scope_dropped(old(self)@, scope),
    {
        let ghost rs = self@;
        proof {
            lemma_dropped_distinct(rs, scope);
        }
        let mut kept: Vec<EdgeRecord> = Vec::new();
        let mut syms: Vec<SymbolId> = Vec::new();
        let mut i: usize = 0;
        assert(rs.take(0) =~= Seq::empty());
        assert(record_views(kept@) =~= Seq::empty());
        while i < self.records.len()
            invariant
                rs == self@,
                i <= self.records@.len(),
                record_views(kept@) == scope_dropped(rs.take(i as int), scope).0,
                syms@ == scope_dropped(rs.take(i as int), scope).1,
            decreases self.records@.len() - i,
        {
            assert(rs.take(i + 1).drop_last() =~= rs.take(i as int));
            assert(rs.take(i + 1).last() == self.records@[i as int]@);
            let edge = self.records[i].edge;
            if holds_scope(&self.records[i].scopes, scope) {
                syms.push(edge.from);
                syms.push(edge.to);
                assert(syms@ =~= scope_dropped(rs.take(i as int), scope).1 + seq![edge.from, edge.to]);
            }
            let scopes = without_scope(&self.records[i].scopes, scope);
            if scopes.len() > 0 {
                assert(scopes@.to_set().contains(scopes@[0]));
                let rec = EdgeRecord { sid: self.records[i].sid, edge, scopes };
                let ghost before = record_views(kept@);
                let ghost rv = rec@;
                kept.push(rec);
                assert(record_views(kept@) =~= before.push(rv));
            } else {
                assert(scopes@.to_set() =~= Set::<Scope>::empty());
            }
            i += 1;
        }
        assert(rs.take(i as int) =~= rs);
        self.records = kept;
        self.places = places_of(&self.records);
        let ghost counts = index_entries(self.session_overlay);
        if let Scope::Session(s) = scope {
            index_remove(&mut self.session_overlay, s);
        }
        proof {
            lemma_dropped_distinct(rs, scope);
            assert forall|s: SessionId| #[trigger] count_at(index_entries(self.session_overlay), s) == held(self@, s) by {
                lemma_held_dropped(rs, scope, s);
                assert(count_at(counts, s) == held(rs, s));
            }
        }
        syms
    }

    fn remove_one(&mut self, sid: SentenceId) -> (r: Option<TaxEdge>)
        requires
            old(self).wf(),
        ensures
            final(self).wf(),
            final(self)@ == edge_removed(old(self)@, sid),
            r matches Some(e) ==> ends_of(old(self)@, sid) == seq![e.from, e.to],
            r is None ==> ends_of(old(self)@, sid).len() == 0,
    {
        let ghost rs = self@;
        match self.find(sid) {
            None => None,
            Some(i) => {
                assert(self@[i as int] == self.records@[i as int]@);
                let ghost counts = index_entries(self.session_overlay);
                proof {
                    assert forall|s: SessionId| #[trigger] self.records@[i as int].scopes@.contains(Scope::Session(s)) implies count_at(
                        counts,
                        s,
                    ) > 0 by {
                        assert(rs[i as int].scopes.contains(Scope::Session(s)));
                        lemma_held(rs, s);
                        assert(count_at(counts, s) == held(rs, s));
                    }
                }
                unbump_overlay(&mut self.session_overlay, &self.records[i].scopes);
                let rec = self.records.remove(i);
                assert(self@ =~= rs.remove(i as int));
                self.places = places_of(&self.records);
                assert forall|s: SessionId| #[trigger] count_at(index_entries(self.session_overlay), s) == held(self@, s) by {
                    lemma_held_remove(rs, i as int, s);
                    assert(count_at(counts, s) == held(rs, s));
                }
                Some(rec.edge)
            },
        }
    }

    fn promote_all(&mut self, sids: &Vec<SentenceId>, out: &mut Vec<Event>)
        requires
            old(self).wf(),
        ensures
            final(self).wf(),
            final(self)@ == edges_promoted(old(self)@, sids@).0,
            event_views(final(out)@) == event_views(old(out)@) + edges_promoted(old(self)@, sids@).1,
    {
        let ghost rs = self@;
        let ghost start = event_views(out@);
        let mut i: usize = 0;
        assert(sids@.take(0) =~= Seq::empty());
        assert(start =~= start + Seq::<EventView>::empty());
        while i < sids.len()
            invariant
                self.wf(),
                i <= sids@.len(),
                self@ == edges_promoted(rs, sids@.take(i as int)).0,
                event_views(out@) == start + edges_promoted(rs, sids@.take(i as int)).1,
            decreases sids@.len() - i,
        {
            assert(sids@.take(i + 1).drop_last() =~= sids@.take(i as int));
            let ghost mid = self@;
            let ghost before = edges_promoted(rs, sids@.take(i as int)).1;
            match self.promote_one(sids[i]) {
                None => {
                    assert(before =~= before + taxonomy_change(ends_of(mid, sids@[i as int])));
                },
                Some(e) => {
                    push_ends(out, e);
                    assert(event_views(out@) =~= start + (before + taxonomy_change(ends_of(mid, sids@[i as int]))));
                },
            }
            i += 1;
        }
        assert(sids@.take(i as int) =~= sids@);
    }

    fn reference_all(&mut self, scope: Scope, sids: &Vec<SentenceId>) -> (syms: Vec<SymbolId>)
        requires
            old(self).wf(),
        ensures
            final(self).wf(),
            (final(self)@, syms@) == edges_referenced(old(self)@, scope, sids@),
    {
        let ghost rs = self@;
        let mut syms: Vec<SymbolId> = Vec::new();
        let mut i: usize = 0;
        assert(sids@.take(0) =~= Seq::empty());
        while i < sids.len()
            invariant
                self.wf(),
                i <= sids@.len(),
                (self@, syms@) == edges_referenced(rs, scope, sids@.take(i as int)),
            decreases sids@.len() - i,
        {
            assert(sids@.take(i + 1).drop_last() =~= sids@.take(i as int));
            let ghost mid = self@;
            let ghost before = syms@;
            match self.reference_one(scope, sids[i]) {
                None => {},
                Some(e) => {
                    syms.push(e.from);
                    syms.push(e.to);
                    assert(syms@ =~= before + ends_of(mid, sids@[i as int]));
                },
            }
            i += 1;
        }
        assert(sids@.take(i as int) =~= sids@);
        syms
    }

    /// Takes in one event and reports what changed.
    fn react_one(&mut self, layer: &SyntacticLayer, roles: &Roles, event: &Event, out: &mut Vec<Event>)
        requires
            old(self).wf(),
            layer.wf(),
        ensures
            final(self).wf(),
            final(self)@ == tax_step(layer@, *roles, old(self)@, event@).0,
            event_views(final(out)@) == event_views(old(out)@) + tax_step(layer@, *roles, old(self)@, event@).1,
    {
        let ghost start = event_views(out@);
        let ghost rs = self@;
        assert(start =~= start + Seq::<EventView>::empty());
        match event {
            Event::RelationAdded { sid, head_id } => {
                if roles.tax_role_of(*head_id).is_none() {
                    return;
                }
                match layer.sentence(*sid) {
                    None => {},
                    Some(sentence) => {
                        match try_extract_edge_from(roles, *sid, sentence) {
                            None => {},
                            Some(Ok(edge)) => {
                                self.put(layer, *sid, edge);
                                push_ends(out, edge);
                            },
                            Some(Err(e)) => {
                                let ev = Event::Diagnostic(e);
                                proof {
                                    lemma_event_push(out@, ev);
                                }
                                let ghost evv = ev@;
                                out.push(ev);
                                assert(event_views(out@) =~= start + seq![evv]);
                            },
                        }
                    },
                }
            },
            Event::AxiomsPromoted { sids } => {
                self.promote_all(sids, out);
            },
            Event::SessionReferenced { session, sids } => {
                let syms = self.reference_all(Scope::Session(session_id(session.as_str())), sids);
                push_change(out, syms);
            },
            Event::SessionRetracted { session } => {
                let scope = Scope::Session(session_id(session.as_str()));
                if self.session_active(scope) {
                    let syms = self.drop_scope(scope);
                    push_change(out, syms);
                }
            },
            Event::RelationRemoved { sid, .. } => {
                match self.remove_one(*sid) {
                    None => {
                        assert(taxonomy_change(ends_of(rs, *sid)) =~= Seq::empty());
                    },
                    Some(e) => {
                        push_ends(out, e);
                    },
                }
            },
            _ => {},
        }
    }

    /// Takes in the events and reports what changed.
    pub fn react(&mut self, layer: &SyntacticLayer, roles: &Roles, events: &Vec<Event>) -> (out: Vec<Event>)
        requires
            old(self).wf(),
            layer.wf(),
        ensures
            final(self).wf(),
            (final(self)@, event_views(out@)) == tax_steps(layer@, *roles, old(self)@, event_views(events@)),
    {
        let ghost rs = self@;
        let ghost evs = event_views(events@);
        let mut out: Vec<Event> = Vec::new();
        let mut i: usize = 0;
        assert(evs.take(0) =~= Seq::empty());
        assert(event_views(out@) =~= Seq::empty());
        while i < events.len()
            invariant
                self.wf(),
                layer.wf(),
                evs == event_views(events@),
                i <= events@.len(),
                (self@, event_views(out@)) == tax_steps(layer@, *roles, rs, evs.take(i as int)),
            decreases events@.len() - i,
        {
            assert(evs.take(i + 1).drop_last() =~= evs.take(i as int));
            assert(evs.take(i + 1).last() == events@[i as int]@);
            self.react_one(layer, roles, &events[i], &mut out);
            i += 1;
        }
        assert(evs.take(i as int) =~= evs);
        out
    }

    /// The edges that the roots of the layer state.
    pub fn initialize(layer: &SyntacticLayer, roles: &Roles) -> (t: TaxEdges)
        requires
            layer.wf(),
        ensures
            t.wf(),
            t@ == rebuilt(layer@, *roles, layer@.roots),
    {
        let sids = layer.root_sids();
        let mut t = TaxEdges::new();
        let mut i: usize = 0;
        let ghost roots = layer@.roots;
        assert(roots.take(0) =~= Seq::empty());
        proof {
            layer.lemma_ordered();
        }
        while i < sids.len()
            invariant
                layer.wf(),
                t.wf(),
                roots == layer@.roots,
                roots_distinct(roots),
                i <= sids@.len(),
                sids@ == Seq::new(roots.len(), |k: int| roots[k].sid),
                t@ == rebuilt(layer@, *roles, roots.take(i as int)),
            decreases sids@.len() - i,
        {
            assert(roots.take(i + 1).drop_last() =~= roots.take(i as int));
            let sid = sids[i];
            assert(sid == roots[i as int].sid);
            match layer.sentence(sid) {
                None => {},
                Some(sentence) => {
                    match try_extract_edge_from(roles, sid, sentence) {
                        Some(Ok(edge)) => {
                            proof {
                                assert(root_is(roots, sid, i as int));
                                lemma_root_place(roots, sid, i as int);
                                lemma_rebuilt_known(layer@, *roles, roots.take(i as int));
                                if tracked_edge(t@, sid) {
                                    let k = record_place(t@, sid);
                                    assert(record_is(t@, sid, k));
                                    let j = choose|j: int| root_is(roots.take(i as int), t@[k].sid, j);
                                    assert(roots[j].sid == roots[i as int].sid);
                                }
                            }
                            t.put(layer, sid, edge);
                        },
                        _ => {},
                    }
                },
            }
            i += 1;
        }
        assert(roots.take(i as int) =~= roots);
        t
    }
}

/// Every rebuilt record is that of a root.
proof fn lemma_rebuilt_known(v: LayerView, roles: Roles, roots: Seq<RootView>)
    ensures
        forall|k: int|
            0 <= k < rebuilt(v, roles, roots).len() ==> is_root(roots, (#[trigger] rebuilt(v, roles, roots)[k]).sid),
    decreases roots.len(),
{
    if roots.len() > 0 {
        lemma_rebuilt_known(v, roles, roots.drop_last());
        let s = rebuilt(v, roles, roots.drop_last());
        assert forall|k: int| 0 <= k < rebuilt(v, roles, roots).len() implies is_root(
            roots,
            (#[trigger] rebuilt(v, roles, roots)[k]).sid,
        ) by {
            if k < s.len() {
                assert(rebuilt(v, roles, roots)[k] == s[k]);
                let j = choose|j: int| root_is(roots.drop_last(), s[k].sid, j);
                assert(root_is(roots, s[k].sid, j));
            } else {
                assert(root_is(roots, roots.last().sid, roots.len() - 1));
            }
        }
    }
}

proof fn lemma_dropped_distinct(rs: Seq<RecordView>, scope: Scope)
    requires
        records_distinct(rs),
    ensures
        records_distinct(scope_dropped(rs, scope).0),
        forall|k: int|
            0 <= k < scope_dropped(rs, scope).0.len() ==> tracked_edge(rs, (#[trigger] scope_dropped(rs, scope).0[k]).sid),
    decreases rs.len(),
{
    if rs.len() > 0 {
        let d = rs.drop_last();
        assert(records_distinct(d));
        lemma_dropped_distinct(d, scope);
        let s = scope_dropped(d, scope).0;
        let t = scope_dropped(rs, scope).0;
        assert forall|k: int| 0 <= k < s.len() implies tracked_edge(rs, (#[trigger] s[k]).sid) && s[k].sid
            != rs.last().sid by {
            let j = choose|j: int| record_is(d, s[k].sid, j);
            assert(record_is(rs, s[k].sid, j));
            assert(rs[j].sid != rs[rs.len() - 1].sid);
        }
        assert(record_is(rs, rs.last().sid, rs.len() - 1));
        assert forall|k: int| 0 <= k < t.len() implies tracked_edge(rs, (#[trigger] t[k]).sid) by {
            if k < s.len() {
                assert(t[k] == s[k]);
            }
        }
        assert(records_distinct(t)) by {
            assert forall|i: int, j: int| 0 <= i < t.len() && 0 <= j < t.len() && i != j implies #[trigger] t[i].sid
                != #[trigger] t[j].sid by {
                if i < s.len() && j < s.len() {
                    assert(t[i] == s[i] && t[j] == s[j]);
                } else if i < s.len() {
                    assert(t[i] == s[i]);
                } else if j < s.len() {
                    assert(t[j] == s[j]);
                }
            }
        }
    }
}

fn copy_scopes(list: &Vec<Scope>) -> (r: Vec<Scope>)
    ensures
        r@ == list@,
{
    let mut out: Vec<Scope> = Vec::new();
    let mut i: usize = 0;
    while i < list.len()
        invariant
            i <= list@.len(),
            out@ == list@.take(i as int),
        decreases list@.len() - i,
    {
        out.push(list[i]);
        assert(out@ =~= list@.take(i + 1));
        i += 1;
    }
    assert(list@.take(i as int) =~= list@);
    out
}

/// Reports a change of the taxonomy at the symbols, if there are any.
pub fn push_change(out: &mut Vec<Event>, syms: Vec<SymbolId>)
    ensures
        event_views(final(out)@) == event_views(old(out)@) + taxonomy_change(syms@),
{
    let ghost start = event_views(out@);
    if syms.len() == 0 {
        assert(start =~= start + taxonomy_change(syms@));
        return;
    }
    let ghost sv = syms@;
    let e = Event::TaxonomyChanged { syms };
    proof {
        lemma_event_push(out@, e);
    }
    out.push(e);
    assert(event_views(out@) =~= start + taxonomy_change(sv));
}

fn push_ends(out: &mut Vec<Event>, e: TaxEdge)
    ensures
        event_views(final(out)@) == event_views(old(out)@) + taxonomy_change(seq![e.from, e.to]),
{
    let mut syms: Vec<SymbolId> = Vec::new();
    syms.push(e.from);
    syms.push(e.to);
    assert(syms@ =~= seq![e.from, e.to]);
    push_change(out, syms);
}

/// The stored sentence states an edge.
pub open spec fn states_edge(v: LayerView, roles: Roles, sid: SentenceId) -> bool {
    match edge_stated(v, roles, sid) {
        Some(Ok(_)) => true,
        _ => false,
    }
}

/// The rebuilt records depend on the stored sentences alone.
pub proof fn lemma_rebuilt_entries(v: LayerView, w: LayerView, roles: Roles, roots: Seq<RootView>)
    requires
        v.entries == w.entries,
    ensures
        rebuilt(v, roles, roots) == rebuilt(w, roles, roots),
    decreases roots.len(),
{
    if roots.len() > 0 {
        lemma_rebuilt_entries(v, w, roles, roots.drop_last());
    }
}

/// The rebuilt records have no sentence twice, and a sentence is among
/// them if it is a root that states an edge.
pub proof fn lemma_rebuilt_distinct(v: LayerView, roles: Roles, roots: Seq<RootView>)
    requires
        roots_distinct(roots),
    ensures
        records_distinct(rebuilt(v, roles, roots)),
        forall|sid: SentenceId| #[trigger]
            tracked_edge(rebuilt(v, roles, roots), sid) <==> is_root(roots, sid) && states_edge(v, roles, sid),
    decreases roots.len(),
{
    if roots.len() > 0 {
        let d = roots.drop_last();
        assert(roots_distinct(d));
        lemma_rebuilt_distinct(v, roles, d);
        lemma_rebuilt_known(v, roles, d);
        let s = rebuilt(v, roles, d);
        let t = rebuilt(v, roles, roots);
        let last = roots.last();
        assert(root_is(roots, last.sid, roots.len() - 1));
        assert forall|k: int| 0 <= k < s.len() implies (#[trigger] s[k]).sid != last.sid by {
            let j = choose|j: int| root_is(d, s[k].sid, j);
            assert(roots[j].sid != roots[roots.len() - 1].sid);
        }
        assert forall|sid: SentenceId| #[trigger]
            tracked_edge(t, sid) <==> is_root(roots, sid) && states_edge(v, roles, sid) by {
            if tracked_edge(t, sid) {
                let k = record_place(t, sid);
                assert(record_is(t, sid, k));
                if k < s.len() {
                    assert(record_is(s, sid, k));
                    assert(tracked_edge(s, sid));
                    let j = root_place(d, sid);
                    assert(root_is(d, sid, j));
                    assert(root_is(roots, sid, j));
                }
            }
            if is_root(roots, sid) && states_edge(v, roles, sid) {
                let j = root_place(roots, sid);
                assert(root_is(roots, sid, j));
                if j < d.len() {
                    assert(root_is(d, sid, j));
                    assert(tracked_edge(s, sid));
                    let k = record_place(s, sid);
                    assert(record_is(s, sid, k));
                    assert(record_is(t, sid, k));
                } else {
                    assert(record_is(t, sid, t.len() - 1));
                }
            }
        }
        assert forall|i: int, j: int| 0 <= i < t.len() && 0 <= j < t.len() && i != j implies #[trigger] t[i].sid
            != #[trigger] t[j].sid by {
            if i < s.len() {
                assert(t[i] == s[i]);
            }
            if j < s.len() {
                assert(t[j] == s[j]);
            }
        }
    }
}

/// A root changed in place changes its record in place.
proof fn lemma_rebuilt_update(v: LayerView, roles: Roles, roots: Seq<RootView>, i: int, r: RootView)
    requires
        roots_distinct(roots),
        0 <= i < roots.len(),
        r.sid == roots[i].sid,
    ensures
        rebuilt(v, roles, roots.update(i, r)) == ({
            let s = rebuilt(v, roles, roots);
            let k = record_place(s, r.sid);
            if tracked_edge(s, r.sid) {
                s.update(k, RecordView { scopes: scopes_where(r.promoted, r.sessions), ..s[k] })
            } else {
                s
            }
        }),
    decreases roots.len(),
{
    let d = roots.drop_last();
    let n = roots.update(i, r);
    let s = rebuilt(v, roles, roots);
    let sd = rebuilt(v, roles, d);
    assert(roots_distinct(d));
    lemma_rebuilt_distinct(v, roles, roots);
    lemma_rebuilt_distinct(v, roles, d);
    assert(root_is(roots, r.sid, i));
    if i == roots.len() - 1 {
        assert(n.drop_last() =~= d);
        if states_edge(v, roles, r.sid) {
            assert(record_is(s, r.sid, s.len() - 1));
            lemma_record_place(s, r.sid, s.len() - 1);
            assert(rebuilt(v, roles, n) =~= s.update(
                s.len() - 1,
                RecordView { scopes: scopes_where(r.promoted, r.sessions), ..s.last() },
            ));
        }
    } else {
        assert(n.drop_last() =~= d.update(i, r));
        lemma_rebuilt_update(v, roles, d, i, r);
        assert(root_is(d, r.sid, i));
        if states_edge(v, roles, r.sid) {
            let k = record_place(sd, r.sid);
            assert(record_is(sd, r.sid, k));
            assert(record_is(s, r.sid, k));
            lemma_record_place(s, r.sid, k);
            assert(rebuilt(v, roles, n) =~= s.update(
                k,
                RecordView { scopes: scopes_where(r.promoted, r.sessions), ..s[k] },
            ));
        }
    }
}

/// A root that goes takes its record with it.
proof fn lemma_rebuilt_remove(v: LayerView, roles: Roles, roots: Seq<RootView>, i: int)
    requires
        roots_distinct(roots),
        0 <= i < roots.len(),
    ensures
        rebuilt(v, roles, roots.remove(i)) == edge_removed(rebuilt(v, roles, roots), roots[i].sid),
    decreases roots.len(),
{
    let sid = roots[i].sid;
    let d = roots.drop_last();
    let n = roots.remove(i);
    let s = rebuilt(v, roles, roots);
    let sd = rebuilt(v, roles, d);
    assert(roots_distinct(d));
    lemma_rebuilt_distinct(v, roles, roots);
    lemma_rebuilt_distinct(v, roles, d);
    assert(root_is(roots, sid, i));
    if i == roots.len() - 1 {
        assert(n =~= d);
        if states_edge(v, roles, sid) {
            assert(record_is(s, sid, s.len() - 1));
            lemma_record_place(s, sid, s.len() - 1);
            assert(s.remove(s.len() - 1) =~= sd);
        }
    } else {
        assert(n.drop_last() =~= d.remove(i));
        assert(n.last() == roots.last());
        lemma_rebuilt_remove(v, roles, d, i);
        assert(root_is(d, sid, i));
        if states_edge(v, roles, sid) {
            let k = record_place(sd, sid);
            assert(record_is(sd, sid, k));
            assert(record_is(s, sid, k));
            lemma_record_place(s, sid, k);
            if states_edge(v, roles, roots.last().sid) {
                assert(s.remove(k) =~= sd.remove(k).push(s.last()));
            }
        }
    }
}

/// Every root counts somewhere.
pub open spec fn roots_live(roots: Seq<RootView>) -> bool {
    forall|i: int|
        0 <= i < roots.len() ==> (#[trigger] roots[i]).promoted || roots[i].sessions != Set::<SessionId>::empty()
}

proof fn lemma_session_scopes(sessions: Set<SessionId>, session: SessionId)
    ensures
        session_scopes(sessions).remove(Scope::Session(session)) == session_scopes(sessions.remove(session)),
        session_scopes(sessions) == Set::<Scope>::empty() <==> sessions == Set::<SessionId>::empty(),
{
    assert(session_scopes(sessions).remove(Scope::Session(session)) =~= session_scopes(sessions.remove(session)));
    if session_scopes(sessions) == Set::<Scope>::empty() {
        assert forall|x: SessionId| !sessions.contains(x) by {
            assert(!session_scopes(sessions).contains(Scope::Session(x)));
        }
        assert(sessions =~= Set::empty());
    }
    if sessions == Set::<SessionId>::empty() {
        assert(session_scopes(sessions) =~= Set::empty());
    }
}

/// Dropping a session's scope is rebuilding without the session.
proof fn lemma_rebuilt_retract(v: LayerView, roles: Roles, roots: Seq<RootView>, session: SessionId)
    requires
        roots_live(roots),
    ensures
        scope_dropped(rebuilt(v, roles, roots), Scope::Session(session)).0 == rebuilt(
            v,
            roles,
            retracted(roots, session),
        ),
        !overlay(rebuilt(v, roles, roots), Scope::Session(session)) ==> scope_dropped(
            rebuilt(v, roles, roots),
            Scope::Session(session),
        ).0 == rebuilt(v, roles, roots),
    decreases roots.len(),
{
    let scope = Scope::Session(session);
    let s = rebuilt(v, roles, roots);
    if roots.len() > 0 {
        let d = roots.drop_last();
        assert(roots_live(d)) by {
            assert forall|i: int| 0 <= i < d.len() implies (#[trigger] d[i]).promoted || d[i].sessions
                != Set::<SessionId>::empty() by {
                assert(d[i] == roots[i]);
            }
        }
        let sd = rebuilt(v, roles, d);
        let last = roots.last();
        lemma_rebuilt_retract(v, roles, d, session);
        lemma_session_scopes(last.sessions, session);
        lemma_session_scopes(last.sessions.remove(session), session);
        assert(roots[roots.len() - 1] == last);
        if !overlay(s, scope) {
            assert(!overlay(sd, scope)) by {
                if overlay(sd, scope) {
                    let j = choose|j: int| 0 <= j < sd.len() && (#[trigger] sd[j]).scopes.contains(scope);
                    assert(s[j] == sd[j]);
                }
            }
        }
        let rd = retracted(d, session);
        let gone = without_session(last, session);
        if gone.promoted || gone.sessions != Set::<SessionId>::empty() {
            assert(retracted(roots, session) == rd.push(gone));
            assert(rd.push(gone).drop_last() =~= rd);
        } else {
            assert(retracted(roots, session) == rd);
        }
        if let Some(Ok(edge)) = edge_stated(v, roles, last.sid) {
            let rec = RecordView { sid: last.sid, edge, scopes: scopes_where(last.promoted, last.sessions) };
            assert(s == sd.push(rec));
            assert(s.drop_last() =~= sd);
            assert(s.last() == rec);
            let left = rec.scopes.remove(scope);
            if last.promoted {
                assert(left =~= set![Scope::Base]);
                assert(left.contains(Scope::Base));
            }
            assert(left == scopes_where(gone.promoted, gone.sessions));
            if !overlay(s, scope) {
                assert(!s[s.len() - 1].scopes.contains(scope));
                assert(left =~= rec.scopes);
                assert(RecordView { scopes: left, ..rec } == rec);
            }
        } else {
            assert(s == sd);
        }
    } else {
        assert(retracted(roots, session) =~= Seq::empty());
    }
}

proof fn lemma_promotion_is_reported(rs: Seq<RecordView>, sids: Seq<SentenceId>)
    ensures
        edges_promoted(rs, sids).1.len() == 0 ==> edges_promoted(rs, sids).0 == rs,
        forall|i: int|
            0 <= i < edges_promoted(rs, sids).1.len() ==> #[trigger] edges_promoted(rs, sids).1[i] is TaxonomyChanged,
    decreases sids.len(),
{
    if sids.len() > 0 {
        lemma_promotion_is_reported(rs, sids.drop_last());
    }
}

proof fn lemma_reference_is_reported(rs: Seq<RecordView>, scope: Scope, sids: Seq<SentenceId>)
    ensures
        edges_referenced(rs, scope, sids).1.len() == 0 ==> edges_referenced(rs, scope, sids).0 == rs,
    decreases sids.len(),
{
    if sids.len() > 0 {
        lemma_reference_is_reported(rs, scope, sids.drop_last());
    }
}

proof fn lemma_drop_is_reported(rs: Seq<RecordView>, scope: Scope)
    requires
        overlay(rs, scope),
    ensures
        scope_dropped(rs, scope).1.len() > 0,
    decreases rs.len(),
{
    let i = choose|i: int| 0 <= i < rs.len() && (#[trigger] rs[i]).scopes.contains(scope);
    if i < rs.len() - 1 {
        assert(rs.drop_last()[i].scopes.contains(scope));
        lemma_drop_is_reported(rs.drop_last(), scope);
    }
}

/// The taxonomy stays as it is unless a change of it is reported.
pub proof fn law_silence_keeps_the_taxonomy(v: LayerView, roles: Roles, rs: Seq<RecordView>, es: Seq<EventView>)
    requires
        forall|i: int|
            0 <= i < tax_steps(v, roles, rs, es).1.len() ==> !(#[trigger] tax_steps(v, roles, rs, es).1[i] is TaxonomyChanged),
    ensures
        tax_steps(v, roles, rs, es).0 == rs,
    decreases es.len(),
{
    if es.len() > 0 {
        let p = tax_steps(v, roles, rs, es.drop_last());
        let q = tax_step(v, roles, p.0, es.last());
        let all = tax_steps(v, roles, rs, es).1;
        assert(all == p.1 + q.1);
        assert forall|i: int| 0 <= i < p.1.len() implies !(#[trigger] p.1[i] is TaxonomyChanged) by {
            assert(all[i] == p.1[i]);
        }
        law_silence_keeps_the_taxonomy(v, roles, rs, es.drop_last());
        assert forall|i: int| 0 <= i < q.1.len() implies !(#[trigger] q.1[i] is TaxonomyChanged) by {
            assert(all[p.1.len() + i] == q.1[i]);
        }
        if q.1.len() > 0 {
            assert(!(q.1[0] is TaxonomyChanged));
        }
        match es.last() {
            EventView::AxiomsPromoted { sids } => {
                lemma_promotion_is_reported(p.0, sids);
            },
            EventView::SessionReferenced { session, sids } => {
                lemma_reference_is_reported(p.0, Scope::Session(session), sids);
            },
            EventView::SessionRetracted { session } => {
                if overlay(p.0, Scope::Session(session)) {
                    lemma_drop_is_reported(p.0, Scope::Session(session));
                }
            },
            _ => {},
        }
    }
}

/// A new root, reported, leaves the index as if built from scratch.
pub proof fn law_index_follows_addition(
    v: LayerView,
    roles: Roles,
    sid: SentenceId,
    session: SessionId,
    head: SymbolId,
    ps: Seq<Part>,
)
    requires
        roots_distinct(v.roots),
        !is_root(v.roots, sid),
        body(v, sid) == Some(ps),
        head_of(ps) == Some(head),
    ensures
        ({
            let w = LayerView { roots: rooted(v.roots, sid, session), ..v };
            tax_step(
                w,
                roles,
                rebuilt(v, roles, v.roots),
                EventView::RelationAdded { sid, head_id: head },
            ).0 == rebuilt(w, roles, w.roots)
        }),
{
    let w = LayerView { roots: rooted(v.roots, sid, session), ..v };
    let s = rebuilt(v, roles, v.roots);
    lemma_rebuilt_entries(v, w, roles, v.roots);
    lemma_rebuilt_distinct(v, roles, v.roots);
    assert(w.roots.drop_last() =~= v.roots);
    assert(root_is(w.roots, sid, v.roots.len() as int));
    assert(roots_distinct(w.roots)) by {
        assert forall|i: int, j: int| 0 <= i < w.roots.len() && 0 <= j < w.roots.len() && i != j implies #[trigger] w.roots[i].sid
            != #[trigger] w.roots[j].sid by {
            if i == v.roots.len() {
                assert(!root_is(v.roots, sid, j));
            }
            if j == v.roots.len() {
                assert(!root_is(v.roots, sid, i));
            }
        }
    }
    lemma_root_place(w.roots, sid, v.roots.len() as int);
    assert(!tracked_edge(s, sid));
}

/// A promoted root, reported, leaves the index as if built from scratch.
pub proof fn law_index_follows_promotion(v: LayerView, roles: Roles, sid: SentenceId)
    requires
        roots_distinct(v.roots),
    ensures
        ({
            let w = LayerView { roots: promoted(v.roots, sid), ..v };
            tax_step(w, roles, rebuilt(v, roles, v.roots), EventView::AxiomsPromoted { sids: seq![sid] }).0
                == rebuilt(w, roles, w.roots)
        }),
{
    let w = LayerView { roots: promoted(v.roots, sid), ..v };
    let s = rebuilt(v, roles, v.roots);
    lemma_rebuilt_entries(v, w, roles, w.roots);
    lemma_rebuilt_distinct(v, roles, v.roots);
    assert(seq![sid].drop_last() =~= Seq::empty());
    reveal_with_fuel(edges_promoted, 2);
    if is_root(v.roots, sid) {
        let i = root_place(v.roots, sid);
        assert(root_is(v.roots, sid, i));
        lemma_rebuilt_update(v, roles, v.roots, i, RootView { promoted: true, ..v.roots[i] });
    }
}

/// A root that a session takes hold of, reported, leaves the index as if
/// built from scratch.
pub proof fn law_index_follows_reference(v: LayerView, roles: Roles, sid: SentenceId, session: SessionId)
    requires
        roots_distinct(v.roots),
        is_root(v.roots, sid),
    ensures
        ({
            let w = LayerView { roots: rooted(v.roots, sid, session), ..v };
            tax_step(
                w,
                roles,
                rebuilt(v, roles, v.roots),
                EventView::SessionReferenced { session, sids: seq![sid] },
            ).0 == rebuilt(w, roles, w.roots)
        }),
{
    let w = LayerView { roots: rooted(v.roots, sid, session), ..v };
    let s = rebuilt(v, roles, v.roots);
    lemma_rebuilt_entries(v, w, roles, w.roots);
    lemma_rebuilt_distinct(v, roles, v.roots);
    assert(seq![sid].drop_last() =~= Seq::empty());
    reveal_with_fuel(edges_referenced, 2);
    let i = root_place(v.roots, sid);
    assert(root_is(v.roots, sid, i));
    let r = RootView { sessions: v.roots[i].sessions.insert(session), ..v.roots[i] };
    lemma_rebuilt_update(v, roles, v.roots, i, r);
    if tracked_edge(s, sid) {
        lemma_rebuilt_scopes(v, roles, v.roots, i);
        let k = record_place(s, sid);
        let scope = Scope::Session(session);
        assert(record_is(s, sid, k));
        if !v.roots[i].promoted {
            assert(session_scopes(r.sessions) =~= session_scopes(v.roots[i].sessions).insert(scope));
        }
        if !newly_held(s, scope, sid) {
            assert(scopes_where(r.promoted, r.sessions) =~= s[k].scopes);
            assert(s.update(k, RecordView { scopes: scopes_where(r.promoted, r.sessions), ..s[k] }) =~= s);
        }
    }
}

/// The record of a root has the root's scopes.
proof fn lemma_rebuilt_scopes(v: LayerView, roles: Roles, roots: Seq<RootView>, i: int)
    requires
        roots_distinct(roots),
        0 <= i < roots.len(),
        tracked_edge(rebuilt(v, roles, roots), roots[i].sid),
    ensures
        ({
            let s = rebuilt(v, roles, roots);
            s[record_place(s, roots[i].sid)].scopes == scopes_where(roots[i].promoted, roots[i].sessions)
        }),
{
    lemma_rebuilt_update(v, roles, roots, i, roots[i]);
    assert(roots.update(i, roots[i]) =~= roots);
    let s = rebuilt(v, roles, roots);
    let k = record_place(s, roots[i].sid);
    assert(record_is(s, roots[i].sid, k));
    assert(s.update(k, RecordView { scopes: scopes_where(roots[i].promoted, roots[i].sessions), ..s[k] })[k] == s[k]);
}

/// A dropped session, reported, leaves the index as if built from scratch.
pub proof fn law_index_follows_retraction(v: LayerView, roles: Roles, session: SessionId)
    requires
        roots_live(v.roots),
    ensures
        ({
            let w = LayerView { roots: retracted(v.roots, session), ..v };
            tax_step(w, roles, rebuilt(v, roles, v.roots), EventView::SessionRetracted { session }).0 == rebuilt(
                w,
                roles,
                w.roots,
            )
        }),
{
    let w = LayerView { roots: retracted(v.roots, session), ..v };
    lemma_rebuilt_entries(v, w, roles, w.roots);
    lemma_rebuilt_retract(v, roles, v.roots, session);
}

/// A removed root, reported, leaves the index as if built from scratch.
pub proof fn law_index_follows_removal(v: LayerView, roles: Roles, sid: SentenceId, ps: Seq<Part>)
    requires
        roots_distinct(v.roots),
    ensures
        ({
            let w = LayerView { roots: unrooted(v.roots, sid), ..v };
            tax_step(
                w,
                roles,
                rebuilt(v, roles, v.roots),
                EventView::RelationRemoved { sid, sentence: ps },
            ).0 == rebuilt(w, roles, w.roots)
        }),
{
    let w = LayerView { roots: unrooted(v.roots, sid), ..v };
    lemma_rebuilt_entries(v, w, roles, w.roots);
    lemma_rebuilt_distinct(v, roles, v.roots);
    if is_root(v.roots, sid) {
        let i = root_place(v.roots, sid);
        assert(root_is(v.roots, sid, i));
        lemma_rebuilt_remove(v, roles, v.roots, i);
    }
}

/// A statement of the taxonomy puts its first argument under the second, by the
/// relation that its head names; with a literal for an argument, or with another
/// number of arguments, it is reported; with any other argument it says nothing.
pub proof fn law_statements_put_the_first_under_the_second(roles: Roles, sid: SentenceId, h: SymbolId, a: Part, b: Part)
    requires
        tax_role(roles, h) is Some,
    ensures
        ({
            let rel = tax_role(roles, h)->0;
            let r = extracted(roles, sid, seq![Part::Sym(h), a, b]);
            let named = |p: Part, id: SymbolId| p == Part::Sym(id) || p == Part::Var(id, false);
            &&& forall|x: SymbolId, y: SymbolId| #[trigger]
                named(a, x) && #[trigger] named(b, y) ==> r == Some(
                    Ok::<TaxEdge, ErrorView>(TaxEdge { from: y, to: x, rel }),
                )
            &&& a is Lit ==> r == Some(
                Err::<TaxEdge, ErrorView>(ErrorView::Domain { sid, rel: rel_name(rel), arg: 0, domain: "Entity"@ }),
            )
            &&& !(a is Lit) && b is Lit && end_id(a) is Some ==> r == Some(
                Err::<TaxEdge, ErrorView>(ErrorView::Domain { sid, rel: rel_name(rel), arg: 1, domain: "Entity"@ }),
            )
            &&& a is Sub || a is Op || a == Part::Var(end_of(a), true) ==> r is None
            &&& !(a is Lit) && (b is Sub || b is Op || b == Part::Var(end_of(b), true)) ==> r is None
        }),
{
}

/// The symbol of a variable.
pub open spec fn end_of(p: Part) -> SymbolId {
    match p {
        Part::Var(id, _) => id,
        _ => 0,
    }
}

/// The heads of the taxonomy, each with its relation, and no other.
pub proof fn law_heads_of_the_taxonomy(roles: Roles, h: SymbolId)
    requires
        roles.subclass != roles.instance && roles.subclass != roles.subrelation && roles.subclass != roles.sub_attribute,
        roles.instance != roles.subrelation && roles.instance != roles.sub_attribute && roles.subrelation
            != roles.sub_attribute,
    ensures
        tax_role(roles, roles.subclass) == Some(TaxRelation::Subclass),
        tax_role(roles, roles.instance) == Some(TaxRelation::Instance),
        tax_role(roles, roles.subrelation) == Some(TaxRelation::Subrelation),
        tax_role(roles, roles.sub_attribute) == Some(TaxRelation::SubAttribute),
        h != roles.subclass && h != roles.instance && h != roles.subrelation && h != roles.sub_attribute ==> tax_role(
            roles,
            h,
        ) is None,
{
}

/// The taxonomy of some roots holds one record for each root that states an edge, with
/// that edge, in the order of the roots, and no other.  The edge of a promoted root
/// counts for all, that of another for the sessions that hold the root.
pub proof fn law_records_are_the_stated_edges(v: LayerView, roles: Roles, roots: Seq<RootView>, scope: Scope)
    ensures
        forall|i: int|
            0 <= i < roots.len() && states_edge(v, roles, (#[trigger] roots[i]).sid) ==> exists|k: int|
                0 <= k < rebuilt(v, roles, roots).len() && record_of_root(
                    v,
                    roles,
                    #[trigger] rebuilt(v, roles, roots)[k],
                    roots[i],
                    scope,
                ),
        forall|k: int|
            0 <= k < rebuilt(v, roles, roots).len() ==> exists|i: int|
                0 <= i < roots.len() && record_of_root(
                    v,
                    roles,
                    #[trigger] rebuilt(v, roles, roots)[k],
                    #[trigger] roots[i],
                    scope,
                ),
    decreases roots.len(),
{
    if roots.len() > 0 {
        let d = roots.drop_last();
        law_records_are_the_stated_edges(v, roles, d, scope);
        let s = rebuilt(v, roles, d);
        let t = rebuilt(v, roles, roots);
        let n = roots.len() - 1;
        assert forall|i: int| 0 <= i < roots.len() && states_edge(v, roles, (#[trigger] roots[i]).sid) implies exists|k: int|
            0 <= k < t.len() && record_of_root(v, roles, #[trigger] rebuilt(v, roles, roots)[k], roots[i], scope) by {
            if i < n {
                assert(d[i] == roots[i]);
                assert(states_edge(v, roles, d[i].sid));
                let k = choose|k: int|
                    0 <= k < s.len() && record_of_root(v, roles, #[trigger] rebuilt(v, roles, d)[k], d[i], scope);
                assert(rebuilt(v, roles, roots)[k] == s[k]);
            } else {
                assert(record_of_root(v, roles, rebuilt(v, roles, roots)[s.len() as int], roots[i], scope));
            }
        }
        assert forall|k: int| 0 <= k < t.len() implies exists|i: int|
            0 <= i < roots.len() && record_of_root(
                v,
                roles,
                #[trigger] rebuilt(v, roles, roots)[k],
                #[trigger] roots[i],
                scope,
            ) by {
            if k < s.len() {
                assert(rebuilt(v, roles, roots)[k] == s[k]);
                let i = choose|i: int|
                    0 <= i < d.len() && record_of_root(v, roles, rebuilt(v, roles, d)[k], #[trigger] d[i], scope);
                assert(record_of_root(v, roles, rebuilt(v, roles, roots)[k], roots[i], scope));
            } else {
                assert(record_of_root(v, roles, rebuilt(v, roles, roots)[k], roots[n], scope));
            }
        }
    }
}

/// The record is that of the edge that the root states, and counts in the scope as the
/// root says.
pub open spec fn record_of_root(v: LayerView, roles: Roles, rec: RecordView, r: RootView, scope: Scope) -> bool {
    &&& rec.sid == r.sid
    &&& edge_stated(v, roles, r.sid) == Some(Ok::<TaxEdge, ErrorView>(rec.edge))
    &&& match scope {
        Scope::Base => rec.scopes.contains(scope) <==> r.promoted,
        Scope::Session(s) => rec.scopes.contains(scope) <==> !r.promoted && r.sessions.contains(s),
    }
}

/// The reports name the symbol as one at which the taxonomy changed.
pub open spec fn names_change(out: Seq<EventView>, x: SymbolId) -> bool {
    exists|k: int, syms: Seq<SymbolId>|
        0 <= k < out.len() && #[trigger] out[k] == (EventView::TaxonomyChanged { syms }) && #[trigger] syms.contains(x)
}

proof fn lemma_one_report(syms: Seq<SymbolId>, x: SymbolId)
    ensures
        names_change(taxonomy_change(syms), x) <==> syms.contains(x),
{
    let out = taxonomy_change(syms);
    if syms.contains(x) {
        assert(out[0] == (EventView::TaxonomyChanged { syms }));
    }
}

proof fn lemma_reports_join(a: Seq<EventView>, b: Seq<EventView>, x: SymbolId)
    ensures
        names_change(a, x) || names_change(b, x) ==> names_change(a + b, x),
{
    let c = a + b;
    if names_change(a, x) {
        let (k, syms) = choose|k: int, syms: Seq<SymbolId>|
            0 <= k < a.len() && #[trigger] a[k] == (EventView::TaxonomyChanged { syms }) && #[trigger] syms.contains(x);
        assert(c[k] == (EventView::TaxonomyChanged { syms }));
    }
    if names_change(b, x) {
        let (k, syms) = choose|k: int, syms: Seq<SymbolId>|
            0 <= k < b.len() && #[trigger] b[k] == (EventView::TaxonomyChanged { syms }) && #[trigger] syms.contains(x);
        assert(c[a.len() + k] == (EventView::TaxonomyChanged { syms }));
    }
}

proof fn lemma_dropped_ends(rs: Seq<RecordView>, scope: Scope, x: SymbolId)
    ensures
        scope_dropped(rs, scope).1.contains(x) <==> exists|i: int|
            0 <= i < rs.len() && (#[trigger] rs[i]).scopes.contains(scope) && (rs[i].edge.from == x || rs[i].edge.to == x),
    decreases rs.len(),
{
    if rs.len() > 0 {
        let d = rs.drop_last();
        let n = rs.len() - 1;
        lemma_dropped_ends(d, scope, x);
        let s = scope_dropped(d, scope).1;
        let t = scope_dropped(rs, scope).1;
        if exists|i: int|
            0 <= i < d.len() && (#[trigger] d[i]).scopes.contains(scope) && (d[i].edge.from == x || d[i].edge.to == x) {
            let i = choose|i: int|
                0 <= i < d.len() && (#[trigger] d[i]).scopes.contains(scope) && (d[i].edge.from == x || d[i].edge.to == x);
            assert(rs[i] == d[i]);
        }
        if exists|i: int|
            0 <= i < rs.len() && (#[trigger] rs[i]).scopes.contains(scope) && (rs[i].edge.from == x || rs[i].edge.to == x) {
            let i = choose|i: int|
                0 <= i < rs.len() && (#[trigger] rs[i]).scopes.contains(scope) && (rs[i].edge.from == x || rs[i].edge.to == x);
            if i < n {
                assert(d[i] == rs[i]);
                let k = choose|k: int| 0 <= k < s.len() && s[k] == x;
                assert(t[k] == x);
            } else if rs[n].edge.from == x {
                assert(t[s.len() as int] == x);
            } else {
                assert(t[s.len() as int + 1] == x);
            }
        }
        if t.contains(x) {
            let k = choose|k: int| 0 <= k < t.len() && t[k] == x;
            if k < s.len() {
                assert(s[k] == x);
                assert(s.contains(x));
            } else {
                assert(rs[n].scopes.contains(scope) && (rs[n].edge.from == x || rs[n].edge.to == x));
            }
        }
    }
}

proof fn lemma_promoted_edges(rs: Seq<RecordView>, sids: Seq<SentenceId>, k: int)
    requires
        records_distinct(rs),
    ensures
        edges_promoted(rs, sids).0.len() == rs.len(),
        records_distinct(edges_promoted(rs, sids).0),
        forall|i: int|
            0 <= i < rs.len() ==> (#[trigger] edges_promoted(rs, sids).0[i]).sid == rs[i].sid && edges_promoted(rs, sids).0[i].edge
                == rs[i].edge,
        forall|i: int|
            0 <= i < rs.len() && 0 <= k < sids.len() && (#[trigger] rs[i]).sid == sids[k] ==> names_change(
                edges_promoted(rs, sids).1,
                rs[i].edge.from,
            ) && names_change(edges_promoted(rs, sids).1, rs[i].edge.to),
    decreases sids.len(),
{
    if sids.len() > 0 {
        let d = sids.drop_last();
        let p = edges_promoted(rs, d);
        let z = sids.last();
        lemma_promoted_edges(rs, d, k);
        let q = edges_promoted(rs, sids);
        if tracked_edge(p.0, z) {
            assert(record_is(p.0, z, record_place(p.0, z)));
        }
        assert forall|i: int| 0 <= i < rs.len() && 0 <= k < sids.len() && (#[trigger] rs[i]).sid == sids[k] implies names_change(
            q.1,
            rs[i].edge.from,
        ) && names_change(q.1, rs[i].edge.to) by {
            let last = taxonomy_change(ends_of(p.0, z));
            lemma_reports_join(p.1, last, rs[i].edge.from);
            lemma_reports_join(p.1, last, rs[i].edge.to);
            if k < d.len() {
                assert(d[k] == sids[k]);
                assert(rs[i].sid == d[k]);
            } else {
                assert(p.0[i].sid == z);
                assert(record_is(p.0, z, i));
                lemma_record_place(p.0, z, i);
                let e = ends_of(p.0, z);
                assert(e[0] == rs[i].edge.from && e[1] == rs[i].edge.to);
                lemma_one_report(e, e[0]);
                lemma_one_report(e, e[1]);
            }
        }
    }
}

/// Whatever changes in the taxonomy is reported at both ends of the edge: an edge that
/// comes in, one that is promoted, one that goes out, and every edge of a session that is
/// dropped.
pub proof fn law_changed_edges_are_reported(v: LayerView, roles: Roles, rs: Seq<RecordView>, e: EventView, i: int)
    requires
        records_distinct(rs),
        0 <= i < rs.len(),
    ensures
        ({
            let out = tax_step(v, roles, rs, e).1;
            let both = names_change(out, rs[i].edge.from) && names_change(out, rs[i].edge.to);
            &&& e matches EventView::SessionRetracted { session } ==> rs[i].scopes.contains(Scope::Session(session)) ==> both
            &&& e matches EventView::RelationRemoved { sid, .. } ==> rs[i].sid == sid ==> both
            &&& e matches EventView::AxiomsPromoted { sids } ==> sids.contains(rs[i].sid) ==> both
        }),
{
    let out = tax_step(v, roles, rs, e).1;
    let (a, b) = (rs[i].edge.from, rs[i].edge.to);
    match e {
        EventView::SessionRetracted { session } => {
            let scope = Scope::Session(session);
            if rs[i].scopes.contains(scope) {
                assert(overlay(rs, scope));
                lemma_dropped_ends(rs, scope, a);
                lemma_dropped_ends(rs, scope, b);
                lemma_one_report(scope_dropped(rs, scope).1, a);
                lemma_one_report(scope_dropped(rs, scope).1, b);
            }
        },
        EventView::RelationRemoved { sid, .. } => {
            if rs[i].sid == sid {
                assert(record_is(rs, sid, i));
                lemma_record_place(rs, sid, i);
                let s = ends_of(rs, sid);
                assert(s[0] == a && s[1] == b);
                lemma_one_report(s, a);
                lemma_one_report(s, b);
            }
        },
        EventView::AxiomsPromoted { sids } => {
            if sids.contains(rs[i].sid) {
                let k = choose|k: int| 0 <= k < sids.len() && sids[k] == rs[i].sid;
                lemma_promoted_edges(rs, sids, k);
            }
        },
        _ => {},
    }
}

/// A session that is dropped reports no symbol but the ends of its edges, and a statement
/// that comes in those of the edge that it states; a malformed one reports what is wrong
/// with it and changes nothing.
pub proof fn law_nothing_else_is_reported(v: LayerView, roles: Roles, rs: Seq<RecordView>, e: EventView, x: SymbolId)
    ensures
        e matches EventView::SessionRetracted { session } ==> names_change(tax_step(v, roles, rs, e).1, x) ==> exists|i: int|
            0 <= i < rs.len() && (#[trigger] rs[i]).scopes.contains(Scope::Session(session)) && (rs[i].edge.from == x
                || rs[i].edge.to == x),
        e matches EventView::RelationAdded { sid, head_id } ==> tax_role(roles, head_id) is Some ==> (edge_stated(
            v,
            roles,
            sid,
        ) matches Some(Ok(edge)) ==> (names_change(tax_step(v, roles, rs, e).1, x) <==> x == edge.from || x == edge.to)),
        e matches EventView::RelationAdded { sid, head_id } ==> tax_role(roles, head_id) is Some ==> (edge_stated(
            v,
            roles,
            sid,
        ) matches Some(Err(w)) ==> tax_step(v, roles, rs, e) == (rs, seq![EventView::Diagnostic(w)])),
{
    match e {
        EventView::SessionRetracted { session } => {
            let scope = Scope::Session(session);
            lemma_dropped_ends(rs, scope, x);
            lemma_one_report(scope_dropped(rs, scope).1, x);
        },
        EventView::RelationAdded { sid, head_id } => {
            if let Some(Ok(edge)) = edge_stated(v, roles, sid) {
                let s = seq![edge.from, edge.to];
                lemma_one_report(s, x);
                assert(s[0] == edge.from && s[1] == edge.to);
                if s.contains(x) {
                    let k = choose|k: int| 0 <= k < s.len() && s[k] == x;
                    assert(k == 0 || k == 1);
                }
            }
        },
        _ => {},
    }
}

} // verus!
