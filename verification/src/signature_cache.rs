//! Declared domains and ranges, remembered, and when they are forgotten.
use vstd::prelude::*;

use crate::content::Part;
use crate::events::{event_views, lemma_event_push, DoubleRange, ErrorView, Event, EventView, SemanticError};
use crate::memo::{MemoKey, ScopedMemo};
use crate::roles::{Roles, TaxRelation};
use crate::semantic::{Facts, SemanticLayer};
use crate::signature::{
    declarations, domain_extracted, domain_of, range_extracted, range_of, RelationDomain, RelationRange,
};
use crate::store::{body, head_of, session_id, Element, Scope, Sentence};
use crate::taxonomy::{extracted, try_extract_edge_from};
use crate::types::{SentenceId, SymbolId};

verus! {

/// Which of the two declared things is meant.
#[derive(Clone, Copy, Debug, PartialEq, Eq, Structural)]
pub enum Facet {
    Domain,
    Range,
}

/// The head declares the thing.
pub open spec fn declares(roles: Roles, facet: Facet, head: SymbolId) -> bool {
    match facet {
        Facet::Domain => head == roles.domain || head == roles.domain_subclass,
        Facet::Range => head == roles.range || head == roles.range_subclass,
    }
}

/// The relation that the sentence puts below another.
pub open spec fn sub_child_of(roles: Roles, sid: SentenceId, ps: Seq<Part>) -> Option<SymbolId> {
    match extracted(roles, sid, ps) {
        Some(Ok(e)) => if e.rel == TaxRelation::Subrelation {
            Some(e.to)
        } else {
            None
        },
        _ => None,
    }
}

/// The relation that the stored sentence puts below another.
pub open spec fn sub_child(f: Facts, sid: SentenceId) -> Option<SymbolId> {
    match body(f.layer, sid) {
        Some(ps) => sub_child_of(f.roles, sid, ps),
        None => None,
    }
}

/// The relation that the stored sentence declares the thing for.
pub open spec fn declared_for(f: Facts, facet: Facet, sid: SentenceId) -> Option<SymbolId> {
    match body(f.layer, sid) {
        None => None,
        Some(ps) => match head_of(ps) {
            None => None,
            Some(h) => if !declares(f.roles, facet, h) {
                None
            } else {
                match facet {
                    Facet::Domain => match domain_extracted(f, h, sid, ps) {
                        Ok((rel, _, _)) => Some(rel),
                        Err(_) => None,
                    },
                    Facet::Range => if ps.len() > 1 && ps[1] is Sym {
                        Some(ps[1]->Sym_0)
                    } else {
                        None
                    },
                }
            },
        },
    }
}

/// The relation that the stored sentence matters for.
pub open spec fn touched(f: Facts, facet: Facet, sid: SentenceId) -> Option<SymbolId> {
    match declared_for(f, facet, sid) {
        Some(rel) => Some(rel),
        None => sub_child(f, sid),
    }
}

/// The report of a change for the relation.
pub open spec fn changed(rel: SymbolId) -> EventView {
    EventView::DomainRangeChanged { syms: seq![rel] }
}

/// The reports for the relations that the sentences matter for.
pub open spec fn touched_all(f: Facts, facet: Facet, sids: Seq<SentenceId>) -> Seq<EventView>
    decreases sids.len(),
{
    if sids.len() == 0 {
        Seq::empty()
    } else {
        let s = touched_all(f, facet, sids.drop_last());
        match touched(f, facet, sids.last()) {
            Some(rel) => s.push(changed(rel)),
            None => s,
        }
    }
}

/// The complaint about a function with both kinds of range.
pub open spec fn double_range(f: Facts, func: SymbolId) -> Seq<EventView> {
    if declarations(f, f.roles.range, func, Scope::Base).len() > 0 && declarations(
        f,
        f.roles.range_subclass,
        func,
        Scope::Base,
    ).len() > 0 && f.layer.names.dom().contains(func) {
        seq![EventView::Diagnostic(ErrorView::DoubleRange { sym: f.layer.names[func] })]
    } else {
        Seq::empty()
    }
}

/// What an event does to the remembered values: forget all of them, forget
/// those of one scope, and report.
pub struct Effect {
    pub all: bool,
    pub scope: Option<Scope>,
    pub out: Seq<EventView>,
}

/// Nothing happens.
pub open spec fn no_effect() -> Effect {
    Effect { all: false, scope: None, out: Seq::empty() }
}

/// All is forgotten and the change reported, if there is one.
pub open spec fn change_effect(rel: Option<SymbolId>) -> Effect {
    match rel {
        Some(r) => Effect { all: true, scope: None, out: seq![changed(r)] },
        None => no_effect(),
    }
}

/// What a new declaration does.
pub open spec fn addition_effect(f: Facts, facet: Facet, sid: SentenceId) -> Effect {
    match body(f.layer, sid) {
        None => no_effect(),
        Some(ps) => match head_of(ps) {
            None => no_effect(),
            Some(h) => match facet {
                Facet::Domain => match domain_extracted(f, h, sid, ps) {
                    Ok((rel, _, _)) => change_effect(Some(rel)),
                    Err(e) => Effect { all: false, scope: None, out: seq![EventView::Diagnostic(e)] },
                },
                Facet::Range => match range_extracted(f, h, sid, ps) {
                    Ok((rel, _)) => Effect { all: true, scope: None, out: double_range(f, rel).push(changed(rel)) },
                    Err(e) => Effect { all: false, scope: None, out: seq![EventView::Diagnostic(e)] },
                },
            },
        },
    }
}

/// What a removed declaration does.
pub open spec fn removal_effect(f: Facts, facet: Facet, h: SymbolId, sid: SentenceId, ps: Seq<Part>) -> Effect {
    match facet {
        Facet::Domain => match domain_extracted(f, h, sid, ps) {
            Ok((rel, _, _)) => change_effect(Some(rel)),
            Err(_) => no_effect(),
        },
        Facet::Range => match range_extracted(f, h, sid, ps) {
            Ok((rel, _)) => change_effect(Some(rel)),
            Err(_) => no_effect(),
        },
    }
}

/// What an event does to the remembered values.
pub open spec fn effect(f: Facts, facet: Facet, e: EventView) -> Effect {
    match e {
        EventView::AxiomsPromoted { sids } => {
            let out = touched_all(f, facet, sids);
            Effect { all: out.len() > 0, scope: None, out }
        },
        EventView::SessionReferenced { session, sids } => {
            let out = touched_all(f, facet, sids);
            Effect {
                all: false,
                scope: if out.len() > 0 {
                    Some(Scope::Session(session))
                } else {
                    None
                },
                out,
            }
        },
        EventView::SessionRetracted { session } => Effect {
            all: false,
            scope: Some(Scope::Session(session)),
            out: Seq::empty(),
        },
        EventView::RelationAdded { sid, head_id } => if declares(f.roles, facet, head_id) {
            addition_effect(f, facet, sid)
        } else {
            change_effect(sub_child(f, sid))
        },
        EventView::RelationRemoved { sid, sentence } => match head_of(sentence) {
            None => no_effect(),
            Some(h) => if declares(f.roles, facet, h) {
                removal_effect(f, facet, h, sid, sentence)
            } else {
                change_effect(sub_child_of(f.roles, sid, sentence))
            },
        },
        _ => no_effect(),
    }
}

/// What the events do together.
pub struct Effects {
    pub all: bool,
    pub scopes: Set<Scope>,
    pub out: Seq<EventView>,
}

/// What the events do together.
pub open spec fn effects(f: Facts, facet: Facet, es: Seq<EventView>) -> Effects
    decreases es.len(),
{
    if es.len() == 0 {
        Effects { all: false, scopes: Set::empty(), out: Seq::empty() }
    } else {
        let p = effects(f, facet, es.drop_last());
        let q = effect(f, facet, es.last());
        Effects {
            all: p.all || q.all,
            scopes: match q.scope {
                Some(s) => p.scopes.insert(s),
                None => p.scopes,
            },
            out: p.out + q.out,
        }
    }
}

/// What is remembered after the events.
pub open spec fn survivors<V>(m: Map<MemoKey, V>, e: Effects) -> Map<MemoKey, V> {
    if e.all {
        Map::empty()
    } else {
        m.restrict(Set::new(|k: MemoKey| !e.scopes.contains(k.0)))
    }
}

fn push_event(out: &mut Vec<Event>, e: Event)
    ensures
        event_views(final(out)@) == event_views(old(out)@).push(e@),
{
    proof {
        lemma_event_push(out@, e);
    }
    out.push(e);
}

fn push_changed(out: &mut Vec<Event>, rel: SymbolId)
    ensures
        event_views(final(out)@) == event_views(old(out)@).push(changed(rel)),
{
    let mut syms: Vec<SymbolId> = Vec::new();
    syms.push(rel);
    assert(syms@ =~= seq![rel]);
    push_event(out, Event::DomainRangeChanged { syms });
}

fn is_declaration(roles: &Roles, facet: Facet, head: SymbolId) -> (r: bool)
    ensures
        r == declares(*roles, facet, head),
{
    match facet {
        Facet::Domain => head == roles.domain || head == roles.domain_subclass,
        Facet::Range => head == roles.range || head == roles.range_subclass,
    }
}

impl SemanticLayer {
    /// The relation that the sentence puts below another.
    pub fn subrelation_child_of(&self, sid: SentenceId, sentence: &Sentence) -> (r: Option<SymbolId>)
        ensures
            r == sub_child_of(self.roles, sid, sentence@),
    {
        match try_extract_edge_from(&self.roles, sid, sentence) {
            Some(Ok(e)) => if e.rel == TaxRelation::Subrelation {
                Some(e.to)
            } else {
                None
            },
            _ => None,
        }
    }

    /// The relation that the stored sentence puts below another.
    pub fn subrelation_child(&self, sid: SentenceId) -> (r: Option<SymbolId>)
        requires
            self.wf(),
        ensures
            r == sub_child(self@, sid),
    {
        match self.syntactic.sentence(sid) {
            None => None,
            Some(sentence) => self.subrelation_child_of(sid, sentence),
        }
    }

    fn edge_relation(&self, facet: Facet, sid: SentenceId) -> (r: Option<SymbolId>)
        requires
            self.wf(),
        ensures
            r == declared_for(self@, facet, sid),
    {
        let sentence = match self.syntactic.sentence(sid) {
            None => return None,
            Some(s) => s,
        };
        let head = match sentence.head_symbol() {
            None => return None,
            Some(h) => h,
        };
        if !is_declaration(&self.roles, facet, head) {
            return None;
        }
        match facet {
            Facet::Domain => match self.try_extract_domain_from(head, sid, sentence) {
                Ok((rel, _, _)) => Some(rel),
                Err(_) => None,
            },
            Facet::Range => {
                if sentence.elements.len() < 2 {
                    return None;
                }
                assert(sentence@[1] == sentence.elements@[1]@);
                match &sentence.elements[1] {
                    Element::Symbol(s) => Some(s.id()),
                    _ => None,
                }
            },
        }
    }

    fn report_touched(&self, facet: Facet, sids: &Vec<SentenceId>, out: &mut Vec<Event>) -> (any: bool)
        requires
            self.wf(),
        ensures
            event_views(final(out)@) == event_views(old(out)@) + touched_all(self@, facet, sids@),
            any == (touched_all(self@, facet, sids@).len() > 0),
    {
        let ghost start = event_views(out@);
        let mut any = false;
        let mut i: usize = 0;
        assert(sids@.take(0) =~= Seq::empty());
        assert(start =~= start + Seq::<EventView>::empty());
        while i < sids.len()
            invariant
                self.wf(),
                i <= sids@.len(),
                event_views(out@) == start + touched_all(self@, facet, sids@.take(i as int)),
                any == (touched_all(self@, facet, sids@.take(i as int)).len() > 0),
            decreases sids@.len() - i,
        {
            assert(sids@.take(i + 1).drop_last() =~= sids@.take(i as int));
            let ghost before = touched_all(self@, facet, sids@.take(i as int));
            let rel = match self.edge_relation(facet, sids[i]) {
                Some(rel) => Some(rel),
                None => self.subrelation_child(sids[i]),
            };
            match rel {
                None => {},
                Some(r) => {
                    push_changed(out, r);
                    assert(event_views(out@) =~= start + before.push(changed(r)));
                    any = true;
                },
            }
            i += 1;
        }
        assert(sids@.take(i as int) =~= sids@);
        any
    }

    fn report_double_range(&self, func: SymbolId, out: &mut Vec<Event>)
        requires
            self.wf(),
        ensures
            event_views(final(out)@) == event_views(old(out)@) + double_range(self@, func),
    {
        let ghost start = event_views(out@);
        assert(start =~= start + Seq::<EventView>::empty());
        let ranges = self.syntactic.subject_sids_scoped(self.roles.range, func, Scope::Base);
        let subs = self.syntactic.subject_sids_scoped(self.roles.range_subclass, func, Scope::Base);
        if ranges.len() > 0 && subs.len() > 0 {
            match self.syntactic.sym_name(func) {
                None => {},
                Some(sym) => {
                    let e = SemanticError::DoubleRange(DoubleRange { sym: sym.name().to_owned() });
                    push_event(out, Event::Diagnostic(e));
                    assert(event_views(out@) =~= start + double_range(self@, func));
                },
            }
        }
    }

    fn react_addition(&self, facet: Facet, sid: SentenceId, out: &mut Vec<Event>) -> (all: bool)
        requires
            self.wf(),
        ensures
            event_views(final(out)@) == event_views(old(out)@) + addition_effect(self@, facet, sid).out,
            all == addition_effect(self@, facet, sid).all,
    {
        let ghost start = event_views(out@);
        assert(start =~= start + Seq::<EventView>::empty());
        let sentence = match self.syntactic.sentence(sid) {
            None => return false,
            Some(s) => s,
        };
        let head = match sentence.head_symbol() {
            None => return false,
            Some(h) => h,
        };
        match facet {
            Facet::Domain => match self.try_extract_domain_from(head, sid, sentence) {
                Ok((rel, _, _)) => {
                    push_changed(out, rel);
                    assert(event_views(out@) =~= start + seq![changed(rel)]);
                    true
                },
                Err(e) => {
                    let ghost ev = EventView::Diagnostic(e@);
                    push_event(out, Event::Diagnostic(e));
                    assert(event_views(out@) =~= start + seq![ev]);
                    false
                },
            },
            Facet::Range => match self.try_extract_range_from(head, sid, sentence) {
                Ok((rel, _)) => {
                    self.report_double_range(rel, out);
                    push_changed(out, rel);
                    assert(event_views(out@) =~= start + double_range(self@, rel).push(changed(rel)));
                    true
                },
                Err(e) => {
                    let ghost ev = EventView::Diagnostic(e@);
                    push_event(out, Event::Diagnostic(e));
                    assert(event_views(out@) =~= start + seq![ev]);
                    false
                },
            },
        }
    }

    fn react_removal(&self, facet: Facet, head: SymbolId, sid: SentenceId, sentence: &Sentence) -> (r: Option<SymbolId>)
        requires
            self.wf(),
        ensures
            removal_effect(self@, facet, head, sid, sentence@) == change_effect(r),
    {
        match facet {
            Facet::Domain => match self.try_extract_domain_from(head, sid, sentence) {
                Ok((rel, _, _)) => Some(rel),
                Err(_) => None,
            },
            Facet::Range => match self.try_extract_range_from(head, sid, sentence) {
                Ok((rel, _)) => Some(rel),
                Err(_) => None,
            },
        }
    }

    /// Takes in one event: reports what changed, and says whether all is to be
    /// forgotten or only what one scope sees.
    fn react_signature(&self, facet: Facet, event: &Event, out: &mut Vec<Event>) -> (r: (bool, Option<Scope>))
        requires
            self.wf(),
        ensures
            event_views(final(out)@) == event_views(old(out)@) + effect(self@, facet, event@).out,
            r.0 == effect(self@, facet, event@).all,
            r.1 == effect(self@, facet, event@).scope,
    {
        let ghost start = event_views(out@);
        assert(start =~= start + Seq::<EventView>::empty());
        match event {
            Event::AxiomsPromoted { sids } => {
                let any = self.report_touched(facet, sids, out);
                (any, None)
            },
            Event::SessionReferenced { session, sids } => {
                let any = self.report_touched(facet, sids, out);
                if any {
                    (false, Some(Scope::Session(session_id(session.as_str()))))
                } else {
                    (false, None)
                }
            },
            Event::SessionRetracted { session } => (false, Some(Scope::Session(session_id(session.as_str())))),
            Event::RelationAdded { sid, head_id } => {
                if is_declaration(&self.roles, facet, *head_id) {
                    let all = self.react_addition(facet, *sid, out);
                    return (all, None);
                }
                match self.subrelation_child(*sid) {
                    None => (false, None),
                    Some(child) => {
                        push_changed(out, child);
                        assert(event_views(out@) =~= start + seq![changed(child)]);
                        (true, None)
                    },
                }
            },
            Event::RelationRemoved { sid, sentence } => {
                let head = match sentence.head_symbol() {
                    None => return (false, None),
                    Some(h) => h,
                };
                let rel = if is_declaration(&self.roles, facet, head) {
                    self.react_removal(facet, head, *sid, sentence)
                } else {
                    self.subrelation_child_of(*sid, sentence)
                };
                match rel {
                    None => (false, None),
                    Some(r) => {
                        push_changed(out, r);
                        assert(event_views(out@) =~= start + seq![changed(r)]);
                        (true, None)
                    },
                }
            },
            _ => (false, None),
        }
    }

    /// Takes in the events: forgets what no longer holds and reports what
    /// changed.
    fn react_memo<V>(&self, facet: Facet, events: &Vec<Event>, memo: &mut ScopedMemo<V>) -> (out: Vec<Event>)
        requires
            self.wf(),
            old(memo).wf(),
        ensures
            final(memo).wf(),
            final(memo)@ == survivors(old(memo)@, effects(self@, facet, event_views(events@))),
            event_views(out@) == effects(self@, facet, event_views(events@)).out,
    {
        let ghost start = memo@;
        let ghost evs = event_views(events@);
        let mut out: Vec<Event> = Vec::new();
        let mut dirty = false;
        let mut i: usize = 0;
        assert(evs.take(0) =~= Seq::empty());
        assert(event_views(out@) =~= Seq::empty());
        assert(memo@ =~= start.restrict(Set::new(|k: MemoKey| !Set::<Scope>::empty().contains(k.0))));
        while i < events.len()
            invariant
                self.wf(),
                memo.wf(),
                evs == event_views(events@),
                i <= events@.len(),
                event_views(out@) == effects(self@, facet, evs.take(i as int)).out,
                dirty == effects(self@, facet, evs.take(i as int)).all,
                memo@ == start.restrict(
                    Set::new(|k: MemoKey| !effects(self@, facet, evs.take(i as int)).scopes.contains(k.0)),
                ),
            decreases events@.len() - i,
        {
            assert(evs.take(i + 1).drop_last() =~= evs.take(i as int));
            assert(evs.take(i + 1).last() == events@[i as int]@);
            let (all, scope) = self.react_signature(facet, &events[i], &mut out);
            if all {
                dirty = true;
            }
            match scope {
                None => {},
                Some(s) => {
                    memo.drop_scope(s);
                },
            }
            assert(memo@ =~= start.restrict(
                Set::new(|k: MemoKey| !effects(self@, facet, evs.take(i + 1)).scopes.contains(k.0)),
            ));
            i += 1;
        }
        assert(evs.take(i as int) =~= evs);
        if dirty {
            memo.clear();
        }
        assert(memo@ =~= survivors(start, effects(self@, facet, evs)));
        out
    }
}

/// What the places of relations take, remembered.
pub struct DomainCache {
    pub memo: ScopedMemo<Vec<RelationDomain>>,
}

/// What functions give, remembered.
pub struct RangeCache {
    pub memo: ScopedMemo<RelationRange>,
}

/// Every remembered list is what the layer gives.
pub open spec fn domains_true(m: Map<MemoKey, Vec<RelationDomain>>, f: Facts) -> bool {
    forall|k: MemoKey| #[trigger] m.dom().contains(k) ==> m[k]@ == domain_of(f, k.0, k.1)
}

/// Every remembered range is what the layer gives.
pub open spec fn ranges_true(m: Map<MemoKey, RelationRange>, f: Facts) -> bool {
    forall|k: MemoKey| #[trigger] m.dom().contains(k) ==> m[k] == range_of(f, k.0, k.1)
}

impl DomainCache {
    /// Nothing remembered.
    pub fn new() -> (c: DomainCache)
        ensures
            c.memo.wf(),
            c.memo@ == Map::<MemoKey, Vec<RelationDomain>>::empty(),
    {
        DomainCache { memo: ScopedMemo::new() }
    }

    /// What the places of the relation take, as remembered, else as computed
    /// and then remembered.
    pub fn get(&mut self, layer: &SemanticLayer, rel: SymbolId, scope: Scope) -> (r: Vec<RelationDomain>)
        requires
            old(self).memo.wf(),
            layer.wf(),
        ensures
            final(self).memo.wf(),
            final(self).memo@.dom() == old(self).memo@.dom().insert((scope, rel)),
            forall|k: MemoKey| #[trigger]
                old(self).memo@.dom().contains(k) ==> final(self).memo@[k] == old(self).memo@[k],
            final(self).memo@[(scope, rel)]@ == r@,
            !old(self).memo@.dom().contains((scope, rel)) ==> r@ == domain_of(layer@, scope, rel),
            domains_true(old(self).memo@, layer@) ==> domains_true(final(self).memo@, layer@) && r@ == domain_of(
                layer@,
                scope,
                rel,
            ),
    {
        match self.memo.peek(scope, rel) {
            Some(v) => {
                let out = v.clone();
                assert(out@ =~= v@);
                assert(self.memo@.dom() =~= self.memo@.dom().insert((scope, rel)));
                return out;
            },
            None => {},
        }
        let v = layer.domain_scoped(rel, scope);
        let out = v.clone();
        assert(out@ =~= v@);
        self.memo.put(scope, rel, v);
        assert(self.memo@.dom() =~= old(self).memo@.dom().insert((scope, rel)));
        out
    }

    /// Takes in the events: forgets what no longer holds and reports what
    /// changed.
    pub fn react(&mut self, layer: &SemanticLayer, events: &Vec<Event>) -> (out: Vec<Event>)
        requires
            old(self).memo.wf(),
            layer.wf(),
        ensures
            final(self).memo.wf(),
            final(self).memo@ == survivors(
                old(self).memo@,
                effects(layer@, Facet::Domain, event_views(events@)),
            ),
            event_views(out@) == effects(layer@, Facet::Domain, event_views(events@)).out,
    {
        layer.react_memo(Facet::Domain, events, &mut self.memo)
    }
}

impl RangeCache {
    /// Nothing remembered.
    pub fn new() -> (c: RangeCache)
        ensures
            c.memo.wf(),
            c.memo@ == Map::<MemoKey, RelationRange>::empty(),
    {
        RangeCache { memo: ScopedMemo::new() }
    }

    /// What the function gives, as remembered, else as computed and then
    /// remembered.
    pub fn get(&mut self, layer: &SemanticLayer, rel: SymbolId, scope: Scope) -> (r: RelationRange)
        requires
            old(self).memo.wf(),
            layer.wf(),
        ensures
            final(self).memo.wf(),
            r == (if old(self).memo@.dom().contains((scope, rel)) {
                old(self).memo@[(scope, rel)]
            } else {
                range_of(layer@, scope, rel)
            }),
            final(self).memo@ == old(self).memo@.insert((scope, rel), r),
            ranges_true(old(self).memo@, layer@) ==> ranges_true(final(self).memo@, layer@) && r == range_of(
                layer@,
                scope,
                rel,
            ),
    {
        match self.memo.peek(scope, rel) {
            Some(v) => {
                assert(self.memo@ =~= self.memo@.insert((scope, rel), *v));
                return *v;
            },
            None => {},
        }
        let v = layer.range_scoped(rel, scope);
        self.memo.put(scope, rel, v);
        v
    }

    /// Takes in the events: forgets what no longer holds and reports what
    /// changed.
    pub fn react(&mut self, layer: &SemanticLayer, events: &Vec<Event>) -> (out: Vec<Event>)
        requires
            old(self).memo.wf(),
            layer.wf(),
        ensures
            final(self).memo.wf(),
            final(self).memo@ == survivors(
                old(self).memo@,
                effects(layer@, Facet::Range, event_views(events@)),
            ),
            event_views(out@) == effects(layer@, Facet::Range, event_views(events@)).out,
    {
        layer.react_memo(Facet::Range, events, &mut self.memo)
    }
}

} // verus!
