//! What validation found, remembered, and what is to be validated again.
use vstd::prelude::*;

use crate::events::{event_views, Event, EventView, SemanticError};
use crate::inferred_laws::lemma_picked;
use crate::memo::{outside, MemoKey, ScopedMemo};
use crate::semantic::{Facts, SemanticLayer};
use crate::store::{picked, session_id, RootView, Scope, SessionId, SyntacticLayer};
use crate::types::SentenceId;

verus! {

/// A sentence to validate, and in whose eyes.
pub type Task = (Scope, SentenceId);

/// The event leaves every verdict untrue.
pub open spec fn unsettles(e: EventView) -> bool {
    e is RootAdded || e is RootRemoved || e is TaxonomyChanged || e is DomainRangeChanged
}

/// Some event leaves every verdict untrue.
pub open spec fn unsettled(es: Seq<EventView>) -> bool {
    exists|i: int| 0 <= i < es.len() && unsettles(#[trigger] es[i])
}

/// The task is not one of the scope.
pub open spec fn off_scope(scope: Scope) -> spec_fn(Task) -> bool {
    |t: Task| t.0 != scope
}

/// The tasks outside the scope.
pub open spec fn tasks_outside(ts: Seq<Task>, scope: Scope) -> Seq<Task> {
    ts.filter(off_scope(scope))
}

/// The sentences as tasks in the scope.
pub open spec fn tasks_for(scope: Scope, sids: Seq<SentenceId>) -> Seq<Task> {
    Seq::new(sids.len(), |i: int| (scope, sids[i]))
}

/// The roots that the session holds.
pub open spec fn held_by(session: SessionId) -> spec_fn(RootView) -> bool {
    |r: RootView| r.sessions.contains(session)
}

/// What is remembered and what is to be validated after one event: a session
/// that changed loses its verdicts and its tasks, a request adds tasks.
pub open spec fn verdict_step<V>(f: Facts, m: Map<MemoKey, V>, ts: Seq<Task>, e: EventView) -> (
    Map<MemoKey, V>,
    Seq<Task>,
) {
    match e {
        EventView::SessionReferenced { session, sids } => (
            outside(m, Scope::Session(session)),
            tasks_outside(ts, Scope::Session(session)),
        ),
        EventView::SessionRetracted { session } => (
            outside(m, Scope::Session(session)),
            tasks_outside(ts, Scope::Session(session)),
        ),
        EventView::ValidateSentence { sid } => (m, ts + tasks_for(Scope::Base, seq![sid])),
        EventView::ValidateKB => (
            m,
            ts + tasks_for(Scope::Base, Seq::new(f.layer.roots.len(), |i: int| f.layer.roots[i].sid)),
        ),
        EventView::ValidateSession { session } => (
            m,
            ts + tasks_for(Scope::Session(session), picked(f.layer.roots, held_by(session))),
        ),
        _ => (m, ts),
    }
}

/// What is remembered and what is to be validated after the events.
pub open spec fn verdict_steps<V>(f: Facts, m: Map<MemoKey, V>, es: Seq<EventView>) -> (Map<MemoKey, V>, Seq<Task>)
    decreases es.len(),
{
    if es.len() == 0 {
        (m, Seq::empty())
    } else {
        let p = verdict_steps(f, m, es.drop_last());
        verdict_step(f, p.0, p.1, es.last())
    }
}

/// What validation found.
pub struct Verdicts {
    pub memo: ScopedMemo<Vec<SemanticError>>,
}

impl SyntacticLayer {
    /// The roots that the session holds.
    pub fn session_sentences(&self, session: SessionId) -> (r: Vec<SentenceId>)
        requires
            self.wf(),
        ensures
            r@ == picked(self@.roots, held_by(session)),
    {
        let sids = self.root_sids();
        let ghost roots = self@.roots;
        let mut out: Vec<SentenceId> = Vec::new();
        let mut i: usize = 0;
        assert(roots.take(0) =~= Seq::empty());
        proof {
            self.lemma_ordered();
        }
        while i < sids.len()
            invariant
                self.wf(),
                roots == self@.roots,
                crate::store::roots_distinct(roots),
                sids@ == Seq::new(roots.len(), |k: int| roots[k].sid),
                i <= sids@.len(),
                out@ == picked(roots.take(i as int), held_by(session)),
            decreases sids@.len() - i,
        {
            assert(roots.take(i + 1).drop_last() =~= roots.take(i as int));
            proof {
                assert(crate::store::root_is(roots, sids@[i as int], i as int));
                crate::store::lemma_root_place(roots, sids@[i as int], i as int);
            }
            let sessions = self.sessions_of(sids[i]);
            let holds = crate::store::holds_id(&sessions, session);
            assert(holds == sessions@.to_set().contains(session));
            if holds {
                out.push(sids[i]);
            }
            i += 1;
        }
        assert(roots.take(i as int) =~= roots);
        out
    }
}

fn drop_tasks(tasks: &mut Vec<Task>, scope: Scope)
    ensures
        final(tasks)@ == tasks_outside(old(tasks)@, scope),
{
    let ghost all = tasks@;
    let ghost p = off_scope(scope);
    let mut out: Vec<Task> = Vec::new();
    let mut i: usize = 0;
    assert(all.take(0).filter(p) =~= Seq::empty()) by {
        reveal(Seq::filter);
    }
    while i < tasks.len()
        invariant
            all == tasks@,
            p == off_scope(scope),
            i <= tasks@.len(),
            out@ == all.take(i as int).filter(p),
        decreases tasks@.len() - i,
    {
        let t = tasks[i];
        assert(all.take(i + 1).drop_last() =~= all.take(i as int));
        assert(all.take(i + 1).filter(p) == (if p(t) {
            all.take(i as int).filter(p).push(t)
        } else {
            all.take(i as int).filter(p)
        })) by {
            reveal(Seq::filter);
        }
        if t.0 != scope {
            out.push(t);
        }
        i += 1;
    }
    assert(all.take(i as int) =~= all);
    *tasks = out;
}

fn add_tasks(tasks: &mut Vec<Task>, scope: Scope, sids: &Vec<SentenceId>)
    ensures
        final(tasks)@ == old(tasks)@ + tasks_for(scope, sids@),
{
    let ghost start = tasks@;
    let mut i: usize = 0;
    assert(start =~= start + tasks_for(scope, sids@.take(0)));
    while i < sids.len()
        invariant
            i <= sids@.len(),
            tasks@ == start + tasks_for(scope, sids@.take(i as int)),
        decreases sids@.len() - i,
    {
        tasks.push((scope, sids[i]));
        assert(tasks@ =~= start + tasks_for(scope, sids@.take(i + 1)));
        i += 1;
    }
    assert(sids@.take(i as int) =~= sids@);
}

fn any_unsettling(events: &Vec<Event>) -> (r: bool)
    ensures
        r == unsettled(event_views(events@)),
{
    let ghost evs = event_views(events@);
    let mut i: usize = 0;
    while i < events.len()
        invariant
            evs == event_views(events@),
            i <= events@.len(),
            forall|j: int| 0 <= j < i ==> !unsettles(#[trigger] evs[j]),
        decreases events@.len() - i,
    {
        assert(evs[i as int] == events@[i as int]@);
        let hit = match &events[i] {
            Event::RootAdded { .. } => true,
            Event::RootRemoved { .. } => true,
            Event::TaxonomyChanged { .. } => true,
            Event::DomainRangeChanged { .. } => true,
            _ => false,
        };
        if hit {
            assert(unsettles(evs[i as int]));
            return true;
        }
        i += 1;
    }
    false
}

impl Verdicts {
    /// Nothing remembered.
    pub fn new() -> (c: Verdicts)
        ensures
            c.memo.wf(),
            c.memo@ == Map::<MemoKey, Vec<SemanticError>>::empty(),
    {
        Verdicts { memo: ScopedMemo::new() }
    }

    /// Whether the sentence has a verdict in the scope.
    pub fn known(&self, sid: SentenceId, scope: Scope) -> (r: bool)
        ensures
            r == self.memo@.dom().contains((scope, sid)),
    {
        self.memo.peek(scope, sid).is_some()
    }

    /// Remembers what validation found about the sentence.
    pub fn record(&mut self, task: Task, errors: Vec<SemanticError>)
        requires
            old(self).memo.wf(),
        ensures
            final(self).memo.wf(),
            final(self).memo@ == old(self).memo@.insert(task, errors),
    {
        self.memo.put(task.0, task.1, errors);
    }

    /// Takes in the events: forgets the verdicts that no longer hold, all of
    /// them before any request of the same batch, and gives the sentences to
    /// validate.
    pub fn react(&mut self, layer: &SemanticLayer, events: &Vec<Event>) -> (tasks: Vec<Task>)
        requires
            old(self).memo.wf(),
            layer.wf(),
        ensures
            final(self).memo.wf(),
            (final(self).memo@, tasks@) == verdict_steps(
                layer@,
                if unsettled(event_views(events@)) {
                    Map::empty()
                } else {
                    old(self).memo@
                },
                event_views(events@),
            ),
    {
        let ghost evs = event_views(events@);
        if any_unsettling(events) {
            self.memo.clear();
        }
        let ghost start = self.memo@;
        let mut tasks: Vec<Task> = Vec::new();
        let mut i: usize = 0;
        assert(evs.take(0) =~= Seq::empty());
        while i < events.len()
            invariant
                self.memo.wf(),
                layer.wf(),
                evs == event_views(events@),
                i <= events@.len(),
                (self.memo@, tasks@) == verdict_steps(layer@, start, evs.take(i as int)),
            decreases events@.len() - i,
        {
            assert(evs.take(i + 1).drop_last() =~= evs.take(i as int));
            assert(evs.take(i + 1).last() == events@[i as int]@);
            match &events[i] {
                Event::SessionReferenced { session, .. } => {
                    let scope = Scope::Session(session_id(session.as_str()));
                    self.memo.drop_scope(scope);
                    drop_tasks(&mut tasks, scope);
                },
                Event::SessionRetracted { session } => {
                    let scope = Scope::Session(session_id(session.as_str()));
                    self.memo.drop_scope(scope);
                    drop_tasks(&mut tasks, scope);
                },
                Event::ValidateSentence { sid } => {
                    let mut one: Vec<SentenceId> = Vec::new();
                    one.push(*sid);
                    assert(one@ =~= seq![*sid]);
                    add_tasks(&mut tasks, Scope::Base, &one);
                },
                Event::ValidateKB => {
                    let roots = layer.syntactic.root_sids();
                    add_tasks(&mut tasks, Scope::Base, &roots);
                },
                Event::ValidateSession { session } => {
                    let id = session_id(session.as_str());
                    let roots = layer.syntactic.session_sentences(id);
                    add_tasks(&mut tasks, Scope::Session(id), &roots);
                },
                _ => {},
            }
            i += 1;
        }
        assert(evs.take(i as int) =~= evs);
        tasks
    }
}

/// The event asks for the task.
pub open spec fn asks(f: Facts, e: EventView, t: Task) -> bool {
    match e {
        EventView::ValidateSentence { sid } => t == (Scope::Base, sid),
        EventView::ValidateKB => t.0 == Scope::Base && exists|k: int|
            0 <= k < f.layer.roots.len() && (#[trigger] f.layer.roots[k]).sid == t.1,
        EventView::ValidateSession { session } => t.0 == Scope::Session(session) && exists|k: int|
            0 <= k < f.layer.roots.len() && (#[trigger] f.layer.roots[k]).sid == t.1
                && f.layer.roots[k].sessions.contains(session),
        _ => false,
    }
}

/// The event changes what the scope sees of its own.
pub open spec fn changes_scope(e: EventView, scope: Scope) -> bool {
    ||| e matches EventView::SessionReferenced { session, .. } && scope == Scope::Session(session)
    ||| e matches EventView::SessionRetracted { session } && scope == Scope::Session(session)
}

/// The event at the place asks for the task, and the scope does not change after it.
pub open spec fn asked_at(f: Facts, es: Seq<EventView>, i: int, t: Task) -> bool {
    &&& 0 <= i < es.len()
    &&& asks(f, es[i], t)
    &&& forall|j: int| i < j < es.len() ==> !changes_scope(#[trigger] es[j], t.0)
}

proof fn lemma_added(s: Seq<Task>, scope: Scope, sids: Seq<SentenceId>, t: Task)
    ensures
        (s + tasks_for(scope, sids)).contains(t) <==> s.contains(t) || (t.0 == scope && sids.contains(t.1)),
{
    let a = tasks_for(scope, sids);
    let b = s + a;
    if b.contains(t) {
        let k = choose|k: int| 0 <= k < b.len() && b[k] == t;
        if k < s.len() {
            assert(s[k] == t);
        } else {
            assert(sids[k - s.len()] == t.1);
        }
    }
    if s.contains(t) {
        let k = choose|k: int| 0 <= k < s.len() && s[k] == t;
        assert(b[k] == t);
    }
    if t.0 == scope && sids.contains(t.1) {
        let k = choose|k: int| 0 <= k < sids.len() && sids[k] == t.1;
        assert(b[s.len() + k] == t);
    }
}

proof fn lemma_one_event<V>(f: Facts, m: Map<MemoKey, V>, ts: Seq<Task>, e: EventView, t: Task)
    ensures
        verdict_step(f, m, ts, e).1.contains(t) <==> asks(f, e, t) || (ts.contains(t) && !changes_scope(e, t.0)),
{
    match e {
        EventView::SessionReferenced { session, .. } | EventView::SessionRetracted { session } => {
            let p = off_scope(Scope::Session(session));
            if ts.contains(t) && p(t) {
                let k = choose|k: int| 0 <= k < ts.len() && ts[k] == t;
                ts.lemma_filter_contains(p, k);
            }
            if ts.filter(p).contains(t) {
                ts.lemma_filter_contains_rev(p, t);
                let k = choose|k: int| 0 <= k < ts.filter(p).len() && ts.filter(p)[k] == t;
                ts.lemma_filter_pred(p, k);
            }
        },
        EventView::ValidateSentence { sid } => {
            lemma_added(ts, Scope::Base, seq![sid], t);
            assert(seq![sid].contains(t.1) <==> t.1 == sid) by {
                assert(seq![sid][0] == sid);
            }
        },
        EventView::ValidateKB => {
            let all = Seq::new(f.layer.roots.len(), |i: int| f.layer.roots[i].sid);
            lemma_added(ts, Scope::Base, all, t);
            if asks(f, e, t) {
                let k = choose|k: int| 0 <= k < f.layer.roots.len() && (#[trigger] f.layer.roots[k]).sid == t.1;
                assert(all[k] == t.1);
            }
            if all.contains(t.1) {
                let k = choose|k: int| 0 <= k < all.len() && all[k] == t.1;
                assert(f.layer.roots[k].sid == t.1);
            }
        },
        EventView::ValidateSession { session } => {
            lemma_added(ts, Scope::Session(session), picked(f.layer.roots, held_by(session)), t);
            lemma_picked(f.layer.roots, held_by(session), t.1);
        },
        _ => {},
    }
}

/// Validated again is exactly what some event of the batch asks for, unless a later one
/// changes the session in whose eyes it was asked.
pub proof fn law_what_is_validated_again<V>(f: Facts, m: Map<MemoKey, V>, es: Seq<EventView>, t: Task)
    ensures
        verdict_steps(f, m, es).1.contains(t) <==> exists|i: int| asked_at(f, es, i, t),
    decreases es.len(),
{
    if es.len() > 0 {
        let rest = es.drop_last();
        let n = es.len() - 1;
        let p = verdict_steps(f, m, rest);
        law_what_is_validated_again(f, m, rest, t);
        lemma_one_event(f, p.0, p.1, es.last(), t);
        if exists|i: int| asked_at(f, es, i, t) {
            let i = choose|i: int| asked_at(f, es, i, t);
            if i < n {
                assert(!changes_scope(es[n], t.0));
                assert forall|j: int| i < j < rest.len() implies !changes_scope(#[trigger] rest[j], t.0) by {
                    assert(rest[j] == es[j]);
                }
                assert(asked_at(f, rest, i, t));
            }
        }
        if asks(f, es[n], t) {
            assert(asked_at(f, es, n, t));
        } else if p.1.contains(t) && !changes_scope(es[n], t.0) {
            let i = choose|i: int| asked_at(f, rest, i, t);
            assert forall|j: int| i < j < es.len() implies !changes_scope(#[trigger] es[j], t.0) by {
                if j < n {
                    assert(rest[j] == es[j]);
                }
            }
            assert(asked_at(f, es, i, t));
        }
    }
}

/// A verdict stays, as it was, exactly until its session changes.
pub proof fn law_which_verdicts_stay<V>(f: Facts, m: Map<MemoKey, V>, es: Seq<EventView>, k: MemoKey)
    ensures
        verdict_steps(f, m, es).0.dom().contains(k) <==> m.dom().contains(k) && forall|j: int|
            0 <= j < es.len() ==> !changes_scope(#[trigger] es[j], k.0),
        verdict_steps(f, m, es).0.dom().contains(k) ==> verdict_steps(f, m, es).0[k] == m[k],
    decreases es.len(),
{
    if es.len() > 0 {
        let rest = es.drop_last();
        let n = es.len() - 1;
        law_which_verdicts_stay(f, m, rest, k);
        assert(es[n] == es.last());
        if forall|j: int| 0 <= j < es.len() ==> !changes_scope(#[trigger] es[j], k.0) {
            assert forall|j: int| 0 <= j < rest.len() implies !changes_scope(#[trigger] rest[j], k.0) by {
                assert(rest[j] == es[j]);
            }
        }
        if verdict_steps(f, m, es).0.dom().contains(k) {
            assert forall|j: int| 0 <= j < es.len() implies !changes_scope(#[trigger] es[j], k.0) by {
                if j < n {
                    assert(rest[j] == es[j]);
                }
            }
        }
    }
}

/// No verdict outlives a change of what is stated, of the taxonomy or of the signatures.
pub proof fn law_changes_leave_no_verdict(es: Seq<EventView>, i: int)
    requires
        0 <= i < es.len(),
    ensures
        es[i] is RootAdded ==> unsettled(es),
        es[i] is RootRemoved ==> unsettled(es),
        es[i] is TaxonomyChanged ==> unsettled(es),
        es[i] is DomainRangeChanged ==> unsettled(es),
        unsettled(es) ==> exists|j: int|
            0 <= j < es.len() && !(#[trigger] es[j] is SessionReferenced || es[j] is SessionRetracted || es[j] is ValidateKB
                || es[j] is ValidateSentence || es[j] is ValidateSession),
{
    if unsettles(es[i]) {
        assert(unsettled(es));
    }
    if unsettled(es) {
        let j = choose|j: int| 0 <= j < es.len() && unsettles(#[trigger] es[j]);
        assert(!(es[j] is SessionReferenced || es[j] is SessionRetracted || es[j] is ValidateKB
            || es[j] is ValidateSentence || es[j] is ValidateSession));
    }
}

} // verus!
