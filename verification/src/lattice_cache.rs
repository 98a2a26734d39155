//! Relations below relations and what their facts connect, remembered.
use vstd::prelude::*;

use crate::events::{event_views, Event};
use crate::lattice::{lattice_stale, reach_stale, subrel_lattice_dirty, trans_reach_dirty, FactGraph, SubrelGraph};
use crate::memo::{MemoKey, ScopedMemo};
use crate::semantic::SemanticLayer;
use crate::store::Scope;
use crate::types::SymbolId;
use crate::walk::Walk;

verus! {

/// The relations below others, remembered.
pub struct LatticeCache {
    pub memo: ScopedMemo<Walk>,
}

/// Every remembered walk is one over the relations as they are.
pub open spec fn lattice_true(m: Map<MemoKey, Walk>, layer: &SemanticLayer) -> bool {
    forall|k: MemoKey| #[trigger]
        m.dom().contains(k) ==> m[k].covers(&(SubrelGraph { layer, scope: k.0 }), k.1)
}

impl LatticeCache {
    /// Nothing remembered.
    pub fn new() -> (c: LatticeCache)
        ensures
            c.memo.wf(),
            c.memo@ == Map::<MemoKey, Walk>::empty(),
    {
        LatticeCache { memo: ScopedMemo::new() }
    }

    /// The relation and all relations below it, as remembered, else as
    /// computed and then remembered.
    pub fn get<'a>(&'a mut self, layer: &SemanticLayer, rel: SymbolId, scope: Scope) -> (w: &'a Walk)
        requires
            old(self).memo.wf(),
            layer.wf(),
        ensures
            final(self).memo.wf(),
            final(self).memo@ == old(self).memo@.insert((scope, rel), *w),
            old(self).memo@.dom().contains((scope, rel)) ==> *w == old(self).memo@[(scope, rel)],
            !old(self).memo@.dom().contains((scope, rel)) ==> w.covers(&(SubrelGraph { layer, scope }), rel),
            lattice_true(old(self).memo@, layer) ==> lattice_true(final(self).memo@, layer) && w.covers(
                &(SubrelGraph { layer, scope }),
                rel,
            ),
    {
        let ghost before = self.memo@;
        let known: bool = self.memo.peek(scope, rel).is_some();
        if !known {
            let w: Walk = layer.subrel_below(rel, scope);
            self.memo.put(scope, rel, w);
        } else {
            assert(before =~= before.insert((scope, rel), before[(scope, rel)]));
        }
        self.memo.peek(scope, rel).unwrap()
    }

    /// Takes in the events: forgets everything if they leave any of it untrue.
    pub fn react(&mut self, layer: &SemanticLayer, events: &Vec<Event>)
        requires
            old(self).memo.wf(),
            layer.wf(),
        ensures
            final(self).memo.wf(),
            final(self).memo@ == if lattice_stale(layer@.layer, event_views(events@)) {
                Map::empty()
            } else {
                old(self).memo@
            },
    {
        if subrel_lattice_dirty(layer, events) {
            self.memo.clear();
        }
    }
}

/// What the facts of a relation lead to from a start, with the relations whose
/// facts were followed.
pub struct Reach {
    pub scope: Scope,
    pub rel: SymbolId,
    pub start: SymbolId,
    pub below: Walk,
    pub reach: Walk,
}

/// The entry answers the question.
pub open spec fn reach_asked(e: Reach, scope: Scope, rel: SymbolId, start: SymbolId) -> bool {
    e.scope == scope && e.rel == rel && e.start == start
}

/// Some entry answers the question.
pub open spec fn reach_known(s: Seq<Reach>, scope: Scope, rel: SymbolId, start: SymbolId) -> bool {
    exists|i: int| 0 <= i < s.len() && reach_asked(#[trigger] s[i], scope, rel, start)
}

/// The entry is what the facts say.
pub open spec fn reach_fits(e: Reach, layer: &SemanticLayer) -> bool {
    &&& e.below.covers(&(SubrelGraph { layer, scope: e.scope }), e.rel)
    &&& e.reach.covers_beyond(&(FactGraph { layer, scope: e.scope, rels: &e.below }), e.start)
}

/// Every entry is what the facts say.
pub open spec fn reach_true(s: Seq<Reach>, layer: &SemanticLayer) -> bool {
    forall|i: int| 0 <= i < s.len() ==> reach_fits(#[trigger] s[i], layer)
}

/// What facts lead to, remembered.
pub struct ReachCache {
    pub known: Vec<Reach>,
}

impl ReachCache {
    /// Nothing remembered.
    pub fn new() -> (c: ReachCache)
        ensures
            c.known@ == Seq::<Reach>::empty(),
    {
        ReachCache { known: Vec::new() }
    }

    /// The place of the oldest entry that answers the question; the number of
    /// entries if none does.
    fn find(&self, rel: SymbolId, start: SymbolId, scope: Scope) -> (i: usize)
        ensures
            i <= self.known@.len(),
            i < self.known@.len() ==> reach_asked(self.known@[i as int], scope, rel, start),
            i == self.known@.len() ==> !reach_known(self.known@, scope, rel, start),
    {
        let mut i: usize = 0;
        while i < self.known.len()
            invariant
                i <= self.known@.len(),
                forall|k: int| 0 <= k < i ==> !reach_asked(#[trigger] self.known@[k], scope, rel, start),
            decreases self.known@.len() - i,
        {
            let e: &Reach = &self.known[i];
            if e.scope == scope && e.rel == rel && e.start == start {
                return i;
            }
            i += 1;
        }
        i
    }

    /// All that the facts of the relation lead to from the start, as
    /// remembered, else as computed and then remembered.
    pub fn get<'a>(&'a mut self, layer: &SemanticLayer, rel: SymbolId, start: SymbolId, scope: Scope) -> (e: &'a Reach)
        requires
            layer.wf(),
        ensures
            reach_asked(*e, scope, rel, start),
            reach_known(old(self).known@, scope, rel, start) ==> final(self).known@ == old(self).known@
                && old(self).known@.contains(*e),
            !reach_known(old(self).known@, scope, rel, start) ==> final(self).known@ == old(self).known@.push(*e)
                && reach_fits(*e, layer),
            reach_true(old(self).known@, layer) ==> reach_true(final(self).known@, layer) && reach_fits(*e, layer),
    {
        let i: usize = self.find(rel, start, scope);
        if i == self.known.len() {
            let (below, reach) = layer.trans_reach(rel, start, scope);
            let e: Reach = Reach { scope, rel, start, below, reach };
            self.known.push(e);
        } else {
            assert(reach_asked(self.known@[i as int], scope, rel, start));
        }
        &self.known[i]
    }

    /// Takes in the events: forgets everything if they leave any of it untrue.
    pub fn react(&mut self, layer: &SemanticLayer, events: &Vec<Event>)
        requires
            layer.wf(),
        ensures
            final(self).known@ == if reach_stale(layer@.layer, event_views(events@)) {
                Seq::empty()
            } else {
                old(self).known@
            },
    {
        if trans_reach_dirty(layer, events) {
            self.known = Vec::new();
        }
    }
}

} // verus!
