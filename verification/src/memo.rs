//! A store of computed values, by scope and symbol.
use std::collections::HashMap;

use vstd::prelude::*;

use crate::store::{holds_id, Scope, SessionId};
use crate::types::SymbolId;

verus! {

broadcast use vstd::std_specs::hash::group_hash_axioms;

/// Where a value is stored.
pub type MemoKey = (Scope, SymbolId);

/// Values by scope and symbol.
pub struct ScopedMemo<V> {
    base: HashMap<SymbolId, V>,
    sessions: HashMap<SessionId, HashMap<SymbolId, V>>,
    known: Vec<SessionId>,
}

impl<V> ScopedMemo<V> {
    spec fn has(&self, k: MemoKey) -> bool {
        match k.0 {
            Scope::Base => self.base@.dom().contains(k.1),
            Scope::Session(s) => self.sessions@.dom().contains(s) && self.sessions@[s]@.dom().contains(k.1),
        }
    }

    spec fn at(&self, k: MemoKey) -> V {
        match k.0 {
            Scope::Base => self.base@[k.1],
            Scope::Session(s) => self.sessions@[s]@[k.1],
        }
    }
}

impl<V> View for ScopedMemo<V> {
    type V = Map<MemoKey, V>;

    closed spec fn view(&self) -> Map<MemoKey, V> {
        Map::new(|k: MemoKey| self.has(k), |k: MemoKey| self.at(k))
    }
}

/// The keys outside the scope.
pub open spec fn outside<V>(m: Map<MemoKey, V>, scope: Scope) -> Map<MemoKey, V> {
    m.restrict(Set::new(|k: MemoKey| k.0 != scope))
}

/// The keys with other symbols.
pub open spec fn apart_from<V>(m: Map<MemoKey, V>, syms: Seq<SymbolId>) -> Map<MemoKey, V> {
    m.restrict(Set::new(|k: MemoKey| !syms.contains(k.1)))
}

impl<V> ScopedMemo<V> {
    /// Every session with values is known.
    pub closed spec fn wf(&self) -> bool {
        forall|s: SessionId| #[trigger] self.sessions@.dom().contains(s) ==> self.known@.contains(s)
    }

    /// No values.
    pub fn new() -> (m: ScopedMemo<V>)
        ensures
            m.wf(),
            m@ == Map::<MemoKey, V>::empty(),
    {
        let m = ScopedMemo { base: HashMap::new(), sessions: HashMap::new(), known: Vec::new() };
        assert(m@ =~= Map::<MemoKey, V>::empty());
        m
    }

    /// The value stored for the symbol in the scope.
    pub fn peek(&self, scope: Scope, key: SymbolId) -> (r: Option<&V>)
        ensures
            match r {
                Some(v) => self@.dom().contains((scope, key)) && *v == self@[(scope, key)],
                None => !self@.dom().contains((scope, key)),
            },
    {
        match scope {
            Scope::Base => self.base.get(&key),
            Scope::Session(s) => match self.sessions.get(&s) {
                None => None,
                Some(m) => m.get(&key),
            },
        }
    }

    /// Stores the value.
    pub fn put(&mut self, scope: Scope, key: SymbolId, value: V)
        requires
            old(self).wf(),
        ensures
            final(self).wf(),
            final(self)@ == old(self)@.insert((scope, key), value),
    {
        let ghost before = self@;
        match scope {
            Scope::Base => {
                self.base.insert(key, value);
            },
            Scope::Session(s) => {
                let mut inner: HashMap<SymbolId, V> = match self.sessions.remove(&s) {
                    Some(m) => m,
                    None => HashMap::new(),
                };
                inner.insert(key, value);
                let ghost old_known = self.known@;
                if !holds_id(&self.known, s) {
                    proof {
                        crate::store::lemma_push_contains(self.known@, s);
                    }
                    self.known.push(s);
                }
                self.sessions.insert(s, inner);
                assert(forall|t: SessionId| old_known.contains(t) ==> self.known@.contains(t));
            },
        }
        assert(self@ =~= before.insert((scope, key), value));
    }

    /// Drops every value.
    pub fn clear(&mut self)
        ensures
            final(self).wf(),
            final(self)@ == Map::<MemoKey, V>::empty(),
    {
        self.base = HashMap::new();
        self.sessions = HashMap::new();
        self.known = Vec::new();
        assert(self@ =~= Map::<MemoKey, V>::empty());
    }

    /// Drops the values of the scope.
    pub fn drop_scope(&mut self, scope: Scope)
        requires
            old(self).wf(),
        ensures
            final(self).wf(),
            final(self)@ == outside(old(self)@, scope),
    {
        let ghost before = self@;
        match scope {
            Scope::Base => {
                self.base = HashMap::new();
            },
            Scope::Session(s) => {
                self.sessions.remove(&s);
            },
        }
        assert(self@ =~= outside(before, scope));
    }

    /// Drops one value.
    pub fn forget(&mut self, scope: Scope, key: SymbolId)
        requires
            old(self).wf(),
        ensures
            final(self).wf(),
            final(self)@ == old(self)@.remove((scope, key)),
    {
        let ghost before = self@;
        match scope {
            Scope::Base => {
                self.base.remove(&key);
            },
            Scope::Session(s) => {
                match self.sessions.remove(&s) {
                    None => {},
                    Some(mut m) => {
                        m.remove(&key);
                        self.sessions.insert(s, m);
                    },
                }
            },
        }
        assert(self@ =~= before.remove((scope, key)));
    }

    /// Drops the values of the symbol in every scope.
    fn evict_one(&mut self, key: SymbolId)
        requires
            old(self).wf(),
        ensures
            final(self).wf(),
            final(self)@ == old(self)@.restrict(Set::new(|k: MemoKey| k.1 != key)),
    {
        let ghost before = *self;
        self.base.remove(&key);
        let mut i: usize = 0;
        while i < self.known.len()
            invariant
                self.wf(),
                i <= self.known@.len(),
                self.known@ == before.known@,
                self.base@ == before.base@.remove(key),
                self.sessions@.dom() == before.sessions@.dom(),
                forall|s: SessionId| #[trigger]
                    self.sessions@.dom().contains(s) ==> (self.sessions@[s]@ == before.sessions@[s]@.remove(key) || (
                    self.sessions@[s]@ == before.sessions@[s]@ && !self.known@.take(i as int).contains(s))),
            decreases self.known@.len() - i,
        {
            let s = self.known[i];
            let ghost mid = *self;
            match self.sessions.remove(&s) {
                None => {},
                Some(mut m) => {
                    m.remove(&key);
                    self.sessions.insert(s, m);
                },
            }
            assert(self.sessions@.dom() =~= before.sessions@.dom());
            assert forall|t: SessionId| #[trigger] self.sessions@.dom().contains(t) implies (self.sessions@[t]@
                == before.sessions@[t]@.remove(key) || (self.sessions@[t]@ == before.sessions@[t]@ && !self.known@.take(
                i + 1,
            ).contains(t))) by {
                assert(mid.sessions@.dom().contains(t));
                if t == s {
                    assert(self.sessions@[t]@ =~= before.sessions@[t]@.remove(key));
                } else if self.known@.take(i + 1).contains(t) {
                    let part = self.known@.take(i + 1);
                    let k = choose|k: int| 0 <= k < part.len() && part[k] == t;
                    assert(self.known@.take(i as int)[k] == t);
                }
            }
            i += 1;
        }
        assert(self.known@.take(i as int) =~= self.known@);
        assert(self@ =~= before@.restrict(Set::new(|k: MemoKey| k.1 != key))) by {
            assert forall|k: MemoKey| self.has(k) == (before.has(k) && k.1 != key) && (self.has(k) ==> self.at(k)
                == before.at(k)) by {
                if k.0 is Session {
                    let s = k.0->Session_0;
                    assert(self.sessions@.dom().contains(s) == before.sessions@.dom().contains(s));
                }
            }
        }
    }

    /// Drops the values of the symbols in every scope.
    pub fn evict(&mut self, syms: &Vec<SymbolId>)
        requires
            old(self).wf(),
        ensures
            final(self).wf(),
            final(self)@ == apart_from(old(self)@, syms@),
    {
        let ghost before = self@;
        let mut i: usize = 0;
        assert(self@ =~= apart_from(before, syms@.take(0)));
        while i < syms.len()
            invariant
                self.wf(),
                i <= syms@.len(),
                self@ == apart_from(before, syms@.take(i as int)),
            decreases syms@.len() - i,
        {
            self.evict_one(syms[i]);
            proof {
                assert(syms@.take(i + 1) =~= syms@.take(i as int).push(syms@[i as int]));
                crate::store::lemma_push_contains(syms@.take(i as int), syms@[i as int]);
            }
            assert(self@ =~= apart_from(before, syms@.take(i + 1)));
            i += 1;
        }
        assert(syms@.take(i as int) =~= syms@);
    }
}

/// Dropping a scope takes out what was remembered for it and nothing else.
pub proof fn law_a_dropped_scope_is_forgotten<V>(m: Map<MemoKey, V>, scope: Scope, k: MemoKey)
    ensures
        outside(m, scope).dom().contains(k) <==> m.dom().contains(k) && k.0 != scope,
        outside(m, scope).dom().contains(k) ==> outside(m, scope)[k] == m[k],
{
}

/// Evicting symbols takes out what was remembered of them, in every scope, and nothing
/// else.
pub proof fn law_evicted_symbols_are_forgotten<V>(m: Map<MemoKey, V>, syms: Seq<SymbolId>, k: MemoKey)
    ensures
        apart_from(m, syms).dom().contains(k) <==> m.dom().contains(k) && !syms.contains(k.1),
        apart_from(m, syms).dom().contains(k) ==> apart_from(m, syms)[k] == m[k],
{
}

} // verus!
