//! Answers about the taxonomy, remembered, and when they are forgotten.
use vstd::prelude::*;

use crate::docs::DocCache;
use crate::events::{event_views, Event, EventView};
use crate::memo::{apart_from, MemoKey, ScopedMemo};
use crate::semantic::{
    above_class, arity_of, class_like, effective_scope, kind_of, law_quiet_session_sees_base, leads, parents,
    reaches, step_up, Above, Facts, SemanticLayer,
};
use crate::signature_cache::{DomainCache, RangeCache};
use crate::store::{holds_id, LayerView, Scope};
use crate::taxonomy::{law_silence_keeps_the_taxonomy, tax_steps, RecordView};
use crate::types::SymbolId;

verus! {

/// A remembered answer: whether the one symbol stands under the other.
#[derive(Clone, Copy, Debug, PartialEq, Eq, Structural)]
pub struct AncestorAnswer {
    pub scope: Scope,
    pub sym: SymbolId,
    pub ancestor: SymbolId,
    pub answer: bool,
}

/// The answer is to the question.
pub open spec fn answers(a: AncestorAnswer, scope: Scope, sym: SymbolId, ancestor: SymbolId) -> bool {
    a.scope == scope && a.sym == sym && a.ancestor == ancestor
}

/// Remembered answers about ancestors.
pub struct AncestorMemo {
    pub known: Vec<AncestorAnswer>,
}

/// The answer that was remembered first to the question.
pub open spec fn first_answer(s: Seq<AncestorAnswer>, scope: Scope, sym: SymbolId, ancestor: SymbolId) -> Option<bool>
    decreases s.len(),
{
    if s.len() == 0 {
        None
    } else {
        match first_answer(s.drop_last(), scope, sym, ancestor) {
            Some(b) => Some(b),
            None => if answers(s.last(), scope, sym, ancestor) {
                Some(s.last().answer)
            } else {
                None
            },
        }
    }
}

proof fn lemma_first_answer(s: Seq<AncestorAnswer>, k: int, scope: Scope, sym: SymbolId, ancestor: SymbolId)
    requires
        0 <= k <= s.len(),
        first_answer(s.take(k), scope, sym, ancestor) is Some,
    ensures
        first_answer(s, scope, sym, ancestor) == first_answer(s.take(k), scope, sym, ancestor),
    decreases s.len(),
{
    if k == s.len() {
        assert(s.take(k) =~= s);
    } else {
        assert(s.drop_last().take(k) =~= s.take(k));
        lemma_first_answer(s.drop_last(), k, scope, sym, ancestor);
    }
}

proof fn lemma_answer_is_held(s: Seq<AncestorAnswer>, scope: Scope, sym: SymbolId, ancestor: SymbolId)
    ensures
        first_answer(s, scope, sym, ancestor) matches Some(b) ==> exists|i: int|
            0 <= i < s.len() && answers(#[trigger] s[i], scope, sym, ancestor) && s[i].answer == b,
    decreases s.len(),
{
    if s.len() > 0 {
        let d = s.drop_last();
        lemma_answer_is_held(d, scope, sym, ancestor);
        match first_answer(d, scope, sym, ancestor) {
            Some(b) => {
                let i = choose|i: int|
                    0 <= i < d.len() && answers(#[trigger] d[i], scope, sym, ancestor) && d[i].answer == b;
                assert(answers(s[i], scope, sym, ancestor) && s[i].answer == b);
            },
            None => {
                let i = s.len() - 1;
                if answers(s[i], scope, sym, ancestor) {
                    assert(s[i].answer == s.last().answer);
                }
            },
        }
    }
}

/// The answers with these symbols on neither side.
pub open spec fn clear_of(s: Seq<AncestorAnswer>, syms: Seq<SymbolId>) -> Seq<AncestorAnswer> {
    s.filter(|a: AncestorAnswer| !syms.contains(a.sym) && !syms.contains(a.ancestor))
}

/// Every remembered answer is what the taxonomy says.
pub open spec fn ancestors_true(s: Seq<AncestorAnswer>, f: Facts) -> bool {
    forall|i: int|
        0 <= i < s.len() ==> (#[trigger] s[i]).answer == reaches(f.edges, s[i].scope, None, s[i].sym, s[i].ancestor)
}

impl AncestorMemo {
    /// Nothing remembered.
    pub fn new() -> (m: AncestorMemo)
        ensures
            m.known@ == Seq::<AncestorAnswer>::empty(),
    {
        AncestorMemo { known: Vec::new() }
    }

    /// The remembered answer to the question.
    pub fn peek(&self, scope: Scope, sym: SymbolId, ancestor: SymbolId) -> (r: Option<bool>)
        ensures
            r == first_answer(self.known@, scope, sym, ancestor),
    {
        let ghost all = self.known@;
        let mut i: usize = 0;
        assert(all.take(0) =~= Seq::empty());
        while i < self.known.len()
            invariant
                all == self.known@,
                i <= self.known@.len(),
                first_answer(all.take(i as int), scope, sym, ancestor) is None,
            decreases self.known@.len() - i,
        {
            let a = self.known[i];
            assert(all.take(i + 1).drop_last() =~= all.take(i as int));
            assert(all.take(i + 1).last() == a);
            if a.scope == scope && a.sym == sym && a.ancestor == ancestor {
                proof {
                    lemma_first_answer(all, i + 1, scope, sym, ancestor);
                }
                return Some(a.answer);
            }
            i += 1;
        }
        assert(all.take(i as int) =~= all);
        None
    }

    /// Forgets what is known with one of the symbols on either side.
    fn keep(&mut self, syms: &Vec<SymbolId>)
        ensures
            final(self).known@ == clear_of(old(self).known@, syms@),
    {
        let ghost all = self.known@;
        let ghost p = |a: AncestorAnswer| !syms@.contains(a.sym) && !syms@.contains(a.ancestor);
        let mut out: Vec<AncestorAnswer> = Vec::new();
        let mut i: usize = 0;
        assert(all.take(0).filter(p) =~= Seq::empty()) by {
            reveal(Seq::filter);
        }
        while i < self.known.len()
            invariant
                all == self.known@,
                i <= self.known@.len(),
                p == (|a: AncestorAnswer| !syms@.contains(a.sym) && !syms@.contains(a.ancestor)),
                out@ == all.take(i as int).filter(p),
            decreases self.known@.len() - i,
        {
            let a = self.known[i];
            assert(all.take(i + 1).drop_last() =~= all.take(i as int));
            assert(all.take(i + 1).filter(p) == (if p(a) {
                all.take(i as int).filter(p).push(a)
            } else {
                all.take(i as int).filter(p)
            })) by {
                reveal(Seq::filter);
            }
            if !holds_id(syms, a.sym) && !holds_id(syms, a.ancestor) {
                out.push(a);
            }
            i += 1;
        }
        assert(all.take(i as int) =~= all);
        self.known = out;
    }
}

/// Remembered answers.
pub struct QueryCache {
    pub is_class: ScopedMemo<bool>,
    pub is_instance: ScopedMemo<bool>,
    pub is_relation: ScopedMemo<bool>,
    pub is_predicate: ScopedMemo<bool>,
    pub is_function: ScopedMemo<bool>,
    pub arity: ScopedMemo<Option<i32>>,
    pub has_ancestor: AncestorMemo,
    pub domain: DomainCache,
    pub range: RangeCache,
    pub documentation: DocCache,
}

/// The taxonomy changed.
pub open spec fn taxonomy_changed(es: Seq<EventView>) -> bool {
    exists|i: int| 0 <= i < es.len() && #[trigger] es[i] is TaxonomyChanged
}

/// The taxonomy or other roots changed.
pub open spec fn roots_changed(es: Seq<EventView>) -> bool {
    exists|i: int| 0 <= i < es.len() && (#[trigger] es[i] is TaxonomyChanged || es[i] is OtherRootsChanged)
}

fn any_taxonomy(events: &Vec<Event>) -> (r: bool)
    ensures
        r == taxonomy_changed(event_views(events@)),
{
    let ghost evs = event_views(events@);
    let mut i: usize = 0;
    while i < events.len()
        invariant
            evs == event_views(events@),
            i <= events@.len(),
            forall|j: int| 0 <= j < i ==> !(#[trigger] evs[j] is TaxonomyChanged),
        decreases events@.len() - i,
    {
        assert(evs[i as int] == events@[i as int]@);
        match &events[i] {
            Event::TaxonomyChanged { .. } => return true,
            _ => {},
        }
        i += 1;
    }
    false
}

fn any_roots(events: &Vec<Event>) -> (r: bool)
    ensures
        r == roots_changed(event_views(events@)),
{
    let ghost evs = event_views(events@);
    let mut i: usize = 0;
    while i < events.len()
        invariant
            evs == event_views(events@),
            i <= events@.len(),
            forall|j: int| 0 <= j < i ==> !(#[trigger] evs[j] is TaxonomyChanged || evs[j] is OtherRootsChanged),
        decreases events@.len() - i,
    {
        assert(evs[i as int] == events@[i as int]@);
        match &events[i] {
            Event::TaxonomyChanged { .. } => return true,
            Event::OtherRootsChanged => return true,
            _ => {},
        }
        i += 1;
    }
    false
}

/// What is remembered about the taxonomy.
pub struct AnswersView {
    pub is_class: Map<MemoKey, bool>,
    pub is_instance: Map<MemoKey, bool>,
    pub is_relation: Map<MemoKey, bool>,
    pub is_predicate: Map<MemoKey, bool>,
    pub is_function: Map<MemoKey, bool>,
    pub arity: Map<MemoKey, Option<i32>>,
    pub has_ancestor: Seq<AncestorAnswer>,
}

/// What is still remembered after the events: a change of the taxonomy
/// unsettles every answer, since it reaches all that stands below it.
pub open spec fn answers_left(a: AnswersView, es: Seq<EventView>) -> AnswersView {
    let left = if taxonomy_changed(es) {
        AnswersView {
            is_class: Map::empty(),
            is_instance: Map::empty(),
            is_relation: Map::empty(),
            is_predicate: Map::empty(),
            is_function: Map::empty(),
            has_ancestor: Seq::empty(),
            ..a
        }
    } else {
        a
    };
    if roots_changed(es) {
        AnswersView { arity: Map::empty(), ..left }
    } else {
        left
    }
}

/// Every remembered answer about classes is the taxonomy's.
pub open spec fn classes_true(m: Map<MemoKey, bool>, f: Facts) -> bool {
    forall|k: MemoKey| #[trigger] m.dom().contains(k) ==> m[k] == class_like(f.edges, f.roles, k.1, k.0)
}

/// Every remembered answer about individuals is the taxonomy's.
pub open spec fn instances_true(m: Map<MemoKey, bool>, f: Facts) -> bool {
    forall|k: MemoKey| #[trigger] m.dom().contains(k) ==> m[k] == !class_like(f.edges, f.roles, k.1, k.0)
}

/// Every remembered answer about a kind of relation is the taxonomy's.
pub open spec fn kinds_true(m: Map<MemoKey, bool>, f: Facts, class: SymbolId) -> bool {
    forall|k: MemoKey| #[trigger] m.dom().contains(k) ==> m[k] == kind_of(f.edges, f.roles, k.1, class, k.0)
}

/// The number of arguments is what the taxonomy says.
pub open spec fn arity_fits(n: Option<i32>, f: Facts, sym: SymbolId) -> bool {
    match n {
        Some(n) => arity_of(f.edges, f.roles, sym) == Some(n as int),
        None => arity_of(f.edges, f.roles, sym) is None,
    }
}

/// Every remembered number of arguments is what the taxonomy says.
pub open spec fn arities_true(m: Map<MemoKey, Option<i32>>, f: Facts) -> bool {
    forall|k: MemoKey| #[trigger] m.dom().contains(k) ==> arity_fits(m[k], f, k.1)
}

/// Everything remembered is what the taxonomy says.
pub open spec fn answers_true(a: AnswersView, f: Facts) -> bool {
    &&& classes_true(a.is_class, f)
    &&& instances_true(a.is_instance, f)
    &&& kinds_true(a.is_relation, f, f.roles.relation_class)
    &&& kinds_true(a.is_predicate, f, f.roles.predicate_class)
    &&& kinds_true(a.is_function, f, f.roles.function_class)
    &&& arities_true(a.arity, f)
    &&& ancestors_true(a.has_ancestor, f)
}

/// The value remembered for the key, else the one given.
pub open spec fn recalled<V>(m: Map<MemoKey, V>, key: MemoKey, fresh: V) -> V {
    if m.dom().contains(key) {
        m[key]
    } else {
        fresh
    }
}

impl QueryCache {
    /// The stores are well formed.
    pub open spec fn wf(&self) -> bool {
        &&& self.is_class.wf()
        &&& self.is_instance.wf()
        &&& self.is_relation.wf()
        &&& self.is_predicate.wf()
        &&& self.is_function.wf()
        &&& self.arity.wf()
        &&& self.domain.memo.wf()
        &&& self.range.memo.wf()
        &&& self.documentation.memo.wf()
    }

    /// What is remembered about the taxonomy.
    pub open spec fn known(&self) -> AnswersView {
        AnswersView {
            is_class: self.is_class@,
            is_instance: self.is_instance@,
            is_relation: self.is_relation@,
            is_predicate: self.is_predicate@,
            is_function: self.is_function@,
            arity: self.arity@,
            has_ancestor: self.has_ancestor.known@,
        }
    }

    /// Nothing is remembered.
    pub open spec fn is_blank(&self) -> bool {
        &&& self.is_class@ == Map::<MemoKey, bool>::empty()
        &&& self.is_instance@ == Map::<MemoKey, bool>::empty()
        &&& self.is_relation@ == Map::<MemoKey, bool>::empty()
        &&& self.is_predicate@ == Map::<MemoKey, bool>::empty()
        &&& self.is_function@ == Map::<MemoKey, bool>::empty()
        &&& self.arity@ == Map::<MemoKey, Option<i32>>::empty()
        &&& self.has_ancestor.known@ == Seq::<AncestorAnswer>::empty()
        &&& self.domain.memo@.dom() == Set::<MemoKey>::empty()
        &&& self.range.memo@.dom() == Set::<MemoKey>::empty()
        &&& self.documentation.memo@.dom() == Set::<MemoKey>::empty()
    }

    /// Nothing remembered.
    pub fn new() -> (c: QueryCache)
        ensures
            c.wf(),
            c.is_blank(),
    {
        QueryCache {
            is_class: ScopedMemo::new(),
            is_instance: ScopedMemo::new(),
            is_relation: ScopedMemo::new(),
            is_predicate: ScopedMemo::new(),
            is_function: ScopedMemo::new(),
            arity: ScopedMemo::new(),
            has_ancestor: AncestorMemo::new(),
            domain: DomainCache::new(),
            range: RangeCache::new(),
            documentation: DocCache::new(),
        }
    }

    /// Forgets all answers.
    pub fn invalidate_semantic_cache(&mut self)
        ensures
            final(self).wf(),
            final(self).is_blank(),
    {
        *self = QueryCache::new();
    }

    /// Forgets the answers about the symbols, and about ancestors with one of
    /// them on either side.
    pub fn invalidate_symbols(&mut self, syms: &Vec<SymbolId>)
        requires
            old(self).wf(),
        ensures
            final(self).wf(),
            final(self).is_class@ == apart_from(old(self).is_class@, syms@),
            final(self).is_instance@ == apart_from(old(self).is_instance@, syms@),
            final(self).is_relation@ == apart_from(old(self).is_relation@, syms@),
            final(self).is_predicate@ == apart_from(old(self).is_predicate@, syms@),
            final(self).is_function@ == apart_from(old(self).is_function@, syms@),
            final(self).arity@ == apart_from(old(self).arity@, syms@),
            final(self).domain.memo@ == apart_from(old(self).domain.memo@, syms@),
            final(self).range.memo@ == apart_from(old(self).range.memo@, syms@),
            final(self).documentation.memo@ == apart_from(old(self).documentation.memo@, syms@),
            final(self).has_ancestor.known@ == clear_of(old(self).has_ancestor.known@, syms@),
    {
        self.is_class.evict(syms);
        self.is_instance.evict(syms);
        self.is_relation.evict(syms);
        self.is_predicate.evict(syms);
        self.is_function.evict(syms);
        self.arity.evict(syms);
        self.domain.memo.evict(syms);
        self.range.memo.evict(syms);
        self.documentation.memo.evict(syms);
        self.has_ancestor.keep(syms);
    }

    /// Takes in the events and forgets the answers about the taxonomy that
    /// they unsettle.
    pub fn react(&mut self, events: &Vec<Event>)
        requires
            old(self).wf(),
        ensures
            final(self).wf(),
            final(self).known() == answers_left(old(self).known(), event_views(events@)),
            final(self).domain == old(self).domain,
            final(self).range == old(self).range,
            final(self).documentation == old(self).documentation,
    {
        if any_taxonomy(events) {
            self.is_class.clear();
            self.is_instance.clear();
            self.is_relation.clear();
            self.is_predicate.clear();
            self.is_function.clear();
            self.has_ancestor = AncestorMemo::new();
        }
        if any_roots(events) {
            self.arity.clear();
        }
    }

    /// Whether the one symbol stands under the other, as remembered, else as
    /// computed and then remembered.
    pub fn has_ancestor(&mut self, layer: &SemanticLayer, sym: SymbolId, ancestor: SymbolId, scope: Scope) -> (r: bool)
        requires
            old(self).wf(),
            layer.wf(),
        ensures
            final(self).wf(),
            sym == ancestor ==> r && *final(self) == *old(self),
            sym != ancestor ==> match first_answer(
                old(self).has_ancestor.known@,
                effective_scope(layer@.edges, scope),
                sym,
                ancestor,
            ) {
                Some(b) => r == b && *final(self) == *old(self),
                None => r == reaches(layer@.edges, scope, None, sym, ancestor) && final(self).has_ancestor.known@
                    == old(self).has_ancestor.known@.push(
                    AncestorAnswer { scope: effective_scope(layer@.edges, scope), sym, ancestor, answer: r },
                ),
            },
            *final(self) == (QueryCache { has_ancestor: final(self).has_ancestor, ..*old(self) }),
            answers_true(old(self).known(), layer@) ==> r == reaches(layer@.edges, scope, None, sym, ancestor)
                && answers_true(final(self).known(), layer@),
    {
        if sym == ancestor {
            proof {
                crate::semantic::lemma_reaches_self(layer@.edges, scope, None, sym);
            }
            return true;
        }
        let eff = layer.closure_scope(scope);
        proof {
            law_quiet_session_reasons_in_base(layer@, scope, sym, ancestor);
            lemma_answer_is_held(self.has_ancestor.known@, eff, sym, ancestor);
        }
        match self.has_ancestor.peek(eff, sym, ancestor) {
            Some(b) => b,
            None => {
                let b = layer.has_ancestor_scoped(sym, ancestor, eff);
                self.has_ancestor.known.push(AncestorAnswer { scope: eff, sym, ancestor, answer: b });
                b
            },
        }
    }

    /// Whether the symbol denotes a class, as remembered, else as computed and
    /// then remembered.
    pub fn is_class(&mut self, layer: &SemanticLayer, sym: SymbolId, scope: Scope) -> (r: bool)
        requires
            old(self).wf(),
            layer.wf(),
        ensures
            final(self).wf(),
            r == recalled(
                old(self).is_class@,
                (effective_scope(layer@.edges, scope), sym),
                class_like(layer@.edges, layer@.roles, sym, scope),
            ),
            final(self).is_class@ == old(self).is_class@.insert((effective_scope(layer@.edges, scope), sym), r),
            *final(self) == (QueryCache { is_class: final(self).is_class, ..*old(self) }),
            answers_true(old(self).known(), layer@) ==> r == class_like(layer@.edges, layer@.roles, sym, scope) && answers_true(
                final(self).known(),
                layer@,
            ),
    {
        let eff = layer.closure_scope(scope);
        proof {
            law_quiet_session_reasons_in_base(layer@, scope, sym, sym);
        }
        match self.is_class.peek(eff, sym) {
            Some(b) => {
                assert(self.is_class@ =~= self.is_class@.insert((eff, sym), *b));
                return *b;
            },
            None => {},
        }
        let b = layer.is_class_scoped(sym, eff);
        self.is_class.put(eff, sym, b);
        b
    }

    /// Whether the symbol denotes an individual, as remembered, else as computed
    /// and then remembered.
    pub fn is_instance(&mut self, layer: &SemanticLayer, sym: SymbolId, scope: Scope) -> (r: bool)
        requires
            old(self).wf(),
            layer.wf(),
        ensures
            final(self).wf(),
            r == recalled(
                old(self).is_instance@,
                (effective_scope(layer@.edges, scope), sym),
                !class_like(layer@.edges, layer@.roles, sym, scope),
            ),
            final(self).is_instance@ == old(self).is_instance@.insert((effective_scope(layer@.edges, scope), sym), r),
            *final(self) == (QueryCache { is_instance: final(self).is_instance, ..*old(self) }),
            answers_true(old(self).known(), layer@) ==> r == (!class_like(layer@.edges, layer@.roles, sym, scope)) && answers_true(
                final(self).known(),
                layer@,
            ),
    {
        let eff = layer.closure_scope(scope);
        proof {
            law_quiet_session_reasons_in_base(layer@, scope, sym, sym);
        }
        match self.is_instance.peek(eff, sym) {
            Some(b) => {
                assert(self.is_instance@ =~= self.is_instance@.insert((eff, sym), *b));
                return *b;
            },
            None => {},
        }
        let b = layer.is_instance_scoped(sym, eff);
        self.is_instance.put(eff, sym, b);
        b
    }

    /// Whether the symbol denotes a relation, as remembered, else as computed
    /// and then remembered.
    pub fn is_relation(&mut self, layer: &SemanticLayer, sym: SymbolId, scope: Scope) -> (r: bool)
        requires
            old(self).wf(),
            layer.wf(),
        ensures
            final(self).wf(),
            r == recalled(
                old(self).is_relation@,
                (effective_scope(layer@.edges, scope), sym),
                kind_of(layer@.edges, layer@.roles, sym, layer@.roles.relation_class, scope),
            ),
            final(self).is_relation@ == old(self).is_relation@.insert((effective_scope(layer@.edges, scope), sym), r),
            *final(self) == (QueryCache { is_relation: final(self).is_relation, ..*old(self) }),
            answers_true(old(self).known(), layer@) ==> r == kind_of(layer@.edges, layer@.roles, sym, layer@.roles.relation_class, scope) && answers_true(
                final(self).known(),
                layer@,
            ),
    {
        let eff = layer.closure_scope(scope);
        proof {
            law_quiet_session_reasons_in_base(layer@, scope, sym, layer@.roles.relation_class);
        }
        match self.is_relation.peek(eff, sym) {
            Some(b) => {
                assert(self.is_relation@ =~= self.is_relation@.insert((eff, sym), *b));
                return *b;
            },
            None => {},
        }
        let b = layer.is_relation_scoped(sym, eff);
        self.is_relation.put(eff, sym, b);
        b
    }

    /// Whether the symbol denotes a predicate, as remembered, else as computed
    /// and then remembered.
    pub fn is_predicate(&mut self, layer: &SemanticLayer, sym: SymbolId, scope: Scope) -> (r: bool)
        requires
            old(self).wf(),
            layer.wf(),
        ensures
            final(self).wf(),
            r == recalled(
                old(self).is_predicate@,
                (effective_scope(layer@.edges, scope), sym),
                kind_of(layer@.edges, layer@.roles, sym, layer@.roles.predicate_class, scope),
            ),
            final(self).is_predicate@ == old(self).is_predicate@.insert((effective_scope(layer@.edges, scope), sym), r),
            *final(self) == (QueryCache { is_predicate: final(self).is_predicate, ..*old(self) }),
            answers_true(old(self).known(), layer@) ==> r == kind_of(layer@.edges, layer@.roles, sym, layer@.roles.predicate_class, scope) && answers_true(
                final(self).known(),
                layer@,
            ),
    {
        let eff = layer.closure_scope(scope);
        proof {
            law_quiet_session_reasons_in_base(layer@, scope, sym, layer@.roles.predicate_class);
        }
        match self.is_predicate.peek(eff, sym) {
            Some(b) => {
                assert(self.is_predicate@ =~= self.is_predicate@.insert((eff, sym), *b));
                return *b;
            },
            None => {},
        }
        let b = layer.is_predicate_scoped(sym, eff);
        self.is_predicate.put(eff, sym, b);
        b
    }

    /// Whether the symbol denotes a function, as remembered, else as computed
    /// and then remembered.
    pub fn is_function(&mut self, layer: &SemanticLayer, sym: SymbolId, scope: Scope) -> (r: bool)
        requires
            old(self).wf(),
            layer.wf(),
        ensures
            final(self).wf(),
            r == recalled(
                old(self).is_function@,
                (effective_scope(layer@.edges, scope), sym),
                kind_of(layer@.edges, layer@.roles, sym, layer@.roles.function_class, scope),
            ),
            final(self).is_function@ == old(self).is_function@.insert((effective_scope(layer@.edges, scope), sym), r),
            *final(self) == (QueryCache { is_function: final(self).is_function, ..*old(self) }),
            answers_true(old(self).known(), layer@) ==> r == kind_of(layer@.edges, layer@.roles, sym, layer@.roles.function_class, scope) && answers_true(
                final(self).known(),
                layer@,
            ),
    {
        let eff = layer.closure_scope(scope);
        proof {
            law_quiet_session_reasons_in_base(layer@, scope, sym, layer@.roles.function_class);
        }
        match self.is_function.peek(eff, sym) {
            Some(b) => {
                assert(self.is_function@ =~= self.is_function@.insert((eff, sym), *b));
                return *b;
            },
            None => {},
        }
        let b = layer.is_function_scoped(sym, eff);
        self.is_function.put(eff, sym, b);
        b
    }

    /// The number of arguments of a relation, as remembered, else as computed
    /// and then remembered.
    pub fn arity(&mut self, layer: &SemanticLayer, sym: SymbolId) -> (r: Option<i32>)
        requires
            old(self).wf(),
            layer.wf(),
        ensures
            final(self).wf(),
            old(self).arity@.dom().contains((Scope::Base, sym)) ==> r == old(self).arity@[(Scope::Base, sym)],
            !old(self).arity@.dom().contains((Scope::Base, sym)) ==> arity_fits(r, layer@, sym),
            final(self).arity@ == old(self).arity@.insert((Scope::Base, sym), r),
            *final(self) == (QueryCache { arity: final(self).arity, ..*old(self) }),
            answers_true(old(self).known(), layer@) ==> arity_fits(r, layer@, sym) && answers_true(
                final(self).known(),
                layer@,
            ),
    {
        match self.arity.peek(Scope::Base, sym) {
            Some(n) => {
                assert(self.arity@ =~= self.arity@.insert((Scope::Base, sym), *n));
                return *n;
            },
            None => {},
        }
        let n = layer.arity(sym);
        self.arity.put(Scope::Base, sym, n);
        n
    }
}

/// A cache that was true of the taxonomy is true of it again once it took in
/// what the taxonomy reported of a change.
pub proof fn law_answers_follow_the_taxonomy(a: AnswersView, f: Facts, v: LayerView, es: Seq<EventView>)
    requires
        answers_true(a, f),
    ensures
        ({
            let p = tax_steps(v, f.roles, f.edges, es);
            answers_true(answers_left(a, p.1), Facts { layer: v, edges: p.0, roles: f.roles })
        }),
{
    let p = tax_steps(v, f.roles, f.edges, es);
    let left = answers_left(a, p.1);
    let g = Facts { layer: v, edges: p.0, roles: f.roles };
    if !taxonomy_changed(p.1) {
        assert forall|i: int| 0 <= i < p.1.len() implies !(#[trigger] p.1[i] is TaxonomyChanged) by {}
        law_silence_keeps_the_taxonomy(v, f.roles, f.edges, es);
        assert(p.0 == f.edges);
    } else {
        let i = choose|i: int| 0 <= i < p.1.len() && #[trigger] p.1[i] is TaxonomyChanged;
        assert(p.1[i] is TaxonomyChanged || p.1[i] is OtherRootsChanged);
        assert(roots_changed(p.1));
    }
}

/// A session without edges of its own reasons as the common scope does.
pub proof fn law_quiet_session_reasons_in_base(f: Facts, scope: Scope, sym: SymbolId, other: SymbolId)
    ensures
        reaches(f.edges, scope, None, sym, other) == reaches(
            f.edges,
            effective_scope(f.edges, scope),
            None,
            sym,
            other,
        ),
        class_like(f.edges, f.roles, sym, scope) == class_like(f.edges, f.roles, sym, effective_scope(f.edges, scope)),
        kind_of(f.edges, f.roles, sym, other, scope) == kind_of(
            f.edges,
            f.roles,
            sym,
            other,
            effective_scope(f.edges, scope),
        ),
{
    let eff = effective_scope(f.edges, scope);
    let rs = f.edges;
    assert forall|a: SymbolId| #[trigger] parents(rs, a, scope) == parents(rs, a, eff) by {
        law_quiet_session_sees_base(rs, scope, a);
    }
    assert forall|only: Option<crate::roles::TaxRelation>, a: SymbolId, b: SymbolId| #[trigger]
        reaches(rs, scope, only, a, b) == reaches(rs, eff, only, a, b) by {
        if reaches(rs, scope, only, a, b) {
            lemma_same_reach(rs, scope, eff, only, a, b);
        }
        if reaches(rs, eff, only, a, b) {
            lemma_same_reach(rs, eff, scope, only, a, b);
        }
    }
    assert(parents(rs, sym, scope) == parents(rs, sym, eff));
    assert forall|a: Above| #[trigger] above_class(rs, f.roles, scope, a) == above_class(rs, f.roles, eff, a) by {
        let sub = Some(crate::roles::TaxRelation::Subclass);
        assert(reaches(rs, scope, sub, a.0, f.roles.class) == reaches(rs, eff, sub, a.0, f.roles.class));
    }
    if class_like(rs, f.roles, sym, scope) {
        assert forall|i: int| 0 <= i < parents(rs, sym, eff).len() implies above_class(
            rs,
            f.roles,
            eff,
            #[trigger] parents(rs, sym, eff)[i],
        ) by {
            assert(above_class(rs, f.roles, scope, parents(rs, sym, scope)[i]));
        }
    }
    if class_like(rs, f.roles, sym, eff) {
        assert forall|i: int| 0 <= i < parents(rs, sym, scope).len() implies above_class(
            rs,
            f.roles,
            scope,
            #[trigger] parents(rs, sym, scope)[i],
        ) by {
            assert(above_class(rs, f.roles, eff, parents(rs, sym, eff)[i]));
        }
    }
}

proof fn lemma_same_reach(
    rs: Seq<RecordView>,
    s: Scope,
    t: Scope,
    only: Option<crate::roles::TaxRelation>,
    a: SymbolId,
    b: SymbolId,
)
    requires
        forall|x: SymbolId| #[trigger] parents(rs, x, s) == parents(rs, x, t),
        reaches(rs, s, only, a, b),
    ensures
        reaches(rs, t, only, a, b),
{
    let p = choose|p: Seq<SymbolId>| leads(rs, s, only, a, b, p);
    assert forall|i: int, j: int| 0 <= i < p.len() && j == i + 1 && j < p.len() implies step_up(
        rs,
        t,
        only,
        #[trigger] p[i],
        #[trigger] p[j],
    ) by {
        assert(step_up(rs, s, only, p[i], p[j]));
        assert(parents(rs, p[i], s) == parents(rs, p[i], t));
    }
    assert(leads(rs, t, only, a, b, p));
}

/// What stays remembered about ancestors is what has none of the symbols on either side.
pub proof fn law_answers_on_either_side_are_forgotten(s: Seq<AncestorAnswer>, syms: Seq<SymbolId>, a: AncestorAnswer)
    ensures
        clear_of(s, syms).contains(a) <==> s.contains(a) && !syms.contains(a.sym) && !syms.contains(a.ancestor),
{
    let p = |a: AncestorAnswer| !syms.contains(a.sym) && !syms.contains(a.ancestor);
    let t = s.filter(p);
    assert(t == clear_of(s, syms));
    if t.contains(a) {
        s.lemma_filter_contains_rev(p, a);
        let k = choose|k: int| 0 <= k < t.len() && t[k] == a;
        s.lemma_filter_pred(p, k);
    }
    if s.contains(a) && p(a) {
        let k = choose|k: int| 0 <= k < s.len() && s[k] == a;
        s.lemma_filter_contains(p, k);
    }
}

/// A remembered answer is the one given to this very question; a question with no such
/// answer has none.
pub proof fn law_answers_are_to_the_question(s: Seq<AncestorAnswer>, scope: Scope, sym: SymbolId, ancestor: SymbolId)
    ensures
        match first_answer(s, scope, sym, ancestor) {
            Some(b) => exists|i: int|
                0 <= i < s.len() && (#[trigger] s[i]).scope == scope && s[i].sym == sym && s[i].ancestor == ancestor
                    && s[i].answer == b,
            None => forall|i: int|
                0 <= i < s.len() ==> !((#[trigger] s[i]).scope == scope && s[i].sym == sym && s[i].ancestor == ancestor),
        },
    decreases s.len(),
{
    lemma_answer_is_held(s, scope, sym, ancestor);
    if first_answer(s, scope, sym, ancestor) is None && s.len() > 0 {
        let d = s.drop_last();
        law_answers_are_to_the_question(d, scope, sym, ancestor);
        assert forall|i: int| 0 <= i < s.len() implies !((#[trigger] s[i]).scope == scope && s[i].sym == sym
            && s[i].ancestor == ancestor) by {
            if i < d.len() {
                assert(d[i] == s[i]);
            }
        }
    }
}

/// What is answered from memory that is true is what would be answered afresh.
pub proof fn law_recalled_answers_are_true(a: AnswersView, f: Facts, key: MemoKey, ancestor: SymbolId)
    requires
        answers_true(a, f),
    ensures
        recalled(a.is_class, key, class_like(f.edges, f.roles, key.1, key.0)) == class_like(f.edges, f.roles, key.1, key.0),
        recalled(a.is_instance, key, !class_like(f.edges, f.roles, key.1, key.0)) == !class_like(
            f.edges,
            f.roles,
            key.1,
            key.0,
        ),
        first_answer(a.has_ancestor, key.0, key.1, ancestor) matches Some(b) ==> b == reaches(
            f.edges,
            key.0,
            None,
            key.1,
            ancestor,
        ),
{
    lemma_answer_is_held(a.has_ancestor, key.0, key.1, ancestor);
}

} // verus!
