//! What the prover does with a recognised theory rule: register it, and say
//! whether the clause that states it can be dropped.
use vstd::prelude::*;

use std::collections::HashMap;

use crate::background::copy_all;
use crate::canon::CanonVars;
use crate::clause::{lit_views, slotted_lits, LitView, PLit};
use crate::schema::{all_canonical, probed, HitView, SchemaHit, SchemaKind, SchemaTable};
use crate::types::{SentenceId, SymbolId};

verus! {

/// A clause with the number of its variables.
pub struct PClause {
    pub lits: Vec<PLit>,
    pub nvars: u32,
}

/// A clause with its literals as trees.
pub struct ClauseView {
    pub lits: Seq<LitView>,
    pub nvars: u32,
}

impl View for PClause {
    type V = ClauseView;

    open spec fn view(&self) -> ClauseView {
        ClauseView { lits: lit_views(self.lits@), nvars: self.nvars }
    }
}

/// The views of the clauses.
pub open spec fn clause_views(cs: Seq<PClause>) -> Seq<ClauseView> {
    Seq::new(cs.len(), |i: int| cs[i]@)
}

/// The relations that theory rules have been found for, each with the sentence
/// that states the rule.
pub struct SchemaRegistry {
    pub mined_symmetric: u64,
    pub mined_transitive: u64,
    pub mined_other: u64,
    symmetric: Vec<(SymbolId, Option<SentenceId>)>,
    transitive: Vec<(SymbolId, Option<SentenceId>)>,
    antisymmetric: HashMap<u64, Option<SentenceId>>,
    irreflexive: HashMap<u64, Option<SentenceId>>,
    inverse: Vec<(SymbolId, SymbolId, Option<SentenceId>)>,
}

/// The contents of the registry.
#[verifier::ext_equal]
pub struct RegistryView {
    pub mined_symmetric: int,
    pub mined_transitive: int,
    pub mined_other: int,
    pub symmetric: Seq<(SymbolId, Option<SentenceId>)>,
    pub transitive: Seq<(SymbolId, Option<SentenceId>)>,
    /// the first sentence for each relation
    pub antisymmetric: Map<u64, Option<SentenceId>>,
    pub irreflexive: Map<u64, Option<SentenceId>>,
    pub inverse: Seq<(SymbolId, SymbolId, Option<SentenceId>)>,
}

impl View for SchemaRegistry {
    type V = RegistryView;

    closed spec fn view(&self) -> RegistryView {
        RegistryView {
            mined_symmetric: self.mined_symmetric as int,
            mined_transitive: self.mined_transitive as int,
            mined_other: self.mined_other as int,
            symmetric: self.symmetric@,
            transitive: self.transitive@,
            antisymmetric: self.antisymmetric@,
            irreflexive: self.irreflexive@,
            inverse: self.inverse@,
        }
    }
}

/// The map with `v` under `k`, unless there is an entry.
pub open spec fn first_kept(
    m: Map<u64, Option<SentenceId>>,
    k: u64,
    v: Option<SentenceId>,
) -> Map<u64, Option<SentenceId>> {
    if m.dom().contains(k) {
        m
    } else {
        m.insert(k, v)
    }
}

/// The clause that states the rule can be dropped.  Symmetry is built into the
/// orientation of literals, and substitution of equals into rewriting; a
/// transitivity is still needed to enumerate compositions.
pub open spec fn absorbs(hit: HitView) -> bool {
    match hit.kind {
        SchemaKind::Symmetry => hit.rel is Some,
        SchemaKind::SymMetaschema => true,
        SchemaKind::EqSubstitution => true,
        _ => false,
    }
}

/// The registry after a hit.
pub open spec fn registered(
    r: RegistryView,
    hit: HitView,
    source: Option<SentenceId>,
) -> RegistryView {
    match hit.kind {
        SchemaKind::Symmetry => match hit.rel {
            Some(rel) => RegistryView {
                mined_symmetric: r.mined_symmetric + 1,
                symmetric: r.symmetric.push((rel, source)),
                ..r
            },
            None => r,
        },
        SchemaKind::Transitivity => match hit.rel {
            Some(rel) => RegistryView {
                mined_transitive: r.mined_transitive + 1,
                transitive: r.transitive.push((rel, source)),
                ..r
            },
            None => r,
        },
        SchemaKind::Antisymmetry => match hit.rel {
            Some(rel) => RegistryView {
                mined_other: r.mined_other + 1,
                antisymmetric: first_kept(r.antisymmetric, rel, source),
                ..r
            },
            None => r,
        },
        SchemaKind::Irreflexivity => match hit.rel {
            Some(rel) => RegistryView {
                mined_other: r.mined_other + 1,
                irreflexive: first_kept(r.irreflexive, rel, source),
                ..r
            },
            None => r,
        },
        SchemaKind::Inverse => match (hit.rel, hit.rel2) {
            (Some(a), Some(b)) => RegistryView {
                mined_other: r.mined_other + 1,
                inverse: r.inverse.push((a, b, source)),
                ..r
            },
            _ => r,
        },
        _ => r,
    }
}

/// The counters can take `n` more.
pub open spec fn room(r: RegistryView, n: nat) -> bool {
    &&& r.mined_symmetric + n <= u64::MAX
    &&& r.mined_transitive + n <= u64::MAX
    &&& r.mined_other + n <= u64::MAX
}

/// What the pre-pass finds in one clause.  Clauses without variables and
/// clauses of more than four literals are passed over.
pub open spec fn mined_hit(
    table: Map<u64, SchemaKind>,
    c: ClauseView,
    ids: Seq<SymbolId>,
) -> Option<HitView> {
    if c.lits.len() > 4 || c.nvars == 0 || !all_canonical(ids, c.lits) {
        None
    } else {
        probed(table, slotted_lits(ids, c.lits))
    }
}

/// The registry after the pre-pass over the clauses of the sentence `root`.
pub open spec fn mined(
    r: RegistryView,
    table: Map<u64, SchemaKind>,
    cs: Seq<ClauseView>,
    ids: Seq<SymbolId>,
    root: SentenceId,
) -> RegistryView
    decreases cs.len(),
{
    if cs.len() == 0 {
        r
    } else {
        let before = mined(r, table, cs.drop_last(), ids, root);
        match mined_hit(table, cs.last(), ids) {
            Some(hit) => registered(before, hit, Some(root)),
            None => before,
        }
    }
}

impl SchemaRegistry {
    /// The registry without rules.
    pub fn new() -> (r: SchemaRegistry)
        ensures
            r@.mined_symmetric == 0,
            r@.mined_transitive == 0,
            r@.mined_other == 0,
            r@.symmetric == Seq::<(SymbolId, Option<SentenceId>)>::empty(),
            r@.transitive == Seq::<(SymbolId, Option<SentenceId>)>::empty(),
            r@.antisymmetric == Map::<u64, Option<SentenceId>>::empty(),
            r@.irreflexive == Map::<u64, Option<SentenceId>>::empty(),
            r@.inverse == Seq::<(SymbolId, SymbolId, Option<SentenceId>)>::empty(),
    {
        SchemaRegistry {
            mined_symmetric: 0,
            mined_transitive: 0,
            mined_other: 0,
            symmetric: Vec::new(),
            transitive: Vec::new(),
            antisymmetric: HashMap::new(),
            irreflexive: HashMap::new(),
            inverse: Vec::new(),
        }
    }

    /// The sentences by which each relation was found symmetric, oldest first.
    pub fn symmetric(&self) -> (r: &Vec<(SymbolId, Option<SentenceId>)>)
        ensures
            r@ == self@.symmetric,
    {
        &self.symmetric
    }

    /// The sentences by which each relation was found transitive, oldest
    /// first.
    pub fn transitive(&self) -> (r: &Vec<(SymbolId, Option<SentenceId>)>)
        ensures
            r@ == self@.transitive,
    {
        &self.transitive
    }

    /// The inverse pairs, oldest first.
    pub fn inverse(&self) -> (r: &Vec<(SymbolId, SymbolId, Option<SentenceId>)>)
        ensures
            r@ == self@.inverse,
    {
        &self.inverse
    }

    /// The sentence by which the relation was first found antisymmetric, if it
    /// was.
    pub fn antisymmetric(&self, rel: SymbolId) -> (r: Option<Option<SentenceId>>)
        ensures
            r == (if self@.antisymmetric.dom().contains(rel) {
                Some(self@.antisymmetric[rel])
            } else {
                None
            }),
    {
        broadcast use vstd::std_specs::hash::group_hash_axioms;

        match self.antisymmetric.get(&rel) {
            Some(s) => Some(*s),
            None => None,
        }
    }

    /// The sentence by which the relation was first found irreflexive, if it
    /// was.
    pub fn irreflexive(&self, rel: SymbolId) -> (r: Option<Option<SentenceId>>)
        ensures
            r == (if self@.irreflexive.dom().contains(rel) {
                Some(self@.irreflexive[rel])
            } else {
                None
            }),
    {
        broadcast use vstd::std_specs::hash::group_hash_axioms;

        match self.irreflexive.get(&rel) {
            Some(s) => Some(*s),
            None => None,
        }
    }

    /// A registry with the same rules.
    pub fn copy(&self) -> (r: SchemaRegistry)
        ensures
            r@ == self@,
    {
        SchemaRegistry {
            mined_symmetric: self.mined_symmetric,
            mined_transitive: self.mined_transitive,
            mined_other: self.mined_other,
            symmetric: copy_all(&self.symmetric),
            transitive: copy_all(&self.transitive),
            antisymmetric: self.antisymmetric.clone(),
            irreflexive: self.irreflexive.clone(),
            inverse: copy_all(&self.inverse),
        }
    }

    /// Registers a hit, and says whether the clause can be dropped.
    pub fn apply_schema_hit(&mut self, hit: &SchemaHit, source: Option<SentenceId>) -> (absorb: bool)
        requires
            room(old(self)@, 1),
        ensures
            absorb == absorbs(hit@),
            final(self)@ == registered(old(self)@, hit@, source),
    {
        broadcast use vstd::std_specs::hash::group_hash_axioms;

        match hit.kind {
            SchemaKind::Symmetry => {
                match &hit.rel {
                    Some(rel) => {
                        self.mined_symmetric = self.mined_symmetric + 1;
                        self.symmetric.push((rel.id(), source));
                        true
                    },
                    None => false,
                }
            },
            SchemaKind::SymMetaschema => true,
            SchemaKind::EqSubstitution => true,
            SchemaKind::Transitivity => {
                if let Some(rel) = &hit.rel {
                    self.mined_transitive = self.mined_transitive + 1;
                    self.transitive.push((rel.id(), source));
                }
                false
            },
            SchemaKind::TransMetaschema => false,
            SchemaKind::Antisymmetry => {
                if let Some(rel) = &hit.rel {
                    self.mined_other = self.mined_other + 1;
                    let id: u64 = rel.id();
                    if !self.antisymmetric.contains_key(&id) {
                        self.antisymmetric.insert(id, source);
                    }
                }
                false
            },
            SchemaKind::Irreflexivity => {
                if let Some(rel) = &hit.rel {
                    self.mined_other = self.mined_other + 1;
                    let id: u64 = rel.id();
                    if !self.irreflexive.contains_key(&id) {
                        self.irreflexive.insert(id, source);
                    }
                }
                false
            },
            SchemaKind::Inverse => {
                if let (Some(a), Some(b)) = (&hit.rel, &hit.rel2) {
                    self.mined_other = self.mined_other + 1;
                    self.inverse.push((a.id(), b.id(), source));
                }
                false
            },
        }
    }

    /// Registers what the clauses of the sentence `root` state, unless the
    /// channel is switched off.
    pub fn mine_schema(
        &mut self,
        enabled: bool,
        table: &SchemaTable,
        clauses: &Vec<PClause>,
        canon: &CanonVars,
        root: SentenceId,
    )
        requires
            room(old(self)@, clauses@.len()),
            canon@.len() <= u32::MAX,
        ensures
            final(self)@ == if enabled {
                mined(old(self)@, table@, clause_views(clauses@), canon@, root)
            } else {
                old(self)@
            },
    {
        if !enabled {
            return;
        }
        let ghost cs = clause_views(clauses@);
        let ghost start = self@;
        let mut i: usize = 0;
        while i < clauses.len()
            invariant
                i <= clauses@.len(),
                cs == clause_views(clauses@),
                canon@.len() <= u32::MAX,
                self@ == mined(start, table@, cs.take(i as int), canon@, root),
                room(self@, (clauses@.len() - i) as nat),
            decreases clauses@.len() - i,
        {
            assert(cs.take(i + 1).drop_last() =~= cs.take(i as int));
            assert(cs.take(i + 1).last() == clauses@[i as int]@);
            let pc: &PClause = &clauses[i];
            if pc.lits.len() <= 4 && pc.nvars != 0 {
                if let Some(hit) = table.probe(&pc.lits, canon) {
                    self.apply_schema_hit(&hit, Some(root));
                }
            }
            i += 1;
        }
        assert(cs.take(i as int) =~= cs);
    }
}

/// The clause at the place states the rule.
pub open spec fn finds(table: Map<u64, SchemaKind>, cs: Seq<ClauseView>, ids: Seq<SymbolId>, i: int, hit: HitView) -> bool {
    0 <= i < cs.len() && mined_hit(table, cs[i], ids) == Some(hit)
}

/// The relations that the pre-pass lists are those it knew and those for which some clause
/// states the rule, each of these with the sentence as its source; and of the rules that
/// are kept one per relation the first source stays.
pub proof fn law_found_rules_are_listed(
    r: RegistryView,
    table: Map<u64, SchemaKind>,
    cs: Seq<ClauseView>,
    ids: Seq<SymbolId>,
    root: SentenceId,
    rel: SymbolId,
    source: Option<SentenceId>,
)
    ensures
        mined(r, table, cs, ids, root).symmetric.contains((rel, source)) <==> r.symmetric.contains((rel, source)) || (source
            == Some(root) && exists|i: int, hit: HitView| #[trigger]
            finds(table, cs, ids, i, hit) && hit.kind is Symmetry && hit.rel == Some(rel)),
        mined(r, table, cs, ids, root).transitive.contains((rel, source)) <==> r.transitive.contains((rel, source)) || (
        source == Some(root) && exists|i: int, hit: HitView| #[trigger]
            finds(table, cs, ids, i, hit) && hit.kind is Transitivity && hit.rel == Some(rel)),
        mined(r, table, cs, ids, root).antisymmetric.dom().contains(rel) <==> r.antisymmetric.dom().contains(rel)
            || exists|i: int, hit: HitView| #[trigger]
            finds(table, cs, ids, i, hit) && hit.kind is Antisymmetry && hit.rel == Some(rel),
        mined(r, table, cs, ids, root).irreflexive.dom().contains(rel) <==> r.irreflexive.dom().contains(rel)
            || exists|i: int, hit: HitView| #[trigger]
            finds(table, cs, ids, i, hit) && hit.kind is Irreflexivity && hit.rel == Some(rel),
        r.antisymmetric.dom().contains(rel) ==> mined(r, table, cs, ids, root).antisymmetric[rel] == r.antisymmetric[rel],
        r.irreflexive.dom().contains(rel) ==> mined(r, table, cs, ids, root).irreflexive[rel] == r.irreflexive[rel],
        mined(r, table, cs, ids, root).antisymmetric.dom().contains(rel) && !r.antisymmetric.dom().contains(rel) ==> mined(
            r,
            table,
            cs,
            ids,
            root,
        ).antisymmetric[rel] == Some(root),
        mined(r, table, cs, ids, root).irreflexive.dom().contains(rel) && !r.irreflexive.dom().contains(rel) ==> mined(
            r,
            table,
            cs,
            ids,
            root,
        ).irreflexive[rel] == Some(root),
    decreases cs.len(),
{
    if cs.len() > 0 {
        let rest = cs.drop_last();
        let n = cs.len() - 1;
        law_found_rules_are_listed(r, table, rest, ids, root, rel, source);
        assert forall|i: int, hit: HitView| 0 <= i < n implies #[trigger] finds(table, cs, ids, i, hit) == finds(
            table,
            rest,
            ids,
            i,
            hit,
        ) by {
            assert(rest[i] == cs[i]);
        }
        assert forall|i: int, hit: HitView| #[trigger] finds(table, rest, ids, i, hit) implies finds(
            table,
            cs,
            ids,
            i,
            hit,
        ) by {
            assert(rest[i] == cs[i]);
        }
        let before = mined(r, table, rest, ids, root);
        let after = mined(r, table, cs, ids, root);
        if let Some(hit) = mined_hit(table, cs.last(), ids) {
            assert(finds(table, cs, ids, n, hit));
            if let Some(x) = hit.rel {
                let e = (x, Some(root));
                lemma_pushed(before.symmetric, e, (rel, source));
                lemma_pushed(before.transitive, e, (rel, source));
            }
        }
        assert forall|hit: HitView| #[trigger] finds(table, cs, ids, n, hit) implies mined_hit(table, cs.last(), ids) == Some(
            hit,
        ) by {}
    }
}

proof fn lemma_pushed(
    s: Seq<(SymbolId, Option<SentenceId>)>,
    e: (SymbolId, Option<SentenceId>),
    x: (SymbolId, Option<SentenceId>),
)
    ensures
        s.push(e).contains(x) <==> s.contains(x) || x == e,
{
    let t = s.push(e);
    if t.contains(x) {
        let k = choose|k: int| 0 <= k < t.len() && t[k] == x;
        if k < s.len() {
            assert(s[k] == x);
        }
    }
    if s.contains(x) {
        let k = choose|k: int| 0 <= k < s.len() && s[k] == x;
        assert(t[k] == x);
    }
    if x == e {
        assert(t[s.len() as int] == x);
    }
}

/// A clause is dropped only where its rule is not lost: a symmetry is on the list of its
/// relation, and the two rules that hold of every relation are built in.  No other clause
/// is dropped.
pub proof fn law_dropped_clauses_are_not_lost(r: RegistryView, hit: HitView, source: Option<SentenceId>)
    ensures
        absorbs(hit) <==> (hit.kind is Symmetry && hit.rel is Some) || hit.kind is SymMetaschema || hit.kind is EqSubstitution,
        absorbs(hit) && hit.kind is Symmetry ==> registered(r, hit, source).symmetric.contains((hit.rel->0, source)),
        hit.kind is Transitivity && hit.rel is Some ==> registered(r, hit, source).transitive.contains((hit.rel->0, source)),
        hit.kind is Inverse && hit.rel is Some && hit.rel2 is Some ==> registered(r, hit, source).inverse.contains(
            (hit.rel->0, hit.rel2->0, source),
        ),
        hit.rel is None ==> registered(r, hit, source) == r,
{
    let a = registered(r, hit, source);
    if let Some(x) = hit.rel {
        if hit.kind is Symmetry {
            assert(a.symmetric[r.symmetric.len() as int] == (x, source));
        }
        if hit.kind is Transitivity {
            assert(a.transitive[r.transitive.len() as int] == (x, source));
        }
        if let Some(y) = hit.rel2 {
            if hit.kind is Inverse {
                assert(a.inverse[r.inverse.len() as int] == (x, y, source));
            }
        }
    }
}

/// The pre-pass probes every clause of one to four literals that has variables, all of them
/// canonical, and no other.
pub proof fn law_which_clauses_are_probed(table: Map<u64, SchemaKind>, c: ClauseView, ids: Seq<SymbolId>)
    ensures
        c.lits.len() <= 4 && c.nvars > 0 && all_canonical(ids, c.lits) ==> mined_hit(table, c, ids) == probed(
            table,
            slotted_lits(ids, c.lits),
        ),
        mined_hit(table, c, ids) is Some ==> c.lits.len() <= 4 && c.nvars > 0,
{
}

} // verus!
