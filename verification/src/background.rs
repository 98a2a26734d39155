//! The background of a search: its clauses, what of them a probe can find, and
//! frozen copies to begin later searches with.
use std::collections::{HashMap, HashSet};

use vstd::prelude::*;

use crate::canon::CanonVars;
use crate::schema::{SchemaHit, SchemaTable};
use crate::schema_apply::{absorbs, clause_views, mined, registered, PClause, RegistryView, SchemaRegistry};
use crate::term::{Term, Tree};
use crate::types::{SentenceId, SymbolId};
use crate::units::{ground_of, with_unit, Atom, AtomId, AtomInfo, UnitStores, UnitsView, PATTERN_SLOTS};

verus! {

broadcast use vstd::std_specs::hash::group_hash_axioms;

/// A literal of a clause.
pub struct BgLit {
    pub pos: bool,
    pub atom: Atom,
}

/// A literal with its atom as a tree.
pub struct BgLitView {
    pub pos: bool,
    pub id: AtomId,
    pub term: Tree,
    pub info: AtomInfo,
}

impl View for BgLit {
    type V = BgLitView;

    open spec fn view(&self) -> BgLitView {
        BgLitView { pos: self.pos, id: self.atom.id, term: self.atom.term@, info: self.atom.info }
    }
}

/// The views of the literals.
pub open spec fn bg_lits(lits: Seq<BgLit>) -> Seq<BgLitView> {
    Seq::new(lits.len(), |i: int| lits[i]@)
}

/// A clause of the arena: its literals, the number of its variables, whether it
/// is active, the root it comes from (none for a clause of a theory), and its
/// key among equal clauses.
pub struct ClauseRec {
    pub lits: Vec<BgLit>,
    pub nvars: u32,
    pub activated: bool,
    pub source: Option<SentenceId>,
    pub key: u64,
}

/// A clause with its literals' views.
#[verifier::ext_equal]
pub struct RecView {
    pub lits: Seq<BgLitView>,
    pub nvars: u32,
    pub activated: bool,
    pub source: Option<SentenceId>,
    pub key: u64,
}

impl View for ClauseRec {
    type V = RecView;

    open spec fn view(&self) -> RecView {
        RecView {
            lits: bg_lits(self.lits@),
            nvars: self.nvars,
            activated: self.activated,
            source: self.source,
            key: self.key,
        }
    }
}

/// The views of the clauses.
pub open spec fn rec_views(recs: Seq<ClauseRec>) -> Seq<RecView> {
    Seq::new(recs.len(), |i: int| recs[i]@)
}

impl Clone for ClauseRec {
    fn clone(&self) -> (r: ClauseRec)
        ensures
            r@ == self@,
    {
        let mut lits: Vec<BgLit> = Vec::new();
        let mut i: usize = 0;
        while i < self.lits.len()
            invariant
                i <= self.lits@.len(),
                lits@.len() == i,
                forall|k: int| 0 <= k < i ==> (#[trigger] lits@[k])@ == self.lits@[k]@,
            decreases self.lits@.len() - i,
        {
            let l: &BgLit = &self.lits[i];
            lits.push(
                BgLit { pos: l.pos, atom: Atom { id: l.atom.id, term: l.atom.term.clone(), info: l.atom.info } },
            );
            i += 1;
        }
        let r = ClauseRec {
            lits,
            nvars: self.nvars,
            activated: self.activated,
            source: self.source,
            key: self.key,
        };
        assert(r@ =~= self@);
        r
    }
}

/// A literal that a probe can find: its clause, its place there, its polarity
/// and its atom.
#[derive(Clone, Copy, Debug, PartialEq, Eq, Structural)]
pub struct EntryRef {
    pub clause: u32,
    pub lit: usize,
    pub pos: bool,
    pub atom: AtomId,
}

/// An entry with its place as an integer.
pub struct EntryView {
    pub clause: u32,
    pub lit: int,
    pub pos: bool,
    pub atom: AtomId,
}

impl View for EntryRef {
    type V = EntryView;

    open spec fn view(&self) -> EntryView {
        EntryView { clause: self.clause, lit: self.lit as int, pos: self.pos, atom: self.atom }
    }
}

/// The views of the entries.
pub open spec fn entry_views(es: Seq<EntryRef>) -> Seq<EntryView> {
    Seq::new(es.len(), |i: int| es[i]@)
}

/// What probes can find: the keys of the clauses seen, their literals, and the
/// unit clauses among them.
#[verifier::ext_equal]
pub struct SurfaceView {
    pub seen: Set<u64>,
    pub idx: Seq<EntryView>,
    pub units: UnitsView,
}

/// The entries of the clause `id`.
pub open spec fn entries_of(id: u32, lits: Seq<BgLitView>) -> Seq<EntryView> {
    Seq::new(lits.len(), |i: int| EntryView { clause: id, lit: i, pos: lits[i].pos, atom: lits[i].id })
}

/// The surface after the clause `id` has been entered.
pub open spec fn with_clause(s: SurfaceView, id: u32, rec: RecView, ids: Seq<SymbolId>) -> SurfaceView {
    SurfaceView {
        seen: s.seen.insert(rec.key),
        idx: s.idx + entries_of(id, rec.lits),
        units: if rec.lits.len() == 1 {
            with_unit(
                s.units,
                id,
                rec.lits[0].pos,
                rec.lits[0].id,
                rec.lits[0].term,
                rec.lits[0].info,
                rec.nvars,
                ids,
            )
        } else {
            s.units
        },
    }
}

/// A surface where probes find nothing.
pub open spec fn bare_surface() -> SurfaceView {
    SurfaceView {
        seen: Set::empty(),
        idx: Seq::empty(),
        units: UnitsView {
            ground_pos: Map::empty(),
            ground_neg: Map::empty(),
            open: Seq::empty(),
            equals: Seq::empty(),
        },
    }
}

/// The surface of those of the first `n` clauses that are shown.
pub open spec fn surface_of(recs: Seq<RecView>, shown: Seq<bool>, n: nat, ids: Seq<SymbolId>) -> SurfaceView
    decreases n,
{
    if n == 0 || n > recs.len() {
        bare_surface()
    } else {
        let before = surface_of(recs, shown, (n - 1) as nat, ids);
        if shown[n - 1] {
            with_clause(before, (n - 1) as u32, recs[n - 1], ids)
        } else {
            before
        }
    }
}

/// A clause stays where only the roots in `keep` do: it is active, and comes
/// from one of them or from no root.
pub open spec fn stays(rec: RecView, keep: Set<SentenceId>) -> bool {
    rec.activated && (rec.source matches Some(sid) ==> keep.contains(sid))
}

/// The clauses that stay.
pub open spec fn staying(recs: Seq<RecView>, keep: Set<SentenceId>) -> Seq<bool> {
    Seq::new(recs.len(), |i: int| stays(recs[i], keep))
}

/// The contents of a background.
#[verifier::ext_equal]
pub struct BackgroundView {
    pub roots: Seq<SentenceId>,
    pub recs: Seq<RecView>,
    pub shown: Seq<bool>,
    pub seeds: Seq<(AtomId, u32)>,
    pub schemas: RegistryView,
    pub eq_terms: Map<u64, Tree>,
}

/// No theory rule found.
pub open spec fn no_schemas() -> RegistryView {
    RegistryView {
        mined_symmetric: 0,
        mined_transitive: 0,
        mined_other: 0,
        symmetric: Seq::empty(),
        transitive: Seq::empty(),
        antisymmetric: Map::empty(),
        irreflexive: Map::empty(),
        inverse: Seq::empty(),
    }
}

/// The trees of the terms.
pub open spec fn term_trees(m: Map<u64, Term>) -> Map<u64, Tree> {
    m.map_values(|t: Term| t@)
}

/// The clauses of a search before its goal is loaded, what of them probes can
/// find, the theory rules found in them and the terms that equations name.
pub struct Background {
    roots: Vec<SentenceId>,
    recs: Vec<ClauseRec>,
    shown: Vec<bool>,
    seeds: Vec<(AtomId, u32)>,
    schemas: SchemaRegistry,
    eq_terms: HashMap<u64, Term>,
    seen: HashSet<u64>,
    idx: Vec<EntryRef>,
    units: UnitStores,
}

/// A frozen background.
pub struct ProverSnapshot {
    roots: Vec<SentenceId>,
    recs: Vec<ClauseRec>,
    shown: Vec<bool>,
    seeds: Vec<(AtomId, u32)>,
    schemas: SchemaRegistry,
    eq_terms: HashMap<u64, Term>,
}

impl View for ProverSnapshot {
    type V = BackgroundView;

    closed spec fn view(&self) -> BackgroundView {
        BackgroundView {
            roots: self.roots@,
            recs: rec_views(self.recs@),
            shown: self.shown@,
            seeds: self.seeds@,
            schemas: self.schemas@,
            eq_terms: term_trees(self.eq_terms@),
        }
    }
}

impl ProverSnapshot {
    /// For each clause it is known whether it is shown, and clauses can be told
    /// apart by number.
    pub closed spec fn wf(&self) -> bool {
        self.shown@.len() == self.recs@.len() && self.recs@.len() <= u32::MAX
    }

    /// The number of roots loaded.
    pub fn loaded_roots(&self) -> (n: usize)
        ensures
            n == self@.roots.len(),
    {
        self.roots.len()
    }
}

impl View for Background {
    type V = BackgroundView;

    closed spec fn view(&self) -> BackgroundView {
        BackgroundView {
            roots: self.roots@,
            recs: rec_views(self.recs@),
            shown: self.shown@,
            seeds: self.seeds@,
            schemas: self.schemas@,
            eq_terms: term_trees(self.eq_terms@),
        }
    }
}

fn copy_recs(recs: &Vec<ClauseRec>) -> (r: Vec<ClauseRec>)
    ensures
        rec_views(r@) == rec_views(recs@),
{
    let mut out: Vec<ClauseRec> = Vec::new();
    let mut i: usize = 0;
    while i < recs.len()
        invariant
            i <= recs@.len(),
            out@.len() == i,
            forall|k: int| 0 <= k < i ==> (#[trigger] out@[k])@ == recs@[k]@,
        decreases recs@.len() - i,
    {
        let rec: ClauseRec = recs[i].clone();
        out.push(rec);
        i += 1;
    }
    assert(rec_views(out@) =~= rec_views(recs@));
    out
}

pub(crate) fn copy_all<T: Copy>(xs: &Vec<T>) -> (r: Vec<T>)
    ensures
        r@ == xs@,
{
    let mut out: Vec<T> = Vec::new();
    let mut i: usize = 0;
    while i < xs.len()
        invariant
            i <= xs@.len(),
            out@ == xs@.take(i as int),
        decreases xs@.len() - i,
    {
        out.push(xs[i]);
        assert(out@ =~= xs@.take(i + 1));
        i += 1;
    }
    assert(out@ =~= xs@);
    out
}

impl Background {
    /// What probes find.
    pub closed spec fn surface(&self) -> SurfaceView {
        SurfaceView { seen: self.seen@, idx: entry_views(self.idx@), units: self.units@ }
    }

    /// Probes find the shown clauses and nothing else.
    pub closed spec fn wf(&self, ids: Seq<SymbolId>) -> bool {
        &&& self.shown@.len() == self.recs@.len()
        &&& self.recs@.len() <= u32::MAX
        &&& self.units.wf()
        &&& self.surface() == surface_of(rec_views(self.recs@), self.shown@, self.recs@.len(), ids)
    }

    /// Probes find the shown clauses and nothing else, whatever was loaded,
    /// frozen or narrowed before.
    pub proof fn law_probes_find_the_shown_clauses(&self, ids: Seq<SymbolId>)
        requires
            self.wf(ids),
        ensures
            self@.shown.len() == self@.recs.len(),
            self.surface() == surface_of(self@.recs, self@.shown, self@.recs.len(), ids),
    {
    }

    /// A background without clauses.
    pub fn new(canon: &CanonVars) -> (b: Background)
        ensures
            b.wf(canon@),
            b@ == (BackgroundView {
                roots: Seq::empty(),
                recs: Seq::empty(),
                shown: Seq::empty(),
                seeds: Seq::empty(),
                schemas: no_schemas(),
                eq_terms: Map::empty(),
            }),
    {
        let b = Background {
            roots: Vec::new(),
            recs: Vec::new(),
            shown: Vec::new(),
            seeds: Vec::new(),
            schemas: SchemaRegistry::new(),
            eq_terms: HashMap::new(),
            seen: HashSet::new(),
            idx: Vec::new(),
            units: UnitStores::new(),
        };
        assert(b.surface() =~= bare_surface());
        assert(b@.recs =~= Seq::empty());
        assert(b@.schemas =~= no_schemas());
        assert(b@.eq_terms =~= Map::empty());
        b
    }

    /// Enters a clause into what probes find.
    fn show(&mut self, at: usize, canon: &CanonVars)
        requires
            at < old(self).recs@.len(),
            at <= u32::MAX,
            old(self).units.wf(),
            canon@.len() <= PATTERN_SLOTS,
        ensures
            final(self).roots == old(self).roots,
            final(self).recs == old(self).recs,
            final(self).shown == old(self).shown,
            final(self).seeds == old(self).seeds,
            final(self).schemas == old(self).schemas,
            final(self).eq_terms == old(self).eq_terms,
            final(self).units.wf(),
            final(self).surface() == with_clause(
                old(self).surface(),
                at as u32,
                old(self).recs@[at as int]@,
                canon@,
            ),
    {
        let ghost s0 = self.surface();
        let ghost rec = self.recs@[at as int]@;
        let id: u32 = at as u32;
        self.seen.insert(self.recs[at].key);
        let n: usize = self.recs[at].lits.len();
        let mut i: usize = 0;
        assert(entry_views(self.idx@) =~= s0.idx + entries_of(id, rec.lits).take(0));
        while i < n
            invariant
                i <= n,
                at < self.recs@.len(),
                rec == self.recs@[at as int]@,
                n == self.recs@[at as int].lits@.len(),
                self.roots == old(self).roots,
                self.recs == old(self).recs,
                self.shown == old(self).shown,
                self.seeds == old(self).seeds,
                self.schemas == old(self).schemas,
                self.eq_terms == old(self).eq_terms,
                self.units == old(self).units,
                self.seen@ == s0.seen.insert(rec.key),
                entry_views(self.idx@) == s0.idx + entries_of(id, rec.lits).take(i as int),
            decreases n - i,
        {
            let e: EntryRef = EntryRef {
                clause: id,
                lit: i,
                pos: self.recs[at].lits[i].pos,
                atom: self.recs[at].lits[i].atom.id,
            };
            let ghost before = self.idx@;
            self.idx.push(e);
            proof {
                assert(rec.lits[i as int] == self.recs@[at as int].lits@[i as int]@);
                assert(entry_views(self.idx@) =~= entry_views(before).push(e@));
                assert(entries_of(id, rec.lits).take(i + 1) =~= entries_of(id, rec.lits).take(i as int).push(e@));
                assert(entry_views(self.idx@) =~= s0.idx + entries_of(id, rec.lits).take(i + 1));
            }
            i += 1;
        }
        assert(entries_of(id, rec.lits).take(n as int) =~= entries_of(id, rec.lits));
        if n == 1 {
            let l: &BgLit = &self.recs[at].lits[0];
            assert(rec.lits[0] == l@);
            self.units.add_unit(id, l.pos, &l.atom, self.recs[at].nvars, canon);
        }
        assert(self.surface() =~= with_clause(s0, id, rec, canon@));
    }

    /// Loads a clause, unless an equal one is seen; an active clause is found by
    /// probes from there on.  Its number.
    pub fn load_clause(&mut self, rec: ClauseRec, canon: &CanonVars) -> (r: Option<u32>)
        requires
            old(self).wf(canon@),
            canon@.len() <= PATTERN_SLOTS,
            old(self)@.recs.len() < u32::MAX,
        ensures
            final(self).wf(canon@),
            r == if old(self).surface().seen.contains(rec.key) {
                None
            } else {
                Some(old(self)@.recs.len() as u32)
            },
            final(self)@ == if old(self).surface().seen.contains(rec.key) {
                old(self)@
            } else {
                BackgroundView {
                    recs: old(self)@.recs.push(rec@),
                    shown: old(self)@.shown.push(rec.activated),
                    ..old(self)@
                }
            },
            final(self).surface() == if old(self).surface().seen.contains(rec.key) || !rec.activated {
                old(self).surface()
            } else {
                with_clause(old(self).surface(), old(self)@.recs.len() as u32, rec@, canon@)
            },
    {
        if self.seen.contains(&rec.key) {
            return None;
        }
        let ghost rs = rec_views(self.recs@);
        let ghost sh = self.shown@;
        let at: usize = self.recs.len();
        let active: bool = rec.activated;
        self.recs.push(rec);
        self.shown.push(active);
        proof {
            assert(rec_views(self.recs@) =~= rs.push(rec@));
            lemma_surface_grows(rs, sh, rec@, active, at as nat, canon@);
        }
        if active {
            self.show(at, canon);
        }
        Some(at as u32)
    }

    /// Notes that the clauses of a root are loaded.
    pub fn add_background_root(&mut self, root: SentenceId, canon: &CanonVars)
        requires
            old(self).wf(canon@),
        ensures
            final(self).wf(canon@),
            final(self).surface() == old(self).surface(),
            final(self)@ == (BackgroundView {
                roots: if old(self)@.roots.contains(root) {
                    old(self)@.roots
                } else {
                    old(self)@.roots.push(root)
                },
                ..old(self)@
            }),
    {
        let mut i: usize = 0;
        while i < self.roots.len()
            invariant
                i <= self.roots@.len(),
                *self == *old(self),
                old(self).wf(canon@),
                forall|k: int| 0 <= k < i ==> self.roots@[k] != root,
            decreases self.roots@.len() - i,
        {
            if self.roots[i] == root {
                return;
            }
            i += 1;
        }
        self.roots.push(root);
    }

    /// Notes a seed of the support.
    pub fn add_seed(&mut self, atom: AtomId, clause: u32, canon: &CanonVars)
        requires
            old(self).wf(canon@),
        ensures
            final(self).wf(canon@),
            final(self).surface() == old(self).surface(),
            final(self)@ == (BackgroundView { seeds: old(self)@.seeds.push((atom, clause)), ..old(self)@ }),
    {
        self.seeds.push((atom, clause));
    }

    /// Registers the theory rules that the clauses of a root state, unless the
    /// channel is switched off.
    pub fn mine_schema(
        &mut self,
        enabled: bool,
        table: &SchemaTable,
        clauses: &Vec<PClause>,
        canon: &CanonVars,
        root: SentenceId,
    )
        requires
            old(self).wf(canon@),
            crate::schema_apply::room(old(self)@.schemas, clauses@.len()),
            canon@.len() <= u32::MAX,
        ensures
            final(self).wf(canon@),
            final(self).surface() == old(self).surface(),
            final(self)@ == (BackgroundView {
                schemas: if enabled {
                    mined(old(self)@.schemas, table@, clause_views(clauses@), canon@, root)
                } else {
                    old(self)@.schemas
                },
                ..old(self)@
            }),
    {
        self.schemas.mine_schema(enabled, table, clauses, canon, root);
    }

    /// Registers a theory rule, and says whether the clause that states it can be
    /// dropped.
    pub fn apply_schema_hit(&mut self, hit: &SchemaHit, source: Option<SentenceId>, canon: &CanonVars) -> (absorb: bool)
        requires
            old(self).wf(canon@),
            crate::schema_apply::room(old(self)@.schemas, 1),
        ensures
            final(self).wf(canon@),
            final(self).surface() == old(self).surface(),
            absorb == absorbs(hit@),
            final(self)@ == (BackgroundView { schemas: registered(old(self)@.schemas, hit@, source), ..old(self)@ }),
    {
        self.schemas.apply_schema_hit(hit, source)
    }

    /// The theory rules found.
    pub fn schemas(&self) -> (r: &SchemaRegistry)
        ensures
            r@ == self@.schemas,
    {
        &self.schemas
    }

    /// Keeps a term that an equation names, under its key.
    pub fn keep_eq_term(&mut self, key: u64, term: Term, canon: &CanonVars)
        requires
            old(self).wf(canon@),
        ensures
            final(self).wf(canon@),
            final(self).surface() == old(self).surface(),
            final(self)@ == (BackgroundView { eq_terms: old(self)@.eq_terms.insert(key, term@), ..old(self)@ }),
    {
        self.eq_terms.insert(key, term);
        assert(self@.eq_terms =~= old(self)@.eq_terms.insert(key, term@));
    }

    /// The term that was kept under the key.
    pub fn eq_term(&self, key: u64) -> (r: Option<&Term>)
        ensures
            match r {
                Some(t) => self@.eq_terms.dom().contains(key) && t@ == self@.eq_terms[key],
                None => !self@.eq_terms.dom().contains(key),
            },
    {
        self.eq_terms.get(&key)
    }

    /// The number of clauses in the arena.
    pub fn clause_count(&self) -> (n: usize)
        ensures
            n == self@.recs.len(),
    {
        self.recs.len()
    }

    /// The unit clause with exactly this ground literal that probes find.
    pub fn ground_unit(&self, pos: bool, atom: AtomId) -> (r: Option<u32>)
        ensures
            r == crate::units::ground_of(self.surface().units, pos, atom),
    {
        self.units.ground_unit(pos, atom)
    }

    /// The literals that probes find.
    pub fn entries(&self) -> (r: &Vec<EntryRef>)
        ensures
            entry_views(r@) == self.surface().idx,
    {
        &self.idx
    }

    /// A frozen copy.
    pub fn freeze(&self, canon: &CanonVars) -> (s: ProverSnapshot)
        requires
            self.wf(canon@),
        ensures
            s.wf(),
            s@ == self@,
    {
        let s = ProverSnapshot {
            roots: copy_all(&self.roots),
            recs: copy_recs(&self.recs),
            shown: copy_all(&self.shown),
            seeds: copy_all(&self.seeds),
            schemas: self.schemas.copy(),
            eq_terms: self.eq_terms.clone(),
        };
        assert(rec_views(s.recs@).len() == rec_views(self.recs@).len());
        s
    }

    /// A background with the contents of a frozen copy.
    pub fn from_snapshot(s: &ProverSnapshot, canon: &CanonVars) -> (b: Background)
        requires
            s.wf(),
            canon@.len() <= PATTERN_SLOTS,
        ensures
            b.wf(canon@),
            b@ == s@,
    {
        let mut b = Background {
            roots: copy_all(&s.roots),
            recs: copy_recs(&s.recs),
            shown: copy_all(&s.shown),
            seeds: copy_all(&s.seeds),
            schemas: s.schemas.copy(),
            eq_terms: s.eq_terms.clone(),
            seen: HashSet::new(),
            idx: Vec::new(),
            units: UnitStores::new(),
        };
        assert(rec_views(b.recs@).len() == rec_views(s.recs@).len());
        assert(b.surface() =~= bare_surface());
        b.rebuild(canon);
        b
    }

    /// Enters the shown clauses into an empty surface.
    fn rebuild(&mut self, canon: &CanonVars)
        requires
            old(self).shown@.len() == old(self).recs@.len(),
            old(self).recs@.len() <= u32::MAX,
            old(self).units.wf(),
            old(self).surface() == bare_surface(),
            canon@.len() <= PATTERN_SLOTS,
        ensures
            final(self).wf(canon@),
            final(self)@ == old(self)@,
    {
        let ghost rs = rec_views(self.recs@);
        let mut i: usize = 0;
        while i < self.recs.len()
            invariant
                i <= self.recs@.len(),
                self.shown@.len() == self.recs@.len(),
                self.recs@.len() <= u32::MAX,
                self.units.wf(),
                canon@.len() <= PATTERN_SLOTS,
                rs == rec_views(self.recs@),
                self@ == old(self)@,
                self.surface() == surface_of(rs, self.shown@, i as nat, canon@),
            decreases self.recs@.len() - i,
        {
            if self.shown[i] {
                self.show(i, canon);
            }
            i += 1;
        }
    }

    /// Narrows what probes find to the clauses of the roots in `keep`, together
    /// with those of no root.  Every clause stays in the arena under its number,
    /// and what was found in the others stays known; the seeds of the support are
    /// dropped.
    pub fn retain_background(&mut self, keep: &HashSet<SentenceId>, canon: &CanonVars)
        requires
            old(self).wf(canon@),
            canon@.len() <= PATTERN_SLOTS,
        ensures
            final(self).wf(canon@),
            final(self)@ == (BackgroundView {
                shown: staying(old(self)@.recs, keep@),
                seeds: Seq::empty(),
                ..old(self)@
            }),
    {
        let ghost rs = rec_views(self.recs@);
        let mut shown: Vec<bool> = Vec::new();
        let mut i: usize = 0;
        while i < self.recs.len()
            invariant
                i <= self.recs@.len(),
                *self == *old(self),
                rs == rec_views(self.recs@),
                shown@ == staying(rs, keep@).take(i as int),
            decreases self.recs@.len() - i,
        {
            let rec: &ClauseRec = &self.recs[i];
            let kept: bool = rec.activated && match rec.source {
                Some(sid) => keep.contains(&sid),
                None => true,
            };
            shown.push(kept);
            proof {
                assert(rs[i as int] == rec@);
                assert(shown@ =~= staying(rs, keep@).take(i + 1));
            }
            i += 1;
        }
        assert(shown@ =~= staying(rs, keep@));
        self.shown = shown;
        self.seeds = Vec::new();
        self.seen = HashSet::new();
        self.idx = Vec::new();
        self.units = UnitStores::new();
        assert(self.surface() =~= bare_surface());
        self.rebuild(canon);
    }
}

proof fn lemma_surface_grows(rs: Seq<RecView>, sh: Seq<bool>, rec: RecView, active: bool, n: nat, ids: Seq<SymbolId>)
    requires
        n <= rs.len(),
        sh.len() == rs.len(),
    ensures
        surface_of(rs.push(rec), sh.push(active), n, ids) == surface_of(rs, sh, n, ids),
    decreases n,
{
    if n > 0 {
        lemma_surface_grows(rs, sh, rec, active, (n - 1) as nat, ids);
        assert(rs.push(rec)[n - 1] == rs[n - 1]);
        assert(sh.push(active)[n - 1] == sh[n - 1]);
    }
}

proof fn lemma_surface_shows(recs: Seq<RecView>, shown: Seq<bool>, n: nat, ids: Seq<SymbolId>, k: int)
    requires
        n <= recs.len(),
        recs.len() <= u32::MAX,
        shown.len() == recs.len(),
        0 <= k < surface_of(recs, shown, n, ids).idx.len(),
    ensures
        ({
            let e = surface_of(recs, shown, n, ids).idx[k];
            &&& e.clause < n
            &&& shown[e.clause as int]
            &&& 0 <= e.lit < recs[e.clause as int].lits.len()
            &&& e.pos == recs[e.clause as int].lits[e.lit].pos
            &&& e.atom == recs[e.clause as int].lits[e.lit].id
        }),
    decreases n,
{
    if n > 0 {
        let before = surface_of(recs, shown, (n - 1) as nat, ids);
        if k < before.idx.len() {
            lemma_surface_shows(recs, shown, (n - 1) as nat, ids, k);
        } else {
            assert(shown[n - 1]);
            assert(n - 1 == (n - 1) as u32);
        }
    }
}

/// The entry of a ground unit names a clause below `n` that is shown.
pub open spec fn units_shown(units: UnitsView, shown: Seq<bool>, n: nat) -> bool {
    &&& forall|a: AtomId| #[trigger]
        units.ground_pos.dom().contains(a) ==> units.ground_pos[a] < n && shown[units.ground_pos[a] as int]
    &&& forall|a: AtomId| #[trigger]
        units.ground_neg.dom().contains(a) ==> units.ground_neg[a] < n && shown[units.ground_neg[a] as int]
    &&& forall|i: int|
        0 <= i < units.open.len() ==> (#[trigger] units.open[i]).1.clause < n && shown[units.open[i].1.clause as int]
    &&& forall|i: int|
        0 <= i < units.equals.len() ==> (#[trigger] units.equals[i]).0 < n && shown[units.equals[i].0 as int]
}

proof fn lemma_units_shown(recs: Seq<RecView>, shown: Seq<bool>, n: nat, ids: Seq<SymbolId>)
    requires
        n <= recs.len(),
        recs.len() <= u32::MAX,
        shown.len() == recs.len(),
    ensures
        units_shown(surface_of(recs, shown, n, ids).units, shown, n),
    decreases n,
{
    if n > 0 {
        lemma_units_shown(recs, shown, (n - 1) as nat, ids);
        assert(n - 1 == (n - 1) as u32);
    }
}

/// After a narrowing no probe finds a clause of a root that is not kept: neither
/// among the literals nor among the units.
pub proof fn law_masked_clauses_are_not_found(recs: Seq<RecView>, keep: Set<SentenceId>, ids: Seq<SymbolId>, k: int)
    requires
        recs.len() <= u32::MAX,
        0 <= k < surface_of(recs, staying(recs, keep), recs.len(), ids).idx.len(),
    ensures
        ({
            let surface = surface_of(recs, staying(recs, keep), recs.len(), ids);
            &&& surface.idx[k].clause < recs.len()
            &&& stays(recs[surface.idx[k].clause as int], keep)
            &&& units_shown(surface.units, staying(recs, keep), recs.len())
        }),
{
    lemma_surface_shows(recs, staying(recs, keep), recs.len(), ids, k);
    lemma_units_shown(recs, staying(recs, keep), recs.len(), ids);
}

proof fn lemma_entry_found(recs: Seq<RecView>, shown: Seq<bool>, n: nat, ids: Seq<SymbolId>, c: int, l: int) -> (k: int)
    requires
        n <= recs.len(),
        recs.len() <= u32::MAX,
        shown.len() == recs.len(),
        0 <= c < n,
        shown[c],
        0 <= l < recs[c].lits.len(),
    ensures
        0 <= k < surface_of(recs, shown, n, ids).idx.len(),
        surface_of(recs, shown, n, ids).idx[k].clause == c,
        surface_of(recs, shown, n, ids).idx[k].lit == l,
    decreases n,
{
    let before = surface_of(recs, shown, (n - 1) as nat, ids);
    if c == n - 1 {
        let k = before.idx.len() + l;
        assert(surface_of(recs, shown, n, ids).idx[k] == entries_of(c as u32, recs[c].lits)[l]);
        k
    } else {
        lemma_entry_found(recs, shown, (n - 1) as nat, ids, c, l)
    }
}

/// After a narrowing every literal of a clause that stays is found.
pub proof fn law_kept_clauses_are_found(
    recs: Seq<RecView>,
    keep: Set<SentenceId>,
    ids: Seq<SymbolId>,
    c: int,
    l: int,
) -> (k: int)
    requires
        recs.len() <= u32::MAX,
        0 <= c < recs.len(),
        stays(recs[c], keep),
        0 <= l < recs[c].lits.len(),
    ensures
        0 <= k < surface_of(recs, staying(recs, keep), recs.len(), ids).idx.len(),
        surface_of(recs, staying(recs, keep), recs.len(), ids).idx[k].clause == c,
        surface_of(recs, staying(recs, keep), recs.len(), ids).idx[k].lit == l,
{
    lemma_entry_found(recs, staying(recs, keep), recs.len(), ids, c, l)
}

/// Where only some roots are kept, no clause of another root is shown and none that is not
/// active; active clauses of a kept root, and those of no root, are.  More kept roots show
/// no fewer clauses.
pub proof fn law_clauses_stay_with_their_root(rec: RecView, keep: Set<SentenceId>, more: Set<SentenceId>)
    ensures
        !rec.activated ==> !stays(rec, keep),
        rec.source matches Some(sid) ==> !keep.contains(sid) ==> !stays(rec, keep),
        rec.activated && (rec.source matches Some(sid) && keep.contains(sid)) ==> stays(rec, keep),
        rec.activated && rec.source is None ==> stays(rec, keep),
        keep.subset_of(more) && stays(rec, keep) ==> stays(rec, more),
{
}

/// The keys that are taken are those of the clauses that are shown.
pub proof fn law_keys_taken_are_those_shown(
    recs: Seq<RecView>,
    shown: Seq<bool>,
    n: nat,
    ids: Seq<SymbolId>,
    c: int,
)
    requires
        n <= recs.len(),
        recs.len() == shown.len(),
    ensures
        0 <= c < n && shown[c] ==> surface_of(recs, shown, n, ids).seen.contains(recs[c].key),
        (forall|i: int| 0 <= i < n && #[trigger] shown[i] ==> recs[i].key != recs[c].key) ==> !surface_of(
            recs,
            shown,
            n,
            ids,
        ).seen.contains(recs[c].key),
    decreases n,
{
    if n > 0 {
        law_keys_taken_are_those_shown(recs, shown, (n - 1) as nat, ids, c);
        assert(shown[n - 1] == shown[n - 1]);
    }
}

/// A shown clause of one ground literal refutes the opposite literal and subsumes its own,
/// unless an earlier clause does.
pub proof fn law_shown_units_are_met(
    recs: Seq<RecView>,
    shown: Seq<bool>,
    n: nat,
    ids: Seq<SymbolId>,
    c: int,
)
    requires
        n <= recs.len(),
        recs.len() == shown.len(),
        0 <= c < n,
        shown[c],
        recs[c].lits.len() == 1,
        recs[c].lits[0].info.ground,
    ensures
        ground_of(surface_of(recs, shown, n, ids).units, recs[c].lits[0].pos, recs[c].lits[0].id) is Some,
    decreases n,
{
    if c < n - 1 {
        law_shown_units_are_met(recs, shown, (n - 1) as nat, ids, c);
    }
}

} // verus!
