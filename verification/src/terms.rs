//! Facts about ground terms, kept by content key.
use std::collections::HashMap;

use dashmap::DashMap;
use vstd::prelude::*;

use crate::atoms::{
    compound_in, entries_fit, keys_apart, lemma_element_compounds, lemma_interned_fits, lemma_rank, part_of_whole, rank, resolved_body, with_atom, AtomTable,
};
use crate::content::{app_key, lemma_part_taken, lemma_parts_of, part_of, parts_bytes, parts_of, ElementHasher, Part};
use crate::shared::{shared_entries, shared_get, shared_insert, shared_len, shared_new};
use crate::store::{entries_ordered, stored, Element, Entry, Sentence, SyntacticLayer};
use crate::subst::{ground, lemma_ground_app, occurs};
use crate::term::{lemma_app_view, views, Term, Tree};
use crate::term_arena::{leaves, leaves_of};
use crate::text::be_bytes;
use crate::types::{OpKind, SymbolId};
use crate::units::{op_tag, op_tag_spec, AtomId};

verus! {

broadcast use {lemma_app_view, vstd::std_specs::hash::group_hash_axioms};

/// Identity of a ground compound term: its content key.
pub type TermKey = u64;

// ---------------------------------------------------------------------------
// Leaf weights
// ---------------------------------------------------------------------------

/// The weights of leaves: one for a leaf without an entry.
pub struct KboOrdering {
    weights: HashMap<SymbolId, u64>,
}

impl View for KboOrdering {
    type V = Map<SymbolId, u64>;

    closed spec fn view(&self) -> Map<SymbolId, u64> {
        self.weights@
    }
}

/// The weight of a leaf.
pub open spec fn leaf_weight(w: Map<SymbolId, u64>, p: Part) -> u64 {
    match p {
        Part::Sym(id) => if w.dom().contains(id) {
            w[id]
        } else {
            1
        },
        _ => 1,
    }
}

impl KboOrdering {
    /// Every leaf weighs one.
    pub fn new() -> (k: KboOrdering)
        ensures
            k@ == Map::<SymbolId, u64>::empty(),
    {
        KboOrdering { weights: HashMap::new() }
    }

    /// Gives a symbol another weight.
    pub fn set_weight(&mut self, id: SymbolId, weight: u64)
        ensures
            final(self)@ == old(self)@.insert(id, weight),
    {
        self.weights.insert(id, weight);
    }

    /// The weight of symbol `id`.
    pub fn symbol_weight(&self, id: SymbolId) -> (w: u64)
        ensures
            w == leaf_weight(self@, Part::Sym(id)),
    {
        match self.weights.get(&id) {
            Some(w) => *w,
            None => 1,
        }
    }
}

// ---------------------------------------------------------------------------
// Facts
// ---------------------------------------------------------------------------

/// Facts of one ground term.
#[derive(Clone, Copy, Debug, PartialEq, Eq, Structural)]
pub struct PTermFacts {
    /// The number of leaves.
    pub size: u16,
    /// The depth: none for a leaf, one for a flat compound.
    pub depth: u8,
    /// One bit for each symbol and operator, by its key modulo 64.
    pub sym_bloom: u64,
    /// The sum of the weights of the leaves.
    pub kbo_weight: u64,
}

/// The bloom bit of a symbol.
pub open spec fn symbol_bit(id: SymbolId) -> u64 {
    1u64 << (id % 64)
}

/// The bloom key of an operator: its tag.
pub open spec fn op_bloom(op: OpKind) -> u64 {
    op_tag_spec(op) as u64
}

/// The bloom bit of a symbol.
pub fn bloom_bit_symbol(id: SymbolId) -> (b: u64)
    ensures
        b == symbol_bit(id),
{
    1u64 << (id % 64)
}

/// The bloom key of an operator.
pub fn op_bloom_key(op: &OpKind) -> (k: u64)
    ensures
        k == op_bloom(*op),
{
    op_tag(op) as u64
}

/// The bloom bit of an operator.
pub fn bloom_bit_op(op: &OpKind) -> (b: u64)
    ensures
        b == symbol_bit(op_bloom(*op)),
{
    bloom_bit_symbol(op_bloom_key(op))
}

/// The bloom bit of a leaf; literals have none.
pub open spec fn leaf_bloom(p: Part) -> u64 {
    match p {
        Part::Sym(id) => symbol_bit(id),
        Part::Op(op) => symbol_bit(op_bloom(op)),
        _ => 0,
    }
}

/// The depth of a tree.
pub open spec fn depth(t: Tree) -> nat
    decreases t,
{
    match t {
        Tree::App(ts) => 1 + depths(ts),
        _ => 0,
    }
}

/// The greatest depth of a sequence of trees.
pub open spec fn depths(ts: Seq<Tree>) -> nat
    decreases ts,
{
    if ts.len() == 0 {
        0
    } else {
        let d = depths(ts.drop_last());
        let e = depth(ts.last());
        if d >= e {
            d
        } else {
            e
        }
    }
}

/// The bloom of a tree: the bits of all its symbols and operators.
pub open spec fn bloom(t: Tree) -> u64
    decreases t,
{
    match t {
        Tree::App(ts) => blooms(ts),
        _ => leaf_bloom(part_of(t)),
    }
}

/// The bloom of a sequence of trees.
pub open spec fn blooms(ts: Seq<Tree>) -> u64
    decreases ts,
{
    if ts.len() == 0 {
        0
    } else {
        blooms(ts.drop_last()) | bloom(ts.last())
    }
}

/// The weight of a tree: the sum of the weights of its leaves.
pub open spec fn weight(w: Map<SymbolId, u64>, t: Tree) -> nat
    decreases t,
{
    match t {
        Tree::App(ts) => weight_of(w, ts),
        _ => leaf_weight(w, part_of(t)) as nat,
    }
}

/// The weight of a sequence of trees.
pub open spec fn weight_of(w: Map<SymbolId, u64>, ts: Seq<Tree>) -> nat
    decreases ts,
{
    if ts.len() == 0 {
        0
    } else {
        weight_of(w, ts.drop_last()) + weight(w, ts.last())
    }
}

/// The lesser of two numbers.
pub open spec fn at_most(n: nat, limit: nat) -> nat {
    if n <= limit {
        n
    } else {
        limit
    }
}

/// The facts of a tree.
pub open spec fn tree_facts(w: Map<SymbolId, u64>, t: Tree) -> PTermFacts {
    PTermFacts {
        size: at_most(leaves(t), u16::MAX as nat) as u16,
        depth: at_most(depth(t), u8::MAX as nat) as u8,
        sym_bloom: bloom(t),
        kbo_weight: at_most(weight(w, t), u64::MAX as nat) as u64,
    }
}

/// Facts with those of one more element taken in.
pub open spec fn joined(f: PTermFacts, g: PTermFacts) -> PTermFacts {
    PTermFacts {
        size: at_most(f.size as nat + g.size as nat, u16::MAX as nat) as u16,
        depth: if f.depth >= g.depth {
            f.depth
        } else {
            g.depth
        },
        sym_bloom: f.sym_bloom | g.sym_bloom,
        kbo_weight: at_most(f.kbo_weight as nat + g.kbo_weight as nat, u64::MAX as nat) as u64,
    }
}

/// The facts of no elements.
pub open spec fn no_facts() -> PTermFacts {
    PTermFacts { size: 0, depth: 0, sym_bloom: 0, kbo_weight: 0 }
}

/// The facts of a compound, given those of its elements taken together.
pub open spec fn nested(f: PTermFacts) -> PTermFacts {
    PTermFacts { depth: at_most(f.depth as nat + 1, u8::MAX as nat) as u8, ..f }
}

/// The facts of a leaf.
pub open spec fn leaf_facts_spec(w: Map<SymbolId, u64>, p: Part) -> PTermFacts {
    PTermFacts { size: 1, depth: 0, sym_bloom: leaf_bloom(p), kbo_weight: leaf_weight(w, p) }
}

/// The facts of the elements of a compound taken together.
pub open spec fn elem_facts(w: Map<SymbolId, u64>, ts: Seq<Tree>) -> PTermFacts {
    PTermFacts {
        size: at_most(leaves_of(ts), u16::MAX as nat) as u16,
        depth: at_most(depths(ts), u8::MAX as nat) as u8,
        sym_bloom: blooms(ts),
        kbo_weight: at_most(weight_of(w, ts), u64::MAX as nat) as u64,
    }
}

/// The facts of a compound come from those of its elements, one by one.
proof fn lemma_elem_facts(w: Map<SymbolId, u64>, ts: Seq<Tree>, i: int)
    requires
        0 <= i < ts.len(),
    ensures
        elem_facts(w, ts.take(0)) == no_facts(),
        elem_facts(w, ts.take(i + 1)) == joined(elem_facts(w, ts.take(i)), tree_facts(w, ts[i])),
        nested(elem_facts(w, ts)) == tree_facts(w, Tree::App(ts)),
{
    assert(ts.take(0) =~= Seq::empty());
    assert(ts.take(i + 1).drop_last() =~= ts.take(i));
    assert(ts.take(i + 1).last() == ts[i]);
}

fn join(f: PTermFacts, g: PTermFacts) -> (r: PTermFacts)
    ensures
        r == joined(f, g),
{
    PTermFacts {
        size: f.size.saturating_add(g.size),
        depth: if f.depth >= g.depth {
            f.depth
        } else {
            g.depth
        },
        sym_bloom: f.sym_bloom | g.sym_bloom,
        kbo_weight: f.kbo_weight.saturating_add(g.kbo_weight),
    }
}

fn nest(f: PTermFacts) -> (r: PTermFacts)
    ensures
        r == nested(f),
{
    PTermFacts { depth: f.depth.saturating_add(1), ..f }
}

/// The facts of a symbol.
fn symbol_facts(id: SymbolId, kbo: &KboOrdering) -> (f: PTermFacts)
    ensures
        f == leaf_facts_spec(kbo@, Part::Sym(id)),
{
    PTermFacts { size: 1, depth: 0, sym_bloom: bloom_bit_symbol(id), kbo_weight: kbo.symbol_weight(id) }
}

/// The facts of an operator.
fn op_facts(op: &OpKind) -> (f: PTermFacts)
    ensures
        f == (PTermFacts { size: 1, depth: 0, sym_bloom: symbol_bit(op_bloom(*op)), kbo_weight: 1 }),
{
    PTermFacts { size: 1, depth: 0, sym_bloom: bloom_bit_op(op), kbo_weight: 1 }
}

/// The facts of a literal.
fn literal_facts() -> (f: PTermFacts)
    ensures
        f == (PTermFacts { size: 1, depth: 0, sym_bloom: 0, kbo_weight: 1 }),
{
    PTermFacts { size: 1, depth: 0, sym_bloom: 0, kbo_weight: 1 }
}

// ---------------------------------------------------------------------------
// The table
// ---------------------------------------------------------------------------

/// The facts behind an entry.
pub open spec fn entry_facts(e: (u16, u8, u64, u64)) -> PTermFacts {
    PTermFacts { size: e.0, depth: e.1, sym_bloom: e.2, kbo_weight: e.3 }
}

/// Facts of ground compounds, by content key.
pub struct TermFactsTable {
    map: DashMap<u64, (u16, u8, u64, u64)>,
}

impl View for TermFactsTable {
    type V = Map<TermKey, PTermFacts>;

    closed spec fn view(&self) -> Map<TermKey, PTermFacts> {
        shared_entries(self.map).map_values(|e: (u16, u8, u64, u64)| entry_facts(e))
    }
}

/// The table with facts entered under a key, unless there are some already.
pub open spec fn noted(m: Map<TermKey, PTermFacts>, key: TermKey, f: PTermFacts) -> Map<TermKey, PTermFacts> {
    if m.dom().contains(key) {
        m
    } else {
        m.insert(key, f)
    }
}

/// The table once the facts of `t` have been looked for, and whether `t` is
/// ground: every ground compound met before the first variable is entered.
pub open spec fn walked(m: Map<TermKey, PTermFacts>, w: Map<SymbolId, u64>, t: Tree) -> (
    Map<TermKey, PTermFacts>,
    bool,
)
    decreases t,
{
    match t {
        Tree::Var(_) => (m, false),
        Tree::App(ts) => {
            let (n, ok) = walked_all(m, w, ts);
            if ok {
                (noted(n, app_key(ts), tree_facts(w, t)), true)
            } else {
                (n, false)
            }
        },
        _ => (m, true),
    }
}

/// The same for a sequence, up to the first tree that is not ground.
pub open spec fn walked_all(m: Map<TermKey, PTermFacts>, w: Map<SymbolId, u64>, ts: Seq<Tree>) -> (
    Map<TermKey, PTermFacts>,
    bool,
)
    decreases ts,
{
    if ts.len() == 0 {
        (m, true)
    } else {
        let (n, ok) = walked_all(m, w, ts.drop_last());
        if ok {
            walked(n, w, ts.last())
        } else {
            (n, false)
        }
    }
}

/// The walk succeeds on ground trees alone.
proof fn lemma_walked(m: Map<TermKey, PTermFacts>, w: Map<SymbolId, u64>, t: Tree)
    ensures
        walked(m, w, t).1 == ground(t),
    decreases t,
{
    match t {
        Tree::Var(v) => {
            assert(occurs(v, t));
        },
        Tree::App(ts) => {
            lemma_walked_all(m, w, ts);
            lemma_ground_app(ts);
        },
        _ => {},
    }
}

proof fn lemma_walked_all(m: Map<TermKey, PTermFacts>, w: Map<SymbolId, u64>, ts: Seq<Tree>)
    ensures
        walked_all(m, w, ts).1 == (forall|i: int| 0 <= i < ts.len() ==> ground(#[trigger] ts[i])),
    decreases ts,
{
    if ts.len() > 0 {
        let front = ts.drop_last();
        lemma_walked_all(m, w, front);
        let (n, ok) = walked_all(m, w, front);
        lemma_walked(n, w, ts.last());
        if ok {
            assert forall|i: int| 0 <= i < ts.len() - 1 implies ground(#[trigger] ts[i]) by {
                assert(front[i] == ts[i]);
            }
            assert(ts.last() == ts[ts.len() - 1]);
        } else {
            let i = choose|i: int| 0 <= i < front.len() && !ground(#[trigger] front[i]);
            assert(front[i] == ts[i]);
        }
    }
}

/// The table `n` keeps what `m` holds, and what is new in it are the facts of
/// ground compounds under their own keys.
pub open spec fn memo_grows(m: Map<TermKey, PTermFacts>, n: Map<TermKey, PTermFacts>, w: Map<SymbolId, u64>) -> bool {
    &&& m.submap_of(n)
    &&& forall|k: TermKey| #[trigger] n.dom().contains(k) && !m.dom().contains(k) ==> fact_of(n[k], k, w)
}

/// The facts are those of a ground compound with the given key.
pub open spec fn fact_of(f: PTermFacts, k: TermKey, w: Map<SymbolId, u64>) -> bool {
    exists|ts: Seq<Tree>| k == app_key(ts) && ground(Tree::App(ts)) && #[trigger] tree_facts(w, Tree::App(ts)) == f
}

#[verifier::spinoff_prover]
pub proof fn lemma_memo_trans(
    m: Map<TermKey, PTermFacts>,
    n: Map<TermKey, PTermFacts>,
    o: Map<TermKey, PTermFacts>,
    w: Map<SymbolId, u64>,
)
    requires
        memo_grows(m, n, w),
        memo_grows(n, o, w),
    ensures
        memo_grows(m, o, w),
{
    assert forall|k: TermKey| #[trigger] m.dom().contains(k) implies o.dom().contains(k) && o[k] == m[k] by {
        assert(n.dom().contains(k) && n[k] == m[k]);
    }
    assert forall|k: TermKey| #[trigger] o.dom().contains(k) && !m.dom().contains(k) implies fact_of(o[k], k, w) by {
        if n.dom().contains(k) {
            assert(o[k] == n[k]);
        }
    }
}

/// Looking for the facts of a tree enters nothing but facts.
pub proof fn lemma_walk_grows(m: Map<TermKey, PTermFacts>, w: Map<SymbolId, u64>, t: Tree)
    ensures
        memo_grows(m, walked(m, w, t).0, w),
    decreases t,
{
    if let Tree::App(ts) = t {
        lemma_walk_all_grows(m, w, ts);
        lemma_walked(m, w, t);
        let (n, ok) = walked_all(m, w, ts);
        if ok {
            assert(walked(m, w, t).1);
            let o = noted(n, app_key(ts), tree_facts(w, t));
            assert(memo_grows(n, o, w)) by {
                assert forall|k: TermKey| #[trigger] o.dom().contains(k) && !n.dom().contains(k) implies fact_of(
                    o[k],
                    k,
                    w,
                ) by {
                    assert(tree_facts(w, Tree::App(ts)) == o[k]);
                }
            }
            lemma_memo_trans(m, n, o, w);
        }
    }
}

proof fn lemma_walk_all_grows(m: Map<TermKey, PTermFacts>, w: Map<SymbolId, u64>, ts: Seq<Tree>)
    ensures
        memo_grows(m, walked_all(m, w, ts).0, w),
    decreases ts,
{
    if ts.len() > 0 {
        lemma_walk_all_grows(m, w, ts.drop_last());
        let (n, ok) = walked_all(m, w, ts.drop_last());
        if ok {
            lemma_walk_grows(n, w, ts.last());
            lemma_memo_trans(m, n, walked(n, w, ts.last()).0, w);
        }
    }
}

/// What comes behind a variable plays no part.
proof fn lemma_walk_stops(m: Map<TermKey, PTermFacts>, w: Map<SymbolId, u64>, ts: Seq<Tree>, n: int)
    requires
        0 <= n <= ts.len(),
        !walked_all(m, w, ts.take(n)).1,
    ensures
        walked_all(m, w, ts) == walked_all(m, w, ts.take(n)),
    decreases ts.len() - n,
{
    if n < ts.len() {
        assert(ts.take(n + 1).drop_last() =~= ts.take(n));
        lemma_walk_stops(m, w, ts, n + 1);
    } else {
        assert(ts.take(n) =~= ts);
    }
}

impl TermFactsTable {
    /// A table without entries.
    pub fn new() -> (t: TermFactsTable)
        ensures
            t@ == Map::<TermKey, PTermFacts>::empty(),
    {
        let t = TermFactsTable { map: shared_new() };
        assert(t@ =~= Map::<TermKey, PTermFacts>::empty());
        t
    }

    /// The number of entries.
    pub fn len(&self) -> (n: usize)
        ensures
            n == self@.dom().len(),
    {
        assert(self@.dom() =~= shared_entries(self.map).dom());
        shared_len(&self.map)
    }

    /// The facts entered under a key.
    pub fn get(&self, key: TermKey) -> (r: Option<PTermFacts>)
        ensures
            r == if self@.dom().contains(key) {
                Some(self@[key])
            } else {
                None
            },
    {
        match shared_get(&self.map, key) {
            Some(e) => Some(PTermFacts { size: e.0, depth: e.1, sym_bloom: e.2, kbo_weight: e.3 }),
            None => None,
        }
    }

    /// Enters facts under a key, unless there are some already.
    fn note(&mut self, key: TermKey, f: PTermFacts)
        ensures
            final(self)@ == noted(old(self)@, key, f),
    {
        if shared_get(&self.map, key).is_none() {
            shared_insert(&mut self.map, key, (f.size, f.depth, f.sym_bloom, f.kbo_weight));
            assert(self@ =~= old(self)@.insert(key, f));
        } else {
            assert(self@ =~= old(self)@);
        }
    }

    /// The facts of a ground term; `None` if a variable occurs in it.
    pub fn ground_facts(&mut self, t: &Term, kbo: &KboOrdering) -> (r: Option<PTermFacts>)
        ensures
            final(self)@ == walked(old(self)@, kbo@, t@).0,
            r == if ground(t@) {
                Some(tree_facts(kbo@, t@))
            } else {
                None
            },
    {
        proof {
            lemma_walked(self@, kbo@, t@);
        }
        match t {
            Term::App(_) => match self.ground_key_facts(t, kbo) {
                Some((_, f)) => Some(f),
                None => None,
            },
            Term::Var(_) => None,
            Term::Sym(s) => Some(symbol_facts(s.id(), kbo)),
            Term::Lit(_) => Some(literal_facts()),
            Term::Op(op) => Some(op_facts(op)),
        }
    }

    /// The content key and the facts of a ground compound, every compound
    /// within it entered on the way up; `None` for a leaf, and if a variable
    /// occurs.
    #[verifier::spinoff_prover]
    #[verifier::rlimit(40)]
    pub fn ground_key_facts(&mut self, t: &Term, kbo: &KboOrdering) -> (r: Option<(TermKey, PTermFacts)>)
        ensures
            final(self)@ == walked(old(self)@, kbo@, t@).0,
            r == match t@ {
                Tree::App(ts) => if ground(t@) {
                    Some((app_key(ts), tree_facts(kbo@, t@)))
                } else {
                    None
                },
                _ => None,
            },
        decreases t,
    {
        let elems: &Vec<Term> = match t {
            Term::App(elems) => elems,
            _ => {
                return None;
            },
        };
        let ghost ts = views(elems@);
        let ghost m = self@;
        let ghost w = kbo@;
        proof {
            lemma_walked(m, w, t@);
        }
        let mut h: ElementHasher = ElementHasher::new(elems.len());
        let mut f = PTermFacts { size: 0, depth: 0, sym_bloom: 0, kbo_weight: 0 };
        let mut i: usize = 0;
        assert(ts.take(0) =~= Seq::empty());
        assert(h@ =~= be_bytes(ts.len() as u64) + parts_bytes(parts_of(ts.take(0))));
        while i < elems.len()
            invariant
                i <= elems@.len(),
                t@ == Tree::App(ts),
                ts == views(elems@),
                m == old(self)@,
                w == kbo@,
                walked(m, w, t@).1 == ground(t@),
                h@ == be_bytes(ts.len() as u64) + parts_bytes(parts_of(ts.take(i as int))),
                f == elem_facts(w, ts.take(i as int)),
                walked_all(m, w, ts.take(i as int)) == (self@, true),
                decreases_to!(t => elems@),
            decreases elems@.len() - i,
        {
            let e: &Term = &elems[i];
            proof {
                assert(ts[i as int] == e@);
                lemma_elem_facts(w, ts, i as int);
                lemma_part_taken(ts, i as int);
                assert(ts.take(i + 1).drop_last() =~= ts.take(i as int));
                lemma_walked(self@, w, e@);
            }
            let g: PTermFacts = match e {
                Term::Var(_) => {
                    proof {
                        lemma_walk_stops(m, w, ts, i + 1);
                    }
                    return None;
                },
                Term::App(_) => match self.ground_key_facts(e, kbo) {
                    Some((k, g)) => {
                        h.sub(k);
                        g
                    },
                    None => {
                        proof {
                            lemma_walk_stops(m, w, ts, i + 1);
                        }
                        return None;
                    },
                },
                Term::Sym(s) => {
                    h.symbol(s.id());
                    symbol_facts(s.id(), kbo)
                },
                Term::Lit(l) => {
                    h.literal(l);
                    literal_facts()
                },
                Term::Op(op) => {
                    h.op(op);
                    op_facts(op)
                },
            };
            f = join(f, g);
            assert(h@ =~= be_bytes(ts.len() as u64) + parts_bytes(parts_of(ts.take(i + 1))));
            i += 1;
        }
        proof {
            assert(ts.take(i as int) =~= ts);
            lemma_parts_of(ts);
            if ts.len() > 0 {
                lemma_elem_facts(w, ts, 0);
            }
        }
        let key: TermKey = h.finish();
        let facts: PTermFacts = nest(f);
        self.note(key, facts);
        Some((key, facts))
    }

    /// The facts of an interned atom: those entered under its identity, or
    /// else those of what the identity resolves to, found part by part and
    /// entered.  `None` if a variable occurs or something does not resolve.
    pub fn facts_for_atom(
        &mut self,
        id: AtomId,
        atoms: &AtomTable,
        syn: &SyntacticLayer,
        kbo: &KboOrdering,
    ) -> (r: Option<PTermFacts>)
        requires
            atoms.wf(),
            syn.wf(),
        ensures
            r == atom_facts(old(self)@, atoms@, syn@.entries, kbo@, id),
            told(old(self)@, final(self)@, atoms@, syn@.entries, kbo@),
            r is Some ==> final(self)@.dom().contains(id),
        decreases rank(atoms@, syn@.entries, id),
    {
        proof {
            atoms.lemma_ordered();
            syn.lemma_ordered();
        }
        if let Some(hit) = self.get(id) {
            return Some(hit);
        }
        let ghost m = self@;
        let ghost (a, es, w) = (atoms@, syn@.entries, kbo@);
        let sent: &Sentence = match atoms.resolve(id, syn) {
            Some(s) => s,
            None => {
                return None;
            },
        };
        let ghost ps = sent@;
        let mut f = PTermFacts { size: 0, depth: 0, sym_bloom: 0, kbo_weight: 0 };
        let mut i: usize = 0;
        while i < sent.elements.len()
            invariant
                i <= sent.elements@.len(),
                atoms.wf(),
                syn.wf(),
                entries_ordered(a),
                entries_ordered(es),
                m == old(self)@,
                (a, es, w) == (atoms@, syn@.entries, kbo@),
                ps == sent@,
                !m.dom().contains(id),
                resolved_body(a, es, id) == Some(ps),
                told(m, self@, a, es, w),
                part_facts(m, a, es, w, id, i as nat) == Some(f),
            decreases sent.elements@.len() - i,
        {
            let ghost now = self@;
            assert(ps[i as int] == sent.elements@[i as int]@);
            let g: PTermFacts = match &sent.elements[i] {
                Element::Variable { .. } => {
                    proof {
                        lemma_facts_stop(m, a, es, w, id, (i + 1) as nat);
                    }
                    return None;
                },
                Element::Sub(sub) => {
                    proof {
                        lemma_rank(a, es, id, i as int, *sub);
                        lemma_told_same(m, now, a, es, w, *sub);
                    }
                    match self.facts_for_atom(*sub, atoms, syn, kbo) {
                        Some(g) => {
                            proof {
                                lemma_told_on(m, now, self@, a, es, w);
                            }
                            g
                        },
                        None => {
                            proof {
                                lemma_told_on(m, now, self@, a, es, w);
                                lemma_facts_stop(m, a, es, w, id, (i + 1) as nat);
                            }
                            return None;
                        },
                    }
                },
                Element::Symbol(s) => symbol_facts(s.id(), kbo),
                Element::Literal(_) => literal_facts(),
                Element::Op(op) => op_facts(op),
            };
            f = join(f, g);
            i += 1;
        }
        let facts: PTermFacts = nest(f);
        let ghost now = self@;
        self.note(id, facts);
        proof {
            assert(atom_facts(m, a, es, w, id) == Some(facts));
            assert forall|k: u64| #[trigger] self@.dom().contains(k) && !m.dom().contains(k) implies Some(self@[k])
                == atom_facts(m, a, es, w, k) by {
                if now.dom().contains(k) {
                    assert(self@[k] == now[k]);
                }
            }
        }
        Some(facts)
    }
}

/// The facts of what `id` resolves to, with those in `m` taken as they are.
pub open spec fn atom_facts(
    m: Map<TermKey, PTermFacts>,
    a: Seq<Entry>,
    es: Seq<Entry>,
    w: Map<SymbolId, u64>,
    id: AtomId,
) -> Option<PTermFacts>
    decreases rank(a, es, id), 1nat, 0nat,
    when entries_ordered(a) && entries_ordered(es)
{
    if m.dom().contains(id) {
        Some(m[id])
    } else {
        match resolved_body(a, es, id) {
            None => None,
            Some(ps) => match part_facts(m, a, es, w, id, ps.len()) {
                Some(f) => Some(nested(f)),
                None => None,
            },
        }
    }
}

/// The facts of the first `n` parts of what `id` resolves to.
pub open spec fn part_facts(
    m: Map<TermKey, PTermFacts>,
    a: Seq<Entry>,
    es: Seq<Entry>,
    w: Map<SymbolId, u64>,
    id: AtomId,
    n: nat,
) -> Option<PTermFacts>
    decreases rank(a, es, id), 0nat, n,
    when entries_ordered(a) && entries_ordered(es)
{
    if n == 0 {
        Some(no_facts())
    } else {
        match resolved_body(a, es, id) {
            Some(ps) if n <= ps.len() => {
                let p = ps[n - 1];
                let g = match p {
                    Part::Var(_, _) => None,
                    Part::Sub(sub) => {
                        proof {
                            lemma_rank(a, es, id, n - 1, sub);
                        }
                        atom_facts(m, a, es, w, sub)
                    },
                    _ => Some(leaf_facts_spec(w, p)),
                };
                match (part_facts(m, a, es, w, id, (n - 1) as nat), g) {
                    (Some(f), Some(g)) => Some(joined(f, g)),
                    _ => None,
                }
            },
            _ => None,
        }
    }
}

/// The table `n` keeps what `m` holds, and what is new in it are the facts of
/// what the identities resolve to.
pub open spec fn told(
    m: Map<TermKey, PTermFacts>,
    n: Map<TermKey, PTermFacts>,
    a: Seq<Entry>,
    es: Seq<Entry>,
    w: Map<SymbolId, u64>,
) -> bool {
    &&& m.submap_of(n)
    &&& forall|k: TermKey| #[trigger]
        n.dom().contains(k) && !m.dom().contains(k) ==> Some(n[k]) == atom_facts(m, a, es, w, k)
}

proof fn lemma_facts_stop(
    m: Map<TermKey, PTermFacts>,
    a: Seq<Entry>,
    es: Seq<Entry>,
    w: Map<SymbolId, u64>,
    id: AtomId,
    n: nat,
)
    requires
        entries_ordered(a),
        entries_ordered(es),
        resolved_body(a, es, id) matches Some(ps) && n <= ps.len(),
        part_facts(m, a, es, w, id, n) is None,
    ensures
        part_facts(m, a, es, w, id, resolved_body(a, es, id)->0.len()) is None,
    decreases resolved_body(a, es, id)->0.len() - n,
{
    let ps = resolved_body(a, es, id)->0;
    if n < ps.len() {
        assert(part_facts(m, a, es, w, id, (n + 1) as nat) is None);
        lemma_facts_stop(m, a, es, w, id, (n + 1) as nat);
    }
}

/// What was entered on the way changes no answer.
proof fn lemma_told_same(
    m: Map<TermKey, PTermFacts>,
    n: Map<TermKey, PTermFacts>,
    a: Seq<Entry>,
    es: Seq<Entry>,
    w: Map<SymbolId, u64>,
    id: AtomId,
)
    requires
        entries_ordered(a),
        entries_ordered(es),
        told(m, n, a, es, w),
    ensures
        atom_facts(n, a, es, w, id) == atom_facts(m, a, es, w, id),
    decreases rank(a, es, id), 1nat, 0nat,
{
    if !n.dom().contains(id) {
        if let Some(ps) = resolved_body(a, es, id) {
            lemma_told_parts(m, n, a, es, w, id, ps.len());
        }
    }
}

proof fn lemma_told_parts(
    m: Map<TermKey, PTermFacts>,
    n: Map<TermKey, PTermFacts>,
    a: Seq<Entry>,
    es: Seq<Entry>,
    w: Map<SymbolId, u64>,
    id: AtomId,
    k: nat,
)
    requires
        entries_ordered(a),
        entries_ordered(es),
        told(m, n, a, es, w),
    ensures
        part_facts(n, a, es, w, id, k) == part_facts(m, a, es, w, id, k),
    decreases rank(a, es, id), 0nat, k,
{
    if k > 0 {
        if let Some(ps) = resolved_body(a, es, id) {
            if k <= ps.len() {
                lemma_told_parts(m, n, a, es, w, id, (k - 1) as nat);
                if let Part::Sub(sub) = ps[k - 1] {
                    lemma_rank(a, es, id, k - 1, sub);
                    lemma_told_same(m, n, a, es, w, sub);
                }
            }
        }
    }
}

proof fn lemma_told_on(
    m: Map<TermKey, PTermFacts>,
    n: Map<TermKey, PTermFacts>,
    o: Map<TermKey, PTermFacts>,
    a: Seq<Entry>,
    es: Seq<Entry>,
    w: Map<SymbolId, u64>,
)
    requires
        entries_ordered(a),
        entries_ordered(es),
        told(m, n, a, es, w),
        told(n, o, a, es, w),
    ensures
        told(m, o, a, es, w),
{
    assert forall|k: TermKey| #[trigger] o.dom().contains(k) && !m.dom().contains(k) implies Some(o[k])
        == atom_facts(m, a, es, w, k) by {
        if n.dom().contains(k) {
            assert(o[k] == n[k]);
        } else {
            lemma_told_same(m, n, a, es, w, k);
        }
    }
    assert forall|k: TermKey| #[trigger] m.dom().contains(k) implies o.dom().contains(k) && o[k] == m[k] by {
        assert(n.dom().contains(k) && n[k] == m[k]);
    }
}

/// The leaf `p` stands somewhere in the tree.
pub open spec fn holds_leaf(t: Tree, p: Part) -> bool
    decreases t,
{
    match t {
        Tree::App(ts) => any_holds_leaf(ts, p),
        _ => part_of(t) == p,
    }
}

/// The leaf `p` stands somewhere in one of the trees.
pub open spec fn any_holds_leaf(ts: Seq<Tree>, p: Part) -> bool
    decreases ts,
{
    ts.len() > 0 && (any_holds_leaf(ts.drop_last(), p) || holds_leaf(ts.last(), p))
}

proof fn lemma_no_common_bit(a: u64, b: u64, mask: u64)
    by (bit_vector)
    ensures
        (a | b) & mask == 0 <==> a & mask == 0 && b & mask == 0,
{
}

/// A mask that shares no bit with the bloom of a tree shares none with any
/// symbol or operator in it: an empty intersection proves that none of the
/// masked keys stands in the tree.
pub proof fn law_bloom_rules_out(t: Tree, p: Part, mask: u64)
    requires
        holds_leaf(t, p),
        bloom(t) & mask == 0,
    ensures
        leaf_bloom(p) & mask == 0,
    decreases t,
{
    if let Tree::App(ts) = t {
        lemma_blooms_rule_out(ts, p, mask);
    }
}

proof fn lemma_blooms_rule_out(ts: Seq<Tree>, p: Part, mask: u64)
    requires
        any_holds_leaf(ts, p),
        blooms(ts) & mask == 0,
    ensures
        leaf_bloom(p) & mask == 0,
    decreases ts,
{
    lemma_no_common_bit(blooms(ts.drop_last()), bloom(ts.last()), mask);
    if any_holds_leaf(ts.drop_last(), p) {
        lemma_blooms_rule_out(ts.drop_last(), p, mask);
    } else {
        law_bloom_rules_out(ts.last(), p, mask);
    }
}

/// What the keys of `t` and of the compounds within it resolve to is `t` and
/// those compounds.
pub open spec fn resolves_to(a: Seq<Entry>, es: Seq<Entry>, t: Tree) -> bool
    decreases t,
{
    match t {
        Tree::App(ts) => {
            &&& resolved_body(a, es, app_key(ts)) == Some(parts_of(ts))
            &&& forall|i: int| 0 <= i < ts.len() ==> resolves_to(a, es, #[trigger] ts[i])
        },
        _ => true,
    }
}

/// The facts entered under the keys of the tree's compounds are theirs.
pub open spec fn facts_fit(m: Map<TermKey, PTermFacts>, w: Map<SymbolId, u64>, t: Tree) -> bool {
    forall|us: Seq<Tree>| #[trigger]
        compound_in(t, us) && m.dom().contains(app_key(us)) ==> ground(Tree::App(us)) && m[app_key(us)] == tree_facts(
            w,
            Tree::App(us),
        )
}

/// The facts found by identity are those found by walking the term: the two
/// share one key space.
pub proof fn law_facts_by_identity(
    m: Map<TermKey, PTermFacts>,
    a: Seq<Entry>,
    es: Seq<Entry>,
    w: Map<SymbolId, u64>,
    ts: Seq<Tree>,
)
    requires
        entries_ordered(a),
        entries_ordered(es),
        facts_fit(m, w, Tree::App(ts)),
        resolves_to(a, es, Tree::App(ts)),
    ensures
        atom_facts(m, a, es, w, app_key(ts)) == if ground(Tree::App(ts)) {
            Some(tree_facts(w, Tree::App(ts)))
        } else {
            None
        },
    decreases ts,
{
    let t = Tree::App(ts);
    reveal_with_fuel(resolves_to, 2);
    assert(compound_in(t, ts));
    if !m.dom().contains(app_key(ts)) {
        lemma_parts_of(ts);
        assert forall|i: int| 0 <= i < ts.len() && ts[i] is App implies atom_facts(
            m,
            a,
            es,
            w,
            app_key((#[trigger] ts[i])->App_0),
        ) == if ground(ts[i]) {
            Some(tree_facts(w, ts[i]))
        } else {
            None
        } by {
            let us = ts[i]->App_0;
            assert(ts[i] == Tree::App(us));
            assert(resolves_to(a, es, ts[i]));
            lemma_element_compounds(ts, i);
            assert(decreases_to!(ts => us)) by {
                assert(decreases_to!(ts => ts[i]));
                assert(decreases_to!(ts[i] => us));
            }
            law_facts_by_identity(m, a, es, w, us);
        }
        lemma_facts_of_parts(m, a, es, w, ts, ts.len());
        lemma_ground_app(ts);
        assert(ts.take(ts.len() as int) =~= ts);
        if ts.len() > 0 {
            lemma_elem_facts(w, ts, 0);
        }
    }
}

/// Where every compound is stored as itself, the keys resolve to the tree.
proof fn lemma_resolves(a: Seq<Entry>, es: Seq<Entry>, t: Tree)
    requires
        entries_fit(a, t),
        forall|us: Seq<Tree>| #[trigger] compound_in(t, us) ==> stored(a, app_key(us)),
    ensures
        resolves_to(a, es, t),
    decreases t,
{
    if let Tree::App(ts) = t {
        assert(compound_in(t, ts));
        assert forall|i: int| 0 <= i < ts.len() implies resolves_to(a, es, #[trigger] ts[i]) by {
            lemma_element_compounds(ts, i);
            lemma_resolves(a, es, ts[i]);
        }
    }
}

/// An interned atom resolves to itself: its identity leads to its elements, and
/// so on down.  Keys are digests, so this asks that different compounds of the
/// atom have different keys and that none of these keys was taken before by
/// something else.
pub proof fn law_interned_atom_resolves(a: Seq<Entry>, es: Seq<Entry>, t: Tree)
    requires
        entries_ordered(a),
        keys_apart(t),
        entries_fit(a, t),
    ensures
        entries_ordered(with_atom(a, t)),
        resolves_to(with_atom(a, t), es, t),
{
    lemma_interned_fits(a, t, t);
    lemma_resolves(with_atom(a, t), es, t);
}

/// The facts of an interned atom, found by its identity, are those of the term
/// that was interned: the facts that the walk over the ground term finds, and
/// none if a variable occurs.
pub proof fn law_interned_atom_has_its_facts(
    m: Map<TermKey, PTermFacts>,
    a: Seq<Entry>,
    es: Seq<Entry>,
    w: Map<SymbolId, u64>,
    ts: Seq<Tree>,
)
    requires
        entries_ordered(a),
        entries_ordered(es),
        keys_apart(Tree::App(ts)),
        entries_fit(a, Tree::App(ts)),
        facts_fit(m, w, Tree::App(ts)),
    ensures
        atom_facts(m, with_atom(a, Tree::App(ts)), es, w, app_key(ts)) == if ground(Tree::App(ts)) {
            Some(tree_facts(w, Tree::App(ts)))
        } else {
            None
        },
{
    law_interned_atom_resolves(a, es, Tree::App(ts));
    law_facts_by_identity(m, with_atom(a, Tree::App(ts)), es, w, ts);
}

/// The walk over a term enters under the keys of its compounds nothing but their
/// facts.
pub proof fn law_walk_keeps_facts_fitting(m: Map<TermKey, PTermFacts>, w: Map<SymbolId, u64>, t: Tree)
    requires
        keys_apart(t),
        facts_fit(m, w, t),
    ensures
        facts_fit(walked(m, w, t).0, w, t),
{
    lemma_walk_fits(m, w, t, t);
}

proof fn lemma_walk_fits(m: Map<TermKey, PTermFacts>, w: Map<SymbolId, u64>, t: Tree, whole: Tree)
    requires
        keys_apart(whole),
        facts_fit(m, w, whole),
        part_of_whole(t, whole),
    ensures
        facts_fit(walked(m, w, t).0, w, whole),
    decreases t,
{
    if let Tree::App(ts) = t {
        assert(compound_in(t, ts));
        assert forall|i: int| 0 <= i < ts.len() implies part_of_whole(#[trigger] ts[i], whole) by {
            lemma_element_compounds(ts, i);
        }
        lemma_walk_all_fits(m, w, ts, whole);
        lemma_walked(m, w, t);
    }
}

proof fn lemma_walk_all_fits(m: Map<TermKey, PTermFacts>, w: Map<SymbolId, u64>, ts: Seq<Tree>, whole: Tree)
    requires
        keys_apart(whole),
        facts_fit(m, w, whole),
        forall|i: int| 0 <= i < ts.len() ==> part_of_whole(#[trigger] ts[i], whole),
    ensures
        facts_fit(walked_all(m, w, ts).0, w, whole),
    decreases ts,
{
    if ts.len() > 0 {
        let d = ts.drop_last();
        assert forall|i: int| 0 <= i < d.len() implies part_of_whole(#[trigger] d[i], whole) by {
            assert(d[i] == ts[i]);
        }
        lemma_walk_all_fits(m, w, d, whole);
        let (n, ok) = walked_all(m, w, d);
        assert(part_of_whole(ts[ts.len() - 1], whole));
        if ok {
            lemma_walk_fits(n, w, ts.last(), whole);
        }
    }
}

proof fn lemma_facts_of_parts(
    m: Map<TermKey, PTermFacts>,
    a: Seq<Entry>,
    es: Seq<Entry>,
    w: Map<SymbolId, u64>,
    ts: Seq<Tree>,
    n: nat,
)
    requires
        entries_ordered(a),
        entries_ordered(es),
        n <= ts.len(),
        resolved_body(a, es, app_key(ts)) == Some(parts_of(ts)),
        forall|i: int|
            0 <= i < ts.len() && ts[i] is App ==> atom_facts(m, a, es, w, app_key((#[trigger] ts[i])->App_0))
                == if ground(ts[i]) {
                Some(tree_facts(w, ts[i]))
            } else {
                None
            },
    ensures
        part_facts(m, a, es, w, app_key(ts), n) == if forall|i: int|
            0 <= i < n ==> ground(#[trigger] ts[i]) {
            Some(elem_facts(w, ts.take(n as int)))
        } else {
            None
        },
    decreases n,
{
    lemma_parts_of(ts);
    if n == 0 {
        assert(ts.take(0) =~= Seq::empty());
    } else {
        lemma_facts_of_parts(m, a, es, w, ts, (n - 1) as nat);
        lemma_elem_facts(w, ts, n - 1);
        let t = ts[n - 1];
        assert(parts_of(ts)[n - 1] == part_of(t));
        match t {
            Tree::Var(v) => {
                assert(occurs(v, t));
            },
            Tree::App(us) => {
                assert(part_of(t) == Part::Sub(app_key(us)));
            },
            _ => {
                assert(ground(t));
            },
        }
    }
}

/// A bloom has no bits but those of the symbols and operators in the tree.
pub proof fn law_bloom_has_no_other_bits(t: Tree, mask: u64)
    requires
        forall|p: Part| #[trigger] holds_leaf(t, p) ==> leaf_bloom(p) & mask == 0,
    ensures
        bloom(t) & mask == 0,
    decreases t,
{
    if let Tree::App(ts) = t {
        assert forall|p: Part| #[trigger] any_holds_leaf(ts, p) implies leaf_bloom(p) & mask == 0 by {
            assert(holds_leaf(t, p));
        }
        lemma_blooms_have_no_other_bits(ts, mask);
    } else {
        assert(holds_leaf(t, part_of(t)));
    }
}

proof fn lemma_blooms_have_no_other_bits(ts: Seq<Tree>, mask: u64)
    requires
        forall|p: Part| #[trigger] any_holds_leaf(ts, p) ==> leaf_bloom(p) & mask == 0,
    ensures
        blooms(ts) & mask == 0,
    decreases ts,
{
    if ts.len() > 0 {
        assert forall|p: Part| #[trigger] any_holds_leaf(ts.drop_last(), p) implies leaf_bloom(p) & mask == 0 by {
            assert(any_holds_leaf(ts, p));
        }
        assert forall|p: Part| #[trigger] holds_leaf(ts.last(), p) implies leaf_bloom(p) & mask == 0 by {
            assert(any_holds_leaf(ts, p));
        }
        lemma_blooms_have_no_other_bits(ts.drop_last(), mask);
        law_bloom_has_no_other_bits(ts.last(), mask);
        lemma_no_common_bit(blooms(ts.drop_last()), bloom(ts.last()), mask);
    } else {
        assert(0u64 & mask == 0) by (bit_vector);
    }
}

/// How often the symbol stands in the tree.
pub open spec fn times(t: Tree, id: SymbolId) -> nat
    decreases t,
{
    match t {
        Tree::App(ts) => times_all(ts, id),
        Tree::Sym(x) => if x == id {
            1
        } else {
            0
        },
        _ => 0,
    }
}

/// How often the symbol stands in the trees.
pub open spec fn times_all(ts: Seq<Tree>, id: SymbolId) -> nat
    decreases ts,
{
    if ts.len() == 0 {
        0
    } else {
        times_all(ts.drop_last(), id) + times(ts.last(), id)
    }
}

/// Without set weights a tree weighs as much as it has leaves; and a new weight for a
/// symbol counts once for each place where the symbol stands.
pub proof fn law_weights_count_by_place(w: Map<SymbolId, u64>, id: SymbolId, x: u64, t: Tree)
    ensures
        w.dom() == Set::<SymbolId>::empty() ==> weight(w, t) == leaves(t),
        weight(w.insert(id, x), t) + times(t, id) * (leaf_weight(w, Part::Sym(id)) as nat) == weight(w, t) + times(t, id) * (
        x as nat),
    decreases t,
{
    if let Tree::App(ts) = t {
        lemma_weights_count_by_place(w, id, x, ts);
    } else if let Tree::Sym(y) = t {
        assert(part_of(t) == Part::Sym(y));
        let old_weight = leaf_weight(w, Part::Sym(id)) as nat;
        assert(times(t, id) * old_weight == if y == id {
            old_weight
        } else {
            0
        }) by (nonlinear_arith)
            requires
                times(t, id) == if y == id {
                    1nat
                } else {
                    0nat
                },
        ;
        assert(times(t, id) * (x as nat) == if y == id {
            x as nat
        } else {
            0
        }) by (nonlinear_arith)
            requires
                times(t, id) == if y == id {
                    1nat
                } else {
                    0nat
                },
        ;
    } else {
        assert(!(part_of(t) is Sym));
        assert(times(t, id) * (leaf_weight(w, Part::Sym(id)) as nat) == 0) by (nonlinear_arith)
            requires
                times(t, id) == 0,
        ;
        assert(times(t, id) * (x as nat) == 0) by (nonlinear_arith)
            requires
                times(t, id) == 0,
        ;
    }
}

proof fn lemma_weights_count_by_place(w: Map<SymbolId, u64>, id: SymbolId, x: u64, ts: Seq<Tree>)
    ensures
        w.dom() == Set::<SymbolId>::empty() ==> weight_of(w, ts) == leaves_of(ts),
        weight_of(w.insert(id, x), ts) + times_all(ts, id) * (leaf_weight(w, Part::Sym(id)) as nat) == weight_of(w, ts)
            + times_all(ts, id) * (x as nat),
    decreases ts,
{
    let a = leaf_weight(w, Part::Sym(id)) as nat;
    let b = x as nat;
    if ts.len() > 0 {
        lemma_weights_count_by_place(w, id, x, ts.drop_last());
        law_weights_count_by_place(w, id, x, ts.last());
        let m = times_all(ts.drop_last(), id);
        let n = times(ts.last(), id);
        assert((m + n) * a == m * a + n * a) by (nonlinear_arith);
        assert((m + n) * b == m * b + n * b) by (nonlinear_arith);
    } else {
        assert(0nat * a == 0 && 0nat * b == 0) by (nonlinear_arith);
    }
}

/// A compound is one deeper than its deepest element; a leaf has no depth.
pub proof fn law_depth_is_that_of_the_deepest(ts: Seq<Tree>, i: int)
    ensures
        0 <= i < ts.len() ==> depth(ts[i]) < depth(Tree::App(ts)),
        ts.len() > 0 ==> exists|k: int| 0 <= k < ts.len() && depth(Tree::App(ts)) == 1 + depth(#[trigger] ts[k]),
        ts.len() == 0 ==> depth(Tree::App(ts)) == 1,
    decreases ts.len(),
{
    if ts.len() > 0 {
        let front = ts.drop_last();
        law_depth_is_that_of_the_deepest(front, i);
        assert(depth(Tree::App(front)) == 1 + depths(front));
        assert(depth(Tree::App(ts)) == 1 + depths(ts));
        if 0 <= i < front.len() {
            assert(front[i] == ts[i]);
        }
        if front.len() > 0 && depths(front) >= depth(ts.last()) {
            let k = choose|k: int| 0 <= k < front.len() && depth(Tree::App(front)) == 1 + depth(#[trigger] front[k]);
            assert(ts[k] == front[k]);
        } else {
            assert(depth(ts[ts.len() - 1]) == depths(ts));
        }
    }
}

} // verus!
