//! The term arena: a store of terms in which every distinct term is held once.
//! A node keeps its facts beside it, and two terms are the same exactly when
//! their node numbers are.
use std::collections::HashMap;

use vstd::prelude::*;
use vstd::wrapping::u64_specs;

use crate::canon::{canonical_name, canonical_var};
use crate::content::{
    app_key, lemma_part_taken, lemma_parts_of, literal_content_key, literal_key, parts_bytes, parts_of,
    ElementHasher,
};
use crate::small::IdList;
use crate::subst::{
    bound, ground, inst, insts, lemma_ground_app, lemma_inst_app, lemma_inst_id, lemma_occurs_elem,
    lemma_occurs_split, occurs, shift, size, sizes, within,
};
use crate::term::{lemma_app_view, views, Term, Tree};
use crate::text::be_bytes;
use crate::types::{name_id, Literal, LiteralView, SymbolId};
use crate::unify::{
    covers, extends, fill, filled, lemma_bound_step, lemma_elem_within, lemma_extends_trans, lemma_filled_step,
    lemma_filled_unique, matched, trails,
};
use crate::units::{law_op_tags_are_distinct, op_tag, op_tag_spec, AtomId};

verus! {

broadcast use {
    lemma_app_view,
    vstd::std_specs::hash::group_hash_axioms,
};

pub const TAG_VAR: u8 = 0;

pub const TAG_SYM: u8 = 1;

pub const TAG_LIT: u8 = 2;

pub const TAG_OP: u8 = 3;

pub const TAG_APP: u8 = 4;

/// The node has a variable below it.
pub const F_HAS_VAR: u16 = 1;

/// The node's children stand in the spill.
pub const F_SPILL: u16 = 2;

/// A node holds at most this many children itself.
pub const MAX_INLINE: usize = 4;

/// One node, its facts inline.  The first child of an application is its head.
#[derive(Clone, Copy, Debug)]
pub struct Node {
    /// The content key; for an application the key of the atom.
    pub key: u64,
    /// One bit for each canonical variable below.
    pub vmask: u64,
    pub kids: [u32; 4],
    /// The number of the symbol or literal, the slot, or the operator's tag.
    pub sym: u32,
    /// The number of leaves.
    pub weight: u32,
    pub tag: u8,
    pub nargs: u8,
    pub flags: u16,
}

// ---------------------------------------------------------------------------
// The facts of a tree
// ---------------------------------------------------------------------------

/// The finalizer that spreads the bits of a leaf's key.
pub open spec fn mixed(z: u64) -> u64 {
    let a = u64_specs::wrapping_mul(z ^ (z >> 30), 0xBF58_476D_1CE4_E5B9);
    let b = u64_specs::wrapping_mul(a ^ (a >> 27), 0x94D0_49BB_1331_11EB);
    b ^ (b >> 31)
}

/// Spreads the bits of a leaf's key.
fn mix64(z: u64) -> (r: u64)
    ensures
        r == mixed(z),
{
    let a: u64 = (z ^ (z >> 30)).wrapping_mul(0xBF58_476D_1CE4_E5B9);
    let b: u64 = (a ^ (a >> 27)).wrapping_mul(0x94D0_49BB_1331_11EB);
    b ^ (b >> 31)
}

/// The key of a leaf of the given kind.
pub open spec fn leaf_key(tag: u8, content: u64) -> u64 {
    mixed(((tag as u64) << 56) ^ content)
}

/// The key of a tree.
pub open spec fn node_key(t: Tree) -> u64 {
    match t {
        Tree::Var(v) => leaf_key(TAG_VAR, name_id(canonical_name(v as nat))),
        Tree::Sym(id) => leaf_key(TAG_SYM, id),
        Tree::Lit(l) => leaf_key(TAG_LIT, literal_key(l)),
        Tree::Op(op) => leaf_key(TAG_OP, op_tag_spec(op) as u64),
        Tree::App(ts) => app_key(ts),
    }
}

/// One bit for each canonical variable of a tree, taken from its identity.
pub open spec fn var_mask(t: Tree) -> u64
    decreases t,
{
    match t {
        Tree::Var(v) => 1u64 << (name_id(canonical_name(v as nat)) & 63),
        Tree::App(ts) => var_masks(ts),
        _ => 0,
    }
}

/// The same for a sequence of trees.
pub open spec fn var_masks(ts: Seq<Tree>) -> u64
    decreases ts,
{
    if ts.len() == 0 {
        0
    } else {
        var_masks(ts.drop_last()) | var_mask(ts.last())
    }
}

/// The number of leaves of a tree.
pub open spec fn leaves(t: Tree) -> nat
    decreases t,
{
    match t {
        Tree::App(ts) => leaves_of(ts),
        _ => 1,
    }
}

/// The number of leaves of a sequence of trees.
pub open spec fn leaves_of(ts: Seq<Tree>) -> nat
    decreases ts,
{
    if ts.len() == 0 {
        0
    } else {
        leaves_of(ts.drop_last()) + leaves(ts.last())
    }
}

/// The number `n`, or the largest 32-bit number if that is less.
pub open spec fn capped(n: nat) -> nat {
    if n <= u32::MAX {
        n
    } else {
        u32::MAX as nat
    }
}

/// The tag of a tree's kind.
pub open spec fn tag_of(t: Tree) -> u8 {
    match t {
        Tree::Var(_) => TAG_VAR,
        Tree::Sym(_) => TAG_SYM,
        Tree::Lit(_) => TAG_LIT,
        Tree::Op(_) => TAG_OP,
        Tree::App(_) => TAG_APP,
    }
}

/// The number of elements of a tree; none for a leaf.
pub open spec fn arity_of(t: Tree) -> nat {
    match t {
        Tree::App(ts) => ts.len(),
        _ => 0,
    }
}

/// The facts that a node keeps are those of the tree.
pub open spec fn facts_hold(n: Node, t: Tree) -> bool {
    &&& n.key == node_key(t)
    &&& n.vmask == var_mask(t)
    &&& n.weight == capped(leaves(t))
    &&& n.tag == tag_of(t)
    &&& n.nargs == arity_of(t)
    &&& (n.flags & F_HAS_VAR != 0) == !ground(t)
}

/// The flag of a variable below.
pub open spec fn var_flag(t: Tree) -> u16 {
    if ground(t) {
        0
    } else {
        F_HAS_VAR
    }
}

/// The flags of a tree's node: that a variable is below, and that there are more
/// children than the node holds itself.
pub open spec fn flags_of(t: Tree) -> u16 {
    if arity_of(t) > MAX_INLINE {
        var_flag(t) | F_SPILL
    } else {
        var_flag(t)
    }
}

/// The node's flags are those of the tree, and the cells that hold no child are
/// zero.
pub open spec fn laid_out(n: Node, t: Tree) -> bool {
    &&& n.flags == flags_of(t)
    &&& forall|k: int|
        (if arity_of(t) > MAX_INLINE {
            1
        } else {
            arity_of(t) as int
        }) <= k < 4 ==> #[trigger] n.kids@[k] == 0
}

// ---------------------------------------------------------------------------
// What interning does
// ---------------------------------------------------------------------------

/// The arena as its users see it: the tree of every node, by number, and the
/// counters.
pub struct ArenaView {
    pub trees: Seq<Tree>,
    pub spilled: nat,
    pub hits: nat,
    pub roots: nat,
    pub skipped: nat,
    pub key_mismatches: nat,
}

/// The arena once `t`, all of whose elements it holds, has been looked up and
/// entered if new.
pub open spec fn placed(a: ArenaView, t: Tree) -> ArenaView {
    if a.trees.contains(t) {
        ArenaView { hits: a.hits + 1, ..a }
    } else {
        ArenaView {
            trees: a.trees.push(t),
            spilled: a.spilled + if arity_of(t) > MAX_INLINE {
                arity_of(t)
            } else {
                0
            },
            ..a
        }
    }
}

/// The arena once `t` has been interned, elements first, and whether that
/// succeeded.  An application of more than 255 elements is refused; what was
/// entered before it stays.
pub open spec fn interned(a: ArenaView, t: Tree) -> (ArenaView, bool)
    decreases t,
{
    match t {
        Tree::App(ts) => if ts.len() > 255 {
            (a, false)
        } else {
            let (b, ok) = interned_all(a, ts);
            if ok {
                (placed(b, t), true)
            } else {
                (b, false)
            }
        },
        _ => (placed(a, t), true),
    }
}

/// The same for a sequence of trees, up to the first that is refused.
pub open spec fn interned_all(a: ArenaView, ts: Seq<Tree>) -> (ArenaView, bool)
    decreases ts,
{
    if ts.len() == 0 {
        (a, true)
    } else {
        let (b, ok) = interned_all(a, ts.drop_last());
        if ok {
            interned(b, ts.last())
        } else {
            (b, false)
        }
    }
}

/// The trees of a clause's literals.
pub open spec fn lit_trees(terms: Seq<(bool, Term)>) -> Seq<Tree> {
    Seq::new(terms.len(), |k: int| terms[k].1@)
}

/// The trees of the terms that come with an atom.
pub open spec fn paired_trees(terms: Seq<(bool, Term)>, atoms: Seq<AtomId>) -> Seq<Tree> {
    if terms.len() < atoms.len() {
        lit_trees(terms)
    } else {
        lit_trees(terms).take(atoms.len() as int)
    }
}

/// The arena once the trees of a clause have been interned one by one: each
/// counts as a root, a refused one as skipped, and one whose key is not the
/// atom's identity as a mismatch.
pub open spec fn clause_interned(a: ArenaView, ts: Seq<Tree>, atoms: Seq<AtomId>) -> ArenaView
    decreases ts.len(),
{
    if ts.len() == 0 {
        a
    } else {
        let b = clause_interned(a, ts.drop_last(), atoms);
        let (c, ok) = interned(ArenaView { roots: b.roots + 1, ..b }, ts.last());
        if !ok {
            ArenaView { skipped: c.skipped + 1, ..c }
        } else if node_key(ts.last()) != atoms[ts.len() - 1] {
            ArenaView { key_mismatches: c.key_mismatches + 1, ..c }
        } else {
            c
        }
    }
}

/// No application within `t` has more than 255 elements.
pub open spec fn narrow(t: Tree) -> bool
    decreases t,
{
    match t {
        Tree::App(ts) => ts.len() <= 255 && forall|i: int| 0 <= i < ts.len() ==> narrow(#[trigger] ts[i]),
        _ => true,
    }
}

/// The arena has room for `n` more nodes.
pub open spec fn room(a: ArenaView, n: nat) -> bool {
    &&& a.trees.len() + n <= u32::MAX
    &&& a.spilled + n <= u32::MAX
    &&& a.hits + n <= u64::MAX
}

/// The first numbers of `b` are those of `a`.
pub open spec fn grows(a: Seq<Tree>, b: Seq<Tree>) -> bool {
    &&& a.len() <= b.len()
    &&& forall|i: int| 0 <= i < a.len() ==> #[trigger] a[i] == b[i]
}

/// The longer list begins with the shorter one.
pub open spec fn begins<T>(a: Seq<T>, b: Seq<T>) -> bool {
    &&& a.len() <= b.len()
    &&& forall|i: int| 0 <= i < a.len() ==> #[trigger] b[i] == a[i]
}

/// All that the first arena holds stands in the second as it was: the nodes with
/// their children, and the numbers of the symbols and literals.
pub open spec fn kept(a: TermArena, b: TermArena) -> bool {
    &&& forall|i: int| 0 <= i < a@.trees.len() ==> #[trigger] b.node_spec(i) == a.node_spec(i)
    &&& forall|i: int| 0 <= i < a@.trees.len() ==> b.kids(#[trigger] a.node_spec(i)) == a.kids(a.node_spec(i))
    &&& begins(a.symbols(), b.symbols())
    &&& begins(a.literals(), b.literals())
}

/// The subtree at a path: one element index per step.
pub open spec fn subtree(t: Tree, path: Seq<u8>) -> Option<Tree>
    decreases path.len(),
{
    if path.len() == 0 {
        Some(t)
    } else {
        match subtree(t, path.drop_last()) {
            Some(Tree::App(ts)) => if path.last() < ts.len() {
                Some(ts[path.last() as int])
            } else {
                None
            },
            _ => None,
        }
    }
}

/// The key under which a ground tree is looked up.
pub open spec fn probe_key(t: Tree) -> Option<u64> {
    match t {
        Tree::Sym(id) => Some(id),
        Tree::App(ts) => if ground(t) {
            Some(app_key(ts))
        } else {
            None
        },
        _ => None,
    }
}

/// The head of a seat's compound rules nothing out.
pub open spec fn heads_fit(l: Tree, t: Tree) -> bool {
    (l is Sym || l is Op) ==> l == t
}

/// A pattern's seat lets a term's seat through: a variable anything, another
/// leaf only itself, a compound one of the same length and, where its head is
/// a symbol or an operator, the same head.
pub open spec fn seat_fits(l: Tree, t: Tree) -> bool {
    match l {
        Tree::Var(_) => true,
        Tree::App(us) => t matches Tree::App(ws) && us.len() == ws.len() && (us.len() > 0 ==> heads_fit(
            us[0],
            ws[0],
        )),
        _ => l == t,
    }
}

/// Every seat of an application lets the other's through.
pub open spec fn seats_fit(l: Tree, t: Tree) -> bool {
    match (l, t) {
        (Tree::App(us), Tree::App(ws)) => us.len() == ws.len() && forall|i: int|
            0 <= i < us.len() ==> seat_fits(#[trigger] us[i], ws[i]),
        _ => true,
    }
}

proof fn lemma_no_subtree(t: Tree, path: Seq<u8>, n: int)
    requires
        0 <= n <= path.len(),
        subtree(t, path.take(n)) is None,
    ensures
        subtree(t, path) is None,
    decreases path.len() - n,
{
    if n < path.len() {
        assert(path.take(n + 1).drop_last() =~= path.take(n));
        lemma_no_subtree(t, path, n + 1);
    } else {
        assert(path.take(n) =~= path);
    }
}

/// What slot `i` holds, if anything, is a node number.
pub open spec fn numbered(s: Seq<Option<u32>>, trees: Seq<Tree>, i: int) -> bool {
    0 <= i < s.len() && s[i] is Some ==> s[i]->0 < trees.len()
}

/// Bindings by number hold node numbers.
pub open spec fn numbers_hold(s: Seq<Option<u32>>, trees: Seq<Tree>) -> bool {
    forall|i: int| #[trigger] numbered(s, trees, i)
}

/// The bindings that bindings by number stand for.
pub open spec fn number_trees(s: Seq<Option<u32>>, trees: Seq<Tree>) -> Seq<Option<Tree>> {
    Seq::new(
        s.len(),
        |i: int|
            match s[i] {
                Some(n) => Some(trees[n as int]),
                None => None,
            },
    )
}

/// What was bound by number is bound to the same still.
pub open spec fn numbers_kept(s: Seq<Option<u32>>, u: Seq<Option<u32>>) -> bool {
    &&& s.len() == u.len()
    &&& forall|i: int| 0 <= i < s.len() && (#[trigger] s[i]) is Some ==> u[i] == s[i]
}

proof fn lemma_numbers_extend(s: Seq<Option<u32>>, u: Seq<Option<u32>>, trees: Seq<Tree>)
    requires
        numbers_kept(s, u),
    ensures
        extends(number_trees(s, trees), number_trees(u, trees)),
{
    let (a, b) = (number_trees(s, trees), number_trees(u, trees));
    assert forall|i: int| #[trigger] bound(a, i) implies b[i] == a[i] by {
        assert(s[i] is Some);
    }
}

// ---------------------------------------------------------------------------
// How nodes stand for trees
// ---------------------------------------------------------------------------

/// The children of a node.
pub open spec fn kids_of(n: Node, spill: Seq<u32>) -> Seq<u32> {
    if n.flags & F_SPILL != 0 {
        spill.subrange(n.kids@[0] as int, n.kids@[0] + n.nargs)
    } else {
        n.kids@.take(n.nargs as int)
    }
}

/// The children of a node are in place.
pub open spec fn kids_placed(n: Node, spill: Seq<u32>) -> bool {
    if n.flags & F_SPILL != 0 {
        n.kids@[0] + n.nargs <= spill.len()
    } else {
        n.nargs <= 4
    }
}

/// A node's tag, number and children say which tree it is.
pub open spec fn says(
    n: Node,
    kids: Seq<u32>,
    trees: Seq<Tree>,
    syms: Seq<SymbolId>,
    lits: Seq<LiteralView>,
    t: Tree,
) -> bool {
    &&& n.tag == tag_of(t)
    &&& n.nargs == kids.len()
    &&& match t {
        Tree::Var(v) => n.sym == v && kids.len() == 0,
        Tree::Sym(id) => n.sym < syms.len() && syms[n.sym as int] == id && kids.len() == 0,
        Tree::Lit(l) => n.sym < lits.len() && lits[n.sym as int] == l && kids.len() == 0,
        Tree::Op(op) => n.sym == op_tag_spec(op) && kids.len() == 0,
        Tree::App(ts) => {
            &&& n.sym == 0
            &&& ts.len() == kids.len()
            &&& forall|k: int|
                0 <= k < kids.len() ==> (#[trigger] kids[k]) < trees.len() && trees[kids[k] as int] == ts[k]
        },
    }
}

/// Node `i` stands for tree `i`, and its children come before it.
pub open spec fn stands(
    nodes: Seq<Node>,
    spill: Seq<u32>,
    trees: Seq<Tree>,
    syms: Seq<SymbolId>,
    lits: Seq<LiteralView>,
    i: int,
) -> bool {
    let n = nodes[i];
    let kids = kids_of(n, spill);
    &&& kids_placed(n, spill)
    &&& says(n, kids, trees, syms, lits, trees[i])
    &&& facts_hold(n, trees[i])
    &&& laid_out(n, trees[i])
    &&& forall|k: int| 0 <= k < kids.len() ==> #[trigger] kids[k] < i
}

/// Every node stands for its tree.
pub open spec fn all_stand(
    nodes: Seq<Node>,
    spill: Seq<u32>,
    trees: Seq<Tree>,
    syms: Seq<SymbolId>,
    lits: Seq<LiteralView>,
) -> bool {
    &&& nodes.len() == trees.len()
    &&& forall|i: int| 0 <= i < nodes.len() ==> #[trigger] stands(nodes, spill, trees, syms, lits, i)
}

/// The bucket of key `key` lists number `i`.
pub open spec fn listed(m: Map<u64, IdList>, key: u64, i: int) -> bool {
    m.dom().contains(key) && exists|p: int| 0 <= p < m[key]@.len() && #[trigger] m[key]@[p] == i
}

/// Every bucket lists numbers below `n` alone.
pub open spec fn bounded(m: Map<u64, IdList>, n: int) -> bool {
    forall|key: u64, p: int|
        m.dom().contains(key) && 0 <= p < m[key]@.len() ==> #[trigger] m[key]@[p] < n
}

/// Every node is listed under its key.
pub open spec fn nodes_listed(nodes: Seq<Node>, m: Map<u64, IdList>) -> bool {
    &&& bounded(m, nodes.len() as int)
    &&& forall|i: int| 0 <= i < nodes.len() ==> #[trigger] listed(m, nodes[i].key, i)
}

/// Every literal is listed under its key.
pub open spec fn lits_listed(lits: Seq<LiteralView>, m: Map<u64, IdList>) -> bool {
    &&& bounded(m, lits.len() as int)
    &&& forall|i: int| 0 <= i < lits.len() ==> #[trigger] listed(m, literal_key(lits[i]), i)
}

/// The map gives every symbol its number.
pub open spec fn syms_numbered(syms: Seq<SymbolId>, m: Map<SymbolId, u32>) -> bool {
    &&& forall|k: int| 0 <= k < syms.len() ==> m.dom().contains(#[trigger] syms[k]) && m[syms[k]] == k
    &&& forall|id: SymbolId| #[trigger]
        m.dom().contains(id) ==> m[id] < syms.len() && syms[m[id] as int] == id
}

/// The views of the literals.
pub open spec fn literal_views(ls: Seq<Literal>) -> Seq<LiteralView> {
    Seq::new(ls.len(), |i: int| ls[i]@)
}

/// The arena.
pub struct TermArena {
    nodes: Vec<Node>,
    spill: Vec<u32>,
    intern: HashMap<u64, IdList>,
    sym_dense: HashMap<SymbolId, u32>,
    lit_dense: HashMap<u64, IdList>,
    sym_content_ids: Vec<SymbolId>,
    lits: Vec<Literal>,
    trees: Ghost<Seq<Tree>>,
    hits: u64,
    misses: u64,
    roots: u64,
    skipped: u64,
    key_mismatches: u64,
}

impl View for TermArena {
    type V = ArenaView;

    closed spec fn view(&self) -> ArenaView {
        ArenaView {
            trees: self.trees@,
            spilled: self.spill@.len(),
            hits: self.hits as nat,
            roots: self.roots as nat,
            skipped: self.skipped as nat,
            key_mismatches: self.key_mismatches as nat,
        }
    }
}

proof fn lemma_flags(f: u16)
    ensures
        0u16 & F_SPILL == 0,
        F_HAS_VAR & F_SPILL == 0,
        0u16 & F_HAS_VAR == 0,
        F_HAS_VAR & F_HAS_VAR != 0,
        (f | F_SPILL) & F_SPILL != 0,
        (f | F_SPILL) & F_HAS_VAR == f & F_HAS_VAR,
{
    assert(0u16 & 2 == 0 && 1u16 & 2 == 0 && 0u16 & 1 == 0 && 1u16 & 1 != 0) by (bit_vector);
    assert((f | 2) & 2 != 0 && (f | 2) & 1 == f & 1) by (bit_vector);
}

/// Nodes that say the same say it of the same tree.
proof fn lemma_says_unique(
    n: Node,
    m: Node,
    kids: Seq<u32>,
    trees: Seq<Tree>,
    syms: Seq<SymbolId>,
    lits: Seq<LiteralView>,
    t: Tree,
    u: Tree,
)
    requires
        says(n, kids, trees, syms, lits, t),
        says(m, kids, trees, syms, lits, u),
        n.tag == m.tag,
        n.sym == m.sym,
    ensures
        t == u,
{
    match (t, u) {
        (Tree::App(ts), Tree::App(us)) => {
            assert forall|k: int| 0 <= k < ts.len() implies ts[k] == us[k] by {
                assert(kids[k] < trees.len());
            }
            assert(ts =~= us);
        },
        (Tree::Op(a), Tree::Op(b)) => {
            law_op_tags_are_distinct(a, b);
        },
        _ => {},
    }
}

/// A tree is said in one way only.
proof fn lemma_said_once(
    n: Node,
    nk: Seq<u32>,
    m: Node,
    mk: Seq<u32>,
    trees: Seq<Tree>,
    syms: Seq<SymbolId>,
    lits: Seq<LiteralView>,
    t: Tree,
)
    requires
        trees.no_duplicates(),
        syms.no_duplicates(),
        lits.no_duplicates(),
        says(n, nk, trees, syms, lits, t),
        says(m, mk, trees, syms, lits, t),
    ensures
        n.tag == m.tag,
        n.sym == m.sym,
        n.nargs == m.nargs,
        nk == mk,
{
    if let Tree::App(ts) = t {
        assert forall|k: int| 0 <= k < nk.len() implies nk[k] == mk[k] by {
            assert(trees[nk[k] as int] == ts[k]);
            assert(trees[mk[k] as int] == ts[k]);
        }
    }
    assert(nk =~= mk);
}

/// What is said stays said as the tables grow.
proof fn lemma_says_grows(
    n: Node,
    kids: Seq<u32>,
    t: Tree,
    trees: Seq<Tree>,
    syms: Seq<SymbolId>,
    lits: Seq<LiteralView>,
    trees2: Seq<Tree>,
    syms2: Seq<SymbolId>,
    lits2: Seq<LiteralView>,
)
    requires
        says(n, kids, trees, syms, lits, t),
        grows(trees, trees2),
        syms.len() <= syms2.len(),
        forall|k: int| 0 <= k < syms.len() ==> #[trigger] syms[k] == syms2[k],
        lits.len() <= lits2.len(),
        forall|k: int| 0 <= k < lits.len() ==> #[trigger] lits[k] == lits2[k],
    ensures
        says(n, kids, trees2, syms2, lits2, t),
{
}

/// A longer spill leaves the children of a node in place.
proof fn lemma_kids_grow(n: Node, spill: Seq<u32>, more: Seq<u32>)
    requires
        kids_placed(n, spill),
    ensures
        kids_placed(n, spill + more),
        kids_of(n, spill + more) == kids_of(n, spill),
{
    assert(kids_of(n, spill + more) =~= kids_of(n, spill));
}

/// What interning a tree adds.
proof fn lemma_interned(a: ArenaView, t: Tree)
    ensures
        ({
            let (b, ok) = interned(a, t);
            &&& grows(a.trees, b.trees)
            &&& b.trees.len() <= a.trees.len() + size(t)
            &&& b.spilled + 1 <= a.spilled + size(t)
            &&& b.hits <= a.hits + size(t)
            &&& b.roots == a.roots
            &&& b.skipped == a.skipped
            &&& b.key_mismatches == a.key_mismatches
            &&& ok == narrow(t)
            &&& ok ==> b.trees.contains(t)
        }),
    decreases t,
{
    if let Tree::App(ts) = t {
        lemma_interned_all(a, ts);
        if ts.len() <= 255 && interned_all(a, ts).1 {
            lemma_placed(interned_all(a, ts).0, t);
        }
        assert(size(t) == 1 + sizes(ts));
    } else {
        lemma_placed(a, t);
    }
}

proof fn lemma_placed(a: ArenaView, t: Tree)
    ensures
        grows(a.trees, placed(a, t).trees),
        placed(a, t).trees.contains(t),
{
    if !a.trees.contains(t) {
        assert(a.trees.push(t)[a.trees.len() as int] == t);
    }
}

/// The same for a sequence.
proof fn lemma_interned_all(a: ArenaView, ts: Seq<Tree>)
    ensures
        ({
            let (b, ok) = interned_all(a, ts);
            &&& grows(a.trees, b.trees)
            &&& b.trees.len() <= a.trees.len() + sizes(ts)
            &&& b.spilled + ts.len() <= a.spilled + sizes(ts)
            &&& b.hits <= a.hits + sizes(ts)
            &&& b.roots == a.roots
            &&& b.skipped == a.skipped
            &&& b.key_mismatches == a.key_mismatches
            &&& ok == (forall|i: int| 0 <= i < ts.len() ==> narrow(#[trigger] ts[i]))
        }),
    decreases ts,
{
    if ts.len() > 0 {
        let front = ts.drop_last();
        lemma_interned_all(a, front);
        let (b, ok) = interned_all(a, front);
        lemma_interned(b, ts.last());
        assert forall|i: int| 0 <= i < front.len() implies front[i] == #[trigger] ts[i] by {}
        if ok {
            assert(forall|i: int| 0 <= i < front.len() ==> narrow(#[trigger] front[i]));
            assert forall|i: int| 0 <= i < ts.len() - 1 implies narrow(#[trigger] ts[i]) by {
                assert(front[i] == ts[i]);
            }
            assert(ts.last() == ts[ts.len() - 1]);
        } else {
            let i = choose|i: int| 0 <= i < front.len() && !narrow(#[trigger] front[i]);
            assert(front[i] == ts[i]);
        }
        assert(size(ts.last()) >= 1);
    }
}

/// The same for the trees of a clause.
proof fn lemma_clause_interned(a: ArenaView, ts: Seq<Tree>, atoms: Seq<AtomId>)
    ensures
        ({
            let b = clause_interned(a, ts, atoms);
            &&& grows(a.trees, b.trees)
            &&& b.trees.len() <= a.trees.len() + sizes(ts)
            &&& b.spilled + ts.len() <= a.spilled + sizes(ts)
            &&& b.hits <= a.hits + sizes(ts)
            &&& b.roots == a.roots + ts.len()
            &&& b.skipped <= a.skipped + ts.len()
            &&& b.key_mismatches <= a.key_mismatches + ts.len()
        }),
    decreases ts.len(),
{
    if ts.len() > 0 {
        lemma_clause_interned(a, ts.drop_last(), atoms);
        let b = clause_interned(a, ts.drop_last(), atoms);
        lemma_interned(ArenaView { roots: b.roots + 1, ..b }, ts.last());
    }
}

/// What comes behind a refused tree plays no part.
proof fn lemma_interning_stops(a: ArenaView, ts: Seq<Tree>, n: int)
    requires
        0 <= n <= ts.len(),
        !interned_all(a, ts.take(n)).1,
    ensures
        interned_all(a, ts) == interned_all(a, ts.take(n)),
    decreases ts.len() - n,
{
    if n < ts.len() {
        assert(ts.take(n + 1).drop_last() =~= ts.take(n));
        lemma_interning_stops(a, ts, n + 1);
    } else {
        assert(ts.take(n) =~= ts);
    }
}

/// The sizes of a sequence add up.
proof fn lemma_sizes_split(ts: Seq<Tree>, n: int)
    requires
        0 <= n < ts.len(),
    ensures
        sizes(ts.take(n)) + size(ts[n]) == sizes(ts.take(n + 1)),
        sizes(ts.take(n)) + size(ts[n]) <= sizes(ts),
    decreases ts.len() - n,
{
    assert(ts.take(n + 1).drop_last() =~= ts.take(n));
    if n + 1 < ts.len() {
        lemma_sizes_split(ts, n + 1);
    } else {
        assert(ts.take(n + 1) =~= ts);
    }
}

impl TermArena {
    /// The arena's tables agree.
    pub closed spec fn wf(&self) -> bool {
        &&& self.tables_agree()
        &&& self.sym_content_ids@.len() <= self.nodes@.len()
        &&& self.lits@.len() <= self.nodes@.len()
    }

    spec fn tables_agree(&self) -> bool {
        &&& self.nodes@.len() <= u32::MAX
        &&& self.spill@.len() <= u32::MAX
        &&& self.misses == self.nodes@.len()
        &&& all_stand(
            self.nodes@,
            self.spill@,
            self.trees@,
            self.sym_content_ids@,
            literal_views(self.lits@),
        )
        &&& self.trees@.no_duplicates()
        &&& self.sym_content_ids@.no_duplicates()
        &&& literal_views(self.lits@).no_duplicates()
        &&& nodes_listed(self.nodes@, self.intern@)
        &&& lits_listed(literal_views(self.lits@), self.lit_dense@)
        &&& syms_numbered(self.sym_content_ids@, self.sym_dense@)
    }

    /// The arena's tables begin with those of the other.
    spec fn extends_tables(&self, a: TermArena) -> bool {
        &&& begins(a.nodes@, self.nodes@)
        &&& begins(a.spill@, self.spill@)
        &&& begins(a.sym_content_ids@, self.sym_content_ids@)
        &&& begins(literal_views(a.lits@), literal_views(self.lits@))
    }

    /// Where the tables only grow, all that was there stands as it was.
    proof fn lemma_kept(&self, a: TermArena)
        requires
            a.wf(),
            self.extends_tables(a),
        ensures
            kept(a, *self),
    {
        assert forall|i: int| 0 <= i < a@.trees.len() implies self.kids(#[trigger] a.node_spec(i)) == a.kids(
            a.node_spec(i),
        ) by {
            a.lemma_node(i);
            let more = self.spill@.skip(a.spill@.len() as int);
            assert(self.spill@ =~= a.spill@ + more);
            lemma_kids_grow(a.nodes@[i], a.spill@, more);
        }
    }

    /// The arena without terms.
    pub fn new() -> (a: TermArena)
        ensures
            a.wf(),
            a@ == (ArenaView {
                trees: Seq::empty(),
                spilled: 0,
                hits: 0,
                roots: 0,
                skipped: 0,
                key_mismatches: 0,
            }),
    {
        let a = TermArena {
            nodes: Vec::new(),
            spill: Vec::new(),
            intern: HashMap::new(),
            sym_dense: HashMap::new(),
            lit_dense: HashMap::new(),
            sym_content_ids: Vec::new(),
            lits: Vec::new(),
            trees: Ghost(Seq::empty()),
            hits: 0,
            misses: 0,
            roots: 0,
            skipped: 0,
            key_mismatches: 0,
        };
        a
    }

    /// The `i`-th child of a node.
    fn kid_at(&self, n: &Node, i: usize) -> (k: u32)
        requires
            kids_placed(*n, self.spill@),
            i < n.nargs,
        ensures
            k == kids_of(*n, self.spill@)[i as int],
    {
        assert(self.spill.len() == self.spill@.len());
        if n.flags & F_SPILL != 0 {
            self.spill[n.kids[0] as usize + i]
        } else {
            n.kids[i]
        }
    }

    /// Whether the children of a node are the given ones.
    fn kids_are(&self, n: &Node, ids: &[u32]) -> (r: bool)
        requires
            kids_placed(*n, self.spill@),
            n.nargs == ids@.len(),
        ensures
            r == (kids_of(*n, self.spill@) == ids@),
    {
        let mut i: usize = 0;
        while i < ids.len()
            invariant
                i <= ids@.len(),
                kids_placed(*n, self.spill@),
                n.nargs == ids@.len(),
                forall|k: int| 0 <= k < i ==> kids_of(*n, self.spill@)[k] == #[trigger] ids@[k],
            decreases ids@.len() - i,
        {
            if self.kid_at(n, i) != ids[i] {
                return false;
            }
            i += 1;
        }
        assert(kids_of(*n, self.spill@) =~= ids@);
        true
    }

    /// The node that says the same as `n` with children `kid_ids`.
    fn find_node(&self, n: &Node, kid_ids: &[u32], Ghost(t): Ghost<Tree>) -> (r: Option<u32>)
        requires
            self.tables_agree(),
            says(
                *n,
                kid_ids@,
                self.trees@,
                self.sym_content_ids@,
                literal_views(self.lits@),
                t,
            ),
            facts_hold(*n, t),
        ensures
            match r {
                Some(c) => c < self.trees@.len() && self.trees@[c as int] == t,
                None => !self.trees@.contains(t),
            },
    {
        let ghost lits = literal_views(self.lits@);
        match self.intern.get(&n.key) {
            Some(cands) => {
                let list: &[u32] = cands.as_slice();
                let mut p: usize = 0;
                while p < list.len()
                    invariant
                        p <= list@.len(),
                        list@ == cands@,
                        self.tables_agree(),
                        self.intern@.dom().contains(n.key),
                        self.intern@[n.key] == *cands,
                        lits == literal_views(self.lits@),
                        says(*n, kid_ids@, self.trees@, self.sym_content_ids@, lits, t),
                        facts_hold(*n, t),
                        forall|q: int| 0 <= q < p ==> self.trees@[(#[trigger] list@[q]) as int] != t,
                    decreases list@.len() - p,
                {
                    let c: u32 = list[p];
                    assert(self.intern@[n.key]@[p as int] < self.nodes@.len());
                    assert(stands(
                        self.nodes@,
                        self.spill@,
                        self.trees@,
                        self.sym_content_ids@,
                        lits,
                        c as int,
                    ));
                    assert(self.nodes.len() == self.nodes@.len());
                    let cn: &Node = &self.nodes[c as usize];
                    if cn.tag == n.tag && cn.sym == n.sym && cn.nargs == n.nargs {
                        if self.kids_are(cn, kid_ids) {
                            proof {
                                lemma_says_unique(
                                    *cn,
                                    *n,
                                    kid_ids@,
                                    self.trees@,
                                    self.sym_content_ids@,
                                    lits,
                                    self.trees@[c as int],
                                    t,
                                );
                            }
                            return Some(c);
                        }
                    }
                    proof {
                        if self.trees@[c as int] == t {
                            lemma_said_once(
                                *cn,
                                kids_of(*cn, self.spill@),
                                *n,
                                kid_ids@,
                                self.trees@,
                                self.sym_content_ids@,
                                lits,
                                t,
                            );
                        }
                    }
                    p += 1;
                }
                proof {
                    if self.trees@.contains(t) {
                        let j = self.trees@.index_of(t);
                        assert(stands(
                            self.nodes@,
                            self.spill@,
                            self.trees@,
                            self.sym_content_ids@,
                            lits,
                            j,
                        ));
                        assert(listed(self.intern@, self.nodes@[j].key, j));
                        let q = choose|q: int| 0 <= q < cands@.len() && #[trigger] cands@[q] == j;
                        assert(list@[q] == j);
                    }
                }
                None
            },
            None => {
                proof {
                    if self.trees@.contains(t) {
                        let j = self.trees@.index_of(t);
                        assert(stands(
                            self.nodes@,
                            self.spill@,
                            self.trees@,
                            self.sym_content_ids@,
                            lits,
                            j,
                        ));
                        assert(listed(self.intern@, self.nodes@[j].key, j));
                    }
                }
                None
            },
        }
    }

    /// The number of the node that says the same as `n` with children
    /// `kid_ids`; a new one if there is none yet.
    fn intern_node(&mut self, n: Node, kid_ids: &[u32], Ghost(t): Ghost<Tree>) -> (id: u32)
        requires
            old(self).tables_agree(),
            says(
                n,
                kid_ids@,
                old(self).trees@,
                old(self).sym_content_ids@,
                literal_views(old(self).lits@),
                t,
            ),
            facts_hold(n, t),
            n.flags == var_flag(t),
            forall|k: int| 0 <= k < 4 ==> #[trigger] n.kids@[k] == 0,
            room(old(self)@, 1),
            old(self).spill@.len() + kid_ids@.len() <= u32::MAX,
        ensures
            final(self).tables_agree(),
            final(self)@ == placed(old(self)@, t),
            final(self).sym_content_ids@ == old(self).sym_content_ids@,
            final(self).lits@ == old(self).lits@,
            id < final(self).trees@.len(),
            final(self).trees@[id as int] == t,
            grows(old(self).trees@, final(self).trees@),
            final(self).extends_tables(*old(self)),
    {
        let ghost lits = literal_views(self.lits@);
        let ghost syms = self.sym_content_ids@;
        let ghost trees = self.trees@;
        let ghost nodes = self.nodes@;
        let ghost spill = self.spill@;
        if let Some(c) = self.find_node(&n, kid_ids, Ghost(t)) {
            self.hits += 1;
            return c;
        }
        proof {
            lemma_flags(0);
        }
        let mut m: Node = n;
        if kid_ids.len() > MAX_INLINE {
            m.flags = m.flags | F_SPILL;
            m.kids[0] = self.spill.len() as u32;
            let mut k: usize = 0;
            while k < kid_ids.len()
                invariant
                    k <= kid_ids@.len(),
                    self.spill@ == spill + kid_ids@.take(k as int),
                    *self == (TermArena { spill: self.spill, ..*old(self) }),
                decreases kid_ids@.len() - k,
            {
                self.spill.push(kid_ids[k]);
                k += 1;
                assert(kid_ids@.take(k as int) =~= kid_ids@.take(k - 1).push(kid_ids@[k - 1]));
            }
            assert(kid_ids@.take(k as int) =~= kid_ids@);
            proof {
                lemma_flags(n.flags);
                assert(kids_of(m, self.spill@) =~= kid_ids@);
            }
        } else {
            let mut k: usize = 0;
            while k < kid_ids.len()
                invariant
                    k <= kid_ids@.len() <= 4,
                    m == (Node { kids: m.kids, ..n }),
                    forall|j: int| 0 <= j < k ==> m.kids@[j] == #[trigger] kid_ids@[j],
                    forall|j: int| k <= j < 4 ==> #[trigger] m.kids@[j] == 0,
                decreases kid_ids@.len() - k,
            {
                m.kids[k] = kid_ids[k];
                k += 1;
            }
            proof {
                assert(spill =~= spill + Seq::<u32>::empty());
                assert(kids_of(m, self.spill@) =~= kid_ids@);
            }
        }
        let ghost more = self.spill@.skip(spill.len() as int);
        assert(self.spill@ =~= spill + more);
        let id: u32 = self.nodes.len() as u32;
        self.nodes.push(m);
        list_under(&mut self.intern, m.key, id);
        self.misses += 1;
        proof {
            self.trees = Ghost(trees.push(t));
            assert(grows(trees, trees.push(t)));
            assert forall|j: int| 0 <= j < self.nodes@.len() implies #[trigger] stands(
                self.nodes@,
                self.spill@,
                self.trees@,
                syms,
                lits,
                j,
            ) by {
                if j < nodes.len() {
                    assert(stands(nodes, spill, trees, syms, lits, j));
                    lemma_kids_grow(nodes[j], spill, more);
                    lemma_says_grows(
                        nodes[j],
                        kids_of(nodes[j], spill),
                        trees[j],
                        trees,
                        syms,
                        lits,
                        self.trees@,
                        syms,
                        lits,
                    );
                } else {
                    lemma_flags(n.flags);
                    lemma_says_grows(m, kid_ids@, t, trees, syms, lits, self.trees@, syms, lits);
                    if let Tree::App(ts) = t {
                    } else {
                        assert(kid_ids@.len() == 0);
                    }
                }
            }
            assert forall|j: int| 0 <= j < self.nodes@.len() implies #[trigger] listed(
                self.intern@,
                self.nodes@[j].key,
                j,
            ) by {
                if j < nodes.len() {
                    assert(listed(old(self).intern@, nodes[j].key, j));
                    lemma_still_listed(old(self).intern@, self.intern@, m.key, id, nodes[j].key, j);
                } else {
                    let b = self.intern@[m.key]@;
                    assert(b[b.len() - 1] == id);
                }
            }
            lemma_still_bounded(old(self).intern@, self.intern@, m.key, id, nodes.len() as int);
        }
        id
    }

    /// The nodes stand as the tables of symbols and literals grow.
    proof fn lemma_tables_grow(
        nodes: Seq<Node>,
        spill: Seq<u32>,
        trees: Seq<Tree>,
        syms: Seq<SymbolId>,
        lits: Seq<LiteralView>,
        syms2: Seq<SymbolId>,
        lits2: Seq<LiteralView>,
    )
        requires
            all_stand(nodes, spill, trees, syms, lits),
            syms.len() <= syms2.len(),
            forall|k: int| 0 <= k < syms.len() ==> #[trigger] syms[k] == syms2[k],
            lits.len() <= lits2.len(),
            forall|k: int| 0 <= k < lits.len() ==> #[trigger] lits[k] == lits2[k],
        ensures
            all_stand(nodes, spill, trees, syms2, lits2),
    {
        assert forall|j: int| 0 <= j < nodes.len() implies #[trigger] stands(
            nodes,
            spill,
            trees,
            syms2,
            lits2,
            j,
        ) by {
            assert(stands(nodes, spill, trees, syms, lits, j));
            lemma_says_grows(
                nodes[j],
                kids_of(nodes[j], spill),
                trees[j],
                trees,
                syms,
                lits,
                trees,
                syms2,
                lits2,
            );
        }
    }

    /// The number of symbol `id`; a new one if it has none yet.
    fn dense_sym(&mut self, id: SymbolId) -> (dense: u32)
        requires
            old(self).wf(),
            room(old(self)@, 1),
        ensures
            final(self).tables_agree(),
            final(self)@ == old(self)@,
            final(self).nodes@ == old(self).nodes@,
            final(self).lits@ == old(self).lits@,
            dense < final(self).sym_content_ids@.len(),
            final(self).sym_content_ids@[dense as int] == id,
            final(self).sym_content_ids@ != old(self).sym_content_ids@ ==> {
                &&& final(self).sym_content_ids@.len() == old(self).sym_content_ids@.len() + 1
                &&& !old(self).trees@.contains(Tree::Sym(id))
            },
            final(self).extends_tables(*old(self)),
    {
        let ghost syms = self.sym_content_ids@;
        let ghost lits = literal_views(self.lits@);
        if let Some(d) = self.sym_dense.get(&id) {
            return *d;
        }
        proof {
            if self.trees@.contains(Tree::Sym(id)) {
                let j = self.trees@.index_of(Tree::Sym(id));
                assert(stands(self.nodes@, self.spill@, self.trees@, syms, lits, j));
                assert(syms[self.nodes@[j].sym as int] == id);
            }
        }
        let dense: u32 = self.sym_content_ids.len() as u32;
        self.sym_dense.insert(id, dense);
        self.sym_content_ids.push(id);
        proof {
            Self::lemma_tables_grow(
                self.nodes@,
                self.spill@,
                self.trees@,
                syms,
                lits,
                self.sym_content_ids@,
                lits,
            );
            assert forall|k: int| 0 <= k < syms.len() implies #[trigger] syms[k] != id by {
                assert(old(self).sym_dense@.dom().contains(syms[k]));
            }
        }
        dense
    }

    /// The number of literal `l`; a new one if it has none yet.
    fn dense_lit(&mut self, l: &Literal, lh: u64) -> (dense: u32)
        requires
            old(self).wf(),
            room(old(self)@, 1),
            lh == literal_key(l@),
        ensures
            final(self).tables_agree(),
            final(self)@ == old(self)@,
            final(self).nodes@ == old(self).nodes@,
            final(self).sym_content_ids@ == old(self).sym_content_ids@,
            dense < final(self).lits@.len(),
            final(self).lits@[dense as int]@ == l@,
            final(self).lits@ != old(self).lits@ ==> {
                &&& final(self).lits@.len() == old(self).lits@.len() + 1
                &&& !old(self).trees@.contains(Tree::Lit(l@))
            },
            final(self).extends_tables(*old(self)),
    {
        let ghost syms = self.sym_content_ids@;
        let ghost lits = literal_views(self.lits@);
        assert(self.lits.len() == self.lits@.len());
        if let Some(cands) = self.lit_dense.get(&lh) {
            let list: &[u32] = cands.as_slice();
            let mut p: usize = 0;
            while p < list.len()
                invariant
                    p <= list@.len(),
                    list@ == cands@,
                    lits == literal_views(self.lits@),
                    lits_listed(lits, self.lit_dense@),
                    self.lit_dense@.dom().contains(lh),
                    self.lit_dense@[lh] == *cands,
                    *self == *old(self),
                    self.wf(),
                    lits.len() == self.lits.len(),
                    forall|q: int| 0 <= q < p ==> lits[(#[trigger] list@[q]) as int] != l@,
                decreases list@.len() - p,
            {
                let c: u32 = list[p];
                assert(self.lit_dense@[lh]@[p as int] < lits.len());
                assert(lits[c as int] == self.lits@[c as int]@);
                if self.lits[c as usize].same(l) {
                    return c;
                }
                p += 1;
            }
            proof {
                assert forall|k: int| 0 <= k < lits.len() implies #[trigger] lits[k] != l@ by {
                    if lits[k] == l@ {
                        assert(listed(self.lit_dense@, literal_key(lits[k]), k));
                        let q = choose|q: int| 0 <= q < cands@.len() && #[trigger] cands@[q] == k;
                        assert(list@[q] == k);
                    }
                }
            }
        } else {
            proof {
                assert forall|k: int| 0 <= k < lits.len() implies #[trigger] lits[k] != l@ by {
                    if lits[k] == l@ {
                        assert(listed(self.lit_dense@, literal_key(lits[k]), k));
                    }
                }
            }
        }
        proof {
            if self.trees@.contains(Tree::Lit(l@)) {
                let j = self.trees@.index_of(Tree::Lit(l@));
                assert(stands(self.nodes@, self.spill@, self.trees@, syms, lits, j));
                assert(lits[self.nodes@[j].sym as int] == l@);
            }
        }
        let dense: u32 = self.lits.len() as u32;
        list_under(&mut self.lit_dense, lh, dense);
        self.lits.push(l.clone());
        proof {
            let lits2 = literal_views(self.lits@);
            assert(lits2.len() == lits.len() + 1);
            assert forall|k: int| 0 <= k < lits.len() implies #[trigger] lits[k] == lits2[k] by {}
            assert(lits2[dense as int] == l@);
            Self::lemma_tables_grow(self.nodes@, self.spill@, self.trees@, syms, lits, syms, lits2);
            assert forall|k: int| 0 <= k < lits2.len() implies #[trigger] listed(
                self.lit_dense@,
                literal_key(lits2[k]),
                k,
            ) by {
                if k < lits.len() {
                    assert(lits[k] == lits2[k]);
                    assert(listed(old(self).lit_dense@, literal_key(lits[k]), k));
                    lemma_still_listed(
                        old(self).lit_dense@,
                        self.lit_dense@,
                        lh,
                        dense,
                        literal_key(lits[k]),
                        k,
                    );
                } else {
                    let b = self.lit_dense@[lh]@;
                    assert(b[b.len() - 1] == dense);
                }
            }
            lemma_still_bounded(old(self).lit_dense@, self.lit_dense@, lh, dense, lits.len() as int);
            assert forall|i: int, j: int| 0 <= i < j < lits2.len() implies lits2[i] != lits2[j] by {
                assert(lits[i] == lits2[i]);
                if j < lits.len() {
                    assert(lits[j] == lits2[j]);
                }
            }
        }
        dense
    }

    /// Interns the elements of an application, in order.
    fn intern_elems(&mut self, elems: &Vec<Term>) -> (r: Option<IdList>)
        requires
            old(self).wf(),
            room(old(self)@, sizes(views(elems@))),
            within(Tree::App(views(elems@)), u32::MAX + 1),
        ensures
            final(self).wf(),
            final(self)@ == interned_all(old(self)@, views(elems@)).0,
            r is Some <==> interned_all(old(self)@, views(elems@)).1,
            r matches Some(ids) ==> {
                &&& ids@.len() == elems@.len()
                &&& forall|k: int|
                    0 <= k < elems@.len() ==> (#[trigger] ids@[k]) < final(self)@.trees.len()
                        && final(self)@.trees[ids@[k] as int] == elems@[k]@
            },
            final(self).extends_tables(*old(self)),
        decreases elems,
    {
        let ghost ts = views(elems@);
        let mut ids: IdList = IdList::new();
        let mut i: usize = 0;
        assert(ts.take(0) =~= Seq::empty());
        while i < elems.len()
            invariant
                i <= elems@.len(),
                ts == views(elems@),
                self.wf(),
                room(old(self)@, sizes(ts)),
                within(Tree::App(ts), u32::MAX + 1),
                interned_all(old(self)@, ts.take(i as int)) == (self@, true),
                self.extends_tables(*old(self)),
                ids@.len() == i,
                forall|k: int|
                    0 <= k < i ==> (#[trigger] ids@[k]) < self@.trees.len()
                        && self@.trees[ids@[k] as int] == elems@[k]@,
                decreases_to!(elems => elems@),
            decreases elems@.len() - i,
        {
            let ghost a = self@;
            proof {
                assert(ts.take(i + 1).drop_last() =~= ts.take(i as int));
                assert(ts[i as int] == elems@[i as int]@);
                lemma_interned_all(old(self)@, ts.take(i as int));
                lemma_sizes_split(ts, i as int);
                assert forall|v: int| #[trigger] occurs(v, ts[i as int]) implies 0 <= v < u32::MAX + 1 by {
                    lemma_occurs_elem(v, ts, i as int);
                }
                lemma_interned(a, ts[i as int]);
            }
            match self.intern_tree(&elems[i]) {
                Some(id) => {
                    ids.push(id);
                    assert forall|k: int| 0 <= k < i + 1 implies (#[trigger] ids@[k]) < self@.trees.len()
                        && self@.trees[ids@[k] as int] == elems@[k]@ by {
                        if k < i {
                            assert(a.trees[ids@[k] as int] == elems@[k]@);
                        }
                    }
                },
                None => {
                    proof {
                        lemma_interning_stops(old(self)@, ts, i + 1);
                    }
                    return None;
                },
            }
            i += 1;
        }
        assert(ts.take(i as int) =~= ts);
        Some(ids)
    }

    /// The key of an application whose elements have been interned.
    fn key_of(&self, elems: &Vec<Term>, kid_ids: &[u32]) -> (key: u64)
        requires
            self.wf(),
            kid_ids@.len() == elems@.len(),
            forall|k: int|
                0 <= k < elems@.len() ==> (#[trigger] kid_ids@[k]) < self@.trees.len()
                    && self@.trees[kid_ids@[k] as int] == elems@[k]@,
        ensures
            key == app_key(views(elems@)),
    {
        let ghost ts = views(elems@);
        let mut h: ElementHasher = ElementHasher::new(elems.len());
        let mut i: usize = 0;
        assert(ts.take(0) =~= Seq::empty());
        assert(h@ =~= be_bytes(ts.len() as u64) + parts_bytes(parts_of(ts.take(0))));
        while i < elems.len()
            invariant
                i <= elems@.len(),
                ts == views(elems@),
                self.wf(),
                kid_ids@.len() == elems@.len(),
                forall|k: int|
                    0 <= k < elems@.len() ==> (#[trigger] kid_ids@[k]) < self@.trees.len()
                        && self@.trees[kid_ids@[k] as int] == elems@[k]@,
                h@ == be_bytes(ts.len() as u64) + parts_bytes(parts_of(ts.take(i as int))),
            decreases elems@.len() - i,
        {
            let e: &Term = &elems[i];
            let kid: u32 = kid_ids[i];
            assert(ts[i as int] == e@);
            assert(stands(
                self.nodes@,
                self.spill@,
                self.trees@,
                self.sym_content_ids@,
                literal_views(self.lits@),
                kid as int,
            ));
            assert(self.nodes.len() == self.nodes@.len());
            match e {
                Term::Var(slot) => h.variable(canonical_var(*slot), false),
                Term::Sym(s) => h.symbol(s.id()),
                Term::Lit(l) => h.literal(l),
                Term::Op(op) => h.op(op),
                Term::App(_) => h.sub(self.nodes[kid as usize].key),
            }
            proof {
                lemma_part_taken(ts, i as int);
                assert(h@ =~= be_bytes(ts.len() as u64) + parts_bytes(parts_of(ts.take(i + 1))));
            }
            i += 1;
        }
        assert(ts.take(i as int) =~= ts);
        proof {
            lemma_parts_of(ts);
        }
        h.finish()
    }

    /// The variable mask, the capped number of leaves and whether there is a
    /// variable, over the given nodes.
    fn sums(&self, kid_ids: &[u32], Ghost(ts): Ghost<Seq<Tree>>) -> (r: (u64, u32, bool))
        requires
            self.wf(),
            kid_ids@.len() == ts.len() <= 255,
            forall|k: int|
                0 <= k < ts.len() ==> (#[trigger] kid_ids@[k]) < self@.trees.len() && self@.trees[kid_ids@[k] as int]
                    == ts[k],
        ensures
            r.0 == var_masks(ts),
            r.1 == capped(leaves_of(ts)),
            r.2 == !ground(Tree::App(ts)),
    {
        let mut vmask: u64 = 0;
        let mut weight: u64 = 0;
        let mut has_var: bool = false;
        let mut i: usize = 0;
        assert(ts.take(0) =~= Seq::empty());
        while i < kid_ids.len()
            invariant
                i <= kid_ids@.len(),
                self.wf(),
                kid_ids@.len() == ts.len() <= 255,
                forall|k: int|
                    0 <= k < ts.len() ==> (#[trigger] kid_ids@[k]) < self@.trees.len()
                        && self@.trees[kid_ids@[k] as int] == ts[k],
                vmask == var_masks(ts.take(i as int)),
                weight <= i * 0xFFFF_FFFF,
                capped(weight as nat) == capped(leaves_of(ts.take(i as int))),
                has_var == !(forall|k: int| 0 <= k < i ==> ground(#[trigger] ts[k])),
            decreases kid_ids@.len() - i,
        {
            let kid: u32 = kid_ids[i];
            assert(stands(
                self.nodes@,
                self.spill@,
                self.trees@,
                self.sym_content_ids@,
                literal_views(self.lits@),
                kid as int,
            ));
            assert(self.nodes.len() == self.nodes@.len());
            assert(ts.take(i + 1).drop_last() =~= ts.take(i as int));
            assert(ts.take(i + 1).last() == ts[i as int]);
            let kn: &Node = &self.nodes[kid as usize];
            vmask = vmask | kn.vmask;
            weight = weight + kn.weight as u64;
            if kn.flags & F_HAS_VAR != 0 {
                has_var = true;
                assert(!ground(ts[i as int]));
            } else {
                assert(ground(ts[i as int]));
            }
            i += 1;
        }
        assert(ts.take(i as int) =~= ts);
        proof {
            lemma_ground_app(ts);
        }
        let capped_weight: u32 = if weight > u32::MAX as u64 {
            u32::MAX
        } else {
            weight as u32
        };
        (vmask, capped_weight, has_var)
    }

    /// Interns a term, elements first, and gives its number; `None` if an
    /// application within it has more than 255 elements.
    pub fn intern_term(&mut self, t: &Term) -> (r: Option<u32>)
        requires
            old(self).wf(),
            room(old(self)@, size(t@)),
            within(t@, u32::MAX + 1),
        ensures
            final(self).wf(),
            final(self)@ == interned(old(self)@, t@).0,
            r is Some <==> narrow(t@),
            r matches Some(id) ==> id < final(self)@.trees.len() && final(self)@.trees[id as int] == t@,
            kept(*old(self), *final(self)),
    {
        let ghost before = *self;
        let r = self.intern_tree(t);
        proof {
            self.lemma_kept(before);
        }
        r
    }

    fn intern_tree(&mut self, t: &Term) -> (r: Option<u32>)
        requires
            old(self).wf(),
            room(old(self)@, size(t@)),
            within(t@, u32::MAX + 1),
        ensures
            final(self).wf(),
            final(self)@ == interned(old(self)@, t@).0,
            r is Some <==> narrow(t@),
            r matches Some(id) ==> id < final(self)@.trees.len() && final(self)@.trees[id as int] == t@,
            final(self).extends_tables(*old(self)),
        decreases t,
    {
        proof {
            lemma_interned(old(self)@, t@);
            lemma_flags(0);
        }
        match t {
            Term::Var(slot) => {
                assert(occurs(*slot as int, t@));
                let canon: u64 = canonical_var(*slot);
                assert(canon & 63 < 64) by (bit_vector);
                let key: u64 = mix64(((TAG_VAR as u64) << 56) ^ canon);
                let n = Node {
                    key,
                    vmask: 1u64 << (canon & 63),
                    kids: [0, 0, 0, 0],
                    sym: *slot as u32,
                    weight: 1,
                    tag: TAG_VAR,
                    nargs: 0,
                    flags: F_HAS_VAR,
                };
                assert(!ground(t@));
                Some(self.intern_node(n, &[], Ghost(t@)))
            },
            Term::Sym(s) => {
                let id: SymbolId = s.id();
                let dense: u32 = self.dense_sym(id);
                let n = Node {
                    key: mix64(((TAG_SYM as u64) << 56) ^ id),
                    vmask: 0,
                    kids: [0, 0, 0, 0],
                    sym: dense,
                    weight: 1,
                    tag: TAG_SYM,
                    nargs: 0,
                    flags: 0,
                };
                Some(self.intern_node(n, &[], Ghost(t@)))
            },
            Term::Lit(l) => {
                let lh: u64 = literal_content_key(l);
                let dense: u32 = self.dense_lit(l, lh);
                let n = Node {
                    key: mix64(((TAG_LIT as u64) << 56) ^ lh),
                    vmask: 0,
                    kids: [0, 0, 0, 0],
                    sym: dense,
                    weight: 1,
                    tag: TAG_LIT,
                    nargs: 0,
                    flags: 0,
                };
                Some(self.intern_node(n, &[], Ghost(t@)))
            },
            Term::Op(op) => {
                let b: u8 = op_tag(op);
                let n = Node {
                    key: mix64(((TAG_OP as u64) << 56) ^ (b as u64)),
                    vmask: 0,
                    kids: [0, 0, 0, 0],
                    sym: b as u32,
                    weight: 1,
                    tag: TAG_OP,
                    nargs: 0,
                    flags: 0,
                };
                Some(self.intern_node(n, &[], Ghost(t@)))
            },
            Term::App(elems) => {
                let ghost ts = views(elems@);
                assert(t@ == Tree::App(ts));
                assert(size(t@) == 1 + sizes(ts));
                if elems.len() > 255 {
                    return None;
                }
                let ids: IdList = match self.intern_elems(elems) {
                    Some(ids) => ids,
                    None => {
                        return None;
                    },
                };
                proof {
                    lemma_interned_all(old(self)@, ts);
                }
                let kid_ids: &[u32] = ids.as_slice();
                let key: u64 = self.key_of(elems, kid_ids);
                let (vmask, weight, has_var) = self.sums(kid_ids, Ghost(ts));
                let n = Node {
                    key,
                    vmask,
                    kids: [0, 0, 0, 0],
                    sym: 0,
                    weight,
                    tag: TAG_APP,
                    nargs: elems.len() as u8,
                    flags: if has_var {
                        F_HAS_VAR
                    } else {
                        0
                    },
                };
                assert(says(
                    n,
                    kid_ids@,
                    self.trees@,
                    self.sym_content_ids@,
                    literal_views(self.lits@),
                    t@,
                ));
                Some(self.intern_node(n, kid_ids, Ghost(t@)))
            },
        }
    }

    /// Interns the terms of a clause's literals and compares each key with the
    /// identity that the literal's atom has; what one list has more than the
    /// other is left out.  `None` if some term is refused; the others are
    /// interned all the same.
    pub fn intern_clause(&mut self, terms: &Vec<(bool, Term)>, atoms: &Vec<AtomId>) -> (r: Option<IdList>)
        requires
            old(self).wf(),
            room(old(self)@, sizes(paired_trees(terms@, atoms@))),
            old(self)@.roots + terms@.len() <= u64::MAX,
            old(self)@.skipped + terms@.len() <= u64::MAX,
            old(self)@.key_mismatches + terms@.len() <= u64::MAX,
            forall|k: int| 0 <= k < terms@.len() ==> within((#[trigger] terms@[k]).1@, u32::MAX + 1),
        ensures
            final(self).wf(),
            final(self)@ == clause_interned(old(self)@, paired_trees(terms@, atoms@), atoms@),
            r is Some <==> forall|k: int|
                0 <= k < paired_trees(terms@, atoms@).len() ==> narrow((#[trigger] terms@[k]).1@),
            r matches Some(ids) ==> {
                &&& ids@.len() == paired_trees(terms@, atoms@).len()
                &&& forall|k: int|
                    0 <= k < ids@.len() ==> (#[trigger] ids@[k]) < final(self)@.trees.len()
                        && final(self)@.trees[ids@[k] as int] == terms@[k].1@
            },
            kept(*old(self), *final(self)),
    {
        let ghost ts = paired_trees(terms@, atoms@);
        let n: usize = if terms.len() < atoms.len() {
            terms.len()
        } else {
            atoms.len()
        };
        let mut out: IdList = IdList::new();
        let mut ok: bool = true;
        let mut i: usize = 0;
        assert(ts.take(0) =~= Seq::empty());
        while i < n
            invariant
                i <= n,
                n <= terms@.len(),
                n <= atoms@.len(),
                n == ts.len(),
                self.wf(),
                ts == paired_trees(terms@, atoms@),
                room(old(self)@, sizes(ts)),
                old(self)@.roots + terms@.len() <= u64::MAX,
                old(self)@.skipped + terms@.len() <= u64::MAX,
                old(self)@.key_mismatches + terms@.len() <= u64::MAX,
                old(self).wf(),
                forall|k: int| 0 <= k < terms@.len() ==> within((#[trigger] terms@[k]).1@, u32::MAX + 1),
                self@ == clause_interned(old(self)@, ts.take(i as int), atoms@),
                self.extends_tables(*old(self)),
                ok <==> forall|k: int| 0 <= k < i ==> narrow((#[trigger] terms@[k]).1@),
                ok ==> out@.len() == i,
                ok ==> forall|k: int|
                    0 <= k < i ==> (#[trigger] out@[k]) < self@.trees.len() && self@.trees[out@[k] as int]
                        == terms@[k].1@,
            decreases n - i,
        {
            let ghost a = self@;
            proof {
                assert(ts.take(i + 1).drop_last() =~= ts.take(i as int));
                assert(ts[i as int] == terms@[i as int].1@);
                lemma_clause_interned(old(self)@, ts.take(i as int), atoms@);
                lemma_sizes_split(ts, i as int);
                lemma_interned(a, ts[i as int]);
                lemma_interned(ArenaView { roots: a.roots + 1, ..a }, ts[i as int]);
            }
            self.roots += 1;
            match self.intern_tree(&terms[i].1) {
                Some(id) => {
                    assert(stands(
                        self.nodes@,
                        self.spill@,
                        self.trees@,
                        self.sym_content_ids@,
                        literal_views(self.lits@),
                        id as int,
                    ));
                    assert(self.nodes.len() == self.nodes@.len());
                    if self.nodes[id as usize].key != atoms[i] {
                        self.key_mismatches += 1;
                    }
                    out.push(id);
                },
                None => {
                    self.skipped += 1;
                    ok = false;
                },
            }
            i += 1;
        }
        assert(ts.take(i as int) =~= ts);
        proof {
            self.lemma_kept(*old(self));
        }
        if ok {
            Some(out)
        } else {
            None
        }
    }

    /// The children of one of the arena's nodes.
    pub closed spec fn kids(&self, n: Node) -> Seq<u32> {
        kids_of(n, self.spill@)
    }

    /// The node is one of the arena's.
    pub closed spec fn has_node(&self, n: Node) -> bool {
        self.nodes@.contains(n)
    }

    /// Node number `i`.
    pub closed spec fn node_spec(&self, i: int) -> Node {
        self.nodes@[i]
    }

    /// The literals by number.
    pub closed spec fn literals(&self) -> Seq<LiteralView> {
        literal_views(self.lits@)
    }

    /// The symbols by number.
    pub closed spec fn symbols(&self) -> Seq<SymbolId> {
        self.sym_content_ids@
    }

    proof fn lemma_node(&self, i: int)
        requires
            self.wf(),
            0 <= i < self.trees@.len(),
        ensures
            stands(
                self.nodes@,
                self.spill@,
                self.trees@,
                self.sym_content_ids@,
                literal_views(self.lits@),
                i,
            ),
    {
    }

    /// The number of nodes.
    pub fn len(&self) -> (n: usize)
        requires
            self.wf(),
        ensures
            n == self@.trees.len(),
    {
        self.nodes.len()
    }

    /// Node number `id`.
    pub fn node(&self, id: u32) -> (n: &Node)
        requires
            self.wf(),
            id < self@.trees.len(),
        ensures
            *n == self.node_spec(id as int),
            self.has_node(*n),
            facts_hold(*n, self@.trees[id as int]),
            laid_out(*n, self@.trees[id as int]),
            match self@.trees[id as int] {
                Tree::App(ts) => {
                    &&& n.sym == 0
                    &&& self.kids(*n).len() == ts.len()
                    &&& ts.len() <= MAX_INLINE ==> self.kids(*n) == n.kids@.take(ts.len() as int)
                    &&& forall|k: int|
                        0 <= k < ts.len() ==> (#[trigger] self.kids(*n)[k]) < id && self@.trees[self.kids(
                            *n,
                        )[k] as int] == ts[k]
                },
                Tree::Sym(s) => n.sym < self.symbols().len() && self.symbols()[n.sym as int] == s,
                Tree::Var(v) => n.sym == v,
                Tree::Op(op) => n.sym == op_tag_spec(op),
                Tree::Lit(l) => n.sym < self.literals().len() && self.literals()[n.sym as int] == l,
            },
    {
        proof {
            self.lemma_node(id as int);
            lemma_flags(0);
        }
        assert(self.nodes.len() == self.nodes@.len());
        &self.nodes[id as usize]
    }

    /// The `i`-th child of a node.
    pub fn kid(&self, n: &Node, i: usize) -> (k: u32)
        requires
            self.wf(),
            self.has_node(*n),
            i < n.nargs,
        ensures
            k == self.kids(*n)[i as int],
    {
        proof {
            let j = self.nodes@.index_of(*n);
            self.lemma_node(j);
        }
        self.kid_at(n, i)
    }

    /// The identity of symbol number `dense`.
    pub fn sym_content(&self, dense: u32) -> (id: SymbolId)
        requires
            dense < self.symbols().len(),
        ensures
            id == self.symbols()[dense as int],
    {
        assert(self.sym_content_ids.len() == self.sym_content_ids@.len());
        self.sym_content_ids[dense as usize]
    }

    /// The lookups that found a node.
    pub fn hits(&self) -> (n: u64)
        ensures
            n == self@.hits,
    {
        self.hits
    }

    /// The lookups that made a node.
    pub fn misses(&self) -> (n: u64)
        requires
            self.wf(),
        ensures
            n == self@.trees.len(),
    {
        self.misses
    }

    /// The clause literals taken in.
    pub fn roots(&self) -> (n: u64)
        ensures
            n == self@.roots,
    {
        self.roots
    }

    /// The clause literals refused.
    pub fn skipped(&self) -> (n: u64)
        ensures
            n == self@.skipped,
    {
        self.skipped
    }

    /// The clause literals whose key was not their atom's identity.
    pub fn key_mismatches(&self) -> (n: u64)
        ensures
            n == self@.key_mismatches,
    {
        self.key_mismatches
    }

    /// The children kept outside their nodes.
    pub fn spilled(&self) -> (n: usize)
        ensures
            n == self@.spilled,
    {
        self.spill.len()
    }

    /// The number of the subterm at the given path: one element index per
    /// step.
    pub fn subterm_at_path(&self, t: u32, path: &[u8]) -> (r: Option<u32>)
        requires
            self.wf(),
            t < self@.trees.len(),
        ensures
            match r {
                Some(u) => u < self@.trees.len() && subtree(self@.trees[t as int], path@) == Some(
                    self@.trees[u as int],
                ),
                None => subtree(self@.trees[t as int], path@) is None,
            },
    {
        let ghost root = self@.trees[t as int];
        let mut u: u32 = t;
        let mut i: usize = 0;
        assert(path@.take(0) =~= Seq::empty());
        while i < path.len()
            invariant
                i <= path@.len(),
                self.wf(),
                t < self@.trees.len(),
                root == self@.trees[t as int],
                u < self@.trees.len(),
                subtree(root, path@.take(i as int)) == Some(self@.trees[u as int]),
            decreases path@.len() - i,
        {
            let n: &Node = self.node(u);
            let b: u8 = path[i];
            assert(path@.take(i + 1).drop_last() =~= path@.take(i as int));
            if n.tag != TAG_APP || b >= n.nargs {
                proof {
                    lemma_no_subtree(root, path@, i + 1);
                }
                return None;
            }
            u = self.kid(n, b as usize);
            i += 1;
        }
        assert(path@.take(i as int) =~= path@);
        Some(u)
    }

    /// The key under which a ground term is looked up: its content key, or the
    /// identity of a symbol.
    pub fn ground_probe_key(&self, t: u32) -> (r: Option<u64>)
        requires
            self.wf(),
            t < self@.trees.len(),
        ensures
            r == probe_key(self@.trees[t as int]),
    {
        let n: &Node = self.node(t);
        if n.flags & F_HAS_VAR != 0 {
            return None;
        }
        if n.tag == TAG_APP {
            Some(n.key)
        } else if n.tag == TAG_SYM {
            Some(self.sym_content(n.sym))
        } else {
            None
        }
    }

    /// Whether two nodes that are no applications and no variables are the
    /// same leaf.
    fn same_leaf(&self, a: u32, b: u32) -> (r: bool)
        requires
            self.wf(),
            a < self@.trees.len(),
            b < self@.trees.len(),
            !(self@.trees[a as int] is App),
        ensures
            r == (self@.trees[a as int] == self@.trees[b as int]),
    {
        let na: &Node = self.node(a);
        let nb: &Node = self.node(b);
        let r: bool = na.tag == nb.tag && na.sym == nb.sym;
        proof {
            self.lemma_node(a as int);
            self.lemma_node(b as int);
            let (ta, tb) = (self.trees@[a as int], self.trees@[b as int]);
            let lits = literal_views(self.lits@);
            let ka = kids_of(self.nodes@[a as int], self.spill@);
            let kb = kids_of(self.nodes@[b as int], self.spill@);
            if r {
                assert(ka =~= kb);
                lemma_says_unique(*na, *nb, ka, self.trees@, self.sym_content_ids@, lits, ta, tb);
            } else if ta == tb {
                lemma_said_once(*na, ka, *nb, kb, self.trees@, self.sym_content_ids@, lits, ta);
            }
        }
        r
    }

    /// Whether seat `i` of the pattern lets the same seat of the term through.
    fn seat_passes(&self, l: u32, t: u32) -> (r: bool)
        requires
            self.wf(),
            l < self@.trees.len(),
            t < self@.trees.len(),
        ensures
            r == seat_fits(self@.trees[l as int], self@.trees[t as int]),
    {
        let ls: &Node = self.node(l);
        let ts: &Node = self.node(t);
        if ls.tag == TAG_VAR {
            return true;
        }
        if ls.tag != TAG_APP {
            return self.same_leaf(l, t);
        }
        if ts.tag != TAG_APP || ls.nargs != ts.nargs {
            return false;
        }
        if ls.nargs == 0 {
            return true;
        }
        let (lk, tk) = (self.kid(ls, 0), self.kid(ts, 0));
        let lh: &Node = self.node(lk);
        if lh.tag == TAG_SYM || lh.tag == TAG_OP {
            self.same_leaf(lk, tk)
        } else {
            true
        }
    }

    /// Whether pattern `l` may match term `t`, judged by the seats alone.
    pub fn seat_prefilter_match(&self, l: u32, t: u32) -> (r: bool)
        requires
            self.wf(),
            l < self@.trees.len(),
            t < self@.trees.len(),
        ensures
            r == seats_fit(self@.trees[l as int], self@.trees[t as int]),
    {
        let ln: &Node = self.node(l);
        let tn: &Node = self.node(t);
        if ln.tag != TAG_APP || tn.tag != TAG_APP {
            return true;
        }
        if ln.nargs != tn.nargs {
            return false;
        }
        let ghost us = self@.trees[l as int]->App_0;
        let ghost ws = self@.trees[t as int]->App_0;
        let mut i: usize = 0;
        while i < ln.nargs as usize
            invariant
                i <= ln.nargs == tn.nargs == us.len() == ws.len(),
                self.wf(),
                self.has_node(*ln),
                self.has_node(*tn),
                self.kids(*ln).len() == us.len(),
                self.kids(*tn).len() == us.len(),
                forall|k: int|
                    0 <= k < us.len() ==> (#[trigger] self.kids(*ln)[k]) < self@.trees.len()
                        && self@.trees[self.kids(*ln)[k] as int] == us[k],
                forall|k: int|
                    0 <= k < us.len() ==> (#[trigger] self.kids(*tn)[k]) < self@.trees.len()
                        && self@.trees[self.kids(*tn)[k] as int] == ws[k],
                forall|k: int| 0 <= k < i ==> seat_fits(#[trigger] us[k], ws[k]),
                self@.trees[l as int] == Tree::App(us),
                self@.trees[t as int] == Tree::App(ws),
            decreases ln.nargs - i,
        {
            if !self.seat_passes(self.kid(ln, i), self.kid(tn, i)) {
                assert(!seat_fits(us[i as int], ws[i as int]));
                return false;
            }
            i += 1;
        }
        true
    }

    fn match_inner(&self, p: u32, poff: u32, t: u32, s: &mut Vec<Option<u32>>, trail: &mut Vec<usize>) -> (r: bool)
        requires
            self.wf(),
            p < self@.trees.len(),
            t < self@.trees.len(),
            numbers_hold(old(s)@, self@.trees),
            within(shift(self@.trees[p as int], poff as int), old(s)@.len() as int),
        ensures
            numbers_hold(final(s)@, self@.trees),
            numbers_kept(old(s)@, final(s)@),
            old(trail)@.len() <= final(trail)@.len(),
            forall|k: int| 0 <= k < old(trail)@.len() ==> #[trigger] final(trail)@[k] == old(trail)@[k],
            trails(
                number_trees(old(s)@, self@.trees),
                number_trees(final(s)@, self@.trees),
                final(trail)@,
                old(trail)@.len() as int,
            ),
            r ==> matched(
                number_trees(old(s)@, self@.trees),
                number_trees(final(s)@, self@.trees),
                shift(self@.trees[p as int], poff as int),
                self@.trees[t as int],
                true,
            ),
            !r ==> matched(
                number_trees(old(s)@, self@.trees),
                number_trees(old(s)@, self@.trees),
                shift(self@.trees[p as int], poff as int),
                self@.trees[t as int],
                false,
            ),
        decreases p,
    {
        let ghost trees = self@.trees;
        let ghost s0 = number_trees(s@, trees);
        let ghost pt = trees[p as int];
        let ghost tt = trees[t as int];
        let ghost sp = shift(pt, poff as int);
        let ghost f = |v: int| Tree::Var(v + poff as int);
        assert(s.len() == s@.len());
        let np: &Node = self.node(p);
        if np.tag == TAG_VAR {
            assert(sp == Tree::Var(np.sym + poff));
            assert(occurs(np.sym + poff, sp));
            let slot: usize = np.sym as usize + poff as usize;
            match s[slot] {
                Some(b) => {
                    let r: bool = b == t;
                    proof {
                        assert(bound(s0, slot as int));
                        assert(numbered(s@, trees, slot as int));
                        assert(s0[slot as int] == Some(trees[b as int]));
                        assert(fill(s0)(slot as int) == trees[b as int]);
                        if !r {
                            assert(trees[b as int] != trees[t as int]);
                            assert forall|w: Seq<Option<Tree>>| #[trigger] extends(s0, w) && covers(
                                w,
                                sp,
                            ) implies inst(fill(w), sp) != tt by {
                                assert(w[slot as int] == s0[slot as int]);
                            }
                        }
                    }
                    return r;
                },
                None => {
                    s.set(slot, Some(t));
                    trail.push(slot);
                    proof {
                        let u = number_trees(s@, trees);
                        assert(u =~= s0.update(slot as int, Some(tt)));
                        lemma_bound_step(s0, slot as int, tt, trail@, old(trail)@);
                        assert(bound(u, slot as int));
                        assert forall|i: int| #[trigger] bound(u, i) <==> bound(s0, i) || occurs(i, sp) by {}
                        assert forall|i: int| #[trigger] numbered(s@, trees, i) by {
                            assert(numbered(old(s)@, trees, i));
                        }
                    }
                    return true;
                },
            }
        }
        if np.flags & F_HAS_VAR == 0 {
            let r: bool = p == t;
            proof {
                lemma_inst_id(f, pt);
                assert forall|g: spec_fn(int) -> Tree| #[trigger] inst(g, pt) == pt by {
                    lemma_inst_id(g, pt);
                }
                assert(r == (pt == tt));
                if r {
                    assert(inst(fill(s0), sp) == tt);
                    assert(matched(s0, s0, sp, tt, true));
                }
            }
            return r;
        }
        let ghost us0 = pt->App_0;
        let ghost us = insts(f, us0);
        proof {
            assert(pt is App) by {
                if !(pt is App) {
                    assert(ground(pt));
                }
            }
            lemma_inst_app(f, us0);
            assert(sp == Tree::App(us));
        }
        let nt: &Node = self.node(t);
        if nt.tag != TAG_APP || np.nargs != nt.nargs {
            proof {
                assert forall|w: Seq<Option<Tree>>| #[trigger] extends(s0, w) && covers(w, sp) implies inst(
                    fill(w),
                    sp,
                ) != tt by {
                    lemma_inst_app(fill(w), us);
                    if let Tree::App(ws) = tt {
                        assert(insts(fill(w), us).len() != ws.len());
                    }
                }
            }
            return false;
        }
        let ghost ws = tt->App_0;
        let mut i: usize = 0;
        while i < np.nargs as usize
            invariant
                i <= np.nargs == nt.nargs == us.len() == ws.len(),
                us0.len() == us.len(),
                us == insts(f, us0),
                f == (|v: int| Tree::Var(v + poff as int)),
                self.wf(),
                trees == self@.trees,
                p < trees.len(),
                t < trees.len(),
                self.has_node(*np),
                self.has_node(*nt),
                self.kids(*np).len() == us.len(),
                self.kids(*nt).len() == us.len(),
                forall|k: int|
                    0 <= k < us.len() ==> (#[trigger] self.kids(*np)[k]) < p && trees[self.kids(*np)[k] as int]
                        == us0[k],
                forall|k: int|
                    0 <= k < us.len() ==> (#[trigger] self.kids(*nt)[k]) < t && trees[self.kids(*nt)[k] as int]
                        == ws[k],
                sp == Tree::App(us),
                tt == Tree::App(ws),
                sp == shift(trees[p as int], poff as int),
                tt == trees[t as int],
                s0 == number_trees(old(s)@, trees),
                within(sp, s0.len() as int),
                numbers_hold(s@, trees),
                numbers_kept(old(s)@, s@),
                extends(s0, number_trees(s@, trees)),
                old(trail)@.len() <= trail@.len(),
                forall|k: int| 0 <= k < old(trail)@.len() ==> #[trigger] trail@[k] == old(trail)@[k],
                trails(s0, number_trees(s@, trees), trail@, old(trail)@.len() as int),
                filled(s0, number_trees(s@, trees), us, ws, i as int),
            decreases np.nargs - i,
        {
            let ghost s1 = number_trees(s@, trees);
            let ghost before = s@;
            let ghost trail1 = trail@;
            let (pk, tk) = (self.kid(np, i), self.kid(nt, i));
            proof {
                lemma_elem_within(us, i as int, s0.len() as int);
                assert(us[i as int] == shift(trees[pk as int], poff as int));
            }
            let ok: bool = self.match_inner(pk, poff, tk, s, trail);
            proof {
                let s2 = number_trees(s@, trees);
                lemma_numbers_extend(before, s@, trees);
                lemma_extends_trans(s0, s1, s2, trail1, trail@, old(trail)@.len() as int);
                assert(numbers_kept(old(s)@, s@)) by {
                    assert forall|j: int| 0 <= j < old(s)@.len() && (#[trigger] old(s)@[j]) is Some implies s@[j]
                        == old(s)@[j] by {
                        assert(before[j] == old(s)@[j]);
                    }
                }
                if ok {
                    lemma_filled_step(s0, s1, s2, us, ws, i as int);
                } else {
                    assert forall|w: Seq<Option<Tree>>| #[trigger] extends(s0, w) && covers(w, sp) implies inst(
                        fill(w),
                        sp,
                    ) != tt by {
                        lemma_inst_app(fill(w), us);
                        if inst(fill(w), sp) == tt {
                            lemma_filled_unique(s0, s1, w, us, ws, i as int);
                            assert(covers(w, us[i as int])) by {
                                assert forall|v: int| #[trigger] occurs(v, us[i as int]) implies bound(w, v) by {
                                    lemma_occurs_elem(v, us, i as int);
                                }
                            }
                            assert(insts(fill(w), us)[i as int] == ws[i as int]);
                            assert(extends(s1, w));
                        }
                    }
                }
            }
            if !ok {
                return false;
            }
            i += 1;
        }
        proof {
            let u = number_trees(s@, trees);
            lemma_inst_app(fill(u), us);
            assert(insts(fill(u), us) =~= ws);
            assert forall|v: int| #[trigger] bound(u, v) <==> bound(s0, v) || occurs(v, sp) by {
                if occurs(v, sp) {
                    let k = lemma_occurs_split(v, us);
                    assert(covers(u, us[k]));
                }
                if bound(u, v) && !bound(s0, v) {
                    let k = choose|k: int| 0 <= k < us.len() && occurs(v, #[trigger] us[k]);
                    lemma_occurs_elem(v, us, k);
                }
            }
        }
        true
    }

    /// Matches pattern `p`, its slots moved up by `poff`, against term `t`.
    /// Only variables of the pattern are bound, to node numbers; a variable of
    /// the term stands for itself.  On success the slots newly bound stand in
    /// `trail`, behind what it held; a failure leaves both as they were.
    pub fn match_one_way(
        &self,
        p: u32,
        poff: u32,
        t: u32,
        s: &mut Vec<Option<u32>>,
        trail: &mut Vec<usize>,
    ) -> (r: bool)
        requires
            self.wf(),
            p < self@.trees.len(),
            t < self@.trees.len(),
            numbers_hold(old(s)@, self@.trees),
            within(shift(self@.trees[p as int], poff as int), old(s)@.len() as int),
        ensures
            numbers_hold(final(s)@, self@.trees),
            matched(
                number_trees(old(s)@, self@.trees),
                number_trees(final(s)@, self@.trees),
                shift(self@.trees[p as int], poff as int),
                self@.trees[t as int],
                r,
            ),
            r ==> {
                &&& old(trail)@.len() <= final(trail)@.len()
                &&& final(trail)@.take(old(trail)@.len() as int) == old(trail)@
                &&& trails(
                    number_trees(old(s)@, self@.trees),
                    number_trees(final(s)@, self@.trees),
                    final(trail)@,
                    old(trail)@.len() as int,
                )
            },
            !r ==> final(s)@ == old(s)@ && final(trail)@ == old(trail)@,
    {
        let ghost trees = self@.trees;
        let ghost s0 = number_trees(s@, trees);
        let mark: usize = trail.len();
        if self.match_inner(p, poff, t, s, trail) {
            assert(trail@.take(old(trail)@.len() as int) =~= old(trail)@);
            return true;
        }
        let ghost s1 = s@;
        let ghost u1 = number_trees(s@, trees);
        let mut k: usize = mark;
        while k < trail.len()
            invariant
                mark == old(trail)@.len(),
                mark <= k <= trail@.len(),
                numbers_kept(old(s)@, s1),
                s0 == number_trees(old(s)@, trees),
                u1 == number_trees(s1, trees),
                trails(s0, u1, trail@, mark as int),
                s@.len() == old(s)@.len(),
                forall|i: int| 0 <= i < s@.len() ==> #[trigger] s@[i] == s1[i] || s@[i] == old(s)@[i],
                forall|j: int|
                    mark <= j < k ==> s@[#[trigger] trail@[j] as int] == old(s)@[trail@[j] as int],
            decreases trail@.len() - k,
        {
            let slot: usize = trail[k];
            let ghost before = s@;
            assert(trail@[k as int] < s0.len());
            assert(!bound(s0, slot as int));
            assert(old(s)@[slot as int] is None);
            s.set(slot, None);
            proof {
                assert forall|j: int| mark <= j < k + 1 implies s@[#[trigger] trail@[j] as int]
                    == old(s)@[trail@[j] as int] by {
                    assert(trail@[j] < s0.len());
                    if trail@[j] != slot {
                        assert(before[trail@[j] as int] == old(s)@[trail@[j] as int]);
                    }
                }
            }
            k += 1;
        }
        proof {
            assert forall|i: int| 0 <= i < s@.len() implies s@[i] == old(s)@[i] by {
                if old(s)@[i] is None && s1[i] is Some {
                    assert(bound(u1, i) && !bound(s0, i));
                    let j = choose|j: int| mark <= j < trail@.len() && #[trigger] trail@[j] == i;
                    assert(s@[trail@[j] as int] == old(s)@[i]);
                }
            }
            assert(s@ =~= old(s)@);
        }
        trail.truncate(mark);
        assert(trail@ =~= old(trail)@);
        false
    }
}

/// The numbers listed under a key.
pub open spec fn bucket_of(m: Map<u64, IdList>, key: u64) -> Seq<u32> {
    if m.dom().contains(key) {
        m[key]@
    } else {
        Seq::empty()
    }
}

/// The map `m2` is `m` with number `id` put last under `key`.
pub open spec fn listed_more(m: Map<u64, IdList>, m2: Map<u64, IdList>, key: u64, id: u32) -> bool {
    &&& m2.dom() == m.dom().insert(key)
    &&& m2[key]@ == bucket_of(m, key).push(id)
    &&& forall|k: u64| #[trigger] m.dom().contains(k) && k != key ==> m2[k] == m[k]
}

/// Puts number `id` last under `key`.
fn list_under(m: &mut HashMap<u64, IdList>, key: u64, id: u32)
    ensures
        listed_more(old(m)@, final(m)@, key, id),
{
    let mut l: IdList = match m.remove(&key) {
        Some(l) => l,
        None => IdList::new(),
    };
    l.push(id);
    m.insert(key, l);
    assert(m@.dom() =~= old(m)@.dom().insert(key));
}

proof fn lemma_still_listed(m: Map<u64, IdList>, m2: Map<u64, IdList>, key: u64, id: u32, k: u64, i: int)
    requires
        listed_more(m, m2, key, id),
        listed(m, k, i),
    ensures
        listed(m2, k, i),
{
    let p = choose|p: int| 0 <= p < m[k]@.len() && #[trigger] m[k]@[p] == i;
    assert(m2[k]@[p] == i);
}

proof fn lemma_still_bounded(m: Map<u64, IdList>, m2: Map<u64, IdList>, key: u64, id: u32, n: int)
    requires
        listed_more(m, m2, key, id),
        bounded(m, n),
        id == n,
    ensures
        bounded(m2, n + 1),
{
    assert forall|k: u64, p: int|
        m2.dom().contains(k) && 0 <= p < m2[k]@.len() implies #[trigger] m2[k]@[p] < n + 1 by {
        if k == key {
            if p < bucket_of(m, key).len() {
                assert(m[k]@[p] < n);
            }
        } else {
            assert(m.dom().contains(k));
            assert(m[k]@[p] < n);
        }
    }
}

/// A tree held has its elements held.
pub open spec fn elements_held(trees: Seq<Tree>) -> bool {
    forall|i: int, k: int|
        0 <= i < trees.len() && 0 <= k < arity_of(trees[i]) ==> trees.contains(#[trigger] trees[i]->App_0[k])
}

/// Two numbers are the same exactly when they stand for the same tree, and the
/// elements of every tree held are held too.
pub proof fn law_one_number_per_tree(a: TermArena, i: int, j: int)
    requires
        a.wf(),
        0 <= i < a@.trees.len(),
        0 <= j < a@.trees.len(),
    ensures
        a@.trees[i] == a@.trees[j] <==> i == j,
        elements_held(a@.trees),
{
    let trees = a@.trees;
    assert forall|i: int, k: int| 0 <= i < trees.len() && 0 <= k < arity_of(trees[i]) implies trees.contains(
        #[trigger] trees[i]->App_0[k],
    ) by {
        a.lemma_node(i);
        let kids = kids_of(a.nodes@[i], a.spill@);
        assert(trees[kids[k] as int] == trees[i]->App_0[k]);
    }
}

/// Interning what is held already enters nothing.
pub proof fn law_interning_again_adds_nothing(a: ArenaView, t: Tree)
    requires
        elements_held(a.trees),
        a.trees.contains(t),
        narrow(t),
    ensures
        interned(a, t) == (ArenaView { hits: a.hits + size(t), ..a }, true),
    decreases t,
{
    if let Tree::App(ts) = t {
        let i = a.trees.index_of(t);
        assert forall|k: int| 0 <= k < ts.len() implies a.trees.contains(#[trigger] ts[k]) by {
            assert(a.trees[i]->App_0[k] == ts[k]);
        }
        lemma_all_again(a, ts);
    }
}

proof fn lemma_all_again(a: ArenaView, ts: Seq<Tree>)
    requires
        elements_held(a.trees),
        forall|k: int| 0 <= k < ts.len() ==> a.trees.contains(#[trigger] ts[k]),
        forall|k: int| 0 <= k < ts.len() ==> narrow(#[trigger] ts[k]),
    ensures
        interned_all(a, ts) == (ArenaView { hits: a.hits + sizes(ts), ..a }, true),
    decreases ts,
{
    if ts.len() > 0 {
        let front = ts.drop_last();
        assert forall|k: int| 0 <= k < front.len() implies a.trees.contains(#[trigger] front[k]) && narrow(
            front[k],
        ) by {
            assert(front[k] == ts[k]);
        }
        lemma_all_again(a, front);
        assert(ts.last() == ts[ts.len() - 1]);
        law_interning_again_adds_nothing(interned_all(a, front).0, ts.last());
    }
}

/// Interning never moves a tree to another number.
pub proof fn law_numbers_are_stable(a: ArenaView, t: Tree, i: int)
    requires
        0 <= i < a.trees.len(),
    ensures
        interned(a, t).0.trees.len() >= a.trees.len(),
        interned(a, t).0.trees[i] == a.trees[i],
{
    lemma_interned(a, t);
}

/// A pattern that matches has fitting seats: the prefilter drops no match.
pub proof fn law_matches_pass_the_prefilter(l: Tree, t: Tree, f: spec_fn(int) -> Tree)
    requires
        inst(f, l) == t,
    ensures
        seats_fit(l, t),
{
    if let (Tree::App(us), Tree::App(ws)) = (l, t) {
        lemma_inst_app(f, us);
        assert forall|i: int| 0 <= i < us.len() implies seat_fits(#[trigger] us[i], ws[i]) by {
            assert(insts(f, us)[i] == ws[i]);
            if let Tree::App(vs) = us[i] {
                lemma_inst_app(f, vs);
                if vs.len() > 0 {
                    assert(insts(f, vs)[0] == inst(f, vs[0]));
                }
            }
        }
    }
}

/// A path leads through the tree step by step: nowhere at first, then to the element that
/// its step names; and a path behind another goes on where that one led.
pub proof fn law_paths_lead_step_by_step(t: Tree, p: Seq<u8>, q: Seq<u8>)
    ensures
        subtree(t, Seq::empty()) == Some(t),
        subtree(t, p + q) == match subtree(t, p) {
            Some(u) => subtree(u, q),
            None => None,
        },
        forall|k: u8| #[trigger]
            subtree(t, seq![k]) == match t {
                Tree::App(ts) => if k < ts.len() {
                    Some(ts[k as int])
                } else {
                    None
                },
                _ => None,
            },
    decreases q.len(),
{
    assert forall|k: u8| #[trigger]
        subtree(t, seq![k]) == match t {
            Tree::App(ts) => if k < ts.len() {
                Some(ts[k as int])
            } else {
                None
            },
            _ => None,
        } by {
        assert(seq![k].drop_last() =~= Seq::empty());
        assert(subtree(t, seq![k].drop_last()) == Some(t));
    }
    if q.len() > 0 {
        law_paths_lead_step_by_step(t, p, q.drop_last());
        assert((p + q).drop_last() =~= p + q.drop_last());
        assert((p + q).last() == q.last());
    } else {
        assert(p + q =~= p);
    }
}

/// A tree has a key to be looked up by exactly if it is a symbol or a compound without
/// variables.
pub proof fn law_ground_trees_have_keys(t: Tree)
    ensures
        probe_key(t) is Some <==> t is Sym || (t is App && forall|v: int| !occurs(v, t)),
        t matches Tree::Sym(id) ==> probe_key(t) == Some(id),
{
}

} // verus!
