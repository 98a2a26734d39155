//! Stores of active unit clauses, and the index of oriented equations.
use vstd::prelude::*;

use std::collections::HashMap;

use xxhash_rust::xxh64::xxh64;

use crate::canon::{canonical, slotted, CanonVars};
use crate::hashing::xxh64_digest;
use crate::subst::{inst, insts, occurs, within};
use crate::term::{lemma_app_view, views, Term, Tree};
use crate::text::{be_bytes, be_bytes_u32, push_be, push_be_u32};
use crate::types::{OpKind, SymbolId};
use crate::unify::{bindings, covers, extends, fill, match_one_way, matched, Subst};

verus! {

broadcast use lemma_app_view;

/// Identity of an atom: the key of its content.
pub type AtomId = u64;

/// The tag of an operator: the letter `a`, `o`, `n`, `i`, `f`, `e`, `A` or `E`.
pub open spec fn op_tag_spec(op: OpKind) -> u8 {
    match op {
        OpKind::And => 97,
        OpKind::Or => 111,
        OpKind::Not => 110,
        OpKind::Implies => 105,
        OpKind::Iff => 102,
        OpKind::Equal => 101,
        OpKind::ForAll => 65,
        OpKind::Exists => 69,
    }
}

/// The tag of an operator.
pub fn op_tag(op: &OpKind) -> (tag: u8)
    ensures
        tag == op_tag_spec(*op),
{
    match op {
        OpKind::And => 97,
        OpKind::Or => 111,
        OpKind::Not => 110,
        OpKind::Implies => 105,
        OpKind::Iff => 102,
        OpKind::Equal => 101,
        OpKind::ForAll => 65,
        OpKind::Exists => 69,
    }
}

/// Different operators have different tags.
pub proof fn law_op_tags_are_distinct(a: OpKind, b: OpKind)
    ensures
        op_tag_spec(a) == op_tag_spec(b) <==> a == b,
{
}

/// The length of an application as far as a bucket tells lengths apart.
pub open spec fn arity_key(len: nat) -> u8 {
    if len < 255 {
        len as u8
    } else {
        255u8
    }
}

/// The key of an application's head and its length.  A head that is neither a
/// symbol nor an operator has none.
pub open spec fn head_key_spec(t: Tree) -> Option<(u64, u8)> {
    match t {
        Tree::App(ts) => if ts.len() == 0 {
            None
        } else {
            match ts[0] {
                Tree::Sym(id) => Some((id, arity_key(ts.len()))),
                Tree::Op(op) => Some((op_tag_spec(op) as u64, arity_key(ts.len()))),
                _ => None,
            }
        },
        _ => None,
    }
}

/// The key of an application's head and its length.
pub fn head_key(t: &Term) -> (r: Option<(u64, u8)>)
    ensures
        r == head_key_spec(t@),
{
    match t {
        Term::App(elems) => {
            assert(t@ == Tree::App(views(elems@)));
            if elems.len() == 0 {
                return None;
            }
            let arity: u8 = if elems.len() < 255 {
                elems.len() as u8
            } else {
                255
            };
            assert(views(elems@)[0] == elems@[0]@);
            match &elems[0] {
                Term::Sym(s) => Some((s.id(), arity)),
                Term::Op(op) => Some((op_tag(op) as u64, arity)),
                _ => None,
            }
        },
        _ => None,
    }
}

/// The coin of a compound seat's shape: the seat, the head and the length.
pub open spec fn shape_coin_spec(seat: usize, t: Tree) -> Option<u64> {
    match t {
        Tree::App(ts) => if ts.len() == 0 {
            None
        } else {
            match ts[0] {
                Tree::Sym(id) => Some(
                    shape_digest(seat, xxh64_digest(be_bytes(id), 83), ts.len()),
                ),
                Tree::Op(op) => Some(
                    shape_digest(seat, xxh64_digest(seq![op_tag_spec(op)], 79), ts.len()),
                ),
                _ => None,
            }
        },
        _ => None,
    }
}

/// The coin of a seat whose head hashes to `head`, `len` elements long.
pub open spec fn shape_digest(seat: usize, head: u64, len: nat) -> u64 {
    xxh64_digest(be_bytes_u32(seat as u32) + be_bytes(head) + be_bytes(len as u64), 80)
}

/// The coin of a compound seat's shape: one-way matching wants the two
/// compounds to agree on head and length, so different coins rule a match out.
/// A compound whose head is neither a symbol nor an operator has none.
pub fn seat_shape_coin(seat: usize, t: &Term) -> (r: Option<u64>)
    ensures
        r == shape_coin_spec(seat, t@),
{
    let elems: &Vec<Term> = match t {
        Term::App(elems) => elems,
        _ => {
            return None;
        },
    };
    assert(t@ == Tree::App(views(elems@)));
    if elems.len() == 0 {
        return None;
    }
    assert(views(elems@)[0] == elems@[0]@);
    let head_key: u64 = match &elems[0] {
        Term::Sym(s) => {
            let mut id: Vec<u8> = Vec::new();
            push_be(&mut id, s.id());
            assert(id@ =~= be_bytes(s.id_spec()));
            xxh64(id.as_slice(), 83)
        },
        Term::Op(op) => {
            let mut tag: Vec<u8> = Vec::new();
            tag.push(op_tag(op));
            assert(tag@ =~= seq![op_tag_spec(*op)]);
            xxh64(tag.as_slice(), 79)
        },
        _ => {
            return None;
        },
    };
    let mut buf: Vec<u8> = Vec::new();
    push_be_u32(&mut buf, seat as u32);
    push_be(&mut buf, head_key);
    push_be(&mut buf, elems.len() as u64);
    assert(buf@ =~= be_bytes_u32(seat as u32) + be_bytes(head_key) + be_bytes(elems@.len() as u64));
    Some(xxh64(buf.as_slice(), 80))
}

/// What a unit lookup found.
#[derive(Clone, Copy, Debug, PartialEq, Eq, Structural)]
pub enum UnitHit {
    /// A unit of the same polarity covers the literal.
    Subsumes(u32),
    /// A unit of the opposite polarity refutes the literal.
    Refutes(u32),
}

/// What the seats of an atom come to: which of them are open, the residue of
/// the others, and whether the atom has no variables.
#[derive(Clone, Copy, Debug)]
pub struct AtomInfo {
    pub mask: u64,
    pub base_residue: u64,
    pub ground: bool,
}

/// An atom with its identity; its variables are canonical.
pub struct Atom {
    pub id: AtomId,
    pub term: Term,
    pub info: AtomInfo,
}

/// A unit with variables, its pattern in slot form.
pub struct OpenUnit {
    pub atom: AtomId,
    pub clause: u32,
    pub pattern: Term,
    pub nvars: u32,
}

impl Clone for OpenUnit {
    fn clone(&self) -> (r: OpenUnit)
        ensures
            r@ == self@,
    {
        OpenUnit {
            atom: self.atom,
            clause: self.clause,
            pattern: self.pattern.clone(),
            nvars: self.nvars,
        }
    }
}

/// An open unit with its pattern as a tree.
pub struct OpenView {
    pub atom: AtomId,
    pub clause: u32,
    pub pattern: Tree,
    pub nvars: u32,
}

impl View for OpenUnit {
    type V = OpenView;

    open spec fn view(&self) -> OpenView {
        OpenView {
            atom: self.atom,
            clause: self.clause,
            pattern: self.pattern@,
            nvars: self.nvars,
        }
    }
}

/// The bucket of an open unit.
#[derive(Clone, Copy, Debug, PartialEq, Eq, Structural)]
pub struct Bucket {
    pub pos: bool,
    pub head: u64,
    pub arity: u8,
    /// the open seats of the pattern
    pub mask: u64,
    /// the open seats that hold a compound with a shape
    pub shaped: u64,
    /// the residue of the closed seats, with the coins of the shaped ones
    pub key: u64,
}

/// How one seat of a target takes part in the lookup.
#[derive(Clone, Copy, Debug, PartialEq, Eq, Structural)]
pub enum SeatK {
    Var,
    /// a compound with the coin of its shape, if it has one
    Compound(Option<u64>),
    /// a leaf with its coin
    Leaf(u64),
}

/// The shaped seats and the key of a pattern's first `n` seats.
pub open spec fn shaping(ts: Seq<Tree>, mask: u64, residue: u64, n: nat) -> (u64, u64)
    decreases n,
{
    if n == 0 {
        (0u64, residue)
    } else {
        let (shaped, key) = shaping(ts, mask, residue, (n - 1) as nat);
        let i = (n - 1) as usize;
        if i < 64 && (mask >> (i as u64)) & 1 == 1 {
            match shape_coin_spec(i, ts[i as int]) {
                Some(c) => (shaped | (1u64 << (i as u64)), key ^ c),
                None => (shaped, key),
            }
        } else {
            (shaped, key)
        }
    }
}

/// The shaped seats and the key of a pattern.
pub open spec fn pattern_key(info: AtomInfo, pattern: Tree) -> (u64, u64) {
    match pattern {
        Tree::App(ts) => shaping(ts, info.mask, info.base_residue, ts.len()),
        _ => (0u64, info.base_residue),
    }
}

/// The stores of active unit clauses.
pub struct UnitStores {
    ground_pos: HashMap<u64, u32>,
    ground_neg: HashMap<u64, u32>,
    buckets: Vec<Bucket>,
    units: Vec<OpenUnit>,
    /// the active unit equations as slot terms, in both orientations
    pub equals: Vec<(u32, Term, Term)>,
}

/// The contents of the stores.
pub struct UnitsView {
    pub ground_pos: Map<u64, u32>,
    pub ground_neg: Map<u64, u32>,
    /// the open units with their buckets, oldest first
    pub open: Seq<(Bucket, OpenView)>,
    /// the equations, oldest first
    pub equals: Seq<(u32, Tree, Tree)>,
}

impl View for UnitStores {
    type V = UnitsView;

    closed spec fn view(&self) -> UnitsView {
        UnitsView {
            ground_pos: self.ground_pos@,
            ground_neg: self.ground_neg@,
            open: Seq::new(self.units@.len(), |i: int| (self.buckets@[i], self.units@[i]@)),
            equals: Seq::new(
                self.equals@.len(),
                |i: int| (self.equals@[i].0, self.equals@[i].1@, self.equals@[i].2@),
            ),
        }
    }
}

/// The number of slots that patterns may use.
pub const PATTERN_SLOTS: u32 = 256;

/// The map with `clause` entered under `atom`, unless there is an entry.
pub open spec fn entered(m: Map<u64, u32>, atom: u64, clause: u32) -> Map<u64, u32> {
    if m.dom().contains(atom) {
        m
    } else {
        m.insert(atom, clause)
    }
}

/// The two sides of an equation `(equal l r)`.
pub open spec fn equation(t: Tree) -> Option<(Tree, Tree)> {
    match t {
        Tree::App(ts) => if ts.len() == 3 && ts[0] == Tree::Op(OpKind::Equal) {
            Some((ts[1], ts[2]))
        } else {
            None
        },
        _ => None,
    }
}

/// The stores after unit clause `clause`, with the single literal `atom` of
/// polarity `pos`, has been entered.
pub open spec fn with_unit(
    s: UnitsView,
    clause: u32,
    pos: bool,
    id: AtomId,
    term: Tree,
    info: AtomInfo,
    nvars: u32,
    ids: Seq<SymbolId>,
) -> UnitsView {
    let pattern = slotted(ids, 0, term);
    let listed = canonical(ids, term);
    let s1 = if info.ground {
        if pos {
            UnitsView { ground_pos: entered(s.ground_pos, id, clause), ..s }
        } else {
            UnitsView { ground_neg: entered(s.ground_neg, id, clause), ..s }
        }
    } else if head_key_spec(term) is Some && listed {
        let (head, arity) = head_key_spec(term)->0;
        let (shaped, key) = pattern_key(info, pattern);
        let b = Bucket { pos, head, arity, mask: info.mask, shaped, key };
        UnitsView { open: s.open.push((b, OpenView { atom: id, clause, pattern, nvars })), ..s }
    } else {
        s
    };
    if pos && listed && equation(term) is Some {
        let (l, r) = equation(pattern)->0;
        if l == r {
            s1
        } else {
            UnitsView { equals: s1.equals.push((clause, l, r)).push((clause, r, l)), ..s1 }
        }
    } else {
        s1
    }
}

/// The open unit can be matched against the target.
pub open spec fn pattern_matches(p: Tree, t: Tree) -> bool {
    exists|f: spec_fn(int) -> Tree| #[trigger] inst(f, p) == t
}

/// The clause of the oldest open unit of polarity `pos` in the bucket of
/// `head` and `arity` that matches the target.
pub open spec fn first_match(
    open: Seq<(Bucket, OpenView)>,
    pos: bool,
    head: u64,
    arity: u8,
    target: Tree,
) -> Option<u32>
    decreases open.len(),
{
    if open.len() == 0 {
        None
    } else {
        match first_match(open.drop_last(), pos, head, arity, target) {
            Some(c) => Some(c),
            None => {
                let (b, u) = open.last();
                if b.pos == pos && b.head == head && b.arity == arity && pattern_matches(
                    u.pattern,
                    target,
                ) {
                    Some(u.clause)
                } else {
                    None
                }
            },
        }
    }
}

/// The ground unit of the given polarity and atom.
pub open spec fn ground_of(s: UnitsView, pos: bool, atom: AtomId) -> Option<u32> {
    let m = if pos {
        s.ground_pos
    } else {
        s.ground_neg
    };
    if m.dom().contains(atom) {
        Some(m[atom])
    } else {
        None
    }
}

/// What a literal meets among the units: a ground unit of its own polarity,
/// then one of the other, then an open unit of its own polarity, then one of
/// the other.
pub open spec fn unit_hit(
    s: UnitsView,
    pos: bool,
    id: AtomId,
    term: Tree,
    ground: bool,
    ids: Seq<SymbolId>,
) -> Option<UnitHit> {
    let same = ground_of(s, pos, id);
    let other = ground_of(s, !pos, id);
    if ground && same is Some {
        Some(UnitHit::Subsumes(same->0))
    } else if ground && other is Some {
        Some(UnitHit::Refutes(other->0))
    } else if head_key_spec(term) is None || !canonical(ids, term) {
        None
    } else {
        let (head, arity) = head_key_spec(term)->0;
        let target = slotted(ids, PATTERN_SLOTS as int, term);
        let open_same = first_match(s.open, pos, head, arity, target);
        let open_other = first_match(s.open, !pos, head, arity, target);
        if open_same is Some {
            Some(UnitHit::Subsumes(open_same->0))
        } else if open_other is Some {
            Some(UnitHit::Refutes(open_other->0))
        } else {
            None
        }
    }
}

/// The key under which a target with the given seats looks up the patterns of
/// one mask group: `None` if no pattern of the group can match; otherwise the
/// key, and whether every pattern of the group has to be tried.
pub open spec fn probe(
    seats: Seq<SeatK>,
    mask: u64,
    shaped: u64,
    tag: u64,
    n: nat,
) -> Option<(u64, bool)>
    decreases n,
{
    if n == 0 {
        Some((tag, false))
    } else {
        let i = (n - 1) as u64;
        match probe(seats, mask, shaped, tag, (n - 1) as nat) {
            None => None,
            Some((key, scan)) => if (mask >> i) & 1 == 1 {
                if (shaped >> i) & 1 == 1 {
                    match seats[n - 1] {
                        SeatK::Compound(Some(c)) => Some((key ^ c, scan)),
                        _ => None,
                    }
                } else {
                    Some((key, scan))
                }
            } else {
                match seats[n - 1] {
                    SeatK::Var => None,
                    SeatK::Compound(_) => Some((key, true)),
                    SeatK::Leaf(c) => Some((key ^ c, scan)),
                }
            },
        }
    }
}

/// The open unit is a candidate for a target with the given seats.
pub open spec fn is_candidate(
    b: Bucket,
    pos: bool,
    head: u64,
    arity: u8,
    tag: u64,
    seats: Seq<SeatK>,
) -> bool {
    &&& b.pos == pos
    &&& b.head == head
    &&& b.arity == arity
    &&& match probe(seats, b.mask, b.shaped, tag, seats.len()) {
        None => false,
        Some((key, scan)) => scan || key == b.key,
    }
}

/// The candidates among the open units, oldest first.
pub open spec fn candidates_of(
    open: Seq<(Bucket, OpenView)>,
    pos: bool,
    head: u64,
    arity: u8,
    tag: u64,
    seats: Seq<SeatK>,
) -> Seq<OpenView>
    decreases open.len(),
{
    if open.len() == 0 {
        Seq::empty()
    } else {
        let rest = candidates_of(open.drop_last(), pos, head, arity, tag, seats);
        if is_candidate(open.last().0, pos, head, arity, tag, seats) {
            rest.push(open.last().1)
        } else {
            rest
        }
    }
}

/// The views of the units.
pub open spec fn unit_views(us: Seq<OpenUnit>) -> Seq<OpenView> {
    Seq::new(us.len(), |i: int| us[i]@)
}

proof fn lemma_slotted_within(ids: Seq<SymbolId>, t: Tree, offset: int)
    requires
        canonical(ids, t),
        offset >= 0,
    ensures
        within(slotted(ids, offset, t), ids.len() + offset),
{
    let f = |v: int|
        match crate::canon::slot_of(ids, v) {
            Some(k) => Tree::Var(k + offset),
            None => Tree::Var(v),
        };
    assert forall|w: int| #[trigger] occurs(w, slotted(ids, offset, t)) implies 0 <= w < ids.len()
        + offset by {
        crate::subst::lemma_occurs_inst(w, f, t);
        let v = choose|v: int| #[trigger] occurs(v, t) && occurs(w, f(v));
        crate::canon::lemma_slot_below(ids, v);
    }
}

/// Matching from free slots decides whether the pattern matches at all.
proof fn lemma_match_decides(s: Seq<Option<Tree>>, u: Seq<Option<Tree>>, p: Tree, t: Tree, ok: bool)
    requires
        forall|i: int| 0 <= i < s.len() ==> (#[trigger] s[i]) is None,
        within(p, s.len() as int),
        matched(s, u, p, t, ok),
    ensures
        ok == pattern_matches(p, t),
{
    if ok {
        assert(inst(fill(u), p) == t);
    } else if pattern_matches(p, t) {
        let f = choose|f: spec_fn(int) -> Tree| #[trigger] inst(f, p) == t;
        let w = Seq::new(
            s.len(),
            |i: int|
                if occurs(i, p) {
                    Some(f(i))
                } else {
                    None
                },
        );
        assert(extends(s, w));
        assert(covers(w, p));
        assert forall|v: int| #[trigger] occurs(v, p) implies fill(w)(v) == f(v) by {}
        crate::subst::lemma_inst_agree(fill(w), f, p);
    }
}

/// `n` free slots.
fn free_slots(n: usize) -> (s: Subst)
    ensures
        s@.len() == n,
        forall|i: int| 0 <= i < n ==> (#[trigger] bindings(s@)[i]) is None,
{
    let mut s: Subst = Vec::new();
    let mut i: usize = 0;
    while i < n
        invariant
            i <= n,
            s@.len() == i,
            forall|k: int| 0 <= k < i ==> (#[trigger] s@[k]) is None,
        decreases n - i,
    {
        s.push(None);
        i += 1;
    }
    s
}

impl UnitStores {
    /// The invariant of the stores: every pattern stays below the slots of
    /// the targets.
    pub closed spec fn wf(&self) -> bool {
        &&& self.buckets@.len() == self.units@.len()
        &&& forall|i: int|
            0 <= i < self.units@.len() ==> within(
                (#[trigger] self.units@[i]).pattern@,
                PATTERN_SLOTS as int,
            )
    }

    /// Stores without units.
    pub fn new() -> (s: UnitStores)
        ensures
            s.wf(),
            s@.ground_pos == Map::<u64, u32>::empty(),
            s@.ground_neg == Map::<u64, u32>::empty(),
            s@.open == Seq::<(Bucket, OpenView)>::empty(),
            s@.equals == Seq::<(u32, Tree, Tree)>::empty(),
    {
        let s = UnitStores {
            ground_pos: HashMap::new(),
            ground_neg: HashMap::new(),
            buckets: Vec::new(),
            units: Vec::new(),
            equals: Vec::new(),
        };
        assert(s@.open =~= Seq::empty());
        assert(s@.equals =~= Seq::empty());
        s
    }

    /// The unit clause with exactly this ground literal.
    pub fn ground_unit(&self, pos: bool, atom: AtomId) -> (r: Option<u32>)
        ensures
            r == ground_of(self@, pos, atom),
    {
        broadcast use vstd::std_specs::hash::group_hash_axioms;

        let found: Option<&u32> = if pos {
            self.ground_pos.get(&atom)
        } else {
            self.ground_neg.get(&atom)
        };
        match found {
            Some(c) => Some(*c),
            None => None,
        }
    }

    /// The number of ground units.
    pub fn ground_len(&self) -> (n: usize)
        requires
            self@.ground_pos.dom().len() + self@.ground_neg.dom().len() <= usize::MAX,
        ensures
            n == self@.ground_pos.dom().len() + self@.ground_neg.dom().len(),
    {
        broadcast use vstd::std_specs::hash::group_hash_axioms;

        self.ground_pos.len() + self.ground_neg.len()
    }

    /// Enters an activated unit clause with the single literal `atom` of
    /// polarity `pos`.
    pub fn add_unit(&mut self, clause_id: u32, pos: bool, atom: &Atom, nvars: u32, canon: &CanonVars)
        requires
            old(self).wf(),
            canon@.len() <= PATTERN_SLOTS,
        ensures
            final(self).wf(),
            final(self)@ == with_unit(
                old(self)@,
                clause_id,
                pos,
                atom.id,
                atom.term@,
                atom.info,
                nvars,
                canon@,
            ),
    {
        broadcast use vstd::std_specs::hash::group_hash_axioms;

        let ghost before = self@;
        let ghost pattern_tree = slotted(canon@, 0, atom.term@);
        let pattern: Option<Term> = canon.reslot(&atom.term, 0);
        if atom.info.ground {
            if pos {
                if !self.ground_pos.contains_key(&atom.id) {
                    self.ground_pos.insert(atom.id, clause_id);
                }
            } else {
                if !self.ground_neg.contains_key(&atom.id) {
                    self.ground_neg.insert(atom.id, clause_id);
                }
            }
        } else if let Some((head, arity)) = head_key(&atom.term) {
            if let Some(p) = &pattern {
                let (shaped, key) = Self::shape_pattern(&atom.info, p);
                self.buckets.push(
                    Bucket { pos, head, arity, mask: atom.info.mask, shaped, key },
                );
                self.units.push(
                    OpenUnit { atom: atom.id, clause: clause_id, pattern: p.clone(), nvars },
                );
                proof {
                    lemma_slotted_within(canon@, atom.term@, 0);
                    let b = Bucket { pos, head, arity, mask: atom.info.mask, shaped, key };
                    let v = OpenView {
                        atom: atom.id,
                        clause: clause_id,
                        pattern: pattern_tree,
                        nvars,
                    };
                    assert(self@.open =~= before.open.push((b, v)));
                }
            }
        }
        let ghost mid = self@;
        assert(mid.equals =~= before.equals);
        if pos {
            if let Some(p) = pattern {
                proof {
                    lemma_equation_slotted(canon@, atom.term@);
                }
                if let Some((l, r)) = Self::sides(&p) {
                    if !l.same(&r) {
                        let (l2, r2) = (l.clone(), r.clone());
                        self.equals.push((clause_id, l, r));
                        self.equals.push((clause_id, r2, l2));
                        assert(self@.equals =~= mid.equals.push((clause_id, l@, r@)).push(
                            (clause_id, r@, l@),
                        ));
                    }
                }
            }
        }
        assert(self@.open =~= mid.open);
    }

    /// The two sides of an equation.
    fn sides(t: &Term) -> (r: Option<(Term, Term)>)
        ensures
            match r {
                Some((l, r)) => equation(t@) == Some((l@, r@)),
                None => equation(t@) is None,
            },
    {
        match t {
            Term::App(elems) => {
                let ghost ts = views(elems@);
                assert(t@ == Tree::App(ts));
                if elems.len() != 3 {
                    return None;
                }
                assert(ts[0] == elems@[0]@ && ts[1] == elems@[1]@ && ts[2] == elems@[2]@);
                match &elems[0] {
                    Term::Op(op) => {
                        if *op == OpKind::Equal {
                            Some((elems[1].clone(), elems[2].clone()))
                        } else {
                            None
                        }
                    },
                    _ => None,
                }
            },
            _ => None,
        }
    }

    /// The shaped seats and the key of a pattern.
    fn shape_pattern(info: &AtomInfo, p: &Term) -> (r: (u64, u64))
        ensures
            r == pattern_key(*info, p@),
    {
        let mut shaped: u64 = 0;
        let mut key: u64 = info.base_residue;
        if let Term::App(elems) = p {
            let ghost ts = views(elems@);
            assert(p@ == Tree::App(ts));
            let mut i: usize = 0;
            while i < elems.len()
                invariant
                    i <= elems@.len(),
                    ts == views(elems@),
                    (shaped, key) == shaping(ts, info.mask, info.base_residue, i as nat),
                decreases elems@.len() - i,
            {
                assert(ts[i as int] == elems@[i as int]@);
                if i < 64 && (info.mask >> (i as u64)) & 1 == 1 {
                    if let Some(c) = seat_shape_coin(i, &elems[i]) {
                        shaped = shaped | (1u64 << (i as u64));
                        key = key ^ c;
                    }
                }
                i += 1;
            }
        }
        (shaped, key)
    }

    /// The open units that could match a target with the given seats.  `tag`
    /// is the tag of the target's length.
    pub fn open_candidates(
        &self,
        pos: bool,
        head: u64,
        arity: u8,
        tag: u64,
        seats: &Vec<SeatK>,
    ) -> (out: Vec<OpenUnit>)
        requires
            self.wf(),
            seats@.len() <= 64,
        ensures
            unit_views(out@) == candidates_of(self@.open, pos, head, arity, tag, seats@),
    {
        let mut out: Vec<OpenUnit> = Vec::new();
        let ghost open = self@.open;
        let mut k: usize = 0;
        assert(unit_views(out@) =~= Seq::empty());
        while k < self.buckets.len()
            invariant
                self.wf(),
                seats@.len() <= 64,
                k <= self.buckets@.len(),
                open == self@.open,
                unit_views(out@) == candidates_of(
                    open.take(k as int),
                    pos,
                    head,
                    arity,
                    tag,
                    seats@,
                ),
            decreases self.buckets@.len() - k,
        {
            let b: Bucket = self.buckets[k];
            assert(open.take(k + 1).drop_last() =~= open.take(k as int));
            assert(open.take(k + 1).last() == (b, self.units@[k as int]@));
            if b.pos == pos && b.head == head && b.arity == arity {
                if let Some((key, scan)) = Self::probe_group(seats, b.mask, b.shaped, tag) {
                    if scan || key == b.key {
                        let ghost sofar = unit_views(out@);
                        out.push(self.units[k].clone());
                        assert(unit_views(out@) =~= sofar.push(self.units@[k as int]@));
                    }
                }
            }
            k += 1;
        }
        assert(open.take(k as int) =~= open);
        out
    }

    /// The key of a target for one mask group.
    fn probe_group(seats: &Vec<SeatK>, mask: u64, shaped: u64, tag: u64) -> (r: Option<(u64, bool)>)
        requires
            seats@.len() <= 64,
        ensures
            r == probe(seats@, mask, shaped, tag, seats@.len()),
    {
        let mut key: u64 = tag;
        let mut scan: bool = false;
        let mut i: usize = 0;
        while i < seats.len()
            invariant
                i <= seats@.len() <= 64,
                probe(seats@, mask, shaped, tag, i as nat) == Some((key, scan)),
            decreases seats@.len() - i,
        {
            let sk: SeatK = seats[i];
            let next: Option<(u64, bool)> = if (mask >> (i as u64)) & 1 == 1 {
                if (shaped >> (i as u64)) & 1 == 1 {
                    match sk {
                        SeatK::Compound(Some(c)) => Some((key ^ c, scan)),
                        _ => None,
                    }
                } else {
                    Some((key, scan))
                }
            } else {
                match sk {
                    SeatK::Var => None,
                    SeatK::Compound(_) => Some((key, true)),
                    SeatK::Leaf(c) => Some((key ^ c, scan)),
                }
            };
            assert(next == probe(seats@, mask, shaped, tag, (i + 1) as nat));
            match next {
                Some((k2, s2)) => {
                    key = k2;
                    scan = s2;
                },
                None => {
                    proof {
                        lemma_probe_fails(seats@, mask, shaped, tag, (i + 1) as nat, seats@.len());
                    }
                    return None;
                },
            }
            i += 1;
        }
        Some((key, scan))
    }

    /// The clause of the oldest open unit that matches the target.
    fn first_open(
        &self,
        pos: bool,
        head: u64,
        arity: u8,
        target: &Term,
        nvars_lit: u32,
    ) -> (r: Option<u32>)
        requires
            self.wf(),
            PATTERN_SLOTS + nvars_lit <= u32::MAX,
        ensures
            r == first_match(self@.open, pos, head, arity, target@),
    {
        let ghost open = self@.open;
        let mut k: usize = 0;
        while k < self.buckets.len()
            invariant
                self.wf(),
                PATTERN_SLOTS + nvars_lit <= u32::MAX,
                k <= self.buckets@.len(),
                open == self@.open,
                first_match(open.take(k as int), pos, head, arity, target@) is None,
            decreases self.buckets@.len() - k,
        {
            let b: Bucket = self.buckets[k];
            let u: &OpenUnit = &self.units[k];
            assert(open.take(k + 1).drop_last() =~= open.take(k as int));
            assert(open.take(k + 1).last() == (b, u@));
            if b.pos == pos && b.head == head && b.arity == arity {
                let mut s: Subst = free_slots((PATTERN_SLOTS + nvars_lit) as usize);
                let ghost s0 = bindings(s@);
                let hit: bool = match_one_way(&u.pattern, target, &mut s);
                proof {
                    lemma_match_decides(s0, bindings(s@), u.pattern@, target@, hit);
                }
                if hit {
                    proof {
                        lemma_first_match_prefix(open, pos, head, arity, target@, k + 1);
                    }
                    return Some(u.clause);
                }
            }
            k += 1;
        }
        assert(open.take(k as int) =~= open);
        None
    }

    /// What a literal meets among the active units.  `nvars_lit` is the number
    /// of variables of the literal's clause.
    pub fn check(&self, pos: bool, atom: &Atom, nvars_lit: u32, canon: &CanonVars) -> (r: Option<UnitHit>)
        requires
            self.wf(),
            PATTERN_SLOTS + nvars_lit <= u32::MAX,
            canon@.len() + PATTERN_SLOTS <= u32::MAX,
        ensures
            r == unit_hit(self@, pos, atom.id, atom.term@, atom.info.ground, canon@),
    {
        if atom.info.ground {
            if let Some(c) = self.ground_unit(pos, atom.id) {
                return Some(UnitHit::Subsumes(c));
            }
            if let Some(c) = self.ground_unit(!pos, atom.id) {
                return Some(UnitHit::Refutes(c));
            }
        }
        let (head, arity) = match head_key(&atom.term) {
            Some(k) => k,
            None => {
                return None;
            },
        };
        let target: Term = match canon.reslot(&atom.term, PATTERN_SLOTS) {
            Some(t) => t,
            None => {
                return None;
            },
        };
        if let Some(c) = self.first_open(pos, head, arity, &target, nvars_lit) {
            return Some(UnitHit::Subsumes(c));
        }
        if let Some(c) = self.first_open(!pos, head, arity, &target, nvars_lit) {
            return Some(UnitHit::Refutes(c));
        }
        None
    }
}

/// Slots leave the shape of an equation alone.
proof fn lemma_equation_slotted(ids: Seq<SymbolId>, t: Tree)
    ensures
        equation(t) is Some <==> equation(slotted(ids, 0, t)) is Some,
{
    broadcast use crate::subst::lemma_inst_app;

    let f = |v: int|
        match crate::canon::slot_of(ids, v) {
            Some(k) => Tree::Var(k + 0),
            None => Tree::Var(v),
        };
    if let Tree::App(ts) = t {
        assert(slotted(ids, 0, t) == Tree::App(insts(f, ts)));
        if ts.len() == 3 {
            assert(insts(f, ts)[0] == inst(f, ts[0]));
        }
    }
}

proof fn lemma_probe_fails(seats: Seq<SeatK>, mask: u64, shaped: u64, tag: u64, i: nat, n: nat)
    requires
        i <= n,
        probe(seats, mask, shaped, tag, i) is None,
    ensures
        probe(seats, mask, shaped, tag, n) is None,
    decreases n - i,
{
    if i < n {
        lemma_probe_fails(seats, mask, shaped, tag, i, (n - 1) as nat);
    }
}

proof fn lemma_first_match_prefix(
    open: Seq<(Bucket, OpenView)>,
    pos: bool,
    head: u64,
    arity: u8,
    target: Tree,
    n: int,
)
    requires
        0 <= n <= open.len(),
        first_match(open.take(n), pos, head, arity, target) is Some,
    ensures
        first_match(open, pos, head, arity, target) == first_match(
            open.take(n),
            pos,
            head,
            arity,
            target,
        ),
    decreases open.len() - n,
{
    if n < open.len() {
        assert(open.take(n + 1).drop_last() =~= open.take(n));
        lemma_first_match_prefix(open, pos, head, arity, target, n + 1);
    } else {
        assert(open.take(n) =~= open);
    }
}

// ---------------------------------------------------------------------------
// Oriented equations
// ---------------------------------------------------------------------------

/// A rewrite `l -> r`, with the clause that states the equation.
pub struct Demod {
    pub clause: u32,
    /// the larger side, the pattern
    pub l: Term,
    /// the smaller side, the replacement
    pub r: Term,
    /// the number of slots of the pattern
    pub nslots: u32,
}

/// A rewrite with its sides as trees.
pub struct DemodView {
    pub clause: u32,
    pub l: Tree,
    pub r: Tree,
    pub nslots: u32,
}

impl View for Demod {
    type V = DemodView;

    open spec fn view(&self) -> DemodView {
        DemodView { clause: self.clause, l: self.l@, r: self.r@, nslots: self.nslots }
    }
}

/// The top shape of a term: head and length of an application, or a symbol.
#[derive(Clone, Copy, Debug, PartialEq, Eq, Structural)]
pub enum TopShape {
    App(u64, u8),
    Leaf(u64),
}

/// The top shape of a tree, if it has one.
pub open spec fn top_shape(t: Tree) -> Option<TopShape> {
    match t {
        Tree::App(_) => match head_key_spec(t) {
            Some((head, arity)) => Some(TopShape::App(head, arity)),
            None => None,
        },
        Tree::Sym(id) => Some(TopShape::Leaf(id)),
        _ => None,
    }
}

/// `n` is the number of slots that the tree needs: one more than its highest.
pub open spec fn slot_space(t: Tree, n: int) -> bool {
    &&& within(t, n)
    &&& n >= 0
    &&& n > 0 ==> occurs(n - 1, t)
}

/// The views of the rewrites.
pub open spec fn demod_views(ds: Seq<Demod>) -> Seq<DemodView> {
    Seq::new(ds.len(), |i: int| ds[i]@)
}

/// Oriented equations, by the top shape of their larger side.
pub struct DemodIndex {
    shapes: Vec<TopShape>,
    rewrites: Vec<Vec<Demod>>,
}

impl View for DemodIndex {
    type V = Map<TopShape, Seq<DemodView>>;

    closed spec fn view(&self) -> Map<TopShape, Seq<DemodView>> {
        Map::new(
            |k: TopShape| self.shapes@.contains(k),
            |k: TopShape| demod_views(self.rewrites@[self.shapes@.index_of(k)]@),
        )
    }
}

impl DemodIndex {
    /// The invariant of the index: one bucket for each shape.
    pub closed spec fn wf(&self) -> bool {
        &&& self.shapes@.len() == self.rewrites@.len()
        &&& self.shapes@.no_duplicates()
    }

    /// The index without equations.
    pub fn new() -> (d: DemodIndex)
        ensures
            d.wf(),
            d@ == Map::<TopShape, Seq<DemodView>>::empty(),
    {
        let d = DemodIndex { shapes: Vec::new(), rewrites: Vec::new() };
        assert(d@ =~= Map::empty());
        d
    }

    /// Whether the index holds no equation.
    pub fn is_empty(&self) -> (r: bool)
        requires
            self.wf(),
        ensures
            r == (self@ == Map::<TopShape, Seq<DemodView>>::empty()),
    {
        proof {
            if self.shapes@.len() > 0 {
                assert(self.shapes@.contains(self.shapes@[0]));
                assert(self@.dom().contains(self.shapes@[0]));
            } else {
                assert(self@ =~= Map::empty());
            }
        }
        self.shapes.len() == 0
    }

    /// Takes every equation out.
    pub fn clear(&mut self)
        ensures
            final(self).wf(),
            final(self)@ == Map::<TopShape, Seq<DemodView>>::empty(),
    {
        self.shapes = Vec::new();
        self.rewrites = Vec::new();
        assert(self@ =~= Map::empty());
    }

    /// The top shape of a term.
    fn shape_of(t: &Term) -> (r: Option<TopShape>)
        ensures
            r == top_shape(t@),
    {
        match t {
            Term::App(elems) => {
                assert(t@ == Tree::App(views(elems@)));
                match head_key(t) {
                    Some((head, arity)) => Some(TopShape::App(head, arity)),
                    None => None,
                }
            },
            Term::Sym(s) => Some(TopShape::Leaf(s.id())),
            _ => None,
        }
    }

    /// The position of a shape's bucket.
    fn position(&self, k: TopShape) -> (r: Option<usize>)
        requires
            self.wf(),
        ensures
            match r {
                Some(i) => i < self.shapes@.len() && self.shapes@[i as int] == k
                    && self.shapes@.index_of(k) == i,
                None => !self.shapes@.contains(k),
            },
    {
        let mut i: usize = 0;
        while i < self.shapes.len()
            invariant
                self.wf(),
                i <= self.shapes@.len(),
                forall|j: int| 0 <= j < i ==> self.shapes@[j] != k,
            decreases self.shapes@.len() - i,
        {
            if self.shapes[i] == k {
                return Some(i);
            }
            i += 1;
        }
        None
    }

    /// The number of slots that a term needs.
    fn slots_of(t: &Term) -> (n: u64)
        requires
            within(t@, u32::MAX as int),
        ensures
            slot_space(t@, n as int),
            n <= u32::MAX,
        decreases t,
    {
        match t {
            Term::Var(v) => {
                assert(occurs(*v as int, t@));
                *v + 1
            },
            Term::App(elems) => {
                let ghost ts = views(elems@);
                assert(t@ == Tree::App(ts));
                let mut n: u64 = 0;
                let mut i: usize = 0;
                while i < elems.len()
                    invariant
                        i <= elems@.len(),
                        ts == views(elems@),
                        t@ == Tree::App(ts),
                        within(t@, u32::MAX as int),
                        n <= u32::MAX,
                        forall|k: int| 0 <= k < i ==> within(#[trigger] ts[k], n as int),
                        n > 0 ==> occurs(n - 1, t@),
                        decreases_to!(t => elems@),
                    decreases elems@.len() - i,
                {
                    proof {
                        assert forall|v: int| #[trigger] occurs(v, ts[i as int]) implies 0 <= v
                            < u32::MAX by {
                            crate::subst::lemma_occurs_elem(v, ts, i as int);
                        }
                        assert(ts[i as int] == elems@[i as int]@);
                    }
                    let m: u64 = Self::slots_of(&elems[i]);
                    if m > n {
                        proof {
                            crate::subst::lemma_occurs_elem(m - 1, ts, i as int);
                        }
                        n = m;
                    }
                    i += 1;
                }
                proof {
                    assert forall|v: int| #[trigger] occurs(v, t@) implies 0 <= v < n by {
                        let k = crate::subst::lemma_occurs_split(v, ts);
                        assert(within(ts[k], n as int));
                    }
                }
                n
            },
            _ => 0,
        }
    }

    /// Enters the rewrite `l -> r`.  A larger side without a top shape is left
    /// out.
    pub fn add(&mut self, clause: u32, l: Term, r: Term)
        requires
            old(self).wf(),
            within(l@, u32::MAX as int),
        ensures
            final(self).wf(),
            match top_shape(l@) {
                None => final(self)@ == old(self)@,
                Some(k) => exists|n: u32|
                    slot_space(l@, n as int) && final(self)@ == demod_entered(
                        old(self)@,
                        #[trigger] rewrite(clause, l@, r@, n),
                    ),
            },
    {
        let nslots: u32 = Self::slots_of(&l) as u32;
        let k: TopShape = match Self::shape_of(&l) {
            Some(k) => k,
            None => {
                return;
            },
        };
        let ghost before = *self;
        let d: Demod = Demod { clause, l, r, nslots };
        let ghost v = d@;
        assert(v == rewrite(clause, l@, r@, nslots));
        match self.position(k) {
            Some(i) => {
                self.rewrites[i].push(d);
                proof {
                    assert(demod_views(self.rewrites@[i as int]@) =~= demod_views(
                        before.rewrites@[i as int]@,
                    ).push(v));
                    assert forall|j: TopShape| self.shapes@.contains(j) && j != k implies self.shapes@.index_of(
                        j,
                    ) != i by {}
                    assert(self@ =~= before@.insert(k, bucket(before@, k).push(v)));
                }
            },
            None => {
                let mut b: Vec<Demod> = Vec::new();
                b.push(d);
                self.shapes.push(k);
                self.rewrites.push(b);
                proof {
                    let n = before.shapes@.len() as int;
                    assert(self.shapes@[n] == k);
                    assert(self.shapes@.index_of(k) == n);
                    assert(demod_views(b@) =~= Seq::empty().push(v));
                    assert forall|j: TopShape| before.shapes@.contains(j) implies self.shapes@.contains(j)
                        && self.shapes@.index_of(j) == before.shapes@.index_of(j) by {
                        let i = before.shapes@.index_of(j);
                        assert(self.shapes@[i] == j);
                    }
                    assert(self@ =~= before@.insert(k, bucket(before@, k).push(v)));
                }
            },
        }
    }

    /// The rewrites whose larger side could match `t`, by top shape, oldest
    /// first; `None` if there is none.
    pub fn candidates(&self, t: &Term) -> (r: Option<&Vec<Demod>>)
        requires
            self.wf(),
        ensures
            match r {
                Some(ds) => demods_for(self@, t@) == Some(demod_views(ds@)),
                None => demods_for(self@, t@) is None,
            },
    {
        let k: TopShape = match Self::shape_of(t) {
            Some(k) => k,
            None => {
                return None;
            },
        };
        match self.position(k) {
            Some(i) => Some(&self.rewrites[i]),
            None => None,
        }
    }
}

/// The rewrite `l -> r` of clause `clause`, with `n` slots.
pub open spec fn rewrite(clause: u32, l: Tree, r: Tree, n: u32) -> DemodView {
    DemodView { clause, l, r, nslots: n }
}

/// The rewrites under a shape.
pub open spec fn bucket(m: Map<TopShape, Seq<DemodView>>, k: TopShape) -> Seq<DemodView> {
    if m.dom().contains(k) {
        m[k]
    } else {
        Seq::empty()
    }
}

/// The index once the rewrite has been entered; one without a top shape is left
/// out.
pub open spec fn demod_entered(m: Map<TopShape, Seq<DemodView>>, d: DemodView) -> Map<TopShape, Seq<DemodView>> {
    match top_shape(d.l) {
        None => m,
        Some(k) => m.insert(k, bucket(m, k).push(d)),
    }
}

/// The index once the rewrites have been entered one after another.
pub open spec fn demods_entered(m: Map<TopShape, Seq<DemodView>>, ds: Seq<DemodView>) -> Map<TopShape, Seq<DemodView>>
    decreases ds.len(),
{
    if ds.len() == 0 {
        m
    } else {
        demod_entered(demods_entered(m, ds.drop_last()), ds.last())
    }
}

/// The rewrites whose larger side could match the term.
pub open spec fn demods_for(m: Map<TopShape, Seq<DemodView>>, t: Tree) -> Option<Seq<DemodView>> {
    match top_shape(t) {
        None => None,
        Some(k) => if m.dom().contains(k) {
            Some(m[k])
        } else {
            None
        },
    }
}

proof fn lemma_entered_stays(m: Map<TopShape, Seq<DemodView>>, ds: Seq<DemodView>, i: int, k: TopShape)
    requires
        0 <= i < ds.len(),
        top_shape(ds[i].l) == Some(k),
    ensures
        demods_entered(m, ds).dom().contains(k),
        demods_entered(m, ds)[k].contains(ds[i]),
    decreases ds.len(),
{
    let before = demods_entered(m, ds.drop_last());
    let b = bucket(before, k);
    if i < ds.len() - 1 {
        lemma_entered_stays(m, ds.drop_last(), i, k);
        assert(ds.drop_last()[i] == ds[i]);
        let j = choose|j: int| 0 <= j < b.len() && b[j] == ds[i];
        if top_shape(ds.last().l) == Some(k) {
            assert(b.push(ds.last())[j] == ds[i]);
        }
    } else {
        assert(b.push(ds[i])[b.len() as int] == ds[i]);
    }
}

/// An equation that was entered is among the candidates of each of its instances,
/// whatever is entered behind it: it stays until the index is cleared.
pub proof fn law_entered_rewrite_stays(m: Map<TopShape, Seq<DemodView>>, ds: Seq<DemodView>, i: int, t: Tree)
    requires
        0 <= i < ds.len(),
        top_shape(ds[i].l) is Some,
        pattern_matches(ds[i].l, t),
    ensures
        demods_for(demods_entered(m, ds), t) matches Some(cs) && cs.contains(ds[i]),
{
    law_matching_patterns_share_the_shape(ds[i].l, t);
    lemma_entered_stays(m, ds, i, top_shape(t)->0);
}

/// Nothing is a candidate for a variable, a literal, or an application with a
/// variable at its head.
pub proof fn law_no_candidates_without_a_head(m: Map<TopShape, Seq<DemodView>>, t: Tree)
    requires
        t is Var || t is Lit || (t matches Tree::App(ts) && ts.len() > 0 && ts[0] is Var),
    ensures
        demods_for(m, t) is None,
{
}

/// The number of slots of a rewrite is fixed by its larger side: one more than
/// the highest slot, and none where there is no variable.
pub proof fn law_slot_count_is_fixed(t: Tree, n: int, m: int)
    requires
        slot_space(t, n),
        slot_space(t, m),
    ensures
        n == m,
{
    if n > 0 {
        assert(occurs(n - 1, t));
    }
    if m > 0 {
        assert(occurs(m - 1, t));
    }
}

/// A pattern that matches a target has the target's top shape, or none: the
/// index never hides a rewrite that could apply.
pub proof fn law_matching_patterns_share_the_shape(p: Tree, t: Tree)
    requires
        pattern_matches(p, t),
        top_shape(p) is Some,
    ensures
        top_shape(t) == top_shape(p),
{
    broadcast use crate::subst::lemma_inst_app;

    let f = choose|f: spec_fn(int) -> Tree| #[trigger] inst(f, p) == t;
    if let Tree::App(ts) = p {
        assert(t == Tree::App(insts(f, ts)));
        assert(insts(f, ts)[0] == inst(f, ts[0]));
    }
}

/// How the seats of a target take part in the lookup, with `coin` giving the
/// coins of the leaves.
pub open spec fn seats_of(coin: spec_fn(int, Tree) -> u64, ts: Seq<Tree>) -> Seq<SeatK> {
    Seq::new(
        ts.len(),
        |i: int|
            match ts[i] {
                Tree::Var(_) => SeatK::Var,
                Tree::App(_) => SeatK::Compound(shape_coin_spec(i as usize, ts[i])),
                _ => SeatK::Leaf(coin(i, ts[i])),
            },
    )
}

/// The residue of the closed ones among the first `n` seats.
pub open spec fn closed_residue(
    coin: spec_fn(int, Tree) -> u64,
    ts: Seq<Tree>,
    mask: u64,
    tag: u64,
    n: nat,
) -> u64
    decreases n,
{
    if n == 0 {
        tag
    } else {
        let rest = closed_residue(coin, ts, mask, tag, (n - 1) as nat);
        if (mask >> ((n - 1) as u64)) & 1 == 1 {
            rest
        } else {
            rest ^ coin(n - 1, ts[n - 1])
        }
    }
}

/// `info` tells of the seats `ts`: no variable occurs in a closed one, and the
/// residue is that of the closed ones.
pub open spec fn describes(
    info: AtomInfo,
    coin: spec_fn(int, Tree) -> u64,
    ts: Seq<Tree>,
    tag: u64,
) -> bool {
    &&& forall|i: int, v: int|
        0 <= i < ts.len() && #[trigger] occurs(v, ts[i]) ==> (info.mask >> (i as u64)) & 1 == 1
    &&& info.base_residue == closed_residue(coin, ts, info.mask, tag, ts.len())
}

proof fn lemma_shaped_bit(shaped: u64, i: u64, j: u64)
    by (bit_vector)
    requires
        i < 64,
        j < 64,
    ensures
        (((shaped | (1u64 << i)) >> j) & 1 == 1) == (i == j || (shaped >> j) & 1 == 1),
{
}

proof fn lemma_no_bit(j: u64)
    by (bit_vector)
    requires
        j < 64,
    ensures
        (0u64 >> j) & 1 != 1,
{
}

proof fn lemma_xor(a: u64, b: u64, c: u64)
    by (bit_vector)
    ensures
        (a ^ b) ^ c == a ^ (b ^ c),
        (a ^ b) ^ c == (a ^ c) ^ b,
        a ^ 0u64 == a,
{
}

/// The shaped seats are the open ones with a shape, and the residue goes into
/// the key as it stands.
proof fn lemma_shaping(ts: Seq<Tree>, mask: u64, residue: u64, n: nat, j: u64)
    requires
        n <= 64,
        j < 64,
    ensures
        ((shaping(ts, mask, residue, n).0 >> j) & 1 == 1) <==> (j < n && (mask >> j) & 1 == 1
            && shape_coin_spec(j as usize, ts[j as int]) is Some),
        shaping(ts, mask, residue, n).0 == shaping(ts, mask, 0, n).0,
        shaping(ts, mask, residue, n).1 == residue ^ shaping(ts, mask, 0, n).1,
    decreases n,
{
    if n == 0 {
        lemma_no_bit(j);
        lemma_xor(residue, 0, 0);
    } else {
        lemma_shaping(ts, mask, residue, (n - 1) as nat, j);
        let i = (n - 1) as usize;
        lemma_shaped_bit(shaping(ts, mask, residue, (n - 1) as nat).0, i as u64, j);
        if let Some(c) = shape_coin_spec(i, ts[i as int]) {
            lemma_xor(residue, shaping(ts, mask, 0, (n - 1) as nat).1, c);
        }
    }
}

/// An instance has the shape of its pattern.
proof fn lemma_shape_inst(f: spec_fn(int) -> Tree, p: Tree, seat: usize)
    requires
        shape_coin_spec(seat, p) is Some,
    ensures
        inst(f, p) is App,
        shape_coin_spec(seat, inst(f, p)) == shape_coin_spec(seat, p),
{
    broadcast use crate::subst::lemma_inst_app;

    if let Tree::App(ts) = p {
        assert(inst(f, p) == Tree::App(insts(f, ts)));
        assert(insts(f, ts)[0] == inst(f, ts[0]));
    }
}

/// The seats of an instance are looked up under the key of the pattern.
proof fn lemma_probe_instance(
    info: AtomInfo,
    coin: spec_fn(int, Tree) -> u64,
    ps: Seq<Tree>,
    f: spec_fn(int) -> Tree,
    tag: u64,
    n: nat,
)
    requires
        n <= ps.len() <= 64,
        describes(info, coin, ps, tag),
    ensures
        match probe(
            seats_of(coin, insts(f, ps)),
            info.mask,
            shaping(ps, info.mask, 0, ps.len()).0,
            tag,
            n,
        ) {
            Some((key, scan)) => scan || key == closed_residue(coin, ps, info.mask, tag, n)
                ^ shaping(ps, info.mask, 0, n).1,
            None => false,
        },
    decreases n,
{
    if n == 0 {
        lemma_xor(tag, 0, 0);
    } else {
        let m = (n - 1) as nat;
        let i = (n - 1) as u64;
        let seats = seats_of(coin, insts(f, ps));
        let shaped = shaping(ps, info.mask, 0, ps.len()).0;
        let rest = closed_residue(coin, ps, info.mask, tag, m);
        let coins = shaping(ps, info.mask, 0, m).1;
        lemma_probe_instance(info, coin, ps, f, tag, m);
        lemma_shaping(ps, info.mask, 0, ps.len(), i);
        assert(insts(f, ps)[n - 1] == inst(f, ps[n - 1]));
        if (info.mask >> i) & 1 == 1 {
            if let Some(c) = shape_coin_spec(i as usize, ps[n - 1]) {
                lemma_shape_inst(f, ps[n - 1], i as usize);
                lemma_xor(rest, coins, c);
            }
        } else {
            assert forall|v: int| occurs(v, ps[n - 1]) implies f(v) == Tree::Var(v) by {
                assert(occurs(v, ps[n - 1]));
            }
            let id = |v: int| Tree::Var(v);
            crate::subst::lemma_inst_agree(f, id, ps[n - 1]);
            crate::subst::lemma_inst_id(id, ps[n - 1]);
            if let Tree::Var(v) = ps[n - 1] {
                assert(occurs(v, ps[n - 1]));
            }
            lemma_xor(rest, coins, coin(n - 1, ps[n - 1]));
        }
    }
}

proof fn lemma_candidate_listed(
    open: Seq<(Bucket, OpenView)>,
    k: int,
    pos: bool,
    head: u64,
    arity: u8,
    tag: u64,
    seats: Seq<SeatK>,
)
    requires
        0 <= k < open.len(),
        is_candidate(open[k].0, pos, head, arity, tag, seats),
    ensures
        candidates_of(open, pos, head, arity, tag, seats).contains(open[k].1),
    decreases open.len(),
{
    let rest = candidates_of(open.drop_last(), pos, head, arity, tag, seats);
    let all = candidates_of(open, pos, head, arity, tag, seats);
    if k < open.len() - 1 {
        lemma_candidate_listed(open.drop_last(), k, pos, head, arity, tag, seats);
        assert(all[rest.index_of(open[k].1)] == open[k].1);
    } else {
        assert(all[rest.len() as int] == open[k].1);
    }
}

/// The lookup never hides a unit that could apply: an open unit whose pattern
/// matches a target is among the target's candidates, whatever the coins of
/// the leaves are.
pub proof fn law_matching_units_are_candidates(
    open: Seq<(Bucket, OpenView)>,
    k: int,
    info: AtomInfo,
    coin: spec_fn(int, Tree) -> u64,
    tag: u64,
    target: Seq<Tree>,
)
    requires
        0 <= k < open.len(),
        open[k].1.pattern matches Tree::App(ps) && ps.len() <= 64 && describes(info, coin, ps, tag),
        head_key_spec(open[k].1.pattern) == Some((open[k].0.head, open[k].0.arity)),
        open[k].0.mask == info.mask,
        pattern_key(info, open[k].1.pattern) == (open[k].0.shaped, open[k].0.key),
        pattern_matches(open[k].1.pattern, Tree::App(target)),
    ensures
        ({
            let (head, arity) = head_key_spec(Tree::App(target))->0;
            candidates_of(
                open,
                open[k].0.pos,
                head,
                arity,
                tag,
                seats_of(coin, target),
            ).contains(open[k].1)
        }),
{
    broadcast use crate::subst::lemma_inst_app;

    let p = open[k].1.pattern;
    let ps = p->App_0;
    let f = choose|f: spec_fn(int) -> Tree| #[trigger] inst(f, p) == Tree::App(target);
    assert(target == insts(f, ps));
    assert(insts(f, ps)[0] == inst(f, ps[0]));
    lemma_probe_instance(info, coin, ps, f, tag, ps.len());
    lemma_shaping(ps, info.mask, info.base_residue, ps.len(), 0);
    let (head, arity) = head_key_spec(Tree::App(target))->0;
    lemma_candidate_listed(open, k, open[k].0.pos, head, arity, tag, seats_of(coin, target));
}

/// A ground literal that has been entered subsumes itself afterwards and
/// refutes its negation.
pub proof fn law_entered_ground_units_hit(
    s: UnitsView,
    clause: u32,
    pos: bool,
    id: AtomId,
    term: Tree,
    info: AtomInfo,
    nvars: u32,
    ids: Seq<SymbolId>,
)
    requires
        info.ground,
    ensures
        ({
            let u = with_unit(s, clause, pos, id, term, info, nvars, ids);
            &&& unit_hit(u, pos, id, term, true, ids) matches Some(UnitHit::Subsumes(_))
            &&& ground_of(s, !pos, id) is None ==> unit_hit(u, !pos, id, term, true, ids) matches Some(
                UnitHit::Refutes(_),
            )
        }),
{
}

/// Every equation is registered in both orientations.
pub proof fn law_equations_come_in_pairs(
    s: UnitsView,
    clause: u32,
    id: AtomId,
    term: Tree,
    info: AtomInfo,
    nvars: u32,
    ids: Seq<SymbolId>,
)
    requires
        canonical(ids, term),
        equation(slotted(ids, 0, term)) is Some,
        ({
            let (l, r) = equation(slotted(ids, 0, term))->0;
            l != r
        }),
    ensures
        ({
            let u = with_unit(s, clause, true, id, term, info, nvars, ids);
            let n = s.equals.len() as int;
            &&& u.equals.len() == n + 2
            &&& u.equals[n].1 == u.equals[n + 1].2
            &&& u.equals[n].2 == u.equals[n + 1].1
        }),
{
    lemma_equation_slotted(ids, term);
}

/// The open unit at the place has the polarity, the head and the arity, and matches the
/// target.
pub open spec fn open_fits(open: Seq<(Bucket, OpenView)>, i: int, pos: bool, head: u64, arity: u8, target: Tree) -> bool {
    &&& 0 <= i < open.len()
    &&& open[i].0.pos == pos
    &&& open[i].0.head == head
    &&& open[i].0.arity == arity
    &&& pattern_matches(open[i].1.pattern, target)
}

/// The first match is the clause of the oldest open unit that fits; there is none exactly
/// if no unit fits.
pub proof fn law_the_oldest_unit_is_met(open: Seq<(Bucket, OpenView)>, pos: bool, head: u64, arity: u8, target: Tree)
    ensures
        match first_match(open, pos, head, arity, target) {
            Some(c) => exists|i: int| #[trigger]
                open_fits(open, i, pos, head, arity, target) && open[i].1.clause == c && forall|j: int|
                    0 <= j < i ==> !#[trigger] open_fits(open, j, pos, head, arity, target),
            None => forall|i: int| !open_fits(open, i, pos, head, arity, target),
        },
    decreases open.len(),
{
    if open.len() > 0 {
        let rest = open.drop_last();
        let n = open.len() - 1;
        law_the_oldest_unit_is_met(rest, pos, head, arity, target);
        assert forall|i: int| 0 <= i < n implies #[trigger] open_fits(rest, i, pos, head, arity, target) == open_fits(
            open,
            i,
            pos,
            head,
            arity,
            target,
        ) by {
            assert(rest[i] == open[i]);
        }
        match first_match(rest, pos, head, arity, target) {
            Some(c) => {
                let i = choose|i: int| #[trigger]
                    open_fits(rest, i, pos, head, arity, target) && rest[i].1.clause == c && forall|j: int|
                        0 <= j < i ==> !#[trigger] open_fits(rest, j, pos, head, arity, target);
                assert(open_fits(open, i, pos, head, arity, target) && open[i].1.clause == c);
                assert forall|j: int| 0 <= j < i implies !#[trigger] open_fits(open, j, pos, head, arity, target) by {
                    assert(!open_fits(rest, j, pos, head, arity, target));
                }
            },
            None => {
                assert forall|j: int| 0 <= j < n implies !#[trigger] open_fits(open, j, pos, head, arity, target) by {
                    assert(!open_fits(rest, j, pos, head, arity, target));
                }
                if open_fits(open, n, pos, head, arity, target) {
                    assert(open[n].1.clause == first_match(open, pos, head, arity, target)->0);
                }
            },
        }
    }
}

/// Some unit of the polarity, stated by the clause, covers the literal: the same ground
/// atom, or an open one that matches.
pub open spec fn covered_by(
    s: UnitsView,
    pos: bool,
    id: AtomId,
    term: Tree,
    ground: bool,
    ids: Seq<SymbolId>,
    clause: u32,
) -> bool {
    ||| ground && ground_of(s, pos, id) == Some(clause)
    ||| canonical(ids, term) && (head_key_spec(term) matches Some(k) && exists|i: int| #[trigger]
        open_fits(s.open, i, pos, k.0, k.1, slotted(ids, PATTERN_SLOTS as int, term)) && s.open[i].1.clause == clause)
}

/// No unit of the polarity covers the literal.
pub open spec fn uncovered(s: UnitsView, pos: bool, id: AtomId, term: Tree, ground: bool, ids: Seq<SymbolId>) -> bool {
    forall|c: u32| !#[trigger] covered_by(s, pos, id, term, ground, ids, c)
}

/// A literal is subsumed only by a unit of its own polarity that covers it and refuted
/// only by one of the other; and it meets nothing only if no unit covers it.
pub proof fn law_hits_are_units_that_cover(
    s: UnitsView,
    pos: bool,
    id: AtomId,
    term: Tree,
    ground: bool,
    ids: Seq<SymbolId>,
    clause: u32,
)
    ensures
        unit_hit(s, pos, id, term, ground, ids) == Some(UnitHit::Subsumes(clause)) ==> covered_by(
            s,
            pos,
            id,
            term,
            ground,
            ids,
            clause,
        ),
        unit_hit(s, pos, id, term, ground, ids) == Some(UnitHit::Refutes(clause)) ==> covered_by(
            s,
            !pos,
            id,
            term,
            ground,
            ids,
            clause,
        ),
        unit_hit(s, pos, id, term, ground, ids) is None ==> !covered_by(s, pos, id, term, ground, ids, clause)
            && !covered_by(s, !pos, id, term, ground, ids, clause),
        covered_by(s, pos, id, term, ground, ids, clause) && uncovered(s, !pos, id, term, ground, ids) ==> unit_hit(
            s,
            pos,
            id,
            term,
            ground,
            ids,
        ) matches Some(UnitHit::Subsumes(_)),
{
    if let Some(k) = head_key_spec(term) {
        let target = slotted(ids, PATTERN_SLOTS as int, term);
        law_the_oldest_unit_is_met(s.open, pos, k.0, k.1, target);
        law_the_oldest_unit_is_met(s.open, !pos, k.0, k.1, target);
    }
    if let Some(UnitHit::Refutes(c)) = unit_hit(s, pos, id, term, ground, ids) {
        assert(covered_by(s, !pos, id, term, ground, ids, c));
    }
}

/// An open unit, once entered, is met by every later literal that it matches, of either
/// polarity.
pub proof fn law_entered_open_units_hit(
    s: UnitsView,
    clause: u32,
    pos: bool,
    id: AtomId,
    term: Tree,
    info: AtomInfo,
    nvars: u32,
    ids: Seq<SymbolId>,
    later_id: AtomId,
    later: Tree,
    ground: bool,
)
    requires
        !info.ground,
        canonical(ids, term),
        canonical(ids, later),
        head_key_spec(term) is Some,
        head_key_spec(later) == head_key_spec(term),
        pattern_matches(slotted(ids, 0, term), slotted(ids, PATTERN_SLOTS as int, later)),
    ensures
        covered_by(with_unit(s, clause, pos, id, term, info, nvars, ids), pos, later_id, later, ground, ids, clause),
        unit_hit(with_unit(s, clause, pos, id, term, info, nvars, ids), pos, later_id, later, ground, ids) is Some,
        unit_hit(with_unit(s, clause, pos, id, term, info, nvars, ids), !pos, later_id, later, ground, ids) is Some,
{
    let u = with_unit(s, clause, pos, id, term, info, nvars, ids);
    let k = head_key_spec(later)->0;
    let n = s.open.len() as int;
    assert(u.open[n].1.clause == clause);
    assert(open_fits(u.open, n, pos, k.0, k.1, slotted(ids, PATTERN_SLOTS as int, later)));
    law_hits_are_units_that_cover(u, pos, later_id, later, ground, ids, clause);
    law_hits_are_units_that_cover(u, !pos, later_id, later, ground, ids, clause);
}

/// Rewriting learns from positive equations alone, and from none whose sides are the same:
/// every other unit leaves the equations as they were.
pub proof fn law_other_units_are_no_rewrites(
    s: UnitsView,
    clause: u32,
    pos: bool,
    id: AtomId,
    term: Tree,
    info: AtomInfo,
    nvars: u32,
    ids: Seq<SymbolId>,
)
    requires
        !pos || equation(term) is None || (equation(slotted(ids, 0, term)) matches Some(e) && e.0 == e.1),
    ensures
        with_unit(s, clause, pos, id, term, info, nvars, ids).equals == s.equals,
{
}

} // verus!
