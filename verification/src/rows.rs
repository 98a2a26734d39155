//! Rows of stored terms and plans of patterns.  Every stored compound has a row
//! of four field elements, linear in the keys of its arguments.  A pattern is
//! compiled into small linear systems, one for each level, whose solutions are
//! the keys at its open seats; a stored term whose row does not satisfy them
//! cannot match.
use std::collections::HashMap;

use vstd::prelude::*;
use vstd::utf8::encode_utf8;

use xxhash_rust::xxh64::xxh64;

use crate::content::{app_content_key, app_key};
use crate::gf64::{self, law_product_adds_left, law_product_one, product, square};
use crate::hashing::xxh64_digest;
use crate::linear::{
    chosen, deficient, dot, kills, law_distinct_elements_are_told_apart, law_inverse_recovers, lemma_dot_same,
    lemma_product_zero, lemma_xor_group, nonzero, power, power_row, rows_of, solve_plan, solved,
};
use crate::small::{ByteBuf, IdList};
use crate::subst::{
    ground, inst, insts, lemma_ground_app, lemma_inst_app, lemma_inst_id, lemma_occurs_elem, occurs, size, sizes,
    within,
};
use crate::term::{lemma_app_view, views, Term, Tree};
use crate::terms::{lemma_memo_trans, lemma_walk_grows, memo_grows, KboOrdering, TermFactsTable};
use crate::text::{be_bytes, be_bytes_u32};
use crate::types::{Literal, LiteralView};
use crate::units::{op_tag, op_tag_spec};

verus! {

broadcast use {lemma_app_view, lemma_inst_app, vstd::std_specs::hash::group_hash_axioms};

/// One row: four channels.
pub type Row = [u64; 4];

/// Seed of the seat elements.
pub const ROW_SEAT_SEED: u64 = 0xA1FA_5EA7_A1FA_5EA7;

/// Seed of the compound tags.
pub const ROW_TAG_SEED: u64 = 0x7A67_C0DE_7A67_C0DE;

/// Seed of the leaf rows.
pub const ROW_LEAF_SEED: u64 = 0x1EAF_7A65_1EAF_7A65;

/// Seed of the keys of stored variables.
pub const ROW_BLANK_SEED: u64 = 0xB1A2_1C01_B1A2_1C01;

// ---------------------------------------------------------------------------
// Keys and rows
// ---------------------------------------------------------------------------

/// The element of a seat: from the head and the position together, and never
/// zero.
pub open spec fn seat(head: u64, pos: int) -> u64 {
    let a = xxh64_digest(be_bytes(head) + be_bytes_u32(pos as u32), ROW_SEAT_SEED);
    if a == 0 {
        1
    } else {
        a
    }
}

/// The element of a seat.
pub fn seat_elem(head: u64, pos: usize) -> (a: u64)
    ensures
        a == seat(head, pos as int),
        a != 0,
{
    let mut buf: ByteBuf = ByteBuf::new();
    buf.put_u64(head);
    buf.put_u32(pos as u32);
    assert(buf@ =~= be_bytes(head) + be_bytes_u32(pos as u32));
    let a: u64 = xxh64(buf.as_slice(), ROW_SEAT_SEED);
    if a == 0 {
        1
    } else {
        a
    }
}

/// The powers of an element from the zeroth to the third.
pub open spec fn powers(a: u64) -> Seq<u64> {
    seq![1u64, a, square(a), product(square(a), a)]
}

/// The multipliers of a seat, one for each channel.
pub fn seat_powers(a: u64) -> (r: Row)
    ensures
        r@ == powers(a),
{
    let a2: u64 = gf64::sq(a);
    let r: Row = [1, a, a2, gf64::mul(a2, a)];
    assert(r@ =~= powers(a));
    r
}

/// Unknowns at seats with distinct elements are always told apart, by the
/// first channels alone.
pub proof fn law_distinct_seats_are_told_apart(a: Seq<u64>, coef: [[u64; 3]; 4], v: nat)
    requires
        v <= 3,
        forall|i: int, k: int| 0 <= i < k < v ==> #[trigger] a[i] != #[trigger] a[k],
        forall|j: int, u: int| 0 <= j < 4 && 0 <= u < v ==> #[trigger] coef@[j]@[u] == powers(a[u])[j],
    ensures
        !deficient(rows_of(coef).take(v as int), v),
{
    let firsts = rows_of(coef).take(v as int);
    let m = Seq::new(v, |j: int| power_row(a, j as nat, v));
    law_distinct_elements_are_told_apart(a, v);
    if deficient(firsts, v) {
        let x = choose|x: Seq<u64>| x.len() == v && nonzero(x, v) && #[trigger] kills(firsts, x, v);
        assert forall|j: int| 0 <= j < m.len() implies dot(#[trigger] m[j], x, v) == 0 by {
            assert(dot(firsts[j], x, v) == 0);
            assert forall|u: int| 0 <= u < v implies #[trigger] m[j][u] == firsts[j][u] by {
                reveal_with_fuel(power, 4);
                law_product_one(a[u]);
                assert(coef@[j]@[u] == powers(a[u])[j]);
            }
            lemma_dot_same(m[j], firsts[j], x, x, v);
        }
        assert(kills(m, x, v));
    }
}

/// The tag of a compound in channel `j`.
pub open spec fn tag(head: u64, len: nat, j: int) -> u64 {
    xxh64_digest(be_bytes(head) + be_bytes_u32(len as u32) + seq![j as u8], ROW_TAG_SEED)
}

/// The tags of a compound.
pub open spec fn tags(head: u64, len: nat) -> Seq<u64> {
    Seq::new(4, |j: int| tag(head, len, j))
}

fn tag_of(head: u64, len: usize, j: u8) -> (t: u64)
    ensures
        t == tag(head, len as nat, j as int),
{
    let mut buf: ByteBuf = ByteBuf::new();
    buf.put_u64(head);
    buf.put_u32(len as u32);
    buf.push(j);
    assert(buf@ =~= be_bytes(head) + be_bytes_u32(len as u32) + seq![j]);
    xxh64(buf.as_slice(), ROW_TAG_SEED)
}

/// The tags of a compound with the given head and length.
pub fn node_tags(head: u64, len: usize) -> (r: Row)
    ensures
        r@ == tags(head, len as nat),
{
    let r: Row = [tag_of(head, len, 0), tag_of(head, len, 1), tag_of(head, len, 2), tag_of(head, len, 3)];
    assert(r@ =~= tags(head, len as nat));
    r
}

/// The row of a leaf with the given key.
pub open spec fn leaf_tags(key: u64) -> Seq<u64> {
    Seq::new(4, |j: int| xxh64_digest(be_bytes(key) + seq![j as u8], ROW_LEAF_SEED))
}

fn leaf_tag_of(key: u64, j: u8) -> (t: u64)
    ensures
        t == xxh64_digest(be_bytes(key) + seq![j], ROW_LEAF_SEED),
{
    let mut buf: ByteBuf = ByteBuf::new();
    buf.put_u64(key);
    buf.push(j);
    assert(buf@ =~= be_bytes(key) + seq![j]);
    xxh64(buf.as_slice(), ROW_LEAF_SEED)
}

/// The row of a leaf, or of a compound without a plain head: a marker of its
/// presence.
pub fn leaf_row(key: u64) -> (r: Row)
    ensures
        r@ == leaf_tags(key),
{
    let r: Row = [leaf_tag_of(key, 0), leaf_tag_of(key, 1), leaf_tag_of(key, 2), leaf_tag_of(key, 3)];
    assert(r@ =~= leaf_tags(key));
    r
}

/// The key of a stored variable.
pub open spec fn blank(slot: u64) -> u64 {
    xxh64_digest(be_bytes(slot), ROW_BLANK_SEED)
}

/// The key of a stored variable's slot.
pub fn blank_key(slot: u64) -> (k: u64)
    ensures
        k == blank(slot),
{
    let mut buf: ByteBuf = ByteBuf::new();
    buf.put_u64(slot);
    assert(buf@ =~= be_bytes(slot));
    xxh64(buf.as_slice(), ROW_BLANK_SEED)
}

/// The key of a literal: strings and numbers are hashed apart.
pub open spec fn literal_row_key(l: LiteralView) -> u64 {
    xxh64_digest(
        encode_utf8(l.text),
        if l.is_str {
            84
        } else {
            78
        },
    )
}

/// The key of a literal.
pub fn lit_key(l: &Literal) -> (k: u64)
    ensures
        k == literal_row_key(l@),
{
    match l {
        Literal::Str(v) => xxh64(v.as_str().as_bytes(), 84),
        Literal::Number(v) => xxh64(v.as_str().as_bytes(), 78),
    }
}

/// The head of an application, if it is a symbol or an operator.
pub open spec fn plain_head(ts: Seq<Tree>) -> Option<u64> {
    if ts.len() == 0 {
        None
    } else {
        match ts[0] {
            Tree::Sym(id) => Some(id),
            Tree::Op(op) => Some(op_tag_spec(op) as u64),
            _ => None,
        }
    }
}

/// The key of an application's head; `None` if the head is a variable, a
/// literal or a compound.
pub fn head_of(elems: &Vec<Term>) -> (r: Option<u64>)
    ensures
        r == plain_head(views(elems@)),
{
    if elems.len() == 0 {
        return None;
    }
    assert(views(elems@)[0] == elems@[0]@);
    match &elems[0] {
        Term::Sym(s) => Some(s.id()),
        Term::Op(op) => Some(op_tag(op) as u64),
        _ => None,
    }
}

/// The key of a tree as a child.
pub open spec fn row_key(t: Tree) -> u64 {
    match t {
        Tree::Sym(id) => id,
        Tree::Lit(l) => literal_row_key(l),
        Tree::Op(op) => op_tag_spec(op) as u64,
        Tree::App(ts) => app_key(ts),
        Tree::Var(v) => blank(v as u64),
    }
}

/// The key of a stored term as a child.
pub fn term_key(t: &Term) -> (k: u64)
    ensures
        k == row_key(t@),
{
    match t {
        Term::Sym(s) => s.id(),
        Term::Lit(l) => lit_key(l),
        Term::Op(op) => op_tag(op) as u64,
        Term::App(elems) => app_content_key(elems),
        Term::Var(v) => blank_key(*v),
    }
}

/// Two rows added.
pub open spec fn row_add(a: Seq<u64>, b: Seq<u64>) -> Seq<u64> {
    Seq::new(4, |j: int| a[j] ^ b[j])
}

/// A row times a key.
pub open spec fn row_times(p: Seq<u64>, key: u64) -> Seq<u64> {
    Seq::new(4, |j: int| product(p[j], key))
}

/// The row of zeros.
pub open spec fn zero_row() -> Seq<u64> {
    Seq::new(4, |j: int| 0u64)
}

/// What the first `n` elements of an application add to its row.
pub open spec fn seats_sum(head: u64, ts: Seq<Tree>, n: int) -> Seq<u64>
    decreases n,
{
    if n <= 1 {
        zero_row()
    } else {
        row_add(seats_sum(head, ts, n - 1), row_times(powers(seat(head, n - 1)), row_key(ts[n - 1])))
    }
}

/// The row of a stored tree.
pub open spec fn row_of(t: Tree) -> Seq<u64> {
    match t {
        Tree::App(ts) => match plain_head(ts) {
            Some(h) => row_add(tags(h, ts.len()), seats_sum(h, ts, ts.len() as int)),
            None => leaf_tags(row_key(t)),
        },
        _ => leaf_tags(row_key(t)),
    }
}

/// Adds one child to a row: its key times the powers of the seat.
pub fn accum_child(row: &mut Row, alpha: u64, key: u64)
    ensures
        final(row)@ == row_add(old(row)@, row_times(powers(alpha), key)),
{
    let a2: u64 = gf64::sq(alpha);
    row[0] = row[0] ^ key;
    row[1] = row[1] ^ gf64::mul(alpha, key);
    row[2] = row[2] ^ gf64::mul(a2, key);
    row[3] = row[3] ^ gf64::mul(gf64::mul(a2, alpha), key);
    proof {
        law_product_one(key);
        crate::gf64::law_product_commutes(1, key);
    }
    assert(row@ =~= row_add(old(row)@, row_times(powers(alpha), key)));
}

/// Adds `key` times the given multipliers to a row.
fn accum_powers(row: &mut Row, pw: &Row, key: u64)
    ensures
        final(row)@ == row_add(old(row)@, row_times(pw@, key)),
{
    let mut j: usize = 0;
    while j < 4
        invariant
            j <= 4,
            forall|k: int| 0 <= k < j ==> #[trigger] row@[k] == old(row)@[k] ^ product(pw@[k], key),
            forall|k: int| j <= k < 4 ==> #[trigger] row@[k] == old(row)@[k],
        decreases 4 - j,
    {
        if pw[j] != 0 {
            row[j] = row[j] ^ gf64::mul(pw[j], key);
        } else {
            proof {
                lemma_product_zero(key);
                lemma_xor_group(row@[j as int], 0, 0, 0);
            }
        }
        j += 1;
    }
    assert(row@ =~= row_add(old(row)@, row_times(pw@, key)));
}

/// Adds one row to another.
fn accum_row(row: &mut Row, other: &Row)
    ensures
        final(row)@ == row_add(old(row)@, other@),
{
    row[0] = row[0] ^ other[0];
    row[1] = row[1] ^ other[1];
    row[2] = row[2] ^ other[2];
    row[3] = row[3] ^ other[3];
    assert(row@ =~= row_add(old(row)@, other@));
}

/// The row of a stored term.
pub fn term_row(t: &Term) -> (r: Row)
    ensures
        r@ == row_of(t@),
{
    if let Term::App(elems) = t {
        if let Some(h) = head_of(elems) {
            let ghost ts = views(elems@);
            let mut row: Row = node_tags(h, elems.len());
            let mut i: usize = 1;
            proof {
                assert(row@ =~= row_add(tags(h, ts.len()), seats_sum(h, ts, 1))) by {
                    assert forall|j: int| 0 <= j < 4 implies row@[j] ^ 0 == #[trigger] row@[j] by {
                        lemma_xor_group(row@[j], 0, 0, 0);
                    }
                }
            }
            while i < elems.len()
                invariant
                    1 <= i <= elems@.len(),
                    ts == views(elems@),
                    row@ == row_add(tags(h, ts.len()), seats_sum(h, ts, i as int)),
                decreases elems@.len() - i,
            {
                let ghost before = row@;
                assert(ts[i as int] == elems@[i as int]@);
                accum_child(&mut row, seat_elem(h, i), term_key(&elems[i]));
                proof {
                    let c = row_times(powers(seat(h, i as int)), row_key(ts[i as int]));
                    lemma_row_assoc(tags(h, ts.len()), seats_sum(h, ts, i as int), c);
                }
                i += 1;
            }
            return row;
        }
    }
    leaf_row(term_key(t))
}

pub proof fn lemma_row_assoc(a: Seq<u64>, b: Seq<u64>, c: Seq<u64>)
    ensures
        row_add(row_add(a, b), c) == row_add(a, row_add(b, c)),
        row_add(a, b) == row_add(b, a),
{
    assert forall|j: int| 0 <= j < 4 implies (a[j] ^ b[j]) ^ c[j] == a[j] ^ (b[j] ^ c[j]) && a[j] ^ b[j] == b[j]
        ^ a[j] by {
        lemma_xor_group(a[j], b[j], c[j], 0);
    }
    assert(row_add(row_add(a, b), c) =~= row_add(a, row_add(b, c)));
    assert(row_add(a, b) =~= row_add(b, a));
}

/// The table with the rows of a tree and of its arguments, at every level.
pub open spec fn with_rows(m: Map<u64, Row>, t: Tree, row: spec_fn(Tree) -> Row) -> Map<u64, Row>
    decreases t,
{
    match t {
        Tree::App(ts) => with_arg_rows(m, ts, row).insert(row_key(t), row(t)),
        _ => m.insert(row_key(t), row(t)),
    }
}

/// The same for the arguments of an application.
pub open spec fn with_arg_rows(m: Map<u64, Row>, ts: Seq<Tree>, row: spec_fn(Tree) -> Row) -> Map<u64, Row>
    decreases ts,
{
    if ts.len() <= 1 {
        m
    } else {
        with_rows(with_arg_rows(m, ts.drop_last(), row), ts.last(), row)
    }
}

/// The array with the given four channels.
pub open spec fn as_row(s: Seq<u64>) -> Row {
    choose|r: Row| r@ == s
}

/// The row of a tree, as an array.
pub open spec fn row_array() -> spec_fn(Tree) -> Row {
    |t: Tree| as_row(row_of(t))
}

proof fn lemma_as_row(r: Row)
    ensures
        as_row(r@) == r,
{
    let q = as_row(r@);
    assert(q@ == r@);
    assert(q =~= r);
}

/// Enters the rows of a stored term and of its arguments, at every level.
pub fn register_rows(tab: &mut HashMap<u64, Row>, t: &Term)
    ensures
        final(tab)@ == with_rows(old(tab)@, t@, row_array()),
    decreases t,
{
    if let Term::App(elems) = t {
        let ghost ts = views(elems@);
        let mut i: usize = 1;
        assert(with_arg_rows(tab@, ts.take(if ts.len() == 0 { 0 } else { 1 }), row_array()) == tab@);
        while i < elems.len()
            invariant
                1 <= i,
                i <= elems@.len() || elems@.len() == 0,
                ts == views(elems@),
                tab@ == with_arg_rows(
                    old(tab)@,
                    ts.take(
                        if ts.len() == 0 {
                            0
                        } else {
                            i as int
                        },
                    ),
                    row_array(),
                ),
                decreases_to!(t => elems@),
            decreases elems@.len() - i,
        {
            assert(ts[i as int] == elems@[i as int]@);
            assert(ts.take(i + 1).drop_last() =~= ts.take(i as int));
            register_rows(tab, &elems[i]);
            i += 1;
        }
        assert(ts.take(if ts.len() == 0 { 0 } else { i as int }) =~= ts);
    }
    let row: Row = term_row(t);
    proof {
        lemma_as_row(row);
    }
    tab.insert(term_key(t), row);
}

// ---------------------------------------------------------------------------
// Plans and how they are evaluated
// ---------------------------------------------------------------------------

/// What one decoded unknown is in the pattern.
#[derive(Clone, Copy, Debug, PartialEq, Eq, Structural)]
pub enum PUnknown {
    /// A variable: bind its slot.
    Var(u32),
    /// A compound with a plain head: go on with the plan node.
    Sub(u32),
    /// Another compound: nothing beyond its presence is known.
    Opaque,
}

/// One level of a compiled pattern: a linear system over the keys.
pub struct PNode {
    /// The tags, with what the ground arguments add.
    pub skel: Row,
    /// Slots bound before, with the multipliers of their seats.
    pub closed: Vec<(u32, Row)>,
    pub unknowns: Vec<PUnknown>,
    /// The multipliers of the unknowns: channel by unknown.
    pub coef: [[u64; 3]; 4],
    /// The channels that are solved.
    pub pivot: [u8; 3],
    pub inv: [[u64; 3]; 3],
    /// The channels that are checked.
    pub check_mask: u8,
    /// Nothing is solved here.
    pub fallback: bool,
    pub has_closed: bool,
}

/// Why a candidate cannot match.
#[derive(Clone, Copy, Debug, PartialEq, Eq, Structural)]
pub enum Reject {
    /// A check failed on what the pattern says itself.
    Surplus,
    /// A solved key is not that of a stored term.
    Probe,
    /// A check failed that uses a bound slot, or a solved key is not the one
    /// bound.
    Binding,
}

/// Every closed slot is bound.
pub open spec fn closed_bound(nd: PNode, bind: Seq<Option<u64>>) -> bool {
    forall|k: int| 0 <= k < nd.closed@.len() ==> bind[(#[trigger] nd.closed@[k]).0 as int] is Some
}

/// What the first `n` closed slots add.
pub open spec fn closed_sum(nd: PNode, bind: Seq<Option<u64>>, n: nat) -> Seq<u64>
    decreases n,
{
    if n == 0 {
        zero_row()
    } else {
        let (slot, pw) = nd.closed@[n - 1];
        row_add(closed_sum(nd, bind, (n - 1) as nat), row_times(pw@, bind[slot as int]->0))
    }
}

/// What is left of a row for the unknowns.
pub open spec fn delta(nd: PNode, row: Seq<u64>, bind: Seq<Option<u64>>) -> Seq<u64> {
    row_add(row_add(row, nd.skel@), closed_sum(nd, bind, nd.closed@.len()))
}

/// What is left in the channels that are solved.
pub open spec fn pivot_deltas(nd: PNode, d: Seq<u64>) -> Seq<u64> {
    Seq::new(3, |i: int| d[nd.pivot@[i] as int])
}

/// The solved keys.
pub open spec fn solved_keys(nd: PNode, d: Seq<u64>) -> Seq<u64> {
    let v = nd.unknowns@.len();
    Seq::new(v, |u: int| dot(nd.inv@[u]@, pivot_deltas(nd, d), v))
}

/// The solved keys satisfy the channels that are checked.
pub open spec fn checks_hold(nd: PNode, d: Seq<u64>, ks: Seq<u64>) -> bool {
    forall|j: u8|
        j < 4 && (#[trigger] (1u8 << j)) & nd.check_mask != 0 ==> dot(nd.coef@[j as int]@, ks, nd.unknowns@.len())
            == d[j as int]
}

/// The keys are those of stored terms.
pub open spec fn keys_known(tab: Map<u64, Row>, ks: Seq<u64>) -> bool {
    forall|u: int| 0 <= u < ks.len() ==> tab.dom().contains(#[trigger] ks[u])
}

/// The bindings and the trail of slots bound, and how it went.
pub struct Outcome {
    pub verdict: Result<(), Reject>,
    pub bind: Seq<Option<u64>>,
    pub trail: Seq<u32>,
}

/// The first `n` variables bound to their keys, up to a contradiction.
pub open spec fn vars_bound(
    us: Seq<PUnknown>,
    ks: Seq<u64>,
    bind: Seq<Option<u64>>,
    trail: Seq<u32>,
    n: nat,
) -> Outcome
    decreases n,
{
    if n == 0 {
        Outcome { verdict: Ok(()), bind, trail }
    } else {
        let o = vars_bound(us, ks, bind, trail, (n - 1) as nat);
        if o.verdict is Err {
            o
        } else {
            match us[n - 1] {
                PUnknown::Var(slot) => match o.bind[slot as int] {
                    Some(b) => if b == ks[n - 1] {
                        o
                    } else {
                        Outcome { verdict: Err(Reject::Binding), ..o }
                    },
                    None => Outcome {
                        verdict: Ok(()),
                        bind: o.bind.update(slot as int, Some(ks[n - 1])),
                        trail: o.trail.push(slot),
                    },
                },
                _ => o,
            }
        }
    }
}

/// The outcome of evaluating node `ni` against a row.
pub open spec fn evaluated(
    nodes: Seq<PNode>,
    ni: int,
    row: Seq<u64>,
    tab: Map<u64, Row>,
    bind: Seq<Option<u64>>,
    trail: Seq<u32>,
) -> Outcome
    decreases nodes.len() - ni, 1nat, 0nat,
{
    let nd = nodes[ni];
    let fine = Outcome { verdict: Ok(()), bind, trail };
    if ni < 0 || ni >= nodes.len() || nd.fallback || !closed_bound(nd, bind) {
        fine
    } else {
        let d = delta(nd, row, bind);
        let bad = if nd.has_closed {
            Reject::Binding
        } else {
            Reject::Surplus
        };
        if nd.unknowns@.len() == 0 {
            if d == zero_row() {
                fine
            } else {
                Outcome { verdict: Err(bad), bind, trail }
            }
        } else {
            let ks = solved_keys(nd, d);
            if !checks_hold(nd, d, ks) {
                Outcome { verdict: Err(bad), bind, trail }
            } else if !keys_known(tab, ks) {
                Outcome { verdict: Err(Reject::Probe), bind, trail }
            } else {
                let o = vars_bound(nd.unknowns@, ks, bind, trail, nd.unknowns@.len());
                if o.verdict is Err {
                    o
                } else {
                    descended(nodes, ni, ks, tab, o.bind, o.trail, nd.unknowns@.len())
                }
            }
        }
    }
}

/// The outcome of going on with the first `n` unknowns of node `ni`.
pub open spec fn descended(
    nodes: Seq<PNode>,
    ni: int,
    ks: Seq<u64>,
    tab: Map<u64, Row>,
    bind: Seq<Option<u64>>,
    trail: Seq<u32>,
    n: nat,
) -> Outcome
    decreases nodes.len() - ni, 0nat, n,
{
    if n == 0 {
        Outcome { verdict: Ok(()), bind, trail }
    } else {
        let o = descended(nodes, ni, ks, tab, bind, trail, (n - 1) as nat);
        if o.verdict is Err {
            o
        } else {
            match nodes[ni].unknowns@[n - 1] {
                PUnknown::Sub(ci) => if ni < ci < nodes.len() {
                    evaluated(nodes, ci as int, tab[ks[n - 1]]@, tab, o.bind, o.trail)
                } else {
                    o
                },
                _ => o,
            }
        }
    }
}

/// The node can be evaluated with `slots` slots.
pub open spec fn node_sound(nodes: Seq<PNode>, ni: int, slots: nat) -> bool {
    let nd = nodes[ni];
    &&& nd.unknowns@.len() <= 3
    &&& forall|u: int| 0 <= u < nd.unknowns@.len() ==> match #[trigger] nd.unknowns@[u] {
        PUnknown::Var(slot) => slot < slots,
        PUnknown::Sub(ci) => ni < ci < nodes.len(),
        PUnknown::Opaque => true,
    }
    &&& forall|k: int| 0 <= k < nd.closed@.len() ==> (#[trigger] nd.closed@[k]).0 < slots
    &&& forall|i: int| 0 <= i < nd.unknowns@.len() ==> #[trigger] nd.pivot@[i] < 4
}

/// Every node can be evaluated with `slots` slots.
pub open spec fn plan_sound(nodes: Seq<PNode>, slots: nat) -> bool {
    forall|ni: int| 0 <= ni < nodes.len() ==> #[trigger] node_sound(nodes, ni, slots)
}

/// A compiled pattern.
pub struct PatternPlan {
    nodes: Vec<PNode>,
    /// Some node has nothing to solve.
    pub fallback_any: bool,
    constraining: bool,
}

/// A plan as its users see it.
pub struct PlanView {
    pub nodes: Seq<PNode>,
    pub fallback_any: bool,
    pub constraining: bool,
}

impl View for PatternPlan {
    type V = PlanView;

    closed spec fn view(&self) -> PlanView {
        PlanView { nodes: self.nodes@, fallback_any: self.fallback_any, constraining: self.constraining }
    }
}

fn sum_products(a: &[u64; 3], x: &[u64; 3], v: usize) -> (r: u64)
    requires
        v <= 3,
    ensures
        r == dot(a@, x@, v as nat),
{
    let mut acc: u64 = 0;
    let mut i: usize = 0;
    while i < v
        invariant
            i <= v <= 3,
            acc == dot(a@, x@, i as nat),
        decreases v - i,
    {
        if a[i] != 0 && x[i] != 0 {
            acc = acc ^ gf64::mul(a[i], x[i]);
        } else {
            proof {
                lemma_product_zero(a@[i as int]);
                lemma_product_zero(x@[i as int]);
                lemma_xor_group(acc, 0, 0, 0);
            }
        }
        i += 1;
    }
    acc
}

impl PatternPlan {
    /// A plan for no pattern.
    pub fn new() -> (p: PatternPlan)
        ensures
            p@ == (PlanView { nodes: Seq::empty(), fallback_any: false, constraining: false }),
    {
        PatternPlan { nodes: Vec::new(), fallback_any: false, constraining: false }
    }

    /// Whether evaluating the plan can rule anything out.
    pub fn active(&self) -> (r: bool)
        ensures
            r == (self@.nodes.len() > 0 && !self@.nodes[0].fallback && self@.constraining),
    {
        self.nodes.len() > 0 && !self.nodes[0].fallback && self.constraining
    }

    /// Whether the root has nothing to solve.
    pub fn root_fallback(&self) -> (r: bool)
        ensures
            r == (self@.nodes.len() > 0 && self@.nodes[0].fallback),
    {
        self.nodes.len() > 0 && self.nodes[0].fallback
    }

    /// Whether the plan states nothing that the seats do not show.
    pub fn trivial(&self) -> (r: bool)
        ensures
            r == (self@.nodes.len() > 0 && !self@.nodes[0].fallback && !self@.constraining),
    {
        self.nodes.len() > 0 && !self.root_fallback() && !self.constraining
    }

    /// Evaluates the plan against the row of a candidate.  The slots bound on
    /// the way are put behind `trail`.
    pub fn eval(
        &self,
        row: &Row,
        tab: &HashMap<u64, Row>,
        bind: &mut Vec<Option<u64>>,
        trail: &mut Vec<u32>,
    ) -> (r: Result<(), Reject>)
        requires
            plan_sound(self@.nodes, old(bind)@.len()),
        ensures
            ({
                let o = evaluated(self@.nodes, 0, row@, tab@, old(bind)@, old(trail)@);
                r == o.verdict && final(bind)@ == o.bind && final(trail)@ == o.trail
            }),
    {
        if self.nodes.len() == 0 {
            return Ok(());
        }
        self.eval_node(0, row, tab, bind, trail)
    }

    fn eval_node(
        &self,
        ni: usize,
        row: &Row,
        tab: &HashMap<u64, Row>,
        bind: &mut Vec<Option<u64>>,
        trail: &mut Vec<u32>,
    ) -> (r: Result<(), Reject>)
        requires
            ni < self.nodes@.len(),
            plan_sound(self.nodes@, old(bind)@.len()),
        ensures
            ({
                let o = evaluated(self.nodes@, ni as int, row@, tab@, old(bind)@, old(trail)@);
                r == o.verdict && final(bind)@ == o.bind && final(trail)@ == o.trail
            }),
            final(bind)@.len() == old(bind)@.len(),
        decreases self.nodes@.len() - ni,
    {
        let ghost nodes = self.nodes@;
        let ghost slots = bind@.len();
        assert(node_sound(nodes, ni as int, slots));
        let nd: &PNode = &self.nodes[ni];
        if nd.fallback {
            return Ok(());
        }
        assert(bind.len() == bind@.len());
        let mut d: Row = *row;
        accum_row(&mut d, &nd.skel);
        let ghost start = d@;
        let mut k: usize = 0;
        proof {
            assert(row_add(start, zero_row()) =~= start) by {
                assert forall|j: int| 0 <= j < 4 implies start[j] ^ 0 == #[trigger] start[j] by {
                    lemma_xor_group(start[j], 0, 0, 0);
                }
            }
        }
        while k < nd.closed.len()
            invariant
                k <= nd.closed@.len(),
                ni < nodes.len(),
                nodes == self.nodes@,
                *nd == nodes[ni as int],
                !nd.fallback,
                node_sound(nodes, ni as int, slots),
                slots == bind@.len(),
                bind.len() == bind@.len(),
                bind@ == old(bind)@,
                trail@ == old(trail)@,
                forall|q: int| 0 <= q < k ==> bind@[(#[trigger] nd.closed@[q]).0 as int] is Some,
                d@ == row_add(start, closed_sum(*nd, bind@, k as nat)),
            decreases nd.closed@.len() - k,
        {
            let slot: u32 = nd.closed[k].0;
            assert(nd.closed@[k as int].0 < slots);
            match bind[slot as usize] {
                Some(b) => {
                    accum_powers(&mut d, &nd.closed[k].1, b);
                    proof {
                        lemma_row_assoc(
                            start,
                            closed_sum(*nd, bind@, k as nat),
                            row_times(nd.closed@[k as int].1@, b),
                        );
                    }
                },
                None => {
                    assert(!closed_bound(*nd, bind@));
                    return Ok(());
                },
            }
            k += 1;
        }
        assert(closed_bound(*nd, bind@));
        assert(d@ == delta(*nd, row@, bind@));
        let bad: Reject = if nd.has_closed {
            Reject::Binding
        } else {
            Reject::Surplus
        };
        let v: usize = nd.unknowns.len();
        if v == 0 {
            if d[0] != 0 || d[1] != 0 || d[2] != 0 || d[3] != 0 {
                assert(d@ != zero_row()) by {
                    assert(zero_row()[0] == 0 && zero_row()[1] == 0 && zero_row()[2] == 0 && zero_row()[3] == 0);
                }
                return Err(bad);
            }
            assert(d@ =~= zero_row());
            return Ok(());
        }
        let ghost dd = d@;
        let mut pd: [u64; 3] = [0, 0, 0];
        let mut i: usize = 0;
        while i < v
            invariant
                i <= v <= 3,
                v == nd.unknowns@.len(),
                *nd == nodes[ni as int],
                node_sound(nodes, ni as int, slots),
                dd == d@,
                forall|q: int| 0 <= q < i ==> #[trigger] pd@[q] == dd[nd.pivot@[q] as int],
            decreases v - i,
        {
            assert(nd.pivot@[i as int] < 4);
            pd[i] = d[nd.pivot[i] as usize];
            i += 1;
        }
        let mut ks: [u64; 3] = [0, 0, 0];
        let mut u: usize = 0;
        while u < v
            invariant
                u <= v <= 3,
                v == nd.unknowns@.len(),
                forall|q: int| 0 <= q < v ==> #[trigger] pd@[q] == dd[nd.pivot@[q] as int],
                forall|q: int| 0 <= q < u ==> #[trigger] ks@[q] == solved_keys(*nd, dd)[q],
            decreases v - u,
        {
            let row_u: [u64; 3] = nd.inv[u];
            ks[u] = sum_products(&row_u, &pd, v);
            proof {
                let pv = pivot_deltas(*nd, dd);
                assert forall|c: int| 0 <= c < v implies #[trigger] pd@[c] == pv[c] by {}
                lemma_dot_same(row_u@, nd.inv@[u as int]@, pd@, pv, v as nat);
            }
            u += 1;
        }
        let ghost keys = solved_keys(*nd, dd);
        let mut j: u8 = 0;
        while j < 4
            invariant
                j <= 4,
                v <= 3,
                v == nd.unknowns@.len(),
                dd == d@,
                keys == solved_keys(*nd, dd),
                v > 0,
                ni < nodes.len(),
                nodes == self.nodes@,
                *nd == nodes[ni as int],
                !nd.fallback,
                bind@ == old(bind)@,
                trail@ == old(trail)@,
                closed_bound(*nd, bind@),
                dd == delta(*nd, row@, bind@),
                bad == if nd.has_closed {
                    Reject::Binding
                } else {
                    Reject::Surplus
                },
                forall|q: int| 0 <= q < v ==> #[trigger] ks@[q] == keys[q],
                forall|c: u8|
                    c < j && (#[trigger] (1u8 << c)) & nd.check_mask != 0 ==> dot(nd.coef@[c as int]@, keys, v as nat)
                        == dd[c as int],
            decreases 4 - j,
        {
            if (1u8 << j) & nd.check_mask != 0 {
                let row_j: [u64; 3] = nd.coef[j as usize];
                let acc: u64 = sum_products(&row_j, &ks, v);
                proof {
                    lemma_dot_same(row_j@, nd.coef@[j as int]@, ks@, keys, v as nat);
                }
                if acc != d[j as usize] {
                    assert(!checks_hold(*nd, dd, keys));
                    return Err(bad);
                }
            }
            j += 1;
        }
        assert(checks_hold(*nd, dd, keys));
        let mut child_rows: Vec<Row> = Vec::new();
        let mut u: usize = 0;
        while u < v
            invariant
                u <= v <= 3,
                v == nd.unknowns@.len(),
                v > 0,
                keys == solved_keys(*nd, dd),
                keys.len() == v,
                ni < nodes.len(),
                nodes == self.nodes@,
                *nd == nodes[ni as int],
                !nd.fallback,
                bind@ == old(bind)@,
                trail@ == old(trail)@,
                closed_bound(*nd, bind@),
                dd == delta(*nd, row@, bind@),
                checks_hold(*nd, dd, keys),
                forall|q: int| 0 <= q < v ==> #[trigger] ks@[q] == keys[q],
                child_rows@.len() == u,
                forall|q: int|
                    0 <= q < u ==> tab@.dom().contains(#[trigger] keys[q]) && child_rows@[q] == tab@[keys[q]],
            decreases v - u,
        {
            assert(ks@[u as int] == keys[u as int]);
            match tab.get(&ks[u]) {
                Some(r) => {
                    child_rows.push(*r);
                },
                None => {
                    assert(!keys_known(tab@, keys));
                    return Err(Reject::Probe);
                },
            }
            u += 1;
        }
        assert(keys_known(tab@, keys));
        let mut u: usize = 0;
        while u < v
            invariant
                u <= v <= 3,
                v == nd.unknowns@.len(),
                v > 0,
                keys == solved_keys(*nd, dd),
                keys.len() == v,
                ni < nodes.len(),
                nodes == self.nodes@,
                *nd == nodes[ni as int],
                !nd.fallback,
                node_sound(nodes, ni as int, slots),
                slots == bind@.len() == old(bind)@.len(),
                closed_bound(*nd, old(bind)@),
                dd == delta(*nd, row@, old(bind)@),
                checks_hold(*nd, dd, keys),
                keys_known(tab@, keys),
                forall|q: int| 0 <= q < v ==> #[trigger] ks@[q] == keys[q],
                vars_bound(nd.unknowns@, keys, old(bind)@, old(trail)@, u as nat) == (Outcome {
                    verdict: Ok(()),
                    bind: bind@,
                    trail: trail@,
                }),
            decreases v - u,
        {
            assert(bind.len() == bind@.len());
            assert(ks@[u as int] == keys[u as int]);
            let unk: PUnknown = nd.unknowns[u];
            assert(nd.unknowns@[u as int] == unk);
            if let PUnknown::Var(slot) = unk {
                match bind[slot as usize] {
                    Some(b) => {
                        if b != ks[u] {
                            proof {
                                lemma_vars_stop(nd.unknowns@, keys, old(bind)@, old(trail)@, (u + 1) as nat);
                            }
                            return Err(Reject::Binding);
                        }
                    },
                    None => {
                        bind.set(slot as usize, Some(ks[u]));
                        trail.push(slot);
                    },
                }
            }
            u += 1;
        }
        let ghost (b1, t1) = (bind@, trail@);
        let mut u: usize = 0;
        while u < v
            invariant
                u <= v <= 3,
                v == nd.unknowns@.len(),
                v > 0,
                keys == solved_keys(*nd, dd),
                keys.len() == v,
                ni < nodes.len(),
                nodes == self.nodes@,
                *nd == nodes[ni as int],
                !nd.fallback,
                node_sound(nodes, ni as int, slots),
                plan_sound(nodes, slots),
                slots == bind@.len() == old(bind)@.len(),
                closed_bound(*nd, old(bind)@),
                dd == delta(*nd, row@, old(bind)@),
                checks_hold(*nd, dd, keys),
                keys_known(tab@, keys),
                vars_bound(nd.unknowns@, keys, old(bind)@, old(trail)@, v as nat) == (Outcome {
                    verdict: Ok(()),
                    bind: b1,
                    trail: t1,
                }),
                child_rows@.len() == v,
                forall|q: int|
                    0 <= q < v ==> tab@.dom().contains(#[trigger] keys[q]) && child_rows@[q] == tab@[keys[q]],
                descended(nodes, ni as int, keys, tab@, b1, t1, u as nat) == (Outcome {
                    verdict: Ok(()),
                    bind: bind@,
                    trail: trail@,
                }),
            decreases v - u,
        {
            let unk: PUnknown = nd.unknowns[u];
            assert(nd.unknowns@[u as int] == unk);
            let ghost (b2, t2) = (bind@, trail@);
            if let PUnknown::Sub(ci) = unk {
                assert(child_rows@[u as int] == tab@[keys[u as int]]);
                let crow: Row = child_rows[u];
                assert(descended(nodes, ni as int, keys, tab@, b1, t1, (u + 1) as nat) == evaluated(
                    nodes,
                    ci as int,
                    crow@,
                    tab@,
                    b2,
                    t2,
                ));
                let res: Result<(), Reject> = self.eval_node(ci as usize, &crow, tab, bind, trail);
                if res.is_err() {
                    proof {
                        lemma_descent_stops(nodes, ni as int, keys, tab@, b1, t1, (u + 1) as nat);
                    }
                    return res;
                }
                proof {
                    let o = evaluated(nodes, ci as int, crow@, tab@, b2, t2);
                    assert(res == o.verdict);
                    assert(o.verdict is Ok);
                    assert(o.verdict->Ok_0 == ());
                    assert(o == (Outcome { verdict: Ok(()), bind: bind@, trail: trail@ }));
                }
            } else {
                assert(descended(nodes, ni as int, keys, tab@, b1, t1, (u + 1) as nat) == descended(
                    nodes,
                    ni as int,
                    keys,
                    tab@,
                    b1,
                    t1,
                    u as nat,
                ));
            }
            u += 1;
        }
        Ok(())
    }
}

proof fn lemma_vars_stop(us: Seq<PUnknown>, ks: Seq<u64>, bind: Seq<Option<u64>>, trail: Seq<u32>, n: nat)
    requires
        n <= us.len(),
        vars_bound(us, ks, bind, trail, n).verdict is Err,
    ensures
        vars_bound(us, ks, bind, trail, us.len()) == vars_bound(us, ks, bind, trail, n),
    decreases us.len() - n,
{
    if n < us.len() {
        lemma_vars_stop(us, ks, bind, trail, (n + 1) as nat);
    }
}

proof fn lemma_descent_stops(
    nodes: Seq<PNode>,
    ni: int,
    ks: Seq<u64>,
    tab: Map<u64, Row>,
    bind: Seq<Option<u64>>,
    trail: Seq<u32>,
    n: nat,
)
    requires
        0 <= ni < nodes.len(),
        n <= nodes[ni].unknowns@.len(),
        descended(nodes, ni, ks, tab, bind, trail, n).verdict is Err,
    ensures
        descended(nodes, ni, ks, tab, bind, trail, nodes[ni].unknowns@.len()) == descended(
            nodes,
            ni,
            ks,
            tab,
            bind,
            trail,
            n,
        ),
    decreases nodes[ni].unknowns@.len() - n,
{
    if n < nodes[ni].unknowns@.len() {
        assert(descended(nodes, ni, ks, tab, bind, trail, (n + 1) as nat) == descended(
            nodes,
            ni,
            ks,
            tab,
            bind,
            trail,
            n,
        ));
        lemma_descent_stops(nodes, ni, ks, tab, bind, trail, (n + 1) as nat);
    }
}

// ---------------------------------------------------------------------------
// Compiling a pattern
// ---------------------------------------------------------------------------

/// Where an unknown comes from: a slot, or the compound at a seat.
#[derive(Clone, Copy, Debug, PartialEq, Eq, Structural)]
pub enum Src {
    Var(u32),
    Sub(u32),
    Opaque(u32),
}

/// The unknowns of the first `n` elements of a pattern: the slots not bound
/// before, each once, and the open compounds.
pub open spec fn sources(ts: Seq<Tree>, bound: Seq<u32>, n: int) -> Seq<Src>
    decreases n,
{
    if n <= 1 {
        Seq::empty()
    } else {
        let s = sources(ts, bound, n - 1);
        match ts[n - 1] {
            Tree::Var(v) => if bound.contains(v as u32) || s.contains(Src::Var(v as u32)) {
                s
            } else {
                s.push(Src::Var(v as u32))
            },
            Tree::App(us) => if ground(ts[n - 1]) {
                s
            } else if plain_head(us) is Some {
                s.push(Src::Sub((n - 1) as u32))
            } else {
                s.push(Src::Opaque((n - 1) as u32))
            },
            _ => s,
        }
    }
}

/// The slots bound before that stand among the first `n` elements, each once.
pub open spec fn closed_slots(ts: Seq<Tree>, bound: Seq<u32>, n: int) -> Seq<u32>
    decreases n,
{
    if n <= 1 {
        Seq::empty()
    } else {
        let s = closed_slots(ts, bound, n - 1);
        match ts[n - 1] {
            Tree::Var(v) => if bound.contains(v as u32) && !s.contains(v as u32) {
                s.push(v as u32)
            } else {
                s
            },
            _ => s,
        }
    }
}

/// The multipliers of all seats of a slot among the first `n` elements.
pub open spec fn slot_total(h: u64, ts: Seq<Tree>, slot: u32, n: int) -> Seq<u64>
    decreases n,
{
    if n <= 1 {
        zero_row()
    } else {
        let r = slot_total(h, ts, slot, n - 1);
        match ts[n - 1] {
            Tree::Var(v) => if v as u32 == slot {
                row_add(r, powers(seat(h, n - 1)))
            } else {
                r
            },
            _ => r,
        }
    }
}

/// What the ground arguments among the first `n` elements add.
pub open spec fn ground_total(h: u64, ts: Seq<Tree>, n: int) -> Seq<u64>
    decreases n,
{
    if n <= 1 {
        zero_row()
    } else {
        let r = ground_total(h, ts, n - 1);
        if ground(ts[n - 1]) {
            row_add(r, row_times(powers(seat(h, n - 1)), row_key(ts[n - 1])))
        } else {
            r
        }
    }
}

/// The multipliers of an unknown, counting the first `n` elements.
pub open spec fn source_total(h: u64, ts: Seq<Tree>, src: Src, n: int) -> Seq<u64> {
    match src {
        Src::Var(slot) => slot_total(h, ts, slot, n),
        Src::Sub(pos) => powers(seat(h, pos as int)),
        Src::Opaque(pos) => powers(seat(h, pos as int)),
    }
}

/// A ground argument stands among the first `n` elements.
pub open spec fn has_ground(ts: Seq<Tree>, n: int) -> bool {
    exists|i: int| 1 <= i < n && ground(#[trigger] ts[i])
}

/// A slot not bound before stands twice among the first `n` elements.
pub open spec fn has_repeat(ts: Seq<Tree>, bound: Seq<u32>, n: int) -> bool {
    exists|i: int, k: int| 1 <= i < k < n && repeats(ts, bound, i, k)
}

/// Elements `i` and `k` are one variable, not bound before.
pub open spec fn repeats(ts: Seq<Tree>, bound: Seq<u32>, i: int, k: int) -> bool {
    ts[i] == ts[k] && (ts[i] matches Tree::Var(v) && !bound.contains(v as u32))
}

/// The unknowns of a pattern.
pub open spec fn unknowns_of(ts: Seq<Tree>, bound: Seq<u32>) -> Seq<Src> {
    sources(ts, bound, ts.len() as int)
}

/// The multipliers of the unknowns: channel by unknown.
pub open spec fn matrix(ts: Seq<Tree>, bound: Seq<u32>) -> Seq<Seq<u64>> {
    let us = unknowns_of(ts, bound);
    let h = plain_head(ts)->0;
    Seq::new(4, |j: int| Seq::new(us.len(), |u: int| source_total(h, ts, us[u], ts.len() as int)[j]))
}

/// Nothing is solved: too many unknowns, or they cannot be told apart.
pub open spec fn falls_back(ts: Seq<Tree>, bound: Seq<u32>) -> bool {
    let v = unknowns_of(ts, bound).len();
    v > 3 || (v > 0 && deficient(matrix(ts, bound), v))
}

/// The level states more than the seats show.
pub open spec fn constrains(ts: Seq<Tree>, bound: Seq<u32>) -> bool {
    let us = unknowns_of(ts, bound);
    ||| has_ground(ts, ts.len() as int)
    ||| closed_slots(ts, bound, ts.len() as int).len() > 0
    ||| has_repeat(ts, bound, ts.len() as int)
    ||| us.len() == 0
    ||| exists|u: int| 0 <= u < us.len() && #[trigger] us[u] is Sub
}

/// The slots bound after the first `n` of the given unknowns.
pub open spec fn newly_bound(us: Seq<Src>, bound: Seq<u32>, n: nat) -> Seq<u32>
    decreases n,
{
    if n == 0 {
        bound
    } else {
        let b = newly_bound(us, bound, (n - 1) as nat);
        match us[n - 1] {
            Src::Var(slot) => b.push(slot),
            _ => b,
        }
    }
}

/// What compiling a pattern leaves behind: the slots bound, whether some level
/// falls back, and whether some level constrains.
pub struct After {
    pub bound: Seq<u32>,
    pub fallback_any: bool,
    pub constraining: bool,
}

/// What compiling the application of `ts` leaves behind.
pub open spec fn after(ts: Seq<Tree>, bound: Seq<u32>) -> After
    decreases ts, 1nat, 0nat,
{
    if falls_back(ts, bound) {
        After { bound, fallback_any: true, constraining: false }
    } else {
        let us = unknowns_of(ts, bound);
        let a = after_subs(ts, bound, us.len());
        After { constraining: constrains(ts, bound) || a.constraining, ..a }
    }
}

/// What compiling the first `n` unknowns leaves behind.
pub open spec fn after_subs(ts: Seq<Tree>, bound: Seq<u32>, n: nat) -> After
    decreases ts, 0nat, n,
{
    let us = unknowns_of(ts, bound);
    if n == 0 {
        After { bound: newly_bound(us, bound, us.len()), fallback_any: false, constraining: false }
    } else {
        let a = after_subs(ts, bound, (n - 1) as nat);
        match us[n - 1] {
            Src::Sub(pos) => if 0 <= pos < ts.len() && ts[pos as int] is App {
                let b = after(ts[pos as int]->App_0, a.bound);
                After {
                    bound: b.bound,
                    fallback_any: a.fallback_any || b.fallback_any,
                    constraining: a.constraining || b.constraining,
                }
            } else {
                a
            },
            _ => a,
        }
    }
}

/// The node holds the system of the application of `ts`.
pub open spec fn node_for(nd: PNode, ts: Seq<Tree>, bound: Seq<u32>) -> bool {
    let h = plain_head(ts)->0;
    let n = ts.len() as int;
    let us = unknowns_of(ts, bound);
    let cs = closed_slots(ts, bound, n);
    &&& nd.fallback == falls_back(ts, bound)
    &&& !nd.fallback ==> {
        &&& nd.skel@ == row_add(tags(h, ts.len()), ground_total(h, ts, n))
        &&& nd.has_closed == (cs.len() > 0)
        &&& nd.closed@.len() == cs.len()
        &&& forall|k: int|
            0 <= k < cs.len() ==> (#[trigger] nd.closed@[k]).0 == cs[k] && nd.closed@[k].1@ == slot_total(
                h,
                ts,
                cs[k],
                n,
            )
        &&& forall|j: int, u: int|
            0 <= j < 4 && 0 <= u < us.len() ==> #[trigger] nd.coef@[j]@[u] == source_total(h, ts, us[u], n)[j]
        &&& us.len() > 0 ==> solved(nd.coef, us.len(), nd.pivot, nd.inv, nd.check_mask)
    }
}

/// Node `ni` is the plan of the application of `ts` where the slots in `bound`
/// are bound before.
pub open spec fn planned(nodes: Seq<PNode>, ni: int, ts: Seq<Tree>, bound: Seq<u32>) -> bool
    decreases ts, 1nat, 0nat,
{
    let us = unknowns_of(ts, bound);
    &&& 0 <= ni < nodes.len()
    &&& node_for(nodes[ni], ts, bound)
    &&& if falls_back(ts, bound) {
        nodes[ni].unknowns@.len() == 0 && nodes[ni].closed@.len() == 0
    } else {
        nodes[ni].unknowns@.len() == us.len() && planned_subs(nodes, ni, ts, bound, us.len())
    }
}

/// The first `n` unknowns of node `ni` are planned.
pub open spec fn planned_subs(nodes: Seq<PNode>, ni: int, ts: Seq<Tree>, bound: Seq<u32>, n: nat) -> bool
    decreases ts, 0nat, n,
{
    let us = unknowns_of(ts, bound);
    n == 0 || {
        &&& planned_subs(nodes, ni, ts, bound, (n - 1) as nat)
        &&& match us[n - 1] {
            Src::Var(slot) => nodes[ni].unknowns@[n - 1] == PUnknown::Var(slot),
            Src::Opaque(_) => nodes[ni].unknowns@[n - 1] == PUnknown::Opaque,
            Src::Sub(pos) => {
                &&& 0 <= pos < ts.len()
                &&& ts[pos as int] is App
                &&& nodes[ni].unknowns@[n - 1] matches PUnknown::Sub(ci)
                &&& ni < ci
                &&& planned(nodes, ci as int, ts[pos as int]->App_0, after_subs(ts, bound, (n - 1) as nat).bound)
            },
        }
    }
}

/// What was found at the seats of one level.
struct Scan {
    skel: Row,
    closed: Vec<(u32, Row)>,
    srcs: Vec<Src>,
    cols: Vec<Row>,
    ground_closed: bool,
    collapsed: bool,
    over: bool,
}

/// A slot without a seat among the first `n` elements has no multipliers.
proof fn lemma_slot_absent(h: u64, ts: Seq<Tree>, bound: Seq<u32>, slot: u32, n: int)
    requires
        bound.contains(slot) ==> !closed_slots(ts, bound, n).contains(slot),
        !bound.contains(slot) ==> !sources(ts, bound, n).contains(Src::Var(slot)),
    ensures
        slot_total(h, ts, slot, n) == zero_row(),
        forall|i: int| 1 <= i < n ==> !(#[trigger] ts[i] matches Tree::Var(v) && v as u32 == slot),
    decreases n,
{
    if n > 1 {
        let (c, s) = (closed_slots(ts, bound, n - 1), sources(ts, bound, n - 1));
        if bound.contains(slot) {
            if c.contains(slot) {
                let k = c.index_of(slot);
                let c2 = closed_slots(ts, bound, n);
                assert(c2[k] == slot);
            }
        } else if s.contains(Src::Var(slot)) {
            let k = s.index_of(Src::Var(slot));
            let s2 = sources(ts, bound, n);
            assert(s2[k] == Src::Var(slot));
        }
        lemma_slot_absent(h, ts, bound, slot, n - 1);
        if let Tree::Var(v) = ts[n - 1] {
            if v as u32 == slot {
                if bound.contains(slot) {
                    let c2 = closed_slots(ts, bound, n);
                    assert(c2[c2.len() - 1] == slot);
                } else {
                    let s2 = sources(ts, bound, n);
                    assert(s2[s2.len() - 1] == Src::Var(slot));
                }
            }
        }
    }
}

/// The unknowns are distinct, and so are the closed slots.
proof fn lemma_sources(ts: Seq<Tree>, bound: Seq<u32>, n: int)
    requires
        n <= ts.len() <= u32::MAX,
    ensures
        sources(ts, bound, n).no_duplicates(),
        closed_slots(ts, bound, n).no_duplicates(),
        forall|u: int| 0 <= u < sources(ts, bound, n).len() ==> match #[trigger] sources(ts, bound, n)[u] {
            Src::Var(slot) => !bound.contains(slot),
            Src::Sub(pos) => 1 <= pos < n && (ts[pos as int] matches Tree::App(us) && plain_head(us) is Some),
            Src::Opaque(pos) => 1 <= pos < n && ts[pos as int] is App,
        },
        forall|u: int|
            0 <= u < closed_slots(ts, bound, n).len() ==> bound.contains(#[trigger] closed_slots(ts, bound, n)[u]),
    decreases n,
{
    if n > 1 {
        lemma_sources(ts, bound, n - 1);
    }
}

/// Whether a term holds no variable.
pub fn is_ground(t: &Term) -> (r: bool)
    ensures
        r == ground(t@),
    decreases t,
{
    match t {
        Term::Var(v) => {
            assert(occurs(*v as int, t@));
            false
        },
        Term::App(elems) => {
            let ghost ts = views(elems@);
            let mut i: usize = 0;
            while i < elems.len()
                invariant
                    i <= elems@.len(),
                    ts == views(elems@),
                    t@ == Tree::App(ts),
                    forall|k: int| 0 <= k < i ==> ground(#[trigger] ts[k]),
                    decreases_to!(t => elems@),
                decreases elems@.len() - i,
            {
                assert(ts[i as int] == elems@[i as int]@);
                if !is_ground(&elems[i]) {
                    proof {
                        lemma_ground_app(ts);
                    }
                    return false;
                }
                i += 1;
            }
            proof {
                lemma_ground_app(ts);
            }
            true
        },
        _ => true,
    }
}

/// The key of a ground argument; `None` if a variable occurs in it.
fn pattern_ground_key(t: &Term, facts: &mut TermFactsTable, kbo: &KboOrdering) -> (r: Option<u64>)
    ensures
        r == if ground(t@) {
            Some(row_key(t@))
        } else {
            None
        },
        memo_grows(old(facts)@, final(facts)@, kbo@),
{
    match t {
        Term::Sym(s) => Some(s.id()),
        Term::Lit(l) => Some(lit_key(l)),
        Term::Op(op) => Some(op_tag(op) as u64),
        Term::App(_) => {
            proof {
                lemma_walk_grows(facts@, kbo@, t@);
            }
            match facts.ground_key_facts(t, kbo) {
                Some((k, _)) => Some(k),
                None => None,
            }
        },
        Term::Var(v) => {
            assert(occurs(*v as int, t@));
            None
        },
    }
}

/// The place of a slot among the closed ones.
fn find_closed(closed: &Vec<(u32, Row)>, slot: u32) -> (r: Option<usize>)
    ensures
        match r {
            Some(k) => k < closed@.len() && closed@[k as int].0 == slot,
            None => forall|k: int| 0 <= k < closed@.len() ==> (#[trigger] closed@[k]).0 != slot,
        },
{
    let mut k: usize = 0;
    while k < closed.len()
        invariant
            k <= closed@.len(),
            forall|q: int| 0 <= q < k ==> (#[trigger] closed@[q]).0 != slot,
        decreases closed@.len() - k,
    {
        if closed[k].0 == slot {
            return Some(k);
        }
        k += 1;
    }
    None
}

/// The place of a slot among the unknowns.
fn find_var(srcs: &Vec<Src>, slot: u32) -> (r: Option<usize>)
    ensures
        match r {
            Some(k) => k < srcs@.len() && srcs@[k as int] == Src::Var(slot),
            None => !srcs@.contains(Src::Var(slot)),
        },
{
    let mut k: usize = 0;
    while k < srcs.len()
        invariant
            k <= srcs@.len(),
            forall|q: int| 0 <= q < k ==> #[trigger] srcs@[q] != Src::Var(slot),
        decreases srcs@.len() - k,
    {
        if srcs[k] == Src::Var(slot) {
            return Some(k);
        }
        k += 1;
    }
    None
}

/// Whether the list holds the slot.
fn holds_slot(list: &IdList, slot: u32) -> (r: bool)
    ensures
        r == list@.contains(slot),
{
    let items: &[u32] = list.as_slice();
    let mut k: usize = 0;
    while k < items.len()
        invariant
            items@ == list@,
            k <= list@.len(),
            forall|q: int| 0 <= q < k ==> #[trigger] list@[q] != slot,
        decreases list@.len() - k,
    {
        if items[k] == slot {
            return true;
        }
        k += 1;
    }
    false
}

/// The closed slots found so far, with their multipliers.
spec fn closed_found(closed: Seq<(u32, Row)>, h: u64, ts: Seq<Tree>, bound: Seq<u32>, n: int) -> bool {
    let cs = closed_slots(ts, bound, n);
    &&& closed.len() == cs.len()
    &&& forall|k: int|
        0 <= k < cs.len() ==> (#[trigger] closed[k]).0 == cs[k] && closed[k].1@ == slot_total(h, ts, cs[k], n)
}

/// The multipliers of the unknowns found so far.
spec fn cols_found(cols: Seq<Row>, srcs: Seq<Src>, h: u64, ts: Seq<Tree>, n: int) -> bool {
    &&& cols.len() == srcs.len()
    &&& forall|u: int| 0 <= u < srcs.len() ==> (#[trigger] cols[u])@ == source_total(h, ts, srcs[u], n)
}

/// A seat that is no variable changes no slot's multipliers.
proof fn lemma_seat_other(closed: Seq<(u32, Row)>, cols: Seq<Row>, h: u64, ts: Seq<Tree>, bound: Seq<u32>, n: int)
    requires
        closed_found(closed, h, ts, bound, n),
        cols_found(cols, sources(ts, bound, n), h, ts, n),
        1 <= n < ts.len(),
        !(ts[n] is Var),
    ensures
        closed_found(closed, h, ts, bound, n + 1),
        cols_found(cols, sources(ts, bound, n), h, ts, n + 1),
{
    assert forall|u: int| 0 <= u < sources(ts, bound, n).len() implies (#[trigger] cols[u])@ == source_total(
        h,
        ts,
        sources(ts, bound, n)[u],
        n + 1,
    ) by {}
}

/// Looks through the seats of one level.
fn scan_seats(
    elems: &Vec<Term>,
    head: u64,
    facts: &mut TermFactsTable,
    kbo: &KboOrdering,
    bound: &IdList,
) -> (r: Scan)
    requires
        plain_head(views(elems@)) == Some(head),
        elems@.len() <= u32::MAX,
        within(Tree::App(views(elems@)), u32::MAX + 1),
    ensures
        memo_grows(old(facts)@, final(facts)@, kbo@),
        r.over == (unknowns_of(views(elems@), bound@).len() > 3),
        !r.over ==> {
            let ts = views(elems@);
            let n = ts.len() as int;
            &&& r.skel@ == row_add(tags(head, ts.len()), ground_total(head, ts, n))
            &&& closed_found(r.closed@, head, ts, bound@, n)
            &&& r.srcs@ == unknowns_of(ts, bound@)
            &&& cols_found(r.cols@, r.srcs@, head, ts, n)
            &&& r.ground_closed == has_ground(ts, n)
            &&& r.collapsed == has_repeat(ts, bound@, n)
        },
{
    let ghost ts = views(elems@);
    let ghost bs = bound@;
    let mut skel: Row = node_tags(head, elems.len());
    let mut closed: Vec<(u32, Row)> = Vec::new();
    let mut srcs: Vec<Src> = Vec::new();
    let mut cols: Vec<Row> = Vec::new();
    let mut ground_closed: bool = false;
    let mut collapsed: bool = false;
    let mut i: usize = 1;
    proof {
        assert(skel@ =~= row_add(tags(head, ts.len()), ground_total(head, ts, 1))) by {
            assert forall|j: int| 0 <= j < 4 implies skel@[j] ^ 0 == #[trigger] skel@[j] by {
                lemma_xor_group(skel@[j], 0, 0, 0);
            }
        }
    }
    while i < elems.len()
        invariant
            1 <= i <= elems@.len() <= u32::MAX,
            ts == views(elems@),
            bs == bound@,
            within(Tree::App(ts), u32::MAX + 1),
            memo_grows(old(facts)@, facts@, kbo@),
            skel@ == row_add(tags(head, ts.len()), ground_total(head, ts, i as int)),
            closed_found(closed@, head, ts, bs, i as int),
            srcs@ == sources(ts, bs, i as int),
            srcs@.len() <= 3,
            cols_found(cols@, srcs@, head, ts, i as int),
            ground_closed == has_ground(ts, i as int),
            collapsed == has_repeat(ts, bs, i as int),
        decreases elems@.len() - i,
    {
        let ghost n = i as int;
        let e: &Term = &elems[i];
        let pw: Row = seat_powers(seat_elem(head, i));
        proof {
            assert(ts[n] == e@);
            lemma_sources(ts, bs, n);
        }
        if is_ground(e) {
            let ghost before = facts@;
            let key: u64 = match pattern_ground_key(e, facts, kbo) {
                Some(k) => k,
                None => 0,
            };
            accum_powers(&mut skel, &pw, key);
            ground_closed = true;
            proof {
                lemma_memo_trans(old(facts)@, before, facts@, kbo@);
                assert(!(ts[n] is Var)) by {
                    if let Tree::Var(v) = ts[n] {
                        assert(occurs(v, ts[n]));
                    }
                }
                lemma_seat_other(closed@, cols@, head, ts, bs, n);
                lemma_row_assoc(tags(head, ts.len()), ground_total(head, ts, n), row_times(pw@, key));
                assert(has_ground(ts, n + 1)) by {
                    assert(ground(ts[n]));
                }
                lemma_no_new_repeat(ts, bs, n);
            }
        } else {
            proof {
                assert(has_ground(ts, n + 1) == has_ground(ts, n)) by {
                    if has_ground(ts, n) {
                        let q = choose|q: int| 1 <= q < n && ground(#[trigger] ts[q]);
                        assert(ground(ts[q]));
                    }
                }
            }
            match e {
                Term::Var(vslot) => {
                    proof {
                        assert(occurs(*vslot as int, ts[n]));
                        lemma_occurs_elem(*vslot as int, ts, n);
                    }
                    let slot: u32 = *vslot as u32;
                    if holds_slot(bound, slot) {
                        match find_closed(&closed, slot) {
                            Some(k) => {
                                let mut row: Row = closed[k].1;
                                accum_row(&mut row, &pw);
                                let ghost before = closed@;
                                closed.set(k, (slot, row));
                                proof {
                                    lemma_closed_again(before, closed@, head, ts, bs, n, slot, k as int, pw@);
                                }
                            },
                            None => {
                                let ghost before = closed@;
                                closed.push((slot, pw));
                                proof {
                                    lemma_closed_new(before, closed@, head, ts, bs, n, slot, pw@);
                                }
                            },
                        }
                        proof {
                            lemma_cols_same(cols@, srcs@, head, ts, bs, n, slot);
                            lemma_bound_repeat(ts, bs, n, slot);
                        }
                    } else {
                        proof {
                            lemma_closed_same(closed@, head, ts, bs, n, slot);
                        }
                        match find_var(&srcs, slot) {
                            Some(u) => {
                                let mut row: Row = cols[u];
                                accum_row(&mut row, &pw);
                                let ghost before = cols@;
                                cols.set(u, row);
                                collapsed = true;
                                proof {
                                    lemma_cols_again(before, cols@, srcs@, head, ts, bs, n, slot, u as int, pw@);
                                }
                            },
                            None => {
                                let ghost (bc, bsrc) = (cols@, srcs@);
                                srcs.push(Src::Var(slot));
                                cols.push(pw);
                                proof {
                                    lemma_cols_new(bc, cols@, bsrc, srcs@, head, ts, bs, n, slot, pw@);
                                }
                            },
                        }
                    }
                },
                Term::App(ce) => {
                    proof {
                        lemma_seat_other(closed@, cols@, head, ts, bs, n);
                        lemma_no_new_repeat(ts, bs, n);
                        assert(ts[n] == Tree::App(views(ce@)));
                    }
                    let ghost (bc, bsrc) = (cols@, srcs@);
                    if head_of(ce).is_some() {
                        srcs.push(Src::Sub(i as u32));
                    } else {
                        srcs.push(Src::Opaque(i as u32));
                    }
                    cols.push(pw);
                    proof {
                        assert(srcs@ == sources(ts, bs, n + 1));
                        assert forall|u: int| 0 <= u < srcs@.len() implies (#[trigger] cols@[u])@ == source_total(
                            head,
                            ts,
                            srcs@[u],
                            n + 1,
                        ) by {
                            if u < bc.len() {
                                assert(bc[u]@ == source_total(head, ts, bsrc[u], n + 1));
                            }
                        }
                    }
                },
                _ => {
                    assert(ground(ts[n]));
                },
            }
        }
        i += 1;
        if srcs.len() > 3 {
            proof {
                lemma_sources_grow(ts, bs, i as int, ts.len() as int);
            }
            return Scan { skel, closed, srcs, cols, ground_closed, collapsed, over: true };
        }
    }
    Scan { skel, closed, srcs, cols, ground_closed, collapsed, over: false }
}

proof fn lemma_sources_grow(ts: Seq<Tree>, bound: Seq<u32>, n: int, m: int)
    requires
        n <= m,
    ensures
        sources(ts, bound, n).len() <= sources(ts, bound, m).len(),
    decreases m - n,
{
    if n < m {
        lemma_sources_grow(ts, bound, n, m - 1);
    }
}

proof fn lemma_no_new_repeat(ts: Seq<Tree>, bound: Seq<u32>, n: int)
    requires
        1 <= n < ts.len(),
        !(ts[n] is Var),
    ensures
        has_repeat(ts, bound, n + 1) == has_repeat(ts, bound, n),
{
    if has_repeat(ts, bound, n) {
        let (i, k) = choose|i: int, k: int| 1 <= i < k < n && repeats(ts, bound, i, k);
        assert(1 <= i < k < n + 1 && repeats(ts, bound, i, k));
    }
    if has_repeat(ts, bound, n + 1) {
        let (i, k) = choose|i: int, k: int| 1 <= i < k < n + 1 && repeats(ts, bound, i, k);
        assert(k != n);
        assert(1 <= i < k < n && repeats(ts, bound, i, k));
    }
}

proof fn lemma_bound_repeat(ts: Seq<Tree>, bound: Seq<u32>, n: int, slot: u32)
    requires
        1 <= n < ts.len(),
        ts[n] == Tree::Var(slot as int),
        bound.contains(slot),
    ensures
        has_repeat(ts, bound, n + 1) == has_repeat(ts, bound, n),
{
    if has_repeat(ts, bound, n) {
        let (i, k) = choose|i: int, k: int| 1 <= i < k < n && repeats(ts, bound, i, k);
        assert(1 <= i < k < n + 1 && repeats(ts, bound, i, k));
    }
    if has_repeat(ts, bound, n + 1) {
        let (i, k) = choose|i: int, k: int| 1 <= i < k < n + 1 && repeats(ts, bound, i, k);
        assert(k != n);
        assert(1 <= i < k < n && repeats(ts, bound, i, k));
    }
}

proof fn lemma_closed_again(
    before: Seq<(u32, Row)>,
    closed: Seq<(u32, Row)>,
    h: u64,
    ts: Seq<Tree>,
    bound: Seq<u32>,
    n: int,
    slot: u32,
    k: int,
    pw: Seq<u64>,
)
    requires
        1 <= n < ts.len() <= u32::MAX,
        closed_found(before, h, ts, bound, n),
        ts[n] == Tree::Var(slot as int),
        bound.contains(slot),
        0 <= k < before.len(),
        before[k].0 == slot,
        closed == before.update(k, closed[k]),
        closed[k].0 == slot,
        closed[k].1@ == row_add(before[k].1@, pw),
        pw == powers(seat(h, n)),
    ensures
        closed_found(closed, h, ts, bound, n + 1),
{
    lemma_sources(ts, bound, n);
    let cs = closed_slots(ts, bound, n);
    assert(cs[k] == slot);
    assert(closed_slots(ts, bound, n + 1) == cs);
    assert forall|q: int| 0 <= q < cs.len() implies (#[trigger] closed[q]).0 == cs[q] && closed[q].1@ == slot_total(
        h,
        ts,
        cs[q],
        n + 1,
    ) by {
        assert(before[q].0 == cs[q]);
        if q != k {
            assert(cs[q] != slot);
        }
    }
}

proof fn lemma_closed_new(
    before: Seq<(u32, Row)>,
    closed: Seq<(u32, Row)>,
    h: u64,
    ts: Seq<Tree>,
    bound: Seq<u32>,
    n: int,
    slot: u32,
    pw: Seq<u64>,
)
    requires
        1 <= n < ts.len() <= u32::MAX,
        closed_found(before, h, ts, bound, n),
        ts[n] == Tree::Var(slot as int),
        bound.contains(slot),
        forall|k: int| 0 <= k < before.len() ==> (#[trigger] before[k]).0 != slot,
        closed.len() == before.len() + 1,
        forall|k: int| 0 <= k < before.len() ==> #[trigger] closed[k] == before[k],
        closed[before.len() as int].0 == slot,
        closed[before.len() as int].1@ == pw,
        pw == powers(seat(h, n)),
    ensures
        closed_found(closed, h, ts, bound, n + 1),
{
    let cs = closed_slots(ts, bound, n);
    assert(!cs.contains(slot)) by {
        if cs.contains(slot) {
            let k = cs.index_of(slot);
            assert(before[k].0 == slot);
        }
    }
    lemma_slot_absent(h, ts, bound, slot, n);
    let cs2 = closed_slots(ts, bound, n + 1);
    assert(cs2 == cs.push(slot));
    assert(row_add(zero_row(), pw) =~= pw) by {
        assert forall|j: int| 0 <= j < 4 implies 0 ^ pw[j] == #[trigger] pw[j] by {
            lemma_xor_group(pw[j], 0, 0, 0);
        }
    }
    assert forall|q: int| 0 <= q < cs2.len() implies (#[trigger] closed[q]).0 == cs2[q] && closed[q].1@
        == slot_total(h, ts, cs2[q], n + 1) by {
        if q < cs.len() {
            assert(before[q].0 == cs[q]);
            assert(closed[q] == before[q]);
            assert(cs.contains(cs[q]));
        }
    }
}

proof fn lemma_closed_same(closed: Seq<(u32, Row)>, h: u64, ts: Seq<Tree>, bound: Seq<u32>, n: int, slot: u32)
    requires
        1 <= n < ts.len() <= u32::MAX,
        closed_found(closed, h, ts, bound, n),
        ts[n] == Tree::Var(slot as int),
        !bound.contains(slot),
    ensures
        closed_found(closed, h, ts, bound, n + 1),
{
    lemma_sources(ts, bound, n);
    let cs = closed_slots(ts, bound, n);
    assert forall|q: int| 0 <= q < cs.len() implies (#[trigger] closed[q]).0 == cs[q] && closed[q].1@ == slot_total(
        h,
        ts,
        cs[q],
        n + 1,
    ) by {
        assert(bound.contains(cs[q]));
    }
}

proof fn lemma_cols_same(cols: Seq<Row>, srcs: Seq<Src>, h: u64, ts: Seq<Tree>, bound: Seq<u32>, n: int, slot: u32)
    requires
        1 <= n < ts.len() <= u32::MAX,
        srcs == sources(ts, bound, n),
        cols_found(cols, srcs, h, ts, n),
        ts[n] == Tree::Var(slot as int),
        bound.contains(slot),
    ensures
        srcs == sources(ts, bound, n + 1),
        cols_found(cols, srcs, h, ts, n + 1),
{
    lemma_sources(ts, bound, n);
    assert forall|u: int| 0 <= u < srcs.len() implies (#[trigger] cols[u])@ == source_total(h, ts, srcs[u], n + 1) by {
        if let Src::Var(s) = srcs[u] {
            assert(!bound.contains(s));
        }
    }
}

proof fn lemma_cols_again(
    before: Seq<Row>,
    cols: Seq<Row>,
    srcs: Seq<Src>,
    h: u64,
    ts: Seq<Tree>,
    bound: Seq<u32>,
    n: int,
    slot: u32,
    u: int,
    pw: Seq<u64>,
)
    requires
        1 <= n < ts.len() <= u32::MAX,
        within(Tree::App(ts), u32::MAX + 1),
        srcs == sources(ts, bound, n),
        cols_found(before, srcs, h, ts, n),
        ts[n] == Tree::Var(slot as int),
        !bound.contains(slot),
        0 <= u < srcs.len(),
        srcs[u] == Src::Var(slot),
        cols == before.update(u, cols[u]),
        cols[u]@ == row_add(before[u]@, pw),
        pw == powers(seat(h, n)),
    ensures
        srcs == sources(ts, bound, n + 1),
        cols_found(cols, srcs, h, ts, n + 1),
        has_repeat(ts, bound, n + 1),
{
    lemma_sources(ts, bound, n);
    assert(srcs.contains(Src::Var(slot)));
    assert forall|q: int| 0 <= q < srcs.len() implies (#[trigger] cols[q])@ == source_total(h, ts, srcs[q], n + 1) by {
        assert(before[q]@ == source_total(h, ts, srcs[q], n));
        if q != u {
            assert(srcs[q] != srcs[u]);
        }
    }
    let i = lemma_source_seat(ts, bound, n, slot);
    if let Tree::Var(v) = ts[i] {
        assert(occurs(v, ts[i]));
        lemma_occurs_elem(v, ts, i);
    }
    assert(repeats(ts, bound, i, n));
}

/// An unknown slot stands somewhere.
proof fn lemma_source_seat(ts: Seq<Tree>, bound: Seq<u32>, n: int, slot: u32) -> (i: int)
    requires
        n <= ts.len(),
        sources(ts, bound, n).contains(Src::Var(slot)),
    ensures
        1 <= i < n,
        ts[i] matches Tree::Var(v) && v as u32 == slot,
    decreases n,
{
    let s = sources(ts, bound, n - 1);
    if s.contains(Src::Var(slot)) {
        lemma_source_seat(ts, bound, n - 1, slot)
    } else {
        let s2 = sources(ts, bound, n);
        let k = s2.index_of(Src::Var(slot));
        assert(k == s.len()) by {
            if k < s.len() {
                assert(s[k] == s2[k]);
            }
        }
        n - 1
    }
}

proof fn lemma_cols_new(
    before: Seq<Row>,
    cols: Seq<Row>,
    bsrc: Seq<Src>,
    srcs: Seq<Src>,
    h: u64,
    ts: Seq<Tree>,
    bound: Seq<u32>,
    n: int,
    slot: u32,
    pw: Seq<u64>,
)
    requires
        1 <= n < ts.len() <= u32::MAX,
        within(Tree::App(ts), u32::MAX + 1),
        bsrc == sources(ts, bound, n),
        cols_found(before, bsrc, h, ts, n),
        ts[n] == Tree::Var(slot as int),
        !bound.contains(slot),
        !bsrc.contains(Src::Var(slot)),
        srcs == bsrc.push(Src::Var(slot)),
        cols.len() == before.len() + 1,
        forall|k: int| 0 <= k < before.len() ==> #[trigger] cols[k] == before[k],
        cols[before.len() as int]@ == pw,
        pw == powers(seat(h, n)),
    ensures
        srcs == sources(ts, bound, n + 1),
        cols_found(cols, srcs, h, ts, n + 1),
        has_repeat(ts, bound, n + 1) == has_repeat(ts, bound, n),
{
    lemma_slot_absent(h, ts, bound, slot, n);
    assert(row_add(zero_row(), pw) =~= pw) by {
        assert forall|j: int| 0 <= j < 4 implies 0 ^ pw[j] == #[trigger] pw[j] by {
            lemma_xor_group(pw[j], 0, 0, 0);
        }
    }
    assert forall|q: int| 0 <= q < srcs.len() implies (#[trigger] cols[q])@ == source_total(h, ts, srcs[q], n + 1) by {
        if q < bsrc.len() {
            assert(cols[q] == before[q]);
            assert(bsrc.contains(bsrc[q]));
            assert(srcs[q] == bsrc[q]);
        }
    }
    if has_repeat(ts, bound, n) {
        let (i, k) = choose|i: int, k: int| 1 <= i < k < n && repeats(ts, bound, i, k);
        assert(1 <= i < k < n + 1 && repeats(ts, bound, i, k));
    }
    if has_repeat(ts, bound, n + 1) {
        let (i, k) = choose|i: int, k: int| 1 <= i < k < n + 1 && repeats(ts, bound, i, k);
        assert(k != n) by {
            if k == n {
                assert(ts[i] == ts[n]);
            }
        }
        assert(1 <= i < k < n && repeats(ts, bound, i, k));
    }
}

/// Whether some unknown is a compound to go on with.
fn has_sub(srcs: &Vec<Src>) -> (r: bool)
    ensures
        r == exists|u: int| 0 <= u < srcs@.len() && #[trigger] srcs@[u] is Sub,
{
    let mut k: usize = 0;
    while k < srcs.len()
        invariant
            k <= srcs@.len(),
            forall|q: int| 0 <= q < k ==> !(#[trigger] srcs@[q] is Sub),
        decreases srcs@.len() - k,
    {
        if let Src::Sub(_) = srcs[k] {
            assert(srcs@[k as int] is Sub);
            return true;
        }
        k += 1;
    }
    false
}

/// A node with nothing in it.
fn blank_node(fallback: bool) -> (n: PNode)
    ensures
        n.fallback == fallback,
        n.closed@.len() == 0,
        n.unknowns@.len() == 0,
{
    PNode {
        skel: [0, 0, 0, 0],
        closed: Vec::new(),
        unknowns: Vec::new(),
        coef: [[0, 0, 0], [0, 0, 0], [0, 0, 0], [0, 0, 0]],
        pivot: [0, 0, 0],
        inv: [[0, 0, 0], [0, 0, 0], [0, 0, 0]],
        check_mask: 0x0F,
        fallback,
        has_closed: false,
    }
}

/// Matrices that agree are deficient together.
proof fn lemma_deficient_same(a: Seq<Seq<u64>>, b: Seq<Seq<u64>>, v: nat)
    requires
        a.len() == b.len(),
        forall|j: int, u: int| 0 <= j < a.len() && 0 <= u < v ==> #[trigger] a[j][u] == b[j][u],
        deficient(a, v),
    ensures
        deficient(b, v),
{
    let x = choose|x: Seq<u64>| x.len() == v && nonzero(x, v) && #[trigger] kills(a, x, v);
    assert forall|i: int| 0 <= i < b.len() implies dot(#[trigger] b[i], x, v) == 0 by {
        assert forall|c: int| 0 <= c < v implies #[trigger] b[i][c] == a[i][c] by {}
        lemma_dot_same(b[i], a[i], x, x, v);
        assert(dot(a[i], x, v) == 0);
    }
    assert(kills(b, x, v));
}

/// Plans do not depend on the nodes before them, nor on those put behind.
proof fn lemma_planned_kept(a: Seq<PNode>, b: Seq<PNode>, ni: int, ts: Seq<Tree>, bound: Seq<u32>)
    requires
        planned(a, ni, ts, bound),
        a.len() <= b.len(),
        forall|k: int| ni <= k < a.len() ==> #[trigger] a[k] == b[k],
    ensures
        planned(b, ni, ts, bound),
    decreases ts, 1nat, 0nat,
{
    if !falls_back(ts, bound) {
        lemma_subs_kept(a, b, ni, ts, bound, unknowns_of(ts, bound).len());
    }
}

proof fn lemma_subs_kept(a: Seq<PNode>, b: Seq<PNode>, ni: int, ts: Seq<Tree>, bound: Seq<u32>, n: nat)
    requires
        0 <= ni < a.len(),
        planned_subs(a, ni, ts, bound, n),
        a.len() <= b.len(),
        forall|k: int| ni <= k < a.len() ==> #[trigger] a[k] == b[k],
    ensures
        planned_subs(b, ni, ts, bound, n),
    decreases ts, 0nat, n,
{
    if n > 0 {
        lemma_subs_kept(a, b, ni, ts, bound, (n - 1) as nat);
        let us = unknowns_of(ts, bound);
        if let Src::Sub(pos) = us[n - 1] {
            if let PUnknown::Sub(ci) = a[ni].unknowns@[n - 1] {
                lemma_planned_kept(
                    a,
                    b,
                    ci as int,
                    ts[pos as int]->App_0,
                    after_subs(ts, bound, (n - 1) as nat).bound,
                );
            }
        }
    }
}

/// Compiles one level and the levels below it; gives the place of its node.
fn comp_node(
    plan: &mut PatternPlan,
    elems: &Vec<Term>,
    head: u64,
    facts: &mut TermFactsTable,
    kbo: &KboOrdering,
    bound: &mut IdList,
) -> (idx: u32)
    requires
        plain_head(views(elems@)) == Some(head),
        slim(Tree::App(views(elems@))),
        within(Tree::App(views(elems@)), u32::MAX + 1),
        old(plan).nodes@.len() + size(Tree::App(views(elems@))) <= u32::MAX,
    ensures
        idx == old(plan).nodes@.len(),
        final(plan).nodes@.len() > idx,
        final(plan).nodes@.len() <= old(plan).nodes@.len() + size(Tree::App(views(elems@))),
        forall|k: int| 0 <= k < idx ==> #[trigger] final(plan).nodes@[k] == old(plan).nodes@[k],
        planned(final(plan).nodes@, idx as int, views(elems@), old(bound)@),
        sound_within(final(plan).nodes@, idx as int, Tree::App(views(elems@))),
        ({
            let a = after(views(elems@), old(bound)@);
            &&& final(bound)@ == a.bound
            &&& final(plan).fallback_any == (old(plan).fallback_any || a.fallback_any)
            &&& final(plan).constraining == (old(plan).constraining || a.constraining)
        }),
        memo_grows(old(facts)@, final(facts)@, kbo@),
    decreases elems,
{
    let ghost ts = views(elems@);
    let ghost bs = bound@;
    let ghost n = ts.len() as int;
    let ghost nodes0 = plan.nodes@;
    let scan: Scan = scan_seats(elems, head, facts, kbo, bound);
    let idx: u32 = plan.nodes.len() as u32;
    let v: usize = scan.srcs.len();
    proof {
        lemma_sources(ts, bs, n);
    }
    let mut coef: [[u64; 3]; 4] = [[0, 0, 0], [0, 0, 0], [0, 0, 0], [0, 0, 0]];
    let mut pivot: [u8; 3] = [0, 0, 0];
    let mut inv: [[u64; 3]; 3] = [[0, 0, 0], [0, 0, 0], [0, 0, 0]];
    let mut check_mask: u8 = 0x0F;
    let mut fallback: bool = scan.over;
    if !fallback && v > 0 {
        let mut u: usize = 0;
        while u < v
            invariant
                u <= v <= 3,
                v == scan.cols@.len(),
                v == scan.srcs@.len(),
                cols_found(scan.cols@, scan.srcs@, head, ts, n),
                forall|j: int, q: int|
                    0 <= j < 4 && 0 <= q < u ==> #[trigger] coef@[j]@[q] == source_total(head, ts, scan.srcs@[q], n)[j],
            decreases v - u,
        {
            let col: Row = scan.cols[u];
            assert(scan.cols@[u as int]@ == source_total(head, ts, scan.srcs@[u as int], n));
            let ghost before = coef;
            let (mut c0, mut c1, mut c2, mut c3) = (coef[0], coef[1], coef[2], coef[3]);
            c0[u] = col[0];
            c1[u] = col[1];
            c2[u] = col[2];
            c3[u] = col[3];
            coef = [c0, c1, c2, c3];
            proof {
                assert forall|j: int, q: int| 0 <= j < 4 && 0 <= q < u + 1 implies #[trigger] coef@[j]@[q]
                    == source_total(head, ts, scan.srcs@[q], n)[j] by {
                    if q < u {
                        assert(before@[j]@[q] == source_total(head, ts, scan.srcs@[q], n)[j]);
                    }
                }
            }
            u += 1;
        }
        proof {
            let (m, r) = (matrix(ts, bs), rows_of(coef));
            assert forall|j: int, q: int| 0 <= j < 4 && 0 <= q < v implies #[trigger] m[j][q] == r[j][q] by {
                assert(coef@[j]@[q] == source_total(head, ts, scan.srcs@[q], n)[j]);
            }
            assert forall|j: int, q: int| 0 <= j < 4 && 0 <= q < v implies #[trigger] r[j][q] == m[j][q] by {}
            if deficient(m, v as nat) {
                lemma_deficient_same(m, r, v as nat);
            }
            if deficient(r, v as nat) {
                lemma_deficient_same(r, m, v as nat);
            }
        }
        match solve_plan(&coef, v) {
            Some((p, i, c)) => {
                pivot = p;
                inv = i;
                check_mask = c;
            },
            None => {
                fallback = true;
            },
        }
    }
    assert(fallback == falls_back(ts, bs));
    if fallback {
        plan.fallback_any = true;
        plan.nodes.push(blank_node(true));
        proof {
            assert(planned(plan.nodes@, idx as int, ts, bs));
            assert(size(Tree::App(ts)) >= 1);
            assert forall|slots: nat, k: int|
                within(Tree::App(ts), slots as int) && idx <= k < plan.nodes@.len() implies #[trigger] node_sound(
                plan.nodes@,
                k,
                slots,
            ) by {}
        }
        return idx;
    }
    let sub: bool = has_sub(&scan.srcs);
    if scan.ground_closed || scan.closed.len() > 0 || scan.collapsed || v == 0 || sub {
        plan.constraining = true;
    }
    assert(plan.constraining == (old(plan).constraining || constrains(ts, bs)));
    plan.nodes.push(blank_node(true));
    let mut k: usize = 0;
    while k < v
        invariant
            k <= v,
            v == scan.srcs@.len(),
            scan.srcs@ == unknowns_of(ts, bs),
            bound@ == newly_bound(scan.srcs@, bs, k as nat),
        decreases v - k,
    {
        if let Src::Var(slot) = scan.srcs[k] {
            bound.push(slot);
        }
        k += 1;
    }
    let mut unknowns: Vec<PUnknown> = Vec::new();
    let mut k: usize = 0;
    while k < v
        invariant
            k <= v <= 3,
            v == scan.srcs@.len(),
            ts == views(elems@),
            n == ts.len() as int,
            n <= u32::MAX,
            scan.srcs@ == unknowns_of(ts, bs),
            !falls_back(ts, bs),
            slim(Tree::App(ts)),
            within(Tree::App(ts), u32::MAX + 1),
            nodes0 == old(plan).nodes@,
            idx == nodes0.len(),
            nodes0.len() + size(Tree::App(ts)) <= u32::MAX,
            plan.nodes@.len() > idx,
            plan.nodes@.len() <= nodes0.len() + 1 + sub_sizes(ts, scan.srcs@, k as nat),
            forall|q: int| 0 <= q < idx ==> #[trigger] plan.nodes@[q] == nodes0[q],
            bound@ == after_subs(ts, bs, k as nat).bound,
            plan.fallback_any == (old(plan).fallback_any || after_subs(ts, bs, k as nat).fallback_any),
            plan.constraining == (old(plan).constraining || constrains(ts, bs) || after_subs(
                ts,
                bs,
                k as nat,
            ).constraining),
            memo_grows(old(facts)@, facts@, kbo@),
            unknowns@.len() == k,
            subs_planned(plan.nodes@, idx as int, unknowns@, ts, bs, k as nat),
            forall|q: int|
                0 <= q < k ==> (#[trigger] unknowns@[q] matches PUnknown::Sub(ci) ==> ci < plan.nodes@.len()),
            sound_within(plan.nodes@, idx + 1, Tree::App(ts)),
            decreases_to!(elems => elems@),
        decreases v - k,
    {
        let src: Src = scan.srcs[k];
        let ghost before = plan.nodes@;
        let ghost ubefore = unknowns@;
        proof {
            lemma_sources(ts, bs, n);
            assert(scan.srcs@[k as int] == src);
            lemma_sub_sizes(ts, bs, (k + 1) as nat);
        }
        let unk: PUnknown = match src {
            Src::Var(slot) => PUnknown::Var(slot),
            Src::Opaque(_) => PUnknown::Opaque,
            Src::Sub(pos) => {
                let e: &Term = &elems[pos as usize];
                assert(ts[pos as int] == e@);
                match e {
                    Term::App(ce) => {
                        assert(e@ == Tree::App(views(ce@)));
                        match head_of(ce) {
                            Some(chead) => {
                                let ghost fbefore = facts@;
                                proof {
                                    assert(slim(ts[pos as int]));
                                    assert forall|x: int| #[trigger] occurs(x, ts[pos as int]) implies 0 <= x
                                        < u32::MAX + 1 by {
                                        lemma_occurs_elem(x, ts, pos as int);
                                    }
                                    assert(decreases_to!(elems => ce)) by {
                                        assert(decreases_to!(elems@ => elems@[pos as int]));
                                    }
                                }
                                let ci: u32 = comp_node(plan, ce, chead, facts, kbo, bound);
                                proof {
                                    lemma_memo_trans(old(facts)@, fbefore, facts@, kbo@);
                                }
                                PUnknown::Sub(ci)
                            },
                            None => PUnknown::Opaque,
                        }
                    },
                    _ => PUnknown::Opaque,
                }
            },
        };
        unknowns.push(unk);
        proof {
            if let Src::Sub(pos) = src {
                lemma_sound_step(before, plan.nodes@, idx + 1, ts, pos as int);
            }
            lemma_subs_planned_step(before, plan.nodes@, idx as int, ubefore, unknowns@, ts, bs, (k + 1) as nat);
        }
        k += 1;
    }
    let Scan { skel, closed, srcs, cols, ground_closed, collapsed, over } = scan;
    let has_closed: bool = closed.len() > 0;
    let nd = PNode { skel, closed, unknowns, coef, pivot, inv, check_mask, fallback: false, has_closed };
    let ghost before = plan.nodes@;
    plan.nodes.set(idx as usize, nd);
    proof {
        assert(node_for(nd, ts, bs));
        lemma_planned_from_subs(before, plan.nodes@, idx as int, ts, bs);
        lemma_sound_root(before, plan.nodes@, idx as int, ts, bs);
        lemma_sub_sizes(ts, bs, unknowns_of(ts, bs).len());
    }
    idx
}

/// The nodes from `i` on can be evaluated with the slots of the pattern.
spec fn sound_within(nodes: Seq<PNode>, i: int, t: Tree) -> bool {
    forall|slots: nat, k: int|
        within(t, slots as int) && i <= k < nodes.len() ==> #[trigger] node_sound(nodes, k, slots)
}

proof fn lemma_sound_step(before: Seq<PNode>, nodes: Seq<PNode>, i: int, ts: Seq<Tree>, pos: int)
    requires
        0 <= i <= before.len() <= nodes.len(),
        0 <= pos < ts.len(),
        forall|k: int| 0 <= k < before.len() ==> #[trigger] nodes[k] == before[k],
        sound_within(before, i, Tree::App(ts)),
        sound_within(nodes, before.len() as int, ts[pos]),
    ensures
        sound_within(nodes, i, Tree::App(ts)),
{
    assert forall|slots: nat, k: int|
        within(Tree::App(ts), slots as int) && i <= k < nodes.len() implies #[trigger] node_sound(nodes, k, slots) by {
        if k < before.len() {
            assert(node_sound(before, k, slots));
            assert(nodes[k] == before[k]);
        } else {
            assert(within(ts[pos], slots as int)) by {
                assert forall|v: int| #[trigger] occurs(v, ts[pos]) implies 0 <= v < slots by {
                    lemma_occurs_elem(v, ts, pos);
                }
            }
        }
    }
}

proof fn lemma_sound_root(before: Seq<PNode>, nodes: Seq<PNode>, ni: int, ts: Seq<Tree>, bound: Seq<u32>)
    requires
        0 <= ni < before.len(),
        nodes == before.update(ni, nodes[ni]),
        ts.len() <= u32::MAX,
        within(Tree::App(ts), u32::MAX + 1),
        node_for(nodes[ni], ts, bound),
        !falls_back(ts, bound),
        nodes[ni].unknowns@.len() == unknowns_of(ts, bound).len(),
        subs_planned(before, ni, nodes[ni].unknowns@, ts, bound, unknowns_of(ts, bound).len()),
        forall|q: int|
            0 <= q < nodes[ni].unknowns@.len() ==> (#[trigger] nodes[ni].unknowns@[q] matches PUnknown::Sub(ci) ==> ci
                < nodes.len()),
        sound_within(before, ni + 1, Tree::App(ts)),
    ensures
        sound_within(nodes, ni, Tree::App(ts)),
{
    let us = unknowns_of(ts, bound);
    let n = ts.len() as int;
    lemma_sources(ts, bound, n);
    assert forall|slots: nat, k: int|
        within(Tree::App(ts), slots as int) && ni <= k < nodes.len() implies #[trigger] node_sound(nodes, k, slots) by {
        if k > ni {
            assert(node_sound(before, k, slots));
            assert(nodes[k] == before[k]);
        } else {
            let nd = nodes[ni];
            assert forall|u: int| 0 <= u < nd.unknowns@.len() implies match #[trigger] nd.unknowns@[u] {
                PUnknown::Var(slot) => slot < slots,
                PUnknown::Sub(ci) => ni < ci < nodes.len(),
                PUnknown::Opaque => true,
            } by {
                assert(sub_planned(before, ni, nd.unknowns@, ts, bound, u));
                if let Src::Var(slot) = us[u] {
                    assert(us.contains(us[u]));
                    let i = lemma_source_seat(ts, bound, n, slot);
                    lemma_seat_slot(ts, i, slot, slots);
                }
            }
            let cs = closed_slots(ts, bound, n);
            assert forall|q: int| 0 <= q < nd.closed@.len() implies (#[trigger] nd.closed@[q]).0 < slots by {
                assert(nd.closed@[q].0 == cs[q]);
                assert(cs.contains(cs[q]));
                let i = lemma_closed_seat(ts, bound, n, cs[q]);
                lemma_seat_slot(ts, i, cs[q], slots);
            }
            assert forall|i: int| 0 <= i < nd.unknowns@.len() implies #[trigger] nd.pivot@[i] < 4 by {
                let v = us.len();
                assert(solved(nd.coef, v, nd.pivot, nd.inv, nd.check_mask));
                assert(nd.pivot@[i] < nd.pivot@[v - 1] + 1);
            }
        }
    }
}

/// The slot of a seat is one of the pattern's.
proof fn lemma_seat_slot(ts: Seq<Tree>, i: int, slot: u32, slots: nat)
    requires
        0 <= i < ts.len(),
        within(Tree::App(ts), u32::MAX + 1),
        within(Tree::App(ts), slots as int),
        ts[i] matches Tree::Var(v) && v as u32 == slot,
    ensures
        slot < slots,
        ts[i] == Tree::Var(slot as int),
{
    if let Tree::Var(v) = ts[i] {
        assert(occurs(v, ts[i]));
        lemma_occurs_elem(v, ts, i);
    }
}

/// A closed slot stands somewhere.
proof fn lemma_closed_seat(ts: Seq<Tree>, bound: Seq<u32>, n: int, slot: u32) -> (i: int)
    requires
        n <= ts.len(),
        closed_slots(ts, bound, n).contains(slot),
    ensures
        1 <= i < n,
        ts[i] matches Tree::Var(v) && v as u32 == slot,
    decreases n,
{
    let s = closed_slots(ts, bound, n - 1);
    if s.contains(slot) {
        lemma_closed_seat(ts, bound, n - 1, slot)
    } else {
        let s2 = closed_slots(ts, bound, n);
        let k = s2.index_of(slot);
        assert(k == s.len()) by {
            if k < s.len() {
                assert(s[k] == s2[k]);
            }
        }
        n - 1
    }
}

/// The number of nodes of the compounds among the first `n` unknowns.
spec fn sub_sizes(ts: Seq<Tree>, us: Seq<Src>, n: nat) -> nat
    decreases n,
{
    if n == 0 {
        0
    } else {
        sub_sizes(ts, us, (n - 1) as nat) + match us[n - 1] {
            Src::Sub(pos) => size(ts[pos as int]),
            _ => 0,
        }
    }
}

proof fn lemma_sub_sizes_prefix(ts: Seq<Tree>, us: Seq<Src>, ws: Seq<Src>, n: nat)
    requires
        n <= us.len(),
        n <= ws.len(),
        forall|q: int| 0 <= q < n ==> #[trigger] us[q] == ws[q],
    ensures
        sub_sizes(ts, us, n) == sub_sizes(ts, ws, n),
    decreases n,
{
    if n > 0 {
        lemma_sub_sizes_prefix(ts, us, ws, (n - 1) as nat);
        assert(us[n - 1] == ws[n - 1]);
    }
}

/// The compounds to go on with are distinct elements.
proof fn lemma_sub_sizes_within(ts: Seq<Tree>, bound: Seq<u32>, n: int)
    requires
        0 <= n <= ts.len() <= u32::MAX,
    ensures
        sub_sizes(ts, sources(ts, bound, n), sources(ts, bound, n).len()) <= sizes(ts.take(n)),
    decreases n,
{
    if n > 1 {
        lemma_sub_sizes_within(ts, bound, n - 1);
        let (s, s2) = (sources(ts, bound, n - 1), sources(ts, bound, n));
        assert(ts.take(n).drop_last() =~= ts.take(n - 1));
        lemma_sub_sizes_prefix(ts, s, s2, s.len());
    }
}

proof fn lemma_sub_sizes_mono(ts: Seq<Tree>, us: Seq<Src>, n: nat, m: nat)
    requires
        n <= m,
    ensures
        sub_sizes(ts, us, n) <= sub_sizes(ts, us, m),
    decreases m - n,
{
    if n < m {
        lemma_sub_sizes_mono(ts, us, n, (m - 1) as nat);
    }
}

proof fn lemma_sub_sizes(ts: Seq<Tree>, bound: Seq<u32>, k: nat)
    requires
        ts.len() <= u32::MAX,
        k <= unknowns_of(ts, bound).len(),
    ensures
        sub_sizes(ts, unknowns_of(ts, bound), k) <= sizes(ts),
        size(Tree::App(ts)) == 1 + sizes(ts),
{
    let us = unknowns_of(ts, bound);
    lemma_sub_sizes_within(ts, bound, ts.len() as int);
    lemma_sub_sizes_mono(ts, us, k, us.len());
    assert(ts.take(ts.len() as int) =~= ts);
}

/// No application within `t` has more elements than a 32-bit number counts.
pub open spec fn slim(t: Tree) -> bool
    decreases t,
{
    match t {
        Tree::App(ts) => ts.len() <= u32::MAX && forall|i: int| 0 <= i < ts.len() ==> slim(#[trigger] ts[i]),
        _ => true,
    }
}

/// The unknowns listed so far are planned.
spec fn subs_planned(
    nodes: Seq<PNode>,
    ni: int,
    us: Seq<PUnknown>,
    ts: Seq<Tree>,
    bound: Seq<u32>,
    n: nat,
) -> bool {
    forall|q: int| 0 <= q < n ==> #[trigger] sub_planned(nodes, ni, us, ts, bound, q)
}

/// Unknown `q` is planned.
spec fn sub_planned(nodes: Seq<PNode>, ni: int, us: Seq<PUnknown>, ts: Seq<Tree>, bound: Seq<u32>, q: int) -> bool {
    match unknowns_of(ts, bound)[q] {
        Src::Var(slot) => us[q] == PUnknown::Var(slot),
        Src::Opaque(_) => us[q] == PUnknown::Opaque,
        Src::Sub(pos) => {
            &&& 0 <= pos < ts.len()
            &&& ts[pos as int] is App
            &&& us[q] matches PUnknown::Sub(ci)
            &&& ni < ci
            &&& planned(nodes, ci as int, ts[pos as int]->App_0, after_subs(ts, bound, q as nat).bound)
        },
    }
}

proof fn lemma_subs_planned_step(
    before: Seq<PNode>,
    nodes: Seq<PNode>,
    ni: int,
    ub: Seq<PUnknown>,
    us: Seq<PUnknown>,
    ts: Seq<Tree>,
    bound: Seq<u32>,
    n: nat,
)
    requires
        n > 0,
        us.len() == n,
        ub.len() == n - 1,
        forall|q: int| 0 <= q < n - 1 ==> #[trigger] us[q] == ub[q],
        before.len() <= nodes.len(),
        forall|k: int| 0 <= k < before.len() ==> #[trigger] nodes[k] == before[k],
        subs_planned(before, ni, ub, ts, bound, (n - 1) as nat),
        sub_planned(nodes, ni, us, ts, bound, n - 1),
    ensures
        subs_planned(nodes, ni, us, ts, bound, n),
{
    assert forall|q: int| 0 <= q < n implies #[trigger] sub_planned(nodes, ni, us, ts, bound, q) by {
        if q < n - 1 {
            assert(sub_planned(before, ni, ub, ts, bound, q));
            assert(us[q] == ub[q]);
            if let Src::Sub(pos) = unknowns_of(ts, bound)[q] {
                if let PUnknown::Sub(ci) = us[q] {
                    lemma_planned_kept(
                        before,
                        nodes,
                        ci as int,
                        ts[pos as int]->App_0,
                        after_subs(ts, bound, q as nat).bound,
                    );
                }
            }
        }
    }
}

/// A finished node over planned unknowns is a plan.
proof fn lemma_planned_from_subs(before: Seq<PNode>, nodes: Seq<PNode>, ni: int, ts: Seq<Tree>, bound: Seq<u32>)
    requires
        0 <= ni < before.len(),
        nodes == before.update(ni, nodes[ni]),
        node_for(nodes[ni], ts, bound),
        !falls_back(ts, bound),
        nodes[ni].unknowns@.len() == unknowns_of(ts, bound).len(),
        subs_planned(before, ni, nodes[ni].unknowns@, ts, bound, unknowns_of(ts, bound).len()),
    ensures
        planned(nodes, ni, ts, bound),
{
    lemma_planned_upto(before, nodes, ni, ts, bound, unknowns_of(ts, bound).len());
}

proof fn lemma_planned_upto(before: Seq<PNode>, nodes: Seq<PNode>, ni: int, ts: Seq<Tree>, bound: Seq<u32>, n: nat)
    requires
        0 <= ni < before.len(),
        nodes == before.update(ni, nodes[ni]),
        n <= unknowns_of(ts, bound).len(),
        subs_planned(before, ni, nodes[ni].unknowns@, ts, bound, unknowns_of(ts, bound).len()),
    ensures
        planned_subs(nodes, ni, ts, bound, n),
    decreases n,
{
    if n > 0 {
        lemma_planned_upto(before, nodes, ni, ts, bound, (n - 1) as nat);
        assert(sub_planned(before, ni, nodes[ni].unknowns@, ts, bound, n - 1));
        if let Src::Sub(pos) = unknowns_of(ts, bound)[n - 1] {
            if let PUnknown::Sub(ci) = nodes[ni].unknowns@[n - 1] {
                lemma_planned_kept(
                    before,
                    nodes,
                    ci as int,
                    ts[pos as int]->App_0,
                    after_subs(ts, bound, (n - 1) as nat).bound,
                );
            }
        }
        reveal_with_fuel(planned_subs, 2);
    }
}

/// The plan of a pattern: of an application with a plain head that of its
/// levels, of anything else one node with nothing to solve.
pub open spec fn plan_of(p: PlanView, t: Tree) -> bool {
    match t {
        Tree::App(ts) if plain_head(ts) is Some => {
            let a = after(ts, Seq::empty());
            &&& planned(p.nodes, 0, ts, Seq::empty())
            &&& p.fallback_any == a.fallback_any
            &&& p.constraining == a.constraining
        },
        _ => {
            &&& p.nodes.len() == 1
            &&& p.nodes[0].fallback
            &&& p.fallback_any
            &&& !p.constraining
        },
    }
}

/// Compiles the pattern `l` into `plan`, in place of what it held.
pub fn compile_into(plan: &mut PatternPlan, l: &Term, facts: &mut TermFactsTable, kbo: &KboOrdering)
    requires
        slim(l@),
        within(l@, u32::MAX + 1),
        size(l@) <= u32::MAX,
    ensures
        plan_of(final(plan)@, l@),
        forall|slots: nat| #[trigger] within(l@, slots as int) ==> plan_sound(final(plan)@.nodes, slots),
        memo_grows(old(facts)@, final(facts)@, kbo@),
{
    plan.nodes = Vec::new();
    plan.fallback_any = false;
    plan.constraining = false;
    if let Term::App(elems) = l {
        if let Some(head) = head_of(elems) {
            let mut bound: IdList = IdList::new();
            let _root: u32 = comp_node(plan, elems, head, facts, kbo, &mut bound);
            return ;
        }
    }
    plan.nodes.push(blank_node(true));
    plan.fallback_any = true;
    assert forall|slots: nat, ni: int| 0 <= ni < plan.nodes@.len() implies #[trigger] node_sound(
        plan.nodes@,
        ni,
        slots,
    ) by {}
}

// ---------------------------------------------------------------------------
// No match is dropped
// ---------------------------------------------------------------------------

/// The rows of a tree and of its arguments, at every level, are in the table.
pub open spec fn rows_known(tab: Map<u64, Row>, t: Tree) -> bool
    decreases t,
{
    &&& tab.dom().contains(row_key(t))
    &&& tab[row_key(t)]@ == row_of(t)
    &&& match t {
        Tree::App(ts) => forall|i: int| 1 <= i < ts.len() ==> rows_known(tab, #[trigger] ts[i]),
        _ => true,
    }
}

/// The bound slots hold the keys of what the substitution puts for them.
pub open spec fn keys_bound(bind: Seq<Option<u64>>, bound: Seq<u32>, f: spec_fn(int) -> Tree) -> bool {
    forall|k: int|
        0 <= k < bound.len() ==> (#[trigger] bound[k]) < bind.len() && bind[bound[k] as int] == Some(
            row_key(f(bound[k] as int)),
        )
}

/// The slots not in `bound` hold nothing.
pub open spec fn rest_unbound(bind: Seq<Option<u64>>, bound: Seq<u32>) -> bool {
    forall|s: u32| s < bind.len() && !#[trigger] bound.contains(s) ==> bind[s as int] is None
}

/// The key at an unknown, once the substitution is made.
pub open spec fn true_key(ts: Seq<Tree>, src: Src, f: spec_fn(int) -> Tree) -> u64 {
    match src {
        Src::Var(slot) => row_key(f(slot as int)),
        Src::Sub(pos) => row_key(inst(f, ts[pos as int])),
        Src::Opaque(pos) => row_key(inst(f, ts[pos as int])),
    }
}

/// The sum of the first `n` unknowns' multipliers times their keys, with the
/// seats below `m` counted.
spec fn unknown_sum(h: u64, ts: Seq<Tree>, us: Seq<Src>, f: spec_fn(int) -> Tree, m: int, n: nat) -> Seq<u64>
    decreases n,
{
    if n == 0 {
        zero_row()
    } else {
        row_add(
            unknown_sum(h, ts, us, f, m, (n - 1) as nat),
            row_times(source_total(h, ts, us[n - 1], m), true_key(ts, us[n - 1], f)),
        )
    }
}

/// The sum of the first `n` closed slots' multipliers times their keys.
spec fn slots_sum(h: u64, ts: Seq<Tree>, cs: Seq<u32>, f: spec_fn(int) -> Tree, m: int, n: nat) -> Seq<u64>
    decreases n,
{
    if n == 0 {
        zero_row()
    } else {
        row_add(
            slots_sum(h, ts, cs, f, m, (n - 1) as nat),
            row_times(slot_total(h, ts, cs[n - 1], m), row_key(f(cs[n - 1] as int))),
        )
    }
}

proof fn lemma_row_shuffle(a: Seq<u64>, b: Seq<u64>, c: Seq<u64>, x: Seq<u64>)
    ensures
        row_add(row_add(row_add(a, x), b), c) == row_add(row_add(row_add(a, b), c), x),
        row_add(row_add(a, row_add(b, x)), c) == row_add(row_add(row_add(a, b), c), x),
        row_add(row_add(a, b), row_add(c, x)) == row_add(row_add(row_add(a, b), c), x),
{
    assert forall|j: int| 0 <= j < 4 implies ((a[j] ^ x[j]) ^ b[j]) ^ c[j] == ((a[j] ^ b[j]) ^ c[j]) ^ x[j] && (a[j]
        ^ (b[j] ^ x[j])) ^ c[j] == ((a[j] ^ b[j]) ^ c[j]) ^ x[j] && (a[j] ^ b[j]) ^ (c[j] ^ x[j]) == ((a[j] ^ b[j])
        ^ c[j]) ^ x[j] by {
        let (p, q, r, y) = (a[j], b[j], c[j], x[j]);
        assert(((p ^ y) ^ q) ^ r == ((p ^ q) ^ r) ^ y && (p ^ (q ^ y)) ^ r == ((p ^ q) ^ r) ^ y && (p ^ q) ^ (r ^ y)
            == ((p ^ q) ^ r) ^ y) by (bit_vector);
    }
    assert(row_add(row_add(row_add(a, x), b), c) =~= row_add(row_add(row_add(a, b), c), x));
    assert(row_add(row_add(a, row_add(b, x)), c) =~= row_add(row_add(row_add(a, b), c), x));
    assert(row_add(row_add(a, b), row_add(c, x)) =~= row_add(row_add(row_add(a, b), c), x));
}

/// Adding to the multipliers adds to the product.
proof fn lemma_times_add(a: Seq<u64>, p: Seq<u64>, key: u64)
    ensures
        row_times(row_add(a, p), key) == row_add(row_times(a, key), row_times(p, key)),
{
    assert forall|j: int| 0 <= j < 4 implies product(#[trigger] row_add(a, p)[j], key) == product(a[j], key) ^ product(
        p[j],
        key,
    ) by {
        law_product_adds_left(a[j], p[j], key);
    }
    assert(row_times(row_add(a, p), key) =~= row_add(row_times(a, key), row_times(p, key)));
}

/// A seat whose slot is not among the first `n` leaves their sum alone.
proof fn lemma_slots_same(h: u64, ts: Seq<Tree>, cs: Seq<u32>, f: spec_fn(int) -> Tree, m: int, n: nat)
    requires
        1 <= m < ts.len(),
        n <= cs.len(),
        forall|q: int| 0 <= q < n ==> !(ts[m] matches Tree::Var(v) && v as u32 == #[trigger] cs[q]),
    ensures
        slots_sum(h, ts, cs, f, m + 1, n) == slots_sum(h, ts, cs, f, m, n),
    decreases n,
{
    if n > 0 {
        lemma_slots_same(h, ts, cs, f, m, (n - 1) as nat);
        assert(slot_total(h, ts, cs[n - 1], m + 1) == slot_total(h, ts, cs[n - 1], m));
    }
}

proof fn lemma_slots_bump(h: u64, ts: Seq<Tree>, cs: Seq<u32>, f: spec_fn(int) -> Tree, m: int, n: nat, k: int, slot: u32)
    requires
        1 <= m < ts.len(),
        ts[m] == Tree::Var(slot as int),
        cs.no_duplicates(),
        0 <= k < n <= cs.len(),
        cs[k] == slot,
    ensures
        slots_sum(h, ts, cs, f, m + 1, n) == row_add(
            slots_sum(h, ts, cs, f, m, n),
            row_times(powers(seat(h, m)), row_key(f(slot as int))),
        ),
    decreases n,
{
    let less = (n - 1) as nat;
    let x = row_times(powers(seat(h, m)), row_key(f(slot as int)));
    let last = row_times(slot_total(h, ts, cs[n - 1], m), row_key(f(cs[n - 1] as int)));
    if k == n - 1 {
        assert forall|q: int| 0 <= q < less implies !(ts[m] matches Tree::Var(v) && v as u32 == #[trigger] cs[q]) by {
            assert(cs[q] != cs[k]);
        }
        lemma_slots_same(h, ts, cs, f, m, less);
        lemma_times_add(slot_total(h, ts, slot, m), powers(seat(h, m)), row_key(f(slot as int)));
        lemma_row_assoc(slots_sum(h, ts, cs, f, m, less), last, x);
    } else {
        lemma_slots_bump(h, ts, cs, f, m, less, k, slot);
        assert(cs[n - 1] != cs[k]);
        let a = slots_sum(h, ts, cs, f, m, less);
        lemma_row_assoc(a, x, last);
        lemma_row_assoc(x, last, last);
        lemma_row_assoc(a, last, x);
    }
}

proof fn lemma_slots_prefix(h: u64, ts: Seq<Tree>, cs: Seq<u32>, ds: Seq<u32>, f: spec_fn(int) -> Tree, m: int, n: nat)
    requires
        n <= cs.len(),
        n <= ds.len(),
        forall|q: int| 0 <= q < n ==> #[trigger] cs[q] == ds[q],
    ensures
        slots_sum(h, ts, cs, f, m, n) == slots_sum(h, ts, ds, f, m, n),
    decreases n,
{
    if n > 0 {
        lemma_slots_prefix(h, ts, cs, ds, f, m, (n - 1) as nat);
        assert(cs[n - 1] == ds[n - 1]);
    }
}

proof fn lemma_unknowns_same(h: u64, ts: Seq<Tree>, us: Seq<Src>, f: spec_fn(int) -> Tree, m: int, n: nat)
    requires
        1 <= m < ts.len(),
        n <= us.len(),
        forall|q: int|
            0 <= q < n ==> !(ts[m] matches Tree::Var(v) && #[trigger] us[q] == Src::Var(v as u32)),
    ensures
        unknown_sum(h, ts, us, f, m + 1, n) == unknown_sum(h, ts, us, f, m, n),
    decreases n,
{
    if n > 0 {
        lemma_unknowns_same(h, ts, us, f, m, (n - 1) as nat);
        assert(source_total(h, ts, us[n - 1], m + 1) == source_total(h, ts, us[n - 1], m));
    }
}

proof fn lemma_unknowns_bump(
    h: u64,
    ts: Seq<Tree>,
    us: Seq<Src>,
    f: spec_fn(int) -> Tree,
    m: int,
    n: nat,
    k: int,
    slot: u32,
)
    requires
        1 <= m < ts.len(),
        ts[m] == Tree::Var(slot as int),
        us.no_duplicates(),
        0 <= k < n <= us.len(),
        us[k] == Src::Var(slot),
    ensures
        unknown_sum(h, ts, us, f, m + 1, n) == row_add(
            unknown_sum(h, ts, us, f, m, n),
            row_times(powers(seat(h, m)), row_key(f(slot as int))),
        ),
    decreases n,
{
    let less = (n - 1) as nat;
    let x = row_times(powers(seat(h, m)), row_key(f(slot as int)));
    let last = row_times(source_total(h, ts, us[n - 1], m), true_key(ts, us[n - 1], f));
    if k == n - 1 {
        assert forall|q: int| 0 <= q < less implies !(ts[m] matches Tree::Var(v) && #[trigger] us[q] == Src::Var(
            v as u32,
        )) by {
            assert(us[q] != us[k]);
        }
        lemma_unknowns_same(h, ts, us, f, m, less);
        lemma_times_add(slot_total(h, ts, slot, m), powers(seat(h, m)), row_key(f(slot as int)));
        lemma_row_assoc(unknown_sum(h, ts, us, f, m, less), last, x);
    } else {
        lemma_unknowns_bump(h, ts, us, f, m, less, k, slot);
        assert(us[n - 1] != us[k]);
        assert(source_total(h, ts, us[n - 1], m + 1) == source_total(h, ts, us[n - 1], m));
        let a = unknown_sum(h, ts, us, f, m, less);
        lemma_row_assoc(a, x, last);
        lemma_row_assoc(x, last, last);
        lemma_row_assoc(a, last, x);
    }
}

proof fn lemma_unknowns_prefix(
    h: u64,
    ts: Seq<Tree>,
    us: Seq<Src>,
    ws: Seq<Src>,
    f: spec_fn(int) -> Tree,
    m: int,
    n: nat,
)
    requires
        n <= us.len(),
        n <= ws.len(),
        forall|q: int| 0 <= q < n ==> #[trigger] us[q] == ws[q],
    ensures
        unknown_sum(h, ts, us, f, m, n) == unknown_sum(h, ts, ws, f, m, n),
    decreases n,
{
    if n > 0 {
        lemma_unknowns_prefix(h, ts, us, ws, f, m, (n - 1) as nat);
        assert(us[n - 1] == ws[n - 1]);
    }
}

/// A row made of parts: what the ground arguments, the closed slots and the
/// unknowns add.
proof fn lemma_parts_of_row(h: u64, ts: Seq<Tree>, bound: Seq<u32>, f: spec_fn(int) -> Tree, m: int)
    requires
        1 <= m <= ts.len() <= u32::MAX,
        within(Tree::App(ts), u32::MAX + 1),
    ensures
        ({
            let cs = closed_slots(ts, bound, m);
            let us = sources(ts, bound, m);
            seats_sum(h, insts(f, ts), m) == row_add(
                row_add(ground_total(h, ts, m), slots_sum(h, ts, cs, f, m, cs.len())),
                unknown_sum(h, ts, us, f, m, us.len()),
            )
        }),
    decreases m,
{
    let z = zero_row();
    assert(row_add(row_add(z, z), z) =~= z) by {
        lemma_xor_group(0, 0, 0, 0);
    }
    if m > 1 {
        let k = m - 1;
        lemma_parts_of_row(h, ts, bound, f, k);
        lemma_sources(ts, bound, k);
        let (cs, us) = (closed_slots(ts, bound, k), sources(ts, bound, k));
        let (cs2, us2) = (closed_slots(ts, bound, m), sources(ts, bound, m));
        let (g, a, b) = (
            ground_total(h, ts, k),
            slots_sum(h, ts, cs, f, k, cs.len()),
            unknown_sum(h, ts, us, f, k, us.len()),
        );
        let e = ts[k];
        let pw = powers(seat(h, k));
        let x = row_times(pw, row_key(inst(f, e)));
        assert(insts(f, ts)[k] == inst(f, e));
        assert(seats_sum(h, insts(f, ts), m) == row_add(row_add(row_add(g, a), b), x));
        lemma_row_shuffle(g, a, b, x);
        assert(row_add(z, pw) =~= pw) by {
            assert forall|j: int| 0 <= j < 4 implies 0 ^ pw[j] == #[trigger] pw[j] by {
                lemma_xor_group(pw[j], 0, 0, 0);
            }
        }
        match e {
            Tree::Var(v) => {
                assert(occurs(v, e));
                lemma_occurs_elem(v, ts, k);
                let slot = v as u32;
                assert(e == Tree::Var(slot as int));
                if bound.contains(slot) {
                    assert forall|q: int| 0 <= q < us.len() implies !(ts[k] matches Tree::Var(v) && #[trigger] us[q]
                        == Src::Var(v as u32)) by {}
                    lemma_unknowns_same(h, ts, us, f, k, us.len());
                    if cs.contains(slot) {
                        let q = cs.index_of(slot);
                        lemma_slots_bump(h, ts, cs, f, k, cs.len(), q, slot);
                    } else {
                        lemma_slot_absent(h, ts, bound, slot, k);
                        assert forall|q: int| 0 <= q < cs.len() implies !(ts[k] matches Tree::Var(v) && v as u32
                            == #[trigger] cs[q]) by {
                            assert(cs.contains(cs[q]));
                        }
                        lemma_slots_same(h, ts, cs, f, k, cs.len());
                        lemma_slots_prefix(h, ts, cs, cs2, f, m, cs.len());
                        assert(cs2 == cs.push(slot));
                        assert(slot_total(h, ts, slot, m) == pw);
                    }
                } else {
                    assert forall|q: int| 0 <= q < cs.len() implies !(ts[k] matches Tree::Var(v) && v as u32
                        == #[trigger] cs[q]) by {
                        assert(bound.contains(cs[q]));
                    }
                    lemma_slots_same(h, ts, cs, f, k, cs.len());
                    if us.contains(Src::Var(slot)) {
                        let q = us.index_of(Src::Var(slot));
                        lemma_unknowns_bump(h, ts, us, f, k, us.len(), q, slot);
                    } else {
                        lemma_slot_absent(h, ts, bound, slot, k);
                        assert forall|q: int| 0 <= q < us.len() implies !(ts[k] matches Tree::Var(v)
                            && #[trigger] us[q] == Src::Var(v as u32)) by {
                            assert(us.contains(us[q]));
                        }
                        lemma_unknowns_same(h, ts, us, f, k, us.len());
                        lemma_unknowns_prefix(h, ts, us, us2, f, m, us.len());
                        assert(us2 == us.push(Src::Var(slot)));
                        assert(slot_total(h, ts, slot, m) == pw);
                    }
                }
            },
            _ => {
                lemma_slots_same(h, ts, cs, f, k, cs.len());
                lemma_unknowns_same(h, ts, us, f, k, us.len());
                if ground(e) {
                    lemma_inst_id(f, e);
                } else {
                    assert(e is App);
                    lemma_unknowns_prefix(h, ts, us, us2, f, m, us.len());
                    assert(us2.len() == us.len() + 1);
                    assert(source_total(h, ts, us2[us.len() as int], m) == pw);
                }
            },
        }
    }
}

/// A sum of multipliers times keys is a dot product in every channel.
proof fn lemma_unknown_dot(
    nd: PNode,
    h: u64,
    ts: Seq<Tree>,
    us: Seq<Src>,
    f: spec_fn(int) -> Tree,
    tk: Seq<u64>,
    j: int,
    n: nat,
)
    requires
        0 <= j < 4,
        n <= us.len(),
        tk.len() == us.len(),
        forall|u: int| 0 <= u < us.len() ==> #[trigger] tk[u] == true_key(ts, us[u], f),
        forall|u: int|
            0 <= u < us.len() ==> #[trigger] nd.coef@[j]@[u] == source_total(h, ts, us[u], ts.len() as int)[j],
    ensures
        unknown_sum(h, ts, us, f, ts.len() as int, n)[j] == dot(nd.coef@[j]@, tk, n),
    decreases n,
{
    if n > 0 {
        lemma_unknown_dot(nd, h, ts, us, f, tk, j, (n - 1) as nat);
        assert(nd.coef@[j]@[n - 1] == source_total(h, ts, us[n - 1], ts.len() as int)[j]);
        assert(tk[n - 1] == true_key(ts, us[n - 1], f));
    }
}

/// With the bound slots holding their keys, the closed slots add what they
/// should.
proof fn lemma_closed_dot(
    nd: PNode,
    h: u64,
    ts: Seq<Tree>,
    bound: Seq<u32>,
    f: spec_fn(int) -> Tree,
    bind: Seq<Option<u64>>,
    n: nat,
)
    requires
        ts.len() <= u32::MAX,
        node_for(nd, ts, bound),
        !nd.fallback,
        plain_head(ts) == Some(h),
        keys_bound(bind, bound, f),
        n <= nd.closed@.len(),
    ensures
        closed_sum(nd, bind, n) == slots_sum(h, ts, closed_slots(ts, bound, ts.len() as int), f, ts.len() as int, n),
    decreases n,
{
    if n > 0 {
        lemma_closed_dot(nd, h, ts, bound, f, bind, (n - 1) as nat);
        lemma_sources(ts, bound, ts.len() as int);
        let cs = closed_slots(ts, bound, ts.len() as int);
        assert(nd.closed@[n - 1].0 == cs[n - 1]);
        let q = bound.index_of(cs[n - 1]);
        assert(bound[q] == cs[n - 1]);
    }
}

/// Binding the variables of a level binds them to their keys.
proof fn lemma_vars_bound(
    us: Seq<Src>,
    punk: Seq<PUnknown>,
    ts: Seq<Tree>,
    bound: Seq<u32>,
    f: spec_fn(int) -> Tree,
    ks: Seq<u64>,
    bind: Seq<Option<u64>>,
    trail: Seq<u32>,
    n: nat,
)
    requires
        n <= us.len(),
        us.len() == punk.len(),
        us.no_duplicates(),
        forall|u: int| 0 <= u < us.len() ==> match #[trigger] us[u] {
            Src::Var(slot) => punk[u] == PUnknown::Var(slot) && slot < bind.len() && !bound.contains(slot),
            _ => !(punk[u] is Var),
        },
        forall|u: int| 0 <= u < us.len() ==> #[trigger] ks[u] == true_key(ts, us[u], f),
        keys_bound(bind, bound, f),
        rest_unbound(bind, bound),
    ensures
        ({
            let o = vars_bound(punk, ks, bind, trail, n);
            let b = newly_bound(us, bound, n);
            &&& o.verdict == Ok::<(), Reject>(())
            &&& o.bind.len() == bind.len()
            &&& keys_bound(o.bind, b, f)
            &&& rest_unbound(o.bind, b)
            &&& forall|s: u32| #[trigger] b.contains(s) ==> bound.contains(s) || exists|u: int|
                0 <= u < n && #[trigger] us[u] == Src::Var(s)
        }),
    decreases n,
{
    if n > 0 {
        let m = (n - 1) as nat;
        lemma_vars_bound(us, punk, ts, bound, f, ks, bind, trail, m);
        let o = vars_bound(punk, ks, bind, trail, m);
        let b = newly_bound(us, bound, m);
        let b2 = newly_bound(us, bound, n);
        let o2 = vars_bound(punk, ks, bind, trail, n);
        assert(ks[n - 1] == true_key(ts, us[n - 1], f));
        match us[n - 1] {
            Src::Var(slot) => {
                assert(!b.contains(slot)) by {
                    if b.contains(slot) {
                        let u = choose|u: int| 0 <= u < m && #[trigger] us[u] == Src::Var(slot);
                        assert(us[u] == us[n - 1]);
                    }
                }
                assert(b2 == b.push(slot));
                assert(o.bind[slot as int] is None);
                assert(o2.bind == o.bind.update(slot as int, Some(ks[n - 1])));
                assert forall|k: int| 0 <= k < b2.len() implies (#[trigger] b2[k]) < o2.bind.len()
                    && o2.bind[b2[k] as int] == Some(row_key(f(b2[k] as int))) by {
                    if k < b.len() {
                        assert(b[k] == b2[k]);
                        assert(b.contains(b[k]));
                    }
                }
                assert forall|s: u32| s < o2.bind.len() && !#[trigger] b2.contains(s) implies o2.bind[s as int] is None by {
                    assert(b2[b2.len() - 1] == slot);
                    assert(s != slot);
                    if b.contains(s) {
                        let k = b.index_of(s);
                        assert(b2[k] == s);
                    }
                }
                assert forall|s: u32| #[trigger] b2.contains(s) implies bound.contains(s) || exists|u: int|
                    0 <= u < n && #[trigger] us[u] == Src::Var(s) by {
                    let k = b2.index_of(s);
                    if k < b.len() {
                        assert(b[k] == s);
                        assert(b.contains(s));
                        if !bound.contains(s) {
                            let u = choose|u: int| 0 <= u < m && #[trigger] us[u] == Src::Var(s);
                            assert(us[u] == Src::Var(s));
                        }
                    } else {
                        assert(us[n - 1] == Src::Var(s));
                    }
                }
            },
            _ => {
                assert(b2 == b);
                assert(o2 == o);
                assert forall|s: u32| #[trigger] b2.contains(s) implies bound.contains(s) || exists|u: int|
                    0 <= u < n && #[trigger] us[u] == Src::Var(s) by {
                    if !bound.contains(s) {
                        let u = choose|u: int| 0 <= u < m && #[trigger] us[u] == Src::Var(s);
                        assert(us[u] == Src::Var(s));
                    }
                }
            },
        }
    }
}

/// What evaluating a plan of `ts` gives on an instance of it.
pub open spec fn passes(o: Outcome, b: Seq<u32>, f: spec_fn(int) -> Tree, slots: nat) -> bool {
    &&& o.verdict == Ok::<(), Reject>(())
    &&& o.bind.len() == slots
    &&& keys_bound(o.bind, b, f)
    &&& rest_unbound(o.bind, b)
}

/// A stored instance of a pattern passes the pattern's plan, whatever slots
/// were bound before, and the slots come to hold the keys of what the
/// substitution puts for them.
proof fn lemma_instance_passes(
    nodes: Seq<PNode>,
    ni: int,
    ts: Seq<Tree>,
    bound: Seq<u32>,
    f: spec_fn(int) -> Tree,
    tab: Map<u64, Row>,
    bind: Seq<Option<u64>>,
    trail: Seq<u32>,
)
    requires
        planned(nodes, ni, ts, bound),
        plain_head(ts) is Some,
        slim(Tree::App(ts)),
        within(Tree::App(ts), u32::MAX + 1),
        within(Tree::App(ts), bind.len() as int),
        forall|i: int| 1 <= i < ts.len() ==> rows_known(tab, inst(f, #[trigger] ts[i])),
        keys_bound(bind, bound, f),
        rest_unbound(bind, bound),
    ensures
        passes(
            evaluated(nodes, ni, row_of(inst(f, Tree::App(ts))), tab, bind, trail),
            after(ts, bound).bound,
            f,
            bind.len(),
        ),
    decreases ts, 1nat, 0nat,
{
    let nd = nodes[ni];
    let row = row_of(inst(f, Tree::App(ts)));
    let o = evaluated(nodes, ni, row, tab, bind, trail);
    let h = plain_head(ts)->0;
    let n = ts.len() as int;
    let us = unknowns_of(ts, bound);
    let cs = closed_slots(ts, bound, n);
    let v = us.len();
    lemma_sources(ts, bound, n);
    if !falls_back(ts, bound) {
        let cand = insts(f, ts);
        assert(inst(f, Tree::App(ts)) == Tree::App(cand));
        assert(cand[0] == inst(f, ts[0]));
        assert(plain_head(cand) == Some(h));
        assert(closed_bound(nd, bind)) by {
            assert forall|k: int| 0 <= k < nd.closed@.len() implies bind[(#[trigger] nd.closed@[k]).0 as int] is Some by {
                assert(nd.closed@[k].0 == cs[k]);
                let q = bound.index_of(cs[k]);
                assert(bound[q] == cs[k]);
            }
        }
        let d = delta(nd, row, bind);
        let (g, a, b) = (
            ground_total(h, ts, n),
            slots_sum(h, ts, cs, f, n, cs.len()),
            unknown_sum(h, ts, us, f, n, v),
        );
        lemma_parts_of_row(h, ts, bound, f, n);
        lemma_closed_dot(nd, h, ts, bound, f, bind, nd.closed@.len());
        let t = tags(h, ts.len());
        assert(d == row_add(row_add(row_add(t, row_add(row_add(g, a), b)), row_add(t, g)), a));
        lemma_cancel(t, g, a, b);
        assert(d =~= b);
        if v == 0 {
            assert(after_subs(ts, bound, 0).bound == bound);
        } else {
            let tk = Seq::new(v, |u: int| true_key(ts, us[u], f));
            assert forall|j: int| 0 <= j < 4 implies #[trigger] d[j] == dot(nd.coef@[j]@, tk, v) by {
                lemma_unknown_dot(nd, h, ts, us, f, tk, j, v);
            }
            let ks = solved_keys(nd, d);
            let m = chosen(nd.coef, nd.pivot, v);
            let ds = pivot_deltas(nd, d);
            assert(solved(nd.coef, v, nd.pivot, nd.inv, nd.check_mask));
            assert forall|i: int| 0 <= i < v implies #[trigger] ds[i] == dot(m[i], tk, v) by {
                assert(nd.pivot@[i] < nd.pivot@[v - 1] + 1);
                assert(d[nd.pivot@[i] as int] == dot(nd.coef@[nd.pivot@[i] as int]@, tk, v));
            }
            assert forall|u: int| 0 <= u < v implies #[trigger] ks[u] == tk[u] by {
                law_inverse_recovers(nd.inv, m, ds, tk, u, v);
            }
            assert(ks =~= tk);
            assert(checks_hold(nd, d, ks));
            assert forall|u: int| 0 <= u < v implies #[trigger] rows_known(tab, at_unknown(ts, us[u], f)) && ks[u]
                == row_key(at_unknown(ts, us[u], f)) by {
                match us[u] {
                    Src::Var(slot) => {
                        assert(us.contains(us[u]));
                        let i = lemma_source_seat(ts, bound, n, slot);
                        lemma_seat_slot(ts, i, slot, bind.len());
                        assert(inst(f, ts[i]) == f(slot as int));
                    },
                    Src::Sub(pos) => {
                        assert(rows_known(tab, inst(f, ts[pos as int])));
                    },
                    Src::Opaque(pos) => {
                        assert(rows_known(tab, inst(f, ts[pos as int])));
                    },
                }
            }
            assert(keys_known(tab, ks)) by {
                assert forall|u: int| 0 <= u < ks.len() implies tab.dom().contains(#[trigger] ks[u]) by {
                    assert(rows_known(tab, at_unknown(ts, us[u], f)));
                }
            }
            assert forall|u: int| 0 <= u < us.len() implies match #[trigger] us[u] {
                Src::Var(slot) => nd.unknowns@[u] == PUnknown::Var(slot) && slot < bind.len() && !bound.contains(slot),
                _ => !(nd.unknowns@[u] is Var),
            } by {
                lemma_unknown_planned(nodes, ni, ts, bound, v, u);
                if let Src::Var(slot) = us[u] {
                    assert(us.contains(us[u]));
                    let i = lemma_source_seat(ts, bound, n, slot);
                    lemma_seat_slot(ts, i, slot, bind.len());
                }
            }
            assert forall|u: int| 0 <= u < us.len() implies #[trigger] ks[u] == true_key(ts, us[u], f) by {}
            lemma_vars_bound(us, nd.unknowns@, ts, bound, f, ks, bind, trail, v);
            let o1 = vars_bound(nd.unknowns@, ks, bind, trail, v);
            lemma_subs_pass(nodes, ni, ts, bound, f, tab, ks, o1.bind, o1.trail, v);
        }
    }
}

/// The tree that an unknown stands for.
spec fn at_unknown(ts: Seq<Tree>, src: Src, f: spec_fn(int) -> Tree) -> Tree {
    match src {
        Src::Var(slot) => f(slot as int),
        Src::Sub(pos) => inst(f, ts[pos as int]),
        Src::Opaque(pos) => inst(f, ts[pos as int]),
    }
}

/// Every unknown of a plan is planned.
proof fn lemma_unknown_planned(nodes: Seq<PNode>, ni: int, ts: Seq<Tree>, bound: Seq<u32>, n: nat, u: int)
    requires
        planned_subs(nodes, ni, ts, bound, n),
        0 <= u < n,
    ensures
        sub_planned(nodes, ni, nodes[ni].unknowns@, ts, bound, u),
    decreases n,
{
    reveal_with_fuel(planned_subs, 2);
    if u < n - 1 {
        lemma_unknown_planned(nodes, ni, ts, bound, (n - 1) as nat, u);
    }
}

proof fn lemma_cancel(t: Seq<u64>, g: Seq<u64>, a: Seq<u64>, b: Seq<u64>)
    ensures
        forall|j: int|
            0 <= j < 4 ==> #[trigger] row_add(row_add(row_add(t, row_add(row_add(g, a), b)), row_add(t, g)), a)[j]
                == b[j],
{
    assert forall|j: int| 0 <= j < 4 implies #[trigger] row_add(
        row_add(row_add(t, row_add(row_add(g, a), b)), row_add(t, g)),
        a,
    )[j] == b[j] by {
        let (p, q, r, s) = (t[j], g[j], a[j], b[j]);
        assert(((p ^ ((q ^ r) ^ s)) ^ (p ^ q)) ^ r == s) by (bit_vector);
    }
}

/// The compounds among the first `n` unknowns pass.
proof fn lemma_subs_pass(
    nodes: Seq<PNode>,
    ni: int,
    ts: Seq<Tree>,
    bound: Seq<u32>,
    f: spec_fn(int) -> Tree,
    tab: Map<u64, Row>,
    ks: Seq<u64>,
    bind: Seq<Option<u64>>,
    trail: Seq<u32>,
    n: nat,
)
    requires
        0 <= ni < nodes.len(),
        planned_subs(nodes, ni, ts, bound, unknowns_of(ts, bound).len()),
        n <= unknowns_of(ts, bound).len(),
        slim(Tree::App(ts)),
        within(Tree::App(ts), u32::MAX + 1),
        within(Tree::App(ts), bind.len() as int),
        forall|i: int| 1 <= i < ts.len() ==> rows_known(tab, inst(f, #[trigger] ts[i])),
        forall|u: int|
            0 <= u < unknowns_of(ts, bound).len() ==> #[trigger] ks[u] == true_key(ts, unknowns_of(ts, bound)[u], f),
        keys_bound(bind, after_subs(ts, bound, 0).bound, f),
        rest_unbound(bind, after_subs(ts, bound, 0).bound),
    ensures
        passes(
            descended(nodes, ni, ks, tab, bind, trail, n),
            after_subs(ts, bound, n).bound,
            f,
            bind.len(),
        ),
    decreases ts, 0nat, n,
{
    let us = unknowns_of(ts, bound);
    if n > 0 {
        let m = (n - 1) as nat;
        lemma_subs_pass(nodes, ni, ts, bound, f, tab, ks, bind, trail, m);
        let o = descended(nodes, ni, ks, tab, bind, trail, m);
        lemma_sources(ts, bound, ts.len() as int);
        lemma_unknown_planned(nodes, ni, ts, bound, us.len(), n - 1);
        assert(us[n - 1] == sources(ts, bound, ts.len() as int)[n - 1]);
        match us[n - 1] {
            Src::Sub(pos) => {
                if let PUnknown::Sub(ci) = nodes[ni].unknowns@[n - 1] {
                    let p = pos as int;
                    let ws = ts[p]->App_0;
                    assert(ts[p] == Tree::App(ws));
                    let b = after_subs(ts, bound, m).bound;
                    let cand = inst(f, ts[p]);
                    assert(rows_known(tab, cand));
                    assert(cand == Tree::App(insts(f, ws)));
                    assert(ks[n - 1] == row_key(cand));
                    assert(tab[ks[n - 1]]@ == row_of(cand));
                    assert forall|i: int| 1 <= i < ws.len() implies rows_known(tab, inst(f, #[trigger] ws[i])) by {
                        assert(insts(f, ws)[i] == inst(f, ws[i]));
                    }
                    assert(slim(ts[p]));
                    assert forall|x: int| #[trigger] occurs(x, ts[p]) implies 0 <= x < u32::MAX + 1 && x < bind.len() by {
                        lemma_occurs_elem(x, ts, p);
                    }
                    assert(planned(nodes, ci as int, ws, b));
                    assert(decreases_to!(ts => ws)) by {
                        assert(decreases_to!(ts => ts[p]));
                        assert(decreases_to!(ts[p] => ws));
                    }
                    lemma_instance_passes(nodes, ci as int, ws, b, f, tab, o.bind, o.trail);
                    assert(descended(nodes, ni, ks, tab, bind, trail, n) == evaluated(
                        nodes,
                        ci as int,
                        tab[ks[n - 1]]@,
                        tab,
                        o.bind,
                        o.trail,
                    ));
                    assert(after_subs(ts, bound, n).bound == after(ws, b).bound);
                }
            },
            _ => {
                assert(descended(nodes, ni, ks, tab, bind, trail, n) == o);
                assert(after_subs(ts, bound, n).bound == after_subs(ts, bound, m).bound);
            },
        }
    }
}

/// The slots that the plan of a pattern binds.
pub open spec fn plan_binds(t: Tree) -> Seq<u32> {
    match t {
        Tree::App(ts) if plain_head(ts) is Some => after(ts, Seq::empty()).bound,
        _ => Seq::empty(),
    }
}

/// A rejection is sound: a stored instance of the pattern passes its plan, and
/// every slot that the plan binds holds the key of what matches there.
pub proof fn law_instances_pass(
    p: PlanView,
    t: Tree,
    f: spec_fn(int) -> Tree,
    tab: Map<u64, Row>,
    slots: nat,
    trail: Seq<u32>,
)
    requires
        plan_of(p, t),
        slim(t),
        within(t, u32::MAX + 1),
        within(t, slots as int),
        rows_known(tab, inst(f, t)),
    ensures
        ({
            let none = Seq::new(slots, |i: int| None::<u64>);
            let o = evaluated(p.nodes, 0, row_of(inst(f, t)), tab, none, trail);
            passes(o, plan_binds(t), f, slots)
        }),
{
    let none = Seq::new(slots, |i: int| None::<u64>);
    match t {
        Tree::App(ts) if plain_head(ts) is Some => {
            assert forall|i: int| 1 <= i < ts.len() implies rows_known(tab, inst(f, #[trigger] ts[i])) by {
                assert(inst(f, Tree::App(ts)) == Tree::App(insts(f, ts)));
                assert(insts(f, ts)[i] == inst(f, ts[i]));
            }
            lemma_instance_passes(p.nodes, 0, ts, Seq::empty(), f, tab, none, trail);
        },
        _ => {},
    }
}

/// The second tree is the first or stands as an argument within it, however deep.
pub open spec fn within_args(t: Tree, u: Tree) -> bool
    decreases t,
{
    t == u || (t matches Tree::App(ts) && exists|i: int| 1 <= i < ts.len() && within_args(#[trigger] ts[i], u))
}

/// A table takes in the row of a tree and of every argument within it, keeps the keys that
/// it had, and takes in nothing else.
pub proof fn law_every_argument_has_its_row(m: Map<u64, Row>, t: Tree, row: spec_fn(Tree) -> Row, u: Tree, k: u64)
    ensures
        within_args(t, u) ==> with_rows(m, t, row).dom().contains(row_key(u)),
        m.dom().contains(k) ==> with_rows(m, t, row).dom().contains(k),
        with_rows(m, t, row).dom().contains(k) ==> (m.dom().contains(k) && with_rows(m, t, row)[k] == m[k]) || exists|v: Tree|
         #[trigger]
            within_args(t, v) && row_key(v) == k && with_rows(m, t, row)[k] == row(v),
    decreases t,
{
    assert(within_args(t, t));
    if let Tree::App(ts) = t {
        lemma_every_argument_has_its_row(m, ts, row, u, k);
        let r = with_rows(m, t, row);
        let a = with_arg_rows(m, ts, row);
        if r.dom().contains(k) && k != row_key(t) && !(m.dom().contains(k) && a[k] == m[k]) {
            let (v, i) = choose|v: Tree, i: int|
                1 <= i < ts.len() && #[trigger] within_args(ts[i], v) && row_key(v) == k && a[k] == row(v);
            assert(within_args(t, v));
        }
    }
}

proof fn lemma_every_argument_has_its_row(m: Map<u64, Row>, ts: Seq<Tree>, row: spec_fn(Tree) -> Row, u: Tree, k: u64)
    ensures
        (exists|i: int| 1 <= i < ts.len() && within_args(#[trigger] ts[i], u)) ==> with_arg_rows(
            m,
            ts,
            row,
        ).dom().contains(row_key(u)),
        m.dom().contains(k) ==> with_arg_rows(m, ts, row).dom().contains(k),
        with_arg_rows(m, ts, row).dom().contains(k) ==> (m.dom().contains(k) && with_arg_rows(m, ts, row)[k] == m[k])
            || exists|v: Tree, i: int|
            1 <= i < ts.len() && #[trigger] within_args(ts[i], v) && row_key(v) == k && with_arg_rows(m, ts, row)[k] == row(
                v,
            ),
    decreases ts,
{
    if ts.len() > 1 {
        let front = ts.drop_last();
        let z = ts.last();
        let a = with_arg_rows(m, front, row);
        let b = with_arg_rows(m, ts, row);
        lemma_every_argument_has_its_row(m, front, row, u, k);
        law_every_argument_has_its_row(a, z, row, u, k);
        law_every_argument_has_its_row(a, z, row, u, row_key(u));
        if exists|i: int| 1 <= i < ts.len() && within_args(#[trigger] ts[i], u) {
            let i = choose|i: int| 1 <= i < ts.len() && within_args(#[trigger] ts[i], u);
            if i < front.len() {
                assert(within_args(front[i], u));
            }
        }
        if b.dom().contains(k) {
            if a.dom().contains(k) && b[k] == a[k] {
                if !(m.dom().contains(k) && a[k] == m[k]) {
                    let (v, i) = choose|v: Tree, i: int|
                        1 <= i < front.len() && #[trigger] within_args(front[i], v) && row_key(v) == k && a[k] == row(v);
                    assert(within_args(ts[i], v));
                }
            } else {
                let v = choose|v: Tree| #[trigger] within_args(z, v) && row_key(v) == k && b[k] == row(v);
                assert(within_args(ts[ts.len() - 1], v));
            }
        }
    }
}

} // verus!
