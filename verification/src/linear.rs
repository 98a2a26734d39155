//! Small linear systems over the field of 2^64 elements: four equations in at
//! most three unknowns.
use vstd::prelude::*;

use crate::gf64::{
    self, law_inverse, law_no_zero_divisors, law_product_adds_left, law_product_adds_right, law_product_associates,
    law_product_commutes, law_product_one, product,
};

verus! {

/// The sum of the products of the first `n` entries.
pub open spec fn dot(a: Seq<u64>, x: Seq<u64>, n: nat) -> u64
    decreases n,
{
    if n == 0 {
        0
    } else {
        dot(a, x, (n - 1) as nat) ^ product(a[n - 1], x[n - 1])
    }
}

pub proof fn lemma_xor_group(a: u64, b: u64, c: u64, d: u64)
    ensures
        a ^ b == b ^ a,
        (a ^ b) ^ c == a ^ (b ^ c),
        a ^ 0 == a,
        0 ^ a == a,
        a ^ a == 0,
        (a ^ b) ^ b == a,
        (a ^ b) ^ (c ^ d) == (a ^ c) ^ (b ^ d),
        a ^ b == 0 ==> a == b,
{
    assert(a ^ b == b ^ a) by (bit_vector);
    assert((a ^ b) ^ c == a ^ (b ^ c)) by (bit_vector);
    assert(a ^ 0 == a && 0 ^ a == a && a ^ a == 0 && (a ^ b) ^ b == a) by (bit_vector);
    assert((a ^ b) ^ (c ^ d) == (a ^ c) ^ (b ^ d)) by (bit_vector);
    assert(a ^ b == 0 ==> a == b) by (bit_vector);
}

pub proof fn lemma_product_zero(a: u64)
    ensures
        product(a, 0) == 0,
        product(0, a) == 0,
{
    law_product_commutes(a, 0);
}

/// A row with a multiple of another added has the dot product with that
/// multiple added.
pub proof fn lemma_dot_add(r2: Seq<u64>, r: Seq<u64>, f: u64, b: Seq<u64>, x: Seq<u64>, n: nat)
    requires
        forall|c: int| 0 <= c < n ==> #[trigger] r2[c] == r[c] ^ product(f, b[c]),
    ensures
        dot(r2, x, n) == dot(r, x, n) ^ product(f, dot(b, x, n)),
    decreases n,
{
    if n == 0 {
        lemma_product_zero(f);
        lemma_xor_group(0, 0, 0, 0);
    } else {
        let m = (n - 1) as nat;
        lemma_dot_add(r2, r, f, b, x, m);
        assert(r2[m as int] == r[m as int] ^ product(f, b[m as int]));
        let (rm, bm, xm) = (r[m as int], b[m as int], x[m as int]);
        law_product_adds_left(rm, product(f, bm), xm);
        law_product_associates(f, bm, xm);
        law_product_adds_right(f, dot(b, x, m), product(bm, xm));
        lemma_xor_group(
            dot(r, x, m),
            product(f, dot(b, x, m)),
            product(rm, xm),
            product(f, product(bm, xm)),
        );
    }
}

/// A scaled row has the scaled dot product.
pub proof fn lemma_dot_scale(r2: Seq<u64>, r: Seq<u64>, f: u64, x: Seq<u64>, n: nat)
    requires
        forall|c: int| 0 <= c < n ==> #[trigger] r2[c] == product(r[c], f),
    ensures
        dot(r2, x, n) == product(f, dot(r, x, n)),
    decreases n,
{
    if n == 0 {
        lemma_product_zero(f);
    } else {
        let m = (n - 1) as nat;
        lemma_dot_scale(r2, r, f, x, m);
        assert(r2[m as int] == product(r[m as int], f));
        let (rm, xm) = (r[m as int], x[m as int]);
        law_product_commutes(rm, f);
        law_product_associates(f, rm, xm);
        law_product_adds_right(f, dot(r, x, m), product(rm, xm));
    }
}

/// Rows that agree have the same dot product.
pub proof fn lemma_dot_same(a: Seq<u64>, b: Seq<u64>, x: Seq<u64>, y: Seq<u64>, n: nat)
    requires
        forall|c: int| 0 <= c < n ==> #[trigger] a[c] == b[c],
        forall|c: int| 0 <= c < n ==> #[trigger] x[c] == y[c],
    ensures
        dot(a, x, n) == dot(b, y, n),
    decreases n,
{
    if n > 0 {
        lemma_dot_same(a, b, x, y, (n - 1) as nat);
    }
}

/// The dot product with a unit vector picks an entry.
pub proof fn lemma_dot_unit(a: Seq<u64>, x: Seq<u64>, u: int, n: nat)
    requires
        forall|c: int| 0 <= c < n ==> #[trigger] a[c] == if c == u {
            1u64
        } else {
            0u64
        },
    ensures
        dot(a, x, n) == if 0 <= u < n {
            x[u]
        } else {
            0u64
        },
    decreases n,
{
    if n > 0 {
        lemma_dot_unit(a, x, u, (n - 1) as nat);
        let m = n - 1;
        assert(a[m] == if m == u { 1u64 } else { 0u64 });
        law_product_one(x[m]);
        lemma_product_zero(x[m]);
        lemma_xor_group(x[u], x[m], 0, 0);
        lemma_xor_group(0, 0, 0, 0);
        law_product_commutes(1, x[m]);
    }
}

/// The rows of a matrix combined with weights `a`, at column `c`.
pub open spec fn combined(a: Seq<u64>, m: Seq<Seq<u64>>, c: int, n: nat) -> u64
    decreases n,
{
    if n == 0 {
        0
    } else {
        combined(a, m, c, (n - 1) as nat) ^ product(a[n - 1], m[n - 1][c])
    }
}

/// The dot products of the rows combined are the dot product of the rows
/// combined.
pub proof fn lemma_combined_dot(a: Seq<u64>, m: Seq<Seq<u64>>, ds: Seq<u64>, row: Seq<u64>, x: Seq<u64>, n: nat, v: nat)
    requires
        forall|i: int| 0 <= i < n ==> #[trigger] ds[i] == dot(m[i], x, v),
        forall|c: int| 0 <= c < v ==> #[trigger] row[c] == combined(a, m, c, n),
    ensures
        dot(a, ds, n) == dot(row, x, v),
    decreases n,
{
    if n == 0 {
        lemma_dot_nothing(row, x, v);
    } else {
        let k = (n - 1) as nat;
        let less = Seq::new(v, |c: int| combined(a, m, c, k));
        lemma_combined_dot(a, m, ds, less, x, k, v);
        lemma_dot_add(row, less, a[k as int], m[k as int], x, v);
        assert(ds[k as int] == dot(m[k as int], x, v));
    }
}

pub proof fn lemma_dot_nothing(a: Seq<u64>, x: Seq<u64>, n: nat)
    requires
        forall|c: int| 0 <= c < n ==> #[trigger] a[c] == 0,
    ensures
        dot(a, x, n) == 0,
    decreases n,
{
    if n > 0 {
        lemma_dot_nothing(a, x, (n - 1) as nat);
        lemma_product_zero(x[n - 1]);
        lemma_xor_group(0, 0, 0, 0);
        assert(a[n - 1] == 0);
    }
}

// ---------------------------------------------------------------------------
// Systems
// ---------------------------------------------------------------------------

/// Every row of the matrix has dot product zero with `x`.
pub open spec fn kills(m: Seq<Seq<u64>>, x: Seq<u64>, v: nat) -> bool {
    forall|i: int| 0 <= i < m.len() ==> dot(#[trigger] m[i], x, v) == 0
}

/// Some entry of `x` is not zero.
pub open spec fn nonzero(x: Seq<u64>, v: nat) -> bool {
    exists|c: int| 0 <= c < v && #[trigger] x[c] != 0
}

/// The columns depend on one another: some vector other than zero is killed.
pub open spec fn deficient(m: Seq<Seq<u64>>, v: nat) -> bool {
    exists|x: Seq<u64>| x.len() == v && nonzero(x, v) && #[trigger] kills(m, x, v)
}

/// The rows of the coefficient matrix.
pub open spec fn rows_of(coef: [[u64; 3]; 4]) -> Seq<Seq<u64>> {
    Seq::new(4, |j: int| coef@[j]@)
}

/// The rows of a square matrix.
pub open spec fn square_rows(m: [[u64; 3]; 3], n: nat) -> Seq<Seq<u64>> {
    Seq::new(n, |j: int| m@[j]@)
}

/// The chosen rows of the coefficient matrix.
pub open spec fn chosen(coef: [[u64; 3]; 4], pivot: [u8; 3], n: nat) -> Seq<Seq<u64>> {
    Seq::new(n, |i: int| coef@[pivot@[i] as int]@)
}

/// Row `j` of the coefficients adds nothing to the chosen rows before it.
pub open spec fn redundant(coef: [[u64; 3]; 4], pivot: [u8; 3], n: nat, j: int, v: nat) -> bool {
    forall|x: Seq<u64>|
        (forall|i: int| 0 <= i < n && pivot@[i] < j ==> dot(coef@[#[trigger] pivot@[i] as int]@, x, v) == 0)
            ==> #[trigger] dot(coef@[j]@, x, v) == 0
}

/// The first `n` chosen channels rise, and a channel below the last that was
/// not chosen is redundant.
pub open spec fn greedy(coef: [[u64; 3]; 4], pivot: [u8; 3], n: nat, upto: int, v: nat) -> bool {
    &&& forall|i: int| 0 <= i < n ==> #[trigger] pivot@[i] < upto
    &&& forall|i: int, k: int| 0 <= i < k < n ==> #[trigger] pivot@[i] < #[trigger] pivot@[k]
    &&& forall|j: int|
        0 <= j < upto && (forall|i: int| 0 <= i < n ==> #[trigger] pivot@[i] != j) ==> #[trigger] redundant(
            coef,
            pivot,
            n,
            j,
            v,
        )
}

/// The cells outside the first `v` rows and columns are zero.
pub open spec fn blank_outside(m: [[u64; 3]; 3], v: nat) -> bool {
    forall|r: int, c: int| 0 <= r < 3 && 0 <= c < 3 && (r >= v || c >= v) ==> #[trigger] m@[r]@[c] == 0
}

/// `inv` is a left inverse of the chosen rows.
pub open spec fn inverts(inv: [[u64; 3]; 3], m: Seq<Seq<u64>>, v: nat) -> bool {
    forall|u: int, c: int|
        0 <= u < v && 0 <= c < v ==> #[trigger] combined(inv@[u]@, m, c, v) == if u == c {
            1u64
        } else {
            0u64
        }
}

/// The chosen channels are the first ones.
pub open spec fn first_channels(pivot: [u8; 3], v: nat) -> bool {
    forall|i: int| 0 <= i < v ==> #[trigger] pivot@[i] == i
}

/// The mask has the bits of the channels that were not chosen.
pub open spec fn surplus_bit(pivot: [u8; 3], v: nat, j: int) -> bool {
    forall|i: int| 0 <= i < v ==> #[trigger] pivot@[i] != j
}

/// A solved left inverse recovers the unknowns from the chosen equations.
pub proof fn law_inverse_recovers(inv: [[u64; 3]; 3], m: Seq<Seq<u64>>, ds: Seq<u64>, x: Seq<u64>, u: int, v: nat)
    requires
        m.len() == v,
        v <= 3,
        inverts(inv, m, v),
        forall|i: int| 0 <= i < v ==> #[trigger] ds[i] == dot(m[i], x, v),
        0 <= u < v,
    ensures
        dot(inv@[u]@, ds, v) == x[u],
{
    let row = Seq::new(v, |c: int| combined(inv@[u]@, m, c, v));
    lemma_combined_dot(inv@[u]@, m, ds, row, x, v, v);
    assert forall|c: int| 0 <= c < v implies #[trigger] row[c] == if c == u {
        1u64
    } else {
        0u64
    } by {
        assert(row[c] == combined(inv@[u]@, m, c, v));
    }
    lemma_dot_unit(row, x, u, v);
}

/// The row with each of its first `v` entries multiplied by `f`.
fn scale(r: [u64; 3], f: u64, v: usize) -> (out: [u64; 3])
    requires
        v <= 3,
    ensures
        forall|c: int| 0 <= c < v ==> #[trigger] out@[c] == product(r@[c], f),
        forall|c: int| v <= c < 3 ==> #[trigger] out@[c] == r@[c],
{
    let mut out: [u64; 3] = r;
    let mut c: usize = 0;
    while c < v
        invariant
            c <= v <= 3,
            forall|k: int| 0 <= k < c ==> #[trigger] out@[k] == product(r@[k], f),
            forall|k: int| c <= k < 3 ==> #[trigger] out@[k] == r@[k],
        decreases v - c,
    {
        out[c] = gf64::mul(r[c], f);
        c += 1;
    }
    out
}

/// The row with `f` times another added to its first `v` entries.
fn add_multiple(r: [u64; 3], f: u64, b: [u64; 3], v: usize) -> (out: [u64; 3])
    requires
        v <= 3,
    ensures
        forall|c: int| 0 <= c < v ==> #[trigger] out@[c] == r@[c] ^ product(f, b@[c]),
        forall|c: int| v <= c < 3 ==> #[trigger] out@[c] == r@[c],
{
    let mut out: [u64; 3] = r;
    let mut c: usize = 0;
    while c < v
        invariant
            c <= v <= 3,
            forall|k: int| 0 <= k < c ==> #[trigger] out@[k] == r@[k] ^ product(f, b@[k]),
            forall|k: int| c <= k < 3 ==> #[trigger] out@[k] == r@[k],
        decreases v - c,
    {
        out[c] = r[c] ^ gf64::mul(f, b[c]);
        c += 1;
    }
    out
}

/// The first of the first `v` entries that is not zero.
fn leading(r: &[u64; 3], v: usize) -> (c: Option<usize>)
    requires
        v <= 3,
    ensures
        match c {
            Some(c) => c < v && r@[c as int] != 0,
            None => forall|k: int| 0 <= k < v ==> #[trigger] r@[k] == 0,
        },
{
    let mut c: usize = 0;
    while c < v
        invariant
            c <= v <= 3,
            forall|k: int| 0 <= k < c ==> #[trigger] r@[k] == 0,
        decreases v - c,
    {
        if r[c] != 0 {
            return Some(c);
        }
        c += 1;
    }
    None
}

/// The columns of the first `n` kept rows.
spec fn cols_of(pc: [usize; 3], n: nat) -> Seq<int> {
    Seq::new(n, |i: int| pc@[i] as int)
}

/// The kept rows in reduced form: row `i` has a one in its own column and
/// zeros in the columns of the rows before it.
spec fn triangular(basis: Seq<Seq<u64>>, pc: Seq<int>, v: nat) -> bool {
    &&& basis.len() == pc.len()
    &&& forall|i: int| 0 <= i < pc.len() ==> 0 <= #[trigger] pc[i] < v && basis[i][pc[i]] == 1
    &&& forall|i: int, k: int| 0 <= k < i < pc.len() ==> #[trigger] clear(basis, pc, i, k)
}

/// Row `i` is zero in the column of row `k`, which is not its own.
spec fn clear(basis: Seq<Seq<u64>>, pc: Seq<int>, i: int, k: int) -> bool {
    basis[i][pc[k]] == 0 && pc[k] != pc[i]
}

proof fn lemma_triangular_push(basis: Seq<Seq<u64>>, pc: Seq<int>, s: Seq<u64>, c: int, v: nat)
    requires
        triangular(basis, pc, v),
        0 <= c < v,
        s[c] == 1,
        forall|k: int| 0 <= k < pc.len() ==> s[#[trigger] pc[k]] == 0 && pc[k] != c,
    ensures
        triangular(basis.push(s), pc.push(c), v),
{
    let (b2, p2) = (basis.push(s), pc.push(c));
    assert forall|i: int, k: int| 0 <= k < i < p2.len() implies #[trigger] clear(b2, p2, i, k) by {
        assert(p2[k] == pc[k]);
        if i < pc.len() {
            assert(p2[i] == pc[i]);
            assert(clear(basis, pc, i, k));
        }
    }
    assert forall|i: int| 0 <= i < p2.len() implies 0 <= #[trigger] p2[i] < v && b2[i][p2[i]] == 1 by {
        if i < pc.len() {
            assert(p2[i] == pc[i]);
        }
    }
}

/// A vector killed by a row with a one at column `c` has there the sum of the
/// other products.
proof fn lemma_two(a: Seq<u64>, x: Seq<u64>)
    ensures
        dot(a, x, 1) == product(a[0], x[0]),
        dot(a, x, 2) == product(a[0], x[0]) ^ product(a[1], x[1]),
        dot(a, x, 3) == product(a[0], x[0]) ^ product(a[1], x[1]) ^ product(a[2], x[2]),
{
    reveal_with_fuel(dot, 4);
    lemma_xor_group(product(a[0], x[0]), 0, 0, 0);
}

/// A vector that is zero but at `c` and `d`, with `x[c] == 1` and
/// `x[d] == a[c]`, is killed by a row with a one at `d`.
proof fn lemma_back_one(a: Seq<u64>, x: Seq<u64>, c: int, d: int, v: nat)
    requires
        0 <= c < v <= 3,
        0 <= d < v,
        c != d,
        x.len() == v,
        a[d] == 1,
        x[c] == 1,
        x[d] == a[c],
        forall|k: int| 0 <= k < v && k != c && k != d ==> #[trigger] x[k] == 0,
    ensures
        dot(a, x, v) == 0,
{
    lemma_two(a, x);
    law_product_one(a[c]);
    law_product_one(x[d]);
    law_product_commutes(1, x[d]);
    lemma_product_zero(a[0]);
    lemma_product_zero(a[1]);
    lemma_product_zero(a[2]);
    let (p, q) = (product(a[c], x[c]), product(a[d], x[d]));
    assert(p == a[c] && q == a[c]);
    lemma_xor_group(p, q, 0, 0);
    lemma_xor_group(p, 0, q, 0);
    lemma_xor_group(0, p, q, 0);
    lemma_xor_group(0, 0, 0, 0);
}

/// Fewer rows than columns leave a vector that all of them kill.
proof fn lemma_room(basis: Seq<Seq<u64>>, pc: Seq<int>, v: nat)
    requires
        triangular(basis, pc, v),
        1 <= v <= 3,
        pc.len() < v,
    ensures
        deficient(basis, v),
{
    if pc.len() == 0 {
        let x = Seq::new(v, |k: int| 1u64);
        assert(x[0] != 0);
        assert(kills(basis, x, v));
    } else if pc.len() == 1 {
        let d = pc[0];
        let c: int = if d == 0 {
            1
        } else {
            0
        };
        let b = basis[0];
        let x = Seq::new(
            v,
            |k: int|
                if k == c {
                    1u64
                } else if k == d {
                    b[c]
                } else {
                    0u64
                },
        );
        assert(x[c] != 0);
        lemma_back_one(b, x, c, d, v);
        assert(kills(basis, x, v));
    } else {
        let (d, e) = (pc[0], pc[1]);
        assert(clear(basis, pc, 1, 0));
        let c: int = if d != 0 && e != 0 {
            0
        } else if d != 1 && e != 1 {
            1
        } else {
            2
        };
        assert(c != d && c != e);
        let (a, b) = (basis[0], basis[1]);
        let xe = b[c];
        let xd = a[c] ^ product(a[e], xe);
        let x = Seq::new(
            v,
            |k: int|
                if k == c {
                    1u64
                } else if k == d {
                    xd
                } else {
                    xe
                },
        );
        assert(x[c] != 0);
        // the second row: zero at `d`, one at `e`
        lemma_two(b, x);
        lemma_two(a, x);
        law_product_one(b[c]);
        law_product_one(a[c]);
        law_product_one(xe);
        law_product_commutes(1, xe);
        law_product_one(xd);
        law_product_commutes(1, xd);
        lemma_product_zero(xd);
        let (p, q) = (product(b[c], x[c]), product(b[e], x[e]));
        assert(p == b[c] && q == b[c] && product(b[d], x[d]) == 0);
        lemma_sum_three(p, q, 0);
        lemma_xor_group(p, q, 0, 0);
        assert(v == 3);
        assert(dot(b, x, v) == 0);
        let (r, s, t) = (product(a[c], x[c]), product(a[d], x[d]), product(a[e], x[e]));
        assert(r == a[c] && s == xd && t == product(a[e], xe));
        lemma_sum_three(r, s, t);
        lemma_xor_group(r, t, 0, 0);
        lemma_xor_group(r ^ t, r ^ t, 0, 0);
        assert(dot(a, x, v) == 0);
        assert forall|i: int| 0 <= i < basis.len() implies dot(#[trigger] basis[i], x, v) == 0 by {}
        assert(kills(basis, x, v));
    }
}

/// Three terms add up alike in any order.
proof fn lemma_sum_three(p: u64, q: u64, r: u64)
    ensures
        p ^ q ^ r == r ^ (p ^ q),
        p ^ r ^ q == r ^ (p ^ q),
        q ^ p ^ r == r ^ (p ^ q),
        q ^ r ^ p == r ^ (p ^ q),
        r ^ p ^ q == r ^ (p ^ q),
        r ^ q ^ p == r ^ (p ^ q),
        r ^ (p ^ q) == q ^ (p ^ r),
        (p ^ q) == 0 ==> r ^ (p ^ q) == r,
{
    assert(p ^ q ^ r == r ^ (p ^ q) && p ^ r ^ q == r ^ (p ^ q) && q ^ p ^ r == r ^ (p ^ q) && q ^ r ^ p == r ^ (p
        ^ q) && r ^ p ^ q == r ^ (p ^ q) && r ^ q ^ p == r ^ (p ^ q) && r ^ (p ^ q) == q ^ (p ^ r) && ((p ^ q)
        == 0 ==> r ^ (p ^ q) == r)) by (bit_vector);
}

/// As many rows as columns kill nothing but zero.
proof fn lemma_full(basis: Seq<Seq<u64>>, pc: Seq<int>, x: Seq<u64>, v: nat)
    requires
        triangular(basis, pc, v),
        1 <= v <= 3,
        pc.len() == v,
        kills(basis, x, v),
    ensures
        forall|c: int| 0 <= c < v ==> #[trigger] x[c] == 0,
{
    // From the last row up: its row is zero in every other column.
    if v == 1 {
        assert(pc[0] == 0);
        lemma_two(basis[0], x);
        law_product_one(x[0]);
        law_product_commutes(1, x[0]);
        assert(dot(basis[0], x, 1) == 0);
    } else if v == 2 {
        let (d, e) = (pc[0], pc[1]);
        assert(clear(basis, pc, 1, 0));
        let (a, b) = (basis[0], basis[1]);
        lemma_two(a, x);
        lemma_two(b, x);
        assert(dot(a, x, 2) == 0 && dot(b, x, 2) == 0);
        law_product_one(x[d]);
        law_product_commutes(1, x[d]);
        law_product_one(x[e]);
        law_product_commutes(1, x[e]);
        lemma_product_zero(x[d]);
        lemma_xor_group(x[e], 0, 0, 0);
        assert(x[e] == 0);
        lemma_product_zero(a[e]);
        lemma_xor_group(x[d], 0, 0, 0);
        assert(x[d] == 0);
        assert forall|c: int| 0 <= c < v implies #[trigger] x[c] == 0 by {
            assert(c == d || c == e);
        }
    } else {
        let (d, e, f) = (pc[0], pc[1], pc[2]);
        assert(clear(basis, pc, 1, 0));
        assert(clear(basis, pc, 2, 0));
        assert(clear(basis, pc, 2, 1));
        let (a, b, g) = (basis[0], basis[1], basis[2]);
        lemma_two(a, x);
        lemma_two(b, x);
        lemma_two(g, x);
        assert(dot(a, x, 3) == 0 && dot(b, x, 3) == 0 && dot(g, x, 3) == 0);
        law_product_one(x[d]);
        law_product_commutes(1, x[d]);
        law_product_one(x[e]);
        law_product_commutes(1, x[e]);
        law_product_one(x[f]);
        law_product_commutes(1, x[f]);
        lemma_product_zero(x[d]);
        lemma_product_zero(x[e]);
        lemma_xor_group(0, 0, 0, 0);
        lemma_sum_three(0, 0, product(g[f], x[f]));
        assert(x[f] == 0);
        lemma_product_zero(b[f]);
        lemma_sum_three(0, 0, product(b[e], x[e]));
        assert(x[e] == 0);
        lemma_product_zero(a[e]);
        lemma_product_zero(a[f]);
        lemma_sum_three(0, 0, product(a[d], x[d]));
        assert(x[d] == 0);
        assert forall|c: int| 0 <= c < v implies #[trigger] x[c] == 0 by {
            assert(c == d || c == e || c == f);
        }
    }
}

/// Takes the kept rows out of `r`: what is left is zero in their columns.
fn reduce(r: [u64; 3], basis: &[[u64; 3]; 3], pc: &[usize; 3], cnt: usize, v: usize) -> (out: [u64; 3])
    requires
        1 <= v <= 3,
        cnt <= v,
        triangular(square_rows(*basis, cnt as nat), cols_of(*pc, cnt as nat), v as nat),
    ensures
        forall|k: int| 0 <= k < cnt ==> out@[#[trigger] pc@[k] as int] == 0,
        forall|x: Seq<u64>| #[trigger]
            kills(square_rows(*basis, cnt as nat), x, v as nat) ==> dot(out@, x, v as nat) == dot(r@, x, v as nat),
{
    let ghost bs = square_rows(*basis, cnt as nat);
    let ghost pcs = cols_of(*pc, cnt as nat);
    let mut out: [u64; 3] = r;
    let mut b: usize = 0;
    while b < cnt
        invariant
            b <= cnt <= v <= 3,
            bs == square_rows(*basis, cnt as nat),
            pcs == cols_of(*pc, cnt as nat),
            triangular(bs, pcs, v as nat),
            forall|k: int| 0 <= k < b ==> out@[#[trigger] pc@[k] as int] == 0,
            forall|x: Seq<u64>| #[trigger]
                kills(bs, x, v as nat) ==> dot(out@, x, v as nat) == dot(r@, x, v as nat),
        decreases cnt - b,
    {
        let ghost before = out@;
        assert(pcs[b as int] == pc@[b as int] as int);
        let f: u64 = out[pc[b]];
        out = add_multiple(out, f, basis[b], v);
        proof {
            let row = bs[b as int];
            assert(row == basis@[b as int]@);
            law_product_one(f);
            lemma_xor_group(f, f, 0, 0);
            assert(out@[pc@[b as int] as int] == 0);
            assert forall|k: int| 0 <= k < b + 1 implies out@[#[trigger] pc@[k] as int] == 0 by {
                if k < b {
                    assert(pcs[k] == pc@[k] as int);
                    assert(clear(bs, pcs, b as int, k));
                    assert(out@[pcs[k]] == before[pcs[k]] ^ product(f, row[pcs[k]]));
                    lemma_product_zero(f);
                    lemma_xor_group(0, 0, 0, 0);
                }
            }
            assert forall|x: Seq<u64>| #[trigger] kills(bs, x, v as nat) implies dot(out@, x, v as nat) == dot(
                r@,
                x,
                v as nat,
            ) by {
                lemma_dot_add(out@, before, f, row, x, v as nat);
                assert(dot(bs[b as int], x, v as nat) == 0);
                lemma_product_zero(f);
                lemma_xor_group(dot(before, x, v as nat), 0, 0, 0);
            }
        }
        b += 1;
    }
    out
}

/// The chosen rows tell all vectors apart.
pub open spec fn telling(m: Seq<Seq<u64>>, v: nat) -> bool {
    forall|x: Seq<u64>, c: int| #[trigger] kills(m, x, v) && 0 <= c < v ==> #[trigger] x[c] == 0
}

/// The first channels, in order, that tell the unknowns apart; `None` if all
/// four together do not.
fn choose_pivots(coef: &[[u64; 3]; 4], v: usize) -> (r: Option<[u8; 3]>)
    requires
        1 <= v <= 3,
    ensures
        match r {
            Some(p) => {
                &&& p@[v - 1] < 4
                &&& greedy(*coef, p, v as nat, p@[v - 1] + 1, v as nat)
                &&& telling(chosen(*coef, p, v as nat), v as nat)
            },
            None => deficient(rows_of(*coef), v as nat),
        },
        r matches Some(p) ==> forall|k: int| v <= k < 3 ==> #[trigger] p@[k] == 0,
        !deficient(rows_of(*coef).take(v as int), v as nat) ==> (r matches Some(p) && first_channels(p, v as nat)),
{
    let ghost n = v as nat;
    let ghost firsts = rows_of(*coef).take(v as int);
    let mut pivot: [u8; 3] = [0, 0, 0];
    let mut basis: [[u64; 3]; 3] = [[0, 0, 0], [0, 0, 0], [0, 0, 0]];
    let mut pc: [usize; 3] = [0, 0, 0];
    let mut cnt: usize = 0;
    let mut j: usize = 0;
    while j < 4 && cnt < v
        invariant
            j <= 4,
            cnt <= v,
            1 <= v <= 3,
            n == v as nat,
            firsts == rows_of(*coef).take(v as int),
            j >= v && (cnt < v || j > v) ==> deficient(firsts, n),
            triangular(square_rows(basis, cnt as nat), cols_of(pc, cnt as nat), n),
            greedy(*coef, pivot, cnt as nat, j as int, n),
            cnt == v ==> pivot@[v - 1] == j - 1,
            forall|k: int| cnt <= k < 3 ==> #[trigger] pivot@[k] == 0,
            forall|x: Seq<u64>, k: int| #[trigger]
                kills(square_rows(basis, cnt as nat), x, n) && 0 <= k < j ==> #[trigger] dot(coef@[k]@, x, n) == 0,
            forall|x: Seq<u64>| #[trigger]
                kills(chosen(*coef, pivot, cnt as nat), x, n) ==> kills(square_rows(basis, cnt as nat), x, n),
        decreases 4 - j,
    {
        let ghost bs = square_rows(basis, cnt as nat);
        let ghost pcs = cols_of(pc, cnt as nat);
        let ghost ch = chosen(*coef, pivot, cnt as nat);
        let ghost pivot0 = pivot;
        let ghost pc0 = pc;
        assert(triangular(bs, pcs, n));
        let r0: [u64; 3] = coef[j];
        let r: [u64; 3] = reduce(r0, &basis, &pc, cnt, v);
        match leading(&r, v) {
            None => {
                proof {
                    assert forall|x: Seq<u64>, k: int| #[trigger] kills(bs, x, n) && 0 <= k < j + 1 implies
                        #[trigger] dot(coef@[k]@, x, n) == 0 by {
                        if k == j {
                            lemma_dot_nothing(r@, x, n);
                        }
                    }
                    assert(redundant(*coef, pivot, cnt as nat, j as int, n)) by {
                        assert forall|x: Seq<u64>|
                            (forall|i: int|
                                0 <= i < cnt && pivot@[i] < j ==> dot(
                                    coef@[#[trigger] pivot@[i] as int]@,
                                    x,
                                    n,
                                ) == 0) implies #[trigger] dot(coef@[j as int]@, x, n) == 0 by {
                            assert(kills(ch, x, n)) by {
                                assert forall|i: int| 0 <= i < ch.len() implies dot(#[trigger] ch[i], x, n) == 0 by {
                                    assert(pivot@[i] < j);
                                }
                            }
                        }
                    }
                    assert(greedy(*coef, pivot, cnt as nat, j + 1, n));
                }
            },
            Some(c) => {
                let f: u64 = gf64::inv(r[c]);
                let s: [u64; 3] = scale(r, f, v);
                basis[cnt] = s;
                pc[cnt] = c;
                pivot[cnt] = j as u8;
                cnt += 1;
                proof {
                    let bs2 = square_rows(basis, cnt as nat);
                    let pcs2 = cols_of(pc, cnt as nat);
                    let ch2 = chosen(*coef, pivot, cnt as nat);
                    assert(bs2 =~= bs.push(s@));
                    assert(pcs2 =~= pcs.push(c as int));
                    assert(ch2 =~= ch.push(coef@[j as int]@));
                    law_inverse(r@[c as int]);
                    assert(f != 0) by {
                        lemma_product_zero(r@[c as int]);
                    }
                    assert forall|k: int| 0 <= k < pcs.len() implies s@[#[trigger] pcs[k]] == 0 && pcs[k] != c by {
                        assert(pcs[k] == pc0@[k] as int);
                        assert(r@[pc0@[k] as int] == 0);
                        assert(0 <= pcs[k] < n);
                        assert(s@[pcs[k]] == product(r@[pcs[k]], f));
                        lemma_product_zero(f);
                    }
                    lemma_triangular_push(bs, pcs, s@, c as int, n);
                    assert forall|x: Seq<u64>, k: int| #[trigger] kills(bs2, x, n) && 0 <= k < j + 1 implies
                        #[trigger] dot(coef@[k]@, x, n) == 0 by {
                        assert(kills(bs, x, n)) by {
                            assert forall|i: int| 0 <= i < bs.len() implies dot(#[trigger] bs[i], x, n) == 0 by {
                                assert(bs2[i] == bs[i]);
                            }
                        }
                        if k == j {
                            lemma_dot_scale(s@, r@, f, x, n);
                            assert(dot(bs2[cnt - 1], x, n) == 0);
                            law_no_zero_divisors(f, dot(r@, x, n));
                        }
                    }
                    assert forall|x: Seq<u64>| #[trigger] kills(ch2, x, n) implies kills(bs2, x, n) by {
                        assert(kills(ch, x, n)) by {
                            assert forall|i: int| 0 <= i < ch.len() implies dot(#[trigger] ch[i], x, n) == 0 by {
                                assert(ch2[i] == ch[i]);
                            }
                        }
                        assert(dot(ch2[cnt - 1], x, n) == 0);
                        lemma_dot_scale(s@, r@, f, x, n);
                        lemma_product_zero(f);
                        assert forall|i: int| 0 <= i < bs2.len() implies dot(#[trigger] bs2[i], x, n) == 0 by {
                            if i < bs.len() {
                                assert(dot(bs[i], x, n) == 0);
                            }
                        }
                    }
                    assert forall|k: int|
                        0 <= k < j + 1 && (forall|i: int| 0 <= i < cnt ==> #[trigger] pivot@[i] != k) implies
                        #[trigger] redundant(*coef, pivot, cnt as nat, k, n) by {
                        assert(pivot@[cnt - 1] == j);
                        assert(k < j);
                        assert forall|i: int| 0 <= i < cnt - 1 implies #[trigger] pivot0@[i] != k by {
                            assert(pivot@[i] == pivot0@[i]);
                        }
                        assert(redundant(*coef, pivot0, (cnt - 1) as nat, k, n));
                        assert forall|x: Seq<u64>|
                            (forall|i: int|
                                0 <= i < cnt && pivot@[i] < k ==> dot(
                                    coef@[#[trigger] pivot@[i] as int]@,
                                    x,
                                    n,
                                ) == 0) implies #[trigger] dot(coef@[k]@, x, n) == 0 by {
                            assert forall|i: int| 0 <= i < cnt - 1 && pivot0@[i] < k implies dot(
                                coef@[#[trigger] pivot0@[i] as int]@,
                                x,
                                n,
                            ) == 0 by {
                                assert(pivot@[i] == pivot0@[i]);
                            }
                        }
                    }
                }
            },
        }
        j += 1;
        proof {
            if j == v && cnt < v {
                let bs2 = square_rows(basis, cnt as nat);
                lemma_room(bs2, cols_of(pc, cnt as nat), n);
                let x = choose|x: Seq<u64>| x.len() == n && nonzero(x, n) && #[trigger] kills(bs2, x, n);
                assert forall|k: int| 0 <= k < firsts.len() implies dot(#[trigger] firsts[k], x, n) == 0 by {
                    assert(dot(coef@[k]@, x, n) == 0);
                }
                assert(kills(firsts, x, n));
            }
        }
    }
    let ghost bs = square_rows(basis, cnt as nat);
    let ghost pcs = cols_of(pc, cnt as nat);
    if cnt < v {
        proof {
            lemma_room(bs, pcs, n);
            let x = choose|x: Seq<u64>| x.len() == n && nonzero(x, n) && #[trigger] kills(bs, x, n);
            let rows = rows_of(*coef);
            assert forall|k: int| 0 <= k < rows.len() implies dot(#[trigger] rows[k], x, n) == 0 by {
                assert(dot(coef@[k]@, x, n) == 0);
            }
            assert(kills(rows, x, n));
        }
        return None;
    }
    proof {
        let ch = chosen(*coef, pivot, n);
        assert forall|x: Seq<u64>, c: int| #[trigger] kills(ch, x, n) && 0 <= c < n implies #[trigger] x[c] == 0 by {
            lemma_full(bs, pcs, x, n);
        }
        assert(v >= 2 ==> pivot@[0] < pivot@[1]);
        assert(v >= 3 ==> pivot@[1] < pivot@[2]);
        assert(j >= v);
        if j == v {
            assert(first_channels(pivot, n));
        }
    }
    Some(pivot)
}

/// A column of a matrix.
spec fn column(m: Seq<Seq<u64>>, c: int, n: nat) -> Seq<u64> {
    Seq::new(n, |i: int| m[i][c])
}

/// Combining the rows is a dot product with each column.
proof fn lemma_combined_column(a: Seq<u64>, m: Seq<Seq<u64>>, c: int, n: nat, k: nat)
    requires
        k <= n,
    ensures
        combined(a, m, c, k) == dot(a, column(m, c, n), k),
    decreases k,
{
    if k > 0 {
        lemma_combined_column(a, m, c, n, (k - 1) as nat);
        assert(column(m, c, n)[k - 1] == m[k - 1][c]);
    }
}

/// Row `r` of `a` is the rows of `m` combined with row `r` of `inv`.
spec fn row_combined(a: Seq<u64>, inv: Seq<u64>, m: Seq<Seq<u64>>, v: nat) -> bool {
    forall|c: int| 0 <= c < v ==> #[trigger] a[c] == combined(inv, m, c, v)
}

proof fn lemma_row_add(
    a: Seq<u64>,
    inv: Seq<u64>,
    a1: Seq<u64>,
    inv1: Seq<u64>,
    a2: Seq<u64>,
    inv2: Seq<u64>,
    g: u64,
    m: Seq<Seq<u64>>,
    v: nat,
)
    requires
        row_combined(a, inv, m, v),
        row_combined(a1, inv1, m, v),
        forall|c: int| 0 <= c < v ==> #[trigger] a2[c] == a[c] ^ product(g, a1[c]),
        forall|c: int| 0 <= c < v ==> #[trigger] inv2[c] == inv[c] ^ product(g, inv1[c]),
    ensures
        row_combined(a2, inv2, m, v),
{
    assert forall|c: int| 0 <= c < v implies #[trigger] a2[c] == combined(inv2, m, c, v) by {
        lemma_combined_column(inv, m, c, v, v);
        lemma_combined_column(inv1, m, c, v, v);
        lemma_combined_column(inv2, m, c, v, v);
        lemma_dot_add(inv2, inv, g, inv1, column(m, c, v), v);
        assert(a[c] == combined(inv, m, c, v));
        assert(a1[c] == combined(inv1, m, c, v));
    }
}

proof fn lemma_row_scale(a: Seq<u64>, inv: Seq<u64>, a2: Seq<u64>, inv2: Seq<u64>, f: u64, m: Seq<Seq<u64>>, v: nat)
    requires
        row_combined(a, inv, m, v),
        forall|c: int| 0 <= c < v ==> #[trigger] a2[c] == product(a[c], f),
        forall|c: int| 0 <= c < v ==> #[trigger] inv2[c] == product(inv[c], f),
    ensures
        row_combined(a2, inv2, m, v),
{
    assert forall|c: int| 0 <= c < v implies #[trigger] a2[c] == combined(inv2, m, c, v) by {
        lemma_combined_column(inv, m, c, v, v);
        lemma_combined_column(inv2, m, c, v, v);
        lemma_dot_scale(inv2, inv, f, column(m, c, v), v);
        law_product_commutes(a[c], f);
        assert(a[c] == combined(inv, m, c, v));
    }
}

/// The first `col` columns are those of the identity.
spec fn cleared(a: Seq<Seq<u64>>, col: int, v: nat) -> bool {
    forall|r: int, k: int|
        0 <= r < v && 0 <= k < col ==> #[trigger] a[r][k] == if r == k {
            1u64
        } else {
            0u64
        }
}

/// With the first `col` columns cleared, the next column is not zero from row
/// `col` on: else a vector other than zero would be killed.
proof fn lemma_pivot_exists(a: Seq<Seq<u64>>, col: int, v: nat) -> (x: Seq<u64>)
    requires
        1 <= v <= 3,
        0 <= col < v,
        a.len() == v,
        cleared(a, col, v),
        forall|r: int| col <= r < v ==> (#[trigger] a[r])[col] == 0,
    ensures
        x.len() == v,
        x[col] == 1,
        kills(a, x, v),
{
    let x = Seq::new(
        v,
        |k: int|
            if k == col {
                1u64
            } else if k < col {
                a[k][col]
            } else {
                0u64
            },
    );
    assert forall|r: int| 0 <= r < a.len() implies dot(#[trigger] a[r], x, v) == 0 by {
        let b = a[r];
        lemma_two(b, x);
        lemma_product_zero(b[0]);
        lemma_product_zero(b[1]);
        lemma_product_zero(b[2]);
        lemma_product_zero(x[0]);
        lemma_product_zero(x[1]);
        lemma_product_zero(x[2]);
        law_product_one(b[col]);
        lemma_xor_group(0, 0, 0, 0);
        lemma_xor_group(b[col], b[col], 0, 0);
        if r < col {
            assert(b[r] == 1);
            law_product_one(x[r]);
            law_product_commutes(1, x[r]);
            assert forall|k: int| 0 <= k < v && k != r && k != col implies product(#[trigger] b[k], x[k]) == 0 by {
                if k < col {
                    assert(a[r][k] == 0);
                }
            }
            let (p, q) = (product(b[r], x[r]), product(b[col], x[col]));
            assert(p == q);
            lemma_sum_three(p, q, 0);
            lemma_xor_group(p, q, 0, 0);
        } else {
            assert forall|k: int| 0 <= k < v implies product(#[trigger] b[k], x[k]) == 0 by {
                if k < col {
                    assert(a[r][k] == 0);
                }
            }
            assert(product(b[0], x[0]) == 0);
            if v > 1 {
                assert(product(b[1], x[1]) == 0);
            }
            if v > 2 {
                assert(product(b[2], x[2]) == 0);
            }
        }
    }
    x
}

/// Killing the rows of `a` is killing those of `m`.
spec fn no_weaker(a: Seq<Seq<u64>>, m: Seq<Seq<u64>>, v: nat) -> bool {
    forall|x: Seq<u64>| #[trigger] kills(a, x, v) ==> kills(m, x, v)
}

/// What holds of the working matrices while the inverse is found.
spec fn inverting(a: Seq<Seq<u64>>, inv: Seq<Seq<u64>>, m: Seq<Seq<u64>>, v: nat) -> bool {
    &&& a.len() == v
    &&& inv.len() == v
    &&& forall|r: int| 0 <= r < v ==> #[trigger] row_combined(a[r], inv[r], m, v)
    &&& no_weaker(a, m, v)
}

/// Replacing one row by a multiple, or by itself with a multiple of another
/// row added, keeps that.
proof fn lemma_row_replaced(
    a: Seq<Seq<u64>>,
    inv: Seq<Seq<u64>>,
    a2: Seq<Seq<u64>>,
    inv2: Seq<Seq<u64>>,
    r: int,
    m: Seq<Seq<u64>>,
    v: nat,
)
    requires
        inverting(a, inv, m, v),
        0 <= r < v,
        a2.len() == v,
        inv2.len() == v,
        forall|k: int| 0 <= k < v && k != r ==> #[trigger] a2[k] == a[k] && inv2[k] == inv[k],
        row_combined(a2[r], inv2[r], m, v),
        forall|x: Seq<u64>| #[trigger] kills(a2, x, v) ==> dot(a[r], x, v) == 0,
    ensures
        inverting(a2, inv2, m, v),
{
    assert forall|x: Seq<u64>| #[trigger] kills(a2, x, v) implies kills(m, x, v) by {
        assert(kills(a, x, v)) by {
            assert forall|k: int| 0 <= k < a.len() implies dot(#[trigger] a[k], x, v) == 0 by {
                if k != r {
                    assert(a2[k] == a[k]);
                }
            }
        }
    }
    assert forall|k: int| 0 <= k < v implies #[trigger] row_combined(a2[k], inv2[k], m, v) by {
        if k != r {
            assert(a2[k] == a[k]);
            assert(row_combined(a[k], inv[k], m, v));
        }
    }
}

/// The left inverse of the first `v` rows, which tell the unknowns apart.
fn invert(m: &[[u64; 3]; 3], v: usize) -> (r: [[u64; 3]; 3])
    requires
        1 <= v <= 3,
        telling(square_rows(*m, v as nat), v as nat),
    ensures
        inverts(r, square_rows(*m, v as nat), v as nat),
        blank_outside(r, v as nat),
{
    let ghost n = v as nat;
    let ghost ms = square_rows(*m, n);
    let mut a: [[u64; 3]; 3] = *m;
    let second: u64 = if v > 1 {
        1
    } else {
        0
    };
    let third: u64 = if v > 2 {
        1
    } else {
        0
    };
    let mut inv: [[u64; 3]; 3] = [[1, 0, 0], [0, second, 0], [0, 0, third]];
    proof {
        let (ra, ri) = (square_rows(a, n), square_rows(inv, n));
        assert(ra =~= ms);
        assert forall|r: int| 0 <= r < v implies #[trigger] row_combined(ra[r], ri[r], ms, n) by {
            assert forall|c: int| 0 <= c < v implies #[trigger] ra[r][c] == combined(ri[r], ms, c, n) by {
                lemma_combined_column(ri[r], ms, c, n, n);
                assert forall|k: int| 0 <= k < n implies #[trigger] ri[r][k] == if k == r {
                    1u64
                } else {
                    0u64
                } by {}
                lemma_dot_unit(ri[r], column(ms, c, n), r, n);
            }
        }
        assert(inverting(ra, ri, ms, n));
    }
    let mut col: usize = 0;
    while col < v
        invariant
            col <= v <= 3,
            1 <= v,
            n == v as nat,
            ms == square_rows(*m, n),
            telling(ms, n),
            inverting(square_rows(a, n), square_rows(inv, n), ms, n),
            cleared(square_rows(a, n), col as int, n),
            blank_outside(inv, n),
        decreases v - col,
    {
        let ghost (a0, i0) = (square_rows(a, n), square_rows(inv, n));
        let mut p: usize = col;
        while p < v && a[p][col] == 0
            invariant
                col <= p <= v <= 3,
                col < v,
                forall|r: int| col <= r < p ==> (#[trigger] a@[r])@[col as int] == 0,
            decreases v - p,
        {
            p += 1;
        }
        proof {
            if p == v {
                assert forall|r: int| col <= r < n implies (#[trigger] a0[r])[col as int] == 0 by {
                    assert(a0[r] == a@[r]@);
                }
                let x = lemma_pivot_exists(a0, col as int, n);
                assert(kills(ms, x, n));
                assert(x[col as int] == 0);
            }
        }
        let (ac, ap) = (a[col], a[p]);
        let (ic, ip) = (inv[col], inv[p]);
        a[p] = ac;
        a[col] = ap;
        inv[p] = ic;
        inv[col] = ip;
        let ghost (a1, i1) = (square_rows(a, n), square_rows(inv, n));
        proof {
            assert forall|x: Seq<u64>| #[trigger] kills(a1, x, n) implies kills(ms, x, n) by {
                assert(kills(a0, x, n)) by {
                    assert forall|k: int| 0 <= k < a0.len() implies dot(#[trigger] a0[k], x, n) == 0 by {
                        if k == col {
                            assert(a1[p as int] == a0[k]);
                        } else if k == p {
                            assert(a1[col as int] == a0[k]);
                        } else {
                            assert(a1[k] == a0[k]);
                        }
                    }
                }
            }
            assert forall|r: int| 0 <= r < n implies #[trigger] row_combined(a1[r], i1[r], ms, n) by {
                let k: int = if r == col {
                    p as int
                } else if r == p {
                    col as int
                } else {
                    r
                };
                assert(row_combined(a0[k], i0[k], ms, n));
                assert(a1[r] == a0[k] && i1[r] == i0[k]);
            }
            assert forall|r: int, k: int| 0 <= r < n && 0 <= k < col implies #[trigger] a1[r][k] == if r == k {
                1u64
            } else {
                0u64
            } by {
                let q: int = if r == col {
                    p as int
                } else if r == p {
                    col as int
                } else {
                    r
                };
                assert(a1[r] == a0[q]);
                assert(a0[q][k] == if q == k { 1u64 } else { 0u64 });
            }
        }
        let f: u64 = gf64::inv(a[col][col]);
        a[col] = scale(a[col], f, v);
        inv[col] = scale(inv[col], f, v);
        let ghost (a2, i2) = (square_rows(a, n), square_rows(inv, n));
        proof {
            let lead = a1[col as int][col as int];
            assert(lead != 0);
            law_inverse(lead);
            lemma_product_zero(lead);
            lemma_row_scale(a1[col as int], i1[col as int], a2[col as int], i2[col as int], f, ms, n);
            assert forall|k: int| 0 <= k < n && k != col implies #[trigger] a2[k] == a1[k] && i2[k] == i1[k] by {}
            assert forall|x: Seq<u64>| #[trigger] kills(a2, x, n) implies dot(a1[col as int], x, n) == 0 by {
                lemma_dot_scale(a2[col as int], a1[col as int], f, x, n);
                assert(dot(a2[col as int], x, n) == 0);
                law_no_zero_divisors(f, dot(a1[col as int], x, n));
            }
            assert(row_combined(a1[col as int], i1[col as int], ms, n));
            lemma_row_replaced(a1, i1, a2, i2, col as int, ms, n);
            assert forall|r: int, k: int| 0 <= r < n && 0 <= k < col implies #[trigger] a2[r][k] == if r == k {
                1u64
            } else {
                0u64
            } by {
                assert(a1[r][k] == if r == k { 1u64 } else { 0u64 });
                lemma_product_zero(f);
            }
            assert(a2[col as int][col as int] == 1);
        }
        let mut r: usize = 0;
        while r < v
            invariant
                r <= v <= 3,
                col < v,
                n == v as nat,
                inverting(square_rows(a, n), square_rows(inv, n), ms, n),
                cleared(square_rows(a, n), col as int, n),
                blank_outside(inv, n),
                a@[col as int]@[col as int] == 1,
                forall|k: int| 0 <= k < r && k != col ==> (#[trigger] a@[k])@[col as int] == 0,
            decreases v - r,
        {
            if r != col {
                let ghost (a3, i3) = (square_rows(a, n), square_rows(inv, n));
                let ghost before = a;
                let g: u64 = a[r][col];
                a[r] = add_multiple(a[r], g, a[col], v);
                inv[r] = add_multiple(inv[r], g, inv[col], v);
                proof {
                    let (a4, i4) = (square_rows(a, n), square_rows(inv, n));
                    let (ri, ci) = (r as int, col as int);
                    assert(row_combined(a3[ri], i3[ri], ms, n));
                    assert(row_combined(a3[ci], i3[ci], ms, n));
                    lemma_row_add(a3[ri], i3[ri], a3[ci], i3[ci], a4[ri], i4[ri], g, ms, n);
                    assert forall|k: int| 0 <= k < n && k != ri implies #[trigger] a4[k] == a3[k] && i4[k] == i3[k] by {}
                    assert forall|x: Seq<u64>| #[trigger] kills(a4, x, n) implies dot(a3[ri], x, n) == 0 by {
                        lemma_dot_add(a4[ri], a3[ri], g, a3[ci], x, n);
                        assert(a4[ci] == a3[ci]);
                        assert(dot(a4[ri], x, n) == 0 && dot(a4[ci], x, n) == 0);
                        lemma_product_zero(g);
                        lemma_xor_group(dot(a3[ri], x, n), 0, 0, 0);
                    }
                    lemma_row_replaced(a3, i3, a4, i4, ri, ms, n);
                    law_product_one(g);
                    lemma_xor_group(g, g, 0, 0);
                    assert(a@[ri]@[ci] == 0);
                    assert forall|q: int, k: int| 0 <= q < n && 0 <= k < col implies #[trigger] a4[q][k] == if q == k {
                        1u64
                    } else {
                        0u64
                    } by {
                        assert(a3[q][k] == if q == k { 1u64 } else { 0u64 });
                        if q == ri {
                            assert(a3[ci][k] == 0u64);
                            assert(a4[ri][k] == a3[ri][k] ^ product(g, a3[ci][k]));
                            lemma_product_zero(g);
                            lemma_xor_group(a3[ri][k], 0, 0, 0);
                        } else {
                            assert(a4[q] == a3[q]);
                        }
                    }
                    assert forall|k: int| 0 <= k < r + 1 && k != col implies (#[trigger] a@[k])@[col as int] == 0 by {
                        if k < r {
                            assert(before@[k]@[col as int] == 0);
                            assert(a@[k] == before@[k]);
                        }
                    }
                    assert(a4[ci] == a3[ci]);
                }
            }
            r += 1;
        }
        proof {
            let a5 = square_rows(a, n);
            assert forall|q: int, k: int| 0 <= q < n && 0 <= k < col + 1 implies #[trigger] a5[q][k] == if q == k {
                1u64
            } else {
                0u64
            } by {
                assert(a5[q] == a@[q]@);
                if k < col {
                    assert(a5[q][k] == if q == k { 1u64 } else { 0u64 });
                } else if q != col {
                    assert(a@[q]@[col as int] == 0);
                }
            }
        }
        col += 1;
    }
    proof {
        let (ra, ri) = (square_rows(a, n), square_rows(inv, n));
        assert forall|u: int, c: int| 0 <= u < n && 0 <= c < n implies #[trigger] combined(inv@[u]@, ms, c, n) == if u
            == c {
            1u64
        } else {
            0u64
        } by {
            assert(row_combined(ra[u], ri[u], ms, n));
            assert(ra[u][c] == combined(ri[u], ms, c, n));
        }
    }
    inv
}

proof fn lemma_mask(m: u8, p: u8, j: u8)
    requires
        p < 4,
        j < 4,
    ensures
        ((m & !(1u8 << p)) & (1u8 << j) != 0) == ((m & (1u8 << j) != 0) && p != j),
        0x0Fu8 & (1u8 << j) != 0,
{
    assert(((m & !(1u8 << p)) & (1u8 << j) != 0) == ((m & (1u8 << j) != 0) && p != j)) by (bit_vector)
        requires
            p < 4,
            j < 4,
    ;
    assert(0x0Fu8 & (1u8 << j) != 0) by (bit_vector)
        requires
            j < 4,
    ;
}

proof fn lemma_mask_small(m: u8, p: u8)
    requires
        m < 16,
    ensures
        m & !(1u8 << p) < 16,
{
    assert(m & !(1u8 << p) < 16) by (bit_vector)
        requires
            m < 16,
    ;
}

/// What a solved system holds: the chosen channels, the inverse of their rows
/// and the mask of the others; what is not used is zero.
pub open spec fn solved(coef: [[u64; 3]; 4], v: nat, pivot: [u8; 3], inv: [[u64; 3]; 3], mask: u8) -> bool {
    &&& pivot@[v - 1] < 4
    &&& greedy(coef, pivot, v, pivot@[v - 1] + 1, v)
    &&& inverts(inv, chosen(coef, pivot, v), v)
    &&& blank_outside(inv, v)
    &&& forall|k: int| v <= k < 3 ==> #[trigger] pivot@[k] == 0
    &&& mask < 16
    &&& forall|j: u8| j < 4 ==> ((#[trigger] (1u8 << j)) & mask != 0) == surplus_bit(pivot, v, j as int)
}

/// Picks the channels to solve, in channel order, and inverts their rows; the
/// other channels are left as checks.  The first channels are chosen if they
/// suffice.  `None` if the unknowns cannot be told
/// apart.
pub fn solve_plan(coef: &[[u64; 3]; 4], v: usize) -> (r: Option<([u8; 3], [[u64; 3]; 3], u8)>)
    requires
        1 <= v <= 3,
    ensures
        match r {
            Some((pivot, inv, mask)) => solved(*coef, v as nat, pivot, inv, mask),
            None => true,
        },
        r is None <==> deficient(rows_of(*coef), v as nat),
        !deficient(rows_of(*coef).take(v as int), v as nat) ==> (r matches Some((pivot, _, _)) && first_channels(
            pivot,
            v as nat,
        )),
{
    let ghost n = v as nat;
    let pivot: [u8; 3] = match choose_pivots(coef, v) {
        Some(p) => p,
        None => {
            return None;
        },
    };
    proof {
        if deficient(rows_of(*coef), n) {
            let x = choose|x: Seq<u64>| x.len() == n && nonzero(x, n) && #[trigger] kills(rows_of(*coef), x, n);
            let ch = chosen(*coef, pivot, n);
            assert forall|i: int| 0 <= i < ch.len() implies dot(#[trigger] ch[i], x, n) == 0 by {
                assert(pivot@[i] < pivot@[v - 1] + 1);
                assert(dot(rows_of(*coef)[pivot@[i] as int], x, n) == 0);
            }
            assert(kills(ch, x, n));
            let c = choose|c: int| 0 <= c < n && #[trigger] x[c] != 0;
            assert(x[c] == 0);
        }
    }
    let mut m: [[u64; 3]; 3] = [[0, 0, 0], [0, 0, 0], [0, 0, 0]];
    let mut mask: u8 = 0x0F;
    let mut i: usize = 0;
    proof {
        assert forall|j: u8| j < 4 implies ((#[trigger] (1u8 << j)) & mask != 0) == surplus_bit(pivot, 0, j as int) by {
            lemma_mask(0, 0, j);
            lemma_and(mask, 1u8 << j);
        }
    }
    while i < v
        invariant
            i <= v <= 3,
            1 <= v,
            n == v as nat,
            pivot@[v - 1] < 4,
            greedy(*coef, pivot, n, pivot@[v - 1] + 1, n),
            forall|k: int| 0 <= k < i ==> #[trigger] m@[k] == coef@[pivot@[k] as int],
            mask < 16,
            forall|j: u8| j < 4 ==> ((#[trigger] (1u8 << j)) & mask != 0) == surplus_bit(pivot, i as nat, j as int),
        decreases v - i,
    {
        assert(pivot@[i as int] < pivot@[v - 1] + 1);
        let p: u8 = pivot[i];
        m[i] = coef[p as usize];
        let ghost before = mask;
        mask = mask & !(1u8 << p);
        proof {
            lemma_mask_small(before, p);
            assert forall|j: u8| j < 4 implies ((#[trigger] (1u8 << j)) & mask != 0) == surplus_bit(
                pivot,
                (i + 1) as nat,
                j as int,
            ) by {
                lemma_mask(before, p, j);
                lemma_and(mask, 1u8 << j);
                lemma_and(before, 1u8 << j);
                assert(surplus_bit(pivot, (i + 1) as nat, j as int) == (surplus_bit(pivot, i as nat, j as int) && p
                    != j)) by {
                    if surplus_bit(pivot, (i + 1) as nat, j as int) {
                        assert(pivot@[i as int] != j);
                    }
                }
            }
        }
        i += 1;
    }
    assert(square_rows(m, n) =~= chosen(*coef, pivot, n));
    let inv: [[u64; 3]; 3] = invert(&m, v);
    Some((pivot, inv, mask))
}

proof fn lemma_and(a: u8, b: u8)
    ensures
        a & b == b & a,
{
    assert(a & b == b & a) by (bit_vector);
}

// ---------------------------------------------------------------------------
// Powers of distinct elements
// ---------------------------------------------------------------------------

/// The powers of an element.
pub open spec fn power(a: u64, n: nat) -> u64
    decreases n,
{
    if n == 0 {
        1
    } else {
        product(power(a, (n - 1) as nat), a)
    }
}

/// The `j`-th powers of the first `v` elements.
pub open spec fn power_row(a: Seq<u64>, j: nat, v: nat) -> Seq<u64> {
    Seq::new(v, |u: int| power(a[u], j))
}

/// Multiplying each unknown by the difference of its element to `b` takes one
/// equation from the next.
proof fn lemma_power_step(a: Seq<u64>, x: Seq<u64>, y: Seq<u64>, b: u64, j: nat, n: nat, v: nat)
    requires
        n <= v,
        forall|u: int| 0 <= u < n ==> #[trigger] y[u] == product(a[u] ^ b, x[u]),
    ensures
        dot(power_row(a, j, v), y, n) == dot(power_row(a, j + 1, v), x, n) ^ product(
            b,
            dot(power_row(a, j, v), x, n),
        ),
    decreases n,
{
    if n == 0 {
        lemma_product_zero(b);
        lemma_xor_group(0, 0, 0, 0);
    } else {
        let m = (n - 1) as nat;
        lemma_power_step(a, x, y, b, j, m, v);
        let (p, e, z) = (power(a[m as int], j), a[m as int], x[m as int]);
        assert(y[m as int] == product(e ^ b, z));
        law_product_associates(p, e ^ b, z);
        law_product_adds_right(p, e, b);
        law_product_adds_left(product(p, e), product(p, b), z);
        law_product_commutes(p, b);
        law_product_associates(b, p, z);
        let s = dot(power_row(a, j, v), x, m);
        law_product_adds_right(b, s, product(p, z));
        lemma_xor_group(
            dot(power_row(a, j + 1, v), x, m),
            product(b, s),
            product(product(p, e), z),
            product(b, product(p, z)),
        );
    }
}

proof fn lemma_dot_zeros(a: Seq<u64>, x: Seq<u64>, n: nat)
    requires
        forall|c: int| 0 <= c < n ==> #[trigger] x[c] == 0,
    ensures
        dot(a, x, n) == 0,
    decreases n,
{
    if n > 0 {
        lemma_dot_zeros(a, x, (n - 1) as nat);
        lemma_product_zero(a[n - 1]);
        lemma_xor_group(0, 0, 0, 0);
        assert(x[n - 1] == 0);
    }
}

/// As many power equations as there are distinct elements have no solution but
/// zero.
proof fn lemma_powers_tell(a: Seq<u64>, x: Seq<u64>, v: nat)
    requires
        forall|i: int, k: int| 0 <= i < k < v ==> #[trigger] a[i] != #[trigger] a[k],
        forall|j: nat| j < v ==> dot(#[trigger] power_row(a, j, v), x, v) == 0,
    ensures
        forall|c: int| 0 <= c < v ==> #[trigger] x[c] == 0,
    decreases v,
{
    if v > 0 {
        let w = (v - 1) as nat;
        let (b, z) = (a[w as int], x[w as int]);
        let y = Seq::new(w, |u: int| product(a[u] ^ b, x[u]));
        assert forall|j: nat| j < w implies dot(#[trigger] power_row(a, j, w), y, w) == 0 by {
            let (r, t) = (power_row(a, j, v), power_row(a, j + 1, v));
            lemma_power_step(a, x, y, b, j, w, v);
            lemma_dot_same(power_row(a, j, w), r, y, y, w);
            let p = power(b, j);
            law_product_commutes(p, b);
            law_product_associates(b, p, z);
            law_product_adds_right(b, dot(r, x, w), product(p, z));
            assert(dot(t, x, v) == 0 && dot(r, x, v) == 0);
            lemma_product_zero(b);
            let q = product(product(p, b), z);
            lemma_xor_group(dot(t, x, w), q, 0, 0);
            lemma_xor_group(product(b, dot(r, x, w)), q, 0, 0);
            lemma_xor_group(dot(t, x, w), product(b, dot(r, x, w)), q, q);
            lemma_xor_group(q, q, 0, 0);
            lemma_xor_group(dot(t, x, w), q, product(b, dot(r, x, w)), q);
            lemma_xor_group(0, 0, 0, 0);
        }
        lemma_powers_tell(a, y, w);
        assert forall|c: int| 0 <= c < w implies #[trigger] x[c] == 0 by {
            assert(y[c] == product(a[c] ^ b, x[c]));
            assert(a[c] != a[w as int]);
            lemma_xor_group(a[c], b, 0, 0);
            law_no_zero_divisors(a[c] ^ b, x[c]);
        }
        let first = power_row(a, 0, v);
        assert(dot(first, x, v) == 0);
        lemma_dot_zeros(first, x, w);
        law_product_one(z);
        law_product_commutes(1, z);
        lemma_xor_group(0, z, 0, 0);
    }
}

/// The powers of distinct elements always tell the unknowns apart: as many
/// channels as there are elements make a system without dependent columns.
pub proof fn law_distinct_elements_are_told_apart(a: Seq<u64>, v: nat)
    requires
        forall|i: int, k: int| 0 <= i < k < v ==> #[trigger] a[i] != #[trigger] a[k],
    ensures
        !deficient(Seq::new(v, |j: int| power_row(a, j as nat, v)), v),
{
    let m = Seq::new(v, |j: int| power_row(a, j as nat, v));
    if deficient(m, v) {
        let x = choose|x: Seq<u64>| x.len() == v && nonzero(x, v) && #[trigger] kills(m, x, v);
        assert forall|j: nat| j < v implies dot(#[trigger] power_row(a, j, v), x, v) == 0 by {
            assert(m[j as int] == power_row(a, j, v));
        }
        lemma_powers_tell(a, x, v);
        let c = choose|c: int| 0 <= c < v && #[trigger] x[c] != 0;
        assert(x[c] == 0);
    }
}

} // verus!
