//! Arithmetic in the field of 2^64 elements: polynomials over the bits modulo
//! `x^64 + x^4 + x^3 + x + 1`.  Addition is exclusive or.
use vstd::prelude::*;

verus! {

/// The element `a` times `x`.
pub open spec fn times_x(a: u64) -> u64 {
    (a << 1) ^ (if a >> 63 == 1 {
        0x1Bu64
    } else {
        0u64
    })
}

/// The product of two elements.
pub open spec fn product(a: u64, b: u64) -> u64
    decreases b,
{
    if b == 0 {
        0u64
    } else {
        proof {
            assert(b != 0 ==> b >> 1 < b) by (bit_vector);
        }
        (if b & 1 == 1 {
            a
        } else {
            0u64
        }) ^ times_x(product(a, b >> 1))
    }
}

/// The square of an element.
pub open spec fn square(a: u64) -> u64 {
    product(a, a)
}

/// The cube of an element.
pub open spec fn cubed(a: u64) -> u64 {
    product(square(a), a)
}

/// The element squared `n` times over.
pub open spec fn squared(a: u64, n: nat) -> u64
    decreases n,
{
    if n == 0 {
        a
    } else {
        square(squared(a, (n - 1) as nat))
    }
}

/// The product of `a` and its first `n - 1` repeated squares.
pub open spec fn ladder(a: u64, n: nat) -> u64
    decreases n,
{
    if n == 0 {
        1u64
    } else {
        product(ladder(a, (n - 1) as nat), squared(a, (n - 1) as nat))
    }
}

/// The inverse of an element other than zero; zero for zero.
pub open spec fn inverse(a: u64) -> u64 {
    square(ladder(a, 63))
}

// ---------------------------------------------------------------------------
// Ring laws
// ---------------------------------------------------------------------------

proof fn lemma_xor(a: u64, b: u64, c: u64)
    ensures
        a ^ b == b ^ a,
        a ^ (b ^ c) == (a ^ b) ^ c,
        a ^ 0 == a,
        0 ^ a == a,
        a ^ a == 0,
{
    assert(a ^ b == b ^ a && a ^ (b ^ c) == (a ^ b) ^ c && a ^ 0 == a && 0 ^ a == a && a ^ a == 0)
        by (bit_vector);
}

/// `(a ^ b) ^ (c ^ d)` in another order.
proof fn lemma_xor_swap(a: u64, b: u64, c: u64, d: u64)
    ensures
        (a ^ b) ^ (c ^ d) == (a ^ c) ^ (b ^ d),
{
    assert((a ^ b) ^ (c ^ d) == (a ^ c) ^ (b ^ d)) by (bit_vector);
}

proof fn lemma_times_x(a: u64, b: u64)
    ensures
        times_x(a ^ b) == times_x(a) ^ times_x(b),
        times_x(0) == 0,
{
    assert(times_x(a ^ b) == times_x(a) ^ times_x(b)) by (bit_vector);
    assert(times_x(0) == 0) by (bit_vector);
}

/// The lowest bit of an element and the rest, as a multiple of `x`.
proof fn lemma_split(b: u64)
    ensures
        b == (b & 1) ^ times_x(b >> 1),
        b != 0 ==> b >> 1 < b,
        b & 1 == 0 || b & 1 == 1,
{
    assert(b == (b & 1) ^ times_x(b >> 1)) by (bit_vector);
    assert(b != 0 ==> b >> 1 < b) by (bit_vector);
    assert(b & 1 == 0 || b & 1 == 1) by (bit_vector);
}

/// Multiplication spreads over addition, on the left.
pub proof fn law_product_adds_left(a: u64, b: u64, c: u64)
    ensures
        product(a ^ b, c) == product(a, c) ^ product(b, c),
    decreases c,
{
    if c == 0 {
        lemma_xor(0, 0, 0);
    } else {
        let h = c >> 1;
        lemma_split(c);
        law_product_adds_left(a, b, h);
        lemma_times_x(product(a, h), product(b, h));
        let (x, y) = (times_x(product(a, h)), times_x(product(b, h)));
        lemma_xor(0, 0, 0);
        lemma_xor(x, y, 0);
        lemma_xor(y, 0, 0);
        lemma_xor(x ^ y, 0, 0);
        if c & 1 == 1 {
            lemma_xor_swap(a, b, x, y);
        }
    }
}

/// Multiplying by `x` commutes with multiplication.
proof fn lemma_times_x_left(a: u64, b: u64)
    ensures
        product(times_x(a), b) == times_x(product(a, b)),
    decreases b,
{
    lemma_times_x(0, 0);
    if b != 0 {
        let h = b >> 1;
        lemma_split(b);
        lemma_times_x_left(a, h);
        let p = times_x(product(a, h));
        lemma_times_x(a, p);
        lemma_times_x(0, p);
    }
}

/// One is neutral.
pub proof fn law_product_one(a: u64)
    ensures
        product(1, a) == a,
        product(a, 1) == a,
        product(a, 0) == 0,
        product(0, a) == 0,
    decreases a,
{
    lemma_xor(a, 0, 0);
    lemma_times_x(0, 0);
    assert(1u64 & 1 == 1u64 && 1u64 >> 1 == 0u64) by (bit_vector);
    assert(product(a, 1u64 >> 1) == 0);
    if a != 0 {
        lemma_split(a);
        law_product_one(a >> 1);
        lemma_xor(0, 0, 0);
    }
}

/// Multiplication commutes.
pub proof fn law_product_commutes(a: u64, b: u64)
    ensures
        product(a, b) == product(b, a),
    decreases b,
{
    law_product_one(a);
    if b != 0 {
        let h = b >> 1;
        lemma_split(b);
        law_product_commutes(a, h);
        law_product_adds_left(b & 1, times_x(h), a);
        lemma_times_x_left(h, a);
    }
}

/// Multiplication spreads over addition, on the right.
pub proof fn law_product_adds_right(a: u64, b: u64, c: u64)
    ensures
        product(a, b ^ c) == product(a, b) ^ product(a, c),
{
    law_product_commutes(a, b ^ c);
    law_product_commutes(a, b);
    law_product_commutes(a, c);
    law_product_adds_left(b, c, a);
}

proof fn lemma_times_x_right(a: u64, b: u64)
    ensures
        product(a, times_x(b)) == times_x(product(a, b)),
{
    law_product_commutes(a, times_x(b));
    law_product_commutes(a, b);
    lemma_times_x_left(b, a);
}

/// Multiplication is associative.
pub proof fn law_product_associates(a: u64, b: u64, c: u64)
    ensures
        product(product(a, b), c) == product(a, product(b, c)),
    decreases c,
{
    law_product_one(a);
    if c != 0 {
        let h = c >> 1;
        lemma_split(c);
        law_product_associates(a, b, h);
        let low = if c & 1 == 1 {
            b
        } else {
            0u64
        };
        law_product_adds_right(a, low, times_x(product(b, h)));
        lemma_times_x_right(a, product(b, h));
    }
}

// ---------------------------------------------------------------------------
// Squares and inverses
// ---------------------------------------------------------------------------

/// The bits of the low half of `a`, a zero between every two.
spec fn spread(a: u64) -> u64 {
    let x0 = a & 0xFFFF_FFFFu64;
    let x1 = (x0 | (x0 << 16)) & 0x0000_FFFF_0000_FFFFu64;
    let x2 = (x1 | (x1 << 8)) & 0x00FF_00FF_00FF_00FFu64;
    let x3 = (x2 | (x2 << 4)) & 0x0F0F_0F0F_0F0F_0F0Fu64;
    let x4 = (x3 | (x3 << 2)) & 0x3333_3333_3333_3333u64;
    (x4 | (x4 << 1)) & 0x5555_5555_5555_5555u64
}

/// The element `h * x^64`, reduced.
spec fn fold(h: u64) -> u64 {
    let over = (h >> 63) ^ (h >> 61) ^ (h >> 60);
    h ^ (h << 1) ^ (h << 3) ^ (h << 4) ^ over ^ (over << 1) ^ (over << 3) ^ (over << 4)
}

/// The square of `a`, bit by bit.
spec fn square_bits(a: u64) -> u64 {
    spread(a) ^ fold(spread(a >> 32))
}

proof fn lemma_square_bits_steps(a: u64, b: u64)
    ensures
        square_bits(times_x(a)) == times_x(times_x(square_bits(a))),
        square_bits(a ^ b) == square_bits(a) ^ square_bits(b),
        square_bits(0) == 0,
        square_bits(1) == 1,
{
    assert(square_bits(times_x(a)) == times_x(times_x(square_bits(a)))) by (bit_vector);
    assert(square_bits(a ^ b) == square_bits(a) ^ square_bits(b)) by (bit_vector);
    assert(square_bits(0) == 0 && square_bits(1) == 1) by (bit_vector);
}

/// Squaring adds up.
pub proof fn law_square_adds(a: u64, b: u64)
    ensures
        square(a ^ b) == square(a) ^ square(b),
{
    law_product_adds_left(a, b, a ^ b);
    law_product_adds_right(a, a, b);
    law_product_adds_right(b, a, b);
    law_product_commutes(a, b);
    let (aa, ab, bb) = (product(a, a), product(a, b), product(b, b));
    assert((aa ^ ab) ^ (ab ^ bb) == aa ^ bb) by (bit_vector);
}

/// The square of a product is the product of the squares.
pub proof fn law_square_multiplies(a: u64, b: u64)
    ensures
        square(product(a, b)) == product(square(a), square(b)),
{
    let ab = product(a, b);
    law_product_associates(a, b, ab);
    law_product_commutes(b, ab);
    law_product_associates(a, b, b);
    law_product_associates(a, a, square(b));
}

proof fn lemma_square_bits(a: u64)
    ensures
        square(a) == square_bits(a),
    decreases a,
{
    if a == 0 {
        lemma_square_bits_steps(0, 0);
    } else {
        let h = a >> 1;
        let low = a & 1;
        lemma_split(a);
        lemma_square_bits(h);
        lemma_square_bits_steps(h, 0);
        lemma_square_bits_steps(low, times_x(h));
        law_square_adds(low, times_x(h));
        lemma_times_x_left(h, times_x(h));
        lemma_times_x_right(h, h);
        law_product_one(low);
        law_product_one(1);
    }
}

spec fn square_bits_8(a: u64) -> u64 {
    square_bits(
        square_bits(
            square_bits(square_bits(square_bits(square_bits(square_bits(square_bits(a)))))),
        ),
    )
}

proof fn lemma_squared_8(a: u64, n: nat)
    ensures
        squared(a, n + 8) == square_bits_8(squared(a, n)),
{
    let s = squared(a, n);
    reveal_with_fuel(squared, 9);
    lemma_square_bits(s);
    lemma_square_bits(squared(a, n + 1));
    lemma_square_bits(squared(a, n + 2));
    lemma_square_bits(squared(a, n + 3));
    lemma_square_bits(squared(a, n + 4));
    lemma_square_bits(squared(a, n + 5));
    lemma_square_bits(squared(a, n + 6));
    lemma_square_bits(squared(a, n + 7));
}

proof fn lemma_squared_x()
    ensures
        squared(2, 64) == 2,
{
    lemma_squared_8(2, 0);
    lemma_squared_8(2, 8);
    lemma_squared_8(2, 16);
    lemma_squared_8(2, 24);
    lemma_squared_8(2, 32);
    lemma_squared_8(2, 40);
    lemma_squared_8(2, 48);
    lemma_squared_8(2, 56);
    assert(square_bits_8(
        square_bits_8(
            square_bits_8(
                square_bits_8(square_bits_8(square_bits_8(square_bits_8(square_bits_8(2))))),
            ),
        ),
    ) == 2) by (bit_vector);
}

proof fn lemma_squared_adds(a: u64, b: u64, n: nat)
    ensures
        squared(a ^ b, n) == squared(a, n) ^ squared(b, n),
    decreases n,
{
    if n > 0 {
        lemma_squared_adds(a, b, (n - 1) as nat);
        law_square_adds(squared(a, (n - 1) as nat), squared(b, (n - 1) as nat));
    }
}

proof fn lemma_squared_multiplies(a: u64, b: u64, n: nat)
    ensures
        squared(product(a, b), n) == product(squared(a, n), squared(b, n)),
    decreases n,
{
    if n > 0 {
        lemma_squared_multiplies(a, b, (n - 1) as nat);
        law_square_multiplies(squared(a, (n - 1) as nat), squared(b, (n - 1) as nat));
    }
}

proof fn lemma_squared_bit(a: u64, n: nat)
    requires
        a == 0 || a == 1,
    ensures
        squared(a, n) == a,
    decreases n,
{
    law_product_one(a);
    if n > 0 {
        lemma_squared_bit(a, (n - 1) as nat);
    }
}

/// Squared as often as there are bits, every element comes back.
pub proof fn law_squaring_comes_round(a: u64)
    ensures
        squared(a, 64) == a,
    decreases a,
{
    if a == 0 {
        lemma_squared_bit(0, 64);
    } else {
        let h = a >> 1;
        let low = a & 1;
        lemma_split(a);
        law_squaring_comes_round(h);
        lemma_squared_bit(low, 64);
        lemma_squared_adds(low, times_x(h), 64);
        lemma_times_x_left(1, h);
        law_product_one(h);
        assert(times_x(1) == 2) by (bit_vector);
        lemma_squared_multiplies(2, h, 64);
        lemma_squared_x();
    }
}

/// The only elements that are their own squares are zero and one.
pub proof fn law_own_squares(e: u64)
    requires
        square(e) == e,
    ensures
        e == 0 || e == 1,
{
    lemma_square_bits(e);
    assert(square_bits(e) == e ==> (e == 0 || e == 1)) by (bit_vector);
}

proof fn lemma_ladder(a: u64, n: nat)
    ensures
        product(a, square(ladder(a, n))) == ladder(a, n + 1),
        product(a, ladder(a, n)) == squared(a, n),
    decreases n,
{
    law_product_one(a);
    law_product_one(1);
    if n > 0 {
        let m = (n - 1) as nat;
        lemma_ladder(a, m);
        let (l, s) = (ladder(a, m), squared(a, m));
        law_square_multiplies(l, s);
        law_product_associates(a, square(l), square(s));
        law_product_associates(a, l, s);
        assert(ladder(a, n + 1) == product(ladder(a, n), squared(a, n)));
    } else {
        assert(ladder(a, 1) == product(ladder(a, 0), squared(a, 0)));
    }
}

/// An element other than zero times its inverse is one.
pub proof fn law_inverse(a: u64)
    requires
        a != 0,
    ensures
        product(a, inverse(a)) == 1,
{
    let r = inverse(a);
    let e = product(a, r);
    lemma_ladder(a, 63);
    lemma_ladder(a, 64);
    assert(e == ladder(a, 64));
    law_squaring_comes_round(a);
    assert(product(a, e) == a);
    law_product_commutes(a, r);
    law_product_associates(r, a, e);
    law_own_squares(e);
    law_product_one(a);
}

/// A product is zero only if a factor is.
pub proof fn law_no_zero_divisors(a: u64, b: u64)
    requires
        product(a, b) == 0,
    ensures
        a == 0 || b == 0,
{
    if a != 0 {
        law_inverse(a);
        law_product_commutes(a, inverse(a));
        law_product_associates(inverse(a), a, b);
        law_product_one(b);
        law_product_one(inverse(a));
    }
}

/// Cubing multiplies.
pub proof fn law_cube_multiplies(a: u64, b: u64)
    ensures
        cubed(product(a, b)) == product(cubed(a), cubed(b)),
{
    let (sa, sb) = (square(a), square(b));
    law_square_multiplies(a, b);
    // (sa sb)(a b) == (sa a)(sb b)
    law_product_associates(sa, sb, product(a, b));
    law_product_associates(sb, a, b);
    law_product_commutes(sb, a);
    law_product_associates(a, sb, b);
    law_product_associates(sa, a, product(sb, b));
}

// ---------------------------------------------------------------------------
// Execution
// ---------------------------------------------------------------------------

/// The product of two elements.
pub fn mul(a: u64, b: u64) -> (r: u64)
    ensures
        r == product(a, b),
{
    let mut r: u64 = 0;
    let mut i: u64 = 64;
    assert(product(a, 0) == 0);
    while i > 0
        invariant
            i <= 64,
            i == 64 ==> r == 0,
            i < 64 ==> r == product(a, b >> i),
        decreases i,
    {
        let top: u64 = r >> 63;
        let carry: u64 = if top == 1 {
            0x1B
        } else {
            0
        };
        let ghost prev = r;
        r = (r << 1) ^ carry;
        assert(r == times_x(prev));
        i -= 1;
        let bit: u64 = (b >> i) & 1;
        proof {
            let t = b >> i;
            assert(i < 63 ==> (b >> i) >> 1 == b >> ((i + 1) as u64)) by (bit_vector)
                requires
                    i < 64,
            ;
            assert(i == 63 ==> (b >> i) >> 1 == 0) by (bit_vector)
                requires
                    i < 64,
            ;
            assert(prev == product(a, t >> 1));
            lemma_times_x(0, 0);
            lemma_xor(0, 0, 0);
            lemma_xor(a, r, 0);
            if t == 0 {
                assert(0u64 >> 1 == 0u64 && 0u64 & 1 == 0u64) by (bit_vector);
            }
        }
        if bit == 1 {
            r = a ^ r;
        } else {
            proof {
                lemma_split(b >> i);
                lemma_xor(r, 0, 0);
            }
        }
    }
    assert(b >> 0 == b) by (bit_vector);
    r
}

/// The square of an element.
pub fn sq(a: u64) -> (r: u64)
    ensures
        r == square(a),
{
    self::mul(a, a)
}

/// The cube of an element.
pub fn cube(a: u64) -> (r: u64)
    ensures
        r == cubed(a),
{
    self::mul(sq(a), a)
}

/// The inverse of an element; zero for zero.
pub fn inv(a: u64) -> (r: u64)
    ensures
        r == inverse(a),
        a != 0 ==> product(a, r) == 1,
        a == 0 ==> r == 0,
{
    let mut l: u64 = 1;
    let mut s: u64 = a;
    let mut n: u64 = 0;
    while n < 63
        invariant
            n <= 63,
            l == ladder(a, n as nat),
            s == squared(a, n as nat),
        decreases 63 - n,
    {
        l = self::mul(l, s);
        s = sq(s);
        n += 1;
    }
    proof {
        if a != 0 {
            law_inverse(a);
        } else {
            lemma_zero_ladder();
        }
    }
    sq(l)
}

proof fn lemma_zero_ladder()
    ensures
        inverse(0) == 0,
{
    let l = ladder(0, 62);
    lemma_squared_bit(0, 62);
    law_product_one(l);
    assert(ladder(0, 63) == product(l, squared(0, 62)));
    law_product_one(0);
}

} // verus!
