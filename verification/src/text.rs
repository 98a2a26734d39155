//! Numbers as text and as bytes.
use vstd::prelude::*;
use vstd::string::*;

verus! {

/// The hexadecimal digit of value `d`.
pub open spec fn digit_char(d: int) -> char {
    "0123456789abcdef"@[d]
}

/// The digits of `n` in base `base`, most significant first; a single zero
/// for zero.
pub open spec fn digits(n: nat, base: nat) -> Seq<char>
    decreases n,
{
    if base < 2 || n < base {
        seq![digit_char(n as int)]
    } else {
        proof {
            assert(n / base < n) by (nonlinear_arith)
                requires
                    2 <= base <= n,
            ;
        }
        digits(n / base, base).push(digit_char((n % base) as int))
    }
}

/// The text `s` with zeros put in front of it up to length `width`.
pub open spec fn zero_padded(s: Seq<char>, width: nat) -> Seq<char> {
    if s.len() >= width {
        s
    } else {
        Seq::new((width - s.len()) as nat, |i: int| '0') + s
    }
}

/// The value of a hexadecimal digit.
pub open spec fn digit_value(c: char) -> int {
    if '0' <= c <= '9' {
        c as int - '0' as int
    } else {
        c as int - 'a' as int + 10
    }
}

/// The character is a hexadecimal digit in lower case.
pub open spec fn is_hex(c: char) -> bool {
    ('0' <= c && c <= '9') || ('a' <= c && c <= 'f')
}

/// The number that the digits write in base `base`.
pub open spec fn written_value(s: Seq<char>, base: nat) -> int
    decreases s.len(),
{
    if s.len() == 0 {
        0
    } else {
        base * written_value(s.drop_last(), base) + digit_value(s.last())
    }
}

proof fn lemma_digit(d: int)
    requires
        0 <= d < 16,
    ensures
        digit_value(digit_char(d)) == d,
        is_hex(digit_char(d)),
{
    reveal_strlit("0123456789abcdef");
}

/// The digits of a number write it.
pub proof fn law_digits_write_the_number(n: nat, base: nat)
    requires
        2 <= base <= 16,
    ensures
        written_value(digits(n, base), base) == n,
        digits(n, base).len() > 0,
        forall|i: int| 0 <= i < digits(n, base).len() ==> is_hex(#[trigger] digits(n, base)[i]),
    decreases n,
{
    if n < base {
        let s = digits(n, base);
        lemma_digit(n as int);
        assert(s.drop_last() =~= Seq::empty());
        assert(base * written_value(s.drop_last(), base) == 0) by (nonlinear_arith)
            requires
                written_value(s.drop_last(), base) == 0,
        ;
    } else {
        let (q, d) = (n / base, n % base);
        assert(q < n && 0 <= d < base && base * q + d == n) by (nonlinear_arith)
            requires
                2 <= base <= n,
                q == n / base,
                d == n % base,
        ;
        law_digits_write_the_number(q, base);
        lemma_digit(d as int);
        let t = digits(q, base);
        let s = digits(n, base);
        assert(s == t.push(digit_char(d as int)));
        assert(s.drop_last() =~= t);
        assert forall|i: int| 0 <= i < s.len() implies is_hex(#[trigger] s[i]) by {
            if i < t.len() {
                assert(is_hex(t[i]));
            }
        }
    }
}

/// Zeros in front of the digits change nothing.
pub proof fn law_padding_writes_the_same(s: Seq<char>, width: nat, base: nat)
    requires
        forall|i: int| 0 <= i < s.len() ==> is_hex(#[trigger] s[i]),
    ensures
        written_value(zero_padded(s, width), base) == written_value(s, base),
        forall|i: int| 0 <= i < zero_padded(s, width).len() ==> is_hex(#[trigger] zero_padded(s, width)[i]),
{
    if s.len() < width {
        lemma_zeros_in_front((width - s.len()) as nat, s, base);
    }
}

proof fn lemma_zeros_in_front(n: nat, s: Seq<char>, base: nat)
    ensures
        written_value(Seq::new(n, |i: int| '0') + s, base) == written_value(s, base),
    decreases n, s.len(),
{
    let z = Seq::new(n, |i: int| '0');
    let t = z + s;
    if s.len() > 0 {
        lemma_zeros_in_front(n, s.drop_last(), base);
        assert(t.drop_last() =~= z + s.drop_last());
    } else if n > 0 {
        let m = (n - 1) as nat;
        lemma_zeros_in_front(m, s, base);
        assert(t.drop_last() =~= Seq::new(m, |i: int| '0') + s);
        assert(t.last() == '0');
        assert(base * 0 == 0);
    } else {
        assert(t =~= s);
    }
}

/// The digit of value `d` as text.
fn digit_str(d: u64) -> (s: &'static str)
    requires
        d < 16,
    ensures
        s@ == seq![digit_char(d as int)],
{
    proof {
        reveal_strlit("0123456789abcdef");
        reveal_strlit("0");
        reveal_strlit("1");
        reveal_strlit("2");
        reveal_strlit("3");
        reveal_strlit("4");
        reveal_strlit("5");
        reveal_strlit("6");
        reveal_strlit("7");
        reveal_strlit("8");
        reveal_strlit("9");
        reveal_strlit("a");
        reveal_strlit("b");
        reveal_strlit("c");
        reveal_strlit("d");
        reveal_strlit("e");
        reveal_strlit("f");
    }
    let s: &'static str = match d {
        0 => "0",
        1 => "1",
        2 => "2",
        3 => "3",
        4 => "4",
        5 => "5",
        6 => "6",
        7 => "7",
        8 => "8",
        9 => "9",
        10 => "a",
        11 => "b",
        12 => "c",
        13 => "d",
        14 => "e",
        _ => "f",
    };
    assert(s@ =~= seq![digit_char(d as int)]);
    s
}

/// The number `n` written in base `base`.
fn in_base(n: u64, base: u64) -> (s: String)
    requires
        2 <= base <= 16,
    ensures
        s@ == digits(n as nat, base as nat),
    decreases n,
{
    if n < base {
        digit_str(n).to_owned()
    } else {
        let q: u64 = n / base;
        let d: u64 = n % base;
        assert(q < n) by (nonlinear_arith)
            requires
                q == n / base,
                2 <= base <= n,
        ;
        let mut s: String = in_base(q, base);
        let ghost head = s@;
        s.append(digit_str(d));
        assert(s@ =~= head.push(digit_char(d as int)));
        s
    }
}

/// The number `n` in decimal.
pub fn decimal(n: u64) -> (s: String)
    ensures
        s@ == digits(n as nat, 10),
{
    in_base(n, 10)
}

/// The number `n` in hexadecimal, at least `width` digits wide.
pub fn hex_padded(n: u64, width: usize) -> (s: String)
    ensures
        s@ == zero_padded(digits(n as nat, 16), width as nat),
{
    let body: String = in_base(n, 16);
    let len: usize = body.as_str().unicode_len();
    if len >= width {
        body
    } else {
        let mut s: String = String::new();
        let mut i: usize = len;
        while i < width
            invariant
                len <= i <= width,
                s@ == Seq::new((i - len) as nat, |k: int| '0'),
            decreases width - i,
        {
            proof {
                reveal_strlit("0");
            }
            s.append("0");
            i += 1;
            assert(s@ =~= Seq::new((i - len) as nat, |k: int| '0'));
        }
        s.append(body.as_str());
        s
    }
}

/// The big-endian bytes of `x`.
pub open spec fn be_bytes(x: u64) -> Seq<u8> {
    seq![
        (x >> 56) as u8,
        (x >> 48) as u8,
        (x >> 40) as u8,
        (x >> 32) as u8,
        (x >> 24) as u8,
        (x >> 16) as u8,
        (x >> 8) as u8,
        x as u8,
    ]
}

/// Different numbers have different bytes.
pub proof fn lemma_be_bytes_differ(x: u64, y: u64)
    requires
        be_bytes(x) == be_bytes(y),
    ensures
        x == y,
{
    let a = be_bytes(x);
    let b = be_bytes(y);
    assert(a[0] == b[0] && a[1] == b[1] && a[2] == b[2] && a[3] == b[3]);
    assert(a[4] == b[4] && a[5] == b[5] && a[6] == b[6] && a[7] == b[7]);
    assert(x == y) by (bit_vector)
        requires
            (x >> 56) as u8 == (y >> 56) as u8,
            (x >> 48) as u8 == (y >> 48) as u8,
            (x >> 40) as u8 == (y >> 40) as u8,
            (x >> 32) as u8 == (y >> 32) as u8,
            (x >> 24) as u8 == (y >> 24) as u8,
            (x >> 16) as u8 == (y >> 16) as u8,
            (x >> 8) as u8 == (y >> 8) as u8,
            x as u8 == y as u8,
    ;
}

/// The big-endian bytes of `x`.
pub open spec fn be_bytes_u32(x: u32) -> Seq<u8> {
    seq![(x >> 24) as u8, (x >> 16) as u8, (x >> 8) as u8, x as u8]
}

/// Puts the big-endian bytes of `x` at the end of `buf`.
pub fn push_be(buf: &mut Vec<u8>, x: u64)
    ensures
        final(buf)@ == old(buf)@ + be_bytes(x),
{
    buf.push((x >> 56) as u8);
    buf.push((x >> 48) as u8);
    buf.push((x >> 40) as u8);
    buf.push((x >> 32) as u8);
    buf.push((x >> 24) as u8);
    buf.push((x >> 16) as u8);
    buf.push((x >> 8) as u8);
    buf.push(x as u8);
    assert(buf@ =~= old(buf)@ + be_bytes(x));
}

/// Puts the big-endian bytes of `x` at the end of `buf`.
pub fn push_be_u32(buf: &mut Vec<u8>, x: u32)
    ensures
        final(buf)@ == old(buf)@ + be_bytes_u32(x),
{
    buf.push((x >> 24) as u8);
    buf.push((x >> 16) as u8);
    buf.push((x >> 8) as u8);
    buf.push(x as u8);
    assert(buf@ =~= old(buf)@ + be_bytes_u32(x));
}

/// The characters of the text.
pub fn chars_of(s: &str) -> (r: Vec<char>)
    ensures
        r@ == s@,
{
    let mut out: Vec<char> = Vec::new();
    for c in it: s.chars()
        invariant
            out@ == it.seq().take(it.index()),
            it.seq() == s@,
    {
        out.push(c);
        assert(out@ =~= it.seq().take(it.index() + 1));
    }
    assert(out@ =~= s@);
    out
}

/// `String::push`: appends the character to the text.
pub assume_specification[ String::push ](s: &mut String, c: char)
    ensures
        final(s)@ == old(s)@.push(c),
;

/// The text of the characters from the one place up to the other.
pub fn text_between(chars: &Vec<char>, from: usize, to: usize) -> (s: String)
    requires
        from <= to <= chars@.len(),
    ensures
        s@ == chars@.subrange(from as int, to as int),
{
    let mut s: String = String::new();
    let mut i: usize = from;
    assert(s@ =~= chars@.subrange(from as int, i as int));
    while i < to
        invariant
            from <= i <= to <= chars@.len(),
            s@ == chars@.subrange(from as int, i as int),
        decreases to - i,
    {
        s.push(chars[i]);
        assert(s@ =~= chars@.subrange(from as int, i + 1));
        i += 1;
    }
    s
}

/// The character is a decimal digit.
pub open spec fn is_digit(c: char) -> bool {
    '0' <= c && c <= '9'
}

/// The value of the digits.
pub open spec fn digits_value(s: Seq<char>) -> nat
    decreases s.len(),
{
    if s.len() == 0 {
        0
    } else {
        10 * digits_value(s.drop_last()) + (s.last() as int - '0' as int) as nat
    }
}

/// All characters are digits, and there are some.
pub open spec fn all_digits(s: Seq<char>) -> bool {
    s.len() > 0 && forall|i: int| 0 <= i < s.len() ==> is_digit(#[trigger] s[i])
}

/// The digits of a number, a plus sign in front of them left out.
pub open spec fn unsigned_part(s: Seq<char>) -> Seq<char> {
    if s.len() > 1 && s[0] == '+' {
        s.subrange(1, s.len() as int)
    } else {
        s
    }
}

/// The number that the text writes, if it is one and fits the limit.
pub open spec fn parsed(s: Seq<char>, max: nat) -> Option<nat> {
    let d = unsigned_part(s);
    if all_digits(d) && digits_value(d) <= max {
        Some(digits_value(d))
    } else {
        None
    }
}

/// More digits do not make a smaller number.
proof fn lemma_digits_grow(s: Seq<char>, i: int)
    requires
        0 <= i <= s.len(),
    ensures
        digits_value(s.take(i)) <= digits_value(s),
    decreases s.len(),
{
    if i == s.len() {
        assert(s.take(i) =~= s);
    } else {
        assert(s.drop_last().take(i) =~= s.take(i));
        lemma_digits_grow(s.drop_last(), i);
    }
}

/// The number that the characters from the place on write, if they are
/// digits and it fits the limit.
pub fn parse_digits(chars: &Vec<char>, from: usize, max: u64) -> (r: Option<u64>)
    requires
        from <= chars@.len(),
    ensures
        ({
            let d = chars@.subrange(from as int, chars@.len() as int);
            match r {
                Some(n) => all_digits(d) && n == digits_value(d) && n <= max,
                None => !(all_digits(d) && digits_value(d) <= max),
            }
        }),
{
    let ghost d = chars@.subrange(from as int, chars@.len() as int);
    if from == chars.len() {
        return None;
    }
    let mut n: u64 = 0;
    let mut i: usize = from;
    assert(d.take(0) =~= Seq::empty());
    while i < chars.len()
        invariant
            from <= i <= chars@.len(),
            d == chars@.subrange(from as int, chars@.len() as int),
            forall|j: int| 0 <= j < i - from ==> is_digit(#[trigger] d[j]),
            n == digits_value(d.take(i - from)),
            n <= max,
        decreases chars@.len() - i,
    {
        let c = chars[i];
        assert(d[i - from] == c);
        if !('0' <= c && c <= '9') {
            assert(!is_digit(d[i - from]));
            return None;
        }
        let v = c as u64 - '0' as u64;
        proof {
            assert(d.take(i - from + 1).drop_last() =~= d.take(i - from));
            assert(d.take(i - from + 1).last() == c);
            lemma_digits_grow(d, i - from + 1);
        }
        if n > max / 10 || v > max - 10 * n {
            assert(10 * n + v > max) by (nonlinear_arith)
                requires
                    n > max / 10 || v > max - 10 * n,
                    0 <= v,
                    0 <= max,
            ;
            return None;
        }
        n = 10 * n + v;
        i += 1;
    }
    assert(d.take(i - from) =~= d);
    Some(n)
}

/// The number that the text writes, if it is one and fits a `u32`.
pub fn parse_u32(s: &str) -> (r: Option<u32>)
    ensures
        match r {
            Some(n) => parsed(s@, u32::MAX as nat) == Some(n as nat),
            None => parsed(s@, u32::MAX as nat) is None,
        },
{
    let chars = chars_of(s);
    let from: usize = if chars.len() > 1 && chars[0] == '+' {
        1
    } else {
        0
    };
    assert(chars@.subrange(0, chars@.len() as int) =~= chars@);
    match parse_digits(&chars, from, u32::MAX as u64) {
        None => None,
        Some(n) => Some(n as u32),
    }
}

/// The number that the text writes, if it is one and fits a `usize`.
pub fn parse_usize(s: &str) -> (r: Option<usize>)
    ensures
        match r {
            Some(n) => parsed(s@, usize::MAX as nat) == Some(n as nat),
            None => parsed(s@, usize::MAX as nat) is None,
        },
{
    let chars = chars_of(s);
    let from: usize = if chars.len() > 1 && chars[0] == '+' {
        1
    } else {
        0
    };
    assert(chars@.subrange(0, chars@.len() as int) =~= chars@);
    match parse_digits(&chars, from, usize::MAX as u64) {
        None => None,
        Some(n) => Some(n as usize),
    }
}

proof fn lemma_decimal_value(s: Seq<char>)
    requires
        forall|i: int| 0 <= i < s.len() ==> is_digit(#[trigger] s[i]),
    ensures
        written_value(s, 10) == digits_value(s),
    decreases s.len(),
{
    if s.len() > 0 {
        let d = s.drop_last();
        assert forall|i: int| 0 <= i < d.len() implies is_digit(#[trigger] d[i]) by {
            assert(s[i] == d[i]);
        }
        lemma_decimal_value(d);
        assert(is_digit(s[s.len() - 1]));
    }
}

proof fn lemma_decimal_digits(n: nat)
    ensures
        digits(n, 10).len() > 0,
        forall|i: int| 0 <= i < digits(n, 10).len() ==> is_digit(#[trigger] digits(n, 10)[i]),
    decreases n,
{
    reveal_strlit("0123456789abcdef");
    if n >= 10 {
        lemma_decimal_digits(n / 10);
        let t = digits(n / 10, 10);
        assert forall|i: int| 0 <= i < digits(n, 10).len() implies is_digit(#[trigger] digits(n, 10)[i]) by {
            if i < t.len() {
                assert(is_digit(t[i]));
            }
        }
    }
}

/// A number written in decimal is read back, with or without a plus sign, if it fits;
/// what is no digit makes the text no number.
pub proof fn law_numbers_are_read_back(n: nat, max: nat, s: Seq<char>, k: int)
    ensures
        n <= max ==> parsed(digits(n, 10), max) == Some(n) && parsed(seq!['+'] + digits(n, 10), max) == Some(n),
        n > max ==> parsed(digits(n, 10), max) is None,
        1 <= k < s.len() && !('0' <= s[k] && s[k] <= '9') ==> parsed(s, max) is None,
        s.len() > 0 && !('0' <= s[0] && s[0] <= '9') && s[0] != '+' ==> parsed(s, max) is None,
        s.len() == 0 ==> parsed(s, max) is None,
{
    let d = digits(n, 10);
    lemma_decimal_digits(n);
    law_digits_write_the_number(n, 10);
    lemma_decimal_value(d);
    assert(is_digit(d[0]));
    let p = seq!['+'] + d;
    assert(p.subrange(1, p.len() as int) =~= d);
    if 1 <= k < s.len() && !('0' <= s[k] && s[k] <= '9') {
        let u = unsigned_part(s);
        if s[0] == '+' {
            assert(u[k - 1] == s[k]);
        } else {
            assert(u[k] == s[k]);
        }
    }
    if s.len() > 0 && !('0' <= s[0] && s[0] <= '9') && s[0] != '+' {
        assert(unsigned_part(s)[0] == s[0]);
    }
}

} // verus!
