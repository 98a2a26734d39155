//! Searching a text: passages, lines and white space.
use vstd::prelude::*;

use crate::text::text_between;

verus! {

/// The passage `pat` stands in `s` at place `i`.
pub open spec fn occurs_at(s: Seq<char>, pat: Seq<char>, i: int) -> bool {
    &&& 0 <= i
    &&& i + pat.len() <= s.len()
    &&& s.subrange(i, i + pat.len()) == pat
}

/// The passage `pat` stands somewhere in `s`.
pub open spec fn has_text(s: Seq<char>, pat: Seq<char>) -> bool {
    exists|i: int| #[trigger] occurs_at(s, pat, i)
}

/// The first place of `pat` in `s` from `from` on.
pub open spec fn first_at(s: Seq<char>, pat: Seq<char>, from: int) -> Option<int>
    decreases s.len() + 1 - from,
{
    if from > s.len() {
        None
    } else if occurs_at(s, pat, from) {
        Some(from)
    } else {
        first_at(s, pat, from + 1)
    }
}

/// Whether two texts are the same.
pub fn same_text(a: &str, b: &str) -> (r: bool)
    ensures
        r == (a@ == b@),
{
    a.to_owned() == b.to_owned()
}

/// Whether the passage stands at the place.
pub fn stands_at(s: &Vec<char>, pat: &Vec<char>, i: usize) -> (r: bool)
    ensures
        r == occurs_at(s@, pat@, i as int),
{
    let total: usize = s.len();
    if i > total || pat.len() > total - i {
        return false;
    }
    let mut k: usize = 0;
    while k < pat.len()
        invariant
            k <= pat@.len(),
            total == s@.len(),
            i + pat@.len() <= s@.len(),
            s@.subrange(i as int, i + k) == pat@.take(k as int),
        decreases pat@.len() - k,
    {
        if s[i + k] != pat[k] {
            assert(s@.subrange(i as int, i + pat@.len())[k as int] != pat@[k as int]);
            return false;
        }
        assert(s@.subrange(i as int, i + k + 1) =~= pat@.take(k + 1));
        k += 1;
    }
    assert(pat@.take(k as int) =~= pat@);
    true
}

/// The first place of the passage from `from` on.
pub fn find_from(s: &Vec<char>, pat: &Vec<char>, from: usize) -> (r: Option<usize>)
    ensures
        match r {
            Some(i) => first_at(s@, pat@, from as int) == Some(i as int) && i + pat@.len() <= s@.len() && from <= i,
            None => first_at(s@, pat@, from as int) is None,
        },
{
    let mut i: usize = from;
    if from > s.len() {
        return None;
    }
    while i < s.len()
        invariant
            from <= i <= s@.len(),
            first_at(s@, pat@, from as int) == first_at(s@, pat@, i as int),
        decreases s@.len() - i,
    {
        if stands_at(s, pat, i) {
            return Some(i);
        }
        i += 1;
    }
    if stands_at(s, pat, i) {
        Some(i)
    } else {
        assert(first_at(s@, pat@, i + 1) is None);
        None
    }
}

proof fn lemma_first(s: Seq<char>, pat: Seq<char>, from: int)
    requires
        0 <= from,
    ensures
        first_at(s, pat, from) is Some <==> exists|i: int| from <= i && #[trigger] occurs_at(s, pat, i),
    decreases s.len() + 1 - from,
{
    if from <= s.len() && !occurs_at(s, pat, from) {
        lemma_first(s, pat, from + 1);
    }
}

/// Whether the passage stands somewhere in the text.
pub fn contains_text(s: &Vec<char>, pat: &str) -> (r: bool)
    ensures
        r == has_text(s@, pat@),
{
    let p: Vec<char> = crate::text::chars_of(pat);
    proof {
        lemma_first(s@, pat@, 0);
    }
    find_from(s, &p, 0).is_some()
}

/// The characters that count as white space.
pub open spec fn white(c: char) -> bool {
    ||| '\u{9}' <= c <= '\u{d}'
    ||| c == ' '
    ||| c == '\u{85}'
    ||| c == '\u{a0}'
    ||| c == '\u{1680}'
    ||| '\u{2000}' <= c <= '\u{200a}'
    ||| c == '\u{2028}'
    ||| c == '\u{2029}'
    ||| c == '\u{202f}'
    ||| c == '\u{205f}'
    ||| c == '\u{3000}'
}

/// Whether the character is white space.
pub fn is_white(c: char) -> (r: bool)
    ensures
        r == white(c),
{
    ('\u{9}' <= c && c <= '\u{d}') || c == ' ' || c == '\u{85}' || c == '\u{a0}' || c == '\u{1680}' || ('\u{2000}' <= c
        && c <= '\u{200a}') || c == '\u{2028}' || c == '\u{2029}' || c == '\u{202f}' || c == '\u{205f}' || c
        == '\u{3000}'
}

/// The text without the white space before it.
pub open spec fn front_trimmed(s: Seq<char>) -> Seq<char>
    decreases s.len(),
{
    if s.len() > 0 && white(s[0]) {
        front_trimmed(s.subrange(1, s.len() as int))
    } else {
        s
    }
}

/// The text without the white space after it.
pub open spec fn back_trimmed(s: Seq<char>) -> Seq<char>
    decreases s.len(),
{
    if s.len() > 0 && white(s.last()) {
        back_trimmed(s.drop_last())
    } else {
        s
    }
}

/// The text without the white space around it.
pub open spec fn trimmed(s: Seq<char>) -> Seq<char> {
    back_trimmed(front_trimmed(s))
}

/// The text from the one place up to the other, without the white space
/// around it.
pub fn trim_between(s: &Vec<char>, from: usize, to: usize) -> (r: String)
    requires
        from <= to <= s@.len(),
    ensures
        r@ == trimmed(s@.subrange(from as int, to as int)),
{
    let mut a: usize = from;
    let mut b: usize = to;
    while a < to && is_white(s[a])
        invariant
            from <= a <= to <= s@.len(),
            front_trimmed(s@.subrange(from as int, to as int)) == front_trimmed(s@.subrange(a as int, to as int)),
        decreases to - a,
    {
        let ghost rest = s@.subrange(a as int, to as int);
        assert(rest.subrange(1, rest.len() as int) =~= s@.subrange(a + 1, to as int));
        a += 1;
    }
    assert(front_trimmed(s@.subrange(a as int, to as int)) == s@.subrange(a as int, to as int));
    while b > a && is_white(s[b - 1])
        invariant
            a <= b <= to <= s@.len(),
            back_trimmed(s@.subrange(a as int, to as int)) == back_trimmed(s@.subrange(a as int, b as int)),
        decreases b - a,
    {
        let ghost rest = s@.subrange(a as int, b as int);
        assert(rest.last() == s@[b - 1]);
        assert(rest.drop_last() =~= s@.subrange(a as int, b - 1));
        b -= 1;
    }
    proof {
        let rest = s@.subrange(a as int, b as int);
        if rest.len() > 0 {
            assert(rest.last() == s@[b - 1]);
        }
    }
    text_between(s, a, b)
}

/// The place of the first line break from `from` on, or the end.
pub open spec fn line_end(s: Seq<char>, from: int) -> int
    decreases s.len() - from,
{
    if from < 0 || from >= s.len() {
        s.len() as int
    } else if s[from] == '\n' {
        from
    } else {
        line_end(s, from + 1)
    }
}

/// The line without a carriage return at its end.
pub open spec fn without_return(s: Seq<char>) -> Seq<char> {
    if s.len() > 0 && s.last() == '\r' {
        s.drop_last()
    } else {
        s
    }
}

pub proof fn lemma_line_end(s: Seq<char>, from: int)
    requires
        0 <= from <= s.len(),
    ensures
        from <= line_end(s, from) <= s.len(),
    decreases s.len() - from,
{
    if from < s.len() && s[from] != '\n' {
        lemma_line_end(s, from + 1);
    }
}

/// The place of the first line break from `from` on, or the end.
pub fn end_of_line(s: &Vec<char>, from: usize) -> (r: usize)
    requires
        from <= s@.len(),
    ensures
        r == line_end(s@, from as int),
        from <= r <= s@.len(),
{
    let mut i: usize = from;
    while i < s.len() && s[i] != '\n'
        invariant
            from <= i <= s@.len(),
            line_end(s@, from as int) == line_end(s@, i as int),
        decreases s@.len() - i,
    {
        i += 1;
    }
    i
}

/// The lines of the text from `from` on.
pub open spec fn lines_from(s: Seq<char>, from: int) -> Seq<Seq<char>>
    decreases s.len() + 1 - from,
{
    if from < 0 || from >= s.len() {
        Seq::empty()
    } else {
        let end = line_end(s, from);
        proof {
            lemma_line_end(s, from);
        }
        seq![without_return(s.subrange(from, end))] + lines_from(s, end + 1)
    }
}

/// The first place of a passage is one where it stands, and it stands at none before;
/// without one it stands nowhere from there on.
pub proof fn law_the_first_place_is_the_first(s: Seq<char>, pat: Seq<char>, from: int, k: int)
    requires
        0 <= from,
    ensures
        first_at(s, pat, from) matches Some(i) ==> from <= i && occurs_at(s, pat, i) && (from <= k < i ==> !occurs_at(
            s,
            pat,
            k,
        )),
        first_at(s, pat, from) is None && from <= k ==> !occurs_at(s, pat, k),
    decreases s.len() + 1 - from,
{
    if from <= s.len() && !occurs_at(s, pat, from) {
        law_the_first_place_is_the_first(s, pat, from + 1, k);
    }
}

/// All characters are white space.
pub open spec fn all_white(s: Seq<char>) -> bool {
    forall|i: int| 0 <= i < s.len() ==> white(#[trigger] s[i])
}

proof fn lemma_front(s: Seq<char>) -> (a: Seq<char>)
    ensures
        s == a + front_trimmed(s),
        all_white(a),
        front_trimmed(s).len() > 0 ==> !white(front_trimmed(s)[0]),
    decreases s.len(),
{
    if s.len() > 0 && white(s[0]) {
        let rest = s.subrange(1, s.len() as int);
        let b = lemma_front(rest);
        let a = seq![s[0]] + b;
        assert(s =~= seq![s[0]] + rest);
        assert(s =~= a + front_trimmed(s));
        a
    } else {
        assert(s =~= Seq::<char>::empty() + s);
        Seq::empty()
    }
}

proof fn lemma_back(s: Seq<char>) -> (b: Seq<char>)
    ensures
        s == back_trimmed(s) + b,
        all_white(b),
        back_trimmed(s).len() > 0 ==> !white(back_trimmed(s).last()),
        back_trimmed(s).len() > 0 ==> back_trimmed(s)[0] == s[0],
    decreases s.len(),
{
    if s.len() > 0 && white(s.last()) {
        let c = lemma_back(s.drop_last());
        let b = c.push(s.last());
        assert(s =~= s.drop_last().push(s.last()));
        assert(s =~= back_trimmed(s) + b);
        b
    } else {
        assert(s =~= s + Seq::<char>::empty());
        Seq::empty()
    }
}

/// Trimming takes white space off both ends and nothing else: what is left neither
/// begins nor ends with any.
pub proof fn law_trimming_takes_off_white_space(s: Seq<char>) -> (ends: (Seq<char>, Seq<char>))
    ensures
        s == ends.0 + trimmed(s) + ends.1,
        all_white(ends.0),
        all_white(ends.1),
        trimmed(s).len() > 0 ==> !white(trimmed(s)[0]) && !white(trimmed(s).last()),
{
    let a = lemma_front(s);
    let b = lemma_back(front_trimmed(s));
    assert(s =~= a + trimmed(s) + b);
    (a, b)
}

/// The lines from the given one on, each with a line break behind it.
pub open spec fn with_breaks(ls: Seq<Seq<char>>) -> Seq<char>
    decreases ls.len(),
{
    if ls.len() == 0 {
        Seq::empty()
    } else {
        ls[0].push('\n') + with_breaks(ls.drop_first())
    }
}

proof fn lemma_line_end_at(s: Seq<char>, from: int, end: int)
    requires
        0 <= from <= end < s.len(),
        s[end] == '\n',
        forall|k: int| from <= k < end ==> #[trigger] s[k] != '\n',
    ensures
        line_end(s, from) == end,
    decreases end - from,
{
    if from < end {
        lemma_line_end_at(s, from + 1, end);
    }
}

/// Lines written one below the other are read back, wherever they begin.
pub proof fn law_lines_are_read_back(pre: Seq<char>, ls: Seq<Seq<char>>)
    requires
        forall|i: int, k: int| 0 <= i < ls.len() && 0 <= k < ls[i].len() ==> #[trigger] ls[i][k] != '\n',
        forall|i: int| 0 <= i < ls.len() && (#[trigger] ls[i]).len() > 0 ==> ls[i].last() != '\r',
    ensures
        lines_from(pre + with_breaks(ls), pre.len() as int) == ls,
    decreases ls.len(),
{
    let s = pre + with_breaks(ls);
    if ls.len() == 0 {
        assert(s =~= pre);
        assert(ls =~= Seq::empty());
    } else {
        let l = ls[0];
        let rest = ls.drop_first();
        let next = pre + l.push('\n');
        assert(s =~= next + with_breaks(rest));
        let end = pre.len() + l.len();
        assert forall|k: int| pre.len() <= k < end implies #[trigger] s[k] != '\n' by {
            assert(s[k] == l[k - pre.len()]);
            assert(ls[0][k - pre.len()] != '\n');
        }
        assert(s[end as int] == '\n');
        lemma_line_end_at(s, pre.len() as int, end as int);
        assert(s.subrange(pre.len() as int, end as int) =~= l);
        assert forall|i: int, k: int| 0 <= i < rest.len() && 0 <= k < rest[i].len() implies #[trigger] rest[i][k] != '\n' by {
            assert(ls[i + 1][k] != '\n');
        }
        assert forall|i: int| 0 <= i < rest.len() && (#[trigger] rest[i]).len() > 0 implies rest[i].last() != '\r' by {
            assert(ls[i + 1].last() != '\r');
        }
        law_lines_are_read_back(next, rest);
        assert(without_return(l) == l);
        assert(seq![l] + rest =~= ls);
    }
}

} // verus!
