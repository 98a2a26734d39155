//! The words and marks of a TPTP text.
use vstd::prelude::*;

use crate::scan::{is_white, occurs_at, same_text, stands_at, white};
use crate::text::{chars_of, text_between};

verus! {

/// What a token is: a word, a variable, a name in single quotes, a text in
/// double quotes, or a mark.
#[derive(Clone, Copy, Debug, PartialEq, Eq, Structural)]
pub enum TokKind {
    Word,
    Var,
    Quoted,
    Text,
    Mark,
}

/// One token.  The text of a quoted name is what stands between the quotes.
#[derive(Debug)]
pub struct Tok {
    pub kind: TokKind,
    pub text: String,
}

/// A token with its characters.
pub struct TokView {
    pub kind: TokKind,
    pub text: Seq<char>,
}

impl View for Tok {
    type V = TokView;

    open spec fn view(&self) -> TokView {
        TokView { kind: self.kind, text: self.text@ }
    }
}

/// The views of the tokens.
pub open spec fn tok_views(ts: Seq<Tok>) -> Seq<TokView> {
    Seq::new(ts.len(), |i: int| ts[i]@)
}

/// A capital letter.
pub open spec fn capital(c: char) -> bool {
    'A' <= c <= 'Z'
}

/// A character of words: a letter, a digit, `_` or `$`.
pub open spec fn in_word(c: char) -> bool {
    capital(c) || 'a' <= c <= 'z' || '0' <= c <= '9' || c == '_' || c == '$'
}

fn is_in_word(c: char) -> (r: bool)
    ensures
        r == in_word(c),
{
    ('A' <= c && c <= 'Z') || ('a' <= c && c <= 'z') || ('0' <= c && c <= '9') || c == '_' || c == '$'
}

/// The first place from `i` on where no white space stands.
pub open spec fn past_white(s: Seq<char>, i: int) -> int
    decreases s.len() - i,
{
    if 0 <= i < s.len() && white(s[i]) {
        past_white(s, i + 1)
    } else {
        i
    }
}

/// The first place from `i` on where no character of words stands.
pub open spec fn past_word(s: Seq<char>, i: int) -> int
    decreases s.len() - i,
{
    if 0 <= i < s.len() && in_word(s[i]) {
        past_word(s, i + 1)
    } else {
        i
    }
}

/// The place of the quote `q` that closes a text read up to `i`; a backslash
/// takes the next character with it.
pub open spec fn closing_quote(s: Seq<char>, i: int, q: char) -> Option<int>
    decreases s.len() + 1 - i,
{
    if i < 0 || i >= s.len() {
        None
    } else if s[i] == '\\' {
        closing_quote(s, i + 2, q)
    } else if s[i] == q {
        Some(i)
    } else {
        closing_quote(s, i + 1, q)
    }
}

/// The length of the mark at `i`: the longest that stands there.
pub open spec fn mark_len(s: Seq<char>, i: int) -> int {
    if occurs_at(s, "<=>"@, i) || occurs_at(s, "<~>"@, i) {
        3
    } else if occurs_at(s, "=>"@, i) || occurs_at(s, "<="@, i) || occurs_at(s, "!="@, i) || occurs_at(s, "~|"@, i)
        || occurs_at(s, "~&"@, i) {
        2
    } else {
        1
    }
}

/// The token that begins at the first place from `i` on that is not white, and
/// the place after it.  There is none at the end, nor where a quote is not
/// closed.
pub open spec fn next_token(s: Seq<char>, i: int) -> Option<(TokView, int)> {
    let a = past_white(s, i);
    if a < 0 || a >= s.len() {
        None
    } else if in_word(s[a]) {
        let b = past_word(s, a);
        Some(
            (
                TokView {
                    kind: if capital(s[a]) {
                        TokKind::Var
                    } else {
                        TokKind::Word
                    },
                    text: s.subrange(a, b),
                },
                b,
            ),
        )
    } else if s[a] == '\'' || s[a] == '"' {
        match closing_quote(s, a + 1, s[a]) {
            None => None,
            Some(b) => Some(
                (
                    TokView {
                        kind: if s[a] == '"' {
                            TokKind::Text
                        } else {
                            TokKind::Quoted
                        },
                        text: s.subrange(a + 1, b),
                    },
                    b + 1,
                ),
            ),
        }
    } else {
        let b = a + mark_len(s, a);
        Some((TokView { kind: TokKind::Mark, text: s.subrange(a, b) }, b))
    }
}

proof fn lemma_past_white(s: Seq<char>, i: int)
    requires
        0 <= i,
    ensures
        i <= past_white(s, i),
        i <= s.len() ==> past_white(s, i) <= s.len(),
    decreases s.len() - i,
{
    if i < s.len() && white(s[i]) {
        lemma_past_white(s, i + 1);
    }
}

proof fn lemma_past_word(s: Seq<char>, i: int)
    requires
        0 <= i <= s.len(),
    ensures
        i <= past_word(s, i) <= s.len(),
        i < s.len() && in_word(s[i]) ==> i < past_word(s, i),
    decreases s.len() - i,
{
    if i < s.len() && in_word(s[i]) {
        lemma_past_word(s, i + 1);
    }
}

proof fn lemma_closing_quote(s: Seq<char>, i: int, q: char)
    requires
        0 <= i,
    ensures
        closing_quote(s, i, q) matches Some(b) ==> i <= b < s.len(),
    decreases s.len() + 1 - i,
{
    if i < s.len() && s[i] == '\\' {
        lemma_closing_quote(s, i + 2, q);
    } else if i < s.len() && s[i] != q {
        lemma_closing_quote(s, i + 1, q);
    }
}

proof fn lemma_mark_len(s: Seq<char>, i: int)
    requires
        0 <= i < s.len(),
    ensures
        1 <= mark_len(s, i),
        i + mark_len(s, i) <= s.len(),
{
    reveal_strlit("<=>");
    reveal_strlit("<~>");
    reveal_strlit("=>");
    reveal_strlit("<=");
    reveal_strlit("!=");
    reveal_strlit("~|");
    reveal_strlit("~&");
}

/// A token takes at least one character.
pub proof fn lemma_next_token(s: Seq<char>, i: int)
    requires
        0 <= i,
    ensures
        next_token(s, i) matches Some(r) ==> i < r.1 <= s.len(),
{
    lemma_past_white(s, i);
    let a = past_white(s, i);
    if a < s.len() {
        if in_word(s[a]) {
            lemma_past_word(s, a);
        } else if s[a] == '\'' || s[a] == '"' {
            lemma_closing_quote(s, a + 1, s[a]);
        } else {
            lemma_mark_len(s, a);
        }
    }
}

fn mark_at(s: &Vec<char>, mark: &str, i: usize) -> (r: bool)
    ensures
        r == occurs_at(s@, mark@, i as int),
{
    let m: Vec<char> = chars_of(mark);
    stands_at(s, &m, i)
}

/// The token that begins at the first place from `from` on that is not white,
/// and the place after it.
pub fn read_token(s: &Vec<char>, from: usize) -> (r: Option<(Tok, usize)>)
    requires
        from <= s@.len(),
    ensures
        match (r, next_token(s@, from as int)) {
            (None, None) => true,
            (Some(a), Some(b)) => a.0@ == b.0 && a.1 == b.1 && from < a.1 <= s@.len(),
            _ => false,
        },
{
    proof {
        lemma_next_token(s@, from as int);
        lemma_past_white(s@, from as int);
    }
    let mut a: usize = from;
    while a < s.len() && is_white(s[a])
        invariant
            from <= a <= s@.len(),
            past_white(s@, from as int) == past_white(s@, a as int),
        decreases s@.len() - a,
    {
        a += 1;
    }
    if a >= s.len() {
        return None;
    }
    let c: char = s[a];
    if is_in_word(c) {
        let mut b: usize = a;
        while b < s.len() && is_in_word(s[b])
            invariant
                a <= b <= s@.len(),
                past_word(s@, a as int) == past_word(s@, b as int),
            decreases s@.len() - b,
        {
            b += 1;
        }
        let kind = if 'A' <= c && c <= 'Z' {
            TokKind::Var
        } else {
            TokKind::Word
        };
        return Some((Tok { kind, text: text_between(s, a, b) }, b));
    }
    if c == '\'' || c == '"' {
        let mut b: usize = a + 1;
        while b < s.len() && s[b] != c
            invariant
                a < b <= s@.len(),
                c == s@[a as int],
                c == '\'' || c == '"',
                !in_word(c),
                a == past_white(s@, from as int),
                closing_quote(s@, a + 1, c) == closing_quote(s@, b as int, c),
            decreases s@.len() - b,
        {
            if s[b] == '\\' {
                if s.len() - b < 2 {
                    assert(closing_quote(s@, b + 2, c) is None);
                    return None;
                }
                b += 2;
            } else {
                b += 1;
            }
        }
        if b >= s.len() {
            return None;
        }
        let kind = if c == '"' {
            TokKind::Text
        } else {
            TokKind::Quoted
        };
        return Some((Tok { kind, text: text_between(s, a + 1, b) }, b + 1));
    }
    proof {
        lemma_mark_len(s@, a as int);
    }
    let n: usize = if mark_at(s, "<=>", a) || mark_at(s, "<~>", a) {
        3
    } else if mark_at(s, "=>", a) || mark_at(s, "<=", a) || mark_at(s, "!=", a) || mark_at(s, "~|", a) || mark_at(
        s,
        "~&",
        a,
    ) {
        2
    } else {
        1
    };
    Some((Tok { kind: TokKind::Mark, text: text_between(s, a, a + n) }, a + n))
}

/// The token is the mark that closes a statement.
pub open spec fn is_stop(t: TokView) -> bool {
    t.kind == TokKind::Mark && t.text == "."@
}

/// The tokens from `i` up to the stop, after those in `acc`, and the place after
/// the stop.  There are none where no stop follows.
pub open spec fn up_to_stop(s: Seq<char>, i: int, acc: Seq<TokView>) -> Option<(Seq<TokView>, int)>
    decreases s.len() - i,
{
    if i < 0 {
        None
    } else {
        match next_token(s, i) {
            None => None,
            Some(r) => {
                proof {
                    lemma_next_token(s, i);
                }
                if is_stop(r.0) {
                    Some((acc, r.1))
                } else {
                    up_to_stop(s, r.1, acc.push(r.0))
                }
            },
        }
    }
}

/// A statement takes at least one character.
pub proof fn lemma_up_to_stop(s: Seq<char>, i: int, acc: Seq<TokView>)
    ensures
        up_to_stop(s, i, acc) matches Some(r) ==> i < r.1 <= s.len(),
    decreases s.len() - i,
{
    if i >= 0 {
        lemma_next_token(s, i);
        if let Some(r) = next_token(s, i) {
            if !is_stop(r.0) {
                lemma_up_to_stop(s, r.1, acc.push(r.0));
            }
        }
    }
}

/// The tokens of the statement that begins at `from`, and the place after its
/// stop.
pub fn read_statement(s: &Vec<char>, from: usize) -> (r: Option<(Vec<Tok>, usize)>)
    requires
        from <= s@.len(),
    ensures
        match (r, up_to_stop(s@, from as int, Seq::empty())) {
            (None, None) => true,
            (Some(a), Some(b)) => tok_views(a.0@) == b.0 && a.1 == b.1 && from < a.1 <= s@.len(),
            _ => false,
        },
{
    let mut out: Vec<Tok> = Vec::new();
    let mut i: usize = from;
    assert(tok_views(out@) =~= Seq::empty());
    loop
        invariant
            from <= i <= s@.len(),
            up_to_stop(s@, from as int, Seq::empty()) == up_to_stop(s@, i as int, tok_views(out@)),
        decreases s@.len() - i,
    {
        match read_token(s, i) {
            None => {
                return None;
            },
            Some((t, j)) => {
                if t.kind == TokKind::Mark && same_text(t.text.as_str(), ".") {
                    return Some((out, j));
                }
                let ghost before = out@;
                out.push(t);
                assert(tok_views(out@) =~= tok_views(before).push(t@));
                i = j;
            },
        }
    }
}

/// How a token is written: a name in single quotes, a text in double ones, anything
/// else as it is.
pub open spec fn tok_text(t: TokView) -> Seq<char> {
    match t.kind {
        TokKind::Quoted => seq!['\''] + t.text + seq!['\''],
        TokKind::Text => seq!['"'] + t.text + seq!['"'],
        _ => t.text,
    }
}

/// The token can stand in a text: a word that starts with no capital letter, a
/// variable that does, a name or a text without quote or backslash, a mark of one
/// character or one of the longer ones.
pub open spec fn tok_whole(t: TokView) -> bool {
    let n = t.text.len() as int;
    match t.kind {
        TokKind::Word => n > 0 && !capital(t.text[0]) && forall|i: int| 0 <= i < n ==> in_word(#[trigger] t.text[i]),
        TokKind::Var => n > 0 && capital(t.text[0]) && forall|i: int| 0 <= i < n ==> in_word(#[trigger] t.text[i]),
        TokKind::Quoted => forall|i: int| 0 <= i < n ==> #[trigger] t.text[i] != '\'' && t.text[i] != '\\',
        TokKind::Text => forall|i: int| 0 <= i < n ==> #[trigger] t.text[i] != '"' && t.text[i] != '\\',
        TokKind::Mark => long_mark(t.text) || (n == 1 && !in_word(t.text[0]) && !white(t.text[0]) && t.text[0] != '\''
            && t.text[0] != '"'),
    }
}

/// The marks of more than one character.
pub open spec fn long_mark(m: Seq<char>) -> bool {
    m == "<=>"@ || m == "<~>"@ || m == "=>"@ || m == "<="@ || m == "!="@ || m == "~|"@ || m == "~&"@
}

/// The token ends where its text does: no word goes on, and no longer mark stands
/// there.
pub open spec fn tok_ends(s: Seq<char>, a: int, t: TokView) -> bool {
    let b = a + tok_text(t).len();
    match t.kind {
        TokKind::Word | TokKind::Var => !(0 <= b < s.len() && in_word(s[b])),
        TokKind::Mark => forall|m: Seq<char>| #[trigger] long_mark(m) && occurs_at(s, m, a) ==> m.len() <= t.text.len(),
        _ => true,
    }
}

proof fn lemma_past_white_at(s: Seq<char>, i: int, a: int)
    requires
        0 <= i <= a <= s.len(),
        forall|k: int| i <= k < a ==> white(#[trigger] s[k]),
        a < s.len() ==> !white(s[a]),
    ensures
        past_white(s, i) == a,
    decreases a - i,
{
    if i < a {
        lemma_past_white_at(s, i + 1, a);
    }
}

proof fn lemma_past_word_at(s: Seq<char>, i: int, b: int)
    requires
        0 <= i <= b <= s.len(),
        forall|k: int| i <= k < b ==> in_word(#[trigger] s[k]),
        b < s.len() ==> !in_word(s[b]),
    ensures
        past_word(s, i) == b,
    decreases b - i,
{
    if i < b {
        lemma_past_word_at(s, i + 1, b);
    }
}

proof fn lemma_closing_at(s: Seq<char>, i: int, b: int, q: char)
    requires
        0 <= i <= b < s.len(),
        forall|k: int| i <= k < b ==> #[trigger] s[k] != q && s[k] != '\\',
        s[b] == q,
        q != '\\',
    ensures
        closing_quote(s, i, q) == Some(b),
    decreases b - i,
{
    if i < b {
        lemma_closing_at(s, i + 1, b, q);
    }
}

proof fn lemma_occurs_char(s: Seq<char>, m: Seq<char>, a: int, k: int)
    requires
        occurs_at(s, m, a),
        0 <= k < m.len(),
    ensures
        s[a + k] == m[k],
{
    assert(s.subrange(a, a + m.len())[k] == m[k]);
}

/// A token is read back where it is written, behind any white space: words and
/// variables to their last character, quoted names and texts to the closing quote, and
/// the longest mark that stands there.
pub proof fn law_tokens_are_read_back(s: Seq<char>, i: int, a: int, t: TokView)
    requires
        0 <= i <= a,
        forall|k: int| i <= k < a ==> white(#[trigger] s[k]),
        tok_whole(t),
        occurs_at(s, tok_text(t), a),
        tok_ends(s, a, t),
    ensures
        next_token(s, i) == Some((t, a + tok_text(t).len())),
{
    let w = tok_text(t);
    let b = a + w.len();
    reveal_strlit("<=>");
    reveal_strlit("<~>");
    reveal_strlit("=>");
    reveal_strlit("<=");
    reveal_strlit("!=");
    reveal_strlit("~|");
    reveal_strlit("~&");
    assert forall|k: int| 0 <= k < w.len() implies s[a + k] == #[trigger] w[k] by {
        lemma_occurs_char(s, w, a, k);
    }
    assert(s[a + 0] == w[0]);
    match t.kind {
        TokKind::Word | TokKind::Var => {
            assert(in_word(t.text[0]));
            lemma_past_white_at(s, i, a);
            assert forall|k: int| a <= k < b implies in_word(#[trigger] s[k]) by {
                assert(s[a + (k - a)] == w[k - a]);
            }
            lemma_past_word_at(s, a, b as int);
        },
        TokKind::Quoted => {
            lemma_past_white_at(s, i, a);
            assert(s[a + (w.len() - 1)] == w[w.len() - 1]);
            assert forall|k: int| a + 1 <= k < b - 1 implies #[trigger] s[k] != '\'' && s[k] != '\\' by {
                assert(s[a + (k - a)] == w[k - a]);
                assert(w[k - a] == t.text[k - a - 1]);
            }
            lemma_closing_at(s, a + 1, b - 1, '\'');
            assert(s.subrange(a + 1, b - 1) =~= t.text) by {
                assert forall|k: int| 0 <= k < t.text.len() implies s[a + 1 + k] == #[trigger] t.text[k] by {
                    assert(s[a + (k + 1)] == w[k + 1]);
                }
            }
        },
        TokKind::Text => {
            lemma_past_white_at(s, i, a);
            assert(s[a + (w.len() - 1)] == w[w.len() - 1]);
            assert forall|k: int| a + 1 <= k < b - 1 implies #[trigger] s[k] != '"' && s[k] != '\\' by {
                assert(s[a + (k - a)] == w[k - a]);
                assert(w[k - a] == t.text[k - a - 1]);
            }
            lemma_closing_at(s, a + 1, b - 1, '"');
            assert(s.subrange(a + 1, b - 1) =~= t.text) by {
                assert forall|k: int| 0 <= k < t.text.len() implies s[a + 1 + k] == #[trigger] t.text[k] by {
                    assert(s[a + (k + 1)] == w[k + 1]);
                }
            }
        },
        TokKind::Mark => {
            assert("<=>"@[0] == '<' && "<~>"@[0] == '<' && "=>"@[0] == '=' && "<="@[0] == '<' && "!="@[0] == '!');
            assert("~|"@[0] == '~' && "~&"@[0] == '~');
            assert(!in_word(s[a]) && !white(s[a]) && s[a] != '\'' && s[a] != '"');
            lemma_past_white_at(s, i, a);
            lemma_marks_read(s, a, t.text);
        },
    }
}

proof fn lemma_marks_read(s: Seq<char>, a: int, m: Seq<char>)
    requires
        occurs_at(s, m, a),
        long_mark(m) || m.len() == 1,
        forall|x: Seq<char>| #[trigger] long_mark(x) && occurs_at(s, x, a) ==> x.len() <= m.len(),
    ensures
        mark_len(s, a) == m.len(),
{
    reveal_strlit("<=>");
    reveal_strlit("<~>");
    reveal_strlit("=>");
    reveal_strlit("<=");
    reveal_strlit("!=");
    reveal_strlit("~|");
    reveal_strlit("~&");
    assert(long_mark("<=>"@) && long_mark("<~>"@) && long_mark("=>"@) && long_mark("<="@));
    assert(long_mark("!="@) && long_mark("~|"@) && long_mark("~&"@));
}

/// A statement is read token by token up to its stop: the tokens that stand one after
/// the other, and the place behind the stop.
pub proof fn law_statements_are_read_to_their_stop(s: Seq<char>, ps: Seq<int>, ts: Seq<TokView>, acc: Seq<TokView>, end: int)
    requires
        ps.len() == ts.len() + 1,
        ps[0] >= 0,
        forall|k: int| 0 <= k < ts.len() ==> next_token(s, #[trigger] ps[k]) == Some((ts[k], ps[k + 1])),
        forall|k: int| 0 <= k < ts.len() ==> (#[trigger] ts[k]).kind != TokKind::Mark || ts[k].text != "."@,
        next_token(s, ps.last()) == Some((TokView { kind: TokKind::Mark, text: "."@ }, end)),
    ensures
        up_to_stop(s, ps[0], acc) == Some((acc + ts, end)),
    decreases ts.len(),
{
    if ts.len() == 0 {
        assert(acc + ts =~= acc);
    } else {
        assert(next_token(s, ps[0]) == Some((ts[0], ps[1])));
        lemma_next_token(s, ps[0]);
        let (p, t) = (ps.drop_first(), ts.drop_first());
        assert forall|k: int| 0 <= k < t.len() implies next_token(s, #[trigger] p[k]) == Some((t[k], p[k + 1])) by {
            assert(next_token(s, ps[k + 1]) == Some((ts[k + 1], ps[k + 2])));
        }
        assert forall|k: int| 0 <= k < t.len() implies (#[trigger] t[k]).kind != TokKind::Mark || t[k].text != "."@ by {
            assert(ts[k + 1].kind != TokKind::Mark || ts[k + 1].text != "."@);
        }
        law_statements_are_read_to_their_stop(s, p, t, acc.push(ts[0]), end);
        assert(acc.push(ts[0]) + t =~= acc + ts);
    }
}

} // verus!
