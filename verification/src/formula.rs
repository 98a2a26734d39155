//! The first-order formulas of TPTP, read as nested lists.
use vstd::prelude::*;

use crate::kif::{kif_trees, lemma_list_view, KifNode, KifTree};
use crate::scan::same_text;
use crate::text::{chars_of, is_digit, text_between};
use crate::tokens::{tok_views, Tok, TokKind, TokView};
use crate::types::OpKind;

verus! {

broadcast use lemma_list_view;

/// Token `i` is the mark.
pub open spec fn mark_here(ts: Seq<TokView>, i: int, mark: Seq<char>) -> bool {
    0 <= i < ts.len() && ts[i].kind == TokKind::Mark && ts[i].text == mark
}

/// Token `i` is the word.
pub open spec fn word_here(ts: Seq<TokView>, i: int, word: Seq<char>) -> bool {
    0 <= i < ts.len() && ts[i].kind == TokKind::Word && ts[i].text == word
}

/// Token `i` is a name: a word, or a name in quotes.
pub open spec fn name_here(ts: Seq<TokView>, i: int) -> bool {
    0 <= i < ts.len() && (ts[i].kind == TokKind::Word || ts[i].kind == TokKind::Quoted)
}

/// Whether token `i` is the mark.
pub fn is_mark(ts: &Vec<Tok>, i: usize, mark: &str) -> (r: bool)
    ensures
        r == mark_here(tok_views(ts@), i as int, mark@),
{
    i < ts.len() && ts[i].kind == TokKind::Mark && same_text(ts[i].text.as_str(), mark)
}

/// Whether token `i` is the word.
pub fn is_word(ts: &Vec<Tok>, i: usize, word: &str) -> (r: bool)
    ensures
        r == word_here(tok_views(ts@), i as int, word@),
{
    i < ts.len() && ts[i].kind == TokKind::Word && same_text(ts[i].text.as_str(), word)
}

/// Whether token `i` is a name.
pub fn is_name(ts: &Vec<Tok>, i: usize) -> (r: bool)
    ensures
        r == name_here(tok_views(ts@), i as int),
{
    i < ts.len() && (ts[i].kind == TokKind::Word || ts[i].kind == TokKind::Quoted)
}

/// How a name is written in a list: the truth values have names of their own,
/// and the mark of a translated symbol is left off.
pub open spec fn plain_name(name: Seq<char>) -> Seq<char> {
    if name == "$false"@ {
        "False"@
    } else if name == "$true"@ {
        "True"@
    } else if name.len() >= 3 && name[0] == 's' && name[1] == '_' && name[2] == '_' {
        name.subrange(3, name.len() as int)
    } else {
        name
    }
}

fn name_of(name: &str) -> (r: String)
    ensures
        r@ == plain_name(name@),
{
    if same_text(name, "$false") {
        return "False".to_owned();
    }
    if same_text(name, "$true") {
        return "True".to_owned();
    }
    let cs: Vec<char> = chars_of(name);
    if cs.len() >= 3 && cs[0] == 's' && cs[1] == '_' && cs[2] == '_' {
        text_between(&cs, 3, cs.len())
    } else {
        name.to_owned()
    }
}

/// A name without arguments: a number, or a symbol.
pub open spec fn constant_tree(t: TokView) -> KifTree {
    if t.kind == TokKind::Word && t.text.len() > 0 && is_digit(t.text[0]) {
        KifTree::Number(t.text)
    } else {
        KifTree::Symbol(plain_name(t.text))
    }
}

fn constant_of(t: &Tok) -> (r: KifNode)
    ensures
        r@ == constant_tree(t@),
{
    if t.kind == TokKind::Word && t.text.as_str().unicode_len() > 0 {
        let c: char = t.text.as_str().get_char(0);
        if '0' <= c && c <= '9' {
            return KifNode::Number(t.text.clone());
        }
    }
    KifNode::Symbol(name_of(t.text.as_str()))
}

/// What was read, and the place after it.
pub type Parsed = Option<(KifTree, int)>;

/// A node and a place as they should be.
pub open spec fn reads(r: Option<(KifNode, usize)>, p: Parsed) -> bool {
    match (r, p) {
        (None, None) => true,
        (Some(a), Some(b)) => a.0@ == b.0 && a.1 == b.1,
        _ => false,
    }
}

/// The term at `i`: a variable, a text, a constant, or a function with its
/// arguments.
pub open spec fn term_at(ts: Seq<TokView>, i: int) -> Parsed
    decreases ts.len() - i, 0nat,
{
    if i < 0 || i >= ts.len() {
        None
    } else if ts[i].kind == TokKind::Var {
        Some((KifTree::Variable(ts[i].text), i + 1))
    } else if ts[i].kind == TokKind::Text {
        Some((KifTree::Str(seq!['"'] + ts[i].text + seq!['"']), i + 1))
    } else if !name_here(ts, i) {
        None
    } else if mark_here(ts, i + 1, "("@) {
        match args_at(ts, i + 2, seq![KifTree::Symbol(plain_name(ts[i].text))]) {
            None => None,
            Some(r) => Some((KifTree::List(r.0), r.1)),
        }
    } else {
        Some((constant_tree(ts[i]), i + 1))
    }
}

/// The arguments from `i` on, after those in `acc`, up to the closing bracket.
pub open spec fn args_at(ts: Seq<TokView>, i: int, acc: Seq<KifTree>) -> Option<(Seq<KifTree>, int)>
    decreases ts.len() - i, 1nat,
{
    if i < 0 || i >= ts.len() {
        None
    } else {
        match term_at(ts, i) {
            None => None,
            Some(t) => if t.1 <= i {
                None
            } else if mark_here(ts, t.1, ")"@) {
                Some((acc.push(t.0), t.1 + 1))
            } else if mark_here(ts, t.1, ","@) {
                args_at(ts, t.1 + 1, acc.push(t.0))
            } else {
                None
            },
        }
    }
}

/// The variables from `i` on, after those in `acc`, up to the closing bracket.
/// A sort behind a variable is left off.
pub open spec fn vars_at(ts: Seq<TokView>, i: int, acc: Seq<KifTree>) -> Option<(Seq<KifTree>, int)>
    decreases ts.len() - i,
{
    if i < 0 || i >= ts.len() || ts[i].kind != TokKind::Var {
        None
    } else {
        let more = acc.push(KifTree::Variable(ts[i].text));
        let j = if mark_here(ts, i + 1, ":"@) && name_here(ts, i + 2) {
            i + 3
        } else {
            i + 1
        };
        if mark_here(ts, j, "]"@) {
            Some((more, j + 1))
        } else if mark_here(ts, j, ","@) {
            vars_at(ts, j + 1, more)
        } else {
            None
        }
    }
}

/// A list with an operator at its head and one element.
pub open spec fn under(op: OpKind, t: KifTree) -> KifTree {
    KifTree::List(seq![KifTree::Operator(op), t])
}

/// A list with an operator at its head and two elements.
pub open spec fn between(op: OpKind, a: KifTree, b: KifTree) -> KifTree {
    KifTree::List(seq![KifTree::Operator(op), a, b])
}

/// The part of a formula at `i` that no binary connective takes apart: a
/// negation, a quantified formula, a formula in brackets, an equation, or an
/// atom.
pub open spec fn unit_at(ts: Seq<TokView>, i: int) -> Parsed
    decreases ts.len() - i, 1nat,
{
    if i < 0 || i >= ts.len() {
        None
    } else if mark_here(ts, i, "~"@) {
        match unit_at(ts, i + 1) {
            None => None,
            Some(r) => Some((under(OpKind::Not, r.0), r.1)),
        }
    } else if mark_here(ts, i, "!"@) || mark_here(ts, i, "?"@) {
        if !mark_here(ts, i + 1, "["@) {
            None
        } else {
            match vars_at(ts, i + 2, Seq::empty()) {
                None => None,
                Some(v) => if v.1 <= i || !mark_here(ts, v.1, ":"@) {
                    None
                } else {
                    match unit_at(ts, v.1 + 1) {
                        None => None,
                        Some(r) => {
                            let op = if mark_here(ts, i, "!"@) {
                                OpKind::ForAll
                            } else {
                                OpKind::Exists
                            };
                            Some((between(op, KifTree::List(v.0), r.0), r.1))
                        },
                    }
                },
            }
        }
    } else if mark_here(ts, i, "("@) {
        match formula_at(ts, i + 1) {
            None => None,
            Some(r) => if mark_here(ts, r.1, ")"@) {
                Some((r.0, r.1 + 1))
            } else {
                None
            },
        }
    } else {
        match term_at(ts, i) {
            None => None,
            Some(l) => if l.1 <= i {
                None
            } else if mark_here(ts, l.1, "="@) {
                match term_at(ts, l.1 + 1) {
                    None => None,
                    Some(r) => Some((between(OpKind::Equal, l.0, r.0), r.1)),
                }
            } else if mark_here(ts, l.1, "!="@) {
                match term_at(ts, l.1 + 1) {
                    None => None,
                    Some(r) => Some((under(OpKind::Not, between(OpKind::Equal, l.0, r.0)), r.1)),
                }
            } else {
                Some(l)
            },
        }
    }
}

/// The operands of a run of one connective, the next of which stands at `i`,
/// after those in `acc`.
pub open spec fn chain_at(ts: Seq<TokView>, i: int, mark: Seq<char>, acc: Seq<KifTree>) -> Option<
    (Seq<KifTree>, int),
>
    decreases ts.len() - i, 2nat,
{
    if i < 0 || i >= ts.len() {
        None
    } else {
        match unit_at(ts, i + 1) {
            None => None,
            Some(r) => if r.1 <= i {
                None
            } else if mark_here(ts, r.1, mark) {
                chain_at(ts, r.1, mark, acc.push(r.0))
            } else {
                Some((acc.push(r.0), r.1))
            },
        }
    }
}

/// The formula that a binary connective other than `&` and `|` makes of two.
pub open spec fn binary_tree(mark: Seq<char>, a: KifTree, b: KifTree) -> Option<KifTree> {
    if mark == "=>"@ {
        Some(between(OpKind::Implies, a, b))
    } else if mark == "<="@ {
        Some(between(OpKind::Implies, b, a))
    } else if mark == "<=>"@ {
        Some(between(OpKind::Iff, a, b))
    } else if mark == "<~>"@ {
        Some(under(OpKind::Not, between(OpKind::Iff, a, b)))
    } else if mark == "~|"@ {
        Some(under(OpKind::Not, between(OpKind::Or, a, b)))
    } else if mark == "~&"@ {
        Some(under(OpKind::Not, between(OpKind::And, a, b)))
    } else {
        None
    }
}

/// The marks of the binary connectives other than `&` and `|`.
pub open spec fn is_binary(mark: Seq<char>) -> bool {
    mark == "=>"@ || mark == "<="@ || mark == "<=>"@ || mark == "<~>"@ || mark == "~|"@ || mark == "~&"@
}

/// The formula at `i`.
pub open spec fn formula_at(ts: Seq<TokView>, i: int) -> Parsed
    decreases ts.len() - i, 3nat,
{
    if i < 0 || i >= ts.len() {
        None
    } else {
        match unit_at(ts, i) {
            None => None,
            Some(l) => if l.1 <= i {
                None
            } else if mark_here(ts, l.1, "&"@) {
                match chain_at(ts, l.1, "&"@, seq![KifTree::Operator(OpKind::And), l.0]) {
                    None => None,
                    Some(r) => Some((KifTree::List(r.0), r.1)),
                }
            } else if mark_here(ts, l.1, "|"@) {
                match chain_at(ts, l.1, "|"@, seq![KifTree::Operator(OpKind::Or), l.0]) {
                    None => None,
                    Some(r) => Some((KifTree::List(r.0), r.1)),
                }
            } else if 0 <= l.1 < ts.len() && ts[l.1].kind == TokKind::Mark && is_binary(ts[l.1].text) {
                match unit_at(ts, l.1 + 1) {
                    None => None,
                    Some(r) => match binary_tree(ts[l.1].text, l.0, r.0) {
                        None => None,
                        Some(t) => Some((t, r.1)),
                    },
                }
            } else {
                Some(l)
            },
        }
    }
}

fn under_op(op: OpKind, t: KifNode) -> (r: KifNode)
    ensures
        r@ == under(op, t@),
{
    let v: Vec<KifNode> = vec![KifNode::Operator(op), t];
    assert(kif_trees(v@) =~= seq![KifTree::Operator(op), t@]);
    KifNode::List(v)
}

fn between_op(op: OpKind, a: KifNode, b: KifNode) -> (r: KifNode)
    ensures
        r@ == between(op, a@, b@),
{
    let v: Vec<KifNode> = vec![KifNode::Operator(op), a, b];
    assert(kif_trees(v@) =~= seq![KifTree::Operator(op), a@, b@]);
    KifNode::List(v)
}

/// Reads the term at `i`.
pub fn read_term(ts: &Vec<Tok>, i: usize) -> (r: Option<(KifNode, usize)>)
    ensures
        reads(r, term_at(tok_views(ts@), i as int)),
        r matches Some(p) ==> i < p.1 <= ts@.len(),
    decreases ts@.len() - i, 0nat,
{
    if i >= ts.len() {
        return None;
    }
    let ghost vs = tok_views(ts@);
    let t: &Tok = &ts[i];
    assert(vs[i as int] == t@);
    match t.kind {
        TokKind::Var => Some((KifNode::Variable(t.text.clone()), i + 1)),
        TokKind::Text => {
            let mut s: String = String::new();
            s.push('"');
            s.append(t.text.as_str());
            s.push('"');
            assert(s@ =~= seq!['"'] + t.text@ + seq!['"']);
            Some((KifNode::Str(s), i + 1))
        },
        TokKind::Mark => None,
        _ => {
            if is_mark(ts, i + 1, "(") {
                let mut elems: Vec<KifNode> = Vec::new();
                elems.push(KifNode::Symbol(name_of(t.text.as_str())));
                assert(kif_trees(elems@) =~= seq![KifTree::Symbol(plain_name(t.text@))]);
                let total: usize = ts.len();
                let mut j: usize = i + 2;
                loop
                    invariant
                        i + 2 <= j <= total,
                        total == ts@.len(),
                        vs == tok_views(ts@),
                        vs[i as int].kind == TokKind::Word || vs[i as int].kind == TokKind::Quoted,
                        mark_here(vs, i + 1, "("@),
                        args_at(vs, i + 2, seq![KifTree::Symbol(plain_name(vs[i as int].text))]) == args_at(
                            vs,
                            j as int,
                            kif_trees(elems@),
                        ),
                    decreases ts@.len() - j,
                {
                    match read_term(ts, j) {
                        None => {
                            return None;
                        },
                        Some((a, k)) => {
                            let ghost before = elems@;
                            elems.push(a);
                            assert(kif_trees(elems@) =~= kif_trees(before).push(a@));
                            if is_mark(ts, k, ")") {
                                return Some((KifNode::List(elems), k + 1));
                            }
                            if !is_mark(ts, k, ",") {
                                return None;
                            }
                            j = k + 1;
                        },
                    }
                }
            } else {
                Some((constant_of(t), i + 1))
            }
        },
    }
}

fn read_vars(ts: &Vec<Tok>, from: usize) -> (r: Option<(KifNode, usize)>)
    requires
        from <= ts@.len() + 1,
    ensures
        match (r, vars_at(tok_views(ts@), from as int, Seq::empty())) {
            (None, None) => true,
            (Some(a), Some(b)) => a.0@ == KifTree::List(b.0) && a.1 == b.1 && from < a.1 <= ts@.len(),
            _ => false,
        },
{
    let ghost vs = tok_views(ts@);
    let mut out: Vec<KifNode> = Vec::new();
    let mut i: usize = from;
    assert(kif_trees(out@) =~= Seq::empty());
    loop
        invariant
            from <= i <= ts@.len() + 1,
            vs == tok_views(ts@),
            vars_at(vs, from as int, Seq::empty()) == vars_at(vs, i as int, kif_trees(out@)),
        decreases ts@.len() + 1 - i,
    {
        if i >= ts.len() || ts[i].kind != TokKind::Var {
            return None;
        }
        let ghost before = out@;
        let v: KifNode = KifNode::Variable(ts[i].text.clone());
        out.push(v);
        assert(kif_trees(out@) =~= kif_trees(before).push(v@));
        let mut j: usize = i + 1;
        if is_mark(ts, j, ":") && is_name(ts, j + 1) {
            j = i + 3;
        }
        if is_mark(ts, j, "]") {
            return Some((KifNode::List(out), j + 1));
        }
        if !is_mark(ts, j, ",") {
            return None;
        }
        i = j + 1;
    }
}

/// Reads the part of a formula at `i` that no binary connective takes apart.
pub fn read_unit(ts: &Vec<Tok>, i: usize) -> (r: Option<(KifNode, usize)>)
    ensures
        reads(r, unit_at(tok_views(ts@), i as int)),
        r matches Some(p) ==> i < p.1 <= ts@.len(),
    decreases ts@.len() - i, 1nat,
{
    if i >= ts.len() {
        return None;
    }
    if is_mark(ts, i, "~") {
        return match read_unit(ts, i + 1) {
            None => None,
            Some((f, j)) => Some((under_op(OpKind::Not, f), j)),
        };
    }
    let all: bool = is_mark(ts, i, "!");
    if all || is_mark(ts, i, "?") {
        if !is_mark(ts, i + 1, "[") {
            return None;
        }
        return match read_vars(ts, i + 2) {
            None => None,
            Some((vars, j)) => {
                if !is_mark(ts, j, ":") {
                    return None;
                }
                match read_unit(ts, j + 1) {
                    None => None,
                    Some((f, k)) => {
                        let op = if all {
                            OpKind::ForAll
                        } else {
                            OpKind::Exists
                        };
                        Some((between_op(op, vars, f), k))
                    },
                }
            },
        };
    }
    if is_mark(ts, i, "(") {
        return match read_formula(ts, i + 1) {
            None => None,
            Some((f, j)) => if is_mark(ts, j, ")") {
                Some((f, j + 1))
            } else {
                None
            },
        };
    }
    match read_term(ts, i) {
        None => None,
        Some((a, j)) => {
            let equal: bool = is_mark(ts, j, "=");
            if equal || is_mark(ts, j, "!=") {
                match read_term(ts, j + 1) {
                    None => None,
                    Some((b, k)) => {
                        let e: KifNode = between_op(OpKind::Equal, a, b);
                        if equal {
                            Some((e, k))
                        } else {
                            Some((under_op(OpKind::Not, e), k))
                        }
                    },
                }
            } else {
                Some((a, j))
            }
        },
    }
}

fn read_chain(ts: &Vec<Tok>, from: usize, mark: &str, op: OpKind, first: KifNode) -> (r: Option<(KifNode, usize)>)
    requires
        from < ts@.len(),
    ensures
        match (r, chain_at(tok_views(ts@), from as int, mark@, seq![KifTree::Operator(op), first@])) {
            (None, None) => true,
            (Some(a), Some(b)) => a.0@ == KifTree::List(b.0) && a.1 == b.1 && from < a.1 <= ts@.len(),
            _ => false,
        },
    decreases ts@.len() - from, 2nat,
{
    let ghost vs = tok_views(ts@);
    let total: usize = ts.len();
    let mut out: Vec<KifNode> = vec![KifNode::Operator(op), first];
    let mut i: usize = from;
    assert(kif_trees(out@) =~= seq![KifTree::Operator(op), first@]);
    loop
        invariant
            from <= i < total,
            total == ts@.len(),
            vs == tok_views(ts@),
            chain_at(vs, from as int, mark@, seq![KifTree::Operator(op), first@]) == chain_at(
                vs,
                i as int,
                mark@,
                kif_trees(out@),
            ),
        decreases ts@.len() - i,
    {
        match read_unit(ts, i + 1) {
            None => {
                return None;
            },
            Some((f, j)) => {
                let ghost before = out@;
                out.push(f);
                assert(kif_trees(out@) =~= kif_trees(before).push(f@));
                if !is_mark(ts, j, mark) {
                    return Some((KifNode::List(out), j));
                }
                i = j;
            },
        }
    }
}

fn binary_of(mark: &str, a: KifNode, b: KifNode) -> (r: Option<KifNode>)
    ensures
        match (r, binary_tree(mark@, a@, b@)) {
            (None, None) => true,
            (Some(x), Some(y)) => x@ == y,
            _ => false,
        },
{
    if same_text(mark, "=>") {
        Some(between_op(OpKind::Implies, a, b))
    } else if same_text(mark, "<=") {
        Some(between_op(OpKind::Implies, b, a))
    } else if same_text(mark, "<=>") {
        Some(between_op(OpKind::Iff, a, b))
    } else if same_text(mark, "<~>") {
        Some(under_op(OpKind::Not, between_op(OpKind::Iff, a, b)))
    } else if same_text(mark, "~|") {
        Some(under_op(OpKind::Not, between_op(OpKind::Or, a, b)))
    } else if same_text(mark, "~&") {
        Some(under_op(OpKind::Not, between_op(OpKind::And, a, b)))
    } else {
        None
    }
}

fn joins_two(mark: &str) -> (r: bool)
    ensures
        r == is_binary(mark@),
{
    same_text(mark, "=>") || same_text(mark, "<=") || same_text(mark, "<=>") || same_text(mark, "<~>") || same_text(
        mark,
        "~|",
    ) || same_text(mark, "~&")
}

/// Reads the formula at `i`.
pub fn read_formula(ts: &Vec<Tok>, i: usize) -> (r: Option<(KifNode, usize)>)
    ensures
        reads(r, formula_at(tok_views(ts@), i as int)),
        r matches Some(p) ==> i < p.1 <= ts@.len(),
    decreases ts@.len() - i, 3nat,
{
    if i >= ts.len() {
        return None;
    }
    match read_unit(ts, i) {
        None => None,
        Some((l, j)) => {
            if is_mark(ts, j, "&") {
                read_chain(ts, j, "&", OpKind::And, l)
            } else if is_mark(ts, j, "|") {
                read_chain(ts, j, "|", OpKind::Or, l)
            } else if j < ts.len() && ts[j].kind == TokKind::Mark && joins_two(ts[j].text.as_str()) {
                match read_unit(ts, j + 1) {
                    None => None,
                    Some((b, k)) => match binary_of(ts[j].text.as_str(), l, b) {
                        None => None,
                        Some(f) => Some((f, k)),
                    },
                }
            } else {
                Some((l, j))
            }
        },
    }
}

// ---------------------------------------------------------------------------
// What is written is read back
// ---------------------------------------------------------------------------

/// A name as it is written, plain or in quotes.
pub struct FofName {
    pub quoted: bool,
    pub text: Seq<char>,
}

/// A term of TPTP.
pub enum FofTerm {
    Var(Seq<char>),
    Text(Seq<char>),
    Name(FofName),
    Call(FofName, Seq<FofTerm>),
}

/// A variable behind a quantifier, with or without a sort.
pub struct FofVar {
    pub name: Seq<char>,
    pub sort: Option<FofName>,
}

/// A binary connective other than `&` and `|`.
pub enum FofJoin {
    Implies,
    ImpliedBy,
    Iff,
    Xor,
    Nor,
    Nand,
}

/// A formula of TPTP.
pub enum Fof {
    Atom(FofTerm),
    Equal(FofTerm, FofTerm),
    Differ(FofTerm, FofTerm),
    Not(Box<Fof>),
    ForAll(Seq<FofVar>, Box<Fof>),
    Exists(Seq<FofVar>, Box<Fof>),
    And(Seq<Fof>),
    Or(Seq<Fof>),
    Join(FofJoin, Box<Fof>, Box<Fof>),
}

/// The token of a mark.
pub open spec fn mark_tok(text: Seq<char>) -> TokView {
    TokView { kind: TokKind::Mark, text }
}

/// The token of a name.
pub open spec fn name_tok(n: FofName) -> TokView {
    TokView {
        kind: if n.quoted {
            TokKind::Quoted
        } else {
            TokKind::Word
        },
        text: n.text,
    }
}

/// The tokens of a term.
pub open spec fn term_toks(t: FofTerm) -> Seq<TokView>
    decreases t, 0nat,
{
    match t {
        FofTerm::Var(x) => seq![TokView { kind: TokKind::Var, text: x }],
        FofTerm::Text(x) => seq![TokView { kind: TokKind::Text, text: x }],
        FofTerm::Name(n) => seq![name_tok(n)],
        FofTerm::Call(n, args) => seq![name_tok(n), mark_tok("("@)] + args_toks(args, 0),
    }
}

/// The tokens of the arguments from the given one on, with the closing bracket.
pub open spec fn args_toks(args: Seq<FofTerm>, k: nat) -> Seq<TokView>
    decreases args, args.len() - k,
{
    if k >= args.len() {
        Seq::empty()
    } else if k + 1 == args.len() {
        term_toks(args[k as int]).push(mark_tok(")"@))
    } else {
        term_toks(args[k as int]).push(mark_tok(","@)) + args_toks(args, k + 1)
    }
}

/// The tree of a name without arguments: a number if it starts with a digit and
/// stands in no quotes.
pub open spec fn name_tree(n: FofName) -> KifTree {
    if !n.quoted && n.text.len() > 0 && '0' <= n.text[0] && n.text[0] <= '9' {
        KifTree::Number(n.text)
    } else {
        KifTree::Symbol(plain_name(n.text))
    }
}

/// The tree of a term.
pub open spec fn term_tree(t: FofTerm) -> KifTree
    decreases t, 0nat,
{
    match t {
        FofTerm::Var(x) => KifTree::Variable(x),
        FofTerm::Text(x) => KifTree::Str(seq!['"'] + x + seq!['"']),
        FofTerm::Name(n) => name_tree(n),
        FofTerm::Call(n, args) => KifTree::List(seq![KifTree::Symbol(plain_name(n.text))] + term_trees(args, args.len())),
    }
}

/// The trees of the first `k` terms.
pub open spec fn term_trees(args: Seq<FofTerm>, k: nat) -> Seq<KifTree>
    decreases args, k,
{
    if k == 0 || k > args.len() {
        Seq::empty()
    } else {
        term_trees(args, (k - 1) as nat).push(term_tree(args[k - 1]))
    }
}

/// Every call has an argument.
pub open spec fn term_whole(t: FofTerm) -> bool
    decreases t,
{
    match t {
        FofTerm::Call(_, args) => args.len() > 0 && forall|i: int| 0 <= i < args.len() ==> term_whole(#[trigger] args[i]),
        _ => true,
    }
}

/// The tokens of the variables from the given one on, with the closing bracket.
pub open spec fn vars_toks(vars: Seq<FofVar>, k: nat) -> Seq<TokView>
    decreases vars.len() - k,
{
    if k >= vars.len() {
        Seq::empty()
    } else {
        let v = vars[k as int];
        let one = seq![TokView { kind: TokKind::Var, text: v.name }] + match v.sort {
            Some(n) => seq![mark_tok(":"@), name_tok(n)],
            None => Seq::empty(),
        };
        if k + 1 == vars.len() {
            one.push(mark_tok("]"@))
        } else {
            one.push(mark_tok(","@)) + vars_toks(vars, k + 1)
        }
    }
}

/// The mark of a connective.
pub open spec fn join_text(j: FofJoin) -> Seq<char> {
    match j {
        FofJoin::Implies => "=>"@,
        FofJoin::ImpliedBy => "<="@,
        FofJoin::Iff => "<=>"@,
        FofJoin::Xor => "<~>"@,
        FofJoin::Nor => "~|"@,
        FofJoin::Nand => "~&"@,
    }
}

/// The tokens of a formula.
pub open spec fn fof_toks(f: Fof) -> Seq<TokView>
    decreases f, 0nat,
{
    match f {
        Fof::Atom(t) => term_toks(t),
        Fof::Equal(a, b) => term_toks(a).push(mark_tok("="@)) + term_toks(b),
        Fof::Differ(a, b) => term_toks(a).push(mark_tok("!="@)) + term_toks(b),
        Fof::Not(g) => seq![mark_tok("~"@)] + unit_toks(*g),
        Fof::ForAll(vars, g) => seq![mark_tok("!"@), mark_tok("["@)] + vars_toks(vars, 0).push(mark_tok(":"@)) + unit_toks(*g),
        Fof::Exists(vars, g) => seq![mark_tok("?"@), mark_tok("["@)] + vars_toks(vars, 0).push(mark_tok(":"@)) + unit_toks(*g),
        Fof::And(fs) => chain_toks(fs, fs.len(), "&"@),
        Fof::Or(fs) => chain_toks(fs, fs.len(), "|"@),
        Fof::Join(j, a, b) => unit_toks(*a).push(mark_tok(join_text(j))) + unit_toks(*b),
    }
}

/// The tokens of a formula as an operand: in brackets if a binary connective would
/// take it apart.
pub open spec fn unit_toks(f: Fof) -> Seq<TokView>
    decreases f, 1nat,
{
    if f is And || f is Or || f is Join {
        seq![mark_tok("("@)] + fof_toks(f).push(mark_tok(")"@))
    } else {
        fof_toks(f)
    }
}

/// The tokens of the first `k` formulas, the mark between each two.
pub open spec fn chain_toks(fs: Seq<Fof>, k: nat, mark: Seq<char>) -> Seq<TokView>
    decreases fs, k,
{
    if k == 0 || k > fs.len() {
        Seq::empty()
    } else if k == 1 {
        unit_toks(fs[0])
    } else {
        chain_toks(fs, (k - 1) as nat, mark).push(mark_tok(mark)) + unit_toks(fs[k - 1])
    }
}

/// The list that a formula is.
pub open spec fn fof_tree(f: Fof) -> KifTree
    decreases f, 0nat,
{
    match f {
        Fof::Atom(t) => term_tree(t),
        Fof::Equal(a, b) => KifTree::List(seq![KifTree::Operator(OpKind::Equal), term_tree(a), term_tree(b)]),
        Fof::Differ(a, b) => KifTree::List(
            seq![
                KifTree::Operator(OpKind::Not),
                KifTree::List(seq![KifTree::Operator(OpKind::Equal), term_tree(a), term_tree(b)]),
            ],
        ),
        Fof::Not(g) => KifTree::List(seq![KifTree::Operator(OpKind::Not), fof_tree(*g)]),
        Fof::ForAll(vars, g) => KifTree::List(
            seq![
                KifTree::Operator(OpKind::ForAll),
                KifTree::List(Seq::new(vars.len(), |i: int| KifTree::Variable(vars[i].name))),
                fof_tree(*g),
            ],
        ),
        Fof::Exists(vars, g) => KifTree::List(
            seq![
                KifTree::Operator(OpKind::Exists),
                KifTree::List(Seq::new(vars.len(), |i: int| KifTree::Variable(vars[i].name))),
                fof_tree(*g),
            ],
        ),
        Fof::And(fs) => KifTree::List(seq![KifTree::Operator(OpKind::And)] + fof_trees(fs, fs.len())),
        Fof::Or(fs) => KifTree::List(seq![KifTree::Operator(OpKind::Or)] + fof_trees(fs, fs.len())),
        Fof::Join(j, a, b) => {
            let (x, y) = (fof_tree(*a), fof_tree(*b));
            match j {
                FofJoin::Implies => KifTree::List(seq![KifTree::Operator(OpKind::Implies), x, y]),
                FofJoin::ImpliedBy => KifTree::List(seq![KifTree::Operator(OpKind::Implies), y, x]),
                FofJoin::Iff => KifTree::List(seq![KifTree::Operator(OpKind::Iff), x, y]),
                FofJoin::Xor => under(OpKind::Not, KifTree::List(seq![KifTree::Operator(OpKind::Iff), x, y])),
                FofJoin::Nor => under(OpKind::Not, KifTree::List(seq![KifTree::Operator(OpKind::Or), x, y])),
                FofJoin::Nand => under(OpKind::Not, KifTree::List(seq![KifTree::Operator(OpKind::And), x, y])),
            }
        },
    }
}

/// The lists that the first `k` formulas are.
pub open spec fn fof_trees(fs: Seq<Fof>, k: nat) -> Seq<KifTree>
    decreases fs, k,
{
    if k == 0 || k > fs.len() {
        Seq::empty()
    } else {
        fof_trees(fs, (k - 1) as nat).push(fof_tree(fs[k - 1]))
    }
}

/// Every call has an argument, every quantifier a variable, and every run of one
/// connective two operands.
pub open spec fn fof_whole(f: Fof) -> bool
    decreases f,
{
    match f {
        Fof::Atom(t) => term_whole(t),
        Fof::Equal(a, b) => term_whole(a) && term_whole(b),
        Fof::Differ(a, b) => term_whole(a) && term_whole(b),
        Fof::Not(g) => fof_whole(*g),
        Fof::ForAll(vars, g) => vars.len() > 0 && fof_whole(*g),
        Fof::Exists(vars, g) => vars.len() > 0 && fof_whole(*g),
        Fof::And(fs) => fs.len() >= 2 && forall|i: int| 0 <= i < fs.len() ==> fof_whole(#[trigger] fs[i]),
        Fof::Or(fs) => fs.len() >= 2 && forall|i: int| 0 <= i < fs.len() ==> fof_whole(#[trigger] fs[i]),
        Fof::Join(_, a, b) => fof_whole(*a) && fof_whole(*b),
    }
}

/// The tokens stand at the place.
pub open spec fn stands(ts: Seq<TokView>, i: int, w: Seq<TokView>) -> bool {
    0 <= i && i + w.len() <= ts.len() && forall|k: int| 0 <= k < w.len() ==> ts[i + k] == #[trigger] w[k]
}

/// No bracket and no equation sign stands at the place.
pub open spec fn no_more_term(ts: Seq<TokView>, i: int) -> bool {
    !mark_here(ts, i, "("@) && !mark_here(ts, i, "="@) && !mark_here(ts, i, "!="@)
}

/// No binary connective stands at the place either.
pub open spec fn no_more(ts: Seq<TokView>, i: int) -> bool {
    no_more_term(ts, i) && !mark_here(ts, i, "&"@) && !mark_here(ts, i, "|"@) && !(0 <= i < ts.len() && ts[i].kind
        == TokKind::Mark && is_binary(ts[i].text))
}

pub proof fn lemma_parts_stand(ts: Seq<TokView>, i: int, a: Seq<TokView>, b: Seq<TokView>)
    requires
        stands(ts, i, a + b),
    ensures
        stands(ts, i, a),
        stands(ts, i + a.len(), b),
{
    let c = a + b;
    assert forall|k: int| 0 <= k < a.len() implies ts[i + k] == #[trigger] a[k] by {
        assert(c[k] == a[k]);
    }
    assert forall|k: int| 0 <= k < b.len() implies ts[i + a.len() + k] == #[trigger] b[k] by {
        assert(c[a.len() + k] == b[k]);
    }
}

pub proof fn lemma_last_stands(ts: Seq<TokView>, i: int, a: Seq<TokView>, t: TokView)
    requires
        stands(ts, i, a.push(t)),
    ensures
        stands(ts, i, a),
        i + a.len() < ts.len(),
        ts[i + a.len()] == t,
{
    let c = a.push(t);
    assert forall|k: int| 0 <= k < a.len() implies ts[i + k] == #[trigger] a[k] by {
        assert(c[k] == a[k]);
    }
    assert(c[a.len() as int] == t);
}

/// The marks that end a term or a formula are told apart from those that go on.
proof fn lemma_marks()
    ensures
        "("@ != ")"@ && "("@ != ","@ && "("@ != "]"@ && "("@ != ":"@ && "("@ != "="@ && "("@ != "!="@,
        "="@ != ")"@ && "="@ != ","@ && "="@ != "!="@ && "!="@ != ")"@ && "!="@ != ","@,
        ")"@ != ","@ && "]"@ != ","@ && ":"@ != "]"@ && ":"@ != ","@,
        "~"@ != "!"@ && "~"@ != "?"@ && "~"@ != "("@ && "!"@ != "?"@ && "!"@ != "("@ && "?"@ != "("@,
        "&"@ != "("@ && "&"@ != "="@ && "&"@ != "!="@ && "&"@ != "|"@ && "&"@ != ")"@,
        "|"@ != "("@ && "|"@ != "="@ && "|"@ != "!="@ && "|"@ != ")"@,
        !is_binary("&"@) && !is_binary("|"@) && !is_binary(")"@) && !is_binary("("@),
        forall|j: FofJoin| ({
            let m = #[trigger] join_text(j);
            m != "("@ && m != "="@ && m != "!="@ && m != "&"@ && m != "|"@ && m != ")"@ && is_binary(m)
        }),
        "=>"@ != "<="@ && "=>"@ != "<=>"@ && "=>"@ != "<~>"@ && "=>"@ != "~|"@ && "=>"@ != "~&"@,
        "<="@ != "<=>"@ && "<="@ != "<~>"@ && "<="@ != "~|"@ && "<="@ != "~&"@,
        "<=>"@ != "<~>"@ && "<=>"@ != "~|"@ && "<=>"@ != "~&"@ && "<~>"@ != "~|"@ && "<~>"@ != "~&"@ && "~|"@ != "~&"@,
{
    reveal_strlit("(");
    reveal_strlit(")");
    reveal_strlit(",");
    reveal_strlit("=");
    reveal_strlit("!=");
    reveal_strlit("~");
    reveal_strlit("!");
    reveal_strlit("?");
    reveal_strlit("]");
    reveal_strlit(":");
    reveal_strlit("&");
    reveal_strlit("|");
    reveal_strlit("=>");
    reveal_strlit("<=");
    reveal_strlit("<=>");
    reveal_strlit("<~>");
    reveal_strlit("~|");
    reveal_strlit("~&");
    assert("("@[0] == '(' && ")"@[0] == ')' && ","@[0] == ',' && "="@[0] == '=' && "~"@[0] == '~' && "!"@[0] == '!');
    assert("?"@[0] == '?' && "]"@[0] == ']' && ":"@[0] == ':' && "&"@[0] == '&' && "|"@[0] == '|');
    assert("=>"@[0] == '=' && "<="@[0] == '<' && "~|"@[0] == '~' && "~|"@[1] == '|' && "~&"@[1] == '&' && "!="@[0] == '!');
    assert("<=>"@[1] == '=' && "<~>"@[1] == '~' && "!="@[1] == '=' && "=>"@[1] == '>' && "<="@[1] == '=');
    assert("~&"@[0] == '~' && "<=>"@[0] == '<' && "<~>"@[0] == '<');
    assert("<="@.len() == 2 && "<=>"@.len() == 3 && "<~>"@.len() == 3 && "~|"@.len() == 2 && "~&"@.len() == 2);
    assert("("@.len() == 1 && ")"@.len() == 1 && "="@.len() == 1 && "&"@.len() == 1 && "|"@.len() == 1);
    assert("=>"@.len() == 2 && "!="@.len() == 2);
    assert("=>"@ != "!="@ && "<="@ != "!="@ && "~|"@ != "!="@ && "~&"@ != "!="@ && "<=>"@ != "!="@ && "<~>"@ != "!="@);
    assert("<="@ != "~|"@ && "<="@ != "~&"@);
    assert forall|j: FofJoin| ({
        let m = #[trigger] join_text(j);
        m != "("@ && m != "="@ && m != "!="@ && m != "&"@ && m != "|"@ && m != ")"@ && is_binary(m)
    }) by {
        match j {
            FofJoin::Implies => {},
            FofJoin::ImpliedBy => {},
            FofJoin::Iff => {},
            FofJoin::Xor => {},
            FofJoin::Nor => {},
            FofJoin::Nand => {},
        }
    }
}

proof fn lemma_term_read(ts: Seq<TokView>, i: int, t: FofTerm)
    requires
        term_whole(t),
        stands(ts, i, term_toks(t)),
        !mark_here(ts, i + term_toks(t).len(), "("@),
    ensures
        term_at(ts, i) == Some((term_tree(t), i + term_toks(t).len())),
        term_toks(t).len() > 0,
        ts[i].kind != TokKind::Mark,
    decreases t, 0nat,
{
    let w = term_toks(t);
    match t {
        FofTerm::Var(_) => {
            assert(ts[i + 0] == w[0]);
        },
        FofTerm::Text(_) => {
            assert(ts[i + 0] == w[0]);
        },
        FofTerm::Name(n) => {
            assert(ts[i + 0] == w[0]);
        },
        FofTerm::Call(n, args) => {
            let head = seq![name_tok(n), mark_tok("("@)];
            lemma_parts_stand(ts, i, head, args_toks(args, 0));
            assert(ts[i + 0] == head[0]);
            assert(ts[i + 1] == head[1]);
            let first = seq![KifTree::Symbol(plain_name(n.text))];
            assert(term_trees(args, 0) =~= Seq::empty());
            assert(first + term_trees(args, 0) =~= first);
            lemma_args_read(ts, i + 2, args, 0, first);
        },
    }
}

proof fn lemma_args_read(ts: Seq<TokView>, i: int, args: Seq<FofTerm>, k: nat, first: Seq<KifTree>)
    requires
        k < args.len(),
        forall|m: int| 0 <= m < args.len() ==> term_whole(#[trigger] args[m]),
        stands(ts, i, args_toks(args, k)),
    ensures
        args_at(ts, i, first + term_trees(args, k)) == Some((first + term_trees(args, args.len()), i + args_toks(args, k).len())),
    decreases args, args.len() - k,
{
    lemma_marks();
    let t = args[k as int];
    let acc = first + term_trees(args, k);
    assert(acc.push(term_tree(t)) =~= first + term_trees(args, k + 1));
    if k + 1 == args.len() {
        lemma_last_stands(ts, i, term_toks(t), mark_tok(")"@));
        lemma_term_read(ts, i, t);
    } else {
        lemma_parts_stand(ts, i, term_toks(t).push(mark_tok(","@)), args_toks(args, k + 1));
        lemma_last_stands(ts, i, term_toks(t), mark_tok(","@));
        lemma_term_read(ts, i, t);
        lemma_args_read(ts, i + term_toks(t).len() + 1, args, k + 1, first);
    }
}

proof fn lemma_vars_read(ts: Seq<TokView>, i: int, vars: Seq<FofVar>, k: nat)
    requires
        k < vars.len(),
        stands(ts, i, vars_toks(vars, k)),
    ensures
        vars_at(ts, i, Seq::new(k, |m: int| KifTree::Variable(vars[m].name))) == Some(
            (Seq::new(vars.len(), |m: int| KifTree::Variable(vars[m].name)), i + vars_toks(vars, k).len()),
        ),
        vars_toks(vars, k).len() > 0,
    decreases vars.len() - k,
{
    lemma_marks();
    let v = vars[k as int];
    let head = seq![TokView { kind: TokKind::Var, text: v.name }];
    let tail = match v.sort {
        Some(n) => seq![mark_tok(":"@), name_tok(n)],
        None => Seq::empty(),
    };
    let one = head + tail;
    let acc = Seq::new(k, |m: int| KifTree::Variable(vars[m].name));
    assert(acc.push(KifTree::Variable(v.name)) =~= Seq::new(k + 1, |m: int| KifTree::Variable(vars[m].name)));
    let end = if k + 1 == vars.len() {
        mark_tok("]"@)
    } else {
        mark_tok(","@)
    };
    if k + 1 < vars.len() {
        lemma_parts_stand(ts, i, one.push(end), vars_toks(vars, k + 1));
    }
    lemma_last_stands(ts, i, one, end);
    assert(ts[i + 0] == one[0]);
    if v.sort is Some {
        assert(ts[i + 1] == one[1]);
        assert(ts[i + 2] == one[2]);
        assert(one.len() == 3);
    } else {
        assert(one.len() == 1);
    }
    if k + 1 < vars.len() {
        lemma_vars_read(ts, i + one.len() + 1, vars, k + 1);
    }
}

proof fn lemma_unit_read(ts: Seq<TokView>, i: int, f: Fof)
    requires
        fof_whole(f),
        stands(ts, i, unit_toks(f)),
        no_more_term(ts, i + unit_toks(f).len()),
    ensures
        unit_at(ts, i) == Some((fof_tree(f), i + unit_toks(f).len())),
        unit_toks(f).len() > 0,
    decreases f, 1nat,
{
    lemma_marks();
    let w = fof_toks(f);
    match f {
        Fof::And(_) | Fof::Or(_) | Fof::Join(_, _, _) => {
            lemma_parts_stand(ts, i, seq![mark_tok("("@)], w.push(mark_tok(")"@)));
            lemma_last_stands(ts, i + 1, w, mark_tok(")"@));
            assert(ts[i + 0] == seq![mark_tok("("@)][0]);
            assert(no_more(ts, i + 1 + w.len()));
            lemma_fof_read(ts, i + 1, f);
        },
        Fof::Atom(t) => {
            lemma_term_read(ts, i, t);
        },
        Fof::Equal(a, b) => {
            lemma_equation_read(ts, i, a, b, "="@);
        },
        Fof::Differ(a, b) => {
            lemma_equation_read(ts, i, a, b, "!="@);
        },
        Fof::Not(g) => {
            lemma_parts_stand(ts, i, seq![mark_tok("~"@)], unit_toks(*g));
            assert(ts[i + 0] == seq![mark_tok("~"@)][0]);
            lemma_unit_read(ts, i + 1, *g);
        },
        Fof::ForAll(vars, g) => {
            lemma_quantified_read(ts, i, vars, *g, "!"@);
            lemma_unit_read(ts, i + 3 + vars_toks(vars, 0).len(), *g);
        },
        Fof::Exists(vars, g) => {
            lemma_quantified_read(ts, i, vars, *g, "?"@);
            lemma_unit_read(ts, i + 3 + vars_toks(vars, 0).len(), *g);
        },
    }
}

proof fn lemma_equation_read(ts: Seq<TokView>, i: int, a: FofTerm, b: FofTerm, mark: Seq<char>)
    requires
        term_whole(a),
        term_whole(b),
        mark == "="@ || mark == "!="@,
        stands(ts, i, term_toks(a).push(mark_tok(mark)) + term_toks(b)),
        !mark_here(ts, i + term_toks(a).len() + 1 + term_toks(b).len(), "("@),
    ensures
        term_at(ts, i) == Some((term_tree(a), i + term_toks(a).len())),
        term_toks(a).len() > 0,
        ts[i].kind != TokKind::Mark,
        mark_here(ts, i + term_toks(a).len(), mark),
        term_at(ts, i + term_toks(a).len() + 1) == Some((term_tree(b), i + term_toks(a).len() + 1 + term_toks(b).len())),
{
    lemma_marks();
    lemma_parts_stand(ts, i, term_toks(a).push(mark_tok(mark)), term_toks(b));
    lemma_last_stands(ts, i, term_toks(a), mark_tok(mark));
    lemma_term_read(ts, i, a);
    lemma_term_read(ts, i + term_toks(a).len() + 1, b);
}

proof fn lemma_quantified_read(ts: Seq<TokView>, i: int, vars: Seq<FofVar>, g: Fof, mark: Seq<char>)
    requires
        vars.len() > 0,
        stands(ts, i, seq![mark_tok(mark), mark_tok("["@)] + vars_toks(vars, 0).push(mark_tok(":"@)) + unit_toks(g)),
    ensures
        mark_here(ts, i, mark),
        mark_here(ts, i + 1, "["@),
        vars_at(ts, i + 2, Seq::empty()) == Some(
            (Seq::new(vars.len(), |m: int| KifTree::Variable(vars[m].name)), i + 2 + vars_toks(vars, 0).len()),
        ),
        mark_here(ts, i + 2 + vars_toks(vars, 0).len(), ":"@),
        stands(ts, i + 3 + vars_toks(vars, 0).len(), unit_toks(g)),
{
    let head = seq![mark_tok(mark), mark_tok("["@)];
    let mid = vars_toks(vars, 0).push(mark_tok(":"@));
    lemma_parts_stand(ts, i, head + mid, unit_toks(g));
    lemma_parts_stand(ts, i, head, mid);
    lemma_last_stands(ts, i + 2, vars_toks(vars, 0), mark_tok(":"@));
    assert(ts[i + 0] == head[0]);
    assert(ts[i + 1] == head[1]);
    assert(Seq::new(0, |m: int| KifTree::Variable(vars[m].name)) =~= Seq::empty());
    lemma_vars_read(ts, i + 2, vars, 0);
}

proof fn lemma_chain_len(fs: Seq<Fof>, k: nat, n: nat, mark: Seq<char>, ts: Seq<TokView>, i: int)
    requires
        1 <= k <= n <= fs.len(),
        stands(ts, i, chain_toks(fs, n, mark)),
    ensures
        stands(ts, i, chain_toks(fs, k, mark)),
        k < n ==> mark_here(ts, i + chain_toks(fs, k, mark).len(), mark) && stands(
            ts,
            i + chain_toks(fs, k, mark).len() + 1,
            unit_toks(fs[k as int]),
        ) && chain_toks(fs, k + 1, mark).len() == chain_toks(fs, k, mark).len() + 1 + unit_toks(fs[k as int]).len(),
    decreases n - k,
{
    if k < n {
        lemma_chain_len(fs, k + 1, n, mark, ts, i);
        lemma_parts_stand(ts, i, chain_toks(fs, k, mark).push(mark_tok(mark)), unit_toks(fs[k as int]));
        lemma_last_stands(ts, i, chain_toks(fs, k, mark), mark_tok(mark));
    }
}

proof fn lemma_chain_read(ts: Seq<TokView>, i: int, fs: Seq<Fof>, k: nat, mark: Seq<char>, op: OpKind)
    requires
        1 <= k < fs.len(),
        forall|m: int| 0 <= m < fs.len() ==> fof_whole(#[trigger] fs[m]),
        mark == "&"@ || mark == "|"@,
        stands(ts, i, chain_toks(fs, fs.len(), mark)),
        no_more_term(ts, i + chain_toks(fs, fs.len(), mark).len()),
        !mark_here(ts, i + chain_toks(fs, fs.len(), mark).len(), mark),
    ensures
        chain_at(ts, i + chain_toks(fs, k, mark).len(), mark, seq![KifTree::Operator(op)] + fof_trees(fs, k)) == Some(
            (seq![KifTree::Operator(op)] + fof_trees(fs, fs.len()), i + chain_toks(fs, fs.len(), mark).len()),
        ),
    decreases fs, fs.len() - k,
{
    lemma_marks();
    let n = fs.len();
    let at = i + chain_toks(fs, k, mark).len();
    lemma_chain_len(fs, k, n, mark, ts, i);
    lemma_chain_len(fs, k + 1, n, mark, ts, i);
    let next = i + chain_toks(fs, k + 1, mark).len();
    assert(no_more_term(ts, next));
    lemma_unit_read(ts, at + 1, fs[k as int]);
    let acc = seq![KifTree::Operator(op)] + fof_trees(fs, k);
    assert(acc.push(fof_tree(fs[k as int])) =~= seq![KifTree::Operator(op)] + fof_trees(fs, k + 1));
    if k + 1 < n {
        lemma_chain_read(ts, i, fs, k + 1, mark, op);
    }
}

proof fn lemma_fof_read(ts: Seq<TokView>, i: int, f: Fof)
    requires
        fof_whole(f),
        stands(ts, i, fof_toks(f)),
        no_more(ts, i + fof_toks(f).len()),
        f is And || f is Or || f is Join,
    ensures
        formula_at(ts, i) == Some((fof_tree(f), i + fof_toks(f).len())),
        fof_toks(f).len() > 0,
    decreases f, 0nat,
{
    lemma_marks();
    match f {
        Fof::And(fs) => {
            lemma_run_read(ts, i, fs, "&"@, OpKind::And);
            lemma_unit_read(ts, i, fs[0]);
            lemma_chain_read(ts, i, fs, 1, "&"@, OpKind::And);
        },
        Fof::Or(fs) => {
            lemma_run_read(ts, i, fs, "|"@, OpKind::Or);
            lemma_unit_read(ts, i, fs[0]);
            lemma_chain_read(ts, i, fs, 1, "|"@, OpKind::Or);
        },
        Fof::Join(j, a, b) => {
            let m = join_text(j);
            lemma_parts_stand(ts, i, unit_toks(*a).push(mark_tok(m)), unit_toks(*b));
            lemma_last_stands(ts, i, unit_toks(*a), mark_tok(m));
            lemma_unit_read(ts, i, *a);
            lemma_unit_read(ts, i + unit_toks(*a).len() + 1, *b);
            let (x, y) = (fof_tree(*a), fof_tree(*b));
            assert(binary_tree(m, x, y) == Some(fof_tree(f)));
        },
        _ => {},
    }
}

proof fn lemma_run_read(ts: Seq<TokView>, i: int, fs: Seq<Fof>, mark: Seq<char>, op: OpKind)
    requires
        fs.len() >= 2,
        mark == "&"@ || mark == "|"@,
        stands(ts, i, chain_toks(fs, fs.len(), mark)),
    ensures
        stands(ts, i, unit_toks(fs[0])),
        no_more_term(ts, i + unit_toks(fs[0]).len()),
        mark_here(ts, i + unit_toks(fs[0]).len(), mark),
        chain_toks(fs, 1, mark) == unit_toks(fs[0]),
        seq![KifTree::Operator(op)] + fof_trees(fs, 1) == seq![KifTree::Operator(op), fof_tree(fs[0])],
        chain_toks(fs, fs.len(), mark).len() > 0,
{
    lemma_marks();
    lemma_chain_len(fs, 1, fs.len(), mark, ts, i);
    reveal_with_fuel(fof_trees, 2);
    assert(seq![KifTree::Operator(op)] + fof_trees(fs, 1) =~= seq![KifTree::Operator(op), fof_tree(fs[0])]);
}

/// The tokens written for a formula are read back to their end as that formula,
/// wherever they stand, if no bracket, equation sign or connective follows: terms with
/// their arguments, equations, negations, quantifiers with all their variables, runs
/// of `&` and of `|` of any length, and the other connectives.
pub proof fn law_written_formulas_are_read_back(ts: Seq<TokView>, i: int, f: Fof)
    requires
        fof_whole(f),
        stands(ts, i, fof_toks(f)),
        no_more(ts, i + fof_toks(f).len()),
    ensures
        formula_at(ts, i) == Some((fof_tree(f), i + fof_toks(f).len())),
{
    if f is And || f is Or || f is Join {
        lemma_fof_read(ts, i, f);
    } else {
        lemma_unit_read(ts, i, f);
    }
}

/// The operands stand one behind the other from the place on, each read as its tree,
/// the mark between each two, and end at the last place.
pub open spec fn operands(ts: Seq<TokView>, i: int, us: Seq<(KifTree, int)>, mark: Seq<char>) -> bool
    decreases us.len(),
{
    us.len() > 0 && us.last().1 > i && if us.len() == 1 {
        unit_at(ts, i) == Some(us[0])
    } else {
        let d = us.drop_last();
        operands(ts, i, d, mark) && mark_here(ts, d.last().1, mark) && unit_at(ts, d.last().1 + 1) == Some(us.last())
            && us.last().1 > d.last().1
    }
}

proof fn lemma_operands(ts: Seq<TokView>, i: int, us: Seq<(KifTree, int)>, k: int, mark: Seq<char>)
    requires
        operands(ts, i, us, mark),
        0 <= k < us.len(),
    ensures
        us[k].1 > i,
        unit_at(
            ts,
            if k == 0 {
                i
            } else {
                us[k - 1].1 + 1
            },
        ) == Some(us[k]),
        k > 0 ==> us[k].1 > us[k - 1].1 && mark_here(ts, us[k - 1].1, mark),
    decreases us.len(),
{
    if us.len() > 1 {
        let d = us.drop_last();
        if k < d.len() {
            lemma_operands(ts, i, d, k, mark);
            assert(d[k] == us[k]);
            assert(k > 0 ==> d[k - 1] == us[k - 1]);
        }
    }
}

proof fn lemma_operands_chain(ts: Seq<TokView>, i: int, us: Seq<(KifTree, int)>, k: int, mark: Seq<char>, op: OpKind)
    requires
        operands(ts, i, us, mark),
        1 <= k < us.len(),
        i >= 0,
        !mark_here(ts, us.last().1, mark),
    ensures
        chain_at(ts, us[k - 1].1, mark, seq![KifTree::Operator(op)] + Seq::new(k as nat, |m: int| us[m].0)) == Some(
            (seq![KifTree::Operator(op)] + Seq::new(us.len(), |m: int| us[m].0), us.last().1),
        ),
    decreases us.len() - k,
{
    lemma_operands(ts, i, us, k, mark);
    lemma_operands(ts, i, us, k - 1, mark);
    let acc = seq![KifTree::Operator(op)] + Seq::new(k as nat, |m: int| us[m].0);
    assert(acc.push(us[k].0) =~= seq![KifTree::Operator(op)] + Seq::new((k + 1) as nat, |m: int| us[m].0));
    if k + 1 < us.len() {
        lemma_operands(ts, i, us, k + 1, mark);
        lemma_operands_chain(ts, i, us, k + 1, mark, op);
    }
}

/// A run of two or more operands with `|` between them is read to its end as one
/// disjunction of all of them, in their order; with `&` as one conjunction.
pub proof fn law_runs_of_any_length_are_read(ts: Seq<TokView>, i: int, us: Seq<(KifTree, int)>)
    requires
        0 <= i < ts.len(),
        us.len() >= 2,
    ensures
        operands(ts, i, us, "|"@) && !mark_here(ts, us.last().1, "|"@) ==> formula_at(ts, i) == Some(
            (KifTree::List(seq![KifTree::Operator(OpKind::Or)] + Seq::new(us.len(), |m: int| us[m].0)), us.last().1),
        ),
        operands(ts, i, us, "&"@) && !mark_here(ts, us.last().1, "&"@) ==> formula_at(ts, i) == Some(
            (KifTree::List(seq![KifTree::Operator(OpKind::And)] + Seq::new(us.len(), |m: int| us[m].0)), us.last().1),
        ),
{
    lemma_marks();
    if operands(ts, i, us, "|"@) && !mark_here(ts, us.last().1, "|"@) {
        lemma_operands(ts, i, us, 0, "|"@);
        lemma_operands(ts, i, us, 1, "|"@);
        lemma_operands_chain(ts, i, us, 1, "|"@, OpKind::Or);
        assert(seq![KifTree::Operator(OpKind::Or)] + Seq::new(1, |m: int| us[m].0) =~= seq![
            KifTree::Operator(OpKind::Or),
            us[0].0,
        ]);
    }
    if operands(ts, i, us, "&"@) && !mark_here(ts, us.last().1, "&"@) {
        lemma_operands(ts, i, us, 0, "&"@);
        lemma_operands(ts, i, us, 1, "&"@);
        lemma_operands_chain(ts, i, us, 1, "&"@, OpKind::And);
        assert(seq![KifTree::Operator(OpKind::And)] + Seq::new(1, |m: int| us[m].0) =~= seq![
            KifTree::Operator(OpKind::And),
            us[0].0,
        ]);
    }
}

/// The mark of a symbol is left off: the rest is the name.  The truth values are
/// named, and any other name stays as it is.
pub proof fn law_names_lose_their_mark(name: Seq<char>)
    ensures
        plain_name("s__"@ + name) == name,
        plain_name("$false"@) == "False"@,
        plain_name("$true"@) == "True"@,
        !(name.len() >= 3 && name.take(3) == "s__"@) && name != "$false"@ && name != "$true"@ ==> plain_name(name) == name,
{
    reveal_strlit("s__");
    reveal_strlit("$false");
    reveal_strlit("$true");
    let s = "s__"@ + name;
    assert(s[0] == 's' && s[1] == '_' && s[2] == '_');
    assert("$false"@[0] == '$' && "$true"@[0] == '$' && "$false"@[1] == 'f' && "$true"@[1] == 't');
    assert(s.subrange(3, s.len() as int) =~= name);
    if name.len() >= 3 && name[0] == 's' && name[1] == '_' && name[2] == '_' {
        assert(name.take(3) =~= "s__"@);
    }
}

} // verus!
