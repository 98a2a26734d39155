//! Formulas as nested lists, and their text on one line.
use vstd::prelude::*;

use crate::types::OpKind;

verus! {

/// A formula or a term as it is written: a name, a variable, a string or a
/// number with its text as it stands, an operator, or a list.
#[derive(Debug, PartialEq, Eq)]
pub enum KifNode {
    Symbol(String),
    Variable(String),
    RowVariable(String),
    Str(String),
    Number(String),
    Operator(OpKind),
    List(Vec<KifNode>),
}

/// The tree that a [`KifNode`] stands for.
pub enum KifTree {
    Symbol(Seq<char>),
    Variable(Seq<char>),
    RowVariable(Seq<char>),
    Str(Seq<char>),
    Number(Seq<char>),
    Operator(OpKind),
    List(Seq<KifTree>),
}

impl View for KifNode {
    type V = KifTree;

    open spec fn view(&self) -> KifTree
        decreases self,
    {
        match self {
            KifNode::Symbol(s) => KifTree::Symbol(s@),
            KifNode::Variable(s) => KifTree::Variable(s@),
            KifNode::RowVariable(s) => KifTree::RowVariable(s@),
            KifNode::Str(s) => KifTree::Str(s@),
            KifNode::Number(s) => KifTree::Number(s@),
            KifNode::Operator(op) => KifTree::Operator(*op),
            KifNode::List(nodes) => KifTree::List(
                Seq::new(
                    nodes@.len(),
                    |i: int|
                        if 0 <= i < nodes@.len() {
                            nodes@[i].view()
                        } else {
                            arbitrary()
                        },
                ),
            ),
        }
    }
}

/// The trees of a sequence of nodes.
pub open spec fn kif_trees(nodes: Seq<KifNode>) -> Seq<KifTree> {
    Seq::new(nodes.len(), |i: int| nodes[i]@)
}

pub broadcast proof fn lemma_list_view(nodes: Vec<KifNode>)
    ensures
        #[trigger] KifNode::List(nodes)@ == KifTree::List(kif_trees(nodes@)),
{
    reveal_with_fuel(<KifNode as View>::view, 2);
    assert(KifNode::List(nodes)@->List_0 =~= kif_trees(nodes@));
}

/// How an operator is written.
pub open spec fn op_text(op: OpKind) -> Seq<char> {
    match op {
        OpKind::And => "and"@,
        OpKind::Or => "or"@,
        OpKind::Not => "not"@,
        OpKind::Implies => "=>"@,
        OpKind::Iff => "<=>"@,
        OpKind::Equal => "equal"@,
        OpKind::ForAll => "forall"@,
        OpKind::Exists => "exists"@,
    }
}

/// The text of a tree on one line: a list in round brackets, its elements
/// apart by one space; `?` before a variable and `@` before a row variable.
pub open spec fn flat_text(t: KifTree) -> Seq<char>
    decreases t, 0nat,
{
    match t {
        KifTree::Symbol(s) => s,
        KifTree::Variable(s) => seq!['?'] + s,
        KifTree::RowVariable(s) => seq!['@'] + s,
        KifTree::Str(s) => s,
        KifTree::Number(s) => s,
        KifTree::Operator(op) => op_text(op),
        KifTree::List(ts) => seq!['('] + spaced(ts, ts.len()) + seq![')'],
    }
}

/// The texts of the first `n` trees, apart by one space.
pub open spec fn spaced(ts: Seq<KifTree>, n: nat) -> Seq<char>
    decreases ts, n,
{
    if n == 0 || n > ts.len() {
        Seq::empty()
    } else if n == 1 {
        flat_text(ts[0])
    } else {
        spaced(ts, (n - 1) as nat) + seq![' '] + flat_text(ts[n - 1])
    }
}

/// How an operator is written.
pub fn op_str(op: OpKind) -> (s: &'static str)
    ensures
        s@ == op_text(op),
{
    match op {
        OpKind::And => "and",
        OpKind::Or => "or",
        OpKind::Not => "not",
        OpKind::Implies => "=>",
        OpKind::Iff => "<=>",
        OpKind::Equal => "equal",
        OpKind::ForAll => "forall",
        OpKind::Exists => "exists",
    }
}

impl Clone for KifNode {
    fn clone(&self) -> (r: KifNode)
        ensures
            r@ == self@,
        decreases self,
    {
        broadcast use lemma_list_view;

        match self {
            KifNode::Symbol(s) => KifNode::Symbol(s.clone()),
            KifNode::Variable(s) => KifNode::Variable(s.clone()),
            KifNode::RowVariable(s) => KifNode::RowVariable(s.clone()),
            KifNode::Str(s) => KifNode::Str(s.clone()),
            KifNode::Number(s) => KifNode::Number(s.clone()),
            KifNode::Operator(op) => KifNode::Operator(*op),
            KifNode::List(nodes) => {
                let mut out: Vec<KifNode> = Vec::new();
                let mut i: usize = 0;
                while i < nodes.len()
                    invariant
                        i <= nodes@.len(),
                        out@.len() == i,
                        forall|k: int| 0 <= k < i ==> (#[trigger] out@[k])@ == nodes@[k]@,
                        decreases_to!(self => nodes@),
                    decreases nodes@.len() - i,
                {
                    let n: KifNode = nodes[i].clone();
                    out.push(n);
                    i += 1;
                }
                assert(kif_trees(out@) =~= kif_trees(nodes@));
                KifNode::List(out)
            },
        }
    }
}

impl KifNode {
    /// The node's text on one line.
    pub fn flat(&self) -> (s: String)
        ensures
            s@ == flat_text(self@),
    {
        let mut out: String = String::new();
        self.write_flat(&mut out);
        assert(out@ =~= flat_text(self@));
        out
    }

    fn write_flat(&self, out: &mut String)
        ensures
            final(out)@ == old(out)@ + flat_text(self@),
        decreases self,
    {
        broadcast use lemma_list_view;

        let ghost before = out@;
        match self {
            KifNode::Symbol(s) => {
                out.append(s.as_str());
            },
            KifNode::Variable(s) => {
                out.push('?');
                out.append(s.as_str());
                assert(out@ =~= before + (seq!['?'] + s@));
            },
            KifNode::RowVariable(s) => {
                out.push('@');
                out.append(s.as_str());
                assert(out@ =~= before + (seq!['@'] + s@));
            },
            KifNode::Str(s) => {
                out.append(s.as_str());
            },
            KifNode::Number(s) => {
                out.append(s.as_str());
            },
            KifNode::Operator(op) => {
                out.append(op_str(*op));
            },
            KifNode::List(nodes) => {
                let ghost ts = kif_trees(nodes@);
                out.push('(');
                let mut i: usize = 0;
                assert(out@ =~= before + seq!['('] + spaced(ts, 0));
                while i < nodes.len()
                    invariant
                        i <= nodes@.len(),
                        ts == kif_trees(nodes@),
                        out@ == before + seq!['('] + spaced(ts, i as nat),
                        decreases_to!(self => nodes@),
                    decreases nodes@.len() - i,
                {
                    if i > 0 {
                        out.push(' ');
                    }
                    nodes[i].write_flat(out);
                    assert(ts[i as int] == nodes@[i as int]@);
                    assert(out@ =~= before + seq!['('] + spaced(ts, (i + 1) as nat));
                    i += 1;
                }
                out.push(')');
                assert(self@ == KifTree::List(ts));
                assert(out@ =~= before + (seq!['('] + spaced(ts, ts.len()) + seq![')']));
            },
        }
    }
}

// ---------------------------------------------------------------------------
// A text tells what was written
// ---------------------------------------------------------------------------

/// The text is one word: not empty, without a space or a round bracket.
pub open spec fn one_word(s: Seq<char>) -> bool {
    s.len() > 0 && forall|i: int| 0 <= i < s.len() ==> #[trigger] s[i] != ' ' && s[i] != '(' && s[i] != ')'
}

/// Every leaf of the tree is written as one word.
pub open spec fn in_words(t: KifTree) -> bool
    decreases t,
{
    match t {
        KifTree::List(ts) => forall|i: int| 0 <= i < ts.len() ==> in_words(#[trigger] ts[i]),
        _ => one_word(flat_text(t)),
    }
}

/// The trees have the same lists in the same places, and the same words for leaves.
pub open spec fn alike(t: KifTree, u: KifTree) -> bool
    decreases t,
{
    match (t, u) {
        (KifTree::List(ts), KifTree::List(us)) => ts.len() == us.len() && forall|i: int|
            0 <= i < ts.len() ==> alike(#[trigger] ts[i], us[i]),
        (KifTree::List(_), _) => false,
        (_, KifTree::List(_)) => false,
        _ => flat_text(t) == flat_text(u),
    }
}

/// The text ends, or a space or a closing bracket comes.
pub open spec fn word_ends(s: Seq<char>) -> bool {
    s.len() == 0 || s[0] == ' ' || s[0] == ')'
}

/// The texts of the trees from the place on, apart by one space.
spec fn spaced_from(ts: Seq<KifTree>, k: nat) -> Seq<char>
    decreases ts.len() - k,
{
    if k >= ts.len() {
        Seq::empty()
    } else if k + 1 == ts.len() {
        flat_text(ts[k as int])
    } else {
        flat_text(ts[k as int]) + seq![' '] + spaced_from(ts, k + 1)
    }
}

proof fn lemma_spaced_split(ts: Seq<KifTree>, k: nat)
    requires
        0 < k < ts.len(),
    ensures
        spaced(ts, ts.len()) == spaced(ts, k) + seq![' '] + spaced_from(ts, k),
    decreases ts.len() - k,
{
    if k + 1 == ts.len() {
        assert(spaced(ts, ts.len()) =~= spaced(ts, k) + seq![' '] + spaced_from(ts, k));
    } else {
        lemma_spaced_split(ts, k + 1);
        assert(spaced(ts, k + 1) == spaced(ts, k) + seq![' '] + flat_text(ts[k as int]));
        assert(spaced(ts, ts.len()) =~= spaced(ts, k) + seq![' '] + spaced_from(ts, k));
    }
}

proof fn lemma_spaced_whole(ts: Seq<KifTree>)
    ensures
        spaced(ts, ts.len()) == spaced_from(ts, 0),
{
    if ts.len() > 1 {
        lemma_spaced_split(ts, 1);
        assert(spaced(ts, 1) == flat_text(ts[0]));
        assert(spaced_from(ts, 0) =~= flat_text(ts[0]) + seq![' '] + spaced_from(ts, 1));
    } else if ts.len() == 1 {
        assert(spaced(ts, 1) == flat_text(ts[0]));
    }
}

proof fn lemma_starts(t: KifTree)
    requires
        in_words(t),
    ensures
        flat_text(t).len() > 0,
        flat_text(t)[0] != ' ',
        flat_text(t)[0] != ')',
        flat_text(t)[0] == '(' <==> t is List,
{
    if let KifTree::List(ts) = t {
        assert(flat_text(t)[0] == '(');
    }
}

proof fn lemma_words_end(a: Seq<char>, x: Seq<char>, b: Seq<char>, y: Seq<char>)
    requires
        one_word(a),
        one_word(b),
        word_ends(x),
        word_ends(y),
        a + x == b + y,
    ensures
        a == b,
        x == y,
{
    let s = a + x;
    assert(s == b + y);
    if a.len() < b.len() {
        assert(s[a.len() as int] == b[a.len() as int]);
        assert(s[a.len() as int] == x[0]);
    } else if b.len() < a.len() {
        assert(s[b.len() as int] == a[b.len() as int]);
        assert(s[b.len() as int] == y[0]);
    }
    assert(a =~= b) by {
        assert forall|i: int| 0 <= i < a.len() implies a[i] == b[i] by {
            assert(a[i] == s[i] && b[i] == (b + y)[i]);
        }
    }
    assert(x =~= y) by {
        assert forall|i: int| 0 <= i < x.len() implies x[i] == y[i] by {
            assert(x[i] == s[a.len() + i] && y[i] == (b + y)[b.len() + i]);
        }
    }
}

proof fn lemma_read_apart(t: KifTree, x: Seq<char>, u: KifTree, y: Seq<char>)
    requires
        in_words(t),
        in_words(u),
        word_ends(x),
        word_ends(y),
        flat_text(t) + x == flat_text(u) + y,
    ensures
        alike(t, u),
        x == y,
    decreases t, 1nat, 0nat,
{
    let s = flat_text(t) + x;
    lemma_starts(t);
    lemma_starts(u);
    assert(s[0] == flat_text(t)[0]);
    assert((flat_text(u) + y)[0] == flat_text(u)[0]);
    match (t, u) {
        (KifTree::List(ts), KifTree::List(us)) => {
            let a = spaced_from(ts, 0) + seq![')'] + x;
            let b = spaced_from(us, 0) + seq![')'] + y;
            lemma_spaced_whole(ts);
            lemma_spaced_whole(us);
            assert(flat_text(t) + x =~= seq!['('] + a);
            assert(flat_text(u) + y =~= seq!['('] + b);
            assert(a =~= b) by {
                assert((seq!['('] + a).skip(1) =~= a);
                assert((seq!['('] + b).skip(1) =~= b);
            }
            lemma_read_lists_apart(ts, x, us, y, 0);
            assert forall|i: int| 0 <= i < ts.len() implies alike(#[trigger] ts[i], us[i]) by {}
        },
        (KifTree::List(_), _) => {},
        (_, KifTree::List(_)) => {},
        _ => {
            lemma_words_end(flat_text(t), x, flat_text(u), y);
        },
    }
}

proof fn lemma_read_lists_apart(ts: Seq<KifTree>, x: Seq<char>, us: Seq<KifTree>, y: Seq<char>, k: nat)
    requires
        k <= ts.len(),
        k <= us.len(),
        k > 0 ==> k < ts.len() && k < us.len(),
        forall|i: int| 0 <= i < ts.len() ==> in_words(#[trigger] ts[i]),
        forall|i: int| 0 <= i < us.len() ==> in_words(#[trigger] us[i]),
        word_ends(x),
        word_ends(y),
        spaced_from(ts, k) + seq![')'] + x == spaced_from(us, k) + seq![')'] + y,
    ensures
        ts.len() == us.len(),
        forall|i: int| k <= i < ts.len() ==> alike(#[trigger] ts[i], us[i]),
        x == y,
    decreases ts, 0nat, ts.len() - k,
{
    let a = spaced_from(ts, k) + seq![')'] + x;
    let b = spaced_from(us, k) + seq![')'] + y;
    if k == ts.len() {
        assert(a[0] == ')');
        if k < us.len() {
            lemma_starts(us[k as int]);
            assert(b[0] == flat_text(us[k as int])[0]);
        } else {
            assert(a.skip(1) =~= x);
            assert(b.skip(1) =~= y);
        }
    } else if k == us.len() {
        lemma_starts(ts[k as int]);
        assert(a[0] == flat_text(ts[k as int])[0]);
        assert(b[0] == ')');
    } else {
        let t = ts[k as int];
        let u = us[k as int];
        let p = if k + 1 == ts.len() {
            seq![')'] + x
        } else {
            seq![' '] + spaced_from(ts, k + 1) + seq![')'] + x
        };
        let q = if k + 1 == us.len() {
            seq![')'] + y
        } else {
            seq![' '] + spaced_from(us, k + 1) + seq![')'] + y
        };
        assert(a =~= flat_text(t) + p);
        assert(b =~= flat_text(u) + q);
        assert(in_words(ts[k as int]) && in_words(us[k as int]));
        lemma_read_apart(t, p, u, q);
        assert(p[0] == q[0]);
        if k + 1 == ts.len() {
            assert(p[0] == ')');
            assert(k + 1 == us.len()) by {
                if k + 1 < us.len() {
                    assert(q[0] == ' ');
                }
            }
            assert(p.skip(1) =~= x);
            assert(q.skip(1) =~= y);
        } else {
            assert(p[0] == ' ');
            assert(k + 1 < us.len()) by {
                if k + 1 == us.len() {
                    assert(q[0] == ')');
                }
            }
            assert(p.skip(1) =~= spaced_from(ts, k + 1) + seq![')'] + x);
            assert(q.skip(1) =~= spaced_from(us, k + 1) + seq![')'] + y);
            lemma_read_lists_apart(ts, x, us, y, k + 1);
        }
    }
}

/// The text of a tree tells the tree: two trees whose leaves are words are written alike
/// only if they have the same lists in the same places and the same words for leaves.
pub proof fn law_texts_tell_the_tree(t: KifTree, u: KifTree)
    requires
        in_words(t),
        in_words(u),
        flat_text(t) == flat_text(u),
    ensures
        alike(t, u),
{
    let none = Seq::<char>::empty();
    assert(flat_text(t) + none =~= flat_text(u) + none);
    lemma_read_apart(t, none, u, none);
}

/// No two operators are written alike, and each is one word.
pub proof fn law_operators_have_their_own_words(a: OpKind, b: OpKind)
    ensures
        op_text(a) == op_text(b) ==> a == b,
        one_word(op_text(a)),
{
    reveal_strlit("and");
    reveal_strlit("or");
    reveal_strlit("not");
    reveal_strlit("=>");
    reveal_strlit("<=>");
    reveal_strlit("equal");
    reveal_strlit("forall");
    reveal_strlit("exists");
    if op_text(a) == op_text(b) {
        assert(op_text(a).len() == op_text(b).len());
        assert(op_text(a)[0] == op_text(b)[0]);
    }
}

/// Variables and row variables keep their names behind a mark of their own; all else that
/// is no list is written as it stands.
pub proof fn law_marks_of_variables(s: Seq<char>)
    ensures
        flat_text(KifTree::Variable(s)) == seq!['?'] + s,
        flat_text(KifTree::RowVariable(s)) == seq!['@'] + s,
        flat_text(KifTree::Symbol(s)) == s,
        flat_text(KifTree::Str(s)) == s,
        flat_text(KifTree::Number(s)) == s,
{
}

} // verus!
