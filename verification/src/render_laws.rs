//! What holds of the short names across a rendering.
use vstd::prelude::*;

use crate::atoms::{rank, AtomLit, AtomTable};
use crate::kif::{flat_text, op_text, spaced, KifTree};
use crate::render::{
    atom_tree, clause_text, element_trees, joined, leaf_tree, lemma_element_rank, lit_texts, named, short_name, skolem_name, SkolemView,
};
use crate::store::{Element, Sentence, SyntacticLayer};
use crate::text::{digit_char, digits};
use crate::types::{OpKind, SymbolId};
use crate::units::AtomId;

verus! {

/// The name was given to a function or a constant counted in `sk`.
pub open spec fn given(sk: SkolemView, name: Seq<char>) -> bool {
    ||| exists|k: nat| 1 <= k <= sk.fn_n && name == #[trigger] short_name(k, true)
    ||| exists|k: nat| 1 <= k <= sk.c_n && name == #[trigger] short_name(k, false)
}

/// Every name was counted, and no two symbols share one.
pub open spec fn orderly(sk: SkolemView) -> bool {
    &&& forall|id: SymbolId| #[trigger] sk.names.dom().contains(id) ==> given(sk, sk.names[id])
    &&& forall|a: SymbolId, b: SymbolId|
        #![trigger sk.names.dom().contains(a), sk.names.dom().contains(b)]
        sk.names.dom().contains(a) && sk.names.dom().contains(b) && a != b ==> sk.names[a] != sk.names[b]
}

/// `later` keeps the names of `sk` and counts no fewer.
pub open spec fn follows(sk: SkolemView, later: SkolemView) -> bool {
    &&& sk.fn_n <= later.fn_n
    &&& sk.c_n <= later.c_n
    &&& sk.names.submap_of(later.names)
    &&& later.fn_n < u64::MAX && later.c_n < u64::MAX && orderly(sk) ==> orderly(later)
}

proof fn lemma_digits_differ(a: nat, b: nat)
    requires
        digits(a, 10) == digits(b, 10),
    ensures
        a == b,
    decreases a,
{
    reveal_with_fuel(digits, 2);
    reveal_strlit("0123456789abcdef");
    let x = digits(a, 10);
    let y = digits(b, 10);
    if a >= 10 {
        assert(x.drop_last() =~= digits(a / 10, 10));
        assert(digits(a / 10, 10).len() > 0);
        if b >= 10 {
            assert(y.drop_last() =~= digits(b / 10, 10));
            lemma_digits_differ(a / 10, b / 10);
            assert(x.last() == digit_char((a % 10) as int));
            assert(y.last() == digit_char((b % 10) as int));
        } else {
            assert(y.len() == 1);
            assert(x.len() == digits(a / 10, 10).len() + 1);
        }
    } else if b >= 10 {
        assert(digits(b / 10, 10).len() > 0);
        assert(x.len() == 1);
        assert(y.len() == digits(b / 10, 10).len() + 1);
    } else {
        assert(x[0] == digit_char(a as int));
        assert(y[0] == digit_char(b as int));
    }
}

proof fn lemma_short_names_differ(a: nat, b: nat, fa: bool, fb: bool)
    requires
        short_name(a, fa) == short_name(b, fb),
    ensures
        a == b,
        fa == fb,
{
    reveal_strlit("SkFn");
    reveal_strlit("SkC");
    let x = short_name(a, fa);
    let y = short_name(b, fb);
    assert(x[2] == (if fa {
        'F'
    } else {
        'C'
    }));
    assert(y[2] == (if fb {
        'F'
    } else {
        'C'
    }));
    let n: int = if fa {
        4
    } else {
        3
    };
    assert(x.skip(n) =~= digits(a, 10));
    assert(y.skip(n) =~= digits(b, 10));
    lemma_digits_differ(a, b);
}

/// A symbol that has a short name keeps it, and while the counts last no two
/// symbols get the same one.
pub proof fn law_short_names_are_apart(sk: SkolemView, id: SymbolId, is_fn: bool)
    ensures
        follows(sk, named(sk, id, is_fn)),
        named(sk, id, is_fn).names.dom().contains(id),
{
    let later = named(sk, id, is_fn);
    if later.fn_n < u64::MAX && later.c_n < u64::MAX && orderly(sk) && !sk.names.dom().contains(id) {
        let k = if is_fn {
            later.fn_n
        } else {
            later.c_n
        };
        let name = short_name(k, is_fn);
        assert(later.names[id] == name);
        assert(given(later, name));
        assert forall|a: SymbolId| #[trigger] later.names.dom().contains(a) implies given(later, later.names[a]) && (a
            != id ==> later.names[a] != name) by {
            if a != id {
                let other = sk.names[a];
                assert(sk.names.dom().contains(a));
                if exists|j: nat| 1 <= j <= sk.fn_n && other == #[trigger] short_name(j, true) {
                    let j = choose|j: nat| 1 <= j <= sk.fn_n && other == #[trigger] short_name(j, true);
                    if other == name {
                        lemma_short_names_differ(j, k, true, is_fn);
                    }
                } else {
                    let j = choose|j: nat| 1 <= j <= sk.c_n && other == #[trigger] short_name(j, false);
                    if other == name {
                        lemma_short_names_differ(j, k, false, is_fn);
                    }
                }
            }
        }
        assert forall|a: SymbolId, b: SymbolId|
            #![trigger later.names.dom().contains(a), later.names.dom().contains(b)]
            later.names.dom().contains(a) && later.names.dom().contains(b) && a != b implies later.names[a]
            != later.names[b] by {
            if a != id && b != id {
                assert(sk.names.dom().contains(a) && sk.names.dom().contains(b));
            }
        }
    }
}

proof fn lemma_follows_on(a: SkolemView, b: SkolemView, c: SkolemView)
    requires
        follows(a, b),
        follows(b, c),
    ensures
        follows(a, c),
{
    assert forall|id: SymbolId| #[trigger] a.names.dom().contains(id) implies c.names.dom().contains(id)
        && a.names[id] == c.names[id] by {
        assert(b.names.dom().contains(id));
    }
}

proof fn lemma_leaf_follows(el: Element, is_head: bool, sk: SkolemView)
    ensures
        follows(sk, leaf_tree(el, is_head, sk).1),
{
    if let Element::Symbol(s) = el {
        if skolem_name(s.name_spec()) {
            law_short_names_are_apart(sk, s.id_spec(), is_head);
        }
    }
}

proof fn lemma_elements_follow(atoms: AtomTable, syn: SyntacticLayer, id: AtomId, n: nat, sk: SkolemView)
    requires
        atoms.wf(),
        syn.wf(),
    ensures
        follows(sk, element_trees(atoms, syn, id, n, sk).1),
    decreases rank(atoms@, syn@.entries, id), 0nat, n,
{
    if let Some(s) = atoms.written(syn, id) {
        if n > 0 && n <= s.elements@.len() {
            lemma_elements_follow(atoms, syn, id, (n - 1) as nat, sk);
            let mid = element_trees(atoms, syn, id, (n - 1) as nat, sk).1;
            match s.elements@[n - 1] {
                Element::Sub(sub) => {
                    lemma_element_rank(atoms, syn, id, n - 1, sub);
                    law_rendering_keeps_names(atoms, syn, sub, mid);
                },
                el => {
                    lemma_leaf_follows(el, n == 1 && s.elements@.len() > 1, mid);
                },
            }
            lemma_follows_on(sk, mid, element_trees(atoms, syn, id, n, sk).1);
        }
    }
}

/// To write an atom keeps every short name given before, and while the counts
/// last it gives no name twice.
pub proof fn law_rendering_keeps_names(atoms: AtomTable, syn: SyntacticLayer, id: AtomId, sk: SkolemView)
    requires
        atoms.wf(),
        syn.wf(),
    ensures
        follows(sk, atom_tree(atoms, syn, id, sk).1),
    decreases rank(atoms@, syn@.entries, id), 1nat, 0nat,
{
    if let Some(s) = atoms.written(syn, id) {
        lemma_elements_follow(atoms, syn, id, s.elements@.len(), sk);
    }
}

/// To write a clause keeps every short name given before, so one symbol is
/// written alike in all the clauses of a run; and while the counts last no name
/// is given twice.
pub proof fn law_clauses_share_names(
    lits: Seq<AtomLit>,
    n: nat,
    atoms: AtomTable,
    syn: SyntacticLayer,
    sk: SkolemView,
)
    requires
        atoms.wf(),
        syn.wf(),
    ensures
        follows(sk, lit_texts(lits, n, atoms, syn, sk).1),
    decreases n,
{
    if n > 0 && n <= lits.len() {
        law_clauses_share_names(lits, (n - 1) as nat, atoms, syn, sk);
        let mid = lit_texts(lits, (n - 1) as nat, atoms, syn, sk).1;
        law_rendering_keeps_names(atoms, syn, lits[n - 1].atom, mid);
        lemma_follows_on(sk, mid, lit_texts(lits, n, atoms, syn, sk).1);
    }
}

/// The texts of the trees.
pub open spec fn tree_texts(ts: Seq<KifTree>) -> Seq<Seq<char>> {
    Seq::new(ts.len(), |i: int| flat_text(ts[i]))
}

proof fn lemma_joined_texts(ts: Seq<KifTree>, n: nat)
    requires
        n <= ts.len(),
    ensures
        joined(tree_texts(ts.take(n as int))) == spaced(ts, n),
    decreases n,
{
    let us = tree_texts(ts.take(n as int));
    if n > 1 {
        lemma_joined_texts(ts, (n - 1) as nat);
        assert(us.drop_last() =~= tree_texts(ts.take(n - 1)));
        assert(us.last() == flat_text(ts[n - 1]));
        reveal_strlit(" ");
        assert(" "@ =~= seq![' ']);
    } else if n == 1 {
        assert(us[0] == flat_text(ts[0]));
    }
}

/// A clause of one literal is written as the literal, and one of more as the disjunction
/// that has them in order.
pub proof fn law_clauses_are_written_as_disjunctions(ts: Seq<KifTree>)
    ensures
        ts.len() == 1 ==> clause_text(tree_texts(ts)) == flat_text(ts[0]),
        ts.len() > 1 ==> clause_text(tree_texts(ts)) == flat_text(
            KifTree::List(seq![KifTree::Operator(OpKind::Or)] + ts),
        ),
{
    if ts.len() > 1 {
        let l = seq![KifTree::Operator(OpKind::Or)] + ts;
        assert(ts.take(ts.len() as int) =~= ts);
        lemma_joined_texts(ts, ts.len());
        lemma_spaced_behind(KifTree::Operator(OpKind::Or), ts, ts.len());
        reveal_strlit("(or ");
        reveal_strlit("or");
        reveal_strlit(")");
        assert(flat_text(KifTree::Operator(OpKind::Or)) == "or"@);
        assert("(or "@ =~= seq!['('] + "or"@ + seq![' ']);
        assert(")"@ =~= seq![')']);
        assert(flat_text(KifTree::List(l)) == seq!['('] + spaced(l, l.len()) + seq![')']);
        assert(clause_text(tree_texts(ts)) =~= flat_text(KifTree::List(l)));
    }
}

proof fn lemma_spaced_behind(head: KifTree, ts: Seq<KifTree>, n: nat)
    requires
        0 < n <= ts.len(),
    ensures
        spaced(seq![head] + ts, n + 1) == flat_text(head) + seq![' '] + spaced(ts, n),
    decreases n,
{
    let l = seq![head] + ts;
    assert(l[n as int] == ts[n - 1]);
    if n > 1 {
        lemma_spaced_behind(head, ts, (n - 1) as nat);
        assert(spaced(l, n + 1) =~= flat_text(head) + seq![' '] + spaced(ts, n));
    } else {
        assert(spaced(l, 1) == flat_text(l[0]));
        assert(spaced(l, 2) == spaced(l, 1) + seq![' '] + flat_text(l[1]));
    }
}

/// The literals of a clause are written in order: a positive one as its atom, a negative
/// one as the negation of it.
pub proof fn law_literals_are_written_in_order(
    lits: Seq<AtomLit>,
    n: nat,
    atoms: AtomTable,
    syn: SyntacticLayer,
    sk: SkolemView,
)
    requires
        n < lits.len(),
    ensures
        ({
            let before = lit_texts(lits, n, atoms, syn, sk);
            let after = lit_texts(lits, n + 1, atoms, syn, sk);
            let t = atom_tree(atoms, syn, lits[n as int].atom, before.1);
            &&& before.0.len() == n
            &&& after.0.drop_last() == before.0
            &&& after.1 == t.1
            &&& after.0.last() == if lits[n as int].pos {
                flat_text(t.0)
            } else {
                flat_text(KifTree::List(seq![KifTree::Operator(OpKind::Not), t.0]))
            }
        }),
    decreases n,
{
    let before = lit_texts(lits, n, atoms, syn, sk);
    let after = lit_texts(lits, n + 1, atoms, syn, sk);
    if n > 0 {
        law_literals_are_written_in_order(lits, (n - 1) as nat, atoms, syn, sk);
    }
    let t = atom_tree(atoms, syn, lits[n as int].atom, before.1);
    assert(after.0.drop_last() =~= before.0);
    let l = seq![KifTree::Operator(OpKind::Not), t.0];
    lemma_spaced_behind(KifTree::Operator(OpKind::Not), seq![t.0], 1);
    assert(seq![KifTree::Operator(OpKind::Not)] + seq![t.0] =~= l);
    assert(spaced(seq![t.0], 1) == flat_text(t.0));
    reveal_strlit("(not ");
    reveal_strlit("not");
    reveal_strlit(")");
    assert(flat_text(KifTree::Operator(OpKind::Not)) == "not"@);
    assert("(not "@ =~= seq!['('] + "not"@ + seq![' ']);
    assert(")"@ =~= seq![')']);
    assert("(not "@ + flat_text(t.0) + ")"@ =~= flat_text(KifTree::List(l)));
}

/// A leaf is written as what it is: a variable and a row variable by name, a literal and an
/// operator as they stand, and a symbol by its name unless that has the mark of a skolem
/// symbol; none of these but the last takes a short name.
pub proof fn law_leaves_are_written_as_they_are(el: Element, is_head: bool, sk: SkolemView)
    requires
        !(el is Sub),
        el matches Element::Symbol(s) ==> !skolem_name(s.name_spec()),
    ensures
        leaf_tree(el, is_head, sk).1 == sk,
        flat_text(leaf_tree(el, is_head, sk).0) == match el {
            Element::Symbol(s) => s.name_spec(),
            Element::Variable { name, is_row, .. } => seq![if is_row {
                '@'
            } else {
                '?'
            }] + name@,
            Element::Literal(l) => l@.text,
            Element::Op(op) => op_text(op),
            Element::Sub(_) => Seq::empty(),
        },
{
}

/// A skolem symbol that has a short name already is written by it, wherever it stands.
pub proof fn law_known_skolems_keep_their_name(el: Element, is_head: bool, sk: SkolemView)
    requires
        el matches Element::Symbol(s) && skolem_name(s.name_spec()) && sk.names.dom().contains(s.id_spec()),
    ensures
        leaf_tree(el, is_head, sk).1 == sk,
        el matches Element::Symbol(s) ==> flat_text(leaf_tree(el, is_head, sk).0) == sk.names[s.id_spec()],
{
}

/// The elements of an atom are written one by one, in order, each as the names before it
/// leave them: a sentence as its own atom, all else as a leaf, the first of several at the
/// head.
pub proof fn law_elements_are_written_in_order(
    atoms: AtomTable,
    syn: SyntacticLayer,
    id: AtomId,
    s: Sentence,
    n: nat,
    sk: SkolemView,
)
    requires
        atoms.wf(),
        syn.wf(),
        atoms.written(syn, id) == Some(s),
        n < s.elements@.len(),
    ensures
        ({
            let before = element_trees(atoms, syn, id, n, sk);
            let after = element_trees(atoms, syn, id, n + 1, sk);
            let one = match s.elements@[n as int] {
                Element::Sub(sub) => atom_tree(atoms, syn, sub, before.1),
                el => leaf_tree(el, n == 0 && s.elements@.len() > 1, before.1),
            };
            &&& before.0.len() == n
            &&& after == (before.0.push(one.0), one.1)
            &&& atom_tree(atoms, syn, id, sk).0 == KifTree::List(element_trees(atoms, syn, id, s.elements@.len(), sk).0)
        }),
    decreases n,
{
    if n > 0 {
        law_elements_are_written_in_order(atoms, syn, id, s, (n - 1) as nat, sk);
    }
}

} // verus!
