//! Clauses as text, with short names for skolem symbols.
use std::collections::HashMap;

use vstd::prelude::*;

use crate::atoms::{lemma_rank, rank, AtomLit, AtomTable};
use crate::kif::{flat_text, kif_trees, lemma_list_view, KifNode, KifTree};
use crate::store::{Element, SyntacticLayer};
use crate::text::{decimal, digits};
use crate::types::{Literal, SymbolId};
use crate::units::AtomId;

verus! {

broadcast use {vstd::std_specs::hash::group_hash_axioms, lemma_list_view};

/// The names given so far, and how many of each sort.
#[verifier::ext_equal]
pub struct SkolemView {
    pub names: Map<SymbolId, Seq<char>>,
    pub fn_n: nat,
    pub c_n: nat,
}

/// The count after one more name.  It stops at the largest count.
pub open spec fn counted(n: nat) -> nat {
    if n < u64::MAX {
        n + 1
    } else {
        n
    }
}

/// The name of the `n`th skolem function or skolem constant.
pub open spec fn short_name(n: nat, is_fn: bool) -> Seq<char> {
    if is_fn {
        "SkFn"@ + digits(n, 10)
    } else {
        "SkC"@ + digits(n, 10)
    }
}

/// The names after `id` has been asked for: it keeps the name it has, and gets
/// the next of its sort otherwise.
pub open spec fn named(sk: SkolemView, id: SymbolId, is_fn: bool) -> SkolemView {
    if sk.names.dom().contains(id) {
        sk
    } else if is_fn {
        SkolemView {
            names: sk.names.insert(id, short_name(counted(sk.fn_n), true)),
            fn_n: counted(sk.fn_n),
            c_n: sk.c_n,
        }
    } else {
        SkolemView {
            names: sk.names.insert(id, short_name(counted(sk.c_n), false)),
            fn_n: sk.fn_n,
            c_n: counted(sk.c_n),
        }
    }
}

/// Short names of skolem symbols: applied ones and bare ones are counted apart.
pub struct SkolemNames {
    names: HashMap<SymbolId, String>,
    fn_n: u64,
    c_n: u64,
}

impl View for SkolemNames {
    type V = SkolemView;

    closed spec fn view(&self) -> SkolemView {
        SkolemView {
            names: self.names@.map_values(|s: String| s@),
            fn_n: self.fn_n as nat,
            c_n: self.c_n as nat,
        }
    }
}

impl SkolemNames {
    /// No names.
    pub fn new() -> (sk: SkolemNames)
        ensures
            sk@ == (SkolemView { names: Map::empty(), fn_n: 0, c_n: 0 }),
    {
        let sk = SkolemNames { names: HashMap::new(), fn_n: 0, c_n: 0 };
        assert(sk@.names =~= Map::<SymbolId, Seq<char>>::empty());
        sk
    }

    /// The short name of a skolem symbol.
    pub fn render(&mut self, id: SymbolId, is_fn: bool) -> (name: String)
        ensures
            final(self)@ == named(old(self)@, id, is_fn),
            name@ == final(self)@.names[id],
    {
        if let Some(n) = self.names.get(&id) {
            return n.clone();
        }
        let mut name: String = "SkFn".to_owned();
        if is_fn {
            self.fn_n = self.fn_n.saturating_add(1);
            name.append(decimal(self.fn_n).as_str());
        } else {
            self.c_n = self.c_n.saturating_add(1);
            name = "SkC".to_owned();
            name.append(decimal(self.c_n).as_str());
        }
        self.names.insert(id, name.clone());
        assert(self@.names =~= named(old(self)@, id, is_fn).names);
        name
    }
}

/// The names with the mark of a skolem symbol.
pub open spec fn skolem_name(name: Seq<char>) -> bool {
    name.len() >= 3 && name[0] == 's' && name[1] == 'k' && name[2] == '_'
}

/// Whether a name has the mark of a skolem symbol.
pub fn is_skolem_name(name: &str) -> (r: bool)
    ensures
        r == skolem_name(name@),
{
    if name.unicode_len() < 3 {
        return false;
    }
    name.get_char(0) == 's' && name.get_char(1) == 'k' && name.get_char(2) == '_'
}

/// How an element that is no sentence is written, and the names after it.
pub open spec fn leaf_tree(el: Element, is_head: bool, sk: SkolemView) -> (KifTree, SkolemView) {
    match el {
        Element::Symbol(s) => if skolem_name(s.name_spec()) {
            let sk2 = named(sk, s.id_spec(), is_head);
            (KifTree::Symbol(sk2.names[s.id_spec()]), sk2)
        } else {
            (KifTree::Symbol(s.name_spec()), sk)
        },
        Element::Variable { id, name, is_row } => if is_row {
            (KifTree::RowVariable(name@), sk)
        } else {
            (KifTree::Variable(name@), sk)
        },
        Element::Literal(Literal::Str(s)) => (KifTree::Str(s@), sk),
        Element::Literal(Literal::Number(n)) => (KifTree::Number(n@), sk),
        Element::Op(op) => (KifTree::Operator(op), sk),
        Element::Sub(sub) => (KifTree::Symbol(unresolved_text(sub)), sk),
    }
}

/// What stands for an identity that nothing is stored under.
pub open spec fn unresolved_text(id: AtomId) -> Seq<char> {
    "sid: "@ + digits(id as nat, 10)
}

/// How the atom `id` is written, and the names after it.
pub open spec fn atom_tree(atoms: AtomTable, syn: SyntacticLayer, id: AtomId, sk: SkolemView) -> (
    KifTree,
    SkolemView,
)
    decreases rank(atoms@, syn@.entries, id), 1nat, 0nat,
    when atoms.wf() && syn.wf()
{
    match atoms.written(syn, id) {
        None => (KifTree::Symbol(unresolved_text(id)), sk),
        Some(s) => {
            let r = element_trees(atoms, syn, id, s.elements@.len(), sk);
            (KifTree::List(r.0), r.1)
        },
    }
}

/// How the first `n` elements of the atom `id` are written, and the names after
/// them.
pub open spec fn element_trees(atoms: AtomTable, syn: SyntacticLayer, id: AtomId, n: nat, sk: SkolemView) -> (
    Seq<KifTree>,
    SkolemView,
)
    decreases rank(atoms@, syn@.entries, id), 0nat, n,
    when atoms.wf() && syn.wf()
{
    match atoms.written(syn, id) {
        None => (Seq::empty(), sk),
        Some(s) => if n == 0 || n > s.elements@.len() {
            (Seq::empty(), sk)
        } else {
            let r = element_trees(atoms, syn, id, (n - 1) as nat, sk);
            match s.elements@[n - 1] {
                Element::Sub(sub) => {
                    proof {
                        lemma_element_rank(atoms, syn, id, n - 1, sub);
                    }
                    let t = atom_tree(atoms, syn, sub, r.1);
                    (r.0.push(t.0), t.1)
                },
                el => {
                    let t = leaf_tree(el, n == 1 && s.elements@.len() > 1, r.1);
                    (r.0.push(t.0), t.1)
                },
            }
        },
    }
}

pub proof fn lemma_element_rank(atoms: AtomTable, syn: SyntacticLayer, id: AtomId, k: int, sub: AtomId)
    requires
        atoms.wf(),
        syn.wf(),
        atoms.written(syn, id) matches Some(s) && 0 <= k < s.elements@.len() && s.elements@[k] == Element::Sub(
            sub,
        ),
    ensures
        rank(atoms@, syn@.entries, sub) < rank(atoms@, syn@.entries, id),
{
    atoms.lemma_written(syn, id);
    atoms.lemma_ordered();
    syn.lemma_ordered();
    let s = atoms.written(syn, id)->0;
    assert(s@[k] == s.elements@[k]@);
    lemma_rank(atoms@, syn@.entries, id, k, sub);
}

/// How an element of an atom is written.
fn element_to_ast(
    el: &Element,
    atoms: &AtomTable,
    syn: &SyntacticLayer,
    sk: &mut SkolemNames,
    is_head: bool,
    Ghost(bound): Ghost<nat>,
) -> (node: KifNode)
    requires
        atoms.wf(),
        syn.wf(),
        *el matches Element::Sub(sub) ==> rank(atoms@, syn@.entries, sub) < bound,
    ensures
        (node@, final(sk)@) == match *el {
            Element::Sub(sub) => atom_tree(*atoms, *syn, sub, old(sk)@),
            _ => leaf_tree(*el, is_head, old(sk)@),
        },
    decreases bound, 0nat,
{
    match el {
        Element::Symbol(s) => {
            if is_skolem_name(s.name()) {
                KifNode::Symbol(sk.render(s.id(), is_head))
            } else {
                KifNode::Symbol(s.name().to_owned())
            }
        },
        Element::Variable { id, name, is_row } => {
            if *is_row {
                KifNode::RowVariable(name.clone())
            } else {
                KifNode::Variable(name.clone())
            }
        },
        Element::Literal(Literal::Str(s)) => KifNode::Str(s.clone()),
        Element::Literal(Literal::Number(n)) => KifNode::Number(n.clone()),
        Element::Op(op) => KifNode::Operator(*op),
        Element::Sub(sub) => atom_to_ast(*sub, atoms, syn, sk),
    }
}

/// The atom `id` as it is written: a list of its elements, or its number where
/// nothing is stored under it.  A skolem symbol at the head of a longer list is
/// a function, elsewhere a constant.
pub fn atom_to_ast(id: AtomId, atoms: &AtomTable, syn: &SyntacticLayer, sk: &mut SkolemNames) -> (node: KifNode)
    requires
        atoms.wf(),
        syn.wf(),
    ensures
        (node@, final(sk)@) == atom_tree(*atoms, *syn, id, old(sk)@),
    decreases rank(atoms@, syn@.entries, id), 1nat,
{
    let ghost sk0 = sk@;
    match atoms.resolve(id, syn) {
        None => {
            let mut name: String = "sid: ".to_owned();
            name.append(decimal(id).as_str());
            KifNode::Symbol(name)
        },
        Some(s) => {
            let is_applied: bool = s.elements.len() > 1;
            let mut nodes: Vec<KifNode> = Vec::new();
            let mut i: usize = 0;
            assert(kif_trees(nodes@) =~= Seq::empty());
            while i < s.elements.len()
                invariant
                    i <= s.elements@.len(),
                    atoms.wf(),
                    syn.wf(),
                    atoms.written(*syn, id) == Some(*s),
                    is_applied == (s.elements@.len() > 1),
                    (kif_trees(nodes@), sk@) == element_trees(*atoms, *syn, id, i as nat, sk0),
                decreases s.elements@.len() - i,
            {
                let el: &Element = &s.elements[i];
                proof {
                    if let Element::Sub(sub) = *el {
                        lemma_element_rank(*atoms, *syn, id, i as int, sub);
                    }
                }
                let ghost before = nodes@;
                let node: KifNode = element_to_ast(
                    el,
                    atoms,
                    syn,
                    sk,
                    is_applied && i == 0,
                    Ghost(rank(atoms@, syn@.entries, id)),
                );
                nodes.push(node);
                assert(kif_trees(nodes@) =~= kif_trees(before).push(node@));
                i += 1;
            }
            KifNode::List(nodes)
        },
    }
}

/// The texts of the first `n` literals, and the names after them.
pub open spec fn lit_texts(
    lits: Seq<AtomLit>,
    n: nat,
    atoms: AtomTable,
    syn: SyntacticLayer,
    sk: SkolemView,
) -> (Seq<Seq<char>>, SkolemView)
    decreases n,
{
    if n == 0 || n > lits.len() {
        (Seq::empty(), sk)
    } else {
        let r = lit_texts(lits, (n - 1) as nat, atoms, syn, sk);
        let l = lits[n - 1];
        let t = atom_tree(atoms, syn, l.atom, r.1);
        let text = if l.pos {
            flat_text(t.0)
        } else {
            "(not "@ + flat_text(t.0) + ")"@
        };
        (r.0.push(text), t.1)
    }
}

/// The texts apart by one space.
pub open spec fn joined(texts: Seq<Seq<char>>) -> Seq<char>
    decreases texts.len(),
{
    if texts.len() == 0 {
        Seq::empty()
    } else if texts.len() == 1 {
        texts[0]
    } else {
        joined(texts.drop_last()) + " "@ + texts.last()
    }
}

/// The text of a clause: its one literal, or else the disjunction of them.
pub open spec fn clause_text(texts: Seq<Seq<char>>) -> Seq<char> {
    if texts.len() == 1 {
        texts[0]
    } else {
        "(or "@ + joined(texts) + ")"@
    }
}

/// One clause on one line: the literal alone for a unit clause, a disjunction
/// otherwise; a negative literal stands within `not`.
pub fn clause_to_kif(lits: &Vec<AtomLit>, atoms: &AtomTable, syn: &SyntacticLayer, sk: &mut SkolemNames) -> (
    text: String)
    requires
        atoms.wf(),
        syn.wf(),
    ensures
        text@ == clause_text(lit_texts(lits@, lits@.len(), *atoms, *syn, old(sk)@).0),
        final(sk)@ == lit_texts(lits@, lits@.len(), *atoms, *syn, old(sk)@).1,
{
    let ghost sk0 = sk@;
    let mut out: String = String::new();
    let mut i: usize = 0;
    assert(joined(Seq::<Seq<char>>::empty()) =~= Seq::empty());
    while i < lits.len()
        invariant
            i <= lits@.len(),
            atoms.wf(),
            syn.wf(),
            sk@ == lit_texts(lits@, i as nat, *atoms, *syn, sk0).1,
            lit_texts(lits@, i as nat, *atoms, *syn, sk0).0.len() == i,
            out@ == joined(lit_texts(lits@, i as nat, *atoms, *syn, sk0).0),
        decreases lits@.len() - i,
    {
        let ghost texts = lit_texts(lits@, i as nat, *atoms, *syn, sk0).0;
        let ghost so_far = out@;
        let l: AtomLit = lits[i];
        let atom: KifNode = atom_to_ast(l.atom, atoms, syn, sk);
        if i > 0 {
            out.append(" ");
        }
        if l.pos {
            out.append(atom.flat().as_str());
        } else {
            out.append("(not ");
            out.append(atom.flat().as_str());
            out.append(")");
        }
        proof {
            let next = lit_texts(lits@, (i + 1) as nat, *atoms, *syn, sk0).0;
            assert(next.drop_last() =~= texts);
            if i == 0 {
                assert(so_far =~= Seq::empty());
            }
            assert(out@ =~= joined(next));
        }
        i += 1;
    }
    if lits.len() == 1 {
        out
    } else {
        let mut all: String = "(or ".to_owned();
        all.append(out.as_str());
        all.append(")");
        all
    }
}

} // verus!
