//! First-order terms over slot variables.
use vstd::prelude::*;

use crate::types::{Literal, LiteralView, OpKind, Symbol, SymbolId};

verus! {

/// A term: a symbol, a variable, a literal, an operator, or an application
/// whose first element is the head.
#[derive(Debug, PartialEq, Eq)]
pub enum Term {
    Sym(Symbol),
    Var(u64),
    Lit(Literal),
    Op(OpKind),
    App(Vec<Term>),
}

/// The mathematical term that a [`Term`] stands for.  A symbol is its
/// identity.
pub enum Tree {
    Sym(SymbolId),
    Var(int),
    Lit(LiteralView),
    Op(OpKind),
    App(Seq<Tree>),
}

impl View for Term {
    type V = Tree;

    open spec fn view(&self) -> Tree
        decreases self,
    {
        match self {
            Term::Sym(s) => Tree::Sym(s.id_spec()),
            Term::Var(v) => Tree::Var(*v as int),
            Term::Lit(l) => Tree::Lit(l@),
            Term::Op(op) => Tree::Op(*op),
            Term::App(elems) => Tree::App(
                Seq::new(
                    elems@.len(),
                    |i: int|
                        if 0 <= i < elems@.len() {
                            elems@[i].view()
                        } else {
                            arbitrary()
                        },
                ),
            ),
        }
    }
}

/// The views of a sequence of terms.
pub open spec fn views(elems: Seq<Term>) -> Seq<Tree> {
    Seq::new(elems.len(), |i: int| elems[i]@)
}

/// The name of the symbol that the term is.
pub open spec fn sym_name(t: Term) -> Option<Seq<char>> {
    match t {
        Term::Sym(s) => Some(s.name_spec()),
        _ => None,
    }
}

/// The name of the symbol at the head of the application that the term is.
pub open spec fn first_name(t: Term) -> Option<Seq<char>> {
    match t {
        Term::App(elems) => if elems@.len() > 0 {
            sym_name(elems@[0])
        } else {
            None
        },
        _ => None,
    }
}

pub broadcast proof fn lemma_app_view(elems: Vec<Term>)
    ensures
        #[trigger] Term::App(elems)@ == Tree::App(views(elems@)),
{
    reveal_with_fuel(<Term as View>::view, 2);
    assert(Term::App(elems)@->App_0 =~= views(elems@));
}

impl Term {
    /// Whether two terms are the same.
    pub fn same(&self, other: &Term) -> (r: bool)
        ensures
            r == (self@ == other@),
        decreases self,
    {
        broadcast use lemma_app_view;

        match (self, other) {
            (Term::Sym(a), Term::Sym(b)) => a.id() == b.id(),
            (Term::Var(a), Term::Var(b)) => *a == *b,
            (Term::Lit(a), Term::Lit(b)) => a.same(b),
            (Term::Op(a), Term::Op(b)) => *a == *b,
            (Term::App(xs), Term::App(ys)) => {
                if xs.len() != ys.len() {
                    assert(views(xs@).len() != views(ys@).len());
                    return false;
                }
                let mut i: usize = 0;
                while i < xs.len()
                    invariant
                        i <= xs@.len(),
                        xs@.len() == ys@.len(),
                        forall|k: int| 0 <= k < i ==> (#[trigger] xs@[k])@ == ys@[k]@,
                        decreases_to!(self => xs@),
                        self@ == Tree::App(views(xs@)),
                        other@ == Tree::App(views(ys@)),
                    decreases xs@.len() - i,
                {
                    if !xs[i].same(&ys[i]) {
                        assert(views(xs@)[i as int] != views(ys@)[i as int]);
                        return false;
                    }
                    i += 1;
                }
                assert(views(xs@) =~= views(ys@));
                true
            },
            _ => false,
        }
    }
}

impl Clone for Term {
    fn clone(&self) -> (r: Term)
        ensures
            r@ == self@,
            sym_name(r) == sym_name(*self),
            first_name(r) == first_name(*self),
        decreases self,
    {
        broadcast use lemma_app_view;

        match self {
            Term::Sym(s) => Term::Sym(s.clone()),
            Term::Var(v) => Term::Var(*v),
            Term::Lit(l) => Term::Lit(l.clone()),
            Term::Op(op) => Term::Op(*op),
            Term::App(elems) => {
                let mut out: Vec<Term> = Vec::new();
                let mut i: usize = 0;
                while i < elems.len()
                    invariant
                        i <= elems@.len(),
                        out@.len() == i,
                        forall|k: int| 0 <= k < i ==> (#[trigger] out@[k])@ == elems@[k]@,
                        forall|k: int| 0 <= k < i ==> sym_name(#[trigger] out@[k]) == sym_name(elems@[k]),
                        decreases_to!(self => elems@),
                    decreases elems@.len() - i,
                {
                    let e: Term = elems[i].clone();
                    out.push(e);
                    i += 1;
                }
                assert(views(out@) =~= views(elems@));
                Term::App(out)
            },
        }
    }
}

} // verus!
