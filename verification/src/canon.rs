//! Canonical variables `V0, V1, ...` and their slots.
use vstd::prelude::*;
use vstd::string::*;

use crate::subst::{inst, insts, lemma_inst_app, lemma_occurs_elem, lemma_occurs_split, occurs};
use crate::term::{first_name, lemma_app_view, sym_name, views, Term, Tree};
use crate::text::{decimal, digits, law_digits_write_the_number};
use crate::types::{name_id, Symbol, SymbolId};

verus! {

broadcast use {lemma_app_view, lemma_inst_app};

/// The name of canonical variable `k`.
pub open spec fn canonical_name(k: nat) -> Seq<char> {
    "V"@ + digits(k, 10)
}

/// The identity of canonical variable `k`.
pub fn canonical_var(k: u64) -> (id: SymbolId)
    ensures
        id == name_id(canonical_name(k as nat)),
{
    let mut name: String = "V".to_owned();
    name.append(decimal(k).as_str());
    Symbol::hash_name(name.as_str())
}

/// The slot of the variable with identity `id`: the first position at which
/// the identity is listed.
pub open spec fn slot_of(ids: Seq<SymbolId>, id: int) -> Option<int>
    decreases ids.len(),
{
    if ids.len() == 0 {
        None
    } else {
        match slot_of(ids.drop_last(), id) {
            Some(k) => Some(k),
            None => if ids.last() == id {
                Some(ids.len() - 1)
            } else {
                None
            },
        }
    }
}

/// Every variable of the tree is listed.
pub open spec fn canonical(ids: Seq<SymbolId>, t: Tree) -> bool {
    forall|v: int| #[trigger] occurs(v, t) ==> slot_of(ids, v) is Some
}

/// The tree with every listed variable replaced by its slot, moved up by
/// `offset`.
pub open spec fn slotted(ids: Seq<SymbolId>, offset: int, t: Tree) -> Tree {
    inst(
        |v: int|
            match slot_of(ids, v) {
                Some(k) => Tree::Var(k + offset),
                None => Tree::Var(v),
            },
        t,
    )
}

/// The identities of the first canonical variables, in order.
pub struct CanonVars {
    ids: Vec<SymbolId>,
}

impl View for CanonVars {
    type V = Seq<SymbolId>;

    closed spec fn view(&self) -> Seq<SymbolId> {
        self.ids@
    }
}

proof fn lemma_slot_of_prefix(ids: Seq<SymbolId>, id: int, n: int)
    requires
        0 <= n <= ids.len(),
        slot_of(ids.take(n), id) is Some,
    ensures
        slot_of(ids, id) == slot_of(ids.take(n), id),
    decreases ids.len() - n,
{
    if n < ids.len() {
        assert(ids.take(n + 1).drop_last() =~= ids.take(n));
        lemma_slot_of_prefix(ids, id, n + 1);
    } else {
        assert(ids.take(n) =~= ids);
    }
}

pub proof fn lemma_slot_below(ids: Seq<SymbolId>, id: int)
    ensures
        slot_of(ids, id) matches Some(k) ==> 0 <= k < ids.len() && ids[k] == id,
    decreases ids.len(),
{
    if ids.len() > 0 {
        lemma_slot_below(ids.drop_last(), id);
    }
}

impl CanonVars {
    /// The first `n` canonical variables.
    pub fn new(n: u32) -> (c: CanonVars)
        ensures
            c@ == Seq::new(n as nat, |k: int| name_id(canonical_name(k as nat))),
    {
        let mut ids: Vec<SymbolId> = Vec::new();
        let mut k: u32 = 0;
        while k < n
            invariant
                k <= n,
                ids@ == Seq::new(k as nat, |k: int| name_id(canonical_name(k as nat))),
            decreases n - k,
        {
            ids.push(canonical_var(k as u64));
            k += 1;
            assert(ids@ =~= Seq::new(k as nat, |k: int| name_id(canonical_name(k as nat))));
        }
        CanonVars { ids }
    }

    /// The variables with the given identities, in the order of their slots.
    pub fn from_ids(ids: Vec<SymbolId>) -> (c: CanonVars)
        ensures
            c@ == ids@,
    {
        CanonVars { ids }
    }

    /// The slot of the variable with identity `id`.
    pub fn canonical_slot(&self, id: SymbolId) -> (r: Option<usize>)
        ensures
            match r {
                Some(k) => slot_of(self@, id as int) == Some(k as int),
                None => slot_of(self@, id as int) is None,
            },
    {
        let mut i: usize = 0;
        while i < self.ids.len()
            invariant
                i <= self.ids@.len(),
                slot_of(self.ids@.take(i as int), id as int) is None,
            decreases self.ids@.len() - i,
        {
            assert(self.ids@.take(i + 1).drop_last() =~= self.ids@.take(i as int));
            if self.ids[i] == id {
                proof {
                    lemma_slot_of_prefix(self.ids@, id as int, i + 1);
                }
                return Some(i);
            }
            i += 1;
        }
        assert(self.ids@.take(i as int) =~= self.ids@);
        None
    }

    /// The identity of the variable in slot `k`.
    pub fn slot_var_id(&self, k: u32) -> (id: Option<SymbolId>)
        ensures
            match id {
                Some(v) => k < self@.len() && v == self@[k as int],
                None => k >= self@.len(),
            },
    {
        if (k as usize) < self.ids.len() {
            Some(self.ids[k as usize])
        } else {
            None
        }
    }

    /// The term with every canonical variable replaced by its slot, moved up
    /// by `offset`; `None` if some variable is not canonical.
    pub fn reslot(&self, t: &Term, offset: u32) -> (r: Option<Term>)
        requires
            self@.len() + offset <= u32::MAX,
        ensures
            match r {
                Some(u) => canonical(self@, t@) && u@ == slotted(self@, offset as int, t@),
                None => !canonical(self@, t@),
            },
            r matches Some(u) ==> sym_name(u) == sym_name(*t) && first_name(u) == first_name(*t),
        decreases t,
    {
        let ghost f = |v: int|
            match slot_of(self@, v) {
                Some(k) => Tree::Var(k + offset as int),
                None => Tree::Var(v),
            };
        match t {
            Term::Var(id) => {
                assert(occurs(*id as int, t@));
                match self.canonical_slot(*id) {
                    Some(k) => {
                        proof {
                            lemma_slot_below(self@, *id as int);
                        }
                        Some(Term::Var(k as u64 + offset as u64))
                    },
                    None => None,
                }
            },
            Term::App(elems) => {
                let mut out: Vec<Term> = Vec::new();
                let mut i: usize = 0;
                while i < elems.len()
                    invariant
                        i <= elems@.len(),
                        self@.len() + offset <= u32::MAX,
                        t@ == Tree::App(views(elems@)),
                        out@.len() == i,
                        forall|k: int|
                            0 <= k < i ==> canonical(self@, (#[trigger] elems@[k])@) && out@[k]@
                                == slotted(self@, offset as int, elems@[k]@),
                        forall|k: int| 0 <= k < i ==> sym_name(#[trigger] out@[k]) == sym_name(elems@[k]),
                        decreases_to!(t => elems@),
                    decreases elems@.len() - i,
                {
                    match self.reslot(&elems[i], offset) {
                        Some(e) => {
                            out.push(e);
                        },
                        None => {
                            proof {
                                let v = choose|v: int| #[trigger]
                                    occurs(v, elems@[i as int]@) && slot_of(self@, v) is None;
                                lemma_occurs_elem(v, views(elems@), i as int);
                            }
                            return None;
                        },
                    }
                    i += 1;
                }
                proof {
                    assert(views(out@) =~= insts(f, views(elems@)));
                    assert forall|v: int| #[trigger] occurs(v, t@) implies slot_of(self@, v) is Some by {
                        let k = lemma_occurs_split(v, views(elems@));
                        assert(canonical(self@, elems@[k]@));
                    }
                }
                Some(Term::App(out))
            },
            _ => Some(t.clone()),
        }
    }
}

/// Reading the identity of a slot back gives the slot, as long as no two
/// canonical variables share an identity.
pub proof fn law_slot_of_identity(ids: Seq<SymbolId>, k: int)
    requires
        ids.no_duplicates(),
        0 <= k < ids.len(),
    ensures
        slot_of(ids, ids[k] as int) == Some(k),
    decreases ids.len(),
{
    let front = ids.drop_last();
    if k < ids.len() - 1 {
        assert(front[k] == ids[k]);
        law_slot_of_identity(front, k);
    } else {
        lemma_slot_below(front, ids[k] as int);
        assert(slot_of(front, ids[k] as int) is None) by {
            if let Some(j) = slot_of(front, ids[k] as int) {
                assert(front[j] == ids[j]);
                assert(ids[j] == ids[k]);
            }
        }
    }
}

/// Every canonical variable has a name of its own.
pub proof fn law_canonical_names_are_apart(j: nat, k: nat)
    requires
        canonical_name(j) == canonical_name(k),
    ensures
        j == k,
{
    reveal_strlit("V");
    assert(canonical_name(j).skip(1) =~= digits(j, 10));
    assert(canonical_name(k).skip(1) =~= digits(k, 10));
    law_digits_write_the_number(j, 10);
    law_digits_write_the_number(k, 10);
}

} // verus!
