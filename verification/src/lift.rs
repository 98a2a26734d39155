//! Atoms lifted out of the table into terms over slots.
use vstd::prelude::*;

use crate::atoms::{entries_fit, keys_apart, lemma_rank, rank, resolved_body, with_atom, AtomTable};
use crate::canon::{canonical, canonical_name, law_slot_of_identity, slot_of, slotted, CanonVars};
use crate::content::{app_key, lemma_parts_of, part_of, parts_of, Part};
use crate::store::{entries_ordered, Element, Entry, SyntacticLayer};
use crate::subst::{inst, insts, lemma_inst_agree, lemma_inst_app, lemma_inst_compose, lemma_inst_id, occurs, within};
use crate::term::{lemma_app_view, views, Term, Tree};
use crate::terms::{law_interned_atom_resolves, resolves_to};
use crate::types::{name_id, SymbolId};
use crate::units::AtomId;

verus! {

broadcast use lemma_app_view;

/// The tree of the atom `id`, its variables by their identities.
pub open spec fn lifted(a: Seq<Entry>, es: Seq<Entry>, id: AtomId) -> Option<Tree>
    decreases rank(a, es, id), 1nat, 0nat,
    when entries_ordered(a) && entries_ordered(es)
{
    match resolved_body(a, es, id) {
        None => None,
        Some(ps) => match lifted_parts(a, es, id, ps.len()) {
            Some(ts) => Some(Tree::App(ts)),
            None => None,
        },
    }
}

/// The trees of the first `n` elements of the atom `id`.
pub open spec fn lifted_parts(a: Seq<Entry>, es: Seq<Entry>, id: AtomId, n: nat) -> Option<Seq<Tree>>
    decreases rank(a, es, id), 0nat, n,
    when entries_ordered(a) && entries_ordered(es)
{
    if n == 0 {
        Some(Seq::empty())
    } else {
        match resolved_body(a, es, id) {
            Some(ps) if n <= ps.len() => {
                let t = match ps[n - 1] {
                    Part::Sub(sub) => {
                        proof {
                            lemma_rank(a, es, id, n - 1, sub);
                        }
                        lifted(a, es, sub)
                    },
                    Part::Var(v, _) => Some(Tree::Var(v as int)),
                    Part::Sym(s) => Some(Tree::Sym(s)),
                    Part::Lit(l) => Some(Tree::Lit(l)),
                    Part::Op(op) => Some(Tree::Op(op)),
                };
                match (lifted_parts(a, es, id, (n - 1) as nat), t) {
                    (Some(ts), Some(t)) => Some(ts.push(t)),
                    _ => None,
                }
            },
            _ => None,
        }
    }
}

proof fn lemma_lift_stops(a: Seq<Entry>, es: Seq<Entry>, id: AtomId, n: nat, m: nat)
    requires
        entries_ordered(a),
        entries_ordered(es),
        n <= m,
        lifted_parts(a, es, id, n) is None,
    ensures
        lifted_parts(a, es, id, m) is None,
    decreases m - n,
{
    if n < m {
        lemma_lift_stops(a, es, id, n, (m - 1) as nat);
    }
}

impl AtomTable {
    /// The term of the atom `id`, its variables by their identities; `None` if
    /// nothing is stored under `id`.
    pub fn term_of(&self, id: AtomId, syn: &SyntacticLayer) -> (r: Option<Term>)
        requires
            self.wf(),
            syn.wf(),
        ensures
            match r {
                Some(t) => lifted(self@, syn@.entries, id) == Some(t@),
                None => lifted(self@, syn@.entries, id) is None,
            },
        decreases rank(self@, syn@.entries, id),
    {
        proof {
            self.lemma_ordered();
            syn.lemma_ordered();
        }
        let ghost (a, es) = (self@, syn@.entries);
        let s = match self.resolve(id, syn) {
            None => {
                return None;
            },
            Some(s) => s,
        };
        let mut out: Vec<Term> = Vec::new();
        let mut i: usize = 0;
        assert(views(out@) =~= Seq::empty());
        while i < s.elements.len()
            invariant
                self.wf(),
                syn.wf(),
                a == self@,
                es == syn@.entries,
                entries_ordered(a),
                entries_ordered(es),
                resolved_body(a, es, id) == Some(s@),
                i <= s.elements@.len(),
                lifted_parts(a, es, id, i as nat) == Some(views(out@)),
            decreases s.elements@.len() - i,
        {
            let el: &Element = &s.elements[i];
            assert(s@[i as int] == el@);
            let t: Term = match el {
                Element::Symbol(x) => Term::Sym(x.clone()),
                Element::Variable { id: v, .. } => Term::Var(*v),
                Element::Literal(l) => Term::Lit(l.clone()),
                Element::Op(op) => Term::Op(*op),
                Element::Sub(sub) => {
                    proof {
                        lemma_rank(a, es, id, i as int, *sub);
                    }
                    match self.term_of(*sub, syn) {
                        Some(t) => t,
                        None => {
                            proof {
                                lemma_lift_stops(a, es, id, (i + 1) as nat, s@.len());
                            }
                            return None;
                        },
                    }
                },
            };
            let ghost before = views(out@);
            out.push(t);
            assert(views(out@) =~= before.push(t@));
            i += 1;
        }
        Some(Term::App(out))
    }
}

/// The atom `id` as a term over slots, moved up by `offset`; `None` if nothing
/// is stored under `id`, or a variable of it is not canonical.
pub fn slot_atom(atoms: &AtomTable, syn: &SyntacticLayer, id: AtomId, canon: &CanonVars, offset: u32) -> (r: Option<Term>)
    requires
        atoms.wf(),
        syn.wf(),
        canon@.len() + offset <= u32::MAX,
    ensures
        match r {
            Some(t) => lifted(atoms@, syn@.entries, id) matches Some(tree) && canonical(canon@, tree) && t@ == slotted(
                canon@,
                offset as int,
                tree,
            ),
            None => lifted(atoms@, syn@.entries, id) is None || !canonical(
                canon@,
                lifted(atoms@, syn@.entries, id)->0,
            ),
        },
{
    match atoms.term_of(id, syn) {
        Some(t) => canon.reslot(&t, offset),
        None => None,
    }
}

/// The tree with each slot replaced by the identity of its canonical variable.
pub open spec fn by_identity(t: Tree) -> Tree {
    inst(|v: int| Tree::Var(name_id(canonical_name(v as nat)) as int), t)
}

/// What was stored under its key is lifted as it went in, slots by identity.
proof fn lemma_lift_stored(a: Seq<Entry>, es: Seq<Entry>, ts: Seq<Tree>)
    requires
        entries_ordered(a),
        entries_ordered(es),
        resolves_to(a, es, Tree::App(ts)),
    ensures
        lifted(a, es, app_key(ts)) == Some(by_identity(Tree::App(ts))),
    decreases ts,
{
    broadcast use lemma_inst_app;

    let f = |v: int| Tree::Var(name_id(canonical_name(v as nat)) as int);
    reveal_with_fuel(resolves_to, 2);
    assert(resolves_to(a, es, Tree::App(ts)));
    assert forall|i: int| 0 <= i < ts.len() && ts[i] is App implies lifted(
        a,
        es,
        app_key((#[trigger] ts[i])->App_0),
    ) == Some(by_identity(ts[i])) by {
        let us = ts[i]->App_0;
        assert(ts[i] == Tree::App(us));
        assert(resolves_to(a, es, ts[i]));
        assert(decreases_to!(ts => us)) by {
            assert(decreases_to!(ts => ts[i]));
            assert(decreases_to!(ts[i] => us));
        }
        lemma_lift_stored(a, es, us);
    }
    lemma_lift_elements(a, es, ts, ts.len());
    lemma_parts_of(ts);
    assert(insts(f, ts).take(ts.len() as int) =~= insts(f, ts));
    assert(by_identity(Tree::App(ts)) == Tree::App(insts(f, ts)));
}

proof fn lemma_lift_elements(a: Seq<Entry>, es: Seq<Entry>, ts: Seq<Tree>, n: nat)
    requires
        entries_ordered(a),
        entries_ordered(es),
        n <= ts.len(),
        resolved_body(a, es, app_key(ts)) == Some(parts_of(ts)),
        forall|i: int|
            0 <= i < ts.len() && ts[i] is App ==> lifted(a, es, app_key((#[trigger] ts[i])->App_0)) == Some(
                by_identity(ts[i]),
            ),
    ensures
        lifted_parts(a, es, app_key(ts), n) == Some(
            insts(|v: int| Tree::Var(name_id(canonical_name(v as nat)) as int), ts).take(n as int),
        ),
    decreases n,
{
    let f = |v: int| Tree::Var(name_id(canonical_name(v as nat)) as int);
    let all = insts(f, ts);
    lemma_parts_of(ts);
    if n == 0 {
        assert(all.take(0) =~= Seq::empty());
    } else {
        lemma_lift_elements(a, es, ts, (n - 1) as nat);
        let t = ts[n - 1];
        assert(parts_of(ts)[n - 1] == part_of(t));
        assert(all[n - 1] == inst(f, t));
        assert(all.take(n as int) =~= all.take(n - 1).push(inst(f, t)));
        match t {
            Tree::App(us) => {
                assert(part_of(t) == Part::Sub(app_key(us)));
                assert(by_identity(t) == inst(f, t));
            },
            _ => {},
        }
    }
}

/// An atom comes back from the table as it went in: stored under its key and
/// lifted again it is the same tree, as long as its slots are among the
/// canonical variables and no two of these share an identity.
pub proof fn law_lifting_reads_back(a: Seq<Entry>, es: Seq<Entry>, ids: Seq<SymbolId>, ts: Seq<Tree>)
    requires
        entries_ordered(a),
        entries_ordered(es),
        resolves_to(a, es, Tree::App(ts)),
        ids.no_duplicates(),
        forall|k: int| 0 <= k < ids.len() ==> #[trigger] ids[k] == name_id(canonical_name(k as nat)),
        within(Tree::App(ts), ids.len() as int),
    ensures
        lifted(a, es, app_key(ts)) matches Some(t) && canonical(ids, t) && slotted(ids, 0, t) == Tree::App(ts),
{
    let t = Tree::App(ts);
    lemma_lift_stored(a, es, ts);
    let f = |v: int| Tree::Var(name_id(canonical_name(v as nat)) as int);
    let g = |v: int|
        match slot_of(ids, v) {
            Some(k) => Tree::Var(k + 0),
            None => Tree::Var(v),
        };
    assert forall|w: int| #[trigger] occurs(w, inst(f, t)) implies slot_of(ids, w) is Some by {
        crate::subst::lemma_occurs_inst(w, f, t);
        let v = choose|v: int| #[trigger] occurs(v, t) && occurs(w, f(v));
        law_slot_of_identity(ids, v);
        assert(ids[v] == name_id(canonical_name(v as nat)));
    }
    lemma_inst_compose(g, f, t);
    let h = |v: int| inst(g, f(v));
    let same = |v: int| Tree::Var(v);
    assert forall|v: int| #[trigger] occurs(v, t) implies h(v) == same(v) by {
        law_slot_of_identity(ids, v);
        assert(ids[v] == name_id(canonical_name(v as nat)));
    }
    lemma_inst_agree(h, same, t);
    lemma_inst_id(same, t);
}

/// An interned term is read back from its identity as it was interned.
pub proof fn law_interned_atom_reads_back(a: Seq<Entry>, es: Seq<Entry>, ids: Seq<SymbolId>, ts: Seq<Tree>)
    requires
        entries_ordered(a),
        entries_ordered(es),
        keys_apart(Tree::App(ts)),
        entries_fit(a, Tree::App(ts)),
        ids.no_duplicates(),
        forall|k: int| 0 <= k < ids.len() ==> #[trigger] ids[k] == name_id(canonical_name(k as nat)),
        within(Tree::App(ts), ids.len() as int),
    ensures
        lifted(with_atom(a, Tree::App(ts)), es, app_key(ts)) matches Some(t) && canonical(ids, t) && slotted(ids, 0, t)
            == Tree::App(ts),
{
    law_interned_atom_resolves(a, es, Tree::App(ts));
    law_lifting_reads_back(with_atom(a, Tree::App(ts)), es, ids, ts);
}

} // verus!
