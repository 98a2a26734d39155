//! The atom table: terms stored as sentences, each under its content key.
use vstd::prelude::*;
use vstd::string::*;

use crate::canon::canonical_var;
use crate::content::{app_key, lemma_parts_of, part_of, parts_of, Part};
use crate::store::{
    entries_ordered, entry_at, lemma_place, parts, place, stored, Element, Entry, Sentence, SyntacticLayer,
};
use crate::term::{lemma_app_view, views, Term, Tree};
use crate::text::decimal;
use crate::types::{SentenceId, Symbol};
use crate::units::AtomId;

verus! {

broadcast use lemma_app_view;

/// The entries with an application entered, its compounds first.
pub open spec fn with_atom(es: Seq<Entry>, t: Tree) -> Seq<Entry>
    decreases t,
{
    match t {
        Tree::App(ts) => {
            let more = with_atoms(es, ts);
            if stored(more, app_key(ts)) {
                more
            } else {
                more.push(Entry { sid: app_key(ts), parts: parts_of(ts) })
            }
        },
        _ => es,
    }
}

/// The same for a sequence of trees.
pub open spec fn with_atoms(es: Seq<Entry>, ts: Seq<Tree>) -> Seq<Entry>
    decreases ts,
{
    if ts.len() == 0 {
        es
    } else {
        with_atom(with_atoms(es, ts.drop_last()), ts.last())
    }
}

/// Every entry of `es` stands in `more`.
pub open spec fn entries_grow(es: Seq<Entry>, more: Seq<Entry>) -> bool {
    &&& es.len() <= more.len()
    &&& forall|i: int| 0 <= i < es.len() ==> #[trigger] es[i] == more[i]
}

proof fn lemma_stored_grows(es: Seq<Entry>, more: Seq<Entry>, sid: SentenceId)
    requires
        entries_grow(es, more),
        stored(es, sid),
    ensures
        stored(more, sid),
{
    let i = place(es, sid);
    assert(entry_at(es, sid, i));
    assert(entry_at(more, sid, i));
}

proof fn lemma_with_atom(es: Seq<Entry>, t: Tree)
    ensures
        entries_grow(es, with_atom(es, t)),
        t matches Tree::App(ts) ==> stored(with_atom(es, t), app_key(ts)),
    decreases t,
{
    if let Tree::App(ts) = t {
        lemma_with_atoms(es, ts);
        let more = with_atoms(es, ts);
        if !stored(more, app_key(ts)) {
            let e = Entry { sid: app_key(ts), parts: parts_of(ts) };
            assert(entry_at(more.push(e), app_key(ts), more.len() as int));
        }
    }
}

proof fn lemma_with_atoms(es: Seq<Entry>, ts: Seq<Tree>)
    ensures
        entries_grow(es, with_atoms(es, ts)),
    decreases ts,
{
    if ts.len() > 0 {
        lemma_with_atoms(es, ts.drop_last());
        lemma_with_atom(with_atoms(es, ts.drop_last()), ts.last());
    }
}

/// The application of `us` is `t` or stands within it.
pub open spec fn compound_in(t: Tree, us: Seq<Tree>) -> bool
    decreases t,
{
    match t {
        Tree::App(ts) => ts == us || exists|i: int| 0 <= i < ts.len() && compound_in(#[trigger] ts[i], us),
        _ => false,
    }
}

/// The compounds of the one tree stand within the other.
pub open spec fn part_of_whole(t: Tree, whole: Tree) -> bool {
    forall|us: Seq<Tree>| #[trigger] compound_in(t, us) ==> compound_in(whole, us)
}

/// Different compounds of the tree have different keys.
pub open spec fn keys_apart(t: Tree) -> bool {
    forall|us: Seq<Tree>, vs: Seq<Tree>| #[trigger]
        compound_in(t, us) && #[trigger] compound_in(t, vs) && app_key(us) == app_key(vs) ==> us == vs
}

/// What is stored under the key of a compound of the tree is that compound.
pub open spec fn entries_fit(es: Seq<Entry>, t: Tree) -> bool {
    forall|us: Seq<Tree>| #[trigger]
        compound_in(t, us) && stored(es, app_key(us)) ==> es[place(es, app_key(us))].parts == parts_of(us)
}

pub proof fn lemma_element_compounds(ts: Seq<Tree>, i: int)
    requires
        0 <= i < ts.len(),
    ensures
        part_of_whole(ts[i], Tree::App(ts)),
{
}

/// To intern a tree keeps the order of the entries and what is stored under the
/// keys of the compounds of the whole, and stores its own compounds.
pub proof fn lemma_interned_fits(es: Seq<Entry>, t: Tree, whole: Tree)
    requires
        entries_ordered(es),
        entries_fit(es, whole),
        keys_apart(whole),
        part_of_whole(t, whole),
    ensures
        entries_ordered(with_atom(es, t)),
        entries_fit(with_atom(es, t), whole),
        forall|us: Seq<Tree>| #[trigger] compound_in(t, us) ==> stored(with_atom(es, t), app_key(us)),
    decreases t,
{
    if let Tree::App(ts) = t {
        assert(compound_in(t, ts));
        assert forall|i: int| 0 <= i < ts.len() implies part_of_whole(#[trigger] ts[i], whole) by {
            lemma_element_compounds(ts, i);
        }
        lemma_interned_all_fit(es, ts, whole);
        let more = with_atoms(es, ts);
        let key = app_key(ts);
        let e = Entry { sid: key, parts: parts_of(ts) };
        let out = with_atom(es, t);
        if !stored(more, key) {
            let n = more.len() as int;
            assert(out == more.push(e));
            lemma_parts_of(ts);
            assert forall|i: int, j: int| 0 <= i < out.len() && 0 <= j < out.len() && i != j implies #[trigger] out[i].sid
                != #[trigger] out[j].sid by {
                if i == n {
                    assert(!entry_at(more, key, j));
                } else if j == n {
                    assert(!entry_at(more, key, i));
                }
            }
            assert forall|i: int, k: int| 0 <= i < out.len() && 0 <= k < out[i].parts.len() implies (#[trigger] out[i].parts[k] matches Part::Sub(
                s,
            ) ==> exists|j: int| j < i && entry_at(out, s, j)) by {
                if let Part::Sub(s) = out[i].parts[k] {
                    if i < n {
                        assert(more[i].parts[k] == Part::Sub(s));
                        let j = choose|j: int| j < i && entry_at(more, s, j);
                        assert(entry_at(out, s, j));
                    } else {
                        assert(parts_of(ts)[k] == part_of(ts[k]));
                        let us = ts[k]->App_0;
                        assert(ts[k] == Tree::App(us));
                        assert(compound_in(ts[k], us));
                        assert(stored(more, s));
                        let j = choose|j: int| entry_at(more, s, j);
                        assert(entry_at(out, s, j));
                    }
                }
            }
            assert forall|us: Seq<Tree>| #[trigger] compound_in(whole, us) && stored(out, app_key(us)) implies out[place(
                out,
                app_key(us),
            )].parts == parts_of(us) by {
                let i = choose|i: int| entry_at(out, app_key(us), i);
                lemma_place(out, app_key(us), i);
                if i < n {
                    assert(entry_at(more, app_key(us), i));
                    lemma_place(more, app_key(us), i);
                } else {
                    assert(compound_in(whole, ts));
                    assert(us == ts);
                }
            }
            assert(entry_at(out, key, n));
            assert(entries_grow(more, out));
        }
        assert forall|us: Seq<Tree>| #[trigger] compound_in(t, us) implies stored(out, app_key(us)) by {
            if us != ts {
                let i = choose|i: int| 0 <= i < ts.len() && compound_in(#[trigger] ts[i], us);
                assert(stored(more, app_key(us)));
                lemma_stored_grows(more, out, app_key(us));
            }
        }
    }
}

proof fn lemma_interned_all_fit(es: Seq<Entry>, ts: Seq<Tree>, whole: Tree)
    requires
        entries_ordered(es),
        entries_fit(es, whole),
        keys_apart(whole),
        forall|i: int| 0 <= i < ts.len() ==> part_of_whole(#[trigger] ts[i], whole),
    ensures
        entries_ordered(with_atoms(es, ts)),
        entries_fit(with_atoms(es, ts), whole),
        forall|i: int, us: Seq<Tree>|
            0 <= i < ts.len() && #[trigger] compound_in(ts[i], us) ==> stored(with_atoms(es, ts), app_key(us)),
    decreases ts,
{
    if ts.len() > 0 {
        let d = ts.drop_last();
        assert forall|i: int| 0 <= i < d.len() implies part_of_whole(#[trigger] d[i], whole) by {
            assert(d[i] == ts[i]);
        }
        lemma_interned_all_fit(es, d, whole);
        let before = with_atoms(es, d);
        assert(part_of_whole(ts[ts.len() - 1], whole));
        lemma_interned_fits(before, ts.last(), whole);
        lemma_with_atom(before, ts.last());
        assert forall|i: int, us: Seq<Tree>| 0 <= i < ts.len() && #[trigger] compound_in(ts[i], us) implies stored(
            with_atoms(es, ts),
            app_key(us),
        ) by {
            if i < d.len() {
                assert(compound_in(d[i], us));
                lemma_stored_grows(before, with_atoms(es, ts), app_key(us));
            } else {
                assert(compound_in(ts.last(), us));
            }
        }
    }
}

/// A literal whose atom is known by its identity.
#[derive(Clone, Copy, Debug, PartialEq, Eq, Structural)]
pub struct AtomLit {
    pub pos: bool,
    pub atom: AtomId,
}

/// Atoms by identity.
pub struct AtomTable {
    store: SyntacticLayer,
}

impl View for AtomTable {
    type V = Seq<Entry>;

    closed spec fn view(&self) -> Seq<Entry> {
        self.store@.entries
    }
}

/// The elements of `id` among the atoms or else among the stored sentences.
pub open spec fn resolved_body(atoms: Seq<Entry>, es: Seq<Entry>, id: AtomId) -> Option<Seq<Part>> {
    if stored(atoms, id) {
        Some(atoms[place(atoms, id)].parts)
    } else if stored(es, id) {
        Some(es[place(es, id)].parts)
    } else {
        None
    }
}

/// A number that is less for the parts of what `id` resolves to.
pub open spec fn rank(atoms: Seq<Entry>, es: Seq<Entry>, id: AtomId) -> nat {
    if stored(atoms, id) {
        place(atoms, id) as nat
    } else if stored(es, id) {
        (atoms.len() + place(es, id)) as nat
    } else {
        0
    }
}

pub proof fn lemma_rank(atoms: Seq<Entry>, es: Seq<Entry>, id: AtomId, k: int, sub: AtomId)
    requires
        entries_ordered(atoms),
        entries_ordered(es),
        resolved_body(atoms, es, id) matches Some(ps) && 0 <= k < ps.len() && ps[k] == Part::Sub(sub),
    ensures
        rank(atoms, es, sub) < rank(atoms, es, id),
{
    if stored(atoms, id) {
        let i = place(atoms, id);
        assert(entry_at(atoms, id, i));
        assert(atoms[i].parts[k] == Part::Sub(sub));
        let j = choose|j: int| j < i && entry_at(atoms, sub, j);
        lemma_place(atoms, sub, j);
    } else {
        let i = place(es, id);
        assert(entry_at(es, id, i));
        assert(es[i].parts[k] == Part::Sub(sub));
        let j = choose|j: int| j < i && entry_at(es, sub, j);
        lemma_place(es, sub, j);
        if stored(atoms, sub) {
            assert(entry_at(atoms, sub, place(atoms, sub)));
        }
    }
}

impl AtomTable {
    /// The table holds atoms in order.
    pub closed spec fn wf(&self) -> bool {
        self.store.wf()
    }

    /// The sentence that `id` stands for as it was written, here or in the
    /// store.
    pub closed spec fn written(&self, syn: SyntacticLayer, id: AtomId) -> Option<Sentence> {
        match self.store.written(id) {
            Some(s) => Some(s),
            None => syn.written(id),
        }
    }

    /// What `id` stands for, as written, has the elements it resolves to.
    pub proof fn lemma_written(&self, syn: SyntacticLayer, id: AtomId)
        requires
            self.wf(),
            syn.wf(),
        ensures
            match self.written(syn, id) {
                Some(s) => resolved_body(self@, syn@.entries, id) == Some(s@),
                None => resolved_body(self@, syn@.entries, id) is None,
            },
    {
        self.store.lemma_written(id);
        syn.lemma_written(id);
    }

    /// The atoms stand in order.
    pub proof fn lemma_ordered(&self)
        requires
            self.wf(),
        ensures
            entries_ordered(self@),
    {
        self.store.lemma_ordered();
    }

    /// A table without atoms.
    pub fn new() -> (a: AtomTable)
        ensures
            a.wf(),
            a@ == Seq::<Entry>::empty(),
    {
        AtomTable { store: SyntacticLayer::new() }
    }

    /// Stores an application with the compounds within it and gives its
    /// identity; `None` for a leaf.
    pub fn intern_atom(&mut self, t: &Term) -> (r: Option<AtomId>)
        requires
            old(self).wf(),
        ensures
            final(self).wf(),
            final(self)@ == with_atom(old(self)@, t@),
            r == match t@ {
                Tree::App(ts) => Some(app_key(ts)),
                _ => None,
            },
        decreases t,
    {
        let elems: &Vec<Term> = match t {
            Term::App(elems) => elems,
            _ => {
                return None;
            },
        };
        let ghost ts = views(elems@);
        let ghost es = self@;
        let mut els: Vec<Element> = Vec::new();
        let mut i: usize = 0;
        assert(ts.take(0) =~= Seq::empty());
        while i < elems.len()
            invariant
                i <= elems@.len(),
                self.wf(),
                ts == views(elems@),
                t@ == Tree::App(ts),
                self@ == with_atoms(es, ts.take(i as int)),
                els@.len() == i,
                forall|k: int| 0 <= k < i ==> (#[trigger] els@[k])@ == part_of(ts[k]),
                forall|k: int|
                    0 <= k < i ==> ((#[trigger] els@[k])@ matches Part::Sub(s) ==> stored(self@, s)),
                decreases_to!(t => elems@),
            decreases elems@.len() - i,
        {
            let e: &Term = &elems[i];
            let ghost before = self@;
            proof {
                assert(ts[i as int] == e@);
                assert(ts.take(i + 1).drop_last() =~= ts.take(i as int));
                lemma_with_atom(before, e@);
            }
            let el: Element = match e {
                Term::Sym(s) => Element::Symbol(s.clone()),
                Term::Var(v) => {
                    let mut name: String = "V".to_owned();
                    name.append(decimal(*v).as_str());
                    Element::Variable { id: canonical_var(*v), name, is_row: false }
                },
                Term::Lit(l) => Element::Literal(l.clone()),
                Term::Op(op) => Element::Op(*op),
                Term::App(es) => {
                    let sub: Option<AtomId> = self.intern_atom(e);
                    match sub {
                        Some(id) => Element::Sub(id),
                        None => Element::Sub(0),
                    }
                },
            };
            els.push(el);
            proof {
                assert forall|k: int| 0 <= k < i + 1 implies ((#[trigger] els@[k])@ matches Part::Sub(s) ==> stored(
                    self@,
                    s,
                )) by {
                    if k < i {
                        if let Part::Sub(s) = els@[k]@ {
                            lemma_stored_grows(before, self@, s);
                        }
                    }
                }
            }
            i += 1;
        }
        proof {
            assert(ts.take(i as int) =~= ts);
            lemma_parts_of(ts);
            assert(parts(els@) =~= parts_of(ts));
        }
        let s = Sentence { elements: els };
        assert(s@ == parts_of(ts));
        self.store.add_sentence(s)
    }

    /// The sentence that `id` stands for, here or in the store.
    pub fn resolve<'a>(&'a self, id: AtomId, syn: &'a SyntacticLayer) -> (r: Option<&'a Sentence>)
        requires
            self.wf(),
            syn.wf(),
        ensures
            match r {
                Some(s) => resolved_body(self@, syn@.entries, id) == Some(s@) && self.written(*syn, id) == Some(*s),
                None => resolved_body(self@, syn@.entries, id) is None && self.written(*syn, id) is None,
            },
    {
        match self.store.sentence(id) {
            Some(s) => Some(s),
            None => syn.sentence(id),
        }
    }
}

} // verus!
