//! What a relation takes and gives: its declared domains and range.
use vstd::prelude::*;

use crate::content::Part;
use crate::events::ErrorView;
use crate::events::SemanticError;
use crate::roles::TaxRelation;
use crate::semantic::{counts_in, lemma_parents, parents, uppers, Above, Facts, SemanticLayer};
use crate::store::{
    about, body, head_of, is_promoted, lemma_root_place, picked, root_is, roots_distinct, seen_in, Element, Entry,
    LayerView, RootView, Scope, Sentence,
};
use crate::text::{parse_usize, parsed};
use crate::types::{Literal, SentenceId, SymbolId};

verus! {

/// What a place of a relation takes.
#[derive(Clone, Copy, Debug, PartialEq, Eq, Structural)]
pub enum RelationDomain {
    Unknown,
    Domain(SymbolId),
    DomainSubclass(SymbolId),
}

/// What a function gives.
#[derive(Clone, Copy, Debug, PartialEq, Eq, Structural)]
pub enum RelationRange {
    Unknown,
    Range(SymbolId),
    RangeSubclass(SymbolId),
}

/// The head of each stored sentence.
pub open spec fn heads(es: Seq<Entry>) -> Seq<SymbolId> {
    Seq::new(
        es.len(),
        |i: int|
            match head_of(es[i].parts) {
                Some(h) => h,
                None => 0,
            },
    )
}

/// The symbols whose range can be asked for on the way to another's.
pub open spec fn range_steps(f: Facts) -> Set<SymbolId> {
    uppers(f.edges).to_set().union(heads(f.layer.entries).to_set())
}

/// How many symbols are left to ask for.
pub open spec fn left_to_ask(f: Facts, path: Set<SymbolId>) -> nat {
    range_steps(f).difference(path).len()
}

proof fn lemma_steps_finite(f: Facts)
    ensures
        range_steps(f).finite(),
{
    vstd::seq_lib::seq_to_set_is_finite(uppers(f.edges));
    vstd::seq_lib::seq_to_set_is_finite(heads(f.layer.entries));
}

pub proof fn lemma_asking(f: Facts, path: Set<SymbolId>, rel: SymbolId)
    requires
        !path.contains(rel),
    ensures
        left_to_ask(f, path.insert(rel)) < range_steps(f).insert(rel).difference(path).len(),
        range_steps(f).contains(rel) ==> range_steps(f).insert(rel).difference(path).len() == left_to_ask(f, path),
{
    lemma_steps_finite(f);
    let a = range_steps(f).insert(rel).difference(path);
    let b = range_steps(f).difference(path.insert(rel));
    assert(a.contains(rel));
    assert(b =~= a.remove(rel));
    if range_steps(f).contains(rel) {
        assert(range_steps(f).insert(rel) =~= range_steps(f));
    }
}

/// The range of the relation, those on the path left out as under
/// question: its own, else that of the first relation above it that has
/// one.
pub open spec fn range_via(f: Facts, scope: Scope, path: Set<SymbolId>, rel: SymbolId) -> RelationRange
    decreases range_steps(f).insert(rel).difference(path).len(), 0nat, 0nat,
{
    if path.contains(rel) {
        RelationRange::Unknown
    } else {
        proof {
            lemma_asking(f, path, rel);
        }
        let q = path.insert(rel);
        match declared_via(f, scope, q, rel) {
            Some(r) => r,
            None => range_above(f, scope, q, parents(f.edges, rel, scope)),
        }
    }
}

/// The first known range among the relations above.
pub open spec fn range_above(f: Facts, scope: Scope, q: Set<SymbolId>, ps: Seq<Above>) -> RelationRange
    decreases left_to_ask(f, q), 2nat, ps.len(),
{
    if ps.len() == 0 {
        RelationRange::Unknown
    } else {
        let r = range_above(f, scope, q, ps.drop_last());
        if r != RelationRange::Unknown || ps.last().1 != TaxRelation::Subrelation || q.contains(ps.last().0)
            || !range_steps(f).contains(ps.last().0) {
            r
        } else {
            proof {
                lemma_asking(f, q, ps.last().0);
            }
            range_via(f, scope, q, ps.last().0)
        }
    }
}

/// The class that a term denotes: a symbol itself, an application the class
/// that its function gives subclasses of.
pub open spec fn denoted_via(f: Facts, scope: Scope, q: Set<SymbolId>, p: Part) -> Option<SymbolId>
    decreases left_to_ask(f, q), 1nat, 0nat,
{
    match p {
        Part::Sym(id) => Some(id),
        Part::Sub(sid) => match body(f.layer, sid) {
            Some(ps) => match head_of(ps) {
                Some(h) => if q.contains(h) || !range_steps(f).contains(h) {
                    None
                } else {
                    proof {
                        lemma_asking(f, q, h);
                    }
                    match range_via(f, scope, q, h) {
                        RelationRange::RangeSubclass(c) => Some(c),
                        _ => None,
                    }
                },
                None => None,
            },
            None => None,
        },
        _ => None,
    }
}

/// The class that a declaration of a range gives.
pub open spec fn class_at_via(f: Facts, scope: Scope, q: Set<SymbolId>, sid: SentenceId) -> Option<SymbolId>
    decreases left_to_ask(f, q), 1nat, 1nat,
{
    match body(f.layer, sid) {
        Some(ps) => if ps.len() > 2 {
            denoted_via(f, scope, q, ps[2])
        } else {
            None
        },
        None => None,
    }
}

/// The class of the first declaration that gives one, among the promoted or
/// among the others.
pub open spec fn first_class_via(f: Facts, scope: Scope, q: Set<SymbolId>, sids: Seq<SentenceId>, base: bool) -> Option<
    SymbolId,
>
    decreases left_to_ask(f, q), 2nat, sids.len(),
{
    if sids.len() == 0 {
        None
    } else {
        let r = first_class_via(f, scope, q, sids.drop_last(), base);
        if r is Some || is_promoted(f.layer.roots, sids.last()) != base {
            r
        } else {
            class_at_via(f, scope, q, sids.last())
        }
    }
}

/// The declarations about the relation with the head.
pub open spec fn declarations(f: Facts, head: SymbolId, rel: SymbolId, scope: Scope) -> Seq<SentenceId> {
    picked(f.layer.roots, about(f.layer, head, rel, scope))
}

/// The range that the promoted or the other declarations give: unknown where
/// they give both a range and a subclass range.
pub open spec fn resolved_via(f: Facts, scope: Scope, q: Set<SymbolId>, rel: SymbolId, base: bool) -> Option<RelationRange>
    decreases left_to_ask(f, q), 3nat, 0nat,
{
    let r = first_class_via(f, scope, q, declarations(f, f.roles.range, rel, scope), base);
    let s = first_class_via(f, scope, q, declarations(f, f.roles.range_subclass, rel, scope), base);
    match (r, s) {
        (None, None) => None,
        (None, Some(c)) => Some(RelationRange::RangeSubclass(c)),
        (Some(c), None) => Some(RelationRange::Range(c)),
        (Some(_), Some(_)) => Some(RelationRange::Unknown),
    }
}

/// The range that the relation declares for itself: a promoted declaration
/// before one of the session.
pub open spec fn declared_via(f: Facts, scope: Scope, q: Set<SymbolId>, rel: SymbolId) -> Option<RelationRange>
    decreases left_to_ask(f, q), 4nat, 0nat,
{
    match resolved_via(f, scope, q, rel, true) {
        Some(r) => Some(r),
        None => if scope is Session {
            resolved_via(f, scope, q, rel, false)
        } else {
            None
        },
    }
}

/// The range of the relation.
pub open spec fn range_of(f: Facts, scope: Scope, rel: SymbolId) -> RelationRange {
    range_via(f, scope, Set::empty(), rel)
}

pub proof fn lemma_parent_asked(f: Facts, scope: Scope, rel: SymbolId, i: int)
    requires
        0 <= i < parents(f.edges, rel, scope).len(),
    ensures
        range_steps(f).contains(parents(f.edges, rel, scope)[i].0),
{
    let ps = parents(f.edges, rel, scope);
    lemma_parents(f.edges, rel, scope);
    let (p, r) = ps[i];
    assert(ps.contains((p, r)));
    let k = choose|k: int|
        0 <= k < f.edges.len() && (#[trigger] f.edges[k]).edge.to == rel && f.edges[k].edge.from == p
            && f.edges[k].edge.rel == r && counts_in(f.edges[k], scope);
    assert(uppers(f.edges)[k] == p);
}

/// The head of a stored sentence can be asked for.
pub proof fn lemma_head_asked(f: Facts, sid: SentenceId, h: SymbolId)
    requires
        body(f.layer, sid) matches Some(ps) && head_of(ps) == Some(h),
    ensures
        range_steps(f).contains(h),
{
    let k = crate::store::place(f.layer.entries, sid);
    assert(crate::store::entry_at(f.layer.entries, sid, k));
    assert(heads(f.layer.entries)[k] == h);
}

impl SemanticLayer {
    fn range_under(&self, scope: Scope, path: &Vec<SymbolId>, rel: SymbolId) -> (r: RelationRange)
        requires
            self.wf(),
        ensures
            r == range_via(self@, scope, path@.to_set(), rel),
        decreases range_steps(self@).insert(rel).difference(path@.to_set()).len(), 0nat, 0nat,
    {
        if crate::store::holds_id(path, rel) {
            return RelationRange::Unknown;
        }
        let mut q: Vec<SymbolId> = path.clone();
        q.push(rel);
        proof {
            crate::store::lemma_push_set(path@, rel);
            lemma_asking(self@, path@.to_set(), rel);
        }
        match self.declared_under(scope, &q, rel) {
            Some(r) => return r,
            None => {},
        }
        let ps = self.tax.parents_of_scoped(rel, scope);
        let mut i: usize = 0;
        assert(ps@.take(0) =~= Seq::empty());
        while i < ps.len()
            invariant
                self.wf(),
                ps@ == parents(self@.edges, rel, scope),
                i <= ps@.len(),
                left_to_ask(self@, q@.to_set()) < range_steps(self@).insert(rel).difference(path@.to_set()).len(),
                !path@.to_set().contains(rel),
                q@.to_set() == path@.to_set().insert(rel),
                declared_via(self@, scope, q@.to_set(), rel) is None,
                range_above(self@, scope, q@.to_set(), ps@.take(i as int)) == RelationRange::Unknown,
            decreases ps@.len() - i,
        {
            assert(ps@.take(i + 1).drop_last() =~= ps@.take(i as int));
            if ps[i].1 == TaxRelation::Subrelation {
                proof {
                    lemma_parent_asked(self@, scope, rel, i as int);
                    if !q@.to_set().contains(ps@[i as int].0) {
                        lemma_asking(self@, q@.to_set(), ps@[i as int].0);
                    }
                }
                if !crate::store::holds_id(&q, ps[i].0) {
                    let r = self.range_under(scope, &q, ps[i].0);
                    if r != RelationRange::Unknown {
                        proof {
                            assert(range_above(self@, scope, q@.to_set(), ps@.take(i + 1)) == r);
                            lemma_range_found(self@, scope, q@.to_set(), ps@, i + 1);
                        }
                        return r;
                    }
                }
            }
            i += 1;
        }
        assert(ps@.take(i as int) =~= ps@);
        RelationRange::Unknown
    }

    fn denoted_under(&self, scope: Scope, q: &Vec<SymbolId>, el: &Element) -> (r: Option<SymbolId>)
        requires
            self.wf(),
        ensures
            r == denoted_via(self@, scope, q@.to_set(), el@),
        decreases left_to_ask(self@, q@.to_set()), 1nat, 0nat,
    {
        match el {
            Element::Symbol(s) => Some(s.id()),
            Element::Sub(sid) => {
                match self.syntactic.sentence(*sid) {
                    None => None,
                    Some(sentence) => {
                        match sentence.head_symbol() {
                            None => None,
                            Some(h) => {
                                proof {
                                    lemma_head_asked(self@, *sid, h);
                                    if !q@.to_set().contains(h) {
                                        lemma_asking(self@, q@.to_set(), h);
                                    }
                                }
                                if crate::store::holds_id(q, h) {
                                    return None;
                                }
                                match self.range_under(scope, q, h) {
                                    RelationRange::RangeSubclass(c) => Some(c),
                                    _ => None,
                                }
                            },
                        }
                    },
                }
            },
            _ => None,
        }
    }

    fn first_class_under(&self, scope: Scope, q: &Vec<SymbolId>, sids: &Vec<SentenceId>, base: bool) -> (r: Option<
        SymbolId,
    >)
        requires
            self.wf(),
        ensures
            r == first_class_via(self@, scope, q@.to_set(), sids@, base),
        decreases left_to_ask(self@, q@.to_set()), 2nat, sids@.len(),
    {
        let mut i: usize = 0;
        assert(sids@.take(0) =~= Seq::empty());
        while i < sids.len()
            invariant
                self.wf(),
                i <= sids@.len(),
                first_class_via(self@, scope, q@.to_set(), sids@.take(i as int), base) is None,
            decreases sids@.len() - i,
        {
            assert(sids@.take(i + 1).drop_last() =~= sids@.take(i as int));
            if self.syntactic.is_axiom(sids[i]) == base {
                match self.syntactic.sentence(sids[i]) {
                    None => {},
                    Some(sentence) => {
                        if sentence.elements.len() > 2 {
                            assert(sentence@[2] == sentence.elements@[2]@);
                            match self.denoted_under(scope, q, &sentence.elements[2]) {
                                None => {},
                                Some(c) => {
                                    proof {
                                        let sid = sids@[i as int];
                                        assert(class_at_via(self@, scope, q@.to_set(), sid) == Some(c));
                                        lemma_class_found(self@, scope, q@.to_set(), sids@, base, i + 1);
                                    }
                                    return Some(c);
                                },
                            }
                        }
                    },
                }
            }
            i += 1;
        }
        assert(sids@.take(i as int) =~= sids@);
        None
    }

    fn resolve_under(&self, scope: Scope, q: &Vec<SymbolId>, rel: SymbolId, base: bool) -> (r: Option<RelationRange>)
        requires
            self.wf(),
        ensures
            r == resolved_via(self@, scope, q@.to_set(), rel, base),
        decreases left_to_ask(self@, q@.to_set()), 3nat, 0nat,
    {
        let ranges = self.syntactic.subject_sids_scoped(self.roles.range, rel, scope);
        let subs = self.syntactic.subject_sids_scoped(self.roles.range_subclass, rel, scope);
        let r = self.first_class_under(scope, q, &ranges, base);
        let s = self.first_class_under(scope, q, &subs, base);
        match (r, s) {
            (None, None) => None,
            (None, Some(c)) => Some(RelationRange::RangeSubclass(c)),
            (Some(c), None) => Some(RelationRange::Range(c)),
            (Some(_), Some(_)) => Some(RelationRange::Unknown),
        }
    }

    fn declared_under(&self, scope: Scope, q: &Vec<SymbolId>, rel: SymbolId) -> (r: Option<RelationRange>)
        requires
            self.wf(),
        ensures
            r == declared_via(self@, scope, q@.to_set(), rel),
        decreases left_to_ask(self@, q@.to_set()), 4nat, 0nat,
    {
        match self.resolve_under(scope, q, rel, true) {
            Some(r) => Some(r),
            None => match scope {
                Scope::Base => None,
                Scope::Session(_) => self.resolve_under(scope, q, rel, false),
            },
        }
    }

    /// The range of the relation.
    pub fn range_scoped(&self, rel: SymbolId, scope: Scope) -> (r: RelationRange)
        requires
            self.wf(),
        ensures
            r == range_of(self@, scope, rel),
    {
        let path: Vec<SymbolId> = Vec::new();
        assert(path@.to_set() =~= Set::empty());
        self.range_under(scope, &path, rel)
    }

    /// [`Self::range_scoped`] in the common scope.
    pub fn range(&self, rel: SymbolId) -> (r: RelationRange)
        requires
            self.wf(),
        ensures
            r == range_of(self@, Scope::Base, rel),
    {
        self.range_scoped(rel, Scope::Base)
    }

    /// The range that the relation declares for itself.
    pub fn declared_range(&self, rel: SymbolId, scope: Scope) -> (r: Option<RelationRange>)
        requires
            self.wf(),
        ensures
            r == declared_via(self@, scope, Set::empty(), rel),
    {
        let path: Vec<SymbolId> = Vec::new();
        assert(path@.to_set() =~= Set::empty());
        self.declared_under(scope, &path, rel)
    }

    /// [`Self::declared_range`] in the common scope, unknown if there is none.
    pub fn range_declared(&self, rel: SymbolId) -> (r: RelationRange)
        requires
            self.wf(),
        ensures
            r == match declared_via(self@, Scope::Base, Set::empty(), rel) {
                Some(r) => r,
                None => RelationRange::Unknown,
            },
    {
        match self.declared_range(rel, Scope::Base) {
            Some(r) => r,
            None => RelationRange::Unknown,
        }
    }

    /// The class that a term denotes.
    pub fn class_denoted_by(&self, el: &Element, scope: Scope) -> (r: Option<SymbolId>)
        requires
            self.wf(),
        ensures
            r == denoted_via(self@, scope, Set::empty(), el@),
    {
        let path: Vec<SymbolId> = Vec::new();
        assert(path@.to_set() =~= Set::empty());
        self.denoted_under(scope, &path, el)
    }
}

proof fn lemma_range_found(f: Facts, scope: Scope, q: Set<SymbolId>, ps: Seq<Above>, i: int)
    requires
        0 <= i <= ps.len(),
        range_above(f, scope, q, ps.take(i)) != RelationRange::Unknown,
    ensures
        range_above(f, scope, q, ps) == range_above(f, scope, q, ps.take(i)),
    decreases ps.len(),
{
    if i == ps.len() {
        assert(ps.take(i) =~= ps);
    } else {
        assert(ps.drop_last().take(i) =~= ps.take(i));
        lemma_range_found(f, scope, q, ps.drop_last(), i);
    }
}

proof fn lemma_class_found(f: Facts, scope: Scope, q: Set<SymbolId>, sids: Seq<SentenceId>, base: bool, i: int)
    requires
        0 <= i <= sids.len(),
        first_class_via(f, scope, q, sids.take(i), base) is Some,
    ensures
        first_class_via(f, scope, q, sids, base) == first_class_via(f, scope, q, sids.take(i), base),
    decreases sids.len(),
{
    if i == sids.len() {
        assert(sids.take(i) =~= sids);
    } else {
        assert(sids.drop_last().take(i) =~= sids.take(i));
        lemma_class_found(f, scope, q, sids.drop_last(), base, i);
    }
}

/// The name of the symbol, empty if it is not known.
pub open spec fn name_of(v: LayerView, id: SymbolId) -> Seq<char> {
    if v.names.dom().contains(id) {
        v.names[id]
    } else {
        Seq::empty()
    }
}

/// The place, counted from zero, that a literal counted from one gives.
pub open spec fn place_at(ps: Seq<Part>) -> Option<nat> {
    if ps.len() > 2 {
        match ps[2] {
            Part::Lit(l) => if !l.is_str {
                match parsed(l.text, usize::MAX as nat) {
                    Some(n) => if n >= 1 {
                        Some((n - 1) as nat)
                    } else {
                        None
                    },
                    None => None,
                }
            } else {
                None
            },
            _ => None,
        }
    } else {
        None
    }
}

/// A badly typed argument of a declaration.
pub open spec fn misfit(f: Facts, head: SymbolId, sid: SentenceId, arg: nat, domain: Seq<char>) -> ErrorView {
    ErrorView::Domain { sid, rel: name_of(f.layer, head), arg, domain }
}

/// What a declaration of a domain says: the relation, the place, and what
/// the place takes.
pub open spec fn domain_extracted(f: Facts, head: SymbolId, sid: SentenceId, ps: Seq<Part>) -> Result<
    (SymbolId, nat, RelationDomain),
    ErrorView,
> {
    let class = if ps.len() > 3 {
        denoted_via(f, Scope::Base, Set::empty(), ps[3])
    } else {
        None
    };
    if ps.len() < 2 || !(ps[1] is Sym) {
        Err(misfit(f, head, sid, 0, "Relation"@))
    } else if place_at(ps) is None {
        Err(misfit(f, head, sid, 1, "PositiveInteger"@))
    } else if class is None {
        Err(misfit(f, head, sid, 2, "Class"@))
    } else if ps.len() > 4 {
        Err(ErrorView::Arity { sid, rel: name_of(f.layer, head), expected: 3, got: (ps.len() - 1) as nat })
    } else {
        Ok(
            (
                ps[1]->Sym_0,
                place_at(ps)->0,
                if head == f.roles.domain {
                    RelationDomain::Domain(class->0)
                } else {
                    RelationDomain::DomainSubclass(class->0)
                },
            ),
        )
    }
}

/// What a declaration of a range says: the function and what it gives.
pub open spec fn range_extracted(f: Facts, head: SymbolId, sid: SentenceId, ps: Seq<Part>) -> Result<
    (SymbolId, RelationRange),
    ErrorView,
> {
    let class = if ps.len() > 2 {
        denoted_via(f, Scope::Base, Set::empty(), ps[2])
    } else {
        None
    };
    if ps.len() < 2 || !(ps[1] is Sym) {
        Err(misfit(f, head, sid, 0, "Function"@))
    } else if class is None {
        Err(misfit(f, head, sid, 1, "Function"@))
    } else if ps.len() > 3 {
        Err(ErrorView::Arity { sid, rel: name_of(f.layer, head), expected: 2, got: (ps.len() - 1) as nat })
    } else {
        Ok(
            (
                ps[1]->Sym_0,
                if head == f.roles.range {
                    RelationRange::Range(class->0)
                } else {
                    RelationRange::RangeSubclass(class->0)
                },
            ),
        )
    }
}

/// One declared place of a relation.
#[derive(Clone, Copy, Debug, PartialEq, Eq, Structural)]
pub struct Claim {
    pub pos: usize,
    pub what: RelationDomain,
    pub promoted: bool,
}

/// The places that the declarations give.
pub open spec fn claims(f: Facts, rel: SymbolId, head: SymbolId, sids: Seq<SentenceId>) -> Seq<Claim>
    decreases sids.len(),
{
    if sids.len() == 0 {
        Seq::empty()
    } else {
        let s = claims(f, rel, head, sids.drop_last());
        match body(f.layer, sids.last()) {
            None => s,
            Some(ps) => match domain_extracted(f, head, sids.last(), ps) {
                Err(_) => s,
                Ok((r, pos, what)) => if r == rel {
                    s.push(Claim { pos: pos as usize, what, promoted: is_promoted(f.layer.roots, sids.last()) })
                } else {
                    s
                },
            },
        }
    }
}

/// The places that are declared for the relation.
pub open spec fn all_claims(f: Facts, rel: SymbolId, scope: Scope) -> Seq<Claim> {
    claims(f, rel, f.roles.domain, declarations(f, f.roles.domain, rel, scope)) + claims(
        f,
        rel,
        f.roles.domain_subclass,
        declarations(f, f.roles.domain_subclass, rel, scope),
    )
}

/// One more than the last declared place.
pub open spec fn width(cs: Seq<Claim>) -> nat
    decreases cs.len(),
{
    if cs.len() == 0 {
        0
    } else {
        let w = width(cs.drop_last());
        if cs.last().pos + 1 > w {
            (cs.last().pos + 1) as nat
        } else {
            w
        }
    }
}

/// What the last claim on the place says, among the promoted or among the
/// others.
pub open spec fn last_claim(cs: Seq<Claim>, pos: int, promoted: bool) -> Option<RelationDomain>
    decreases cs.len(),
{
    if cs.len() == 0 {
        None
    } else if cs.last().pos == pos && cs.last().promoted == promoted {
        Some(cs.last().what)
    } else {
        last_claim(cs.drop_last(), pos, promoted)
    }
}

/// What the place takes: a promoted claim rules over one of the session.
pub open spec fn claimed(cs: Seq<Claim>, pos: int) -> RelationDomain {
    match last_claim(cs, pos, true) {
        Some(d) => d,
        None => match last_claim(cs, pos, false) {
            Some(d) => d,
            None => RelationDomain::Unknown,
        },
    }
}

/// The places that the relation declares for itself.
pub open spec fn declared_domains(f: Facts, rel: SymbolId, scope: Scope) -> Seq<RelationDomain> {
    let cs = all_claims(f, rel, scope);
    Seq::new(width(cs), |i: int| claimed(cs, i))
}

/// The first list, its open places filled from the second.
pub open spec fn filled_from(own: Seq<RelationDomain>, inherited: Seq<RelationDomain>) -> Seq<RelationDomain> {
    Seq::new(
        if inherited.len() > own.len() {
            inherited.len()
        } else {
            own.len()
        },
        |i: int|
            if i < own.len() && own[i] != RelationDomain::Unknown {
                own[i]
            } else if i < inherited.len() {
                inherited[i]
            } else {
                RelationDomain::Unknown
            },
    )
}

/// The list without the open places at its end.
pub open spec fn trimmed(s: Seq<RelationDomain>) -> Seq<RelationDomain>
    decreases s.len(),
{
    if s.len() > 0 && s.last() == RelationDomain::Unknown {
        trimmed(s.drop_last())
    } else {
        s
    }
}

/// What the places of the relation take, those on the path left out as under
/// question: its own declarations, and where it has none those of the
/// relations above it.
pub open spec fn domain_via(f: Facts, scope: Scope, path: Set<SymbolId>, rel: SymbolId) -> Seq<RelationDomain>
    decreases range_steps(f).insert(rel).difference(path).len(), 0nat, 0nat,
{
    if path.contains(rel) {
        Seq::empty()
    } else {
        proof {
            lemma_asking(f, path, rel);
        }
        trimmed(
            domain_above(f, scope, path.insert(rel), declared_domains(f, rel, scope), parents(f.edges, rel, scope)),
        )
    }
}

/// The places, filled from the relations above.
pub open spec fn domain_above(
    f: Facts,
    scope: Scope,
    q: Set<SymbolId>,
    own: Seq<RelationDomain>,
    ps: Seq<Above>,
) -> Seq<RelationDomain>
    decreases left_to_ask(f, q), 1nat, ps.len(),
{
    if ps.len() == 0 {
        own
    } else {
        let r = domain_above(f, scope, q, own, ps.drop_last());
        if ps.last().1 != TaxRelation::Subrelation || q.contains(ps.last().0) || !range_steps(f).contains(
            ps.last().0,
        ) {
            r
        } else {
            proof {
                lemma_asking(f, q, ps.last().0);
            }
            filled_from(r, domain_via(f, scope, q, ps.last().0))
        }
    }
}

/// What the places of the relation take.
pub open spec fn domain_of(f: Facts, scope: Scope, rel: SymbolId) -> Seq<RelationDomain> {
    domain_via(f, scope, Set::empty(), rel)
}

/// Every claim lies within the width.
pub proof fn lemma_width_bounds(cs: Seq<Claim>, k: int)
    requires
        0 <= k < cs.len(),
    ensures
        cs[k].pos < width(cs),
    decreases cs.len(),
{
    if k < cs.len() - 1 {
        lemma_width_bounds(cs.drop_last(), k);
    }
}

/// What an extraction gives, its error by view.
pub open spec fn domain_result(r: Result<(SymbolId, usize, RelationDomain), SemanticError>) -> Result<
    (SymbolId, nat, RelationDomain),
    ErrorView,
> {
    match r {
        Ok((s, p, d)) => Ok((s, p as nat, d)),
        Err(e) => Err(e@),
    }
}

/// What an extraction gives, its error by view.
pub open spec fn range_result(r: Result<(SymbolId, RelationRange), SemanticError>) -> Result<
    (SymbolId, RelationRange),
    ErrorView,
> {
    match r {
        Ok(x) => Ok(x),
        Err(e) => Err(e@),
    }
}

impl SemanticLayer {
    fn head_name(&self, head: SymbolId) -> (s: String)
        requires
            self.wf(),
        ensures
            s@ == name_of(self@.layer, head),
    {
        match self.syntactic.sym_name(head) {
            Some(s) => s.name().to_owned(),
            None => String::new(),
        }
    }

    fn misfit(&self, head: SymbolId, sid: SentenceId, arg: usize, domain: &str) -> (e: SemanticError)
        requires
            self.wf(),
        ensures
            e@ == misfit(self@, head, sid, arg as nat, domain@),
    {
        SemanticError::DomainMismatch { sid, rel: self.head_name(head), arg, domain: domain.to_owned() }
    }

    /// What a declaration of a domain says.
    pub fn try_extract_domain_from(&self, head: SymbolId, sid: SentenceId, sentence: &Sentence) -> (r: Result<
        (SymbolId, usize, RelationDomain),
        SemanticError,
    >)
        requires
            self.wf(),
        ensures
            domain_result(r) == domain_extracted(self@, head, sid, sentence@),
    {
        let els = &sentence.elements;
        assert(sentence@.len() == els@.len());
        assert(forall|i: int| 0 <= i < els@.len() ==> #[trigger] sentence@[i] == els@[i]@);
        if els.len() < 2 {
            return Err(self.misfit(head, sid, 0, "Relation"));
        }
        let rel = match &els[1] {
            Element::Symbol(s) => s.id(),
            _ => return Err(self.misfit(head, sid, 0, "Relation")),
        };
        if els.len() < 3 {
            return Err(self.misfit(head, sid, 1, "PositiveInteger"));
        }
        let pos: usize = match &els[2] {
            Element::Literal(Literal::Number(n)) => match parse_usize(n.as_str()) {
                Some(p) => {
                    if p >= 1 {
                        p - 1
                    } else {
                        return Err(self.misfit(head, sid, 1, "PositiveInteger"));
                    }
                },
                None => return Err(self.misfit(head, sid, 1, "PositiveInteger")),
            },
            _ => return Err(self.misfit(head, sid, 1, "PositiveInteger")),
        };
        if els.len() < 4 {
            return Err(self.misfit(head, sid, 2, "Class"));
        }
        let class = match self.class_denoted_by(&els[3], Scope::Base) {
            Some(c) => c,
            None => return Err(self.misfit(head, sid, 2, "Class")),
        };
        if els.len() > 4 {
            return Err(
                SemanticError::ArityMismatch { sid, rel: self.head_name(head), expected: 3, got: els.len() - 1 },
            );
        }
        if head == self.roles.domain {
            Ok((rel, pos, RelationDomain::Domain(class)))
        } else {
            Ok((rel, pos, RelationDomain::DomainSubclass(class)))
        }
    }

    /// What a declaration of a range says.
    pub fn try_extract_range_from(&self, head: SymbolId, sid: SentenceId, sentence: &Sentence) -> (r: Result<
        (SymbolId, RelationRange),
        SemanticError,
    >)
        requires
            self.wf(),
        ensures
            range_result(r) == range_extracted(self@, head, sid, sentence@),
    {
        let els = &sentence.elements;
        assert(sentence@.len() == els@.len());
        assert(forall|i: int| 0 <= i < els@.len() ==> #[trigger] sentence@[i] == els@[i]@);
        if els.len() < 2 {
            return Err(self.misfit(head, sid, 0, "Function"));
        }
        let func = match &els[1] {
            Element::Symbol(s) => s.id(),
            _ => return Err(self.misfit(head, sid, 0, "Function")),
        };
        if els.len() < 3 {
            return Err(self.misfit(head, sid, 1, "Function"));
        }
        let class = match self.class_denoted_by(&els[2], Scope::Base) {
            Some(c) => c,
            None => return Err(self.misfit(head, sid, 1, "Function")),
        };
        if els.len() > 3 {
            return Err(
                SemanticError::ArityMismatch { sid, rel: self.head_name(head), expected: 2, got: els.len() - 1 },
            );
        }
        if head == self.roles.range {
            Ok((func, RelationRange::Range(class)))
        } else {
            Ok((func, RelationRange::RangeSubclass(class)))
        }
    }

    fn collect_claims(&self, rel: SymbolId, head: SymbolId, scope: Scope, out: &mut Vec<Claim>)
        requires
            self.wf(),
        ensures
            final(out)@ == old(out)@ + claims(self@, rel, head, declarations(self@, head, rel, scope)),
    {
        let ghost start = out@;
        let sids = self.syntactic.subject_sids_scoped(head, rel, scope);
        let mut i: usize = 0;
        assert(sids@.take(0) =~= Seq::empty());
        assert(start =~= start + Seq::<Claim>::empty());
        while i < sids.len()
            invariant
                self.wf(),
                i <= sids@.len(),
                out@ == start + claims(self@, rel, head, sids@.take(i as int)),
            decreases sids@.len() - i,
        {
            assert(sids@.take(i + 1).drop_last() =~= sids@.take(i as int));
            let sid = sids[i];
            let ghost before = claims(self@, rel, head, sids@.take(i as int));
            match self.syntactic.sentence(sid) {
                None => {},
                Some(sentence) => {
                    match self.try_extract_domain_from(head, sid, sentence) {
                        Err(_) => {},
                        Ok((r, pos, what)) => {
                            if r == rel {
                                let c = Claim { pos, what, promoted: self.syntactic.is_axiom(sid) };
                                out.push(c);
                                assert(out@ =~= start + before.push(c));
                            }
                        },
                    }
                },
            }
            i += 1;
        }
        assert(sids@.take(i as int) =~= sids@);
    }

    /// The places that the relation declares for itself.
    pub fn declared_domain(&self, rel: SymbolId, scope: Scope) -> (r: Vec<RelationDomain>)
        requires
            self.wf(),
        ensures
            r@ == declared_domains(self@, rel, scope),
    {
        let mut cs: Vec<Claim> = Vec::new();
        self.collect_claims(rel, self.roles.domain, scope, &mut cs);
        self.collect_claims(rel, self.roles.domain_subclass, scope, &mut cs);
        assert(cs@ =~= all_claims(self@, rel, scope));
        proof {
            lemma_claim_bounds(self@, rel, scope);
        }
        let mut max: usize = 0;
        let mut i: usize = 0;
        assert(cs@.take(0) =~= Seq::empty());
        while i < cs.len()
            invariant
                i <= cs@.len(),
                max == width(cs@.take(i as int)),
                forall|k: int| 0 <= k < cs@.len() ==> (#[trigger] cs@[k]).pos < usize::MAX,
            decreases cs@.len() - i,
        {
            assert(cs@.take(i + 1).drop_last() =~= cs@.take(i as int));
            assert(cs@[i as int].pos < usize::MAX);
            if cs[i].pos + 1 > max {
                max = cs[i].pos + 1;
            }
            i += 1;
        }
        assert(cs@.take(i as int) =~= cs@);
        let mut out: Vec<RelationDomain> = Vec::new();
        let mut taken: Vec<bool> = Vec::new();
        while out.len() < max
            invariant
                out@.len() <= max,
                taken@.len() == out@.len(),
                forall|k: int| 0 <= k < out@.len() ==> #[trigger] out@[k] == RelationDomain::Unknown,
                forall|k: int| 0 <= k < out@.len() ==> !(#[trigger] taken@[k]),
            decreases max - out@.len(),
        {
            out.push(RelationDomain::Unknown);
            taken.push(false);
        }
        let mut i: usize = 0;
        while i < cs.len()
            invariant
                i <= cs@.len(),
                max == width(cs@),
                out@.len() == max,
                taken@.len() == max,
                forall|k: int|
                    0 <= k < max ==> #[trigger] out@[k] == match last_claim(cs@.take(i as int), k, true) {
                        Some(d) => d,
                        None => RelationDomain::Unknown,
                    },
                forall|k: int|
                    0 <= k < max ==> #[trigger] taken@[k] == last_claim(cs@.take(i as int), k, true) is Some,
            decreases cs@.len() - i,
        {
            assert(cs@.take(i + 1).drop_last() =~= cs@.take(i as int));
            proof {
                lemma_width_bounds(cs@, i as int);
            }
            if cs[i].promoted {
                out.set(cs[i].pos, cs[i].what);
                taken.set(cs[i].pos, true);
            }
            i += 1;
        }
        assert(cs@.take(i as int) =~= cs@);
        let mut i: usize = 0;
        assert(cs@.take(0) =~= Seq::empty());
        while i < cs.len()
            invariant
                i <= cs@.len(),
                max == width(cs@),
                out@.len() == max,
                taken@.len() == max,
                forall|k: int|
                    0 <= k < max ==> #[trigger] out@[k] == match last_claim(cs@, k, true) {
                        Some(d) => d,
                        None => match last_claim(cs@.take(i as int), k, false) {
                            Some(d) => d,
                            None => RelationDomain::Unknown,
                        },
                    },
                forall|k: int| 0 <= k < max ==> #[trigger] taken@[k] == last_claim(cs@, k, true) is Some,
            decreases cs@.len() - i,
        {
            assert(cs@.take(i + 1).drop_last() =~= cs@.take(i as int));
            proof {
                lemma_width_bounds(cs@, i as int);
            }
            if !cs[i].promoted && !taken[cs[i].pos] {
                out.set(cs[i].pos, cs[i].what);
            }
            i += 1;
        }
        assert(cs@.take(i as int) =~= cs@);
        assert(out@ =~= declared_domains(self@, rel, scope));
        out
    }

    fn domain_under(&self, scope: Scope, path: &Vec<SymbolId>, rel: SymbolId) -> (r: Vec<RelationDomain>)
        requires
            self.wf(),
        ensures
            r@ == domain_via(self@, scope, path@.to_set(), rel),
        decreases range_steps(self@).insert(rel).difference(path@.to_set()).len(),
    {
        if crate::store::holds_id(path, rel) {
            return Vec::new();
        }
        let mut q: Vec<SymbolId> = path.clone();
        q.push(rel);
        proof {
            crate::store::lemma_push_set(path@, rel);
            lemma_asking(self@, path@.to_set(), rel);
        }
        let mut out = self.declared_domain(rel, scope);
        let ghost own = out@;
        let ps = self.tax.parents_of_scoped(rel, scope);
        let mut i: usize = 0;
        assert(ps@.take(0) =~= Seq::empty());
        while i < ps.len()
            invariant
                self.wf(),
                ps@ == parents(self@.edges, rel, scope),
                i <= ps@.len(),
                left_to_ask(self@, q@.to_set()) < range_steps(self@).insert(rel).difference(path@.to_set()).len(),
                out@ == domain_above(self@, scope, q@.to_set(), own, ps@.take(i as int)),
            decreases ps@.len() - i,
        {
            assert(ps@.take(i + 1).drop_last() =~= ps@.take(i as int));
            proof {
                lemma_parent_asked(self@, scope, rel, i as int);
                if !q@.to_set().contains(ps@[i as int].0) {
                    lemma_asking(self@, q@.to_set(), ps@[i as int].0);
                }
            }
            if ps[i].1 == TaxRelation::Subrelation && !crate::store::holds_id(&q, ps[i].0) {
                let inherited = self.domain_under(scope, &q, ps[i].0);
                fill_from(&mut out, &inherited);
            }
            i += 1;
        }
        assert(ps@.take(i as int) =~= ps@);
        trim(&mut out);
        out
    }

    /// What the places of the relation take.
    pub fn domain_scoped(&self, rel: SymbolId, scope: Scope) -> (r: Vec<RelationDomain>)
        requires
            self.wf(),
        ensures
            r@ == domain_of(self@, scope, rel),
    {
        let path: Vec<SymbolId> = Vec::new();
        assert(path@.to_set() =~= Set::empty());
        self.domain_under(scope, &path, rel)
    }

    /// [`Self::domain_scoped`] in the common scope.
    pub fn domain(&self, rel: SymbolId) -> (r: Vec<RelationDomain>)
        requires
            self.wf(),
        ensures
            r@ == domain_of(self@, Scope::Base, rel),
    {
        self.domain_scoped(rel, Scope::Base)
    }

    /// [`Self::declared_domain`] in the common scope.
    pub fn domain_declared(&self, rel: SymbolId) -> (r: Vec<RelationDomain>)
        requires
            self.wf(),
        ensures
            r@ == declared_domains(self@, rel, Scope::Base),
    {
        self.declared_domain(rel, Scope::Base)
    }
}

proof fn lemma_claims_bounded(f: Facts, rel: SymbolId, head: SymbolId, sids: Seq<SentenceId>)
    ensures
        forall|k: int|
            0 <= k < claims(f, rel, head, sids).len() ==> (#[trigger] claims(f, rel, head, sids)[k]).pos < usize::MAX,
    decreases sids.len(),
{
    if sids.len() > 0 {
        lemma_claims_bounded(f, rel, head, sids.drop_last());
    }
}

proof fn lemma_claim_bounds(f: Facts, rel: SymbolId, scope: Scope)
    ensures
        forall|k: int|
            0 <= k < all_claims(f, rel, scope).len() ==> (#[trigger] all_claims(f, rel, scope)[k]).pos < usize::MAX,
{
    lemma_claims_bounded(f, rel, f.roles.domain, declarations(f, f.roles.domain, rel, scope));
    lemma_claims_bounded(f, rel, f.roles.domain_subclass, declarations(f, f.roles.domain_subclass, rel, scope));
}

fn fill_from(out: &mut Vec<RelationDomain>, inherited: &Vec<RelationDomain>)
    ensures
        final(out)@ == filled_from(old(out)@, inherited@),
{
    let ghost own = out@;
    let mut i: usize = 0;
    while i < inherited.len()
        invariant
            i <= inherited@.len(),
            out@.len() == (if i > own.len() {
                i as int
            } else {
                own.len() as int
            }),
            forall|k: int| 0 <= k < i ==> #[trigger] out@[k] == filled_from(own, inherited@)[k],
            forall|k: int| i <= k < own.len() ==> #[trigger] out@[k] == own[k],
        decreases inherited@.len() - i,
    {
        if i < out.len() {
            if out[i] == RelationDomain::Unknown {
                out.set(i, inherited[i]);
            }
        } else {
            out.push(inherited[i]);
        }
        i += 1;
    }
    assert(out@ =~= filled_from(own, inherited@));
}

fn trim(out: &mut Vec<RelationDomain>)
    ensures
        final(out)@ == trimmed(old(out)@),
{
    let ghost all = out@;
    while out.len() > 0 && out[out.len() - 1] == RelationDomain::Unknown
        invariant
            trimmed(out@) == trimmed(all),
        decreases out@.len(),
    {
        let ghost before = out@;
        out.pop();
        assert(out@ =~= before.drop_last());
    }
}

/// What the relations above give leaves a known place as it is.
pub proof fn lemma_above_keeps(f: Facts, scope: Scope, q: Set<SymbolId>, own: Seq<RelationDomain>, ps: Seq<Above>, i: int)
    requires
        0 <= i < own.len(),
        own[i] != RelationDomain::Unknown,
    ensures
        i < domain_above(f, scope, q, own, ps).len(),
        domain_above(f, scope, q, own, ps)[i] == own[i],
    decreases ps.len(),
{
    if ps.len() > 0 {
        lemma_above_keeps(f, scope, q, own, ps.drop_last(), i);
        assert(domain_above(f, scope, q, own, ps) == ({
            let r = domain_above(f, scope, q, own, ps.drop_last());
            if ps.last().1 != TaxRelation::Subrelation || q.contains(ps.last().0) || !range_steps(f).contains(
                ps.last().0,
            ) {
                r
            } else {
                filled_from(r, domain_via(f, scope, q, ps.last().0))
            }
        }));
    }
}

pub proof fn lemma_trimmed(s: Seq<RelationDomain>)
    ensures
        trimmed(s).len() <= s.len(),
        trimmed(s) == s.take(trimmed(s).len() as int),
        trimmed(s).len() > 0 ==> trimmed(s).last() != RelationDomain::Unknown,
        forall|i: int| trimmed(s).len() <= i < s.len() ==> #[trigger] s[i] == RelationDomain::Unknown,
    decreases s.len(),
{
    if s.len() > 0 && s.last() == RelationDomain::Unknown {
        lemma_trimmed(s.drop_last());
        assert(s.drop_last().take(trimmed(s).len() as int) =~= s.take(trimmed(s).len() as int));
        assert forall|i: int| trimmed(s).len() <= i < s.len() implies #[trigger] s[i] == RelationDomain::Unknown by {
            if i < s.len() - 1 {
                assert(s.drop_last()[i] == s[i]);
            }
        }
    } else {
        assert(s.take(s.len() as int) =~= s);
    }
}

/// The root declares a range of the relation.
pub open spec fn declares_range(f: Facts, rel: SymbolId, r: RootView) -> bool {
    body(f.layer, r.sid) matches Some(ps) && (head_of(ps) == Some(f.roles.range) || head_of(ps) == Some(
        f.roles.range_subclass,
    )) && ps.len() > 1 && ps[1] == Part::Sym(rel)
}

/// The scope sees every promoted declaration of the relation's range, and each
/// gives it the class that it gives in the common scope.  A declaration that
/// names its class gives the same in every scope; one that applies a function
/// gives what the scope knows of that function.
pub open spec fn reads_alike(f: Facts, scope: Scope, q: Set<SymbolId>, rel: SymbolId) -> bool {
    forall|i: int|
        0 <= i < f.layer.roots.len() && declares_range(f, rel, #[trigger] f.layer.roots[i]) && f.layer.roots[i].promoted
            ==> seen_in(f.layer.roots[i], scope) && class_at_via(f, scope, q, f.layer.roots[i].sid) == class_at_via(
            f,
            Scope::Base,
            q,
            f.layer.roots[i].sid,
        )
}

proof fn lemma_same_promoted(f: Facts, scope: Scope, q: Set<SymbolId>, head: SymbolId, rel: SymbolId, n: int)
    requires
        roots_distinct(f.layer.roots),
        head == f.roles.range || head == f.roles.range_subclass,
        reads_alike(f, scope, q, rel),
        0 <= n <= f.layer.roots.len(),
    ensures
        first_class_via(f, scope, q, picked(f.layer.roots.take(n), about(f.layer, head, rel, scope)), true)
            == first_class_via(
            f,
            Scope::Base,
            q,
            picked(f.layer.roots.take(n), about(f.layer, head, rel, Scope::Base)),
            true,
        ),
    decreases n,
{
    let rs = f.layer.roots;
    if n > 0 {
        lemma_same_promoted(f, scope, q, head, rel, n - 1);
        let r = rs[n - 1];
        assert(rs.take(n).drop_last() =~= rs.take(n - 1));
        assert(rs.take(n).last() == r);
        assert(root_is(rs, r.sid, n - 1));
        lemma_root_place(rs, r.sid, n - 1);
        let s = picked(rs.take(n - 1), about(f.layer, head, rel, scope));
        let t = picked(rs.take(n - 1), about(f.layer, head, rel, Scope::Base));
        assert(s.push(r.sid).drop_last() =~= s);
        assert(t.push(r.sid).drop_last() =~= t);
        if about(f.layer, head, rel, Scope::Base)(r) {
            assert(declares_range(f, rel, rs[n - 1]));
        }
    } else {
        assert(rs.take(0) =~= Seq::empty());
    }
}

/// A promoted declaration overrules one of a session: where the common scope
/// declares a range, every session that reads its declarations alike has that
/// range, and its own declarations count only where the common scope declares
/// none.
pub proof fn law_common_range_overrules(f: Facts, scope: Scope, q: Set<SymbolId>, rel: SymbolId)
    requires
        roots_distinct(f.layer.roots),
        reads_alike(f, scope, q, rel),
    ensures
        declared_via(f, scope, q, rel) == match declared_via(f, Scope::Base, q, rel) {
            Some(r) => Some(r),
            None => if scope is Session {
                resolved_via(f, scope, q, rel, false)
            } else {
                None
            },
        },
{
    let n = f.layer.roots.len() as int;
    assert(f.layer.roots.take(n) =~= f.layer.roots);
    lemma_same_promoted(f, scope, q, f.roles.range, rel, n);
    lemma_same_promoted(f, scope, q, f.roles.range_subclass, rel, n);
}

/// Declarations that name their class are read alike in every scope that sees
/// them.
pub proof fn law_named_classes_read_alike(f: Facts, scope: Scope, q: Set<SymbolId>, rel: SymbolId)
    requires
        forall|i: int|
            0 <= i < f.layer.roots.len() && declares_range(f, rel, #[trigger] f.layer.roots[i])
                && f.layer.roots[i].promoted ==> seen_in(f.layer.roots[i], scope) && (body(
                f.layer,
                f.layer.roots[i].sid,
            ) matches Some(ps) && (ps.len() <= 2 || ps[2] is Sym)),
    ensures
        reads_alike(f, scope, q, rel),
{
}

/// A place that the relation declares for itself keeps what it declares.
pub proof fn law_own_domain_wins(f: Facts, scope: Scope, rel: SymbolId, i: int)
    requires
        0 <= i < declared_domains(f, rel, scope).len(),
        declared_domains(f, rel, scope)[i] != RelationDomain::Unknown,
    ensures
        i < domain_of(f, scope, rel).len(),
        domain_of(f, scope, rel)[i] == declared_domains(f, rel, scope)[i],
{
    let own = declared_domains(f, rel, scope);
    let q = Set::<SymbolId>::empty().insert(rel);
    let s = domain_above(f, scope, q, own, parents(f.edges, rel, scope));
    lemma_above_keeps(f, scope, q, own, parents(f.edges, rel, scope), i);
    lemma_trimmed(s);
    assert(s[i] != RelationDomain::Unknown);
}

/// The places of a relation never end with an open one.
pub proof fn law_domain_ends_known(f: Facts, scope: Scope, rel: SymbolId)
    ensures
        domain_of(f, scope, rel).len() > 0 ==> domain_of(f, scope, rel).last() != RelationDomain::Unknown,
{
    let q = Set::<SymbolId>::empty().insert(rel);
    lemma_trimmed(domain_above(f, scope, q, declared_domains(f, rel, scope), parents(f.edges, rel, scope)));
}

/// A relation without parents has the places that it declares, and only
/// those.
pub proof fn law_no_parents_no_inheritance(f: Facts, scope: Scope, rel: SymbolId)
    requires
        forall|i: int|
            0 <= i < parents(f.edges, rel, scope).len() ==> (#[trigger] parents(f.edges, rel, scope)[i]).1
                != TaxRelation::Subrelation,
    ensures
        domain_of(f, scope, rel) == trimmed(declared_domains(f, rel, scope)),
        range_of(f, scope, rel) == match declared_via(f, scope, Set::empty().insert(rel), rel) {
            Some(r) => r,
            None => RelationRange::Unknown,
        },
{
    let q = Set::<SymbolId>::empty().insert(rel);
    let ps = parents(f.edges, rel, scope);
    lemma_nothing_above(f, scope, q, declared_domains(f, rel, scope), ps, ps.len() as int);
    assert(ps.take(ps.len() as int) =~= ps);
}

proof fn lemma_nothing_above(f: Facts, scope: Scope, q: Set<SymbolId>, own: Seq<RelationDomain>, ps: Seq<Above>, n: int)
    requires
        0 <= n <= ps.len(),
        forall|i: int| 0 <= i < ps.len() ==> (#[trigger] ps[i]).1 != TaxRelation::Subrelation,
    ensures
        domain_above(f, scope, q, own, ps.take(n)) == own,
        range_above(f, scope, q, ps.take(n)) == RelationRange::Unknown,
    decreases n,
{
    if n > 0 {
        assert(ps.take(n).drop_last() =~= ps.take(n - 1));
        lemma_nothing_above(f, scope, q, own, ps, n - 1);
        assert(ps.take(n).last() == ps[n - 1]);
    }
}

} // verus!
