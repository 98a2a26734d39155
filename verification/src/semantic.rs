//! What the stored sentences mean: classes, instances and relations.
use vstd::prelude::*;

use crate::events::{event_views, Event};
use crate::roles::{Roles, TaxRelation};
use crate::store::{holds_id, lemma_push_contains, LayerView, Scope, SyntacticLayer};
use crate::taxonomy::{overlay, rebuilt, record_views, records_entered, tax_steps, EdgeRecord, RecordView, TaxEdges};
use crate::types::{Symbol, SymbolId};

verus! {

/// A symbol above another, and the relation between the two.
pub type Above = (SymbolId, TaxRelation);

/// The edge counts in the scope.
pub open spec fn counts_in(r: RecordView, scope: Scope) -> bool {
    r.scopes.contains(Scope::Base) || r.scopes.contains(scope)
}

/// The symbols directly above, in the order of the records, none twice.
pub open spec fn parents(rs: Seq<RecordView>, sym: SymbolId, scope: Scope) -> Seq<Above>
    decreases rs.len(),
{
    if rs.len() == 0 {
        Seq::empty()
    } else {
        let s = parents(rs.drop_last(), sym, scope);
        let r = rs.last();
        if r.edge.to == sym && counts_in(r, scope) && !s.contains((r.edge.from, r.edge.rel)) {
            s.push((r.edge.from, r.edge.rel))
        } else {
            s
        }
    }
}

/// The symbols directly below, in the order of the records, none twice.
pub open spec fn children(rs: Seq<RecordView>, sym: SymbolId, scope: Scope) -> Seq<Above>
    decreases rs.len(),
{
    if rs.len() == 0 {
        Seq::empty()
    } else {
        let s = children(rs.drop_last(), sym, scope);
        let r = rs.last();
        if r.edge.from == sym && counts_in(r, scope) && !s.contains((r.edge.to, r.edge.rel)) {
            s.push((r.edge.to, r.edge.rel))
        } else {
            s
        }
    }
}

/// Some record says that the one symbol stands directly under the other.
pub open spec fn linked(rs: Seq<RecordView>, scope: Scope, child: SymbolId, parent: SymbolId, rel: TaxRelation) -> bool {
    exists|i: int|
        0 <= i < rs.len() && (#[trigger] rs[i]).edge.to == child && rs[i].edge.from == parent && rs[i].edge.rel == rel
            && counts_in(rs[i], scope)
}

/// The parents of a symbol are the symbols that a record puts above it.
pub proof fn lemma_parents(rs: Seq<RecordView>, sym: SymbolId, scope: Scope)
    ensures
        parents(rs, sym, scope).no_duplicates(),
        forall|p: SymbolId, rel: TaxRelation| #[trigger]
            parents(rs, sym, scope).contains((p, rel)) <==> linked(rs, scope, sym, p, rel),
    decreases rs.len(),
{
    if rs.len() > 0 {
        let d = rs.drop_last();
        lemma_parents(d, sym, scope);
        let s = parents(d, sym, scope);
        let t = parents(rs, sym, scope);
        let r = rs.last();
        assert forall|p: SymbolId, rel: TaxRelation| #[trigger]
            t.contains((p, rel)) <==> linked(rs, scope, sym, p, rel) by {
            if t.contains((p, rel)) {
                let k = choose|k: int| 0 <= k < t.len() && t[k] == (p, rel);
                if k < s.len() {
                    assert(s[k] == (p, rel));
                    assert(s.contains((p, rel)));
                    let i = choose|i: int|
                        0 <= i < d.len() && (#[trigger] d[i]).edge.to == sym && d[i].edge.from == p && d[i].edge.rel
                            == rel && counts_in(d[i], scope);
                    assert(rs[i] == d[i]);
                } else {
                    assert(rs[rs.len() - 1] == r);
                }
            }
            if linked(rs, scope, sym, p, rel) {
                let i = choose|i: int|
                    0 <= i < rs.len() && (#[trigger] rs[i]).edge.to == sym && rs[i].edge.from == p && rs[i].edge.rel
                        == rel && counts_in(rs[i], scope);
                if i < d.len() {
                    assert(d[i] == rs[i]);
                    assert(s.contains((p, rel)));
                    let k = choose|k: int| 0 <= k < s.len() && s[k] == (p, rel);
                    assert(t[k] == (p, rel));
                } else if !s.contains((p, rel)) {
                    assert(t[s.len() as int] == (p, rel));
                } else {
                    let k = choose|k: int| 0 <= k < s.len() && s[k] == (p, rel);
                    assert(t[k] == (p, rel));
                }
            }
        }
    } else {
        assert forall|p: SymbolId, rel: TaxRelation| !linked(rs, scope, sym, p, rel) by {
        }
    }
}

/// One symbol stands directly under another, by the one relation if one is
/// asked for.
pub open spec fn step_up(rs: Seq<RecordView>, scope: Scope, only: Option<TaxRelation>, a: SymbolId, b: SymbolId) -> bool {
    exists|i: int|
        0 <= i < parents(rs, a, scope).len() && (#[trigger] parents(rs, a, scope)[i]).0 == b && (only is None || only
            == Some(parents(rs, a, scope)[i].1))
}

/// Each symbol of the path stands directly under the next.
pub open spec fn upward(rs: Seq<RecordView>, scope: Scope, only: Option<TaxRelation>, p: Seq<SymbolId>) -> bool {
    p.len() > 0 && forall|i: int, j: int| 0 <= i < p.len() && j == i + 1 && j < p.len() ==> step_up(
        rs,
        scope,
        only,
        #[trigger] p[i],
        #[trigger] p[j],
    )
}

/// The path leads from the one symbol up to the other.
pub open spec fn leads(
    rs: Seq<RecordView>,
    scope: Scope,
    only: Option<TaxRelation>,
    a: SymbolId,
    b: SymbolId,
    p: Seq<SymbolId>,
) -> bool {
    upward(rs, scope, only, p) && p[0] == a && p.last() == b
}

/// Some path leads from the one symbol up to the other.
pub open spec fn reaches(rs: Seq<RecordView>, scope: Scope, only: Option<TaxRelation>, a: SymbolId, b: SymbolId) -> bool {
    exists|p: Seq<SymbolId>| leads(rs, scope, only, a, b, p)
}

pub proof fn lemma_reaches_self(rs: Seq<RecordView>, scope: Scope, only: Option<TaxRelation>, a: SymbolId)
    ensures
        reaches(rs, scope, only, a, a),
{
    assert(leads(rs, scope, only, a, a, seq![a]));
}

pub proof fn lemma_reaches_step(
    rs: Seq<RecordView>,
    scope: Scope,
    only: Option<TaxRelation>,
    a: SymbolId,
    b: SymbolId,
    c: SymbolId,
)
    requires
        reaches(rs, scope, only, a, b),
        step_up(rs, scope, only, b, c),
    ensures
        reaches(rs, scope, only, a, c),
{
    let p = choose|p: Seq<SymbolId>| leads(rs, scope, only, a, b, p);
    let q = p.push(c);
    assert forall|i: int, j: int| 0 <= i < q.len() && j == i + 1 && j < q.len() implies step_up(
        rs,
        scope,
        only,
        #[trigger] q[i],
        #[trigger] q[j],
    ) by {
        if j < p.len() {
            assert(p[i] == q[i] && p[j] == q[j]);
        } else {
            assert(q[i] == p.last());
        }
    }
    assert(leads(rs, scope, only, a, c, q));
}

/// A set that holds the start and what stands above its members holds the
/// end of every path.
proof fn lemma_closed(
    rs: Seq<RecordView>,
    scope: Scope,
    only: Option<TaxRelation>,
    seen: Seq<SymbolId>,
    p: Seq<SymbolId>,
    k: int,
)
    requires
        upward(rs, scope, only, p),
        seen.contains(p[0]),
        forall|a: SymbolId, b: SymbolId| #[trigger]
            step_up(rs, scope, only, a, b) && seen.contains(a) ==> seen.contains(b),
        0 <= k < p.len(),
    ensures
        seen.contains(p[k]),
    decreases k,
{
    if k > 0 {
        lemma_closed(rs, scope, only, seen, p, k - 1);
        assert(step_up(rs, scope, only, p[k - 1], p[k]));
    }
}

/// The symbols that stand above some symbol.
pub open spec fn uppers(rs: Seq<RecordView>) -> Seq<SymbolId> {
    Seq::new(rs.len(), |i: int| rs[i].edge.from)
}

proof fn lemma_step_upper(rs: Seq<RecordView>, scope: Scope, only: Option<TaxRelation>, a: SymbolId, b: SymbolId)
    requires
        step_up(rs, scope, only, a, b),
    ensures
        uppers(rs).to_set().contains(b),
{
    lemma_parents(rs, a, scope);
    let ps = parents(rs, a, scope);
    let i = choose|i: int| 0 <= i < ps.len() && (#[trigger] ps[i]).0 == b && (only is None || only == Some(ps[i].1));
    let rel = ps[i].1;
    assert(ps.contains((b, rel)));
    let k = choose|k: int|
        0 <= k < rs.len() && (#[trigger] rs[k]).edge.to == a && rs[k].edge.from == b && rs[k].edge.rel == rel
            && counts_in(rs[k], scope);
    assert(uppers(rs)[k] == b);
}

fn holds_pair(list: &Vec<Above>, sym: SymbolId, rel: TaxRelation) -> (r: bool)
    ensures
        r == list@.contains((sym, rel)),
{
    let mut i: usize = 0;
    while i < list.len()
        invariant
            i <= list@.len(),
            forall|j: int| 0 <= j < i ==> list@[j] != (sym, rel),
        decreases list@.len() - i,
    {
        if list[i].0 == sym && list[i].1 == rel {
            assert(list@[i as int] == (sym, rel));
            return true;
        }
        i += 1;
    }
    false
}

impl TaxEdges {
    /// The symbols directly above, none twice.
    pub fn parents_of_scoped(&self, sym: SymbolId, scope: Scope) -> (r: Vec<Above>)
        ensures
            r@ == parents(self@, sym, scope),
    {
        let mut out: Vec<Above> = Vec::new();
        let n = self.len();
        let mut i: usize = 0;
        assert(self@.take(0) =~= Seq::empty());
        while i < n
            invariant
                n == self@.len(),
                i <= n,
                out@ == parents(self@.take(i as int), sym, scope),
            decreases n - i,
        {
            assert(self@.take(i + 1).drop_last() =~= self@.take(i as int));
            let e = self.edge_at(i);
            if e.to == sym && self.counts_at(i, scope) && !holds_pair(&out, e.from, e.rel) {
                out.push((e.from, e.rel));
            }
            i += 1;
        }
        assert(self@.take(i as int) =~= self@);
        out
    }

    /// The symbols directly below, none twice.
    pub fn children_of_scoped(&self, sym: SymbolId, scope: Scope) -> (r: Vec<Above>)
        ensures
            r@ == children(self@, sym, scope),
    {
        let mut out: Vec<Above> = Vec::new();
        let n = self.len();
        let mut i: usize = 0;
        assert(self@.take(0) =~= Seq::empty());
        while i < n
            invariant
                n == self@.len(),
                i <= n,
                out@ == children(self@.take(i as int), sym, scope),
            decreases n - i,
        {
            assert(self@.take(i + 1).drop_last() =~= self@.take(i as int));
            let e = self.edge_at(i);
            if e.from == sym && self.counts_at(i, scope) && !holds_pair(&out, e.to, e.rel) {
                out.push((e.to, e.rel));
            }
            i += 1;
        }
        assert(self@.take(i as int) =~= self@);
        out
    }

    /// The symbol and all that stand above it, by the one relation alone if
    /// one is asked for; none twice.
    pub fn ancestors(&self, sym: SymbolId, scope: Scope, only: Option<TaxRelation>) -> (seen: Vec<SymbolId>)
        ensures
            seen@.no_duplicates(),
            forall|b: SymbolId| #[trigger] seen@.contains(b) <==> reaches(self@, scope, only, sym, b),
    {
        let ghost rs = self@;
        let ghost all = uppers(rs).to_set().insert(sym);
        let mut seen: Vec<SymbolId> = Vec::new();
        seen.push(sym);
        proof {
            lemma_reaches_self(rs, scope, only, sym);
            vstd::seq_lib::seq_to_set_is_finite(uppers(rs));
            assert(seen@[0] == sym);
            lemma_bounded(seen@, all);
        }
        let mut i: usize = 0;
        while i < seen.len()
            invariant
                rs == self@,
                all == uppers(rs).to_set().insert(sym),
                all.finite(),
                0 < seen@.len(),
                i <= seen@.len() <= all.len(),
                seen@.no_duplicates(),
                seen@[0] == sym,
                forall|k: int| 0 <= k < seen@.len() ==> all.contains(#[trigger] seen@[k]) && reaches(
                    rs,
                    scope,
                    only,
                    sym,
                    seen@[k],
                ),
                forall|a: SymbolId, b: SymbolId| #[trigger]
                    step_up(rs, scope, only, a, b) && seen@.take(i as int).contains(a) ==> seen@.contains(b),
            decreases all.len() - i,
        {
            let at = seen[i];
            let ps = self.parents_of_scoped(at, scope);
            let ghost before = seen@;
            let mut k: usize = 0;
            while k < ps.len()
                invariant
                    rs == self@,
                    ps@ == parents(rs, at, scope),
                    all == uppers(rs).to_set().insert(sym),
                    all.finite(),
                    i < before.len() <= seen@.len() <= all.len(),
                    before == seen@.take(before.len() as int),
                    at == before[i as int],
                    seen@.no_duplicates(),
                    seen@[0] == sym,
                    k <= ps@.len(),
                    reaches(rs, scope, only, sym, at),
                    forall|k: int| 0 <= k < seen@.len() ==> all.contains(#[trigger] seen@[k]) && reaches(
                        rs,
                        scope,
                        only,
                        sym,
                        seen@[k],
                    ),
                    forall|j: int|
                        0 <= j < k && (only is None || only == Some((#[trigger] ps@[j]).1)) ==> seen@.contains(
                            ps@[j].0,
                        ),
                decreases ps@.len() - k,
            {
                let fits = match only {
                    None => true,
                    Some(rel) => ps[k].1 == rel,
                };
                let ghost now = seen@;
                if fits && !holds_id(&seen, ps[k].0) {
                    proof {
                        let b = ps@[k as int].0;
                        assert(step_up(rs, scope, only, at, b)) by {
                            assert(parents(rs, at, scope)[k as int].0 == b);
                        }
                        lemma_step_upper(rs, scope, only, at, b);
                        lemma_reaches_step(rs, scope, only, sym, at, b);
                        lemma_push_contains(seen@, b);
                    }
                    seen.push(ps[k].0);
                    proof {
                        assert(seen@.take(before.len() as int) =~= now.take(before.len() as int));
                        assert forall|j: int| 0 <= j < seen@.len() implies all.contains(#[trigger] seen@[j]) && reaches(
                            rs,
                            scope,
                            only,
                            sym,
                            seen@[j],
                        ) by {
                            if j < now.len() {
                                assert(seen@[j] == now[j]);
                            }
                        }
                        lemma_bounded(seen@, all);
                    }
                }
                assert forall|j: int|
                    0 <= j < k + 1 && (only is None || only == Some((#[trigger] ps@[j]).1)) implies seen@.contains(
                    ps@[j].0,
                ) by {
                    if j < k {
                        lemma_push_contains(now, ps@[k as int].0);
                        assert(now.contains(ps@[j].0));
                    } else if fits {
                        lemma_push_contains(now, ps@[k as int].0);
                    }
                }
                k += 1;
            }
            assert forall|a: SymbolId, b: SymbolId| #[trigger]
                step_up(rs, scope, only, a, b) && seen@.take(i + 1).contains(a) implies seen@.contains(b) by {
                let part = seen@.take(i + 1);
                let j = choose|j: int| 0 <= j < part.len() && part[j] == a;
                assert(before[j] == seen@.take(before.len() as int)[j]);
                if j < i {
                    assert(before.take(i as int)[j] == a);
                    assert(before.take(i as int).contains(a));
                    assert(before.contains(b));
                    let m = choose|m: int| 0 <= m < before.len() && before[m] == b;
                    assert(seen@[m] == seen@.take(before.len() as int)[m]);
                    assert(seen@[m] == b);
                } else {
                    let m = choose|m: int|
                        0 <= m < ps@.len() && (#[trigger] parents(rs, a, scope)[m]).0 == b && (only is None || only
                            == Some(parents(rs, a, scope)[m].1));
                    assert(ps@[m].0 == b);
                }
            }
            i += 1;
        }
        assert(seen@.take(i as int) =~= seen@);
        assert forall|b: SymbolId| #[trigger] seen@.contains(b) <==> reaches(rs, scope, only, sym, b) by {
            if reaches(rs, scope, only, sym, b) {
                let p = choose|p: Seq<SymbolId>| leads(rs, scope, only, sym, b, p);
                assert(seen@.contains(p[0])) by {
                    assert(seen@[0] == sym);
                }
                lemma_closed(rs, scope, only, seen@, p, p.len() - 1);
            }
            if seen@.contains(b) {
                let k = choose|k: int| 0 <= k < seen@.len() && seen@[k] == b;
                assert(all.contains(seen@[k]));
            }
        }
        seen
    }
}

proof fn lemma_bounded(s: Seq<SymbolId>, all: Set<SymbolId>)
    requires
        all.finite(),
        s.no_duplicates(),
        forall|k: int| 0 <= k < s.len() ==> all.contains(#[trigger] s[k]),
    ensures
        s.len() <= all.len(),
{
    s.unique_seq_to_set();
    assert forall|x: SymbolId| s.to_set().contains(x) implies all.contains(x) by {
        let k = choose|k: int| 0 <= k < s.len() && s[k] == x;
        assert(all.contains(s[k]));
    }
    vstd::set_lib::lemma_len_subset(s.to_set(), all);
}

/// All that stands directly above a class: more general classes, or the
/// class of all classes and what is below that.
pub open spec fn class_like(rs: Seq<RecordView>, roles: Roles, sym: SymbolId, scope: Scope) -> bool {
    forall|i: int| 0 <= i < parents(rs, sym, scope).len() ==> above_class(rs, roles, scope, #[trigger] parents(
        rs,
        sym,
        scope,
    )[i])
}

/// What may stand directly above a class.
pub open spec fn above_class(rs: Seq<RecordView>, roles: Roles, scope: Scope, a: Above) -> bool {
    match a.1 {
        TaxRelation::Subclass => true,
        TaxRelation::Instance => reaches(rs, scope, Some(TaxRelation::Subclass), a.0, roles.class),
        _ => false,
    }
}

/// An individual with the class somewhere above it.
pub open spec fn kind_of(rs: Seq<RecordView>, roles: Roles, sym: SymbolId, class: SymbolId, scope: Scope) -> bool {
    !class_like(rs, roles, sym, scope) && reaches(rs, scope, None, sym, class)
}

/// The number of arguments that the classes above a relation fix: one
/// fewer for a function, whose last place is its value; -1 for any number.
pub open spec fn arity_of(rs: Seq<RecordView>, roles: Roles, sym: SymbolId) -> Option<int> {
    let up = |class: SymbolId| reaches(rs, Scope::Base, None, sym, class);
    let value: int = if kind_of(rs, roles, sym, roles.function_class, Scope::Base) {
        1
    } else {
        0
    };
    if !kind_of(rs, roles, sym, roles.relation_class, Scope::Base) {
        None
    } else if up(roles.binary) {
        Some(2 - value)
    } else if up(roles.ternary) {
        Some(3 - value)
    } else if up(roles.quaternary) {
        Some(4 - value)
    } else if up(roles.quintary) {
        Some(5 - value)
    } else if up(roles.variable_arity) {
        Some(-1)
    } else {
        None
    }
}

/// The sentences, and what they mean.
pub struct SemanticLayer {
    pub syntactic: SyntacticLayer,
    pub tax: TaxEdges,
    pub roles: Roles,
}

/// What the layer says, as mathematical values.
pub struct Facts {
    pub layer: LayerView,
    pub edges: Seq<RecordView>,
    pub roles: Roles,
}

impl View for SemanticLayer {
    type V = Facts;

    open spec fn view(&self) -> Facts {
        Facts { layer: self.syntactic@, edges: self.tax@, roles: self.roles }
    }
}

impl SemanticLayer {
    /// The parts are well formed.
    pub open spec fn wf(&self) -> bool {
        self.syntactic.wf() && self.tax.wf()
    }

    /// The layer over the sentences, its edges taken from their roots.
    pub fn new(syntactic: SyntacticLayer) -> (s: SemanticLayer)
        requires
            syntactic.wf(),
        ensures
            s.wf(),
            s.syntactic == syntactic,
            s.roles == crate::roles::standard_roles(),
            s.tax@ == rebuilt(syntactic@, s.roles, syntactic@.roots),
    {
        let roles = Roles::standard();
        let tax = TaxEdges::initialize(&syntactic, &roles);
        SemanticLayer { syntactic, tax, roles }
    }

    /// The layer over the sentences, its edges taken from kept records.
    pub fn from_cached_taxonomy(syntactic: SyntacticLayer, snap: Vec<EdgeRecord>) -> (s: SemanticLayer)
        requires
            syntactic.wf(),
        ensures
            s.wf(),
            s.syntactic == syntactic,
            s.roles == crate::roles::standard_roles(),
            s.tax@ == records_entered(record_views(snap@)),
    {
        SemanticLayer { syntactic, tax: TaxEdges::restore_side(snap), roles: Roles::standard() }
    }

    /// Takes in what happened to the sentences and reports what changed in
    /// the taxonomy.
    pub fn react(&mut self, events: &Vec<Event>) -> (out: Vec<Event>)
        requires
            old(self).wf(),
        ensures
            final(self).wf(),
            final(self).syntactic == old(self).syntactic,
            final(self).roles == old(self).roles,
            (final(self).tax@, event_views(out@)) == tax_steps(
                old(self).syntactic@,
                old(self).roles,
                old(self).tax@,
                event_views(events@),
            ),
    {
        self.tax.react(&self.syntactic, &self.roles, events)
    }

    /// The scope is that of a session with edges of its own.
    pub fn tax_session_active(&self, scope: Scope) -> (r: bool)
        requires
            self.wf(),
        ensures
            r == (scope is Session && overlay(self.tax@, scope)),
    {
        self.tax.session_active(scope)
    }

    /// The scope to reason in: the common one for a session without edges of
    /// its own.
    pub fn closure_scope(&self, scope: Scope) -> (r: Scope)
        requires
            self.wf(),
        ensures
            r == effective_scope(self.tax@, scope),
    {
        if self.tax.session_active(scope) {
            scope
        } else {
            Scope::Base
        }
    }

    /// The symbols directly above.
    pub fn parents_of_scoped(&self, sym: SymbolId, scope: Scope) -> (r: Vec<Above>)
        ensures
            r@ == parents(self.tax@, sym, scope),
    {
        self.tax.parents_of_scoped(sym, scope)
    }

    /// The one symbol is the other or stands somewhere under it.
    pub fn has_ancestor_scoped(&self, sym: SymbolId, ancestor: SymbolId, scope: Scope) -> (r: bool)
        ensures
            r == reaches(self.tax@, scope, None, sym, ancestor),
    {
        if sym == ancestor {
            proof {
                lemma_reaches_self(self.tax@, scope, None, sym);
            }
            return true;
        }
        let ups = self.tax.ancestors(sym, scope, None);
        holds_id(&ups, ancestor)
    }

    /// [`Self::has_ancestor_scoped`] in the common scope.
    pub fn has_ancestor(&self, sym: SymbolId, ancestor: SymbolId) -> (r: bool)
        ensures
            r == reaches(self.tax@, Scope::Base, None, sym, ancestor),
    {
        self.has_ancestor_scoped(sym, ancestor, Scope::Base)
    }

    /// [`Self::has_ancestor`], the ancestor by name.
    pub fn has_ancestor_by_name(&self, sym: SymbolId, ancestor: &str) -> (r: bool)
        ensures
            r == reaches(self.tax@, Scope::Base, None, sym, crate::types::name_id(ancestor@)),
    {
        self.has_ancestor(sym, Symbol::hash_name(ancestor))
    }

    /// The symbol is the class of all classes or a subclass of it.
    fn subclass_of_class(&self, sym: SymbolId, scope: Scope) -> (r: bool)
        ensures
            r == reaches(self.tax@, scope, Some(TaxRelation::Subclass), sym, self.roles.class),
    {
        let ups = self.tax.ancestors(sym, scope, Some(TaxRelation::Subclass));
        holds_id(&ups, self.roles.class)
    }

    /// The symbol denotes a class.
    pub fn is_class_scoped(&self, sym: SymbolId, scope: Scope) -> (r: bool)
        ensures
            r == class_like(self.tax@, self.roles, sym, scope),
    {
        let ps = self.tax.parents_of_scoped(sym, scope);
        let mut i: usize = 0;
        while i < ps.len()
            invariant
                ps@ == parents(self.tax@, sym, scope),
                i <= ps@.len(),
                forall|j: int| 0 <= j < i ==> above_class(self.tax@, self.roles, scope, #[trigger] ps@[j]),
            decreases ps@.len() - i,
        {
            let ok = match ps[i].1 {
                TaxRelation::Subclass => true,
                TaxRelation::Instance => self.subclass_of_class(ps[i].0, scope),
                _ => false,
            };
            if !ok {
                assert(!above_class(self.tax@, self.roles, scope, parents(self.tax@, sym, scope)[i as int]));
                return false;
            }
            i += 1;
        }
        true
    }

    /// [`Self::is_class_scoped`] in the common scope.
    pub fn is_class(&self, sym: SymbolId) -> (r: bool)
        ensures
            r == class_like(self.tax@, self.roles, sym, Scope::Base),
    {
        self.is_class_scoped(sym, Scope::Base)
    }

    /// The symbol denotes an individual.
    pub fn is_instance_scoped(&self, sym: SymbolId, scope: Scope) -> (r: bool)
        ensures
            r == !class_like(self.tax@, self.roles, sym, scope),
    {
        !self.is_class_scoped(sym, scope)
    }

    /// [`Self::is_instance_scoped`] in the common scope.
    pub fn is_instance(&self, sym: SymbolId) -> (r: bool)
        ensures
            r == !class_like(self.tax@, self.roles, sym, Scope::Base),
    {
        self.is_instance_scoped(sym, Scope::Base)
    }

    fn is_kind(&self, sym: SymbolId, class: SymbolId, scope: Scope) -> (r: bool)
        ensures
            r == kind_of(self.tax@, self.roles, sym, class, scope),
    {
        self.is_instance_scoped(sym, scope) && self.has_ancestor_scoped(sym, class, scope)
    }

    /// The symbol denotes a relation.
    pub fn is_relation_scoped(&self, sym: SymbolId, scope: Scope) -> (r: bool)
        ensures
            r == kind_of(self.tax@, self.roles, sym, self.roles.relation_class, scope),
    {
        self.is_kind(sym, self.roles.relation_class, scope)
    }

    /// [`Self::is_relation_scoped`] in the common scope.
    pub fn is_relation(&self, sym: SymbolId) -> (r: bool)
        ensures
            r == kind_of(self.tax@, self.roles, sym, self.roles.relation_class, Scope::Base),
    {
        self.is_relation_scoped(sym, Scope::Base)
    }

    /// The symbol denotes a predicate.
    pub fn is_predicate_scoped(&self, sym: SymbolId, scope: Scope) -> (r: bool)
        ensures
            r == kind_of(self.tax@, self.roles, sym, self.roles.predicate_class, scope),
    {
        self.is_kind(sym, self.roles.predicate_class, scope)
    }

    /// [`Self::is_predicate_scoped`] in the common scope.
    pub fn is_predicate(&self, sym: SymbolId) -> (r: bool)
        ensures
            r == kind_of(self.tax@, self.roles, sym, self.roles.predicate_class, Scope::Base),
    {
        self.is_predicate_scoped(sym, Scope::Base)
    }

    /// The symbol denotes a function.
    pub fn is_function_scoped(&self, sym: SymbolId, scope: Scope) -> (r: bool)
        ensures
            r == kind_of(self.tax@, self.roles, sym, self.roles.function_class, scope),
    {
        self.is_kind(sym, self.roles.function_class, scope)
    }

    /// [`Self::is_function_scoped`] in the common scope.
    pub fn is_function(&self, sym: SymbolId) -> (r: bool)
        ensures
            r == kind_of(self.tax@, self.roles, sym, self.roles.function_class, Scope::Base),
    {
        self.is_function_scoped(sym, Scope::Base)
    }

    /// The number of arguments of a relation, -1 for any number; nothing for
    /// what is no relation or has no class that fixes it.
    pub fn arity(&self, sym: SymbolId) -> (r: Option<i32>)
        ensures
            r matches Some(n) ==> arity_of(self.tax@, self.roles, sym) == Some(n as int),
            r is None ==> arity_of(self.tax@, self.roles, sym) is None,
    {
        if !self.is_relation(sym) {
            return None;
        }
        let classes: [(SymbolId, i32); 5] = [
            (self.roles.binary, 2),
            (self.roles.ternary, 3),
            (self.roles.quaternary, 4),
            (self.roles.quintary, 5),
            (self.roles.variable_arity, -1),
        ];
        let mut i: usize = 0;
        while i < 5
            invariant
                i <= 5,
                classes@[0] == (self.roles.binary, 2i32),
                classes@[1] == (self.roles.ternary, 3i32),
                classes@[2] == (self.roles.quaternary, 4i32),
                classes@[3] == (self.roles.quintary, 5i32),
                classes@[4] == (self.roles.variable_arity, -1i32),
                kind_of(self.tax@, self.roles, sym, self.roles.relation_class, Scope::Base),
                forall|j: int|
                    0 <= j < i ==> !reaches(self.tax@, Scope::Base, None, sym, (#[trigger] classes@[j]).0),
            decreases 5 - i,
        {
            let class = classes[i];
            if self.has_ancestor(sym, class.0) {
                return Some(
                    if class.1 > 0 && self.is_function(sym) {
                        class.1 - 1
                    } else {
                        class.1
                    },
                );
            }
            i += 1;
        }
        assert(forall|j: int| 0 <= j < 5 ==> !reaches(self.tax@, Scope::Base, None, sym, (#[trigger] classes@[j]).0));
        None
    }
}

/// The scope to reason in: the common one for a session without edges of
/// its own.
pub open spec fn effective_scope(rs: Seq<RecordView>, scope: Scope) -> Scope {
    if scope is Session && overlay(rs, scope) {
        scope
    } else {
        Scope::Base
    }
}

/// What stands above what is transitive.
pub proof fn law_ancestors_chain(
    rs: Seq<RecordView>,
    scope: Scope,
    only: Option<TaxRelation>,
    a: SymbolId,
    b: SymbolId,
    c: SymbolId,
)
    requires
        reaches(rs, scope, only, a, b),
        reaches(rs, scope, only, b, c),
    ensures
        reaches(rs, scope, only, a, c),
{
    let q = choose|q: Seq<SymbolId>| leads(rs, scope, only, b, c, q);
    lemma_chain_from(rs, scope, only, a, q, q.len() - 1);
}

proof fn lemma_chain_from(
    rs: Seq<RecordView>,
    scope: Scope,
    only: Option<TaxRelation>,
    a: SymbolId,
    q: Seq<SymbolId>,
    k: int,
)
    requires
        upward(rs, scope, only, q),
        reaches(rs, scope, only, a, q[0]),
        0 <= k < q.len(),
    ensures
        reaches(rs, scope, only, a, q[k]),
    decreases k,
{
    if k > 0 {
        lemma_chain_from(rs, scope, only, a, q, k - 1);
        assert(step_up(rs, scope, only, q[k - 1], q[k]));
        lemma_reaches_step(rs, scope, only, a, q[k - 1], q[k]);
    }
}

/// A session sees every link that counts in the common scope.
pub proof fn law_sessions_extend_base(
    rs: Seq<RecordView>,
    scope: Scope,
    only: Option<TaxRelation>,
    a: SymbolId,
    b: SymbolId,
)
    requires
        reaches(rs, Scope::Base, only, a, b),
    ensures
        reaches(rs, scope, only, a, b),
{
    let p = choose|p: Seq<SymbolId>| leads(rs, Scope::Base, only, a, b, p);
    assert forall|i: int, j: int| 0 <= i < p.len() && j == i + 1 && j < p.len() implies step_up(
        rs,
        scope,
        only,
        #[trigger] p[i],
        #[trigger] p[j],
    ) by {
        assert(step_up(rs, Scope::Base, only, p[i], p[j]));
        let ps = parents(rs, p[i], Scope::Base);
        let k = choose|k: int|
            0 <= k < ps.len() && (#[trigger] parents(rs, p[i], Scope::Base)[k]).0 == p[j] && (only is None || only
                == Some(parents(rs, p[i], Scope::Base)[k].1));
        let rel = ps[k].1;
        lemma_parents(rs, p[i], Scope::Base);
        lemma_parents(rs, p[i], scope);
        assert(ps.contains((p[j], rel)));
        let m = choose|m: int|
            0 <= m < rs.len() && (#[trigger] rs[m]).edge.to == p[i] && rs[m].edge.from == p[j] && rs[m].edge.rel == rel
                && counts_in(rs[m], Scope::Base);
        assert(counts_in(rs[m], scope));
        assert(linked(rs, scope, p[i], p[j], rel));
        assert(parents(rs, p[i], scope).contains((p[j], rel)));
        let qs = parents(rs, p[i], scope);
        let n = choose|n: int| 0 <= n < qs.len() && qs[n] == (p[j], rel);
        assert(parents(rs, p[i], scope)[n].0 == p[j]);
    }
    assert(leads(rs, scope, only, a, b, p));
}

/// A session without edges of its own sees the common taxonomy.
pub proof fn law_quiet_session_sees_base(rs: Seq<RecordView>, scope: Scope, sym: SymbolId)
    ensures
        parents(rs, sym, scope) == parents(rs, sym, effective_scope(rs, scope)),
    decreases rs.len(),
{
    if rs.len() > 0 && effective_scope(rs, scope) != scope {
        let d = rs.drop_last();
        assert(!overlay(rs, scope));
        assert(!overlay(d, scope)) by {
            if overlay(d, scope) {
                let i = choose|i: int| 0 <= i < d.len() && (#[trigger] d[i]).scopes.contains(scope);
                assert(rs[i].scopes.contains(scope));
            }
        }
        law_quiet_session_sees_base(d, scope, sym);
        assert(!rs[rs.len() - 1].scopes.contains(scope));
    }
}

/// The record puts the one symbol directly under the other, for all or for the
/// session.
pub open spec fn puts_under(r: RecordView, scope: Scope, only: Option<TaxRelation>, a: SymbolId, b: SymbolId) -> bool {
    &&& r.edge.to == a
    &&& r.edge.from == b
    &&& only matches Some(rel) ==> r.edge.rel == rel
    &&& r.scopes.contains(Scope::Base) || r.scopes.contains(scope)
}

/// The set holds what stands directly above its members.
pub open spec fn closed_upward(rs: Seq<RecordView>, scope: Scope, only: Option<TaxRelation>, s: Set<SymbolId>) -> bool {
    forall|i: int, a: SymbolId, b: SymbolId|
        0 <= i < rs.len() && #[trigger] puts_under(rs[i], scope, only, a, b) && s.contains(a) ==> s.contains(b)
}

proof fn lemma_record_steps(rs: Seq<RecordView>, scope: Scope, only: Option<TaxRelation>, i: int, a: SymbolId, b: SymbolId)
    requires
        0 <= i < rs.len(),
        puts_under(rs[i], scope, only, a, b),
    ensures
        step_up(rs, scope, only, a, b),
{
    let rel = rs[i].edge.rel;
    lemma_parents(rs, a, scope);
    assert(linked(rs, scope, a, b, rel));
    assert(parents(rs, a, scope).contains((b, rel)));
    let k = choose|k: int| 0 <= k < parents(rs, a, scope).len() && parents(rs, a, scope)[k] == (b, rel);
    assert(parents(rs, a, scope)[k].0 == b);
}

proof fn lemma_step_recorded(rs: Seq<RecordView>, scope: Scope, only: Option<TaxRelation>, a: SymbolId, b: SymbolId) -> (i: int)
    requires
        step_up(rs, scope, only, a, b),
    ensures
        0 <= i < rs.len(),
        puts_under(rs[i], scope, only, a, b),
{
    let ps = parents(rs, a, scope);
    let k = choose|k: int|
        0 <= k < ps.len() && (#[trigger] parents(rs, a, scope)[k]).0 == b && (only is None || only == Some(
            parents(rs, a, scope)[k].1,
        ));
    let rel = ps[k].1;
    lemma_parents(rs, a, scope);
    assert(ps[k] == (b, rel));
    assert(ps.contains((b, rel)));
    choose|i: int|
        0 <= i < rs.len() && (#[trigger] rs[i]).edge.to == a && rs[i].edge.from == b && rs[i].edge.rel == rel && counts_in(
            rs[i],
            scope,
        )
}

proof fn lemma_path_held(rs: Seq<RecordView>, scope: Scope, only: Option<TaxRelation>, s: Set<SymbolId>, p: Seq<SymbolId>, k: int)
    requires
        closed_upward(rs, scope, only, s),
        upward(rs, scope, only, p),
        s.contains(p[0]),
        0 <= k < p.len(),
    ensures
        s.contains(p[k]),
    decreases k,
{
    if k > 0 {
        lemma_path_held(rs, scope, only, s, p, k - 1);
        assert(step_up(rs, scope, only, p[k - 1], p[k]));
        let i = lemma_step_recorded(rs, scope, only, p[k - 1], p[k]);
    }
}

/// What stands above a symbol is the least that the records force: the symbol
/// itself, and what a record puts directly above something that is above already.
pub proof fn law_ancestors_are_what_the_records_force(
    rs: Seq<RecordView>,
    scope: Scope,
    only: Option<TaxRelation>,
    a: SymbolId,
    b: SymbolId,
)
    ensures
        reaches(rs, scope, only, a, b) <==> forall|s: Set<SymbolId>|
            s.contains(a) && #[trigger] closed_upward(rs, scope, only, s) ==> s.contains(b),
{
    if reaches(rs, scope, only, a, b) {
        let p = choose|p: Seq<SymbolId>| leads(rs, scope, only, a, b, p);
        assert forall|s: Set<SymbolId>| s.contains(a) && #[trigger] closed_upward(rs, scope, only, s) implies s.contains(
            b,
        ) by {
            lemma_path_held(rs, scope, only, s, p, p.len() - 1);
        }
    } else {
        let s = Set::new(|x: SymbolId| reaches(rs, scope, only, a, x));
        lemma_reaches_self(rs, scope, only, a);
        assert forall|i: int, x: SymbolId, y: SymbolId|
            0 <= i < rs.len() && #[trigger] puts_under(rs[i], scope, only, x, y) && s.contains(x) implies s.contains(y) by {
            lemma_record_steps(rs, scope, only, i, x, y);
            lemma_reaches_step(rs, scope, only, a, x, y);
        }
        assert(closed_upward(rs, scope, only, s));
        assert(!s.contains(b));
    }
}

/// A symbol is a class exactly if whatever a record puts directly above it is so by
/// subclass, or is the class of all classes or one of its subclasses; everything
/// else is an individual.
pub proof fn law_what_is_a_class(rs: Seq<RecordView>, roles: Roles, sym: SymbolId, scope: Scope)
    ensures
        class_like(rs, roles, sym, scope) <==> forall|i: int|
            0 <= i < rs.len() && (#[trigger] rs[i]).edge.to == sym && (rs[i].scopes.contains(Scope::Base)
                || rs[i].scopes.contains(scope)) ==> rs[i].edge.rel == TaxRelation::Subclass || (rs[i].edge.rel
                == TaxRelation::Instance && reaches(
                rs,
                scope,
                Some(TaxRelation::Subclass),
                rs[i].edge.from,
                roles.class,
            )),
{
    let ps = parents(rs, sym, scope);
    lemma_parents(rs, sym, scope);
    if class_like(rs, roles, sym, scope) {
        assert forall|i: int|
            0 <= i < rs.len() && (#[trigger] rs[i]).edge.to == sym && (rs[i].scopes.contains(Scope::Base)
                || rs[i].scopes.contains(scope)) implies rs[i].edge.rel == TaxRelation::Subclass || (rs[i].edge.rel
            == TaxRelation::Instance && reaches(rs, scope, Some(TaxRelation::Subclass), rs[i].edge.from, roles.class)) by {
            let a = (rs[i].edge.from, rs[i].edge.rel);
            assert(linked(rs, scope, sym, a.0, a.1));
            assert(ps.contains(a));
            let k = choose|k: int| 0 <= k < ps.len() && ps[k] == a;
            assert(above_class(rs, roles, scope, parents(rs, sym, scope)[k]));
        }
    } else {
        let k = choose|k: int| 0 <= k < ps.len() && !above_class(rs, roles, scope, #[trigger] parents(rs, sym, scope)[k]);
        let a = ps[k];
        assert(ps.contains((a.0, a.1)));
        assert(linked(rs, scope, sym, a.0, a.1));
        let i = choose|i: int|
            0 <= i < rs.len() && (#[trigger] rs[i]).edge.to == sym && rs[i].edge.from == a.0 && rs[i].edge.rel == a.1
                && counts_in(rs[i], scope);
        assert(rs[i].edge.to == sym);
    }
}

/// An instance of a class that is no class of classes is of every kind above that
/// class: of a class under the class of relations a relation, and likewise of
/// predicates and functions.  Nothing is of a kind that does not stand above it.
pub proof fn law_instances_are_of_their_kind(
    rs: Seq<RecordView>,
    roles: Roles,
    sym: SymbolId,
    scope: Scope,
    i: int,
    kind: SymbolId,
)
    requires
        0 <= i < rs.len(),
        puts_under(rs[i], scope, Some(TaxRelation::Instance), sym, rs[i].edge.from),
        !reaches(rs, scope, Some(TaxRelation::Subclass), rs[i].edge.from, roles.class),
    ensures
        !class_like(rs, roles, sym, scope),
        reaches(rs, scope, None, rs[i].edge.from, kind) ==> kind_of(rs, roles, sym, kind, scope),
        kind_of(rs, roles, sym, kind, scope) ==> reaches(rs, scope, None, sym, kind),
{
    law_what_is_a_class(rs, roles, sym, scope);
    if reaches(rs, scope, None, rs[i].edge.from, kind) {
        lemma_record_steps(rs, scope, None, i, sym, rs[i].edge.from);
        lemma_reaches_self(rs, scope, None, sym);
        lemma_reaches_step(rs, scope, None, sym, sym, rs[i].edge.from);
        law_ancestors_chain(rs, scope, None, sym, rs[i].edge.from, kind);
    }
}

/// The class of relations with `n` places stands above the symbol, and none of those
/// with fewer.
pub open spec fn has_places(rs: Seq<RecordView>, roles: Roles, sym: SymbolId, n: int) -> bool {
    let up = |class: SymbolId| reaches(rs, Scope::Base, None, sym, class);
    ||| n == 2 && up(roles.binary)
    ||| n == 3 && up(roles.ternary) && !up(roles.binary)
    ||| n == 4 && up(roles.quaternary) && !up(roles.ternary) && !up(roles.binary)
    ||| n == 5 && up(roles.quintary) && !up(roles.quaternary) && !up(roles.ternary) && !up(roles.binary)
}

/// A relation with `n` places, by the first of the classes of relations with two,
/// three, four and five places that stands above it, takes `n` arguments; a function
/// one fewer, since its last place is its value.
pub proof fn law_places_fix_the_arity(rs: Seq<RecordView>, roles: Roles, sym: SymbolId, n: int)
    requires
        !class_like(rs, roles, sym, Scope::Base),
        reaches(rs, Scope::Base, None, sym, roles.relation_class),
        has_places(rs, roles, sym, n),
    ensures
        !reaches(rs, Scope::Base, None, sym, roles.function_class) ==> arity_of(rs, roles, sym) == Some(n),
        reaches(rs, Scope::Base, None, sym, roles.function_class) ==> arity_of(rs, roles, sym) == Some(n - 1),
{
}

/// Only a relation has a number of arguments.  One of variable arity that no class
/// gives a number of places takes any number, as a function too; one without any
/// such class has none.
pub proof fn law_arity_needs_a_class(rs: Seq<RecordView>, roles: Roles, sym: SymbolId)
    ensures
        arity_of(rs, roles, sym) is Some ==> !class_like(rs, roles, sym, Scope::Base) && reaches(
            rs,
            Scope::Base,
            None,
            sym,
            roles.relation_class,
        ),
        arity_of(rs, roles, sym) matches Some(n) ==> n == -1 || 1 <= n <= 5,
        !class_like(rs, roles, sym, Scope::Base) && reaches(rs, Scope::Base, None, sym, roles.relation_class) && (forall|
            n: int,
        | !#[trigger] has_places(rs, roles, sym, n)) ==> arity_of(rs, roles, sym) == if reaches(
            rs,
            Scope::Base,
            None,
            sym,
            roles.variable_arity,
        ) {
            Some(-1int)
        } else {
            None
        },
{
    if forall|n: int| !#[trigger] has_places(rs, roles, sym, n) {
        assert(!has_places(rs, roles, sym, 2) && !has_places(rs, roles, sym, 3));
        assert(!has_places(rs, roles, sym, 4) && !has_places(rs, roles, sym, 5));
    }
}

} // verus!
