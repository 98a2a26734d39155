//! Relations below relations, and what their ground facts connect.
use vstd::prelude::*;

use crate::content::Part;
use crate::events::{Event, EventView};
use crate::inferred_laws::lemma_picked;
use crate::roles::TaxRelation;
use crate::semantic::{children, counts_in, Above, Facts, SemanticLayer};
use crate::signature::{declarations, heads};
use crate::store::{
    about, body, entry_at, lemma_root_place, place, root_is, root_place, root_seen_in, roots_distinct, seen_in, Element,
    Entry, LayerView, Scope,
};
use crate::taxonomy::RecordView;
use crate::types::{OpKind, SentenceId, SymbolId};
use crate::walk::{is_path, linked, path_between, reachable, walk, walk_beyond, Graph, Walk};

verus! {

/// A binary atom over two variables: its relation and the variables.
pub open spec fn var_atom(v: LayerView, sid: SentenceId) -> Option<(SymbolId, SymbolId, SymbolId)> {
    match body(v, sid) {
        None => None,
        Some(ps) => if ps.len() != 3 {
            None
        } else {
            match (ps[0], ps[1], ps[2]) {
                (Part::Sym(r), Part::Var(a, _), Part::Var(b, _)) => Some((r, a, b)),
                _ => None,
            }
        },
    }
}

/// The relations of a rule that passes every pair of the one on to the
/// other: two different variables, in the same places on both sides.
pub open spec fn mined(v: LayerView, sid: SentenceId) -> Option<(SymbolId, SymbolId)> {
    match body(v, sid) {
        None => None,
        Some(ps) => if ps.len() != 3 || ps[0] != Part::Op(OpKind::Implies) {
            None
        } else {
            match (ps[1], ps[2]) {
                (Part::Sub(a), Part::Sub(c)) => match (var_atom(v, a), var_atom(v, c)) {
                    (Some((r1, a1, a2)), Some((r2, b1, b2))) => if a1 == b1 && a2 == b2 && a1 != a2 && r1 != r2 {
                        Some((r1, r2))
                    } else {
                        None
                    },
                    _ => None,
                },
                _ => None,
            }
        },
    }
}

/// The one relation is declared to be directly below the other.
pub open spec fn declared_below(f: Facts, scope: Scope, up: SymbolId, sub: SymbolId) -> bool {
    children(f.edges, up, scope).contains((sub, TaxRelation::Subrelation))
}

/// The one relation is directly below the other: declared so, or else by a rule,
/// which is then the label.
pub open spec fn below_step(f: Facts, scope: Scope, up: SymbolId, sub: SymbolId, label: Option<SentenceId>) -> bool {
    match label {
        None => declared_below(f, scope, up, sub),
        Some(sid) => !declared_below(f, scope, up, sub) && root_seen_in(f.layer.roots, sid, scope) && mined(
            f.layer,
            sid,
        ) == Some((sub, up)),
    }
}

/// The symbols that stand below some symbol.
pub open spec fn lowers(rs: Seq<RecordView>) -> Seq<SymbolId> {
    Seq::new(rs.len(), |i: int| rs[i].edge.to)
}

/// A child stands below some symbol.
proof fn lemma_child_lower(rs: Seq<RecordView>, sym: SymbolId, scope: Scope, c: Above)
    requires
        children(rs, sym, scope).contains(c),
    ensures
        lowers(rs).to_set().contains(c.0),
    decreases rs.len(),
{
    if rs.len() > 0 {
        let d = rs.drop_last();
        let s = children(d, sym, scope);
        let t = children(rs, sym, scope);
        let k = choose|k: int| 0 <= k < t.len() && t[k] == c;
        if k < s.len() {
            assert(s[k] == c);
            lemma_child_lower(d, sym, scope, c);
            let j = choose|j: int| 0 <= j < lowers(d).len() && lowers(d)[j] == c.0;
            assert(lowers(rs)[j] == c.0);
        } else {
            assert(lowers(rs)[rs.len() - 1] == c.0);
        }
    }
}

/// The head of a binary atom is the head of a stored sentence.
proof fn lemma_atom_head(v: LayerView, sid: SentenceId)
    requires
        var_atom(v, sid) is Some,
    ensures
        heads(v.entries).to_set().contains((var_atom(v, sid)->0).0),
{
    let k = place(v.entries, sid);
    assert(entry_at(v.entries, sid, k));
    assert(heads(v.entries)[k] == (var_atom(v, sid)->0).0);
}

/// The relations and what is directly below them.
pub struct SubrelGraph<'a> {
    pub layer: &'a SemanticLayer,
    pub scope: Scope,
}

impl<'a> Graph for SubrelGraph<'a> {
    open spec fn links(&self, a: u64, b: u64, label: Option<u64>) -> bool {
        below_step(self.layer@, self.scope, a, b, label)
    }

    open spec fn ends(&self) -> Set<u64> {
        lowers(self.layer@.edges).to_set().union(heads(self.layer@.layer.entries).to_set())
    }

    open spec fn sound(&self) -> bool {
        self.layer.wf()
    }

    proof fn lemma_ends(&self) {
        let f = self.layer@;
        vstd::seq_lib::seq_to_set_is_finite(lowers(f.edges));
        vstd::seq_lib::seq_to_set_is_finite(heads(f.layer.entries));
        assert forall|a: u64, b: u64, label: Option<u64>| #[trigger] self.links(a, b, label) implies self.ends().contains(
            b,
        ) by {
            match label {
                None => {
                    lemma_child_lower(f.edges, a, self.scope, (b, TaxRelation::Subrelation));
                },
                Some(sid) => {
                    let ps = body(f.layer, sid)->0;
                    lemma_atom_head(f.layer, ps[1]->Sub_0);
                },
            }
        }
    }

    fn next(&self, a: u64) -> (r: Vec<(u64, Option<u64>)>) {
        let mut out: Vec<(u64, Option<u64>)> = Vec::new();
        let cs = self.layer.tax.children_of_scoped(a, self.scope);
        let mut i: usize = 0;
        while i < cs.len()
            invariant
                self.sound(),
                cs@ == children(self.layer@.edges, a, self.scope),
                i <= cs@.len(),
                forall|k: int| 0 <= k < out@.len() ==> self.links(a, (#[trigger] out@[k]).0, out@[k].1),
                forall|j: int|
                    0 <= j < i && (#[trigger] cs@[j]).1 == TaxRelation::Subrelation ==> exists|k: int|
                        0 <= k < out@.len() && (#[trigger] out@[k]).0 == cs@[j].0,
            decreases cs@.len() - i,
        {
            let ghost before = out@;
            if cs[i].1 == TaxRelation::Subrelation {
                out.push((cs[i].0, None));
                assert(cs@[i as int] == (cs@[i as int].0, TaxRelation::Subrelation));
                assert(cs@.contains((cs@[i as int].0, TaxRelation::Subrelation)));
                assert(out@[before.len() as int].0 == cs@[i as int].0);
            }
            assert forall|j: int| 0 <= j < i + 1 && (#[trigger] cs@[j]).1 == TaxRelation::Subrelation implies exists|k: int|
                0 <= k < out@.len() && (#[trigger] out@[k]).0 == cs@[j].0 by {
                if j < i {
                    let k = choose|k: int| 0 <= k < before.len() && (#[trigger] before[k]).0 == cs@[j].0;
                    assert(out@[k] == before[k]);
                }
            }
            i += 1;
        }
        let roots = self.layer.syntactic.root_sids();
        let ghost declared = out@;
        let mut i: usize = 0;
        while i < roots.len()
            invariant
                self.sound(),
                cs@ == children(self.layer@.edges, a, self.scope),
                i <= roots@.len(),
                declared.len() <= out@.len(),
                declared == out@.take(declared.len() as int),
                forall|k: int| 0 <= k < out@.len() ==> self.links(a, (#[trigger] out@[k]).0, out@[k].1),
                forall|j: int, b: u64|
                    0 <= j < i && root_seen_in(self.layer@.layer.roots, roots@[j], self.scope) && mined(
                        self.layer@.layer,
                        #[trigger] roots@[j],
                    ) == Some((b, a)) && !declared_below(self.layer@, self.scope, a, b) ==> #[trigger] found(out@, b),
            decreases roots@.len() - i,
        {
            let sid = roots[i];
            let ghost before = out@;
            if self.layer.syntactic.seen(sid, self.scope) {
                match mined_edge_of(self.layer, sid) {
                    None => {},
                    Some((sub, sup)) => {
                        if sup == a && !lists_sub(&cs, sub) {
                            out.push((sub, Some(sid)));
                            assert(out@[before.len() as int].0 == sub);
                            assert(found(out@, sub));
                        }
                    },
                }
            }
            assert(out@.take(declared.len() as int) =~= before.take(declared.len() as int));
            assert forall|j: int, b: u64|
                0 <= j < i + 1 && root_seen_in(self.layer@.layer.roots, roots@[j], self.scope) && mined(
                    self.layer@.layer,
                    #[trigger] roots@[j],
                ) == Some((b, a)) && !declared_below(self.layer@, self.scope, a, b) implies #[trigger] found(out@, b) by {
                if j < i {
                    assert(found(before, b));
                    let k = choose|k: int| 0 <= k < before.len() && (#[trigger] before[k]).0 == b;
                    assert(out@[k] == before[k]);
                }
            }
            i += 1;
        }
        assert forall|b: u64, label: Option<u64>| #[trigger] self.links(a, b, label) implies exists|k: int|
            0 <= k < out@.len() && (#[trigger] out@[k]).0 == b by {
            match label {
                None => {
                    let j = choose|j: int| 0 <= j < cs@.len() && cs@[j] == (b, TaxRelation::Subrelation);
                    assert(cs@[j].0 == b);
                    let k = choose|k: int| 0 <= k < declared.len() && (#[trigger] declared[k]).0 == b;
                    assert(out@[k] == declared[k]);
                },
                Some(sid) => {
                    let rs = self.layer@.layer.roots;
                    let j = root_place(rs, sid);
                    assert(root_is(rs, sid, j));
                    assert(roots@[j] == sid);
                    assert(found(out@, b));
                },
            }
        }
        out
    }
}

/// The relation is among the children as a subrelation.
fn lists_sub(cs: &Vec<Above>, sub: SymbolId) -> (r: bool)
    ensures
        r == cs@.contains((sub, TaxRelation::Subrelation)),
{
    let mut i: usize = 0;
    while i < cs.len()
        invariant
            i <= cs@.len(),
            forall|k: int| 0 <= k < i ==> cs@[k] != (sub, TaxRelation::Subrelation),
        decreases cs@.len() - i,
    {
        if cs[i].0 == sub && cs[i].1 == TaxRelation::Subrelation {
            assert(cs@[i as int] == (sub, TaxRelation::Subrelation));
            return true;
        }
        i += 1;
    }
    false
}

/// The list leads to the node.
spec fn found(out: Seq<(u64, Option<u64>)>, b: u64) -> bool {
    exists|k: int| 0 <= k < out.len() && (#[trigger] out[k]).0 == b
}

fn var_atom_of(layer: &SemanticLayer, sid: SentenceId) -> (r: Option<(SymbolId, SymbolId, SymbolId)>)
    requires
        layer.wf(),
    ensures
        r == var_atom(layer@.layer, sid),
{
    let s = match layer.syntactic.sentence(sid) {
        None => return None,
        Some(s) => s,
    };
    if s.elements.len() != 3 {
        return None;
    }
    assert(s@[0] == s.elements@[0]@);
    assert(s@[1] == s.elements@[1]@);
    assert(s@[2] == s.elements@[2]@);
    match (&s.elements[0], &s.elements[1], &s.elements[2]) {
        (Element::Symbol(r), Element::Variable { id: a, .. }, Element::Variable { id: b, .. }) => Some(
            (r.id(), *a, *b),
        ),
        _ => None,
    }
}

/// The relations of a rule that passes every pair of the one on to the
/// other.
pub fn mined_edge_of(layer: &SemanticLayer, sid: SentenceId) -> (r: Option<(SymbolId, SymbolId)>)
    requires
        layer.wf(),
    ensures
        r == mined(layer@.layer, sid),
{
    let s = match layer.syntactic.sentence(sid) {
        None => return None,
        Some(s) => s,
    };
    if s.elements.len() != 3 {
        return None;
    }
    assert(s@[0] == s.elements@[0]@);
    assert(s@[1] == s.elements@[1]@);
    assert(s@[2] == s.elements@[2]@);
    match &s.elements[0] {
        Element::Op(op) => {
            if *op != OpKind::Implies {
                return None;
            }
        },
        _ => return None,
    }
    match (&s.elements[1], &s.elements[2]) {
        (Element::Sub(a), Element::Sub(c)) => match (var_atom_of(layer, *a), var_atom_of(layer, *c)) {
            (Some((r1, a1, a2)), Some((r2, b1, b2))) => {
                if a1 == b1 && a2 == b2 && a1 != a2 && r1 != r2 {
                    Some((r1, r2))
                } else {
                    None
                }
            },
            _ => None,
        },
        _ => None,
    }
}

/// The third element of each stored sentence that is a symbol.
pub open spec fn objects(es: Seq<Entry>) -> Seq<SymbolId> {
    Seq::new(
        es.len(),
        |i: int|
            if es[i].parts.len() == 3 && es[i].parts[2] is Sym {
                es[i].parts[2]->Sym_0
            } else {
                0
            },
    )
}

/// The stored sentence relates something to the object.
pub open spec fn object_of(v: LayerView, sid: SentenceId) -> Option<SymbolId> {
    match body(v, sid) {
        None => None,
        Some(ps) => if ps.len() == 3 && ps[2] is Sym {
            Some(ps[2]->Sym_0)
        } else {
            None
        },
    }
}

/// A fact of one of the relations leads from the one symbol to the other.
pub open spec fn fact_step(
    f: Facts,
    scope: Scope,
    rels: Seq<SymbolId>,
    x: SymbolId,
    y: SymbolId,
    sid: SentenceId,
) -> bool {
    object_of(f.layer, sid) == Some(y) && exists|i: int|
        0 <= i < rels.len() && declarations(f, #[trigger] rels[i], x, scope).contains(sid)
}

/// The ground facts of the relations.
pub struct FactGraph<'a> {
    pub layer: &'a SemanticLayer,
    pub scope: Scope,
    pub rels: &'a Walk,
}

impl<'a> Graph for FactGraph<'a> {
    open spec fn links(&self, a: u64, b: u64, label: Option<u64>) -> bool {
        label matches Some(sid) && fact_step(self.layer@, self.scope, self.rels.nodes(), a, b, sid)
    }

    open spec fn ends(&self) -> Set<u64> {
        objects(self.layer@.layer.entries).to_set()
    }

    open spec fn sound(&self) -> bool {
        self.layer.wf()
    }

    proof fn lemma_ends(&self) {
        let f = self.layer@;
        vstd::seq_lib::seq_to_set_is_finite(objects(f.layer.entries));
        assert forall|a: u64, b: u64, label: Option<u64>| #[trigger] self.links(a, b, label) implies self.ends().contains(
            b,
        ) by {
            let sid = label->0;
            let k = place(f.layer.entries, sid);
            assert(entry_at(f.layer.entries, sid, k));
            assert(objects(f.layer.entries)[k] == b);
        }
    }

    fn next(&self, a: u64) -> (r: Vec<(u64, Option<u64>)>) {
        let mut out: Vec<(u64, Option<u64>)> = Vec::new();
        let n = self.rels.len();
        let mut i: usize = 0;
        while i < n
            invariant
                self.sound(),
                n == self.rels.nodes().len(),
                i <= n,
                forall|k: int| 0 <= k < out@.len() ==> self.links(a, (#[trigger] out@[k]).0, out@[k].1),
                forall|j: int, sid: SentenceId|
                    0 <= j < i && #[trigger] declarations(
                        self.layer@,
                        self.rels.nodes()[j],
                        a,
                        self.scope,
                    ).contains(sid) && object_of(self.layer@.layer, sid) is Some ==> found(
                        out@,
                        object_of(self.layer@.layer, sid)->0,
                    ),
            decreases n - i,
        {
            let rel = self.rels.node(i);
            let facts = self.layer.ground_binary_objects(rel, a, self.scope);
            let ghost before = out@;
            let ghost decl = declarations(self.layer@, rel, a, self.scope);
            let mut k: usize = 0;
            while k < facts.len()
                invariant
                    self.sound(),
                    i < self.rels.nodes().len(),
                    rel == self.rels.nodes()[i as int],
                    decl == declarations(self.layer@, rel, a, self.scope),
                    facts@ == fact_objects(self.layer@.layer, decl),
                    k <= facts@.len(),
                    before.len() <= out@.len(),
                    before == out@.take(before.len() as int),
                    forall|j: int| 0 <= j < out@.len() ==> self.links(a, (#[trigger] out@[j]).0, out@[j].1),
                    forall|j: int| 0 <= j < k ==> found(out@, (#[trigger] facts@[j]).0),
                decreases facts@.len() - k,
            {
                let (obj, sid) = facts[k];
                let ghost now = out@;
                proof {
                    lemma_fact_objects(self.layer@.layer, decl);
                    assert(object_of(self.layer@.layer, facts@[k as int].1) == Some(facts@[k as int].0));
                    assert(declarations(self.layer@, self.rels.nodes()[i as int], a, self.scope).contains(sid));
                    assert(fact_step(self.layer@, self.scope, self.rels.nodes(), a, obj, sid));
                }
                out.push((obj, Some(sid)));
                assert(out@.take(before.len() as int) =~= now.take(before.len() as int));
                assert forall|j: int| 0 <= j < k + 1 implies found(out@, (#[trigger] facts@[j]).0) by {
                    if j < k {
                        let m = choose|m: int| 0 <= m < now.len() && (#[trigger] now[m]).0 == facts@[j].0;
                        assert(out@[m] == now[m]);
                    } else {
                        assert(out@[now.len() as int].0 == obj);
                    }
                }
                k += 1;
            }
            assert forall|j: int, sid: SentenceId|
                0 <= j < i + 1 && #[trigger] declarations(
                    self.layer@,
                    self.rels.nodes()[j],
                    a,
                    self.scope,
                ).contains(sid) && object_of(self.layer@.layer, sid) is Some implies found(
                out@,
                object_of(self.layer@.layer, sid)->0,
            ) by {
                let y = object_of(self.layer@.layer, sid)->0;
                if j < i {
                    assert(found(before, y));
                    let m = choose|m: int| 0 <= m < before.len() && (#[trigger] before[m]).0 == y;
                    assert(out@[m] == before[m]);
                } else {
                    lemma_fact_objects(self.layer@.layer, decl);
                    let m = choose|m: int| 0 <= m < facts@.len() && #[trigger] facts@[m] == (y, sid);
                    assert(found(out@, facts@[m].0));
                }
            }
            i += 1;
        }
        assert forall|b: u64, label: Option<u64>| #[trigger] self.links(a, b, label) implies exists|k: int|
            0 <= k < out@.len() && (#[trigger] out@[k]).0 == b by {
            let sid = label->0;
            let j = choose|j: int|
                0 <= j < self.rels.nodes().len() && declarations(
                    self.layer@,
                    #[trigger] self.rels.nodes()[j],
                    a,
                    self.scope,
                ).contains(sid);
            assert(found(out@, b));
        }
        out
    }
}

/// The objects of the facts, each with its fact.
pub open spec fn fact_objects(v: LayerView, sids: Seq<SentenceId>) -> Seq<(SymbolId, SentenceId)>
    decreases sids.len(),
{
    if sids.len() == 0 {
        Seq::empty()
    } else {
        let s = fact_objects(v, sids.drop_last());
        match object_of(v, sids.last()) {
            Some(y) => s.push((y, sids.last())),
            None => s,
        }
    }
}

proof fn lemma_fact_objects(v: LayerView, sids: Seq<SentenceId>)
    ensures
        forall|k: int|
            0 <= k < fact_objects(v, sids).len() ==> object_of(v, (#[trigger] fact_objects(v, sids)[k]).1) == Some(
                fact_objects(v, sids)[k].0,
            ) && sids.contains(fact_objects(v, sids)[k].1),
        forall|sid: SentenceId|
            sids.contains(sid) && (#[trigger] object_of(v, sid)) is Some ==> exists|k: int|
                0 <= k < fact_objects(v, sids).len() && #[trigger] fact_objects(v, sids)[k] == (object_of(v, sid)->0, sid),
    decreases sids.len(),
{
    if sids.len() > 0 {
        let d = sids.drop_last();
        lemma_fact_objects(v, d);
        let s = fact_objects(v, d);
        let t = fact_objects(v, sids);
        assert forall|k: int| 0 <= k < t.len() implies object_of(v, (#[trigger] t[k]).1) == Some(t[k].0) && sids.contains(
            t[k].1,
        ) by {
            if k < s.len() {
                assert(t[k] == s[k]);
                assert(d.contains(s[k].1));
                let m = choose|m: int| 0 <= m < d.len() && d[m] == s[k].1;
                assert(sids[m] == s[k].1);
            } else {
                assert(sids[sids.len() - 1] == t[k].1);
            }
        }
        assert forall|sid: SentenceId| sids.contains(sid) && (#[trigger] object_of(v, sid)) is Some implies exists|k: int|
            0 <= k < t.len() && #[trigger] t[k] == (object_of(v, sid)->0, sid) by {
            let m = choose|m: int| 0 <= m < sids.len() && sids[m] == sid;
            if m < d.len() {
                assert(d[m] == sid);
                assert(d.contains(sid));
                let k = choose|k: int| 0 <= k < s.len() && #[trigger] s[k] == (object_of(v, sid)->0, sid);
                assert(t[k] == s[k]);
            } else {
                assert(t[t.len() - 1] == (object_of(v, sid)->0, sid));
            }
        }
    }
}

impl SemanticLayer {
    /// The ground facts that relate the subject to an object, as the object
    /// and the fact.
    pub fn ground_binary_objects(&self, head: SymbolId, subject: SymbolId, scope: Scope) -> (r: Vec<
        (SymbolId, SentenceId),
    >)
        requires
            self.wf(),
        ensures
            r@ == fact_objects(self@.layer, declarations(self@, head, subject, scope)),
    {
        let sids = self.syntactic.subject_sids_scoped(head, subject, scope);
        let mut out: Vec<(SymbolId, SentenceId)> = Vec::new();
        let mut i: usize = 0;
        assert(sids@.take(0) =~= Seq::empty());
        while i < sids.len()
            invariant
                self.wf(),
                i <= sids@.len(),
                out@ == fact_objects(self@.layer, sids@.take(i as int)),
            decreases sids@.len() - i,
        {
            assert(sids@.take(i + 1).drop_last() =~= sids@.take(i as int));
            let sid = sids[i];
            match self.syntactic.sentence(sid) {
                None => {},
                Some(s) => {
                    if s.elements.len() == 3 {
                        assert(s@[2] == s.elements@[2]@);
                        match &s.elements[2] {
                            Element::Symbol(y) => {
                                out.push((y.id(), sid));
                            },
                            _ => {},
                        }
                    }
                },
            }
            i += 1;
        }
        assert(sids@.take(i as int) =~= sids@);
        out
    }

    /// The relation and all relations below it, each with the step up that
    /// leads towards it.
    pub fn subrel_below(&self, rel: SymbolId, scope: Scope) -> (w: Walk)
        requires
            self.wf(),
        ensures
            w.covers(&(SubrelGraph { layer: self, scope }), rel),
    {
        let g = SubrelGraph { layer: self, scope };
        walk(&g, rel)
    }

    /// The relation and the relations below it, and all that their ground facts
    /// lead to from the start, each with the fact that leads there.  The start
    /// itself is left out.
    pub fn trans_reach(&self, rel: SymbolId, start: SymbolId, scope: Scope) -> (r: (Walk, Walk))
        requires
            self.wf(),
        ensures
            r.0.covers(&(SubrelGraph { layer: self, scope }), rel),
            r.1.covers_beyond(&(FactGraph { layer: self, scope, rels: &r.0 }), start),
    {
        let rels = self.subrel_below(rel, scope);
        let reach = {
            let g = FactGraph { layer: self, scope, rels: &rels };
            walk_beyond(&g, start)
        };
        (rels, reach)
    }
}

/// The event changes which relations are below others.
pub open spec fn moves_relations(v: LayerView, e: EventView) -> bool {
    match e {
        EventView::RootAdded { sid } => mined(v, sid) is Some,
        EventView::RootRemoved { .. } => true,
        EventView::TaxonomyChanged { .. } => true,
        EventView::SessionReferenced { .. } => true,
        EventView::SessionRetracted { .. } => true,
        _ => false,
    }
}

/// The events leave the remembered relations below others untrue.
pub open spec fn lattice_stale(v: LayerView, es: Seq<EventView>) -> bool {
    exists|i: int| 0 <= i < es.len() && moves_relations(v, #[trigger] es[i])
}

/// The event changes which facts there are, or who sees them.
pub open spec fn moves_facts(e: EventView) -> bool {
    e is RelationAdded || e is RelationRemoved || e is AxiomsPromoted
}

/// The events leave remembered reachability untrue: the relations below others
/// changed, or the facts.
pub open spec fn reach_stale(v: LayerView, es: Seq<EventView>) -> bool {
    lattice_stale(v, es) || exists|i: int| 0 <= i < es.len() && moves_facts(#[trigger] es[i])
}

/// Says whether the events leave the remembered relations below others
/// untrue.
pub fn subrel_lattice_dirty(layer: &SemanticLayer, events: &Vec<Event>) -> (r: bool)
    requires
        layer.wf(),
    ensures
        r == lattice_stale(layer@.layer, crate::events::event_views(events@)),
{
    let ghost evs = crate::events::event_views(events@);
    let mut i: usize = 0;
    while i < events.len()
        invariant
            layer.wf(),
            i <= events@.len(),
            evs == crate::events::event_views(events@),
            forall|j: int| 0 <= j < i ==> !moves_relations(layer@.layer, #[trigger] evs[j]),
        decreases events@.len() - i,
    {
        assert(evs[i as int] == events@[i as int]@);
        let dirty = match &events[i] {
            Event::RootAdded { sid } => mined_edge_of(layer, *sid).is_some(),
            Event::RootRemoved { .. } => true,
            Event::TaxonomyChanged { .. } => true,
            Event::SessionReferenced { .. } => true,
            Event::SessionRetracted { .. } => true,
            _ => false,
        };
        if dirty {
            return true;
        }
        i += 1;
    }
    false
}

/// Says whether the events leave remembered reachability untrue.
pub fn trans_reach_dirty(layer: &SemanticLayer, events: &Vec<Event>) -> (r: bool)
    requires
        layer.wf(),
    ensures
        r == reach_stale(layer@.layer, crate::events::event_views(events@)),
{
    if subrel_lattice_dirty(layer, events) {
        return true;
    }
    let ghost evs = crate::events::event_views(events@);
    let mut i: usize = 0;
    while i < events.len()
        invariant
            i <= events@.len(),
            evs == crate::events::event_views(events@),
            forall|j: int| 0 <= j < i ==> !moves_facts(#[trigger] evs[j]),
        decreases events@.len() - i,
    {
        assert(evs[i as int] == events@[i as int]@);
        let dirty = match &events[i] {
            Event::RelationAdded { .. } => true,
            Event::RelationRemoved { .. } => true,
            Event::AxiomsPromoted { .. } => true,
            _ => false,
        };
        if dirty {
            return true;
        }
        i += 1;
    }
    false
}

// ---------------------------------------------------------------------------
// What is below, and what is in reach, is so
// ---------------------------------------------------------------------------

/// The sentence is the atom of the relation over the two variables.
pub open spec fn atom_over(v: LayerView, sid: SentenceId, r: SymbolId, a: SymbolId, b: SymbolId) -> bool {
    body(v, sid) matches Some(ps) && ps.len() == 3 && ps[0] == Part::Sym(r) && (ps[1] matches Part::Var(x, _) && x == a) && (
    ps[2] matches Part::Var(y, _) && y == b)
}

/// The sentence is the rule that whatever two things the one relation holds of, in this
/// order, the other holds of too.
pub open spec fn passes_on(v: LayerView, sid: SentenceId, r1: SymbolId, r2: SymbolId) -> bool {
    exists|s: SentenceId, t: SentenceId, a: SymbolId, b: SymbolId|
        a != b && body(v, sid) == Some(seq![Part::Op(OpKind::Implies), Part::Sub(s), Part::Sub(t)]) && #[trigger] atom_over(
            v,
            s,
            r1,
            a,
            b,
        ) && #[trigger] atom_over(v, t, r2, a, b)
}

/// A rule that passes the pairs of one relation on to a different one is recognised, and
/// no other sentence is.
pub proof fn law_rules_that_pass_pairs_on(v: LayerView, sid: SentenceId, r1: SymbolId, r2: SymbolId)
    ensures
        mined(v, sid) == Some((r1, r2)) <==> r1 != r2 && passes_on(v, sid, r1, r2),
{
    if mined(v, sid) == Some((r1, r2)) {
        let ps = body(v, sid)->0;
        let (s, t) = (ps[1]->Sub_0, ps[2]->Sub_0);
        let (_, a, b) = var_atom(v, s)->0;
        assert(ps =~= seq![Part::Op(OpKind::Implies), Part::Sub(s), Part::Sub(t)]);
        assert(atom_over(v, s, r1, a, b) && atom_over(v, t, r2, a, b));
    }
    if r1 != r2 && passes_on(v, sid, r1, r2) {
        let (s, t, a, b) = choose|s: SentenceId, t: SentenceId, a: SymbolId, b: SymbolId|
            a != b && body(v, sid) == Some(seq![Part::Op(OpKind::Implies), Part::Sub(s), Part::Sub(t)])
                && #[trigger] atom_over(v, s, r1, a, b) && #[trigger] atom_over(v, t, r2, a, b);
        assert(var_atom(v, s) == Some((r1, a, b)) && var_atom(v, t) == Some((r2, a, b)));
    }
}

/// The children of a symbol are the symbols that a record puts under it.
pub proof fn law_children_are_the_edges(rs: Seq<RecordView>, sym: SymbolId, scope: Scope, c: SymbolId, rel: TaxRelation)
    ensures
        children(rs, sym, scope).contains((c, rel)) <==> exists|i: int|
            0 <= i < rs.len() && (#[trigger] rs[i]).edge.from == sym && rs[i].edge.to == c && rs[i].edge.rel == rel
                && counts_in(rs[i], scope),
    decreases rs.len(),
{
    if rs.len() > 0 {
        let d = rs.drop_last();
        law_children_are_the_edges(d, sym, scope, c, rel);
        let s = children(d, sym, scope);
        let t = children(rs, sym, scope);
        let n = rs.len() - 1;
        if t.contains((c, rel)) {
            let k = choose|k: int| 0 <= k < t.len() && t[k] == (c, rel);
            if k < s.len() {
                assert(s[k] == (c, rel));
                assert(s.contains((c, rel)));
                let i = choose|i: int|
                    0 <= i < d.len() && (#[trigger] d[i]).edge.from == sym && d[i].edge.to == c && d[i].edge.rel == rel
                        && counts_in(d[i], scope);
                assert(rs[i] == d[i]);
            } else {
                assert(rs[n].edge.from == sym);
            }
        }
        if exists|i: int|
            0 <= i < rs.len() && (#[trigger] rs[i]).edge.from == sym && rs[i].edge.to == c && rs[i].edge.rel == rel
                && counts_in(rs[i], scope) {
            let i = choose|i: int|
                0 <= i < rs.len() && (#[trigger] rs[i]).edge.from == sym && rs[i].edge.to == c && rs[i].edge.rel == rel
                    && counts_in(rs[i], scope);
            if i < n {
                assert(d[i] == rs[i]);
                let k = choose|k: int| 0 <= k < s.len() && s[k] == (c, rel);
                assert(t[k] == (c, rel));
            } else if s.contains((c, rel)) {
                let k = choose|k: int| 0 <= k < s.len() && s[k] == (c, rel);
                assert(t[k] == (c, rel));
            } else {
                assert(t[s.len() as int] == (c, rel));
            }
        }
    }
}

/// What relations hold of which symbols.
pub type Holds = spec_fn(SymbolId, SymbolId, SymbolId) -> bool;

/// The one relation holds of no two symbols that the other does not hold of.
pub open spec fn contained(m: Holds, r: SymbolId, up: SymbolId) -> bool {
    forall|x: SymbolId, y: SymbolId| #[trigger] m(r, x, y) ==> m(up, x, y)
}

/// Every declared subrelation and every rule that passes pairs on, as far as the scope
/// sees them, are true.
pub open spec fn relations_true(f: Facts, scope: Scope, m: Holds) -> bool {
    &&& forall|i: int|
        0 <= i < f.edges.len() && (#[trigger] f.edges[i]).edge.rel == TaxRelation::Subrelation && counts_in(f.edges[i], scope)
            ==> contained(m, f.edges[i].edge.to, f.edges[i].edge.from)
    &&& forall|k: int, r1: SymbolId, r2: SymbolId|
        0 <= k < f.layer.roots.len() && seen_in(f.layer.roots[k], scope) && #[trigger] passes_on(
            f.layer,
            f.layer.roots[k].sid,
            r1,
            r2,
        ) ==> contained(m, r1, r2)
}

/// The root, which the scope sees, is a fact between two symbols.
pub open spec fn relates(f: Facts, scope: Scope, k: int, r: SymbolId, x: SymbolId, y: SymbolId) -> bool {
    0 <= k < f.layer.roots.len() && seen_in(f.layer.roots[k], scope) && body(f.layer, f.layer.roots[k].sid) == Some(
        seq![Part::Sym(r), Part::Sym(x), Part::Sym(y)],
    )
}

/// Every fact between two symbols that the scope sees is true.
pub open spec fn facts_true(f: Facts, scope: Scope, m: Holds) -> bool {
    forall|k: int, r: SymbolId, x: SymbolId, y: SymbolId| #[trigger] relates(f, scope, k, r, x, y) ==> m(r, x, y)
}

proof fn lemma_step_contained(f: Facts, scope: Scope, m: Holds, up: SymbolId, sub: SymbolId, label: Option<SentenceId>)
    requires
        relations_true(f, scope, m),
        below_step(f, scope, up, sub, label),
    ensures
        contained(m, sub, up),
{
    match label {
        None => {
            law_children_are_the_edges(f.edges, up, scope, sub, TaxRelation::Subrelation);
            let i = choose|i: int|
                0 <= i < f.edges.len() && (#[trigger] f.edges[i]).edge.from == up && f.edges[i].edge.to == sub
                    && f.edges[i].edge.rel == TaxRelation::Subrelation && counts_in(f.edges[i], scope);
            assert(contained(m, f.edges[i].edge.to, f.edges[i].edge.from));
        },
        Some(sid) => {
            law_rules_that_pass_pairs_on(f.layer, sid, sub, up);
            let k = root_place(f.layer.roots, sid);
            assert(root_is(f.layer.roots, sid, k));
            assert(passes_on(f.layer, f.layer.roots[k].sid, sub, up));
        },
    }
}

proof fn lemma_path_contained<'a>(g: &SubrelGraph<'a>, m: Holds, p: Seq<u64>, k: int)
    requires
        relations_true(g.layer@, g.scope, m),
        is_path(g, p),
        0 <= k < p.len(),
    ensures
        contained(m, p[k], p[0]),
    decreases k,
{
    if k > 0 {
        lemma_path_contained(g, m, p, k - 1);
        assert(linked(g, p[k - 1], p[k]));
        let label = choose|label: Option<u64>| #[trigger] g.links(p[k - 1], p[k], label);
        lemma_step_contained(g.layer@, g.scope, m, p[k - 1], p[k], label);
        assert forall|x: SymbolId, y: SymbolId| #[trigger] m(p[k], x, y) implies m(p[0], x, y) by {
            assert(m(p[k - 1], x, y));
        }
    }
}

/// Whatever is found below a relation is contained in it, wherever the declared
/// subrelations and the rules are true.
pub proof fn law_what_is_below_is_contained<'a>(g: &SubrelGraph<'a>, w: Walk, rel: SymbolId, m: Holds, i: int)
    requires
        w.covers(g, rel),
        relations_true(g.layer@, g.scope, m),
        0 <= i < w.nodes().len(),
    ensures
        contained(m, w.nodes()[i], rel),
{
    let b = w.nodes()[i];
    assert(w.nodes().contains(b));
    let p = choose|p: Seq<u64>| path_between(g, rel, b, p);
    lemma_path_contained(g, m, p, p.len() - 1);
}

proof fn lemma_reach_on<G: Graph>(g: &G, a: u64, b: u64, c: u64)
    requires
        reachable(g, a, b),
        linked(g, b, c),
    ensures
        reachable(g, a, c),
{
    let p = choose|p: Seq<u64>| path_between(g, a, b, p);
    let q = p.push(c);
    assert forall|i: int, j: int| 0 <= i < q.len() && j == i + 1 && j < q.len() implies linked(
        g,
        #[trigger] q[i],
        #[trigger] q[j],
    ) by {
        if j < p.len() {
            assert(p[i] == q[i] && p[j] == q[j]);
        } else {
            assert(q[i] == p.last());
        }
    }
    assert(path_between(g, a, c, q));
}

/// Nothing that is below is missed: with a relation, each one that a counting record
/// declares to be a subrelation of it is found, and each one whose pairs a rule that the
/// scope sees passes on to it.
pub proof fn law_all_that_is_below_is_found<'a>(g: &SubrelGraph<'a>, w: Walk, rel: SymbolId, up: SymbolId, sub: SymbolId)
    requires
        w.covers(g, rel),
        w.nodes().contains(up),
        roots_distinct(g.layer@.layer.roots),
        sub != up,
        (exists|i: int|
            0 <= i < g.layer@.edges.len() && (#[trigger] g.layer@.edges[i]).edge.from == up && g.layer@.edges[i].edge.to
                == sub && g.layer@.edges[i].edge.rel == TaxRelation::Subrelation && counts_in(g.layer@.edges[i], g.scope)) || (
        exists|k: int|
            0 <= k < g.layer@.layer.roots.len() && seen_in(#[trigger] g.layer@.layer.roots[k], g.scope) && passes_on(
                g.layer@.layer,
                g.layer@.layer.roots[k].sid,
                sub,
                up,
            )),
    ensures
        w.nodes().contains(sub),
{
    let f = g.layer@;
    law_children_are_the_edges(f.edges, up, g.scope, sub, TaxRelation::Subrelation);
    if declared_below(f, g.scope, up, sub) {
        assert(g.links(up, sub, None));
    } else {
        let k = choose|k: int|
            0 <= k < f.layer.roots.len() && seen_in(#[trigger] f.layer.roots[k], g.scope) && passes_on(
                f.layer,
                f.layer.roots[k].sid,
                sub,
                up,
            );
        let sid = f.layer.roots[k].sid;
        law_rules_that_pass_pairs_on(f.layer, sid, sub, up);
        assert(root_is(f.layer.roots, sid, k));
        lemma_root_place(f.layer.roots, sid, k);
        assert(g.links(up, sub, Some(sid)));
    }
    assert(linked(g, up, sub));
    lemma_reach_on(g, rel, up, sub);
}

/// The relation is transitive.
pub open spec fn is_transitive(m: Holds, r: SymbolId) -> bool {
    forall|x: SymbolId, y: SymbolId, z: SymbolId| #[trigger] m(r, x, y) && #[trigger] m(r, y, z) ==> m(r, x, z)
}

proof fn lemma_fact_true<'a>(g: &FactGraph<'a>, rel: SymbolId, m: Holds, x: SymbolId, y: SymbolId)
    requires
        g.rels.covers(&(SubrelGraph { layer: g.layer, scope: g.scope }), rel),
        relations_true(g.layer@, g.scope, m),
        facts_true(g.layer@, g.scope, m),
        linked(g, x, y),
    ensures
        m(rel, x, y),
{
    let f = g.layer@;
    let label = choose|label: Option<u64>| #[trigger] g.links(x, y, label);
    let sid = label->0;
    let i = choose|i: int|
        0 <= i < g.rels.nodes().len() && declarations(f, #[trigger] g.rels.nodes()[i], x, g.scope).contains(sid);
    let r = g.rels.nodes()[i];
    let p = about(f.layer, r, x, g.scope);
    lemma_picked(f.layer.roots, p, sid);
    let k = choose|k: int| 0 <= k < f.layer.roots.len() && p(#[trigger] f.layer.roots[k]) && f.layer.roots[k].sid == sid;
    let ps = body(f.layer, sid)->0;
    assert(ps =~= seq![Part::Sym(r), Part::Sym(x), Part::Sym(y)]);
    assert(relates(f, g.scope, k, r, x, y));
    let h = SubrelGraph { layer: g.layer, scope: g.scope };
    law_what_is_below_is_contained(&h, *g.rels, rel, m, i);
}

proof fn lemma_path_true<'a>(g: &FactGraph<'a>, rel: SymbolId, m: Holds, p: Seq<u64>, k: int)
    requires
        g.rels.covers(&(SubrelGraph { layer: g.layer, scope: g.scope }), rel),
        relations_true(g.layer@, g.scope, m),
        facts_true(g.layer@, g.scope, m),
        is_transitive(m, rel),
        is_path(g, p),
        0 < k < p.len(),
    ensures
        m(rel, p[0], p[k]),
    decreases k,
{
    assert(linked(g, p[k - 1], p[k]));
    lemma_fact_true(g, rel, m, p[k - 1], p[k]);
    if k > 1 {
        lemma_path_true(g, rel, m, p, k - 1);
    }
}

/// Whatever a transitive relation is found to lead to from a symbol it holds of, wherever
/// the facts, the declared subrelations and the rules are true.
pub proof fn law_what_is_in_reach_is_related<'a>(g: &FactGraph<'a>, w: Walk, rel: SymbolId, start: SymbolId, m: Holds, i: int)
    requires
        g.rels.covers(&(SubrelGraph { layer: g.layer, scope: g.scope }), rel),
        w.covers_beyond(g, start),
        relations_true(g.layer@, g.scope, m),
        facts_true(g.layer@, g.scope, m),
        is_transitive(m, rel),
        0 <= i < w.nodes().len(),
    ensures
        m(rel, start, w.nodes()[i]),
{
    let b = w.nodes()[i];
    assert(w.nodes().contains(b));
    let p = choose|p: Seq<u64>| path_between(g, start, b, p);
    lemma_path_true(g, rel, m, p, p.len() - 1);
}

/// Nothing in reach is missed: with the start, or a symbol in reach, each symbol that a
/// fact of the relation, or of one below it, relates it to is in reach, but for the start
/// itself.
pub proof fn law_all_in_reach_is_found<'a>(
    g: &FactGraph<'a>,
    w: Walk,
    start: SymbolId,
    r: SymbolId,
    x: SymbolId,
    y: SymbolId,
    k: int,
)
    requires
        w.covers_beyond(g, start),
        x == start || w.nodes().contains(x),
        y != start,
        g.rels.nodes().contains(r),
        relates(g.layer@, g.scope, k, r, x, y),
    ensures
        w.nodes().contains(y),
{
    let f = g.layer@;
    let sid = f.layer.roots[k].sid;
    let p = about(f.layer, r, x, g.scope);
    assert(p(f.layer.roots[k]));
    lemma_picked(f.layer.roots, p, sid);
    assert(declarations(f, r, x, g.scope).contains(sid));
    let i = choose|i: int| 0 <= i < g.rels.nodes().len() && g.rels.nodes()[i] == r;
    assert(declarations(f, g.rels.nodes()[i], x, g.scope).contains(sid));
    assert(fact_step(f, g.scope, g.rels.nodes(), x, y, sid));
    assert(g.links(x, y, Some(sid)));
    assert(linked(g, x, y));
    if x == start {
        assert(path_between(g, start, start, seq![start]));
    }
    lemma_reach_on(g, start, x, y);
}

/// The objects of a relation for a subject are what the facts that the scope sees say, each
/// with its fact: sentences of three elements with the relation, the subject and a symbol.
pub proof fn law_objects_are_what_facts_say(
    f: Facts,
    head: SymbolId,
    subject: SymbolId,
    scope: Scope,
    y: SymbolId,
    sid: SentenceId,
)
    ensures
        fact_objects(f.layer, declarations(f, head, subject, scope)).contains((y, sid)) <==> body(f.layer, sid) == Some(
            seq![Part::Sym(head), Part::Sym(subject), Part::Sym(y)],
        ) && exists|k: int|
            0 <= k < f.layer.roots.len() && (#[trigger] f.layer.roots[k]).sid == sid && seen_in(f.layer.roots[k], scope),
{
    let p = about(f.layer, head, subject, scope);
    let sids = declarations(f, head, subject, scope);
    let os = fact_objects(f.layer, sids);
    let whole = seq![Part::Sym(head), Part::Sym(subject), Part::Sym(y)];
    lemma_fact_objects(f.layer, sids);
    lemma_picked(f.layer.roots, p, sid);
    if os.contains((y, sid)) {
        let k = choose|k: int| 0 <= k < os.len() && os[k] == (y, sid);
        assert(object_of(f.layer, os[k].1) == Some(y));
        let i = choose|i: int| 0 <= i < f.layer.roots.len() && p(#[trigger] f.layer.roots[i]) && f.layer.roots[i].sid == sid;
        assert(seen_in(f.layer.roots[i], scope));
        assert(body(f.layer, sid)->0 =~= whole);
    }
    if body(f.layer, sid) == Some(whole) && exists|k: int|
        0 <= k < f.layer.roots.len() && (#[trigger] f.layer.roots[k]).sid == sid && seen_in(f.layer.roots[k], scope) {
        let k = choose|k: int|
            0 <= k < f.layer.roots.len() && (#[trigger] f.layer.roots[k]).sid == sid && seen_in(f.layer.roots[k], scope);
        assert(p(f.layer.roots[k]));
        assert(sids.contains(sid));
        assert(object_of(f.layer, sid) == Some(y));
    }
}

} // verus!
