//! Which remembered answers a sentence can make untrue.
use vstd::prelude::*;

use crate::content::Part;
use crate::roles::{tax_role, Roles};
use crate::semantic::{Facts, SemanticLayer};
use crate::store::{body, head_of, op_of, tree, Element, Sentence};
use crate::types::{OpKind, SentenceId, SymbolId};

verus! {

/// Which remembered answers are touched.
#[derive(Clone, Copy, Debug, PartialEq, Eq, Structural)]
pub struct CacheImpact {
    pub taxonomy: bool,
    pub sort_annotations: bool,
    pub numeric_char: bool,
    pub semantic_cache: bool,
}

impl CacheImpact {
    /// None is touched.
    pub fn none() -> (r: CacheImpact)
        ensures
            r == (CacheImpact {
                taxonomy: false,
                sort_annotations: false,
                numeric_char: false,
                semantic_cache: false,
            }),
    {
        CacheImpact { taxonomy: false, sort_annotations: false, numeric_char: false, semantic_cache: false }
    }

    /// Some are touched.
    pub fn any(&self) -> (r: bool)
        ensures
            r == (self.taxonomy || self.sort_annotations || self.numeric_char || self.semantic_cache),
    {
        self.taxonomy || self.sort_annotations || self.numeric_char || self.semantic_cache
    }

    /// All are touched.
    pub fn all_set(&self) -> (r: bool)
        ensures
            r == (self.taxonomy && self.sort_annotations && self.numeric_char && self.semantic_cache),
    {
        self.taxonomy && self.sort_annotations && self.numeric_char && self.semantic_cache
    }

    /// What either touches.
    pub fn union(&self, other: &CacheImpact) -> (r: CacheImpact)
        ensures
            r == joined(*self, *other),
    {
        CacheImpact {
            taxonomy: self.taxonomy || other.taxonomy,
            sort_annotations: self.sort_annotations || other.sort_annotations,
            numeric_char: self.numeric_char || other.numeric_char,
            semantic_cache: self.semantic_cache || other.semantic_cache,
        }
    }
}

/// What either touches.
pub open spec fn joined(a: CacheImpact, b: CacheImpact) -> CacheImpact {
    CacheImpact {
        taxonomy: a.taxonomy || b.taxonomy,
        sort_annotations: a.sort_annotations || b.sort_annotations,
        numeric_char: a.numeric_char || b.numeric_char,
        semantic_cache: a.semantic_cache || b.semantic_cache,
    }
}

/// The head declares a domain or a range.
pub open spec fn signature_head(roles: Roles, head: SymbolId) -> bool {
    head == roles.domain || head == roles.domain_subclass || head == roles.range || head == roles.range_subclass
}

/// The sentence says of a variable that it is an instance.
pub open spec fn says_instance(f: Facts, sid: SentenceId) -> bool {
    body(f.layer, sid) matches Some(ps) && head_of(ps) == Some(f.roles.instance) && ps.len() > 1 && ps[1] is Var
}

/// Some of the sentences says of a variable that it is an instance.
pub open spec fn some_instance(f: Facts, sids: Seq<SentenceId>) -> bool {
    exists|i: int| 0 <= i < sids.len() && says_instance(f, #[trigger] sids[i])
}

/// Some part of the element says of a variable that it is an instance.
pub open spec fn holds_instance(f: Facts, p: Part) -> bool {
    p matches Part::Sub(sid) && some_instance(f, tree(f.layer.entries, sid))
}

/// What one sentence touches by itself, its parts not counted: a taxonomy
/// head the taxonomy, a declaration the signatures, and a rule with an
/// instance pattern on one of its sides the numeric classes.
pub open spec fn own_impact(f: Facts, sid: SentenceId) -> CacheImpact {
    let ps = match body(f.layer, sid) {
        Some(ps) => ps,
        None => Seq::empty(),
    };
    let taxonomy = head_of(ps) matches Some(h) && tax_role(f.roles, h) is Some;
    let signature = head_of(ps) matches Some(h) && tax_role(f.roles, h) is None && signature_head(f.roles, h);
    CacheImpact {
        taxonomy,
        sort_annotations: signature,
        numeric_char: (op_of(ps) == Some(OpKind::Iff) || op_of(ps) == Some(OpKind::Implies)) && ps.len() >= 3 && (
        holds_instance(f, ps[1]) || holds_instance(f, ps[2])),
        semantic_cache: taxonomy || signature,
    }
}

/// What the sentences touch together.
pub open spec fn impact_of_all(f: Facts, sids: Seq<SentenceId>) -> CacheImpact
    decreases sids.len(),
{
    if sids.len() == 0 {
        CacheImpact { taxonomy: false, sort_annotations: false, numeric_char: false, semantic_cache: false }
    } else {
        joined(impact_of_all(f, sids.drop_last()), own_impact(f, sids.last()))
    }
}

/// What the sentence touches with all its parts.
pub open spec fn impact_of(f: Facts, sid: SentenceId) -> CacheImpact {
    impact_of_all(f, tree(f.layer.entries, sid))
}

impl SemanticLayer {
    fn is_instance_pattern(&self, sid: SentenceId) -> (r: bool)
        requires
            self.wf(),
        ensures
            r == says_instance(self@, sid),
    {
        let s = match self.syntactic.sentence(sid) {
            None => return false,
            Some(s) => s,
        };
        match s.head_symbol() {
            None => return false,
            Some(h) => {
                if h != self.roles.instance || s.elements.len() < 2 {
                    return false;
                }
            },
        }
        assert(s@[1] == s.elements@[1]@);
        match &s.elements[1] {
            Element::Variable { .. } => true,
            _ => false,
        }
    }

    /// Some part of the element says of a variable that it is an instance.
    pub fn contains_instance_pattern(&self, el: &Element) -> (r: bool)
        requires
            self.wf(),
        ensures
            r == holds_instance(self@, el@),
    {
        match el {
            Element::Sub(sid) => {
                let sids = self.syntactic.tree_sids(*sid);
                let mut i: usize = 0;
                while i < sids.len()
                    invariant
                        self.wf(),
                        el@ == Part::Sub(*sid),
                        sids@ == tree(self@.layer.entries, *sid),
                        i <= sids@.len(),
                        forall|j: int| 0 <= j < i ==> !says_instance(self@, #[trigger] sids@[j]),
                    decreases sids@.len() - i,
                {
                    if self.is_instance_pattern(sids[i]) {
                        assert(some_instance(self@, sids@));
                        return true;
                    }
                    i += 1;
                }
                false
            },
            _ => false,
        }
    }

    fn classify_own(&self, sid: SentenceId) -> (r: CacheImpact)
        requires
            self.wf(),
        ensures
            r == own_impact(self@, sid),
    {
        let s: &Sentence = match self.syntactic.sentence(sid) {
            None => return CacheImpact::none(),
            Some(s) => s,
        };
        let mut out = CacheImpact::none();
        match s.op() {
            None => {},
            Some(op) => {
                if (op == OpKind::Iff || op == OpKind::Implies) && s.elements.len() >= 3 {
                    assert(s@[1] == s.elements@[1]@);
                    assert(s@[2] == s.elements@[2]@);
                    if self.contains_instance_pattern(&s.elements[1]) || self.contains_instance_pattern(
                        &s.elements[2],
                    ) {
                        out.numeric_char = true;
                    }
                }
            },
        }
        match s.head_symbol() {
            None => {},
            Some(h) => {
                if self.roles.tax_role_of(h).is_some() {
                    out.taxonomy = true;
                    out.semantic_cache = true;
                } else if h == self.roles.domain || h == self.roles.domain_subclass || h == self.roles.range || h
                    == self.roles.range_subclass {
                    out.sort_annotations = true;
                    out.semantic_cache = true;
                }
            },
        }
        out
    }

    /// What the sentence touches with all its parts.
    pub fn classify_sentence_tree(&self, sid: SentenceId) -> (r: CacheImpact)
        requires
            self.wf(),
        ensures
            r == impact_of(self@, sid),
    {
        let sids = self.syntactic.tree_sids(sid);
        let mut out = CacheImpact::none();
        let mut i: usize = 0;
        assert(sids@.take(0) =~= Seq::empty());
        while i < sids.len()
            invariant
                self.wf(),
                i <= sids@.len(),
                out == impact_of_all(self@, sids@.take(i as int)),
            decreases sids@.len() - i,
        {
            assert(sids@.take(i + 1).drop_last() =~= sids@.take(i as int));
            let own = self.classify_own(sids[i]);
            out = out.union(&own);
            i += 1;
        }
        assert(sids@.take(i as int) =~= sids@);
        out
    }
}

/// Touching the taxonomy or a signature touches the remembered answers.
pub proof fn law_structure_touches_answers(f: Facts, sids: Seq<SentenceId>)
    ensures
        impact_of_all(f, sids).semantic_cache == (impact_of_all(f, sids).taxonomy || impact_of_all(
            f,
            sids,
        ).sort_annotations),
    decreases sids.len(),
{
    if sids.len() > 0 {
        law_structure_touches_answers(f, sids.drop_last());
    }
}

/// The sentence has one of the heads that build the taxonomy.
pub open spec fn builds_taxonomy(f: Facts, sid: SentenceId) -> bool {
    body(f.layer, sid) matches Some(ps) && ps.len() > 0 && (ps[0] == Part::Sym(f.roles.subclass) || ps[0] == Part::Sym(
        f.roles.instance,
    ) || ps[0] == Part::Sym(f.roles.subrelation) || ps[0] == Part::Sym(f.roles.sub_attribute))
}

/// The sentence has one of the heads that declare a domain or a range.
pub open spec fn declares_place(f: Facts, sid: SentenceId) -> bool {
    body(f.layer, sid) matches Some(ps) && ps.len() > 0 && (ps[0] == Part::Sym(f.roles.domain) || ps[0] == Part::Sym(
        f.roles.domain_subclass,
    ) || ps[0] == Part::Sym(f.roles.range) || ps[0] == Part::Sym(f.roles.range_subclass))
}

/// The sentence is a rule, and within the side `k` of it stands `inner`, which says of a
/// variable that it is an instance.
pub open spec fn rule_on_instances(f: Facts, sid: SentenceId, k: int, inner: SentenceId) -> bool {
    &&& body(f.layer, sid) matches Some(ps) && ps.len() >= 3 && (ps[0] == Part::Op(OpKind::Iff) || ps[0] == Part::Op(
        OpKind::Implies,
    )) && (ps[k] matches Part::Sub(side) && tree(f.layer.entries, side).contains(inner))
    &&& k == 1 || k == 2
    &&& body(f.layer, inner) matches Some(qs) && qs.len() > 1 && qs[0] == Part::Sym(f.roles.instance) && qs[1] is Var
}

/// Touched is what some sentence touches, and nothing else: the taxonomy by a sentence
/// that builds it, the signatures by a declaration that builds no taxonomy, the numeric
/// classes by a rule with an instance pattern on either side, and the remembered answers
/// by the first two.
pub proof fn law_what_is_touched(f: Facts, sids: Seq<SentenceId>)
    ensures
        impact_of_all(f, sids).taxonomy <==> exists|i: int| 0 <= i < sids.len() && builds_taxonomy(f, #[trigger] sids[i]),
        impact_of_all(f, sids).sort_annotations <==> exists|i: int|
            0 <= i < sids.len() && declares_place(f, #[trigger] sids[i]) && !builds_taxonomy(f, sids[i]),
        impact_of_all(f, sids).numeric_char <==> exists|i: int, k: int, inner: SentenceId|
            0 <= i < sids.len() && #[trigger] rule_on_instances(f, sids[i], k, inner),
    decreases sids.len(),
{
    if sids.len() > 0 {
        let rest = sids.drop_last();
        let n = sids.len() - 1;
        let sid = sids[n];
        law_what_is_touched(f, rest);
        let own = own_impact(f, sid);
        assert(own.taxonomy == builds_taxonomy(f, sid));
        assert(own.sort_annotations == (declares_place(f, sid) && !builds_taxonomy(f, sid)));
        lemma_own_rule(f, sid);
        if exists|i: int| 0 <= i < rest.len() && builds_taxonomy(f, #[trigger] rest[i]) {
            let i = choose|i: int| 0 <= i < rest.len() && builds_taxonomy(f, #[trigger] rest[i]);
            assert(builds_taxonomy(f, sids[i]));
        }
        if exists|i: int| 0 <= i < sids.len() && builds_taxonomy(f, #[trigger] sids[i]) {
            let i = choose|i: int| 0 <= i < sids.len() && builds_taxonomy(f, #[trigger] sids[i]);
            if i < n {
                assert(builds_taxonomy(f, rest[i]));
            }
        }
        if exists|i: int| 0 <= i < rest.len() && declares_place(f, #[trigger] rest[i]) && !builds_taxonomy(f, rest[i]) {
            let i = choose|i: int|
                0 <= i < rest.len() && declares_place(f, #[trigger] rest[i]) && !builds_taxonomy(f, rest[i]);
            assert(declares_place(f, sids[i]) && !builds_taxonomy(f, sids[i]));
        }
        if exists|i: int| 0 <= i < sids.len() && declares_place(f, #[trigger] sids[i]) && !builds_taxonomy(f, sids[i]) {
            let i = choose|i: int|
                0 <= i < sids.len() && declares_place(f, #[trigger] sids[i]) && !builds_taxonomy(f, sids[i]);
            if i < n {
                assert(declares_place(f, rest[i]) && !builds_taxonomy(f, rest[i]));
            }
        }
        if exists|i: int, k: int, inner: SentenceId|
            0 <= i < rest.len() && #[trigger] rule_on_instances(f, rest[i], k, inner) {
            let (i, k, inner) = choose|i: int, k: int, inner: SentenceId|
                0 <= i < rest.len() && #[trigger] rule_on_instances(f, rest[i], k, inner);
            assert(rule_on_instances(f, sids[i], k, inner));
        }
        if exists|i: int, k: int, inner: SentenceId|
            0 <= i < sids.len() && #[trigger] rule_on_instances(f, sids[i], k, inner) {
            let (i, k, inner) = choose|i: int, k: int, inner: SentenceId|
                0 <= i < sids.len() && #[trigger] rule_on_instances(f, sids[i], k, inner);
            if i < n {
                assert(rule_on_instances(f, rest[i], k, inner));
            }
        }
        if own.numeric_char {
            let (k, inner) = choose|k: int, inner: SentenceId| rule_on_instances(f, sid, k, inner);
            assert(rule_on_instances(f, sids[n], k, inner));
        }
    }
}

proof fn lemma_own_rule(f: Facts, sid: SentenceId)
    ensures
        own_impact(f, sid).numeric_char <==> exists|k: int, inner: SentenceId| rule_on_instances(f, sid, k, inner),
{
    if exists|k: int, inner: SentenceId| rule_on_instances(f, sid, k, inner) {
        let (k, inner) = choose|k: int, inner: SentenceId| rule_on_instances(f, sid, k, inner);
        let ps = body(f.layer, sid)->0;
        let t = tree(f.layer.entries, ps[k]->Sub_0);
        let i = choose|i: int| 0 <= i < t.len() && t[i] == inner;
        assert(says_instance(f, t[i]));
        assert(holds_instance(f, ps[k]));
    }
    if own_impact(f, sid).numeric_char {
        let ps = body(f.layer, sid)->0;
        let k: int = if holds_instance(f, ps[1]) {
            1
        } else {
            2
        };
        let t = tree(f.layer.entries, ps[k]->Sub_0);
        let i = choose|i: int| 0 <= i < t.len() && says_instance(f, #[trigger] t[i]);
        assert(t.contains(t[i]));
        assert(rule_on_instances(f, sid, k, t[i]));
    }
}

/// A sentence touches what its parts touch, however deep they stand in it.
pub proof fn law_parts_touch_what_they_touch_alone(f: Facts, sid: SentenceId, inner: SentenceId)
    requires
        tree(f.layer.entries, sid).contains(inner),
    ensures
        builds_taxonomy(f, inner) ==> impact_of(f, sid).taxonomy,
        declares_place(f, inner) && !builds_taxonomy(f, inner) ==> impact_of(f, sid).sort_annotations,
{
    let t = tree(f.layer.entries, sid);
    let i = choose|i: int| 0 <= i < t.len() && t[i] == inner;
    assert(t[i] == inner);
    law_what_is_touched(f, t);
    assert(builds_taxonomy(f, inner) == builds_taxonomy(f, t[i]));
}

} // verus!
