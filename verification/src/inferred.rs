//! The most specific classes of a symbol, from what the sentences say of it.
use vstd::prelude::*;

use crate::content::Part;
use crate::roles::{tax_role, TaxRelation};
use crate::semantic::{parents, reaches, Above, Facts, SemanticLayer};
use crate::signature::{
    domain_of, left_to_ask, lemma_asking, lemma_parent_asked, range_of, range_steps, RelationDomain, RelationRange,
};
use crate::store::{
    body, head_of, holds_id, lemma_push_contains, mentioning, picked, tree, Element, Entry, LayerView, Scope, Sentence,
};
use crate::taxonomy::{end_id, RecordView};
use crate::text::{all_digits, chars_of, is_digit};
use crate::types::{name_id, Literal, OpKind, SentenceId, SymbolId};
use crate::walk::{walk, Graph};

verus! {

/// What a symbol is found to be.
#[derive(Debug, PartialEq, Eq)]
pub enum ClassInference {
    Unknown,
    /// A class itself.
    Class,
    /// An instance of one most specific class.
    Single(SymbolId),
    /// An instance of several classes, none above another.
    Multiple(Vec<SymbolId>),
}

/// What a symbol is found to be, the classes as a set.
pub enum ClassView {
    Unknown,
    Class,
    Single(SymbolId),
    Multiple(Set<SymbolId>),
}

impl View for ClassInference {
    type V = ClassView;

    open spec fn view(&self) -> ClassView {
        match self {
            ClassInference::Unknown => ClassView::Unknown,
            ClassInference::Class => ClassView::Class,
            ClassInference::Single(c) => ClassView::Single(*c),
            ClassInference::Multiple(cs) => ClassView::Multiple(cs@.to_set()),
        }
    }
}

/// No class is listed twice.
pub open spec fn listed_once(c: ClassInference) -> bool {
    c matches ClassInference::Multiple(cs) ==> cs@.no_duplicates()
}

/// The classes among these that no other of them is below.
pub open spec fn leaves(rs: Seq<RecordView>, scope: Scope, s: Set<SymbolId>) -> Set<SymbolId> {
    Set::new(|c: SymbolId| s.contains(c) && !dominated(rs, scope, s, c))
}

/// Another of the classes is below this one.
pub open spec fn dominated(rs: Seq<RecordView>, scope: Scope, s: Set<SymbolId>, c: SymbolId) -> bool {
    exists|d: SymbolId| #[trigger] s.contains(d) && d != c && reaches(rs, scope, None, d, c)
}

/// The classes of the list that none of the whole is below, each where it
/// stands first.
pub open spec fn leaf_list(rs: Seq<RecordView>, scope: Scope, whole: Set<SymbolId>, s: Seq<SymbolId>) -> Seq<SymbolId>
    decreases s.len(),
{
    if s.len() == 0 {
        Seq::empty()
    } else {
        let d = leaf_list(rs, scope, whole, s.drop_last());
        if dominated(rs, scope, whole, s.last()) || d.contains(s.last()) {
            d
        } else {
            d.push(s.last())
        }
    }
}

/// The most specific among the classes.
pub open spec fn collapsed(rs: Seq<RecordView>, scope: Scope, s: Set<SymbolId>) -> ClassView {
    let l = leaves(rs, scope, s);
    if l.len() == 0 {
        ClassView::Unknown
    } else if l.len() == 1 {
        ClassView::Single(l.choose())
    } else {
        ClassView::Multiple(l)
    }
}

/// The sentence is part of a root that the scope sees and that names the
/// symbol.
pub open spec fn near(f: Facts, sym: SymbolId, scope: Scope, sid: SentenceId) -> bool {
    exists|i: int|
        0 <= i < picked(f.layer.roots, mentioning(f.layer, sym, scope)).len() && within_root(
            f,
            #[trigger] picked(f.layer.roots, mentioning(f.layer, sym, scope))[i],
            sid,
        )
}

/// The sentence is part of the root.
pub open spec fn within_root(f: Facts, root: SentenceId, sid: SentenceId) -> bool {
    tree(f.layer.entries, root).contains(sid)
}

/// The sentence denies the other.
pub open spec fn denies(v: LayerView, not: SentenceId, sid: SentenceId) -> bool {
    body(v, not) matches Some(ps) && ps.len() == 2 && ps[0] == Part::Op(OpKind::Not) && ps[1] == Part::Sub(sid)
}

/// Some sentence near the symbol denies the sentence.
pub open spec fn denied(f: Facts, sym: SymbolId, scope: Scope, sid: SentenceId) -> bool {
    exists|n: SentenceId| #[trigger] near(f, sym, scope, n) && denies(f.layer, n, sid)
}

/// The name of a variable: it ends with two underscores and a number.
pub open spec fn names_variable(s: Seq<char>) -> bool {
    exists|k: int| #[trigger] split_at(s, k)
}

/// Two underscores stand at the place, and a number behind them.
pub open spec fn split_at(s: Seq<char>, k: int) -> bool {
    0 <= k && k + 2 < s.len() && s[k] == '_' && s[k + 1] == '_' && all_digits(s.subrange(k + 2, s.len() as int))
}

/// The symbol is a variable.
pub open spec fn is_variable(v: LayerView, sym: SymbolId) -> bool {
    v.names.dom().contains(sym) && names_variable(v.names[sym])
}

/// The class of a number by how it is written.
pub open spec fn number_class(s: Seq<char>) -> Seq<char> {
    if s.contains('.') {
        "RealNumber"@
    } else if s.contains('/') {
        "RationalNumber"@
    } else {
        "Integer"@
    }
}

/// The sentence says that the symbol is an instance of the class.
pub open spec fn instance_gives(f: Facts, ps: Seq<Part>, sym: SymbolId, c: SymbolId) -> bool {
    ps.len() == 3 && ps[0] == Part::Sym(f.roles.instance) && end_id(ps[1]) == Some(sym) && ps[2] == Part::Sym(c)
}

/// The symbol is an argument, as a variable or as itself.
pub open spec fn shows(ps: Seq<Part>, sym: SymbolId, var: bool) -> bool {
    exists|k: int| 1 <= k < ps.len() && shown(#[trigger] ps[k], sym, var)
}

/// The part is the symbol, as a variable or as itself.
pub open spec fn shown(p: Part, sym: SymbolId, var: bool) -> bool {
    if var {
        p matches Part::Var(id, _) && id == sym
    } else {
        p == Part::Sym(sym)
    }
}

/// The symbol stands at some place that takes exactly this.
pub open spec fn place_takes(f: Facts, scope: Scope, ps: Seq<Part>, sym: SymbolId, d: RelationDomain) -> bool {
    exists|k: int| #[trigger] takes_at(f, scope, ps, sym, d, k)
}

/// The symbol stands at the place, which takes exactly this.
pub open spec fn takes_at(f: Facts, scope: Scope, ps: Seq<Part>, sym: SymbolId, d: RelationDomain, k: int) -> bool {
    1 <= k < ps.len() && end_id(ps[k]) == Some(sym) && (head_of(ps) matches Some(h) && k - 1 < domain_of(
        f,
        scope,
        h,
    ).len() && domain_of(f, scope, h)[k - 1] == d)
}

/// The sentence is an atom of a relation outside the taxonomy with the
/// symbol among its arguments.
pub open spec fn atom_about(f: Facts, ps: Seq<Part>, sym: SymbolId, var: bool) -> bool {
    (head_of(ps) matches Some(h) && tax_role(f.roles, h) is None) && shows(ps, sym, var)
}

/// The sentence equates the symbol with an application of a function with
/// exactly this range.
pub open spec fn equals_range(f: Facts, scope: Scope, side: Part, other: Part, sym: SymbolId, r: RelationRange) -> bool {
    end_id(side) == Some(sym) && (other matches Part::Sub(s) && (body(f.layer, s) matches Some(qs) && (head_of(
        qs,
    ) matches Some(h) && range_of(f, scope, h) == r)))
}

/// The sentence equates the symbol with a number of the class.
pub open spec fn equals_number(f: Facts, side: Part, other: Part, sym: SymbolId, c: SymbolId) -> bool {
    end_id(side) == Some(sym) && (other matches Part::Lit(l) && !l.is_str && name_id(number_class(l.text)) == c
        && f.layer.names.dom().contains(c))
}

/// The sentence equates two things.
pub open spec fn is_equation(ps: Seq<Part>) -> bool {
    ps.len() == 3 && ps[0] == Part::Op(OpKind::Equal)
}

/// The equation gives the symbol the class.
pub open spec fn equation_gives(f: Facts, scope: Scope, ps: Seq<Part>, sym: SymbolId, c: SymbolId) -> bool {
    is_equation(ps) && (equals_range(f, scope, ps[1], ps[2], sym, RelationRange::Range(c)) || equals_range(
        f,
        scope,
        ps[2],
        ps[1],
        sym,
        RelationRange::Range(c),
    ) || equals_number(f, ps[1], ps[2], sym, c) || equals_number(f, ps[2], ps[1], sym, c))
}

/// The symbol can be looked for: a variable, or a symbol with a name.
pub open spec fn findable(v: LayerView, sym: SymbolId) -> bool {
    v.names.dom().contains(sym)
}

/// The sentence gives the symbol the class.
pub open spec fn gives(f: Facts, scope: Scope, sym: SymbolId, sid: SentenceId, c: SymbolId) -> bool {
    body(f.layer, sid) matches Some(ps) && (instance_gives(f, ps, sym, c) || (findable(f.layer, sym) && ((atom_about(
        f,
        ps,
        sym,
        is_variable(f.layer, sym),
    ) && place_takes(f, scope, ps, sym, RelationDomain::Domain(c))) || equation_gives(f, scope, ps, sym, c))))
}

/// The equation gives the symbol subclasses of the class.
pub open spec fn equals_kind(f: Facts, scope: Scope, ps: Seq<Part>, sym: SymbolId, c: SymbolId) -> bool {
    is_equation(ps) && (equals_range(f, scope, ps[1], ps[2], sym, RelationRange::RangeSubclass(c)) || equals_range(
        f,
        scope,
        ps[2],
        ps[1],
        sym,
        RelationRange::RangeSubclass(c),
    ))
}

/// The symbol stands at some place that takes subclasses.
pub open spec fn place_takes_kind(f: Facts, scope: Scope, ps: Seq<Part>, sym: SymbolId) -> bool {
    exists|c: SymbolId| #[trigger] place_takes(f, scope, ps, sym, RelationDomain::DomainSubclass(c))
}

/// The equation gives the symbol subclasses.
pub open spec fn equation_gives_kind(f: Facts, scope: Scope, ps: Seq<Part>, sym: SymbolId) -> bool {
    exists|c: SymbolId| #[trigger] equals_kind(f, scope, ps, sym, c)
}

/// The sentence shows that the symbol is a class itself.
pub open spec fn shows_class(f: Facts, scope: Scope, sym: SymbolId, sid: SentenceId) -> bool {
    body(f.layer, sid) matches Some(ps) && findable(f.layer, sym) && ((atom_about(
        f,
        ps,
        sym,
        is_variable(f.layer, sym),
    ) && place_takes_kind(f, scope, ps, sym)) || equation_gives_kind(f, scope, ps, sym))
}

/// Some sentence near the symbol that is not denied gives it the class.
pub open spec fn told_class(f: Facts, scope: Scope, sym: SymbolId, c: SymbolId) -> bool {
    exists|sid: SentenceId| #[trigger] near(f, sym, scope, sid) && !denied(f, sym, scope, sid) && gives(f, scope, sym, sid, c)
}

/// Some sentence near the symbol that is not denied shows that it is a class.
pub open spec fn told_is_class(f: Facts, scope: Scope, sym: SymbolId) -> bool {
    exists|sid: SentenceId| #[trigger] near(f, sym, scope, sid) && !denied(f, sym, scope, sid) && shows_class(
        f,
        scope,
        sym,
        sid,
    )
}

/// The sentence equates the two symbols.
pub open spec fn equates(ps: Seq<Part>, a: SymbolId, b: SymbolId) -> bool {
    is_equation(ps) && a != b && ((end_id(ps[1]) == Some(a) && end_id(ps[2]) == Some(b)) || (end_id(ps[2]) == Some(a)
        && end_id(ps[1]) == Some(b)))
}

/// Some sentence near the first symbol that is not denied equates the two.
pub open spec fn equal_to(f: Facts, scope: Scope, a: SymbolId, b: SymbolId) -> bool {
    exists|sid: SentenceId| #[trigger] near(f, a, scope, sid) && !denied(f, a, scope, sid) && (body(
        f.layer,
        sid,
    ) matches Some(ps) && equates(ps, a, b))
}

/// The symbol that the argument names, zero if it names none.
pub open spec fn named_at(es: Seq<Entry>, k: int) -> Seq<SymbolId> {
    Seq::new(
        es.len(),
        |i: int|
            if k < es[i].parts.len() && end_id(es[i].parts[k]) is Some {
                end_id(es[i].parts[k])->0
            } else {
                0
            },
    )
}

/// The symbols and what they are equal to.
pub struct EqualGraph<'a> {
    pub layer: &'a SemanticLayer,
    pub scope: Scope,
}

/// Each symbol of the path is equal to the next.
pub open spec fn equal_path(f: Facts, scope: Scope, p: Seq<SymbolId>) -> bool {
    p.len() > 0 && forall|i: int, j: int| 0 <= i < p.len() && j == i + 1 && j < p.len() ==> equal_to(
        f,
        scope,
        #[trigger] p[i],
        #[trigger] p[j],
    )
}

/// The path of equal symbols leads from the one to the other.
pub open spec fn equal_between(f: Facts, scope: Scope, a: SymbolId, b: SymbolId, p: Seq<SymbolId>) -> bool {
    equal_path(f, scope, p) && p[0] == a && p.last() == b
}

/// The symbols are the same or equal by any number of equations.
pub open spec fn same_thing(f: Facts, scope: Scope, a: SymbolId, b: SymbolId) -> bool {
    exists|p: Seq<SymbolId>| equal_between(f, scope, a, b, p)
}

fn target_id(el: &Element) -> (r: Option<SymbolId>)
    ensures
        r == end_id(el@),
{
    match el {
        Element::Symbol(s) => Some(s.id()),
        Element::Variable { id, is_row, .. } => if *is_row {
            None
        } else {
            Some(*id)
        },
        _ => None,
    }
}

fn numeric_literal_class(n: &str) -> (r: &'static str)
    ensures
        r@ == number_class(n@),
{
    let chars = chars_of(n);
    let mut slash = false;
    let mut i: usize = 0;
    while i < chars.len()
        invariant
            i <= chars@.len(),
            chars@ == n@,
            forall|j: int| 0 <= j < i ==> chars@[j] != '.',
            slash == exists|j: int| 0 <= j < i && chars@[j] == '/',
        decreases chars@.len() - i,
    {
        if chars[i] == '.' {
            assert(n@.contains('.'));
            return "RealNumber";
        }
        if chars[i] == '/' {
            slash = true;
        }
        i += 1;
    }
    assert(!n@.contains('.'));
    if slash {
        "RationalNumber"
    } else {
        "Integer"
    }
}

/// The name is that of a variable.
pub fn is_variable_name(name: &str) -> (r: bool)
    ensures
        r == names_variable(name@),
{
    let chars = chars_of(name);
    let n = chars.len();
    let mut k: usize = n;
    while k > 0 && '0' <= chars[k - 1] && chars[k - 1] <= '9'
        invariant
            k <= n,
            n == chars@.len(),
            forall|j: int| k <= j < n ==> is_digit(#[trigger] chars@[j]),
        decreases k,
    {
        k -= 1;
    }
    proof {
        let s = name@;
        if names_variable(s) {
            let m = choose|m: int| #[trigger] split_at(s, m);
            let d = s.subrange(m + 2, s.len() as int);
            assert(k <= m + 2) by {
                if k > m + 2 {
                    assert(is_digit(d[k - 1 - (m + 2)]));
                }
            }
            assert(k >= m + 2) by {
                if k < m + 2 {
                    assert(is_digit(chars@[m + 1]));
                }
            }
        }
    }
    if k == n || k < 2 {
        return false;
    }
    let r = chars[k - 1] == '_' && chars[k - 2] == '_';
    proof {
        if r {
            let d = name@.subrange(k as int, name@.len() as int);
            assert(all_digits(d)) by {
                assert forall|i: int| 0 <= i < d.len() implies is_digit(#[trigger] d[i]) by {
                    assert(is_digit(chars@[k + i]));
                }
            }
            assert(split_at(name@, k - 2));
        }
    }
    r
}

/// The most specific among the classes.
pub fn collapse_classes(layer: &SemanticLayer, classes: &Vec<SymbolId>, scope: Scope) -> (r: ClassInference)
    ensures
        r@ == collapsed(layer@.edges, scope, classes@.to_set()),
        r matches ClassInference::Multiple(cs) ==> cs@ == leaf_list(layer@.edges, scope, classes@.to_set(), classes@)
            && cs@.no_duplicates(),
{
    let ghost s = classes@.to_set();
    let ghost rs = layer@.edges;
    let mut out: Vec<SymbolId> = Vec::new();
    let mut i: usize = 0;
    assert(classes@.take(0) =~= Seq::empty());
    while i < classes.len()
        invariant
            out@ == leaf_list(rs, scope, s, classes@.take(i as int)),
            s == classes@.to_set(),
            rs == layer@.edges,
            i <= classes@.len(),
            out@.no_duplicates(),
            forall|c: SymbolId| #[trigger] out@.contains(c) <==> classes@.take(i as int).contains(c) && !dominated(
                rs,
                scope,
                s,
                c,
            ),
        decreases classes@.len() - i,
    {
        let c = classes[i];
        let mut below = false;
        let mut k: usize = 0;
        while k < classes.len() && !below
            invariant
                s == classes@.to_set(),
                rs == layer@.edges,
                k <= classes@.len(),
                below ==> dominated(rs, scope, s, c),
                !below ==> forall|j: int|
                    0 <= j < k ==> !((#[trigger] classes@[j]) != c && reaches(rs, scope, None, classes@[j], c)),
            decreases classes@.len() - k,
        {
            let d = classes[k];
            if d != c && layer.has_ancestor_scoped(d, c, scope) {
                assert(classes@.contains(d));
                assert(s.contains(d));
                below = true;
            }
            k += 1;
        }
        proof {
            if !below && dominated(rs, scope, s, c) {
                let d = choose|d: SymbolId| #[trigger] s.contains(d) && d != c && reaches(rs, scope, None, d, c);
                let j = choose|j: int| 0 <= j < classes@.len() && classes@[j] == d;
                assert(classes@[j] == d);
            }
            assert(classes@.take(i + 1) =~= classes@.take(i as int).push(c));
            assert(classes@.take(i + 1).drop_last() =~= classes@.take(i as int));
            lemma_push_contains(classes@.take(i as int), c);
            lemma_push_contains(out@, c);
        }
        if !below && !holds_id(&out, c) {
            out.push(c);
        }
        i += 1;
    }
    proof {
        assert(classes@.take(i as int) =~= classes@);
        assert(out@.to_set() =~= leaves(rs, scope, s));
        out@.unique_seq_to_set();
    }
    if out.len() == 0 {
        ClassInference::Unknown
    } else if out.len() == 1 {
        proof {
            let l = leaves(rs, scope, s);
            assert(out@[0] == out@[0]);
            assert(l.contains(out@[0]));
            let x = l.choose();
            assert(l.contains(x));
            let j = choose|j: int| 0 <= j < out@.len() && out@[j] == x;
            assert(x == out@[0]);
        }
        ClassInference::Single(out[0])
    } else {
        ClassInference::Multiple(out)
    }
}

impl SemanticLayer {
    /// The class of a number by how it is written, if it is known.
    pub fn number_class_id(&self, n: &str) -> (r: Option<SymbolId>)
        requires
            self.wf(),
        ensures
            r == (if self@.layer.names.dom().contains(name_id(number_class(n@))) {
                Some(name_id(number_class(n@)))
            } else {
                None
            }),
    {
        self.syntactic.sym_id(numeric_literal_class(n))
    }

    /// The symbol is a variable.
    pub fn is_variable_id(&self, sym: SymbolId) -> (r: bool)
        requires
            self.wf(),
        ensures
            r == is_variable(self@.layer, sym),
    {
        match self.syntactic.sym_name(sym) {
            None => false,
            Some(s) => is_variable_name(s.name()),
        }
    }

    /// The sentences near the symbol.
    fn nearby(&self, sym: SymbolId, scope: Scope) -> (r: Vec<SentenceId>)
        requires
            self.wf(),
        ensures
            forall|sid: SentenceId| #[trigger] r@.contains(sid) <==> near(self@, sym, scope, sid),
    {
        let roots = self.syntactic.roots_with(sym, scope);
        let ghost ps = picked(self@.layer.roots, mentioning(self@.layer, sym, scope));
        let mut out: Vec<SentenceId> = Vec::new();
        let mut i: usize = 0;
        while i < roots.len()
            invariant
                self.wf(),
                ps == picked(self@.layer.roots, mentioning(self@.layer, sym, scope)),
                roots@ == ps,
                i <= roots@.len(),
                forall|sid: SentenceId| #[trigger] out@.contains(sid) <==> exists|j: int|
                    0 <= j < i && within_root(self@, #[trigger] ps[j], sid),
            decreases roots@.len() - i,
        {
            let mut part = self.syntactic.tree_sids(roots[i]);
            let ghost before = out@;
            let ghost pv = part@;
            out.append(&mut part);
            assert forall|sid: SentenceId| #[trigger] out@.contains(sid) <==> exists|j: int|
                0 <= j < i + 1 && within_root(self@, #[trigger] ps[j], sid) by {
                if out@.contains(sid) {
                    let k = choose|k: int| 0 <= k < out@.len() && out@[k] == sid;
                    if k < before.len() {
                        assert(before[k] == sid);
                        assert(before.contains(sid));
                    } else {
                        assert(pv[k - before.len()] == sid);
                        assert(within_root(self@, ps[i as int], sid));
                    }
                }
                if exists|j: int| 0 <= j < i + 1 && within_root(self@, #[trigger] ps[j], sid) {
                    let j = choose|j: int| 0 <= j < i + 1 && within_root(self@, #[trigger] ps[j], sid);
                    if j < i {
                        assert(before.contains(sid));
                        let k = choose|k: int| 0 <= k < before.len() && before[k] == sid;
                        assert(out@[k] == sid);
                    } else {
                        let k = choose|k: int| 0 <= k < pv.len() && pv[k] == sid;
                        assert(out@[before.len() + k] == sid);
                    }
                }
            }
            i += 1;
        }
        out
    }

    fn denial_of(&self, sid: SentenceId) -> (r: Option<SentenceId>)
        requires
            self.wf(),
        ensures
            forall|x: SentenceId| #[trigger] denies(self@.layer, sid, x) <==> r == Some(x),
    {
        let s = match self.syntactic.sentence(sid) {
            None => return None,
            Some(s) => s,
        };
        if s.elements.len() != 2 {
            return None;
        }
        assert(s@[0] == s.elements@[0]@);
        assert(s@[1] == s.elements@[1]@);
        match (&s.elements[0], &s.elements[1]) {
            (Element::Op(op), Element::Sub(x)) => if *op == OpKind::Not {
                Some(*x)
            } else {
                None
            },
            _ => None,
        }
    }

    /// The sentences near the symbol that are not denied there.
    fn nearby_positive(&self, sym: SymbolId, scope: Scope) -> (r: Vec<SentenceId>)
        requires
            self.wf(),
        ensures
            forall|sid: SentenceId| #[trigger]
                r@.contains(sid) <==> near(self@, sym, scope, sid) && !denied(self@, sym, scope, sid),
    {
        let all = self.nearby(sym, scope);
        let mut negated: Vec<SentenceId> = Vec::new();
        let mut i: usize = 0;
        while i < all.len()
            invariant
                self.wf(),
                i <= all@.len(),
                forall|sid: SentenceId| #[trigger] negated@.contains(sid) <==> exists|j: int|
                    0 <= j < i && denies(self@.layer, #[trigger] all@[j], sid),
            decreases all@.len() - i,
        {
            let ghost before = negated@;
            match self.denial_of(all[i]) {
                None => {
                    assert(forall|x: SentenceId| !#[trigger] denies(self@.layer, all@[i as int], x));
                },
                Some(x) => {
                    proof {
                        lemma_push_contains(negated@, x);
                        assert(denies(self@.layer, all@[i as int], x));
                    }
                    negated.push(x);
                },
            }
            assert forall|sid: SentenceId| #[trigger] negated@.contains(sid) <==> exists|j: int|
                0 <= j < i + 1 && denies(self@.layer, #[trigger] all@[j], sid) by {
                if negated@.contains(sid) && before.contains(sid) {
                    let j = choose|j: int| 0 <= j < i && denies(self@.layer, #[trigger] all@[j], sid);
                    assert(denies(self@.layer, all@[j], sid));
                }
                if exists|j: int| 0 <= j < i + 1 && denies(self@.layer, #[trigger] all@[j], sid) {
                    let j = choose|j: int| 0 <= j < i + 1 && denies(self@.layer, #[trigger] all@[j], sid);
                    if j < i {
                        assert(before.contains(sid));
                    }
                }
            }
            i += 1;
        }
        assert forall|sid: SentenceId| #[trigger] negated@.contains(sid) <==> denied(self@, sym, scope, sid) by {
            if negated@.contains(sid) {
                let j = choose|j: int| 0 <= j < all@.len() && denies(self@.layer, #[trigger] all@[j], sid);
                assert(all@.contains(all@[j]));
                assert(near(self@, sym, scope, all@[j]));
            }
            if denied(self@, sym, scope, sid) {
                let n = choose|n: SentenceId| #[trigger] near(self@, sym, scope, n) && denies(self@.layer, n, sid);
                assert(all@.contains(n));
                let j = choose|j: int| 0 <= j < all@.len() && all@[j] == n;
                assert(denies(self@.layer, all@[j], sid));
            }
        }
        let mut out: Vec<SentenceId> = Vec::new();
        let mut i: usize = 0;
        while i < all.len()
            invariant
                i <= all@.len(),
                forall|sid: SentenceId| #[trigger]
                    out@.contains(sid) <==> all@.take(i as int).contains(sid) && !negated@.contains(sid),
            decreases all@.len() - i,
        {
            proof {
                assert(all@.take(i + 1) =~= all@.take(i as int).push(all@[i as int]));
                lemma_push_contains(all@.take(i as int), all@[i as int]);
                lemma_push_contains(out@, all@[i as int]);
            }
            if !holds_id(&negated, all[i]) {
                out.push(all[i]);
            }
            i += 1;
        }
        assert(all@.take(i as int) =~= all@);
        out
    }
}

impl<'a> Graph for EqualGraph<'a> {
    open spec fn links(&self, a: u64, b: u64, label: Option<u64>) -> bool {
        label is None && equal_to(self.layer@, self.scope, a, b)
    }

    open spec fn ends(&self) -> Set<u64> {
        named_at(self.layer@.layer.entries, 1).to_set().union(named_at(self.layer@.layer.entries, 2).to_set())
    }

    open spec fn sound(&self) -> bool {
        self.layer.wf()
    }

    proof fn lemma_ends(&self) {
        let f = self.layer@;
        let es = f.layer.entries;
        vstd::seq_lib::seq_to_set_is_finite(named_at(es, 1));
        vstd::seq_lib::seq_to_set_is_finite(named_at(es, 2));
        assert forall|a: u64, b: u64, label: Option<u64>| #[trigger] self.links(a, b, label) implies self.ends().contains(
            b,
        ) by {
            let sid = choose|sid: SentenceId| #[trigger] near(f, a, self.scope, sid) && !denied(f, a, self.scope, sid) && (
            body(f.layer, sid) matches Some(ps) && equates(ps, a, b));
            let k = crate::store::place(es, sid);
            assert(crate::store::entry_at(es, sid, k));
            assert(named_at(es, 1)[k] == b || named_at(es, 2)[k] == b);
        }
    }

    fn next(&self, a: u64) -> (r: Vec<(u64, Option<u64>)>) {
        let sids = self.layer.nearby_positive(a, self.scope);
        let mut out: Vec<(u64, Option<u64>)> = Vec::new();
        let mut i: usize = 0;
        while i < sids.len()
            invariant
                self.sound(),
                i <= sids@.len(),
                forall|sid: SentenceId| #[trigger]
                    sids@.contains(sid) <==> near(self.layer@, a, self.scope, sid) && !denied(
                        self.layer@,
                        a,
                        self.scope,
                        sid,
                    ),
                forall|k: int| 0 <= k < out@.len() ==> self.links(a, (#[trigger] out@[k]).0, out@[k].1),
                forall|j: int, b: u64|
                    0 <= j < i && (body(self.layer@.layer, #[trigger] sids@[j]) matches Some(ps) && equates(ps, a, b))
                        ==> #[trigger] leads_to(out@, b),
            decreases sids@.len() - i,
        {
            let ghost before = out@;
            match self.layer.syntactic.sentence(sids[i]) {
                None => {},
                Some(s) => {
                    match equal_other(s, a) {
                        None => {},
                        Some(b) => {
                            proof {
                                assert(sids@.contains(sids@[i as int]));
                                assert(near(self.layer@, a, self.scope, sids@[i as int]));
                                assert(equates(s@, a, b));
                            }
                            out.push((b, None));
                            assert(out@[before.len() as int].0 == b);
                            assert(leads_to(out@, b));
                        },
                    }
                },
            }
            assert forall|j: int, b: u64|
                0 <= j < i + 1 && (body(self.layer@.layer, #[trigger] sids@[j]) matches Some(ps) && equates(ps, a, b))
                    implies #[trigger] leads_to(out@, b) by {
                if j < i {
                    assert(leads_to(before, b));
                    let k = choose|k: int| 0 <= k < before.len() && (#[trigger] before[k]).0 == b;
                    assert(out@[k] == before[k]);
                }
            }
            i += 1;
        }
        assert forall|b: u64, label: Option<u64>| #[trigger] self.links(a, b, label) implies exists|k: int|
            0 <= k < out@.len() && (#[trigger] out@[k]).0 == b by {
            let f = self.layer@;
            let sid = choose|sid: SentenceId| #[trigger] near(f, a, self.scope, sid) && !denied(f, a, self.scope, sid) && (
            body(f.layer, sid) matches Some(ps) && equates(ps, a, b));
            assert(sids@.contains(sid));
            let j = choose|j: int| 0 <= j < sids@.len() && sids@[j] == sid;
            assert(leads_to(out@, b));
        }
        out
    }
}

/// Reaching a symbol over equations is being the same thing.
proof fn lemma_component<'a>(g: &EqualGraph<'a>, a: SymbolId, b: SymbolId)
    ensures
        crate::walk::reachable(g, a, b) == same_thing(g.layer@, g.scope, a, b),
{
    let f = g.layer@;
    assert forall|x: u64, y: u64| #[trigger] crate::walk::linked(g, x, y) == equal_to(f, g.scope, x, y) by {
        if equal_to(f, g.scope, x, y) {
            assert(g.links(x, y, None));
        }
    }
    if crate::walk::reachable(g, a, b) {
        let p = choose|p: Seq<u64>| crate::walk::path_between(g, a, b, p);
        assert forall|i: int, j: int| 0 <= i < p.len() && j == i + 1 && j < p.len() implies equal_to(
            f,
            g.scope,
            #[trigger] p[i],
            #[trigger] p[j],
        ) by {
            assert(crate::walk::linked(g, p[i], p[j]));
        }
        assert(equal_between(f, g.scope, a, b, p));
    }
    if same_thing(f, g.scope, a, b) {
        let p = choose|p: Seq<SymbolId>| equal_between(f, g.scope, a, b, p);
        assert forall|i: int, j: int| 0 <= i < p.len() && j == i + 1 && j < p.len() implies crate::walk::linked(
            g,
            #[trigger] p[i],
            #[trigger] p[j],
        ) by {
            assert(equal_to(f, g.scope, p[i], p[j]));
        }
        assert(crate::walk::path_between(g, a, b, p));
    }
}

/// The list leads to the symbol.
spec fn leads_to(out: Seq<(u64, Option<u64>)>, b: u64) -> bool {
    exists|k: int| 0 <= k < out.len() && (#[trigger] out[k]).0 == b
}

/// What the sentence equates the symbol with.
fn equal_other(s: &Sentence, a: SymbolId) -> (r: Option<SymbolId>)
    ensures
        forall|b: SymbolId| #[trigger] equates(s@, a, b) <==> r == Some(b),
{
    if s.elements.len() != 3 {
        return None;
    }
    assert(s@[0] == s.elements@[0]@);
    assert(s@[1] == s.elements@[1]@);
    assert(s@[2] == s.elements@[2]@);
    match &s.elements[0] {
        Element::Op(op) => {
            if *op != OpKind::Equal {
                return None;
            }
        },
        _ => return None,
    }
    match (target_id(&s.elements[1]), target_id(&s.elements[2])) {
        (Some(l), Some(r)) => {
            if l == r {
                None
            } else if l == a {
                Some(r)
            } else if r == a {
                Some(l)
            } else {
                None
            }
        },
        _ => None,
    }
}

impl SemanticLayer {
    /// The places at which the symbol stands in the atom: what they take, and
    /// whether one takes subclasses.
    fn place_evidence(&self, head: SymbolId, s: &Sentence, sym: SymbolId, scope: Scope, out: &mut Vec<SymbolId>) -> (kind: bool)
        requires
            self.wf(),
            head_of(s@) == Some(head),
        ensures
            forall|c: SymbolId| #[trigger] final(out)@.contains(c) <==> old(out)@.contains(c) || place_takes(
                self@,
                scope,
                s@,
                sym,
                RelationDomain::Domain(c),
            ),
            kind == place_takes_kind(self@, scope, s@, sym),
    {
        let ghost start = out@;
        let ghost f = self@;
        let domain = self.domain_scoped(head, scope);
        let mut kind = false;
        let mut k: usize = 1;
        while k < s.elements.len()
            invariant
                f == self@,
                head_of(s@) == Some(head),
                domain@ == domain_of(f, scope, head),
                s@.len() == s.elements@.len(),
                1 <= k <= s@.len(),
                forall|c: SymbolId| #[trigger] out@.contains(c) <==> start.contains(c) || exists|j: int|
                    j < k && #[trigger] takes_at(f, scope, s@, sym, RelationDomain::Domain(c), j),
                kind <==> exists|c: SymbolId, j: int|
                    j < k && #[trigger] takes_at(f, scope, s@, sym, RelationDomain::DomainSubclass(c), j),
            decreases s.elements@.len() - k,
        {
            assert(s@[k as int] == s.elements@[k as int]@);
            let ghost before = out@;
            let ghost kind_before = kind;
            let here = match target_id(&s.elements[k]) {
                None => RelationDomain::Unknown,
                Some(t) => if t == sym && k - 1 < domain.len() {
                    domain[k - 1]
                } else {
                    RelationDomain::Unknown
                },
            };
            match here {
                RelationDomain::Unknown => {
                    assert(forall|c: SymbolId| !#[trigger] takes_at(f, scope, s@, sym, RelationDomain::Domain(c), k as int));
                },
                RelationDomain::Domain(c) => {
                    proof {
                        lemma_push_contains(out@, c);
                        assert(takes_at(f, scope, s@, sym, RelationDomain::Domain(c), k as int));
                    }
                    out.push(c);
                },
                RelationDomain::DomainSubclass(c) => {
                    assert(takes_at(f, scope, s@, sym, RelationDomain::DomainSubclass(c), k as int));
                    kind = true;
                },
            }
            assert forall|c: SymbolId| #[trigger] out@.contains(c) <==> start.contains(c) || exists|j: int|
                j < k + 1 && #[trigger] takes_at(f, scope, s@, sym, RelationDomain::Domain(c), j) by {
                if out@.contains(c) && before.contains(c) && !start.contains(c) {
                    let j = choose|j: int| j < k && #[trigger] takes_at(f, scope, s@, sym, RelationDomain::Domain(c), j);
                    assert(takes_at(f, scope, s@, sym, RelationDomain::Domain(c), j));
                }
                if exists|j: int| j < k + 1 && #[trigger] takes_at(f, scope, s@, sym, RelationDomain::Domain(c), j) {
                    let j = choose|j: int|
                        j < k + 1 && #[trigger] takes_at(f, scope, s@, sym, RelationDomain::Domain(c), j);
                    if j < k {
                        assert(before.contains(c));
                    }
                }
            }
            assert(kind <==> exists|c: SymbolId, j: int|
                j < k + 1 && #[trigger] takes_at(f, scope, s@, sym, RelationDomain::DomainSubclass(c), j)) by {
                if kind_before {
                    let (c, j) = choose|c: SymbolId, j: int|
                        j < k && #[trigger] takes_at(f, scope, s@, sym, RelationDomain::DomainSubclass(c), j);
                    assert(takes_at(f, scope, s@, sym, RelationDomain::DomainSubclass(c), j));
                }
                if exists|c: SymbolId, j: int|
                    j < k + 1 && #[trigger] takes_at(f, scope, s@, sym, RelationDomain::DomainSubclass(c), j) {
                    let (c, j) = choose|c: SymbolId, j: int|
                        j < k + 1 && #[trigger] takes_at(f, scope, s@, sym, RelationDomain::DomainSubclass(c), j);
                    if j == k {
                        assert(here == RelationDomain::DomainSubclass(c));
                    } else {
                        assert(kind_before);
                    }
                }
            }
            k += 1;
        }
        assert forall|c: SymbolId| #[trigger] out@.contains(c) <==> start.contains(c) || place_takes(
            f,
            scope,
            s@,
            sym,
            RelationDomain::Domain(c),
        ) by {
            if place_takes(f, scope, s@, sym, RelationDomain::Domain(c)) {
                let j = choose|j: int| #[trigger] takes_at(f, scope, s@, sym, RelationDomain::Domain(c), j);
                assert(takes_at(f, scope, s@, sym, RelationDomain::Domain(c), j) && j < k);
            }
        }
        assert(kind == place_takes_kind(f, scope, s@, sym)) by {
            if place_takes_kind(f, scope, s@, sym) {
                let c = choose|c: SymbolId| #[trigger]
                    place_takes(f, scope, s@, sym, RelationDomain::DomainSubclass(c));
                let j = choose|j: int| #[trigger] takes_at(f, scope, s@, sym, RelationDomain::DomainSubclass(c), j);
                assert(takes_at(f, scope, s@, sym, RelationDomain::DomainSubclass(c), j) && j < k);
            }
            if kind {
                let (c, j) = choose|c: SymbolId, j: int|
                    j < k && #[trigger] takes_at(f, scope, s@, sym, RelationDomain::DomainSubclass(c), j);
                assert(place_takes(f, scope, s@, sym, RelationDomain::DomainSubclass(c)));
            }
        }
        kind
    }

    /// What the other side of an equation gives: a class, or that the side is
    /// a class itself.
    fn side_evidence(&self, side: &Element, other: &Element, sym: SymbolId, scope: Scope) -> (r: (Option<SymbolId>, bool))
        requires
            self.wf(),
        ensures
            forall|c: SymbolId|
                (#[trigger] equals_range(self@, scope, side@, other@, sym, RelationRange::Range(c)) || equals_number(
                    self@,
                    side@,
                    other@,
                    sym,
                    c,
                )) <==> r.0 == Some(c),
            r.1 <==> exists|c: SymbolId|
                equals_range(self@, scope, side@, other@, sym, #[trigger] kind_range(c)),
    {
        match target_id(side) {
            None => return (None, false),
            Some(t) => {
                if t != sym {
                    return (None, false);
                }
            },
        }
        match other {
            Element::Sub(fsid) => {
                let s = match self.syntactic.sentence(*fsid) {
                    None => return (None, false),
                    Some(s) => s,
                };
                match s.head_symbol() {
                    None => (None, false),
                    Some(h) => match self.range_scoped(h, scope) {
                        RelationRange::Range(c) => (Some(c), false),
                        RelationRange::RangeSubclass(c) => {
                            assert(equals_range(self@, scope, side@, other@, sym, kind_range(c)));
                            (None, true)
                        },
                        RelationRange::Unknown => (None, false),
                    },
                }
            },
            Element::Literal(Literal::Number(n)) => (self.number_class_id(n.as_str()), false),
            _ => (None, false),
        }
    }

    /// What one sentence says of the symbol: classes, and whether it is a class
    /// itself.
    fn sentence_evidence(&self, sym: SymbolId, sid: SentenceId, scope: Scope, out: &mut Vec<SymbolId>) -> (kind: bool)
        requires
            self.wf(),
        ensures
            forall|c: SymbolId| #[trigger] final(out)@.contains(c) <==> old(out)@.contains(c) || gives(
                self@,
                scope,
                sym,
                sid,
                c,
            ),
            kind == shows_class(self@, scope, sym, sid),
    {
        let ghost f = self@;
        let ghost start = out@;
        let s = match self.syntactic.sentence(sid) {
            None => return false,
            Some(s) => s,
        };
        let els = &s.elements;
        assert(s@.len() == els@.len());
        assert(forall|i: int| 0 <= i < els@.len() ==> #[trigger] s@[i] == els@[i]@);
        // an instance atom
        match s.head_symbol() {
            None => {},
            Some(h) => {
                if h == self.roles.instance && els.len() == 3 {
                    match (target_id(&els[1]), &els[2]) {
                        (Some(t), Element::Symbol(c)) => {
                            if t == sym {
                                proof {
                                    lemma_push_contains(out@, c.id_spec());
                                }
                                out.push(c.id());
                            }
                        },
                        _ => {},
                    }
                }
            },
        }
        assert forall|c: SymbolId| #[trigger] out@.contains(c) <==> start.contains(c) || instance_gives(f, s@, sym, c) by {
        }
        if self.syntactic.sym_name(sym).is_none() {
            return false;
        }
        let is_var = self.is_variable_id(sym);
        let ghost mid = out@;
        let mut kind = false;
        // an atom of another relation
        match s.head_symbol() {
            None => {},
            Some(h) => {
                if self.roles.tax_role_of(h).is_none() && shows_arg(s, sym, is_var) {
                    kind = self.place_evidence(h, s, sym, scope, out);
                }
            },
        }
        let ghost late = out@;
        assert forall|c: SymbolId| #[trigger] late.contains(c) <==> mid.contains(c) || (atom_about(f, s@, sym, is_var)
            && place_takes(f, scope, s@, sym, RelationDomain::Domain(c))) by {
        }
        // an equation
        let equation = match s.op() {
            Some(op) => op == OpKind::Equal && els.len() == 3,
            None => false,
        };
        assert(equation == is_equation(s@));
        if equation {
            let (a, ka) = self.side_evidence(&els[1], &els[2], sym, scope);
            let (b, kb) = self.side_evidence(&els[2], &els[1], sym, scope);
            match a {
                None => {},
                Some(c) => {
                    proof {
                        lemma_push_contains(out@, c);
                    }
                    out.push(c);
                },
            }
            match b {
                None => {},
                Some(c) => {
                    proof {
                        lemma_push_contains(out@, c);
                    }
                    out.push(c);
                },
            }
            let ghost kind_before = kind;
            if ka || kb {
                kind = true;
            }
            proof {
                assert forall|c: SymbolId| #[trigger] out@.contains(c) <==> late.contains(c) || equation_gives(
                    f,
                    scope,
                    s@,
                    sym,
                    c,
                ) by {
                    assert((equals_range(f, scope, s@[1], s@[2], sym, RelationRange::Range(c)) || equals_number(
                        f,
                        s@[1],
                        s@[2],
                        sym,
                        c,
                    )) <==> a == Some(c));
                    assert((equals_range(f, scope, s@[2], s@[1], sym, RelationRange::Range(c)) || equals_number(
                        f,
                        s@[2],
                        s@[1],
                        sym,
                        c,
                    )) <==> b == Some(c));
                }
                assert((ka || kb) == equation_gives_kind(f, scope, s@, sym)) by {
                    if ka {
                        let c = choose|c: SymbolId|
                            equals_range(f, scope, s@[1], s@[2], sym, #[trigger] kind_range(c));
                        assert(equals_kind(f, scope, s@, sym, c));
                    }
                    if kb {
                        let c = choose|c: SymbolId|
                            equals_range(f, scope, s@[2], s@[1], sym, #[trigger] kind_range(c));
                        assert(equals_kind(f, scope, s@, sym, c));
                    }
                    if equation_gives_kind(f, scope, s@, sym) {
                        let c = choose|c: SymbolId| #[trigger] equals_kind(f, scope, s@, sym, c);
                        assert(equals_range(f, scope, s@[1], s@[2], sym, kind_range(c)) || equals_range(
                            f,
                            scope,
                            s@[2],
                            s@[1],
                            sym,
                            kind_range(c),
                        ));
                    }
                }
            }
        } else {
            assert forall|c: SymbolId| !equals_kind(f, scope, s@, sym, c) by {
            }
        }
        kind
    }

    /// What the sentences say of the symbol: classes, and whether it is a class
    /// itself.
    fn collect_direct_classes(&self, sym: SymbolId, scope: Scope, out: &mut Vec<SymbolId>) -> (kind: bool)
        requires
            self.wf(),
        ensures
            forall|c: SymbolId| #[trigger] final(out)@.contains(c) <==> old(out)@.contains(c) || told_class(
                self@,
                scope,
                sym,
                c,
            ),
            kind == told_is_class(self@, scope, sym),
    {
        let ghost f = self@;
        let ghost start = out@;
        let sids = self.nearby_positive(sym, scope);
        let mut kind = false;
        let mut i: usize = 0;
        while i < sids.len()
            invariant
                self.wf(),
                f == self@,
                i <= sids@.len(),
                forall|c: SymbolId| #[trigger] out@.contains(c) <==> start.contains(c) || exists|j: int|
                    0 <= j < i && gives(f, scope, sym, #[trigger] sids@[j], c),
                kind <==> exists|j: int| 0 <= j < i && shows_class(f, scope, sym, #[trigger] sids@[j]),
            decreases sids@.len() - i,
        {
            let ghost before = out@;
            let ghost kind_before = kind;
            let k = self.sentence_evidence(sym, sids[i], scope, out);
            if k {
                kind = true;
            }
            assert forall|c: SymbolId| #[trigger] out@.contains(c) <==> start.contains(c) || exists|j: int|
                0 <= j < i + 1 && gives(f, scope, sym, #[trigger] sids@[j], c) by {
                if out@.contains(c) && before.contains(c) && !start.contains(c) {
                    let j = choose|j: int| 0 <= j < i && gives(f, scope, sym, #[trigger] sids@[j], c);
                    assert(gives(f, scope, sym, sids@[j], c));
                }
                if out@.contains(c) && !before.contains(c) {
                    assert(gives(f, scope, sym, sids@[i as int], c));
                }
                if exists|j: int| 0 <= j < i + 1 && gives(f, scope, sym, #[trigger] sids@[j], c) {
                    let j = choose|j: int| 0 <= j < i + 1 && gives(f, scope, sym, #[trigger] sids@[j], c);
                    if j < i {
                        assert(before.contains(c));
                    }
                }
            }
            i += 1;
        }
        assert forall|c: SymbolId| #[trigger] out@.contains(c) <==> start.contains(c) || told_class(f, scope, sym, c) by {
            if out@.contains(c) && !start.contains(c) {
                let j = choose|j: int| 0 <= j < sids@.len() && gives(f, scope, sym, #[trigger] sids@[j], c);
                assert(sids@.contains(sids@[j]));
                assert(near(f, sym, scope, sids@[j]));
            }
            if told_class(f, scope, sym, c) {
                let sid = choose|sid: SentenceId| #[trigger] near(f, sym, scope, sid) && !denied(f, sym, scope, sid)
                    && gives(f, scope, sym, sid, c);
                assert(sids@.contains(sid));
                let j = choose|j: int| 0 <= j < sids@.len() && sids@[j] == sid;
                assert(gives(f, scope, sym, sids@[j], c));
            }
        }
        assert(kind == told_is_class(f, scope, sym)) by {
            if kind {
                let j = choose|j: int| 0 <= j < sids@.len() && shows_class(f, scope, sym, #[trigger] sids@[j]);
                assert(sids@.contains(sids@[j]));
                assert(near(f, sym, scope, sids@[j]));
            }
            if told_is_class(f, scope, sym) {
                let sid = choose|sid: SentenceId| #[trigger] near(f, sym, scope, sid) && !denied(f, sym, scope, sid)
                    && shows_class(f, scope, sym, sid);
                assert(sids@.contains(sid));
                let j = choose|j: int| 0 <= j < sids@.len() && sids@[j] == sid;
                assert(shows_class(f, scope, sym, sids@[j]));
            }
        }
        kind
    }
}

/// A range of subclasses of the class.
pub open spec fn kind_range(c: SymbolId) -> RelationRange {
    RelationRange::RangeSubclass(c)
}

fn shows_arg(s: &Sentence, sym: SymbolId, var: bool) -> (r: bool)
    ensures
        r == shows(s@, sym, var),
{
    let mut k: usize = 1;
    while k < s.elements.len()
        invariant
            1 <= k,
            s@.len() == s.elements@.len(),
            forall|j: int| 1 <= j < k && j < s@.len() ==> !shown(#[trigger] s@[j], sym, var),
        decreases s.elements@.len() - k,
    {
        assert(s@[k as int] == s.elements@[k as int]@);
        let hit = match &s.elements[k] {
            Element::Symbol(x) => !var && x.id() == sym,
            Element::Variable { id, .. } => var && *id == sym,
            _ => false,
        };
        if hit {
            assert(shown(s@[k as int], sym, var));
            return true;
        }
        k += 1;
    }
    false
}

/// What is said of the symbol, or the taxonomy, gives it the class.
pub open spec fn member_gives(f: Facts, scope: Scope, m: SymbolId, c: SymbolId) -> bool {
    told_class(f, scope, m, c) || (!is_variable(f.layer, m) && parents(f.edges, m, scope).contains(
        (c, TaxRelation::Instance),
    ))
}

/// A symbol that is the same thing has the class.
pub open spec fn evident(f: Facts, scope: Scope, sym: SymbolId, c: SymbolId) -> bool {
    exists|m: SymbolId| #[trigger] same_thing(f, scope, sym, m) && member_gives(f, scope, m, c)
}

/// The classes of the symbols that are the same thing.
pub open spec fn evidence(f: Facts, scope: Scope, sym: SymbolId) -> Set<SymbolId> {
    Set::new(|c: SymbolId| evident(f, scope, sym, c))
}

/// A symbol that is the same thing is shown to be a class.
pub open spec fn evident_class(f: Facts, scope: Scope, sym: SymbolId) -> bool {
    exists|m: SymbolId| #[trigger] same_thing(f, scope, sym, m) && told_is_class(f, scope, m)
}

/// What the symbol is, those on the path left out as under question: the most
/// specific of its evident classes, else a class itself, else what the
/// taxonomy says of the first symbol, by identity, that is the same thing and
/// of which it says anything.
pub open spec fn inferred_via(f: Facts, scope: Scope, path: Set<SymbolId>, sym: SymbolId) -> ClassView
    decreases range_steps(f).insert(sym).difference(path).len(), 0nat, 0nat,
{
    if path.contains(sym) {
        ClassView::Unknown
    } else if exists|c: SymbolId| evident(f, scope, sym, c) {
        collapsed(f.edges, scope, evidence(f, scope, sym))
    } else if evident_class(f, scope, sym) {
        ClassView::Class
    } else {
        proof {
            lemma_asking(f, path, sym);
        }
        settled_via(f, scope, path.insert(sym), sym)
    }
}

/// What the taxonomy says of the first symbol, by identity, that is the same
/// thing and of which it says anything.
pub open spec fn settled_via(f: Facts, scope: Scope, q: Set<SymbolId>, sym: SymbolId) -> ClassView
    decreases left_to_ask(f, q), 3nat, 0nat,
{
    if exists|m: SymbolId| #[trigger] same_thing(f, scope, sym, m) && !(outcome_via(f, scope, q, m) is Unknown) {
        let m = choose|m: SymbolId| #[trigger]
            same_thing(f, scope, sym, m) && !(outcome_via(f, scope, q, m) is Unknown) && forall|n: SymbolId|
                #[trigger] same_thing(f, scope, sym, n) && !(outcome_via(f, scope, q, n) is Unknown) ==> m <= n;
        outcome_via(f, scope, q, m)
    } else {
        ClassView::Unknown
    }
}

/// What the taxonomy says of a symbol without evident classes: a class if it
/// is a subclass of something and nothing else, else the most specific of the
/// single classes of what it is a subrelation or subattribute of.
pub open spec fn outcome_via(f: Facts, scope: Scope, q: Set<SymbolId>, m: SymbolId) -> ClassView
    decreases left_to_ask(f, q), 2nat, 0nat,
{
    let ps = parents(f.edges, m, scope);
    if is_variable(f.layer, m) {
        ClassView::Unknown
    } else if only_subclass(ps) {
        ClassView::Class
    } else {
        let s = inherited_via(f, scope, q, ps);
        if s == Set::<SymbolId>::empty() {
            ClassView::Unknown
        } else {
            collapsed(f.edges, scope, s)
        }
    }
}

/// There are parents, all by subclass.
pub open spec fn only_subclass(ps: Seq<Above>) -> bool {
    ps.len() > 0 && forall|i: int| 0 <= i < ps.len() ==> (#[trigger] ps[i]).1 == TaxRelation::Subclass
}

/// The single classes of what the symbol is a subrelation or subattribute of.
pub open spec fn inherited_via(f: Facts, scope: Scope, q: Set<SymbolId>, ps: Seq<Above>) -> Set<SymbolId>
    decreases left_to_ask(f, q), 1nat, ps.len(),
{
    if ps.len() == 0 {
        Set::empty()
    } else {
        let r = inherited_via(f, scope, q, ps.drop_last());
        let (p, rel) = ps.last();
        if (rel == TaxRelation::Subrelation || rel == TaxRelation::SubAttribute) && !q.contains(p) && range_steps(
            f,
        ).contains(p) {
            proof {
                lemma_asking(f, q, p);
            }
            match inferred_via(f, scope, q, p) {
                ClassView::Single(c) => r.insert(c),
                _ => r,
            }
        } else {
            r
        }
    }
}

/// What the symbol is.
pub open spec fn inferred_of(f: Facts, scope: Scope, sym: SymbolId) -> ClassView {
    inferred_via(f, scope, Set::empty(), sym)
}

impl SemanticLayer {
    /// The symbols equal to the one, itself included.
    pub fn equality_component(&self, sym: SymbolId, scope: Scope) -> (r: Vec<SymbolId>)
        requires
            self.wf(),
        ensures
            r@.no_duplicates(),
            forall|m: SymbolId| #[trigger] r@.contains(m) <==> same_thing(self@, scope, sym, m),
    {
        let g = EqualGraph { layer: self, scope };
        let w = walk(&g, sym);
        let mut out: Vec<SymbolId> = Vec::new();
        let n = w.len();
        let mut i: usize = 0;
        while i < n
            invariant
                n == w.nodes().len(),
                i <= n,
                out@ == w.nodes().take(i as int),
            decreases n - i,
        {
            out.push(w.node(i));
            assert(out@ =~= w.nodes().take(i + 1));
            i += 1;
        }
        assert(w.nodes().take(i as int) =~= w.nodes());
        assert forall|m: SymbolId| #[trigger] out@.contains(m) <==> same_thing(self@, scope, sym, m) by {
            lemma_component(&g, sym, m);
        }
        out
    }

    fn taxonomy_instance_classes(&self, sym: SymbolId, scope: Scope, out: &mut Vec<SymbolId>)
        requires
            self.wf(),
        ensures
            forall|c: SymbolId| #[trigger] final(out)@.contains(c) <==> old(out)@.contains(c) || parents(
                self@.edges,
                sym,
                scope,
            ).contains((c, TaxRelation::Instance)),
    {
        let ghost start = out@;
        let ps = self.tax.parents_of_scoped(sym, scope);
        let mut i: usize = 0;
        while i < ps.len()
            invariant
                i <= ps@.len(),
                forall|c: SymbolId| #[trigger] out@.contains(c) <==> start.contains(c) || exists|j: int|
                    0 <= j < i && #[trigger] ps@[j] == (c, TaxRelation::Instance),
            decreases ps@.len() - i,
        {
            let ghost before = out@;
            if ps[i].1 == TaxRelation::Instance {
                proof {
                    lemma_push_contains(out@, ps@[i as int].0);
                    assert(ps@[i as int] == (ps@[i as int].0, TaxRelation::Instance));
                }
                out.push(ps[i].0);
            }
            assert forall|c: SymbolId| #[trigger] out@.contains(c) <==> start.contains(c) || exists|j: int|
                0 <= j < i + 1 && #[trigger] ps@[j] == (c, TaxRelation::Instance) by {
                if before.contains(c) && !start.contains(c) {
                    let j = choose|j: int| 0 <= j < i && #[trigger] ps@[j] == (c, TaxRelation::Instance);
                    assert(ps@[j] == (c, TaxRelation::Instance));
                }
                if exists|j: int| 0 <= j < i + 1 && #[trigger] ps@[j] == (c, TaxRelation::Instance) {
                    let j = choose|j: int| 0 <= j < i + 1 && #[trigger] ps@[j] == (c, TaxRelation::Instance);
                    if j < i {
                        assert(before.contains(c));
                    }
                }
            }
            i += 1;
        }
        assert forall|c: SymbolId| #[trigger] out@.contains(c) <==> start.contains(c) || ps@.contains(
            (c, TaxRelation::Instance),
        ) by {
            if ps@.contains((c, TaxRelation::Instance)) {
                let j = choose|j: int| 0 <= j < ps@.len() && ps@[j] == (c, TaxRelation::Instance);
                assert(ps@[j] == (c, TaxRelation::Instance));
            }
        }
    }

    /// The evident classes of the symbol, and whether it is shown to be a
    /// class itself.
    fn gather(&self, members: &Vec<SymbolId>, sym: SymbolId, scope: Scope) -> (r: (Vec<SymbolId>, bool))
        requires
            self.wf(),
            forall|m: SymbolId| #[trigger] members@.contains(m) <==> same_thing(self@, scope, sym, m),
        ensures
            forall|c: SymbolId| #[trigger] r.0@.contains(c) <==> evident(self@, scope, sym, c),
            r.1 == evident_class(self@, scope, sym),
    {
        let ghost f = self@;
        let mut classes: Vec<SymbolId> = Vec::new();
        let mut kind = false;
        let mut i: usize = 0;
        while i < members.len()
            invariant
                self.wf(),
                f == self@,
                i <= members@.len(),
                forall|c: SymbolId| #[trigger] classes@.contains(c) <==> exists|j: int|
                    0 <= j < i && member_gives(f, scope, #[trigger] members@[j], c),
                kind <==> exists|j: int| 0 <= j < i && told_is_class(f, scope, #[trigger] members@[j]),
            decreases members@.len() - i,
        {
            let m = members[i];
            let ghost before = classes@;
            let k = self.collect_direct_classes(m, scope, &mut classes);
            if k {
                kind = true;
            }
            if !self.is_variable_id(m) {
                self.taxonomy_instance_classes(m, scope, &mut classes);
            }
            assert forall|c: SymbolId| #[trigger] classes@.contains(c) <==> exists|j: int|
                0 <= j < i + 1 && member_gives(f, scope, #[trigger] members@[j], c) by {
                if before.contains(c) {
                    let j = choose|j: int| 0 <= j < i && member_gives(f, scope, #[trigger] members@[j], c);
                    assert(member_gives(f, scope, members@[j], c));
                }
                if classes@.contains(c) && !before.contains(c) {
                    assert(member_gives(f, scope, members@[i as int], c));
                }
                if exists|j: int| 0 <= j < i + 1 && member_gives(f, scope, #[trigger] members@[j], c) {
                    let j = choose|j: int| 0 <= j < i + 1 && member_gives(f, scope, #[trigger] members@[j], c);
                    if j < i {
                        assert(before.contains(c));
                    }
                }
            }
            i += 1;
        }
        assert forall|c: SymbolId| #[trigger] classes@.contains(c) <==> evident(f, scope, sym, c) by {
            if classes@.contains(c) {
                let j = choose|j: int| 0 <= j < members@.len() && member_gives(f, scope, #[trigger] members@[j], c);
                assert(members@.contains(members@[j]));
                assert(same_thing(f, scope, sym, members@[j]));
            }
            if evident(f, scope, sym, c) {
                let m = choose|m: SymbolId| #[trigger] same_thing(f, scope, sym, m) && member_gives(f, scope, m, c);
                assert(members@.contains(m));
                let j = choose|j: int| 0 <= j < members@.len() && members@[j] == m;
                assert(member_gives(f, scope, members@[j], c));
            }
        }
        assert(kind == evident_class(f, scope, sym)) by {
            if kind {
                let j = choose|j: int| 0 <= j < members@.len() && told_is_class(f, scope, #[trigger] members@[j]);
                assert(members@.contains(members@[j]));
                assert(same_thing(f, scope, sym, members@[j]));
            }
            if evident_class(f, scope, sym) {
                let m = choose|m: SymbolId| #[trigger] same_thing(f, scope, sym, m) && told_is_class(f, scope, m);
                assert(members@.contains(m));
                let j = choose|j: int| 0 <= j < members@.len() && members@[j] == m;
                assert(told_is_class(f, scope, members@[j]));
            }
        }
        (classes, kind)
    }

    fn inherited_under(&self, scope: Scope, q: &Vec<SymbolId>, m: SymbolId) -> (r: Vec<SymbolId>)
        requires
            self.wf(),
        ensures
            r@.to_set() == inherited_via(self@, scope, q@.to_set(), parents(self@.edges, m, scope)),
        decreases left_to_ask(self@, q@.to_set()), 1nat, parents(self@.edges, m, scope).len(),
    {
        let ps = self.tax.parents_of_scoped(m, scope);
        let mut out: Vec<SymbolId> = Vec::new();
        let mut i: usize = 0;
        assert(ps@.take(0) =~= Seq::empty());
        assert(out@.to_set() =~= Set::empty());
        while i < ps.len()
            invariant
                self.wf(),
                ps@ == parents(self@.edges, m, scope),
                i <= ps@.len(),
                out@.to_set() == inherited_via(self@, scope, q@.to_set(), ps@.take(i as int)),
            decreases ps@.len() - i,
        {
            assert(ps@.take(i + 1).drop_last() =~= ps@.take(i as int));
            assert(ps@.take(i + 1).last() == ps@[i as int]);
            let (p, rel) = ps[i];
            proof {
                lemma_parent_asked(self@, scope, m, i as int);
                if !q@.to_set().contains(p) {
                    lemma_asking(self@, q@.to_set(), p);
                }
            }
            if (rel == TaxRelation::Subrelation || rel == TaxRelation::SubAttribute) && !holds_id(q, p) {
                match self.infer_under(scope, q, p) {
                    ClassInference::Single(c) => {
                        proof {
                            crate::store::lemma_push_set(out@, c);
                        }
                        out.push(c);
                    },
                    _ => {},
                }
            }
            i += 1;
        }
        assert(ps@.take(i as int) =~= ps@);
        out
    }

    fn outcome_under(&self, scope: Scope, q: &Vec<SymbolId>, m: SymbolId) -> (r: ClassInference)
        requires
            self.wf(),
        ensures
            r@ == outcome_via(self@, scope, q@.to_set(), m),
            listed_once(r),
        decreases left_to_ask(self@, q@.to_set()), 2nat, 0nat,
    {
        if self.is_variable_id(m) {
            return ClassInference::Unknown;
        }
        let ps = self.tax.parents_of_scoped(m, scope);
        let mut all = ps.len() > 0;
        let mut i: usize = 0;
        while i < ps.len()
            invariant
                i <= ps@.len(),
                all <==> (ps@.len() > 0 && forall|j: int| 0 <= j < i ==> (#[trigger] ps@[j]).1 == TaxRelation::Subclass),
            decreases ps@.len() - i,
        {
            if ps[i].1 != TaxRelation::Subclass {
                all = false;
            }
            i += 1;
        }
        if all {
            return ClassInference::Class;
        }
        let classes = self.inherited_under(scope, q, m);
        if classes.len() == 0 {
            assert(classes@.to_set() =~= Set::empty());
            ClassInference::Unknown
        } else {
            assert(classes@.to_set().contains(classes@[0]));
            collapse_classes(self, &classes, scope)
        }
    }

    fn settle_under(&self, scope: Scope, q: &Vec<SymbolId>, members: &Vec<SymbolId>, sym: SymbolId) -> (r: ClassInference)
        requires
            self.wf(),
            forall|m: SymbolId| #[trigger] members@.contains(m) <==> same_thing(self@, scope, sym, m),
        ensures
            r@ == settled_via(self@, scope, q@.to_set(), sym),
            listed_once(r),
        decreases left_to_ask(self@, q@.to_set()), 3nat, 0nat,
    {
        let ghost f = self@;
        let ghost qs = q@.to_set();
        let mut best: ClassInference = ClassInference::Unknown;
        let mut at: SymbolId = 0;
        let mut i: usize = 0;
        while i < members.len()
            invariant
                self.wf(),
                f == self@,
                qs == q@.to_set(),
                i <= members@.len(),
                listed_once(best),
                best@ is Unknown ==> forall|j: int| 0 <= j < i ==> outcome_via(f, scope, qs, #[trigger] members@[j]) is Unknown,
                !(best@ is Unknown) ==> best@ == outcome_via(f, scope, qs, at) && members@.contains(at) && forall|j: int|
                    0 <= j < i && !(outcome_via(f, scope, qs, #[trigger] members@[j]) is Unknown) ==> at <= members@[j],
            decreases members@.len() - i,
        {
            let m = members[i];
            let o = self.outcome_under(scope, q, m);
            let unknown = matches!(o, ClassInference::Unknown);
            let none = matches!(best, ClassInference::Unknown);
            if !unknown && (none || m < at) {
                assert(members@.contains(members@[i as int]));
                best = o;
                at = m;
            }
            i += 1;
        }
        proof {
            if best@ is Unknown {
                assert forall|m: SymbolId| #[trigger] same_thing(f, scope, sym, m) implies outcome_via(
                    f,
                    scope,
                    qs,
                    m,
                ) is Unknown by {
                    assert(members@.contains(m));
                    let j = choose|j: int| 0 <= j < members@.len() && members@[j] == m;
                    assert(outcome_via(f, scope, qs, members@[j]) is Unknown);
                }
            } else {
                assert(members@.contains(at));
                assert(same_thing(f, scope, sym, at));
                assert forall|n: SymbolId| #[trigger]
                    same_thing(f, scope, sym, n) && !(outcome_via(f, scope, qs, n) is Unknown) implies at <= n by {
                    assert(members@.contains(n));
                    let j = choose|j: int| 0 <= j < members@.len() && members@[j] == n;
                    assert(!(outcome_via(f, scope, qs, members@[j]) is Unknown));
                }
                let m = choose|m: SymbolId| #[trigger]
                    same_thing(f, scope, sym, m) && !(outcome_via(f, scope, qs, m) is Unknown) && forall|n: SymbolId|
                        #[trigger] same_thing(f, scope, sym, n) && !(outcome_via(f, scope, qs, n) is Unknown) ==> m <= n;
                assert(m <= at && at <= m);
                assert(settled_via(f, scope, qs, sym) == outcome_via(f, scope, qs, at));
            }
        }
        best
    }

    fn infer_under(&self, scope: Scope, path: &Vec<SymbolId>, sym: SymbolId) -> (r: ClassInference)
        requires
            self.wf(),
        ensures
            r@ == inferred_via(self@, scope, path@.to_set(), sym),
            listed_once(r),
        decreases range_steps(self@).insert(sym).difference(path@.to_set()).len(), 0nat, 0nat,
    {
        let ghost f = self@;
        if holds_id(path, sym) {
            return ClassInference::Unknown;
        }
        let members = self.equality_component(sym, scope);
        let (classes, kind) = self.gather(&members, sym, scope);
        if classes.len() > 0 {
            proof {
                assert(classes@.contains(classes@[0]));
                assert(evident(f, scope, sym, classes@[0]));
                assert(classes@.to_set() =~= evidence(f, scope, sym));
            }
            return collapse_classes(self, &classes, scope);
        }
        assert forall|c: SymbolId| !#[trigger] evident(f, scope, sym, c) by {
            assert(!classes@.contains(c));
        }
        if kind {
            return ClassInference::Class;
        }
        let mut q: Vec<SymbolId> = path.clone();
        q.push(sym);
        proof {
            crate::store::lemma_push_set(path@, sym);
            lemma_asking(f, path@.to_set(), sym);
        }
        self.settle_under(scope, &q, &members, sym)
    }

    /// What the symbol is: the most specific of the classes that the sentences
    /// and the taxonomy give it.
    pub fn infer_class_scoped(&self, sym: SymbolId, scope: Scope) -> (r: ClassInference)
        requires
            self.wf(),
        ensures
            r@ == inferred_of(self@, scope, sym),
            listed_once(r),
    {
        let path: Vec<SymbolId> = Vec::new();
        assert(path@.to_set() =~= Set::empty());
        self.infer_under(scope, &path, sym)
    }

    /// Of two classes the lower; with more, as the pairs from the first on
    /// decide.
    pub fn most_specific_class(&self, classes: &Vec<SymbolId>) -> (r: Option<SymbolId>)
        ensures
            r == most_specific(self@.edges, classes@),
    {
        if classes.len() == 0 {
            return None;
        }
        let mut best = classes[0];
        let mut i: usize = 1;
        assert(classes@.take(1) =~= seq![classes@[0]]);
        assert(classes@.take(1).drop_last() =~= Seq::empty());
        reveal_with_fuel(most_specific, 2);
        while i < classes.len()
            invariant
                1 <= i <= classes@.len(),
                most_specific(self@.edges, classes@.take(i as int)) == Some(best),
            decreases classes@.len() - i,
        {
            assert(classes@.take(i + 1).drop_last() =~= classes@.take(i as int));
            if !self.has_ancestor(best, classes[i]) {
                best = classes[i];
            }
            i += 1;
        }
        assert(classes@.take(i as int) =~= classes@);
        Some(best)
    }
}

/// Of two classes the lower; with more, as the pairs from the first on
/// decide.
pub open spec fn most_specific(rs: Seq<RecordView>, classes: Seq<SymbolId>) -> Option<SymbolId>
    decreases classes.len(),
{
    if classes.len() == 0 {
        None
    } else {
        match most_specific(rs, classes.drop_last()) {
            None => Some(classes.last()),
            Some(a) => Some(
                if reaches(rs, Scope::Base, None, a, classes.last()) {
                    a
                } else {
                    classes.last()
                },
            ),
        }
    }
}

} // verus!
