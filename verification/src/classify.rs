//! The classes of the symbols and variables of one formula, and inferred
//! classes remembered.
use vstd::prelude::*;

use crate::content::Part;
use crate::events::{event_views, sentence_views, Event, EventView};
use crate::inferred::{
    collapse_classes, collapsed, equals_number, inferred_of, leaf_list, listed_once, same_thing, ClassInference, ClassView,
};
use crate::memo::{MemoKey, ScopedMemo};
use crate::roles::{tax_role, TaxRelation};
use crate::semantic::{Facts, SemanticLayer};
use crate::signature::{domain_of, range_of, RelationDomain, RelationRange};
use crate::store::{
    body, entries_ordered, has_var, head_of, holds_id, lemma_push_contains, lemma_tree_rank, place, session_id,
    stored, tree, tree_rank, Element, LayerView, Scope, Sentence,
};
use crate::taxonomy::end_id;
use crate::types::{Literal, OpKind, SentenceId, SymbolId};

verus! {

/// A class for a symbol or variable of a formula; local if it holds only
/// inside the formula.
#[derive(Clone, Copy, Debug, PartialEq, Eq, Structural)]
pub struct Candidate {
    pub target: SymbolId,
    pub class: SymbolId,
    pub local: bool,
}

/// The class that a place names.
pub open spec fn domain_class(d: RelationDomain) -> Option<SymbolId> {
    match d {
        RelationDomain::Unknown => None,
        RelationDomain::Domain(c) => Some(c),
        RelationDomain::DomainSubclass(c) => Some(c),
    }
}

/// The class that a range names.
pub open spec fn range_class(r: RelationRange) -> Option<SymbolId> {
    match r {
        RelationRange::Unknown => None,
        RelationRange::Range(c) => Some(c),
        RelationRange::RangeSubclass(c) => Some(c),
    }
}

impl RelationDomain {
    /// The class that the place names.
    pub fn id(&self) -> (r: Option<SymbolId>)
        ensures
            r == domain_class(*self),
    {
        match self {
            RelationDomain::Unknown => None,
            RelationDomain::Domain(c) => Some(*c),
            RelationDomain::DomainSubclass(c) => Some(*c),
        }
    }
}

impl RelationRange {
    /// The class that the range names.
    pub fn id(&self) -> (r: Option<SymbolId>)
        ensures
            r == range_class(*self),
    {
        match self {
            RelationRange::Unknown => None,
            RelationRange::Range(c) => Some(*c),
            RelationRange::RangeSubclass(c) => Some(*c),
        }
    }
}

/// The classes of what was inferred.
pub open spec fn classes_of(v: ClassView) -> Set<SymbolId> {
    match v {
        ClassView::Single(c) => set![c],
        ClassView::Multiple(s) => s,
        _ => Set::empty(),
    }
}

/// The target stands at the place, which names the class.
pub open spec fn placed_at(f: Facts, scope: Scope, ps: Seq<Part>, h: SymbolId, t: SymbolId, c: SymbolId, k: int) -> bool {
    1 <= k < ps.len() && end_id(ps[k]) == Some(t) && k - 1 < domain_of(f, scope, h).len() && domain_class(
        domain_of(f, scope, h)[k - 1],
    ) == Some(c)
}

/// An atom gives the target the class.
pub open spec fn atom_gives(f: Facts, scope: Scope, ps: Seq<Part>, h: SymbolId, t: SymbolId, c: SymbolId) -> bool {
    if h == f.roles.instance {
        ps.len() > 2 && end_id(ps[1]) == Some(t) && ps[2] == Part::Sym(c)
    } else {
        exists|k: int| #[trigger] placed_at(f, scope, ps, h, t, c, k)
    }
}

/// One side of an equation gives the target on the other the class.
pub open spec fn side_gives(f: Facts, scope: Scope, side: Part, other: Part, t: SymbolId, c: SymbolId) -> bool {
    end_id(side) == Some(t) && ((other matches Part::Sub(s) && (body(f.layer, s) matches Some(qs) && (head_of(
        qs,
    ) matches Some(h) && range_class(range_of(f, scope, h)) == Some(c)))) || (end_id(other) matches Some(u)
        && classes_of(inferred_of(f, scope, u)).contains(c)) || equals_number(f, side, other, t, c))
}

/// An equation gives the target the class.
pub open spec fn sides_give(f: Facts, scope: Scope, ps: Seq<Part>, t: SymbolId, c: SymbolId) -> bool {
    ps.len() > 2 && (side_gives(f, scope, ps[1], ps[2], t, c) || side_gives(f, scope, ps[2], ps[1], t, c))
}

/// The part of the formula, not negated itself, gives the candidate: by
/// itself, or by one of its own parts. A connective other than `and` and
/// equality makes what is below it local, and `not` turns negation around.
pub open spec fn collects(f: Facts, scope: Scope, sid: SentenceId, local: bool, negated: bool, cd: Candidate) -> bool
    decreases tree_rank(f.layer.entries, sid), 1nat, 0nat,
    when entries_ordered(f.layer.entries)
{
    if !stored(f.layer.entries, sid) {
        false
    } else {
        let ps = f.layer.entries[place(f.layer.entries, sid)].parts;
        if ps.len() == 0 {
            false
        } else {
            match ps[0] {
                Part::Op(op) => (op == OpKind::Equal && !negated && cd.local == local && sides_give(
                    f,
                    scope,
                    ps,
                    cd.target,
                    cd.class,
                )) || collects_parts(
                    f,
                    scope,
                    sid,
                    ps.len(),
                    local || !(op == OpKind::And || op == OpKind::Equal),
                    negated != (op == OpKind::Not),
                    cd,
                ),
                Part::Sym(h) => (!negated && cd.local == local && atom_gives(f, scope, ps, h, cd.target, cd.class))
                    || collects_parts(f, scope, sid, ps.len(), local, negated, cd),
                _ => false,
            }
        }
    }
}

/// One of the first arguments gives the candidate.
pub open spec fn collects_parts(
    f: Facts,
    scope: Scope,
    sid: SentenceId,
    n: nat,
    local: bool,
    negated: bool,
    cd: Candidate,
) -> bool
    decreases tree_rank(f.layer.entries, sid), 0nat, n,
    when entries_ordered(f.layer.entries)
{
    if n <= 1 || !stored(f.layer.entries, sid) || n > f.layer.entries[place(f.layer.entries, sid)].parts.len() {
        false
    } else {
        collects_parts(f, scope, sid, (n - 1) as nat, local, negated, cd) || match f.layer.entries[place(
            f.layer.entries,
            sid,
        )].parts[n - 1] {
            Part::Sub(child) => {
                proof {
                    lemma_tree_rank(f.layer.entries, sid, n - 1, child);
                }
                collects(f, scope, child, local, negated, cd)
            },
            _ => false,
        }
    }
}

/// The class that the place of the relation names.
pub open spec fn place_class(f: Facts, scope: Scope, h: SymbolId, k: int) -> Option<SymbolId> {
    if 1 <= k <= domain_of(f, scope, h).len() {
        domain_class(domain_of(f, scope, h)[k - 1])
    } else {
        None
    }
}

/// What an atom outside the taxonomy gives, place by place, up to the place.
pub open spec fn placed_list(f: Facts, scope: Scope, ps: Seq<Part>, h: SymbolId, local: bool, n: nat) -> Seq<Candidate>
    decreases n,
{
    if n <= 1 {
        Seq::empty()
    } else {
        let s = placed_list(f, scope, ps, h, local, (n - 1) as nat);
        match (end_id(ps[n - 1]), place_class(f, scope, h, n - 1)) {
            (Some(t), Some(c)) => s.push(Candidate { target: t, class: c, local }),
            _ => s,
        }
    }
}

/// What an atom gives, in the order of its arguments.
pub open spec fn atom_list(f: Facts, scope: Scope, ps: Seq<Part>, h: SymbolId, local: bool) -> Seq<Candidate> {
    if h != f.roles.instance {
        placed_list(f, scope, ps, h, local, ps.len())
    } else if ps.len() > 2 && end_id(ps[1]) is Some && ps[2] is Sym {
        seq![Candidate { target: end_id(ps[1])->0, class: ps[2]->Sym_0, local }]
    } else {
        Seq::empty()
    }
}

/// What one side of an equation gives, each candidate once; several classes are
/// those that the other side is inferred to have, in any order.
pub open spec fn side_list(f: Facts, scope: Scope, side: Part, other: Part, local: bool, l: Seq<Candidate>) -> bool {
    l.no_duplicates() && forall|cd: Candidate| #[trigger] l.contains(cd) <==> cd.local == local && side_gives(
        f,
        scope,
        side,
        other,
        cd.target,
        cd.class,
    )
}

/// What an equation gives: first the one side, then the other.
pub open spec fn equation_list(f: Facts, scope: Scope, ps: Seq<Part>, local: bool, l: Seq<Candidate>) -> bool {
    exists|k: int|
        0 <= k <= l.len() && side_list(f, scope, ps[1], ps[2], local, #[trigger] l.take(k)) && side_list(
            f,
            scope,
            ps[2],
            ps[1],
            local,
            l.skip(k),
        )
}

/// What a sentence that is not negated gives by itself.
pub open spec fn own_list(f: Facts, scope: Scope, ps: Seq<Part>, local: bool, l: Seq<Candidate>) -> bool {
    match ps[0] {
        Part::Op(op) => if op == OpKind::Equal && ps.len() > 2 {
            equation_list(f, scope, ps, local, l)
        } else {
            l.len() == 0
        },
        Part::Sym(h) => l == atom_list(f, scope, ps, h, local),
        _ => l.len() == 0,
    }
}

/// The candidates of the part of the formula in the order of the walk: what it
/// gives by itself, then what its own parts give, one after another.
pub open spec fn walk_list(f: Facts, scope: Scope, sid: SentenceId, local: bool, negated: bool, l: Seq<Candidate>) -> bool
    decreases tree_rank(f.layer.entries, sid), 1nat, 0nat,
    when entries_ordered(f.layer.entries)
{
    if !stored(f.layer.entries, sid) {
        l.len() == 0
    } else {
        let ps = f.layer.entries[place(f.layer.entries, sid)].parts;
        if ps.len() == 0 || !(ps[0] is Op || ps[0] is Sym) {
            l.len() == 0
        } else {
            let inner_local = local || (ps[0] matches Part::Op(op) && !(op == OpKind::And || op == OpKind::Equal));
            let inner_negated = negated != (ps[0] == Part::Op(OpKind::Not));
            exists|k: int|
                0 <= k <= l.len() && (if negated {
                    k == 0
                } else {
                    own_list(f, scope, ps, local, #[trigger] l.take(k))
                }) && walk_parts(f, scope, sid, ps.len(), inner_local, inner_negated, l.skip(k))
        }
    }
}

/// The candidates of the first arguments, one after another.
pub open spec fn walk_parts(
    f: Facts,
    scope: Scope,
    sid: SentenceId,
    n: nat,
    local: bool,
    negated: bool,
    l: Seq<Candidate>,
) -> bool
    decreases tree_rank(f.layer.entries, sid), 0nat, n,
    when entries_ordered(f.layer.entries)
{
    if n <= 1 || !stored(f.layer.entries, sid) || n > f.layer.entries[place(f.layer.entries, sid)].parts.len() {
        l.len() == 0
    } else {
        match f.layer.entries[place(f.layer.entries, sid)].parts[n - 1] {
            Part::Sub(child) => {
                proof {
                    lemma_tree_rank(f.layer.entries, sid, n - 1, child);
                }
                exists|k: int|
                    0 <= k <= l.len() && walk_parts(
                        f,
                        scope,
                        sid,
                        (n - 1) as nat,
                        local,
                        negated,
                        #[trigger] l.take(k),
                    ) && walk_list(f, scope, child, local, negated, l.skip(k))
            },
            _ => walk_parts(f, scope, sid, (n - 1) as nat, local, negated, l),
        }
    }
}

/// The classes that the candidates give the target, in their order.
pub open spec fn classes_for(l: Seq<Candidate>, t: SymbolId, local: bool) -> Seq<SymbolId>
    decreases l.len(),
{
    if l.len() == 0 {
        Seq::empty()
    } else {
        let s = classes_for(l.drop_last(), t, local);
        if l.last().target == t && l.last().local == local {
            s.push(l.last().class)
        } else {
            s
        }
    }
}

/// The classes of the target in the order they are met: those that hold
/// everywhere, what the target is inferred to be behind the rest, and where
/// there are none those that hold inside the formula.
pub open spec fn met_classes(l: Seq<Candidate>, inferred: Seq<SymbolId>, t: SymbolId) -> Seq<SymbolId> {
    let g = classes_for(l, t, false) + inferred;
    if g.len() > 0 {
        g
    } else {
        classes_for(l, t, true)
    }
}

/// The list is what the target is inferred to be; nothing for a variable of the
/// formula.
pub open spec fn inferred_list(f: Facts, scope: Scope, root: SentenceId, t: SymbolId, s: Seq<SymbolId>) -> bool {
    if has_var(f.layer, root, t) {
        s.len() == 0
    } else {
        s.no_duplicates() && forall|c: SymbolId| #[trigger] s.contains(c) <==> classes_of(
            inferred_of(f, scope, t),
        ).contains(c)
    }
}

/// Several classes of the target stand in the order they are met, each once.
pub open spec fn in_met_order(
    f: Facts,
    scope: Scope,
    root: SentenceId,
    l: Seq<Candidate>,
    t: SymbolId,
    c: ClassInference,
) -> bool {
    c matches ClassInference::Multiple(cs) ==> exists|s: Seq<SymbolId>| #[trigger]
        inferred_list(f, scope, root, t, s) && cs@ == leaf_list(
            f.edges,
            scope,
            met_classes(l, s, t).to_set(),
            met_classes(l, s, t),
        )
}

/// The classes that hold everywhere: those the formula gives outside its
/// logical structure, and for a ground symbol what it is inferred to be.
pub open spec fn global_classes(f: Facts, scope: Scope, root: SentenceId, t: SymbolId) -> Set<SymbolId> {
    Set::new(
        |c: SymbolId|
            collects(f, scope, root, false, false, Candidate { target: t, class: c, local: false }) || (!has_var(
                f.layer,
                root,
                t,
            ) && classes_of(inferred_of(f, scope, t)).contains(c)),
    )
}

/// The classes that hold inside the formula.
pub open spec fn local_classes(f: Facts, scope: Scope, root: SentenceId, t: SymbolId) -> Set<SymbolId> {
    Set::new(
        |c: SymbolId| collects(f, scope, root, false, false, Candidate { target: t, class: c, local: true }),
    )
}

/// The class of the symbol or variable in the formula: the most specific of
/// those that hold everywhere, else of those that hold inside it.
pub open spec fn formula_class(f: Facts, scope: Scope, root: SentenceId, t: SymbolId) -> ClassView {
    let g = global_classes(f, scope, root, t);
    collapsed(
        f.edges,
        scope,
        if g == Set::<SymbolId>::empty() {
            local_classes(f, scope, root, t)
        } else {
            g
        },
    )
}

/// The formula gives the target some class.
pub open spec fn classified(f: Facts, scope: Scope, root: SentenceId, t: SymbolId) -> bool {
    exists|cd: Candidate| #[trigger] collects(f, scope, root, false, false, cd) && cd.target == t
}

/// The candidates that give the target each of the classes.
pub open spec fn each_for(t: SymbolId, cs: Seq<SymbolId>, local: bool) -> Seq<Candidate> {
    Seq::new(cs.len(), |i: int| Candidate { target: t, class: cs[i], local })
}

/// The list begins with the shorter one.
pub open spec fn continued(a: Seq<Candidate>, b: Seq<Candidate>) -> bool {
    a.len() <= b.len() && b.take(a.len() as int) == a
}

/// What the longer list has behind the shorter one.
pub open spec fn behind(a: Seq<Candidate>, b: Seq<Candidate>) -> Seq<Candidate> {
    b.skip(a.len() as int)
}

/// Two lists one behind the other.
proof fn lemma_behind(a: Seq<Candidate>, b: Seq<Candidate>, c: Seq<Candidate>)
    requires
        continued(a, b),
        continued(b, c),
    ensures
        continued(a, c),
        behind(a, b).len() <= behind(a, c).len(),
        behind(a, c).take(behind(a, b).len() as int) == behind(a, b),
        behind(a, c).skip(behind(a, b).len() as int) == behind(b, c),
{
    assert(c.take(a.len() as int) =~= b.take(a.len() as int)) by {
        assert forall|i: int| 0 <= i < a.len() implies c[i] == b[i] by {
            assert(c.take(b.len() as int)[i] == c[i]);
        }
    }
    assert forall|i: int| 0 <= i < behind(a, b).len() implies behind(a, c)[i] == behind(a, b)[i] by {
        assert(c.take(b.len() as int)[a.len() + i] == b[a.len() + i]);
    }
    assert(behind(a, c).take(behind(a, b).len() as int) =~= behind(a, b));
    assert(behind(a, c).skip(behind(a, b).len() as int) =~= behind(b, c));
}

proof fn lemma_cand_push(s: Seq<Candidate>, x: Candidate)
    ensures
        forall|y: Candidate| #[trigger] s.push(x).contains(y) <==> s.contains(y) || y == x,
{
    assert forall|y: Candidate| #[trigger] s.push(x).contains(y) <==> s.contains(y) || y == x by {
        if s.push(x).contains(y) {
            let j = choose|j: int| 0 <= j < s.push(x).len() && s.push(x)[j] == y;
            if j < s.len() {
                assert(s[j] == y);
            }
        }
        if s.contains(y) {
            let j = choose|j: int| 0 <= j < s.len() && s[j] == y;
            assert(s.push(x)[j] == y);
        }
        assert(s.push(x)[s.len() as int] == x);
    }
}

fn target_id(el: &Element) -> (r: Option<SymbolId>)
    ensures
        r == end_id(el@),
{
    match el {
        Element::Symbol(s) => Some(s.id()),
        Element::Variable { id, is_row, .. } => if *is_row {
            None
        } else {
            Some(*id)
        },
        _ => None,
    }
}

/// The classes of what was inferred.
fn inferred_classes(c: ClassInference) -> (r: Vec<SymbolId>)
    requires
        listed_once(c),
    ensures
        r@.no_duplicates(),
        forall|x: SymbolId| #[trigger] r@.contains(x) <==> classes_of(c@).contains(x),
{
    match c {
        ClassInference::Single(x) => {
            let mut v: Vec<SymbolId> = Vec::new();
            v.push(x);
            assert(v@[0] == x);
            v
        },
        ClassInference::Multiple(v) => v,
        _ => Vec::new(),
    }
}

/// What the sentence gives by itself and what its parts give make up the walk.
proof fn lemma_walked(
    f: Facts,
    scope: Scope,
    sid: SentenceId,
    ps: Seq<Part>,
    local: bool,
    negated: bool,
    start: Seq<Candidate>,
    own: Seq<Candidate>,
    end: Seq<Candidate>,
)
    requires
        entries_ordered(f.layer.entries),
        body(f.layer, sid) == Some(ps),
        ps.len() > 0,
        ps[0] is Op || ps[0] is Sym,
        continued(start, own),
        continued(own, end),
        if negated {
            own == start
        } else {
            own_list(f, scope, ps, local, behind(start, own))
        },
        walk_parts(
            f,
            scope,
            sid,
            ps.len(),
            local || (ps[0] matches Part::Op(op) && !(op == OpKind::And || op == OpKind::Equal)),
            negated != (ps[0] == Part::Op(OpKind::Not)),
            behind(own, end),
        ),
    ensures
        continued(start, end),
        walk_list(f, scope, sid, local, negated, behind(start, end)),
{
    lemma_behind(start, own, end);
    let l = behind(start, end);
    let n = behind(start, own).len() as int;
    assert(l.take(n) == behind(start, own));
    assert(l.skip(n) == behind(own, end));
}

impl SemanticLayer {
    fn push_all(target: SymbolId, classes: &Vec<SymbolId>, local: bool, out: &mut Vec<Candidate>)
        ensures
            forall|cd: Candidate| #[trigger] final(out)@.contains(cd) <==> old(out)@.contains(cd) || (cd.target == target
                && cd.local == local && classes@.contains(cd.class)),
            final(out)@ == old(out)@ + each_for(target, classes@, local),
    {
        let ghost start = out@;
        assert(out@ =~= start + each_for(target, classes@.take(0), local));
        let mut i: usize = 0;
        while i < classes.len()
            invariant
                i <= classes@.len(),
                out@ == start + each_for(target, classes@.take(i as int), local),
                forall|cd: Candidate| #[trigger] out@.contains(cd) <==> start.contains(cd) || (cd.target == target
                    && cd.local == local && classes@.take(i as int).contains(cd.class)),
            decreases classes@.len() - i,
        {
            let cd = Candidate { target, class: classes[i], local };
            proof {
                lemma_cand_push(out@, cd);
                assert(classes@.take(i + 1) =~= classes@.take(i as int).push(classes@[i as int]));
                lemma_push_contains(classes@.take(i as int), classes@[i as int]);
            }
            out.push(cd);
            i += 1;
            assert(out@ =~= start + each_for(target, classes@.take(i as int), local));
        }
        assert(classes@.take(i as int) =~= classes@);
    }

    fn collect_side(&self, side: &Element, other: &Element, local: bool, scope: Scope, out: &mut Vec<Candidate>)
        requires
            self.wf(),
        ensures
            forall|cd: Candidate| #[trigger] final(out)@.contains(cd) <==> old(out)@.contains(cd) || (cd.local == local
                && side_gives(self@, scope, side@, other@, cd.target, cd.class)),
            continued(old(out)@, final(out)@),
            side_list(self@, scope, side@, other@, local, behind(old(out)@, final(out)@)),
    {
        let ghost start = out@;
        let t = match target_id(side) {
            None => {
                assert(out@.take(start.len() as int) =~= start);
                return;
            },
            Some(t) => t,
        };
        let mut classes: Vec<SymbolId> = Vec::new();
        assert(classes@.no_duplicates());
        match other {
            Element::Sub(fsid) => {
                match self.syntactic.sentence(*fsid) {
                    None => {},
                    Some(s) => match s.head_symbol() {
                        None => {},
                        Some(h) => match self.range_scoped(h, scope).id() {
                            None => {},
                            Some(c) => {
                                classes.push(c);
                                assert(classes@[0] == c);
                            },
                        },
                    },
                }
            },
            Element::Literal(Literal::Number(n)) => {
                match self.number_class_id(n.as_str()) {
                    None => {},
                    Some(c) => {
                        classes.push(c);
                        assert(classes@[0] == c);
                    },
                }
            },
            _ => {
                match target_id(other) {
                    None => {},
                    Some(u) => {
                        classes = inferred_classes(self.infer_class_scoped(u, scope));
                    },
                }
            },
        }
        assert forall|c: SymbolId| #[trigger] classes@.contains(c) <==> side_gives(self@, scope, side@, other@, t, c) by {
        }
        Self::push_all(t, &classes, local, out);
        proof {
            let l = each_for(t, classes@, local);
            assert(out@.take(start.len() as int) =~= start);
            assert(behind(start, out@) =~= l);
            assert(classes@.no_duplicates());
            assert forall|cd: Candidate| #[trigger] l.contains(cd) <==> cd.local == local && side_gives(
                self@,
                scope,
                side@,
                other@,
                cd.target,
                cd.class,
            ) by {
                if l.contains(cd) {
                    let i = choose|i: int| 0 <= i < l.len() && l[i] == cd;
                    assert(classes@.contains(classes@[i]));
                }
                if cd.local == local && side_gives(self@, scope, side@, other@, cd.target, cd.class) {
                    assert(classes@.contains(cd.class));
                    let i = choose|i: int| 0 <= i < classes@.len() && classes@[i] == cd.class;
                    assert(l[i] == cd);
                }
            }
        }
    }

    fn collect_atom(&self, head: SymbolId, s: &Sentence, local: bool, scope: Scope, out: &mut Vec<Candidate>)
        requires
            self.wf(),
        ensures
            forall|cd: Candidate| #[trigger] final(out)@.contains(cd) <==> old(out)@.contains(cd) || (cd.local == local
                && atom_gives(self@, scope, s@, head, cd.target, cd.class)),
            final(out)@ == old(out)@ + atom_list(self@, scope, s@, head, local),
    {
        let ghost f = self@;
        let ghost start = out@;
        assert(start =~= start + Seq::<Candidate>::empty());
        let els = &s.elements;
        assert(s@.len() == els@.len());
        assert(forall|i: int| 0 <= i < els@.len() ==> #[trigger] s@[i] == els@[i]@);
        if head == self.roles.instance {
            if els.len() > 2 {
                match (target_id(&els[1]), &els[2]) {
                    (Some(t), Element::Symbol(c)) => {
                        let cd = Candidate { target: t, class: c.id(), local };
                        proof {
                            lemma_cand_push(out@, cd);
                        }
                        out.push(cd);
                        assert(out@ =~= start + seq![cd]);
                    },
                    _ => {},
                }
            }
            return;
        }
        let domain = self.domain_scoped(head, scope);
        let mut k: usize = 1;
        while k < els.len()
            invariant
                f == self@,
                els@ == s.elements@,
                s@.len() == els@.len(),
                forall|i: int| 0 <= i < els@.len() ==> #[trigger] s@[i] == els@[i]@,
                domain@ == domain_of(f, scope, head),
                1 <= k,
                k <= els@.len() || k == 1,
                out@ == start + placed_list(f, scope, s@, head, local, k as nat),
                forall|cd: Candidate| #[trigger] out@.contains(cd) <==> start.contains(cd) || (cd.local == local
                    && exists|j: int| j < k && #[trigger] placed_at(f, scope, s@, head, cd.target, cd.class, j)),
            decreases els@.len() - k,
        {
            let ghost before = out@;
            let here = match target_id(&els[k]) {
                None => None,
                Some(t) => if k - 1 < domain.len() {
                    match domain[k - 1].id() {
                        None => None,
                        Some(c) => Some(Candidate { target: t, class: c, local }),
                    }
                } else {
                    None
                },
            };
            match here {
                None => {},
                Some(cd) => {
                    proof {
                        lemma_cand_push(out@, cd);
                        assert(placed_at(f, scope, s@, head, cd.target, cd.class, k as int));
                    }
                    out.push(cd);
                },
            }
            assert(out@ =~= start + placed_list(f, scope, s@, head, local, (k + 1) as nat));
            assert forall|cd: Candidate| #[trigger] out@.contains(cd) <==> start.contains(cd) || (cd.local == local
                && exists|j: int| j < k + 1 && #[trigger] placed_at(f, scope, s@, head, cd.target, cd.class, j)) by {
                if before.contains(cd) && !start.contains(cd) {
                    let j = choose|j: int| j < k && #[trigger] placed_at(f, scope, s@, head, cd.target, cd.class, j);
                    assert(placed_at(f, scope, s@, head, cd.target, cd.class, j));
                }
                if cd.local == local && exists|j: int|
                    j < k + 1 && #[trigger] placed_at(f, scope, s@, head, cd.target, cd.class, j) {
                    let j = choose|j: int| j < k + 1 && #[trigger] placed_at(f, scope, s@, head, cd.target, cd.class, j);
                    if j < k {
                        assert(before.contains(cd));
                    } else {
                        assert(here == Some(cd));
                    }
                }
            }
            k += 1;
        }
        assert(placed_list(f, scope, s@, head, local, k as nat) == placed_list(f, scope, s@, head, local, s@.len()));
        assert forall|cd: Candidate| #[trigger] out@.contains(cd) <==> start.contains(cd) || (cd.local == local
            && atom_gives(f, scope, s@, head, cd.target, cd.class)) by {
            if atom_gives(f, scope, s@, head, cd.target, cd.class) {
                let j = choose|j: int| #[trigger] placed_at(f, scope, s@, head, cd.target, cd.class, j);
                assert(placed_at(f, scope, s@, head, cd.target, cd.class, j) && j < k);
            }
        }
    }

    fn collect_parts(&self, sid: SentenceId, s: &Sentence, local: bool, negated: bool, scope: Scope, out: &mut Vec<Candidate>)
        requires
            self.wf(),
            body(self@.layer, sid) == Some(s@),
        ensures
            forall|cd: Candidate| #[trigger] final(out)@.contains(cd) <==> old(out)@.contains(cd) || collects_parts(
                self@,
                scope,
                sid,
                s@.len(),
                local,
                negated,
                cd,
            ),
            continued(old(out)@, final(out)@),
            walk_parts(self@, scope, sid, s@.len(), local, negated, behind(old(out)@, final(out)@)),
        decreases tree_rank(self@.layer.entries, sid), 0nat,
    {
        let ghost f = self@;
        let ghost start = out@;
        proof {
            self.syntactic.lemma_ordered();
        }
        let mut k: usize = 1;
        assert(out@.take(start.len() as int) =~= start);
        while k < s.elements.len()
            invariant
                continued(start, out@),
                walk_parts(f, scope, sid, k as nat, local, negated, behind(start, out@)),
                self.wf(),
                f == self@,
                entries_ordered(f.layer.entries),
                body(f.layer, sid) == Some(s@),
                s@.len() == s.elements@.len(),
                1 <= k,
                k <= s@.len() || s@.len() == 0,
                forall|cd: Candidate| #[trigger] out@.contains(cd) <==> start.contains(cd) || collects_parts(
                    f,
                    scope,
                    sid,
                    k as nat,
                    local,
                    negated,
                    cd,
                ),
            decreases s.elements@.len() - k,
        {
            assert(s@[k as int] == s.elements@[k as int]@);
            let ghost before = out@;
            match &s.elements[k] {
                Element::Sub(child) => {
                    proof {
                        lemma_tree_rank(f.layer.entries, sid, k as int, *child);
                    }
                    self.collect_class_candidates(*child, local, negated, scope, out);
                },
                _ => {},
            }
            proof {
                if let Part::Sub(child) = s@[k as int] {
                    lemma_behind(start, before, out@);
                    let l = behind(start, out@);
                    let n = behind(start, before).len() as int;
                    assert(walk_parts(f, scope, sid, k as nat, local, negated, l.take(n)));
                    assert(walk_list(f, scope, child, local, negated, l.skip(n)));
                }
                assert(walk_parts(f, scope, sid, (k + 1) as nat, local, negated, behind(start, out@)));
            }
            assert forall|cd: Candidate| #[trigger] out@.contains(cd) <==> start.contains(cd) || collects_parts(
                f,
                scope,
                sid,
                (k + 1) as nat,
                local,
                negated,
                cd,
            ) by {
                assert(before.contains(cd) <==> start.contains(cd) || collects_parts(
                    f,
                    scope,
                    sid,
                    k as nat,
                    local,
                    negated,
                    cd,
                ));
                assert(collects_parts(f, scope, sid, (k + 1) as nat, local, negated, cd) == (collects_parts(
                    f,
                    scope,
                    sid,
                    k as nat,
                    local,
                    negated,
                    cd,
                ) || match s@[k as int] {
                    Part::Sub(child) => collects(f, scope, child, local, negated, cd),
                    _ => false,
                }));
            }
            k += 1;
        }
        assert forall|cd: Candidate| #[trigger] out@.contains(cd) <==> start.contains(cd) || collects_parts(
            f,
            scope,
            sid,
            s@.len(),
            local,
            negated,
            cd,
        ) by {
            if s@.len() == 0 {
                assert(!collects_parts(f, scope, sid, 0, local, negated, cd));
            }
        }
    }

    /// Collects what the part of the formula says of the symbols in it.
    fn collect_class_candidates(&self, sid: SentenceId, local: bool, negated: bool, scope: Scope, out: &mut Vec<Candidate>)
        requires
            self.wf(),
        ensures
            forall|cd: Candidate| #[trigger] final(out)@.contains(cd) <==> old(out)@.contains(cd) || collects(
                self@,
                scope,
                sid,
                local,
                negated,
                cd,
            ),
            continued(old(out)@, final(out)@),
            walk_list(self@, scope, sid, local, negated, behind(old(out)@, final(out)@)),
        decreases tree_rank(self@.layer.entries, sid), 1nat,
    {
        let ghost start = out@;
        proof {
            self.syntactic.lemma_ordered();
            assert(start.take(start.len() as int) =~= start);
        }
        let s = match self.syntactic.sentence(sid) {
            None => return,
            Some(s) => s,
        };
        if s.elements.len() == 0 {
            return;
        }
        let els = &s.elements;
        assert(s@.len() == els@.len());
        assert(forall|i: int| 0 <= i < els@.len() ==> #[trigger] s@[i] == els@[i]@);
        match &els[0] {
            Element::Op(op) => {
                if *op == OpKind::Equal && !negated && els.len() > 2 {
                    self.collect_side(&els[1], &els[2], local, scope, out);
                    let ghost half = out@;
                    self.collect_side(&els[2], &els[1], local, scope, out);
                    proof {
                        lemma_behind(start, half, out@);
                        let l = behind(start, out@);
                        let n = behind(start, half).len() as int;
                        assert(side_list(self@, scope, s@[1], s@[2], local, l.take(n)));
                        assert(equation_list(self@, scope, s@, local, l));
                    }
                }
                let ghost own = out@;
                let child_local = local || !(*op == OpKind::And || *op == OpKind::Equal);
                let child_negated = negated != (*op == OpKind::Not);
                self.collect_parts(sid, s, child_local, child_negated, scope, out);
                proof {
                    lemma_walked(self@, scope, sid, s@, local, negated, start, own, out@);
                }
            },
            Element::Symbol(head) => {
                if !negated {
                    self.collect_atom(head.id(), s, local, scope, out);
                }
                let ghost own = out@;
                assert(own.take(start.len() as int) =~= start);
                assert(!negated ==> behind(start, own) =~= atom_list(self@, scope, s@, head.id_spec(), local));
                self.collect_parts(sid, s, local, negated, scope, out);
                proof {
                    lemma_walked(self@, scope, sid, s@, local, negated, start, own, out@);
                }
            },
            _ => {},
        }
    }

    /// The class of the target among the candidates.
    fn decide_class(&self, root: SentenceId, t: SymbolId, var: bool, cands: &Vec<Candidate>, scope: Scope) -> (r: ClassInference)
        requires
            self.wf(),
            var == has_var(self@.layer, root, t),
            forall|cd: Candidate| #[trigger] cands@.contains(cd) <==> collects(self@, scope, root, false, false, cd),
        ensures
            r@ == formula_class(self@, scope, root, t),
            listed_once(r),
            in_met_order(self@, scope, root, cands@, t, r),
    {
        let ghost f = self@;
        assert(cands@.take(0) =~= Seq::empty());
        let mut globals: Vec<SymbolId> = Vec::new();
        let mut locals: Vec<SymbolId> = Vec::new();
        let mut i: usize = 0;
        while i < cands.len()
            invariant
                i <= cands@.len(),
                globals@ == classes_for(cands@.take(i as int), t, false),
                locals@ == classes_for(cands@.take(i as int), t, true),
                forall|c: SymbolId| #[trigger] globals@.contains(c) <==> exists|j: int|
                    0 <= j < i && #[trigger] cands@[j] == (Candidate { target: t, class: c, local: false }),
                forall|c: SymbolId| #[trigger] locals@.contains(c) <==> exists|j: int|
                    0 <= j < i && #[trigger] cands@[j] == (Candidate { target: t, class: c, local: true }),
            decreases cands@.len() - i,
        {
            let cd = cands[i];
            assert(cands@.take(i + 1).drop_last() =~= cands@.take(i as int));
            let ghost g0 = globals@;
            let ghost l0 = locals@;
            if cd.target == t {
                if cd.local {
                    proof {
                        lemma_push_contains(locals@, cd.class);
                    }
                    locals.push(cd.class);
                } else {
                    proof {
                        lemma_push_contains(globals@, cd.class);
                    }
                    globals.push(cd.class);
                }
            }
            assert forall|c: SymbolId| #[trigger] globals@.contains(c) <==> exists|j: int|
                0 <= j < i + 1 && #[trigger] cands@[j] == (Candidate { target: t, class: c, local: false }) by {
                let want = Candidate { target: t, class: c, local: false };
                if g0.contains(c) {
                    let j = choose|j: int| 0 <= j < i && #[trigger] cands@[j] == want;
                    assert(cands@[j] == want);
                } else if globals@.contains(c) {
                    assert(cands@[i as int] == want);
                }
                if exists|j: int| 0 <= j < i + 1 && #[trigger] cands@[j] == want {
                    let j = choose|j: int| 0 <= j < i + 1 && #[trigger] cands@[j] == want;
                    if j < i {
                        assert(g0.contains(c));
                    }
                }
            }
            assert forall|c: SymbolId| #[trigger] locals@.contains(c) <==> exists|j: int|
                0 <= j < i + 1 && #[trigger] cands@[j] == (Candidate { target: t, class: c, local: true }) by {
                let want = Candidate { target: t, class: c, local: true };
                if l0.contains(c) {
                    let j = choose|j: int| 0 <= j < i && #[trigger] cands@[j] == want;
                    assert(cands@[j] == want);
                } else if locals@.contains(c) {
                    assert(cands@[i as int] == want);
                }
                if exists|j: int| 0 <= j < i + 1 && #[trigger] cands@[j] == want {
                    let j = choose|j: int| 0 <= j < i + 1 && #[trigger] cands@[j] == want;
                    if j < i {
                        assert(l0.contains(c));
                    }
                }
            }
            i += 1;
        }
        let ghost g1 = globals@;
        let mut extra: Vec<SymbolId> = if var {
            Vec::new()
        } else {
            inferred_classes(self.infer_class_scoped(t, scope))
        };
        let ghost ex = extra@;
        globals.append(&mut extra);
        proof {
            assert(cands@.take(i as int) =~= cands@);
            assert(globals@ =~= g1 + ex);
            assert(inferred_list(f, scope, root, t, ex));
            assert(met_classes(cands@, ex, t) == if globals@.len() > 0 {
                globals@
            } else {
                locals@
            });
            assert forall|c: SymbolId| #[trigger] g1.contains(c) <==> collects(
                f,
                scope,
                root,
                false,
                false,
                Candidate { target: t, class: c, local: false },
            ) by {
                lemma_found(cands@, Candidate { target: t, class: c, local: false });
            }
            assert forall|c: SymbolId| #[trigger] locals@.contains(c) <==> collects(
                f,
                scope,
                root,
                false,
                false,
                Candidate { target: t, class: c, local: true },
            ) by {
                lemma_found(cands@, Candidate { target: t, class: c, local: true });
            }
            assert forall|c: SymbolId| #[trigger] globals@.contains(c) <==> g1.contains(c) || ex.contains(c) by {
                lemma_joined(g1, ex, c);
                assert(globals@ =~= g1 + ex);
            }
            assert forall|c: SymbolId| ex.contains(c) <==> (!var && classes_of(inferred_of(f, scope, t)).contains(c)) by {
            }
            assert(globals@.to_set() =~= global_classes(f, scope, root, t));
            assert(locals@.to_set() =~= local_classes(f, scope, root, t));
        }
        if globals.len() > 0 {
            assert(globals@.to_set().contains(globals@[0]));
            collapse_classes(self, &globals, scope)
        } else {
            assert(globals@.to_set() =~= Set::empty());
            collapse_classes(self, &locals, scope)
        }
    }

    /// The class of each symbol and variable that the formula gives one.
    pub fn classify_formula_scoped(&self, root: SentenceId, scope: Scope) -> (r: Vec<(SymbolId, ClassInference)>)
        requires
            self.wf(),
        ensures
            forall|i: int, j: int| 0 <= i < r@.len() && 0 <= j < r@.len() && i != j ==> (#[trigger] r@[i]).0 != (
            #[trigger] r@[j]).0,
            forall|t: SymbolId| #[trigger] classified(self@, scope, root, t) <==> exists|i: int|
                0 <= i < r@.len() && (#[trigger] r@[i]).0 == t,
            forall|i: int| 0 <= i < r@.len() ==> (#[trigger] r@[i]).1@ == formula_class(self@, scope, root, r@[i].0),
            forall|i: int| 0 <= i < r@.len() ==> listed_once((#[trigger] r@[i]).1),
            exists|l: Seq<Candidate>| #[trigger]
                walk_list(self@, scope, root, false, false, l) && forall|i: int|
                    0 <= i < r@.len() ==> in_met_order(self@, scope, root, l, (#[trigger] r@[i]).0, r@[i].1),
    {
        let ghost f = self@;
        let mut cands: Vec<Candidate> = Vec::new();
        let ghost none = cands@;
        self.collect_class_candidates(root, false, false, scope, &mut cands);
        assert(behind(none, cands@) =~= cands@);
        assert(walk_list(f, scope, root, false, false, cands@));
        let vars = self.syntactic.sentence_vars(root);
        let mut targets: Vec<SymbolId> = Vec::new();
        let mut i: usize = 0;
        while i < cands.len()
            invariant
                i <= cands@.len(),
                targets@.no_duplicates(),
                forall|t: SymbolId| #[trigger] targets@.contains(t) <==> exists|j: int|
                    0 <= j < i && (#[trigger] cands@[j]).target == t,
            decreases cands@.len() - i,
        {
            let t = cands[i].target;
            let ghost before = targets@;
            if !holds_id(&targets, t) {
                proof {
                    lemma_push_contains(targets@, t);
                }
                targets.push(t);
            }
            assert forall|x: SymbolId| #[trigger] targets@.contains(x) <==> exists|j: int|
                0 <= j < i + 1 && (#[trigger] cands@[j]).target == x by {
                if before.contains(x) {
                    let j = choose|j: int| 0 <= j < i && (#[trigger] cands@[j]).target == x;
                    assert(cands@[j].target == x);
                } else if targets@.contains(x) {
                    assert(cands@[i as int].target == x);
                }
                if exists|j: int| 0 <= j < i + 1 && (#[trigger] cands@[j]).target == x {
                    let j = choose|j: int| 0 <= j < i + 1 && (#[trigger] cands@[j]).target == x;
                    if j < i {
                        assert(before.contains(x));
                    }
                }
            }
            i += 1;
        }
        assert forall|t: SymbolId| #[trigger] targets@.contains(t) <==> classified(f, scope, root, t) by {
            if targets@.contains(t) {
                let j = choose|j: int| 0 <= j < cands@.len() && (#[trigger] cands@[j]).target == t;
                assert(cands@.contains(cands@[j]));
                assert(collects(f, scope, root, false, false, cands@[j]));
            }
            if classified(f, scope, root, t) {
                let cd = choose|cd: Candidate| #[trigger]
                    collects(f, scope, root, false, false, cd) && cd.target == t;
                assert(cands@.contains(cd));
                let j = choose|j: int| 0 <= j < cands@.len() && cands@[j] == cd;
                assert(cands@[j].target == t);
            }
        }
        let mut out: Vec<(SymbolId, ClassInference)> = Vec::new();
        let mut i: usize = 0;
        while i < targets.len()
            invariant
                self.wf(),
                f == self@,
                i <= targets@.len(),
                targets@.no_duplicates(),
                forall|cd: Candidate| #[trigger] cands@.contains(cd) <==> collects(f, scope, root, false, false, cd),
                forall|v: SymbolId| #[trigger] vars@.contains(v) <==> has_var(f.layer, root, v),
                out@.len() == i,
                forall|k: int| 0 <= k < i ==> (#[trigger] out@[k]).0 == targets@[k] && out@[k].1@ == formula_class(
                    f,
                    scope,
                    root,
                    out@[k].0,
                ),
                forall|k: int| 0 <= k < i ==> listed_once((#[trigger] out@[k]).1) && in_met_order(
                    f,
                    scope,
                    root,
                    cands@,
                    out@[k].0,
                    out@[k].1,
                ),
            decreases targets@.len() - i,
        {
            let t = targets[i];
            let var = holds_id(&vars, t);
            let c = self.decide_class(root, t, var, &cands, scope);
            out.push((t, c));
            i += 1;
        }
        assert forall|t: SymbolId| #[trigger] classified(f, scope, root, t) <==> exists|k: int|
            0 <= k < out@.len() && (#[trigger] out@[k]).0 == t by {
            if classified(f, scope, root, t) {
                assert(targets@.contains(t));
                let k = choose|k: int| 0 <= k < targets@.len() && targets@[k] == t;
                assert(out@[k].0 == t);
            }
            if exists|k: int| 0 <= k < out@.len() && (#[trigger] out@[k]).0 == t {
                let k = choose|k: int| 0 <= k < out@.len() && (#[trigger] out@[k]).0 == t;
                assert(targets@[k] == t);
                assert(targets@.contains(t));
            }
        }
        out
    }
}

proof fn lemma_found(s: Seq<Candidate>, cd: Candidate)
    ensures
        s.contains(cd) <==> exists|j: int| 0 <= j < s.len() && #[trigger] s[j] == cd,
{
}

proof fn lemma_joined(a: Seq<SymbolId>, b: Seq<SymbolId>, c: SymbolId)
    ensures
        (a + b).contains(c) <==> a.contains(c) || b.contains(c),
{
    if (a + b).contains(c) {
        let k = choose|k: int| 0 <= k < (a + b).len() && (a + b)[k] == c;
        if k < a.len() {
            assert(a[k] == c);
        } else {
            assert(b[k - a.len()] == c);
        }
    }
    if a.contains(c) {
        let k = choose|k: int| 0 <= k < a.len() && a[k] == c;
        assert((a + b)[k] == c);
    }
    if b.contains(c) {
        let k = choose|k: int| 0 <= k < b.len() && b[k] == c;
        assert((a + b)[a.len() + k] == c);
    }
}

/// Some argument of the sentence names the symbol.
pub open spec fn names_arg(ps: Seq<Part>, t: SymbolId) -> bool {
    exists|k: int| 1 <= k < ps.len() && end_id(#[trigger] ps[k]) == Some(t)
}

/// The relation has declared places or a declared range.
pub open spec fn typed(f: Facts, h: SymbolId) -> bool {
    domain_of(f, Scope::Base, h).len() > 0 || range_class(range_of(f, Scope::Base, h)) is Some
}

/// The sentence says something about the class of the symbol.
pub open spec fn bears_on(f: Facts, ps: Seq<Part>, t: SymbolId) -> bool {
    ps.len() > 0 && match ps[0] {
        Part::Sym(h) => if tax_role(f.roles, h) == Some(TaxRelation::Instance) {
            ps.len() > 1 && end_id(ps[1]) == Some(t)
        } else {
            tax_role(f.roles, h) is None && typed(f, h) && names_arg(ps, t)
        },
        Part::Op(op) => op == OpKind::Equal && names_arg(ps, t),
        _ => false,
    }
}

/// An equation among the sentences names a symbol that is the same thing.
pub open spec fn equated_with(f: Facts, bodies: Seq<Seq<Part>>, t: SymbolId) -> bool {
    exists|i: int, u: SymbolId|
        0 <= i < bodies.len() && #[trigger] equation_names(bodies[i], u) && same_thing(f, Scope::Base, u, t)
}

/// The sentence is an equation that names the symbol.
pub open spec fn equation_names(ps: Seq<Part>, u: SymbolId) -> bool {
    ps.len() > 0 && ps[0] == Part::Op(OpKind::Equal) && names_arg(ps, u)
}

/// What is inferred of the symbol can change with the sentences.
pub open spec fn affected(f: Facts, bodies: Seq<Seq<Part>>, t: SymbolId) -> bool {
    (exists|i: int| 0 <= i < bodies.len() && bears_on(f, #[trigger] bodies[i], t)) || equated_with(f, bodies, t)
}

/// The bodies of the stored sentences.
pub open spec fn bodies_of(v: LayerView, sids: Seq<SentenceId>) -> Seq<Seq<Part>>
    decreases sids.len(),
{
    if sids.len() == 0 {
        Seq::empty()
    } else {
        let s = bodies_of(v, sids.drop_last());
        match body(v, sids.last()) {
            Some(ps) => s.push(ps),
            None => s,
        }
    }
}

/// The event makes what is remembered of the symbol untrue.
pub open spec fn forgets_symbol(f: Facts, e: EventView, t: SymbolId) -> bool {
    match e {
        EventView::SymbolsRetracted { syms } => syms.contains(t),
        EventView::RootAdded { sid } => affected(f, bodies_of(f.layer, tree(f.layer.entries, sid)), t),
        EventView::RootRemoved { sentences } => affected(f, sentences, t),
        _ => false,
    }
}

/// The event makes what is remembered in the scope untrue.
pub open spec fn forgets_scope(e: EventView, scope: Scope) -> bool {
    match e {
        EventView::SessionReferenced { session, sids } => scope == Scope::Session(session),
        _ => false,
    }
}

/// The event makes all that is remembered untrue.
pub open spec fn forgets_all(e: EventView) -> bool {
    e is TaxonomyChanged || e is DomainRangeChanged
}

/// What is remembered after the events: nothing once the taxonomy or a
/// declaration changed, else all but what the events are about.
pub open spec fn inferences_left<V>(f: Facts, m: Map<MemoKey, V>, es: Seq<EventView>) -> Map<MemoKey, V> {
    if exists|i: int| 0 <= i < es.len() && forgets_all(#[trigger] es[i]) {
        Map::empty()
    } else {
        m.restrict(Set::new(|k: MemoKey| !forgotten(f, es, k)))
    }
}

/// Some event makes the remembered value untrue.
pub open spec fn forgotten(f: Facts, es: Seq<EventView>, k: MemoKey) -> bool {
    exists|i: int| 0 <= i < es.len() && (forgets_symbol(f, #[trigger] es[i], k.1) || forgets_scope(es[i], k.0))
}

/// Everything remembered is what is inferred, no class listed twice.
pub open spec fn inferences_true(m: Map<MemoKey, ClassInference>, f: Facts) -> bool {
    forall|k: MemoKey| #[trigger] m.dom().contains(k) ==> m[k]@ == inferred_of(f, k.0, k.1) && listed_once(m[k])
}

/// After a change of the taxonomy, or of a declared domain or range, everything
/// remembered is what is inferred of the facts as they are then.
pub proof fn law_swept_inferences_are_true(m: Map<MemoKey, ClassInference>, f: Facts, es: Seq<EventView>)
    requires
        exists|i: int| 0 <= i < es.len() && forgets_all(#[trigger] es[i]),
    ensures
        inferences_true(inferences_left(f, m, es), f),
{
}

/// What symbols were inferred to be, remembered.
pub struct InferredCache {
    pub memo: ScopedMemo<ClassInference>,
}

fn copy_inference(c: &ClassInference) -> (r: ClassInference)
    ensures
        r@ == c@,
        listed_once(*c) ==> listed_once(r),
{
    match c {
        ClassInference::Unknown => ClassInference::Unknown,
        ClassInference::Class => ClassInference::Class,
        ClassInference::Single(x) => ClassInference::Single(*x),
        ClassInference::Multiple(v) => {
            let w = v.clone();
            assert(w@ =~= v@);
            ClassInference::Multiple(w)
        },
    }
}

impl SemanticLayer {
    /// Adds the symbols that the sentence names as arguments.
    fn add_args(s: &Sentence, out: &mut Vec<SymbolId>)
        ensures
            forall|t: SymbolId| #[trigger] final(out)@.contains(t) <==> old(out)@.contains(t) || names_arg(s@, t),
    {
        let ghost start = out@;
        let mut k: usize = 1;
        while k < s.elements.len()
            invariant
                1 <= k,
                s@.len() == s.elements@.len(),
                forall|t: SymbolId| #[trigger] out@.contains(t) <==> start.contains(t) || exists|j: int|
                    1 <= j < k && j < s@.len() && end_id(#[trigger] s@[j]) == Some(t),
            decreases s.elements@.len() - k,
        {
            assert(s@[k as int] == s.elements@[k as int]@);
            let ghost before = out@;
            match target_id(&s.elements[k]) {
                None => {},
                Some(t) => {
                    proof {
                        lemma_push_contains(out@, t);
                    }
                    out.push(t);
                },
            }
            assert forall|t: SymbolId| #[trigger] out@.contains(t) <==> start.contains(t) || exists|j: int|
                1 <= j < k + 1 && j < s@.len() && end_id(#[trigger] s@[j]) == Some(t) by {
                if before.contains(t) && !start.contains(t) {
                    let j = choose|j: int| 1 <= j < k && j < s@.len() && end_id(#[trigger] s@[j]) == Some(t);
                    assert(end_id(s@[j]) == Some(t));
                } else if out@.contains(t) && !before.contains(t) {
                    assert(end_id(s@[k as int]) == Some(t));
                }
                if exists|j: int| 1 <= j < k + 1 && j < s@.len() && end_id(#[trigger] s@[j]) == Some(t) {
                    let j = choose|j: int| 1 <= j < k + 1 && j < s@.len() && end_id(#[trigger] s@[j]) == Some(t);
                    if j < k {
                        assert(before.contains(t));
                    }
                }
            }
            k += 1;
        }
    }

    /// Adds the symbols whose class the sentence says something about, and
    /// those that are the same thing as one in an equation.
    fn add_affected(&self, s: &Sentence, out: &mut Vec<SymbolId>)
        requires
            self.wf(),
        ensures
            forall|t: SymbolId| #[trigger] final(out)@.contains(t) <==> old(out)@.contains(t) || affected(
                self@,
                seq![s@],
                t,
            ),
    {
        let ghost f = self@;
        let ghost start = out@;
        let ghost one = seq![s@];
        assert(one[0] == s@);
        if s.elements.len() == 0 {
            assert forall|t: SymbolId| !affected(f, one, t) by {
                assert forall|u: SymbolId| !equation_names(one[0], u) by {
                }
            }
            return;
        }
        assert(s@[0] == s.elements@[0]@);
        match &s.elements[0] {
            Element::Symbol(head) => {
                let h = head.id();
                match self.roles.tax_role_of(h) {
                    Some(rel) => {
                        if rel == TaxRelation::Instance && s.elements.len() > 1 {
                            assert(s@[1] == s.elements@[1]@);
                            match target_id(&s.elements[1]) {
                                None => {},
                                Some(t) => {
                                    proof {
                                        lemma_push_contains(out@, t);
                                    }
                                    out.push(t);
                                },
                            }
                        }
                    },
                    None => {
                        let domain = self.domain(h);
                        if domain.len() > 0 || self.range(h).id().is_some() {
                            Self::add_args(s, out);
                        }
                    },
                }
                assert forall|t: SymbolId| #[trigger] out@.contains(t) <==> start.contains(t) || affected(f, one, t) by {
                    assert(affected(f, one, t) == bears_on(f, one[0], t)) by {
                        assert forall|u: SymbolId| !equation_names(one[0], u) by {
                        }
                    }
                }
            },
            Element::Op(op) => {
                if *op != OpKind::Equal {
                    assert forall|t: SymbolId| !affected(f, one, t) by {
                        assert forall|u: SymbolId| !equation_names(one[0], u) by {
                        }
                    }
                    return;
                }
                let mut seeds: Vec<SymbolId> = Vec::new();
                Self::add_args(s, &mut seeds);
                let mut i: usize = 0;
                while i < seeds.len()
                    invariant
                        self.wf(),
                        f == self@,
                        i <= seeds@.len(),
                        forall|t: SymbolId| #[trigger] out@.contains(t) <==> start.contains(t) || exists|j: int|
                            0 <= j < i && same_thing(f, Scope::Base, #[trigger] seeds@[j], t),
                    decreases seeds@.len() - i,
                {
                    let ghost before = out@;
                    let mut members = self.equality_component(seeds[i], Scope::Base);
                    let ghost mv = members@;
                    out.append(&mut members);
                    assert forall|t: SymbolId| #[trigger] out@.contains(t) <==> start.contains(t) || exists|j: int|
                        0 <= j < i + 1 && same_thing(f, Scope::Base, #[trigger] seeds@[j], t) by {
                        assert(out@ =~= before + mv);
                        lemma_joined(before, mv, t);
                        assert(mv.contains(t) <==> same_thing(f, Scope::Base, seeds@[i as int], t));
                        if before.contains(t) && !start.contains(t) {
                            let j = choose|j: int| 0 <= j < i && same_thing(f, Scope::Base, #[trigger] seeds@[j], t);
                            assert(same_thing(f, Scope::Base, seeds@[j], t));
                        }
                        if exists|j: int| 0 <= j < i + 1 && same_thing(f, Scope::Base, #[trigger] seeds@[j], t) {
                            let j = choose|j: int| 0 <= j < i + 1 && same_thing(f, Scope::Base, #[trigger] seeds@[j], t);
                            if j < i {
                                assert(before.contains(t));
                            }
                        }
                    }
                    i += 1;
                }
                assert forall|t: SymbolId| #[trigger] out@.contains(t) <==> start.contains(t) || affected(f, one, t) by {
                    if out@.contains(t) && !start.contains(t) {
                        let j = choose|j: int|
                            0 <= j < seeds@.len() && same_thing(f, Scope::Base, #[trigger] seeds@[j], t);
                        assert(seeds@.contains(seeds@[j]));
                        assert(equation_names(one[0], seeds@[j]));
                    }
                    if affected(f, one, t) {
                        if equated_with(f, one, t) {
                            let (i, u) = choose|i: int, u: SymbolId|
                                0 <= i < one.len() && #[trigger] equation_names(one[i], u) && same_thing(
                                    f,
                                    Scope::Base,
                                    u,
                                    t,
                                );
                            assert(seeds@.contains(u));
                            let j = choose|j: int| 0 <= j < seeds@.len() && seeds@[j] == u;
                            assert(same_thing(f, Scope::Base, seeds@[j], t));
                        } else {
                            assert(bears_on(f, one[0], t));
                            assert(seeds@.contains(t));
                            let j = choose|j: int| 0 <= j < seeds@.len() && seeds@[j] == t;
                            assert(crate::inferred::equal_between(f, Scope::Base, t, t, seq![t]));
                            assert(same_thing(f, Scope::Base, seeds@[j], t));
                        }
                    }
                }
            },
            _ => {
                assert forall|t: SymbolId| !affected(f, one, t) by {
                    assert forall|u: SymbolId| !equation_names(one[0], u) by {
                    }
                }
            },
        }
    }

    /// Adds the symbols that the stored sentence and its parts bear on.
    fn add_root(&self, sid: SentenceId, out: &mut Vec<SymbolId>)
        requires
            self.wf(),
        ensures
            forall|t: SymbolId| #[trigger] final(out)@.contains(t) <==> old(out)@.contains(t) || affected(
                self@,
                bodies_of(self@.layer, tree(self@.layer.entries, sid)),
                t,
            ),
    {
        let ghost f = self@;
        let ghost start = out@;
        let sids = self.syntactic.tree_sids(sid);
        let mut i: usize = 0;
        assert(sids@.take(0) =~= Seq::empty());
        proof {
            lemma_nothing_affected(f);
        }
        while i < sids.len()
            invariant
                self.wf(),
                f == self@,
                i <= sids@.len(),
                forall|t: SymbolId| #[trigger] out@.contains(t) <==> start.contains(t) || affected(
                    f,
                    bodies_of(f.layer, sids@.take(i as int)),
                    t,
                ),
            decreases sids@.len() - i,
        {
            assert(sids@.take(i + 1).drop_last() =~= sids@.take(i as int));
            let ghost before = bodies_of(f.layer, sids@.take(i as int));
            match self.syntactic.sentence(sids[i]) {
                None => {},
                Some(s) => {
                    proof {
                        lemma_affected_push(f, before, s@);
                    }
                    self.add_affected(s, out);
                },
            }
            i += 1;
        }
        assert(sids@.take(i as int) =~= sids@);
    }

    /// Adds the symbols that the sentences bear on.
    fn add_sentences(&self, sentences: &Vec<Sentence>, out: &mut Vec<SymbolId>)
        requires
            self.wf(),
        ensures
            forall|t: SymbolId| #[trigger] final(out)@.contains(t) <==> old(out)@.contains(t) || affected(
                self@,
                sentence_views(sentences@),
                t,
            ),
    {
        let ghost f = self@;
        let ghost start = out@;
        let ghost all = sentence_views(sentences@);
        let mut i: usize = 0;
        assert(all.take(0) =~= Seq::empty());
        proof {
            lemma_nothing_affected(f);
        }
        while i < sentences.len()
            invariant
                self.wf(),
                f == self@,
                all == sentence_views(sentences@),
                i <= sentences@.len(),
                forall|t: SymbolId| #[trigger] out@.contains(t) <==> start.contains(t) || affected(f, all.take(i as int), t),
            decreases sentences@.len() - i,
        {
            assert(all.take(i + 1) =~= all.take(i as int).push(sentences@[i as int]@));
            proof {
                lemma_affected_push(f, all.take(i as int), sentences@[i as int]@);
            }
            self.add_affected(&sentences[i], out);
            i += 1;
        }
        assert(all.take(i as int) =~= all);
    }
}

proof fn lemma_nothing_affected(f: Facts)
    ensures
        forall|t: SymbolId| !#[trigger] affected(f, Seq::empty(), t),
{
}

proof fn lemma_affected_push(f: Facts, bodies: Seq<Seq<Part>>, ps: Seq<Part>)
    ensures
        forall|t: SymbolId| #[trigger] affected(f, bodies.push(ps), t) <==> affected(f, bodies, t) || affected(
            f,
            seq![ps],
            t,
        ),
{
    let all = bodies.push(ps);
    let one = seq![ps];
    assert(one[0] == ps);
    assert(all[bodies.len() as int] == ps);
    assert forall|t: SymbolId| #[trigger] affected(f, all, t) <==> affected(f, bodies, t) || affected(f, one, t) by {
        if affected(f, all, t) {
            if equated_with(f, all, t) {
                let (i, u) = choose|i: int, u: SymbolId|
                    0 <= i < all.len() && #[trigger] equation_names(all[i], u) && same_thing(f, Scope::Base, u, t);
                if i < bodies.len() {
                    assert(equation_names(bodies[i], u));
                } else {
                    assert(equation_names(one[0], u));
                }
            } else {
                let i = choose|i: int| 0 <= i < all.len() && bears_on(f, #[trigger] all[i], t);
                if i < bodies.len() {
                    assert(bears_on(f, bodies[i], t));
                } else {
                    assert(bears_on(f, one[0], t));
                }
            }
        }
        if affected(f, bodies, t) {
            if equated_with(f, bodies, t) {
                let (i, u) = choose|i: int, u: SymbolId|
                    0 <= i < bodies.len() && #[trigger] equation_names(bodies[i], u) && same_thing(f, Scope::Base, u, t);
                assert(equation_names(all[i], u));
            } else {
                let i = choose|i: int| 0 <= i < bodies.len() && bears_on(f, #[trigger] bodies[i], t);
                assert(bears_on(f, all[i], t));
            }
        }
        if affected(f, one, t) {
            if equated_with(f, one, t) {
                let (i, u) = choose|i: int, u: SymbolId|
                    0 <= i < one.len() && #[trigger] equation_names(one[i], u) && same_thing(f, Scope::Base, u, t);
                assert(equation_names(all[bodies.len() as int], u));
            } else {
                let i = choose|i: int| 0 <= i < one.len() && bears_on(f, #[trigger] one[i], t);
                assert(bears_on(f, all[bodies.len() as int], t));
            }
        }
    }
}

fn any_forgets_all(events: &Vec<Event>) -> (r: bool)
    ensures
        r == exists|i: int| 0 <= i < events@.len() && forgets_all(#[trigger] event_views(events@)[i]),
{
    let ghost evs = event_views(events@);
    let mut i: usize = 0;
    while i < events.len()
        invariant
            evs == event_views(events@),
            i <= events@.len(),
            forall|j: int| 0 <= j < i ==> !forgets_all(#[trigger] evs[j]),
        decreases events@.len() - i,
    {
        assert(evs[i as int] == events@[i as int]@);
        match &events[i] {
            Event::TaxonomyChanged { .. } => {
                assert(forgets_all(evs[i as int]));
                return true;
            },
            Event::DomainRangeChanged { .. } => {
                assert(forgets_all(evs[i as int]));
                return true;
            },
            _ => {},
        }
        i += 1;
    }
    false
}

impl InferredCache {
    /// Nothing remembered.
    pub fn new() -> (c: InferredCache)
        ensures
            c.memo.wf(),
            c.memo@ == Map::<MemoKey, ClassInference>::empty(),
    {
        InferredCache { memo: ScopedMemo::new() }
    }

    /// What the symbol is, as remembered, else as computed and then
    /// remembered.
    pub fn get(&mut self, layer: &SemanticLayer, sym: SymbolId, scope: Scope) -> (r: ClassInference)
        requires
            old(self).memo.wf(),
            layer.wf(),
        ensures
            final(self).memo.wf(),
            final(self).memo@.dom() == old(self).memo@.dom().insert((scope, sym)),
            forall|k: MemoKey| #[trigger]
                old(self).memo@.dom().contains(k) ==> final(self).memo@[k] == old(self).memo@[k],
            final(self).memo@[(scope, sym)]@ == r@,
            !old(self).memo@.dom().contains((scope, sym)) ==> r@ == inferred_of(layer@, scope, sym) && listed_once(r),
            inferences_true(old(self).memo@, layer@) ==> inferences_true(final(self).memo@, layer@) && r@
                == inferred_of(layer@, scope, sym) && listed_once(r),
    {
        match self.memo.peek(scope, sym) {
            Some(v) => {
                assert(self.memo@.dom() =~= self.memo@.dom().insert((scope, sym)));
                return copy_inference(v);
            },
            None => {},
        }
        let v = layer.infer_class_scoped(sym, scope);
        let out = copy_inference(&v);
        self.memo.put(scope, sym, v);
        assert(self.memo@.dom() =~= old(self).memo@.dom().insert((scope, sym)));
        out
    }

    /// Takes in the events and forgets what they are about.
    pub fn react(&mut self, layer: &SemanticLayer, events: &Vec<Event>)
        requires
            old(self).memo.wf(),
            layer.wf(),
        ensures
            final(self).memo.wf(),
            final(self).memo@ == inferences_left(layer@, old(self).memo@, event_views(events@)),
    {
        let ghost f = layer@;
        let ghost evs = event_views(events@);
        let ghost start = self.memo@;
        if any_forgets_all(events) {
            self.memo.clear();
            return;
        }
        let mut evict: Vec<SymbolId> = Vec::new();
        let mut i: usize = 0;
        assert(self.memo@ =~= start.restrict(
            Set::new(|k: MemoKey| !(exists|j: int| 0 <= j < 0 && forgets_scope(#[trigger] evs[j], k.0))),
        ));
        while i < events.len()
            invariant
                self.memo.wf(),
                layer.wf(),
                f == layer@,
                evs == event_views(events@),
                i <= events@.len(),
                forall|t: SymbolId| #[trigger] evict@.contains(t) <==> exists|j: int|
                    0 <= j < i && forgets_symbol(f, #[trigger] evs[j], t),
                self.memo@ == start.restrict(
                    Set::new(|k: MemoKey| !(exists|j: int| 0 <= j < i && forgets_scope(#[trigger] evs[j], k.0))),
                ),
            decreases events@.len() - i,
        {
            assert(evs[i as int] == events@[i as int]@);
            let ghost before = evict@;
            let ghost mid = self.memo@;
            match &events[i] {
                Event::SymbolsRetracted { syms } => {
                    let mut more = syms.clone();
                    let ghost mv = more@;
                    assert(mv =~= syms@);
                    evict.append(&mut more);
                    assert forall|t: SymbolId| #[trigger] evict@.contains(t) <==> before.contains(t) || mv.contains(t) by {
                        assert(evict@ =~= before + mv);
                        lemma_joined(before, mv, t);
                    }
                },
                Event::RootAdded { sid } => {
                    layer.add_root(*sid, &mut evict);
                },
                Event::RootRemoved { sentences } => {
                    layer.add_sentences(sentences, &mut evict);
                },
                Event::SessionReferenced { session, .. } => {
                    self.memo.drop_scope(Scope::Session(session_id(session.as_str())));
                },
                _ => {},
            }
            assert forall|t: SymbolId| #[trigger] evict@.contains(t) <==> before.contains(t) || forgets_symbol(
                f,
                evs[i as int],
                t,
            ) by {
            }
            assert forall|t: SymbolId| #[trigger] evict@.contains(t) <==> exists|j: int|
                0 <= j < i + 1 && forgets_symbol(f, #[trigger] evs[j], t) by {
                if before.contains(t) {
                    let j = choose|j: int| 0 <= j < i && forgets_symbol(f, #[trigger] evs[j], t);
                    assert(forgets_symbol(f, evs[j], t));
                } else if evict@.contains(t) {
                    assert(forgets_symbol(f, evs[i as int], t));
                }
                if exists|j: int| 0 <= j < i + 1 && forgets_symbol(f, #[trigger] evs[j], t) {
                    let j = choose|j: int| 0 <= j < i + 1 && forgets_symbol(f, #[trigger] evs[j], t);
                    if j < i {
                        assert(before.contains(t));
                    }
                }
            }
            assert(self.memo@ =~= start.restrict(
                Set::new(|k: MemoKey| !(exists|j: int| 0 <= j < i + 1 && forgets_scope(#[trigger] evs[j], k.0))),
            )) by {
                assert forall|k: MemoKey| self.memo@.dom().contains(k) <==> mid.dom().contains(k) && !forgets_scope(
                    evs[i as int],
                    k.0,
                ) by {
                }
                assert forall|k: MemoKey|
                    (exists|j: int| 0 <= j < i + 1 && forgets_scope(#[trigger] evs[j], k.0)) <==> (exists|j: int|
                        0 <= j < i && forgets_scope(#[trigger] evs[j], k.0)) || forgets_scope(evs[i as int], k.0) by {
                    if exists|j: int| 0 <= j < i && forgets_scope(#[trigger] evs[j], k.0) {
                        let j = choose|j: int| 0 <= j < i && forgets_scope(#[trigger] evs[j], k.0);
                        assert(forgets_scope(evs[j], k.0));
                    }
                }
            }
            i += 1;
        }
        let ghost scoped = self.memo@;
        self.memo.evict(&evict);
        assert(self.memo@ =~= inferences_left(f, start, evs)) by {
            assert forall|k: MemoKey| self.memo@.dom().contains(k) <==> start.dom().contains(k) && !forgotten(f, evs, k) by {
                if forgotten(f, evs, k) {
                    let j = choose|j: int|
                        0 <= j < evs.len() && (forgets_symbol(f, #[trigger] evs[j], k.1) || forgets_scope(evs[j], k.0));
                    if forgets_symbol(f, evs[j], k.1) {
                        assert(evict@.contains(k.1));
                    } else {
                        assert(forgets_scope(evs[j], k.0));
                    }
                }
                if start.dom().contains(k) && !self.memo@.dom().contains(k) {
                    if evict@.contains(k.1) {
                        let j = choose|j: int| 0 <= j < evs.len() && forgets_symbol(f, #[trigger] evs[j], k.1);
                        assert(forgets_symbol(f, evs[j], k.1));
                    } else {
                        assert(!scoped.dom().contains(k));
                        let j = choose|j: int| 0 <= j < evs.len() && forgets_scope(#[trigger] evs[j], k.0);
                        assert(forgets_scope(evs[j], k.0));
                    }
                }
            }
        }
    }
}

// ---------------------------------------------------------------------------
// What the parts of a formula say of its terms
// ---------------------------------------------------------------------------

proof fn lemma_part_collects(
    f: Facts,
    scope: Scope,
    sid: SentenceId,
    n: nat,
    k: int,
    child: SentenceId,
    local: bool,
    negated: bool,
    cd: Candidate,
)
    requires
        entries_ordered(f.layer.entries),
        stored(f.layer.entries, sid),
        1 <= k < n <= f.layer.entries[place(f.layer.entries, sid)].parts.len(),
        f.layer.entries[place(f.layer.entries, sid)].parts[k] == Part::Sub(child),
        collects(f, scope, child, local, negated, cd),
    ensures
        collects_parts(f, scope, sid, n, local, negated, cd),
    decreases n,
{
    if k < n - 1 {
        lemma_part_collects(f, scope, sid, (n - 1) as nat, k, child, local, negated, cd);
    }
}

proof fn lemma_some_part_collects(
    f: Facts,
    scope: Scope,
    sid: SentenceId,
    n: nat,
    local: bool,
    negated: bool,
    cd: Candidate,
) -> (r: (int, SentenceId))
    requires
        entries_ordered(f.layer.entries),
        collects_parts(f, scope, sid, n, local, negated, cd),
    ensures
        stored(f.layer.entries, sid),
        1 <= r.0 < n <= f.layer.entries[place(f.layer.entries, sid)].parts.len(),
        f.layer.entries[place(f.layer.entries, sid)].parts[r.0] == Part::Sub(r.1),
        collects(f, scope, r.1, local, negated, cd),
    decreases n,
{
    if collects_parts(f, scope, sid, (n - 1) as nat, local, negated, cd) {
        lemma_some_part_collects(f, scope, sid, (n - 1) as nat, local, negated, cd)
    } else {
        let parts = f.layer.entries[place(f.layer.entries, sid)].parts;
        (n - 1, parts[n - 1]->Sub_0)
    }
}

/// The sentence joins the others under the operator, and `child` is one of them.
pub open spec fn joins(v: LayerView, sid: SentenceId, op: OpKind, k: int, child: SentenceId) -> bool {
    body(v, sid) matches Some(ps) && 1 <= k < ps.len() && ps[0] == Part::Op(op) && ps[k] == Part::Sub(child)
}

/// What a conjunct says of a term the conjunction says, just as strongly; what stands
/// under a disjunction, an implication, an equivalence or a quantifier is said only inside
/// the formula; and what is denied twice is said.
pub proof fn law_parts_speak_through_their_whole(
    f: Facts,
    scope: Scope,
    sid: SentenceId,
    op: OpKind,
    k: int,
    child: SentenceId,
    local: bool,
    negated: bool,
    cd: Candidate,
)
    requires
        entries_ordered(f.layer.entries),
        joins(f.layer, sid, op, k, child),
    ensures
        op == OpKind::And && collects(f, scope, child, local, negated, cd) ==> collects(f, scope, sid, local, negated, cd),
        op == OpKind::Not && collects(f, scope, child, true, !negated, cd) ==> collects(f, scope, sid, local, negated, cd),
        op != OpKind::And && op != OpKind::Not && op != OpKind::Equal && collects(f, scope, child, true, negated, cd)
            ==> collects(f, scope, sid, local, negated, cd),
{
    let ps = f.layer.entries[place(f.layer.entries, sid)].parts;
    assert(body(f.layer, sid) == Some(ps));
    let l = local || !(op == OpKind::And || op == OpKind::Equal);
    let n = negated != (op == OpKind::Not);
    if collects(f, scope, child, l, n, cd) {
        lemma_part_collects(f, scope, sid, ps.len(), k, child, l, n, cd);
    }
}

/// What a formula under an operator says, some part of it says: a conjunction nothing that
/// no conjunct says, and a negation nothing but what its part denies.
pub proof fn law_wholes_say_what_their_parts_say(
    f: Facts,
    scope: Scope,
    sid: SentenceId,
    ps: Seq<Part>,
    op: OpKind,
    local: bool,
    negated: bool,
    cd: Candidate,
)
    requires
        entries_ordered(f.layer.entries),
        body(f.layer, sid) == Some(ps),
        ps.len() > 0,
        ps[0] == Part::Op(op),
        op != OpKind::Equal,
        collects(f, scope, sid, local, negated, cd),
    ensures
        exists|k: int, child: SentenceId| #[trigger]
            joins(f.layer, sid, op, k, child) && collects(
                f,
                scope,
                child,
                local || op != OpKind::And,
                negated != (op == OpKind::Not),
                cd,
            ),
{
    assert(ps == f.layer.entries[place(f.layer.entries, sid)].parts);
    let r = lemma_some_part_collects(
        f,
        scope,
        sid,
        ps.len(),
        local || op != OpKind::And,
        negated != (op == OpKind::Not),
        cd,
    );
    assert(joins(f.layer, sid, op, r.0, r.1));
}

/// What is said inside a formula is never said everywhere.
pub proof fn law_local_stays_local(f: Facts, scope: Scope, sid: SentenceId, negated: bool, cd: Candidate)
    requires
        entries_ordered(f.layer.entries),
        collects(f, scope, sid, true, negated, cd),
    ensures
        cd.local,
    decreases tree_rank(f.layer.entries, sid),
{
    let ps = f.layer.entries[place(f.layer.entries, sid)].parts;
    match ps[0] {
        Part::Op(op) => {
            let n = negated != (op == OpKind::Not);
            if collects_parts(f, scope, sid, ps.len(), true, n, cd) {
                let r = lemma_some_part_collects(f, scope, sid, ps.len(), true, n, cd);
                lemma_tree_rank(f.layer.entries, sid, r.0, r.1);
                law_local_stays_local(f, scope, r.1, n, cd);
            }
        },
        _ => {
            if collects_parts(f, scope, sid, ps.len(), true, negated, cd) {
                let r = lemma_some_part_collects(f, scope, sid, ps.len(), true, negated, cd);
                lemma_tree_rank(f.layer.entries, sid, r.0, r.1);
                law_local_stays_local(f, scope, r.1, negated, cd);
            }
        },
    }
}

/// A denied atom says nothing of its own arguments; one that is not denied gives the
/// subject of an instance its class, and an argument of any other relation the class of
/// its place.
pub proof fn law_what_an_atom_says(
    f: Facts,
    scope: Scope,
    sid: SentenceId,
    ps: Seq<Part>,
    h: SymbolId,
    local: bool,
    negated: bool,
    cd: Candidate,
)
    requires
        entries_ordered(f.layer.entries),
        body(f.layer, sid) == Some(ps),
        ps.len() > 0,
        ps[0] == Part::Sym(h),
        forall|k: int| 1 <= k < ps.len() ==> !(#[trigger] ps[k] is Sub),
    ensures
        negated ==> !collects(f, scope, sid, local, negated, cd),
        !negated && h == f.roles.instance && ps.len() > 2 && ps[1] == Part::Sym(cd.target) && ps[2] == Part::Sym(cd.class)
            && cd.local == local ==> collects(f, scope, sid, local, negated, cd),
        !negated && h == f.roles.instance && ps.len() > 2 && ps[1] == Part::Var(cd.target, false) && ps[2]
            == Part::Sym(cd.class) && cd.local == local ==> collects(f, scope, sid, local, negated, cd),
        !negated && h != f.roles.instance && cd.local == local && (exists|k: int|
            1 <= k < ps.len() && k - 1 < domain_of(f, scope, h).len() && (#[trigger] ps[k] == Part::Sym(cd.target) || ps[k]
                == Part::Var(cd.target, false)) && domain_of(f, scope, h)[k - 1] == RelationDomain::Domain(
                cd.class,
            )) ==> collects(f, scope, sid, local, negated, cd),
        collects(f, scope, sid, local, negated, cd) ==> cd.local == local && ps.len() > 1 && exists|k: int|
            1 <= k < ps.len() && (#[trigger] ps[k] == Part::Sym(cd.target) || ps[k] == Part::Var(cd.target, false)),
{
    assert(ps == f.layer.entries[place(f.layer.entries, sid)].parts);
    if collects_parts(f, scope, sid, ps.len(), local, negated, cd) {
        let r = lemma_some_part_collects(f, scope, sid, ps.len(), local, negated, cd);
        assert(ps[r.0] is Sub);
    }
    if !negated && h != f.roles.instance {
        if exists|k: int|
            1 <= k < ps.len() && k - 1 < domain_of(f, scope, h).len() && (#[trigger] ps[k] == Part::Sym(cd.target) || ps[k]
                == Part::Var(cd.target, false)) && domain_of(f, scope, h)[k - 1] == RelationDomain::Domain(
                cd.class,
            ) {
            let k = choose|k: int|
                1 <= k < ps.len() && k - 1 < domain_of(f, scope, h).len() && (#[trigger] ps[k] == Part::Sym(cd.target) || ps[k]
                    == Part::Var(cd.target, false)) && domain_of(f, scope, h)[k - 1] == RelationDomain::Domain(
                    cd.class,
                );
            assert(placed_at(f, scope, ps, h, cd.target, cd.class, k));
        }
    }
    if collects(f, scope, sid, local, negated, cd) {
        if h == f.roles.instance {
            assert(end_id(ps[1]) == Some(cd.target));
        } else {
            let k = choose|k: int| #[trigger] placed_at(f, scope, ps, h, cd.target, cd.class, k);
            assert(end_id(ps[k]) == Some(cd.target));
        }
    }
}

/// An equation says the same of its sides whichever stands first.
pub proof fn law_sides_may_change_places(f: Facts, scope: Scope, a: Part, b: Part, t: SymbolId, c: SymbolId)
    ensures
        sides_give(f, scope, seq![Part::Op(OpKind::Equal), a, b], t, c) == sides_give(
            f,
            scope,
            seq![Part::Op(OpKind::Equal), b, a],
            t,
            c,
        ),
        (a == Part::Sym(t) || a == Part::Var(t, false)) && (b matches Part::Sub(s) && (body(f.layer, s) matches Some(
            qs,
        ) && qs.len() > 0 && (qs[0] matches Part::Sym(h) && range_of(f, scope, h) == RelationRange::Range(c))))
            ==> sides_give(f, scope, seq![Part::Op(OpKind::Equal), b, a], t, c),
{
}

/// The classes of a term in a formula are the most specific of those that hold everywhere;
/// those that hold only inside it count where there are no others.
pub proof fn law_what_holds_everywhere_comes_first(f: Facts, scope: Scope, root: SentenceId, t: SymbolId, c: SymbolId)
    requires
        collects(f, scope, root, false, false, Candidate { target: t, class: c, local: false }),
    ensures
        formula_class(f, scope, root, t) == collapsed(f.edges, scope, global_classes(f, scope, root, t)),
        global_classes(f, scope, root, t).contains(c),
{
    assert(global_classes(f, scope, root, t).contains(c));
}

/// What is remembered of a retracted symbol is forgotten in every scope, and all that is
/// remembered for a session once it takes hold of sentences; a change of the taxonomy or of
/// the signatures leaves nothing.
pub proof fn law_what_is_forgotten<V>(f: Facts, m: Map<MemoKey, V>, es: Seq<EventView>, i: int, k: MemoKey)
    requires
        0 <= i < es.len(),
    ensures
        es[i] matches EventView::SymbolsRetracted { syms } ==> syms.contains(k.1) ==> !inferences_left(f, m, es).dom().contains(
            k,
        ),
        es[i] matches EventView::SessionReferenced { session, .. } ==> k.0 == Scope::Session(session) ==> !inferences_left(
            f,
            m,
            es,
        ).dom().contains(k),
        es[i] is TaxonomyChanged || es[i] is DomainRangeChanged ==> !inferences_left(f, m, es).dom().contains(k),
        inferences_left(f, m, es).dom().contains(k) ==> m.dom().contains(k) && inferences_left(f, m, es)[k] == m[k],
{
    if forgets_all(es[i]) {
        assert(exists|i: int| 0 <= i < es.len() && forgets_all(#[trigger] es[i]));
    }
    if forgets_symbol(f, es[i], k.1) || forgets_scope(es[i], k.0) {
        assert(forgotten(f, es, k));
    }
}

proof fn lemma_classes_for(l: Seq<Candidate>, t: SymbolId, local: bool, c: SymbolId)
    ensures
        classes_for(l, t, local).contains(c) <==> l.contains(Candidate { target: t, class: c, local }),
    decreases l.len(),
{
    if l.len() > 0 {
        let d = l.drop_last();
        let s = classes_for(d, t, local);
        let cd = Candidate { target: t, class: c, local };
        lemma_classes_for(d, t, local, c);
        crate::store::lemma_push_contains(s, l.last().class);
        assert(l.contains(cd) <==> d.contains(cd) || l.last() == cd) by {
            if l.contains(cd) {
                let k = choose|k: int| 0 <= k < l.len() && l[k] == cd;
                if k < d.len() {
                    assert(d[k] == cd);
                }
            }
            if d.contains(cd) {
                let k = choose|k: int| 0 <= k < d.len() && d[k] == cd;
                assert(l[k] == cd);
            }
            if l.last() == cd {
                assert(l[l.len() - 1] == cd);
            }
        }
    }
}

/// Of the classes of a term those that the formula gives everywhere are met first, in the
/// order of the formula, and behind them what the term is inferred to be; those that the
/// formula gives only inside are met where there are no others.
pub proof fn law_what_is_met_first(l: Seq<Candidate>, inferred: Seq<SymbolId>, t: SymbolId, c: SymbolId)
    ensures
        ({
            let g = classes_for(l, t, false);
            let m = met_classes(l, inferred, t);
            &&& g.len() + inferred.len() > 0 ==> m.len() == g.len() + inferred.len() && m.take(g.len() as int) == g && m.skip(
                g.len() as int,
            ) == inferred
            &&& g.len() + inferred.len() == 0 ==> m == classes_for(l, t, true)
            &&& g.contains(c) <==> l.contains(Candidate { target: t, class: c, local: false })
            &&& classes_for(l, t, true).contains(c) <==> l.contains(Candidate { target: t, class: c, local: true })
        }),
{
    let g = classes_for(l, t, false);
    assert((g + inferred).take(g.len() as int) =~= g);
    assert((g + inferred).skip(g.len() as int) =~= inferred);
    lemma_classes_for(l, t, false, c);
    lemma_classes_for(l, t, true, c);
}

} // verus!
