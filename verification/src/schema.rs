//! Recognition of theory-rule clauses: symmetry, transitivity, antisymmetry,
//! irreflexivity, inverse pairs, substitution of equals, and the second-order
//! rules that generate them.
//!
//! A clause's fingerprint sums the coins of its literals in the field of 2^64
//! elements.  The coin of a literal with a symbol head carries the head as a
//! factor, so dividing by that factor leaves a key that is the same for every
//! relation.  A key found in the table is only a hint: a structural test
//! decides.
use vstd::prelude::*;

use std::collections::HashMap;

use xxhash_rust::xxh64::xxh64;

use crate::canon::{canonical, slot_of, slotted, CanonVars};
use crate::clause::{canonical_clause, canonical_form, lit_views, LitView, PLit};
use crate::gf64::{
    cube, cubed, inv, inverse, law_cube_multiplies, law_inverse, law_product_adds_left,
    law_product_associates, law_product_one, product,
};
use crate::hashing::xxh64_digest;
use crate::small::ByteBuf;
use crate::subst::{inst, insts, lemma_inst_app};
use crate::term::{first_name, lemma_app_view, sym_name, views, Term, Tree};
use crate::text::{be_bytes, be_bytes_u32, push_be};
use crate::types::{name_id, OpKind, Symbol, SymbolId};

verus! {

broadcast use lemma_app_view;

/// The seed of the literal coins.
pub const SCHEMA_SEED: u64 = 0x5CE3_A5C4_E3A5_C4E3;

/// The seed of the head factors.
pub const HEAD_SEED: u64 = SCHEMA_SEED ^ 0x4EAD;

/// The seed of the table keys.
pub const KEY_SEED: u64 = SCHEMA_SEED ^ 0x6E9;

/// The head factor of an equation.
pub const H_EQ: u64 = 0xE90A_117E_9A11_7E01;

/// The head factor of a literal with a variable head.
pub const H_VAR: u64 = 0x7A4E_AD5C_0FFE_E011;

/// The kinds of theory rules.
#[derive(Clone, Copy, Debug, PartialEq, Eq, Structural)]
pub enum SchemaKind {
    /// not R(x, y), or R(y, x)
    Symmetry,
    /// not R(x, y), or not R(y, z), or R(x, z)
    Transitivity,
    /// not R(x, y), or not R(y, x), or x = y
    Antisymmetry,
    /// not R(x, x)
    Irreflexivity,
    /// not R1(x, y), or R2(y, x)
    Inverse,
    /// symmetry of every instance of `SymmetricRelation`
    SymMetaschema,
    /// not x = y, or not R(.. x ..), or R(.. y ..)
    EqSubstitution,
    /// transitivity of every instance of `TransitiveRelation`
    TransMetaschema,
}

/// An argument: a variable by its slot, or a symbol.
#[derive(Clone, Copy, Debug, PartialEq, Eq, Structural)]
pub enum ArgK {
    Slot(u32),
    Sym(SymbolId),
}

/// The head of a literal.
pub enum HeadK {
    Sym(Symbol),
    Eq,
    Var(u32),
}

/// The head of a literal, a symbol by its identity.
pub enum HeadView {
    Sym(SymbolId),
    Eq,
    Var(u32),
}

/// The shape of a binary literal.
pub struct LitShape {
    pub pos: bool,
    pub head: HeadK,
    pub a: ArgK,
    pub b: ArgK,
}

/// The shape of a binary literal, its head by identity.
pub struct Shape {
    pub pos: bool,
    pub head: HeadView,
    pub a: ArgK,
    pub b: ArgK,
}

impl View for HeadK {
    type V = HeadView;

    open spec fn view(&self) -> HeadView {
        match self {
            HeadK::Sym(s) => HeadView::Sym(s.id_spec()),
            HeadK::Eq => HeadView::Eq,
            HeadK::Var(v) => HeadView::Var(*v),
        }
    }
}

impl View for LitShape {
    type V = Shape;

    open spec fn view(&self) -> Shape {
        Shape { pos: self.pos, head: self.head@, a: self.a, b: self.b }
    }
}

/// The views of the shapes.
pub open spec fn shape_views(s: Seq<LitShape>) -> Seq<Shape> {
    Seq::new(s.len(), |i: int| s[i]@)
}

// ---------------------------------------------------------------------------
// Reading shapes
// ---------------------------------------------------------------------------

/// The head of a literal whose first element is `t`.
pub open spec fn head_of(t: Tree) -> Option<HeadView> {
    match t {
        Tree::Sym(id) => Some(HeadView::Sym(id)),
        Tree::Op(OpKind::Equal) => Some(HeadView::Eq),
        Tree::Var(v) => if 0 <= v <= u32::MAX {
            Some(HeadView::Var(v as u32))
        } else {
            None
        },
        _ => None,
    }
}

/// The argument that `t` stands for.
pub open spec fn arg_of(t: Tree) -> Option<ArgK> {
    match t {
        Tree::Var(v) => if 0 <= v <= u32::MAX {
            Some(ArgK::Slot(v as u32))
        } else {
            None
        },
        Tree::Sym(id) => Some(ArgK::Sym(id)),
        _ => None,
    }
}

/// The shape of a literal in slot form.  Only binary atoms over variables and
/// symbols have one.
pub open spec fn shape_of(pos: bool, t: Tree) -> Option<Shape> {
    match t {
        Tree::App(ts) => if ts.len() == 3 && head_of(ts[0]) is Some && arg_of(ts[1]) is Some
            && arg_of(ts[2]) is Some {
            Some(
                Shape { pos, head: head_of(ts[0])->0, a: arg_of(ts[1])->0, b: arg_of(ts[2])->0 },
            )
        } else {
            None
        },
        _ => None,
    }
}

/// The shapes of the literals, if each has one.
pub open spec fn shapes_of(lits: Seq<LitView>) -> Option<Seq<Shape>> {
    if forall|i: int| 0 <= i < lits.len() ==> shape_of(lits[i].pos, (#[trigger] lits[i]).term) is Some {
        Some(Seq::new(lits.len(), |i: int| shape_of(lits[i].pos, lits[i].term)->0))
    } else {
        None
    }
}

/// The name of the symbol that is the head.
pub open spec fn head_name(h: HeadK) -> Option<Seq<char>> {
    match h {
        HeadK::Sym(s) => Some(s.name_spec()),
        _ => None,
    }
}

fn read_head(t: &Term) -> (r: Option<HeadK>)
    ensures
        match r {
            Some(h) => head_of(t@) == Some(h@),
            None => head_of(t@) is None,
        },
        r matches Some(h) ==> head_name(h) == sym_name(*t),
{
    match t {
        Term::Sym(s) => Some(HeadK::Sym(s.clone())),
        Term::Op(op) => {
            if *op == OpKind::Equal {
                Some(HeadK::Eq)
            } else {
                None
            }
        },
        Term::Var(v) => {
            if *v <= u32::MAX as u64 {
                Some(HeadK::Var(*v as u32))
            } else {
                None
            }
        },
        _ => None,
    }
}

fn read_arg(t: &Term) -> (r: Option<ArgK>)
    ensures
        r == arg_of(t@),
{
    match t {
        Term::Var(v) => {
            if *v <= u32::MAX as u64 {
                Some(ArgK::Slot(*v as u32))
            } else {
                None
            }
        },
        Term::Sym(s) => Some(ArgK::Sym(s.id())),
        _ => None,
    }
}

/// The shape of a literal in slot form.
pub fn shape_of_term(pos: bool, t: &Term) -> (r: Option<LitShape>)
    ensures
        match r {
            Some(s) => shape_of(pos, t@) == Some(s@),
            None => shape_of(pos, t@) is None,
        },
        r matches Some(s) ==> head_name(s.head) == first_name(*t),
{
    let elems: &Vec<Term> = match t {
        Term::App(elems) => elems,
        _ => {
            return None;
        },
    };
    let ghost ts = views(elems@);
    assert(t@ == Tree::App(ts));
    if elems.len() != 3 {
        return None;
    }
    assert(ts[0] == elems@[0]@ && ts[1] == elems@[1]@ && ts[2] == elems@[2]@);
    let head: HeadK = match read_head(&elems[0]) {
        Some(h) => h,
        None => {
            return None;
        },
    };
    let a: ArgK = match read_arg(&elems[1]) {
        Some(a) => a,
        None => {
            return None;
        },
    };
    let b: ArgK = match read_arg(&elems[2]) {
        Some(b) => b,
        None => {
            return None;
        },
    };
    Some(LitShape { pos, head, a, b })
}

/// The shape of a literal over canonical variables: that of its slot form.
pub fn shape_of_sentence(pos: bool, t: &Term, canon: &CanonVars) -> (r: Option<LitShape>)
    requires
        canon@.len() <= u32::MAX,
    ensures
        match r {
            Some(s) => canonical(canon@, t@) && shape_of(pos, slotted(canon@, 0, t@)) == Some(s@),
            None => !canonical(canon@, t@) || shape_of(pos, slotted(canon@, 0, t@)) is None,
        },
        r matches Some(s) ==> head_name(s.head) == first_name(*t),
{
    match canon.reslot(t, 0) {
        Some(u) => shape_of_term(pos, &u),
        None => None,
    }
}

// ---------------------------------------------------------------------------
// The rules
// ---------------------------------------------------------------------------

/// The literal `head(x, y)` over two slots.
pub open spec fn lit(pos: bool, head: HeadView, x: u32, y: u32) -> Shape {
    Shape { pos, head, a: ArgK::Slot(x), b: ArgK::Slot(y) }
}

/// The three positions are 0, 1 and 2 in some order.
pub open spec fn places(i: int, j: int, k: int) -> bool {
    &&& 0 <= i < 3
    &&& 0 <= j < 3
    &&& 0 <= k < 3
    &&& i != j
    &&& j != k
    &&& i != k
}

/// The two literals `not h(x, y)` and `g(y, x)`, in either order.
pub open spec fn reversal(ss: Seq<Shape>, h: HeadView, g: HeadView, x: u32, y: u32) -> bool {
    &&& ss.len() == 2
    &&& x != y
    &&& {
        ||| ss[0] == lit(false, h, x, y) && ss[1] == lit(true, g, y, x)
        ||| ss[1] == lit(false, h, x, y) && ss[0] == lit(true, g, y, x)
    }
}

/// The three literals `not h(x, m)`, `not h(m, z)` and `h(x, z)`, at the places
/// `i`, `j` and `k`.
pub open spec fn composition(
    ss: Seq<Shape>,
    h: HeadView,
    x: u32,
    m: u32,
    z: u32,
    i: int,
    j: int,
    k: int,
) -> bool {
    &&& ss.len() == 3
    &&& places(i, j, k)
    &&& x != z
    &&& m != x
    &&& m != z
    &&& ss[i] == lit(false, h, x, m)
    &&& ss[j] == lit(false, h, m, z)
    &&& ss[k] == lit(true, h, x, z)
}

/// The clause is the symmetry of `h`.
pub open spec fn symmetric(ss: Seq<Shape>, h: HeadView) -> bool {
    exists|x: u32, y: u32| reversal(ss, h, h, x, y)
}

/// The clause is the transitivity of `h`.
pub open spec fn transitive(ss: Seq<Shape>, h: HeadView) -> bool {
    exists|x: u32, m: u32, z: u32, i: int, j: int, k: int| composition(ss, h, x, m, z, i, j, k)
}

/// The three literals `not R(x, y)`, `not R(y, x)` and `x = y`.
pub open spec fn collapse(ss: Seq<Shape>, r: SymbolId, x: u32, y: u32, i: int, j: int, k: int) -> bool {
    let h = HeadView::Sym(r);
    &&& ss.len() == 3
    &&& places(i, j, k)
    &&& x != y
    &&& ss[i] == lit(false, h, x, y)
    &&& ss[j] == lit(false, h, y, x)
    &&& ss[k] == lit(true, HeadView::Eq, x, y) || ss[k] == lit(true, HeadView::Eq, y, x)
}

/// The two arguments are the two variables `p` and `q`, in either order.
pub open spec fn swaps(n: ArgK, m: ArgK, p: u32, q: u32) -> bool {
    ||| n == ArgK::Slot(p) && m == ArgK::Slot(q)
    ||| n == ArgK::Slot(q) && m == ArgK::Slot(p)
}

/// The three literals `not p = q`, `not R(..)` and `R(..)`, where the two
/// atoms differ in one seat alone, `p` for `q` or `q` for `p`.
pub open spec fn substitution(ss: Seq<Shape>, r: SymbolId, p: u32, q: u32, i: int, j: int, k: int) -> bool {
    let h = HeadView::Sym(r);
    &&& ss.len() == 3
    &&& places(i, j, k)
    &&& p != q
    &&& ss[i] == lit(false, HeadView::Eq, p, q)
    &&& !ss[j].pos && ss[j].head == h
    &&& ss[k].pos && ss[k].head == h
    &&& {
        ||| swaps(ss[j].a, ss[k].a, p, q) && ss[j].b == ss[k].b
        ||| swaps(ss[j].b, ss[k].b, p, q) && ss[j].a == ss[k].a
    }
}

/// The guard `not (instance ?r class)`.
pub open spec fn guard(class: SymbolId, r: u32) -> Shape {
    Shape {
        pos: false,
        head: HeadView::Sym(name_id("instance"@)),
        a: ArgK::Slot(r),
        b: ArgK::Sym(class),
    }
}

/// The literal at `i` is the guard of the relation variable `r`.
pub open spec fn guarded(ss: Seq<Shape>, class: SymbolId, i: int, r: u32) -> bool {
    0 <= i < ss.len() && ss[i] == guard(class, r)
}

/// The clause states the rule.
pub open spec fn states(kind: SchemaKind, ss: Seq<Shape>) -> bool {
    match kind {
        SchemaKind::Symmetry => exists|r: SymbolId| #[trigger] symmetric(ss, HeadView::Sym(r)),
        SchemaKind::Transitivity => exists|r: SymbolId| #[trigger] transitive(ss, HeadView::Sym(r)),
        SchemaKind::Antisymmetry => exists|r: SymbolId, x: u32, y: u32, i: int, j: int, k: int|
            collapse(ss, r, x, y, i, j, k),
        SchemaKind::Irreflexivity => ss.len() == 1 && exists|r: SymbolId, x: u32|
            ss[0] == #[trigger] lit(false, HeadView::Sym(r), x, x),
        SchemaKind::Inverse => exists|r: SymbolId, q: SymbolId, x: u32, y: u32|
            r != q && #[trigger] reversal(ss, HeadView::Sym(r), HeadView::Sym(q), x, y),
        SchemaKind::EqSubstitution => exists|r: SymbolId, p: u32, q: u32, i: int, j: int, k: int|
            substitution(ss, r, p, q, i, j, k),
        SchemaKind::SymMetaschema => exists|i: int, r: u32| #[trigger]
            guarded(ss, name_id("SymmetricRelation"@), i, r) && symmetric(
                ss.remove(i),
                HeadView::Var(r),
            ),
        SchemaKind::TransMetaschema => exists|i: int, r: u32| #[trigger]
            guarded(ss, name_id("TransitiveRelation"@), i, r) && transitive(
                ss.remove(i),
                HeadView::Var(r),
            ),
    }
}

impl Clone for HeadK {
    fn clone(&self) -> (r: HeadK)
        ensures
            r@ == self@,
            head_name(r) == head_name(*self),
    {
        match self {
            HeadK::Sym(s) => HeadK::Sym(s.clone()),
            HeadK::Eq => HeadK::Eq,
            HeadK::Var(v) => HeadK::Var(*v),
        }
    }
}

impl HeadK {
    /// Whether two heads are the same.
    fn same(&self, other: &HeadK) -> (r: bool)
        ensures
            r == (self@ == other@),
    {
        match (self, other) {
            (HeadK::Sym(a), HeadK::Sym(b)) => a.id() == b.id(),
            (HeadK::Eq, HeadK::Eq) => true,
            (HeadK::Var(a), HeadK::Var(b)) => *a == *b,
            _ => false,
        }
    }
}

impl Clone for LitShape {
    fn clone(&self) -> (r: LitShape)
        ensures
            r@ == self@,
    {
        LitShape { pos: self.pos, head: self.head.clone(), a: self.a, b: self.b }
    }
}

/// The two slots of a literal over variables.
fn two_slots(s: &LitShape) -> (r: Option<(u32, u32)>)
    ensures
        match r {
            Some((x, y)) => s.a == ArgK::Slot(x) && s.b == ArgK::Slot(y),
            None => !(s.a is Slot && s.b is Slot),
        },
{
    match (s.a, s.b) {
        (ArgK::Slot(x), ArgK::Slot(y)) => Some((x, y)),
        _ => None,
    }
}

/// The symbol that heads a literal.
fn head_sym(s: &LitShape) -> (r: Option<SymbolId>)
    ensures
        match r {
            Some(id) => s.head@ == HeadView::Sym(id),
            None => !(s.head@ is Sym),
        },
{
    match &s.head {
        HeadK::Sym(sym) => Some(sym.id()),
        _ => None,
    }
}

/// Whether `n` is `not h(x, y)` and `p` is `g(y, x)`.
fn reverses(n: &LitShape, p: &LitShape) -> (r: bool)
    ensures
        r == exists|x: u32, y: u32|
            x != y && n@ == #[trigger] lit(false, n.head@, x, y) && p@ == lit(true, p.head@, y, x),
{
    match (two_slots(n), two_slots(p)) {
        (Some((x, y)), Some((u, v))) => {
            let r: bool = !n.pos && p.pos && x != y && u == y && v == x;
            proof {
                if r {
                    assert(n@ == lit(false, n.head@, x, y));
                }
            }
            r
        },
        _ => false,
    }
}

/// Whether the clause is the symmetry of its head `h`.
fn check_symmetric(v: &Vec<LitShape>, h: &HeadK) -> (r: bool)
    ensures
        r == symmetric(shape_views(v@), h@),
{
    let ghost ss = shape_views(v@);
    if v.len() != 2 {
        return false;
    }
    assert(ss[0] == v@[0]@ && ss[1] == v@[1]@);
    if !v[0].head.same(h) || !v[1].head.same(h) {
        return false;
    }
    let one: bool = reverses(&v[0], &v[1]);
    let two: bool = reverses(&v[1], &v[0]);
    proof {
        if one {
            let (x, y) = choose|x: u32, y: u32|
                x != y && ss[0] == #[trigger] lit(false, h@, x, y) && ss[1] == lit(true, h@, y, x);
            assert(reversal(ss, h@, h@, x, y));
        }
        if two {
            let (x, y) = choose|x: u32, y: u32|
                x != y && ss[1] == #[trigger] lit(false, h@, x, y) && ss[0] == lit(true, h@, y, x);
            assert(reversal(ss, h@, h@, x, y));
        }
    }
    one || two
}

/// Whether the literals at `i`, `j` and `k` compose.
fn composes_at(v: &Vec<LitShape>, h: &HeadK, i: usize, j: usize, k: usize) -> (r: bool)
    requires
        v@.len() == 3,
        places(i as int, j as int, k as int),
    ensures
        r == exists|x: u32, m: u32, z: u32|
            composition(shape_views(v@), h@, x, m, z, i as int, j as int, k as int),
{
    let ghost ss = shape_views(v@);
    assert(ss[i as int] == v@[i as int]@);
    assert(ss[j as int] == v@[j as int]@);
    assert(ss[k as int] == v@[k as int]@);
    if !v[i].head.same(h) || !v[j].head.same(h) || !v[k].head.same(h) {
        return false;
    }
    match (two_slots(&v[i]), two_slots(&v[j]), two_slots(&v[k])) {
        (Some((x, m)), Some((m2, z)), Some((x2, z2))) => {
            let r: bool = !v[i].pos && !v[j].pos && v[k].pos && m == m2 && x == x2 && z == z2 && x
                != z && m != x && m != z;
            proof {
                if r {
                    assert(composition(ss, h@, x, m, z, i as int, j as int, k as int));
                }
            }
            r
        },
        _ => false,
    }
}

/// Whether the clause is the transitivity of its head `h`.
fn check_transitive(v: &Vec<LitShape>, h: &HeadK) -> (r: bool)
    ensures
        r == transitive(shape_views(v@), h@),
{
    let ghost ss = shape_views(v@);
    if v.len() != 3 {
        return false;
    }
    let r: bool = composes_at(v, h, 0, 1, 2) || composes_at(v, h, 0, 2, 1) || composes_at(
        v,
        h,
        1,
        0,
        2,
    ) || composes_at(v, h, 1, 2, 0) || composes_at(v, h, 2, 0, 1) || composes_at(v, h, 2, 1, 0);
    proof {
        if transitive(ss, h@) {
            let (x, m, z, i, j, k) = choose|x: u32, m: u32, z: u32, i: int, j: int, k: int|
                composition(ss, h@, x, m, z, i, j, k);
            assert(composition(ss, h@, x, m, z, i, j, k));
        }
    }
    r
}

/// Whether the literals at `i`, `j` and `k` state an antisymmetry.
fn collapses_at(v: &Vec<LitShape>, i: usize, j: usize, k: usize) -> (r: bool)
    requires
        v@.len() == 3,
        places(i as int, j as int, k as int),
    ensures
        r == exists|s: SymbolId, x: u32, y: u32|
            collapse(shape_views(v@), s, x, y, i as int, j as int, k as int),
{
    let ghost ss = shape_views(v@);
    assert(ss[i as int] == v@[i as int]@);
    assert(ss[j as int] == v@[j as int]@);
    assert(ss[k as int] == v@[k as int]@);
    match (head_sym(&v[i]), head_sym(&v[j])) {
        (Some(s), Some(s2)) => {
            if s != s2 || !v[k].head.same(&HeadK::Eq) {
                return false;
            }
            match (two_slots(&v[i]), two_slots(&v[j]), two_slots(&v[k])) {
                (Some((x, y)), Some((y2, x2)), Some((p, q))) => {
                    let r: bool = !v[i].pos && !v[j].pos && v[k].pos && x != y && x == x2 && y == y2
                        && ((p == x && q == y) || (p == y && q == x));
                    proof {
                        if r {
                            assert(collapse(ss, s, x, y, i as int, j as int, k as int));
                        }
                    }
                    r
                },
                _ => false,
            }
        },
        _ => false,
    }
}

/// Whether the literals at `i`, `j` and `k` state a substitution of equals.
fn substitutes_at(v: &Vec<LitShape>, i: usize, j: usize, k: usize) -> (r: bool)
    requires
        v@.len() == 3,
        places(i as int, j as int, k as int),
    ensures
        r == exists|s: SymbolId, p: u32, q: u32|
            substitution(shape_views(v@), s, p, q, i as int, j as int, k as int),
{
    let ghost ss = shape_views(v@);
    assert(ss[i as int] == v@[i as int]@);
    assert(ss[j as int] == v@[j as int]@);
    assert(ss[k as int] == v@[k as int]@);
    match (head_sym(&v[j]), head_sym(&v[k])) {
        (Some(s), Some(s2)) => {
            if s != s2 || !v[i].head.same(&HeadK::Eq) {
                return false;
            }
            match two_slots(&v[i]) {
                Some((p, q)) => {
                    let first: bool = (v[j].a == ArgK::Slot(p) && v[k].a == ArgK::Slot(q)) || (v[j].a
                        == ArgK::Slot(q) && v[k].a == ArgK::Slot(p));
                    let second: bool = (v[j].b == ArgK::Slot(p) && v[k].b == ArgK::Slot(q)) || (
                    v[j].b == ArgK::Slot(q) && v[k].b == ArgK::Slot(p));
                    let r: bool = !v[i].pos && !v[j].pos && v[k].pos && p != q && ((first && v[j].b
                        == v[k].b) || (second && v[j].a == v[k].a));
                    proof {
                        if r {
                            assert(substitution(ss, s, p, q, i as int, j as int, k as int));
                        }
                    }
                    r
                },
                None => false,
            }
        },
        _ => false,
    }
}

/// The shapes without the one at `i`.
fn without(v: &Vec<LitShape>, i: usize) -> (r: Vec<LitShape>)
    requires
        i < v@.len(),
    ensures
        shape_views(r@) == shape_views(v@).remove(i as int),
{
    let mut r: Vec<LitShape> = Vec::new();
    let mut k: usize = 0;
    while k < v.len()
        invariant
            i < v@.len(),
            k <= v@.len(),
            r@.len() == if k <= i {
                k as int
            } else {
                k - 1
            },
            forall|j: int|
                0 <= j < r@.len() ==> (#[trigger] r@[j])@ == v@[if j < i {
                    j
                } else {
                    j + 1
                }]@,
        decreases v@.len() - k,
    {
        if k != i {
            r.push(v[k].clone());
        }
        k += 1;
    }
    assert(shape_views(r@) =~= shape_views(v@).remove(i as int));
    r
}

/// The relation variable that the literal guards.
fn guard_slot(s: &LitShape, class: SymbolId) -> (r: Option<u32>)
    ensures
        match r {
            Some(v) => s@ == guard(class, v),
            None => forall|v: u32| s@ != #[trigger] guard(class, v),
        },
{
    let instance: SymbolId = Symbol::hash_name("instance");
    match (head_sym(s), s.a, s.b) {
        (Some(h), ArgK::Slot(r), ArgK::Sym(c)) => {
            if h == instance && !s.pos && c == class {
                Some(r)
            } else {
                None
            }
        },
        _ => None,
    }
}

/// Whether the clause is a second-order rule: a guard, and the symmetry (or
/// transitivity) of the relation variable that it guards.
fn check_meta(v: &Vec<LitShape>, class: SymbolId, symmetry: bool) -> (r: bool)
    ensures
        r == exists|i: int, s: u32| #[trigger]
            guarded(shape_views(v@), class, i, s) && (if symmetry {
                symmetric(shape_views(v@).remove(i), HeadView::Var(s))
            } else {
                transitive(shape_views(v@).remove(i), HeadView::Var(s))
            }),
{
    let ghost ss = shape_views(v@);
    let mut i: usize = 0;
    while i < v.len()
        invariant
            i <= v@.len(),
            ss == shape_views(v@),
            forall|j: int, s: u32|
                0 <= j < i && #[trigger] guarded(ss, class, j, s) ==> !(if symmetry {
                    symmetric(ss.remove(j), HeadView::Var(s))
                } else {
                    transitive(ss.remove(j), HeadView::Var(s))
                }),
        decreases v@.len() - i,
    {
        assert(ss[i as int] == v@[i as int]@);
        if let Some(r) = guard_slot(&v[i], class) {
            assert(guarded(ss, class, i as int, r));
            let rest: Vec<LitShape> = without(v, i);
            let head: HeadK = HeadK::Var(r);
            let ok: bool = if symmetry {
                check_symmetric(&rest, &head)
            } else {
                check_transitive(&rest, &head)
            };
            if ok {
                return true;
            }
            assert forall|s: u32| #[trigger] guarded(ss, class, i as int, s) implies s == r by {}
        } else {
            assert forall|s: u32| !#[trigger] guarded(ss, class, i as int, s) by {}
        }
        i += 1;
    }
    false
}

/// Whether the clause states the rule.
pub fn verify(kind: SchemaKind, shapes: &Vec<LitShape>) -> (r: bool)
    ensures
        r == states(kind, shape_views(shapes@)),
{
    let ghost ss = shape_views(shapes@);
    match kind {
        SchemaKind::Symmetry => {
            if shapes.len() != 2 {
                return false;
            }
            assert(ss[0] == shapes@[0]@);
            match head_sym(&shapes[0]) {
                Some(s) => {
                    let r: bool = check_symmetric(shapes, &shapes[0].head);
                    proof {
                        if r {
                            assert(symmetric(ss, HeadView::Sym(s)));
                        }
                        if states(kind, ss) {
                            let q = choose|q: SymbolId| #[trigger] symmetric(ss, HeadView::Sym(q));
                            assert(q == s);
                        }
                    }
                    r
                },
                None => false,
            }
        },
        SchemaKind::Transitivity => {
            if shapes.len() != 3 {
                return false;
            }
            assert(ss[0] == shapes@[0]@);
            match head_sym(&shapes[0]) {
                Some(s) => {
                    let r: bool = check_transitive(shapes, &shapes[0].head);
                    proof {
                        if r {
                            assert(transitive(ss, HeadView::Sym(s)));
                        }
                        if states(kind, ss) {
                            let q = choose|q: SymbolId| #[trigger] transitive(ss, HeadView::Sym(q));
                            lemma_composition_head(ss, HeadView::Sym(q));
                            assert(q == s);
                        }
                    }
                    r
                },
                None => {
                    proof {
                        if states(kind, ss) {
                            let q = choose|q: SymbolId| #[trigger] transitive(ss, HeadView::Sym(q));
                            lemma_composition_head(ss, HeadView::Sym(q));
                        }
                    }
                    false
                },
            }
        },
        SchemaKind::Antisymmetry => {
            if shapes.len() != 3 {
                return false;
            }
            let r: bool = collapses_at(shapes, 0, 1, 2) || collapses_at(shapes, 0, 2, 1)
                || collapses_at(shapes, 1, 0, 2) || collapses_at(shapes, 1, 2, 0) || collapses_at(
                shapes,
                2,
                0,
                1,
            ) || collapses_at(shapes, 2, 1, 0);
            proof {
                if states(kind, ss) {
                    let (s, x, y, i, j, k) = choose|s: SymbolId, x: u32, y: u32, i: int, j: int, k: int|
                        collapse(ss, s, x, y, i, j, k);
                    assert(collapse(ss, s, x, y, i, j, k));
                }
            }
            r
        },
        SchemaKind::Irreflexivity => {
            if shapes.len() != 1 {
                return false;
            }
            assert(ss[0] == shapes@[0]@);
            match (head_sym(&shapes[0]), two_slots(&shapes[0])) {
                (Some(s), Some((x, y))) => {
                    let r: bool = !shapes[0].pos && x == y;
                    proof {
                        if r {
                            assert(ss[0] == lit(false, HeadView::Sym(s), x, x));
                        }
                    }
                    r
                },
                _ => false,
            }
        },
        SchemaKind::Inverse => {
            if shapes.len() != 2 {
                return false;
            }
            assert(ss[0] == shapes@[0]@ && ss[1] == shapes@[1]@);
            match (head_sym(&shapes[0]), head_sym(&shapes[1])) {
                (Some(s), Some(q)) => {
                    if s == q {
                        return false;
                    }
                    let one: bool = reverses(&shapes[0], &shapes[1]);
                    let two: bool = reverses(&shapes[1], &shapes[0]);
                    proof {
                        let (hs, hq) = (HeadView::Sym(s), HeadView::Sym(q));
                        if one {
                            let (x, y) = choose|x: u32, y: u32|
                                x != y && ss[0] == #[trigger] lit(false, hs, x, y) && ss[1] == lit(true, hq, y, x);
                            assert(reversal(ss, hs, hq, x, y));
                        }
                        if two {
                            let (x, y) = choose|x: u32, y: u32|
                                x != y && ss[1] == #[trigger] lit(false, hq, x, y) && ss[0] == lit(true, hs, y, x);
                            assert(reversal(ss, hq, hs, x, y));
                        }
                    }
                    one || two
                },
                _ => false,
            }
        },
        SchemaKind::EqSubstitution => {
            if shapes.len() != 3 {
                return false;
            }
            let r: bool = substitutes_at(shapes, 0, 1, 2) || substitutes_at(shapes, 0, 2, 1)
                || substitutes_at(shapes, 1, 0, 2) || substitutes_at(shapes, 1, 2, 0)
                || substitutes_at(shapes, 2, 0, 1) || substitutes_at(shapes, 2, 1, 0);
            proof {
                if states(kind, ss) {
                    let (s, p, q, i, j, k) = choose|s: SymbolId, p: u32, q: u32, i: int, j: int, k: int|
                        substitution(ss, s, p, q, i, j, k);
                    assert(substitution(ss, s, p, q, i, j, k));
                }
            }
            r
        },
        SchemaKind::SymMetaschema => check_meta(
            shapes,
            Symbol::hash_name("SymmetricRelation"),
            true,
        ),
        SchemaKind::TransMetaschema => check_meta(
            shapes,
            Symbol::hash_name("TransitiveRelation"),
            false,
        ),
    }
}

/// Every literal of a transitivity has the head.
proof fn lemma_composition_head(ss: Seq<Shape>, h: HeadView)
    requires
        transitive(ss, h),
    ensures
        ss.len() == 3,
        ss[0].head == h,
        ss[1].head == h,
        ss[2].head == h,
{
    let (x, m, z, i, j, k) = choose|x: u32, m: u32, z: u32, i: int, j: int, k: int|
        composition(ss, h, x, m, z, i, j, k);
    assert(composition(ss, h, x, m, z, i, j, k));
}

// ---------------------------------------------------------------------------
// The verdict does not depend on order or names
// ---------------------------------------------------------------------------

/// The slots are renamed, no two to the same.
pub open spec fn injective(f: spec_fn(u32) -> u32) -> bool {
    forall|x: u32, y: u32| #[trigger] f(x) == #[trigger] f(y) ==> x == y
}

/// The head with its slot renamed.
pub open spec fn renamed_head(h: HeadView, f: spec_fn(u32) -> u32) -> HeadView {
    match h {
        HeadView::Var(v) => HeadView::Var(f(v)),
        _ => h,
    }
}

/// The argument with its slot renamed.
pub open spec fn renamed_arg(a: ArgK, f: spec_fn(u32) -> u32) -> ArgK {
    match a {
        ArgK::Slot(v) => ArgK::Slot(f(v)),
        _ => a,
    }
}

/// The literal with its slots renamed.
pub open spec fn renamed_shape(s: Shape, f: spec_fn(u32) -> u32) -> Shape {
    Shape { pos: s.pos, head: renamed_head(s.head, f), a: renamed_arg(s.a, f), b: renamed_arg(s.b, f) }
}

/// The clause with its slots renamed.
pub open spec fn renamed(ss: Seq<Shape>, f: spec_fn(u32) -> u32) -> Seq<Shape> {
    Seq::new(ss.len(), |i: int| renamed_shape(ss[i], f))
}

/// A literal over two slots comes from one over two slots.
proof fn lemma_lit_back(s: Shape, f: spec_fn(u32) -> u32, pos: bool, h: HeadView, x: u32, y: u32) -> (r: (u32, u32))
    requires
        injective(f),
        renamed_shape(s, f) == lit(pos, renamed_head(h, f), x, y),
    ensures
        s == lit(pos, h, r.0, r.1),
        f(r.0) == x,
        f(r.1) == y,
{
    match (s.a, s.b) {
        (ArgK::Slot(a), ArgK::Slot(b)) => (a, b),
        _ => (x, y),
    }
}

proof fn lemma_symmetric_renamed(ss: Seq<Shape>, f: spec_fn(u32) -> u32, h: HeadView, g: HeadView)
    requires
        injective(f),
    ensures
        (exists|x: u32, y: u32| reversal(ss, h, g, x, y)) == (exists|x: u32, y: u32|
            reversal(renamed(ss, f), renamed_head(h, f), renamed_head(g, f), x, y)),
{
    let tt = renamed(ss, f);
    let (h2, g2) = (renamed_head(h, f), renamed_head(g, f));
    if exists|x: u32, y: u32| reversal(ss, h, g, x, y) {
        let (x, y) = choose|x: u32, y: u32| reversal(ss, h, g, x, y);
        assert(reversal(ss, h, g, x, y));
        assert(reversal(tt, h2, g2, f(x), f(y)));
    }
    if exists|x: u32, y: u32| reversal(tt, h2, g2, x, y) {
        let (x, y) = choose|x: u32, y: u32| reversal(tt, h2, g2, x, y);
        assert(reversal(tt, h2, g2, x, y));
        let (i, j): (int, int) = if tt[0] == lit(false, h2, x, y) && tt[1] == lit(true, g2, y, x) {
            (0, 1)
        } else {
            (1, 0)
        };
        let (a, b) = lemma_lit_back(ss[i], f, false, h, x, y);
        let (c, d) = lemma_lit_back(ss[j], f, true, g, y, x);
        assert(a == d && b == c);
        assert(reversal(ss, h, g, a, b));
    }
}

proof fn lemma_transitive_renamed(ss: Seq<Shape>, f: spec_fn(u32) -> u32, h: HeadView)
    requires
        injective(f),
    ensures
        transitive(ss, h) == transitive(renamed(ss, f), renamed_head(h, f)),
{
    let tt = renamed(ss, f);
    let h2 = renamed_head(h, f);
    if transitive(ss, h) {
        let (x, m, z, i, j, k) = choose|x: u32, m: u32, z: u32, i: int, j: int, k: int|
            composition(ss, h, x, m, z, i, j, k);
        assert(composition(ss, h, x, m, z, i, j, k));
        assert(composition(tt, h2, f(x), f(m), f(z), i, j, k));
    }
    if transitive(tt, h2) {
        let (x, m, z, i, j, k) = choose|x: u32, m: u32, z: u32, i: int, j: int, k: int|
            composition(tt, h2, x, m, z, i, j, k);
        assert(composition(tt, h2, x, m, z, i, j, k));
        let (a, b) = lemma_lit_back(ss[i], f, false, h, x, m);
        let (c, d) = lemma_lit_back(ss[j], f, false, h, m, z);
        let (e, g) = lemma_lit_back(ss[k], f, true, h, x, z);
        assert(a == e && b == c && d == g);
        assert(composition(ss, h, a, b, d, i, j, k));
    }
}

proof fn lemma_collapse_renamed(ss: Seq<Shape>, f: spec_fn(u32) -> u32)
    requires
        injective(f),
    ensures
        states(SchemaKind::Antisymmetry, ss) == states(SchemaKind::Antisymmetry, renamed(ss, f)),
{
    let tt = renamed(ss, f);
    if states(SchemaKind::Antisymmetry, ss) {
        let (r, x, y, i, j, k) = choose|r: SymbolId, x: u32, y: u32, i: int, j: int, k: int|
            collapse(ss, r, x, y, i, j, k);
        assert(collapse(ss, r, x, y, i, j, k));
        assert(collapse(tt, r, f(x), f(y), i, j, k));
    }
    if states(SchemaKind::Antisymmetry, tt) {
        let (r, x, y, i, j, k) = choose|r: SymbolId, x: u32, y: u32, i: int, j: int, k: int|
            collapse(tt, r, x, y, i, j, k);
        assert(collapse(tt, r, x, y, i, j, k));
        let h = HeadView::Sym(r);
        let (a, b) = lemma_lit_back(ss[i], f, false, h, x, y);
        let (c, d) = lemma_lit_back(ss[j], f, false, h, y, x);
        assert(a == d && b == c);
        if tt[k] == lit(true, HeadView::Eq, x, y) {
            let (e, g) = lemma_lit_back(ss[k], f, true, HeadView::Eq, x, y);
            assert(e == a && g == b);
        } else {
            let (e, g) = lemma_lit_back(ss[k], f, true, HeadView::Eq, y, x);
            assert(e == b && g == a);
        }
        assert(collapse(ss, r, a, b, i, j, k));
    }
}

proof fn lemma_substitution_renamed(ss: Seq<Shape>, f: spec_fn(u32) -> u32)
    requires
        injective(f),
    ensures
        states(SchemaKind::EqSubstitution, ss) == states(SchemaKind::EqSubstitution, renamed(ss, f)),
{
    let tt = renamed(ss, f);
    if states(SchemaKind::EqSubstitution, ss) {
        let (r, p, q, i, j, k) = choose|r: SymbolId, p: u32, q: u32, i: int, j: int, k: int|
            substitution(ss, r, p, q, i, j, k);
        assert(substitution(ss, r, p, q, i, j, k));
        assert(substitution(tt, r, f(p), f(q), i, j, k));
    }
    if states(SchemaKind::EqSubstitution, tt) {
        let (r, p, q, i, j, k) = choose|r: SymbolId, p: u32, q: u32, i: int, j: int, k: int|
            substitution(tt, r, p, q, i, j, k);
        assert(substitution(tt, r, p, q, i, j, k));
        let (a, b) = lemma_lit_back(ss[i], f, false, HeadView::Eq, p, q);
        assert(ss[j].head == HeadView::Sym(r) && ss[k].head == HeadView::Sym(r));
        assert(substitution(ss, r, a, b, i, j, k));
    }
}

proof fn lemma_meta_renamed(ss: Seq<Shape>, f: spec_fn(u32) -> u32, class: SymbolId, i: int, r: u32)
    requires
        injective(f),
        0 <= i < ss.len(),
    ensures
        guarded(ss, class, i, r) == guarded(renamed(ss, f), class, i, f(r)),
        symmetric(ss.remove(i), HeadView::Var(r)) == symmetric(renamed(ss, f).remove(i), HeadView::Var(f(r))),
        transitive(ss.remove(i), HeadView::Var(r)) == transitive(renamed(ss, f).remove(i), HeadView::Var(f(r))),
{
    assert(renamed(ss.remove(i), f) =~= renamed(ss, f).remove(i));
    lemma_symmetric_renamed(ss.remove(i), f, HeadView::Var(r), HeadView::Var(r));
    lemma_transitive_renamed(ss.remove(i), f, HeadView::Var(r));
}

/// The verdict does not depend on the names of the variables: to rename the slots
/// of a clause, no two to the same, in arguments and at the head alike, changes
/// no verdict.
pub proof fn law_verdict_survives_renaming(kind: SchemaKind, ss: Seq<Shape>, f: spec_fn(u32) -> u32)
    requires
        injective(f),
    ensures
        states(kind, renamed(ss, f)) == states(kind, ss),
{
    let tt = renamed(ss, f);
    match kind {
        SchemaKind::Symmetry => {
            assert forall|r: SymbolId| #[trigger] symmetric(ss, HeadView::Sym(r)) == symmetric(tt, HeadView::Sym(r)) by {
                lemma_symmetric_renamed(ss, f, HeadView::Sym(r), HeadView::Sym(r));
            }
            if states(kind, tt) {
                let r = choose|r: SymbolId| #[trigger] symmetric(tt, HeadView::Sym(r));
                assert(symmetric(ss, HeadView::Sym(r)));
            }
        },
        SchemaKind::Transitivity => {
            assert forall|r: SymbolId| #[trigger]
                transitive(ss, HeadView::Sym(r)) == transitive(tt, HeadView::Sym(r)) by {
                lemma_transitive_renamed(ss, f, HeadView::Sym(r));
            }
            if states(kind, tt) {
                let r = choose|r: SymbolId| #[trigger] transitive(tt, HeadView::Sym(r));
                assert(transitive(ss, HeadView::Sym(r)));
            }
        },
        SchemaKind::Antisymmetry => {
            lemma_collapse_renamed(ss, f);
        },
        SchemaKind::Irreflexivity => {
            if states(kind, ss) {
                let (r, x) = choose|r: SymbolId, x: u32| ss[0] == #[trigger] lit(false, HeadView::Sym(r), x, x);
                assert(tt[0] == lit(false, HeadView::Sym(r), f(x), f(x)));
            }
            if states(kind, tt) {
                let (r, x) = choose|r: SymbolId, x: u32| tt[0] == #[trigger] lit(false, HeadView::Sym(r), x, x);
                let (a, b) = lemma_lit_back(ss[0], f, false, HeadView::Sym(r), x, x);
                assert(ss[0] == lit(false, HeadView::Sym(r), a, a));
            }
        },
        SchemaKind::Inverse => {
            if states(kind, ss) {
                let (r, q, x, y) = choose|r: SymbolId, q: SymbolId, x: u32, y: u32|
                    r != q && #[trigger] reversal(ss, HeadView::Sym(r), HeadView::Sym(q), x, y);
                lemma_symmetric_renamed(ss, f, HeadView::Sym(r), HeadView::Sym(q));
                let (u, v) = choose|u: u32, v: u32| reversal(tt, HeadView::Sym(r), HeadView::Sym(q), u, v);
                assert(reversal(tt, HeadView::Sym(r), HeadView::Sym(q), u, v));
            }
            if states(kind, tt) {
                let (r, q, x, y) = choose|r: SymbolId, q: SymbolId, x: u32, y: u32|
                    r != q && #[trigger] reversal(tt, HeadView::Sym(r), HeadView::Sym(q), x, y);
                lemma_symmetric_renamed(ss, f, HeadView::Sym(r), HeadView::Sym(q));
                let (u, v) = choose|u: u32, v: u32| reversal(ss, HeadView::Sym(r), HeadView::Sym(q), u, v);
                assert(reversal(ss, HeadView::Sym(r), HeadView::Sym(q), u, v));
            }
        },
        SchemaKind::EqSubstitution => {
            lemma_substitution_renamed(ss, f);
        },
        SchemaKind::SymMetaschema => {
            let class = name_id("SymmetricRelation"@);
            if states(kind, ss) {
                let (i, r) = choose|i: int, r: u32| #[trigger]
                    guarded(ss, class, i, r) && symmetric(ss.remove(i), HeadView::Var(r));
                lemma_meta_renamed(ss, f, class, i, r);
                assert(guarded(tt, class, i, f(r)));
            }
            if states(kind, tt) {
                let (i, r) = choose|i: int, r: u32| #[trigger]
                    guarded(tt, class, i, r) && symmetric(tt.remove(i), HeadView::Var(r));
                let v = ss[i].a->Slot_0;
                lemma_meta_renamed(ss, f, class, i, v);
                assert(guarded(ss, class, i, v));
            }
        },
        SchemaKind::TransMetaschema => {
            let class = name_id("TransitiveRelation"@);
            if states(kind, ss) {
                let (i, r) = choose|i: int, r: u32| #[trigger]
                    guarded(ss, class, i, r) && transitive(ss.remove(i), HeadView::Var(r));
                lemma_meta_renamed(ss, f, class, i, r);
                assert(guarded(tt, class, i, f(r)));
            }
            if states(kind, tt) {
                let (i, r) = choose|i: int, r: u32| #[trigger]
                    guarded(tt, class, i, r) && transitive(tt.remove(i), HeadView::Var(r));
                let v = ss[i].a->Slot_0;
                lemma_meta_renamed(ss, f, class, i, v);
                assert(guarded(ss, class, i, v));
            }
        },
    }
}

/// The place of a literal in a clause with the same literals.
proof fn lemma_place(ss: Seq<Shape>, tt: Seq<Shape>, i: int) -> (j: int)
    requires
        ss.to_multiset() == tt.to_multiset(),
        0 <= i < ss.len(),
    ensures
        0 <= j < tt.len(),
        tt[j] == ss[i],
        ss.len() == tt.len(),
        ss.remove(i).to_multiset() == tt.remove(j).to_multiset(),
{
    ss.to_multiset_ensures();
    tt.to_multiset_ensures();
    assert(ss.contains(ss[i]));
    assert(tt.to_multiset().count(ss[i]) > 0);
    assert(tt.contains(ss[i]));
    let j = choose|j: int| 0 <= j < tt.len() && tt[j] == ss[i];
    assert(ss.remove(i).to_multiset() =~= ss.to_multiset().remove(ss[i]));
    assert(tt.remove(j).to_multiset() =~= tt.to_multiset().remove(tt[j]));
    j
}

proof fn lemma_symmetric_reordered(ss: Seq<Shape>, tt: Seq<Shape>, h: HeadView, g: HeadView, x: u32, y: u32)
    requires
        ss.to_multiset() == tt.to_multiset(),
        reversal(ss, h, g, x, y),
    ensures
        reversal(tt, h, g, x, y),
{
    let i = lemma_place(ss, tt, 0);
    let j = lemma_place(ss, tt, 1);
    assert(ss[0] != ss[1]);
}

proof fn lemma_transitive_reordered(ss: Seq<Shape>, tt: Seq<Shape>, h: HeadView)
    requires
        ss.to_multiset() == tt.to_multiset(),
        transitive(ss, h),
    ensures
        transitive(tt, h),
{
    let (x, m, z, i, j, k) = choose|x: u32, m: u32, z: u32, i: int, j: int, k: int|
        composition(ss, h, x, m, z, i, j, k);
    assert(composition(ss, h, x, m, z, i, j, k));
    let a = lemma_place(ss, tt, i);
    let b = lemma_place(ss, tt, j);
    let c = lemma_place(ss, tt, k);
    assert(ss[i] != ss[j] && ss[j] != ss[k] && ss[i] != ss[k]);
    assert(composition(tt, h, x, m, z, a, b, c));
}

proof fn lemma_verdict_reordered(kind: SchemaKind, ss: Seq<Shape>, tt: Seq<Shape>)
    requires
        ss.to_multiset() == tt.to_multiset(),
        states(kind, ss),
    ensures
        states(kind, tt),
{
    match kind {
        SchemaKind::Symmetry => {
            let r = choose|r: SymbolId| #[trigger] symmetric(ss, HeadView::Sym(r));
            let h = HeadView::Sym(r);
            let (x, y) = choose|x: u32, y: u32| reversal(ss, h, h, x, y);
            lemma_symmetric_reordered(ss, tt, h, h, x, y);
            assert(symmetric(tt, HeadView::Sym(r)));
        },
        SchemaKind::Transitivity => {
            let r = choose|r: SymbolId| #[trigger] transitive(ss, HeadView::Sym(r));
            lemma_transitive_reordered(ss, tt, HeadView::Sym(r));
        },
        SchemaKind::Antisymmetry => {
            let (r, x, y, i, j, k) = choose|r: SymbolId, x: u32, y: u32, i: int, j: int, k: int|
                collapse(ss, r, x, y, i, j, k);
            assert(collapse(ss, r, x, y, i, j, k));
            let a = lemma_place(ss, tt, i);
            let b = lemma_place(ss, tt, j);
            let c = lemma_place(ss, tt, k);
            assert(ss[i] != ss[j] && ss[j] != ss[k] && ss[i] != ss[k]);
            assert(collapse(tt, r, x, y, a, b, c));
        },
        SchemaKind::Irreflexivity => {
            let (r, x) = choose|r: SymbolId, x: u32| ss[0] == #[trigger] lit(false, HeadView::Sym(r), x, x);
            let i = lemma_place(ss, tt, 0);
            assert(tt[0] == lit(false, HeadView::Sym(r), x, x));
        },
        SchemaKind::Inverse => {
            let (r, q, x, y) = choose|r: SymbolId, q: SymbolId, x: u32, y: u32|
                r != q && #[trigger] reversal(ss, HeadView::Sym(r), HeadView::Sym(q), x, y);
            lemma_symmetric_reordered(ss, tt, HeadView::Sym(r), HeadView::Sym(q), x, y);
        },
        SchemaKind::EqSubstitution => {
            let (r, p, q, i, j, k) = choose|r: SymbolId, p: u32, q: u32, i: int, j: int, k: int|
                substitution(ss, r, p, q, i, j, k);
            assert(substitution(ss, r, p, q, i, j, k));
            let a = lemma_place(ss, tt, i);
            let b = lemma_place(ss, tt, j);
            let c = lemma_place(ss, tt, k);
            assert(ss[i] != ss[j] && ss[j] != ss[k] && ss[i] != ss[k]);
            assert(substitution(tt, r, p, q, a, b, c));
        },
        SchemaKind::SymMetaschema => {
            let class = name_id("SymmetricRelation"@);
            let (i, r) = choose|i: int, r: u32| #[trigger]
                guarded(ss, class, i, r) && symmetric(ss.remove(i), HeadView::Var(r));
            let j = lemma_place(ss, tt, i);
            let h = HeadView::Var(r);
            let (x, y) = choose|x: u32, y: u32| reversal(ss.remove(i), h, h, x, y);
            lemma_symmetric_reordered(ss.remove(i), tt.remove(j), h, h, x, y);
            assert(symmetric(tt.remove(j), h));
            assert(guarded(tt, class, j, r));
        },
        SchemaKind::TransMetaschema => {
            let class = name_id("TransitiveRelation"@);
            let (i, r) = choose|i: int, r: u32| #[trigger]
                guarded(ss, class, i, r) && transitive(ss.remove(i), HeadView::Var(r));
            let j = lemma_place(ss, tt, i);
            lemma_transitive_reordered(ss.remove(i), tt.remove(j), HeadView::Var(r));
            assert(guarded(tt, class, j, r));
        },
    }
}

/// The verdict does not depend on the order of the literals.
pub proof fn law_verdict_survives_reordering(kind: SchemaKind, ss: Seq<Shape>, tt: Seq<Shape>)
    requires
        ss.to_multiset() == tt.to_multiset(),
    ensures
        states(kind, ss) == states(kind, tt),
{
    if states(kind, ss) {
        lemma_verdict_reordered(kind, ss, tt);
    }
    if states(kind, tt) {
        lemma_verdict_reordered(kind, tt, ss);
    }
}

// ---------------------------------------------------------------------------
// Fingerprints
// ---------------------------------------------------------------------------

/// The bytes of a head, without the identity of a symbol.
pub open spec fn head_bytes(h: HeadView) -> Seq<u8> {
    match h {
        HeadView::Sym(_) => seq![83u8],
        HeadView::Eq => seq![69u8],
        HeadView::Var(slot) => seq![86u8] + be_bytes_u32(slot),
    }
}

/// The bytes of an argument.
pub open spec fn arg_bytes(a: ArgK) -> Seq<u8> {
    match a {
        ArgK::Slot(k) => seq![118u8] + be_bytes_u32(k),
        ArgK::Sym(id) => seq![115u8] + be_bytes(id),
    }
}

/// The coin of a literal: everything but the identity of a symbol head.
pub open spec fn coin(s: Shape) -> u64 {
    xxh64_digest(
        seq![if s.pos { 1u8 } else { 0u8 }] + head_bytes(s.head) + arg_bytes(s.a) + arg_bytes(s.b),
        SCHEMA_SEED,
    ) | 1
}

/// The factor of a symbol head; never zero.
pub open spec fn head_factor(id: SymbolId) -> u64 {
    xxh64_digest(be_bytes(id), HEAD_SEED) | 1
}

/// The sums of a clause's coins and their cubes, apart for symbol heads and
/// for the others, and the symbol heads in order of first occurrence.
pub struct Sums {
    pub sym1: u64,
    pub sym3: u64,
    pub fix1: u64,
    pub fix3: u64,
    pub heads: Seq<SymbolId>,
}

/// The sums of a clause.
pub open spec fn sums(ss: Seq<Shape>) -> Sums
    decreases ss.len(),
{
    if ss.len() == 0 {
        Sums { sym1: 0, sym3: 0, fix1: 0, fix3: 0, heads: Seq::empty() }
    } else {
        let f = sums(ss.drop_last());
        let s = ss.last();
        match s.head {
            HeadView::Sym(id) => {
                let c = product(coin(s), head_factor(id));
                Sums {
                    sym1: f.sym1 ^ c,
                    sym3: f.sym3 ^ cubed(c),
                    heads: if f.heads.contains(id) {
                        f.heads
                    } else {
                        f.heads.push(id)
                    },
                    ..f
                }
            },
            HeadView::Eq => {
                let c = product(coin(s), H_EQ);
                Sums { fix1: f.fix1 ^ c, fix3: f.fix3 ^ cubed(c), ..f }
            },
            HeadView::Var(_) => {
                let c = product(coin(s), H_VAR);
                Sums { fix1: f.fix1 ^ c, fix3: f.fix3 ^ cubed(c), ..f }
            },
        }
    }
}

/// The key of the four normalised sums.
pub open spec fn key_digest(n1: u64, n3: u64, fix1: u64, fix3: u64) -> u64 {
    xxh64_digest(be_bytes(n1) + be_bytes(n3) + be_bytes(fix1) + be_bytes(fix3), KEY_SEED)
}

/// The key of a clause with a single symbol head: the sums of the literals
/// with that head, divided by its factor.
pub open spec fn table_key(ss: Seq<Shape>) -> Option<u64> {
    let f = sums(ss);
    if f.heads.len() != 1 {
        None
    } else {
        let ih = inverse(head_factor(f.heads[0]));
        Some(key_digest(product(f.sym1, ih), product(f.sym3, cubed(ih)), f.fix1, f.fix3))
    }
}

/// Puts the bytes of an argument at the end of the buffer.
fn put_arg(buf: &mut ByteBuf, a: ArgK)
    ensures
        final(buf)@ == old(buf)@ + arg_bytes(a),
{
    match a {
        ArgK::Slot(k) => {
            buf.push(118);
            buf.put_u32(k);
        },
        ArgK::Sym(id) => {
            buf.push(115);
            buf.put_u64(id);
        },
    }
    assert(buf@ =~= old(buf)@ + arg_bytes(a));
}

/// The coin of a literal.
pub fn k_lit(s: &LitShape) -> (k: u64)
    ensures
        k == coin(s@),
{
    let mut buf: ByteBuf = ByteBuf::new();
    buf.push(
        if s.pos {
            1
        } else {
            0
        },
    );
    let ghost first = buf@;
    match &s.head {
        HeadK::Sym(_) => {
            buf.push(83);
        },
        HeadK::Eq => {
            buf.push(69);
        },
        HeadK::Var(slot) => {
            buf.push(86);
            buf.put_u32(*slot);
        },
    }
    assert(buf@ =~= first + head_bytes(s.head@));
    put_arg(&mut buf, s.a);
    put_arg(&mut buf, s.b);
    assert(first =~= seq![if s.pos { 1u8 } else { 0u8 }]);
    xxh64(buf.as_slice(), SCHEMA_SEED) | 1
}

/// The factor of a symbol head.
fn h_sym(id: SymbolId) -> (h: u64)
    ensures
        h == head_factor(id),
{
    let mut buf: ByteBuf = ByteBuf::new();
    buf.put_u64(id);
    assert(buf@ =~= be_bytes(id));
    xxh64(buf.as_slice(), HEAD_SEED) | 1
}

/// The fingerprint of a clause.
pub struct Fingerprint {
    pub sym1: u64,
    pub sym3: u64,
    pub fix1: u64,
    pub fix3: u64,
    pub heads: Vec<Symbol>,
}

/// The identities of the symbols.
pub open spec fn symbol_ids(s: Seq<Symbol>) -> Seq<SymbolId> {
    Seq::new(s.len(), |i: int| s[i].id_spec())
}

impl View for Fingerprint {
    type V = Sums;

    open spec fn view(&self) -> Sums {
        Sums {
            sym1: self.sym1,
            sym3: self.sym3,
            fix1: self.fix1,
            fix3: self.fix3,
            heads: symbol_ids(self.heads@),
        }
    }
}

/// The symbol, with its name, is the head of the shape, and of none before with
/// its identity.
pub open spec fn heads_first(shapes: Seq<LitShape>, sym: Symbol, i: int) -> bool {
    &&& 0 <= i < shapes.len()
    &&& shapes[i].head@ == HeadView::Sym(sym.id_spec())
    &&& head_name(shapes[i].head) == Some(sym.name_spec())
    &&& forall|j: int| 0 <= j < i ==> (#[trigger] shapes[j]).head@ != HeadView::Sym(sym.id_spec())
}

/// The symbol was taken from the first shape with its identity at the head.
pub open spec fn shape_taken(shapes: Seq<LitShape>, sym: Symbol) -> bool {
    exists|i: int| heads_first(shapes, sym, i)
}

/// Puts the symbol at the end, unless one with its identity is there.
fn note_head(heads: &mut Vec<Symbol>, sym: &Symbol)
    ensures
        old(heads)@.len() <= final(heads)@.len() <= old(heads)@.len() + 1,
        forall|k: int| 0 <= k < old(heads)@.len() ==> #[trigger] final(heads)@[k] == old(heads)@[k],
        final(heads)@.len() > old(heads)@.len() ==> final(heads)@.last().id_spec() == sym.id_spec()
            && final(heads)@.last().name_spec() == sym.name_spec(),
        symbol_ids(final(heads)@) == if symbol_ids(old(heads)@).contains(sym.id_spec()) {
            symbol_ids(old(heads)@)
        } else {
            symbol_ids(old(heads)@).push(sym.id_spec())
        },
{
    let ghost before = symbol_ids(heads@);
    let mut i: usize = 0;
    while i < heads.len()
        invariant
            i <= heads@.len(),
            before == symbol_ids(heads@),
            heads@ == old(heads)@,
            forall|k: int| 0 <= k < i ==> before[k] != sym.id_spec(),
        decreases heads@.len() - i,
    {
        assert(before[i as int] == heads@[i as int].id_spec());
        if heads[i].id() == sym.id() {
            return;
        }
        i += 1;
    }
    heads.push(sym.clone());
    assert(symbol_ids(heads@) =~= before.push(sym.id_spec()));
}

proof fn lemma_head_noted(shapes: Seq<LitShape>, known: Seq<Symbol>, heads: Seq<Symbol>, sym: Symbol, i: int)
    requires
        0 <= i < shapes.len(),
        shapes[i].head == HeadK::Sym(sym),
        forall|k: int| 0 <= k < known.len() ==> shape_taken(shapes, #[trigger] known[k]),
        forall|j: int|
            0 <= j < i && (#[trigger] shapes[j]).head@ is Sym ==> symbol_ids(known).contains(shapes[j].head@->Sym_0),
        known.len() <= heads.len() <= known.len() + 1,
        forall|k: int| 0 <= k < known.len() ==> #[trigger] heads[k] == known[k],
        heads.len() > known.len() ==> heads.last().id_spec() == sym.id_spec() && heads.last().name_spec()
            == sym.name_spec(),
        symbol_ids(heads) == if symbol_ids(known).contains(sym.id_spec()) {
            symbol_ids(known)
        } else {
            symbol_ids(known).push(sym.id_spec())
        },
    ensures
        forall|k: int| 0 <= k < heads.len() ==> shape_taken(shapes, #[trigger] heads[k]),
        forall|j: int|
            0 <= j < i + 1 && (#[trigger] shapes[j]).head@ is Sym ==> symbol_ids(heads).contains(
                shapes[j].head@->Sym_0,
            ),
{
    let (a, b) = (symbol_ids(known), symbol_ids(heads));
    assert forall|x: SymbolId| a.contains(x) implies #[trigger] b.contains(x) by {
        assert(b[a.index_of(x)] == x);
    }
    if !a.contains(sym.id_spec()) {
        assert(b[a.len() as int] == sym.id_spec());
    }
    assert forall|k: int| 0 <= k < heads.len() implies shape_taken(shapes, #[trigger] heads[k]) by {
        if k < known.len() {
            assert(heads[k] == known[k]);
        } else {
            assert(a.len() == known.len() && b.len() == heads.len());
            assert(!a.contains(sym.id_spec()));
            assert(heads_first(shapes, heads[k], i));
        }
    }
}

/// The fingerprint of a clause.
pub fn fingerprint(shapes: &Vec<LitShape>) -> (fp: Fingerprint)
    ensures
        fp@ == sums(shape_views(shapes@)),
        forall|k: int| 0 <= k < fp.heads@.len() ==> shape_taken(shapes@, #[trigger] fp.heads@[k]),
{
    let ghost ss = shape_views(shapes@);
    let mut fp: Fingerprint = Fingerprint {
        sym1: 0,
        sym3: 0,
        fix1: 0,
        fix3: 0,
        heads: Vec::new(),
    };
    assert(symbol_ids(fp.heads@) =~= Seq::empty());
    let mut i: usize = 0;
    while i < shapes.len()
        invariant
            i <= shapes@.len(),
            ss == shape_views(shapes@),
            fp@ == sums(ss.take(i as int)),
            forall|k: int| 0 <= k < fp.heads@.len() ==> shape_taken(shapes@, #[trigger] fp.heads@[k]),
            forall|j: int|
                0 <= j < i && (#[trigger] shapes@[j]).head@ is Sym ==> symbol_ids(fp.heads@).contains(
                    shapes@[j].head@->Sym_0,
                ),
        decreases shapes@.len() - i,
    {
        assert(ss.take(i + 1).drop_last() =~= ss.take(i as int));
        assert(ss.take(i + 1).last() == shapes@[i as int]@);
        let ghost known = fp.heads@;
        let s: &LitShape = &shapes[i];
        let k: u64 = k_lit(s);
        match &s.head {
            HeadK::Sym(sym) => {
                let c: u64 = crate::gf64::mul(k, h_sym(sym.id()));
                fp.sym1 = fp.sym1 ^ c;
                fp.sym3 = fp.sym3 ^ cube(c);
                note_head(&mut fp.heads, sym);
                proof {
                    lemma_head_noted(shapes@, known, fp.heads@, *sym, i as int);
                }
            },
            HeadK::Eq => {
                let c: u64 = crate::gf64::mul(k, H_EQ);
                fp.fix1 = fp.fix1 ^ c;
                fp.fix3 = fp.fix3 ^ cube(c);
            },
            HeadK::Var(_) => {
                let c: u64 = crate::gf64::mul(k, H_VAR);
                fp.fix1 = fp.fix1 ^ c;
                fp.fix3 = fp.fix3 ^ cube(c);
            },
        }
        i += 1;
    }
    assert(ss.take(i as int) =~= ss);
    fp
}

impl Fingerprint {
    /// The table key: the symbol sums divided by the factor of the single
    /// head, and the other sums.
    pub fn key(&self) -> (r: Option<u64>)
        ensures
            r == (if self@.heads.len() != 1 {
                None
            } else {
                let ih = inverse(head_factor(self@.heads[0]));
                Some(
                    key_digest(
                        product(self.sym1, ih),
                        product(self.sym3, cubed(ih)),
                        self.fix1,
                        self.fix3,
                    ),
                )
            }),
    {
        if self.heads.len() != 1 {
            return None;
        }
        assert(self@.heads[0] == self.heads@[0].id_spec());
        let ih: u64 = inv(h_sym(self.heads[0].id()));
        let n1: u64 = crate::gf64::mul(self.sym1, ih);
        let n3: u64 = crate::gf64::mul(self.sym3, cube(ih));
        let mut buf: Vec<u8> = Vec::new();
        push_be(&mut buf, n1);
        push_be(&mut buf, n3);
        push_be(&mut buf, self.fix1);
        push_be(&mut buf, self.fix3);
        assert(buf@ =~= be_bytes(n1) + be_bytes(n3) + be_bytes(self.fix1) + be_bytes(self.fix3));
        Some(xxh64(buf.as_slice(), KEY_SEED))
    }
}

// ---------------------------------------------------------------------------
// The relation cancels
// ---------------------------------------------------------------------------

/// The sum of the coins of the literals with a symbol head.
pub open spec fn bare1(ss: Seq<Shape>) -> u64
    decreases ss.len(),
{
    if ss.len() == 0 {
        0u64
    } else if ss.last().head is Sym {
        bare1(ss.drop_last()) ^ coin(ss.last())
    } else {
        bare1(ss.drop_last())
    }
}

/// The sum of the cubes of those coins.
pub open spec fn bare3(ss: Seq<Shape>) -> u64
    decreases ss.len(),
{
    if ss.len() == 0 {
        0u64
    } else if ss.last().head is Sym {
        bare3(ss.drop_last()) ^ cubed(coin(ss.last()))
    } else {
        bare3(ss.drop_last())
    }
}

/// Every symbol head of the clause is `r`.
pub open spec fn headed_by(ss: Seq<Shape>, r: SymbolId) -> bool {
    forall|i: int| 0 <= i < ss.len() ==> match (#[trigger] ss[i]).head {
        HeadView::Sym(id) => id == r,
        _ => true,
    }
}

/// The clause with every symbol head replaced by `q`.
pub open spec fn reheaded(ss: Seq<Shape>, q: SymbolId) -> Seq<Shape> {
    Seq::new(
        ss.len(),
        |i: int|
            match ss[i].head {
                HeadView::Sym(_) => Shape { head: HeadView::Sym(q), ..ss[i] },
                _ => ss[i],
            },
    )
}

/// The sums of a clause with one relation are multiples of its factor.
pub proof fn lemma_sums_factor(ss: Seq<Shape>, r: SymbolId)
    requires
        headed_by(ss, r),
    ensures
        sums(ss).sym1 == product(bare1(ss), head_factor(r)),
        sums(ss).sym3 == product(bare3(ss), cubed(head_factor(r))),
        sums(ss).heads == Seq::<SymbolId>::empty() || sums(ss).heads == seq![r],
    decreases ss.len(),
{
    let h = head_factor(r);
    law_product_one(h);
    law_product_one(cubed(h));
    if ss.len() > 0 {
        let front = ss.drop_last();
        let s = ss.last();
        assert forall|i: int| 0 <= i < front.len() implies match (#[trigger] front[i]).head {
            HeadView::Sym(id) => id == r,
            _ => true,
        } by {
            assert(front[i] == ss[i]);
        }
        lemma_sums_factor(front, r);
        assert(ss[ss.len() - 1] == s);
        if let HeadView::Sym(id) = s.head {
            let k = coin(s);
            law_product_adds_left(bare1(front), k, h);
            law_cube_multiplies(k, h);
            law_product_adds_left(bare3(front), cubed(k), cubed(h));
            if sums(front).heads == seq![r] {
                assert(sums(front).heads[0] == r);
                assert(sums(front).heads.contains(r));
            } else {
                assert(!sums(front).heads.contains(r));
                assert(Seq::<SymbolId>::empty().push(r) =~= seq![r]);
            }
        }
    }
}

proof fn lemma_divide(x: u64, h: u64)
    requires
        h != 0,
    ensures
        product(product(x, h), inverse(h)) == x,
{
    law_product_associates(x, h, inverse(h));
    law_inverse(h);
    law_product_one(x);
}

proof fn lemma_factor_invertible(r: SymbolId)
    ensures
        head_factor(r) != 0,
{
    let d = xxh64_digest(be_bytes(r), HEAD_SEED);
    assert(d | 1 != 0) by (bit_vector);
}

/// The head factor cancels: the key of a clause with the single symbol head
/// `r` is a function of its bare coins alone.
pub proof fn law_relation_cancels(ss: Seq<Shape>, r: SymbolId)
    requires
        headed_by(ss, r),
        sums(ss).heads.len() == 1,
    ensures
        table_key(ss) == Some(key_digest(bare1(ss), bare3(ss), sums(ss).fix1, sums(ss).fix3)),
{
    let h = head_factor(r);
    let ih = inverse(h);
    lemma_sums_factor(ss, r);
    lemma_factor_invertible(r);
    assert(sums(ss).heads[0] == r);
    lemma_divide(bare1(ss), h);
    // the cube of the inverse is the inverse of the cube
    law_inverse(h);
    law_cube_multiplies(h, ih);
    law_product_one(1);
    law_product_associates(bare3(ss), cubed(h), cubed(ih));
    law_product_one(bare3(ss));
}

proof fn lemma_reheaded(ss: Seq<Shape>, q: SymbolId)
    ensures
        bare1(reheaded(ss, q)) == bare1(ss),
        bare3(reheaded(ss, q)) == bare3(ss),
        sums(reheaded(ss, q)).fix1 == sums(ss).fix1,
        sums(reheaded(ss, q)).fix3 == sums(ss).fix3,
        sums(ss).heads.len() > 0 ==> sums(reheaded(ss, q)).heads.len() > 0,
        headed_by(reheaded(ss, q), q),
    decreases ss.len(),
{
    if ss.len() > 0 {
        let front = ss.drop_last();
        lemma_reheaded(front, q);
        assert(reheaded(ss, q).drop_last() =~= reheaded(front, q));
        assert(reheaded(ss, q).last() == match ss.last().head {
            HeadView::Sym(_) => Shape { head: HeadView::Sym(q), ..ss.last() },
            _ => ss.last(),
        });
        assert(coin(reheaded(ss, q).last()) == coin(ss.last()));
    }
}

/// Clauses that differ only in their single relation have the same key.
pub proof fn law_key_is_the_same_for_every_relation(ss: Seq<Shape>, r: SymbolId, q: SymbolId)
    requires
        headed_by(ss, r),
        sums(ss).heads.len() == 1,
    ensures
        table_key(reheaded(ss, q)) == table_key(ss),
{
    law_relation_cancels(ss, r);
    lemma_reheaded(ss, q);
    lemma_sums_factor(reheaded(ss, q), q);
    assert(seq![q].len() == 1);
    law_relation_cancels(reheaded(ss, q), q);
}

// ---------------------------------------------------------------------------
// The table
// ---------------------------------------------------------------------------

/// The number of source patterns.
pub const PATTERNS: usize = 15;

/// The literal `(head a b)`.
pub open spec fn pattern_lit(pos: bool, head: Tree, a: Tree, b: Tree) -> LitView {
    LitView { pos, term: Tree::App(seq![head, a, b]) }
}

/// The source patterns: a kind, and the literals of a clause that states it.
/// Where the canonical order leaves two literals as they come, each order is a
/// pattern of its own.
pub open spec fn pattern(n: int) -> (SchemaKind, Seq<LitView>) {
    pattern_over(n, name_id("schema-rel"@))
}

/// The source pattern with the given relation in its place; a second-order rule
/// names none.
pub open spec fn pattern_over(n: int, rel: SymbolId) -> (SchemaKind, Seq<LitView>) {
    let r = Tree::Sym(rel);
    let instance = Tree::Sym(name_id("instance"@));
    let symmetric = Tree::Sym(name_id("SymmetricRelation"@));
    let transitive = Tree::Sym(name_id("TransitiveRelation"@));
    let eq = Tree::Op(OpKind::Equal);
    let (x, y, z, rv) = (Tree::Var(0), Tree::Var(1), Tree::Var(2), Tree::Var(3));
    if n == 0 {
        (SchemaKind::Symmetry, seq![pattern_lit(false, r, x, y), pattern_lit(true, r, y, x)])
    } else if n == 1 {
        (SchemaKind::Irreflexivity, seq![pattern_lit(false, r, x, x)])
    } else if n == 2 {
        (
            SchemaKind::SymMetaschema,
            seq![
                pattern_lit(false, instance, rv, symmetric),
                pattern_lit(false, rv, x, y),
                pattern_lit(true, rv, y, x),
            ],
        )
    } else if n < 7 {
        let (from, to) = if n == 3 || n == 5 {
            (x, y)
        } else {
            (y, x)
        };
        if n < 5 {
            (
                SchemaKind::EqSubstitution,
                seq![
                    pattern_lit(false, eq, x, y),
                    pattern_lit(false, r, from, z),
                    pattern_lit(true, r, to, z),
                ],
            )
        } else {
            (
                SchemaKind::EqSubstitution,
                seq![
                    pattern_lit(false, eq, x, y),
                    pattern_lit(false, r, z, from),
                    pattern_lit(true, r, z, to),
                ],
            )
        }
    } else if n < 9 {
        let (first, second) = (pattern_lit(false, r, x, y), pattern_lit(false, r, y, z));
        if n == 7 {
            (SchemaKind::Transitivity, seq![first, second, pattern_lit(true, r, x, z)])
        } else {
            (SchemaKind::Transitivity, seq![second, first, pattern_lit(true, r, x, z)])
        }
    } else if n < 11 {
        let guard = pattern_lit(false, instance, rv, transitive);
        let (first, second) = (pattern_lit(false, rv, x, y), pattern_lit(false, rv, y, z));
        if n == 9 {
            (SchemaKind::TransMetaschema, seq![guard, first, second, pattern_lit(true, rv, x, z)])
        } else {
            (SchemaKind::TransMetaschema, seq![guard, second, first, pattern_lit(true, rv, x, z)])
        }
    } else {
        let (first, second) = (pattern_lit(false, r, x, y), pattern_lit(false, r, y, x));
        let equal = if n == 11 || n == 13 {
            pattern_lit(true, eq, x, y)
        } else {
            pattern_lit(true, eq, y, x)
        };
        if n < 13 {
            (SchemaKind::Antisymmetry, seq![first, second, equal])
        } else {
            (SchemaKind::Antisymmetry, seq![second, first, equal])
        }
    }
}

/// The key of a clause in canonical form.
pub open spec fn clause_key(lits: Seq<LitView>) -> Option<u64> {
    match shapes_of(lits) {
        Some(ss) => table_key(ss),
        None => None,
    }
}

/// The table of the first `n` patterns.
pub open spec fn table(n: nat) -> Map<u64, SchemaKind>
    decreases n,
{
    if n == 0 {
        Map::empty()
    } else {
        let (kind, lits) = pattern(n - 1);
        match clause_key(canonical_form(lits)) {
            Some(k) => table((n - 1) as nat).insert(k, kind),
            None => table((n - 1) as nat),
        }
    }
}

/// What the recognizer found: the kind and the relation, for an inverse pair
/// both relations, for a second-order rule none.
pub struct SchemaHit {
    pub kind: SchemaKind,
    pub rel: Option<Symbol>,
    pub rel2: Option<Symbol>,
}

/// A hit with its relations by identity.
pub struct HitView {
    pub kind: SchemaKind,
    pub rel: Option<SymbolId>,
    pub rel2: Option<SymbolId>,
}

/// The identity of an optional symbol.
pub open spec fn optional_id(s: Option<Symbol>) -> Option<SymbolId> {
    match s {
        Some(sym) => Some(sym.id_spec()),
        None => None,
    }
}

impl View for SchemaHit {
    type V = HitView;

    open spec fn view(&self) -> HitView {
        HitView { kind: self.kind, rel: optional_id(self.rel), rel2: optional_id(self.rel2) }
    }
}

/// The head of the literal's atom is the symbol.
pub open spec fn symbol_heads(l: LitView, id: SymbolId) -> bool {
    l.term matches Tree::App(ts) && ts.len() > 0 && ts[0] == Tree::Sym(id)
}

/// The symbol, with its name, is the head of the literal, and of none before with
/// its identity.
pub open spec fn named_first(lits: Seq<PLit>, sym: Symbol, i: int) -> bool {
    &&& 0 <= i < lits.len()
    &&& symbol_heads(lits[i]@, sym.id_spec())
    &&& first_name(lits[i].term) == Some(sym.name_spec())
    &&& forall|j: int| 0 <= j < i ==> !symbol_heads((#[trigger] lits[j])@, sym.id_spec())
}

/// The symbol was taken, with its name, from the first literal with its identity
/// at the head.
pub open spec fn taken_from(lits: Seq<PLit>, sym: Symbol) -> bool {
    exists|i: int| named_first(lits, sym, i)
}

/// The relations of the hit carry the names that they have in the clause.
pub open spec fn keeps_names(lits: Seq<PLit>, h: SchemaHit) -> bool {
    (h.rel matches Some(r) ==> taken_from(lits, r)) && (h.rel2 matches Some(r) ==> taken_from(lits, r))
}

/// What is taken from the shapes is taken from the literals.
proof fn lemma_names_back(lits: Seq<PLit>, shapes: Seq<LitShape>, sym: Symbol)
    requires
        lits.len() == shapes.len(),
        forall|k: int|
            0 <= k < lits.len() ==> head_name((#[trigger] shapes[k]).head) == first_name(lits[k].term) && (
            shapes[k].head@ == HeadView::Sym(sym.id_spec())) == symbol_heads(lits[k]@, sym.id_spec()),
        shape_taken(shapes, sym),
    ensures
        taken_from(lits, sym),
{
    let i = choose|i: int| heads_first(shapes, sym, i);
    assert(head_name(shapes[i].head) == first_name(lits[i].term));
    assert forall|j: int| 0 <= j < i implies !symbol_heads((#[trigger] lits[j])@, sym.id_spec()) by {
        assert(shapes[j].head@ != HeadView::Sym(sym.id_spec()));
    }
    assert(named_first(lits, sym, i));
}

proof fn lemma_hit_names(lits: Seq<PLit>, shapes: Seq<LitShape>, r: Option<SchemaHit>)
    requires
        lits.len() == shapes.len(),
        forall|k: int| 0 <= k < lits.len() ==> head_name((#[trigger] shapes[k]).head) == first_name(lits[k].term),
        forall|k: int, id: SymbolId|
            0 <= k < lits.len() ==> (shapes[k].head@ == HeadView::Sym(id)) == #[trigger] symbol_heads(lits[k]@, id),
        r matches Some(h) ==> (h.rel matches Some(s) ==> shape_taken(shapes, s)),
        r matches Some(h) ==> (h.rel2 matches Some(s) ==> shape_taken(shapes, s)),
    ensures
        r matches Some(h) ==> keeps_names(lits, h),
{
    if let Some(h) = r {
        if let Some(s) = h.rel {
            lemma_names_back(lits, shapes, s);
        }
        if let Some(s) = h.rel2 {
            lemma_names_back(lits, shapes, s);
        }
    }
}

proof fn lemma_shape_heads(ls: Seq<LitView>, ss: Seq<Shape>)
    requires
        shapes_of(ls) == Some(ss),
    ensures
        ls.len() == ss.len(),
        forall|k: int, id: SymbolId|
            0 <= k < ls.len() ==> (ss[k].head == HeadView::Sym(id)) == #[trigger] symbol_heads(ls[k], id),
{
    assert forall|k: int, id: SymbolId| 0 <= k < ls.len() implies (ss[k].head == HeadView::Sym(id))
        == #[trigger] symbol_heads(ls[k], id) by {
        assert(shape_of(ls[k].pos, ls[k].term) == Some(ss[k]));
    }
}

/// Slots in place of variables leave the symbols at the heads.
proof fn lemma_slotted_heads(ids: Seq<SymbolId>, l: LitView, id: SymbolId)
    ensures
        symbol_heads(LitView { pos: l.pos, term: slotted(ids, 0, l.term) }, id) == symbol_heads(l, id),
{
    let f = |v: int|
        match slot_of(ids, v) {
            Some(k) => Tree::Var(k + 0),
            None => Tree::Var(v),
        };
    if let Tree::App(ts) = l.term {
        lemma_inst_app(f, ts);
        if ts.len() > 0 {
            assert(insts(f, ts)[0] == inst(f, ts[0]));
            if let Tree::App(us) = ts[0] {
                lemma_inst_app(f, us);
            }
        }
    }
}

/// What the recognizer finds in a clause with the given shapes.
pub open spec fn hit_of(map: Map<u64, SchemaKind>, ss: Seq<Shape>) -> Option<HitView> {
    let heads = sums(ss).heads;
    if heads.len() == 2 && ss.len() == 2 {
        if states(SchemaKind::Inverse, ss) {
            let (neg, pos) = if ss[0].pos {
                (ss[1], ss[0])
            } else {
                (ss[0], ss[1])
            };
            Some(
                HitView {
                    kind: SchemaKind::Inverse,
                    rel: Some(neg.head->Sym_0),
                    rel2: Some(pos.head->Sym_0),
                },
            )
        } else {
            None
        }
    } else if table_key(ss) is Some && map.dom().contains(table_key(ss)->0) {
        let kind = map[table_key(ss)->0];
        if states(kind, ss) {
            Some(
                HitView {
                    kind,
                    rel: if kind == SchemaKind::SymMetaschema || kind
                        == SchemaKind::TransMetaschema {
                        None
                    } else {
                        Some(heads[0])
                    },
                    rel2: None,
                },
            )
        } else {
            None
        }
    } else {
        None
    }
}

/// What the recognizer finds in a clause in slot form.
pub open spec fn probed(map: Map<u64, SchemaKind>, lits: Seq<LitView>) -> Option<HitView> {
    if lits.len() == 0 || lits.len() > 4 {
        None
    } else {
        match shapes_of(lits) {
            Some(ss) => hit_of(map, ss),
            None => None,
        }
    }
}

/// The literal `(head a b)`.
fn make_lit(pos: bool, head: &Term, a: &Term, b: &Term) -> (l: PLit)
    ensures
        l@ == pattern_lit(pos, head@, a@, b@),
{
    let mut elems: Vec<Term> = Vec::new();
    elems.push(head.clone());
    elems.push(a.clone());
    elems.push(b.clone());
    assert(views(elems@) =~= seq![head@, a@, b@]);
    PLit { pos, term: Term::App(elems) }
}

/// The literals as a vector.
fn list_lits(a: PLit, b: Option<PLit>, c: Option<PLit>, d: Option<PLit>) -> (v: Vec<PLit>)
    requires
        d is Some ==> c is Some,
        c is Some ==> b is Some,
    ensures
        b is None ==> lit_views(v@) == seq![a@],
        b is Some && c is None ==> lit_views(v@) == seq![a@, (b->0)@],
        c is Some && d is None ==> lit_views(v@) == seq![a@, (b->0)@, (c->0)@],
        d is Some ==> lit_views(v@) == seq![a@, (b->0)@, (c->0)@, (d->0)@],
{
    let mut v: Vec<PLit> = Vec::new();
    v.push(a);
    if let Some(b) = b {
        v.push(b);
    }
    if let Some(c) = c {
        v.push(c);
    }
    if let Some(d) = d {
        v.push(d);
    }
    assert(b is None ==> lit_views(v@) =~= seq![a@]);
    assert(b is Some && c is None ==> lit_views(v@) =~= seq![a@, (b->0)@]);
    assert(c is Some && d is None ==> lit_views(v@) =~= seq![a@, (b->0)@, (c->0)@]);
    assert(d is Some ==> lit_views(v@) =~= seq![a@, (b->0)@, (c->0)@, (d->0)@]);
    v
}

/// The source pattern `n`.
fn source_pattern(n: usize) -> (p: (SchemaKind, Vec<PLit>))
    requires
        n < PATTERNS,
    ensures
        (p.0, lit_views(p.1@)) == pattern(n as int),
{
    let r: Term = Term::Sym(Symbol::new("schema-rel"));
    let instance: Term = Term::Sym(Symbol::new("instance"));
    let symmetric: Term = Term::Sym(Symbol::new("SymmetricRelation"));
    let transitive: Term = Term::Sym(Symbol::new("TransitiveRelation"));
    let eq: Term = Term::Op(OpKind::Equal);
    let (x, y, z, rv) = (Term::Var(0), Term::Var(1), Term::Var(2), Term::Var(3));
    if n == 0 {
        (
            SchemaKind::Symmetry,
            list_lits(make_lit(false, &r, &x, &y), Some(make_lit(true, &r, &y, &x)), None, None),
        )
    } else if n == 1 {
        (SchemaKind::Irreflexivity, list_lits(make_lit(false, &r, &x, &x), None, None, None))
    } else if n == 2 {
        (
            SchemaKind::SymMetaschema,
            list_lits(
                make_lit(false, &instance, &rv, &symmetric),
                Some(make_lit(false, &rv, &x, &y)),
                Some(make_lit(true, &rv, &y, &x)),
                None,
            ),
        )
    } else if n < 7 {
        let (from, to) = if n == 3 || n == 5 {
            (&x, &y)
        } else {
            (&y, &x)
        };
        let equal: PLit = make_lit(false, &eq, &x, &y);
        if n < 5 {
            (
                SchemaKind::EqSubstitution,
                list_lits(
                    equal,
                    Some(make_lit(false, &r, from, &z)),
                    Some(make_lit(true, &r, to, &z)),
                    None,
                ),
            )
        } else {
            (
                SchemaKind::EqSubstitution,
                list_lits(
                    equal,
                    Some(make_lit(false, &r, &z, from)),
                    Some(make_lit(true, &r, &z, to)),
                    None,
                ),
            )
        }
    } else if n < 9 {
        let first: PLit = make_lit(false, &r, &x, &y);
        let second: PLit = make_lit(false, &r, &y, &z);
        let last: PLit = make_lit(true, &r, &x, &z);
        if n == 7 {
            (SchemaKind::Transitivity, list_lits(first, Some(second), Some(last), None))
        } else {
            (SchemaKind::Transitivity, list_lits(second, Some(first), Some(last), None))
        }
    } else if n < 11 {
        let guard: PLit = make_lit(false, &instance, &rv, &transitive);
        let first: PLit = make_lit(false, &rv, &x, &y);
        let second: PLit = make_lit(false, &rv, &y, &z);
        let last: PLit = make_lit(true, &rv, &x, &z);
        if n == 9 {
            (
                SchemaKind::TransMetaschema,
                list_lits(guard, Some(first), Some(second), Some(last)),
            )
        } else {
            (
                SchemaKind::TransMetaschema,
                list_lits(guard, Some(second), Some(first), Some(last)),
            )
        }
    } else {
        let first: PLit = make_lit(false, &r, &x, &y);
        let second: PLit = make_lit(false, &r, &y, &x);
        let equal: PLit = if n == 11 || n == 13 {
            make_lit(true, &eq, &x, &y)
        } else {
            make_lit(true, &eq, &y, &x)
        };
        if n < 13 {
            (SchemaKind::Antisymmetry, list_lits(first, Some(second), Some(equal), None))
        } else {
            (SchemaKind::Antisymmetry, list_lits(second, Some(first), Some(equal), None))
        }
    }
}

/// The shapes of literals in slot form.
fn read_shapes(lits: &Vec<PLit>) -> (r: Option<Vec<LitShape>>)
    ensures
        match r {
            Some(v) => shapes_of(lit_views(lits@)) == Some(shape_views(v@)),
            None => shapes_of(lit_views(lits@)) is None,
        },
        r matches Some(v) ==> v@.len() == lits@.len() && forall|k: int|
            0 <= k < v@.len() ==> head_name((#[trigger] v@[k]).head) == first_name(lits@[k].term),
{
    let ghost ls = lit_views(lits@);
    let mut out: Vec<LitShape> = Vec::new();
    let mut i: usize = 0;
    while i < lits.len()
        invariant
            i <= lits@.len(),
            ls == lit_views(lits@),
            out@.len() == i,
            forall|k: int|
                0 <= k < i ==> shape_of(ls[k].pos, (#[trigger] ls[k]).term) == Some(out@[k]@),
            forall|k: int| 0 <= k < i ==> head_name((#[trigger] out@[k]).head) == first_name(lits@[k].term),
        decreases lits@.len() - i,
    {
        assert(ls[i as int] == lits@[i as int]@);
        match shape_of_term(lits[i].pos, &lits[i].term) {
            Some(s) => {
                out.push(s);
            },
            None => {
                assert(shape_of(ls[i as int].pos, ls[i as int].term) is None);
                return None;
            },
        }
        i += 1;
    }
    assert(shape_views(out@) =~= Seq::new(
        ls.len(),
        |k: int| shape_of(ls[k].pos, ls[k].term)->0,
    ));
    Some(out)
}

/// The table of pattern keys.
pub struct SchemaTable {
    map: HashMap<u64, SchemaKind>,
}

impl View for SchemaTable {
    type V = Map<u64, SchemaKind>;

    closed spec fn view(&self) -> Map<u64, SchemaKind> {
        self.map@
    }
}

/// A pattern has no more variables than there are slots.
pub proof fn lemma_pattern_variables(n: int)
    requires
        0 <= n < PATTERNS,
    ensures
        crate::clause::variables(crate::clause::ordered(pattern(n).1, 6)).len() <= u32::MAX,
{
    let lits = pattern(n).1;
    assert(lits.len() <= 4);
    lemma_ordered_len(lits, 6);
    let sorted = crate::clause::ordered(lits, 6);
    assert(forall|i: int| 0 <= i < lits.len() ==> crate::subst::size((#[trigger] lits[i]).term) <= 4) by {
        assert forall|i: int| 0 <= i < lits.len() implies crate::subst::size((#[trigger] lits[i]).term) <= 4 by {
            lemma_pattern_size(lits[i].term);
        }
    }
    lemma_ordered_sizes(lits, 6, 4);
    lemma_variables_bound(sorted, 4);
    assert(4 * sorted.len() <= 96) by (nonlinear_arith)
        requires
            sorted.len() <= 6 * 4,
    ;
}

/// A literal of a pattern has four nodes.
proof fn lemma_pattern_size(t: Tree)
    requires
        t matches Tree::App(ts) && ts.len() == 3 && !(ts[0] is App) && !(ts[1] is App) && !(ts[2] is App),
    ensures
        crate::subst::size(t) <= 4,
{
    let ts = t->App_0;
    reveal_with_fuel(crate::subst::sizes, 4);
    let t2 = ts.drop_last();
    let t1 = t2.drop_last();
    assert(t2.last() == ts[1]);
    assert(t1.last() == ts[0]);
    assert(t1.drop_last().len() == 0);
    assert(crate::subst::size(ts[0]) == 1 && crate::subst::size(ts[1]) == 1 && crate::subst::size(ts[2]) == 1);
    assert(crate::subst::sizes(t1) == 1);
    assert(crate::subst::sizes(t2) == 2);
    assert(crate::subst::sizes(ts) == 3);
}

proof fn lemma_of_rank(lits: Seq<LitView>, r: int, bound: nat)
    requires
        forall|i: int| 0 <= i < lits.len() ==> crate::subst::size((#[trigger] lits[i]).term) <= bound,
    ensures
        crate::clause::of_rank(lits, r).len() <= lits.len(),
        forall|i: int|
            0 <= i < crate::clause::of_rank(lits, r).len() ==> crate::subst::size(
                (#[trigger] crate::clause::of_rank(lits, r)[i]).term,
            ) <= bound,
    decreases lits.len(),
{
    if lits.len() > 0 {
        let front = lits.drop_last();
        assert forall|i: int| 0 <= i < front.len() implies crate::subst::size((#[trigger] front[i]).term) <= bound by {
            assert(front[i] == lits[i]);
        }
        lemma_of_rank(front, r, bound);
        assert(crate::subst::size(lits[lits.len() - 1].term) <= bound);
    }
}

proof fn lemma_ordered_len(lits: Seq<LitView>, n: nat)
    ensures
        crate::clause::ordered(lits, n).len() <= n * lits.len(),
    decreases n,
{
    if n > 0 {
        lemma_ordered_len(lits, (n - 1) as nat);
        lemma_of_rank_len(lits, n - 1);
        assert((n - 1) * lits.len() + lits.len() == n * lits.len()) by (nonlinear_arith);
    } else {
        assert(0 * lits.len() == 0);
    }
}

proof fn lemma_of_rank_len(lits: Seq<LitView>, r: int)
    ensures
        crate::clause::of_rank(lits, r).len() <= lits.len(),
    decreases lits.len(),
{
    if lits.len() > 0 {
        lemma_of_rank_len(lits.drop_last(), r);
    }
}

proof fn lemma_ordered_sizes(lits: Seq<LitView>, n: nat, bound: nat)
    requires
        forall|i: int| 0 <= i < lits.len() ==> crate::subst::size((#[trigger] lits[i]).term) <= bound,
    ensures
        forall|i: int|
            0 <= i < crate::clause::ordered(lits, n).len() ==> crate::subst::size(
                (#[trigger] crate::clause::ordered(lits, n)[i]).term,
            ) <= bound,
    decreases n,
{
    if n > 0 {
        lemma_ordered_sizes(lits, (n - 1) as nat, bound);
        lemma_of_rank(lits, n - 1, bound);
    }
}

proof fn lemma_noted_bound(ids: Seq<SymbolId>, t: Tree)
    ensures
        crate::clause::noted(ids, t).len() <= ids.len() + crate::subst::size(t),
    decreases t,
{
    if let Tree::App(ts) = t {
        lemma_noted_all_bound(ids, ts);
        assert(crate::clause::noted(ids, t) == crate::clause::noted_all(ids, ts));
    }
}

proof fn lemma_noted_all_bound(ids: Seq<SymbolId>, ts: Seq<Tree>)
    ensures
        crate::clause::noted_all(ids, ts).len() <= ids.len() + crate::subst::sizes(ts),
    decreases ts,
{
    if ts.len() > 0 {
        lemma_noted_all_bound(ids, ts.drop_last());
        lemma_noted_bound(crate::clause::noted_all(ids, ts.drop_last()), ts.last());
        assert(crate::clause::noted_all(ids, ts) == crate::clause::noted(
            crate::clause::noted_all(ids, ts.drop_last()),
            ts.last(),
        ));
    }
}

proof fn lemma_variables_bound(lits: Seq<LitView>, bound: nat)
    requires
        forall|i: int| 0 <= i < lits.len() ==> crate::subst::size((#[trigger] lits[i]).term) <= bound,
    ensures
        crate::clause::variables(lits).len() <= bound * lits.len(),
    decreases lits.len(),
{
    if lits.len() > 0 {
        let front = lits.drop_last();
        assert forall|i: int| 0 <= i < front.len() implies crate::subst::size((#[trigger] front[i]).term) <= bound by {
            assert(front[i] == lits[i]);
        }
        lemma_variables_bound(front, bound);
        lemma_noted_bound(crate::clause::variables(front), lits.last().term);
        assert(crate::subst::size(lits[lits.len() - 1].term) <= bound);
        assert(bound * front.len() + bound == bound * lits.len()) by (nonlinear_arith)
            requires
                front.len() + 1 == lits.len(),
        ;
    } else {
        assert(bound * 0 == 0);
    }
}

impl SchemaTable {
    /// The table of all patterns, each entered under the key of its canonical
    /// form.
    pub fn build() -> (t: SchemaTable)
        ensures
            t@ == table(PATTERNS as nat),
    {
        broadcast use vstd::std_specs::hash::group_hash_axioms;

        let mut map: HashMap<u64, SchemaKind> = HashMap::new();
        let mut n: usize = 0;
        while n < PATTERNS
            invariant
                n <= PATTERNS,
                map@ == table(n as nat),
            decreases PATTERNS - n,
        {
            let (kind, lits) = source_pattern(n);
            proof {
                lemma_pattern_variables(n as int);
            }
            if let Some(canon) = canonical_clause(&lits) {
                if let Some(shapes) = read_shapes(&canon) {
                    if let Some(key) = fingerprint(&shapes).key() {
                        map.insert(key, kind);
                    }
                }
            }
            n += 1;
        }
        SchemaTable { map }
    }

    /// The number of keys.
    pub fn len(&self) -> (n: usize)
        ensures
            n == self@.dom().len(),
    {
        broadcast use vstd::std_specs::hash::group_hash_axioms;

        self.map.len()
    }

    /// What the recognizer finds in a clause with the given shapes.
    fn probe_shapes(&self, shapes: &Vec<LitShape>) -> (r: Option<SchemaHit>)
        ensures
            match r {
                Some(h) => hit_of(self@, shape_views(shapes@)) == Some(h@),
                None => hit_of(self@, shape_views(shapes@)) is None,
            },
            r matches Some(h) ==> (h.rel matches Some(s) ==> shape_taken(shapes@, s)),
            r matches Some(h) ==> (h.rel2 matches Some(s) ==> shape_taken(shapes@, s)),
    {
        broadcast use vstd::std_specs::hash::group_hash_axioms;

        let ghost ss = shape_views(shapes@);
        let fp: Fingerprint = fingerprint(shapes);
        assert(fp@.heads.len() == fp.heads@.len());
        if fp.heads.len() == 2 && shapes.len() == 2 {
            assert(ss[0] == shapes@[0]@ && ss[1] == shapes@[1]@);
            if verify(SchemaKind::Inverse, shapes) {
                let (neg, pos) = if shapes[0].pos {
                    (&shapes[1], &shapes[0])
                } else {
                    (&shapes[0], &shapes[1])
                };
                return match (&neg.head, &pos.head) {
                    (HeadK::Sym(a), HeadK::Sym(b)) => {
                        let (rel, rel2) = (a.clone(), b.clone());
                        proof {
                            let (n, p): (int, int) = if shapes@[0].pos {
                                (1, 0)
                            } else {
                                (0, 1)
                            };
                            assert(heads_first(shapes@, rel, n));
                            assert(heads_first(shapes@, rel2, p));
                        }
                        Some(SchemaHit { kind: SchemaKind::Inverse, rel: Some(rel), rel2: Some(rel2) })
                    },
                    _ => None,
                };
            }
            return None;
        }
        let key: u64 = match fp.key() {
            Some(k) => k,
            None => {
                return None;
            },
        };
        assert(fp@.heads[0] == fp.heads@[0].id_spec());
        let kind: SchemaKind = match self.map.get(&key) {
            Some(k) => *k,
            None => {
                return None;
            },
        };
        if !verify(kind, shapes) {
            return None;
        }
        let rel: Option<Symbol> = match kind {
            SchemaKind::SymMetaschema => None,
            SchemaKind::TransMetaschema => None,
            _ => Some(fp.heads[0].clone()),
        };
        proof {
            if rel is Some {
                assert(shape_taken(shapes@, fp.heads@[0]));
                let i = choose|i: int| heads_first(shapes@, fp.heads@[0], i);
                assert(heads_first(shapes@, rel->0, i));
            }
        }
        Some(SchemaHit { kind, rel, rel2: None })
    }

    /// What the recognizer finds in a clause in slot form.
    pub fn probe_terms(&self, lits: &Vec<PLit>) -> (r: Option<SchemaHit>)
        ensures
            finds(self@, lit_views(lits@), r),
            r matches Some(h) ==> keeps_names(lits@, h),
    {
        if lits.len() == 0 || lits.len() > 4 {
            return None;
        }
        match read_shapes(lits) {
            Some(shapes) => {
                let r = self.probe_shapes(&shapes);
                proof {
                    lemma_shape_heads(lit_views(lits@), shape_views(shapes@));
                    assert forall|k: int, id: SymbolId| 0 <= k < lits@.len() implies (shapes@[k].head@ == HeadView::Sym(
                        id,
                    )) == #[trigger] symbol_heads(lits@[k]@, id) by {
                        assert(lit_views(lits@)[k] == lits@[k]@);
                        assert(shape_views(shapes@)[k] == shapes@[k]@);
                    }
                    lemma_hit_names(lits@, shapes@, r);
                }
                r
            },
            None => None,
        }
    }

    /// What the recognizer finds in a clause over canonical variables: what it
    /// finds in the slot form.  A clause with another variable is none of the
    /// rules.
    pub fn probe(&self, lits: &Vec<PLit>, canon: &CanonVars) -> (r: Option<SchemaHit>)
        requires
            canon@.len() <= u32::MAX,
        ensures
            finds_canonical(self@, canon@, lit_views(lits@), r),
            r matches Some(h) ==> keeps_names(lits@, h),
    {
        let ghost ls = lit_views(lits@);
        let ghost us = crate::clause::slotted_lits(canon@, ls);
        if lits.len() == 0 || lits.len() > 4 {
            return None;
        }
        let mut out: Vec<LitShape> = Vec::new();
        let mut i: usize = 0;
        while i < lits.len()
            invariant
                i <= lits@.len(),
                0 < lits@.len() <= 4,
                ls == lit_views(lits@),
                us == crate::clause::slotted_lits(canon@, ls),
                canon@.len() <= u32::MAX,
                out@.len() == i,
                forall|k: int|
                    0 <= k < i ==> shape_of(us[k].pos, (#[trigger] us[k]).term) == Some(out@[k]@),
                forall|k: int| 0 <= k < i ==> canonical(canon@, (#[trigger] ls[k]).term),
                forall|k: int| 0 <= k < i ==> head_name((#[trigger] out@[k]).head) == first_name(lits@[k].term),
            decreases lits@.len() - i,
        {
            assert(ls[i as int] == lits@[i as int]@);
            assert(us[i as int].term == slotted(canon@, 0, ls[i as int].term));
            match shape_of_sentence(lits[i].pos, &lits[i].term, canon) {
                Some(s) => {
                    out.push(s);
                },
                None => {
                    proof {
                        if canonical(canon@, ls[i as int].term) {
                            assert(shape_of(us[i as int].pos, us[i as int].term) is None);
                            assert(shapes_of(us) is None);
                        }
                    }
                    return None;
                },
            }
            i += 1;
        }
        assert(shape_views(out@) =~= Seq::new(
            us.len(),
            |k: int| shape_of(us[k].pos, us[k].term)->0,
        ));
        assert(shapes_of(us) == Some(shape_views(out@)));
        let r = self.probe_shapes(&out);
        proof {
            lemma_shape_heads(us, shape_views(out@));
            assert forall|k: int, id: SymbolId| 0 <= k < lits@.len() implies (out@[k].head@ == HeadView::Sym(id))
                == #[trigger] symbol_heads(lits@[k]@, id) by {
                lemma_slotted_heads(canon@, ls[k], id);
                assert(shape_views(out@)[k] == out@[k]@);
                assert(symbol_heads(us[k], id) == symbol_heads(ls[k], id));
            }
            lemma_hit_names(lits@, out@, r);
        }
        r
    }
}

/// Every variable of the literals is canonical.
pub open spec fn all_canonical(ids: Seq<SymbolId>, lits: Seq<LitView>) -> bool {
    forall|i: int| 0 <= i < lits.len() ==> canonical(ids, (#[trigger] lits[i]).term)
}

/// The answer to a clause in slot form is what the recognizer finds in it.
pub open spec fn finds(map: Map<u64, SchemaKind>, lits: Seq<LitView>, r: Option<SchemaHit>) -> bool {
    match r {
        Some(h) => probed(map, lits) == Some(h@),
        None => probed(map, lits) is None,
    }
}

/// The answer to a clause over canonical variables is what the recognizer finds
/// in its slot form.  A clause with another variable has none.
pub open spec fn finds_canonical(
    map: Map<u64, SchemaKind>,
    ids: Seq<SymbolId>,
    lits: Seq<LitView>,
    r: Option<SchemaHit>,
) -> bool {
    match r {
        Some(h) => probed(map, crate::clause::slotted_lits(ids, lits)) == Some(h@) && all_canonical(ids, lits),
        None => probed(map, crate::clause::slotted_lits(ids, lits)) is None || !all_canonical(ids, lits),
    }
}

/// The two ways to ask agree: a clause over canonical variables and its slot form
/// get the same answer.
pub proof fn law_probes_agree(
    map: Map<u64, SchemaKind>,
    ids: Seq<SymbolId>,
    lits: Seq<LitView>,
    over: Option<SchemaHit>,
    slots: Option<SchemaHit>,
)
    requires
        all_canonical(ids, lits),
        finds_canonical(map, ids, lits, over),
        finds(map, crate::clause::slotted_lits(ids, lits), slots),
    ensures
        over is Some <==> slots is Some,
        over is Some ==> over->0@ == slots->0@,
{
}

/// Whatever the table says, a hit states its rule: a false key never gets past
/// the structural test.
pub proof fn law_hits_state_their_rule(map: Map<u64, SchemaKind>, lits: Seq<LitView>)
    requires
        probed(map, lits) is Some,
    ensures
        states((probed(map, lits)->0).kind, shapes_of(lits)->0),
{
}

// ---------------------------------------------------------------------------
// What the rules say
// ---------------------------------------------------------------------------

/// What the symbols stand for.
pub struct Model {
    /// which pairs a relation symbol holds of
    pub rel: spec_fn(SymbolId, int, int) -> bool,
    /// which pairs an object holds of, taken as a relation
    pub holds: spec_fn(int, int, int) -> bool,
    /// the object that a symbol names
    pub names: spec_fn(SymbolId) -> int,
}

/// What an argument stands for, where `val` says what the slots stand for.
pub open spec fn arg_val(m: Model, val: spec_fn(u32) -> int, a: ArgK) -> int {
    match a {
        ArgK::Slot(x) => val(x),
        ArgK::Sym(id) => (m.names)(id),
    }
}

/// The truth of a literal, where `val` says what the slots stand for.
pub open spec fn lit_true(m: Model, val: spec_fn(u32) -> int, s: Shape) -> bool {
    let (a, b) = (arg_val(m, val, s.a), arg_val(m, val, s.b));
    s.pos == match s.head {
        HeadView::Sym(id) => (m.rel)(id, a, b),
        HeadView::Eq => a == b,
        HeadView::Var(r) => (m.holds)(val(r), a, b),
    }
}

/// The clause holds: whatever the slots stand for, one of its literals is
/// true.
pub open spec fn clause_holds(m: Model, ss: Seq<Shape>) -> bool {
    forall|val: spec_fn(u32) -> int| #[trigger] clause_true(m, val, ss)
}

/// One of the literals is true.
pub open spec fn clause_true(
    m: Model,
    val: spec_fn(u32) -> int,
    ss: Seq<Shape>,
) -> bool {
    exists|i: int| 0 <= i < ss.len() && lit_true(m, val, #[trigger] ss[i])
}

/// A clause recognised as the symmetry of `r` holds exactly where `r` is
/// symmetric.
pub proof fn law_symmetry_means_symmetry(
    m: Model,
    ss: Seq<Shape>,
    r: SymbolId,
)
    requires
        symmetric(ss, HeadView::Sym(r)),
    ensures
        clause_holds(m, ss) <==> forall|a: int, b: int| #[trigger] (m.rel)(r, a, b) ==> (m.rel)(r, b, a),
{
    let h = HeadView::Sym(r);
    let (x, y) = choose|x: u32, y: u32| reversal(ss, h, h, x, y);
    if clause_holds(m, ss) {
        assert forall|a: int, b: int| #[trigger] (m.rel)(r, a, b) implies (m.rel)(r, b, a) by {
            let val = |v: u32| if v == x { a } else { b };
            assert(clause_true(m, val, ss));
        }
    }
    if forall|a: int, b: int| #[trigger] (m.rel)(r, a, b) ==> (m.rel)(r, b, a) {
        assert forall|val: spec_fn(u32) -> int| #[trigger] clause_true(m, val, ss) by {
            assert(lit_true(m, val, ss[0]) || lit_true(m, val, ss[1]));
        }
    }
}

/// A clause recognised as the transitivity of `r` holds exactly where `r` is
/// transitive.
pub proof fn law_transitivity_means_transitivity(
    m: Model,
    ss: Seq<Shape>,
    r: SymbolId,
)
    requires
        transitive(ss, HeadView::Sym(r)),
    ensures
        clause_holds(m, ss) <==> forall|a: int, b: int, c: int| #[trigger]
            (m.rel)(r, a, b) && #[trigger] (m.rel)(r, b, c) ==> (m.rel)(r, a, c),
{
    let h = HeadView::Sym(r);
    let (x, y, z, i, j, k) = choose|x: u32, y: u32, z: u32, i: int, j: int, k: int|
        composition(ss, h, x, y, z, i, j, k);
    assert(composition(ss, h, x, y, z, i, j, k));
    if clause_holds(m, ss) {
        assert forall|a: int, b: int, c: int| #[trigger] (m.rel)(r, a, b) && #[trigger] (m.rel)(r, b, c) implies (m.rel)(
            r,
            a,
            c,
        ) by {
            let val = |v: u32|
                if v == x {
                    a
                } else if v == y {
                    b
                } else {
                    c
                };
            assert(clause_true(m, val, ss));
            let l = choose|l: int| 0 <= l < ss.len() && lit_true(m, val, #[trigger] ss[l]);
            assert(l == i || l == j || l == k);
        }
    }
    if forall|a: int, b: int, c: int| #[trigger] (m.rel)(r, a, b) && #[trigger] (m.rel)(r, b, c) ==> (m.rel)(r, a, c) {
        assert forall|val: spec_fn(u32) -> int| #[trigger] clause_true(m, val, ss) by {
            assert(lit_true(m, val, ss[i]) || lit_true(m, val, ss[j]) || lit_true(m, val, ss[k]));
        }
    }
}

/// A clause recognised as an antisymmetry holds exactly where the relation is
/// antisymmetric.
pub proof fn law_antisymmetry_means_antisymmetry(
    m: Model,
    ss: Seq<Shape>,
    r: SymbolId,
    x: u32,
    y: u32,
    i: int,
    j: int,
    k: int,
)
    requires
        collapse(ss, r, x, y, i, j, k),
    ensures
        clause_holds(m, ss) <==> forall|a: int, b: int| #[trigger]
            (m.rel)(r, a, b) && (m.rel)(r, b, a) ==> a == b,
{
    if clause_holds(m, ss) {
        assert forall|a: int, b: int| #[trigger] (m.rel)(r, a, b) && (m.rel)(r, b, a) implies a == b by {
            let val = |v: u32| if v == x { a } else { b };
            assert(clause_true(m, val, ss));
            let l = choose|l: int| 0 <= l < ss.len() && lit_true(m, val, #[trigger] ss[l]);
            assert(l == i || l == j || l == k);
        }
    }
    if forall|a: int, b: int| #[trigger] (m.rel)(r, a, b) && (m.rel)(r, b, a) ==> a == b {
        assert forall|val: spec_fn(u32) -> int| #[trigger] clause_true(m, val, ss) by {
            assert(lit_true(m, val, ss[i]) || lit_true(m, val, ss[j]) || lit_true(m, val, ss[k]));
        }
    }
}

/// A clause recognised as an irreflexivity holds exactly where the relation is
/// irreflexive.
pub proof fn law_irreflexivity_means_irreflexivity(
    m: Model,
    ss: Seq<Shape>,
    r: SymbolId,
    x: u32,
)
    requires
        ss.len() == 1,
        ss[0] == lit(false, HeadView::Sym(r), x, x),
    ensures
        clause_holds(m, ss) <==> forall|a: int| !#[trigger] (m.rel)(r, a, a),
{
    if clause_holds(m, ss) {
        assert forall|a: int| !#[trigger] (m.rel)(r, a, a) by {
            let val = |v: u32| a;
            assert(clause_true(m, val, ss));
        }
    }
    if forall|a: int| !#[trigger] (m.rel)(r, a, a) {
        assert forall|val: spec_fn(u32) -> int| #[trigger] clause_true(m, val, ss) by {
            assert(lit_true(m, val, ss[0]));
        }
    }
}

/// A clause recognised as one half of an inverse pair holds exactly where
/// every pair of the one relation is, turned round, a pair of the other.
pub proof fn law_inverse_means_inverse(
    m: Model,
    ss: Seq<Shape>,
    r: SymbolId,
    q: SymbolId,
    x: u32,
    y: u32,
)
    requires
        reversal(ss, HeadView::Sym(r), HeadView::Sym(q), x, y),
    ensures
        clause_holds(m, ss) <==> forall|a: int, b: int| #[trigger] (m.rel)(r, a, b) ==> (m.rel)(q, b, a),
{
    if clause_holds(m, ss) {
        assert forall|a: int, b: int| #[trigger] (m.rel)(r, a, b) implies (m.rel)(q, b, a) by {
            let val = |v: u32| if v == x { a } else { b };
            assert(clause_true(m, val, ss));
        }
    }
    if forall|a: int, b: int| #[trigger] (m.rel)(r, a, b) ==> (m.rel)(q, b, a) {
        assert forall|val: spec_fn(u32) -> int| #[trigger] clause_true(m, val, ss) by {
            assert(lit_true(m, val, ss[0]) || lit_true(m, val, ss[1]));
        }
    }
}

/// A clause recognised as a substitution of equals holds everywhere: to drop it
/// loses nothing where equality is built in.
pub proof fn law_substitutions_always_hold(m: Model, ss: Seq<Shape>)
    requires
        states(SchemaKind::EqSubstitution, ss),
    ensures
        clause_holds(m, ss),
{
    let (r, p, q, i, j, k) = choose|r: SymbolId, p: u32, q: u32, i: int, j: int, k: int|
        substitution(ss, r, p, q, i, j, k);
    assert(substitution(ss, r, p, q, i, j, k));
    assert forall|val: spec_fn(u32) -> int| #[trigger] clause_true(m, val, ss) by {
        assert(lit_true(m, val, ss[i]) || lit_true(m, val, ss[j]) || lit_true(m, val, ss[k]));
    }
}

/// Every object of the class holds symmetrically.
pub open spec fn class_is_symmetric(m: Model, class: SymbolId) -> bool {
    forall|o: int, a: int, b: int|
        (m.rel)(name_id("instance"@), o, (m.names)(class)) && #[trigger] (m.holds)(o, a, b) ==> (m.holds)(
            o,
            b,
            a,
        )
}

/// Every object of the class holds transitively.
pub open spec fn class_is_transitive(m: Model, class: SymbolId) -> bool {
    forall|o: int, a: int, b: int, c: int|
        (m.rel)(name_id("instance"@), o, (m.names)(class)) && #[trigger] (m.holds)(o, a, b) && #[trigger] (
        m.holds)(o, b, c) ==> (m.holds)(o, a, c)
}

/// A clause recognised as the second-order rule of symmetry holds where every
/// symmetric relation is symmetric: to drop it loses nothing where that is
/// built in.
pub proof fn law_symmetric_classes_satisfy_their_rule(m: Model, ss: Seq<Shape>)
    requires
        states(SchemaKind::SymMetaschema, ss),
        class_is_symmetric(m, name_id("SymmetricRelation"@)),
    ensures
        clause_holds(m, ss),
{
    let class = name_id("SymmetricRelation"@);
    let (i, r) = choose|i: int, r: u32| #[trigger]
        guarded(ss, class, i, r) && symmetric(ss.remove(i), HeadView::Var(r));
    let rest = ss.remove(i);
    let h = HeadView::Var(r);
    let (x, y) = choose|x: u32, y: u32| reversal(rest, h, h, x, y);
    assert forall|val: spec_fn(u32) -> int| #[trigger] clause_true(m, val, ss) by {
        assert(lit_true(m, val, ss[i]) || lit_true(m, val, rest[0]) || lit_true(m, val, rest[1]));
        lemma_removed_true(m, val, ss, i);
    }
}

/// A clause recognised as the second-order rule of transitivity holds where
/// every transitive relation is transitive.
pub proof fn law_transitive_classes_satisfy_their_rule(m: Model, ss: Seq<Shape>)
    requires
        states(SchemaKind::TransMetaschema, ss),
        class_is_transitive(m, name_id("TransitiveRelation"@)),
    ensures
        clause_holds(m, ss),
{
    let class = name_id("TransitiveRelation"@);
    let (i, r) = choose|i: int, r: u32| #[trigger]
        guarded(ss, class, i, r) && transitive(ss.remove(i), HeadView::Var(r));
    let rest = ss.remove(i);
    let h = HeadView::Var(r);
    let (x, y, z, a, b, c) = choose|x: u32, y: u32, z: u32, a: int, b: int, c: int|
        composition(rest, h, x, y, z, a, b, c);
    assert(composition(rest, h, x, y, z, a, b, c));
    assert forall|val: spec_fn(u32) -> int| #[trigger] clause_true(m, val, ss) by {
        assert(lit_true(m, val, ss[i]) || lit_true(m, val, rest[a]) || lit_true(m, val, rest[b]) || lit_true(
            m,
            val,
            rest[c],
        ));
        lemma_removed_true(m, val, ss, i);
    }
}

/// A literal that is true in part of a clause is true in the clause.
proof fn lemma_removed_true(m: Model, val: spec_fn(u32) -> int, ss: Seq<Shape>, i: int)
    requires
        0 <= i < ss.len(),
        lit_true(m, val, ss[i]) || clause_true(m, val, ss.remove(i)),
    ensures
        clause_true(m, val, ss),
{
    if !lit_true(m, val, ss[i]) {
        let rest = ss.remove(i);
        let k = choose|k: int| 0 <= k < rest.len() && lit_true(m, val, #[trigger] rest[k]);
        let l = if k < i {
            k
        } else {
            k + 1
        };
        assert(ss[l] == rest[k]);
    }
}

} // verus!
