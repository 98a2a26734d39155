//! Content keys: one 64-bit identity for a sentence, an atom and a compound
//! term that say the same.
use vstd::prelude::*;
use vstd::utf8::{encode_utf8, encode_utf8_decode_utf8};

use xxhash_rust::xxh64::xxh64;

use crate::canon::{canonical_name, canonical_var};
use crate::hashing::xxh64_digest;
use crate::small::ByteBuf;
use crate::term::{lemma_app_view, views, Term, Tree};
use crate::text::{be_bytes, lemma_be_bytes_differ};
use crate::types::{name_id, Literal, LiteralView, OpKind, SymbolId};
use crate::units::{law_op_tags_are_distinct, op_tag, op_tag_spec};

verus! {

broadcast use lemma_app_view;

/// One element of a sentence, as far as its content key goes.
pub enum Part {
    Sym(SymbolId),
    Var(SymbolId, bool),
    Lit(LiteralView),
    Op(OpKind),
    Sub(u64),
}

/// The bytes that stand for one element.
pub open spec fn part_bytes(p: Part) -> Seq<u8> {
    match p {
        Part::Sym(id) => seq![83u8] + be_bytes(id),
        Part::Var(id, row) => seq![if row { 82u8 } else { 86u8 }] + be_bytes(id),
        Part::Lit(l) => seq![if l.is_str { 84u8 } else { 78u8 }] + be_bytes(
            encode_utf8(l.text).len() as u64,
        ) + encode_utf8(l.text),
        Part::Op(op) => seq![79u8, op_tag_spec(op)],
        Part::Sub(key) => seq![67u8] + be_bytes(key),
    }
}

/// The bytes that stand for a sequence of elements.
pub open spec fn parts_bytes(ps: Seq<Part>) -> Seq<u8>
    decreases ps.len(),
{
    if ps.len() == 0 {
        Seq::empty()
    } else {
        parts_bytes(ps.drop_last()) + part_bytes(ps.last())
    }
}

/// The content key of a sequence of elements.
pub open spec fn content_key(ps: Seq<Part>) -> u64 {
    xxh64_digest(be_bytes(ps.len() as u64) + parts_bytes(ps), 0)
}

/// The element that a tree is inside an application.  A variable counts as the
/// canonical variable of its slot.
pub open spec fn part_of(t: Tree) -> Part
    decreases t,
{
    match t {
        Tree::Sym(id) => Part::Sym(id),
        Tree::Var(v) => Part::Var(name_id(canonical_name(v as nat)), false),
        Tree::Lit(l) => Part::Lit(l),
        Tree::Op(op) => Part::Op(op),
        Tree::App(ts) => Part::Sub(content_key(parts_of(ts))),
    }
}

/// The elements of an application.
pub open spec fn parts_of(ts: Seq<Tree>) -> Seq<Part>
    decreases ts,
{
    if ts.len() == 0 {
        Seq::empty()
    } else {
        parts_of(ts.drop_last()).push(part_of(ts.last()))
    }
}

/// The content key of an application.
pub open spec fn app_key(ts: Seq<Tree>) -> u64 {
    content_key(parts_of(ts))
}

pub proof fn lemma_parts_of(ts: Seq<Tree>)
    ensures
        parts_of(ts).len() == ts.len(),
        forall|i: int| 0 <= i < ts.len() ==> #[trigger] parts_of(ts)[i] == part_of(ts[i]),
    decreases ts.len(),
{
    if ts.len() > 0 {
        lemma_parts_of(ts.drop_last());
    }
}

/// Builds the content key of a sequence of elements, one element at a time.
pub struct ElementHasher {
    buf: ByteBuf,
}

impl View for ElementHasher {
    type V = Seq<u8>;

    closed spec fn view(&self) -> Seq<u8> {
        self.buf@
    }
}

impl ElementHasher {
    /// A hasher for `n` elements.
    pub fn new(n: usize) -> (h: ElementHasher)
        ensures
            h@ == be_bytes(n as u64),
    {
        let mut buf: ByteBuf = ByteBuf::new();
        buf.put_u64(n as u64);
        assert(buf@ =~= be_bytes(n as u64));
        ElementHasher { buf }
    }

    /// Takes in a symbol.
    pub fn symbol(&mut self, id: SymbolId)
        ensures
            final(self)@ == old(self)@ + part_bytes(Part::Sym(id)),
    {
        self.buf.push(83);
        self.buf.put_u64(id);
        assert(self@ =~= old(self)@ + part_bytes(Part::Sym(id)));
    }

    /// Takes in a variable.
    pub fn variable(&mut self, id: SymbolId, is_row: bool)
        ensures
            final(self)@ == old(self)@ + part_bytes(Part::Var(id, is_row)),
    {
        self.buf.push(
            if is_row {
                82
            } else {
                86
            },
        );
        self.buf.put_u64(id);
        assert(self@ =~= old(self)@ + part_bytes(Part::Var(id, is_row)));
    }

    /// Takes in a literal.
    pub fn literal(&mut self, l: &Literal)
        ensures
            final(self)@ == old(self)@ + part_bytes(Part::Lit(l@)),
    {
        let bytes: &[u8] = match l {
            Literal::Str(s) => {
                self.buf.push(84);
                s.as_str().as_bytes()
            },
            Literal::Number(s) => {
                self.buf.push(78);
                s.as_str().as_bytes()
            },
        };
        self.buf.put_u64(bytes.len() as u64);
        self.buf.put_all(bytes);
        assert(self@ =~= old(self)@ + part_bytes(Part::Lit(l@)));
    }

    /// Takes in an operator.
    pub fn op(&mut self, op: &OpKind)
        ensures
            final(self)@ == old(self)@ + part_bytes(Part::Op(*op)),
    {
        self.buf.push(79);
        self.buf.push(op_tag(op));
        assert(self@ =~= old(self)@ + part_bytes(Part::Op(*op)));
    }

    /// Takes in a compound by its content key.
    pub fn sub(&mut self, key: u64)
        ensures
            final(self)@ == old(self)@ + part_bytes(Part::Sub(key)),
    {
        self.buf.push(67);
        self.buf.put_u64(key);
        assert(self@ =~= old(self)@ + part_bytes(Part::Sub(key)));
    }

    /// The key of what was taken in.
    pub fn finish(&self) -> (key: u64)
        ensures
            key == xxh64_digest(self@, 0),
    {
        xxh64(self.buf.as_slice(), 0)
    }
}

/// The content key of the literal alone.
pub open spec fn literal_key(l: LiteralView) -> u64 {
    content_key(seq![Part::Lit(l)])
}

/// The content key of the literal alone.
pub fn literal_content_key(l: &Literal) -> (key: u64)
    ensures
        key == literal_key(l@),
{
    let mut h: ElementHasher = ElementHasher::new(1);
    h.literal(l);
    proof {
        let ps = seq![Part::Lit(l@)];
        assert(ps.drop_last() =~= Seq::empty());
        assert(parts_bytes(ps.drop_last()) =~= Seq::<u8>::empty());
        assert(parts_bytes(ps) =~= part_bytes(Part::Lit(l@)));
    }
    h.finish()
}

/// The content key of the application of the given elements.
pub fn app_content_key(elems: &Vec<Term>) -> (key: u64)
    ensures
        key == app_key(views(elems@)),
    decreases elems,
{
    let ghost ts = views(elems@);
    let mut h: ElementHasher = ElementHasher::new(elems.len());
    let mut i: usize = 0;
    assert(ts.take(0) =~= Seq::empty());
    assert(h@ =~= be_bytes(ts.len() as u64) + parts_bytes(parts_of(ts.take(0))));
    while i < elems.len()
        invariant
            i <= elems@.len(),
            ts == views(elems@),
            h@ == be_bytes(ts.len() as u64) + parts_bytes(parts_of(ts.take(i as int))),
            decreases_to!(elems => elems@),
        decreases elems@.len() - i,
    {
        let e: &Term = &elems[i];
        assert(ts[i as int] == e@);
        match e {
            Term::Sym(s) => h.symbol(s.id()),
            Term::Var(v) => h.variable(canonical_var(*v), false),
            Term::Lit(l) => h.literal(l),
            Term::Op(op) => h.op(op),
            Term::App(es) => h.sub(app_content_key(es)),
        }
        proof {
            lemma_part_taken(ts, i as int);
            assert(h@ =~= be_bytes(ts.len() as u64) + parts_bytes(parts_of(ts.take(i + 1))));
        }
        i += 1;
    }
    assert(ts.take(i as int) =~= ts);
    proof {
        lemma_parts_of(ts);
    }
    h.finish()
}

pub proof fn lemma_part_taken(ts: Seq<Tree>, i: int)
    requires
        0 <= i < ts.len(),
    ensures
        parts_bytes(parts_of(ts.take(i + 1))) == parts_bytes(parts_of(ts.take(i))) + part_bytes(
            part_of(ts[i]),
        ),
{
    let front = ts.take(i + 1);
    assert(front.drop_last() =~= ts.take(i));
    let ps = parts_of(front);
    assert(ps == parts_of(ts.take(i)).push(part_of(ts[i])));
    assert(ps.drop_last() =~= parts_of(ts.take(i)));
}

// ---------------------------------------------------------------------------
// The bytes tell the elements
// ---------------------------------------------------------------------------

/// The text of a literal is no longer than a length can say.
pub open spec fn can_be_measured(p: Part) -> bool {
    p matches Part::Lit(l) ==> encode_utf8(l.text).len() <= u64::MAX
}

proof fn lemma_parted(a: Seq<u8>, x: Seq<u8>, b: Seq<u8>, y: Seq<u8>)
    requires
        a + x == b + y,
        a.len() == b.len(),
    ensures
        a == b,
        x == y,
{
    assert((a + x).take(a.len() as int) =~= a);
    assert((b + y).take(a.len() as int) =~= b);
    assert((a + x).skip(a.len() as int) =~= x);
    assert((b + y).skip(a.len() as int) =~= y);
}

proof fn lemma_first_element(p: Part, x: Seq<u8>, q: Part, y: Seq<u8>)
    requires
        can_be_measured(p),
        can_be_measured(q),
        part_bytes(p) + x == part_bytes(q) + y,
    ensures
        p == q,
        x == y,
{
    let s = part_bytes(p) + x;
    let t = part_bytes(q) + y;
    assert(s[0] == part_bytes(p)[0]);
    assert(t[0] == part_bytes(q)[0]);
    match (p, q) {
        (Part::Sym(a), Part::Sym(b)) => {
            lemma_parted(part_bytes(p), x, part_bytes(q), y);
            lemma_parted(seq![83u8], be_bytes(a), seq![83u8], be_bytes(b));
            lemma_be_bytes_differ(a, b);
        },
        (Part::Var(a, _), Part::Var(b, _)) => {
            lemma_parted(part_bytes(p), x, part_bytes(q), y);
            lemma_parted(seq![s[0]], be_bytes(a), seq![s[0]], be_bytes(b));
            lemma_be_bytes_differ(a, b);
        },
        (Part::Sub(a), Part::Sub(b)) => {
            lemma_parted(part_bytes(p), x, part_bytes(q), y);
            lemma_parted(seq![67u8], be_bytes(a), seq![67u8], be_bytes(b));
            lemma_be_bytes_differ(a, b);
        },
        (Part::Op(a), Part::Op(b)) => {
            lemma_parted(part_bytes(p), x, part_bytes(q), y);
            assert(part_bytes(p)[1] == part_bytes(q)[1]);
            law_op_tags_are_distinct(a, b);
        },
        (Part::Lit(a), Part::Lit(b)) => {
            let (ea, eb) = (encode_utf8(a.text), encode_utf8(b.text));
            let (na, nb) = (ea.len() as u64, eb.len() as u64);
            let ha = seq![s[0]] + be_bytes(na);
            let hb = seq![s[0]] + be_bytes(nb);
            assert(s =~= ha + (ea + x));
            assert(t =~= hb + (eb + y));
            lemma_parted(ha, ea + x, hb, eb + y);
            lemma_parted(seq![s[0]], be_bytes(na), seq![s[0]], be_bytes(nb));
            lemma_be_bytes_differ(na, nb);
            lemma_parted(ea, x, eb, y);
            encode_utf8_decode_utf8(a.text);
            encode_utf8_decode_utf8(b.text);
            assert(a.text == b.text);
        },
        _ => {},
    }
}

proof fn lemma_bytes_from_the_front(ps: Seq<Part>)
    requires
        ps.len() > 0,
    ensures
        parts_bytes(ps) == part_bytes(ps[0]) + parts_bytes(ps.skip(1)),
    decreases ps.len(),
{
    let rest = ps.skip(1);
    if ps.len() == 1 {
        assert(ps.drop_last() =~= Seq::empty());
        assert(rest =~= Seq::empty());
        assert(parts_bytes(ps) =~= part_bytes(ps[0]) + parts_bytes(rest));
    } else {
        lemma_bytes_from_the_front(ps.drop_last());
        assert(ps.drop_last().skip(1) =~= rest.drop_last());
        assert(rest.last() == ps.last());
        assert(parts_bytes(ps) =~= part_bytes(ps[0]) + parts_bytes(rest));
    }
}

/// Sentences with the same bytes have the same elements in the same order: nothing but the
/// digest itself can give two sentences one key.
pub proof fn law_bytes_tell_the_elements(ps: Seq<Part>, qs: Seq<Part>)
    requires
        forall|i: int| 0 <= i < ps.len() ==> can_be_measured(#[trigger] ps[i]),
        forall|i: int| 0 <= i < qs.len() ==> can_be_measured(#[trigger] qs[i]),
        parts_bytes(ps) == parts_bytes(qs),
    ensures
        ps == qs,
    decreases ps.len(),
{
    if ps.len() > 0 {
        lemma_bytes_from_the_front(ps);
        assert(part_bytes(ps[0]).len() > 0);
    }
    if qs.len() > 0 {
        lemma_bytes_from_the_front(qs);
        assert(part_bytes(qs[0]).len() > 0);
    }
    if ps.len() > 0 && qs.len() > 0 {
        lemma_first_element(ps[0], parts_bytes(ps.skip(1)), qs[0], parts_bytes(qs.skip(1)));
        law_bytes_tell_the_elements(ps.skip(1), qs.skip(1));
        assert(ps =~= seq![ps[0]] + ps.skip(1));
        assert(qs =~= seq![qs[0]] + qs.skip(1));
    } else {
        assert(ps =~= qs);
    }
}

} // verus!
