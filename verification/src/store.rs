//! The sentence store: sentences by content, the roots among them, and which
//! sessions hold each root.
use std::collections::HashMap;

use vstd::prelude::*;

use crate::content::{content_key, ElementHasher, Part, parts_bytes};
use crate::text::be_bytes;
use crate::types::{name_id, Literal, OpKind, SentenceId, Symbol, SymbolId};

verus! {

broadcast use vstd::std_specs::hash::group_hash_axioms;

/// Identity of a session: the hash of its name.
pub type SessionId = u64;

/// The identity of the session called `name`.
pub fn session_id(name: &str) -> (id: SessionId)
    ensures
        id == name_id(name@),
{
    Symbol::hash_name(name)
}

/// Where a question is asked: among the promoted sentences alone, or in a
/// session, which sees its own sentences besides.
#[derive(Clone, Copy, Debug, PartialEq, Eq, Structural, Hash)]
pub enum Scope {
    Base,
    Session(SessionId),
}

/// One element of a sentence.
#[derive(Debug)]
pub enum Element {
    Symbol(Symbol),
    Variable { id: SymbolId, name: String, is_row: bool },
    Literal(Literal),
    Op(OpKind),
    Sub(SentenceId),
}

impl View for Element {
    type V = Part;

    open spec fn view(&self) -> Part {
        match self {
            Element::Symbol(s) => Part::Sym(s.id_spec()),
            Element::Variable { id, name, is_row } => Part::Var(*id, *is_row),
            Element::Literal(l) => Part::Lit(l@),
            Element::Op(op) => Part::Op(*op),
            Element::Sub(sid) => Part::Sub(*sid),
        }
    }
}

impl Clone for Element {
    fn clone(&self) -> (r: Element)
        ensures
            r@ == self@,
    {
        match self {
            Element::Symbol(s) => Element::Symbol(s.clone()),
            Element::Variable { id, name, is_row } => Element::Variable {
                id: *id,
                name: name.clone(),
                is_row: *is_row,
            },
            Element::Literal(l) => Element::Literal(l.clone()),
            Element::Op(op) => Element::Op(*op),
            Element::Sub(sid) => Element::Sub(*sid),
        }
    }
}

/// The views of the elements.
pub open spec fn parts(els: Seq<Element>) -> Seq<Part> {
    Seq::new(els.len(), |i: int| els[i]@)
}

/// A sentence: a head and its arguments.
#[derive(Debug)]
pub struct Sentence {
    pub elements: Vec<Element>,
}

impl View for Sentence {
    type V = Seq<Part>;

    open spec fn view(&self) -> Seq<Part> {
        parts(self.elements@)
    }
}

impl Clone for Sentence {
    fn clone(&self) -> (r: Sentence)
        ensures
            r@ == self@,
    {
        let mut elements: Vec<Element> = Vec::new();
        let mut i: usize = 0;
        while i < self.elements.len()
            invariant
                i <= self.elements@.len(),
                elements@.len() == i,
                forall|k: int| 0 <= k < i ==> (#[trigger] elements@[k])@ == self.elements@[k]@,
            decreases self.elements@.len() - i,
        {
            elements.push(self.elements[i].clone());
            i += 1;
        }
        let r = Sentence { elements };
        assert(r@ =~= self@);
        r
    }
}

/// The symbol at the head of a sentence.
pub open spec fn head_of(s: Seq<Part>) -> Option<SymbolId> {
    if s.len() > 0 {
        match s[0] {
            Part::Sym(id) => Some(id),
            _ => None,
        }
    } else {
        None
    }
}

/// The operator at the head of a sentence.
pub open spec fn op_of(s: Seq<Part>) -> Option<OpKind> {
    if s.len() > 0 {
        match s[0] {
            Part::Op(op) => Some(op),
            _ => None,
        }
    } else {
        None
    }
}

impl Sentence {
    /// The symbol at the head.
    pub fn head_symbol(&self) -> (r: Option<SymbolId>)
        ensures
            r == head_of(self@),
    {
        if self.elements.len() == 0 {
            return None;
        }
        assert(self@[0] == self.elements@[0]@);
        match &self.elements[0] {
            Element::Symbol(s) => Some(s.id()),
            _ => None,
        }
    }

    /// The operator at the head.
    pub fn op(&self) -> (r: Option<OpKind>)
        ensures
            r == op_of(self@),
    {
        if self.elements.len() == 0 {
            return None;
        }
        assert(self@[0] == self.elements@[0]@);
        match &self.elements[0] {
            Element::Op(op) => Some(*op),
            _ => None,
        }
    }

    /// Whether an operator stands at the head.
    pub fn is_operator(&self) -> (r: bool)
        ensures
            r == op_of(self@) is Some,
    {
        self.op().is_some()
    }

    /// The content key of the sentence.
    pub fn content_id(&self) -> (sid: SentenceId)
        ensures
            sid == content_key(self@),
    {
        let ghost ps = self@;
        let mut h: ElementHasher = ElementHasher::new(self.elements.len());
        let mut i: usize = 0;
        assert(ps.take(0) =~= Seq::empty());
        assert(h@ =~= be_bytes(ps.len() as u64) + parts_bytes(ps.take(0)));
        while i < self.elements.len()
            invariant
                i <= self.elements@.len(),
                ps == self@,
                h@ == be_bytes(ps.len() as u64) + parts_bytes(ps.take(i as int)),
            decreases self.elements@.len() - i,
        {
            assert(ps[i as int] == self.elements@[i as int]@);
            match &self.elements[i] {
                Element::Symbol(s) => h.symbol(s.id()),
                Element::Variable { id, name, is_row } => h.variable(*id, *is_row),
                Element::Literal(l) => h.literal(l),
                Element::Op(op) => h.op(op),
                Element::Sub(sid) => h.sub(*sid),
            }
            proof {
                assert(ps.take(i + 1).drop_last() =~= ps.take(i as int));
                assert(h@ =~= be_bytes(ps.len() as u64) + parts_bytes(ps.take(i + 1)));
            }
            i += 1;
        }
        assert(ps.take(i as int) =~= ps);
        h.finish()
    }
}

/// A root sentence: whether it is promoted, the sessions that hold it, and the
/// sessions that have staged its removal.
#[derive(Debug)]
pub struct RootRecord {
    pub sid: SentenceId,
    pub promoted: bool,
    pub sessions: Vec<SessionId>,
    pub hidden: Vec<SessionId>,
}

/// A stored sentence.
pub struct Entry {
    pub sid: SentenceId,
    pub parts: Seq<Part>,
}

/// A root, its sessions as sets.
pub struct RootView {
    pub sid: SentenceId,
    pub promoted: bool,
    pub sessions: Set<SessionId>,
    pub hidden: Set<SessionId>,
}

impl View for RootRecord {
    type V = RootView;

    open spec fn view(&self) -> RootView {
        RootView {
            sid: self.sid,
            promoted: self.promoted,
            sessions: self.sessions@.to_set(),
            hidden: self.hidden@.to_set(),
        }
    }
}

/// The store as its users see it.
pub struct LayerView {
    pub entries: Seq<Entry>,
    pub names: Map<SymbolId, Seq<char>>,
    pub roots: Seq<RootView>,
}

/// Sentence `sid` is entry `i`.
pub open spec fn entry_at(es: Seq<Entry>, sid: SentenceId, i: int) -> bool {
    0 <= i < es.len() && es[i].sid == sid
}

/// The store holds sentence `sid`.
pub open spec fn stored(es: Seq<Entry>, sid: SentenceId) -> bool {
    exists|i: int| entry_at(es, sid, i)
}

/// The place of a stored sentence.
pub open spec fn place(es: Seq<Entry>, sid: SentenceId) -> int {
    choose|i: int| entry_at(es, sid, i)
}

/// The elements of sentence `sid`.
pub open spec fn body(v: LayerView, sid: SentenceId) -> Option<Seq<Part>> {
    if stored(v.entries, sid) {
        Some(v.entries[place(v.entries, sid)].parts)
    } else {
        None
    }
}

/// No sentence is stored twice, and every sentence comes after its parts.
pub open spec fn entries_ordered(es: Seq<Entry>) -> bool {
    &&& forall|i: int, j: int| 0 <= i < es.len() && 0 <= j < es.len() && i != j ==> #[trigger] es[i].sid
        != #[trigger] es[j].sid
    &&& forall|i: int, k: int|
        0 <= i < es.len() && 0 <= k < es[i].parts.len() ==> (#[trigger] es[i].parts[k] matches Part::Sub(s)
            ==> exists|j: int| j < i && entry_at(es, s, j))
}

/// No root is listed twice.
pub open spec fn roots_distinct(rs: Seq<RootView>) -> bool {
    forall|i: int, j: int|
        0 <= i < rs.len() && 0 <= j < rs.len() && i != j ==> #[trigger] rs[i].sid != #[trigger] rs[j].sid
}

pub proof fn lemma_place(es: Seq<Entry>, sid: SentenceId, i: int)
    requires
        entries_ordered(es),
        entry_at(es, sid, i),
    ensures
        stored(es, sid),
        place(es, sid) == i,
{
    assert(entry_at(es, sid, place(es, sid)));
}

/// Sentences and roots.
pub struct SyntacticLayer {
    sentences: Vec<Sentence>,
    ids: Vec<SentenceId>,
    index: HashMap<SentenceId, usize>,
    names: HashMap<SymbolId, Symbol>,
    roots: Vec<RootRecord>,
}

/// The entries that sentences and their identities make.
pub open spec fn entry_views(ss: Seq<Sentence>, ids: Seq<SentenceId>) -> Seq<Entry> {
    Seq::new(ss.len(), |i: int| Entry { sid: ids[i], parts: ss[i]@ })
}

/// The views of the roots.
pub open spec fn root_views(rs: Seq<RootRecord>) -> Seq<RootView> {
    Seq::new(rs.len(), |i: int| rs[i]@)
}

impl View for SyntacticLayer {
    type V = LayerView;

    closed spec fn view(&self) -> LayerView {
        LayerView {
            entries: entry_views(self.sentences@, self.ids@),
            names: self.names@.map_values(|s: Symbol| s.name_spec()),
            roots: root_views(self.roots@),
        }
    }
}

impl SyntacticLayer {
    /// The tables agree.
    pub closed spec fn wf(&self) -> bool {
        &&& self.sentences@.len() == self.ids@.len()
        &&& entries_ordered(self@.entries)
        &&& roots_distinct(self@.roots)
        &&& forall|i: int| 0 <= i < self.ids@.len() ==> self.index@.dom().contains(#[trigger] self.ids@[i])
            && self.index@[self.ids@[i]] == i
        &&& forall|sid: SentenceId| #[trigger]
            self.index@.dom().contains(sid) ==> self.index@[sid] < self.ids@.len()
                && self.ids@[self.index@[sid] as int] == sid
        &&& forall|id: SymbolId| #[trigger]
            self.names@.dom().contains(id) ==> self.names@[id].id_spec() == id
    }

    /// The sentence with identity `sid` as it was written, names and all.
    pub closed spec fn written(&self, sid: SentenceId) -> Option<Sentence> {
        if self.index@.dom().contains(sid) {
            Some(self.sentences@[self.index@[sid] as int])
        } else {
            None
        }
    }

    /// A sentence as written has the stored elements.
    pub proof fn lemma_written(&self, sid: SentenceId)
        requires
            self.wf(),
        ensures
            match self.written(sid) {
                Some(s) => body(self@, sid) == Some(s@),
                None => body(self@, sid) is None,
            },
    {
        if self.index@.dom().contains(sid) {
            let i = self.index@[sid] as int;
            assert(entry_at(self@.entries, sid, i));
            lemma_place(self@.entries, sid, i);
        } else if stored(self@.entries, sid) {
            let i = place(self@.entries, sid);
            assert(entry_at(self@.entries, sid, i));
            assert(self.ids@[i] == sid);
        }
    }

    /// Every sentence comes after its parts.
    pub proof fn lemma_ordered(&self)
        requires
            self.wf(),
        ensures
            entries_ordered(self@.entries),
            roots_distinct(self@.roots),
    {
    }

    /// A store without sentences.
    pub fn new() -> (s: SyntacticLayer)
        ensures
            s.wf(),
            s@.entries == Seq::<Entry>::empty(),
            s@.names == Map::<SymbolId, Seq<char>>::empty(),
            s@.roots == Seq::<RootView>::empty(),
    {
        let s = SyntacticLayer {
            sentences: Vec::new(),
            ids: Vec::new(),
            index: HashMap::new(),
            names: HashMap::new(),
            roots: Vec::new(),
        };
        assert(s@.entries =~= Seq::<Entry>::empty());
        assert(s@.names =~= Map::<SymbolId, Seq<char>>::empty());
        assert(s@.roots =~= Seq::<RootView>::empty());
        s
    }

    /// Notes the name of a symbol or variable and gives its identity.
    pub fn intern_symbol(&mut self, name: &str) -> (id: SymbolId)
        requires
            old(self).wf(),
        ensures
            final(self).wf(),
            id == name_id(name@),
            final(self)@ == (LayerView {
                names: if old(self)@.names.dom().contains(id) {
                    old(self)@.names
                } else {
                    old(self)@.names.insert(id, name@)
                },
                ..old(self)@
            }),
    {
        let s: Symbol = Symbol::new(name);
        let id: SymbolId = s.id();
        if !self.names.contains_key(&id) {
            self.names.insert(id, s);
            assert(self@.names =~= old(self)@.names.insert(id, name@));
        }
        id
    }

    /// The identity of the symbol called `name`, if it is known.
    pub fn sym_id(&self, name: &str) -> (r: Option<SymbolId>)
        requires
            self.wf(),
        ensures
            r == if self@.names.dom().contains(name_id(name@)) {
                Some(name_id(name@))
            } else {
                None
            },
    {
        let id: SymbolId = Symbol::hash_name(name);
        if self.names.contains_key(&id) {
            Some(id)
        } else {
            None
        }
    }

    /// The symbol with identity `id`, if it is known.
    pub fn sym_name(&self, id: SymbolId) -> (r: Option<&Symbol>)
        requires
            self.wf(),
        ensures
            match r {
                Some(s) => self@.names.dom().contains(id) && s.name_spec() == self@.names[id] && s.id_spec() == id,
                None => !self@.names.dom().contains(id),
            },
    {
        self.names.get(&id)
    }

    /// The sentence with identity `sid`.
    pub fn sentence(&self, sid: SentenceId) -> (r: Option<&Sentence>)
        requires
            self.wf(),
        ensures
            match r {
                Some(s) => body(self@, sid) == Some(s@) && self.written(sid) == Some(*s),
                None => body(self@, sid) is None && self.written(sid) is None,
            },
    {
        match self.index.get(&sid) {
            Some(i) => {
                proof {
                    assert(entry_at(self@.entries, sid, *i as int));
                    lemma_place(self@.entries, sid, *i as int);
                }
                Some(&self.sentences[*i])
            },
            None => {
                proof {
                    if stored(self@.entries, sid) {
                        let i = place(self@.entries, sid);
                        assert(entry_at(self@.entries, sid, i));
                        assert(self.ids@[i] == sid);
                    }
                }
                None
            },
        }
    }

    /// Whether sentence `sid` is stored.
    pub fn has_sentence(&self, sid: SentenceId) -> (r: bool)
        requires
            self.wf(),
        ensures
            r == stored(self@.entries, sid),
    {
        self.sentence(sid).is_some()
    }

    /// Stores a sentence under its content key; a sentence stored already is
    /// not stored again.  `None` if some part of it is not stored.
    pub fn add_sentence(&mut self, s: Sentence) -> (r: Option<SentenceId>)
        requires
            old(self).wf(),
        ensures
            final(self).wf(),
            final(self)@.names == old(self)@.names,
            final(self)@.roots == old(self)@.roots,
            r is Some <==> forall|k: int|
                0 <= k < s@.len() ==> (#[trigger] s@[k] matches Part::Sub(sub) ==> stored(
                    old(self)@.entries,
                    sub,
                )),
            match r {
                Some(sid) => {
                    &&& sid == content_key(s@)
                    &&& final(self)@.entries == if stored(old(self)@.entries, sid) {
                        old(self)@.entries
                    } else {
                        old(self)@.entries.push(Entry { sid, parts: s@ })
                    }
                },
                None => final(self)@.entries == old(self)@.entries,
            },
            r matches Some(sid) ==> final(self).written(sid) == if stored(old(self)@.entries, sid) {
                old(self).written(sid)
            } else {
                Some(s)
            },
            forall|other: SentenceId|
                other != content_key(s@) ==> #[trigger] final(self).written(other) == old(self).written(other),
    {
        let mut i: usize = 0;
        while i < s.elements.len()
            invariant
                i <= s.elements@.len(),
                self.wf(),
                *self == *old(self),
                forall|k: int|
                    0 <= k < i ==> (#[trigger] s@[k] matches Part::Sub(sub) ==> stored(self@.entries, sub)),
            decreases s.elements@.len() - i,
        {
            assert(s@[i as int] == s.elements@[i as int]@);
            if let Element::Sub(sub) = &s.elements[i] {
                if !self.has_sentence(*sub) {
                    return None;
                }
            }
            i += 1;
        }
        let sid: SentenceId = s.content_id();
        if self.has_sentence(sid) {
            return Some(sid);
        }
        let ghost es = self@.entries;
        let at: usize = self.sentences.len();
        let ghost e = Entry { sid, parts: s@ };
        self.index.insert(sid, at);
        self.ids.push(sid);
        self.sentences.push(s);
        proof {
            assert(self@.entries =~= es.push(e));
            assert(self@.names =~= old(self)@.names);
            let es2 = self@.entries;
            assert forall|i: int| 0 <= i < old(self).ids@.len() implies #[trigger] old(self).ids@[i] != sid by {
                if old(self).ids@[i] == sid {
                    assert(entry_at(es, sid, i));
                }
            }
            assert forall|i: int| 0 <= i < self.ids@.len() implies self.index@.dom().contains(
                #[trigger] self.ids@[i],
            ) && self.index@[self.ids@[i]] == i by {
                if i < old(self).ids@.len() {
                    assert(self.ids@[i] == old(self).ids@[i]);
                }
            }
            assert(self@.roots == old(self)@.roots);
            assert forall|i: int, j: int|
                0 <= i < es2.len() && 0 <= j < es2.len() && i != j implies #[trigger] es2[i].sid
                != #[trigger] es2[j].sid by {
                if i < es.len() {
                    assert(entry_at(es, es[i].sid, i));
                }
                if j < es.len() {
                    assert(entry_at(es, es[j].sid, j));
                }
                assert(!stored(es, sid));
            }
            assert forall|i: int, k: int| 0 <= i < es2.len() && 0 <= k < es2[i].parts.len() implies (
            #[trigger] es2[i].parts[k] matches Part::Sub(s) ==> exists|j: int| j < i && entry_at(es2, s, j)) by {
                if let Part::Sub(sub) = es2[i].parts[k] {
                    if i < es.len() {
                        assert(es[i].parts[k] == es2[i].parts[k]);
                        let j = choose|j: int| j < i && entry_at(es, sub, j);
                        assert(entry_at(es2, sub, j));
                    } else {
                        let j = place(es, sub);
                        assert(entry_at(es, sub, j));
                        assert(entry_at(es2, sub, j));
                    }
                }
            }
        }
        Some(sid)
    }

    /// The place of root `sid`.
    fn root_at(&self, sid: SentenceId) -> (r: Option<usize>)
        ensures
            match r {
                Some(i) => i < self.roots@.len() && self.roots@[i as int].sid == sid,
                None => forall|k: int| 0 <= k < self.roots@.len() ==> (#[trigger] self.roots@[k]).sid != sid,
            },
    {
        let mut i: usize = 0;
        while i < self.roots.len()
            invariant
                i <= self.roots@.len(),
                forall|k: int| 0 <= k < i ==> (#[trigger] self.roots@[k]).sid != sid,
            decreases self.roots@.len() - i,
        {
            if self.roots[i].sid == sid {
                return Some(i);
            }
            i += 1;
        }
        None
    }

    /// Makes `sid` a root that `session` holds.
    pub fn add_root(&mut self, sid: SentenceId, session: SessionId)
        requires
            old(self).wf(),
        ensures
            final(self).wf(),
            final(self)@ == (LayerView { roots: rooted(old(self)@.roots, sid, session), ..old(self)@ }),
    {
        let ghost rs = self@.roots;
        match self.root_at(sid) {
            Some(i) => {
                let rec = &self.roots[i];
                let (promoted, mut sessions, hidden) = (rec.promoted, rec.sessions.clone(), rec.hidden.clone());
                let ghost before = sessions@;
                if !holds_id(&sessions, session) {
                    sessions.push(session);
                    proof {
                        lemma_push_set(before, session);
                    }
                } else {
                    assert(before.to_set().insert(session) =~= before.to_set());
                }
                let fresh = RootRecord { sid, promoted, sessions, hidden };
                self.roots.set(i, fresh);
                proof {
                    assert(rs[i as int].sid == sid);
                    assert(self.roots@[i as int].hidden@ =~= old(self).roots@[i as int].hidden@);
                    assert(before =~= old(self).roots@[i as int].sessions@);
                    lemma_root_place(rs, sid, i as int);
                    assert(self@.roots =~= rooted(rs, sid, session));
                }
            },
            None => {
                let mut sessions: Vec<SessionId> = Vec::new();
                sessions.push(session);
                let hidden: Vec<SessionId> = Vec::new();
                proof {
                    lemma_push_set(Seq::empty(), session);
                    assert(Seq::<SessionId>::empty().to_set() =~= Set::empty());
                    assert(sessions@ =~= Seq::empty().push(session));
                    assert(hidden@.to_set() =~= Set::empty());
                    assert(!is_root(rs, sid)) by {
                        if is_root(rs, sid) {
                            let k = root_place(rs, sid);
                            assert(root_is(rs, sid, k));
                            assert(self.roots@[k].sid == sid);
                        }
                    }
                }
                self.roots.push(RootRecord { sid, promoted: false, sessions, hidden });
                assert(self@.roots =~= rooted(rs, sid, session));
                assert(roots_distinct(self@.roots)) by {
                    assert forall|a: int, b: int|
                        0 <= a < self@.roots.len() && 0 <= b < self@.roots.len() && a != b implies
                        #[trigger] self@.roots[a].sid != #[trigger] self@.roots[b].sid by {
                        if a < rs.len() {
                            assert(rs[a].sid == old(self).roots@[a].sid);
                        }
                        if b < rs.len() {
                            assert(rs[b].sid == old(self).roots@[b].sid);
                        }
                    }
                }
            },
        }
    }

    /// Promotes root `sid`.
    pub fn promote(&mut self, sid: SentenceId)
        requires
            old(self).wf(),
        ensures
            final(self).wf(),
            final(self)@ == (LayerView { roots: promoted(old(self)@.roots, sid), ..old(self)@ }),
    {
        let ghost rs = self@.roots;
        match self.root_at(sid) {
            Some(i) => {
                let rec = &self.roots[i];
                let (sessions, hidden) = (rec.sessions.clone(), rec.hidden.clone());
                let fresh = RootRecord { sid, promoted: true, sessions, hidden };
                self.roots.set(i, fresh);
                proof {
                    assert(rs[i as int].sid == sid);
                    assert(self.roots@[i as int].hidden@ =~= old(self).roots@[i as int].hidden@);
                    assert(self.roots@[i as int].sessions@ =~= old(self).roots@[i as int].sessions@);
                    lemma_root_place(rs, sid, i as int);
                    assert(self@.roots =~= promoted(rs, sid));
                }
            },
            None => {
                proof {
                    if is_root(rs, sid) {
                        let k = root_place(rs, sid);
                        assert(root_is(rs, sid, k));
                        assert(self.roots@[k].sid == sid);
                    }
                }
            },
        }
    }

    /// Stages the removal of root `sid` in `session`.
    pub fn stage_removal(&mut self, sid: SentenceId, session: SessionId)
        requires
            old(self).wf(),
        ensures
            final(self).wf(),
            final(self)@ == (LayerView { roots: hidden_in(old(self)@.roots, sid, session), ..old(self)@ }),
    {
        let ghost rs = self@.roots;
        match self.root_at(sid) {
            Some(i) => {
                let rec = &self.roots[i];
                let (promoted, sessions, mut hidden) = (rec.promoted, rec.sessions.clone(), rec.hidden.clone());
                let ghost before = hidden@;
                hidden.push(session);
                proof {
                    lemma_push_set(before, session);
                }
                let fresh = RootRecord { sid, promoted, sessions, hidden };
                self.roots.set(i, fresh);
                proof {
                    assert(rs[i as int].sid == sid);
                    assert(before =~= old(self).roots@[i as int].hidden@);
                    assert(self.roots@[i as int].sessions@ =~= old(self).roots@[i as int].sessions@);
                    lemma_root_place(rs, sid, i as int);
                    assert(self@.roots =~= hidden_in(rs, sid, session));
                }
            },
            None => {
                proof {
                    if is_root(rs, sid) {
                        let k = root_place(rs, sid);
                        assert(root_is(rs, sid, k));
                        assert(self.roots@[k].sid == sid);
                    }
                }
            },
        }
    }

    /// Takes root `sid` away.
    pub fn remove_root(&mut self, sid: SentenceId)
        requires
            old(self).wf(),
        ensures
            final(self).wf(),
            final(self)@ == (LayerView { roots: unrooted(old(self)@.roots, sid), ..old(self)@ }),
    {
        let ghost rs = self@.roots;
        match self.root_at(sid) {
            Some(i) => {
                self.roots.remove(i);
                proof {
                    assert(rs[i as int].sid == sid);
                    lemma_root_place(rs, sid, i as int);
                    assert(self@.roots =~= unrooted(rs, sid));
                    let rs2 = self@.roots;
                    assert forall|a: int, b: int|
                        0 <= a < rs2.len() && 0 <= b < rs2.len() && a != b implies #[trigger] rs2[a].sid
                        != #[trigger] rs2[b].sid by {
                        let a1 = if a < i {
                            a
                        } else {
                            a + 1
                        };
                        let b1 = if b < i {
                            b
                        } else {
                            b + 1
                        };
                        assert(rs2[a] == rs[a1] && rs2[b] == rs[b1]);
                        assert(rs[a1].sid != rs[b1].sid);
                    }
                }
            },
            None => {
                proof {
                    if is_root(rs, sid) {
                        let k = root_place(rs, sid);
                        assert(root_is(rs, sid, k));
                        assert(self.roots@[k].sid == sid);
                    }
                }
            },
        }
    }

    /// Whether root `sid` is promoted.
    pub fn is_axiom(&self, sid: SentenceId) -> (r: bool)
        requires
            self.wf(),
        ensures
            r == is_promoted(self@.roots, sid),
    {
        match self.root_at(sid) {
            Some(i) => {
                proof {
                    assert(self@.roots[i as int].sid == sid);
                    lemma_root_place(self@.roots, sid, i as int);
                }
                self.roots[i].promoted
            },
            None => {
                proof {
                    if is_root(self@.roots, sid) {
                        let k = root_place(self@.roots, sid);
                        assert(root_is(self@.roots, sid, k));
                        assert(self.roots@[k].sid == sid);
                    }
                }
                false
            },
        }
    }

    /// The sessions that hold root `sid`.
    pub fn sessions_of(&self, sid: SentenceId) -> (r: Vec<SessionId>)
        requires
            self.wf(),
        ensures
            r@.to_set() == sessions_holding(self@.roots, sid),
    {
        match self.root_at(sid) {
            Some(i) => {
                proof {
                    assert(self@.roots[i as int].sid == sid);
                    lemma_root_place(self@.roots, sid, i as int);
                }
                let v: Vec<SessionId> = self.roots[i].sessions.clone();
                assert(v@ =~= self.roots@[i as int].sessions@);
                v
            },
            None => {
                proof {
                    if is_root(self@.roots, sid) {
                        let k = root_place(self@.roots, sid);
                        assert(root_is(self@.roots, sid, k));
                        assert(self.roots@[k].sid == sid);
                    }
                    assert(Seq::<SessionId>::empty().to_set() =~= Set::empty());
                }
                Vec::new()
            },
        }
    }

    /// All roots, in order.
    pub fn root_sids(&self) -> (r: Vec<SentenceId>)
        ensures
            r@ == Seq::new(self@.roots.len(), |i: int| self@.roots[i].sid),
    {
        let mut out: Vec<SentenceId> = Vec::new();
        let mut i: usize = 0;
        while i < self.roots.len()
            invariant
                i <= self.roots@.len(),
                out@ == Seq::new(i as nat, |k: int| self.roots@[k].sid),
            decreases self.roots@.len() - i,
        {
            out.push(self.roots[i].sid);
            i += 1;
            assert(out@ =~= Seq::new(i as nat, |k: int| self.roots@[k].sid));
        }
        assert(out@ =~= Seq::new(self@.roots.len(), |i: int| self@.roots[i].sid));
        out
    }

    /// The roots with the given symbol at the head, in order.
    pub fn by_head_id(&self, head: SymbolId) -> (r: Vec<SentenceId>)
        requires
            self.wf(),
        ensures
            r@ == picked(self@.roots, headed_by(self@, head)),
    {
        let ghost p = headed_by(self@, head);
        let ghost rs = self@.roots;
        let mut out: Vec<SentenceId> = Vec::new();
        let mut i: usize = 0;
        assert(rs.take(0) =~= Seq::empty());
        while i < self.roots.len()
            invariant
                i <= self.roots@.len(),
                self.wf(),
                p == headed_by(self@, head),
                rs == self@.roots,
                rs.len() == self.roots@.len(),
                out@ == picked(rs.take(i as int), p),
            decreases self.roots@.len() - i,
        {
            assert(rs.take(i + 1).drop_last() =~= rs.take(i as int));
            assert(rs[i as int] == self.roots@[i as int]@);
            let sid: SentenceId = self.roots[i].sid;
            if let Some(s) = self.sentence(sid) {
                if s.head_symbol() == Some(head) {
                    out.push(sid);
                }
            }
            i += 1;
        }
        assert(rs.take(i as int) =~= rs);
        out
    }

    /// Whether root number `i` is seen in `scope`.
    fn root_seen(&self, i: usize, scope: Scope) -> (r: bool)
        requires
            i < self.roots@.len(),
        ensures
            r == seen_in(self@.roots[i as int], scope),
    {
        assert(self@.roots[i as int] == self.roots@[i as int]@);
        let rec: &RootRecord = &self.roots[i];
        match scope {
            Scope::Base => rec.promoted,
            Scope::Session(s) => (rec.promoted || holds_id(&rec.sessions, s)) && !holds_id(&rec.hidden, s),
        }
    }

    /// Whether root `sid` is seen in `scope`.
    pub fn seen(&self, sid: SentenceId, scope: Scope) -> (r: bool)
        requires
            self.wf(),
        ensures
            r == root_seen_in(self@.roots, sid, scope),
    {
        match self.root_at(sid) {
            Some(i) => {
                proof {
                    assert(self@.roots[i as int].sid == sid);
                    lemma_root_place(self@.roots, sid, i as int);
                }
                self.root_seen(i, scope)
            },
            None => {
                proof {
                    if is_root(self@.roots, sid) {
                        let k = root_place(self@.roots, sid);
                        assert(root_is(self@.roots, sid, k));
                        assert(self.roots@[k].sid == sid);
                    }
                }
                false
            },
        }
    }

    /// Those of the given sentences that are roots seen in `scope`.
    pub fn scope_filter_sids(&self, sids: &Vec<SentenceId>, scope: Scope) -> (r: Vec<SentenceId>)
        requires
            self.wf(),
        ensures
            r@ == sids@.filter(|sid: SentenceId| root_seen_in(self@.roots, sid, scope)),
    {
        let ghost p = |sid: SentenceId| root_seen_in(self@.roots, sid, scope);
        let mut out: Vec<SentenceId> = Vec::new();
        let mut i: usize = 0;
        assert(sids@.take(0) =~= Seq::empty());
        while i < sids.len()
            invariant
                i <= sids@.len(),
                self.wf(),
                p == (|sid: SentenceId| root_seen_in(self@.roots, sid, scope)),
                out@ == sids@.take(i as int).filter(p),
            decreases sids@.len() - i,
        {
            proof {
                reveal(Seq::filter);
                assert(sids@.take(i + 1).drop_last() =~= sids@.take(i as int));
            }
            if self.seen(sids[i], scope) {
                out.push(sids[i]);
            }
            i += 1;
        }
        assert(sids@.take(i as int) =~= sids@);
        out
    }

    /// The roots seen in `scope` with the given symbol at the head and the
    /// given symbol as first argument, in order.
    pub fn subject_sids_scoped(&self, head: SymbolId, subject: SymbolId, scope: Scope) -> (r: Vec<SentenceId>)
        requires
            self.wf(),
        ensures
            r@ == picked(self@.roots, about(self@, head, subject, scope)),
    {
        let ghost p = about(self@, head, subject, scope);
        let ghost rs = self@.roots;
        let mut out: Vec<SentenceId> = Vec::new();
        let mut i: usize = 0;
        assert(rs.take(0) =~= Seq::empty());
        while i < self.roots.len()
            invariant
                i <= self.roots@.len(),
                self.wf(),
                p == about(self@, head, subject, scope),
                rs == self@.roots,
                rs.len() == self.roots@.len(),
                out@ == picked(rs.take(i as int), p),
            decreases self.roots@.len() - i,
        {
            assert(rs.take(i + 1).drop_last() =~= rs.take(i as int));
            assert(rs[i as int] == self.roots@[i as int]@);
            let sid: SentenceId = self.roots[i].sid;
            if let Some(s) = self.sentence(sid) {
                if s.head_symbol() == Some(head) && s.elements.len() > 1 {
                    assert(s@[1] == s.elements@[1]@);
                    if let Element::Symbol(a) = &s.elements[1] {
                        if a.id() == subject && self.root_seen(i, scope) {
                            out.push(sid);
                        }
                    }
                }
            }
            i += 1;
        }
        assert(rs.take(i as int) =~= rs);
        out
    }

    /// Drops a session: what it alone held and nobody promoted is no root any
    /// more.
    pub fn retract_session(&mut self, session: SessionId)
        requires
            old(self).wf(),
        ensures
            final(self).wf(),
            final(self)@ == (LayerView { roots: retracted(old(self)@.roots, session), ..old(self)@ }),
    {
        let ghost rs = self@.roots;
        let mut kept: Vec<RootRecord> = Vec::new();
        let mut i: usize = 0;
        assert(rs.take(0) =~= Seq::empty());
        assert(root_views(kept@) =~= retracted(rs.take(0), session));
        while i < self.roots.len()
            invariant
                i <= self.roots@.len(),
                *self == *old(self),
                rs == self@.roots,
                rs.len() == self.roots@.len(),
                root_views(kept@) == retracted(rs.take(i as int), session),
            decreases self.roots@.len() - i,
        {
            assert(rs.take(i + 1).drop_last() =~= rs.take(i as int));
            assert(rs[i as int] == self.roots@[i as int]@);
            let rec: &RootRecord = &self.roots[i];
            let sessions: Vec<SessionId> = without_id(&rec.sessions, session);
            let ghost before = kept@;
            proof {
                if sessions@.len() > 0 {
                    assert(sessions@.to_set().contains(sessions@[0]));
                } else {
                    assert(sessions@.to_set() =~= Set::empty());
                }
            }
            if rec.promoted || sessions.len() > 0 {
                let hidden: Vec<SessionId> = rec.hidden.clone();
                assert(hidden@ =~= rec.hidden@);
                kept.push(RootRecord { sid: rec.sid, promoted: rec.promoted, sessions, hidden });
                assert(root_views(kept@) =~= root_views(before).push(without_session(rs[i as int], session)));
            }
            i += 1;
        }
        assert(rs.take(i as int) =~= rs);
        self.roots = kept;
        proof {
            lemma_retracted(rs, session);
        }
    }

    /// Sentence `sid` and the sentences within it, in the order in which they
    /// are met.
    pub fn tree_sids(&self, sid: SentenceId) -> (r: Vec<SentenceId>)
        requires
            self.wf(),
        ensures
            r@ == tree(self@.entries, sid),
        decreases tree_rank(self@.entries, sid),
    {
        proof {
            self.lemma_ordered();
        }
        let ghost es = self@.entries;
        let mut out: Vec<SentenceId> = Vec::new();
        let s: &Sentence = match self.sentence(sid) {
            Some(s) => s,
            None => {
                return out;
            },
        };
        out.push(sid);
        let mut i: usize = 0;
        assert(out@ =~= seq![sid] + subtrees(es, sid, 0));
        while i < s.elements.len()
            invariant
                i <= s.elements@.len(),
                self.wf(),
                es == self@.entries,
                entries_ordered(es),
                body(self@, sid) == Some(s@),
                out@ == seq![sid] + subtrees(es, sid, i as nat),
            decreases s.elements@.len() - i,
        {
            assert(s@[i as int] == s.elements@[i as int]@);
            if let Element::Sub(sub) = &s.elements[i] {
                proof {
                    lemma_tree_rank(es, sid, i as int, *sub);
                }
                let mut more: Vec<SentenceId> = self.tree_sids(*sub);
                let ghost (before, added) = (out@, more@);
                out.append(&mut more);
                assert(out@ =~= before + added);
            }
            assert(out@ =~= seq![sid] + subtrees(es, sid, (i + 1) as nat));
            i += 1;
        }
        out
    }

    /// Whether the symbol or variable stands in sentence `sid` or within it.
    pub fn mentions(&self, sid: SentenceId, sym: SymbolId) -> (r: bool)
        requires
            self.wf(),
        ensures
            r == mentioned(self@, sid, sym),
    {
        let sids: Vec<SentenceId> = self.tree_sids(sid);
        let mut i: usize = 0;
        while i < sids.len()
            invariant
                i <= sids@.len(),
                self.wf(),
                sids@ == tree(self@.entries, sid),
                forall|k: int| 0 <= k < i ==> !names(self@, #[trigger] sids@[k], sym),
            decreases sids@.len() - i,
        {
            if let Some(s) = self.sentence(sids[i]) {
                let mut k: usize = 0;
                while k < s.elements.len()
                    invariant
                        k <= s.elements@.len(),
                        i < sids@.len(),
                        sids@ == tree(self@.entries, sid),
                        body(self@, sids@[i as int]) == Some(s@),
                        forall|q: int| 0 <= q < k ==> !part_names(#[trigger] s@[q], sym),
                    decreases s.elements@.len() - k,
                {
                    assert(s@[k as int] == s.elements@[k as int]@);
                    let hit: bool = match &s.elements[k] {
                        Element::Symbol(a) => a.id() == sym,
                        Element::Variable { id, .. } => *id == sym,
                        _ => false,
                    };
                    if hit {
                        proof {
                            let ps = body(self@, sids@[i as int])->0;
                            assert(part_names(ps[k as int], sym));
                            assert(names(self@, sids@[i as int], sym));
                        }
                        return true;
                    }
                    k += 1;
                }
            }
            i += 1;
        }
        false
    }

    /// The roots seen in `scope` that the symbol or variable stands in.
    pub fn roots_with(&self, sym: SymbolId, scope: Scope) -> (r: Vec<SentenceId>)
        requires
            self.wf(),
        ensures
            r@ == picked(self@.roots, mentioning(self@, sym, scope)),
    {
        let ghost p = mentioning(self@, sym, scope);
        let ghost rs = self@.roots;
        let mut out: Vec<SentenceId> = Vec::new();
        let mut i: usize = 0;
        assert(rs.take(0) =~= Seq::empty());
        while i < self.roots.len()
            invariant
                i <= self.roots@.len(),
                self.wf(),
                p == mentioning(self@, sym, scope),
                rs == self@.roots,
                rs.len() == self.roots@.len(),
                out@ == picked(rs.take(i as int), p),
            decreases self.roots@.len() - i,
        {
            assert(rs.take(i + 1).drop_last() =~= rs.take(i as int));
            assert(rs[i as int] == self.roots@[i as int]@);
            let sid: SentenceId = self.roots[i].sid;
            if self.root_seen(i, scope) && self.mentions(sid, sym) {
                out.push(sid);
            }
            i += 1;
        }
        assert(rs.take(i as int) =~= rs);
        out
    }

    /// The variables that stand in sentence `sid` or within it, each once.
    pub fn sentence_vars(&self, sid: SentenceId) -> (r: Vec<SymbolId>)
        requires
            self.wf(),
        ensures
            r@.no_duplicates(),
            forall|v: SymbolId| #[trigger] r@.contains(v) <==> has_var(self@, sid, v),
    {
        let sids: Vec<SentenceId> = self.tree_sids(sid);
        let mut out: Vec<SymbolId> = Vec::new();
        let mut i: usize = 0;
        while i < sids.len()
            invariant
                i <= sids@.len(),
                self.wf(),
                sids@ == tree(self@.entries, sid),
                out@.no_duplicates(),
                forall|v: SymbolId| #[trigger]
                    out@.contains(v) <==> exists|k: int| 0 <= k < i && var_at(self@, #[trigger] sids@[k], v),
            decreases sids@.len() - i,
        {
            let ghost before = out@;
            if let Some(s) = self.sentence(sids[i]) {
                let mut k: usize = 0;
                while k < s.elements.len()
                    invariant
                        k <= s.elements@.len(),
                        i < sids@.len(),
                        body(self@, sids@[i as int]) == Some(s@),
                        out@.no_duplicates(),
                        forall|v: SymbolId| #[trigger]
                            out@.contains(v) <==> before.contains(v) || exists|q: int|
                                0 <= q < k && part_is_var(#[trigger] s@[q], v),
                    decreases s.elements@.len() - k,
                {
                    assert(s@[k as int] == s.elements@[k as int]@);
                    let ghost now = out@;
                    if let Element::Variable { id, .. } = &s.elements[k] {
                        let id: SymbolId = *id;
                        if !holds_id(&out, id) {
                            out.push(id);
                            proof {
                                lemma_push_contains(now, id);
                            }
                        }
                        assert(part_is_var(s@[k as int], id));
                    }
                    k += 1;
                }
                assert forall|v: SymbolId| var_at(self@, sids@[i as int], v) <==> exists|q: int|
                    0 <= q < s@.len() && part_is_var(#[trigger] s@[q], v) by {
                    let ps = body(self@, sids@[i as int])->0;
                    assert(ps == s@);
                    if var_at(self@, sids@[i as int], v) {
                        let q = choose|q: int| 0 <= q < ps.len() && part_is_var(#[trigger] ps[q], v);
                        assert(part_is_var(s@[q], v));
                    }
                    if exists|q: int| 0 <= q < s@.len() && part_is_var(#[trigger] s@[q], v) {
                        let q = choose|q: int| 0 <= q < s@.len() && part_is_var(#[trigger] s@[q], v);
                        assert(part_is_var(ps[q], v));
                    }
                }
            }
            assert forall|v: SymbolId| #[trigger] out@.contains(v) <==> exists|k: int|
                0 <= k < i + 1 && var_at(self@, #[trigger] sids@[k], v) by {
                if before.contains(v) {
                    let k = choose|k: int| 0 <= k < i && var_at(self@, #[trigger] sids@[k], v);
                    assert(var_at(self@, sids@[k], v));
                }
                if exists|k: int| 0 <= k < i + 1 && var_at(self@, #[trigger] sids@[k], v) {
                    let k = choose|k: int| 0 <= k < i + 1 && var_at(self@, #[trigger] sids@[k], v);
                    if k < i {
                        assert(before.contains(v));
                    } else {
                        assert(var_at(self@, sids@[i as int], v));
                    }
                }
                if out@.contains(v) && !before.contains(v) {
                    assert(var_at(self@, sids@[i as int], v));
                }
            }
            i += 1;
        }
        out
    }
}

/// Whether the list holds the number.
pub fn holds_id(list: &Vec<u64>, id: u64) -> (r: bool)
    ensures
        r == list@.contains(id),
{
    let mut k: usize = 0;
    while k < list.len()
        invariant
            k <= list@.len(),
            forall|q: int| 0 <= q < k ==> #[trigger] list@[q] != id,
        decreases list@.len() - k,
    {
        if list[k] == id {
            return true;
        }
        k += 1;
    }
    false
}

pub proof fn lemma_push_set(s: Seq<u64>, x: u64)
    ensures
        s.push(x).to_set() == s.to_set().insert(x),
{
    let (a, b) = (s.push(x).to_set(), s.to_set().insert(x));
    assert forall|y: u64| a.contains(y) == b.contains(y) by {
        if a.contains(y) {
            let k = s.push(x).index_of(y);
            if k < s.len() {
                assert(s[k] == y);
            }
        }
        if b.contains(y) {
            if y == x {
                assert(s.push(x)[s.len() as int] == y);
            } else {
                let k = s.index_of(y);
                assert(s.push(x)[k] == y);
            }
        }
    }
    assert(a =~= b);
}

// ---------------------------------------------------------------------------
// Roots
// ---------------------------------------------------------------------------

/// Root `i` is sentence `sid`.
pub open spec fn root_is(rs: Seq<RootView>, sid: SentenceId, i: int) -> bool {
    0 <= i < rs.len() && rs[i].sid == sid
}

/// Sentence `sid` is a root.
pub open spec fn is_root(rs: Seq<RootView>, sid: SentenceId) -> bool {
    exists|i: int| root_is(rs, sid, i)
}

/// The place of a root.
pub open spec fn root_place(rs: Seq<RootView>, sid: SentenceId) -> int {
    choose|i: int| root_is(rs, sid, i)
}

pub proof fn lemma_root_place(rs: Seq<RootView>, sid: SentenceId, i: int)
    requires
        roots_distinct(rs),
        root_is(rs, sid, i),
    ensures
        is_root(rs, sid),
        root_place(rs, sid) == i,
{
    assert(root_is(rs, sid, root_place(rs, sid)));
}

/// The roots with `sid` held by `session`.
pub open spec fn rooted(rs: Seq<RootView>, sid: SentenceId, session: SessionId) -> Seq<RootView> {
    if is_root(rs, sid) {
        let i = root_place(rs, sid);
        rs.update(i, RootView { sessions: rs[i].sessions.insert(session), ..rs[i] })
    } else {
        rs.push(RootView { sid, promoted: false, sessions: Set::empty().insert(session), hidden: Set::empty() })
    }
}

/// The roots with `sid` promoted.
pub open spec fn promoted(rs: Seq<RootView>, sid: SentenceId) -> Seq<RootView> {
    if is_root(rs, sid) {
        let i = root_place(rs, sid);
        rs.update(i, RootView { promoted: true, ..rs[i] })
    } else {
        rs
    }
}

/// The roots with the removal of `sid` staged in `session`.
pub open spec fn hidden_in(rs: Seq<RootView>, sid: SentenceId, session: SessionId) -> Seq<RootView> {
    if is_root(rs, sid) {
        let i = root_place(rs, sid);
        rs.update(i, RootView { hidden: rs[i].hidden.insert(session), ..rs[i] })
    } else {
        rs
    }
}

/// The roots without `sid`.
pub open spec fn unrooted(rs: Seq<RootView>, sid: SentenceId) -> Seq<RootView> {
    if is_root(rs, sid) {
        rs.remove(root_place(rs, sid))
    } else {
        rs
    }
}

/// Root `sid` is promoted.
pub open spec fn is_promoted(rs: Seq<RootView>, sid: SentenceId) -> bool {
    is_root(rs, sid) && rs[root_place(rs, sid)].promoted
}

/// The sessions that hold root `sid`.
pub open spec fn sessions_holding(rs: Seq<RootView>, sid: SentenceId) -> Set<SessionId> {
    if is_root(rs, sid) {
        rs[root_place(rs, sid)].sessions
    } else {
        Set::empty()
    }
}

/// A root is seen in a scope: promoted, or held by the session, and not staged
/// for removal there.
pub open spec fn seen_in(r: RootView, scope: Scope) -> bool {
    match scope {
        Scope::Base => r.promoted,
        Scope::Session(s) => (r.promoted || r.sessions.contains(s)) && !r.hidden.contains(s),
    }
}

/// Sentence `sid` is a root seen in a scope.
pub open spec fn root_seen_in(rs: Seq<RootView>, sid: SentenceId, scope: Scope) -> bool {
    is_root(rs, sid) && seen_in(rs[root_place(rs, sid)], scope)
}

/// The roots that the predicate picks, in order.
pub open spec fn picked(rs: Seq<RootView>, p: spec_fn(RootView) -> bool) -> Seq<SentenceId>
    decreases rs.len(),
{
    if rs.len() == 0 {
        Seq::empty()
    } else {
        let s = picked(rs.drop_last(), p);
        if p(rs.last()) {
            s.push(rs.last().sid)
        } else {
            s
        }
    }
}

/// The root's head is the given symbol.
pub open spec fn headed_by(v: LayerView, head: SymbolId) -> spec_fn(RootView) -> bool {
    |r: RootView| body(v, r.sid) matches Some(ps) && head_of(ps) == Some(head)
}

/// The root's head is the given symbol, its first argument the other one, and
/// it is seen in the scope.
pub open spec fn about(v: LayerView, head: SymbolId, subject: SymbolId, scope: Scope) -> spec_fn(RootView) -> bool {
    |r: RootView|
        seen_in(r, scope) && (body(v, r.sid) matches Some(ps) && head_of(ps) == Some(head) && ps.len() > 1 && ps[1]
            == Part::Sym(subject))
}

/// The root without the session.
pub open spec fn without_session(r: RootView, session: SessionId) -> RootView {
    RootView { sessions: r.sessions.remove(session), ..r }
}

/// The roots once a session is dropped.
pub open spec fn retracted(rs: Seq<RootView>, session: SessionId) -> Seq<RootView>
    decreases rs.len(),
{
    if rs.len() == 0 {
        Seq::empty()
    } else {
        let s = retracted(rs.drop_last(), session);
        let r = without_session(rs.last(), session);
        if r.promoted || r.sessions != Set::<SessionId>::empty() {
            s.push(r)
        } else {
            s
        }
    }
}

/// Dropping a session keeps the roots distinct.
pub proof fn lemma_retracted(rs: Seq<RootView>, session: SessionId)
    requires
        roots_distinct(rs),
    ensures
        roots_distinct(retracted(rs, session)),
        forall|i: int| 0 <= i < retracted(rs, session).len() ==> is_root(rs, (#[trigger] retracted(rs, session)[i]).sid),
    decreases rs.len(),
{
    if rs.len() > 0 {
        let front = rs.drop_last();
        lemma_retracted(front, session);
        let (s, t) = (retracted(front, session), retracted(rs, session));
        assert forall|i: int| 0 <= i < t.len() implies is_root(rs, (#[trigger] t[i]).sid) by {
            if i < s.len() {
                assert(is_root(front, s[i].sid));
                let k = root_place(front, s[i].sid);
                assert(root_is(front, s[i].sid, k));
                assert(root_is(rs, t[i].sid, k));
            } else {
                assert(root_is(rs, t[i].sid, rs.len() - 1));
            }
        }
        assert forall|i: int, j: int| 0 <= i < t.len() && 0 <= j < t.len() && i != j implies #[trigger] t[i].sid
            != #[trigger] t[j].sid by {
            let (a, b) = if i < j {
                (i, j)
            } else {
                (j, i)
            };
            if b < s.len() {
                assert(t[a] == s[a] && t[b] == s[b]);
            } else {
                assert(t[a] == s[a]);
                assert(is_root(front, s[a].sid));
                let k = root_place(front, s[a].sid);
                assert(root_is(front, s[a].sid, k));
                assert(rs[k].sid == s[a].sid);
                assert(rs[k].sid != rs[rs.len() - 1].sid);
            }
        }
    }
}

/// The list without the number.
fn without_id(list: &Vec<u64>, id: u64) -> (r: Vec<u64>)
    ensures
        r@.to_set() == list@.to_set().remove(id),
{
    let mut out: Vec<u64> = Vec::new();
    let mut i: usize = 0;
    while i < list.len()
        invariant
            i <= list@.len(),
            forall|x: u64| #[trigger]
                out@.contains(x) <==> x != id && exists|k: int| 0 <= k < i && #[trigger] list@[k] == x,
        decreases list@.len() - i,
    {
        let ghost before = out@;
        if list[i] != id {
            out.push(list[i]);
            proof {
                lemma_push_contains(before, list@[i as int]);
            }
        }
        i += 1;
    }
    assert forall|x: u64| out@.to_set().contains(x) == list@.to_set().remove(id).contains(x) by {
        if list@.contains(x) && x != id {
            let k = list@.index_of(x);
            assert(list@[k] == x);
            assert(out@.contains(x));
        }
        if out@.to_set().contains(x) {
            assert(out@.contains(x));
        }
    }
    assert(out@.to_set() =~= list@.to_set().remove(id));
    out
}

pub proof fn lemma_push_contains(s: Seq<u64>, x: u64)
    ensures
        forall|y: u64| #[trigger] s.push(x).contains(y) <==> s.contains(y) || y == x,
        s.no_duplicates() && !s.contains(x) ==> s.push(x).no_duplicates(),
{
    assert forall|y: u64| #[trigger] s.push(x).contains(y) <==> s.contains(y) || y == x by {
        if s.push(x).contains(y) {
            let k = s.push(x).index_of(y);
            if k < s.len() {
                assert(s[k] == y);
            }
        }
        if s.contains(y) {
            let k = s.index_of(y);
            assert(s.push(x)[k] == y);
        }
        if y == x {
            assert(s.push(x)[s.len() as int] == y);
        }
    }
}

// ---------------------------------------------------------------------------
// Sentence trees
// ---------------------------------------------------------------------------

/// A number that is less for the sentences within a sentence.
pub open spec fn tree_rank(es: Seq<Entry>, sid: SentenceId) -> nat {
    if stored(es, sid) {
        place(es, sid) as nat
    } else {
        0
    }
}

pub proof fn lemma_tree_rank(es: Seq<Entry>, sid: SentenceId, k: int, sub: SentenceId)
    requires
        entries_ordered(es),
        stored(es, sid),
        0 <= k < es[place(es, sid)].parts.len(),
        es[place(es, sid)].parts[k] == Part::Sub(sub),
    ensures
        stored(es, sub),
        tree_rank(es, sub) < tree_rank(es, sid),
{
    let i = place(es, sid);
    assert(entry_at(es, sid, i));
    let j = choose|j: int| j < i && entry_at(es, sub, j);
    lemma_place(es, sub, j);
}

/// Sentence `sid` and the sentences within it, in the order in which they are
/// met.
pub open spec fn tree(es: Seq<Entry>, sid: SentenceId) -> Seq<SentenceId>
    decreases tree_rank(es, sid), 1nat, 0nat,
    when entries_ordered(es)
{
    if stored(es, sid) {
        seq![sid] + subtrees(es, sid, es[place(es, sid)].parts.len())
    } else {
        Seq::empty()
    }
}

/// The sentences within the first `n` elements of sentence `sid`.
pub open spec fn subtrees(es: Seq<Entry>, sid: SentenceId, n: nat) -> Seq<SentenceId>
    decreases tree_rank(es, sid), 0nat, n,
    when entries_ordered(es)
{
    if n == 0 || !stored(es, sid) || n > es[place(es, sid)].parts.len() {
        Seq::empty()
    } else {
        let s = subtrees(es, sid, (n - 1) as nat);
        match es[place(es, sid)].parts[n - 1] {
            Part::Sub(sub) => {
                proof {
                    lemma_tree_rank(es, sid, n - 1, sub);
                }
                s + tree(es, sub)
            },
            _ => s,
        }
    }
}

/// The element is the symbol or variable.
pub open spec fn part_names(p: Part, sym: SymbolId) -> bool {
    match p {
        Part::Sym(id) => id == sym,
        Part::Var(id, _) => id == sym,
        _ => false,
    }
}

/// The symbol or variable is an element of sentence `sid`.
pub open spec fn names(v: LayerView, sid: SentenceId, sym: SymbolId) -> bool {
    body(v, sid) matches Some(ps) && exists|k: int| 0 <= k < ps.len() && part_names(#[trigger] ps[k], sym)
}

/// The symbol or variable stands in sentence `sid` or within it.
pub open spec fn mentioned(v: LayerView, sid: SentenceId, sym: SymbolId) -> bool {
    exists|i: int| 0 <= i < tree(v.entries, sid).len() && names(v, #[trigger] tree(v.entries, sid)[i], sym)
}

/// The root is seen in the scope and the symbol or variable stands in it.
pub open spec fn mentioning(v: LayerView, sym: SymbolId, scope: Scope) -> spec_fn(RootView) -> bool {
    |r: RootView| seen_in(r, scope) && mentioned(v, r.sid, sym)
}

/// The element is the variable.
pub open spec fn part_is_var(p: Part, var: SymbolId) -> bool {
    p matches Part::Var(id, _) && id == var
}

/// The variable is an element of sentence `sid`.
pub open spec fn var_at(v: LayerView, sid: SentenceId, var: SymbolId) -> bool {
    body(v, sid) matches Some(ps) && exists|k: int| 0 <= k < ps.len() && part_is_var(#[trigger] ps[k], var)
}

/// The variable stands in sentence `sid` or within it.
pub open spec fn has_var(v: LayerView, sid: SentenceId, var: SymbolId) -> bool {
    exists|i: int| 0 <= i < tree(v.entries, sid).len() && var_at(v, #[trigger] tree(v.entries, sid)[i], var)
}

// ---------------------------------------------------------------------------
// What the operations do to who sees what
// ---------------------------------------------------------------------------

/// The session has staged the removal of the root.
pub open spec fn hides(rs: Seq<RootView>, sid: SentenceId, session: SessionId) -> bool {
    is_root(rs, sid) && rs[root_place(rs, sid)].hidden.contains(session)
}

proof fn lemma_seen_at(rs: Seq<RootView>, i: int, scope: Scope)
    requires
        roots_distinct(rs),
        0 <= i < rs.len(),
    ensures
        root_seen_in(rs, rs[i].sid, scope) == seen_in(rs[i], scope),
        root_place(rs, rs[i].sid) == i,
        is_root(rs, rs[i].sid),
{
    assert(root_is(rs, rs[i].sid, i));
    lemma_root_place(rs, rs[i].sid, i);
}

proof fn lemma_updated(rs: Seq<RootView>, i: int, r: RootView, sid: SentenceId, scope: Scope)
    requires
        roots_distinct(rs),
        0 <= i < rs.len(),
        r.sid == rs[i].sid,
    ensures
        roots_distinct(rs.update(i, r)),
        sid != r.sid ==> root_seen_in(rs.update(i, r), sid, scope) == root_seen_in(rs, sid, scope),
        root_seen_in(rs.update(i, r), r.sid, scope) == seen_in(r, scope),
{
    let us = rs.update(i, r);
    lemma_seen_at(us, i, scope);
    if is_root(rs, sid) {
        let k = root_place(rs, sid);
        assert(root_is(us, sid, k));
        lemma_seen_at(us, k, scope);
        lemma_seen_at(rs, k, scope);
    }
    if is_root(us, sid) {
        let k = root_place(us, sid);
        assert(root_is(rs, sid, k));
        lemma_seen_at(rs, k, scope);
    }
}

/// A sentence that a session takes hold of is seen by that session from then on, unless
/// the session has staged its removal; nobody else sees anything new, and nobody stops
/// seeing anything.
pub proof fn law_holding_shows_to_the_session(
    rs: Seq<RootView>,
    sid: SentenceId,
    session: SessionId,
    other: SentenceId,
    scope: Scope,
)
    requires
        roots_distinct(rs),
    ensures
        root_seen_in(rooted(rs, sid, session), other, scope) <==> root_seen_in(rs, other, scope) || (other == sid && scope
            == Scope::Session(session) && !hides(rs, sid, session)),
{
    let us = rooted(rs, sid, session);
    if is_root(rs, sid) {
        let i = root_place(rs, sid);
        assert(root_is(rs, sid, i));
        lemma_seen_at(rs, i, scope);
        lemma_updated(rs, i, us[i], other, scope);
    } else {
        assert(root_is(us, sid, rs.len() as int));
        assert(roots_distinct(us)) by {
            assert forall|a: int, b: int| 0 <= a < b < us.len() implies us[a].sid != us[b].sid by {
                if b == rs.len() && us[a].sid == sid {
                    assert(root_is(rs, sid, a));
                }
            }
        }
        lemma_seen_at(us, rs.len() as int, scope);
        if is_root(rs, other) {
            let k = root_place(rs, other);
            assert(root_is(rs, other, k));
            assert(us[k] == rs[k]);
            lemma_seen_at(us, k, scope);
            lemma_seen_at(rs, k, scope);
        }
        if is_root(us, other) && other != sid {
            let k = root_place(us, other);
            assert(root_is(us, other, k));
            assert(root_is(rs, other, k));
        }
    }
}

/// A promoted sentence is seen in the base and by every session that has not staged its
/// removal; nothing else changes.
pub proof fn law_promotion_shows_to_all(rs: Seq<RootView>, sid: SentenceId, other: SentenceId, scope: Scope)
    requires
        roots_distinct(rs),
    ensures
        root_seen_in(promoted(rs, sid), other, scope) <==> root_seen_in(rs, other, scope) || (other == sid && is_root(
            rs,
            sid,
        ) && !(scope matches Scope::Session(s) && hides(rs, sid, s))),
{
    if is_root(rs, sid) {
        let i = root_place(rs, sid);
        assert(root_is(rs, sid, i));
        lemma_seen_at(rs, i, scope);
        lemma_updated(rs, i, promoted(rs, sid)[i], other, scope);
    }
}

/// A removal staged in a session hides the sentence from that session and from nobody
/// else.
pub proof fn law_staged_removals_hide(
    rs: Seq<RootView>,
    sid: SentenceId,
    session: SessionId,
    other: SentenceId,
    scope: Scope,
)
    requires
        roots_distinct(rs),
    ensures
        root_seen_in(hidden_in(rs, sid, session), other, scope) <==> root_seen_in(rs, other, scope) && !(other == sid
            && scope == Scope::Session(session)),
{
    if is_root(rs, sid) {
        let i = root_place(rs, sid);
        assert(root_is(rs, sid, i));
        lemma_seen_at(rs, i, scope);
        lemma_updated(rs, i, hidden_in(rs, sid, session)[i], other, scope);
    }
}

/// A removed sentence is seen by nobody; the others are seen as before.
pub proof fn law_removal_hides_from_all(rs: Seq<RootView>, sid: SentenceId, other: SentenceId, scope: Scope)
    requires
        roots_distinct(rs),
    ensures
        root_seen_in(unrooted(rs, sid), other, scope) <==> root_seen_in(rs, other, scope) && other != sid,
{
    let us = unrooted(rs, sid);
    if is_root(rs, sid) {
        let i = root_place(rs, sid);
        assert(root_is(rs, sid, i));
        assert forall|a: int, b: int| 0 <= a < b < us.len() implies us[a].sid != us[b].sid by {
            let c = if a < i {
                a
            } else {
                a + 1
            };
            let d = if b < i {
                b
            } else {
                b + 1
            };
            assert(us[a] == rs[c] && us[b] == rs[d]);
        }
        if is_root(us, other) {
            let k = root_place(us, other);
            assert(root_is(us, other, k));
            let c = if k < i {
                k
            } else {
                k + 1
            };
            assert(us[k] == rs[c]);
            assert(rs[c].sid != rs[i].sid);
            lemma_seen_at(us, k, scope);
            lemma_seen_at(rs, c, scope);
        }
        if is_root(rs, other) && other != sid {
            let c = root_place(rs, other);
            assert(root_is(rs, other, c));
            let k = if c < i {
                c
            } else {
                c - 1
            };
            assert(us[k] == rs[c]);
            assert(root_is(us, other, k));
        }
    }
}

proof fn lemma_kept_record(rs: Seq<RootView>, session: SessionId, r: RootView)
    ensures
        retracted(rs, session).contains(r) <==> exists|i: int|
            0 <= i < rs.len() && r == without_session(#[trigger] rs[i], session) && (r.promoted || r.sessions != Set::<
                SessionId,
            >::empty()),
    decreases rs.len(),
{
    if rs.len() > 0 {
        let rest = rs.drop_last();
        lemma_kept_record(rest, session, r);
        let s = retracted(rest, session);
        let t = retracted(rs, session);
        let n = rs.len() - 1;
        if t.contains(r) {
            let k = choose|k: int| 0 <= k < t.len() && t[k] == r;
            if k < s.len() {
                assert(s[k] == r);
                assert(s.contains(r));
                let i = choose|i: int|
                    0 <= i < rest.len() && r == without_session(#[trigger] rest[i], session) && (r.promoted || r.sessions
                        != Set::<SessionId>::empty());
                assert(rs[i] == rest[i]);
            } else {
                assert(r == without_session(rs[n], session));
            }
        }
        if exists|i: int|
            0 <= i < rs.len() && r == without_session(#[trigger] rs[i], session) && (r.promoted || r.sessions != Set::<
                SessionId,
            >::empty()) {
            let i = choose|i: int|
                0 <= i < rs.len() && r == without_session(#[trigger] rs[i], session) && (r.promoted || r.sessions != Set::<
                    SessionId,
                >::empty());
            if i < n {
                assert(rest[i] == rs[i]);
                let k = choose|k: int| 0 <= k < s.len() && s[k] == r;
                assert(t[k] == r);
            } else {
                assert(t[t.len() - 1] == r);
            }
        }
    }
}

/// A dropped session leaves behind what others see: the base and every other session see
/// what they saw, and the session itself sees of its sentences only those that are
/// promoted.
pub proof fn law_dropped_sessions_leave_the_rest(rs: Seq<RootView>, session: SessionId, sid: SentenceId, scope: Scope)
    requires
        roots_distinct(rs),
    ensures
        scope != Scope::Session(session) ==> root_seen_in(retracted(rs, session), sid, scope) == root_seen_in(
            rs,
            sid,
            scope,
        ),
        root_seen_in(retracted(rs, session), sid, Scope::Session(session)) <==> root_seen_in(
            rs,
            sid,
            Scope::Session(session),
        ) && is_promoted(rs, sid),
{
    let us = retracted(rs, session);
    let own = Scope::Session(session);
    lemma_retracted(rs, session);
    if is_root(us, sid) {
        let k = root_place(us, sid);
        assert(root_is(us, sid, k));
        lemma_kept_record(rs, session, us[k]);
        assert(us.contains(us[k]));
        let i = choose|i: int|
            0 <= i < rs.len() && us[k] == without_session(#[trigger] rs[i], session) && (us[k].promoted || us[k].sessions
                != Set::<SessionId>::empty());
        assert(rs[i].sid == sid);
        lemma_seen_at(us, k, scope);
        lemma_seen_at(rs, i, scope);
        lemma_seen_at(us, k, own);
        lemma_seen_at(rs, i, own);
    } else if is_root(rs, sid) {
        let i = root_place(rs, sid);
        assert(root_is(rs, sid, i));
        let r = without_session(rs[i], session);
        lemma_kept_record(rs, session, r);
        lemma_seen_at(rs, i, scope);
        if r.promoted || r.sessions != Set::<SessionId>::empty() {
            assert(r == without_session(rs[i], session));
            let k = choose|k: int| 0 <= k < us.len() && us[k] == r;
            assert(root_is(us, sid, k));
        } else if let Scope::Session(s) = scope {
            assert(rs[i].sessions.remove(session) == Set::<SessionId>::empty());
            if s != session {
                assert(rs[i].sessions.remove(session).contains(s) == rs[i].sessions.contains(s));
            }
        }
    }
}

/// The second sentence is an element of the first.
pub open spec fn directly_within(es: Seq<Entry>, sid: SentenceId, sub: SentenceId) -> bool {
    stored(es, sid) && es[place(es, sid)].parts.contains(Part::Sub(sub))
}

/// Each sentence of the way is an element of the one before it.
pub open spec fn is_way_in(es: Seq<Entry>, p: Seq<SentenceId>) -> bool {
    forall|i: int| 0 < i < p.len() ==> directly_within(es, p[i - 1], #[trigger] p[i])
}

/// A way leads from the first sentence into it to the second.
pub open spec fn leads_in(es: Seq<Entry>, sid: SentenceId, x: SentenceId, p: Seq<SentenceId>) -> bool {
    p.len() > 0 && p[0] == sid && p.last() == x && is_way_in(es, p)
}

proof fn lemma_subtrees_hold(es: Seq<Entry>, sid: SentenceId, n: nat, k: int, sub: SentenceId, x: SentenceId)
    requires
        entries_ordered(es),
        stored(es, sid),
        0 <= k < n <= es[place(es, sid)].parts.len(),
        es[place(es, sid)].parts[k] == Part::Sub(sub),
        tree(es, sub).contains(x),
    ensures
        subtrees(es, sid, n).contains(x),
    decreases n,
{
    let s = subtrees(es, sid, (n - 1) as nat);
    let t = subtrees(es, sid, n);
    if k < n - 1 {
        lemma_subtrees_hold(es, sid, (n - 1) as nat, k, sub, x);
        let j = choose|j: int| 0 <= j < s.len() && s[j] == x;
        assert(t[j] == x);
    } else {
        let j = choose|j: int| 0 <= j < tree(es, sub).len() && tree(es, sub)[j] == x;
        assert(t == s + tree(es, sub));
        assert(t[s.len() + j] == x);
    }
}

/// The sentences of a tree are the sentence itself and all that stands in it, however
/// deep.
pub proof fn law_what_stands_deep_is_in_the_tree(es: Seq<Entry>, sid: SentenceId, x: SentenceId, p: Seq<SentenceId>)
    requires
        entries_ordered(es),
        stored(es, sid),
        leads_in(es, sid, x, p),
    ensures
        tree(es, sid).contains(x),
    decreases p.len(),
{
    let t = tree(es, sid);
    if p.len() == 1 {
        assert(t[0] == sid);
    } else {
        let q = p.skip(1);
        let sub = p[1];
        assert(directly_within(es, p[0], p[1]));
        let parts = es[place(es, sid)].parts;
        let k = choose|k: int| 0 <= k < parts.len() && parts[k] == Part::Sub(sub);
        lemma_tree_rank(es, sid, k, sub);
        assert forall|i: int| 0 < i < q.len() implies directly_within(es, q[i - 1], #[trigger] q[i]) by {
            assert(q[i] == p[i + 1] && q[i - 1] == p[i]);
        }
        assert(q.last() == p.last());
        law_what_stands_deep_is_in_the_tree(es, sub, x, q);
        lemma_subtrees_hold(es, sid, parts.len(), k, sub, x);
        let s = subtrees(es, sid, parts.len());
        let j = choose|j: int| 0 <= j < s.len() && s[j] == x;
        assert(t[1 + j] == x);
    }
}

proof fn lemma_subtrees_lead(es: Seq<Entry>, sid: SentenceId, n: nat, x: SentenceId) -> (p: Seq<SentenceId>)
    requires
        entries_ordered(es),
        stored(es, sid),
        n <= es[place(es, sid)].parts.len(),
        subtrees(es, sid, n).contains(x),
    ensures
        leads_in(es, sid, x, p),
    decreases tree_rank(es, sid), 0nat, n,
{
    let t = subtrees(es, sid, n);
    let j = choose|j: int| 0 <= j < t.len() && t[j] == x;
    let s = subtrees(es, sid, (n - 1) as nat);
    if j < s.len() {
        assert(s[j] == x);
        lemma_subtrees_lead(es, sid, (n - 1) as nat, x)
    } else {
        let sub = es[place(es, sid)].parts[n - 1]->Sub_0;
        lemma_tree_rank(es, sid, n - 1, sub);
        assert(tree(es, sub)[j - s.len()] == x);
        let q = law_the_tree_stands_within(es, sub, x);
        let p = seq![sid] + q;
        assert(directly_within(es, sid, sub));
        assert forall|i: int| 0 < i < p.len() implies directly_within(es, p[i - 1], #[trigger] p[i]) by {
            if i > 1 {
                assert(p[i] == q[i - 1] && p[i - 1] == q[i - 2]);
            }
        }
        assert(p.last() == q.last());
        p
    }
}

/// Each sentence of a tree is reached from the sentence through elements of elements.
pub proof fn law_the_tree_stands_within(es: Seq<Entry>, sid: SentenceId, x: SentenceId) -> (p: Seq<SentenceId>)
    requires
        entries_ordered(es),
        tree(es, sid).contains(x),
    ensures
        leads_in(es, sid, x, p),
    decreases tree_rank(es, sid), 1nat, 0nat,
{
    let t = tree(es, sid);
    let j = choose|j: int| 0 <= j < t.len() && t[j] == x;
    assert(stored(es, sid));
    if j == 0 {
        seq![sid]
    } else {
        let n = es[place(es, sid)].parts.len();
        assert(subtrees(es, sid, n)[j - 1] == x);
        lemma_subtrees_lead(es, sid, n, x)
    }
}

} // verus!
