//! What the sentences say about symbols for people to read.
use vstd::prelude::*;

use crate::content::Part;
use crate::events::{event_views, Event, EventView};
use crate::inferred_laws::lemma_picked;
use crate::memo::{outside, MemoKey, ScopedMemo};
use crate::semantic::SemanticLayer;
use crate::store::{
    body, head_of, headed_by, lemma_root_place, picked, root_is, root_seen_in, roots_distinct, seen_in, session_id, Element,
    LayerView, Scope, SyntacticLayer,
};
use crate::text::{chars_of, text_between};
use crate::types::{Literal, LiteralView, SentenceId, SymbolId};

verus! {

/// A text about a symbol, in a language.
#[derive(Debug, PartialEq, Eq)]
pub struct DocEntry {
    pub rel: SymbolId,
    pub language: String,
    pub text: String,
}

/// An entry, its texts as sequences.
pub struct DocView {
    pub rel: SymbolId,
    pub language: Seq<char>,
    pub text: Seq<char>,
}

impl View for DocEntry {
    type V = DocView;

    open spec fn view(&self) -> DocView {
        DocView { rel: self.rel, language: self.language@, text: self.text@ }
    }
}

/// The views of the entries.
pub open spec fn doc_views(es: Seq<DocEntry>) -> Seq<DocView> {
    Seq::new(es.len(), |i: int| es[i]@)
}

proof fn lemma_doc_push(es: Seq<DocEntry>, e: DocEntry)
    ensures
        doc_views(es.push(e)) == doc_views(es).push(e@),
{
    assert(doc_views(es.push(e)) =~= doc_views(es).push(e@));
}

fn copy_entry(e: &DocEntry) -> (r: DocEntry)
    ensures
        r@ == e@,
{
    DocEntry { rel: e.rel, language: e.language.clone(), text: e.text.clone() }
}

/// The text without the quotes around it.
pub open spec fn unquoted(s: Seq<char>) -> Seq<char> {
    if s.len() >= 2 && s[0] == '"' && s.last() == '"' {
        s.subrange(1, s.len() - 1)
    } else {
        s
    }
}

/// The text without the quotes around it.
pub fn strip_quotes(s: &str) -> (r: String)
    ensures
        r@ == unquoted(s@),
{
    let chars = chars_of(s);
    let n = chars.len();
    if n >= 2 && chars[0] == '"' && chars[n - 1] == '"' {
        text_between(&chars, 1, n - 1)
    } else {
        s.to_owned()
    }
}

/// The symbols among the first arguments.
pub open spec fn arg_syms(ps: Seq<Part>, n: int) -> Seq<SymbolId>
    decreases n,
{
    if n <= 1 {
        Seq::empty()
    } else {
        let s = arg_syms(ps, n - 1);
        match ps[n - 1] {
            Part::Sym(id) => s.push(id),
            _ => s,
        }
    }
}

/// The first string among the first arguments, without its quotes.
pub open spec fn arg_text(ps: Seq<Part>, n: int) -> Option<Seq<char>>
    decreases n,
{
    if n <= 1 {
        None
    } else if arg_text(ps, n - 1) is Some {
        arg_text(ps, n - 1)
    } else {
        match ps[n - 1] {
            Part::Lit(l) => if l.is_str {
                Some(unquoted(l.text))
            } else {
                None
            },
            _ => None,
        }
    }
}

/// The first symbol that is not the one.
pub open spec fn first_other(syms: Seq<SymbolId>, target: SymbolId) -> Option<SymbolId>
    decreases syms.len(),
{
    if syms.len() == 0 {
        None
    } else {
        match first_other(syms.drop_last(), target) {
            Some(x) => Some(x),
            None => if syms.last() != target {
                Some(syms.last())
            } else {
                None
            },
        }
    }
}

/// What a sentence says about the symbol: it names the symbol, another one
/// that is the language, and gives a text.
pub open spec fn doc_of(v: LayerView, head: SymbolId, target: SymbolId, sid: SentenceId) -> Option<DocView> {
    match body(v, sid) {
        None => None,
        Some(ps) => {
            let syms = arg_syms(ps, ps.len() as int);
            match (arg_text(ps, ps.len() as int), first_other(syms, target)) {
                (Some(text), Some(lang)) => if syms.contains(target) && v.names.dom().contains(lang) {
                    Some(DocView { rel: head, language: v.names[lang], text })
                } else {
                    None
                },
                _ => None,
            }
        },
    }
}

/// What the sentences say about the symbol.
pub open spec fn docs_of(v: LayerView, head: SymbolId, target: SymbolId, sids: Seq<SentenceId>) -> Seq<DocView>
    decreases sids.len(),
{
    if sids.len() == 0 {
        Seq::empty()
    } else {
        let s = docs_of(v, head, target, sids.drop_last());
        match doc_of(v, head, target, sids.last()) {
            Some(d) => s.push(d),
            None => s,
        }
    }
}

/// The roots with the head.
pub open spec fn headed(v: LayerView, head: SymbolId) -> Seq<SentenceId> {
    picked(v.roots, headed_by(v, head))
}

/// The roots with the head that the scope sees.
pub open spec fn headed_seen(v: LayerView, head: SymbolId, scope: Scope) -> Seq<SentenceId> {
    headed(v, head).filter(|sid: SentenceId| root_seen_in(v.roots, sid, scope))
}

/// The entries in the language, all of them if none is asked for.
pub open spec fn in_language(es: Seq<DocView>, want: Option<Seq<char>>) -> Seq<DocView>
    decreases es.len(),
{
    if es.len() == 0 {
        Seq::empty()
    } else {
        let s = in_language(es.drop_last(), want);
        if want is None || want == Some(es.last().language) {
            s.push(es.last())
        } else {
            s
        }
    }
}

/// The text asked for, as a sequence.
pub open spec fn asked(want: Option<&str>) -> Option<Seq<char>> {
    match want {
        None => None,
        Some(s) => Some(s@),
    }
}

/// The entries in the language, all of them if none is asked for.
pub fn filter_lang(entries: &Vec<DocEntry>, want: Option<&str>) -> (r: Vec<DocEntry>)
    ensures
        doc_views(r@) == in_language(doc_views(entries@), asked(want)),
{
    let ghost es = doc_views(entries@);
    let wanted: Option<String> = match want {
        None => None,
        Some(s) => Some(s.to_owned()),
    };
    let mut out: Vec<DocEntry> = Vec::new();
    let mut i: usize = 0;
    assert(es.take(0) =~= Seq::empty());
    assert(doc_views(out@) =~= Seq::empty());
    while i < entries.len()
        invariant
            i <= entries@.len(),
            es == doc_views(entries@),
            match (wanted, want) {
                (None, None) => true,
                (Some(a), Some(b)) => a@ == b@,
                _ => false,
            },
            doc_views(out@) == in_language(es.take(i as int), asked(want)),
        decreases entries@.len() - i,
    {
        assert(es.take(i + 1).drop_last() =~= es.take(i as int));
        assert(es.take(i + 1).last() == entries@[i as int]@);
        let fits = match &wanted {
            None => true,
            Some(l) => entries[i].language == *l,
        };
        if fits {
            let e = copy_entry(&entries[i]);
            proof {
                lemma_doc_push(out@, e);
            }
            out.push(e);
        }
        i += 1;
    }
    assert(es.take(i as int) =~= es);
    out
}

fn collect_from_sids(store: &SyntacticLayer, head: SymbolId, target: SymbolId, sids: &Vec<SentenceId>, out: &mut Vec<DocEntry>)
    requires
        store.wf(),
    ensures
        doc_views(final(out)@) == doc_views(old(out)@) + docs_of(store@, head, target, sids@),
{
    let ghost start = doc_views(out@);
    let mut i: usize = 0;
    assert(sids@.take(0) =~= Seq::empty());
    assert(start =~= start + Seq::<DocView>::empty());
    while i < sids.len()
        invariant
            store.wf(),
            i <= sids@.len(),
            doc_views(out@) == start + docs_of(store@, head, target, sids@.take(i as int)),
        decreases sids@.len() - i,
    {
        assert(sids@.take(i + 1).drop_last() =~= sids@.take(i as int));
        let ghost before = docs_of(store@, head, target, sids@.take(i as int));
        match doc_at(store, head, target, sids[i]) {
            None => {},
            Some(e) => {
                proof {
                    lemma_doc_push(out@, e);
                }
                let ghost ev = e@;
                out.push(e);
                assert(doc_views(out@) =~= start + before.push(ev));
            },
        }
        i += 1;
    }
    assert(sids@.take(i as int) =~= sids@);
}

/// What a sentence says about the symbol.
fn doc_at(store: &SyntacticLayer, head: SymbolId, target: SymbolId, sid: SentenceId) -> (r: Option<DocEntry>)
    requires
        store.wf(),
    ensures
        match r {
            Some(e) => doc_of(store@, head, target, sid) == Some(e@),
            None => doc_of(store@, head, target, sid) is None,
        },
{
    let sent = match store.sentence(sid) {
        None => return None,
        Some(s) => s,
    };
    let ghost ps = sent@;
    let mut seen_target = false;
    let mut lang: Option<SymbolId> = None;
    let mut text: Option<String> = None;
    let n = sent.elements.len();
    let mut k: usize = 1;
    let ghost mut syms: Seq<SymbolId> = Seq::empty();
    while k < n
        invariant
            n == sent.elements@.len(),
            ps == sent@,
            ps.len() == n,
            1 <= k,
            k <= n || (n == 0 && k == 1),
            syms == arg_syms(ps, k as int),
            seen_target == syms.contains(target),
            lang == first_other(syms, target),
            match text {
                Some(t) => arg_text(ps, k as int) == Some(t@),
                None => arg_text(ps, k as int) is None,
            },
        decreases n - k,
    {
        assert(ps[k as int] == sent.elements@[k as int]@);
        match &sent.elements[k] {
            Element::Symbol(s) => {
                let id = s.id();
                proof {
                    crate::store::lemma_push_contains(syms, id);
                    assert(syms.push(id).drop_last() =~= syms);
                    syms = syms.push(id);
                }
                if id == target {
                    seen_target = true;
                } else if lang.is_none() {
                    lang = Some(id);
                }
            },
            Element::Literal(l) => {
                match l {
                    Literal::Str(s) => {
                        if text.is_none() {
                            text = Some(strip_quotes(s.as_str()));
                        }
                    },
                    Literal::Number(_) => {},
                }
            },
            _ => {},
        }
        k += 1;
    }
    proof {
        if n == 0 {
            assert(arg_syms(ps, 0) =~= arg_syms(ps, 1));
        }
    }
    if !seen_target {
        return None;
    }
    let text = match text {
        None => return None,
        Some(t) => t,
    };
    let lang = match lang {
        None => return None,
        Some(l) => l,
    };
    match store.sym_name(lang) {
        None => None,
        Some(s) => {
            let e = DocEntry { rel: head, language: s.name().to_owned(), text };
            assert(syms == arg_syms(ps, ps.len() as int));
            Some(e)
        },
    }
}

/// All entries about the symbol that the scope sees: the documentation, the
/// formats, and the term formats.
pub open spec fn documented(f: crate::semantic::Facts, sym: SymbolId, scope: Scope) -> Seq<DocView> {
    docs_of(f.layer, f.roles.documentation, sym, headed_seen(f.layer, f.roles.documentation, scope)) + docs_of(
        f.layer,
        f.roles.format,
        sym,
        headed_seen(f.layer, f.roles.format, scope),
    ) + docs_of(f.layer, f.roles.term_format, sym, headed_seen(f.layer, f.roles.term_format, scope))
}

/// All entries about the symbol, whoever sees them.
pub open spec fn documented_any(f: crate::semantic::Facts, sym: SymbolId) -> Seq<DocView> {
    docs_of(f.layer, f.roles.documentation, sym, headed(f.layer, f.roles.documentation)) + docs_of(
        f.layer,
        f.roles.format,
        sym,
        headed(f.layer, f.roles.format),
    ) + docs_of(f.layer, f.roles.term_format, sym, headed(f.layer, f.roles.term_format))
}

/// A term format about the symbol: language, symbol and text in that order.
pub open spec fn term_format_of(v: LayerView, head: SymbolId, target: SymbolId, sid: SentenceId) -> Option<DocView> {
    match body(v, sid) {
        None => None,
        Some(ps) => if ps.len() > 3 {
            match (ps[1], ps[2], ps[3]) {
                (Part::Sym(lang), Part::Sym(sym), Part::Lit(l)) => if sym == target && l.is_str
                    && v.names.dom().contains(lang) {
                    Some(DocView { rel: head, language: v.names[lang], text: unquoted(l.text) })
                } else {
                    None
                },
                _ => None,
            }
        } else {
            None
        },
    }
}

/// The term formats about the symbol.
pub open spec fn term_formats_of(v: LayerView, head: SymbolId, target: SymbolId, sids: Seq<SentenceId>) -> Seq<DocView>
    decreases sids.len(),
{
    if sids.len() == 0 {
        Seq::empty()
    } else {
        let s = term_formats_of(v, head, target, sids.drop_last());
        match term_format_of(v, head, target, sids.last()) {
            Some(d) => s.push(d),
            None => s,
        }
    }
}

impl SemanticLayer {
    fn collect_doc_entries(&self, head: SymbolId, target: SymbolId, scope: Scope, out: &mut Vec<DocEntry>)
        requires
            self.wf(),
        ensures
            doc_views(final(out)@) == doc_views(old(out)@) + docs_of(
                self@.layer,
                head,
                target,
                headed_seen(self@.layer, head, scope),
            ),
    {
        let all = self.syntactic.by_head_id(head);
        let sids = self.syntactic.scope_filter_sids(&all, scope);
        collect_from_sids(&self.syntactic, head, target, &sids, out);
    }

    fn collect_doc_entries_any(&self, head: SymbolId, target: SymbolId, out: &mut Vec<DocEntry>)
        requires
            self.wf(),
        ensures
            doc_views(final(out)@) == doc_views(old(out)@) + docs_of(
                self@.layer,
                head,
                target,
                headed(self@.layer, head),
            ),
    {
        let sids = self.syntactic.by_head_id(head);
        collect_from_sids(&self.syntactic, head, target, &sids, out);
    }

    /// All entries about the symbol that the scope sees.
    pub fn documentation_entries(&self, sym: SymbolId, scope: Scope) -> (r: Vec<DocEntry>)
        requires
            self.wf(),
        ensures
            doc_views(r@) == documented(self@, sym, scope),
    {
        let mut out: Vec<DocEntry> = Vec::new();
        assert(doc_views(out@) =~= Seq::empty());
        self.collect_doc_entries(self.roles.documentation, sym, scope, &mut out);
        self.collect_doc_entries(self.roles.format, sym, scope, &mut out);
        self.collect_doc_entries(self.roles.term_format, sym, scope, &mut out);
        assert(doc_views(out@) =~= documented(self@, sym, scope));
        out
    }

    /// The entries about the symbol in the language that the scope sees.
    pub fn documentation_scoped(&self, sym: SymbolId, language: Option<&str>, scope: Scope) -> (r: Vec<DocEntry>)
        requires
            self.wf(),
        ensures
            doc_views(r@) == in_language(documented(self@, sym, scope), asked(language)),
    {
        let all = self.documentation_entries(sym, scope);
        filter_lang(&all, language)
    }

    /// [`Self::documentation_scoped`] in the common scope.
    pub fn documentation(&self, sym: SymbolId, language: Option<&str>) -> (r: Vec<DocEntry>)
        requires
            self.wf(),
        ensures
            doc_views(r@) == in_language(documented(self@, sym, Scope::Base), asked(language)),
    {
        self.documentation_scoped(sym, language, Scope::Base)
    }

    /// The entries about the symbol in the language, whoever sees them.
    pub fn documentation_any(&self, sym: SymbolId, language: Option<&str>) -> (r: Vec<DocEntry>)
        requires
            self.wf(),
        ensures
            doc_views(r@) == in_language(documented_any(self@, sym), asked(language)),
    {
        let mut out: Vec<DocEntry> = Vec::new();
        assert(doc_views(out@) =~= Seq::empty());
        self.collect_doc_entries_any(self.roles.documentation, sym, &mut out);
        self.collect_doc_entries_any(self.roles.format, sym, &mut out);
        self.collect_doc_entries_any(self.roles.term_format, sym, &mut out);
        assert(doc_views(out@) =~= documented_any(self@, sym));
        filter_lang(&out, language)
    }

    /// The term formats about the symbol in the language.
    pub fn term_format(&self, sym: SymbolId, language: Option<&str>) -> (r: Vec<DocEntry>)
        requires
            self.wf(),
        ensures
            doc_views(r@) == in_language(
                term_formats_of(
                    self@.layer,
                    self@.roles.term_format,
                    sym,
                    headed(self@.layer, self@.roles.term_format),
                ),
                asked(language),
            ),
    {
        let head = self.roles.term_format;
        let sids = self.syntactic.by_head_id(head);
        let mut out: Vec<DocEntry> = Vec::new();
        let mut i: usize = 0;
        assert(sids@.take(0) =~= Seq::empty());
        assert(doc_views(out@) =~= Seq::empty());
        while i < sids.len()
            invariant
                self.wf(),
                i <= sids@.len(),
                doc_views(out@) == term_formats_of(self@.layer, head, sym, sids@.take(i as int)),
            decreases sids@.len() - i,
        {
            assert(sids@.take(i + 1).drop_last() =~= sids@.take(i as int));
            match self.term_format_at(head, sym, sids[i]) {
                None => {},
                Some(e) => {
                    proof {
                        lemma_doc_push(out@, e);
                    }
                    out.push(e);
                },
            }
            i += 1;
        }
        assert(sids@.take(i as int) =~= sids@);
        filter_lang(&out, language)
    }

    fn term_format_at(&self, head: SymbolId, target: SymbolId, sid: SentenceId) -> (r: Option<DocEntry>)
        requires
            self.wf(),
        ensures
            match r {
                Some(e) => term_format_of(self@.layer, head, target, sid) == Some(e@),
                None => term_format_of(self@.layer, head, target, sid) is None,
            },
    {
        let sent = match self.syntactic.sentence(sid) {
            None => return None,
            Some(s) => s,
        };
        if sent.elements.len() <= 3 {
            return None;
        }
        assert(sent@[1] == sent.elements@[1]@);
        assert(sent@[2] == sent.elements@[2]@);
        assert(sent@[3] == sent.elements@[3]@);
        match (&sent.elements[1], &sent.elements[2], &sent.elements[3]) {
            (Element::Symbol(lang), Element::Symbol(s), Element::Literal(Literal::Str(text))) => {
                if s.id() != target {
                    return None;
                }
                match self.syntactic.sym_name(lang.id()) {
                    None => None,
                    Some(l) => Some(
                        DocEntry { rel: head, language: l.name().to_owned(), text: strip_quotes(text.as_str()) },
                    ),
                }
            },
            _ => None,
        }
    }

    /// The symbols that a sentence for people to read is about; none if it is
    /// no such sentence.
    fn doc_symbols(&self, sid: SentenceId) -> (r: Vec<SymbolId>)
        requires
            self.wf(),
        ensures
            r@ == doc_syms(self@, sid),
    {
        let mut out: Vec<SymbolId> = Vec::new();
        let sent = match self.syntactic.sentence(sid) {
            None => return out,
            Some(s) => s,
        };
        let head = match sent.head_symbol() {
            None => return out,
            Some(h) => h,
        };
        if head != self.roles.documentation && head != self.roles.format && head != self.roles.term_format {
            return out;
        }
        let mut k: usize = 1;
        while k < sent.elements.len()
            invariant
                1 <= k <= sent.elements@.len(),
                sent@.len() == sent.elements@.len(),
                out@ == arg_syms(sent@, k as int),
            decreases sent.elements@.len() - k,
        {
            assert(sent@[k as int] == sent.elements@[k as int]@);
            match &sent.elements[k] {
                Element::Symbol(s) => {
                    out.push(s.id());
                },
                _ => {},
            }
            k += 1;
        }
        out
    }
}

/// The symbols that a sentence for people to read is about.
pub open spec fn doc_syms(f: crate::semantic::Facts, sid: SentenceId) -> Seq<SymbolId> {
    match body(f.layer, sid) {
        None => Seq::empty(),
        Some(ps) => match head_of(ps) {
            None => Seq::empty(),
            Some(h) => if h == f.roles.documentation || h == f.roles.format || h == f.roles.term_format {
                arg_syms(ps, ps.len() as int)
            } else {
                Seq::empty()
            },
        },
    }
}

/// The symbols that the sentences for people to read are about.
pub open spec fn all_doc_syms(f: crate::semantic::Facts, sids: Seq<SentenceId>) -> Seq<SymbolId>
    decreases sids.len(),
{
    if sids.len() == 0 {
        Seq::empty()
    } else {
        all_doc_syms(f, sids.drop_last()) + doc_syms(f, sids.last())
    }
}

/// What is remembered once the session took hold of the sentences.
pub open spec fn session_forgotten<V>(m: Map<MemoKey, V>, scope: Scope, syms: Seq<SymbolId>) -> Map<MemoKey, V> {
    m.restrict(Set::new(|k: MemoKey| k.0 != scope || !syms.contains(k.1)))
}

/// The event leaves every remembered entry untrue.
pub open spec fn clears_docs(e: EventView) -> bool {
    e is TaxonomyChanged || e is OtherRootsChanged
}

/// What is remembered after one event.
pub open spec fn docs_after<V>(f: crate::semantic::Facts, m: Map<MemoKey, V>, e: EventView) -> Map<MemoKey, V> {
    match e {
        EventView::SessionReferenced { session, sids } => session_forgotten(
            m,
            Scope::Session(session),
            all_doc_syms(f, sids),
        ),
        EventView::SessionRetracted { session } => outside(m, Scope::Session(session)),
        _ => if clears_docs(e) {
            Map::empty()
        } else {
            m
        },
    }
}

/// What is remembered after the events.
pub open spec fn docs_after_all<V>(f: crate::semantic::Facts, m: Map<MemoKey, V>, es: Seq<EventView>) -> Map<MemoKey, V>
    decreases es.len(),
{
    if es.len() == 0 {
        m
    } else {
        docs_after(f, docs_after_all(f, m, es.drop_last()), es.last())
    }
}

/// Everything remembered is what the layer says.
pub open spec fn docs_true(m: Map<MemoKey, Vec<DocEntry>>, f: crate::semantic::Facts) -> bool {
    forall|k: MemoKey| #[trigger] m.dom().contains(k) ==> doc_views(m[k]@) == documented(f, k.1, k.0)
}

/// Entries about symbols, remembered.
pub struct DocCache {
    pub memo: ScopedMemo<Vec<DocEntry>>,
}

impl DocCache {
    /// Nothing remembered.
    pub fn new() -> (c: DocCache)
        ensures
            c.memo.wf(),
            c.memo@ == Map::<MemoKey, Vec<DocEntry>>::empty(),
    {
        DocCache { memo: ScopedMemo::new() }
    }

    /// The entries about the symbol in the language, as remembered, else as
    /// computed and then remembered.
    pub fn get(&mut self, layer: &SemanticLayer, sym: SymbolId, language: Option<&str>, scope: Scope) -> (r: Vec<DocEntry>)
        requires
            old(self).memo.wf(),
            layer.wf(),
        ensures
            final(self).memo.wf(),
            final(self).memo@.dom() == old(self).memo@.dom().insert((scope, sym)),
            forall|k: MemoKey| #[trigger]
                old(self).memo@.dom().contains(k) ==> final(self).memo@[k] == old(self).memo@[k],
            doc_views(r@) == in_language(doc_views(final(self).memo@[(scope, sym)]@), asked(language)),
            !old(self).memo@.dom().contains((scope, sym)) ==> doc_views(final(self).memo@[(scope, sym)]@)
                == documented(layer@, sym, scope),
            docs_true(old(self).memo@, layer@) ==> docs_true(final(self).memo@, layer@) && doc_views(r@) == in_language(
                documented(layer@, sym, scope),
                asked(language),
            ),
    {
        match self.memo.peek(scope, sym) {
            Some(v) => {
                assert(self.memo@.dom() =~= self.memo@.dom().insert((scope, sym)));
                return filter_lang(v, language);
            },
            None => {},
        }
        let v = layer.documentation_entries(sym, scope);
        let out = filter_lang(&v, language);
        self.memo.put(scope, sym, v);
        assert(self.memo@.dom() =~= old(self).memo@.dom().insert((scope, sym)));
        out
    }

    fn forget_docs(&mut self, layer: &SemanticLayer, scope: Scope, sids: &Vec<SentenceId>)
        requires
            old(self).memo.wf(),
            layer.wf(),
        ensures
            final(self).memo.wf(),
            final(self).memo@ == session_forgotten(old(self).memo@, scope, all_doc_syms(layer@, sids@)),
    {
        let ghost start = self.memo@;
        let mut i: usize = 0;
        assert(sids@.take(0) =~= Seq::empty());
        assert(self.memo@ =~= session_forgotten(start, scope, Seq::empty()));
        while i < sids.len()
            invariant
                self.memo.wf(),
                layer.wf(),
                i <= sids@.len(),
                self.memo@ == session_forgotten(start, scope, all_doc_syms(layer@, sids@.take(i as int))),
            decreases sids@.len() - i,
        {
            assert(sids@.take(i + 1).drop_last() =~= sids@.take(i as int));
            let ghost before = all_doc_syms(layer@, sids@.take(i as int));
            let syms = layer.doc_symbols(sids[i]);
            let mut k: usize = 0;
            assert(before + syms@.take(0) =~= before);
            while k < syms.len()
                invariant
                    self.memo.wf(),
                    k <= syms@.len(),
                    self.memo@ == session_forgotten(start, scope, before + syms@.take(k as int)),
                decreases syms@.len() - k,
            {
                self.memo.forget(scope, syms[k]);
                proof {
                    assert(before + syms@.take(k + 1) =~= (before + syms@.take(k as int)).push(syms@[k as int]));
                    crate::store::lemma_push_contains(before + syms@.take(k as int), syms@[k as int]);
                }
                assert(self.memo@ =~= session_forgotten(start, scope, before + syms@.take(k + 1)));
                k += 1;
            }
            assert(syms@.take(k as int) =~= syms@);
            i += 1;
        }
        assert(sids@.take(i as int) =~= sids@);
    }

    /// Takes in the events and forgets what no longer holds.
    pub fn react(&mut self, layer: &SemanticLayer, events: &Vec<Event>)
        requires
            old(self).memo.wf(),
            layer.wf(),
        ensures
            final(self).memo.wf(),
            final(self).memo@ == docs_after_all(layer@, old(self).memo@, event_views(events@)),
    {
        let ghost start = self.memo@;
        let ghost evs = event_views(events@);
        let mut i: usize = 0;
        assert(evs.take(0) =~= Seq::empty());
        while i < events.len()
            invariant
                self.memo.wf(),
                layer.wf(),
                evs == event_views(events@),
                i <= events@.len(),
                self.memo@ == docs_after_all(layer@, start, evs.take(i as int)),
            decreases events@.len() - i,
        {
            assert(evs.take(i + 1).drop_last() =~= evs.take(i as int));
            assert(evs.take(i + 1).last() == events@[i as int]@);
            match &events[i] {
                Event::TaxonomyChanged { .. } => {
                    self.memo.clear();
                },
                Event::OtherRootsChanged => {
                    self.memo.clear();
                },
                Event::SessionReferenced { session, sids } => {
                    self.forget_docs(layer, Scope::Session(session_id(session.as_str())), sids);
                },
                Event::SessionRetracted { session } => {
                    self.memo.drop_scope(Scope::Session(session_id(session.as_str())));
                },
                _ => {},
            }
            i += 1;
        }
        assert(evs.take(i as int) =~= evs);
    }
}

/// The quotes around a text come off, one at each end and no more; any other text stays
/// as it is.
pub proof fn law_quotes_come_off(t: Seq<char>)
    ensures
        unquoted(seq!['"'] + t + seq!['"']) == t,
        t.len() < 2 || t[0] != '"' || t.last() != '"' ==> unquoted(t) == t,
{
    let s = seq!['"'] + t + seq!['"'];
    assert(s[0] == '"' && s.last() == '"');
    assert(s.subrange(1, s.len() - 1) =~= t);
}

proof fn lemma_text_at(ps: Seq<Part>, n: int, k: int)
    requires
        1 <= k < ps.len(),
        ps[k] matches Part::Lit(l) && l.is_str,
        forall|m: int| 1 <= m < k ==> !(#[trigger] ps[m] matches Part::Lit(l) && l.is_str),
        n <= ps.len(),
    ensures
        arg_text(ps, n) == if k < n {
            Some(unquoted(ps[k]->Lit_0.text))
        } else {
            None
        },
    decreases n,
{
    if n > 1 {
        lemma_text_at(ps, n - 1, k);
    }
}

proof fn lemma_other_at(ps: Seq<Part>, target: SymbolId, n: int, j: int)
    requires
        1 <= j < ps.len(),
        ps[j] matches Part::Sym(x) && x != target,
        forall|m: int| 1 <= m < j ==> (#[trigger] ps[m] matches Part::Sym(x) ==> x == target),
        n <= ps.len(),
    ensures
        first_other(arg_syms(ps, n), target) == if j < n {
            Some(ps[j]->Sym_0)
        } else {
            None
        },
    decreases n,
{
    if n > 1 {
        lemma_other_at(ps, target, n - 1, j);
        if let Part::Sym(id) = ps[n - 1] {
            let s = arg_syms(ps, n - 1);
            assert(s.push(id).drop_last() =~= s);
        }
    }
}

proof fn lemma_arg_syms(ps: Seq<Part>, n: int, x: SymbolId)
    requires
        n <= ps.len(),
    ensures
        arg_syms(ps, n).contains(x) <==> exists|i: int| 1 <= i < n && #[trigger] ps[i] == Part::Sym(x),
    decreases n,
{
    if n > 1 {
        let s = arg_syms(ps, n - 1);
        lemma_arg_syms(ps, n - 1, x);
        if let Part::Sym(id) = ps[n - 1] {
            crate::store::lemma_push_contains(s, id);
            assert(s.push(id).contains(x) <==> s.contains(x) || x == id) by {
                if s.contains(x) {
                    let k = choose|k: int| 0 <= k < s.len() && s[k] == x;
                    assert(s.push(id)[k] == x);
                }
                if x == id {
                    assert(s.push(id)[s.len() as int] == x);
                }
            }
        }
    }
}

/// A sentence for people to read says of the symbol among its arguments, wherever it
/// stands, its first text, without the quotes, in the language that the first other
/// symbol names.
pub proof fn law_what_a_sentence_says_to_people(
    v: LayerView,
    head: SymbolId,
    target: SymbolId,
    sid: SentenceId,
    ps: Seq<Part>,
    lang: SymbolId,
    i: int,
    j: int,
    k: int,
)
    requires
        body(v, sid) == Some(ps),
        1 <= i < ps.len(),
        ps[i] == Part::Sym(target),
        1 <= j < ps.len(),
        ps[j] == Part::Sym(lang),
        lang != target,
        forall|m: int| 1 <= m < j ==> (#[trigger] ps[m] matches Part::Sym(x) ==> x == target),
        1 <= k < ps.len(),
        ps[k] matches Part::Lit(l) && l.is_str,
        forall|m: int| 1 <= m < k ==> !(#[trigger] ps[m] matches Part::Lit(l) && l.is_str),
        v.names.dom().contains(lang),
    ensures
        doc_of(v, head, target, sid) == Some(
            DocView { rel: head, language: v.names[lang], text: unquoted(ps[k]->Lit_0.text) },
        ),
{
    let n = ps.len() as int;
    lemma_text_at(ps, n, k);
    lemma_other_at(ps, target, n, j);
    lemma_arg_syms(ps, n, target);
}

/// Nothing is said of a symbol that is none of the arguments.
pub proof fn law_nothing_is_said_of_others(v: LayerView, head: SymbolId, target: SymbolId, sid: SentenceId)
    requires
        body(v, sid) matches Some(ps) ==> forall|i: int| 1 <= i < ps.len() ==> #[trigger] ps[i] != Part::Sym(target),
    ensures
        doc_of(v, head, target, sid) is None,
{
    if let Some(ps) = body(v, sid) {
        lemma_arg_syms(ps, ps.len() as int, target);
    }
}

proof fn lemma_docs_of(v: LayerView, head: SymbolId, target: SymbolId, sids: Seq<SentenceId>, d: DocView)
    ensures
        docs_of(v, head, target, sids).contains(d) <==> exists|k: int|
            0 <= k < sids.len() && doc_of(v, head, target, #[trigger] sids[k]) == Some(d),
    decreases sids.len(),
{
    if sids.len() > 0 {
        let rest = sids.drop_last();
        lemma_docs_of(v, head, target, rest, d);
        let s = docs_of(v, head, target, rest);
        let t = docs_of(v, head, target, sids);
        let n = sids.len() - 1;
        if t.contains(d) {
            let m = choose|m: int| 0 <= m < t.len() && t[m] == d;
            if m < s.len() {
                assert(s[m] == d);
                assert(s.contains(d));
                let k = choose|k: int| 0 <= k < rest.len() && doc_of(v, head, target, #[trigger] rest[k]) == Some(d);
                assert(sids[k] == rest[k]);
            } else {
                assert(doc_of(v, head, target, sids[n]) == Some(d));
            }
        }
        if exists|k: int| 0 <= k < sids.len() && doc_of(v, head, target, #[trigger] sids[k]) == Some(d) {
            let k = choose|k: int| 0 <= k < sids.len() && doc_of(v, head, target, #[trigger] sids[k]) == Some(d);
            if k < n {
                assert(rest[k] == sids[k]);
                let m = choose|m: int| 0 <= m < s.len() && s[m] == d;
                assert(t[m] == d);
            } else {
                assert(t[t.len() - 1] == d);
            }
        }
    }
}

/// The head is one of those of sentences for people to read.
pub open spec fn doc_head(f: crate::semantic::Facts, head: SymbolId) -> bool {
    head == f.roles.documentation || head == f.roles.format || head == f.roles.term_format
}

/// The root, which has the head and which the scope sees if one is asked for, says this
/// of the symbol.
pub open spec fn root_says(f: crate::semantic::Facts, sym: SymbolId, scope: Option<Scope>, head: SymbolId, k: int, d: DocView) -> bool {
    &&& 0 <= k < f.layer.roots.len()
    &&& scope matches Some(s) ==> seen_in(f.layer.roots[k], s)
    &&& body(f.layer, f.layer.roots[k].sid) matches Some(ps) && ps.len() > 0 && ps[0] == Part::Sym(head)
    &&& doc_of(f.layer, head, sym, f.layer.roots[k].sid) == Some(d)
}

proof fn lemma_headed(f: crate::semantic::Facts, sym: SymbolId, scope: Scope, head: SymbolId, d: DocView)
    requires
        roots_distinct(f.layer.roots),
    ensures
        docs_of(f.layer, head, sym, headed_seen(f.layer, head, scope)).contains(d) <==> exists|k: int|
            root_says(f, sym, Some(scope), head, k, d),
        docs_of(f.layer, head, sym, headed(f.layer, head)).contains(d) <==> exists|k: int|
            root_says(f, sym, None, head, k, d),
{
    let rs = f.layer.roots;
    let p = headed_by(f.layer, head);
    let all = headed(f.layer, head);
    let q = |sid: SentenceId| root_seen_in(rs, sid, scope);
    let seen = headed_seen(f.layer, head, scope);
    lemma_docs_of(f.layer, head, sym, all, d);
    lemma_docs_of(f.layer, head, sym, seen, d);
    if exists|m: int| 0 <= m < all.len() && doc_of(f.layer, head, sym, #[trigger] all[m]) == Some(d) {
        let m = choose|m: int| 0 <= m < all.len() && doc_of(f.layer, head, sym, #[trigger] all[m]) == Some(d);
        assert(all.contains(all[m]));
        lemma_picked(rs, p, all[m]);
        let k = choose|k: int| 0 <= k < rs.len() && p(#[trigger] rs[k]) && rs[k].sid == all[m];
        assert(root_says(f, sym, None, head, k, d));
    }
    if exists|m: int| 0 <= m < seen.len() && doc_of(f.layer, head, sym, #[trigger] seen[m]) == Some(d) {
        let m = choose|m: int| 0 <= m < seen.len() && doc_of(f.layer, head, sym, #[trigger] seen[m]) == Some(d);
        all.lemma_filter_pred(q, m);
        assert(q(seen[m]));
        assert(seen.contains(seen[m]));
        all.lemma_filter_contains_rev(q, seen[m]);
        lemma_picked(rs, p, seen[m]);
        let k = choose|k: int| 0 <= k < rs.len() && p(#[trigger] rs[k]) && rs[k].sid == seen[m];
        assert(root_is(rs, seen[m], k));
        lemma_root_place(rs, seen[m], k);
        assert(root_says(f, sym, Some(scope), head, k, d));
    }
    if exists|k: int| root_says(f, sym, None, head, k, d) {
        let k = choose|k: int| root_says(f, sym, None, head, k, d);
        let sid = rs[k].sid;
        assert(p(rs[k]));
        lemma_picked(rs, p, sid);
        let m = choose|m: int| 0 <= m < all.len() && all[m] == sid;
        assert(doc_of(f.layer, head, sym, all[m]) == Some(d));
    }
    if exists|k: int| root_says(f, sym, Some(scope), head, k, d) {
        let k = choose|k: int| root_says(f, sym, Some(scope), head, k, d);
        let sid = rs[k].sid;
        assert(p(rs[k]));
        lemma_picked(rs, p, sid);
        assert(root_is(rs, sid, k));
        lemma_root_place(rs, sid, k);
        let m = choose|m: int| 0 <= m < all.len() && all[m] == sid;
        assert(q(all[m]));
        all.lemma_filter_contains(q, m);
        assert(seen.contains(sid));
        let n = choose|n: int| 0 <= n < seen.len() && seen[n] == sid;
        assert(doc_of(f.layer, head, sym, seen[n]) == Some(d));
    }
}

/// Listed for a symbol is exactly what some root says of it with one of the three heads:
/// a root that the scope sees, or any, where no scope is asked for.
pub proof fn law_all_that_is_said_is_listed(f: crate::semantic::Facts, sym: SymbolId, scope: Scope, d: DocView)
    requires
        roots_distinct(f.layer.roots),
    ensures
        documented(f, sym, scope).contains(d) <==> exists|head: SymbolId, k: int|
            doc_head(f, head) && #[trigger] root_says(f, sym, Some(scope), head, k, d),
        documented_any(f, sym).contains(d) <==> exists|head: SymbolId, k: int|
            doc_head(f, head) && #[trigger] root_says(f, sym, None, head, k, d),
{
    let (a, b, c) = (f.roles.documentation, f.roles.format, f.roles.term_format);
    lemma_headed(f, sym, scope, a, d);
    lemma_headed(f, sym, scope, b, d);
    lemma_headed(f, sym, scope, c, d);
    let x = docs_of(f.layer, a, sym, headed_seen(f.layer, a, scope));
    let y = docs_of(f.layer, b, sym, headed_seen(f.layer, b, scope));
    let z = docs_of(f.layer, c, sym, headed_seen(f.layer, c, scope));
    lemma_three(x, y, z, d);
    let x = docs_of(f.layer, a, sym, headed(f.layer, a));
    let y = docs_of(f.layer, b, sym, headed(f.layer, b));
    let z = docs_of(f.layer, c, sym, headed(f.layer, c));
    lemma_three(x, y, z, d);
}

proof fn lemma_three(x: Seq<DocView>, y: Seq<DocView>, z: Seq<DocView>, d: DocView)
    ensures
        (x + y + z).contains(d) <==> x.contains(d) || y.contains(d) || z.contains(d),
{
    let t = x + y + z;
    if t.contains(d) {
        let k = choose|k: int| 0 <= k < t.len() && t[k] == d;
        if k < x.len() {
            assert(x[k] == d);
        } else if k < x.len() + y.len() {
            assert(y[k - x.len()] == d);
        } else {
            assert(z[k - x.len() - y.len()] == d);
        }
    }
    if x.contains(d) {
        let k = choose|k: int| 0 <= k < x.len() && x[k] == d;
        assert(t[k] == d);
    }
    if y.contains(d) {
        let k = choose|k: int| 0 <= k < y.len() && y[k] == d;
        assert(t[x.len() + k] == d);
    }
    if z.contains(d) {
        let k = choose|k: int| 0 <= k < z.len() && z[k] == d;
        assert(t[x.len() + y.len() + k] == d);
    }
}

/// A language asked for leaves exactly the entries in it; none asked for leaves all.
pub proof fn law_a_language_picks_its_entries(es: Seq<DocView>, want: Option<Seq<char>>, d: DocView)
    ensures
        want is None ==> in_language(es, want) == es,
        want matches Some(l) ==> (in_language(es, want).contains(d) <==> es.contains(d) && d.language == l),
    decreases es.len(),
{
    if es.len() > 0 {
        let rest = es.drop_last();
        law_a_language_picks_its_entries(rest, want, d);
        let s = in_language(rest, want);
        let t = in_language(es, want);
        assert(es =~= rest.push(es.last()));
        if want is Some {
            assert(es.contains(d) <==> rest.contains(d) || d == es.last()) by {
                if es.contains(d) {
                    let k = choose|k: int| 0 <= k < es.len() && es[k] == d;
                    if k < rest.len() {
                        assert(rest[k] == d);
                    }
                }
                if rest.contains(d) {
                    let k = choose|k: int| 0 <= k < rest.len() && rest[k] == d;
                    assert(es[k] == d);
                }
                if d == es.last() {
                    assert(es[es.len() - 1] == d);
                }
            }
            if want == Some(es.last().language) {
                assert(t.contains(d) <==> s.contains(d) || d == es.last()) by {
                    if t.contains(d) {
                        let k = choose|k: int| 0 <= k < t.len() && t[k] == d;
                        if k < s.len() {
                            assert(s[k] == d);
                        }
                    }
                    if s.contains(d) {
                        let k = choose|k: int| 0 <= k < s.len() && s[k] == d;
                        assert(t[k] == d);
                    }
                    if d == es.last() {
                        assert(t[s.len() as int] == d);
                    }
                }
            }
        }
    } else {
        assert(in_language(es, want) =~= es);
    }
}

proof fn lemma_term_formats(v: LayerView, head: SymbolId, target: SymbolId, sids: Seq<SentenceId>, d: DocView)
    ensures
        term_formats_of(v, head, target, sids).contains(d) <==> exists|k: int|
            0 <= k < sids.len() && term_format_of(v, head, target, #[trigger] sids[k]) == Some(d),
    decreases sids.len(),
{
    if sids.len() > 0 {
        let rest = sids.drop_last();
        lemma_term_formats(v, head, target, rest, d);
        let s = term_formats_of(v, head, target, rest);
        let t = term_formats_of(v, head, target, sids);
        let n = sids.len() - 1;
        if t.contains(d) {
            let m = choose|m: int| 0 <= m < t.len() && t[m] == d;
            if m < s.len() {
                assert(s[m] == d);
                assert(s.contains(d));
                let k = choose|k: int|
                    0 <= k < rest.len() && term_format_of(v, head, target, #[trigger] rest[k]) == Some(d);
                assert(sids[k] == rest[k]);
            } else {
                assert(term_format_of(v, head, target, sids[n]) == Some(d));
            }
        }
        if exists|k: int| 0 <= k < sids.len() && term_format_of(v, head, target, #[trigger] sids[k]) == Some(d) {
            let k = choose|k: int| 0 <= k < sids.len() && term_format_of(v, head, target, #[trigger] sids[k]) == Some(d);
            if k < n {
                assert(rest[k] == sids[k]);
                let m = choose|m: int| 0 <= m < s.len() && s[m] == d;
                assert(t[m] == d);
            } else {
                assert(t[t.len() - 1] == d);
            }
        }
    }
}

/// Listed as a term format of a symbol is each text, without its quotes, that a root gives
/// behind the language and the symbol.
pub proof fn law_term_formats_are_listed(
    f: crate::semantic::Facts,
    sym: SymbolId,
    lang: SymbolId,
    t: Seq<char>,
    rest: Seq<Part>,
    k: int,
)
    requires
        0 <= k < f.layer.roots.len(),
        f.layer.names.dom().contains(lang),
        body(f.layer, f.layer.roots[k].sid) == Some(
            seq![
                Part::Sym(f.roles.term_format),
                Part::Sym(lang),
                Part::Sym(sym),
                Part::Lit(LiteralView { is_str: true, text: seq!['"'] + t + seq!['"'] }),
            ] + rest,
        ),
    ensures
        term_formats_of(f.layer, f.roles.term_format, sym, headed(f.layer, f.roles.term_format)).contains(
            DocView { rel: f.roles.term_format, language: f.layer.names[lang], text: t },
        ),
{
    let head = f.roles.term_format;
    let rs = f.layer.roots;
    let p = headed_by(f.layer, head);
    let sid = rs[k].sid;
    law_quotes_come_off(t);
    assert(p(rs[k]));
    lemma_picked(rs, p, sid);
    let all = headed(f.layer, head);
    let m = choose|m: int| 0 <= m < all.len() && all[m] == sid;
    let d = DocView { rel: head, language: f.layer.names[lang], text: t };
    let ps = body(f.layer, sid)->0;
    assert(ps[1] == Part::Sym(lang) && ps[2] == Part::Sym(sym) && ps.len() >= 4);
    assert(ps[3] == Part::Lit(LiteralView { is_str: true, text: seq!['"'] + t + seq!['"'] }));
    assert(term_format_of(f.layer, head, sym, all[m]) == Some(d));
    lemma_term_formats(f.layer, head, sym, all, d);
}

/// Only roots with the head of term formats are read for them, and only where the symbol
/// stands behind a named language and before a text.
pub proof fn law_only_term_formats_are_listed(f: crate::semantic::Facts, sym: SymbolId, d: DocView) -> (k: int)
    requires
        term_formats_of(f.layer, f.roles.term_format, sym, headed(f.layer, f.roles.term_format)).contains(d),
    ensures
        0 <= k < f.layer.roots.len(),
        body(f.layer, f.layer.roots[k].sid) matches Some(ps) && ps.len() > 3 && ps[0] == Part::Sym(f.roles.term_format) && (ps[1]
            matches Part::Sym(lang) && f.layer.names.dom().contains(lang) && d.language == f.layer.names[lang]) && ps[2]
            == Part::Sym(sym) && (ps[3] matches Part::Lit(l) && l.is_str && d.text == unquoted(l.text)),
        d.rel == f.roles.term_format,
{
    let head = f.roles.term_format;
    let rs = f.layer.roots;
    let p = headed_by(f.layer, head);
    let all = headed(f.layer, head);
    lemma_term_formats(f.layer, head, sym, all, d);
    let m = choose|m: int| 0 <= m < all.len() && term_format_of(f.layer, head, sym, #[trigger] all[m]) == Some(d);
    assert(all.contains(all[m]));
    lemma_picked(rs, p, all[m]);
    choose|k: int| 0 <= k < rs.len() && p(#[trigger] rs[k]) && rs[k].sid == all[m]
}

/// What a sentence says to people it says in a language that it names and by a text that it
/// has, of a symbol that it names besides.
pub proof fn law_nothing_is_said_without_a_text(v: LayerView, head: SymbolId, target: SymbolId, sid: SentenceId, d: DocView)
    requires
        doc_of(v, head, target, sid) == Some(d),
    ensures
        d.rel == head,
        body(v, sid) matches Some(ps) && (exists|i: int| 1 <= i < ps.len() && #[trigger] ps[i] == Part::Sym(target)) && (
        exists|j: int|
            1 <= j < ps.len() && (#[trigger] ps[j] matches Part::Sym(lang) && lang != target && v.names.dom().contains(lang)
                && d.language == v.names[lang])) && (exists|k: int|
            1 <= k < ps.len() && (#[trigger] ps[k] matches Part::Lit(l) && l.is_str && d.text == unquoted(l.text))),
{
    let ps = body(v, sid)->0;
    let n = ps.len() as int;
    lemma_arg_syms(ps, n, target);
    lemma_some_text(ps, n);
    lemma_some_other(ps, target, n);
}

proof fn lemma_some_text(ps: Seq<Part>, n: int)
    requires
        n <= ps.len(),
    ensures
        arg_text(ps, n) matches Some(t) ==> exists|k: int|
            1 <= k < n && (#[trigger] ps[k] matches Part::Lit(l) && l.is_str && t == unquoted(l.text)),
    decreases n,
{
    if n > 1 {
        lemma_some_text(ps, n - 1);
        if arg_text(ps, n) is Some && arg_text(ps, n - 1) is None {
            assert(ps[n - 1] is Lit);
        }
    }
}

proof fn lemma_some_other(ps: Seq<Part>, target: SymbolId, n: int)
    requires
        n <= ps.len(),
    ensures
        first_other(arg_syms(ps, n), target) matches Some(x) ==> x != target && exists|j: int|
            1 <= j < n && #[trigger] ps[j] == Part::Sym(x),
    decreases n,
{
    if n > 1 {
        lemma_some_other(ps, target, n - 1);
        if let Part::Sym(id) = ps[n - 1] {
            let s = arg_syms(ps, n - 1);
            assert(s.push(id).drop_last() =~= s);
            assert(ps[n - 1] == Part::Sym(id));
        }
    }
}

} // verus!
