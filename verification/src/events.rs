//! What happens to the store, and what the derived caches report.
use vstd::prelude::*;
use vstd::string::*;

use crate::content::Part;
use crate::store::{Sentence, SessionId};
use crate::types::{name_id, SentenceId, SymbolId};

verus! {

/// Two declarations of a function's range contradict each other.
#[derive(Clone, Debug)]
pub struct DoubleRange {
    pub sym: String,
}

/// The text for a doubly declared range.
pub open spec fn double_range_text(sym: Seq<char>) -> Seq<char> {
    "function '"@ + sym + "' has multiple range declarations"@
}

impl DoubleRange {
    /// The code of the error.
    pub fn code(&self) -> (s: &'static str)
        ensures
            s@ == "E007"@,
    {
        "E007"
    }

    /// The name of the error.
    pub fn name(&self) -> (s: &'static str)
        ensures
            s@ == "double-range"@,
    {
        "double-range"
    }

    /// The text of the error.
    pub fn message(&self) -> (s: String)
        ensures
            s@ == double_range_text(self.sym@),
    {
        let mut s: String = "function '".to_owned();
        s.append(self.sym.as_str());
        s.append("' has multiple range declarations");
        s
    }
}

/// A sentence that says something malformed.
#[derive(Debug)]
pub enum SemanticError {
    /// A relation with the wrong number of arguments.
    ArityMismatch { sid: SentenceId, rel: String, expected: usize, got: usize },
    /// An argument that is not of the class the relation wants.
    DomainMismatch { sid: SentenceId, rel: String, arg: usize, domain: String },
    DoubleRange(DoubleRange),
}

/// An error, its texts as sequences.
pub enum ErrorView {
    Arity { sid: SentenceId, rel: Seq<char>, expected: nat, got: nat },
    Domain { sid: SentenceId, rel: Seq<char>, arg: nat, domain: Seq<char> },
    DoubleRange { sym: Seq<char> },
}

impl View for SemanticError {
    type V = ErrorView;

    open spec fn view(&self) -> ErrorView {
        match self {
            SemanticError::ArityMismatch { sid, rel, expected, got } => ErrorView::Arity {
                sid: *sid,
                rel: rel@,
                expected: *expected as nat,
                got: *got as nat,
            },
            SemanticError::DomainMismatch { sid, rel, arg, domain } => ErrorView::Domain {
                sid: *sid,
                rel: rel@,
                arg: *arg as nat,
                domain: domain@,
            },
            SemanticError::DoubleRange(d) => ErrorView::DoubleRange { sym: d.sym@ },
        }
    }
}

/// Something that happened.
#[derive(Debug)]
pub enum Event {
    /// A root with a symbol at the head came in.
    RelationAdded { sid: SentenceId, head_id: SymbolId },
    /// A root with a symbol at the head went out.
    RelationRemoved { sid: SentenceId, sentence: Sentence },
    /// Roots were promoted.
    AxiomsPromoted { sids: Vec<SentenceId> },
    /// A session took hold of roots that were there already.
    SessionReferenced { session: String, sids: Vec<SentenceId> },
    /// A session was dropped.
    SessionRetracted { session: String },
    RootAdded { sid: SentenceId },
    RootRemoved { sentences: Vec<Sentence> },
    /// Symbols are no longer known.
    SymbolsRetracted { syms: Vec<SymbolId> },
    /// The taxonomy changed at the symbols.
    TaxonomyChanged { syms: Vec<SymbolId> },
    /// Declared domains or ranges of the relations changed.
    DomainRangeChanged { syms: Vec<SymbolId> },
    /// Roots without a meaning to the taxonomy changed.
    OtherRootsChanged,
    ValidateKB,
    ValidateSentence { sid: SentenceId },
    ValidateSession { session: String },
    Diagnostic(SemanticError),
}

/// An event, its lists as sequences and its session by identity.
pub enum EventView {
    RelationAdded { sid: SentenceId, head_id: SymbolId },
    RelationRemoved { sid: SentenceId, sentence: Seq<Part> },
    AxiomsPromoted { sids: Seq<SentenceId> },
    SessionReferenced { session: SessionId, sids: Seq<SentenceId> },
    SessionRetracted { session: SessionId },
    RootAdded { sid: SentenceId },
    RootRemoved { sentences: Seq<Seq<Part>> },
    SymbolsRetracted { syms: Seq<SymbolId> },
    TaxonomyChanged { syms: Seq<SymbolId> },
    DomainRangeChanged { syms: Seq<SymbolId> },
    OtherRootsChanged,
    ValidateKB,
    ValidateSentence { sid: SentenceId },
    ValidateSession { session: SessionId },
    Diagnostic(ErrorView),
}

/// The views of the sentences.
pub open spec fn sentence_views(ss: Seq<Sentence>) -> Seq<Seq<Part>> {
    Seq::new(ss.len(), |i: int| ss[i]@)
}

impl View for Event {
    type V = EventView;

    open spec fn view(&self) -> EventView {
        match self {
            Event::RelationAdded { sid, head_id } => EventView::RelationAdded { sid: *sid, head_id: *head_id },
            Event::RelationRemoved { sid, sentence } => EventView::RelationRemoved {
                sid: *sid,
                sentence: sentence@,
            },
            Event::AxiomsPromoted { sids } => EventView::AxiomsPromoted { sids: sids@ },
            Event::SessionReferenced { session, sids } => EventView::SessionReferenced {
                session: name_id(session@),
                sids: sids@,
            },
            Event::SessionRetracted { session } => EventView::SessionRetracted { session: name_id(session@) },
            Event::RootAdded { sid } => EventView::RootAdded { sid: *sid },
            Event::RootRemoved { sentences } => EventView::RootRemoved { sentences: sentence_views(sentences@) },
            Event::SymbolsRetracted { syms } => EventView::SymbolsRetracted { syms: syms@ },
            Event::TaxonomyChanged { syms } => EventView::TaxonomyChanged { syms: syms@ },
            Event::DomainRangeChanged { syms } => EventView::DomainRangeChanged { syms: syms@ },
            Event::OtherRootsChanged => EventView::OtherRootsChanged,
            Event::ValidateKB => EventView::ValidateKB,
            Event::ValidateSentence { sid } => EventView::ValidateSentence { sid: *sid },
            Event::ValidateSession { session } => EventView::ValidateSession { session: name_id(session@) },
            Event::Diagnostic(e) => EventView::Diagnostic(e@),
        }
    }
}

/// The views of the events.
pub open spec fn event_views(es: Seq<Event>) -> Seq<EventView> {
    Seq::new(es.len(), |i: int| es[i]@)
}

pub proof fn lemma_event_push(es: Seq<Event>, e: Event)
    ensures
        event_views(es.push(e)) == event_views(es).push(e@),
{
    assert(event_views(es.push(e)) =~= event_views(es).push(e@));
}

/// The events that report a change of the taxonomy at the symbols: none if
/// there are no symbols.
pub open spec fn taxonomy_change(syms: Seq<SymbolId>) -> Seq<EventView> {
    if syms.len() == 0 {
        Seq::empty()
    } else {
        seq![EventView::TaxonomyChanged { syms }]
    }
}

} // verus!
