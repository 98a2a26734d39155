//! Symbols, literals and the identifiers shared by every module.
use vstd::prelude::*;
use vstd::utf8::encode_utf8;

use xxhash_rust::xxh64::xxh64;

use crate::hashing::xxh64_digest;

verus! {

/// Identity of a symbol: the hash of its name.
pub type SymbolId = u64;

/// Identity of a stored sentence.
pub type SentenceId = u64;

/// The identity of the symbol called `name`.
pub open spec fn name_id(name: Seq<char>) -> SymbolId {
    xxh64_digest(encode_utf8(name), 0)
}

/// A named symbol.
#[derive(Debug, PartialEq, Eq, Hash)]
pub struct Symbol {
    name: String,
    id: SymbolId,
}

impl Symbol {
    /// The symbol's name.
    pub closed spec fn name_spec(&self) -> Seq<char> {
        self.name@
    }

    /// The symbol's identity.
    pub closed spec fn id_spec(&self) -> SymbolId {
        self.id
    }

    /// The identity of the symbol called `name`.
    pub fn hash_name(name: &str) -> (id: SymbolId)
        ensures
            id == name_id(name@),
    {
        xxh64(name.as_bytes(), 0)
    }

    /// The symbol called `name`.
    pub fn new(name: &str) -> (s: Symbol)
        ensures
            s.name_spec() == name@,
            s.id_spec() == name_id(name@),
    {
        Symbol { name: name.to_owned(), id: Symbol::hash_name(name) }
    }

    /// The symbol's identity.
    pub fn id(&self) -> (id: SymbolId)
        ensures
            id == self.id_spec(),
    {
        self.id
    }

    /// The symbol's name.
    pub fn name(&self) -> (name: &str)
        ensures
            name@ == self.name_spec(),
    {
        self.name.as_str()
    }
}

/// The logical operators.
#[derive(Clone, Copy, Debug, PartialEq, Eq, Structural, Hash)]
pub enum OpKind {
    And,
    Or,
    Not,
    Implies,
    Iff,
    Equal,
    ForAll,
    Exists,
}

/// A string or a number, as written.
#[derive(Debug, PartialEq, Eq, Hash)]
pub enum Literal {
    Str(String),
    Number(String),
}

/// The text of a literal, and whether it is a string.
pub struct LiteralView {
    pub is_str: bool,
    pub text: Seq<char>,
}

impl View for Literal {
    type V = LiteralView;

    open spec fn view(&self) -> LiteralView {
        match self {
            Literal::Str(s) => LiteralView { is_str: true, text: s@ },
            Literal::Number(s) => LiteralView { is_str: false, text: s@ },
        }
    }
}

impl Literal {
    /// Whether two literals are written alike.
    pub fn same(&self, other: &Literal) -> (r: bool)
        ensures
            r == (self@ == other@),
    {
        match (self, other) {
            (Literal::Str(a), Literal::Str(b)) => *a == *b,
            (Literal::Number(a), Literal::Number(b)) => *a == *b,
            _ => false,
        }
    }
}

impl Clone for Literal {
    fn clone(&self) -> (r: Literal)
        ensures
            r@ == self@,
    {
        match self {
            Literal::Str(s) => Literal::Str(s.clone()),
            Literal::Number(s) => Literal::Number(s.clone()),
        }
    }
}

impl Clone for Symbol {
    fn clone(&self) -> (s: Symbol)
        ensures
            s.name_spec() == self.name_spec(),
            s.id_spec() == self.id_spec(),
    {
        Symbol { name: self.name.clone(), id: self.id }
    }
}

} // verus!
