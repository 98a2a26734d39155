//! The symbols that the ontology gives a fixed meaning.
use vstd::prelude::*;

use crate::types::{name_id, Symbol, SymbolId};

verus! {

/// How one symbol stands under another in the taxonomy.
#[derive(Clone, Copy, Debug, PartialEq, Eq, Structural, Hash)]
pub enum TaxRelation {
    Subclass,
    Instance,
    Subrelation,
    SubAttribute,
}

/// The identities of the symbols with a fixed meaning.
#[derive(Clone, Copy, Debug, PartialEq, Eq, Structural)]
pub struct Roles {
    pub subclass: SymbolId,
    pub instance: SymbolId,
    pub subrelation: SymbolId,
    pub sub_attribute: SymbolId,
    pub domain: SymbolId,
    pub domain_subclass: SymbolId,
    pub range: SymbolId,
    pub range_subclass: SymbolId,
    pub class: SymbolId,
    pub relation_class: SymbolId,
    pub predicate_class: SymbolId,
    pub function_class: SymbolId,
    pub documentation: SymbolId,
    pub format: SymbolId,
    pub term_format: SymbolId,
    pub binary: SymbolId,
    pub ternary: SymbolId,
    pub quaternary: SymbolId,
    pub quintary: SymbolId,
    pub variable_arity: SymbolId,
}

/// The roles under the names of the upper ontology.
pub open spec fn standard_roles() -> Roles {
    Roles {
        subclass: name_id("subclass"@),
        instance: name_id("instance"@),
        subrelation: name_id("subrelation"@),
        sub_attribute: name_id("subAttribute"@),
        domain: name_id("domain"@),
        domain_subclass: name_id("domainSubclass"@),
        range: name_id("range"@),
        range_subclass: name_id("rangeSubclass"@),
        class: name_id("Class"@),
        relation_class: name_id("Relation"@),
        predicate_class: name_id("Predicate"@),
        function_class: name_id("Function"@),
        documentation: name_id("documentation"@),
        format: name_id("format"@),
        term_format: name_id("termFormat"@),
        binary: name_id("BinaryRelation"@),
        ternary: name_id("TernaryRelation"@),
        quaternary: name_id("QuaternaryRelation"@),
        quintary: name_id("QuintaryRelation"@),
        variable_arity: name_id("VariableArityRelation"@),
    }
}

/// The taxonomy relation that a head symbol stands for.
pub open spec fn tax_role(roles: Roles, head: SymbolId) -> Option<TaxRelation> {
    if head == roles.subclass {
        Some(TaxRelation::Subclass)
    } else if head == roles.instance {
        Some(TaxRelation::Instance)
    } else if head == roles.subrelation {
        Some(TaxRelation::Subrelation)
    } else if head == roles.sub_attribute {
        Some(TaxRelation::SubAttribute)
    } else {
        None
    }
}

/// The name of a taxonomy relation.
pub open spec fn rel_name(rel: TaxRelation) -> Seq<char> {
    match rel {
        TaxRelation::Subclass => "subclass"@,
        TaxRelation::Instance => "instance"@,
        TaxRelation::Subrelation => "subrelation"@,
        TaxRelation::SubAttribute => "subAttribute"@,
    }
}

impl TaxRelation {
    /// The name of the relation.
    pub fn name(&self) -> (s: &'static str)
        ensures
            s@ == rel_name(*self),
    {
        match self {
            TaxRelation::Subclass => "subclass",
            TaxRelation::Instance => "instance",
            TaxRelation::Subrelation => "subrelation",
            TaxRelation::SubAttribute => "subAttribute",
        }
    }
}

impl Roles {
    /// The roles under the names of the upper ontology.
    pub fn standard() -> (r: Roles)
        ensures
            r == standard_roles(),
    {
        Roles {
            subclass: Symbol::hash_name("subclass"),
            instance: Symbol::hash_name("instance"),
            subrelation: Symbol::hash_name("subrelation"),
            sub_attribute: Symbol::hash_name("subAttribute"),
            domain: Symbol::hash_name("domain"),
            domain_subclass: Symbol::hash_name("domainSubclass"),
            range: Symbol::hash_name("range"),
            range_subclass: Symbol::hash_name("rangeSubclass"),
            class: Symbol::hash_name("Class"),
            relation_class: Symbol::hash_name("Relation"),
            predicate_class: Symbol::hash_name("Predicate"),
            function_class: Symbol::hash_name("Function"),
            documentation: Symbol::hash_name("documentation"),
            format: Symbol::hash_name("format"),
            term_format: Symbol::hash_name("termFormat"),
            binary: Symbol::hash_name("BinaryRelation"),
            ternary: Symbol::hash_name("TernaryRelation"),
            quaternary: Symbol::hash_name("QuaternaryRelation"),
            quintary: Symbol::hash_name("QuintaryRelation"),
            variable_arity: Symbol::hash_name("VariableArityRelation"),
        }
    }

    /// The taxonomy relation that a head symbol stands for.
    pub fn tax_role_of(&self, head: SymbolId) -> (r: Option<TaxRelation>)
        ensures
            r == tax_role(*self, head),
    {
        if head == self.subclass {
            Some(TaxRelation::Subclass)
        } else if head == self.instance {
            Some(TaxRelation::Instance)
        } else if head == self.subrelation {
            Some(TaxRelation::Subrelation)
        } else if head == self.sub_attribute {
            Some(TaxRelation::SubAttribute)
        } else {
            None
        }
    }
}

} // verus!
