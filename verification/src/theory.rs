//! What a theory module claims to decide.
use vstd::prelude::*;

use crate::types::{SentenceId, SymbolId};

verus! {

/// How far a module decides a relation.
#[derive(Clone, Copy, Debug, PartialEq, Eq, Structural)]
pub enum Coverage {
    /// It confirms and refutes.
    Complete,
    /// It confirms; that it does not confirm says nothing.
    PositiveOnly,
}

/// A relation that a module decides.
#[derive(Clone, Copy, Debug, PartialEq, Eq, Structural)]
pub struct RelationClaim {
    pub rel: SymbolId,
    pub coverage: Coverage,
}

/// The relations that a module decides, and the sentences whose meaning it
/// supplies.
#[derive(Debug)]
pub struct CoverageClaim {
    pub claims: Vec<RelationClaim>,
    pub omitted_axioms: Vec<SentenceId>,
}

/// Some claim is on the relation.
pub open spec fn claimed(claims: Seq<RelationClaim>, rel: SymbolId) -> bool {
    exists|i: int| 0 <= i < claims.len() && (#[trigger] claims[i]).rel == rel
}

impl CoverageClaim {
    /// Some claim is on the relation, however far it goes.
    pub fn owns(&self, rel: SymbolId) -> (r: bool)
        ensures
            r == claimed(self.claims@, rel),
    {
        let mut i: usize = 0;
        while i < self.claims.len()
            invariant
                i <= self.claims@.len(),
                forall|j: int| 0 <= j < i ==> (#[trigger] self.claims@[j]).rel != rel,
            decreases self.claims@.len() - i,
        {
            if self.claims[i].rel == rel {
                return true;
            }
            i += 1;
        }
        false
    }
}

} // verus!
