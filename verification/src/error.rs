//! What the engine reports when it cannot go on, or will not without consent.

use vstd::prelude::*;
use vstd::string::*;

verus! {

/// Failures and warnings of the normalization engine.
#[derive(Debug, Clone)]
pub enum EngineError {
    /// A key field is not among the fields of the schema.
    InconsistentSchema { missing: String },
    /// No proposal carries the requested identifier.
    UnknownProposal { id: String },
    /// The proposal loses information on rejoining and was not acknowledged.
    NonLosslessProposal,
    /// The proposal loses a dependency and was not acknowledged.
    NonFDPreservingProposal,
    /// Storage refused the commit; nothing was applied.
    CommitFailure { message: String },
}

impl EngineError {
    /// The error in words.
    pub open spec fn message_text(self) -> Seq<char> {
        match self {
            EngineError::InconsistentSchema { missing } => "inconsistent schema: key field "@ + missing@
                + " is not a field of the collection"@,
            EngineError::UnknownProposal { id } => "unknown proposal: "@ + id@,
            EngineError::NonLosslessProposal => "the proposal is not lossless and needs to be acknowledged"@,
            EngineError::NonFDPreservingProposal => "the proposal does not preserve every dependency and needs to be acknowledged"@,
            EngineError::CommitFailure { message } => message@,
        }
    }

    /// The error in words; a failed commit reads as storage worded it.
    pub fn message(&self) -> (s: String)
        ensures
            s@ == self.message_text(),
    {
        match self {
            EngineError::InconsistentSchema { missing } => {
                let mut s = String::from_str("inconsistent schema: key field ");
                s.append(missing.as_str());
                s.append(" is not a field of the collection");
                s
            },
            EngineError::UnknownProposal { id } => {
                let mut s = String::from_str("unknown proposal: ");
                s.append(id.as_str());
                s
            },
            EngineError::NonLosslessProposal => String::from_str(
                "the proposal is not lossless and needs to be acknowledged",
            ),
            EngineError::NonFDPreservingProposal => String::from_str(
                "the proposal does not preserve every dependency and needs to be acknowledged",
            ),
            EngineError::CommitFailure { message } => message.clone(),
        }
    }
}

} // verus!
