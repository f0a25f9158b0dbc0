//! Proof obligations of a schema and the tactics applied to them.

use vstd::prelude::*;

verus! {

/// Something that remains to be proved of a schema.
#[derive(Debug, Clone)]
pub struct ProofObligation {
    pub id: String,
    pub description: String,
    pub formal_statement: String,
    pub status: String,
    pub suggested_tactic: Option<String>,
    pub explanation: String,
}

/// The open proof obligations of a collection. While no prover is attached
/// there are none.
pub fn get_proof_obligations(collection: String) -> (res: Result<Vec<ProofObligation>, String>)
    ensures
        res matches Ok(v) && v@.len() == 0,
{
    Ok(Vec::new())
}

/// Applies a tactic to an obligation. While no prover is attached every
/// tactic is accepted.
pub fn apply_tactic(obligation_id: String, tactic: String) -> (res: Result<bool, String>)
    ensures
        res == Ok::<bool, String>(true),
{
    Ok(true)
}

} // verus!
