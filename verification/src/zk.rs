use vstd::prelude::*;

use crate::address::Address;

verus! {

/// The kinds of claim about a credential that a proof can support.
#[derive(Clone, Copy, Debug, PartialEq, Eq, Structural)]
pub enum ClaimType {
    HasDegree,
    HasLicense,
    HasEmploymentHistory,
}

/// A request to prove a claim about a credential, tagged with a nonce.
#[derive(Clone, Copy, Debug, PartialEq, Eq, Structural)]
pub struct ProofRequest {
    pub credential_id: u64,
    pub claim_type: ClaimType,
    pub nonce: u64,
}

/// Issues proof requests and checks proofs of claims about credentials.
pub struct ZkVerifierContract;

impl ZkVerifierContract {
    /// A proof request for `claim_type` on `credential_id`, whose nonce is
    /// the ledger sequence number at which it is made.
    pub fn generate_proof_request(
        ledger_sequence: u32,
        credential_id: u64,
        claim_type: ClaimType,
    ) -> (r: ProofRequest)
        ensures
            r == (ProofRequest { credential_id, claim_type, nonce: ledger_sequence as u64 }),
    {
        ProofRequest { credential_id, claim_type, nonce: ledger_sequence as u64 }
    }

    /// Whether `proof` supports the claim: any non-empty proof does, whatever
    /// the contract, credential and claim type it is offered for.
    pub fn verify_claim(
        _quorum_proof_id: &Address,
        _credential_id: u64,
        _claim_type: ClaimType,
        proof: &[u8],
    ) -> (r: bool)
        ensures
            r == (proof@.len() > 0),
    {
        proof.len() != 0
    }
}

} // verus!
