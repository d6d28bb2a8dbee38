use quorum_contracts::{Address, ClaimType, ProofRequest, ZkVerifierContract};

fn qp_id() -> Address {
    Address::from_bytes(b"CQUORUMPROOF".to_vec())
}

#[test]
fn test_verify_claim_degree_success() {
    let proof = b"valid-proof".to_vec();
    assert!(ZkVerifierContract::verify_claim(&qp_id(), 1u64, ClaimType::HasDegree, &proof));
}

#[test]
fn test_verify_claim_revoked_fails() {
    let proof: Vec<u8> = Vec::new();
    assert!(!ZkVerifierContract::verify_claim(&qp_id(), 1u64, ClaimType::HasDegree, &proof));
}

#[test]
fn test_verify_claim_wrong_type_fails() {
    let proof: Vec<u8> = Vec::new();
    assert!(!ZkVerifierContract::verify_claim(&qp_id(), 1u64, ClaimType::HasLicense, &proof));
}

#[test]
fn test_generate_proof_request() {
    let req = ZkVerifierContract::generate_proof_request(0, 42u64, ClaimType::HasEmploymentHistory);
    assert_eq!(req.credential_id, 42u64);
}

#[test]
fn proof_request_nonce_is_ledger_sequence() {
    let req = ZkVerifierContract::generate_proof_request(777, 5, ClaimType::HasLicense);
    assert_eq!(
        req,
        ProofRequest { credential_id: 5, claim_type: ClaimType::HasLicense, nonce: 777 }
    );
}

#[test]
fn one_byte_proof_is_accepted_for_any_claim() {
    assert!(ZkVerifierContract::verify_claim(&qp_id(), 9, ClaimType::HasLicense, &[0u8]));
    assert!(ZkVerifierContract::verify_claim(&qp_id(), 9, ClaimType::HasEmploymentHistory, &[1u8]));
}
