use quorum_contracts::{Address, ContractError, SbtRegistryContract, SoulboundToken};

fn addr(key: &str) -> Address {
    Address::from_bytes(key.as_bytes().to_vec())
}

fn uri() -> Vec<u8> {
    b"ipfs://QmSBT".to_vec()
}

#[test]
fn test_mint_and_ownership() {
    let mut registry = SbtRegistryContract::new();
    let owner = addr("GOWNERAAAAAAAAAAAAAAAAAAAAAAAAAAAAAAAAAAAAAAAAAAAAAAAAAA");
    let token_id = registry.mint(owner.clone(), 1u64, uri()).unwrap();
    assert_eq!(token_id, 1);
    assert!(registry.owner_of(token_id).same_as(&owner));
}

#[test]
fn test_duplicate_sbt_minting_rejection() {
    let mut registry = SbtRegistryContract::new();
    let owner = addr("GOWNER");
    assert_eq!(registry.mint(owner.clone(), 1u64, uri()), Ok(1));
    assert_eq!(
        registry.mint(owner.clone(), 1u64, uri()),
        Err(ContractError::SoulboundNonTransferable)
    );
    assert_eq!(registry.token_count(), 1);
}

#[test]
fn test_get_tokens_by_owner_single() {
    let mut registry = SbtRegistryContract::new();
    let owner = addr("GOWNER");
    let token_id = registry.mint(owner.clone(), 7u64, uri()).unwrap();
    assert_eq!(registry.get_tokens_by_owner(&owner), vec![token_id]);
}

#[test]
fn get_token_returns_what_mint_stored() {
    let mut registry = SbtRegistryContract::new();
    let owner = addr("GALICE");
    let id = registry.mint(owner.clone(), 42, b"ipfs://QmDegree".to_vec()).unwrap();
    let token: SoulboundToken = registry.get_token(id);
    assert_eq!(token.id, id);
    assert_eq!(token.credential_id, 42);
    assert_eq!(token.metadata_uri, b"ipfs://QmDegree".to_vec());
    assert_eq!(token.owner.as_bytes(), b"GALICE");
    assert!(registry.has_token(id));
    assert_eq!(registry.credential_token(&owner, 42), Some(id));
}

#[test]
fn mint_ids_are_consecutive_and_listed_in_order() {
    let mut registry = SbtRegistryContract::new();
    let alice = addr("GALICE");
    let bob = addr("GBOB");
    assert_eq!(registry.mint(alice.clone(), 1, uri()), Ok(1));
    assert_eq!(registry.mint(bob.clone(), 1, uri()), Ok(2));
    assert_eq!(registry.mint(alice.clone(), 2, uri()), Ok(3));
    assert_eq!(registry.token_count(), 3);
    assert_eq!(registry.get_tokens_by_owner(&alice), vec![1, 3]);
    assert_eq!(registry.get_tokens_by_owner(&bob), vec![2]);
    assert!(registry.owner_of(2).same_as(&bob));
}

#[test]
fn unknown_owner_has_no_tokens() {
    let registry = SbtRegistryContract::new();
    assert_eq!(registry.get_tokens_by_owner(&addr("GNOBODY")), Vec::<u64>::new());
    assert!(!registry.has_token(1));
    assert_eq!(registry.credential_token(&addr("GNOBODY"), 1), None);
}

#[test]
fn transfer_is_always_refused() {
    let mut registry = SbtRegistryContract::new();
    let alice = addr("GALICE");
    let id = registry.mint(alice.clone(), 1, uri()).unwrap();
    assert_eq!(
        registry.transfer(&alice, &addr("GBOB"), id),
        Err(ContractError::SoulboundNonTransferable)
    );
    assert!(registry.owner_of(id).same_as(&alice));
}

#[test]
fn error_code_is_one() {
    assert_eq!(ContractError::SoulboundNonTransferable.code(), 1);
}

#[test]
fn burn_removes_token_and_listing() {
    let mut registry = SbtRegistryContract::new();
    let alice = addr("GALICE");
    registry.mint(alice.clone(), 1, uri()).unwrap();
    registry.mint(alice.clone(), 2, uri()).unwrap();
    registry.mint(alice.clone(), 3, uri()).unwrap();
    registry.burn(&alice, 2);
    assert!(!registry.has_token(2));
    assert!(registry.owner_of(3).same_as(&alice));
    assert!(registry.has_token(1));
    assert!(registry.has_token(3));
    assert_eq!(registry.get_tokens_by_owner(&alice), vec![1, 3]);
    assert_eq!(registry.token_count(), 3);
}

#[test]
fn burnt_credential_can_be_minted_again() {
    let mut registry = SbtRegistryContract::new();
    let alice = addr("GALICE");
    let id = registry.mint(alice.clone(), 5, uri()).unwrap();
    assert_eq!(
        registry.mint(alice.clone(), 5, uri()),
        Err(ContractError::SoulboundNonTransferable)
    );
    registry.burn(&alice, id);
    assert_eq!(registry.credential_token(&alice, 5), None);
    assert_eq!(registry.mint(alice.clone(), 5, uri()), Ok(2));
    assert_eq!(registry.credential_token(&alice, 5), Some(2));
    assert_eq!(registry.get_tokens_by_owner(&alice), vec![2]);
}

#[test]
fn burn_keeps_other_credentials_linked() {
    let mut registry = SbtRegistryContract::new();
    let alice = addr("GALICE");
    registry.mint(alice.clone(), 5, uri()).unwrap();
    registry.mint(alice.clone(), 6, uri()).unwrap();
    registry.burn(&alice, 1);
    assert_eq!(registry.credential_token(&alice, 6), Some(2));
    assert_eq!(
        registry.mint(alice.clone(), 6, uri()),
        Err(ContractError::SoulboundNonTransferable)
    );
}

#[test]
fn same_credential_for_different_owners_is_allowed() {
    let mut registry = SbtRegistryContract::new();
    assert_eq!(registry.mint(addr("GALICE"), 9, uri()), Ok(1));
    assert_eq!(registry.mint(addr("GBOB"), 9, uri()), Ok(2));
}

#[test]
fn restored_entries_are_read_back() {
    let mut registry = SbtRegistryContract::new();
    let alice = addr("GALICE");
    registry.restore_token_count(10);
    registry.restore_token(4, SoulboundToken {
        id: 4,
        owner: alice.clone(),
        credential_id: 8,
        metadata_uri: uri(),
    });
    registry.restore_holding(alice.clone(), vec![4]);
    registry.restore_link(alice.clone(), 8, 4);
    registry.restore_owner(4, alice.clone());
    assert_eq!(registry.token_count(), 10);
    assert!(registry.owner_of(4).same_as(&alice));
    assert_eq!(registry.get_token(4).credential_id, 8);
    assert_eq!(registry.get_tokens_by_owner(&alice), vec![4]);
    assert_eq!(registry.mint(alice.clone(), 8, uri()), Err(ContractError::SoulboundNonTransferable));
    assert_eq!(registry.mint(alice.clone(), 9, uri()), Ok(11));
    assert_eq!(registry.get_tokens_by_owner(&alice), vec![4, 11]);
}

#[test]
fn burn_of_unlisted_token_leaves_empty_listing() {
    let mut registry = SbtRegistryContract::new();
    let alice = addr("GALICE");
    registry.restore_token(1, SoulboundToken {
        id: 1,
        owner: alice.clone(),
        credential_id: 1,
        metadata_uri: uri(),
    });
    registry.burn(&alice, 1);
    assert!(!registry.has_token(1));
    assert_eq!(registry.get_tokens_by_owner(&alice), Vec::<u64>::new());
}

#[test]
fn address_comparison_is_by_bytes() {
    assert!(addr("GA").same_as(&addr("GA")));
    assert!(!addr("GA").same_as(&addr("GB")));
    assert!(!addr("GA").same_as(&addr("GAA")));
}
