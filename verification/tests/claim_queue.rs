//! The delayed-claim queue: creation, capped sweeps and queries.

use stardex_vault_core::claim::{BlockInfo, Claim, Claims, Expiration, Nft};

fn get_test_nfts(start: u64, end: u64) -> Vec<Nft> {
    let mut retval: Vec<Nft> = vec![];
    for i in start..end {
        retval.push(Nft {
            collection: format!("collection-{}", i),
            token_id: format!("tokenid-{}", i),
        })
    }
    retval
}

fn get_test_expiration() -> Expiration {
    Expiration::AtHeight(10)
}

fn copy_nfts(nfts: &[Nft]) -> Vec<Nft> {
    nfts.iter().map(|n| n.duplicate()).collect()
}

/// The block an operation runs in when nothing special is arranged.
fn default_block() -> BlockInfo {
    BlockInfo {
        height: 12345,
        time: 1571797419879305533,
    }
}

fn block_at_height(height: u64) -> BlockInfo {
    BlockInfo {
        height,
        time: 1571797419879305533,
    }
}

#[test]
fn can_create_claim() {
    let test_nfts = get_test_nfts(0, 3);
    let test_expiration = get_test_expiration();

    let claim = Claim::new(copy_nfts(&test_nfts), test_expiration);
    assert_eq!(claim.nfts, test_nfts);
    assert_eq!(claim.release_at, test_expiration);
}

#[test]
fn can_create_claims() {
    let claims = Claims::new();
    assert_eq!(claims.entries.len(), 0);
}

#[test]
fn check_create_claim_updates_map() {
    let test_nfts_0 = get_test_nfts(0, 3);
    let test_expiration = get_test_expiration();

    let mut claims = Claims::new();
    let addr = String::from("addr");
    let addr2 = String::from("addr2");

    claims.create_claim(&addr, copy_nfts(&test_nfts_0), test_expiration);

    let saved_claims = claims.query_claims(&addr).claims;
    assert_eq!(saved_claims.len(), 1);
    assert_eq!(saved_claims[0].nfts, test_nfts_0);
    assert_eq!(saved_claims[0].release_at, test_expiration);

    let test_nfts_1 = get_test_nfts(3, 5);
    claims.create_claim(&addr, copy_nfts(&test_nfts_1), test_expiration);

    let saved_claims = claims.query_claims(&addr).claims;
    assert_eq!(saved_claims.len(), 2);
    assert_eq!(saved_claims[0].nfts, test_nfts_0);
    assert_eq!(saved_claims[0].release_at, test_expiration);
    assert_eq!(saved_claims[1].nfts, test_nfts_1);
    assert_eq!(saved_claims[1].release_at, test_expiration);

    claims.create_claim(&addr2, copy_nfts(&test_nfts_1), test_expiration);

    let saved_claims = claims.query_claims(&addr).claims;
    let saved_claims_addr2 = claims.query_claims(&addr2).claims;
    assert_eq!(saved_claims.len(), 2);
    assert_eq!(saved_claims_addr2.len(), 1);
}

#[test]
fn test_claim_tokens_with_no_claims() {
    let mut claims = Claims::new();
    let addr = String::from("addr");

    let claimable_nfts = claims.claim_tokens(&addr, &default_block(), None);
    let saved_claims = claims.query_claims(&addr).claims;

    assert_eq!(claimable_nfts.len(), 0usize);
    assert_eq!(saved_claims.len(), 0);
}

#[test]
fn test_claim_tokens_with_no_released_claims() {
    let mut claims = Claims::new();
    let addr = String::from("addr");

    let test_nfts_0 = get_test_nfts(0, 3);
    claims.create_claim(&addr, copy_nfts(&test_nfts_0), Expiration::AtHeight(10));

    let test_nfts_1 = get_test_nfts(3, 5);
    claims.create_claim(&addr, copy_nfts(&test_nfts_1), Expiration::AtHeight(100));

    // the address has two claims however they are both not expired
    let claimable_nfts = claims.claim_tokens(&addr, &block_at_height(0), None);

    let saved_claims = claims.query_claims(&addr).claims;

    assert_eq!(claimable_nfts.len(), 0usize);
    assert_eq!(saved_claims.len(), 2);
    assert_eq!(saved_claims[0].nfts, test_nfts_0);
    assert_eq!(saved_claims[0].release_at, Expiration::AtHeight(10));
    assert_eq!(saved_claims[1].nfts, test_nfts_1);
    assert_eq!(saved_claims[1].release_at, Expiration::AtHeight(100));
}

#[test]
fn test_claim_tokens_with_one_released_claim() {
    let mut claims = Claims::new();
    let addr = String::from("addr");

    let test_nfts_0 = get_test_nfts(0, 3);
    claims.create_claim(&addr, copy_nfts(&test_nfts_0), Expiration::AtHeight(10));

    let test_nfts_1 = get_test_nfts(3, 5);
    claims.create_claim(&addr, copy_nfts(&test_nfts_1), Expiration::AtHeight(100));

    // the address has two claims and the first one can be released
    let claimable_nfts = claims.claim_tokens(&addr, &block_at_height(20), None);

    let saved_claims = claims.query_claims(&addr).claims;

    assert_eq!(claimable_nfts, test_nfts_0);
    assert_eq!(saved_claims.len(), 1);
    assert_eq!(saved_claims[0].nfts, test_nfts_1);
    assert_eq!(saved_claims[0].release_at, Expiration::AtHeight(100));
}

#[test]
fn test_claim_tokens_with_all_released_claims() {
    let mut claims = Claims::new();
    let addr = String::from("addr");

    let test_nfts_0 = get_test_nfts(0, 3);
    claims.create_claim(&addr, copy_nfts(&test_nfts_0), Expiration::AtHeight(10));

    let test_nfts_1 = get_test_nfts(3, 5);
    claims.create_claim(&addr, copy_nfts(&test_nfts_1), Expiration::AtHeight(100));

    // the address has two claims and both can be released
    let claimable_nfts = claims.claim_tokens(&addr, &block_at_height(1000), None);

    let saved_claims = claims.query_claims(&addr).claims;

    let all_test_nfts: Vec<Nft> = copy_nfts(&test_nfts_0)
        .into_iter()
        .chain(copy_nfts(&test_nfts_1).into_iter())
        .collect();
    assert_eq!(claimable_nfts, all_test_nfts);
    assert_eq!(saved_claims.len(), 0);
}

#[test]
fn test_claim_tokens_with_zero_cap() {
    let mut claims = Claims::new();
    let addr = String::from("addr");

    let test_nfts_0 = get_test_nfts(0, 3);
    claims.create_claim(&addr, copy_nfts(&test_nfts_0), Expiration::AtHeight(10));

    let test_nfts_1 = get_test_nfts(3, 5);
    claims.create_claim(&addr, copy_nfts(&test_nfts_1), Expiration::AtHeight(100));

    let claimable_nfts = claims.claim_tokens(&addr, &block_at_height(1000), Some(0u128));

    let saved_claims = claims.query_claims(&addr).claims;

    assert_eq!(claimable_nfts.len(), 0usize);
    assert_eq!(saved_claims.len(), 2);
    assert_eq!(saved_claims[0].nfts, test_nfts_0);
    assert_eq!(saved_claims[0].release_at, Expiration::AtHeight(10));
    assert_eq!(saved_claims[1].nfts, test_nfts_1);
    assert_eq!(saved_claims[1].release_at, Expiration::AtHeight(100));
}

#[test]
fn test_claim_tokens_with_cap_greater_than_pending_claims() {
    let mut claims = Claims::new();
    let addr = String::from("addr");

    let test_nfts_0 = get_test_nfts(0, 3);
    claims.create_claim(&addr, copy_nfts(&test_nfts_0), Expiration::AtHeight(10));

    let test_nfts_1 = get_test_nfts(3, 5);
    claims.create_claim(&addr, copy_nfts(&test_nfts_1), Expiration::AtHeight(100));

    let claimable_nfts = claims.claim_tokens(&addr, &block_at_height(1000), Some(6u128));

    let saved_claims = claims.query_claims(&addr).claims;

    let all_test_nfts: Vec<Nft> = copy_nfts(&test_nfts_0)
        .into_iter()
        .chain(copy_nfts(&test_nfts_1).into_iter())
        .collect();
    assert_eq!(claimable_nfts, all_test_nfts);
    assert_eq!(saved_claims.len(), 0);
}

#[test]
fn test_claim_tokens_with_cap_only_one_claim_released() {
    let mut claims = Claims::new();
    let addr = String::from("addr");

    let test_nfts_0 = get_test_nfts(0, 3);
    claims.create_claim(&addr, copy_nfts(&test_nfts_0), Expiration::AtHeight(10));

    let test_nfts_1 = get_test_nfts(3, 5);
    claims.create_claim(&addr, copy_nfts(&test_nfts_1), Expiration::AtHeight(5));

    // the address has two claims and only the smaller one fits the cap
    let claimable_nfts = claims.claim_tokens(&addr, &block_at_height(1000), Some(2u128));
    assert_eq!(claimable_nfts, test_nfts_1);

    let saved_claims = claims.query_claims(&addr).claims;
    assert_eq!(saved_claims.len(), 1);
    assert_eq!(saved_claims[0].nfts, test_nfts_0);
    assert_eq!(saved_claims[0].release_at, Expiration::AtHeight(10));
}

#[test]
fn test_claim_tokens_with_cap_too_low_no_claims_released() {
    let mut claims = Claims::new();
    let addr = String::from("addr");

    let test_nfts_0 = get_test_nfts(0, 3);
    claims.create_claim(&addr, copy_nfts(&test_nfts_0), Expiration::AtHeight(10));

    let test_nfts_1 = get_test_nfts(3, 5);
    claims.create_claim(&addr, copy_nfts(&test_nfts_1), Expiration::AtHeight(5));

    let claimable_nfts = claims.claim_tokens(&addr, &block_at_height(1000), Some(1u128));
    assert_eq!(claimable_nfts.len(), 0usize);

    let saved_claims = claims.query_claims(&addr).claims;
    assert_eq!(saved_claims.len(), 2);
    assert_eq!(saved_claims[0].nfts, test_nfts_0);
    assert_eq!(saved_claims[0].release_at, Expiration::AtHeight(10));
    assert_eq!(saved_claims[1].nfts, test_nfts_1);
    assert_eq!(saved_claims[1].release_at, Expiration::AtHeight(5));
}

#[test]
fn test_query_claims_returns_correct_claims() {
    let mut claims = Claims::new();
    let addr = String::from("addr");

    let test_nfts_0 = get_test_nfts(0, 3);

    claims.create_claim(&addr, copy_nfts(&test_nfts_0), Expiration::AtHeight(10));

    let queried_claims = claims.query_claims(&addr);
    let saved_claims = claims.query_claims(&addr).claims;
    assert_eq!(queried_claims.claims, saved_claims);
}

#[test]
fn test_query_claims_returns_empty_for_non_existent_user() {
    let mut claims = Claims::new();
    let addr = String::from("addr");
    let addr2 = String::from("addr2");

    let test_nfts_0 = get_test_nfts(0, 3);

    claims.create_claim(&addr, copy_nfts(&test_nfts_0), Expiration::AtHeight(10));

    let queried_claims = claims.query_claims(&addr2);

    assert_eq!(queried_claims.claims.len(), 0);
}
