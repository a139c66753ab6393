//! Scenario coverage: the bucketed vault, the snapshot store, the reward
//! formula and the pagination surface.

use stardex_vault_core::claim::{BlockInfo, Nft};
use stardex_vault_core::error::ContractError;
use stardex_vault_core::factory::StakeVaultFactory;
use stardex_vault_core::native::{NativeConfig, StakeNativeContract};
use stardex_vault_core::pay::Coin;
use stardex_vault_core::query::QueryOptions;
use stardex_vault_core::rewards::{RewardAsset, StakeExternalRewardsContract, UserReward};
use stardex_vault_core::snapshot::SnapshotStore;
use stardex_vault_core::vault::{Config, NftVaultContract};

const T0: u64 = 1647032400000000000;
const H0: u64 = 10000;

fn block(height: u64, time: u64) -> BlockInfo {
    BlockInfo { height, time }
}

fn nft(collection: &str, token_id: &str) -> Nft {
    Nft {
        collection: String::from(collection),
        token_id: String::from(token_id),
    }
}

fn nft_vault(collections: &[&str], unstaking_duration_sec: u64) -> NftVaultContract {
    NftVaultContract::instantiate(
        Config {
            rewards_code_id: 1,
            collections: collections.iter().map(|c| String::from(*c)).collect(),
            unstaking_duration_sec,
        },
        H0,
    )
    .unwrap()
}

/// Two accounts stake equal amounts at the same instant into a pool funded
/// with `R` over duration `D`; after `D` elapses each claims exactly `R/2`.
#[test]
fn equal_stakers_split_pool_in_half() {
    let funded: u128 = 1000;
    let duration: u64 = 10;
    let mut vault = StakeNativeContract::instantiate(
        NativeConfig {
            rewards_code_id: 1,
            denom: String::from("ustars"),
            unstaking_duration_sec: 0,
        },
        H0,
    );
    let mut pool = StakeExternalRewardsContract::instantiate(
        T0,
        String::from("vault"),
        RewardAsset::Native(String::from("uatom")),
        T0,
        duration,
        funded,
    )
    .unwrap();
    let stake = String::from("vault");
    let user_a = String::from("user-a");
    let user_b = String::from("user-b");
    let b0 = block(H0, T0);

    for user in [&user_a, &user_b] {
        let msgs = vault
            .stake(
                &b0,
                user,
                &vec![Coin {
                    denom: String::from("ustars"),
                    amount: 100,
                }],
            )
            .unwrap();
        for m in &msgs {
            pool.stake_change(b0.time, &vec![], &stake, &m.recipient, m.staked_amount, m.total_staked)
                .unwrap();
        }
    }
    // no pool was registered with the vault, so the reports above were
    // none; the claims below carry the live figures directly
    let b1 = block(H0 + 2, T0 + duration * 1_000_000_000);
    let pay_a = pool
        .claim_rewards(b1.time, &vec![], &stake, &user_a, 100, 200)
        .unwrap()
        .unwrap();
    let pay_b = pool
        .claim_rewards(b1.time, &vec![], &stake, &user_b, 100, 200)
        .unwrap()
        .unwrap();
    assert_eq!(pay_a.amount, funded / 2);
    assert_eq!(pay_b.amount, funded / 2);
}

/// An account staking counts {4, 7, 0} across three required buckets has
/// an effective stake of zero until the empty bucket receives one item.
#[test]
fn effective_stake_is_minimum_over_buckets() {
    let mut vault = nft_vault(&["c1", "c2", "c3"], 0);
    let user = String::from("staker");
    let b = block(H0, T0);

    let mut nfts: Vec<Nft> = vec![];
    let mut owners: Vec<String> = vec![];
    for i in 0..4 {
        nfts.push(nft("c1", &format!("a{}", i)));
        owners.push(user.clone());
    }
    for i in 0..7 {
        nfts.push(nft("c2", &format!("b{}", i)));
        owners.push(user.clone());
    }
    vault.stake(&b, &user, nfts, &owners).unwrap();

    // the empty third bucket caps the minimum at zero
    assert_eq!(vault.total_staked_amount_at_height(Some(H0 + 1), H0), Some(0));

    let b2 = block(H0 + 1, T0 + 5_000_000_000);
    vault
        .stake(&b2, &user, vec![nft("c3", "z0")], &vec![user.clone()])
        .unwrap();
    assert_eq!(
        vault.total_staked_amount_at_height(Some(H0 + 2), H0 + 1),
        Some(1)
    );
}

/// Staking an item not owned by the caller fails with an authorization
/// error and leaves the ledger unchanged.
#[test]
fn staking_unowned_item_fails_and_changes_nothing() {
    let mut vault = nft_vault(&["c1"], 0);
    let user = String::from("staker");
    let thief = String::from("thief");
    let b = block(H0, T0);

    let r = vault.stake(&b, &thief, vec![nft("c1", "t1")], &vec![user.clone()]);
    assert!(matches!(r, Err(ContractError::Unauthorized(_))));
    assert_eq!(vault.total_staked_amount_at_height(Some(H0 + 1), H0), Some(0));
    let page = vault.users_staked_nfts(&thief, &QueryOptions {
        limit: None,
        descending: None,
        start_after: None,
    });
    assert_eq!(page.len(), 0);
}

/// Creating a reward pool with a zero funding or a zero duration fails
/// before any pool state exists.
#[test]
fn zero_funding_or_duration_is_rejected() {
    let r = StakeExternalRewardsContract::instantiate(
        T0,
        String::from("vault"),
        RewardAsset::Native(String::from("uatom")),
        T0,
        REWARD_DURATION,
        0,
    );
    assert!(matches!(r, Err(ContractError::InvalidInput(_))));

    let r = StakeExternalRewardsContract::instantiate(
        T0,
        String::from("vault"),
        RewardAsset::Native(String::from("uatom")),
        T0,
        0,
        1_000_000_000,
    );
    assert!(matches!(r, Err(ContractError::DivideByZero)));
}

const REWARD_DURATION: u64 = 60 * 60 * 24 * 7 * 8;

/// The accrual formula, on exact numbers: 206 per second over 50 seconds
/// for the only staker.
#[test]
fn accrual_formula_is_exact() {
    let mut pool = StakeExternalRewardsContract::instantiate(
        T0,
        String::from("vault"),
        RewardAsset::Native(String::from("uatom")),
        T0,
        REWARD_DURATION,
        1_000_000_000,
    )
    .unwrap();
    assert_eq!(pool.config().rewards_per_second, 1_000_000_000 / REWARD_DURATION as u128);
    let stake = String::from("vault");
    let user = String::from("user-0");
    pool.stake_change(T0, &vec![], &stake, &user, 0, 0).unwrap();
    let pay = pool
        .claim_rewards(T0 + 50_000_000_000, &vec![], &stake, &user, 1_000_000, 1_000_000)
        .unwrap()
        .unwrap();
    assert_eq!(pay.amount, 206 * 50);
}

/// A reward claim with nothing pending pays nothing but still advances the
/// account's checkpoint and the pool's clock.
#[test]
fn zero_pending_claim_is_a_noop_on_balances() {
    let mut pool = StakeExternalRewardsContract::instantiate(
        T0,
        String::from("vault"),
        RewardAsset::Native(String::from("uatom")),
        T0,
        REWARD_DURATION,
        1_000_000_000,
    )
    .unwrap();
    let stake = String::from("vault");
    let user = String::from("user-0");
    // accrue with another staker's weight so the accumulator moves
    pool.stake_change(T0, &vec![], &stake, &String::from("other"), 0, 0)
        .unwrap();
    pool.stake_change(T0 + 50_000_000_000, &vec![], &stake, &String::from("other"), 1_000_000, 1_000_000)
        .unwrap();
    // the user holds no stake: nothing pending, no payout
    let pay = pool
        .claim_rewards(T0 + 50_000_000_000, &vec![], &stake, &user, 0, 1_000_000)
        .unwrap();
    assert!(pay.is_none());
    let ur: UserReward = pool.user_reward(&user).unwrap();
    assert_eq!(ur.pending_rewards, 0);
    assert_eq!(ur.claimed_rewards, 0);
    // the checkpoint still advanced to the live accumulator
    assert!(ur.rewards_checkpoint.hi > 0 || ur.rewards_checkpoint.lo > 0);
    assert_eq!(pool.rewards().last_update, T0 + 50_000_000_000);
}

/// An unstake followed, after the delay, by a claim returns exactly the
/// unstaked items and removes their record.
#[test]
fn unstake_then_claim_round_trip() {
    let mut vault = nft_vault(&["c1"], 60);
    let user = String::from("staker");
    let b = block(H0, T0);

    vault
        .stake(&b, &user, vec![nft("c1", "t1"), nft("c1", "t2")], &vec![
            user.clone(),
            user.clone(),
        ])
        .unwrap();
    let b2 = block(H0 + 1, T0 + 5_000_000_000);
    vault
        .unstake(&b2, &user, vec![nft("c1", "t1"), nft("c1", "t2")])
        .unwrap();

    // too early: the records wait out their delay
    let r = vault.claim(&b2, &user);
    assert!(matches!(r, Err(ContractError::ClaimableNftsNotFound)));

    let b3 = block(H0 + 13, T0 + 65_000_000_000);
    let transfers = vault.claim(&b3, &user).unwrap();
    assert_eq!(transfers.len(), 2);
    assert_eq!(transfers[0].collection, "c1");
    assert_eq!(transfers[0].token_id, "t1");
    assert_eq!(transfers[1].token_id, "t2");
    assert_eq!(transfers[0].recipient, user);
    assert_eq!(vault.claims(&user).claims.len(), 0);
}

/// The snapshot store answers queries with the value recorded strictly
/// before the asked height, and nothing before its first record.
#[test]
fn snapshot_store_resolves_prior_heights() {
    let mut s = SnapshotStore::new();
    s.record(100, 5).unwrap();
    s.record(110, 7).unwrap();
    s.record(115, 7).unwrap();
    assert_eq!(s.may_load_at_height(5), None);
    assert_eq!(s.may_load_at_height(6), Some(100));
    assert_eq!(s.may_load_at_height(7), Some(100));
    assert_eq!(s.may_load_at_height(8), Some(115));
    assert_eq!(s.may_load_at_height(100), Some(115));
    assert_eq!(s.load(), 115);
    // an earlier height is refused, the series never reorders
    assert!(s.record(50, 1).is_err());
}

/// The factory registers vaults under increasing indices and pages them.
#[test]
fn factory_registry_and_pagination() {
    let mut factory = StakeVaultFactory::instantiate(7, 8);
    for i in 0..3 {
        let msg = factory
            .create_vault(
                format!("vault-{}", i),
                format!("label-{}", i),
                vec![String::from("c1")],
                0,
            )
            .unwrap();
        assert_eq!(msg.index, i);
        assert_eq!(msg.vault_code_id, 7);
        assert_eq!(msg.rewards_code_id, 8);
    }
    let page = factory.vaults(&QueryOptions {
        limit: Some(2),
        descending: None,
        start_after: None,
    });
    assert_eq!(page.len(), 2);
    assert_eq!(page[0], (0, String::from("vault-0")));
    assert_eq!(page[1], (1, String::from("vault-1")));
    let page = factory.vaults(&QueryOptions {
        limit: None,
        descending: None,
        start_after: Some(1),
    });
    assert_eq!(page.len(), 1);
    assert_eq!(page[0], (2, String::from("vault-2")));
    let page = factory.vaults(&QueryOptions {
        limit: None,
        descending: Some(true),
        start_after: None,
    });
    assert_eq!(page[0], (2, String::from("vault-2")));
}

/// The staked-item query pages in stored order with cursor and limit.
#[test]
fn staked_items_query_pages() {
    let mut vault = nft_vault(&["c1"], 0);
    let user = String::from("staker");
    let b = block(H0, T0);
    let mut nfts: Vec<Nft> = vec![];
    let mut owners: Vec<String> = vec![];
    for i in 0..5 {
        nfts.push(nft("c1", &format!("t{}", i)));
        owners.push(user.clone());
    }
    vault.stake(&b, &user, nfts, &owners).unwrap();

    let page = vault.users_staked_nfts(&user, &QueryOptions {
        limit: Some(2),
        descending: None,
        start_after: None,
    });
    assert_eq!(page.len(), 2);
    assert_eq!(page[0].nft.token_id, "t0");
    assert_eq!(page[1].nft.token_id, "t1");

    let page = vault.users_staked_nfts(&user, &QueryOptions {
        limit: Some(2),
        descending: None,
        start_after: Some((String::from("c1"), String::from("t1"))),
    });
    assert_eq!(page.len(), 2);
    assert_eq!(page[0].nft.token_id, "t2");

    let page = vault.users_staked_nfts(&user, &QueryOptions {
        limit: None,
        descending: Some(true),
        start_after: None,
    });
    assert_eq!(page[0].nft.token_id, "t4");

    let amounts = vault.users_collection_staked_amounts(&user, &QueryOptions {
        limit: None,
        descending: None,
        start_after: None,
    });
    assert_eq!(amounts, vec![(String::from("c1"), 5u64)]);
}

/// Pages come back in natural-key order whatever order items were staked
/// in, and a cursor resumes past its key even when no entry carries it.
#[test]
fn staked_items_query_orders_by_key() {
    let mut vault = nft_vault(&["alpha", "beta"], 0);
    let user = String::from("staker");
    let b = block(H0, T0);
    let nfts = vec![
        nft("beta", "t2"),
        nft("alpha", "t9"),
        nft("beta", "t1"),
        nft("alpha", "t3"),
    ];
    let owners = vec![user.clone(), user.clone(), user.clone(), user.clone()];
    vault.stake(&b, &user, nfts, &owners).unwrap();

    let page = vault.users_staked_nfts(&user, &QueryOptions {
        limit: None,
        descending: None,
        start_after: None,
    });
    let keys: Vec<(String, String)> = page
        .iter()
        .map(|s| (s.nft.collection.clone(), s.nft.token_id.clone()))
        .collect();
    assert_eq!(
        keys,
        vec![
            (String::from("alpha"), String::from("t3")),
            (String::from("alpha"), String::from("t9")),
            (String::from("beta"), String::from("t1")),
            (String::from("beta"), String::from("t2")),
        ]
    );

    // the cursor key need not name a stored entry: the page resumes with
    // strictly greater keys
    let page = vault.users_staked_nfts(&user, &QueryOptions {
        limit: None,
        descending: None,
        start_after: Some((String::from("alpha"), String::from("t5"))),
    });
    assert_eq!(page.len(), 3);
    assert_eq!(page[0].nft.token_id, "t9");

    let page = vault.users_staked_nfts(&user, &QueryOptions {
        limit: Some(2),
        descending: Some(true),
        start_after: None,
    });
    assert_eq!(page.len(), 2);
    assert_eq!(page[0].nft.collection, "beta");
    assert_eq!(page[0].nft.token_id, "t2");
    assert_eq!(page[1].nft.token_id, "t1");

    let amounts = vault.users_collection_staked_amounts(&user, &QueryOptions {
        limit: None,
        descending: None,
        start_after: None,
    });
    assert_eq!(
        amounts,
        vec![(String::from("alpha"), 2u64), (String::from("beta"), 2u64)]
    );
    let amounts = vault.users_collection_staked_amounts(&user, &QueryOptions {
        limit: None,
        descending: None,
        start_after: Some(String::from("alpha")),
    });
    assert_eq!(amounts, vec![(String::from("beta"), 2u64)]);
}

/// Staking lists the same item once: a duplicate in one call is refused
/// whole.
#[test]
fn duplicate_item_in_one_stake_is_refused() {
    let mut vault = nft_vault(&["c1"], 0);
    let user = String::from("staker");
    let b = block(H0, T0);
    let r = vault.stake(
        &b,
        &user,
        vec![nft("c1", "t1"), nft("c1", "t1")],
        &vec![user.clone(), user.clone()],
    );
    assert!(matches!(r, Err(ContractError::InvalidInput(_))));
    assert_eq!(vault.total_staked_amount_at_height(Some(H0 + 1), H0), Some(0));
}

/// Unstaking an item someone else staked is refused; an unknown item is
/// rejected as not staked.
#[test]
fn unstake_checks_record_ownership() {
    let mut vault = nft_vault(&["c1"], 0);
    let user = String::from("staker");
    let thief = String::from("thief");
    let b = block(H0, T0);
    vault
        .stake(&b, &user, vec![nft("c1", "t1")], &vec![user.clone()])
        .unwrap();
    let b2 = block(H0 + 1, T0 + 5_000_000_000);
    let r = vault.unstake(&b2, &thief, vec![nft("c1", "t1")]);
    assert!(matches!(r, Err(ContractError::Unauthorized(_))));
    let r = vault.unstake(&b2, &user, vec![nft("c1", "t9")]);
    assert!(matches!(r, Err(ContractError::InvalidInput(_))));
    let r = vault.unstake(&b2, &user, vec![nft("c1", "t1")]);
    assert!(r.is_ok());
}
