//! The streaming reward engine, driven the way the vault drives it: every
//! report carries the account's stake and the global total as they stood
//! before the operation that triggered it.

use stardex_vault_core::claim::BlockInfo;
use stardex_vault_core::native::{NativeConfig, StakeNativeContract};
use stardex_vault_core::pay::Coin;
use stardex_vault_core::rewards::{RewardAsset, StakeExternalRewardsContract};

const GENESIS_MINT_START_TIME: u64 = 1647032400000000000;
const GENESIS_MINT_START_HEIGHT: u64 = 10000;
const BLOCK_TIME_NANOS: u64 = 5000000000;
const NATIVE_DENOM: &str = "ustars";
const ALT_DENOM: &str = "uatom";
const REWARD_DURATION_SEC: u64 = 60 * 60 * 24 * 7 * 8;

fn coin(amount: u128, denom: &str) -> Coin {
    Coin {
        denom: String::from(denom),
        amount,
    }
}

struct Harness {
    vault: StakeNativeContract,
    pool: StakeExternalRewardsContract,
    block: BlockInfo,
}

/// A fungible vault with one reward pool funded over the full duration,
/// registered the way the original deployment wires them together.
fn setup_with_pool(fund_amount: u128) -> Harness {
    let block = BlockInfo {
        height: GENESIS_MINT_START_HEIGHT,
        time: GENESIS_MINT_START_TIME,
    };
    let mut vault = StakeNativeContract::instantiate(
        NativeConfig {
            rewards_code_id: 1,
            denom: String::from(NATIVE_DENOM),
            unstaking_duration_sec: 0,
        },
        block.height,
    );
    let pool = StakeExternalRewardsContract::instantiate(
        block.time,
        String::from("stake-native"),
        RewardAsset::Native(String::from(ALT_DENOM)),
        block.time,
        REWARD_DURATION_SEC,
        fund_amount,
    )
    .unwrap();
    vault.create_reward_account(String::from("reward-account-0"));
    Harness { vault, pool, block }
}

fn advance_blocks(block: &mut BlockInfo, nanos: u64) {
    block.time += nanos;
    block.height += nanos / BLOCK_TIME_NANOS;
}

/// Delivers every stake-change report the vault produced to the pool.
fn deliver_stake_changes(
    pool: &mut StakeExternalRewardsContract,
    block: &BlockInfo,
    msgs: &[stardex_vault_core::vault_ops::StakeChangeMsg],
) {
    let stake = String::from("stake-native");
    for m in msgs {
        pool.stake_change(
            block.time,
            &vec![],
            &stake,
            &m.recipient,
            m.staked_amount,
            m.total_staked,
        )
        .unwrap();
    }
}

/// Registering a reward pool appends exactly one address to the vault's
/// registry; the admin gate in front of it belongs to the host.
#[test]
fn try_create_reward_account() {
    let block = BlockInfo {
        height: GENESIS_MINT_START_HEIGHT,
        time: GENESIS_MINT_START_TIME,
    };
    let mut vault = StakeNativeContract::instantiate(
        NativeConfig {
            rewards_code_id: 1,
            denom: String::from(NATIVE_DENOM),
            unstaking_duration_sec: 0,
        },
        block.height,
    );
    assert_eq!(vault.reward_accounts().len(), 0);
    let index = vault.create_reward_account(String::from("reward-account-0"));
    assert_eq!(index, 0);
    let reward_accounts = vault.reward_accounts();
    assert_eq!(reward_accounts.len(), 1);
    assert_eq!(reward_accounts[0], "reward-account-0");
}

#[test]
fn try_earn_stake_rewards() {
    let Harness {
        mut vault,
        mut pool,
        mut block,
    } = setup_with_pool(1_000_000_000);
    let user = String::from("user-0");
    let stake = String::from("stake-native");

    // User stakes
    let msgs = vault
        .stake(&block, &user, &vec![coin(1_000_000, NATIVE_DENOM)])
        .unwrap();
    deliver_stake_changes(&mut pool, &block, &msgs);

    advance_blocks(&mut block, BLOCK_TIME_NANOS * 10);

    let balance_0: u128 = 0;

    let claim_msgs = vault.claim_rewards(&user);
    assert_eq!(claim_msgs.len(), 1);
    let payout = pool
        .claim_rewards(
            block.time,
            &vec![],
            &stake,
            &claim_msgs[0].recipient,
            claim_msgs[0].staked_amount,
            claim_msgs[0].total_staked,
        )
        .unwrap();
    let paid = payout.map(|p| p.amount).unwrap_or(0);
    let balance_1 = balance_0 + paid;
    assert!(balance_0 < balance_1);

    assert_eq!(vault.reward_accounts().len(), 1);

    let user_reward = pool.user_reward(&user).unwrap();

    assert!(user_reward.rewards_checkpoint.hi > 0 || user_reward.rewards_checkpoint.lo > 0);
    assert_eq!(user_reward.pending_rewards, 0);
    assert_eq!(user_reward.claimed_rewards, balance_1 - balance_0);
}

/// The pure display query matches what a real claim would then pay.
#[test]
fn latest_user_reward_is_a_pure_preview() {
    let Harness {
        mut vault,
        mut pool,
        mut block,
    } = setup_with_pool(1_000_000_000);
    let user = String::from("user-0");
    let stake = String::from("stake-native");

    let msgs = vault
        .stake(&block, &user, &vec![coin(1_000_000, NATIVE_DENOM)])
        .unwrap();
    deliver_stake_changes(&mut pool, &block, &msgs);
    advance_blocks(&mut block, BLOCK_TIME_NANOS * 10);

    let preview = pool
        .latest_user_reward(block.time, &user, 1_000_000, 1_000_000)
        .unwrap()
        .unwrap();
    assert_eq!(preview.pending_rewards, 206 * 50);
    // the preview did not move the pool
    assert_eq!(pool.rewards().last_update, GENESIS_MINT_START_TIME);

    let payout = pool
        .claim_rewards(block.time, &vec![], &stake, &user, 1_000_000, 1_000_000)
        .unwrap()
        .unwrap();
    assert_eq!(payout.amount, preview.pending_rewards);
}

/// Only the registered stake ledger may report, and never with funds.
#[test]
fn reports_are_guarded() {
    let Harness {
        mut pool, block, ..
    } = setup_with_pool(1_000_000_000);
    let user = String::from("user-0");

    let r = pool.stake_change(
        block.time,
        &vec![coin(1, NATIVE_DENOM)],
        &String::from("stake-native"),
        &user,
        0,
        0,
    );
    assert!(matches!(
        r,
        Err(stardex_vault_core::error::ContractError::Payment(
            stardex_vault_core::error::PaymentError::NonPayable
        ))
    ));

    let r = pool.stake_change(block.time, &vec![], &String::from("intruder"), &user, 0, 0);
    assert!(matches!(
        r,
        Err(stardex_vault_core::error::ContractError::Unauthorized(_))
    ));
}

/// A window that elapses while nothing at all is staked forfeits its
/// emission: the accumulator stays put while the clock advances.
#[test]
fn empty_pool_window_is_forfeited() {
    let Harness {
        mut pool, mut block, ..
    } = setup_with_pool(1_000_000_000);
    let stake = String::from("stake-native");
    advance_blocks(&mut block, BLOCK_TIME_NANOS * 10);
    pool.stake_change(block.time, &vec![], &stake, &String::from("user-0"), 0, 0)
        .unwrap();
    let rewards = pool.rewards();
    assert_eq!(rewards.rewards_per_token.hi, 0);
    assert_eq!(rewards.rewards_per_token.lo, 0);
    assert_eq!(rewards.last_update, block.time);
}

/// A pool so large that scaling its emission leaves the 256-bit range
/// fails the single call with an arithmetic error.
#[test]
fn oversized_emission_overflows() {
    let mut pool = StakeExternalRewardsContract::instantiate(
        GENESIS_MINT_START_TIME,
        String::from("stake-native"),
        RewardAsset::Native(String::from(ALT_DENOM)),
        GENESIS_MINT_START_TIME,
        1,
        u128::MAX,
    )
    .unwrap();
    let stake = String::from("stake-native");
    let user = String::from("user-0");
    let r = pool.stake_change(
        GENESIS_MINT_START_TIME + 1_000_000_000,
        &vec![],
        &stake,
        &user,
        1,
        1,
    );
    assert!(matches!(
        r,
        Err(stardex_vault_core::error::ContractError::Overflow)
    ));
}

/// An accrued share so large that weighting it by the stake leaves the
/// 256-bit range fails the claim and changes nothing.
#[test]
fn oversized_share_overflows_wide_multiply() {
    let rate: u128 = 100_000_000_000_000_000_000;
    let duration: u64 = 4_000_000_000;
    let fund = rate * duration as u128;
    let mut pool = StakeExternalRewardsContract::instantiate(
        GENESIS_MINT_START_TIME,
        String::from("stake-native"),
        RewardAsset::Native(String::from(ALT_DENOM)),
        GENESIS_MINT_START_TIME,
        duration,
        fund,
    )
    .unwrap();
    let stake = String::from("stake-native");
    let user = String::from("user-0");
    let finish = GENESIS_MINT_START_TIME + duration * 1_000_000_000;
    let r = pool.claim_rewards(finish, &vec![], &stake, &user, 1_000_000_000, 1);
    assert!(matches!(
        r,
        Err(stardex_vault_core::error::ContractError::Overflow)
    ));
    assert_eq!(pool.rewards().last_update, GENESIS_MINT_START_TIME);
}

/// A pool paying in a token contract's asset carries that asset on its
/// payout.
#[test]
fn cw20_pool_pays_in_its_token() {
    let mut pool = StakeExternalRewardsContract::instantiate(
        GENESIS_MINT_START_TIME,
        String::from("stake-native"),
        RewardAsset::Cw20(String::from("token-contract")),
        GENESIS_MINT_START_TIME,
        REWARD_DURATION_SEC,
        1_000_000_000,
    )
    .unwrap();
    let stake = String::from("stake-native");
    let user = String::from("user-0");
    pool.stake_change(GENESIS_MINT_START_TIME, &vec![], &stake, &user, 0, 0)
        .unwrap();
    let payout = pool
        .claim_rewards(
            GENESIS_MINT_START_TIME + 50_000_000_000,
            &vec![],
            &stake,
            &user,
            1_000_000,
            1_000_000,
        )
        .unwrap()
        .unwrap();
    assert!(matches!(payout.asset, RewardAsset::Cw20(ref c) if c == "token-contract"));
    assert_eq!(payout.recipient, user);
    assert_eq!(payout.amount, 206 * 50);
}

#[test]
fn try_earn_stake_rewards_multiple_stakers() {
    let Harness {
        mut vault,
        mut pool,
        mut block,
    } = setup_with_pool(1_000_000_000);
    let user_0 = String::from("user-0");
    let user_1 = String::from("user-1");
    let stake = String::from("stake-native");

    // User 0 stakes
    let msgs = vault
        .stake(&block, &user_0, &vec![coin(1_000_000, NATIVE_DENOM)])
        .unwrap();
    deliver_stake_changes(&mut pool, &block, &msgs);

    let half_duration_sec = REWARD_DURATION_SEC / 2;
    advance_blocks(&mut block, half_duration_sec * 1_000_000_000);

    // User 1 stakes
    let msgs = vault
        .stake(&block, &user_1, &vec![coin(1_000_000, NATIVE_DENOM)])
        .unwrap();
    deliver_stake_changes(&mut pool, &block, &msgs);

    advance_blocks(&mut block, half_duration_sec * 1_000_000_000);

    let claim_msgs = vault.claim_rewards(&user_0);
    let payout_0 = pool
        .claim_rewards(
            block.time,
            &vec![],
            &stake,
            &claim_msgs[0].recipient,
            claim_msgs[0].staked_amount,
            claim_msgs[0].total_staked,
        )
        .unwrap();

    let claim_msgs = vault.claim_rewards(&user_1);
    let payout_1 = pool
        .claim_rewards(
            block.time,
            &vec![],
            &stake,
            &claim_msgs[0].recipient,
            claim_msgs[0].staked_amount,
            claim_msgs[0].total_staked,
        )
        .unwrap();

    let user_0_earned_tokens = payout_0.map(|p| p.amount).unwrap_or(0);
    let user_1_earned_tokens = payout_1.map(|p| p.amount).unwrap_or(0);

    assert_eq!(user_0_earned_tokens, user_1_earned_tokens * 3);
}
