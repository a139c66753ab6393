//! The fungible vault: staking, unstaking and delayed claims.

use stardex_vault_core::claim::BlockInfo;
use stardex_vault_core::error::{ContractError, PaymentError};
use stardex_vault_core::native::{NativeConfig, StakeNativeContract};
use stardex_vault_core::pay::Coin;

const GENESIS_MINT_START_TIME: u64 = 1647032400000000000;
const GENESIS_MINT_START_HEIGHT: u64 = 10000;
const BLOCK_TIME_NANOS: u64 = 5000000000;
const INITIAL_BALANCE: u128 = 500_000_000_000;
const NATIVE_DENOM: &str = "ustars";
const ALT_DENOM: &str = "uatom";
const UNSTAKING_DURATION_SEC: u64 = 60 * 60 * 24 * 7;

struct TextContext {
    vault: StakeNativeContract,
    block: BlockInfo,
}

fn coin(amount: u128, denom: &str) -> Coin {
    Coin {
        denom: String::from(denom),
        amount,
    }
}

fn setup(unstaking_duration_sec: u64) -> Result<TextContext, ContractError> {
    let block = BlockInfo {
        height: GENESIS_MINT_START_HEIGHT,
        time: GENESIS_MINT_START_TIME,
    };
    let vault = StakeNativeContract::instantiate(
        NativeConfig {
            rewards_code_id: 1,
            denom: String::from(NATIVE_DENOM),
            unstaking_duration_sec,
        },
        block.height,
    );
    Ok(TextContext { vault, block })
}

fn advance_blocks(block: &mut BlockInfo, nanos: u64) {
    block.time += nanos;
    block.height += nanos / BLOCK_TIME_NANOS;
}

#[test]
fn try_setup_stardex_stake_contracts() {
    let context = setup(0);
    assert!(context.is_ok());
}

#[test]
fn try_stardex_native_stake() {
    let TextContext {
        mut vault,
        mut block,
    } = setup(0).unwrap();
    let user = String::from("user-0");

    // Cannot stake invalid denom
    let response = vault.stake(&block, &user, &vec![coin(1_000_000, ALT_DENOM)]);
    assert!(matches!(
        response,
        Err(ContractError::Payment(PaymentError::MissingDenom(ref d))) if d == NATIVE_DENOM
    ));

    // Can stake valid denom
    let response = vault.stake(&block, &user, &vec![coin(1_000_000, NATIVE_DENOM)]);
    assert!(response.is_ok());

    let block_height = block.height;
    advance_blocks(&mut block, BLOCK_TIME_NANOS);
    let stake_balance = vault.stake_balance_at_height(&user, Some(block_height + 1), block.height);
    assert_eq!(stake_balance, 1_000_000);
}

/// The per-account balance history answers at every height it changed.
#[test]
fn balance_history_tracks_changes() {
    let TextContext {
        mut vault,
        mut block,
    } = setup(0).unwrap();
    let user = String::from("user-0");
    let h1 = block.height;
    vault
        .stake(&block, &user, &vec![coin(100, NATIVE_DENOM)])
        .unwrap();
    advance_blocks(&mut block, BLOCK_TIME_NANOS);
    let h2 = block.height;
    vault
        .stake(&block, &user, &vec![coin(50, NATIVE_DENOM)])
        .unwrap();
    advance_blocks(&mut block, BLOCK_TIME_NANOS);
    let h3 = block.height;
    vault.unstake(&block, &user, 120).unwrap();
    advance_blocks(&mut block, BLOCK_TIME_NANOS);

    assert_eq!(vault.stake_balance_at_height(&user, Some(h1), block.height), 0);
    assert_eq!(vault.stake_balance_at_height(&user, Some(h2), block.height), 100);
    assert_eq!(vault.stake_balance_at_height(&user, Some(h3), block.height), 150);
    assert_eq!(vault.stake_balance_at_height(&user, None, block.height), 30);
    assert_eq!(
        vault.total_staked_amount_at_height(None, block.height),
        Some(30)
    );
}

#[test]
fn try_stardex_native_unstake() {
    let TextContext {
        mut vault,
        mut block,
    } = setup(0).unwrap();
    let user = String::from("user-0");
    let alt_user = String::from("user-1");

    let response = vault.stake(&block, &user, &vec![coin(1_000_000, NATIVE_DENOM)]);
    assert!(response.is_ok());
    advance_blocks(&mut block, BLOCK_TIME_NANOS);

    // Alt user cannot unstake
    let response = vault.unstake(&block, &alt_user, 1_000_000);
    assert!(matches!(
        response,
        Err(ContractError::InsufficientFunds(ref m))
            if m == "sender does not have enough staked balance"
    ));

    // User cannot unstake more than they have staked
    let response = vault.unstake(&block, &user, 1_000_001);
    assert!(response.is_err());

    // User can unstake
    let response = vault.unstake(&block, &user, 1_000_000);
    assert!(response.is_ok());
}

#[test]
fn try_stardex_native_instant_claim() {
    let TextContext {
        mut vault,
        mut block,
    } = setup(0).unwrap();
    let user = String::from("user-0");
    let user_balance_1 = INITIAL_BALANCE;

    let response = vault.stake(&block, &user, &vec![coin(1_000_000, NATIVE_DENOM)]);
    assert!(response.is_ok());

    let user_balance_2 = user_balance_1 - 1_000_000;
    assert_eq!(user_balance_1 - 1_000_000, user_balance_2);

    advance_blocks(&mut block, BLOCK_TIME_NANOS);
    let response = vault.unstake(&block, &user, 1_000_000);
    assert!(response.is_ok());

    let user_balance_3 = user_balance_2;
    assert_eq!(user_balance_2, user_balance_3);

    advance_blocks(&mut block, BLOCK_TIME_NANOS);
    let response = vault.claim(&block, &user);
    assert!(response.is_ok());

    let user_balance_4 = user_balance_3 + response.unwrap();
    assert_eq!(user_balance_1, user_balance_4);
}

#[test]
fn try_stardex_native_delayed_claim() {
    let TextContext {
        mut vault,
        mut block,
    } = setup(UNSTAKING_DURATION_SEC).unwrap();
    let user = String::from("user-0");
    let user_balance_1 = INITIAL_BALANCE;

    let response = vault.stake(&block, &user, &vec![coin(1_000_000, NATIVE_DENOM)]);
    assert!(response.is_ok());

    let user_balance_2 = user_balance_1 - 1_000_000;
    assert_eq!(user_balance_1 - 1_000_000, user_balance_2);

    advance_blocks(&mut block, BLOCK_TIME_NANOS);
    let response = vault.unstake(&block, &user, 1_000_000);
    assert!(response.is_ok());

    let user_balance_3 = user_balance_2;
    assert_eq!(user_balance_2, user_balance_3);

    // Cannot claim before unstaking period is over
    let response = vault.claim(&block, &user);
    assert!(matches!(
        response,
        Err(ContractError::ClaimableBalanceNotFound)
    ));

    advance_blocks(&mut block, UNSTAKING_DURATION_SEC * 1_000_000_000);

    let response = vault.claim(&block, &user);
    assert!(response.is_ok());

    let user_balance_4 = user_balance_3 + response.unwrap();
    assert_eq!(user_balance_1, user_balance_4);
}
