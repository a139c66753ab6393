//! Streaming reward-distribution engine, one instance per funded pool.
//!
//! A pool is funded once with a fixed amount over a fixed duration, which
//! yields an immutable per-second emission rate. A cumulative
//! reward-per-unit-stake accumulator grows by `rate * elapsed * SCALE /
//! totalStake` on every checkpoint, where `SCALE = 10^39` keeps precision in
//! fixed point; it never decreases. Each account carries a checkpoint of the
//! accumulator; the difference since its checkpoint times its stake, scaled
//! back down, is what it newly accrued.

use vstd::prelude::*;

use crate::error::{ContractError, PaymentError};
use crate::pay::{nonpayable, Coin};
use crate::wide::{
    scale_factor, scale_int, u256_checked_add, u256_checked_div, u256_checked_mul,
    u256_checked_sub, u256_max, U256,
};
use vstd::arithmetic::div_mod::{
    lemma_div_is_ordered, lemma_div_multiples_vanish, lemma_fundamental_div_mod, lemma_mod_bound,
};

verus! {

/// Nanoseconds in one second; timestamps are nanosecond counts.
pub const NANOS_PER_SECOND: u64 = 1000000000;

/// The asset a pool pays rewards in: a native denomination or a token
/// contract address.
#[derive(Debug, Clone)]
pub enum RewardAsset {
    Native(String),
    Cw20(String),
}

/// The immutable emission schedule of one pool, fixed at creation.
#[derive(Debug, Clone)]
pub struct Config {
    /// The stake ledger allowed to report stake changes and claims.
    pub stake: String,
    pub reward_asset: RewardAsset,
    /// Start of the emission period, in nanoseconds.
    pub period_start: u64,
    pub duration_sec: u64,
    /// End of the emission period, in nanoseconds.
    pub period_finish: u64,
    pub rewards_per_second: u128,
}

impl Config {
    /// Where the next accrual window opens: the later of the period start
    /// and the last checkpoint.
    pub fn first_reward_time(&self, last_update: u64) -> (r: u64)
        ensures
            r == (if self.period_start > last_update {
                self.period_start
            } else {
                last_update
            }),
    {
        if self.period_start > last_update {
            self.period_start
        } else {
            last_update
        }
    }

    /// Where the accrual window closes: the earlier of now and the period
    /// finish.
    pub fn last_reward_time(&self, now: u64) -> (r: u64)
        ensures
            r == (if now < self.period_finish {
                now
            } else {
                self.period_finish
            }),
    {
        if now < self.period_finish {
            now
        } else {
            self.period_finish
        }
    }
}

/// Whole seconds of the accrual window between the last checkpoint and now,
/// clamped to the emission period and to zero from below.
pub open spec fn spec_elapsed_sec(cfg: Config, last_update: u64, now: u64) -> int {
    let ws = if cfg.period_start > last_update {
        cfg.period_start as int
    } else {
        last_update as int
    };
    let we = if now < cfg.period_finish {
        now as int
    } else {
        cfg.period_finish as int
    };
    let ws_whole = (ws / (NANOS_PER_SECOND as int)) * (NANOS_PER_SECOND as int);
    if we >= ws_whole {
        (we - ws_whole) / (NANOS_PER_SECOND as int)
    } else {
        0
    }
}

/// What a checkpoint adds to the accumulator, before any overflow concern:
/// emission of the window, scaled, divided by the total effective stake.
pub open spec fn spec_added_per_token(
    cfg: Config,
    last_update: u64,
    now: u64,
    total_staked: u128,
) -> int {
    cfg.rewards_per_second * spec_elapsed_sec(cfg, last_update, now) * scale_int() / (
    total_staked as int)
}

/// The outcome a checkpoint at `now` against `total_staked` units has on
/// the accumulator: its new mathematical value, or the overflow that
/// refuses it. With no stake the accumulator stays as it is.
pub open spec fn spec_calc_rewards_per_token(
    rew: CumulativeRewards,
    now: u64,
    cfg: Config,
    total_staked: u128,
) -> Result<int, ContractError> {
    if total_staked == 0 {
        Ok(rew.rewards_per_token.as_int())
    } else {
        let num = cfg.rewards_per_second * spec_elapsed_sec(cfg, rew.last_update, now)
            * scale_int();
        if num > u256_max() {
            Err(ContractError::Overflow)
        } else if rew.rewards_per_token.as_int() + spec_added_per_token(
            cfg,
            rew.last_update,
            now,
            total_staked,
        ) > u256_max() {
            Err(ContractError::Overflow)
        } else {
            Ok(
                rew.rewards_per_token.as_int() + spec_added_per_token(
                    cfg,
                    rew.last_update,
                    now,
                    total_staked,
                ),
            )
        }
    }
}

/// The accumulator never runs backwards: whatever total a checkpoint is
/// taken against, the value it yields is at least the value it started
/// from.
pub proof fn lemma_accumulator_monotonic(
    rew: CumulativeRewards,
    now: u64,
    cfg: Config,
    total_staked: u128,
)
    ensures
        spec_calc_rewards_per_token(rew, now, cfg, total_staked) matches Ok(v) ==> v
            >= rew.rewards_per_token.as_int(),
{
    if total_staked > 0 {
        let elapsed = spec_elapsed_sec(cfg, rew.last_update, now);
        assert(elapsed >= 0) by {
            let ws = if cfg.period_start > rew.last_update {
                cfg.period_start as int
            } else {
                rew.last_update as int
            };
            let we = if now < cfg.period_finish {
                now as int
            } else {
                cfg.period_finish as int
            };
            let ws_whole = (ws / (NANOS_PER_SECOND as int)) * (NANOS_PER_SECOND as int);
            if we >= ws_whole {
                assert((we - ws_whole) / (NANOS_PER_SECOND as int) >= 0) by (nonlinear_arith)
                    requires
                        we - ws_whole >= 0,
                ;
            }
        }
        let m = cfg.rewards_per_second * elapsed;
        assert(m >= 0) by (nonlinear_arith)
            requires
                cfg.rewards_per_second >= 0,
                elapsed >= 0,
                m == cfg.rewards_per_second * elapsed,
        ;
        let num = cfg.rewards_per_second * elapsed * scale_int();
        assert(num >= 0) by (nonlinear_arith)
            requires
                m >= 0,
                scale_int() > 0,
                num == m * scale_int(),
        ;
        if num <= u256_max() {
            assert(num / (total_staked as int) >= 0) by (nonlinear_arith)
                requires
                    num >= 0,
                    total_staked > 0,
            ;
        }
    }
}

/// Equal stakers split a window's emission equally, up to fixed-point
/// truncation: when two accounts each hold `stake` units against a total
/// of twice that, a window emitting `rate` per second for `elapsed`
/// seconds accrues each of them the same share, which is at most half the
/// window's emission and, while twice the stake stays within the scale,
/// misses half by at most one unit.
pub proof fn lemma_equal_stakers_half_split(rate: u128, elapsed: u64, stake: u128)
    requires
        stake > 0,
    ensures
        ({
            let add = rate * elapsed * scale_int() / (2 * stake);
            let per = spec_pending_delta(0, add, stake);
            &&& per <= rate * elapsed / 2
            &&& 2 * stake <= scale_int() ==> per + 1 >= rate * elapsed / 2
        }),
{
    let sc = scale_int();
    let x = rate * elapsed;
    let n = rate * elapsed * sc;
    let t = 2 * stake as int;
    let q = n / t;
    let add = n / t;
    let per = add * stake / sc;
    assert(spec_pending_delta(0, add, stake) == per);

    assert(x >= 0) by (nonlinear_arith)
        requires
            x == rate * elapsed,
            rate >= 0,
            elapsed >= 0,
    ;
    assert(n == x * sc);
    assert(n >= 0) by (nonlinear_arith)
        requires
            n == x * sc,
            x >= 0,
            sc > 0,
    ;

    lemma_fundamental_div_mod(n, t);
    lemma_mod_bound(n, t);
    lemma_fundamental_div_mod(q * stake, sc);
    lemma_mod_bound(q * stake, sc);
    assert(t * q == 2 * (q * stake)) by (nonlinear_arith)
        requires
            t == 2 * stake as int,
    ;

    // upper bound: twice the scaled share never exceeds the emission
    assert(sc * per <= q * stake);
    assert(2 * (sc * per) <= t * q);
    assert(t * q <= n);
    assert(sc * (2 * per) <= sc * x) by (nonlinear_arith)
        requires
            2 * (sc * per) <= n,
            n == x * sc,
    ;
    assert(2 * per <= x) by (nonlinear_arith)
        requires
            sc * (2 * per) <= sc * x,
            sc > 0,
    ;
    lemma_div_is_ordered(2 * per, x, 2);
    lemma_div_multiples_vanish(per, 2);
    assert(per <= x / 2);

    // lower bound: the two truncations together lose less than two units
    if 2 * stake <= sc {
        assert(t * q > n - t);
        assert(sc * per > q * stake - sc);
        assert(sc * (2 * per) > n - t - 2 * sc) by (nonlinear_arith)
            requires
                sc * per > q * stake - sc,
                t * q > n - t,
                t * q == 2 * (q * stake),
        ;
        assert(sc * (2 * per) > sc * (x - 3)) by (nonlinear_arith)
            requires
                sc * (2 * per) > n - t - 2 * sc,
                n == x * sc,
                t <= sc,
        ;
        assert(2 * per > x - 3) by (nonlinear_arith)
            requires
                sc * (2 * per) > sc * (x - 3),
                sc > 0,
        ;
        assert(2 * per >= x - 2);
        lemma_div_is_ordered(x - 2, 2 * per, 2);
        assert((x - 2) / 2 == x / 2 - 1) by {
            lemma_fundamental_div_mod(x, 2);
            lemma_fundamental_div_mod(x - 2, 2);
            lemma_mod_bound(x, 2);
            lemma_mod_bound(x - 2, 2);
        }
        assert(per >= x / 2 - 1);
    }
}

/// The reward-per-unit accumulator and the time it was last advanced.
#[derive(Debug, Clone, Copy, PartialEq, Eq, Structural)]
pub struct CumulativeRewards {
    pub rewards_per_token: U256,
    /// Nanoseconds; never past the period finish.
    pub last_update: u64,
}

impl CumulativeRewards {
    /// The accumulator a checkpoint at `now` against `total_staked` units
    /// would yield, without writing it. With no stake at all the
    /// accumulator stays as it is and the elapsed window's emission is
    /// forfeited; otherwise the window's scaled emission per unit is added.
    /// Fails only on 256-bit overflow, which leaves nothing changed.
    pub fn calc_rewards_per_token(&self, now: u64, config: &Config, total_staked: u128) -> (r:
        Result<U256, ContractError>)
        ensures
            match r {
                Ok(v) => spec_calc_rewards_per_token(*self, now, *config, total_staked) == Ok::<
                    int,
                    ContractError,
                >(v.as_int()),
                Err(e) => spec_calc_rewards_per_token(*self, now, *config, total_staked) == Err::<
                    int,
                    ContractError,
                >(e),
            },
            r matches Ok(v) ==> v.as_int() >= self.rewards_per_token.as_int(),
    {
        if total_staked == 0 {
            return Ok(self.rewards_per_token);
        }
        let ws = config.first_reward_time(self.last_update);
        let we = config.last_reward_time(now);
        let ws_whole = (ws / NANOS_PER_SECOND) * NANOS_PER_SECOND;
        let elapsed_sec: u64 = if we >= ws_whole {
            (we - ws_whole) / NANOS_PER_SECOND
        } else {
            0
        };
        assert(elapsed_sec == spec_elapsed_sec(*config, self.last_update, now));
        let rate = U256::from_u128(config.rewards_per_second);
        let elapsed = U256::from_u128(elapsed_sec as u128);
        let m1 = match u256_checked_mul(&rate, &elapsed) {
            Some(v) => v,
            None => {
                proof {
                    assert(config.rewards_per_second * (elapsed_sec as int) <= u256_max())
                        by (nonlinear_arith)
                        requires
                            config.rewards_per_second <= u128::MAX,
                            elapsed_sec <= u64::MAX,
                            u256_max() == crate::wide::pow2_128() * crate::wide::pow2_128() - 1,
                            crate::wide::pow2_128() > u128::MAX,
                            crate::wide::pow2_128() > u64::MAX,
                    ;
                }
                return Err(ContractError::Overflow);
            },
        };
        let num = match u256_checked_mul(&m1, &scale_factor()) {
            Some(v) => v,
            None => {
                return Err(ContractError::Overflow);
            },
        };
        let total = U256::from_u128(total_staked);
        let added = match u256_checked_div(&num, &total) {
            Some(v) => v,
            None => {
                return Err(ContractError::DivideByZero);
            },
        };
        proof {
            assert(added.as_int() >= 0);
        }
        match u256_checked_add(&self.rewards_per_token, &added) {
            Some(v) => Ok(v),
            None => Err(ContractError::Overflow),
        }
    }
}

/// One account's standing against a pool: the accumulator value it last saw,
/// what it has accrued but not claimed, and what it has claimed.
#[derive(Debug, Clone, Copy, PartialEq, Eq, Structural)]
pub struct UserReward {
    pub rewards_checkpoint: U256,
    pub pending_rewards: u128,
    pub claimed_rewards: u128,
}

impl Default for UserReward {
    /// The standing of an account never seen before: all zero.
    fn default() -> (r: UserReward)
        ensures
            r.rewards_checkpoint.as_int() == 0,
            r.pending_rewards == 0,
            r.claimed_rewards == 0,
    {
        UserReward { rewards_checkpoint: U256::zero(), pending_rewards: 0, claimed_rewards: 0 }
    }
}

/// What an account newly accrued: the accumulator growth since its
/// checkpoint, times its stake, scaled back down.
pub open spec fn spec_pending_delta(checkpoint: int, rpt: int, stake: u128) -> int {
    (rpt - checkpoint) * (stake as int) / scale_int()
}

impl UserReward {
    /// The standing after observing accumulator value `rewards_per_token`
    /// with `stake_amount` units staked: the checkpoint moves up to it and
    /// the accrued difference joins the pending rewards. Fails, changing
    /// nothing, if the accumulator ran backwards or the arithmetic leaves
    /// its range.
    pub fn get_next_user_reward(&self, rewards_per_token: U256, stake_amount: u128) -> (r: Result<
        UserReward,
        ContractError,
    >)
        ensures
            ({
                let cp = self.rewards_checkpoint.as_int();
                let rpt = rewards_per_token.as_int();
                match r {
                    Ok(u) => {
                        &&& rpt >= cp
                        &&& (rpt - cp) * (stake_amount as int) <= u256_max()
                        &&& spec_pending_delta(cp, rpt, stake_amount) <= u128::MAX
                        &&& u.rewards_checkpoint == rewards_per_token
                        &&& u.pending_rewards == self.pending_rewards + spec_pending_delta(
                            cp,
                            rpt,
                            stake_amount,
                        )
                        &&& u.claimed_rewards == self.claimed_rewards
                    },
                    Err(ContractError::Overflow) => rpt < cp || (rpt - cp) * (stake_amount as int)
                        > u256_max() || (spec_pending_delta(cp, rpt, stake_amount) <= u128::MAX
                        && self.pending_rewards + spec_pending_delta(cp, rpt, stake_amount)
                        > u128::MAX),
                    Err(ContractError::ConversionOverflow) => spec_pending_delta(
                        cp,
                        rpt,
                        stake_amount,
                    ) > u128::MAX,
                    Err(_) => false,
                }
            }),
    {
        let diff = match u256_checked_sub(&rewards_per_token, &self.rewards_checkpoint) {
            Some(v) => v,
            None => {
                return Err(ContractError::Overflow);
            },
        };
        let stake = U256::from_u128(stake_amount);
        let scaled = match u256_checked_mul(&diff, &stake) {
            Some(v) => v,
            None => {
                return Err(ContractError::Overflow);
            },
        };
        let delta_wide = match u256_checked_div(&scaled, &scale_factor()) {
            Some(v) => v,
            None => {
                proof {
                    assert(scale_int() > 0);
                    assert(false);
                }
                return Err(ContractError::DivideByZero);
            },
        };
        let delta = match delta_wide.try_to_u128() {
            Some(v) => v,
            None => {
                return Err(ContractError::ConversionOverflow);
            },
        };
        let pending = match self.pending_rewards.checked_add(delta) {
            Some(v) => v,
            None => {
                return Err(ContractError::Overflow);
            },
        };
        Ok(
            UserReward {
                rewards_checkpoint: rewards_per_token,
                pending_rewards: pending,
                claimed_rewards: self.claimed_rewards,
            },
        )
    }

    /// Pays the pending rewards out: they move into the claimed total and
    /// the returned amount, and pending drops to zero. A zero pending
    /// amount is a no-op that still succeeds. Fails, changing nothing, only
    /// when the claimed total would overflow.
    pub fn claim_rewards(&mut self) -> (r: Result<u128, ContractError>)
        ensures
            match r {
                Ok(a) => {
                    &&& a == old(self).pending_rewards
                    &&& old(self).claimed_rewards + old(self).pending_rewards <= u128::MAX
                    &&& final(self).claimed_rewards == old(self).claimed_rewards + old(
                        self,
                    ).pending_rewards
                    &&& final(self).pending_rewards == 0
                    &&& final(self).rewards_checkpoint == old(self).rewards_checkpoint
                },
                Err(e) => {
                    &&& e == ContractError::Overflow
                    &&& old(self).claimed_rewards + old(self).pending_rewards > u128::MAX
                    &&& *final(self) == *old(self)
                },
            },
    {
        let claim_amount = self.pending_rewards;
        let claimed = match self.claimed_rewards.checked_add(claim_amount) {
            Some(v) => v,
            None => {
                return Err(ContractError::Overflow);
            },
        };
        self.claimed_rewards = claimed;
        self.pending_rewards = 0;
        Ok(claim_amount)
    }
}

/// One account's standing, keyed by its address.
#[derive(Debug)]
pub struct UserRewardEntry {
    pub addr: String,
    pub reward: UserReward,
}

/// The standing the store holds for an account, if it was ever seen.
pub open spec fn spec_reward_of(entries: Seq<UserRewardEntry>, addr: Seq<char>) -> Option<
    UserReward,
>
    decreases entries.len(),
{
    if entries.len() == 0 {
        None
    } else if entries.first().addr@ == addr {
        Some(entries.first().reward)
    } else {
        spec_reward_of(entries.drop_first(), addr)
    }
}

/// With distinct accounts, position `i` is the entry its account resolves
/// to.
proof fn lemma_reward_of_at(entries: Seq<UserRewardEntry>, i: int)
    requires
        0 <= i < entries.len(),
        forall|p: int, q: int|
            0 <= p < q < entries.len() ==> entries[p].addr@ != entries[q].addr@,
    ensures
        spec_reward_of(entries, entries[i].addr@) == Some(entries[i].reward),
    decreases entries.len(),
{
    if i > 0 {
        assert(entries.drop_first()[i - 1] == entries[i]);
        lemma_reward_of_at(entries.drop_first(), i - 1);
    }
}

/// Overwriting position `i` moves only its own account's standing.
proof fn lemma_reward_of_update(entries: Seq<UserRewardEntry>, i: int, e: UserRewardEntry, a: Seq<
    char,
>)
    requires
        0 <= i < entries.len(),
        entries[i].addr@ == e.addr@,
        forall|p: int, q: int|
            0 <= p < q < entries.len() ==> entries[p].addr@ != entries[q].addr@,
    ensures
        spec_reward_of(entries.update(i, e), a) == (if a == e.addr@ {
            Some(e.reward)
        } else {
            spec_reward_of(entries, a)
        }),
    decreases entries.len(),
{
    if i == 0 {
        assert(entries.update(0, e).first() == e);
        assert(entries.update(0, e).drop_first() =~= entries.drop_first());
        if a == e.addr@ {
        } else {
        }
    } else {
        assert(entries.update(i, e).first() == entries.first());
        assert(entries.update(i, e).drop_first() =~= entries.drop_first().update(i - 1, e));
        assert(entries.drop_first()[i - 1] == entries[i]);
        if a == e.addr@ && entries.first().addr@ == a {
            assert(entries[0].addr@ != entries[i].addr@);
        }
        lemma_reward_of_update(entries.drop_first(), i - 1, e, a);
    }
}

/// Appending an account never seen resolves it to the new entry and leaves
/// every other account as it was.
proof fn lemma_reward_of_push(entries: Seq<UserRewardEntry>, e: UserRewardEntry, a: Seq<char>)
    requires
        spec_reward_of(entries, e.addr@) is None,
    ensures
        spec_reward_of(entries.push(e), a) == (if a == e.addr@ {
            Some(e.reward)
        } else {
            spec_reward_of(entries, a)
        }),
    decreases entries.len(),
{
    if entries.len() == 0 {
        assert(entries.push(e).first() == e);
        assert(entries.push(e).drop_first() =~= Seq::<UserRewardEntry>::empty());
        assert(spec_reward_of(entries.push(e).drop_first(), a) is None);
    } else {
        assert(entries.push(e).first() == entries.first());
        assert(entries.push(e).drop_first() =~= entries.drop_first().push(e));
        lemma_reward_of_push(entries.drop_first(), e, a);
    }
}

/// A pool instance: its immutable schedule, its accumulator and the
/// standings of every account it has seen.
#[derive(Debug)]
pub struct StakeExternalRewardsContract {
    pub config: Config,
    pub rewards: CumulativeRewards,
    pub user_rewards: Vec<UserRewardEntry>,
}

/// What one claim pays out, for the host to transfer.
#[derive(Debug)]
pub struct PayoutMsg {
    pub recipient: String,
    pub asset: RewardAsset,
    pub amount: u128,
}

impl StakeExternalRewardsContract {
    /// Accounts in the standing store are distinct.
    pub open spec fn wf(&self) -> bool {
        forall|p: int, q: int|
            0 <= p < q < self.user_rewards@.len() ==> self.user_rewards@[p].addr@
                != self.user_rewards@[q].addr@
    }

    /// The standing of an account: what the store holds, or the all-zero
    /// default for one never seen.
    pub open spec fn spec_user_reward(&self, addr: Seq<char>) -> UserReward {
        match spec_reward_of(self.user_rewards@, addr) {
            Some(u) => u,
            None => UserReward {
                rewards_checkpoint: U256 { hi: 0, lo: 0 },
                pending_rewards: 0,
                claimed_rewards: 0,
            },
        }
    }

    /// Creates a pool funded with `fund_amount` over `duration_sec`
    /// seconds, emitting from `period_start` at the fixed rate
    /// `fund_amount / duration_sec`. Rejected before any state exists: a
    /// period starting in the past, a zero funding, a zero duration, a
    /// rate that truncates to zero, and a finish time beyond the clock's
    /// range.
    pub fn instantiate(
        now: u64,
        stake: String,
        reward_asset: RewardAsset,
        period_start: u64,
        duration_sec: u64,
        fund_amount: u128,
    ) -> (r: Result<StakeExternalRewardsContract, ContractError>)
        ensures
            ({
                let finish_ok = (now / NANOS_PER_SECOND) + duration_sec <= u64::MAX && ((now
                    / NANOS_PER_SECOND) + duration_sec) * NANOS_PER_SECOND <= u64::MAX;
                match r {
                    Ok(c) => {
                        &&& period_start >= now
                        &&& fund_amount > 0
                        &&& duration_sec > 0
                        &&& fund_amount / (duration_sec as u128) > 0
                        &&& finish_ok
                        &&& c.config.stake == stake
                        &&& c.config.reward_asset == reward_asset
                        &&& c.config.period_start == period_start
                        &&& c.config.duration_sec == duration_sec
                        &&& c.config.period_finish == ((now / NANOS_PER_SECOND) + duration_sec)
                            * NANOS_PER_SECOND
                        &&& c.config.rewards_per_second == fund_amount / (duration_sec as u128)
                        &&& c.rewards.rewards_per_token.as_int() == 0
                        &&& c.rewards.last_update == now
                        &&& c.user_rewards@ == Seq::<UserRewardEntry>::empty()
                        &&& c.wf()
                    },
                    Err(ContractError::InvalidInput(_)) => period_start < now || (period_start
                        >= now && fund_amount == 0) || (period_start >= now && fund_amount > 0
                        && finish_ok && duration_sec > 0 && fund_amount / (duration_sec as u128)
                        == 0),
                    Err(ContractError::Overflow) => period_start >= now && fund_amount > 0
                        && !finish_ok,
                    Err(ContractError::DivideByZero) => period_start >= now && fund_amount > 0
                        && finish_ok && duration_sec == 0,
                    Err(_) => false,
                }
            }),
    {
        if period_start < now {
            return Err(
                ContractError::InvalidInput(
                    String::from_str("period start must be at least current time"),
                ),
            );
        }
        if fund_amount == 0 {
            return Err(
                ContractError::InvalidInput(
                    String::from_str("fund amount must be greater than zero"),
                ),
            );
        }
        let now_sec = now / NANOS_PER_SECOND;
        let finish_sec = match now_sec.checked_add(duration_sec) {
            Some(v) => v,
            None => {
                return Err(ContractError::Overflow);
            },
        };
        let period_finish = match finish_sec.checked_mul(NANOS_PER_SECOND) {
            Some(v) => v,
            None => {
                return Err(ContractError::Overflow);
            },
        };
        if duration_sec == 0 {
            return Err(ContractError::DivideByZero);
        }
        let rewards_per_second = fund_amount / (duration_sec as u128);
        if rewards_per_second == 0 {
            return Err(
                ContractError::InvalidInput(
                    String::from_str("reward rate must be greater than zero"),
                ),
            );
        }
        Ok(
            StakeExternalRewardsContract {
                config: Config {
                    stake,
                    reward_asset,
                    period_start,
                    duration_sec,
                    period_finish,
                    rewards_per_second,
                },
                rewards: CumulativeRewards {
                    rewards_per_token: U256::zero(),
                    last_update: now,
                },
                user_rewards: Vec::new(),
            },
        )
    }

    /// Advances the accumulator to `now` against the reported total stake
    /// and stamps the checkpoint time, clamped to the period finish. The
    /// accumulator never decreases; on failure nothing changes.
    pub fn update_rewards(&mut self, now: u64, total_staked: u128) -> (r: Result<
        CumulativeRewards,
        ContractError,
    >)
        ensures
            final(self).config == old(self).config,
            final(self).user_rewards == old(self).user_rewards,
            match r {
                Ok(c) => {
                    &&& c == final(self).rewards
                    &&& spec_calc_rewards_per_token(
                        old(self).rewards,
                        now,
                        old(self).config,
                        total_staked,
                    ) == Ok::<int, ContractError>(c.rewards_per_token.as_int())
                    &&& c.rewards_per_token.as_int()
                        >= old(self).rewards.rewards_per_token.as_int()
                    &&& c.last_update == (if now < old(self).config.period_finish {
                        now
                    } else {
                        old(self).config.period_finish
                    })
                },
                Err(e) => {
                    &&& *final(self) == *old(self)
                    &&& spec_calc_rewards_per_token(
                        old(self).rewards,
                        now,
                        old(self).config,
                        total_staked,
                    ) == Err::<int, ContractError>(e)
                },
            },
    {
        let rpt = match self.rewards.calc_rewards_per_token(now, &self.config, total_staked) {
            Ok(v) => v,
            Err(e) => {
                return Err(e);
            },
        };
        let last_update = self.config.last_reward_time(now);
        self.rewards = CumulativeRewards { rewards_per_token: rpt, last_update };
        Ok(self.rewards)
    }

    /// Looks an account's stored standing up, without defaulting.
    fn find_user(&self, addr: &String) -> (r: Option<usize>)
        requires
            self.wf(),
        ensures
            match r {
                Some(i) => i < self.user_rewards@.len() && self.user_rewards@[i as int].addr@
                    == addr@ && spec_reward_of(self.user_rewards@, addr@) == Some(
                    self.user_rewards@[i as int].reward,
                ),
                None => spec_reward_of(self.user_rewards@, addr@) is None,
            },
    {
        let mut i: usize = 0;
        while i < self.user_rewards.len()
            invariant
                i <= self.user_rewards@.len(),
                self.wf(),
                forall|j: int| 0 <= j < i ==> self.user_rewards@[j].addr@ != addr@,
            decreases self.user_rewards@.len() - i,
        {
            if self.user_rewards[i].addr == *addr {
                proof {
                    lemma_reward_of_at(self.user_rewards@, i as int);
                }
                return Some(i);
            }
            i = i + 1;
        }
        proof {
            lemma_reward_of_none(self.user_rewards@, addr@);
        }
        None
    }

    /// Stores an account's standing, replacing what was there.
    fn save_user(&mut self, addr: &String, reward: UserReward)
        requires
            old(self).wf(),
        ensures
            final(self).wf(),
            final(self).config == old(self).config,
            final(self).rewards == old(self).rewards,
            spec_reward_of(final(self).user_rewards@, addr@) == Some(reward),
            forall|a: Seq<char>|
                a != addr@ ==> spec_reward_of(final(self).user_rewards@, a) == spec_reward_of(
                    old(self).user_rewards@,
                    a,
                ),
    {
        let ghost pre = self.user_rewards@;
        match self.find_user(addr) {
            Some(i) => {
                let e = UserRewardEntry { addr: addr.clone(), reward };
                self.user_rewards[i] = e;
                proof {
                    assert forall|a: Seq<char>| true implies spec_reward_of(
                        self.user_rewards@,
                        a,
                    ) == (if a == addr@ {
                        Some(reward)
                    } else {
                        spec_reward_of(pre, a)
                    }) by {
                        lemma_reward_of_update(pre, i as int, e, a);
                    }
                    assert forall|p: int, q: int|
                        0 <= p < q < self.user_rewards@.len() implies self.user_rewards@[p].addr@
                        != self.user_rewards@[q].addr@ by {
                        assert(pre[p].addr@ != pre[q].addr@);
                    }
                }
            },
            None => {
                let e = UserRewardEntry { addr: addr.clone(), reward };
                self.user_rewards.push(e);
                proof {
                    assert forall|a: Seq<char>| true implies spec_reward_of(
                        self.user_rewards@,
                        a,
                    ) == (if a == addr@ {
                        Some(reward)
                    } else {
                        spec_reward_of(pre, a)
                    }) by {
                        lemma_reward_of_push(pre, e, a);
                    }
                    lemma_reward_none_no_index(pre, addr@);
                    assert forall|p: int, q: int|
                        0 <= p < q < self.user_rewards@.len() implies self.user_rewards@[p].addr@
                        != self.user_rewards@[q].addr@ by {
                        if q < pre.len() {
                            assert(pre[p].addr@ != pre[q].addr@);
                        }
                    }
                }
            },
        }
    }
}

/// Whether the engine refuses the report before touching any state: funds
/// attached, or a reporter other than the registered stake ledger.
pub open spec fn spec_report_refused(cfg: Config, funds: Seq<Coin>, sender: Seq<char>) -> bool {
    funds.len() > 0 || sender != cfg.stake@
}

impl RewardAsset {
    /// A copy of the asset.
    pub fn duplicate(&self) -> (r: RewardAsset)
        ensures
            r == *self,
    {
        match self {
            RewardAsset::Native(d) => RewardAsset::Native(d.clone()),
            RewardAsset::Cw20(c) => RewardAsset::Cw20(c.clone()),
        }
    }
}

impl StakeExternalRewardsContract {
    /// Checkpoints the pool at `now` against the reported total stake and
    /// moves the recipient's standing up to the new accumulator, folding
    /// its accrued difference into its pending rewards. Only the
    /// registered stake ledger may report, with no funds attached; any
    /// failure leaves the pool exactly as it was.
    pub fn stake_change(
        &mut self,
        now: u64,
        funds: &Vec<Coin>,
        sender: &String,
        recipient: &String,
        staked_amount: u128,
        total_staked: u128,
    ) -> (r: Result<(), ContractError>)
        requires
            old(self).wf(),
        ensures
            final(self).wf(),
            final(self).config == old(self).config,
            match r {
                Ok(_) => {
                    let prev = old(self).spec_user_reward(recipient@);
                    let rpt = final(self).rewards.rewards_per_token;
                    &&& !spec_report_refused(old(self).config, funds@, sender@)
                    &&& spec_calc_rewards_per_token(
                        old(self).rewards,
                        now,
                        old(self).config,
                        total_staked,
                    ) == Ok::<int, ContractError>(rpt.as_int())
                    &&& rpt.as_int() >= old(self).rewards.rewards_per_token.as_int()
                    &&& final(self).rewards.last_update == (if now
                        < old(self).config.period_finish {
                        now
                    } else {
                        old(self).config.period_finish
                    })
                    &&& spec_reward_of(final(self).user_rewards@, recipient@) matches Some(u) && u
                        == (UserReward {
                        rewards_checkpoint: rpt,
                        pending_rewards: (prev.pending_rewards + spec_pending_delta(
                            prev.rewards_checkpoint.as_int(),
                            rpt.as_int(),
                            staked_amount,
                        )) as u128,
                        claimed_rewards: prev.claimed_rewards,
                    })
                    &&& forall|a: Seq<char>|
                        a != recipient@ ==> spec_reward_of(final(self).user_rewards@, a)
                            == spec_reward_of(old(self).user_rewards@, a)
                },
                Err(e) => {
                    &&& *final(self) == *old(self)
                    &&& match e {
                        ContractError::Payment(PaymentError::NonPayable) => funds@.len() > 0,
                        ContractError::Unauthorized(_) => funds@.len() == 0 && sender@ != old(
                            self,
                        ).config.stake@,
                        _ => {
                            &&& !spec_report_refused(old(self).config, funds@, sender@)
                            &&& match spec_calc_rewards_per_token(
                                old(self).rewards,
                                now,
                                old(self).config,
                                total_staked,
                            ) {
                                Err(e2) => e == e2,
                                Ok(rpt) => {
                                    let prev = old(self).spec_user_reward(recipient@);
                                    let cp = prev.rewards_checkpoint.as_int();
                                    let delta = spec_pending_delta(cp, rpt, staked_amount);
                                    ||| (e == ContractError::Overflow && (rpt < cp || (rpt - cp)
                                        * (staked_amount as int) > u256_max() || (delta
                                        <= u128::MAX && prev.pending_rewards + delta
                                        > u128::MAX)))
                                    ||| (e == ContractError::ConversionOverflow && delta
                                        > u128::MAX)
                                },
                            }
                        },
                    }
                },
            },
    {
        if let Err(p) = nonpayable(funds) {
            return Err(ContractError::Payment(p));
        }
        if !(*sender == self.config.stake) {
            return Err(
                ContractError::Unauthorized(
                    String::from_str("sender is not the stake contract"),
                ),
            );
        }
        let rpt = match self.rewards.calc_rewards_per_token(now, &self.config, total_staked) {
            Ok(v) => v,
            Err(e) => {
                return Err(e);
            },
        };
        let current = match self.find_user(recipient) {
            Some(i) => self.user_rewards[i].reward,
            None => UserReward::default(),
        };
        let next = match current.get_next_user_reward(rpt, staked_amount) {
            Ok(u) => u,
            Err(e) => {
                return Err(e);
            },
        };
        let last_update = self.config.last_reward_time(now);
        self.rewards = CumulativeRewards { rewards_per_token: rpt, last_update };
        self.save_user(recipient, next);
        Ok(())
    }

    /// Like a stake-change report, and then pays the recipient's pending
    /// rewards out: the returned transfer carries them, they move into the
    /// claimed total, and pending drops to zero. A recipient with nothing
    /// pending gets no transfer, but its checkpoint and the pool's clock
    /// still advance. Any failure leaves the pool exactly as it was.
    pub fn claim_rewards(
        &mut self,
        now: u64,
        funds: &Vec<Coin>,
        sender: &String,
        recipient: &String,
        staked_amount: u128,
        total_staked: u128,
    ) -> (r: Result<Option<PayoutMsg>, ContractError>)
        requires
            old(self).wf(),
        ensures
            final(self).wf(),
            final(self).config == old(self).config,
            match r {
                Ok(payout) => {
                    let prev = old(self).spec_user_reward(recipient@);
                    let rpt = final(self).rewards.rewards_per_token;
                    let owed = prev.pending_rewards + spec_pending_delta(
                        prev.rewards_checkpoint.as_int(),
                        rpt.as_int(),
                        staked_amount,
                    );
                    &&& !spec_report_refused(old(self).config, funds@, sender@)
                    &&& spec_calc_rewards_per_token(
                        old(self).rewards,
                        now,
                        old(self).config,
                        total_staked,
                    ) == Ok::<int, ContractError>(rpt.as_int())
                    &&& rpt.as_int() >= old(self).rewards.rewards_per_token.as_int()
                    &&& final(self).rewards.last_update == (if now
                        < old(self).config.period_finish {
                        now
                    } else {
                        old(self).config.period_finish
                    })
                    &&& spec_reward_of(final(self).user_rewards@, recipient@) matches Some(u) && u
                        == (UserReward {
                        rewards_checkpoint: rpt,
                        pending_rewards: 0,
                        claimed_rewards: (prev.claimed_rewards + owed) as u128,
                    })
                    &&& forall|a: Seq<char>|
                        a != recipient@ ==> spec_reward_of(final(self).user_rewards@, a)
                            == spec_reward_of(old(self).user_rewards@, a)
                    &&& match payout {
                        Some(p) => owed > 0 && p.amount == owed && p.recipient@ == recipient@
                            && p.asset == old(self).config.reward_asset,
                        None => owed == 0,
                    }
                },
                Err(e) => {
                    &&& *final(self) == *old(self)
                    &&& match e {
                        ContractError::Payment(PaymentError::NonPayable) => funds@.len() > 0,
                        ContractError::Unauthorized(_) => funds@.len() == 0 && sender@ != old(
                            self,
                        ).config.stake@,
                        _ => {
                            &&& !spec_report_refused(old(self).config, funds@, sender@)
                            &&& match spec_calc_rewards_per_token(
                                old(self).rewards,
                                now,
                                old(self).config,
                                total_staked,
                            ) {
                                Err(e2) => e == e2,
                                Ok(rpt) => {
                                    let prev = old(self).spec_user_reward(recipient@);
                                    let cp = prev.rewards_checkpoint.as_int();
                                    let delta = spec_pending_delta(cp, rpt, staked_amount);
                                    let owed = prev.pending_rewards + delta;
                                    ||| (e == ContractError::Overflow && (rpt < cp || (rpt - cp)
                                        * (staked_amount as int) > u256_max() || (delta
                                        <= u128::MAX && owed > u128::MAX) || (owed <= u128::MAX
                                        && prev.claimed_rewards + owed > u128::MAX)))
                                    ||| (e == ContractError::ConversionOverflow && delta
                                        > u128::MAX)
                                },
                            }
                        },
                    }
                },
            },
    {
        if let Err(p) = nonpayable(funds) {
            return Err(ContractError::Payment(p));
        }
        if !(*sender == self.config.stake) {
            return Err(
                ContractError::Unauthorized(
                    String::from_str("sender is not the stake contract"),
                ),
            );
        }
        let rpt = match self.rewards.calc_rewards_per_token(now, &self.config, total_staked) {
            Ok(v) => v,
            Err(e) => {
                return Err(e);
            },
        };
        let current = match self.find_user(recipient) {
            Some(i) => self.user_rewards[i].reward,
            None => UserReward::default(),
        };
        let mut next = match current.get_next_user_reward(rpt, staked_amount) {
            Ok(u) => u,
            Err(e) => {
                return Err(e);
            },
        };
        let payout: Option<PayoutMsg> = if next.pending_rewards > 0 {
            let amount = match next.claim_rewards() {
                Ok(a) => a,
                Err(e) => {
                    return Err(e);
                },
            };
            Some(
                PayoutMsg {
                    recipient: recipient.clone(),
                    asset: self.config.reward_asset.duplicate(),
                    amount,
                },
            )
        } else {
            None
        };
        let last_update = self.config.last_reward_time(now);
        self.rewards = CumulativeRewards { rewards_per_token: rpt, last_update };
        self.save_user(recipient, next);
        Ok(payout)
    }

    /// The recipient's standing as a checkpoint right now would leave it,
    /// computed without touching any state: what a display surface shows.
    /// It succeeds exactly where a stake-change report would, and fails
    /// with exactly the arithmetic error that report would fail with.
    pub fn latest_user_reward(
        &self,
        now: u64,
        address: &String,
        staked_amount: u128,
        total_staked: u128,
    ) -> (r: Result<Option<UserReward>, ContractError>)
        requires
            self.wf(),
        ensures
            match r {
                Ok(opt) => opt matches Some(u) && {
                    let prev = self.spec_user_reward(address@);
                    &&& spec_calc_rewards_per_token(self.rewards, now, self.config, total_staked)
                        == Ok::<int, ContractError>(u.rewards_checkpoint.as_int())
                    &&& u.pending_rewards == prev.pending_rewards + spec_pending_delta(
                        prev.rewards_checkpoint.as_int(),
                        u.rewards_checkpoint.as_int(),
                        staked_amount,
                    )
                    &&& u.claimed_rewards == prev.claimed_rewards
                },
                Err(e) => match spec_calc_rewards_per_token(
                    self.rewards,
                    now,
                    self.config,
                    total_staked,
                ) {
                    Err(e2) => e == e2,
                    Ok(rpt) => {
                        let prev = self.spec_user_reward(address@);
                        let cp = prev.rewards_checkpoint.as_int();
                        let delta = spec_pending_delta(cp, rpt, staked_amount);
                        ||| (e == ContractError::Overflow && (rpt < cp || (rpt - cp) * (
                        staked_amount as int) > u256_max() || (delta <= u128::MAX
                            && prev.pending_rewards + delta > u128::MAX)))
                        ||| (e == ContractError::ConversionOverflow && delta > u128::MAX)
                    },
                },
            },
    {
        let rpt = match self.rewards.calc_rewards_per_token(now, &self.config, total_staked) {
            Ok(v) => v,
            Err(e) => {
                return Err(e);
            },
        };
        let current = match self.find_user(address) {
            Some(i) => self.user_rewards[i].reward,
            None => UserReward::default(),
        };
        let next = match current.get_next_user_reward(rpt, staked_amount) {
            Ok(u) => u,
            Err(e) => {
                return Err(e);
            },
        };
        Ok(Some(next))
    }

    /// The pool's emission schedule.
    pub fn config(&self) -> (r: &Config)
        ensures
            r == &self.config,
    {
        &self.config
    }

    /// The pool's accumulator and checkpoint time.
    pub fn rewards(&self) -> (r: CumulativeRewards)
        ensures
            r == self.rewards,
    {
        self.rewards
    }

    /// The stored standing of an account, or nothing for one never seen.
    pub fn user_reward(&self, address: &String) -> (r: Option<UserReward>)
        requires
            self.wf(),
        ensures
            r == spec_reward_of(self.user_rewards@, address@),
    {
        match self.find_user(address) {
            Some(i) => Some(self.user_rewards[i].reward),
            None => None,
        }
    }
}

/// An account no position holds resolves to nothing.
proof fn lemma_reward_of_none(entries: Seq<UserRewardEntry>, addr: Seq<char>)
    requires
        forall|j: int| 0 <= j < entries.len() ==> entries[j].addr@ != addr,
    ensures
        spec_reward_of(entries, addr) is None,
    decreases entries.len(),
{
    if entries.len() > 0 {
        assert(forall|j: int|
            0 <= j < entries.drop_first().len() ==> entries.drop_first()[j] == entries[j + 1]);
        lemma_reward_of_none(entries.drop_first(), addr);
    }
}

/// An account the store does not resolve sits at no position.
proof fn lemma_reward_none_no_index(entries: Seq<UserRewardEntry>, addr: Seq<char>)
    requires
        spec_reward_of(entries, addr) is None,
    ensures
        forall|j: int| 0 <= j < entries.len() ==> entries[j].addr@ != addr,
    decreases entries.len(),
{
    if entries.len() > 0 {
        lemma_reward_none_no_index(entries.drop_first(), addr);
        assert forall|j: int| 0 <= j < entries.len() implies entries[j].addr@ != addr by {
            if j > 0 {
                assert(entries.drop_first()[j - 1] == entries[j]);
            }
        }
    }
}

} // verus!
