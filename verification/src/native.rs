//! Fungible stake ledger: one scalar balance per account.
//!
//! The fungible vault locks a single native denomination. An account's
//! effective stake is simply its balance, so the global total in the
//! height-indexed snapshot equals the sum of all balances across every
//! operation. Each account's balance keeps its own height-indexed history,
//! queryable at any past height. Withdrawn balances wait in the same
//! delayed-claim queue discipline as non-fungible items, with a record's
//! size being its amount.

use vstd::prelude::*;

use crate::claim::{spec_expired, BlockInfo, Expiration};
use crate::error::ContractError;
use crate::pay::{must_pay, Coin};
use crate::rewards::NANOS_PER_SECOND;
use crate::snapshot::SnapshotStore;
use crate::vault_ops::{setup_stake_change_messages, ClaimRewardsMsg, StakeChangeMsg};

verus! {

/// The fungible vault's configuration: the reward-pool code template, the
/// staked denomination and the withdrawal delay.
#[derive(Debug)]
pub struct NativeConfig {
    pub rewards_code_id: u64,
    pub denom: String,
    pub unstaking_duration_sec: u64,
}

/// One account's balance history: the balance in effect after each height
/// at which it changed.
#[derive(Debug)]
pub struct BalanceEntry {
    pub addr: String,
    pub history: SnapshotStore,
}

/// One time-locked withdrawal record of a balance.
#[derive(Debug, Clone, Copy, PartialEq, Eq, Structural)]
pub struct NativeClaim {
    pub amount: u128,
    pub release_at: Expiration,
}

/// The claim records of one account, in creation order.
#[derive(Debug)]
pub struct NativeAccountClaims {
    pub addr: String,
    pub claims: Vec<NativeClaim>,
}

/// The current balance an entry holds.
pub open spec fn spec_entry_balance(e: BalanceEntry) -> u128 {
    if e.history@.len() == 0 {
        0
    } else {
        e.history.spec_current()
    }
}

/// The balance the ledger holds for an account; zero when it has no entry.
pub open spec fn spec_balance_of(entries: Seq<BalanceEntry>, addr: Seq<char>) -> u128
    decreases entries.len(),
{
    if entries.len() == 0 {
        0
    } else if entries.first().addr@ == addr {
        spec_entry_balance(entries.first())
    } else {
        spec_balance_of(entries.drop_first(), addr)
    }
}

/// The balance history the ledger holds for an account.
pub open spec fn spec_history_of(entries: Seq<BalanceEntry>, addr: Seq<char>) -> Seq<
    crate::snapshot::SnapshotEntry,
>
    decreases entries.len(),
{
    if entries.len() == 0 {
        Seq::empty()
    } else if entries.first().addr@ == addr {
        entries.first().history@
    } else {
        spec_history_of(entries.drop_first(), addr)
    }
}

/// The sum of all balances in the ledger.
pub open spec fn spec_sum_balances(entries: Seq<BalanceEntry>) -> int
    decreases entries.len(),
{
    if entries.len() == 0 {
        0
    } else {
        spec_entry_balance(entries.first()) + spec_sum_balances(entries.drop_first())
    }
}

/// The claim records the queue holds for an account.
pub open spec fn spec_native_claims_of(entries: Seq<NativeAccountClaims>, addr: Seq<char>) -> Seq<
    NativeClaim,
>
    decreases entries.len(),
{
    if entries.len() == 0 {
        Seq::empty()
    } else if entries.first().addr@ == addr {
        entries.first().claims@
    } else {
        spec_native_claims_of(entries.drop_first(), addr)
    }
}

/// Which balances a sweep releases: in stored order, a record leaves
/// exactly when it has matured and, under a cap, the released sum plus its
/// amount stays within the cap. The first component is the released sum,
/// the second the remaining records in original order.
pub open spec fn spec_native_release(
    claims: Seq<NativeClaim>,
    block: BlockInfo,
    cap: Option<u128>,
    sent: int,
) -> (int, Seq<NativeClaim>)
    decreases claims.len(),
{
    if claims.len() == 0 {
        (0int, Seq::<NativeClaim>::empty())
    } else {
        let c = claims.first();
        if spec_expired(c.release_at, block) && (match cap {
            None => true,
            Some(k) => sent + c.amount <= k,
        }) {
            let r = spec_native_release(claims.drop_first(), block, cap, sent + c.amount);
            (c.amount + r.0, r.1)
        } else {
            let r = spec_native_release(claims.drop_first(), block, cap, sent);
            (r.0, seq![c] + r.1)
        }
    }
}

/// With distinct accounts, position `i` is the entry its account resolves
/// to.
proof fn lemma_balance_at(entries: Seq<BalanceEntry>, i: int)
    requires
        0 <= i < entries.len(),
        forall|p: int, q: int|
            0 <= p < q < entries.len() ==> entries[p].addr@ != entries[q].addr@,
    ensures
        spec_balance_of(entries, entries[i].addr@) == spec_entry_balance(entries[i]),
        spec_history_of(entries, entries[i].addr@) == entries[i].history@,
    decreases entries.len(),
{
    if i > 0 {
        assert(entries.drop_first()[i - 1] == entries[i]);
        lemma_balance_at(entries.drop_first(), i - 1);
    }
}

/// An account no entry holds has a zero balance and an empty history.
proof fn lemma_balance_absent(entries: Seq<BalanceEntry>, addr: Seq<char>)
    requires
        forall|j: int| 0 <= j < entries.len() ==> entries[j].addr@ != addr,
    ensures
        spec_balance_of(entries, addr) == 0,
        spec_history_of(entries, addr) == Seq::<crate::snapshot::SnapshotEntry>::empty(),
    decreases entries.len(),
{
    if entries.len() > 0 {
        assert(forall|j: int|
            0 <= j < entries.drop_first().len() ==> entries.drop_first()[j] == entries[j + 1]);
        lemma_balance_absent(entries.drop_first(), addr);
    }
}

/// Overwriting position `i` moves only its account's balance, and the sum
/// by exactly the difference.
proof fn lemma_balance_update(entries: Seq<BalanceEntry>, i: int, e: BalanceEntry, a: Seq<char>)
    requires
        0 <= i < entries.len(),
        entries[i].addr@ == e.addr@,
        forall|p: int, q: int|
            0 <= p < q < entries.len() ==> entries[p].addr@ != entries[q].addr@,
    ensures
        spec_balance_of(entries.update(i, e), a) == (if a == e.addr@ {
            spec_entry_balance(e)
        } else {
            spec_balance_of(entries, a)
        }),
        spec_history_of(entries.update(i, e), a) == (if a == e.addr@ {
            e.history@
        } else {
            spec_history_of(entries, a)
        }),
        spec_sum_balances(entries.update(i, e)) == spec_sum_balances(entries) - spec_entry_balance(
            entries[i],
        ) + spec_entry_balance(e),
    decreases entries.len(),
{
    if i == 0 {
        assert(entries.update(0, e).first() == e);
        assert(entries.update(0, e).drop_first() =~= entries.drop_first());
    } else {
        assert(entries.update(i, e).first() == entries.first());
        assert(entries.update(i, e).drop_first() =~= entries.drop_first().update(i - 1, e));
        assert(entries.drop_first()[i - 1] == entries[i]);
        if a == e.addr@ && entries.first().addr@ == a {
            assert(entries[0].addr@ != entries[i].addr@);
        }
        lemma_balance_update(entries.drop_first(), i - 1, e, a);
    }
}

/// Appending an account never seen adds its balance to the sum and leaves
/// every other account alone.
proof fn lemma_balance_push(entries: Seq<BalanceEntry>, e: BalanceEntry, a: Seq<char>)
    requires
        forall|j: int| 0 <= j < entries.len() ==> entries[j].addr@ != e.addr@,
    ensures
        spec_balance_of(entries.push(e), a) == (if a == e.addr@ {
            spec_entry_balance(e)
        } else {
            spec_balance_of(entries, a)
        }),
        spec_history_of(entries.push(e), a) == (if a == e.addr@ {
            e.history@
        } else {
            spec_history_of(entries, a)
        }),
        spec_sum_balances(entries.push(e)) == spec_sum_balances(entries) + spec_entry_balance(e),
    decreases entries.len(),
{
    if entries.len() == 0 {
        assert(entries.push(e).first() == e);
        assert(entries.push(e).drop_first() =~= Seq::<BalanceEntry>::empty());
        assert(spec_balance_of(entries.push(e).drop_first(), a) == 0);
        assert(spec_balance_of(entries, a) == 0);
        assert(spec_history_of(entries.push(e).drop_first(), a) == Seq::<
            crate::snapshot::SnapshotEntry,
        >::empty());
        assert(spec_history_of(entries, a) == Seq::<crate::snapshot::SnapshotEntry>::empty());
        assert(spec_sum_balances(entries.push(e).drop_first()) == 0);
    } else {
        assert(entries.push(e).first() == entries.first());
        assert(entries.push(e).drop_first() =~= entries.drop_first().push(e));
        assert(forall|j: int|
            0 <= j < entries.drop_first().len() ==> entries.drop_first()[j] == entries[j + 1]);
        lemma_balance_push(entries.drop_first(), e, a);
    }
}

/// The fungible vault: balances with their histories, the height-indexed
/// total, the withdrawal queue and the registered reward pools.
pub struct StakeNativeContract {
    pub config: NativeConfig,
    pub reward_accounts: Vec<String>,
    pub balances: Vec<BalanceEntry>,
    pub total_staked_amount: SnapshotStore,
    pub claims: Vec<NativeAccountClaims>,
}

impl StakeNativeContract {
    /// Well-formedness: distinct accounts, sound histories, and the
    /// ledger invariant that the snapshot's current value is the sum of
    /// all balances.
    pub open spec fn wf(&self) -> bool {
        &&& forall|p: int, q: int|
            0 <= p < q < self.balances@.len() ==> self.balances@[p].addr@
                != self.balances@[q].addr@
        &&& forall|j: int|
            0 <= j < self.balances@.len() ==> (#[trigger] self.balances@[j]).history.wf()
                && self.balances@[j].history@.len() > 0
        &&& forall|p: int, q: int|
            0 <= p < q < self.claims@.len() ==> self.claims@[p].addr@ != self.claims@[q].addr@
        &&& self.total_staked_amount.wf()
        &&& self.total_staked_amount@.len() > 0
        &&& self.total_staked_amount.spec_current() == spec_sum_balances(self.balances@)
    }

    /// Creates the vault with every store empty and a total of zero
    /// recorded at the creation height.
    pub fn instantiate(config: NativeConfig, height: u64) -> (r: StakeNativeContract)
        ensures
            r.wf(),
            r.config == config,
            r.reward_accounts@ == Seq::<String>::empty(),
            r.balances@ == Seq::<BalanceEntry>::empty(),
            r.claims@ == Seq::<NativeAccountClaims>::empty(),
            r.total_staked_amount.spec_current() == 0,
            r.total_staked_amount@.last().height == height,
    {
        let mut total = SnapshotStore::new();
        let rec = total.record(0, height);
        proof {
            assert(rec is Ok);
        }
        StakeNativeContract {
            config,
            reward_accounts: Vec::new(),
            balances: Vec::new(),
            total_staked_amount: total,
            claims: Vec::new(),
        }
    }

    /// The position of the account's balance entry, if it has one.
    fn find_balance(&self, addr: &String) -> (r: Option<usize>)
        requires
            self.wf(),
        ensures
            match r {
                Some(i) => i < self.balances@.len() && self.balances@[i as int].addr@ == addr@
                    && spec_balance_of(self.balances@, addr@) == spec_entry_balance(
                    self.balances@[i as int],
                ) && spec_history_of(self.balances@, addr@) == self.balances@[i as int].history@,
                None => spec_balance_of(self.balances@, addr@) == 0 && spec_history_of(
                    self.balances@,
                    addr@,
                ) == Seq::<crate::snapshot::SnapshotEntry>::empty() && (forall|j: int|
                    0 <= j < self.balances@.len() ==> self.balances@[j].addr@ != addr@),
            },
    {
        let mut i: usize = 0;
        while i < self.balances.len()
            invariant
                i <= self.balances@.len(),
                self.wf(),
                forall|j: int| 0 <= j < i ==> self.balances@[j].addr@ != addr@,
            decreases self.balances@.len() - i,
        {
            if self.balances[i].addr == *addr {
                proof {
                    lemma_balance_at(self.balances@, i as int);
                }
                return Some(i);
            }
            i = i + 1;
        }
        proof {
            lemma_balance_absent(self.balances@, addr@);
        }
        None
    }

    /// Stakes the single attached coin of the configured denomination for
    /// `sender`: its amount joins the sender's balance and the total,
    /// both recorded at the current height, and one stake-change report
    /// per reward pool carries the pre-operation figures. Every failure
    /// leaves the vault unchanged.
    pub fn stake(&mut self, block: &BlockInfo, sender: &String, funds: &Vec<Coin>) -> (r: Result<
        Vec<StakeChangeMsg>,
        ContractError,
    >)
        requires
            old(self).wf(),
            block.height >= old(self).total_staked_amount@.last().height,
            forall|j: int|
                0 <= j < old(self).balances@.len() ==> (#[trigger] old(
                    self,
                ).balances@[j]).history@.last().height <= block.height,
        ensures
            final(self).wf(),
            final(self).config == old(self).config,
            final(self).reward_accounts == old(self).reward_accounts,
            final(self).claims == old(self).claims,
            ({
                let balance0 = spec_balance_of(old(self).balances@, sender@);
                let total0 = old(self).total_staked_amount.spec_current();
                match r {
                    Ok(msgs) => {
                        &&& funds@.len() == 1 && funds@[0].denom@ == old(self).config.denom@
                            && funds@[0].amount > 0
                        &&& balance0 + funds@[0].amount <= u128::MAX
                        &&& total0 + funds@[0].amount <= u128::MAX
                        &&& spec_balance_of(final(self).balances@, sender@) == balance0
                            + funds@[0].amount
                        &&& forall|a: Seq<char>|
                            a != sender@ ==> spec_balance_of(final(self).balances@, a)
                                == spec_balance_of(old(self).balances@, a)
                        &&& final(self).total_staked_amount.spec_current() == total0
                            + funds@[0].amount
                        &&& msgs@.len() == old(self).reward_accounts@.len()
                        &&& forall|i: int|
                            0 <= i < msgs@.len() ==> {
                                &&& (#[trigger] msgs@[i]).contract@ == old(
                                    self,
                                ).reward_accounts@[i]@
                                &&& msgs@[i].recipient@ == sender@
                                &&& msgs@[i].staked_amount == balance0
                                &&& msgs@[i].total_staked == total0
                            }
                    },
                    Err(e) => {
                        &&& *final(self) == *old(self)
                        &&& match e {
                            ContractError::Payment(p) => match p {
                                crate::error::PaymentError::NoFunds => funds@.len() == 0 || (
                                funds@.len() == 1 && funds@[0].amount == 0),
                                crate::error::PaymentError::MultipleDenoms => funds@.len() > 1,
                                crate::error::PaymentError::MissingDenom(d) => funds@.len() == 1
                                    && funds@[0].amount > 0 && funds@[0].denom@ != old(
                                    self,
                                ).config.denom@ && d@ == old(self).config.denom@,
                                crate::error::PaymentError::NonPayable => false,
                            },
                            ContractError::Overflow => funds@.len() == 1 && funds@[0].denom@
                                == old(self).config.denom@ && funds@[0].amount > 0 && (balance0
                                + funds@[0].amount > u128::MAX || total0 + funds@[0].amount
                                > u128::MAX),
                            _ => false,
                        }
                    },
                }
            }),
    {
        let amount = match must_pay(funds, &self.config.denom) {
            Ok(a) => a,
            Err(p) => {
                return Err(ContractError::Payment(p));
            },
        };
        let idx = self.find_balance(sender);
        let balance_before = match idx {
            Some(i) => self.balances[i].history.load(),
            None => 0,
        };
        let balance_after = match balance_before.checked_add(amount) {
            Some(v) => v,
            None => {
                return Err(ContractError::Overflow);
            },
        };
        let total_before = self.total_staked_amount.load();
        let total_after = match total_before.checked_add(amount) {
            Some(v) => v,
            None => {
                return Err(ContractError::Overflow);
            },
        };
        let msgs = setup_stake_change_messages(
            &self.reward_accounts,
            sender,
            balance_before,
            total_before,
        );
        let ghost pre = self.balances@;
        match idx {
            Some(i) => {
                let mut e = self.balances.remove(i);
                let rec = e.history.record(balance_after, block.height);
                proof {
                    assert(pre[i as int].history@.last().height <= block.height);
                    assert(rec is Ok);
                }
                let ghost e2 = e;
                proof {
                    pre.remove_ensures(i as int);
                }
                self.balances.insert(i, e);
                proof {
                    assert(self.balances@ =~= pre.update(i as int, e2));
                    lemma_balance_update(pre, i as int, e2, sender@);
                    assert forall|a: Seq<char>| a != sender@ implies spec_balance_of(
                        self.balances@,
                        a,
                    ) == spec_balance_of(pre, a) by {
                        lemma_balance_update(pre, i as int, e2, a);
                    }
                    assert forall|p: int, q: int|
                        0 <= p < q < self.balances@.len() implies self.balances@[p].addr@
                        != self.balances@[q].addr@ by {
                        assert(pre[p].addr@ != pre[q].addr@);
                    }
                }
            },
            None => {
                let mut history = SnapshotStore::new();
                let rec = history.record(balance_after, block.height);
                proof {
                    assert(rec is Ok);
                }
                let e = BalanceEntry { addr: sender.clone(), history };
                let ghost e2 = e;
                self.balances.push(e);
                proof {
                    lemma_balance_push(pre, e2, sender@);
                    assert forall|a: Seq<char>| a != sender@ implies spec_balance_of(
                        self.balances@,
                        a,
                    ) == spec_balance_of(pre, a) by {
                        lemma_balance_push(pre, e2, a);
                    }
                    assert forall|p: int, q: int|
                        0 <= p < q < self.balances@.len() implies self.balances@[p].addr@
                        != self.balances@[q].addr@ by {
                        if q < pre.len() {
                            assert(pre[p].addr@ != pre[q].addr@);
                        } else {
                            assert(self.balances@[q] == e2);
                        }
                    }
                }
            },
        }
        let rec = self.total_staked_amount.record(total_after, block.height);
        proof {
            assert(rec is Ok);
        }
        Ok(msgs)
    }

    /// Unstakes `amount` for `sender`: the balance and the total shrink by
    /// it, both recorded at the current height, a withdrawal record for it
    /// matures after the configured delay, and one stake-change report per
    /// reward pool carries the pre-operation figures. A balance below the
    /// request is refused; every failure leaves the vault unchanged.
    pub fn unstake(&mut self, block: &BlockInfo, sender: &String, amount: u128) -> (r: Result<
        Vec<StakeChangeMsg>,
        ContractError,
    >)
        requires
            old(self).wf(),
            block.height >= old(self).total_staked_amount@.last().height,
            forall|j: int|
                0 <= j < old(self).balances@.len() ==> (#[trigger] old(
                    self,
                ).balances@[j]).history@.last().height <= block.height,
        ensures
            final(self).wf(),
            final(self).config == old(self).config,
            final(self).reward_accounts == old(self).reward_accounts,
            ({
                let balance0 = spec_balance_of(old(self).balances@, sender@);
                let total0 = old(self).total_staked_amount.spec_current();
                let delay_nanos = old(self).config.unstaking_duration_sec
                    * NANOS_PER_SECOND as int;
                let release_at = block.time + delay_nanos;
                match r {
                    Ok(msgs) => {
                        &&& amount <= balance0
                        &&& amount <= total0
                        &&& delay_nanos <= u64::MAX
                        &&& release_at <= u64::MAX
                        &&& spec_balance_of(final(self).balances@, sender@) == balance0 - amount
                        &&& forall|a: Seq<char>|
                            a != sender@ ==> spec_balance_of(final(self).balances@, a)
                                == spec_balance_of(old(self).balances@, a)
                        &&& final(self).total_staked_amount.spec_current() == total0 - amount
                        &&& spec_native_claims_of(final(self).claims@, sender@)
                            == spec_native_claims_of(old(self).claims@, sender@).push(
                            NativeClaim {
                                amount,
                                release_at: Expiration::AtTime(release_at as u64),
                            },
                        )
                        &&& forall|a: Seq<char>|
                            a != sender@ ==> spec_native_claims_of(final(self).claims@, a)
                                == spec_native_claims_of(old(self).claims@, a)
                        &&& msgs@.len() == old(self).reward_accounts@.len()
                        &&& forall|i: int|
                            0 <= i < msgs@.len() ==> {
                                &&& (#[trigger] msgs@[i]).contract@ == old(
                                    self,
                                ).reward_accounts@[i]@
                                &&& msgs@[i].recipient@ == sender@
                                &&& msgs@[i].staked_amount == balance0
                                &&& msgs@[i].total_staked == total0
                            }
                    },
                    Err(e) => {
                        &&& *final(self) == *old(self)
                        &&& match e {
                            ContractError::InsufficientFunds(_) => amount > balance0,
                            ContractError::Overflow => amount <= balance0 && (delay_nanos
                                > u64::MAX || release_at > u64::MAX || amount > total0),
                            _ => false,
                        }
                    },
                }
            }),
    {
        let idx = self.find_balance(sender);
        let balance_before = match idx {
            Some(i) => self.balances[i].history.load(),
            None => 0,
        };
        if balance_before < amount {
            return Err(
                ContractError::InsufficientFunds(
                    String::from_str("sender does not have enough staked balance"),
                ),
            );
        }
        let delay_nanos = match self.config.unstaking_duration_sec.checked_mul(NANOS_PER_SECOND) {
            Some(v) => v,
            None => {
                return Err(ContractError::Overflow);
            },
        };
        let release_at = match block.time.checked_add(delay_nanos) {
            Some(v) => v,
            None => {
                return Err(ContractError::Overflow);
            },
        };
        let total_before = self.total_staked_amount.load();
        let total_after = match total_before.checked_sub(amount) {
            Some(v) => v,
            None => {
                return Err(ContractError::Overflow);
            },
        };
        let balance_after = balance_before - amount;
        let msgs = setup_stake_change_messages(
            &self.reward_accounts,
            sender,
            balance_before,
            total_before,
        );
        let ghost pre = self.balances@;
        match idx {
            Some(i) => {
                let mut e = self.balances.remove(i);
                let rec = e.history.record(balance_after, block.height);
                proof {
                    assert(pre[i as int].history@.last().height <= block.height);
                    assert(rec is Ok);
                }
                let ghost e2 = e;
                proof {
                    pre.remove_ensures(i as int);
                }
                self.balances.insert(i, e);
                proof {
                    assert(self.balances@ =~= pre.update(i as int, e2));
                    lemma_balance_update(pre, i as int, e2, sender@);
                    assert forall|a: Seq<char>| a != sender@ implies spec_balance_of(
                        self.balances@,
                        a,
                    ) == spec_balance_of(pre, a) by {
                        lemma_balance_update(pre, i as int, e2, a);
                    }
                    assert forall|p: int, q: int|
                        0 <= p < q < self.balances@.len() implies self.balances@[p].addr@
                        != self.balances@[q].addr@ by {
                        assert(pre[p].addr@ != pre[q].addr@);
                    }
                }
            },
            None => {
                let mut history = SnapshotStore::new();
                let rec = history.record(balance_after, block.height);
                proof {
                    assert(rec is Ok);
                }
                let e = BalanceEntry { addr: sender.clone(), history };
                let ghost e2 = e;
                self.balances.push(e);
                proof {
                    lemma_balance_push(pre, e2, sender@);
                    assert forall|a: Seq<char>| a != sender@ implies spec_balance_of(
                        self.balances@,
                        a,
                    ) == spec_balance_of(pre, a) by {
                        lemma_balance_push(pre, e2, a);
                    }
                    assert forall|p: int, q: int|
                        0 <= p < q < self.balances@.len() implies self.balances@[p].addr@
                        != self.balances@[q].addr@ by {
                        if q < pre.len() {
                            assert(pre[p].addr@ != pre[q].addr@);
                        } else {
                            assert(self.balances@[q] == e2);
                        }
                    }
                }
            },
        }
        let rec = self.total_staked_amount.record(total_after, block.height);
        proof {
            assert(rec is Ok);
        }
        native_claims_append(
            &mut self.claims,
            sender,
            NativeClaim { amount, release_at: Expiration::AtTime(release_at) },
        );
        Ok(msgs)
    }

    /// Sweeps the sender's matured withdrawal records and returns the
    /// released sum, to be paid in the configured denomination. A sweep
    /// that would release nothing fails instead, leaving every record in
    /// place.
    pub fn claim(&mut self, block: &BlockInfo, sender: &String) -> (r: Result<
        u128,
        ContractError,
    >)
        requires
            old(self).wf(),
        ensures
            final(self).wf(),
            final(self).config == old(self).config,
            final(self).reward_accounts == old(self).reward_accounts,
            final(self).balances == old(self).balances,
            final(self).total_staked_amount == old(self).total_staked_amount,
            forall|a: Seq<char>|
                a != sender@ ==> spec_native_claims_of(final(self).claims@, a)
                    == spec_native_claims_of(old(self).claims@, a),
            ({
                let plan = spec_native_release(
                    spec_native_claims_of(old(self).claims@, sender@),
                    *block,
                    None,
                    0,
                );
                match r {
                    Ok(amount) => {
                        &&& amount == plan.0
                        &&& amount > 0
                        &&& spec_native_claims_of(final(self).claims@, sender@) == plan.1
                    },
                    Err(ContractError::ClaimableBalanceNotFound) => {
                        &&& plan.0 == 0
                        &&& *final(self) == *old(self)
                    },
                    Err(ContractError::Overflow) => {
                        &&& plan.0 > u128::MAX
                        &&& *final(self) == *old(self)
                    },
                    Err(_) => false,
                }
            }),
    {
        let ghost pre = self.claims@;
        let mut pending: Vec<NativeClaim>;
        let mut idx: Option<usize> = None;
        let mut i: usize = 0;
        while i < self.claims.len() && idx.is_none()
            invariant
                i <= self.claims@.len(),
                self.claims@ == pre,
                old(self).wf(),
                *self == *old(self),
                match idx {
                    Some(k) => k < pre.len() && pre[k as int].addr@ == sender@,
                    None => forall|j: int| 0 <= j < i ==> pre[j].addr@ != sender@,
                },
            decreases pre.len() - i + (if idx is Some {
                0int
            } else {
                1int
            }),
        {
            if self.claims[i].addr == *sender {
                idx = Some(i);
            } else {
                i = i + 1;
            }
        }
        // Walk the records, releasing what has matured; the computed plan
        // is committed only after the sweep is known to pay out.
        let mut pending: Vec<NativeClaim> = match idx {
            Some(k) => {
                proof {
                    lemma_native_claims_at(pre, k as int);
                }
                let src = &self.claims[k].claims;
                let mut copy: Vec<NativeClaim> = Vec::new();
                let mut t: usize = 0;
                while t < src.len()
                    invariant
                        t <= src@.len(),
                        copy@ =~= src@.take(t as int),
                    decreases src@.len() - t,
                {
                    copy.push(src[t]);
                    proof {
                        assert(copy@ =~= src@.take(t as int + 1));
                    }
                    t = t + 1;
                }
                proof {
                    assert(src@.take(src@.len() as int) =~= src@);
                }
                copy
            },
            None => {
                proof {
                    assert(idx is Some || i == pre.len());
                    lemma_native_claims_absent(pre, sender@);
                }
                Vec::new()
            },
        };
        proof {
            assert(pending@ == spec_native_claims_of(pre, sender@));
        }
        let src = pending;
        let ghost all = src@;
        let mut released: u128 = 0;
        let mut waiting: Vec<NativeClaim> = Vec::new();
        let mut j: usize = 0;
        while j < src.len()
            invariant
                j <= src@.len(),
                all == src@,
                all == spec_native_claims_of(old(self).claims@, sender@),
                *self == *old(self),
                old(self).wf(),
                spec_native_release(all, *block, None, 0).0 == released + spec_native_release(
                    all.skip(j as int),
                    *block,
                    None,
                    released as int,
                ).0,
                spec_native_release(all, *block, None, 0).1 == waiting@ + spec_native_release(
                    all.skip(j as int),
                    *block,
                    None,
                    released as int,
                ).1,
            decreases src@.len() - j,
        {
            let c = src[j];
            proof {
                assert(all.skip(j as int).first() == all[j as int]);
                assert(all.skip(j as int).drop_first() =~= all.skip(j as int + 1));
            }
            if c.release_at.is_expired(block) {
                released = match released.checked_add(c.amount) {
                    Some(v) => v,
                    None => {
                        proof {
                            assert(spec_native_release(
                                all.skip(j as int),
                                *block,
                                None,
                                released as int,
                            ).0 == c.amount + spec_native_release(
                                all.skip(j as int + 1),
                                *block,
                                None,
                                released as int + c.amount,
                            ).0);
                            lemma_native_release_lower_bound(
                                all.skip(j as int + 1),
                                *block,
                                released as int + c.amount,
                            );
                            assert(spec_native_release(all, *block, None, 0).0 > u128::MAX);
                        }
                        return Err(ContractError::Overflow);
                    },
                };
            } else {
                let ghost w0 = waiting@;
                waiting.push(c);
                proof {
                    assert(waiting@ =~= w0 + seq![c]);
                }
            }
            j = j + 1;
        }
        proof {
            assert(all.skip(all.len() as int).len() == 0);
            assert(spec_native_release(all, *block, None, 0).1 =~= waiting@);
        }
        if released == 0 {
            // Nothing pays out: the sweep aborts whole, so every record
            // stays exactly where it was.
            return Err(ContractError::ClaimableBalanceNotFound);
        }
        match idx {
            Some(k) => {
                let ghost removed = pre.remove(k as int);
                let _old_entry = self.claims.remove(k);
                let entry = NativeAccountClaims { addr: sender.clone(), claims: waiting };
                let ghost e2 = entry;
                self.claims.push(entry);
                proof {
                    lemma_native_claims_remove(pre, k as int, sender@);
                    lemma_native_claims_push_all(removed, e2);
                    assert forall|a: Seq<char>| a != sender@ implies spec_native_claims_of(
                        self.claims@,
                        a,
                    ) == spec_native_claims_of(pre, a) by {
                        lemma_native_claims_remove(pre, k as int, a);
                        lemma_native_claims_push(removed, e2, a);
                    }
                    pre.remove_ensures(k as int);
                    assert forall|p: int, q: int|
                        0 <= p < q < self.claims@.len() implies self.claims@[p].addr@
                        != self.claims@[q].addr@ by {
                        if q < removed.len() {
                        } else {
                            assert(self.claims@[q] == e2);
                        }
                    }
                }
            },
            None => {
                // No stored entry means no records at all, and released
                // would have stayed zero.
                proof {
                    assert(all.len() == 0);
                    assert(spec_native_release(all, *block, None, 0).0 == 0);
                    assert(false);
                }
            },
        }
        Ok(released)
    }

    /// Triggers a reward claim on every registered pool, reporting the
    /// sender's current balance and the current total; nothing in the
    /// vault changes.
    pub fn claim_rewards(&self, sender: &String) -> (r: Vec<ClaimRewardsMsg>)
        requires
            self.wf(),
        ensures
            r@.len() == self.reward_accounts@.len(),
            forall|i: int|
                0 <= i < r@.len() ==> {
                    &&& (#[trigger] r@[i]).contract@ == self.reward_accounts@[i]@
                    &&& r@[i].recipient@ == sender@
                    &&& r@[i].staked_amount == spec_balance_of(self.balances@, sender@)
                    &&& r@[i].total_staked == self.total_staked_amount.spec_current()
                },
    {
        let balance = match self.find_balance(sender) {
            Some(i) => self.balances[i].history.load(),
            None => 0,
        };
        let total = self.total_staked_amount.load();
        let mut out: Vec<ClaimRewardsMsg> = Vec::new();
        let mut i: usize = 0;
        while i < self.reward_accounts.len()
            invariant
                i <= self.reward_accounts@.len(),
                out@.len() == i,
                forall|j: int|
                    0 <= j < i ==> {
                        &&& (#[trigger] out@[j]).contract@ == self.reward_accounts@[j]@
                        &&& out@[j].recipient@ == sender@
                        &&& out@[j].staked_amount == balance
                        &&& out@[j].total_staked == total
                    },
            decreases self.reward_accounts@.len() - i,
        {
            out.push(
                ClaimRewardsMsg {
                    contract: self.reward_accounts[i].clone(),
                    recipient: sender.clone(),
                    staked_amount: balance,
                    total_staked: total,
                },
            );
            i = i + 1;
        }
        out
    }

    /// Registers a reward pool under the address the host derived for it.
    pub fn create_reward_account(&mut self, reward_account: String) -> (r: u64)
        requires
            old(self).wf(),
            old(self).reward_accounts@.len() < u64::MAX,
        ensures
            final(self).wf(),
            final(self).reward_accounts@ == old(self).reward_accounts@.push(reward_account),
            final(self).config == old(self).config,
            final(self).balances == old(self).balances,
            final(self).claims == old(self).claims,
            final(self).total_staked_amount == old(self).total_staked_amount,
            r == old(self).reward_accounts@.len(),
    {
        let index = self.reward_accounts.len() as u64;
        self.reward_accounts.push(reward_account);
        index
    }

    /// The account's balance in effect at the given height, or at the
    /// current height when none is given; zero when its history starts
    /// later.
    pub fn stake_balance_at_height(
        &self,
        address: &String,
        height: Option<u64>,
        current_height: u64,
    ) -> (r: u128)
        requires
            self.wf(),
        ensures
            r == (match crate::snapshot::spec_value_at(
                spec_history_of(self.balances@, address@),
                match height {
                    Some(h) => h,
                    None => current_height,
                },
            ) {
                Some(v) => v,
                None => 0u128,
            }),
    {
        let h = match height {
            Some(h) => h,
            None => current_height,
        };
        match self.find_balance(address) {
            Some(i) => match self.balances[i].history.may_load_at_height(h) {
                Some(v) => v,
                None => 0,
            },
            None => {
                proof {
                    assert(crate::snapshot::spec_value_at(
                        Seq::<crate::snapshot::SnapshotEntry>::empty(),
                        h,
                    ) is None);
                }
                0
            },
        }
    }

    /// The total staked balance in effect at the given height, or at the
    /// current height when none is given.
    pub fn total_staked_amount_at_height(&self, height: Option<u64>, current_height: u64) -> (r:
        Option<u128>)
        requires
            self.wf(),
        ensures
            r == crate::snapshot::spec_value_at(
                self.total_staked_amount@,
                match height {
                    Some(h) => h,
                    None => current_height,
                },
            ),
    {
        let h = match height {
            Some(h) => h,
            None => current_height,
        };
        self.total_staked_amount.may_load_at_height(h)
    }

    /// The account's pending withdrawal records, in creation order.
    pub fn claims(&self, address: &String) -> (r: Vec<NativeClaim>)
        requires
            self.wf(),
        ensures
            r@ == spec_native_claims_of(self.claims@, address@),
    {
        let mut i: usize = 0;
        while i < self.claims.len()
            invariant
                i <= self.claims@.len(),
                self.wf(),
                forall|j: int| 0 <= j < i ==> self.claims@[j].addr@ != address@,
            decreases self.claims@.len() - i,
        {
            if self.claims[i].addr == *address {
                proof {
                    lemma_native_claims_at(self.claims@, i as int);
                }
                let src = &self.claims[i].claims;
                let mut out: Vec<NativeClaim> = Vec::new();
                let mut j: usize = 0;
                while j < src.len()
                    invariant
                        j <= src@.len(),
                        out@ =~= src@.take(j as int),
                    decreases src@.len() - j,
                {
                    out.push(src[j]);
                    proof {
                        assert(out@ =~= src@.take(j as int + 1));
                    }
                    j = j + 1;
                }
                proof {
                    assert(src@.take(src@.len() as int) =~= src@);
                }
                return out;
            }
            i = i + 1;
        }
        proof {
            lemma_native_claims_absent(self.claims@, address@);
        }
        Vec::new()
    }

    /// The vault's configuration.
    pub fn config(&self) -> (r: &NativeConfig)
        ensures
            r == &self.config,
    {
        &self.config
    }

    /// The registered reward pools, in registration order.
    pub fn reward_accounts(&self) -> (r: &Vec<String>)
        ensures
            r == &self.reward_accounts,
    {
        &self.reward_accounts
    }
}

/// With distinct accounts, position `i` is the entry its account resolves
/// to.
proof fn lemma_native_claims_at(entries: Seq<NativeAccountClaims>, i: int)
    requires
        0 <= i < entries.len(),
        forall|p: int, q: int|
            0 <= p < q < entries.len() ==> entries[p].addr@ != entries[q].addr@,
    ensures
        spec_native_claims_of(entries, entries[i].addr@) == entries[i].claims@,
    decreases entries.len(),
{
    if i > 0 {
        assert(entries.drop_first()[i - 1] == entries[i]);
        lemma_native_claims_at(entries.drop_first(), i - 1);
    }
}

/// An account no entry holds has no records.
proof fn lemma_native_claims_absent(entries: Seq<NativeAccountClaims>, addr: Seq<char>)
    requires
        forall|j: int| 0 <= j < entries.len() ==> entries[j].addr@ != addr,
    ensures
        spec_native_claims_of(entries, addr) == Seq::<NativeClaim>::empty(),
    decreases entries.len(),
{
    if entries.len() > 0 {
        assert(forall|j: int|
            0 <= j < entries.drop_first().len() ==> entries.drop_first()[j] == entries[j + 1]);
        lemma_native_claims_absent(entries.drop_first(), addr);
    }
}

/// Appending an entry for an absent account resolves it to that entry and
/// leaves every other account alone.
proof fn lemma_native_claims_push(
    entries: Seq<NativeAccountClaims>,
    e: NativeAccountClaims,
    a: Seq<char>,
)
    requires
        forall|j: int| 0 <= j < entries.len() ==> entries[j].addr@ != e.addr@,
    ensures
        spec_native_claims_of(entries.push(e), a) == (if a == e.addr@ {
            e.claims@
        } else {
            spec_native_claims_of(entries, a)
        }),
    decreases entries.len(),
{
    if entries.len() == 0 {
        assert(entries.push(e).first() == e);
        assert(entries.push(e).drop_first() =~= Seq::<NativeAccountClaims>::empty());
        assert(spec_native_claims_of(entries.push(e).drop_first(), a) == Seq::<
            NativeClaim,
        >::empty());
        assert(spec_native_claims_of(entries, a) == Seq::<NativeClaim>::empty());
    } else {
        assert(entries.push(e).first() == entries.first());
        assert(entries.push(e).drop_first() =~= entries.drop_first().push(e));
        assert(forall|j: int|
            0 <= j < entries.drop_first().len() ==> entries.drop_first()[j] == entries[j + 1]);
        lemma_native_claims_push(entries.drop_first(), e, a);
    }
}

/// The same, at the appended entry's own account.
proof fn lemma_native_claims_push_all(entries: Seq<NativeAccountClaims>, e: NativeAccountClaims)
    requires
        forall|j: int| 0 <= j < entries.len() ==> entries[j].addr@ != e.addr@,
    ensures
        spec_native_claims_of(entries.push(e), e.addr@) == e.claims@,
{
    lemma_native_claims_push(entries, e, e.addr@);
}

/// Removing position `i` empties its account and leaves the others, with
/// distinct accounts remaining distinct.
proof fn lemma_native_claims_remove(entries: Seq<NativeAccountClaims>, i: int, a: Seq<char>)
    requires
        0 <= i < entries.len(),
        forall|p: int, q: int|
            0 <= p < q < entries.len() ==> entries[p].addr@ != entries[q].addr@,
    ensures
        spec_native_claims_of(entries.remove(i), a) == (if a == entries[i].addr@ {
            Seq::<NativeClaim>::empty()
        } else {
            spec_native_claims_of(entries, a)
        }),
        forall|j: int|
            0 <= j < entries.remove(i).len() ==> #[trigger] entries.remove(i)[j].addr@
                != entries[i].addr@,
    decreases entries.len(),
{
    entries.remove_ensures(i);
    if i == 0 {
        assert(entries.remove(0) =~= entries.drop_first());
        if a == entries[0].addr@ {
            assert(forall|j: int|
                0 <= j < entries.drop_first().len() ==> #[trigger] entries.drop_first()[j].addr@
                    != a);
            lemma_native_claims_absent(entries.drop_first(), a);
        }
    } else {
        assert(entries.remove(i).first() == entries.first());
        assert(entries.remove(i).drop_first() =~= entries.drop_first().remove(i - 1));
        assert(forall|j: int|
            0 <= j < entries.drop_first().len() ==> entries.drop_first()[j] == entries[j + 1]);
        assert(entries.drop_first()[i - 1] == entries[i]);
        lemma_native_claims_remove(entries.drop_first(), i - 1, a);
    }
}

/// Releasing never returns less than what was already counted: the
/// released sum of a suffix is nonnegative.
proof fn lemma_native_release_lower_bound(claims: Seq<NativeClaim>, block: BlockInfo, sent: int)
    ensures
        spec_native_release(claims, block, None, sent).0 >= 0,
    decreases claims.len(),
{
    if claims.len() > 0 {
        lemma_native_release_lower_bound(claims.drop_first(), block, sent + claims.first().amount);
        lemma_native_release_lower_bound(claims.drop_first(), block, sent);
    }
}

/// Appends one withdrawal record to the account's list.
fn native_claims_append(
    entries: &mut Vec<NativeAccountClaims>,
    addr: &String,
    record: NativeClaim,
)
    requires
        forall|p: int, q: int|
            0 <= p < q < old(entries)@.len() ==> old(entries)@[p].addr@ != old(entries)@[q].addr@,
    ensures
        forall|p: int, q: int|
            0 <= p < q < final(entries)@.len() ==> final(entries)@[p].addr@ != final(entries)@[q].addr@,
        spec_native_claims_of(final(entries)@, addr@) == spec_native_claims_of(
            old(entries)@,
            addr@,
        ).push(record),
        forall|a: Seq<char>|
            a != addr@ ==> spec_native_claims_of(final(entries)@, a) == spec_native_claims_of(
                old(entries)@,
                a,
            ),
{
    let ghost pre = entries@;
    let mut idx: Option<usize> = None;
    let mut i: usize = 0;
    while i < entries.len() && idx.is_none()
        invariant
            i <= pre.len(),
            entries@ == pre,
            forall|p: int, q: int| 0 <= p < q < pre.len() ==> pre[p].addr@ != pre[q].addr@,
            match idx {
                Some(k) => k < pre.len() && pre[k as int].addr@ == addr@,
                None => forall|j: int| 0 <= j < i ==> pre[j].addr@ != addr@,
            },
        decreases pre.len() - i + (if idx is Some {
            0int
        } else {
            1int
        }),
    {
        if entries[i].addr == *addr {
            idx = Some(i);
        } else {
            i = i + 1;
        }
    }
    match idx {
        Some(k) => {
            proof {
                lemma_native_claims_at(pre, k as int);
                pre.remove_ensures(k as int);
            }
            let mut e = entries.remove(k);
            e.claims.push(record);
            let ghost e2 = e;
            entries.insert(k, e);
            proof {
                assert(entries@ =~= pre.update(k as int, e2));
                lemma_native_claims_update(pre, k as int, e2, addr@);
                assert forall|a: Seq<char>| a != addr@ implies spec_native_claims_of(
                    entries@,
                    a,
                ) == spec_native_claims_of(pre, a) by {
                    lemma_native_claims_update(pre, k as int, e2, a);
                }
                assert forall|p: int, q: int|
                    0 <= p < q < entries@.len() implies entries@[p].addr@
                    != entries@[q].addr@ by {
                    assert(pre[p].addr@ != pre[q].addr@);
                }
            }
        },
        None => {
            proof {
                assert(idx is Some || i == pre.len());
                lemma_native_claims_absent(pre, addr@);
            }
            let mut claims_vec: Vec<NativeClaim> = Vec::new();
            claims_vec.push(record);
            let e = NativeAccountClaims { addr: addr.clone(), claims: claims_vec };
            let ghost e2 = e;
            entries.push(e);
            proof {
                assert(spec_native_claims_of(pre, addr@).push(record) =~= e2.claims@);
                lemma_native_claims_push(pre, e2, addr@);
                assert forall|a: Seq<char>| a != addr@ implies spec_native_claims_of(
                    entries@,
                    a,
                ) == spec_native_claims_of(pre, a) by {
                    lemma_native_claims_push(pre, e2, a);
                }
                assert forall|p: int, q: int|
                    0 <= p < q < entries@.len() implies entries@[p].addr@
                    != entries@[q].addr@ by {
                    if q < pre.len() {
                        assert(pre[p].addr@ != pre[q].addr@);
                    } else {
                        assert(entries@[q] == e2);
                    }
                }
            }
        },
    }
}

/// Overwriting position `i` moves only its account's records.
proof fn lemma_native_claims_update(
    entries: Seq<NativeAccountClaims>,
    i: int,
    e: NativeAccountClaims,
    a: Seq<char>,
)
    requires
        0 <= i < entries.len(),
        entries[i].addr@ == e.addr@,
        forall|p: int, q: int|
            0 <= p < q < entries.len() ==> entries[p].addr@ != entries[q].addr@,
    ensures
        spec_native_claims_of(entries.update(i, e), a) == (if a == e.addr@ {
            e.claims@
        } else {
            spec_native_claims_of(entries, a)
        }),
    decreases entries.len(),
{
    if i == 0 {
        assert(entries.update(0, e).first() == e);
        assert(entries.update(0, e).drop_first() =~= entries.drop_first());
    } else {
        assert(entries.update(i, e).first() == entries.first());
        assert(entries.update(i, e).drop_first() =~= entries.drop_first().update(i - 1, e));
        assert(entries.drop_first()[i - 1] == entries[i]);
        if a == e.addr@ && entries.first().addr@ == a {
            assert(entries[0].addr@ != entries[i].addr@);
        }
        lemma_native_claims_update(entries.drop_first(), i - 1, e, a);
    }
}

} // verus!
