//! Bucketed stake ledger and vault operation surface.
//!
//! Accounts stake non-fungible items from a fixed allow-list of collections.
//! An account's effective stake is the minimum of its per-collection counts
//! over every required collection: its reward weight is capped by its
//! least-represented collection. The vault keeps the global total of
//! effective stakes in a height-indexed snapshot; across every operation the
//! snapshot's current value equals the sum of all accounts' effective
//! stakes.

use vstd::prelude::*;

use crate::claim::{
    claims_view, nfts_view, spec_claims_of, spec_has_entry, spec_release, BlockInfo, Claim,
    Claims, ClaimView, Expiration, Nft,
};
use crate::error::ContractError;
use crate::rewards::NANOS_PER_SECOND;
use crate::snapshot::SnapshotStore;

verus! {

/// The most items one stake or unstake call may carry.
pub const MAX_NFTS: usize = 20;

/// The vault's configuration: the reward-pool code template, the required
/// collections, and the withdrawal delay.
#[derive(Debug)]
pub struct Config {
    pub rewards_code_id: u64,
    pub collections: Vec<String>,
    pub unstaking_duration_sec: u64,
}

/// One staked item and who staked it.
#[derive(Debug)]
pub struct StakedNft {
    pub staker: String,
    pub nft: Nft,
}

/// How many items one account has staked in one collection.
#[derive(Debug)]
pub struct CollectionAmount {
    pub staker: String,
    pub collection: String,
    pub amount: u64,
}

/// A signed change to one account's count in one collection.
#[derive(Debug)]
pub struct CollectionDelta {
    pub collection: String,
    pub delta: i64,
}

/// The views of a list of addresses.
pub open spec fn strs_view(s: Seq<String>) -> Seq<Seq<char>> {
    s.map_values(|x: String| x@)
}

/// The count the store holds for one (account, collection) pair; zero when
/// absent.
pub open spec fn spec_count_of(
    amounts: Seq<CollectionAmount>,
    staker: Seq<char>,
    collection: Seq<char>,
) -> u64
    decreases amounts.len(),
{
    if amounts.len() == 0 {
        0
    } else if amounts.first().staker@ == staker && amounts.first().collection@ == collection {
        amounts.first().amount
    } else {
        spec_count_of(amounts.drop_first(), staker, collection)
    }
}

/// The signed delta a change list carries for one collection; zero when
/// absent.
pub open spec fn spec_delta_of(deltas: Seq<CollectionDelta>, collection: Seq<char>) -> int
    decreases deltas.len(),
{
    if deltas.len() == 0 {
        0
    } else if deltas.first().collection@ == collection {
        deltas.first().delta as int
    } else {
        spec_delta_of(deltas.drop_first(), collection)
    }
}

/// The running minimum of an account's counts over a collection list, with
/// the sentinel of an empty list being the largest count.
pub open spec fn spec_min_count(
    amounts: Seq<CollectionAmount>,
    staker: Seq<char>,
    collections: Seq<Seq<char>>,
) -> int
    decreases collections.len(),
{
    if collections.len() == 0 {
        u64::MAX as int
    } else {
        let rest = spec_min_count(amounts, staker, collections.drop_last());
        let c = spec_count_of(amounts, staker, collections.last()) as int;
        if c < rest {
            c
        } else {
            rest
        }
    }
}

/// An account's effective stake: the minimum of its counts over the
/// required collections, or zero when none are required.
pub open spec fn spec_effective_stake(
    amounts: Seq<CollectionAmount>,
    staker: Seq<char>,
    collections: Seq<Seq<char>>,
) -> int {
    if collections.len() == 0 {
        0
    } else {
        spec_min_count(amounts, staker, collections)
    }
}

/// The sum of the accounts' effective stakes.
pub open spec fn spec_sum_effective(
    accounts: Seq<Seq<char>>,
    amounts: Seq<CollectionAmount>,
    collections: Seq<Seq<char>>,
) -> int
    decreases accounts.len(),
{
    if accounts.len() == 0 {
        0
    } else {
        spec_effective_stake(amounts, accounts.first(), collections) + spec_sum_effective(
            accounts.drop_first(),
            amounts,
            collections,
        )
    }
}

/// Counts that agree on every required collection give the same minimum.
proof fn lemma_min_count_congruent(
    a1: Seq<CollectionAmount>,
    a2: Seq<CollectionAmount>,
    staker: Seq<char>,
    collections: Seq<Seq<char>>,
)
    requires
        forall|j: int|
            0 <= j < collections.len() ==> spec_count_of(a1, staker, #[trigger] collections[j])
                == spec_count_of(a2, staker, collections[j]),
    ensures
        spec_min_count(a1, staker, collections) == spec_min_count(a2, staker, collections),
    decreases collections.len(),
{
    if collections.len() > 0 {
        assert(collections.last() == collections[collections.len() - 1]);
        assert(forall|j: int|
            0 <= j < collections.drop_last().len() ==> collections.drop_last()[j]
                == collections[j]);
        lemma_min_count_congruent(a1, a2, staker, collections.drop_last());
    }
}

/// Counts that agree on every required collection give the same effective
/// stake.
proof fn lemma_effective_congruent(
    a1: Seq<CollectionAmount>,
    a2: Seq<CollectionAmount>,
    staker: Seq<char>,
    collections: Seq<Seq<char>>,
)
    requires
        forall|j: int|
            0 <= j < collections.len() ==> spec_count_of(a1, staker, #[trigger] collections[j])
                == spec_count_of(a2, staker, collections[j]),
    ensures
        spec_effective_stake(a1, staker, collections) == spec_effective_stake(
            a2,
            staker,
            collections,
        ),
{
    if collections.len() > 0 {
        lemma_min_count_congruent(a1, a2, staker, collections);
    }
}

/// When only one account's effective stake moved, the sum moves by exactly
/// its difference.
proof fn lemma_sum_effective_update(
    accounts: Seq<Seq<char>>,
    a1: Seq<CollectionAmount>,
    a2: Seq<CollectionAmount>,
    collections: Seq<Seq<char>>,
    sender: Seq<char>,
)
    requires
        forall|p: int, q: int| 0 <= p < q < accounts.len() ==> accounts[p] != accounts[q],
        accounts.contains(sender),
        forall|a: Seq<char>|
            a != sender ==> #[trigger] spec_effective_stake(a2, a, collections)
                == spec_effective_stake(a1, a, collections),
    ensures
        spec_sum_effective(accounts, a2, collections) == spec_sum_effective(
            accounts,
            a1,
            collections,
        ) - spec_effective_stake(a1, sender, collections) + spec_effective_stake(
            a2,
            sender,
            collections,
        ),
    decreases accounts.len(),
{
    if accounts.len() > 0 {
        let rest = accounts.drop_first();
        if accounts.first() == sender {
            assert(forall|j: int| 0 <= j < rest.len() ==> rest[j] == accounts[j + 1]);
            assert(forall|j: int| 0 <= j < rest.len() ==> rest[j] != sender);
            lemma_sum_effective_frame(rest, a1, a2, collections, sender);
        } else {
            assert(accounts.contains(sender));
            let k = choose|k: int| 0 <= k < accounts.len() && accounts[k] == sender;
            assert(k > 0);
            assert(rest[k - 1] == sender);
            assert(rest.contains(sender));
            lemma_sum_effective_update(rest, a1, a2, collections, sender);
        }
    }
}

/// Accounts whose effective stakes all kept their value keep their sum.
proof fn lemma_sum_effective_frame(
    accounts: Seq<Seq<char>>,
    a1: Seq<CollectionAmount>,
    a2: Seq<CollectionAmount>,
    collections: Seq<Seq<char>>,
    sender: Seq<char>,
)
    requires
        forall|j: int| 0 <= j < accounts.len() ==> accounts[j] != sender,
        forall|a: Seq<char>|
            a != sender ==> #[trigger] spec_effective_stake(a2, a, collections)
                == spec_effective_stake(a1, a, collections),
    ensures
        spec_sum_effective(accounts, a2, collections) == spec_sum_effective(
            accounts,
            a1,
            collections,
        ),
    decreases accounts.len(),
{
    if accounts.len() > 0 {
        let rest = accounts.drop_first();
        assert(forall|j: int| 0 <= j < rest.len() ==> rest[j] == accounts[j + 1]);
        lemma_sum_effective_frame(rest, a1, a2, collections, sender);
    }
}

/// Adding an account to the ledger's account list adds its effective stake
/// to the sum.
proof fn lemma_sum_effective_push(
    accounts: Seq<Seq<char>>,
    amounts: Seq<CollectionAmount>,
    collections: Seq<Seq<char>>,
    a: Seq<char>,
)
    ensures
        spec_sum_effective(accounts.push(a), amounts, collections) == spec_sum_effective(
            accounts,
            amounts,
            collections,
        ) + spec_effective_stake(amounts, a, collections),
    decreases accounts.len(),
{
    if accounts.len() == 0 {
        assert(accounts.push(a).first() == a);
        assert(accounts.push(a).drop_first() =~= Seq::<Seq<char>>::empty());
        assert(spec_sum_effective(accounts.push(a).drop_first(), amounts, collections) == 0);
        assert(spec_sum_effective(accounts.push(a), amounts, collections)
            == spec_effective_stake(amounts, a, collections));
    } else {
        assert(accounts.push(a).first() == accounts.first());
        assert(accounts.push(a).drop_first() =~= accounts.drop_first().push(a));
        lemma_sum_effective_push(accounts.drop_first(), amounts, collections, a);
        assert(spec_sum_effective(accounts.push(a), amounts, collections)
            == spec_effective_stake(amounts, accounts.first(), collections)
            + spec_sum_effective(accounts.drop_first().push(a), amounts, collections));
    }
}

/// An account that owns no entry of the store counts zero everywhere.
proof fn lemma_count_of_no_entry(
    amounts: Seq<CollectionAmount>,
    staker: Seq<char>,
    collection: Seq<char>,
)
    requires
        forall|j: int| 0 <= j < amounts.len() ==> amounts[j].staker@ != staker,
    ensures
        spec_count_of(amounts, staker, collection) == 0,
    decreases amounts.len(),
{
    if amounts.len() > 0 {
        assert(forall|j: int|
            0 <= j < amounts.drop_first().len() ==> amounts.drop_first()[j] == amounts[j + 1]);
        lemma_count_of_no_entry(amounts.drop_first(), staker, collection);
    }
}

/// The new count a change list gives one (account, collection) pair,
/// before any range concern.
pub open spec fn spec_new_count(
    amounts: Seq<CollectionAmount>,
    deltas: Seq<CollectionDelta>,
    staker: Seq<char>,
    collection: Seq<char>,
) -> int {
    spec_count_of(amounts, staker, collection) + spec_delta_of(deltas, collection)
}

/// Whether every required collection's new count stays a `u64`.
pub open spec fn spec_counts_ok(
    amounts: Seq<CollectionAmount>,
    deltas: Seq<CollectionDelta>,
    staker: Seq<char>,
    collections: Seq<Seq<char>>,
) -> bool {
    forall|j: int|
        0 <= j < collections.len() ==> 0 <= spec_new_count(
            amounts,
            deltas,
            staker,
            #[trigger] collections[j],
        ) <= u64::MAX
}

/// The minimum the new counts reach over the required collections, with
/// the empty-list sentinel.
pub open spec fn spec_min_new(
    amounts: Seq<CollectionAmount>,
    deltas: Seq<CollectionDelta>,
    staker: Seq<char>,
    collections: Seq<Seq<char>>,
) -> int
    decreases collections.len(),
{
    if collections.len() == 0 {
        u64::MAX as int
    } else {
        let rest = spec_min_new(amounts, deltas, staker, collections.drop_last());
        let c = spec_new_count(amounts, deltas, staker, collections.last());
        if c < rest {
            c
        } else {
            rest
        }
    }
}

/// A store whose counts equal the new counts has the new minimum.
proof fn lemma_min_count_matches_new(
    a1: Seq<CollectionAmount>,
    deltas: Seq<CollectionDelta>,
    a2: Seq<CollectionAmount>,
    staker: Seq<char>,
    collections: Seq<Seq<char>>,
)
    requires
        forall|j: int|
            0 <= j < collections.len() ==> spec_count_of(a2, staker, #[trigger] collections[j])
                as int == spec_new_count(a1, deltas, staker, collections[j]),
    ensures
        spec_min_count(a2, staker, collections) == spec_min_new(a1, deltas, staker, collections),
    decreases collections.len(),
{
    if collections.len() > 0 {
        assert(collections.last() == collections[collections.len() - 1]);
        assert(forall|j: int|
            0 <= j < collections.drop_last().len() ==> collections.drop_last()[j]
                == collections[j]);
        lemma_min_count_matches_new(a1, deltas, a2, staker, collections.drop_last());
    }
}

/// An account that owns no entry of the store has an effective stake of
/// zero when any collection is required.
proof fn lemma_effective_no_entry(
    amounts: Seq<CollectionAmount>,
    staker: Seq<char>,
    collections: Seq<Seq<char>>,
)
    requires
        forall|j: int| 0 <= j < amounts.len() ==> amounts[j].staker@ != staker,
        collections.len() > 0,
    ensures
        spec_min_count(amounts, staker, collections) == 0,
        spec_effective_stake(amounts, staker, collections) == 0,
    decreases collections.len(),
{
    lemma_count_of_no_entry(amounts, staker, collections.last());
    if collections.len() > 1 {
        lemma_effective_no_entry(amounts, staker, collections.drop_last());
        assert(spec_min_count(amounts, staker, collections.drop_last()) == 0);
    } else {
        assert(collections.drop_last().len() == 0);
        assert(spec_min_count(amounts, staker, collections.drop_last()) == u64::MAX as int);
    }
    assert(spec_min_count(amounts, staker, collections) == 0);
}

/// Whether some entry belongs to the account.
pub open spec fn spec_staker_present(amounts: Seq<CollectionAmount>, staker: Seq<char>) -> bool {
    exists|k: int| 0 <= k < amounts.len() && amounts[k].staker@ == staker
}

/// Entries carry distinct (account, collection) keys.
pub open spec fn spec_amounts_distinct(amounts: Seq<CollectionAmount>) -> bool {
    forall|p: int, q: int|
        0 <= p < q < amounts.len() ==> amounts[p].staker@ != amounts[q].staker@
            || amounts[p].collection@ != amounts[q].collection@
}

/// With distinct keys, position `i` is the count its key resolves to.
proof fn lemma_count_of_at(amounts: Seq<CollectionAmount>, i: int)
    requires
        0 <= i < amounts.len(),
        forall|p: int, q: int|
            0 <= p < q < amounts.len() ==> amounts[p].staker@ != amounts[q].staker@
                || amounts[p].collection@ != amounts[q].collection@,
    ensures
        spec_count_of(amounts, amounts[i].staker@, amounts[i].collection@) == amounts[i].amount,
    decreases amounts.len(),
{
    if i > 0 {
        assert(amounts.drop_first()[i - 1] == amounts[i]);
        lemma_count_of_at(amounts.drop_first(), i - 1);
    }
}

/// A key no position holds counts zero.
proof fn lemma_count_of_no_key(
    amounts: Seq<CollectionAmount>,
    staker: Seq<char>,
    collection: Seq<char>,
)
    requires
        forall|j: int|
            0 <= j < amounts.len() ==> amounts[j].staker@ != staker || amounts[j].collection@
                != collection,
    ensures
        spec_count_of(amounts, staker, collection) == 0,
    decreases amounts.len(),
{
    if amounts.len() > 0 {
        assert(forall|j: int|
            0 <= j < amounts.drop_first().len() ==> amounts.drop_first()[j] == amounts[j + 1]);
        lemma_count_of_no_key(amounts.drop_first(), staker, collection);
    }
}

/// Overwriting position `i` moves only its own key's count.
proof fn lemma_count_of_update(
    amounts: Seq<CollectionAmount>,
    i: int,
    e: CollectionAmount,
    staker: Seq<char>,
    collection: Seq<char>,
)
    requires
        0 <= i < amounts.len(),
        amounts[i].staker@ == e.staker@,
        amounts[i].collection@ == e.collection@,
        forall|p: int, q: int|
            0 <= p < q < amounts.len() ==> amounts[p].staker@ != amounts[q].staker@
                || amounts[p].collection@ != amounts[q].collection@,
    ensures
        spec_count_of(amounts.update(i, e), staker, collection) == (if staker == e.staker@
            && collection == e.collection@ {
            e.amount
        } else {
            spec_count_of(amounts, staker, collection)
        }),
    decreases amounts.len(),
{
    if i == 0 {
        assert(amounts.update(0, e).first() == e);
        assert(amounts.update(0, e).drop_first() =~= amounts.drop_first());
    } else {
        assert(amounts.update(i, e).first() == amounts.first());
        assert(amounts.update(i, e).drop_first() =~= amounts.drop_first().update(i - 1, e));
        assert(amounts.drop_first()[i - 1] == amounts[i]);
        if staker == e.staker@ && collection == e.collection@ && amounts.first().staker@ == staker
            && amounts.first().collection@ == collection {
            assert(amounts[0].staker@ != amounts[i].staker@ || amounts[0].collection@
                != amounts[i].collection@);
        }
        lemma_count_of_update(amounts.drop_first(), i - 1, e, staker, collection);
    }
}

/// Appending a key not yet present moves only its own count.
proof fn lemma_count_of_push(
    amounts: Seq<CollectionAmount>,
    e: CollectionAmount,
    staker: Seq<char>,
    collection: Seq<char>,
)
    requires
        forall|j: int|
            0 <= j < amounts.len() ==> amounts[j].staker@ != e.staker@ || amounts[j].collection@
                != e.collection@,
    ensures
        spec_count_of(amounts.push(e), staker, collection) == (if staker == e.staker@
            && collection == e.collection@ {
            e.amount
        } else {
            spec_count_of(amounts, staker, collection)
        }),
    decreases amounts.len(),
{
    if amounts.len() == 0 {
        assert(amounts.push(e).first() == e);
        assert(amounts.push(e).drop_first() =~= Seq::<CollectionAmount>::empty());
        assert(spec_count_of(amounts.push(e).drop_first(), staker, collection) == 0);
        assert(spec_count_of(amounts, staker, collection) == 0);
    } else {
        assert(amounts.push(e).first() == amounts.first());
        assert(amounts.push(e).drop_first() =~= amounts.drop_first().push(e));
        assert(forall|j: int|
            0 <= j < amounts.drop_first().len() ==> amounts.drop_first()[j] == amounts[j + 1]);
        lemma_count_of_push(amounts.drop_first(), e, staker, collection);
    }
}

/// The count the store holds for one (account, collection) pair.
fn count_get(amounts: &Vec<CollectionAmount>, staker: &String, collection: &String) -> (r: u64)
    requires
        spec_amounts_distinct(amounts@),
    ensures
        r == spec_count_of(amounts@, staker@, collection@),
{
    let mut i: usize = 0;
    while i < amounts.len()
        invariant
            i <= amounts@.len(),
            spec_amounts_distinct(amounts@),
            forall|j: int|
                0 <= j < i ==> amounts@[j].staker@ != staker@ || amounts@[j].collection@
                    != collection@,
        decreases amounts@.len() - i,
    {
        if amounts[i].staker == *staker && amounts[i].collection == *collection {
            proof {
                lemma_count_of_at(amounts@, i as int);
            }
            return amounts[i].amount;
        }
        i = i + 1;
    }
    proof {
        lemma_count_of_no_key(amounts@, staker@, collection@);
    }
    0
}

/// Writes the count of one (account, collection) pair, inserting an entry
/// when the pair had none; every other pair keeps its count.
fn count_set(amounts: &mut Vec<CollectionAmount>, staker: &String, collection: &String, amount: u64)
    requires
        spec_amounts_distinct(old(amounts)@),
    ensures
        spec_amounts_distinct(final(amounts)@),
        forall|s: Seq<char>, c: Seq<char>|
            #[trigger] spec_count_of(final(amounts)@, s, c) == (if s == staker@ && c
                == collection@ {
                amount
            } else {
                spec_count_of(old(amounts)@, s, c)
            }),
        forall|j: int|
            0 <= j < final(amounts)@.len() ==> final(amounts)@[j].staker@ == staker@
                || spec_staker_present(old(amounts)@, #[trigger] final(amounts)@[j].staker@),
{
    let ghost pre = amounts@;
    let mut found: Option<usize> = None;
    let mut i: usize = 0;
    while i < amounts.len() && found.is_none()
        invariant
            i <= amounts@.len(),
            amounts@ == pre,
            spec_amounts_distinct(pre),
            match found {
                Some(k) => k < amounts@.len() && pre[k as int].staker@ == staker@
                    && pre[k as int].collection@ == collection@,
                None => forall|j: int|
                    0 <= j < i ==> pre[j].staker@ != staker@ || pre[j].collection@ != collection@,
            },
        decreases amounts@.len() - i + (if found is Some {
            0int
        } else {
            1int
        }),
    {
        if amounts[i].staker == *staker && amounts[i].collection == *collection {
            found = Some(i);
        } else {
            i = i + 1;
        }
    }
    proof {
        assert(found is Some || i == amounts@.len());
    }
    match found {
        Some(k) => {
            let e = CollectionAmount {
                staker: staker.clone(),
                collection: collection.clone(),
                amount,
            };
            amounts[k] = e;
            proof {
                assert forall|s: Seq<char>, c: Seq<char>| true implies #[trigger] spec_count_of(
                    amounts@,
                    s,
                    c,
                ) == (if s == staker@ && c == collection@ {
                    amount
                } else {
                    spec_count_of(pre, s, c)
                }) by {
                    lemma_count_of_update(pre, k as int, e, s, c);
                }
                assert forall|p: int, q: int|
                    0 <= p < q < amounts@.len() implies amounts@[p].staker@ != amounts@[q].staker@
                    || amounts@[p].collection@ != amounts@[q].collection@ by {
                    assert(pre[p].staker@ != pre[q].staker@ || pre[p].collection@
                        != pre[q].collection@);
                }
                assert forall|j: int| 0 <= j < amounts@.len() implies amounts@[j].staker@
                    == staker@ || spec_staker_present(pre, #[trigger] amounts@[j].staker@) by {
                    if j != k {
                        assert(amounts@[j] == pre[j]);
                        assert(pre[j].staker@ == amounts@[j].staker@);
                    }
                }
            }
        },
        None => {
            let e = CollectionAmount {
                staker: staker.clone(),
                collection: collection.clone(),
                amount,
            };
            amounts.push(e);
            proof {
                assert forall|s: Seq<char>, c: Seq<char>| true implies #[trigger] spec_count_of(
                    amounts@,
                    s,
                    c,
                ) == (if s == staker@ && c == collection@ {
                    amount
                } else {
                    spec_count_of(pre, s, c)
                }) by {
                    lemma_count_of_push(pre, e, s, c);
                }
                assert forall|p: int, q: int|
                    0 <= p < q < amounts@.len() implies amounts@[p].staker@ != amounts@[q].staker@
                    || amounts@[p].collection@ != amounts@[q].collection@ by {
                    if q < pre.len() {
                        assert(pre[p].staker@ != pre[q].staker@ || pre[p].collection@
                            != pre[q].collection@);
                    } else {
                        assert(amounts@[q] == e);
                        assert(pre[p].staker@ != e.staker@ || pre[p].collection@
                            != e.collection@);
                    }
                }
                assert forall|j: int| 0 <= j < amounts@.len() implies amounts@[j].staker@
                    == staker@ || spec_staker_present(pre, #[trigger] amounts@[j].staker@) by {
                    if j < pre.len() {
                        assert(pre[j].staker@ == amounts@[j].staker@);
                    }
                }
            }
        },
    }
}

/// The signed change a list carries for one collection; zero when absent.
fn delta_get(deltas: &Vec<CollectionDelta>, collection: &String) -> (r: i64)
    ensures
        r as int == spec_delta_of(deltas@, collection@),
{
    let mut i: usize = 0;
    proof {
        assert(deltas@.skip(0) =~= deltas@);
    }
    while i < deltas.len()
        invariant
            i <= deltas@.len(),
            spec_delta_of(deltas@, collection@) == spec_delta_of(
                deltas@.skip(i as int),
                collection@,
            ),
        decreases deltas@.len() - i,
    {
        proof {
            assert(deltas@.skip(i as int).first() == deltas@[i as int]);
            assert(deltas@.skip(i as int).drop_first() =~= deltas@.skip(i as int + 1));
        }
        if deltas[i].collection == *collection {
            return deltas[i].delta;
        }
        i = i + 1;
    }
    proof {
        assert(deltas@.skip(deltas@.len() as int).len() == 0);
    }
    0
}

/// What the reconciliation step hands to the reward engines: the account's
/// effective stake and the global total as they stood before the change.
#[derive(Debug, Clone, Copy, PartialEq, Eq, Structural)]
pub struct UpdateStakeResult {
    pub user_staked_amount: u128,
    pub total_staked_amount: u128,
}

/// The vault: the bucketed stake ledger, the height-indexed total, the
/// delayed-claim queue and the registered reward pools.
pub struct NftVaultContract {
    pub config: Config,
    pub reward_accounts: Vec<String>,
    pub users_staked_nfts: Vec<StakedNft>,
    pub users_collection_staked_amounts: Vec<CollectionAmount>,
    pub total_staked_amount: SnapshotStore,
    pub claims: Claims,
    /// Every account that ever held a ledger entry, each once.
    pub accounts: Ghost<Seq<Seq<char>>>,
}

impl NftVaultContract {
    /// The required collections, as values.
    pub open spec fn colls(&self) -> Seq<Seq<char>> {
        strs_view(self.config.collections@)
    }

    /// The ledger's counts.
    pub open spec fn amounts(&self) -> Seq<CollectionAmount> {
        self.users_collection_staked_amounts@
    }

    /// Well-formedness: distinct keys everywhere, and the ledger invariant
    /// that the snapshot's current value is the sum of all accounts'
    /// effective stakes.
    pub open spec fn wf(&self) -> bool {
        &&& spec_amounts_distinct(self.amounts())
        &&& forall|p: int, q: int|
            0 <= p < q < self.colls().len() ==> self.colls()[p] != self.colls()[q]
        &&& forall|p: int, q: int|
            0 <= p < q < self.users_staked_nfts@.len() ==> self.users_staked_nfts@[p].nft@
                != self.users_staked_nfts@[q].nft@
        &&& self.claims.wf()
        &&& self.total_staked_amount.wf()
        &&& self.total_staked_amount@.len() > 0
        &&& forall|p: int, q: int|
            0 <= p < q < self.accounts@.len() ==> self.accounts@[p] != self.accounts@[q]
        &&& forall|j: int|
            0 <= j < self.amounts().len() ==> self.accounts@.contains(
                #[trigger] self.amounts()[j].staker@,
            )
        &&& self.total_staked_amount.spec_current() == spec_sum_effective(
            self.accounts@,
            self.amounts(),
            self.colls(),
        )
    }

    /// Creates the vault: the configuration is taken as given, every store
    /// starts empty, and the total of zero is recorded at the creation
    /// height. A configuration that lists a collection twice is refused.
    pub fn instantiate(config: Config, height: u64) -> (r: Result<
        NftVaultContract,
        ContractError,
    >)
        ensures
            match r {
                Ok(v) => {
                    &&& v.wf()
                    &&& v.config == config
                    &&& v.reward_accounts@ == Seq::<String>::empty()
                    &&& v.users_staked_nfts@ == Seq::<StakedNft>::empty()
                    &&& v.amounts() == Seq::<CollectionAmount>::empty()
                    &&& v.total_staked_amount.spec_current() == 0
                    &&& v.total_staked_amount@ =~= seq![
                        crate::snapshot::SnapshotEntry { height, value: 0 },
                    ]
                    &&& forall|a: Seq<char>|
                        spec_claims_of(v.claims@, a) == Seq::<ClaimView>::empty()
                },
                Err(ContractError::InvalidInput(_)) => exists|p: int, q: int|
                    0 <= p < q < strs_view(config.collections@).len() && strs_view(
                        config.collections@,
                    )[p] == strs_view(config.collections@)[q],
                Err(_) => false,
            },
    {
        let n = config.collections.len();
        let mut i: usize = 1;
        while i < n
            invariant
                1 <= i || n == 0,
                i <= n || n == 0,
                n == config.collections@.len(),
                forall|p: int, q: int|
                    0 <= p < q < i && q < n ==> strs_view(config.collections@)[p] != strs_view(
                        config.collections@,
                    )[q],
            decreases n - i,
        {
            let mut j: usize = 0;
            while j < i
                invariant
                    j <= i < n,
                    n == config.collections@.len(),
                    forall|p: int|
                        0 <= p < j ==> strs_view(config.collections@)[p] != strs_view(
                            config.collections@,
                        )[i as int],
                decreases i - j,
            {
                if config.collections[j] == config.collections[i] {
                    assert(strs_view(config.collections@)[j as int] == strs_view(
                        config.collections@,
                    )[i as int]);
                    return Err(
                        ContractError::InvalidInput(
                            String::from_str("collections must be distinct"),
                        ),
                    );
                }
                assert(strs_view(config.collections@)[j as int] != strs_view(
                    config.collections@,
                )[i as int]);
                j = j + 1;
            }
            i = i + 1;
        }
        let mut total = SnapshotStore::new();
        let rec = total.record(0, height);
        proof {
            assert(rec is Ok);
        }
        Ok(
            NftVaultContract {
                config,
                reward_accounts: Vec::new(),
                users_staked_nfts: Vec::new(),
                users_collection_staked_amounts: Vec::new(),
                total_staked_amount: total,
                claims: Claims::new(),
                accounts: Ghost(Seq::empty()),
            },
        )
    }

    /// The shared reconciliation step of stake, unstake and reward claims:
    /// applies the signed per-collection deltas to the sender's counts with
    /// range checking, takes the running minimum over all required
    /// collections before and after, and moves the snapshot total by the
    /// difference, stamped at the current height. Returns the sender's
    /// effective stake and the global total as they stood before. Nothing
    /// changes on failure: a count or the total leaving its range, or a
    /// minimum reaching the empty-ledger sentinel, as with no required
    /// collections at all.
    pub fn update_stake_amounts(
        &mut self,
        height: u64,
        sender: &String,
        deltas: &Vec<CollectionDelta>,
    ) -> (r: Result<UpdateStakeResult, ContractError>)
        requires
            old(self).wf(),
            height >= old(self).total_staked_amount@.last().height,
        ensures
            final(self).wf(),
            final(self).config == old(self).config,
            final(self).claims == old(self).claims,
            final(self).users_staked_nfts == old(self).users_staked_nfts,
            final(self).reward_accounts == old(self).reward_accounts,
            final(self).total_staked_amount@.last().height == height || final(self).total_staked_amount@ == old(self).total_staked_amount@,
            ({
                let colls = old(self).colls();
                let amounts0 = old(self).amounts();
                let eff_before = spec_min_count(amounts0, sender@, colls);
                let eff_after = spec_min_new(amounts0, deltas@, sender@, colls);
                let counts_ok = spec_counts_ok(amounts0, deltas@, sender@, colls);
                let total0 = old(self).total_staked_amount.spec_current();
                match r {
                    Ok(res) => {
                        &&& counts_ok
                        &&& eff_before < u64::MAX as int
                        &&& eff_after < u64::MAX as int
                        &&& total0 - eff_before >= 0
                        &&& total0 - eff_before + eff_after <= u128::MAX
                        &&& res.user_staked_amount == eff_before
                        &&& res.total_staked_amount == total0
                        &&& final(self).total_staked_amount.spec_current() == total0 - eff_before
                            + eff_after
                        &&& forall|c: Seq<char>|
                            colls.contains(c) ==> #[trigger] spec_count_of(
                                final(self).amounts(),
                                sender@,
                                c,
                            ) as int == spec_new_count(amounts0, deltas@, sender@, c)
                        &&& forall|c: Seq<char>|
                            !colls.contains(c) ==> #[trigger] spec_count_of(
                                final(self).amounts(),
                                sender@,
                                c,
                            ) == spec_count_of(amounts0, sender@, c)
                        &&& forall|s: Seq<char>, c: Seq<char>|
                            s != sender@ ==> #[trigger] spec_count_of(final(self).amounts(), s, c)
                                == spec_count_of(amounts0, s, c)
                    },
                    Err(ContractError::Overflow) => {
                        &&& *final(self) == *old(self)
                        &&& (!counts_ok || (eff_before < u64::MAX as int && eff_after
                            < u64::MAX as int && (total0 - eff_before < 0 || total0 - eff_before
                            + eff_after > u128::MAX)))
                    },
                    Err(ContractError::InternalError(_)) => {
                        &&& *final(self) == *old(self)
                        &&& counts_ok
                        &&& (eff_before == u64::MAX as int || eff_after == u64::MAX as int)
                    },
                    Err(_) => false,
                }
            }),
    {
        let ghost colls = self.colls();
        let ghost amounts0 = self.amounts();
        let ghost accounts0 = self.accounts@;
        let n = self.config.collections.len();
        let mut befores: Vec<u64> = Vec::new();
        let mut afters: Vec<u64> = Vec::new();
        let mut min_before: u64 = u64::MAX;
        let mut min_after: u64 = u64::MAX;
        let mut j: usize = 0;
        proof {
            assert(colls.take(0).len() == 0);
        }
        while j < n
            invariant
                j <= n,
                *self == *old(self),
                old(self).wf(),
                n == self.config.collections@.len(),
                colls == self.colls(),
                amounts0 == self.amounts(),
                befores@.len() == j,
                afters@.len() == j,
                forall|k: int|
                    0 <= k < j ==> #[trigger] befores@[k] == spec_count_of(
                        amounts0,
                        sender@,
                        colls[k],
                    ),
                forall|k: int|
                    0 <= k < j ==> #[trigger] afters@[k] as int == spec_new_count(
                        amounts0,
                        deltas@,
                        sender@,
                        colls[k],
                    ),
                min_before as int == spec_min_count(amounts0, sender@, colls.take(j as int)),
                min_after as int == spec_min_new(amounts0, deltas@, sender@, colls.take(j as int)),
            decreases n - j,
        {
            let coll = &self.config.collections[j];
            proof {
                assert(coll@ == colls[j as int]);
            }
            let before = count_get(&self.users_collection_staked_amounts, sender, coll);
            let delta = delta_get(deltas, coll);
            let after = match before.checked_add_signed(delta) {
                Some(v) => v,
                None => {
                    proof {
                        assert(!spec_counts_ok(amounts0, deltas@, sender@, colls));
                    }
                    return Err(ContractError::Overflow);
                },
            };
            befores.push(before);
            afters.push(after);
            proof {
                assert(colls.take(j + 1).drop_last() =~= colls.take(j as int));
                assert(colls.take(j + 1).last() == colls[j as int]);
            }
            if before < min_before {
                min_before = before;
            }
            if after < min_after {
                min_after = after;
            }
            j = j + 1;
        }
        proof {
            assert(colls.take(n as int) =~= colls);
            assert forall|k: int|
                0 <= k < colls.len() implies 0 <= spec_new_count(
                amounts0,
                deltas@,
                sender@,
                #[trigger] colls[k],
            ) <= u64::MAX by {
                assert(afters@[k] as int == spec_new_count(amounts0, deltas@, sender@, colls[k]));
            }
        }
        if min_before == u64::MAX {
            return Err(
                ContractError::InternalError(
                    String::from_str("user staked amount before is u64::MAX"),
                ),
            );
        }
        if min_after == u64::MAX {
            return Err(
                ContractError::InternalError(
                    String::from_str("user staked amount after is u64::MAX"),
                ),
            );
        }
        let total_before = self.total_staked_amount.load();
        let stripped = match total_before.checked_sub(min_before as u128) {
            Some(v) => v,
            None => {
                return Err(ContractError::Overflow);
            },
        };
        let total_after = match stripped.checked_add(min_after as u128) {
            Some(v) => v,
            None => {
                return Err(ContractError::Overflow);
            },
        };
        // Commit: the sender joins the account list if it is new, the
        // changed counts are written, and the total is re-recorded.
        proof {
            if !accounts0.contains(sender@) {
                assert forall|k: int| 0 <= k < amounts0.len() implies #[trigger] amounts0[k].staker@
                    != sender@ by {
                    assert(accounts0.contains(amounts0[k].staker@));
                }
                assert(colls.len() > 0) by {
                    if colls.len() == 0 {
                        assert(spec_min_count(amounts0, sender@, colls.take(0)) == u64::MAX as int);
                    }
                }
                lemma_effective_no_entry(amounts0, sender@, colls);
                lemma_sum_effective_push(accounts0, amounts0, colls, sender@);
            }
        }
        let ghost accounts1 = if accounts0.contains(sender@) {
            accounts0
        } else {
            accounts0.push(sender@)
        };
        proof {
            self.accounts@ = accounts1;
            assert(accounts1.contains(sender@)) by {
                if !accounts0.contains(sender@) {
                    assert(accounts1[accounts1.len() - 1] == sender@);
                }
            }
            assert forall|p: int, q: int| 0 <= p < q < accounts1.len() implies accounts1[p]
                != accounts1[q] by {
                if !accounts0.contains(sender@) && q == accounts1.len() - 1 {
                    assert(accounts1[p] == accounts0[p]);
                    assert(accounts0.contains(accounts0[p]));
                }
            }
            assert(spec_sum_effective(accounts1, amounts0, colls) == total_before);
        }
        let mut k: usize = 0;
        while k < n
            invariant
                k <= n,
                n == self.config.collections@.len(),
                colls == self.colls(),
                self.config == old(self).config,
                self.claims == old(self).claims,
                self.users_staked_nfts == old(self).users_staked_nfts,
                self.reward_accounts == old(self).reward_accounts,
                self.total_staked_amount == old(self).total_staked_amount,
                self.accounts@ == accounts1,
                old(self).wf(),
                amounts0 == old(self).amounts(),
                befores@.len() == n,
                afters@.len() == n,
                forall|p: int, q: int| 0 <= p < q < colls.len() ==> colls[p] != colls[q],
                forall|i: int|
                    0 <= i < n ==> #[trigger] befores@[i] == spec_count_of(
                        amounts0,
                        sender@,
                        colls[i],
                    ),
                forall|i: int|
                    0 <= i < n ==> #[trigger] afters@[i] as int == spec_new_count(
                        amounts0,
                        deltas@,
                        sender@,
                        colls[i],
                    ),
                spec_amounts_distinct(self.amounts()),
                forall|i: int|
                    0 <= i < k ==> #[trigger] spec_count_of(self.amounts(), sender@, colls[i])
                        == afters@[i],
                forall|i: int|
                    k <= i < n ==> #[trigger] spec_count_of(self.amounts(), sender@, colls[i])
                        == spec_count_of(amounts0, sender@, colls[i]),
                forall|c: Seq<char>|
                    !colls.contains(c) ==> #[trigger] spec_count_of(self.amounts(), sender@, c)
                        == spec_count_of(amounts0, sender@, c),
                forall|s: Seq<char>, c: Seq<char>|
                    s != sender@ ==> #[trigger] spec_count_of(self.amounts(), s, c)
                        == spec_count_of(amounts0, s, c),
                forall|i: int|
                    0 <= i < self.amounts().len() ==> #[trigger] self.amounts()[i].staker@
                        == sender@ || spec_staker_present(amounts0, self.amounts()[i].staker@),
            decreases n - k,
        {
            let ghost cur = self.amounts();
            let coll = &self.config.collections[k];
            proof {
                assert(coll@ == colls[k as int]);
            }
            if befores[k] != afters[k] {
                count_set(&mut self.users_collection_staked_amounts, sender, coll, afters[k]);
            }
            proof {
                assert forall|i: int|
                    0 <= i < n && i != k implies #[trigger] spec_count_of(
                    self.amounts(),
                    sender@,
                    colls[i],
                ) == spec_count_of(cur, sender@, colls[i]) by {
                    assert(colls[i] != colls[k as int]);
                }
                if befores[k as int] == afters[k as int] {
                    assert(spec_count_of(self.amounts(), sender@, colls[k as int])
                        == afters@[k as int]);
                } else {
                    assert(spec_count_of(self.amounts(), sender@, colls[k as int])
                        == afters@[k as int]);
                }
                assert forall|i: int|
                    0 <= i < self.amounts().len() implies #[trigger] self.amounts()[i].staker@
                    == sender@ || spec_staker_present(amounts0, self.amounts()[i].staker@) by {
                    if self.amounts()[i].staker@ != sender@ {
                        assert(spec_staker_present(cur, self.amounts()[i].staker@));
                        let w = choose|w: int|
                            0 <= w < cur.len() && cur[w].staker@ == self.amounts()[i].staker@;
                        assert(cur[w].staker@ == sender@ || spec_staker_present(
                            amounts0,
                            cur[w].staker@,
                        ));
                    }
                }
            }
            k = k + 1;
        }
        let ghost amounts1 = self.amounts();
        proof {
            assert forall|i: int|
                0 <= i < colls.len() implies spec_count_of(
                amounts1,
                sender@,
                #[trigger] colls[i],
            ) as int == spec_new_count(amounts0, deltas@, sender@, colls[i]) by {
                assert(spec_count_of(amounts1, sender@, colls[i]) == afters@[i]);
            }
            lemma_min_count_matches_new(amounts0, deltas@, amounts1, sender@, colls);
            assert forall|a: Seq<char>| a != sender@ implies #[trigger] spec_effective_stake(
                amounts1,
                a,
                colls,
            ) == spec_effective_stake(amounts0, a, colls) by {
                lemma_effective_congruent(amounts0, amounts1, a, colls);
            }
            lemma_sum_effective_update(accounts1, amounts0, amounts1, colls, sender@);
            assert(colls.len() > 0) by {
                if colls.len() == 0 {
                    assert(spec_min_count(amounts0, sender@, colls.take(0)) == u64::MAX as int);
                }
            }
            assert(spec_sum_effective(accounts1, amounts1, colls) == total_after);
            assert forall|i: int|
                0 <= i < amounts1.len() implies accounts1.contains(
                #[trigger] amounts1[i].staker@,
            ) by {
                if amounts1[i].staker@ == sender@ {
                } else {
                    assert(spec_staker_present(amounts0, amounts1[i].staker@));
                    let w = choose|w: int|
                        0 <= w < amounts0.len() && amounts0[w].staker@ == amounts1[i].staker@;
                    assert(accounts0.contains(amounts0[w].staker@));
                    if !accounts0.contains(sender@) {
                        let v = choose|v: int|
                            0 <= v < accounts0.len() && accounts0[v] == amounts1[i].staker@;
                        assert(accounts1[v] == amounts1[i].staker@);
                    }
                }
            }
        }
        if total_before != total_after {
            let rec = self.total_staked_amount.record(total_after, height);
            proof {
                assert(rec is Ok);
            }
        }
        Ok(
            UpdateStakeResult {
                user_staked_amount: min_before as u128,
                total_staked_amount: total_before,
            },
        )
    }
}

} // verus!
