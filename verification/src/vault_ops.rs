//! The vault's operation surface: stake, unstake, claim, reward claims,
//! configuration updates and reward-pool registration.
//!
//! Each operation validates its input, runs the shared reconciliation step,
//! and returns the messages the host must dispatch: custody transfers and
//! the stake-change reports that carry the account's effective stake and
//! the global total as they stood before the operation - reward pools must
//! see the pre-operation figures, so reports go out before any later state
//! is read. Every failure leaves the vault's ledger exactly as it was.

use vstd::prelude::*;

use crate::claim::{
    claims_view, lemma_release_uncapped_items, nfts_view, spec_claims_of, spec_expired,
    spec_release, BlockInfo, Claim, ClaimView, Expiration, Nft, NftView,
};
use crate::error::ContractError;
use crate::rewards::NANOS_PER_SECOND;
use crate::vault::{
    Config,
    spec_count_of, spec_delta_of, spec_min_count, spec_min_new, CollectionDelta, NftVaultContract,
    StakedNft, UpdateStakeResult, MAX_NFTS,
};

verus! {

/// A custody transfer of one item to a recipient, for the host to
/// dispatch.
#[derive(Debug)]
pub struct TransferMsg {
    pub collection: String,
    pub token_id: String,
    pub recipient: String,
}

/// A stake-change report to one reward pool: the account's effective stake
/// and the global total before the operation.
#[derive(Debug)]
pub struct StakeChangeMsg {
    pub contract: String,
    pub recipient: String,
    pub staked_amount: u128,
    pub total_staked: u128,
}

/// A reward-claim request to one reward pool, with the same pre-operation
/// figures as a stake-change report.
#[derive(Debug)]
pub struct ClaimRewardsMsg {
    pub contract: String,
    pub recipient: String,
    pub staked_amount: u128,
    pub total_staked: u128,
}

/// What a stake or unstake hands back to the host: the items to take into
/// custody and one stake-change report per registered reward pool.
#[derive(Debug)]
pub struct StakeResponse {
    pub transfers: Vec<Nft>,
    pub stake_change_msgs: Vec<StakeChangeMsg>,
}

/// The data of a reward-pool instantiation: the pool's registry index, the
/// code template and the schedule the new pool starts from.
#[derive(Debug)]
pub struct RewardAccountMsg {
    pub index: u64,
    pub code_id: u64,
    pub label: String,
    pub denom: String,
    pub period_start: u64,
    pub duration_sec: u64,
}

/// One stake-change report per reward pool, every one carrying the same
/// pre-operation figures.
pub fn setup_stake_change_messages(
    reward_accounts: &Vec<String>,
    sender: &String,
    staked_amount: u128,
    total_staked: u128,
) -> (r: Vec<StakeChangeMsg>)
    ensures
        r@.len() == reward_accounts@.len(),
        forall|i: int|
            0 <= i < r@.len() ==> {
                &&& (#[trigger] r@[i]).contract@ == reward_accounts@[i]@
                &&& r@[i].recipient@ == sender@
                &&& r@[i].staked_amount == staked_amount
                &&& r@[i].total_staked == total_staked
            },
{
    let mut out: Vec<StakeChangeMsg> = Vec::new();
    let mut i: usize = 0;
    while i < reward_accounts.len()
        invariant
            i <= reward_accounts@.len(),
            out@.len() == i,
            forall|j: int|
                0 <= j < i ==> {
                    &&& (#[trigger] out@[j]).contract@ == reward_accounts@[j]@
                    &&& out@[j].recipient@ == sender@
                    &&& out@[j].staked_amount == staked_amount
                    &&& out@[j].total_staked == total_staked
                },
        decreases reward_accounts@.len() - i,
    {
        out.push(
            StakeChangeMsg {
                contract: reward_accounts[i].clone(),
                recipient: sender.clone(),
                staked_amount,
                total_staked,
            },
        );
        i = i + 1;
    }
    out
}

/// How many of the items belong to the collection.
pub open spec fn spec_coll_occurrences(nfts: Seq<Nft>, collection: Seq<char>) -> int
    decreases nfts.len(),
{
    if nfts.len() == 0 {
        0int
    } else {
        (if nfts.first().collection@ == collection {
            1int
        } else {
            0int
        }) + spec_coll_occurrences(nfts.drop_first(), collection)
    }
}

/// One more item adds one to its own collection's tally.
proof fn lemma_occurrences_push(nfts: Seq<Nft>, x: Nft, collection: Seq<char>)
    ensures
        spec_coll_occurrences(nfts.push(x), collection) == spec_coll_occurrences(nfts, collection)
            + (if x.collection@ == collection {
            1int
        } else {
            0int
        }),
    decreases nfts.len(),
{
    if nfts.len() == 0 {
        assert(nfts.push(x).first() == x);
        assert(nfts.push(x).drop_first() =~= Seq::<Nft>::empty());
        assert(spec_coll_occurrences(nfts.push(x).drop_first(), collection) == 0);
    } else {
        assert(nfts.push(x).first() == nfts.first());
        assert(nfts.push(x).drop_first() =~= nfts.drop_first().push(x));
        lemma_occurrences_push(nfts.drop_first(), x, collection);
    }
}

/// The tallies stay nonnegative and within the item count.
proof fn lemma_occurrences_bounds(nfts: Seq<Nft>, collection: Seq<char>)
    ensures
        0 <= spec_coll_occurrences(nfts, collection) <= nfts.len(),
    decreases nfts.len(),
{
    if nfts.len() > 0 {
        lemma_occurrences_bounds(nfts.drop_first(), collection);
    }
}

/// A collection no delta entry names keeps a zero delta.
proof fn lemma_delta_of_no_key(deltas: Seq<CollectionDelta>, collection: Seq<char>)
    requires
        forall|j: int| 0 <= j < deltas.len() ==> deltas[j].collection@ != collection,
    ensures
        spec_delta_of(deltas, collection) == 0,
    decreases deltas.len(),
{
    if deltas.len() > 0 {
        assert(forall|j: int|
            0 <= j < deltas.drop_first().len() ==> deltas.drop_first()[j] == deltas[j + 1]);
        lemma_delta_of_no_key(deltas.drop_first(), collection);
    }
}

/// Appending a new collection's delta leaves every other delta alone.
proof fn lemma_delta_of_push(deltas: Seq<CollectionDelta>, e: CollectionDelta, collection: Seq<
    char,
>)
    requires
        forall|j: int| 0 <= j < deltas.len() ==> deltas[j].collection@ != e.collection@,
    ensures
        spec_delta_of(deltas.push(e), collection) == (if collection == e.collection@ {
            e.delta as int
        } else {
            spec_delta_of(deltas, collection)
        }),
    decreases deltas.len(),
{
    if deltas.len() == 0 {
        assert(deltas.push(e).first() == e);
        assert(deltas.push(e).drop_first() =~= Seq::<CollectionDelta>::empty());
        assert(spec_delta_of(deltas.push(e).drop_first(), collection) == 0);
        assert(spec_delta_of(deltas, collection) == 0);
    } else {
        assert(deltas.push(e).first() == deltas.first());
        assert(deltas.push(e).drop_first() =~= deltas.drop_first().push(e));
        assert(forall|j: int|
            0 <= j < deltas.drop_first().len() ==> deltas.drop_first()[j] == deltas[j + 1]);
        lemma_delta_of_push(deltas.drop_first(), e, collection);
    }
}

/// Groups the items by collection into one signed delta per collection:
/// `sign` times the collection's tally.
fn build_deltas(nfts: &Vec<Nft>, sign: i64) -> (r: Vec<CollectionDelta>)
    requires
        sign == 1i64 || sign == -1i64,
        nfts@.len() <= MAX_NFTS,
    ensures
        forall|c: Seq<char>|
            #[trigger] spec_delta_of(r@, c) == sign * spec_coll_occurrences(nfts@, c),
{
    let mut out: Vec<CollectionDelta> = Vec::new();
    let mut i: usize = 0;
    while i < nfts.len()
        invariant
            i <= nfts@.len(),
            nfts@.len() <= MAX_NFTS,
            sign == 1i64 || sign == -1i64,
            forall|c: Seq<char>|
                #[trigger] spec_delta_of(out@, c) == (if spec_coll_occurrences(
                    nfts@.take(i as int),
                    c,
                ) > 0 {
                    sign * spec_coll_occurrences(nfts@, c)
                } else {
                    0int
                }),
            forall|k: int|
                0 <= k < out@.len() ==> spec_coll_occurrences(
                    nfts@.take(i as int),
                    #[trigger] out@[k].collection@,
                ) > 0,
            forall|c: Seq<char>|
                #[trigger] spec_coll_occurrences(nfts@.take(i as int), c) > 0 ==> exists|j: int|
                    0 <= j < out@.len() && out@[j].collection@ == c,
            forall|p: int, q: int|
                0 <= p < q < out@.len() ==> out@[p].collection@ != out@[q].collection@,
        decreases nfts@.len() - i,
    {
        let ghost pre = out@;
        let coll = &nfts[i].collection;
        let mut seen = false;
        let mut k: usize = 0;
        while k < out.len()
            invariant
                k <= out@.len(),
                out@ == pre,
                seen ==> exists|j: int| 0 <= j < out@.len() && out@[j].collection@ == coll@,
                !seen ==> forall|j: int| 0 <= j < k ==> out@[j].collection@ != coll@,
            decreases out@.len() - k,
        {
            if out[k].collection == *coll {
                seen = true;
            }
            k = k + 1;
        }
        if !seen {
            // Count this collection's items over the whole list.
            let mut occ: u64 = 0;
            let mut j: usize = 0;
            proof {
                assert(nfts@.take(0).len() == 0);
            }
            while j < nfts.len()
                invariant
                    j <= nfts@.len(),
                    nfts@.len() <= MAX_NFTS,
                    occ as int == spec_coll_occurrences(nfts@.take(j as int), coll@),
                    occ <= j,
                decreases nfts@.len() - j,
            {
                proof {
                    assert(nfts@.take(j + 1).drop_last() =~= nfts@.take(j as int));
                    assert(nfts@.take(j + 1) =~= nfts@.take(j as int).push(nfts@[j as int]));
                    lemma_occurrences_push(nfts@.take(j as int), nfts@[j as int], coll@);
                }
                if nfts[j].collection == *coll {
                    occ = occ + 1;
                }
                j = j + 1;
            }
            proof {
                assert(nfts@.take(nfts@.len() as int) =~= nfts@);
            }
            let delta: i64 = if sign == 1i64 {
                occ as i64
            } else {
                -(occ as i64)
            };
            let e = CollectionDelta { collection: coll.clone(), delta };
            out.push(e);
            proof {
                assert forall|c: Seq<char>| true implies #[trigger] spec_delta_of(out@, c) == (
                if spec_coll_occurrences(nfts@.take(i as int + 1), c) > 0 {
                    sign * spec_coll_occurrences(nfts@, c)
                } else {
                    0int
                }) by {
                    lemma_delta_of_push(pre, e, c);
                    assert(nfts@.take(i as int + 1) =~= nfts@.take(i as int).push(
                        nfts@[i as int],
                    ));
                    lemma_occurrences_push(nfts@.take(i as int), nfts@[i as int], c);
                    lemma_occurrences_bounds(nfts@.take(i as int), c);
                    lemma_occurrences_bounds(nfts@, c);
                    if c == e.collection@ {
                        assert(spec_coll_occurrences(nfts@.take(i as int), c) == 0) by {
                            if spec_coll_occurrences(nfts@.take(i as int), c) > 0 {
                                let w = choose|w: int|
                                    0 <= w < pre.len() && pre[w].collection@ == c;
                                assert(false);
                            }
                        }
                        assert(spec_coll_occurrences(nfts@.take(i as int + 1), c) == 1);
                    }
                }
                assert forall|k2: int| 0 <= k2 < out@.len() implies spec_coll_occurrences(
                    nfts@.take(i as int + 1),
                    #[trigger] out@[k2].collection@,
                ) > 0 by {
                    assert(nfts@.take(i as int + 1) =~= nfts@.take(i as int).push(
                        nfts@[i as int],
                    ));
                    lemma_occurrences_push(nfts@.take(i as int), nfts@[i as int], out@[
                        k2].collection@);
                    lemma_occurrences_bounds(nfts@.take(i as int), out@[k2].collection@);
                    if k2 < pre.len() {
                        assert(out@[k2] == pre[k2]);
                    } else {
                        assert(out@[k2] == e);
                    }
                }
                assert forall|c: Seq<char>|
                    #[trigger] spec_coll_occurrences(nfts@.take(i as int + 1), c)
                    > 0 implies exists|j: int| 0 <= j < out@.len() && out@[j].collection@
                    == c by {
                    assert(nfts@.take(i as int + 1) =~= nfts@.take(i as int).push(
                        nfts@[i as int],
                    ));
                    lemma_occurrences_push(nfts@.take(i as int), nfts@[i as int], c);
                    if spec_coll_occurrences(nfts@.take(i as int), c) > 0 {
                        let w = choose|w: int| 0 <= w < pre.len() && pre[w].collection@ == c;
                        assert(out@[w].collection@ == c);
                    } else {
                        assert(c == nfts@[i as int].collection@);
                        assert(out@[pre.len() as int].collection@ == c);
                    }
                }
            }
        } else {
            proof {
                assert forall|c: Seq<char>| true implies #[trigger] spec_delta_of(out@, c) == (
                if spec_coll_occurrences(nfts@.take(i as int + 1), c) > 0 {
                    sign * spec_coll_occurrences(nfts@, c)
                } else {
                    0int
                }) by {
                    assert(nfts@.take(i as int + 1) =~= nfts@.take(i as int).push(
                        nfts@[i as int],
                    ));
                    lemma_occurrences_push(nfts@.take(i as int), nfts@[i as int], c);
                    lemma_occurrences_bounds(nfts@.take(i as int), c);
                    if c == coll@ {
                        let w = choose|w: int| 0 <= w < out@.len() && out@[w].collection@ == coll@;
                        assert(spec_coll_occurrences(nfts@.take(i as int), c) > 0);
                    }
                }
                assert forall|k2: int| 0 <= k2 < out@.len() implies spec_coll_occurrences(
                    nfts@.take(i as int + 1),
                    #[trigger] out@[k2].collection@,
                ) > 0 by {
                    assert(nfts@.take(i as int + 1) =~= nfts@.take(i as int).push(
                        nfts@[i as int],
                    ));
                    lemma_occurrences_push(nfts@.take(i as int), nfts@[i as int], out@[
                        k2].collection@);
                }
                assert forall|c: Seq<char>|
                    #[trigger] spec_coll_occurrences(nfts@.take(i as int + 1), c)
                    > 0 implies exists|j: int| 0 <= j < out@.len() && out@[j].collection@
                    == c by {
                    assert(nfts@.take(i as int + 1) =~= nfts@.take(i as int).push(
                        nfts@[i as int],
                    ));
                    lemma_occurrences_push(nfts@.take(i as int), nfts@[i as int], c);
                    if spec_coll_occurrences(nfts@.take(i as int), c) == 0 {
                        assert(c == nfts@[i as int].collection@);
                        let w = choose|w: int| 0 <= w < out@.len() && out@[w].collection@ == coll@;
                        assert(out@[w].collection@ == c);
                    }
                }
            }
        }
        i = i + 1;
    }
    proof {
        assert(nfts@.take(nfts@.len() as int) =~= nfts@);
        assert forall|c: Seq<char>| true implies #[trigger] spec_delta_of(out@, c) == sign
            * spec_coll_occurrences(nfts@, c) by {
            lemma_occurrences_bounds(nfts@, c);
            if spec_coll_occurrences(nfts@, c) == 0 {
            }
        }
    }
    out
}

/// Whether an earlier position of the list carries the same item.
pub open spec fn spec_dup_at(nfts: Seq<Nft>, i: int) -> bool {
    exists|j: int| 0 <= j < i && (#[trigger] nfts[j])@ == nfts[i]@
}

/// Whether position `j` of a stake call passes every per-item check: not
/// a duplicate, an allowed collection, and owned by the sender.
pub open spec fn spec_stake_ok(
    nfts: Seq<Nft>,
    owners: Seq<String>,
    colls: Seq<Seq<char>>,
    sender: Seq<char>,
    j: int,
) -> bool {
    &&& !spec_dup_at(nfts, j)
    &&& colls.contains(nfts[j]@.collection)
    &&& owners[j]@ == sender
}

/// Items checked one by one give the prefix the combined per-item check.
proof fn lemma_stake_prefix_ok(
    nfts: Seq<Nft>,
    owners: Seq<String>,
    colls: Seq<Seq<char>>,
    sender: Seq<char>,
    i: int,
)
    requires
        0 <= i <= nfts.len(),
        forall|p: int, q: int| 0 <= p < q < i ==> #[trigger] nfts[p]@ != #[trigger] nfts[q]@,
        forall|j: int| 0 <= j < i ==> colls.contains(#[trigger] nfts[j]@.collection),
        forall|j: int| 0 <= j < i ==> #[trigger] owners[j]@ == sender,
    ensures
        forall|j: int| 0 <= j < i ==> spec_stake_ok(nfts, owners, colls, sender, j),
{
    assert forall|j: int| 0 <= j < i implies spec_stake_ok(nfts, owners, colls, sender, j) by {
        assert(!spec_dup_at(nfts, j));
        assert(colls.contains(nfts[j]@.collection));
    }
}

/// Whether position `j` of an unstake call passes every per-item check:
/// not a duplicate, and in custody under the sender.
pub open spec fn spec_unstake_ok(
    nfts: Seq<Nft>,
    staked: Seq<StakedNft>,
    sender: Seq<char>,
    j: int,
) -> bool {
    &&& !spec_dup_at(nfts, j)
    &&& spec_staker_of(staked, nfts[j]@) == Some(sender)
}

/// Items checked one by one give the prefix the combined per-item check.
proof fn lemma_unstake_prefix_ok(nfts: Seq<Nft>, staked: Seq<StakedNft>, sender: Seq<char>, i: int)
    requires
        0 <= i <= nfts.len(),
        forall|p: int, q: int| 0 <= p < q < i ==> #[trigger] nfts[p]@ != #[trigger] nfts[q]@,
        forall|j: int|
            0 <= j < i ==> spec_staker_of(staked, (#[trigger] nfts[j])@) == Some(sender),
    ensures
        forall|j: int| 0 <= j < i ==> spec_unstake_ok(nfts, staked, sender, j),
{
    assert forall|j: int| 0 <= j < i implies spec_unstake_ok(nfts, staked, sender, j) by {
        assert(!spec_dup_at(nfts, j));
        assert(spec_staker_of(staked, nfts[j]@) == Some(sender));
    }
}

/// The minimum the sender's counts reach over the required collections
/// once the items' per-collection tallies are applied with `sign`.
pub open spec fn spec_min_with_items(
    amounts: Seq<crate::vault::CollectionAmount>,
    nfts: Seq<Nft>,
    staker: Seq<char>,
    collections: Seq<Seq<char>>,
    sign: int,
) -> int
    decreases collections.len(),
{
    if collections.len() == 0 {
        u64::MAX as int
    } else {
        let rest = spec_min_with_items(amounts, nfts, staker, collections.drop_last(), sign);
        let c = spec_count_of(amounts, staker, collections.last()) + sign * spec_coll_occurrences(
            nfts,
            collections.last(),
        );
        if c < rest {
            c
        } else {
            rest
        }
    }
}

/// Whether every required collection's count stays a `u64` once the
/// items' tallies are applied with `sign`.
pub open spec fn spec_items_counts_ok(
    amounts: Seq<crate::vault::CollectionAmount>,
    nfts: Seq<Nft>,
    staker: Seq<char>,
    collections: Seq<Seq<char>>,
    sign: int,
) -> bool {
    forall|j: int|
        0 <= j < collections.len() ==> 0 <= spec_count_of(
            amounts,
            staker,
            #[trigger] collections[j],
        ) + sign * spec_coll_occurrences(nfts, collections[j]) <= u64::MAX
}

/// Deltas that carry exactly the items' tallies give the same new
/// minimum.
proof fn lemma_min_new_matches_items(
    amounts: Seq<crate::vault::CollectionAmount>,
    deltas: Seq<CollectionDelta>,
    nfts: Seq<Nft>,
    staker: Seq<char>,
    collections: Seq<Seq<char>>,
    sign: int,
)
    requires
        forall|c: Seq<char>| #[trigger] spec_delta_of(deltas, c) == sign * spec_coll_occurrences(
            nfts,
            c,
        ),
    ensures
        spec_min_new(amounts, deltas, staker, collections) == spec_min_with_items(
            amounts,
            nfts,
            staker,
            collections,
            sign,
        ),
    decreases collections.len(),
{
    if collections.len() > 0 {
        lemma_min_new_matches_items(amounts, deltas, nfts, staker, collections.drop_last(), sign);
    }
}

/// Who staked the item with this identity, if it is in custody.
pub open spec fn spec_staker_of(staked: Seq<StakedNft>, key: NftView) -> Option<Seq<char>>
    decreases staked.len(),
{
    if staked.len() == 0 {
        None
    } else if staked.first().nft@ == key {
        Some(staked.first().staker@)
    } else {
        spec_staker_of(staked.drop_first(), key)
    }
}

/// Item identities in custody are distinct.
pub open spec fn spec_staked_distinct(staked: Seq<StakedNft>) -> bool {
    forall|p: int, q: int| 0 <= p < q < staked.len() ==> staked[p].nft@ != staked[q].nft@
}

/// With distinct identities, position `i` is the record its item resolves
/// to.
proof fn lemma_staker_of_at(staked: Seq<StakedNft>, i: int)
    requires
        0 <= i < staked.len(),
        spec_staked_distinct(staked),
    ensures
        spec_staker_of(staked, staked[i].nft@) == Some(staked[i].staker@),
    decreases staked.len(),
{
    if i > 0 {
        assert(staked.drop_first()[i - 1] == staked[i]);
        lemma_staker_of_at(staked.drop_first(), i - 1);
    }
}

/// An item no record holds resolves to nobody.
proof fn lemma_staker_of_no_key(staked: Seq<StakedNft>, key: NftView)
    requires
        forall|j: int| 0 <= j < staked.len() ==> staked[j].nft@ != key,
    ensures
        spec_staker_of(staked, key) is None,
    decreases staked.len(),
{
    if staked.len() > 0 {
        assert(forall|j: int|
            0 <= j < staked.drop_first().len() ==> staked.drop_first()[j] == staked[j + 1]);
        lemma_staker_of_no_key(staked.drop_first(), key);
    }
}

/// Overwriting position `i` moves only its own item's record.
proof fn lemma_staker_of_update(staked: Seq<StakedNft>, i: int, e: StakedNft, key: NftView)
    requires
        0 <= i < staked.len(),
        staked[i].nft@ == e.nft@,
        spec_staked_distinct(staked),
    ensures
        spec_staker_of(staked.update(i, e), key) == (if key == e.nft@ {
            Some(e.staker@)
        } else {
            spec_staker_of(staked, key)
        }),
    decreases staked.len(),
{
    if i == 0 {
        assert(staked.update(0, e).first() == e);
        assert(staked.update(0, e).drop_first() =~= staked.drop_first());
    } else {
        assert(staked.update(i, e).first() == staked.first());
        assert(staked.update(i, e).drop_first() =~= staked.drop_first().update(i - 1, e));
        assert(staked.drop_first()[i - 1] == staked[i]);
        if key == e.nft@ && staked.first().nft@ == key {
            assert(staked[0].nft@ != staked[i].nft@);
        }
        lemma_staker_of_update(staked.drop_first(), i - 1, e, key);
    }
}

/// Appending an item not in custody moves only its own record.
proof fn lemma_staker_of_push(staked: Seq<StakedNft>, e: StakedNft, key: NftView)
    requires
        forall|j: int| 0 <= j < staked.len() ==> staked[j].nft@ != e.nft@,
    ensures
        spec_staker_of(staked.push(e), key) == (if key == e.nft@ {
            Some(e.staker@)
        } else {
            spec_staker_of(staked, key)
        }),
    decreases staked.len(),
{
    if staked.len() == 0 {
        assert(staked.push(e).first() == e);
        assert(staked.push(e).drop_first() =~= Seq::<StakedNft>::empty());
        assert(spec_staker_of(staked.push(e).drop_first(), key) is None);
        assert(spec_staker_of(staked, key) is None);
    } else {
        assert(staked.push(e).first() == staked.first());
        assert(staked.push(e).drop_first() =~= staked.drop_first().push(e));
        assert(forall|j: int|
            0 <= j < staked.drop_first().len() ==> staked.drop_first()[j] == staked[j + 1]);
        lemma_staker_of_push(staked.drop_first(), e, key);
    }
}

/// Removing position `i` clears only its own item's record.
proof fn lemma_staker_of_remove(staked: Seq<StakedNft>, i: int, key: NftView)
    requires
        0 <= i < staked.len(),
        spec_staked_distinct(staked),
    ensures
        spec_staker_of(staked.remove(i), key) == (if key == staked[i].nft@ {
            None::<Seq<char>>
        } else {
            spec_staker_of(staked, key)
        }),
        spec_staked_distinct(staked.remove(i)),
    decreases staked.len(),
{
    staked.remove_ensures(i);
    if i == 0 {
        assert(staked.remove(0) =~= staked.drop_first());
        if key == staked[0].nft@ {
            assert(forall|j: int|
                0 <= j < staked.drop_first().len() ==> #[trigger] staked.drop_first()[j].nft@
                    != key);
            lemma_staker_of_no_key(staked.drop_first(), key);
        }
    } else {
        assert(staked.remove(i).first() == staked.first());
        assert(staked.remove(i).drop_first() =~= staked.drop_first().remove(i - 1));
        assert(forall|j: int|
            0 <= j < staked.drop_first().len() ==> staked.drop_first()[j] == staked[j + 1]);
        assert(staked.drop_first()[i - 1] == staked[i]);
        lemma_staker_of_remove(staked.drop_first(), i - 1, key);
    }
}

/// The position of the record holding the item, if any.
fn staked_find(staked: &Vec<StakedNft>, nft: &Nft) -> (r: Option<usize>)
    requires
        spec_staked_distinct(staked@),
    ensures
        match r {
            Some(i) => i < staked@.len() && staked@[i as int].nft@ == nft@ && spec_staker_of(
                staked@,
                nft@,
            ) == Some(staked@[i as int].staker@),
            None => spec_staker_of(staked@, nft@) is None,
        },
{
    let mut i: usize = 0;
    while i < staked.len()
        invariant
            i <= staked@.len(),
            spec_staked_distinct(staked@),
            forall|j: int| 0 <= j < i ==> staked@[j].nft@ != nft@,
        decreases staked@.len() - i,
    {
        if staked[i].nft.collection == nft.collection && staked[i].nft.token_id == nft.token_id {
            proof {
                lemma_staker_of_at(staked@, i as int);
            }
            return Some(i);
        }
        i = i + 1;
    }
    proof {
        lemma_staker_of_no_key(staked@, nft@);
    }
    None
}

/// Records the item as staked by `staker`, replacing the record of the
/// same item if one exists; every other item's record stays.
fn staked_save(staked: &mut Vec<StakedNft>, staker: &String, nft: Nft)
    requires
        spec_staked_distinct(old(staked)@),
    ensures
        spec_staked_distinct(final(staked)@),
        forall|k: NftView|
            #[trigger] spec_staker_of(final(staked)@, k) == (if k == nft@ {
                Some(staker@)
            } else {
                spec_staker_of(old(staked)@, k)
            }),
{
    let ghost pre = staked@;
    let idx = staked_find(staked, &nft);
    let e = StakedNft { staker: staker.clone(), nft };
    match idx {
        Some(i) => {
            staked[i] = e;
            proof {
                assert forall|k: NftView| true implies #[trigger] spec_staker_of(staked@, k) == (
                if k == e.nft@ {
                    Some(e.staker@)
                } else {
                    spec_staker_of(pre, k)
                }) by {
                    lemma_staker_of_update(pre, i as int, e, k);
                }
                assert forall|p: int, q: int| 0 <= p < q < staked@.len() implies staked@[p].nft@
                    != staked@[q].nft@ by {
                    assert(pre[p].nft@ != pre[q].nft@);
                }
            }
        },
        None => {
            proof {
                if exists|j: int| 0 <= j < pre.len() && pre[j].nft@ == e.nft@ {
                    let j = choose|j: int| 0 <= j < pre.len() && pre[j].nft@ == e.nft@;
                    lemma_staker_of_at(pre, j);
                    assert(false);
                }
            }
            staked.push(e);
            proof {
                assert forall|k: NftView| true implies #[trigger] spec_staker_of(staked@, k) == (
                if k == e.nft@ {
                    Some(e.staker@)
                } else {
                    spec_staker_of(pre, k)
                }) by {
                    lemma_staker_of_push(pre, e, k);
                }
                assert forall|p: int, q: int| 0 <= p < q < staked@.len() implies staked@[p].nft@
                    != staked@[q].nft@ by {
                    if q < pre.len() {
                        assert(pre[p].nft@ != pre[q].nft@);
                    } else {
                        assert(staked@[q] == e);
                        assert(pre[p].nft@ != e.nft@);
                    }
                }
            }
        },
    }
}

impl NftVaultContract {
    /// Stakes the items for `sender`: after the allow-list and ownership
    /// checks pass, every item is recorded in custody under the sender,
    /// the per-collection counts grow by the items' tallies, the snapshot
    /// total moves by the effective-stake difference, and the response
    /// carries the custody transfers to dispatch and one stake-change
    /// report per reward pool with the pre-operation figures. `owners[i]`
    /// is the current external owner of `nfts[i]` as the host queried it;
    /// an item not owned by the sender fails the whole call. Every failure
    /// leaves the vault unchanged.
    #[verifier::rlimit(60)]
    pub fn stake(
        &mut self,
        block: &BlockInfo,
        sender: &String,
        nfts: Vec<Nft>,
        owners: &Vec<String>,
    ) -> (r: Result<StakeResponse, ContractError>)
        requires
            old(self).wf(),
            block.height >= old(self).total_staked_amount@.last().height,
            owners@.len() == nfts@.len(),
        ensures
            final(self).wf(),
            final(self).config == old(self).config,
            final(self).claims == old(self).claims,
            final(self).reward_accounts == old(self).reward_accounts,
            ({
                let colls = old(self).colls();
                let amounts0 = old(self).amounts();
                let eff_before = spec_min_count(amounts0, sender@, colls);
                let eff_after = spec_min_with_items(amounts0, nfts@, sender@, colls, 1);
                let total0 = old(self).total_staked_amount.spec_current();
                let valid = 0 < nfts@.len() <= MAX_NFTS && (forall|i: int, j: int|
                    0 <= i < j < nfts@.len() ==> #[trigger] nfts@[i]@ != #[trigger] nfts@[j]@)
                    && (forall|i: int|
                    0 <= i < nfts@.len() ==> colls.contains(#[trigger] nfts@[i]@.collection))
                    && (forall|i: int| 0 <= i < owners@.len() ==> #[trigger] owners@[i]@
                    == sender@);
                match r {
                    Ok(res) => {
                        &&& valid
                        &&& eff_before < u64::MAX as int
                        &&& eff_after < u64::MAX as int
                        &&& final(self).total_staked_amount.spec_current() == total0 - eff_before
                            + eff_after
                        &&& forall|i: int|
                            0 <= i < nfts@.len() ==> spec_staker_of(
                                final(self).users_staked_nfts@,
                                #[trigger] nfts@[i]@,
                            ) == Some(sender@)
                        &&& forall|k: NftView|
                            (forall|i: int| 0 <= i < nfts@.len() ==> #[trigger] nfts@[i]@ != k)
                                ==> #[trigger] spec_staker_of(final(self).users_staked_nfts@, k)
                                == spec_staker_of(old(self).users_staked_nfts@, k)
                        &&& forall|c: Seq<char>|
                            colls.contains(c) ==> #[trigger] spec_count_of(
                                final(self).amounts(),
                                sender@,
                                c,
                            ) as int == spec_count_of(amounts0, sender@, c)
                                + spec_coll_occurrences(nfts@, c)
                        &&& forall|s: Seq<char>, c: Seq<char>|
                            s != sender@ ==> #[trigger] spec_count_of(final(self).amounts(), s, c)
                                == spec_count_of(amounts0, s, c)
                        &&& nfts_view(res.transfers@) == nfts_view(nfts@)
                        &&& res.stake_change_msgs@.len() == old(self).reward_accounts@.len()
                        &&& forall|i: int|
                            0 <= i < res.stake_change_msgs@.len() ==> {
                                &&& (#[trigger] res.stake_change_msgs@[i]).contract@ == old(
                                    self,
                                ).reward_accounts@[i]@
                                &&& res.stake_change_msgs@[i].recipient@ == sender@
                                &&& res.stake_change_msgs@[i].staked_amount == eff_before
                                &&& res.stake_change_msgs@[i].total_staked == total0
                            }
                    },
                    Err(e) => {
                        &&& *final(self) == *old(self)
                        &&& match e {
                            ContractError::InvalidInput(_) => nfts@.len() == 0 || nfts@.len()
                                > MAX_NFTS || (exists|i: int|
                                0 <= i < nfts@.len() && (forall|j: int|
                                    0 <= j < i ==> spec_stake_ok(
                                        nfts@,
                                        owners@,
                                        colls,
                                        sender@,
                                        j,
                                    )) && (spec_dup_at(nfts@, i) || !colls.contains(
                                    (#[trigger] nfts@[i])@.collection,
                                ))),
                            ContractError::Unauthorized(_) => exists|i: int|
                                0 <= i < nfts@.len() && (forall|j: int|
                                    0 <= j < i ==> spec_stake_ok(
                                        nfts@,
                                        owners@,
                                        colls,
                                        sender@,
                                        j,
                                    )) && !spec_dup_at(nfts@, i) && colls.contains(
                                    (#[trigger] nfts@[i])@.collection,
                                ) && owners@[i]@ != sender@,
                            ContractError::Overflow => valid && (!spec_items_counts_ok(
                                amounts0,
                                nfts@,
                                sender@,
                                colls,
                                1,
                            ) || (eff_before < u64::MAX as int && eff_after < u64::MAX as int && (
                            total0 - eff_before < 0 || total0 - eff_before + eff_after
                                > u128::MAX))),
                            ContractError::InternalError(_) => valid && spec_items_counts_ok(
                                amounts0,
                                nfts@,
                                sender@,
                                colls,
                                1,
                            ) && (eff_before == u64::MAX as int || eff_after == u64::MAX as int),
                            _ => false,
                        }
                    },
                }
            }),
    {
        if nfts.len() == 0 {
            return Err(ContractError::InvalidInput(String::from_str("no nfts to stake")));
        }
        if nfts.len() > MAX_NFTS {
            return Err(ContractError::InvalidInput(String::from_str("too many nfts to stake")));
        }
        let ghost colls = self.colls();
        let mut i: usize = 0;
        while i < nfts.len()
            invariant
                i <= nfts@.len(),
                owners@.len() == nfts@.len(),
                *self == *old(self),
                old(self).wf(),
                colls == self.colls(),
                forall|p: int, q: int|
                    0 <= p < q < i ==> #[trigger] nfts@[p]@ != #[trigger] nfts@[q]@,
                forall|j: int| 0 <= j < i ==> colls.contains(#[trigger] nfts@[j]@.collection),
                forall|j: int| 0 <= j < i ==> #[trigger] owners@[j]@ == sender@,
            decreases nfts@.len() - i,
        {
            let mut d: usize = 0;
            while d < i
                invariant
                    d <= i < nfts@.len(),
                    owners@.len() == nfts@.len(),
                    *self == *old(self),
                    old(self).wf(),
                    colls == self.colls(),
                    forall|p: int, q: int|
                        0 <= p < q < i ==> #[trigger] nfts@[p]@ != #[trigger] nfts@[q]@,
                    forall|j: int| 0 <= j < i ==> colls.contains(#[trigger] nfts@[j]@.collection),
                    forall|j: int| 0 <= j < i ==> #[trigger] owners@[j]@ == sender@,
                    forall|p: int| 0 <= p < d ==> #[trigger] nfts@[p]@ != nfts@[i as int]@,
                decreases i - d,
            {
                if nfts[d] == nfts[i] {
                    proof {
                        lemma_stake_prefix_ok(nfts@, owners@, colls, sender@, i as int);
                        assert(spec_dup_at(nfts@, i as int));
                    }
                    return Err(ContractError::InvalidInput(String::from_str("duplicate nft")));
                }
                d = d + 1;
            }
            proof {
                assert(!spec_dup_at(nfts@, i as int));
                lemma_stake_prefix_ok(nfts@, owners@, colls, sender@, i as int);
            }
            let mut allowed = false;
            let mut k: usize = 0;
            while k < self.config.collections.len()
                invariant
                    k <= self.config.collections@.len(),
                    colls == self.colls(),
                    allowed ==> colls.contains(nfts@[i as int]@.collection),
                    !allowed ==> forall|p: int|
                        0 <= p < k ==> colls[p] != nfts@[i as int]@.collection,
                    i < nfts@.len(),
                decreases self.config.collections@.len() - k,
            {
                if self.config.collections[k] == nfts[i].collection {
                    proof {
                        assert(colls[k as int] == nfts@[i as int]@.collection);
                    }
                    allowed = true;
                }
                k = k + 1;
            }
            if !allowed {
                proof {
                    assert(!colls.contains(nfts@[i as int]@.collection));
                }
                return Err(ContractError::InvalidInput(String::from_str(
                    "collection not allowed",
                )));
            }
            if !(owners[i] == *sender) {
                proof {
                    assert(owners@[i as int]@ != sender@);
                }
                return Err(ContractError::Unauthorized(String::from_str(
                    "nft not owned by sender",
                )));
            }
            i = i + 1;
        }
        let deltas = build_deltas(&nfts, 1i64);
        proof {
            lemma_min_new_matches_items(self.amounts(), deltas@, nfts@, sender@, colls, 1);
        }
        let res = match self.update_stake_amounts(block.height, sender, &deltas) {
            Ok(v) => v,
            Err(e) => {
                return Err(e);
            },
        };
        let mut transfers: Vec<Nft> = Vec::new();
        let mut j: usize = 0;
        let ghost staked0 = self.users_staked_nfts@;
        let ghost mid = *self;
        proof {
            assert(spec_staked_distinct(self.users_staked_nfts@));
        }
        while j < nfts.len()
            invariant
                j <= nfts@.len(),
                mid.wf(),
                self.config == mid.config,
                self.claims == mid.claims,
                self.reward_accounts == mid.reward_accounts,
                self.users_collection_staked_amounts == mid.users_collection_staked_amounts,
                self.total_staked_amount == mid.total_staked_amount,
                self.accounts == mid.accounts,
                self.config == old(self).config,
                self.claims == old(self).claims,
                self.reward_accounts == old(self).reward_accounts,
                spec_staked_distinct(self.users_staked_nfts@),
                transfers@.len() == j,
                forall|p: int| 0 <= p < j ==> #[trigger] transfers@[p]@ == nfts@[p]@,
                forall|p: int|
                    0 <= p < j ==> spec_staker_of(
                        self.users_staked_nfts@,
                        #[trigger] nfts@[p]@,
                    ) == Some(sender@),
                forall|k: NftView|
                    (forall|p: int| 0 <= p < j ==> #[trigger] nfts@[p]@ != k)
                        ==> #[trigger] spec_staker_of(self.users_staked_nfts@, k)
                        == spec_staker_of(staked0, k),
            decreases nfts@.len() - j,
        {
            let nft = &nfts[j];
            transfers.push(nft.duplicate());
            staked_save(&mut self.users_staked_nfts, sender, nft.duplicate());
            j = j + 1;
        }
        proof {
            assert(nfts_view(transfers@) =~= nfts_view(nfts@));
        }
        let msgs = setup_stake_change_messages(
            &self.reward_accounts,
            sender,
            res.user_staked_amount,
            res.total_staked_amount,
        );
        Ok(StakeResponse { transfers, stake_change_msgs: msgs })
    }
}

impl NftVaultContract {
    /// Unstakes the items for `sender`: each targeted item must be in
    /// custody and staked by the sender, and the same item may appear
    /// only once. The items leave custody into one new claim record that
    /// matures after the configured delay, the counts shrink by the
    /// items' tallies, the snapshot total moves by the effective-stake
    /// difference, and one stake-change report per reward pool carries
    /// the pre-operation figures. Every failure leaves the vault
    /// unchanged.
    #[verifier::rlimit(60)]
    pub fn unstake(&mut self, block: &BlockInfo, sender: &String, nfts: Vec<Nft>) -> (r: Result<
        Vec<StakeChangeMsg>,
        ContractError,
    >)
        requires
            old(self).wf(),
            block.height >= old(self).total_staked_amount@.last().height,
        ensures
            final(self).wf(),
            final(self).config == old(self).config,
            final(self).reward_accounts == old(self).reward_accounts,
            ({
                let colls = old(self).colls();
                let amounts0 = old(self).amounts();
                let staked0 = old(self).users_staked_nfts@;
                let eff_before = spec_min_count(amounts0, sender@, colls);
                let eff_after = spec_min_with_items(amounts0, nfts@, sender@, colls, -1);
                let total0 = old(self).total_staked_amount.spec_current();
                let delay_nanos = old(self).config.unstaking_duration_sec
                    * NANOS_PER_SECOND as int;
                let release_at = block.time + delay_nanos;
                let valid = 0 < nfts@.len() <= MAX_NFTS && (forall|i: int, j: int|
                    0 <= i < j < nfts@.len() ==> #[trigger] nfts@[i]@ != #[trigger] nfts@[j]@)
                    && (forall|i: int|
                    0 <= i < nfts@.len() ==> spec_staker_of(staked0, #[trigger] nfts@[i]@)
                        == Some(sender@));
                match r {
                    Ok(msgs) => {
                        &&& valid
                        &&& delay_nanos <= u64::MAX
                        &&& release_at <= u64::MAX
                        &&& eff_before < u64::MAX as int
                        &&& eff_after < u64::MAX as int
                        &&& final(self).total_staked_amount.spec_current() == total0 - eff_before
                            + eff_after
                        &&& forall|i: int|
                            0 <= i < nfts@.len() ==> spec_staker_of(
                                final(self).users_staked_nfts@,
                                #[trigger] nfts@[i]@,
                            ) is None
                        &&& forall|k: NftView|
                            (forall|i: int| 0 <= i < nfts@.len() ==> #[trigger] nfts@[i]@ != k)
                                ==> #[trigger] spec_staker_of(final(self).users_staked_nfts@, k)
                                == spec_staker_of(staked0, k)
                        &&& forall|c: Seq<char>|
                            colls.contains(c) ==> #[trigger] spec_count_of(
                                final(self).amounts(),
                                sender@,
                                c,
                            ) as int == spec_count_of(amounts0, sender@, c)
                                - spec_coll_occurrences(nfts@, c)
                        &&& forall|s: Seq<char>, c: Seq<char>|
                            s != sender@ ==> #[trigger] spec_count_of(final(self).amounts(), s, c)
                                == spec_count_of(amounts0, s, c)
                        &&& spec_claims_of(final(self).claims@, sender@) == spec_claims_of(
                            old(self).claims@,
                            sender@,
                        ).push(
                            ClaimView {
                                nfts: nfts_view(nfts@),
                                release_at: Expiration::AtTime(release_at as u64),
                            },
                        )
                        &&& forall|a: Seq<char>|
                            a != sender@ ==> spec_claims_of(final(self).claims@, a)
                                == spec_claims_of(old(self).claims@, a)
                        &&& msgs@.len() == old(self).reward_accounts@.len()
                        &&& forall|i: int|
                            0 <= i < msgs@.len() ==> {
                                &&& (#[trigger] msgs@[i]).contract@ == old(
                                    self,
                                ).reward_accounts@[i]@
                                &&& msgs@[i].recipient@ == sender@
                                &&& msgs@[i].staked_amount == eff_before
                                &&& msgs@[i].total_staked == total0
                            }
                    },
                    Err(e) => {
                        &&& *final(self) == *old(self)
                        &&& match e {
                            ContractError::InvalidInput(_) => nfts@.len() == 0 || nfts@.len()
                                > MAX_NFTS || (exists|i: int|
                                0 <= i < nfts@.len() && (forall|j: int|
                                    0 <= j < i ==> spec_unstake_ok(nfts@, staked0, sender@, j))
                                    && (spec_dup_at(nfts@, i) || spec_staker_of(
                                    staked0,
                                    (#[trigger] nfts@[i])@,
                                ) is None)),
                            ContractError::Unauthorized(_) => exists|i: int|
                                0 <= i < nfts@.len() && (forall|j: int|
                                    0 <= j < i ==> spec_unstake_ok(nfts@, staked0, sender@, j))
                                    && !spec_dup_at(nfts@, i) && (spec_staker_of(
                                    staked0,
                                    (#[trigger] nfts@[i])@,
                                ) matches Some(a) && a != sender@),
                            ContractError::Overflow => valid && (delay_nanos > u64::MAX
                                || release_at > u64::MAX || !spec_items_counts_ok(
                                amounts0,
                                nfts@,
                                sender@,
                                colls,
                                -1,
                            ) || (delay_nanos <= u64::MAX && release_at <= u64::MAX && eff_before
                                < u64::MAX as int && eff_after < u64::MAX as int && (total0
                                - eff_before < 0 || total0 - eff_before + eff_after
                                > u128::MAX))),
                            ContractError::InternalError(_) => valid && delay_nanos <= u64::MAX
                                && release_at <= u64::MAX && spec_items_counts_ok(
                                amounts0,
                                nfts@,
                                sender@,
                                colls,
                                -1,
                            ) && (eff_before == u64::MAX as int || eff_after == u64::MAX as int),
                            _ => false,
                        }
                    },
                }
            }),
    {
        if nfts.len() == 0 {
            return Err(ContractError::InvalidInput(String::from_str("no nfts to unstake")));
        }
        if nfts.len() > MAX_NFTS {
            return Err(
                ContractError::InvalidInput(String::from_str("too many nfts to unstake")),
            );
        }
        let ghost colls = self.colls();
        let ghost staked0 = self.users_staked_nfts@;
        let mut i: usize = 0;
        while i < nfts.len()
            invariant
                i <= nfts@.len(),
                *self == *old(self),
                old(self).wf(),
                colls == self.colls(),
                staked0 == self.users_staked_nfts@,
                forall|p: int, q: int|
                    0 <= p < q < i ==> #[trigger] nfts@[p]@ != #[trigger] nfts@[q]@,
                forall|p: int|
                    0 <= p < i ==> spec_staker_of(staked0, #[trigger] nfts@[p]@) == Some(sender@),
            decreases nfts@.len() - i,
        {
            let mut j: usize = 0;
            while j < i
                invariant
                    j <= i < nfts@.len(),
                    *self == *old(self),
                    old(self).wf(),
                    staked0 == self.users_staked_nfts@,
                    forall|p: int, q: int|
                        0 <= p < q < i ==> #[trigger] nfts@[p]@ != #[trigger] nfts@[q]@,
                    forall|p: int|
                        0 <= p < i ==> spec_staker_of(staked0, (#[trigger] nfts@[p])@) == Some(
                            sender@,
                        ),
                    forall|p: int| 0 <= p < j ==> #[trigger] nfts@[p]@ != nfts@[i as int]@,
                decreases i - j,
            {
                if nfts[j] == nfts[i] {
                    proof {
                        lemma_unstake_prefix_ok(nfts@, staked0, sender@, i as int);
                        assert(spec_dup_at(nfts@, i as int));
                    }
                    return Err(ContractError::InvalidInput(String::from_str("nft not staked")));
                }
                j = j + 1;
            }
            proof {
                assert(!spec_dup_at(nfts@, i as int));
                lemma_unstake_prefix_ok(nfts@, staked0, sender@, i as int);
            }
            match staked_find(&self.users_staked_nfts, &nfts[i]) {
                Some(k) => {
                    if !(self.users_staked_nfts[k].staker == *sender) {
                        proof {
                            assert(spec_staker_of(staked0, nfts@[i as int]@) == Some(
                                self.users_staked_nfts@[k as int].staker@,
                            ));
                            assert(self.users_staked_nfts@[k as int].staker@ != sender@);
                        }
                        return Err(
                            ContractError::Unauthorized(
                                String::from_str("nft not staked by sender"),
                            ),
                        );
                    }
                },
                None => {
                    return Err(ContractError::InvalidInput(String::from_str("nft not staked")));
                },
            }
            i = i + 1;
        }
        let delay_nanos = match self.config.unstaking_duration_sec.checked_mul(NANOS_PER_SECOND) {
            Some(v) => v,
            None => {
                return Err(ContractError::Overflow);
            },
        };
        let release_at = match block.time.checked_add(delay_nanos) {
            Some(v) => v,
            None => {
                return Err(ContractError::Overflow);
            },
        };
        let deltas = build_deltas(&nfts, -1i64);
        proof {
            lemma_min_new_matches_items(self.amounts(), deltas@, nfts@, sender@, colls, -1);
        }
        let res = match self.update_stake_amounts(block.height, sender, &deltas) {
            Ok(v) => v,
            Err(e) => {
                return Err(e);
            },
        };
        let ghost mid = *self;
        let mut j: usize = 0;
        while j < nfts.len()
            invariant
                j <= nfts@.len(),
                mid.wf(),
                self.config == mid.config,
                self.claims == mid.claims,
                self.reward_accounts == mid.reward_accounts,
                self.users_collection_staked_amounts == mid.users_collection_staked_amounts,
                self.total_staked_amount == mid.total_staked_amount,
                self.accounts == mid.accounts,
                mid.users_staked_nfts@ == staked0,
                self.config == old(self).config,
                spec_staked_distinct(self.users_staked_nfts@),
                forall|p: int, q: int|
                    0 <= p < q < nfts@.len() ==> #[trigger] nfts@[p]@ != #[trigger] nfts@[q]@,
                forall|p: int|
                    0 <= p < nfts@.len() ==> spec_staker_of(staked0, #[trigger] nfts@[p]@)
                        == Some(sender@),
                forall|p: int|
                    0 <= p < j ==> spec_staker_of(
                        self.users_staked_nfts@,
                        #[trigger] nfts@[p]@,
                    ) is None,
                forall|p: int|
                    j <= p < nfts@.len() ==> spec_staker_of(
                        self.users_staked_nfts@,
                        #[trigger] nfts@[p]@,
                    ) == Some(sender@),
                forall|k: NftView|
                    (forall|p: int| 0 <= p < nfts@.len() ==> #[trigger] nfts@[p]@ != k)
                        ==> #[trigger] spec_staker_of(self.users_staked_nfts@, k)
                        == spec_staker_of(staked0, k),
            decreases nfts@.len() - j,
        {
            staked_remove(&mut self.users_staked_nfts, &nfts[j]);
            j = j + 1;
        }
        self.claims.create_claim(sender, nfts, Expiration::AtTime(release_at));
        let msgs = setup_stake_change_messages(
            &self.reward_accounts,
            sender,
            res.user_staked_amount,
            res.total_staked_amount,
        );
        Ok(msgs)
    }

    /// Sweeps the sender's matured claim records and returns one custody
    /// transfer per released item, in stored order. A sweep that would
    /// release nothing fails instead, leaving every record in place.
    #[verifier::rlimit(100)]
    pub fn claim(&mut self, block: &BlockInfo, sender: &String) -> (r: Result<
        Vec<TransferMsg>,
        ContractError,
    >)
        requires
            old(self).wf(),
        ensures
            final(self).wf(),
            final(self).config == old(self).config,
            final(self).reward_accounts == old(self).reward_accounts,
            final(self).users_staked_nfts == old(self).users_staked_nfts,
            final(self).users_collection_staked_amounts == old(
                self,
            ).users_collection_staked_amounts,
            final(self).total_staked_amount == old(self).total_staked_amount,
            forall|a: Seq<char>|
                a != sender@ ==> spec_claims_of(final(self).claims@, a) == spec_claims_of(
                    old(self).claims@,
                    a,
                ),
            ({
                let plan = spec_release(
                    spec_claims_of(old(self).claims@, sender@),
                    *block,
                    None,
                    0,
                );
                match r {
                    Ok(transfers) => {
                        &&& plan.0.len() > 0
                        &&& transfers@.len() == plan.0.len()
                        &&& forall|i: int|
                            0 <= i < transfers@.len() ==> {
                                &&& (#[trigger] transfers@[i]).collection@ == plan.0[i].collection
                                &&& transfers@[i].token_id@ == plan.0[i].token_id
                                &&& transfers@[i].recipient@ == sender@
                            }
                        &&& spec_claims_of(final(self).claims@, sender@) == plan.1
                    },
                    Err(e) => {
                        &&& e == ContractError::ClaimableNftsNotFound
                        &&& plan.0.len() == 0
                        &&& *final(self) == *old(self)
                    },
                }
            }),
    {
        let ghost plan_claims = spec_claims_of(self.claims@, sender@);
        // A read-only pass decides whether the sweep would pay anything,
        // so a refused claim leaves the store untouched.
        let resp = self.claims.query_claims(sender);
        let mut any = false;
        let mut i: usize = 0;
        while i < resp.claims.len()
            invariant
                i <= resp.claims@.len(),
                *self == *old(self),
                old(self).wf(),
                claims_view(resp.claims@) == plan_claims,
                plan_claims == spec_claims_of(self.claims@, sender@),
                !any ==> forall|j: int|
                    0 <= j < i ==> !spec_expired((#[trigger] plan_claims[j]).release_at, *block)
                        || plan_claims[j].nfts.len() == 0,
                any ==> exists|j: int|
                    0 <= j < plan_claims.len() && spec_expired(
                        (#[trigger] plan_claims[j]).release_at,
                        *block,
                    ) && plan_claims[j].nfts.len() > 0,
            decreases resp.claims@.len() - i,
        {
            proof {
                assert(claims_view(resp.claims@)[i as int] == resp.claims@[i as int]@);
            }
            if resp.claims[i].release_at.is_expired(block) && resp.claims[i].nfts.len() > 0 {
                any = true;
            }
            i = i + 1;
        }
        proof {
            lemma_release_uncapped_items(plan_claims, *block, 0);
        }
        if !any {
            return Err(ContractError::ClaimableNftsNotFound);
        }
        let mut claimable = self.claims.claim_tokens(sender, block, None);
        proof {
            assert(self.claims.wf());
            assert(self.wf());
            assert(nfts_view(claimable@).len() > 0);
            assert(claimable@.len() > 0);
        }
        let ghost all = nfts_view(claimable@);
        let mut transfers: Vec<TransferMsg> = Vec::new();
        while claimable.len() > 0
            invariant
                transfers@.len() + claimable@.len() == all.len(),
                forall|i: int|
                    0 <= i < transfers@.len() ==> {
                        &&& (#[trigger] transfers@[i]).collection@ == all[i].collection
                        &&& transfers@[i].token_id@ == all[i].token_id
                        &&& transfers@[i].recipient@ == sender@
                    },
                forall|i: int|
                    0 <= i < claimable@.len() ==> #[trigger] claimable@[i]@ == all[transfers@.len()
                        + i],
            decreases claimable@.len(),
        {
            let ghost rest_pre = claimable@;
            let ghost t = transfers@.len() as int;
            let c = claimable.remove(0);
            proof {
                assert(rest_pre.remove(0) =~= rest_pre.drop_first());
                assert(forall|i: int|
                    0 <= i < claimable@.len() ==> claimable@[i] == rest_pre[i + 1]);
                assert(rest_pre[0]@ == all[t]);
                assert(c@ == all[t]);
            }
            transfers.push(
                TransferMsg {
                    collection: c.collection,
                    token_id: c.token_id,
                    recipient: sender.clone(),
                },
            );
        }
        Ok(transfers)
    }

    /// Triggers a reward claim on every registered pool: runs the
    /// reconciliation step with no deltas, which leaves every count and
    /// the total where they were, and returns one claim request per pool
    /// carrying the sender's effective stake and the global total.
    pub fn claim_rewards(&mut self, height: u64, sender: &String) -> (r: Result<
        Vec<ClaimRewardsMsg>,
        ContractError,
    >)
        requires
            old(self).wf(),
            height >= old(self).total_staked_amount@.last().height,
        ensures
            final(self).wf(),
            final(self).config == old(self).config,
            final(self).claims == old(self).claims,
            final(self).users_staked_nfts == old(self).users_staked_nfts,
            final(self).reward_accounts == old(self).reward_accounts,
            ({
                let colls = old(self).colls();
                let amounts0 = old(self).amounts();
                let eff = spec_min_count(amounts0, sender@, colls);
                let total0 = old(self).total_staked_amount.spec_current();
                match r {
                    Ok(msgs) => {
                        &&& eff < u64::MAX as int
                        &&& final(self).total_staked_amount.spec_current() == total0
                        &&& forall|s: Seq<char>, c: Seq<char>|
                            #[trigger] spec_count_of(final(self).amounts(), s, c)
                                == spec_count_of(amounts0, s, c)
                        &&& msgs@.len() == old(self).reward_accounts@.len()
                        &&& forall|i: int|
                            0 <= i < msgs@.len() ==> {
                                &&& (#[trigger] msgs@[i]).contract@ == old(
                                    self,
                                ).reward_accounts@[i]@
                                &&& msgs@[i].recipient@ == sender@
                                &&& msgs@[i].staked_amount == eff
                                &&& msgs@[i].total_staked == total0
                            }
                    },
                    Err(e) => {
                        &&& *final(self) == *old(self)
                        &&& match e {
                            ContractError::InternalError(_) => eff == u64::MAX as int,
                            ContractError::Overflow => eff < u64::MAX as int && (total0 - eff < 0
                                || total0 > u128::MAX),
                            _ => false,
                        }
                    },
                }
            }),
    {
        let ghost colls = self.colls();
        let ghost amounts0 = self.amounts();
        let deltas: Vec<CollectionDelta> = Vec::new();
        proof {
            assert forall|c: Seq<char>| #[trigger] spec_delta_of(deltas@, c) == 0 by {}
            lemma_min_count_zero_deltas(amounts0, deltas@, sender@, colls);
        }
        let res = match self.update_stake_amounts(height, sender, &deltas) {
            Ok(v) => v,
            Err(e) => {
                return Err(e);
            },
        };
        let mut out: Vec<ClaimRewardsMsg> = Vec::new();
        let mut i: usize = 0;
        let ghost mid = *self;
        while i < self.reward_accounts.len()
            invariant
                i <= self.reward_accounts@.len(),
                *self == mid,
                out@.len() == i,
                forall|j: int|
                    0 <= j < i ==> {
                        &&& (#[trigger] out@[j]).contract@ == self.reward_accounts@[j]@
                        &&& out@[j].recipient@ == sender@
                        &&& out@[j].staked_amount == res.user_staked_amount
                        &&& out@[j].total_staked == res.total_staked_amount
                    },
            decreases self.reward_accounts@.len() - i,
        {
            out.push(
                ClaimRewardsMsg {
                    contract: self.reward_accounts[i].clone(),
                    recipient: sender.clone(),
                    staked_amount: res.user_staked_amount,
                    total_staked: res.total_staked_amount,
                },
            );
            i = i + 1;
        }
        Ok(out)
    }

    /// Replaces the reward-pool code template or the withdrawal delay,
    /// whichever is given; everything else stays.
    pub fn update_config(
        &mut self,
        rewards_code_id: Option<u64>,
        unstaking_duration_sec: Option<u64>,
    )
        requires
            old(self).wf(),
        ensures
            final(self).wf(),
            final(self).config.rewards_code_id == (match rewards_code_id {
                Some(v) => v,
                None => old(self).config.rewards_code_id,
            }),
            final(self).config.unstaking_duration_sec == (match unstaking_duration_sec {
                Some(v) => v,
                None => old(self).config.unstaking_duration_sec,
            }),
            final(self).config.collections == old(self).config.collections,
            final(self).reward_accounts == old(self).reward_accounts,
            final(self).users_staked_nfts == old(self).users_staked_nfts,
            final(self).users_collection_staked_amounts == old(
                self,
            ).users_collection_staked_amounts,
            final(self).total_staked_amount == old(self).total_staked_amount,
            final(self).claims == old(self).claims,
    {
        if let Some(v) = rewards_code_id {
            self.config.rewards_code_id = v;
        }
        if let Some(v) = unstaking_duration_sec {
            self.config.unstaking_duration_sec = v;
        }
    }

    /// Registers a reward pool under the address the host derived for it
    /// and hands back the data its instantiation needs: the pool's index
    /// in the registry, the configured code template and the emission
    /// schedule to start from.
    pub fn create_reward_account(
        &mut self,
        reward_account: String,
        label: String,
        denom: String,
        period_start: u64,
        duration_sec: u64,
    ) -> (r: RewardAccountMsg)
        requires
            old(self).wf(),
            old(self).reward_accounts@.len() < u64::MAX,
        ensures
            final(self).wf(),
            final(self).reward_accounts@ == old(self).reward_accounts@.push(reward_account),
            final(self).config == old(self).config,
            final(self).claims == old(self).claims,
            final(self).users_staked_nfts == old(self).users_staked_nfts,
            final(self).users_collection_staked_amounts == old(
                self,
            ).users_collection_staked_amounts,
            final(self).total_staked_amount == old(self).total_staked_amount,
            r.index == old(self).reward_accounts@.len(),
            r.code_id == old(self).config.rewards_code_id,
            r.label == label,
            r.denom == denom,
            r.period_start == period_start,
            r.duration_sec == duration_sec,
    {
        let index = self.reward_accounts.len() as u64;
        let code_id = self.config.rewards_code_id;
        self.reward_accounts.push(reward_account);
        RewardAccountMsg { index, code_id, label, denom, period_start, duration_sec }
    }

    /// The vault's configuration.
    pub fn config(&self) -> (r: &Config)
        ensures
            r == &self.config,
    {
        &self.config
    }

    /// The registered reward pools, in registration order.
    pub fn reward_accounts(&self) -> (r: &Vec<String>)
        ensures
            r == &self.reward_accounts,
    {
        &self.reward_accounts
    }

    /// An account's full claim list, released or not, without mutation.
    pub fn claims(&self, staker: &String) -> (r: crate::claim::ClaimsResponse)
        requires
            self.wf(),
        ensures
            crate::claim::claims_view(r.claims@) == spec_claims_of(self.claims@, staker@),
    {
        self.claims.query_claims(staker)
    }

    /// The total effective stake in effect at the given height, or at the
    /// current height when none is given; nothing if the series starts
    /// later.
    pub fn total_staked_amount_at_height(&self, height: Option<u64>, current_height: u64) -> (r:
        Option<u128>)
        requires
            self.wf(),
        ensures
            r == crate::snapshot::spec_value_at(
                self.total_staked_amount@,
                match height {
                    Some(h) => h,
                    None => current_height,
                },
            ),
    {
        let h = match height {
            Some(h) => h,
            None => current_height,
        };
        self.total_staked_amount.may_load_at_height(h)
    }
}

/// With no deltas at all, the new minimum is the old one.
proof fn lemma_min_count_zero_deltas(
    amounts: Seq<crate::vault::CollectionAmount>,
    deltas: Seq<CollectionDelta>,
    staker: Seq<char>,
    collections: Seq<Seq<char>>,
)
    requires
        forall|c: Seq<char>| #[trigger] spec_delta_of(deltas, c) == 0,
    ensures
        spec_min_new(amounts, deltas, staker, collections) == spec_min_count(
            amounts,
            staker,
            collections,
        ),
    decreases collections.len(),
{
    if collections.len() > 0 {
        lemma_min_count_zero_deltas(amounts, deltas, staker, collections.drop_last());
    }
}

/// Takes the item's record out of custody; every other item's record
/// stays.
fn staked_remove(staked: &mut Vec<StakedNft>, nft: &Nft)
    requires
        spec_staked_distinct(old(staked)@),
        spec_staker_of(old(staked)@, nft@) is Some,
    ensures
        spec_staked_distinct(final(staked)@),
        forall|k: NftView|
            #[trigger] spec_staker_of(final(staked)@, k) == (if k == nft@ {
                None::<Seq<char>>
            } else {
                spec_staker_of(old(staked)@, k)
            }),
{
    let ghost pre = staked@;
    let idx = staked_find(staked, nft);
    match idx {
        Some(i) => {
            staked.remove(i);
            proof {
                assert forall|k: NftView| true implies #[trigger] spec_staker_of(staked@, k) == (
                if k == nft@ {
                    None::<Seq<char>>
                } else {
                    spec_staker_of(pre, k)
                }) by {
                    lemma_staker_of_remove(pre, i as int, k);
                }
                lemma_staker_of_remove(pre, i as int, nft@);
            }
        },
        None => {
            proof {
                assert(false);
            }
        },
    }
}

} // verus!
