//! The vault's paginated read-only queries.
//!
//! Both queries walk their store in natural-key order - (collection, item)
//! for custody records, collection for per-bucket counts - backwards when
//! descending. A cursor holds the last-seen key; the page resumes with keys
//! strictly past it in the walk's direction, whether or not an entry still
//! carries the cursor key itself. The page size is capped.

use vstd::prelude::*;

use crate::claim::{Nft, NftView};
use crate::query::{
    effective_limit, lemma_str_lt_connected, lemma_str_lt_transitive, spec_limit, spec_str_lt,
    str_lt, QueryOptions,
};
use crate::vault::{spec_amounts_distinct, CollectionAmount, NftVaultContract, StakedNft};
use crate::vault_ops::spec_staked_distinct;

verus! {

/// The mathematical value of a staked-item record.
#[verifier::ext_equal]
pub ghost struct StakedNftView {
    pub staker: Seq<char>,
    pub nft: NftView,
}

impl View for StakedNft {
    type V = StakedNftView;

    open spec fn view(&self) -> StakedNftView {
        StakedNftView { staker: self.staker@, nft: self.nft@ }
    }
}

/// The natural-key order of custody records: by collection, then by item
/// id, each in code-point order.
pub open spec fn spec_nft_key_lt(a: NftView, b: NftView) -> bool {
    spec_str_lt(a.collection, b.collection) || (a.collection == b.collection && spec_str_lt(
        a.token_id,
        b.token_id,
    ))
}

/// Whether key `a` comes strictly before key `b` in the walk's direction.
pub open spec fn spec_nft_key_before(a: NftView, b: NftView, desc: bool) -> bool {
    if desc {
        spec_nft_key_lt(b, a)
    } else {
        spec_nft_key_lt(a, b)
    }
}

/// The key a custody cursor names.
pub open spec fn spec_cursor_nft(c: (String, String)) -> NftView {
    NftView { collection: c.0@, token_id: c.1@ }
}

/// The key order is strict: never both ways, and two unordered keys are
/// equal.
proof fn lemma_nft_key_connected(a: NftView, b: NftView)
    ensures
        spec_nft_key_lt(a, b) ==> !spec_nft_key_lt(b, a),
        !spec_nft_key_lt(a, b) && !spec_nft_key_lt(b, a) ==> a == b,
{
    lemma_str_lt_connected(a.collection, b.collection);
    lemma_str_lt_connected(a.token_id, b.token_id);
}

/// The directed order is strict as well.
proof fn lemma_nft_before_connected(a: NftView, b: NftView, desc: bool)
    ensures
        spec_nft_key_before(a, b, desc) ==> !spec_nft_key_before(b, a, desc),
        !spec_nft_key_before(a, b, desc) && !spec_nft_key_before(b, a, desc) ==> a == b,
{
    lemma_nft_key_connected(a, b);
    lemma_nft_key_connected(b, a);
}

/// The key order chains.
proof fn lemma_nft_key_transitive(a: NftView, b: NftView, c: NftView)
    requires
        spec_nft_key_lt(a, b),
        spec_nft_key_lt(b, c),
    ensures
        spec_nft_key_lt(a, c),
{
    if spec_str_lt(a.collection, b.collection) && spec_str_lt(b.collection, c.collection) {
        lemma_str_lt_transitive(a.collection, b.collection, c.collection);
    }
    if spec_str_lt(a.token_id, b.token_id) && spec_str_lt(b.token_id, c.token_id) {
        lemma_str_lt_transitive(a.token_id, b.token_id, c.token_id);
    }
}

/// The directed order chains as well.
proof fn lemma_nft_before_transitive(a: NftView, b: NftView, c: NftView, desc: bool)
    requires
        spec_nft_key_before(a, b, desc),
        spec_nft_key_before(b, c, desc),
    ensures
        spec_nft_key_before(a, c, desc),
{
    if desc {
        lemma_nft_key_transitive(c, b, a);
    } else {
        lemma_nft_key_transitive(a, b, c);
    }
}

/// Whether `a` comes strictly before `b` in the walk's direction.
fn nft_key_before(a: &Nft, b: &Nft, desc: bool) -> (r: bool)
    ensures
        r == spec_nft_key_before(a@, b@, desc),
{
    let (x, y) = if desc {
        (b, a)
    } else {
        (a, b)
    };
    if str_lt(&x.collection, &y.collection) {
        true
    } else if x.collection == y.collection {
        str_lt(&x.token_id, &y.token_id)
    } else {
        false
    }
}

/// Whether the record may appear on the page: it belongs to the staker and
/// its key lies strictly past the bound in the walk's direction.
pub open spec fn spec_nft_cand(
    e: StakedNftView,
    staker: Seq<char>,
    bound: Option<NftView>,
    desc: bool,
) -> bool {
    e.staker == staker && (match bound {
        Some(b) => spec_nft_key_before(b, e.nft, desc),
        None => true,
    })
}

/// The key the exec bound holds, if any.
pub open spec fn spec_bound_nft(b: Option<Nft>) -> Option<NftView> {
    match b {
        Some(n) => Some(n@),
        None => None,
    }
}

impl NftVaultContract {
    /// A page of the account's staked items: every entry belongs to the
    /// staker and sits in the store; entries follow the (collection, item)
    /// key order in the requested direction and lie strictly past the
    /// cursor key when one is given; and every stored record of the staker
    /// past the cursor appears, unless the page is full and the record
    /// lies past its last entry.
    pub fn users_staked_nfts(
        &self,
        staker: &String,
        query_options: &QueryOptions<(String, String)>,
    ) -> (r: Vec<StakedNft>)
        requires
            self.wf(),
        ensures
            ({
                let lim = spec_limit(query_options.limit);
                let desc = query_options.descending == Some(true);
                let store = self.users_staked_nfts@;
                &&& r@.len() <= lim
                &&& forall|i: int|
                    0 <= i < r@.len() ==> {
                        &&& (#[trigger] r@[i])@.staker == staker@
                        &&& exists|w: int| 0 <= w < store.len() && (#[trigger] store[w])@ == r@[i]@
                        &&& (query_options.start_after matches Some(c) ==> spec_nft_key_before(
                            spec_cursor_nft(c),
                            r@[i]@.nft,
                            desc,
                        ))
                    }
                &&& forall|i: int, j: int|
                    0 <= i < j < r@.len() ==> spec_nft_key_before(
                        (#[trigger] r@[i])@.nft,
                        (#[trigger] r@[j])@.nft,
                        desc,
                    )
                &&& forall|w: int|
                    (0 <= w < store.len() && (#[trigger] store[w])@.staker == staker@ && (
                    query_options.start_after matches Some(c) ==> spec_nft_key_before(
                        spec_cursor_nft(c),
                        store[w]@.nft,
                        desc,
                    ))) ==> ((exists|i: int|
                        0 <= i < r@.len() && (#[trigger] r@[i])@ == store[w]@) || (r@.len() == lim
                        && (r@.len() == 0 || spec_nft_key_before(
                        r@[r@.len() - 1]@.nft,
                        store[w]@.nft,
                        desc,
                    ))))
            }),
    {
        let lim = effective_limit(&query_options.limit);
        let desc = match query_options.descending {
            Some(b) => b,
            None => false,
        };
        let ghost store = self.users_staked_nfts@;
        let mut bound: Option<Nft> = match &query_options.start_after {
            Some(c) => Some(Nft { collection: c.0.clone(), token_id: c.1.clone() }),
            None => None,
        };
        let mut out: Vec<StakedNft> = Vec::new();
        proof {
            assert(spec_staked_distinct(store));
        }
        while out.len() < lim
            invariant
                spec_staked_distinct(store),
                store == self.users_staked_nfts@,
                out@.len() <= lim,
                lim == spec_limit(query_options.limit),
                desc == (query_options.descending == Some(true)),
                match spec_bound_nft(bound) {
                    Some(b) => (if out@.len() > 0 {
                        b == out@[out@.len() - 1]@.nft
                    } else {
                        query_options.start_after matches Some(c) && b == spec_cursor_nft(c)
                    }),
                    None => out@.len() == 0 && query_options.start_after is None,
                },
                forall|i: int|
                    0 <= i < out@.len() ==> {
                        &&& (#[trigger] out@[i])@.staker == staker@
                        &&& exists|w: int|
                            0 <= w < store.len() && (#[trigger] store[w])@ == out@[i]@
                        &&& (query_options.start_after matches Some(c) ==> spec_nft_key_before(
                            spec_cursor_nft(c),
                            out@[i]@.nft,
                            desc,
                        ))
                    },
                forall|i: int, j: int|
                    0 <= i < j < out@.len() ==> spec_nft_key_before(
                        (#[trigger] out@[i])@.nft,
                        (#[trigger] out@[j])@.nft,
                        desc,
                    ),
                forall|w: int|
                    (0 <= w < store.len() && out@.len() > 0 && (#[trigger] store[w])@.staker
                        == staker@ && (query_options.start_after matches Some(c)
                        ==> spec_nft_key_before(spec_cursor_nft(c), store[w]@.nft, desc))
                        && !spec_nft_key_before(out@[out@.len() - 1]@.nft, store[w]@.nft, desc))
                        ==> exists|i: int|
                        0 <= i < out@.len() && (#[trigger] out@[i])@ == store[w]@,
            decreases lim - out@.len(),
        {
            let ghost bk = spec_bound_nft(bound);
            let mut best: Option<usize> = None;
            let mut w: usize = 0;
            while w < self.users_staked_nfts.len()
                invariant
                    w <= store.len(),
                    spec_staked_distinct(store),
                    store == self.users_staked_nfts@,
                    bk == spec_bound_nft(bound),
                    match best {
                        Some(b) => b < store.len() && spec_nft_cand(
                            store[b as int]@,
                            staker@,
                            bk,
                            desc,
                        ) && (forall|v: int|
                            0 <= v < w && spec_nft_cand((#[trigger] store[v])@, staker@, bk, desc)
                                ==> !spec_nft_key_before(
                                store[v]@.nft,
                                store[b as int]@.nft,
                                desc,
                            )),
                        None => forall|v: int|
                            0 <= v < w ==> !spec_nft_cand(
                                (#[trigger] store[v])@,
                                staker@,
                                bk,
                                desc,
                            ),
                    },
                decreases store.len() - w,
            {
                let e = &self.users_staked_nfts[w];
                let in_range = match &bound {
                    Some(b) => nft_key_before(b, &e.nft, desc),
                    None => true,
                };
                if e.staker == *staker && in_range {
                    proof {
                        assert(spec_nft_cand(store[w as int]@, staker@, bk, desc));
                        lemma_nft_before_connected(
                            store[w as int]@.nft,
                            store[w as int]@.nft,
                            desc,
                        );
                    }
                    match best {
                        None => {
                            best = Some(w);
                        },
                        Some(bidx) => {
                            if nft_key_before(&e.nft, &self.users_staked_nfts[bidx].nft, desc) {
                                proof {
                                    assert forall|v: int|
                                        0 <= v < w + 1 && spec_nft_cand(
                                            (#[trigger] store[v])@,
                                            staker@,
                                            bk,
                                            desc,
                                        ) implies !spec_nft_key_before(
                                        store[v]@.nft,
                                        store[w as int]@.nft,
                                        desc,
                                    ) by {
                                        lemma_nft_before_connected(
                                            store[v]@.nft,
                                            store[w as int]@.nft,
                                            desc,
                                        );
                                        if v < w && spec_nft_key_before(
                                            store[v]@.nft,
                                            store[w as int]@.nft,
                                            desc,
                                        ) {
                                            lemma_nft_before_transitive(
                                                store[v]@.nft,
                                                store[w as int]@.nft,
                                                store[bidx as int]@.nft,
                                                desc,
                                            );
                                        }
                                    }
                                }
                                best = Some(w);
                            }
                        },
                    }
                } else {
                    proof {
                        assert(!spec_nft_cand(store[w as int]@, staker@, bk, desc));
                    }
                }
                w = w + 1;
            }
            match best {
                Some(bidx) => {
                    let e = &self.users_staked_nfts[bidx];
                    let ghost pre = out@;
                    let ghost newv = store[bidx as int]@;
                    proof {
                        // the new entry lies past the cursor: directly when
                        // the page was empty, through its predecessor else
                        if query_options.start_after is Some && pre.len() > 0 {
                            let c = query_options.start_after->Some_0;
                            lemma_nft_before_transitive(
                                spec_cursor_nft(c),
                                pre[pre.len() - 1]@.nft,
                                newv.nft,
                                desc,
                            );
                        }
                    }
                    out.push(StakedNft { staker: e.staker.clone(), nft: e.nft.duplicate() });
                    bound = Some(e.nft.duplicate());
                    proof {
                        assert(out@[out@.len() - 1]@ == newv);
                        assert forall|i: int, j: int|
                            0 <= i < j < out@.len() implies spec_nft_key_before(
                            (#[trigger] out@[i])@.nft,
                            (#[trigger] out@[j])@.nft,
                            desc,
                        ) by {
                            if j == out@.len() - 1 {
                                if i < pre.len() - 1 {
                                    lemma_nft_before_transitive(
                                        pre[i]@.nft,
                                        pre[pre.len() - 1]@.nft,
                                        newv.nft,
                                        desc,
                                    );
                                }
                            }
                        }
                        assert forall|w2: int|
                            (0 <= w2 < store.len() && out@.len() > 0 && (#[trigger] store[
                            w2])@.staker == staker@ && (query_options.start_after matches Some(c)
                            ==> spec_nft_key_before(spec_cursor_nft(c), store[w2]@.nft, desc))
                            && !spec_nft_key_before(
                            out@[out@.len() - 1]@.nft,
                            store[w2]@.nft,
                            desc,
                        )) implies exists|i: int|
                            0 <= i < out@.len() && (#[trigger] out@[i])@ == store[w2]@ by {
                            lemma_nft_before_connected(store[w2]@.nft, newv.nft, desc);
                            if store[w2]@.nft == newv.nft {
                                // custody keys are distinct: this is the
                                // entry just emitted
                                assert(w2 == bidx as int);
                                assert(out@[out@.len() - 1]@ == store[w2]@);
                            } else {
                                assert(spec_nft_key_before(store[w2]@.nft, newv.nft, desc));
                                if pre.len() > 0 {
                                    lemma_nft_before_connected(
                                        pre[pre.len() - 1]@.nft,
                                        store[w2]@.nft,
                                        desc,
                                    );
                                    if spec_nft_key_before(
                                        pre[pre.len() - 1]@.nft,
                                        store[w2]@.nft,
                                        desc,
                                    ) {
                                        // strictly between the old last entry
                                        // and the emitted key: the scan would
                                        // have preferred it
                                        assert(spec_nft_cand(store[w2]@, staker@, bk, desc));
                                        assert(false);
                                    } else {
                                        let i = choose|i: int|
                                            0 <= i < pre.len() && (#[trigger] pre[i])@ == store[
                                            w2]@;
                                        assert(out@[i]@ == store[w2]@);
                                    }
                                } else {
                                    // with an empty page the bound was the
                                    // cursor, so this key was a candidate
                                    // the scan would have preferred
                                    assert(spec_nft_cand(store[w2]@, staker@, bk, desc));
                                    assert(false);
                                }
                            }
                        }
                    }
                },
                None => {
                    proof {
                        assert forall|w2: int|
                            (0 <= w2 < store.len() && (#[trigger] store[w2])@.staker == staker@
                            && (query_options.start_after matches Some(c)
                            ==> spec_nft_key_before(
                                spec_cursor_nft(c),
                                store[w2]@.nft,
                                desc,
                            ))) implies exists|i: int|
                            0 <= i < out@.len() && (#[trigger] out@[i])@ == store[w2]@ by {
                            if out@.len() == 0 {
                                assert(spec_nft_cand(store[w2]@, staker@, bk, desc));
                                assert(false);
                            } else {
                                let last = out@[out@.len() - 1]@.nft;
                                lemma_nft_before_connected(last, store[w2]@.nft, desc);
                                if spec_nft_key_before(last, store[w2]@.nft, desc) {
                                    assert(spec_nft_cand(store[w2]@, staker@, bk, desc));
                                    assert(false);
                                }
                            }
                        }
                    }
                    return out;
                },
            }
        }
        out
    }
}


/// Whether string `a` comes strictly before string `b` in the walk's
/// direction.
pub open spec fn spec_str_before(a: Seq<char>, b: Seq<char>, desc: bool) -> bool {
    if desc {
        spec_str_lt(b, a)
    } else {
        spec_str_lt(a, b)
    }
}

/// The directed string order is strict.
proof fn lemma_str_before_connected(a: Seq<char>, b: Seq<char>, desc: bool)
    ensures
        spec_str_before(a, b, desc) ==> !spec_str_before(b, a, desc),
        !spec_str_before(a, b, desc) && !spec_str_before(b, a, desc) ==> a == b,
{
    lemma_str_lt_connected(a, b);
    lemma_str_lt_connected(b, a);
}

/// The directed string order chains.
proof fn lemma_str_before_transitive(a: Seq<char>, b: Seq<char>, c: Seq<char>, desc: bool)
    requires
        spec_str_before(a, b, desc),
        spec_str_before(b, c, desc),
    ensures
        spec_str_before(a, c, desc),
{
    if desc {
        lemma_str_lt_transitive(c, b, a);
    } else {
        lemma_str_lt_transitive(a, b, c);
    }
}

/// Whether `a` comes strictly before `b` in the walk's direction.
fn str_before(a: &String, b: &String, desc: bool) -> (r: bool)
    ensures
        r == spec_str_before(a@, b@, desc),
{
    if desc {
        str_lt(b, a)
    } else {
        str_lt(a, b)
    }
}

/// Whether the count entry may appear on the page: it belongs to the
/// staker and its collection lies strictly past the bound in the walk's
/// direction.
pub open spec fn spec_amount_cand(
    e: CollectionAmount,
    staker: Seq<char>,
    bound: Option<Seq<char>>,
    desc: bool,
) -> bool {
    e.staker@ == staker && (match bound {
        Some(b) => spec_str_before(b, e.collection@, desc),
        None => true,
    })
}

/// The collection key the exec bound holds, if any.
pub open spec fn spec_bound_str(b: Option<String>) -> Option<Seq<char>> {
    match b {
        Some(s) => Some(s@),
        None => None,
    }
}

/// Whether a collection key lies strictly past the cursor in the walk's
/// direction, or anywhere when there is none.
pub open spec fn spec_coll_in_range(k: Seq<char>, cursor: Option<Seq<char>>, desc: bool) -> bool {
    match cursor {
        Some(c) => spec_str_before(c, k, desc),
        None => true,
    }
}

/// One selection step keeps the page complete: after emitting the least
/// remaining key, every stored count of the staker up to that key is on
/// the page.
proof fn lemma_amounts_step_covered(
    store: Seq<CollectionAmount>,
    staker: Seq<char>,
    desc: bool,
    cursor: Option<Seq<char>>,
    bk: Option<Seq<char>>,
    pre: Seq<(String, u64)>,
    cur: Seq<(String, u64)>,
    bidx: int,
)
    requires
        0 <= bidx < store.len(),
        forall|p: int, q: int|
            0 <= p < q < store.len() ==> store[p].staker@ != store[q].staker@
                || store[p].collection@ != store[q].collection@,
        match bk {
            Some(b) => (if pre.len() > 0 {
                b == pre[pre.len() - 1].0@
            } else {
                cursor matches Some(c) && b == c
            }),
            None => pre.len() == 0 && cursor is None,
        },
        forall|w: int|
            (0 <= w < store.len() && pre.len() > 0 && (#[trigger] store[w]).staker@ == staker
                && spec_coll_in_range(store[w].collection@, cursor, desc) && !spec_str_before(
                pre[pre.len() - 1].0@,
                store[w].collection@,
                desc,
            )) ==> exists|i: int|
                0 <= i < pre.len() && (#[trigger] pre[i]).0@ == store[w].collection@ && pre[i].1
                    == store[w].amount,
        spec_amount_cand(store[bidx], staker, bk, desc),
        forall|v: int|
            0 <= v < store.len() && spec_amount_cand(#[trigger] store[v], staker, bk, desc)
                ==> !spec_str_before(store[v].collection@, store[bidx].collection@, desc),
        cur.len() == pre.len() + 1,
        forall|i: int| 0 <= i < pre.len() ==> cur[i] == pre[i],
        cur[cur.len() - 1].0@ == store[bidx].collection@,
        cur[cur.len() - 1].1 == store[bidx].amount,
    ensures
        forall|w: int|
            (0 <= w < store.len() && (#[trigger] store[w]).staker@ == staker
                && spec_coll_in_range(store[w].collection@, cursor, desc) && !spec_str_before(
                cur[cur.len() - 1].0@,
                store[w].collection@,
                desc,
            )) ==> exists|i: int|
                0 <= i < cur.len() && (#[trigger] cur[i]).0@ == store[w].collection@ && cur[i].1
                    == store[w].amount,
{
    let newc = store[bidx].collection@;
    assert forall|w2: int|
        (0 <= w2 < store.len() && (#[trigger] store[w2]).staker@ == staker && spec_coll_in_range(
            store[w2].collection@,
            cursor,
            desc,
        ) && !spec_str_before(newc, store[w2].collection@, desc)) implies exists|i: int|
        0 <= i < cur.len() && (#[trigger] cur[i]).0@ == store[w2].collection@ && cur[i].1
            == store[w2].amount by {
        lemma_str_before_connected(store[w2].collection@, newc, desc);
        if store[w2].collection@ == newc {
            // the staker's collections are distinct keys: this is the
            // entry just emitted
            assert(w2 == bidx);
            assert(cur[cur.len() - 1].0@ == store[w2].collection@ && cur[cur.len() - 1].1
                == store[w2].amount);
        } else {
            assert(spec_str_before(store[w2].collection@, newc, desc));
            if pre.len() > 0 {
                lemma_str_before_connected(pre[pre.len() - 1].0@, store[w2].collection@, desc);
                if spec_str_before(pre[pre.len() - 1].0@, store[w2].collection@, desc) {
                    // strictly between the old last entry and the emitted
                    // key: the scan would have preferred it
                    assert(spec_amount_cand(store[w2], staker, bk, desc));
                    assert(false);
                } else {
                    let i = choose|i: int|
                        0 <= i < pre.len() && (#[trigger] pre[i]).0@ == store[w2].collection@
                            && pre[i].1 == store[w2].amount;
                    assert(cur[i].0@ == store[w2].collection@ && cur[i].1 == store[w2].amount);
                }
            } else {
                assert(spec_amount_cand(store[w2], staker, bk, desc));
                assert(false);
            }
        }
    }
}


/// The position of the staker's least remaining count entry past the
/// bound, in the walk's direction, if any entry remains.
fn amounts_scan(
    amounts: &Vec<CollectionAmount>,
    staker: &String,
    bound: &Option<String>,
    desc: bool,
) -> (r: Option<usize>)
    ensures
        match r {
            Some(b) => b < amounts@.len() && spec_amount_cand(
                amounts@[b as int],
                staker@,
                spec_bound_str(*bound),
                desc,
            ) && (forall|v: int|
                0 <= v < amounts@.len() && spec_amount_cand(
                    #[trigger] amounts@[v],
                    staker@,
                    spec_bound_str(*bound),
                    desc,
                ) ==> !spec_str_before(
                    amounts@[v].collection@,
                    amounts@[b as int].collection@,
                    desc,
                )),
            None => forall|v: int|
                0 <= v < amounts@.len() ==> !spec_amount_cand(
                    #[trigger] amounts@[v],
                    staker@,
                    spec_bound_str(*bound),
                    desc,
                ),
        },
{
    let ghost store = amounts@;
    let ghost bk = spec_bound_str(*bound);
    let mut best: Option<usize> = None;
    let mut w: usize = 0;
    while w < amounts.len()
        invariant
            w <= store.len(),
            store == amounts@,
            bk == spec_bound_str(*bound),
            match best {
                Some(b) => b < store.len() && spec_amount_cand(
                    store[b as int],
                    staker@,
                    bk,
                    desc,
                ) && (forall|v: int|
                    0 <= v < w && spec_amount_cand(#[trigger] store[v], staker@, bk, desc)
                        ==> !spec_str_before(
                        store[v].collection@,
                        store[b as int].collection@,
                        desc,
                    )),
                None => forall|v: int|
                    0 <= v < w ==> !spec_amount_cand(#[trigger] store[v], staker@, bk, desc),
            },
        decreases store.len() - w,
    {
        let e = &amounts[w];
        let in_range = match bound {
            Some(b) => str_before(b, &e.collection, desc),
            None => true,
        };
        if e.staker == *staker && in_range {
            proof {
                assert(spec_amount_cand(store[w as int], staker@, bk, desc));
                lemma_str_before_connected(
                    store[w as int].collection@,
                    store[w as int].collection@,
                    desc,
                );
            }
            match best {
                None => {
                    best = Some(w);
                },
                Some(bidx) => {
                    if str_before(&e.collection, &amounts[bidx].collection, desc) {
                        proof {
                            assert forall|v: int|
                                0 <= v < w + 1 && spec_amount_cand(
                                    #[trigger] store[v],
                                    staker@,
                                    bk,
                                    desc,
                                ) implies !spec_str_before(
                                store[v].collection@,
                                store[w as int].collection@,
                                desc,
                            ) by {
                                lemma_str_before_connected(
                                    store[v].collection@,
                                    store[w as int].collection@,
                                    desc,
                                );
                                if v < w && spec_str_before(
                                    store[v].collection@,
                                    store[w as int].collection@,
                                    desc,
                                ) {
                                    lemma_str_before_transitive(
                                        store[v].collection@,
                                        store[w as int].collection@,
                                        store[bidx as int].collection@,
                                        desc,
                                    );
                                }
                            }
                        }
                        best = Some(w);
                    }
                },
            }
        } else {
            proof {
                assert(!spec_amount_cand(store[w as int], staker@, bk, desc));
            }
        }
        w = w + 1;
    }
    best
}

impl NftVaultContract {
    /// A page of the account's per-collection staked counts, as
    /// (collection, count) pairs: every pair is a stored count of the
    /// staker; pairs follow the collection key order in the requested
    /// direction and lie strictly past the cursor collection when one is
    /// given; and every stored count of the staker past the cursor
    /// appears, unless the page is full and its collection lies past the
    /// page's last entry.
    #[verifier::rlimit(30)]
    pub fn users_collection_staked_amounts(
        &self,
        staker: &String,
        query_options: &QueryOptions<String>,
    ) -> (r: Vec<(String, u64)>)
        requires
            self.wf(),
        ensures
            ({
                let lim = spec_limit(query_options.limit);
                let desc = query_options.descending == Some(true);
                let store = self.users_collection_staked_amounts@;
                &&& r@.len() <= lim
                &&& forall|i: int|
                    0 <= i < r@.len() ==> {
                        &&& exists|w: int|
                            0 <= w < store.len() && (#[trigger] store[w]).staker@ == staker@
                                && store[w].collection@ == (#[trigger] r@[i]).0@
                                && store[w].amount == r@[i].1
                        &&& (query_options.start_after matches Some(c) ==> spec_str_before(
                            c@,
                            r@[i].0@,
                            desc,
                        ))
                    }
                &&& forall|i: int, j: int|
                    0 <= i < j < r@.len() ==> spec_str_before(
                        (#[trigger] r@[i]).0@,
                        (#[trigger] r@[j]).0@,
                        desc,
                    )
                &&& forall|w: int|
                    (0 <= w < store.len() && (#[trigger] store[w]).staker@ == staker@ && (
                    query_options.start_after matches Some(c) ==> spec_str_before(
                        c@,
                        store[w].collection@,
                        desc,
                    ))) ==> ((exists|i: int|
                        0 <= i < r@.len() && (#[trigger] r@[i]).0@ == store[w].collection@
                            && r@[i].1 == store[w].amount) || (r@.len() == lim && (r@.len() == 0
                        || spec_str_before(r@[r@.len() - 1].0@, store[w].collection@, desc))))
            }),
    {
        let lim = effective_limit(&query_options.limit);
        let desc = match query_options.descending {
            Some(b) => b,
            None => false,
        };
        let ghost store = self.users_collection_staked_amounts@;
        let ghost cursorv: Option<Seq<char>> = match &query_options.start_after {
            Some(c) => Some(c@),
            None => None,
        };
        let mut bound: Option<String> = match &query_options.start_after {
            Some(c) => Some(c.clone()),
            None => None,
        };
        let mut out: Vec<(String, u64)> = Vec::new();
        proof {
            assert(spec_amounts_distinct(store));
        }
        while out.len() < lim
            invariant
                spec_amounts_distinct(store),
                store == self.users_collection_staked_amounts@,
                out@.len() <= lim,
                lim == spec_limit(query_options.limit),
                desc == (query_options.descending == Some(true)),
                cursorv == (match &query_options.start_after {
                    Some(c) => Some(c@),
                    None => None::<Seq<char>>,
                }),
                match spec_bound_str(bound) {
                    Some(b) => (if out@.len() > 0 {
                        b == out@[out@.len() - 1].0@
                    } else {
                        cursorv matches Some(c) && b == c
                    }),
                    None => out@.len() == 0 && cursorv is None,
                },
                forall|i: int|
                    0 <= i < out@.len() ==> {
                        &&& exists|w: int|
                            0 <= w < store.len() && (#[trigger] store[w]).staker@ == staker@
                                && store[w].collection@ == (#[trigger] out@[i]).0@
                                && store[w].amount == out@[i].1
                        &&& spec_coll_in_range(out@[i].0@, cursorv, desc)
                    },
                forall|i: int, j: int|
                    0 <= i < j < out@.len() ==> spec_str_before(
                        (#[trigger] out@[i]).0@,
                        (#[trigger] out@[j]).0@,
                        desc,
                    ),
                forall|w: int|
                    (0 <= w < store.len() && out@.len() > 0 && (#[trigger] store[w]).staker@
                        == staker@ && spec_coll_in_range(store[w].collection@, cursorv, desc)
                        && !spec_str_before(
                        out@[out@.len() - 1].0@,
                        store[w].collection@,
                        desc,
                    )) ==> exists|i: int|
                        0 <= i < out@.len() && (#[trigger] out@[i]).0@ == store[w].collection@
                            && out@[i].1 == store[w].amount,
            decreases lim - out@.len(),
        {
            let ghost bk = spec_bound_str(bound);
            let best = amounts_scan(&self.users_collection_staked_amounts, staker, &bound, desc);
            match best {
                Some(bidx) => {
                    let e = &self.users_collection_staked_amounts[bidx];
                    let ghost pre = out@;
                    let ghost newc = store[bidx as int].collection@;
                    proof {
                        if cursorv is Some && pre.len() > 0 {
                            lemma_str_before_transitive(
                                cursorv->Some_0,
                                pre[pre.len() - 1].0@,
                                newc,
                                desc,
                            );
                        }
                    }
                    out.push((e.collection.clone(), e.amount));
                    bound = Some(e.collection.clone());
                    proof {
                        assert(out@[out@.len() - 1].0@ == newc);
                        assert forall|i: int, j: int|
                            0 <= i < j < out@.len() implies spec_str_before(
                            (#[trigger] out@[i]).0@,
                            (#[trigger] out@[j]).0@,
                            desc,
                        ) by {
                            if j == out@.len() - 1 {
                                if i < pre.len() - 1 {
                                    lemma_str_before_transitive(
                                        pre[i].0@,
                                        pre[pre.len() - 1].0@,
                                        newc,
                                        desc,
                                    );
                                }
                            }
                        }
                        lemma_amounts_step_covered(
                            store,
                            staker@,
                            desc,
                            cursorv,
                            bk,
                            pre,
                            out@,
                            bidx as int,
                        );
                    }
                },
                None => {
                    proof {
                        assert forall|w2: int|
                            (0 <= w2 < store.len() && (#[trigger] store[w2]).staker@ == staker@
                            && spec_coll_in_range(
                                store[w2].collection@,
                                cursorv,
                                desc,
                            )) implies exists|i: int|
                            0 <= i < out@.len() && (#[trigger] out@[i]).0@ == store[
                            w2].collection@ && out@[i].1 == store[w2].amount by {
                            if out@.len() == 0 {
                                assert(spec_amount_cand(store[w2], staker@, bk, desc));
                                assert(false);
                            } else {
                                let last = out@[out@.len() - 1].0@;
                                lemma_str_before_connected(last, store[w2].collection@, desc);
                                if spec_str_before(last, store[w2].collection@, desc) {
                                    assert(spec_amount_cand(store[w2], staker@, bk, desc));
                                    assert(false);
                                }
                            }
                        }
                    }
                    return out;
                },
            }
        }
        out
    }
}

} // verus!
