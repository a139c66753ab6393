//! Delayed-claim queue for unstaked non-fungible items.
//!
//! Each account owns an ordered list of claim records; a record carries the
//! items of one unstake operation and the point from which they may be
//! released. A sweep releases matured records in stored order, whole records
//! only, under an optional cap on the number of released items: a matured
//! record that would push the running count over the cap is skipped and left
//! in place, while a later, smaller matured record may still be released.

use vstd::prelude::*;

verus! {

/// One non-fungible item, identified by its collection and its token id.
#[derive(Debug)]
pub struct Nft {
    pub collection: String,
    pub token_id: String,
}

/// The mathematical value of an [`Nft`].
#[verifier::ext_equal]
pub ghost struct NftView {
    pub collection: Seq<char>,
    pub token_id: Seq<char>,
}

impl View for Nft {
    type V = NftView;

    open spec fn view(&self) -> NftView {
        NftView { collection: self.collection@, token_id: self.token_id@ }
    }
}

impl Nft {
    /// A copy of the item.
    pub fn duplicate(&self) -> (r: Nft)
        ensures
            r == *self,
    {
        Nft { collection: self.collection.clone(), token_id: self.token_id.clone() }
    }
}

impl PartialEq for Nft {
    fn eq(&self, other: &Nft) -> (r: bool) {
        self.collection == other.collection && self.token_id == other.token_id
    }
}

impl vstd::std_specs::cmp::PartialEqSpecImpl for Nft {
    open spec fn obeys_eq_spec() -> bool {
        true
    }

    open spec fn eq_spec(&self, other: &Nft) -> bool {
        self@ == other@
    }
}

/// The point from which a claim record may be released.
#[derive(Debug, Clone, Copy, PartialEq, Eq, Structural)]
pub enum Expiration {
    /// Releasable at or after this block height.
    AtHeight(u64),
    /// Releasable at or after this time, in nanoseconds.
    AtTime(u64),
    /// Never releasable.
    Never,
}

/// The height and time of the block an operation runs in.
#[derive(Debug, Clone, Copy, PartialEq, Eq, Structural)]
pub struct BlockInfo {
    pub height: u64,
    /// Nanoseconds since the epoch.
    pub time: u64,
}

/// Whether the expiration has passed in the given block.
pub open spec fn spec_expired(e: Expiration, block: BlockInfo) -> bool {
    match e {
        Expiration::AtHeight(h) => block.height >= h,
        Expiration::AtTime(t) => block.time >= t,
        Expiration::Never => false,
    }
}

impl Expiration {
    /// Whether this expiration has passed in the given block.
    pub fn is_expired(&self, block: &BlockInfo) -> (r: bool)
        ensures
            r == spec_expired(*self, *block),
    {
        match self {
            Expiration::AtHeight(h) => block.height >= *h,
            Expiration::AtTime(t) => block.time >= *t,
            Expiration::Never => false,
        }
    }
}

/// One withdrawal record: the items of one unstake operation, locked until
/// `release_at`.
#[derive(Debug)]
pub struct Claim {
    pub nfts: Vec<Nft>,
    pub release_at: Expiration,
}

/// The mathematical value of a [`Claim`].
#[verifier::ext_equal]
pub ghost struct ClaimView {
    pub nfts: Seq<NftView>,
    pub release_at: Expiration,
}

/// The mathematical values of a list of items.
pub open spec fn nfts_view(s: Seq<Nft>) -> Seq<NftView> {
    s.map_values(|n: Nft| n@)
}

impl View for Claim {
    type V = ClaimView;

    open spec fn view(&self) -> ClaimView {
        ClaimView { nfts: nfts_view(self.nfts@), release_at: self.release_at }
    }
}

/// The mathematical values of a list of claim records.
pub open spec fn claims_view(s: Seq<Claim>) -> Seq<ClaimView> {
    s.map_values(|c: Claim| c@)
}

impl Claim {
    /// A record of the given items, locked until `release_at`.
    pub fn new(nfts: Vec<Nft>, release_at: Expiration) -> (r: Claim)
        ensures
            r@ == (ClaimView { nfts: nfts_view(nfts@), release_at }),
    {
        Claim { nfts, release_at }
    }

    /// A copy of the record.
    pub fn duplicate(&self) -> (r: Claim)
        ensures
            r@ == self@,
    {
        let mut nfts: Vec<Nft> = Vec::new();
        let mut i: usize = 0;
        while i < self.nfts.len()
            invariant
                i <= self.nfts@.len(),
                nfts@.len() == i,
                forall|j: int| 0 <= j < i ==> nfts@[j]@ == #[trigger] self.nfts@[j]@,
            decreases self.nfts@.len() - i,
        {
            nfts.push(self.nfts[i].duplicate());
            i = i + 1;
        }
        proof {
            assert(nfts_view(nfts@) =~= nfts_view(self.nfts@));
        }
        Claim { nfts, release_at: self.release_at }
    }
}

impl PartialEq for Claim {
    fn eq(&self, other: &Claim) -> (r: bool) {
        if !(self.release_at == other.release_at) {
            return false;
        }
        if self.nfts.len() != other.nfts.len() {
            assert(self@.nfts.len() != other@.nfts.len());
            return false;
        }
        let mut i: usize = 0;
        while i < self.nfts.len()
            invariant
                i <= self.nfts@.len(),
                self.nfts@.len() == other.nfts@.len(),
                self.release_at == other.release_at,
                forall|j: int| 0 <= j < i ==> self.nfts@[j]@ == #[trigger] other.nfts@[j]@,
            decreases self.nfts@.len() - i,
        {
            if !(self.nfts[i] == other.nfts[i]) {
                assert(self.nfts@[i as int]@ != other.nfts@[i as int]@);
                assert(self@.nfts[i as int] != other@.nfts[i as int]);
                return false;
            }
            i = i + 1;
        }
        proof {
            assert(self@.nfts =~= other@.nfts);
        }
        true
    }
}

impl vstd::std_specs::cmp::PartialEqSpecImpl for Claim {
    open spec fn obeys_eq_spec() -> bool {
        true
    }

    open spec fn eq_spec(&self, other: &Claim) -> bool {
        self@ == other@
    }
}

/// The claim records of one account, in creation order.
#[derive(Debug)]
pub struct AccountClaims {
    pub addr: String,
    pub claims: Vec<Claim>,
}

/// The full claim list of one account, as a query returns it.
#[derive(Debug)]
pub struct ClaimsResponse {
    pub claims: Vec<Claim>,
}

/// The claim records an account holds in the store: those of its entry, or
/// none if it has no entry.
pub open spec fn spec_claims_of(entries: Seq<AccountClaims>, addr: Seq<char>) -> Seq<ClaimView>
    decreases entries.len(),
{
    if entries.len() == 0 {
        Seq::empty()
    } else if entries.first().addr@ == addr {
        claims_view(entries.first().claims@)
    } else {
        spec_claims_of(entries.drop_first(), addr)
    }
}

/// Whether the store holds an entry for the account.
pub open spec fn spec_has_entry(entries: Seq<AccountClaims>, addr: Seq<char>) -> bool
    decreases entries.len(),
{
    if entries.len() == 0 {
        false
    } else {
        entries.first().addr@ == addr || spec_has_entry(entries.drop_first(), addr)
    }
}

/// An entry exists exactly when some position holds the account.
proof fn lemma_has_entry_iff(entries: Seq<AccountClaims>, addr: Seq<char>)
    ensures
        spec_has_entry(entries, addr) <==> exists|j: int|
            0 <= j < entries.len() && entries[j].addr@ == addr,
    decreases entries.len(),
{
    if entries.len() > 0 {
        lemma_has_entry_iff(entries.drop_first(), addr);
        if spec_has_entry(entries.drop_first(), addr) {
            let j = choose|j: int|
                0 <= j < entries.drop_first().len() && entries.drop_first()[j].addr@ == addr;
            assert(entries[j + 1].addr@ == addr);
        }
        if exists|j: int| 0 <= j < entries.len() && entries[j].addr@ == addr {
            let j = choose|j: int| 0 <= j < entries.len() && entries[j].addr@ == addr;
            if j > 0 {
                assert(entries.drop_first()[j - 1].addr@ == addr);
            }
        }
    }
}

/// Without an entry, an account holds no records.
proof fn lemma_claims_of_absent(entries: Seq<AccountClaims>, addr: Seq<char>)
    requires
        !spec_has_entry(entries, addr),
    ensures
        spec_claims_of(entries, addr) == Seq::<ClaimView>::empty(),
    decreases entries.len(),
{
    if entries.len() > 0 {
        lemma_claims_of_absent(entries.drop_first(), addr);
    }
}

/// With distinct accounts, position `i` is the entry its account resolves to.
proof fn lemma_claims_of_at(entries: Seq<AccountClaims>, i: int)
    requires
        0 <= i < entries.len(),
        forall|p: int, q: int|
            0 <= p < q < entries.len() ==> entries[p].addr@ != entries[q].addr@,
    ensures
        spec_claims_of(entries, entries[i].addr@) == claims_view(entries[i].claims@),
        spec_has_entry(entries, entries[i].addr@),
    decreases entries.len(),
{
    if i > 0 {
        assert(entries[0].addr@ != entries[i].addr@);
        assert(entries.drop_first()[i - 1] == entries[i]);
        lemma_claims_of_at(entries.drop_first(), i - 1);
    }
}

/// Appending an entry resolves its account to it when the account had none,
/// and leaves every other account as it was.
proof fn lemma_claims_of_push(entries: Seq<AccountClaims>, e: AccountClaims, a: Seq<char>)
    ensures
        spec_claims_of(entries.push(e), a) == (if spec_has_entry(entries, a) {
            spec_claims_of(entries, a)
        } else if a == e.addr@ {
            claims_view(e.claims@)
        } else {
            Seq::<ClaimView>::empty()
        }),
        spec_has_entry(entries.push(e), a) == (spec_has_entry(entries, a) || a == e.addr@),
    decreases entries.len(),
{
    if entries.len() == 0 {
        assert(entries.push(e).first() == e);
        assert(entries.push(e).drop_first() =~= Seq::<AccountClaims>::empty());
        assert(spec_claims_of(entries.push(e).drop_first(), a) == Seq::<ClaimView>::empty());
        assert(!spec_has_entry(entries.push(e).drop_first(), a));
        assert(spec_has_entry(entries.push(e), a) == (e.addr@ == a));
    } else {
        assert(entries.push(e).first() == entries.first());
        assert(entries.push(e).drop_first() =~= entries.drop_first().push(e));
        lemma_claims_of_push(entries.drop_first(), e, a);
    }
}

/// Removing an entry keeps the accounts distinct, and no remaining entry
/// belongs to the removed entry's account.
proof fn lemma_distinct_after_remove(entries: Seq<AccountClaims>, i: int)
    requires
        0 <= i < entries.len(),
        forall|p: int, q: int|
            0 <= p < q < entries.len() ==> entries[p].addr@ != entries[q].addr@,
    ensures
        forall|p: int, q: int|
            0 <= p < q < entries.remove(i).len() ==> entries.remove(i)[p].addr@ != entries.remove(
                i,
            )[q].addr@,
        forall|j: int|
            0 <= j < entries.remove(i).len() ==> #[trigger] entries.remove(i)[j].addr@
                != entries[i].addr@,
{
    entries.remove_ensures(i);
}

/// Removing position `i` empties its account and leaves the others as they
/// were, when accounts are distinct.
proof fn lemma_claims_of_remove(entries: Seq<AccountClaims>, i: int, a: Seq<char>)
    requires
        0 <= i < entries.len(),
        forall|p: int, q: int|
            0 <= p < q < entries.len() ==> entries[p].addr@ != entries[q].addr@,
    ensures
        spec_claims_of(entries.remove(i), a) == (if a == entries[i].addr@ {
            Seq::<ClaimView>::empty()
        } else {
            spec_claims_of(entries, a)
        }),
        spec_has_entry(entries.remove(i), a) == (spec_has_entry(entries, a) && a
            != entries[i].addr@),
    decreases entries.len(),
{
    if i == 0 {
        assert(entries.remove(0) =~= entries.drop_first());
        if a == entries[0].addr@ {
            lemma_has_entry_iff(entries.drop_first(), a);
            if spec_has_entry(entries.drop_first(), a) {
                let j = choose|j: int|
                    0 <= j < entries.drop_first().len() && entries.drop_first()[j].addr@ == a;
                assert(entries[j + 1].addr@ == a);
                assert(false);
            }
            lemma_claims_of_absent(entries.drop_first(), a);
        }
    } else {
        assert(entries.remove(i).first() == entries.first());
        assert(entries.remove(i).drop_first() =~= entries.drop_first().remove(i - 1));
        assert(forall|p: int, q: int|
            0 <= p < q < entries.drop_first().len() ==> entries.drop_first()[p].addr@
                != entries.drop_first()[q].addr@);
        assert(entries.drop_first()[i - 1] == entries[i]);
        lemma_claims_of_remove(entries.drop_first(), i - 1, a);
    }
}

/// Which records a sweep releases: walking the list in stored order with a
/// running count of already released items, a record leaves exactly when it
/// has matured and, under a cap, the count plus its size stays within the
/// cap. The first component is the concatenation of the released records'
/// items, the second the remaining list, both in original order.
pub open spec fn spec_release(
    claims: Seq<ClaimView>,
    block: BlockInfo,
    cap: Option<u128>,
    sent: int,
) -> (Seq<NftView>, Seq<ClaimView>)
    decreases claims.len(),
{
    if claims.len() == 0 {
        (Seq::<NftView>::empty(), Seq::<ClaimView>::empty())
    } else {
        let c = claims.first();
        if spec_expired(c.release_at, block) && cap_allows(cap, sent, c.nfts.len() as int) {
            let r = spec_release(claims.drop_first(), block, cap, sent + c.nfts.len());
            (c.nfts + r.0, r.1)
        } else {
            let r = spec_release(claims.drop_first(), block, cap, sent);
            (r.0, seq![c] + r.1)
        }
    }
}

/// Whether a record of `size` items may still be released after `sent`
/// items already left in this sweep.
pub open spec fn cap_allows(cap: Option<u128>, sent: int, size: int) -> bool {
    match cap {
        None => true,
        Some(k) => sent + size <= k,
    }
}

/// An unstake followed, once its delay has elapsed, by an uncapped sweep
/// releases exactly the unstaked items and removes their record from the
/// queue: when a matured record joins a queue of records that have not yet
/// matured, the sweep returns precisely that record's items and leaves
/// precisely the prior records, in order.
pub proof fn lemma_unstake_claim_round_trip(
    prior: Seq<ClaimView>,
    payload: Seq<NftView>,
    release_at: Expiration,
    block: BlockInfo,
)
    requires
        forall|i: int| 0 <= i < prior.len() ==> !spec_expired(prior[i].release_at, block),
        spec_expired(release_at, block),
    ensures
        spec_release(prior.push(ClaimView { nfts: payload, release_at }), block, None, 0).0
            == payload,
        spec_release(prior.push(ClaimView { nfts: payload, release_at }), block, None, 0).1
            == prior,
{
    lemma_release_immature_prefix(prior, ClaimView { nfts: payload, release_at }, block, 0);
    assert(payload + Seq::<NftView>::empty() =~= payload);
}

/// A matured record appended to immature ones is the only one an uncapped
/// sweep releases, whatever count was already released.
proof fn lemma_release_immature_prefix(
    prior: Seq<ClaimView>,
    c: ClaimView,
    block: BlockInfo,
    sent: int,
)
    requires
        forall|i: int| 0 <= i < prior.len() ==> !spec_expired(prior[i].release_at, block),
        spec_expired(c.release_at, block),
    ensures
        spec_release(prior.push(c), block, None, sent).0 == c.nfts + Seq::<NftView>::empty(),
        spec_release(prior.push(c), block, None, sent).1 =~= prior,
    decreases prior.len(),
{
    reveal_with_fuel(spec_release, 3);
    if prior.len() == 0 {
        assert(prior.push(c).first() == c);
        assert(prior.push(c).drop_first() =~= Seq::<ClaimView>::empty());
    } else {
        assert(prior.push(c).first() == prior.first());
        assert(prior.push(c).drop_first() =~= prior.drop_first().push(c));
        assert(forall|i: int|
            0 <= i < prior.drop_first().len() ==> prior.drop_first()[i] == prior[i + 1]);
        lemma_release_immature_prefix(prior.drop_first(), c, block, sent);
        assert(seq![prior.first()] + prior.drop_first() =~= prior);
    }
}

/// A sweep capped at zero releases nothing and leaves every record in
/// place, matured or not, as long as no record is empty.
pub proof fn lemma_release_zero_cap(claims: Seq<ClaimView>, block: BlockInfo)
    requires
        forall|i: int| 0 <= i < claims.len() ==> (#[trigger] claims[i]).nfts.len() > 0,
    ensures
        spec_release(claims, block, Some(0u128), 0).0 == Seq::<NftView>::empty(),
        spec_release(claims, block, Some(0u128), 0).1 == claims,
{
    lemma_release_zero_cap_sent(claims, block, 0);
}

/// The zero-cap sweep is a no-op from any released count.
proof fn lemma_release_zero_cap_sent(claims: Seq<ClaimView>, block: BlockInfo, sent: int)
    requires
        forall|i: int| 0 <= i < claims.len() ==> (#[trigger] claims[i]).nfts.len() > 0,
        sent >= 0,
    ensures
        spec_release(claims, block, Some(0u128), sent).0 == Seq::<NftView>::empty(),
        spec_release(claims, block, Some(0u128), sent).1 =~= claims,
    decreases claims.len(),
{
    if claims.len() > 0 {
        assert(!cap_allows(Some(0u128), sent, claims.first().nfts.len() as int));
        assert(forall|i: int|
            0 <= i < claims.drop_first().len() ==> claims.drop_first()[i] == claims[i + 1]);
        lemma_release_zero_cap_sent(claims.drop_first(), block, sent);
        assert(seq![claims.first()] + claims.drop_first() =~= claims);
    }
}

/// The cap is first-fit, in order and all-or-nothing, not size-sorted: of
/// two matured records where the first alone exceeds the cap and the
/// second fits, a capped sweep skips the first whole record and still
/// releases the later, smaller one.
pub proof fn lemma_release_cap_first_fit(c1: ClaimView, c2: ClaimView, block: BlockInfo, k: u128)
    requires
        spec_expired(c1.release_at, block),
        spec_expired(c2.release_at, block),
        c1.nfts.len() > k,
        c2.nfts.len() <= k,
    ensures
        spec_release(seq![c1, c2], block, Some(k), 0).0 == c2.nfts,
        spec_release(seq![c1, c2], block, Some(k), 0).1 == seq![c1],
{
    reveal_with_fuel(spec_release, 4);
    let s = seq![c1, c2];
    assert(s.first() == c1);
    assert(s.drop_first() =~= seq![c2]);
    assert(seq![c2].first() == c2);
    assert(seq![c2].drop_first() =~= Seq::<ClaimView>::empty());
    assert(!cap_allows(Some(k), 0, c1.nfts.len() as int));
    assert(cap_allows(Some(k), 0, c2.nfts.len() as int));
    assert(spec_release(seq![c2], block, Some(k), 0).0 =~= c2.nfts + Seq::<NftView>::empty());
    assert(spec_release(seq![c2], block, Some(k), 0).0 =~= c2.nfts);
    assert(spec_release(s, block, Some(k), 0).1 =~= seq![c1]);
}

/// An uncapped sweep releases no item exactly when no matured record
/// carries one.
pub proof fn lemma_release_uncapped_items(claims: Seq<ClaimView>, block: BlockInfo, sent: int)
    ensures
        (spec_release(claims, block, None, sent).0.len() == 0) <==> (forall|i: int|
            0 <= i < claims.len() ==> !spec_expired((#[trigger] claims[i]).release_at, block)
                || claims[i].nfts.len() == 0),
    decreases claims.len(),
{
    if claims.len() > 0 {
        let rest = claims.drop_first();
        assert(forall|i: int| 0 <= i < rest.len() ==> rest[i] == claims[i + 1]);
        let s2 = if spec_expired(claims.first().release_at, block) {
            sent + claims.first().nfts.len() as int
        } else {
            sent
        };
        lemma_release_uncapped_items(rest, block, s2);
        let rest_ok = forall|i: int|
            0 <= i < rest.len() ==> !spec_expired((#[trigger] rest[i]).release_at, block)
                || rest[i].nfts.len() == 0;
        let all_ok = forall|i: int|
            0 <= i < claims.len() ==> !spec_expired((#[trigger] claims[i]).release_at, block)
                || claims[i].nfts.len() == 0;
        let first_ok = !spec_expired(claims.first().release_at, block) || claims.first().nfts.len()
            == 0;
        if rest_ok && first_ok {
            assert forall|i: int|
                0 <= i < claims.len() implies !spec_expired(
                (#[trigger] claims[i]).release_at,
                block,
            ) || claims[i].nfts.len() == 0 by {
                if i > 0 {
                    assert(rest[i - 1] == claims[i]);
                }
            }
        }
        if all_ok {
            assert forall|i: int|
                0 <= i < rest.len() implies !spec_expired((#[trigger] rest[i]).release_at, block)
                || rest[i].nfts.len() == 0 by {
                assert(claims[i + 1] == rest[i]);
            }
            assert(first_ok) by {
                assert(claims[0] == claims.first());
            }
        }
    }
}

/// The per-account delayed-claim store.
#[derive(Debug)]
pub struct Claims {
    pub entries: Vec<AccountClaims>,
}

impl View for Claims {
    type V = Seq<AccountClaims>;

    open spec fn view(&self) -> Seq<AccountClaims> {
        self.entries@
    }
}

impl Claims {
    /// Entries belong to distinct accounts.
    pub open spec fn wf(&self) -> bool {
        forall|p: int, q: int| 0 <= p < q < self@.len() ==> self@[p].addr@ != self@[q].addr@
    }

    /// An empty store: every account holds no records.
    pub fn new() -> (r: Claims)
        ensures
            r.wf(),
            forall|a: Seq<char>| spec_claims_of(r@, a) == Seq::<ClaimView>::empty(),
            forall|a: Seq<char>| !spec_has_entry(r@, a),
    {
        Claims { entries: Vec::new() }
    }

    /// The position of the account's entry, if it has one.
    fn find_entry(&self, addr: &String) -> (r: Option<usize>)
        requires
            self.wf(),
        ensures
            match r {
                Some(i) => i < self@.len() && self@[i as int].addr@ == addr@,
                None => !spec_has_entry(self@, addr@),
            },
    {
        let mut i: usize = 0;
        while i < self.entries.len()
            invariant
                i <= self@.len(),
                forall|j: int| 0 <= j < i ==> self@[j].addr@ != addr@,
            decreases self@.len() - i,
        {
            if self.entries[i].addr == *addr {
                return Some(i);
            }
            i = i + 1;
        }
        proof {
            lemma_has_entry_iff(self@, addr@);
        }
        None
    }

    /// Appends a record for the account: the given items, locked until
    /// `release_at`. Every other account's records stay as they were.
    pub fn create_claim(&mut self, addr: &String, nfts: Vec<Nft>, release_at: Expiration)
        requires
            old(self).wf(),
        ensures
            final(self).wf(),
            spec_claims_of(final(self)@, addr@) == spec_claims_of(old(self)@, addr@).push(
                ClaimView { nfts: nfts_view(nfts@), release_at },
            ),
            forall|a: Seq<char>|
                a != addr@ ==> spec_claims_of(final(self)@, a) == spec_claims_of(old(self)@, a),
            forall|a: Seq<char>|
                spec_has_entry(final(self)@, a) == (spec_has_entry(old(self)@, a) || a == addr@),
    {
        let claim = Claim { nfts, release_at };
        let ghost pre = self@;
        match self.find_entry(addr) {
            Some(i) => {
                proof {
                    lemma_claims_of_at(pre, i as int);
                }
                let mut acct = self.entries.remove(i);
                let ghost removed = self@;
                acct.claims.push(claim);
                proof {
                    assert(claims_view(acct.claims@) =~= spec_claims_of(pre, addr@).push(
                        ClaimView { nfts: nfts_view(claim.nfts@), release_at },
                    ));
                }
                self.entries.push(acct);
                proof {
                    lemma_claims_of_remove(pre, i as int, addr@);
                    lemma_claims_of_push(removed, acct, addr@);
                    assert(spec_claims_of(self@, addr@) == spec_claims_of(pre, addr@).push(
                        ClaimView { nfts: nfts_view(nfts@), release_at },
                    ));
                    assert forall|a: Seq<char>| a != addr@ implies spec_claims_of(self@, a)
                        == spec_claims_of(pre, a) by {
                        lemma_claims_of_remove(pre, i as int, a);
                        lemma_claims_of_push(removed, acct, a);
                        if !spec_has_entry(removed, a) {
                            lemma_claims_of_absent(pre, a);
                        }
                    }
                    assert forall|a: Seq<char>| true implies spec_has_entry(self@, a) == (
                    spec_has_entry(pre, a) || a == addr@) by {
                        lemma_claims_of_remove(pre, i as int, a);
                        lemma_claims_of_push(removed, acct, a);
                    }
                    lemma_distinct_after_remove(pre, i as int);
                }
            },
            None => {
                proof {
                    lemma_claims_of_absent(pre, addr@);
                }
                let mut claims_vec: Vec<Claim> = Vec::new();
                claims_vec.push(claim);
                let acct = AccountClaims { addr: addr.clone(), claims: claims_vec };
                proof {
                    assert(claims_view(acct.claims@) =~= spec_claims_of(pre, addr@).push(
                        ClaimView { nfts: nfts_view(claim.nfts@), release_at },
                    ));
                }
                self.entries.push(acct);
                proof {
                    lemma_claims_of_push(pre, acct, addr@);
                    assert(spec_claims_of(self@, addr@) == spec_claims_of(pre, addr@).push(
                        ClaimView { nfts: nfts_view(nfts@), release_at },
                    ));
                    assert forall|a: Seq<char>| a != addr@ implies spec_claims_of(self@, a)
                        == spec_claims_of(pre, a) by {
                        lemma_claims_of_push(pre, acct, a);
                        if !spec_has_entry(pre, a) {
                            lemma_claims_of_absent(pre, a);
                        }
                    }
                    assert forall|a: Seq<char>| true implies spec_has_entry(self@, a) == (
                    spec_has_entry(pre, a) || a == addr@) by {
                        lemma_claims_of_push(pre, acct, a);
                    }
                    lemma_has_entry_iff(pre, addr@);
                }
            },
        }
    }

    /// Sweeps the account's records: releases the matured ones in stored
    /// order, whole records only and within the optional cap on released
    /// items, returns their items and keeps the rest, in original order.
    /// Every other account's records stay as they were.
    pub fn claim_tokens(&mut self, addr: &String, block: &BlockInfo, cap: Option<u128>) -> (r:
        Vec<Nft>)
        requires
            old(self).wf(),
        ensures
            final(self).wf(),
            nfts_view(r@) == spec_release(spec_claims_of(old(self)@, addr@), *block, cap, 0).0,
            spec_claims_of(final(self)@, addr@) == spec_release(
                spec_claims_of(old(self)@, addr@),
                *block,
                cap,
                0,
            ).1,
            forall|a: Seq<char>|
                a != addr@ ==> spec_claims_of(final(self)@, a) == spec_claims_of(old(self)@, a),
            spec_has_entry(final(self)@, addr@),
            forall|a: Seq<char>|
                spec_has_entry(final(self)@, a) == (spec_has_entry(old(self)@, a) || a == addr@),
    {
        let ghost pre = self@;
        let mut pending: Vec<Claim>;
        let ghost removed: Seq<AccountClaims>;
        match self.find_entry(addr) {
            Some(i) => {
                proof {
                    lemma_claims_of_at(pre, i as int);
                }
                let acct = self.entries.remove(i);
                proof {
                    removed = self@;
                }
                pending = acct.claims;
                proof {
                    assert forall|a: Seq<char>| true implies {
                        &&& spec_claims_of(removed, a) == (if a == addr@ {
                            Seq::<ClaimView>::empty()
                        } else {
                            spec_claims_of(pre, a)
                        })
                        &&& spec_has_entry(removed, a) == (spec_has_entry(pre, a) && a != addr@)
                    } by {
                        lemma_claims_of_remove(pre, i as int, a);
                    }
                    lemma_distinct_after_remove(pre, i as int);
                }
            },
            None => {
                proof {
                    lemma_claims_of_absent(pre, addr@);
                    lemma_has_entry_iff(pre, addr@);
                    removed = self@;
                }
                pending = Vec::new();
            },
        }
        let ghost all = claims_view(pending@);
        let mut to_send: Vec<Nft> = Vec::new();
        let mut waiting: Vec<Claim> = Vec::new();
        while pending.len() > 0
            invariant
                spec_release(all, *block, cap, 0).0 == nfts_view(to_send@) + spec_release(
                    claims_view(pending@),
                    *block,
                    cap,
                    to_send@.len() as int,
                ).0,
                spec_release(all, *block, cap, 0).1 == claims_view(waiting@) + spec_release(
                    claims_view(pending@),
                    *block,
                    cap,
                    to_send@.len() as int,
                ).1,
            decreases pending@.len(),
        {
            let ghost pending_before = pending@;
            let ghost sent_before = to_send@.len() as int;
            let c = pending.remove(0);
            proof {
                assert(claims_view(pending_before).first() == c@);
                assert(claims_view(pending_before).drop_first() =~= claims_view(pending@));
            }
            let size = c.nfts.len();
            let released = if !c.release_at.is_expired(block) {
                false
            } else {
                match cap {
                    None => true,
                    Some(k) => (to_send.len() as u128) + (size as u128) <= k,
                }
            };
            if released {
                let mut items = c.nfts;
                proof {
                    assert(c@.nfts == nfts_view(items@));
                }
                let ghost send_before = to_send@;
                to_send.append(&mut items);
                proof {
                    assert(nfts_view(to_send@) =~= nfts_view(send_before) + c@.nfts);
                    assert(to_send@.len() as int == sent_before + c@.nfts.len());
                }
            } else {
                let ghost wait_before = waiting@;
                waiting.push(c);
                proof {
                    assert(claims_view(waiting@) =~= claims_view(wait_before) + seq![c@]);
                }
            }
        }
        proof {
            assert(claims_view(pending@) =~= Seq::<ClaimView>::empty());
            assert(spec_release(all, *block, cap, 0).0 =~= nfts_view(to_send@));
            assert(spec_release(all, *block, cap, 0).1 =~= claims_view(waiting@));
        }
        let acct = AccountClaims { addr: addr.clone(), claims: waiting };
        self.entries.push(acct);
        proof {
            assert forall|a: Seq<char>| a != addr@ implies spec_claims_of(self@, a)
                == spec_claims_of(pre, a) by {
                lemma_claims_of_push(removed, acct, a);
                if spec_has_entry(removed, a) {
                } else {
                    lemma_claims_of_absent(removed, a);
                    lemma_claims_of_absent(pre, a);
                }
            }
            lemma_claims_of_push(removed, acct, addr@);
            assert forall|a: Seq<char>| true implies spec_has_entry(self@, a) == (spec_has_entry(
                pre,
                a,
            ) || a == addr@) by {
                lemma_claims_of_push(removed, acct, a);
            }
        }
        to_send
    }

    /// The account's full claim list, released or not, without mutation.
    pub fn query_claims(&self, addr: &String) -> (r: ClaimsResponse)
        requires
            self.wf(),
        ensures
            claims_view(r.claims@) == spec_claims_of(self@, addr@),
    {
        match self.find_entry(addr) {
            Some(i) => {
                proof {
                    lemma_claims_of_at(self@, i as int);
                }
                let src = &self.entries[i].claims;
                let mut out: Vec<Claim> = Vec::new();
                let mut j: usize = 0;
                while j < src.len()
                    invariant
                        j <= src@.len(),
                        out@.len() == j,
                        forall|k: int| 0 <= k < j ==> out@[k]@ == #[trigger] src@[k]@,
                    decreases src@.len() - j,
                {
                    out.push(src[j].duplicate());
                    j = j + 1;
                }
                proof {
                    assert(claims_view(out@) =~= claims_view(src@));
                }
                ClaimsResponse { claims: out }
            },
            None => {
                proof {
                    lemma_claims_of_absent(self@, addr@);
                    assert(claims_view(Seq::<Claim>::empty()) =~= Seq::<ClaimView>::empty());
                }
                ClaimsResponse { claims: Vec::new() }
            },
        }
    }
}

} // verus!
