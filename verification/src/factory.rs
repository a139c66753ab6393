//! Vault factory: registers vaults under deterministic addresses.
//!
//! The factory keeps an append-only registry of the vaults it created,
//! keyed by a monotonically increasing index. The address a vault will
//! have is derived by the host from the factory's identity and that index
//! before the vault exists, so registration and creation commit together.

use vstd::prelude::*;

use crate::error::ContractError;
use crate::query::{spec_limit, QueryOptions};

verus! {

/// The factory's configuration: the code templates for vaults and their
/// reward pools.
#[derive(Debug, Clone, Copy, PartialEq, Eq, Structural)]
pub struct Config {
    pub vault_code_id: u64,
    pub rewards_code_id: u64,
}

/// One registered vault: its registry index and its address.
#[derive(Debug)]
pub struct VaultEntry {
    pub index: u64,
    pub addr: String,
}

/// The data of a vault instantiation: the registry index the new vault
/// was recorded under and the configuration it starts from.
#[derive(Debug)]
pub struct VaultMsg {
    pub index: u64,
    pub vault_code_id: u64,
    pub rewards_code_id: u64,
    pub label: String,
    pub collections: Vec<String>,
    pub unstaking_duration_sec: u64,
}

/// The vault factory.
pub struct StakeVaultFactory {
    pub config: Config,
    pub vaults: Vec<VaultEntry>,
}

impl StakeVaultFactory {
    /// Registry indices strictly increase.
    pub open spec fn wf(&self) -> bool {
        forall|p: int, q: int|
            0 <= p < q < self.vaults@.len() ==> self.vaults@[p].index < self.vaults@[q].index
    }

    /// A factory with the given code templates and an empty registry.
    pub fn instantiate(vault_code_id: u64, rewards_code_id: u64) -> (r: StakeVaultFactory)
        ensures
            r.wf(),
            r.config == (Config { vault_code_id, rewards_code_id }),
            r.vaults@ == Seq::<VaultEntry>::empty(),
    {
        StakeVaultFactory { config: Config { vault_code_id, rewards_code_id }, vaults: Vec::new() }
    }

    /// Replaces either code template, whichever is given.
    pub fn update_config(&mut self, vault_code_id: Option<u64>, rewards_code_id: Option<u64>)
        requires
            old(self).wf(),
        ensures
            final(self).wf(),
            final(self).vaults == old(self).vaults,
            final(self).config.vault_code_id == (match vault_code_id {
                Some(v) => v,
                None => old(self).config.vault_code_id,
            }),
            final(self).config.rewards_code_id == (match rewards_code_id {
                Some(v) => v,
                None => old(self).config.rewards_code_id,
            }),
    {
        if let Some(v) = vault_code_id {
            self.config.vault_code_id = v;
        }
        if let Some(v) = rewards_code_id {
            self.config.rewards_code_id = v;
        }
    }

    /// Registers a new vault under the address the host derived for the
    /// next registry index, and hands back the data its instantiation
    /// needs. Fails, changing nothing, only when the index space is
    /// exhausted.
    pub fn create_vault(
        &mut self,
        vault_addr: String,
        vault_label: String,
        collections: Vec<String>,
        unstaking_duration_sec: u64,
    ) -> (r: Result<VaultMsg, ContractError>)
        requires
            old(self).wf(),
        ensures
            final(self).wf(),
            final(self).config == old(self).config,
            match r {
                Ok(msg) => {
                    &&& msg.index == (if old(self).vaults@.len() == 0 {
                        0int
                    } else {
                        old(self).vaults@.last().index + 1
                    })
                    &&& final(self).vaults@ == old(self).vaults@.push(
                        VaultEntry { index: msg.index, addr: vault_addr },
                    )
                    &&& msg.vault_code_id == old(self).config.vault_code_id
                    &&& msg.rewards_code_id == old(self).config.rewards_code_id
                    &&& msg.label == vault_label
                    &&& msg.collections == collections
                    &&& msg.unstaking_duration_sec == unstaking_duration_sec
                },
                Err(e) => {
                    &&& *final(self) == *old(self)
                    &&& e == ContractError::Overflow
                    &&& old(self).vaults@.len() > 0 && old(self).vaults@.last().index == u64::MAX
                },
            },
    {
        let n = self.vaults.len();
        let next_index: u64 = if n == 0 {
            0
        } else {
            match self.vaults[n - 1].index.checked_add(1) {
                Some(v) => v,
                None => {
                    return Err(ContractError::Overflow);
                },
            }
        };
        self.vaults.push(VaultEntry { index: next_index, addr: vault_addr });
        proof {
            assert forall|p: int, q: int|
                0 <= p < q < self.vaults@.len() implies self.vaults@[p].index
                < self.vaults@[q].index by {
                if q < self.vaults@.len() - 1 {
                } else {
                    assert(self.vaults@[q].index == next_index);
                    if n > 0 {
                        assert(old(self).vaults@[p].index <= old(self).vaults@[n - 1].index);
                    }
                }
            }
        }
        Ok(
            VaultMsg {
                index: next_index,
                vault_code_id: self.config.vault_code_id,
                rewards_code_id: self.config.rewards_code_id,
                label: vault_label,
                collections,
                unstaking_duration_sec,
            },
        )
    }

    /// A page of the registry: walked in stored (index) order, backwards
    /// when descending, resuming just after the entry whose index the
    /// cursor names, showing at most the effective page size. A cursor no
    /// entry carries yields an empty page.
    pub fn vaults(&self, query_options: &QueryOptions<u64>) -> (r: Vec<(u64, String)>)
        requires
            self.wf(),
        ensures
            ({
                let ordered = if query_options.descending == Some(true) {
                    self.vaults@.reverse()
                } else {
                    self.vaults@
                };
                let after = match query_options.start_after {
                    Some(c) => spec_after_index(ordered, c),
                    None => ordered,
                };
                let count = if spec_limit(query_options.limit) < after.len() {
                    spec_limit(query_options.limit)
                } else {
                    after.len() as int
                };
                &&& r@.len() == count
                &&& forall|i: int|
                    0 <= i < count ==> (#[trigger] r@[i]).0 == after[i].index && r@[i].1@
                        == after[i].addr@
            }),
    {
        let mut ordered: Vec<(u64, String)> = Vec::new();
        if match query_options.descending {
            Some(b) => b,
            None => false,
        } {
            let mut k: usize = self.vaults.len();
            while k > 0
                invariant
                    k <= self.vaults@.len(),
                    ordered@.len() == self.vaults@.len() - k,
                    forall|j: int|
                        0 <= j < ordered@.len() ==> (#[trigger] ordered@[j]).0
                            == self.vaults@.reverse()[j].index && ordered@[j].1@
                            == self.vaults@.reverse()[j].addr@,
                decreases k,
            {
                k = k - 1;
                ordered.push((self.vaults[k].index, self.vaults[k].addr.clone()));
            }
        } else {
            let mut k: usize = 0;
            while k < self.vaults.len()
                invariant
                    k <= self.vaults@.len(),
                    ordered@.len() == k,
                    forall|j: int|
                        0 <= j < k ==> (#[trigger] ordered@[j]).0 == self.vaults@[j].index
                            && ordered@[j].1@ == self.vaults@[j].addr@,
                decreases self.vaults@.len() - k,
            {
                ordered.push((self.vaults[k].index, self.vaults[k].addr.clone()));
                k = k + 1;
            }
        }
        let ghost ord = if query_options.descending == Some(true) {
            self.vaults@.reverse()
        } else {
            self.vaults@
        };
        proof {
            assert(ordered@.len() == ord.len());
        }
        let start: usize = match &query_options.start_after {
            Some(c) => {
                let mut s: usize = ordered.len();
                let mut t: usize = 0;
                let mut found = false;
                proof {
                    assert(ord.skip(0) =~= ord);
                }
                while t < ordered.len() && !found
                    invariant
                        t <= ordered@.len(),
                        ordered@.len() == ord.len(),
                        forall|j: int|
                            0 <= j < ordered@.len() ==> (#[trigger] ordered@[j]).0
                                == ord[j].index && ordered@[j].1@ == ord[j].addr@,
                        found ==> s < ordered@.len() + 1 && spec_after_index(ord, *c)
                            == ord.skip(s as int),
                        !found ==> s == ordered@.len() && spec_after_index(ord, *c)
                            == spec_after_index(ord.skip(t as int), *c),
                    decreases ordered@.len() - t + (if found {
                        0int
                    } else {
                        1int
                    }),
                {
                    proof {
                        assert(ord.skip(t as int).first() == ord[t as int]);
                        assert(ord.skip(t as int).drop_first() =~= ord.skip(t as int + 1));
                    }
                    if ordered[t].0 == *c {
                        s = t + 1;
                        found = true;
                        proof {
                            assert(spec_after_index(ord.skip(t as int), *c) =~= ord.skip(
                                t as int + 1,
                            ));
                        }
                    } else {
                        t = t + 1;
                    }
                }
                proof {
                    if !found {
                        assert(ord.skip(ord.len() as int).len() == 0);
                        assert(spec_after_index(ord, *c) =~= ord.skip(s as int));
                    }
                }
                s
            },
            None => {
                proof {
                    assert(ord.skip(0) =~= ord);
                }
                0
            },
        };
        let ghost after = ord.skip(start as int);
        let limit = crate::query::effective_limit(&query_options.limit);
        let mut out: Vec<(u64, String)> = Vec::new();
        let mut k: usize = start;
        while k < ordered.len() && out.len() < limit
            invariant
                start <= k <= ordered@.len(),
                ordered@.len() == ord.len(),
                after == ord.skip(start as int),
                out@.len() == k - start,
                out@.len() <= spec_limit(query_options.limit),
                limit == spec_limit(query_options.limit),
                forall|j: int|
                    0 <= j < ordered@.len() ==> (#[trigger] ordered@[j]).0 == ord[j].index
                        && ordered@[j].1@ == ord[j].addr@,
                forall|j: int|
                    0 <= j < out@.len() ==> (#[trigger] out@[j]).0 == after[j].index && out@[j].1@
                        == after[j].addr@,
            decreases ordered@.len() - k,
        {
            let pair = (ordered[k].0, ordered[k].1.clone());
            out.push(pair);
            k = k + 1;
        }
        out
    }
}

/// The registry entries past the first one carrying the given index, or
/// none if no entry carries it.
pub open spec fn spec_after_index(s: Seq<VaultEntry>, index: u64) -> Seq<VaultEntry>
    decreases s.len(),
{
    if s.len() == 0 {
        s
    } else if s.first().index == index {
        s.drop_first()
    } else {
        spec_after_index(s.drop_first(), index)
    }
}

} // verus!
