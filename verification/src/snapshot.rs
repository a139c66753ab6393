//! Height-indexed snapshot of a single scalar.
//!
//! The store is an append-only time series: one value per height at which it
//! changed. A lookup at a height resolves to the value recorded at the most
//! recent strictly earlier height, so a change becomes visible to queries one
//! height after it was made, matching the block semantics of the host.

use vstd::prelude::*;

verus! {

/// One recorded change: from just after `height` on, the scalar is `value`.
#[derive(Debug, Clone, Copy, PartialEq, Eq, Structural)]
pub struct SnapshotEntry {
    pub height: u64,
    pub value: u128,
}

/// The value a query at `height` resolves to: the value of the last entry
/// recorded strictly before `height`, or nothing if the series starts later.
pub open spec fn spec_value_at(entries: Seq<SnapshotEntry>, height: u64) -> Option<u128>
    decreases entries.len(),
{
    if entries.len() == 0 {
        None
    } else if entries.last().height < height {
        Some(entries.last().value)
    } else {
        spec_value_at(entries.drop_last(), height)
    }
}

/// An append-only series of (height, value) records with strictly
/// increasing heights.
#[derive(Debug, Clone)]
pub struct SnapshotStore {
    pub entries: Vec<SnapshotEntry>,
}

impl View for SnapshotStore {
    type V = Seq<SnapshotEntry>;

    open spec fn view(&self) -> Seq<SnapshotEntry> {
        self.entries@
    }
}

impl SnapshotStore {
    /// Heights strictly increase along the series.
    pub open spec fn wf(&self) -> bool {
        forall|i: int, j: int|
            0 <= i < j < self@.len() ==> self@[i].height < self@[j].height
    }

    /// The current value: that of the latest record.
    pub open spec fn spec_current(&self) -> u128 {
        self@.last().value
    }

    /// An empty series, which answers no query.
    pub fn new() -> (r: SnapshotStore)
        ensures
            r@ == Seq::<SnapshotEntry>::empty(),
            r.wf(),
    {
        SnapshotStore { entries: Vec::new() }
    }

    /// Records `value` as the scalar in effect from just after `height` on.
    /// A second record at the height of the latest one replaces its value;
    /// earlier heights are refused, the series never reorders.
    pub fn record(&mut self, value: u128, height: u64) -> (r: Result<(), ()>)
        requires
            old(self).wf(),
        ensures
            final(self).wf(),
            old(self)@.len() == 0 || height >= old(self)@.last().height ==> {
                &&& r is Ok
                &&& (if old(self)@.len() > 0 && old(self)@.last().height == height {
                    final(self)@ == old(self)@.update(
                        old(self)@.len() - 1,
                        SnapshotEntry { height, value },
                    )
                } else {
                    final(self)@ == old(self)@.push(SnapshotEntry { height, value })
                })
            },
            old(self)@.len() > 0 && height < old(self)@.last().height ==> r is Err && final(self)@
                == old(self)@,
            r is Ok ==> final(self)@.len() > 0 && final(self).spec_current() == value,
    {
        let n = self.entries.len();
        if n == 0 {
            self.entries.push(SnapshotEntry { height, value });
            Ok(())
        } else {
            let last_height = self.entries[n - 1].height;
            if height < last_height {
                Err(())
            } else if height == last_height {
                self.entries[n - 1] = SnapshotEntry { height, value };
                Ok(())
            } else {
                self.entries.push(SnapshotEntry { height, value });
                Ok(())
            }
        }
    }

    /// The current value of the series.
    pub fn load(&self) -> (r: u128)
        requires
            self@.len() > 0,
        ensures
            r == self.spec_current(),
    {
        self.entries[self.entries.len() - 1].value
    }

    /// The value in effect at `height`: the latest record strictly below it,
    /// or nothing if the series predates that height entirely.
    pub fn may_load_at_height(&self, height: u64) -> (r: Option<u128>)
        requires
            self.wf(),
        ensures
            r == spec_value_at(self@, height),
    {
        let mut i: usize = self.entries.len();
        proof {
            assert(self@.take(self@.len() as int) =~= self@);
        }
        while i > 0
            invariant
                i <= self@.len(),
                self.wf(),
                spec_value_at(self@, height) == spec_value_at(self@.take(i as int), height),
            decreases i,
        {
            i = i - 1;
            if self.entries[i].height < height {
                assert(self@.take(i as int + 1).last() == self@[i as int]);
                return Some(self.entries[i].value);
            }
            assert(self@.take(i as int + 1).last() == self@[i as int]);
            assert(self@.take(i as int + 1).drop_last() =~= self@.take(i as int));
        }
        assert(self@.take(0).len() == 0);
        None
    }
}

} // verus!
