use vstd::prelude::*;

use crate::definitions::{DeltaInsertionStatus, STATE_UNCHANGED};
use crate::region::packed_data::{PackedData, PackedSnapshot};

verus! {

/// `grid` with every cell of `delta` that is not `STATE_UNCHANGED` written over it.
pub open spec fn merge_delta(grid: Seq<u16>, delta: Seq<u16>) -> Seq<u16> {
    Seq::new(grid.len(), |i: int| if delta[i] != STATE_UNCHANGED { delta[i] } else { grid[i] })
}

/// The delta that leads back from `new` to `prev`: `prev`'s atom where the two
/// differ, `STATE_UNCHANGED` elsewhere.
pub open spec fn reverse_delta(prev: Seq<u16>, new: Seq<u16>) -> Seq<u16> {
    Seq::new(prev.len(), |i: int| if new[i] != prev[i] { prev[i] } else { STATE_UNCHANGED })
}

/// How many cells of `a` and `b`, among the first `n`, differ.
pub open spec fn changed_cells(a: Seq<u16>, b: Seq<u16>, n: nat) -> nat
    decreases n,
{
    if n == 0 {
        0
    } else {
        changed_cells(a, b, (n - 1) as nat) + (if a[n - 1] != b[n - 1] { 1nat } else { 0nat })
    }
}

/// The state after the newest snapshot and the first `k` reverse deltas.
pub open spec fn state_after<const N: usize>(deltas: Seq<PackedSnapshot<N>>, k: nat) -> Seq<u16>
    decreases k,
{
    if k == 0 {
        deltas[0].data.unpacked()
    } else {
        merge_delta(state_after(deltas, (k - 1) as nat), deltas[k as int].data.unpacked())
    }
}

/// The first delta at or after `k` whose timestamp is at most `timestamp`, or
/// the oldest delta where there is none.
pub open spec fn stop_from<const N: usize>(deltas: Seq<PackedSnapshot<N>>, timestamp: i64, k: int) -> int
    decreases deltas.len() - k,
{
    if k >= deltas.len() - 1 {
        deltas.len() - 1
    } else if timestamp >= deltas[k].timestamp {
        k
    } else {
        stop_from(deltas, timestamp, k + 1)
    }
}

/// How many reverse deltas a reconstruction at `timestamp` applies.
pub open spec fn stop_index<const N: usize>(deltas: Seq<PackedSnapshot<N>>, timestamp: i64) -> int {
    if timestamp >= deltas[0].timestamp {
        0
    } else {
        stop_from(deltas, timestamp, 1)
    }
}

proof fn lemma_stop_from_in_force<const N: usize>(deltas: Seq<PackedSnapshot<N>>, timestamp: i64, k: int)
    requires
        0 <= k < deltas.len(),
    ensures
        k <= stop_from(deltas, timestamp, k) < deltas.len(),
        forall|i: int| k <= i < stop_from(deltas, timestamp, k) ==> #[trigger] deltas[i].timestamp > timestamp,
        stop_from(deltas, timestamp, k) < deltas.len() - 1 ==> deltas[stop_from(deltas, timestamp, k)].timestamp <= timestamp,
    decreases deltas.len() - k,
{
    if k < deltas.len() - 1 && timestamp < deltas[k].timestamp {
        lemma_stop_from_in_force(deltas, timestamp, k + 1);
    }
}

/// A reconstruction at `timestamp` goes back to the newest entry recorded at
/// or before it: every newer entry (the history is newest first) has a later
/// timestamp, and the entry it stops at is no later than `timestamp` unless it
/// is the oldest, which answers when no entry is that old.
pub proof fn law_stop_index_in_force<const N: usize>(deltas: Seq<PackedSnapshot<N>>, timestamp: i64)
    requires
        deltas.len() > 0,
    ensures
        0 <= stop_index(deltas, timestamp) < deltas.len(),
        forall|i: int| 0 <= i < stop_index(deltas, timestamp) ==> #[trigger] deltas[i].timestamp > timestamp,
        stop_index(deltas, timestamp) < deltas.len() - 1 ==> deltas[stop_index(deltas, timestamp)].timestamp <= timestamp,
{
    if timestamp < deltas[0].timestamp {
        if deltas.len() > 1 {
            lemma_stop_from_in_force(deltas, timestamp, 1);
        }
    }
}

/// The section as it stood at `timestamp`, or as the oldest snapshot holds it.
pub open spec fn state_at<const N: usize>(deltas: Seq<PackedSnapshot<N>>, timestamp: i64) -> Seq<u16> {
    state_after(deltas, stop_index(deltas, timestamp) as nat)
}

/// A section's history: the newest snapshot first, then for each older point
/// in time a delta that leads back to it.
#[derive(Debug, Clone, PartialEq, Eq)]
pub struct PackedDeltaData<const UNPACKED_SIZE: usize> {
    pub reverse_deltas: Vec<PackedSnapshot<UNPACKED_SIZE>>,
}

impl<const UNPACKED_SIZE: usize> PackedDeltaData<UNPACKED_SIZE> {
    /// Every snapshot can be unpacked.
    pub open spec fn wf(&self) -> bool {
        forall|k: int| 0 <= k < self.reverse_deltas@.len() ==> #[trigger] self.reverse_deltas@[k].data.unpackable()
    }

    pub fn default() -> (r: Self)
        ensures
            r.reverse_deltas@.len() == 0,
    {
        PackedDeltaData { reverse_deltas: Vec::new() }
    }

    /// A history of these snapshots, the newest first.
    pub fn new(snapshots: Vec<PackedSnapshot<UNPACKED_SIZE>>) -> (r: Self)
        ensures
            r.reverse_deltas@ == snapshots@,
    {
        PackedDeltaData { reverse_deltas: snapshots }
    }

    /// The snapshots, the newest first.
    pub fn snapshots(&self) -> (r: &[PackedSnapshot<UNPACKED_SIZE>])
        ensures
            r@ == self.reverse_deltas@,
    {
        self.reverse_deltas.as_slice()
    }

    pub fn latest_snapshot(&self) -> (r: Option<&PackedSnapshot<UNPACKED_SIZE>>)
        ensures
            r == (if self.reverse_deltas@.len() > 0 { Some(&self.reverse_deltas@[0]) } else { None }),
    {
        self.delta(0)
    }

    pub fn delta(&self, delta_index: usize) -> (r: Option<&PackedSnapshot<UNPACKED_SIZE>>)
        ensures
            r == (if delta_index < self.reverse_deltas@.len() {
                Some(&self.reverse_deltas@[delta_index as int])
            } else {
                None
            }),
    {
        if delta_index < self.reverse_deltas.len() {
            Some(&self.reverse_deltas[delta_index])
        } else {
            None
        }
    }

    /// The section as it stood at `timestamp`: the newest snapshot with the
    /// reverse deltas applied, from the newest on, up to the first whose
    /// timestamp is at most `timestamp`. `None` for an empty history.
    pub fn snapshot_before(&self, timestamp: i64) -> (r: Option<[u16; UNPACKED_SIZE]>)
        requires
            self.wf(),
        ensures
            self.reverse_deltas@.len() == 0 ==> r is None,
            self.reverse_deltas@.len() > 0 ==> (r matches Some(a) && a@ == state_at(self.reverse_deltas@, timestamp)),
    {
        let latest_packed = match self.latest_snapshot() {
            Some(l) => l,
            None => return None,
        };
        let ghost d = self.reverse_deltas@;
        let mut latest_unpacked = latest_packed.data.unpack();

        if timestamp >= latest_packed.timestamp {
            return Some(latest_unpacked);
        }

        let mut k: usize = 1;
        while k < self.reverse_deltas.len()
            invariant_except_break
                1 <= k <= d.len(),
                d == self.reverse_deltas@,
                self.wf(),
                timestamp < d[0].timestamp,
                stop_from(d, timestamp, 1) == stop_from(d, timestamp, k as int),
                latest_unpacked@ == state_after(d, (k - 1) as nat),
            ensures
                latest_unpacked@ == state_at(d, timestamp),
            decreases d.len() - k,
        {
            let delta = &self.reverse_deltas[k];
            let unpacked = delta.data.unpack();
            let mut j: usize = 0;
            let ghost before = latest_unpacked@;
            while j < UNPACKED_SIZE
                invariant
                    j <= UNPACKED_SIZE,
                    before.len() == UNPACKED_SIZE,
                    forall|i: int| 0 <= i < j ==> #[trigger] latest_unpacked@[i] == merge_delta(before, unpacked@)[i],
                    forall|i: int| j <= i < UNPACKED_SIZE ==> #[trigger] latest_unpacked@[i] == before[i],
                decreases UNPACKED_SIZE - j,
            {
                let state = unpacked[j];
                if state != STATE_UNCHANGED {
                    latest_unpacked[j] = state;
                }
                j += 1;
            }
            proof {
                assert(latest_unpacked@ =~= state_after(d, k as nat));
            }
            if timestamp >= delta.timestamp {
                break;
            }
            k += 1;
        }
        Some(latest_unpacked)
    }
}


impl<const UNPACKED_SIZE: usize> PackedDeltaData<UNPACKED_SIZE> {
    /// Makes `new_snapshot` the newest snapshot. The first snapshot is taken
    /// as it is and counts every cell as changed. A later one must be newer
    /// than the newest and change at least one cell; the newest snapshot is
    /// then replaced by the reverse delta that leads back to it, and the
    /// count of changed cells is returned.
    pub fn insert_snapshot(&mut self, new_snapshot: PackedSnapshot<UNPACKED_SIZE>) -> (r: Result<usize, DeltaInsertionStatus>)
        requires
            old(self).wf(),
            new_snapshot.data.unpackable(),
        ensures
            final(self).wf(),
            old(self).reverse_deltas@.len() == 0 ==> r == Ok::<usize, DeltaInsertionStatus>(UNPACKED_SIZE) && final(self).reverse_deltas@ == seq![new_snapshot],
            old(self).reverse_deltas@.len() > 0 ==> {
                let latest = old(self).reverse_deltas@[0];
                let prev = latest.data.unpacked();
                let new = new_snapshot.data.unpacked();
                let changes = changed_cells(prev, new, UNPACKED_SIZE as nat);
                &&& new_snapshot.timestamp <= latest.timestamp ==> r == Err::<usize, DeltaInsertionStatus>(DeltaInsertionStatus::SnapshotOlderThanLatest)
                &&& new_snapshot.timestamp > latest.timestamp && changes == 0 ==> r == Err::<usize, DeltaInsertionStatus>(DeltaInsertionStatus::NoChangesMade)
                &&& r is Err ==> *final(self) == *old(self)
                &&& new_snapshot.timestamp > latest.timestamp && changes > 0 ==> {
                    &&& r == Ok::<usize, DeltaInsertionStatus>(changes as usize)
                    &&& final(self).reverse_deltas@.len() == old(self).reverse_deltas@.len() + 1
                    &&& final(self).reverse_deltas@[0] == new_snapshot
                    &&& final(self).reverse_deltas@[1].timestamp == latest.timestamp
                    &&& final(self).reverse_deltas@[1].data.unpacked() == reverse_delta(prev, new)
                    &&& final(self).reverse_deltas@.skip(2) == old(self).reverse_deltas@.skip(1)
                }
            },
    {
        if self.reverse_deltas.len() == 0 {
            self.reverse_deltas.push(new_snapshot);
            proof {
                assert(self.reverse_deltas@ =~= seq![new_snapshot]);
            }
            return Ok(UNPACKED_SIZE);
        }
        let latest_timestamp = self.reverse_deltas[0].timestamp;
        if new_snapshot.timestamp <= latest_timestamp {
            return Err(DeltaInsertionStatus::SnapshotOlderThanLatest);
        }
        let previous_unpacked = self.reverse_deltas[0].data.unpack();
        let new_unpacked = new_snapshot.data.unpack();
        let mut delta_snapshot_builder = [0u16; UNPACKED_SIZE];
        let mut changes: usize = 0;
        let mut i: usize = 0;
        while i < UNPACKED_SIZE
            invariant
                i <= UNPACKED_SIZE,
                previous_unpacked@.len() == UNPACKED_SIZE,
                new_unpacked@.len() == UNPACKED_SIZE,
                changes == changed_cells(previous_unpacked@, new_unpacked@, i as nat),
                changes <= i,
                forall|k: int| 0 <= k < i ==> #[trigger] delta_snapshot_builder@[k] == reverse_delta(previous_unpacked@, new_unpacked@)[k],
            decreases UNPACKED_SIZE - i,
        {
            let previous = previous_unpacked[i];
            let changed = new_unpacked[i] != previous;
            delta_snapshot_builder[i] = if changed { previous } else { STATE_UNCHANGED };
            if changed {
                changes += 1;
            }
            i += 1;
        }
        if changes == 0 {
            return Err(DeltaInsertionStatus::NoChangesMade);
        }
        proof {
            assert(delta_snapshot_builder@ =~= reverse_delta(previous_unpacked@, new_unpacked@));
        }
        let delta_snapshot = PackedSnapshot {
            data: PackedData::pack(&delta_snapshot_builder),
            timestamp: latest_timestamp,
        };
        let ghost old_deltas = self.reverse_deltas@;
        self.reverse_deltas.remove(0);
        self.reverse_deltas.insert(0, delta_snapshot);
        self.reverse_deltas.insert(0, new_snapshot);
        proof {
            assert(self.reverse_deltas@.skip(2) =~= old_deltas.skip(1));
            assert forall|k: int| 0 <= k < self.reverse_deltas@.len() implies #[trigger] self.reverse_deltas@[k].data.unpackable() by {
                if k >= 2 {
                    assert(self.reverse_deltas@[k] == old_deltas[k - 1]);
                }
            }
        }
        Ok(changes)
    }
}


proof fn lemma_state_shift<const N: usize>(d: Seq<PackedSnapshot<N>>, d2: Seq<PackedSnapshot<N>>, k: nat)
    requires
        d.len() > 0,
        d2.len() == d.len() + 1,
        k < d.len(),
        merge_delta(d2[0].data.unpacked(), d2[1].data.unpacked()) == d[0].data.unpacked(),
        d2.skip(2) == d.skip(1),
    ensures
        state_after(d2, k + 1) == state_after(d, k),
    decreases k,
{
    if k > 0 {
        lemma_state_shift(d, d2, (k - 1) as nat);
        assert(d2[k + 1 as int] == d2.skip(2)[k - 1]);
        assert(d[k as int] == d.skip(1)[k - 1]);
        assert(state_after(d2, k + 1) == merge_delta(state_after(d2, k), d2[k + 1 as int].data.unpacked()));
        assert(state_after(d, k) == merge_delta(state_after(d, (k - 1) as nat), d[k as int].data.unpacked()));
    } else {
        assert(state_after(d2, 1) == merge_delta(state_after(d2, 0), d2[1].data.unpacked()));
        assert(state_after(d2, 0) == d2[0].data.unpacked());
    }
}

proof fn lemma_stop_shift<const N: usize>(d: Seq<PackedSnapshot<N>>, d2: Seq<PackedSnapshot<N>>, ts: i64, k: int)
    requires
        d.len() > 0,
        d2.len() == d.len() + 1,
        1 <= k <= d.len(),
        d2[1].timestamp == d[0].timestamp,
        d2.skip(2) == d.skip(1),
    ensures
        stop_from(d2, ts, k) == (if k == 1 { if ts >= d[0].timestamp { 0 } else { stop_from(d, ts, 1) } } else { stop_from(d, ts, k - 1) }) + 1,
    decreases d.len() - k,
{
    if k < d.len() {
        lemma_stop_shift(d, d2, ts, k + 1);
        if k >= 2 {
            assert(d2[k] == d2.skip(2)[k - 2]);
            assert(d[k - 1] == d.skip(1)[k - 2]);
        }
    }
}

/// Adding a newer snapshot leaves every earlier state of the history as it was,
/// and the new snapshot is the state from its timestamp on; this holds where
/// the snapshot it displaces holds no `STATE_UNCHANGED` atom (a delta cannot
/// name that atom).
pub proof fn law_insert_keeps_history<const N: usize>(
    d: Seq<PackedSnapshot<N>>,
    new_snapshot: PackedSnapshot<N>,
    d2: Seq<PackedSnapshot<N>>,
    timestamp: i64,
)
    requires
        d.len() > 0,
        new_snapshot.timestamp > d[0].timestamp,
        forall|i: int| 0 <= i < N ==> #[trigger] d[0].data.unpacked()[i] != STATE_UNCHANGED,
        d[0].data.unpacked().len() == N,
        new_snapshot.data.unpacked().len() == N,
        d2.len() == d.len() + 1,
        d2[0] == new_snapshot,
        d2[1].timestamp == d[0].timestamp,
        d2[1].data.unpacked() == reverse_delta(d[0].data.unpacked(), new_snapshot.data.unpacked()),
        d2.skip(2) == d.skip(1),
    ensures
        timestamp >= new_snapshot.timestamp ==> state_at(d2, timestamp) == new_snapshot.data.unpacked(),
        timestamp < new_snapshot.timestamp ==> state_at(d2, timestamp) == state_at(d, timestamp),
{
    let prev = d[0].data.unpacked();
    let new = new_snapshot.data.unpacked();
    assert(merge_delta(new, reverse_delta(prev, new)) =~= prev);
    if timestamp < new_snapshot.timestamp {
        lemma_stop_shift(d, d2, timestamp, 1);
        let k = stop_index(d, timestamp);
        if timestamp < d[0].timestamp {
            lemma_stop_bounds(d, timestamp, 1);
        }
        lemma_state_shift(d, d2, k as nat);
    }
}

proof fn lemma_stop_bounds<const N: usize>(d: Seq<PackedSnapshot<N>>, ts: i64, k: int)
    requires
        d.len() > 0,
        0 <= k,
    ensures
        0 <= stop_from(d, ts, k) < d.len(),
        k <= d.len() - 1 ==> k <= stop_from(d, ts, k),
    decreases d.len() - k,
{
    if k < d.len() - 1 {
        lemma_stop_bounds(d, ts, k + 1);
    }
}

} // verus!
