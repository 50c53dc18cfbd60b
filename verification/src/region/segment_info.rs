use vstd::prelude::*;

verus! {

/// Whether a segment was generated before or after recording started.
#[derive(Debug, Clone, Copy, PartialEq, Eq, Structural)]
pub enum SegmentStateType {
    Unknown,
    New,
    Old,
}

impl SegmentStateType {
    /// The byte that stands for this state in a file.
    pub open spec fn spec_id(self) -> u8 {
        match self {
            SegmentStateType::Unknown => 0,
            SegmentStateType::New => 1,
            SegmentStateType::Old => 2,
        }
    }

    pub fn id(&self) -> (r: u8)
        ensures
            r == self.spec_id(),
    {
        match self {
            SegmentStateType::Unknown => 0,
            SegmentStateType::New => 1,
            SegmentStateType::Old => 2,
        }
    }

    pub fn from_u8(value: u8) -> (r: Option<SegmentStateType>)
        ensures
            r is Some <==> value <= 2,
            r matches Some(t) ==> t.spec_id() == value,
    {
        match value {
            0 => Some(SegmentStateType::Unknown),
            1 => Some(SegmentStateType::New),
            2 => Some(SegmentStateType::Old),
            _ => None,
        }
    }

    pub fn default() -> (r: SegmentStateType)
        ensures
            r == SegmentStateType::Unknown,
    {
        SegmentStateType::Unknown
    }
}

/// Reading a state's byte gives back the state.
pub proof fn law_state_type_id_roundtrip(t: SegmentStateType)
    ensures
        t.spec_id() <= 2,
        (t.spec_id() == 0 ==> t == SegmentStateType::Unknown),
        (t.spec_id() == 1 ==> t == SegmentStateType::New),
        (t.spec_id() == 2 ==> t == SegmentStateType::Old),
{
}

#[derive(Debug, Clone, Copy, PartialEq, Eq, Structural)]
pub struct SegmentState {
    pub state_type: SegmentStateType,
    pub timestamp: i64,
}

/// The first state at or after `k` whose timestamp is at most `timestamp`, or
/// the oldest state where there is none.
pub open spec fn state_stop(states: Seq<SegmentState>, timestamp: i64, k: int) -> int
    decreases states.len() - k,
{
    if k >= states.len() - 1 {
        states.len() - 1
    } else if timestamp >= states[k].timestamp {
        k
    } else {
        state_stop(states, timestamp, k + 1)
    }
}

/// The state in force at `timestamp` is that of the newest entry recorded at
/// or before it: every newer entry (the history is newest first) has a later
/// timestamp, and the entry chosen has a timestamp at most `timestamp`
/// unless it is the oldest, which answers when no entry is that old.
pub proof fn law_state_in_force(states: Seq<SegmentState>, timestamp: i64)
    requires
        states.len() > 0,
    ensures
        0 <= state_stop(states, timestamp, 0) < states.len(),
        forall|i: int| 0 <= i < state_stop(states, timestamp, 0) ==> #[trigger] states[i].timestamp > timestamp,
        state_stop(states, timestamp, 0) < states.len() - 1 ==> states[state_stop(states, timestamp, 0)].timestamp <= timestamp,
        (exists|i: int| 0 <= i < states.len() && #[trigger] states[i].timestamp <= timestamp)
            ==> states[state_stop(states, timestamp, 0)].timestamp <= timestamp,
{
    lemma_state_stop(states, timestamp, 0);
}

proof fn lemma_state_stop(states: Seq<SegmentState>, timestamp: i64, k: int)
    requires
        states.len() > 0,
        0 <= k < states.len(),
    ensures
        k <= state_stop(states, timestamp, k) < states.len(),
        forall|i: int| k <= i < state_stop(states, timestamp, k) ==> #[trigger] states[i].timestamp > timestamp,
        state_stop(states, timestamp, k) < states.len() - 1 ==> states[state_stop(states, timestamp, k)].timestamp <= timestamp,
        (exists|i: int| k <= i < states.len() && #[trigger] states[i].timestamp <= timestamp)
            ==> states[state_stop(states, timestamp, k)].timestamp <= timestamp,
    decreases states.len() - k,
{
    if k >= states.len() - 1 {
    } else if timestamp >= states[k].timestamp {
    } else {
        lemma_state_stop(states, timestamp, k + 1);
        if exists|i: int| k <= i < states.len() && #[trigger] states[i].timestamp <= timestamp {
            let i = choose|i: int| k <= i < states.len() && #[trigger] states[i].timestamp <= timestamp;
            assert(i != k);
            assert(k + 1 <= i);
        }
    }
}

/// A segment's state history, the newest state first.
#[derive(Debug, Clone, PartialEq, Eq)]
pub struct SegmentInfo {
    pub reverse_deltas: Vec<SegmentState>,
}

impl SegmentInfo {
    pub fn default() -> (r: SegmentInfo)
        ensures
            r.reverse_deltas@.len() == 0,
    {
        SegmentInfo { reverse_deltas: Vec::new() }
    }

    pub fn latest_snapshot(&self) -> (r: Option<&SegmentState>)
        ensures
            r == (if self.reverse_deltas@.len() > 0 { Some(&self.reverse_deltas@[0]) } else { None }),
    {
        self.delta(0)
    }

    pub fn delta(&self, delta_index: usize) -> (r: Option<&SegmentState>)
        ensures
            r == (if delta_index < self.reverse_deltas@.len() {
                Some(&self.reverse_deltas@[delta_index as int])
            } else {
                None
            }),
    {
        if delta_index < self.reverse_deltas.len() {
            Some(&self.reverse_deltas[delta_index])
        } else {
            None
        }
    }

    /// The state in force at `timestamp`: that of the newest entry no newer
    /// than `timestamp`, or of the oldest entry; `None` for an empty history.
    pub fn snapshot_before(&self, timestamp: i64) -> (r: Option<SegmentState>)
        ensures
            self.reverse_deltas@.len() == 0 ==> r is None,
            self.reverse_deltas@.len() > 0 ==> r == Some(
                SegmentState {
                    state_type: self.reverse_deltas@[state_stop(self.reverse_deltas@, timestamp, 0)].state_type,
                    timestamp,
                },
            ),
    {
        let latest = match self.latest_snapshot() {
            Some(l) => l,
            None => return None,
        };
        let mut latest_state_type = latest.state_type;
        let mut k: usize = 0;
        while k < self.reverse_deltas.len()
            invariant_except_break
                k <= self.reverse_deltas@.len(),
                self.reverse_deltas@.len() > 0,
                state_stop(self.reverse_deltas@, timestamp, 0) == state_stop(self.reverse_deltas@, timestamp, k as int),
                k > 0 ==> latest_state_type == self.reverse_deltas@[k - 1].state_type,
                k == 0 ==> latest_state_type == self.reverse_deltas@[0].state_type,
            ensures
                latest_state_type == self.reverse_deltas@[state_stop(self.reverse_deltas@, timestamp, 0)].state_type,
            decreases self.reverse_deltas@.len() - k,
        {
            let state = &self.reverse_deltas[k];
            latest_state_type = state.state_type;
            if timestamp >= state.timestamp {
                break;
            }
            k += 1;
        }
        Some(SegmentState { state_type: latest_state_type, timestamp })
    }

    /// Records `new_state` as the newest state, unless it is not newer than the
    /// newest one or does not change the state type; says whether it did.
    pub fn insert_snapshot(&mut self, new_state: SegmentState) -> (r: bool)
        ensures
            r == (old(self).reverse_deltas@.len() == 0 || (new_state.timestamp > old(self).reverse_deltas@[0].timestamp
                && new_state.state_type != old(self).reverse_deltas@[0].state_type)),
            r ==> final(self).reverse_deltas@ == seq![new_state] + old(self).reverse_deltas@,
            !r ==> final(self).reverse_deltas@ == old(self).reverse_deltas@,
    {
        if let Some(latest) = self.latest_snapshot() {
            if new_state.timestamp <= latest.timestamp || latest.state_type == new_state.state_type {
                return false;
            }
        }
        self.reverse_deltas.insert(0, new_state);
        proof {
            assert(self.reverse_deltas@ =~= seq![new_state] + old(self).reverse_deltas@);
        }
        true
    }
}

} // verus!
