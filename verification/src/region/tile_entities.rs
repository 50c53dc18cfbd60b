use vstd::prelude::*;

use crate::definitions::DeltaInsertionStatus;

verus! {

/// A block position inside a segment.
#[derive(Debug, Clone, Copy, PartialEq, Eq, Structural, Hash, PartialOrd, Ord)]
pub struct TileEntityPosition {
    pub x: u8,
    pub z: u8,
    pub y: u16,
}

/// The position packed into 32 bits: `y` above `z` above `x`.
pub open spec fn packed_position(p: TileEntityPosition) -> int {
    p.y * 65536 + p.z * 256 + p.x
}

/// The position that a packed value stands for.
pub open spec fn unpacked_position(v: u32) -> TileEntityPosition {
    TileEntityPosition { x: (v % 256) as u8, z: ((v / 256) % 256) as u8, y: (v / 65536) as u16 }
}

impl TileEntityPosition {
    pub fn packed(&self) -> (r: u32)
        ensures
            r == packed_position(*self),
    {
        let x = self.x as u32;
        let z = self.z as u32;
        let y = self.y as u32;
        assert(((y << 16) | (z << 8) | x) == y * 65536 + z * 256 + x) by (bit_vector)
            requires x < 256, z < 256, y < 65536;
        (y << 16) | (z << 8) | x
    }

    pub fn unpack(packed: u32) -> (r: Self)
        ensures
            r == unpacked_position(packed),
    {
        assert((packed & 0xFF) == packed % 256 && ((packed >> 8) & 0xFF) == (packed / 256) % 256 && (packed
            >> 16) == packed / 65536) by (bit_vector);
        TileEntityPosition {
            x: (packed & 0xFF) as u8,
            z: ((packed >> 8) & 0xFF) as u8,
            y: (packed >> 16) as u16,
        }
    }
}

/// Packing is a bijection between positions and 32-bit values: unpacking a
/// packed position gives it back, and packing an unpacked value gives the value.
pub proof fn law_position_packing(p: TileEntityPosition, v: u32)
    ensures
        0 <= packed_position(p) <= u32::MAX,
        unpacked_position(packed_position(p) as u32) == p,
        packed_position(unpacked_position(v)) == v,
{
    let x = p.x as int;
    let z = p.z as int;
    let y = p.y as int;
    let n = y * 65536 + z * 256 + x;
    assert(n % 256 == x && (n / 256) % 256 == z && n / 65536 == y) by (nonlinear_arith)
        requires
            n == y * 65536 + z * 256 + x,
            0 <= x < 256,
            0 <= z < 256,
            0 <= y < 65536,
    ;
    let w = v as int;
    assert(w == (w / 65536) * 65536 + ((w / 256) % 256) * 256 + w % 256 && w / 65536 < 65536) by (nonlinear_arith)
        requires
            0 <= w <= 0xffff_ffff,
    ;
}

/// A block entity: its type, position and serialized data.
#[derive(Debug, Clone)]
pub struct TileEntity {
    pub tile_type: u32,
    pub pos: TileEntityPosition,
    pub nbt: Vec<u8>,
}

impl View for TileEntity {
    type V = (u32, TileEntityPosition, Seq<u8>);

    open spec fn view(&self) -> (u32, TileEntityPosition, Seq<u8>) {
        (self.tile_type, self.pos, self.nbt@)
    }
}

impl TileEntity {
    /// A copy with the same type, position and data.
    pub fn duplicate(&self) -> (r: TileEntity)
        ensures
            r@ == self@,
    {
        let nbt = self.nbt.clone();
        proof {
            assert(nbt@ =~= self.nbt@);
        }
        TileEntity { tile_type: self.tile_type, pos: self.pos, nbt }
    }

    /// Whether the two have the same type, position and data.
    pub fn same_as(&self, other: &TileEntity) -> (r: bool)
        ensures
            r == (self@ == other@),
    {
        if self.tile_type != other.tile_type || self.pos != other.pos || self.nbt.len() != other.nbt.len() {
            return false;
        }
        let mut i: usize = 0;
        while i < self.nbt.len()
            invariant
                i <= self.nbt@.len() == other.nbt@.len(),
                forall|j: int| 0 <= j < i ==> self.nbt@[j] == other.nbt@[j],
            decreases self.nbt@.len() - i,
        {
            if self.nbt[i] != other.nbt[i] {
                return false;
            }
            i += 1;
        }
        proof {
            assert(self.nbt@ =~= other.nbt@);
        }
        true
    }
}

/// A change to one position: a block entity placed there, or the position
/// cleared.
#[derive(Debug, Clone)]
pub enum TileEntityDelta {
    Put(TileEntity),
    Erase,
}

impl View for TileEntityDelta {
    type V = Option<(u32, TileEntityPosition, Seq<u8>)>;

    open spec fn view(&self) -> Option<(u32, TileEntityPosition, Seq<u8>)> {
        match self {
            TileEntityDelta::Put(te) => Some(te@),
            TileEntityDelta::Erase => None,
        }
    }
}

impl TileEntityDelta {
    /// A copy that means the same change.
    pub fn duplicate(&self) -> (r: TileEntityDelta)
        ensures
            r@ == self@,
    {
        match self {
            TileEntityDelta::Put(te) => TileEntityDelta::Put(te.duplicate()),
            TileEntityDelta::Erase => TileEntityDelta::Erase,
        }
    }
}

/// The map that a list of entries with distinct positions stands for.
pub open spec fn entries_map<V: View>(s: Seq<(TileEntityPosition, V)>) -> Map<TileEntityPosition, V::V>
    decreases s.len(),
{
    if s.len() == 0 {
        Map::empty()
    } else {
        entries_map(s.drop_last()).insert(s.last().0, s.last().1@)
    }
}

/// Whether no two entries share a position.
pub open spec fn distinct_positions<V>(s: Seq<(TileEntityPosition, V)>) -> bool {
    forall|i: int, j: int| 0 <= i < j < s.len() ==> #[trigger] s[i].0 != #[trigger] s[j].0
}

proof fn lemma_entries_map_dom<V: View>(s: Seq<(TileEntityPosition, V)>)
    requires
        distinct_positions(s),
    ensures
        entries_map(s).dom().finite(),
        entries_map(s).dom().len() == s.len(),
        forall|p: TileEntityPosition| #[trigger] entries_map(s).dom().contains(p) <==> exists|i: int|
            0 <= i < s.len() && s[i].0 == p,
        forall|i: int| 0 <= i < s.len() ==> #[trigger] entries_map(s)[s[i].0] == s[i].1@,
    decreases s.len(),
{
    if s.len() > 0 {
        let d = s.drop_last();
        assert(distinct_positions(d)) by {
            assert forall|i: int, j: int| 0 <= i < j < d.len() implies #[trigger] d[i].0 != #[trigger] d[j].0 by {
                assert(s[i].0 != s[j].0);
            }
        }
        lemma_entries_map_dom(d);
        let last = s.last().0;
        assert(!entries_map(d).dom().contains(last)) by {
            if entries_map(d).dom().contains(last) {
                let i = choose|i: int| 0 <= i < d.len() && d[i].0 == last;
                assert(s[i].0 != s[s.len() - 1].0);
            }
        }
        assert forall|p: TileEntityPosition| #[trigger] entries_map(s).dom().contains(p) <==> exists|i: int|
            0 <= i < s.len() && s[i].0 == p by {
            if entries_map(s).dom().contains(p) && p != last {
                let i = choose|i: int| 0 <= i < d.len() && d[i].0 == p;
                assert(s[i].0 == p);
            }
            if exists|i: int| 0 <= i < s.len() && s[i].0 == p {
                let i = choose|i: int| 0 <= i < s.len() && s[i].0 == p;
                if i < s.len() - 1 {
                    assert(d[i].0 == p);
                }
            }
        }
        assert forall|i: int| 0 <= i < s.len() implies #[trigger] entries_map(s)[s[i].0] == s[i].1@ by {
            if i < s.len() - 1 {
                assert(d[i] == s[i]);
                assert(s[i].0 != last);
            }
        }
    }
}

/// A map from positions to values, kept as a list of entries with distinct
/// positions in insertion order.
pub struct PositionMap<V> {
    entries: Vec<(TileEntityPosition, V)>,
}

pub type TileEntityDeltaMap = PositionMap<TileEntityDelta>;

pub type TileEntityList = PositionMap<TileEntity>;

impl<V: View> PositionMap<V> {
    /// The entries, in the order they were first inserted.
    pub closed spec fn entries(&self) -> Seq<(TileEntityPosition, V)> {
        self.entries@
    }

    pub open spec fn wf(&self) -> bool {
        distinct_positions(self.entries())
    }

    /// The map that the entries stand for.
    pub open spec fn map(&self) -> Map<TileEntityPosition, V::V> {
        entries_map(self.entries())
    }

    /// Whether no position occurs twice.
    pub fn positions_distinct(&self) -> (r: bool)
        ensures
            r == self.wf(),
    {
        let n = self.entries.len();
        let mut i: usize = 0;
        while i < n
            invariant
                n == self.entries@.len(),
                i <= n,
                forall|a: int, b: int| 0 <= a < b < n && a < i ==> #[trigger] self.entries@[a].0 != #[trigger] self.entries@[b].0,
            decreases n - i,
        {
            let mut j: usize = i + 1;
            while j < n
                invariant
                    n == self.entries@.len(),
                    i < n,
                    i + 1 <= j <= n,
                    forall|a: int, b: int| 0 <= a < b < n && a < i ==> #[trigger] self.entries@[a].0 != #[trigger] self.entries@[b].0,
                    forall|b: int| i < b < j ==> self.entries@[i as int].0 != #[trigger] self.entries@[b].0,
                decreases n - j,
            {
                if self.entries[i].0 == self.entries[j].0 {
                    return false;
                }
                j += 1;
            }
            i += 1;
        }
        true
    }

    pub fn new() -> (r: Self)
        ensures
            r.wf(),
            r.entries() == Seq::<(TileEntityPosition, V)>::empty(),
            r.map() == Map::<TileEntityPosition, V::V>::empty(),
    {
        PositionMap { entries: Vec::new() }
    }

    /// The number of positions.
    pub fn len(&self) -> (r: usize)
        requires
            self.wf(),
        ensures
            r == self.map().dom().len(),
            r == self.entries().len(),
    {
        proof {
            lemma_entries_map_dom(self.entries@);
        }
        self.entries.len()
    }

    pub fn is_empty(&self) -> (r: bool)
        requires
            self.wf(),
        ensures
            r == (self.map().dom().len() == 0),
    {
        self.len() == 0
    }

    /// Where `pos` stands among the entries, if it does.
    fn find(&self, pos: &TileEntityPosition) -> (r: Option<usize>)
        ensures
            r matches Some(i) ==> i < self.entries@.len() && self.entries@[i as int].0 == *pos,
            r is None ==> forall|i: int| 0 <= i < self.entries@.len() ==> self.entries@[i].0 != *pos,
    {
        let mut i: usize = 0;
        while i < self.entries.len()
            invariant
                i <= self.entries@.len(),
                forall|j: int| 0 <= j < i ==> self.entries@[j].0 != *pos,
            decreases self.entries@.len() - i,
        {
            if self.entries[i].0 == *pos {
                return Some(i);
            }
            i += 1;
        }
        None
    }

    pub fn contains_key(&self, pos: &TileEntityPosition) -> (r: bool)
        requires
            self.wf(),
        ensures
            r == self.map().dom().contains(*pos),
    {
        proof {
            lemma_entries_map_dom(self.entries@);
        }
        self.find(pos).is_some()
    }

    pub fn get(&self, pos: &TileEntityPosition) -> (r: Option<&V>)
        requires
            self.wf(),
        ensures
            r matches Some(v) ==> self.map().dom().contains(*pos) && self.map()[*pos] == v@,
            r is None ==> !self.map().dom().contains(*pos),
    {
        proof {
            lemma_entries_map_dom(self.entries@);
        }
        match self.find(pos) {
            Some(i) => Some(&self.entries[i].1),
            None => None,
        }
    }

    /// The entry at `i`, in insertion order.
    pub fn entry_at(&self, i: usize) -> (r: (&TileEntityPosition, &V))
        requires
            i < self.entries().len(),
        ensures
            *r.0 == self.entries()[i as int].0,
            *r.1 == self.entries()[i as int].1,
    {
        let e = &self.entries[i];
        (&e.0, &e.1)
    }

    /// Sets the value at `pos`, keeping its place if it is already there.
    pub fn insert(&mut self, pos: TileEntityPosition, value: V)
        requires
            old(self).wf(),
        ensures
            final(self).wf(),
            final(self).map() == old(self).map().insert(pos, value@),
    {
        proof {
            lemma_entries_map_dom(self.entries@);
        }
        let ghost old_entries = self.entries@;
        match self.find(&pos) {
            Some(i) => {
                self.entries.set(i, (pos, value));
                proof {
                    lemma_entries_map_dom(self.entries@);
                    assert(entries_map(self.entries@) =~= entries_map(old_entries).insert(pos, value@)) by {
                        assert forall|p: TileEntityPosition| #[trigger] entries_map(self.entries@).dom().contains(p)
                            == entries_map(old_entries).insert(pos, value@).dom().contains(p) by {
                            if exists|k: int| 0 <= k < old_entries.len() && old_entries[k].0 == p {
                                let k = choose|k: int| 0 <= k < old_entries.len() && old_entries[k].0 == p;
                                assert(self.entries@[k].0 == p);
                            }
                            if exists|k: int| 0 <= k < self.entries@.len() && self.entries@[k].0 == p {
                                let k = choose|k: int| 0 <= k < self.entries@.len() && self.entries@[k].0 == p;
                                assert(old_entries[k].0 == p);
                            }
                        }
                        assert forall|p: TileEntityPosition| #[trigger] entries_map(self.entries@).dom().contains(p)
                            implies entries_map(self.entries@)[p] == entries_map(old_entries).insert(pos, value@)[p] by {
                            let k = choose|k: int| 0 <= k < self.entries@.len() && self.entries@[k].0 == p;
                            if k != i {
                                assert(old_entries[k] == self.entries@[k]);
                            }
                        }
                    }
                }
            },
            None => {
                self.entries.push((pos, value));
                proof {
                    assert(self.entries@.drop_last() =~= old_entries);
                }
            },
        }
    }

    /// Takes `pos` out of the map.
    pub fn remove(&mut self, pos: &TileEntityPosition)
        requires
            old(self).wf(),
        ensures
            final(self).wf(),
            final(self).map() == old(self).map().remove(*pos),
    {
        proof {
            lemma_entries_map_dom(self.entries@);
        }
        let ghost old_entries = self.entries@;
        match self.find(pos) {
            Some(i) => {
                self.entries.remove(i);
                proof {
                    assert(self.entries@ =~= old_entries.remove(i as int));
                    lemma_entries_map_dom(self.entries@);
                    assert(entries_map(self.entries@) =~= entries_map(old_entries).remove(*pos)) by {
                        assert forall|p: TileEntityPosition| #[trigger] entries_map(self.entries@).dom().contains(p)
                            == entries_map(old_entries).remove(*pos).dom().contains(p) by {
                            if exists|k: int| 0 <= k < old_entries.len() && old_entries[k].0 == p && p != *pos {
                                let k = choose|k: int| 0 <= k < old_entries.len() && old_entries[k].0 == p;
                                if k < i {
                                    assert(self.entries@[k].0 == p);
                                } else {
                                    assert(k != i);
                                    assert(self.entries@[k - 1].0 == p);
                                }
                            }
                            if exists|k: int| 0 <= k < self.entries@.len() && self.entries@[k].0 == p {
                                let k = choose|k: int| 0 <= k < self.entries@.len() && self.entries@[k].0 == p;
                                if k < i {
                                    assert(old_entries[k].0 == p);
                                } else {
                                    assert(old_entries[k + 1].0 == p);
                                }
                            }
                        }
                        assert forall|p: TileEntityPosition| #[trigger] entries_map(self.entries@).dom().contains(p)
                            implies entries_map(self.entries@)[p] == entries_map(old_entries).remove(*pos)[p] by {
                            let k = choose|k: int| 0 <= k < self.entries@.len() && self.entries@[k].0 == p;
                            if k < i {
                                assert(old_entries[k] == self.entries@[k]);
                            } else {
                                assert(old_entries[k + 1] == self.entries@[k]);
                            }
                        }
                    }
                }
            },
            None => {
                proof {
                    assert(entries_map(old_entries) =~= entries_map(old_entries).remove(*pos));
                }
            },
        }
    }
}


/// The block entities that a list of changes places.
pub open spec fn puts(d: Map<TileEntityPosition, Option<(u32, TileEntityPosition, Seq<u8>)>>) -> Map<TileEntityPosition, (u32, TileEntityPosition, Seq<u8>)> {
    Map::new(|p: TileEntityPosition| d.dom().contains(p) && d[p] is Some, |p: TileEntityPosition| d[p].unwrap())
}

/// `snap` with the changes of `d` made to it.
pub open spec fn apply_changes(
    snap: Map<TileEntityPosition, (u32, TileEntityPosition, Seq<u8>)>,
    d: Map<TileEntityPosition, Option<(u32, TileEntityPosition, Seq<u8>)>>,
) -> Map<TileEntityPosition, (u32, TileEntityPosition, Seq<u8>)> {
    Map::new(
        |p: TileEntityPosition| if d.dom().contains(p) { d[p] is Some } else { snap.dom().contains(p) },
        |p: TileEntityPosition| if d.dom().contains(p) { d[p].unwrap() } else { snap[p] },
    )
}

/// The changes that a list of tile entities amounts to: each placed at its
/// position, later ones over earlier ones.
pub open spec fn slice_changes(s: Seq<TileEntity>) -> Map<TileEntityPosition, Option<(u32, TileEntityPosition, Seq<u8>)>>
    decreases s.len(),
{
    if s.len() == 0 {
        Map::empty()
    } else {
        slice_changes(s.drop_last()).insert(s.last().pos, Some(s.last()@))
    }
}

/// The tile entities at one point in time, as changes against the next newer
/// point (the newest list holds only placements).
pub struct TileEntityListDelta {
    pub timestamp: i64,
    pub deltas: TileEntityDeltaMap,
}

/// The block entities of a segment over time: the newest list first, then
/// for each older point in time the changes that lead back to it.
pub struct DeltaTileEntityData {
    pub reverse_deltas: Vec<TileEntityListDelta>,
}

/// The block entities after the newest list and the first `k` reverse deltas.
pub open spec fn te_state_after(ds: Seq<TileEntityListDelta>, k: nat) -> Map<TileEntityPosition, (u32, TileEntityPosition, Seq<u8>)>
    decreases k,
{
    if k == 0 {
        puts(ds[0].deltas.map())
    } else {
        apply_changes(te_state_after(ds, (k - 1) as nat), ds[k as int].deltas.map())
    }
}

/// The first list at or after `k` whose timestamp is at most `timestamp`, or
/// the oldest where there is none.
pub open spec fn te_stop_from(ds: Seq<TileEntityListDelta>, timestamp: i64, k: int) -> int
    decreases ds.len() - k,
{
    if k >= ds.len() - 1 {
        ds.len() - 1
    } else if timestamp >= ds[k].timestamp {
        k
    } else {
        te_stop_from(ds, timestamp, k + 1)
    }
}

proof fn lemma_te_stop_in_force(ds: Seq<TileEntityListDelta>, timestamp: i64, k: int)
    requires
        0 <= k < ds.len(),
    ensures
        k <= te_stop_from(ds, timestamp, k) < ds.len(),
        forall|i: int| k <= i < te_stop_from(ds, timestamp, k) ==> #[trigger] ds[i].timestamp > timestamp,
        te_stop_from(ds, timestamp, k) < ds.len() - 1 ==> ds[te_stop_from(ds, timestamp, k)].timestamp <= timestamp,
    decreases ds.len() - k,
{
    if k < ds.len() - 1 && timestamp < ds[k].timestamp {
        lemma_te_stop_in_force(ds, timestamp, k + 1);
    }
}

/// Looking the block entities up at `timestamp` goes back to the newest list
/// recorded at or before it: when it goes past the newest list, every list
/// it passes (newest first) has a later timestamp, and the list it stops at
/// is no later than `timestamp` unless it is the oldest.
pub proof fn law_te_lookup_in_force(ds: Seq<TileEntityListDelta>, timestamp: i64)
    requires
        ds.len() > 1,
        timestamp < ds[0].timestamp,
    ensures
        1 <= te_stop_from(ds, timestamp, 1) < ds.len(),
        forall|i: int| 0 <= i < te_stop_from(ds, timestamp, 1) ==> #[trigger] ds[i].timestamp > timestamp,
        te_stop_from(ds, timestamp, 1) < ds.len() - 1 ==> ds[te_stop_from(ds, timestamp, 1)].timestamp <= timestamp,
{
    lemma_te_stop_in_force(ds, timestamp, 1);
}

/// The block entities as they stood at `timestamp`, or as the oldest list holds them.
pub open spec fn te_state_at(ds: Seq<TileEntityListDelta>, timestamp: i64) -> Map<TileEntityPosition, (u32, TileEntityPosition, Seq<u8>)> {
    if timestamp >= ds[0].timestamp {
        te_state_after(ds, 0)
    } else {
        te_state_after(ds, te_stop_from(ds, timestamp, 1) as nat)
    }
}

proof fn lemma_apply_prefix(
    snap: Map<TileEntityPosition, (u32, TileEntityPosition, Seq<u8>)>,
    s: Seq<(TileEntityPosition, TileEntityDelta)>,
    i: int,
)
    requires
        0 <= i < s.len(),
    ensures
        apply_changes(snap, entries_map(s.take(i + 1))) == (match s[i].1 {
            TileEntityDelta::Put(te) => apply_changes(snap, entries_map(s.take(i))).insert(s[i].0, te@),
            TileEntityDelta::Erase => apply_changes(snap, entries_map(s.take(i))).remove(s[i].0),
        }),
{
    assert(s.take(i + 1).drop_last() =~= s.take(i));
    let a = apply_changes(snap, entries_map(s.take(i + 1)));
    match s[i].1 {
        TileEntityDelta::Put(te) => {
            assert(a =~= apply_changes(snap, entries_map(s.take(i))).insert(s[i].0, te@));
        },
        TileEntityDelta::Erase => {
            assert(a =~= apply_changes(snap, entries_map(s.take(i))).remove(s[i].0));
        },
    }
}

/// `snap` with every change of `d` made to it, in entry order.
pub fn apply_delta_map(snap: &mut TileEntityList, d: &TileEntityDeltaMap)
    requires
        old(snap).wf(),
    ensures
        final(snap).wf(),
        final(snap).map() == apply_changes(old(snap).map(), d.map()),
{
    let ghost s0 = snap.map();
    let n = d.entries.len();
    let mut i: usize = 0;
    proof {
        assert(d.entries@.take(0) =~= Seq::<(TileEntityPosition, TileEntityDelta)>::empty());
        assert(apply_changes(s0, entries_map(d.entries@.take(0))) =~= s0);
    }
    while i < n
        invariant
            n == d.entries@.len(),
            i <= n,
            snap.wf(),
            snap.map() == apply_changes(s0, entries_map(d.entries@.take(i as int))),
        decreases n - i,
    {
        proof {
            lemma_apply_prefix(s0, d.entries@, i as int);
        }
        let (pos, delta) = d.entry_at(i);
        match delta {
            TileEntityDelta::Put(te) => {
                snap.insert(*pos, te.duplicate());
            },
            TileEntityDelta::Erase => {
                snap.remove(pos);
            },
        }
        i += 1;
    }
    proof {
        assert(d.entries@.take(n as int) =~= d.entries@);
    }
}

impl DeltaTileEntityData {
    /// Every list is a map with distinct positions.
    pub open spec fn wf(&self) -> bool {
        forall|k: int| 0 <= k < self.reverse_deltas@.len() ==> #[trigger] self.reverse_deltas@[k].deltas.wf()
    }

    /// Whether no list records a position twice.
    pub fn is_well_formed(&self) -> (r: bool)
        ensures
            r == self.wf(),
    {
        let mut k: usize = 0;
        while k < self.reverse_deltas.len()
            invariant
                k <= self.reverse_deltas@.len(),
                forall|j: int| 0 <= j < k ==> #[trigger] self.reverse_deltas@[j].deltas.wf(),
            decreases self.reverse_deltas@.len() - k,
        {
            if !self.reverse_deltas[k].deltas.positions_distinct() {
                return false;
            }
            k += 1;
        }
        true
    }

    pub fn default() -> (r: Self)
        ensures
            r.reverse_deltas@.len() == 0,
            r.wf(),
    {
        DeltaTileEntityData { reverse_deltas: Vec::new() }
    }

    pub fn latest_snapshot(&self) -> (r: Option<&TileEntityListDelta>)
        ensures
            r == (if self.reverse_deltas@.len() > 0 { Some(&self.reverse_deltas@[0]) } else { None }),
    {
        self.delta(0)
    }

    pub fn delta(&self, delta_index: usize) -> (r: Option<&TileEntityListDelta>)
        ensures
            r == (if delta_index < self.reverse_deltas@.len() {
                Some(&self.reverse_deltas@[delta_index as int])
            } else {
                None
            }),
    {
        if delta_index < self.reverse_deltas.len() {
            Some(&self.reverse_deltas[delta_index])
        } else {
            None
        }
    }

    /// The block entities as they stood at `timestamp`: the newest list's
    /// placements with the reverse deltas applied, from the newest on, up to
    /// the first whose timestamp is at most `timestamp`. `None` for an empty
    /// history.
    pub fn snapshot_before(&self, timestamp: i64) -> (r: Option<TileEntityList>)
        requires
            self.wf(),
        ensures
            self.reverse_deltas@.len() == 0 ==> r is None,
            self.reverse_deltas@.len() > 0 ==> (r matches Some(m) && m.wf() && m.map() == te_state_at(
                self.reverse_deltas@,
                timestamp,
            )),
    {
        if self.reverse_deltas.len() == 0 {
            return None;
        }
        let ghost ds = self.reverse_deltas@;
        let latest = &self.reverse_deltas[0];
        assert(latest.deltas.wf());
        let mut snapshot = placements_of(&latest.deltas);
        if timestamp >= latest.timestamp {
            return Some(snapshot);
        }
        let mut k: usize = 1;
        while k < self.reverse_deltas.len()
            invariant_except_break
                1 <= k <= ds.len(),
                ds == self.reverse_deltas@,
                self.wf(),
                timestamp < ds[0].timestamp,
                snapshot.wf(),
                snapshot.map() == te_state_after(ds, (k - 1) as nat),
                te_stop_from(ds, timestamp, k as int) == te_stop_from(ds, timestamp, 1),
            ensures
                snapshot.wf(),
                snapshot.map() == te_state_at(ds, timestamp),
            decreases ds.len() - k,
        {
            let list_delta = &self.reverse_deltas[k];
            assert(list_delta.deltas.wf());
            apply_delta_map(&mut snapshot, &list_delta.deltas);
            if timestamp >= list_delta.timestamp {
                break;
            }
            k += 1;
        }
        Some(snapshot)
    }
}


/// The changes that lead back from the tile entities `s` to `latest`, for the
/// positions that `s` holds: clear a position that `latest` does not hold, and
/// restore `latest`'s entity where one in `s` differs from it.
pub open spec fn slice_reverse(
    latest: Map<TileEntityPosition, Option<(u32, TileEntityPosition, Seq<u8>)>>,
    s: Seq<TileEntity>,
) -> Map<TileEntityPosition, Option<(u32, TileEntityPosition, Seq<u8>)>>
    decreases s.len(),
{
    if s.len() == 0 {
        Map::empty()
    } else {
        let acc = slice_reverse(latest, s.drop_last());
        let te = s.last();
        if !latest.dom().contains(te.pos) {
            acc.insert(te.pos, None)
        } else if latest[te.pos] is Some && latest[te.pos].unwrap() != te@ {
            acc.insert(te.pos, latest[te.pos])
        } else {
            acc
        }
    }
}

/// The placements of `latest` at positions that `newer` does not hold.
pub open spec fn kept_puts(
    latest: Map<TileEntityPosition, Option<(u32, TileEntityPosition, Seq<u8>)>>,
    newer: Map<TileEntityPosition, Option<(u32, TileEntityPosition, Seq<u8>)>>,
) -> Map<TileEntityPosition, Option<(u32, TileEntityPosition, Seq<u8>)>> {
    Map::new(
        |p: TileEntityPosition| latest.dom().contains(p) && latest[p] is Some && !newer.dom().contains(p),
        |p: TileEntityPosition| latest[p],
    )
}

/// The reverse delta that inserting the tile entities `s` over `latest` records.
pub open spec fn reverse_changes(
    latest: Map<TileEntityPosition, Option<(u32, TileEntityPosition, Seq<u8>)>>,
    s: Seq<TileEntity>,
) -> Map<TileEntityPosition, Option<(u32, TileEntityPosition, Seq<u8>)>> {
    slice_reverse(latest, s).union_prefer_right(kept_puts(latest, slice_changes(s)))
}

proof fn lemma_slice_reverse_dom(
    latest: Map<TileEntityPosition, Option<(u32, TileEntityPosition, Seq<u8>)>>,
    s: Seq<TileEntity>,
)
    ensures
        slice_reverse(latest, s).dom().subset_of(slice_changes(s).dom()),
    decreases s.len(),
{
    if s.len() > 0 {
        lemma_slice_reverse_dom(latest, s.drop_last());
    }
}

proof fn lemma_prefix_fresh<V: View>(es: Seq<(TileEntityPosition, V)>, j: int)
    requires
        distinct_positions(es),
        0 <= j < es.len(),
    ensures
        !entries_map(es.take(j)).dom().contains(es[j].0),
        entries_map(es.take(j + 1)) == entries_map(es.take(j)).insert(es[j].0, es[j].1@),
{
    let pre = es.take(j);
    assert(es.take(j + 1).drop_last() =~= pre);
    assert(distinct_positions(pre)) by {
        assert forall|a: int, b: int| 0 <= a < b < pre.len() implies #[trigger] pre[a].0 != #[trigger] pre[b].0 by {
            assert(es[a].0 != es[b].0);
        }
    }
    lemma_entries_map_dom(pre);
    if entries_map(pre).dom().contains(es[j].0) {
        let i = choose|i: int| 0 <= i < pre.len() && pre[i].0 == es[j].0;
        assert(es[i].0 != es[j].0);
    }
}

/// The changes of the tile entities `slice`, as a map.
fn changes_of(slice: &[TileEntity]) -> (r: TileEntityDeltaMap)
    ensures
        r.wf(),
        r.map() == slice_changes(slice@),
{
    let mut m: TileEntityDeltaMap = PositionMap::new();
    let mut i: usize = 0;
    while i < slice.len()
        invariant
            i <= slice@.len(),
            m.wf(),
            m.map() == slice_changes(slice@.take(i as int)),
        decreases slice@.len() - i,
    {
        proof {
            assert(slice@.take(i + 1).drop_last() =~= slice@.take(i as int));
        }
        m.insert(slice[i].pos, TileEntityDelta::Put(slice[i].duplicate()));
        i += 1;
    }
    proof {
        assert(slice@.take(slice@.len() as int) =~= slice@);
    }
    m
}

impl DeltaTileEntityData {
    /// Adds the tile entities `snapshot_slice` as the newest list at
    /// `timestamp`, and replaces the previous newest list by the changes that
    /// lead back to it. Returns how many positions the recorded changes cover
    /// (for a first list, how many positions it holds). A timestamp that is not
    /// newer than the newest list, or a list that changes nothing, is refused
    /// and the history left as it was.
    pub fn insert_snapshot(&mut self, timestamp: i64, snapshot_slice: &[TileEntity]) -> (r: Result<usize, DeltaInsertionStatus>)
        requires
            old(self).wf(),
        ensures
            final(self).wf(),
            old(self).reverse_deltas@.len() == 0 ==> {
                &&& r == Ok::<usize, DeltaInsertionStatus>(slice_changes(snapshot_slice@).dom().len() as usize)
                &&& final(self).reverse_deltas@.len() == 1
                &&& final(self).reverse_deltas@[0].timestamp == timestamp
                &&& final(self).reverse_deltas@[0].deltas.map() == slice_changes(snapshot_slice@)
            },
            old(self).reverse_deltas@.len() > 0 && timestamp <= old(self).reverse_deltas@[0].timestamp ==> {
                &&& r == Err::<usize, DeltaInsertionStatus>(DeltaInsertionStatus::SnapshotOlderThanLatest)
                &&& final(self).reverse_deltas@ == old(self).reverse_deltas@
            },
            old(self).reverse_deltas@.len() > 0 && timestamp > old(self).reverse_deltas@[0].timestamp
                && reverse_changes(old(self).reverse_deltas@[0].deltas.map(), snapshot_slice@).dom().len() == 0 ==> {
                &&& r == Err::<usize, DeltaInsertionStatus>(DeltaInsertionStatus::NoChangesMade)
                &&& final(self).reverse_deltas@ == old(self).reverse_deltas@
            },
            old(self).reverse_deltas@.len() > 0 && timestamp > old(self).reverse_deltas@[0].timestamp
                && reverse_changes(old(self).reverse_deltas@[0].deltas.map(), snapshot_slice@).dom().len() > 0 ==> {
                &&& r == Ok::<usize, DeltaInsertionStatus>(
                    reverse_changes(old(self).reverse_deltas@[0].deltas.map(), snapshot_slice@).dom().len() as usize,
                )
                &&& final(self).reverse_deltas@.len() == old(self).reverse_deltas@.len() + 1
                &&& final(self).reverse_deltas@[0].timestamp == timestamp
                &&& final(self).reverse_deltas@[0].deltas.map() == slice_changes(snapshot_slice@)
                &&& final(self).reverse_deltas@[1].timestamp == old(self).reverse_deltas@[0].timestamp
                &&& final(self).reverse_deltas@[1].deltas.map() == reverse_changes(
                    old(self).reverse_deltas@[0].deltas.map(),
                    snapshot_slice@,
                )
                &&& forall|k: int| 2 <= k < final(self).reverse_deltas@.len() ==> #[trigger] final(self).reverse_deltas@[k]
                    == old(self).reverse_deltas@[k - 1]
            },
    {
        if self.reverse_deltas.len() == 0 {
            let deltas = changes_of(snapshot_slice);
            let count = deltas.len();
            self.reverse_deltas.push(TileEntityListDelta { timestamp, deltas });
            return Ok(count);
        }
        let latest = &self.reverse_deltas[0];
        if timestamp <= latest.timestamp {
            return Err(DeltaInsertionStatus::SnapshotOlderThanLatest);
        }
        assert(latest.deltas.wf());
        let ghost lm = latest.deltas.map();
        let new_latest = TileEntityListDelta { timestamp, deltas: changes_of(snapshot_slice) };
        let mut deltas = TileEntityListDelta { timestamp: latest.timestamp, deltas: PositionMap::new() };
        let mut i: usize = 0;
        while i < snapshot_slice.len()
            invariant
                i <= snapshot_slice@.len(),
                latest.deltas.wf(),
                lm == latest.deltas.map(),
                deltas.deltas.wf(),
                deltas.timestamp == latest.timestamp,
                deltas.deltas.map() == slice_reverse(lm, snapshot_slice@.take(i as int)),
            decreases snapshot_slice@.len() - i,
        {
            proof {
                assert(snapshot_slice@.take(i + 1).drop_last() =~= snapshot_slice@.take(i as int));
            }
            let te = &snapshot_slice[i];
            match latest.deltas.get(&te.pos) {
                None => {
                    deltas.deltas.insert(te.pos, TileEntityDelta::Erase);
                },
                Some(TileEntityDelta::Put(old_te)) => {
                    if !old_te.same_as(te) {
                        deltas.deltas.insert(te.pos, TileEntityDelta::Put(old_te.duplicate()));
                    }
                },
                Some(TileEntityDelta::Erase) => {},
            }
            i += 1;
        }
        proof {
            assert(snapshot_slice@.take(snapshot_slice@.len() as int) =~= snapshot_slice@);
            lemma_slice_reverse_dom(lm, snapshot_slice@);
        }
        let ghost base = deltas.deltas.map();
        let ghost newm = new_latest.deltas.map();
        let ghost es = latest.deltas.entries();
        let n = latest.deltas.entries.len();
        let mut j: usize = 0;
        proof {
            assert(base.union_prefer_right(kept_puts(entries_map(es.take(0)), newm)) =~= base);
        }
        while j < n
            invariant
                j <= n,
                n == es.len(),
                es == latest.deltas.entries(),
                latest.deltas.wf(),
                lm == latest.deltas.map(),
                newm == slice_changes(snapshot_slice@),
                new_latest.deltas.wf(),
                new_latest.deltas.map() == newm,
                base.dom().subset_of(newm.dom()),
                deltas.deltas.wf(),
                deltas.timestamp == latest.timestamp,
                deltas.deltas.map() == base.union_prefer_right(kept_puts(entries_map(es.take(j as int)), newm)),
            decreases n - j,
        {
            proof {
                assert(es.take(j + 1).drop_last() =~= es.take(j as int));
            }
            let (pos, delta) = latest.deltas.entry_at(j);
            if !new_latest.deltas.contains_key(pos) {
                if let TileEntityDelta::Put(_) = delta {
                    proof {
                        assert(es[j as int].0 == *pos && es[j as int].1 == *delta);
                        assert(entries_map(es.take(j + 1)) == entries_map(es.take(j as int)).insert(*pos, delta@));
                        assert(!base.dom().contains(*pos));
                    }
                    let ghost prev = deltas.deltas.map();
                    deltas.deltas.insert(*pos, delta.duplicate());
                    proof {
                        let k0 = kept_puts(entries_map(es.take(j as int)), newm);
                        let k1 = kept_puts(entries_map(es.take(j + 1)), newm);
                        assert(delta@ is Some);
                        assert(k1 =~= k0.insert(*pos, delta@));
                        assert(base.union_prefer_right(k0.insert(*pos, delta@)) =~= base.union_prefer_right(k0).insert(*pos, delta@));
                        assert(deltas.deltas.map() == prev.insert(*pos, delta@));
                        assert(prev == base.union_prefer_right(k0));
                        assert(deltas.deltas.map() == base.union_prefer_right(k1));
                    }
                } else {
                    proof {
                        lemma_prefix_fresh(es, j as int);
                        assert(deltas.deltas.map() =~= base.union_prefer_right(kept_puts(entries_map(es.take(j + 1)), newm)));
                    }
                }
            } else {
                proof {
                    lemma_prefix_fresh(es, j as int);
                    assert(deltas.deltas.map() =~= base.union_prefer_right(kept_puts(entries_map(es.take(j + 1)), newm)));
                }
            }
            j += 1;
        }
        proof {
            assert(es.take(n as int) =~= es);
            assert(deltas.deltas.map() == reverse_changes(lm, snapshot_slice@));
        }
        if deltas.deltas.is_empty() {
            return Err(DeltaInsertionStatus::NoChangesMade);
        }
        let delta_count = deltas.deltas.len();
        let ghost old_ds = self.reverse_deltas@;
        let ghost dm = deltas.deltas.map();
        let ghost nm = new_latest.deltas.map();
        let ghost dts = deltas.timestamp;
        self.reverse_deltas.remove(0);
        self.reverse_deltas.insert(0, deltas);
        self.reverse_deltas.insert(0, new_latest);
        proof {
            assert forall|k: int| 0 <= k < self.reverse_deltas@.len() implies #[trigger] self.reverse_deltas@[k].deltas.wf() by {
                if k >= 2 {
                    assert(self.reverse_deltas@[k] == old_ds[k - 1]);
                }
            }
            assert(self.reverse_deltas@[0].deltas.map() == nm);
            assert(self.reverse_deltas@[1].deltas.map() == dm);
            assert(self.reverse_deltas@[1].timestamp == dts);
            assert(self.reverse_deltas@.len() == old_ds.len() + 1);
            assert(delta_count == dm.dom().len());
            assert(lm == old(self).reverse_deltas@[0].deltas.map());
            assert(dm == reverse_changes(lm, snapshot_slice@));
            assert(old_ds == old(self).reverse_deltas@);
            assert(self.reverse_deltas@[0].timestamp == timestamp);
            assert(delta_count == reverse_changes(old(self).reverse_deltas@[0].deltas.map(), snapshot_slice@).dom().len() as usize);
            assert forall|k: int| 2 <= k < self.reverse_deltas@.len() implies #[trigger] self.reverse_deltas@[k] == old_ds[k - 1] by {
            }
        }
        Ok(delta_count)
    }
}


/// Whether a list of changes holds only placements.
pub open spec fn only_puts(m: Map<TileEntityPosition, Option<(u32, TileEntityPosition, Seq<u8>)>>) -> bool {
    forall|p: TileEntityPosition| #[trigger] m.dom().contains(p) ==> m[p] is Some
}

/// For every position of the newer list `n`: the reverse delta `r` either
/// restores what `latest` held there (clears it where `latest` held nothing),
/// or leaves alone a position where `n` already holds `latest`'s entity.
spec fn reverse_covers(
    n: Map<TileEntityPosition, Option<(u32, TileEntityPosition, Seq<u8>)>>,
    r: Map<TileEntityPosition, Option<(u32, TileEntityPosition, Seq<u8>)>>,
    latest: Map<TileEntityPosition, Option<(u32, TileEntityPosition, Seq<u8>)>>,
) -> bool {
    &&& r.dom().subset_of(n.dom())
    &&& forall|p: TileEntityPosition| #[trigger] n.dom().contains(p) ==> {
        &&& r.dom().contains(p) ==> r[p] == (if latest.dom().contains(p) { latest[p] } else { None })
        &&& !r.dom().contains(p) ==> latest.dom().contains(p) && n[p] == latest[p]
    }
}

proof fn lemma_reverse_covers(latest: Map<TileEntityPosition, Option<(u32, TileEntityPosition, Seq<u8>)>>, s: Seq<TileEntity>)
    requires
        only_puts(latest),
    ensures
        reverse_covers(slice_changes(s), slice_reverse(latest, s), latest),
        only_puts(slice_changes(s)),
    decreases s.len(),
{
    if s.len() > 0 {
        lemma_reverse_covers(latest, s.drop_last());
        let q = s.last().pos;
        if latest.dom().contains(q) {
            assert(latest[q] is Some);
        }
    }
}

proof fn lemma_reverse_restores(latest: Map<TileEntityPosition, Option<(u32, TileEntityPosition, Seq<u8>)>>, s: Seq<TileEntity>)
    requires
        only_puts(latest),
    ensures
        apply_changes(puts(slice_changes(s)), reverse_changes(latest, s)) == puts(latest),
{
    lemma_reverse_covers(latest, s);
    let n = slice_changes(s);
    let r = reverse_changes(latest, s);
    let a = apply_changes(puts(n), r);
    assert forall|p: TileEntityPosition| #[trigger] a.dom().contains(p) == puts(latest).dom().contains(p) by {
        if latest.dom().contains(p) {
            assert(latest[p] is Some);
        }
        if n.dom().contains(p) {
            assert(n[p] is Some);
        }
    }
    assert forall|p: TileEntityPosition| #[trigger] a.dom().contains(p) implies a[p] == puts(latest)[p] by {
        if n.dom().contains(p) {
            assert(n[p] is Some);
        }
    }
    assert(a =~= puts(latest));
}

/// Inserting a list keeps the history: after a successful insertion over a
/// newest list that holds only placements, the newest state is the inserted
/// list, and reading back `k + 1` steps gives what `k` steps gave before.
pub proof fn law_insert_keeps_history(
    before: Seq<TileEntityListDelta>,
    after: Seq<TileEntityListDelta>,
    slice: Seq<TileEntity>,
    k: nat,
)
    requires
        before.len() > 0,
        only_puts(before[0].deltas.map()),
        after.len() == before.len() + 1,
        after[0].deltas.map() == slice_changes(slice),
        after[1].deltas.map() == reverse_changes(before[0].deltas.map(), slice),
        forall|j: int| 2 <= j < after.len() ==> #[trigger] after[j] == before[j - 1],
        k < before.len(),
    ensures
        te_state_after(after, 0) == puts(slice_changes(slice)),
        te_state_after(after, k + 1) == te_state_after(before, k),
    decreases k,
{
    reveal_with_fuel(te_state_after, 2);
    if k == 0 {
        lemma_reverse_restores(before[0].deltas.map(), slice);
    } else {
        law_insert_keeps_history(before, after, slice, (k - 1) as nat);
        assert(after[k + 1 as int] == before[k as int]);
    }
}


/// The placements of `d`, as a list of block entities.
pub fn placements_of(d: &TileEntityDeltaMap) -> (r: TileEntityList)
    requires
        d.wf(),
    ensures
        r.wf(),
        r.map() == puts(d.map()),
{
    let mut snapshot: TileEntityList = PositionMap::new();
    let n = d.entries.len();
    let mut i: usize = 0;
    proof {
        assert(entries_map(d.entries@.take(0)) =~= Map::empty());
        assert(puts(entries_map(d.entries@.take(0))) =~= Map::empty());
    }
    while i < n
        invariant
            n == d.entries@.len(),
            i <= n,
            d.wf(),
            snapshot.wf(),
            snapshot.map() == puts(entries_map(d.entries@.take(i as int))),
        decreases n - i,
    {
        proof {
            lemma_prefix_fresh(d.entries@, i as int);
        }
        let (pos, delta) = d.entry_at(i);
        if let TileEntityDelta::Put(te) = delta {
            snapshot.insert(*pos, te.duplicate());
        }
        proof {
            assert(snapshot.map() =~= puts(entries_map(d.entries@.take(i + 1))));
        }
        i += 1;
    }
    proof {
        assert(d.entries@.take(n as int) =~= d.entries@);
    }
    snapshot
}

proof fn lemma_entries_map_views(a: Seq<(TileEntityPosition, TileEntity)>, b: Seq<(TileEntityPosition, TileEntity)>)
    requires
        a.len() == b.len(),
        forall|i: int| 0 <= i < a.len() ==> (#[trigger] a[i]).0 == b[i].0 && a[i].1@ == b[i].1@,
    ensures
        entries_map(a) == entries_map(b),
    decreases a.len(),
{
    if a.len() > 0 {
        lemma_entries_map_views(a.drop_last(), b.drop_last());
    }
}

impl PositionMap<TileEntity> {
    /// A copy holding the same block entities.
    pub fn duplicate(&self) -> (r: TileEntityList)
        requires
            self.wf(),
        ensures
            r.wf(),
            r.map() == self.map(),
    {
        let mut entries: Vec<(TileEntityPosition, TileEntity)> = Vec::new();
        let mut i: usize = 0;
        while i < self.entries.len()
            invariant
                i <= self.entries@.len(),
                entries@.len() == i,
                forall|j: int| 0 <= j < i ==> (#[trigger] entries@[j]).0 == self.entries@[j].0 && entries@[j].1@ == self.entries@[j].1@,
            decreases self.entries@.len() - i,
        {
            let e = &self.entries[i];
            entries.push((e.0, e.1.duplicate()));
            i += 1;
        }
        let r = PositionMap { entries };
        proof {
            lemma_entries_map_views(r.entries@, self.entries@);
            assert(distinct_positions(r.entries@)) by {
                assert forall|a: int, b: int| 0 <= a < b < r.entries@.len() implies #[trigger] r.entries@[a].0 != #[trigger] r.entries@[b].0 by {
                    assert(self.entries@[a].0 != self.entries@[b].0);
                }
            }
        }
        r
    }
}

} // verus!
