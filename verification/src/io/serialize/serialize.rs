use vstd::prelude::*;

use crate::io::serialize::context::Context;
use crate::io::serialize::deserialize::{
    fits, le_at, le_value, palette_view, parse_packed_snapshot, parse_segment_info, parse_segment_state, parse_segment_states,
    parse_u64s, parse_uint, pow256, packed_view, state_type_of, changes_map, parse_te_change, parse_te_changes, parse_te_list,
    parse_te_lists, parse_tile_entities,
};
use crate::io::serialize::error::{
    MAX_DELTA_LENGTH, MAX_PACKED_LENGTH, MAX_SEGMENT_STATES_LENGTH, MAX_TILE_ENTITY_LIST_LENGTH, MAX_TILE_ENTITY_NBT_LENGTH,
};
use crate::region::segment_info::law_state_type_id_roundtrip;
use crate::io::serialize::primitives::{le_bytes, put_bytes, put_u16_le, put_u32_le, put_u64_le, put_u8};
use crate::region::delta::PackedDeltaData;
use crate::region::packed_data::{Data, PackedSnapshot};
use crate::region::palette::Palette;
use crate::region::segment_info::{SegmentInfo, SegmentState};
use crate::region::segment::{Region, Segment};
use crate::definitions::SEGMENTS_PER_REGION;
use crate::dimension::DimensionType;
use crate::io::compression::{compress_zstd_parts, joined, zstd_compressed, zstd_decoded, zstd_decodes};
use crate::io::file_location::EXTENSION;
use crate::version::{Version, ZVCR3D_LATEST_VERSION};
use std::sync::Arc;
use vstd::string::StringSliceAdditionalSpecFns;
use crate::region::tile_entities::{
    distinct_positions, entries_map, law_position_packing, packed_position, unpacked_position, DeltaTileEntityData, TileEntityDelta, TileEntityDeltaMap, TileEntityListDelta, TileEntityPosition,
};

verus! {

/// The place of the first palette equal to `pv` in `t`, or `t.len()`.
pub open spec fn index_in(t: Seq<(Seq<u16>, usize)>, pv: (Seq<u16>, usize)) -> int
    decreases t.len(),
{
    if t.len() == 0 {
        0
    } else if t[0] == pv {
        0
    } else {
        1 + index_in(t.skip(1), pv)
    }
}

/// The table after looking up `pv`: unchanged when it holds it, else with
/// `pv` added at the end.
pub open spec fn table_after(t: Seq<(Seq<u16>, usize)>, pv: (Seq<u16>, usize)) -> Seq<(Seq<u16>, usize)> {
    if index_in(t, pv) < t.len() {
        t
    } else {
        t.push(pv)
    }
}

pub proof fn lemma_index_in_range(t: Seq<(Seq<u16>, usize)>, pv: (Seq<u16>, usize))
    ensures
        0 <= index_in(t, pv) <= t.len(),
        index_in(t, pv) < t.len() ==> t[index_in(t, pv)] == pv,
    decreases t.len(),
{
    if t.len() > 0 && t[0] != pv {
        lemma_index_in_range(t.skip(1), pv);
    }
}

proof fn lemma_index_in_skip(t: Seq<(Seq<u16>, usize)>, pv: (Seq<u16>, usize), i: int)
    requires
        0 <= i <= t.len(),
        forall|j: int| 0 <= j < i ==> t[j] != pv,
    ensures
        index_in(t, pv) == i + index_in(t.skip(i), pv),
    decreases i,
{
    if i > 0 {
        assert(t.skip(1).skip(i - 1) =~= t.skip(i));
        lemma_index_in_skip(t.skip(1), pv, i - 1);
    } else {
        assert(t.skip(0) =~= t);
    }
}

/// Whether two palettes have the same atoms and bits per entry.
pub fn same_palette(a: &Palette, b: &Palette) -> (r: bool)
    ensures
        r == (palette_view(*a) == palette_view(*b)),
{
    if a.bits_per_entry != b.bits_per_entry || a.palette.len() != b.palette.len() {
        return false;
    }
    let mut i: usize = 0;
    while i < a.palette.len()
        invariant
            i <= a.palette@.len() == b.palette@.len(),
            forall|j: int| 0 <= j < i ==> a.palette@[j] == b.palette@[j],
        decreases a.palette@.len() - i,
    {
        if a.palette[i] != b.palette[i] {
            return false;
        }
        i += 1;
    }
    proof {
        assert(a.palette@ =~= b.palette@);
    }
    true
}

/// The palettes that snapshots were written against, each at the index the
/// snapshots refer to it by; no palette occurs twice.
pub struct PaletteTable {
    pub palettes: Vec<Palette>,
}

impl PaletteTable {
    /// The palettes as plain values.
    pub open spec fn view_seq(&self) -> Seq<(Seq<u16>, usize)> {
        self.palettes@.map_values(|p: Palette| palette_view(p))
    }

    pub fn new() -> (r: Self)
        ensures
            r.view_seq() == Seq::<(Seq<u16>, usize)>::empty(),
    {
        let r = PaletteTable { palettes: Vec::new() };
        assert(r.view_seq() =~= Seq::<(Seq<u16>, usize)>::empty());
        r
    }

    pub fn len(&self) -> (r: usize)
        ensures
            r == self.view_seq().len(),
    {
        self.palettes.len()
    }

    /// The index of `palette`, which is added at the end when the table does
    /// not hold it yet.
    pub fn index_for(&mut self, palette: &Palette) -> (r: usize)
        ensures
            r == index_in(old(self).view_seq(), palette_view(*palette)),
            final(self).view_seq() == table_after(old(self).view_seq(), palette_view(*palette)),
    {
        let ghost t = self.view_seq();
        let ghost pv = palette_view(*palette);
        let mut i: usize = 0;
        while i < self.palettes.len()
            invariant
                i <= self.palettes@.len(),
                t == self.view_seq(),
                pv == palette_view(*palette),
                forall|j: int| 0 <= j < i ==> t[j] != pv,
            decreases self.palettes@.len() - i,
        {
            if same_palette(&self.palettes[i], palette) {
                proof {
                    lemma_index_in_skip(t, pv, i as int);
                    assert(t.skip(i as int)[0] == pv);
                    lemma_index_in_range(t, pv);
                }
                return i;
            }
            i += 1;
        }
        proof {
            lemma_index_in_skip(t, pv, i as int);
            assert(t.skip(i as int).len() == 0);
        }
        let copy = copy_palette(palette);
        self.palettes.push(copy);
        proof {
            assert(self.view_seq() =~= t.push(pv));
        }
        i
    }
}

/// A copy of a palette.
fn copy_palette(p: &Palette) -> (r: Palette)
    ensures
        palette_view(r) == palette_view(*p),
{
    let mut atoms: Vec<u16> = Vec::new();
    let mut i: usize = 0;
    while i < p.palette.len()
        invariant
            i <= p.palette@.len(),
            atoms@ == p.palette@.take(i as int),
        decreases p.palette@.len() - i,
    {
        atoms.push(p.palette[i]);
        proof {
            assert(atoms@ =~= p.palette@.take(i + 1));
        }
        i += 1;
    }
    proof {
        assert(atoms@ =~= p.palette@);
    }
    Palette { palette: atoms, bits_per_entry: p.bits_per_entry }
}

/// Values of 16 bits, two little-endian bytes each.
pub open spec fn atoms_bytes(vals: Seq<u16>) -> Seq<u8>
    decreases vals.len(),
{
    if vals.len() == 0 {
        Seq::empty()
    } else {
        atoms_bytes(vals.drop_last()) + le_bytes(vals.last() as int, 2)
    }
}

/// Values of 64 bits, eight little-endian bytes each.
pub open spec fn longs_bytes(vals: Seq<u64>) -> Seq<u8>
    decreases vals.len(),
{
    if vals.len() == 0 {
        Seq::empty()
    } else {
        longs_bytes(vals.drop_last()) + le_bytes(vals.last() as int, 8)
    }
}

/// The palettes of a table as written: each with at least two atoms as its
/// length and atoms; a direct palette or one of a single atom adds nothing.
pub open spec fn palettes_bytes(ps: Seq<(Seq<u16>, usize)>) -> Seq<u8>
    decreases ps.len(),
{
    if ps.len() == 0 {
        Seq::empty()
    } else {
        let p = ps.last();
        palettes_bytes(ps.drop_last()) + if p.0.len() == 0 || p.0.len() == 1 {
            Seq::empty()
        } else {
            le_bytes((p.0.len() as u16) as int, 2) + atoms_bytes(p.0)
        }
    }
}

/// A palette table as written: the number of palettes, then the palettes.
pub open spec fn palette_table_bytes(ps: Seq<(Seq<u16>, usize)>) -> Seq<u8> {
    le_bytes((ps.len() as u32) as int, 4) + palettes_bytes(ps)
}

/// A snapshot as written: its timestamp, then a 0 and its atom, or a 1, the
/// number of longs, the longs, and the index of its palette (`u32::MAX` for
/// the direct palette) in the table `t` that writing it leaves.
pub open spec fn snapshot_bytes<const N: usize>(s: PackedSnapshot<N>, t: Seq<(Seq<u16>, usize)>) -> Seq<u8> {
    le_bytes((s.timestamp as u64) as int, 8) + match s.data.data {
        Data::Single(v) => seq![0u8] + le_bytes(v as int, 2),
        Data::Paletted(p) => seq![1u8] + le_bytes(p.packed_long_array@.len() as int, 8) + longs_bytes(
            p.packed_long_array@,
        ) + if p.palette.palette@.len() == 0 {
            le_bytes(u32::MAX as int, 4)
        } else {
            le_bytes((index_in(t, palette_view(p.palette)) as u32) as int, 4)
        },
    }
}

/// The table after writing a snapshot: a paletted snapshot with an indirect
/// palette adds the palette when the table does not hold it yet.
pub open spec fn snapshot_table<const N: usize>(s: PackedSnapshot<N>, t: Seq<(Seq<u16>, usize)>) -> Seq<(Seq<u16>, usize)> {
    match s.data.data {
        Data::Paletted(p) => if p.palette.palette@.len() == 0 {
            t
        } else {
            table_after(t, palette_view(p.palette))
        },
        Data::Single(_) => t,
    }
}

/// The snapshots written one after another from table `t`: their bytes and
/// the table after them.
pub open spec fn snapshots_bytes<const N: usize>(ss: Seq<PackedSnapshot<N>>, t: Seq<(Seq<u16>, usize)>) -> (Seq<u8>, Seq<(Seq<u16>, usize)>)
    decreases ss.len(),
{
    if ss.len() == 0 {
        (Seq::empty(), t)
    } else {
        let (b, t1) = snapshots_bytes(ss.drop_last(), t);
        (b + snapshot_bytes(ss.last(), t1), snapshot_table(ss.last(), t1))
    }
}

/// A segment state as written: its type's id, then its timestamp.
pub open spec fn state_bytes(s: SegmentState) -> Seq<u8> {
    seq![s.state_type.spec_id()] + le_bytes((s.timestamp as u64) as int, 8)
}

/// Segment states written one after another.
pub open spec fn states_bytes(ss: Seq<SegmentState>) -> Seq<u8>
    decreases ss.len(),
{
    if ss.len() == 0 {
        Seq::empty()
    } else {
        states_bytes(ss.drop_last()) + state_bytes(ss.last())
    }
}


/// One recorded change: a position, and the block entity placed there or
/// `None` for a cleared position.
pub type Change = (TileEntityPosition, Option<(u32, TileEntityPosition, Seq<u8>)>);

/// `c` put into `ws` before the first change at a larger packed position.
pub open spec fn insert_by_position(ws: Seq<Change>, c: Change) -> Seq<Change>
    decreases ws.len(),
{
    if ws.len() == 0 {
        seq![c]
    } else if packed_position(ws[0].0) > packed_position(c.0) {
        seq![c] + ws
    } else {
        seq![ws[0]] + insert_by_position(ws.skip(1), c)
    }
}

/// The changes ordered by packed position, inserting each in turn (so that
/// changes at one position keep their order).
pub open spec fn sort_by_position(cs: Seq<Change>) -> Seq<Change>
    decreases cs.len(),
{
    if cs.len() == 0 {
        Seq::empty()
    } else {
        insert_by_position(sort_by_position(cs.drop_last()), cs.last())
    }
}

/// The changes of a map's entries as plain values.
pub open spec fn change_views(es: Seq<(TileEntityPosition, TileEntityDelta)>) -> Seq<Change> {
    Seq::new(es.len(), |i: int| (es[i].0, es[i].1@))
}

/// A change as written: the packed position, then a 0 for a cleared
/// position, or a 1, the block entity's type, the length of its data and the
/// data.
pub open spec fn change_bytes(c: Change) -> Seq<u8> {
    le_bytes(packed_position(c.0), 4) + match c.1 {
        None => seq![0u8],
        Some((ty, _pos, nbt)) => seq![1u8] + le_bytes(ty as int, 4) + le_bytes(nbt.len() as int, 8) + nbt,
    }
}

/// Changes written one after another.
pub open spec fn changes_bytes(cs: Seq<Change>) -> Seq<u8>
    decreases cs.len(),
{
    if cs.len() == 0 {
        Seq::empty()
    } else {
        changes_bytes(cs.drop_last()) + change_bytes(cs.last())
    }
}

/// A list of changes as written: its timestamp, its length, then the changes
/// by packed position.
pub open spec fn te_list_bytes(l: TileEntityListDelta) -> Seq<u8> {
    le_bytes((l.timestamp as u64) as int, 8) + le_bytes(l.deltas.entries().len() as int, 8) + changes_bytes(
        sort_by_position(change_views(l.deltas.entries())),
    )
}

/// Lists written one after another.
pub open spec fn te_lists_bytes(ls: Seq<TileEntityListDelta>) -> Seq<u8>
    decreases ls.len(),
{
    if ls.len() == 0 {
        Seq::empty()
    } else {
        te_lists_bytes(ls.drop_last()) + te_list_bytes(ls.last())
    }
}

proof fn lemma_insert_at(ws: Seq<Change>, c: Change, p: int)
    requires
        0 <= p <= ws.len(),
        forall|i: int| 0 <= i < p ==> packed_position(#[trigger] ws[i].0) <= packed_position(c.0),
        p < ws.len() ==> packed_position(ws[p].0) > packed_position(c.0),
    ensures
        insert_by_position(ws, c) == ws.take(p) + seq![c] + ws.skip(p),
    decreases p,
{
    if p == 0 {
        if ws.len() == 0 {
            assert(ws.take(0) + seq![c] + ws.skip(0) =~= seq![c]);
        } else {
            assert(ws.take(0) + seq![c] + ws.skip(0) =~= seq![c] + ws);
        }
    } else {
        let rest = ws.skip(1);
        assert forall|i: int| 0 <= i < p - 1 implies packed_position(#[trigger] rest[i].0) <= packed_position(c.0) by {
            assert(rest[i] == ws[i + 1]);
        }
        if p - 1 < rest.len() {
            assert(rest[p - 1] == ws[p]);
        }
        lemma_insert_at(rest, c, p - 1);
        assert(seq![ws[0]] + (rest.take(p - 1) + seq![c] + rest.skip(p - 1)) =~= ws.take(p) + seq![c] + ws.skip(p));
    }
}

/// Orders the entries of a change map by packed position: their indices,
/// with the packed positions.
pub(crate) fn sorted_order(deltas: &TileEntityDeltaMap, n: usize) -> (r: Vec<(u32, usize)>)
    requires
        n == deltas.entries().len(),
    ensures
        r@.len() == n,
        forall|i: int| 0 <= i < n ==> (#[trigger] r@[i]).1 < n && r@[i].0 == packed_position(deltas.entries()[r@[i].1 as int].0),
        Seq::new(n as nat, |i: int| change_views(deltas.entries())[r@[i].1 as int]) == sort_by_position(change_views(deltas.entries())),
{
    let ghost cv = change_views(deltas.entries());
    let mut sorted: Vec<(u32, usize)> = Vec::new();
    let mut k: usize = 0;
    while k < n
        invariant
            k <= n == deltas.entries().len() == cv.len(),
            cv == change_views(deltas.entries()),
            sorted@.len() == k,
            forall|i: int| 0 <= i < k ==> (#[trigger] sorted@[i]).1 < k && sorted@[i].0 == packed_position(deltas.entries()[sorted@[i].1 as int].0),
            Seq::new(k as nat, |i: int| cv[sorted@[i].1 as int]) == sort_by_position(cv.take(k as int)),
        decreases n - k,
    {
        let (pos, _delta) = deltas.entry_at(k);
        let key = pos.packed();
        let ghost ws = Seq::new(k as nat, |i: int| cv[sorted@[i].1 as int]);
        let mut p: usize = 0;
        while p < sorted.len() && sorted[p].0 <= key
            invariant
                p <= sorted@.len() == k,
                k < n == deltas.entries().len(),
                key == packed_position(cv[k as int].0),
                ws == Seq::new(k as nat, |i: int| cv[sorted@[i].1 as int]),
                forall|i: int| 0 <= i < k ==> (#[trigger] sorted@[i]).1 < k && sorted@[i].0 == packed_position(deltas.entries()[sorted@[i].1 as int].0),
                cv == change_views(deltas.entries()),
                forall|i: int| 0 <= i < p ==> packed_position(#[trigger] ws[i].0) <= key,
            decreases k - p,
        {
            proof {
                let idx = sorted@[p as int].1 as int;
                assert(0 <= idx < k);
                assert(ws[p as int] == cv[idx]);
                assert(cv[idx].0 == deltas.entries()[idx].0);
                assert(packed_position(ws[p as int].0) == sorted@[p as int].0);
            }
            p += 1;
        }
        proof {
            if p < k {
                assert(ws[p as int] == cv[sorted@[p as int].1 as int]);
            }
            lemma_insert_at(ws, cv[k as int], p as int);
            assert(cv.take(k + 1).drop_last() =~= cv.take(k as int));
            assert(cv.take(k + 1).last() == cv[k as int]);
        }
        let ghost before = sorted@;
        sorted.insert(p, (key, k));
        proof {
            assert(sorted@ == before.insert(p as int, (key, k)));
            assert forall|i: int| 0 <= i < k + 1 implies (#[trigger] sorted@[i]).1 < k + 1 && sorted@[i].0 == packed_position(
                deltas.entries()[sorted@[i].1 as int].0,
            ) by {
                if i < p {
                    assert(sorted@[i] == before[i]);
                } else if i > p {
                    assert(sorted@[i] == before[i - 1]);
                }
            }
            assert(Seq::new((k + 1) as nat, |i: int| cv[sorted@[i].1 as int]) =~= ws.take(p as int) + seq![cv[k as int]] + ws.skip(p as int));
        }
        k += 1;
    }
    proof {
        assert(cv.take(n as int) =~= cv);
    }
    sorted
}

/// Writes region files: the bytes so far, the palette tables that snapshots
/// refer to, and the context.
pub struct WriteHandle {
    pub compression_level: i32,
    pub compression_threads: u32,
    pub ctx: Context,
    pub data: Vec<u8>,
    block_palette_table: PaletteTable,
    biome_palette_table: PaletteTable,
}

impl WriteHandle {
    /// The bytes written so far.
    pub closed spec fn bytes(&self) -> Seq<u8> {
        self.data@
    }

    /// The bytes written, taken out of the handle.
    pub fn into_bytes(self) -> (r: Vec<u8>)
        ensures
            r@ == self.bytes(),
    {
        self.data
    }

    pub closed spec fn context(&self) -> Context {
        self.ctx
    }

    /// The zstd level the body is compressed at.
    pub closed spec fn level(&self) -> i32 {
        self.compression_level
    }

    /// How many threads compress.
    pub closed spec fn threads(&self) -> u32 {
        self.compression_threads
    }

    /// The table of block section palettes.
    pub closed spec fn block_table(&self) -> Seq<(Seq<u16>, usize)> {
        self.block_palette_table.view_seq()
    }

    /// The table of biome section palettes.
    pub closed spec fn biome_table(&self) -> Seq<(Seq<u16>, usize)> {
        self.biome_palette_table.view_seq()
    }

    /// The table that block (`is_block`) or biome snapshots are written
    /// against.
    pub open spec fn table(&self, is_block: bool) -> Seq<(Seq<u16>, usize)> {
        if is_block {
            self.block_table()
        } else {
            self.biome_table()
        }
    }

    pub fn new(protocol_version: u16, compression_level: i32, compression_threads: u32) -> (r: Self)
        ensures
            r.level() == compression_level,
            r.threads() == compression_threads,
            r.context() == (Context { section_count: 0, protocol_version }),
            r.bytes() == Seq::<u8>::empty(),
            r.block_table() == Seq::<(Seq<u16>, usize)>::empty(),
            r.biome_table() == Seq::<(Seq<u16>, usize)>::empty(),
    {
        WriteHandle {
            compression_level,
            compression_threads,
            ctx: Context { section_count: 0, protocol_version },
            data: Vec::new(),
            block_palette_table: PaletteTable::new(),
            biome_palette_table: PaletteTable::new(),
        }
    }

    /// Writes a palette table: the number of palettes, then each palette of
    /// at least two atoms as its length and atoms.
    pub fn serialize_palette_table(&mut self, table: &PaletteTable)
        ensures
            final(self).bytes() == old(self).bytes() + palette_table_bytes(table.view_seq()),
            final(self).context() == old(self).context(),
            final(self).block_table() == old(self).block_table(),
            final(self).biome_table() == old(self).biome_table(),
            final(self).level() == old(self).level(),
            final(self).threads() == old(self).threads(),
    {
        let ghost t = table.view_seq();
        put_u32_le(&mut self.data, table.palettes.len() as u32);
        let ghost start = self.data@;
        let mut i: usize = 0;
        while i < table.palettes.len()
            invariant
                i <= table.palettes@.len(),
                t == table.view_seq(),
                self.data@ == start + palettes_bytes(t.take(i as int)),
                self.ctx == old(self).context(),
                self.block_table() == old(self).block_table(),
                self.biome_table() == old(self).biome_table(),
                self.compression_level == old(self).level(),
                self.compression_threads == old(self).threads(),
            decreases table.palettes@.len() - i,
        {
            let palette = &table.palettes[i];
            let len = palette.length();
            proof {
                assert(t.take(i + 1).drop_last() =~= t.take(i as int));
                assert(t.take(i + 1).last() == palette_view(*palette));
            }
            if !(palette.direct() || len == 1) {
                let ghost mid = self.data@;
                put_u16_le(&mut self.data, len as u16);
                let ghost mid2 = self.data@;
                let mut k: usize = 0;
                while k < len
                    invariant
                        k <= len == palette.palette@.len(),
                        self.data@ == mid2 + atoms_bytes(palette.palette@.take(k as int)),
                        self.ctx == old(self).context(),
                        self.block_table() == old(self).block_table(),
                        self.biome_table() == old(self).biome_table(),
                        self.compression_level == old(self).level(),
                        self.compression_threads == old(self).threads(),
                    decreases len - k,
                {
                    put_u16_le(&mut self.data, palette.palette[k]);
                    proof {
                        assert(palette.palette@.take(k + 1).drop_last() =~= palette.palette@.take(k as int));
                        assert(self.data@ =~= mid2 + atoms_bytes(palette.palette@.take(k + 1)));
                    }
                    k += 1;
                }
                proof {
                    assert(palette.palette@.take(len as int) =~= palette.palette@);
                    assert(self.data@ =~= start + palettes_bytes(t.take(i + 1)));
                }
            } else {
                proof {
                    assert(self.data@ =~= start + palettes_bytes(t.take(i + 1)));
                }
            }
            i += 1;
        }
        proof {
            assert(t.take(table.palettes@.len() as int) =~= t);
        }
    }

    /// Writes a snapshot; the index of its palette is looked up in, or added
    /// to, the block or biome table.
    pub fn serialize_packed_snapshot<const UNPACKED_SIZE: usize>(&mut self, snapshot: &PackedSnapshot<UNPACKED_SIZE>, is_block: bool)
        ensures
            final(self).bytes() == old(self).bytes() + snapshot_bytes(*snapshot, old(self).table(is_block)),
            final(self).table(is_block) == snapshot_table(*snapshot, old(self).table(is_block)),
            final(self).table(!is_block) == old(self).table(!is_block),
            final(self).context() == old(self).context(),
            final(self).level() == old(self).level(),
            final(self).threads() == old(self).threads(),
    {
        let ghost start = self.data@;
        put_u64_le(&mut self.data, snapshot.timestamp as u64);
        match &snapshot.data.data {
            Data::Single(val) => {
                put_u8(&mut self.data, 0);
                put_u16_le(&mut self.data, *val);
                proof {
                    assert(self.data@ =~= start + snapshot_bytes(*snapshot, old(self).table(is_block)));
                }
            },
            Data::Paletted(paletted) => {
                put_u8(&mut self.data, 1);
                put_u64_le(&mut self.data, paletted.packed_long_array.len() as u64);
                let ghost mid = self.data@;
                let mut k: usize = 0;
                while k < paletted.packed_long_array.len()
                    invariant
                        k <= paletted.packed_long_array@.len(),
                        self.data@ == mid + longs_bytes(paletted.packed_long_array@.take(k as int)),
                        self.ctx == old(self).context(),
                        self.block_table() == old(self).block_table(),
                        self.biome_table() == old(self).biome_table(),
                        self.compression_level == old(self).level(),
                        self.compression_threads == old(self).threads(),
                    decreases paletted.packed_long_array@.len() - k,
                {
                    put_u64_le(&mut self.data, paletted.packed_long_array[k]);
                    proof {
                        assert(paletted.packed_long_array@.take(k + 1).drop_last() =~= paletted.packed_long_array@.take(k as int));
                        assert(self.data@ =~= mid + longs_bytes(paletted.packed_long_array@.take(k + 1)));
                    }
                    k += 1;
                }
                proof {
                    assert(paletted.packed_long_array@.take(paletted.packed_long_array@.len() as int) =~= paletted.packed_long_array@);
                }
                if paletted.palette.direct() {
                    put_u32_le(&mut self.data, u32::MAX);
                } else {
                    let idx = if is_block {
                        self.block_palette_table.index_for(&paletted.palette)
                    } else {
                        self.biome_palette_table.index_for(&paletted.palette)
                    };
                    put_u32_le(&mut self.data, idx as u32);
                }
                proof {
                    assert(self.data@ =~= start + snapshot_bytes(*snapshot, old(self).table(is_block)));
                }
            },
        }
    }

    /// Writes a history: its length, then its snapshots, newest first.
    pub fn serialize_packed_delta_data<const UNPACKED_SIZE: usize>(&mut self, delta_data: &PackedDeltaData<UNPACKED_SIZE>, is_block: bool)
        ensures
            final(self).bytes() == old(self).bytes() + le_bytes(delta_data.reverse_deltas@.len() as int, 8) + snapshots_bytes(
                delta_data.reverse_deltas@,
                old(self).table(is_block),
            ).0,
            final(self).table(is_block) == snapshots_bytes(delta_data.reverse_deltas@, old(self).table(is_block)).1,
            final(self).table(!is_block) == old(self).table(!is_block),
            final(self).context() == old(self).context(),
            final(self).level() == old(self).level(),
            final(self).threads() == old(self).threads(),
    {
        let ghost t0 = self.table(is_block);
        let ghost ss = delta_data.reverse_deltas@;
        put_u64_le(&mut self.data, delta_data.reverse_deltas.len() as u64);
        let ghost start = self.data@;
        let mut i: usize = 0;
        while i < delta_data.reverse_deltas.len()
            invariant
                i <= ss.len(),
                ss == delta_data.reverse_deltas@,
                self.data@ == start + snapshots_bytes(ss.take(i as int), t0).0,
                self.table(is_block) == snapshots_bytes(ss.take(i as int), t0).1,
                self.table(!is_block) == old(self).table(!is_block),
                self.ctx == old(self).context(),
                self.compression_level == old(self).level(),
                self.compression_threads == old(self).threads(),
            decreases ss.len() - i,
        {
            self.serialize_packed_snapshot(&delta_data.reverse_deltas[i], is_block);
            proof {
                assert(ss.take(i + 1).drop_last() =~= ss.take(i as int));
                assert(ss.take(i + 1).last() == ss[i as int]);
            }
            i += 1;
        }
        proof {
            assert(ss.take(ss.len() as int) =~= ss);
        }
    }

    /// Writes a segment state: its type's id, then its timestamp.
    pub fn serialize_segment_state(&mut self, state: &SegmentState)
        ensures
            final(self).bytes() == old(self).bytes() + state_bytes(*state),
            final(self).block_table() == old(self).block_table(),
            final(self).biome_table() == old(self).biome_table(),
            final(self).context() == old(self).context(),
            final(self).level() == old(self).level(),
            final(self).threads() == old(self).threads(),
    {
        let ghost start = self.data@;
        put_u8(&mut self.data, state.state_type.id());
        put_u64_le(&mut self.data, state.timestamp as u64);
        proof {
            assert(self.data@ =~= start + state_bytes(*state));
        }
    }

    /// Writes one recorded change.
    fn serialize_change(&mut self, pos: &TileEntityPosition, delta: &TileEntityDelta)
        ensures
            final(self).bytes() == old(self).bytes() + change_bytes((*pos, delta@)),
            final(self).block_table() == old(self).block_table(),
            final(self).biome_table() == old(self).biome_table(),
            final(self).context() == old(self).context(),
            final(self).level() == old(self).level(),
            final(self).threads() == old(self).threads(),
    {
        let ghost start = self.data@;
        put_u32_le(&mut self.data, pos.packed());
        match delta {
            TileEntityDelta::Erase => {
                put_u8(&mut self.data, 0);
            },
            TileEntityDelta::Put(te) => {
                put_u8(&mut self.data, 1);
                put_u32_le(&mut self.data, te.tile_type);
                put_u64_le(&mut self.data, te.nbt.len() as u64);
                put_bytes(&mut self.data, te.nbt.as_slice());
            },
        }
        proof {
            assert(self.data@ =~= start + change_bytes((*pos, delta@)));
        }
    }

    /// Writes a segment's block entity history: its length, then each list
    /// as its timestamp, its length and its changes by packed position.
    pub fn serialize_tile_entities(&mut self, tile_entities: &DeltaTileEntityData)
        requires
            tile_entities.wf(),
        ensures
            final(self).bytes() == old(self).bytes() + le_bytes(tile_entities.reverse_deltas@.len() as int, 8) + te_lists_bytes(
                tile_entities.reverse_deltas@,
            ),
            final(self).block_table() == old(self).block_table(),
            final(self).biome_table() == old(self).biome_table(),
            final(self).context() == old(self).context(),
            final(self).level() == old(self).level(),
            final(self).threads() == old(self).threads(),
    {
        let ghost ls = tile_entities.reverse_deltas@;
        put_u64_le(&mut self.data, tile_entities.reverse_deltas.len() as u64);
        let ghost start = self.data@;
        let mut i: usize = 0;
        while i < tile_entities.reverse_deltas.len()
            invariant
                i <= ls.len(),
                ls == tile_entities.reverse_deltas@,
                tile_entities.wf(),
                self.data@ == start + te_lists_bytes(ls.take(i as int)),
                self.block_table() == old(self).block_table(),
                self.biome_table() == old(self).biome_table(),
                self.context() == old(self).context(),
                self.level() == old(self).level(),
                self.threads() == old(self).threads(),
            decreases ls.len() - i,
        {
            let list_delta = &tile_entities.reverse_deltas[i];
            let ghost mid = self.data@;
            put_u64_le(&mut self.data, list_delta.timestamp as u64);
            proof {
                assert(tile_entities.reverse_deltas@[i as int].deltas.wf());
            }
            let n = list_delta.deltas.len();
            put_u64_le(&mut self.data, n as u64);
            let order = sorted_order(&list_delta.deltas, n);
            let ghost cv = change_views(list_delta.deltas.entries());
            let ghost sorted = sort_by_position(cv);
            let ghost mid2 = self.data@;
            let mut j: usize = 0;
            while j < n
                invariant
                    j <= n == cv.len() == sorted.len(),
                    cv == change_views(list_delta.deltas.entries()),
                    sorted == Seq::new(n as nat, |q: int| cv[order@[q].1 as int]),
                    order@.len() == n,
                    forall|q: int| 0 <= q < n ==> (#[trigger] order@[q]).1 < n,
                    self.data@ == mid2 + changes_bytes(sorted.take(j as int)),
                    self.block_table() == old(self).block_table(),
                    self.biome_table() == old(self).biome_table(),
                    self.context() == old(self).context(),
                    self.level() == old(self).level(),
                    self.threads() == old(self).threads(),
                decreases n - j,
            {
                let idx = order[j].1;
                let (pos, delta) = list_delta.deltas.entry_at(idx);
                self.serialize_change(pos, delta);
                proof {
                    assert(sorted[j as int] == cv[idx as int]);
                    assert(sorted.take(j + 1).drop_last() =~= sorted.take(j as int));
                }
                j += 1;
            }
            proof {
                assert(sorted.take(n as int) =~= sorted);
                assert(ls.take(i + 1).drop_last() =~= ls.take(i as int));
                assert(self.data@ =~= start + te_lists_bytes(ls.take(i + 1)));
            }
            i += 1;
        }
        proof {
            assert(ls.take(ls.len() as int) =~= ls);
        }
    }

    /// Writes a segment's state history: its length, then the states.
    pub fn serialize_segment_info(&mut self, info: &SegmentInfo)
        ensures
            final(self).bytes() == old(self).bytes() + le_bytes(info.reverse_deltas@.len() as int, 8) + states_bytes(info.reverse_deltas@),
            final(self).block_table() == old(self).block_table(),
            final(self).biome_table() == old(self).biome_table(),
            final(self).context() == old(self).context(),
            final(self).level() == old(self).level(),
            final(self).threads() == old(self).threads(),
    {
        let ghost ss = info.reverse_deltas@;
        put_u64_le(&mut self.data, info.reverse_deltas.len() as u64);
        let ghost start = self.data@;
        let mut i: usize = 0;
        while i < info.reverse_deltas.len()
            invariant
                i <= ss.len(),
                ss == info.reverse_deltas@,
                self.data@ == start + states_bytes(ss.take(i as int)),
                self.block_table() == old(self).block_table(),
                self.biome_table() == old(self).biome_table(),
                self.ctx == old(self).context(),
                self.compression_level == old(self).level(),
                self.compression_threads == old(self).threads(),
            decreases ss.len() - i,
        {
            self.serialize_segment_state(&info.reverse_deltas[i]);
            proof {
                assert(ss.take(i + 1).drop_last() =~= ss.take(i as int));
                assert(self.data@ =~= start + states_bytes(ss.take(i + 1)));
            }
            i += 1;
        }
        proof {
            assert(ss.take(ss.len() as int) =~= ss);
        }
    }
}


pub proof fn lemma_le_bytes_value(v: int, n: nat)
    requires
        0 <= v < pow256(n),
    ensures
        le_bytes(v, n).len() == n,
        le_value(le_bytes(v, n)) == v,
    decreases n,
{
    if n > 0 {
        assert(v / 256 < pow256((n - 1) as nat)) by (nonlinear_arith)
            requires
                0 <= v < pow256(n),
                pow256(n) == 256 * pow256((n - 1) as nat),
        ;
        lemma_le_bytes_value(v / 256, (n - 1) as nat);
        let b = le_bytes(v, n);
        assert(b.skip(1) =~= le_bytes(v / 256, (n - 1) as nat));
    } else {
        assert(v == 0);
    }
}

/// Reading `n` bytes that hold `le_bytes(v, n)` gives `v`.
pub proof fn lemma_parse_le(d: Seq<u8>, p: int, v: int, n: nat)
    requires
        0 <= p,
        0 <= v < pow256(n),
        p + n <= d.len(),
        d.subrange(p, p + n) == le_bytes(v, n),
    ensures
        parse_uint(d, p, n as int) == Ok::<(int, int), crate::io::serialize::deserialize::ReadFailure>((v, p + n)),
{
    lemma_le_bytes_value(v, n);
}

pub proof fn lemma_pow256_values()
    ensures
        pow256(1) == 256,
        pow256(2) == 65536,
        pow256(4) == 0x1_0000_0000,
        pow256(8) == 0x1_0000_0000_0000_0000,
{
    reveal_with_fuel(pow256, 9);
}

pub proof fn lemma_timestamp_roundtrip(t: i64)
    ensures
        (((t as u64) as int) as u64) as i64 == t,
{
    assert(((t as u64) as i64) == t) by (bit_vector);
}

/// The bytes of `b` within `d` at `p`, when `d` holds `a + b + c` with `a` of
/// length `p`.
proof fn lemma_middle(a: Seq<u8>, b: Seq<u8>, c: Seq<u8>)
    ensures
        (a + b + c).subrange(a.len() as int, (a.len() + b.len()) as int) == b,
{
    assert((a + b + c).subrange(a.len() as int, (a.len() + b.len()) as int) =~= b);
}

/// A written segment state reads back as itself.
proof fn lemma_state_roundtrip(pre: Seq<u8>, st: SegmentState, post: Seq<u8>)
    ensures
        parse_segment_state(pre + state_bytes(st) + post, pre.len() as int) == Ok::<
            (SegmentState, int),
            crate::io::serialize::deserialize::ReadFailure,
        >((st, pre.len() + 9int)),
{
    let d = pre + state_bytes(st) + post;
    let p = pre.len() as int;
    lemma_pow256_values();
    law_state_type_id_roundtrip(st.state_type);
    let id = st.state_type.spec_id();
    let ts = (st.timestamp as u64) as int;
    lemma_le_bytes_value(id as int, 1);
    lemma_le_bytes_value(ts, 8);
    assert(d.subrange(p, p + 1) =~= le_bytes(id as int, 1)) by {
        reveal_with_fuel(le_bytes, 2);
    }
    lemma_parse_le(d, p, id as int, 1);
    assert(d.subrange(p + 1, p + 9) =~= le_bytes(ts, 8));
    lemma_parse_le(d, p + 1, ts, 8);
    lemma_timestamp_roundtrip(st.timestamp);
    assert(state_type_of(id as int) == st.state_type);
}

pub proof fn lemma_states_bytes_len(ss: Seq<SegmentState>)
    ensures
        states_bytes(ss).len() == 9 * ss.len(),
    decreases ss.len(),
{
    if ss.len() > 0 {
        lemma_states_bytes_len(ss.drop_last());
        lemma_pow256_values();
        lemma_le_bytes_value((ss.last().timestamp as u64) as int, 8);
    }
}

proof fn lemma_states_roundtrip(pre: Seq<u8>, ss: Seq<SegmentState>, post: Seq<u8>)
    ensures
        parse_segment_states(pre + states_bytes(ss) + post, pre.len() as int, ss.len()) == Ok::<
            (Seq<SegmentState>, int),
            crate::io::serialize::deserialize::ReadFailure,
        >((ss, (pre.len() + states_bytes(ss).len()) as int)),
    decreases ss.len(),
{
    if ss.len() > 0 {
        let init = ss.drop_last();
        let last = ss.last();
        lemma_states_bytes_len(init);
        let tail = state_bytes(last) + post;
        assert(pre + states_bytes(ss) + post =~= pre + states_bytes(init) + tail);
        lemma_states_roundtrip(pre, init, tail);
        assert(pre + states_bytes(ss) + post =~= (pre + states_bytes(init)) + state_bytes(last) + post);
        lemma_state_roundtrip(pre + states_bytes(init), last, post);
        assert(init.push(last) =~= ss);
        lemma_states_bytes_len(ss);
    } else {
        assert(ss =~= Seq::<SegmentState>::empty());
    }
}

/// A written state history reads back as itself: reading at the start of
/// what `serialize_segment_info` wrote gives its states and ends after them.
pub proof fn law_segment_info_roundtrip(pre: Seq<u8>, states: Seq<SegmentState>, post: Seq<u8>)
    requires
        states.len() <= MAX_SEGMENT_STATES_LENGTH,
    ensures
        parse_segment_info(pre + le_bytes(states.len() as int, 8) + states_bytes(states) + post, pre.len() as int) == Ok::<
            (Seq<SegmentState>, int),
            crate::io::serialize::deserialize::ReadFailure,
        >((states, (pre.len() + 8 + 9 * states.len()) as int)),
{
    let n = states.len() as int;
    lemma_pow256_values();
    lemma_le_bytes_value(n, 8);
    let d = pre + le_bytes(n, 8) + states_bytes(states) + post;
    assert(d.subrange(pre.len() as int, pre.len() + 8int) =~= le_bytes(n, 8));
    lemma_parse_le(d, pre.len() as int, n, 8);
    assert(d =~= (pre + le_bytes(n, 8)) + states_bytes(states) + post);
    lemma_states_roundtrip(pre + le_bytes(n, 8), states, post);
    lemma_states_bytes_len(states);
}

pub proof fn lemma_longs_roundtrip(pre: Seq<u8>, vs: Seq<u64>, post: Seq<u8>)
    ensures
        longs_bytes(vs).len() == 8 * vs.len(),
        parse_u64s(pre + longs_bytes(vs) + post, pre.len() as int, vs.len()) == Ok::<
            (Seq<u64>, int),
            crate::io::serialize::deserialize::ReadFailure,
        >((vs, (pre.len() + 8 * vs.len()) as int)),
    decreases vs.len(),
{
    lemma_pow256_values();
    if vs.len() > 0 {
        let first = vs[0];
        let rest = vs.skip(1);
        lemma_longs_front(vs);
        lemma_le_bytes_value(first as int, 8);
        let d = pre + longs_bytes(vs) + post;
        assert(d =~= pre + le_bytes(first as int, 8) + longs_bytes(rest) + post);
        assert(d.subrange(pre.len() as int, pre.len() + 8int) =~= le_bytes(first as int, 8));
        lemma_parse_le(d, pre.len() as int, first as int, 8);
        assert(d =~= (pre + le_bytes(first as int, 8)) + longs_bytes(rest) + post);
        lemma_longs_roundtrip(pre + le_bytes(first as int, 8), rest, post);
        assert(seq![first] + rest =~= vs);
    } else {
        assert(vs =~= Seq::<u64>::empty());
    }
}

proof fn lemma_longs_front(vs: Seq<u64>)
    requires
        vs.len() > 0,
    ensures
        longs_bytes(vs) == le_bytes(vs[0] as int, 8) + longs_bytes(vs.skip(1)),
    decreases vs.len(),
{
    if vs.len() == 1 {
        assert(vs.drop_last() =~= Seq::<u64>::empty());
        assert(vs.skip(1) =~= Seq::<u64>::empty());
        assert(longs_bytes(vs) =~= le_bytes(vs[0] as int, 8) + longs_bytes(vs.skip(1)));
    } else {
        lemma_longs_front(vs.drop_last());
        assert(vs.skip(1).drop_last() =~= vs.drop_last().skip(1));
        assert(longs_bytes(vs) =~= le_bytes(vs[0] as int, 8) + longs_bytes(vs.skip(1)));
    }
}

proof fn lemma_single_snapshot_roundtrip<const N: usize>(
    pre: Seq<u8>,
    s: PackedSnapshot<N>,
    t: Seq<(Seq<u16>, usize)>,
    table: Seq<(Seq<u16>, usize)>,
    post: Seq<u8>,
    v: u16,
)
    requires
        s.data.data == Data::<N>::Single(v),
    ensures
        parse_packed_snapshot(pre + snapshot_bytes(s, t) + post, pre.len() as int, table) == Ok::<
            ((i64, (bool, u16, Seq<u64>, Seq<u16>, usize)), int),
            crate::io::serialize::deserialize::ReadFailure,
        >(((s.timestamp, packed_view(s.data)), (pre.len() + snapshot_bytes(s, t).len()) as int)),
{
    lemma_pow256_values();
    let ts = (s.timestamp as u64) as int;
    lemma_le_bytes_value(ts, 8);
    lemma_timestamp_roundtrip(s.timestamp);
    let p0 = pre.len() as int;
    let d = pre + snapshot_bytes(s, t) + post;
    assert(d.subrange(p0, p0 + 8) =~= le_bytes(ts, 8));
    lemma_parse_le(d, p0, ts, 8);
            lemma_le_bytes_value(0, 1);
    lemma_le_bytes_value(v as int, 2);
    assert(snapshot_bytes(s, t) == le_bytes(ts, 8) + (seq![0u8] + le_bytes(v as int, 2)));
    assert(snapshot_bytes(s, t).len() == 11);
    assert(packed_view(s.data) == (true, v, Seq::<u64>::empty(), Seq::<u16>::empty(), 0usize));
    assert(d.subrange(p0 + 8, p0 + 9) =~= le_bytes(0, 1)) by {
        reveal_with_fuel(le_bytes, 2);
    }
    lemma_parse_le(d, p0 + 8, 0, 1);
    assert(d.subrange(p0 + 9, p0 + 11) =~= le_bytes(v as int, 2));
    lemma_parse_le(d, p0 + 9, v as int, 2);
    assert(parse_uint(d, p0, 8) == Ok::<(int, int), crate::io::serialize::deserialize::ReadFailure>((ts, p0 + 8)));
    assert(parse_uint(d, p0 + 8, 1) == Ok::<(int, int), crate::io::serialize::deserialize::ReadFailure>((0, p0 + 9)));
    assert(parse_uint(d, p0 + 9, 2) == Ok::<(int, int), crate::io::serialize::deserialize::ReadFailure>((v as int, p0 + 11)));
    assert(((ts as u64) as i64) == s.timestamp);
    assert(parse_packed_snapshot(d, p0, table) == Ok::<
        ((i64, (bool, u16, Seq<u64>, Seq<u16>, usize)), int),
        crate::io::serialize::deserialize::ReadFailure,
    >(((s.timestamp, (true, v, Seq::<u64>::empty(), Seq::<u16>::empty(), 0usize)), p0 + 11)));
    assert(pre + snapshot_bytes(s, t) + post == d);
    assert(p0 + 11 == (pre.len() + snapshot_bytes(s, t).len()) as int);
    assert(parse_packed_snapshot(pre + snapshot_bytes(s, t) + post, pre.len() as int, table) == Ok::<
        ((i64, (bool, u16, Seq<u64>, Seq<u16>, usize)), int),
        crate::io::serialize::deserialize::ReadFailure,
    >(((s.timestamp, packed_view(s.data)), (pre.len() + snapshot_bytes(s, t).len()) as int)));
        
}

/// A written snapshot reads back as itself, when the table it is read
/// against holds its palette where the writer's table had it: a single atom
/// as that atom; paletted data (of at most `MAX_PACKED_LENGTH` longs) as its
/// longs, with its palette, or the direct palette of 16 bits per entry.
pub proof fn law_packed_snapshot_roundtrip<const N: usize>(
    pre: Seq<u8>,
    s: PackedSnapshot<N>,
    t: Seq<(Seq<u16>, usize)>,
    table: Seq<(Seq<u16>, usize)>,
    post: Seq<u8>,
)
    requires
        s.data.data matches Data::Paletted(p) ==> ({
            &&& p.packed_long_array@.len() <= MAX_PACKED_LENGTH
            &&& p.palette.palette@.len() == 0 ==> p.palette.bits_per_entry == 16
            &&& p.palette.palette@.len() > 0 ==> {
                let i = index_in(t, palette_view(p.palette));
                i < table.len() && i < u32::MAX && table[i] == palette_view(p.palette)
            }
        }),
    ensures
        parse_packed_snapshot(pre + snapshot_bytes(s, t) + post, pre.len() as int, table) == Ok::<
            ((i64, (bool, u16, Seq<u64>, Seq<u16>, usize)), int),
            crate::io::serialize::deserialize::ReadFailure,
        >(((s.timestamp, packed_view(s.data)), (pre.len() + snapshot_bytes(s, t).len()) as int)),
{
    lemma_pow256_values();
    let ts = (s.timestamp as u64) as int;
    lemma_le_bytes_value(ts, 8);
    lemma_timestamp_roundtrip(s.timestamp);
    let p0 = pre.len() as int;
    let d = pre + snapshot_bytes(s, t) + post;
    assert(d.subrange(p0, p0 + 8) =~= le_bytes(ts, 8));
    lemma_parse_le(d, p0, ts, 8);
    match s.data.data {
        Data::Single(v) => {
            lemma_single_snapshot_roundtrip(pre, s, t, table, post, v);
        },
        Data::Paletted(p) => {
            let longs = p.packed_long_array@;
            let n = longs.len() as int;
            lemma_le_bytes_value(1, 1);
            lemma_le_bytes_value(n, 8);
            assert(d.subrange(p0 + 8, p0 + 9) =~= le_bytes(1, 1)) by {
                reveal_with_fuel(le_bytes, 2);
            }
            lemma_parse_le(d, p0 + 8, 1, 1);
            assert(d.subrange(p0 + 9, p0 + 17) =~= le_bytes(n, 8));
            lemma_parse_le(d, p0 + 9, n, 8);
            let idx = if p.palette.palette@.len() == 0 {
                u32::MAX as int
            } else {
                (index_in(t, palette_view(p.palette)) as u32) as int
            };
            lemma_le_bytes_value(idx, 4);
            let pre2 = d.subrange(0, p0 + 17);
            let post2 = le_bytes(idx, 4) + post;
            lemma_longs_roundtrip(pre2, longs, post2);
            assert(d =~= pre2 + longs_bytes(longs) + post2);
            let p4 = p0 + 17 + 8 * n;
            assert(d.subrange(p4, p4 + 4) =~= le_bytes(idx, 4));
            lemma_parse_le(d, p4, idx, 4);
            assert(parse_u64s(d, p0 + 17, n as nat) == Ok::<(Seq<u64>, int), crate::io::serialize::deserialize::ReadFailure>((longs, p4)));
            assert(snapshot_bytes(s, t).len() == 21 + 8 * n);
            assert(packed_view(s.data) == (false, 0u16, longs, p.palette.palette@, p.palette.bits_per_entry));
            if p.palette.palette@.len() == 0 {
                assert(idx == u32::MAX);
                assert(p.palette.palette@ =~= Seq::<u16>::empty());
            } else {
                lemma_index_in_range(t, palette_view(p.palette));
                assert(idx == index_in(t, palette_view(p.palette)));
                assert(idx != u32::MAX);
                assert(table[idx] == palette_view(p.palette));
            }
        },
    }
}


/// Whether a change can be written and read back as it is: a placed block
/// entity sits at the change's position, with data of at most
/// `MAX_TILE_ENTITY_NBT_LENGTH` bytes.
pub open spec fn change_fits(c: Change) -> bool {
    c.1 matches Some((_ty, pos, nbt)) ==> pos == c.0 && nbt.len() <= MAX_TILE_ENTITY_NBT_LENGTH
}

pub proof fn lemma_change_roundtrip(pre: Seq<u8>, c: Change, post: Seq<u8>)
    requires
        change_fits(c),
    ensures
        parse_te_change(pre + change_bytes(c) + post, pre.len() as int) == Ok::<
            (Change, int),
            crate::io::serialize::deserialize::ReadFailure,
        >((c, (pre.len() + change_bytes(c).len()) as int)),
{
    lemma_pow256_values();
    law_position_packing(c.0, 0);
    let k = packed_position(c.0);
    lemma_le_bytes_value(k, 4);
    let d = pre + change_bytes(c) + post;
    let p0 = pre.len() as int;
    assert(d.subrange(p0, p0 + 4) =~= le_bytes(k, 4));
    lemma_parse_le(d, p0, k, 4);
    assert(unpacked_position(k as u32) == c.0);
    match c.1 {
        None => {
            lemma_le_bytes_value(0, 1);
            assert(d.subrange(p0 + 4, p0 + 5) =~= le_bytes(0, 1)) by {
                reveal_with_fuel(le_bytes, 2);
            }
            lemma_parse_le(d, p0 + 4, 0, 1);
        },
        Some((ty, pos, nbt)) => {
            lemma_le_bytes_value(1, 1);
            lemma_le_bytes_value(ty as int, 4);
            lemma_le_bytes_value(nbt.len() as int, 8);
            assert(d.subrange(p0 + 4, p0 + 5) =~= le_bytes(1, 1)) by {
                reveal_with_fuel(le_bytes, 2);
            }
            lemma_parse_le(d, p0 + 4, 1, 1);
            assert(d.subrange(p0 + 5, p0 + 9) =~= le_bytes(ty as int, 4));
            lemma_parse_le(d, p0 + 5, ty as int, 4);
            assert(d.subrange(p0 + 9, p0 + 17) =~= le_bytes(nbt.len() as int, 8));
            lemma_parse_le(d, p0 + 9, nbt.len() as int, 8);
            assert(d.subrange(p0 + 17, p0 + 17 + nbt.len()) =~= nbt);
            assert(change_bytes(c).len() == 17 + nbt.len());
        },
    }
}

proof fn lemma_changes_roundtrip(pre: Seq<u8>, cs: Seq<Change>, post: Seq<u8>)
    requires
        forall|i: int| 0 <= i < cs.len() ==> change_fits(#[trigger] cs[i]),
    ensures
        parse_te_changes(pre + changes_bytes(cs) + post, pre.len() as int, cs.len()) == Ok::<
            (Seq<Change>, int),
            crate::io::serialize::deserialize::ReadFailure,
        >((cs, (pre.len() + changes_bytes(cs).len()) as int)),
    decreases cs.len(),
{
    if cs.len() > 0 {
        let init = cs.drop_last();
        let last = cs.last();
        assert forall|i: int| 0 <= i < init.len() implies change_fits(#[trigger] init[i]) by {
            assert(init[i] == cs[i]);
        }
        assert(change_fits(cs[cs.len() - 1]));
        let tail = change_bytes(last) + post;
        assert(pre + changes_bytes(cs) + post =~= pre + changes_bytes(init) + tail);
        lemma_changes_roundtrip(pre, init, tail);
        assert(pre + changes_bytes(cs) + post =~= (pre + changes_bytes(init)) + change_bytes(last) + post);
        lemma_change_roundtrip(pre + changes_bytes(init), last, post);
        assert(init.push(last) =~= cs);
    } else {
        assert(cs =~= Seq::<Change>::empty());
    }
}

pub proof fn lemma_insert_by_position_elements(ws: Seq<Change>, c: Change)
    ensures
        insert_by_position(ws, c).len() == ws.len() + 1,
        forall|x: Change| #[trigger] insert_by_position(ws, c).contains(x) <==> ws.contains(x) || x == c,
    decreases ws.len(),
{
    let r = insert_by_position(ws, c);
    if ws.len() == 0 {
        assert(r =~= seq![c]);
        assert forall|x: Change| #[trigger] r.contains(x) <==> ws.contains(x) || x == c by {
            if r.contains(x) {
                assert(r[0] == x);
            }
            if x == c {
                assert(r[0] == c);
            }
        }
    } else if packed_position(ws[0].0) > packed_position(c.0) {
        assert forall|x: Change| #[trigger] r.contains(x) <==> ws.contains(x) || x == c by {
            if r.contains(x) {
                let i = choose|i: int| 0 <= i < r.len() && r[i] == x;
                if i > 0 {
                    assert(ws[i - 1] == x);
                }
            }
            if ws.contains(x) {
                let i = choose|i: int| 0 <= i < ws.len() && ws[i] == x;
                assert(r[i + 1] == x);
            }
            if x == c {
                assert(r[0] == c);
            }
        }
    } else {
        let rest = ws.skip(1);
        lemma_insert_by_position_elements(rest, c);
        let ir = insert_by_position(rest, c);
        assert(r == seq![ws[0]] + ir);
        assert forall|x: Change| #[trigger] r.contains(x) <==> ws.contains(x) || x == c by {
            if r.contains(x) {
                let i = choose|i: int| 0 <= i < r.len() && r[i] == x;
                if i == 0 {
                    assert(ws[0] == x);
                } else {
                    assert(ir[i - 1] == x);
                    assert(ir.contains(x));
                    if rest.contains(x) {
                        let j = choose|j: int| 0 <= j < rest.len() && rest[j] == x;
                        assert(ws[j + 1] == x);
                    }
                }
            }
            if ws.contains(x) {
                let i = choose|i: int| 0 <= i < ws.len() && ws[i] == x;
                if i == 0 {
                    assert(r[0] == x);
                } else {
                    assert(rest[i - 1] == x);
                    assert(ir.contains(x));
                    let j = choose|j: int| 0 <= j < ir.len() && ir[j] == x;
                    assert(r[j + 1] == x);
                }
            }
            if x == c {
                assert(ir.contains(c));
                let j = choose|j: int| 0 <= j < ir.len() && ir[j] == c;
                assert(r[j + 1] == c);
            }
        }
    }
}

/// Whether no two changes share a position.
pub open spec fn distinct_keys(cs: Seq<Change>) -> bool {
    forall|i: int, j: int| 0 <= i < j < cs.len() ==> #[trigger] cs[i].0 != #[trigger] cs[j].0
}

pub proof fn lemma_sort_elements(cs: Seq<Change>)
    requires
        distinct_keys(cs),
    ensures
        sort_by_position(cs).len() == cs.len(),
        forall|x: Change| #[trigger] sort_by_position(cs).contains(x) <==> cs.contains(x),
        distinct_keys(sort_by_position(cs)),
    decreases cs.len(),
{
    if cs.len() > 0 {
        let init = cs.drop_last();
        let c = cs.last();
        assert(distinct_keys(init)) by {
            assert forall|i: int, j: int| 0 <= i < j < init.len() implies #[trigger] init[i].0 != #[trigger] init[j].0 by {
                assert(cs[i].0 != cs[j].0);
            }
        }
        lemma_sort_elements(init);
        let si = sort_by_position(init);
        lemma_insert_by_position_elements(si, c);
        let r = insert_by_position(si, c);
        assert forall|x: Change| #[trigger] r.contains(x) <==> cs.contains(x) by {
            if cs.contains(x) {
                let i = choose|i: int| 0 <= i < cs.len() && cs[i] == x;
                if i < cs.len() - 1 {
                    assert(init[i] == x);
                    assert(init.contains(x));
                }
            }
            if init.contains(x) {
                let i = choose|i: int| 0 <= i < init.len() && init[i] == x;
                assert(cs[i] == x);
            }
            if x == c {
                assert(cs[cs.len() - 1] == x);
            }
        }
        assert(forall|x: Change| #[trigger] si.contains(x) ==> x.0 != c.0) by {
            assert forall|x: Change| #[trigger] si.contains(x) implies x.0 != c.0 by {
                assert(init.contains(x));
                let i = choose|i: int| 0 <= i < init.len() && init[i] == x;
                assert(cs[i].0 != cs[cs.len() - 1].0);
            }
        }
        lemma_insert_distinct(si, c);
    }
}

proof fn lemma_insert_distinct(ws: Seq<Change>, c: Change)
    requires
        distinct_keys(ws),
        forall|x: Change| #[trigger] ws.contains(x) ==> x.0 != c.0,
    ensures
        distinct_keys(insert_by_position(ws, c)),
    decreases ws.len(),
{
    lemma_insert_by_position_elements(ws, c);
    let r = insert_by_position(ws, c);
    if ws.len() == 0 {
    } else if packed_position(ws[0].0) > packed_position(c.0) {
        assert forall|i: int, j: int| 0 <= i < j < r.len() implies #[trigger] r[i].0 != #[trigger] r[j].0 by {
            if i == 0 {
                assert(ws.contains(ws[j - 1]));
            } else {
                assert(ws[i - 1].0 != ws[j - 1].0);
            }
        }
    } else {
        let rest = ws.skip(1);
        assert(distinct_keys(rest)) by {
            assert forall|i: int, j: int| 0 <= i < j < rest.len() implies #[trigger] rest[i].0 != #[trigger] rest[j].0 by {
                assert(ws[i + 1].0 != ws[j + 1].0);
            }
        }
        assert forall|x: Change| #[trigger] rest.contains(x) implies x.0 != c.0 by {
            let i = choose|i: int| 0 <= i < rest.len() && rest[i] == x;
            assert(ws[i + 1] == x);
            assert(ws.contains(x));
        }
        lemma_insert_distinct(rest, c);
        lemma_insert_by_position_elements(rest, c);
        let ir = insert_by_position(rest, c);
        assert(r == seq![ws[0]] + ir);
        assert forall|i: int, j: int| 0 <= i < j < r.len() implies #[trigger] r[i].0 != #[trigger] r[j].0 by {
            if i == 0 {
                assert(r[j] == ir[j - 1]);
                assert(ir.contains(ir[j - 1]));
                if ir[j - 1] == c {
                    assert(ws.contains(ws[0]));
                } else {
                    assert(rest.contains(ir[j - 1]));
                    let q = choose|q: int| 0 <= q < rest.len() && rest[q] == ir[j - 1];
                    assert(ws[0].0 != ws[q + 1].0);
                }
            } else {
                assert(r[i] == ir[i - 1] && r[j] == ir[j - 1]);
            }
        }
    }
}

/// The map a sequence of changes with distinct positions stands for: each
/// position to its change.
proof fn lemma_changes_map_of_distinct(cs: Seq<Change>)
    requires
        distinct_keys(cs),
    ensures
        forall|k: TileEntityPosition| #[trigger] changes_map(cs).dom().contains(k) <==> exists|i: int| 0 <= i < cs.len() && cs[i].0 == k,
        forall|i: int| 0 <= i < cs.len() ==> #[trigger] changes_map(cs)[cs[i].0] == cs[i].1,
    decreases cs.len(),
{
    if cs.len() > 0 {
        let init = cs.drop_last();
        assert(distinct_keys(init)) by {
            assert forall|i: int, j: int| 0 <= i < j < init.len() implies #[trigger] init[i].0 != #[trigger] init[j].0 by {
                assert(cs[i].0 != cs[j].0);
            }
        }
        lemma_changes_map_of_distinct(init);
        let last = cs[cs.len() - 1];
        assert(changes_map(cs) == changes_map(init).insert(last.0, last.1));
        assert forall|k: TileEntityPosition| #[trigger] changes_map(cs).dom().contains(k) <==> exists|i: int|
            0 <= i < cs.len() && cs[i].0 == k by {
            if changes_map(cs).dom().contains(k) {
                if k == last.0 {
                    assert(cs[cs.len() - 1].0 == k);
                } else {
                    assert(changes_map(init).dom().contains(k));
                    let i = choose|i: int| 0 <= i < init.len() && init[i].0 == k;
                    assert(cs[i].0 == k);
                }
            }
            if exists|i: int| 0 <= i < cs.len() && cs[i].0 == k {
                let i = choose|i: int| 0 <= i < cs.len() && cs[i].0 == k;
                if i < cs.len() - 1 {
                    assert(init[i].0 == k);
                    assert(changes_map(init).dom().contains(k));
                }
            }
        }
        assert forall|i: int| 0 <= i < cs.len() implies #[trigger] changes_map(cs)[cs[i].0] == cs[i].1 by {
            if i < cs.len() - 1 {
                assert(init[i] == cs[i]);
                assert(cs[i].0 != cs[cs.len() - 1].0);
                assert(changes_map(init)[init[i].0] == init[i].1);
            }
        }
    }
}

/// Two sequences of changes with distinct positions and the same elements
/// stand for the same map.
pub proof fn lemma_changes_map_same_elements(a: Seq<Change>, b: Seq<Change>)
    requires
        distinct_keys(a),
        distinct_keys(b),
        forall|x: Change| #[trigger] a.contains(x) <==> b.contains(x),
    ensures
        changes_map(a) == changes_map(b),
{
    lemma_changes_map_of_distinct(a);
    lemma_changes_map_of_distinct(b);
    assert forall|k: TileEntityPosition| #[trigger] changes_map(a).dom().contains(k) <==> changes_map(b).dom().contains(k) by {
        if changes_map(a).dom().contains(k) {
            let i = choose|i: int| 0 <= i < a.len() && a[i].0 == k;
            assert(a.contains(a[i]));
            let j = choose|j: int| 0 <= j < b.len() && b[j] == a[i];
            assert(b[j].0 == k);
        }
        if changes_map(b).dom().contains(k) {
            let j = choose|j: int| 0 <= j < b.len() && b[j].0 == k;
            assert(b.contains(b[j]));
            assert(a.contains(b[j]));
            let i = choose|i: int| 0 <= i < a.len() && a[i] == b[j];
            assert(a[i].0 == k);
        }
    }
    assert forall|k: TileEntityPosition| #[trigger] changes_map(a).dom().contains(k) implies changes_map(a)[k] == changes_map(b)[k] by {
        let i = choose|i: int| 0 <= i < a.len() && a[i].0 == k;
        assert(a.contains(a[i]));
        let j = choose|j: int| 0 <= j < b.len() && b[j] == a[i];
        assert(changes_map(b)[b[j].0] == b[j].1);
    }
    assert(changes_map(a) =~= changes_map(b));
}

pub proof fn lemma_entries_map_is_changes_map(es: Seq<(TileEntityPosition, TileEntityDelta)>)
    ensures
        entries_map(es) == changes_map(change_views(es)),
    decreases es.len(),
{
    if es.len() > 0 {
        lemma_entries_map_is_changes_map(es.drop_last());
        assert(change_views(es).drop_last() =~= change_views(es.drop_last()));
    }
}

/// Whether a block entity history can be written and read back as it is:
/// within the length limits, each placed entity at its change's position.
pub open spec fn history_fits(ls: Seq<TileEntityListDelta>) -> bool {
    &&& ls.len() <= MAX_DELTA_LENGTH
    &&& forall|k: int| 0 <= k < ls.len() ==> {
        &&& (#[trigger] ls[k]).deltas.wf()
        &&& ls[k].deltas.entries().len() <= MAX_TILE_ENTITY_LIST_LENGTH
        &&& forall|i: int| 0 <= i < ls[k].deltas.entries().len() ==> change_fits(#[trigger] change_views(ls[k].deltas.entries())[i])
    }
}

proof fn lemma_list_roundtrip(pre: Seq<u8>, l: TileEntityListDelta, post: Seq<u8>)
    requires
        l.deltas.wf(),
        l.deltas.entries().len() <= MAX_TILE_ENTITY_LIST_LENGTH,
        forall|i: int| 0 <= i < l.deltas.entries().len() ==> change_fits(#[trigger] change_views(l.deltas.entries())[i]),
    ensures
        parse_te_list(pre + te_list_bytes(l) + post, pre.len() as int) matches Ok(((ts, cs), e)) && ts == l.timestamp
            && changes_map(cs) == l.deltas.map() && e == pre.len() + te_list_bytes(l).len(),
{
    lemma_pow256_values();
    let cv = change_views(l.deltas.entries());
    assert(distinct_keys(cv)) by {
        assert forall|i: int, j: int| 0 <= i < j < cv.len() implies #[trigger] cv[i].0 != #[trigger] cv[j].0 by {
            assert(l.deltas.entries()[i].0 != l.deltas.entries()[j].0);
        }
    }
    lemma_sort_elements(cv);
    let sorted = sort_by_position(cv);
    assert forall|i: int| 0 <= i < sorted.len() implies change_fits(#[trigger] sorted[i]) by {
        assert(sorted.contains(sorted[i]));
        let j = choose|j: int| 0 <= j < cv.len() && cv[j] == sorted[i];
        assert(change_fits(cv[j]));
    }
    let ts = (l.timestamp as u64) as int;
    let n = cv.len() as int;
    lemma_le_bytes_value(ts, 8);
    lemma_le_bytes_value(n, 8);
    lemma_timestamp_roundtrip(l.timestamp);
    let d = pre + te_list_bytes(l) + post;
    let p0 = pre.len() as int;
    assert(d.subrange(p0, p0 + 8) =~= le_bytes(ts, 8));
    lemma_parse_le(d, p0, ts, 8);
    assert(d.subrange(p0 + 8, p0 + 16) =~= le_bytes(n, 8));
    lemma_parse_le(d, p0 + 8, n, 8);
    let pre2 = pre + le_bytes(ts, 8) + le_bytes(n, 8);
    assert(d =~= pre2 + changes_bytes(sorted) + post);
    lemma_changes_roundtrip(pre2, sorted, post);
    lemma_changes_map_same_elements(sorted, cv);
    lemma_entries_map_is_changes_map(l.deltas.entries());
}

proof fn lemma_lists_roundtrip(pre: Seq<u8>, ls: Seq<TileEntityListDelta>, post: Seq<u8>)
    requires
        history_fits(ls),
    ensures
        parse_te_lists(pre + te_lists_bytes(ls) + post, pre.len() as int, ls.len()) matches Ok((vs, e)) && vs.len() == ls.len()
            && e == pre.len() + te_lists_bytes(ls).len() && forall|k: int| 0 <= k < ls.len() ==> (#[trigger] vs[k]).0
            == ls[k].timestamp && changes_map(vs[k].1) == ls[k].deltas.map(),
    decreases ls.len(),
{
    if ls.len() > 0 {
        let init = ls.drop_last();
        let last = ls.last();
        assert(history_fits(init)) by {
            assert forall|k: int| 0 <= k < init.len() implies {
                &&& (#[trigger] init[k]).deltas.wf()
                &&& init[k].deltas.entries().len() <= MAX_TILE_ENTITY_LIST_LENGTH
                &&& forall|i: int| 0 <= i < init[k].deltas.entries().len() ==> change_fits(#[trigger] change_views(init[k].deltas.entries())[i])
            } by {
                assert(init[k] == ls[k]);
            }
        }
        assert(ls[ls.len() - 1] == last);
        let tail = te_list_bytes(last) + post;
        assert(pre + te_lists_bytes(ls) + post =~= pre + te_lists_bytes(init) + tail);
        lemma_lists_roundtrip(pre, init, tail);
        assert(pre + te_lists_bytes(ls) + post =~= (pre + te_lists_bytes(init)) + te_list_bytes(last) + post);
        lemma_list_roundtrip(pre + te_lists_bytes(init), last, post);
        let r = parse_te_lists(pre + te_lists_bytes(ls) + post, pre.len() as int, ls.len());
        let vs = r.unwrap().0;
        assert forall|k: int| 0 <= k < ls.len() implies (#[trigger] vs[k]).0 == ls[k].timestamp && changes_map(vs[k].1)
            == ls[k].deltas.map() by {
            if k < ls.len() - 1 {
                assert(init[k] == ls[k]);
            }
        }
    }
}

/// A written block entity history reads back as itself: reading at the
/// start of what `serialize_tile_entities` wrote gives, list by list, the
/// timestamps and the maps of changes, and ends after it.
pub proof fn law_tile_entities_roundtrip(pre: Seq<u8>, ls: Seq<TileEntityListDelta>, post: Seq<u8>)
    requires
        history_fits(ls),
    ensures
        parse_tile_entities(pre + le_bytes(ls.len() as int, 8) + te_lists_bytes(ls) + post, pre.len() as int) matches Ok(
            (vs, e),
        ) && vs.len() == ls.len() && e == pre.len() + 8 + te_lists_bytes(ls).len() && forall|k: int|
            0 <= k < ls.len() ==> (#[trigger] vs[k]).0 == ls[k].timestamp && changes_map(vs[k].1) == ls[k].deltas.map(),
{
    lemma_pow256_values();
    let n = ls.len() as int;
    lemma_le_bytes_value(n, 8);
    let d = pre + le_bytes(n, 8) + te_lists_bytes(ls) + post;
    assert(d.subrange(pre.len() as int, pre.len() + 8int) =~= le_bytes(n, 8));
    lemma_parse_le(d, pre.len() as int, n, 8);
    assert(d =~= (pre + le_bytes(n, 8)) + te_lists_bytes(ls) + post);
    lemma_lists_roundtrip(pre + le_bytes(n, 8), ls, post);
}


/// A region file: its format version, the game's protocol, its dimension and
/// its segments.
pub struct File {
    pub version: Version,
    pub protocol_version: u16,
    pub dimension_type: DimensionType,
    pub region: Region,
}

impl File {
    /// An empty overworld file of the newest version, for protocol 769.
    pub fn default() -> (r: File)
        ensures
            r.version == ZVCR3D_LATEST_VERSION,
            r.protocol_version == 769,
            r.dimension_type == DimensionType::Overworld,
            r.region.wf(),
            r.region.protocol_version == 769,
            forall|i: int| 0 <= i < SEGMENTS_PER_REGION ==> #[trigger] r.region.segments@[i] is None,
    {
        File {
            version: ZVCR3D_LATEST_VERSION,
            protocol_version: 769,
            dimension_type: DimensionType::Overworld,
            region: Region::new(769),
        }
    }
}

/// A palette table, as the views of its palettes.
pub type TableView = Seq<(Seq<u16>, usize)>;

/// A history as written from table `t`: its length, then its snapshots; and
/// the table after it.
pub open spec fn history_bytes<const N: usize>(d: Seq<PackedSnapshot<N>>, t: TableView) -> (Seq<u8>, TableView) {
    (le_bytes(d.len() as int, 8) + snapshots_bytes(d, t).0, snapshots_bytes(d, t).1)
}

/// The first `n` histories of `secs` written one after another from table
/// `t`, and the table after them.
pub open spec fn sections_bytes<const N: usize>(secs: Seq<PackedDeltaData<N>>, n: nat, t: TableView) -> (Seq<u8>, TableView)
    decreases n,
{
    if n == 0 {
        (Seq::empty(), t)
    } else {
        let (b, t1) = sections_bytes(secs, (n - 1) as nat, t);
        let (b2, t2) = history_bytes(secs[n - 1].reverse_deltas@, t1);
        (b + b2, t2)
    }
}

/// A segment as written with `sc` sections from the block table `bt` and
/// biome table `ct`: its block histories, its biome histories, its state
/// history and its block entity history; and the two tables after it.
pub open spec fn segment_bytes(seg: Segment, sc: nat, bt: TableView, ct: TableView) -> (Seq<u8>, TableView, TableView) {
    let (b1, bt1) = sections_bytes(seg.block_sections.sections@, sc, bt);
    let (b2, ct1) = sections_bytes(seg.biome_sections.sections@, sc, ct);
    let info = seg.info.reverse_deltas@;
    let tes = seg.tile_entities.reverse_deltas@;
    (
        b1 + b2 + le_bytes(info.len() as int, 8) + states_bytes(info) + le_bytes(tes.len() as int, 8) + te_lists_bytes(tes),
        bt1,
        ct1,
    )
}

/// The first `n` slots of a region as written: a 0 for an empty slot, a 1
/// and the segment for a full one; and the tables after them.
pub open spec fn slots_bytes(slots: Seq<Option<Arc<Segment>>>, n: nat, sc: nat, bt: TableView, ct: TableView) -> (Seq<u8>, TableView, TableView)
    decreases n,
{
    if n == 0 {
        (Seq::empty(), bt, ct)
    } else {
        let (b, bt1, ct1) = slots_bytes(slots, (n - 1) as nat, sc, bt, ct);
        let (b2, bt2, ct2) = slot_bytes(slots[n - 1], sc, bt1, ct1);
        (b + b2, bt2, ct2)
    }
}

/// One slot as written: a 0 when empty, a 1 and the segment when full.
pub open spec fn slot_bytes(slot: Option<Arc<Segment>>, sc: nat, bt: TableView, ct: TableView) -> (Seq<u8>, TableView, TableView) {
    match slot {
        None => (seq![0u8], bt, ct),
        Some(seg) => {
            let (b, bt1, ct1) = segment_bytes(*seg, sc, bt, ct);
            (seq![1u8] + b, bt1, ct1)
        },
    }
}

/// The body of a region file before compression: the block and biome palette
/// tables that its segments gathered, then its slots.
pub open spec fn region_body(region: Region, sc: nat) -> Seq<u8> {
    let (b, bt, ct) = slots_bytes(region.segments@, SEGMENTS_PER_REGION as nat, sc, Seq::empty(), Seq::empty());
    palette_table_bytes(bt) + palette_table_bytes(ct) + b
}

/// The uncompressed header of a region file: the prefix, the newest
/// version, the dimension and the protocol.
pub open spec fn file_header(dimension: DimensionType, protocol_version: u16) -> Seq<u8> {
    EXTENSION.spec_bytes() + seq![ZVCR3D_LATEST_VERSION.spec_id(), dimension.spec_id()] + le_bytes(protocol_version as int, 2)
}

/// A segment can be written with `sc` sections: it has them, and its block
/// entity lists are maps.
pub open spec fn segment_writable(seg: Segment, sc: nat) -> bool {
    &&& sc <= seg.block_sections.sections@.len()
    &&& sc <= seg.biome_sections.sections@.len()
    &&& seg.tile_entities.wf()
}

/// Every segment of the region can be written with `sc` sections.
pub open spec fn region_writable(region: Region, sc: nat) -> bool {
    &&& region.wf()
    &&& forall|i: int| 0 <= i < SEGMENTS_PER_REGION ==> (#[trigger] region.segments@[i] matches Some(seg) ==> segment_writable(*seg, sc))
}

/// Whether the segment can be written with `section_count` sections.
pub fn segment_is_writable(seg: &Segment, section_count: usize) -> (r: bool)
    ensures
        r == segment_writable(*seg, section_count as nat),
{
    section_count <= seg.block_sections.sections.len() && section_count <= seg.biome_sections.sections.len()
        && seg.tile_entities.is_well_formed()
}

/// Whether every segment of the region can be written with `section_count`
/// sections.
pub fn region_is_writable(region: &Region, section_count: usize) -> (r: bool)
    ensures
        r == region_writable(*region, section_count as nat),
{
    if region.segments.len() != SEGMENTS_PER_REGION {
        return false;
    }
    let mut i: usize = 0;
    while i < SEGMENTS_PER_REGION
        invariant
            i <= SEGMENTS_PER_REGION,
            region.segments@.len() == SEGMENTS_PER_REGION,
            forall|k: int| 0 <= k < i ==> (#[trigger] region.segments@[k] matches Some(seg) ==> segment_writable(*seg, section_count as nat)),
        decreases SEGMENTS_PER_REGION - i,
    {
        match &region.segments[i] {
            Some(seg) => {
                if !segment_is_writable(&**seg, section_count) {
                    return false;
                }
            },
            None => {},
        }
        i += 1;
    }
    true
}

impl WriteHandle {
    /// Writes the first `section_count` histories of `secs`.
    fn serialize_sections<const N: usize>(&mut self, secs: &Vec<PackedDeltaData<N>>, section_count: usize, is_block: bool)
        requires
            section_count <= secs@.len(),
        ensures
            final(self).bytes() == old(self).bytes() + sections_bytes(secs@, section_count as nat, old(self).table(is_block)).0,
            final(self).table(is_block) == sections_bytes(secs@, section_count as nat, old(self).table(is_block)).1,
            final(self).table(!is_block) == old(self).table(!is_block),
            final(self).context() == old(self).context(),
            final(self).level() == old(self).level(),
            final(self).threads() == old(self).threads(),
    {
        let ghost t0 = self.table(is_block);
        let ghost start = self.bytes();
        let mut i: usize = 0;
        while i < section_count
            invariant
                i <= section_count <= secs@.len(),
                self.bytes() == start + sections_bytes(secs@, i as nat, t0).0,
                self.table(is_block) == sections_bytes(secs@, i as nat, t0).1,
                self.table(!is_block) == old(self).table(!is_block),
                self.context() == old(self).context(),
                self.level() == old(self).level(),
                self.threads() == old(self).threads(),
            decreases section_count - i,
        {
            self.serialize_packed_delta_data(&secs[i], is_block);
            proof {
                let (b, t1) = sections_bytes(secs@, i as nat, t0);
                let (b2, t2) = history_bytes(secs@[i as int].reverse_deltas@, t1);
                assert(sections_bytes(secs@, (i + 1) as nat, t0) == (b + b2, t2));
                assert(self.bytes() =~= start + (b + b2));
            }
            i += 1;
        }
    }

    /// Writes a segment: its block histories, its biome histories, its state
    /// history and its block entity history, for the context's sections.
    pub fn serialize_segment(&mut self, segment: &Segment)
        requires
            segment_writable(*segment, old(self).context().section_count as nat),
        ensures
            ({
                let (b, bt, ct) = segment_bytes(
                    *segment,
                    old(self).context().section_count as nat,
                    old(self).block_table(),
                    old(self).biome_table(),
                );
                &&& final(self).bytes() == old(self).bytes() + b
                &&& final(self).block_table() == bt
                &&& final(self).biome_table() == ct
            }),
            final(self).context() == old(self).context(),
            final(self).level() == old(self).level(),
            final(self).threads() == old(self).threads(),
    {
        let ghost start = self.bytes();
        let sc = self.ctx.section_count;
        self.serialize_sections(&segment.block_sections.sections, sc, true);
        let ghost b1 = self.bytes();
        self.serialize_sections(&segment.biome_sections.sections, sc, false);
        let ghost b2 = self.bytes();
        self.serialize_segment_info(&segment.info);
        let ghost b3 = self.bytes();
        self.serialize_tile_entities(&segment.tile_entities);
        proof {
            let info = segment.info.reverse_deltas@;
            let tes = segment.tile_entities.reverse_deltas@;
            let s1 = sections_bytes(segment.block_sections.sections@, sc as nat, old(self).block_table()).0;
            let s2 = sections_bytes(segment.biome_sections.sections@, sc as nat, old(self).biome_table()).0;
            assert(self.bytes() =~= start + (s1 + s2 + le_bytes(info.len() as int, 8) + states_bytes(info) + le_bytes(
                tes.len() as int,
                8,
            ) + te_lists_bytes(tes)));
        }
    }

    /// Writes the region body into `self.data`: the palette tables the
    /// segments gathered, then a byte for each slot, followed by the segment
    /// where the slot holds one. The body is then compressed in place, which
    /// always succeeds.
    pub fn serialize_region(&mut self, region: &Region) -> (r: Result<(), String>)
        requires
            region_writable(*region, old(self).context().section_count as nat),
        ensures
            ({
                let body = region_body(*region, old(self).context().section_count as nat);
                &&& r is Ok
                &&& final(self).bytes() == old(self).bytes() + zstd_compressed(body, old(self).level())
                &&& zstd_decoded(zstd_compressed(body, old(self).level())) == body
                &&& zstd_decodes(zstd_compressed(body, old(self).level()))
            }),
            final(self).block_table() == old(self).block_table(),
            final(self).biome_table() == old(self).biome_table(),
            final(self).context() == old(self).context(),
            final(self).level() == old(self).level(),
            final(self).threads() == old(self).threads(),
    {
        let header_len = self.data.len();
        let mut inner_handle = WriteHandle::new(self.ctx.protocol_version, self.compression_level, self.compression_threads);
        inner_handle.ctx = self.ctx;
        let ghost sc = self.ctx.section_count as nat;
        let mut i: usize = 0;
        while i < SEGMENTS_PER_REGION
            invariant
                i <= SEGMENTS_PER_REGION,
                region_writable(*region, sc),
                inner_handle.context() == old(self).context(),
                sc == old(self).context().section_count,
                ({
                    let (b, bt, ct) = slots_bytes(region.segments@, i as nat, sc, Seq::empty(), Seq::empty());
                    &&& inner_handle.bytes() == b
                    &&& inner_handle.block_table() == bt
                    &&& inner_handle.biome_table() == ct
                }),
            decreases SEGMENTS_PER_REGION - i,
        {
            let ghost before = inner_handle.bytes();
            match &region.segments[i] {
                Some(seg) => {
                    put_u8(&mut inner_handle.data, 1);
                    proof {
                        assert(region.segments@[i as int] matches Some(s) ==> segment_writable(*s, sc));
                    }
                    inner_handle.serialize_segment(&**seg);
                },
                None => {
                    put_u8(&mut inner_handle.data, 0);
                },
            }
            proof {
                let (b, bt, ct) = slots_bytes(region.segments@, i as nat, sc, Seq::empty(), Seq::empty());
                let (b2, bt2, ct2) = slot_bytes(region.segments@[i as int], sc, bt, ct);
                assert(inner_handle.bytes() =~= b + b2);
            }
            i += 1;
        }
        let ghost start = self.bytes();
        self.serialize_palette_table(&inner_handle.block_palette_table);
        self.serialize_palette_table(&inner_handle.biome_palette_table);
        put_bytes(&mut self.data, inner_handle.data.as_slice());
        let ghost body = region_body(*region, sc);
        proof {
            assert(self.data@ =~= start + body);
            assert(self.data@.subrange(header_len as int, self.data@.len() as int) =~= body);
        }
        let end = self.data.len();
        let compressed = {
            let body_slice = vstd::slice::slice_subrange(self.data.as_slice(), header_len, end);
            let mut parts: Vec<&[u8]> = Vec::new();
            parts.push(body_slice);
            proof {
                reveal_with_fuel(joined, 2);
                assert(joined(parts@) =~= body);
            }
            compress_zstd_parts(parts.as_slice(), self.compression_level)
        };
        match compressed {
            Ok(c) => {
                self.data.truncate(header_len);
                put_bytes(&mut self.data, c.as_slice());
                proof {
                    assert(self.data@ =~= start + zstd_compressed(body, old(self).level()));
                }
                Ok(())
            },
            Err(e) => {
                self.data.truncate(header_len);
                Err(e)
            },
        }
    }

    /// Writes a whole file: takes the dimension's section count, writes the
    /// header, then the compressed region body.
    pub fn serialize_file(&mut self, file: &File) -> (r: Result<(), String>)
        requires
            region_writable(file.region, file.dimension_type.spec_section_count() as nat),
        ensures
            final(self).context().section_count == file.dimension_type.spec_section_count(),
            final(self).context().protocol_version == old(self).context().protocol_version,
            ({
                let header = file_header(file.dimension_type, file.protocol_version);
                let body = region_body(file.region, file.dimension_type.spec_section_count() as nat);
                &&& r is Ok
                &&& final(self).bytes() == old(self).bytes() + header + zstd_compressed(body, old(self).level())
                &&& zstd_decoded(zstd_compressed(body, old(self).level())) == body
                &&& zstd_decodes(zstd_compressed(body, old(self).level()))
            }),
            final(self).block_table() == old(self).block_table(),
            final(self).biome_table() == old(self).biome_table(),
            final(self).level() == old(self).level(),
            final(self).threads() == old(self).threads(),
    {
        let ghost start = self.bytes();
        self.ctx.initialize_section_count(file.dimension_type);
        put_bytes(&mut self.data, EXTENSION.as_bytes());
        put_u8(&mut self.data, ZVCR3D_LATEST_VERSION.id());
        put_u8(&mut self.data, file.dimension_type.id());
        put_u16_le(&mut self.data, file.protocol_version);
        proof {
            assert(self.bytes() =~= start + file_header(file.dimension_type, file.protocol_version));
        }
        self.serialize_region(&file.region)
    }
}

} // verus!
