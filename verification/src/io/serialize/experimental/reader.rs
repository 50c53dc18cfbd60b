use vstd::prelude::*;
use vstd::string::StringSliceAdditionalSpecFns;

use crate::definitions::{SECTION_SIZE_BIOMES, SECTION_SIZE_BLOCKS, SEGMENTS_PER_REGION};
use crate::dimension::DimensionType;
use crate::io::compression::{decompress_zstd, zstd_decoded, zstd_decodes};
use crate::io::file_location::EXTENSION;
use crate::io::serialize::deserialize::{
    byte_at, changes_map, fits, is_zstd_error, le_at, out_of_bounds_at, packed_view, parse_segment_info,
    parse_te_change, parse_u16s, parse_u64s, parse_uint, reports, tile_entities_read, ReadFailure, ReadHandle,
    SnapshotView, TileEntitiesView,
};
use crate::io::serialize::error::{
    ReadError, MAX_DELTA_LENGTH, MAX_PACKED_LENGTH, MAX_TILE_ENTITY_LIST_LENGTH, MAX_TILE_ENTITY_NBT_LENGTH,
};
use crate::raw::{RegionData, SegmentData};
use crate::region::delta::PackedDeltaData;
use crate::region::packed_data::{Data, PackedData, PackedSnapshot, PalettedData};
use crate::region::palette::{bits_per_entry, direct_palette, spec_bits_per_entry, Palette, MAX_INDIRECT_PALETTE_SIZE};
use crate::region::segment::MAX_SECTION_COUNT;
use crate::region::segment_info::SegmentState;
use crate::region::tile_entities::{
    DeltaTileEntityData, PositionMap, TileEntity, TileEntityDelta, TileEntityDeltaMap, TileEntityListDelta,
    TileEntityPosition,
};
use crate::version::{Version, ZVCR3D_LATEST_VERSION};

pub mod sweeps;
pub mod tile_entities;

verus! {

/// A palette written inline at `p`: its length (at most
/// `MAX_INDIRECT_PALETTE_SIZE`; 0 stands for the direct palette), then its
/// atoms.
pub open spec fn parse_xp_palette(d: Seq<u8>, p: int) -> Result<((Seq<u16>, usize), int), ReadFailure> {
    match parse_uint(d, p, 2) {
        Err(f) => Err(f),
        Ok((len, p1)) => if len > 256 {
            Err(ReadFailure::LengthExceeded)
        } else if len == 0 {
            Ok(((Seq::empty(), 16usize), p1))
        } else {
            match parse_u16s(d, p1, len as nat) {
                Err(f) => Err(f),
                Ok((vals, p2)) => Ok(((vals, spec_bits_per_entry(len)), p2)),
            }
        },
    }
}

/// The packed longs at `p`: their number (at most `MAX_PACKED_LENGTH`), then
/// the longs, taken as one slice that must be there whole.
pub open spec fn parse_xp_longs(d: Seq<u8>, p: int) -> Result<(Seq<u64>, int), ReadFailure> {
    match parse_uint(d, p, 8) {
        Err(f) => Err(f),
        Ok((n, p1)) => if n > MAX_PACKED_LENGTH {
            Err(ReadFailure::LengthExceeded)
        } else if !fits(d, p1, 8 * n) {
            Err(ReadFailure::OutOfBounds(p1 as usize))
        } else {
            parse_u64s(d, p1, n as nat)
        },
    }
}

/// A snapshot at `p`: its timestamp, a tag byte, then for tag 0 one atom and
/// for tag 1 an inline palette and the packed longs; any other tag is refused.
pub open spec fn parse_xp_snapshot(d: Seq<u8>, p: int) -> Result<(SnapshotView, int), ReadFailure> {
    match parse_uint(d, p, 8) {
        Err(f) => Err(f),
        Ok((ts, p1)) => match parse_uint(d, p1, 1) {
            Err(f) => Err(f),
            Ok((tag, p2)) => if tag == 0 {
                match parse_uint(d, p2, 2) {
                    Err(f) => Err(f),
                    Ok((v, p3)) => Ok((((ts as u64) as i64, (true, v as u16, Seq::empty(), Seq::empty(), 0usize)), p3)),
                }
            } else if tag == 1 {
                match parse_xp_palette(d, p2) {
                    Err(f) => Err(f),
                    Ok((pal, p3)) => match parse_xp_longs(d, p3) {
                        Err(f) => Err(f),
                        Ok((longs, p4)) => Ok((((ts as u64) as i64, (false, 0u16, longs, pal.0, pal.1)), p4)),
                    },
                }
            } else {
                Err(ReadFailure::InvalidTag(tag as u8))
            },
        },
    }
}

/// `n` snapshots from `p` on.
pub open spec fn parse_xp_snapshots(d: Seq<u8>, p: int, n: nat) -> Result<(Seq<SnapshotView>, int), ReadFailure>
    decreases n,
{
    if n == 0 {
        Ok((Seq::empty(), p))
    } else {
        match parse_xp_snapshots(d, p, (n - 1) as nat) {
            Err(f) => Err(f),
            Ok((ss, p1)) => match parse_xp_snapshot(d, p1) {
                Err(f) => Err(f),
                Ok((s, p2)) => Ok((ss.push(s), p2)),
            },
        }
    }
}

/// A section history at `p`: its length (at most `MAX_DELTA_LENGTH`), then
/// its snapshots, newest first.
pub open spec fn parse_xp_history(d: Seq<u8>, p: int) -> Result<(Seq<SnapshotView>, int), ReadFailure> {
    match parse_uint(d, p, 8) {
        Err(f) => Err(f),
        Ok((n, p1)) => if n > MAX_DELTA_LENGTH {
            Err(ReadFailure::LengthExceeded)
        } else {
            parse_xp_snapshots(d, p1, n as nat)
        },
    }
}

/// `n` section histories from `p` on.
pub open spec fn parse_xp_histories(d: Seq<u8>, p: int, n: nat) -> Result<(Seq<Seq<SnapshotView>>, int), ReadFailure>
    decreases n,
{
    if n == 0 {
        Ok((Seq::empty(), p))
    } else {
        match parse_xp_histories(d, p, (n - 1) as nat) {
            Err(f) => Err(f),
            Ok((hs, p1)) => match parse_xp_history(d, p1) {
                Err(f) => Err(f),
                Ok((h, p2)) => Ok((hs.push(h), p2)),
            },
        }
    }
}

/// The sections of one kind at `p`: their number (at most
/// `MAX_SECTION_COUNT`), then their histories.
pub open spec fn parse_xp_sections(d: Seq<u8>, p: int) -> Result<(Seq<Seq<SnapshotView>>, int), ReadFailure> {
    match parse_uint(d, p, 8) {
        Err(f) => Err(f),
        Ok((n, p1)) => if n > MAX_SECTION_COUNT {
            Err(ReadFailure::LengthExceeded)
        } else {
            parse_xp_histories(d, p1, n as nat)
        },
    }
}

/// `h` holds the snapshots that `v` describes, in order.
pub open spec fn xp_history_read<const N: usize>(h: PackedDeltaData<N>, v: Seq<SnapshotView>) -> bool {
    &&& h.reverse_deltas@.len() == v.len()
    &&& forall|k: int| 0 <= k < v.len() ==> (#[trigger] h.reverse_deltas@[k]).timestamp == v[k].0 && packed_view(
        h.reverse_deltas@[k].data,
    ) == v[k].1
}

/// `hs` holds the histories that `v` describes, in order.
pub open spec fn xp_sections_read<const N: usize>(hs: Seq<PackedDeltaData<N>>, v: Seq<Seq<SnapshotView>>) -> bool {
    &&& hs.len() == v.len()
    &&& forall|k: int| 0 <= k < v.len() ==> xp_history_read(#[trigger] hs[k], v[k])
}

proof fn lemma_xp_snapshots_stay_failed(d: Seq<u8>, p: int, i: nat, n: nat)
    requires
        i <= n,
        parse_xp_snapshots(d, p, i) is Err,
    ensures
        parse_xp_snapshots(d, p, n) == parse_xp_snapshots(d, p, i),
    decreases n - i,
{
    if i < n {
        lemma_xp_snapshots_stay_failed(d, p, i, (n - 1) as nat);
    }
}

proof fn lemma_xp_histories_stay_failed(d: Seq<u8>, p: int, i: nat, n: nat)
    requires
        i <= n,
        parse_xp_histories(d, p, i) is Err,
    ensures
        parse_xp_histories(d, p, n) == parse_xp_histories(d, p, i),
    decreases n - i,
{
    if i < n {
        lemma_xp_histories_stay_failed(d, p, i, (n - 1) as nat);
    }
}

/// Reads `n` 16-bit values.
fn read_u16s(h: &mut ReadHandle, n: usize) -> (r: Result<Vec<u16>, ReadError>)
    ensures
        final(h).data() == old(h).data(),
        match parse_u16s(old(h).data(), old(h).pos(), n as nat) {
            Ok((vs, e)) => r matches Ok(v) && v@ == vs && final(h).pos() == e,
            Err(f) => r is Err && reports(r->Err_0, f),
        },
{
    let ghost d = h.data();
    let ghost p1 = h.pos();
    let mut out: Vec<u16> = Vec::new();
    let mut i: usize = 0;
    proof {
        assert(parse_u16s(d, p1, n as nat) matches Ok((vs, e)) ==> out@ + vs =~= vs);
    }
    while i < n
        invariant
            i <= n,
            d == old(h).data(),
            p1 == old(h).pos(),
            h.data() == d,
            parse_u16s(d, p1, n as nat) == (match parse_u16s(d, h.pos(), (n - i) as nat) {
                Ok((vs, e)) => Ok((out@ + vs, e)),
                Err(f) => Err::<(Seq<u16>, int), ReadFailure>(f),
            }),
        decreases n - i,
    {
        let v = h.read_u16()?;
        proof {
            let ghost rest = parse_u16s(d, h.pos(), (n - i - 1) as nat);
            if let Ok((vs, e)) = rest {
                assert(out@.push(v) + vs =~= out@ + (seq![v] + vs));
            }
        }
        out.push(v);
        i += 1;
    }
    proof {
        assert(out@ + Seq::<u16>::empty() =~= out@);
    }
    Ok(out)
}

/// Reads a palette written inline.
fn read_palette(h: &mut ReadHandle) -> (r: Result<Palette, ReadError>)
    ensures
        final(h).data() == old(h).data(),
        match parse_xp_palette(old(h).data(), old(h).pos()) {
            Ok((pl, e)) => r matches Ok(v) && v.palette@ == pl.0 && v.bits_per_entry == pl.1 && final(h).pos() == e,
            Err(f) => r is Err && reports(r->Err_0, f),
        },
{
    let palette_len = h.read_u16()? as usize;
    if palette_len > MAX_INDIRECT_PALETTE_SIZE {
        return Err(ReadError::LengthExceeded("palette length exceeds the indirect limit".to_string()));
    }
    if palette_len == 0 {
        return Ok(direct_palette());
    }
    let atoms = read_u16s(h, palette_len)?;
    Ok(Palette { palette: atoms, bits_per_entry: bits_per_entry(palette_len) })
}

/// Reads the packed longs of a snapshot.
fn read_longs(h: &mut ReadHandle) -> (r: Result<Vec<u64>, ReadError>)
    ensures
        final(h).data() == old(h).data(),
        match parse_xp_longs(old(h).data(), old(h).pos()) {
            Ok((vs, e)) => r matches Ok(v) && v@ == vs && final(h).pos() == e,
            Err(f) => r is Err && reports(r->Err_0, f),
        },
{
    let count = h.read_u64()?;
    if count > MAX_PACKED_LENGTH {
        return Err(ReadError::LengthExceeded("packed long count exceeds its limit".to_string()));
    }
    let n = count as usize;
    if h.remaining() < 8 * n {
        return Err(ReadError::OutOfBounds { offset: h.offset() });
    }
    h.read_u64s(n)
}

/// Reads one snapshot.
fn read_snapshot<const UNPACKED_SIZE: usize>(h: &mut ReadHandle) -> (r: Result<PackedSnapshot<UNPACKED_SIZE>, ReadError>)
    ensures
        final(h).data() == old(h).data(),
        match parse_xp_snapshot(old(h).data(), old(h).pos()) {
            Ok((v, e)) => r matches Ok(s) && s.timestamp == v.0 && packed_view(s.data) == v.1 && final(h).pos() == e,
            Err(f) => r is Err && reports(r->Err_0, f),
        },
{
    let timestamp = h.read_u64()? as i64;
    let tag = h.read_u8()?;
    let data = if tag == 0 {
        let atom = h.read_u16()?;
        Data::Single(atom)
    } else if tag == 1 {
        let palette = read_palette(h)?;
        let packed_long_array = read_longs(h)?;
        Data::Paletted(PalettedData { packed_long_array, palette })
    } else {
        return Err(ReadError::Generic("invalid snapshot tag".to_string()));
    };
    Ok(PackedSnapshot { data: PackedData { data }, timestamp })
}

/// Reads one section history.
fn read_delta_data<const UNPACKED_SIZE: usize>(h: &mut ReadHandle) -> (r: Result<PackedDeltaData<UNPACKED_SIZE>, ReadError>)
    ensures
        final(h).data() == old(h).data(),
        match parse_xp_history(old(h).data(), old(h).pos()) {
            Ok((v, e)) => r matches Ok(hist) && xp_history_read(hist, v) && final(h).pos() == e,
            Err(f) => r is Err && reports(r->Err_0, f),
        },
{
    let count = h.read_u64()?;
    if count > MAX_DELTA_LENGTH {
        return Err(ReadError::LengthExceeded("snapshot count exceeds its limit".to_string()));
    }
    let ghost d = h.data();
    let ghost p1 = h.pos();
    let mut snapshots: Vec<PackedSnapshot<UNPACKED_SIZE>> = Vec::new();
    let mut i: u64 = 0;
    while i < count
        invariant
            i <= count <= MAX_DELTA_LENGTH,
            d == old(h).data(),
            h.data() == d,
            parse_xp_history(old(h).data(), old(h).pos()) == parse_xp_snapshots(d, p1, count as nat),
            parse_xp_snapshots(d, p1, i as nat) matches Ok((vs, e)) && e == h.pos() && xp_history_read(
                PackedDeltaData { reverse_deltas: snapshots },
                vs,
            ),
        decreases count - i,
    {
        let ghost before = snapshots@;
        match read_snapshot::<UNPACKED_SIZE>(h) {
            Ok(s) => {
                snapshots.push(s);
                proof {
                    let vs = parse_xp_snapshots(d, p1, i as nat)->Ok_0.0;
                    let v = parse_xp_snapshots(d, p1, (i + 1) as nat)->Ok_0.0;
                    assert(v == vs.push(parse_xp_snapshot(d, parse_xp_snapshots(d, p1, i as nat)->Ok_0.1)->Ok_0.0));
                    assert forall|k: int| 0 <= k < v.len() implies (#[trigger] snapshots@[k]).timestamp == v[k].0
                        && packed_view(snapshots@[k].data) == v[k].1 by {
                        if k < before.len() {
                            assert(snapshots@[k] == before[k]);
                        }
                    }
                }
            },
            Err(e) => {
                proof {
                    lemma_xp_snapshots_stay_failed(d, p1, (i + 1) as nat, count as nat);
                }
                return Err(e);
            },
        }
        i += 1;
    }
    Ok(PackedDeltaData::new(snapshots))
}

/// Reads the sections of one kind.
fn read_sections<const UNPACKED_SIZE: usize>(h: &mut ReadHandle) -> (r: Result<Vec<PackedDeltaData<UNPACKED_SIZE>>, ReadError>)
    ensures
        final(h).data() == old(h).data(),
        match parse_xp_sections(old(h).data(), old(h).pos()) {
            Ok((v, e)) => r matches Ok(hs) && xp_sections_read(hs@, v) && final(h).pos() == e,
            Err(f) => r is Err && reports(r->Err_0, f),
        },
{
    let count = h.read_u64()?;
    if count > MAX_SECTION_COUNT as u64 {
        return Err(ReadError::LengthExceeded("section count exceeds its limit".to_string()));
    }
    let ghost d = h.data();
    let ghost p1 = h.pos();
    let mut sections: Vec<PackedDeltaData<UNPACKED_SIZE>> = Vec::new();
    let mut i: u64 = 0;
    while i < count
        invariant
            i <= count <= MAX_SECTION_COUNT,
            d == old(h).data(),
            h.data() == d,
            parse_xp_sections(old(h).data(), old(h).pos()) == parse_xp_histories(d, p1, count as nat),
            parse_xp_histories(d, p1, i as nat) matches Ok((vs, e)) && e == h.pos() && xp_sections_read(sections@, vs),
        decreases count - i,
    {
        let ghost before = sections@;
        match read_delta_data::<UNPACKED_SIZE>(h) {
            Ok(s) => {
                sections.push(s);
                proof {
                    let v = parse_xp_histories(d, p1, (i + 1) as nat)->Ok_0.0;
                    assert forall|k: int| 0 <= k < v.len() implies xp_history_read(#[trigger] sections@[k], v[k]) by {
                        if k < before.len() {
                            assert(sections@[k] == before[k]);
                        }
                    }
                }
            },
            Err(e) => {
                proof {
                    lemma_xp_histories_stay_failed(d, p1, (i + 1) as nat, count as nat);
                }
                return Err(e);
            },
        }
        i += 1;
    }
    Ok(sections)
}


/// One recorded change at `p`: as in the reference layout, except that an
/// operation byte other than 0 (clear) or 1 (place) is refused.
pub open spec fn parse_xp_te_change(d: Seq<u8>, p: int) -> Result<((TileEntityPosition, Option<(u32, TileEntityPosition, Seq<u8>)>), int), ReadFailure> {
    match parse_uint(d, p, 4) {
        Err(f) => Err(f),
        Ok((_packed, p1)) => match parse_uint(d, p1, 1) {
            Err(f) => Err(f),
            Ok((op, _p2)) => if op > 1 {
                Err(ReadFailure::InvalidTag(op as u8))
            } else {
                parse_te_change(d, p)
            },
        },
    }
}

/// `n` recorded changes from `p` on.
pub open spec fn parse_xp_te_changes(d: Seq<u8>, p: int, n: nat) -> Result<(Seq<(TileEntityPosition, Option<(u32, TileEntityPosition, Seq<u8>)>)>, int), ReadFailure>
    decreases n,
{
    if n == 0 {
        Ok((Seq::empty(), p))
    } else {
        match parse_xp_te_changes(d, p, (n - 1) as nat) {
            Err(f) => Err(f),
            Ok((cs, p1)) => match parse_xp_te_change(d, p1) {
                Err(f) => Err(f),
                Ok((c, p2)) => Ok((cs.push(c), p2)),
            },
        }
    }
}

/// One list at `p`: its timestamp, its length (at most
/// `MAX_TILE_ENTITY_LIST_LENGTH`), and its changes.
pub open spec fn parse_xp_te_list(d: Seq<u8>, p: int) -> Result<((i64, Seq<(TileEntityPosition, Option<(u32, TileEntityPosition, Seq<u8>)>)>), int), ReadFailure> {
    match parse_uint(d, p, 8) {
        Err(f) => Err(f),
        Ok((ts, p1)) => match parse_uint(d, p1, 8) {
            Err(f) => Err(f),
            Ok((n, p2)) => if n > MAX_TILE_ENTITY_LIST_LENGTH {
                Err(ReadFailure::LengthExceeded)
            } else {
                match parse_xp_te_changes(d, p2, n as nat) {
                    Err(f) => Err(f),
                    Ok((cs, p3)) => Ok(((ts as i64, cs), p3)),
                }
            },
        },
    }
}

/// `n` lists from `p` on.
pub open spec fn parse_xp_te_lists(d: Seq<u8>, p: int, n: nat) -> Result<(TileEntitiesView, int), ReadFailure>
    decreases n,
{
    if n == 0 {
        Ok((Seq::empty(), p))
    } else {
        match parse_xp_te_lists(d, p, (n - 1) as nat) {
            Err(f) => Err(f),
            Ok((ls, p1)) => match parse_xp_te_list(d, p1) {
                Err(f) => Err(f),
                Ok((l, p2)) => Ok((ls.push(l), p2)),
            },
        }
    }
}

/// A segment's block entity history at `p`: its length (at most
/// `MAX_TILE_ENTITY_LIST_LENGTH`), then the lists.
pub open spec fn parse_xp_tile_entities(d: Seq<u8>, p: int) -> Result<(TileEntitiesView, int), ReadFailure> {
    match parse_uint(d, p, 8) {
        Err(f) => Err(f),
        Ok((n, p1)) => if n > MAX_TILE_ENTITY_LIST_LENGTH {
            Err(ReadFailure::LengthExceeded)
        } else {
            parse_xp_te_lists(d, p1, n as nat)
        },
    }
}

proof fn lemma_xp_te_changes_stay_failed(d: Seq<u8>, p: int, i: nat, n: nat)
    requires
        i <= n,
        parse_xp_te_changes(d, p, i) is Err,
    ensures
        parse_xp_te_changes(d, p, n) == parse_xp_te_changes(d, p, i),
    decreases n - i,
{
    if i < n {
        lemma_xp_te_changes_stay_failed(d, p, i, (n - 1) as nat);
    }
}

proof fn lemma_xp_te_lists_stay_failed(d: Seq<u8>, p: int, i: nat, n: nat)
    requires
        i <= n,
        parse_xp_te_lists(d, p, i) is Err,
    ensures
        parse_xp_te_lists(d, p, n) == parse_xp_te_lists(d, p, i),
    decreases n - i,
{
    if i < n {
        lemma_xp_te_lists_stay_failed(d, p, i, (n - 1) as nat);
    }
}

/// Reads one recorded change.
fn read_te_change(h: &mut ReadHandle) -> (r: Result<(TileEntityPosition, TileEntityDelta), ReadError>)
    ensures
        final(h).data() == old(h).data(),
        match parse_xp_te_change(old(h).data(), old(h).pos()) {
            Ok((c, e)) => r matches Ok(v) && v.0 == c.0 && v.1@ == c.1 && final(h).pos() == e,
            Err(f) => r is Err && reports(r->Err_0, f),
        },
{
    let pos = TileEntityPosition::unpack(h.read_u32()?);
    let op = h.read_u8()?;
    if op == 0 {
        return Ok((pos, TileEntityDelta::Erase));
    }
    if op != 1 {
        return Err(ReadError::Generic("invalid tile entity op".to_string()));
    }
    let tile_type = h.read_u32()?;
    let nbt_len = h.read_u64()?;
    if nbt_len > MAX_TILE_ENTITY_NBT_LENGTH {
        return Err(ReadError::LengthExceeded("tile entity nbt length exceeds its limit".to_string()));
    }
    let nbt = h.read_vec(nbt_len as usize)?;
    Ok((pos, TileEntityDelta::Put(TileEntity { tile_type, pos, nbt })))
}

/// Reads one list of a block entity history.
fn read_te_list(h: &mut ReadHandle) -> (r: Result<TileEntityListDelta, ReadError>)
    ensures
        final(h).data() == old(h).data(),
        match parse_xp_te_list(old(h).data(), old(h).pos()) {
            Ok((l, e)) => r matches Ok(list) && list.deltas.wf() && list.timestamp == l.0 && list.deltas.map()
                == changes_map(l.1) && final(h).pos() == e,
            Err(f) => r is Err && reports(r->Err_0, f),
        },
{
    let timestamp = h.read_u64()? as i64;
    let entry_count = h.read_u64()?;
    if entry_count > MAX_TILE_ENTITY_LIST_LENGTH {
        return Err(ReadError::LengthExceeded("tile entity count exceeds its limit".to_string()));
    }
    let ghost d = h.data();
    let ghost p2 = h.pos();
    let mut deltas: TileEntityDeltaMap = PositionMap::new();
    let mut j: u64 = 0;
    while j < entry_count
        invariant
            j <= entry_count <= MAX_TILE_ENTITY_LIST_LENGTH,
            d == old(h).data(),
            h.data() == d,
            deltas.wf(),
            parse_xp_te_list(old(h).data(), old(h).pos()) == (match parse_xp_te_changes(d, p2, entry_count as nat) {
                Err(f) => Err(f),
                Ok((cs, p3)) => Ok::<((i64, Seq<(TileEntityPosition, Option<(u32, TileEntityPosition, Seq<u8>)>)>), int), ReadFailure>(((timestamp, cs), p3)),
            }),
            parse_xp_te_changes(d, p2, j as nat) matches Ok((cs, e)) && e == h.pos() && deltas.map() == changes_map(cs),
        decreases entry_count - j,
    {
        let ghost prev = parse_xp_te_changes(d, p2, j as nat)->Ok_0.0;
        match read_te_change(h) {
            Ok((pos, delta)) => {
                deltas.insert(pos, delta);
                proof {
                    assert(prev.push((pos, delta@)).drop_last() =~= prev);
                }
            },
            Err(e) => {
                proof {
                    lemma_xp_te_changes_stay_failed(d, p2, (j + 1) as nat, entry_count as nat);
                }
                return Err(e);
            },
        }
        j += 1;
    }
    Ok(TileEntityListDelta { timestamp, deltas })
}

/// Reads a segment's block entity history.
fn read_tile_entities(h: &mut ReadHandle) -> (r: Result<DeltaTileEntityData, ReadError>)
    ensures
        final(h).data() == old(h).data(),
        match parse_xp_tile_entities(old(h).data(), old(h).pos()) {
            Ok((ls, e)) => r matches Ok(data) && tile_entities_read(data, ls) && final(h).pos() == e,
            Err(f) => r is Err && reports(r->Err_0, f),
        },
{
    let list_count = h.read_u64()?;
    if list_count > MAX_TILE_ENTITY_LIST_LENGTH {
        return Err(ReadError::LengthExceeded("tile entity list count exceeds its limit".to_string()));
    }
    let ghost d = h.data();
    let ghost p1 = h.pos();
    let mut data = DeltaTileEntityData::default();
    let mut i: u64 = 0;
    while i < list_count
        invariant
            i <= list_count <= MAX_TILE_ENTITY_LIST_LENGTH,
            d == old(h).data(),
            h.data() == d,
            data.wf(),
            parse_xp_tile_entities(old(h).data(), old(h).pos()) == parse_xp_te_lists(d, p1, list_count as nat),
            parse_xp_te_lists(d, p1, i as nat) matches Ok((ls, e)) && e == h.pos() && data.reverse_deltas@.len() == ls.len()
                && forall|k: int| 0 <= k < ls.len() ==> #[trigger] data.reverse_deltas@[k].timestamp == ls[k].0
                    && data.reverse_deltas@[k].deltas.map() == changes_map(ls[k].1),
        decreases list_count - i,
    {
        let ghost before = data.reverse_deltas@;
        match read_te_list(h) {
            Ok(list) => {
                data.reverse_deltas.push(list);
                proof {
                    assert forall|k: int| 0 <= k < data.reverse_deltas@.len() implies #[trigger] data.reverse_deltas@[k].deltas.wf() by {
                        if k < before.len() {
                            assert(data.reverse_deltas@[k] == before[k]);
                        }
                    }
                }
            },
            Err(e) => {
                proof {
                    lemma_xp_te_lists_stay_failed(d, p1, (i + 1) as nat, list_count as nat);
                }
                return Err(e);
            },
        }
        i += 1;
    }
    proof {
        let ls = parse_xp_te_lists(d, p1, i as nat)->Ok_0.0;
        assert(forall|k: int| 0 <= k < ls.len() ==> #[trigger] data.reverse_deltas@[k].timestamp == ls[k].0
            && data.reverse_deltas@[k].deltas.map() == changes_map(ls[k].1));
    }
    Ok(data)
}

/// A segment as plain values: its block and biome section histories, its
/// states and its block entity lists.
pub type XpSegmentView = (Seq<Seq<SnapshotView>>, Seq<Seq<SnapshotView>>, Seq<SegmentState>, TileEntitiesView);

/// A segment at `p`: its block sections, its biome sections, its states and
/// its block entities.
pub open spec fn parse_xp_segment(d: Seq<u8>, p: int) -> Result<(XpSegmentView, int), ReadFailure> {
    match parse_xp_sections(d, p) {
        Err(f) => Err(f),
        Ok((blocks, p1)) => match parse_xp_sections(d, p1) {
            Err(f) => Err(f),
            Ok((biomes, p2)) => match parse_segment_info(d, p2) {
                Err(f) => Err(f),
                Ok((states, p3)) => match parse_xp_tile_entities(d, p3) {
                    Err(f) => Err(f),
                    Ok((tes, p4)) => Ok(((blocks, biomes, states, tes), p4)),
                },
            },
        },
    }
}

/// `seg` is the segment that `v` describes.
pub open spec fn segment_data_read(seg: SegmentData, v: XpSegmentView) -> bool {
    &&& xp_sections_read(seg.block_sections@, v.0)
    &&& xp_sections_read(seg.biome_sections@, v.1)
    &&& seg.states@ == v.2
    &&& tile_entities_read(seg.tile_entities, v.3)
}

/// The first `i` slots of a body `d` whose segments start at `p`: slot `k`
/// holds a segment where the presence byte `d[k]` is 1.
pub open spec fn xp_slots(d: Seq<u8>, p: int, i: nat) -> Result<(Seq<Option<XpSegmentView>>, int), ReadFailure>
    decreases i,
{
    if i == 0 {
        Ok((Seq::empty(), p))
    } else {
        match xp_slots(d, p, (i - 1) as nat) {
            Err(f) => Err(f),
            Ok((ss, p1)) => if d[i - 1] == 1 {
                match parse_xp_segment(d, p1) {
                    Err(f) => Err(f),
                    Ok((v, p2)) => Ok((ss.push(Some(v)), p2)),
                }
            } else {
                Ok((ss.push(None), p1))
            },
        }
    }
}

/// A decompressed region body: a presence byte for each slot, then the
/// segments of the present slots in slot order. Bytes after the last segment
/// are not read.
pub open spec fn region_data_body(d: Seq<u8>) -> Result<Seq<Option<XpSegmentView>>, ReadFailure> {
    if d.len() < SEGMENTS_PER_REGION {
        Err(ReadFailure::OutOfBounds(d.len() as usize))
    } else {
        match xp_slots(d, SEGMENTS_PER_REGION as int, SEGMENTS_PER_REGION as nat) {
            Err(f) => Err(f),
            Ok((ss, _e)) => Ok(ss),
        }
    }
}

/// `segs` holds, slot by slot, the segments that `v` describes.
pub open spec fn slots_read(segs: Seq<Option<SegmentData>>, v: Seq<Option<XpSegmentView>>) -> bool {
    &&& segs.len() == v.len()
    &&& forall|k: int| 0 <= k < v.len() ==> match #[trigger] v[k] {
        None => segs[k] is None,
        Some(sv) => segs[k] matches Some(s) && segment_data_read(s, sv),
    }
}

proof fn lemma_xp_slots_stay_failed(d: Seq<u8>, p: int, i: nat, n: nat)
    requires
        i <= n,
        xp_slots(d, p, i) is Err,
    ensures
        xp_slots(d, p, n) == xp_slots(d, p, i),
    decreases n - i,
{
    if i < n {
        lemma_xp_slots_stay_failed(d, p, i, (n - 1) as nat);
    }
}

proof fn lemma_slot_fails(d: Seq<u8>, i: nat, cur: int)
    requires
        i < SEGMENTS_PER_REGION,
        d.len() >= SEGMENTS_PER_REGION,
        d[i as int] == 1,
        xp_slots(d, SEGMENTS_PER_REGION as int, i) matches Ok((_vs, e)) && e == cur,
        parse_xp_segment(d, cur) is Err,
    ensures
        region_data_body(d) == Err::<Seq<Option<XpSegmentView>>, ReadFailure>(parse_xp_segment(d, cur)->Err_0),
{
    let p0 = SEGMENTS_PER_REGION as int;
    assert(xp_slots(d, p0, i + 1) == Err::<(Seq<Option<XpSegmentView>>, int), ReadFailure>(parse_xp_segment(d, cur)->Err_0));
    lemma_xp_slots_stay_failed(d, p0, i + 1, SEGMENTS_PER_REGION as nat);
}

/// Reads one segment.
fn read_segment(h: &mut ReadHandle) -> (r: Result<SegmentData, ReadError>)
    ensures
        final(h).data() == old(h).data(),
        match parse_xp_segment(old(h).data(), old(h).pos()) {
            Ok((v, e)) => r matches Ok(seg) && segment_data_read(seg, v) && final(h).pos() == e,
            Err(f) => r is Err && reports(r->Err_0, f),
        },
{
    let block_sections = read_sections::<SECTION_SIZE_BLOCKS>(h)?;
    let biome_sections = read_sections::<SECTION_SIZE_BIOMES>(h)?;
    let info = h.deserialize_segment_info()?;
    let tile_entities = read_tile_entities(h)?;
    Ok(SegmentData { block_sections, biome_sections, states: info.reverse_deltas, tile_entities })
}

/// Reads a decompressed region body into its slots, one for each segment
/// of the region.
pub fn parse_region_data_body(body: Vec<u8>) -> (r: Result<Vec<Option<SegmentData>>, ReadError>)
    ensures
        match region_data_body(body@) {
            Ok(v) => r matches Ok(segs) && slots_read(segs@, v),
            Err(f) => r is Err && reports(r->Err_0, f),
        },
{
    let ghost d = body@;
    let mut h = ReadHandle::new(body, 0);
    let mut presence: Vec<bool> = Vec::new();
    let mut k: usize = 0;
    while k < SEGMENTS_PER_REGION
        invariant
            k <= SEGMENTS_PER_REGION,
            d == body@,
            h.data() == d,
            h.pos() == k,
            k <= d.len(),
            presence@.len() == k,
            forall|j: int| 0 <= j < k ==> #[trigger] presence@[j] == (d[j] == 1),
        decreases SEGMENTS_PER_REGION - k,
    {
        let b = match h.read_u8() {
            Ok(b) => b,
            Err(e) => {
                proof {
                    assert(k == d.len());
                    assert(region_data_body(d) == Err::<Seq<Option<XpSegmentView>>, ReadFailure>(ReadFailure::OutOfBounds(k)));
                }
                return Err(e);
            },
        };
        proof {
            assert(d.subrange(k as int, k + 1) =~= seq![d[k as int]]);
            assert(d.subrange(k as int, k + 1).skip(1) =~= Seq::<u8>::empty());
        }
        presence.push(b == 1);
        k += 1;
    }
    let mut segments: Vec<Option<SegmentData>> = Vec::new();
    let mut i: usize = 0;
    let ghost p0 = SEGMENTS_PER_REGION as int;
    while i < SEGMENTS_PER_REGION
        invariant
            i <= SEGMENTS_PER_REGION,
            d.len() >= SEGMENTS_PER_REGION,
            d == body@,
            p0 == SEGMENTS_PER_REGION,
            h.data() == d,
            presence@.len() == SEGMENTS_PER_REGION,
            forall|j: int| 0 <= j < SEGMENTS_PER_REGION ==> #[trigger] presence@[j] == (d[j] == 1),
            xp_slots(d, p0, i as nat) matches Ok((vs, e)) && e == h.pos() && slots_read(segments@, vs),
        decreases SEGMENTS_PER_REGION - i,
    {
        let ghost before = segments@;
        if presence[i] {
            let ghost cur = h.pos();
            match read_segment(&mut h) {
                Ok(seg) => {
                    segments.push(Some(seg));
                },
                Err(e) => {
                    proof {
                        lemma_slot_fails(d, i as nat, cur);
                    }
                    return Err(e);
                },
            }
        } else {
            segments.push(None);
        }
        proof {
            let v = xp_slots(d, p0, (i + 1) as nat)->Ok_0.0;
            assert forall|k: int| 0 <= k < v.len() implies match #[trigger] v[k] {
                None => segments@[k] is None,
                Some(sv) => segments@[k] matches Some(s) && segment_data_read(s, sv),
            } by {
                if k < before.len() {
                    assert(segments@[k] == before[k]);
                }
            }
        }
        i += 1;
    }
    Ok(segments)
}

/// What reading a region file `d` in this layout gives: the header (prefix,
/// a known version, dimension, protocol) is checked field by field, the rest
/// is decompressed, and the slots read from the body.
pub open spec fn region_data_read(d: Seq<u8>, r: Result<RegionData, ReadError>) -> bool {
    let n = EXTENSION.spec_bytes().len() as int;
    let vb = byte_at(d, n);
    let db = byte_at(d, n + 1);
    if !fits(d, 0, n) {
        out_of_bounds_at(r, 0)
    } else if d.subrange(0, n) != EXTENSION.spec_bytes() {
        r matches Err(ReadError::HeaderMismatch)
    } else if !fits(d, n, 1) {
        out_of_bounds_at(r, n)
    } else if vb > ZVCR3D_LATEST_VERSION.spec_id() || vb < 1 {
        r == Err::<RegionData, ReadError>(ReadError::InvalidVersion(vb))
    } else if !fits(d, n + 1, 1) {
        out_of_bounds_at(r, n + 1)
    } else if DimensionType::spec_from_u8(db) is None {
        r == Err::<RegionData, ReadError>(ReadError::InvalidDimensionType(db))
    } else if !fits(d, n + 2, 2) {
        out_of_bounds_at(r, n + 2)
    } else {
        let c = d.subrange(n + 4, d.len() as int);
        if !zstd_decodes(c) {
            r matches Err(e) && is_zstd_error(e)
        } else {
            match region_data_body(zstd_decoded(c)) {
                Ok(slots) => r matches Ok(rd) && rd.version.spec_id() == vb && rd.dimension == DimensionType::spec_from_u8(
                    db,
                ).unwrap() && rd.protocol_version == le_at(d, n + 2, 2) as u16 && slots_read(rd.segments@, slots),
                Err(f) => r is Err && reports(r->Err_0, f),
            }
        }
    }
}

/// Reads a region file written in this layout.
pub fn deserialize_region_data(bytes: &[u8]) -> (r: Result<RegionData, ReadError>)
    ensures
        region_data_read(bytes@, r),
{
    let mut header = ReadHandle::new(vstd::slice::slice_to_vec(bytes), 0);
    let ghost d = bytes@;
    let ghost n = EXTENSION.spec_bytes().len() as int;
    header.validate_file_prefix(EXTENSION)?;
    let version = header.deserialize_version(ZVCR3D_LATEST_VERSION)?;
    let dimension = header.deserialize_dimension_type()?;
    let protocol_version = header.read_u16()?;
    let compressed = vstd::slice::slice_subrange(bytes, header.offset(), bytes.len());
    proof {
        assert(compressed@ == d.subrange(n + 4, d.len() as int));
    }
    let body = match decompress_zstd(compressed) {
        Ok(b) => b,
        Err(e) => {
            return Err(ReadError::Zstd(e));
        },
    };
    let segments = parse_region_data_body(body)?;
    Ok(RegionData { version, protocol_version, dimension, segments })
}

} // verus!
