use vstd::prelude::*;

use crate::io::serialize::error::{MAX_TILE_ENTITY_LIST_LENGTH, MAX_TILE_ENTITY_NBT_LENGTH};
use crate::io::serialize::primitives::{le_bytes, put_bytes, put_u32_le, put_u64_le, put_u8};
use crate::io::serialize::serialize::{change_views, sort_by_position, sorted_order, Change};
use crate::raw::{RegionData, SegmentData};
use crate::region::tile_entities::{
    packed_position, DeltaTileEntityData, TileEntityDelta, TileEntityDeltaMap, TileEntityListDelta,
};

verus! {

/// The packed positions of the changes, four bytes each.
pub open spec fn column_positions(ws: Seq<Change>) -> Seq<u8>
    decreases ws.len(),
{
    if ws.len() == 0 {
        Seq::empty()
    } else {
        column_positions(ws.drop_last()) + le_bytes(packed_position(ws.last().0), 4)
    }
}

/// An operation byte for each change: 1 for a placement, 0 for a clear.
pub open spec fn column_ops(ws: Seq<Change>) -> Seq<u8>
    decreases ws.len(),
{
    if ws.len() == 0 {
        Seq::empty()
    } else {
        column_ops(ws.drop_last()).push(if ws.last().1 is Some { 1u8 } else { 0u8 })
    }
}

/// The types of the placements, four bytes each.
pub open spec fn column_types(ws: Seq<Change>) -> Seq<u8>
    decreases ws.len(),
{
    if ws.len() == 0 {
        Seq::empty()
    } else {
        column_types(ws.drop_last()) + match ws.last().1 {
            Some((ty, _pos, _nbt)) => le_bytes(ty as int, 4),
            None => Seq::empty(),
        }
    }
}

/// The data lengths of the placements, four bytes each.
pub open spec fn column_lengths(ws: Seq<Change>) -> Seq<u8>
    decreases ws.len(),
{
    if ws.len() == 0 {
        Seq::empty()
    } else {
        column_lengths(ws.drop_last()) + match ws.last().1 {
            Some((_ty, _pos, nbt)) => le_bytes(nbt.len() as int, 4),
            None => Seq::empty(),
        }
    }
}

/// The data of the placements, one after another.
pub open spec fn column_data(ws: Seq<Change>) -> Seq<u8>
    decreases ws.len(),
{
    if ws.len() == 0 {
        Seq::empty()
    } else {
        column_data(ws.drop_last()) + match ws.last().1 {
            Some((_ty, _pos, nbt)) => nbt,
            None => Seq::empty(),
        }
    }
}

/// The changes of a map in the order they are written: by packed position.
pub open spec fn written_order(deltas: TileEntityDeltaMap) -> Seq<Change> {
    sort_by_position(change_views(deltas.entries()))
}

/// The entries of one list in the column layout: positions, operations,
/// placement types, placement data lengths, then the placements' data, all
/// by packed position.
pub open spec fn column_entries(ws: Seq<Change>) -> Seq<u8> {
    column_positions(ws) + column_ops(ws) + column_types(ws) + column_lengths(ws) + column_data(ws)
}

/// One list in the column layout: its timestamp, its number of changes and
/// its entries.
pub open spec fn column_list_bytes(l: TileEntityListDelta) -> Seq<u8> {
    le_bytes((l.timestamp as u64) as int, 8) + le_bytes(l.deltas.entries().len() as int, 4) + column_entries(
        written_order(l.deltas),
    )
}

/// Lists in the column layout, one after another.
pub open spec fn column_lists_bytes(ls: Seq<TileEntityListDelta>) -> Seq<u8>
    decreases ls.len(),
{
    if ls.len() == 0 {
        Seq::empty()
    } else {
        column_lists_bytes(ls.drop_last()) + column_list_bytes(ls.last())
    }
}

/// A block entity history in the column layout: the number of lists, then
/// the lists.
pub open spec fn column_history_bytes(ls: Seq<TileEntityListDelta>) -> Seq<u8> {
    le_bytes(ls.len() as int, 4) + column_lists_bytes(ls)
}

/// Every placement's data is within `MAX_TILE_ENTITY_NBT_LENGTH`.
pub open spec fn data_fits(ws: Seq<Change>) -> bool {
    forall|k: int| 0 <= k < ws.len() ==> ((#[trigger] ws[k]).1 matches Some((_ty, _pos, nbt)) ==> nbt.len()
        <= MAX_TILE_ENTITY_NBT_LENGTH)
}

/// A history that the column layout can hold: at most
/// `MAX_TILE_ENTITY_LIST_LENGTH` lists of at most as many changes, every
/// placement's data within its limit.
pub open spec fn column_fits(ls: Seq<TileEntityListDelta>) -> bool {
    &&& ls.len() <= MAX_TILE_ENTITY_LIST_LENGTH
    &&& forall|k: int| 0 <= k < ls.len() ==> (#[trigger] ls[k]).deltas.entries().len() <= MAX_TILE_ENTITY_LIST_LENGTH
        && data_fits(written_order(ls[k].deltas))
}

/// The block entity histories of the present segments, one after another.
pub open spec fn column_segments_bytes(segs: Seq<Option<SegmentData>>) -> Seq<u8>
    decreases segs.len(),
{
    if segs.len() == 0 {
        Seq::empty()
    } else {
        column_segments_bytes(segs.drop_last()) + match segs.last() {
            Some(seg) => column_history_bytes(seg.tile_entities.reverse_deltas@),
            None => Seq::empty(),
        }
    }
}

/// Every present segment's history fits the column layout.
pub open spec fn segments_fit(segs: Seq<Option<SegmentData>>) -> bool {
    forall|k: int| 0 <= k < segs.len() ==> (#[trigger] segs[k] matches Some(seg) ==> column_fits(
        seg.tile_entities.reverse_deltas@,
    ))
}

/// Appends the entries of one list in the column layout; fails, with part
/// of them appended, where a placement's data is above
/// `MAX_TILE_ENTITY_NBT_LENGTH`.
#[verifier::spinoff_prover]
#[verifier::rlimit(40)]
fn write_tile_entries(out: &mut Vec<u8>, deltas: &TileEntityDeltaMap) -> (r: Result<(), String>)
    requires
        deltas.wf(),
    ensures
        r is Ok <==> data_fits(written_order(*deltas)),
        r is Ok ==> final(out)@ == old(out)@ + column_entries(written_order(*deltas)),
{
    let n = deltas.len();
    let sorted = sorted_order(deltas, n);
    let ghost cv = change_views(deltas.entries());
    let ghost ws = written_order(*deltas);
    proof {
        assert(Seq::new(n as nat, |i: int| cv[sorted@[i].1 as int]) == ws);
        assert forall|i: int| 0 <= i < n implies #[trigger] ws[i] == cv[sorted@[i].1 as int] by {
            assert(Seq::new(n as nat, |i: int| cv[sorted@[i].1 as int])[i] == cv[sorted@[i].1 as int]);
        }
    }
    let ghost start = out@;
    let mut i: usize = 0;
    while i < n
        invariant
            i <= n,
            n == ws.len(),
            n == deltas.entries().len(),
            sorted@.len() == n,
            forall|k: int| 0 <= k < n ==> (#[trigger] sorted@[k]).1 < n && sorted@[k].0 == packed_position(deltas.entries()[sorted@[k].1 as int].0),
            forall|k: int| 0 <= k < n ==> #[trigger] ws[k] == cv[sorted@[k].1 as int],
            cv == change_views(deltas.entries()),
            out@ == start + column_positions(ws.take(i as int)),
        decreases n - i,
    {
        put_u32_le(out, sorted[i].0);
        proof {
            assert(ws.take(i + 1).drop_last() =~= ws.take(i as int));
            assert(ws[i as int].0 == deltas.entries()[sorted@[i as int].1 as int].0);
        }
        i += 1;
    }
    let ghost after_positions = out@;
    i = 0;
    while i < n
        invariant
            i <= n,
            n == ws.len(),
            n == deltas.entries().len(),
            sorted@.len() == n,
            forall|k: int| 0 <= k < n ==> (#[trigger] sorted@[k]).1 < n,
            forall|k: int| 0 <= k < n ==> #[trigger] ws[k] == cv[sorted@[k].1 as int],
            cv == change_views(deltas.entries()),
            out@ == after_positions + column_ops(ws.take(i as int)),
        decreases n - i,
    {
        let (_pos, delta) = deltas.entry_at(sorted[i].1);
        match delta {
            TileEntityDelta::Put(_) => put_u8(out, 1),
            TileEntityDelta::Erase => put_u8(out, 0),
        }
        proof {
            assert(ws.take(i + 1).drop_last() =~= ws.take(i as int));
        }
        i += 1;
    }
    let ghost after_ops = out@;
    i = 0;
    while i < n
        invariant
            i <= n,
            n == ws.len(),
            n == deltas.entries().len(),
            sorted@.len() == n,
            forall|k: int| 0 <= k < n ==> (#[trigger] sorted@[k]).1 < n,
            forall|k: int| 0 <= k < n ==> #[trigger] ws[k] == cv[sorted@[k].1 as int],
            cv == change_views(deltas.entries()),
            out@ == after_ops + column_types(ws.take(i as int)),
        decreases n - i,
    {
        let (_pos, delta) = deltas.entry_at(sorted[i].1);
        match delta {
            TileEntityDelta::Put(tile) => put_u32_le(out, tile.tile_type),
            TileEntityDelta::Erase => {},
        }
        proof {
            assert(ws.take(i + 1).drop_last() =~= ws.take(i as int));
        }
        i += 1;
    }
    let ghost after_types = out@;
    i = 0;
    while i < n
        invariant
            i <= n,
            n == ws.len(),
            n == deltas.entries().len(),
            sorted@.len() == n,
            forall|k: int| 0 <= k < n ==> (#[trigger] sorted@[k]).1 < n,
            forall|k: int| 0 <= k < n ==> #[trigger] ws[k] == cv[sorted@[k].1 as int],
            cv == change_views(deltas.entries()),
            out@ == after_types + column_lengths(ws.take(i as int)),
            ws == written_order(*deltas),
            forall|k: int| 0 <= k < i ==> ((#[trigger] ws[k]).1 matches Some((_ty, _pos, nbt)) ==> nbt.len()
                <= MAX_TILE_ENTITY_NBT_LENGTH),
        decreases n - i,
    {
        let (_pos, delta) = deltas.entry_at(sorted[i].1);
        match delta {
            TileEntityDelta::Put(tile) => {
                if tile.nbt.len() as u64 > MAX_TILE_ENTITY_NBT_LENGTH {
                    proof {
                        assert(ws[i as int].1 == Some(tile@));
                        assert(tile@.2.len() > MAX_TILE_ENTITY_NBT_LENGTH);
                        assert(!((ws[i as int]).1 matches Some((_ty, _pos, nbt)) ==> nbt.len() <= MAX_TILE_ENTITY_NBT_LENGTH));
                        assert(!data_fits(ws));
                    }
                    return Err("tile entity nbt length exceeds its limit".to_string());
                }
                put_u32_le(out, tile.nbt.len() as u32);
            },
            TileEntityDelta::Erase => {},
        }
        proof {
            assert(ws.take(i + 1).drop_last() =~= ws.take(i as int));
        }
        i += 1;
    }
    let ghost after_lengths = out@;
    i = 0;
    while i < n
        invariant
            i <= n,
            n == ws.len(),
            n == deltas.entries().len(),
            sorted@.len() == n,
            forall|k: int| 0 <= k < n ==> (#[trigger] sorted@[k]).1 < n,
            forall|k: int| 0 <= k < n ==> #[trigger] ws[k] == cv[sorted@[k].1 as int],
            cv == change_views(deltas.entries()),
            out@ == after_lengths + column_data(ws.take(i as int)),
            ws == written_order(*deltas),
            data_fits(ws),
        decreases n - i,
    {
        let (_pos, delta) = deltas.entry_at(sorted[i].1);
        match delta {
            TileEntityDelta::Put(tile) => put_bytes(out, tile.nbt.as_slice()),
            TileEntityDelta::Erase => {},
        }
        proof {
            assert(ws.take(i + 1).drop_last() =~= ws.take(i as int));
        }
        i += 1;
    }
    proof {
        assert(ws.take(n as int) =~= ws);
        assert(out@ =~= start + column_entries(ws));
    }
    Ok(())
}

/// Appends one block entity history in the column layout; fails, with part
/// of it appended, where it does not fit the layout.
fn write_history(out: &mut Vec<u8>, data: &DeltaTileEntityData) -> (r: Result<(), String>)
    requires
        data.wf(),
    ensures
        r is Ok <==> column_fits(data.reverse_deltas@),
        r is Ok ==> final(out)@ == old(out)@ + column_history_bytes(data.reverse_deltas@),
{
    let ghost ls = data.reverse_deltas@;
    let list_count = data.reverse_deltas.len();
    if list_count as u64 > MAX_TILE_ENTITY_LIST_LENGTH {
        return Err("tile entity list count exceeds its limit".to_string());
    }
    let ghost start = out@;
    put_u32_le(out, list_count as u32);
    let ghost mid = out@;
    let mut j: usize = 0;
    while j < list_count
        invariant
            j <= list_count,
            list_count == ls.len(),
            list_count <= MAX_TILE_ENTITY_LIST_LENGTH,
            ls == data.reverse_deltas@,
            data.wf(),
            mid == start + le_bytes(ls.len() as int, 4),
            out@ == mid + column_lists_bytes(ls.take(j as int)),
            forall|k: int| 0 <= k < j ==> (#[trigger] ls[k]).deltas.entries().len() <= MAX_TILE_ENTITY_LIST_LENGTH
                && data_fits(written_order(ls[k].deltas)),
        decreases list_count - j,
    {
        let list = &data.reverse_deltas[j];
        assert(list.deltas.wf());
        let entry_count = list.deltas.len();
        if entry_count as u64 > MAX_TILE_ENTITY_LIST_LENGTH {
            return Err("tile entity entry count exceeds its limit".to_string());
        }
        let ghost before = out@;
        put_u64_le(out, list.timestamp as u64);
        put_u32_le(out, entry_count as u32);
        match write_tile_entries(out, &list.deltas) {
            Ok(()) => {},
            Err(e) => {
                return Err(e);
            },
        }
        proof {
            assert(ls.take(j + 1).drop_last() =~= ls.take(j as int));
            assert(out@ =~= before + column_list_bytes(ls[j as int]));
        }
        j += 1;
    }
    proof {
        assert(ls.take(ls.len() as int) =~= ls);
    }
    Ok(())
}

/// Appends the block entity history of every present segment in the column
/// layout, in slot order; fails, with part of them appended, where one does
/// not fit the layout.
pub fn write(out: &mut Vec<u8>, data: &RegionData) -> (r: Result<(), String>)
    requires
        forall|k: int| 0 <= k < data.segments@.len() ==> (#[trigger] data.segments@[k] matches Some(seg)
            ==> seg.tile_entities.wf()),
    ensures
        r is Ok <==> segments_fit(data.segments@),
        r is Ok ==> final(out)@ == old(out)@ + column_segments_bytes(data.segments@),
{
    let ghost segs = data.segments@;
    let ghost start = out@;
    let mut i: usize = 0;
    while i < data.segments.len()
        invariant
            i <= segs.len(),
            segs == data.segments@,
            forall|k: int| 0 <= k < segs.len() ==> (#[trigger] segs[k] matches Some(seg) ==> seg.tile_entities.wf()),
            out@ == start + column_segments_bytes(segs.take(i as int)),
            forall|k: int| 0 <= k < i ==> (#[trigger] segs[k] matches Some(seg) ==> column_fits(
                seg.tile_entities.reverse_deltas@,
            )),
        decreases segs.len() - i,
    {
        match &data.segments[i] {
            Some(seg) => {
                proof {
                    assert(segs[i as int] matches Some(s) ==> s.tile_entities.wf());
                }
                match write_history(out, &seg.tile_entities) {
                    Ok(()) => {},
                    Err(e) => {
                        return Err(e);
                    },
                }
            },
            None => {},
        }
        proof {
            assert(segs.take(i + 1).drop_last() =~= segs.take(i as int));
        }
        i += 1;
    }
    proof {
        assert(segs.take(segs.len() as int) =~= segs);
    }
    Ok(())
}

} // verus!
