use vstd::prelude::*;

use crate::io::serialize::deserialize::{
    fits, le_at, packed_view, parse_te_change, parse_u64s, parse_uint, ReadFailure, SnapshotView, TileEntitiesView,
};
use crate::io::serialize::error::{MAX_DELTA_LENGTH, MAX_PACKED_LENGTH, MAX_SEGMENT_STATES_LENGTH, MAX_TILE_ENTITY_LIST_LENGTH};
use crate::definitions::SEGMENTS_PER_REGION;
use crate::raw::{RegionData, SegmentData};
use crate::io::serialize::experimental::reader::{
    parse_xp_histories, parse_xp_history, parse_xp_palette, parse_xp_longs, parse_xp_sections, parse_xp_snapshot,
    parse_xp_snapshots, parse_xp_te_change, parse_xp_te_changes, parse_xp_te_list, parse_xp_te_lists,
    parse_xp_tile_entities, parse_xp_segment, xp_slots, XpSegmentView, region_data_body, region_data_read,
    segment_data_read, slots_read, xp_history_read, xp_sections_read,
};
use crate::io::compression::{zstd_compressed, zstd_decoded, zstd_decodes};
use crate::io::serialize::error::ReadError;
use crate::io::file_location::EXTENSION;
use crate::io::serialize::deserialize::{byte_at, tile_entities_read};
use crate::version::{law_version_id_roundtrip, Version};
use crate::dimension::{law_dimension_id_roundtrip, DimensionType};
use vstd::string::StringSliceAdditionalSpecFns;
use crate::io::serialize::experimental::writer::{
    xp_histories_bytes, xp_history_bytes, xp_snapshot_bytes, xp_snapshots_bytes, presence_bytes, present_segments_bytes,
    segment_data_bytes, region_data_body_bytes, region_data_header,
};
use crate::io::serialize::primitives::le_bytes;
use crate::io::serialize::roundtrip::lemma_atoms_roundtrip;
use crate::io::serialize::serialize::{
    atoms_bytes, lemma_le_bytes_value, lemma_longs_roundtrip, lemma_parse_le, lemma_pow256_values,
    lemma_timestamp_roundtrip, longs_bytes, change_bytes, change_fits, change_views, changes_bytes, distinct_keys,
    lemma_change_roundtrip, lemma_changes_map_same_elements, lemma_entries_map_is_changes_map, lemma_sort_elements,
    sort_by_position, te_list_bytes, te_lists_bytes, Change, states_bytes, law_segment_info_roundtrip, lemma_states_bytes_len,
};
use crate::io::serialize::deserialize::changes_map;
use crate::region::tile_entities::{law_position_packing, packed_position, unpacked_position, TileEntityListDelta};
use crate::io::serialize::serialize::{insert_by_position, lemma_insert_by_position_elements};
use crate::io::serialize::experimental::reader::tile_entities::{
    ascending, parse_column_list, parse_column_lists, parse_column_tile_entities, parse_entries, parse_nbt_lengths,
    parse_placements, parse_u32s, puts_count,
};
use crate::io::serialize::experimental::writer::tile_entities::{
    column_data, column_entries, column_history_bytes, column_list_bytes, column_lists_bytes, column_lengths,
    column_ops, column_positions, column_types, column_fits, data_fits, written_order,
};
use crate::io::serialize::error::MAX_TILE_ENTITY_NBT_LENGTH;
use crate::region::segment_info::SegmentState;
use crate::io::serialize::deserialize::parse_segment_info;
use crate::region::delta::PackedDeltaData;
use crate::region::packed_data::{Data, PackedSnapshot};
use crate::region::palette::spec_bits_per_entry;
use crate::region::segment::MAX_SECTION_COUNT;

verus! {

/// A snapshot that this layout writes and reads back as it is: at most
/// `MAX_PACKED_LENGTH` longs and a palette of at most 256 atoms, with the
/// entry width its length calls for (16 for the direct palette).
pub open spec fn xp_snapshot_fits<const N: usize>(s: PackedSnapshot<N>) -> bool {
    s.data.data matches Data::Paletted(p) ==> {
        &&& p.packed_long_array@.len() <= MAX_PACKED_LENGTH
        &&& p.palette.palette@.len() <= 256
        &&& p.palette.palette@.len() == 0 ==> p.palette.bits_per_entry == 16
        &&& p.palette.palette@.len() > 0 ==> p.palette.bits_per_entry == spec_bits_per_entry(
            p.palette.palette@.len() as int,
        )
    }
}

/// The snapshots as plain values: timestamp and packed data.
pub open spec fn xp_history_view<const N: usize>(ss: Seq<PackedSnapshot<N>>) -> Seq<SnapshotView> {
    Seq::new(ss.len(), |k: int| (ss[k].timestamp, packed_view(ss[k].data)))
}

/// A history that is written and read back as it is.
pub open spec fn xp_history_fits<const N: usize>(h: PackedDeltaData<N>) -> bool {
    &&& h.reverse_deltas@.len() <= MAX_DELTA_LENGTH
    &&& forall|k: int| 0 <= k < h.reverse_deltas@.len() ==> xp_snapshot_fits(#[trigger] h.reverse_deltas@[k])
}

/// Sections that are written and read back as they are: at most
/// `MAX_SECTION_COUNT`, each history fitting.
pub open spec fn xp_sections_fit<const N: usize>(hs: Seq<PackedDeltaData<N>>) -> bool {
    &&& hs.len() <= MAX_SECTION_COUNT
    &&& forall|k: int| 0 <= k < hs.len() ==> xp_history_fits(#[trigger] hs[k])
}

/// The histories as plain values.
pub open spec fn xp_sections_view<const N: usize>(hs: Seq<PackedDeltaData<N>>) -> Seq<Seq<SnapshotView>> {
    Seq::new(hs.len(), |k: int| xp_history_view(hs[k].reverse_deltas@))
}

proof fn lemma_byte_at(d: Seq<u8>, p: int, b: u8)
    requires
        0 <= p,
        p + 1 <= d.len(),
        d[p] == b,
    ensures
        parse_uint(d, p, 1) == Ok::<(int, int), ReadFailure>((b as int, p + 1)),
{
    lemma_pow256_values();
    lemma_le_bytes_value(b as int, 1);
    assert(d.subrange(p, p + 1) =~= le_bytes(b as int, 1)) by {
        reveal_with_fuel(le_bytes, 2);
    }
    lemma_parse_le(d, p, b as int, 1);
}

proof fn lemma_xp_palette_part(pre: Seq<u8>, pal: Seq<u16>, bpe: usize, post: Seq<u8>)
    requires
        pal.len() <= 256,
        pal.len() == 0 ==> bpe == 16,
        pal.len() > 0 ==> bpe == spec_bits_per_entry(pal.len() as int),
    ensures
        parse_xp_palette(pre + le_bytes(pal.len() as int, 2) + atoms_bytes(pal) + post, pre.len() as int) == Ok::<
            ((Seq<u16>, usize), int),
            ReadFailure,
        >(((pal, bpe), (pre.len() + 2 + 2 * pal.len()) as int)),
{
    lemma_pow256_values();
    let n = pal.len() as int;
    lemma_le_bytes_value(n, 2);
    let d = pre + le_bytes(n, 2) + atoms_bytes(pal) + post;
    let p0 = pre.len() as int;
    assert(d.subrange(p0, p0 + 2) =~= le_bytes(n, 2));
    lemma_parse_le(d, p0, n, 2);
    assert(d =~= (pre + le_bytes(n, 2)) + atoms_bytes(pal) + post);
    lemma_atoms_roundtrip(pre + le_bytes(n, 2), pal, post);
    if n == 0 {
        assert(pal =~= Seq::<u16>::empty());
    }
}

proof fn lemma_xp_longs_part(pre: Seq<u8>, longs: Seq<u64>, post: Seq<u8>)
    requires
        longs.len() <= MAX_PACKED_LENGTH,
    ensures
        parse_xp_longs(pre + le_bytes(longs.len() as int, 8) + longs_bytes(longs) + post, pre.len() as int) == Ok::<
            (Seq<u64>, int),
            ReadFailure,
        >((longs, (pre.len() + 8 + 8 * longs.len()) as int)),
{
    lemma_pow256_values();
    let m = longs.len() as int;
    lemma_le_bytes_value(m, 8);
    let d = pre + le_bytes(m, 8) + longs_bytes(longs) + post;
    let p0 = pre.len() as int;
    assert(d.subrange(p0, p0 + 8) =~= le_bytes(m, 8));
    lemma_parse_le(d, p0, m, 8);
    assert(d =~= (pre + le_bytes(m, 8)) + longs_bytes(longs) + post);
    lemma_longs_roundtrip(pre + le_bytes(m, 8), longs, post);
}

#[verifier::spinoff_prover]
proof fn lemma_xp_snapshot_roundtrip<const N: usize>(pre: Seq<u8>, s: PackedSnapshot<N>, post: Seq<u8>)
    requires
        xp_snapshot_fits(s),
    ensures
        parse_xp_snapshot(pre + xp_snapshot_bytes(s) + post, pre.len() as int) == Ok::<(SnapshotView, int), ReadFailure>(
            ((s.timestamp, packed_view(s.data)), (pre.len() + xp_snapshot_bytes(s).len()) as int),
        ),
{
    lemma_pow256_values();
    let ts = (s.timestamp as u64) as int;
    lemma_le_bytes_value(ts, 8);
    lemma_timestamp_roundtrip(s.timestamp);
    let d = pre + xp_snapshot_bytes(s) + post;
    let p0 = pre.len() as int;
    assert(d.subrange(p0, p0 + 8) =~= le_bytes(ts, 8));
    lemma_parse_le(d, p0, ts, 8);
    match s.data.data {
        Data::Single(v) => {
            assert(d[p0 + 8] == 0u8);
            lemma_byte_at(d, p0 + 8, 0);
            lemma_le_bytes_value(v as int, 2);
            assert(d.subrange(p0 + 9, p0 + 11) =~= le_bytes(v as int, 2));
            lemma_parse_le(d, p0 + 9, v as int, 2);
            assert(xp_snapshot_bytes(s).len() == 11);
            assert(parse_uint(d, p0 + 9, 2) == Ok::<(int, int), ReadFailure>((v as int, p0 + 11)));
            assert(packed_view(s.data) == (true, v, Seq::<u64>::empty(), Seq::<u16>::empty(), 0usize));
            assert((v as int) as u16 == v);
            assert(parse_uint(d, p0, 8) == Ok::<(int, int), ReadFailure>((ts, p0 + 8)));
            assert(((ts as u64) as i64) == s.timestamp);
            assert(parse_uint(d, p0 + 8, 1) == Ok::<(int, int), ReadFailure>((0, p0 + 9)));
            assert(parse_xp_snapshot(d, p0) == Ok::<(SnapshotView, int), ReadFailure>(
                ((s.timestamp, (true, v, Seq::<u64>::empty(), Seq::<u16>::empty(), 0usize)), p0 + 11),
            ));
            assert(d == pre + xp_snapshot_bytes(s) + post);
            assert((pre.len() + xp_snapshot_bytes(s).len()) as int == p0 + 11);
            let want = ((s.timestamp, packed_view(s.data)), (pre.len() + xp_snapshot_bytes(s).len()) as int);
            assert(want == ((s.timestamp, (true, v, Seq::<u64>::empty(), Seq::<u16>::empty(), 0usize)), p0 + 11));
            assert(parse_xp_snapshot(pre + xp_snapshot_bytes(s) + post, pre.len() as int) == Ok::<(SnapshotView, int), ReadFailure>(
                ((s.timestamp, packed_view(s.data)), (pre.len() + xp_snapshot_bytes(s).len()) as int),
            ));
        },
        Data::Paletted(p) => {
            let pal = p.palette.palette@;
            let longs = p.packed_long_array@;
            let n = pal.len() as int;
            assert(d[p0 + 8] == 1u8);
            lemma_byte_at(d, p0 + 8, 1);
            assert((n as u16) as int == n);
            let head = pre + le_bytes(ts, 8) + seq![1u8];
            let rest = le_bytes(longs.len() as int, 8) + longs_bytes(longs) + post;
            assert(d =~= head + le_bytes(n, 2) + atoms_bytes(pal) + rest);
            lemma_xp_palette_part(head, pal, p.palette.bits_per_entry, rest);
            let head2 = head + le_bytes(n, 2) + atoms_bytes(pal);
            assert(d =~= head2 + le_bytes(longs.len() as int, 8) + longs_bytes(longs) + post);
            lemma_xp_longs_part(head2, longs, post);
            let m = longs.len() as int;
            let bpe = p.palette.bits_per_entry;
            lemma_atoms_roundtrip(Seq::empty(), pal, Seq::empty());
            lemma_longs_roundtrip(Seq::empty(), longs, Seq::empty());
            lemma_le_bytes_value(n, 2);
            lemma_le_bytes_value(m, 8);
            assert(head.len() == p0 + 9);
            assert(head2.len() == p0 + 11 + 2 * n);
            assert(parse_uint(d, p0, 8) == Ok::<(int, int), ReadFailure>((ts, p0 + 8)));
            assert(((ts as u64) as i64) == s.timestamp);
            assert(parse_uint(d, p0 + 8, 1) == Ok::<(int, int), ReadFailure>((1, p0 + 9)));
            assert(parse_xp_palette(d, p0 + 9) == Ok::<((Seq<u16>, usize), int), ReadFailure>(((pal, bpe), p0 + 11 + 2 * n)));
            assert(parse_xp_longs(d, p0 + 11 + 2 * n) == Ok::<(Seq<u64>, int), ReadFailure>((longs, p0 + 19 + 2 * n + 8 * m)));
            assert(packed_view(s.data) == (false, 0u16, longs, pal, bpe));
            assert(xp_snapshot_bytes(s).len() == 19 + 2 * n + 8 * m);
            assert(parse_xp_snapshot(pre + xp_snapshot_bytes(s) + post, pre.len() as int) == Ok::<(SnapshotView, int), ReadFailure>(
                ((s.timestamp, packed_view(s.data)), (pre.len() + xp_snapshot_bytes(s).len()) as int),
            ));
        },
    }
}

proof fn lemma_xp_snapshots_roundtrip<const N: usize>(pre: Seq<u8>, ss: Seq<PackedSnapshot<N>>, post: Seq<u8>)
    requires
        forall|k: int| 0 <= k < ss.len() ==> xp_snapshot_fits(#[trigger] ss[k]),
    ensures
        parse_xp_snapshots(pre + xp_snapshots_bytes(ss) + post, pre.len() as int, ss.len()) == Ok::<
            (Seq<SnapshotView>, int),
            ReadFailure,
        >((xp_history_view(ss), (pre.len() + xp_snapshots_bytes(ss).len()) as int)),
    decreases ss.len(),
{
    if ss.len() > 0 {
        let init = ss.drop_last();
        let last = ss.last();
        assert forall|k: int| 0 <= k < init.len() implies xp_snapshot_fits(#[trigger] init[k]) by {
            assert(init[k] == ss[k]);
        }
        assert(xp_snapshot_fits(ss[ss.len() - 1]));
        let tail = xp_snapshot_bytes(last) + post;
        assert(pre + xp_snapshots_bytes(ss) + post =~= pre + xp_snapshots_bytes(init) + tail);
        lemma_xp_snapshots_roundtrip(pre, init, tail);
        assert(pre + xp_snapshots_bytes(ss) + post =~= (pre + xp_snapshots_bytes(init)) + xp_snapshot_bytes(last) + post);
        lemma_xp_snapshot_roundtrip(pre + xp_snapshots_bytes(init), last, post);
        assert(xp_history_view(init).push((last.timestamp, packed_view(last.data))) =~= xp_history_view(ss));
    } else {
        assert(xp_history_view(ss) =~= Seq::<SnapshotView>::empty());
    }
}

proof fn lemma_xp_history_roundtrip<const N: usize>(pre: Seq<u8>, h: PackedDeltaData<N>, post: Seq<u8>)
    requires
        xp_history_fits(h),
    ensures
        parse_xp_history(pre + xp_history_bytes(h) + post, pre.len() as int) == Ok::<(Seq<SnapshotView>, int), ReadFailure>(
            (xp_history_view(h.reverse_deltas@), (pre.len() + xp_history_bytes(h).len()) as int),
        ),
{
    lemma_pow256_values();
    let n = h.reverse_deltas@.len() as int;
    lemma_le_bytes_value(n, 8);
    let d = pre + xp_history_bytes(h) + post;
    assert(d.subrange(pre.len() as int, pre.len() + 8int) =~= le_bytes(n, 8));
    lemma_parse_le(d, pre.len() as int, n, 8);
    assert(d =~= (pre + le_bytes(n, 8)) + xp_snapshots_bytes(h.reverse_deltas@) + post);
    lemma_xp_snapshots_roundtrip(pre + le_bytes(n, 8), h.reverse_deltas@, post);
}

proof fn lemma_xp_histories_roundtrip<const N: usize>(pre: Seq<u8>, hs: Seq<PackedDeltaData<N>>, post: Seq<u8>)
    requires
        forall|k: int| 0 <= k < hs.len() ==> xp_history_fits(#[trigger] hs[k]),
    ensures
        parse_xp_histories(pre + xp_histories_bytes(hs) + post, pre.len() as int, hs.len()) == Ok::<
            (Seq<Seq<SnapshotView>>, int),
            ReadFailure,
        >((xp_sections_view(hs), (pre.len() + xp_histories_bytes(hs).len()) as int)),
    decreases hs.len(),
{
    if hs.len() > 0 {
        let init = hs.drop_last();
        let last = hs.last();
        assert forall|k: int| 0 <= k < init.len() implies xp_history_fits(#[trigger] init[k]) by {
            assert(init[k] == hs[k]);
        }
        assert(xp_history_fits(hs[hs.len() - 1]));
        let tail = xp_history_bytes(last) + post;
        assert(pre + xp_histories_bytes(hs) + post =~= pre + xp_histories_bytes(init) + tail);
        lemma_xp_histories_roundtrip(pre, init, tail);
        assert(pre + xp_histories_bytes(hs) + post =~= (pre + xp_histories_bytes(init)) + xp_history_bytes(last) + post);
        lemma_xp_history_roundtrip(pre + xp_histories_bytes(init), last, post);
        assert(xp_sections_view(init).push(xp_history_view(last.reverse_deltas@)) =~= xp_sections_view(hs));
    } else {
        assert(xp_sections_view(hs) =~= Seq::<Seq<SnapshotView>>::empty());
    }
}

proof fn lemma_xp_sections_roundtrip<const N: usize>(pre: Seq<u8>, hs: Seq<PackedDeltaData<N>>, post: Seq<u8>)
    requires
        xp_sections_fit(hs),
    ensures
        parse_xp_sections(pre + le_bytes(hs.len() as int, 8) + xp_histories_bytes(hs) + post, pre.len() as int) == Ok::<
            (Seq<Seq<SnapshotView>>, int),
            ReadFailure,
        >((xp_sections_view(hs), (pre.len() + 8 + xp_histories_bytes(hs).len()) as int)),
{
    lemma_pow256_values();
    let n = hs.len() as int;
    lemma_le_bytes_value(n, 8);
    let d = pre + le_bytes(n, 8) + xp_histories_bytes(hs) + post;
    assert(d.subrange(pre.len() as int, pre.len() + 8int) =~= le_bytes(n, 8));
    lemma_parse_le(d, pre.len() as int, n, 8);
    assert(d =~= (pre + le_bytes(n, 8)) + xp_histories_bytes(hs) + post);
    lemma_xp_histories_roundtrip(pre + le_bytes(n, 8), hs, post);
}

/// Block entity lists that this layout writes and reads back as they are:
/// at most `MAX_TILE_ENTITY_LIST_LENGTH` lists of at most as many changes,
/// each placed entity at its change's position with data within its limit.
pub open spec fn xp_te_fits(ls: Seq<TileEntityListDelta>) -> bool {
    &&& ls.len() <= MAX_TILE_ENTITY_LIST_LENGTH
    &&& forall|k: int| 0 <= k < ls.len() ==> {
        &&& (#[trigger] ls[k]).deltas.wf()
        &&& ls[k].deltas.entries().len() <= MAX_TILE_ENTITY_LIST_LENGTH
        &&& forall|i: int| 0 <= i < ls[k].deltas.entries().len() ==> change_fits(#[trigger] change_views(ls[k].deltas.entries())[i])
    }
}

proof fn lemma_xp_change_roundtrip(pre: Seq<u8>, c: Change, post: Seq<u8>)
    requires
        change_fits(c),
    ensures
        parse_xp_te_change(pre + change_bytes(c) + post, pre.len() as int) == Ok::<(Change, int), ReadFailure>(
            (c, (pre.len() + change_bytes(c).len()) as int),
        ),
{
    lemma_change_roundtrip(pre, c, post);
    lemma_pow256_values();
    law_position_packing(c.0, 0);
    let k = packed_position(c.0);
    lemma_le_bytes_value(k, 4);
    let d = pre + change_bytes(c) + post;
    let p0 = pre.len() as int;
    assert(d.subrange(p0, p0 + 4) =~= le_bytes(k, 4));
    lemma_parse_le(d, p0, k, 4);
    match c.1 {
        None => {
            assert(d[p0 + 4] == 0u8);
            lemma_byte_at(d, p0 + 4, 0);
        },
        Some(_) => {
            assert(d[p0 + 4] == 1u8);
            lemma_byte_at(d, p0 + 4, 1);
        },
    }
}

proof fn lemma_xp_changes_roundtrip(pre: Seq<u8>, cs: Seq<Change>, post: Seq<u8>)
    requires
        forall|i: int| 0 <= i < cs.len() ==> change_fits(#[trigger] cs[i]),
    ensures
        parse_xp_te_changes(pre + changes_bytes(cs) + post, pre.len() as int, cs.len()) == Ok::<(Seq<Change>, int), ReadFailure>(
            (cs, (pre.len() + changes_bytes(cs).len()) as int),
        ),
    decreases cs.len(),
{
    if cs.len() > 0 {
        let init = cs.drop_last();
        let last = cs.last();
        assert forall|i: int| 0 <= i < init.len() implies change_fits(#[trigger] init[i]) by {
            assert(init[i] == cs[i]);
        }
        assert(change_fits(cs[cs.len() - 1]));
        let tail = change_bytes(last) + post;
        assert(pre + changes_bytes(cs) + post =~= pre + changes_bytes(init) + tail);
        lemma_xp_changes_roundtrip(pre, init, tail);
        assert(pre + changes_bytes(cs) + post =~= (pre + changes_bytes(init)) + change_bytes(last) + post);
        lemma_xp_change_roundtrip(pre + changes_bytes(init), last, post);
        assert(init.push(last) =~= cs);
    } else {
        assert(cs =~= Seq::<Change>::empty());
    }
}

proof fn lemma_xp_list_roundtrip(pre: Seq<u8>, l: TileEntityListDelta, post: Seq<u8>)
    requires
        l.deltas.wf(),
        l.deltas.entries().len() <= MAX_TILE_ENTITY_LIST_LENGTH,
        forall|i: int| 0 <= i < l.deltas.entries().len() ==> change_fits(#[trigger] change_views(l.deltas.entries())[i]),
    ensures
        parse_xp_te_list(pre + te_list_bytes(l) + post, pre.len() as int) matches Ok(((ts, cs), e)) && ts == l.timestamp
            && changes_map(cs) == l.deltas.map() && e == pre.len() + te_list_bytes(l).len(),
{
    lemma_pow256_values();
    let cv = change_views(l.deltas.entries());
    assert(distinct_keys(cv)) by {
        assert forall|i: int, j: int| 0 <= i < j < cv.len() implies #[trigger] cv[i].0 != #[trigger] cv[j].0 by {
            assert(l.deltas.entries()[i].0 != l.deltas.entries()[j].0);
        }
    }
    lemma_sort_elements(cv);
    let sorted = sort_by_position(cv);
    assert forall|i: int| 0 <= i < sorted.len() implies change_fits(#[trigger] sorted[i]) by {
        assert(sorted.contains(sorted[i]));
        let j = choose|j: int| 0 <= j < cv.len() && cv[j] == sorted[i];
        assert(change_fits(cv[j]));
    }
    let ts = (l.timestamp as u64) as int;
    let n = cv.len() as int;
    lemma_le_bytes_value(ts, 8);
    lemma_le_bytes_value(n, 8);
    lemma_timestamp_roundtrip(l.timestamp);
    let d = pre + te_list_bytes(l) + post;
    let p0 = pre.len() as int;
    assert(d.subrange(p0, p0 + 8) =~= le_bytes(ts, 8));
    lemma_parse_le(d, p0, ts, 8);
    assert(d.subrange(p0 + 8, p0 + 16) =~= le_bytes(n, 8));
    lemma_parse_le(d, p0 + 8, n, 8);
    let pre2 = pre + le_bytes(ts, 8) + le_bytes(n, 8);
    assert(d =~= pre2 + changes_bytes(sorted) + post);
    lemma_xp_changes_roundtrip(pre2, sorted, post);
    lemma_changes_map_same_elements(sorted, cv);
    lemma_entries_map_is_changes_map(l.deltas.entries());
}

#[verifier::spinoff_prover]
proof fn lemma_xp_lists_roundtrip(pre: Seq<u8>, ls: Seq<TileEntityListDelta>, post: Seq<u8>)
    requires
        xp_te_fits(ls),
    ensures
        parse_xp_te_lists(pre + te_lists_bytes(ls) + post, pre.len() as int, ls.len()) matches Ok((vs, e)) && vs.len() == ls.len()
            && e == pre.len() + te_lists_bytes(ls).len() && forall|k: int| 0 <= k < ls.len() ==> (#[trigger] vs[k]).0
            == ls[k].timestamp && changes_map(vs[k].1) == ls[k].deltas.map(),
    decreases ls.len(),
{
    if ls.len() > 0 {
        let init = ls.drop_last();
        let last = ls.last();
        assert(xp_te_fits(init)) by {
            assert forall|k: int| 0 <= k < init.len() implies {
                &&& (#[trigger] init[k]).deltas.wf()
                &&& init[k].deltas.entries().len() <= MAX_TILE_ENTITY_LIST_LENGTH
                &&& forall|i: int| 0 <= i < init[k].deltas.entries().len() ==> change_fits(#[trigger] change_views(init[k].deltas.entries())[i])
            } by {
                assert(init[k] == ls[k]);
            }
        }
        assert(ls[ls.len() - 1] == last);
        let tail = te_list_bytes(last) + post;
        assert(pre + te_lists_bytes(ls) + post =~= pre + te_lists_bytes(init) + tail);
        lemma_xp_lists_roundtrip(pre, init, tail);
        assert(pre + te_lists_bytes(ls) + post =~= (pre + te_lists_bytes(init)) + te_list_bytes(last) + post);
        lemma_xp_list_roundtrip(pre + te_lists_bytes(init), last, post);
        let r = parse_xp_te_lists(pre + te_lists_bytes(ls) + post, pre.len() as int, ls.len());
        let vs = r.unwrap().0;
        assert forall|k: int| 0 <= k < ls.len() implies (#[trigger] vs[k]).0 == ls[k].timestamp && changes_map(vs[k].1)
            == ls[k].deltas.map() by {
            if k < ls.len() - 1 {
                assert(init[k] == ls[k]);
            }
        }
    }
}

proof fn lemma_xp_tile_entities_roundtrip(pre: Seq<u8>, ls: Seq<TileEntityListDelta>, post: Seq<u8>)
    requires
        xp_te_fits(ls),
    ensures
        parse_xp_tile_entities(pre + le_bytes(ls.len() as int, 8) + te_lists_bytes(ls) + post, pre.len() as int) matches Ok(
            (vs, e),
        ) && vs.len() == ls.len() && e == pre.len() + 8 + te_lists_bytes(ls).len() && forall|k: int|
            0 <= k < ls.len() ==> (#[trigger] vs[k]).0 == ls[k].timestamp && changes_map(vs[k].1) == ls[k].deltas.map(),
{
    lemma_pow256_values();
    let n = ls.len() as int;
    lemma_le_bytes_value(n, 8);
    let d = pre + le_bytes(n, 8) + te_lists_bytes(ls) + post;
    assert(d.subrange(pre.len() as int, pre.len() + 8int) =~= le_bytes(n, 8));
    lemma_parse_le(d, pre.len() as int, n, 8);
    assert(d =~= (pre + le_bytes(n, 8)) + te_lists_bytes(ls) + post);
    lemma_xp_lists_roundtrip(pre + le_bytes(n, 8), ls, post);
}

/// A segment that this layout writes and reads back as it is.
pub open spec fn segment_data_fits(seg: SegmentData) -> bool {
    &&& xp_sections_fit(seg.block_sections@)
    &&& xp_sections_fit(seg.biome_sections@)
    &&& seg.states@.len() <= MAX_SEGMENT_STATES_LENGTH
    &&& xp_te_fits(seg.tile_entities.reverse_deltas@)
}

/// The block entity lists `ls` read back as `vs`: the same timestamps and
/// the same maps of changes.
pub open spec fn te_lists_match(ls: Seq<TileEntityListDelta>, vs: TileEntitiesView) -> bool {
    &&& vs.len() == ls.len()
    &&& forall|k: int| 0 <= k < ls.len() ==> (#[trigger] vs[k]).0 == ls[k].timestamp && changes_map(vs[k].1) == ls[k].deltas.map()
}

/// `v` is what reading back the segment `seg` gives.
pub open spec fn segment_view_matches(seg: SegmentData, v: XpSegmentView) -> bool {
    &&& v.0 == xp_sections_view(seg.block_sections@)
    &&& v.1 == xp_sections_view(seg.biome_sections@)
    &&& v.2 == seg.states@
    &&& te_lists_match(seg.tile_entities.reverse_deltas@, v.3)
}

/// Two segments hold the same data: the same snapshots in every section,
/// the same states, and block entity lists with the same timestamps and
/// changes.
pub open spec fn same_segment_data(a: SegmentData, b: SegmentData) -> bool {
    &&& xp_sections_view(a.block_sections@) == xp_sections_view(b.block_sections@)
    &&& xp_sections_view(a.biome_sections@) == xp_sections_view(b.biome_sections@)
    &&& a.states@ == b.states@
    &&& a.tile_entities.reverse_deltas@.len() == b.tile_entities.reverse_deltas@.len()
    &&& forall|k: int| 0 <= k < a.tile_entities.reverse_deltas@.len() ==> (#[trigger] a.tile_entities.reverse_deltas@[k]).timestamp
        == b.tile_entities.reverse_deltas@[k].timestamp && a.tile_entities.reverse_deltas@[k].deltas.map()
        == b.tile_entities.reverse_deltas@[k].deltas.map()
}

/// Two slots hold the same: both nothing, or segments with the same data.
pub open spec fn same_slot(a: Option<SegmentData>, b: Option<SegmentData>) -> bool {
    match (a, b) {
        (None, None) => true,
        (Some(x), Some(y)) => same_segment_data(x, y),
        _ => false,
    }
}

/// The four parts a segment is written in.
pub open spec fn segment_parts(seg: SegmentData) -> (Seq<u8>, Seq<u8>, Seq<u8>, Seq<u8>) {
    (
        le_bytes(seg.block_sections@.len() as int, 8) + xp_histories_bytes(seg.block_sections@),
        le_bytes(seg.biome_sections@.len() as int, 8) + xp_histories_bytes(seg.biome_sections@),
        le_bytes(seg.states@.len() as int, 8) + states_bytes(seg.states@),
        le_bytes(seg.tile_entities.reverse_deltas@.len() as int, 8) + te_lists_bytes(seg.tile_entities.reverse_deltas@),
    )
}

proof fn lemma_seg_blocks(pre: Seq<u8>, seg: SegmentData, post: Seq<u8>)
    requires
        segment_data_fits(seg),
    ensures
        ({
            let (a1, a2, a3, a4) = segment_parts(seg);
            parse_xp_sections(pre + a1 + a2 + a3 + a4 + post, pre.len() as int) == Ok::<(Seq<Seq<SnapshotView>>, int), ReadFailure>(
                (xp_sections_view(seg.block_sections@), (pre.len() + a1.len()) as int),
            )
        }),
{
    let (a1, a2, a3, a4) = segment_parts(seg);
    let b = seg.block_sections@;
    lemma_pow256_values();
    lemma_le_bytes_value(b.len() as int, 8);
    assert(pre + a1 + a2 + a3 + a4 + post =~= pre + le_bytes(b.len() as int, 8) + xp_histories_bytes(b) + (a2 + a3 + a4 + post));
    lemma_xp_sections_roundtrip(pre, b, a2 + a3 + a4 + post);
}

proof fn lemma_seg_biomes(pre: Seq<u8>, seg: SegmentData, post: Seq<u8>)
    requires
        segment_data_fits(seg),
    ensures
        ({
            let (a1, a2, a3, a4) = segment_parts(seg);
            parse_xp_sections(pre + a1 + a2 + a3 + a4 + post, (pre.len() + a1.len()) as int) == Ok::<(Seq<Seq<SnapshotView>>, int), ReadFailure>(
                (xp_sections_view(seg.biome_sections@), (pre.len() + a1.len() + a2.len()) as int),
            )
        }),
{
    let (a1, a2, a3, a4) = segment_parts(seg);
    let c = seg.biome_sections@;
    lemma_pow256_values();
    lemma_le_bytes_value(c.len() as int, 8);
    assert(pre + a1 + a2 + a3 + a4 + post =~= (pre + a1) + le_bytes(c.len() as int, 8) + xp_histories_bytes(c) + (a3 + a4 + post));
    lemma_xp_sections_roundtrip(pre + a1, c, a3 + a4 + post);
}

proof fn lemma_seg_states(pre: Seq<u8>, seg: SegmentData, post: Seq<u8>)
    requires
        segment_data_fits(seg),
    ensures
        ({
            let (a1, a2, a3, a4) = segment_parts(seg);
            parse_segment_info(pre + a1 + a2 + a3 + a4 + post, (pre.len() + a1.len() + a2.len()) as int) == Ok::<(Seq<SegmentState>, int), ReadFailure>(
                (seg.states@, (pre.len() + a1.len() + a2.len() + a3.len()) as int),
            )
        }),
{
    let (a1, a2, a3, a4) = segment_parts(seg);
    let st = seg.states@;
    lemma_pow256_values();
    lemma_le_bytes_value(st.len() as int, 8);
    lemma_states_bytes_len(st);
    assert(pre + a1 + a2 + a3 + a4 + post =~= (pre + a1 + a2) + le_bytes(st.len() as int, 8) + states_bytes(st) + (a4 + post));
    law_segment_info_roundtrip(pre + a1 + a2, st, a4 + post);
}

proof fn lemma_seg_tile_entities(pre: Seq<u8>, seg: SegmentData, post: Seq<u8>)
    requires
        segment_data_fits(seg),
    ensures
        ({
            let (a1, a2, a3, a4) = segment_parts(seg);
            parse_xp_tile_entities(pre + a1 + a2 + a3 + a4 + post, (pre.len() + a1.len() + a2.len() + a3.len()) as int) matches Ok((vs, e))
                && e == pre.len() + a1.len() + a2.len() + a3.len() + a4.len() && te_lists_match(seg.tile_entities.reverse_deltas@, vs)
        }),
{
    let (a1, a2, a3, a4) = segment_parts(seg);
    let ls = seg.tile_entities.reverse_deltas@;
    lemma_pow256_values();
    lemma_le_bytes_value(ls.len() as int, 8);
    assert(pre + a1 + a2 + a3 + a4 + post =~= (pre + a1 + a2 + a3) + le_bytes(ls.len() as int, 8) + te_lists_bytes(ls) + post);
    lemma_xp_tile_entities_roundtrip(pre + a1 + a2 + a3, ls, post);
}

#[verifier::spinoff_prover]
#[verifier::rlimit(40)]
proof fn lemma_segment_data_roundtrip(pre: Seq<u8>, seg: SegmentData, post: Seq<u8>)
    requires
        segment_data_fits(seg),
    ensures
        parse_xp_segment(pre + segment_data_bytes(seg) + post, pre.len() as int) matches Ok((v, e))
            && e == pre.len() + segment_data_bytes(seg).len() && segment_view_matches(seg, v),
{
    let (a1, a2, a3, a4) = segment_parts(seg);
    let d = pre + a1 + a2 + a3 + a4 + post;
    let p0 = pre.len() as int;
    assert(segment_data_bytes(seg) =~= a1 + a2 + a3 + a4);
    assert(pre + segment_data_bytes(seg) + post =~= d);
    lemma_seg_blocks(pre, seg, post);
    lemma_seg_biomes(pre, seg, post);
    lemma_seg_states(pre, seg, post);
    lemma_seg_tile_entities(pre, seg, post);
    let q3 = p0 + a1.len() + a2.len() + a3.len();
    let (vs, e) = parse_xp_tile_entities(d, q3)->Ok_0;
    let v = (xp_sections_view(seg.block_sections@), xp_sections_view(seg.biome_sections@), seg.states@, vs);
    assert(parse_xp_segment(d, p0) == Ok::<(XpSegmentView, int), ReadFailure>((v, e)));
    assert(segment_view_matches(seg, v));
}

proof fn lemma_presence(segs: Seq<Option<SegmentData>>)
    ensures
        presence_bytes(segs).len() == segs.len(),
        forall|k: int| 0 <= k < segs.len() ==> #[trigger] presence_bytes(segs)[k] == (if segs[k] is Some { 1u8 } else { 0u8 }),
    decreases segs.len(),
{
    if segs.len() > 0 {
        lemma_presence(segs.drop_last());
        assert forall|k: int| 0 <= k < segs.len() implies #[trigger] presence_bytes(segs)[k] == (if segs[k] is Some {
            1u8
        } else {
            0u8
        }) by {
            if k < segs.len() - 1 {
                assert(segs.drop_last()[k] == segs[k]);
            }
        }
    }
}

proof fn lemma_present_prefix(segs: Seq<Option<SegmentData>>, i: nat, j: nat)
    requires
        i <= j <= segs.len(),
    ensures
        present_segments_bytes(segs.take(i as int)).len() <= present_segments_bytes(segs.take(j as int)).len(),
        present_segments_bytes(segs.take(j as int)).take(present_segments_bytes(segs.take(i as int)).len() as int)
            == present_segments_bytes(segs.take(i as int)),
    decreases j - i,
{
    if j > i {
        lemma_present_prefix(segs, i, (j - 1) as nat);
        assert(segs.take(j as int).drop_last() =~= segs.take(j - 1));
        let a = present_segments_bytes(segs.take(i as int));
        let b = present_segments_bytes(segs.take(j - 1));
        let c = present_segments_bytes(segs.take(j as int));
        assert(c.take(a.len() as int) =~= b.take(a.len() as int));
    } else {
        let a = present_segments_bytes(segs.take(i as int));
        assert(a.take(a.len() as int) =~= a);
    }
}

/// A slot read back as `v`: nothing for an empty slot, the segment's view
/// for a full one.
pub open spec fn slot_matches(slot: Option<SegmentData>, v: Option<XpSegmentView>) -> bool {
    match slot {
        None => v is None,
        Some(seg) => v matches Some(sv) && segment_view_matches(seg, sv),
    }
}

/// Every segment of the slots fits.
pub open spec fn slots_fit(segs: Seq<Option<SegmentData>>) -> bool {
    forall|k: int| 0 <= k < segs.len() ==> (#[trigger] segs[k] matches Some(seg) ==> segment_data_fits(seg))
}

#[verifier::spinoff_prover]
proof fn lemma_slot_step(segs: Seq<Option<SegmentData>>, post: Seq<u8>, i: nat)
    requires
        segs.len() == SEGMENTS_PER_REGION,
        slots_fit(segs),
        i < SEGMENTS_PER_REGION,
        xp_slots(presence_bytes(segs) + present_segments_bytes(segs) + post, SEGMENTS_PER_REGION as int, i) matches Ok((vs, e))
            && vs.len() == i && e == SEGMENTS_PER_REGION + present_segments_bytes(segs.take(i as int)).len()
            && forall|k: int| 0 <= k < i ==> slot_matches(segs[k], #[trigger] vs[k]),
    ensures
        xp_slots(presence_bytes(segs) + present_segments_bytes(segs) + post, SEGMENTS_PER_REGION as int, i + 1) matches Ok(
            (vs, e),
        ) && vs.len() == i + 1 && e == SEGMENTS_PER_REGION + present_segments_bytes(segs.take((i + 1) as int)).len()
            && forall|k: int| 0 <= k < i + 1 ==> slot_matches(segs[k], #[trigger] vs[k]),
{
    let d = presence_bytes(segs) + present_segments_bytes(segs) + post;
    let p0 = SEGMENTS_PER_REGION as int;
    lemma_presence(segs);
    lemma_present_prefix(segs, (i + 1) as nat, segs.len());
    assert(segs.take(segs.len() as int) =~= segs);
    assert(segs.take((i + 1) as int).drop_last() =~= segs.take(i as int));
    let before = present_segments_bytes(segs.take(i as int));
    let upto = present_segments_bytes(segs.take((i + 1) as int));
    let all = present_segments_bytes(segs);
    let tail = all.skip(upto.len() as int) + post;
    assert(all =~= upto + all.skip(upto.len() as int));
    assert(d[i as int] == presence_bytes(segs)[i as int]);
    let (vs, e) = xp_slots(d, p0, i)->Ok_0;
    match segs[i as int] {
        Some(seg) => {
            assert(segs[i as int] matches Some(s) ==> segment_data_fits(s));
            assert(upto =~= before + segment_data_bytes(seg));
            assert(d =~= (presence_bytes(segs) + before) + segment_data_bytes(seg) + tail);
            lemma_segment_data_roundtrip(presence_bytes(segs) + before, seg, tail);
            let (v, e2) = parse_xp_segment(d, e)->Ok_0;
            assert(xp_slots(d, p0, i + 1) == Ok::<(Seq<Option<XpSegmentView>>, int), ReadFailure>((vs.push(Some(v)), e2)));
            assert forall|k: int| 0 <= k < i + 1 implies slot_matches(segs[k], #[trigger] vs.push(Some(v))[k]) by {
                if k < i {
                    assert(vs.push(Some(v))[k] == vs[k]);
                }
            }
        },
        None => {
            assert(upto =~= before);
            assert(xp_slots(d, p0, i + 1) == Ok::<(Seq<Option<XpSegmentView>>, int), ReadFailure>((vs.push(None), e)));
            assert forall|k: int| 0 <= k < i + 1 implies slot_matches(segs[k], #[trigger] vs.push(None)[k]) by {
                if k < i {
                    assert(vs.push(None)[k] == vs[k]);
                }
            }
        },
    }
}

proof fn lemma_slots_roundtrip(segs: Seq<Option<SegmentData>>, post: Seq<u8>, i: nat)
    requires
        segs.len() == SEGMENTS_PER_REGION,
        slots_fit(segs),
        i <= SEGMENTS_PER_REGION,
    ensures
        xp_slots(presence_bytes(segs) + present_segments_bytes(segs) + post, SEGMENTS_PER_REGION as int, i) matches Ok((vs, e))
            && vs.len() == i && e == SEGMENTS_PER_REGION + present_segments_bytes(segs.take(i as int)).len()
            && forall|k: int| 0 <= k < i ==> slot_matches(segs[k], #[trigger] vs[k]),
    decreases i,
{
    if i == 0 {
        assert(segs.take(0) =~= Seq::<Option<SegmentData>>::empty());
    } else {
        lemma_slots_roundtrip(segs, post, (i - 1) as nat);
        lemma_slot_step(segs, post, (i - 1) as nat);
    }
}

proof fn lemma_region_header(version: Version, dim: DimensionType, pv: u16, rest: Seq<u8>)
    ensures
        ({
            let d = region_data_header(version, dim, pv) + rest;
            let n = EXTENSION.spec_bytes().len() as int;
            &&& fits(d, 0, n + 4)
            &&& d.subrange(0, n) == EXTENSION.spec_bytes()
            &&& byte_at(d, n) == version.spec_id()
            &&& byte_at(d, n + 1) == dim.spec_id()
            &&& le_at(d, n + 2, 2) == pv
            &&& d.subrange(n + 4, d.len() as int) == rest
        }),
{
    let d = region_data_header(version, dim, pv) + rest;
    let n = EXTENSION.spec_bytes().len() as int;
    lemma_pow256_values();
    lemma_le_bytes_value(pv as int, 2);
    assert(d.subrange(0, n) =~= EXTENSION.spec_bytes());
    let vb = version.spec_id();
    let db = dim.spec_id();
    lemma_le_bytes_value(vb as int, 1);
    lemma_le_bytes_value(db as int, 1);
    assert(le_bytes(vb as int, 1) =~= seq![vb]) by {
        reveal_with_fuel(le_bytes, 2);
    }
    assert(le_bytes(db as int, 1) =~= seq![db]) by {
        reveal_with_fuel(le_bytes, 2);
    }
    assert(d.subrange(n, n + 1) =~= le_bytes(vb as int, 1));
    assert(d.subrange(n + 1, n + 2) =~= le_bytes(db as int, 1));
    assert(d.subrange(n + 2, n + 4) =~= le_bytes(pv as int, 2));
    assert(d.subrange(n + 4, d.len() as int) =~= rest);
}

proof fn lemma_sections_read_view<const N: usize>(hs: Seq<PackedDeltaData<N>>, v: Seq<Seq<SnapshotView>>)
    requires
        xp_sections_read(hs, v),
    ensures
        xp_sections_view(hs) == v,
{
    assert forall|k: int| 0 <= k < hs.len() implies #[trigger] xp_sections_view(hs)[k] == v[k] by {
        assert(xp_history_read(hs[k], v[k]));
        assert(xp_history_view(hs[k].reverse_deltas@) =~= v[k]);
    }
    assert(xp_sections_view(hs) =~= v);
}

proof fn lemma_same_slot(read: Option<SegmentData>, written: Option<SegmentData>, v: Option<XpSegmentView>)
    requires
        slot_matches(written, v),
        match v {
            None => read is None,
            Some(sv) => read matches Some(s) && segment_data_read(s, sv),
        },
    ensures
        same_slot(read, written),
{
    if let Some(sv) = v {
        let s = read.unwrap();
        let w = written.unwrap();
        lemma_sections_read_view(s.block_sections@, sv.0);
        lemma_sections_read_view(s.biome_sections@, sv.1);
        assert(tile_entities_read(s.tile_entities, sv.3));
        assert(te_lists_match(w.tile_entities.reverse_deltas@, sv.3));
    }
}

/// A region that `serialize_region_data` wrote reads back, through
/// `deserialize_region_data`, as the same region: the same version,
/// dimension and protocol, and slot by slot nothing where it held nothing
/// and a segment with the same data where it held one; the read never
/// fails. This holds for a region of `SEGMENTS_PER_REGION` slots whose
/// segments fit the layout's limits.
pub proof fn law_region_data_roundtrip(data: RegionData, level: i32, r: Result<RegionData, ReadError>)
    requires
        data.segments@.len() == SEGMENTS_PER_REGION,
        slots_fit(data.segments@),
        zstd_decoded(zstd_compressed(region_data_body_bytes(data.segments@), level)) == region_data_body_bytes(data.segments@),
        zstd_decodes(zstd_compressed(region_data_body_bytes(data.segments@), level)),
        region_data_read(
            region_data_header(data.version, data.dimension, data.protocol_version) + zstd_compressed(
                region_data_body_bytes(data.segments@),
                level,
            ),
            r,
        ),
    ensures
        r is Ok,
        r matches Ok(rd) ==> {
            &&& rd.version == data.version
            &&& rd.dimension == data.dimension
            &&& rd.protocol_version == data.protocol_version
            &&& rd.segments@.len() == SEGMENTS_PER_REGION
            &&& forall|k: int| 0 <= k < SEGMENTS_PER_REGION ==> same_slot(#[trigger] rd.segments@[k], data.segments@[k])
        },
{
    let segs = data.segments@;
    let body = region_data_body_bytes(segs);
    let c = zstd_compressed(body, level);
    let d = region_data_header(data.version, data.dimension, data.protocol_version) + c;
    let n = EXTENSION.spec_bytes().len() as int;
    lemma_region_header(data.version, data.dimension, data.protocol_version, c);
    law_version_id_roundtrip(data.version);
    law_dimension_id_roundtrip(data.dimension);
    lemma_presence(segs);
    lemma_slots_roundtrip(segs, Seq::empty(), SEGMENTS_PER_REGION as nat);
    assert(body + Seq::<u8>::empty() =~= body);
    let vs = xp_slots(body, SEGMENTS_PER_REGION as int, SEGMENTS_PER_REGION as nat)->Ok_0.0;
    assert(region_data_body(body) == Ok::<Seq<Option<XpSegmentView>>, ReadFailure>(vs));
    assert(zstd_decoded(d.subrange(n + 4, d.len() as int)) == body);
    if let Ok(rd) = r {
        assert(slots_read(rd.segments@, vs));
        assert forall|k: int| 0 <= k < SEGMENTS_PER_REGION implies same_slot(#[trigger] rd.segments@[k], data.segments@[k]) by {
            assert(slot_matches(segs[k], vs[k]));
            lemma_same_slot(rd.segments@[k], segs[k], vs[k]);
        }
    }
}

/// The changes are ordered by packed position.
pub open spec fn position_sorted(ws: Seq<Change>) -> bool {
    forall|i: int, j: int| 0 <= i < j < ws.len() ==> packed_position(#[trigger] ws[i].0) <= packed_position(#[trigger] ws[j].0)
}

proof fn lemma_insert_sorted(ws: Seq<Change>, c: Change)
    requires
        position_sorted(ws),
    ensures
        position_sorted(insert_by_position(ws, c)),
    decreases ws.len(),
{
    lemma_insert_by_position_elements(ws, c);
    let r = insert_by_position(ws, c);
    if ws.len() == 0 {
    } else if packed_position(ws[0].0) > packed_position(c.0) {
        assert forall|i: int, j: int| 0 <= i < j < r.len() implies packed_position(#[trigger] r[i].0) <= packed_position(
            #[trigger] r[j].0,
        ) by {
            if i == 0 {
                assert(r[j] == ws[j - 1]);
                if j - 1 > 0 {
                    assert(packed_position(ws[0].0) <= packed_position(ws[j - 1].0));
                }
            } else {
                assert(r[i] == ws[i - 1] && r[j] == ws[j - 1]);
            }
        }
    } else {
        let rest = ws.skip(1);
        assert(position_sorted(rest)) by {
            assert forall|i: int, j: int| 0 <= i < j < rest.len() implies packed_position(#[trigger] rest[i].0)
                <= packed_position(#[trigger] rest[j].0) by {
                assert(rest[i] == ws[i + 1] && rest[j] == ws[j + 1]);
            }
        }
        lemma_insert_sorted(rest, c);
        lemma_insert_by_position_elements(rest, c);
        let t = insert_by_position(rest, c);
        assert(r =~= seq![ws[0]] + t);
        assert forall|i: int, j: int| 0 <= i < j < r.len() implies packed_position(#[trigger] r[i].0) <= packed_position(
            #[trigger] r[j].0,
        ) by {
            if i == 0 {
                assert(r[j] == t[j - 1]);
                assert(t.contains(t[j - 1]));
                if rest.contains(t[j - 1]) {
                    let k = choose|k: int| 0 <= k < rest.len() && rest[k] == t[j - 1];
                    assert(rest[k] == ws[k + 1]);
                }
            } else {
                assert(r[i] == t[i - 1] && r[j] == t[j - 1]);
            }
        }
    }
}

proof fn lemma_sort_sorted(cs: Seq<Change>)
    ensures
        position_sorted(sort_by_position(cs)),
    decreases cs.len(),
{
    if cs.len() > 0 {
        lemma_sort_sorted(cs.drop_last());
        lemma_insert_sorted(sort_by_position(cs.drop_last()), cs.last());
    }
}

/// The packed positions of the changes.
pub open spec fn packed_positions(ws: Seq<Change>) -> Seq<u32> {
    Seq::new(ws.len(), |k: int| packed_position(ws[k].0) as u32)
}

/// The types of the placements, in order.
pub open spec fn put_types(ws: Seq<Change>) -> Seq<u32>
    decreases ws.len(),
{
    if ws.len() == 0 {
        Seq::empty()
    } else {
        match ws.last().1 {
            Some((ty, _pos, _nbt)) => put_types(ws.drop_last()).push(ty),
            None => put_types(ws.drop_last()),
        }
    }
}

/// The data lengths of the placements, in order.
pub open spec fn put_lengths(ws: Seq<Change>) -> Seq<u32>
    decreases ws.len(),
{
    if ws.len() == 0 {
        Seq::empty()
    } else {
        match ws.last().1 {
            Some((_ty, _pos, nbt)) => put_lengths(ws.drop_last()).push(nbt.len() as u32),
            None => put_lengths(ws.drop_last()),
        }
    }
}

proof fn lemma_column_positions(pre: Seq<u8>, ws: Seq<Change>, post: Seq<u8>)
    ensures
        column_positions(ws).len() == 4 * ws.len(),
        parse_u32s(pre + column_positions(ws) + post, pre.len() as int, ws.len()) == Ok::<(Seq<u32>, int), ReadFailure>(
            (packed_positions(ws), (pre.len() + 4 * ws.len()) as int),
        ),
    decreases ws.len(),
{
    if ws.len() > 0 {
        let init = ws.drop_last();
        let last = ws.last();
        let k = packed_position(last.0);
        law_position_packing(last.0, 0);
        lemma_pow256_values();
        lemma_le_bytes_value(k, 4);
        let tail = le_bytes(k, 4) + post;
        assert(pre + column_positions(ws) + post =~= pre + column_positions(init) + tail);
        lemma_column_positions(pre, init, tail);
        let d = pre + column_positions(ws) + post;
        let p1 = (pre.len() + 4 * init.len()) as int;
        assert(d.subrange(p1, p1 + 4) =~= le_bytes(k, 4));
        lemma_parse_le(d, p1, k, 4);
        assert(packed_positions(init).push(k as u32) =~= packed_positions(ws));
    } else {
        assert(packed_positions(ws) =~= Seq::<u32>::empty());
    }
}

proof fn lemma_column_ops(ws: Seq<Change>)
    ensures
        column_ops(ws).len() == ws.len(),
        forall|k: int| 0 <= k < ws.len() ==> #[trigger] column_ops(ws)[k] == (if ws[k].1 is Some { 1u8 } else { 0u8 }),
        puts_count(column_ops(ws)) == put_types(ws).len(),
        put_lengths(ws).len() == put_types(ws).len(),
    decreases ws.len(),
{
    if ws.len() > 0 {
        lemma_column_ops(ws.drop_last());
        assert(column_ops(ws).drop_last() =~= column_ops(ws.drop_last()));
        assert forall|k: int| 0 <= k < ws.len() implies #[trigger] column_ops(ws)[k] == (if ws[k].1 is Some { 1u8 } else { 0u8 }) by {
            if k < ws.len() - 1 {
                assert(column_ops(ws)[k] == column_ops(ws.drop_last())[k]);
                assert(ws.drop_last()[k] == ws[k]);
            }
        }
    }
}

proof fn lemma_column_types(pre: Seq<u8>, ws: Seq<Change>, post: Seq<u8>)
    ensures
        column_types(ws).len() == 4 * put_types(ws).len(),
        parse_u32s(pre + column_types(ws) + post, pre.len() as int, put_types(ws).len()) == Ok::<(Seq<u32>, int), ReadFailure>(
            (put_types(ws), (pre.len() + 4 * put_types(ws).len()) as int),
        ),
    decreases ws.len(),
{
    if ws.len() > 0 {
        let init = ws.drop_last();
        match ws.last().1 {
            Some((ty, _pos, _nbt)) => {
                lemma_pow256_values();
                lemma_le_bytes_value(ty as int, 4);
                let tail = le_bytes(ty as int, 4) + post;
                assert(pre + column_types(ws) + post =~= pre + column_types(init) + tail);
                lemma_column_types(pre, init, tail);
                let d = pre + column_types(ws) + post;
                let p1 = (pre.len() + 4 * put_types(init).len()) as int;
                assert(d.subrange(p1, p1 + 4) =~= le_bytes(ty as int, 4));
                lemma_parse_le(d, p1, ty as int, 4);
            },
            None => {
                assert(column_types(ws) == column_types(init));
                lemma_column_types(pre, init, post);
            },
        }
    }
}

proof fn lemma_column_lengths(pre: Seq<u8>, ws: Seq<Change>, post: Seq<u8>)
    requires
        data_fits(ws),
    ensures
        column_lengths(ws).len() == 4 * put_lengths(ws).len(),
        parse_nbt_lengths(pre + column_lengths(ws) + post, pre.len() as int, put_lengths(ws).len()) == Ok::<
            (Seq<u32>, int),
            ReadFailure,
        >((put_lengths(ws), (pre.len() + 4 * put_lengths(ws).len()) as int)),
    decreases ws.len(),
{
    if ws.len() > 0 {
        let init = ws.drop_last();
        assert(data_fits(init)) by {
            assert forall|k: int| 0 <= k < init.len() implies ((#[trigger] init[k]).1 matches Some((_ty, _pos, nbt))
                ==> nbt.len() <= MAX_TILE_ENTITY_NBT_LENGTH) by {
                assert(init[k] == ws[k]);
            }
        }
        assert(ws[ws.len() - 1] == ws.last());
        match ws.last().1 {
            Some((_ty, _pos, nbt)) => {
                let v = nbt.len() as int;
                lemma_pow256_values();
                lemma_le_bytes_value(v, 4);
                let tail = le_bytes(v, 4) + post;
                assert(pre + column_lengths(ws) + post =~= pre + column_lengths(init) + tail);
                lemma_column_lengths(pre, init, tail);
                let d = pre + column_lengths(ws) + post;
                let p1 = (pre.len() + 4 * put_lengths(init).len()) as int;
                assert(d.subrange(p1, p1 + 4) =~= le_bytes(v, 4));
                lemma_parse_le(d, p1, v, 4);
            },
            None => {
                assert(column_lengths(ws) == column_lengths(init));
                lemma_column_lengths(pre, init, post);
            },
        }
    }
}

proof fn lemma_column_prefix(ws: Seq<Change>, i: nat, j: nat)
    requires
        i <= j <= ws.len(),
    ensures
        put_types(ws.take(i as int)).len() <= put_types(ws.take(j as int)).len(),
        put_types(ws.take(j as int)).take(put_types(ws.take(i as int)).len() as int) == put_types(ws.take(i as int)),
        put_lengths(ws.take(i as int)).len() <= put_lengths(ws.take(j as int)).len(),
        put_lengths(ws.take(j as int)).take(put_lengths(ws.take(i as int)).len() as int) == put_lengths(ws.take(i as int)),
        column_data(ws.take(i as int)).len() <= column_data(ws.take(j as int)).len(),
        column_data(ws.take(j as int)).take(column_data(ws.take(i as int)).len() as int) == column_data(ws.take(i as int)),
    decreases j - i,
{
    if j > i {
        lemma_column_prefix(ws, i, (j - 1) as nat);
        assert(ws.take(j as int).drop_last() =~= ws.take(j - 1));
        let a = put_types(ws.take(i as int));
        let b = put_types(ws.take(j - 1));
        let c = put_types(ws.take(j as int));
        assert(c.take(a.len() as int) =~= b.take(a.len() as int));
        let a2 = put_lengths(ws.take(i as int));
        let b2 = put_lengths(ws.take(j - 1));
        let c2 = put_lengths(ws.take(j as int));
        assert(c2.take(a2.len() as int) =~= b2.take(a2.len() as int));
        let a3 = column_data(ws.take(i as int));
        let b3 = column_data(ws.take(j - 1));
        let c3 = column_data(ws.take(j as int));
        assert(c3.take(a3.len() as int) =~= b3.take(a3.len() as int));
    } else {
        assert(put_types(ws.take(i as int)).take(put_types(ws.take(i as int)).len() as int) =~= put_types(ws.take(i as int)));
        assert(put_lengths(ws.take(i as int)).take(put_lengths(ws.take(i as int)).len() as int) =~= put_lengths(ws.take(i as int)));
        assert(column_data(ws.take(i as int)).take(column_data(ws.take(i as int)).len() as int) =~= column_data(ws.take(i as int)));
    }
}

/// Every placement sits at its change's position.
pub open spec fn placed_at_key(ws: Seq<Change>) -> bool {
    forall|k: int| 0 <= k < ws.len() ==> ((#[trigger] ws[k]).1 matches Some((_ty, pos, _nbt)) ==> pos == ws[k].0)
}

#[verifier::spinoff_prover]
#[verifier::rlimit(40)]
proof fn lemma_column_entries(pre: Seq<u8>, ws: Seq<Change>, post: Seq<u8>, i: nat)
    requires
        i <= ws.len(),
        data_fits(ws),
        placed_at_key(ws),
    ensures
        parse_entries(
            pre + column_data(ws) + post,
            pre.len() as int,
            packed_positions(ws),
            column_ops(ws),
            put_types(ws),
            put_lengths(ws),
            i,
        ) == Ok::<(Seq<Change>, int, nat), ReadFailure>(
            (ws.take(i as int), (pre.len() + column_data(ws.take(i as int)).len()) as int, put_types(ws.take(i as int)).len()),
        ),
    decreases i,
{
    let d = pre + column_data(ws) + post;
    let p0 = pre.len() as int;
    if i == 0 {
        assert(ws.take(0) =~= Seq::<Change>::empty());
    } else {
        let k = (i - 1) as int;
        lemma_column_entries(pre, ws, post, (i - 1) as nat);
        lemma_column_ops(ws);
        lemma_column_prefix(ws, i, ws.len());
        lemma_column_prefix(ws, (i - 1) as nat, i);
        assert(ws.take(ws.len() as int) =~= ws);
        assert(ws.take(i as int).drop_last() =~= ws.take(k));
        let c = ws[k];
        law_position_packing(c.0, 0);
        assert(packed_positions(ws)[k] == packed_position(c.0) as u32);
        let j = put_types(ws.take(k)).len();
        let q = p0 + column_data(ws.take(k)).len();
        assert(ws.take(i as int) =~= ws.take(k).push(c));
        match c.1 {
            None => {
                assert(column_ops(ws)[k] == 0u8);
            },
            Some((ty, pos, nbt)) => {
                assert(column_ops(ws)[k] == 1u8);
                assert(put_types(ws.take(i as int)) == put_types(ws.take(k)).push(ty));
                assert(put_lengths(ws.take(i as int)) == put_lengths(ws.take(k)).push(nbt.len() as u32));
                assert(put_lengths(ws.take(k)).len() == j) by {
                    lemma_column_ops(ws.take(k));
                }
                assert(put_types(ws)[j as int] == ty) by {
                    assert(put_types(ws).take((j + 1) as int)[j as int] == ty);
                }
                assert(put_lengths(ws)[j as int] == nbt.len() as u32) by {
                    assert(put_lengths(ws).take((j + 1) as int)[j as int] == nbt.len() as u32);
                }
                assert(nbt.len() <= MAX_TILE_ENTITY_NBT_LENGTH) by {
                    assert(ws[k] == c);
                }
                assert(pos == c.0);
                assert(column_data(ws.take(i as int)) == column_data(ws.take(k)) + nbt);
                let cd = column_data(ws);
                let l0 = column_data(ws.take(k)).len();
                assert(cd.take((l0 + nbt.len()) as int) == column_data(ws.take(k)) + nbt);
                assert(d.subrange(q, q + nbt.len()) =~= nbt) by {
                    assert forall|t: int| 0 <= t < nbt.len() implies #[trigger] d.subrange(q, q + nbt.len())[t] == nbt[t] by {
                        assert(d[q + t] == cd[l0 + t]);
                        assert(cd.take((l0 + nbt.len()) as int)[l0 + t] == nbt[t]);
                    }
                }
            },
        }
    }
}

proof fn lemma_written_order_facts(l: TileEntityListDelta)
    requires
        l.deltas.wf(),
        forall|i: int| 0 <= i < l.deltas.entries().len() ==> change_fits(#[trigger] change_views(l.deltas.entries())[i]),
    ensures
        written_order(l.deltas).len() == l.deltas.entries().len(),
        ascending(packed_positions(written_order(l.deltas))),
        placed_at_key(written_order(l.deltas)),
        changes_map(written_order(l.deltas)) == l.deltas.map(),
{
    let cv = change_views(l.deltas.entries());
    assert(distinct_keys(cv)) by {
        assert forall|i: int, j: int| 0 <= i < j < cv.len() implies #[trigger] cv[i].0 != #[trigger] cv[j].0 by {
            assert(l.deltas.entries()[i].0 != l.deltas.entries()[j].0);
        }
    }
    lemma_sort_elements(cv);
    lemma_sort_sorted(cv);
    let ws = sort_by_position(cv);
    let ps = packed_positions(ws);
    assert forall|i: int| 0 <= i < ps.len() - 1 implies #[trigger] ps[i] < ps[i + 1] by {
        assert(packed_position(ws[i].0) <= packed_position(ws[i + 1].0));
        law_position_packing(ws[i].0, 0);
        law_position_packing(ws[i + 1].0, 0);
        assert(ws[i].0 != ws[i + 1].0);
    }
    assert forall|k: int| 0 <= k < ws.len() implies ((#[trigger] ws[k]).1 matches Some((_ty, pos, _nbt)) ==> pos == ws[k].0) by {
        assert(ws.contains(ws[k]));
        let j = choose|j: int| 0 <= j < cv.len() && cv[j] == ws[k];
        assert(change_fits(cv[j]));
    }
    lemma_changes_map_same_elements(ws, cv);
    lemma_entries_map_is_changes_map(l.deltas.entries());
}

#[verifier::spinoff_prover]
#[verifier::rlimit(60)]
proof fn lemma_column_list(pre: Seq<u8>, l: TileEntityListDelta, post: Seq<u8>)
    requires
        l.deltas.wf(),
        l.deltas.entries().len() <= MAX_TILE_ENTITY_LIST_LENGTH,
        data_fits(written_order(l.deltas)),
        forall|i: int| 0 <= i < l.deltas.entries().len() ==> change_fits(#[trigger] change_views(l.deltas.entries())[i]),
    ensures
        parse_column_list(pre + column_list_bytes(l) + post, pre.len() as int) matches Ok(((ts, cs), e)) && ts
            == l.timestamp && changes_map(cs) == l.deltas.map() && e == pre.len() + column_list_bytes(l).len(),
{
    lemma_written_order_facts(l);
    let ws = written_order(l.deltas);
    let n = ws.len() as int;
    let ts = (l.timestamp as u64) as int;
    lemma_pow256_values();
    lemma_le_bytes_value(ts, 8);
    lemma_le_bytes_value(n, 4);
    lemma_timestamp_roundtrip(l.timestamp);
    lemma_column_ops(ws);
    let h0 = pre + le_bytes(ts, 8) + le_bytes(n, 4);
    let cp = column_positions(ws);
    let co = column_ops(ws);
    let ct = column_types(ws);
    let cl = column_lengths(ws);
    let cd = column_data(ws);
    let d = pre + column_list_bytes(l) + post;
    assert(d =~= h0 + cp + co + ct + cl + cd + post);
    let p0 = pre.len() as int;
    assert(d.subrange(p0, p0 + 8) =~= le_bytes(ts, 8));
    lemma_parse_le(d, p0, ts, 8);
    assert(d.subrange(p0 + 8, p0 + 12) =~= le_bytes(n, 4));
    lemma_parse_le(d, p0 + 8, n, 4);
    assert(d =~= h0 + cp + (co + ct + cl + cd + post));
    lemma_column_positions(h0, ws, co + ct + cl + cd + post);
    let p3 = (h0.len() + cp.len()) as int;
    assert(d.subrange(p3, p3 + n) =~= co);
    assert(!(exists|k: int| 0 <= k < n && #[trigger] d.subrange(p3, p3 + n)[k] > 1));
    assert(d =~= (h0 + cp + co) + ct + (cl + cd + post));
    lemma_column_types(h0 + cp + co, ws, cl + cd + post);
    assert(d =~= (h0 + cp + co + ct) + cl + (cd + post));
    lemma_column_lengths(h0 + cp + co + ct, ws, cd + post);
    assert(d =~= (h0 + cp + co + ct + cl) + cd + post);
    lemma_column_entries(h0 + cp + co + ct + cl, ws, post, ws.len());
    assert(ws.take(ws.len() as int) =~= ws);
    assert(parse_placements(d, p3 + n, packed_positions(ws), co) == Ok::<(Seq<Change>, int), ReadFailure>(
        (ws, ((h0 + cp + co + ct + cl).len() + cd.len()) as int),
    ));
}

/// A block entity history that the column layout writes and reads back as
/// it is: the layout holds it, and every placement sits at its change's
/// position.
pub open spec fn column_roundtrip_fits(ls: Seq<TileEntityListDelta>) -> bool {
    &&& column_fits(ls)
    &&& forall|k: int| 0 <= k < ls.len() ==> {
        &&& (#[trigger] ls[k]).deltas.wf()
        &&& forall|i: int| 0 <= i < ls[k].deltas.entries().len() ==> change_fits(#[trigger] change_views(ls[k].deltas.entries())[i])
    }
}

#[verifier::spinoff_prover]
#[verifier::rlimit(40)]
proof fn lemma_column_lists(pre: Seq<u8>, ls: Seq<TileEntityListDelta>, post: Seq<u8>)
    requires
        column_roundtrip_fits(ls),
    ensures
        parse_column_lists(pre + column_lists_bytes(ls) + post, pre.len() as int, ls.len()) matches Ok((vs, e))
            && e == pre.len() + column_lists_bytes(ls).len() && te_lists_match(ls, vs),
    decreases ls.len(),
{
    if ls.len() > 0 {
        let init = ls.drop_last();
        let last = ls.last();
        assert(column_roundtrip_fits(init)) by {
            assert forall|k: int| 0 <= k < init.len() implies {
                &&& (#[trigger] init[k]).deltas.wf()
                &&& forall|i: int| 0 <= i < init[k].deltas.entries().len() ==> change_fits(#[trigger] change_views(init[k].deltas.entries())[i])
            } by {
                assert(init[k] == ls[k]);
            }
            assert forall|k: int| 0 <= k < init.len() implies (#[trigger] init[k]).deltas.entries().len() <= MAX_TILE_ENTITY_LIST_LENGTH
                && data_fits(written_order(init[k].deltas)) by {
                assert(init[k] == ls[k]);
            }
        }
        assert(ls[ls.len() - 1] == last);
        let tail = column_list_bytes(last) + post;
        assert(pre + column_lists_bytes(ls) + post =~= pre + column_lists_bytes(init) + tail);
        lemma_column_lists(pre, init, tail);
        assert(pre + column_lists_bytes(ls) + post =~= (pre + column_lists_bytes(init)) + column_list_bytes(last) + post);
        lemma_column_list(pre + column_lists_bytes(init), last, post);
        let r = parse_column_lists(pre + column_lists_bytes(ls) + post, pre.len() as int, ls.len());
        let vs = r.unwrap().0;
        assert forall|k: int| 0 <= k < ls.len() implies (#[trigger] vs[k]).0 == ls[k].timestamp && changes_map(vs[k].1)
            == ls[k].deltas.map() by {
            if k < ls.len() - 1 {
                assert(init[k] == ls[k]);
            }
        }
    }
}

/// A block entity history that the column writer wrote reads back, through
/// the column reader, as itself: list by list the same timestamps and the
/// same changes, ending right after it.
pub proof fn law_column_tile_entities_roundtrip(pre: Seq<u8>, ls: Seq<TileEntityListDelta>, post: Seq<u8>)
    requires
        column_roundtrip_fits(ls),
    ensures
        parse_column_tile_entities(pre + column_history_bytes(ls) + post, pre.len() as int) matches Ok((vs, e))
            && e == pre.len() + column_history_bytes(ls).len() && te_lists_match(ls, vs),
{
    lemma_pow256_values();
    let n = ls.len() as int;
    lemma_le_bytes_value(n, 4);
    let d = pre + column_history_bytes(ls) + post;
    assert(d.subrange(pre.len() as int, pre.len() + 4int) =~= le_bytes(n, 4));
    lemma_parse_le(d, pre.len() as int, n, 4);
    assert(d =~= (pre + le_bytes(n, 4)) + column_lists_bytes(ls) + post);
    lemma_column_lists(pre + le_bytes(n, 4), ls, post);
}

} // verus!
