use vstd::prelude::*;

use crate::io::serialize::deserialize::{
    changes_map, packed_view, palette_view, parse_delta_data, parse_palette, parse_palette_table, parse_palettes, parse_region,
    parse_sections, parse_segment, parse_segment_info, parse_slots, parse_snapshots, parse_tile_entities, parse_u16s, parse_uint,
    HistoryView, ReadFailure, SegmentView,
};
use crate::io::serialize::error::{MAX_DELTA_LENGTH, MAX_PACKED_LENGTH, MAX_PALETTE_TABLE_LENGTH, MAX_SEGMENT_STATES_LENGTH};
use crate::io::serialize::primitives::le_bytes;
use crate::io::serialize::serialize::{
    atoms_bytes, history_bytes, index_in, law_packed_snapshot_roundtrip, lemma_index_in_range, lemma_le_bytes_value,
    lemma_parse_le, lemma_pow256_values, palette_table_bytes, palettes_bytes, snapshot_bytes, snapshot_table, snapshots_bytes,
    table_after, TableView, sections_bytes, segment_bytes, slot_bytes, slots_bytes, region_body, segment_writable,
    region_writable, history_fits, law_segment_info_roundtrip, law_tile_entities_roundtrip, states_bytes, te_lists_bytes,
};
use crate::definitions::SEGMENTS_PER_REGION;
use crate::dimension::{law_dimension_id_roundtrip, DimensionType};
use crate::io::compression::{zstd_compressed, zstd_decoded, zstd_decodes};
use crate::io::file_location::EXTENSION;
use crate::io::serialize::deserialize::{byte_at, file_read, fits, history_read, is_zstd_error, le_at, segment_read};
use crate::io::serialize::error::ReadError;
use crate::io::serialize::serialize::{file_header, File};
use crate::version::{law_version_id_roundtrip, ZVCR3D_LATEST_VERSION};
use vstd::string::StringSliceAdditionalSpecFns;
use crate::region::delta::PackedDeltaData;
use crate::region::segment::{Region, Segment};
use std::sync::Arc;
use crate::region::packed_data::{Data, PackedSnapshot};
use crate::region::palette::spec_bits_per_entry;

verus! {

/// A palette that a table writes and reads back as it is: 2 to 256 atoms,
/// with the entry width that their number calls for.
pub open spec fn palette_fits(pv: (Seq<u16>, usize)) -> bool {
    &&& 2 <= pv.0.len() <= 256
    &&& pv.1 == spec_bits_per_entry(pv.0.len() as int)
}

/// Every palette of the table fits.
pub open spec fn table_fits(t: TableView) -> bool {
    forall|i: int| 0 <= i < t.len() ==> palette_fits(#[trigger] t[i])
}

proof fn lemma_atoms_front(vs: Seq<u16>)
    requires
        vs.len() > 0,
    ensures
        atoms_bytes(vs) == le_bytes(vs[0] as int, 2) + atoms_bytes(vs.skip(1)),
    decreases vs.len(),
{
    if vs.len() == 1 {
        assert(vs.drop_last() =~= Seq::<u16>::empty());
        assert(vs.skip(1) =~= Seq::<u16>::empty());
        assert(atoms_bytes(vs) =~= le_bytes(vs[0] as int, 2) + atoms_bytes(vs.skip(1)));
    } else {
        lemma_atoms_front(vs.drop_last());
        assert(vs.skip(1).drop_last() =~= vs.drop_last().skip(1));
        assert(atoms_bytes(vs) =~= le_bytes(vs[0] as int, 2) + atoms_bytes(vs.skip(1)));
    }
}

pub proof fn lemma_atoms_roundtrip(pre: Seq<u8>, vs: Seq<u16>, post: Seq<u8>)
    ensures
        atoms_bytes(vs).len() == 2 * vs.len(),
        parse_u16s(pre + atoms_bytes(vs) + post, pre.len() as int, vs.len()) == Ok::<(Seq<u16>, int), ReadFailure>(
            (vs, (pre.len() + 2 * vs.len()) as int),
        ),
    decreases vs.len(),
{
    lemma_pow256_values();
    if vs.len() > 0 {
        let first = vs[0];
        let rest = vs.skip(1);
        lemma_atoms_front(vs);
        lemma_le_bytes_value(first as int, 2);
        let d = pre + atoms_bytes(vs) + post;
        assert(d =~= pre + le_bytes(first as int, 2) + atoms_bytes(rest) + post);
        assert(d.subrange(pre.len() as int, pre.len() + 2int) =~= le_bytes(first as int, 2));
        lemma_parse_le(d, pre.len() as int, first as int, 2);
        assert(d =~= (pre + le_bytes(first as int, 2)) + atoms_bytes(rest) + post);
        lemma_atoms_roundtrip(pre + le_bytes(first as int, 2), rest, post);
        assert(seq![first] + rest =~= vs);
    } else {
        assert(vs =~= Seq::<u16>::empty());
    }
}

/// One palette as a table writes it.
pub open spec fn palette_bytes(pv: (Seq<u16>, usize)) -> Seq<u8> {
    le_bytes((pv.0.len() as u16) as int, 2) + atoms_bytes(pv.0)
}

proof fn lemma_palette_roundtrip(pre: Seq<u8>, pv: (Seq<u16>, usize), post: Seq<u8>)
    requires
        palette_fits(pv),
    ensures
        palette_bytes(pv).len() == 2 + 2 * pv.0.len(),
        parse_palette(pre + palette_bytes(pv) + post, pre.len() as int) == Ok::<((Seq<u16>, usize), int), ReadFailure>(
            (pv, (pre.len() + palette_bytes(pv).len()) as int),
        ),
{
    lemma_pow256_values();
    let n = pv.0.len() as int;
    lemma_le_bytes_value(n, 2);
    let d = pre + palette_bytes(pv) + post;
    assert(d.subrange(pre.len() as int, pre.len() + 2int) =~= le_bytes(n, 2));
    lemma_parse_le(d, pre.len() as int, n, 2);
    assert(d =~= (pre + le_bytes(n, 2)) + atoms_bytes(pv.0) + post);
    lemma_atoms_roundtrip(pre + le_bytes(n, 2), pv.0, post);
}

proof fn lemma_palettes_roundtrip(pre: Seq<u8>, ps: TableView, post: Seq<u8>, k: nat)
    requires
        table_fits(ps),
        k <= ps.len(),
    ensures
        parse_palettes(pre + palettes_bytes(ps) + post, pre.len() as int, k) == Ok::<(TableView, int), ReadFailure>(
            (ps.take(k as int), (pre.len() + palettes_bytes(ps.take(k as int)).len()) as int),
        ),
    decreases k,
{
    let d = pre + palettes_bytes(ps) + post;
    if k == 0 {
        assert(ps.take(0) =~= Seq::<(Seq<u16>, usize)>::empty());
    } else {
        lemma_palettes_roundtrip(pre, ps, post, (k - 1) as nat);
        lemma_palettes_split(ps, k as int);
        let head = palettes_bytes(ps.take(k - 1));
        let pv = ps[k - 1];
        assert(palette_fits(pv));
        let tail = palettes_bytes(ps.skip(k as int)) + post;
        assert(palettes_bytes(ps.take(k as int)) == head + palette_bytes(pv));
        assert(d =~= (pre + head) + palette_bytes(pv) + tail);
        lemma_palette_roundtrip(pre + head, pv, tail);
        assert(ps.take(k - 1).push(pv) =~= ps.take(k as int));
    }
}

/// Splits the written palettes at `k`.
proof fn lemma_palettes_split(ps: TableView, k: int)
    requires
        0 < k <= ps.len(),
        table_fits(ps),
    ensures
        palettes_bytes(ps.take(k)) == palettes_bytes(ps.take(k - 1)) + palette_bytes(ps[k - 1]),
        palettes_bytes(ps) == palettes_bytes(ps.take(k)) + palettes_bytes(ps.skip(k)),
    decreases ps.len(),
{
    assert(ps.take(k).drop_last() =~= ps.take(k - 1));
    assert(palette_fits(ps[k - 1]));
    if k == ps.len() {
        assert(ps.take(k) =~= ps);
        assert(ps.skip(k) =~= Seq::<(Seq<u16>, usize)>::empty());
        assert(palettes_bytes(ps) =~= palettes_bytes(ps.take(k)) + palettes_bytes(ps.skip(k)));
    } else {
        let q = ps.drop_last();
        assert forall|i: int| 0 <= i < q.len() implies palette_fits(#[trigger] q[i]) by {
            assert(q[i] == ps[i]);
        }
        lemma_palettes_split(q, k);
        assert(q.take(k) =~= ps.take(k));
        assert(q.take(k - 1) =~= ps.take(k - 1));
        assert(ps.skip(k).drop_last() =~= q.skip(k));
        assert(ps.skip(k).last() == ps.last());
        assert(palette_fits(ps.last()));
        assert(palettes_bytes(ps) =~= palettes_bytes(ps.take(k)) + palettes_bytes(ps.skip(k)));
    }
}

/// A written palette table reads back as itself when each palette fits and
/// there are not too many: reading at the start of what
/// `serialize_palette_table` wrote gives the table and ends after it.
pub proof fn law_palette_table_roundtrip(pre: Seq<u8>, t: TableView, post: Seq<u8>)
    requires
        table_fits(t),
        t.len() <= MAX_PALETTE_TABLE_LENGTH,
    ensures
        parse_palette_table(pre + palette_table_bytes(t) + post, pre.len() as int) == Ok::<(TableView, int), ReadFailure>(
            (t, (pre.len() + palette_table_bytes(t).len()) as int),
        ),
{
    lemma_pow256_values();
    let n = t.len() as int;
    assert((n as u32) as int == n);
    lemma_le_bytes_value(n, 4);
    let d = pre + palette_table_bytes(t) + post;
    assert(d.subrange(pre.len() as int, pre.len() + 4int) =~= le_bytes(n, 4));
    lemma_parse_le(d, pre.len() as int, n, 4);
    assert(d =~= (pre + le_bytes(n, 4)) + palettes_bytes(t) + post);
    lemma_palettes_roundtrip(pre + le_bytes(n, 4), t, post, t.len());
    assert(t.take(n) =~= t);
}


/// `a` is the start of `b`.
pub open spec fn extends(b: TableView, a: TableView) -> bool {
    &&& a.len() <= b.len()
    &&& forall|i: int| 0 <= i < a.len() ==> b[i] == a[i]
}

/// A snapshot that is written and read back as it is: at most
/// `MAX_PACKED_LENGTH` longs, a direct palette of 16-bit entries, an
/// indirect palette that fits.
pub open spec fn snapshot_fits<const N: usize>(s: PackedSnapshot<N>) -> bool {
    s.data.data matches Data::Paletted(p) ==> {
        &&& p.packed_long_array@.len() <= MAX_PACKED_LENGTH
        &&& p.palette.palette@.len() == 0 ==> p.palette.bits_per_entry == 16
        &&& p.palette.palette@.len() > 0 ==> palette_fits(palette_view(p.palette))
    }
}

/// A history that is written and read back as it is: at most
/// `MAX_DELTA_LENGTH` snapshots, each fitting.
pub open spec fn delta_history_fits<const N: usize>(ss: Seq<PackedSnapshot<N>>) -> bool {
    &&& ss.len() <= MAX_DELTA_LENGTH
    &&& forall|k: int| 0 <= k < ss.len() ==> snapshot_fits(#[trigger] ss[k])
}

/// A history as a full read gives it back: every snapshot, with its
/// timestamp and packing.
pub open spec fn history_view<const N: usize>(ss: Seq<PackedSnapshot<N>>) -> HistoryView {
    Seq::new(ss.len(), |k: int| Some((ss[k].timestamp, packed_view(ss[k].data))))
}

proof fn lemma_snapshot_table_grows<const N: usize>(s: PackedSnapshot<N>, t: TableView)
    ensures
        extends(snapshot_table(s, t), t),
        table_fits(t) && snapshot_fits(s) ==> table_fits(snapshot_table(s, t)),
        s.data.data matches Data::Paletted(p) ==> (p.palette.palette@.len() > 0 ==> {
            let i = index_in(t, palette_view(p.palette));
            0 <= i < snapshot_table(s, t).len() && snapshot_table(s, t)[i] == palette_view(p.palette)
        }),
{
    if let Data::Paletted(p) = s.data.data {
        if p.palette.palette@.len() > 0 {
            lemma_index_in_range(t, palette_view(p.palette));
        }
    }
}

proof fn lemma_snapshots_table_grows<const N: usize>(ss: Seq<PackedSnapshot<N>>, t: TableView)
    ensures
        extends(snapshots_bytes(ss, t).1, t),
        table_fits(t) && (forall|k: int| 0 <= k < ss.len() ==> snapshot_fits(#[trigger] ss[k])) ==> table_fits(
            snapshots_bytes(ss, t).1,
        ),
    decreases ss.len(),
{
    if ss.len() > 0 {
        let q = ss.drop_last();
        lemma_snapshots_table_grows(q, t);
        lemma_snapshot_table_grows(ss.last(), snapshots_bytes(q, t).1);
        if forall|k: int| 0 <= k < ss.len() ==> snapshot_fits(#[trigger] ss[k]) {
            assert forall|k: int| 0 <= k < q.len() implies snapshot_fits(#[trigger] q[k]) by {
                assert(q[k] == ss[k]);
            }
            assert(snapshot_fits(ss[ss.len() - 1]));
        }
    }
}

/// Writing a history front first: the first snapshot, then the rest from the
/// table it leaves.
proof fn lemma_snapshots_front<const N: usize>(ss: Seq<PackedSnapshot<N>>, t: TableView)
    requires
        ss.len() > 0,
    ensures
        snapshots_bytes(ss, t).0 == snapshot_bytes(ss[0], t) + snapshots_bytes(ss.skip(1), snapshot_table(ss[0], t)).0,
        snapshots_bytes(ss, t).1 == snapshots_bytes(ss.skip(1), snapshot_table(ss[0], t)).1,
    decreases ss.len(),
{
    let t1 = snapshot_table(ss[0], t);
    let e = Seq::<PackedSnapshot<N>>::empty();
    if ss.len() == 1 {
        assert(ss.drop_last() =~= e);
        assert(ss.skip(1) =~= e);
        assert(snapshots_bytes(e, t) == (Seq::<u8>::empty(), t));
        assert(snapshots_bytes(e, t1) == (Seq::<u8>::empty(), t1));
        assert(ss.last() == ss[0]);
        assert(snapshots_bytes(ss, t).0 =~= snapshot_bytes(ss[0], t) + snapshots_bytes(ss.skip(1), t1).0);
    } else {
        let q = ss.drop_last();
        lemma_snapshots_front(q, t);
        assert(q[0] == ss[0]);
        let r = ss.skip(1);
        assert(r.drop_last() =~= q.skip(1));
        assert(r.last() == ss.last());
        let (bq, tq) = snapshots_bytes(q, t);
        let (br, tr) = snapshots_bytes(q.skip(1), t1);
        assert(bq == snapshot_bytes(ss[0], t) + br);
        assert(tq == tr);
        assert(snapshots_bytes(ss, t) == (bq + snapshot_bytes(ss.last(), tq), snapshot_table(ss.last(), tq)));
        assert(snapshots_bytes(r, t1) == (br + snapshot_bytes(ss.last(), tr), snapshot_table(ss.last(), tr)));
        assert(snapshots_bytes(ss, t).0 =~= snapshot_bytes(ss[0], t) + snapshots_bytes(ss.skip(1), t1).0);
    }
}

proof fn lemma_extends_trans(c: TableView, b: TableView, a: TableView)
    requires
        extends(c, b),
        extends(b, a),
    ensures
        extends(c, a),
{
}

#[verifier::spinoff_prover]
#[verifier::rlimit(100)]
proof fn lemma_snapshots_roundtrip<const N: usize>(
    pre: Seq<u8>,
    ss: Seq<PackedSnapshot<N>>,
    t: TableView,
    table: TableView,
    post: Seq<u8>,
    i: nat,
)
    requires
        forall|k: int| 0 <= k < ss.len() ==> snapshot_fits(#[trigger] ss[k]),
        extends(table, snapshots_bytes(ss, t).1),
        table.len() < u32::MAX,
    ensures
        parse_snapshots(pre + snapshots_bytes(ss, t).0 + post, pre.len() as int, table, 0, i, i + ss.len()) == Ok::<
            (HistoryView, int),
            ReadFailure,
        >((history_view(ss), (pre.len() + snapshots_bytes(ss, t).0.len()) as int)),
    decreases ss.len(),
{
    let d = pre + snapshots_bytes(ss, t).0 + post;
    if ss.len() == 0 {
        assert(history_view(ss) =~= Seq::<Option<(i64, (bool, u16, Seq<u64>, Seq<u16>, usize))>>::empty());
    } else {
        let s0 = ss[0];
        let rest = ss.skip(1);
        let t1 = snapshot_table(s0, t);
        let b0 = snapshot_bytes(s0, t);
        let br = snapshots_bytes(rest, t1).0;
        let pre2 = pre + b0;
        lemma_snapshot_step(ss, t, table);
        assert(d == pre + b0 + (br + post)) by {
            lemma_snapshots_front(ss, t);
            assert(d =~= pre + b0 + (br + post));
        }
        law_packed_snapshot_roundtrip(pre, s0, t, table, br + post);
        let v0 = (s0.timestamp, packed_view(s0.data));
        assert(d == pre2 + br + post) by {
            assert(pre + b0 + (br + post) =~= pre2 + br + post);
        }
        lemma_snapshots_roundtrip(pre2, rest, t1, table, post, i + 1);
        let hr = history_view(rest);
        assert(seq![Some(v0)] + hr =~= history_view(ss));
        assert(snapshots_bytes(ss, t).0.len() == b0.len() + br.len()) by {
            lemma_snapshots_front(ss, t);
        }
    }
}

/// What the first snapshot of a history needs from the tables.
proof fn lemma_snapshot_step<const N: usize>(ss: Seq<PackedSnapshot<N>>, t: TableView, table: TableView)
    requires
        ss.len() > 0,
        forall|k: int| 0 <= k < ss.len() ==> snapshot_fits(#[trigger] ss[k]),
        extends(table, snapshots_bytes(ss, t).1),
    ensures
        snapshot_fits(ss[0]),
        forall|k: int| 0 <= k < ss.skip(1).len() ==> snapshot_fits(#[trigger] ss.skip(1)[k]),
        extends(table, snapshots_bytes(ss.skip(1), snapshot_table(ss[0], t)).1),
        ss[0].data.data matches Data::Paletted(p) ==> (p.palette.palette@.len() > 0 ==> {
            let i = index_in(t, palette_view(p.palette));
            i < table.len() && table[i] == palette_view(p.palette)
        }),
{
    let s0 = ss[0];
    let rest = ss.skip(1);
    let t1 = snapshot_table(s0, t);
    lemma_snapshots_front(ss, t);
    lemma_snapshot_table_grows(s0, t);
    lemma_snapshots_table_grows(rest, t1);
    lemma_extends_trans(table, snapshots_bytes(rest, t1).1, t1);
    assert forall|k: int| 0 <= k < rest.len() implies snapshot_fits(#[trigger] rest[k]) by {
        assert(rest[k] == ss[k + 1]);
    }
}

/// A written history reads back as itself: reading, with nothing skipped,
/// at the start of what `serialize_packed_delta_data` wrote from table `t`
/// gives every snapshot, against any table that starts with the table the
/// writing left.
pub proof fn law_history_roundtrip<const N: usize>(
    pre: Seq<u8>,
    ss: Seq<PackedSnapshot<N>>,
    t: TableView,
    table: TableView,
    post: Seq<u8>,
)
    requires
        delta_history_fits(ss),
        extends(table, history_bytes(ss, t).1),
        table.len() < u32::MAX,
    ensures
        parse_delta_data(pre + history_bytes(ss, t).0 + post, pre.len() as int, table, 0) == Ok::<(HistoryView, int), ReadFailure>(
            (history_view(ss), (pre.len() + history_bytes(ss, t).0.len()) as int),
        ),
{
    lemma_pow256_values();
    let n = ss.len() as int;
    lemma_le_bytes_value(n, 8);
    let d = pre + history_bytes(ss, t).0 + post;
    assert(d.subrange(pre.len() as int, pre.len() + 8int) =~= le_bytes(n, 8));
    lemma_parse_le(d, pre.len() as int, n, 8);
    assert(d =~= (pre + le_bytes(n, 8)) + snapshots_bytes(ss, t).0 + post);
    lemma_snapshots_roundtrip(pre + le_bytes(n, 8), ss, t, table, post, 0);
}


/// The first `n` histories of `secs` fit.
pub open spec fn sections_fit<const N: usize>(secs: Seq<PackedDeltaData<N>>, n: nat) -> bool {
    forall|i: int| 0 <= i < n ==> delta_history_fits(#[trigger] secs[i].reverse_deltas@)
}

/// A segment that is written with `sc` sections and read back as it is.
pub open spec fn segment_fits(seg: Segment, sc: nat) -> bool {
    &&& segment_writable(seg, sc)
    &&& sections_fit(seg.block_sections.sections@, sc)
    &&& sections_fit(seg.biome_sections.sections@, sc)
    &&& seg.info.reverse_deltas@.len() <= MAX_SEGMENT_STATES_LENGTH
    &&& history_fits(seg.tile_entities.reverse_deltas@)
}

/// Every segment of the region fits.
pub open spec fn region_fits(region: Region, sc: nat) -> bool {
    &&& region_writable(region, sc)
    &&& forall|i: int| 0 <= i < SEGMENTS_PER_REGION ==> (#[trigger] region.segments@[i] matches Some(seg) ==> segment_fits(*seg, sc))
}

/// The block and biome palette tables that writing the region gathers.
pub open spec fn region_tables(region: Region, sc: nat) -> (TableView, TableView) {
    let (_b, bt, ct) = slots_bytes(region.segments@, SEGMENTS_PER_REGION as nat, sc, Seq::empty(), Seq::empty());
    (bt, ct)
}

/// The histories of the first `n` sections, as a full read gives them back.
pub open spec fn sections_view<const N: usize>(secs: Seq<PackedDeltaData<N>>, n: nat) -> Seq<HistoryView> {
    Seq::new(n, |i: int| history_view(secs[i].reverse_deltas@))
}

/// `v` is what a full read gives back of the segment `seg` written with `sc`
/// sections: each history with every snapshot, the states, and each block
/// entity list with its timestamp and map of changes.
pub open spec fn segment_written(seg: Segment, v: SegmentView, sc: nat) -> bool {
    let tes = seg.tile_entities.reverse_deltas@;
    &&& v.0 == sections_view(seg.block_sections.sections@, sc)
    &&& v.1 == sections_view(seg.biome_sections.sections@, sc)
    &&& v.2 == seg.info.reverse_deltas@
    &&& v.3.len() == tes.len()
    &&& forall|k: int| 0 <= k < tes.len() ==> (#[trigger] v.3[k]).0 == tes[k].timestamp && changes_map(v.3[k].1) == tes[k].deltas.map()
}

proof fn lemma_sections_grow<const N: usize>(secs: Seq<PackedDeltaData<N>>, n: nat, t: TableView)
    ensures
        extends(sections_bytes(secs, n, t).1, t),
        table_fits(t) && sections_fit(secs, n) ==> table_fits(sections_bytes(secs, n, t).1),
    decreases n,
{
    if n > 0 {
        lemma_sections_grow(secs, (n - 1) as nat, t);
        let t1 = sections_bytes(secs, (n - 1) as nat, t).1;
        lemma_snapshots_table_grows(secs[n - 1].reverse_deltas@, t1);
        lemma_extends_trans(sections_bytes(secs, n, t).1, t1, t);
        if sections_fit(secs, n) {
            assert(delta_history_fits(secs[n - 1].reverse_deltas@));
        }
    }
}

proof fn lemma_sections_roundtrip<const N: usize>(
    pre: Seq<u8>,
    secs: Seq<PackedDeltaData<N>>,
    n: nat,
    t: TableView,
    table: TableView,
    post: Seq<u8>,
)
    requires
        n <= secs.len(),
        sections_fit(secs, n),
        extends(table, sections_bytes(secs, n, t).1),
        table.len() < u32::MAX,
    ensures
        parse_sections(pre + sections_bytes(secs, n, t).0 + post, pre.len() as int, table, 0, n) == Ok::<
            (Seq<HistoryView>, int),
            ReadFailure,
        >((sections_view(secs, n), (pre.len() + sections_bytes(secs, n, t).0.len()) as int)),
    decreases n,
{
    if n == 0 {
        assert(sections_view(secs, 0) =~= Seq::<HistoryView>::empty());
    } else {
        let (b, t1) = sections_bytes(secs, (n - 1) as nat, t);
        let ss = secs[n - 1].reverse_deltas@;
        let (b2, t2) = history_bytes(ss, t1);
        let d = pre + sections_bytes(secs, n, t).0 + post;
        assert(d =~= pre + b + (b2 + post));
        lemma_snapshots_table_grows(ss, t1);
        lemma_extends_trans(table, t2, t1);
        lemma_sections_roundtrip(pre, secs, (n - 1) as nat, t, table, b2 + post);
        assert(d =~= (pre + b) + b2 + post);
        assert(delta_history_fits(ss));
        law_history_roundtrip(pre + b, ss, t1, table, post);
        assert(sections_view(secs, (n - 1) as nat).push(history_view(ss)) =~= sections_view(secs, n));
    }
}

proof fn lemma_segment_grow(seg: Segment, sc: nat, bt: TableView, ct: TableView)
    ensures
        extends(segment_bytes(seg, sc, bt, ct).1, bt),
        extends(segment_bytes(seg, sc, bt, ct).2, ct),
        table_fits(bt) && table_fits(ct) && segment_fits(seg, sc) ==> table_fits(segment_bytes(seg, sc, bt, ct).1) && table_fits(
            segment_bytes(seg, sc, bt, ct).2,
        ),
{
    lemma_sections_grow(seg.block_sections.sections@, sc, bt);
    lemma_sections_grow(seg.biome_sections.sections@, sc, ct);
}

/// The four parts of a written segment, one after another.
proof fn lemma_segment_parts(seg: Segment, sc: nat, bt: TableView, ct: TableView)
    ensures
        segment_bytes(seg, sc, bt, ct).0 == sections_bytes(seg.block_sections.sections@, sc, bt).0 + sections_bytes(
            seg.biome_sections.sections@,
            sc,
            ct,
        ).0 + (le_bytes(seg.info.reverse_deltas@.len() as int, 8) + states_bytes(seg.info.reverse_deltas@)) + (le_bytes(
            seg.tile_entities.reverse_deltas@.len() as int,
            8,
        ) + te_lists_bytes(seg.tile_entities.reverse_deltas@)),
        segment_bytes(seg, sc, bt, ct).1 == sections_bytes(seg.block_sections.sections@, sc, bt).1,
        segment_bytes(seg, sc, bt, ct).2 == sections_bytes(seg.biome_sections.sections@, sc, ct).1,
{
    let info = seg.info.reverse_deltas@;
    let tes = seg.tile_entities.reverse_deltas@;
    let b1 = sections_bytes(seg.block_sections.sections@, sc, bt).0;
    let b2 = sections_bytes(seg.biome_sections.sections@, sc, ct).0;
    assert(segment_bytes(seg, sc, bt, ct).0 =~= b1 + b2 + (le_bytes(info.len() as int, 8) + states_bytes(info)) + (le_bytes(
        tes.len() as int,
        8,
    ) + te_lists_bytes(tes)));
}

proof fn lemma_info_part(pre: Seq<u8>, info: Seq<crate::region::segment_info::SegmentState>, post: Seq<u8>)
    requires
        info.len() <= MAX_SEGMENT_STATES_LENGTH,
    ensures
        parse_segment_info(pre + (le_bytes(info.len() as int, 8) + states_bytes(info)) + post, pre.len() as int) == Ok::<
            (Seq<crate::region::segment_info::SegmentState>, int),
            ReadFailure,
        >((info, (pre.len() + (le_bytes(info.len() as int, 8) + states_bytes(info)).len()) as int)),
{
    assert(pre + (le_bytes(info.len() as int, 8) + states_bytes(info)) + post =~= pre + le_bytes(info.len() as int, 8)
        + states_bytes(info) + post);
    law_segment_info_roundtrip(pre, info, post);
    crate::io::serialize::serialize::lemma_states_bytes_len(info);
    lemma_pow256_values();
    lemma_le_bytes_value(info.len() as int, 8);
}

proof fn lemma_tile_entities_part(pre: Seq<u8>, tes: Seq<crate::region::tile_entities::TileEntityListDelta>, post: Seq<u8>)
    requires
        history_fits(tes),
    ensures
        parse_tile_entities(pre + (le_bytes(tes.len() as int, 8) + te_lists_bytes(tes)) + post, pre.len() as int) matches Ok(
            (vs, e),
        ) && vs.len() == tes.len() && e == pre.len() + (le_bytes(tes.len() as int, 8) + te_lists_bytes(tes)).len() && forall|k: int|
            0 <= k < tes.len() ==> (#[trigger] vs[k]).0 == tes[k].timestamp && changes_map(vs[k].1) == tes[k].deltas.map(),
{
    assert(pre + (le_bytes(tes.len() as int, 8) + te_lists_bytes(tes)) + post =~= pre + le_bytes(tes.len() as int, 8)
        + te_lists_bytes(tes) + post);
    law_tile_entities_roundtrip(pre, tes, post);
    lemma_pow256_values();
    lemma_le_bytes_value(tes.len() as int, 8);
}

/// The block histories of a written segment read back.
proof fn lemma_segment_blocks(pre: Seq<u8>, seg: Segment, sc: nat, bt: TableView, ct: TableView, btable: TableView, post: Seq<u8>)
    requires
        sc <= seg.block_sections.sections@.len(),
        sections_fit(seg.block_sections.sections@, sc),
        extends(btable, sections_bytes(seg.block_sections.sections@, sc, bt).1),
        btable.len() < u32::MAX,
    ensures
        parse_sections(pre + segment_bytes(seg, sc, bt, ct).0 + post, pre.len() as int, btable, 0, sc) == Ok::<
            (Seq<HistoryView>, int),
            ReadFailure,
        >((sections_view(seg.block_sections.sections@, sc), (pre.len() + sections_bytes(seg.block_sections.sections@, sc, bt).0.len()) as int)),
{
    lemma_segment_parts(seg, sc, bt, ct);
    let b1 = sections_bytes(seg.block_sections.sections@, sc, bt).0;
    let rest = segment_bytes(seg, sc, bt, ct).0.skip(b1.len() as int);
    assert(segment_bytes(seg, sc, bt, ct).0 =~= b1 + rest);
    assert(pre + segment_bytes(seg, sc, bt, ct).0 + post =~= pre + b1 + (rest + post));
    lemma_sections_roundtrip(pre, seg.block_sections.sections@, sc, bt, btable, rest + post);
}

/// The biome histories of a written segment read back.
proof fn lemma_segment_biomes(pre: Seq<u8>, seg: Segment, sc: nat, bt: TableView, ct: TableView, ctable: TableView, post: Seq<u8>)
    requires
        sc <= seg.biome_sections.sections@.len(),
        sections_fit(seg.biome_sections.sections@, sc),
        extends(ctable, sections_bytes(seg.biome_sections.sections@, sc, ct).1),
        ctable.len() < u32::MAX,
    ensures
        ({
            let b1 = sections_bytes(seg.block_sections.sections@, sc, bt).0;
            let b2 = sections_bytes(seg.biome_sections.sections@, sc, ct).0;
            parse_sections(pre + segment_bytes(seg, sc, bt, ct).0 + post, (pre.len() + b1.len()) as int, ctable, 0, sc) == Ok::<
                (Seq<HistoryView>, int),
                ReadFailure,
            >((sections_view(seg.biome_sections.sections@, sc), (pre.len() + b1.len() + b2.len()) as int))
        }),
{
    lemma_segment_parts(seg, sc, bt, ct);
    let b1 = sections_bytes(seg.block_sections.sections@, sc, bt).0;
    let b2 = sections_bytes(seg.biome_sections.sections@, sc, ct).0;
    let rest = segment_bytes(seg, sc, bt, ct).0.skip((b1.len() + b2.len()) as int);
    assert(segment_bytes(seg, sc, bt, ct).0 =~= b1 + b2 + rest);
    assert(pre + segment_bytes(seg, sc, bt, ct).0 + post =~= (pre + b1) + b2 + (rest + post));
    lemma_sections_roundtrip(pre + b1, seg.biome_sections.sections@, sc, ct, ctable, rest + post);
}

/// The states of a written segment read back.
proof fn lemma_segment_states(pre: Seq<u8>, seg: Segment, sc: nat, bt: TableView, ct: TableView, post: Seq<u8>)
    requires
        seg.info.reverse_deltas@.len() <= MAX_SEGMENT_STATES_LENGTH,
    ensures
        ({
            let b1 = sections_bytes(seg.block_sections.sections@, sc, bt).0;
            let b2 = sections_bytes(seg.biome_sections.sections@, sc, ct).0;
            let info = seg.info.reverse_deltas@;
            let b3 = le_bytes(info.len() as int, 8) + states_bytes(info);
            parse_segment_info(pre + segment_bytes(seg, sc, bt, ct).0 + post, (pre.len() + b1.len() + b2.len()) as int) == Ok::<
                (Seq<crate::region::segment_info::SegmentState>, int),
                ReadFailure,
            >((info, (pre.len() + b1.len() + b2.len() + b3.len()) as int))
        }),
{
    lemma_segment_parts(seg, sc, bt, ct);
    let b1 = sections_bytes(seg.block_sections.sections@, sc, bt).0;
    let b2 = sections_bytes(seg.biome_sections.sections@, sc, ct).0;
    let info = seg.info.reverse_deltas@;
    let b3 = le_bytes(info.len() as int, 8) + states_bytes(info);
    let rest = segment_bytes(seg, sc, bt, ct).0.skip((b1.len() + b2.len() + b3.len()) as int);
    assert(segment_bytes(seg, sc, bt, ct).0 =~= b1 + b2 + b3 + rest);
    assert(pre + segment_bytes(seg, sc, bt, ct).0 + post =~= (pre + b1 + b2) + b3 + (rest + post));
    lemma_info_part(pre + b1 + b2, info, rest + post);
}

/// The block entity history of a written segment reads back.
proof fn lemma_segment_tile_entities(pre: Seq<u8>, seg: Segment, sc: nat, bt: TableView, ct: TableView, post: Seq<u8>)
    requires
        history_fits(seg.tile_entities.reverse_deltas@),
    ensures
        ({
            let b1 = sections_bytes(seg.block_sections.sections@, sc, bt).0;
            let b2 = sections_bytes(seg.biome_sections.sections@, sc, ct).0;
            let info = seg.info.reverse_deltas@;
            let b3 = le_bytes(info.len() as int, 8) + states_bytes(info);
            let tes = seg.tile_entities.reverse_deltas@;
            parse_tile_entities(pre + segment_bytes(seg, sc, bt, ct).0 + post, (pre.len() + b1.len() + b2.len() + b3.len()) as int) matches Ok(
                (vs, e),
            ) && vs.len() == tes.len() && e == pre.len() + segment_bytes(seg, sc, bt, ct).0.len() && forall|k: int|
                0 <= k < tes.len() ==> (#[trigger] vs[k]).0 == tes[k].timestamp && changes_map(vs[k].1) == tes[k].deltas.map()
        }),
{
    lemma_segment_parts(seg, sc, bt, ct);
    let b1 = sections_bytes(seg.block_sections.sections@, sc, bt).0;
    let b2 = sections_bytes(seg.biome_sections.sections@, sc, ct).0;
    let info = seg.info.reverse_deltas@;
    let b3 = le_bytes(info.len() as int, 8) + states_bytes(info);
    let tes = seg.tile_entities.reverse_deltas@;
    let b4 = le_bytes(tes.len() as int, 8) + te_lists_bytes(tes);
    assert(pre + segment_bytes(seg, sc, bt, ct).0 + post =~= (pre + b1 + b2 + b3) + b4 + post);
    lemma_tile_entities_part(pre + b1 + b2 + b3, tes, post);
}

#[verifier::spinoff_prover]
proof fn lemma_segment_roundtrip(
    pre: Seq<u8>,
    seg: Segment,
    sc: nat,
    bt: TableView,
    ct: TableView,
    btable: TableView,
    ctable: TableView,
    post: Seq<u8>,
)
    requires
        segment_fits(seg, sc),
        extends(btable, segment_bytes(seg, sc, bt, ct).1),
        extends(ctable, segment_bytes(seg, sc, bt, ct).2),
        btable.len() < u32::MAX,
        ctable.len() < u32::MAX,
    ensures
        parse_segment(pre + segment_bytes(seg, sc, bt, ct).0 + post, pre.len() as int, btable, ctable, 0, sc) matches Ok((v, e))
            && segment_written(seg, v, sc) && e == pre.len() + segment_bytes(seg, sc, bt, ct).0.len(),
{
    lemma_segment_parts(seg, sc, bt, ct);
    lemma_segment_blocks(pre, seg, sc, bt, ct, btable, post);
    lemma_segment_biomes(pre, seg, sc, bt, ct, ctable, post);
    lemma_segment_states(pre, seg, sc, bt, ct, post);
    lemma_segment_tile_entities(pre, seg, sc, bt, ct, post);
}


/// The segment of a full slot.
pub open spec fn slot_segment(slot: Option<Arc<Segment>>) -> Segment {
    *slot.unwrap()
}

/// A slot's segment, if any, fits.
pub open spec fn slot_fits(slot: Option<Arc<Segment>>, sc: nat) -> bool {
    slot is Some ==> segment_fits(slot_segment(slot), sc)
}

/// `v` is what a full read gives back of the slot `slot`: nothing for an
/// empty slot, the segment as written for a full one.
pub open spec fn slot_written(slot: Option<Arc<Segment>>, v: Option<SegmentView>, sc: nat) -> bool {
    &&& slot is None <==> v is None
    &&& slot is Some ==> segment_written(slot_segment(slot), v.unwrap(), sc)
}

proof fn lemma_slot_parts(slot: Option<Arc<Segment>>, sc: nat, bt: TableView, ct: TableView)
    ensures
        slot is None ==> slot_bytes(slot, sc, bt, ct) == (seq![0u8], bt, ct),
        slot is Some ==> {
            let (b, bt1, ct1) = segment_bytes(slot_segment(slot), sc, bt, ct);
            slot_bytes(slot, sc, bt, ct) == (seq![1u8] + b, bt1, ct1)
        },
{
}

proof fn lemma_slots_grow(slots: Seq<Option<Arc<Segment>>>, n: nat, sc: nat, bt: TableView, ct: TableView)
    requires
        n <= slots.len(),
    ensures
        extends(slots_bytes(slots, n, sc, bt, ct).1, bt),
        extends(slots_bytes(slots, n, sc, bt, ct).2, ct),
        table_fits(bt) && table_fits(ct) && (forall|i: int| 0 <= i < n ==> slot_fits(#[trigger] slots[i], sc)) ==> table_fits(
            slots_bytes(slots, n, sc, bt, ct).1,
        ) && table_fits(slots_bytes(slots, n, sc, bt, ct).2),
    decreases n,
{
    if n > 0 {
        lemma_slots_grow(slots, (n - 1) as nat, sc, bt, ct);
        let (_b, bt1, ct1) = slots_bytes(slots, (n - 1) as nat, sc, bt, ct);
        let slot = slots[n - 1];
        lemma_slot_parts(slot, sc, bt1, ct1);
        if slot is Some {
            lemma_segment_grow(slot_segment(slot), sc, bt1, ct1);
        }
        let (_b2, bt2, ct2) = slots_bytes(slots, n, sc, bt, ct);
        lemma_extends_trans(bt2, bt1, bt);
        lemma_extends_trans(ct2, ct1, ct);
        if forall|i: int| 0 <= i < n ==> slot_fits(#[trigger] slots[i], sc) {
            assert(slot_fits(slots[n - 1], sc));
        }
    }
}

proof fn lemma_slot_roundtrip(
    pre: Seq<u8>,
    slot: Option<Arc<Segment>>,
    sc: nat,
    bt: TableView,
    ct: TableView,
    btable: TableView,
    ctable: TableView,
    post: Seq<u8>,
)
    requires
        slot_fits(slot, sc),
        extends(btable, slot_bytes(slot, sc, bt, ct).1),
        extends(ctable, slot_bytes(slot, sc, bt, ct).2),
        btable.len() < u32::MAX,
        ctable.len() < u32::MAX,
    ensures
        ({
            let d = pre + slot_bytes(slot, sc, bt, ct).0 + post;
            let p0 = pre.len() as int;
            &&& parse_uint(d, p0, 1) matches Ok((ind, p1)) && p1 == p0 + 1 && (ind == 0 <==> slot is None)
            &&& slot is Some ==> (parse_segment(d, p0 + 1, btable, ctable, 0, sc) matches Ok((v, e)) && segment_written(
                slot_segment(slot),
                v,
                sc,
            ) && e == pre.len() + slot_bytes(slot, sc, bt, ct).0.len())
            &&& slot is None ==> slot_bytes(slot, sc, bt, ct).0.len() == 1
        }),
{
    lemma_slot_parts(slot, sc, bt, ct);
    lemma_pow256_values();
    let d = pre + slot_bytes(slot, sc, bt, ct).0 + post;
    let p0 = pre.len() as int;
    if slot is None {
        lemma_le_bytes_value(0, 1);
        assert(le_bytes(0, 1) =~= seq![0u8]) by {
            reveal_with_fuel(le_bytes, 2);
        }
        assert(d.subrange(p0, p0 + 1) =~= le_bytes(0, 1));
        lemma_parse_le(d, p0, 0, 1);
    } else {
        let seg = slot_segment(slot);
        let b = segment_bytes(seg, sc, bt, ct).0;
        lemma_le_bytes_value(1, 1);
        assert(le_bytes(1, 1) =~= seq![1u8]) by {
            reveal_with_fuel(le_bytes, 2);
        }
        assert(d.subrange(p0, p0 + 1) =~= le_bytes(1, 1));
        lemma_parse_le(d, p0, 1, 1);
        assert(d =~= (pre + seq![1u8]) + b + post);
        lemma_segment_roundtrip(pre + seq![1u8], seg, sc, bt, ct, btable, ctable, post);
    }
}

/// One more slot read after `n - 1` of them.
proof fn lemma_slots_step(
    d: Seq<u8>,
    p0: int,
    btable: TableView,
    ctable: TableView,
    sc: nat,
    n: nat,
    slots: Seq<Option<Arc<Segment>>>,
    vs: Seq<Option<SegmentView>>,
    p1: int,
    end: int,
)
    requires
        0 < n <= slots.len(),
        parse_slots(d, p0, btable, ctable, 0, sc, (n - 1) as nat) == Ok::<(Seq<Option<SegmentView>>, int), ReadFailure>((vs, p1)),
        vs.len() == n - 1,
        forall|i: int| 0 <= i < n - 1 ==> slot_written(slots[i], #[trigger] vs[i], sc),
        parse_uint(d, p1, 1) matches Ok((ind, q)) && q == p1 + 1 && (ind == 0 <==> slots[n - 1] is None),
        slots[n - 1] is Some ==> (parse_segment(d, p1 + 1, btable, ctable, 0, sc) matches Ok((v, e)) && segment_written(
            slot_segment(slots[n - 1]),
            v,
            sc,
        ) && e == end),
        slots[n - 1] is None ==> end == p1 + 1,
    ensures
        parse_slots(d, p0, btable, ctable, 0, sc, n) matches Ok((vs2, e)) && e == end && vs2.len() == n && forall|i: int|
            0 <= i < n ==> slot_written(slots[i], #[trigger] vs2[i], sc),
{
    if slots[n - 1] is Some {
        let v = parse_segment(d, p1 + 1, btable, ctable, 0, sc)->Ok_0.0;
        assert forall|i: int| 0 <= i < n implies slot_written(slots[i], #[trigger] vs.push(Some(v))[i], sc) by {
            if i < n - 1 {
                assert(vs.push(Some(v))[i] == vs[i]);
            }
        }
    } else {
        assert forall|i: int| 0 <= i < n implies slot_written(slots[i], #[trigger] vs.push(None)[i], sc) by {
            if i < n - 1 {
                assert(vs.push(None)[i] == vs[i]);
            }
        }
    }
}

#[verifier::spinoff_prover]
proof fn lemma_slots_roundtrip(
    pre: Seq<u8>,
    slots: Seq<Option<Arc<Segment>>>,
    n: nat,
    sc: nat,
    bt: TableView,
    ct: TableView,
    btable: TableView,
    ctable: TableView,
    post: Seq<u8>,
)
    requires
        n <= slots.len(),
        forall|i: int| 0 <= i < n ==> slot_fits(#[trigger] slots[i], sc),
        extends(btable, slots_bytes(slots, n, sc, bt, ct).1),
        extends(ctable, slots_bytes(slots, n, sc, bt, ct).2),
        btable.len() < u32::MAX,
        ctable.len() < u32::MAX,
    ensures
        parse_slots(pre + slots_bytes(slots, n, sc, bt, ct).0 + post, pre.len() as int, btable, ctable, 0, sc, n) matches Ok(
            (vs, e),
        ) && e == pre.len() + slots_bytes(slots, n, sc, bt, ct).0.len() && vs.len() == n && forall|i: int|
            0 <= i < n ==> slot_written(slots[i], #[trigger] vs[i], sc),
    decreases n,
{
    if n > 0 {
        let b = slots_bytes(slots, (n - 1) as nat, sc, bt, ct).0;
        let bt1 = slots_bytes(slots, (n - 1) as nat, sc, bt, ct).1;
        let ct1 = slots_bytes(slots, (n - 1) as nat, sc, bt, ct).2;
        let slot = slots[n - 1];
        let b2 = slot_bytes(slot, sc, bt1, ct1).0;
        let whole = slots_bytes(slots, n, sc, bt, ct).0;
        assert(whole == b + b2 && slots_bytes(slots, n, sc, bt, ct).1 == slot_bytes(slot, sc, bt1, ct1).1
            && slots_bytes(slots, n, sc, bt, ct).2 == slot_bytes(slot, sc, bt1, ct1).2);
        assert(extends(btable, bt1) && extends(ctable, ct1)) by {
            lemma_slot_parts(slot, sc, bt1, ct1);
            if slot is Some {
                lemma_segment_grow(slot_segment(slot), sc, bt1, ct1);
            }
            lemma_extends_trans(btable, slot_bytes(slot, sc, bt1, ct1).1, bt1);
            lemma_extends_trans(ctable, slot_bytes(slot, sc, bt1, ct1).2, ct1);
        }
        let d = pre + whole + post;
        let p0 = pre.len() as int;
        let p1 = p0 + b.len();
        assert(parse_slots(d, p0, btable, ctable, 0, sc, (n - 1) as nat) matches Ok((vs, e)) && e == p1 && vs.len() == n - 1
            && forall|i: int| 0 <= i < n - 1 ==> slot_written(slots[i], #[trigger] vs[i], sc)) by {
            assert(d =~= pre + b + (b2 + post));
            lemma_slots_roundtrip(pre, slots, (n - 1) as nat, sc, bt, ct, btable, ctable, b2 + post);
        }
        let vs = parse_slots(d, p0, btable, ctable, 0, sc, (n - 1) as nat)->Ok_0.0;
        let end = p1 + b2.len();
        assert(slot_fits(slots[n - 1], sc));
        assert(d == (pre + b) + b2 + post) by {
            assert(d =~= (pre + b) + b2 + post);
        }
        lemma_slot_roundtrip(pre + b, slot, sc, bt1, ct1, btable, ctable, post);
        lemma_slots_step(d, p0, btable, ctable, sc, n, slots, vs, p1, end);
    }
}

/// A written region body reads back as the region: reading, with nothing
/// skipped, what `serialize_region` compressed gives the two palette tables
/// that writing gathered, and for every slot nothing where the region has
/// no segment and the segment as written where it has one (each history with
/// every snapshot, the states, each block entity list with its timestamp and
/// map of changes), and ends at the end. This holds where every segment
/// fits and the tables stay within `MAX_PALETTE_TABLE_LENGTH`.
pub proof fn law_region_roundtrip(region: Region, sc: nat)
    requires
        region_fits(region, sc),
        region_tables(region, sc).0.len() <= MAX_PALETTE_TABLE_LENGTH,
        region_tables(region, sc).1.len() <= MAX_PALETTE_TABLE_LENGTH,
    ensures
        parse_region(region_body(region, sc), 0, 0, sc) matches Ok(((bt, ct, slots), e)) && bt == region_tables(region, sc).0
            && ct == region_tables(region, sc).1 && e == region_body(region, sc).len() && slots.len() == SEGMENTS_PER_REGION
            && forall|i: int| 0 <= i < SEGMENTS_PER_REGION ==> slot_written(region.segments@[i], #[trigger] slots[i], sc),
{
    let segs = region.segments@;
    let n = SEGMENTS_PER_REGION as nat;
    let empty = Seq::<(Seq<u16>, usize)>::empty();
    let (b, bt, ct) = slots_bytes(segs, n, sc, empty, empty);
    assert forall|i: int| 0 <= i < n implies slot_fits(#[trigger] segs[i], sc) by {
        assert(segs[i] matches Some(seg) ==> segment_fits(*seg, sc));
    }
    lemma_slots_grow(segs, n, sc, empty, empty);
    let body = region_body(region, sc);
    let tb = palette_table_bytes(bt);
    let tc = palette_table_bytes(ct);
    assert(body == tb + tc + b);
    assert(body =~= Seq::<u8>::empty() + tb + (tc + b));
    law_palette_table_roundtrip(Seq::empty(), bt, tc + b);
    assert(body =~= tb + tc + (b + Seq::<u8>::empty()));
    law_palette_table_roundtrip(tb, ct, b);
    assert(body =~= (tb + tc) + b + Seq::<u8>::empty());
    assert(extends(bt, bt));
    assert(extends(ct, ct));
    lemma_slots_roundtrip(tb + tc, segs, n, sc, empty, empty, bt, ct, Seq::empty());
}


/// Two histories hold the same snapshots: the same timestamps and packings.
pub open spec fn same_history<const N: usize>(a: PackedDeltaData<N>, b: PackedDeltaData<N>) -> bool {
    &&& a.reverse_deltas@.len() == b.reverse_deltas@.len()
    &&& forall|k: int| 0 <= k < a.reverse_deltas@.len() ==> {
        &&& (#[trigger] a.reverse_deltas@[k]).timestamp == b.reverse_deltas@[k].timestamp
        &&& packed_view(a.reverse_deltas@[k].data) == packed_view(b.reverse_deltas@[k].data)
    }
}

/// The segment `read` holds what the segment `written` held, for `sc`
/// sections: the same histories, states, and block entity lists (timestamps
/// and maps of changes).
pub open spec fn same_segment(read: Segment, written: Segment, sc: nat) -> bool {
    let rt = read.tile_entities.reverse_deltas@;
    let wt = written.tile_entities.reverse_deltas@;
    &&& read.section_count == sc
    &&& forall|i: int| 0 <= i < sc ==> same_history(#[trigger] read.block_sections.sections@[i], written.block_sections.sections@[i])
    &&& forall|i: int| 0 <= i < sc ==> same_history(#[trigger] read.biome_sections.sections@[i], written.biome_sections.sections@[i])
    &&& read.info.reverse_deltas@ == written.info.reverse_deltas@
    &&& rt.len() == wt.len()
    &&& forall|k: int| 0 <= k < rt.len() ==> (#[trigger] rt[k]).timestamp == wt[k].timestamp && rt[k].deltas.map() == wt[k].deltas.map()
}

proof fn lemma_same_segment(read: Segment, written: Segment, v: SegmentView, sc: nat)
    requires
        segment_read(read, v, sc),
        segment_written(written, v, sc),
        sc <= written.block_sections.sections@.len(),
        sc <= written.biome_sections.sections@.len(),
    ensures
        same_segment(read, written, sc),
{
    assert forall|i: int| 0 <= i < sc implies same_history(#[trigger] read.block_sections.sections@[i], written.block_sections.sections@[i]) by {
        let h = read.block_sections.sections@[i];
        let w = written.block_sections.sections@[i];
        assert(history_read(h, v.0[i]));
        assert(v.0[i] == history_view(w.reverse_deltas@));
        assert forall|k: int| 0 <= k < h.reverse_deltas@.len() implies {
            &&& (#[trigger] h.reverse_deltas@[k]).timestamp == w.reverse_deltas@[k].timestamp
            &&& packed_view(h.reverse_deltas@[k].data) == packed_view(w.reverse_deltas@[k].data)
        } by {
            assert(v.0[i][k] == Some((w.reverse_deltas@[k].timestamp, packed_view(w.reverse_deltas@[k].data))));
        }
    }
    assert forall|i: int| 0 <= i < sc implies same_history(#[trigger] read.biome_sections.sections@[i], written.biome_sections.sections@[i]) by {
        let h = read.biome_sections.sections@[i];
        let w = written.biome_sections.sections@[i];
        assert(history_read(h, v.1[i]));
        assert(v.1[i] == history_view(w.reverse_deltas@));
        assert forall|k: int| 0 <= k < h.reverse_deltas@.len() implies {
            &&& (#[trigger] h.reverse_deltas@[k]).timestamp == w.reverse_deltas@[k].timestamp
            &&& packed_view(h.reverse_deltas@[k].data) == packed_view(w.reverse_deltas@[k].data)
        } by {
            assert(v.1[i][k] == Some((w.reverse_deltas@[k].timestamp, packed_view(w.reverse_deltas@[k].data))));
        }
    }
}

proof fn lemma_header_fields(dim: DimensionType, pv: u16, rest: Seq<u8>)
    ensures
        ({
            let d = file_header(dim, pv) + rest;
            let n = EXTENSION.spec_bytes().len() as int;
            &&& fits(d, 0, n + 4)
            &&& d.subrange(0, n) == EXTENSION.spec_bytes()
            &&& byte_at(d, n) == ZVCR3D_LATEST_VERSION.spec_id()
            &&& byte_at(d, n + 1) == dim.spec_id()
            &&& le_at(d, n + 2, 2) == pv
            &&& d.subrange(n + 4, d.len() as int) == rest
        }),
{
    let d = file_header(dim, pv) + rest;
    let n = EXTENSION.spec_bytes().len() as int;
    lemma_pow256_values();
    lemma_le_bytes_value(pv as int, 2);
    assert(d.subrange(0, n) =~= EXTENSION.spec_bytes());
    let vb = ZVCR3D_LATEST_VERSION.spec_id();
    let db = dim.spec_id();
    lemma_le_bytes_value(vb as int, 1);
    lemma_le_bytes_value(db as int, 1);
    assert(le_bytes(vb as int, 1) =~= seq![vb]) by {
        reveal_with_fuel(le_bytes, 2);
    }
    assert(le_bytes(db as int, 1) =~= seq![db]) by {
        reveal_with_fuel(le_bytes, 2);
    }
    assert(d.subrange(n, n + 1) =~= le_bytes(vb as int, 1));
    assert(d.subrange(n + 1, n + 2) =~= le_bytes(db as int, 1));
    assert(d.subrange(n + 2, n + 4) =~= le_bytes(pv as int, 2));
    assert(d.subrange(n + 4, d.len() as int) =~= rest);
}

/// A file that `serialize_file` wrote reads back, through
/// `deserialize_file` with nothing skipped, as the same file: the newest
/// version, the same dimension and protocol, and in every slot nothing where
/// the file had no segment and the same segment where it had one; the read
/// never fails. This holds where every segment fits and
/// the palette tables stay within `MAX_PALETTE_TABLE_LENGTH`.
pub proof fn law_file_roundtrip(file: File, level: i32, r: Result<File, ReadError>)
    requires
        region_fits(file.region, file.dimension_type.spec_section_count() as nat),
        region_tables(file.region, file.dimension_type.spec_section_count() as nat).0.len() <= MAX_PALETTE_TABLE_LENGTH,
        region_tables(file.region, file.dimension_type.spec_section_count() as nat).1.len() <= MAX_PALETTE_TABLE_LENGTH,
        zstd_decoded(zstd_compressed(region_body(file.region, file.dimension_type.spec_section_count() as nat), level))
            == region_body(file.region, file.dimension_type.spec_section_count() as nat),
        zstd_decodes(zstd_compressed(region_body(file.region, file.dimension_type.spec_section_count() as nat), level)),
        file_read(
            file_header(file.dimension_type, file.protocol_version) + zstd_compressed(
                region_body(file.region, file.dimension_type.spec_section_count() as nat),
                level,
            ),
            0,
            0,
            r,
        ),
    ensures
        r is Ok,
        r matches Ok(f) ==> {
            let sc = file.dimension_type.spec_section_count() as nat;
            &&& f.version == ZVCR3D_LATEST_VERSION
            &&& f.dimension_type == file.dimension_type
            &&& f.protocol_version == file.protocol_version
            &&& f.region.wf()
            &&& forall|i: int| 0 <= i < SEGMENTS_PER_REGION ==> (#[trigger] f.region.segments@[i] is None <==> file.region.segments@[i] is None)
            &&& forall|i: int| 0 <= i < SEGMENTS_PER_REGION ==> (#[trigger] f.region.segments@[i] matches Some(seg) ==> same_segment(
                *seg,
                slot_segment(file.region.segments@[i]),
                sc,
            ))
        },
{
    let sc = file.dimension_type.spec_section_count() as nat;
    let body = region_body(file.region, sc);
    let c = zstd_compressed(body, level);
    let d = file_header(file.dimension_type, file.protocol_version) + c;
    let n = EXTENSION.spec_bytes().len() as int;
    lemma_header_fields(file.dimension_type, file.protocol_version, c);
    law_version_id_roundtrip(ZVCR3D_LATEST_VERSION);
    law_dimension_id_roundtrip(file.dimension_type);
    law_region_roundtrip(file.region, sc);
    assert(zstd_decoded(d.subrange(n + 4, d.len() as int)) == body);
    assert(d.subrange(n + 4, d.len() as int) =~= c);
    if let Ok(f) = r {
        assert(f.version.spec_id() == ZVCR3D_LATEST_VERSION.spec_id());
        assert forall|w: crate::version::Version| #[trigger] w.spec_id() == ZVCR3D_LATEST_VERSION.spec_id() implies w == ZVCR3D_LATEST_VERSION by {
            law_version_id_roundtrip(ZVCR3D_LATEST_VERSION);
        }
        let slots = parse_region(body, 0, 0, sc)->Ok_0.0.2;
        assert forall|i: int| 0 <= i < SEGMENTS_PER_REGION implies (#[trigger] f.region.segments@[i] is None <==> file.region.segments@[i] is None) by {
            assert(slot_written(file.region.segments@[i], slots[i], sc));
        }
        assert forall|i: int| 0 <= i < SEGMENTS_PER_REGION implies (#[trigger] f.region.segments@[i] matches Some(seg) ==> same_segment(
            *seg,
            slot_segment(file.region.segments@[i]),
            sc,
        )) by {
            assert(slot_written(file.region.segments@[i], slots[i], sc));
            if let Some(seg) = f.region.segments@[i] {
                assert(slots[i] is Some);
                assert(file.region.segments@[i] matches Some(s) ==> segment_fits(*s, sc));
                lemma_same_segment(*seg, slot_segment(file.region.segments@[i]), slots[i].unwrap(), sc);
            }
        }
    }
}

} // verus!
