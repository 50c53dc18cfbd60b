use vstd::prelude::*;
use vstd::string::StringSliceAdditionalSpecFns;

use crate::definitions::{SECTION_SIZE_BIOMES, SECTION_SIZE_BLOCKS};
use crate::dimension::DimensionType;
use crate::io::compression::{compress_zstd_parts, joined, zstd_compressed, zstd_decoded, zstd_decodes};
use crate::io::file_location::EXTENSION;
use crate::io::serialize::primitives::{le_bytes, put_bytes, put_u16_le, put_u64_le, put_u8};
use crate::io::serialize::serialize::{atoms_bytes, longs_bytes, states_bytes, te_lists_bytes, WriteHandle};
use crate::raw::{RegionData, SegmentData};
use crate::region::delta::PackedDeltaData;
use crate::region::packed_data::{Data, PackedSnapshot};
use crate::region::segment_info::{SegmentInfo, SegmentState};
use crate::version::Version;

pub mod tile_entities;

verus! {

/// A snapshot as written: its timestamp, then a 0 and its atom, or a 1, its
/// palette inline (length, then atoms; the direct palette has length 0), the
/// number of longs and the longs.
pub open spec fn xp_snapshot_bytes<const N: usize>(s: PackedSnapshot<N>) -> Seq<u8> {
    le_bytes((s.timestamp as u64) as int, 8) + match s.data.data {
        Data::Single(v) => seq![0u8] + le_bytes(v as int, 2),
        Data::Paletted(p) => seq![1u8] + le_bytes((p.palette.palette@.len() as u16) as int, 2) + atoms_bytes(
            p.palette.palette@,
        ) + le_bytes(p.packed_long_array@.len() as int, 8) + longs_bytes(p.packed_long_array@),
    }
}

/// Snapshots written one after another.
pub open spec fn xp_snapshots_bytes<const N: usize>(ss: Seq<PackedSnapshot<N>>) -> Seq<u8>
    decreases ss.len(),
{
    if ss.len() == 0 {
        Seq::empty()
    } else {
        xp_snapshots_bytes(ss.drop_last()) + xp_snapshot_bytes(ss.last())
    }
}

/// A section history as written: its length, then its snapshots.
pub open spec fn xp_history_bytes<const N: usize>(h: PackedDeltaData<N>) -> Seq<u8> {
    le_bytes(h.reverse_deltas@.len() as int, 8) + xp_snapshots_bytes(h.reverse_deltas@)
}

/// Section histories written one after another.
pub open spec fn xp_histories_bytes<const N: usize>(hs: Seq<PackedDeltaData<N>>) -> Seq<u8>
    decreases hs.len(),
{
    if hs.len() == 0 {
        Seq::empty()
    } else {
        xp_histories_bytes(hs.drop_last()) + xp_history_bytes(hs.last())
    }
}

/// A segment as written: the number of block sections and their histories,
/// the same for the biome sections, then its states and its block entities.
pub open spec fn segment_data_bytes(seg: SegmentData) -> Seq<u8> {
    le_bytes(seg.block_sections@.len() as int, 8) + xp_histories_bytes(seg.block_sections@) + le_bytes(
        seg.biome_sections@.len() as int,
        8,
    ) + xp_histories_bytes(seg.biome_sections@) + le_bytes(seg.states@.len() as int, 8) + states_bytes(seg.states@)
        + le_bytes(seg.tile_entities.reverse_deltas@.len() as int, 8) + te_lists_bytes(seg.tile_entities.reverse_deltas@)
}

/// A presence byte for each slot: 1 where it holds a segment.
pub open spec fn presence_bytes(segs: Seq<Option<SegmentData>>) -> Seq<u8>
    decreases segs.len(),
{
    if segs.len() == 0 {
        Seq::empty()
    } else {
        presence_bytes(segs.drop_last()).push(if segs.last() is Some { 1u8 } else { 0u8 })
    }
}

/// The segments of the slots that hold one, in slot order.
pub open spec fn present_segments_bytes(segs: Seq<Option<SegmentData>>) -> Seq<u8>
    decreases segs.len(),
{
    if segs.len() == 0 {
        Seq::empty()
    } else {
        present_segments_bytes(segs.drop_last()) + match segs.last() {
            Some(seg) => segment_data_bytes(seg),
            None => Seq::empty(),
        }
    }
}

/// The region body before compression: the presence bytes, then the
/// present segments.
pub open spec fn region_data_body_bytes(segs: Seq<Option<SegmentData>>) -> Seq<u8> {
    presence_bytes(segs) + present_segments_bytes(segs)
}

/// The uncompressed header: the file prefix, the version, the dimension and
/// the protocol version.
pub open spec fn region_data_header(version: Version, dimension: DimensionType, protocol_version: u16) -> Seq<u8> {
    EXTENSION.spec_bytes() + seq![version.spec_id(), dimension.spec_id()] + le_bytes(protocol_version as int, 2)
}

/// Every segment's block entity lists are well formed.
pub open spec fn segments_writable(segs: Seq<Option<SegmentData>>) -> bool {
    forall|k: int| 0 <= k < segs.len() ==> (#[trigger] segs[k] matches Some(seg) ==> seg.tile_entities.wf())
}

/// Appends one snapshot.
fn write_snapshot<const N: usize>(body: &mut Vec<u8>, snapshot: &PackedSnapshot<N>)
    ensures
        final(body)@ == old(body)@ + xp_snapshot_bytes(*snapshot),
{
    let ghost start = body@;
    put_u64_le(body, snapshot.timestamp as u64);
    match &snapshot.data.data {
        Data::Single(atom) => {
            put_u8(body, 0);
            put_u16_le(body, *atom);
            proof {
                assert(body@ =~= start + xp_snapshot_bytes(*snapshot));
            }
        },
        Data::Paletted(paletted) => {
            put_u8(body, 1);
            let atoms = &paletted.palette.palette;
            put_u16_le(body, atoms.len() as u16);
            let ghost mid = body@;
            let mut k: usize = 0;
            while k < atoms.len()
                invariant
                    k <= atoms@.len(),
                    body@ == mid + atoms_bytes(atoms@.take(k as int)),
                decreases atoms@.len() - k,
            {
                put_u16_le(body, atoms[k]);
                proof {
                    assert(atoms@.take(k + 1).drop_last() =~= atoms@.take(k as int));
                }
                k += 1;
            }
            proof {
                assert(atoms@.take(atoms@.len() as int) =~= atoms@);
            }
            let longs = &paletted.packed_long_array;
            put_u64_le(body, longs.len() as u64);
            let ghost mid2 = body@;
            let mut j: usize = 0;
            while j < longs.len()
                invariant
                    j <= longs@.len(),
                    body@ == mid2 + longs_bytes(longs@.take(j as int)),
                decreases longs@.len() - j,
            {
                put_u64_le(body, longs[j]);
                proof {
                    assert(longs@.take(j + 1).drop_last() =~= longs@.take(j as int));
                }
                j += 1;
            }
            proof {
                assert(longs@.take(longs@.len() as int) =~= longs@);
                assert(body@ =~= start + xp_snapshot_bytes(*snapshot));
            }
        },
    }
}

/// Appends one section history.
fn write_history<const N: usize>(body: &mut Vec<u8>, history: &PackedDeltaData<N>)
    ensures
        final(body)@ == old(body)@ + xp_history_bytes(*history),
{
    let ghost start = body@;
    let ss = &history.reverse_deltas;
    put_u64_le(body, ss.len() as u64);
    let ghost mid = body@;
    let mut i: usize = 0;
    while i < ss.len()
        invariant
            i <= ss@.len(),
            body@ == mid + xp_snapshots_bytes(ss@.take(i as int)),
        decreases ss@.len() - i,
    {
        write_snapshot(body, &ss[i]);
        proof {
            assert(ss@.take(i + 1).drop_last() =~= ss@.take(i as int));
        }
        i += 1;
    }
    proof {
        assert(ss@.take(ss@.len() as int) =~= ss@);
        assert(body@ =~= start + xp_history_bytes(*history));
    }
}

/// Appends the sections of one kind: their number, then their histories.
fn write_sections<const N: usize>(body: &mut Vec<u8>, sections: &Vec<PackedDeltaData<N>>)
    ensures
        final(body)@ == old(body)@ + le_bytes(sections@.len() as int, 8) + xp_histories_bytes(sections@),
{
    let ghost start = body@;
    put_u64_le(body, sections.len() as u64);
    let ghost mid = body@;
    let mut i: usize = 0;
    while i < sections.len()
        invariant
            i <= sections@.len(),
            body@ == mid + xp_histories_bytes(sections@.take(i as int)),
        decreases sections@.len() - i,
    {
        write_history(body, &sections[i]);
        proof {
            assert(sections@.take(i + 1).drop_last() =~= sections@.take(i as int));
        }
        i += 1;
    }
    proof {
        assert(sections@.take(sections@.len() as int) =~= sections@);
    }
}

/// Appends one segment.
fn write_segment(body: &mut Vec<u8>, segment: &SegmentData)
    requires
        segment.tile_entities.wf(),
    ensures
        final(body)@ == old(body)@ + segment_data_bytes(*segment),
{
    let ghost start = body@;
    write_sections::<SECTION_SIZE_BLOCKS>(body, &segment.block_sections);
    write_sections::<SECTION_SIZE_BIOMES>(body, &segment.biome_sections);
    let mut states: Vec<SegmentState> = Vec::new();
    let mut k: usize = 0;
    while k < segment.states.len()
        invariant
            k <= segment.states@.len(),
            states@ == segment.states@.take(k as int),
        decreases segment.states@.len() - k,
    {
        states.push(segment.states[k]);
        proof {
            assert(states@ =~= segment.states@.take(k + 1));
        }
        k += 1;
    }
    proof {
        assert(states@ =~= segment.states@);
    }
    let info = SegmentInfo { reverse_deltas: states };
    let mut w = WriteHandle::new(0, 0, 1);
    w.serialize_segment_info(&info);
    w.serialize_tile_entities(&segment.tile_entities);
    let tail = w.into_bytes();
    put_bytes(body, tail.as_slice());
    proof {
        assert(body@ =~= start + segment_data_bytes(*segment));
    }
}

/// The uncompressed body of a region: a presence byte for each slot, then
/// the segments of the present slots.
pub fn write_region_body(segments: &Vec<Option<SegmentData>>) -> (r: Vec<u8>)
    requires
        segments_writable(segments@),
    ensures
        r@ == region_data_body_bytes(segments@),
{
    let mut body: Vec<u8> = Vec::new();
    let mut i: usize = 0;
    while i < segments.len()
        invariant
            i <= segments@.len(),
            body@ == presence_bytes(segments@.take(i as int)),
        decreases segments@.len() - i,
    {
        put_u8(&mut body, if segments[i].is_some() { 1 } else { 0 });
        proof {
            assert(segments@.take(i + 1).drop_last() =~= segments@.take(i as int));
        }
        i += 1;
    }
    let ghost pres = body@;
    let mut j: usize = 0;
    while j < segments.len()
        invariant
            j <= segments@.len(),
            segments_writable(segments@),
            pres == presence_bytes(segments@.take(segments@.len() as int)),
            body@ == pres + present_segments_bytes(segments@.take(j as int)),
        decreases segments@.len() - j,
    {
        match &segments[j] {
            Some(seg) => {
                proof {
                    assert(segments@[j as int] matches Some(s) ==> s.tile_entities.wf());
                }
                write_segment(&mut body, seg);
            },
            None => {},
        }
        proof {
            assert(segments@.take(j + 1).drop_last() =~= segments@.take(j as int));
            assert(body@ =~= pres + present_segments_bytes(segments@.take(j + 1)));
        }
        j += 1;
    }
    proof {
        assert(segments@.take(segments@.len() as int) =~= segments@);
    }
    body
}

/// Writes a region in this layout: the header uncompressed, then the body
/// compressed at `level`, which always succeeds.
pub fn serialize_region_data(data: &RegionData, level: i32) -> (r: Result<Vec<u8>, String>)
    requires
        segments_writable(data.segments@),
    ensures
        r is Ok,
        ({
            let body = region_data_body_bytes(data.segments@);
            &&& r matches Ok(v) && v@ == region_data_header(data.version, data.dimension, data.protocol_version)
                + zstd_compressed(body, level)
            &&& zstd_decoded(zstd_compressed(body, level)) == body
            &&& zstd_decodes(zstd_compressed(body, level))
        }),
{
    let body = write_region_body(&data.segments);
    let mut out: Vec<u8> = Vec::new();
    put_bytes(&mut out, EXTENSION.as_bytes());
    put_u8(&mut out, data.version.id());
    put_u8(&mut out, data.dimension.id());
    put_u16_le(&mut out, data.protocol_version);
    let mut parts: Vec<&[u8]> = Vec::new();
    parts.push(body.as_slice());
    proof {
        reveal_with_fuel(joined, 2);
        assert(joined(parts@) =~= body@);
    }
    let compressed = compress_zstd_parts(parts.as_slice(), level)?;
    put_bytes(&mut out, compressed.as_slice());
    proof {
        assert(out@ =~= region_data_header(data.version, data.dimension, data.protocol_version) + zstd_compressed(
            body@,
            level,
        ));
    }
    Ok(out)
}

} // verus!
