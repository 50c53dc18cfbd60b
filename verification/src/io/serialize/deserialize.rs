use vstd::prelude::*;
use vstd::string::StringSliceAdditionalSpecFns;

use crate::dimension::DimensionType;
use crate::io::serialize::context::Context;
use crate::io::serialize::error::{
    ReadError, MAX_DELTA_LENGTH, MAX_PALETTE_TABLE_LENGTH, MAX_SEGMENT_STATES_LENGTH,
    MAX_TILE_ENTITY_LIST_LENGTH, MAX_TILE_ENTITY_NBT_LENGTH, MAX_PACKED_LENGTH,
};
use crate::region::delta::PackedDeltaData;
use crate::region::packed_data::{Data, PackedData, PackedSnapshot, PalettedData};
use crate::region::palette::{bits_per_entry, direct_palette, spec_bits_per_entry, Palette, MAX_INDIRECT_PALETTE_SIZE};
use crate::region::segment_info::{SegmentInfo, SegmentState, SegmentStateType};
use crate::region::tile_entities::{
    unpacked_position, DeltaTileEntityData, PositionMap, TileEntity, TileEntityDelta, TileEntityDeltaMap,
    TileEntityListDelta, TileEntityPosition,
};
use crate::version::{Version, ZVCR3D_LATEST_VERSION};
use crate::definitions::SEGMENTS_PER_REGION;
use crate::region::segment::{Region, Segment, MAX_SECTION_COUNT};
use crate::io::compression::{decompress_zstd, zstd_decoded, zstd_decodes};
use crate::io::file_location::EXTENSION;
use crate::io::serialize::serialize::File;
use std::sync::Arc;

verus! {

/// `256` to the power `k`.
pub open spec fn pow256(k: nat) -> int
    decreases k,
{
    if k == 0 {
        1
    } else {
        256 * pow256((k - 1) as nat)
    }
}

/// The little-endian value of `bytes`.
pub open spec fn le_value(bytes: Seq<u8>) -> int
    decreases bytes.len(),
{
    if bytes.len() == 0 {
        0
    } else {
        bytes[0] + 256 * le_value(bytes.skip(1))
    }
}

/// Whether `n` bytes can be read at `p` from `d`.
pub open spec fn fits(d: Seq<u8>, p: int, n: int) -> bool {
    p + n <= d.len()
}

/// The little-endian value of the `n` bytes at `p`.
pub open spec fn le_at(d: Seq<u8>, p: int, n: int) -> int {
    le_value(d.subrange(p, p + n))
}

proof fn lemma_le_value_bound(b: Seq<u8>)
    ensures
        0 <= le_value(b) < pow256(b.len()),
    decreases b.len(),
{
    if b.len() > 0 {
        lemma_le_value_bound(b.skip(1));
    }
}

/// Whether `r` is the out-of-bounds error at offset `p`.
pub open spec fn out_of_bounds_at<T>(r: Result<T, ReadError>, p: int) -> bool {
    r matches Err(ReadError::OutOfBounds { offset }) && offset == p
}

/// Reads a region file: a cursor over its bytes, with the palette tables and
/// context read so far.
pub struct ReadHandle {
    pub ctx: Context,
    data: Vec<u8>,
    pos: usize,
    max_deltas: usize,
    block_palette_table: Vec<Palette>,
    biome_palette_table: Vec<Palette>,
}

impl ReadHandle {
    /// The bytes being read.
    pub closed spec fn data(&self) -> Seq<u8> {
        self.data@
    }

    /// Where the next read starts.
    pub closed spec fn pos(&self) -> int {
        self.pos as int
    }

    /// The context read so far.
    pub closed spec fn context(&self) -> Context {
        self.ctx
    }

    /// How many deltas of a history are read; 0 reads all.
    pub closed spec fn max_deltas(&self) -> int {
        self.max_deltas as int
    }

    /// The block and biome palette tables read so far.
    pub closed spec fn tables(&self) -> (Seq<(Seq<u16>, usize)>, Seq<(Seq<u16>, usize)>) {
        (
            self.block_palette_table@.map_values(|p: Palette| palette_view(p)),
            self.biome_palette_table@.map_values(|p: Palette| palette_view(p)),
        )
    }

    pub fn new(data: Vec<u8>, max_deltas: usize) -> (r: Self)
        ensures
            r.data() == data@,
            r.pos() == 0,
            r.max_deltas() == max_deltas,
            r.context() == (Context { section_count: 0, protocol_version: 0 }),
    {
        ReadHandle {
            ctx: Context::default(),
            data,
            pos: 0,
            max_deltas,
            block_palette_table: Vec::new(),
            biome_palette_table: Vec::new(),
        }
    }

    /// The read position is never negative.
    pub proof fn lemma_pos_nonneg(&self)
        ensures
            self.pos() >= 0,
    {
    }

    /// How many bytes are left after the cursor.
    pub fn remaining(&self) -> (r: usize)
        ensures
            r == (if self.pos() <= self.data().len() { self.data().len() - self.pos() } else { 0 }),
    {
        if self.pos <= self.data.len() {
            self.data.len() - self.pos
        } else {
            0
        }
    }

    pub fn offset(&self) -> (r: usize)
        ensures
            r == self.pos(),
    {
        self.pos
    }

    /// The `n`-byte little-endian value at the cursor, which then moves past
    /// it; out of bounds where fewer than `n` bytes are left.
    fn read_le(&mut self, n: usize) -> (r: Result<u64, ReadError>)
        requires
            1 <= n <= 8,
        ensures
            final(self).data() == old(self).data(),
            final(self).context() == old(self).context(),
            final(self).max_deltas() == old(self).max_deltas(),
            final(self).tables() == old(self).tables(),
            fits(old(self).data(), old(self).pos(), n as int) ==> r == Ok::<u64, ReadError>(
                le_at(old(self).data(), old(self).pos(), n as int) as u64,
            ) && final(self).pos() == old(self).pos() + n,
            !fits(old(self).data(), old(self).pos(), n as int) ==> out_of_bounds_at(r, old(self).pos()) && final(self).pos() == old(self).pos(),
            r matches Ok(v) ==> v < pow256(n as nat),
            fits(old(self).data(), old(self).pos(), n as int) ==> 0 <= le_at(old(self).data(), old(self).pos(), n as int) < pow256(n as nat),
    {
        if self.pos > self.data.len() || self.data.len() - self.pos < n {
            return Err(ReadError::OutOfBounds { offset: self.pos });
        }
        let ghost bytes = self.data@.subrange(self.pos as int, self.pos + n);
        proof {
            lemma_le_value_bound(bytes);
        }
        let base = self.pos;
        let mut v: u64 = 0;
        let mut i: usize = n;
        proof {
            assert(pow256(8) == 18446744073709551616) by {
                reveal_with_fuel(pow256, 9);
            }
        }
        while i > 0
            invariant
                i <= n <= 8,
                base == self.pos,
                base + n <= self.data.len(),
                bytes == self.data@.subrange(self.pos as int, self.pos + n),
                v == le_value(bytes.skip(i as int)),
                v < pow256((n - i) as nat),
                pow256(8) == 18446744073709551616,
            decreases i,
        {
            i -= 1;
            proof {
                assert(bytes.skip(i as int).skip(1) =~= bytes.skip(i + 1));
                assert(pow256((n - i) as nat) <= pow256(8)) by {
                    lemma_pow256_monotone((n - i) as nat, 8);
                }
            }
            v = v * 256 + self.data[base + i] as u64;
        }
        proof {
            assert(bytes.skip(0) =~= bytes);
        }
        self.pos = self.pos + n;
        Ok(v)
    }

    pub(crate) fn read_u8(&mut self) -> (r: Result<u8, ReadError>)
        ensures
            final(self).data() == old(self).data(),
            final(self).context() == old(self).context(),
            final(self).max_deltas() == old(self).max_deltas(),
            final(self).tables() == old(self).tables(),
            fits(old(self).data(), old(self).pos(), 1) ==> r == Ok::<u8, ReadError>(le_at(old(self).data(), old(self).pos(), 1) as u8)
                && final(self).pos() == old(self).pos() + 1,
            !fits(old(self).data(), old(self).pos(), 1) ==> out_of_bounds_at(r, old(self).pos()) && final(self).pos() == old(self).pos(),
            fits(old(self).data(), old(self).pos(), 1) ==> 0 <= le_at(old(self).data(), old(self).pos(), 1) < 256,
    {
        match self.read_le(1) {
            Ok(v) => {
                proof {
                    reveal_with_fuel(pow256, 2);
                }
                Ok(v as u8)
            },
            Err(e) => Err(e),
        }
    }

    pub fn read_u16(&mut self) -> (r: Result<u16, ReadError>)
        ensures
            final(self).data() == old(self).data(),
            final(self).context() == old(self).context(),
            final(self).max_deltas() == old(self).max_deltas(),
            final(self).tables() == old(self).tables(),
            fits(old(self).data(), old(self).pos(), 2) ==> r == Ok::<u16, ReadError>(le_at(old(self).data(), old(self).pos(), 2) as u16)
                && final(self).pos() == old(self).pos() + 2,
            !fits(old(self).data(), old(self).pos(), 2) ==> out_of_bounds_at(r, old(self).pos()) && final(self).pos() == old(self).pos(),
            fits(old(self).data(), old(self).pos(), 2) ==> 0 <= le_at(old(self).data(), old(self).pos(), 2) < 65536,
    {
        match self.read_le(2) {
            Ok(v) => {
                proof {
                    reveal_with_fuel(pow256, 3);
                }
                Ok(v as u16)
            },
            Err(e) => Err(e),
        }
    }

    pub(crate) fn read_u32(&mut self) -> (r: Result<u32, ReadError>)
        ensures
            final(self).data() == old(self).data(),
            final(self).context() == old(self).context(),
            final(self).max_deltas() == old(self).max_deltas(),
            final(self).tables() == old(self).tables(),
            fits(old(self).data(), old(self).pos(), 4) ==> r == Ok::<u32, ReadError>(le_at(old(self).data(), old(self).pos(), 4) as u32)
                && final(self).pos() == old(self).pos() + 4,
            !fits(old(self).data(), old(self).pos(), 4) ==> out_of_bounds_at(r, old(self).pos()) && final(self).pos() == old(self).pos(),
            fits(old(self).data(), old(self).pos(), 4) ==> 0 <= le_at(old(self).data(), old(self).pos(), 4) < 4294967296,
    {
        match self.read_le(4) {
            Ok(v) => {
                proof {
                    reveal_with_fuel(pow256, 5);
                }
                Ok(v as u32)
            },
            Err(e) => Err(e),
        }
    }

    pub(crate) fn read_u64(&mut self) -> (r: Result<u64, ReadError>)
        ensures
            final(self).data() == old(self).data(),
            final(self).context() == old(self).context(),
            final(self).max_deltas() == old(self).max_deltas(),
            final(self).tables() == old(self).tables(),
            fits(old(self).data(), old(self).pos(), 8) ==> r == Ok::<u64, ReadError>(le_at(old(self).data(), old(self).pos(), 8) as u64)
                && final(self).pos() == old(self).pos() + 8,
            !fits(old(self).data(), old(self).pos(), 8) ==> out_of_bounds_at(r, old(self).pos()) && final(self).pos() == old(self).pos(),
            fits(old(self).data(), old(self).pos(), 8) ==> 0 <= le_at(old(self).data(), old(self).pos(), 8) < 18446744073709551616,
    {
        proof {
            reveal_with_fuel(pow256, 9);
        }
        self.read_le(8)
    }

    /// The `n` bytes at the cursor, which then moves past them.
    pub(crate) fn read_vec(&mut self, n: usize) -> (r: Result<Vec<u8>, ReadError>)
        ensures
            final(self).data() == old(self).data(),
            final(self).context() == old(self).context(),
            final(self).max_deltas() == old(self).max_deltas(),
            final(self).tables() == old(self).tables(),
            fits(old(self).data(), old(self).pos(), n as int) ==> (r matches Ok(v) && v@ == old(self).data().subrange(
                old(self).pos(),
                old(self).pos() + n,
            )) && final(self).pos() == old(self).pos() + n,
            !fits(old(self).data(), old(self).pos(), n as int) ==> out_of_bounds_at(r, old(self).pos()) && final(self).pos() == old(self).pos(),
    {
        if self.pos > self.data.len() || self.data.len() - self.pos < n {
            return Err(ReadError::OutOfBounds { offset: self.pos });
        }
        let mut out: Vec<u8> = Vec::new();
        let mut i: usize = 0;
        let base = self.pos;
        while i < n
            invariant
                i <= n,
                base == self.pos,
                base + n <= self.data.len(),
                out@ == self.data@.subrange(self.pos as int, self.pos + i),
            decreases n - i,
        {
            out.push(self.data[base + i]);
            proof {
                assert(out@ =~= self.data@.subrange(self.pos as int, self.pos + i + 1));
            }
            i += 1;
        }
        self.pos = self.pos + n;
        Ok(out)
    }

    /// Checks that the next bytes are those of `prefix`, and moves past them.
    pub fn validate_file_prefix(&mut self, prefix: &str) -> (r: Result<(), ReadError>)
        ensures
            final(self).max_deltas() == old(self).max_deltas(),
            final(self).tables() == old(self).tables(),
            final(self).data() == old(self).data(),
            final(self).context() == old(self).context(),
            fits(old(self).data(), old(self).pos(), prefix.spec_bytes().len() as int) ==> final(self).pos() == old(self).pos()
                + prefix.spec_bytes().len() && (r is Ok <==> old(self).data().subrange(
                old(self).pos(),
                old(self).pos() + prefix.spec_bytes().len(),
            ) == prefix.spec_bytes()) && (r is Err ==> r matches Err(ReadError::HeaderMismatch)),
            !fits(old(self).data(), old(self).pos(), prefix.spec_bytes().len() as int) ==> out_of_bounds_at(r, old(self).pos())
                && final(self).pos() == old(self).pos(),
    {
        let expected = prefix.as_bytes();
        let buf = self.read_vec(expected.len())?;
        if !bytes_equal(buf.as_slice(), expected) {
            return Err(ReadError::HeaderMismatch);
        }
        Ok(())
    }

    /// Reads a version byte; one above `latest`, or one that names no
    /// version, is refused.
    pub fn deserialize_version(&mut self, latest: Version) -> (r: Result<Version, ReadError>)
        ensures
            final(self).max_deltas() == old(self).max_deltas(),
            final(self).tables() == old(self).tables(),
            final(self).data() == old(self).data(),
            final(self).context() == old(self).context(),
            fits(old(self).data(), old(self).pos(), 1) ==> {
                let b = le_at(old(self).data(), old(self).pos(), 1) as u8;
                &&& final(self).pos() == old(self).pos() + 1
                &&& (b > latest.spec_id() || b < 1) ==> r == Err::<Version, ReadError>(ReadError::InvalidVersion(b))
                &&& 1 <= b <= latest.spec_id() ==> r is Ok && r.unwrap().spec_id() == b
            },
            !fits(old(self).data(), old(self).pos(), 1) ==> out_of_bounds_at(r, old(self).pos()),
    {
        let ver_num = self.read_u8()?;
        proof {
            crate::version::law_version_id_roundtrip(latest);
        }
        if ver_num > latest.id() {
            return Err(ReadError::InvalidVersion(ver_num));
        }
        match Version::from_u8(ver_num) {
            Some(v) => Ok(v),
            None => Err(ReadError::InvalidVersion(ver_num)),
        }
    }

    /// Reads a dimension byte and takes the dimension's section count.
    pub fn deserialize_dimension_type(&mut self) -> (r: Result<DimensionType, ReadError>)
        ensures
            final(self).max_deltas() == old(self).max_deltas(),
            final(self).tables() == old(self).tables(),
            final(self).data() == old(self).data(),
            fits(old(self).data(), old(self).pos(), 1) ==> {
                let b = le_at(old(self).data(), old(self).pos(), 1) as u8;
                &&& final(self).pos() == old(self).pos() + 1
                &&& DimensionType::spec_from_u8(b) is None ==> r == Err::<DimensionType, ReadError>(ReadError::InvalidDimensionType(b))
                    && final(self).context() == old(self).context()
                &&& DimensionType::spec_from_u8(b) matches Some(d) ==> r == Ok::<DimensionType, ReadError>(d)
                    && final(self).context().section_count == d.spec_section_count()
                    && final(self).context().protocol_version == old(self).context().protocol_version
            },
            !fits(old(self).data(), old(self).pos(), 1) ==> out_of_bounds_at(r, old(self).pos()) && final(self).context() == old(self).context(),
    {
        let dim_num = self.read_u8()?;
        match DimensionType::from_u8(dim_num) {
            Some(dim) => {
                self.ctx.initialize_section_count(dim);
                Ok(dim)
            },
            None => Err(ReadError::InvalidDimensionType(dim_num)),
        }
    }
}

proof fn lemma_pow256_pos(a: nat)
    ensures
        pow256(a) >= 1,
    decreases a,
{
    if a > 0 {
        lemma_pow256_pos((a - 1) as nat);
    }
}

proof fn lemma_pow256_monotone(a: nat, b: nat)
    requires
        a <= b,
    ensures
        1 <= pow256(a) <= pow256(b),
    decreases b,
{
    lemma_pow256_pos(a);
    if a < b {
        lemma_pow256_monotone(a, (b - 1) as nat);
    }
}

/// Whether the two byte strings are equal.
fn bytes_equal(a: &[u8], b: &[u8]) -> (r: bool)
    ensures
        r == (a@ == b@),
{
    if a.len() != b.len() {
        return false;
    }
    let mut i: usize = 0;
    while i < a.len()
        invariant
            a@.len() == b@.len(),
            i <= a@.len(),
            forall|j: int| 0 <= j < i ==> a@[j] == b@[j],
        decreases a@.len() - i,
    {
        if a[i] != b[i] {
            return false;
        }
        i += 1;
    }
    proof {
        assert(a@ =~= b@);
    }
    true
}


/// What reading a stream found wrong, where a reader stops.
#[derive(Debug, Clone, Copy, PartialEq, Eq, Structural)]
pub enum ReadFailure {
    /// The bytes ran out at this offset.
    OutOfBounds(usize),
    /// A length field is above its limit.
    LengthExceeded,
    /// A segment state byte names no state.
    InvalidSegmentState(u8),
    /// A palette index at or past the end of the palette table.
    InvalidPaletteIndex(u32, usize),
    /// A type or operation byte that names no kind.
    InvalidTag(u8),
    /// Fields that contradict each other, such as positions out of order.
    Malformed,
}

/// Whether the error `e` reports the failure `f`.
pub open spec fn reports(e: ReadError, f: ReadFailure) -> bool {
    match f {
        ReadFailure::OutOfBounds(o) => e matches ReadError::OutOfBounds { offset } && offset == o,
        ReadFailure::LengthExceeded => e is LengthExceeded,
        ReadFailure::InvalidSegmentState(_) => e is Generic,
        ReadFailure::InvalidTag(_) => e is Generic,
        ReadFailure::Malformed => e is Generic,
        ReadFailure::InvalidPaletteIndex(i, m) => e matches ReadError::InvalidPaletteIndex { index, max } && index == i
            && max == m,
    }
}

/// Whether `r` is the outcome that the parse `spec` describes: the value and
/// the position after it, or the error it reports.
pub open spec fn outcome_matches<T>(r: Result<T, ReadError>, end: int, spec: Result<(T, int), ReadFailure>) -> bool {
    match spec {
        Ok((v, e)) => r == Ok::<T, ReadError>(v) && end == e,
        Err(f) => r is Err && reports(r->Err_0, f),
    }
}

/// The `n`-byte little-endian value at `p` and the position after it.
pub open spec fn parse_uint(d: Seq<u8>, p: int, n: int) -> Result<(int, int), ReadFailure> {
    if fits(d, p, n) {
        Ok((le_at(d, p, n), p + n))
    } else {
        Err(ReadFailure::OutOfBounds(p as usize))
    }
}

/// The state type a byte up to 2 names.
pub open spec fn state_type_of(b: int) -> SegmentStateType {
    if b == 0 {
        SegmentStateType::Unknown
    } else if b == 1 {
        SegmentStateType::New
    } else {
        SegmentStateType::Old
    }
}

/// A segment state at `p`: its type byte, then its timestamp.
pub open spec fn parse_segment_state(d: Seq<u8>, p: int) -> Result<(SegmentState, int), ReadFailure> {
    match parse_uint(d, p, 1) {
        Err(f) => Err(f),
        Ok((id, p1)) => if id > 2 {
            Err(ReadFailure::InvalidSegmentState(id as u8))
        } else {
            match parse_uint(d, p1, 8) {
                Err(f) => Err(f),
                Ok((ts, p2)) => Ok((SegmentState { state_type: state_type_of(id), timestamp: ts as i64 }, p2)),
            }
        },
    }
}

/// `n` segment states from `p` on.
pub open spec fn parse_segment_states(d: Seq<u8>, p: int, n: nat) -> Result<(Seq<SegmentState>, int), ReadFailure>
    decreases n,
{
    if n == 0 {
        Ok((Seq::empty(), p))
    } else {
        match parse_segment_states(d, p, (n - 1) as nat) {
            Err(f) => Err(f),
            Ok((states, p1)) => match parse_segment_state(d, p1) {
                Err(f) => Err(f),
                Ok((st, p2)) => Ok((states.push(st), p2)),
            },
        }
    }
}

/// A segment's state history at `p`: its length, at most
/// `MAX_SEGMENT_STATES_LENGTH`, then the states.
pub open spec fn parse_segment_info(d: Seq<u8>, p: int) -> Result<(Seq<SegmentState>, int), ReadFailure> {
    match parse_uint(d, p, 8) {
        Err(f) => Err(f),
        Ok((n, p1)) => if n > MAX_SEGMENT_STATES_LENGTH {
            Err(ReadFailure::LengthExceeded)
        } else {
            parse_segment_states(d, p1, n as nat)
        },
    }
}

#[verifier::external_body]
/// The message for a segment state byte that names no state (`format!`).
fn invalid_state_message(id: u8) -> String {
    format!("Invalid segment state ID: {id}")
}

/// The message for a length field above its limit.
fn length_message(what: &str) -> (r: String)
    ensures
        r@ == what@,
{
    proof {
        broadcast use vstd::string::to_string_from_display_ensures_for_str;
    }
    what.to_string()
}

impl ReadHandle {
    pub fn deserialize_segment_state(&mut self) -> (r: Result<SegmentState, ReadError>)
        ensures
            final(self).data() == old(self).data(),
            final(self).context() == old(self).context(),
            final(self).max_deltas() == old(self).max_deltas(),
            final(self).tables() == old(self).tables(),
            outcome_matches(r, final(self).pos(), parse_segment_state(old(self).data(), old(self).pos())),
    {
        let state_type_id = self.read_u8()?;
        let state_type = match SegmentStateType::from_u8(state_type_id) {
            Some(t) => t,
            None => return Err(ReadError::Generic(invalid_state_message(state_type_id))),
        };
        proof {
            crate::region::segment_info::law_state_type_id_roundtrip(state_type);
        }
        let timestamp = self.read_u64()? as i64;
        Ok(SegmentState { state_type, timestamp })
    }

    pub fn deserialize_segment_info(&mut self) -> (r: Result<SegmentInfo, ReadError>)
        ensures
            final(self).data() == old(self).data(),
            final(self).context() == old(self).context(),
            final(self).max_deltas() == old(self).max_deltas(),
            final(self).tables() == old(self).tables(),
            match parse_segment_info(old(self).data(), old(self).pos()) {
                Ok((states, e)) => r matches Ok(info) && info.reverse_deltas@ == states && final(self).pos() == e,
                Err(f) => r is Err && reports(r->Err_0, f),
            },
    {
        let states_len = self.read_u64()?;
        if states_len > MAX_SEGMENT_STATES_LENGTH {
            return Err(ReadError::LengthExceeded(length_message("Segment states too long")));
        }
        let ghost d = self.data();
        let ghost p1 = self.pos();
        let mut states: Vec<SegmentState> = Vec::new();
        let mut i: u64 = 0;
        assert(parse_segment_info(old(self).data(), old(self).pos()) == parse_segment_states(d, p1, states_len as nat));
        while i < states_len
            invariant
                i <= states_len <= MAX_SEGMENT_STATES_LENGTH,
                d == old(self).data(),
                self.data() == d,
                self.context() == old(self).context(),
                self.max_deltas() == old(self).max_deltas(),
                self.tables() == old(self).tables(),
                parse_segment_states(d, p1, i as nat) == Ok::<(Seq<SegmentState>, int), ReadFailure>((states@, self.pos())),
                parse_segment_info(old(self).data(), old(self).pos()) == parse_segment_states(d, p1, states_len as nat),
            decreases states_len - i,
        {
            let ghost cur = self.pos();
            let st = match self.deserialize_segment_state() {
                Ok(st) => st,
                Err(e) => {
                    proof {
                        let f = parse_segment_state(d, cur)->Err_0;
                        assert(reports(e, f));
                        assert(parse_segment_states(d, p1, (i + 1) as nat) == Err::<(Seq<SegmentState>, int), ReadFailure>(f));
                        lemma_states_stay_failed(d, p1, (i + 1) as nat, states_len as nat);
                    }
                    return Err(e);
                },
            };
            states.push(st);
            i += 1;
        }
        Ok(SegmentInfo { reverse_deltas: states })
    }
}

proof fn lemma_states_stay_failed(d: Seq<u8>, p: int, i: nat, n: nat)
    requires
        i <= n,
        parse_segment_states(d, p, i) is Err,
    ensures
        parse_segment_states(d, p, n) == parse_segment_states(d, p, i),
    decreases n - i,
{
    if i < n {
        lemma_states_stay_failed(d, p, i, (n - 1) as nat);
    }
}


/// A palette's atoms and entry width.
pub open spec fn palette_view(p: Palette) -> (Seq<u16>, usize) {
    (p.palette@, p.bits_per_entry)
}

/// `n` 16-bit values from `p` on, read one after the other.
pub open spec fn parse_u16s(d: Seq<u8>, p: int, n: nat) -> Result<(Seq<u16>, int), ReadFailure>
    decreases n,
{
    if n == 0 {
        Ok((Seq::empty(), p))
    } else {
        match parse_uint(d, p, 2) {
            Err(f) => Err(f),
            Ok((v, p1)) => match parse_u16s(d, p1, (n - 1) as nat) {
                Err(f) => Err(f),
                Ok((vs, p2)) => Ok((seq![v as u16] + vs, p2)),
            },
        }
    }
}

/// One palette at `p`: its length, then its atoms; one longer than
/// `MAX_INDIRECT_PALETTE_SIZE` is skipped and read as the direct palette.
pub open spec fn parse_palette(d: Seq<u8>, p: int) -> Result<((Seq<u16>, usize), int), ReadFailure> {
    match parse_uint(d, p, 2) {
        Err(f) => Err(f),
        Ok((len, p1)) => if len > 256 {
            if p1 + 2 * len > usize::MAX {
                Err(ReadFailure::OutOfBounds(p1 as usize))
            } else {
                Ok(((Seq::empty(), 16usize), p1 + 2 * len))
            }
        } else {
            match parse_u16s(d, p1, len as nat) {
                Err(f) => Err(f),
                Ok((vals, p2)) => Ok(((vals, spec_bits_per_entry(len)), p2)),
            }
        },
    }
}

/// `n` palettes from `p` on.
pub open spec fn parse_palettes(d: Seq<u8>, p: int, n: nat) -> Result<(Seq<(Seq<u16>, usize)>, int), ReadFailure>
    decreases n,
{
    if n == 0 {
        Ok((Seq::empty(), p))
    } else {
        match parse_palettes(d, p, (n - 1) as nat) {
            Err(f) => Err(f),
            Ok((ps, p1)) => match parse_palette(d, p1) {
                Err(f) => Err(f),
                Ok((pl, p2)) => Ok((ps.push(pl), p2)),
            },
        }
    }
}

/// A palette table at `p`: its length, at most `MAX_PALETTE_TABLE_LENGTH`,
/// then the palettes.
pub open spec fn parse_palette_table(d: Seq<u8>, p: int) -> Result<(Seq<(Seq<u16>, usize)>, int), ReadFailure> {
    match parse_uint(d, p, 4) {
        Err(f) => Err(f),
        Ok((n, p1)) => if n > MAX_PALETTE_TABLE_LENGTH {
            Err(ReadFailure::LengthExceeded)
        } else {
            parse_palettes(d, p1, n as nat)
        },
    }
}

proof fn lemma_palettes_stay_failed(d: Seq<u8>, p: int, i: nat, n: nat)
    requires
        i <= n,
        parse_palettes(d, p, i) is Err,
    ensures
        parse_palettes(d, p, n) == parse_palettes(d, p, i),
    decreases n - i,
{
    if i < n {
        lemma_palettes_stay_failed(d, p, i, (n - 1) as nat);
    }
}

impl ReadHandle {
    /// Reads one palette of a table.
    fn deserialize_palette(&mut self) -> (r: Result<Palette, ReadError>)
        ensures
            final(self).data() == old(self).data(),
            final(self).context() == old(self).context(),
            final(self).max_deltas() == old(self).max_deltas(),
            final(self).tables() == old(self).tables(),
            match parse_palette(old(self).data(), old(self).pos()) {
                Ok((pl, e)) => r matches Ok(v) && palette_view(v) == pl && final(self).pos() == e,
                Err(f) => r is Err && reports(r->Err_0, f),
            },
    {
        let palette_len = self.read_u16()? as usize;
        if palette_len > MAX_INDIRECT_PALETTE_SIZE {
            let skip_bytes = palette_len * 2;
            if self.pos > usize::MAX - skip_bytes {
                return Err(ReadError::OutOfBounds { offset: self.pos });
            }
            self.pos = self.pos + skip_bytes;
            return Ok(direct_palette());
        }
        let ghost d = self.data();
        let ghost p1 = self.pos();
        let mut palette_vec: Vec<u16> = Vec::new();
        let mut i: usize = 0;
        proof {
            assert(parse_u16s(d, p1, palette_len as nat) == (match parse_u16s(d, self.pos(), (palette_len - i) as nat) {
                Ok((vs, e)) => Ok((palette_vec@ + vs, e)),
                Err(f) => Err::<(Seq<u16>, int), ReadFailure>(f),
            })) by {
                assert(parse_u16s(d, p1, palette_len as nat) matches Ok((vs, e)) ==> palette_vec@ + vs =~= vs);
            }
        }
        while i < palette_len
            invariant
                i <= palette_len <= 256,
                d == old(self).data(),
                self.data() == d,
                self.context() == old(self).context(),
                self.max_deltas() == old(self).max_deltas(),
                self.tables() == old(self).tables(),
                palette_vec@.len() == i,
                parse_u16s(d, p1, palette_len as nat) == (match parse_u16s(d, self.pos(), (palette_len - i) as nat) {
                    Ok((vs, e)) => Ok((palette_vec@ + vs, e)),
                    Err(f) => Err::<(Seq<u16>, int), ReadFailure>(f),
                }),
                parse_palette(old(self).data(), old(self).pos()) == (match parse_u16s(d, p1, palette_len as nat) {
                    Err(f) => Err(f),
                    Ok((vals, p2)) => Ok::<((Seq<u16>, usize), int), ReadFailure>(((vals, spec_bits_per_entry(palette_len as int)), p2)),
                }),
            decreases palette_len - i,
        {
            let v = self.read_u16()?;
            proof {
                let ghost rest = parse_u16s(d, self.pos(), (palette_len - i - 1) as nat);
                if let Ok((vs, e)) = rest {
                    assert(palette_vec@.push(v) + vs =~= palette_vec@ + (seq![v] + vs));
                }
            }
            palette_vec.push(v);
            i += 1;
        }
        proof {
            assert(palette_vec@ + Seq::<u16>::empty() =~= palette_vec@);
        }
        let bpe = bits_per_entry(palette_len);
        Ok(Palette { palette: palette_vec, bits_per_entry: bpe })
    }

    /// Reads a palette table and appends its palettes to `table`.
    pub fn deserialize_palette_table(&mut self, table: &mut Vec<Palette>) -> (r: Result<(), ReadError>)
        ensures
            final(self).data() == old(self).data(),
            final(self).context() == old(self).context(),
            final(self).max_deltas() == old(self).max_deltas(),
            final(self).tables() == old(self).tables(),
            match parse_palette_table(old(self).data(), old(self).pos()) {
                Ok((ps, e)) => r is Ok && final(table)@.map_values(|p: Palette| palette_view(p)) == old(table)@.map_values(
                    |p: Palette| palette_view(p),
                ) + ps && final(self).pos() == e,
                Err(f) => r is Err && reports(r->Err_0, f),
            },
    {
        let len = self.read_u32()?;
        if len > MAX_PALETTE_TABLE_LENGTH {
            return Err(ReadError::LengthExceeded(length_message("Palette table length too high")));
        }
        let ghost d = self.data();
        let ghost p1 = self.pos();
        let ghost t0 = table@.map_values(|p: Palette| palette_view(p));
        let mut i: u32 = 0;
        proof {
            assert(t0 + Seq::<(Seq<u16>, usize)>::empty() =~= t0);
        }
        while i < len
            invariant
                i <= len <= MAX_PALETTE_TABLE_LENGTH,
                d == old(self).data(),
                self.data() == d,
                self.context() == old(self).context(),
                self.max_deltas() == old(self).max_deltas(),
                self.tables() == old(self).tables(),
                t0 == old(table)@.map_values(|p: Palette| palette_view(p)),
                parse_palette_table(old(self).data(), old(self).pos()) == parse_palettes(d, p1, len as nat),
                parse_palettes(d, p1, i as nat) matches Ok((ps, e)) && table@.map_values(|p: Palette| palette_view(p)) == t0 + ps
                    && e == self.pos(),
            decreases len - i,
        {
            let ghost cur = self.pos();
            let ghost before = table@.map_values(|p: Palette| palette_view(p));
            match self.deserialize_palette() {
                Ok(pl) => {
                    table.push(pl);
                    proof {
                        assert(table@.map_values(|p: Palette| palette_view(p)) =~= before.push(palette_view(pl)));
                    }
                },
                Err(e) => {
                    proof {
                        lemma_palettes_stay_failed(d, p1, (i + 1) as nat, len as nat);
                    }
                    return Err(e);
                },
            }
            i += 1;
        }
        Ok(())
    }
}


/// One recorded change at `p`: the packed position, an operation byte (0
/// clears), then for a placement the type, the data length, at most
/// `MAX_TILE_ENTITY_NBT_LENGTH`, and the data.
pub open spec fn parse_te_change(d: Seq<u8>, p: int) -> Result<((TileEntityPosition, Option<(u32, TileEntityPosition, Seq<u8>)>), int), ReadFailure> {
    match parse_uint(d, p, 4) {
        Err(f) => Err(f),
        Ok((packed, p1)) => {
            let pos = unpacked_position(packed as u32);
            match parse_uint(d, p1, 1) {
                Err(f) => Err(f),
                Ok((op, p2)) => if op == 0 {
                    Ok(((pos, None), p2))
                } else {
                    match parse_uint(d, p2, 4) {
                        Err(f) => Err(f),
                        Ok((tile_type, p3)) => match parse_uint(d, p3, 8) {
                            Err(f) => Err(f),
                            Ok((len, p4)) => if len > MAX_TILE_ENTITY_NBT_LENGTH {
                                Err(ReadFailure::LengthExceeded)
                            } else if !fits(d, p4, len) {
                                Err(ReadFailure::OutOfBounds(p4 as usize))
                            } else {
                                Ok(((pos, Some((tile_type as u32, pos, d.subrange(p4, p4 + len)))), p4 + len))
                            },
                        },
                    }
                },
            }
        },
    }
}

/// `n` recorded changes from `p` on.
pub open spec fn parse_te_changes(d: Seq<u8>, p: int, n: nat) -> Result<(Seq<(TileEntityPosition, Option<(u32, TileEntityPosition, Seq<u8>)>)>, int), ReadFailure>
    decreases n,
{
    if n == 0 {
        Ok((Seq::empty(), p))
    } else {
        match parse_te_changes(d, p, (n - 1) as nat) {
            Err(f) => Err(f),
            Ok((cs, p1)) => match parse_te_change(d, p1) {
                Err(f) => Err(f),
                Ok((c, p2)) => Ok((cs.push(c), p2)),
            },
        }
    }
}

/// One list at `p`: its timestamp, its length, at most
/// `MAX_TILE_ENTITY_LIST_LENGTH`, and its changes.
pub open spec fn parse_te_list(d: Seq<u8>, p: int) -> Result<((i64, Seq<(TileEntityPosition, Option<(u32, TileEntityPosition, Seq<u8>)>)>), int), ReadFailure> {
    match parse_uint(d, p, 8) {
        Err(f) => Err(f),
        Ok((ts, p1)) => match parse_uint(d, p1, 8) {
            Err(f) => Err(f),
            Ok((n, p2)) => if n > MAX_TILE_ENTITY_LIST_LENGTH {
                Err(ReadFailure::LengthExceeded)
            } else {
                match parse_te_changes(d, p2, n as nat) {
                    Err(f) => Err(f),
                    Ok((cs, p3)) => Ok(((ts as i64, cs), p3)),
                }
            },
        },
    }
}

/// `n` lists from `p` on.
pub open spec fn parse_te_lists(d: Seq<u8>, p: int, n: nat) -> Result<(Seq<(i64, Seq<(TileEntityPosition, Option<(u32, TileEntityPosition, Seq<u8>)>)>)>, int), ReadFailure>
    decreases n,
{
    if n == 0 {
        Ok((Seq::empty(), p))
    } else {
        match parse_te_lists(d, p, (n - 1) as nat) {
            Err(f) => Err(f),
            Ok((ls, p1)) => match parse_te_list(d, p1) {
                Err(f) => Err(f),
                Ok((l, p2)) => Ok((ls.push(l), p2)),
            },
        }
    }
}

/// A segment's block entity history at `p`: its length, at most
/// `MAX_DELTA_LENGTH`, then the lists.
pub open spec fn parse_tile_entities(d: Seq<u8>, p: int) -> Result<(Seq<(i64, Seq<(TileEntityPosition, Option<(u32, TileEntityPosition, Seq<u8>)>)>)>, int), ReadFailure> {
    match parse_uint(d, p, 8) {
        Err(f) => Err(f),
        Ok((n, p1)) => if n > MAX_DELTA_LENGTH {
            Err(ReadFailure::LengthExceeded)
        } else {
            parse_te_lists(d, p1, n as nat)
        },
    }
}

/// The map that recording `cs` in order builds, later changes over earlier ones.
pub open spec fn changes_map(cs: Seq<(TileEntityPosition, Option<(u32, TileEntityPosition, Seq<u8>)>)>) -> Map<TileEntityPosition, Option<(u32, TileEntityPosition, Seq<u8>)>>
    decreases cs.len(),
{
    if cs.len() == 0 {
        Map::empty()
    } else {
        changes_map(cs.drop_last()).insert(cs.last().0, cs.last().1)
    }
}

proof fn lemma_te_changes_stay_failed(d: Seq<u8>, p: int, i: nat, n: nat)
    requires
        i <= n,
        parse_te_changes(d, p, i) is Err,
    ensures
        parse_te_changes(d, p, n) == parse_te_changes(d, p, i),
    decreases n - i,
{
    if i < n {
        lemma_te_changes_stay_failed(d, p, i, (n - 1) as nat);
    }
}

proof fn lemma_te_lists_stay_failed(d: Seq<u8>, p: int, i: nat, n: nat)
    requires
        i <= n,
        parse_te_lists(d, p, i) is Err,
    ensures
        parse_te_lists(d, p, n) == parse_te_lists(d, p, i),
    decreases n - i,
{
    if i < n {
        lemma_te_lists_stay_failed(d, p, i, (n - 1) as nat);
    }
}

impl ReadHandle {
    /// Reads one recorded change.
    fn deserialize_te_change(&mut self) -> (r: Result<(TileEntityPosition, TileEntityDelta), ReadError>)
        ensures
            final(self).data() == old(self).data(),
            final(self).context() == old(self).context(),
            final(self).max_deltas() == old(self).max_deltas(),
            final(self).tables() == old(self).tables(),
            match parse_te_change(old(self).data(), old(self).pos()) {
                Ok((c, e)) => r matches Ok(v) && v.0 == c.0 && v.1@ == c.1 && final(self).pos() == e,
                Err(f) => r is Err && reports(r->Err_0, f),
            },
    {
        let pos = TileEntityPosition::unpack(self.read_u32()?);
        let op = self.read_u8()?;
        if op == 0 {
            return Ok((pos, TileEntityDelta::Erase));
        }
        let tile_type = self.read_u32()?;
        let nbt_len = self.read_u64()?;
        if nbt_len > MAX_TILE_ENTITY_NBT_LENGTH {
            return Err(ReadError::LengthExceeded(length_message("Tile entity NBT length exceeded")));
        }
        let nbt = self.read_vec(nbt_len as usize)?;
        Ok((pos, TileEntityDelta::Put(TileEntity { tile_type, pos, nbt })))
    }

    /// Reads a segment's block entity history.
    pub fn deserialize_tile_entities(&mut self) -> (r: Result<DeltaTileEntityData, ReadError>)
        ensures
            final(self).data() == old(self).data(),
            final(self).context() == old(self).context(),
            final(self).max_deltas() == old(self).max_deltas(),
            final(self).tables() == old(self).tables(),
            match parse_tile_entities(old(self).data(), old(self).pos()) {
                Ok((ls, e)) => r matches Ok(data) && data.wf() && final(self).pos() == e && data.reverse_deltas@.len() == ls.len()
                    && forall|k: int| 0 <= k < ls.len() ==> #[trigger] data.reverse_deltas@[k].timestamp == ls[k].0
                        && data.reverse_deltas@[k].deltas.map() == changes_map(ls[k].1),
                Err(f) => r is Err && reports(r->Err_0, f),
            },
    {
        let deltas_len = self.read_u64()?;
        if deltas_len > MAX_DELTA_LENGTH {
            return Err(ReadError::LengthExceeded(length_message("Tile entity deltas length exceeded")));
        }
        let ghost d = self.data();
        let ghost p1 = self.pos();
        let mut tile_entities = DeltaTileEntityData::default();
        let mut i: u64 = 0;
        while i < deltas_len
            invariant
                i <= deltas_len <= MAX_DELTA_LENGTH,
                d == old(self).data(),
                self.data() == d,
                self.context() == old(self).context(),
                self.max_deltas() == old(self).max_deltas(),
                self.tables() == old(self).tables(),
                tile_entities.wf(),
                parse_tile_entities(old(self).data(), old(self).pos()) == parse_te_lists(d, p1, deltas_len as nat),
                parse_te_lists(d, p1, i as nat) matches Ok((ls, e)) && e == self.pos() && tile_entities.reverse_deltas@.len() == ls.len()
                    && forall|k: int| 0 <= k < ls.len() ==> #[trigger] tile_entities.reverse_deltas@[k].timestamp == ls[k].0
                        && tile_entities.reverse_deltas@[k].deltas.map() == changes_map(ls[k].1),
            decreases deltas_len - i,
        {
            let ghost before = tile_entities.reverse_deltas@;
            let ghost cur = self.pos();
            match self.deserialize_te_list() {
                Ok(list) => {
                    tile_entities.reverse_deltas.push(list);
                    proof {
                        assert forall|k: int| 0 <= k < tile_entities.reverse_deltas@.len() implies #[trigger] tile_entities.reverse_deltas@[k].deltas.wf() by {
                            if k < before.len() {
                                assert(tile_entities.reverse_deltas@[k] == before[k]);
                            }
                        }
                    }
                },
                Err(e) => {
                    proof {
                        lemma_te_lists_stay_failed(d, p1, (i + 1) as nat, deltas_len as nat);
                    }
                    return Err(e);
                },
            }
            i += 1;
        }
        proof {
            assert(i == deltas_len);
            assert(parse_te_lists(d, p1, i as nat) == parse_tile_entities(old(self).data(), old(self).pos()));
            let ls = parse_te_lists(d, p1, i as nat)->Ok_0.0;
            assert(forall|k: int| 0 <= k < ls.len() ==> #[trigger] tile_entities.reverse_deltas@[k].timestamp == ls[k].0
                && tile_entities.reverse_deltas@[k].deltas.map() == changes_map(ls[k].1));
        }
        Ok(tile_entities)
    }

    /// Reads one list of a block entity history.
    fn deserialize_te_list(&mut self) -> (r: Result<TileEntityListDelta, ReadError>)
        ensures
            final(self).data() == old(self).data(),
            final(self).context() == old(self).context(),
            final(self).max_deltas() == old(self).max_deltas(),
            final(self).tables() == old(self).tables(),
            match parse_te_list(old(self).data(), old(self).pos()) {
                Ok((l, e)) => r matches Ok(list) && list.deltas.wf() && list.timestamp == l.0 && list.deltas.map()
                    == changes_map(l.1) && final(self).pos() == e,
                Err(f) => r is Err && reports(r->Err_0, f),
            },
    {
        let timestamp = self.read_u64()? as i64;
        let list_len = self.read_u64()?;
        if list_len > MAX_TILE_ENTITY_LIST_LENGTH {
            return Err(ReadError::LengthExceeded(length_message("Tile entity list length exceeded")));
        }
        let ghost d = self.data();
        let ghost p2 = self.pos();
        let mut deltas_map: TileEntityDeltaMap = PositionMap::new();
        let mut j: u64 = 0;
        while j < list_len
            invariant
                j <= list_len <= MAX_TILE_ENTITY_LIST_LENGTH,
                d == old(self).data(),
                self.data() == d,
                self.context() == old(self).context(),
                self.max_deltas() == old(self).max_deltas(),
                self.tables() == old(self).tables(),
                deltas_map.wf(),
                parse_te_list(old(self).data(), old(self).pos()) == (match parse_te_changes(d, p2, list_len as nat) {
                    Err(f) => Err(f),
                    Ok((cs, p3)) => Ok::<((i64, Seq<(TileEntityPosition, Option<(u32, TileEntityPosition, Seq<u8>)>)>), int), ReadFailure>(((timestamp, cs), p3)),
                }),
                parse_te_changes(d, p2, j as nat) matches Ok((cs, e)) && e == self.pos() && deltas_map.map() == changes_map(cs),
            decreases list_len - j,
        {
            let ghost prev = parse_te_changes(d, p2, j as nat)->Ok_0.0;
            match self.deserialize_te_change() {
                Ok((pos, delta)) => {
                    deltas_map.insert(pos, delta);
                    proof {
                        assert(prev.push((pos, delta@)).drop_last() =~= prev);
                    }
                },
                Err(e) => {
                    proof {
                        lemma_te_changes_stay_failed(d, p2, (j + 1) as nat, list_len as nat);
                    }
                    return Err(e);
                },
            }
            j += 1;
        }
        Ok(TileEntityListDelta { timestamp, deltas: deltas_map })
    }
}


/// `n` 64-bit values from `p` on, read one after the other.
pub open spec fn parse_u64s(d: Seq<u8>, p: int, n: nat) -> Result<(Seq<u64>, int), ReadFailure>
    decreases n,
{
    if n == 0 {
        Ok((Seq::empty(), p))
    } else {
        match parse_uint(d, p, 8) {
            Err(f) => Err(f),
            Ok((v, p1)) => match parse_u64s(d, p1, (n - 1) as nat) {
                Err(f) => Err(f),
                Ok((vs, p2)) => Ok((seq![v as u64] + vs, p2)),
            },
        }
    }
}

/// Packed data as plain values: whether it is one atom, that atom, the
/// packed longs, and the palette's atoms and bits per entry.
pub open spec fn packed_view<const N: usize>(data: PackedData<N>) -> (bool, u16, Seq<u64>, Seq<u16>, usize) {
    match data.data {
        Data::Single(atom) => (true, atom, Seq::empty(), Seq::empty(), 0usize),
        Data::Paletted(p) => (false, 0u16, p.packed_long_array@, p.palette.palette@, p.palette.bits_per_entry),
    }
}

/// A packed snapshot at `p`: its timestamp, a type byte, then for type 0 one
/// 16-bit atom, otherwise the number of longs (at most `MAX_PACKED_LENGTH`),
/// the longs, and the index of its palette in `table` (`u32::MAX` for the
/// direct palette).
pub open spec fn parse_packed_snapshot(d: Seq<u8>, p: int, table: Seq<(Seq<u16>, usize)>) -> Result<
    ((i64, (bool, u16, Seq<u64>, Seq<u16>, usize)), int),
    ReadFailure,
> {
    match parse_uint(d, p, 8) {
        Err(f) => Err(f),
        Ok((ts, p1)) => match parse_uint(d, p1, 1) {
            Err(f) => Err(f),
            Ok((ty, p2)) => if ty == 0 {
                match parse_uint(d, p2, 2) {
                    Err(f) => Err(f),
                    Ok((v, p3)) => Ok((((ts as u64) as i64, (true, v as u16, Seq::empty(), Seq::empty(), 0usize)), p3)),
                }
            } else {
                match parse_uint(d, p2, 8) {
                    Err(f) => Err(f),
                    Ok((len, p3)) => if len > MAX_PACKED_LENGTH {
                        Err(ReadFailure::LengthExceeded)
                    } else {
                        match parse_u64s(d, p3, len as nat) {
                            Err(f) => Err(f),
                            Ok((longs, p4)) => match parse_uint(d, p4, 4) {
                                Err(f) => Err(f),
                                Ok((idx, p5)) => if idx == u32::MAX {
                                    Ok((((ts as u64) as i64, (false, 0u16, longs, Seq::empty(), 16usize)), p5))
                                } else if idx >= table.len() {
                                    Err(ReadFailure::InvalidPaletteIndex(idx as u32, table.len() as usize))
                                } else {
                                    Ok((((ts as u64) as i64, (false, 0u16, longs, table[idx].0, table[idx].1)), p5))
                                },
                            },
                        }
                    },
                }
            },
        },
    }
}

/// A copy of a palette.
fn copy_palette(p: &Palette) -> (r: Palette)
    ensures
        palette_view(r) == palette_view(*p),
{
    let mut atoms: Vec<u16> = Vec::new();
    let mut i: usize = 0;
    while i < p.palette.len()
        invariant
            i <= p.palette@.len(),
            atoms@ == p.palette@.take(i as int),
        decreases p.palette@.len() - i,
    {
        atoms.push(p.palette[i]);
        proof {
            assert(atoms@ =~= p.palette@.take(i + 1));
        }
        i += 1;
    }
    proof {
        assert(atoms@ =~= p.palette@);
    }
    Palette { palette: atoms, bits_per_entry: p.bits_per_entry }
}

impl ReadHandle {
    /// Reads `n` 64-bit values.
    pub(crate) fn read_u64s(&mut self, n: usize) -> (r: Result<Vec<u64>, ReadError>)
        ensures
            final(self).data() == old(self).data(),
            final(self).context() == old(self).context(),
            final(self).max_deltas() == old(self).max_deltas(),
            final(self).tables() == old(self).tables(),
            match parse_u64s(old(self).data(), old(self).pos(), n as nat) {
                Ok((vs, e)) => r matches Ok(v) && v@ == vs && final(self).pos() == e,
                Err(f) => r is Err && reports(r->Err_0, f),
            },
    {
        let ghost d = self.data();
        let ghost p1 = self.pos();
        let mut out: Vec<u64> = Vec::new();
        let mut i: usize = 0;
        proof {
            assert(parse_u64s(d, p1, n as nat) matches Ok((vs, e)) ==> out@ + vs =~= vs);
        }
        while i < n
            invariant
                i <= n,
                d == old(self).data(),
                p1 == old(self).pos(),
                self.data() == d,
                self.context() == old(self).context(),
                self.max_deltas() == old(self).max_deltas(),
                self.tables() == old(self).tables(),
                parse_u64s(d, p1, n as nat) == (match parse_u64s(d, self.pos(), (n - i) as nat) {
                    Ok((vs, e)) => Ok((out@ + vs, e)),
                    Err(f) => Err::<(Seq<u64>, int), ReadFailure>(f),
                }),
            decreases n - i,
        {
            let v = self.read_u64()?;
            proof {
                let ghost rest = parse_u64s(d, self.pos(), (n - i - 1) as nat);
                if let Ok((vs, e)) = rest {
                    assert(out@.push(v) + vs =~= out@ + (seq![v] + vs));
                }
            }
            out.push(v);
            i += 1;
        }
        proof {
            assert(out@ + Seq::<u64>::empty() =~= out@);
        }
        Ok(out)
    }

    /// Reads a packed snapshot into `snapshot`, with its palette from
    /// `palette_table`. The timestamp is set as soon as it is read; the data
    /// only once the whole snapshot was read.
    pub fn deserialize_packed_snapshot<const UNPACKED_SIZE: usize>(
        &mut self,
        snapshot: &mut PackedSnapshot<UNPACKED_SIZE>,
        palette_table: &[Palette],
    ) -> (r: Result<(), ReadError>)
        ensures
            final(self).data() == old(self).data(),
            final(self).context() == old(self).context(),
            final(self).max_deltas() == old(self).max_deltas(),
            final(self).tables() == old(self).tables(),
            match parse_packed_snapshot(
                old(self).data(),
                old(self).pos(),
                palette_table@.map_values(|p: Palette| palette_view(p)),
            ) {
                Ok(((ts, v), e)) => r is Ok && final(snapshot).timestamp == ts && packed_view(final(snapshot).data) == v
                    && final(self).pos() == e,
                Err(f) => r is Err && reports(r->Err_0, f) && final(snapshot).data == old(snapshot).data && (if fits(
                    old(self).data(),
                    old(self).pos(),
                    8,
                ) {
                    final(snapshot).timestamp == (le_at(old(self).data(), old(self).pos(), 8) as u64) as i64
                } else {
                    final(snapshot).timestamp == old(snapshot).timestamp
                }),
            },
    {
        let ghost table = palette_table@.map_values(|p: Palette| palette_view(p));
        let ts = self.read_u64()?;
        snapshot.timestamp = ts as i64;
        let data_type = self.read_u8()?;
        if data_type == 0 {
            let single = self.read_u16()?;
            snapshot.data = PackedData { data: Data::Single(single) };
            return Ok(());
        }
        let packed_length = self.read_u64()?;
        if packed_length > MAX_PACKED_LENGTH {
            return Err(ReadError::LengthExceeded(length_message("Packed length invalid")));
        }
        let longs = self.read_u64s(packed_length as usize)?;
        let palette_index = self.read_u32()?;
        let palette = if palette_index == u32::MAX {
            direct_palette()
        } else {
            if palette_index as usize >= palette_table.len() {
                return Err(ReadError::InvalidPaletteIndex { index: palette_index, max: palette_table.len() });
            }
            copy_palette(&palette_table[palette_index as usize])
        };
        snapshot.data = PackedData { data: Data::Paletted(PalettedData { packed_long_array: longs, palette }) };
        Ok(())
    }
}


/// Skips a packed snapshot at `p`, giving the position after it; the longs
/// are stepped over without being read, and a step past the largest position
/// is refused.
pub open spec fn skip_packed_snapshot(d: Seq<u8>, p: int) -> Result<int, ReadFailure> {
    match parse_uint(d, p, 8) {
        Err(f) => Err(f),
        Ok((_ts, p1)) => match parse_uint(d, p1, 1) {
            Err(f) => Err(f),
            Ok((ty, p2)) => if ty == 0 {
                match parse_uint(d, p2, 2) {
                    Err(f) => Err(f),
                    Ok((_v, p3)) => Ok(p3),
                }
            } else {
                match parse_uint(d, p2, 8) {
                    Err(f) => Err(f),
                    Ok((len, p3)) => if p3 + 8 * len > usize::MAX {
                        Err(ReadFailure::OutOfBounds(p3 as usize))
                    } else {
                        match parse_uint(d, p3 + 8 * len, 4) {
                            Err(f) => Err(f),
                            Ok((_idx, p4)) => Ok(p4),
                        }
                    },
                }
            },
        },
    }
}

proof fn lemma_parse_u64s_end(d: Seq<u8>, p: int, n: nat)
    ensures
        parse_u64s(d, p, n) matches Ok((_vs, e)) ==> e == p + 8 * n && (n > 0 ==> p + 8 * n <= d.len()),
    decreases n,
{
    if n > 0 {
        lemma_parse_u64s_end(d, p + 8, (n - 1) as nat);
        if let Ok((vs, e)) = parse_u64s(d, p, n) {
            assert(fits(d, p, 8));
            assert(parse_uint(d, p, 8) == Ok::<(int, int), ReadFailure>((le_at(d, p, 8), p + 8)));
            assert(parse_u64s(d, p + 8, (n - 1) as nat) is Ok);
            assert(e == parse_u64s(d, p + 8, (n - 1) as nat)->Ok_0.1);
        }
    }
}

/// Skipping a snapshot ends exactly where reading it ends: whenever the
/// snapshot at `p` reads, skipping it gives the position after it; a
/// single-atom snapshot takes its eight timestamp bytes, its type byte and
/// two atom bytes.
pub proof fn law_skip_matches_read(d: Seq<u8>, p: int, table: Seq<(Seq<u16>, usize)>)
    requires
        d.len() <= usize::MAX,
    ensures
        parse_packed_snapshot(d, p, table) matches Ok((v, e)) ==> skip_packed_snapshot(d, p) == Ok::<int, ReadFailure>(e),
        parse_packed_snapshot(d, p, table) matches Ok((v, e)) ==> (v.1.0 ==> e == p + 11),
{
    if let Ok((v, e)) = parse_packed_snapshot(d, p, table) {
        assert(fits(d, p, 8));
        assert(fits(d, p + 8, 1));
        let p2 = p + 9;
        if le_at(d, p + 8, 1) != 0 {
            assert(fits(d, p2, 8));
            let len = le_at(d, p2, 8);
            lemma_le_value_bound(d.subrange(p2, p2 + 8));
            let p3 = p2 + 8;
            lemma_parse_u64s_end(d, p3, len as nat);
            assert(len <= MAX_PACKED_LENGTH);
            assert(parse_u64s(d, p3, len as nat) is Ok);
            let p4 = parse_u64s(d, p3, len as nat)->Ok_0.1;
            assert(p4 == p3 + 8 * len);
            assert(p3 + 8 * len <= usize::MAX);
        }
    }
}

/// The snapshots `i..n` of a history at `p`: each read, or skipped (`None`)
/// where `max_deltas` is not 0 and the index is `max_deltas` or more.
pub open spec fn parse_snapshots(d: Seq<u8>, p: int, table: Seq<(Seq<u16>, usize)>, max_deltas: int, i: nat, n: nat) -> Result<
    (Seq<Option<(i64, (bool, u16, Seq<u64>, Seq<u16>, usize))>>, int),
    ReadFailure,
>
    decreases n - i,
{
    if i >= n {
        Ok((Seq::empty(), p))
    } else if max_deltas != 0 && i >= max_deltas {
        match skip_packed_snapshot(d, p) {
            Err(f) => Err(f),
            Ok(p1) => match parse_snapshots(d, p1, table, max_deltas, i + 1, n) {
                Err(f) => Err(f),
                Ok((rest, e)) => Ok((seq![None] + rest, e)),
            },
        }
    } else {
        match parse_packed_snapshot(d, p, table) {
            Err(f) => Err(f),
            Ok((v, p1)) => match parse_snapshots(d, p1, table, max_deltas, i + 1, n) {
                Err(f) => Err(f),
                Ok((rest, e)) => Ok((seq![Some(v)] + rest, e)),
            },
        }
    }
}

/// A history at `p`: its number of snapshots, at most `MAX_DELTA_LENGTH`,
/// then the snapshots.
pub open spec fn parse_delta_data(d: Seq<u8>, p: int, table: Seq<(Seq<u16>, usize)>, max_deltas: int) -> Result<
    (Seq<Option<(i64, (bool, u16, Seq<u64>, Seq<u16>, usize))>>, int),
    ReadFailure,
> {
    match parse_uint(d, p, 8) {
        Err(f) => Err(f),
        Ok((len, p1)) => if len > MAX_DELTA_LENGTH {
            Err(ReadFailure::LengthExceeded)
        } else {
            parse_snapshots(d, p1, table, max_deltas, 0, len as nat)
        },
    }
}

/// The snapshot that a history is padded with: atom 0 at time 0.
pub open spec fn blank_snapshot<const N: usize>() -> PackedSnapshot<N> {
    PackedSnapshot { data: PackedData { data: Data::Single(0) }, timestamp: 0 }
}

impl ReadHandle {
    /// Steps over a packed snapshot.
    fn skip_packed_snapshot(&mut self) -> (r: Result<(), ReadError>)
        ensures
            final(self).data() == old(self).data(),
            final(self).context() == old(self).context(),
            final(self).max_deltas() == old(self).max_deltas(),
            final(self).tables() == old(self).tables(),
            match skip_packed_snapshot(old(self).data(), old(self).pos()) {
                Ok(e) => r is Ok && final(self).pos() == e,
                Err(f) => r is Err && reports(r->Err_0, f),
            },
    {
        let _ts = self.read_u64()?;
        let dtype = self.read_u8()?;
        if dtype == 0 {
            let _single = self.read_u16()?;
        } else {
            let plen = self.read_u64()?;
            if plen > ((usize::MAX - self.pos) / 8) as u64 {
                return Err(ReadError::OutOfBounds { offset: self.pos });
            }
            self.pos = self.pos + (plen as usize) * 8;
            let _palette_index = self.read_u32()?;
        }
        Ok(())
    }

    /// Reads a history into `deltas`: the list is cut or padded with blank
    /// snapshots to the history's length, then each snapshot is read into its
    /// place, except that when `max_deltas` is not 0 those from index
    /// `max_deltas` on are stepped over and keep what the list held there.
    pub fn deserialize_packed_delta_data<const UNPACKED_SIZE: usize>(
        &mut self,
        deltas: &mut PackedDeltaData<UNPACKED_SIZE>,
        palette_table: &[Palette],
    ) -> (r: Result<(), ReadError>)
        ensures
            final(self).data() == old(self).data(),
            final(self).context() == old(self).context(),
            final(self).max_deltas() == old(self).max_deltas(),
            final(self).tables() == old(self).tables(),
            match parse_delta_data(
                old(self).data(),
                old(self).pos(),
                palette_table@.map_values(|p: Palette| palette_view(p)),
                old(self).max_deltas(),
            ) {
                Ok((snaps, e)) => r is Ok && final(self).pos() == e && final(deltas).reverse_deltas@.len() == snaps.len()
                    && forall|k: int|
                    0 <= k < snaps.len() ==> match #[trigger] snaps[k] {
                        Some((ts, v)) => final(deltas).reverse_deltas@[k].timestamp == ts && packed_view(
                            final(deltas).reverse_deltas@[k].data,
                        ) == v,
                        None => final(deltas).reverse_deltas@[k] == (if k < old(deltas).reverse_deltas@.len() {
                            old(deltas).reverse_deltas@[k]
                        } else {
                            blank_snapshot::<UNPACKED_SIZE>()
                        }),
                    },
                Err(f) => r is Err && reports(r->Err_0, f),
            },
    {
        let ghost table = palette_table@.map_values(|p: Palette| palette_view(p));
        let ghost d = self.data();
        let delta_length = self.read_u64()?;
        if delta_length > MAX_DELTA_LENGTH {
            return Err(ReadError::LengthExceeded(length_message("Delta length too high")));
        }
        let len = delta_length as usize;
        let ghost old_deltas = deltas.reverse_deltas@;
        deltas.reverse_deltas.truncate(len);
        while deltas.reverse_deltas.len() < len
            invariant
                deltas.reverse_deltas@.len() <= len,
                deltas.reverse_deltas@.len() >= (if old_deltas.len() < len { old_deltas.len() } else { len as nat }),
                forall|k: int| 0 <= k < deltas.reverse_deltas@.len() ==> #[trigger] deltas.reverse_deltas@[k] == (if k < old_deltas.len() {
                    old_deltas[k]
                } else {
                    blank_snapshot::<UNPACKED_SIZE>()
                }),
            decreases len - deltas.reverse_deltas@.len(),
        {
            let ghost cur = deltas.reverse_deltas@.len();
            deltas.reverse_deltas.push(PackedSnapshot { data: PackedData { data: Data::Single(0) }, timestamp: 0 });
            proof {
                assert(deltas.reverse_deltas@[cur as int] == blank_snapshot::<UNPACKED_SIZE>());
            }
        }
        let ghost padded = deltas.reverse_deltas@;
        let ghost p1 = self.pos();
        let ghost md = self.max_deltas();
        let ghost mut got: Seq<Option<(i64, (bool, u16, Seq<u64>, Seq<u16>, usize))>> = Seq::empty();
        let mut delta_index: usize = 0;
        proof {
            assert(parse_snapshots(d, p1, table, md, 0, len as nat) matches Ok((rest, e)) ==> got + rest =~= rest);
        }
        while delta_index < len
            invariant
                delta_index <= len <= MAX_DELTA_LENGTH,
                d == old(self).data(),
                self.data() == d,
                self.context() == old(self).context(),
                self.max_deltas() == old(self).max_deltas(),
                self.tables() == old(self).tables(),
                md == old(self).max_deltas(),
                md == self.max_deltas,
                table == palette_table@.map_values(|p: Palette| palette_view(p)),
                parse_delta_data(d, old(self).pos(), table, md) == parse_snapshots(d, p1, table, md, 0, len as nat),
                got.len() == delta_index,
                deltas.reverse_deltas@.len() == len,
                padded.len() == len,
                parse_snapshots(d, p1, table, md, 0, len as nat) == (match parse_snapshots(
                    d,
                    self.pos(),
                    table,
                    md,
                    delta_index as nat,
                    len as nat,
                ) {
                    Ok((rest, e)) => Ok((got + rest, e)),
                    Err(f) => Err::<(Seq<Option<(i64, (bool, u16, Seq<u64>, Seq<u16>, usize))>>, int), ReadFailure>(f),
                }),
                forall|k: int|
                    0 <= k < delta_index ==> match #[trigger] got[k] {
                        Some((ts, v)) => deltas.reverse_deltas@[k].timestamp == ts && packed_view(deltas.reverse_deltas@[k].data) == v,
                        None => deltas.reverse_deltas@[k] == padded[k],
                    },
                forall|k: int| delta_index <= k < len ==> #[trigger] deltas.reverse_deltas@[k] == padded[k],
            decreases len - delta_index,
        {
            let ghost pos0 = self.pos();
            if self.max_deltas != 0 && delta_index >= self.max_deltas {
                match self.skip_packed_snapshot() {
                    Ok(()) => {},
                    Err(e) => {
                        proof {
                            assert(parse_snapshots(d, pos0, table, md, delta_index as nat, len as nat) == (match skip_packed_snapshot(d, pos0) {
                                Err(f) => Err(f),
                                Ok(q) => match parse_snapshots(d, q, table, md, (delta_index + 1) as nat, len as nat) {
                                    Err(f) => Err(f),
                                    Ok((rest, e)) => Ok((seq![None] + rest, e)),
                                },
                            }));
                        }
                        return Err(e);
                    },
                }
                proof {
                    let rest = parse_snapshots(d, self.pos(), table, md, (delta_index + 1) as nat, len as nat);
                    if let Ok((vs, e)) = rest {
                        assert(got.push(None) + vs =~= got + (seq![None] + vs));
                    }
                    got = got.push(None);
                }
            } else {
                match self.deserialize_packed_snapshot(&mut deltas.reverse_deltas[delta_index], palette_table) {
                    Ok(()) => {},
                    Err(e) => {
                        proof {
                            assert(parse_snapshots(d, pos0, table, md, delta_index as nat, len as nat) == (match parse_packed_snapshot(d, pos0, table) {
                                Err(f) => Err(f),
                                Ok((v, q)) => match parse_snapshots(d, q, table, md, (delta_index + 1) as nat, len as nat) {
                                    Err(f) => Err(f),
                                    Ok((rest, e)) => Ok((seq![Some(v)] + rest, e)),
                                },
                            }));
                        }
                        return Err(e);
                    },
                }
                proof {
                    let item = parse_packed_snapshot(d, pos0, table).unwrap().0;
                    let rest = parse_snapshots(d, self.pos(), table, md, (delta_index + 1) as nat, len as nat);
                    if let Ok((vs, e)) = rest {
                        assert(got.push(Some(item)) + vs =~= got + (seq![Some(item)] + vs));
                    }
                    got = got.push(Some(item));
                }
            }
            delta_index += 1;
        }
        proof {
            assert(got + Seq::empty() =~= got);
        }
        Ok(())
    }
}


/// A snapshot as read: its timestamp and its packing.
pub type SnapshotView = (i64, (bool, u16, Seq<u64>, Seq<u16>, usize));

/// A history as read: each snapshot read, or skipped (`None`).
pub type HistoryView = Seq<Option<SnapshotView>>;

/// A block entity history as read: each list's timestamp and changes.
pub type TileEntitiesView = Seq<(i64, Seq<(TileEntityPosition, Option<(u32, TileEntityPosition, Seq<u8>)>)>)>;

/// A segment as read: its block histories, biome histories, states and
/// block entity history.
pub type SegmentView = (Seq<HistoryView>, Seq<HistoryView>, Seq<SegmentState>, TileEntitiesView);

/// `n` histories one after another from `p`.
pub open spec fn parse_sections(d: Seq<u8>, p: int, table: Seq<(Seq<u16>, usize)>, max_deltas: int, n: nat) -> Result<
    (Seq<HistoryView>, int),
    ReadFailure,
>
    decreases n,
{
    if n == 0 {
        Ok((Seq::empty(), p))
    } else {
        match parse_sections(d, p, table, max_deltas, (n - 1) as nat) {
            Err(f) => Err(f),
            Ok((hs, p1)) => match parse_delta_data(d, p1, table, max_deltas) {
                Err(f) => Err(f),
                Ok((h, p2)) => Ok((hs.push(h), p2)),
            },
        }
    }
}

/// A segment at `p` with `sc` sections: its block histories against the
/// block table `bt`, its biome histories against the biome table `ct`, its
/// state history and its block entity history.
pub open spec fn parse_segment(
    d: Seq<u8>,
    p: int,
    bt: Seq<(Seq<u16>, usize)>,
    ct: Seq<(Seq<u16>, usize)>,
    max_deltas: int,
    sc: nat,
) -> Result<(SegmentView, int), ReadFailure> {
    match parse_sections(d, p, bt, max_deltas, sc) {
        Err(f) => Err(f),
        Ok((bs, p1)) => match parse_sections(d, p1, ct, max_deltas, sc) {
            Err(f) => Err(f),
            Ok((cs, p2)) => match parse_segment_info(d, p2) {
                Err(f) => Err(f),
                Ok((states, p3)) => match parse_tile_entities(d, p3) {
                    Err(f) => Err(f),
                    Ok((tes, p4)) => Ok(((bs, cs, states, tes), p4)),
                },
            },
        },
    }
}

/// The first `n` slots of a region at `p`: a byte each, 0 for an empty slot,
/// anything else followed by a segment.
pub open spec fn parse_slots(
    d: Seq<u8>,
    p: int,
    bt: Seq<(Seq<u16>, usize)>,
    ct: Seq<(Seq<u16>, usize)>,
    max_deltas: int,
    sc: nat,
    n: nat,
) -> Result<(Seq<Option<SegmentView>>, int), ReadFailure>
    decreases n,
{
    if n == 0 {
        Ok((Seq::empty(), p))
    } else {
        match parse_slots(d, p, bt, ct, max_deltas, sc, (n - 1) as nat) {
            Err(f) => Err(f),
            Ok((slots, p1)) => match parse_uint(d, p1, 1) {
                Err(f) => Err(f),
                Ok((ind, p2)) => if ind == 0 {
                    Ok((slots.push(None), p2))
                } else {
                    match parse_segment(d, p2, bt, ct, max_deltas, sc) {
                        Err(f) => Err(f),
                        Ok((v, p3)) => Ok((slots.push(Some(v)), p3)),
                    }
                },
            },
        }
    }
}

/// A region body at `p`: the block and biome palette tables, then a slot for
/// every segment of the region.
pub open spec fn parse_region(d: Seq<u8>, p: int, max_deltas: int, sc: nat) -> Result<
    ((Seq<(Seq<u16>, usize)>, Seq<(Seq<u16>, usize)>, Seq<Option<SegmentView>>), int),
    ReadFailure,
> {
    match parse_palette_table(d, p) {
        Err(f) => Err(f),
        Ok((bt, p1)) => match parse_palette_table(d, p1) {
            Err(f) => Err(f),
            Ok((ct, p2)) => match parse_slots(d, p2, bt, ct, max_deltas, sc, SEGMENTS_PER_REGION as nat) {
                Err(f) => Err(f),
                Ok((slots, p3)) => Ok(((bt, ct, slots), p3)),
            },
        },
    }
}

/// `h` holds the history `v`, read into an empty list.
pub open spec fn history_read<const N: usize>(h: PackedDeltaData<N>, v: HistoryView) -> bool {
    &&& h.reverse_deltas@.len() == v.len()
    &&& forall|k: int| 0 <= k < v.len() ==> match #[trigger] v[k] {
        Some((ts, pv)) => h.reverse_deltas@[k].timestamp == ts && packed_view(h.reverse_deltas@[k].data) == pv,
        None => h.reverse_deltas@[k] == blank_snapshot::<N>(),
    }
}

/// `data` holds the block entity history `ls`.
pub open spec fn tile_entities_read(data: DeltaTileEntityData, ls: TileEntitiesView) -> bool {
    &&& data.wf()
    &&& data.reverse_deltas@.len() == ls.len()
    &&& forall|k: int| 0 <= k < ls.len() ==> #[trigger] data.reverse_deltas@[k].timestamp == ls[k].0
        && data.reverse_deltas@[k].deltas.map() == changes_map(ls[k].1)
}

/// `seg` is the segment of `sc` sections that `v` describes; the sections
/// past `sc` are empty.
pub open spec fn segment_read(seg: Segment, v: SegmentView, sc: nat) -> bool {
    &&& seg.section_count == sc
    &&& seg.block_sections.section_count == sc
    &&& seg.biome_sections.section_count == sc
    &&& seg.block_sections.sections@.len() == MAX_SECTION_COUNT
    &&& seg.biome_sections.sections@.len() == MAX_SECTION_COUNT
    &&& v.0.len() == sc
    &&& v.1.len() == sc
    &&& forall|i: int| 0 <= i < sc ==> history_read(#[trigger] seg.block_sections.sections@[i], v.0[i])
    &&& forall|i: int| 0 <= i < sc ==> history_read(#[trigger] seg.biome_sections.sections@[i], v.1[i])
    &&& forall|i: int| sc <= i < MAX_SECTION_COUNT ==> (#[trigger] seg.block_sections.sections@[i]).reverse_deltas@.len() == 0
    &&& forall|i: int| sc <= i < MAX_SECTION_COUNT ==> (#[trigger] seg.biome_sections.sections@[i]).reverse_deltas@.len() == 0
    &&& seg.info.reverse_deltas@ == v.2
    &&& tile_entities_read(seg.tile_entities, v.3)
}

proof fn lemma_sections_stay_failed(d: Seq<u8>, p: int, t: Seq<(Seq<u16>, usize)>, md: int, i: nat, n: nat)
    requires
        i <= n,
        parse_sections(d, p, t, md, i) is Err,
    ensures
        parse_sections(d, p, t, md, n) == parse_sections(d, p, t, md, i),
    decreases n - i,
{
    if i < n {
        lemma_sections_stay_failed(d, p, t, md, i, (n - 1) as nat);
    }
}

proof fn lemma_slots_stay_failed(
    d: Seq<u8>,
    p: int,
    bt: Seq<(Seq<u16>, usize)>,
    ct: Seq<(Seq<u16>, usize)>,
    md: int,
    sc: nat,
    i: nat,
    n: nat,
)
    requires
        i <= n,
        parse_slots(d, p, bt, ct, md, sc, i) is Err,
    ensures
        parse_slots(d, p, bt, ct, md, sc, n) == parse_slots(d, p, bt, ct, md, sc, i),
    decreases n - i,
{
    if i < n {
        lemma_slots_stay_failed(d, p, bt, ct, md, sc, i, (n - 1) as nat);
    }
}

/// A copy of a palette table.
fn copy_table(t: &Vec<Palette>) -> (r: Vec<Palette>)
    ensures
        r@.map_values(|p: Palette| palette_view(p)) == t@.map_values(|p: Palette| palette_view(p)),
{
    let mut out: Vec<Palette> = Vec::new();
    let mut i: usize = 0;
    while i < t.len()
        invariant
            i <= t@.len(),
            out@.len() == i,
            forall|k: int| 0 <= k < i ==> palette_view(#[trigger] out@[k]) == palette_view(t@[k]),
        decreases t@.len() - i,
    {
        out.push(copy_palette(&t[i]));
        i += 1;
    }
    proof {
        assert(out@.map_values(|p: Palette| palette_view(p)) =~= t@.map_values(|p: Palette| palette_view(p)));
    }
    out
}

impl ReadHandle {
    /// The block palette table read so far.
    pub open spec fn block_tables(&self) -> Seq<(Seq<u16>, usize)> {
        self.tables().0
    }

    /// The biome palette table read so far.
    pub open spec fn biome_tables(&self) -> Seq<(Seq<u16>, usize)> {
        self.tables().1
    }

    /// Reads `section_count` histories into the first sections of `secs`,
    /// each of which starts empty.
    fn deserialize_sections<const N: usize>(
        &mut self,
        secs: &mut Vec<PackedDeltaData<N>>,
        section_count: usize,
        table: &Vec<Palette>,
    ) -> (r: Result<(), ReadError>)
        requires
            section_count <= old(secs)@.len(),
            forall|i: int| 0 <= i < old(secs)@.len() ==> (#[trigger] old(secs)@[i]).reverse_deltas@.len() == 0,
        ensures
            final(self).data() == old(self).data(),
            final(self).context() == old(self).context(),
            final(self).max_deltas() == old(self).max_deltas(),
            final(self).tables() == old(self).tables(),
            final(secs)@.len() == old(secs)@.len(),
            match parse_sections(
                old(self).data(),
                old(self).pos(),
                table@.map_values(|p: Palette| palette_view(p)),
                old(self).max_deltas(),
                section_count as nat,
            ) {
                Ok((hs, e)) => r is Ok && final(self).pos() == e && hs.len() == section_count && (forall|i: int|
                    0 <= i < section_count ==> history_read(#[trigger] final(secs)@[i], hs[i])) && (forall|i: int|
                    section_count <= i < old(secs)@.len() ==> (#[trigger] final(secs)@[i]).reverse_deltas@.len() == 0),
                Err(f) => r is Err && reports(r->Err_0, f),
            },
    {
        let ghost t = table@.map_values(|p: Palette| palette_view(p));
        let ghost d = self.data();
        let ghost md = self.max_deltas();
        let ghost p0 = self.pos();
        let mut i: usize = 0;
        while i < section_count
            invariant
                i <= section_count <= secs@.len(),
                secs@.len() == old(secs)@.len(),
                t == table@.map_values(|p: Palette| palette_view(p)),
                d == old(self).data(),
                self.data() == d,
                self.context() == old(self).context(),
                self.max_deltas() == md,
                md == old(self).max_deltas(),
                p0 == old(self).pos(),
                self.tables() == old(self).tables(),
                parse_sections(d, p0, t, md, i as nat) matches Ok((hs, e)) && e == self.pos() && hs.len() == i
                    && forall|k: int| 0 <= k < i ==> history_read(#[trigger] secs@[k], hs[k]),
                forall|k: int| i <= k < secs@.len() ==> (#[trigger] secs@[k]).reverse_deltas@.len() == 0,
            decreases section_count - i,
        {
            let ghost before = secs@;
            let ghost cur = self.pos();
            let ghost hs = parse_sections(d, p0, t, md, i as nat)->Ok_0.0;
            match self.deserialize_packed_delta_data(&mut secs[i], table.as_slice()) {
                Ok(()) => {},
                Err(e) => {
                    proof {
                        lemma_sections_stay_failed(d, p0, t, md, (i + 1) as nat, section_count as nat);
                    }
                    return Err(e);
                },
            }
            proof {
                let h = parse_delta_data(d, cur, t, md)->Ok_0.0;
                assert(parse_sections(d, p0, t, md, (i + 1) as nat) == Ok::<(Seq<HistoryView>, int), ReadFailure>((hs.push(h), self.pos())));
                assert(history_read(secs@[i as int], h));
                assert forall|k: int| 0 <= k < i + 1 implies history_read(#[trigger] secs@[k], hs.push(h)[k]) by {
                    if k < i {
                        assert(secs@[k] == before[k]);
                    }
                }
                assert forall|k: int| i + 1 <= k < secs@.len() implies (#[trigger] secs@[k]).reverse_deltas@.len() == 0 by {
                    assert(secs@[k] == before[k]);
                }
            }
            i += 1;
        }
        Ok(())
    }

    /// Reads a segment with the context's section count, against the palette
    /// tables read so far.
    pub fn deserialize_segment(&mut self) -> (r: Result<Arc<Segment>, ReadError>)
        requires
            old(self).context().section_count <= MAX_SECTION_COUNT,
        ensures
            final(self).data() == old(self).data(),
            final(self).context() == old(self).context(),
            final(self).max_deltas() == old(self).max_deltas(),
            final(self).tables() == old(self).tables(),
            match parse_segment(
                old(self).data(),
                old(self).pos(),
                old(self).block_tables(),
                old(self).biome_tables(),
                old(self).max_deltas(),
                old(self).context().section_count as nat,
            ) {
                Ok((v, e)) => r matches Ok(seg) && segment_read(*seg, v, old(self).context().section_count as nat)
                    && final(self).pos() == e,
                Err(f) => r is Err && reports(r->Err_0, f),
            },
    {
        let ghost d = self.data();
        let ghost md = self.max_deltas();
        let ghost bt = self.block_tables();
        let ghost ct = self.biome_tables();
        let sc = self.ctx.section_count;
        let mut segment = Segment::with_section_count(sc);
        let block_tables = copy_table(&self.block_palette_table);
        let biome_tables = copy_table(&self.biome_palette_table);
        let ghost p0 = self.pos();
        self.deserialize_sections(&mut segment.block_sections.sections, sc, &block_tables)?;
        let ghost p1 = self.pos();
        let ghost bs = parse_sections(d, p0, bt, md, sc as nat)->Ok_0.0;
        self.deserialize_sections(&mut segment.biome_sections.sections, sc, &biome_tables)?;
        let ghost p2 = self.pos();
        let ghost cs = parse_sections(d, p1, ct, md, sc as nat)->Ok_0.0;
        let info = self.deserialize_segment_info()?;
        let ghost p3 = self.pos();
        segment.info = info;
        let tes = self.deserialize_tile_entities()?;
        segment.tile_entities = tes;
        proof {
            let states = parse_segment_info(d, p2)->Ok_0.0;
            let ls = parse_tile_entities(d, p3)->Ok_0.0;
            assert(parse_segment(d, p0, bt, ct, md, sc as nat) == Ok::<(SegmentView, int), ReadFailure>(((bs, cs, states, ls), self.pos())));
            assert(segment_read(segment, (bs, cs, states, ls), sc as nat));
        }
        Ok(Arc::new(segment))
    }

    /// Reads a region body: the two palette tables, which replace those held,
    /// then a byte for each slot, and a segment into each slot whose byte is
    /// not 0; the slots of 0 keep what they held.
    pub fn deserialize_region(&mut self, region: &mut Region) -> (r: Result<(), ReadError>)
        requires
            old(region).wf(),
            old(self).context().section_count <= MAX_SECTION_COUNT,
        ensures
            final(self).data() == old(self).data(),
            final(self).context() == old(self).context(),
            final(self).max_deltas() == old(self).max_deltas(),
            final(region).wf(),
            final(region).protocol_version == old(region).protocol_version,
            match parse_region(old(self).data(), old(self).pos(), old(self).max_deltas(), old(self).context().section_count as nat) {
                Ok(((bt, ct, slots), e)) => {
                    &&& r is Ok
                    &&& final(self).pos() == e
                    &&& final(self).block_tables() == bt
                    &&& final(self).biome_tables() == ct
                    &&& forall|i: int| 0 <= i < SEGMENTS_PER_REGION ==> match #[trigger] slots[i] {
                        None => final(region).segments@[i] == old(region).segments@[i],
                        Some(v) => final(region).segments@[i] matches Some(seg) && segment_read(
                            *seg,
                            v,
                            old(self).context().section_count as nat,
                        ),
                    }
                },
                Err(f) => r is Err && reports(r->Err_0, f),
            },
    {
        let ghost d = self.data();
        let ghost md = self.max_deltas();
        let ghost sc = self.ctx.section_count as nat;
        let mut block_table: Vec<Palette> = Vec::new();
        let mut biome_table: Vec<Palette> = Vec::new();
        proof {
            assert(block_table@.map_values(|p: Palette| palette_view(p)) =~= Seq::<(Seq<u16>, usize)>::empty());
        }
        self.deserialize_palette_table(&mut block_table)?;
        self.deserialize_palette_table(&mut biome_table)?;
        self.block_palette_table = block_table;
        self.biome_palette_table = biome_table;
        let ghost bt = self.block_tables();
        let ghost ct = self.biome_tables();
        proof {
            let pb = parse_palette_table(d, old(self).pos());
            assert(bt =~= pb->Ok_0.0);
            assert(ct =~= parse_palette_table(d, pb->Ok_0.1)->Ok_0.0);
        }
        let ghost p2 = self.pos();
        let mut i: usize = 0;
        while i < SEGMENTS_PER_REGION
            invariant
                i <= SEGMENTS_PER_REGION,
                d == old(self).data(),
                self.data() == d,
                self.context() == old(self).context(),
                self.max_deltas() == md,
                md == old(self).max_deltas(),
                sc == old(self).context().section_count,
                sc <= MAX_SECTION_COUNT,
                self.block_tables() == bt,
                self.biome_tables() == ct,
                region.wf(),
                region.protocol_version == old(region).protocol_version,
                parse_region(d, old(self).pos(), md, sc) == (match parse_slots(d, p2, bt, ct, md, sc, SEGMENTS_PER_REGION as nat) {
                    Err(f) => Err(f),
                    Ok((slots, p3)) => Ok::<((Seq<(Seq<u16>, usize)>, Seq<(Seq<u16>, usize)>, Seq<Option<SegmentView>>), int), ReadFailure>(((bt, ct, slots), p3)),
                }),
                parse_slots(d, p2, bt, ct, md, sc, i as nat) matches Ok((slots, e)) && e == self.pos() && slots.len() == i
                    && forall|k: int| 0 <= k < i ==> match #[trigger] slots[k] {
                        None => region.segments@[k] == old(region).segments@[k],
                        Some(v) => region.segments@[k] matches Some(seg) && segment_read(*seg, v, sc),
                    },
                forall|k: int| i <= k < SEGMENTS_PER_REGION ==> #[trigger] region.segments@[k] == old(region).segments@[k],
            decreases SEGMENTS_PER_REGION - i,
        {
            let ghost before = region.segments@;
            let ghost slots = parse_slots(d, p2, bt, ct, md, sc, i as nat)->Ok_0.0;
            let ghost cur = self.pos();
            let indicator = match self.read_u8() {
                Ok(b) => b,
                Err(e) => {
                    proof {
                        lemma_slots_stay_failed(d, p2, bt, ct, md, sc, (i + 1) as nat, SEGMENTS_PER_REGION as nat);
                    }
                    return Err(e);
                },
            };
            if indicator != 0 {
                let seg = match self.deserialize_segment() {
                    Ok(s) => s,
                    Err(e) => {
                        proof {
                            lemma_slots_stay_failed(d, p2, bt, ct, md, sc, (i + 1) as nat, SEGMENTS_PER_REGION as nat);
                        }
                        return Err(e);
                    },
                };
                let ghost v = parse_segment(d, cur + 1, bt, ct, md, sc)->Ok_0.0;
                region.segments.set(i, Some(seg));
                proof {
                    assert(parse_slots(d, p2, bt, ct, md, sc, (i + 1) as nat) == Ok::<(Seq<Option<SegmentView>>, int), ReadFailure>((slots.push(Some(v)), self.pos())));
                    assert forall|k: int| 0 <= k < i + 1 implies match #[trigger] slots.push(Some(v))[k] {
                        None => region.segments@[k] == old(region).segments@[k],
                        Some(w) => region.segments@[k] matches Some(sg) && segment_read(*sg, w, sc),
                    } by {
                        if k < i {
                            assert(region.segments@[k] == before[k]);
                            assert(slots.push(Some(v))[k] == slots[k]);
                        }
                    }
                }
            } else {
                proof {
                    assert(parse_slots(d, p2, bt, ct, md, sc, (i + 1) as nat) == Ok::<(Seq<Option<SegmentView>>, int), ReadFailure>((slots.push(None), self.pos())));
                    assert forall|k: int| 0 <= k < i + 1 implies match #[trigger] slots.push(None)[k] {
                        None => region.segments@[k] == old(region).segments@[k],
                        Some(w) => region.segments@[k] matches Some(sg) && segment_read(*sg, w, sc),
                    } by {
                        if k < i {
                            assert(slots.push(None)[k] == slots[k]);
                        }
                    }
                }
            }
            i += 1;
        }
        Ok(())
    }
}


/// Whether `e` is a decompression failure.
pub open spec fn is_zstd_error(e: ReadError) -> bool {
    match e {
        ReadError::Zstd(_) => true,
        _ => false,
    }
}

/// The byte at `p`, as the reader takes it.
pub open spec fn byte_at(d: Seq<u8>, p: int) -> u8 {
    le_at(d, p, 1) as u8
}

/// What reading a file at `p` of `d` gives, keeping `max_deltas` deltas of
/// each history: the header (prefix, version up to the newest, dimension,
/// protocol) is checked field by field, the rest is decompressed, and the
/// region body read from it with the dimension's section count.
pub open spec fn file_read(d: Seq<u8>, p: int, max_deltas: int, r: Result<File, ReadError>) -> bool {
    let n = EXTENSION.spec_bytes().len() as int;
    let vb = byte_at(d, p + n);
    let db = byte_at(d, p + n + 1);
    if !fits(d, p, n) {
        out_of_bounds_at(r, p)
    } else if d.subrange(p, p + n) != EXTENSION.spec_bytes() {
        r matches Err(ReadError::HeaderMismatch)
    } else if !fits(d, p + n, 1) {
        out_of_bounds_at(r, p + n)
    } else if vb > ZVCR3D_LATEST_VERSION.spec_id() || vb < 1 {
        r == Err::<File, ReadError>(ReadError::InvalidVersion(vb))
    } else if !fits(d, p + n + 1, 1) {
        out_of_bounds_at(r, p + n + 1)
    } else if DimensionType::spec_from_u8(db) is None {
        r == Err::<File, ReadError>(ReadError::InvalidDimensionType(db))
    } else if !fits(d, p + n + 2, 2) {
        out_of_bounds_at(r, p + n + 2)
    } else {
        let dim = DimensionType::spec_from_u8(db).unwrap();
        let pv = le_at(d, p + n + 2, 2) as u16;
        let body = zstd_decoded(d.subrange(p + n + 4, d.len() as int));
        let sc = dim.spec_section_count() as nat;
        &&& r matches Ok(file) ==> {
            &&& file.version.spec_id() == vb
            &&& file.dimension_type == dim
            &&& file.protocol_version == pv
            &&& file.region.wf()
            &&& file.region.protocol_version == pv
            &&& (parse_region(body, 0, max_deltas, sc) matches Ok(((bt, ct, slots), e)) && forall|i: int|
                0 <= i < SEGMENTS_PER_REGION ==> match #[trigger] slots[i] {
                    None => file.region.segments@[i] is None,
                    Some(v) => file.region.segments@[i] matches Some(seg) && segment_read(*seg, v, sc),
                })
        }
        &&& r matches Err(e) ==> (is_zstd_error(e) || (parse_region(body, 0, max_deltas, sc) matches Err(f) && reports(e, f)))
        &&& (r matches Err(e) && is_zstd_error(e)) ==> !zstd_decodes(d.subrange(p + n + 4, d.len() as int))
    }
}

impl ReadHandle {
    /// Reads a whole file: its header, then its compressed region body.
    pub fn deserialize_file(&mut self) -> (r: Result<File, ReadError>)
        ensures
            final(self).data() == old(self).data(),
            final(self).max_deltas() == old(self).max_deltas(),
            file_read(old(self).data(), old(self).pos(), old(self).max_deltas(), r),
    {
        let ghost d = self.data();
        let ghost p = self.pos();
        let ghost n = EXTENSION.spec_bytes().len() as int;
        self.validate_file_prefix(EXTENSION)?;
        let version = self.deserialize_version(ZVCR3D_LATEST_VERSION)?;
        let dimension_type = self.deserialize_dimension_type()?;
        let protocol_version = self.read_u16()?;
        self.ctx.protocol_version = protocol_version;
        let ghost hdr = self.pos();
        proof {
            assert(hdr == p + n + 4);
        }
        let compressed = vstd::slice::slice_subrange(self.data.as_slice(), self.pos, self.data.len());
        let uncompressed = match decompress_zstd(compressed) {
            Ok(u) => u,
            Err(e) => {
                return Err(ReadError::Zstd(e));
            },
        };
        let mut region_handle = ReadHandle::new(uncompressed, self.max_deltas);
        region_handle.ctx = self.ctx;
        let mut file = File {
            version,
            protocol_version,
            dimension_type,
            region: Region::new(protocol_version),
        };
        proof {
            assert(compressed@ == d.subrange(p + n + 4, d.len() as int));
        }
        match region_handle.deserialize_region(&mut file.region) {
            Ok(()) => {},
            Err(e) => {
                return Err(e);
            },
        }
        Ok(file)
    }
}

} // verus!
