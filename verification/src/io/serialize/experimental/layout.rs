use vstd::prelude::*;

use crate::definitions::{SECTION_SIZE_BIOMES, SECTION_SIZE_BLOCKS};
use crate::region::palette::{bits_per_entry, spec_bits_per_entry};

verus! {

/// Bytes before the compressed body: the extension, version, dimension and
/// protocol version.
pub const HEADER_LENGTH: usize = 10;
/// One presence bit per segment slot of a region.
pub const PRESENCE_BYTES: usize = 128;
pub const PART_COUNT: usize = 16;
pub const BUCKETS: usize = 10;

/// Which kind of section a stream holds.
#[derive(Clone, Copy, PartialEq, Eq, Structural)]
pub enum Domain {
    Block,
    Biome,
}

impl Domain {
    pub open spec fn spec_offset(self) -> usize {
        match self {
            Domain::Block => 0,
            Domain::Biome => 5,
        }
    }

    /// Where this domain's buckets start.
    pub fn offset(self) -> (r: usize)
        ensures
            r == self.spec_offset(),
    {
        match self {
            Domain::Block => 0,
            Domain::Biome => 5,
        }
    }

    /// Cells per section.
    pub fn cell_count(self) -> (r: usize)
        ensures
            r == (match self {
                Domain::Block => SECTION_SIZE_BLOCKS,
                Domain::Biome => SECTION_SIZE_BIOMES,
            }),
    {
        match self {
            Domain::Block => SECTION_SIZE_BLOCKS,
            Domain::Biome => SECTION_SIZE_BIOMES,
        }
    }

    /// The bucket of sections with `bpe` bits per entry: the domain's offset
    /// plus the number of trailing zero bits of `bpe`.
    pub fn bucket(self, bpe: usize) -> (r: usize)
        ensures
            r == self.spec_offset() + vstd::std_specs::bits::u64_trailing_zeros(bpe as u64),
    {
        let tz = (bpe as u64).trailing_zeros();
        proof {
            vstd::std_specs::bits::axiom_u64_trailing_zeros(bpe as u64);
        }
        self.offset() + tz as usize
    }
}

/// Bits per entry of a stored palette: sixteen for the empty (direct) one.
pub fn palette_bpe(palette_len: usize) -> (r: usize)
    ensures
        r == (if palette_len == 0 { 16 } else { spec_bits_per_entry(palette_len as int) }),
{
    if palette_len == 0 {
        16
    } else {
        bits_per_entry(palette_len)
    }
}

/// Bytes that `unpacked_size` entries of `bpe` bits take, in whole longs.
pub fn packed_byte_len(unpacked_size: usize, bpe: usize) -> (r: usize)
    requires
        unpacked_size * bpe <= usize::MAX,
    ensures
        r == (unpacked_size * bpe + 63) / 64 * 8,
{
    let bits = unpacked_size * bpe;
    let longs = bits / 64 + if bits % 64 != 0 { 1 } else { 0 };
    proof {
        vstd::arithmetic::div_mod::lemma_fundamental_div_mod(bits as int, 64);
        if bits % 64 != 0 {
            vstd::arithmetic::div_mod::lemma_fundamental_div_mod_converse(bits + 63, 64, (bits / 64) as int + 1, (bits % 64) as int - 1);
        } else {
            vstd::arithmetic::div_mod::lemma_fundamental_div_mod_converse(bits + 63, 64, (bits / 64) as int, 63);
        }
    }
    longs * 8
}

/// The largest count, or 0 for none.
pub fn max_level(counts: &[u16]) -> (r: usize)
    ensures
        forall|i: int| 0 <= i < counts@.len() ==> counts@[i] <= r,
        counts@.len() == 0 ==> r == 0,
        counts@.len() > 0 ==> exists|i: int| 0 <= i < counts@.len() && counts@[i] == r,
{
    let mut best: u16 = 0;
    let mut i: usize = 0;
    while i < counts.len()
        invariant
            i <= counts@.len(),
            forall|k: int| 0 <= k < i ==> counts@[k] <= best,
            i == 0 ==> best == 0,
            i > 0 ==> exists|k: int| 0 <= k < i && counts@[k] == best,
        decreases counts@.len() - i,
    {
        if counts[i] > best || i == 0 {
            best = counts[i];
        }
        i += 1;
    }
    best as usize
}

/// Whether bit `slot` of a presence bitmap is set, most significant bit first.
pub open spec fn spec_presence_bit(presence: Seq<u8>, slot: int) -> bool {
    (presence[slot / 8] as int / vstd::arithmetic::power2::pow2((7 - slot % 8) as nat) as int) % 2 == 1
}

/// Marks segment `slot` present.
pub fn set_presence_bit(presence: &mut [u8; 128], slot: usize)
    requires
        slot < 1024,
    ensures
        forall|s: int|
            0 <= s < 1024 ==> #[trigger] spec_presence_bit(final(presence)@, s) == (s == slot || spec_presence_bit(
                old(presence)@,
                s,
            )),
{
    let byte = slot >> 3;
    let low = slot & 7;
    proof {
        lemma_low_bits(slot);
    }
    let shift = 7 - low;
    let old_byte = presence[byte];
    let new_byte = old_byte | (1u8 << (shift as u8));
    presence[byte] = new_byte;
    proof {
        assert forall|s: int| 0 <= s < 1024 implies #[trigger] spec_presence_bit(presence@, s) == (s == slot
            || spec_presence_bit(old(presence)@, s)) by {
            let t = (7 - s % 8) as u8;
            let sh = shift as u8;
            lemma_bit_of(presence@[s / 8], t);
            lemma_bit_of(old(presence)@[s / 8], t);
            if s / 8 == byte {
                assert(((old_byte | (1u8 << sh)) >> t) & 1 == if t == sh { 1u8 } else { (old_byte >> t) & 1 }) by (bit_vector)
                    requires t < 8, sh < 8;
                if t == sh {
                    assert(s == slot);
                } else {
                    assert(s != slot);
                }
            } else {
                assert(s != slot);
            }
        }
    }
}

proof fn lemma_low_bits(x: usize)
    ensures
        x >> 3 == x / 8,
        x & 7 == x % 8,
        x >> 2 == x / 4,
        x & 3 == x % 4,
{
    assert(x >> 3 == x / 8 && x & 7 == x % 8 && x >> 2 == x / 4 && x & 3 == x % 4) by (bit_vector);
}

proof fn lemma_bit_of(b: u8, t: u8)
    requires
        t < 8,
    ensures
        ((b as int / vstd::arithmetic::power2::pow2(t as nat) as int) % 2 == 1) == ((b >> t) & 1 == 1),
{
    lemma_pair_of(b, t);
    let y = b >> t;
    assert((y & 1 == 1) == ((y & 3) % 2 == 1)) by (bit_vector);
}

/// Whether segment `slot` is marked present.
pub fn presence_bit(presence: &[u8; 128], slot: usize) -> (r: bool)
    requires
        slot < 1024,
    ensures
        r == spec_presence_bit(presence@, slot as int),
{
    let byte = slot >> 3;
    let low = slot & 7;
    proof {
        lemma_low_bits(slot);
    }
    let shift = 7 - low;
    let r = (presence[byte] >> (shift as u8)) & 1 == 1;
    proof {
        lemma_bit_of(presence@[slot as int / 8], shift as u8);
    }
    r
}

/// The two-bit descriptor of section `scan`, most significant pair first.
pub open spec fn spec_descriptor(packed: Seq<u8>, scan: int) -> u8 {
    ((packed[scan / 4] as int / vstd::arithmetic::power2::pow2((6 - 2 * (scan % 4)) as nat) as int) % 4) as u8
}

proof fn lemma_pair_of(b: u8, t: u8)
    requires
        t < 8,
    ensures
        (b as int / vstd::arithmetic::power2::pow2(t as nat) as int) % 4 == ((b >> t) & 3) as int,
        (b >> t) & 3 < 4,
{
    vstd::bits::lemma_u8_shr_is_div(b, t);
    let y = b >> t;
    assert(y & 3 == y % 4) by (bit_vector);
}

/// Ors descriptor `descriptor` into the pair of section `scan`.
pub fn pack_descriptor(descriptors: &mut [u8], scan: usize, descriptor: u8)
    requires
        scan / 4 < old(descriptors)@.len(),
        descriptor < 4,
    ensures
        final(descriptors)@.len() == old(descriptors)@.len(),
        forall|s: int|
            0 <= s < 4 * final(descriptors)@.len() ==> #[trigger] spec_descriptor(final(descriptors)@, s) == (if s == scan {
                spec_descriptor(old(descriptors)@, s) | descriptor
            } else {
                spec_descriptor(old(descriptors)@, s)
            }),
{
    let byte = scan >> 2;
    let low = scan & 3;
    proof {
        lemma_low_bits(scan);
    }
    let shift = (6 - 2 * low) as u8;
    let old_byte = descriptors[byte];
    descriptors[byte] = old_byte | (descriptor << shift);
    proof {
        assert forall|s: int| 0 <= s < 4 * descriptors@.len() implies #[trigger] spec_descriptor(descriptors@, s) == (if s
            == scan {
            spec_descriptor(old(descriptors)@, s) | descriptor
        } else {
            spec_descriptor(old(descriptors)@, s)
        }) by {
            let t = (6 - 2 * (s % 4)) as u8;
            lemma_pair_of(descriptors@[s / 4], t);
            lemma_pair_of(old(descriptors)@[s / 4], t);
            if s / 4 == byte {
                assert(((old_byte | (descriptor << shift)) >> t) & 3 == if t == shift {
                    ((old_byte >> t) & 3) | descriptor
                } else {
                    (old_byte >> t) & 3
                }) by (bit_vector)
                    requires
                        descriptor < 4,
                        t == 0 || t == 2 || t == 4 || t == 6,
                        shift == 0 || shift == 2 || shift == 4 || shift == 6;
                if t == shift {
                    assert(s == scan);
                } else {
                    assert(s != scan);
                }
            } else {
                assert(s != scan);
            }
        }
    }
}

/// The descriptor of section `scan`.
pub fn descriptor_bits(packed: &[u8], scan: usize) -> (r: u8)
    requires
        scan / 4 < packed@.len(),
    ensures
        r == spec_descriptor(packed@, scan as int),
        r < 4,
{
    let byte = scan >> 2;
    let low = scan & 3;
    proof {
        lemma_low_bits(scan);
    }
    let shift = (6 - 2 * low) as u8;
    let r = (packed[byte] >> shift) & 0b11;
    proof {
        lemma_pair_of(packed@[scan as int / 4], shift);

    }
    r
}

} // verus!
