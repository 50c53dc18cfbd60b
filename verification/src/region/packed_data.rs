use vstd::prelude::*;

use crate::definitions::{SegmentAtom, STATE_UNCHANGED};
use crate::region::palette::{Palette, build_palette_with, direct_palette, first_occurrences, lemma_first_occurrences, occurrences, spec_bits_per_entry, PackScratch};

verus! {

/// Whether `b` is a width that packed entries use, with `mask` its low bits.
pub open spec fn width_mask(b: u64, mask: u64) -> bool {
    ||| b == 1 && mask == 1
    ||| b == 2 && mask == 3
    ||| b == 4 && mask == 15
    ||| b == 8 && mask == 255
    ||| b == 16 && mask == 65535
}

proof fn lemma_insert_reads_back(value: u64, v: u64, s: u64, b: u64, mask: u64)
    requires
        width_mask(b, mask),
        s + b <= 64,
        v <= mask,
        value >> s == 0,
    ensures
        ((value | (v << s)) >> s) & mask == v,
{
    assert(((value | (v << s)) >> s) & mask == v) by (bit_vector)
        requires
            width_mask(b, mask),
            s + b <= 64,
            v <= mask,
            value >> s == 0;
}

proof fn lemma_insert_keeps_lower(value: u64, v: u64, s: u64, t: u64, b: u64, mask: u64)
    requires
        width_mask(b, mask),
        s + b <= 64,
        t + b <= s,
        v <= mask,
    ensures
        ((value | (v << s)) >> t) & mask == (value >> t) & mask,
{
    assert(((value | (v << s)) >> t) & mask == (value >> t) & mask) by (bit_vector)
        requires
            width_mask(b, mask),
            s + b <= 64,
            t + b <= s,
            v <= mask;
}

proof fn lemma_insert_clear_above(value: u64, v: u64, s: u64, b: u64, mask: u64)
    requires
        width_mask(b, mask),
        s + b < 64,
        v <= mask,
        value >> s == 0,
    ensures
        (value | (v << s)) >> ((s + b) as u64) == 0,
{
    let sb = (s + b) as u64;
    assert((value | (v << s)) >> sb == 0) by (bit_vector)
        requires
            width_mask(b, mask),
            s + b < 64,
            sb == s + b,
            v <= mask,
            value >> s == 0;
}

proof fn lemma_clear_fields(value: u64, s: u64, t: u64, mask: u64)
    requires
        s <= t < 64,
        value >> s == 0,
    ensures
        (value >> t) & mask == 0,
{
    assert((value >> t) & mask == 0) by (bit_vector)
        requires
            s <= t < 64,
            value >> s == 0;
}


/// The entry width that packing and unpacking use for a palette's
/// `bits_per_entry`: widths 1, 2, 4 and 8 as given, sixteen bits otherwise.
pub open spec fn effective_bits(bpe: usize) -> u64 {
    if bpe == 1 || bpe == 2 || bpe == 4 || bpe == 8 {
        bpe as u64
    } else {
        16
    }
}

pub open spec fn mask_of(b: u64) -> u64 {
    if b == 1 {
        1
    } else if b == 2 {
        3
    } else if b == 4 {
        15
    } else if b == 8 {
        255
    } else {
        65535
    }
}

/// Entries that one 64-bit long holds.
pub open spec fn entries_per_long(b: u64) -> nat {
    (64u64 / b) as nat
}

/// Entry `j` of a long: its `b` bits from bit `j * b` up.
pub open spec fn field(cell: u64, j: nat, b: u64) -> u64 {
    (cell >> ((j * b) as u64)) & mask_of(b)
}

/// The packed entry for cell `i`, or 0 where the longs end before it.
pub open spec fn entry(packed: Seq<u64>, b: u64, i: int) -> u64 {
    let vpl = entries_per_long(b) as int;
    if i / vpl < packed.len() {
        field(packed[i / vpl], (i % vpl) as nat, b)
    } else {
        0
    }
}

pub open spec fn covered(packed: Seq<u64>, b: u64, i: int) -> bool {
    i / (entries_per_long(b) as int) < packed.len()
}

proof fn lemma_width(b: u64)
    requires
        b == 1 || b == 2 || b == 4 || b == 8 || b == 16,
    ensures
        width_mask(b, mask_of(b)),
        entries_per_long(b) * b == 64,
        entries_per_long(b) >= 4,
{
}

proof fn lemma_slot_offset(j: nat, b: u64)
    requires
        b == 1 || b == 2 || b == 4 || b == 8 || b == 16,
        j < entries_per_long(b),
    ensures
        j * b + b <= 64,
        (j + 1) * b == j * b + b,
{
    assert(j * b + b <= 64) by (nonlinear_arith)
        requires
            b == 1 || b == 2 || b == 4 || b == 8 || b == 16,
            j < 64int / (b as int);
    assert((j + 1) * b == j * b + b) by (nonlinear_arith);
}

proof fn lemma_index_split(base: int, j: int, vpl: int, c: int)
    requires
        vpl > 0,
        0 <= j < vpl,
        base == c * vpl,
    ensures
        (base + j) / vpl == c,
        (base + j) % vpl == j,
{
    vstd::arithmetic::div_mod::lemma_fundamental_div_mod_converse(base + j, vpl, c, j);
}

/// `a / d`, rounded up.
pub fn div_ceil(a: usize, d: usize) -> (r: usize)
    requires
        d > 0,
    ensures
        r == (a + d - 1) / (d as int),
{
    let q = a / d;
    let rem = a % d;
    proof {
        vstd::arithmetic::div_mod::lemma_fundamental_div_mod(a as int, d as int);
        assert(q * d == d * q) by (nonlinear_arith);
        if rem == 0 {
            vstd::arithmetic::div_mod::lemma_fundamental_div_mod_converse(a + d - 1, d as int, q as int, d - 1);
        } else {
            assert((q + 1) * d == q * d + d) by (nonlinear_arith);
            vstd::arithmetic::div_mod::lemma_fundamental_div_mod_converse(a + d - 1, d as int, q + 1, rem - 1);
            assert(q * d >= q) by (nonlinear_arith)
                requires d > 0, q >= 0;
        }
    }
    if rem != 0 {
        q + 1
    } else {
        q
    }
}

/// Packed entries of a paletted section and the palette they index.
#[derive(Debug, Clone, PartialEq, Eq)]
pub struct PalettedData<const UNPACKED_SIZE: usize> {
    pub packed_long_array: Vec<u64>,
    pub palette: Palette,
}

impl<const UNPACKED_SIZE: usize> PalettedData<UNPACKED_SIZE> {
    pub open spec fn bits(&self) -> u64 {
        effective_bits(self.palette.bits_per_entry)
    }

    /// The atom of cell `i`: the entry itself for a direct palette, the
    /// palette atom it indexes otherwise, and 0 for a cell past the longs.
    pub open spec fn value_at(&self, i: int) -> u16 {
        let e = entry(self.packed_long_array@, self.bits(), i);
        if !covered(self.packed_long_array@, self.bits(), i) {
            0
        } else if self.palette.palette@.len() == 0 {
            e as u16
        } else {
            self.palette.palette@[e as int]
        }
    }

    /// Every entry of an indirect section names a palette atom.
    pub open spec fn indices_in_range(&self) -> bool {
        self.palette.palette@.len() > 0 ==> forall|i: int|
            0 <= i < UNPACKED_SIZE && covered(self.packed_long_array@, self.bits(), i)
                ==> #[trigger] entry(self.packed_long_array@, self.bits(), i) < self.palette.palette@.len()
    }

    pub open spec fn unpacked(&self) -> Seq<u16> {
        Seq::new(UNPACKED_SIZE as nat, |i: int| self.value_at(i))
    }

    /// The entries lie in the fewest longs that hold one per cell, every cell
    /// has its entry, and the slots past the last cell are zero.
    pub open spec fn laid_out(&self) -> bool {
        &&& self.packed_long_array@.len() == (UNPACKED_SIZE + entries_per_long(self.bits()) - 1) / (entries_per_long(self.bits()) as int)
        &&& forall|k: int| 0 <= k < UNPACKED_SIZE ==> #[trigger] covered(self.packed_long_array@, self.bits(), k)
        &&& forall|c: int, j: int|
            0 <= c < self.packed_long_array@.len() && 0 <= j < entries_per_long(self.bits())
                && c * entries_per_long(self.bits()) + j >= UNPACKED_SIZE
                ==> #[trigger] field(self.packed_long_array@[c], j as nat, self.bits()) == 0
    }

    /// An all-zero section for `palette`, with as many longs as its entries need.
    pub fn new(palette: Palette) -> (r: Self)
        requires
            palette.bits_per_entry > 0,
            palette.bits_per_entry <= 64,
        ensures
            r.palette == palette,
            r.packed_long_array@.len() == (UNPACKED_SIZE + (64usize / palette.bits_per_entry) as int - 1) / ((64usize / palette.bits_per_entry) as int),
            forall|k: int| 0 <= k < r.packed_long_array@.len() ==> r.packed_long_array@[k] == 0,
    {
        let values_per_long = 64 / palette.bits_per_entry;
        assert(64usize / palette.bits_per_entry > 0) by (nonlinear_arith)
            requires palette.bits_per_entry > 0, palette.bits_per_entry <= 64;
        let packed_length = div_ceil(UNPACKED_SIZE, values_per_long);
        PalettedData { packed_long_array: vec![0; packed_length], palette }
    }
}

/// A section's atoms: packed against a palette, or one atom for every cell.
#[derive(Debug, Clone, PartialEq, Eq)]
pub enum Data<const UNPACKED_SIZE: usize> {
    Paletted(PalettedData<UNPACKED_SIZE>),
    Single(SegmentAtom),
}

#[derive(Debug, Clone, PartialEq, Eq)]
pub struct PackedData<const UNPACKED_SIZE: usize> {
    pub data: Data<UNPACKED_SIZE>,
}

impl<const UNPACKED_SIZE: usize> PackedData<UNPACKED_SIZE> {
    /// The atoms this packing stands for, cell by cell.
    pub open spec fn unpacked(&self) -> Seq<u16> {
        match self.data {
            Data::Single(atom) => Seq::new(UNPACKED_SIZE as nat, |_i: int| atom),
            Data::Paletted(p) => p.unpacked(),
        }
    }

    /// Unpacking does not index past the palette.
    pub open spec fn unpackable(&self) -> bool {
        match self.data {
            Data::Single(_) => true,
            Data::Paletted(p) => p.indices_in_range(),
        }
    }
}

/// Fills `packed` with the entries `target`, `b` bits each, from the low bits of
/// each long up; entries past the last target are zero.
fn pack_bits(target: &Vec<u64>, b: u8, packed: &mut Vec<u64>)
    requires
        b == 1 || b == 2 || b == 4 || b == 8 || b == 16,
        forall|i: int| 0 <= i < target@.len() ==> target@[i] <= mask_of(b as u64),
    ensures
        final(packed)@.len() == old(packed)@.len(),
        forall|c: int, j: int|
            0 <= c < final(packed)@.len() && 0 <= j < entries_per_long(b as u64) ==> #[trigger] field(
                final(packed)@[c],
                j as nat,
                b as u64,
            ) == (if c * entries_per_long(b as u64) + j < target@.len() {
                target@[c * entries_per_long(b as u64) + j]
            } else {
                0
            }),
{
    let ghost bw = b as u64;
    let ghost vpl = entries_per_long(bw) as int;
    proof {
        lemma_width(bw);
    }
    let mask: u64 = if b == 1 {
        1
    } else if b == 2 {
        3
    } else if b == 4 {
        15
    } else if b == 8 {
        255
    } else {
        65535
    };
    let n = target.len();
    let mut ui: usize = 0;
    let mut c: usize = 0;
    while c < packed.len()
        invariant
            b == 1 || b == 2 || b == 4 || b == 8 || b == 16,
            bw == b as u64,
            vpl == entries_per_long(bw),
            vpl * bw == 64,
            vpl >= 4,
            mask == mask_of(bw),
            width_mask(bw, mask),
            n == target@.len(),
            forall|i: int| 0 <= i < target@.len() ==> target@[i] <= mask_of(b as u64),
            c <= packed@.len(),
            packed@.len() == old(packed)@.len(),
            ui == (if c * vpl < n { c * vpl } else { n as int }),
            forall|c2: int, j: int|
                0 <= c2 < c && 0 <= j < vpl ==> #[trigger] field(packed@[c2], j as nat, bw) == (if c2 * vpl + j < n {
                    target@[c2 * vpl + j]
                } else {
                    0
                }),
        decreases packed@.len() - c,
    {
        let mut value: u64 = 0;
        let mut bit_index: u8 = 0;
        let ghost mut j: int = 0;
        let ghost base: int = c * vpl;
        assert(0 <= base) by (nonlinear_arith) requires c >= 0, vpl >= 0, base == c * vpl;
        assert((value >> 0u64) == 0) by (bit_vector) requires value == 0;
        while bit_index < 64 && ui < n
            invariant
                b == 1 || b == 2 || b == 4 || b == 8 || b == 16,
                bw == b as u64,
                vpl == entries_per_long(bw),
                vpl * bw == 64,
                mask == mask_of(bw),
                width_mask(bw, mask),
                n == target@.len(),
                forall|i: int| 0 <= i < target@.len() ==> target@[i] <= mask_of(b as u64),
                0 <= j <= vpl,
                bit_index == j * bw,
                ui == (if base + j < n { base + j } else { n as int }),
                base + j <= n || j == 0,
                ui <= n,
                bit_index < 64 ==> value >> (bit_index as u64) == 0,
                forall|j2: int| 0 <= j2 < j ==> #[trigger] field(value, j2 as nat, bw) == target@[base + j2],
            decreases 64 - bit_index,
        {
            proof {
                lemma_slot_offset(j as nat, bw);
            }
            let slice = target[ui];
            let s = bit_index as u64;
            let ghost old_value = value;
            proof {
                assert(slice & mask == slice) by (bit_vector)
                    requires width_mask(bw, mask), slice <= mask;
                lemma_insert_reads_back(old_value, slice, s, bw, mask);
                assert forall|j2: int| 0 <= j2 < j implies #[trigger] field(old_value | (slice << s), j2 as nat, bw) == target@[base + j2] by {
                    lemma_slot_offset(j2 as nat, bw);
                    assert(j2 * bw + bw <= j * bw) by (nonlinear_arith)
                        requires j2 < j, bw > 0;
                    lemma_insert_keeps_lower(old_value, slice, s, (j2 * bw) as u64, bw, mask);
                    assert(field(old_value, j2 as nat, bw) == target@[base + j2]);
                }
                if s + bw < 64 {
                    lemma_insert_clear_above(old_value, slice, s, bw, mask);
                }
            }
            value = value | ((slice & mask) << s);
            ui += 1;
            bit_index += b;
            proof {
                j = j + 1;
            }
        }
        proof {
            assert forall|j2: int| 0 <= j2 < vpl implies #[trigger] field(value, j2 as nat, bw) == (if base + j2 < n {
                target@[base + j2]
            } else {
                0
            }) by {
                if j2 >= j {
                    lemma_slot_offset(j2 as nat, bw);
                    assert(j * bw <= j2 * bw) by (nonlinear_arith)
                        requires j <= j2, bw > 0;
                    if j < vpl {
                        lemma_slot_offset(j as nat, bw);
                        assert(j * bw < 64);
                        assert(ui == n) by {
                            if ui < n {
                                assert(bit_index < 64);
                            }
                        }
                        lemma_clear_fields(value, bit_index as u64, (j2 * bw) as u64, mask_of(bw));
                    } else {
                        assert(false);
                    }
                }
            }
            assert((c + 1) * vpl == c * vpl + vpl) by (nonlinear_arith);
            if j < vpl {
                assert(ui == n) by {
                    lemma_slot_offset(j as nat, bw);
                    if ui < n {
                        assert(bit_index < 64);
                    }
                }
            }
        }
        packed.set(c, value);
        c += 1;
        proof {
            assert forall|c2: int, j2: int|
                0 <= c2 < c && 0 <= j2 < vpl implies #[trigger] field(packed@[c2], j2 as nat, bw) == (if c2 * vpl + j2 < n {
                    target@[c2 * vpl + j2]
                } else {
                    0
                }) by {
                if c2 == c - 1 {
                    assert(c2 * vpl == base);
                }
            }
            if c * vpl >= n {
                assert(ui == n) by {
                    if ui < n {
                        assert(j == vpl);
                    }
                }
            } else {
                assert(j == vpl);
            }
        }
    }
}


/// The mask for entries `b` bits wide.
fn entry_mask(b: u8) -> (m: u64)
    requires
        b == 1 || b == 2 || b == 4 || b == 8 || b == 16,
    ensures
        m == mask_of(b as u64),
{
    if b == 1 {
        1
    } else if b == 2 {
        3
    } else if b == 4 {
        15
    } else if b == 8 {
        255
    } else {
        65535
    }
}

/// The entry width for a palette's `bits_per_entry`.
fn entry_width(bpe: usize) -> (b: u8)
    ensures
        b as u64 == effective_bits(bpe),
{
    if bpe == 1 || bpe == 2 || bpe == 4 || bpe == 8 {
        bpe as u8
    } else {
        16
    }
}

/// Writes the atom of every covered cell into `grid`; with `merge`, cells whose
/// atom is `STATE_UNCHANGED` keep what `grid` held.
fn decode_cells<const UNPACKED_SIZE: usize>(
    pd: &PalettedData<UNPACKED_SIZE>,
    grid: &mut [u16; UNPACKED_SIZE],
    merge: bool,
)
    requires
        pd.indices_in_range(),
    ensures
        forall|i: int|
            0 <= i < UNPACKED_SIZE ==> #[trigger] final(grid)@[i] == (if covered(pd.packed_long_array@, pd.bits(), i) && (!merge
                || pd.value_at(i) != STATE_UNCHANGED) {
                pd.value_at(i)
            } else {
                old(grid)@[i]
            }),
{
    let b = entry_width(pd.palette.bits_per_entry);
    let ghost bw = b as u64;
    let ghost vpl = entries_per_long(bw) as int;
    proof {
        lemma_width(bw);
    }
    let mask = entry_mask(b);
    let direct = pd.palette.direct();
    let n = UNPACKED_SIZE;
    let packed = &pd.packed_long_array;
    let mut ui: usize = 0;
    let mut c: usize = 0;
    while c < packed.len()
        invariant
            pd.indices_in_range(),
            packed == &pd.packed_long_array,
            direct == (pd.palette.palette@.len() == 0),
            b == 1 || b == 2 || b == 4 || b == 8 || b == 16,
            bw == b as u64,
            bw == pd.bits(),
            vpl == entries_per_long(bw),
            vpl * bw == 64,
            vpl >= 4,
            mask == mask_of(bw),
            n == UNPACKED_SIZE,
            c <= packed@.len(),
            ui == (if c * vpl < n { c * vpl } else { n as int }),
            forall|i: int|
                0 <= i < ui ==> #[trigger] grid@[i] == (if (!merge || pd.value_at(i) != STATE_UNCHANGED) {
                    pd.value_at(i)
                } else {
                    old(grid)@[i]
                }),
            forall|i: int| ui <= i < UNPACKED_SIZE ==> #[trigger] grid@[i] == old(grid)@[i],
            forall|i: int| 0 <= i < ui ==> #[trigger] covered(packed@, bw, i),
        decreases packed@.len() - c,
    {
        let cell = packed[c];
        let mut bit_index: u8 = 0;
        let ghost mut j: int = 0;
        let ghost base: int = c * vpl;
        assert(0 <= base) by (nonlinear_arith) requires c >= 0, vpl >= 0, base == c * vpl;
        while bit_index < 64 && ui < n
            invariant
                pd.indices_in_range(),
                packed == &pd.packed_long_array,
                direct == (pd.palette.palette@.len() == 0),
                b == 1 || b == 2 || b == 4 || b == 8 || b == 16,
                bw == b as u64,
                bw == pd.bits(),
                vpl == entries_per_long(bw),
                vpl * bw == 64,
                mask == mask_of(bw),
                n == UNPACKED_SIZE,
                c < packed@.len(),
                cell == packed@[c as int],
                base == c * vpl,
                0 <= base,
                0 <= j <= vpl,
                bit_index == j * bw,
                ui == (if base + j < n { base + j } else { n as int }),
                base + j <= n || j == 0,
                ui <= n,
                forall|i: int|
                    0 <= i < ui ==> #[trigger] grid@[i] == (if (!merge || pd.value_at(i) != STATE_UNCHANGED) {
                        pd.value_at(i)
                    } else {
                        old(grid)@[i]
                    }),
                forall|i: int| ui <= i < UNPACKED_SIZE ==> #[trigger] grid@[i] == old(grid)@[i],
                forall|i: int| 0 <= i < ui ==> #[trigger] covered(packed@, bw, i),
            decreases 64 - bit_index,
        {
            proof {
                lemma_slot_offset(j as nat, bw);
                lemma_index_split(base, j, vpl, c as int);
            }
            let mut slice = (cell >> (bit_index as u64)) & mask;
            assert(slice == entry(packed@, bw, ui as int));
            assert(slice <= mask) by (bit_vector)
                requires slice == (cell >> (bit_index as u64)) & mask;
            if !direct {
                slice = pd.palette.palette[slice as usize] as u64;
            }
            let value = slice as u16;
            assert(value == pd.value_at(ui as int));
            if !merge || value != STATE_UNCHANGED {
                grid[ui] = value;
            }
            ui += 1;
            bit_index += b;
            proof {
                j = j + 1;
            }
        }
        proof {
            assert((c + 1) * vpl == c * vpl + vpl) by (nonlinear_arith);
            if j < vpl {
                lemma_slot_offset(j as nat, bw);
                assert(ui == n);
            }
        }
        c += 1;
    }
    proof {
        assert forall|i: int| ui <= i < UNPACKED_SIZE implies !covered(packed@, bw, i) by {
            assert(c * vpl <= i);
            vstd::arithmetic::div_mod::lemma_div_is_ordered(c * vpl, i, vpl);
            vstd::arithmetic::div_mod::lemma_div_multiples_vanish(c as int, vpl);
        }
    }
}

impl<const UNPACKED_SIZE: usize> PackedData<UNPACKED_SIZE> {
    /// The section's atoms, cell by cell.
    pub fn unpack(&self) -> (r: [u16; UNPACKED_SIZE])
        requires
            self.unpackable(),
        ensures
            r@ == self.unpacked(),
    {
        match &self.data {
            Data::Single(atom) => [*atom; UNPACKED_SIZE],
            Data::Paletted(paletted_data) => {
                let mut unpacked = [0u16; UNPACKED_SIZE];
                decode_cells(paletted_data, &mut unpacked, false);
                proof {
                    assert(unpacked@ =~= self.unpacked());
                }
                unpacked
            },
        }
    }

    /// Applies this delta to `grid`: every cell whose atom is not
    /// `STATE_UNCHANGED` takes that atom.
    pub fn unpack_delta_into(&self, grid: &mut [u16; UNPACKED_SIZE])
        requires
            self.unpackable(),
        ensures
            forall|i: int|
                0 <= i < UNPACKED_SIZE ==> #[trigger] final(grid)@[i] == (if self.delta_covers(i) && self.unpacked()[i]
                    != STATE_UNCHANGED {
                    self.unpacked()[i]
                } else {
                    old(grid)@[i]
                }),
    {
        match &self.data {
            Data::Single(atom) => {
                if *atom != STATE_UNCHANGED {
                    let mut k: usize = 0;
                    while k < UNPACKED_SIZE
                        invariant
                            k <= UNPACKED_SIZE,
                            self.data == Data::<UNPACKED_SIZE>::Single(*atom),
                            *atom != STATE_UNCHANGED,
                            forall|i: int| 0 <= i < k ==> #[trigger] grid@[i] == *atom,
                            forall|i: int| k <= i < UNPACKED_SIZE ==> #[trigger] grid@[i] == old(grid)@[i],
                        decreases UNPACKED_SIZE - k,
                    {
                        grid[k] = *atom;
                        k += 1;
                    }
                }
            },
            Data::Paletted(paletted_data) => {
                decode_cells(paletted_data, grid, true);
            },
        }
    }

    /// Whether a delta says anything of cell `i`: a single-atom delta covers
    /// every cell, a paletted one the cells its longs reach.
    pub open spec fn delta_covers(&self, i: int) -> bool {
        match self.data {
            Data::Single(_) => true,
            Data::Paletted(p) => covered(p.packed_long_array@, p.bits(), i),
        }
    }
}

/// The entries that packing `data` against a palette stores: the atoms
/// themselves for a direct palette, else each atom's palette position.
pub open spec fn pack_targets(data: Seq<u16>, direct: bool, indices: Seq<u8>) -> Seq<u64> {
    Seq::new(data.len(), |i: int| if direct { data[i] as u64 } else { indices[data[i] as int] as u64 })
}

impl<const UNPACKED_SIZE: usize> PackedData<UNPACKED_SIZE> {
    /// Packs a section: one atom when all cells agree; else its distinct atoms,
    /// most frequent first, as the palette (or a direct palette past 256
    /// atoms), with one entry per cell in the fewest longs that hold them.
    pub fn pack(section_data: &[u16; UNPACKED_SIZE]) -> (r: Self)
        ensures
            Self::packs(r, section_data@),
    {
        let mut scratch = PackScratch::new();
        Self::pack_with(section_data, &mut scratch)
    }

    /// What packing `data` gives: the cells back, one atom exactly when they
    /// all agree, else the distinct atoms ordered by how often they occur
    /// (the direct palette past 256 of them) and the entries in the fewest
    /// longs, zero past the last cell.
    pub open spec fn packs(r: Self, data: Seq<u16>) -> bool {
        &&& r.unpacked() == data
        &&& r.unpackable()
        &&& (first_occurrences(data).len() == 1 <==> r.data is Single)
        &&& r.data matches Data::Paletted(p) ==> {
            &&& (first_occurrences(data).len() > 256 ==> p.palette.palette@.len() == 0)
            &&& (first_occurrences(data).len() <= 256 ==> {
                &&& p.palette.palette@.len() == first_occurrences(data).len()
                &&& p.palette.palette@.no_duplicates()
                &&& forall|a: u16| #[trigger] p.palette.palette@.contains(a) <==> data.contains(a)
                &&& forall|i: int, j: int| 0 <= i < j < p.palette.palette@.len() ==> occurrences(data, #[trigger] p.palette.palette@[i])
                    >= occurrences(data, #[trigger] p.palette.palette@[j])
            })
            &&& p.palette.bits_per_entry == spec_bits_per_entry(first_occurrences(data).len() as int)
            &&& p.packed_long_array@.len() == (UNPACKED_SIZE + entries_per_long(p.bits()) - 1) / (entries_per_long(p.bits()) as int)
            &&& forall|k: int| 0 <= k < UNPACKED_SIZE ==> #[trigger] covered(p.packed_long_array@, p.bits(), k)
            &&& forall|c: int, j: int|
                0 <= c < p.packed_long_array@.len() && 0 <= j < entries_per_long(p.bits())
                    && c * entries_per_long(p.bits()) + j >= UNPACKED_SIZE
                    ==> #[trigger] field(p.packed_long_array@[c], j as nat, p.bits()) == 0
        }
    }

    /// Packs a section as `pack` does, reusing `scratch` for the palette.
    pub fn pack_with(section_data: &[u16; UNPACKED_SIZE], scratch: &mut PackScratch) -> (r: Self)
        requires
            old(scratch).wf(),
        ensures
            final(scratch).wf(),
            Self::packs(r, section_data@),
    {
        let palette = build_palette_with(section_data, scratch);
        proof {
            lemma_first_occurrences(section_data@);
        }
        if palette.length() == 1 {
            let atom = palette.palette[0];
            proof {
                assert forall|i: int| 0 <= i < UNPACKED_SIZE implies section_data@[i] == atom by {
                    assert(section_data@.contains(section_data@[i]));
                    assert(palette.palette@.contains(section_data@[i]));
                }
                assert(Seq::new(UNPACKED_SIZE as nat, |_i: int| atom) =~= section_data@);
            }
            return PackedData { data: Data::Single(atom) };
        }
        let direct = palette.direct();
        let bpe = palette.bits_per_entry;
        let b = bpe as u8;
        let ghost bw = b as u64;
        proof {
            lemma_width(bw);
        }
        let values_per_long = 64 / bpe;
        let packed_length = div_ceil(UNPACKED_SIZE, values_per_long);

        let mut target: Vec<u64> = Vec::new();
        let mut i: usize = 0;
        while i < UNPACKED_SIZE
            invariant
                i <= UNPACKED_SIZE,
                direct == (palette.palette@.len() == 0),
                target@ == pack_targets(section_data@, direct, scratch.indices_view()).take(i as int),
            decreases UNPACKED_SIZE - i,
        {
            let atom = section_data[i];
            let t = if direct { atom as u64 } else { scratch.index(atom) as u64 };
            target.push(t);
            i += 1;
            proof {
                assert(target@ =~= pack_targets(section_data@, direct, scratch.indices_view()).take(i as int));
            }
        }
        proof {
            assert(target@ =~= pack_targets(section_data@, direct, scratch.indices_view()));
            assert forall|k: int| 0 <= k < target@.len() implies target@[k] <= mask_of(b as u64) by {
                let a = section_data@[k];
                if !direct {
                    assert(section_data@.contains(a));
                    assert(palette.palette@.contains(a));
                    let m = choose|m: int| 0 <= m < palette.palette@.len() && palette.palette@[m] == a;
                    assert(scratch.index_of(a) == m);
                }
            }
        }
        let mut packed: Vec<u64> = vec![0; packed_length];
        pack_bits(&target, b, &mut packed);
        let pd = PalettedData { packed_long_array: packed, palette };
        proof {
            let vpl = entries_per_long(bw) as int;
            assert(pd.bits() == bw);
            assert(packed_length * vpl >= UNPACKED_SIZE) by (nonlinear_arith)
                requires packed_length == (UNPACKED_SIZE + vpl - 1) / vpl, vpl > 0;
            assert forall|k: int| 0 <= k < UNPACKED_SIZE implies #[trigger] pd.value_at(k) == section_data@[k]
                && covered(pd.packed_long_array@, bw, k)
                && (!direct ==> entry(pd.packed_long_array@, bw, k) < pd.palette.palette@.len()) by {
                let c = k / vpl;
                let j = k % vpl;
                vstd::arithmetic::div_mod::lemma_fundamental_div_mod(k, vpl);
                assert(c * vpl == vpl * c) by (nonlinear_arith);
                assert(c * vpl + j == k);
                assert(c < packed_length) by (nonlinear_arith)
                    requires
                        c == k / vpl,
                        0 <= k < UNPACKED_SIZE,
                        UNPACKED_SIZE <= packed_length * vpl,
                        vpl > 0;
                assert(field(pd.packed_long_array@[c], j as nat, bw) == target@[k]);
                let a = section_data@[k];
                if !direct {
                    assert(section_data@.contains(a));
                    assert(pd.palette.palette@.contains(a));
                    let m = choose|m: int| 0 <= m < pd.palette.palette@.len() && pd.palette.palette@[m] == a;
                    assert(scratch.index_of(a) == m);
                }
            }
            assert forall|k: int| 0 <= k < UNPACKED_SIZE implies #[trigger] covered(pd.packed_long_array@, pd.bits(), k) by {
                assert(pd.value_at(k) == section_data@[k]);
            }
            assert(pd.unpacked() =~= section_data@);
            assert(pd.indices_in_range());
        }
        PackedData { data: Data::Paletted(pd) }
    }

    /// Packs a section against the direct palette: every cell's atom in 16
    /// bits, four to a long.
    pub fn pack_direct(section_data: &[u16; UNPACKED_SIZE]) -> (r: Self)
        ensures
            r.unpacked() == section_data@,
            r.unpackable(),
            r.data matches Data::Paletted(p) && p.palette.palette@.len() == 0 && p.palette.bits_per_entry == 16
                && p.laid_out(),
    {
        let palette = direct_palette();
        let direct = palette.direct();
        let bpe = palette.bits_per_entry;
        let b = bpe as u8;
        let ghost bw = b as u64;
        proof {
            lemma_width(bw);
        }
        let values_per_long = 64 / bpe;
        let packed_length = div_ceil(UNPACKED_SIZE, values_per_long);

        let mut target: Vec<u64> = Vec::new();
        let mut i: usize = 0;
        while i < UNPACKED_SIZE
            invariant
                i <= UNPACKED_SIZE,
                direct,
                palette.palette@.len() == 0,
                palette.bits_per_entry == 16,
                target@ == pack_targets(section_data@, direct, Seq::<u8>::empty()).take(i as int),
            decreases UNPACKED_SIZE - i,
        {
            let atom = section_data[i];
            let t = if direct { atom as u64 } else { 0u64 };
            target.push(t);
            i += 1;
            proof {
                assert(target@ =~= pack_targets(section_data@, direct, Seq::<u8>::empty()).take(i as int));
            }
        }
        proof {
            assert(target@ =~= pack_targets(section_data@, direct, Seq::<u8>::empty()));
            assert forall|k: int| 0 <= k < target@.len() implies target@[k] <= mask_of(b as u64) by {
                let a = section_data@[k];
            }
        }
        let mut packed: Vec<u64> = vec![0; packed_length];
        pack_bits(&target, b, &mut packed);
        let pd = PalettedData { packed_long_array: packed, palette };
        proof {
            let vpl = entries_per_long(bw) as int;
            assert(pd.bits() == bw);
            assert(packed_length * vpl >= UNPACKED_SIZE) by (nonlinear_arith)
                requires packed_length == (UNPACKED_SIZE + vpl - 1) / vpl, vpl > 0;
            assert forall|k: int| 0 <= k < UNPACKED_SIZE implies #[trigger] pd.value_at(k) == section_data@[k]
                && covered(pd.packed_long_array@, bw, k)
                && (!direct ==> entry(pd.packed_long_array@, bw, k) < pd.palette.palette@.len()) by {
                let c = k / vpl;
                let j = k % vpl;
                vstd::arithmetic::div_mod::lemma_fundamental_div_mod(k, vpl);
                assert(c * vpl == vpl * c) by (nonlinear_arith);
                assert(c * vpl + j == k);
                assert(c < packed_length) by (nonlinear_arith)
                    requires
                        c == k / vpl,
                        0 <= k < UNPACKED_SIZE,
                        UNPACKED_SIZE <= packed_length * vpl,
                        vpl > 0;
                assert(field(pd.packed_long_array@[c], j as nat, bw) == target@[k]);
                let a = section_data@[k];
            }
            assert forall|k: int| 0 <= k < UNPACKED_SIZE implies #[trigger] covered(pd.packed_long_array@, pd.bits(), k) by {
                assert(pd.value_at(k) == section_data@[k]);
            }
            assert(pd.unpacked() =~= section_data@);
            assert(pd.indices_in_range());
        }
        PackedData { data: Data::Paletted(pd) }
    }
}
/// A section of 2 to 16 distinct atoms packs four bits to an entry, sixteen
/// entries to a long, in as few longs as hold every cell; 17 to 256 atoms
/// pack eight bits to an entry, eight to a long.
pub proof fn law_pack_width<const N: usize>(r: PackedData<N>, data: Seq<u16>)
    requires
        PackedData::<N>::packs(r, data),
        1 < first_occurrences(data).len() <= 256,
    ensures
        r.data matches Data::Paletted(p) && {
            let n = first_occurrences(data).len();
            &&& (n <= 16 ==> p.palette.bits_per_entry == 4 && p.packed_long_array@.len() == (N + 15) / 16)
            &&& (16 < n ==> p.palette.bits_per_entry == 8 && p.packed_long_array@.len() == (N + 7) / 8)
        },
{
    assert(r.data !is Single);
    assert(entries_per_long(4u64) == 16);
    assert(entries_per_long(8u64) == 8);
}

/// A section's atoms as of a point in time.
#[derive(Debug, Clone, PartialEq, Eq)]
pub struct PackedSnapshot<const UNPACKED_SIZE: usize> {
    pub data: PackedData<UNPACKED_SIZE>,
    pub timestamp: i64,
}

/// A copy of `s`, value for value.
fn copy_seq<T: Copy>(s: &Vec<T>) -> (r: Vec<T>)
    ensures
        r@ == s@,
{
    let mut out: Vec<T> = Vec::new();
    let mut i: usize = 0;
    while i < s.len()
        invariant
            i <= s@.len(),
            out@ == s@.take(i as int),
        decreases s@.len() - i,
    {
        out.push(s[i]);
        proof {
            assert(out@ =~= s@.take(i + 1));
        }
        i += 1;
    }
    proof {
        assert(out@ =~= s@);
    }
    out
}

impl<const UNPACKED_SIZE: usize> PackedData<UNPACKED_SIZE> {
    /// Whether `self` and `other` hold the same packing: the same single atom,
    /// or the same longs, palette atoms and entry width.
    pub open spec fn same_packing(&self, other: &Self) -> bool {
        match (self.data, other.data) {
            (Data::Single(a), Data::Single(b)) => a == b,
            (Data::Paletted(p), Data::Paletted(q)) => {
                &&& p.packed_long_array@ == q.packed_long_array@
                &&& p.palette.palette@ == q.palette.palette@
                &&& p.palette.bits_per_entry == q.palette.bits_per_entry
            },
            _ => false,
        }
    }

    /// A copy of this packing.
    pub fn duplicate(&self) -> (r: Self)
        ensures
            r.same_packing(self),
            r.unpacked() == self.unpacked(),
            r.unpackable() == self.unpackable(),
    {
        match &self.data {
            Data::Single(atom) => PackedData { data: Data::Single(*atom) },
            Data::Paletted(p) => {
                let longs = copy_seq(&p.packed_long_array);
                let atoms = copy_seq(&p.palette.palette);
                let q = PalettedData {
                    packed_long_array: longs,
                    palette: Palette { palette: atoms, bits_per_entry: p.palette.bits_per_entry },
                };
                proof {
                    assert(q.bits() == p.bits());
                    assert(q.unpacked() =~= p.unpacked());
                    assert(q.packed_long_array@ == p.packed_long_array@);
                    assert(q.palette.palette@ == p.palette.palette@);
                    if p.indices_in_range() {
                        assert forall|i: int|
                            0 <= i < UNPACKED_SIZE && q.palette.palette@.len() > 0 && covered(q.packed_long_array@, q.bits(), i)
                            implies #[trigger] entry(q.packed_long_array@, q.bits(), i) < q.palette.palette@.len() by {
                            assert(entry(p.packed_long_array@, p.bits(), i) < p.palette.palette@.len());
                        }
                    }
                    if q.indices_in_range() {
                        assert forall|i: int|
                            0 <= i < UNPACKED_SIZE && p.palette.palette@.len() > 0 && covered(p.packed_long_array@, p.bits(), i)
                            implies #[trigger] entry(p.packed_long_array@, p.bits(), i) < p.palette.palette@.len() by {
                            assert(entry(q.packed_long_array@, q.bits(), i) < q.palette.palette@.len());
                        }
                    }
                }
                PackedData { data: Data::Paletted(q) }
            },
        }
    }
}

impl<const UNPACKED_SIZE: usize> PackedSnapshot<UNPACKED_SIZE> {
    /// A copy of this snapshot.
    pub fn duplicate(&self) -> (r: Self)
        ensures
            r.timestamp == self.timestamp,
            r.data.same_packing(&self.data),
            r.data.unpacked() == self.data.unpacked(),
            r.data.unpackable() == self.data.unpackable(),
    {
        PackedSnapshot { data: self.data.duplicate(), timestamp: self.timestamp }
    }
}

} // verus!
