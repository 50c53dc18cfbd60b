use vstd::prelude::*;

use crate::definitions::{SegmentAtom, SECTION_SIZE_BIOMES, SECTION_SIZE_BLOCKS};
use crate::region::packed_data::{PackedData, PackedSnapshot};

verus! {

/// A section's atoms, unpacked, addressed by coordinates inside a cube of
/// `sidelength` cells per edge.
#[derive(Debug, Clone)]
pub struct UnpackedView<const UNPACKED_SIZE: usize> {
    pub unpacked: [SegmentAtom; UNPACKED_SIZE],
    sidelength: u8,
}

/// The cell of `(x, y, z)`: layers of `y`, rows of `z`, then `x`.
pub open spec fn cell_index(side: int, x: int, y: int, z: int) -> int {
    y * side * side + z * side + x
}

/// Distinct coordinates inside the cube address distinct cells, all below `side³`.
pub proof fn lemma_cell_index(side: int, x: int, y: int, z: int, x2: int, y2: int, z2: int)
    requires
        0 <= x < side,
        0 <= y < side,
        0 <= z < side,
        0 <= x2 < side,
        0 <= y2 < side,
        0 <= z2 < side,
    ensures
        0 <= cell_index(side, x, y, z) < side * side * side,
        cell_index(side, x, y, z) == cell_index(side, x2, y2, z2) ==> x == x2 && y == y2 && z == z2,
{
    assert(0 <= cell_index(side, x, y, z) < side * side * side) by (nonlinear_arith)
        requires 0 <= x < side, 0 <= y < side, 0 <= z < side;
    if cell_index(side, x, y, z) == cell_index(side, x2, y2, z2) {
        let zx = z * side + x;
        let zx2 = z2 * side + x2;
        assert(0 <= zx < side * side) by (nonlinear_arith)
            requires 0 <= x < side, 0 <= z < side, zx == z * side + x;
        assert(0 <= zx2 < side * side) by (nonlinear_arith)
            requires 0 <= x2 < side, 0 <= z2 < side, zx2 == z2 * side + x2;
        assert(y * side * side == y * (side * side)) by (nonlinear_arith);
        assert(y2 * side * side == y2 * (side * side)) by (nonlinear_arith);
        vstd::arithmetic::div_mod::lemma_fundamental_div_mod_converse(y * (side * side) + zx, side * side, y, zx);
        vstd::arithmetic::div_mod::lemma_fundamental_div_mod_converse(y2 * (side * side) + zx2, side * side, y2, zx2);
        vstd::arithmetic::div_mod::lemma_fundamental_div_mod_converse(zx, side, z, x);
        vstd::arithmetic::div_mod::lemma_fundamental_div_mod_converse(zx2, side, z2, x2);
    }
}

/// The cells run along `x` first, then `z`, then `y`, the order in which a
/// section is packed: the cell of `(x, y, z)` leaves remainder `x` by the
/// side, its quotient leaves remainder `z`, and whole layers count `y`; the
/// next `x` is the next cell, the next `z` a row further, the next `y` a
/// layer further.
pub proof fn law_cell_order(side: int, x: int, y: int, z: int)
    requires
        0 <= x < side,
        0 <= y < side,
        0 <= z < side,
    ensures
        cell_index(side, x, y, z) % side == x,
        (cell_index(side, x, y, z) / side) % side == z,
        cell_index(side, x, y, z) / (side * side) == y,
        x + 1 < side ==> cell_index(side, x + 1, y, z) == cell_index(side, x, y, z) + 1,
        z + 1 < side ==> cell_index(side, x, y, z + 1) == cell_index(side, x, y, z) + side,
        y + 1 < side ==> cell_index(side, x, y + 1, z) == cell_index(side, x, y, z) + side * side,
        cell_index(side, 0, 0, 0) == 0,
{
    let i = cell_index(side, x, y, z);
    let zx = z * side + x;
    assert(0 <= zx < side * side) by (nonlinear_arith)
        requires 0 <= x < side, 0 <= z < side, zx == z * side + x;
    assert(i == y * (side * side) + zx) by (nonlinear_arith)
        requires i == y * side * side + z * side + x, zx == z * side + x;
    vstd::arithmetic::div_mod::lemma_fundamental_div_mod_converse(i, side * side, y, zx);
    assert(i == (y * side + z) * side + x) by (nonlinear_arith)
        requires i == y * side * side + z * side + x;
    vstd::arithmetic::div_mod::lemma_fundamental_div_mod_converse(i, side, y * side + z, x);
    assert(0 <= y * side) by (nonlinear_arith) requires 0 <= y, 0 <= side;
    vstd::arithmetic::div_mod::lemma_fundamental_div_mod_converse(y * side + z, side, y, z);
    assert(cell_index(side, x, y, z + 1) == i + side) by (nonlinear_arith)
        requires i == cell_index(side, x, y, z);
    assert(cell_index(side, x, y + 1, z) == i + side * side) by (nonlinear_arith)
        requires i == cell_index(side, x, y, z);
    assert(cell_index(side, 0, 0, 0) == 0) by (nonlinear_arith);
}

impl<const UNPACKED_SIZE: usize> UnpackedView<UNPACKED_SIZE> {
    pub closed spec fn side(&self) -> int {
        self.sidelength as int
    }

    /// The atoms of the cells, in index order.
    pub closed spec fn cells(&self) -> Seq<SegmentAtom> {
        self.unpacked@
    }

    /// A view holds exactly `UNPACKED_SIZE` cells.
    pub proof fn lemma_cells_len(&self)
        ensures
            self.cells().len() == UNPACKED_SIZE,
    {
    }

    pub fn new(sidelength: u8, fill: SegmentAtom) -> (r: Self)
        ensures
            r.side() == sidelength,
            r.cells() == Seq::new(UNPACKED_SIZE as nat, |_i: int| fill),
    {
        UnpackedView { unpacked: [fill; UNPACKED_SIZE], sidelength }
    }

    pub fn from_data(sidelength: u8, unpacked: [SegmentAtom; UNPACKED_SIZE]) -> (r: Self)
        ensures
            r.side() == sidelength,
            r.cells() == unpacked@,
    {
        UnpackedView { unpacked, sidelength }
    }

    /// The cell index of `(x, y, z)`; each coordinate must lie inside the cube.
    pub fn unpacked_index(&self, x: u8, y: u8, z: u8) -> (r: usize)
        requires
            x < self.side(),
            y < self.side(),
            z < self.side(),
        ensures
            r == cell_index(self.side(), x as int, y as int, z as int),
    {
        let s = self.sidelength as usize;
        proof {
            lemma_cell_index(s as int, x as int, y as int, z as int, x as int, y as int, z as int);
            assert(s * s * s <= 255 * 255 * 255) by (nonlinear_arith)
                requires s <= 255;
            assert((y as usize) * s <= 255 * 255) by (nonlinear_arith)
                requires y < s, s <= 255;
            assert((y as usize) * s * s <= 255 * 255 * 255) by (nonlinear_arith)
                requires y < s, s <= 255;
            assert((z as usize) * s <= 255 * 255) by (nonlinear_arith)
                requires z < s, s <= 255;
        }
        (y as usize) * s * s + (z as usize) * s + (x as usize)
    }

    pub fn voxel(&self, x: u8, y: u8, z: u8) -> (r: SegmentAtom)
        requires
            x < self.side(),
            y < self.side(),
            z < self.side(),
            cell_index(self.side(), x as int, y as int, z as int) < UNPACKED_SIZE,
        ensures
            r == self.cells()[cell_index(self.side(), x as int, y as int, z as int)],
            self.cells().len() == UNPACKED_SIZE,
    {
        self.unpacked[self.unpacked_index(x, y, z)]
    }

    pub fn set_voxel(&mut self, x: u8, y: u8, z: u8, voxel: SegmentAtom)
        requires
            x < old(self).side(),
            y < old(self).side(),
            z < old(self).side(),
            cell_index(old(self).side(), x as int, y as int, z as int) < UNPACKED_SIZE,
        ensures
            final(self).side() == old(self).side(),
            final(self).cells() == old(self).cells().update(
                cell_index(old(self).side(), x as int, y as int, z as int),
                voxel,
            ),
            final(self).cells().len() == UNPACKED_SIZE,
    {
        let idx = self.unpacked_index(x, y, z);
        self.unpacked[idx] = voxel;
    }

    pub fn sidelength(&self) -> (r: u8)
        ensures
            r == self.side(),
    {
        self.sidelength
    }

    pub fn pack(&self) -> (r: PackedData<UNPACKED_SIZE>)
        ensures
            r.unpacked() == self.cells(),
            r.unpackable(),
    {
        PackedData::pack(&self.unpacked)
    }

    pub fn pack_snapshot(&self, timestamp: i64) -> (r: PackedSnapshot<UNPACKED_SIZE>)
        ensures
            r.timestamp == timestamp,
            r.data.unpacked() == self.cells(),
            r.data.unpackable(),
    {
        PackedSnapshot { data: self.pack(), timestamp }
    }
}

pub fn create_block_view(fill: SegmentAtom) -> (r: UnpackedView<SECTION_SIZE_BLOCKS>)
    ensures
        r.side() == 16,
        r.cells() == Seq::new(SECTION_SIZE_BLOCKS as nat, |_i: int| fill),
{
    UnpackedView::new(16, fill)
}

pub fn create_biome_view(fill: SegmentAtom) -> (r: UnpackedView<SECTION_SIZE_BIOMES>)
    ensures
        r.side() == 4,
        r.cells() == Seq::new(SECTION_SIZE_BIOMES as nat, |_i: int| fill),
{
    UnpackedView::new(4, fill)
}

} // verus!
