use vstd::prelude::*;

verus! {

/// Voxels along each side of the region grid.
pub const SIDE: usize = 512;
/// The step between neighboring rows along z.
pub const Z_STRIDE: usize = 512;
/// The step between neighboring planes along y.
pub const Y_STRIDE: usize = 262144;
/// Segments along each side of a region.
pub const SEGMENT_SIDE: usize = 32;
/// Voxels along each side of a section.
pub const SECTION_SIDE: usize = 16;

/// The grid coordinates `(x, z, y)` of the first voxel of a section.
pub type SectionOrigin = (usize, usize, usize);

/// A section of a region: its segment slot and its height.
#[derive(Clone, Copy)]
pub struct SectionPos {
    pub slot: usize,
    pub section_y: usize,
}

impl SectionPos {
    pub fn origin(self) -> (r: SectionOrigin)
        requires
            self.section_y * 16 <= usize::MAX,
        ensures
            r == origin_spec(self.slot as int, self.section_y as int),
    {
        section_origin(self.slot, self.section_y)
    }
}

/// A voxel of the region grid.
#[derive(Clone, Copy)]
pub struct VoxelPos {
    pub x: usize,
    pub y: usize,
    pub z: usize,
}

impl VoxelPos {
    /// Where the voxel lies in the grid's flat storage.
    pub fn index(self) -> (r: usize)
        requires
            self.y * Y_STRIDE + self.z * Z_STRIDE + self.x <= usize::MAX,
        ensures
            r == self.y * Y_STRIDE + self.z * Z_STRIDE + self.x,
    {
        proof {
            assert(self.y * Y_STRIDE >= 0 && self.z * Z_STRIDE >= 0) by (nonlinear_arith);
        }
        self.y * Y_STRIDE + self.z * Z_STRIDE + self.x
    }
}

/// The origin of a section: segment slots run along z within a row of
/// segments, rows along x.
pub open spec fn origin_spec(slot: int, section_y: int) -> SectionOrigin {
    (((slot / 32) * 16) as usize, ((slot % 32) * 16) as usize, (section_y * 16) as usize)
}

pub fn section_origin(slot: usize, section_y: usize) -> (r: SectionOrigin)
    requires
        section_y * 16 <= usize::MAX,
    ensures
        r == origin_spec(slot as int, section_y as int),
{
    ((slot / SEGMENT_SIDE) * SECTION_SIDE, (slot % SEGMENT_SIDE) * SECTION_SIDE, section_y * SECTION_SIDE)
}

/// The grid index of cell `i` (in y, z, x order) of the section at `origin`.
pub open spec fn cell_index(origin: SectionOrigin, i: int) -> int {
    (origin.2 + i / 256) * Y_STRIDE + (origin.1 + (i / 16) % 16) * Z_STRIDE + origin.0 + i % 16
}

/// Whether every cell of the section at `origin` lies inside a grid of `len`
/// voxels.
pub open spec fn section_fits(origin: SectionOrigin, len: int) -> bool {
    origin.0 + 16 <= SIDE && origin.1 + 16 <= SIDE && (origin.2 + 16) * Y_STRIDE <= len
}

pub proof fn lemma_cell_index_bounds(origin: SectionOrigin, len: int, i: int)
    requires
        section_fits(origin, len),
        0 <= i < 4096,
    ensures
        0 <= cell_index(origin, i) < len,
        0 <= (origin.2 + i / 256) * Y_STRIDE,
        origin.2 + i / 256 < len,
        (origin.2 + i / 256) * Y_STRIDE + Y_STRIDE <= len,
        0 <= (origin.1 + (i / 16) % 16) * Z_STRIDE,
        (origin.1 + (i / 16) % 16) * Z_STRIDE + origin.0 + i % 16 < Y_STRIDE,
{
    let ly = i / 256;
    let lz = (i / 16) % 16;
    let lx = i % 16;
    assert(0 <= ly < 16 && 0 <= lz < 16 && 0 <= lx < 16);
    assert((origin.2 + ly) * Y_STRIDE + Y_STRIDE <= (origin.2 + 16) * Y_STRIDE) by (nonlinear_arith)
        requires
            ly < 16,
    ;
    assert((origin.1 + lz) * Z_STRIDE + Z_STRIDE <= 512 * 512) by (nonlinear_arith)
        requires
            origin.1 + lz < 512,
    ;
    assert((origin.2 + ly) * Y_STRIDE >= 0 && (origin.1 + lz) * Z_STRIDE >= 0) by (nonlinear_arith)
        requires
            0 <= origin.2 + ly,
            0 <= origin.1 + lz,
    ;
}

/// Writes the 4096 values of a section, in y, z, x order, into the grid at
/// the section's origin.
pub fn fill_section(voxels: &mut [u16], origin: SectionOrigin, values: &[u16; 4096])
    requires
        section_fits(origin, old(voxels)@.len() as int),
    ensures
        final(voxels)@.len() == old(voxels)@.len(),
        forall|i: int| 0 <= i < 4096 ==> #[trigger] final(voxels)@[cell_index(origin, i)] == values@[i],
        forall|j: int|
            0 <= j < old(voxels)@.len() && (forall|i: int| 0 <= i < 4096 ==> cell_index(origin, i) != j)
                ==> #[trigger] final(voxels)@[j] == old(voxels)@[j],
{
    let (origin_x, origin_z, origin_y) = origin;
    let len = voxels.len();
    let mut i: usize = 0;
    while i < 4096
        invariant
            i <= 4096,
            len == voxels@.len(),
            origin == (origin_x, origin_z, origin_y),
            section_fits(origin, old(voxels)@.len() as int),
            voxels@.len() == old(voxels)@.len(),
            forall|k: int| 0 <= k < i ==> #[trigger] voxels@[cell_index(origin, k)] == values@[k],
            forall|j: int|
                0 <= j < old(voxels)@.len() && (forall|k: int| 0 <= k < i ==> cell_index(origin, k) != j) ==> #[trigger] voxels@[j]
                    == old(voxels)@[j],
        decreases 4096 - i,
    {
        proof {
            lemma_cell_index_bounds(origin, voxels@.len() as int, i as int);
            assert(origin.2 == origin_y && origin.1 == origin_z && origin.0 == origin_x);
            assert((origin_y + i / 256) * Y_STRIDE + Y_STRIDE <= voxels@.len());
            assert((origin_z + (i / 16) % 16) * Z_STRIDE + origin_x + i % 16 < Y_STRIDE);
        }
        let idx = (origin_y + i / 256) * Y_STRIDE + (origin_z + (i / 16) % 16) * Z_STRIDE + origin_x + i % 16;
        voxels[idx] = values[i];
        proof {
            assert forall|k: int| 0 <= k < i implies #[trigger] voxels@[cell_index(origin, k)] == values@[k] by {
                lemma_cell_index_injective(origin, k, i as int);
            }
        }
        i += 1;
    }
}

/// Sets every cell of the section at `origin` to `value`.
pub fn fill_uniform(voxels: &mut [u16], origin: SectionOrigin, value: u16)
    requires
        section_fits(origin, old(voxels)@.len() as int),
    ensures
        final(voxels)@.len() == old(voxels)@.len(),
        forall|i: int| 0 <= i < 4096 ==> #[trigger] final(voxels)@[cell_index(origin, i)] == value,
        forall|j: int|
            0 <= j < old(voxels)@.len() && (forall|i: int| 0 <= i < 4096 ==> cell_index(origin, i) != j)
                ==> #[trigger] final(voxels)@[j] == old(voxels)@[j],
{
    let (origin_x, origin_z, origin_y) = origin;
    let len = voxels.len();
    let mut i: usize = 0;
    while i < 4096
        invariant
            i <= 4096,
            len == voxels@.len(),
            origin == (origin_x, origin_z, origin_y),
            section_fits(origin, old(voxels)@.len() as int),
            voxels@.len() == old(voxels)@.len(),
            forall|k: int| 0 <= k < i ==> #[trigger] voxels@[cell_index(origin, k)] == value,
            forall|j: int|
                0 <= j < old(voxels)@.len() && (forall|k: int| 0 <= k < i ==> cell_index(origin, k) != j) ==> #[trigger] voxels@[j]
                    == old(voxels)@[j],
        decreases 4096 - i,
    {
        proof {
            lemma_cell_index_bounds(origin, voxels@.len() as int, i as int);
            assert(origin.2 == origin_y && origin.1 == origin_z && origin.0 == origin_x);
            assert((origin_y + i / 256) * Y_STRIDE + Y_STRIDE <= voxels@.len());
            assert((origin_z + (i / 16) % 16) * Z_STRIDE + origin_x + i % 16 < Y_STRIDE);
        }
        let idx = (origin_y + i / 256) * Y_STRIDE + (origin_z + (i / 16) % 16) * Z_STRIDE + origin_x + i % 16;
        voxels[idx] = value;
        proof {
            assert forall|k: int| 0 <= k < i implies #[trigger] voxels@[cell_index(origin, k)] == value by {
                lemma_cell_index_injective(origin, k, i as int);
            }
        }
        i += 1;
    }
}

proof fn lemma_cell_index_injective(origin: SectionOrigin, i: int, k: int)
    requires
        0 <= i < 4096,
        0 <= k < 4096,
        i != k,
        origin.0 + 16 <= SIDE,
        origin.1 + 16 <= SIDE,
    ensures
        cell_index(origin, i) != cell_index(origin, k),
{
    let (yi, zi, xi) = (i / 256, (i / 16) % 16, i % 16);
    let (yk, zk, xk) = (k / 256, (k / 16) % 16, k % 16);
    assert(i == yi * 256 + zi * 16 + xi);
    assert(k == yk * 256 + zk * 16 + xk);
    let ci = (origin.2 + yi) * Y_STRIDE + (origin.1 + zi) * Z_STRIDE + origin.0 + xi;
    let ck = (origin.2 + yk) * Y_STRIDE + (origin.1 + zk) * Z_STRIDE + origin.0 + xk;
    let pi = (origin.1 + zi) * Z_STRIDE + origin.0 + xi;
    let pk = (origin.1 + zk) * Z_STRIDE + origin.0 + xk;
    assert(0 <= pi < Y_STRIDE && 0 <= pk < Y_STRIDE) by (nonlinear_arith)
        requires
            pi == (origin.1 + zi) * Z_STRIDE + origin.0 + xi,
            pk == (origin.1 + zk) * Z_STRIDE + origin.0 + xk,
            origin.1 + zi < 512,
            origin.1 + zk < 512,
            origin.0 + xi < 512,
            origin.0 + xk < 512,
            0 <= origin.1 + zi,
            0 <= origin.1 + zk,
            0 <= origin.0 + xi,
            0 <= origin.0 + xk,
    ;
    if yi != yk {
        assert(ci != ck) by (nonlinear_arith)
            requires
                ci == (origin.2 + yi) * Y_STRIDE + pi,
                ck == (origin.2 + yk) * Y_STRIDE + pk,
                0 <= pi < Y_STRIDE,
                0 <= pk < Y_STRIDE,
                yi != yk,
        ;
    } else if zi != zk {
        assert(pi != pk) by (nonlinear_arith)
            requires
                pi == (origin.1 + zi) * Z_STRIDE + origin.0 + xi,
                pk == (origin.1 + zk) * Z_STRIDE + origin.0 + xk,
                0 <= origin.0 + xi < 512,
                0 <= origin.0 + xk < 512,
                zi != zk,
        ;
    }
}

} // verus!
