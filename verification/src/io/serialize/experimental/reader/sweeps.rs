use vstd::prelude::*;

use crate::io::serialize::experimental::models::spatial::{
    cell_index, lemma_cell_index_bounds, origin_spec, section_fits, section_origin, Y_STRIDE, Z_STRIDE,
};
use crate::region::packed_data::{covered, Data, PackedData, PalettedData};
use crate::region::palette::{first_occurrences, occurrences, spec_bits_per_entry, PackScratch, Palette};

verus! {

/// The ranks of the section at `(slot, section_index)` of a modelled grid,
/// cell by cell in y, z, x order.
pub open spec fn section_ranks(grid: Seq<u16>, slot: int, section_index: int) -> Seq<u16> {
    Seq::new(4096, |i: int| grid[cell_index(origin_spec(slot, section_index), i)])
}

/// The atoms that `ranks` stand for under `remap`.
pub open spec fn remapped(ranks: Seq<u16>, remap: Seq<u16>) -> Seq<u16> {
    Seq::new(ranks.len(), |i: int| remap[ranks[i] as int])
}

/// A palette of ranks as packing orders it: each distinct rank once, a more
/// frequent rank before a less frequent one.
pub open spec fn rank_palette(rp: Seq<u16>, ranks: Seq<u16>) -> bool {
    &&& rp.len() == first_occurrences(ranks).len()
    &&& rp.no_duplicates()
    &&& forall|a: u16| #[trigger] rp.contains(a) <==> ranks.contains(a)
    &&& forall|i: int, j: int| 0 <= i < j < rp.len() ==> occurrences(ranks, #[trigger] rp[i]) >= occurrences(ranks, #[trigger] rp[j])
}

/// What packing a section of ranks gives: the atoms the ranks stand for; one
/// atom exactly when one rank fills the section; else the distinct ranks,
/// most frequent first, each taken to its atom, as the palette, or the direct
/// palette past 256 ranks.
pub open spec fn packs_modeled(r: PackedData<4096>, ranks: Seq<u16>, remap: Seq<u16>) -> bool {
    let n = first_occurrences(ranks).len();
    &&& r.unpacked() == remapped(ranks, remap)
    &&& r.unpackable()
    &&& (n == 1 <==> r.data is Single)
    &&& r.data matches Data::Paletted(p) ==> {
        &&& p.laid_out()
        &&& (n > 256 ==> p.palette.palette@.len() == 0 && p.palette.bits_per_entry == 16)
        &&& (n <= 256 ==> {
            &&& exists|rp: Seq<u16>| #[trigger] rank_palette(rp, ranks) && p.palette.palette@ == remapped(rp, remap)
            &&& p.palette.bits_per_entry == spec_bits_per_entry(n as int)
        })
    }
}

/// Copies the ranks of the section at `(slot, section_index)` out of the grid.
fn section_cells(grid: &[u16], slot: usize, section_index: usize) -> (r: [u16; 4096])
    requires
        section_index * 16 <= usize::MAX,
        section_fits(origin_spec(slot as int, section_index as int), grid@.len() as int),
    ensures
        r@ == section_ranks(grid@, slot as int, section_index as int),
{
    let origin = section_origin(slot, section_index);
    let (origin_x, origin_z, origin_y) = origin;
    let len = grid.len();
    let mut cells = [0u16; 4096];
    let mut i: usize = 0;
    while i < 4096
        invariant
            i <= 4096,
            len == grid@.len(),
            origin == origin_spec(slot as int, section_index as int),
            origin == (origin_x, origin_z, origin_y),
            section_fits(origin, grid@.len() as int),
            forall|k: int| 0 <= k < i ==> #[trigger] cells@[k] == grid@[cell_index(origin, k)],
        decreases 4096 - i,
    {
        proof {
            lemma_cell_index_bounds(origin, grid@.len() as int, i as int);
            assert(origin.2 == origin_y && origin.1 == origin_z && origin.0 == origin_x);
            assert((origin_y + i / 256) * Y_STRIDE + Y_STRIDE <= grid@.len());
            assert((origin_z + (i / 16) % 16) * Z_STRIDE + origin_x + i % 16 < Y_STRIDE);
        }
        let idx = (origin_y + i / 256) * Y_STRIDE + (origin_z + (i / 16) % 16) * Z_STRIDE + origin_x + i % 16;
        cells[i] = grid[idx];
        i += 1;
    }
    proof {
        assert(cells@ =~= section_ranks(grid@, slot as int, section_index as int));
    }
    cells
}

/// Packs the section at `(slot, section_index)` of a modelled grid, whose
/// voxels hold ranks that `remap` takes to atoms.
pub fn pack_modeled_section(
    grid: &[u16],
    remap: &[u16],
    slot: usize,
    section_index: usize,
    scratch: &mut PackScratch,
) -> (r: PackedData<4096>)
    requires
        old(scratch).wf(),
        section_index * 16 <= usize::MAX,
        section_fits(origin_spec(slot as int, section_index as int), grid@.len() as int),
        forall|i: int| 0 <= i < 4096 ==> (#[trigger] section_ranks(grid@, slot as int, section_index as int)[i]) < remap@.len(),
    ensures
        final(scratch).wf(),
        packs_modeled(r, section_ranks(grid@, slot as int, section_index as int), remap@),
{
    let ghost ranks = section_ranks(grid@, slot as int, section_index as int);
    let cells = section_cells(grid, slot, section_index);
    let packed = PackedData::<4096>::pack_with(&cells, scratch);
    match packed.data {
        Data::Single(rank) => {
            proof {
                assert(ranks[0] == rank);
                assert(PackedData::<4096> { data: Data::Single(remap@[rank as int]) }.unpacked() =~= remapped(ranks, remap@));
            }
            PackedData { data: Data::Single(remap[rank as usize]) }
        },
        Data::Paletted(p) => {
            if p.palette.palette.len() == 0 {
                let mut atoms = [0u16; 4096];
                let mut i: usize = 0;
                while i < 4096
                    invariant
                        i <= 4096,
                        ranks.len() == 4096,
                        cells@ == ranks,
                        forall|k: int| 0 <= k < 4096 ==> (#[trigger] ranks[k]) < remap@.len(),
                        forall|k: int| 0 <= k < i ==> #[trigger] atoms@[k] == remap@[ranks[k] as int],
                    decreases 4096 - i,
                {
                    atoms[i] = remap[cells[i] as usize];
                    i += 1;
                }
                proof {
                    assert(atoms@ =~= remapped(ranks, remap@));
                }
                PackedData::<4096>::pack_direct(&atoms)
            } else {
                let ghost rp = p.palette.palette@;
                let mut mapped: Vec<u16> = Vec::new();
                let mut j: usize = 0;
                while j < p.palette.palette.len()
                    invariant
                        j <= rp.len(),
                        rp == p.palette.palette@,
                        ranks.len() == 4096,
                        forall|a: u16| #[trigger] rp.contains(a) ==> ranks.contains(a),
                        forall|k: int| 0 <= k < 4096 ==> (#[trigger] ranks[k]) < remap@.len(),
                        mapped@ == remapped(rp.take(j as int), remap@),
                    decreases rp.len() - j,
                {
                    let rank = p.palette.palette[j];
                    proof {
                        assert(rp.contains(rank));
                        let k = choose|k: int| 0 <= k < ranks.len() && ranks[k] == rank;
                        assert(ranks[k] < remap@.len());
                    }
                    mapped.push(remap[rank as usize]);
                    j += 1;
                    proof {
                        assert(mapped@ =~= remapped(rp.take(j as int), remap@));
                    }
                }
                let pd = PalettedData::<4096> {
                    packed_long_array: p.packed_long_array,
                    palette: Palette { palette: mapped, bits_per_entry: p.palette.bits_per_entry },
                };
                proof {
                    assert(rp.take(rp.len() as int) =~= rp);
                    assert(pd.bits() == p.bits());
                    assert forall|i: int| 0 <= i < 4096 implies #[trigger] pd.value_at(i) == remap@[ranks[i] as int] by {
                        assert(p.value_at(i) == ranks[i]);
                        assert(covered(p.packed_long_array@, p.bits(), i));
                    }
                    assert(pd.unpacked() =~= remapped(ranks, remap@));
                    assert(rank_palette(rp, ranks));
                }
                PackedData { data: Data::Paletted(pd) }
            }
        },
    }
}

} // verus!
