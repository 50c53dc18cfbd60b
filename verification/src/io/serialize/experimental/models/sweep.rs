use vstd::prelude::*;

use crate::io::serialize::experimental::models::context::{
    residual_code, residual_read, residual_value, DecoderView, ModelError, ModelView, ResidualModel, COUNTERS,
    TREE_MIXER_SEED_WEIGHT,
};
use crate::io::serialize::experimental::models::predictor::{
    cluster_spec, gather_neighbors, gather_neighbors_fast, head_context, head_mixed, head_prob, head_probs, head_row,
    cluster_in_range, memo_after, neighbors_fast_spec, neighbors_spec, primary_after, row_after, run_after, stretch_spec, HeadLite, HeadState,
    Predictor, SectionMetadata, NONE, PRIMARY_MIXER_SEED_WEIGHT, PROB_HALF, lemma_low_bits,
};
use crate::io::serialize::experimental::models::range::{decode_step, decoded_bit, encode_run, encode_step, Decoder, Encoder};
use crate::io::serialize::experimental::models::spatial::{
    cell_index, lemma_cell_index_bounds, origin_spec, section_fits, SectionOrigin, SectionPos, SIDE, Y_STRIDE, Z_STRIDE,
};

verus! {

/// The neighbors the sweep gathers for cell `i` (in y, z, x order) of the
/// section at `origin`, at height `section_y`: the quick gather away from the
/// low edges of the grid, the careful one elsewhere.
pub open spec fn cell_neighbors(voxels: Seq<u16>, origin: SectionOrigin, section_y: int, i: int) -> Seq<u16> {
    let lx = i % 16;
    let lz = (i / 16) % 16;
    let ly = i / 256;
    let x = origin.0 + lx;
    let idx = cell_index(origin, i);
    if (section_y > 0 || ly >= 2) && (origin.1 > 0 || lz >= 2) && lx >= 2 {
        neighbors_fast_spec(voxels, idx, x + 1 < 512 && (lx + 1 < 16 || ly == 0))
    } else {
        neighbors_spec(voxels, idx, x, origin.2 + ly, origin.1 + lz)
    }
}

/// The head model after learning `bit` for the voxel at `idx`, as
/// `encode_head` and `decode_head` state it: `mid` is the head state with the
/// voxel's neighbors gathered.
pub open spec fn head_learned(
    p0: Predictor,
    p1: Predictor,
    mid: HeadState,
    h1: HeadState,
    section: SectionMetadata,
    m0: Seq<u8>,
    idx: int,
    bit: u32,
) -> bool {
    let (pv, mask, hash, ctx) = head_context(mid, p0.run(), section);
    let row = head_row(section, mask, cluster_spec(mid.neighbors@, m0, idx));
    let stretched = Seq::new(10, |k: int| stretch_spec(head_probs(p0.primary(), ctx)[k] as int) as i32);
    let mixed = head_mixed(p0.weights()[row], stretched);
    &&& p1.primary() == primary_after(p0.primary(), ctx, bit)
    &&& p1.weights() == p0.weights().update(row, row_after(p0.weights()[row], stretched, bit, mixed))
    &&& p1.run() == run_after(p0.run(), bit)
    &&& memo_after(mid, h1, p0.run(), section)
    &&& h1.neighbors == mid.neighbors
}

/// What the sweep carries from voxel to voxel: the head model, the head
/// state, the residual model, the miss flags and the coder's bounds and
/// output.
pub type SweepState = (Predictor, HeadState, ModelView, Seq<u8>, (u32, u32, Seq<u8>));

/// One voxel coded: its neighbors gathered, the head bit coded and learned,
/// its miss flag set, and, when it missed its primary value, its residual
/// coded with its palette index.
pub open spec fn voxel_coded(
    a: SweepState,
    b: SweepState,
    voxels: Seq<u16>,
    origin: SectionOrigin,
    section: SectionMetadata,
    inverse: Seq<u16>,
    i: int,
) -> bool {
    let idx = cell_index(origin, i);
    let truth = voxels[idx];
    let mid = HeadState { neighbors: b.1.neighbors, memo: a.1.memo };
    let (pv, mask, hash, ctx) = head_context(mid, a.0.run(), section);
    let bit: u32 = if truth == pv { 1 } else { 0 };
    let prob = head_prob(a.0, mid, section, a.3, idx);
    let em = encode_step(a.4.0, a.4.1, a.4.2, prob, bit);
    let head = HeadLite { primary_value: pv, mask, hash, bit };
    &&& b.1.neighbors@ == cell_neighbors(voxels, origin, section.section_y as int, i)
    &&& head_learned(a.0, b.0, mid, b.1, section, a.3, idx, bit)
    &&& b.3 == a.3.update(idx, if bit == 0 { 1u8 } else { 0u8 })
    &&& if bit != 0 {
        b.2 == a.2 && b.4 == em
    } else {
        let c = residual_code(
            a.2,
            b.1.neighbors@,
            head,
            truth,
            inverse[truth as int],
            section.palette_bits as int,
            section.section_y as u32,
        );
        b.2 == c.0 && b.4 == encode_run(em.0, em.1, em.2, c.1)
    }
}

/// The section sweep: each of its 4096 voxels coded in turn.
pub open spec fn section_coded(
    states: Seq<SweepState>,
    voxels: Seq<u16>,
    origin: SectionOrigin,
    section: SectionMetadata,
    inverse: Seq<u16>,
) -> bool {
    &&& states.len() == 4097
    &&& forall|i: int| 0 <= i < 4096 ==> #[trigger] voxel_coded(states[i], states[i + 1], voxels, origin, section, inverse, i)
}

/// Gathers the neighbors of cell `i` of the section at `origin`, and gives
/// them with the cell's index in the grid.
fn gather_cell(voxels: &[u16], origin: SectionOrigin, section_y: usize, i: usize) -> (r: ([u16; 12], usize))
    requires
        section_y < 8192,
        origin.2 == section_y * 16,
        section_fits(origin, voxels@.len() as int),
        i < 4096,
    ensures
        r.1 == cell_index(origin, i as int),
        r.1 < voxels@.len(),
        r.0@ == cell_neighbors(voxels@, origin, section_y as int, i as int),
        cluster_in_range(r.0@, voxels@.len() as int, r.1 as int),
{
        let (origin_x, origin_z, origin_y) = origin;
        let local_x = i % 16;
        let local_z = (i / 16) % 16;
        let local_y = i / 256;
        let len = voxels.len();
        proof {
            lemma_cell_index_bounds(origin, voxels@.len() as int, i as int);
            assert(origin.2 == origin_y && origin.1 == origin_z && origin.0 == origin_x);
            assert((origin_y + local_y) * Y_STRIDE + Y_STRIDE <= len);
            assert((origin_z + local_z) * Z_STRIDE + origin_x + local_x < Y_STRIDE);
        }
        let x = origin_x + local_x;
        let z = origin_z + local_z;
        let y = origin_y + local_y;
        let idx = (origin_y + local_y) * Y_STRIDE + (origin_z + local_z) * Z_STRIDE + origin_x + local_x;
        let mut nb: [u16; 12] = [NONE; 12];
        let fast_row = (section_y > 0 || local_y >= 2) && (origin_z > 0 || local_z >= 2);
        if fast_row && local_x >= 2 {
            let east_causal = x + 1 < SIDE && (local_x + 1 < 16 || local_y == 0);
            proof {
                assert(origin_y + local_y >= 2);
                assert(idx >= 2 * Y_STRIDE) by (nonlinear_arith)
                    requires
                        idx == (origin_y + local_y) * Y_STRIDE + (origin_z + local_z) * Z_STRIDE + origin_x + local_x,
                        origin_y + local_y >= 2,
                        origin_z + local_z >= 0,
                        origin_x + local_x >= 0,
                ;
            }
            gather_neighbors_fast(voxels, idx, east_causal, &mut nb);
        } else {
            gather_neighbors(voxels, idx, x, y, z, &mut nb);
        }
        proof {
            assert(cell_index(origin, i as int) == idx);
            assert(nb@ == cell_neighbors(voxels@, origin, section_y as int, i as int));
        }
        proof {
            if fast_row && local_x >= 2 {
                assert(idx >= 2 * Y_STRIDE) by (nonlinear_arith)
                    requires
                        idx == (origin_y + local_y) * Y_STRIDE + (origin_z + local_z) * Z_STRIDE + origin_x + local_x,
                        origin_y + local_y >= 2,
                        origin_z + local_z >= 0,
                        origin_x + local_x >= 0,
                ;
            } else {
                assert(y > 0 ==> idx >= Y_STRIDE) by (nonlinear_arith)
                    requires
                        idx == y * Y_STRIDE + z * Z_STRIDE + x,
                        z >= 0,
                        x >= 0,
                ;
                assert(z > 0 ==> idx >= Z_STRIDE) by (nonlinear_arith)
                    requires
                        idx == y * Y_STRIDE + z * Z_STRIDE + x,
                        y >= 0,
                        x >= 0,
                ;
                assert(idx >= x) by (nonlinear_arith)
                    requires
                        idx == y * Y_STRIDE + z * Z_STRIDE + x,
                        y >= 0,
                        z >= 0,
                ;
            }
        }
        (nb, idx)
}

/// What the reading sweep carries from voxel to voxel: the head model, the
/// head state, the residual model, the miss flags, the decoder, and the grid
/// read so far.
pub type ReadState = (Predictor, HeadState, ModelView, Seq<u8>, DecoderView, Seq<u16>);

/// One voxel read: its neighbors gathered from the grid read so far, the head
/// bit read and learned, its miss flag set, and, when the bit is 0, its
/// residual read; `outcome` is the value read (the primary value, a
/// candidate, or the palette atom), and the grid takes it.
#[verifier::opaque]
pub open spec fn voxel_read(
    a: ReadState,
    b: ReadState,
    origin: SectionOrigin,
    section: SectionMetadata,
    palette: Seq<u16>,
    i: int,
    outcome: Result<u16, ModelError>,
) -> bool {
    let idx = cell_index(origin, i);
    let mid = HeadState { neighbors: b.1.neighbors, memo: a.1.memo };
    let (pv, mask, hash, ctx) = head_context(mid, a.0.run(), section);
    let prob = head_prob(a.0, mid, section, a.3, idx);
    let bit = decoded_bit(a.4.0, a.4.1, a.4.2, prob);
    let n = decode_step(a.4.0, a.4.1, a.4.2, a.4.3, a.4.4, prob);
    let dm = (n.0, n.1, n.2, a.4.3, n.3);
    let head = HeadLite { primary_value: pv, mask, hash, bit };
    &&& b.1.neighbors@ == cell_neighbors(a.5, origin, section.section_y as int, i)
    &&& head_learned(a.0, b.0, mid, b.1, section, a.3, idx, bit)
    &&& b.3 == a.3.update(idx, if bit == 0 { 1u8 } else { 0u8 })
    &&& if bit != 0 {
        b.2 == a.2 && b.4 == dm && outcome == Ok::<u16, ModelError>(pv)
    } else {
        let c = residual_read(a.2, b.1.neighbors@, head, section.palette_bits as int, section.section_y as u32, dm);
        b.2 == c.0 && b.4 == c.1 && outcome == residual_value(c.2, palette)
    }
    &&& b.5 == (match outcome {
        Ok(v) => a.5.update(idx, v),
        Err(_) => a.5,
    })
}

/// The reading sweep so far: a voxel read for each outcome, each but the
/// last read without error.
pub open spec fn section_read(
    states: Seq<ReadState>,
    outcomes: Seq<Result<u16, ModelError>>,
    origin: SectionOrigin,
    section: SectionMetadata,
    palette: Seq<u16>,
) -> bool {
    &&& outcomes.len() <= 4096
    &&& states.len() == outcomes.len() + 1
    &&& forall|k: int| 0 <= k < outcomes.len() ==> #[trigger] voxel_read(states[k], states[k + 1], origin, section, palette, k, outcomes[k])
    &&& forall|k: int| 0 <= k < outcomes.len() - 1 ==> #[trigger] outcomes[k] is Ok
}

/// The models of the modelled grid codec: the head model, the residual model,
/// each palette atom's index in the current section, and a miss flag per
/// voxel of the grid.
pub struct Modeler {
    predictor: Predictor,
    residual: ResidualModel,
    inverse: Vec<u16>,
    miss: Vec<u8>,
}

impl Modeler {
    pub closed spec fn wf(&self) -> bool {
        &&& self.predictor.wf()
        &&& self.residual.wf()
        &&& self.inverse@.len() == 65536
        &&& forall|j: int| 0 <= j < self.miss@.len() ==> #[trigger] self.miss@[j] <= 1
    }

    /// Voxels in the grid the models are for.
    pub closed spec fn len(&self) -> nat {
        self.miss@.len()
    }

    pub closed spec fn inverse(&self) -> Seq<u16> {
        self.inverse@
    }

    /// The sweep state these models make with a head state and a coder.
    pub closed spec fn sweep_view(&self, head: HeadState, coder: (u32, u32, Seq<u8>)) -> SweepState {
        (self.predictor, head, self.residual.view(), self.miss@, coder)
    }

    pub closed spec fn predictor(&self) -> Predictor {
        self.predictor
    }

    pub closed spec fn residual_view(&self) -> ModelView {
        self.residual.view()
    }

    pub closed spec fn miss(&self) -> Seq<u8> {
        self.miss@
    }

    /// Fresh models for a grid of `len` voxels: a fresh head model and
    /// residual model, and no misses.
    pub fn new(len: usize) -> (r: Self)
        ensures
            r.wf(),
            r.len() == len,
            r.predictor().primary() == Seq::new(10 * 262144, |j: int| PROB_HALF),
            r.predictor().weights() == Seq::new(1088, |i: int| Seq::new(10, |k: int| PRIMARY_MIXER_SEED_WEIGHT)),
            r.predictor().run() == 0,
            r.residual_view() == (
                Seq::new(COUNTERS as nat, |j: int| PROB_HALF),
                Seq::new(COUNTERS as nat, |j: int| 0u8),
                Seq::new(17, |r: int| Seq::new(3, |k: int| TREE_MIXER_SEED_WEIGHT)),
            ),
            r.miss() == Seq::new(len as nat, |j: int| 0u8),
    {
        let r = Modeler {
            predictor: Predictor::new(),
            residual: ResidualModel::new(),
            inverse: vec![0u16; 65536],
            miss: vec![0u8; len],
        };
        proof {
            assert(r.miss@ =~= Seq::new(len as nat, |j: int| 0u8));
        }
        r
    }

    /// Codes the voxel at cell `i` of the section at `origin`: gathers its
    /// neighbors, codes whether it holds its primary value, and when it does
    /// not, its residual.
    #[verifier::spinoff_prover]
    #[verifier::rlimit(40)]
    fn encode_voxel(
        &mut self,
        encoder: &mut Encoder,
        voxels: &[u16],
        state: &mut HeadState,
        origin: SectionOrigin,
        section: SectionMetadata,
        palette: &[u16],
        i: usize,
    )
        requires
            old(self).wf(),
            old(state).memo.ok(),
            section.section_y < 8192,
            section.palette_bits <= 16,
            origin.2 == section.section_y * 16,
            section_fits(origin, voxels@.len() as int),
            voxels@.len() == old(self).len(),
            i < 4096,
            ({
                let truth = voxels@[cell_index(origin, i as int)];
                let ti = old(self).inverse()[truth as int];
                &&& (ti as u32) < (1u32 << (section.palette_bits as u32))
                &&& (ti as int) < palette@.len()
                &&& palette@[ti as int] == truth
            }),
        ensures
            final(self).wf(),
            final(self).len() == old(self).len(),
            final(self).inverse() == old(self).inverse(),
            final(state).memo.ok(),
            voxel_coded(
                old(self).sweep_view(*old(state), (old(encoder).low(), old(encoder).high(), old(encoder).out())),
                final(self).sweep_view(*final(state), (final(encoder).low(), final(encoder).high(), final(encoder).out())),
                voxels@,
                origin,
                section,
                old(self).inverse(),
                i as int,
            ),
    {
        let (nb, idx) = gather_cell(voxels, origin, section.section_y, i);
        let ghost h0 = *state;
        state.neighbors = nb;
        let truth = voxels[idx];
        let ghost m0 = self.miss@;
        let head = self.predictor.encode_head(encoder, section, state, truth, self.miss.as_mut_slice(), idx);
        if head.bit == 0 {
            let truth_index = self.inverse[truth as usize];
            let r = self.residual.encode_residual(
                encoder,
                truth,
                truth_index,
                &state.neighbors,
                &head,
                palette,
                section.palette_bits,
                section.section_y,
            );
        }
        proof {
            assert forall|j: int| 0 <= j < self.miss@.len() implies #[trigger] self.miss@[j] <= 1 by {
                if j != idx {
                    assert(self.miss@[j] == m0[j]);
                }
            }
        }
    }
    /// Points each atom of `palette` at its index.
    fn set_inverse(&mut self, palette: &[u16])
        requires
            old(self).wf(),
            palette@.len() <= 65536,
            palette@.no_duplicates(),
        ensures
            final(self).wf(),
            final(self).len() == old(self).len(),
            final(self).predictor() == old(self).predictor(),
            final(self).residual_view() == old(self).residual_view(),
            final(self).miss() == old(self).miss(),
            forall|k: int| 0 <= k < palette@.len() ==> #[trigger] final(self).inverse()[palette@[k] as int] == k,
            forall|a: u16| !palette@.contains(a) ==> #[trigger] final(self).inverse()[a as int] == old(self).inverse()[a as int],
    {
        let mut k: usize = 0;
        while k < palette.len()
            invariant
                k <= palette@.len() <= 65536,
                palette@.no_duplicates(),
                self.wf(),
                self.len() == old(self).len(),
                self.predictor() == old(self).predictor(),
                self.residual_view() == old(self).residual_view(),
                self.miss() == old(self).miss(),
                forall|j: int| 0 <= j < k ==> #[trigger] self.inverse@[palette@[j] as int] == j,
                forall|a: u16| !palette@.take(k as int).contains(a) ==> #[trigger] self.inverse@[a as int] == old(self).inverse()[a as int],
            decreases palette@.len() - k,
        {
            let atom = palette[k];
            let ghost before = self.inverse@;
            self.inverse.set(atom as usize, k as u16);
            proof {
                assert(self.inverse@ == before.update(atom as int, k as u16));
                assert forall|j: int| 0 <= j < k + 1 implies #[trigger] self.inverse@[palette@[j] as int] == j by {
                    if j < k {
                        assert(palette@[j] != palette@[k as int]);
                        assert(before[palette@[j] as int] == j);
                    }
                }
                assert forall|a: u16| !palette@.take(k + 1).contains(a) implies #[trigger] self.inverse@[a as int] == old(self).inverse()[a as int] by {
                    assert(palette@.take(k + 1)[k as int] == atom);
                    if palette@.take(k as int).contains(a) {
                        let j = choose|j: int| 0 <= j < k && palette@.take(k as int)[j] == a;
                        assert(palette@.take(k + 1)[j] == a);
                    }
                    assert(a != atom);
                    assert(before[a as int] == old(self).inverse()[a as int]);
                }
            }
            k += 1;
        }
        proof {
            assert(palette@.take(palette@.len() as int) =~= palette@);
        }
    }

    /// Codes the voxels of a section, in y, z, x order, against its palette:
    /// each voxel's head bit, and the residual of each voxel that misses its
    /// primary value.
    #[verifier::spinoff_prover]
    pub fn encode_section(
        &mut self,
        encoder: &mut Encoder,
        voxels: &[u16],
        pos: SectionPos,
        palette: &[u16],
        palette_bits: usize,
    ) -> (r: Result<(), ModelError>)
        requires
            old(self).wf(),
            voxels@.len() == old(self).len(),
            pos.section_y < 8192,
            palette_bits <= 16,
            section_fits(origin_spec(pos.slot as int, pos.section_y as int), voxels@.len() as int),
            palette@.no_duplicates(),
            palette@.len() <= (1u32 << (palette_bits as u32)),
            forall|k: int| 0 <= k < 4096 ==> palette@.contains(
                #[trigger] voxels@[cell_index(origin_spec(pos.slot as int, pos.section_y as int), k)],
            ),
        ensures
            r is Ok,
            final(self).wf(),
            final(self).len() == old(self).len(),
            forall|k: int| 0 <= k < palette@.len() ==> #[trigger] final(self).inverse()[palette@[k] as int] == k,
            forall|a: u16| !palette@.contains(a) ==> #[trigger] final(self).inverse()[a as int] == old(self).inverse()[a as int],
            exists|states: Seq<SweepState>|
                #[trigger] section_coded(
                    states,
                    voxels@,
                    origin_spec(pos.slot as int, pos.section_y as int),
                    SectionMetadata { section_y: pos.section_y, palette_bits },
                    final(self).inverse(),
                ) && states[0].0 == old(self).predictor() && !states[0].1.memo.valid && states[0].2 == old(self).residual_view()
                    && states[0].3 == old(self).miss() && states[0].4 == (old(encoder).low(), old(encoder).high(), old(encoder).out())
                    && states[4096].0 == final(self).predictor() && states[4096].2 == final(self).residual_view()
                    && states[4096].3 == final(self).miss() && states[4096].4 == (
                    final(encoder).low(),
                    final(encoder).high(),
                    final(encoder).out(),
                ),
    {
        proof {
            lemma_low_bits(0, palette_bits as u32);
        }
        self.set_inverse(palette);
        let origin = pos.origin();
        let section = SectionMetadata { section_y: pos.section_y, palette_bits };
        let mut state = HeadState::new();
        let ghost inv = self.inverse();
        let ghost s0 = self.sweep_view(state, (encoder.low(), encoder.high(), encoder.out()));
        let ghost mut states: Seq<SweepState> = seq![s0];
        let mut i: usize = 0;
        while i < 4096
            invariant
                i <= 4096,
                self.wf(),
                voxels@.len() == self.len(),
                section.section_y == pos.section_y,
                section.palette_bits == palette_bits,
                pos.section_y < 8192,
                palette_bits <= 16,
                origin == origin_spec(pos.slot as int, pos.section_y as int),
                section_fits(origin, voxels@.len() as int),
                palette@.len() <= (1u32 << (palette_bits as u32)),
                forall|k: int| 0 <= k < 4096 ==> palette@.contains(#[trigger] voxels@[cell_index(origin, k)]),
                self.inverse() == inv,
                forall|k: int| 0 <= k < palette@.len() ==> #[trigger] inv[palette@[k] as int] == k,
                state.memo.ok(),
                states.len() == i + 1,
                states[0] == s0,
                states[i as int] == self.sweep_view(state, (encoder.low(), encoder.high(), encoder.out())),
                forall|k: int| 0 <= k < i ==> #[trigger] voxel_coded(states[k], states[k + 1], voxels@, origin, section, inv, k),
            decreases 4096 - i,
        {
            proof {
                let truth = voxels@[cell_index(origin, i as int)];
                assert(palette@.contains(truth));
                let k = choose|k: int| 0 <= k < palette@.len() && palette@[k] == truth;
                assert(inv[truth as int] == k);
            }
            self.encode_voxel(encoder, voxels, &mut state, origin, section, palette, i);
            proof {
                let next = self.sweep_view(state, (encoder.low(), encoder.high(), encoder.out()));
                let prev = states;
                states = states.push(next);
                assert forall|k: int| 0 <= k < i + 1 implies #[trigger] voxel_coded(states[k], states[k + 1], voxels@, origin, section, inv, k) by {
                    assert(states[k] == prev.push(next)[k]);
                    if k < i {
                        assert(states[k + 1] == prev[k + 1]);
                    }
                }
            }
            i += 1;
        }
        proof {
            assert(section_coded(states, voxels@, origin, section, inv));
        }
        Ok(())
    }
    /// The reading sweep state these models make with a head state, a
    /// decoder and a grid.
    pub closed spec fn read_view(&self, head: HeadState, decoder: DecoderView, grid: Seq<u16>) -> ReadState {
        (self.predictor, head, self.residual.view(), self.miss@, decoder, grid)
    }

    /// Reads the voxel at cell `i` of the section at `origin` into the grid:
    /// gathers its neighbors from the grid read so far, reads whether it holds
    /// its primary value, and when it does not, its residual.
    #[verifier::spinoff_prover]
    #[verifier::rlimit(100)]
    fn decode_voxel(
        &mut self,
        decoder: &mut Decoder,
        voxels: &mut [u16],
        state: &mut HeadState,
        origin: SectionOrigin,
        section: SectionMetadata,
        palette: &[u16],
        i: usize,
    ) -> (r: Result<u16, ModelError>)
        requires
            old(self).wf(),
            old(state).memo.ok(),
            section.section_y < 8192,
            section.palette_bits <= 16,
            origin.2 == section.section_y * 16,
            section_fits(origin, old(voxels)@.len() as int),
            old(voxels)@.len() == old(self).len(),
            i < 4096,
        ensures
            final(self).wf(),
            final(self).len() == old(self).len(),
            final(self).inverse() == old(self).inverse(),
            final(state).memo.ok(),
            final(voxels)@.len() == old(voxels)@.len(),
            final(decoder).data() == old(decoder).data(),
            voxel_read(
                old(self).read_view(
                    *old(state),
                    (old(decoder).low(), old(decoder).high(), old(decoder).code(), old(decoder).data(), old(decoder).read()),
                    old(voxels)@,
                ),
                final(self).read_view(
                    *final(state),
                    (final(decoder).low(), final(decoder).high(), final(decoder).code(), final(decoder).data(), final(decoder).read()),
                    final(voxels)@,
                ),
                origin,
                section,
                palette@,
                i as int,
                r,
            ),
    {
        proof {
            reveal(voxel_read);
        }
        let (nb, idx) = gather_cell(voxels, origin, section.section_y, i);
        state.neighbors = nb;
        let ghost m0 = self.miss@;
        let head = self.predictor.decode_head(decoder, section, state, self.miss.as_mut_slice(), idx);
        proof {
            assert forall|j: int| 0 <= j < self.miss@.len() implies #[trigger] self.miss@[j] <= 1 by {
                if j != idx {
                    assert(self.miss@[j] == m0[j]);
                }
            }
        }
        let value = if head.bit != 0 {
            head.primary_value
        } else {
            match self.residual.decode_residual(decoder, &state.neighbors, &head, palette, section.palette_bits, section.section_y) {
                Ok(v) => v,
                Err(e) => {
                    return Err(e);
                },
            }
        };
        voxels[idx] = value;
        Ok(value)
    }

    /// Reads the voxels of a section, in y, z, x order, into the grid against
    /// its palette, learning as the encoder did; stops at the first voxel
    /// whose residual names no palette atom.
    #[verifier::spinoff_prover]
    pub fn decode_section(
        &mut self,
        decoder: &mut Decoder,
        voxels: &mut [u16],
        pos: SectionPos,
        palette: &[u16],
        palette_bits: usize,
    ) -> (r: Result<(), ModelError>)
        requires
            old(self).wf(),
            old(voxels)@.len() == old(self).len(),
            pos.section_y < 8192,
            palette_bits <= 16,
            section_fits(origin_spec(pos.slot as int, pos.section_y as int), old(voxels)@.len() as int),
        ensures
            final(self).wf(),
            final(self).len() == old(self).len(),
            final(self).inverse() == old(self).inverse(),
            final(voxels)@.len() == old(voxels)@.len(),
            final(decoder).data() == old(decoder).data(),
            exists|states: Seq<ReadState>, outcomes: Seq<Result<u16, ModelError>>|
                #[trigger] section_read(
                    states,
                    outcomes,
                    origin_spec(pos.slot as int, pos.section_y as int),
                    SectionMetadata { section_y: pos.section_y, palette_bits },
                    palette@,
                ) && states[0].0 == old(self).predictor() && !states[0].1.memo.valid && states[0].2 == old(self).residual_view()
                    && states[0].3 == old(self).miss() && states[0].4 == (
                    old(decoder).low(),
                    old(decoder).high(),
                    old(decoder).code(),
                    old(decoder).data(),
                    old(decoder).read(),
                ) && states[0].5 == old(voxels)@ && states.last().0 == final(self).predictor() && states.last().2
                    == final(self).residual_view() && states.last().3 == final(self).miss() && states.last().4 == (
                    final(decoder).low(),
                    final(decoder).high(),
                    final(decoder).code(),
                    final(decoder).data(),
                    final(decoder).read(),
                ) && states.last().5 == final(voxels)@ && (r is Ok <==> outcomes.len() == 4096 && outcomes.last() is Ok)
                    && (r matches Err(e) ==> outcomes.last() == Err::<u16, ModelError>(e)),
    {
        let origin = pos.origin();
        let section = SectionMetadata { section_y: pos.section_y, palette_bits };
        let mut state = HeadState::new();
        let ghost s0 = self.read_view(
            state,
            (decoder.low(), decoder.high(), decoder.code(), decoder.data(), decoder.read()),
            voxels@,
        );
        let ghost mut states: Seq<ReadState> = seq![s0];
        let ghost mut outcomes: Seq<Result<u16, ModelError>> = Seq::empty();
        let ghost data = decoder.data();
        let ghost inv = self.inverse();
        let ghost len0 = voxels@.len();
        let mut i: usize = 0;
        while i < 4096
            invariant
                i <= 4096,
                self.wf(),
                voxels@.len() == self.len(),
                voxels@.len() == len0,
                decoder.data() == data,
                self.inverse() == inv,
                inv == old(self).inverse(),
                self.len() == old(self).len(),
                data == old(decoder).data(),
                len0 == old(voxels)@.len(),
                !s0.1.memo.valid,
                s0.0 == old(self).predictor(),
                s0.2 == old(self).residual_view(),
                s0.3 == old(self).miss(),
                s0.4 == (old(decoder).low(), old(decoder).high(), old(decoder).code(), old(decoder).data(), old(decoder).read()),
                s0.5 == old(voxels)@,
                section.section_y == pos.section_y,
                section.palette_bits == palette_bits,
                pos.section_y < 8192,
                palette_bits <= 16,
                origin == origin_spec(pos.slot as int, pos.section_y as int),
                section_fits(origin, voxels@.len() as int),
                state.memo.ok(),
                outcomes.len() == i,
                section_read(states, outcomes, origin, section, palette@),
                forall|k: int| 0 <= k < i ==> #[trigger] outcomes[k] is Ok,
                states[0] == s0,
                states.last() == self.read_view(
                    state,
                    (decoder.low(), decoder.high(), decoder.code(), decoder.data(), decoder.read()),
                    voxels@,
                ),
            decreases 4096 - i,
        {
            let r = self.decode_voxel(decoder, voxels, &mut state, origin, section, palette, i);
            proof {
                let next = self.read_view(
                    state,
                    (decoder.low(), decoder.high(), decoder.code(), decoder.data(), decoder.read()),
                    voxels@,
                );
                let prev = states;
                let prev_out = outcomes;
                states = states.push(next);
                outcomes = outcomes.push(r);
                assert forall|k: int| 0 <= k < outcomes.len() implies #[trigger] voxel_read(
                    states[k],
                    states[k + 1],
                    origin,
                    section,
                    palette@,
                    k,
                    outcomes[k],
                ) by {
                    if k < i {
                        assert(states[k] == prev[k]);
                        assert(states[k + 1] == prev[k + 1]);
                        assert(outcomes[k] == prev_out[k]);
                    } else {
                        assert(states[k] == prev.last());
                    }
                }
                assert forall|k: int| 0 <= k < outcomes.len() - 1 implies #[trigger] outcomes[k] is Ok by {
                    assert(outcomes[k] == prev_out[k]);
                }
            }
            match r {
                Ok(_) => {},
                Err(e) => {
                    proof {
                        assert(section == SectionMetadata { section_y: pos.section_y, palette_bits });
                        assert(section_read(
                            states,
                            outcomes,
                            origin_spec(pos.slot as int, pos.section_y as int),
                            SectionMetadata { section_y: pos.section_y, palette_bits },
                            palette@,
                        ));
                        assert(outcomes.last() == Err::<u16, ModelError>(e));
                        assert(states[0] == s0);
                        assert(!s0.1.memo.valid);
                    }
                    return Err(e);
                },
            }
            i += 1;
        }
        Ok(())
    }
}

} // verus!
