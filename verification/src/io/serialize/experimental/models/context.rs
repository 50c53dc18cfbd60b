use vstd::prelude::*;

use crate::io::serialize::experimental::models::predictor::{
    adapt, adapt_weights, clamped, combine, combine_spec, count_rate_shift, counter_toward, lemma_stretch_range, mix_dot,
    mix_logits, squash_spec, stretch_spec, weight_update, HeadLite, NONE, PROB_HALF, lemma_low_bits, lemma_update_small,
};
use crate::io::serialize::experimental::models::range::{
    decode_step, decoded_bit, encode_run, encode_step, finished, law_decode_step_follows, window, Decoder, Encoder,
};

verus! {

/// Counters of each chain table, one table per neighbor slot.
pub const CHAIN_TABLE_SIZE: usize = 65536;
pub const CHAIN_TABLE_MASK: u32 = 65535;
/// Slot bands of the single-candidate pointer tables.
pub const POINTER_BANDS: usize = 4;
pub const TREE_BAND_TABLE_MASK: u32 = 4095;
/// The starting tree mixer weight: one third of `2^16`.
pub const TREE_MIXER_SEED_WEIGHT: i32 = 21845;
/// The slowest rate residual counters adapt at.
pub const ADAPT_RATE_SHIFT: i32 = 5;

/// Where each table starts among the residual counters: the twelve chain
/// tables, the pointer tables (one per bit depth and slot band), the two tree
/// tables and the tree band table.
pub const POINTER_BASE: usize = 786432;
pub const TREE_BASE: usize = 786500;
pub const BAND_BASE: usize = 1310788;
pub const COUNTERS: usize = 1314884;

/// Why a modelled grid cannot be coded or read back.
#[derive(Debug, Clone, Copy, PartialEq, Eq)]
pub enum ModelError {
    VoxelCountMismatch { actual: usize, expected: usize },
    UnsupportedMode(u8),
    UniformRankOutOfRange { rank: usize, len: usize },
    PaletteRankOutOfRange { rank: usize, len: usize },
    InvalidBitDepth(usize),
    PaletteInconsistent { len: usize, bit_depth: usize },
    PaletteIndexOutOfRange { index: usize, len: usize },
}

/// The counters and counts after moving the counter at `pos` towards `bit`,
/// at the rate its count gives, never slower than `ADAPT_RATE_SHIFT`.
pub open spec fn bumped(counters: Seq<u16>, counts: Seq<u8>, pos: int, bit: u32) -> (Seq<u16>, Seq<u8>) {
    let c = if counts[pos] < 29 { counts[pos] as int } else { 29 };
    let rate = count_rate_shift(c);
    let shift = if rate < 5 { rate } else { 5 };
    (
        counters.update(pos, counter_toward(counters[pos] as int, bit, shift)),
        counts.update(pos, if counts[pos] + 1 < 29 { (counts[pos] + 1) as u8 } else { 29u8 }),
    )
}

/// The counters a tree node is predicted from: by the voxel's hash, by the
/// node and its bit position, and by the section's height.
pub open spec fn tree_slots(hash: u32, node: u32, bit_pos: u32, section_y: u32) -> Seq<int> {
    seq![
        TREE_BASE + (combine_spec(hash, node) & 262143u32),
        TREE_BASE + 262144 + ((node | (bit_pos << 13u32)) as int),
        BAND_BASE + (combine_spec(section_y, node) & 4095u32),
    ]
}

/// The mixed probability of the tree predictions under a weight row.
pub open spec fn tree_mixed(row: Seq<i32>, probs: Seq<u32>) -> u32 {
    squash_spec(((mix_dot(row, probs, 3) as i64) >> 16u64) as i32 as int) as u32
}

/// A tree weight row after learning from `bit` against the mixed probability.
pub open spec fn tree_row_after(row: Seq<i32>, probs: Seq<u32>, bit: u32, mixed: u32) -> Seq<i32> {
    Seq::new(3, |i: int| clamped(row[i] + weight_update((bit * 4096 - mixed) as i32, stretch_spec(probs[i] as int) as i32)))
}

/// The residual model as the tree walk sees it: counters, counts, tree
/// weight rows.
pub type ModelView = (Seq<u16>, Seq<u8>, Seq<Seq<i32>>);

/// The counters, predictions and mixed probability of tree node `node`, at
/// bit position `bp`.
pub open spec fn tree_node(m: ModelView, hash: u32, pb: int, sy: u32, node: u32, bp: u32) -> (Seq<int>, Seq<u32>, u32) {
    let slots = tree_slots(hash, node, bp, sy);
    let probs = seq![m.0[slots[0]] as u32, m.0[slots[1]] as u32, m.0[slots[2]] as u32];
    (slots, probs, tree_mixed(m.2[pb], probs))
}

/// The model after learning `bit` at a tree node: its three counters and the
/// weight row of the bit depth.
pub open spec fn tree_learned(m: ModelView, pb: int, slots: Seq<int>, probs: Seq<u32>, bit: u32, mixed: u32) -> ModelView {
    let b1 = bumped(m.0, m.1, slots[0], bit);
    let b2 = bumped(b1.0, b1.1, slots[1], bit);
    let b3 = bumped(b2.0, b2.1, slots[2], bit);
    (b3.0, b3.1, m.2.update(pb, tree_row_after(m.2[pb], probs, bit, mixed)))
}

/// The tree walk over the last `k` bits of a palette index, most significant
/// first, coding `bits` from `partial` (the bits above): the model after, the
/// probability and bit of each step, and the index reached.
pub open spec fn tree_walk(m: ModelView, hash: u32, pb: int, sy: u32, partial: u32, k: nat, bits: Seq<u32>) -> (
    ModelView,
    Seq<(u32, u32)>,
    u32,
)
    decreases k,
{
    if k == 0 {
        (m, Seq::empty(), partial)
    } else {
        let bp = (k - 1) as u32;
        let t = tree_node(m, hash, pb, sy, partial | (1u32 << bp), bp);
        let bit = bits[0];
        let r = tree_walk(tree_learned(m, pb, t.0, t.1, bit, t.2), hash, pb, sy, partial | (bit << bp), (k - 1) as nat, bits.skip(1));
        (r.0, seq![(t.2, bit)] + r.1, r.2)
    }
}

/// A decoder's bounds, code, stream and read position.
pub type DecoderView = (u32, u32, u32, Seq<u8>, int);

/// The same walk with each bit read by a decoder: the model after, the
/// decoder after, and the index reached.
pub open spec fn tree_read(m: ModelView, hash: u32, pb: int, sy: u32, partial: u32, k: nat, d: DecoderView) -> (
    ModelView,
    DecoderView,
    u32,
)
    decreases k,
{
    if k == 0 {
        (m, d, partial)
    } else {
        let bp = (k - 1) as u32;
        let t = tree_node(m, hash, pb, sy, partial | (1u32 << bp), bp);
        let bit = decoded_bit(d.0, d.1, d.2, t.2);
        let n = decode_step(d.0, d.1, d.2, d.3, d.4, t.2);
        tree_read(tree_learned(m, pb, t.0, t.1, bit, t.2), hash, pb, sy, partial | (bit << bp), (k - 1) as nat, (n.0, n.1, n.2, d.3, n.3))
    }
}

/// The `pb` bits of a palette index, most significant first.
pub open spec fn index_bits(index: u32, pb: int) -> Seq<u32> {
    Seq::new(pb as nat, |j: int| (index >> ((pb - 1 - j) as u32)) & 1u32)
}

/// Where a walk starts: no bits chosen, all of them below `2^pb`; and no
/// low bits of an index set on `partial` leave it as it is.
proof fn lemma_start_bits(pb: u32, index: u32, partial: u32)
    by (bit_vector)
    requires
        pb <= 16,
    ensures
        (0u32 >> pb) << pb == 0u32,
        0u32 < (1u32 << pb),
        index < (1u32 << pb) ==> 0u32 | (index & (((1u32 << pb) - 1) as u32)) == index,
        partial | (index & (((1u32 << 0u32) - 1) as u32)) == partial,
{
}

/// The node a tree step reaches stays below `2^16`, and the bits chosen so
/// far stay clear of the bits still to come.
proof fn lemma_node_bits(partial: u32, k: u32, pb: u32, bit: u32)
    requires
        1 <= k <= pb <= 16,
        bit <= 1,
        (partial >> k) << k == partial,
        partial < (1u32 << pb),
    ensures
        (partial | (1u32 << (k - 1) as u32)) < 65536,
        ((partial | (bit << (k - 1) as u32)) >> (k - 1) as u32) << (k - 1) as u32 == (partial | (bit << (k - 1) as u32)),
        (partial | (bit << (k - 1) as u32)) < (1u32 << pb),
{
    assert(1 <= k <= pb <= 16 && bit <= 1 && (partial >> k) << k == partial && partial < (1u32 << pb)
        ==> (partial | (1u32 << (k - 1) as u32)) < 65536
            && ((partial | (bit << (k - 1) as u32)) >> (k - 1) as u32) << (k - 1) as u32 == (partial | (bit << (k - 1) as u32))
            && (partial | (bit << (k - 1) as u32)) < (1u32 << pb)) by (bit_vector);
}

/// The chain candidates of a voxel, from its first `n` neighbor slots in
/// order: each neighbor value that is in the grid, is not the primary value
/// and was not met before, with the slot it was met at.
pub open spec fn chain_candidates(nb: Seq<u16>, pv: u16, n: int) -> Seq<(u16, int)>
    decreases n,
{
    if n <= 0 {
        Seq::empty()
    } else {
        let prev = chain_candidates(nb, pv, n - 1);
        let c = nb[n - 1];
        if c == NONE || c == pv || prev.map_values(|e: (u16, int)| e.0).contains(c) {
            prev
        } else {
            prev.push((c, n - 1))
        }
    }
}

/// The band of a neighbor slot for the pointer tables.
pub open spec fn pointer_band(slot: int) -> int {
    if slot <= 2 {
        0
    } else if slot <= 6 {
        1
    } else if slot <= 8 {
        2
    } else {
        3
    }
}

/// The pointer counter for a lone candidate met at `slot`.
pub open spec fn pointer_slot(pb: int, slot: int) -> int {
    POINTER_BASE + pb * 4 + pointer_band(slot)
}

/// The chain counter for the `entry`-th candidate, met at `slot`.
pub open spec fn chain_slot(slot: int, cand: u16, entry: int, mask: u32) -> int {
    slot * 65536 + (combine_spec(cand as u32, (entry as u32) | (mask << 8u32)) & 65535u32)
}

/// The model after coding `bit` with one counter.
pub open spec fn counter_learned(m: ModelView, pos: int, bit: u32) -> ModelView {
    let b = bumped(m.0, m.1, pos, bit);
    (b.0, b.1, m.2)
}

/// How a residual ends: on a candidate, or at a palette index read off the
/// tree.
pub enum Residual {
    Candidate(u16),
    Index(u32),
}

/// The chain coded from entry `j` on for a voxel holding `truth`: a bit per
/// candidate, 1 on the candidate that is `truth`, stopping there.
pub open spec fn chain_code(m: ModelView, cands: Seq<(u16, int)>, j: nat, mask: u32, truth: u16) -> (
    ModelView,
    Seq<(u32, u32)>,
    Option<u16>,
)
    decreases cands.len() - j,
{
    if j >= cands.len() {
        (m, Seq::empty(), None)
    } else {
        let pos = chain_slot(cands[j as int].1, cands[j as int].0, j as int, mask);
        let prob = m.0[pos] as u32;
        let bit: u32 = if truth == cands[j as int].0 { 1 } else { 0 };
        let m1 = counter_learned(m, pos, bit);
        if bit != 0 {
            (m1, seq![(prob, bit)], Some(cands[j as int].0))
        } else {
            let r = chain_code(m1, cands, j + 1, mask, truth);
            (r.0, seq![(prob, bit)] + r.1, r.2)
        }
    }
}

/// A lone candidate gets one pointer bit, 1 when it is `truth`; a voxel it
/// does not hold goes down the tree.
pub open spec fn pointer_code(m: ModelView, cand: (u16, int), hash: u32, truth: u16, truth_index: u16, pb: int, sy: u32) -> (
    ModelView,
    Seq<(u32, u32)>,
    Residual,
) {
    let pos = pointer_slot(pb, cand.1);
    let prob = m.0[pos] as u32;
    let bit: u32 = if truth == cand.0 { 1 } else { 0 };
    let m1 = counter_learned(m, pos, bit);
    if bit != 0 {
        (m1, seq![(prob, bit)], Residual::Candidate(cand.0))
    } else {
        let t = tree_walk(m1, hash, pb, sy, 0, pb as nat, index_bits(truth_index as u32, pb));
        (t.0, seq![(prob, bit)] + t.1, Residual::Index(t.2))
    }
}

/// Several candidates (or none) get the chain; a voxel none of them holds
/// goes down the tree.
pub open spec fn chain_residual_code(
    m: ModelView,
    cands: Seq<(u16, int)>,
    hash: u32,
    mask: u32,
    truth: u16,
    truth_index: u16,
    pb: int,
    sy: u32,
) -> (ModelView, Seq<(u32, u32)>, Residual) {
    let c = chain_code(m, cands, 0, mask, truth);
    match c.2 {
        Some(x) => (c.0, c.1, Residual::Candidate(x)),
        None => {
            let t = tree_walk(c.0, hash, pb, sy, 0, pb as nat, index_bits(truth_index as u32, pb));
            (t.0, c.1 + t.1, Residual::Index(t.2))
        },
    }
}

/// The residual of a voxel holding `truth` (at palette index `truth_index`)
/// that missed its primary value: a lone candidate gets one pointer bit, more
/// get a chain; a voxel none of them holds goes down the tree.
pub open spec fn residual_code(
    m: ModelView,
    nb: Seq<u16>,
    head: HeadLite,
    truth: u16,
    truth_index: u16,
    pb: int,
    sy: u32,
) -> (ModelView, Seq<(u32, u32)>, Residual) {
    let cands = chain_candidates(nb, head.primary_value, 12);
    if cands.len() == 1 {
        pointer_code(m, cands[0], head.hash, truth, truth_index, pb, sy)
    } else {
        chain_residual_code(m, cands, head.hash, head.mask, truth, truth_index, pb, sy)
    }
}

/// The chain read from entry `j` on: a bit per candidate, stopping at the
/// first 1.
pub open spec fn chain_read(m: ModelView, cands: Seq<(u16, int)>, j: nat, mask: u32, d: DecoderView) -> (
    ModelView,
    DecoderView,
    Option<u16>,
)
    decreases cands.len() - j,
{
    if j >= cands.len() {
        (m, d, None)
    } else {
        let pos = chain_slot(cands[j as int].1, cands[j as int].0, j as int, mask);
        let prob = m.0[pos] as u32;
        let bit = decoded_bit(d.0, d.1, d.2, prob);
        let n = decode_step(d.0, d.1, d.2, d.3, d.4, prob);
        let d1 = (n.0, n.1, n.2, d.3, n.3);
        let m1 = counter_learned(m, pos, bit);
        if bit != 0 {
            (m1, d1, Some(cands[j as int].0))
        } else {
            chain_read(m1, cands, j + 1, mask, d1)
        }
    }
}

/// The pointer bit of a lone candidate read, then the tree when it is 0.
pub open spec fn pointer_read(m: ModelView, cand: (u16, int), hash: u32, pb: int, sy: u32, d: DecoderView) -> (
    ModelView,
    DecoderView,
    Residual,
) {
    let pos = pointer_slot(pb, cand.1);
    let prob = m.0[pos] as u32;
    let bit = decoded_bit(d.0, d.1, d.2, prob);
    let n = decode_step(d.0, d.1, d.2, d.3, d.4, prob);
    let d1 = (n.0, n.1, n.2, d.3, n.3);
    let m1 = counter_learned(m, pos, bit);
    if bit != 0 {
        (m1, d1, Residual::Candidate(cand.0))
    } else {
        let t = tree_read(m1, hash, pb, sy, 0, pb as nat, d1);
        (t.0, t.1, Residual::Index(t.2))
    }
}

/// The chain read, then the tree when no candidate was read.
pub open spec fn chain_residual_read(m: ModelView, cands: Seq<(u16, int)>, hash: u32, mask: u32, pb: int, sy: u32, d: DecoderView) -> (
    ModelView,
    DecoderView,
    Residual,
) {
    let c = chain_read(m, cands, 0, mask, d);
    match c.2 {
        Some(x) => (c.0, c.1, Residual::Candidate(x)),
        None => {
            let t = tree_read(c.0, hash, pb, sy, 0, pb as nat, c.1);
            (t.0, t.1, Residual::Index(t.2))
        },
    }
}

/// The residual a decoder reads for a voxel that missed its primary value,
/// learning as the encoder did.
#[verifier::opaque]
pub open spec fn residual_read(m: ModelView, nb: Seq<u16>, head: HeadLite, pb: int, sy: u32, d: DecoderView) -> (
    ModelView,
    DecoderView,
    Residual,
) {
    let cands = chain_candidates(nb, head.primary_value, 12);
    if cands.len() == 1 {
        pointer_read(m, cands[0], head.hash, pb, sy, d)
    } else {
        chain_residual_read(m, cands, head.hash, head.mask, pb, sy, d)
    }
}

/// What a residual gives: the candidate, or the palette atom at the index.
pub open spec fn residual_value(r: Residual, palette: Seq<u16>) -> Result<u16, ModelError> {
    match r {
        Residual::Candidate(c) => Ok(c),
        Residual::Index(i) => if i < palette.len() {
            Ok(palette[i as int])
        } else {
            Err(ModelError::PaletteIndexOutOfRange { index: i as usize, len: palette.len() as usize })
        },
    }
}

/// The residual model: adaptive counters for the chain, pointer and tree
/// contexts, and a mixer weight row per bit depth for the tree.
pub struct ResidualModel {
    counters: Vec<u16>,
    counts: Vec<u8>,
    tree_weights: Vec<[i32; 3]>,
}

impl ResidualModel {
    /// The tables have their sizes, every counter is a probability, every
    /// count is capped and every weight lies within `WEIGHT_LIMIT`.
    pub closed spec fn wf(&self) -> bool {
        &&& self.counters@.len() == COUNTERS
        &&& self.counts@.len() == COUNTERS
        &&& forall|j: int| 0 <= j < COUNTERS ==> #[trigger] self.counters@[j] <= 4095
        &&& forall|j: int| 0 <= j < COUNTERS ==> #[trigger] self.counts@[j] <= 29
        &&& self.tree_weights@.len() == 17
        &&& forall|r: int, k: int| 0 <= r < 17 && 0 <= k < 3 ==> -1048576 <= #[trigger] self.tree_weights@[r]@[k] <= 1048576
    }

    pub closed spec fn view(&self) -> ModelView {
        (self.counters@, self.counts@, Seq::new(self.tree_weights@.len(), |r: int| self.tree_weights@[r]@))
    }

    /// A fresh model: every counter at one half, every count zero, every
    /// tree weight at one third.
    pub fn new() -> (r: Self)
        ensures
            r.wf(),
            r.view() == (
                Seq::new(COUNTERS as nat, |j: int| PROB_HALF),
                Seq::new(COUNTERS as nat, |j: int| 0u8),
                Seq::new(17, |r: int| Seq::new(3, |k: int| TREE_MIXER_SEED_WEIGHT)),
            ),
    {
        let counters: Vec<u16> = vec![PROB_HALF; COUNTERS];
        let counts: Vec<u8> = vec![0u8; COUNTERS];
        let tree_weights: Vec<[i32; 3]> = vec![[TREE_MIXER_SEED_WEIGHT; 3]; 17];
        let r = ResidualModel { counters, counts, tree_weights };
        proof {
            assert(r.counters@ =~= Seq::new(COUNTERS as nat, |j: int| PROB_HALF));
            assert(r.counts@ =~= Seq::new(COUNTERS as nat, |j: int| 0u8));
            assert(r.view().2 =~= Seq::new(17, |i: int| Seq::new(3, |k: int| TREE_MIXER_SEED_WEIGHT))) by {
                assert forall|i: int| 0 <= i < 17 implies #[trigger] r.view().2[i] =~= Seq::new(3, |k: int| TREE_MIXER_SEED_WEIGHT) by {
                }
            }
        }
        r
    }

    /// Moves the counter at `pos` towards `bit`.
    fn bump(&mut self, pos: usize, bit: u32)
        requires
            old(self).wf(),
            pos < COUNTERS,
        ensures
            final(self).wf(),
            final(self).view() == ({
                let b = bumped(old(self).view().0, old(self).view().1, pos as int, bit);
                (b.0, b.1, old(self).view().2)
            }),
    {
        let mut counter = self.counters[pos];
        let mut count = self.counts[pos];
        adapt(&mut counter, &mut count, bit, ADAPT_RATE_SHIFT);
        self.counters.set(pos, counter);
        self.counts.set(pos, count);
        proof {
            let b = bumped(old(self).view().0, old(self).view().1, pos as int, bit);
            assert(self.counters@ =~= b.0);
            assert(self.counts@ =~= b.1);
        }
    }

    /// One tree node: mixes its three predictions with the row of the bit
    /// depth, and gives the counters and the mixed probability.
    fn tree_predict(&self, hash: u32, node: u32, bit_pos: u32, section_y: u32, palette_bits: usize) -> (r: (
        [usize; 3],
        [u32; 3],
        u32,
    ))
        requires
            self.wf(),
            palette_bits <= 16,
            node < 65536,
            bit_pos < 16,
        ensures
            r.0@.map_values(|s: usize| s as int) == tree_slots(hash, node, bit_pos, section_y),
            forall|i: int| 0 <= i < 3 ==> #[trigger] r.0@[i] < COUNTERS,
            r.1@ == seq![
                self.view().0[r.0@[0] as int] as u32,
                self.view().0[r.0@[1] as int] as u32,
                self.view().0[r.0@[2] as int] as u32,
            ],
            r.2 == tree_mixed(self.view().2[palette_bits as int], r.1@),
            1 <= r.2 <= 4095,
    {
        let c0 = combine(hash, node) & 262143u32;
        assert((node | (bit_pos << 13u32)) < 262144) by (bit_vector)
            requires
                node < 65536,
                bit_pos < 16,
        ;
        proof {
            lemma_low_bits(combine_spec(hash, node), 0);
            lemma_low_bits(combine_spec(section_y, node), 0);
        }
        let s0 = TREE_BASE + c0 as usize;
        let s1 = TREE_BASE + 262144 + (node | (bit_pos << 13u32)) as usize;
        let s2 = BAND_BASE + (combine(section_y, node) & 4095u32) as usize;
        let probs: [u32; 3] = [self.counters[s0] as u32, self.counters[s1] as u32, self.counters[s2] as u32];
        let row = self.tree_weights[palette_bits];
        let mixed = mix_logits(&row, &probs);
        let slots: [usize; 3] = [s0, s1, s2];
        proof {
            assert(slots@.map_values(|s: usize| s as int) =~= tree_slots(hash, node, bit_pos, section_y));
            assert(probs@ =~= seq![
                self.view().0[slots@[0] as int] as u32,
                self.view().0[slots@[1] as int] as u32,
                self.view().0[slots@[2] as int] as u32,
            ]);
            assert(row@ == self.view().2[palette_bits as int]);
        }
        (slots, probs, mixed)
    }

    /// Learns one tree node: the three counters and the row of the bit depth
    /// move towards `bit`.
    fn tree_learn(&mut self, slots: &[usize; 3], probs: &[u32; 3], palette_bits: usize, bit: u32, mixed: u32)
        requires
            old(self).wf(),
            palette_bits <= 16,
            bit <= 1,
            1 <= mixed <= 4095,
            forall|i: int| 0 <= i < 3 ==> #[trigger] slots@[i] < COUNTERS,
            forall|i: int| 0 <= i < 3 ==> #[trigger] probs@[i] < 4096,
        ensures
            final(self).wf(),
            final(self).view() == ({
                let m = old(self).view();
                let b1 = bumped(m.0, m.1, slots@[0] as int, bit);
                let b2 = bumped(b1.0, b1.1, slots@[1] as int, bit);
                let b3 = bumped(b2.0, b2.1, slots@[2] as int, bit);
                (b3.0, b3.1, m.2.update(palette_bits as int, tree_row_after(m.2[palette_bits as int], probs@, bit, mixed)))
            }),
    {
        self.bump(slots[0], bit);
        self.bump(slots[1], bit);
        self.bump(slots[2], bit);
        let mut row = self.tree_weights[palette_bits];
        let ghost w0 = row@;
        proof {
            assert forall|q: int| 0 <= q < 3 implies i32::MIN <= #[trigger] row@[q]
                + weight_update((bit * 4096 - mixed) as i32, stretch_spec(probs@[q] as int) as i32) <= i32::MAX by {
                lemma_stretch_range(probs@[q]);
                let e = (bit * 4096 - mixed) as i32;
                let st = stretch_spec(probs@[q] as int) as i32;
                assert(-4096 * 2047 <= e * st <= 4096 * 2047) by (nonlinear_arith)
                    requires
                        -4096 <= e <= 4096,
                        -2047 <= st <= 2047,
                ;
                let prod = (e * st) as i32;
                lemma_update_small(prod);
                assert(row@[q] == self.tree_weights@[palette_bits as int]@[q]);
            }
        }
        adapt_weights(&mut row, probs, bit, mixed);
        proof {
            assert(row@ =~= tree_row_after(w0, probs@, bit, mixed));
            assert forall|q: int| 0 <= q < 3 implies -1048576 <= #[trigger] row@[q] <= 1048576 by {
                assert(row@[q] == clamped(w0[q] + weight_update((bit * 4096 - mixed) as i32, stretch_spec(probs@[q] as int) as i32)));
            }
        }
        self.tree_weights.set(palette_bits, row);
        proof {
            let m = old(self).view();
            assert(self.view().2 =~= m.2.update(palette_bits as int, tree_row_after(m.2[palette_bits as int], probs@, bit, mixed)));
        }
    }

    /// Codes the low `palette_bits` bits of a palette index, most significant
    /// first, each against the tree node that the bits above it reach; gives
    /// the palette atom at the index coded.
    pub fn encode_tree(
        &mut self,
        encoder: &mut Encoder,
        truth_index: u16,
        hash: u32,
        palette: &[u16],
        palette_bits: usize,
        section_y: usize,
    ) -> (r: Result<u16, ModelError>)
        requires
            old(self).wf(),
            palette_bits <= 16,
        ensures
            final(self).wf(),
            ({
                let w = tree_walk(
                    old(self).view(),
                    hash,
                    palette_bits as int,
                    section_y as u32,
                    0,
                    palette_bits as nat,
                    index_bits(truth_index as u32, palette_bits as int),
                );
                &&& final(self).view() == w.0
                &&& (final(encoder).low(), final(encoder).high(), final(encoder).out()) == encode_run(
                    old(encoder).low(),
                    old(encoder).high(),
                    old(encoder).out(),
                    w.1,
                )
                &&& r == (if w.2 < palette@.len() {
                    Ok::<u16, ModelError>(palette@[w.2 as int])
                } else {
                    Err(ModelError::PaletteIndexOutOfRange { index: w.2 as usize, len: palette@.len() as usize })
                })
            }),
    {
        let ghost bits = index_bits(truth_index as u32, palette_bits as int);
        let ghost pb = palette_bits as int;
        #[verifier::truncate]
        let sy = section_y as u32;
        let ghost w = tree_walk(self.view(), hash, pb, sy, 0, palette_bits as nat, bits);
        let ghost e0 = (encoder.low(), encoder.high(), encoder.out());
        let mut partial: u32 = 0;
        let mut k: usize = palette_bits;
        proof {
            lemma_start_bits(palette_bits as u32, 0, 0);
            assert(bits.skip(0) =~= bits);
        }
        while k > 0
            invariant
                k <= palette_bits <= 16,
                pb == palette_bits,
                bits == index_bits(truth_index as u32, pb),
                sy == section_y as u32,
                self.wf(),
                (partial >> (k as u32)) << (k as u32) == partial,
                partial < (1u32 << (palette_bits as u32)),
                ({
                    let rest = tree_walk(self.view(), hash, pb, sy, partial, k as nat, bits.skip(pb - k));
                    &&& rest.0 == w.0
                    &&& rest.2 == w.2
                    &&& encode_run(encoder.low(), encoder.high(), encoder.out(), rest.1) == encode_run(e0.0, e0.1, e0.2, w.1)
                }),
            decreases k,
        {
            let bit_pos = (k - 1) as u32;
            let bit: u32 = ((truth_index as u32) >> bit_pos) & 1u32;
            proof {
                lemma_low_bits(truth_index as u32, bit_pos);
                lemma_node_bits(partial, k as u32, palette_bits as u32, bit);
            }
            let node = partial | (1u32 << bit_pos);
            let ghost m0 = self.view();
            let ghost en0 = (encoder.low(), encoder.high(), encoder.out());
            let ghost tail = bits.skip(pb - k);
            let (slots, probs, mixed) = self.tree_predict(hash, node, bit_pos, sy, palette_bits);
            encoder.encode(mixed, bit);
            self.tree_learn(&slots, &probs, palette_bits, bit, mixed);
            partial = partial | (bit << bit_pos);
            k -= 1;
            proof {
                assert(tail[0] == bit);
                assert(tail.skip(1) =~= bits.skip(pb - k));
                assert(slots@[0] as int == tree_slots(hash, node, bit_pos, sy)[0]);
                assert(slots@[1] as int == tree_slots(hash, node, bit_pos, sy)[1]);
                assert(slots@[2] as int == tree_slots(hash, node, bit_pos, sy)[2]);
                let rest = tree_walk(self.view(), hash, pb, sy, partial, k as nat, bits.skip(pb - k));
                let steps = seq![(mixed, bit)] + rest.1;
                assert(steps[0] == (mixed, bit));
                assert(steps.skip(1) =~= rest.1);
            }
        }
        proof {
            assert(bits.skip(pb) =~= Seq::<u32>::empty());
        }
        if (partial as usize) < palette.len() {
            Ok(palette[partial as usize])
        } else {
            Err(ModelError::PaletteIndexOutOfRange { index: partial as usize, len: palette.len() })
        }
    }

    /// Reads a palette index of `palette_bits` bits, most significant first,
    /// each against the tree node that the bits above it reach, learning as
    /// the encoder did; gives the palette atom at the index read.
    pub fn decode_tree(
        &mut self,
        decoder: &mut Decoder,
        hash: u32,
        palette: &[u16],
        palette_bits: usize,
        section_y: usize,
    ) -> (r: Result<u16, ModelError>)
        requires
            old(self).wf(),
            palette_bits <= 16,
        ensures
            final(self).wf(),
            final(decoder).data() == old(decoder).data(),
            ({
                let w = tree_read(
                    old(self).view(),
                    hash,
                    palette_bits as int,
                    section_y as u32,
                    0,
                    palette_bits as nat,
                    (old(decoder).low(), old(decoder).high(), old(decoder).code(), old(decoder).data(), old(decoder).read()),
                );
                &&& final(self).view() == w.0
                &&& (final(decoder).low(), final(decoder).high(), final(decoder).code(), final(decoder).data(), final(decoder).read()) == w.1
                &&& r == (if w.2 < palette@.len() {
                    Ok::<u16, ModelError>(palette@[w.2 as int])
                } else {
                    Err(ModelError::PaletteIndexOutOfRange { index: w.2 as usize, len: palette@.len() as usize })
                })
            }),
    {
        let ghost pb = palette_bits as int;
        #[verifier::truncate]
        let sy = section_y as u32;
        let ghost w = tree_read(
            self.view(),
            hash,
            pb,
            sy,
            0,
            palette_bits as nat,
            (decoder.low(), decoder.high(), decoder.code(), decoder.data(), decoder.read()),
        );
        let ghost data = decoder.data();
        let mut partial: u32 = 0;
        let mut k: usize = palette_bits;
        proof {
            lemma_start_bits(palette_bits as u32, 0, 0);
        }
        while k > 0
            invariant
                k <= palette_bits <= 16,
                pb == palette_bits,
                sy == section_y as u32,
                self.wf(),
                decoder.data() == data,
                (partial >> (k as u32)) << (k as u32) == partial,
                partial < (1u32 << (palette_bits as u32)),
                tree_read(
                    self.view(),
                    hash,
                    pb,
                    sy,
                    partial,
                    k as nat,
                    (decoder.low(), decoder.high(), decoder.code(), decoder.data(), decoder.read()),
                ) == w,
            decreases k,
        {
            let bit_pos = (k - 1) as u32;
            proof {
                lemma_node_bits(partial, k as u32, palette_bits as u32, 0);
            }
            let node = partial | (1u32 << bit_pos);
            let (slots, probs, mixed) = self.tree_predict(hash, node, bit_pos, sy, palette_bits);
            let bit = decoder.decode(mixed);
            proof {
                lemma_node_bits(partial, k as u32, palette_bits as u32, bit);
            }
            self.tree_learn(&slots, &probs, palette_bits, bit, mixed);
            partial = partial | (bit << bit_pos);
            k -= 1;
            proof {
                assert(slots@[0] as int == tree_slots(hash, node, bit_pos, sy)[0]);
                assert(slots@[1] as int == tree_slots(hash, node, bit_pos, sy)[1]);
                assert(slots@[2] as int == tree_slots(hash, node, bit_pos, sy)[2]);
            }
        }
        if (partial as usize) < palette.len() {
            Ok(palette[partial as usize])
        } else {
            Err(ModelError::PaletteIndexOutOfRange { index: partial as usize, len: palette.len() })
        }
    }

    /// The chain candidates of a voxel with neighbors `neighbors` and primary
    /// value `pv`, and the slots they were met at.
    fn collect_candidates(neighbors: &[u16; 12], pv: u16) -> (r: (Vec<u16>, Vec<usize>))
        ensures
            r.0@.len() == r.1@.len(),
            r.0@.len() <= 12,
            forall|i: int| 0 <= i < r.0@.len() ==> #[trigger] r.1@[i] < 12,
            Seq::new(r.0@.len(), |i: int| (r.0@[i], r.1@[i] as int)) == chain_candidates(neighbors@, pv, 12),
    {
        let mut cands: Vec<u16> = Vec::new();
        let mut slots: Vec<usize> = Vec::new();
        let mut slot: usize = 0;
        while slot < 12
            invariant
                slot <= 12,
                cands@.len() == slots@.len(),
                cands@.len() <= slot,
                forall|i: int| 0 <= i < slots@.len() ==> #[trigger] slots@[i] < 12,
                Seq::new(cands@.len(), |i: int| (cands@[i], slots@[i] as int)) == chain_candidates(neighbors@, pv, slot as int),
            decreases 12 - slot,
        {
            let ghost prev = chain_candidates(neighbors@, pv, slot as int);
            let c = neighbors[slot];
            let mut seen = false;
            let mut j: usize = 0;
            while j < cands.len()
                invariant
                    j <= cands@.len(),
                    Seq::new(cands@.len(), |i: int| (cands@[i], slots@[i] as int)) == prev,
                    seen <==> exists|i: int| 0 <= i < j && cands@[i] == c,
                decreases cands@.len() - j,
            {
                if cands[j] == c {
                    seen = true;
                }
                j += 1;
            }
            proof {
                let firsts = prev.map_values(|e: (u16, int)| e.0);
                assert(firsts =~= cands@);
                if seen {
                    let i = choose|i: int| 0 <= i < j && cands@[i] == c;
                    assert(firsts[i] == c);
                }
            }
            if !(c == NONE || c == pv || seen) {
                cands.push(c);
                slots.push(slot);
                proof {
                    assert(Seq::new(cands@.len(), |i: int| (cands@[i], slots@[i] as int)) =~= prev.push((c, slot as int)));
                }
            }
            slot += 1;
        }
        (cands, slots)
    }

    /// Codes one bit with the counter at `pos`, and learns it.
    fn code_counter(&mut self, encoder: &mut Encoder, pos: usize, bit: u32)
        requires
            old(self).wf(),
            pos < COUNTERS,
        ensures
            final(self).wf(),
            final(self).view() == counter_learned(old(self).view(), pos as int, bit),
            (final(encoder).low(), final(encoder).high(), final(encoder).out()) == encode_step(
                old(encoder).low(),
                old(encoder).high(),
                old(encoder).out(),
                old(self).view().0[pos as int] as u32,
                bit,
            ),
    {
        let prob = self.counters[pos] as u32;
        encoder.encode(prob, bit);
        self.bump(pos, bit);
    }

    /// Codes the chain of candidates for a voxel holding `truth`: a bit per
    /// candidate, stopping at the one that is `truth`; gives that candidate.
    #[verifier::spinoff_prover]
    fn encode_chain(&mut self, encoder: &mut Encoder, cands: &Vec<u16>, slots: &Vec<usize>, mask: u32, truth: u16) -> (r: Option<u16>)
        requires
            old(self).wf(),
            cands@.len() == slots@.len(),
            cands@.len() <= 12,
            forall|i: int| 0 <= i < slots@.len() ==> #[trigger] slots@[i] < 12,
        ensures
            final(self).wf(),
            ({
                let c = chain_code(old(self).view(), Seq::new(cands@.len(), |i: int| (cands@[i], slots@[i] as int)), 0, mask, truth);
                &&& final(self).view() == c.0
                &&& (final(encoder).low(), final(encoder).high(), final(encoder).out()) == encode_run(
                    old(encoder).low(),
                    old(encoder).high(),
                    old(encoder).out(),
                    c.1,
                )
                &&& r == c.2
            }),
    {
        let ghost cs = Seq::new(cands@.len(), |i: int| (cands@[i], slots@[i] as int));
        let ghost m0 = self.view();
        let ghost e0 = (encoder.low(), encoder.high(), encoder.out());
        let ghost whole = chain_code(m0, cs, 0, mask, truth);
        let mut entry: usize = 0;
        while entry < cands.len()
            invariant
                entry <= cands@.len() <= 12,
                cands@.len() == slots@.len(),
                forall|i: int| 0 <= i < slots@.len() ==> #[trigger] slots@[i] < 12,
                cs == Seq::new(cands@.len(), |i: int| (cands@[i], slots@[i] as int)),
                m0 == old(self).view(),
                e0 == (old(encoder).low(), old(encoder).high(), old(encoder).out()),
                whole == chain_code(m0, cs, 0, mask, truth),
                self.wf(),
                ({
                    let rest = chain_code(self.view(), cs, entry as nat, mask, truth);
                    &&& rest.0 == whole.0
                    &&& rest.2 == whole.2
                    &&& encode_run(encoder.low(), encoder.high(), encoder.out(), rest.1) == encode_run(e0.0, e0.1, e0.2, whole.1)
                }),
            decreases cands@.len() - entry,
        {
            let candidate = cands[entry];
            let slot = slots[entry];
            let h = combine(candidate as u32, (entry as u32) | (mask << 8u32));
            let ctx = h & CHAIN_TABLE_MASK;
            proof {
                lemma_low_bits(h, 0);
            }
            let pos = slot * CHAIN_TABLE_SIZE + ctx as usize;
            let bit: u32 = if truth == candidate { 1 } else { 0 };
            let ghost m1 = self.view();
            let ghost en = (encoder.low(), encoder.high(), encoder.out());
            proof {
                assert(cs[entry as int] == (candidate, slot as int));
                assert(pos == chain_slot(slot as int, candidate, entry as int, mask));
            }
            self.code_counter(encoder, pos, bit);
            entry += 1;
            if bit != 0 {
                proof {
                    let steps = seq![(m1.0[pos as int] as u32, bit)];
                    assert(steps[0] == (m1.0[pos as int] as u32, bit));
                    assert(steps.skip(1) =~= Seq::<(u32, u32)>::empty());
                    assert(encode_run(encoder.low(), encoder.high(), encoder.out(), Seq::<(u32, u32)>::empty()) == (
                        encoder.low(),
                        encoder.high(),
                        encoder.out(),
                    ));
                    assert(encode_run(en.0, en.1, en.2, steps) == (encoder.low(), encoder.high(), encoder.out()));
                    let old_rest = chain_code(m1, cs, (entry - 1) as nat, mask, truth);
                    assert(old_rest.0 == self.view());
                    assert(old_rest.1 == steps);
                    assert(old_rest.2 == Some(candidate));
                    assert(whole.0 == self.view());
                    assert(whole.2 == Some(candidate));
                    assert(encode_run(e0.0, e0.1, e0.2, whole.1) == (encoder.low(), encoder.high(), encoder.out()));
                }
                return Some(candidate);
            }
            proof {
                let rest = chain_code(self.view(), cs, entry as nat, mask, truth);
                let steps = seq![(m1.0[pos as int] as u32, bit)] + rest.1;
                assert(steps[0] == (m1.0[pos as int] as u32, bit));
                assert(steps.skip(1) =~= rest.1);
            }
        }
        None
    }

    /// The pointer bit of a lone candidate met at `slot`, then the tree when
    /// the voxel does not hold it.
    #[verifier::spinoff_prover]
    fn encode_pointer(
        &mut self,
        encoder: &mut Encoder,
        candidate: u16,
        slot: usize,
        hash: u32,
        truth: u16,
        truth_index: u16,
        palette: &[u16],
        palette_bits: usize,
        section_y: usize,
    ) -> (r: Result<u16, ModelError>)
        requires
            old(self).wf(),
            palette_bits <= 16,
            slot < 12,
        ensures
            final(self).wf(),
            ({
                let c = pointer_code(old(self).view(), (candidate, slot as int), hash, truth, truth_index, palette_bits as int, section_y as u32);
                &&& final(self).view() == c.0
                &&& (final(encoder).low(), final(encoder).high(), final(encoder).out()) == encode_run(
                    old(encoder).low(),
                    old(encoder).high(),
                    old(encoder).out(),
                    c.1,
                )
                &&& r == residual_value(c.2, palette@)
            }),
    {
        let ghost m0 = self.view();
        let band: usize = if slot <= 2 {
            0
        } else if slot <= 6 {
            1
        } else if slot <= 8 {
            2
        } else {
            3
        };
        let pos = POINTER_BASE + palette_bits * POINTER_BANDS + band;
        let bit: u32 = if truth == candidate { 1 } else { 0 };
        proof {
            assert(pos == pointer_slot(palette_bits as int, slot as int));
        }
        let ghost en = (encoder.low(), encoder.high(), encoder.out());
        self.code_counter(encoder, pos, bit);
        if bit != 0 {
            proof {
                let steps = seq![(m0.0[pos as int] as u32, bit)];
                assert(steps[0] == (m0.0[pos as int] as u32, bit));
                assert(steps.skip(1) =~= Seq::<(u32, u32)>::empty());
                assert(encode_run(encoder.low(), encoder.high(), encoder.out(), Seq::<(u32, u32)>::empty()) == (
                    encoder.low(),
                    encoder.high(),
                    encoder.out(),
                ));
                assert(encode_run(en.0, en.1, en.2, steps) == (encoder.low(), encoder.high(), encoder.out()));
            }
            return Ok(candidate);
        }
        let r = self.encode_tree(encoder, truth_index, hash, palette, palette_bits, section_y);
        proof {
            let t = tree_walk(
                counter_learned(m0, pos as int, 0),
                hash,
                palette_bits as int,
                section_y as u32,
                0,
                palette_bits as nat,
                index_bits(truth_index as u32, palette_bits as int),
            );
            let steps = seq![(m0.0[pos as int] as u32, 0u32)] + t.1;
            assert(steps[0] == (m0.0[pos as int] as u32, 0u32));
            assert(steps.skip(1) =~= t.1);
        }
        r
    }

    /// The chain of the candidates, then the tree when the voxel holds none
    /// of them.
    #[verifier::spinoff_prover]
    fn encode_chain_residual(
        &mut self,
        encoder: &mut Encoder,
        cands: &Vec<u16>,
        slots: &Vec<usize>,
        hash: u32,
        mask: u32,
        truth: u16,
        truth_index: u16,
        palette: &[u16],
        palette_bits: usize,
        section_y: usize,
    ) -> (r: Result<u16, ModelError>)
        requires
            old(self).wf(),
            palette_bits <= 16,
            cands@.len() == slots@.len(),
            cands@.len() <= 12,
            forall|i: int| 0 <= i < slots@.len() ==> #[trigger] slots@[i] < 12,
        ensures
            final(self).wf(),
            ({
                let c = chain_residual_code(
                    old(self).view(),
                    Seq::new(cands@.len(), |i: int| (cands@[i], slots@[i] as int)),
                    hash,
                    mask,
                    truth,
                    truth_index,
                    palette_bits as int,
                    section_y as u32,
                );
                &&& final(self).view() == c.0
                &&& (final(encoder).low(), final(encoder).high(), final(encoder).out()) == encode_run(
                    old(encoder).low(),
                    old(encoder).high(),
                    old(encoder).out(),
                    c.1,
                )
                &&& r == residual_value(c.2, palette@)
            }),
    {
        let ghost e0 = (encoder.low(), encoder.high(), encoder.out());
        let ghost m0 = self.view();
        let hit = self.encode_chain(encoder, cands, slots, mask, truth);
        if let Some(candidate) = hit {
            return Ok(candidate);
        }
        let ghost whole = chain_code(m0, Seq::new(cands@.len(), |i: int| (cands@[i], slots@[i] as int)), 0, mask, truth);
        let r = self.encode_tree(encoder, truth_index, hash, palette, palette_bits, section_y);
        proof {
            let t = tree_walk(
                whole.0,
                hash,
                palette_bits as int,
                section_y as u32,
                0,
                palette_bits as nat,
                index_bits(truth_index as u32, palette_bits as int),
            );
            lemma_encode_run_append(e0.0, e0.1, e0.2, whole.1, t.1);
        }
        r
    }

    /// Codes the residual of a voxel holding `truth`, at palette index
    /// `truth_index`, that missed its primary value: the candidates its
    /// neighbors offer, then, when none of them holds it, the tree.
    pub fn encode_residual(
        &mut self,
        encoder: &mut Encoder,
        truth: u16,
        truth_index: u16,
        neighbors: &[u16; 12],
        head: &HeadLite,
        palette: &[u16],
        palette_bits: usize,
        section_y: usize,
    ) -> (r: Result<u16, ModelError>)
        requires
            old(self).wf(),
            palette_bits <= 16,
        ensures
            final(self).wf(),
            ({
                let c = residual_code(old(self).view(), neighbors@, *head, truth, truth_index, palette_bits as int, section_y as u32);
                &&& final(self).view() == c.0
                &&& (final(encoder).low(), final(encoder).high(), final(encoder).out()) == encode_run(
                    old(encoder).low(),
                    old(encoder).high(),
                    old(encoder).out(),
                    c.1,
                )
                &&& r == residual_value(c.2, palette@)
            }),
            (truth_index as u32) < (1u32 << (palette_bits as u32)) && (truth_index as int) < palette@.len()
                && palette@[truth_index as int] == truth ==> r == Ok::<u16, ModelError>(truth),
    {
        proof {
            if (truth_index as u32) < (1u32 << (palette_bits as u32)) {
                lemma_residual_names_truth(
                    self.view(),
                    neighbors@,
                    *head,
                    truth,
                    truth_index,
                    palette_bits as int,
                    section_y as u32,
                );
            }
        }
        let (cands, slots) = Self::collect_candidates(neighbors, head.primary_value);
        if cands.len() == 1 {
            self.encode_pointer(encoder, cands[0], slots[0], head.hash, truth, truth_index, palette, palette_bits, section_y)
        } else {
            self.encode_chain_residual(encoder, &cands, &slots, head.hash, head.mask, truth, truth_index, palette, palette_bits, section_y)
        }
    }
    /// Reads one bit with the counter at `pos`, and learns it.
    fn read_counter(&mut self, decoder: &mut Decoder, pos: usize) -> (bit: u32)
        requires
            old(self).wf(),
            pos < COUNTERS,
        ensures
            final(self).wf(),
            bit == decoded_bit(old(decoder).low(), old(decoder).high(), old(decoder).code(), old(self).view().0[pos as int] as u32),
            final(self).view() == counter_learned(old(self).view(), pos as int, bit),
            ({
                let n = decode_step(
                    old(decoder).low(),
                    old(decoder).high(),
                    old(decoder).code(),
                    old(decoder).data(),
                    old(decoder).read(),
                    old(self).view().0[pos as int] as u32,
                );
                (final(decoder).low(), final(decoder).high(), final(decoder).code(), final(decoder).data(), final(decoder).read())
                    == (n.0, n.1, n.2, old(decoder).data(), n.3)
            }),
    {
        let prob = self.counters[pos] as u32;
        let bit = decoder.decode(prob);
        self.bump(pos, bit);
        bit
    }

    /// Reads the chain of candidates: a bit per candidate, stopping at the
    /// first 1; gives that candidate.
    #[verifier::spinoff_prover]
    fn decode_chain(&mut self, decoder: &mut Decoder, cands: &Vec<u16>, slots: &Vec<usize>, mask: u32) -> (r: Option<u16>)
        requires
            old(self).wf(),
            cands@.len() == slots@.len(),
            cands@.len() <= 12,
            forall|i: int| 0 <= i < slots@.len() ==> #[trigger] slots@[i] < 12,
        ensures
            final(self).wf(),
            final(decoder).data() == old(decoder).data(),
            ({
                let c = chain_read(
                    old(self).view(),
                    Seq::new(cands@.len(), |i: int| (cands@[i], slots@[i] as int)),
                    0,
                    mask,
                    (old(decoder).low(), old(decoder).high(), old(decoder).code(), old(decoder).data(), old(decoder).read()),
                );
                &&& final(self).view() == c.0
                &&& (final(decoder).low(), final(decoder).high(), final(decoder).code(), final(decoder).data(), final(decoder).read()) == c.1
                &&& r == c.2
            }),
    {
        let ghost cs = Seq::new(cands@.len(), |i: int| (cands@[i], slots@[i] as int));
        let ghost whole = chain_read(
            self.view(),
            cs,
            0,
            mask,
            (decoder.low(), decoder.high(), decoder.code(), decoder.data(), decoder.read()),
        );
        let mut entry: usize = 0;
        while entry < cands.len()
            invariant
                entry <= cands@.len() <= 12,
                cands@.len() == slots@.len(),
                forall|i: int| 0 <= i < slots@.len() ==> #[trigger] slots@[i] < 12,
                cs == Seq::new(cands@.len(), |i: int| (cands@[i], slots@[i] as int)),
                whole == chain_read(
                    old(self).view(),
                    cs,
                    0,
                    mask,
                    (old(decoder).low(), old(decoder).high(), old(decoder).code(), old(decoder).data(), old(decoder).read()),
                ),
                self.wf(),
                decoder.data() == old(decoder).data(),
                chain_read(
                    self.view(),
                    cs,
                    entry as nat,
                    mask,
                    (decoder.low(), decoder.high(), decoder.code(), decoder.data(), decoder.read()),
                ) == whole,
            decreases cands@.len() - entry,
        {
            let candidate = cands[entry];
            let slot = slots[entry];
            let h = combine(candidate as u32, (entry as u32) | (mask << 8u32));
            let ctx = h & CHAIN_TABLE_MASK;
            proof {
                lemma_low_bits(h, 0);
            }
            let pos = slot * CHAIN_TABLE_SIZE + ctx as usize;
            proof {
                assert(cs[entry as int] == (candidate, slot as int));
                assert(pos == chain_slot(slot as int, candidate, entry as int, mask));
            }
            let bit = self.read_counter(decoder, pos);
            entry += 1;
            if bit != 0 {
                return Some(candidate);
            }
        }
        None
    }

    /// The pointer bit of a lone candidate met at `slot`, then the tree when
    /// it reads 0.
    #[verifier::spinoff_prover]
    fn decode_pointer(
        &mut self,
        decoder: &mut Decoder,
        candidate: u16,
        slot: usize,
        hash: u32,
        palette: &[u16],
        palette_bits: usize,
        section_y: usize,
    ) -> (r: Result<u16, ModelError>)
        requires
            old(self).wf(),
            palette_bits <= 16,
            slot < 12,
        ensures
            final(self).wf(),
            final(decoder).data() == old(decoder).data(),
            ({
                let c = pointer_read(
                    old(self).view(),
                    (candidate, slot as int),
                    hash,
                    palette_bits as int,
                    section_y as u32,
                    (old(decoder).low(), old(decoder).high(), old(decoder).code(), old(decoder).data(), old(decoder).read()),
                );
                &&& final(self).view() == c.0
                &&& (final(decoder).low(), final(decoder).high(), final(decoder).code(), final(decoder).data(), final(decoder).read()) == c.1
                &&& r == residual_value(c.2, palette@)
            }),
    {
        let band: usize = if slot <= 2 {
            0
        } else if slot <= 6 {
            1
        } else if slot <= 8 {
            2
        } else {
            3
        };
        let pos = POINTER_BASE + palette_bits * POINTER_BANDS + band;
        proof {
            assert(pos == pointer_slot(palette_bits as int, slot as int));
        }
        let bit = self.read_counter(decoder, pos);
        if bit != 0 {
            return Ok(candidate);
        }
        self.decode_tree(decoder, hash, palette, palette_bits, section_y)
    }

    /// Reads the residual of a voxel that missed its primary value: the
    /// candidates its neighbors offer, then, when none was read, the tree.
    #[verifier::spinoff_prover]
    pub fn decode_residual(
        &mut self,
        decoder: &mut Decoder,
        neighbors: &[u16; 12],
        head: &HeadLite,
        palette: &[u16],
        palette_bits: usize,
        section_y: usize,
    ) -> (r: Result<u16, ModelError>)
        requires
            old(self).wf(),
            palette_bits <= 16,
        ensures
            final(self).wf(),
            final(decoder).data() == old(decoder).data(),
            ({
                let c = residual_read(
                    old(self).view(),
                    neighbors@,
                    *head,
                    palette_bits as int,
                    section_y as u32,
                    (old(decoder).low(), old(decoder).high(), old(decoder).code(), old(decoder).data(), old(decoder).read()),
                );
                &&& final(self).view() == c.0
                &&& (final(decoder).low(), final(decoder).high(), final(decoder).code(), final(decoder).data(), final(decoder).read()) == c.1
                &&& r == residual_value(c.2, palette@)
            }),
    {
        proof {
            reveal(residual_read);
        }
        let (cands, slots) = Self::collect_candidates(neighbors, head.primary_value);
        if cands.len() == 1 {
            return self.decode_pointer(decoder, cands[0], slots[0], head.hash, palette, palette_bits, section_y);
        }
        let hit = self.decode_chain(decoder, &cands, &slots, head.mask);
        if let Some(candidate) = hit {
            return Ok(candidate);
        }
        self.decode_tree(decoder, head.hash, palette, palette_bits, section_y)
    }
}

/// The index a walk reaches from `partial` by setting the last `k` bits as
/// `bits` says, most significant first.
pub open spec fn walk_partial(partial: u32, k: nat, bits: Seq<u32>) -> u32
    decreases k,
{
    if k == 0 {
        partial
    } else {
        walk_partial(partial | (bits[0] << ((k - 1) as u32)), (k - 1) as nat, bits.skip(1))
    }
}

proof fn lemma_walk_partial(m: ModelView, hash: u32, pb: int, sy: u32, partial: u32, k: nat, bits: Seq<u32>)
    ensures
        tree_walk(m, hash, pb, sy, partial, k, bits).2 == walk_partial(partial, k, bits),
    decreases k,
{
    if k > 0 {
        let bp = (k - 1) as u32;
        let t = tree_node(m, hash, pb, sy, partial | (1u32 << bp), bp);
        let m1 = tree_learned(m, pb, t.0, t.1, bits[0], t.2);
        lemma_walk_partial(m1, hash, pb, sy, partial | (bits[0] << bp), (k - 1) as nat, bits.skip(1));
    }
}

/// Setting the last `k` of the `pb` bits of `index` on `partial` sets them
/// as they are in `index`.
proof fn lemma_walk_index(pb: int, partial: u32, k: nat, index: u32)
    requires
        k <= pb <= 16,
    ensures
        walk_partial(partial, k, index_bits(index, pb).skip(pb - k)) == partial | (index & (((1u32 << (k as u32)) - 1) as u32)),
    decreases k,
{
    let bits = index_bits(index, pb).skip(pb - k);
    if k == 0 {
        lemma_start_bits(0, index, partial);
    } else {
        let bp = (k - 1) as u32;
        assert(bits[0] == (index >> bp) & 1u32);
        assert(bits.skip(1) =~= index_bits(index, pb).skip(pb - (k - 1)));
        lemma_walk_index(pb, partial | (bits[0] << bp), (k - 1) as nat, index);
        lemma_index_step(partial, index, k as u32);
    }
}

proof fn lemma_index_step(partial: u32, index: u32, k: u32)
    by (bit_vector)
    requires
        1 <= k <= 16,
    ensures
        (partial | (((index >> ((k - 1) as u32)) & 1u32) << ((k - 1) as u32))) | (index & (((1u32 << ((k - 1) as u32)) - 1) as u32))
            == partial | (index & (((1u32 << k) - 1) as u32)),
{
}

/// A decoder in step with an encoder reads back a tree walk: reading the
/// stream the encoder finishes with, from where its output stood before the
/// walk, the decoder reaches the same index and learns the same model, and
/// ends in step with the encoder after the walk.
proof fn lemma_tree_read_follows(
    m: ModelView,
    hash: u32,
    pb: int,
    sy: u32,
    partial: u32,
    k: nat,
    bits: Seq<u32>,
    low: u32,
    high: u32,
    out: Seq<u8>,
    later: Seq<(u32, u32)>,
)
    requires
        low < high,
        k <= bits.len(),
        forall|i: int| 0 <= i < k ==> #[trigger] bits[i] <= 1,
    ensures
        ({
            let w = tree_walk(m, hash, pb, sy, partial, k, bits);
            let e = encode_run(low, high, out, w.1 + later);
            let s = finished(e.0, e.2);
            let ew = encode_run(low, high, out, w.1);
            let r = tree_read(m, hash, pb, sy, partial, k, (low, high, window(s, out.len() as int), s, out.len() + 4 as int));
            &&& r.0 == w.0
            &&& r.2 == w.2
            &&& r.1 == (ew.0, ew.1, window(s, ew.2.len() as int), s, ew.2.len() + 4 as int)
            &&& ew.0 < ew.1
            &&& encode_run(ew.0, ew.1, ew.2, later) == e
        }),
    decreases k,
{
    let w = tree_walk(m, hash, pb, sy, partial, k, bits);
    if k == 0 {
        assert(w.1 + later =~= later);
    } else {
        let bp = (k - 1) as u32;
        let t = tree_node(m, hash, pb, sy, partial | (1u32 << bp), bp);
        let bit = bits[0];
        let m1 = tree_learned(m, pb, t.0, t.1, bit, t.2);
        let w1 = tree_walk(m1, hash, pb, sy, partial | (bit << bp), (k - 1) as nat, bits.skip(1));
        let steps = w.1 + later;
        assert(w.1 == seq![(t.2, bit)] + w1.1);
        assert(steps[0] == (t.2, bit));
        assert(steps.skip(1) =~= w1.1 + later);
        law_decode_step_follows(low, high, out, steps);
        let e1 = encode_step(low, high, out, t.2, bit);
        assert forall|i: int| 0 <= i < k - 1 implies #[trigger] bits.skip(1)[i] <= 1 by {
            assert(bits.skip(1)[i] == bits[i + 1]);
        }
        lemma_tree_read_follows(m1, hash, pb, sy, partial | (bit << bp), (k - 1) as nat, bits.skip(1), e1.0, e1.1, e1.2, later);
        assert(w.1[0] == (t.2, bit));
        assert(w.1.skip(1) =~= w1.1);
    }
}

/// Reading a tree walk back gives the palette index coded: a decoder in step
/// with an encoder that coded the low `pb` bits of `index` (an index below
/// `2^pb`) from a model, reading from that model, reaches `index`, learns the
/// same model, and ends in step with the encoder after the walk.
pub proof fn law_tree_roundtrip(
    m: ModelView,
    hash: u32,
    pb: int,
    sy: u32,
    index: u32,
    low: u32,
    high: u32,
    out: Seq<u8>,
    later: Seq<(u32, u32)>,
)
    requires
        low < high,
        0 <= pb <= 16,
        index < (1u32 << (pb as u32)),
    ensures
        ({
            let w = tree_walk(m, hash, pb, sy, 0, pb as nat, index_bits(index, pb));
            let e = encode_run(low, high, out, w.1 + later);
            let s = finished(e.0, e.2);
            let ew = encode_run(low, high, out, w.1);
            let r = tree_read(m, hash, pb, sy, 0, pb as nat, (low, high, window(s, out.len() as int), s, out.len() + 4 as int));
            &&& w.2 == index
            &&& r.0 == w.0
            &&& r.2 == index
            &&& r.1 == (ew.0, ew.1, window(s, ew.2.len() as int), s, ew.2.len() + 4 as int)
            &&& encode_run(ew.0, ew.1, ew.2, later) == e
        }),
{
    let bits = index_bits(index, pb);
    assert(bits.skip(0) =~= bits);
    lemma_walk_partial(m, hash, pb, sy, 0, pb as nat, bits);
    lemma_walk_index(pb, 0, pb as nat, index);
    lemma_start_bits(pb as u32, index, 0);
    assert forall|i: int| 0 <= i < pb implies #[trigger] bits[i] <= 1 by {
        let sh = (pb - 1 - i) as u32;
        lemma_low_bits(index, sh);
    }
    lemma_tree_read_follows(m, hash, pb, sy, 0, pb as nat, bits, low, high, out, later);
}

/// Coding two runs of steps one after the other is coding the two together.
proof fn lemma_encode_run_append(low: u32, high: u32, out: Seq<u8>, a: Seq<(u32, u32)>, b: Seq<(u32, u32)>)
    ensures
        ({
            let e = encode_run(low, high, out, a);
            encode_run(e.0, e.1, e.2, b) == encode_run(low, high, out, a + b)
        }),
    decreases a.len(),
{
    if a.len() == 0 {
        assert(a + b =~= b);
    } else {
        let e1 = encode_step(low, high, out, a[0].0, a[0].1);
        lemma_encode_run_append(e1.0, e1.1, e1.2, a.skip(1), b);
        assert((a + b)[0] == a[0]);
        assert((a + b).skip(1) =~= a.skip(1) + b);
    }
}

/// A decoder in step with an encoder reads back a coded chain: the same
/// candidate (or none), the same model, and in step again after it.
#[verifier::spinoff_prover]
proof fn lemma_chain_read_follows(
    m: ModelView,
    cands: Seq<(u16, int)>,
    j: nat,
    mask: u32,
    truth: u16,
    low: u32,
    high: u32,
    out: Seq<u8>,
    later: Seq<(u32, u32)>,
)
    requires
        low < high,
    ensures
        ({
            let c = chain_code(m, cands, j, mask, truth);
            let e = encode_run(low, high, out, c.1 + later);
            let s = finished(e.0, e.2);
            let ec = encode_run(low, high, out, c.1);
            let r = chain_read(m, cands, j, mask, (low, high, window(s, out.len() as int), s, out.len() + 4 as int));
            &&& r.0 == c.0
            &&& r.2 == c.2
            &&& r.1 == (ec.0, ec.1, window(s, ec.2.len() as int), s, ec.2.len() + 4 as int)
            &&& ec.0 < ec.1
            &&& encode_run(ec.0, ec.1, ec.2, later) == e
        }),
    decreases cands.len() - j,
{
    let c = chain_code(m, cands, j, mask, truth);
    if j >= cands.len() {
        assert(c.1 + later =~= later);
    } else {
        let pos = chain_slot(cands[j as int].1, cands[j as int].0, j as int, mask);
        let prob = m.0[pos] as u32;
        let bit: u32 = if truth == cands[j as int].0 { 1 } else { 0 };
        let m1 = counter_learned(m, pos, bit);
        let e1 = encode_step(low, high, out, prob, bit);
        if bit != 0 {
            let steps = seq![(prob, bit)] + later;
            assert(c.1 + later =~= steps);
            assert(steps[0] == (prob, bit));
            assert(steps.skip(1) =~= later);
            law_decode_step_follows(low, high, out, steps);
            assert(c.1[0] == (prob, bit));
            assert(c.1.skip(1) =~= Seq::<(u32, u32)>::empty());
            assert(encode_run(e1.0, e1.1, e1.2, Seq::<(u32, u32)>::empty()) == e1);
            assert(encode_run(low, high, out, c.1) == e1);
        } else {
            let rest = chain_code(m1, cands, j + 1, mask, truth);
            let steps = c.1 + later;
            assert(c.1 == seq![(prob, bit)] + rest.1);
            assert(steps[0] == (prob, bit));
            assert(steps.skip(1) =~= rest.1 + later);
            law_decode_step_follows(low, high, out, steps);
            lemma_chain_read_follows(m1, cands, j + 1, mask, truth, e1.0, e1.1, e1.2, later);
            assert(c.1[0] == (prob, bit));
            assert(c.1.skip(1) =~= rest.1);
            assert(encode_run(low, high, out, c.1) == encode_run(e1.0, e1.1, e1.2, rest.1));
        }
    }
}

/// The chain an encoder codes stops only on the candidate the voxel holds.
proof fn lemma_chain_hits_truth(m: ModelView, cands: Seq<(u16, int)>, j: nat, mask: u32, truth: u16)
    ensures
        chain_code(m, cands, j, mask, truth).2 is Some ==> chain_code(m, cands, j, mask, truth).2 == Some(truth),
    decreases cands.len() - j,
{
    if j < cands.len() {
        let pos = chain_slot(cands[j as int].1, cands[j as int].0, j as int, mask);
        let bit: u32 = if truth == cands[j as int].0 { 1 } else { 0 };
        lemma_chain_hits_truth(counter_learned(m, pos, bit), cands, j + 1, mask, truth);
    }
}

/// Reading a residual back gives what was coded: a decoder in step with an
/// encoder that coded the residual of a voxel holding `truth`, at palette
/// index `truth_index` (below `2^pb`), reading from the same model and
/// neighbors, ends on the same candidate or index, learns the same model, and
/// is in step with the encoder after the residual; and the residual coded
/// names the voxel: the candidate `truth`, or the index `truth_index`.
pub proof fn law_residual_roundtrip(
    m: ModelView,
    nb: Seq<u16>,
    head: HeadLite,
    truth: u16,
    truth_index: u16,
    pb: int,
    sy: u32,
    low: u32,
    high: u32,
    out: Seq<u8>,
    later: Seq<(u32, u32)>,
)
    requires
        low < high,
        0 <= pb <= 16,
        (truth_index as u32) < (1u32 << (pb as u32)),
    ensures
        ({
            let c = residual_code(m, nb, head, truth, truth_index, pb, sy);
            let e = encode_run(low, high, out, c.1 + later);
            let s = finished(e.0, e.2);
            let ec = encode_run(low, high, out, c.1);
            let r = residual_read(m, nb, head, pb, sy, (low, high, window(s, out.len() as int), s, out.len() + 4 as int));
            &&& c.2 == Residual::Candidate(truth) || c.2 == Residual::Index(truth_index as u32)
            &&& r.0 == c.0
            &&& r.2 == c.2
            &&& r.1 == (ec.0, ec.1, window(s, ec.2.len() as int), s, ec.2.len() + 4 as int)
            &&& encode_run(ec.0, ec.1, ec.2, later) == e
        }),
{
    reveal(residual_read);
    let cands = chain_candidates(nb, head.primary_value, 12);
    if cands.len() == 1 {
        lemma_pointer_roundtrip(m, cands[0], head.hash, truth, truth_index, pb, sy, low, high, out, later);
    } else {
        lemma_chain_residual_roundtrip(m, cands, head.hash, head.mask, truth, truth_index, pb, sy, low, high, out, later);
    }
}

#[verifier::spinoff_prover]
#[verifier::rlimit(40)]
proof fn lemma_pointer_roundtrip(
    m: ModelView,
    cand: (u16, int),
    hash: u32,
    truth: u16,
    truth_index: u16,
    pb: int,
    sy: u32,
    low: u32,
    high: u32,
    out: Seq<u8>,
    later: Seq<(u32, u32)>,
)
    requires
        low < high,
        0 <= pb <= 16,
        (truth_index as u32) < (1u32 << (pb as u32)),
    ensures
        ({
            let c = pointer_code(m, cand, hash, truth, truth_index, pb, sy);
            let e = encode_run(low, high, out, c.1 + later);
            let s = finished(e.0, e.2);
            let ec = encode_run(low, high, out, c.1);
            let r = pointer_read(m, cand, hash, pb, sy, (low, high, window(s, out.len() as int), s, out.len() + 4 as int));
            &&& c.2 == Residual::Candidate(truth) || c.2 == Residual::Index(truth_index as u32)
            &&& r.0 == c.0
            &&& r.2 == c.2
            &&& r.1 == (ec.0, ec.1, window(s, ec.2.len() as int), s, ec.2.len() + 4 as int)
            &&& encode_run(ec.0, ec.1, ec.2, later) == e
        }),
{
    let c = pointer_code(m, cand, hash, truth, truth_index, pb, sy);
    let ti = truth_index as u32;
    let pos = pointer_slot(pb, cand.1);
    let prob = m.0[pos] as u32;
    let bit: u32 = if truth == cand.0 { 1 } else { 0 };
    let m1 = counter_learned(m, pos, bit);
    let e1 = encode_step(low, high, out, prob, bit);
    if bit != 0 {
        let steps = seq![(prob, bit)] + later;
        assert(c.1 + later =~= steps);
        assert(steps[0] == (prob, bit));
        assert(steps.skip(1) =~= later);
        law_decode_step_follows(low, high, out, steps);
        assert(c.1[0] == (prob, bit));
        assert(c.1.skip(1) =~= Seq::<(u32, u32)>::empty());
        assert(encode_run(e1.0, e1.1, e1.2, Seq::<(u32, u32)>::empty()) == e1);
        assert(encode_run(low, high, out, c.1) == e1);
    } else {
        let t = tree_walk(m1, hash, pb, sy, 0, pb as nat, index_bits(ti, pb));
        let steps = c.1 + later;
        assert(c.1 == seq![(prob, bit)] + t.1);
        assert(steps[0] == (prob, bit));
        assert(steps.skip(1) =~= t.1 + later);
        law_decode_step_follows(low, high, out, steps);
        law_tree_roundtrip(m1, hash, pb, sy, ti, e1.0, e1.1, e1.2, later);
        assert(c.1[0] == (prob, bit));
        assert(c.1.skip(1) =~= t.1);
        assert(encode_run(low, high, out, c.1) == encode_run(e1.0, e1.1, e1.2, t.1));
    }
}

#[verifier::spinoff_prover]
#[verifier::rlimit(40)]
proof fn lemma_chain_residual_roundtrip(
    m: ModelView,
    cands: Seq<(u16, int)>,
    hash: u32,
    mask: u32,
    truth: u16,
    truth_index: u16,
    pb: int,
    sy: u32,
    low: u32,
    high: u32,
    out: Seq<u8>,
    later: Seq<(u32, u32)>,
)
    requires
        low < high,
        0 <= pb <= 16,
        (truth_index as u32) < (1u32 << (pb as u32)),
    ensures
        ({
            let c = chain_residual_code(m, cands, hash, mask, truth, truth_index, pb, sy);
            let e = encode_run(low, high, out, c.1 + later);
            let s = finished(e.0, e.2);
            let ec = encode_run(low, high, out, c.1);
            let r = chain_residual_read(m, cands, hash, mask, pb, sy, (low, high, window(s, out.len() as int), s, out.len() + 4 as int));
            &&& c.2 == Residual::Candidate(truth) || c.2 == Residual::Index(truth_index as u32)
            &&& r.0 == c.0
            &&& r.2 == c.2
            &&& r.1 == (ec.0, ec.1, window(s, ec.2.len() as int), s, ec.2.len() + 4 as int)
            &&& encode_run(ec.0, ec.1, ec.2, later) == e
        }),
{
    let ti = truth_index as u32;
    let ch = chain_code(m, cands, 0, mask, truth);
    lemma_chain_hits_truth(m, cands, 0, mask, truth);
    match ch.2 {
        Some(x) => {
            lemma_chain_read_follows(m, cands, 0, mask, truth, low, high, out, later);
        },
        None => {
            let t = tree_walk(ch.0, hash, pb, sy, 0, pb as nat, index_bits(ti, pb));
            assert((ch.1 + t.1) + later =~= ch.1 + (t.1 + later));
            lemma_chain_read_follows(m, cands, 0, mask, truth, low, high, out, t.1 + later);
            let ec = encode_run(low, high, out, ch.1);
            law_tree_roundtrip(ch.0, hash, pb, sy, ti, ec.0, ec.1, ec.2, later);
            lemma_encode_run_append(low, high, out, ch.1, t.1);
            lemma_encode_run_append(low, high, out, ch.1, t.1 + later);
        },
    }
}

/// The walk over the `pb` bits of an index below `2^pb` reaches that index.
proof fn lemma_walk_reaches(m: ModelView, hash: u32, pb: int, sy: u32, index: u32)
    requires
        0 <= pb <= 16,
        index < (1u32 << (pb as u32)),
    ensures
        tree_walk(m, hash, pb, sy, 0, pb as nat, index_bits(index, pb)).2 == index,
{
    let bits = index_bits(index, pb);
    assert(bits.skip(0) =~= bits);
    lemma_walk_partial(m, hash, pb, sy, 0, pb as nat, bits);
    lemma_walk_index(pb, 0, pb as nat, index);
    lemma_start_bits(pb as u32, index, 0);
}

/// The residual an encoder codes names the voxel: the candidate `truth`, or
/// the index `truth_index`.
proof fn lemma_residual_names_truth(m: ModelView, nb: Seq<u16>, head: HeadLite, truth: u16, truth_index: u16, pb: int, sy: u32)
    requires
        0 <= pb <= 16,
        (truth_index as u32) < (1u32 << (pb as u32)),
    ensures
        residual_code(m, nb, head, truth, truth_index, pb, sy).2 == Residual::Candidate(truth)
            || residual_code(m, nb, head, truth, truth_index, pb, sy).2 == Residual::Index(truth_index as u32),
{
    let cands = chain_candidates(nb, head.primary_value, 12);
    if cands.len() == 1 {
        let pos = pointer_slot(pb, cands[0].1);
        let bit: u32 = if truth == cands[0].0 { 1 } else { 0 };
        lemma_walk_reaches(counter_learned(m, pos, bit), head.hash, pb, sy, truth_index as u32);
    } else {
        let ch = chain_code(m, cands, 0, head.mask, truth);
        lemma_chain_hits_truth(m, cands, 0, head.mask, truth);
        lemma_walk_reaches(ch.0, head.hash, pb, sy, truth_index as u32);
    }
}

} // verus!
