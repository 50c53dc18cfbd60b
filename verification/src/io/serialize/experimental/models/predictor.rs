use vstd::prelude::*;

use crate::io::serialize::experimental::models::range::{
    decode_step, decoded_bit, encode_run, encode_step, finished, law_decode_step_follows, window, Decoder, Encoder,
};
use crate::io::serialize::experimental::models::spatial::{SECTION_SIDE, SIDE, Y_STRIDE, Z_STRIDE};

verus! {

/// The value of a neighbor outside the grid.
pub const NONE: u16 = 65535;
/// How many neighbors take part in choosing the primary value.
pub const FIRST_ORDER: usize = 9;
/// How many neighbors a voxel has in the model.
pub const CHAIN_SLOTS: usize = 12;
/// The highest probability, out of 4096.
pub const PROB_MAX: i32 = 4095;
pub const PROB_HALF: u16 = 2048;
/// How many predictions the mixer combines.
pub const MIX_INPUTS: usize = 10;
/// The bound that mixer weights are kept within.
pub const WEIGHT_LIMIT: i32 = 1048576;
pub const PRIMARY_TABLE_MASK: u32 = 262143;

pub const HASH_MIX: u32 = 0x9E37_79B1;
pub const HASH_FINALIZE: u32 = 0x85EB_CA6B;
pub const FORWARD_NEIGHBORHOOD_SEED: u32 = 0x1F12_3BB5;
pub const REVERSE_NEIGHBORHOOD_SEED: u32 = 0x2B7E_1516;

/// The multiplier that spreads the value of each of the first-order neighbors.
pub open spec fn direction_mult(slot: int) -> u32 {
    if slot == 0 {
        0x9E37_79B1
    } else if slot == 1 {
        0x85EB_CA77
    } else if slot == 2 {
        0xC2B2_AE3D
    } else if slot == 3 {
        0x27D4_EB2F
    } else if slot == 4 {
        0x1656_67B1
    } else if slot == 5 {
        0x9E37_79B9
    } else if slot == 6 {
        0x85EB_CA6B
    } else if slot == 7 {
        0xC2B2_AE35
    } else {
        0x27D4_EB27
    }
}

/// The multiplier for neighbor `slot` of the first nine.
pub fn direction_multiplier(slot: usize) -> (r: u32)
    requires
        slot < 9,
    ensures
        r == direction_mult(slot as int),
{
    let table: [u32; 9] = [
        0x9E37_79B1,
        0x85EB_CA77,
        0xC2B2_AE3D,
        0x27D4_EB2F,
        0x1656_67B1,
        0x9E37_79B9,
        0x85EB_CA6B,
        0xC2B2_AE35,
        0x27D4_EB27,
    ];
    table[slot]
}

/// `x` rotated left by seven bits.
pub open spec fn rotl7(x: u32) -> u32 {
    (x << 7u32) | (x >> 25u32)
}

/// One step of the context hash: `value` spread and folded into `hash`.
pub open spec fn combine_spec(hash: u32, value: u32) -> u32 {
    (rotl7(hash ^ ((value * HASH_MIX) % 0x1_0000_0000) as u32) * HASH_FINALIZE % 0x1_0000_0000) as u32
}

pub fn combine(hash: u32, value: u32) -> (r: u32)
    ensures
        r == combine_spec(hash, value),
{
    let x = hash ^ value.wrapping_mul(HASH_MIX);
    let rotated = (x << 7u32) | (x >> 25u32);
    rotated.wrapping_mul(HASH_FINALIZE)
}

/// The contexts that the primary model reads for one voxel: ten table
/// indices and the neighborhood hash.
pub struct PrimaryCtx {
    pub idx: [u32; 10],
    pub hash: u32,
}

/// Neighbor `slot`'s value spread by its direction's multiplier.
pub open spec fn spread(neighbors: Seq<u16>, slot: int) -> u32 {
    ((neighbors[slot] as u32) * direction_mult(slot) % 0x1_0000_0000) as u32
}

/// The hash of the first nine neighbors from `seed`, in slot order or, when
/// `reversed`, from slot 8 down.
pub open spec fn directional_hash(seed: u32, neighbors: Seq<u16>, reversed: bool, steps: int) -> u32
    decreases steps,
{
    if steps <= 0 {
        seed
    } else {
        let prev = directional_hash(seed, neighbors, reversed, steps - 1);
        let slot = if reversed { 9 - steps } else { steps - 1 };
        combine_spec(prev, spread(neighbors, slot))
    }
}

/// The hash of the neighbors `slots` from `seed`.
pub open spec fn subset_hash(seed: u32, neighbors: Seq<u16>, slots: Seq<int>) -> u32
    decreases slots.len(),
{
    if slots.len() == 0 {
        seed
    } else {
        combine_spec(subset_hash(seed, neighbors, slots.drop_last()), neighbors[slots.last()] as u32)
    }
}

/// The ten context indices of the primary model.
pub open spec fn primary_indices(
    neighbors: Seq<u16>,
    primary_value: u32,
    mask: u32,
    run: u32,
    section_y: usize,
    palette_bits: usize,
) -> Seq<u32> {
    let neighborhood = combine_spec(directional_hash(FORWARD_NEIGHBORHOOD_SEED, neighbors, false, 9), primary_value);
    let rotated = combine_spec(directional_hash(REVERSE_NEIGHBORHOOD_SEED, neighbors, true, 9), primary_value);
    let distance_two = combine_spec(subset_hash(0x9E37_79B9, neighbors, seq![9int, 10, 11]), primary_value);
    let diagonal = combine_spec(subset_hash(0x85EB_CA6B, neighbors, seq![3int, 6, 7]), primary_value);
    let axial = combine_spec(subset_hash(0xC2B2_AE35, neighbors, seq![0int, 1, 2]), primary_value);
    let lower_pair = combine_spec(subset_hash(0x27D4_EB2F, neighbors, seq![1int, 2]), primary_value);
    let value_scaled = combine_spec(neighborhood, ((primary_value * 3) % 0x1_0000_0000) as u32);
    seq![
        neighborhood & PRIMARY_TABLE_MASK,
        rotated & PRIMARY_TABLE_MASK,
        distance_two & PRIMARY_TABLE_MASK,
        (mask << 8u32) | (if run < 255 { run } else { 255 }),
        combine_spec(primary_value, mask << 1u32) & PRIMARY_TABLE_MASK,
        value_scaled & PRIMARY_TABLE_MASK,
        ((section_y as u32) << 5u32) | (palette_bits as u32),
        diagonal & PRIMARY_TABLE_MASK,
        axial & PRIMARY_TABLE_MASK,
        lower_pair & PRIMARY_TABLE_MASK,
    ]
}

/// The contexts of the primary model for a voxel with these neighbors.
pub fn primary_contexts(
    neighbors: &[u16; 12],
    primary_value: u32,
    mask: u32,
    run: u32,
    section_y: usize,
    palette_bits: usize,
) -> (r: PrimaryCtx)
    ensures
        r.idx@ == primary_indices(neighbors@, primary_value, mask, run, section_y, palette_bits),
        r.hash == combine_spec(directional_hash(FORWARD_NEIGHBORHOOD_SEED, neighbors@, false, 9), primary_value),
{
    let ghost nb = neighbors@;
    let mut fwd = FORWARD_NEIGHBORHOOD_SEED;
    let mut rev = REVERSE_NEIGHBORHOOD_SEED;
    let mut k: usize = 0;
    while k < 9
        invariant
            k <= 9,
            nb == neighbors@,
            fwd == directional_hash(FORWARD_NEIGHBORHOOD_SEED, nb, false, k as int),
            rev == directional_hash(REVERSE_NEIGHBORHOOD_SEED, nb, true, k as int),
        decreases 9 - k,
    {
        fwd = combine(fwd, (neighbors[k] as u32).wrapping_mul(direction_multiplier(k)));
        rev = combine(rev, (neighbors[8 - k] as u32).wrapping_mul(direction_multiplier(8 - k)));
        k += 1;
    }
    let distance_two = combine(combine(combine(0x9E37_79B9, neighbors[9] as u32), neighbors[10] as u32), neighbors[11] as u32);
    let diagonal = combine(combine(combine(0x85EB_CA6B, neighbors[3] as u32), neighbors[6] as u32), neighbors[7] as u32);
    let axial = combine(combine(combine(0xC2B2_AE35, neighbors[0] as u32), neighbors[1] as u32), neighbors[2] as u32);
    let lower_pair = combine(combine(0x27D4_EB2F, neighbors[1] as u32), neighbors[2] as u32);
    proof {
        reveal_with_fuel(subset_hash, 4);
        assert(seq![9int, 10, 11].drop_last() =~= seq![9int, 10]);
        assert(seq![9int, 10].drop_last() =~= seq![9int]);
        assert(seq![9int].drop_last() =~= Seq::<int>::empty());
        assert(seq![3int, 6, 7].drop_last() =~= seq![3int, 6]);
        assert(seq![3int, 6].drop_last() =~= seq![3int]);
        assert(seq![3int].drop_last() =~= Seq::<int>::empty());
        assert(seq![0int, 1, 2].drop_last() =~= seq![0int, 1]);
        assert(seq![0int, 1].drop_last() =~= seq![0int]);
        assert(seq![0int].drop_last() =~= Seq::<int>::empty());
        assert(seq![1int, 2].drop_last() =~= seq![1int]);
        assert(seq![1int].drop_last() =~= Seq::<int>::empty());
    }
    let distance_two = combine(distance_two, primary_value);
    let diagonal = combine(diagonal, primary_value);
    let axial = combine(axial, primary_value);
    let lower_pair = combine(lower_pair, primary_value);
    let neighborhood = combine(fwd, primary_value);
    let rotated_neighborhood = combine(rev, primary_value);
    let value_scaled_hash = combine(neighborhood, primary_value.wrapping_mul(3));
    let capped_run = if run < 255 { run } else { 255 };
    let r = PrimaryCtx {
        idx: [
            neighborhood & PRIMARY_TABLE_MASK,
            rotated_neighborhood & PRIMARY_TABLE_MASK,
            distance_two & PRIMARY_TABLE_MASK,
            (mask << 8u32) | capped_run,
            combine(primary_value, mask << 1u32) & PRIMARY_TABLE_MASK,
            value_scaled_hash & PRIMARY_TABLE_MASK,
            ((section_y as u32) << 5u32) | palette_bits as u32,
            diagonal & PRIMARY_TABLE_MASK,
            axial & PRIMARY_TABLE_MASK,
            lower_pair & PRIMARY_TABLE_MASK,
        ],
        hash: neighborhood,
    };
    proof {
        assert(r.idx@ =~= primary_indices(nb, primary_value, mask, run, section_y, palette_bits));
    }
    r
}


/// The logistic curve sampled every 128 steps of the logit, from -2048 to 2048.
pub open spec fn sigmoid_at(i: int) -> int {
    seq![
        1int, 2, 3, 6, 10, 16, 27, 45, 73, 120, 194, 310, 488, 747, 1101, 1546, 2047, 2549, 2994, 3348, 3607,
        3785, 3901, 3975, 4024, 4050, 4068, 4079, 4085, 4089, 4092, 4093, 4094,
    ][i]
}

/// The probability, out of 4096, for a logit: the curve interpolated between
/// its samples, and held at 1 and `PROB_MAX` outside `-2047..=2047`.
pub open spec fn squash_spec(logit: int) -> int {
    if logit > 2047 {
        4095
    } else if logit < -2047 {
        1
    } else {
        let w = logit % 128;
        let s = logit / 128 + 16;
        (sigmoid_at(s) * (128 - w) + sigmoid_at(s + 1) * w + 64) / 128
    }
}

pub fn squash(logit: i32) -> (r: i32)
    ensures
        r == squash_spec(logit as int),
        1 <= r <= 4095,
{
    let table: [i32; 33] = [
        1, 2, 3, 6, 10, 16, 27, 45, 73, 120, 194, 310, 488, 747, 1101, 1546, 2047, 2549, 2994, 3348, 3607,
        3785, 3901, 3975, 4024, 4050, 4068, 4079, 4085, 4089, 4092, 4093, 4094,
    ];
    if logit > 2047 {
        return PROB_MAX;
    }
    if logit < -2047 {
        return 1;
    }
    let u = (logit + 2048) as u32;
    let weight = (u % 128) as i32;
    let segment = (u / 128) as usize;
    proof {
        assert(table@ =~= seq![
            1i32, 2, 3, 6, 10, 16, 27, 45, 73, 120, 194, 310, 488, 747, 1101, 1546, 2047, 2549, 2994, 3348, 3607,
            3785, 3901, 3975, 4024, 4050, 4068, 4079, 4085, 4089, 4092, 4093, 4094,
        ]);
        assert(0 <= segment <= 31);
        assert(forall|i: int| 0 <= i < 33 ==> 1 <= #[trigger] table@[i] <= 4094 && table@[i] == sigmoid_at(i));
    }
    let a = table[segment];
    let b = table[segment + 1];
    assert(1 * 128 <= a * (128 - weight) + b * weight <= 4094 * 128) by (nonlinear_arith)
        requires
            1 <= a <= 4094,
            1 <= b <= 4094,
            0 <= weight < 128;
    (a * (128 - weight) + b * weight + 64) / 128
}

/// Binary search over logits `lo..=hi` for the first whose probability is at
/// least `target`.
pub open spec fn stretch_search(target: int, lo: int, hi: int) -> int
    decreases hi - lo,
{
    if lo >= hi {
        lo
    } else {
        let mid = (lo + hi) / 2;
        if squash_spec(mid) < target {
            stretch_search(target, mid + 1, hi)
        } else {
            stretch_search(target, lo, mid)
        }
    }
}

/// The logit of a probability: the inverse of `squash` on `1..4095`, and the
/// ends of the logit range at 0 and `PROB_MAX`.
pub open spec fn stretch_spec(prob: int) -> int {
    if prob == 0 {
        -2047
    } else if prob >= 4095 {
        2047
    } else {
        stretch_search(prob, -2047, 2047)
    }
}

proof fn lemma_search_range(target: int, lo: int, hi: int)
    requires
        lo <= hi,
    ensures
        lo <= stretch_search(target, lo, hi) <= hi,
    decreases hi - lo,
{
    if lo < hi {
        let mid = (lo + hi) / 2;
        if squash_spec(mid) < target {
            lemma_search_range(target, mid + 1, hi);
        } else {
            lemma_search_range(target, lo, mid);
        }
    }
}

pub fn stretch(prob: u32) -> (r: i32)
    requires
        prob < 4096,
    ensures
        r == stretch_spec(prob as int),
        -2047 <= r <= 2047,
{
    if prob == 0 {
        return -2047;
    }
    if prob >= 4095 {
        return 2047;
    }
    let target = prob as i32;
    let mut lo: i32 = -2047;
    let mut hi: i32 = 2047;
    while lo < hi
        invariant
            -2047 <= lo <= hi <= 2047,
            1 <= target < 4095,
            stretch_search(target as int, lo as int, hi as int) == stretch_search(target as int, -2047, 2047),
        decreases hi - lo,
    {
        let mid = (lo + hi + 4096) / 2 - 2048;
        assert(mid == (lo + hi) / 2);
        if squash(mid) < target {
            lo = mid + 1;
        } else {
            hi = mid;
        }
    }
    proof {
        lemma_search_range(target as int, -2047, 2047);
    }
    lo
}

/// The sum of the first `n` weights times the logits of their probabilities.
pub open spec fn mix_dot(weights: Seq<i32>, probs: Seq<u32>, n: int) -> int
    decreases n,
{
    if n <= 0 {
        0
    } else {
        mix_dot(weights, probs, n - 1) + weights[n - 1] * stretch_spec(probs[n - 1] as int)
    }
}

/// The logit of a probability below 4096 lies within `-2047..=2047`.
pub proof fn lemma_stretch_range(prob: u32)
    requires
        prob < 4096,
    ensures
        -2047 <= stretch_spec(prob as int) <= 2047,
{
    if prob == 0 || prob >= 4095 {
    } else {
        lemma_search_range(prob as int, -2047, 2047);
    }
}

proof fn lemma_mix_dot_bound(weights: Seq<i32>, probs: Seq<u32>, n: int)
    requires
        0 <= n <= weights.len(),
        n <= probs.len(),
        forall|i: int| 0 <= i < n ==> -2047 <= #[trigger] stretch_spec(probs[i] as int) <= 2047,
    ensures
        -n * 4396972769280 <= mix_dot(weights, probs, n) <= n * 4396972769280,
    decreases n,
{
    if n > 0 {
        lemma_mix_dot_bound(weights, probs, n - 1);
        let t = weights[n - 1] * stretch_spec(probs[n - 1] as int);
        let w = weights[n - 1] as int;
        let st = stretch_spec(probs[n - 1] as int);
        assert(-4396972769280 <= w * st <= 4396972769280) by (nonlinear_arith)
            requires
                -2147483648 <= w <= 2147483647,
                -2047 <= st <= 2047;
    }
}

/// Mixes the predictions `probs` with `weights` (over as many pairs as both
/// have): the weighted sum of their logits, scaled down by `2^16` and turned
/// back into a probability.
pub fn mix_logits(weights: &[i32], probs: &[u32]) -> (r: u32)
    requires
        forall|i: int| 0 <= i < probs@.len() ==> #[trigger] probs@[i] < 4096,
        weights@.len() <= 1048576 || probs@.len() <= 1048576,
    ensures
        r == squash_spec(((mix_dot(weights@, probs@, if weights@.len() < probs@.len() { weights@.len() as int } else { probs@.len() as int }) as i64) >> 16u64) as i32 as int),
        1 <= r <= 4095,
{
    let n = if weights.len() < probs.len() { weights.len() } else { probs.len() };
    let mut dot: i64 = 0;
    let mut i: usize = 0;
    while i < n
        invariant
            i <= n,
            n <= 1048576,
            n <= weights@.len(),
            n <= probs@.len(),
            forall|j: int| 0 <= j < probs@.len() ==> #[trigger] probs@[j] < 4096,
            dot == mix_dot(weights@, probs@, i as int),
        decreases n - i,
    {
        let s = stretch(probs[i]);
        proof {
            assert forall|j: int| 0 <= j < i + 1 implies -2047 <= #[trigger] stretch_spec(probs@[j] as int) <= 2047 by {
                if probs@[j] == 0 || probs@[j] >= 4095 {
                } else {
                    lemma_search_range(probs@[j] as int, -2047, 2047);
                }
            }
            lemma_mix_dot_bound(weights@, probs@, i + 1);
            assert((i + 1) * 4396972769280 <= 1048577 * 4396972769280) by (nonlinear_arith)
                requires i + 1 <= 1048577;
        }
        let w = weights[i] as i64;
        assert(-4396972769280 <= w * s <= 4396972769280) by (nonlinear_arith)
            requires
                -2147483648 <= w <= 2147483647,
                -2047 <= s <= 2047;
        dot = dot + w * s as i64;
        i += 1;
    }
    #[verifier::truncate]
    let logit = (dot >> 16u64) as i32;
    squash(logit) as u32
}

/// The weight change for one input: the error times the input's logit,
/// scaled down by `2^13`.
pub open spec fn weight_update(error: i32, logit: i32) -> i32 {
    ((error * logit) as i32) >> 13u32
}

/// A weight moved by `update` and kept within `WEIGHT_LIMIT`.
pub open spec fn clamped(v: int) -> i32 {
    if v < -1048576 {
        -1048576i32
    } else if v > 1048576 {
        1048576i32
    } else {
        v as i32
    }
}

/// Moves each weight towards the inputs that predicted `bit` well: by the
/// error `bit * 4096 - mixed` times the input's logit over `2^13`, kept
/// within `WEIGHT_LIMIT` (over as many pairs as both slices have).
pub fn adapt_weights(weights: &mut [i32], probs: &[u32], bit: u32, mixed: u32)
    requires
        bit <= 1,
        mixed <= 4096,
        forall|i: int| 0 <= i < probs@.len() ==> #[trigger] probs@[i] < 4096,
        forall|i: int| 0 <= i < old(weights)@.len() && i < probs@.len() ==> i32::MIN <= #[trigger] old(weights)@[i]
            + weight_update((bit * 4096 - mixed) as i32, stretch_spec(probs@[i] as int) as i32) <= i32::MAX,
    ensures
        final(weights)@.len() == old(weights)@.len(),
        forall|i: int| 0 <= i < old(weights)@.len() ==> #[trigger] final(weights)@[i] == (if i < probs@.len() {
            clamped(old(weights)@[i] + weight_update((bit * 4096 - mixed) as i32, stretch_spec(probs@[i] as int) as i32))
        } else {
            old(weights)@[i]
        }),
{
    let error = bit as i32 * 4096 - mixed as i32;
    let n = if weights.len() < probs.len() { weights.len() } else { probs.len() };
    let mut i: usize = 0;
    while i < n
        invariant
            i <= n,
            n == (if old(weights)@.len() < probs@.len() { old(weights)@.len() } else { probs@.len() }),
            weights@.len() == old(weights)@.len(),
            error == bit * 4096 - mixed,
            -4096 <= error <= 4096,
            forall|j: int| 0 <= j < probs@.len() ==> #[trigger] probs@[j] < 4096,
            forall|j: int| 0 <= j < old(weights)@.len() && j < probs@.len() ==> i32::MIN <= #[trigger] old(weights)@[j]
                + weight_update(error, stretch_spec(probs@[j] as int) as i32) <= i32::MAX,
            forall|j: int| 0 <= j < old(weights)@.len() ==> #[trigger] weights@[j] == (if j < i {
                clamped(old(weights)@[j] + weight_update(error, stretch_spec(probs@[j] as int) as i32))
            } else {
                old(weights)@[j]
            }),
        decreases n - i,
    {
        let s = stretch(probs[i]);
        assert(-4096 * 2047 <= error * s <= 4096 * 2047) by (nonlinear_arith)
            requires -4096 <= error <= 4096, -2047 <= s <= 2047;
        let update = (error * s) >> 13u32;
        let moved = weights[i] as i64 + update as i64;
        let v: i32 = if moved < -1048576 {
            -1048576
        } else if moved > 1048576 {
            1048576
        } else {
            moved as i32
        };
        weights[i] = v;
        i += 1;
    }
}

/// Mixes already stretched inputs: the weighted sum scaled down by `2^16`,
/// turned back into a probability.
pub fn mix_stretched(weights: &[i32; 10], stretched: &[i32; 10]) -> (r: u32)
    requires
        forall|k: int| 0 <= k < 10 ==> i32::MIN <= #[trigger] weights@[k] * stretched@[k] <= i32::MAX,
    ensures
        r == squash_spec(((stretched_dot(weights@, stretched@, 10) as i64) >> 16u64) as i32 as int),
        1 <= r <= 4095,
{
    let mut dot: i64 = 0;
    let mut k: usize = 0;
    while k < 10
        invariant
            k <= 10,
            forall|j: int| 0 <= j < 10 ==> i32::MIN <= #[trigger] weights@[j] * stretched@[j] <= i32::MAX,
            dot == stretched_dot(weights@, stretched@, k as int),
            -2147483648 * k <= dot <= 2147483647 * k,
        decreases 10 - k,
    {
        let product = weights[k] * stretched[k];
        dot = dot + product as i64;
        k += 1;
    }
    #[verifier::truncate]
    let logit = (dot >> 16u64) as i32;
    squash(logit) as u32
}

/// The sum of the first `n` products of weights and stretched inputs.
pub open spec fn stretched_dot(weights: Seq<i32>, stretched: Seq<i32>, n: int) -> int
    decreases n,
{
    if n <= 0 {
        0
    } else {
        stretched_dot(weights, stretched, n - 1) + weights[n - 1] * stretched[n - 1]
    }
}

/// Moves each weight by the error `bit * 4096 - mixed` times its stretched
/// input over `2^13`, kept within `WEIGHT_LIMIT`.
pub fn adapt_weights_stretched(weights: &mut [i32; 10], stretched: &[i32; 10], bit: u32, mixed: u32)
    requires
        bit <= 1,
        mixed <= 4096,
        forall|k: int| 0 <= k < 10 ==> i32::MIN <= #[trigger] ((bit * 4096 - mixed) * stretched@[k]) <= i32::MAX,
        forall|k: int| 0 <= k < 10 ==> i32::MIN <= #[trigger] old(weights)@[k] + weight_update(
            (bit * 4096 - mixed) as i32,
            stretched@[k],
        ) <= i32::MAX,
    ensures
        forall|k: int| 0 <= k < 10 ==> #[trigger] final(weights)@[k] == clamped(
            old(weights)@[k] + weight_update((bit * 4096 - mixed) as i32, stretched@[k]),
        ),
{
    let error = bit as i32 * 4096 - mixed as i32;
    let mut updates: [i32; 10] = [0; 10];
    let mut k: usize = 0;
    while k < 10
        invariant
            k <= 10,
            error == bit * 4096 - mixed,
            forall|j: int| 0 <= j < 10 ==> i32::MIN <= #[trigger] (error * stretched@[j]) <= i32::MAX,
            forall|j: int| 0 <= j < k ==> #[trigger] updates@[j] == weight_update(error, stretched@[j]),
        decreases 10 - k,
    {
        updates[k] = (error * stretched[k]) >> 13u32;
        k += 1;
    }
    k = 0;
    while k < 10
        invariant
            k <= 10,
            error == bit * 4096 - mixed,
            forall|j: int| 0 <= j < 10 ==> #[trigger] updates@[j] == weight_update(error, stretched@[j]),
            forall|j: int| 0 <= j < 10 ==> i32::MIN <= #[trigger] old(weights)@[j] + weight_update(error, stretched@[j]) <= i32::MAX,
            forall|j: int| 0 <= j < 10 ==> #[trigger] weights@[j] == (if j < k {
                clamped(old(weights)@[j] + weight_update(error, stretched@[j]))
            } else {
                old(weights)@[j]
            }),
        decreases 10 - k,
    {
        let moved = weights[k] + updates[k];
        weights[k] = if moved < -WEIGHT_LIMIT {
            -WEIGHT_LIMIT
        } else if moved > WEIGHT_LIMIT {
            WEIGHT_LIMIT
        } else {
            moved
        };
        k += 1;
    }
}


/// How much each of the first nine neighbors counts when choosing the
/// primary value.
pub open spec fn value_weight(slot: int) -> u32 {
    if slot < 3 {
        3
    } else if slot < 7 {
        2
    } else {
        1
    }
}

/// The total weight of the neighbors among the first `n` whose bit is set in
/// `mask`.
pub open spec fn mask_weight_upto(mask: u32, n: int) -> int
    decreases n,
{
    if n <= 0 {
        0
    } else {
        mask_weight_upto(mask, n - 1) + if mask & (1u32 << ((n - 1) as u32)) != 0 { value_weight(n - 1) as int } else { 0 }
    }
}

/// The total weight of the first-order neighbors in `mask`.
pub open spec fn mask_weight(mask: u32) -> u32 {
    mask_weight_upto(mask, 9) as u32
}

proof fn lemma_mask_weight_bound(mask: u32, n: int)
    requires
        0 <= n <= 9,
    ensures
        0 <= mask_weight_upto(mask, n) <= 3 * n,
    decreases n,
{
    if n > 0 {
        lemma_mask_weight_bound(mask, n - 1);
    }
}

/// The weight of the neighbors in `mask` (only its low nine bits count).
pub fn weight_of_mask(mask: u32) -> (r: u32)
    ensures
        r == mask_weight(mask),
        r <= 27,
{
    let mut total: u32 = 0;
    let mut bit: u32 = 0;
    while bit < 9
        invariant
            bit <= 9,
            total == mask_weight_upto(mask, bit as int),
            total <= 3 * bit,
        decreases 9 - bit,
    {
        proof {
            lemma_mask_weight_bound(mask, bit + 1);
        }
        if mask & (1u32 << bit) != 0 {
            let w: u32 = if bit < 3 {
                3
            } else if bit < 7 {
                2
            } else {
                1
            };
            total = total + w;
        }
        bit += 1;
    }
    total
}

/// The rank of a mask when choosing the primary value: its weight, then the
/// number of leading zero bits.
pub open spec fn mask_key(mask: u32) -> u32 {
    (mask_weight(mask) << 5u32) | vstd::std_specs::bits::u32_leading_zeros(mask)
}

pub fn key_of_mask(mask: u32) -> (r: u32)
    ensures
        r == mask_key(mask),
{
    (weight_of_mask(mask) << 5u32) | mask.leading_zeros()
}

/// The bits of the first `n` neighbors that equal `val`.
pub open spec fn eq_mask_upto(s: Seq<u16>, val: u16, n: int) -> u32
    decreases n,
{
    if n <= 0 {
        0
    } else {
        eq_mask_upto(s, val, n - 1) | (if s[n - 1] == val { 1u32 << ((n - 1) as u32) } else { 0u32 })
    }
}

/// The mask of the first nine neighbors that equal `val`.
pub fn equality_mask(slice: &[u16; 12], val: u16) -> (r: u32)
    ensures
        r == eq_mask_upto(slice@, val, 9),
        r <= 511,
{
    let mut mask: u32 = 0;
    let mut i: u32 = 0;
    assert(0u32 < (1u32 << 0u32)) by (bit_vector);
    while i < 9
        invariant
            i <= 9,
            mask == eq_mask_upto(slice@, val, i as int),
            mask < (1u32 << i),
        decreases 9 - i,
    {
        let bit: u32 = if slice[i as usize] == val {
            1u32 << i
        } else {
            0
        };
        assert(mask < (1u32 << i) && i < 9 && (bit == 0 || bit == (1u32 << i)) ==> (mask | bit) < (1u32 << (i + 1)))
            by (bit_vector);
        mask = mask | bit;
        i += 1;
    }
    assert(mask < (1u32 << 9u32) ==> mask <= 511) by (bit_vector);
    mask
}

/// The best candidate among the first `n` neighbors: its value, key and
/// mask; the first of equal keys wins, and `NONE` with a full mask when all
/// are absent.
pub open spec fn best_upto(s: Seq<u16>, n: int) -> (u16, u32, u32)
    decreases n,
{
    if n <= 0 {
        (NONE, 0u32, 0x1FFu32)
    } else {
        let prev = best_upto(s, n - 1);
        let val = s[n - 1];
        if val == NONE {
            prev
        } else {
            let mask = eq_mask_upto(s, val, 9);
            let key = mask_key(mask);
            if key > prev.1 {
                (val, key, mask)
            } else {
                prev
            }
        }
    }
}

/// The primary value of a neighborhood and the mask of the first-order
/// neighbors that hold it: the present value whose mask has the highest key.
pub open spec fn primary_choice(s: Seq<u16>) -> (u16, u32) {
    (best_upto(s, 9).0, best_upto(s, 9).2)
}

proof fn lemma_best_mask_bound(s: Seq<u16>, n: int)
    requires
        0 <= n <= 9,
        forall|v: u16| #[trigger] eq_mask_upto(s, v, 9) <= 511,
    ensures
        best_upto(s, n).2 <= 511,
    decreases n,
{
    if n > 0 {
        lemma_best_mask_bound(s, n - 1);
        assert(eq_mask_upto(s, s[n - 1], 9) <= 511);
    }
}

pub fn select_primary_value(neighbors: &[u16; 12]) -> (r: (u16, u32))
    ensures
        r == primary_choice(neighbors@),
        r.1 <= 511,
{
    let mut best_val: u16 = NONE;
    let mut best_key: u32 = 0;
    let mut best_mask: u32 = 0x1FF;
    let mut i: usize = 0;
    while i < 9
        invariant
            i <= 9,
            (best_val, best_key, best_mask) == best_upto(neighbors@, i as int),
            best_mask <= 511,
        decreases 9 - i,
    {
        let val = neighbors[i];
        if val != NONE {
            let mask = equality_mask(neighbors, val);
            let key = key_of_mask(mask);
            if key > best_key {
                best_key = key;
                best_val = val;
                best_mask = mask;
            }
        }
        i += 1;
    }
    (best_val, best_mask)
}

/// Which of the west, lower and north neighbors (bits 0, 1, 2) were
/// mispredicted; an absent neighbor counts as predicted.
pub open spec fn cluster_spec(neighbors: Seq<u16>, miss: Seq<u8>, idx: int) -> u8 {
    let west = if neighbors[0] != NONE { miss[idx - 1] } else { 0u8 };
    let lower = if neighbors[1] != NONE { miss[idx - Y_STRIDE] } else { 0u8 };
    let north = if neighbors[2] != NONE { miss[idx - Z_STRIDE] } else { 0u8 };
    west | (lower << 1u8) | (north << 2u8)
}

/// Whether each present west, lower and north neighbor of `idx` lies inside
/// `miss`.
pub open spec fn cluster_in_range(neighbors: Seq<u16>, miss_len: int, idx: int) -> bool {
    &&& idx < miss_len
    &&& neighbors[0] != NONE ==> idx >= 1
    &&& neighbors[1] != NONE ==> idx >= Y_STRIDE
    &&& neighbors[2] != NONE ==> idx >= Z_STRIDE
}

pub fn cluster_of(neighbors: &[u16; 12], miss: &[u8], idx: usize) -> (r: u8)
    requires
        cluster_in_range(neighbors@, miss@.len() as int, idx as int),
        forall|i: int| 0 <= i < miss@.len() ==> #[trigger] miss@[i] <= 1,
    ensures
        r == cluster_spec(neighbors@, miss@, idx as int),
        r < 8,
{
    let west: u8 = if neighbors[0] != NONE {
        miss[idx - 1]
    } else {
        0
    };
    let lower: u8 = if neighbors[1] != NONE {
        miss[idx - Y_STRIDE]
    } else {
        0
    };
    let north: u8 = if neighbors[2] != NONE {
        miss[idx - Z_STRIDE]
    } else {
        0
    };
    assert(west <= 1 && lower <= 1 && north <= 1 ==> (west | (lower << 1u8) | (north << 2u8)) < 8) by (bit_vector);
    west | (lower << 1u8) | (north << 2u8)
}

/// How fast a counter adapts after `count` updates, as a right shift.
pub open spec fn count_rate_shift(count: int) -> i32 {
    if count < 3 {
        2
    } else if count < 9 {
        3
    } else if count < 21 {
        4
    } else {
        5
    }
}

/// The counter after moving it towards `bit` (4095 for a 1, 0 for a 0) by
/// its distance shifted right by `shift`.
pub open spec fn counter_toward(current: int, bit: u32, shift: i32) -> u16 {
    let target: i32 = if bit != 0 { 4095 } else { 0 };
    (current + (((target - current) as i32) >> (shift as u32))) as u16
}

proof fn lemma_counter_toward_range(current: int, bit: u32, shift: i32)
    requires
        0 <= current <= 4095,
        0 <= shift <= 31,
    ensures
        0 <= current + ((((if bit != 0 { 4095i32 } else { 0i32 }) - current) as i32) >> (shift as u32)) <= 4095,
{
    let c = current as i32;
    let t: i32 = if bit != 0 { 4095 } else { 0 };
    let sh = shift as u32;
    assert(0 <= c <= 4095 && (t == 0 || t == 4095) && sh <= 31 ==> 0 <= c + (((t - c) as i32) >> sh) <= 4095) by (bit_vector);
}

/// Moves an adaptive counter towards `bit`, faster while it has seen few
/// updates (the rate shift is capped at `cap`), and counts the update.
pub fn adapt(counter: &mut u16, count: &mut u8, bit: u32, cap: i32)
    requires
        *old(counter) <= 4095,
        *old(count) < 255,
        0 <= cap,
    ensures
        ({
            let c = if *old(count) < 29 { *old(count) as int } else { 29 };
            let rate = count_rate_shift(c);
            let shift = if rate < cap { rate } else { cap };
            *final(counter) == counter_toward(*old(counter) as int, bit, shift)
        }),
        *final(counter) <= 4095,
        *final(count) == (if *old(count) + 1 < 29 { *old(count) + 1 } else { 29 }),
{
    let current = *counter as i32;
    let target: i32 = if bit != 0 {
        PROB_MAX
    } else {
        0
    };
    let c = if *count < 29 {
        *count
    } else {
        29
    };
    let rate: i32 = if c < 3 {
        2
    } else if c < 9 {
        3
    } else if c < 21 {
        4
    } else {
        5
    };
    let shift = if rate < cap {
        rate
    } else {
        cap
    };
    proof {
        lemma_counter_toward_range(current as int, bit, shift);
    }
    *counter = (current + ((target - current) >> (shift as u32))) as u16;
    let next = *count + 1;
    *count = if next < 29 {
        next
    } else {
        29
    };
}

/// The twelve neighbors of the voxel at `(x, y, z)`, `NONE` where a neighbor
/// is outside the grid or not yet coded.
pub open spec fn neighbors_spec(voxels: Seq<u16>, idx: int, x: int, y: int, z: int) -> Seq<u16> {
    let west = x > 0;
    let lower = y > 0;
    let north = z > 0;
    let east_causal = lower && x + 1 < 512 && (x % 16 < 15 || y % 16 == 0);
    seq![
        if west { voxels[idx - 1] } else { NONE },
        if lower { voxels[idx - Y_STRIDE] } else { NONE },
        if north { voxels[idx - Z_STRIDE] } else { NONE },
        if west && north { voxels[idx - 1 - Z_STRIDE] } else { NONE },
        if west && lower { voxels[idx - 1 - Y_STRIDE] } else { NONE },
        if lower && north { voxels[idx - Y_STRIDE - Z_STRIDE] } else { NONE },
        if west && lower && north { voxels[idx - 1 - Y_STRIDE - Z_STRIDE] } else { NONE },
        if east_causal { voxels[idx + 1 - Y_STRIDE] } else { NONE },
        if east_causal && north { voxels[idx + 1 - Y_STRIDE - Z_STRIDE] } else { NONE },
        if x > 1 { voxels[idx - 2] } else { NONE },
        if z > 1 { voxels[idx - 2 * Z_STRIDE] } else { NONE },
        if y > 1 { voxels[idx - 2 * Y_STRIDE] } else { NONE },
    ]
}

/// Reads the neighbors of the voxel at `(x, y, z)`, whose index is `idx`.
pub fn gather_neighbors(voxels: &[u16], idx: usize, x: usize, y: usize, z: usize, neighbors: &mut [u16; 12])
    requires
        x < SIDE,
        z < SIDE,
        idx == y * Y_STRIDE + z * Z_STRIDE + x,
        idx < voxels@.len(),
    ensures
        final(neighbors)@ == neighbors_spec(voxels@, idx as int, x as int, y as int, z as int),
{
    let west = x > 0;
    let lower = y > 0;
    let north = z > 0;
    let local_x = x % SECTION_SIDE;
    let local_y = y % SECTION_SIDE;
    let east_causal = lower && x + 1 < SIDE && (local_x < SECTION_SIDE - 1 || local_y == 0);
    proof {
        assert(y > 0 ==> y * Y_STRIDE >= Y_STRIDE) by (nonlinear_arith);
        assert(y > 1 ==> y * Y_STRIDE >= 2 * Y_STRIDE) by (nonlinear_arith);
        assert(z > 0 ==> z * Z_STRIDE >= Z_STRIDE) by (nonlinear_arith);
        assert(z > 1 ==> z * Z_STRIDE >= 2 * Z_STRIDE) by (nonlinear_arith);
        assert(y * Y_STRIDE >= 0 && z * Z_STRIDE >= 0) by (nonlinear_arith);
    }
    neighbors[0] = if west { voxels[idx - 1] } else { NONE };
    neighbors[1] = if lower { voxels[idx - Y_STRIDE] } else { NONE };
    neighbors[2] = if north { voxels[idx - Z_STRIDE] } else { NONE };
    neighbors[3] = if west && north { voxels[idx - 1 - Z_STRIDE] } else { NONE };
    neighbors[4] = if west && lower { voxels[idx - 1 - Y_STRIDE] } else { NONE };
    neighbors[5] = if lower && north { voxels[idx - Y_STRIDE - Z_STRIDE] } else { NONE };
    neighbors[6] = if west && lower && north { voxels[idx - 1 - Y_STRIDE - Z_STRIDE] } else { NONE };
    neighbors[7] = if east_causal { voxels[idx + 1 - Y_STRIDE] } else { NONE };
    neighbors[8] = if east_causal && north { voxels[idx + 1 - Y_STRIDE - Z_STRIDE] } else { NONE };
    neighbors[9] = if x > 1 { voxels[idx - 2] } else { NONE };
    neighbors[10] = if z > 1 { voxels[idx - 2 * Z_STRIDE] } else { NONE };
    neighbors[11] = if y > 1 { voxels[idx - 2 * Y_STRIDE] } else { NONE };
    proof {
        assert(neighbors@ =~= neighbors_spec(voxels@, idx as int, x as int, y as int, z as int));
    }
}

/// The neighbors of a voxel away from the low edges of the grid, where all
/// but the two eastern ones are present.
pub open spec fn neighbors_fast_spec(voxels: Seq<u16>, idx: int, east_causal: bool) -> Seq<u16> {
    seq![
        voxels[idx - 1],
        voxels[idx - Y_STRIDE],
        voxels[idx - Z_STRIDE],
        voxels[idx - 1 - Z_STRIDE],
        voxels[idx - 1 - Y_STRIDE],
        voxels[idx - Y_STRIDE - Z_STRIDE],
        voxels[idx - 1 - Y_STRIDE - Z_STRIDE],
        if east_causal { voxels[idx + 1 - Y_STRIDE] } else { NONE },
        if east_causal { voxels[idx + 1 - Y_STRIDE - Z_STRIDE] } else { NONE },
        voxels[idx - 2],
        voxels[idx - 2 * Z_STRIDE],
        voxels[idx - 2 * Y_STRIDE],
    ]
}

/// Reads the neighbors of a voxel at least two planes up, whose every
/// neighbor but the eastern ones is present.
pub fn gather_neighbors_fast(voxels: &[u16], idx: usize, east_causal: bool, neighbors: &mut [u16; 12])
    requires
        2 * Y_STRIDE <= idx < voxels@.len(),
    ensures
        final(neighbors)@ == neighbors_fast_spec(voxels@, idx as int, east_causal),
{
    neighbors[0] = voxels[idx - 1];
    neighbors[1] = voxels[idx - Y_STRIDE];
    neighbors[2] = voxels[idx - Z_STRIDE];
    neighbors[3] = voxels[idx - 1 - Z_STRIDE];
    neighbors[4] = voxels[idx - 1 - Y_STRIDE];
    neighbors[5] = voxels[idx - Y_STRIDE - Z_STRIDE];
    neighbors[6] = voxels[idx - 1 - Y_STRIDE - Z_STRIDE];
    neighbors[7] = if east_causal { voxels[idx + 1 - Y_STRIDE] } else { NONE };
    neighbors[8] = if east_causal { voxels[idx + 1 - Y_STRIDE - Z_STRIDE] } else { NONE };
    neighbors[9] = voxels[idx - 2];
    neighbors[10] = voxels[idx - 2 * Z_STRIDE];
    neighbors[11] = voxels[idx - 2 * Y_STRIDE];
    proof {
        assert(neighbors@ =~= neighbors_fast_spec(voxels@, idx as int, east_causal));
    }
}


/// Entries in each table of the primary model.
pub const PRIMARY_TABLE_SIZE: usize = 262144;
/// Confidence levels of the primary value, by the weight of its neighbors.
pub const CONF_BUCKETS: usize = 8;
/// The largest palette bit depth.
pub const MAX_BIT_DEPTH: usize = 16;
/// Mixer weight rows: one per bit depth, confidence and miss cluster.
pub const WEIGHT_ROWS: usize = 1088;
/// The starting mixer weight: one tenth of `2^16`.
pub const PRIMARY_MIXER_SEED_WEIGHT: i32 = 6553;
/// How fast the primary model's counters adapt, as a right shift.
pub const HEAD_ADAPT_SHIFT: i32 = 4;

/// Mixing already stretched inputs agrees with mixing the predictions
/// themselves: where each stretched input is the logit of its prediction,
/// the weighted sums that `mix_stretched` and `mix_logits` turn into a
/// probability are equal, and so are the probabilities.
pub proof fn law_mix_stretched_agrees(weights: Seq<i32>, probs: Seq<u32>, stretched: Seq<i32>, n: int)
    requires
        0 <= n <= weights.len(),
        n <= probs.len(),
        n <= stretched.len(),
        forall|k: int| 0 <= k < n ==> #[trigger] stretched[k] == stretch_spec(probs[k] as int),
    ensures
        stretched_dot(weights, stretched, n) == mix_dot(weights, probs, n),
        squash_spec(((stretched_dot(weights, stretched, n) as i64) >> 16u64) as i32 as int) == squash_spec(
            ((mix_dot(weights, probs, n) as i64) >> 16u64) as i32 as int,
        ),
    decreases n,
{
    if n > 0 {
        law_mix_stretched_agrees(weights, probs, stretched, n - 1);
    }
}

/// Adapting with already stretched inputs agrees with adapting with the
/// predictions themselves: where each stretched input is the logit of its
/// prediction, every weight moves by the same update.
pub proof fn law_adapt_stretched_agrees(probs: Seq<u32>, stretched: Seq<i32>, error: i32, k: int)
    requires
        0 <= k < probs.len(),
        k < stretched.len(),
        probs[k] < 4096,
        stretched[k] == stretch_spec(probs[k] as int),
    ensures
        weight_update(error, stretched[k]) == weight_update(error, stretch_spec(probs[k] as int) as i32),
{
    if 0 < probs[k] < 4095 {
        lemma_search_range(probs[k] as int, -2047, 2047);
    }
}

/// The logit of each of the ten predictions.
pub fn stretch_probs(probs: &[u32; 10]) -> (r: [i32; 10])
    requires
        forall|k: int| 0 <= k < 10 ==> #[trigger] probs@[k] < 4096,
    ensures
        forall|k: int| 0 <= k < 10 ==> #[trigger] r@[k] == stretch_spec(probs@[k] as int),
        forall|k: int| 0 <= k < 10 ==> -2047 <= #[trigger] r@[k] <= 2047,
{
    let mut r: [i32; 10] = [0; 10];
    let mut k: usize = 0;
    while k < 10
        invariant
            k <= 10,
            forall|j: int| 0 <= j < 10 ==> #[trigger] probs@[j] < 4096,
            forall|j: int| 0 <= j < k ==> #[trigger] r@[j] == stretch_spec(probs@[j] as int),
            forall|j: int| 0 <= j < k ==> -2047 <= #[trigger] r@[j] <= 2047,
        decreases 10 - k,
    {
        r[k] = stretch(probs[k]);
        k += 1;
    }
    r
}

/// The row of a section: its height and palette bit depth.
#[derive(Copy, Clone)]
pub struct SectionMetadata {
    pub section_y: usize,
    pub palette_bits: usize,
}

/// What the head model found for a voxel: the primary value, the mask of the
/// neighbors holding it, the neighborhood hash, and whether the voxel held
/// the primary value.
pub struct HeadLite {
    pub primary_value: u16,
    pub mask: u32,
    pub hash: u32,
    pub bit: u32,
}

/// The contexts computed for the last neighborhood, reused while the
/// neighbors stay the same.
pub struct HeadMemo {
    pub key: [u16; 12],
    pub valid: bool,
    pub primary_value: u16,
    pub mask: u32,
    pub hash: u32,
    pub idx: [u32; 10],
}

impl HeadMemo {
    pub fn new() -> (r: Self)
        ensures
            !r.valid,
            r.ok(),
            forall|k: int| 0 <= k < 12 ==> #[trigger] r.key@[k] == NONE,
            r.primary_value == NONE,
            r.mask == 0,
            r.hash == 0,
            forall|k: int| 0 <= k < 10 ==> #[trigger] r.idx@[k] == 0,
    {
        HeadMemo { key: [NONE; 12], valid: false, primary_value: NONE, mask: 0, hash: 0, idx: [0; 10] }
    }

    /// A valid memo holds a nine-bit mask and table indices.
    pub open spec fn ok(&self) -> bool {
        self.valid ==> self.mask <= 511 && forall|k: int| 0 <= k < 10 ==> #[trigger] self.idx@[k] < 262144
    }

    /// Whether the memo was made for these neighbors.
    pub fn matches(&self, neighbors: &[u16; 12]) -> (r: bool)
        ensures
            r == (self.valid && self.key@ == neighbors@),
    {
        if !self.valid {
            return false;
        }
        let mut i: usize = 0;
        while i < 12
            invariant
                i <= 12,
                forall|j: int| 0 <= j < i ==> self.key@[j] == neighbors@[j],
            decreases 12 - i,
        {
            if self.key[i] != neighbors[i] {
                return false;
            }
            i += 1;
        }
        proof {
            assert(self.key@ =~= neighbors@);
        }
        true
    }
}

/// The head model's state while sweeping voxels: the current neighbors and
/// the memo of the last contexts.
pub struct HeadState {
    pub neighbors: [u16; 12],
    pub memo: HeadMemo,
}

impl HeadState {
    pub fn new() -> (r: Self)
        ensures
            r.neighbors@ == Seq::new(12, |i: int| NONE),
            !r.memo.valid,
            r.memo.ok(),
    {
        let r = HeadState { neighbors: [NONE; 12], memo: HeadMemo::new() };
        assert(r.neighbors@ =~= Seq::new(12, |i: int| NONE));
        r
    }
}

/// The primary value, mask, hash and table indices for a voxel: those of the
/// memo (with the run context refreshed) when it was made for the same
/// neighbors, else computed afresh.
pub open spec fn head_context(state: HeadState, run: u32, section: SectionMetadata) -> (u16, u32, u32, Seq<u32>) {
    let m = state.memo;
    let nb = state.neighbors@;
    if m.valid && m.key@ == nb {
        (m.primary_value, m.mask, m.hash, m.idx@.update(3, (m.mask << 8u32) | (if run < 255 { run } else { 255 })))
    } else {
        let pv = primary_choice(nb).0;
        let mask = primary_choice(nb).1;
        (
            pv,
            mask,
            combine_spec(directional_hash(FORWARD_NEIGHBORHOOD_SEED, nb, false, 9), pv as u32),
            primary_indices(nb, pv as u32, mask, run, section.section_y, section.palette_bits),
        )
    }
}

/// The predictions of the ten primary tables at the given indices.
pub open spec fn head_probs(primary: Seq<u16>, ctx: Seq<u32>) -> Seq<u32> {
    Seq::new(10, |k: int| primary[k * 262144 + ctx[k]] as u32)
}

/// The primary tables after moving each counter read at `ctx` towards `bit`.
pub open spec fn primary_after(primary: Seq<u16>, ctx: Seq<u32>, bit: u32) -> Seq<u16> {
    Seq::new(
        primary.len(),
        |j: int|
            if j / 262144 < 10 && j % 262144 == ctx[j / 262144] {
                counter_toward(primary[j] as int, bit, 4)
            } else {
                primary[j]
            },
    )
}

/// The mixer row for a section's bit depth, the confidence in `mask` and the
/// miss cluster.
pub open spec fn head_row(section: SectionMetadata, mask: u32, cluster: u8) -> int {
    let conf = if mask_weight(mask) / 3 < 7 { mask_weight(mask) / 3 } else { 7 };
    section.palette_bits * 64 + conf * 8 + cluster
}

/// The mixed probability of the stretched predictions under a weight row.
pub open spec fn head_mixed(row: Seq<i32>, stretched: Seq<i32>) -> u32 {
    squash_spec(((stretched_dot(row, stretched, 10) as i64) >> 16u64) as i32 as int) as u32
}

/// A weight row after learning from `bit` against the mixed probability.
pub open spec fn row_after(row: Seq<i32>, stretched: Seq<i32>, bit: u32, mixed: u32) -> Seq<i32> {
    Seq::new(10, |k: int| clamped(row[k] + weight_update((bit * 4096 - mixed) as i32, stretched[k])))
}

/// The run of correct predictions after one more voxel.
pub open spec fn run_after(run: u32, bit: u32) -> u32 {
    if bit != 0 {
        if run + 1 < 255 {
            (run + 1) as u32
        } else {
            255
        }
    } else {
        0
    }
}

/// The memo after a voxel: unchanged when it was used, else made for the
/// current neighbors.
pub open spec fn memo_after(old_state: HeadState, new_state: HeadState, run: u32, section: SectionMetadata) -> bool {
    let m = old_state.memo;
    let c = head_context(old_state, run, section);
    if m.valid && m.key@ == old_state.neighbors@ {
        new_state.memo == m
    } else {
        &&& new_state.memo.valid
        &&& new_state.memo.key@ == old_state.neighbors@
        &&& new_state.memo.primary_value == c.0
        &&& new_state.memo.mask == c.1
        &&& new_state.memo.hash == c.2
        &&& new_state.memo.idx@ == c.3
    }
}

/// The probability a head call codes its bit with: the weight row chosen by
/// the section, the confidence in the mask and the miss cluster, mixing the
/// stretched predictions of the ten tables at the voxel's contexts.
pub open spec fn head_prob(p: Predictor, state: HeadState, section: SectionMetadata, miss: Seq<u8>, idx: int) -> u32 {
    let (pv, mask, hash, ctx) = head_context(state, p.run(), section);
    let row = head_row(section, mask, cluster_spec(state.neighbors@, miss, idx));
    let stretched = Seq::new(10, |k: int| stretch_spec(head_probs(p.primary(), ctx)[k] as int) as i32);
    head_mixed(p.weights()[row], stretched)
}

/// The bit a head call codes for a voxel holding `truth`: 1 exactly when it
/// holds the primary value.
pub open spec fn head_bit(p: Predictor, state: HeadState, section: SectionMetadata, truth: u16) -> u32 {
    if truth == head_context(state, p.run(), section).0 { 1 } else { 0 }
}

/// The primary-value model: ten context tables of adaptive counters, mixer
/// weight rows, and the run of correct predictions.
pub struct Predictor {
    primary: Vec<u16>,
    weights: Vec<[i32; 10]>,
    run: u32,
}

/// The low bits of a word stay below their bound, and a single bit is 0 or 1.
pub proof fn lemma_low_bits(v: u32, s: u32)
    by (bit_vector)
    ensures
        v & 262143u32 < 262144,
        v & 65535u32 < 65536,
        v & 4095u32 < 4096,
        (v >> s) & 1u32 <= 1,
        s <= 16 ==> (1u32 << s) <= 65536,
{
}

/// A weight update, an error times a logit scaled down by `2^13`, stays
/// within 1024.
pub proof fn lemma_update_small(prod: i32)
    by (bit_vector)
    ensures
        -8386560 <= prod <= 8386560 ==> -1024 <= (prod >> 13u32) <= 1024,
{
}

proof fn lemma_masked(v: u32)
    ensures
        v & 262143u32 < 262144,
{
    lemma_low_bits(v, 0);
}

proof fn lemma_run_index(mask: u32, run: u32)
    requires
        mask <= 511,
    ensures
        (mask << 8u32) | (if run < 255 { run } else { 255 }) < 262144,
{
    let r: u32 = if run < 255 { run } else { 255 };
    lemma_context_words(mask, r, 0, 0);
}

/// The run and height contexts fit a primary table.
proof fn lemma_context_words(mask: u32, r: u32, sy: u32, pb: u32)
    by (bit_vector)
    ensures
        mask <= 511 && r <= 255 ==> (mask << 8u32) | r < 262144,
        sy < 8192 && pb <= 16 ==> (sy << 5u32) | pb < 262144,
{
}

proof fn lemma_indices_in_range(nb: Seq<u16>, pv: u32, mask: u32, run: u32, section_y: usize, palette_bits: usize)
    requires
        mask <= 511,
        section_y < 8192,
        palette_bits <= 16,
    ensures
        forall|k: int| 0 <= k < 10 ==> #[trigger] primary_indices(nb, pv, mask, run, section_y, palette_bits)[k] < 262144,
{
    let idx = primary_indices(nb, pv, mask, run, section_y, palette_bits);
    lemma_run_index(mask, run);
    let sy = section_y as u32;
    let pb = palette_bits as u32;
    lemma_context_words(0, 0, sy, pb);
    assert forall|k: int| 0 <= k < 10 implies #[trigger] idx[k] < 262144 by {
        if k != 3 && k != 6 {
            let v: u32 = if k == 0 {
                combine_spec(directional_hash(FORWARD_NEIGHBORHOOD_SEED, nb, false, 9), pv)
            } else if k == 1 {
                combine_spec(directional_hash(REVERSE_NEIGHBORHOOD_SEED, nb, true, 9), pv)
            } else if k == 2 {
                combine_spec(subset_hash(0x9E37_79B9, nb, seq![9int, 10, 11]), pv)
            } else if k == 4 {
                combine_spec(pv, mask << 1u32)
            } else if k == 5 {
                combine_spec(
                    combine_spec(directional_hash(FORWARD_NEIGHBORHOOD_SEED, nb, false, 9), pv),
                    ((pv * 3) % 0x1_0000_0000) as u32,
                )
            } else if k == 7 {
                combine_spec(subset_hash(0x85EB_CA6B, nb, seq![3int, 6, 7]), pv)
            } else if k == 8 {
                combine_spec(subset_hash(0xC2B2_AE35, nb, seq![0int, 1, 2]), pv)
            } else {
                combine_spec(subset_hash(0x27D4_EB2F, nb, seq![1int, 2]), pv)
            };
            lemma_masked(v);
        }
    }
}

impl Predictor {
    /// The tables and weights have their sizes, every counter is a
    /// probability, every weight lies within `WEIGHT_LIMIT`, and the run is
    /// capped.
    #[verifier::opaque]
    pub closed spec fn wf(&self) -> bool {
        &&& self.primary@.len() == 10 * 262144
        &&& forall|j: int| 0 <= j < self.primary@.len() ==> #[trigger] self.primary@[j] <= 4095
        &&& self.weights@.len() == 1088
        &&& forall|r: int, k: int| 0 <= r < 1088 && 0 <= k < 10 ==> -1048576 <= #[trigger] self.weights@[r]@[k] <= 1048576
        &&& self.run <= 255
    }

    /// The ten primary tables, one after another.
    pub closed spec fn primary(&self) -> Seq<u16> {
        self.primary@
    }

    /// The mixer weight rows.
    pub closed spec fn weights(&self) -> Seq<Seq<i32>> {
        Seq::new(self.weights@.len(), |r: int| self.weights@[r]@)
    }

    pub closed spec fn run(&self) -> u32 {
        self.run
    }

    /// A fresh model: every counter at one half, every weight at one tenth.
    pub fn new() -> (r: Self)
        ensures
            r.primary() == Seq::new(10 * 262144, |j: int| PROB_HALF),
            r.weights() == Seq::new(1088, |i: int| Seq::new(10, |k: int| PRIMARY_MIXER_SEED_WEIGHT)),
            r.run() == 0,
            r.wf(),
    {
        let primary: Vec<u16> = vec![PROB_HALF; 10 * PRIMARY_TABLE_SIZE];
        let weights: Vec<[i32; 10]> = vec![[PRIMARY_MIXER_SEED_WEIGHT; 10]; WEIGHT_ROWS];
        let r = Predictor { primary, weights, run: 0 };
        proof {
            reveal(Predictor::wf);
            assert(r.primary() =~= Seq::new(10 * 262144, |j: int| PROB_HALF));
            assert forall|i: int| 0 <= i < 1088 implies #[trigger] r.weights()[i] == Seq::new(10, |k: int| PRIMARY_MIXER_SEED_WEIGHT) by {
                assert(r.weights@[i]@ =~= Seq::new(10, |k: int| PRIMARY_MIXER_SEED_WEIGHT));
            }
            assert(r.weights() =~= Seq::new(1088, |i: int| Seq::new(10, |k: int| PRIMARY_MIXER_SEED_WEIGHT)));
        }
        r
    }

    /// The primary value, mask, hash and table indices for the voxel, from
    /// the memo or afresh (then memorized).
    fn head_context(&self, section: SectionMetadata, state: &mut HeadState) -> (r: (u16, u32, u32, [u32; 10]))
        requires
            self.wf(),
            old(state).memo.ok(),
            section.section_y < 8192,
            section.palette_bits <= 16,
        ensures
            (r.0, r.1, r.2, r.3@) == head_context(*old(state), self.run(), section),
            memo_after(*old(state), *final(state), self.run(), section),
            final(state).neighbors == old(state).neighbors,
            final(state).memo.ok(),
            r.1 <= 511,
            forall|k: int| 0 <= k < 10 ==> #[trigger] r.3@[k] < 262144,
    {
        if state.memo.matches(&state.neighbors) {
            let mask = state.memo.mask;
            let mut idx = state.memo.idx;
            let capped = if self.run < 255 {
                self.run
            } else {
                255
            };
            idx[3] = (mask << 8u32) | capped;
            proof {
                lemma_run_index(mask, self.run);
                assert(idx@ =~= state.memo.idx@.update(3, (mask << 8u32) | capped));
            }
            (state.memo.primary_value, mask, state.memo.hash, idx)
        } else {
            let (pv, mask) = select_primary_value(&state.neighbors);
            let ctx = primary_contexts(&state.neighbors, pv as u32, mask, self.run, section.section_y, section.palette_bits);
            proof {
                lemma_indices_in_range(state.neighbors@, pv as u32, mask, self.run, section.section_y, section.palette_bits);
            }
            state.memo = HeadMemo { key: state.neighbors, valid: true, primary_value: pv, mask, hash: ctx.hash, idx: ctx.idx };
            (pv, mask, ctx.hash, ctx.idx)
        }
    }

    /// The ten predictions at `ctx` and their logits.
    fn head_inputs(&self, ctx: &[u32; 10]) -> (r: ([u32; 10], [i32; 10]))
        requires
            self.wf(),
            forall|k: int| 0 <= k < 10 ==> #[trigger] ctx@[k] < 262144,
        ensures
            r.0@ == head_probs(self.primary(), ctx@),
            forall|k: int| 0 <= k < 10 ==> #[trigger] r.0@[k] <= 4095,
            forall|k: int| 0 <= k < 10 ==> #[trigger] r.1@[k] == stretch_spec(r.0@[k] as int),
            forall|k: int| 0 <= k < 10 ==> -2047 <= #[trigger] r.1@[k] <= 2047,
    {
        proof {
            reveal(Predictor::wf);
        }
        let mut probs: [u32; 10] = [0; 10];
        let mut k: usize = 0;
        while k < 10
            invariant
                k <= 10,
                self.primary@.len() == 10 * 262144,
                forall|j: int| 0 <= j < self.primary@.len() ==> #[trigger] self.primary@[j] <= 4095,
                forall|j: int| 0 <= j < 10 ==> #[trigger] ctx@[j] < 262144,
                forall|j: int| 0 <= j < k ==> #[trigger] probs@[j] == self.primary@[j * 262144 + ctx@[j]] as u32,
                forall|j: int| 0 <= j < k ==> #[trigger] probs@[j] <= 4095,
            decreases 10 - k,
        {
            probs[k] = self.primary[k * PRIMARY_TABLE_SIZE + ctx[k] as usize] as u32;
            k += 1;
        }
        proof {
            assert(probs@ =~= head_probs(self.primary(), ctx@));
        }
        let stretched = stretch_probs(&probs);
        (probs, stretched)
    }

    /// Moves the counters read at `ctx` towards `bit`, then learns the row's
    /// weights and the run.
    fn head_learn(&mut self, ctx: &[u32; 10], probs: &[u32; 10], stretched: &[i32; 10], bit: u32, row: usize, mixed: u32)
        requires
            old(self).wf(),
            bit <= 1,
            1 <= mixed <= 4095,
            row < 1088,
            forall|k: int| 0 <= k < 10 ==> #[trigger] ctx@[k] < 262144,
            probs@ == head_probs(old(self).primary(), ctx@),
            forall|k: int| 0 <= k < 10 ==> -2047 <= #[trigger] stretched@[k] <= 2047,
        ensures
            final(self).wf(),
            final(self).primary() == primary_after(old(self).primary(), ctx@, bit),
            final(self).weights() == old(self).weights().update(row as int, row_after(old(self).weights()[row as int], stretched@, bit, mixed)),
            final(self).run() == run_after(old(self).run(), bit),
    {
        proof {
            reveal(Predictor::wf);
        }
        let ghost p0 = self.primary@;
        let target: i32 = if bit != 0 {
            PROB_MAX
        } else {
            0
        };
        let mut k: usize = 0;
        while k < 10
            invariant
                k <= 10,
                bit <= 1,
                target == (if bit != 0 { 4095i32 } else { 0i32 }),
                p0.len() == 10 * 262144,
                forall|j: int| 0 <= j < 10 ==> #[trigger] ctx@[j] < 262144,
                probs@ == head_probs(p0, ctx@),
                forall|j: int| 0 <= j < p0.len() ==> #[trigger] p0[j] <= 4095,
                self.primary@.len() == p0.len(),
                forall|j: int| 0 <= j < p0.len() ==> #[trigger] self.primary@[j] == (if j / 262144 < k && j % 262144 == ctx@[j / 262144] {
                    counter_toward(p0[j] as int, bit, 4)
                } else {
                    p0[j]
                }),
                forall|j: int| 0 <= j < p0.len() ==> #[trigger] self.primary@[j] <= 4095,
                self.weights@ == old(self).weights@,
                self.run == old(self).run,
                self.weights@.len() == 1088,
                forall|r: int, q: int| 0 <= r < 1088 && 0 <= q < 10 ==> -1048576 <= #[trigger] self.weights@[r]@[q] <= 1048576,
                self.run <= 255,
            decreases 10 - k,
        {
            let pos = k * PRIMARY_TABLE_SIZE + ctx[k] as usize;
            let current = probs[k] as i32;
            proof {
                assert(pos / 262144 == k && pos % 262144 == ctx@[k as int]);
                assert(probs@[k as int] == p0[pos as int] as u32);
                lemma_counter_toward_range(current as int, bit, 4);
            }
            let v = (current + ((target - current) >> 4u32)) as u16;
            self.primary.set(pos, v);
            proof {
                assert forall|j: int| 0 <= j < p0.len() implies #[trigger] self.primary@[j] == (if j / 262144 < k + 1 && j % 262144 == ctx@[j / 262144] {
                    counter_toward(p0[j] as int, bit, 4)
                } else {
                    p0[j]
                }) by {
                    if j != pos {
                        if j / 262144 == k {
                            assert(j % 262144 != ctx@[k as int]);
                        }
                    }
                }
            }
            k += 1;
        }
        proof {
            assert(self.primary@ =~= primary_after(p0, ctx@, bit));
        }
        let mut w = self.weights[row];
        proof {
            assert forall|q: int| 0 <= q < 10 implies -1048576 <= #[trigger] w@[q] <= 1048576 by {
                assert(w@[q] == self.weights@[row as int]@[q]);
            }
            assert forall|q: int| 0 <= q < 10 implies i32::MIN <= #[trigger] ((bit * 4096 - mixed) * stretched@[q]) <= i32::MAX by {
                let e = bit * 4096 - mixed;
                assert(-4096 * 2047 <= e * stretched@[q] <= 4096 * 2047) by (nonlinear_arith)
                    requires
                        -4096 <= e <= 4096,
                        -2047 <= stretched@[q] <= 2047,
                ;
            }
            assert forall|q: int| 0 <= q < 10 implies i32::MIN <= #[trigger] w@[q] + weight_update((bit * 4096 - mixed) as i32, stretched@[q]) <= i32::MAX by {
                let e = (bit * 4096 - mixed) as i32;
                let st = stretched@[q];
                assert(-4096 * 2047 <= e * st <= 4096 * 2047) by (nonlinear_arith)
                    requires
                        -4096 <= e <= 4096,
                        -2047 <= st <= 2047,
                ;
                let prod = (e * st) as i32;
                lemma_update_small(prod);
            }
        }
        let ghost w0 = w@;
        adapt_weights_stretched(&mut w, stretched, bit, mixed);
        proof {
            assert forall|q: int| 0 <= q < 10 implies -1048576 <= #[trigger] w@[q] <= 1048576 by {
                assert(w@[q] == clamped(w0[q] + weight_update((bit * 4096 - mixed) as i32, stretched@[q])));
            }
        }
        let ghost wts = self.weights();
        self.weights.set(row, w);
        proof {
            assert(w@ =~= row_after(wts[row as int], stretched@, bit, mixed));
            assert(self.weights() =~= wts.update(row as int, row_after(wts[row as int], stretched@, bit, mixed)));
        }
        self.run = if bit != 0 {
            if self.run + 1 < 255 {
                self.run + 1
            } else {
                255
            }
        } else {
            0
        };
    }

    /// The mixed probability of the stretched predictions under weight row
    /// `row`.
    fn head_mix(&self, row: usize, stretched: &[i32; 10]) -> (r: u32)
        requires
            self.wf(),
            row < 1088,
            forall|k: int| 0 <= k < 10 ==> -2047 <= #[trigger] stretched@[k] <= 2047,
        ensures
            r == head_mixed(self.weights()[row as int], stretched@),
            1 <= r <= 4095,
    {
        proof {
            reveal(Predictor::wf);
            assert forall|k: int| 0 <= k < 10 implies i32::MIN <= #[trigger] self.weights@[row as int]@[k] * stretched@[k] <= i32::MAX by {
                let w = self.weights@[row as int]@[k];
                assert(-1048576 * 2047 <= w * stretched@[k] <= 1048576 * 2047) by (nonlinear_arith)
                    requires
                        -1048576 <= w <= 1048576,
                        -2047 <= stretched@[k] <= 2047,
                ;
            }
        }
        mix_stretched(&self.weights[row], stretched)
    }

    /// Codes whether the voxel holds its primary value (`truth` is the
    /// voxel's value), learning from it as the decoder will.
    #[verifier::spinoff_prover]
    #[verifier::rlimit(60)]
    pub fn encode_head(
        &mut self,
        encoder: &mut Encoder,
        section: SectionMetadata,
        state: &mut HeadState,
        truth: u16,
        miss: &mut [u8],
        idx: usize,
    ) -> (r: HeadLite)
        requires
            old(self).wf(),
            old(state).memo.ok(),
            section.section_y < 8192,
            section.palette_bits <= 16,
            cluster_in_range(old(state).neighbors@, old(miss)@.len() as int, idx as int),
            forall|i: int| 0 <= i < old(miss)@.len() ==> #[trigger] old(miss)@[i] <= 1,
        ensures
            ({
                let (pv, mask, hash, ctx) = head_context(*old(state), old(self).run(), section);
                let bit: u32 = if truth == pv { 1 } else { 0 };
                let row = head_row(section, mask, cluster_spec(old(state).neighbors@, old(miss)@, idx as int));
                let stretched = Seq::new(10, |k: int| stretch_spec(head_probs(old(self).primary(), ctx)[k] as int) as i32);
                let mixed = head_mixed(old(self).weights()[row], stretched);
                &&& r == HeadLite { primary_value: pv, mask, hash, bit }
                &&& final(self).primary() == primary_after(old(self).primary(), ctx, bit)
                &&& final(self).weights() == old(self).weights().update(row, row_after(old(self).weights()[row], stretched, bit, mixed))
                &&& final(self).run() == run_after(old(self).run(), bit)
                &&& (final(encoder).low(), final(encoder).high(), final(encoder).out()) == encode_step(
                    old(encoder).low(),
                    old(encoder).high(),
                    old(encoder).out(),
                    mixed,
                    bit,
                )
                &&& final(miss)@ == old(miss)@.update(idx as int, if bit == 0 { 1u8 } else { 0u8 })
            }),
            r.bit == head_bit(*old(self), *old(state), section, truth),
            (final(encoder).low(), final(encoder).high(), final(encoder).out()) == encode_step(
                old(encoder).low(),
                old(encoder).high(),
                old(encoder).out(),
                head_prob(*old(self), *old(state), section, old(miss)@, idx as int),
                r.bit,
            ),
            memo_after(*old(state), *final(state), old(self).run(), section),
            final(state).neighbors == old(state).neighbors,
            final(state).memo.ok(),
            final(self).wf(),
    {
        let (primary_value, mask, hash, ctx) = self.head_context(section, state);
        let bit: u32 = if truth == primary_value {
            1
        } else {
            0
        };
        let (probs, stretched) = self.head_inputs(&ctx);
        let cluster = cluster_of(&state.neighbors, miss, idx);
        let conf_raw = weight_of_mask(mask) / 3;
        let conf: usize = if conf_raw < 7 {
            conf_raw as usize
        } else {
            7
        };
        let row = section.palette_bits * 64 + conf * 8 + cluster as usize;
        let mixed = self.head_mix(row, &stretched);
        encoder.encode(mixed, bit);
        proof {
            assert(stretched@ =~= Seq::new(10, |k: int| stretch_spec(head_probs(self.primary(), ctx@)[k] as int) as i32));
        }
        self.head_learn(&ctx, &probs, &stretched, bit, row, mixed);
        miss[idx] = if bit == 0 {
            1
        } else {
            0
        };
        HeadLite { primary_value, mask, hash, bit }
    }

    /// Decodes whether the voxel holds its primary value, learning from it as
    /// the encoder did.
    #[verifier::spinoff_prover]
    #[verifier::rlimit(60)]
    pub fn decode_head(
        &mut self,
        decoder: &mut Decoder,
        section: SectionMetadata,
        state: &mut HeadState,
        miss: &mut [u8],
        idx: usize,
    ) -> (r: HeadLite)
        requires
            old(self).wf(),
            old(state).memo.ok(),
            section.section_y < 8192,
            section.palette_bits <= 16,
            cluster_in_range(old(state).neighbors@, old(miss)@.len() as int, idx as int),
            forall|i: int| 0 <= i < old(miss)@.len() ==> #[trigger] old(miss)@[i] <= 1,
        ensures
            ({
                let (pv, mask, hash, ctx) = head_context(*old(state), old(self).run(), section);
                let row = head_row(section, mask, cluster_spec(old(state).neighbors@, old(miss)@, idx as int));
                let stretched = Seq::new(10, |k: int| stretch_spec(head_probs(old(self).primary(), ctx)[k] as int) as i32);
                let mixed = head_mixed(old(self).weights()[row], stretched);
                let bit = decoded_bit(old(decoder).low(), old(decoder).high(), old(decoder).code(), mixed);
                &&& r == HeadLite { primary_value: pv, mask, hash, bit }
                &&& final(self).primary() == primary_after(old(self).primary(), ctx, bit)
                &&& final(self).weights() == old(self).weights().update(row, row_after(old(self).weights()[row], stretched, bit, mixed))
                &&& final(self).run() == run_after(old(self).run(), bit)
                &&& (final(decoder).low(), final(decoder).high(), final(decoder).code(), final(decoder).read()) == decode_step(
                    old(decoder).low(),
                    old(decoder).high(),
                    old(decoder).code(),
                    old(decoder).data(),
                    old(decoder).read(),
                    mixed,
                )
                &&& final(decoder).data() == old(decoder).data()
                &&& final(miss)@ == old(miss)@.update(idx as int, if bit == 0 { 1u8 } else { 0u8 })
            }),
            r.bit == decoded_bit(
                old(decoder).low(),
                old(decoder).high(),
                old(decoder).code(),
                head_prob(*old(self), *old(state), section, old(miss)@, idx as int),
            ),
            (final(decoder).low(), final(decoder).high(), final(decoder).code(), final(decoder).read()) == decode_step(
                old(decoder).low(),
                old(decoder).high(),
                old(decoder).code(),
                old(decoder).data(),
                old(decoder).read(),
                head_prob(*old(self), *old(state), section, old(miss)@, idx as int),
            ),
            memo_after(*old(state), *final(state), old(self).run(), section),
            final(state).neighbors == old(state).neighbors,
            final(state).memo.ok(),
            final(self).wf(),
    {
        let (primary_value, mask, hash, ctx) = self.head_context(section, state);
        let (probs, stretched) = self.head_inputs(&ctx);
        let cluster = cluster_of(&state.neighbors, miss, idx);
        let conf_raw = weight_of_mask(mask) / 3;
        let conf: usize = if conf_raw < 7 {
            conf_raw as usize
        } else {
            7
        };
        let row = section.palette_bits * 64 + conf * 8 + cluster as usize;
        let mixed = self.head_mix(row, &stretched);
        let bit = decoder.decode(mixed);
        proof {
            assert(stretched@ =~= Seq::new(10, |k: int| stretch_spec(head_probs(self.primary(), ctx@)[k] as int) as i32));
        }
        self.head_learn(&ctx, &probs, &stretched, bit, row, mixed);
        miss[idx] = if bit == 0 {
            1
        } else {
            0
        };
        HeadLite { primary_value, mask, hash, bit }
    }
}

/// A decoder in step with an encoder reads back the head call the encoder
/// made: on the same model, head state and miss flags the two calls mix the
/// same probability, so reading the encoder's finished stream from where its
/// output stood, `decode_head` gets the bit `encode_head` coded (and with it
/// the same result and the same learning), and the two coders stay in step
/// for the calls after.
pub proof fn law_decode_head_mirrors_encode_head(
    p: Predictor,
    state: HeadState,
    section: SectionMetadata,
    miss: Seq<u8>,
    idx: int,
    truth: u16,
    low: u32,
    high: u32,
    out: Seq<u8>,
    later: Seq<(u32, u32)>,
)
    requires
        low < high,
    ensures
        ({
            let prob = head_prob(p, state, section, miss, idx);
            let bit = head_bit(p, state, section, truth);
            let e = encode_run(low, high, out, seq![(prob, bit)] + later);
            let s = finished(e.0, e.2);
            let e1 = encode_step(low, high, out, prob, bit);
            &&& decoded_bit(low, high, window(s, out.len() as int), prob) == bit
            &&& decode_step(low, high, window(s, out.len() as int), s, out.len() + 4 as int, prob) == (
                e1.0,
                e1.1,
                window(s, e1.2.len() as int),
                e1.2.len() + 4 as int,
            )
            &&& e1.0 < e1.1
            &&& encode_run(e1.0, e1.1, e1.2, later) == e
        }),
{
    let prob = head_prob(p, state, section, miss, idx);
    let bit = head_bit(p, state, section, truth);
    let steps = seq![(prob, bit)] + later;
    assert(steps.skip(1) =~= later);
    law_decode_step_follows(low, high, out, steps);
}

} // verus!
