use vstd::prelude::*;

verus! {

/// Probabilities are out of `2^RANGE_BITS`.
pub const RANGE_BITS: u32 = 12;
pub const TOP_BYTE: u32 = 0xff00_0000;

/// The probability actually used for a bit: kept within `1..=4094`.
pub open spec fn clamped_prob(prob: u32) -> u32 {
    if prob < 1 {
        1
    } else if prob > 4094 {
        4094
    } else {
        prob
    }
}

/// The last value of the lower part when `[low, high]` is split for a bit of
/// probability `prob`.
pub open spec fn midpoint_spec(low: u32, high: u32, prob: u32) -> u32 {
    (low + ((high - low) * clamped_prob(prob)) / 4096) as u32
}

/// Whether the two bounds agree in their top byte.
pub open spec fn shares_top(low: u32, high: u32) -> bool {
    (low ^ high) & TOP_BYTE == 0
}

/// Facts about the 32-bit operations the coder uses, in plain arithmetic.
pub proof fn lemma_word_facts(low: u32, high: u32, c: u32, b: u32)
    by (bit_vector)
    ensures
        (low ^ high) & 0xff00_0000u32 == 0 ==> (low >> 24u32) == (high >> 24u32),
        (low ^ high) & 0xff00_0000u32 != 0 ==> low != high,
        (low << 8u32) == (low % 16777216) * 256,
        ((high << 8u32) | 255u32) == (high % 16777216) * 256 + 255,
        b < 256 ==> ((c << 8u32) | b) == (c % 16777216) * 256 + b,
        (high >> 24u32) == high / 16777216,
        (high >> 24u32) < 256,
        low == (low >> 24u32) * 16777216 + ((low >> 16u32) & 255u32) * 65536 + ((low >> 8u32) & 255u32) * 256 + (low
            & 255u32),
        (low >> 24u32) < 256 && ((low >> 16u32) & 255u32) < 256 && ((low >> 8u32) & 255u32) < 256 && (low & 255u32) < 256,
{
}

pub proof fn lemma_shift_widens(low: u32, high: u32)
    requires
        low <= high,
        (low ^ high) & 0xff00_0000u32 == 0,
    ensures
        (low << 8u32) <= ((high << 8u32) | 255u32),
        ((high << 8u32) | 255u32) - (low << 8u32) > high - low,
        (high >> 24u32) < 256,
{
    lemma_word_facts(low, high, 0, 0);
    lemma_word_facts(high, low, 0, 0);
    assert(low == (low / 16777216) * 16777216 + low % 16777216);
    assert(high == (high / 16777216) * 16777216 + high % 16777216);
}

/// The bounds and output after shifting out every top byte that the bounds
/// agree on.
pub open spec fn renorm(low: u32, high: u32, out: Seq<u8>) -> (u32, u32, Seq<u8>)
    decreases 0x1_0000_0000 - (high - low),
    when low <= high
{
    if shares_top(low, high) {
        proof {
            lemma_shift_widens(low, high);
        }
        renorm(low << 8u32, (high << 8u32) | 255u32, out.push((high >> 24u32) as u8))
    } else {
        (low, high, out)
    }
}

/// The encoder's bounds and output after coding `truth` with probability
/// `prob` (the chance of a 1, out of 4096).
pub open spec fn encode_step(low: u32, high: u32, out: Seq<u8>, prob: u32, truth: u32) -> (u32, u32, Seq<u8>) {
    let mid = midpoint_spec(low, high, prob);
    if truth != 0 {
        renorm(low, mid, out)
    } else {
        renorm((mid + 1) as u32, high, out)
    }
}

proof fn lemma_renorm_bounds(low: u32, high: u32, out: Seq<u8>)
    requires
        low <= high,
    ensures
        renorm(low, high, out).0 < renorm(low, high, out).1,
        !shares_top(renorm(low, high, out).0, renorm(low, high, out).1),
    decreases 0x1_0000_0000 - (high - low),
{
    if shares_top(low, high) {
        lemma_shift_widens(low, high);
        lemma_renorm_bounds(low << 8u32, (high << 8u32) | 255u32, out.push((high >> 24u32) as u8));
    } else {
        lemma_word_facts(low, high, 0, 0);
    }
}

/// The midpoint of `[low, high]` for probability `prob`.
fn midpoint(low: u32, high: u32, prob: u32) -> (r: u32)
    requires
        low <= high,
    ensures
        r == midpoint_spec(low, high, prob),
        low <= r <= high,
        low < high ==> r < high,
{
    let p: u64 = if prob < 1 {
        1
    } else if prob > 4094 {
        4094
    } else {
        prob as u64
    };
    let range = (high - low) as u64;
    assert(range * p <= 0xffff_ffff * 4094) by (nonlinear_arith)
        requires
            range <= 0xffff_ffff,
            p <= 4094,
    ;
    let prod = range * p;
    proof {
        assert(prod / 4096 <= range) by (nonlinear_arith)
            requires
                prod == range * p,
                p <= 4094,
        ;
        assert(range >= 1 ==> prod / 4096 < range) by (nonlinear_arith)
            requires
                prod == range * p,
                p <= 4094,
        ;
    }
    low + (prod / 4096) as u32
}

/// Codes bits with adaptive probabilities by narrowing `[low, high]`,
/// shifting out the top byte whenever both bounds agree on it.
pub struct Encoder {
    low: u32,
    high: u32,
    out: Vec<u8>,
}

impl Encoder {
    #[verifier::type_invariant]
    spec fn bounds_ordered(&self) -> bool {
        self.low < self.high
    }

    pub closed spec fn low(&self) -> u32 {
        self.low
    }

    pub closed spec fn high(&self) -> u32 {
        self.high
    }

    /// The bytes shifted out so far.
    pub closed spec fn out(&self) -> Seq<u8> {
        self.out@
    }

    pub fn new() -> (r: Self)
        ensures
            r.low() == 0,
            r.high() == u32::MAX,
            r.out() == Seq::<u8>::empty(),
    {
        Encoder { low: 0, high: u32::MAX, out: Vec::new() }
    }

    /// Codes `truth` (any non-zero value is a 1) with `prob`, the chance of a
    /// 1 out of 4096.
    pub fn encode(&mut self, prob: u32, truth: u32)
        ensures
            (final(self).low(), final(self).high(), final(self).out()) == encode_step(
                old(self).low(),
                old(self).high(),
                old(self).out(),
                prob,
                truth,
            ),
    {
        proof {
            use_type_invariant(&*self);
        }
        let mid = midpoint(self.low, self.high, prob);
        let mut low = self.low;
        let mut high = self.high;
        if truth != 0 {
            high = mid;
        } else {
            low = mid + 1;
        }
        let mut out: Vec<u8> = Vec::new();
        std::mem::swap(&mut out, &mut self.out);
        let ghost target = renorm(low, high, out@);
        while (low ^ high) & TOP_BYTE == 0
            invariant
                low <= high,
                renorm(low, high, out@) == target,
            decreases 0x1_0000_0000 - (high - low),
        {
            proof {
                lemma_shift_widens(low, high);
            }
            out.push((high >> 24u32) as u8);
            low = low << 8u32;
            high = (high << 8u32) | 255u32;
        }
        proof {
            lemma_renorm_bounds(low, high, out@);
        }
        *self = Encoder { low, high, out };
    }

    /// The coded bytes: those shifted out, then the four bytes of `low`,
    /// most significant first.
    pub fn finish(self) -> (r: Vec<u8>)
        ensures
            r@ == finished(self.low(), self.out()),
    {
        let mut out = self.out;
        let low = self.low;
        out.push((low >> 24u32) as u8);
        out.push(((low >> 16u32) & 255u32) as u8);
        out.push(((low >> 8u32) & 255u32) as u8);
        out.push((low & 255u32) as u8);
        out
    }
}

impl Default for Encoder {
    fn default() -> (r: Self)
        ensures
            r.low() == 0,
            r.high() == u32::MAX,
            r.out() == Seq::<u8>::empty(),
    {
        Encoder::new()
    }
}

/// The byte at `pos`, or 255 past the end.
pub open spec fn byte_at(data: Seq<u8>, pos: int) -> u8 {
    if 0 <= pos < data.len() {
        data[pos]
    } else {
        255
    }
}

/// The first four bytes as a big-endian value, a missing byte read as 0.
pub open spec fn initial_code(data: Seq<u8>) -> u32 {
    let b = |i: int| if i < data.len() { data[i] as int } else { 0int };
    (b(0) * 16777216 + b(1) * 65536 + b(2) * 256 + b(3)) as u32
}

/// The decoder's bounds, code and read position after shifting out every top
/// byte that the bounds agree on, shifting a byte of the data into the code
/// each time.
pub open spec fn renorm_code(low: u32, high: u32, code: u32, data: Seq<u8>, pos: int) -> (u32, u32, u32, int)
    decreases 0x1_0000_0000 - (high - low),
    when low <= high
{
    if shares_top(low, high) {
        proof {
            lemma_shift_widens(low, high);
        }
        renorm_code(
            low << 8u32,
            (high << 8u32) | 255u32,
            (code << 8u32) | (byte_at(data, pos) as u32),
            data,
            pos + 1,
        )
    } else {
        (low, high, code, pos)
    }
}

/// The bit decoded with probability `prob` from the bounds and code.
pub open spec fn decoded_bit(low: u32, high: u32, code: u32, prob: u32) -> u32 {
    if code <= midpoint_spec(low, high, prob) {
        1
    } else {
        0
    }
}

/// The decoder's bounds, code and read position after decoding a bit with
/// probability `prob`.
pub open spec fn decode_step(low: u32, high: u32, code: u32, data: Seq<u8>, pos: int, prob: u32) -> (u32, u32, u32, int) {
    let mid = midpoint_spec(low, high, prob);
    if code <= mid {
        renorm_code(low, mid, code, data, pos)
    } else {
        renorm_code((mid + 1) as u32, high, code, data, pos)
    }
}

proof fn lemma_renorm_code_bounds(low: u32, high: u32, code: u32, data: Seq<u8>, pos: int)
    requires
        low <= high,
    ensures
        renorm_code(low, high, code, data, pos).0 < renorm_code(low, high, code, data, pos).1,
        renorm_code(low, high, code, data, pos).3 >= pos,
    decreases 0x1_0000_0000 - (high - low),
{
    if shares_top(low, high) {
        lemma_shift_widens(low, high);
        lemma_renorm_code_bounds(
            low << 8u32,
            (high << 8u32) | 255u32,
            (code << 8u32) | (byte_at(data, pos) as u32),
            data,
            pos + 1,
        );
    } else {
        lemma_word_facts(low, high, 0, 0);
    }
}

/// Decodes the bits that an `Encoder` coded, given the same probabilities.
pub struct Decoder<'a> {
    low: u32,
    high: u32,
    code: u32,
    data: &'a [u8],
    pos: usize,
    read: Ghost<int>,
}

impl<'a> Decoder<'a> {
    #[verifier::type_invariant]
    spec fn well_formed(&self) -> bool {
        &&& self.low < self.high
        &&& self.pos <= self.data@.len()
        &&& self.read@ >= 4
        &&& (self.read@ < self.data@.len() ==> self.pos == self.read@)
        &&& (self.read@ >= self.data@.len() ==> self.pos == self.data@.len())
    }

    pub closed spec fn low(&self) -> u32 {
        self.low
    }

    pub closed spec fn high(&self) -> u32 {
        self.high
    }

    pub closed spec fn code(&self) -> u32 {
        self.code
    }

    pub closed spec fn data(&self) -> Seq<u8> {
        self.data@
    }

    /// How many bytes of the stream the code has taken in, counting those
    /// read past its end as 255.
    pub closed spec fn read(&self) -> int {
        self.read@
    }

    /// Starts decoding `data`: the code is its first four bytes, most
    /// significant first.
    pub fn new(data: &'a [u8]) -> (r: Self)
        ensures
            r.low() == 0,
            r.high() == u32::MAX,
            r.code() == initial_code(data@),
            r.data() == data@,
            r.read() == 4,
    {
        let b0: u32 = if 0 < data.len() { data[0] as u32 } else { 0 };
        let b1: u32 = if 1 < data.len() { data[1] as u32 } else { 0 };
        let b2: u32 = if 2 < data.len() { data[2] as u32 } else { 0 };
        let b3: u32 = if 3 < data.len() { data[3] as u32 } else { 0 };
        let code = b0 * 16777216 + b1 * 65536 + b2 * 256 + b3;
        let pos: usize = if data.len() < 4 {
            data.len()
        } else {
            4
        };
        Decoder { low: 0, high: u32::MAX, code, data, pos, read: Ghost(4) }
    }

    fn next_byte(&mut self) -> (b: u32)
        ensures
            b == byte_at(old(self).data(), old(self).read()),
            final(self).read() == old(self).read() + 1,
            final(self).low() == old(self).low(),
            final(self).high() == old(self).high(),
            final(self).code() == old(self).code(),
            final(self).data() == old(self).data(),
    {
        proof {
            use_type_invariant(&*self);
        }
        let b: u32 = if self.pos < self.data.len() {
            self.data[self.pos] as u32
        } else {
            255
        };
        let p = if self.pos < self.data.len() {
            self.pos + 1
        } else {
            self.pos
        };
        *self = Decoder {
            low: self.low,
            high: self.high,
            code: self.code,
            data: self.data,
            pos: p,
            read: Ghost(self.read@ + 1),
        };
        b
    }

    /// Decodes a bit with `prob`, the chance of a 1 out of 4096.
    pub fn decode(&mut self, prob: u32) -> (bit: u32)
        ensures
            bit == decoded_bit(old(self).low(), old(self).high(), old(self).code(), prob),
            (final(self).low(), final(self).high(), final(self).code(), final(self).read()) == decode_step(
                old(self).low(),
                old(self).high(),
                old(self).code(),
                old(self).data(),
                old(self).read(),
                prob,
            ),
            final(self).data() == old(self).data(),
    {
        proof {
            use_type_invariant(&*self);
        }
        let mid = midpoint(self.low, self.high, prob);
        let bit: u32 = if self.code <= mid {
            1
        } else {
            0
        };
        let mut low = self.low;
        let mut high = self.high;
        if bit != 0 {
            high = mid;
        } else {
            low = mid + 1;
        }
        let ghost target = renorm_code(low, high, self.code, self.data@, self.read@);
        while (low ^ high) & TOP_BYTE == 0
            invariant
                low <= high,
                renorm_code(low, high, self.code(), self.data(), self.read()) == target,
                self.data() == old(self).data(),
            decreases 0x1_0000_0000 - (high - low),
        {
            proof {
                lemma_shift_widens(low, high);
            }
            let b = self.next_byte();
            proof {
                use_type_invariant(&*self);
            }
            low = low << 8u32;
            high = (high << 8u32) | 255u32;
            self.code = (self.code << 8u32) | b;
        }
        proof {
            lemma_renorm_code_bounds(low, high, self.code, self.data@, self.read@);
        }
        proof {
            use_type_invariant(&*self);
        }
        *self = Decoder { low, high, code: self.code, data: self.data, pos: self.pos, read: Ghost(self.read@) };
        bit
    }
}


/// The coded stream of an encoder with bounds from `low` and output `out`:
/// the output, then the four bytes of `low`, most significant first.
pub open spec fn finished(low: u32, out: Seq<u8>) -> Seq<u8> {
    out + seq![
        (low >> 24u32) as u8,
        ((low >> 16u32) & 255u32) as u8,
        ((low >> 8u32) & 255u32) as u8,
        (low & 255u32) as u8,
    ]
}

/// The encoder's bounds and output after coding `steps`, each a probability
/// and a bit, first to last.
pub open spec fn encode_run(low: u32, high: u32, out: Seq<u8>, steps: Seq<(u32, u32)>) -> (u32, u32, Seq<u8>)
    decreases steps.len(),
{
    if steps.len() == 0 {
        (low, high, out)
    } else {
        let e = encode_step(low, high, out, steps[0].0, steps[0].1);
        encode_run(e.0, e.1, e.2, steps.skip(1))
    }
}

/// The bits a decoder gives for the probabilities `probs`, first to last.
pub open spec fn decode_run(low: u32, high: u32, code: u32, data: Seq<u8>, read: int, probs: Seq<u32>) -> Seq<u32>
    decreases probs.len(),
{
    if probs.len() == 0 {
        Seq::empty()
    } else {
        let d = decode_step(low, high, code, data, read, probs[0]);
        seq![decoded_bit(low, high, code, probs[0])] + decode_run(d.0, d.1, d.2, data, d.3, probs.skip(1))
    }
}

/// The big-endian value of the four bytes of `s` from `p`.
pub open spec fn window(s: Seq<u8>, p: int) -> u32 {
    (byte_at(s, p) * 16777216 + byte_at(s, p + 1) * 65536 + byte_at(s, p + 2) * 256 + byte_at(s, p + 3)) as u32
}

/// The probabilities of the steps.
pub open spec fn step_probs(steps: Seq<(u32, u32)>) -> Seq<u32> {
    Seq::new(steps.len(), |i: int| steps[i].0)
}

/// The bits of the steps, a non-zero truth as 1.
pub open spec fn step_bits(steps: Seq<(u32, u32)>) -> Seq<u32> {
    Seq::new(steps.len(), |i: int| if steps[i].1 != 0 { 1u32 } else { 0u32 })
}

proof fn lemma_midpoint_inside(low: u32, high: u32, prob: u32)
    requires
        low < high,
    ensures
        low <= midpoint_spec(low, high, prob) < high,
{
    let p = clamped_prob(prob) as int;
    let r = (high - low) as int;
    assert(0 <= (r * p) / 4096 < r) by (nonlinear_arith)
        requires
            1 <= p <= 4094,
            r >= 1,
    ;
}

proof fn lemma_renorm_extends(low: u32, high: u32, out: Seq<u8>)
    requires
        low <= high,
    ensures
        renorm(low, high, out).2.len() >= out.len(),
        renorm(low, high, out).2.subrange(0, out.len() as int) == out,
    decreases 0x1_0000_0000 - (high - low),
{
    if shares_top(low, high) {
        lemma_shift_widens(low, high);
        let o2 = out.push((high >> 24u32) as u8);
        lemma_renorm_extends(low << 8u32, (high << 8u32) | 255u32, o2);
        let r = renorm(low << 8u32, (high << 8u32) | 255u32, o2).2;
        assert(r.subrange(0, out.len() as int) =~= r.subrange(0, o2.len() as int).subrange(0, out.len() as int));
        assert(o2.subrange(0, out.len() as int) =~= out);
    } else {
        assert(out.subrange(0, out.len() as int) =~= out);
    }
}

/// The window one byte further on, from the bytes under it.
proof fn lemma_window_bytes(s: Seq<u8>, p: int)
    requires
        0 <= p,
        p + 4 < s.len(),
    ensures
        window(s, p) as int == s[p] * 16777216 + s[p + 1] * 65536 + s[p + 2] * 256 + s[p + 3],
        window(s, p + 1) as int == s[p + 1] * 16777216 + s[p + 2] * 65536 + s[p + 3] * 256 + s[p + 4],
{
}

/// Stepping back one shifted-out byte keeps the window inside the bounds.
proof fn lemma_window_back(s: Seq<u8>, p: int, low: u32, high: u32)
    requires
        0 <= p,
        p + 4 < s.len(),
        low <= high,
        shares_top(low, high),
        s[p] == (high >> 24u32) as u8,
        (low << 8u32) <= window(s, p + 1) <= ((high << 8u32) | 255u32),
    ensures
        low <= window(s, p) <= high,
{
    lemma_word_facts(low, high, 0, 0);
    lemma_word_facts(high, low, 0, 0);
    lemma_window_bytes(s, p);
    assert(low == (low / 16777216) * 16777216 + low % 16777216);
    assert(high == (high / 16777216) * 16777216 + high % 16777216);
    let q = s[p + 1] * 65536 + s[p + 2] * 256 + s[p + 3];
    assert(window(s, p + 1) as int == 256 * q + s[p + 4]);
    assert(low % 16777216 <= q);
    assert(q <= high % 16777216);
}

/// Renormalization, read backwards: a window inside the bounds after it was
/// inside the bounds before it.
proof fn lemma_renorm_back(low: u32, high: u32, out: Seq<u8>, s: Seq<u8>)
    requires
        low <= high,
        s.len() >= renorm(low, high, out).2.len() + 4,
        s.subrange(0, renorm(low, high, out).2.len() as int) == renorm(low, high, out).2,
        renorm(low, high, out).0 <= window(s, renorm(low, high, out).2.len() as int) <= renorm(low, high, out).1,
    ensures
        low <= window(s, out.len() as int) <= high,
    decreases 0x1_0000_0000 - (high - low),
{
    if shares_top(low, high) {
        lemma_shift_widens(low, high);
        let o2 = out.push((high >> 24u32) as u8);
        lemma_renorm_back(low << 8u32, (high << 8u32) | 255u32, o2, s);
        lemma_renorm_extends(low << 8u32, (high << 8u32) | 255u32, o2);
        let r = renorm(low, high, out).2;
        assert(s[out.len() as int] == s.subrange(0, r.len() as int)[out.len() as int]);
        assert(r[out.len() as int] == r.subrange(0, o2.len() as int)[out.len() as int]);
        lemma_window_back(s, out.len() as int, low, high);
    }
}

/// Renormalization shifts the decoder's code along the stream as the encoder
/// shifted its bytes out.
proof fn lemma_renorm_code_follows(low: u32, high: u32, out: Seq<u8>, s: Seq<u8>)
    requires
        low <= high,
        s.len() >= renorm(low, high, out).2.len() + 4,
        s.subrange(0, renorm(low, high, out).2.len() as int) == renorm(low, high, out).2,
    ensures
        renorm_code(low, high, window(s, out.len() as int), s, out.len() + 4 as int) == (
            renorm(low, high, out).0,
            renorm(low, high, out).1,
            window(s, renorm(low, high, out).2.len() as int),
            renorm(low, high, out).2.len() + 4 as int,
        ),
    decreases 0x1_0000_0000 - (high - low),
{
    if shares_top(low, high) {
        lemma_shift_widens(low, high);
        let o2 = out.push((high >> 24u32) as u8);
        lemma_renorm_extends(low << 8u32, (high << 8u32) | 255u32, o2);
        let p = out.len() as int;
        let c = window(s, p);
        lemma_window_bytes(s, p);
        lemma_word_facts(0, 0, c, s[p + 4] as u32);
        assert((s[p] * 16777216 + s[p + 1] * 65536 + s[p + 2] * 256 + s[p + 3]) % 16777216 == s[p + 1] * 65536 + s[p + 2]
            * 256 + s[p + 3]);
        assert(((c << 8u32) | (byte_at(s, p + 4) as u32)) == window(s, p + 1));
        lemma_renorm_code_follows(low << 8u32, (high << 8u32) | 255u32, o2, s);
    }
}

/// One step of the decoder, from the window the encoder's later steps leave,
/// gives the encoder's bit and follows its state.
proof fn lemma_decode_follows(low: u32, high: u32, out: Seq<u8>, prob: u32, truth: u32, s: Seq<u8>)
    requires
        low < high,
        s.len() >= encode_step(low, high, out, prob, truth).2.len() + 4,
        s.subrange(0, encode_step(low, high, out, prob, truth).2.len() as int) == encode_step(low, high, out, prob, truth).2,
        encode_step(low, high, out, prob, truth).0 <= window(s, encode_step(low, high, out, prob, truth).2.len() as int)
            <= encode_step(low, high, out, prob, truth).1,
    ensures
        low <= window(s, out.len() as int) <= high,
        decoded_bit(low, high, window(s, out.len() as int), prob) == (if truth != 0 { 1u32 } else { 0u32 }),
        decode_step(low, high, window(s, out.len() as int), s, out.len() + 4 as int, prob) == (
            encode_step(low, high, out, prob, truth).0,
            encode_step(low, high, out, prob, truth).1,
            window(s, encode_step(low, high, out, prob, truth).2.len() as int),
            encode_step(low, high, out, prob, truth).2.len() + 4 as int,
        ),
{
    let mid = midpoint_spec(low, high, prob);
    lemma_midpoint_inside(low, high, prob);
    if truth != 0 {
        lemma_renorm_back(low, mid, out, s);
        lemma_renorm_code_follows(low, mid, out, s);
    } else {
        lemma_renorm_back((mid + 1) as u32, high, out, s);
        lemma_renorm_code_follows((mid + 1) as u32, high, out, s);
    }
}

/// Whatever follows, the final stream extends the output so far, and its
/// window there lies inside the current bounds.
proof fn lemma_encode_run_window(low: u32, high: u32, out: Seq<u8>, steps: Seq<(u32, u32)>)
    requires
        low < high,
    ensures
        ({
            let e = encode_run(low, high, out, steps);
            let s = finished(e.0, e.2);
            &&& e.0 < e.1
            &&& s.len() >= out.len() + 4
            &&& s.subrange(0, out.len() as int) == out
            &&& low <= window(s, out.len() as int) <= high
        }),
    decreases steps.len(),
{
    let e = encode_run(low, high, out, steps);
    let s = finished(e.0, e.2);
    if steps.len() == 0 {
        lemma_word_facts(low, 0, 0, 0);
        assert(s.subrange(0, out.len() as int) =~= out);
        lemma_window_bytes(s + seq![0u8], out.len() as int);
        assert(window(s, out.len() as int) == window(s + seq![0u8], out.len() as int));
    } else {
        let mid = midpoint_spec(low, high, steps[0].0);
        lemma_midpoint_inside(low, high, steps[0].0);
        let e1 = encode_step(low, high, out, steps[0].0, steps[0].1);
        if steps[0].1 != 0 {
            lemma_renorm_bounds(low, mid, out);
            lemma_renorm_extends(low, mid, out);
        } else {
            lemma_renorm_bounds((mid + 1) as u32, high, out);
            lemma_renorm_extends((mid + 1) as u32, high, out);
        }
        lemma_encode_run_window(e1.0, e1.1, e1.2, steps.skip(1));
        assert(s.subrange(0, out.len() as int) =~= s.subrange(0, e1.2.len() as int).subrange(0, out.len() as int));
        lemma_decode_follows(low, high, out, steps[0].0, steps[0].1, s);
    }
}

/// Decoding the final stream from any point of the encoding, with the
/// probabilities of the steps left, gives their bits.
proof fn lemma_decode_run(low: u32, high: u32, out: Seq<u8>, steps: Seq<(u32, u32)>)
    requires
        low < high,
    ensures
        ({
            let e = encode_run(low, high, out, steps);
            let s = finished(e.0, e.2);
            decode_run(low, high, window(s, out.len() as int), s, out.len() + 4 as int, step_probs(steps)) == step_bits(steps)
        }),
    decreases steps.len(),
{
    let e = encode_run(low, high, out, steps);
    let s = finished(e.0, e.2);
    if steps.len() == 0 {
        assert(step_bits(steps) =~= Seq::<u32>::empty());
    } else {
        let e1 = encode_step(low, high, out, steps[0].0, steps[0].1);
        lemma_encode_run_window(low, high, out, steps);
        let mid = midpoint_spec(low, high, steps[0].0);
        lemma_midpoint_inside(low, high, steps[0].0);
        if steps[0].1 != 0 {
            lemma_renorm_bounds(low, mid, out);
        } else {
            lemma_renorm_bounds((mid + 1) as u32, high, out);
        }
        lemma_encode_run_window(e1.0, e1.1, e1.2, steps.skip(1));
        lemma_decode_follows(low, high, out, steps[0].0, steps[0].1, s);
        lemma_decode_run(e1.0, e1.1, e1.2, steps.skip(1));
        assert(step_probs(steps).skip(1) =~= step_probs(steps.skip(1)));
        assert(step_bits(steps) =~= seq![step_bits(steps)[0]] + step_bits(steps.skip(1)));
    }
}

/// A decoder in step with an encoder follows it one step: reading the stream
/// the encoder finishes with, from where the encoder's output so far ends, with
/// the next step's probability, it gives that step's bit and lands where the
/// encoder's next state leaves it, in step again for the steps after.
pub proof fn law_decode_step_follows(low: u32, high: u32, out: Seq<u8>, steps: Seq<(u32, u32)>)
    requires
        low < high,
        steps.len() > 0,
    ensures
        ({
            let e = encode_run(low, high, out, steps);
            let s = finished(e.0, e.2);
            let e1 = encode_step(low, high, out, steps[0].0, steps[0].1);
            &&& decoded_bit(low, high, window(s, out.len() as int), steps[0].0) == (if steps[0].1 != 0 { 1u32 } else { 0u32 })
            &&& decode_step(low, high, window(s, out.len() as int), s, out.len() + 4 as int, steps[0].0) == (
                e1.0,
                e1.1,
                window(s, e1.2.len() as int),
                e1.2.len() + 4 as int,
            )
            &&& e1.0 < e1.1
            &&& encode_run(e1.0, e1.1, e1.2, steps.skip(1)) == e
        }),
{
    let e = encode_run(low, high, out, steps);
    let s = finished(e.0, e.2);
    let e1 = encode_step(low, high, out, steps[0].0, steps[0].1);
    lemma_encode_run_window(low, high, out, steps);
    let mid = midpoint_spec(low, high, steps[0].0);
    lemma_midpoint_inside(low, high, steps[0].0);
    if steps[0].1 != 0 {
        lemma_renorm_bounds(low, mid, out);
    } else {
        lemma_renorm_bounds((mid + 1) as u32, high, out);
    }
    lemma_encode_run_window(e1.0, e1.1, e1.2, steps.skip(1));
    lemma_decode_follows(low, high, out, steps[0].0, steps[0].1, s);
}

/// A stream decodes back to the bits it was coded from: a fresh decoder on
/// what a fresh encoder finished with, given the same probabilities, gives
/// every bit (a non-zero truth as 1) in order.
pub proof fn law_range_roundtrip(steps: Seq<(u32, u32)>)
    ensures
        ({
            let e = encode_run(0, u32::MAX, Seq::empty(), steps);
            let s = finished(e.0, e.2);
            decode_run(0, u32::MAX, initial_code(s), s, 4, step_probs(steps)) == step_bits(steps)
        }),
{
    let e = encode_run(0, u32::MAX, Seq::empty(), steps);
    let s = finished(e.0, e.2);
    lemma_encode_run_window(0, u32::MAX, Seq::empty(), steps);
    assert(initial_code(s) == window(s, 0));
    lemma_decode_run(0, u32::MAX, Seq::empty(), steps);
}

} // verus!
