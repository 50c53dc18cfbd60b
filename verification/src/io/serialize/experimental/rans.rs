use vstd::prelude::*;

verus! {

/// Lower bound of a normalized coder state.
pub const ANS_L: u32 = 65536;
/// Total of a frequency table; slots run over `0..ANS_M`.
pub const ANS_M: u32 = 4096;

pub const ZERO_LIMIT: u32 = 14;
pub const ZERO_DELTA: u32 = 5;
pub const EXP_LIMIT: u32 = 8;
pub const EXP_DELTA: u32 = 3;
pub const MANT_LIMIT: u32 = 8;
pub const MANT_DELTA: u32 = 3;

/// A coder state between symbols: at least `ANS_L`, below `256 * ANS_L`.
pub open spec fn normalized(x: int) -> bool {
    65536 <= x < 16777216
}

/// The bytes that encoding a symbol of frequency `freq` shifts out of state `x`,
/// least significant first, and the state left.
pub open spec fn renormalize(x: int, freq: int, out: Seq<u8>) -> (int, Seq<u8>)
    decreases x,
{
    if freq > 0 && x >= 4096 * freq {
        renormalize(x / 256, freq, out.push((x % 256) as u8))
    } else {
        (x, out)
    }
}

/// The state after encoding the symbol `[start, start + freq)` into `x`, and
/// the byte stack after it.
pub open spec fn encode_step(x: int, out: Seq<u8>, start: int, freq: int) -> (int, Seq<u8>) {
    if freq == 0 {
        (x, out)
    } else {
        let (y, out2) = renormalize(x, freq, out);
        ((y / freq) * 4096 + y % freq + start, out2)
    }
}

/// The decoder's move back over the symbol `[start, start + freq)`: the state
/// before that symbol, refilled with bytes from the top of the stack.
pub open spec fn refill(x: int, stack: Seq<u8>) -> (int, Seq<u8>)
    decreases stack.len(),
{
    if x < 65536 && stack.len() > 0 {
        refill(x * 256 + stack.last(), stack.drop_last())
    } else {
        (x, stack)
    }
}

pub open spec fn decode_step(x: int, stack: Seq<u8>, start: int, freq: int) -> (int, Seq<u8>) {
    if freq == 0 {
        (x, stack)
    } else {
        refill(freq * (x / 4096) + x % 4096 - start, stack)
    }
}

pub struct RansEncoder {
    state: u32,
    buf: Vec<u8>,
}

impl RansEncoder {
    pub closed spec fn state(&self) -> int {
        self.state as int
    }

    /// The bytes shifted out so far, in the order they were shifted out.
    pub closed spec fn bytes(&self) -> Seq<u8> {
        self.buf@
    }

    pub fn new() -> (r: Self)
        ensures
            r.state() == 65536,
            r.bytes() == Seq::<u8>::empty(),
    {
        RansEncoder { state: ANS_L, buf: Vec::with_capacity(1024) }
    }

    /// Encodes the symbol whose slots are `start..start + freq`; a symbol of
    /// frequency 0 is skipped.
    pub fn encode_symbol(&mut self, start: u32, freq: u32)
        requires
            normalized(old(self).state()),
            start + freq <= 4096,
        ensures
            normalized(final(self).state()),
            (final(self).state(), final(self).bytes()) == encode_step(old(self).state(), old(self).bytes(), start as int, freq as int),
    {
        if freq == 0 {
            return;
        }
        let limit = (ANS_L / ANS_M) * 256 * freq;
        let ghost x0 = self.state as int;
        let ghost b0 = self.buf@;
        while self.state >= limit
            invariant
                limit == 4096 * freq,
                1 <= freq <= 4096,
                self.state <= x0,
                65536 <= x0 < 16777216,
                self.state == x0 || self.state >= 16 * freq,
                renormalize(x0, freq as int, b0) == renormalize(self.state as int, freq as int, self.buf@),
            decreases self.state,
        {
            let s = self.state;
            assert(s & 0xff == s % 256 && s >> 8 == s / 256) by (bit_vector);
            self.buf.push((s & 0xff) as u8);
            self.state = s >> 8;
        }
        let y = self.state;
        proof {
            assert(y >= 16 * freq);
            assert(y / freq < 4096) by (nonlinear_arith)
                requires y < 4096 * freq, freq > 0;
            assert(y / freq >= 16) by (nonlinear_arith)
                requires y >= 16 * freq, freq > 0;
            assert(y % freq < freq) by (nonlinear_arith)
                requires freq > 0;
        }
        self.state = (self.state / freq) * ANS_M + (self.state % freq) + start;
    }

    /// The stream: the shifted-out bytes, then the final state, little endian.
    pub fn flush(self) -> (r: Vec<u8>)
        ensures
            r@ == self.bytes() + le_u32(self.state() as u32),
    {
        let mut res = self.buf;
        let s = self.state;
        res.push((s % 256) as u8);
        res.push(((s / 256) % 256) as u8);
        res.push(((s / 65536) % 256) as u8);
        res.push((s / 16777216) as u8);
        proof {
            assert(res@ =~= self.bytes() + le_u32(self.state() as u32));
        }
        res
    }
}

/// The four little-endian bytes of `v`.
pub open spec fn le_u32(v: u32) -> Seq<u8> {
    seq![(v % 256) as u8, ((v / 256) % 256) as u8, ((v / 65536) % 256) as u8, (v / 16777216) as u8]
}

pub open spec fn le_u32_value(b: Seq<u8>) -> int {
    b[0] + 256 * b[1] + 65536 * b[2] + 16777216 * b[3]
}

pub struct RansDecoder<'a> {
    state: u32,
    buf: &'a [u8],
    off: usize,
}

impl<'a> RansDecoder<'a> {
    #[verifier::type_invariant]
    spec fn offset_in_bounds(&self) -> bool {
        self.off <= self.buf@.len()
    }

    pub closed spec fn state(&self) -> int {
        self.state as int
    }

    /// The bytes not yet read back, the next one last.
    pub closed spec fn stack(&self) -> Seq<u8> {
        self.buf@.take(self.off as int)
    }

    /// Starts decoding a stream: the state from its last four bytes, the rest
    /// as the byte stack. A stream shorter than four bytes is refused.
    pub fn new(data: &'a [u8]) -> (r: Result<Self, &'static str>)
        ensures
            data@.len() < 4 <==> r is Err,
            r matches Ok(d) ==> d.state() == le_u32_value(data@.skip(data@.len() - 4)) && d.stack()
                == data@.take(data@.len() - 4),
    {
        if data.len() < 4 {
            return Err("invalid ANS data: too short");
        }
        let state_off = data.len() - 4;
        let state = data[state_off] as u32 + 256 * (data[state_off + 1] as u32) + 65536 * (data[state_off
            + 2] as u32) + 16777216 * (data[state_off + 3] as u32);
        Ok(RansDecoder { state, buf: data, off: state_off })
    }

    /// The slot that the next symbol covers.
    pub fn get_current_freq(&self) -> (r: u32)
        ensures
            r == self.state() % 4096,
    {
        self.state % ANS_M
    }

    /// Moves back over the symbol `[start, start + freq)`, refilling the state
    /// from the stack while it is below `ANS_L`; a symbol of frequency 0 is
    /// skipped.
    pub fn advance(&mut self, start: u32, freq: u32)
        requires
            freq <= 4096,
            start <= old(self).state() % 4096,
        ensures
            (final(self).state(), final(self).stack()) == decode_step(old(self).state(), old(self).stack(), start as int, freq as int),
    {
        proof {
            use_type_invariant(&*self);
        }
        if freq == 0 {
            return;
        }
        proof {
            assert(freq * (self.state / 4096) <= 4096 * 1048575) by (nonlinear_arith)
                requires freq <= 4096, self.state / 4096 <= 1048575;
        }
        self.state = freq * (self.state / ANS_M) + (self.state % ANS_M) - start;
        while self.state < ANS_L && self.off > 0
            invariant
                self.off <= self.buf@.len(),
                refill(self.state as int, self.buf@.take(self.off as int)) == decode_step(
                    old(self).state(),
                    old(self).stack(),
                    start as int,
                    freq as int,
                ),
            decreases self.off,
        {
            self.off -= 1;
            proof {
                assert(self.buf@.take(self.off + 1 as int).drop_last() =~= self.buf@.take(self.off as int));
                assert(self.buf@.take(self.off + 1 as int).last() == self.buf@[self.off as int]);
            }
            let b = self.buf[self.off] as u32;
            let s = self.state;
            assert((s << 8) | b == s * 256 + b) by (bit_vector)
                requires s < 65536, b < 256;
            self.state = (s << 8) | b;
        }
    }
}


/// Renormalization and refilling are inverse: from a normalized state, the
/// decoder reads back exactly the bytes that the encoder shifted out.
proof fn lemma_refill_undoes_renormalize(x: int, freq: int, out: Seq<u8>)
    requires
        normalized(x),
        1 <= freq <= 4096,
    ensures
        refill(renormalize(x, freq, out).0, renormalize(x, freq, out).1) == (x, out),
{
    reveal_with_fuel(renormalize, 3);
    reveal_with_fuel(refill, 3);
    if x >= 4096 * freq {
        let x1 = x / 256;
        let out1 = out.push((x % 256) as u8);
        assert(out1.drop_last() =~= out);
        if x1 >= 4096 * freq {
            let out2 = out1.push((x1 % 256) as u8);
            assert(out2.drop_last() =~= out1);
            assert(x1 / 256 < 4096 * freq);
        }
    }
}

/// One coded symbol: encoding `[start, start + freq)` into a normalized state
/// gives a normalized state whose slot lies in that range, and decoding that
/// symbol gives back the state and the byte stack from before.
pub proof fn law_symbol_roundtrip(x: int, out: Seq<u8>, start: int, freq: int)
    requires
        normalized(x),
        0 <= start,
        0 < freq,
        start + freq <= 4096,
    ensures
        normalized(encode_step(x, out, start, freq).0),
        start <= encode_step(x, out, start, freq).0 % 4096 < start + freq,
        decode_step(encode_step(x, out, start, freq).0, encode_step(x, out, start, freq).1, start, freq)
            == (x, out),
{
    reveal_with_fuel(renormalize, 3);
    lemma_refill_undoes_renormalize(x, freq, out);
    let y = renormalize(x, freq, out).0;
    assert(16 * freq <= y < 4096 * freq) by {
        if x >= 4096 * freq {
            let x1 = x / 256;
            if x1 >= 4096 * freq {
                assert(x1 / 256 < 4096 * freq);
            }
        }
    }
    let q = y / freq;
    let r = y % freq;
    assert(16 <= q < 4096 && 0 <= r < freq && y == freq * q + r) by (nonlinear_arith)
        requires
            16 * freq <= y < 4096 * freq,
            freq > 0,
            q == y / freq,
            r == y % freq,
    ;
    let z = q * 4096 + r + start;
    assert(z / 4096 == q && z % 4096 == r + start) by (nonlinear_arith)
        requires
            z == q * 4096 + r + start,
            0 <= r + start < 4096,
            q >= 0,
    ;
}

/// A flushed stream is read back by the decoder: its state from the last four
/// bytes, and the shifted-out bytes before them as the stack.
pub proof fn law_flush_then_open(bytes: Seq<u8>, state: u32)
    ensures
        le_u32_value((bytes + le_u32(state)).skip(bytes.len() as int)) == state,
        (bytes + le_u32(state)).take(bytes.len() as int) == bytes,
        (bytes + le_u32(state)).len() == bytes.len() + 4,
{
    let data = bytes + le_u32(state);
    assert(data.take(bytes.len() as int) =~= bytes);
    assert(data.skip(bytes.len() as int) =~= le_u32(state));
    let v = state as int;
    assert(v % 256 + 256 * ((v / 256) % 256) + 65536 * ((v / 65536) % 256) + 16777216 * (v / 16777216)
        == v) by (nonlinear_arith)
        requires
            0 <= v < 4294967296,
    ;
}


/// An adaptive probability for one binary decision: `p` is the share, out of
/// `ANS_M`, that the next bit is 0; `count` is how many updates it has seen,
/// saturating at the caller's limit.
#[derive(Clone, Copy)]
pub struct BitChance {
    p: u16,
    count: u8,
}

/// The probability and count after observing `bit`: the count grows up to
/// `limit`, and `p` moves towards the observed side by its distance over
/// `count + delta`, kept inside `1..ANS_M`.
pub open spec fn chance_update(p: int, count: int, bit: int, limit: int, delta: int) -> (int, int) {
    let c = if count < limit { count + 1 } else { count };
    let n = c + delta;
    let target = if bit == 0 { 4096int } else { 0int };
    let q = if target >= p { p + (target - p) / n } else { p - (p - target) / n };
    (if q < 1 { 1 } else if q > 4095 { 4095 } else { q }, c)
}

impl BitChance {
    #[verifier::type_invariant]
    spec fn p_in_range(&self) -> bool {
        1 <= self.p <= 4095
    }

    /// The share of `ANS_M` given to a 0 bit.
    pub closed spec fn p(&self) -> int {
        self.p as int
    }

    pub closed spec fn count(&self) -> int {
        self.count as int
    }

    /// The chance after observing `bit` under `limit` and `delta`.
    pub open spec fn after(&self, bit: int, limit: int, delta: int) -> (int, int) {
        chance_update(self.p(), self.count(), bit, limit, delta)
    }

    /// This chance after observing `bit`.
    pub closed spec fn stepped(self, bit: int, limit: int, delta: int) -> BitChance {
        let (p, c) = self.after(bit, limit, delta);
        BitChance { p: p as u16, count: c as u8 }
    }

    /// Even odds and no history.
    pub closed spec fn even() -> BitChance {
        BitChance { p: 2048, count: 0 }
    }

    /// Whether the chance lies inside `1..ANS_M`.
    pub open spec fn in_range(self) -> bool {
        1 <= self.p() <= 4095
    }

    /// A stepped chance stays inside `1..ANS_M`, and the even chance is there.
    pub proof fn lemma_stepped_in_range(c: BitChance, bit: int, limit: int, delta: int)
        ensures
            c.stepped(bit, limit, delta).in_range(),
            BitChance::even().in_range(),
            BitChance::even().p() == 2048,
            BitChance::even().count() == 0,
    {
    }

    /// Even odds and no history.
    pub fn fresh() -> (r: Self)
        ensures
            r.p() == 2048,
            r.count() == 0,
            r == BitChance::even(),
    {
        BitChance { p: 2048, count: 0 }
    }

    fn update(&mut self, bit: u32, limit: u32, delta: u32)
        requires
            limit <= 255,
            delta >= 1,
            delta <= 1024,
        ensures
            (final(self).p(), final(self).count()) == old(self).after(bit as int, limit as int, delta as int),
            *final(self) == old(self).stepped(bit as int, limit as int, delta as int),
    {
        proof {
            use_type_invariant(&*self);
        }
        let mut count = self.count;
        if (count as u32) < limit {
            count = count + 1;
        }
        let n = count as u32 + delta;
        let p = self.p as u32;
        let target: u32 = if bit == 0 { ANS_M } else { 0 };
        let new_p = if target >= p {
            p + (target - p) / n
        } else {
            p - (p - target) / n
        };
        proof {
            assert(target >= p ==> (target - p) / (n as int) <= target - p) by (nonlinear_arith)
                requires n >= 1;
            assert(target < p ==> (p - target) / (n as int) <= p - target) by (nonlinear_arith)
                requires n >= 1;
        }
        let clamped: u32 = if new_p < 1 {
            1
        } else if new_p > ANS_M - 1 {
            ANS_M - 1
        } else {
            new_p
        };
        *self = BitChance { p: clamped as u16, count };
    }

    /// Records `bit` as coded with this chance, then adapts to it.
    pub fn record_bit(&mut self, recs: &mut Vec<BitRec>, bit: u32, limit: u32, delta: u32)
        requires
            limit <= 255,
            1 <= delta <= 1024,
            bit <= 1,
        ensures
            final(recs)@ == old(recs)@.push(BitRec { f0: old(self).p() as u32, bit: bit as u8 }),
            1 <= old(self).p() <= 4095,
            (final(self).p(), final(self).count()) == old(self).after(bit as int, limit as int, delta as int),
            *final(self) == old(self).stepped(bit as int, limit as int, delta as int),
    {
        proof {
            use_type_invariant(&*self);
        }
        recs.push(BitRec { f0: self.p as u32, bit: bit as u8 });
        self.update(bit, limit, delta);
    }

    /// Decodes one bit with this chance: 0 when the decoder's slot lies below
    /// `p`, else 1; moves the decoder over that symbol and adapts.
    pub fn decode_bit(&mut self, dec: &mut RansDecoder, limit: u32, delta: u32) -> (bit: u32)
        requires
            limit <= 255,
            1 <= delta <= 1024,
        ensures
            bit == (if old(dec).state() % 4096 < old(self).p() { 0int } else { 1int }),
            (final(dec).state(), final(dec).stack()) == (if bit == 0 {
                decode_step(old(dec).state(), old(dec).stack(), 0, old(self).p())
            } else {
                decode_step(old(dec).state(), old(dec).stack(), old(self).p(), 4096 - old(self).p())
            }),
            (final(self).p(), final(self).count()) == old(self).after(bit as int, limit as int, delta as int),
            *final(self) == old(self).stepped(bit as int, limit as int, delta as int),
    {
        proof {
            use_type_invariant(&*self);
        }
        let f0 = self.p as u32;
        let slot = dec.get_current_freq();
        let bit = if slot < f0 {
            dec.advance(0, f0);
            0
        } else {
            dec.advance(f0, ANS_M - f0);
            1
        };
        self.update(bit, limit, delta);
        bit
    }
}

/// One coded binary decision: the chance of a 0 it was coded with, and the bit.
#[derive(Clone, Copy)]
pub struct BitRec {
    pub f0: u32,
    pub bit: u8,
}

/// The slot range `(start, freq)` that codes a recorded bit.
pub open spec fn rec_symbol(r: BitRec) -> (int, int) {
    if r.bit == 0 {
        (0, r.f0 as int)
    } else {
        (r.f0 as int, 4096 - r.f0)
    }
}

/// The coder state and byte stack after encoding `syms[k..]`, last symbol
/// first, from a fresh encoder.
pub open spec fn encode_from(syms: Seq<(int, int)>, k: int) -> (int, Seq<u8>)
    decreases syms.len() - k,
{
    if k >= syms.len() || k < 0 {
        (65536, Seq::empty())
    } else {
        let rest = encode_from(syms, k + 1);
        encode_step(rest.0, rest.1, syms[k].0, syms[k].1)
    }
}

/// Whether every symbol is a non-empty slot range inside `0..ANS_M`.
pub open spec fn valid_symbols(syms: Seq<(int, int)>) -> bool {
    forall|i: int| 0 <= i < syms.len() ==> 0 <= #[trigger] syms[i].0 && 0 < syms[i].1 && syms[i].0 + syms[i].1 <= 4096
}

/// Streams decode in the order they were given: after encoding `syms` last
/// symbol first, the decoder at the state for `syms[k..]` finds its slot in
/// `syms[k]`'s range, and moving over `syms[k]` leaves the state for `syms[k + 1..]`.
pub proof fn law_stream_roundtrip(syms: Seq<(int, int)>, k: int)
    requires
        valid_symbols(syms),
        0 <= k < syms.len(),
    ensures
        normalized(encode_from(syms, k).0),
        syms[k].0 <= encode_from(syms, k).0 % 4096 < syms[k].0 + syms[k].1,
        decode_step(encode_from(syms, k).0, encode_from(syms, k).1, syms[k].0, syms[k].1) == encode_from(syms, k + 1),
    decreases syms.len() - k,
{
    let rest = encode_from(syms, k + 1);
    if k + 1 < syms.len() {
        law_stream_roundtrip(syms, k + 1);
    }
    assert(normalized(rest.0));
    law_symbol_roundtrip(rest.0, rest.1, syms[k].0, syms[k].1);
}

/// Codes the records into one stream, last record first, so that a decoder
/// reads them back first to last.
pub fn flush_bit_recs(recs: &[BitRec]) -> (r: Vec<u8>)
    requires
        forall|i: int| 0 <= i < recs@.len() ==> 1 <= #[trigger] recs@[i].f0 <= 4095,
    ensures
        r@ == encode_from(recs@.map_values(|x: BitRec| rec_symbol(x)), 0).1
            + le_u32(encode_from(recs@.map_values(|x: BitRec| rec_symbol(x)), 0).0 as u32),
{
    let ghost syms = recs@.map_values(|x: BitRec| rec_symbol(x));
    let mut enc = RansEncoder::new();
    let mut i = recs.len();
    while i > 0
        invariant
            i <= recs@.len(),
            syms == recs@.map_values(|x: BitRec| rec_symbol(x)),
            forall|j: int| 0 <= j < recs@.len() ==> 1 <= #[trigger] recs@[j].f0 <= 4095,
            (enc.state(), enc.bytes()) == encode_from(syms, i as int),
            normalized(enc.state()),
        decreases i,
    {
        i -= 1;
        let rec = recs[i];
        if rec.bit == 0 {
            enc.encode_symbol(0, rec.f0);
        } else {
            enc.encode_symbol(rec.f0, ANS_M - rec.f0);
        }
    }
    enc.flush()
}



/// The bit of `v` at position `i`.
pub open spec fn bit_at(v: u32, i: int) -> int {
    ((v >> (i as u32)) & 1) as int
}

/// The position of the highest set bit of `v` (0 for 0 and 1).
pub open spec fn top_bit(v: int) -> int
    decreases v,
{
    if v <= 1 {
        0
    } else {
        1 + top_bit(v / 2)
    }
}

/// Codes non-negative integers bit by bit with adaptive chances: whether the
/// value is zero, its top bit position in unary, then the bits below it.
pub struct NzCoder {
    zero: BitChance,
    exp: Vec<BitChance>,
    mant: Vec<BitChance>,
}

impl NzCoder {
    /// Sixteen chances for top-bit positions and sixteen for lower bits, each
    /// inside `1..ANS_M`.
    pub open spec fn wf(&self) -> bool {
        &&& self.exps().len() == 16 && self.mants().len() == 16
        &&& 1 <= self.zero().p() <= 4095
        &&& forall|i: int| 0 <= i < 16 ==> 1 <= #[trigger] self.exps()[i].p() <= 4095
        &&& forall|i: int| 0 <= i < 16 ==> 1 <= #[trigger] self.mants()[i].p() <= 4095
    }

    pub closed spec fn zero(&self) -> BitChance {
        self.zero
    }

    pub closed spec fn exps(&self) -> Seq<BitChance> {
        self.exp@
    }

    pub closed spec fn mants(&self) -> Seq<BitChance> {
        self.mant@
    }

    pub open spec fn is_fresh(&self) -> bool {
        &&& self.zero().p() == 2048 && self.zero().count() == 0
        &&& self.exps().len() == 16 && self.mants().len() == 16
        &&& forall|i: int| 0 <= i < 16 ==> #[trigger] self.exps()[i].p() == 2048 && self.exps()[i].count() == 0
        &&& forall|i: int| 0 <= i < 16 ==> #[trigger] self.mants()[i].p() == 2048 && self.mants()[i].count() == 0
    }

    fn fresh_row() -> (r: Vec<BitChance>)
        ensures
            r@.len() == 16,
            forall|i: int| 0 <= i < 16 ==> #[trigger] r@[i].p() == 2048 && r@[i].count() == 0,
            forall|i: int| 0 <= i < 16 ==> #[trigger] r@[i] == BitChance::even(),
    {
        let mut r: Vec<BitChance> = Vec::new();
        let mut i: usize = 0;
        while i < 16
            invariant
                i <= 16,
                r@.len() == i,
                forall|j: int| 0 <= j < i ==> #[trigger] r@[j].p() == 2048 && r@[j].count() == 0,
                forall|j: int| 0 <= j < i ==> #[trigger] r@[j] == BitChance::even(),
            decreases 16 - i,
        {
            r.push(BitChance::fresh());
            i += 1;
        }
        r
    }

    fn fresh_coder() -> (r: Self)
        ensures
            r.is_fresh(),
            r.wf(),
            r.zero() == BitChance::even(),
            forall|i: int| 0 <= i < 16 ==> #[trigger] r.exps()[i] == BitChance::even(),
            forall|i: int| 0 <= i < 16 ==> #[trigger] r.mants()[i] == BitChance::even(),
    {
        let r = NzCoder { zero: BitChance::fresh(), exp: Self::fresh_row(), mant: Self::fresh_row() };
        assert(forall|i: int| 0 <= i < 16 ==> #[trigger] r.exps()[i].p() == 2048 && r.exps()[i].count() == 0);
        assert(forall|i: int| 0 <= i < 16 ==> #[trigger] r.mants()[i].p() == 2048 && r.mants()[i].count() == 0);
        r
    }

    pub fn new() -> (r: Box<Self>)
        ensures
            r.is_fresh(),
            r.wf(),
            r.state() == fresh_state(),
    {
        let c = Self::fresh_coder();
        proof {
            assert(c.exps() =~= Seq::new(16, |_i: int| BitChance::even()));
            assert(c.mants() =~= Seq::new(16, |_i: int| BitChance::even()));
        }
        Box::new(c)
    }

    /// What the coder has learnt.
    pub open spec fn state(&self) -> CoderState {
        (self.zero(), self.exps(), self.mants())
    }

    /// Forgets everything learnt.
    pub fn reset(&mut self)
        ensures
            final(self).is_fresh(),
            final(self).wf(),
    {
        *self = Self::fresh_coder();
    }
}


/// `2` to the power `k`.
pub open spec fn two_to(k: int) -> int
    decreases k,
{
    if k <= 0 {
        1
    } else {
        2 * two_to(k - 1)
    }
}

proof fn lemma_top_bit_nonneg(v: int)
    ensures
        top_bit(v) >= 0,
    decreases v,
{
    if v > 1 {
        lemma_top_bit_nonneg(v / 2);
    }
}

proof fn lemma_top_bit_below(v: int, k: int)
    requires
        0 <= v < two_to(k + 1),
        k >= 0,
    ensures
        top_bit(v) <= k,
    decreases v,
{
    if v > 1 {
        lemma_top_bit_below(v / 2, k - 1);
    }
}

/// One bit decoded with chance `c` from state `x` and stack `st`: the bit and
/// the decoder's state and stack after it.
pub open spec fn bit_decode(c: BitChance, x: int, st: Seq<u8>) -> (int, int, Seq<u8>) {
    if x % 4096 < c.p() {
        let (x2, st2) = decode_step(x, st, 0, c.p());
        (0, x2, st2)
    } else {
        let (x2, st2) = decode_step(x, st, c.p(), 4096 - c.p());
        (1, x2, st2)
    }
}

/// Decodes the unary run of top-bit positions from `e` on: the position of
/// the first 0 bit (16 when all of `e..16` decode as 1), the chances after,
/// and the decoder state and stack after.
pub open spec fn exp_run(exps: Seq<BitChance>, e: int, x: int, st: Seq<u8>) -> (int, Seq<BitChance>, int, Seq<u8>)
    decreases 16 - e,
{
    if e < 0 || e >= 16 {
        (16, exps, x, st)
    } else {
        let (bit, x2, st2) = bit_decode(exps[e], x, st);
        let exps2 = exps.update(e, exps[e].stepped(bit, 8, 3));
        if bit == 1 {
            exp_run(exps2, e + 1, x2, st2)
        } else {
            (e, exps2, x2, st2)
        }
    }
}

/// Decodes the bits below position `i` into `v`, highest first.
pub open spec fn mant_run(mants: Seq<BitChance>, i: int, x: int, st: Seq<u8>, v: u32) -> (u32, Seq<BitChance>, int, Seq<u8>)
    decreases i,
{
    if i <= 0 {
        (v, mants, x, st)
    } else {
        let (bit, x2, st2) = bit_decode(mants[i - 1], x, st);
        let mants2 = mants.update(i - 1, mants[i - 1].stepped(bit, 8, 3));
        mant_run(mants2, i - 1, x2, st2, v | ((bit as u32) << ((i - 1) as u32)))
    }
}

impl NzCoder {
    /// The records that encoding `v` appends.
    pub open spec fn records_for(&self, v: u32) -> Seq<BitRec> {
        if v == 0 {
            seq![BitRec { f0: self.zero().p() as u32, bit: 0 }]
        } else {
            let e = top_bit(v as int);
            seq![BitRec { f0: self.zero().p() as u32, bit: 1 }] + Seq::new(
                e as nat,
                |i: int| BitRec { f0: self.exps()[i].p() as u32, bit: 1 },
            ) + seq![BitRec { f0: self.exps()[e].p() as u32, bit: 0 }] + Seq::new(
                e as nat,
                |k: int| BitRec { f0: self.mants()[e - 1 - k].p() as u32, bit: bit_at(v, e - 1 - k) as u8 },
            )
        }
    }

    /// The top-bit chances after encoding a value whose top bit is `e`.
    pub open spec fn exps_after(&self, e: int) -> Seq<BitChance> {
        Seq::new(
            16,
            |i: int|
                if i < e {
                    self.exps()[i].stepped(1, 8, 3)
                } else if i == e {
                    self.exps()[i].stepped(0, 8, 3)
                } else {
                    self.exps()[i]
                },
        )
    }

    /// The lower-bit chances after encoding `v`, whose top bit is `e`.
    pub open spec fn mants_after(&self, v: u32, e: int) -> Seq<BitChance> {
        Seq::new(16, |i: int| if i < e { self.mants()[i].stepped(bit_at(v, i), 8, 3) } else { self.mants()[i] })
    }

    /// Appends the records for `v` and adapts every chance it used.
    pub fn encode(&mut self, recs: &mut Vec<BitRec>, v: u32)
        requires
            v < 65536,
            old(self).wf(),
        ensures
            final(self).wf(),
            final(recs)@ == old(recs)@ + old(self).records_for(v),
            old(self).records_for(v) == state_records(old(self).state(), v),
            final(self).state() == state_after(old(self).state(), v),
            final(self).zero() == old(self).zero().stepped(if v == 0 { 0int } else { 1int }, 14, 5),
            v == 0 ==> final(self).exps() == old(self).exps() && final(self).mants() == old(self).mants(),
            v != 0 ==> final(self).exps() == old(self).exps_after(top_bit(v as int)),
            v != 0 ==> final(self).mants() == old(self).mants_after(v, top_bit(v as int)),
            forall|i: int| 0 <= i < final(recs)@.len() ==> 1 <= #[trigger] final(recs)@[i].f0 <= 4095 || i < old(recs)@.len(),
    {
        let ghost recs0 = recs@;
        let ghost c0 = *self;
        if v == 0 {
            self.zero.record_bit(recs, 0, ZERO_LIMIT, ZERO_DELTA);
            proof {
                assert(recs@ =~= recs0 + c0.records_for(v));
            }
            return;
        }
        assert(c0.wf());
        self.zero.record_bit(recs, 1, ZERO_LIMIT, ZERO_DELTA);
        proof {
            assert(two_to(16) == 65536) by {
                reveal_with_fuel(two_to, 17);
            }
            lemma_top_bit_below(v as int, 15);
        }
        let mut e: usize = 0;
        let mut w: u32 = v;
        while w > 1
            invariant
                1 <= w <= v,
                e + top_bit(w as int) == top_bit(v as int),
                top_bit(v as int) <= 15,
                e <= 15,
            decreases w,
        {
            proof {
                lemma_top_bit_nonneg((w / 2) as int);
            }
            w = w / 2;
            e += 1;
        }
        let ghost e0 = e as int;
        let mut i: usize = 0;
        while i < e
            invariant
                e == e0 == top_bit(v as int),
                e <= 15,
                i <= e,
                self.exp@.len() == 16,
                self.mant@ == c0.mant@,
                self.zero == c0.zero.stepped(1, 14, 5),
                recs@ == recs0 + c0.records_for(v).take(1 + i),
                forall|j: int| 0 <= j < 16 ==> #[trigger] self.exp@[j] == (if j < i { c0.exp@[j].stepped(1, 8, 3) } else { c0.exp@[j] }),
            decreases e - i,
        {
            let mut c = self.exp[i];
            c.record_bit(recs, 1, EXP_LIMIT, EXP_DELTA);
            self.exp.set(i, c);
            proof {
                assert(c0.records_for(v).take(2 + i) =~= c0.records_for(v).take(1 + i).push(c0.records_for(v)[1 + i]));
            }
            i += 1;
        }
        let mut c = self.exp[e];
        c.record_bit(recs, 0, EXP_LIMIT, EXP_DELTA);
        self.exp.set(e, c);
        proof {
            assert(c0.records_for(v).take(2 + e) =~= c0.records_for(v).take(1 + e).push(c0.records_for(v)[1 + e]));
            assert(self.exp@ =~= c0.exps_after(e as int));
        }
        let mut k: usize = e;
        while k > 0
            invariant
                e == e0 == top_bit(v as int),
                e <= 15,
                k <= e,
                self.mant@.len() == 16,
                self.exp@.len() == 16,
                self.exp@ == c0.exps_after(e as int),
                self.zero == c0.zero.stepped(1, 14, 5),
                recs@ == recs0 + c0.records_for(v).take(2 + e + (e - k)),
                forall|j: int| 0 <= j < 16 ==> #[trigger] self.mant@[j] == (if k <= j < e { c0.mant@[j].stepped(bit_at(v, j), 8, 3) } else { c0.mant@[j] }),
            decreases k,
        {
            k -= 1;
            let mut c = self.mant[k];
            let b = (v >> (k as u32)) & 1;
            assert(b <= 1) by (bit_vector)
                requires b == (v >> (k as u32)) & 1;
            c.record_bit(recs, b, MANT_LIMIT, MANT_DELTA);
            self.mant.set(k, c);
            proof {
                let n = 2 + e + (e - k);
                assert(c0.records_for(v).take(n as int) =~= c0.records_for(v).take(n - 1).push(c0.records_for(v)[n - 1]));
            }
        }
        proof {
            assert(c0.records_for(v).len() == 2 + 2 * e);
            assert(c0.records_for(v).take(2 + 2 * e) =~= c0.records_for(v));
            assert(self.mant@ =~= c0.mants_after(v, e as int));
            assert forall|j: int| 0 <= j < c0.records_for(v).len() implies 1 <= #[trigger] c0.records_for(v)[j].f0 <= 4095 by {
                let r = c0.records_for(v);
                if j == 0 {
                } else if j < 1 + e {
                    assert(1 <= c0.exps()[j - 1].p() <= 4095);
                } else if j == 1 + e {
                    assert(1 <= c0.exps()[e as int].p() <= 4095);
                } else {
                    assert(1 <= c0.mants()[e - 1 - (j - 2 - e)].p() <= 4095);
                }
            }
        }
    }
}


impl NzCoder {
    /// What decoding from state `x` and stack `st` gives: the value (`None`
    /// when all sixteen top-bit positions decode as 1), the chances after, and
    /// the decoder's state and stack after.
    pub open spec fn decode_result(&self, x: int, st: Seq<u8>) -> (Option<u32>, BitChance, Seq<BitChance>, Seq<BitChance>, int, Seq<u8>) {
        let (z, x1, st1) = bit_decode(self.zero(), x, st);
        let zero2 = self.zero().stepped(z, 14, 5);
        if z == 0 {
            (Some(0u32), zero2, self.exps(), self.mants(), x1, st1)
        } else {
            let (e, exps2, x2, st2) = exp_run(self.exps(), 0, x1, st1);
            if e >= 16 {
                (None, zero2, exps2, self.mants(), x2, st2)
            } else {
                let (v, mants2, x3, st3) = mant_run(self.mants(), e, x2, st2, 1u32 << (e as u32));
                (Some(v), zero2, exps2, mants2, x3, st3)
            }
        }
    }

    /// Decodes one value, adapting the chances as the encoder did. A stream
    /// whose top-bit run does not end within sixteen positions gives `None`.
    pub fn decode(&mut self, dec: &mut RansDecoder) -> (r: Option<u32>)
        requires
            old(self).wf(),
        ensures
            final(self).wf(),
            (r, final(self).zero(), final(self).exps(), final(self).mants(), final(dec).state(), final(dec).stack())
                == old(self).decode_result(old(dec).state(), old(dec).stack()),
            (r, final(self).state(), final(dec).state(), final(dec).stack()) == state_decode(
                old(self).state(),
                old(dec).state(),
                old(dec).stack(),
            ),
    {
        let ghost c0 = *self;
        let ghost x0 = dec.state();
        let ghost st0 = dec.stack();
        let z = self.zero.decode_bit(dec, ZERO_LIMIT, ZERO_DELTA);
        let ghost x1 = dec.state();
        let ghost st1 = dec.stack();
        assert(bit_decode(c0.zero, x0, st0) == (z as int, x1, st1));
        if z == 0 {
            return Some(0);
        }
        let mut e: usize = 0;
        loop
            invariant_except_break
                c0.wf(),
                c0 == *old(self),
                x0 == old(dec).state(),
                st0 == old(dec).stack(),
                bit_decode(c0.zero, x0, st0) == (1int, x1, st1),
                e <= 16,
                self.exp@.len() == 16,
                self.mant@ == c0.mant@,
                self.zero == c0.zero.stepped(1, 14, 5),
                forall|i: int| 0 <= i < 16 ==> 1 <= #[trigger] self.exp@[i].p() <= 4095,
                exp_run(c0.exp@, 0, x1, st1) == exp_run(self.exp@, e as int, dec.state(), dec.stack()),
                1 <= self.zero.p() <= 4095,
            ensures
                c0.wf(),
                c0 == *old(self),
                x0 == old(dec).state(),
                st0 == old(dec).stack(),
                bit_decode(c0.zero, x0, st0) == (1int, x1, st1),
                e < 16,
                self.exp@.len() == 16,
                self.mant@ == c0.mant@,
                self.zero == c0.zero.stepped(1, 14, 5),
                forall|i: int| 0 <= i < 16 ==> 1 <= #[trigger] self.exp@[i].p() <= 4095,
                exp_run(c0.exp@, 0, x1, st1) == (e as int, self.exp@, dec.state(), dec.stack()),
                1 <= self.zero.p() <= 4095,
            decreases 16 - e,
        {
            if e == 16 {
                assert(self.wf());
                return None;
            }
            let mut c = self.exp[e];
            let b = c.decode_bit(dec, EXP_LIMIT, EXP_DELTA);
            self.exp.set(e, c);
            if b == 0 {
                break;
            }
            e += 1;
        }
        let ghost x2 = dec.state();
        let ghost st2 = dec.stack();
        let mut v: u32 = 1u32 << (e as u32);
        let mut i: usize = e;
        while i > 0
            invariant
                c0.wf(),
                c0 == *old(self),
                x0 == old(dec).state(),
                st0 == old(dec).stack(),
                bit_decode(c0.zero, x0, st0) == (1int, x1, st1),
                exp_run(c0.exp@, 0, x1, st1) == (e as int, self.exp@, x2, st2),
                self.exp@.len() == 16,
                self.zero == c0.zero.stepped(1, 14, 5),
                forall|j: int| 0 <= j < 16 ==> 1 <= #[trigger] self.exp@[j].p() <= 4095,
                1 <= self.zero.p() <= 4095,
                i <= e < 16,
                self.mant@.len() == 16,
                forall|j: int| 0 <= j < 16 ==> 1 <= #[trigger] self.mant@[j].p() <= 4095,
                mant_run(c0.mant@, e as int, x2, st2, 1u32 << (e as u32)) == mant_run(self.mant@, i as int, dec.state(), dec.stack(), v),
            decreases i,
        {
            i -= 1;
            let mut c = self.mant[i];
            let b = c.decode_bit(dec, MANT_LIMIT, MANT_DELTA);
            self.mant.set(i, c);
            v = v | (b << (i as u32));
        }
        assert(self.wf());
        Some(v)
    }
}


/// What a value coder has learnt: its zero chance, its top-bit chances and
/// its lower-bit chances.
pub type CoderState = (BitChance, Seq<BitChance>, Seq<BitChance>);

/// The state of a coder that has learnt nothing.
pub open spec fn fresh_state() -> CoderState {
    (BitChance::even(), Seq::new(16, |_i: int| BitChance::even()), Seq::new(16, |_i: int| BitChance::even()))
}

/// Sixteen chances of each kind, all inside `1..ANS_M`.
pub open spec fn state_wf(s: CoderState) -> bool {
    &&& s.1.len() == 16
    &&& s.2.len() == 16
    &&& s.0.in_range()
    &&& forall|i: int| 0 <= i < 16 ==> (#[trigger] s.1[i]).in_range()
    &&& forall|i: int| 0 <= i < 16 ==> (#[trigger] s.2[i]).in_range()
}

/// The records that coding `v` from state `s` appends: a 0 bit for zero; else
/// a 1 bit, the top bit's position in unary, then the bits below it.
pub open spec fn state_records(s: CoderState, v: u32) -> Seq<BitRec> {
    if v == 0 {
        seq![BitRec { f0: s.0.p() as u32, bit: 0 }]
    } else {
        let e = top_bit(v as int);
        seq![BitRec { f0: s.0.p() as u32, bit: 1 }] + Seq::new(e as nat, |i: int| BitRec { f0: s.1[i].p() as u32, bit: 1 })
            + seq![BitRec { f0: s.1[e].p() as u32, bit: 0 }] + Seq::new(
            e as nat,
            |k: int| BitRec { f0: s.2[e - 1 - k].p() as u32, bit: bit_at(v, e - 1 - k) as u8 },
        )
    }
}

/// The state after coding `v` from state `s`.
pub open spec fn state_after(s: CoderState, v: u32) -> CoderState {
    if v == 0 {
        (s.0.stepped(0, 14, 5), s.1, s.2)
    } else {
        let e = top_bit(v as int);
        (
            s.0.stepped(1, 14, 5),
            Seq::new(
                16,
                |i: int|
                    if i < e {
                        s.1[i].stepped(1, 8, 3)
                    } else if i == e {
                        s.1[i].stepped(0, 8, 3)
                    } else {
                        s.1[i]
                    },
            ),
            Seq::new(16, |i: int| if i < e { s.2[i].stepped(bit_at(v, i), 8, 3) } else { s.2[i] }),
        )
    }
}

/// What decoding one value from state `s` gives, with the decoder at state
/// `x` and stack `st`: the value (`None` when every top-bit position decodes
/// as 1), the coder's state after, and the decoder's state and stack after.
pub open spec fn state_decode(s: CoderState, x: int, st: Seq<u8>) -> (Option<u32>, CoderState, int, Seq<u8>) {
    let (z, x1, st1) = bit_decode(s.0, x, st);
    let zero2 = s.0.stepped(z, 14, 5);
    if z == 0 {
        (Some(0u32), (zero2, s.1, s.2), x1, st1)
    } else {
        let (e, exps2, x2, st2) = exp_run(s.1, 0, x1, st1);
        if e >= 16 {
            (None, (zero2, exps2, s.2), x2, st2)
        } else {
            let (v, mants2, x3, st3) = mant_run(s.2, e, x2, st2, 1u32 << (e as u32));
            (Some(v), (zero2, exps2, mants2), x3, st3)
        }
    }
}

/// Coding keeps a state well formed.
pub proof fn lemma_state_after_wf(s: CoderState, v: u32)
    requires
        state_wf(s),
    ensures
        state_wf(state_after(s, v)),
{
    BitChance::lemma_stepped_in_range(s.0, 0, 14, 5);
    BitChance::lemma_stepped_in_range(s.0, 1, 14, 5);
    let t = state_after(s, v);
    assert forall|i: int| 0 <= i < 16 implies (#[trigger] t.1[i]).in_range() by {
        BitChance::lemma_stepped_in_range(s.1[i], 1, 8, 3);
        BitChance::lemma_stepped_in_range(s.1[i], 0, 8, 3);
    }
    assert forall|i: int| 0 <= i < 16 implies (#[trigger] t.2[i]).in_range() by {
        BitChance::lemma_stepped_in_range(s.2[i], bit_at(v, i), 8, 3);
    }
}

/// The fresh state is well formed.
pub proof fn lemma_fresh_state_wf()
    ensures
        state_wf(fresh_state()),
{
    BitChance::lemma_stepped_in_range(BitChance::even(), 0, 0, 1);
}

proof fn lemma_top_bit_bounds(v: int)
    requires
        v >= 1,
    ensures
        two_to(top_bit(v)) <= v < two_to(top_bit(v) + 1),
    decreases v,
{
    lemma_top_bit_nonneg(v);
    if v > 1 {
        lemma_top_bit_bounds(v / 2);
        lemma_top_bit_nonneg(v / 2);
        assert(two_to(top_bit(v)) == 2 * two_to(top_bit(v / 2)));
        assert(two_to(top_bit(v) + 1) == 2 * two_to(top_bit(v / 2) + 1));
    } else {
        assert(two_to(1) == 2) by {
            reveal_with_fuel(two_to, 2);
        }
    }
}

proof fn lemma_shift_double(e: u32)
    by (bit_vector)
    requires
        e < 31,
    ensures
        (1u32 << (e + 1)) == 2 * (1u32 << e),
        (1u32 << 0u32) == 1u32,
{
}

proof fn lemma_two_to_shift(e: u32)
    requires
        e <= 31,
    ensures
        (1u32 << e) == two_to(e as int),
    decreases e,
{
    if e == 0 {
        lemma_shift_double(0);
    } else {
        lemma_two_to_shift((e - 1) as u32);
        lemma_shift_double((e - 1) as u32);
    }
}

proof fn lemma_high_bits(v: u32, e: u32)
    by (bit_vector)
    requires
        e < 16,
        (1u32 << e) <= v,
        v < (1u32 << (e + 1)),
    ensures
        (v >> e) << e == (1u32 << e),
{
}

proof fn lemma_low_bit_step(v: u32, i: u32)
    by (bit_vector)
    requires
        1 <= i <= 16,
    ensures
        ((v >> i) << i) | (((v >> ((i - 1) as u32)) & 1) << ((i - 1) as u32)) == (v >> ((i - 1) as u32)) << ((i - 1) as u32),
        (v >> 0u32) << 0u32 == v,
        (v >> ((i - 1) as u32)) & 1 <= 1,
{
}

/// A bit recorded with chance `c` at symbol `k` of a stream decodes back
/// there with `c`.
proof fn lemma_bit_roundtrip(c: BitChance, b: int, syms: Seq<(int, int)>, k: int)
    requires
        c.in_range(),
        0 <= b <= 1,
        valid_symbols(syms),
        0 <= k < syms.len(),
        syms[k] == rec_symbol(BitRec { f0: c.p() as u32, bit: b as u8 }),
    ensures
        bit_decode(c, encode_from(syms, k).0, encode_from(syms, k).1) == (b, encode_from(syms, k + 1).0, encode_from(
            syms,
            k + 1,
        ).1),
{
    law_stream_roundtrip(syms, k);
}

/// The symbols that a run of records stands for sit at `k..` of `syms`.
pub open spec fn records_at(syms: Seq<(int, int)>, k: int, recs: Seq<BitRec>) -> bool {
    &&& 0 <= k
    &&& k + recs.len() <= syms.len()
    &&& forall|j: int| 0 <= j < recs.len() ==> syms[k + j] == rec_symbol(#[trigger] recs[j])
}

proof fn lemma_exp_run_roundtrip(s: CoderState, v: u32, syms: Seq<(int, int)>, k: int, i: int)
    requires
        state_wf(s),
        1 <= v < 65536,
        valid_symbols(syms),
        records_at(syms, k, state_records(s, v)),
        0 <= i <= top_bit(v as int),
    ensures
        ({
            let e = top_bit(v as int);
            let exps_i = Seq::new(16, |j: int| if j < i { s.1[j].stepped(1, 8, 3) } else { s.1[j] });
            exp_run(exps_i, i, encode_from(syms, k + 1 + i).0, encode_from(syms, k + 1 + i).1) == (
                e,
                state_after(s, v).1,
                encode_from(syms, k + 2 + e).0,
                encode_from(syms, k + 2 + e).1,
            )
        }),
    decreases top_bit(v as int) - i,
{
    let e = top_bit(v as int);
    let recs = state_records(s, v);
    lemma_top_bit_bounds(v as int);
    assert(two_to(16) == 65536) by {
        reveal_with_fuel(two_to, 17);
    }
    lemma_top_bit_below(v as int, 15);
    let exps_i = Seq::new(16, |j: int| if j < i { s.1[j].stepped(1, 8, 3) } else { s.1[j] });
    assert(exps_i[i] == s.1[i]);
    if i < e {
        assert(recs[1 + i] == BitRec { f0: s.1[i].p() as u32, bit: 1 });
        assert(syms[k + (1 + i)] == rec_symbol(recs[1 + i]));
        lemma_bit_roundtrip(s.1[i], 1, syms, k + 1 + i);
        lemma_exp_run_roundtrip(s, v, syms, k, i + 1);
        let exps_n = Seq::new(16, |j: int| if j < i + 1 { s.1[j].stepped(1, 8, 3) } else { s.1[j] });
        assert(exps_i.update(i, exps_i[i].stepped(1, 8, 3)) =~= exps_n);
    } else {
        assert(recs[1 + e] == BitRec { f0: s.1[e].p() as u32, bit: 0 });
        assert(syms[k + (1 + e)] == rec_symbol(recs[1 + e]));
        lemma_bit_roundtrip(s.1[e], 0, syms, k + 1 + e);
        assert(exps_i.update(e, exps_i[e].stepped(0, 8, 3)) =~= state_after(s, v).1);
    }
}

proof fn lemma_mant_run_roundtrip(s: CoderState, v: u32, syms: Seq<(int, int)>, k: int, i: int)
    requires
        state_wf(s),
        1 <= v < 65536,
        valid_symbols(syms),
        records_at(syms, k, state_records(s, v)),
        0 <= i <= top_bit(v as int),
    ensures
        ({
            let e = top_bit(v as int);
            let mants_i = Seq::new(16, |j: int| if i <= j < e { s.2[j].stepped(bit_at(v, j), 8, 3) } else { s.2[j] });
            let pos = k + 2 + e + (e - i);
            mant_run(mants_i, i, encode_from(syms, pos).0, encode_from(syms, pos).1, (v >> (i as u32)) << (i as u32)) == (
                v,
                state_after(s, v).2,
                encode_from(syms, k + 2 + 2 * e).0,
                encode_from(syms, k + 2 + 2 * e).1,
            )
        }),
    decreases i,
{
    let e = top_bit(v as int);
    let recs = state_records(s, v);
    lemma_top_bit_bounds(v as int);
    assert(two_to(16) == 65536) by {
        reveal_with_fuel(two_to, 17);
    }
    lemma_top_bit_below(v as int, 15);
    let mants_i = Seq::new(16, |j: int| if i <= j < e { s.2[j].stepped(bit_at(v, j), 8, 3) } else { s.2[j] });
    if i == 0 {
        lemma_low_bit_step(v, 1);
        assert(mants_i =~= state_after(s, v).2);
    } else {
        let pos = k + 2 + e + (e - i);
        let m = e - i;
        assert(recs[2 + e + m] == BitRec { f0: s.2[e - 1 - m].p() as u32, bit: bit_at(v, e - 1 - m) as u8 });
        assert(syms[k + (2 + e + m)] == rec_symbol(recs[2 + e + m]));
        lemma_low_bit_step(v, i as u32);
        assert(mants_i[i - 1] == s.2[i - 1]);
        lemma_bit_roundtrip(s.2[i - 1], bit_at(v, i - 1), syms, pos);
        lemma_mant_run_roundtrip(s, v, syms, k, i - 1);
        let mants_n = Seq::new(16, |j: int| if i - 1 <= j < e { s.2[j].stepped(bit_at(v, j), 8, 3) } else { s.2[j] });
        assert(mants_i.update(i - 1, mants_i[i - 1].stepped(bit_at(v, i - 1), 8, 3)) =~= mants_n);
    }
}

/// A value coded from state `s`, whose records sit at symbol `k` of a stream,
/// decodes back from there with the same state: the same value, the state
/// that coding it left, and the decoder at the symbols after its records.
pub proof fn law_value_roundtrip(s: CoderState, v: u32, syms: Seq<(int, int)>, k: int)
    requires
        state_wf(s),
        v < 65536,
        valid_symbols(syms),
        records_at(syms, k, state_records(s, v)),
    ensures
        state_decode(s, encode_from(syms, k).0, encode_from(syms, k).1) == (
            Some(v),
            state_after(s, v),
            encode_from(syms, k + state_records(s, v).len()).0,
            encode_from(syms, k + state_records(s, v).len()).1,
        ),
{
    let recs = state_records(s, v);
    if v == 0 {
        assert(syms[k + 0] == rec_symbol(recs[0]));
        lemma_bit_roundtrip(s.0, 0, syms, k);
    } else {
        let e = top_bit(v as int);
        lemma_top_bit_bounds(v as int);
        assert(two_to(16) == 65536) by {
            reveal_with_fuel(two_to, 17);
        }
        lemma_top_bit_below(v as int, 15);
        lemma_top_bit_nonneg(v as int);
        assert(recs.len() == 2 + 2 * e);
        assert(syms[k + 0] == rec_symbol(recs[0]));
        lemma_bit_roundtrip(s.0, 1, syms, k);
        lemma_exp_run_roundtrip(s, v, syms, k, 0);
        assert(Seq::new(16, |j: int| if j < 0 { s.1[j].stepped(1, 8, 3) } else { s.1[j] }) =~= s.1);
        lemma_mant_run_roundtrip(s, v, syms, k, e);
        assert(Seq::new(16, |j: int| if e <= j < e { s.2[j].stepped(bit_at(v, j), 8, 3) } else { s.2[j] }) =~= s.2);
        lemma_two_to_shift(e as u32);
        lemma_two_to_shift((e + 1) as u32);
        lemma_high_bits(v, e as u32);
    }
}

/// The records of a value coded from a well-formed state use chances inside
/// `1..ANS_M`.
pub proof fn lemma_records_valid(s: CoderState, v: u32)
    requires
        state_wf(s),
        v < 65536,
    ensures
        forall|j: int| 0 <= j < state_records(s, v).len() ==> 1 <= #[trigger] state_records(s, v)[j].f0 <= 4095,
{
    if v != 0 {
        let e = top_bit(v as int);
        assert(two_to(16) == 65536) by {
            reveal_with_fuel(two_to, 17);
        }
        lemma_top_bit_below(v as int, 15);
        lemma_top_bit_nonneg(v as int);
        let r = state_records(s, v);
        assert forall|j: int| 0 <= j < r.len() implies 1 <= #[trigger] r[j].f0 <= 4095 by {
            if j == 0 {
            } else if j < 1 + e {
                assert(s.1[j - 1].in_range());
            } else if j == 1 + e {
                assert(s.1[e].in_range());
            } else {
                assert(s.2[e - 1 - (j - 2 - e)].in_range());
            }
        }
    }
}

/// Records with chances inside `1..ANS_M` stand for valid symbols.
pub proof fn lemma_valid_records(recs: Seq<BitRec>)
    requires
        forall|j: int| 0 <= j < recs.len() ==> 1 <= #[trigger] recs[j].f0 <= 4095,
    ensures
        valid_symbols(recs.map_values(|x: BitRec| rec_symbol(x))),
{
    let syms = recs.map_values(|x: BitRec| rec_symbol(x));
    assert forall|i: int| 0 <= i < syms.len() implies 0 <= #[trigger] syms[i].0 && 0 < syms[i].1 && syms[i].0 + syms[i].1 <= 4096 by {
        assert(1 <= recs[i].f0 <= 4095);
    }
}

/// The sum of `s`.
pub open spec fn seq_sum(s: Seq<u32>) -> int
    decreases s.len(),
{
    if s.len() == 0 {
        0
    } else {
        seq_sum(s.drop_last()) + s.last()
    }
}

pub proof fn lemma_seq_sum_prefix_monotone(s: Seq<u32>, i: int, j: int)
    requires
        0 <= i <= j <= s.len(),
    ensures
        seq_sum(s.take(i)) <= seq_sum(s.take(j)),
    decreases j - i,
{
    if i < j {
        lemma_seq_sum_prefix_monotone(s, i, j - 1);
        assert(s.take(j).drop_last() =~= s.take(j - 1));
    }
}

/// Running totals: `cum[i]` is the sum of `freqs[..i]`, for every `i` up to
/// and including `freqs.len()`.
pub fn build_cum_freqs(freqs: &[u32]) -> (cum: Vec<u32>)
    requires
        seq_sum(freqs@) <= u32::MAX,
    ensures
        cum@.len() == freqs@.len() + 1,
        forall|i: int| 0 <= i <= freqs@.len() ==> #[trigger] cum@[i] == seq_sum(freqs@.take(i)),
{
    let mut cum: Vec<u32> = Vec::new();
    let mut sum: u32 = 0;
    let mut i: usize = 0;
    proof {
        assert(freqs@.take(freqs@.len() as int) =~= freqs@);
    }
    while i < freqs.len()
        invariant
            i <= freqs@.len(),
            seq_sum(freqs@) <= u32::MAX,
            freqs@.take(freqs@.len() as int) == freqs@,
            sum == seq_sum(freqs@.take(i as int)),
            cum@.len() == i,
            forall|j: int| 0 <= j < i ==> #[trigger] cum@[j] == seq_sum(freqs@.take(j)),
        decreases freqs@.len() - i,
    {
        cum.push(sum);
        proof {
            assert(freqs@.take(i + 1).drop_last() =~= freqs@.take(i as int));
            lemma_seq_sum_prefix_monotone(freqs@, i + 1, freqs@.len() as int);
        }
        sum = sum + freqs[i];
        i += 1;
    }
    cum.push(sum);
    cum
}

/// The symbol that owns slot `s` among the first `n` symbols: the last one
/// whose range `cum[sym]..cum[sym + 1]` holds `s`, or 0 when none does.
pub open spec fn slot_owner(cum: Seq<u32>, s: int, n: int) -> int
    decreases n,
{
    if n <= 0 {
        0
    } else if cum[n - 1] <= s < cum[n] {
        n - 1
    } else {
        slot_owner(cum, s, n - 1)
    }
}

/// The symbol for each of the `ANS_M` slots, from cumulative frequencies.
pub fn build_slot_table(cum: &[u32]) -> (slots: Vec<u16>)
    requires
        forall|k: int| 0 <= k < cum@.len() - 1 ==> #[trigger] cum@[k] < cum@[k + 1] ==> cum@[k + 1] <= 4096,
    ensures
        slots@.len() == 4096,
        forall|s: int| 0 <= s < 4096 ==> #[trigger] slots@[s] == slot_owner(cum@, s, cum@.len() - 1) as u16,
{
    let mut slots: Vec<u16> = vec![0u16; 4096];
    let n: usize = if cum.len() > 0 { cum.len() - 1 } else { 0 };
    let mut sym: usize = 0;
    while sym < n
        invariant
            n == (if cum@.len() > 0 { cum@.len() - 1 } else { 0 }),
            sym <= n,
            slots@.len() == 4096,
            forall|k: int| 0 <= k < cum@.len() - 1 ==> #[trigger] cum@[k] < cum@[k + 1] ==> cum@[k + 1] <= 4096,
            forall|s: int| 0 <= s < 4096 ==> #[trigger] slots@[s] == slot_owner(cum@, s, sym as int) as u16,
        decreases n - sym,
    {
        let lo = cum[sym];
        let hi = cum[sym + 1];
        let mut t = lo;
        while t < hi
            invariant
                lo == cum@[sym as int],
                hi == cum@[sym + 1],
                sym < n,
                n == cum@.len() - 1,
                lo < hi ==> hi <= 4096,
                lo <= t <= hi || (hi <= lo && t == lo),
                slots@.len() == 4096,
                forall|s: int| 0 <= s < 4096 ==> #[trigger] slots@[s] == (if lo <= s < t { sym as u16 } else { slot_owner(cum@, s, sym as int) as u16 }),
            decreases hi - t,
        {
            slots.set(t as usize, sym as u16);
            t += 1;
        }
        sym += 1;
    }
    slots
}


/// How many entries of `s` are at least `t`.
pub open spec fn count_ge(s: Seq<u32>, t: int) -> int
    decreases s.len(),
{
    if s.len() == 0 {
        0
    } else {
        count_ge(s.drop_last(), t) + if s.last() >= t { 1int } else { 0int }
    }
}

/// How many entries of `s` equal `t`.
pub open spec fn count_eq(s: Seq<u32>, t: int) -> int
    decreases s.len(),
{
    if s.len() == 0 {
        0
    } else {
        count_eq(s.drop_last(), t) + if s.last() == t { 1int } else { 0int }
    }
}

/// The place of entry `i` when the entries are ordered by value, largest
/// first, equal values in index order.
pub open spec fn rank(s: Seq<u32>, i: int) -> int {
    count_ge(s, s[i] + 1) + count_eq(s.take(i), s[i] as int)
}

/// The index of the last largest entry of a non-empty `s`.
pub open spec fn last_max_index(s: Seq<u32>) -> int
    decreases s.len(),
{
    if s.len() <= 1 {
        0
    } else {
        let k = last_max_index(s.drop_last());
        if s.last() >= s[k] {
            s.len() - 1
        } else {
            k
        }
    }
}

/// The provisional table of the proportional branch: nothing for an unused
/// symbol, else its scaled share of `4096 - active` plus one.
pub open spec fn scaled_counts(s: Seq<u32>, active: int, total: int) -> Seq<u32> {
    Seq::new(s.len(), |i: int| if s[i] == 0 { 0u32 } else { ((s[i] * (4096 - active)) / total + 1) as u32 })
}

/// The frequency table that `normalize_counts` builds from `counts`.
pub open spec fn normalized_table(counts: Seq<u32>) -> Seq<u32> {
    let active = count_ge(counts, 1);
    if active == 0 {
        Seq::new(counts.len(), |i: int| 0u32)
    } else if active > 4096 {
        Seq::new(counts.len(), |i: int| if counts[i] > 0 && rank(counts, i) < 4096 { 1u32 } else { 0u32 })
    } else {
        let base = scaled_counts(counts, active, seq_sum(counts));
        let m = last_max_index(counts);
        base.update(m, (base[m] + (4096 - seq_sum(base))) as u32)
    }
}

proof fn lemma_count_split(s: Seq<u32>, v: int)
    ensures
        count_ge(s, v) == count_ge(s, v + 1) + count_eq(s, v),
    decreases s.len(),
{
    if s.len() > 0 {
        lemma_count_split(s.drop_last(), v);
    }
}

proof fn lemma_count_ge_antitone(s: Seq<u32>, t1: int, t2: int)
    requires
        t1 <= t2,
    ensures
        count_ge(s, t2) <= count_ge(s, t1),
    decreases s.len(),
{
    if s.len() > 0 {
        lemma_count_ge_antitone(s.drop_last(), t1, t2);
    }
}

proof fn lemma_count_eq_prefix(s: Seq<u32>, j: int, v: int)
    requires
        0 <= j <= s.len(),
    ensures
        count_eq(s.take(j), v) <= count_eq(s, v),
    decreases s.len() - j,
{
    if j < s.len() {
        lemma_count_eq_prefix(s, j + 1, v);
        assert(s.take(j + 1).drop_last() =~= s.take(j));
    } else {
        assert(s.take(j) =~= s);
    }
}

proof fn lemma_count_eq_before(s: Seq<u32>, i: int)
    requires
        0 <= i < s.len(),
    ensures
        count_eq(s.take(i), s[i] as int) + 1 <= count_eq(s, s[i] as int),
{
    lemma_count_eq_prefix(s, i + 1, s[i] as int);
    assert(s.take(i + 1).drop_last() =~= s.take(i));
}

pub proof fn lemma_seq_sum_bound(s: Seq<u32>)
    ensures
        0 <= seq_sum(s) <= s.len() * 4294967295,
    decreases s.len(),
{
    if s.len() > 0 {
        lemma_seq_sum_bound(s.drop_last());
    }
}

/// Scales symbol counts to a frequency table for rANS. With no used symbol
/// every frequency is 0. With more used symbols than `ANS_M`, the `ANS_M`
/// most frequent (ties by index) get 1 and the rest 0. Otherwise every used
/// symbol gets its proportional share of `ANS_M - active`, plus one, and the
/// last most frequent symbol takes what is left over.
pub fn normalize_counts(counts: &[u32]) -> (r: Vec<u32>)
    requires
        seq_sum(counts@) <= u64::MAX,
    ensures
        r@ == normalized_table(counts@),
{
    let n = counts.len();
    let mut total: u64 = 0;
    let mut active: usize = 0;
    let mut i: usize = 0;
    proof {
        assert(counts@.take(n as int) =~= counts@);
    }
    while i < n
        invariant
            n == counts@.len(),
            i <= n,
            counts@.take(n as int) == counts@,
            seq_sum(counts@) <= u64::MAX,
            total == seq_sum(counts@.take(i as int)),
            active == count_ge(counts@.take(i as int), 1),
            active <= i,
        decreases n - i,
    {
        proof {
            assert(counts@.take(i + 1).drop_last() =~= counts@.take(i as int));
            lemma_seq_sum_prefix_monotone(counts@, i + 1, n as int);
        }
        total = total + counts[i] as u64;
        if counts[i] > 0 {
            active += 1;
        }
        i += 1;
    }
    if active == 0 {
        let r = vec![0u32; n];
        proof {
            assert(r@ =~= normalized_table(counts@));
        }
        return r;
    }
    if active > 4096 {
        return keep_most_frequent(counts);
    }
    proof {
        lemma_sum_at_least_active(counts@);
    }
    let k: u64 = (4096 - active) as u64;
    let mut normalized: Vec<u32> = Vec::new();
    let mut sum: u32 = 0;
    let ghost mut floors: int = 0;
    let ghost mut seen: int = 0;
    let ghost base = scaled_counts(counts@, active as int, total as int);
    i = 0;
    while i < n
        invariant
            n == counts@.len(),
            i <= n,
            counts@.take(n as int) == counts@,
            total == seq_sum(counts@),
            active == count_ge(counts@, 1),
            1 <= active <= 4096,
            total >= 1,
            k == 4096 - active,
            base == scaled_counts(counts@, active as int, total as int),
            normalized@ == base.take(i as int),
            seq_sum(normalized@) == sum,
            sum == floors + seen,
            seen == count_ge(counts@.take(i as int), 1),
            floors * total <= k * seq_sum(counts@.take(i as int)),
            floors >= 0,
        decreases n - i,
    {
        let c = counts[i];
        proof {
            assert(counts@.take(i + 1).drop_last() =~= counts@.take(i as int));
            assert(base.take(i + 1).drop_last() =~= base.take(i as int));
            lemma_seq_sum_prefix_monotone(counts@, i + 1, n as int);
            lemma_count_ge_antitone(counts@.take(i as int), 1, 1);
        }
        let ghost prev = normalized@;
        if c == 0 {
            normalized.push(0);
            assert(normalized@.drop_last() =~= prev);
        } else {
            assert(c as u64 * k <= 4294967295 * 4096) by (nonlinear_arith)
                requires c <= 4294967295, k <= 4096;
            let val64 = (c as u64 * k) / total;
            proof {
                assert(c as int <= total) by {
                    lemma_elem_le_sum(counts@, i as int);
                }
                assert(val64 * total <= c * k) by (nonlinear_arith)
                    requires val64 == (c * k) / (total as int), total > 0;
                assert(val64 <= k) by (nonlinear_arith)
                    requires val64 == (c * k) / (total as int), total > 0, c <= total, k >= 0;
                assert((floors + val64) * total <= k * (seq_sum(counts@.take(i as int)) + c)) by (nonlinear_arith)
                    requires
                        floors * total <= k * seq_sum(counts@.take(i as int)),
                        val64 * total <= c * k;
                assert(floors + val64 <= k + 0) by (nonlinear_arith)
                    requires
                        (floors + val64) * total <= k * (seq_sum(counts@.take(i as int)) + c),
                        seq_sum(counts@.take(i as int)) + c <= total,
                        total > 0, k >= 0;
                assert(seen + 1 <= active) by {
                    lemma_count_ge_prefix(counts@, i + 1);
                }
            }
            let val = val64 as u32;
            normalized.push(val + 1);
            assert(normalized@.drop_last() =~= prev);
            proof {
                floors = floors + val64;
                seen = seen + 1;
            }
            sum = sum + val + 1;
        }
        i += 1;
    }
    proof {
        assert(base.take(n as int) =~= base);
        assert(floors * total <= k * total);
        assert(floors <= k) by (nonlinear_arith)
            requires floors * total <= k * total, total > 0;
    }
    let diff: u32 = 4096 - sum;
    let ghost m0 = last_max_index(counts@);
    assert(normalized@ == base);
    if diff > 0 {
        let m = last_max(counts);
        proof {
            lemma_elem_le_sum(normalized@, m as int);
        }
        let old_val = normalized[m];
        normalized.set(m, old_val + diff);
        assert(normalized@ == base.update(m0, (base[m0] + (4096 - seq_sum(base))) as u32));
    } else {
        assert(base.update(m0, (base[m0] + (4096 - seq_sum(base))) as u32) =~= base) by {
            lemma_last_max_in_range(counts@);
        }
    }
    normalized
}

proof fn lemma_last_max_in_range(s: Seq<u32>)
    requires
        s.len() > 0,
    ensures
        0 <= last_max_index(s) < s.len(),
    decreases s.len(),
{
    if s.len() > 1 {
        lemma_last_max_in_range(s.drop_last());
    }
}

proof fn lemma_count_nonneg(s: Seq<u32>, v: int)
    ensures
        count_eq(s, v) >= 0,
        count_ge(s, v) >= 0,
    decreases s.len(),
{
    if s.len() > 0 {
        lemma_count_nonneg(s.drop_last(), v);
    }
}

proof fn lemma_sum_at_least_active(s: Seq<u32>)
    ensures
        seq_sum(s) >= count_ge(s, 1),
    decreases s.len(),
{
    if s.len() > 0 {
        lemma_sum_at_least_active(s.drop_last());
    }
}

proof fn lemma_elem_le_sum(s: Seq<u32>, i: int)
    requires
        0 <= i < s.len(),
    ensures
        s[i] <= seq_sum(s),
    decreases s.len(),
{
    lemma_seq_sum_bound(s);
    if i < s.len() - 1 {
        lemma_elem_le_sum(s.drop_last(), i);
    } else {
        lemma_seq_sum_bound(s.drop_last());
    }
}

proof fn lemma_count_ge_prefix(s: Seq<u32>, j: int)
    requires
        0 <= j <= s.len(),
    ensures
        count_ge(s.take(j), 1) <= count_ge(s, 1),
    decreases s.len() - j,
{
    if j < s.len() {
        lemma_count_ge_prefix(s, j + 1);
        assert(s.take(j + 1).drop_last() =~= s.take(j));
    } else {
        assert(s.take(j) =~= s);
    }
}

/// The index of the last largest count.
fn last_max(counts: &[u32]) -> (m: usize)
    requires
        counts@.len() > 0,
    ensures
        m == last_max_index(counts@),
        m < counts@.len(),
{
    let mut m: usize = 0;
    let mut i: usize = 1;
    proof {
        assert(counts@.take(1).len() == 1);
    }
    while i < counts.len()
        invariant
            1 <= i <= counts@.len(),
            m == last_max_index(counts@.take(i as int)),
            m < i,
        decreases counts@.len() - i,
    {
        proof {
            assert(counts@.take(i + 1).drop_last() =~= counts@.take(i as int));
        }
        if counts[i] >= counts[m] {
            m = i;
        }
        i += 1;
    }
    proof {
        assert(counts@.take(counts@.len() as int) =~= counts@);
    }
    m
}


/// How many counts are at least `t`.
fn count_at_least(counts: &[u32], t: u64) -> (r: u64)
    ensures
        r == count_ge(counts@, t as int),
{
    let mut r: u64 = 0;
    let mut i: usize = 0;
    while i < counts.len()
        invariant
            i <= counts@.len(),
            r == count_ge(counts@.take(i as int), t as int),
            r <= i,
        decreases counts@.len() - i,
    {
        proof {
            assert(counts@.take(i + 1).drop_last() =~= counts@.take(i as int));
        }
        if counts[i] as u64 >= t {
            r += 1;
        }
        i += 1;
    }
    proof {
        assert(counts@.take(counts@.len() as int) =~= counts@);
    }
    r
}

/// Gives 1 to each of the `ANS_M` highest-ranked used symbols and 0 to the
/// rest.
fn keep_most_frequent(counts: &[u32]) -> (r: Vec<u32>)
    requires
        count_ge(counts@, 1) > 4096,
    ensures
        r@ == Seq::new(counts@.len(), |i: int| if counts@[i] > 0 && rank(counts@, i) < 4096 { 1u32 } else { 0u32 }),
{
    let n = counts.len();
    let mut mx: u64 = 0;
    let mut i: usize = 0;
    while i < n
        invariant
            n == counts@.len(),
            i <= n,
            mx <= u32::MAX,
            count_ge(counts@.take(i as int), mx + 1) == 0,
        decreases n - i,
    {
        proof {
            assert(counts@.take(i + 1).drop_last() =~= counts@.take(i as int));
        }
        proof {
            assert(counts@.take(i + 1).last() == counts@[i as int]);
        }
        if counts[i] as u64 > mx {
            proof {
                lemma_count_ge_antitone(counts@.take(i as int), mx + 1, counts@[i as int] + 1);
                lemma_count_nonneg(counts@.take(i as int), counts@[i as int] + 1);
            }
            mx = counts[i] as u64;
        }
        assert(count_ge(counts@.take(i + 1), mx + 1) == count_ge(counts@.take(i as int), mx + 1) + if counts@[i as int] >= mx + 1 { 1int } else { 0int });
        i += 1;
    }
    proof {
        assert(counts@.take(n as int) =~= counts@);
    }
    let mut lo: u64 = 1;
    let mut hi: u64 = mx + 1;
    while hi - lo > 1
        invariant
            1 <= lo < hi <= u32::MAX as u64 + 1,
            count_ge(counts@, lo as int) > 4096 || count_ge(counts@, lo as int) == 4096,
            count_ge(counts@, hi as int) < 4096,
        decreases hi - lo,
    {
        let mid = lo + (hi - lo) / 2;
        if count_at_least(counts, mid) >= 4096 {
            lo = mid;
        } else {
            hi = mid;
        }
    }
    let t = lo;
    let above = count_at_least(counts, t + 1);
    let quota = 4096 - above;
    let mut taken: u64 = 0;
    let mut r: Vec<u32> = Vec::new();
    let ghost target = Seq::new(counts@.len(), |i: int| if counts@[i] > 0 && rank(counts@, i) < 4096 { 1u32 } else { 0u32 });
    i = 0;
    while i < n
        invariant
            n == counts@.len(),
            i <= n,
            t >= 1,
            count_ge(counts@, t as int) >= 4096,
            above == count_ge(counts@, t + 1),
            above < 4096,
            quota == 4096 - above,
            taken == (if count_eq(counts@.take(i as int), t as int) < quota { count_eq(counts@.take(i as int), t as int) } else { quota as int }),
            target == Seq::new(counts@.len(), |i: int| if counts@[i] > 0 && rank(counts@, i) < 4096 { 1u32 } else { 0u32 }),
            r@ == target.take(i as int),
        decreases n - i,
    {
        let c = counts[i] as u64;
        proof {
            assert(counts@.take(i + 1).drop_last() =~= counts@.take(i as int));
            assert(target.take(i + 1).drop_last() =~= target.take(i as int));
            let ci = counts@[i as int] as int;
            lemma_count_split(counts@, ci);
            lemma_count_eq_before(counts@, i as int);
            if ci > t {
                lemma_count_ge_antitone(counts@, t + 1, ci);
            } else if ci < t {
                lemma_count_ge_antitone(counts@, ci + 1, t as int);
            }
        }
        proof {
            assert(counts@.take(i + 1).last() == counts@[i as int]);
            if c > t {
                assert(target[i as int] == 1);
            } else if c == t {
                assert(rank(counts@, i as int) == above + count_eq(counts@.take(i as int), t as int));
                assert((target[i as int] == 1) == (taken < quota));
            } else {
                lemma_count_nonneg(counts@.take(i as int), counts@[i as int] as int);
                assert(target[i as int] == 0);
            }
        }
        if c > t {
            r.push(1);
        } else if c == t && taken < quota {
            r.push(1);
            taken += 1;
        } else {
            r.push(0);
        }
        i += 1;
    }
    proof {
        assert(target.take(n as int) =~= target);
    }
    r
}


/// The sum of the scaled shares `c * k / t` of the used entries.
pub open spec fn scaled_floors(s: Seq<u32>, k: int, t: int) -> int
    decreases s.len(),
{
    if s.len() == 0 {
        0
    } else {
        scaled_floors(s.drop_last(), k, t) + if s.last() == 0 { 0int } else { s.last() * k / t }
    }
}

proof fn lemma_scaled_counts_sum(s: Seq<u32>, active: int, total: int)
    requires
        0 <= active <= 4096,
        total > 0,
        seq_sum(s) <= total,
    ensures
        seq_sum(scaled_counts(s, active, total)) == scaled_floors(s, 4096 - active, total) + count_ge(s, 1),
        scaled_floors(s, 4096 - active, total) * total <= (4096 - active) * seq_sum(s),
        scaled_floors(s, 4096 - active, total) >= 0,
    decreases s.len(),
{
    let k = 4096 - active;
    if s.len() > 0 {
        let d = s.drop_last();
        lemma_seq_sum_bound(d);
        lemma_scaled_counts_sum(d, active, total);
        assert(scaled_counts(s, active, total).drop_last() =~= scaled_counts(d, active, total));
        let c = s.last();
        let f = c * k / total;
        assert(f * total <= c * k && 0 <= f <= k) by (nonlinear_arith)
            requires
                f == c * k / total,
                total > 0,
                0 <= c <= total,
                0 <= k <= 4096;
        assert((scaled_floors(d, k, total) + f) * total <= k * (seq_sum(d) + c)) by (nonlinear_arith)
            requires
                scaled_floors(d, k, total) * total <= k * seq_sum(d),
                f * total <= c * k;
    }
}

proof fn lemma_last_max_is_max(s: Seq<u32>)
    requires
        s.len() > 0,
    ensures
        forall|j: int| 0 <= j < s.len() ==> #[trigger] s[j] <= s[last_max_index(s)],
    decreases s.len(),
{
    if s.len() > 1 {
        lemma_last_max_is_max(s.drop_last());
        lemma_last_max_in_range(s.drop_last());
        let k = last_max_index(s.drop_last());
        assert forall|j: int| 0 <= j < s.len() implies #[trigger] s[j] <= s[last_max_index(s)] by {
            if j < s.len() - 1 {
                assert(s.drop_last()[j] <= s.drop_last()[k]);
            }
        }
    }
}

proof fn lemma_all_below(s: Seq<u32>, v: int)
    requires
        forall|j: int| 0 <= j < s.len() ==> s[j] <= v,
    ensures
        count_ge(s, v + 1) == 0,
    decreases s.len(),
{
    if s.len() > 0 {
        lemma_all_below(s.drop_last(), v);
    }
}

proof fn lemma_seq_sum_update(s: Seq<u32>, i: int, v: u32)
    requires
        0 <= i < s.len(),
    ensures
        seq_sum(s.update(i, v)) == seq_sum(s) - s[i] + v,
    decreases s.len(),
{
    if i < s.len() - 1 {
        assert(s.update(i, v).drop_last() =~= s.drop_last().update(i, v));
        lemma_seq_sum_update(s.drop_last(), i, v);
    } else {
        assert(s.update(i, v).drop_last() =~= s.drop_last());
    }
}

/// A frequency table from counts with at least one and at most `ANS_M` used
/// symbols covers all `ANS_M` slots, and gives a slot exactly to the used
/// symbols.
pub proof fn law_normalized_table_total(counts: Seq<u32>)
    requires
        1 <= count_ge(counts, 1) <= 4096,
    ensures
        seq_sum(normalized_table(counts)) == 4096,
        normalized_table(counts).len() == counts.len(),
        forall|i: int| 0 <= i < counts.len() ==> (#[trigger] normalized_table(counts)[i] > 0) == (counts[i] > 0),
{
    let active = count_ge(counts, 1);
    let total = seq_sum(counts);
    lemma_sum_at_least_active(counts);
    lemma_scaled_counts_sum(counts, active, total);
    let k = 4096 - active;
    let fl = scaled_floors(counts, k, total);
    assert(fl <= k) by (nonlinear_arith)
        requires
            fl * total <= k * total,
            total > 0;
    let base = scaled_counts(counts, active, total);
    let m = last_max_index(counts);
    lemma_last_max_in_range(counts);
    lemma_elem_le_sum(base, m);
    lemma_seq_sum_update(base, m, (base[m] + (4096 - seq_sum(base))) as u32);
    lemma_last_max_is_max(counts);
    if counts[m] == 0 {
        lemma_all_below(counts, 0);
    }
    assert forall|i: int| 0 <= i < counts.len() implies (#[trigger] normalized_table(counts)[i] > 0) == (counts[i] > 0) by {
        if counts[i] > 0 {
            lemma_elem_le_sum(counts, i);
            let f = counts[i] * k / total;
            assert(0 <= f <= k) by (nonlinear_arith)
                requires
                    f == counts[i] * k / total,
                    total > 0,
                    0 <= counts[i] <= total,
                    0 <= k <= 4096;
        }
    }
}

} // verus!
