use vstd::prelude::*;
use vstd::arithmetic::power2::{pow2, lemma_pow2_adds, lemma_pow2_unfold, lemma2_to64, lemma2_to64_rest, lemma_pow2_pos, lemma_pow2_strictly_increases};
use vstd::arithmetic::div_mod::lemma_div_denominator;
use vstd::bits::{lemma_u32_shr_is_div, lemma_u64_shr_is_div};

verus! {

/// Bits of probability precision: frequencies sum to `M`.
pub const PRECISION_BITS: u32 = 12;
/// Total of a frequency table.
pub const M: u32 = 4096;
/// Lower bound of a normalized coder state.
pub const L: u32 = 8388608;
/// The renormalization bound per unit of frequency: `(L >> 12) << 8`.
pub const X_MAX_BASE: u32 = 524288;

/// A precomputed reciprocal that divides by `divisor()` with a multiply and
/// shifts.
#[derive(Clone, Copy)]
pub struct DivMagic {
    magic: u32,
    shift: u8,
    divisor: Ghost<u32>,
    log: Ghost<nat>,
}

/// The reciprocal's fields for divisor `d`, whose highest bit is `s`: a power
/// of two is a plain shift; otherwise the magic number is the rounded-up
/// `2^(33 + s) / d` less `2^32`.
pub open spec fn magic_fits(magic: int, shift: int, d: int, s: nat) -> bool {
    &&& d >= 2
    &&& pow2(s) <= d < pow2(s + 1)
    &&& if d == pow2(s) {
        magic == 0 && shift == s - 1
    } else {
        magic == (pow2(33 + s) + d - 1) / d - 4294967296 && shift == s
    }
}

impl DivMagic {
    #[verifier::type_invariant]
    spec fn fits(&self) -> bool {
        magic_fits(self.magic as int, self.shift as int, self.divisor@ as int, self.log@)
    }

    /// The number this reciprocal divides by.
    pub closed spec fn divisor(&self) -> int {
        self.divisor@ as int
    }
}

proof fn lemma_ceil_quotient(x: int, d: int, s: nat, c: int)
    requires
        0 <= x < 4294967296,
        pow2(s) < d < pow2(s + 1),
        d < 4294967296,
        c == (pow2(33 + s) + d - 1) / d,
    ensures
        4294967296 < c < 8589934592,
        (x * c) / (pow2(33 + s) as int) == x / d,
{
    let p = pow2(s) as int;
    lemma_pow2_adds(33, s);
    lemma_pow2_adds(s, 1);
    lemma2_to64();
    lemma2_to64_rest();
    lemma_pow2_pos(s);
    let n = pow2(33 + s) as int;
    assert(n == 8589934592 * p);
    assert(pow2(s + 1) == 2 * p);
    let e = c * d - n;
    assert(0 <= e < d) by (nonlinear_arith)
        requires
            c == (n + d - 1) / d,
            e == c * d - n,
            d > 0,
            n >= 0;
    assert(c * d > 4294967296 * d) by (nonlinear_arith)
        requires
            c * d == n + e,
            0 <= e,
            n == 8589934592 * p,
            d < 2 * p;
    assert(c > 4294967296) by (nonlinear_arith)
        requires
            c * d > 4294967296 * d,
            d > 0;
    assert(8589934592 * p + d < 8589934592 * d) by (nonlinear_arith)
        requires
            p + 1 <= d,
            d < 4294967296;
    assert(c * d < 8589934592 * d);
    assert(c < 8589934592) by (nonlinear_arith)
        requires
            c * d < 8589934592 * d,
            d > 0;
    let a = x / d;
    let b = x % d;
    assert(x * e < n) by (nonlinear_arith)
        requires
            0 <= x < 4294967296,
            0 <= e < d,
            d < 2 * p,
            n == 8589934592 * p;
    assert(a * n <= x * c < (a + 1) * n) by (nonlinear_arith)
        requires
            a == x / d,
            b == x % d,
            d > 0,
            x >= 0,
            c * d == n + e,
            e >= 0,
            x * e < n,
            n > 0;
    assert((x * c) / n == a) by (nonlinear_arith)
        requires
            a * n <= x * c < (a + 1) * n,
            n > 0;
}

/// The reciprocal of `d`.
pub fn div_magic(d: u32) -> (r: DivMagic)
    requires
        d >= 2,
    ensures
        r.divisor() == d,
{
    let mut l: u32 = 0;
    let mut p: u64 = 1;
    proof {
        lemma2_to64();
    }
    while p * 2 <= d as u64
        invariant
            p == pow2(l as nat),
            1 <= p <= d,
            l <= 31,
        decreases d - p,
    {
        proof {
            lemma2_to64();
            lemma_pow2_unfold((l + 1) as nat);
        }
        p = p * 2;
        l = l + 1;
    }
    proof {
        lemma_pow2_unfold((l + 1) as nat);
    }
    if d as u64 == p {
        return DivMagic { magic: 0, shift: (l - 1) as u8, divisor: Ghost(d), log: Ghost(l as nat) };
    }
    proof {
        lemma2_to64_rest();
        lemma_pow2_adds(33, l as nat);
        lemma_pow2_pos(l as nat);
        assert(pow2((33 + l) as nat) <= 8589934592 * 2147483648) by (nonlinear_arith)
            requires
                pow2((33 + l) as nat) == pow2(33) * pow2(l as nat),
                pow2(33) == 8589934592,
                pow2(l as nat) <= 2147483648;
        lemma_ceil_quotient(0, d as int, l as nat, (pow2((33 + l) as nat) + d - 1) / (d as int));
    }
    let pow: u128 = (p as u128) * 8589934592u128;
    let c: u128 = (pow + d as u128 - 1) / d as u128;
    assert(c - 4294967296 == c as u32) by (bit_vector)
        requires 4294967296 < c < 8589934592;
    let magic = c as u32;
    DivMagic { magic, shift: l as u8, divisor: Ghost(d), log: Ghost(l as nat) }
}

/// `x / divisor()`, by multiplying with the reciprocal.
pub fn fast_div(x: u32, d: DivMagic) -> (r: u32)
    ensures
        r == x as int / d.divisor(),
{
    proof {
        use_type_invariant(&d);
        lemma2_to64();
        lemma2_to64_rest();
        if d.log@ >= 32 {
            if d.log@ > 32 {
                lemma_pow2_strictly_increases(32, d.log@);
            }
        }
    }
    let ghost s = d.log@;
    let ghost dv = d.divisor@ as int;
    assert((x as u64) * (d.magic as u64) <= 4294967295 * 4294967295) by (nonlinear_arith)
        requires x <= 4294967295, d.magic <= 4294967295;
    let prod: u64 = (x as u64) * (d.magic as u64);
    proof {
        lemma_u64_shr_is_div(prod, 32);
    }
    let q64 = prod >> 32;
    assert(q64 <= x) by (nonlinear_arith)
        requires
            q64 == prod / 4294967296,
            prod == x * d.magic,
            d.magic < 4294967296;
    let q = q64 as u32;
    proof {
        lemma_u32_shr_is_div((x - q) as u32, 1);
    }
    let t = ((x - q) >> 1) + q;
    assert(t == (x + q) / 2);
    proof {
        lemma_u32_shr_is_div(t, d.shift as u32);
        lemma_pow2_pos(s);
        if dv == pow2(s) {
            lemma_pow2_unfold(s);
            lemma_pow2_pos((s - 1) as nat);
            lemma_div_denominator(x as int, 2, pow2((s - 1) as nat) as int);
        } else {
            let c = d.magic + 4294967296;
            lemma_ceil_quotient(x as int, dv, s, c);
            assert(x + q == (x * c) / 4294967296) by (nonlinear_arith)
                requires
                    c == d.magic + 4294967296,
                    q == (x * d.magic) / 4294967296;
            lemma_div_denominator(x + q, 2, pow2(s) as int);
            lemma_div_denominator(x * c, 4294967296, 2 * (pow2(s) as int));
            lemma_pow2_adds(33, s);
            assert(pow2(33 + s) == 4294967296 * (2 * pow2(s))) by (nonlinear_arith)
                requires pow2(33 + s) == pow2(33) * pow2(s), pow2(33) == 8589934592;
        }
    }
    let r = t >> (d.shift as u32);
    proof {
        if dv == pow2(s) {
            assert(prod == 0) by (nonlinear_arith)
                requires prod == x * d.magic, d.magic == 0;
            assert(q == 0);
            assert(r == (x as int / 2) / (pow2((s - 1) as nat) as int));
            assert(r == x as int / dv);
        } else {
            assert(r == ((x + q) / 2) / (pow2(s) as int));
            assert(r == (x + q) / (2 * (pow2(s) as int)));
            assert(r == x as int / dv);
        }
    }
    r
}


/// A coder state between symbols: at least `L`, below `256 * L`.
pub open spec fn normalized32(x: int) -> bool {
    8388608 <= x < 2147483648
}

/// The bytes that encoding a symbol of frequency `freq` shifts out of `x`,
/// least significant first, appended to `out`, and the state left.
pub open spec fn enc_renorm(x: int, freq: int, out: Seq<u8>) -> (int, Seq<u8>)
    decreases x,
{
    if freq > 0 && x >= 524288 * freq && x > 0 {
        enc_renorm(x / 256, freq, out.push((x % 256) as u8))
    } else {
        (x, out)
    }
}

/// The state and shifted-out bytes after encoding the symbol
/// `[start, start + freq)` into state `x`.
pub open spec fn enc_step(x: int, out: Seq<u8>, freq: int, start: int) -> (int, Seq<u8>) {
    let (y, o) = enc_renorm(x, freq, out);
    ((y / freq) * 4096 + y % freq + start, o)
}

/// The decoder's refill: while the state is below `L`, shift in the next
/// byte of `rest`, or a zero once `rest` is used up.
pub open spec fn dec_refill(x: int, rest: Seq<u8>) -> (int, Seq<u8>)
    decreases (if x <= 0 || x >= 8388608 { 0 } else { 8388608 - x }),
{
    if x <= 0 || x >= 8388608 {
        (x, rest)
    } else if rest.len() > 0 {
        dec_refill(x * 256 + rest[0], rest.skip(1))
    } else {
        dec_refill(x * 256, rest)
    }
}

/// The decoder's move over the symbol `[start, start + freq)`.
pub open spec fn dec_step(x: int, rest: Seq<u8>, freq: int, start: int) -> (int, Seq<u8>) {
    dec_refill(freq * (x / 4096) + x % 4096 - start, rest)
}

/// The four bytes of `v`, most significant first.
pub open spec fn be32(v: int) -> Seq<u8> {
    seq![(v / 16777216) as u8, ((v / 65536) % 256) as u8, ((v / 256) % 256) as u8, (v % 256) as u8]
}

/// The value of four bytes, most significant first.
pub open spec fn be32_value(b: Seq<u8>) -> int {
    16777216 * b[0] + 65536 * b[1] + 256 * b[2] + b[3]
}

proof fn lemma_reverse_push(o: Seq<u8>, b: u8)
    ensures
        o.push(b).reverse().len() > 0,
        o.push(b).reverse()[0] == b,
        o.push(b).reverse().skip(1) == o.reverse(),
{
    assert(o.push(b).reverse().skip(1) =~= o.reverse());
}

/// One coded symbol: encoding `[start, start + freq)` into a normalized state
/// gives a normalized state whose slot lies in that range, and the decoder,
/// reading the shifted-out bytes last first, gets back the state and bytes
/// from before.
pub proof fn law_symbol_roundtrip32(x: int, out: Seq<u8>, freq: int, start: int)
    requires
        normalized32(x),
        1 <= freq,
        0 <= start,
        start + freq <= 4096,
    ensures
        normalized32(enc_step(x, out, freq, start).0),
        start <= enc_step(x, out, freq, start).0 % 4096 < start + freq,
        dec_step(enc_step(x, out, freq, start).0, enc_step(x, out, freq, start).1.reverse(), freq, start)
            == (x, out.reverse()),
{
    reveal_with_fuel(enc_renorm, 3);
    reveal_with_fuel(dec_refill, 3);
    let (y, o) = enc_renorm(x, freq, out);
    if x >= 524288 * freq {
        let x1 = x / 256;
        let o1 = out.push((x % 256) as u8);
        lemma_reverse_push(out, (x % 256) as u8);
        if x1 >= 524288 * freq {
            let o2 = o1.push((x1 % 256) as u8);
            lemma_reverse_push(o1, (x1 % 256) as u8);
            assert(x1 / 256 < 524288 * freq);
        }
    }
    assert(2048 * freq <= y < 524288 * freq);
    let q = y / freq;
    let r = y % freq;
    assert(2048 <= q < 524288 && 0 <= r < freq && y == freq * q + r) by (nonlinear_arith)
        requires
            2048 * freq <= y < 524288 * freq,
            freq > 0,
            q == y / freq,
            r == y % freq;
    let z = q * 4096 + r + start;
    assert(z / 4096 == q && z % 4096 == r + start) by (nonlinear_arith)
        requires
            z == q * 4096 + r + start,
            0 <= r + start < 4096,
            q >= 0;
    assert(freq * q >= 2048);
}

/// Encodes symbols last to first; the stream reads back first to last.
pub struct RansEncoder {
    x: u32,
    bytes: Vec<u8>,
    table: Vec<DivMagic>,
}

impl RansEncoder {
    pub closed spec fn state(&self) -> int {
        self.x as int
    }

    /// The bytes shifted out so far, in the order they were shifted out.
    pub closed spec fn bytes(&self) -> Seq<u8> {
        self.bytes@
    }

    /// A normalized state and a reciprocal for each frequency up to `M`.
    pub closed spec fn wf(&self) -> bool {
        &&& normalized32(self.x as int)
        &&& self.table@.len() == 4097
        &&& forall|d: int| 2 <= d <= 4096 ==> #[trigger] self.table@[d].divisor() == d
    }

    pub fn new() -> (r: Self)
        ensures
            r.wf(),
            r.state() == 8388608,
            r.bytes() == Seq::<u8>::empty(),
    {
        let mut table: Vec<DivMagic> = Vec::new();
        table.push(div_magic(2));
        table.push(div_magic(2));
        let mut d: u32 = 2;
        while d <= M
            invariant
                2 <= d <= 4097,
                table@.len() == d,
                forall|k: int| 2 <= k < d ==> #[trigger] table@[k].divisor() == k,
            decreases 4097 - d,
        {
            table.push(div_magic(d));
            d += 1;
        }
        RansEncoder { x: L, bytes: Vec::new(), table }
    }

    /// Encodes the symbol whose slots are `start..start + freq`.
    pub fn put(&mut self, freq: u32, start: u32)
        requires
            old(self).wf(),
            freq > 0,
            start + freq <= M,
        ensures
            final(self).wf(),
            (final(self).state(), final(self).bytes()) == enc_step(old(self).state(), old(self).bytes(), freq as int, start as int),
    {
        let x_max = X_MAX_BASE * freq;
        let ghost x0 = self.x as int;
        let ghost b0 = self.bytes@;
        let mut x = self.x;
        while x >= x_max
            invariant
                x_max == 524288 * freq,
                1 <= freq <= 4096,
                x <= x0,
                8388608 <= x0 < 2147483648,
                x == x0 || x >= 2048 * freq,
                enc_renorm(x0, freq as int, b0) == enc_renorm(x as int, freq as int, self.bytes@),
                old(self).wf(),
                x0 == old(self).state(),
                self.table@ == old(self).table@,
                self.x == old(self).x,
            decreases x,
        {
            assert(x & 0xff == x % 256 && x >> 8 == x / 256) by (bit_vector);
            self.bytes.push((x & 0xff) as u8);
            x = x >> 8;
        }
        let q = if freq > 1 {
            let dm = self.table[freq as usize];
            assert(old(self).table@[freq as int].divisor() == freq);
            assert(dm.divisor() == freq);
            let q1 = fast_div(x, dm);
            assert(q1 == x / freq);
            q1
        } else {
            assert(freq == 1);
            assert(x as int / 1 == x);
            assert(x as int / freq as int == x);
            x
        };
        assert(q == x as int / freq as int);
        proof {
            assert(q < 524288) by (nonlinear_arith)
                requires x < 524288 * freq, freq > 0, q == x / freq;
            assert(q * freq <= x) by (nonlinear_arith)
                requires freq > 0, q == x / freq;
            lemma2_to64();
            vstd::bits::lemma_u32_shl_is_mul(q, 12);
        }
        let r = x - q * freq;
        proof {
            assert(r == x % freq) by (nonlinear_arith)
                requires freq > 0, q == x / freq, r == x - q * freq;
        }
        self.x = (q << PRECISION_BITS) + r + start;
        proof {
            law_symbol_roundtrip32(x0, b0, freq as int, start as int);
        }
    }

    /// The stream: the state, most significant byte first, then the
    /// shifted-out bytes, last first.
    pub fn finish(self) -> (out: Vec<u8>)
        ensures
            out@ == be32(self.state()) + self.bytes().reverse(),
    {
        let mut out: Vec<u8> = Vec::new();
        let x = self.x;
        out.push((x / 16777216) as u8);
        out.push(((x / 65536) % 256) as u8);
        out.push(((x / 256) % 256) as u8);
        out.push((x % 256) as u8);
        let mut i = self.bytes.len();
        while i > 0
            invariant
                i <= self.bytes@.len(),
                out@ == be32(x as int) + self.bytes@.reverse().take(self.bytes@.len() - i),
            decreases i,
        {
            i -= 1;
            out.push(self.bytes[i]);
            proof {
                assert(self.bytes@.reverse().take(self.bytes@.len() - i) =~= self.bytes@.reverse().take(
                    self.bytes@.len() - i - 1,
                ).push(self.bytes@[i as int]));
            }
        }
        proof {
            assert(self.bytes@.reverse().take(self.bytes@.len() as int) =~= self.bytes@.reverse());
        }
        out
    }
}

/// Reads a stream from `RansEncoder::finish`.
pub struct RansDecoder<'a> {
    x: u32,
    body: &'a [u8],
    ip: usize,
}

impl<'a> RansDecoder<'a> {
    #[verifier::type_invariant]
    spec fn position_in_bounds(&self) -> bool {
        self.ip <= self.body@.len()
    }

    pub closed spec fn state(&self) -> int {
        self.x as int
    }

    /// The bytes not read yet, the next one first.
    pub closed spec fn rest(&self) -> Seq<u8> {
        self.body@.skip(self.ip as int)
    }

    /// Starts on a stream of at least four bytes: the state from the first
    /// four, most significant first.
    pub fn new(body: &'a [u8]) -> (r: Self)
        requires
            body@.len() >= 4,
        ensures
            r.state() == be32_value(body@),
            r.rest() == body@.skip(4),
    {
        let x = 16777216 * (body[0] as u32) + 65536 * (body[1] as u32) + 256 * (body[2] as u32) + body[3] as u32;
        RansDecoder { x, body, ip: 4 }
    }

    /// The slot that the next symbol covers.
    pub fn slot(&self) -> (r: u32)
        ensures
            r == self.state() % 4096,
    {
        let x = self.x;
        assert(x & 4095 == x % 4096) by (bit_vector);
        x & (M - 1)
    }

    /// Moves over the symbol `[start, start + freq)` and refills the state
    /// while it is below `L`, with zeros once the stream is used up.
    pub fn advance(&mut self, freq: u32, start: u32)
        requires
            freq <= M,
            start <= old(self).state() % 4096,
            freq * (old(self).state() / 4096) + old(self).state() % 4096 - start > 0,
        ensures
            (final(self).state(), final(self).rest()) == dec_step(old(self).state(), old(self).rest(), freq as int, start as int),
    {
        proof {
            use_type_invariant(&*self);
        }
        let x = self.x;
        assert(x & 4095 == x % 4096) by (bit_vector);
        let slot = x & (M - 1);
        proof {
            vstd::bits::lemma_u32_shr_is_div(x, 12);
            lemma2_to64();
            assert(freq * (x / 4096) <= 4096 * 1048575) by (nonlinear_arith)
                requires freq <= 4096, x / 4096 <= 1048575;
        }
        let mut y = freq * (x >> PRECISION_BITS) + slot - start;
        let mut ip = self.ip;
        while y < L
            invariant
                ip <= self.body@.len(),
                y > 0,
                dec_refill(y as int, self.body@.skip(ip as int)) == dec_step(
                    old(self).state(),
                    old(self).rest(),
                    freq as int,
                    start as int,
                ),
            decreases (if y < L { L - y } else { 0 }),
        {
            let b: u8 = if ip < self.body.len() {
                let v = self.body[ip];
                proof {
                    assert(self.body@.skip(ip as int).skip(1) =~= self.body@.skip(ip + 1));
                }
                ip += 1;
                v
            } else {
                0
            };
            let bb = b as u32;
            assert((y << 8) | bb == y * 256 + bb) by (bit_vector)
                requires y < 8388608, bb < 256;
            y = (y << 8) | bb;
        }
        self.x = y;
        self.ip = ip;
    }
}


/// How many times the byte `b` occurs in `data`.
pub open spec fn byte_count(data: Seq<u8>, b: int) -> int
    decreases data.len(),
{
    if data.len() == 0 {
        0
    } else {
        byte_count(data.drop_last(), b) + if data.last() == b { 1int } else { 0int }
    }
}

/// The sum of `s`.
pub open spec fn int_sum(s: Seq<int>) -> int
    decreases s.len(),
{
    if s.len() == 0 {
        0
    } else {
        int_sum(s.drop_last()) + s.last()
    }
}

/// The index of the last largest entry of `s` (0 for an empty `s`).
pub open spec fn last_max_of(s: Seq<int>) -> int
    decreases s.len(),
{
    if s.len() <= 1 {
        0
    } else {
        let k = last_max_of(s.drop_last());
        if s.last() >= s[k] {
            s.len() - 1
        } else {
            k
        }
    }
}

/// Each used byte's share of `M`, at least 1.
pub open spec fn scaled_freqs(data: Seq<u8>) -> Seq<int> {
    Seq::new(
        256,
        |b: int|
            if byte_count(data, b) > 0 {
                let v = byte_count(data, b) * 4096 / (data.len() as int);
                if v < 1 {
                    1
                } else {
                    v
                }
            } else {
                0
            },
    )
}

/// Takes `k` units away, one at a time, each from the last largest entry.
pub open spec fn shave(f: Seq<int>, k: nat) -> Seq<int>
    decreases k,
{
    if k == 0 {
        f
    } else {
        let m = last_max_of(f);
        shave(f.update(m, f[m] - 1), (k - 1) as nat)
    }
}

/// The frequency of each byte value in the table for `data`: the scaled
/// shares, then the shortfall given to the last most frequent byte, or the
/// excess taken from the largest frequencies.
pub open spec fn freq_table(data: Seq<u8>) -> Seq<int> {
    if data.len() == 0 {
        Seq::new(256, |b: int| 0)
    } else {
        let f0 = scaled_freqs(data);
        let sum0 = int_sum(f0);
        let counts = Seq::new(256, |b: int| byte_count(data, b));
        let m = last_max_of(counts);
        if sum0 < 4096 {
            f0.update(m, f0[m] + 4096 - sum0)
        } else {
            shave(f0, (sum0 - 4096) as nat)
        }
    }
}

/// The first slot of each symbol: the running total of the frequencies
/// before it, kept to 16 bits.
pub open spec fn start_table(f: Seq<int>) -> Seq<int> {
    Seq::new(256, |b: int| int_sum(f.take(b)) % 65536)
}

proof fn lemma_int_sum_take_push(s: Seq<int>, i: int)
    requires
        0 <= i < s.len(),
    ensures
        int_sum(s.take(i + 1)) == int_sum(s.take(i)) + s[i],
{
    assert(s.take(i + 1).drop_last() =~= s.take(i));
}

proof fn lemma_int_sum_update(s: Seq<int>, i: int, v: int)
    requires
        0 <= i < s.len(),
    ensures
        int_sum(s.update(i, v)) == int_sum(s) - s[i] + v,
    decreases s.len(),
{
    if i < s.len() - 1 {
        assert(s.update(i, v).drop_last() =~= s.drop_last().update(i, v));
        lemma_int_sum_update(s.drop_last(), i, v);
    } else {
        assert(s.update(i, v).drop_last() =~= s.drop_last());
    }
}

proof fn lemma_last_max_of(s: Seq<int>)
    requires
        s.len() > 0,
    ensures
        0 <= last_max_of(s) < s.len(),
        forall|j: int| 0 <= j < s.len() ==> #[trigger] s[j] <= s[last_max_of(s)],
    decreases s.len(),
{
    if s.len() > 1 {
        lemma_last_max_of(s.drop_last());
        let k = last_max_of(s.drop_last());
        assert forall|j: int| 0 <= j < s.len() implies #[trigger] s[j] <= s[last_max_of(s)] by {
            if j < s.len() - 1 {
                assert(s.drop_last()[j] <= s.drop_last()[k]);
            }
        }
    }
}

proof fn lemma_small_entries_sum(s: Seq<int>)
    requires
        forall|j: int| 0 <= j < s.len() ==> #[trigger] s[j] <= 1,
    ensures
        int_sum(s) <= s.len(),
    decreases s.len(),
{
    if s.len() > 0 {
        lemma_small_entries_sum(s.drop_last());
    }
}

proof fn lemma_entry_le_sum(s: Seq<int>, i: int)
    requires
        0 <= i < s.len(),
        forall|j: int| 0 <= j < s.len() ==> #[trigger] s[j] >= 0,
    ensures
        s[i] <= int_sum(s),
        int_sum(s) >= 0,
    decreases s.len(),
{
    let d = s.drop_last();
    assert forall|j: int| 0 <= j < d.len() implies #[trigger] d[j] >= 0 by {
        assert(d[j] == s[j]);
    }
    if s.len() > 1 {
        if i < s.len() - 1 {
            lemma_entry_le_sum(d, i);
        } else {
            lemma_entry_le_sum(d, 0);
        }
    } else {
        assert(int_sum(d) == 0);
    }
}

/// The index of the last largest value among the first 256 entries.
fn last_max_u64(v: &[u64; 256]) -> (m: usize)
    ensures
        m < 256,
        m == last_max_of(v@.map_values(|c: u64| c as int)),
{
    let ghost s = v@.map_values(|c: u64| c as int);
    let mut m: usize = 0;
    let mut i: usize = 1;
    while i < 256
        invariant
            1 <= i <= 256,
            s == v@.map_values(|c: u64| c as int),
            m == last_max_of(s.take(i as int)),
            m < i,
        decreases 256 - i,
    {
        proof {
            assert(s.take(i + 1).drop_last() =~= s.take(i as int));
        }
        if v[i] >= v[m] {
            m = i;
        }
        i += 1;
    }
    proof {
        assert(s.take(256) =~= s);
    }
    m
}

/// The index of the last largest frequency.
fn last_max_u16(v: &[u16; 256]) -> (m: usize)
    ensures
        m < 256,
        m == last_max_of(v@.map_values(|c: u16| c as int)),
{
    let ghost s = v@.map_values(|c: u16| c as int);
    let mut m: usize = 0;
    let mut i: usize = 1;
    while i < 256
        invariant
            1 <= i <= 256,
            s == v@.map_values(|c: u16| c as int),
            m == last_max_of(s.take(i as int)),
            m < i,
        decreases 256 - i,
    {
        proof {
            assert(s.take(i + 1).drop_last() =~= s.take(i as int));
        }
        if v[i] >= v[m] {
            m = i;
        }
        i += 1;
    }
    proof {
        assert(s.take(256) =~= s);
    }
    m
}

/// The first slot of each symbol.
fn starts(freq: &[u16; 256]) -> (start: [u16; 256])
    ensures
        start@.map_values(|v: u16| v as int) == start_table(freq@.map_values(|v: u16| v as int)),
{
    let ghost f = freq@.map_values(|v: u16| v as int);
    let mut start = [0u16; 256];
    let mut acc: u32 = 0;
    let mut s: usize = 0;
    while s < 256
        invariant
            s <= 256,
            f == freq@.map_values(|v: u16| v as int),
            acc == int_sum(f.take(s as int)),
            acc <= 65535 * s,
            forall|b: int| 0 <= b < s ==> #[trigger] start@[b] as int == int_sum(f.take(b)) % 65536,
        decreases 256 - s,
    {
        proof {
            lemma_int_sum_take_push(f, s as int);
        }
        start[s] = acc as u16;
        proof {
            assert(acc as u16 == acc % 65536) by (bit_vector);
        }
        acc += freq[s] as u32;
        s += 1;
    }
    proof {
        assert(start@.map_values(|v: u16| v as int) =~= start_table(f));
    }
    start
}


proof fn lemma_byte_count_le_len(data: Seq<u8>, b: int)
    ensures
        0 <= byte_count(data, b) <= data.len(),
    decreases data.len(),
{
    if data.len() > 0 {
        lemma_byte_count_le_len(data.drop_last(), b);
    }
}

proof fn lemma_byte_count_of_member(data: Seq<u8>, i: int)
    requires
        0 <= i < data.len(),
    ensures
        byte_count(data, data[i] as int) >= 1,
    decreases data.len(),
{
    if i < data.len() - 1 {
        lemma_byte_count_of_member(data.drop_last(), i);
    } else {
        lemma_byte_count_le_len(data.drop_last(), data[i] as int);
    }
}

/// The frequency table of `data`, with frequencies summing to `M` when `data`
/// is not empty, and the first slot of each byte value.
pub fn build_freq_table(data: &[u8]) -> (r: ([u16; 256], [u16; 256]))
    requires
        data@.len() < 0x10_0000_0000_0000,
    ensures
        r.0@.map_values(|v: u16| v as int) == freq_table(data@),
        r.1@.map_values(|v: u16| v as int) == start_table(freq_table(data@)),
        data@.len() > 0 ==> int_sum(freq_table(data@)) == 4096,
        forall|b: int| 0 <= b < 256 ==> (#[trigger] freq_table(data@)[b] > 0) == (byte_count(data@, b) > 0),
{
    let mut counts = [0u64; 256];
    let mut i: usize = 0;
    while i < data.len()
        invariant
            i <= data@.len(),
            data@.len() < 0x10_0000_0000_0000,
            forall|b: int| 0 <= b < 256 ==> #[trigger] counts@[b] == byte_count(data@.take(i as int), b),
        decreases data@.len() - i,
    {
        proof {
            assert(data@.take(i + 1).drop_last() =~= data@.take(i as int));
            lemma_byte_count_le_len(data@.take(i as int), data@[i as int] as int);
        }
        let b = data[i] as usize;
        counts[b] = counts[b] + 1;
        i += 1;
    }
    proof {
        assert(data@.take(data@.len() as int) =~= data@);
    }
    let ghost cs = counts@.map_values(|c: u64| c as int);
    assert(cs =~= Seq::new(256, |b: int| byte_count(data@, b)));
    let total = data.len() as u64;
    let mut freq = [0u16; 256];
    if total == 0 {
        proof {
            assert(freq@.map_values(|v: u16| v as int) =~= freq_table(data@));
            assert forall|b: int| 0 <= b < 256 implies byte_count(data@, b) == 0 by {
                lemma_byte_count_le_len(data@, b);
            }
        }
        let st = starts(&freq);
        return (freq, st);
    }
    let ghost f0 = scaled_freqs(data@);
    let mut s: usize = 0;
    while s < 256
        invariant
            s <= 256,
            total == data@.len() > 0,
            data@.len() < 0x10_0000_0000_0000,
            f0 == scaled_freqs(data@),
            forall|b: int| 0 <= b < 256 ==> #[trigger] counts@[b] == byte_count(data@, b),
            forall|b: int| 0 <= b < 256 ==> #[trigger] freq@[b] as int == (if b < s { f0[b] } else { 0 }),
            forall|b: int| 0 <= b < 256 ==> #[trigger] freq@[b] <= 4096,
        decreases 256 - s,
    {
        if counts[s] > 0 {
            proof {
                lemma_byte_count_le_len(data@, s as int);
                assert(counts[s as int] * 4096 / (total as int) <= 4096) by (nonlinear_arith)
                    requires counts[s as int] <= total, total > 0;
            }
            assert(counts[s as int] * 4096 < 0x1_0000_0000_0000_0000) by (nonlinear_arith)
                requires counts[s as int] < 0x10_0000_0000_0000;
            let scaled = (counts[s] * 4096 / total) as u32;
            freq[s] = (if scaled < 1 { 1 } else { scaled }) as u16;
        }
        s += 1;
    }
    let ghost fa = freq@.map_values(|v: u16| v as int);
    assert(fa =~= f0);
    let mut sum: i64 = 0;
    s = 0;
    while s < 256
        invariant
            s <= 256,
            fa == freq@.map_values(|v: u16| v as int),
            forall|b: int| 0 <= b < 256 ==> 0 <= #[trigger] freq@[b] <= 4096,
            sum == int_sum(fa.take(s as int)),
            0 <= sum <= 4096 * s,
        decreases 256 - s,
    {
        proof {
            lemma_int_sum_take_push(fa, s as int);
        }
        sum = sum + freq[s] as i64;
        s += 1;
    }
    proof {
        assert(fa.take(256) =~= fa);
    }
    let ghost sum0 = sum as int;
    if sum < 4096 {
        let m = last_max_u64(&counts);
        proof {
            assert(cs == counts@.map_values(|c: u64| c as int));
            lemma_entry_le_sum(fa, m as int);
            lemma_last_max_of(cs);
            lemma_byte_count_of_member(data@, 0);
            assert(cs[data@[0] as int] >= 1);
            assert(cs[m as int] >= 1);
        }
        freq[m] = freq[m] + (4096 - sum) as u16;
        proof {
            lemma_int_sum_update(fa, m as int, fa[m as int] + 4096 - sum);
            assert(freq@.map_values(|v: u16| v as int) =~= fa.update(m as int, fa[m as int] + 4096 - sum));
        }
        sum = 4096;
    } else {
        while sum > 4096
            invariant
                sum0 >= 4096,
                4096 <= sum <= sum0,
                fa == f0,
                sum == int_sum(freq@.map_values(|v: u16| v as int)),
                shave(f0, (sum0 - 4096) as nat) == shave(freq@.map_values(|v: u16| v as int), (sum - 4096) as nat),
                forall|b: int| 0 <= b < 256 ==> 0 <= #[trigger] freq@[b] <= 4096,
                forall|b: int| 0 <= b < 256 ==> (#[trigger] freq@[b] > 0) == (f0[b] > 0),
            decreases sum,
        {
            let ghost cur = freq@.map_values(|v: u16| v as int);
            let m = last_max_u16(&freq);
            proof {
                lemma_last_max_of(cur);
                if cur[m as int] <= 1 {
                    lemma_small_entries_sum(cur);
                }
            }
            freq[m] = freq[m] - 1;
            proof {
                lemma_int_sum_update(cur, m as int, cur[m as int] - 1);
                assert(freq@.map_values(|v: u16| v as int) =~= cur.update(m as int, cur[m as int] - 1));
            }
            sum = sum - 1;
        }
    }
    assert(freq@.map_values(|v: u16| v as int) == freq_table(data@));
    proof {
        assert forall|b: int| 0 <= b < 256 implies (#[trigger] freq_table(data@)[b] > 0) == (byte_count(data@, b) > 0) by {
            assert(freq@[b] as int == freq_table(data@)[b]);
            assert((f0[b] > 0) == (byte_count(data@, b) > 0));
        }
    }
    let st = starts(&freq);
    (freq, st)
}


/// One slot of the decoding table: the symbol that owns the slot and its
/// frequency and first slot.
#[derive(Clone, Copy)]
pub struct DecEntry {
    pub freq: u16,
    pub start: u16,
    pub sym: u8,
}

/// The entry for slot `j` among the first `n` symbols: the last symbol whose
/// range `start..start + freq` holds `j`, or an empty entry.
pub open spec fn dec_owner(freq: Seq<u16>, start: Seq<u16>, j: int, n: int) -> DecEntry
    decreases n,
{
    if n <= 0 {
        DecEntry { freq: 0, start: 0, sym: 0 }
    } else if start[n - 1] <= j < start[n - 1] + freq[n - 1] {
        DecEntry { freq: freq[n - 1], start: start[n - 1], sym: (n - 1) as u8 }
    } else {
        dec_owner(freq, start, j, n - 1)
    }
}

/// The decoding table: for each of the `M` slots, the symbol that owns it.
pub fn build_decode_table(freq: &[u16; 256], start: &[u16; 256]) -> (table: Vec<DecEntry>)
    requires
        forall|s: int| 0 <= s < 256 ==> #[trigger] start@[s] + freq@[s] <= 4096,
    ensures
        table@.len() == 4096,
        forall|j: int| 0 <= j < 4096 ==> #[trigger] table@[j] == dec_owner(freq@, start@, j, 256),
{
    let mut table: Vec<DecEntry> = Vec::new();
    let mut j: usize = 0;
    while j < 4096
        invariant
            j <= 4096,
            table@.len() == j,
            forall|k: int| 0 <= k < j ==> #[trigger] table@[k] == (DecEntry { freq: 0, start: 0, sym: 0 }),
        decreases 4096 - j,
    {
        table.push(DecEntry { freq: 0, start: 0, sym: 0 });
        j += 1;
    }
    let mut s: usize = 0;
    while s < 256
        invariant
            s <= 256,
            table@.len() == 4096,
            forall|t: int| 0 <= t < 256 ==> #[trigger] start@[t] + freq@[t] <= 4096,
            forall|k: int| 0 <= k < 4096 ==> #[trigger] table@[k] == dec_owner(freq@, start@, k, s as int),
        decreases 256 - s,
    {
        let f = freq[s] as usize;
        let st = start[s] as usize;
        let mut k: usize = 0;
        while k < f
            invariant
                s < 256,
                k <= f,
                f == freq@[s as int],
                st == start@[s as int],
                st + f <= 4096,
                table@.len() == 4096,
                forall|q: int| 0 <= q < 4096 ==> #[trigger] table@[q] == (if st <= q < st + k {
                    (DecEntry { freq: freq@[s as int], start: start@[s as int], sym: s as u8 })
                } else {
                    dec_owner(freq@, start@, q, s as int)
                }),
            decreases f - k,
        {
            table.set(st + k, DecEntry { freq: freq[s], start: start[s], sym: s as u8 });
            k += 1;
        }
        s += 1;
    }
    table
}

/// The coder state and shifted-out bytes after encoding `syms[k..]` as
/// `(freq, start)` pairs, last first, from a fresh encoder.
pub open spec fn enc_from(syms: Seq<(int, int)>, k: int) -> (int, Seq<u8>)
    decreases syms.len() - k,
{
    if k >= syms.len() || k < 0 {
        (8388608, Seq::empty())
    } else {
        let rest = enc_from(syms, k + 1);
        enc_step(rest.0, rest.1, syms[k].0, syms[k].1)
    }
}

/// Whether every symbol is a non-empty slot range inside `0..M`.
pub open spec fn valid_syms(syms: Seq<(int, int)>) -> bool {
    forall|i: int| 0 <= i < syms.len() ==> 1 <= #[trigger] syms[i].0 && 0 <= syms[i].1 && syms[i].0 + syms[i].1 <= 4096
}

/// Streams decode in the order they were given: the decoder at the state for
/// `syms[k..]`, with the bytes still to read, finds its slot in `syms[k]`'s
/// range, and moving over `syms[k]` leaves the state and bytes for
/// `syms[k + 1..]`.
pub proof fn law_stream_roundtrip32(syms: Seq<(int, int)>, k: int)
    requires
        valid_syms(syms),
        0 <= k < syms.len(),
    ensures
        normalized32(enc_from(syms, k).0),
        syms[k].1 <= enc_from(syms, k).0 % 4096 < syms[k].1 + syms[k].0,
        dec_step(enc_from(syms, k).0, enc_from(syms, k).1.reverse(), syms[k].0, syms[k].1) == (
            enc_from(syms, k + 1).0,
            enc_from(syms, k + 1).1.reverse(),
        ),
    decreases syms.len() - k,
{
    let rest = enc_from(syms, k + 1);
    if k + 1 < syms.len() {
        law_stream_roundtrip32(syms, k + 1);
    }
    assert(normalized32(rest.0));
    law_symbol_roundtrip32(rest.0, rest.1, syms[k].0, syms[k].1);
}

proof fn lemma_int_sum_take_monotone(f: Seq<int>, i: int, j: int)
    requires
        0 <= i <= j <= f.len(),
        forall|b: int| 0 <= b < f.len() ==> #[trigger] f[b] >= 0,
    ensures
        int_sum(f.take(i)) <= int_sum(f.take(j)),
    decreases j - i,
{
    if i < j {
        lemma_int_sum_take_monotone(f, i, j - 1);
        lemma_int_sum_take_push(f, j - 1);
    }
}

/// With frequencies that sum to `M` and starts at their running totals, each
/// slot of a used symbol's range belongs to that symbol in the decoding table.
pub proof fn law_decode_table_owner(freq: Seq<u16>, start: Seq<u16>, s: int, j: int)
    requires
        freq.len() == 256,
        start.len() == 256,
        int_sum(freq.map_values(|v: u16| v as int)) == 4096,
        start.map_values(|v: u16| v as int) == start_table(freq.map_values(|v: u16| v as int)),
        0 <= s < 256,
        start[s] <= j < start[s] + freq[s],
    ensures
        dec_owner(freq, start, j, 256) == (DecEntry { freq: freq[s], start: start[s], sym: s as u8 }),
{
    let f = freq.map_values(|v: u16| v as int);
    assert(f.take(256) =~= f);
    assert forall|t: int| s < t <= 256 implies int_sum(f.take(s + 1)) <= #[trigger] int_sum(f.take(t)) <= 4096 by {
        lemma_int_sum_take_monotone(f, s + 1, t);
        lemma_int_sum_take_monotone(f, t, 256);
    }
    lemma_int_sum_take_push(f, s);
    lemma_int_sum_take_monotone(f, 0, s);
    assert(start.map_values(|v: u16| v as int)[s] == int_sum(f.take(s)) % 65536);
    assert(start[s] as int == int_sum(f.take(s)));
    assert forall|t: int| s < t < 256 implies j < #[trigger] start[t] by {
        assert(start.map_values(|v: u16| v as int)[t] == int_sum(f.take(t)) % 65536);
        assert(int_sum(f.take(s + 1)) <= int_sum(f.take(t)) <= 4096);
    }
    lemma_owner_skips(freq, start, j, 256, s);
}

proof fn lemma_owner_skips(freq: Seq<u16>, start: Seq<u16>, j: int, n: int, s: int)
    requires
        0 <= s < n <= 256,
        freq.len() == 256,
        start.len() == 256,
        forall|t: int| s < t < 256 ==> j < #[trigger] start[t],
    ensures
        dec_owner(freq, start, j, n) == dec_owner(freq, start, j, s + 1),
    decreases n,
{
    if n > s + 1 {
        assert(j < start[n - 1]);
        lemma_owner_skips(freq, start, j, n - 1, s);
    }
}


/// The `(freq, start)` pair of each byte of `data` under the given tables.
pub open spec fn table_syms(data: Seq<u8>, freq: Seq<u16>, start: Seq<u16>) -> Seq<(int, int)> {
    Seq::new(data.len(), |i: int| (freq[data[i] as int] as int, start[data[i] as int] as int))
}

/// Bytes coded with a frequency table that sums to `M`, starts at the running
/// totals and a non-zero frequency for every byte present, decode in order:
/// at step `k` the decoding table names byte `data[k]` with its frequency and
/// start, and moving over it leaves the state for the rest of the bytes.
pub proof fn law_table_stream_roundtrip(data: Seq<u8>, freq: Seq<u16>, start: Seq<u16>, k: int)
    requires
        freq.len() == 256,
        start.len() == 256,
        int_sum(freq.map_values(|v: u16| v as int)) == 4096,
        start.map_values(|v: u16| v as int) == start_table(freq.map_values(|v: u16| v as int)),
        forall|i: int| 0 <= i < data.len() ==> #[trigger] freq[data[i] as int] > 0,
        0 <= k < data.len(),
    ensures
        dec_owner(freq, start, enc_from(table_syms(data, freq, start), k).0 % 4096, 256) == (DecEntry {
            freq: freq[data[k] as int],
            start: start[data[k] as int],
            sym: data[k],
        }),
        dec_step(
            enc_from(table_syms(data, freq, start), k).0,
            enc_from(table_syms(data, freq, start), k).1.reverse(),
            freq[data[k] as int] as int,
            start[data[k] as int] as int,
        ) == (enc_from(table_syms(data, freq, start), k + 1).0, enc_from(table_syms(data, freq, start), k + 1).1.reverse()),
{
    let f = freq.map_values(|v: u16| v as int);
    let syms = table_syms(data, freq, start);
    assert(f.take(256) =~= f);
    assert forall|i: int| 0 <= i < syms.len() implies 1 <= #[trigger] syms[i].0 && 0 <= syms[i].1 && syms[i].0 + syms[i].1 <= 4096 by {
        let b = data[i] as int;
        lemma_int_sum_take_push(f, b);
        lemma_int_sum_take_monotone(f, 0, b);
        lemma_int_sum_take_monotone(f, b + 1, 256);
        assert(start.map_values(|v: u16| v as int)[b] == int_sum(f.take(b)) % 65536);
    }
    law_stream_roundtrip32(syms, k);
    let b = data[k] as int;
    law_decode_table_owner(freq, start, b, enc_from(syms, k).0 % 4096);
    assert(b as u8 == data[k]);
}

} // verus!
