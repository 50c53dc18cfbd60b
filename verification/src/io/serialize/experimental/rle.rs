use vstd::prelude::*;

use crate::io::serialize::error::ReadError;

verus! {

/// The byte that opens a run marker; a literal escape byte is written twice.
pub const ESCAPE: u8 = 0x59;

pub const THRESHOLD: usize = 3;
const MAX_MARKER_RUN: usize = 130;

/// Bytes that the encoder collapses into run markers.
pub open spec fn is_run_byte(b: u8) -> bool {
    b == 0x00 || b == 0xFF
}

/// How many leading bytes of `s` equal `v`.
pub open spec fn run_length(s: Seq<u8>, v: u8) -> nat
    decreases s.len(),
{
    if s.len() > 0 && s[0] == v {
        1 + run_length(s.drop_first(), v)
    } else {
        0
    }
}

/// The high bit of a run marker: set for runs of `0xFF`.
pub open spec fn run_flag(v: u8) -> int {
    if v == 0xFF { 0x80 } else { 0 }
}

/// `v` repeated `n` times.
pub open spec fn repeated(v: u8, n: nat) -> Seq<u8> {
    Seq::new(n, |_i: int| v)
}

/// The encoding of a run of `r` copies of the run byte `v`: markers of at most
/// `MAX_MARKER_RUN` bytes each (one byte shorter where the marker would read as
/// an escape), then the leftover bytes, fewer than `THRESHOLD`, as literals.
pub open spec fn encode_run(v: u8, r: nat) -> Seq<u8>
    decreases r,
{
    if r < 3 {
        repeated(v, r)
    } else {
        let chunk: nat = if r < 130 { r } else { 130 };
        let code = run_flag(v) + (chunk - 3);
        if code == ESCAPE as int {
            seq![ESCAPE, (run_flag(v) + (chunk - 4)) as u8] + encode_run(v, (r - (chunk - 1)) as nat)
        } else {
            seq![ESCAPE, code as u8] + encode_run(v, (r - chunk) as nat)
        }
    }
}

pub proof fn lemma_run_length_bound(s: Seq<u8>, v: u8)
    ensures
        run_length(s, v) <= s.len(),
        forall|k: int| 0 <= k < run_length(s, v) ==> s[k] == v,
        run_length(s, v) < s.len() ==> s[run_length(s, v) as int] != v,
    decreases s.len(),
{
    if s.len() > 0 && s[0] == v {
        lemma_run_length_bound(s.drop_first(), v);
        assert forall|k: int| 0 <= k < run_length(s, v) implies s[k] == v by {
            if k > 0 {
                assert(s[k] == s.drop_first()[k - 1]);
            }
        }
        if run_length(s, v) < s.len() {
            assert(s[run_length(s, v) as int] == s.drop_first()[run_length(s.drop_first(), v) as int]);
        }
    }
}

/// The encoded form of `s`, read from the front: literal bytes (an escape byte
/// doubled) and, for each maximal run of `0x00` or `0xFF`, its run encoding.
pub open spec fn rle_encoding(s: Seq<u8>) -> Seq<u8>
    decreases s.len(),
{
    if s.len() == 0 {
        Seq::empty()
    } else if !is_run_byte(s[0]) {
        (if s[0] == ESCAPE { seq![ESCAPE, ESCAPE] } else { seq![s[0]] }) + rle_encoding(s.drop_first())
    } else {
        let r = run_length(s, s[0]);
        proof {
            lemma_run_length_bound(s, s[0]);
        }
        encode_run(s[0], r) + rle_encoding(s.skip(r as int))
    }
}

/// What decoding `src` into an output of `n` bytes yields; `None` where the
/// stream ends early, an escape is cut off, or a run overshoots `n`.
pub open spec fn rle_decoding(src: Seq<u8>, n: nat) -> Option<Seq<u8>>
    decreases src.len(),
{
    if n == 0 {
        Some(Seq::empty())
    } else if src.len() == 0 {
        None
    } else if src[0] != ESCAPE {
        match rle_decoding(src.drop_first(), (n - 1) as nat) {
            Some(r) => Some(seq![src[0]] + r),
            None => None,
        }
    } else if src.len() < 2 {
        None
    } else if src[1] == ESCAPE {
        match rle_decoding(src.skip(2), (n - 1) as nat) {
            Some(r) => Some(seq![ESCAPE] + r),
            None => None,
        }
    } else {
        let value: u8 = if src[1] >= 0x80 { 0xFF } else { 0x00 };
        let count: nat = 3 + (src[1] % 0x80) as nat;
        if count > n {
            None
        } else {
            match rle_decoding(src.skip(2), (n - count) as nat) {
                Some(r) => Some(repeated(value, count) + r),
                None => None,
            }
        }
    }
}

/// `prefix` put in front of what `o` holds.
pub open spec fn prepend(prefix: Seq<u8>, o: Option<Seq<u8>>) -> Option<Seq<u8>> {
    match o {
        Some(r) => Some(prefix + r),
        None => None,
    }
}

proof fn lemma_decode_literals(v: u8, k: nat, t: Seq<u8>, m: nat)
    requires
        v != ESCAPE,
    ensures
        rle_decoding(repeated(v, k) + t, k + m) == prepend(repeated(v, k), rle_decoding(t, m)),
    decreases k,
{
    let src = repeated(v, k) + t;
    if k == 0 {
        assert(src =~= t);
        match rle_decoding(t, m) {
            Some(r) => assert(repeated(v, 0) + r =~= r),
            None => {},
        }
    } else {
        assert(src[0] == v);
        assert(src.drop_first() =~= repeated(v, (k - 1) as nat) + t);
        lemma_decode_literals(v, (k - 1) as nat, t, m);
        match rle_decoding(t, m) {
            Some(r) => {
                assert(seq![v] + (repeated(v, (k - 1) as nat) + r) =~= repeated(v, k) + r);
            },
            None => {},
        }
    }
}

proof fn lemma_decode_run(v: u8, r: nat, t: Seq<u8>, m: nat)
    requires
        is_run_byte(v),
    ensures
        rle_decoding(encode_run(v, r) + t, r + m) == prepend(repeated(v, r), rle_decoding(t, m)),
    decreases r,
{
    if r < 3 {
        lemma_decode_literals(v, r, t, m);
    } else {
        let chunk: nat = if r < 130 { r } else { 130 };
        let code = run_flag(v) + (chunk - 3);
        let count: nat = if code == ESCAPE as int { (chunk - 1) as nat } else { chunk };
        let marker: u8 = (run_flag(v) + (count - 3)) as u8;
        let rest = (r - count) as nat;
        let src = encode_run(v, r) + t;
        assert(encode_run(v, r) == seq![ESCAPE, marker] + encode_run(v, rest));
        assert(src[0] == ESCAPE);
        assert(src[1] == marker);
        assert(marker != ESCAPE);
        assert(src.skip(2) =~= encode_run(v, rest) + t);
        assert(marker % 0x80 == count - 3);
        assert((marker >= 0x80) == (v == 0xFF));
        lemma_decode_run(v, rest, t, m);
        match rle_decoding(t, m) {
            Some(x) => {
                assert(repeated(v, count) + (repeated(v, rest) + x) =~= repeated(v, r) + x);
            },
            None => {},
        }
    }
}

/// Decoding what `s` encodes to, followed by any bytes `t`, gives back `s` and
/// then what `t` decodes to.
pub proof fn lemma_decode_encoding(s: Seq<u8>, t: Seq<u8>, m: nat)
    ensures
        rle_decoding(rle_encoding(s) + t, s.len() + m) == prepend(s, rle_decoding(t, m)),
    decreases s.len(),
{
    if s.len() == 0 {
        assert(rle_encoding(s) + t =~= t);
        match rle_decoding(t, m) {
            Some(r) => assert(s + r =~= r),
            None => {},
        }
    } else if !is_run_byte(s[0]) {
        let s1 = s.drop_first();
        lemma_decode_encoding(s1, t, m);
        let src = rle_encoding(s) + t;
        if s[0] == ESCAPE {
            assert(src[0] == ESCAPE && src[1] == ESCAPE);
            assert(src.skip(2) =~= rle_encoding(s1) + t);
        } else {
            assert(src[0] == s[0]);
            assert(src.drop_first() =~= rle_encoding(s1) + t);
        }
        match rle_decoding(t, m) {
            Some(r) => assert(seq![s[0]] + (s1 + r) =~= s + r),
            None => {},
        }
    } else {
        let v = s[0];
        let r = run_length(s, v);
        lemma_run_length_bound(s, v);
        let s2 = s.skip(r as int);
        assert(s =~= repeated(v, r) + s2);
        lemma_decode_encoding(s2, t, m);
        assert(rle_encoding(s) + t =~= encode_run(v, r) + (rle_encoding(s2) + t));
        lemma_decode_run(v, r, rle_encoding(s2) + t, s2.len() + m);
        match rle_decoding(t, m) {
            Some(x) => assert(repeated(v, r) + (s2 + x) =~= s + x),
            None => {},
        }
    }
}

/// Decoding the encoding of `s` into `s.len()` bytes gives back `s`.
pub proof fn lemma_rle_roundtrip(s: Seq<u8>)
    ensures
        rle_decoding(rle_encoding(s), s.len()) == Some(s),
{
    lemma_decode_encoding(s, Seq::empty(), 0);
    assert(rle_encoding(s) + Seq::<u8>::empty() =~= rle_encoding(s));
    assert(s + Seq::<u8>::empty() =~= s);
}


proof fn lemma_run_length_exact(s: Seq<u8>, v: u8, j: nat)
    requires
        j <= s.len(),
        forall|k: int| 0 <= k < j ==> s[k] == v,
        j == s.len() || s[j as int] != v,
    ensures
        run_length(s, v) == j,
    decreases j,
{
    if j > 0 {
        assert forall|k: int| 0 <= k < j - 1 implies s.drop_first()[k] == v by {
            assert(s.drop_first()[k] == s[k + 1]);
        }
        if j < s.len() {
            assert(s.drop_first()[j - 1] == s[j as int]);
        }
        lemma_run_length_exact(s.drop_first(), v, (j - 1) as nat);
    } else if s.len() > 0 {
        assert(s[0] != v);
    }
}

fn push_repeated(dst: &mut Vec<u8>, value: u8, count: usize)
    ensures
        final(dst)@ == old(dst)@ + repeated(value, count as nat),
{
    let mut k: usize = 0;
    while k < count
        invariant
            k <= count,
            dst@ == old(dst)@ + repeated(value, k as nat),
        decreases count - k,
    {
        dst.push(value);
        k += 1;
        assert(dst@ =~= old(dst)@ + repeated(value, k as nat));
    }
}

/// Appends the run-length encoding of `src` to `dst`: runs of three or more
/// `0x00` or `0xFF` bytes become escape markers, every other byte is copied,
/// and a literal escape byte is doubled.
pub fn encode(src: &[u8], dst: &mut Vec<u8>)
    ensures
        final(dst)@ == old(dst)@ + rle_encoding(src@),
{
    let mut i: usize = 0;
    assert(src@.skip(0) =~= src@);
    assert(dst@ + rle_encoding(src@.skip(0)) =~= old(dst)@ + rle_encoding(src@));
    while i < src.len()
        invariant
            i <= src.len(),
            dst@ + rle_encoding(src@.skip(i as int)) == old(dst)@ + rle_encoding(src@),
        decreases src.len() - i,
    {
        let value = src[i];
        let ghost rest = src@.skip(i as int);
        let ghost before = dst@;
        assert(rest[0] == value);
        if value != 0x00 && value != 0xFF {
            if value == ESCAPE {
                dst.push(ESCAPE);
                dst.push(ESCAPE);
            } else {
                dst.push(value);
            }
            assert(rest.drop_first() =~= src@.skip(i + 1));
            i += 1;
            assert(dst@ + rle_encoding(src@.skip(i as int)) =~= before + rle_encoding(rest));
            continue;
        }

        let mut run_end = i + 1;
        while run_end < src.len() && src[run_end] == value
            invariant
                i < run_end <= src.len(),
                src@[i as int] == value,
                forall|k: int| i <= k < run_end ==> src@[k] == value,
            decreases src.len() - run_end,
        {
            run_end += 1;
        }
        let run_len = run_end - i;
        proof {
            assert forall|k: int| 0 <= k < run_len implies rest[k] == value by {
                assert(rest[k] == src@[i + k]);
            }
            if run_len < rest.len() {
                assert(rest[run_len as int] == src@[run_end as int]);
            }
            lemma_run_length_exact(rest, value, run_len as nat);
            assert(rest.skip(run_len as int) =~= src@.skip(run_end as int));
        }

        let ghost run_start = dst@;
        if run_len < THRESHOLD {
            push_repeated(dst, value, run_len);
        } else {
            let value_bit: u8 = if value == 0xFF { 0x80 } else { 0x00 };
            let mut remaining = run_len;
            while remaining >= THRESHOLD
                invariant
                    value == 0x00 || value == 0xFF,
                    value_bit as int == run_flag(value),
                    remaining <= run_len,
                    dst@ + encode_run(value, remaining as nat) == run_start + encode_run(value, run_len as nat),
                decreases remaining,
            {
                let chunk = if remaining < MAX_MARKER_RUN { remaining } else { MAX_MARKER_RUN };
                let n = (chunk - THRESHOLD) as u8;
                let code = value_bit | n;
                assert(value_bit | n == value_bit + n) by (bit_vector)
                    requires value_bit == 0 || value_bit == 0x80, n < 128;
                let ghost mid = dst@;
                if code == ESCAPE {
                    let adjusted_chunk = chunk - 1;
                    let adjusted_n = (adjusted_chunk - THRESHOLD) as u8;
                    assert(value_bit | adjusted_n == value_bit + adjusted_n) by (bit_vector)
                        requires value_bit == 0 || value_bit == 0x80, adjusted_n < 128;
                    dst.push(ESCAPE);
                    dst.push(value_bit | adjusted_n);
                    remaining -= adjusted_chunk;
                } else {
                    dst.push(ESCAPE);
                    dst.push(code);
                    remaining -= chunk;
                }
                assert(dst@ + encode_run(value, remaining as nat) =~= mid + encode_run(value, (remaining + (if code == ESCAPE { (chunk - 1) as int } else { chunk as int })) as nat));
            }
            push_repeated(dst, value, remaining);
        }
        assert(dst@ =~= run_start + encode_run(value, run_len as nat));
        i = run_end;
        assert(dst@ + rle_encoding(src@.skip(i as int)) =~= before + rle_encoding(rest));
    }
}

#[verifier::external_body]
fn underflow_message(produced: usize, target: usize) -> String {
    format!("RLE decode underflow: produced {produced}/{target} output bytes")
}

#[verifier::external_body]
fn overflow_message(count: usize, offset: usize, target: usize) -> String {
    format!("RLE decode overflow: run of {count} at output offset {offset}, target {target}")
}

/// Decodes `src` until `dst` is full. Succeeds exactly when the stream holds
/// enough whole tokens to fill `dst` with no run passing its end; the bytes of
/// `dst` are then what the stream decodes to.
pub fn decode(src: &[u8], dst: &mut [u8]) -> (r: Result<(), ReadError>)
    ensures
        final(dst)@.len() == old(dst)@.len(),
        r is Ok <==> rle_decoding(src@, old(dst)@.len() as nat) is Some,
        r is Ok ==> rle_decoding(src@, old(dst)@.len() as nat) == Some(final(dst)@),
        r matches Err(e) ==> e is Generic,
{
    let n = dst.len();
    let mut si: usize = 0;
    let mut di: usize = 0;
    assert(src@.skip(0) =~= src@);
    assert(dst@.take(0) + Seq::<u8>::empty() =~= Seq::<u8>::empty());
    while di < n
        invariant
            n == dst@.len(),
            n == old(dst)@.len(),
            si <= src.len(),
            di <= n,
            rle_decoding(src@, n as nat) == prepend(dst@.take(di as int), rle_decoding(src@.skip(si as int), (n - di) as nat)),
        decreases src.len() - si,
    {
        let ghost rest = src@.skip(si as int);
        let ghost done = dst@.take(di as int);
        if si >= src.len() {
            return Err(ReadError::Generic(underflow_message(di, n)));
        }

        let b = src[si];
        si += 1;
        assert(rest[0] == b);

        if b != ESCAPE {
            dst[di] = b;
            di += 1;
            assert(rest.drop_first() =~= src@.skip(si as int));
            assert(dst@.take(di as int) =~= done + seq![b]);
            proof {
                match rle_decoding(src@.skip(si as int), (n - di) as nat) {
                    Some(x) => assert(done + (seq![b] + x) =~= dst@.take(di as int) + x),
                    None => {},
                }
            }
            continue;
        }

        if si >= src.len() {
            return Err(ReadError::Generic("RLE decode truncated after escape byte".to_string()));
        }

        let code = src[si];
        si += 1;
        assert(rest[1] == code);
        assert(rest.skip(2) =~= src@.skip(si as int));

        if code == ESCAPE {
            dst[di] = ESCAPE;
            di += 1;
            assert(dst@.take(di as int) =~= done + seq![ESCAPE]);
            proof {
                match rle_decoding(src@.skip(si as int), (n - di) as nat) {
                    Some(x) => assert(done + (seq![ESCAPE] + x) =~= dst@.take(di as int) + x),
                    None => {},
                }
            }
            continue;
        }

        assert((code & 0x80 != 0) == (code >= 0x80)) by (bit_vector);
        assert((code & 0x7F) == code % 0x80) by (bit_vector);
        let value: u8 = if code & 0x80 != 0 { 0xFF } else { 0x00 };
        let count = THRESHOLD + (code & 0x7F) as usize;

        if count > n - di {
            return Err(ReadError::Generic(overflow_message(count, di, n)));
        }

        let start = di;
        while di < start + count
            invariant
                start <= di <= start + count,
                start + count <= n,
                n == dst@.len(),
                dst@.take(di as int) == done + repeated(value, (di - start) as nat),
            decreases start + count - di,
        {
            let ghost prev = dst@;
            dst[di] = value;
            di += 1;
            assert(dst@.take(di as int) =~= prev.take((di - 1) as int) + seq![value]);
            assert(done + repeated(value, (di - start) as nat) =~= (done + repeated(value, (di - 1 - start) as nat)) + seq![value]);
        }
        proof {
            match rle_decoding(src@.skip(si as int), (n - di) as nat) {
                Some(x) => assert(done + (repeated(value, count as nat) + x) =~= dst@.take(di as int) + x),
                None => {},
            }
        }
    }
    assert(dst@.take(n as int) =~= dst@);
    assert(dst@ + Seq::<u8>::empty() =~= dst@);
    Ok(())
}

} // verus!
