use vstd::prelude::*;

verus! {

/// The zstd level that region files are written with unless told otherwise.
pub const ZSTD_COMPRESSION_LEVEL_DEFAULT: i32 = 8;

/// The zstd frame that compressing `input` at `level` gives.
pub uninterp spec fn zstd_compressed(input: Seq<u8>, level: i32) -> Seq<u8>;

/// The bytes that decoding the zstd stream `input` gives.
pub uninterp spec fn zstd_decoded(input: Seq<u8>) -> Seq<u8>;

/// Whether `input` is a well-formed zstd stream, one that decoding accepts.
pub uninterp spec fn zstd_decodes(input: Seq<u8>) -> bool;

/// `zstd::bulk::compress`: the frame for `input` at `level`, a well-formed
/// stream that decodes back to `input` (zstd is lossless). It succeeds on
/// every input: the level is clamped to zstd's range and the output buffer is
/// sized by `compress_bound`, so only running out of memory, which aborts,
/// stops it.
#[verifier::external_body]
fn zstd_compress(input: &[u8], level: i32) -> (r: Result<Vec<u8>, String>)
    ensures
        r is Ok,
        r matches Ok(v) ==> v@ == zstd_compressed(input@, level) && zstd_decoded(v@) == input@ && zstd_decodes(v@),
{
    zstd::bulk::compress(input, level).map_err(|e| format!("ZSTD bulk compression error: {e}"))
}

/// `zstd::decode_all`: the decoded bytes of `input`; it fails exactly where
/// `input` is not a well-formed zstd stream.
#[verifier::external_body]
fn zstd_decode_all(input: &[u8]) -> (r: Result<Vec<u8>, String>)
    ensures
        r is Ok <==> zstd_decodes(input@),
        r matches Ok(v) ==> v@ == zstd_decoded(input@),
{
    zstd::decode_all(input).map_err(|e| format!("ZSTD decompression error: {e}"))
}

/// The parts one after another.
pub open spec fn joined(parts: Seq<&[u8]>) -> Seq<u8>
    decreases parts.len(),
{
    if parts.len() == 0 {
        Seq::empty()
    } else {
        joined(parts.drop_last()) + parts.last()@
    }
}

/// Compresses the parts, one after another, into one zstd frame at
/// `compression_level`.
pub fn compress_zstd_parts(parts: &[&[u8]], compression_level: i32) -> (r: Result<Vec<u8>, String>)
    ensures
        r is Ok,
        r matches Ok(v) ==> v@ == zstd_compressed(joined(parts@), compression_level) && zstd_decoded(v@) == joined(
            parts@,
        ) && zstd_decodes(v@),
{
    let mut contiguous: Vec<u8> = Vec::new();
    let mut i: usize = 0;
    while i < parts.len()
        invariant
            i <= parts@.len(),
            contiguous@ == joined(parts@.take(i as int)),
        decreases parts@.len() - i,
    {
        let part = parts[i];
        let mut k: usize = 0;
        let ghost before = contiguous@;
        while k < part.len()
            invariant
                k <= part@.len(),
                contiguous@ == before + part@.take(k as int),
            decreases part@.len() - k,
        {
            contiguous.push(part[k]);
            proof {
                assert(part@.take(k + 1) =~= part@.take(k as int).push(part@[k as int]));
            }
            k += 1;
        }
        proof {
            assert(part@.take(part@.len() as int) =~= part@);
            assert(parts@.take(i + 1).drop_last() =~= parts@.take(i as int));
        }
        i += 1;
    }
    proof {
        assert(parts@.take(parts@.len() as int) =~= parts@);
    }
    zstd_compress(contiguous.as_slice(), compression_level)
}

/// Decompresses a zstd stream.
pub fn decompress_zstd(input: &[u8]) -> (r: Result<Vec<u8>, String>)
    ensures
        r is Ok <==> zstd_decodes(input@),
        r matches Ok(v) ==> v@ == zstd_decoded(input@),
{
    zstd_decode_all(input)
}

} // verus!
