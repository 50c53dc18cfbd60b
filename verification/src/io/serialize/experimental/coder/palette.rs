use vstd::prelude::*;

use crate::io::serialize::experimental::rans::{
    build_cum_freqs, build_slot_table, count_ge, encode_from, flush_bit_recs, law_normalized_table_total, le_u32,
    lemma_seq_sum_bound, lemma_seq_sum_prefix_monotone, normalize_counts, normalized, normalized_table, seq_sum, slot_owner, BitRec,
    NzCoder, RansDecoder, RansEncoder, CoderState, fresh_state, state_records, state_after, state_decode, state_wf, rec_symbol,
    le_u32_value, lemma_fresh_state_wf, lemma_state_after_wf, law_value_roundtrip, records_at, valid_symbols, lemma_records_valid,
    lemma_valid_records, law_flush_then_open, law_stream_roundtrip,
};
use crate::region::palette::{lemma_occurrences_bound, occurrences};
use crate::io::serialize::primitives::{le_bytes, put_bytes, put_u16_le, put_u32_le, put_u8};

verus! {

pub const ORDER1_CONTEXTS: usize = 128;

/// The coder context that follows an atom of rank `rank`.
pub fn markov_context_for(rank: usize) -> (r: usize)
    ensures
        r == (if rank < 127 { rank } else { 127 }),
{
    if rank < ORDER1_CONTEXTS - 1 {
        rank
    } else {
        ORDER1_CONTEXTS - 1
    }
}

/// The coder context that follows an atom of rank `rank`.
pub open spec fn context_after(rank: u32) -> int {
    if rank < 127 {
        rank as int
    } else {
        127
    }
}

/// The context of the `k`-th rank of an entry: 128 for the first, then the
/// context after the rank before it.
pub open spec fn context_at(ranks: Seq<u32>, k: int) -> int {
    if k == 0 {
        128
    } else {
        context_after(ranks[k - 1])
    }
}

/// The records and coder states after coding the first `k` ranks of an
/// entry from the states `sts`.
pub open spec fn entry_run(sts: Seq<CoderState>, ranks: Seq<u32>, k: nat) -> (Seq<BitRec>, Seq<CoderState>)
    decreases k,
{
    if k == 0 {
        (Seq::empty(), sts)
    } else {
        let (recs, s1) = entry_run(sts, ranks, (k - 1) as nat);
        let c = context_at(ranks, k - 1);
        (recs + state_records(s1[c], ranks[k - 1]), s1.update(c, state_after(s1[c], ranks[k - 1])))
    }
}

/// The records and coder states after coding the first `e` entries.
pub open spec fn entries_run(sts: Seq<CoderState>, lists: Seq<Seq<u32>>, e: nat) -> (Seq<BitRec>, Seq<CoderState>)
    decreases e,
{
    if e == 0 {
        (Seq::empty(), sts)
    } else {
        let (recs, s1) = entries_run(sts, lists, (e - 1) as nat);
        let (r2, s2) = entry_run(s1, lists[e - 1], lists[e - 1].len());
        (recs + r2, s2)
    }
}

/// The ranks of the atoms of each entry.
pub open spec fn rank_lists(entries: Seq<Vec<u16>>, val_to_rank: Seq<u16>) -> Seq<Seq<u32>> {
    Seq::new(entries.len(), |i: int| Seq::new(entries[i]@.len(), |j: int| val_to_rank[entries[i]@[j] as int] as u32))
}

/// The states of the 129 coders before anything is coded.
pub open spec fn fresh_states() -> Seq<CoderState> {
    Seq::new(129, |_i: int| fresh_state())
}

/// The stream that the records make: coded last record first, then the
/// final state's four bytes.
pub open spec fn bit_stream(recs: Seq<BitRec>) -> Seq<u8> {
    let syms = recs.map_values(|x: BitRec| rec_symbol(x));
    encode_from(syms, 0).1 + le_u32(encode_from(syms, 0).0 as u32)
}

/// The order-1 stream of the entries' atoms under `val_to_rank`.
pub open spec fn order1_stream(entries: Seq<Vec<u16>>, val_to_rank: Seq<u16>) -> Seq<u8> {
    bit_stream(entries_run(fresh_states(), rank_lists(entries, val_to_rank), entries.len()).0)
}

/// The place of `a` in `dict`.
pub open spec fn rank_in(dict: Seq<u16>, a: u16) -> int {
    choose|i: int| 0 <= i < dict.len() && dict[i] == a
}

/// The rank in `dict` of each atom of each entry.
pub open spec fn dict_ranks(entries: Seq<Vec<u16>>, dict: Seq<u16>) -> Seq<Seq<u32>> {
    Seq::new(entries.len(), |i: int| Seq::new(entries[i]@.len(), |j: int| rank_in(dict, entries[i]@[j]) as u32))
}

/// The order-1 stream of the entries' atoms ranked by `dict`.
pub open spec fn order1_atoms(entries: Seq<Vec<u16>>, dict: Seq<u16>) -> Seq<u8> {
    bit_stream(entries_run(fresh_states(), dict_ranks(entries, dict), entries.len()).0)
}

/// Every state well formed.
pub open spec fn states_wf(sts: Seq<CoderState>) -> bool {
    &&& sts.len() == 129
    &&& forall|i: int| 0 <= i < 129 ==> state_wf(#[trigger] sts[i])
}

fn fresh_coders() -> (r: Vec<Box<NzCoder>>)
    ensures
        r@.len() == 129,
        forall|i: int| 0 <= i < 129 ==> #[trigger] r@[i].wf(),
        forall|i: int| 0 <= i < 129 ==> #[trigger] r@[i].state() == fresh_state(),
{
    let mut coders: Vec<Box<NzCoder>> = Vec::new();
    let mut i: usize = 0;
    while i < 129
        invariant
            i <= 129,
            coders@.len() == i,
            forall|j: int| 0 <= j < i ==> #[trigger] coders@[j].wf(),
            forall|j: int| 0 <= j < i ==> #[trigger] coders@[j].state() == fresh_state(),
        decreases 129 - i,
    {
        coders.push(NzCoder::new());
        i += 1;
    }
    coders
}

/// Codes the atoms of every entry by their rank, each with the coder of the
/// rank before it in the entry (a separate one for the first atom).
pub fn encode_atoms_order1(entry_atoms: &[Vec<u16>], val_to_rank: &[u16]) -> (r: Vec<u8>)
    requires
        val_to_rank@.len() == 65536,
    ensures
        r@ == order1_stream(entry_atoms@, val_to_rank@),
{
    let ghost lists = rank_lists(entry_atoms@, val_to_rank@);
    let mut coders = fresh_coders();
    let mut recs: Vec<BitRec> = Vec::new();
    proof {
        assert(coders@.map_values(|c: Box<NzCoder>| c.state()) =~= fresh_states());
    }
    let mut e: usize = 0;
    while e < entry_atoms.len()
        invariant
            val_to_rank@.len() == 65536,
            lists == rank_lists(entry_atoms@, val_to_rank@),
            e <= entry_atoms@.len(),
            coders@.len() == 129,
            forall|i: int| 0 <= i < 129 ==> #[trigger] coders@[i].wf(),
            forall|i: int| 0 <= i < recs@.len() ==> 1 <= #[trigger] recs@[i].f0 <= 4095,
            recs@ == entries_run(fresh_states(), lists, e as nat).0,
            coders@.map_values(|c: Box<NzCoder>| c.state()) == entries_run(fresh_states(), lists, e as nat).1,
        decreases entry_atoms@.len() - e,
    {
        let atoms = &entry_atoms[e];
        let ghost ranks = lists[e as int];
        let ghost recs0 = recs@;
        let ghost sts0 = coders@.map_values(|c: Box<NzCoder>| c.state());
        let mut prev: usize = ORDER1_CONTEXTS;
        let mut k: usize = 0;
        while k < atoms.len()
            invariant
                val_to_rank@.len() == 65536,
                ranks == lists[e as int],
                lists == rank_lists(entry_atoms@, val_to_rank@),
                e < entry_atoms@.len(),
                atoms@ == entry_atoms@[e as int]@,
                ranks.len() == atoms@.len(),
                k <= atoms@.len(),
                prev == context_at(ranks, k as int),
                prev <= 128,
                coders@.len() == 129,
                forall|i: int| 0 <= i < 129 ==> #[trigger] coders@[i].wf(),
                forall|i: int| 0 <= i < recs@.len() ==> 1 <= #[trigger] recs@[i].f0 <= 4095,
                recs@ == recs0 + entry_run(sts0, ranks, k as nat).0,
                coders@.map_values(|c: Box<NzCoder>| c.state()) == entry_run(sts0, ranks, k as nat).1,
            decreases atoms@.len() - k,
        {
            let rank = val_to_rank[atoms[k] as usize] as u32;
            let ghost before = coders@.map_values(|c: Box<NzCoder>| c.state());
            proof {
                assert(rank == ranks[k as int]);
                assert(before[prev as int] == coders@[prev as int].state());
            }
            coders[prev].encode(&mut recs, rank);
            proof {
                let (r1, s1) = entry_run(sts0, ranks, k as nat);
                assert(entry_run(sts0, ranks, (k + 1) as nat) == (r1 + state_records(s1[prev as int], rank), s1.update(
                    prev as int,
                    state_after(s1[prev as int], rank),
                )));
                assert(coders@.map_values(|c: Box<NzCoder>| c.state()) =~= before.update(
                    prev as int,
                    state_after(before[prev as int], rank),
                ));
            }
            prev = markov_context_for(rank as usize);
            k += 1;
        }
        proof {
            assert(ranks.len() == lists[e as int].len());
        }
        e += 1;
    }
    proof {
        assert(recs@.map_values(|x: BitRec| rec_symbol(x)) == recs@.map_values(|x: BitRec| rec_symbol(x)));
    }
    flush_bit_recs(&recs)
}


pub const MODE_RAW: u8 = 0;
pub const MODE_RANS1: u8 = 2;
pub const MAX_ALPHABET: usize = 4000;

/// The raw layout of entries: each entry's length as 16 bits, then its atoms,
/// 16 bits each, little endian.
pub open spec fn raw_entries(entries: Seq<Vec<u16>>) -> Seq<u8>
    decreases entries.len(),
{
    if entries.len() == 0 {
        Seq::empty()
    } else {
        raw_entries(entries.drop_last()) + raw_entry(entries.last()@)
    }
}

pub open spec fn raw_entry(atoms: Seq<u16>) -> Seq<u8> {
    le_bytes((atoms.len() as u16) as int, 2) + raw_atoms(atoms)
}

pub open spec fn raw_atoms(atoms: Seq<u16>) -> Seq<u8>
    decreases atoms.len(),
{
    if atoms.len() == 0 {
        Seq::empty()
    } else {
        raw_atoms(atoms.drop_last()) + le_bytes(atoms.last() as int, 2)
    }
}

/// The message of a palette stream error.
fn palette_error(what: &str) -> (r: String)
    ensures
        r@ == what@,
{
    proof {
        broadcast use vstd::string::to_string_from_display_ensures_for_str;
    }
    what.to_string()
}

#[verifier::external_body]
/// The message for a rank outside the dictionary (`format!`).
fn rank_error(rank: usize, dict_len: usize) -> String {
    format!("palette order-1 rank {rank} out of dict range {dict_len}")
}

#[verifier::external_body]
/// The message for an unknown mode byte (`format!`).
fn mode_error(mode: u8) -> String {
    format!("palette: unknown mode {mode}")
}

/// The 16-bit value at `*pos`, which then moves past it.
fn read_u16(data: &[u8], pos: &mut usize) -> (r: Result<u16, String>)
    ensures
        *old(pos) + 2 <= data@.len() ==> r == Ok::<u16, String>((data@[*old(pos) as int] + 256 * data@[*old(pos) + 1]) as u16)
            && *final(pos) == *old(pos) + 2,
        *old(pos) + 2 > data@.len() ==> r is Err && *final(pos) == *old(pos),
{
    if *pos > data.len() || data.len() - *pos < 2 {
        return Err(palette_error("palette: unexpected end of data"));
    }
    let v = data[*pos] as u16 + 256 * (data[*pos + 1] as u16);
    *pos = *pos + 2;
    Ok(v)
}

/// The 32-bit value at `*pos`, which then moves past it.
fn read_u32(data: &[u8], pos: &mut usize) -> (r: Result<u32, String>)
    ensures
        *old(pos) + 4 <= data@.len() ==> r == Ok::<u32, String>(
            (data@[*old(pos) as int] + 256 * data@[*old(pos) + 1] + 65536 * data@[*old(pos) + 2] + 16777216 * data@[*old(pos) + 3]) as u32,
        ) && *final(pos) == *old(pos) + 4,
        *old(pos) + 4 > data@.len() ==> r is Err && *final(pos) == *old(pos),
{
    if *pos > data.len() || data.len() - *pos < 4 {
        return Err(palette_error("palette: unexpected end of data"));
    }
    let p = *pos;
    let v = data[p] as u32 + 256 * (data[p + 1] as u32) + 65536 * (data[p + 2] as u32) + 16777216 * (data[p + 3] as u32);
    *pos = p + 4;
    Ok(v)
}

/// The `len` bytes at `*pos`, which then moves past them.
fn read_slice<'a>(data: &'a [u8], pos: &mut usize, len: usize) -> (r: Result<&'a [u8], String>)
    ensures
        *old(pos) + len <= data@.len() ==> (r matches Ok(s) && s@ == data@.subrange(*old(pos) as int, *old(pos) + len))
            && *final(pos) == *old(pos) + len,
        *old(pos) + len > data@.len() ==> r is Err && *final(pos) == *old(pos),
{
    if *pos > data.len() || data.len() - *pos < len {
        return Err(palette_error("palette: stream truncated"));
    }
    let p = *pos;
    let s = vstd::slice::slice_subrange(data, p, p + len);
    *pos = p + len;
    Ok(s)
}

/// Decoding one atom with the coder of context `prev`: its rank, the coder
/// states after and the decoder after; `None` when the value does not decode
/// or ranks nothing in a dictionary of `dict_len` atoms.
pub open spec fn atom_decode(sts: Seq<CoderState>, prev: int, x: int, st: Seq<u8>, dict_len: int) -> Option<
    (u32, Seq<CoderState>, int, Seq<u8>),
> {
    let (v, s2, x2, st2) = state_decode(sts[prev], x, st);
    match v {
        None => None,
        Some(r) => if r >= dict_len {
            None
        } else {
            Some((r, sts.update(prev, s2), x2, st2))
        },
    }
}

/// Decoding the next `n` atoms of an entry, the first with context `prev`:
/// the atoms, the coder states after and the decoder after.
pub open spec fn entry_decode(sts: Seq<CoderState>, prev: int, x: int, st: Seq<u8>, n: nat, dict: Seq<u16>) -> Option<
    (Seq<u16>, Seq<CoderState>, int, Seq<u8>),
>
    decreases n,
{
    if n == 0 {
        Some((Seq::empty(), sts, x, st))
    } else {
        match atom_decode(sts, prev, x, st, dict.len() as int) {
            None => None,
            Some((r, s2, x2, st2)) => match entry_decode(s2, context_after(r), x2, st2, (n - 1) as nat, dict) {
                None => None,
                Some((rest, s3, x3, st3)) => Some((seq![dict[r as int]] + rest, s3, x3, st3)),
            },
        }
    }
}

/// Decoding entries of the given lengths, each starting with context 128.
pub open spec fn entries_decode(sts: Seq<CoderState>, x: int, st: Seq<u8>, lengths: Seq<usize>, dict: Seq<u16>) -> Option<
    Seq<Seq<u16>>,
>
    decreases lengths.len(),
{
    if lengths.len() == 0 {
        Some(Seq::empty())
    } else {
        match entry_decode(sts, 128, x, st, lengths[0] as nat, dict) {
            None => None,
            Some((atoms, s2, x2, st2)) => prepend(seq![atoms], entries_decode(s2, x2, st2, lengths.skip(1), dict)),
        }
    }
}

/// The atoms that the order-1 stream `bytes` holds for entries of the given
/// lengths, from fresh coders; `None` for a stream shorter than its state or
/// one that does not decode.
pub open spec fn atoms_decoded(bytes: Seq<u8>, lengths: Seq<usize>, dict: Seq<u16>) -> Option<Seq<Seq<u16>>> {
    if bytes.len() < 4 {
        None
    } else {
        entries_decode(fresh_states(), le_u32_value(bytes.skip(bytes.len() - 4)), bytes.take(bytes.len() - 4), lengths, dict)
    }
}

/// Decodes the atoms of entries of the given lengths, each atom by its rank
/// in `dict`, as `encode_atoms_order1` coded them. A rank outside `dict`, or
/// a stream that does not decode, is refused.
pub fn decode_atoms_order1(atom_bytes: &[u8], lengths: &[usize], dict: &[u16]) -> (r: Result<Vec<Vec<u16>>, String>)
    ensures
        match atoms_decoded(atom_bytes@, lengths@, dict@) {
            Some(es) => r matches Ok(out) && entry_views(out@) == es,
            None => r is Err,
        },
        r matches Ok(out) ==> out@.len() == lengths@.len() && forall|i: int| 0 <= i < lengths@.len() ==> #[trigger] out@[i]@.len()
            == lengths@[i] && forall|j: int| 0 <= j < out@[i]@.len() ==> dict@.contains(out@[i]@[j]),
{
    let mut dec = match RansDecoder::new(atom_bytes) {
        Ok(d) => d,
        Err(e) => return Err(palette_error(e)),
    };
    let ghost whole = atoms_decoded(atom_bytes@, lengths@, dict@);
    let mut coders = fresh_coders();
    proof {
        assert(coders@.map_values(|c: Box<NzCoder>| c.state()) =~= fresh_states());
        assert(lengths@.skip(0) =~= lengths@);
        assert(entry_views(Seq::<Vec<u16>>::empty()) =~= Seq::<Seq<u16>>::empty());
        assert(whole == prepend(Seq::empty(), whole)) by {
            if let Some(w) = whole {
                assert(Seq::<Seq<u16>>::empty() + w =~= w);
            }
        }
    }
    let mut out: Vec<Vec<u16>> = Vec::new();
    let mut e: usize = 0;
    while e < lengths.len()
        invariant
            e <= lengths@.len(),
            coders@.len() == 129,
            forall|i: int| 0 <= i < 129 ==> #[trigger] coders@[i].wf(),
            out@.len() == e,
            forall|i: int| 0 <= i < e ==> #[trigger] out@[i]@.len() == lengths@[i] && forall|j: int| 0 <= j < out@[i]@.len()
                ==> dict@.contains(out@[i]@[j]),
            whole == atoms_decoded(atom_bytes@, lengths@, dict@),
            whole == prepend(
                entry_views(out@),
                entries_decode(coders@.map_values(|c: Box<NzCoder>| c.state()), dec.state(), dec.stack(), lengths@.skip(e as int), dict@),
            ),
        decreases lengths@.len() - e,
    {
        let n = lengths[e];
        let ghost cs0 = coders@.map_values(|c: Box<NzCoder>| c.state());
        let ghost x0 = dec.state();
        let ghost st0 = dec.stack();
        let ghost start = entry_decode(cs0, 128, x0, st0, n as nat, dict@);
        let mut atoms: Vec<u16> = Vec::new();
        let mut prev: usize = ORDER1_CONTEXTS;
        let mut k: usize = 0;
        proof {
            assert(lengths@.skip(e as int)[0] == n);
            if let Some((rest, s3, x3, st3)) = start {
                assert(Seq::<u16>::empty() + rest =~= rest);
            }
        }
        while k < n
            invariant
                k <= n,
                n == lengths@[e as int],
                e < lengths@.len(),
                prev <= 128,
                coders@.len() == 129,
                forall|i: int| 0 <= i < 129 ==> #[trigger] coders@[i].wf(),
                atoms@.len() == k,
                forall|j: int| 0 <= j < k ==> dict@.contains(#[trigger] atoms@[j]),
                start == entry_decode(cs0, 128, x0, st0, n as nat, dict@),
                whole == atoms_decoded(atom_bytes@, lengths@, dict@),
                whole == prepend(entry_views(out@), entries_decode(cs0, x0, st0, lengths@.skip(e as int), dict@)),
                lengths@.skip(e as int).len() > 0,
                lengths@.skip(e as int)[0] == n,
                start == (match entry_decode(
                    coders@.map_values(|c: Box<NzCoder>| c.state()),
                    prev as int,
                    dec.state(),
                    dec.stack(),
                    (n - k) as nat,
                    dict@,
                ) {
                    None => None,
                    Some((rest, s3, x3, st3)) => Some((atoms@ + rest, s3, x3, st3)),
                }),
            decreases n - k,
        {
            let ghost cs = coders@.map_values(|c: Box<NzCoder>| c.state());
            let ghost x = dec.state();
            let ghost st = dec.stack();
            proof {
                assert(cs[prev as int] == coders@[prev as int].state());
            }
            let decoded = coders[prev].decode(&mut dec);
            let ghost cs2 = coders@.map_values(|c: Box<NzCoder>| c.state());
            proof {
                assert(cs2 =~= cs.update(prev as int, state_decode(cs[prev as int], x, st).1));
            }
            let rank = match decoded {
                Some(v) => v as usize,
                None => {
                    proof {
                        assert(atom_decode(cs, prev as int, x, st, dict@.len() as int) is None);
                        assert(start is None);
                        assert(whole is None);
                    }
                    return Err(palette_error("palette: atom stream does not decode"));
                },
            };
            if rank >= dict.len() {
                proof {
                    assert(atom_decode(cs, prev as int, x, st, dict@.len() as int) is None);
                    assert(start is None);
                    assert(whole is None);
                }
                return Err(rank_error(rank, dict.len()));
            }
            atoms.push(dict[rank]);
            proof {
                assert(dict@.contains(dict@[rank as int]));
                let tail = entry_decode(cs2, context_after(rank as u32), dec.state(), dec.stack(), (n - k - 1) as nat, dict@);
                if let Some((rest, s3, x3, st3)) = tail {
                    assert(atoms@ + rest =~= (atoms@.drop_last()) + (seq![dict@[rank as int]] + rest));
                }
            }
            prev = markov_context_for(rank);
            k += 1;
        }
        let ghost cs_end = coders@.map_values(|c: Box<NzCoder>| c.state());
        proof {
            assert(atoms@ + Seq::<u16>::empty() =~= atoms@);
            assert(start == Some((atoms@, cs_end, dec.state(), dec.stack())));
            let rest = entries_decode(cs_end, dec.state(), dec.stack(), lengths@.skip(e + 1), dict@);
            assert(lengths@.skip(e as int).skip(1) =~= lengths@.skip(e + 1));
            assert(entry_views(out@.push(atoms)) =~= entry_views(out@) + seq![atoms@]);
            if let Some(r) = rest {
                assert(entry_views(out@) + (seq![atoms@] + r) =~= (entry_views(out@) + seq![atoms@]) + r);
            }
        }
        out.push(atoms);
        e += 1;
    }
    proof {
        assert(lengths@.skip(e as int) =~= Seq::<usize>::empty());
        assert(entry_views(out@) + Seq::<Seq<u16>>::empty() =~= entry_views(out@));
    }
    Ok(out)
}


/// How many times `a` occurs over all the entries.
pub open spec fn atom_count(entries: Seq<Vec<u16>>, a: u16) -> int
    decreases entries.len(),
{
    if entries.len() == 0 {
        0
    } else {
        atom_count(entries.drop_last(), a) + occurrences(entries.last()@, a)
    }
}

/// How many atoms the entries hold together.
pub open spec fn total_atoms(entries: Seq<Vec<u16>>) -> int
    decreases entries.len(),
{
    if entries.len() == 0 {
        0
    } else {
        total_atoms(entries.drop_last()) + entries.last()@.len()
    }
}

/// How many entries have a length whose low 16 bits are `l`.
pub open spec fn length_count(entries: Seq<Vec<u16>>, l: u16) -> int
    decreases entries.len(),
{
    if entries.len() == 0 {
        0
    } else {
        length_count(entries.drop_last(), l) + if entries.last()@.len() as u16 == l { 1int } else { 0int }
    }
}

/// For each 16-bit value, how often it occurs as an atom.
pub open spec fn atom_table(entries: Seq<Vec<u16>>) -> Seq<u32> {
    Seq::new(65536, |v: int| atom_count(entries, v as u16) as u32)
}

/// For each 16-bit value, how many entries have it as their (16-bit) length.
pub open spec fn length_table(entries: Seq<Vec<u16>>) -> Seq<u32> {
    Seq::new(65536, |l: int| length_count(entries, l as u16) as u32)
}

/// Whether a table is stored raw: it has more than `MAX_ALPHABET` distinct
/// atoms, or more than `MAX_ALPHABET` distinct lengths.
pub open spec fn stored_raw(entries: Seq<Vec<u16>>) -> bool {
    count_ge(atom_table(entries), 1) > 4000 || count_ge(length_table(entries), 1) > 4000
}

proof fn lemma_atom_count_bound(entries: Seq<Vec<u16>>, a: u16)
    ensures
        0 <= atom_count(entries, a) <= total_atoms(entries),
    decreases entries.len(),
{
    if entries.len() > 0 {
        lemma_atom_count_bound(entries.drop_last(), a);
        lemma_occurrences_bound(entries.last()@, a);
    }
}

proof fn lemma_length_count_bound(entries: Seq<Vec<u16>>, l: u16)
    ensures
        0 <= length_count(entries, l) <= entries.len(),
    decreases entries.len(),
{
    if entries.len() > 0 {
        lemma_length_count_bound(entries.drop_last(), l);
    }
}

proof fn lemma_total_atoms_prefix(entries: Seq<Vec<u16>>, i: int)
    requires
        0 <= i <= entries.len(),
    ensures
        0 <= total_atoms(entries.take(i)) <= total_atoms(entries),
    decreases entries.len() - i,
{
    if i < entries.len() {
        lemma_total_atoms_prefix(entries, i + 1);
        assert(entries.take(i + 1).drop_last() =~= entries.take(i));
    } else {
        assert(entries.take(i) =~= entries);
    }
    lemma_total_atoms_nonneg(entries.take(i));
}

proof fn lemma_total_atoms_nonneg(entries: Seq<Vec<u16>>)
    ensures
        total_atoms(entries) >= 0,
    decreases entries.len(),
{
    if entries.len() > 0 {
        lemma_total_atoms_nonneg(entries.drop_last());
    }
}

/// The atom counts and the length counts of the entries.
fn tally(entries: &[Vec<u16>]) -> (r: (Vec<u32>, Vec<u32>))
    requires
        total_atoms(entries@) <= u32::MAX,
        entries@.len() <= u32::MAX,
    ensures
        r.0@ == atom_table(entries@),
        r.1@ == length_table(entries@),
{
    let mut counts: Vec<u32> = vec![0u32; 65536];
    let mut lens: Vec<u32> = vec![0u32; 65536];
    let mut e: usize = 0;
    while e < entries.len()
        invariant
            e <= entries@.len(),
            total_atoms(entries@) <= u32::MAX,
            entries@.len() <= u32::MAX,
            counts@.len() == 65536,
            lens@.len() == 65536,
            forall|v: int| 0 <= v < 65536 ==> #[trigger] counts@[v] == atom_count(entries@.take(e as int), v as u16),
            forall|v: int| 0 <= v < 65536 ==> #[trigger] lens@[v] == length_count(entries@.take(e as int), v as u16),
        decreases entries@.len() - e,
    {
        let atoms = &entries[e];
        let ghost before = entries@.take(e as int);
        proof {
            assert(entries@.take(e + 1).drop_last() =~= before);
            lemma_total_atoms_prefix(entries@, e + 1);
        }
        let mut k: usize = 0;
        while k < atoms.len()
            invariant
                k <= atoms@.len(),
                atoms@ == entries@[e as int]@,
                e < entries@.len(),
                before == entries@.take(e as int),
                total_atoms(before) + atoms@.len() <= u32::MAX,
                counts@.len() == 65536,
                forall|v: int| 0 <= v < 65536 ==> #[trigger] counts@[v] == atom_count(before, v as u16) + occurrences(
                    atoms@.take(k as int),
                    v as u16,
                ),
            decreases atoms@.len() - k,
        {
            let a = atoms[k] as usize;
            proof {
                lemma_atom_count_bound(before, a as u16);
                lemma_occurrences_bound(atoms@.take(k as int), a as u16);
                assert(atoms@.take(k + 1).drop_last() =~= atoms@.take(k as int));
            }
            let c = counts[a];
            counts.set(a, c + 1);
            k += 1;
        }
        proof {
            assert(atoms@.take(atoms@.len() as int) =~= atoms@);
        }
        let l = (atoms.len() as u16) as usize;
        proof {
            lemma_length_count_bound(before, l as u16);
        }
        let c = lens[l];
        lens.set(l, c + 1);
        e += 1;
    }
    proof {
        assert(entries@.take(entries@.len() as int) =~= entries@);
        assert(counts@ =~= atom_table(entries@));
        assert(lens@ =~= length_table(entries@));
    }
    (counts, lens)
}


/// How many entries of the table are non-zero.
fn count_positive(table: &Vec<u32>) -> (r: usize)
    ensures
        r == count_ge(table@, 1),
{
    let mut n: usize = 0;
    let mut i: usize = 0;
    while i < table.len()
        invariant
            i <= table@.len(),
            n == count_ge(table@.take(i as int), 1),
            n <= i,
        decreases table@.len() - i,
    {
        proof {
            assert(table@.take(i + 1).drop_last() =~= table@.take(i as int));
        }
        if table[i] > 0 {
            n += 1;
        }
        i += 1;
    }
    proof {
        assert(table@.take(table@.len() as int) =~= table@);
    }
    n
}

/// Whether atom `a` comes before atom `b` in the dictionary: it occurs more
/// often, or as often and is smaller.
pub open spec fn ranks_before(counts: Seq<u32>, a: u16, b: u16) -> bool {
    counts[a as int] > counts[b as int] || (counts[a as int] == counts[b as int] && a < b)
}

/// `dict` lists exactly the atoms that occur, most frequent first, atoms that
/// occur equally often by value.
pub open spec fn is_ranked_dict(counts: Seq<u32>, dict: Seq<u16>) -> bool {
    &&& forall|i: int, j: int| 0 <= i < j < dict.len() ==> ranks_before(counts, #[trigger] dict[i], #[trigger] dict[j])
    &&& forall|v: u16| #[trigger] dict.contains(v) <==> counts[v as int] > 0
}

/// The atoms that occur, in dictionary order.
fn ranked_atoms(counts: &Vec<u32>) -> (dict: Vec<u16>)
    requires
        counts@.len() == 65536,
    ensures
        is_ranked_dict(counts@, dict@),
        dict@.len() == count_ge(counts@, 1),
{
    let mut dict: Vec<u16> = Vec::new();
    let mut v: usize = 0;
    while v < 65536
        invariant
            counts@.len() == 65536,
            v <= 65536,
            dict@.len() == count_ge(counts@.take(v as int), 1),
            forall|i: int, j: int| 0 <= i < j < dict@.len() ==> ranks_before(counts@, #[trigger] dict@[i], #[trigger] dict@[j]),
            forall|i: int| 0 <= i < dict@.len() ==> #[trigger] dict@[i] < v && counts@[dict@[i] as int] > 0,
            forall|u: int| 0 <= u < v && counts@[u] > 0 ==> #[trigger] dict@.contains(u as u16),
        decreases 65536 - v,
    {
        proof {
            assert(counts@.take(v + 1).drop_last() =~= counts@.take(v as int));
        }
        let cv = counts[v];
        if cv > 0 {
            let mut p: usize = 0;
            while p < dict.len() && !(cv > counts[dict[p] as usize])
                invariant
                    p <= dict@.len(),
                    v < 65536,
                    counts@.len() == 65536,
                    cv == counts@[v as int],
                    forall|i: int| 0 <= i < dict@.len() ==> #[trigger] dict@[i] < v && counts@[dict@[i] as int] > 0,
                    forall|i: int| 0 <= i < p ==> ranks_before(counts@, #[trigger] dict@[i], v as u16),
                decreases dict@.len() - p,
            {
                p += 1;
            }
            let ghost old_dict = dict@;
            dict.insert(p, v as u16);
            proof {
                let nd = dict@;
                assert(nd == old_dict.insert(p as int, v as u16));
                assert forall|i: int, j: int| 0 <= i < j < nd.len() implies ranks_before(counts@, #[trigger] nd[i], #[trigger] nd[j]) by {
                    if j < p {
                        assert(nd[i] == old_dict[i] && nd[j] == old_dict[j]);
                    } else if j == p {
                        assert(nd[i] == old_dict[i]);
                    } else if i < p {
                        assert(nd[i] == old_dict[i] && nd[j] == old_dict[j - 1]);
                        assert(ranks_before(counts@, old_dict[i], old_dict[j - 1]));
                    } else if i == p {
                        assert(nd[j] == old_dict[j - 1]);
                        assert(cv > counts@[old_dict[p as int] as int]);
                        if j - 1 > p {
                            assert(ranks_before(counts@, old_dict[p as int], old_dict[j - 1]));
                        }
                    } else {
                        assert(nd[i] == old_dict[i - 1] && nd[j] == old_dict[j - 1]);
                        assert(ranks_before(counts@, old_dict[i - 1], old_dict[j - 1]));
                    }
                }
                assert forall|i: int| 0 <= i < nd.len() implies #[trigger] nd[i] < v + 1 && counts@[nd[i] as int] > 0 by {
                    if i < p {
                        assert(nd[i] == old_dict[i]);
                    } else if i > p {
                        assert(nd[i] == old_dict[i - 1]);
                    }
                }
                assert forall|u: int| 0 <= u < v + 1 && counts@[u] > 0 implies #[trigger] nd.contains(u as u16) by {
                    if u == v {
                        assert(nd[p as int] == v as u16);
                    } else {
                        assert(old_dict.contains(u as u16));
                        let k = choose|k: int| 0 <= k < old_dict.len() && old_dict[k] == u as u16;
                        if k < p {
                            assert(nd[k] == u as u16);
                        } else {
                            assert(nd[k + 1] == u as u16);
                        }
                    }
                }
            }
        }
        v += 1;
    }
    proof {
        assert(counts@.take(65536) =~= counts@);
        assert forall|u: u16| #[trigger] dict@.contains(u) <==> counts@[u as int] > 0 by {
            if dict@.contains(u) {
                let k = choose|k: int| 0 <= k < dict@.len() && dict@[k] == u;
                assert(counts@[dict@[k] as int] > 0);
            }
            if counts@[u as int] > 0 {
                assert(dict@.contains((u as int) as u16));
            }
        }
    }
    dict
}

/// The values whose entry in the table is non-zero, in ascending order.
fn present_values(table: &Vec<u32>) -> (r: Vec<u16>)
    requires
        table@.len() == 65536,
    ensures
        r@.len() == count_ge(table@, 1),
        forall|i: int, j: int| 0 <= i < j < r@.len() ==> #[trigger] r@[i] < #[trigger] r@[j],
        forall|v: u16| #[trigger] r@.contains(v) <==> table@[v as int] > 0,
{
    let mut r: Vec<u16> = Vec::new();
    let mut v: usize = 0;
    while v < 65536
        invariant
            table@.len() == 65536,
            v <= 65536,
            r@.len() == count_ge(table@.take(v as int), 1),
            forall|i: int, j: int| 0 <= i < j < r@.len() ==> #[trigger] r@[i] < #[trigger] r@[j],
            forall|i: int| 0 <= i < r@.len() ==> #[trigger] r@[i] < v && table@[r@[i] as int] > 0,
            forall|u: int| 0 <= u < v && table@[u] > 0 ==> #[trigger] r@.contains(u as u16),
        decreases 65536 - v,
    {
        proof {
            assert(table@.take(v + 1).drop_last() =~= table@.take(v as int));
        }
        if table[v] > 0 {
            let ghost old_r = r@;
            r.push(v as u16);
            proof {
                assert forall|u: int| 0 <= u < v + 1 && table@[u] > 0 implies #[trigger] r@.contains(u as u16) by {
                    if u == v {
                        assert(r@[old_r.len() as int] == v as u16);
                    } else {
                        assert(old_r.contains(u as u16));
                        let k = choose|k: int| 0 <= k < old_r.len() && old_r[k] == u as u16;
                        assert(r@[k] == u as u16);
                    }
                }
            }
        }
        v += 1;
    }
    proof {
        assert(table@.take(65536) =~= table@);
        assert forall|u: u16| #[trigger] r@.contains(u) <==> table@[u as int] > 0 by {
            if r@.contains(u) {
                let k = choose|k: int| 0 <= k < r@.len() && r@[k] == u;
                assert(table@[r@[k] as int] > 0);
            }
            if table@[u as int] > 0 {
                assert(r@.contains((u as int) as u16));
            }
        }
    }
    r
}

/// The table that maps each value of `values` to its place in it (0 for
/// values not in it).
fn place_table(values: &Vec<u16>) -> (t: Vec<u16>)
    requires
        values@.len() <= 65536,
        forall|i: int, j: int| 0 <= i < j < values@.len() ==> #[trigger] values@[i] != #[trigger] values@[j],
    ensures
        t@.len() == 65536,
        forall|i: int| 0 <= i < values@.len() ==> #[trigger] t@[values@[i] as int] == i,
{
    let mut t: Vec<u16> = vec![0u16; 65536];
    let mut k: usize = 0;
    while k < values.len()
        invariant
            k <= values@.len() <= 65536,
            t@.len() == 65536,
            forall|i: int, j: int| 0 <= i < j < values@.len() ==> #[trigger] values@[i] != #[trigger] values@[j],
            forall|i: int| 0 <= i < k ==> #[trigger] t@[values@[i] as int] == i,
        decreases values@.len() - k,
    {
        t.set(values[k] as usize, k as u16);
        proof {
            assert forall|i: int| 0 <= i < k + 1 implies #[trigger] t@[values@[i] as int] == i by {
                if i < k {
                    assert(values@[i] != values@[k as int]);
                }
            }
        }
        k += 1;
    }
    t
}


/// Values of 16 bits, two little-endian bytes each.
pub open spec fn u16_list(vals: Seq<u16>) -> Seq<u8>
    decreases vals.len(),
{
    if vals.len() == 0 {
        Seq::empty()
    } else {
        u16_list(vals.drop_last()) + le_bytes(vals.last() as int, 2)
    }
}

/// Frequencies, each as its low 16 bits, two little-endian bytes each.
pub open spec fn freq_list(freqs: Seq<u32>) -> Seq<u8>
    decreases freqs.len(),
{
    if freqs.len() == 0 {
        Seq::empty()
    } else {
        freq_list(freqs.drop_last()) + le_bytes((freqs.last() as u16) as int, 2)
    }
}

/// `values` lists exactly the values whose entry in `table` is non-zero, in
/// ascending order.
pub open spec fn is_present_list(table: Seq<u32>, values: Seq<u16>) -> bool {
    &&& forall|i: int, j: int| 0 <= i < j < values.len() ==> #[trigger] values[i] < #[trigger] values[j]
    &&& forall|v: u16| #[trigger] values.contains(v) <==> table[v as int] > 0
}

/// The place of `l` in `values`.
pub open spec fn symbol_of(values: Seq<u16>, l: u16) -> int {
    choose|i: int| 0 <= i < values.len() && values[i] == l
}

/// For each length symbol, how many entries have that length.
pub open spec fn symbol_counts(entries: Seq<Vec<u16>>, values: Seq<u16>) -> Seq<u32> {
    Seq::new(values.len(), |s: int| length_table(entries)[values[s] as int])
}

/// The rANS symbol, as its slot range, of each entry's length.
pub open spec fn length_symbols(entries: Seq<Vec<u16>>, values: Seq<u16>, freqs: Seq<u32>) -> Seq<(int, int)> {
    Seq::new(
        entries.len(),
        |i: int|
            {
                let s = symbol_of(values, entries[i]@.len() as u16);
                (seq_sum(freqs.take(s)), freqs[s] as int)
            },
    )
}

/// The rANS stream of the symbols, coded last to first: the shifted-out
/// bytes, then the final state.
pub open spec fn symbol_stream(syms: Seq<(int, int)>) -> Seq<u8> {
    encode_from(syms, 0).1 + le_u32(encode_from(syms, 0).0 as u32)
}

/// The rANS layout of a non-empty table with dictionary `dict`, length values
/// `values` and order-1 atom stream `atoms`.
#[verifier::opaque]
pub open spec fn rans_layout(entries: Seq<Vec<u16>>, dict: Seq<u16>, values: Seq<u16>, atoms: Seq<u8>) -> Seq<u8> {
    let freqs = normalized_table(symbol_counts(entries, values));
    let ls = symbol_stream(length_symbols(entries, values, freqs));
    le_bytes((entries.len() as u32) as int, 4) + seq![MODE_RANS1] + le_bytes(dict.len() as int, 2) + u16_list(dict)
        + le_bytes(values.len() as int, 2) + u16_list(values) + freq_list(freqs) + le_bytes((ls.len() as u32) as int, 4)
        + ls + le_bytes((atoms.len() as u32) as int, 4) + atoms
}

fn put_u16_list(buf: &mut Vec<u8>, vals: &Vec<u16>)
    ensures
        final(buf)@ == old(buf)@ + u16_list(vals@),
{
    let ghost start = buf@;
    let mut i: usize = 0;
    while i < vals.len()
        invariant
            i <= vals@.len(),
            buf@ == start + u16_list(vals@.take(i as int)),
        decreases vals@.len() - i,
    {
        put_u16_le(buf, vals[i]);
        proof {
            assert(vals@.take(i + 1).drop_last() =~= vals@.take(i as int));
            assert(buf@ =~= start + u16_list(vals@.take(i + 1)));
        }
        i += 1;
    }
    proof {
        assert(vals@.take(vals@.len() as int) =~= vals@);
    }
}

fn put_freq_list(buf: &mut Vec<u8>, freqs: &Vec<u32>)
    ensures
        final(buf)@ == old(buf)@ + freq_list(freqs@),
{
    let ghost start = buf@;
    let mut i: usize = 0;
    while i < freqs.len()
        invariant
            i <= freqs@.len(),
            buf@ == start + freq_list(freqs@.take(i as int)),
        decreases freqs@.len() - i,
    {
        put_u16_le(buf, freqs[i] as u16);
        proof {
            assert(freqs@.take(i + 1).drop_last() =~= freqs@.take(i as int));
            assert(buf@ =~= start + freq_list(freqs@.take(i + 1)));
        }
        i += 1;
    }
    proof {
        assert(freqs@.take(freqs@.len() as int) =~= freqs@);
    }
}

fn put_raw_entries(buf: &mut Vec<u8>, entries: &[Vec<u16>])
    ensures
        final(buf)@ == old(buf)@ + raw_entries(entries@),
{
    let ghost start = buf@;
    let mut e: usize = 0;
    while e < entries.len()
        invariant
            e <= entries@.len(),
            buf@ == start + raw_entries(entries@.take(e as int)),
        decreases entries@.len() - e,
    {
        let atoms = &entries[e];
        let ghost mid = buf@;
        put_u16_le(buf, atoms.len() as u16);
        let mut k: usize = 0;
        while k < atoms.len()
            invariant
                k <= atoms@.len(),
                buf@ == mid + le_bytes((atoms@.len() as u16) as int, 2) + raw_atoms(atoms@.take(k as int)),
            decreases atoms@.len() - k,
        {
            put_u16_le(buf, atoms[k]);
            proof {
                assert(atoms@.take(k + 1).drop_last() =~= atoms@.take(k as int));
                assert(buf@ =~= mid + le_bytes((atoms@.len() as u16) as int, 2) + raw_atoms(atoms@.take(k + 1)));
            }
            k += 1;
        }
        proof {
            assert(atoms@.take(atoms@.len() as int) =~= atoms@);
            assert(entries@.take(e + 1).drop_last() =~= entries@.take(e as int));
            assert(buf@ =~= start + raw_entries(entries@.take(e + 1)));
        }
        e += 1;
    }
    proof {
        assert(entries@.take(entries@.len() as int) =~= entries@);
    }
}

proof fn lemma_all_positive_count(s: Seq<u32>)
    requires
        forall|i: int| 0 <= i < s.len() ==> #[trigger] s[i] > 0,
    ensures
        count_ge(s, 1) == s.len(),
    decreases s.len(),
{
    if s.len() > 0 {
        lemma_all_positive_count(s.drop_last());
    }
}

proof fn lemma_length_present(entries: Seq<Vec<u16>>, i: int)
    requires
        0 <= i < entries.len(),
    ensures
        length_count(entries, entries[i]@.len() as u16) >= 1,
    decreases entries.len(),
{
    lemma_length_count_bound(entries.drop_last(), entries[i]@.len() as u16);
    if i < entries.len() - 1 {
        lemma_length_present(entries.drop_last(), i);
    }
}

/// Lays out a palette table: the number of entries, then, for a non-empty
/// table, either the raw layout (mode `MODE_RAW`), when it has more than
/// `MAX_ALPHABET` distinct atoms or lengths, or the rANS layout (mode
/// `MODE_RANS1`): the dictionary of atoms by rank, the distinct lengths with
/// their normalized frequencies and rANS stream, then the order-1 atom stream.
pub fn encode_palette_table(entries: &[Vec<u16>]) -> (r: Vec<u8>)
    requires
        entries@.len() <= u32::MAX,
        total_atoms(entries@) <= u32::MAX,
        stored_raw(entries@) || forall|i: int| 0 <= i < entries@.len() ==> #[trigger] entries@[i]@.len() < 65536,
    ensures
        entries@.len() == 0 ==> r@ == le_bytes(0, 4),
        entries@.len() > 0 && stored_raw(entries@) ==> r@ == le_bytes(entries@.len() as int, 4) + seq![MODE_RAW]
            + raw_entries(entries@),
        entries@.len() > 0 && !stored_raw(entries@) ==> exists|dict: Seq<u16>, values: Seq<u16>|
            is_ranked_dict(atom_table(entries@), dict) && is_present_list(length_table(entries@), values) && dict.len()
                == count_ge(atom_table(entries@), 1) && values.len() == count_ge(length_table(entries@), 1) && r@
                == #[trigger] rans_layout(entries@, dict, values, order1_atoms(entries@, dict)),
{
    let mut buf: Vec<u8> = Vec::new();
    put_u32_le(&mut buf, entries.len() as u32);
    if entries.len() == 0 {
        return buf;
    }
    let (counts, lens) = tally(entries);
    let active = count_positive(&counts);
    let nlen = count_positive(&lens);
    if active > MAX_ALPHABET || nlen > MAX_ALPHABET {
        put_u8(&mut buf, MODE_RAW);
        put_raw_entries(&mut buf, entries);
        return buf;
    }
    put_u8(&mut buf, MODE_RANS1);
    let ghost head = buf@;
    let dict = ranked_atoms(&counts);
    let val_to_rank = place_table(&dict);
    put_u16_le(&mut buf, dict.len() as u16);
    put_u16_list(&mut buf, &dict);
    let values = present_values(&lens);
    let length_to_symbol = place_table(&values);
    put_u16_le(&mut buf, values.len() as u16);
    put_u16_list(&mut buf, &values);
    let mut length_counts: Vec<u32> = Vec::new();
    let mut s: usize = 0;
    while s < values.len()
        invariant
            s <= values@.len(),
            lens@.len() == 65536,
            length_counts@.len() == s,
            forall|t: int| 0 <= t < s ==> #[trigger] length_counts@[t] == lens@[values@[t] as int],
        decreases values@.len() - s,
    {
        length_counts.push(lens[values[s] as usize]);
        s += 1;
    }
    proof {
        assert(length_counts@ =~= symbol_counts(entries@, values@));
        assert forall|t: int| 0 <= t < length_counts@.len() implies #[trigger] length_counts@[t] > 0 by {
            assert(values@.contains(values@[t]));
        }
        lemma_all_positive_count(length_counts@);
        lemma_length_present(entries@, 0);
        lemma_length_count_bound(entries@, entries@[0]@.len() as u16);
        assert(lens@[(entries@[0]@.len() as u16) as int] > 0);
        assert(values@.contains(entries@[0]@.len() as u16));
        lemma_seq_sum_bound(length_counts@);
        law_normalized_table_total(length_counts@);
    }
    let freqs = normalize_counts(&length_counts);
    put_freq_list(&mut buf, &freqs);
    let cum = build_cum_freqs(&freqs);
    let ghost syms = length_symbols(entries@, values@, freqs@);
    let mut enc = RansEncoder::new();
    let mut j: usize = entries.len();
    while j > 0
        invariant
            j <= entries@.len(),
            entries@.len() <= u32::MAX,
            !stored_raw(entries@),
            forall|i: int| 0 <= i < entries@.len() ==> #[trigger] entries@[i]@.len() < 65536,
            lens@ == length_table(entries@),
            is_present_list(lens@, values@),
            length_to_symbol@.len() == 65536,
            forall|i: int| 0 <= i < values@.len() ==> #[trigger] length_to_symbol@[values@[i] as int] == i,
            freqs@.len() == values@.len(),
            seq_sum(freqs@) == 4096,
            cum@.len() == freqs@.len() + 1,
            forall|i: int| 0 <= i <= freqs@.len() ==> #[trigger] cum@[i] == seq_sum(freqs@.take(i)),
            syms == length_symbols(entries@, values@, freqs@),
            normalized(enc.state()),
            (enc.state(), enc.bytes()) == encode_from(syms, j as int),
        decreases j,
    {
        j -= 1;
        let l = entries[j].len();
        let sym = length_to_symbol[l] as usize;
        proof {
            lemma_length_present(entries@, j as int);
            lemma_length_count_bound(entries@, l as u16);
            assert(lens@[(l as u16) as int] > 0);
            assert(values@.contains(l as u16));
            let k = choose|k: int| 0 <= k < values@.len() && values@[k] == l as u16;
            assert(sym == k);
            let c = symbol_of(values@, l as u16);
            if c != k {
                if c < k {
                    assert(values@[c] < values@[k]);
                } else {
                    assert(values@[k] < values@[c]);
                }
            }
            assert(freqs@.take(sym + 1).drop_last() =~= freqs@.take(sym as int));
            lemma_seq_sum_prefix_monotone(freqs@, sym + 1, freqs@.len() as int);
            assert(freqs@.take(freqs@.len() as int) =~= freqs@);
        }
        enc.encode_symbol(cum[sym], freqs[sym]);
    }
    let length_bytes = enc.flush();
    put_u32_le(&mut buf, length_bytes.len() as u32);
    put_bytes(&mut buf, &length_bytes);
    let atom_bytes = encode_atoms_order1(entries, &val_to_rank);
    put_u32_le(&mut buf, atom_bytes.len() as u32);
    put_bytes(&mut buf, &atom_bytes);
    proof {
        assert(length_bytes@ == symbol_stream(syms));
        lemma_ranks_from_table(entries@, dict@, val_to_rank@, atom_table(entries@));
        assert(atom_bytes@ == order1_atoms(entries@, dict@));
        reveal(rans_layout);
        assert(buf@ =~= rans_layout(entries@, dict@, values@, order1_atoms(entries@, dict@)));
    }
    buf
}

proof fn lemma_occurrence_positive(s: Seq<u16>, j: int)
    requires
        0 <= j < s.len(),
    ensures
        occurrences(s, s[j]) >= 1,
    decreases s.len(),
{
    if j < s.len() - 1 {
        lemma_occurrence_positive(s.drop_last(), j);
    }
}

proof fn lemma_atom_count_positive(entries: Seq<Vec<u16>>, i: int, j: int)
    requires
        0 <= i < entries.len(),
        0 <= j < entries[i]@.len(),
    ensures
        atom_count(entries, entries[i]@[j]) >= 1,
    decreases entries.len(),
{
    let a = entries[i]@[j];
    if i < entries.len() - 1 {
        lemma_atom_count_positive(entries.drop_last(), i, j);
        lemma_occurrences_bound(entries.last()@, a);
    } else {
        lemma_occurrence_positive(entries.last()@, j);
        lemma_atom_count_bound(entries.drop_last(), a);
    }
}

/// Ranking by the placement table of `dict` ranks each atom by its place in
/// `dict`.
proof fn lemma_ranks_from_table(entries: Seq<Vec<u16>>, dict: Seq<u16>, t: Seq<u16>, counts: Seq<u32>)
    requires
        counts == atom_table(entries),
        total_atoms(entries) <= u32::MAX,
        is_ranked_dict(counts, dict),
        t.len() == 65536,
        forall|i: int| 0 <= i < dict.len() ==> #[trigger] t[dict[i] as int] == i,
        forall|i: int, j: int| 0 <= i < j < dict.len() ==> #[trigger] dict[i] != #[trigger] dict[j],
    ensures
        rank_lists(entries, t) == dict_ranks(entries, dict),
{
    assert forall|i: int| 0 <= i < entries.len() implies #[trigger] rank_lists(entries, t)[i] == dict_ranks(entries, dict)[i] by {
        assert forall|j: int| 0 <= j < entries[i]@.len() implies #[trigger] rank_lists(entries, t)[i][j] == dict_ranks(
            entries,
            dict,
        )[i][j] by {
            let a = entries[i]@[j];
            lemma_atom_count_positive(entries, i, j);
            lemma_atom_count_bound(entries, a);
            assert(counts[a as int] > 0);
            assert(dict.contains(a));
            let r = rank_in(dict, a);
            assert(0 <= r < dict.len() && dict[r] == a);
            assert(t[a as int] == r);
        }
        assert(rank_lists(entries, t)[i] =~= dict_ranks(entries, dict)[i]);
    }
    assert(rank_lists(entries, t) =~= dict_ranks(entries, dict));
}


/// The 16-bit little-endian value at `pos`.
pub open spec fn u16_at(data: Seq<u8>, pos: int) -> u16 {
    (data[pos] + 256 * data[pos + 1]) as u16
}

/// The 32-bit little-endian value at `pos`.
pub open spec fn u32_at(data: Seq<u8>, pos: int) -> u32 {
    (data[pos] + 256 * data[pos + 1] + 65536 * data[pos + 2] + 16777216 * data[pos + 3]) as u32
}

/// The atoms of each entry.
pub open spec fn entry_views(entries: Seq<Vec<u16>>) -> Seq<Seq<u16>> {
    Seq::new(entries.len(), |i: int| entries[i]@)
}

/// `n` raw-layout entries read from `pos`: each a 16-bit length, then that
/// many 16-bit atoms; `None` when the data ends first.
pub open spec fn parse_raw(data: Seq<u8>, pos: int, n: nat) -> Option<Seq<Seq<u16>>>
    decreases n,
{
    if n == 0 {
        Some(Seq::empty())
    } else if pos + 2 > data.len() {
        None
    } else {
        let l = u16_at(data, pos) as int;
        if pos + 2 + 2 * l > data.len() {
            None
        } else {
            match parse_raw(data, pos + 2 + 2 * l, (n - 1) as nat) {
                Some(rest) => Some(seq![Seq::new(l as nat, |j: int| u16_at(data, pos + 2 + 2 * j))] + rest),
                None => None,
            }
        }
    }
}

/// `front` before what `rest` holds, if it holds anything.
pub open spec fn prepend(front: Seq<Seq<u16>>, rest: Option<Seq<Seq<u16>>>) -> Option<Seq<Seq<u16>>> {
    match rest {
        Some(r) => Some(front + r),
        None => None,
    }
}

/// Reads `n` raw-layout entries from `pos`.
fn read_raw_entries(data: &[u8], from: usize, n: usize) -> (r: Result<Vec<Vec<u16>>, String>)
    requires
        from <= data@.len(),
    ensures
        parse_raw(data@, from as int, n as nat) matches Some(es) ==> (r matches Ok(out) && entry_views(out@) == es),
        parse_raw(data@, from as int, n as nat) is None ==> r is Err,
        r matches Ok(out) ==> out@.len() == n,
{
    let mut pos = from;
    let ghost start = pos as int;
    let mut entries: Vec<Vec<u16>> = Vec::new();
    let mut i: usize = 0;
    proof {
        assert(entry_views(entries@) + parse_raw(data@, start, n as nat).unwrap_or(Seq::empty()) =~= parse_raw(data@, start, n as nat).unwrap_or(Seq::empty()));
    }
    while i < n
        invariant
            i <= n,
            entries@.len() == i,
            start == from as int,
            pos <= data@.len(),
            parse_raw(data@, start, n as nat) == prepend(entry_views(entries@), parse_raw(data@, pos as int, (n - i) as nat)),
        decreases n - i,
    {
        let ghost p0 = pos as int;
        let l = match read_u16(data, &mut pos) {
            Ok(v) => v as usize,
            Err(e) => {
                proof {
                    assert(parse_raw(data@, p0, (n - i) as nat) is None);
                    assert(parse_raw(data@, start, n as nat) is None);
                }
                return Err(e);
            },
        };
        let mut atoms: Vec<u16> = Vec::new();
        let mut k: usize = 0;
        while k < l
            invariant
                k <= l,
                i < n,
                entries@.len() == i,
                start == from as int,
                parse_raw(data@, start, n as nat) == prepend(entry_views(entries@), parse_raw(data@, p0, (n - i) as nat)),
                l == u16_at(data@, p0) as int,
                p0 + 2 <= data@.len(),
                pos == p0 + 2 + 2 * k,
                pos <= data@.len(),
                atoms@ == Seq::new(k as nat, |j: int| u16_at(data@, p0 + 2 + 2 * j)),
            decreases l - k,
        {
            let a = match read_u16(data, &mut pos) {
                Ok(v) => v,
                Err(e) => {
                    proof {
                        assert(parse_raw(data@, p0, (n - i) as nat) is None);
                        assert(parse_raw(data@, start, n as nat) is None);
                    }
                    return Err(e);
                },
            };
            atoms.push(a);
            proof {
                assert(atoms@ =~= Seq::new((k + 1) as nat, |j: int| u16_at(data@, p0 + 2 + 2 * j)));
            }
            k += 1;
        }
        let ghost before = entries@;
        entries.push(atoms);
        proof {
            let rest = parse_raw(data@, pos as int, (n - i - 1) as nat);
            assert(parse_raw(data@, p0, (n - i) as nat) == prepend(seq![atoms@], rest));
            assert(entry_views(entries@) =~= entry_views(before) + seq![atoms@]);
            if rest is Some {
                assert(entry_views(before) + (seq![atoms@] + rest.unwrap()) =~= entry_views(entries@) + rest.unwrap());
            }
        }
        i += 1;
    }
    proof {
        assert(entry_views(entries@) + Seq::<Seq<u16>>::empty() =~= entry_views(entries@));
    }
    Ok(entries)
}


proof fn lemma_slot_owner_range(cum: Seq<u32>, s: int, n: int)
    requires
        0 < n < cum.len(),
        cum[0] == 0,
        0 <= s,
    ensures
        0 <= slot_owner(cum, s, n) < n,
        cum[slot_owner(cum, s, n)] <= s,
    decreases n,
{
    assert(slot_owner(cum, s, 0) == 0);
    if n > 1 {
        lemma_slot_owner_range(cum, s, n - 1);
    }
}

/// The `n` 16-bit little-endian values at `pos`.
pub open spec fn u16s_at(data: Seq<u8>, pos: int, n: nat) -> Seq<u16> {
    Seq::new(n, |j: int| u16_at(data, pos + 2 * j))
}

/// Reads `count` 16-bit values from `*pos`.
fn read_u16_list(data: &[u8], pos: &mut usize, count: usize) -> (r: Result<Vec<u16>, String>)
    requires
        *old(pos) <= data@.len(),
    ensures
        *old(pos) + 2 * count <= data@.len() ==> (r matches Ok(v) && v@ == u16s_at(data@, *old(pos) as int, count as nat))
            && *final(pos) == *old(pos) + 2 * count,
        *old(pos) + 2 * count > data@.len() ==> r is Err,
        r matches Ok(v) ==> v@.len() == count,
{
    let ghost p0 = *pos as int;
    let mut out: Vec<u16> = Vec::new();
    let mut i: usize = 0;
    while i < count
        invariant
            i <= count,
            out@.len() == i,
            *pos == p0 + 2 * i,
            p0 == *old(pos),
            *pos <= data@.len(),
            p0 + 2 * count <= data@.len() ==> out@ == u16s_at(data@, p0, i as nat),
        decreases count - i,
    {
        let v = match read_u16(data, pos) {
            Ok(v) => v,
            Err(e) => {
                return Err(e);
            },
        };
        out.push(v);
        proof {
            if p0 + 2 * count <= data@.len() {
                assert(out@ =~= u16s_at(data@, p0, (i + 1) as nat));
            }
        }
        i += 1;
    }
    Ok(out)
}

/// The cumulative sums of `freqs`, from 0.
pub open spec fn cum_of(freqs: Seq<u32>) -> Seq<u32> {
    Seq::new(freqs.len() + 1, |j: int| seq_sum(freqs.take(j)) as u32)
}

/// The `n` lengths that the static rANS stream at state `x` and stack `st`
/// holds, with cumulative sums `cum`, frequencies `freqs` and the length of
/// each symbol in `values`.
pub open spec fn lengths_decode(x: int, st: Seq<u8>, n: nat, cum: Seq<u32>, freqs: Seq<u32>, values: Seq<u16>) -> Seq<usize>
    decreases n,
{
    if n == 0 {
        Seq::empty()
    } else {
        let sym = slot_owner(cum, x % 4096, cum.len() - 1);
        let (x2, st2) = crate::io::serialize::experimental::rans::decode_step(x, st, cum[sym] as int, freqs[sym] as int);
        seq![values[sym] as usize] + lengths_decode(x2, st2, (n - 1) as nat, cum, freqs, values)
    }
}

/// The `n` entries that the rANS layout after the mode byte holds: the
/// dictionary, the length values and their frequencies (summing to at most
/// `ANS_M`), the length stream and the atom stream; `None` when the data ends
/// early, a stream is shorter than its state, there are no length values, or
/// the atoms do not decode.
pub open spec fn parse_rans(data: Seq<u8>, n: nat) -> Option<Seq<Seq<u16>>> {
    let p0 = 5int;
    if p0 + 2 > data.len() {
        None
    } else {
        let ds = u16_at(data, p0) as int;
        let p1 = p0 + 2;
        if p1 + 2 * ds > data.len() {
            None
        } else {
            let dict = u16s_at(data, p1, ds as nat);
            let p2 = p1 + 2 * ds;
            if p2 + 2 > data.len() {
                None
            } else {
                let nl = u16_at(data, p2) as int;
                let p3 = p2 + 2;
                if p3 + 2 * nl > data.len() {
                    None
                } else {
                    let values = u16s_at(data, p3, nl as nat);
                    let p4 = p3 + 2 * nl;
                    if p4 + 2 * nl > data.len() {
                        None
                    } else {
                        let freqs = u16s_at(data, p4, nl as nat).map_values(|f: u16| f as u32);
                        let p5 = p4 + 2 * nl;
                        if seq_sum(freqs) > 4096 || p5 + 4 > data.len() {
                            None
                        } else {
                            let lb = u32_at(data, p5) as int;
                            let p6 = p5 + 4;
                            if p6 + lb > data.len() || p6 + lb + 4 > data.len() {
                                None
                            } else {
                                let lbytes = data.subrange(p6, p6 + lb);
                                let p7 = p6 + lb;
                                let ab = u32_at(data, p7) as int;
                                let p8 = p7 + 4;
                                if p8 + ab > data.len() || lb < 4 || nl == 0 {
                                    None
                                } else {
                                    let abytes = data.subrange(p8, p8 + ab);
                                    let lengths = lengths_decode(
                                        le_u32_value(lbytes.skip(lb - 4)),
                                        lbytes.take(lb - 4),
                                        n,
                                        cum_of(freqs),
                                        freqs,
                                        values,
                                    );
                                    atoms_decoded(abytes, lengths, dict)
                                }
                            }
                        }
                    }
                }
            }
        }
    }
}

/// Reads a palette table laid out by `encode_palette_table`. Data shorter
/// than its header, a mode other than `MODE_RAW` and `MODE_RANS1`, and a
/// stream that ends early or does not decode are refused.
pub fn decode_palette_table(data: &[u8]) -> (r: Result<Vec<Vec<u16>>, String>)
    ensures
        data@.len() < 4 ==> r is Err,
        data@.len() >= 4 && u32_at(data@, 0) == 0 ==> (r matches Ok(out) && out@.len() == 0),
        data@.len() == 4 && u32_at(data@, 0) > 0 ==> r is Err,
        data@.len() > 4 && u32_at(data@, 0) > 0 && data@[4] == MODE_RAW ==> (match parse_raw(
            data@,
            5,
            u32_at(data@, 0) as nat,
        ) {
            Some(es) => r matches Ok(out) && entry_views(out@) == es,
            None => r is Err,
        }),
        data@.len() > 4 && u32_at(data@, 0) > 0 && data@[4] == MODE_RANS1 ==> (match parse_rans(
            data@,
            u32_at(data@, 0) as nat,
        ) {
            Some(es) => r matches Ok(out) && entry_views(out@) == es,
            None => r is Err,
        }),
        data@.len() > 4 && u32_at(data@, 0) > 0 && data@[4] != MODE_RAW && data@[4] != MODE_RANS1 ==> r is Err,
        r matches Ok(out) ==> out@.len() == u32_at(data@, 0),
{
    let mut pos: usize = 0;
    let num_entries = match read_u32(data, &mut pos) {
        Ok(v) => v as usize,
        Err(e) => {
            return Err(e);
        },
    };
    if num_entries == 0 {
        return Ok(Vec::new());
    }
    if pos >= data.len() {
        return Err(palette_error("palette: unexpected end of data reading mode"));
    }
    let mode = data[pos];
    pos += 1;
    if mode == MODE_RAW {
        return read_raw_entries(data, pos, num_entries);
    }
    if mode != MODE_RANS1 {
        return Err(mode_error(mode));
    }
    let ghost d = data@;
    let ghost n = u32_at(d, 0) as nat;
    let dict_size = match read_u16(data, &mut pos) {
        Ok(v) => v as usize,
        Err(e) => {
            return Err(e);
        },
    };
    let dict = match read_u16_list(data, &mut pos, dict_size) {
        Ok(v) => v,
        Err(e) => {
            return Err(e);
        },
    };
    let num_lengths = match read_u16(data, &mut pos) {
        Ok(v) => v as usize,
        Err(e) => {
            return Err(e);
        },
    };
    let length_values = match read_u16_list(data, &mut pos, num_lengths) {
        Ok(v) => v,
        Err(e) => {
            return Err(e);
        },
    };
    let raw_freqs = match read_u16_list(data, &mut pos, num_lengths) {
        Ok(v) => v,
        Err(e) => {
            return Err(e);
        },
    };
    let ghost freqs_spec = raw_freqs@.map_values(|f: u16| f as u32);
    let mut length_freqs: Vec<u32> = Vec::new();
    let mut total: u32 = 0;
    let mut i: usize = 0;
    while i < num_lengths
        invariant
            i <= num_lengths <= 65535,
            raw_freqs@.len() == num_lengths,
            length_freqs@.len() == i,
            forall|k: int| 0 <= k < i ==> #[trigger] length_freqs@[k] == raw_freqs@[k] as u32,
            total == seq_sum(length_freqs@),
            total <= 65535 * i,
        decreases num_lengths - i,
    {
        let f = raw_freqs[i] as u32;
        let ghost before = length_freqs@;
        length_freqs.push(f);
        proof {
            assert(length_freqs@.drop_last() =~= before);
        }
        total = total + f;
        i += 1;
    }
    proof {
        assert(length_freqs@ =~= freqs_spec);
    }
    if total > 4096 {
        return Err(palette_error("palette: length frequencies exceed the rANS range"));
    }
    let length_cum = build_cum_freqs(&length_freqs);
    proof {
        assert(length_freqs@.take(num_lengths as int) =~= length_freqs@);
        assert forall|k: int| 0 <= k < length_cum@.len() - 1 && #[trigger] length_cum@[k] < length_cum@[k + 1] implies length_cum@[k + 1] <= 4096 by {
            lemma_seq_sum_prefix_monotone(length_freqs@, k + 1, num_lengths as int);
        }
        assert forall|j: int| 0 <= j <= num_lengths implies #[trigger] length_cum@[j] == cum_of(freqs_spec)[j] by {
            lemma_seq_sum_prefix_monotone(length_freqs@, j, num_lengths as int);
            lemma_seq_sum_prefix_monotone(length_freqs@, 0, j);
        }
        assert(length_cum@ =~= cum_of(freqs_spec));
    }
    let length_slot = build_slot_table(&length_cum);
    let length_bytes_len = match read_u32(data, &mut pos) {
        Ok(v) => v as usize,
        Err(e) => {
            return Err(e);
        },
    };
    let length_bytes = match read_slice(data, &mut pos, length_bytes_len) {
        Ok(v) => v,
        Err(e) => {
            return Err(e);
        },
    };
    let atom_bytes_len = match read_u32(data, &mut pos) {
        Ok(v) => v as usize,
        Err(e) => {
            return Err(e);
        },
    };
    let atom_bytes = match read_slice(data, &mut pos, atom_bytes_len) {
        Ok(v) => v,
        Err(e) => {
            return Err(e);
        },
    };
    let mut length_decoder = match RansDecoder::new(length_bytes) {
        Ok(d) => d,
        Err(e) => {
            return Err(palette_error(e));
        },
    };
    if num_lengths == 0 {
        return Err(palette_error("palette: no length symbols"));
    }
    let ghost x0 = length_decoder.state();
    let ghost st0 = length_decoder.stack();
    let ghost all_lengths = lengths_decode(x0, st0, num_entries as nat, length_cum@, length_freqs@, length_values@);
    let mut lengths: Vec<usize> = Vec::new();
    let mut k: usize = 0;
    proof {
        assert(lengths@ + lengths_decode(x0, st0, num_entries as nat, length_cum@, length_freqs@, length_values@) =~= all_lengths);
    }
    while k < num_entries
        invariant
            k <= num_entries,
            0 < num_lengths <= 65535,
            length_values@.len() == num_lengths,
            length_freqs@.len() == num_lengths,
            length_freqs@.take(num_lengths as int) == length_freqs@,
            seq_sum(length_freqs@) <= 4096,
            length_cum@.len() == num_lengths + 1,
            forall|j: int| 0 <= j <= num_lengths ==> #[trigger] length_cum@[j] == seq_sum(length_freqs@.take(j)),
            length_slot@.len() == 4096,
            forall|s: int| 0 <= s < 4096 ==> #[trigger] length_slot@[s] == slot_owner(length_cum@, s, length_cum@.len() - 1) as u16,
            lengths@.len() == k,
            all_lengths == lengths_decode(x0, st0, num_entries as nat, length_cum@, length_freqs@, length_values@),
            lengths@ + lengths_decode(
                length_decoder.state(),
                length_decoder.stack(),
                (num_entries - k) as nat,
                length_cum@,
                length_freqs@,
                length_values@,
            ) == all_lengths,
        decreases num_entries - k,
    {
        let slot = length_decoder.get_current_freq();
        let symbol = length_slot[slot as usize] as usize;
        let ghost x = length_decoder.state();
        let ghost st = length_decoder.stack();
        proof {
            assert(length_cum@[0] == 0);
            lemma_slot_owner_range(length_cum@, slot as int, num_lengths as int);
            assert(length_freqs@.take(symbol + 1).drop_last() =~= length_freqs@.take(symbol as int));
            lemma_seq_sum_prefix_monotone(length_freqs@, symbol + 1, num_lengths as int);
            lemma_seq_sum_prefix_monotone(length_freqs@, 0, symbol as int);
            assert(symbol == slot_owner(length_cum@, x % 4096, length_cum@.len() - 1));
        }
        length_decoder.advance(length_cum[symbol], length_freqs[symbol]);
        lengths.push(length_values[symbol] as usize);
        proof {
            let rest = lengths_decode(
                length_decoder.state(),
                length_decoder.stack(),
                (num_entries - k - 1) as nat,
                length_cum@,
                length_freqs@,
                length_values@,
            );
            assert(lengths@ + rest =~= lengths@.drop_last() + (seq![length_values@[symbol as int] as usize] + rest));
        }
        k += 1;
    }
    proof {
        assert(lengths@ + Seq::<usize>::empty() =~= lengths@);
        assert(lengths@ == all_lengths);
    }
    decode_atoms_order1(atom_bytes, &lengths, &dict)
}


proof fn lemma_le16(v: int)
    requires
        0 <= v < 65536,
    ensures
        le_bytes(v, 2).len() == 2,
        (le_bytes(v, 2)[0] + 256 * le_bytes(v, 2)[1]) as u16 == v,
{
    reveal_with_fuel(le_bytes, 3);
    let lo = (v % 256) as u8;
    let hi = ((v / 256) % 256) as u8;
    assert(lo + 256 * hi == v);
}

proof fn lemma_raw_atoms_at(atoms: Seq<u16>, j: int)
    requires
        0 <= j < atoms.len(),
    ensures
        raw_atoms(atoms).len() == 2 * atoms.len(),
        (raw_atoms(atoms)[2 * j] + 256 * raw_atoms(atoms)[2 * j + 1]) as u16 == atoms[j],
    decreases atoms.len(),
{
    lemma_le16(atoms.last() as int);
    lemma_raw_atoms_len(atoms.drop_last());
    if j < atoms.len() - 1 {
        lemma_raw_atoms_at(atoms.drop_last(), j);
    }
}

proof fn lemma_raw_atoms_len(atoms: Seq<u16>)
    ensures
        raw_atoms(atoms).len() == 2 * atoms.len(),
    decreases atoms.len(),
{
    if atoms.len() > 0 {
        lemma_raw_atoms_len(atoms.drop_last());
        lemma_le16(atoms.last() as int);
    }
}

proof fn lemma_raw_entries_front(entries: Seq<Vec<u16>>)
    requires
        entries.len() > 0,
    ensures
        raw_entries(entries) == raw_entry(entries[0]@) + raw_entries(entries.skip(1)),
    decreases entries.len(),
{
    if entries.len() == 1 {
        assert(entries.drop_last() =~= Seq::<Vec<u16>>::empty());
        assert(entries.skip(1) =~= Seq::<Vec<u16>>::empty());
        assert(raw_entries(entries) =~= raw_entry(entries[0]@) + raw_entries(entries.skip(1)));
    } else {
        lemma_raw_entries_front(entries.drop_last());
        assert(entries.skip(1).drop_last() =~= entries.drop_last().skip(1));
        assert(entries.skip(1).last() == entries.last());
        assert(raw_entries(entries) =~= raw_entry(entries[0]@) + raw_entries(entries.skip(1)));
    }
}

proof fn lemma_parse_raw_entries(data: Seq<u8>, p: int, entries: Seq<Vec<u16>>)
    requires
        0 <= p,
        p + raw_entries(entries).len() <= data.len(),
        data.subrange(p, p + raw_entries(entries).len()) == raw_entries(entries),
        forall|i: int| 0 <= i < entries.len() ==> #[trigger] entries[i]@.len() < 65536,
    ensures
        parse_raw(data, p, entries.len() as nat) == Some(entry_views(entries)),
    decreases entries.len(),
{
    if entries.len() == 0 {
        assert(entry_views(entries) =~= Seq::<Seq<u16>>::empty());
    } else {
        let e0 = entries[0]@;
        let rest = entries.skip(1);
        lemma_raw_entries_front(entries);
        lemma_le16(e0.len() as int);
        lemma_raw_atoms_len(e0);
        let head = raw_entry(e0);
        assert(head.len() == 2 + 2 * e0.len());
        let whole = raw_entries(entries);
        assert(whole == head + raw_entries(rest));
        assert(data.subrange(p, p + whole.len())[0] == whole[0]);
        assert(data.subrange(p, p + whole.len())[1] == whole[1]);
        assert(u16_at(data, p) as int == e0.len());
        let h = head.len() as int;
        let rl = raw_entries(rest).len() as int;
        assert(whole.len() == h + rl);
        let tail = data.subrange(p + h, p + h + rl);
        assert forall|k: int| 0 <= k < rl implies #[trigger] tail[k] == raw_entries(rest)[k] by {
            assert(data.subrange(p, p + whole.len())[h + k] == whole[h + k]);
        }
        assert(tail =~= raw_entries(rest));
        assert forall|i: int| 0 <= i < rest.len() implies #[trigger] rest[i]@.len() < 65536 by {
            assert(rest[i] == entries[i + 1]);
        }
        lemma_parse_raw_entries(data, p + head.len(), rest);
        assert forall|j: int| 0 <= j < e0.len() implies #[trigger] u16_at(data, p + 2 + 2 * j) == e0[j] by {
            lemma_raw_atoms_at(e0, j);
            assert(data.subrange(p, p + whole.len())[2 + 2 * j] == whole[2 + 2 * j]);
            assert(data.subrange(p, p + whole.len())[2 + 2 * j + 1] == whole[2 + 2 * j + 1]);
        }
        assert(Seq::new(e0.len() as nat, |j: int| u16_at(data, p + 2 + 2 * j)) =~= e0);
        assert(entry_views(entries) =~= seq![e0] + entry_views(rest));
    }
}

/// A table stored raw reads back as the entries it was made from: its header
/// holds their number, its mode byte is `MODE_RAW`, and its body parses to
/// their atoms.
pub proof fn law_raw_roundtrip(entries: Seq<Vec<u16>>)
    requires
        0 < entries.len() <= u32::MAX,
        forall|i: int| 0 <= i < entries.len() ==> #[trigger] entries[i]@.len() < 65536,
    ensures
        ({
            let bytes = le_bytes(entries.len() as int, 4) + seq![MODE_RAW] + raw_entries(entries);
            &&& bytes.len() > 4
            &&& u32_at(bytes, 0) == entries.len()
            &&& bytes[4] == MODE_RAW
            &&& parse_raw(bytes, 5, entries.len() as nat) == Some(entry_views(entries))
        }),
{
    let n = entries.len() as int;
    let head = le_bytes(n, 4);
    reveal_with_fuel(le_bytes, 5);
    assert(head.len() == 4);
    let b0 = (n % 256) as u8;
    let b1 = ((n / 256) % 256) as u8;
    let b2 = ((n / 65536) % 256) as u8;
    let b3 = ((n / 16777216) % 256) as u8;
    assert(head =~= seq![b0, b1, b2, b3]);
    assert(b0 + 256 * b1 + 65536 * b2 + 16777216 * b3 == n);
    let bytes = head + seq![MODE_RAW] + raw_entries(entries);
    assert(bytes.subrange(5, 5 + raw_entries(entries).len() as int) =~= raw_entries(entries));
    lemma_parse_raw_entries(bytes, 5, entries);
}


/// The length of each entry.
pub open spec fn entry_lengths(entries: Seq<Vec<u16>>) -> Seq<usize> {
    Seq::new(entries.len(), |i: int| entries[i]@.len() as usize)
}

/// `a` starts `b`.
pub open spec fn starts<T>(a: Seq<T>, b: Seq<T>) -> bool {
    a.len() <= b.len() && b.take(a.len() as int) == a
}

proof fn lemma_starts_trans<T>(a: Seq<T>, b: Seq<T>, c: Seq<T>)
    requires
        starts(a, b),
        starts(b, c),
    ensures
        starts(a, c),
{
    assert(c.take(a.len() as int) =~= c.take(b.len() as int).take(a.len() as int));
}

proof fn lemma_starts_concat<T>(a: Seq<T>, b: Seq<T>)
    ensures
        starts(a, a + b),
{
    assert((a + b).take(a.len() as int) =~= a);
}

/// Coding keeps every state well formed and uses chances inside `1..ANS_M`.
proof fn lemma_entry_run_wf(sts: Seq<CoderState>, ranks: Seq<u32>, k: nat)
    requires
        states_wf(sts),
        k <= ranks.len(),
        forall|j: int| 0 <= j < ranks.len() ==> #[trigger] ranks[j] < 65536,
    ensures
        states_wf(entry_run(sts, ranks, k).1),
        forall|j: int| 0 <= j < entry_run(sts, ranks, k).0.len() ==> 1 <= #[trigger] entry_run(sts, ranks, k).0[j].f0 <= 4095,
    decreases k,
{
    if k > 0 {
        lemma_entry_run_wf(sts, ranks, (k - 1) as nat);
        let (recs, s1) = entry_run(sts, ranks, (k - 1) as nat);
        let c = context_at(ranks, k - 1);
        let v = ranks[k - 1];
        assert(state_wf(s1[c]));
        lemma_state_after_wf(s1[c], v);
        lemma_records_valid(s1[c], v);
        let s2 = s1.update(c, state_after(s1[c], v));
        assert forall|i: int| 0 <= i < 129 implies state_wf(#[trigger] s2[i]) by {
            if i != c {
                assert(s2[i] == s1[i]);
            }
        }
        let r2 = recs + state_records(s1[c], v);
        assert forall|j: int| 0 <= j < r2.len() implies 1 <= #[trigger] r2[j].f0 <= 4095 by {
            if j < recs.len() {
                assert(r2[j] == recs[j]);
            } else {
                assert(r2[j] == state_records(s1[c], v)[j - recs.len()]);
            }
        }
    }
}

proof fn lemma_entries_run_wf(sts: Seq<CoderState>, lists: Seq<Seq<u32>>, e: nat)
    requires
        states_wf(sts),
        e <= lists.len(),
        forall|i: int, j: int| 0 <= i < lists.len() && 0 <= j < lists[i].len() ==> #[trigger] lists[i][j] < 65536,
    ensures
        states_wf(entries_run(sts, lists, e).1),
        forall|j: int| 0 <= j < entries_run(sts, lists, e).0.len() ==> 1 <= #[trigger] entries_run(sts, lists, e).0[j].f0 <= 4095,
    decreases e,
{
    if e > 0 {
        lemma_entries_run_wf(sts, lists, (e - 1) as nat);
        let (recs, s1) = entries_run(sts, lists, (e - 1) as nat);
        let ranks = lists[e - 1];
        assert forall|j: int| 0 <= j < ranks.len() implies #[trigger] ranks[j] < 65536 by {
            assert(lists[e - 1][j] < 65536);
        }
        lemma_entry_run_wf(s1, ranks, ranks.len());
        let r2 = recs + entry_run(s1, ranks, ranks.len()).0;
        assert forall|j: int| 0 <= j < r2.len() implies 1 <= #[trigger] r2[j].f0 <= 4095 by {
            if j < recs.len() {
                assert(r2[j] == recs[j]);
            } else {
                assert(r2[j] == entry_run(s1, ranks, ranks.len()).0[j - recs.len()]);
            }
        }
    }
}

proof fn lemma_entry_run_starts(sts: Seq<CoderState>, ranks: Seq<u32>, k: nat, m: nat)
    requires
        k <= m,
    ensures
        starts(entry_run(sts, ranks, k).0, entry_run(sts, ranks, m).0),
    decreases m,
{
    if k < m {
        lemma_entry_run_starts(sts, ranks, k, (m - 1) as nat);
        let (recs, s1) = entry_run(sts, ranks, (m - 1) as nat);
        let c = context_at(ranks, m - 1);
        lemma_starts_concat(recs, state_records(s1[c], ranks[m - 1]));
        lemma_starts_trans(entry_run(sts, ranks, k).0, recs, entry_run(sts, ranks, m).0);
    } else {
        assert(entry_run(sts, ranks, m).0.take(entry_run(sts, ranks, m).0.len() as int) =~= entry_run(sts, ranks, m).0);
    }
}

proof fn lemma_entries_run_starts(sts: Seq<CoderState>, lists: Seq<Seq<u32>>, e: nat, m: nat)
    requires
        e <= m,
    ensures
        starts(entries_run(sts, lists, e).0, entries_run(sts, lists, m).0),
    decreases m,
{
    if e < m {
        lemma_entries_run_starts(sts, lists, e, (m - 1) as nat);
        let (recs, s1) = entries_run(sts, lists, (m - 1) as nat);
        lemma_starts_concat(recs, entry_run(s1, lists[m - 1], lists[m - 1].len()).0);
        lemma_starts_trans(entries_run(sts, lists, e).0, recs, entries_run(sts, lists, m).0);
    } else {
        assert(entries_run(sts, lists, m).0.take(entries_run(sts, lists, m).0.len() as int) =~= entries_run(sts, lists, m).0);
    }
}

/// Records that start the records at `base` sit at `base` too.
proof fn lemma_records_at_start(syms: Seq<(int, int)>, base: int, a: Seq<BitRec>, b: Seq<BitRec>)
    requires
        records_at(syms, base, b),
        starts(a, b),
    ensures
        records_at(syms, base, a),
{
    assert forall|j: int| 0 <= j < a.len() implies syms[base + j] == rec_symbol(#[trigger] a[j]) by {
        assert(a[j] == b.take(a.len() as int)[j]);
        assert(b[j] == a[j]);
    }
}

/// Records sitting at `base`, from `a.len()` on, are `b`'s when `a + b` sits
/// at `base`.
proof fn lemma_records_at_tail(syms: Seq<(int, int)>, base: int, a: Seq<BitRec>, b: Seq<BitRec>)
    requires
        records_at(syms, base, a + b),
    ensures
        records_at(syms, base + a.len(), b),
{
    assert forall|j: int| 0 <= j < b.len() implies syms[base + a.len() + j] == rec_symbol(#[trigger] b[j]) by {
        assert((a + b)[a.len() + j] == b[j]);
    }
}

/// The atoms of one entry, coded from the states `sts0` with records sitting
/// at `base` of a stream, decode back from atom `k` on.
proof fn lemma_entry_decode_roundtrip(
    syms: Seq<(int, int)>,
    base: int,
    sts0: Seq<CoderState>,
    ranks: Seq<u32>,
    atoms: Seq<u16>,
    dict: Seq<u16>,
    k: nat,
)
    requires
        valid_symbols(syms),
        states_wf(sts0),
        ranks.len() == atoms.len(),
        dict.len() <= 65536,
        forall|j: int| 0 <= j < ranks.len() ==> #[trigger] ranks[j] < dict.len() && dict[ranks[j] as int] == atoms[j],
        records_at(syms, base, entry_run(sts0, ranks, ranks.len()).0),
        k <= ranks.len(),
    ensures
        entry_decode(
            entry_run(sts0, ranks, k).1,
            context_at(ranks, k as int),
            encode_from(syms, base + entry_run(sts0, ranks, k).0.len()).0,
            encode_from(syms, base + entry_run(sts0, ranks, k).0.len()).1,
            (ranks.len() - k) as nat,
            dict,
        ) == Some(
            (
                atoms.skip(k as int),
                entry_run(sts0, ranks, ranks.len()).1,
                encode_from(syms, base + entry_run(sts0, ranks, ranks.len()).0.len()).0,
                encode_from(syms, base + entry_run(sts0, ranks, ranks.len()).0.len()).1,
            ),
        ),
    decreases ranks.len() - k,
{
    let m = ranks.len();
    if k == m {
        assert(atoms.skip(k as int) =~= Seq::<u16>::empty());
    } else {
        let (rk, sk) = entry_run(sts0, ranks, k);
        let c = context_at(ranks, k as int);
        let v = ranks[k as int];
        assert(forall|j: int| 0 <= j < ranks.len() ==> #[trigger] ranks[j] < 65536);
        lemma_entry_run_wf(sts0, ranks, k);
        assert(state_wf(sk[c]));
        lemma_entry_run_starts(sts0, ranks, k + 1, m);
        lemma_records_at_start(syms, base, entry_run(sts0, ranks, k + 1).0, entry_run(sts0, ranks, m).0);
        lemma_records_at_tail(syms, base, rk, state_records(sk[c], v));
        law_value_roundtrip(sk[c], v, syms, base + rk.len());
        assert(base + rk.len() + state_records(sk[c], v).len() == base + entry_run(sts0, ranks, k + 1).0.len());
        lemma_entry_decode_roundtrip(syms, base, sts0, ranks, atoms, dict, k + 1);
        assert(context_after(v) == context_at(ranks, (k + 1) as int));
        assert(seq![dict[v as int]] + atoms.skip((k + 1) as int) =~= atoms.skip(k as int));
    }
}

/// The ranks of the atoms in `dict` decode back to the atoms.
pub open spec fn ranks_name_atoms(lists: Seq<Seq<u32>>, entries: Seq<Vec<u16>>, dict: Seq<u16>) -> bool {
    &&& lists.len() == entries.len()
    &&& forall|i: int| 0 <= i < lists.len() ==> (#[trigger] lists[i]).len() == entries[i]@.len()
    &&& forall|i: int, j: int| 0 <= i < lists.len() && 0 <= j < lists[i].len() ==> #[trigger] lists[i][j] < dict.len() && dict[lists[i][j] as int]
        == entries[i]@[j]
}

proof fn lemma_entries_decode_roundtrip(
    syms: Seq<(int, int)>,
    lists: Seq<Seq<u32>>,
    entries: Seq<Vec<u16>>,
    dict: Seq<u16>,
    e: nat,
)
    requires
        valid_symbols(syms),
        dict.len() <= 65536,
        ranks_name_atoms(lists, entries, dict),
        records_at(syms, 0, entries_run(fresh_states(), lists, lists.len()).0),
        e <= lists.len(),
        forall|i: int| 0 <= i < entries.len() ==> #[trigger] entries[i]@.len() < 65536,
    ensures
        entries_decode(
            entries_run(fresh_states(), lists, e).1,
            encode_from(syms, entries_run(fresh_states(), lists, e).0.len() as int).0,
            encode_from(syms, entries_run(fresh_states(), lists, e).0.len() as int).1,
            entry_lengths(entries).skip(e as int),
            dict,
        ) == Some(entry_views(entries).skip(e as int)),
    decreases lists.len() - e,
{
    let n = lists.len();
    let lens = entry_lengths(entries);
    if e == n {
        assert(lens.skip(e as int) =~= Seq::<usize>::empty());
        assert(entry_views(entries).skip(e as int) =~= Seq::<Seq<u16>>::empty());
    } else {
        let (re, se) = entries_run(fresh_states(), lists, e);
        let ranks = lists[e as int];
        let atoms = entries[e as int]@;
        assert forall|i: int, j: int| 0 <= i < lists.len() && 0 <= j < lists[i].len() implies #[trigger] lists[i][j] < 65536 by {
            assert(lists[i][j] < dict.len());
        }
        lemma_fresh_state_wf();
        assert(states_wf(fresh_states()));
        lemma_entries_run_wf(fresh_states(), lists, e);
        lemma_entries_run_starts(fresh_states(), lists, e + 1, n);
        lemma_records_at_start(syms, 0, entries_run(fresh_states(), lists, e + 1).0, entries_run(fresh_states(), lists, n).0);
        lemma_records_at_tail(syms, 0, re, entry_run(se, ranks, ranks.len()).0);
        assert forall|j: int| 0 <= j < ranks.len() implies #[trigger] ranks[j] < dict.len() && dict[ranks[j] as int] == atoms[j] by {
            assert(lists[e as int][j] < dict.len());
        }
        lemma_entry_decode_roundtrip(syms, re.len() as int, se, ranks, atoms, dict, 0);
        assert(atoms.skip(0) =~= atoms);
        assert(entries[e as int]@.len() < 65536);
        assert(lens.skip(e as int)[0] == ranks.len());
        assert(lens.skip(e as int).skip(1) =~= lens.skip((e + 1) as int));
        lemma_entries_decode_roundtrip(syms, lists, entries, dict, e + 1);
        assert(re.len() + entry_run(se, ranks, ranks.len()).0.len() == entries_run(fresh_states(), lists, e + 1).0.len());
        assert(seq![atoms] + entry_views(entries).skip((e + 1) as int) =~= entry_views(entries).skip(e as int));
    }
}

/// The order-1 atom stream decodes back to the atoms: for entries whose atoms
/// all sit in `dict`, decoding `order1_atoms(entries, dict)` with the
/// entries' lengths gives the entries.
pub proof fn law_order1_roundtrip(entries: Seq<Vec<u16>>, dict: Seq<u16>)
    requires
        dict.len() <= 65536,
        forall|i: int, j: int| 0 <= i < entries.len() && 0 <= j < entries[i]@.len() ==> dict.contains(#[trigger] entries[i]@[j]),
        forall|i: int| 0 <= i < entries.len() ==> #[trigger] entries[i]@.len() < 65536,
    ensures
        atoms_decoded(order1_atoms(entries, dict), entry_lengths(entries), dict) == Some(entry_views(entries)),
{
    let lists = dict_ranks(entries, dict);
    assert forall|i: int, j: int| 0 <= i < lists.len() && 0 <= j < lists[i].len() implies #[trigger] lists[i][j] < dict.len()
        && dict[lists[i][j] as int] == entries[i]@[j] by {
        assert(dict.contains(entries[i]@[j]));
        let r = rank_in(dict, entries[i]@[j]);
        assert(0 <= r < dict.len() && dict[r] == entries[i]@[j]);
    }
    let n = entries.len();
    let recs = entries_run(fresh_states(), lists, n).0;
    let syms = recs.map_values(|x: BitRec| rec_symbol(x));
    assert forall|i: int, j: int| 0 <= i < lists.len() && 0 <= j < lists[i].len() implies #[trigger] lists[i][j] < 65536 by {
        assert(lists[i][j] < dict.len());
    }
    lemma_fresh_state_wf();
    assert(states_wf(fresh_states()));
    lemma_entries_run_wf(fresh_states(), lists, n);
    lemma_valid_records(recs);
    assert(records_at(syms, 0, recs));
    let (x, st) = encode_from(syms, 0);
    if syms.len() > 0 {
        law_stream_roundtrip(syms, 0);
    }
    assert(0 <= x < 4294967296);
    law_flush_then_open(st, x as u32);
    lemma_entries_decode_roundtrip(syms, lists, entries, dict, 0);
    assert(entry_lengths(entries).skip(0) =~= entry_lengths(entries));
    assert(entry_views(entries).skip(0) =~= entry_views(entries));
}


proof fn lemma_u16_field(pre: Seq<u8>, v: int, post: Seq<u8>)
    requires
        0 <= v < 65536,
    ensures
        le_bytes(v, 2).len() == 2,
        u16_at(pre + le_bytes(v, 2) + post, pre.len() as int) == v,
{
    reveal_with_fuel(le_bytes, 3);
    let d = pre + le_bytes(v, 2) + post;
    assert(d[pre.len() as int] == (v % 256) as u8);
    assert(d[pre.len() + 1int] == ((v / 256) % 256) as u8);
}

proof fn lemma_u32_field(pre: Seq<u8>, v: int, post: Seq<u8>)
    requires
        0 <= v <= u32::MAX,
    ensures
        le_bytes(v, 4).len() == 4,
        u32_at(pre + le_bytes(v, 4) + post, pre.len() as int) == v,
{
    reveal_with_fuel(le_bytes, 5);
    let d = pre + le_bytes(v, 4) + post;
    let p = pre.len() as int;
    assert(d[p] == (v % 256) as u8);
    assert(d[p + 1] == ((v / 256) % 256) as u8);
    assert(d[p + 2] == ((v / 256 / 256) % 256) as u8);
    assert(d[p + 3] == ((v / 256 / 256 / 256) % 256) as u8);
    assert(v % 256 + 256 * ((v / 256) % 256) + 65536 * ((v / 256 / 256) % 256) + 16777216 * ((v / 256 / 256 / 256) % 256)
        == v) by (nonlinear_arith)
        requires
            0 <= v <= u32::MAX,
    ;
}

proof fn lemma_u16_list_len(vals: Seq<u16>)
    ensures
        u16_list(vals).len() == 2 * vals.len(),
    decreases vals.len(),
{
    if vals.len() > 0 {
        lemma_u16_list_len(vals.drop_last());
        reveal_with_fuel(le_bytes, 3);
    }
}

proof fn lemma_u16_list_field(pre: Seq<u8>, vals: Seq<u16>, post: Seq<u8>)
    ensures
        u16_list(vals).len() == 2 * vals.len(),
        u16s_at(pre + u16_list(vals) + post, pre.len() as int, vals.len()) == vals,
    decreases vals.len(),
{
    lemma_u16_list_len(vals);
    if vals.len() > 0 {
        let q = vals.drop_last();
        let last = vals.last();
        lemma_u16_list_len(q);
        assert(pre + u16_list(vals) + post =~= pre + u16_list(q) + (le_bytes(last as int, 2) + post));
        lemma_u16_list_field(pre, q, le_bytes(last as int, 2) + post);
        assert(pre + u16_list(vals) + post =~= (pre + u16_list(q)) + le_bytes(last as int, 2) + post);
        lemma_u16_field(pre + u16_list(q), last as int, post);
        let d = pre + u16_list(vals) + post;
        let p = pre.len() as int;
        assert forall|j: int| 0 <= j < vals.len() implies #[trigger] u16s_at(d, p, vals.len())[j] == vals[j] by {
            if j < q.len() {
                assert(u16s_at(d, p, q.len())[j] == q[j]);
            } else {
                assert(p + 2 * j == (pre + u16_list(q)).len());
            }
        }
        assert(u16s_at(d, p, vals.len()) =~= vals);
    } else {
        assert(u16s_at(pre + u16_list(vals) + post, pre.len() as int, 0) =~= vals);
    }
}

proof fn lemma_freq_list_field(pre: Seq<u8>, freqs: Seq<u32>, post: Seq<u8>)
    requires
        forall|i: int| 0 <= i < freqs.len() ==> #[trigger] freqs[i] < 65536,
    ensures
        freq_list(freqs).len() == 2 * freqs.len(),
        u16s_at(pre + freq_list(freqs) + post, pre.len() as int, freqs.len()).map_values(|f: u16| f as u32) == freqs,
    decreases freqs.len(),
{
    if freqs.len() > 0 {
        let q = freqs.drop_last();
        let last = freqs.last();
        assert(forall|i: int| 0 <= i < q.len() ==> #[trigger] q[i] == freqs[i]);
        lemma_freq_list_field(pre, q, le_bytes((last as u16) as int, 2) + post);
        reveal_with_fuel(le_bytes, 3);
        assert(pre + freq_list(freqs) + post =~= pre + freq_list(q) + (le_bytes((last as u16) as int, 2) + post));
        assert(pre + freq_list(freqs) + post =~= (pre + freq_list(q)) + le_bytes((last as u16) as int, 2) + post);
        lemma_u16_field(pre + freq_list(q), (last as u16) as int, post);
        let d = pre + freq_list(freqs) + post;
        let p = pre.len() as int;
        assert forall|j: int| 0 <= j < freqs.len() implies #[trigger] u16s_at(d, p, freqs.len())[j] as u32 == freqs[j] by {
            if j < q.len() {
                assert(u16s_at(d, p, q.len()).map_values(|f: u16| f as u32)[j] == q[j]);
                assert(u16s_at(d, p, q.len())[j] == u16s_at(d, p, freqs.len())[j]);
            } else {
                assert(p + 2 * j == (pre + freq_list(q)).len());
            }
        }
        assert(u16s_at(d, p, freqs.len()).map_values(|f: u16| f as u32) =~= freqs);
    } else {
        assert(u16s_at(pre + freq_list(freqs) + post, pre.len() as int, 0).map_values(|f: u16| f as u32) =~= freqs);
    }
}


proof fn lemma_cum_of(freqs: Seq<u32>, j: int)
    requires
        seq_sum(freqs) <= 4096,
        0 <= j <= freqs.len(),
    ensures
        cum_of(freqs)[j] as int == seq_sum(freqs.take(j)),
        seq_sum(freqs.take(j)) <= 4096,
{
    lemma_seq_sum_prefix_monotone(freqs, j, freqs.len() as int);
    lemma_seq_sum_prefix_monotone(freqs, 0, j);
    assert(freqs.take(freqs.len() as int) =~= freqs);
    assert(freqs.take(0) =~= Seq::<u32>::empty());
}

proof fn lemma_slot_owner_exact(freqs: Seq<u32>, slot: int, n: int, s: int)
    requires
        seq_sum(freqs) <= 4096,
        0 <= s < n <= freqs.len(),
        seq_sum(freqs.take(s)) <= slot < seq_sum(freqs.take(s)) + freqs[s],
    ensures
        slot_owner(cum_of(freqs), slot, n) == s,
    decreases n,
{
    let cum = cum_of(freqs);
    lemma_cum_of(freqs, s);
    lemma_cum_of(freqs, s + 1);
    assert(freqs.take(s + 1).drop_last() =~= freqs.take(s));
    if n - 1 > s {
        lemma_cum_of(freqs, n - 1);
        lemma_seq_sum_prefix_monotone(freqs, s + 1, n - 1);
        lemma_slot_owner_exact(freqs, slot, n - 1, s);
    }
}

/// A static rANS stream of length symbols decodes back to the lengths, from
/// symbol `k` on.
proof fn lemma_lengths_roundtrip(
    syms: Seq<(int, int)>,
    symbols: Seq<int>,
    freqs: Seq<u32>,
    values: Seq<u16>,
    lens: Seq<usize>,
    k: nat,
)
    requires
        valid_symbols(syms),
        syms.len() == lens.len(),
        symbols.len() == lens.len(),
        seq_sum(freqs) <= 4096,
        values.len() == freqs.len(),
        forall|i: int| 0 <= i < syms.len() ==> {
            &&& 0 <= #[trigger] symbols[i] < freqs.len()
            &&& freqs[symbols[i]] > 0
            &&& syms[i] == (seq_sum(freqs.take(symbols[i])), freqs[symbols[i]] as int)
            &&& values[symbols[i]] as usize == lens[i]
        },
        k <= syms.len(),
    ensures
        lengths_decode(encode_from(syms, k as int).0, encode_from(syms, k as int).1, (syms.len() - k) as nat, cum_of(freqs), freqs, values)
            == lens.skip(k as int),
    decreases syms.len() - k,
{
    if k == syms.len() {
        assert(lens.skip(k as int) =~= Seq::<usize>::empty());
    } else {
        let sym = symbols[k as int];
        law_stream_roundtrip(syms, k as int);
        let x = encode_from(syms, k as int).0;
        lemma_slot_owner_exact(freqs, x % 4096, freqs.len() as int, sym);
        assert(cum_of(freqs).len() - 1 == freqs.len());
        lemma_cum_of(freqs, sym);
        lemma_lengths_roundtrip(syms, symbols, freqs, values, lens, k + 1);
        assert(seq![lens[k as int]] + lens.skip((k + 1) as int) =~= lens.skip(k as int));
    }
}


/// Each frequency is at most the sum.
proof fn lemma_freq_below_sum(freqs: Seq<u32>, i: int)
    requires
        0 <= i < freqs.len(),
    ensures
        seq_sum(freqs.take(i)) + freqs[i] <= seq_sum(freqs),
{
    assert(freqs.take(i + 1).drop_last() =~= freqs.take(i));
    lemma_seq_sum_prefix_monotone(freqs, i + 1, freqs.len() as int);
    assert(freqs.take(freqs.len() as int) =~= freqs);
    lemma_seq_sum_prefix_monotone(freqs, 0, i);
    assert(freqs.take(0) =~= Seq::<u32>::empty());
}

/// What the length stream of a table needs: the frequencies sum to `ANS_M`,
/// every length's symbol has a positive frequency, and the symbols are
/// valid.
proof fn lemma_length_symbols(entries: Seq<Vec<u16>>, values: Seq<u16>)
    requires
        0 < entries.len() <= u32::MAX,
        !stored_raw(entries),
        is_present_list(length_table(entries), values),
        values.len() == count_ge(length_table(entries), 1),
        forall|i: int| 0 <= i < entries.len() ==> #[trigger] entries[i]@.len() < 65536,
    ensures
        ({
            let freqs = normalized_table(symbol_counts(entries, values));
            let syms = length_symbols(entries, values, freqs);
            let symbols = Seq::new(entries.len(), |i: int| symbol_of(values, entries[i]@.len() as u16));
            &&& freqs.len() == values.len()
            &&& 0 < values.len() <= 4000
            &&& seq_sum(freqs) == 4096
            &&& forall|i: int| 0 <= i < freqs.len() ==> #[trigger] freqs[i] < 65536
            &&& valid_symbols(syms)
            &&& forall|i: int| 0 <= i < syms.len() ==> {
                &&& 0 <= #[trigger] symbols[i] < freqs.len()
                &&& freqs[symbols[i]] > 0
                &&& syms[i] == (seq_sum(freqs.take(symbols[i])), freqs[symbols[i]] as int)
                &&& values[symbols[i]] as usize == entry_lengths(entries)[i]
            }
        }),
{
    let counts = symbol_counts(entries, values);
    let freqs = normalized_table(counts);
    let syms = length_symbols(entries, values, freqs);
    let symbols = Seq::new(entries.len(), |i: int| symbol_of(values, entries[i]@.len() as u16));
    assert forall|t: int| 0 <= t < counts.len() implies #[trigger] counts[t] > 0 by {
        assert(values.contains(values[t]));
    }
    lemma_all_positive_count(counts);
    lemma_length_present(entries, 0);
    lemma_length_count_bound(entries, entries[0]@.len() as u16);
    assert(length_table(entries)[(entries[0]@.len() as u16) as int] > 0);
    assert(values.contains(entries[0]@.len() as u16));
    assert(counts.len() == values.len());
    assert(1 <= count_ge(counts, 1) <= 4096);
    law_normalized_table_total(counts);
    assert forall|i: int| 0 <= i < freqs.len() implies #[trigger] freqs[i] < 65536 by {
        lemma_freq_below_sum(freqs, i);
        lemma_seq_sum_bound(freqs.take(i));
    }
    assert forall|i: int| 0 <= i < syms.len() implies {
        &&& 0 <= #[trigger] symbols[i] < freqs.len()
        &&& freqs[symbols[i]] > 0
        &&& syms[i] == (seq_sum(freqs.take(symbols[i])), freqs[symbols[i]] as int)
        &&& values[symbols[i]] as usize == entry_lengths(entries)[i]
    } by {
        let l = entries[i]@.len();
        lemma_length_present(entries, i);
        lemma_length_count_bound(entries, l as u16);
        assert(length_table(entries)[(l as u16) as int] > 0);
        assert(values.contains(l as u16));
        let c = symbol_of(values, l as u16);
        assert(0 <= c < values.len() && values[c] == l as u16);
        assert(counts[c] > 0);
    }
    assert forall|i: int| 0 <= i < syms.len() implies 0 <= #[trigger] syms[i].0 && 0 < syms[i].1 && syms[i].0 + syms[i].1 <= 4096 by {
        let c = symbols[i];
        lemma_freq_below_sum(freqs, c);
        lemma_seq_sum_prefix_monotone(freqs, 0, c);
        assert(freqs.take(0) =~= Seq::<u32>::empty());
    }
}

/// The frequencies of a table's length symbols.
pub open spec fn length_freqs(entries: Seq<Vec<u16>>, values: Seq<u16>) -> Seq<u32> {
    normalized_table(symbol_counts(entries, values))
}

/// The length stream of a table.
pub open spec fn length_stream(entries: Seq<Vec<u16>>, values: Seq<u16>) -> Seq<u8> {
    symbol_stream(length_symbols(entries, values, length_freqs(entries, values)))
}

/// Where each field of a rANS layout sits.
#[verifier::spinoff_prover]
#[verifier::rlimit(60)]
proof fn lemma_rans_fields(entries: Seq<Vec<u16>>, dict: Seq<u16>, values: Seq<u16>, atoms: Seq<u8>)
    requires
        0 < entries.len() <= u32::MAX,
        dict.len() < 65536,
        values.len() < 65536,
        forall|i: int| 0 <= i < length_freqs(entries, values).len() ==> #[trigger] length_freqs(entries, values)[i] < 65536,
        length_freqs(entries, values).len() == values.len(),
        length_stream(entries, values).len() <= u32::MAX,
        atoms.len() <= u32::MAX,
    ensures
        ({
            let bytes = rans_layout(entries, dict, values, atoms);
            let ds = dict.len() as int;
            let nl = values.len() as int;
            let lb = length_stream(entries, values).len() as int;
            let p5 = 9 + 2 * ds + 4 * nl;
            let p6 = p5 + 4;
            let p8 = p6 + lb + 4;
            &&& bytes.len() == p8 + atoms.len()
            &&& u32_at(bytes, 0) == entries.len()
            &&& bytes[4] == MODE_RANS1
            &&& u16_at(bytes, 5) == ds
            &&& u16s_at(bytes, 7, ds as nat) == dict
            &&& u16_at(bytes, 7 + 2 * ds) == nl
            &&& u16s_at(bytes, 9 + 2 * ds, nl as nat) == values
            &&& u16s_at(bytes, 9 + 2 * ds + 2 * nl, nl as nat).map_values(|f: u16| f as u32) == length_freqs(entries, values)
            &&& u32_at(bytes, p5) == lb
            &&& bytes.subrange(p6, p6 + lb) == length_stream(entries, values)
            &&& u32_at(bytes, p6 + lb) == atoms.len()
            &&& bytes.subrange(p8, p8 + atoms.len()) == atoms
        }),
{
    let n = entries.len();
    let freqs = length_freqs(entries, values);
    let ls = length_stream(entries, values);
    let bytes = rans_layout(entries, dict, values, atoms);
    reveal(rans_layout);
    let ds = dict.len() as int;
    let nl = values.len() as int;
    let lb = ls.len() as int;
    let ab = atoms.len() as int;
    let a0 = le_bytes(n as int, 4) + seq![MODE_RANS1];
    let b0 = le_bytes(ds, 2);
    let c0 = u16_list(dict);
    let d0 = le_bytes(nl, 2);
    let e0 = u16_list(values);
    let f0 = freq_list(freqs);
    let g0 = le_bytes(lb, 4);
    let i0 = le_bytes(ab, 4);
    assert(bytes == a0 + b0 + c0 + d0 + e0 + f0 + g0 + ls + i0 + atoms) by {
        assert(bytes =~= a0 + b0 + c0 + d0 + e0 + f0 + g0 + ls + i0 + atoms);
    }
    lemma_u32_field(Seq::empty(), n as int, seq![MODE_RANS1] + (b0 + c0 + d0 + e0 + f0 + g0 + ls + i0 + atoms));
    lemma_u16_field(a0, ds, c0 + d0 + e0 + f0 + g0 + ls + i0 + atoms);
    lemma_u16_list_field(a0 + b0, dict, d0 + e0 + f0 + g0 + ls + i0 + atoms);
    lemma_u16_field(a0 + b0 + c0, nl, e0 + f0 + g0 + ls + i0 + atoms);
    lemma_u16_list_field(a0 + b0 + c0 + d0, values, f0 + g0 + ls + i0 + atoms);
    lemma_freq_list_field(a0 + b0 + c0 + d0 + e0, freqs, g0 + ls + i0 + atoms);
    lemma_u32_field(a0 + b0 + c0 + d0 + e0 + f0, lb, ls + i0 + atoms);
    lemma_u32_field(a0 + b0 + c0 + d0 + e0 + f0 + g0 + ls, ab, atoms);
    assert(a0.len() == 5);
    assert(u32_at(bytes, 0) == n) by {
        assert(bytes =~= Seq::<u8>::empty() + le_bytes(n as int, 4) + (seq![MODE_RANS1] + (b0 + c0 + d0 + e0 + f0 + g0 + ls + i0
            + atoms)));
    }
    assert(bytes[4] == MODE_RANS1) by {
        assert(bytes[4] == a0[4]);
    }
    assert(u16_at(bytes, 5) == ds) by {
        assert(bytes =~= a0 + b0 + (c0 + d0 + e0 + f0 + g0 + ls + i0 + atoms));
    }
    assert(u16s_at(bytes, 7, ds as nat) == dict) by {
        assert(bytes =~= (a0 + b0) + c0 + (d0 + e0 + f0 + g0 + ls + i0 + atoms));
    }
    assert(u16_at(bytes, 7 + 2 * ds) == nl) by {
        assert(bytes =~= (a0 + b0 + c0) + d0 + (e0 + f0 + g0 + ls + i0 + atoms));
    }
    assert(u16s_at(bytes, 9 + 2 * ds, nl as nat) == values) by {
        assert(bytes =~= (a0 + b0 + c0 + d0) + e0 + (f0 + g0 + ls + i0 + atoms));
    }
    assert(u16s_at(bytes, 9 + 2 * ds + 2 * nl, nl as nat).map_values(|f: u16| f as u32) == freqs) by {
        assert(bytes =~= (a0 + b0 + c0 + d0 + e0) + f0 + (g0 + ls + i0 + atoms));
    }
    let p5 = 9 + 2 * ds + 4 * nl;
    assert(u32_at(bytes, p5) == lb) by {
        assert(bytes =~= (a0 + b0 + c0 + d0 + e0 + f0) + g0 + (ls + i0 + atoms));
    }
    let p6 = p5 + 4;
    assert(bytes.subrange(p6, p6 + lb) == ls) by {
        assert(bytes.subrange(p6, p6 + lb) =~= ls);
    }
    assert(u32_at(bytes, p6 + lb) == ab) by {
        assert(bytes =~= (a0 + b0 + c0 + d0 + e0 + f0 + g0 + ls) + i0 + atoms);
    }
    let p8 = p6 + lb + 4;
    assert(bytes.subrange(p8, p8 + ab) == atoms) by {
        assert(bytes.subrange(p8, p8 + ab) =~= atoms);
    }
}

/// The streams of a rANS layout decode back: the lengths, then the atoms.
proof fn lemma_rans_streams(entries: Seq<Vec<u16>>, dict: Seq<u16>, values: Seq<u16>)
    requires
        0 < entries.len() <= u32::MAX,
        total_atoms(entries) <= u32::MAX,
        !stored_raw(entries),
        forall|i: int| 0 <= i < entries.len() ==> #[trigger] entries[i]@.len() < 65536,
        is_ranked_dict(atom_table(entries), dict),
        is_present_list(length_table(entries), values),
        dict.len() == count_ge(atom_table(entries), 1),
        values.len() == count_ge(length_table(entries), 1),
    ensures
        ({
            let freqs = length_freqs(entries, values);
            let ls = length_stream(entries, values);
            &&& freqs.len() == values.len()
            &&& 0 < values.len() <= 4000
            &&& dict.len() <= 4000
            &&& seq_sum(freqs) == 4096
            &&& forall|i: int| 0 <= i < freqs.len() ==> #[trigger] freqs[i] < 65536
            &&& ls.len() >= 4
            &&& lengths_decode(
                le_u32_value(ls.skip(ls.len() - 4)),
                ls.take(ls.len() - 4),
                entries.len(),
                cum_of(freqs),
                freqs,
                values,
            ) == entry_lengths(entries)
            &&& atoms_decoded(order1_atoms(entries, dict), entry_lengths(entries), dict) == Some(entry_views(entries))
        }),
{
    let freqs = length_freqs(entries, values);
    let syms = length_symbols(entries, values, freqs);
    let ls = length_stream(entries, values);
    lemma_length_symbols(entries, values);
    let (x, st) = encode_from(syms, 0);
    law_stream_roundtrip(syms, 0);
    law_flush_then_open(st, x as u32);
    let symbols = Seq::new(entries.len(), |i: int| symbol_of(values, entries[i]@.len() as u16));
    lemma_lengths_roundtrip(syms, symbols, freqs, values, entry_lengths(entries), 0);
    assert(entry_lengths(entries).skip(0) =~= entry_lengths(entries));
    assert forall|i: int, j: int| 0 <= i < entries.len() && 0 <= j < entries[i]@.len() implies dict.contains(#[trigger] entries[i]@[j]) by {
        lemma_atom_count_positive(entries, i, j);
        lemma_atom_count_bound(entries, entries[i]@[j]);
        assert(atom_table(entries)[entries[i]@[j] as int] > 0);
    }
    law_order1_roundtrip(entries, dict);
}

/// A table laid out in the rANS mode reads back as itself: the data holds
/// the number of entries and the mode, and the rANS layout parses back to
/// the entries. This holds where both streams are shorter than 4 GiB.
pub proof fn law_rans_table_roundtrip(entries: Seq<Vec<u16>>, dict: Seq<u16>, values: Seq<u16>)
    requires
        0 < entries.len() <= u32::MAX,
        total_atoms(entries) <= u32::MAX,
        !stored_raw(entries),
        forall|i: int| 0 <= i < entries.len() ==> #[trigger] entries[i]@.len() < 65536,
        is_ranked_dict(atom_table(entries), dict),
        is_present_list(length_table(entries), values),
        dict.len() == count_ge(atom_table(entries), 1),
        values.len() == count_ge(length_table(entries), 1),
        length_stream(entries, values).len() <= u32::MAX,
        order1_atoms(entries, dict).len() <= u32::MAX,
    ensures
        ({
            let bytes = rans_layout(entries, dict, values, order1_atoms(entries, dict));
            &&& bytes.len() > 4
            &&& u32_at(bytes, 0) == entries.len()
            &&& bytes[4] == MODE_RANS1
            &&& parse_rans(bytes, entries.len()) == Some(entry_views(entries))
        }),
{
    lemma_rans_streams(entries, dict, values);
    lemma_rans_fields(entries, dict, values, order1_atoms(entries, dict));
}

/// A non-empty table that `encode_palette_table` laid out reads back as
/// itself through `decode_palette_table`: the data holds the number of
/// entries and a mode byte, and the raw or rANS layout after them parses
/// back to the entries. This holds where the entries are shorter than 65536
/// atoms and, in the rANS mode, both streams are shorter than 4 GiB.
pub proof fn law_palette_table_roundtrip(entries: Seq<Vec<u16>>, bytes: Seq<u8>)
    requires
        0 < entries.len() <= u32::MAX,
        total_atoms(entries) <= u32::MAX,
        forall|i: int| 0 <= i < entries.len() ==> #[trigger] entries[i]@.len() < 65536,
        stored_raw(entries) ==> bytes == le_bytes(entries.len() as int, 4) + seq![MODE_RAW] + raw_entries(entries),
        !stored_raw(entries) ==> exists|dict: Seq<u16>, values: Seq<u16>|
            is_ranked_dict(atom_table(entries), dict) && is_present_list(length_table(entries), values) && dict.len()
                == count_ge(atom_table(entries), 1) && values.len() == count_ge(length_table(entries), 1)
                && length_stream(entries, values).len() <= u32::MAX && order1_atoms(entries, dict).len() <= u32::MAX && bytes
                == #[trigger] rans_layout(entries, dict, values, order1_atoms(entries, dict)),
    ensures
        bytes.len() > 4,
        u32_at(bytes, 0) == entries.len(),
        bytes[4] == MODE_RAW || bytes[4] == MODE_RANS1,
        bytes[4] == MODE_RAW ==> parse_raw(bytes, 5, entries.len() as nat) == Some(entry_views(entries)),
        bytes[4] == MODE_RANS1 ==> parse_rans(bytes, entries.len() as nat) == Some(entry_views(entries)),
{
    if stored_raw(entries) {
        law_raw_roundtrip(entries);
    } else {
        let (dict, values) = choose|dict: Seq<u16>, values: Seq<u16>|
            is_ranked_dict(atom_table(entries), dict) && is_present_list(length_table(entries), values) && dict.len()
                == count_ge(atom_table(entries), 1) && values.len() == count_ge(length_table(entries), 1)
                && length_stream(entries, values).len() <= u32::MAX && order1_atoms(entries, dict).len() <= u32::MAX && bytes
                == #[trigger] rans_layout(entries, dict, values, order1_atoms(entries, dict));
        law_rans_table_roundtrip(entries, dict, values);
    }
}

} // verus!
