use vstd::prelude::*;

use crate::io::serialize::deserialize::{
    changes_map, fits, parse_uint, reports, tile_entities_read, ReadFailure, ReadHandle, TileEntitiesView,
};
use crate::io::serialize::error::{ReadError, MAX_TILE_ENTITY_LIST_LENGTH, MAX_TILE_ENTITY_NBT_LENGTH};
use crate::io::serialize::serialize::Change;
use crate::region::tile_entities::{
    unpacked_position, DeltaTileEntityData, PositionMap, TileEntity, TileEntityDelta, TileEntityDeltaMap,
    TileEntityListDelta, TileEntityPosition,
};

verus! {

/// `n` 32-bit values from `p` on.
pub open spec fn parse_u32s(d: Seq<u8>, p: int, n: nat) -> Result<(Seq<u32>, int), ReadFailure>
    decreases n,
{
    if n == 0 {
        Ok((Seq::empty(), p))
    } else {
        match parse_u32s(d, p, (n - 1) as nat) {
            Err(f) => Err(f),
            Ok((vs, p1)) => match parse_uint(d, p1, 4) {
                Err(f) => Err(f),
                Ok((v, p2)) => Ok((vs.push(v as u32), p2)),
            },
        }
    }
}

/// `n` data lengths from `p` on, each refused as soon as it is read above
/// `MAX_TILE_ENTITY_NBT_LENGTH`.
pub open spec fn parse_nbt_lengths(d: Seq<u8>, p: int, n: nat) -> Result<(Seq<u32>, int), ReadFailure>
    decreases n,
{
    if n == 0 {
        Ok((Seq::empty(), p))
    } else {
        match parse_nbt_lengths(d, p, (n - 1) as nat) {
            Err(f) => Err(f),
            Ok((vs, p1)) => match parse_uint(d, p1, 4) {
                Err(f) => Err(f),
                Ok((v, p2)) => if v > MAX_TILE_ENTITY_NBT_LENGTH {
                    Err(ReadFailure::LengthExceeded)
                } else {
                    Ok((vs.push(v as u32), p2))
                },
            },
        }
    }
}

/// Every position is below the next one.
pub open spec fn ascending(ps: Seq<u32>) -> bool {
    forall|i: int| 0 <= i < ps.len() - 1 ==> #[trigger] ps[i] < ps[i + 1]
}

/// How many operations place a block entity.
pub open spec fn puts_count(ops: Seq<u8>) -> nat
    decreases ops.len(),
{
    if ops.len() == 0 {
        0
    } else {
        puts_count(ops.drop_last()) + if ops.last() == 1 { 1nat } else { 0nat }
    }
}

/// The first `i` changes of a list, with their data read from `p` on: a
/// clear where the operation is 0, else a placement with the next type and
/// data length. Gives the changes, the position after them, and how many
/// placements they used.
pub open spec fn parse_entries(
    d: Seq<u8>,
    p: int,
    positions: Seq<u32>,
    ops: Seq<u8>,
    types: Seq<u32>,
    lengths: Seq<u32>,
    i: nat,
) -> Result<(Seq<Change>, int, nat), ReadFailure>
    decreases i,
{
    if i == 0 {
        Ok((Seq::empty(), p, 0))
    } else {
        match parse_entries(d, p, positions, ops, types, lengths, (i - 1) as nat) {
            Err(f) => Err(f),
            Ok((cs, q, j)) => {
                let pos = unpacked_position(positions[i - 1]);
                if ops[i - 1] == 0 {
                    Ok((cs.push((pos, None)), q, j))
                } else if !fits(d, q, lengths[j as int] as int) {
                    Err(ReadFailure::OutOfBounds(q as usize))
                } else {
                    let len = lengths[j as int] as int;
                    Ok((cs.push((pos, Some((types[j as int], pos, d.subrange(q, q + len))))), q + len, j + 1))
                }
            },
        }
    }
}

/// The placements' types and data lengths at `p`, then the changes with the
/// placements' data.
pub open spec fn parse_placements(d: Seq<u8>, p: int, positions: Seq<u32>, ops: Seq<u8>) -> Result<(Seq<Change>, int), ReadFailure> {
    match parse_u32s(d, p, puts_count(ops)) {
        Err(f) => Err(f),
        Ok((types, p4)) => match parse_nbt_lengths(d, p4, puts_count(ops)) {
            Err(f) => Err(f),
            Ok((lengths, p5)) => match parse_entries(d, p5, positions, ops, types, lengths, ops.len()) {
                Err(f) => Err(f),
                Ok((cs, q, _j)) => Ok((cs, q)),
            },
        },
    }
}

/// One list in the column layout at `p`: its timestamp, its number of
/// changes (at most `MAX_TILE_ENTITY_LIST_LENGTH`), their positions (strictly
/// ascending), their operation bytes (0 or 1), the types and data lengths of
/// the placements, then the placements' data in order.
pub open spec fn parse_column_list(d: Seq<u8>, p: int) -> Result<((i64, Seq<Change>), int), ReadFailure> {
    match parse_uint(d, p, 8) {
        Err(f) => Err(f),
        Ok((ts, p1)) => match parse_uint(d, p1, 4) {
            Err(f) => Err(f),
            Ok((n, p2)) => if n > MAX_TILE_ENTITY_LIST_LENGTH {
                Err(ReadFailure::LengthExceeded)
            } else {
                match parse_u32s(d, p2, n as nat) {
                    Err(f) => Err(f),
                    Ok((positions, p3)) => if !ascending(positions) {
                        Err(ReadFailure::Malformed)
                    } else if !fits(d, p3, n) {
                        Err(ReadFailure::OutOfBounds(p3 as usize))
                    } else {
                        let ops = d.subrange(p3, p3 + n);
                        if exists|k: int| 0 <= k < n && #[trigger] ops[k] > 1 {
                            Err(ReadFailure::Malformed)
                        } else {
                            match parse_placements(d, p3 + n, positions, ops) {
                                Err(f) => Err(f),
                                Ok((cs, q)) => Ok((((ts as u64) as i64, cs), q)),
                            }
                        }
                    },
                }
            },
        },
    }
}

/// `n` lists from `p` on.
pub open spec fn parse_column_lists(d: Seq<u8>, p: int, n: nat) -> Result<(TileEntitiesView, int), ReadFailure>
    decreases n,
{
    if n == 0 {
        Ok((Seq::empty(), p))
    } else {
        match parse_column_lists(d, p, (n - 1) as nat) {
            Err(f) => Err(f),
            Ok((ls, p1)) => match parse_column_list(d, p1) {
                Err(f) => Err(f),
                Ok((l, p2)) => Ok((ls.push(l), p2)),
            },
        }
    }
}

/// A block entity history in the column layout at `p`: the number of lists
/// (at most `MAX_TILE_ENTITY_LIST_LENGTH`), then the lists.
pub open spec fn parse_column_tile_entities(d: Seq<u8>, p: int) -> Result<(TileEntitiesView, int), ReadFailure> {
    match parse_uint(d, p, 4) {
        Err(f) => Err(f),
        Ok((n, p1)) => if n > MAX_TILE_ENTITY_LIST_LENGTH {
            Err(ReadFailure::LengthExceeded)
        } else {
            parse_column_lists(d, p1, n as nat)
        },
    }
}

proof fn lemma_u32s_stay_failed(d: Seq<u8>, p: int, i: nat, n: nat)
    requires
        i <= n,
        parse_u32s(d, p, i) is Err,
    ensures
        parse_u32s(d, p, n) == parse_u32s(d, p, i),
    decreases n - i,
{
    if i < n {
        lemma_u32s_stay_failed(d, p, i, (n - 1) as nat);
    }
}

proof fn lemma_lengths_stay_failed(d: Seq<u8>, p: int, i: nat, n: nat)
    requires
        i <= n,
        parse_nbt_lengths(d, p, i) is Err,
    ensures
        parse_nbt_lengths(d, p, n) == parse_nbt_lengths(d, p, i),
    decreases n - i,
{
    if i < n {
        lemma_lengths_stay_failed(d, p, i, (n - 1) as nat);
    }
}

proof fn lemma_entries_stay_failed(
    d: Seq<u8>,
    p: int,
    positions: Seq<u32>,
    ops: Seq<u8>,
    types: Seq<u32>,
    lengths: Seq<u32>,
    i: nat,
    n: nat,
)
    requires
        i <= n,
        parse_entries(d, p, positions, ops, types, lengths, i) is Err,
    ensures
        parse_entries(d, p, positions, ops, types, lengths, n) == parse_entries(d, p, positions, ops, types, lengths, i),
    decreases n - i,
{
    if i < n {
        lemma_entries_stay_failed(d, p, positions, ops, types, lengths, i, (n - 1) as nat);
    }
}

proof fn lemma_column_lists_stay_failed(d: Seq<u8>, p: int, i: nat, n: nat)
    requires
        i <= n,
        parse_column_lists(d, p, i) is Err,
    ensures
        parse_column_lists(d, p, n) == parse_column_lists(d, p, i),
    decreases n - i,
{
    if i < n {
        lemma_column_lists_stay_failed(d, p, i, (n - 1) as nat);
    }
}

proof fn lemma_puts_bound(ops: Seq<u8>)
    ensures
        puts_count(ops) <= ops.len(),
    decreases ops.len(),
{
    if ops.len() > 0 {
        lemma_puts_bound(ops.drop_last());
    }
}

/// Reads `n` 32-bit values.
fn read_u32s(h: &mut ReadHandle, n: usize) -> (r: Result<Vec<u32>, ReadError>)
    ensures
        final(h).data() == old(h).data(),
        match parse_u32s(old(h).data(), old(h).pos(), n as nat) {
            Ok((vs, e)) => r matches Ok(v) && v@ == vs && final(h).pos() == e,
            Err(f) => r is Err && reports(r->Err_0, f),
        },
{
    let ghost d = h.data();
    let ghost p1 = h.pos();
    let mut out: Vec<u32> = Vec::new();
    let mut i: usize = 0;
    while i < n
        invariant
            i <= n,
            d == old(h).data(),
            p1 == old(h).pos(),
            h.data() == d,
            parse_u32s(d, p1, i as nat) == Ok::<(Seq<u32>, int), ReadFailure>((out@, h.pos())),
        decreases n - i,
    {
        let v = match h.read_u32() {
            Ok(v) => v,
            Err(e) => {
                proof {
                    lemma_u32s_stay_failed(d, p1, (i + 1) as nat, n as nat);
                }
                return Err(e);
            },
        };
        out.push(v);
        i += 1;
    }
    Ok(out)
}

/// Reads `n` data lengths, refusing one above `MAX_TILE_ENTITY_NBT_LENGTH`.
fn read_nbt_lengths(h: &mut ReadHandle, n: usize) -> (r: Result<Vec<u32>, ReadError>)
    ensures
        final(h).data() == old(h).data(),
        match parse_nbt_lengths(old(h).data(), old(h).pos(), n as nat) {
            Ok((vs, e)) => r matches Ok(v) && v@ == vs && final(h).pos() == e,
            Err(f) => r is Err && reports(r->Err_0, f),
        },
{
    let ghost d = h.data();
    let ghost p1 = h.pos();
    let mut out: Vec<u32> = Vec::new();
    let mut i: usize = 0;
    while i < n
        invariant
            i <= n,
            d == old(h).data(),
            p1 == old(h).pos(),
            h.data() == d,
            parse_nbt_lengths(d, p1, i as nat) == Ok::<(Seq<u32>, int), ReadFailure>((out@, h.pos())),
        decreases n - i,
    {
        let v = match h.read_u32() {
            Ok(v) => v,
            Err(e) => {
                proof {
                    lemma_lengths_stay_failed(d, p1, (i + 1) as nat, n as nat);
                }
                return Err(e);
            },
        };
        if v as u64 > MAX_TILE_ENTITY_NBT_LENGTH {
            proof {
                lemma_lengths_stay_failed(d, p1, (i + 1) as nat, n as nat);
            }
            return Err(ReadError::LengthExceeded("tile entity nbt length exceeds its limit".to_string()));
        }
        out.push(v);
        i += 1;
    }
    Ok(out)
}

/// Whether every position is below the next.
fn strictly_ascending(ps: &Vec<u32>) -> (r: bool)
    ensures
        r == ascending(ps@),
{
    let n = ps.len();
    if n == 0 {
        return true;
    }
    let mut k: usize = 0;
    while k + 1 < n
        invariant
            n == ps@.len(),
            n >= 1,
            k + 1 <= n,
            forall|j: int| 0 <= j < k ==> #[trigger] ps@[j] < ps@[j + 1],
        decreases n - k,
    {
        if ps[k] >= ps[k + 1] {
            return false;
        }
        k += 1;
    }
    true
}

/// Whether every operation byte is 0 or 1.
fn ops_valid(ops: &Vec<u8>) -> (r: bool)
    ensures
        r == !(exists|k: int| 0 <= k < ops@.len() && #[trigger] ops@[k] > 1),
{
    let mut i: usize = 0;
    while i < ops.len()
        invariant
            i <= ops@.len(),
            forall|k: int| 0 <= k < i ==> #[trigger] ops@[k] <= 1,
        decreases ops@.len() - i,
    {
        if ops[i] > 1 {
            return false;
        }
        i += 1;
    }
    true
}

/// How many operations place a block entity.
fn count_puts(ops: &Vec<u8>) -> (r: usize)
    ensures
        r == puts_count(ops@),
{
    let mut count: usize = 0;
    let mut i: usize = 0;
    while i < ops.len()
        invariant
            i <= ops@.len(),
            count == puts_count(ops@.take(i as int)),
            count <= i,
        decreases ops@.len() - i,
    {
        proof {
            assert(ops@.take(i + 1).drop_last() =~= ops@.take(i as int));
        }
        if ops[i] == 1 {
            count += 1;
        }
        i += 1;
    }
    proof {
        assert(ops@.take(ops@.len() as int) =~= ops@);
    }
    count
}

proof fn lemma_u32s_len(d: Seq<u8>, p: int, n: nat)
    ensures
        parse_u32s(d, p, n) matches Ok((vs, _e)) ==> vs.len() == n,
    decreases n,
{
    if n > 0 {
        lemma_u32s_len(d, p, (n - 1) as nat);
    }
}

proof fn lemma_lengths_len(d: Seq<u8>, p: int, n: nat)
    ensures
        parse_nbt_lengths(d, p, n) matches Ok((vs, _e)) ==> vs.len() == n,
    decreases n,
{
    if n > 0 {
        lemma_lengths_len(d, p, (n - 1) as nat);
    }
}

proof fn lemma_puts_prefix(ops: Seq<u8>, i: nat, k: nat)
    requires
        i <= k <= ops.len(),
    ensures
        puts_count(ops.take(i as int)) <= puts_count(ops.take(k as int)),
    decreases k - i,
{
    if i < k {
        lemma_puts_prefix(ops, i, (k - 1) as nat);
        assert(ops.take(k as int).drop_last() =~= ops.take(k - 1));
    }
}

/// Reads the changes of one list: for each position a clear or a placement
/// whose data follows in order.
#[verifier::spinoff_prover]
fn read_entries(
    h: &mut ReadHandle,
    positions: &Vec<u32>,
    ops: &Vec<u8>,
    types: &Vec<u32>,
    lengths: &Vec<u32>,
) -> (r: Result<TileEntityDeltaMap, ReadError>)
    requires
        positions@.len() == ops@.len(),
        forall|k: int| 0 <= k < ops@.len() ==> #[trigger] ops@[k] <= 1,
        types@.len() == puts_count(ops@),
        lengths@.len() == puts_count(ops@),
    ensures
        final(h).data() == old(h).data(),
        match parse_entries(old(h).data(), old(h).pos(), positions@, ops@, types@, lengths@, ops@.len()) {
            Ok((cs, e, _j)) => r matches Ok(m) && m.wf() && m.map() == changes_map(cs) && final(h).pos() == e,
            Err(f) => r is Err && reports(r->Err_0, f),
        },
{
    let ghost d = h.data();
    let ghost p0 = h.pos();
    let ghost n = ops@.len();
    let mut deltas: TileEntityDeltaMap = PositionMap::new();
    let ghost mut cs: Seq<Change> = Seq::empty();
    let total = lengths.len();
    let mut j: usize = 0;
    let mut i: usize = 0;
    while i < ops.len()
        invariant
            total == lengths@.len(),
            i <= n,
            n == ops@.len(),
            n == positions@.len(),
            d == old(h).data(),
            p0 == old(h).pos(),
            h.data() == d,
            forall|k: int| 0 <= k < ops@.len() ==> #[trigger] ops@[k] <= 1,
            types@.len() == puts_count(ops@),
            lengths@.len() == puts_count(ops@),
            j == puts_count(ops@.take(i as int)),
            deltas.wf(),
            deltas.map() == changes_map(cs),
            parse_entries(d, p0, positions@, ops@, types@, lengths@, i as nat) == Ok::<(Seq<Change>, int, nat), ReadFailure>(
                (cs, h.pos(), j as nat),
            ),
        decreases n - i,
    {
        proof {
            assert(ops@.take(i + 1).drop_last() =~= ops@.take(i as int));
            lemma_puts_prefix(ops@, (i + 1) as nat, n);
            assert(ops@.take(n as int) =~= ops@);
        }
        let pos = TileEntityPosition::unpack(positions[i]);
        if ops[i] == 0 {
            deltas.insert(pos, TileEntityDelta::Erase);
            proof {
                assert(cs.push((pos, None)).drop_last() =~= cs);
                cs = cs.push((pos, None));
            }
        } else {
            proof {
                assert(ops@[i as int] == 1);
                assert(puts_count(ops@.take(i + 1)) == j + 1);
                assert(j + 1 <= lengths@.len());
            }
            let nbt = match h.read_vec(lengths[j] as usize) {
                Ok(v) => v,
                Err(e) => {
                    proof {
                        lemma_entries_stay_failed(d, p0, positions@, ops@, types@, lengths@, (i + 1) as nat, n);
                    }
                    return Err(e);
                },
            };
            let tile = TileEntity { tile_type: types[j], pos, nbt };
            let ghost c = (pos, Some(tile@));
            deltas.insert(pos, TileEntityDelta::Put(tile));
            proof {
                assert(cs.push(c).drop_last() =~= cs);
                cs = cs.push(c);
            }
            j += 1;
        }
        i += 1;
    }
    Ok(deltas)
}

/// Reads the placements' types and data lengths, then the changes.
fn read_placements(h: &mut ReadHandle, positions: &Vec<u32>, ops: &Vec<u8>) -> (r: Result<TileEntityDeltaMap, ReadError>)
    requires
        positions@.len() == ops@.len(),
        forall|k: int| 0 <= k < ops@.len() ==> #[trigger] ops@[k] <= 1,
    ensures
        final(h).data() == old(h).data(),
        match parse_placements(old(h).data(), old(h).pos(), positions@, ops@) {
            Ok((cs, e)) => r matches Ok(m) && m.wf() && m.map() == changes_map(cs) && final(h).pos() == e,
            Err(f) => r is Err && reports(r->Err_0, f),
        },
{
    let ghost d = h.data();
    let put_count = count_puts(ops);
    proof {
        lemma_puts_bound(ops@);
        lemma_u32s_len(d, h.pos(), put_count as nat);
    }
    let types = read_u32s(h, put_count)?;
    proof {
        lemma_lengths_len(d, h.pos(), put_count as nat);
    }
    let lengths = read_nbt_lengths(h, put_count)?;
    read_entries(h, positions, ops, &types, &lengths)
}

/// Reads one list in the column layout.
#[verifier::spinoff_prover]
#[verifier::rlimit(30)]
fn read_list(h: &mut ReadHandle) -> (r: Result<TileEntityListDelta, ReadError>)
    ensures
        final(h).data() == old(h).data(),
        match parse_column_list(old(h).data(), old(h).pos()) {
            Ok((l, e)) => r matches Ok(list) && list.deltas.wf() && list.timestamp == l.0 && list.deltas.map()
                == changes_map(l.1) && final(h).pos() == e,
            Err(f) => r is Err && reports(r->Err_0, f),
        },
{
    let timestamp = h.read_u64()? as i64;
    let entry_count = h.read_u32()?;
    if entry_count as u64 > MAX_TILE_ENTITY_LIST_LENGTH {
        return Err(ReadError::LengthExceeded("tile entity entry count exceeds its limit".to_string()));
    }
    let n = entry_count as usize;
    let ghost p2 = h.pos();
    let ghost d = h.data();
    proof {
        lemma_u32s_len(d, p2, n as nat);
    }
    let positions = read_u32s(h, n)?;
    assert(positions@.len() == n);
    if !strictly_ascending(&positions) {
        return Err(ReadError::Generic("tile entity positions not strictly ascending".to_string()));
    }
    proof {
        h.lemma_pos_nonneg();
    }
    let ghost p3 = h.pos();
    let ops = h.read_vec(n)?;
    assert(ops@ == d.subrange(p3, p3 + n));
    assert(ops@.len() == n);
    if !ops_valid(&ops) {
        proof {
            let k = choose|k: int| 0 <= k < ops@.len() && #[trigger] ops@[k] > 1;
            assert(d.subrange(p3, p3 + n)[k] > 1);
        }
        return Err(ReadError::Generic("invalid tile entity op".to_string()));
    }
    let deltas = read_placements(h, &positions, &ops)?;
    Ok(TileEntityListDelta { timestamp, deltas })
}

/// Reads a block entity history in the column layout: the number of lists,
/// then each list's positions, operations, placement types and data lengths,
/// and the placements' data.
pub fn read(h: &mut ReadHandle) -> (r: Result<DeltaTileEntityData, ReadError>)
    ensures
        final(h).data() == old(h).data(),
        match parse_column_tile_entities(old(h).data(), old(h).pos()) {
            Ok((ls, e)) => r matches Ok(data) && tile_entities_read(data, ls) && final(h).pos() == e,
            Err(f) => r is Err && reports(r->Err_0, f),
        },
{
    let list_count = h.read_u32()?;
    if list_count as u64 > MAX_TILE_ENTITY_LIST_LENGTH {
        return Err(ReadError::LengthExceeded("tile entity list count exceeds its limit".to_string()));
    }
    let ghost d = h.data();
    let ghost p1 = h.pos();
    let mut data = DeltaTileEntityData::default();
    let mut i: u32 = 0;
    while i < list_count
        invariant
            i <= list_count <= MAX_TILE_ENTITY_LIST_LENGTH,
            d == old(h).data(),
            h.data() == d,
            data.wf(),
            parse_column_tile_entities(old(h).data(), old(h).pos()) == parse_column_lists(d, p1, list_count as nat),
            parse_column_lists(d, p1, i as nat) matches Ok((ls, e)) && e == h.pos() && data.reverse_deltas@.len() == ls.len()
                && forall|k: int| 0 <= k < ls.len() ==> #[trigger] data.reverse_deltas@[k].timestamp == ls[k].0
                    && data.reverse_deltas@[k].deltas.map() == changes_map(ls[k].1),
        decreases list_count - i,
    {
        let ghost before = data.reverse_deltas@;
        match read_list(h) {
            Ok(list) => {
                data.reverse_deltas.push(list);
                proof {
                    assert forall|k: int| 0 <= k < data.reverse_deltas@.len() implies #[trigger] data.reverse_deltas@[k].deltas.wf() by {
                        if k < before.len() {
                            assert(data.reverse_deltas@[k] == before[k]);
                        }
                    }
                }
            },
            Err(e) => {
                proof {
                    lemma_column_lists_stay_failed(d, p1, (i + 1) as nat, list_count as nat);
                }
                return Err(e);
            },
        }
        i += 1;
    }
    proof {
        let ls = parse_column_lists(d, p1, i as nat)->Ok_0.0;
        assert(forall|k: int| 0 <= k < ls.len() ==> #[trigger] data.reverse_deltas@[k].timestamp == ls[k].0
            && data.reverse_deltas@[k].deltas.map() == changes_map(ls[k].1));
    }
    Ok(data)
}

} // verus!
