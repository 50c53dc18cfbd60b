use vstd::prelude::*;

verus! {

/// The `n` little-endian bytes of `v`.
pub open spec fn le_bytes(v: int, n: nat) -> Seq<u8>
    decreases n,
{
    if n == 0 {
        Seq::empty()
    } else {
        seq![(v % 256) as u8] + le_bytes(v / 256, (n - 1) as nat)
    }
}

/// Appends the `n` little-endian bytes of `v`.
fn put_le(buf: &mut Vec<u8>, v: u64, n: usize)
    requires
        n <= 8,
    ensures
        final(buf)@ == old(buf)@ + le_bytes(v as int, n as nat),
{
    let ghost start = buf@;
    let mut rest = v;
    let mut i: usize = 0;
    while i < n
        invariant
            i <= n <= 8,
            buf@ + le_bytes(rest as int, (n - i) as nat) == start + le_bytes(v as int, n as nat),
        decreases n - i,
    {
        let ghost before = buf@;
        buf.push((rest % 256) as u8);
        proof {
            assert(buf@ + le_bytes((rest / 256) as int, (n - i - 1) as nat) =~= before + le_bytes(rest as int, (n - i) as nat));
        }
        rest = rest / 256;
        i += 1;
    }
    proof {
        assert(buf@ + le_bytes(rest as int, 0) =~= buf@);
    }
}

pub fn put_u8(buf: &mut Vec<u8>, v: u8)
    ensures
        final(buf)@ == old(buf)@.push(v),
{
    buf.push(v);
}

pub fn put_u16_le(buf: &mut Vec<u8>, v: u16)
    ensures
        final(buf)@ == old(buf)@ + le_bytes(v as int, 2),
{
    put_le(buf, v as u64, 2);
}

pub fn put_u32_le(buf: &mut Vec<u8>, v: u32)
    ensures
        final(buf)@ == old(buf)@ + le_bytes(v as int, 4),
{
    put_le(buf, v as u64, 4);
}

pub fn put_u64_le(buf: &mut Vec<u8>, v: u64)
    ensures
        final(buf)@ == old(buf)@ + le_bytes(v as int, 8),
{
    put_le(buf, v, 8);
}

/// Appends each value, eight little-endian bytes each.
pub fn put_u64_le_slice(buf: &mut Vec<u8>, slice: &[u64])
    ensures
        final(buf)@.len() == old(buf)@.len() + 8 * slice@.len(),
        forall|k: int| 0 <= k < slice@.len() ==> #[trigger] final(buf)@.subrange(old(buf)@.len() + 8 * k, old(buf)@.len() + 8 * k + 8)
            == le_bytes(slice@[k] as int, 8),
        final(buf)@.subrange(0, old(buf)@.len() as int) == old(buf)@,
{
    let ghost start = buf@;
    let mut i: usize = 0;
    while i < slice.len()
        invariant
            i <= slice@.len(),
            buf@.len() == start.len() + 8 * i,
            buf@.subrange(0, start.len() as int) == start,
            forall|k: int| 0 <= k < i ==> #[trigger] buf@.subrange(start.len() + 8 * k, start.len() + 8 * k + 8)
                == le_bytes(slice@[k] as int, 8),
        decreases slice@.len() - i,
    {
        let ghost before = buf@;
        put_u64_le(buf, slice[i]);
        proof {
            reveal_with_fuel(le_bytes, 9);
            assert(buf@.subrange(0, start.len() as int) =~= start) by {
                assert(buf@.subrange(0, start.len() as int) =~= before.subrange(0, start.len() as int));
            }
            assert forall|k: int| 0 <= k < i + 1 implies #[trigger] buf@.subrange(start.len() + 8 * k, start.len() + 8 * k + 8)
                == le_bytes(slice@[k] as int, 8) by {
                if k < i {
                    assert(buf@.subrange(start.len() + 8 * k, start.len() + 8 * k + 8) =~= before.subrange(
                        start.len() + 8 * k,
                        start.len() + 8 * k + 8,
                    ));
                } else {
                    assert(buf@.subrange(start.len() + 8 * k, start.len() + 8 * k + 8) =~= le_bytes(slice@[k] as int, 8));
                }
            }
        }
        i += 1;
    }
}

pub fn put_bytes(buf: &mut Vec<u8>, v: &[u8])
    ensures
        final(buf)@ == old(buf)@ + v@,
{
    let ghost start = buf@;
    let mut i: usize = 0;
    while i < v.len()
        invariant
            i <= v@.len(),
            buf@ == start + v@.subrange(0, i as int),
        decreases v@.len() - i,
    {
        buf.push(v[i]);
        proof {
            assert(buf@ =~= start + v@.subrange(0, i + 1));
        }
        i += 1;
    }
    proof {
        assert(v@.subrange(0, v@.len() as int) =~= v@);
    }
}

} // verus!
