use vstd::prelude::*;

use crate::definitions::SegmentAtom;

verus! {

pub const MAX_INDIRECT_PALETTE_SIZE: usize = 256;
pub const ATOM_COUNT: usize = 65536;

pub open spec fn spec_bits_per_entry(palette_length: int) -> usize {
    if palette_length <= 16 {
        4
    } else if palette_length <= 256 {
        8
    } else {
        16
    }
}

/// Bits that one packed entry takes for a palette of the given length.
pub fn bits_per_entry(palette_length: usize) -> (r: usize)
    ensures
        r == spec_bits_per_entry(palette_length as int),
{
    if palette_length <= 16 {
        4
    } else if palette_length <= MAX_INDIRECT_PALETTE_SIZE {
        8
    } else {
        16
    }
}

/// Each packed entry takes the fewest of 4, 8 or 16 bits that can name every
/// position of a palette of 1 to 65536 atoms: `2^b` positions reach the
/// palette, and no narrower width does.
pub proof fn law_bits_per_entry_fewest(palette_length: int)
    requires
        1 <= palette_length <= 65536,
    ensures
        spec_bits_per_entry(palette_length) == 4 || spec_bits_per_entry(palette_length) == 8
            || spec_bits_per_entry(palette_length) == 16,
        palette_length <= vstd::arithmetic::power2::pow2(spec_bits_per_entry(palette_length) as nat),
        forall|b: nat| (b == 4 || b == 8 || b == 16) && b < spec_bits_per_entry(palette_length)
            ==> vstd::arithmetic::power2::pow2(b) < palette_length,
{
    vstd::arithmetic::power2::lemma2_to64();
}

/// The atoms of a section, each once, in the order of their first occurrence.
pub open spec fn first_occurrences(s: Seq<u16>) -> Seq<u16>
    decreases s.len(),
{
    if s.len() == 0 {
        Seq::empty()
    } else {
        let d = first_occurrences(s.drop_last());
        if d.contains(s.last()) {
            d
        } else {
            d.push(s.last())
        }
    }
}

pub proof fn lemma_first_occurrences(s: Seq<u16>)
    ensures
        first_occurrences(s).no_duplicates(),
        forall|a: u16| #[trigger] first_occurrences(s).contains(a) <==> s.contains(a),
        first_occurrences(s).len() <= s.len(),
    decreases s.len(),
{
    if s.len() > 0 {
        let p = s.drop_last();
        lemma_first_occurrences(p);
        let d = first_occurrences(p);
        let f = first_occurrences(s);
        assert forall|a: u16| #[trigger] f.contains(a) <==> s.contains(a) by {
            if s.contains(a) {
                let k = choose|k: int| 0 <= k < s.len() && s[k] == a;
                if k < s.len() - 1 {
                    assert(p[k] == a);
                    assert(p.contains(a));
                    assert(d.contains(a));
                    let m = choose|m: int| 0 <= m < d.len() && d[m] == a;
                    assert(f[m] == a);
                } else if !d.contains(a) {
                    assert(f[f.len() - 1] == a);
                } else {
                    let m = choose|m: int| 0 <= m < d.len() && d[m] == a;
                    assert(f[m] == a);
                }
            }
            if f.contains(a) {
                let k = choose|k: int| 0 <= k < f.len() && f[k] == a;
                if k < d.len() {
                    assert(d[k] == a);
                    assert(d.contains(a));
                    assert(p.contains(a));
                    let m = choose|m: int| 0 <= m < p.len() && p[m] == a;
                    assert(s[m] == a);
                } else {
                    assert(a == s.last());
                    assert(s[s.len() - 1] == a);
                }
            }
        }
    }
}

/// The atoms that a paletted section's entries index; empty for a direct
/// section, whose entries are atoms.
#[derive(Debug, Clone, PartialEq, Eq)]
pub struct Palette {
    pub palette: Vec<SegmentAtom>,
    pub bits_per_entry: usize,
}

impl Palette {
    pub fn length(&self) -> (r: usize)
        ensures
            r == self.palette@.len(),
    {
        self.palette.len()
    }

    pub fn direct(&self) -> (r: bool)
        ensures
            r == (self.palette@.len() == 0),
    {
        self.palette.len() == 0
    }

    pub open spec fn is_direct(&self) -> bool {
        self.palette@.len() == 0
    }
}

/// The palette that stores atoms directly, sixteen bits each.
pub fn direct_palette() -> (r: Palette)
    ensures
        r.palette@.len() == 0,
        r.bits_per_entry == 16,
{
    Palette { palette: Vec::new(), bits_per_entry: 16 }
}

/// Builds the palette of a section: its distinct atoms in the order of first
/// occurrence, or the direct palette where there are more than
/// `MAX_INDIRECT_PALETTE_SIZE`. `indices` then maps each palette atom to its
/// position.
pub fn build_palette<const UNPACKED_SIZE: usize>(
    data: &[SegmentAtom; UNPACKED_SIZE],
    indices: &mut [u8; 65536],
) -> (r: Palette)
    ensures
        first_occurrences(data@).len() > 256 ==> r.palette@.len() == 0 && r.bits_per_entry == 16,
        first_occurrences(data@).len() <= 256 ==> {
            &&& r.palette@ == first_occurrences(data@)
            &&& r.bits_per_entry == spec_bits_per_entry(r.palette@.len() as int)
            &&& forall|k: int| 0 <= k < r.palette@.len() ==> final(indices)@[r.palette@[k] as int] == k
        },
{
    let mut palette: Vec<u16> = Vec::new();
    let mut unique: Vec<bool> = vec![false; 65536];
    let mut i: usize = 0;
    proof {
        assert(data@.take(0) =~= Seq::<u16>::empty());
    }
    while i < UNPACKED_SIZE
        invariant
            i <= UNPACKED_SIZE,
            data@.len() == UNPACKED_SIZE,
            unique@.len() == 65536,
            palette@ == first_occurrences(data@.take(i as int)),
            palette@.len() <= 256,
            forall|a: u16| #[trigger] unique@[a as int] <==> palette@.contains(a),
            forall|k: int| 0 <= k < palette@.len() ==> indices@[palette@[k] as int] == k,
        decreases UNPACKED_SIZE - i,
    {
        let atom = data[i];
        proof {
            assert(data@.take(i + 1).drop_last() =~= data@.take(i as int));
            assert(data@.take(i + 1).last() == atom);
            lemma_first_occurrences(data@.take(i as int));
        }
        if unique[atom as usize] {
            i += 1;
            continue;
        }
        unique.set(atom as usize, true);
        if palette.len() >= MAX_INDIRECT_PALETTE_SIZE {
            proof {
                lemma_first_occurrences(data@.take(i + 1));
                lemma_first_occurrences_grow(data@, (i + 1) as nat);
            }
            return direct_palette();
        }
        indices[atom as usize] = palette.len() as u8;
        let ghost old_pal = palette@;
        palette.push(atom);
        proof {
            assert forall|a: u16| #[trigger] unique@[a as int] <==> palette@.contains(a) by {
                if a == atom {
                    assert(palette@[palette@.len() - 1] == atom);
                } else {
                    if palette@.contains(a) {
                        let k = choose|k: int| 0 <= k < palette@.len() && palette@[k] == a;
                        assert(old_pal[k] == a);
                    }
                    if old_pal.contains(a) {
                        let k = choose|k: int| 0 <= k < old_pal.len() && old_pal[k] == a;
                        assert(palette@[k] == a);
                    }
                }
            }
            assert forall|k: int| 0 <= k < palette@.len() implies indices@[palette@[k] as int] == k by {
                if k < old_pal.len() {
                    assert(old_pal[k] != atom);
                }
            }
        }
        i += 1;
    }
    proof {
        assert(data@.take(UNPACKED_SIZE as int) =~= data@);
    }
    let bpe = bits_per_entry(palette.len());
    Palette { palette, bits_per_entry: bpe }
}

/// Taking more of a sequence never loses first occurrences.
pub proof fn lemma_first_occurrences_grow(s: Seq<u16>, k: nat)
    requires
        k <= s.len(),
    ensures
        first_occurrences(s.take(k as int)).len() <= first_occurrences(s).len(),
    decreases s.len() - k,
{
    if k < s.len() {
        lemma_first_occurrences_grow(s, k + 1);
        assert(s.take(k + 1 as int).drop_last() =~= s.take(k as int));
    } else {
        assert(s.take(k as int) =~= s);
    }
}


/// How many times `a` occurs in `s`.
pub open spec fn occurrences(s: Seq<u16>, a: u16) -> nat
    decreases s.len(),
{
    if s.len() == 0 {
        0
    } else {
        occurrences(s.drop_last(), a) + if s.last() == a { 1nat } else { 0nat }
    }
}

pub proof fn lemma_occurrences_bound(s: Seq<u16>, a: u16)
    ensures
        occurrences(s, a) <= s.len(),
    decreases s.len(),
{
    if s.len() > 0 {
        lemma_occurrences_bound(s.drop_last(), a);
    }
}

/// Reusable work space for building palettes: where each atom went in the
/// last palette, and marks of the atoms seen, by generation.
pub struct PackScratch {
    pub indices: [u8; 65536],
    seen: [u8; 65536],
    seen_gen: u8,
}

impl PackScratch {
    /// No mark is newer than the current generation.
    pub closed spec fn wf(&self) -> bool {
        forall|a: int| 0 <= a < 65536 ==> #[trigger] self.seen@[a] <= self.seen_gen
    }

    /// The position recorded for `atom`.
    pub open spec fn index_of(&self, atom: u16) -> int {
        self.indices_view()[atom as int] as int
    }

    /// Where each atom went in the last palette.
    pub closed spec fn indices_view(&self) -> Seq<u8> {
        self.indices@
    }

    /// The position recorded for `atom`.
    pub fn index(&self, atom: u16) -> (r: u8)
        ensures
            r == self.index_of(atom),
    {
        self.indices[atom as usize]
    }

    pub fn new() -> (r: Self)
        ensures
            r.wf(),
    {
        PackScratch { indices: [0u8; 65536], seen: [0u8; 65536], seen_gen: 0 }
    }
}

/// Builds the palette of a section, as `build_palette` does, but ordered by
/// how often each atom occurs, most frequent first, reusing `scratch`. More
/// than `MAX_INDIRECT_PALETTE_SIZE` distinct atoms give the direct palette.
/// `scratch.indices` then maps each palette atom to its position.
pub fn build_palette_with<const UNPACKED_SIZE: usize>(data: &[SegmentAtom; UNPACKED_SIZE], scratch: &mut PackScratch) -> (r: Palette)
    requires
        old(scratch).wf(),
    ensures
        final(scratch).wf(),
        first_occurrences(data@).len() > 256 ==> r.palette@.len() == 0 && r.bits_per_entry == 16,
        first_occurrences(data@).len() <= 256 ==> {
            &&& r.palette@.len() == first_occurrences(data@).len()
            &&& r.palette@.no_duplicates()
            &&& forall|a: u16| #[trigger] r.palette@.contains(a) <==> data@.contains(a)
            &&& forall|i: int, j: int| 0 <= i < j < r.palette@.len() ==> occurrences(data@, #[trigger] r.palette@[i])
                >= occurrences(data@, #[trigger] r.palette@[j])
            &&& forall|k: int| 0 <= k < r.palette@.len() ==> final(scratch).index_of(r.palette@[k]) == k
            &&& r.bits_per_entry == spec_bits_per_entry(r.palette@.len() as int)
        },
{
    scratch.seen_gen = scratch.seen_gen.wrapping_add(1);
    if scratch.seen_gen == 0 {
        let mut a: usize = 0;
        while a < 65536
            invariant
                a <= 65536,
                forall|b: int| 0 <= b < a ==> #[trigger] scratch.seen@[b] == 0,
            decreases 65536 - a,
        {
            scratch.seen[a] = 0;
            a += 1;
        }
        scratch.seen_gen = 1;
    }
    let mark = scratch.seen_gen;
    let mut palette: Vec<u16> = Vec::new();
    let mut i: usize = 0;
    proof {
        assert(data@.take(0) =~= Seq::<u16>::empty());
    }
    while i < UNPACKED_SIZE
        invariant
            i <= UNPACKED_SIZE,
            data@.len() == UNPACKED_SIZE,
            mark == scratch.seen_gen,
            mark >= 1,
            palette@ == first_occurrences(data@.take(i as int)),
            palette@.len() <= 256,
            forall|a: int| 0 <= a < 65536 ==> #[trigger] scratch.seen@[a] <= mark,
            forall|a: u16| #[trigger] scratch.seen@[a as int] == mark <==> palette@.contains(a),
            forall|k: int| 0 <= k < palette@.len() ==> scratch.indices@[palette@[k] as int] == k,
        decreases UNPACKED_SIZE - i,
    {
        let atom = data[i];
        proof {
            assert(data@.take(i + 1).drop_last() =~= data@.take(i as int));
            assert(data@.take(i + 1).last() == atom);
            lemma_first_occurrences(data@.take(i as int));
        }
        if scratch.seen[atom as usize] == mark {
            i += 1;
            continue;
        }
        scratch.seen[atom as usize] = mark;
        if palette.len() >= MAX_INDIRECT_PALETTE_SIZE {
            proof {
                lemma_first_occurrences(data@.take(i + 1));
                lemma_first_occurrences_grow(data@, (i + 1) as nat);
            }
            return direct_palette();
        }
        scratch.indices[atom as usize] = palette.len() as u8;
        let ghost old_pal = palette@;
        palette.push(atom);
        proof {
            assert forall|a: u16| #[trigger] scratch.seen@[a as int] == mark <==> palette@.contains(a) by {
                if a == atom {
                    assert(palette@[palette@.len() - 1] == atom);
                } else {
                    if palette@.contains(a) {
                        let k = choose|k: int| 0 <= k < palette@.len() && palette@[k] == a;
                        assert(old_pal[k] == a);
                    }
                    if old_pal.contains(a) {
                        let k = choose|k: int| 0 <= k < old_pal.len() && old_pal[k] == a;
                        assert(palette@[k] == a);
                    }
                }
            }
            assert forall|k: int| 0 <= k < palette@.len() implies scratch.indices@[palette@[k] as int] == k by {
                if k < old_pal.len() {
                    assert(old_pal[k] != atom);
                }
            }
        }
        i += 1;
    }
    proof {
        assert(data@.take(UNPACKED_SIZE as int) =~= data@);
        lemma_first_occurrences(data@);
    }
    let n = palette.len();
    let mut counts: Vec<usize> = Vec::new();
    let mut k: usize = 0;
    while k < n
        invariant
            k <= n,
            n == palette@.len(),
            counts@.len() == k,
            forall|j: int| 0 <= j < k ==> counts@[j] == 0,
        decreases n - k,
    {
        counts.push(0);
        k += 1;
    }
    i = 0;
    proof {
        assert forall|j: int| 0 <= j < n implies counts@[j] == occurrences(data@.take(0), palette@[j]) by {
            assert(data@.take(0) =~= Seq::<u16>::empty());
        }
    }
    while i < UNPACKED_SIZE
        invariant
            i <= UNPACKED_SIZE,
            data@.len() == UNPACKED_SIZE,
            n == palette@.len() <= 256,
            palette@ == first_occurrences(data@),
            forall|a: u16| #[trigger] palette@.contains(a) <==> data@.contains(a),
            palette@.no_duplicates(),
            forall|q: int| 0 <= q < palette@.len() ==> scratch.indices@[palette@[q] as int] == q,
            counts@.len() == n,
            forall|j: int| 0 <= j < n ==> #[trigger] counts@[j] == occurrences(data@.take(i as int), palette@[j]),
        decreases UNPACKED_SIZE - i,
    {
        let atom = data[i];
        proof {
            assert(data@.contains(atom));
            assert(palette@.contains(atom));
        }
        let slot = scratch.indices[atom as usize] as usize;
        proof {
            let q = choose|q: int| 0 <= q < palette@.len() && palette@[q] == atom;
            assert(slot == q);
            assert(data@.take(i + 1).drop_last() =~= data@.take(i as int));
            lemma_occurrences_bound(data@.take(i as int), atom);
            assert forall|j: int| 0 <= j < n implies #[trigger] occurrences(data@.take(i + 1), palette@[j]) == occurrences(
                data@.take(i as int),
                palette@[j],
            ) + if j == slot { 1nat } else { 0nat } by {
                if j != slot {
                    assert(palette@[j] != palette@[slot as int]);
                }
            }
        }
        counts.set(slot, counts[slot] + 1);
        i += 1;
    }
    proof {
        assert(data@.take(UNPACKED_SIZE as int) =~= data@);
    }
    let mut picked: Vec<bool> = Vec::new();
    k = 0;
    while k < n
        invariant
            k <= n,
            picked@.len() == k,
            forall|j: int| 0 <= j < k ==> !picked@[j],
        decreases n - k,
    {
        picked.push(false);
        k += 1;
    }
    let mut order: Vec<usize> = Vec::new();
    let mut step: usize = 0;
    while step < n
        invariant
            step <= n,
            n == palette@.len() <= 256,
            palette@ == first_occurrences(data@),
            forall|a: u16| #[trigger] palette@.contains(a) <==> data@.contains(a),
            palette@.no_duplicates(),
            forall|j: int| 0 <= j < n ==> #[trigger] counts@[j] == occurrences(data@, palette@[j]),
            forall|a: int| 0 <= a < 65536 ==> #[trigger] scratch.seen@[a] <= scratch.seen_gen,
            picked@.len() == n,
            counts@.len() == n,
            order@.len() == step,
            order@.no_duplicates(),
            forall|j: int| 0 <= j < step ==> #[trigger] order@[j] < n && picked@[order@[j] as int],
            forall|u: int| 0 <= u < n && #[trigger] picked@[u] ==> order@.contains(u as usize),
            forall|j1: int, j2: int| 0 <= j1 < j2 < step ==> counts@[#[trigger] order@[j1] as int] >= counts@[#[trigger] order@[j2] as int],
            forall|j: int, u: int| 0 <= j < step && 0 <= u < n && !picked@[u] ==> counts@[#[trigger] order@[j] as int] >= #[trigger] counts@[u],
        decreases n - step,
    {
        let mut best: usize = n;
        let mut c: usize = 0;
        while c < n
            invariant
                c <= n,
                picked@.len() == n,
                counts@.len() == n,
                best == n || (best < c && !picked@[best as int]),
                best == n ==> forall|u: int| 0 <= u < c ==> #[trigger] picked@[u],
                best < n ==> forall|u: int| 0 <= u < c && !picked@[u] ==> #[trigger] counts@[u] <= counts@[best as int],
            decreases n - c,
        {
            if !picked[c] && (best == n || counts[c] > counts[best]) {
                best = c;
            }
            c += 1;
        }
        proof {
            if best == n {
                assert(forall|u: int| 0 <= u < n ==> #[trigger] picked@[u]);
                assert forall|u: usize| (u as int) < n implies #[trigger] order@.contains(u) by {
                    assert(picked@[u as int]);
                }
                lemma_distinct_below(order@, n as int);
            }
        }
        let ghost old_order = order@;
        order.push(best);
        picked.set(best, true);
        proof {
            assert(!old_order.contains(best)) by {
                if old_order.contains(best) {
                    let j = choose|j: int| 0 <= j < old_order.len() && old_order[j] == best;
                    assert(old_order[j] < n && picked@[best as int]);
                }
            }
            assert(order@.no_duplicates()) by {
                assert forall|a: int, b: int| 0 <= a < b < order@.len() implies order@[a] != order@[b] by {
                    if b == order@.len() - 1 {
                        assert(old_order[a] != best);
                    } else {
                        assert(old_order[a] != old_order[b]);
                    }
                }
            }
            assert forall|u: int| 0 <= u < n && #[trigger] picked@[u] implies order@.contains(u as usize) by {
                if u == best {
                    assert(order@[order@.len() - 1] == best);
                } else {
                    let j = choose|j: int| 0 <= j < old_order.len() && old_order[j] == u as usize;
                    assert(order@[j] == u as usize);
                }
            }
        }
        step += 1;
    }
    proof {
        lemma_distinct_full(order@, n as int);
    }
    let mut sorted: Vec<u16> = Vec::new();
    k = 0;
    while k < n
        invariant
            k <= n <= 256,
            order@.len() == n,
            palette@.len() == n,
            palette@.no_duplicates(),
            order@.no_duplicates(),
            forall|j: int| 0 <= j < n ==> #[trigger] order@[j] < n,
            sorted@.len() == k,
            forall|j: int| 0 <= j < k ==> #[trigger] sorted@[j] == palette@[order@[j] as int],
            forall|j: int| 0 <= j < k ==> scratch.indices@[#[trigger] sorted@[j] as int] == j,
            forall|a: int| 0 <= a < 65536 ==> #[trigger] scratch.seen@[a] <= scratch.seen_gen,
        decreases n - k,
    {
        let atom = palette[order[k]];
        proof {
            assert forall|j: int| 0 <= j < k implies sorted@[j] != atom by {
                assert(order@[j] != order@[k as int]);
            }
        }
        sorted.push(atom);
        scratch.indices[atom as usize] = k as u8;
        k += 1;
    }
    proof {
        assert(sorted@.no_duplicates()) by {
            assert forall|a: int, b: int| 0 <= a < b < sorted@.len() implies sorted@[a] != sorted@[b] by {
                assert(order@[a] != order@[b]);
            }
        }
        assert forall|a: u16| #[trigger] sorted@.contains(a) <==> data@.contains(a) by {
            if sorted@.contains(a) {
                let j = choose|j: int| 0 <= j < sorted@.len() && sorted@[j] == a;
                assert(palette@.contains(a));
            }
            if data@.contains(a) {
                assert(palette@.contains(a));
                let q = choose|q: int| 0 <= q < palette@.len() && palette@[q] == a;
                assert(order@.contains(q as usize));
                let j = choose|j: int| 0 <= j < order@.len() && order@[j] == q as usize;
                assert(sorted@[j] == a);
            }
        }
        assert forall|i: int, j: int| 0 <= i < j < sorted@.len() implies occurrences(data@, #[trigger] sorted@[i])
            >= occurrences(data@, #[trigger] sorted@[j]) by {
            assert(counts@[order@[i] as int] >= counts@[order@[j] as int]);
        }
    }
    let bpe = bits_per_entry(sorted.len());
    Palette { palette: sorted, bits_per_entry: bpe }
}

/// A sequence of `n` distinct numbers below `n` holds every one of them.
proof fn lemma_distinct_full(s: Seq<usize>, n: int)
    requires
        0 <= n <= usize::MAX,
        s.len() == n,
        s.no_duplicates(),
        forall|j: int| 0 <= j < s.len() ==> s[j] < n,
    ensures
        forall|u: usize| (u as int) < n ==> #[trigger] s.contains(u),
{
    let t = s.map_values(|u: usize| u as int);
    assert(t.no_duplicates()) by {
        assert forall|a: int, b: int| 0 <= a < b < t.len() implies t[a] != t[b] by {
            assert(s[a] != s[b]);
        }
    }
    t.unique_seq_to_set();
    vstd::set_lib::lemma_int_range(0, n);
    let r = vstd::set_lib::set_int_range(0, n);
    assert(t.to_set().subset_of(r)) by {
        assert forall|u: int| #[trigger] t.to_set().contains(u) implies r.contains(u) by {
            let j = choose|j: int| 0 <= j < t.len() && t[j] == u;
            assert(s[j] < n);
        }
    }
    vstd::set_lib::lemma_subset_equality(t.to_set(), r);
    assert forall|u: usize| (u as int) < n implies #[trigger] s.contains(u) by {
        assert(r.contains(u as int));
        assert(t.to_set().contains(u as int));
        let j = choose|j: int| 0 <= j < t.len() && t[j] == u as int;
        assert(s[j] == u);
    }
}

/// A sequence of distinct numbers below `n` that holds every one of them is
/// at least `n` long.
proof fn lemma_distinct_below(s: Seq<usize>, n: int)
    requires
        0 <= n <= usize::MAX,
        s.no_duplicates(),
        forall|j: int| 0 <= j < s.len() ==> s[j] < n,
        forall|u: usize| (u as int) < n ==> #[trigger] s.contains(u),
    ensures
        s.len() >= n,
{
    let t = s.map_values(|u: usize| u as int);
    assert(t.no_duplicates()) by {
        assert forall|a: int, b: int| 0 <= a < b < t.len() implies t[a] != t[b] by {
            assert(s[a] != s[b]);
        }
    }
    t.unique_seq_to_set();
    vstd::set_lib::lemma_int_range(0, n);
    assert(t.to_set() =~= vstd::set_lib::set_int_range(0, n)) by {
        assert forall|u: int| #[trigger] t.to_set().contains(u) <==> vstd::set_lib::set_int_range(0, n).contains(u) by {
            if 0 <= u < n {
                assert(s.contains(u as usize));
                assert((u as usize) as int == u);
                let j = choose|j: int| 0 <= j < s.len() && s[j] == u as usize;
                assert(t[j] == u);
            }
            if t.to_set().contains(u) {
                let j = choose|j: int| 0 <= j < t.len() && t[j] == u;
                assert(s[j] < n);
            }
        }
    }
}

} // verus!
