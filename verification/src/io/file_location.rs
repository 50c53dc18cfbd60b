use vstd::prelude::*;

use crate::dimension::DimensionType;
use vstd::string::StringSliceAdditionalSpecFns;

verus! {

pub type RegionID = u64;

pub const SECTOR_SIDELENGTH: i32 = 32;
pub const ZVCR_REGION_PREFIX: &'static str = "r.";
pub const EXTENSION: &'static str = "zvcr3d";

/// The sector, of `SECTOR_SIDELENGTH` regions per edge, that region coordinate
/// `rc` lies in: `rc / 32` rounded toward minus infinity.
pub fn floor_div_sector(rc: i32) -> (r: i32)
    ensures
        r as int == (rc as int) / 32,
{
    if rc >= 0 {
        rc / SECTOR_SIDELENGTH
    } else {
        let q = -((-(rc + 1)) / SECTOR_SIDELENGTH) - 1;
        proof {
            let m = -(rc + 1);
            vstd::arithmetic::div_mod::lemma_fundamental_div_mod(m as int, 32);
            let k = m / 32;
            vstd::arithmetic::div_mod::lemma_fundamental_div_mod_converse(rc as int, 32, -k - 1, 31 - m % 32);
        }
        q
    }
}

/// The low 21 bits of a coordinate, as an unsigned number.
pub open spec fn low21(v: i32) -> int {
    (v as int) % 0x200000
}

/// The id packs the dimension above bit 42, then 21 bits of x, then 21 bits of z.
pub open spec fn spec_region_id(rx: i32, rz: i32, dim: DimensionType) -> int {
    dim.spec_id() * 0x40000000000 + low21(rx) * 0x200000 + low21(rz)
}

/// A 21-bit field read back as a signed coordinate.
pub open spec fn sign_extend21(u: int) -> int {
    if u >= 0x100000 {
        u - 0x200000
    } else {
        u
    }
}

/// Where a region lies: its coordinates and its dimension.
#[derive(Debug, Clone, Copy, PartialEq, Eq, Structural)]
pub struct RegionLocation {
    pub rx: i32,
    pub rz: i32,
    pub dimension_type: DimensionType,
}

fn low21_of(v: i32) -> (r: u64)
    ensures
        r as int == low21(v),
        r < 0x200000,
{
    let u = v as u32;
    let masked = (u & 0x1F_FFFF) as u64;
    proof {
        assert(u & 0x1F_FFFF == u % 0x200000) by (bit_vector);
        if v >= 0 {
            assert(u == v);
        } else {
            assert(u == v + 0x100000000) by (bit_vector)
                requires u == v as u32, v < 0;
            vstd::arithmetic::div_mod::lemma_fundamental_div_mod(u as int, 0x200000);
            vstd::arithmetic::div_mod::lemma_fundamental_div_mod_converse(
                v as int,
                0x200000,
                (u as int) / 0x200000 - 0x800,
                (u as int) % 0x200000,
            );
        }
    }
    masked
}

impl RegionLocation {
    /// Packs the location into one number: the dimension's byte from bit 42,
    /// then the low 21 bits of `rx`, then the low 21 bits of `rz`.
    pub fn to_region_id(&self) -> (r: RegionID)
        ensures
            r as int == spec_region_id(self.rx, self.rz, self.dimension_type),
    {
        let ux = low21_of(self.rx);
        let uz = low21_of(self.rz);
        let ud = self.dimension_type.id() as u64;
        assert((ud << 42) | (ux << 21) | uz == ud * 0x40000000000 + ux * 0x200000 + uz) by (bit_vector)
            requires ud < 256, ux < 0x200000, uz < 0x200000;
        (ud << 42) | (ux << 21) | uz
    }

    /// Reads a location back from an id: each 21-bit field sign-extended, the
    /// dimension from the low byte above bit 42, the default dimension where
    /// that byte names none.
    pub fn from_region_id(region_id: RegionID) -> (r: Self)
        ensures
            r.rx as int == sign_extend21((region_id as int / 0x200000) % 0x200000),
            r.rz as int == sign_extend21(region_id as int % 0x200000),
            r.dimension_type == (match DimensionType::spec_from_u8(((region_id as int / 0x40000000000) % 256) as u8) {
                Some(d) => d,
                None => DimensionType::Overworld,
            }),
    {
        let ux = ((region_id >> 21) & 0x1F_FFFF) as i32;
        let uz = (region_id & 0x1F_FFFF) as i32;
        let ud = ((region_id >> 42) & 0xF_FFFF) as u8;
        proof {
            assert((region_id >> 21) & 0x1F_FFFF == (region_id / 0x200000) % 0x200000) by (bit_vector);
            assert(region_id & 0x1F_FFFF == region_id % 0x200000) by (bit_vector);
            assert(((region_id >> 42) & 0xF_FFFF) as u8 == ((region_id / 0x40000000000) % 256) as u8) by (bit_vector);
        }
        let recovered_x = if ux >= 0x10_0000 { ux - 0x20_0000 } else { ux };
        let recovered_z = if uz >= 0x10_0000 { uz - 0x20_0000 } else { uz };
        let recovered_dim = match DimensionType::from_u8(ud) {
            Some(d) => d,
            None => DimensionType::default(),
        };
        RegionLocation { rx: recovered_x, rz: recovered_z, dimension_type: recovered_dim }
    }
}

/// A location whose coordinates fit in 21 signed bits reads back from its id
/// unchanged.
pub proof fn law_region_id_roundtrip(loc: RegionLocation)
    requires
        -0x100000 <= loc.rx < 0x100000,
        -0x100000 <= loc.rz < 0x100000,
    ensures
        sign_extend21((spec_region_id(loc.rx, loc.rz, loc.dimension_type) / 0x200000) % 0x200000) == loc.rx,
        sign_extend21(spec_region_id(loc.rx, loc.rz, loc.dimension_type) % 0x200000) == loc.rz,
        DimensionType::spec_from_u8(((spec_region_id(loc.rx, loc.rz, loc.dimension_type) / 0x40000000000) % 256) as u8)
            == Some(loc.dimension_type),
{
    let a = low21(loc.rx);
    let c = low21(loc.rz);
    let d = loc.dimension_type.spec_id() as int;
    let id = spec_region_id(loc.rx, loc.rz, loc.dimension_type);
    assert(0 <= a < 0x200000 && 0 <= c < 0x200000);
    vstd::arithmetic::div_mod::lemma_fundamental_div_mod_converse(id, 0x200000, d * 0x200000 + a, c);
    vstd::arithmetic::div_mod::lemma_fundamental_div_mod_converse(d * 0x200000 + a, 0x200000, d, a);
    vstd::arithmetic::div_mod::lemma_fundamental_div_mod_converse(id, 0x40000000000, d, a * 0x200000 + c);
    vstd::arithmetic::div_mod::lemma_fundamental_div_mod_converse(d, 256, 0, d);
    vstd::arithmetic::div_mod::lemma_fundamental_div_mod(loc.rx as int, 0x200000);
    vstd::arithmetic::div_mod::lemma_fundamental_div_mod(loc.rz as int, 0x200000);
    crate::dimension::law_dimension_id_roundtrip(loc.dimension_type);
}


pub open spec fn is_digit(b: u8) -> bool {
    48 <= b <= 57
}

pub open spec fn all_digits(d: Seq<u8>) -> bool {
    forall|i: int| 0 <= i < d.len() ==> #[trigger] is_digit(d[i])
}

/// The number that a string of decimal digits spells.
pub open spec fn digits_value(d: Seq<u8>) -> int
    decreases d.len(),
{
    if d.len() == 0 {
        0
    } else {
        digits_value(d.drop_last()) * 10 + (d.last() - 48)
    }
}

/// How std reads an `i32` from text: an optional `+` or `-`, then one or more
/// decimal digits, the value in range.
pub open spec fn parse_i32(b: Seq<u8>) -> Option<i32> {
    let signed = b.len() > 0 && (b[0] == 45 || b[0] == 43);
    let d = if signed { b.skip(1) } else { b };
    let magnitude = digits_value(d);
    let v = if b.len() > 0 && b[0] == 45 { -magnitude } else { magnitude };
    if d.len() == 0 || !all_digits(d) || v < i32::MIN || v > i32::MAX {
        None
    } else {
        Some(v as i32)
    }
}

/// The decimal digits of `n`, most significant first.
pub open spec fn decimal_digits(n: nat) -> Seq<u8>
    decreases n,
{
    if n < 10 {
        seq![(48 + n) as u8]
    } else {
        decimal_digits(n / 10).push((48 + n % 10) as u8)
    }
}

/// How std writes an `i32` in decimal.
pub open spec fn decimal(v: int) -> Seq<u8> {
    if v < 0 {
        seq![45u8] + decimal_digits((-v) as nat)
    } else {
        decimal_digits(v as nat)
    }
}

pub proof fn lemma_decimal_digits(n: nat)
    ensures
        all_digits(decimal_digits(n)),
        digits_value(decimal_digits(n)) == n,
        decimal_digits(n).len() >= 1,
    decreases n,
{
    if n >= 10 {
        lemma_decimal_digits(n / 10);
        vstd::arithmetic::div_mod::lemma_fundamental_div_mod(n as int, 10);
        vstd::arithmetic::div_mod::lemma_mod_pos_bound(n as int, 10);
        let d = decimal_digits(n);
        assert(d.last() == 48 + n % 10);
        assert(digits_value(d) == digits_value(d.drop_last()) * 10 + (d.last() - 48));
        assert(d.drop_last() =~= decimal_digits(n / 10));
        assert(digits_value(d.drop_last()) == n / 10);
        assert(digits_value(d) == (n / 10) * 10 + n % 10);
        assert(digits_value(d) == n);
        assert forall|i: int| 0 <= i < d.len() implies #[trigger] is_digit(d[i]) by {
            if i < d.len() - 1 {
                assert(d[i] == decimal_digits(n / 10)[i]);
            }
        }
    } else {
        let d = decimal_digits(n);
        assert(d.drop_last() =~= Seq::<u8>::empty());
        assert(digits_value(d.drop_last()) == 0);
        assert(d.last() == 48 + n);
        assert(digits_value(d) == n);
        assert(is_digit(d[0]));
    }
}

proof fn lemma_digits_prefix(d: Seq<u8>, k: int)
    requires
        0 <= k <= d.len(),
        all_digits(d),
    ensures
        digits_value(d.take(k)) <= digits_value(d),
        0 <= digits_value(d.take(k)),
    decreases d.len() - k,
{
    if k < d.len() {
        lemma_digits_prefix(d, k + 1);
        assert(d.take(k + 1).drop_last() =~= d.take(k));
        assert(is_digit(d[k]));
    } else {
        assert(d.take(k) =~= d);
        lemma_digits_nonneg(d);
    }
}

proof fn lemma_digits_nonneg(d: Seq<u8>)
    requires
        all_digits(d),
    ensures
        digits_value(d) >= 0,
    decreases d.len(),
{
    if d.len() > 0 {
        assert(all_digits(d.drop_last())) by {
            assert forall|i: int| 0 <= i < d.drop_last().len() implies #[trigger] is_digit(d.drop_last()[i]) by {
                assert(d.drop_last()[i] == d[i]);
            }
        }
        lemma_digits_nonneg(d.drop_last());
        assert(is_digit(d[d.len() - 1]));
    }
}

/// Reads an `i32` the way std does.
pub fn parse_i32_bytes(b: &[u8]) -> (r: Option<i32>)
    ensures
        r == parse_i32(b@),
{
    let r = parse_i32_range(b, 0, b.len());
    proof {
        assert(b@.subrange(0, b@.len() as int) =~= b@);
    }
    r
}

/// Reads an `i32` from the bytes `lo..hi` of `full`.
fn parse_i32_range(full: &[u8], lo: usize, hi: usize) -> (r: Option<i32>)
    requires
        lo <= hi <= full@.len(),
    ensures
        r == parse_i32(full@.subrange(lo as int, hi as int)),
{
    let ghost b = full@.subrange(lo as int, hi as int);
    let n = hi - lo;
    let signed = n > 0 && (full[lo] == 45 || full[lo] == 43);
    let negative = n > 0 && full[lo] == 45;
    let start: usize = if signed { 1 } else { 0 };
    let ghost d = if signed { b.skip(1) } else { b };
    if start >= n {
        return None;
    }
    let mut acc: i64 = 0;
    let mut k: usize = start;
    let mut overflow = false;
    while k < n
        invariant
            start <= k <= n,
            n == b.len(),
            lo + n == hi,
            hi <= full@.len(),
            b == full@.subrange(lo as int, hi as int),
            signed == (b.len() > 0 && (b[0] == 45 || b[0] == 43)),
            negative == (b.len() > 0 && b[0] == 45),
            start == (if signed { 1usize } else { 0usize }),
            d == (if signed { b.skip(1) } else { b }),
            d == b.skip(start as int),
            forall|i: int| 0 <= i < k - start ==> #[trigger] is_digit(d[i]),
            !overflow ==> acc == digits_value(d.take(k - start)),
            !overflow ==> 0 <= acc <= 0x80000000,
            overflow ==> all_digits(d) ==> digits_value(d) > 0x80000000,
        decreases n - k,
    {
        let c = full[lo + k];
        proof {
            assert(d[k - start] == c);
        }
        if c < 48 || c > 57 {
            proof {
                assert(!is_digit(d[k - start]));
                assert(!all_digits(d));
                assert(d == (if (b.len() > 0 && (b[0] == 45 || b[0] == 43)) { b.skip(1) } else { b }));
                assert(parse_i32(b) is None);
            }
            return None;
        }
        if !overflow {
            proof {
                assert(d.take(k + 1 - start).drop_last() =~= d.take(k - start));
            }
            acc = acc * 10 + (c - 48) as i64;
            if acc > 0x80000000 {
                overflow = true;
                proof {
                    if all_digits(d) {
                        lemma_digits_prefix(d, k + 1 - start);
                    }
                }
            }
        }
        k += 1;
    }
    proof {
        assert(d.take(n - start) =~= d);
    }
    if overflow {
        return None;
    }
    let v: i64 = if negative { -acc } else { acc };
    if v < -0x80000000 || v > 0x7fffffff {
        return None;
    }
    Some(v as i32)
}

fn push_decimal_digits(n: u64, out: &mut Vec<u8>)
    ensures
        final(out)@ == old(out)@ + decimal_digits(n as nat),
    decreases n,
{
    if n >= 10 {
        push_decimal_digits(n / 10, out);
    }
    out.push((48 + n % 10) as u8);
    proof {
        if n >= 10 {
            assert(out@ =~= old(out)@ + decimal_digits(n as nat));
        } else {
            assert(out@ =~= old(out)@ + decimal_digits(n as nat));
        }
    }
}

/// Appends `v` in decimal, the way std writes it.
pub fn push_decimal(v: i32, out: &mut Vec<u8>)
    ensures
        final(out)@ == old(out)@ + decimal(v as int),
{
    if v < 0 {
        out.push(45);
        let m: i64 = -(v as i64);
        push_decimal_digits(m as u64, out);
        proof {
            assert(out@ =~= old(out)@ + decimal(v as int));
        }
    } else {
        push_decimal_digits(v as u64, out);
    }
}

/// Reading the decimal form of an `i32` gives it back.
pub proof fn law_decimal_parse_roundtrip(v: i32)
    ensures
        parse_i32(decimal(v as int)) == Some(v),
        all_digits(decimal(v as int)) || decimal(v as int)[0] == 45,
        forall|i: int| 0 <= i < decimal(v as int).len() ==> #[trigger] decimal(v as int)[i] != 46,
{
    let b = decimal(v as int);
    if v < 0 {
        lemma_decimal_digits((-v) as nat);
        assert(b.skip(1) =~= decimal_digits((-v) as nat));
        assert(b[0] == 45);
        assert(digits_value(b.skip(1)) == -v);
        assert forall|i: int| 0 <= i < b.len() implies #[trigger] b[i] != 46 by {
            if i > 0 {
                assert(b[i] == decimal_digits((-v) as nat)[i - 1]);
                assert(is_digit(decimal_digits((-v) as nat)[i - 1]));
            }
        }
    } else {
        lemma_decimal_digits(v as nat);
        assert(is_digit(b[0]));
        assert forall|i: int| 0 <= i < b.len() implies #[trigger] b[i] != 46 by {
            assert(is_digit(b[i]));
        }
    }
}

/// Where the first `.` in `s` stands, or `s.len()` where there is none.
pub open spec fn dot_from(s: Seq<u8>, k: int) -> int
    decreases s.len() - k,
{
    if k >= s.len() {
        s.len() as int
    } else if s[k] == 46 {
        k
    } else {
        dot_from(s, k + 1)
    }
}

pub open spec fn prefix_bytes() -> Seq<u8> {
    seq![114u8, 46u8]
}

pub open spec fn dotted_extension_bytes() -> Seq<u8> {
    seq![46u8, 122u8, 118u8, 99u8, 114u8, 51u8, 100u8]
}

/// The coordinates that a region file name `r.<x>.<z>.zvcr3d` holds: the first
/// two dot-separated parts between prefix and extension, each an `i32`.
pub open spec fn parse_region_name(b: Seq<u8>) -> Option<(i32, i32)> {
    if !(b.len() >= 2 && b.take(2) == prefix_bytes() && b.len() >= 7 && b.skip(b.len() - 7)
        == dotted_extension_bytes()) {
        None
    } else {
        let id = b.subrange(2, b.len() - 7);
        let p = dot_from(id, 0);
        match parse_i32(id.take(p)) {
            None => None,
            Some(x) => if p >= id.len() {
                None
            } else {
                let rest = id.skip(p + 1);
                match parse_i32(rest.take(dot_from(rest, 0))) {
                    None => None,
                    Some(z) => Some((x, z)),
                }
            },
        }
    }
}

/// The file name of the region at `(rx, rz)`, without its extension.
pub open spec fn region_stem(rx: i32, rz: i32) -> Seq<u8> {
    prefix_bytes() + decimal(rx as int) + seq![46u8] + decimal(rz as int)
}

/// The file name of the region at `(rx, rz)`.
pub open spec fn region_file_name(rx: i32, rz: i32) -> Seq<u8> {
    region_stem(rx, rz) + dotted_extension_bytes()
}

fn find_dot(s: &[u8], lo: usize, hi: usize) -> (r: usize)
    requires
        lo <= hi <= s@.len(),
    ensures
        r == dot_from(s@.subrange(lo as int, hi as int), 0),
        r <= hi - lo,
{
    let ghost t = s@.subrange(lo as int, hi as int);
    let mut k = lo;
    while k < hi && s[k] != 46
        invariant
            lo <= k <= hi,
            hi <= s@.len(),
            t == s@.subrange(lo as int, hi as int),
            dot_from(t, 0) == dot_from(t, k - lo),
        decreases hi - k,
    {
        proof {
            assert(t[k - lo] == s@[k as int]);
        }
        k += 1;
    }
    proof {
        if k < hi {
            assert(t[k - lo] == s@[k as int]);
        }
    }
    k - lo
}

proof fn lemma_dot_from_clean(s: Seq<u8>, k: int)
    requires
        0 <= k <= s.len(),
        forall|i: int| k <= i < s.len() ==> s[i] != 46,
    ensures
        dot_from(s, k) == s.len(),
    decreases s.len() - k,
{
    if k < s.len() {
        lemma_dot_from_clean(s, k + 1);
    }
}

/// `String::from_utf8` on ASCII bytes: the string of those bytes, each taken
/// as its character (ASCII is valid UTF-8, so the call does not fail).
#[verifier::external_body]
fn ascii_string(bytes: Vec<u8>) -> (s: String)
    requires
        forall|i: int| 0 <= i < bytes@.len() ==> #[trigger] bytes@[i] < 128,
    ensures
        s@ == bytes@.map_values(|b: u8| b as char),
{
    match String::from_utf8(bytes) {
        Ok(s) => s,
        Err(_) => String::new(),
    }
}

proof fn lemma_decimal_ascii(v: i32)
    ensures
        forall|i: int| 0 <= i < decimal(v as int).len() ==> #[trigger] decimal(v as int)[i] < 128,
{
    let b = decimal(v as int);
    if v < 0 {
        lemma_decimal_digits((-v) as nat);
        assert forall|i: int| 0 <= i < b.len() implies #[trigger] b[i] < 128 by {
            if i > 0 {
                assert(b[i] == decimal_digits((-v) as nat)[i - 1]);
                assert(is_digit(decimal_digits((-v) as nat)[i - 1]));
            }
        }
    } else {
        lemma_decimal_digits(v as nat);
        assert forall|i: int| 0 <= i < b.len() implies #[trigger] b[i] < 128 by {
            assert(is_digit(b[i]));
        }
    }
}

/// `v` in decimal.
fn decimal_string(v: i32) -> (r: String)
    ensures
        r@ == decimal(v as int).map_values(|b: u8| b as char),
{
    let mut out: Vec<u8> = Vec::new();
    push_decimal(v, &mut out);
    proof {
        lemma_decimal_ascii(v);
        assert(out@ =~= decimal(v as int));
    }
    ascii_string(out)
}

impl RegionLocation {
    fn push_stem(&self, out: &mut Vec<u8>)
        ensures
            final(out)@ == old(out)@ + region_stem(self.rx, self.rz),
    {
        out.push(114);
        out.push(46);
        push_decimal(self.rx, out);
        out.push(46);
        push_decimal(self.rz, out);
        proof {
            assert(out@ =~= old(out)@ + region_stem(self.rx, self.rz));
        }
    }

    /// The names of the directories that hold the region's file, outermost
    /// first: the dimension's, then the sector's x and z coordinates in
    /// decimal.
    pub fn directory_components(&self) -> (r: (&'static str, String, String))
        ensures
            r.0@ == self.dimension_type.spec_name(),
            r.1@ == decimal((self.rx as int) / 32).map_values(|b: u8| b as char),
            r.2@ == decimal((self.rz as int) / 32).map_values(|b: u8| b as char),
    {
        let sx = floor_div_sector(self.rx);
        let sz = floor_div_sector(self.rz);
        (self.dimension_type.name(), decimal_string(sx), decimal_string(sz))
    }

    /// `r.<rx>.<rz>`.
    pub fn file_name_extensionless(&self) -> (r: String)
        ensures
            r@ == region_stem(self.rx, self.rz).map_values(|b: u8| b as char),
    {
        let mut out: Vec<u8> = Vec::new();
        self.push_stem(&mut out);
        proof {
            lemma_decimal_ascii(self.rx);
            lemma_decimal_ascii(self.rz);
            let d = decimal(self.rx as int);
            let e = decimal(self.rz as int);
            assert forall|i: int| 0 <= i < out@.len() implies #[trigger] out@[i] < 128 by {
                if 2 <= i < 2 + d.len() {
                    assert(out@[i] == d[i - 2]);
                } else if i > 2 + d.len() {
                    assert(out@[i] == e[i - 3 - d.len()]);
                }
            }
        }
        ascii_string(out)
    }

    /// `r.<rx>.<rz>.zvcr3d`.
    pub fn file_name(&self) -> (r: String)
        ensures
            r@ == region_file_name(self.rx, self.rz).map_values(|b: u8| b as char),
    {
        let mut out: Vec<u8> = Vec::new();
        self.push_stem(&mut out);
        let ghost stem = out@;
        out.push(46);
        out.push(122);
        out.push(118);
        out.push(99);
        out.push(114);
        out.push(51);
        out.push(100);
        proof {
            assert(out@ =~= region_file_name(self.rx, self.rz));
            lemma_decimal_ascii(self.rx);
            lemma_decimal_ascii(self.rz);
            let d = decimal(self.rx as int);
            let e = decimal(self.rz as int);
            assert forall|i: int| 0 <= i < out@.len() implies #[trigger] out@[i] < 128 by {
                if 2 <= i < 2 + d.len() {
                    assert(out@[i] == d[i - 2]);
                } else if 2 + d.len() < i < stem.len() {
                    assert(out@[i] == e[i - 3 - d.len()]);
                }
            }
        }
        ascii_string(out)
    }

    /// Reads a location from a region file name `r.<x>.<z>.zvcr3d`: `None`
    /// where the prefix or the extension is missing, there is no dot between
    /// the coordinates, or either is not an `i32`. Further dot-separated parts
    /// after the second coordinate are not read.
    pub fn from_file_name(dimension: DimensionType, filename: &str) -> (r: Option<RegionLocation>)
        requires
            filename.spec_bytes() != seq![114u8] + dotted_extension_bytes(),
        ensures
            r == (match parse_region_name(filename.spec_bytes()) {
                Some((x, z)) => Some(RegionLocation { rx: x, rz: z, dimension_type: dimension }),
                None => None,
            }),
    {
        let b = filename.as_bytes();
        let n = b.len();
        if !(n >= 2 && b[0] == 114 && b[1] == 46) || n < 7 || !(b[n - 7] == 46 && b[n - 6] == 122 && b[n - 5]
            == 118 && b[n - 4] == 99 && b[n - 3] == 114 && b[n - 2] == 51 && b[n - 1] == 100) {
            proof {
                if n >= 2 && b@.take(2) == prefix_bytes() {
                    assert(b@[0] == b@.take(2)[0] && b@[1] == b@.take(2)[1]);
                }
                if n >= 7 && b@.skip(n - 7) == dotted_extension_bytes() {
                    assert(b@[n - 7] == b@.skip(n - 7)[0]);
                    assert(b@[n - 6] == b@.skip(n - 7)[1]);
                    assert(b@[n - 5] == b@.skip(n - 7)[2]);
                    assert(b@[n - 4] == b@.skip(n - 7)[3]);
                    assert(b@[n - 3] == b@.skip(n - 7)[4]);
                    assert(b@[n - 2] == b@.skip(n - 7)[5]);
                    assert(b@[n - 1] == b@.skip(n - 7)[6]);
                }
            }
            return None;
        }
        proof {
            assert(b@.take(2) =~= prefix_bytes());
            assert(b@.skip(n - 7) =~= dotted_extension_bytes());
            if n < 9 {
                assert(n == 8);
                assert(b@ =~= seq![114u8] + dotted_extension_bytes());
            }
        }
        let end = n - 7;
        let ghost id = b@.subrange(2, end as int);
        let p = find_dot(b, 2, end);
        let rx = match parse_i32_range(b, 2, 2 + p) {
            Some(x) => x,
            None => {
                proof {
                    assert(b@.subrange(2, 2 + p) =~= id.take(p as int));
                }
                return None;
            },
        };
        proof {
            assert(b@.subrange(2, 2 + p) =~= id.take(p as int));
        }
        if 2 + p >= end {
            return None;
        }
        let lo2 = 2 + p + 1;
        let q = find_dot(b, lo2, end);
        let ghost rest = id.skip(p + 1);
        proof {
            assert(rest =~= b@.subrange(lo2 as int, end as int));
            assert(b@.subrange(lo2 as int, lo2 + q) =~= rest.take(q as int));
        }
        let rz = match parse_i32_range(b, lo2, lo2 + q) {
            Some(z) => z,
            None => return None,
        };
        Some(RegionLocation { rx, rz, dimension_type: dimension })
    }
}

/// Reading the file name of a region gives back its coordinates.
pub proof fn law_file_name_roundtrip(rx: i32, rz: i32)
    ensures
        parse_region_name(region_file_name(rx, rz)) == Some((rx, rz)),
{
    let b = region_file_name(rx, rz);
    let d = decimal(rx as int);
    let e = decimal(rz as int);
    law_decimal_parse_roundtrip(rx);
    law_decimal_parse_roundtrip(rz);
    lemma_decimal_digits(0);
    assert(b.take(2) =~= prefix_bytes());
    assert(b.skip(b.len() - 7) =~= dotted_extension_bytes());
    let id = b.subrange(2, b.len() - 7);
    assert(id =~= d + seq![46u8] + e);
    assert(d.len() >= 1 && e.len() >= 1) by {
        if rx < 0 {
            lemma_decimal_digits((-rx) as nat);
        } else {
            lemma_decimal_digits(rx as nat);
        }
        if rz < 0 {
            lemma_decimal_digits((-rz) as nat);
        } else {
            lemma_decimal_digits(rz as nat);
        }
    }
    lemma_dot_from_clean(d, 0);
    lemma_dot_from_at(id, 0, d.len() as int);
    assert(id.take(d.len() as int) =~= d);
    let rest = id.skip(d.len() + 1 as int);
    assert(rest =~= e);
    lemma_dot_from_clean(e, 0);
    assert(e.take(e.len() as int) =~= e);
}

proof fn lemma_dot_from_at(s: Seq<u8>, k: int, p: int)
    requires
        0 <= k <= p < s.len(),
        s[p] == 46,
        forall|i: int| k <= i < p ==> s[i] != 46,
    ensures
        dot_from(s, k) == p,
    decreases p - k,
{
    if k < p {
        lemma_dot_from_at(s, k + 1, p);
    }
}

} // verus!
