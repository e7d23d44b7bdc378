//! The compact binary wire format: sign and exponent band in a header byte,
//! then the mantissa packed three decimal digits per ten bits.

use vstd::prelude::*;

use crate::digits::all_digits;
use crate::errors::ConversionError;
use crate::sci::sci_zero;
use crate::sci::Scientific;
use crate::sci::LEN_LIMIT;

verus! {

/// The sign lands in the header's top bit; the band stays in the low seven.
proof fn lemma_header_sign(sign: u8, band: u8, header: u8)
    requires
        sign == 0x80 || sign == 0,
        band <= 0x7f,
        header == sign | band,
    ensures
        (header & 0x80 != 0) == (sign == 0x80),
{
    assert(((sign | band) & 0x80 != 0) == (sign == 0x80)) by (bit_vector)
        requires
            (sign == 0x80 || sign == 0) && band <= 0x7f,
    ;
}

/// Masking with the low seven bits stays below `0x80`.
proof fn lemma_low7(x: u8)
    ensures
        x & 0x7f <= 0x7f,
{
    assert(x & 0x7f <= 0x7f) by (bit_vector);
}

/// A small non-negative exponent reads back from its own band bits.
proof fn lemma_wire_small_pos(e8: i8)
    requires
        0 <= e8 <= 59,
    ensures
        ((e8 as u8) & 0x7f) < 0x3c,
        (((e8 as u8) & 0x7f) as i8) == e8,
{
    assert(((e8 as u8) & 0x7f) < 0x3c && (((e8 as u8) & 0x7f) as i8) == e8) by (bit_vector)
        requires 0 <= e8 <= 59;
}

/// A small negative exponent reads back by sign-extending the band bits.
proof fn lemma_wire_small_neg(e8: i8)
    requires
        -64 <= e8 < 0,
    ensures
        ((e8 as u8) & 0x7f) >= 0x40,
        ((((e8 as u8) & 0x7f) | 0x80) as i8) == e8,
{
    assert(((e8 as u8) & 0x7f) >= 0x40 && ((((e8 as u8) & 0x7f) | 0x80) as i8) == e8)
        by (bit_vector)
        requires -64 <= e8 < 0;
}

/// One exponent byte reads back as the same signed value.
proof fn lemma_wire_rt8(x: i8)
    ensures
        ((x as u8) as i8) == x,
{
    assert(((x as u8) as i8) == x) by (bit_vector);
}

/// Two big-endian exponent bytes read back as the same signed value.
proof fn lemma_wire_rt16(x: i16)
    ensures
        (((((((x as u16) >> 8) as u8)) as u16) << 8 | ((((x as u16) as u8)) as u16)) as i16) == x,
{
    assert((((((((x as u16) >> 8) as u8)) as u16) << 8 | ((((x as u16) as u8)) as u16)) as i16)
        == x) by (bit_vector);
}

/// Four big-endian exponent bytes read back as the same signed value.
proof fn lemma_wire_rt32(x: i32)
    ensures
        ((((((x as u32) >> 24) as u8) as u32) << 24 | ((((x as u32) >> 16) as u8) as u32) << 16
            | ((((x as u32) >> 8) as u8) as u32) << 8 | (((x as u32) as u8) as u32)) as i32) == x,
{
    assert(((((((x as u32) >> 24) as u8) as u32) << 24 | ((((x as u32) >> 16) as u8) as u32) << 16
        | ((((x as u32) >> 8) as u8) as u32) << 8 | (((x as u32) as u8) as u32)) as i32) == x)
        by (bit_vector);
}

/// Eight big-endian exponent bytes read back as the same signed value.
proof fn lemma_wire_rt64(x: i64)
    ensures
        ((((((x as u64) >> 56) as u8) as u64) << 56 | ((((x as u64) >> 48) as u8) as u64) << 48
            | ((((x as u64) >> 40) as u8) as u64) << 40 | ((((x as u64) >> 32) as u8) as u64)
            << 32 | ((((x as u64) >> 24) as u8) as u64) << 24 | ((((x as u64) >> 16) as u8)
            as u64) << 16 | ((((x as u64) >> 8) as u8) as u64) << 8 | (((x as u64) as u8)
            as u64)) as i64) == x,
{
    assert(((((((x as u64) >> 56) as u8) as u64) << 56 | ((((x as u64) >> 48) as u8) as u64) << 48
        | ((((x as u64) >> 40) as u8) as u64) << 40 | ((((x as u64) >> 32) as u8) as u64) << 32 | (
    (((x as u64) >> 24) as u8) as u64) << 24 | ((((x as u64) >> 16) as u8) as u64) << 16 | ((((x
        as u64) >> 8) as u8) as u64) << 8 | (((x as u64) as u8) as u64)) as i64) == x)
        by (bit_vector);
}

/// The exponent band a header byte announces, and the exponent the band
/// bytes that follow it denote: the band's own seven bits for small
/// exponents, else one, two, four or eight big-endian bytes.  `None` when the
/// bytes end before the band is complete.
pub open spec fn wire_exponent(bytes: Seq<u8>) -> Option<int> {
    if bytes.len() == 0 {
        None
    } else {
        let pfx = bytes[0] & 0x7f;
        if pfx < 0x3c {
            Some(pfx as int)
        } else if pfx >= 0x40 {
            Some(((pfx | 0x80) as i8) as int)
        } else if pfx == 0x3c {
            if bytes.len() < 2 {
                None
            } else {
                Some((bytes[1] as i8) as int)
            }
        } else if pfx == 0x3d {
            if bytes.len() < 3 {
                None
            } else {
                Some(((((bytes[1] as u16) << 8) | (bytes[2] as u16)) as i16) as int)
            }
        } else if pfx == 0x3e {
            if bytes.len() < 5 {
                None
            } else {
                Some(
                    (((((bytes[1] as u32) << 24) | ((bytes[2] as u32) << 16) | ((bytes[3]
                        as u32) << 8) | (bytes[4] as u32)) as i32) as int),
                )
            }
        } else {
            if bytes.len() < 9 {
                None
            } else {
                Some(
                    (((((bytes[1] as u64) << 56) | ((bytes[2] as u64) << 48) | ((bytes[3]
                        as u64) << 40) | ((bytes[4] as u64) << 32) | ((bytes[5] as u64) << 24) | ((
                    bytes[6] as u64) << 16) | ((bytes[7] as u64) << 8) | (bytes[8] as u64)) as i64)
                        as int),
                )
            }
        }
    }
}

/// How many bytes after the header carry the exponent.
pub open spec fn wire_exponent_len(e: int) -> int {
    if -64 <= e <= 59 {
        0
    } else if -128 <= e <= 127 {
        1
    } else if -32768 <= e <= 32767 {
        2
    } else if -2147483648 <= e <= 2147483647 {
        4
    } else {
        8
    }
}

/// Powers of two, the unit of the packed bit stream.
pub open spec fn p2(k: nat) -> int
    decreases k,
{
    if k == 0 {
        1
    } else {
        2 * p2((k - 1) as nat)
    }
}

/// `k` big-endian base-256 digits of a value below `p2(8 * k)`.
pub open spec fn be_bytes(v: int, k: nat) -> Seq<u8>
    decreases k,
{
    if k == 0 {
        Seq::empty()
    } else {
        be_bytes(v / 256, (k - 1) as nat).push((v % 256) as u8)
    }
}

/// The value a big-endian byte sequence denotes.
pub open spec fn be_val(s: Seq<u8>) -> int
    decreases s.len(),
{
    if s.len() == 0 {
        0
    } else {
        be_val(s.drop_last()) * 256 + s.last()
    }
}

/// The first `g` three-digit groups of the mantissa, one ten-bit slot each.
pub open spec fn trip_val(m: Seq<u8>, g: nat) -> int
    decreases g,
{
    if g == 0 {
        0
    } else {
        let j = 3 * (g - 1) as int;
        trip_val(m, (g - 1) as nat) * 1024 + ((m[j] as int) * 100 + (m[j + 1] as int) * 10 + (
        m[j + 2] as int))
    }
}

/// Complete three-digit groups of the mantissa.
pub open spec fn pack_full(m: Seq<u8>) -> int {
    m.len() as int / 3
}

/// Digits left over after the complete groups.
pub open spec fn pack_left(m: Seq<u8>) -> int {
    m.len() as int % 3
}

/// Bits held back from a byte boundary once the complete groups are written.
pub open spec fn pack_slack(m: Seq<u8>) -> int {
    (10 * pack_full(m)) % 8
}

/// How many bits the tail scheme appends: a padded ten-bit group when
/// nibbles would spill past the next byte boundary, else four per digit.
pub open spec fn pack_tail_bits(m: Seq<u8>) -> int {
    if pack_left(m) == 0 {
        0
    } else if pack_slack(m) + 4 * pack_left(m) > 8 {
        10
    } else {
        4 * pack_left(m)
    }
}

/// The value the tail scheme appends.
pub open spec fn pack_tail_val(m: Seq<u8>) -> int {
    let j = 3 * pack_full(m);
    if pack_left(m) == 0 {
        0
    } else if pack_slack(m) + 4 * pack_left(m) > 8 {
        (m[j] as int) * 100 + (if pack_left(m) == 2 {
            (m[j + 1] as int) * 10
        } else {
            0
        })
    } else if pack_left(m) == 1 {
        m[j] as int
    } else {
        (m[j] as int) * 16 + (m[j + 1] as int)
    }
}

/// Total bits of the packed mantissa before byte padding.
pub open spec fn pack_bits(m: Seq<u8>) -> int {
    10 * pack_full(m) + pack_tail_bits(m)
}

/// The packed mantissa as one big-endian bit-stream value.
pub open spec fn pack_val(m: Seq<u8>) -> int {
    trip_val(m, pack_full(m) as nat) * p2(pack_tail_bits(m) as nat) + pack_tail_val(m)
}

/// Zero bits appended to finish the last byte.
pub open spec fn pack_pad(m: Seq<u8>) -> int {
    (8 - pack_bits(m) % 8) % 8
}

/// The packed mantissa bytes.
pub open spec fn mant_bytes(m: Seq<u8>) -> Seq<u8> {
    be_bytes(pack_val(m) * p2(pack_pad(m) as nat), ((pack_bits(m) + pack_pad(m)) / 8) as nat)
}

/// The seven band bits of the header for an exponent, smallest band first.
pub open spec fn wire_band(e: int) -> u8 {
    if 0 <= e <= 59 {
        e as u8
    } else if -64 <= e < 0 {
        (e + 128) as u8
    } else if -128 <= e <= 127 {
        0x3c
    } else if -32768 <= e <= 32767 {
        0x3d
    } else if -2147483648 <= e <= 2147483647 {
        0x3e
    } else {
        0x3f
    }
}

/// The header byte: sign above the band bits.
pub open spec fn wire_header(n: bool, e: int) -> u8 {
    if n {
        (wire_band(e) as int + 128) as u8
    } else {
        wire_band(e)
    }
}

/// The two's-complement residue an exponent is written as in `k` bytes.
pub open spec fn exp_tc(e: int, k: nat) -> int {
    if e >= 0 {
        e
    } else {
        e + p2(8 * k)
    }
}

/// The exponent bytes after the header, big-endian two's complement.
pub open spec fn exp_bytes(e: int) -> Seq<u8> {
    let k = wire_exponent_len(e);
    if k == 0 {
        Seq::empty()
    } else {
        be_bytes(exp_tc(e, k as nat), k as nat)
    }
}

/// The full encoding of a non-zero number: header, exponent, packed mantissa.
pub open spec fn wire_bytes(n: bool, m: Seq<u8>, e: int) -> Seq<u8> {
    seq![wire_header(n, e)] + exp_bytes(e) + mant_bytes(m)
}

/// The parts a non-zero number may put on the wire: canonical digits and a
/// machine-range exponent.
pub open spec fn wire_parts_ok(n: bool, m: Seq<u8>, e: int) -> bool {
    &&& all_digits(m)
    &&& m.len() >= 1
    &&& m[0] != 0
    &&& m[m.len() - 1] != 0
    &&& isize::MIN as int <= e <= isize::MAX as int
}

/// How many bytes after the header the band byte announces.
pub open spec fn wire_band_len(pfx: u8) -> int {
    if pfx < 0x3c || pfx >= 0x40 {
        0
    } else if pfx == 0x3c {
        1
    } else if pfx == 0x3d {
        2
    } else if pfx == 0x3e {
        4
    } else {
        8
    }
}

/// The `w` bits of a stream of `total` bits starting `off` bits from the top.
pub open spec fn bits_at(v: int, total: int, off: int, w: nat) -> int {
    (v / p2((total - off - w) as nat)) % p2(w)
}

/// The digits of the first `g` ten-bit groups of the stream.
pub open spec fn group_digits(v: int, total: int, g: int) -> Seq<u8>
    decreases g,
{
    if g <= 0 {
        Seq::empty()
    } else {
        let gv = bits_at(v, total, 10 * (g - 1), 10);
        group_digits(v, total, g - 1) + seq![
            (gv / 100) as u8,
            ((gv / 10) % 10) as u8,
            (gv % 10) as u8,
        ]
    }
}

/// Every ten-bit group holds three decimal digits.
pub open spec fn groups_ok(v: int, total: int, g: int) -> bool {
    forall|j: int| 0 <= j < g ==> #[trigger] bits_at(v, total, 10 * j, 10) < 1000
}

/// The digits of `nb` four-bit slots after the groups.
pub open spec fn nib_digits(v: int, total: int, base: int, nb: int) -> Seq<u8>
    decreases nb,
{
    if nb <= 0 {
        Seq::empty()
    } else {
        nib_digits(v, total, base, nb - 1) + seq![bits_at(v, total, base + 4 * (nb - 1), 4) as u8]
    }
}

/// Every four-bit slot holds one decimal digit.
pub open spec fn nibs_ok(v: int, total: int, base: int, nb: int) -> bool {
    forall|j: int| 0 <= j < nb ==> #[trigger] bits_at(v, total, base + 4 * j, 4) < 10
}

/// The digit count once trailing zeros are stripped.
pub open spec fn strip_len(d: Seq<u8>) -> int
    decreases d.len(),
{
    if d.len() == 0 {
        0
    } else if d.last() != 0 {
        d.len() as int
    } else {
        strip_len(d.drop_last())
    }
}

/// The trailing zero digits the packing itself implies, which a decoder
/// observes and must find exactly.
pub open spec fn implied_zeros(len: int) -> int {
    let dig = len % 3;
    let sl = (10 * (len / 3)) % 8;
    if dig == 0 && (sl == 2 || sl == 4) {
        1
    } else if dig == 1 && sl == 0 {
        1
    } else if dig == 1 && sl == 6 {
        2
    } else if dig == 2 && sl == 2 {
        2
    } else if dig == 2 && (sl == 4 || sl == 6) {
        1
    } else {
        0
    }
}

/// Decode the packed mantissa bytes: greedy ten-bit groups, then four-bit
/// digits, then zero padding; reject a non-digit slot, non-zero padding, a
/// leading zero, an all-zero mantissa, or a wrong implied-zero count.
pub open spec fn wire_mantissa(tail: Seq<u8>) -> Option<Seq<u8>> {
    let total = 8 * tail.len() as int;
    let v = be_val(tail);
    let g = total / 10;
    let rem = total % 10;
    let nb = rem / 4;
    if !groups_ok(v, total, g) {
        Option::None
    } else if !nibs_ok(v, total, 10 * g, nb) {
        Option::None
    } else if v % p2((rem - 4 * nb) as nat) != 0 {
        Option::None
    } else {
        let d = group_digits(v, total, g) + nib_digits(v, total, 10 * g, nb);
        let len = strip_len(d);
        if len == 0 {
            Option::None
        } else if d[0] == 0 {
            Option::None
        } else if d.len() - len != implied_zeros(len) {
            Option::None
        } else {
            Option::Some(d.take(len))
        }
    }
}

/// The decoded parts themselves, when a full encoding decodes.
pub open spec fn wire_decode_parts(bytes: Seq<u8>) -> (bool, Seq<u8>, int) {
    match wire_decode(bytes) {
        Option::Some(t) => t,
        Option::None => (false, Seq::empty(), 0),
    }
}

/// Decode a full encoding into sign, mantissa digits and exponent.
pub open spec fn wire_decode(bytes: Seq<u8>) -> Option<(bool, Seq<u8>, int)> {
    if bytes.len() == 0 {
        Option::None
    } else {
        match wire_exponent(bytes) {
            Option::None => Option::None,
            Option::Some(e) => {
                let pos = 1 + wire_band_len(bytes[0] & 0x7f);
                match wire_mantissa(bytes.skip(pos)) {
                    Option::None => Option::None,
                    Option::Some(m) => Option::Some((bytes[0] & 0x80u8 != 0, m, e)),
                }
            },
        }
    }
}

/// Powers of two are positive.
proof fn lemma_p2_pos(k: nat)
    ensures
        p2(k) >= 1,
    decreases k,
{
    if k > 0 {
        lemma_p2_pos((k - 1) as nat);
    }
}

/// Powers of two multiply by adding exponents.
proof fn lemma_p2_adds(a: nat, b: nat)
    ensures
        p2((a + b) as nat) == p2(a) * p2(b),
    decreases a,
{
    if a > 0 {
        lemma_p2_adds((a - 1) as nat, b);
        assert(2 * (p2((a - 1) as nat) * p2(b)) == (2 * p2((a - 1) as nat)) * p2(b))
            by (nonlinear_arith);
    }
}

/// The small powers of two the packing arithmetic touches.
proof fn lemma_p2_vals()
    ensures
        p2(0) == 1,
        p2(1) == 2,
        p2(2) == 4,
        p2(3) == 8,
        p2(4) == 16,
        p2(5) == 32,
        p2(6) == 64,
        p2(7) == 128,
        p2(8) == 256,
        p2(9) == 512,
        p2(10) == 1024,
        p2(11) == 2048,
        p2(12) == 4096,
        p2(13) == 8192,
        p2(14) == 16384,
        p2(15) == 32768,
        p2(16) == 65536,
        p2(24) == 0x100_0000,
        p2(32) == 0x1_0000_0000,
        p2(40) == 0x100_0000_0000,
        p2(48) == 0x1_0000_0000_0000,
        p2(56) == 0x100_0000_0000_0000,
        p2(64) == 0x1_0000_0000_0000_0000,
{
    assert(p2(0) == 1);
    assert(p2(1) == 2);
    assert(p2(2) == 4);
    assert(p2(3) == 8);
    assert(p2(4) == 16);
    assert(p2(5) == 32);
    assert(p2(6) == 64);
    assert(p2(7) == 128);
    assert(p2(8) == 256);
    assert(p2(9) == 512);
    assert(p2(10) == 1024);
    assert(p2(11) == 2048);
    assert(p2(12) == 4096);
    assert(p2(13) == 8192);
    assert(p2(14) == 16384);
    assert(p2(15) == 32768);
    assert(p2(16) == 65536);
    lemma_p2_adds(16, 16);
    lemma_p2_adds(32, 32);
    lemma_p2_adds(16, 8);
    lemma_p2_adds(32, 8);
    lemma_p2_adds(32, 16);
    lemma_p2_adds(48, 8);
    assert(0x1_0000_0000int * 0x1_0000_0000 == 0x1_0000_0000_0000_0000) by (nonlinear_arith);
    assert(65536int * 256 == 0x100_0000) by (nonlinear_arith);
    assert(0x1_0000_0000int * 256 == 0x100_0000_0000) by (nonlinear_arith);
    assert(0x1_0000_0000int * 65536 == 0x1_0000_0000_0000) by (nonlinear_arith);
    assert(0x1_0000_0000_0000int * 256 == 0x100_0000_0000_0000) by (nonlinear_arith);
}

/// Big-endian digit count.
proof fn lemma_be_bytes_len(v: int, k: nat)
    ensures
        be_bytes(v, k).len() == k,
    decreases k,
{
    if k > 0 {
        lemma_be_bytes_len(v / 256, (k - 1) as nat);
    }
}

/// Each big-endian digit reads a byte-aligned slice of the value.
proof fn lemma_be_bytes_index(v: int, k: nat, j: int)
    requires
        0 <= v,
        0 <= j < k,
    ensures
        be_bytes(v, k).len() == k,
        be_bytes(v, k)[j] == ((v / p2((8 * (k - 1 - j)) as nat)) % 256) as u8,
    decreases k,
{
    lemma_be_bytes_len(v, k);
    lemma_be_bytes_len(v / 256, (k - 1) as nat);
    if j == k - 1 {
        assert(p2(0) == 1);
    } else {
        lemma_be_bytes_index(v / 256, (k - 1) as nat, j);
        let t = (8 * (k - 2 - j)) as nat;
        lemma_p2_pos(t);
        vstd::arithmetic::div_mod::lemma_div_denominator(v, 256, p2(t));
        lemma_p2_adds(8, t);
        lemma_p2_vals();
    }
}

/// A big-endian byte sequence denotes a value inside its bit width, and each
/// of its bytes is a byte-aligned slice of that value.
proof fn lemma_be_val_index(s: Seq<u8>)
    ensures
        0 <= be_val(s) < p2((8 * s.len()) as nat),
        forall|j: int|
            0 <= j < s.len() ==> (s[j] as int) == (#[trigger] (be_val(s) / p2(
                (8 * (s.len() - 1 - j)) as nat,
            ))) % 256,
    decreases s.len(),
{
    lemma_p2_vals();
    if s.len() == 0 {
    } else {
        let d = s.drop_last();
        lemma_be_val_index(d);
        let hv = be_val(d);
        let v = be_val(s);
        assert(v == hv * 256 + s.last());
        lemma_p2_adds((8 * d.len()) as nat, 8);
        lemma_p2_pos((8 * d.len()) as nat);
        assert(hv * 256 + s.last() < p2((8 * d.len()) as nat) * 256) by (nonlinear_arith)
            requires
                hv < p2((8 * d.len()) as nat),
                s.last() < 256,
        ;
        assert(v >= 0) by (nonlinear_arith)
            requires
                hv >= 0,
                s.last() >= 0,
                v == hv * 256 + s.last(),
        ;
        vstd::arithmetic::div_mod::lemma_fundamental_div_mod_converse(v, 256, hv, s.last() as int);
        assert forall|j: int| 0 <= j < s.len() implies (s[j] as int) == (#[trigger] (v / p2(
            (8 * (s.len() - 1 - j)) as nat,
        ))) % 256 by {
            if j == s.len() - 1 {
                assert(v / p2(0) == v);
                assert(v % 256 == s.last() as int);
            } else {
                assert(s[j] == d[j]);
                let t = (8 * (d.len() - 1 - j)) as nat;
                lemma_p2_pos(t);
                vstd::arithmetic::div_mod::lemma_div_denominator(v, 256, p2(t));
                lemma_p2_adds(8, t);
                assert(v / 256 == hv);
                assert((s[j] as int) == (hv / p2(t)) % 256);
            }
        }
    }
}

/// Values congruent on the low `k + w` bits agree on the `w`-bit slice that
/// starts `k` bits up.
proof fn lemma_cong_slice(a: int, b: int, k: nat, w: nat)
    requires
        0 <= a,
        0 <= b,
        a % p2((k + w) as nat) == b % p2((k + w) as nat),
    ensures
        (a / p2(k)) % p2(w) == (b / p2(k)) % p2(w),
{
    lemma_p2_pos(k);
    lemma_p2_pos(w);
    lemma_p2_adds(k, w);
    vstd::arithmetic::div_mod::lemma_mod_breakdown(a, p2(k), p2(w));
    vstd::arithmetic::div_mod::lemma_mod_breakdown(b, p2(k), p2(w));
    vstd::arithmetic::div_mod::lemma_mod_mod(a, p2(k), p2(w));
    vstd::arithmetic::div_mod::lemma_mod_mod(b, p2(k), p2(w));
    assert((a / p2(k)) % p2(w) == (b / p2(k)) % p2(w)) by (nonlinear_arith)
        requires
            p2(k) * ((a / p2(k)) % p2(w)) + a % p2(k) == p2(k) * ((b / p2(k)) % p2(w)) + b % p2(
                k,
            ),
            a % p2(k) == b % p2(k),
            p2(k) >= 1,
    ;
}

/// Shifting `w` fresh bits into a stream: the low `k + w` bits are the old
/// low `k` bits above the new ones.
proof fn lemma_shift_in(sv: int, t: int, k: nat, w: nat)
    requires
        0 <= sv,
        0 <= t < p2(w),
    ensures
        (sv * p2(w) + t) % p2((k + w) as nat) == (sv % p2(k)) * p2(w) + t,
        (sv * p2(w) + t) >= 0,
        (sv * p2(w) + t) / p2(w) == sv,
        (sv * p2(w) + t) / p2((k + w) as nat) == sv / p2(k),
{
    lemma_p2_pos(k);
    lemma_p2_pos(w);
    let v = sv * p2(w) + t;
    assert(v >= 0 && v == p2(w) * sv + t) by (nonlinear_arith)
        requires
            sv >= 0,
            t >= 0,
            p2(w) >= 1,
            v == sv * p2(w) + t,
    ;
    vstd::arithmetic::div_mod::lemma_fundamental_div_mod_converse(v, p2(w), sv, t);
    vstd::arithmetic::div_mod::lemma_mod_breakdown(v, p2(w), p2(k));
    lemma_p2_adds(w, k);
    assert(p2((k + w) as nat) == p2(w) * p2(k));
    assert(p2(w) * (sv % p2(k)) == (sv % p2(k)) * p2(w)) by (nonlinear_arith);
    vstd::arithmetic::div_mod::lemma_div_denominator(v, p2(w), p2(k));
    assert(v / p2((k + w) as nat) == sv / p2(k));
}

/// Appending the next lower byte of a stream to its emitted big-endian bytes.
proof fn lemma_emit_byte(sv: int, k: nat, eb: nat, byte: u8)
    requires
        0 <= sv,
        byte as int == (sv / p2(k)) % 256,
    ensures
        be_bytes(sv / p2((k + 8) as nat), eb).push(byte) == be_bytes(sv / p2(k), (eb + 1) as nat),
{
    let v = sv / p2(k);
    lemma_p2_pos(k);
    lemma_p2_vals();
    vstd::arithmetic::div_mod::lemma_div_denominator(sv, p2(k), 256);
    lemma_p2_adds(k, 8);
    assert(v / 256 == sv / p2((k + 8) as nat));
    assert(v >= 0);
    assert(((v % 256) as u8) == byte);
    assert(be_bytes(v, (eb + 1) as nat) == be_bytes(v / 256, eb).push((v % 256) as u8));
}

/// The byte taken `k` bits up the buffer is that slice of its value.
proof fn lemma_flush_byte(x: u16, k: u32)
    requires
        k <= 8,
        k % 2 == 0,
    ensures
        ((x >> k) as u8) as int == ((x as int) / p2(k as nat)) % 256,
{
    lemma_p2_vals();
    assert((k == 0 ==> (x >> k) as u8 == ((x / 1) % 256) as u8) && (k == 2 ==> (x >> k) as u8
        == ((x / 4) % 256) as u8) && (k == 4 ==> (x >> k) as u8 == ((x / 16) % 256) as u8) && (k
        == 6 ==> (x >> k) as u8 == ((x / 64) % 256) as u8) && (k == 8 ==> (x >> k) as u8 == ((x
        / 256) % 256) as u8)) by (bit_vector);
}

/// Shifting a ten-bit group into the buffer, on the low bits.
proof fn lemma_shl_or10(x: u16, t: u16, k: u32)
    requires
        t <= 1023,
        k <= 6,
        k % 2 == 0,
    ensures
        (((x << 10u32) | t) as int) % p2((k + 10) as nat) == ((x as int) % p2(k as nat)) * 1024
            + t,
{
    lemma_p2_vals();
    assert((k == 0 ==> ((x << 10u32) | t) % 1024 == (x % 1) * 1024 + t) && (k == 2 ==> ((x
        << 10u32) | t) % 4096 == (x % 4) * 1024 + t) && (k == 4 ==> ((x << 10u32) | t) % 16384
        == (x % 16) * 1024 + t) && (k == 6 ==> ((x << 10u32) | t) == (x % 64) * 1024 + t))
        by (bit_vector)
        requires t <= 1023,
    ;
    if k == 6 {
        assert(((x << 10u32) | t) as int % 65536 == ((x << 10u32) | t) as int);
    }
}

/// Shifting one four-bit digit into the buffer, on the low bits.
proof fn lemma_shl_or4(x: u16, d: u16, k: u32)
    requires
        d <= 15,
        k <= 4,
        k % 2 == 0,
    ensures
        (((x << 4u32) | d) as int) % p2((k + 4) as nat) == ((x as int) % p2(k as nat)) * 16 + d,
{
    lemma_p2_vals();
    assert((k == 0 ==> ((x << 4u32) | d) % 16 == (x % 1) * 16 + d) && (k == 2 ==> ((x << 4u32)
        | d) % 64 == (x % 4) * 16 + d) && (k == 4 ==> ((x << 4u32) | d) % 256 == (x % 16) * 16
        + d)) by (bit_vector)
        requires d <= 15,
    ;
}

/// Shifting a whole byte into the buffer, on the low bits.
proof fn lemma_shl_or8(x: u16, b: u16, k: u32)
    requires
        b <= 255,
        k <= 8,
        k % 2 == 0,
    ensures
        (((x << 8u32) | b) as int) % p2((k + 8) as nat) == ((x as int) % p2(k as nat)) * 256 + b,
{
    lemma_p2_vals();
    assert((k == 0 ==> ((x << 8u32) | b) % 256 == (x % 1) * 256 + b) && (k == 2 ==> ((x
        << 8u32) | b) % 1024 == (x % 4) * 256 + b) && (k == 4 ==> ((x << 8u32) | b) % 4096 == (
    x % 16) * 256 + b) && (k == 6 ==> ((x << 8u32) | b) % 16384 == (x % 64) * 256 + b) && (k
        == 8 ==> ((x << 8u32) | b) == (x % 256) * 256 + b)) by (bit_vector)
        requires b <= 255,
    ;
    if k == 8 {
        assert(((x << 8u32) | b) as int % 65536 == ((x << 8u32) | b) as int);
    }
}

/// The last partial byte: the low `k` bits shifted to the byte's top.
proof fn lemma_final_byte(x: u16, k: u32)
    requires
        k == 2 || k == 4 || k == 6,
    ensures
        (((x << 8u32) >> k) as u8) as int == ((x as int) % p2(k as nat)) * p2((8 - k) as nat),
{
    lemma_p2_vals();
    assert((k == 2 ==> ((x << 8u32) >> k) as u8 == ((x % 4) * 64) as u8 && (x % 4) * 64 < 256)
        && (k == 4 ==> ((x << 8u32) >> k) as u8 == ((x % 16) * 16) as u8 && (x % 16) * 16
        < 256) && (k == 6 ==> ((x << 8u32) >> k) as u8 == ((x % 64) * 4) as u8 && (x % 64) * 4
        < 256)) by (bit_vector);
}

/// A ten-bit slice read `k` bits up the buffer.
proof fn lemma_extract10(x: u16, k: u32)
    requires
        k <= 6,
        k % 2 == 0,
    ensures
        (((x >> k) & 1023) as int) == ((x as int) / p2(k as nat)) % 1024,
{
    lemma_p2_vals();
    assert((k == 0 ==> (x >> k) & 1023 == (x / 1) % 1024) && (k == 2 ==> (x >> k) & 1023 == (x
        / 4) % 1024) && (k == 4 ==> (x >> k) & 1023 == (x / 16) % 1024) && (k == 6 ==> (x >> k)
        & 1023 == (x / 64) % 1024)) by (bit_vector);
}

/// A four-bit slice read `k` bits up the buffer.
proof fn lemma_extract4(x: u16, k: u32)
    requires
        k <= 4,
        k % 2 == 0,
    ensures
        (((x >> k) & 15) as int) == ((x as int) / p2(k as nat)) % 16,
{
    lemma_p2_vals();
    assert((k == 0 ==> (x >> k) & 15 == (x / 1) % 16) && (k == 2 ==> (x >> k) & 15 == (x / 4)
        % 16) && (k == 4 ==> (x >> k) & 15 == (x / 16) % 16)) by (bit_vector);
}

/// Two leftover bits move to the word's top: zero there means zero bits.
proof fn lemma_pad2(x: u16)
    ensures
        ((x << 14u32) == 0) == ((x as int) % 4 == 0),
{
    assert(((x << 14u32) == 0) == (x % 4 == 0)) by (bit_vector);
}

/// The stripped length is the unique cut below which the last digit is
/// non-zero and above which all digits are zero.
proof fn lemma_strip_len_char(d: Seq<u8>, l: int)
    requires
        0 <= l <= d.len(),
        l == 0 || d[l - 1] != 0,
        forall|j: int| l <= j < d.len() ==> d[j] == 0,
    ensures
        strip_len(d) == l,
    decreases d.len(),
{
    if d.len() == 0 {
    } else if d.last() != 0 {
        assert(l == d.len());
    } else {
        assert(l < d.len());
        let dd = d.drop_last();
        assert(forall|j: int| l <= j < dd.len() ==> dd[j] == d[j]);
        lemma_strip_len_char(dd, l);
    }
}

/// An eight-bit exponent on the wire is its two's-complement residue.
proof fn lemma_tc8(e: i64)
    requires
        -128 <= e <= 127,
    ensures
        ((e as i8) as u8) as int == (if e >= 0 {
            e as int
        } else {
            e as int + 256
        }),
{
    assert(((e as i8) as u8) == (if e >= 0 {
        e as u8
    } else {
        (e + 256) as u8
    }) && (e >= 0 ==> e <= 255) && (e < 0 ==> 0 <= e + 256 <= 255)) by (bit_vector)
        requires -128 <= e <= 127,
    ;
}

/// A sixteen-bit exponent on the wire is its two's-complement residue.
proof fn lemma_tc16(e: i64)
    requires
        -32768 <= e <= 32767,
    ensures
        ((e as i16) as u16) as int == (if e >= 0 {
            e as int
        } else {
            e as int + 65536
        }),
{
    assert(((e as i16) as u16) == (if e >= 0 {
        e as u16
    } else {
        (e + 65536) as u16
    }) && (e >= 0 ==> e <= 65535) && (e < 0 ==> 0 <= e + 65536 <= 65535)) by (bit_vector)
        requires -32768 <= e <= 32767,
    ;
}

/// A thirty-two-bit exponent on the wire is its two's-complement residue.
proof fn lemma_tc32(e: i64)
    requires
        -2147483648 <= e <= 2147483647,
    ensures
        ((e as i32) as u32) as int == (if e >= 0 {
            e as int
        } else {
            e as int + 0x1_0000_0000
        }),
{
    assert(((e as i32) as u32) == (if e >= 0 {
        e as u32
    } else {
        (e + 0x1_0000_0000) as u32
    }) && (e >= 0 ==> e <= 0xffff_ffff) && (e < 0 ==> 0 <= e + 0x1_0000_0000 <= 0xffff_ffff))
        by (bit_vector)
        requires -2147483648 <= e <= 2147483647,
    ;
}

/// A sixty-four-bit exponent on the wire is its two's-complement residue.
proof fn lemma_tc64(e: i64)
    ensures
        (e as u64) as int == (if e >= 0 {
            e as int
        } else {
            e as int + 0x1_0000_0000_0000_0000
        }),
{
    assert((e >= 0 ==> (e as u64) == e as u64) && (e < 0 ==> (e as u64) as i128 == e as i128
        + 0x1_0000_0000_0000_0000)) by (bit_vector);
}

/// The low byte of a sixteen-bit word.
proof fn lemma_low8_16(x: u16)
    ensures
        (x as u8) as int == (x as int) % 256,
{
    assert((x as u8) == (x % 256) as u8 && x % 256 <= 255) by (bit_vector);
}

/// The low byte of a thirty-two-bit word.
proof fn lemma_low8_32(x: u32)
    ensures
        (x as u8) as int == (x as int) % 256,
{
    assert((x as u8) == (x % 256) as u8 && x % 256 <= 255) by (bit_vector);
}

/// The low byte of a sixty-four-bit word.
proof fn lemma_low8_64(x: u64)
    ensures
        (x as u8) as int == (x as int) % 256,
{
    assert((x as u8) == (x % 256) as u8 && x % 256 <= 255) by (bit_vector);
}

/// A byte-aligned slice of a thirty-two-bit word.
proof fn lemma_flush32(x: u32, k: u32)
    requires
        k % 8 == 0,
        k <= 24,
    ensures
        ((x >> k) as u8) as int == ((x as int) / p2(k as nat)) % 256,
{
    lemma_p2_vals();
    assert((k == 0 ==> (x >> k) as u8 == ((x / 1) % 256) as u8) && (k == 8 ==> (x >> k) as u8
        == ((x / 256) % 256) as u8) && (k == 16 ==> (x >> k) as u8 == ((x / 65536) % 256)
        as u8) && (k == 24 ==> (x >> k) as u8 == ((x / 0x100_0000) % 256) as u8))
        by (bit_vector);
}

/// A byte-aligned slice of a sixty-four-bit word.
proof fn lemma_flush64(x: u64, k: u32)
    requires
        k % 8 == 0,
        k <= 56,
    ensures
        ((x >> k) as u8) as int == ((x as int) / p2(k as nat)) % 256,
{
    lemma_p2_vals();
    assert((k == 0 ==> (x >> k) as u8 == ((x / 1) % 256) as u8) && (k == 8 ==> (x >> k) as u8
        == ((x / 256) % 256) as u8) && (k == 16 ==> (x >> k) as u8 == ((x / 65536) % 256)
        as u8) && (k == 24 ==> (x >> k) as u8 == ((x / 0x100_0000) % 256) as u8) && (k
        == 32 ==> (x >> k) as u8 == ((x / 0x1_0000_0000) % 256) as u8) && (k == 40 ==> (x >> k)
        as u8 == ((x / 0x100_0000_0000) % 256) as u8) && (k == 48 ==> (x >> k) as u8 == ((x
        / 0x1_0000_0000_0000) % 256) as u8) && (k == 56 ==> (x >> k) as u8 == ((x
        / 0x100_0000_0000_0000) % 256) as u8)) by (bit_vector);
}

/// The band bits of a small non-negative exponent are the exponent.
proof fn lemma_band_small_pos(e8: i8)
    requires
        0 <= e8 <= 59,
    ensures
        (((e8 as u8) & 0x7f) as int) == e8 as int,
{
    assert(((e8 as u8) & 0x7f) == e8 as u8 && 0 <= e8) by (bit_vector)
        requires 0 <= e8 <= 59,
    ;
}

/// The band bits of a small negative exponent are the exponent plus 128.
proof fn lemma_band_small_neg(e8: i8)
    requires
        -64 <= e8 < 0,
    ensures
        (((e8 as u8) & 0x7f) as int) == e8 as int + 128,
{
    assert(((e8 as u8) & 0x7f) as i16 == e8 as i16 + 128) by (bit_vector)
        requires -64 <= e8 < 0,
    ;
}

/// Setting the sign bit above band bits adds 128.
proof fn lemma_sign_or(band: u8)
    requires
        band <= 0x7f,
    ensures
        ((0x80u8 | band) as int) == band as int + 128,
{
    assert((0x80u8 | band) as u16 == band as u16 + 128) by (bit_vector)
        requires band <= 0x7f,
    ;
}

/// Reading back the big-endian bytes of a value gives the value.
proof fn lemma_be_val_of_bytes(v: int, k: nat)
    requires
        0 <= v < p2((8 * k) as nat),
    ensures
        be_val(be_bytes(v, k)) == v,
    decreases k,
{
    lemma_p2_vals();
    if k == 0 {
    } else {
        let hv = v / 256;
        lemma_p2_adds((8 * (k - 1)) as nat, 8);
        lemma_p2_pos((8 * (k - 1)) as nat);
        assert(hv < p2((8 * (k - 1)) as nat)) by (nonlinear_arith)
            requires
                0 <= v < p2((8 * (k - 1)) as nat) * 256,
                hv == v / 256,
                v == 256 * (v / 256) + v % 256,
                0 <= v % 256 < 256,
        ;
        lemma_be_val_of_bytes(hv, (k - 1) as nat);
        let s = be_bytes(v, k);
        assert(s == be_bytes(hv, (k - 1) as nat).push((v % 256) as u8));
        assert(s.drop_last() =~= be_bytes(hv, (k - 1) as nat));
        assert(s.last() == (v % 256) as u8);
        assert(be_val(s) == hv * 256 + v % 256);
        vstd::arithmetic::div_mod::lemma_fundamental_div_mod(v, 256);
        assert(hv * 256 == 256 * hv) by (nonlinear_arith);
    }
}

/// The complete groups stay inside their bit budget.
proof fn lemma_trip_bound(m: Seq<u8>, f: nat)
    requires
        all_digits(m),
        3 * f <= m.len(),
    ensures
        0 <= trip_val(m, f) < p2((10 * f) as nat),
    decreases f,
{
    lemma_p2_vals();
    if f > 0 {
        lemma_trip_bound(m, (f - 1) as nat);
        lemma_p2_adds((10 * (f - 1)) as nat, 10);
        let j = 3 * (f - 1) as int;
        assert(m[j] <= 9 && m[j + 1] <= 9 && m[j + 2] <= 9);
        let gv = (m[j] as int) * 100 + (m[j + 1] as int) * 10 + (m[j + 2] as int);
        assert(0 <= gv < 1024);
        assert(trip_val(m, (f - 1) as nat) * 1024 + gv < p2((10 * (f - 1)) as nat) * 1024)
            by (nonlinear_arith)
            requires
                trip_val(m, (f - 1) as nat) < p2((10 * (f - 1)) as nat),
                gv < 1024,
        ;
        assert(trip_val(m, f) >= 0) by (nonlinear_arith)
            requires
                trip_val(m, (f - 1) as nat) >= 0,
                gv >= 0,
                trip_val(m, f) == trip_val(m, (f - 1) as nat) * 1024 + gv,
        ;
    }
}

/// Each ten-bit slice of the packed groups is the matching digit triple.
proof fn lemma_trip_extract(m: Seq<u8>, f: nat, j: int)
    requires
        all_digits(m),
        3 * f <= m.len(),
        0 <= j < f,
    ensures
        (trip_val(m, f) / p2((10 * (f - 1 - j)) as nat)) % 1024 == (m[3 * j] as int) * 100 + (m[3
            * j + 1] as int) * 10 + (m[3 * j + 2] as int),
    decreases f,
{
    lemma_p2_vals();
    lemma_trip_bound(m, f);
    lemma_trip_bound(m, (f - 1) as nat);
    let g = trip_val(m, f);
    let prev = trip_val(m, (f - 1) as nat);
    let jl = 3 * (f - 1) as int;
    let last = (m[jl] as int) * 100 + (m[jl + 1] as int) * 10 + (m[jl + 2] as int);
    assert(g == prev * 1024 + last);
    assert(0 <= last < 1024);
    vstd::arithmetic::div_mod::lemma_fundamental_div_mod_converse(g, 1024, prev, last);
    if j == f - 1 {
        assert(g / p2(0) == g);
    } else {
        lemma_trip_extract(m, (f - 1) as nat, j);
        let t = (10 * (f - 2 - j)) as nat;
        lemma_p2_pos(t);
        vstd::arithmetic::div_mod::lemma_div_denominator(g, 1024, p2(t));
        lemma_p2_adds(10, t);
        assert(g / 1024 / p2(t) == g / p2((10 * (f - 1 - j)) as nat));
        assert(g / 1024 == prev);
    }
}

/// A three-digit value splits back into its digits.
proof fn lemma_digits_of_group(a: int, b: int, c: int)
    requires
        0 <= a <= 9,
        0 <= b <= 9,
        0 <= c <= 9,
    ensures
        (a * 100 + b * 10 + c) / 100 == a,
        ((a * 100 + b * 10 + c) / 10) % 10 == b,
        (a * 100 + b * 10 + c) % 10 == c,
{
    let gv = a * 100 + b * 10 + c;
    assert(gv == (a * 10 + b) * 10 + c) by (nonlinear_arith)
        requires gv == a * 100 + b * 10 + c,
    ;
    vstd::arithmetic::div_mod::lemma_fundamental_div_mod_converse(gv, 100, a, b * 10 + c);
    vstd::arithmetic::div_mod::lemma_fundamental_div_mod_converse(gv, 10, a * 10 + b, c);
    vstd::arithmetic::div_mod::lemma_fundamental_div_mod_converse(a * 10 + b, 10, a, b);
}

/// The header and exponent bytes of an encoding read back as the same sign
/// and exponent, and the mantissa bytes follow them.
proof fn lemma_wire_prefix(n: bool, m: Seq<u8>, e: int)
    requires
        isize::MIN as int <= e <= isize::MAX as int,
    ensures
        wire_band(e) <= 0x7f,
        wire_band_len(wire_band(e)) == wire_exponent_len(e),
        wire_bytes(n, m, e).len() == 1 + wire_exponent_len(e) + mant_bytes(m).len(),
        wire_bytes(n, m, e)[0] & 0x7f == wire_band(e),
        (wire_bytes(n, m, e)[0] & 0x80u8 != 0) == n,
        wire_exponent(wire_bytes(n, m, e)) == Some(e),
        wire_bytes(n, m, e).skip(1 + wire_exponent_len(e)) =~= mant_bytes(m),
{
    let w = wire_bytes(n, m, e);
    let band = wire_band(e);
    let k = wire_exponent_len(e);
    let hdr = wire_header(n, e);
    let ei: i64 = e as i64;
    let tc = exp_tc(e, k as nat);
    lemma_p2_vals();
    lemma_be_bytes_len(tc, k as nat);
    assert(w.len() == 1 + k + mant_bytes(m).len());
    assert(w[0] == hdr);
    assert(forall|j: int| 0 <= j < k ==> w[1 + j] == exp_bytes(e)[j]);
    if n {
        lemma_sign_or(band);
        assert(hdr as int == band as int + 128);
        assert(hdr == (0x80u8 | band));
        assert((((0x80u8 | band) & 0x80u8) != 0 && ((0x80u8 | band) & 0x7f) == band))
            by (bit_vector)
            requires band <= 0x7f,
        ;
    } else {
        assert(hdr == band);
        assert(((band & 0x80u8) == 0 && (band & 0x7f) == band)) by (bit_vector)
            requires band <= 0x7f,
        ;
    }
    if -64 <= e <= 59 {
        let e8 = ei as i8;
        if e >= 0 {
            lemma_band_small_pos(e8);
            lemma_wire_small_pos(e8);
            assert(band == ((e8 as u8) & 0x7f));
            assert(band < 0x3c);
            assert((band as i8) as int == e);
        } else {
            lemma_band_small_neg(e8);
            lemma_wire_small_neg(e8);
            assert(band == ((e8 as u8) & 0x7f));
            assert(band >= 0x40);
            assert(((band | 0x80) as i8) as int == e);
        }
        assert(wire_exponent(w) == Some(e));
    } else if -128 <= e <= 127 {
        assert(band == 0x3c && k == 1);
        lemma_tc8(ei);
        lemma_be_bytes_index(tc, 1, 0);
        assert(0 <= tc < 256);
        assert(tc / p2(0) == tc);
        vstd::arithmetic::div_mod::lemma_small_mod(tc as nat, 256);
        assert(w[1] as int == tc);
        assert(w[1] == ((ei as i8) as u8));
        lemma_wire_rt8(ei as i8);
        assert((w[1] as i8) as int == e);
        assert(wire_exponent(w) == Some(e));
    } else if -32768 <= e <= 32767 {
        assert(band == 0x3d && k == 2);
        let v16 = (ei as i16) as u16;
        lemma_tc16(ei);
        assert(v16 as int == tc);
        lemma_flush_byte(v16, 8);
        lemma_low8_16(v16);
        lemma_be_bytes_index(tc, 2, 0);
        lemma_be_bytes_index(tc, 2, 1);
        assert(tc / p2(0) == tc);
        assert(w[1] as int == (tc / p2(8)) % 256);
        assert(w[2] as int == tc % 256);
        assert(w[1] == (v16 >> 8) as u8);
        assert(w[2] == v16 as u8);
        lemma_wire_rt16(ei as i16);
        assert(wire_exponent(w) == Some(e));
    } else if -2147483648 <= e <= 2147483647 {
        assert(band == 0x3e && k == 4);
        let v32 = (ei as i32) as u32;
        lemma_tc32(ei);
        assert(v32 as int == tc);
        lemma_flush32(v32, 24);
        lemma_flush32(v32, 16);
        lemma_flush32(v32, 8);
        lemma_low8_32(v32);
        lemma_be_bytes_index(tc, 4, 0);
        lemma_be_bytes_index(tc, 4, 1);
        lemma_be_bytes_index(tc, 4, 2);
        lemma_be_bytes_index(tc, 4, 3);
        assert(tc / p2(0) == tc);
        assert(w[1] == (v32 >> 24) as u8);
        assert(w[2] == (v32 >> 16) as u8);
        assert(w[3] == (v32 >> 8) as u8);
        assert(w[4] == v32 as u8);
        lemma_wire_rt32(ei as i32);
        assert(wire_exponent(w) == Some(e));
    } else {
        assert(band == 0x3f && k == 8);
        let v64 = ei as u64;
        lemma_tc64(ei);
        assert(v64 as int == tc);
        lemma_flush64(v64, 56);
        lemma_flush64(v64, 48);
        lemma_flush64(v64, 40);
        lemma_flush64(v64, 32);
        lemma_flush64(v64, 24);
        lemma_flush64(v64, 16);
        lemma_flush64(v64, 8);
        lemma_low8_64(v64);
        lemma_be_bytes_index(tc, 8, 0);
        lemma_be_bytes_index(tc, 8, 1);
        lemma_be_bytes_index(tc, 8, 2);
        lemma_be_bytes_index(tc, 8, 3);
        lemma_be_bytes_index(tc, 8, 4);
        lemma_be_bytes_index(tc, 8, 5);
        lemma_be_bytes_index(tc, 8, 6);
        lemma_be_bytes_index(tc, 8, 7);
        assert(tc / p2(0) == tc);
        assert(w[1] == (v64 >> 56) as u8);
        assert(w[2] == (v64 >> 48) as u8);
        assert(w[3] == (v64 >> 40) as u8);
        assert(w[4] == (v64 >> 32) as u8);
        assert(w[5] == (v64 >> 24) as u8);
        assert(w[6] == (v64 >> 16) as u8);
        assert(w[7] == (v64 >> 8) as u8);
        assert(w[8] == v64 as u8);
        lemma_wire_rt64(ei);
        assert(wire_exponent(w) == Some(e));
    }
}

/// A value shifted up by `u` bits divides back down exactly.
proof fn lemma_mul_shift_div(x: int, u: nat, w: nat)
    requires
        0 <= x,
    ensures
        x * p2(u) >= 0,
        (x * p2(u)) / p2(u) == x,
        (x * p2(u)) % p2(u) == 0,
        (x * p2(u)) / p2((u + w) as nat) == x / p2(w),
{
    lemma_p2_pos(u);
    lemma_p2_pos(w);
    let v = x * p2(u);
    assert(v == p2(u) * x + 0 && v >= 0) by (nonlinear_arith)
        requires
            v == x * p2(u),
            x >= 0,
            p2(u) >= 1,
    ;
    vstd::arithmetic::div_mod::lemma_fundamental_div_mod_converse(v, p2(u), x, 0);
    vstd::arithmetic::div_mod::lemma_div_denominator(v, p2(u), p2(w));
    lemma_p2_adds(u, w);
}

/// The `w`-bit slice `q` bits up a layered value is its middle layer.
proof fn lemma_slice_of3(a: int, b: int, c: int, q: nat, w: nat)
    requires
        0 <= a,
        0 <= b < p2(w),
        0 <= c < p2(q),
    ensures
        a * p2((q + w) as nat) + b * p2(q) + c >= 0,
        (a * p2((q + w) as nat) + b * p2(q) + c) / p2(q) == a * p2(w) + b,
        ((a * p2((q + w) as nat) + b * p2(q) + c) / p2(q)) % p2(w) == b,
{
    lemma_p2_pos(q);
    lemma_p2_pos(w);
    lemma_p2_adds(q, w);
    let v = a * p2((q + w) as nat) + b * p2(q) + c;
    assert(v == p2(q) * (a * p2(w) + b) + c && a * p2(w) + b >= 0 && v >= 0) by (nonlinear_arith)
        requires
            p2((q + w) as nat) == p2(q) * p2(w),
            v == a * p2((q + w) as nat) + b * p2(q) + c,
            a >= 0,
            b >= 0,
            c >= 0,
            p2(q) >= 1,
            p2(w) >= 1,
    ;
    vstd::arithmetic::div_mod::lemma_fundamental_div_mod_converse(v, p2(q), a * p2(w) + b, c);
    vstd::arithmetic::div_mod::lemma_mod_multiples_vanish(a, b, p2(w));
    vstd::arithmetic::div_mod::lemma_small_mod(b as nat, p2(w) as nat);
    assert(p2(w) * a == a * p2(w)) by (nonlinear_arith);
}

/// Groups that each read back their digit triple decode to the digit prefix.
proof fn lemma_group_digits_take(v: int, total: int, m: Seq<u8>, f: int)
    requires
        all_digits(m),
        0 <= 3 * f <= m.len(),
        forall|j: int|
            0 <= j < f ==> #[trigger] bits_at(v, total, 10 * j, 10) == (m[3 * j] as int) * 100 + (
            m[3 * j + 1] as int) * 10 + (m[3 * j + 2] as int),
    ensures
        group_digits(v, total, f) == m.take(3 * f),
    decreases f,
{
    if f <= 0 {
        assert(group_digits(v, total, f) =~= m.take(3 * f));
    } else {
        lemma_group_digits_take(v, total, m, f - 1);
        let j = f - 1;
        let gv = bits_at(v, total, 10 * j, 10);
        lemma_digits_of_group(m[3 * j] as int, m[3 * j + 1] as int, m[3 * j + 2] as int);
        assert(group_digits(v, total, f) == group_digits(v, total, f - 1) + seq![
            (gv / 100) as u8,
            ((gv / 10) % 10) as u8,
            (gv % 10) as u8,
        ]);
        assert((gv / 100) as u8 == m[3 * j]);
        assert(((gv / 10) % 10) as u8 == m[3 * j + 1]);
        assert((gv % 10) as u8 == m[3 * j + 2]);
        assert(group_digits(v, total, f) =~= m.take(3 * f));
    }
}

/// The packed mantissa bytes decode back to the digits that made them.
#[verifier::rlimit(100)]
#[verifier::spinoff_prover]
proof fn lemma_wire_mantissa_rt(m: Seq<u8>)
    requires
        all_digits(m),
        m.len() >= 1,
        m[0] != 0,
        m[m.len() - 1] != 0,
    ensures
        wire_mantissa(mant_bytes(m)) == Some(m),
{
    lemma_p2_vals();
    let f = pack_full(m);
    let left = pack_left(m);
    vstd::arithmetic::div_mod::lemma_fundamental_div_mod(m.len() as int, 3);
    assert(m.len() == 3 * f + left && 0 <= left < 3);
    let slack = pack_slack(m);
    vstd::arithmetic::div_mod::lemma_fundamental_div_mod(10 * f, 8);
    let qq = (10 * f) / 8;
    assert(10 * f == 8 * qq + slack && 0 <= slack < 8);
    assert(slack == 2 * (5 * f - 4 * qq));
    assert(slack == 0 || slack == 2 || slack == 4 || slack == 6);
    let tb = pack_tail_bits(m);
    let tv = pack_tail_val(m);
    let trip = trip_val(m, f as nat);
    lemma_trip_bound(m, f as nat);
    let bits = pack_bits(m);
    let pv = pack_val(m);
    // the tail value fits its bit budget
    assert(0 <= tv < p2(tb as nat)) by {
        if left == 0 {
        } else if slack + 4 * left > 8 {
            assert(tb == 10);
            assert(m[3 * f] <= 9 && (left == 2 ==> m[3 * f + 1] <= 9));
        } else if left == 1 {
            assert(tb == 4);
            assert(m[3 * f] <= 9);
        } else {
            assert(tb == 8);
            assert(m[3 * f] <= 9 && m[3 * f + 1] <= 9);
        }
    }
    lemma_p2_adds((10 * f) as nat, tb as nat);
    assert(0 <= pv < p2(bits as nat)) by (nonlinear_arith)
        requires
            0 <= trip < p2((10 * f) as nat),
            0 <= tv < p2(tb as nat),
            pv == trip * p2(tb as nat) + tv,
            p2(bits as nat) == p2((10 * f) as nat) * p2(tb as nat),
    ;
    // the byte padding
    let r8 = (slack + tb) % 8;
    vstd::arithmetic::div_mod::lemma_mod_multiples_vanish(qq, slack + tb, 8);
    assert(bits == 8 * qq + (slack + tb));
    assert(bits % 8 == r8);
    let pad = pack_pad(m);
    assert(pad == (8 - r8) % 8);
    assert(r8 == 0 || r8 == 2 || r8 == 4 || r8 == 6) by {
        assert(tb == 0 || tb == 4 || tb == 8 || tb == 10);
    }
    assert(pad == (if r8 == 0 {
        0int
    } else {
        8 - r8
    }));
    assert((bits + pad) % 8 == 0);
    let bb = (bits + pad) / 8;
    let v = pv * p2(pad as nat);
    lemma_mul_shift_div(pv, pad as nat, 0);
    lemma_p2_adds(bits as nat, pad as nat);
    assert(0 <= v < p2((bits + pad) as nat)) by (nonlinear_arith)
        requires
            0 <= pv < p2(bits as nat),
            v == pv * p2(pad as nat),
            p2((bits + pad) as nat) == p2(bits as nat) * p2(pad as nat),
            p2(pad as nat) >= 1,
    ;
    assert(8 * bb == bits + pad);
    lemma_be_val_of_bytes(v, bb as nat);
    lemma_be_bytes_len(v, bb as nat);
    let tail = mant_bytes(m);
    assert(tail == be_bytes(v, bb as nat));
    assert(be_val(tail) == v);
    let total = 8 * tail.len() as int;
    assert(total == bits + pad);
    // the group stream and what lies under it
    let gs: int = if tb == 10 {
        pv
    } else {
        trip
    };
    let gcount: int = if tb == 10 {
        f + 1
    } else {
        f
    };
    let u = total - 10 * gcount;
    let low: int = if tb == 4 || tb == 8 {
        tv * p2(pad as nat)
    } else {
        0
    };
    lemma_p2_pos(pad as nat);
    lemma_p2_pos(u as nat);
    assert(0 <= u <= 9) by {
        assert(tb == 0 || tb == 4 || tb == 8 || tb == 10);
    }
    assert(v == gs * p2(u as nat) + low && 0 <= low < p2(u as nat)) by {
        if tb == 10 {
            assert(u == pad && low == 0);
        } else if tb == 0 {
            assert(pv == trip * 1 + 0);
            assert(u == pad && low == 0);
        } else {
            assert(u == tb + pad);
            lemma_p2_adds(tb as nat, pad as nat);
            assert((trip * p2(tb as nat) + tv) * p2(pad as nat) == trip * (p2(tb as nat) * p2(
                pad as nat,
            )) + tv * p2(pad as nat)) by (nonlinear_arith);
            assert(tv * p2(pad as nat) < p2(tb as nat) * p2(pad as nat) && 0 <= tv * p2(
                pad as nat,
            )) by (nonlinear_arith)
                requires
                    0 <= tv < p2(tb as nat),
                    p2(pad as nat) >= 1,
            ;
        }
    }
    assert(gs >= 0);
    assert(v / p2(u as nat) == gs) by {
        assert(v == p2(u as nat) * gs + low) by (nonlinear_arith)
            requires v == gs * p2(u as nat) + low,
        ;
        vstd::arithmetic::div_mod::lemma_fundamental_div_mod_converse(v, p2(u as nat), gs, low);
    }
    // each ten-bit group is its digit triple
    assert forall|j: int| 0 <= j < f implies #[trigger] bits_at(v, total, 10 * j, 10) == (m[3
        * j] as int) * 100 + (m[3 * j + 1] as int) * 10 + (m[3 * j + 2] as int) by {
        let w1 = (10 * (gcount - 1 - j)) as nat;
        lemma_p2_pos(w1);
        vstd::arithmetic::div_mod::lemma_div_denominator(v, p2(u as nat), p2(w1));
        lemma_p2_adds(u as nat, w1);
        assert((total - 10 * j - 10) as nat == u as nat + w1);
        assert(bits_at(v, total, 10 * j, 10) == (gs / p2(w1)) % 1024);
        if tb == 10 {
            assert(pv == trip * 1024 + tv);
            assert(pv == 1024 * trip + tv) by (nonlinear_arith)
                requires pv == trip * 1024 + tv,
            ;
            vstd::arithmetic::div_mod::lemma_fundamental_div_mod_converse(pv, 1024, trip, tv);
            let w2 = (10 * (f - 1 - j)) as nat;
            lemma_p2_pos(w2);
            vstd::arithmetic::div_mod::lemma_div_denominator(pv, 1024, p2(w2));
            lemma_p2_adds(10, w2);
            assert(w1 == (10 + w2) as nat);
            assert(gs / p2(w1) == trip / p2(w2));
            lemma_trip_extract(m, f as nat, j);
        } else {
            lemma_trip_extract(m, f as nat, j);
        }
    }
    let d1 = group_digits(v, total, gcount);
    if tb == 10 {
        assert(bits_at(v, total, 10 * f, 10) == tv) by {
            assert((total - 10 * f - 10) as nat == u as nat);
            assert(pv == 1024 * trip + tv) by (nonlinear_arith)
                requires pv == trip * 1024 + tv,
            ;
            vstd::arithmetic::div_mod::lemma_fundamental_div_mod_converse(pv, 1024, trip, tv);
            assert(bits_at(v, total, 10 * f, 10) == gs % 1024);
        }
        lemma_group_digits_take(v, total, m, f);
        let a = m[3 * f] as int;
        let b: int = if left == 2 {
            m[3 * f + 1] as int
        } else {
            0
        };
        lemma_digits_of_group(a, b, 0);
        assert(tv == a * 100 + b * 10 + 0);
        assert(d1 == group_digits(v, total, f) + seq![
            (tv / 100) as u8,
            ((tv / 10) % 10) as u8,
            (tv % 10) as u8,
        ]);
        assert(d1 =~= m.take(3 * f) + seq![a as u8, b as u8, 0u8]);
    } else {
        lemma_group_digits_take(v, total, m, f);
        assert(d1 == m.take(3 * f));
    }
    // groups are in range for the decoder
    assert(groups_ok(v, total, gcount)) by {
        assert forall|j: int| 0 <= j < gcount implies #[trigger] bits_at(v, total, 10 * j, 10)
            < 1000 by {
            if j < f {
                assert(m[3 * j] <= 9 && m[3 * j + 1] <= 9 && m[3 * j + 2] <= 9);
            } else {
                assert(tb == 10);
                assert(bits_at(v, total, 10 * f, 10) == tv);
                assert(tv < 1000);
            }
        }
    }
    assert(gcount == total / 10 && u == total % 10) by {
        vstd::arithmetic::div_mod::lemma_fundamental_div_mod_converse(total, 10, gcount, u);
    }
    let nb = u / 4;
    let leftover = u % 4;
    vstd::arithmetic::div_mod::lemma_fundamental_div_mod(u, 4);
    assert(u == 4 * nb + leftover);
    assert(u == 0 || u == 2 || u == 4 || u == 6 || u == 8) by {
        assert(tb == 0 || tb == 4 || tb == 8 || tb == 10);
        assert(pad == 0 || pad == 2 || pad == 4 || pad == 6);
    }
    assert(leftover == 0 || leftover == 2);
    assert(nb == u / 4 && nb == (total % 10) / 4);
    // the four-bit slots after the groups
    let base = 10 * gcount;
    if tb == 8 {
        let a = m[3 * f] as int;
        let b = m[3 * f + 1] as int;
        assert(pad == 0 && u == 8 && nb == 2 && leftover == 0);
        assert(tv == a * 16 + b);
        assert(bits_at(v, total, base, 4) == a) by {
            assert(v == trip * p2((4 + 4) as nat) + a * p2(4) + b) by (nonlinear_arith)
                requires
                    v == pv * p2(0),
                    pv == trip * p2(8) + tv,
                    tv == a * 16 + b,
                    p2(0) == 1,
                    p2(8) == 256,
                    p2(4) == 16,
            ;
            assert(0 <= b < p2(4) && 0 <= a < p2(4));
            lemma_slice_of3(trip, a, b, 4, 4);
            assert((total - base - 4) as nat == (4) as nat);
        }
        assert(bits_at(v, total, base + 4, 4) == b) by {
            assert(v == (trip * 16 + a) * p2((0 + 4) as nat) + b * p2(0) + 0) by (nonlinear_arith)
                requires
                    v == pv * p2(0),
                    pv == trip * p2(8) + tv,
                    tv == a * 16 + b,
                    p2(0) == 1,
                    p2(8) == 256,
                    p2(4) == 16,
            ;
            assert(trip * 16 + a >= 0) by (nonlinear_arith)
                requires trip >= 0 && a >= 0,
            ;
            lemma_slice_of3(trip * 16 + a, b, 0, 0, 4);
            assert((total - (base + 4) - 4) as nat == (0) as nat);
        }
    } else if tb == 4 {
        let a = m[3 * f] as int;
        assert(tv == a);
        assert(u == 4 + pad);
        assert(bits_at(v, total, base, 4) == a) by {
            lemma_p2_adds(4, pad as nat);
            assert(v == trip * p2((pad as nat + 4) as nat) + a * p2(pad as nat) + 0)
                by (nonlinear_arith)
                requires
                    v == pv * p2(pad as nat),
                    pv == trip * p2(4) + tv,
                    tv == a,
                    p2((4 + pad as nat) as nat) == p2(4) * p2(pad as nat),
            ;
            assert(0 <= a < p2(4));
            lemma_p2_pos(pad as nat);
            lemma_slice_of3(trip, a, 0, pad as nat, 4);
            assert((total - base - 4) as nat == pad as nat);
        }
        if nb == 2 {
            assert(pad == 4 && u == 8 && leftover == 0);
            assert(bits_at(v, total, base + 4, 4) == 0) by {
                assert(v == (trip * 16 + a) * p2((0 + 4) as nat) + 0 * p2(0) + 0)
                    by (nonlinear_arith)
                    requires
                        v == pv * p2(4),
                        pv == trip * p2(4) + tv,
                        tv == a,
                        p2(4) == 16,
                        p2(0) == 1,
                ;
                assert(trip * 16 + a >= 0) by (nonlinear_arith)
                    requires trip >= 0 && a >= 0,
                ;
                lemma_slice_of3(trip * 16 + a, 0, 0, 0, 4);
                assert((total - (base + 4) - 4) as nat == (0) as nat);
            }
        }
    } else {
        assert(low == 0 && u == pad);
        if nb == 1 {
            assert(pad == 4 || pad == 6);
            assert(bits_at(v, total, base, 4) == 0) by {
                lemma_p2_adds((pad - 4) as nat, 4);
                assert(((pad - 4) as nat + 4) as nat == pad as nat);
                assert(0 * p2((pad - 4) as nat) == 0) by (nonlinear_arith);
                assert(v == gs * p2(((pad - 4) as nat + 4) as nat) + 0 * p2((pad - 4) as nat)
                    + 0);
                lemma_p2_pos((pad - 4) as nat);
                lemma_slice_of3(gs, 0, 0, (pad - 4) as nat, 4);
                assert((total - base - 4) as nat == (pad - 4) as nat);
            }
        }
    }
    assert(nibs_ok(v, total, base, nb)) by {
        assert forall|j: int| 0 <= j < nb implies #[trigger] bits_at(v, total, base + 4 * j, 4)
            < 10 by {
            if tb == 8 || tb == 4 {
                assert(m[3 * f] <= 9 && (3 * f + 1 < m.len() ==> m[3 * f + 1] <= 9));
            }
        }
    }
    let nd = nib_digits(v, total, base, nb);
    assert(nb == 0 ==> nd =~= Seq::<u8>::empty());
    if nb == 1 {
        assert(nib_digits(v, total, base, 0) =~= Seq::<u8>::empty());
        assert(nd =~= seq![bits_at(v, total, base, 4) as u8]);
    }
    if nb == 2 {
        assert(nib_digits(v, total, base, 0) =~= Seq::<u8>::empty());
        assert(nib_digits(v, total, base, 1) =~= seq![bits_at(v, total, base, 4) as u8]);
        assert(nd =~= seq![
            bits_at(v, total, base, 4) as u8,
            bits_at(v, total, base + 4, 4) as u8,
        ]);
    }
    // the padding below the slots is zero
    assert(v % p2(leftover as nat) == 0) by {
        if leftover == 2 {
            assert(pad >= 2);
            lemma_p2_adds((pad - 2) as nat, 2);
            assert(v == (pv * p2((pad - 2) as nat)) * p2(2)) by (nonlinear_arith)
                requires
                    v == pv * p2(pad as nat),
                    p2(pad as nat) == p2((pad - 2) as nat) * p2(2),
            ;
            assert(pv * p2((pad - 2) as nat) >= 0) by (nonlinear_arith)
                requires
                    pv >= 0,
                    p2((pad - 2) as nat) >= 1,
            ;
            lemma_mul_shift_div(pv * p2((pad - 2) as nat), 2, 0);
        } else {
            assert(p2(0) == 1);
        }
    }
    // the decoded digits are the mantissa with the implied zeros behind it
    let d = d1 + nd;
    let z = d.len() as int - m.len() as int;
    assert(d =~= m + d.skip(m.len() as int)) by {
        if tb == 10 {
            assert(m.take(3 * f).push(m[3 * f]) =~= m.take(3 * f + 1));
            if left == 1 {
                assert(m.take(3 * f + 1) =~= m);
            } else {
                assert(m.take(3 * f).push(m[3 * f]).push(m[3 * f + 1]) =~= m);
            }
        } else if tb == 4 {
            assert(m.take(3 * f).push(m[3 * f]) =~= m);
        } else if tb == 8 {
            assert(m.take(3 * f).push(m[3 * f]).push(m[3 * f + 1]) =~= m);
        } else {
            assert(m.take(3 * f) =~= m);
        }
    }
    assert(forall|j: int| m.len() <= j < d.len() ==> d[j] == 0);
    assert(d[m.len() - 1] == m[m.len() - 1]);
    assert(d[0] == m[0]);
    lemma_strip_len_char(d, m.len() as int);
    assert(strip_len(d) == m.len() as int);
    // the implied-zero count matches the table
    vstd::arithmetic::div_mod::lemma_fundamental_div_mod_converse(
        m.len() as int,
        3,
        f,
        left,
    );
    assert(m.len() as int % 3 == left && m.len() as int / 3 == f);
    assert(z == implied_zeros(m.len() as int));
    assert(d.take(m.len() as int) =~= m);
    assert(wire_mantissa(tail) == Some(m));
}

/// Law: an encoding decodes back to exactly the sign, digits and exponent
/// that made it, so decoding after encoding returns the original number.
pub proof fn lemma_wire_round_trip(n: bool, m: Seq<u8>, e: int)
    requires
        wire_parts_ok(n, m, e),
    ensures
        wire_decode(wire_bytes(n, m, e)) == Some((n, m, e)),
{
    lemma_wire_prefix(n, m, e);
    lemma_wire_mantissa_rt(m);
    let w = wire_bytes(n, m, e);
    assert(w.len() > 0);
    assert(wire_exponent(w) == Some(e));
    assert(w[0] & 0x7f == wire_band(e));
    assert(1 + wire_band_len(w[0] & 0x7f) == 1 + wire_exponent_len(e));
    assert(w.skip(1 + wire_exponent_len(e)) == mant_bytes(m));
    assert(wire_mantissa(w.skip(1 + wire_band_len(w[0] & 0x7f))) == Some(m));
    assert((w[0] & 0x80u8 != 0) == n);
}

impl Scientific {
    /// Append the packed mantissa bytes: three digits into ten bits, the
    /// tail scheme, then zero padding to the byte boundary.
    #[verifier::rlimit(100)]
    #[verifier::spinoff_prover]
    fn pack_mantissa(out: &mut Vec<u8>, mantissa: &Vec<u8>)
        requires
            all_digits(mantissa@),
            mantissa@.len() < 0x4000_0000,
        ensures
            final(out)@ == old(out)@ + mant_bytes(mantissa@),
    {
        let n = mantissa.len();
        let mut p: usize = 0;
        let mut buf: u16 = 0;
        let mut buf_len: u32 = 0;
        let ghost m = mantissa@;
        let ghost pre = out@;
        let ghost prelen = out@.len();
        let ghost mut sv: int = 0;
        let ghost mut bits: int = 0;
        let ghost mut emitted: int = 0;
        proof {
            assert(be_bytes(0, 0) =~= Seq::<u8>::empty());
            assert(out@ =~= pre + be_bytes(sv / p2(0), 0));
        }
        while p + 3 <= n
            invariant
                p <= n,
                p % 3 == 0,
                n == m.len(),
                n < 0x4000_0000,
                all_digits(m),
                m == mantissa@,
                buf_len <= 6,
                buf_len % 2 == 0,
                sv == trip_val(m, (p / 3) as nat),
                0 <= sv,
                sv < p2(bits as nat),
                bits == 10 * ((p / 3) as int),
                bits == 8 * emitted + buf_len,
                emitted >= 0,
                (buf as int) % p2(buf_len as nat) == sv % p2(buf_len as nat),
                out@ == pre + be_bytes(sv / p2(buf_len as nat), emitted as nat),
                out@.subrange(0, prelen as int) == pre,
                prelen == pre.len(),
            decreases n - p,
        {
            let a = mantissa[p];
            let b = mantissa[p + 1];
            let c = mantissa[p + 2];
            proof {
                assert(a <= 9 && b <= 9 && c <= 9);
            }
            let t: u16 = (a as u16) * 100 + (b as u16) * 10 + (c as u16);
            let nbuf: u16 = (buf << 10) | t;
            proof {
                lemma_p2_vals();
                lemma_shl_or10(buf, t, buf_len);
                lemma_shift_in(sv, t as int, buf_len as nat, 10);
                lemma_p2_adds(bits as nat, 10);
                assert(sv * 1024 + t < p2(bits as nat) * 1024) by (nonlinear_arith)
                    requires
                        sv < p2(bits as nat),
                        t < 1024,
                ;
                let g1 = ((p + 3) / 3) as nat;
                assert(g1 == (p / 3) as nat + 1);
                assert(trip_val(m, g1) == trip_val(m, (g1 - 1) as nat) * 1024 + ((m[3 * (g1
                    - 1) as int] as int) * 100 + (m[3 * (g1 - 1) as int + 1] as int) * 10 + (m[3
                    * (g1 - 1) as int + 2] as int)));
                assert(3 * (g1 - 1) as int == p as int);
                assert((sv * 1024 + t) / p2((buf_len as nat + 10) as nat) == sv / p2(
                    buf_len as nat,
                ));
                sv = sv * 1024 + t as int;
                bits = bits + 10;
                assert(sv == trip_val(m, g1));
                assert((nbuf as int) % p2((buf_len + 10) as nat) == sv % p2(
                    (buf_len + 10) as nat,
                ));
            }
            buf = nbuf;
            buf_len = buf_len + 10;
            while buf_len >= 8
                invariant
                    buf_len <= 16,
                    buf_len % 2 == 0,
                    0 <= sv,
                    sv < p2(bits as nat),
                    bits == 8 * emitted + buf_len,
                    emitted >= 0,
                    (buf as int) % p2(buf_len as nat) == sv % p2(buf_len as nat),
                    out@ == pre + be_bytes(sv / p2(buf_len as nat), emitted as nat),
                    out@.subrange(0, prelen as int) == pre,
                    prelen == pre.len(),
                decreases buf_len,
            {
                buf_len = buf_len - 8;
                let byte = (buf >> buf_len) as u8;
                proof {
                    let kk = buf_len as nat;
                    lemma_p2_pos(kk);
                    lemma_p2_adds(kk, 8);
                    lemma_p2_vals();
                    lemma_flush_byte(buf, buf_len);
                    lemma_cong_slice(buf as int, sv, kk, 8);
                    assert(byte as int == (sv / p2(kk)) % 256);
                    lemma_emit_byte(sv, kk, emitted as nat, byte);
                    vstd::arithmetic::div_mod::lemma_mod_mod(buf as int, p2(kk), p2(8));
                    vstd::arithmetic::div_mod::lemma_mod_mod(sv, p2(kk), p2(8));
                }
                let ghost before = out@;
                out.push(byte);
                proof {
                    emitted = emitted + 1;
                    assert(out@ =~= pre + be_bytes(sv / p2(buf_len as nat), emitted as nat));
                    assert(out@.subrange(0, prelen as int) =~= before.subrange(
                        0,
                        prelen as int,
                    ));
                }
            }
            p = p + 3;
        }
        let left = n - p;
        proof {
            vstd::arithmetic::div_mod::lemma_fundamental_div_mod_converse(
                n as int,
                3,
                (p / 3) as int,
                n as int - p as int,
            );
            assert(p as int == 3 * pack_full(m));
            assert(left as int == pack_left(m));
            assert(bits == 10 * pack_full(m));
            vstd::arithmetic::div_mod::lemma_fundamental_div_mod_converse(
                bits,
                8,
                emitted,
                buf_len as int,
            );
            assert(buf_len as int == pack_slack(m));
        }
        if buf_len + (left as u32) * 4 > 8 {
            // finishing in nibbles would look like a full triplet to the
            // decoder: emit a zero-padded triplet instead
            let a = mantissa[p];
            let b = if left == 2 {
                mantissa[p + 1]
            } else {
                0
            };
            proof {
                assert(a <= 9 && b <= 9);
            }
            let t: u16 = (a as u16) * 100 + (b as u16) * 10;
            let nbuf: u16 = (buf << 10) | t;
            proof {
                lemma_p2_vals();
                lemma_shl_or10(buf, t, buf_len);
                lemma_shift_in(sv, t as int, buf_len as nat, 10);
                lemma_p2_adds(bits as nat, 10);
                assert(sv * 1024 + t < p2(bits as nat) * 1024) by (nonlinear_arith)
                    requires
                        sv < p2(bits as nat),
                        t < 1024,
                ;
                assert((sv * 1024 + t) / p2((buf_len as nat + 10) as nat) == sv / p2(
                    buf_len as nat,
                ));
                sv = sv * 1024 + t as int;
                bits = bits + 10;
                assert(pack_tail_bits(m) == 10);
                assert(pack_tail_val(m) == t as int);
                assert(sv == pack_val(m));
                assert(bits == pack_bits(m));
                assert((nbuf as int) % p2((buf_len + 10) as nat) == sv % p2(
                    (buf_len + 10) as nat,
                ));
            }
            buf = nbuf;
            buf_len = buf_len + 10;
        } else {
            let mut k: usize = 0;
            while k < left
                invariant
                    k <= left,
                    left <= 2,
                    left as int == pack_left(m),
                    p as int == 3 * pack_full(m),
                    p + left == n,
                    n == m.len(),
                    all_digits(m),
                    m == mantissa@,
                    buf_len as int == pack_slack(m) + 4 * k,
                    pack_slack(m) + 4 * (left as int) <= 8,
                    buf_len % 2 == 0,
                    bits == 10 * pack_full(m) + 4 * k,
                    bits == 8 * emitted + buf_len,
                    emitted >= 0,
                    0 <= sv,
                    sv < p2(bits as nat),
                    sv == trip_val(m, pack_full(m) as nat) * p2((4 * k) as nat) + (if k == 0 {
                        0
                    } else if k == 1 {
                        m[p as int] as int
                    } else {
                        (m[p as int] as int) * 16 + (m[p as int + 1] as int)
                    }),
                    (buf as int) % p2(buf_len as nat) == sv % p2(buf_len as nat),
                    out@ == pre + be_bytes(sv / p2(buf_len as nat), emitted as nat),
                    out@.subrange(0, prelen as int) == pre,
                    prelen == pre.len(),
                decreases left - k,
            {
                let d = mantissa[p + k];
                proof {
                    assert(d <= 9);
                }
                let nbuf: u16 = (buf << 4) | (d as u16);
                proof {
                    lemma_p2_vals();
                    lemma_shl_or4(buf, d as u16, buf_len);
                    lemma_shift_in(sv, d as int, buf_len as nat, 4);
                    lemma_p2_adds(bits as nat, 4);
                    lemma_p2_adds((4 * k) as nat, 4);
                    assert(sv * 16 + d < p2(bits as nat) * 16) by (nonlinear_arith)
                        requires
                            sv < p2(bits as nat),
                            d < 16,
                    ;
                    let tv = trip_val(m, pack_full(m) as nat);
                    let q = sv - tv * p2((4 * k) as nat);
                    assert((tv * p2((4 * k) as nat) + q) * 16 + d == tv * (p2((4 * k) as nat)
                        * 16) + (q * 16 + d)) by (nonlinear_arith);
                    assert((sv * 16 + d) / p2((buf_len as nat + 4) as nat) == sv / p2(
                        buf_len as nat,
                    ));
                    sv = sv * 16 + d as int;
                    bits = bits + 4;
                    assert((nbuf as int) % p2((buf_len + 4) as nat) == sv % p2(
                        (buf_len + 4) as nat,
                    ));
                }
                buf = nbuf;
                buf_len = buf_len + 4;
                k = k + 1;
            }
            proof {
                lemma_p2_vals();
                assert(sv == pack_val(m));
                assert(bits == pack_bits(m));
            }
        }
        while buf_len >= 8
            invariant
                buf_len <= 16,
                buf_len % 2 == 0,
                0 <= sv,
                sv < p2(bits as nat),
                bits == 8 * emitted + buf_len,
                emitted >= 0,
                sv == pack_val(m),
                bits == pack_bits(m),
                m == mantissa@,
                (buf as int) % p2(buf_len as nat) == sv % p2(buf_len as nat),
                out@ == pre + be_bytes(sv / p2(buf_len as nat), emitted as nat),
                out@.subrange(0, prelen as int) == pre,
                prelen == pre.len(),
            decreases buf_len,
        {
            buf_len = buf_len - 8;
            let byte = (buf >> buf_len) as u8;
            proof {
                let kk = buf_len as nat;
                lemma_p2_pos(kk);
                lemma_p2_adds(kk, 8);
                lemma_p2_vals();
                lemma_flush_byte(buf, buf_len);
                lemma_cong_slice(buf as int, sv, kk, 8);
                assert(byte as int == (sv / p2(kk)) % 256);
                lemma_emit_byte(sv, kk, emitted as nat, byte);
                vstd::arithmetic::div_mod::lemma_mod_mod(buf as int, p2(kk), p2(8));
                vstd::arithmetic::div_mod::lemma_mod_mod(sv, p2(kk), p2(8));
            }
            let ghost before = out@;
            out.push(byte);
            proof {
                emitted = emitted + 1;
                assert(out@ =~= pre + be_bytes(sv / p2(buf_len as nat), emitted as nat));
                assert(out@.subrange(0, prelen as int) =~= before.subrange(0, prelen as int));
            }
        }
        proof {
            vstd::arithmetic::div_mod::lemma_fundamental_div_mod_converse(
                bits,
                8,
                emitted,
                buf_len as int,
            );
            assert(pack_bits(m) % 8 == buf_len as int);
            assert(pack_bits(m) / 8 == emitted);
        }
        if buf_len > 0 {
            let byte = ((buf << 8) >> buf_len) as u8;
            let ghost before = out@;
            proof {
                let kk = buf_len as nat;
                let pd = (8 - buf_len) as nat;
                lemma_p2_pos(kk);
                lemma_p2_pos(pd);
                lemma_p2_adds(pd, kk);
                lemma_p2_vals();
                lemma_final_byte(buf, buf_len);
                assert(byte as int == ((sv % p2(kk)) * p2(pd)));
                let vbig = sv * p2(pd);
                assert(vbig == p2(pd) * sv + 0) by (nonlinear_arith)
                    requires vbig == sv * p2(pd),
                ;
                vstd::arithmetic::div_mod::lemma_fundamental_div_mod_converse(
                    vbig,
                    p2(pd),
                    sv,
                    0,
                );
                vstd::arithmetic::div_mod::lemma_mod_breakdown(vbig, p2(pd), p2(kk));
                assert(vbig % 256 == p2(pd) * (sv % p2(kk)));
                assert(p2(pd) * (sv % p2(kk)) == (sv % p2(kk)) * p2(pd)) by (nonlinear_arith);
                vstd::arithmetic::div_mod::lemma_div_denominator(vbig, p2(pd), p2(kk));
                assert(vbig / 256 == sv / p2(kk));
                assert(vbig >= 0);
                assert(be_bytes(vbig, (emitted + 1) as nat) == be_bytes(vbig / 256, emitted as nat)
                    .push((vbig % 256) as u8));
                assert(((vbig % 256) as u8) == byte);
                assert(pack_pad(m) == pd);
            }
            out.push(byte);
            proof {
                let kk = buf_len as nat;
                let pd = (8 - buf_len) as nat;
                emitted = emitted + 1;
                assert(out@ =~= pre + be_bytes(sv * p2(pd), emitted as nat));
                assert((pack_bits(m) + pack_pad(m)) / 8 == emitted);
                assert(out@ == pre + mant_bytes(m));
                assert(out@.subrange(0, prelen as int) =~= before.subrange(0, prelen as int));
            }
        } else {
            proof {
                assert(pack_pad(m) == 0);
                assert(sv / p2(0) == sv);
                assert(sv * p2(0) == sv);
                assert((pack_bits(m) + pack_pad(m)) / 8 == emitted);
                assert(out@ == pre + mant_bytes(m));
            }
        }
        proof {
            assert(out@ == pre + mant_bytes(m));
        }
    }

    /// Encode into the compact binary format; zero is the empty sequence.
    #[verifier::rlimit(100)]
    #[verifier::spinoff_prover]
    pub fn to_bytes(&self) -> (r: Vec<u8>)
        requires
            self.wf(),
        ensures
            self.spec_is_zero() <==> r@.len() == 0,
            !self.spec_is_zero() ==> {
                &&& (r@[0] & 0x80u8 != 0) == self.negative
                &&& r@.len() >= 1 + wire_exponent_len(self.exponent as int)
                &&& wire_exponent(r@) == Some(self.exponent as int)
                &&& r@ == wire_bytes(self.negative, self.mantissa@, self.exponent as int)
                &&& r@.len() <= self.mantissa@.len() + 11
            },
    {
        let mut out: Vec<u8> = Vec::new();
        if self.is_zero() {
            return out;
        }
        let sign: u8 = if self.negative {
            0x80
        } else {
            0
        };
        let e = self.exponent as i64;
        let band: u8 = if -64 <= e && e <= 59 {
            (e as i8 as u8) & 0x7f
        } else if -128 <= e && e <= 127 {
            0x3c
        } else if -32768 <= e && e <= 32767 {
            0x3d
        } else if -2147483648 <= e && e <= 2147483647 {
            0x3e
        } else {
            0x3f
        };
        let header = sign | band;
        proof {
            lemma_low7(e as i8 as u8);
            lemma_header_sign(sign, band, header);
        }
        out.push(header);
        if -64 <= e && e <= 59 {
        } else if -128 <= e && e <= 127 {
            out.push(e as i8 as u8);
        } else if -32768 <= e && e <= 32767 {
            let v = e as i16 as u16;
            out.push((v >> 8) as u8);
            out.push(v as u8);
        } else if -2147483648 <= e && e <= 2147483647 {
            let v = e as i32 as u32;
            out.push((v >> 24) as u8);
            out.push((v >> 16) as u8);
            out.push((v >> 8) as u8);
            out.push(v as u8);
        } else {
            let v = e as u64;
            out.push((v >> 56) as u8);
            out.push((v >> 48) as u8);
            out.push((v >> 40) as u8);
            out.push((v >> 32) as u8);
            out.push((v >> 24) as u8);
            out.push((v >> 16) as u8);
            out.push((v >> 8) as u8);
            out.push(v as u8);
        }
        // pack the mantissa, three digits into ten bits
        let n = self.mantissa.len();
        let ghost pre = out@;
        let ghost prelen = out@.len();
        proof {
            assert((pre[0] & 0x80u8 != 0) == self.negative);
            assert(prelen == 1 + wire_exponent_len(self.exponent as int));
            assert(pre[0] == header);
            if -64 <= e && e <= 59 {
            } else if -128 <= e && e <= 127 {
                assert(pre[1] == (e as i8 as u8));
            } else if -32768 <= e && e <= 32767 {
                let v16 = e as i16 as u16;
                assert(pre[1] == (v16 >> 8) as u8);
                assert(pre[2] == v16 as u8);
            } else if -2147483648 <= e && e <= 2147483647 {
                let v32 = e as i32 as u32;
                assert(pre[1] == (v32 >> 24) as u8);
                assert(pre[2] == (v32 >> 16) as u8);
                assert(pre[3] == (v32 >> 8) as u8);
                assert(pre[4] == v32 as u8);
            } else {
                let v64 = e as u64;
                assert(pre[1] == (v64 >> 56) as u8);
                assert(pre[2] == (v64 >> 48) as u8);
                assert(pre[3] == (v64 >> 40) as u8);
                assert(pre[4] == (v64 >> 32) as u8);
                assert(pre[5] == (v64 >> 24) as u8);
                assert(pre[6] == (v64 >> 16) as u8);
                assert(pre[7] == (v64 >> 8) as u8);
                assert(pre[8] == v64 as u8);
            }
            // the prefix is the header byte and the big-endian exponent bytes
            let ebx = self.exponent as int;
            lemma_p2_vals();
            if self.negative {
                lemma_sign_or(band);
            } else {
                assert((0u8 | band) == band) by (bit_vector);
            }
            if -64 <= e && e <= 59 {
                if e >= 0 {
                    lemma_band_small_pos(e as i8);
                } else {
                    lemma_band_small_neg(e as i8);
                }
                assert(band as int == wire_band(ebx) as int);
                assert(header as int == wire_header(self.negative, ebx) as int);
                assert(wire_exponent_len(ebx) == 0);
                assert(pre =~= seq![wire_header(self.negative, ebx)] + exp_bytes(ebx));
            } else if -128 <= e && e <= 127 {
                let tc = exp_tc(ebx, 1);
                lemma_tc8(e);
                assert(0 <= tc < 256);
                assert(pre[1] as int == tc);
                assert(be_bytes(tc / 256, 0) =~= Seq::<u8>::empty());
                assert(be_bytes(tc, 1) =~= seq![(tc % 256) as u8]);
                vstd::arithmetic::div_mod::lemma_small_mod(tc as nat, 256);
                assert(pre[1] == (tc % 256) as u8);
                assert(band as int == wire_band(ebx) as int);
                assert(header as int == wire_header(self.negative, ebx) as int);
                assert(pre =~= seq![wire_header(self.negative, ebx)] + exp_bytes(ebx));
            } else if -32768 <= e && e <= 32767 {
                let tc = exp_tc(ebx, 2);
                let v16 = e as i16 as u16;
                lemma_tc16(e);
                assert(v16 as int == tc);
                assert(0 <= tc < 65536);
                lemma_flush_byte(v16, 8);
                lemma_low8_16(v16);
                lemma_be_bytes_index(tc, 2, 0);
                lemma_be_bytes_index(tc, 2, 1);
                assert(pre[1] as int == (tc / p2(8)) % 256);
                assert(tc / p2(0) == tc);
                assert(pre[2] as int == (tc / p2(0)) % 256);
                assert(pre[1] as int == be_bytes(tc, 2)[0] as int);
                assert(pre[2] as int == be_bytes(tc, 2)[1] as int);
                assert(band as int == wire_band(ebx) as int);
                assert(header as int == wire_header(self.negative, ebx) as int);
                assert(pre =~= seq![wire_header(self.negative, ebx)] + exp_bytes(ebx));
            } else if -2147483648 <= e && e <= 2147483647 {
                let tc = exp_tc(ebx, 4);
                let v32 = e as i32 as u32;
                lemma_tc32(e);
                assert(v32 as int == tc);
                assert(0 <= tc < p2(32));
                lemma_flush32(v32, 24);
                lemma_flush32(v32, 16);
                lemma_flush32(v32, 8);
                lemma_low8_32(v32);
                lemma_be_bytes_index(tc, 4, 0);
                lemma_be_bytes_index(tc, 4, 1);
                lemma_be_bytes_index(tc, 4, 2);
                lemma_be_bytes_index(tc, 4, 3);
                assert(tc / p2(0) == tc);
                assert(pre[1] as int == (tc / p2(24)) % 256);
                assert(pre[2] as int == (tc / p2(16)) % 256);
                assert(pre[3] as int == (tc / p2(8)) % 256);
                assert(pre[4] as int == (tc / p2(0)) % 256);
                assert(pre[1] as int == be_bytes(tc, 4)[0] as int);
                assert(pre[2] as int == be_bytes(tc, 4)[1] as int);
                assert(pre[3] as int == be_bytes(tc, 4)[2] as int);
                assert(pre[4] as int == be_bytes(tc, 4)[3] as int);
                assert(band as int == wire_band(ebx) as int);
                assert(header as int == wire_header(self.negative, ebx) as int);
                assert(pre =~= seq![wire_header(self.negative, ebx)] + exp_bytes(ebx));
            } else {
                let tc = exp_tc(ebx, 8);
                let v64 = e as u64;
                lemma_tc64(e);
                assert(v64 as int == tc);
                assert(0 <= tc < p2(64));
                lemma_flush64(v64, 56);
                lemma_flush64(v64, 48);
                lemma_flush64(v64, 40);
                lemma_flush64(v64, 32);
                lemma_flush64(v64, 24);
                lemma_flush64(v64, 16);
                lemma_flush64(v64, 8);
                lemma_low8_64(v64);
                lemma_be_bytes_index(tc, 8, 0);
                lemma_be_bytes_index(tc, 8, 1);
                lemma_be_bytes_index(tc, 8, 2);
                lemma_be_bytes_index(tc, 8, 3);
                lemma_be_bytes_index(tc, 8, 4);
                lemma_be_bytes_index(tc, 8, 5);
                lemma_be_bytes_index(tc, 8, 6);
                lemma_be_bytes_index(tc, 8, 7);
                assert(tc / p2(0) == tc);
                assert(pre[1] as int == (tc / p2(56)) % 256);
                assert(pre[2] as int == (tc / p2(48)) % 256);
                assert(pre[3] as int == (tc / p2(40)) % 256);
                assert(pre[4] as int == (tc / p2(32)) % 256);
                assert(pre[5] as int == (tc / p2(24)) % 256);
                assert(pre[6] as int == (tc / p2(16)) % 256);
                assert(pre[7] as int == (tc / p2(8)) % 256);
                assert(pre[8] as int == (tc / p2(0)) % 256);
                assert(pre[1] as int == be_bytes(tc, 8)[0] as int);
                assert(pre[2] as int == be_bytes(tc, 8)[1] as int);
                assert(pre[3] as int == be_bytes(tc, 8)[2] as int);
                assert(pre[4] as int == be_bytes(tc, 8)[3] as int);
                assert(pre[5] as int == be_bytes(tc, 8)[4] as int);
                assert(pre[6] as int == be_bytes(tc, 8)[5] as int);
                assert(pre[7] as int == be_bytes(tc, 8)[6] as int);
                assert(pre[8] as int == be_bytes(tc, 8)[7] as int);
                assert(band as int == wire_band(ebx) as int);
                assert(header as int == wire_header(self.negative, ebx) as int);
                assert(pre =~= seq![wire_header(self.negative, ebx)] + exp_bytes(ebx));
            }
            assert(pre == seq![wire_header(self.negative, ebx)] + exp_bytes(ebx));
        }
        proof {
            assert(out@ == pre);
        }
        Self::pack_mantissa(&mut out, &self.mantissa);
        proof {
            let m = self.mantissa@;
            assert(out@ == pre + mant_bytes(m));
            assert(out@.subrange(0, prelen as int) =~= pre);
            // the packed mantissa takes at most two bytes over the digits
            lemma_be_bytes_len(
                pack_val(m) * p2(pack_pad(m) as nat),
                ((pack_bits(m) + pack_pad(m)) / 8) as nat,
            );
            let emitted = (pack_bits(m) + pack_pad(m)) / 8;
            assert(8 * emitted <= pack_bits(m) + pack_pad(m) + 7);
            assert(pack_bits(m) <= 10 * pack_full(m) + 10);
            assert(pack_pad(m) <= 7);
            assert(3 * pack_full(m) <= m.len());
            let nn = m.len() as int;
            assert(nn >= 1);
            assert(emitted <= nn + 2) by (nonlinear_arith)
                requires
                    8 * emitted <= 10 * pack_full(m) + 24,
                    3 * pack_full(m) <= nn,
                    emitted >= 0,
                    pack_full(m) >= 0,
                    nn >= 1,
            ;
            assert(out@.len() <= m.len() + 11);
            assert(out@ =~= seq![wire_header(self.negative, self.exponent as int)] + exp_bytes(
                self.exponent as int,
            ) + mant_bytes(m));
            assert(out@ == wire_bytes(self.negative, m, self.exponent as int));
        }
        proof {
            lemma_wire_prefix(self.negative, self.mantissa@, self.exponent as int);
        }
        out
    }

    /// Decode the compact binary format; the empty sequence is zero.  Every
    /// successful decode is a canonical value.
    #[verifier::rlimit(100)]
    #[verifier::spinoff_prover]
    pub fn from_bytes(bytes: &[u8]) -> (r: Result<Scientific, ConversionError>)
        requires
            bytes@.len() <= LEN_LIMIT,
        ensures
            r matches Ok(v) ==> v.wf(),
            bytes@.len() == 0 ==> (r matches Ok(v) && v.spec_is_zero()),
            bytes@.len() > 0 ==> (r matches Ok(v) ==> {
                &&& !v.spec_is_zero()
                &&& v.negative == (bytes@[0] & 0x80u8 != 0)
                &&& wire_exponent(bytes@) == Some(v.exponent as int)
            }),
            bytes@.len() > 0 && wire_exponent(bytes@) is None ==> r == Result::<
                Scientific,
                ConversionError,
            >::Err(ConversionError::ParseError),
            (wire_exponent(bytes@) matches Some(e) && !(isize::MIN as int <= e
                <= isize::MAX as int)) ==> r == Result::<Scientific, ConversionError>::Err(
                ConversionError::ExponentTooLargeForThisPlatform,
            ),
            wire_decode(bytes@) is Some && isize::MIN as int <= wire_decode_parts(bytes@).2
                <= isize::MAX as int ==> (r matches Ok(v) && v.negative == wire_decode_parts(
                bytes@,
            ).0 && v.mantissa@ == wire_decode_parts(bytes@).1 && v.exponent as int
                == wire_decode_parts(bytes@).2),
            bytes@.len() > 0 ==> (r matches Ok(v) ==> wire_decode(bytes@) == Some(
                (v.negative, v.mantissa@, v.exponent as int),
            )),
            wire_exponent(bytes@) matches Some(e) && bytes@.len() > 0 && isize::MIN as int <= e
                <= isize::MAX as int && wire_decode(bytes@) is None ==> r == Result::<
                Scientific,
                ConversionError,
            >::Err(ConversionError::ParseError),
    {
        let blen = bytes.len();
        if blen == 0 {
            return Ok(sci_zero());
        }
        let prefix = bytes[0];
        let neg = prefix & 0x80 != 0;
        let pfx = prefix & 0x7f;
        proof {
            assert(pfx <= 0x7f) by (bit_vector)
                requires pfx == prefix & 0x7f;
        }
        let exponent: isize;
        let mut pos: usize;
        if pfx < 0x3c {
            exponent = pfx as isize;
            pos = 1;
        } else if pfx >= 0x40 {
            // sign-extend the seven header bits
            exponent = ((pfx | 0x80) as i8) as isize;
            pos = 1;
        } else if pfx == 0x3c {
            if blen < 2 {
                return Err(ConversionError::ParseError);
            }
            exponent = (bytes[1] as i8) as isize;
            pos = 2;
        } else if pfx == 0x3d {
            if blen < 3 {
                return Err(ConversionError::ParseError);
            }
            let v: u16 = ((bytes[1] as u16) << 8) | (bytes[2] as u16);
            exponent = (v as i16) as isize;
            pos = 3;
        } else if pfx == 0x3e {
            if blen < 5 {
                return Err(ConversionError::ParseError);
            }
            let v: u32 = ((bytes[1] as u32) << 24) | ((bytes[2] as u32) << 16) | ((bytes[3]
                as u32) << 8) | (bytes[4] as u32);
            let e32 = v as i32;
            if (e32 as i128) < (isize::MIN as i128) || (e32 as i128) > (isize::MAX as i128) {
                return Err(ConversionError::ExponentTooLargeForThisPlatform);
            }
            exponent = e32 as isize;
            pos = 5;
        } else {
            if blen < 9 {
                return Err(ConversionError::ParseError);
            }
            let v: u64 = ((bytes[1] as u64) << 56) | ((bytes[2] as u64) << 48) | ((bytes[3]
                as u64) << 40) | ((bytes[4] as u64) << 32) | ((bytes[5] as u64) << 24) | ((
            bytes[6] as u64) << 16) | ((bytes[7] as u64) << 8) | (bytes[8] as u64);
            let e64 = v as i64;
            if (e64 as i128) < (isize::MIN as i128) || (e64 as i128) > (isize::MAX as i128) {
                return Err(ConversionError::ExponentTooLargeForThisPlatform);
            }
            exponent = e64 as isize;
            pos = 9;
        }
        // unpack the digits
        proof {
            assert(pos as int == 1 + wire_band_len(bytes@[0] & 0x7f));
            assert(pos <= blen);
        }
        let ghost tail = bytes@.skip(pos as int);
        let ghost vv = be_val(tail);
        let ghost total = 8 * (blen as int - pos as int);
        let ghost mut g: int = 0;
        proof {
            lemma_be_val_index(tail);
            assert(tail.len() == blen - pos);
            assert(0 <= vv < p2(total as nat));
            assert(group_digits(vv, total, 0) =~= Seq::<u8>::empty());
        }
        let mut digits: Vec<u8> = Vec::new();
        let mut buf: u16 = 0;
        let mut buf_len: u32 = 0;
        let mut i = pos;
        while i < blen
            invariant
                pos <= i <= blen,
                blen == bytes@.len(),
                blen >= 1,
                blen <= LEN_LIMIT,
                buf_len <= 8,
                buf_len % 2 == 0,
                g >= 0,
                digits@.len() == 3 * g,
                8 * ((i - pos) as int) == 10 * g + buf_len,
                all_digits(digits@),
                tail == bytes@.skip(pos as int),
                tail.len() == blen - pos,
                vv == be_val(tail),
                0 <= vv < p2(total as nat),
                total == 8 * (blen as int - pos as int),
                digits@ == group_digits(vv, total, g),
                groups_ok(vv, total, g),
                (buf as int) % p2(buf_len as nat) == (vv / p2((total - 8 * ((i - pos) as int))
                    as nat)) % p2(buf_len as nat),
                wire_exponent(bytes@) == Some(exponent as int),
                pos as int == 1 + wire_band_len(bytes@[0] & 0x7f),
            decreases blen - i,
        {
            let byv = bytes[i];
            let nbuf = (buf << 8) | (byv as u16);
            let ghost c = i as int - pos as int;
            proof {
                let pk = buf_len as nat;
                let t1 = (total - 8 * (c + 1)) as nat;
                let t0 = (total - 8 * c) as nat;
                lemma_p2_pos(t1);
                lemma_p2_pos(pk);
                lemma_p2_vals();
                let pcur = vv / p2(t0);
                let pnext = vv / p2(t1);
                lemma_be_val_index(tail);
                assert(tail[c] == bytes@[pos as int + c]);
                assert(byv as int == tail[c] as int);
                assert(8 * (tail.len() - 1 - c) == total - 8 * (c + 1));
                assert(byv as int == pnext % 256);
                vstd::arithmetic::div_mod::lemma_div_denominator(vv, p2(t1), 256);
                lemma_p2_adds(t1, 8);
                assert(pnext / 256 == pcur);
                vstd::arithmetic::div_mod::lemma_fundamental_div_mod(pnext, 256);
                assert(pnext == pcur * 256 + byv) by (nonlinear_arith)
                    requires
                        pnext == 256 * (pnext / 256) + pnext % 256,
                        pnext / 256 == pcur,
                        pnext % 256 == byv as int,
                ;
                lemma_shift_in(pcur, byv as int, pk, 8);
                lemma_shl_or8(buf, byv as u16, buf_len);
                assert((nbuf as int) % p2((buf_len + 8) as nat) == pnext % p2(
                    (buf_len + 8) as nat,
                ));
            }
            buf = nbuf;
            buf_len = buf_len + 8;
            i = i + 1;
            if buf_len >= 10 {
                buf_len = buf_len - 10;
                let v = (buf >> buf_len) & 1023;
                proof {
                    let k2 = buf_len as nat;
                    let pnext = vv / p2((total - 8 * ((i - pos) as int)) as nat);
                    lemma_p2_pos(k2);
                    lemma_extract10(buf, buf_len);
                    lemma_cong_slice(buf as int, pnext, k2, 10);
                    lemma_p2_vals();
                    vstd::arithmetic::div_mod::lemma_div_denominator(
                        vv,
                        p2((total - 8 * ((i - pos) as int)) as nat),
                        p2(k2),
                    );
                    lemma_p2_adds((total - 8 * ((i - pos) as int)) as nat, k2);
                    assert((total - 8 * ((i - pos) as int)) + k2 == total - 10 * g - 10);
                    assert(v as int == bits_at(vv, total, 10 * g, 10));
                }
                if v >= 1000 {
                    proof {
                        assert(10 * (g + 1) <= total);
                        vstd::arithmetic::div_mod::lemma_div_is_ordered(
                            10 * (g + 1),
                            total,
                            10,
                        );
                        vstd::arithmetic::div_mod::lemma_div_multiples_vanish(g + 1, 10);
                        assert(g < total / 10);
                        assert(!groups_ok(vv, total, total / 10));
                        assert(wire_mantissa(tail) is None);
                        assert(wire_decode(bytes@) is None);
                    }
                    return Err(ConversionError::ParseError);
                }
                digits.push((v / 100) as u8);
                digits.push(((v / 10) % 10) as u8);
                digits.push((v % 10) as u8);
                proof {
                    let gv = bits_at(vv, total, 10 * g, 10);
                    g = g + 1;
                    assert(group_digits(vv, total, g) == group_digits(vv, total, g - 1) + seq![
                        (gv / 100) as u8,
                        ((gv / 10) % 10) as u8,
                        (gv % 10) as u8,
                    ]);
                    assert(digits@ =~= group_digits(vv, total, g));
                    assert(groups_ok(vv, total, g));
                    let k2 = buf_len as nat;
                    let pnext = vv / p2((total - 8 * ((i - pos) as int)) as nat);
                    lemma_p2_adds(k2, 10);
                    vstd::arithmetic::div_mod::lemma_mod_mod(buf as int, p2(k2), p2(10));
                    vstd::arithmetic::div_mod::lemma_mod_mod(pnext, p2(k2), p2(10));
                    lemma_p2_pos(k2);
                }
            }
        }
        proof {
            assert(total - 8 * ((i - pos) as int) == 0);
            assert(p2(0) == 1);
            assert(vv / 1 == vv);
            vstd::arithmetic::div_mod::lemma_fundamental_div_mod_converse(
                total,
                10,
                g,
                buf_len as int,
            );
            assert(g == total / 10);
            assert(buf_len as int == total % 10);
        }
        let ghost nrem: int = buf_len as int;
        let ghost mut nb: int = 0;
        proof {
            assert(nib_digits(vv, total, 10 * g, 0) =~= Seq::<u8>::empty());
            assert(digits@ =~= group_digits(vv, total, g) + nib_digits(vv, total, 10 * g, 0));
        }
        while buf_len >= 4
            invariant
                buf_len % 2 == 0,
                nb >= 0,
                buf_len as int == nrem - 4 * nb,
                nrem == total % 10,
                nrem <= 8,
                g == total / 10,
                10 * g + nrem == total,
                blen == bytes@.len(),
                blen >= 1,
                tail == bytes@.skip(pos as int),
                pos <= blen,
                vv == be_val(tail),
                tail.len() == blen - pos,
                0 <= vv < p2(total as nat),
                total == 8 * (blen as int - pos as int),
                all_digits(digits@),
                digits@.len() == 3 * g + nb,
                digits@ == group_digits(vv, total, g) + nib_digits(vv, total, 10 * g, nb),
                groups_ok(vv, total, g),
                nibs_ok(vv, total, 10 * g, nb),
                (buf as int) % p2(buf_len as nat) == vv % p2(buf_len as nat),
                wire_exponent(bytes@) == Some(exponent as int),
                pos as int == 1 + wire_band_len(bytes@[0] & 0x7f),
            decreases buf_len,
        {
            buf_len = buf_len - 4;
            let v = (buf >> buf_len) & 15;
            proof {
                let k2 = buf_len as nat;
                lemma_p2_pos(k2);
                lemma_extract4(buf, buf_len);
                lemma_cong_slice(buf as int, vv, k2, 4);
                lemma_p2_vals();
                assert((total - (10 * g + 4 * nb) - 4) as nat == k2);
                assert(v as int == bits_at(vv, total, 10 * g + 4 * nb, 4));
            }
            if v >= 10 {
                proof {
                    assert(4 * (nb + 1) <= nrem);
                    vstd::arithmetic::div_mod::lemma_div_is_ordered(4 * (nb + 1), nrem, 4);
                    vstd::arithmetic::div_mod::lemma_div_multiples_vanish(nb + 1, 4);
                    assert(nb < nrem / 4);
                    assert(!nibs_ok(vv, total, 10 * (total / 10), (total % 10) / 4));
                    assert(wire_mantissa(tail) is None);
                    assert(wire_decode(bytes@) is None);
                }
                return Err(ConversionError::ParseError);
            }
            digits.push(v as u8);
            proof {
                nb = nb + 1;
                assert(nib_digits(vv, total, 10 * g, nb) == nib_digits(vv, total, 10 * g, nb
                    - 1) + seq![bits_at(vv, total, 10 * g + 4 * (nb - 1), 4) as u8]);
                assert(digits@ =~= group_digits(vv, total, g) + nib_digits(
                    vv,
                    total,
                    10 * g,
                    nb,
                ));
                assert(nibs_ok(vv, total, 10 * g, nb));
                let k2 = buf_len as nat;
                lemma_p2_adds(k2, 4);
                vstd::arithmetic::div_mod::lemma_mod_mod(buf as int, p2(k2), p2(4));
                vstd::arithmetic::div_mod::lemma_mod_mod(vv, p2(k2), p2(4));
                lemma_p2_pos(k2);
            }
        }
        proof {
            vstd::arithmetic::div_mod::lemma_fundamental_div_mod_converse(
                nrem,
                4,
                nb,
                buf_len as int,
            );
            assert(nb == nrem / 4);
            assert(buf_len as int == nrem % 4);
        }
        if buf_len > 0 {
            let sh: u32 = 16 - buf_len;
            let tailbits = buf << sh;
            proof {
                lemma_pad2(buf);
                lemma_p2_vals();
                assert(buf_len == 2);
            }
            if tailbits != 0 {
                proof {
                    assert(vv % p2((nrem - 4 * nb) as nat) != 0);
                    assert(wire_mantissa(tail) is None);
                    assert(wire_decode(bytes@) is None);
                }
                return Err(ConversionError::ParseError);
            }
        }
        proof {
            assert(p2(0) == 1);
            assert(vv % p2((nrem - 4 * nb) as nat) == 0);
        }
        let ghost dseq = group_digits(vv, total, g) + nib_digits(vv, total, 10 * g, nb);
        // strip and verify the implied trailing zeros
        let total_d = digits.len();
        let mut len = total_d;
        while len > 0 && digits[len - 1] == 0
            invariant
                len <= total_d,
                total_d == digits@.len(),
                digits@ == dseq,
                forall|j: int| len <= j < total_d ==> digits@[j] == 0,
            decreases len,
        {
            len = len - 1;
        }
        proof {
            lemma_strip_len_char(dseq, len as int);
            assert(strip_len(dseq) == len as int);
        }
        let trailing = total_d - len;
        if len == 0 {
            proof {
                assert(wire_mantissa(tail) is None);
                assert(wire_decode(bytes@) is None);
            }
            return Err(ConversionError::ParseError);
        }
        if digits[0] == 0 {
            proof {
                assert(wire_mantissa(tail) is None);
                assert(wire_decode(bytes@) is None);
            }
            return Err(ConversionError::ParseError);
        }
        // the count of implied trailing zeros the encoder would have left
        let dig = len % 3;
        let bufm = ((len / 3) * 10) % 8;
        let expected: usize = if dig == 0 && bufm == 2 {
            1
        } else if dig == 0 && bufm == 4 {
            1
        } else if dig == 1 && bufm == 0 {
            1
        } else if dig == 1 && bufm == 6 {
            2
        } else if dig == 2 && bufm == 2 {
            2
        } else if dig == 2 && bufm == 4 {
            1
        } else if dig == 2 && bufm == 6 {
            1
        } else {
            0
        };
        proof {
            assert(expected as int == implied_zeros(len as int));
        }
        if trailing != expected {
            proof {
                assert(wire_mantissa(tail) is None);
                assert(wire_decode(bytes@) is None);
            }
            return Err(ConversionError::ParseError);
        }
        proof {
            assert(wire_mantissa(tail) == Some(dseq.take(len as int)));
        }
        let mut m: Vec<u8> = Vec::new();
        let mut k: usize = 0;
        while k < len
            invariant
                k <= len,
                len <= digits@.len(),
                digits@ == dseq,
                blen == bytes@.len(),
                blen >= 1,
                wire_exponent(bytes@) == Some(exponent as int),
                all_digits(digits@),
                m@ == digits@.subrange(0, k as int),
            decreases len - k,
        {
            m.push(digits[k]);
            proof {
                assert(m@ =~= digits@.subrange(0, k + 1));
            }
            k += 1;
        }
        proof {
            assert(m@[0] == digits@[0]);
            assert(m@[m@.len() - 1] == digits@[len - 1]);
            assert(all_digits(m@));
            assert(m@ =~= dseq.take(len as int));
            assert(wire_decode(bytes@) == Some((neg, m@, exponent as int)));
        }
        Ok(Scientific { negative: neg, mantissa: m, exponent })
    }
}

} // verus!
