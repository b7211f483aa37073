//! Facts about the bit fields of a 64-bit index, proved on bit vectors and
//! shared by the index modules.
use vstd::prelude::*;

verus! {

/// A masked value never exceeds its mask; a shift of one by less than 64
/// bits is positive, and minus one it is the mask of the low bits.
pub proof fn lemma_masks()
    by (bit_vector)
    ensures
        forall|x: u64, m: u64| #[trigger] (x & m) <= m,
        forall|w: u64| w <= 63 ==> #[trigger] (1u64 << w) >= 1u64,
        forall|w: u64|
            w <= 63 ==> (#[trigger] (1u64 << w)) - 1u64 == !(0xffff_ffff_ffff_ffffu64 << w),
        forall|x: u64| #[trigger] (x >> 0u64) == x,
        forall|o: u64| #[trigger] ((0u64 >> o) & 7u64) == 0u64,
{
}

/// Writing the 3-bit field at offset `o` (a multiple of 3): the field reads
/// back, the other fields (at offset `p`) and the bits from 45 up are kept;
/// reading a field through its mask is shifting then masking; adding one at
/// a field holding at most 6 increments it, without carry.
pub proof fn lemma_digit_write(bits: u64, o: u64, dd: u64, p: u64)
    by (bit_vector)
    requires
        o <= 42,
        p <= 42,
        o % 3 == 0,
        p % 3 == 0,
        dd <= 7,
    ensures
        ((((bits & !(7u64 << o)) | (dd << o)) >> o) & 7u64) == dd,
        p != o ==> ((((bits & !(7u64 << o)) | (dd << o)) >> p) & 7u64) == ((bits >> p) & 7u64),
        (((bits & !(7u64 << o)) | (dd << o)) >> 45u64) == bits >> 45u64,
        ((bits & (7u64 << o)) >> o) == ((bits >> o) & 7u64),
        (bits & !(7u64 << o)) | (0u64 << o) == bits & !(7u64 << o),
        (bits >> o) & 7u64 <= 6 ==> bits + (1u64 << o) <= 0xffff_ffff_ffff_ffffu64 && bits + (1u64
            << o) == (bits & !(7u64 << o)) | (((((bits >> o) & 7u64) + 1) as u64) << o),
{
}

/// Values agreeing from bit 45 up agree on the mode, edge, resolution and
/// base cell fields, and from bit 56 up.
pub proof fn lemma_high_fields(x: u64, y: u64)
    by (bit_vector)
    requires
        x >> 45u64 == y >> 45u64,
    ensures
        (x >> 59u64) & 0xfu64 == (y >> 59u64) & 0xfu64,
        (x >> 56u64) & 7u64 == (y >> 56u64) & 7u64,
        (x >> 52u64) & 0xfu64 == (y >> 52u64) & 0xfu64,
        (x >> 45u64) & 0x7fu64 == (y >> 45u64) & 0x7fu64,
        x >> 56u64 == y >> 56u64,
        x >> 63u64 == y >> 63u64,
{
}

/// Values agreeing from bit 56 up agree on the mode and edge fields and on
/// the reserved bit.
pub proof fn lemma_top_fields(x: u64, y: u64)
    by (bit_vector)
    requires
        x >> 56u64 == y >> 56u64,
    ensures
        (x >> 59u64) & 0xfu64 == (y >> 59u64) & 0xfu64,
        (x >> 56u64) & 7u64 == (y >> 56u64) & 7u64,
        x >> 63u64 == y >> 63u64,
        ((x >> 52u64) & 0xfu64 == (y >> 52u64) & 0xfu64 && (x >> 45u64) & 0x7fu64 == (y >> 45u64)
            & 0x7fu64) ==> x >> 45u64 == y >> 45u64,
{
}

/// Setting every bit below offset `o`: the fields below are all ones, the
/// others are kept.
pub proof fn lemma_fill_low(bits: u64, o: u64, p: u64)
    by (bit_vector)
    requires
        o <= 45,
        p <= 42,
    ensures
        p + 3 <= o ==> ((bits | !(0xffff_ffff_ffff_ffffu64 << o)) >> p) & 7u64 == 7u64,
        o <= p ==> ((bits | !(0xffff_ffff_ffff_ffffu64 << o)) >> p) & 7u64 == (bits >> p) & 7u64,
        (bits | !(0xffff_ffff_ffff_ffffu64 << o)) >> 45u64 == bits >> 45u64,
{
}

/// Agreement from bit `o + 3` up and on the field at `o` is agreement from
/// `o` up.
pub proof fn lemma_shift_ext(x: u64, y: u64, o: u64)
    by (bit_vector)
    requires
        o <= 42,
        x >> (o + 3) == y >> (o + 3),
        (x >> o) & 7u64 == (y >> o) & 7u64,
    ensures
        x >> o == y >> o,
{
}

/// Reading the fields through their masks, and clearing them.
pub proof fn lemma_field_masks(bits: u64)
    by (bit_vector)
    ensures
        ((bits & 0x7800_0000_0000_0000u64) >> 59u64) == (bits >> 59u64) & 0xfu64,
        ((bits & 0x0700_0000_0000_0000u64) >> 56u64) == (bits >> 56u64) & 7u64,
        ((bits & 0x00f0_0000_0000_0000u64) >> 52u64) == (bits >> 52u64) & 0xfu64,
        ((bits & 0x000f_e000_0000_0000u64) >> 45u64) == (bits >> 45u64) & 0x7fu64,
        ((bits & !0x7800_0000_0000_0000u64) >> 59u64) & 0xfu64 == 0u64,
        ((bits & !0x0700_0000_0000_0000u64) >> 56u64) & 7u64 == 0u64,
        (bits >> 56u64) & 0x87u64 == 0u64 ==> bits >> 63u64 == 0u64 && (bits >> 56u64) & 7u64
            == 0u64,
        ((bits >> 56u64) & 0x87u64 == 0u64 && (bits >> 59u64) & 0xfu64 == 1u64) ==> bits >> 56u64
            == 8u64,
{
}

/// Writing the mode (`m`), the edge or vertex (`v`) or the resolution
/// (`r`) field: it reads back, and the other bits are kept.
pub proof fn lemma_field_writes(bits: u64, m: u64, v: u64, r: u64)
    by (bit_vector)
    requires
        m <= 15,
        v <= 7,
        r <= 15,
    ensures
        ((((bits & !0x7800_0000_0000_0000u64) | (m << 59u64)) >> 59u64) & 0xfu64) == m,
        (((bits & !0x7800_0000_0000_0000u64) | (m << 59u64)) & !0x7800_0000_0000_0000u64) == (bits
            & !0x7800_0000_0000_0000u64),
        ((((bits & !0x0700_0000_0000_0000u64) | (v << 56u64)) >> 56u64) & 7u64) == v,
        (((bits & !0x0700_0000_0000_0000u64) | (v << 56u64)) & !0x0700_0000_0000_0000u64) == (bits
            & !0x0700_0000_0000_0000u64),
        ((((bits & !0x00f0_0000_0000_0000u64) | (r << 52u64)) >> 52u64) & 0xfu64) == r,
        (((bits & !0x00f0_0000_0000_0000u64) | (r << 52u64)) >> 56u64) == bits >> 56u64,
        (((bits & !0x00f0_0000_0000_0000u64) | (r << 52u64)) >> 45u64) & 0x7fu64 == (bits >> 45u64)
            & 0x7fu64,
        (((bits & !0x00f0_0000_0000_0000u64) | (r << 52u64)) & 0x000f_ffff_ffff_ffffu64) == (bits
            & 0x000f_ffff_ffff_ffffu64),
        r == (bits >> 52u64) & 0xfu64 ==> ((bits & !0x00f0_0000_0000_0000u64) | (r << 52u64))
            == bits,
{
}

/// Facts relating the leading zeros of the directions (`x`, the bits under
/// the directions mask; `l` its number of leading zeros) to the fields.
pub proof fn lemma_direction_bits(bits: u64, x: u64, l: u64, o: u64, s: u64, t: u64, m: u64)
    by (bit_vector)
    ensures
        o <= 42 ==> (bits >> o) & 7u64 == ((bits & 0x0000_1fff_ffff_ffffu64) >> o) & 7u64,
        (x == bits & 0x0000_1fff_ffff_ffffu64 && l < 64 && (x >> (63u64 - l) as u64) & 1u64
            != 0u64) ==> l >= 19,
        (x >> s == 0u64 && o >= s && o <= 42) ==> (x >> o) & 7u64 == 0u64,
        ((x >> t) & 1u64 != 0u64 && t == o + 2 - m && m <= 2 && o <= 42) ==> (x >> o) & 7u64
            != 0u64,
        (x == 0x0000_1fff_ffff_ffffu64 && l <= 64 && (l < 64 ==> (x >> (63u64 - l) as u64) & 1u64
            != 0u64) && x >> (64u64 - l) as u64 == 0u64 && (x == 0u64 <==> l == 64)) ==> l == 19,
{
}

/// Values agreeing on their 52 low bits agree on the field at `o`.
pub proof fn lemma_low_fields(x: u64, y: u64, o: u64)
    by (bit_vector)
    requires
        o <= 42,
        (x & 0x000f_ffff_ffff_ffffu64) == (y & 0x000f_ffff_ffff_ffffu64),
    ensures
        (x >> o) & 7u64 == (y >> o) & 7u64,
{
}

/// Writing the base cell field (`v`, below 128): it reads back, and the
/// bits from 52 up and the fields below 45 (at offset `o`) are kept.
pub proof fn lemma_base_write(bits: u64, v: u64, o: u64)
    by (bit_vector)
    requires
        v < 128,
        o <= 42,
    ensures
        ((((bits & !0x000f_e000_0000_0000u64) | (v << 45u64)) >> 45u64) & 0x7fu64) == v,
        (((bits & !0x000f_e000_0000_0000u64) | (v << 45u64)) >> 56u64) == bits >> 56u64,
        (((bits & !0x000f_e000_0000_0000u64) | (v << 45u64)) >> 52u64) & 0xfu64 == (bits >> 52u64)
            & 0xfu64,
        ((((bits & !0x000f_e000_0000_0000u64) | (v << 45u64)) >> o) & 7u64) == (bits >> o) & 7u64,
{
}

/// Comparing two values that agree above a field: the field decides. Two
/// indexes agreeing from bit 56 up and on the resolution agree from bit 52
/// up, and then compare as their bits with the resolution cleared.
pub proof fn lemma_lex_bits(x: u64, y: u64, o: u64, u: u64)
    by (bit_vector)
    requires
        o <= 42,
        u == o + 3,
    ensures
        (x >> u == y >> u && (x >> o) & 7u64 < (y >> o) & 7u64) ==> x < y,
        (x >> 52u64 == y >> 52u64 && (x >> 45u64) & 0x7fu64 < (y >> 45u64) & 0x7fu64) ==> x < y,
        (x >> 56u64 == y >> 56u64 && (x >> 52u64) & 0xfu64 == (y >> 52u64) & 0xfu64) ==> x >> 52u64
            == y >> 52u64,
        x >> 52u64 == y >> 52u64 ==> (x < y <==> (x & !0x00f0_0000_0000_0000u64) < (y
            & !0x00f0_0000_0000_0000u64)),
{
}

/// Rewriting the resolution field and setting the bits below `o` keeps the
/// order of two values that agree from bit 52 up.
pub proof fn lemma_ancestor_order(a: u64, b: u64, v: u64, o: u64)
    by (bit_vector)
    requires
        a <= b,
        a >> 52u64 == b >> 52u64,
        v <= 15,
        o <= 45,
    ensures
        (((a & !0x00f0_0000_0000_0000u64) | (v << 52u64)) | !(0xffff_ffff_ffff_ffffu64 << o)) <= (((b
            & !0x00f0_0000_0000_0000u64) | (v << 52u64)) | !(0xffff_ffff_ffff_ffffu64 << o)),
{
}

} // verus!
