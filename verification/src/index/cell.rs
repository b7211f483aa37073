//! Cell indexes.
use crate::base_cell::{is_pentagon_base, BaseCell};
use crate::direction::{dir_value, Direction};
use crate::error::InvalidCellIndex;
use crate::index::bitvec::{
    lemma_field_masks, lemma_field_writes, lemma_low_fields, lemma_masks, lemma_top_fields,
};
use crate::index::bits::{
    self, base_cell_of, digit, digit_offset, digits_valid, field_of, leading_digit,
    lemma_digit_bound, lemma_high_bits, lemma_leading_digit, lemma_with_digit, lemma_with_unused,
    mode_of, resolution_of, with_digit, with_unused,
};
use crate::index::count::{child_bits, lemma_center_bits};
use crate::index::mode::{mode_value, IndexMode};
use crate::resolution::{pow7, res_from, res_value, Resolution};
use vstd::prelude::*;
use vstd::std_specs::bits::{axiom_u64_leading_zeros, u64_leading_zeros};

verus! {

// -----------------------------------------------------------------------------
// Model.

/// Whether the 64-bit value is a valid cell index: reserved bits at zero,
/// cell mode, a base cell in `[0, 121]`, a direction in `[0, 6]` at every
/// resolution up to the index's one, the unused pattern (7) below it, and no
/// pentagon whose first non-center direction is the deleted `K` axe.
pub open spec fn is_valid_cell(bits: u64) -> bool {
    &&& (bits >> 56u64) & 0x87u64 == 0
    &&& mode_of(bits) == 1
    &&& base_cell_of(bits) < 122
    &&& forall|q: u8|
        1 <= q <= 15 && q <= resolution_of(bits) ==> #[trigger] digit(bits, q) <= 6
    &&& forall|q: u8| 1 <= q <= 15 && q > resolution_of(bits) ==> #[trigger] digit(bits, q) == 7
    &&& is_pentagon_base(base_cell_of(bits)) ==> leading_digit(bits, 1, resolution_of(bits)) != 1
}

/// Every direction up to resolution `res` is the center one.
pub open spec fn all_center(bits: u64, res: u8) -> bool {
    forall|q: u8| 1 <= q <= res ==> #[trigger] digit(bits, q) == 0
}

/// Whether the cell index designates a pentagon: a pentagonal base cell
/// and only center directions.
pub open spec fn is_pentagon_cell(bits: u64) -> bool {
    is_pentagon_base(base_cell_of(bits)) && all_center(bits, resolution_of(bits))
}

/// The bits with the resolution field replaced by `r`.
pub open spec fn with_resolution(bits: u64, r: u8) -> u64 {
    (bits & !0x00f0_0000_0000_0000u64) | ((r as u64) << 52u64)
}

/// The ordering key of a cell: its bits without the resolution.
pub open spec fn order_key(bits: u64) -> u64 {
    bits & !0x00f0_0000_0000_0000u64
}

/// The 3-bit chunk number `i` of `d`, from the least significant bits.
pub open spec fn chunk(d: u64, i: u64) -> u64 {
    (d >> (3 * i) as u64) & 7u64
}

/// Whether some of the 15 chunks of `d` holds the unused pattern.
pub open spec fn any_unused_chunk(d: u64) -> bool {
    ||| chunk(d, 0) == 7 || chunk(d, 1) == 7 || chunk(d, 2) == 7 || chunk(d, 3) == 7 || chunk(d, 4) == 7 || chunk(d, 5) == 7 || chunk(d, 6) == 7 || chunk(d, 7) == 7 || chunk(d, 8) == 7 || chunk(d, 9) == 7 || chunk(d, 10) == 7 || chunk(d, 11) == 7 || chunk(d, 12) == 7 || chunk(d, 13) == 7 || chunk(d, 14) == 7
}

// -----------------------------------------------------------------------------
// Lemmas.

/// Mycroft's zero-chunk detection applied to 3-bit chunks holding 7.
proof fn lemma_unused_chunk_detection(d: u64, t: u64)
    by (bit_vector)
    requires
        d <= 0x1fff_ffff_ffffu64,
        t + 0b001_001_001_001_001_001_001_001_001_001_001_001_001_001_001u64 == !d,
    ensures
        ((t & (d & 0b100_100_100_100_100_100_100_100_100_100_100_100_100_100_100u64)) != 0u64)
            <==> (((d >> 0u64) & 7u64) == 7u64
            || ((d >> 3u64) & 7u64) == 7u64
            || ((d >> 6u64) & 7u64) == 7u64
            || ((d >> 9u64) & 7u64) == 7u64
            || ((d >> 12u64) & 7u64) == 7u64
            || ((d >> 15u64) & 7u64) == 7u64
            || ((d >> 18u64) & 7u64) == 7u64
            || ((d >> 21u64) & 7u64) == 7u64
            || ((d >> 24u64) & 7u64) == 7u64
            || ((d >> 27u64) & 7u64) == 7u64
            || ((d >> 30u64) & 7u64) == 7u64
            || ((d >> 33u64) & 7u64) == 7u64
            || ((d >> 36u64) & 7u64) == 7u64
            || ((d >> 39u64) & 7u64) == 7u64
            || ((d >> 42u64) & 7u64) == 7u64),
{
}

/// A 45-bit value whose chunks are all zero is zero.
proof fn lemma_chunks_zero(d: u64)
    by (bit_vector)
    requires
        d <= 0x1fff_ffff_ffffu64,
        (d >> 0u64) & 7u64 == 0u64,
        (d >> 3u64) & 7u64 == 0u64,
        (d >> 6u64) & 7u64 == 0u64,
        (d >> 9u64) & 7u64 == 0u64,
        (d >> 12u64) & 7u64 == 0u64,
        (d >> 15u64) & 7u64 == 0u64,
        (d >> 18u64) & 7u64 == 0u64,
        (d >> 21u64) & 7u64 == 0u64,
        (d >> 24u64) & 7u64 == 0u64,
        (d >> 27u64) & 7u64 == 0u64,
        (d >> 30u64) & 7u64 == 0u64,
        (d >> 33u64) & 7u64 == 0u64,
        (d >> 36u64) & 7u64 == 0u64,
        (d >> 39u64) & 7u64 == 0u64,
        (d >> 42u64) & 7u64 == 0u64,
    ensures
        d == 0u64,
{
}

/// The used directions, right-aligned under the mask `dm` (of `w` bits):
/// each 3-bit chunk is the direction at the matching offset, chunks above
/// the mask are zero, and the whole fits in 45 bits.
proof fn lemma_dirs_bits(value: u64, ub: u64, dm: u64, w: u64, s: u64, o: u64)
    by (bit_vector)
    ensures
        (w <= 45 && w == 45 - ub && dm + 1 == 1u64 << w && s + 3 <= w && o == ub + s) ==> (((
        value >> ub) & dm) >> s) & 7u64 == (value >> o) & 7u64,
        (w <= 45 && dm + 1 == 1u64 << w && s >= w && s <= 42) ==> (((value >> ub) & dm) >> s)
            & 7u64 == 0u64,
        (w <= 45 && dm + 1 == 1u64 << w) ==> ((value >> ub) & dm) <= 0x1fff_ffff_ffffu64,
{
}

/// The complemented bits under the low mask (of `ub` bits) are zero iff the
/// fields below `ub` are all ones.
proof fn lemma_tail_bits(value: u64, mask: u64, ub: u64, o: u64, s: u64, t: u64)
    by (bit_vector)
    ensures
        ((!value) & mask == 0u64 && mask + 1 == 1u64 << ub && ub <= 45 && o + 3 <= ub) ==> (value
            >> o) & 7u64 == 7u64,
        (mask + 1 == 1u64 << ub && ub <= 45) ==> mask == !(0xffff_ffff_ffff_ffffu64 << ub),
        (!value) & !(0xffff_ffff_ffff_ffffu64 << 0u64) == 0u64,
        ((!value) & !(0xffff_ffff_ffff_ffffu64 << s) == 0u64 && (value >> s) & 7u64 == 7u64 && t
            == s + 3 && s <= 42) ==> (!value) & !(0xffff_ffff_ffff_ffffu64 << t) == 0u64,
        value <= 0x1fff_ffff_ffffu64 ==> !value
            >= 0b001_001_001_001_001_001_001_001_001_001_001_001_001_001_001u64,
{
}

/// The used directions, left-aligned (`x`, with `l` leading zeros): each
/// chunk is the direction at the matching offset, the leading zeros cover
/// whole zero chunks, and the first set bit tells the first non-zero chunk
/// and whether it holds 1.
proof fn lemma_aligned_bits(
    value: u64,
    ub: u64,
    dm: u64,
    w: u64,
    off: u64,
    x: u64,
    s: u64,
    o: u64,
    q3: u64,
    t: u64,
    z: u64,
    m: u64,
)
    by (bit_vector)
    ensures
        (x == ((value >> ub) & dm) << off && s == 64 - q3 && o == 45 - q3 && off == 64 - w && ub
            == 45 - w && w <= 45 && dm + 1 == 1u64 << w && 3 <= q3 <= w) ==> (x >> s) & 7u64 == (
        value >> o) & 7u64,
        (x == ((value >> ub) & dm) << off && (x >> t) & 1u64 != 0u64 && off <= 61 && t <= 63)
            ==> t >= off,
        (x >> z == 0u64 && s >= z && s <= 61) ==> (x >> s) & 7u64 == 0u64,
        ((x >> t) & 1u64 != 0u64 && x >> z == 0u64 && z == t + 1 && t == s + 2 - m && m <= 2 && s
            <= 61) ==> ((x >> s) & 7u64 != 0u64) && (((x >> s) & 7u64 == 1u64) <==> m == 2),
        (x == 0u64) ==> (x >> s) & 7u64 == 0u64,
{
}

/// Clearing the bits `[stop, stop + width)`: the fields inside read zero,
/// the others and the bits from 45 up are kept.
pub proof fn lemma_clear_bits(bits: u64, mask: u64, width: u64, stop: u64, o: u64, v: u64)
    by (bit_vector)
    requires
        mask + 1 == 1u64 << width,
        stop + width <= 45,
        o <= 42,
    ensures
        (((bits & !(mask << stop)) & !0x00f0_0000_0000_0000u64) | (v << 52u64)) >> 45u64 == ((bits
            & !0x00f0_0000_0000_0000u64) | (v << 52u64)) >> 45u64,
        (stop <= o && o + 3 <= stop + width) ==> ((bits & !(mask << stop)) >> o) & 7u64 == 0u64,
        (o + 3 <= stop || stop + width <= o) ==> ((bits & !(mask << stop)) >> o) & 7u64 == (bits
            >> o) & 7u64,
        (bits & !(mask << stop)) >> 45u64 == bits >> 45u64,
{
}

/// The fields of the cell templates: resolution 0, cell mode, every
/// direction at 0 (`0x0800…`), 6 (`0x080f_3b6d…`) or unused (`0x0800_1fff…`),
/// with the base cell `v` written in.
pub(crate) proof fn lemma_template_bits(v: u64, o: u64)
    by (bit_vector)
    requires
        v < 128,
        o <= 42,
    ensures
        (0x0800_0000_0000_0000u64 >> o) & 7u64 == 0u64,
        o % 3 == 0 ==> (0x080f_3b6d_b6db_6db6u64 >> o) & 7u64 == 6u64,
        (0x0800_0000_0000_0000u64 >> 56u64) & 0x87u64 == 0u64,
        (0x0800_0000_0000_0000u64 >> 59u64) & 0xfu64 == 1u64,
        (0x0800_0000_0000_0000u64 >> 45u64) & 0x7fu64 == 0u64,
        (0x080f_3b6d_b6db_6db6u64 >> 56u64) & 0x87u64 == 0u64,
        (0x080f_3b6d_b6db_6db6u64 >> 59u64) & 0xfu64 == 1u64,
        (0x080f_3b6d_b6db_6db6u64 >> 45u64) & 0x7fu64 == 121u64,
        (((0x0800_0000_0000_0000u64 & !0x000f_e000_0000_0000u64) | (v << 45u64)) >> 56u64)
            & 0x87u64 == 0u64,
        (((0x0800_0000_0000_0000u64 & !0x000f_e000_0000_0000u64) | (v << 45u64)) >> 59u64)
            & 0xfu64 == 1u64,
        (((0x0800_0000_0000_0000u64 & !0x000f_e000_0000_0000u64) | (v << 45u64)) >> 45u64)
            & 0x7fu64 == v,
        (((0x0800_0000_0000_0000u64 & !0x000f_e000_0000_0000u64) | (v << 45u64)) >> o) & 7u64
            == 0u64,
        (((0x0800_1fff_ffff_ffffu64 & !0x000f_e000_0000_0000u64) | (v << 45u64)) >> 56u64)
            & 0x87u64 == 0u64,
        (((0x0800_1fff_ffff_ffffu64 & !0x000f_e000_0000_0000u64) | (v << 45u64)) >> 59u64)
            & 0xfu64 == 1u64,
        (((0x0800_1fff_ffff_ffffu64 & !0x000f_e000_0000_0000u64) | (v << 45u64)) >> 52u64)
            & 0xfu64 == 0u64,
        (((0x0800_1fff_ffff_ffffu64 & !0x000f_e000_0000_0000u64) | (v << 45u64)) >> 45u64)
            & 0x7fu64 == v,
        (((0x0800_1fff_ffff_ffffu64 & !0x000f_e000_0000_0000u64) | (v << 45u64)) >> o) & 7u64
            == 7u64,
{
}

/// Chunk `i` of the used directions, right-aligned, is the direction at
/// resolution `res - i`.
proof fn lemma_dirs_chunk(value: u64, res: u64, ub: u64, dm: u64, dirs: u64, i: u64)
    requires
        res <= 15,
        ub == 3 * (15 - res),
        dm + 1 == 1u64 << (3 * res) as u64,
        dirs == (value >> ub) & dm,
        i < 15,
    ensures
        chunk(dirs, i) == if i < res {
            digit(value, (res - i) as u8) as u64
        } else {
            0
        },
{
    let s = (3 * i) as u64;
    let w = (3 * res) as u64;
    if i < res {
        let o = digit_offset((res - i) as u8);
        assert(o == ub + s);
        lemma_masks();
        lemma_dirs_bits(value, ub, dm, w, s, o);
    } else {
        lemma_dirs_bits(value, ub, dm, w, s, 0);
    }
}

/// The used directions, right-aligned, fit in 45 bits.
proof fn lemma_dirs_bound(value: u64, res: u64, ub: u64, dm: u64, dirs: u64)
    requires
        res <= 15,
        dm + 1 == 1u64 << (3 * res) as u64,
        dirs == (value >> ub) & dm,
    ensures
        dirs <= 0x1fff_ffff_ffffu64,
{
    let w = (3 * res) as u64;
    lemma_dirs_bits(value, ub, dm, w, 0, 0);
}

/// The used directions, right-aligned, hold a 7 iff some direction up to
/// `res` is 7.
#[verifier::rlimit(40)]
proof fn lemma_dirs_unused(value: u64, res: u64, ub: u64, dm: u64, dirs: u64)
    requires
        res <= 15,
        ub == 3 * (15 - res),
        dm + 1 == 1u64 << (3 * res) as u64,
        dirs == (value >> ub) & dm,
    ensures
        any_unused_chunk(dirs) <==> exists|q: u8|
            1 <= q <= res && #[trigger] digit(value, q) == 7,
{
    lemma_dirs_chunk(value, res, ub, dm, dirs, 0);
    lemma_dirs_chunk(value, res, ub, dm, dirs, 1);
    lemma_dirs_chunk(value, res, ub, dm, dirs, 2);
    lemma_dirs_chunk(value, res, ub, dm, dirs, 3);
    lemma_dirs_chunk(value, res, ub, dm, dirs, 4);
    lemma_dirs_chunk(value, res, ub, dm, dirs, 5);
    lemma_dirs_chunk(value, res, ub, dm, dirs, 6);
    lemma_dirs_chunk(value, res, ub, dm, dirs, 7);
    lemma_dirs_chunk(value, res, ub, dm, dirs, 8);
    lemma_dirs_chunk(value, res, ub, dm, dirs, 9);
    lemma_dirs_chunk(value, res, ub, dm, dirs, 10);
    lemma_dirs_chunk(value, res, ub, dm, dirs, 11);
    lemma_dirs_chunk(value, res, ub, dm, dirs, 12);
    lemma_dirs_chunk(value, res, ub, dm, dirs, 13);
    lemma_dirs_chunk(value, res, ub, dm, dirs, 14);
    if chunk(dirs, 0) == 7 {
        assert(digit(value, (res - 0) as u8) == 7);
    }
    if chunk(dirs, 1) == 7 {
        assert(digit(value, (res - 1) as u8) == 7);
    }
    if chunk(dirs, 2) == 7 {
        assert(digit(value, (res - 2) as u8) == 7);
    }
    if chunk(dirs, 3) == 7 {
        assert(digit(value, (res - 3) as u8) == 7);
    }
    if chunk(dirs, 4) == 7 {
        assert(digit(value, (res - 4) as u8) == 7);
    }
    if chunk(dirs, 5) == 7 {
        assert(digit(value, (res - 5) as u8) == 7);
    }
    if chunk(dirs, 6) == 7 {
        assert(digit(value, (res - 6) as u8) == 7);
    }
    if chunk(dirs, 7) == 7 {
        assert(digit(value, (res - 7) as u8) == 7);
    }
    if chunk(dirs, 8) == 7 {
        assert(digit(value, (res - 8) as u8) == 7);
    }
    if chunk(dirs, 9) == 7 {
        assert(digit(value, (res - 9) as u8) == 7);
    }
    if chunk(dirs, 10) == 7 {
        assert(digit(value, (res - 10) as u8) == 7);
    }
    if chunk(dirs, 11) == 7 {
        assert(digit(value, (res - 11) as u8) == 7);
    }
    if chunk(dirs, 12) == 7 {
        assert(digit(value, (res - 12) as u8) == 7);
    }
    if chunk(dirs, 13) == 7 {
        assert(digit(value, (res - 13) as u8) == 7);
    }
    if chunk(dirs, 14) == 7 {
        assert(digit(value, (res - 14) as u8) == 7);
    }
    if exists|q: u8| 1 <= q <= res && #[trigger] digit(value, q) == 7 {
        let q = choose|q: u8| 1 <= q <= res && #[trigger] digit(value, q) == 7;
        let i = (res - q) as u64;
        lemma_dirs_chunk(value, res, ub, dm, dirs, i);
        assert(chunk(dirs, i) == 7);
        assert(i == 0 || i == 1 || i == 2 || i == 3 || i == 4 || i == 5 || i == 6 || i == 7 || i
            == 8 || i == 9 || i == 10 || i == 11 || i == 12 || i == 13 || i == 14);
    }
}

/// The used directions, right-aligned, are zero iff every direction up to
/// `res` is the center one.
#[verifier::rlimit(40)]
proof fn lemma_dirs_zero(value: u64, res: u64, ub: u64, dm: u64, dirs: u64)
    requires
        res <= 15,
        ub == 3 * (15 - res),
        dm + 1 == 1u64 << (3 * res) as u64,
        dirs == (value >> ub) & dm,
    ensures
        dirs == 0 <==> all_center(value, res as u8),
{
    lemma_dirs_bound(value, res, ub, dm, dirs);
    if dirs == 0 {
        assert forall|q: u8| 1 <= q <= res as u8 implies #[trigger] digit(value, q) == 0 by {
            let i = (res - q) as u64;
            lemma_dirs_chunk(value, res, ub, dm, dirs, i);
            assert(chunk(dirs, i) == digit(value, q) as u64);
            lemma_masks();
            assert((0u64 >> (3 * i) as u64) & 7u64 == 0u64);
        }
    }
    if all_center(value, res as u8) {
    lemma_dirs_chunk(value, res, ub, dm, dirs, 0);
    lemma_dirs_chunk(value, res, ub, dm, dirs, 1);
    lemma_dirs_chunk(value, res, ub, dm, dirs, 2);
    lemma_dirs_chunk(value, res, ub, dm, dirs, 3);
    lemma_dirs_chunk(value, res, ub, dm, dirs, 4);
    lemma_dirs_chunk(value, res, ub, dm, dirs, 5);
    lemma_dirs_chunk(value, res, ub, dm, dirs, 6);
    lemma_dirs_chunk(value, res, ub, dm, dirs, 7);
    lemma_dirs_chunk(value, res, ub, dm, dirs, 8);
    lemma_dirs_chunk(value, res, ub, dm, dirs, 9);
    lemma_dirs_chunk(value, res, ub, dm, dirs, 10);
    lemma_dirs_chunk(value, res, ub, dm, dirs, 11);
    lemma_dirs_chunk(value, res, ub, dm, dirs, 12);
    lemma_dirs_chunk(value, res, ub, dm, dirs, 13);
    lemma_dirs_chunk(value, res, ub, dm, dirs, 14);
    assert(chunk(dirs, 0) == 0);
    assert(chunk(dirs, 1) == 0);
    assert(chunk(dirs, 2) == 0);
    assert(chunk(dirs, 3) == 0);
    assert(chunk(dirs, 4) == 0);
    assert(chunk(dirs, 5) == 0);
    assert(chunk(dirs, 6) == 0);
    assert(chunk(dirs, 7) == 0);
    assert(chunk(dirs, 8) == 0);
    assert(chunk(dirs, 9) == 0);
    assert(chunk(dirs, 10) == 0);
    assert(chunk(dirs, 11) == 0);
    assert(chunk(dirs, 12) == 0);
    assert(chunk(dirs, 13) == 0);
    assert(chunk(dirs, 14) == 0);
        lemma_chunks_zero(dirs);
    }
}

/// The directions finer than `res` are all 7 iff the complemented bits
/// below their offset are all zero.
proof fn lemma_unused_tail(value: u64, res: u64, ub: u64, mask: u64)
    requires
        res <= 15,
        ub == 3 * (15 - res),
        mask + 1 == 1u64 << ub,
    ensures
        ((!value) & mask == 0) <==> forall|q: u8|
            1 <= q <= 15 && q > res ==> #[trigger] digit(value, q) == 7,
{
    if (!value) & mask == 0 {
        assert forall|q: u8| 1 <= q <= 15 && q > res implies #[trigger] digit(value, q) == 7 by {
            let o = digit_offset(q);
            lemma_tail_bits(value, mask, ub, o, 0, 0);
        }
    }
    if forall|q: u8| 1 <= q <= 15 && q > res ==> #[trigger] digit(value, q) == 7 {
        lemma_low_ones(value, res, (15 - res) as u64);
        lemma_tail_bits(value, mask, ub, 0, 0, 0);
    }
}

/// The complemented bits below chunk `j` are zero when the `j` finest
/// directions are all 7.
proof fn lemma_low_ones(value: u64, res: u64, j: u64)
    requires
        res <= 15,
        j <= 15 - res,
        forall|q: u8| 1 <= q <= 15 && q > res ==> #[trigger] digit(value, q) == 7,
    ensures
        (!value) & !(0xffff_ffff_ffff_ffffu64 << (3 * j) as u64) == 0,
    decreases j,
{
    if j == 0 {
        lemma_tail_bits(value, 0, 0, 0, 0, 0);
    } else {
        lemma_low_ones(value, res, (j - 1) as u64);
        let q = (16 - j) as u8;
        let s = (3 * (j - 1)) as u64;
        assert(digit_offset(q) == s);
        assert(digit(value, q) == 7);
        lemma_masks();
        let t = (3 * j) as u64;
        lemma_tail_bits(value, 0, 0, 0, s, t);
    }
}

/// The leading-zeros test on the left-aligned used directions tells
/// whether the first non-center direction is the `K` axe.
#[verifier::rlimit(30)]
proof fn lemma_deleted_subsequence(
    value: u64,
    res: u64,
    ub: u64,
    dm: u64,
    dirs: u64,
    off: u64,
    x: u64,
    lz: int,
)
    requires
        1 <= res <= 15,
        ub == 3 * (15 - res),
        dm + 1 == 1u64 << (3 * res) as u64,
        dirs == (value >> ub) & dm,
        off == 64 - 3 * res,
        x == dirs << off,
        lz == u64_leading_zeros(x),
    ensures
        ((lz + 1) % 3 == 0) <==> leading_digit(value, 1, res as u8) == 1,
{
    let w = (3 * res) as u64;
    assert forall|q: u8| 1 <= q <= res implies ((x >> (64 - 3 * q) as u64) & 7u64) as u8
        == #[trigger] digit(value, q) by {
        let s = (64 - 3 * q) as u64;
        let o = digit_offset(q);
        let q3 = (3 * q) as u64;
        lemma_masks();
        lemma_aligned_bits(value, ub, dm, w, off, x, s, o, q3, 0, 0, 0);
    }
    axiom_u64_leading_zeros(x);
    let l = u64_leading_zeros(x) as u64;
    if x == 0 {
        assert forall|q: u8| 1 <= q <= res implies #[trigger] digit(value, q) == 0 by {
            let s = (64 - 3 * q) as u64;
            lemma_aligned_bits(value, ub, dm, w, off, x, s, 0, 0, 0, 0, 0);
        }
        lemma_leading_digit(value, 1, res as u8, 16);
        assert(l == 64);
    } else {
        let t = (63 - l) as u64;
        lemma_aligned_bits(value, ub, dm, w, off, x, 0, 0, 0, t, 0, 0);
        let k = l / 3;
        let m = l % 3;
        assert(l == 3 * k + m);
        assert(k < res);
        assert forall|q: u8| 1 <= q <= k implies #[trigger] digit(value, q) == 0 by {
            let s = (64 - 3 * q) as u64;
            let z = (64 - l) as u64;
            lemma_aligned_bits(value, ub, dm, w, off, x, s, 0, 0, 0, z, 0);
        }
        let p = (k + 1) as u8;
        let s = (61 - 3 * k) as u64;
        let z = (64 - l) as u64;
        lemma_aligned_bits(value, ub, dm, w, off, x, s, 0, 0, t, z, m);
        assert(1 <= p <= res);
        assert((64 - 3 * p) as u64 == s);
        assert(((x >> s) & 7u64) as u8 == digit(value, p));
        lemma_masks();
        assert(digit(value, p) as u64 == (x >> s) & 7u64);
        lemma_leading_digit(value, 1, res as u8, p);
    }
}

/// Checks if there is at least one unused direction (the `0b111` pattern)
/// in the given directions.
///
/// This is Alan Mycroft's null-byte detection (`(v - lo) & !v & hi`),
/// applied to the complement of 3-bit chunks.
fn has_unused_direction(dirs: u64) -> (b: bool)
    requires
        dirs <= 0x1fff_ffff_ffffu64,
    ensures
        b == any_unused_chunk(dirs),
{
    let lo_magic: u64 = 0b001_001_001_001_001_001_001_001_001_001_001_001_001_001_001;
    let hi_magic: u64 = 0b100_100_100_100_100_100_100_100_100_100_100_100_100_100_100;
    proof {
        lemma_tail_bits(dirs, 0, 0, 0, 0, 0);
    }
    let t = !dirs - lo_magic;
    proof {
        lemma_unused_chunk_detection(dirs, t);
    }
    (t & (dirs & hi_magic)) != 0
}

// -----------------------------------------------------------------------------

/// Represents a cell (hexagon or pentagon) in the H3 grid system at a
/// particular resolution.
///
/// The index is encoded on 64-bit with the following bit layout:
///
/// ```text
///  ┏━┳━━━┳━━━━┳━━━━┳━━━━━━━┳━━━┳━━━┳━┈┈┈┈┈┈┈┈━┳━━━┳━━━┓
///  ┃U┃ M ┃ U  ┃ R  ┃ B     ┃C₀ ┃C₁ ┃          ┃C₁₄┃C₁₅┃
///  ┗━┻━━━┻━━━━┻━━━━┻━━━━━━━┻━━━┻━━━┻━┈┈┈┈┈┈┈┈━┻━━━┻━━━┛
/// 64 63 59   56   52      45  42  39          6   3   0
/// ```
///
/// Where:
/// - `U` are unused reserved bit, always set to 0 (bit 63 and bits 56-58).
/// - `M` is the index mode, always set to 1, coded on 4 bits (59-62).
/// - `R` is the cell resolution, in [0; 15], coded on 4 bits (52-55).
/// - `B` is the base cell, in [0; 121], coded on 7 bits (45-51)
/// - `C` are cells, coded on 3 bits each, with either a value in [0; 6] or the
///   pattern `0b111` if unused.
///
/// Cells are ordered by their bits with the resolution ignored: along with
/// the index the value keeps that ordering key, first, so that the derived
/// ordering follows it.
#[derive(Clone, Copy, Debug, Eq, PartialEq, Hash, Ord, PartialOrd, Structural)]
pub struct CellIndex {
    key: u64,
    bits: u64,
}

impl View for CellIndex {
    type V = u64;

    closed spec fn view(&self) -> u64 {
        self.bits
    }
}

impl CellIndex {
    /// The ordering key agrees with the index bits.
    pub closed spec fn key_ok(self) -> bool {
        self.key == order_key(self.bits)
    }

    /// Every cell index holds valid bits.
    #[verifier::type_invariant]
    pub open spec fn inv(self) -> bool {
        is_valid_cell(self@) && self.key_ok()
    }

    /// The cell index holding `value`.
    pub closed spec fn spec_from_bits(value: u64) -> Self {
        CellIndex { key: order_key(value), bits: value }
    }

    /// The cell index holding `value` holds it, with its ordering key.
    pub proof fn lemma_from_bits(value: u64)
        ensures
            Self::spec_from_bits(value)@ == value,
            Self::spec_from_bits(value).key_ok(),
    {
    }

    /// Two well-formed cell indexes are equal iff their bits are.
    pub proof fn lemma_eq(a: Self, b: Self)
        requires
            a.key_ok(),
            b.key_ok(),
        ensures
            (a == b) <==> (a@ == b@),
    {
    }

    /// Initializes a new cell index from a value known to be valid.
    pub fn new_unchecked(value: u64) -> (c: Self)
        requires
            is_valid_cell(value),
        ensures
            c@ == value,
            c == Self::spec_from_bits(value),
    {
        // Cells are ordered ignoring their resolution.
        CellIndex { key: h3o_bit::clr_resolution(value), bits: value }
    }

    /// Returns the 64-bit value of the index.
    pub fn to_u64(self) -> (v: u64)
        ensures
            v == self@,
            is_valid_cell(v),
    {
        proof {
            use_type_invariant(&self);
        }
        self.bits
    }

    /// Converts a 64-bit value into a cell index, checking its validity.
    pub fn try_from_u64(value: u64) -> (r: Result<Self, InvalidCellIndex>)
        ensures
            r is Ok <==> is_valid_cell(value),
            r matches Ok(c) ==> c@ == value && c == Self::spec_from_bits(value),
            r matches Err(e) ==> e.value == Some(value),
    {
        if (value >> 56) & 0b1000_0111 != 0 {
            return Err(InvalidCellIndex { value: Some(value) });
        }
        if bits::get_mode(value) != IndexMode::Cell.to_u8() {
            return Err(InvalidCellIndex { value: Some(value) });
        }
        let base = match BaseCell::try_from_u8(h3o_bit::get_base_cell(value)) {
            Ok(base) => base,
            Err(_) => {
                proof {
                    lemma_field_masks(value);
                }
                return Err(InvalidCellIndex { value: Some(value) });
            },
        };
        proof {
            lemma_field_masks(value);
            lemma_masks();
        }

        // Resolution is always valid: coded on 4 bits, valid range is [0; 15].
        let resolution = bits::get_resolution(value).to_u8() as u64;

        // Check that we have a tail of unused cells after `resolution` cells.
        let unused_count = 15 - resolution;
        let unused_bitsize = unused_count * 3;
        proof {
            lemma_masks();
            assert((1u64 << unused_bitsize) >= 1u64);
        }
        let unused_mask = (1u64 << unused_bitsize) - 1;
        proof {
            lemma_unused_tail(value, resolution, unused_bitsize, unused_mask);
        }
        if (!value) & unused_mask != 0 {
            return Err(InvalidCellIndex { value: Some(value) });
        }

        // Check that we have `resolution` valid cells (no unused ones).
        let shift = resolution * 3;
        proof {
            assert((1u64 << shift) >= 1u64);
        }
        let dirs_mask = (1u64 << shift) - 1;
        let dirs = (value >> unused_bitsize) & dirs_mask;
        proof {
            lemma_dirs_bound(value, resolution, unused_bitsize, dirs_mask, dirs);
            lemma_dirs_unused(value, resolution, unused_bitsize, dirs_mask, dirs);
        }
        if has_unused_direction(dirs) {
            return Err(InvalidCellIndex { value: Some(value) });
        }
        proof {
            assert forall|q: u8|
                1 <= q <= 15 && q <= resolution_of(value) implies #[trigger] digit(value, q)
                <= 6 by {
                lemma_digit_bound(value, q);
            }
        }

        // Check for pentagons with deleted subsequence.
        if base.is_pentagon() && resolution != 0 {
            // Move directions to the front, so that we can count leading
            // zeroes.
            let offset = 64 - shift;
            let x = dirs << offset;
            let lz = x.leading_zeros();
            proof {
                lemma_deleted_subsequence(
                    value,
                    resolution,
                    unused_bitsize,
                    dirs_mask,
                    dirs,
                    offset,
                    x,
                    lz as int,
                );
            }
            // Find the position of the first bit set, if it's a multiple of 3
            // that means we have a K axe as the first non-center direction,
            // which is forbidden.
            if (lz + 1) % 3 == 0 {
                return Err(InvalidCellIndex { value: Some(value) });
            }
        }
        proof {
            assert((value >> 56u64) & 0x87u64 == 0);
            if resolution == 0 {
                assert(leading_digit(value, 1, 0) == 0);
            }
        }
        Ok(Self::new_unchecked(value))
    }

    /// Returns the resolution of the index.
    pub fn resolution(self) -> (r: Resolution)
        ensures
            res_value(r) == resolution_of(self@),
    {
        bits::get_resolution(self.bits)
    }

    /// Returns the base cell of the index.
    pub fn base_cell(self) -> (b: BaseCell)
        ensures
            b.value() == base_cell_of(self@),
    {
        proof {
            use_type_invariant(&self);
        }
        let value = h3o_bit::get_base_cell(self.bits);
        proof {
            let v = self.bits;
            lemma_field_masks(v);
            lemma_masks();
        }
        BaseCell::new_unchecked(value)
    }

    /// Returns true if this index represents a pentagonal cell.
    pub fn is_pentagon(self) -> (b: bool)
        ensures
            b == is_pentagon_cell(self@),
    {
        let bits = self.bits;
        let base = self.base_cell();

        let resolution = bits::get_resolution(bits).to_u8() as u64;
        let unused_count = 15 - resolution;
        let unused_bitsize = unused_count * 3;
        let shift = resolution * 3;
        proof {
            lemma_masks();
            assert((1u64 << shift) >= 1u64);
        }
        let dirs_mask = (1u64 << shift) - 1;
        let dirs = (bits >> unused_bitsize) & dirs_mask;
        proof {
            lemma_dirs_zero(bits, resolution, unused_bitsize, dirs_mask, dirs);
        }

        // Pentagonal cells always have all directions but the base one set to
        // 0.
        base.is_pentagon() && dirs == 0
    }

    /// Returns the maximum number of icosahedron faces the index may
    /// intersect: 5 for a pentagon, 2 for an hexagon.
    pub fn max_face_count(self) -> (n: usize)
        ensures
            n == if is_pentagon_cell(self@) {
                5usize
            } else {
                2usize
            },
    {
        if self.is_pentagon() {
            5
        } else {
            2
        }
    }
}

/// 7 to the power `n`: the number of children of an hexagon `n`
/// resolutions below.
pub open spec fn hexagon_children(n: nat) -> nat {
    pow7(n)
}

/// The number of children of a pentagon `n` resolutions below: the
/// center pentagon child, plus five hexagonal sub-trees at each level
/// (which amounts to `1 + 5 * (7^n - 1) / 6`).
pub open spec fn pentagon_children(n: nat) -> nat
    decreases n,
{
    if n == 0 {
        1
    } else {
        pentagon_children((n - 1) as nat) + 5 * pow7((n - 1) as nat)
    }
}

/// The number of children, at resolution `r`, of the cell `bits`.
pub open spec fn children_count_of(bits: u64, r: u8) -> nat {
    if resolution_of(bits) > r {
        0
    } else if is_pentagon_cell(bits) {
        pentagon_children((r - resolution_of(bits)) as nat)
    } else {
        hexagon_children((r - resolution_of(bits)) as nat)
    }
}

/// Number of hexagonal children `n` resolutions below (`n <= 15`).
pub(crate) fn hexagon_children_count(n: usize) -> (c: u64)
    requires
        n <= 15,
    ensures
        c == hexagon_children(n as nat),
{
    proof {
        reveal_with_fuel(pow7, 16);
    }
    match n {
        0 => 1,
        1 => 7,
        2 => 49,
        3 => 343,
        4 => 2401,
        5 => 16_807,
        6 => 117_649,
        7 => 823_543,
        8 => 5_764_801,
        9 => 40_353_607,
        10 => 282_475_249,
        11 => 1_977_326_743,
        12 => 13_841_287_201,
        13 => 96_889_010_407,
        14 => 678_223_072_849,
        _ => 4_747_561_509_943,
    }
}

/// Number of pentagonal children `n` resolutions below (`n <= 15`).
#[verifier::rlimit(50)]
pub(crate) fn pentagon_children_count(n: usize) -> (c: u64)
    requires
        n <= 15,
    ensures
        c == pentagon_children(n as nat),
{
    proof {
        reveal_with_fuel(pow7, 16);
        reveal_with_fuel(pentagon_children, 16);
    }
    match n {
        0 => 1,
        1 => 6,
        2 => 41,
        3 => 286,
        4 => 2001,
        5 => 14_006,
        6 => 98_041,
        7 => 686_286,
        8 => 4_804_001,
        9 => 33_628_006,
        10 => 235_396_041,
        11 => 1_647_772_286,
        12 => 11_534_406_001,
        13 => 80_740_842_006,
        14 => 565_185_894_041,
        _ => 3_956_301_258_286,
    }
}

/// The coarsening of a valid cell to resolution `r` is a valid cell.
pub proof fn lemma_parent_valid(b: u64, r: u8)
    requires
        is_valid_cell(b),
        r <= resolution_of(b),
    ensures
        is_valid_cell(with_unused(with_resolution(b, r), r)),
        resolution_of(with_unused(with_resolution(b, r), r)) == r,
        base_cell_of(with_unused(with_resolution(b, r), r)) == base_cell_of(b),
        forall|q: u8|
            1 <= q <= 15 ==> #[trigger] digit(with_unused(with_resolution(b, r), r), q) == if q
                <= r {
                digit(b, q)
            } else {
                7
            },
{
    let b1 = with_resolution(b, r);
    let b2 = with_unused(b1, r);
    lemma_masks();
    lemma_resolution_field(b, r);
    lemma_with_unused(b1, r);
    lemma_high_bits(b2, b1);
    bits::lemma_leading_congruent(b2, b, 1, r);
    bits::lemma_leading_prefix(b, 1, r, resolution_of(b));
}

/// What replacing the resolution field changes.
pub proof fn lemma_resolution_field(b: u64, r: u8)
    requires
        r <= 15,
    ensures
        resolution_of(with_resolution(b, r)) == r,
        mode_of(with_resolution(b, r)) == mode_of(b),
        base_cell_of(with_resolution(b, r)) == base_cell_of(b),
        field_of(with_resolution(b, r)) == field_of(b),
        with_resolution(b, r) >> 56u64 == b >> 56u64,
        forall|q: u8| 1 <= q <= 15 ==> #[trigger] digit(with_resolution(b, r), q) == digit(b, q),
{
    let v = r as u64;
    let x = with_resolution(b, r);
    lemma_field_writes(b, 0, 0, v);
    lemma_top_fields(x, b);
    assert forall|q: u8| 1 <= q <= 15 implies #[trigger] digit(x, q) == digit(b, q) by {
        lemma_low_fields(x, b, digit_offset(q));
    }
}

impl CellIndex {
    /// Returns the direction at the given resolution in the index, if any
    /// (none at resolution 0 or finer than the index).
    pub fn direction_at(self, resolution: Resolution) -> (d: Option<Direction>)
        ensures
            (res_value(resolution) != 0 && res_value(resolution) <= resolution_of(self@)) <==> d is Some,
            d matches Some(dir) ==> dir_value(dir) == digit(self@, res_value(resolution)),
    {
        proof {
            use_type_invariant(&self);
        }
        if resolution.to_u8() != 0 && resolution.to_u8() <= self.resolution().to_u8() {
            let value = bits::get_direction(self.bits, resolution);
            Some(Direction::new_unchecked(value))
        } else {
            None
        }
    }

    /// Returns the parent, at the specified resolution, of the cell: the
    /// directions finer than `resolution` are set to the unused pattern.
    pub fn parent(self, resolution: Resolution) -> (p: Option<Self>)
        ensures
            (res_value(resolution) <= resolution_of(self@)) <==> p is Some,
            p matches Some(c) ==> c@ == with_unused(
                with_resolution(self@, res_value(resolution)),
                res_value(resolution),
            ),
    {
        proof {
            use_type_invariant(&self);
        }
        if resolution.to_u8() <= self.resolution().to_u8() {
            let bits = bits::set_resolution(self.bits, resolution);
            let bits = bits::set_unused(bits, resolution);
            proof {
                lemma_parent_valid(self.bits, res_value(resolution));
            }
            Some(Self::new_unchecked(bits))
        } else {
            None
        }
    }

    /// Returns the center child index at the specified resolution: the
    /// directions between the two resolutions are set to the center one.
    pub fn center_child(self, resolution: Resolution) -> (c: Option<Self>)
        ensures
            (res_value(resolution) >= resolution_of(self@)) <==> c is Some,
            c matches Some(child) ==> {
                &&& child@ == child_bits(self@, res_value(resolution), 0)
                &&& child@ >> 45u64 == with_resolution(self@, res_value(resolution)) >> 45u64
                &&& forall|q: u8|
                    1 <= q <= 15 ==> #[trigger] digit(child@, q) == if resolution_of(self@) < q
                        <= res_value(resolution) {
                        0
                    } else {
                        digit(self@, q)
                    }
            },
    {
        proof {
            use_type_invariant(&self);
        }
        if resolution.to_u8() >= self.resolution().to_u8() {
            let start = self.resolution().direction_offset() as u64;
            let stop = resolution.direction_offset() as u64;
            let width = start - stop;
            proof {
                lemma_masks();
                assert((1u64 << width) >= 1u64);
            }
            let mask = (1u64 << width) - 1;

            let bits = bits::set_resolution(self.bits, resolution);
            let child = bits & !(mask << stop);
            proof {
                let b = self.bits;
                let r = res_value(resolution);
                let cur = resolution_of(b);
                lemma_resolution_field(b, r);
                assert(bits == with_resolution(b, r));
                assert(start == digit_offset(cur) && stop == digit_offset(r));
                assert forall|q: u8|
                    1 <= q <= 15 implies #[trigger] digit(child, q) == if cur < q <= r {
                        0
                    } else {
                        digit(b, q)
                    } by {
                    let o = digit_offset(q);
                    lemma_masks();
                    assert(digit(bits, q) == digit(b, q));
                    lemma_clear_bits(bits, mask, width, stop, o, 0);
                }
                lemma_clear_bits(bits, mask, width, stop, 0, 0);
                lemma_high_bits(child, bits);
                bits::lemma_leading_zero_ext(child, 1, cur, r);
                bits::lemma_leading_congruent(child, b, 1, cur);
                assert forall|q: u8|
                    1 <= q <= 15 && q <= resolution_of(child) implies #[trigger] digit(child, q)
                    <= 6 by {}
                assert forall|q: u8|
                    1 <= q <= 15 && q > resolution_of(child) implies #[trigger] digit(child, q)
                    == 7 by {}
                lemma_center_bits(b, r);
                assert(child >> 45u64 == child_bits(b, r, 0) >> 45u64);
                bits::lemma_bits_ext(child, child_bits(b, r, 0));
            }
            Some(Self::new_unchecked(child))
        } else {
            None
        }
    }

    /// Returns the exact number of children for a cell at a given
    /// resolution: 0 for a coarser resolution, `7^n` for an hexagon and
    /// `1 + 5 * (7^n - 1) / 6` for a pentagon, `n` resolutions below.
    pub fn children_count(self, resolution: Resolution) -> (n: u64)
        ensures
            n == children_count_of(self@, res_value(resolution)),
    {
        let resolution = resolution.to_u8() as usize;
        let curr_resolution = bits::get_resolution(self.bits).to_u8() as usize;
        if curr_resolution > resolution {
            return 0;
        }
        if curr_resolution == resolution {
            proof {
                assert(pow7(0) == 1);
            }
            return 1;
        }

        let n = resolution - curr_resolution;
        let mut res = hexagon_children_count(n);
        if self.is_pentagon() {
            res = pentagon_children_count(n);
        }
        res
    }

    /// Returns the number of vertices of the cell: 5 for a pentagon, 6 for
    /// an hexagon.
    pub fn vertex_count(self) -> (n: u8)
        ensures
            n == if is_pentagon_cell(self@) {
                5u8
            } else {
                6u8
            },
    {
        if self.is_pentagon() {
            crate::NUM_PENT_VERTS
        } else {
            crate::NUM_HEX_VERTS
        }
    }

    /// The first cell index at the given resolution: base cell 0 and only
    /// center directions.
    pub fn first(resolution: Resolution) -> (c: Self)
        ensures
            c@ == with_unused(with_resolution(0x0800_0000_0000_0000u64, res_value(resolution)), res_value(resolution)),
    {
        let bits = bits::set_resolution(0x0800_0000_0000_0000, resolution);
        let bits = bits::set_unused(bits, resolution);
        proof {
            let b = 0x0800_0000_0000_0000u64;
            let r = res_value(resolution);
            assert forall|q: u8| 1 <= q <= 15 implies #[trigger] digit(b, q) == 0 by {
                lemma_template_bits(0, digit_offset(q));
            }
            lemma_template_bits(0, 0);
            lemma_template_cell(b, r, 0);
        }
        Self::new_unchecked(bits)
    }

    /// The last cell index at the given resolution: base cell 121 and only
    /// `IJ` directions.
    pub fn last(resolution: Resolution) -> (c: Self)
        ensures
            c@ == with_unused(with_resolution(0x080f_3b6d_b6db_6db6u64, res_value(resolution)), res_value(resolution)),
    {
        let bits = bits::set_resolution(0x080f_3b6d_b6db_6db6, resolution);
        let bits = bits::set_unused(bits, resolution);
        proof {
            let b = 0x080f_3b6d_b6db_6db6u64;
            let r = res_value(resolution);
            assert forall|q: u8| 1 <= q <= 15 implies #[trigger] digit(b, q) == 6 by {
                lemma_template_bits(0, digit_offset(q));
            }
            lemma_template_bits(0, 0);
            lemma_template_cell(b, r, 6);
        }
        Self::new_unchecked(bits)
    }

    /// Returns all the base cell indexes, in increasing order.
    pub fn base_cells() -> (v: Vec<Self>)
        ensures
            v@.len() == 122,
            forall|i: int|
                0 <= i < 122 ==> (#[trigger] v@[i])@ == (crate::DEFAULT_CELL_INDEX
                    & !0x000f_e000_0000_0000u64) | ((i as u64) << 45u64),
    {
        let mut v: Vec<Self> = Vec::new();
        let mut base_cell: u8 = 0;
        while base_cell < 122
            invariant
                base_cell <= 122,
                v@.len() == base_cell,
                forall|i: int|
                    0 <= i < base_cell ==> (#[trigger] v@[i])@ == (crate::DEFAULT_CELL_INDEX
                        & !0x000f_e000_0000_0000u64) | ((i as u64) << 45u64),
            decreases 122 - base_cell,
        {
            let bits = h3o_bit::set_base_cell(crate::DEFAULT_CELL_INDEX, base_cell);
            proof {
                lemma_base_cell_template(base_cell);
            }
            v.push(Self::new_unchecked(bits));
            base_cell = base_cell + 1;
        }
        v
    }
}

/// The pentagon, at resolution `r`, over the pentagonal base cell `b`: only
/// center directions.
pub open spec fn pentagon_cell(b: u8, r: u8) -> u64 {
    with_unused(
        with_resolution((0x0800_0000_0000_0000u64 & !0x000f_e000_0000_0000u64) | ((b as u64) << 45u64), r),
        r,
    )
}

/// The pentagonal base cells, in increasing order.
pub open spec fn pentagon_bases() -> Seq<u8> {
    seq![4u8, 14, 24, 38, 49, 58, 63, 72, 83, 97, 107, 117]
}

/// The number of pentagonal base cells below `i`.
pub open spec fn pentagons_below(i: int) -> int {
    if i <= 4 {
        0
    } else if i <= 14 {
        1
    } else if i <= 24 {
        2
    } else if i <= 38 {
        3
    } else if i <= 49 {
        4
    } else if i <= 58 {
        5
    } else if i <= 63 {
        6
    } else if i <= 72 {
        7
    } else if i <= 83 {
        8
    } else if i <= 97 {
        9
    } else if i <= 107 {
        10
    } else if i <= 117 {
        11
    } else {
        12
    }
}

/// The pentagon over a pentagonal base cell is a valid pentagon cell.
proof fn lemma_pentagon_cell(b: u8, r: u8)
    requires
        is_pentagon_base(b),
        r <= 15,
    ensures
        is_valid_cell(pentagon_cell(b, r)),
        is_pentagon_cell(pentagon_cell(b, r)),
        resolution_of(pentagon_cell(b, r)) == r,
        base_cell_of(pentagon_cell(b, r)) == b,
{
    let v = b as u64;
    let x = (0x0800_0000_0000_0000u64 & !0x000f_e000_0000_0000u64) | (v << 45u64);
    lemma_template_bits(v, 0);
    assert forall|q: u8| 1 <= q <= 15 implies #[trigger] digit(x, q) == 0 by {
        lemma_template_bits(v, digit_offset(q));
    }
    let b1 = with_resolution(x, r);
    let b2 = with_unused(b1, r);
    lemma_resolution_field(x, r);
    lemma_with_unused(b1, r);
    lemma_high_bits(b2, b1);
    bits::lemma_leading_zero_iff(b2, 1, r);
}

/// The pentagons of a resolution are exactly the cells `pentagons` lists:
/// every valid pentagon cell is the one over its pentagonal base cell.
pub proof fn law_pentagons_complete(e: u64)
    requires
        is_valid_cell(e),
        is_pentagon_cell(e),
    ensures
        exists|i: int| 0 <= i < 12 && e == #[trigger] pentagon_cell(pentagon_bases()[i], resolution_of(e)),
{
    let b = base_cell_of(e);
    let r = resolution_of(e);
    lemma_masks();
    let i: int = if b == 4 { 0 } else if b == 14 { 1 } else if b == 24 { 2 } else if b == 38 { 3 }
        else if b == 49 { 4 } else if b == 58 { 5 } else if b == 63 { 6 } else if b == 72 { 7 }
        else if b == 83 { 8 } else if b == 97 { 9 } else if b == 107 { 10 } else { 11 };
    assert(pentagon_bases()[i] == b);
    let x = pentagon_cell(b, r);
    lemma_pentagon_cell(b, r);
    lemma_field_masks(e);
    lemma_field_masks(x);
    assert((e >> 59u64) & 0xfu64 == 1 && (x >> 59u64) & 0xfu64 == 1);
    lemma_top_fields(e, x);
    assert forall|q: u8| 1 <= q <= 15 implies #[trigger] digit(e, q) == digit(x, q) by {
        if q <= r {
            assert(digit(e, q) == 0 && digit(x, q) == 0);
        }
    }
    bits::lemma_bits_ext(e, x);
}

impl Resolution {
    /// Returns the 12 pentagons at this resolution, in increasing order of
    /// their base cells.
    pub fn pentagons(self) -> (v: Vec<CellIndex>)
        ensures
            v@.len() == 12,
            forall|i: int|
                0 <= i < 12 ==> (#[trigger] v@[i])@ == pentagon_cell(pentagon_bases()[i], res_value(self)),
            forall|i: int| 0 <= i < 12 ==> is_pentagon_cell(#[trigger] v@[i]@),
    {
        // Template for a resolution 0 index: cell mode, resolution 0, all
        // directions at 0.
        let template: u64 = 0x0800_0000_0000_0000;
        let base_cells = BaseCell::all();
        let mut v: Vec<CellIndex> = Vec::new();
        let mut i: usize = 0;
        while i < base_cells.len()
            invariant
                template == 0x0800_0000_0000_0000u64,
                base_cells@.len() == 122,
                forall|j: int| 0 <= j < 122 ==> (#[trigger] base_cells@[j]).value() == j,
                i <= 122,
                v@.len() == pentagons_below(i as int),
                forall|j: int|
                    0 <= j < v@.len() ==> (#[trigger] v@[j])@ == pentagon_cell(
                        pentagon_bases()[j],
                        res_value(self),
                    ),
                forall|j: int| 0 <= j < v@.len() ==> is_pentagon_cell(#[trigger] v@[j]@),
            decreases 122 - i,
        {
            let base_cell = base_cells[i];
            if base_cell.is_pentagon() {
                let b = base_cell.to_u8();
                assert(b == i as u8);
                let bits0 = h3o_bit::set_base_cell(template, b);
                let bits1 = bits::set_resolution(bits0, self);
                let bits = bits::set_unused(bits1, self);
                proof {
                    lemma_pentagon_cell(b, res_value(self));
                    assert(bits == pentagon_cell(b, res_value(self)));
                    assert(pentagon_bases()[pentagons_below(i as int)] == i);
                }
                v.push(CellIndex::new_unchecked(bits));
            }
            i = i + 1;
        }
        v
    }
}

/// The resolution 0 template with base cell `b` is a valid cell.
pub(crate) proof fn lemma_base_cell_template(b: u8)
    requires
        b < 122,
    ensures
        is_valid_cell((0x0800_1fff_ffff_ffffu64 & !0x000f_e000_0000_0000u64) | ((b as u64) << 45u64)),
{
    let v = b as u64;
    let x = (0x0800_1fff_ffff_ffffu64 & !0x000f_e000_0000_0000u64) | (v << 45u64);
    lemma_template_bits(v, 0);
    assert forall|q: u8| 1 <= q <= 15 implies #[trigger] digit(x, q) == 7 by {
        lemma_template_bits(v, digit_offset(q));
    }
    assert(leading_digit(x, 1, 0) == 0);
}

/// A resolution 0 cell template whose directions are all `d`, set to
/// resolution `r` with the finer directions unused, is a valid cell.
proof fn lemma_template_cell(b: u64, r: u8, d: u8)
    requires
        r <= 15,
        d == 0 || d == 6,
        (b >> 56u64) & 0x87u64 == 0,
        mode_of(b) == 1,
        base_cell_of(b) < 122,
        !is_pentagon_base(base_cell_of(b)),
        forall|q: u8| 1 <= q <= 15 ==> #[trigger] digit(b, q) == d,
    ensures
        is_valid_cell(with_unused(with_resolution(b, r), r)),
{
    let b1 = with_resolution(b, r);
    let b2 = with_unused(b1, r);
    lemma_resolution_field(b, r);
    lemma_with_unused(b1, r);
    lemma_high_bits(b2, b1);
}

impl TryFrom<u64> for CellIndex {
    type Error = InvalidCellIndex;

    fn try_from(value: u64) -> (r: Result<Self, Self::Error>) {
        Self::try_from_u64(value)
    }
}

impl vstd::std_specs::convert::TryFromSpecImpl<u64> for CellIndex {
    open spec fn obeys_try_from_spec() -> bool {
        true
    }

    open spec fn try_from_spec(v: u64) -> Result<Self, Self::Error> {
        if is_valid_cell(v) {
            Ok(CellIndex::spec_from_bits(v))
        } else {
            Err(InvalidCellIndex { value: Some(v) })
        }
    }
}

impl From<CellIndex> for u64 {
    fn from(value: CellIndex) -> (v: u64) {
        value.to_u64()
    }
}

impl vstd::std_specs::convert::FromSpecImpl<CellIndex> for u64 {
    open spec fn obeys_from_spec() -> bool {
        true
    }

    open spec fn from_spec(v: CellIndex) -> u64 {
        v@
    }
}

} // verus!
