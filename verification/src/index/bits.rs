//! Bit twiddling on the 64-bit H3 index representation.
//!
//! Layout (most significant bit first): 1 reserved bit, 4 bits of mode,
//! 3 bits of mode-dependent data (edge or vertex number), 4 bits of
//! resolution, 7 bits of base cell and 15 directions of 3 bits each (the
//! direction at resolution `r` sits at bit offset `3 * (15 - r)`).
use crate::direction::{dir_value, rot, rot_once, Direction};
use crate::index::bitvec::{
    lemma_digit_write, lemma_field_masks, lemma_field_writes, lemma_fill_low, lemma_high_fields,
    lemma_direction_bits, lemma_low_fields, lemma_masks, lemma_shift_ext, lemma_top_fields,
};
use crate::index::edge::Edge;
use crate::index::mode::{mode_value, IndexMode};
use crate::index::vertex::Vertex;
use crate::resolution::{res_from, res_value, Resolution};
use vstd::prelude::*;
use vstd::std_specs::bits::{axiom_u64_leading_zeros, u64_leading_zeros};

verus! {

/// Offset (in bits) of the mode in an H3 index.
pub const MODE_OFFSET: u64 = 59;
/// Bitmask selecting the mode of an H3 index.
pub const MODE_MASK: u64 = 0x7800_0000_0000_0000;
/// Offset (in bits) of the cell edge (or vertex) in an H3 index.
pub const EDGE_OFFSET: u64 = 56;
/// Bitmask selecting the cell edge (or vertex) of an H3 index.
pub const EDGE_MASK: u64 = 0x0700_0000_0000_0000;
/// Bitmask to select the directions bits in an H3 index.
pub const DIRECTIONS_MASK: u64 = 0x0000_1fff_ffff_ffff;

// -----------------------------------------------------------------------------
// Model of the index bits.

/// The mode bits of an index.
pub open spec fn mode_of(bits: u64) -> u8 {
    ((bits >> 59u64) & 0xfu64) as u8
}

/// The 3 bits holding the edge (or vertex) number of an index.
pub open spec fn field_of(bits: u64) -> u8 {
    ((bits >> 56u64) & 7u64) as u8
}

/// The resolution bits of an index.
pub open spec fn resolution_of(bits: u64) -> u8 {
    ((bits >> 52u64) & 0xfu64) as u8
}

/// The base cell bits of an index.
pub open spec fn base_cell_of(bits: u64) -> u8 {
    ((bits >> 45u64) & 0x7fu64) as u8
}

/// Bit offset of the direction at resolution `r` (for `r` in `[0, 15]`).
pub open spec fn digit_offset(r: u8) -> u64 {
    ((15 - r) * 3) as u64
}

/// The direction digit at resolution `r` (for `r` in `[1, 15]`).
pub open spec fn digit(bits: u64, r: u8) -> u8 {
    ((bits >> digit_offset(r)) & 7u64) as u8
}

/// The bits with the direction at resolution `r` replaced by `d`.
pub open spec fn with_digit(bits: u64, r: u8, d: u8) -> u64 {
    (bits & !(7u64 << digit_offset(r))) | ((d as u64) << digit_offset(r))
}

/// The bits with every direction finer than `r` set to the unused pattern.
pub open spec fn with_unused(bits: u64, r: u8) -> u64 {
    bits | !(0xffff_ffff_ffff_ffffu64 << digit_offset(r))
}

/// The first non-zero digit among the resolutions `lo..=hi`, 0 if all of
/// them are zero.
pub open spec fn leading_digit(bits: u64, lo: u8, hi: u8) -> u8
    decreases 16 - lo,
{
    if lo > hi || lo > 15 || lo == 0 {
        0
    } else if digit(bits, lo) != 0 {
        digit(bits, lo)
    } else {
        leading_digit(bits, (lo + 1) as u8, hi)
    }
}

// -----------------------------------------------------------------------------
// Trusted specifications of the `h3o_bit` crate.

/// `h3o_bit::get_resolution` reads bits 52 to 55.
pub assume_specification[ h3o_bit::get_resolution ](value: u64) -> (r: u8)
    ensures
        r == ((value & 0x00f0_0000_0000_0000u64) >> 52u64) as u8,
;

/// `h3o_bit::clr_resolution` zeroes bits 52 to 55.
pub assume_specification[ h3o_bit::clr_resolution ](value: u64) -> (r: u64)
    ensures
        r == value & !0x00f0_0000_0000_0000u64,
;

/// `h3o_bit::set_resolution` writes `res` at bit 52, over zeroed bits
/// 52 to 55.
pub assume_specification[ h3o_bit::set_resolution ](value: u64, res: u8) -> (r: u64)
    ensures
        r == (value & !0x00f0_0000_0000_0000u64) | ((res as u64) << 52u64),
;

/// `h3o_bit::get_base_cell` reads bits 45 to 51.
pub assume_specification[ h3o_bit::get_base_cell ](value: u64) -> (r: u8)
    ensures
        r == ((value & 0x000f_e000_0000_0000u64) >> 45u64) as u8,
;

/// `h3o_bit::set_base_cell` writes `base` at bit 45, over zeroed bits 45 to
/// 51.
pub assume_specification[ h3o_bit::set_base_cell ](value: u64, base: u8) -> (r: u64)
    ensures
        r == (value & !0x000f_e000_0000_0000u64) | ((base as u64) << 45u64),
;

/// `h3o_bit::direction_offset` is `(15 - res) * 3` (it underflows
/// above 15).
pub assume_specification[ h3o_bit::direction_offset ](res: u8) -> (r: usize)
    requires
        res <= 15,
    ensures
        r == (15 - res) * 3,
;

/// `h3o_bit::get_direction` reads the 3 value at `direction_offset`; its
/// debug assertion refuses res 0.
pub assume_specification[ h3o_bit::get_direction ](value: u64, res: u8) -> (r: u8)
    requires
        1 <= res <= 15,
    ensures
        r == ((value & (7u64 << ((15 - res) * 3) as u64)) >> ((15 - res)
            * 3) as u64) as u8,
;

/// `h3o_bit::clr_direction` zeroes the 3 value at `direction_offset`; its
/// debug assertion refuses res 0.
pub assume_specification[ h3o_bit::clr_direction ](value: u64, res: u8) -> (r: u64)
    requires
        1 <= res <= 15,
    ensures
        r == value & !(7u64 << ((15 - res) * 3) as u64),
;

/// `h3o_bit::set_direction` writes `dir` at `direction_offset`, over
/// zeroed value; its debug assertion refuses res 0.
pub assume_specification[ h3o_bit::set_direction ](
    value: u64,
    res: u8,
    dir: u8,
) -> (r: u64)
    requires
        1 <= res <= 15,
    ensures
        r == (value & !(7u64 << ((15 - res) * 3) as u64)) | ((dir as u64) << ((15
            - res) * 3) as u64),
;

// -----------------------------------------------------------------------------
// Bit-level lemmas.

/// Writing a direction changes that direction only.
pub proof fn lemma_with_digit(bits: u64, r: u8, d: u8)
    requires
        1 <= r <= 15,
        d <= 7,
    ensures
        digit(with_digit(bits, r, d), r) == d,
        forall|q: u8|
            1 <= q <= 15 && q != r ==> #[trigger] digit(with_digit(bits, r, d), q) == digit(
                bits,
                q,
            ),
        with_digit(bits, r, d) >> 45u64 == bits >> 45u64,
        mode_of(with_digit(bits, r, d)) == mode_of(bits),
        field_of(with_digit(bits, r, d)) == field_of(bits),
        resolution_of(with_digit(bits, r, d)) == resolution_of(bits),
        base_cell_of(with_digit(bits, r, d)) == base_cell_of(bits),
{
    let o = digit_offset(r);
    let x = with_digit(bits, r, d);
    let dd = d as u64;
    assert(x == (bits & !(7u64 << o)) | (dd << o));
    lemma_digit_write(bits, o, dd, o);
    assert forall|q: u8| 1 <= q <= 15 && q != r implies #[trigger] digit(x, q) == digit(bits, q) by {
        let p = digit_offset(q);
        assert(p != o);
        lemma_digit_write(bits, o, dd, p);
    }
    lemma_high_bits(x, bits);
}

/// Indexes agreeing on their bits from 45 up agree on every field above
/// the directions.
pub proof fn lemma_high_bits(x: u64, y: u64)
    requires
        x >> 45u64 == y >> 45u64,
    ensures
        mode_of(x) == mode_of(y),
        field_of(x) == field_of(y),
        resolution_of(x) == resolution_of(y),
        base_cell_of(x) == base_cell_of(y),
        x >> 56u64 == y >> 56u64,
{
    lemma_high_fields(x, y);
}

/// Filling the unused directions finer than `r` sets them to 7 and keeps the
/// others.
pub proof fn lemma_with_unused(bits: u64, r: u8)
    requires
        r <= 15,
    ensures
        forall|q: u8|
            1 <= q <= 15 ==> #[trigger] digit(with_unused(bits, r), q) == if q > r {
                7
            } else {
                digit(bits, q)
            },
        with_unused(bits, r) >> 45u64 == bits >> 45u64,
        mode_of(with_unused(bits, r)) == mode_of(bits),
        field_of(with_unused(bits, r)) == field_of(bits),
        resolution_of(with_unused(bits, r)) == resolution_of(bits),
        base_cell_of(with_unused(bits, r)) == base_cell_of(bits),
{
    let o = digit_offset(r);
    let x = with_unused(bits, r);
    assert(x == bits | !(0xffff_ffff_ffff_ffffu64 << o));
    assert forall|q: u8| 1 <= q <= 15 implies #[trigger] digit(x, q) == if q > r {
        7
    } else {
        digit(bits, q)
    } by {
        let p = digit_offset(q);
        lemma_fill_low(bits, o, p);
    }
    lemma_fill_low(bits, o, 0);
    lemma_high_bits(x, bits);
}

/// A digit is at most 7.
pub proof fn lemma_digit_bound(bits: u64, r: u8)
    ensures
        digit(bits, r) <= 7,
{
    lemma_masks();
}

/// Two indexes agreeing on the bits above 45 and on every direction are
/// equal.
pub proof fn lemma_bits_ext(x: u64, y: u64)
    requires
        x >> 45u64 == y >> 45u64,
        forall|q: u8| 1 <= q <= 15 ==> #[trigger] digit(x, q) == digit(y, q),
    ensures
        x == y,
{
    lemma_bits_ext_upto(x, y, 15);
    lemma_masks();
    assert(x >> 0u64 == x && y >> 0u64 == y);
}

/// Agreement from bit 45 up and on the directions up to resolution `q`
/// is agreement above the direction of resolution `q`, included.
pub proof fn lemma_bits_ext_upto(x: u64, y: u64, q: u8)
    requires
        q <= 15,
        x >> 45u64 == y >> 45u64,
        forall|p: u8| 1 <= p <= q ==> #[trigger] digit(x, p) == digit(y, p),
    ensures
        x >> digit_offset(q) == y >> digit_offset(q),
    decreases q,
{
    if q > 0 {
        lemma_bits_ext_upto(x, y, (q - 1) as u8);
        let o = digit_offset(q);
        let up = digit_offset((q - 1) as u8);
        assert(digit(x, q) == digit(y, q));
        lemma_masks();
        assert(up == o + 3);
        lemma_shift_ext(x, y, o);
    }
}

// -----------------------------------------------------------------------------
// Mode, edge and vertex bits.

/// Returns the H3 index mode bits.
pub fn get_mode(bits: u64) -> (m: u8)
    ensures
        m == mode_of(bits),
        m <= 15,
{
    let r = (bits & MODE_MASK) >> 59;
    proof {
        lemma_field_masks(bits);
        lemma_masks();
    }
    r as u8
}

/// Clears the H3 index mode bits.
pub fn clr_mode(bits: u64) -> (r: u64)
    ensures
        r == bits & !MODE_MASK,
        mode_of(r) == 0,
{
    let r = bits & !MODE_MASK;
    proof {
        lemma_field_masks(bits);
    }
    r
}

/// Sets the H3 index mode bits.
pub fn set_mode(bits: u64, mode: IndexMode) -> (r: u64)
    ensures
        r == (bits & !MODE_MASK) | ((mode_value(mode) as u64) << 59u64),
        mode_of(r) == mode_value(mode),
        (r & !MODE_MASK) == (bits & !MODE_MASK),
{
    let m = mode.to_u8() as u64;
    let r = clr_mode(bits) | (m << 59);
    proof {
        lemma_field_writes(bits, m, 0, 0);
    }
    r
}

/// Returns the H3 index cell edge bits.
pub fn get_edge(bits: u64) -> (e: u8)
    ensures
        e == field_of(bits),
        e <= 7,
{
    let r = (bits & EDGE_MASK) >> 56;
    proof {
        lemma_field_masks(bits);
        lemma_masks();
    }
    r as u8
}

/// Clears the H3 index cell edge bits.
pub fn clr_edge(bits: u64) -> (r: u64)
    ensures
        r == bits & !EDGE_MASK,
        field_of(r) == 0,
{
    let r = bits & !EDGE_MASK;
    proof {
        lemma_field_masks(bits);
    }
    r
}

/// Sets the H3 index edge (or vertex) bits to `value` (at most 7).
pub fn set_field(bits: u64, value: u8) -> (r: u64)
    requires
        value <= 7,
    ensures
        r == (bits & !EDGE_MASK) | ((value as u64) << 56u64),
        field_of(r) == value,
        (r & !EDGE_MASK) == (bits & !EDGE_MASK),
{
    let v = value as u64;
    let r = clr_edge(bits) | (v << 56);
    proof {
        lemma_field_writes(bits, 0, v, 0);
    }
    r
}

/// Sets the H3 index edge bits.
pub fn set_edge(bits: u64, edge: Edge) -> (r: u64)
    ensures
        r == (bits & !EDGE_MASK) | ((edge.value() as u64) << 56u64),
        field_of(r) == edge.value(),
        (r & !EDGE_MASK) == (bits & !EDGE_MASK),
{
    set_field(bits, edge.to_u8())
}

/// Sets the H3 index vertex bits.
pub fn set_vertex(bits: u64, vertex: Vertex) -> (r: u64)
    ensures
        r == (bits & !EDGE_MASK) | ((vertex.value() as u64) << 56u64),
        field_of(r) == vertex.value(),
        (r & !EDGE_MASK) == (bits & !EDGE_MASK),
{
    set_field(bits, vertex.to_u8())
}

/// Returns the H3 index cell vertex bits.
pub fn get_vertex(bits: u64) -> (v: u8)
    ensures
        v == field_of(bits),
        v <= 7,
{
    get_edge(bits)
}

/// Clears the H3 index cell vertex bits.
pub fn clr_vertex(bits: u64) -> (r: u64)
    ensures
        r == bits & !EDGE_MASK,
        field_of(r) == 0,
{
    clr_edge(bits)
}

// -----------------------------------------------------------------------------
// Resolution and directions.

/// Returns the H3 index resolution.
pub fn get_resolution(bits: u64) -> (r: Resolution)
    ensures
        res_value(r) == resolution_of(bits),
{
    let v = h3o_bit::get_resolution(bits);
    proof {
        lemma_field_masks(bits);
        lemma_masks();
    }
    Resolution::new_unchecked(v)
}

/// Sets the H3 index resolution bits.
pub fn set_resolution(bits: u64, resolution: Resolution) -> (r: u64)
    ensures
        r == (bits & !0x00f0_0000_0000_0000u64) | ((res_value(resolution) as u64) << 52u64),
        resolution_of(r) == res_value(resolution),
        mode_of(r) == mode_of(bits),
        field_of(r) == field_of(bits),
        base_cell_of(r) == base_cell_of(bits),
        forall|q: u8| 1 <= q <= 15 ==> #[trigger] digit(r, q) == digit(bits, q),
        r >> 56u64 == bits >> 56u64,
        (r & 0x000f_ffff_ffff_ffffu64) == (bits & 0x000f_ffff_ffff_ffffu64),
{
    let v = resolution.to_u8() as u64;
    let r = h3o_bit::set_resolution(bits, resolution.to_u8());
    proof {
        lemma_field_writes(bits, 0, 0, v);
        lemma_top_fields(r, bits);
    }
    assert forall|q: u8| 1 <= q <= 15 implies #[trigger] digit(r, q) == digit(bits, q) by {
        lemma_low_fields(r, bits, digit_offset(q));
    }
    r
}

/// Returns the H3 index direction bits at the given resolution.
pub fn get_direction(bits: u64, resolution: Resolution) -> (d: u8)
    requires
        res_value(resolution) != 0,
    ensures
        d == digit(bits, res_value(resolution)),
        d <= 7,
{
    let r = resolution.to_u8();
    let d = h3o_bit::get_direction(bits, r);
    let ghost o = digit_offset(r);
    proof {
        lemma_digit_write(bits, o, 0, o);
        lemma_masks();
    }
    d
}

/// Clears the H3 index direction at the given resolution.
pub fn clr_direction(bits: u64, resolution: Resolution) -> (r: u64)
    requires
        res_value(resolution) != 0,
    ensures
        r == with_digit(bits, res_value(resolution), 0),
{
    let v = resolution.to_u8();
    let r = h3o_bit::clr_direction(bits, v);
    let ghost o = digit_offset(v);
    proof {
        lemma_digit_write(bits, o, 0, o);
    }
    r
}

/// Sets the H3 index direction bits at the given resolution.
pub fn set_direction(bits: u64, cell: u8, resolution: Resolution) -> (r: u64)
    requires
        res_value(resolution) != 0,
    ensures
        r == with_digit(bits, res_value(resolution), cell),
{
    h3o_bit::set_direction(bits, resolution.to_u8(), cell)
}

/// Sets the unused directions (finer than `resolution`) of an H3 index.
pub fn set_unused(bits: u64, resolution: Resolution) -> (r: u64)
    ensures
        r == with_unused(bits, res_value(resolution)),
{
    let unused_end_offset = resolution.direction_offset();
    let o = unused_end_offset as u64;
    assert(o <= 45);
    proof {
        lemma_masks();
        assert((1u64 << o) >= 1u64);
    }
    let unused_bits: u64 = (1u64 << o) - 1;
    bits | unused_bits
}


// -----------------------------------------------------------------------------
// Leading direction.

/// `leading_digit` is the first non-zero digit when the digits before `p`
/// are zero and the one at `p` (if in range) is not.
pub proof fn lemma_leading_digit(bits: u64, lo: u8, hi: u8, p: u8)
    requires
        1 <= lo <= p <= 16,
        hi <= 15,
        forall|q: u8| lo <= q < p && q <= hi ==> #[trigger] digit(bits, q) == 0,
        p <= hi ==> digit(bits, p) != 0,
    ensures
        leading_digit(bits, lo, hi) == if p <= hi {
            digit(bits, p)
        } else {
            0
        },
    decreases p - lo,
{
    if lo > hi {
    } else if lo < p {
        assert(digit(bits, lo) == 0);
        lemma_leading_digit(bits, (lo + 1) as u8, hi, p);
    }
}

/// The leading digit is a digit value, non-zero only if some digit is.
pub proof fn lemma_leading_digit_range(bits: u64, lo: u8, hi: u8)
    requires
        1 <= lo,
        hi <= 15,
    ensures
        leading_digit(bits, lo, hi) <= 7,
        leading_digit(bits, lo, hi) != 0 ==> exists|q: u8|
            lo <= q <= hi && #[trigger] digit(bits, q) == leading_digit(bits, lo, hi),
    decreases 16 - lo,
{
    if lo > hi || lo > 15 {
    } else {
        lemma_digit_bound(bits, lo);
        if digit(bits, lo) == 0 {
            lemma_leading_digit_range(bits, (lo + 1) as u8, hi);
        }
    }
}

/// Where the first set bit of the directions lies tells which digit is the
/// leading one.
proof fn lemma_first_axe(bits: u64, res: u8, lz: int)
    requires
        1 <= res <= 15,
        lz == u64_leading_zeros(bits & 0x0000_1fff_ffff_ffffu64),
    ensures
        19 <= lz <= 64,
        ({
            let p = if (lz - 19) / 3 + 1 <= res {
                ((lz - 19) / 3 + 1) as u8
            } else {
                res
            };
            1 <= p <= res && digit(bits, p) == leading_digit(bits, 1, res)
        }),
{
    let x = bits & 0x0000_1fff_ffff_ffffu64;
    axiom_u64_leading_zeros(x);
    let l = u64_leading_zeros(x) as u64;
    assert forall|q: u8| 1 <= q <= 15 implies #[trigger] digit(bits, q) == digit(x, q) by {
        lemma_direction_bits(bits, x, 0, digit_offset(q), 0, 0, 0);
    }
    if x == 0 {
        assert forall|q: u8| 1 <= q <= 15 implies #[trigger] digit(bits, q) == 0 by {
            lemma_masks();
            assert((0u64 >> digit_offset(q)) & 7u64 == 0u64);
        }
        lemma_leading_digit(bits, 1, res, 16);
    } else {
        lemma_direction_bits(bits, x, l, 0, 0, 0, 0);
        let bi = (l - 19) as u64;
        let k = bi / 3;
        let m = bi % 3;
        assert(bi == 3 * k + m);
        assert forall|q: u8| 1 <= q <= k implies #[trigger] digit(bits, q) == 0 by {
            let o = digit_offset(q);
            let s = (64 - l) as u64;
            assert(o >= s);
            lemma_direction_bits(bits, x, l, o, s, 0, 0);
        }
        let p0 = (k + 1) as u8;
        let op = digit_offset(p0);
        let t = (63 - l) as u64;
        assert(t == op + 2 - m);
        lemma_direction_bits(bits, x, l, op, 0, t, m);
        assert(digit(x, p0) != 0) by {
            lemma_masks();
        }
        lemma_leading_digit(bits, 1, res, p0);
    }
}

/// Returns the direction bits of the first non-center direction of an H3
/// index, `None` if there is none.
pub fn first_axe(bits: u64) -> (a: Option<u8>)
    ensures
        leading_digit(bits, 1, resolution_of(bits)) == 0 <==> a is None,
        a matches Some(d) ==> d == leading_digit(bits, 1, resolution_of(bits)),
{
    let prefix_length = DIRECTIONS_MASK.leading_zeros();
    proof {
        let m = DIRECTIONS_MASK;
        axiom_u64_leading_zeros(m);
        let l = u64_leading_zeros(m) as u64;
        lemma_direction_bits(0, m, l, 0, 0, 0, 0);
    }

    let resolution = get_resolution(bits);
    // No direction at res 0 (only base cell), thus no non-zero direction.
    if resolution.to_u8() == 0 {
        return None;
    }
    let lz = (bits & DIRECTIONS_MASK).leading_zeros();
    proof {
        lemma_first_axe(bits, res_value(resolution), lz as int);
    }
    // Ignore the `0` from the hidden bits (hence `- prefix_length`).
    let bit_index = lz - prefix_length;

    // +1 because the first direction is at resolution 1, not 0.
    let candidate = (bit_index / 3 + 1) as u8;
    let resolution = if candidate < resolution.to_u8() {
        candidate
    } else {
        resolution.to_u8()
    };
    let d = get_direction(bits, Resolution::new_unchecked(resolution));
    if d == 0 {
        None
    } else {
        Some(d)
    }
}

// -----------------------------------------------------------------------------
// Rotations.

/// Every direction up to resolution `res` holds a direction value (no
/// unused pattern).
pub open spec fn digits_valid(bits: u64, res: u8) -> bool {
    forall|q: u8| 1 <= q <= res ==> #[trigger] digit(bits, q) <= 6
}

/// `r` is `bits` with each direction up to `res` rotated `count` times.
pub open spec fn is_rotation(r: u64, bits: u64, res: u8, ccw: bool, count: nat) -> bool {
    &&& r >> 45u64 == bits >> 45u64
    &&& forall|q: u8|
        1 <= q <= 15 ==> #[trigger] digit(r, q) == if q <= res {
            rot(digit(bits, q), ccw, count)
        } else {
            digit(bits, q)
        }
}

/// Rotates every direction of `bits` up to its resolution, `count` times.
fn rotate_digits<const CCW: bool>(bits: u64, count: usize) -> (r: u64)
    requires
        digits_valid(bits, resolution_of(bits)),
    ensures
        is_rotation(r, bits, resolution_of(bits), CCW, count as nat),
{
    let res = get_resolution(bits).to_u8();
    let mut cur = bits;
    let mut q: u8 = 1;
    while q <= res
        invariant
            1 <= q <= res + 1,
            res == resolution_of(bits),
            res <= 15,
            digits_valid(bits, res),
            cur >> 45u64 == bits >> 45u64,
            forall|p: u8|
                1 <= p <= 15 ==> #[trigger] digit(cur, p) == if p < q {
                    rot(digit(bits, p), CCW, count as nat)
                } else {
                    digit(bits, p)
                },
        decreases res + 1 - q,
    {
        let resolution = Resolution::new_unchecked(q);
        let d = get_direction(cur, resolution);
        assert(digit(bits, q) <= 6);
        let direction = Direction::new_unchecked(d);
        let rotated = if count == 1 {
            proof {
                reveal_with_fuel(rot, 2);
            }
            direction.rotate60_once::<CCW>().to_u8()
        } else {
            direction.rotate60::<CCW>(count).to_u8()
        };
        let ghost prev = cur;
        cur = set_direction(cur, rotated, resolution);
        proof {
            lemma_with_digit(prev, q, rotated);
        }
        q = q + 1;
    }
    cur
}

/// Returns a cell rotated `count` times, by 60 degrees steps.
pub fn rotate60<const CCW: bool>(bits: u64, count: usize) -> (r: u64)
    requires
        digits_valid(bits, resolution_of(bits)),
    ensures
        is_rotation(r, bits, resolution_of(bits), CCW, count as nat),
{
    rotate_digits::<CCW>(bits, count)
}

/// Returns a pentagonal cell rotated by 60 degrees; a direction that would
/// end up on the deleted `K` axe is rotated twice.
pub fn pentagon_rotate60<const CCW: bool>(bits: u64) -> (r: u64)
    requires
        digits_valid(bits, resolution_of(bits)),
    ensures
        resolution_of(bits) == 0 ==> r == bits,
        is_rotation(
            r,
            bits,
            resolution_of(bits),
            CCW,
            if leading_digit(bits, 1, resolution_of(bits)) == (if CCW {
                3u8
            } else {
                5u8
            }) {
                2
            } else {
                1
            },
        ),
{
    let res = get_resolution(bits);
    if res.to_u8() == 0 {
        proof {
            assert forall|q: u8| 1 <= q <= 15 implies #[trigger] digit(bits, q) == if q <= 0 {
                rot(digit(bits, q), CCW, 1)
            } else {
                digit(bits, q)
            } by {}
        }
        return bits;
    }
    // Direction that would be rotated to the K axe (and thus require an
    // adjustment).
    let direction = if CCW {
        Direction::JK
    } else {
        Direction::IK
    }.axe();

    if first_axe(bits) == direction {
        rotate_digits::<CCW>(bits, 2)
    } else {
        rotate_digits::<CCW>(bits, 1)
    }
}

/// The leading digit of a rotation is the rotated leading digit.
proof fn lemma_leading_rotation(r: u64, bits: u64, res: u8, ccw: bool, count: nat, lo: u8)
    requires
        1 <= lo,
        res <= 15,
        digits_valid(bits, res),
        is_rotation(r, bits, res, ccw, count),
    ensures
        leading_digit(r, lo, res) == rot(leading_digit(bits, lo, res), ccw, count),
    decreases 16 - lo,
{
    crate::direction::lemma_rot_mod(0, ccw, count);
    if lo <= res && lo <= 15 {
        let d = digit(bits, lo);
        assert(digit(r, lo) == rot(d, ccw, count));
        crate::direction::lemma_rot_mod(d, ccw, count);
        if d == 0 {
            lemma_leading_rotation(r, bits, res, ccw, count, (lo + 1) as u8);
        }
    }
}

/// Rotating a cell's directions `count` times one way, then `count` times
/// the other way, gives the cell back.
pub proof fn law_rotation_inverse(bits: u64, r: u64, s: u64, res: u8, ccw: bool, count: nat)
    requires
        res <= 15,
        digits_valid(bits, res),
        is_rotation(r, bits, res, ccw, count),
        is_rotation(s, r, res, !ccw, count),
    ensures
        s == bits,
{
    assert forall|q: u8| 1 <= q <= 15 implies #[trigger] digit(s, q) == digit(bits, q) by {
        if q <= res {
            crate::direction::law_rotation_undone(digit(bits, q), ccw, count);
        }
    }
    lemma_bits_ext(s, bits);
}

/// No rotation at all keeps the cell.
pub proof fn law_rotation_none(bits: u64, r: u64, res: u8, ccw: bool)
    requires
        is_rotation(r, bits, res, ccw, 0),
    ensures
        r == bits,
{
    assert forall|q: u8| 1 <= q <= 15 implies #[trigger] digit(r, q) == digit(bits, q) by {}
    lemma_bits_ext(r, bits);
}

/// A rotation of a valid cell keeps its mode, resolution and base cell,
/// keeps its center directions center and its unused ones unused; off a
/// pentagonal base cell it is a valid cell again, on one it is when its
/// leading direction is not `K`.
pub proof fn law_rotation_valid(bits: u64, r: u64, ccw: bool, count: nat)
    requires
        crate::index::cell::is_valid_cell(bits),
        is_rotation(r, bits, resolution_of(bits), ccw, count),
    ensures
        mode_of(r) == mode_of(bits),
        resolution_of(r) == resolution_of(bits),
        base_cell_of(r) == base_cell_of(bits),
        forall|q: u8| 1 <= q <= 15 ==> ((#[trigger] digit(r, q) == 0) == (digit(bits, q) == 0)),
        forall|q: u8| resolution_of(bits) < q <= 15 ==> #[trigger] digit(r, q) == 7,
        !crate::base_cell::is_pentagon_base(base_cell_of(bits)) ==> crate::index::cell::is_valid_cell(r),
        crate::base_cell::is_pentagon_base(base_cell_of(bits)) ==> (crate::index::cell::is_valid_cell(r)
            == (leading_digit(r, 1, resolution_of(bits)) != 1)),
{
    let res = resolution_of(bits);
    lemma_high_bits(r, bits);
    assert forall|q: u8| 1 <= q <= 15 implies ((#[trigger] digit(r, q) == 0) == (digit(bits, q)
        == 0)) && (q <= res ==> digit(r, q) <= 6) by {
        if q <= res {
            crate::direction::lemma_rot_mod(digit(bits, q), ccw, count);
        }
    }
}

/// The rotation of a cell on a pentagonal base cell, turned twice when its
/// leading direction would land on the deleted `K` axis, never leads with
/// `K`: it is a valid cell.
pub proof fn law_pentagon_rotation_valid(bits: u64, r: u64, ccw: bool)
    requires
        crate::index::cell::is_valid_cell(bits),
        crate::base_cell::is_pentagon_base(base_cell_of(bits)),
        is_rotation(
            r,
            bits,
            resolution_of(bits),
            ccw,
            if leading_digit(bits, 1, resolution_of(bits)) == (if ccw {
                3u8
            } else {
                5u8
            }) {
                2
            } else {
                1
            },
        ),
    ensures
        leading_digit(r, 1, resolution_of(bits)) != 1,
        crate::index::cell::is_valid_cell(r),
{
    let res = resolution_of(bits);
    lemma_masks();
    assert(res <= 15);
    let d = leading_digit(bits, 1, res);
    let count: nat = if d == (if ccw {
        3u8
    } else {
        5u8
    }) {
        2
    } else {
        1
    };
    lemma_leading_rotation(r, bits, res, ccw, count, 1);
    lemma_leading_digit_range(bits, 1, res);
    if d != 0 {
        let q = choose|q: u8| 1 <= q <= res && #[trigger] digit(bits, q) == d;
        assert(digit(bits, q) <= 6);
    }
    reveal_with_fuel(rot, 3);
    law_rotation_valid(bits, r, ccw, count);
}

/// The leading digit only depends on the digits it scans.
pub proof fn lemma_leading_congruent(a: u64, b: u64, lo: u8, hi: u8)
    requires
        1 <= lo,
        hi <= 15,
        forall|q: u8| lo <= q <= hi ==> #[trigger] digit(a, q) == digit(b, q),
    ensures
        leading_digit(a, lo, hi) == leading_digit(b, lo, hi),
    decreases 16 - lo,
{
    if lo <= hi && lo <= 15 {
        assert(digit(a, lo) == digit(b, lo));
        lemma_leading_congruent(a, b, (lo + 1) as u8, hi);
    }
}

/// The leading digit of a prefix is either zero or the leading digit of the
/// whole.
pub proof fn lemma_leading_prefix(b: u64, lo: u8, r: u8, hi: u8)
    requires
        1 <= lo,
        r <= hi <= 15,
    ensures
        leading_digit(b, lo, r) == 0 || leading_digit(b, lo, r) == leading_digit(b, lo, hi),
    decreases 16 - lo,
{
    if lo <= r && lo <= 15 && digit(b, lo) == 0 {
        lemma_leading_prefix(b, (lo + 1) as u8, r, hi);
    }
}

/// Appending center directions does not change the leading digit.
pub proof fn lemma_leading_zero_ext(b: u64, lo: u8, r: u8, hi: u8)
    requires
        1 <= lo,
        r <= hi <= 15,
        forall|q: u8| r < q <= hi ==> #[trigger] digit(b, q) == 0,
    ensures
        leading_digit(b, lo, hi) == leading_digit(b, lo, r),
    decreases 16 - lo,
{
    if lo > hi || lo > 15 {
    } else if lo > r {
        assert(digit(b, lo) == 0);
        lemma_leading_zero_ext(b, (lo + 1) as u8, r, hi);
    } else if digit(b, lo) == 0 {
        lemma_leading_zero_ext(b, (lo + 1) as u8, r, hi);
    }
}

/// The leading digit is zero iff every scanned digit is.
pub proof fn lemma_leading_zero_iff(b: u64, lo: u8, hi: u8)
    requires
        1 <= lo,
        hi <= 15,
    ensures
        leading_digit(b, lo, hi) == 0 <==> forall|q: u8| lo <= q <= hi ==> #[trigger] digit(b, q)
            == 0,
    decreases 16 - lo,
{
    if lo <= hi && lo <= 15 {
        lemma_leading_zero_iff(b, (lo + 1) as u8, hi);
        if leading_digit(b, lo, hi) == 0 {
            assert forall|q: u8| lo <= q <= hi implies #[trigger] digit(b, q) == 0 by {
                if q > lo {
                    assert(leading_digit(b, (lo + 1) as u8, hi) == 0);
                }
            }
        }
    }
}

/// Adding one at the offset of a direction holding at most 6 increments
/// that direction, without carry.
pub proof fn lemma_digit_increment(x: u64, r: u8)
    requires
        1 <= r <= 15,
        digit(x, r) <= 6,
    ensures
        x + (1u64 << digit_offset(r)) <= 0xffff_ffff_ffff_ffffu64,
        (x + (1u64 << digit_offset(r))) as u64 == with_digit(x, r, (digit(x, r) + 1) as u8),
{
    let o = digit_offset(r);
    lemma_masks();
    lemma_digit_write(x, o, 0, o);
}

} // verus!
