//! Walking the cells of a resolution in order: the next and the previous
//! cell.
//!
//! At a resolution `r`, a cell reads as a number: its base cell, then its
//! `r` directions as digits in base 7. Cells follow each other in the order
//! of these numbers, the deleted `K` sub-trees of the pentagons skipped.
use crate::base_cell::is_pentagon_base;
use crate::index::bits::{
    self, base_cell_of, digit, digit_offset, leading_digit, lemma_high_bits, lemma_leading_congruent,
    lemma_bits_ext_upto, lemma_leading_digit, lemma_leading_prefix, lemma_leading_zero_iff,
    lemma_with_digit, lemma_with_unused, resolution_of, with_unused,
};
use crate::index::bitvec::{
    lemma_base_write, lemma_field_masks, lemma_lex_bits, lemma_masks, lemma_top_fields,
};
use crate::index::cell::{
    is_pentagon_cell, is_valid_cell, lemma_resolution_field, lemma_template_bits, order_key,
    pentagon_children, with_resolution, CellIndex,
};
use crate::index::position::lemma_rank_hex_injective;
use crate::index::iterator::children::{is_descendant, lemma_descendant_valid};
use crate::index::rank::{
    all_digits, child_rank, digits_in_range, lemma_pentagon_children, lemma_pow7,
    lemma_rank_hex_bound, lemma_rank_hex_extremes, lemma_rank_hex_prefix_congruent,
    lemma_rank_hex_split, lemma_rank_hex_step, lemma_rank_pent_bound, rank_hex, rank_pent,
};
use crate::resolution::{pow7, Resolution};
use vstd::prelude::*;

verus! {

/// The number of a cell at its resolution `r`: the base cell, then the `r`
/// directions, read in base 7.
pub open spec fn cell_number(bits: u64) -> nat {
    base_cell_of(bits) as nat * pow7(resolution_of(bits) as nat) + rank_hex(
        bits,
        1,
        resolution_of(bits),
    )
}

/// `e` is a valid cell at resolution `r` numbered above `n`.
pub open spec fn valid_above(e: u64, r: u8, n: nat) -> bool {
    is_valid_cell(e) && resolution_of(e) == r && cell_number(e) > n
}

/// `e` is a valid cell at resolution `r` numbered below `n`.
pub open spec fn valid_below(e: u64, r: u8, n: nat) -> bool {
    is_valid_cell(e) && resolution_of(e) == r && cell_number(e) < n
}

/// `c` is the first valid cell at resolution `r` numbered above `n`.
pub open spec fn is_next_cell(c: u64, r: u8, n: nat) -> bool {
    &&& valid_above(c, r, n)
    &&& forall|e: u64| #[trigger] valid_above(e, r, n) ==> cell_number(c) <= cell_number(e)
}

/// `c` is the last valid cell at resolution `r` numbered below `n`.
pub open spec fn is_prev_cell(c: u64, r: u8, n: nat) -> bool {
    &&& valid_below(c, r, n)
    &&& forall|e: u64| #[trigger] valid_below(e, r, n) ==> cell_number(e) <= cell_number(c)
}

/// `7^a <= 7^b` for `a <= b`, and `7^(b+1) >= 7 * 7^a`.
proof fn lemma_pow7_mono(a: nat, b: nat)
    requires
        a <= b,
    ensures
        pow7(a) <= pow7(b),
        7 * pow7(a) <= pow7(b + 1),
    decreases b - a,
{
    lemma_pow7(b);
    if a < b {
        lemma_pow7_mono(a, (b - 1) as nat);
        lemma_pow7((b - 1) as nat);
    }
}

/// The directions of a valid cell read below `7^r`; its number lies within
/// its base cell's range.
proof fn lemma_number_range(e: u64)
    requires
        is_valid_cell(e),
    ensures
        resolution_of(e) <= 15,
        base_cell_of(e) < 122,
        rank_hex(e, 1, resolution_of(e)) < pow7(resolution_of(e) as nat),
        base_cell_of(e) as nat * pow7(resolution_of(e) as nat) <= cell_number(e),
        cell_number(e) < (base_cell_of(e) as nat + 1) * pow7(resolution_of(e) as nat),
{
    let r = resolution_of(e);
    lemma_masks();
    assert(digits_in_range(e, 1, r));
    lemma_rank_hex_bound(e, 1, r);
    assert((r + 1 - 1) as nat == r as nat);
    let b = base_cell_of(e) as nat;
    let p = pow7(r as nat);
    assert((b + 1) * p == b * p + p) by (nonlinear_arith);
}

/// Two valid cells at the same resolution with the same number are the same
/// cell.
pub proof fn law_cell_number_injective(a: u64, b: u64)
    requires
        is_valid_cell(a),
        is_valid_cell(b),
        resolution_of(a) == resolution_of(b),
        cell_number(a) == cell_number(b),
    ensures
        a == b,
{
    let r = resolution_of(a);
    lemma_number_range(a);
    lemma_number_range(b);
    let p = pow7(r as nat) as int;
    let ba = base_cell_of(a) as int;
    let bb = base_cell_of(b) as int;
    let ra = rank_hex(a, 1, r) as int;
    let rb = rank_hex(b, 1, r) as int;
    assert(ba == bb) by (nonlinear_arith)
        requires
            ba * p + ra == bb * p + rb,
            0 <= ra < p,
            0 <= rb < p,
            0 <= ba,
            0 <= bb,
    ;
    assert(digits_in_range(a, 1, r));
    assert(digits_in_range(b, 1, r));
    lemma_rank_hex_injective(a, b, 1, r);
    assert forall|q: u8| 1 <= q <= 15 implies #[trigger] digit(a, q) == digit(b, q) by {
        if q > r {
            assert(digit(a, q) == 7 && digit(b, q) == 7);
        }
    }
    lemma_field_masks(a);
    lemma_field_masks(b);
    lemma_masks();
    assert((a >> 59u64) & 0xfu64 == 1 && (b >> 59u64) & 0xfu64 == 1);
    lemma_top_fields(a, b);
    bits::lemma_bits_ext(a, b);
}

/// A position below the children of a cell at resolution `lo - 1` lying
/// in `[k * 7^(r-l), (k+1) * 7^(r-l))` has center directions from `lo` to
/// `l - 1` and `k` at `l`.
proof fn lemma_rank_leading(e: u64, lo: u8, l: u8, r: u8, k: nat)
    requires
        1 <= lo <= l <= r <= 15,
        k <= 5,
        digits_in_range(e, lo, r),
        k * pow7((r - l) as nat) <= rank_hex(e, lo, r) < (k + 1) * pow7((r - l) as nat),
    ensures
        all_digits(e, lo, (l - 1) as u8, 0),
        digit(e, l) == k,
    decreases l - lo,
{
    let n = (r - lo) as nat;
    let h = pow7(n) as int;
    let hl = pow7((r - l) as nat) as int;
    let d = digit(e, lo) as int;
    let rest = rank_hex(e, (lo + 1) as u8, r) as int;
    lemma_rank_hex_bound(e, (lo + 1) as u8, r);
    assert((r + 1 - (lo + 1)) as nat == n);
    assert(rank_hex(e, lo, r) == d * h + rest);
    if lo < l {
        lemma_pow7_mono((r - l) as nat, (r - lo - 1) as nat);
        assert((r - lo - 1) as nat + 1 == n);
        assert(7 * hl <= h);
        if d != 0 {
            assert(d * h >= h) by (nonlinear_arith)
                requires
                    d >= 1,
                    h >= 0,
            ;
            assert((k + 1) * hl <= 6 * hl) by (nonlinear_arith)
                requires
                    k <= 5,
                    hl >= 0,
            ;
            assert(false);
        }
        assert(d * h == 0) by (nonlinear_arith)
            requires
                d == 0,
        ;
        assert(rank_hex(e, lo, r) == rest);
        lemma_rank_leading(e, (lo + 1) as u8, l, r, k);
        assert forall|q: u8| lo <= q <= (l - 1) as u8 implies #[trigger] digit(e, q) == 0 by {
            if q > lo {
                assert((lo + 1) as u8 <= q);
            }
        }
    } else {
        let kk = k as int;
        assert(d == kk) by (nonlinear_arith)
            requires
                kk * h <= d * h + rest < (kk + 1) * h,
                0 <= rest < h,
                0 <= d,
                0 <= kk,
        ;
    }
}

/// Only one cell is the next one: two valid cells that both follow the
/// number `n` at resolution `r` are the same cell.
pub proof fn law_next_cell_unique(c1: u64, c2: u64, r: u8, n: nat)
    requires
        is_next_cell(c1, r, n),
        is_next_cell(c2, r, n),
    ensures
        c1 == c2,
{
    law_cell_number_injective(c1, c2);
}

/// Only one cell is the previous one: two valid cells that both precede
/// the number `n` at resolution `r` are the same cell.
pub proof fn law_prev_cell_unique(c1: u64, c2: u64, r: u8, n: nat)
    requires
        is_prev_cell(c1, r, n),
        is_prev_cell(c2, r, n),
    ensures
        c1 == c2,
{
    law_cell_number_injective(c1, c2);
}

/// The previous cell of the next cell of `s` is `s`.
pub proof fn law_pred_undoes_succ(s: u64, c: u64, t: u64)
    requires
        is_valid_cell(s),
        is_next_cell(c, resolution_of(s), cell_number(s)),
        is_prev_cell(t, resolution_of(s), cell_number(c)),
    ensures
        t == s,
{
    let r = resolution_of(s);
    assert(valid_below(s, r, cell_number(c)));
    if cell_number(t) > cell_number(s) {
        assert(valid_above(t, r, cell_number(s)));
    }
    law_cell_number_injective(s, t);
}

/// The next cell of the previous cell of `s` is `s`.
pub proof fn law_succ_undoes_pred(s: u64, c: u64, t: u64)
    requires
        is_valid_cell(s),
        is_prev_cell(c, resolution_of(s), cell_number(s)),
        is_next_cell(t, resolution_of(s), cell_number(c)),
    ensures
        t == s,
{
    let r = resolution_of(s);
    assert(valid_above(s, r, cell_number(c)));
    if cell_number(t) < cell_number(s) {
        assert(valid_below(t, r, cell_number(s)));
    }
    law_cell_number_injective(s, t);
}

/// The bits of the first cell at resolution `r`: base cell 0, only center
/// directions.
pub open spec fn first_cell_bits(r: u8) -> u64 {
    with_unused(with_resolution(0x0800_0000_0000_0000u64, r), r)
}

/// The bits of the last cell at resolution `r`: base cell 121, only `IJ`
/// directions.
pub open spec fn last_cell_bits(r: u8) -> u64 {
    with_unused(with_resolution(0x080f_3b6d_b6db_6db6u64, r), r)
}

/// The first cell of a resolution `r` is numbered 0, the last one
/// `122 * 7^r - 1`, and every valid cell of that resolution lies between
/// them.
pub proof fn law_first_last(r: u8, e: u64)
    requires
        r <= 15,
        is_valid_cell(e),
        resolution_of(e) == r,
    ensures
        cell_number(first_cell_bits(r)) == 0,
        cell_number(last_cell_bits(r)) + 1 == 122 * pow7(r as nat),
        cell_number(first_cell_bits(r)) <= cell_number(e) <= cell_number(last_cell_bits(r)),
{
    let f0 = 0x0800_0000_0000_0000u64;
    let l0 = 0x080f_3b6d_b6db_6db6u64;
    let f = first_cell_bits(r);
    let l = last_cell_bits(r);
    lemma_template_bits(0, 0);
    lemma_resolution_field(f0, r);
    lemma_resolution_field(l0, r);
    lemma_with_unused(with_resolution(f0, r), r);
    lemma_with_unused(with_resolution(l0, r), r);
    assert forall|q: u8| 1 <= q <= r implies #[trigger] digit(f, q) == 0 by {
        lemma_template_bits(0, digit_offset(q));
        assert(digit(with_resolution(f0, r), q) == digit(f0, q));
    }
    assert forall|q: u8| 1 <= q <= r implies #[trigger] digit(l, q) == 6 by {
        lemma_template_bits(0, digit_offset(q));
        assert(digit(with_resolution(l0, r), q) == digit(l0, q));
    }
    assert(resolution_of(f) == r && resolution_of(l) == r);
    assert(base_cell_of(f) == 0 && base_cell_of(l) == 121);
    lemma_rank_hex_extremes(f, 1, r);
    lemma_rank_hex_extremes(l, 1, r);
    assert((r + 1 - 1) as nat == r as nat);
    let big = pow7(r as nat);
    assert(cell_number(f) == 0) by (nonlinear_arith)
        requires
            cell_number(f) == base_cell_of(f) as nat * big + rank_hex(f, 1, r),
            base_cell_of(f) == 0,
            rank_hex(f, 1, r) == 0,
    ;
    assert(all_digits(l, 1, r, 6));
    assert(cell_number(l) + 1 == 122 * big) by (nonlinear_arith)
        requires
            cell_number(l) == base_cell_of(l) as nat * big + rank_hex(l, 1, r),
            base_cell_of(l) == 121,
            rank_hex(l, 1, r) + 1 == big,
    ;
    lemma_number_range(e);
    let be = base_cell_of(e) as nat;
    assert((be + 1) * big <= 122 * big) by (nonlinear_arith)
        requires
            be <= 121,
    ;
}

/// The first resolution from `lo` on at which two indexes hold different
/// directions, 16 if there is none.
pub open spec fn first_difference(a: u64, b: u64, lo: u8) -> u8
    decreases 16 - lo,
{
    if lo == 0 || lo > 15 {
        16
    } else if digit(a, lo) != digit(b, lo) {
        lo
    } else {
        first_difference(a, b, (lo + 1) as u8)
    }
}

/// The directions agree before the first difference, and differ there.
proof fn lemma_first_difference(a: u64, b: u64, lo: u8)
    requires
        1 <= lo <= 16,
    ensures
        lo <= first_difference(a, b, lo) <= 16,
        forall|q: u8| lo <= q < first_difference(a, b, lo) ==> #[trigger] digit(a, q) == digit(b, q),
        first_difference(a, b, lo) <= 15 ==> digit(a, first_difference(a, b, lo)) != digit(
            b,
            first_difference(a, b, lo),
        ),
    decreases 16 - lo,
{
    if lo <= 15 && digit(a, lo) == digit(b, lo) {
        lemma_first_difference(a, b, (lo + 1) as u8);
    }
}

/// Directions that first differ at `q`, smaller there in `a`, give `a` the
/// smaller rank.
proof fn lemma_rank_lex(a: u64, b: u64, lo: u8, q: u8, t: u8)
    requires
        1 <= lo <= q <= t <= 15,
        forall|p: u8| lo <= p < q ==> #[trigger] digit(a, p) == digit(b, p),
        digit(a, q) < digit(b, q),
        digits_in_range(a, lo, t),
    ensures
        rank_hex(a, lo, t) < rank_hex(b, lo, t),
    decreases q - lo,
{
    if lo < q {
        assert(digit(a, lo) == digit(b, lo));
        lemma_rank_lex(a, b, (lo + 1) as u8, q, t);
    } else {
        lemma_rank_hex_bound(a, (lo + 1) as u8, t);
        assert((t + 1 - (lo + 1)) as nat == (t - lo) as nat);
        let h = pow7((t - lo) as nat) as int;
        let da = digit(a, lo) as int;
        let db = digit(b, lo) as int;
        let ra = rank_hex(a, (lo + 1) as u8, t) as int;
        let rb = rank_hex(b, (lo + 1) as u8, t) as int;
        assert(da * h + ra < db * h + rb) by (nonlinear_arith)
            requires
                0 <= ra < h,
                0 <= rb,
                0 <= da < db,
        ;
    }
}

/// Two valid cells of a resolution that first differ at the direction of
/// resolution `q`, smaller in `a`: `a` has the smaller number and the
/// smaller bits.
proof fn lemma_digit_lex(a: u64, b: u64, q: u8)
    requires
        is_valid_cell(a),
        is_valid_cell(b),
        resolution_of(a) == resolution_of(b),
        a >> 45u64 == b >> 45u64,
        1 <= q <= resolution_of(a),
        forall|p: u8| 1 <= p < q ==> #[trigger] digit(a, p) == digit(b, p),
        digit(a, q) < digit(b, q),
    ensures
        cell_number(a) < cell_number(b),
        a < b,
{
    let r = resolution_of(a);
    lemma_number_range(a);
    lemma_high_bits(a, b);
    assert(digits_in_range(a, 1, r));
    lemma_rank_lex(a, b, 1, q, r);
    lemma_bits_ext_upto(a, b, (q - 1) as u8);
    lemma_masks();
    let o = digit_offset(q);
    assert((a >> o) & 7u64 < (b >> o) & 7u64);
    lemma_lex_bits(a, b, o, digit_offset((q - 1) as u8));
}

/// Within a resolution, the numbering of the valid cells follows the order
/// of their bits with the resolution cleared, the key by which cell indexes
/// are ordered.
pub proof fn law_number_follows_order(a: u64, b: u64)
    requires
        is_valid_cell(a),
        is_valid_cell(b),
        resolution_of(a) == resolution_of(b),
    ensures
        (cell_number(a) < cell_number(b)) == (order_key(a) < order_key(b)),
{
    let r = resolution_of(a);
    lemma_field_masks(a);
    lemma_field_masks(b);
    lemma_number_range(a);
    lemma_number_range(b);
    lemma_masks();
    assert((a >> 59u64) & 0xfu64 == 1 && (b >> 59u64) & 0xfu64 == 1);
    assert(a >> 56u64 == b >> 56u64);
    lemma_lex_bits(a, b, 0, 3);
    lemma_lex_bits(b, a, 0, 3);
    assert(a >> 52u64 == b >> 52u64);
    let big = pow7(r as nat);
    let ba = base_cell_of(a) as nat;
    let bb = base_cell_of(b) as nat;
    if a == b {
    } else if ba < bb {
        assert((ba + 1) * big <= bb * big) by (nonlinear_arith)
            requires
                ba + 1 <= bb,
        ;
    } else if bb < ba {
        assert((bb + 1) * big <= ba * big) by (nonlinear_arith)
            requires
                bb + 1 <= ba,
        ;
    } else {
        lemma_top_fields(a, b);
        let q = first_difference(a, b, 1);
        lemma_first_difference(a, b, 1);
        if q == 16 {
            bits::lemma_bits_ext(a, b);
        }
        assert(q <= r);
        if digit(a, q) < digit(b, q) {
            lemma_digit_lex(a, b, q);
        } else {
            lemma_digit_lex(b, a, q);
        }
    }
}

/// A value sharing the mode and resolution of a valid cell, with a base
/// cell in range and directions in range up to the resolution (unused
/// below), is a valid cell unless it lies in a deleted `K` sub-tree.
proof fn lemma_valid_fields(s: u64, x: u64)
    requires
        is_valid_cell(s),
        x >> 56u64 == s >> 56u64,
        resolution_of(x) == resolution_of(s),
        base_cell_of(x) < 122,
        forall|q: u8| 1 <= q <= 15 && q <= resolution_of(s) ==> #[trigger] digit(x, q) <= 6,
        forall|q: u8| 1 <= q <= 15 && q > resolution_of(s) ==> #[trigger] digit(x, q) == 7,
    ensures
        is_valid_cell(x) <==> !(is_pentagon_base(base_cell_of(x)) && leading_digit(
            x,
            1,
            resolution_of(s),
        ) == 1),
{
    lemma_top_fields(x, s);
}

/// Changing the direction at `p` of a valid cell over a pentagon (to a
/// non-zero one, or with only `IJ` directions after it) gives `K` as
/// leading direction only if the coarser directions are all centers and the
/// new one is `K`.
proof fn lemma_leading_k(s: u64, x: u64, p: u8)
    requires
        is_valid_cell(s),
        is_pentagon_base(base_cell_of(s)),
        1 <= p <= resolution_of(s),
        forall|q: u8| 1 <= q < p ==> #[trigger] digit(x, q) == digit(s, q),
        digit(x, p) != 0 || all_digits(x, (p + 1) as u8, resolution_of(s), 6),
        leading_digit(x, 1, resolution_of(s)) == 1,
    ensures
        all_digits(s, 1, (p - 1) as u8, 0),
        digit(x, p) == 1,
{
    let r = resolution_of(s);
    let pm = (p - 1) as u8;
    lemma_number_range(s);
    lemma_leading_congruent(x, s, 1, pm);
    lemma_leading_prefix(x, 1, pm, r);
    lemma_leading_prefix(s, 1, pm, r);
    lemma_leading_zero_iff(s, 1, pm);
    assert forall|q: u8| 1 <= q < p && q <= r implies #[trigger] digit(x, q) == 0 by {
        assert(q <= pm);
    }
    if digit(x, p) == 0 {
        lemma_leading_digit(x, 1, r, (p + 1) as u8);
    } else {
        lemma_leading_digit(x, 1, r, p);
    }
}

/// Below a pentagonal base cell `b`, no valid cell is numbered within the
/// deleted `K` sub-tree at resolution `p`: the numbers from
/// `b * 7^r + 7^(r-p)` to `b * 7^r + 2 * 7^(r-p)` (excluded).
proof fn lemma_no_cell_in_k(e: u64, b: u8, r: u8, p: u8)
    requires
        resolution_of(e) == r,
        is_pentagon_base(b),
        1 <= p <= r,
        b as nat * pow7(r as nat) + pow7((r - p) as nat) <= cell_number(e),
        cell_number(e) < b as nat * pow7(r as nat) + 2 * pow7((r - p) as nat),
    ensures
        !is_valid_cell(e),
{
    if is_valid_cell(e) {
        lemma_number_range(e);
        let big = pow7(r as nat) as int;
        let h = pow7((r - p) as nat) as int;
        lemma_pow7_mono((r - p) as nat, (r - 1) as nat);
        assert((r - 1) as nat + 1 == r as nat);
        let be = base_cell_of(e) as int;
        let bb = b as int;
        let c = cell_number(e) as int;
        assert(be == bb) by (nonlinear_arith)
            requires
                be * big <= c < (be + 1) * big,
                bb * big + h <= c < bb * big + 2 * h,
                2 * h < big,
                0 <= be,
                0 <= bb,
                0 < h,
        ;
        assert(digits_in_range(e, 1, r));
        lemma_rank_leading(e, 1, p, r, 1);
        assert forall|q: u8| 1 <= q < p && q <= r implies #[trigger] digit(e, q) == 0 by {
            assert(q <= (p - 1) as u8);
        }
        lemma_leading_digit(e, 1, r, p);
    }
}

/// Incrementing the direction at `p` of `s` (the finer ones, all `IJ`,
/// becoming centers) gives the number that follows.
proof fn lemma_number_step(s: u64, x: u64, p: u8)
    requires
        1 <= p <= resolution_of(s) <= 15,
        x >> 45u64 == s >> 45u64,
        forall|q: u8| 1 <= q < p ==> #[trigger] digit(x, q) == digit(s, q),
        digit(s, p) < 6,
        digit(x, p) == digit(s, p) + 1,
        all_digits(s, (p + 1) as u8, resolution_of(s), 6),
        all_digits(x, (p + 1) as u8, resolution_of(s), 0),
    ensures
        resolution_of(x) == resolution_of(s),
        base_cell_of(x) == base_cell_of(s),
        cell_number(x) == cell_number(s) + 1,
{
    lemma_high_bits(x, s);
    lemma_rank_hex_step(s, x, 1, p, resolution_of(s));
}

/// The number of a cell whose directions coarser than `p` are centers.
proof fn lemma_number_tail(x: u64, p: u8)
    requires
        1 <= p <= resolution_of(x) <= 15,
        all_digits(x, 1, (p - 1) as u8, 0),
    ensures
        cell_number(x) == base_cell_of(x) as nat * pow7(resolution_of(x) as nat) + digit(x, p)
            * pow7((resolution_of(x) - p) as nat) + rank_hex(x, (p + 1) as u8, resolution_of(x)),
    decreases p,
{
    let r = resolution_of(x);
    if p > 1 {
        let pm = (p - 1) as u8;
        assert(all_digits(x, 1, (pm - 1) as u8, 0));
        lemma_rank_zero_prefix(x, 1, p, r);
    }
}

/// Center directions in front of `lo..=t` do not change the rank.
proof fn lemma_rank_zero_prefix(x: u64, lo: u8, p: u8, t: u8)
    requires
        1 <= lo <= p <= t,
        t <= 15,
        all_digits(x, lo, (p - 1) as u8, 0),
    ensures
        rank_hex(x, lo, t) == rank_hex(x, p, t),
    decreases p - lo,
{
    if lo < p {
        assert(digit(x, lo) == 0);
        lemma_rank_zero_prefix(x, (lo + 1) as u8, p, t);
    }
}

impl CellIndex {
    /// Returns the next cell, in term of ordering: the first valid cell of
    /// the same resolution numbered above this one (the deleted `K`
    /// sub-trees of the pentagons skipped).
    ///
    /// Returns `None` if `self` is the last cell at this resolution.
    pub fn succ(self) -> (next: Option<Self>)
        ensures
            next is Some <==> exists|e: u64|
                valid_above(e, resolution_of(self@), cell_number(self@)),
            next matches Some(c) ==> is_next_cell(c@, resolution_of(self@), cell_number(self@)),
    {
        let s = self.to_u64();
        let r = self.resolution().to_u8();
        let ghost n = cell_number(s);
        let mut bits = s;
        let mut p: u8 = r;
        proof {
            lemma_masks();
        }
        // The carry turns the trailing IJ directions into center ones.
        loop
            invariant
                is_valid_cell(s),
                r == resolution_of(s),
                r <= 15,
                p <= r,
                bits >> 45u64 == s >> 45u64,
                forall|q: u8|
                    1 <= q <= 15 && (q <= p || q > r) ==> #[trigger] digit(bits, q) == digit(s, q),
                forall|q: u8| p < q <= r ==> #[trigger] digit(bits, q) == 0 && digit(s, q) == 6,
            ensures
                p == 0 || digit(s, p) != 6,
            decreases p,
        {
            if p == 0 {
                break;
            }
            let at = Resolution::new_unchecked(p);
            if bits::get_direction(bits, at) != 6 {
                break;
            }
            let ghost prev = bits;
            bits = bits::clr_direction(bits, at);
            proof {
                lemma_with_digit(prev, p, 0);
            }
            p = p - 1;
        }
        if p == 0 {
            // Every direction was IJ: on to the first cell of the next base
            // cell.
            let base = self.base_cell().to_u8();
            proof {
                assert forall|q: u8| 1 <= q <= r implies #[trigger] digit(s, q) == 6 by {
                    assert(digit(bits, q) == 0);
                }
                lemma_rank_hex_extremes(s, 1, r);
                lemma_number_range(s);
            }
            if base == 121 {
                proof {
                    let big = pow7(r as nat);
                    assert(all_digits(s, 1, r, 6));
                    assert((r + 1 - 1) as nat == r as nat);
                    assert(rank_hex(s, 1, r) + 1 == big);
                    assert(n == 121 * big + big - 1);
                    assert forall|e: u64| !valid_above(e, r, n) by {
                        if is_valid_cell(e) && resolution_of(e) == r {
                            lemma_number_range(e);
                            let be = base_cell_of(e) as nat;
                            assert((be + 1) * big <= 122 * big) by (nonlinear_arith)
                                requires
                                    be <= 121,
                            ;
                        }
                    }
                }
                return None;
            }
            let next = h3o_bit::set_base_cell(bits, base + 1);
            proof {
                let v = (base + 1) as u64;
                lemma_high_bits(bits, s);
                lemma_base_write(bits, v, 0);
                assert forall|q: u8| 1 <= q <= 15 implies #[trigger] digit(next, q) == digit(
                    bits,
                    q,
                ) by {
                    lemma_base_write(bits, v, digit_offset(q));
                }
                assert forall|q: u8| 1 <= q <= 15 && q <= r implies #[trigger] digit(next, q)
                    <= 6 by {
                    assert(digit(bits, q) == 0);
                }
                lemma_valid_fields(s, next);
                lemma_leading_zero_iff(next, 1, r);
                lemma_rank_hex_extremes(next, 1, r);
                let big = pow7(r as nat);
                assert((base + 1) as nat * big == base as nat * big + big) by (nonlinear_arith);
                assert(all_digits(s, 1, r, 6));
                assert((r + 1 - 1) as nat == r as nat);
                assert(all_digits(next, 1, r, 0));
                assert(cell_number(next) == n + 1);
                assert(valid_above(next, r, n));
            }
            return Some(Self::new_unchecked(next));
        }
        let at = Resolution::new_unchecked(p);
        let d = bits::get_direction(bits, at);
        let one_more = bits::set_direction(bits, d + 1, at);
        proof {
            lemma_with_digit(bits, p, (d + 1) as u8);
            assert forall|q: u8| (p + 1) as u8 <= q <= r implies #[trigger] digit(s, q) == 6
                && digit(one_more, q) == 0 by {
                assert(digit(bits, q) == 0);
            }
            lemma_number_step(s, one_more, p);
        }
        match Self::try_from_u64(one_more) {
            Ok(c) => {
                assert(valid_above(c@, r, n));
                Some(c)
            },
            Err(_) => {
                // Into the deleted K sub-tree of a pentagon: skip it.
                let two_more = bits::set_direction(bits, d + 2, at);
                proof {
                    lemma_with_digit(bits, p, (d + 2) as u8);
                    lemma_high_bits(one_more, s);
                    lemma_valid_fields(s, one_more);
                    lemma_leading_k(s, one_more, p);
                    lemma_high_bits(two_more, s);
                    assert forall|q: u8| 1 <= q < p && q <= r implies #[trigger] digit(two_more, q)
                        == 0 by {
                        assert(q <= (p - 1) as u8);
                    }
                    lemma_leading_digit(two_more, 1, r, p);
                    lemma_valid_fields(s, two_more);
                    let h = pow7((r - p) as nat);
                    let m = base_cell_of(s) as nat * pow7(r as nat);
                    lemma_number_tail(s, p);
                    lemma_number_tail(two_more, p);
                    lemma_rank_hex_extremes(s, (p + 1) as u8, r);
                    lemma_rank_hex_extremes(two_more, (p + 1) as u8, r);
                    assert((r + 1 - (p + 1)) as nat == (r - p) as nat);
                    assert(digit(s, p) == 0);
                    assert(all_digits(s, (p + 1) as u8, r, 6));
                    assert(all_digits(two_more, (p + 1) as u8, r, 0));
                    assert(rank_hex(s, (p + 1) as u8, r) + 1 == h);
                    assert(rank_hex(two_more, (p + 1) as u8, r) == 0);
                    assert(digit(s, p) as nat * h == 0) by (nonlinear_arith)
                        requires
                            digit(s, p) == 0,
                    ;
                    assert(digit(two_more, p) as nat * h == 2 * h) by (nonlinear_arith)
                        requires
                            digit(two_more, p) == 2,
                    ;
                    assert(n + 1 == m + h);
                    assert(cell_number(two_more) == m + 2 * h);
                    assert forall|e: u64| #[trigger] valid_above(e, r, n) implies cell_number(
                        two_more,
                    ) <= cell_number(e) by {
                        if cell_number(e) < cell_number(two_more) {
                            lemma_no_cell_in_k(e, base_cell_of(s), r, p);
                        }
                    }
                    assert(valid_above(two_more, r, n));
                }
                Some(Self::new_unchecked(two_more))
            },
        }
    }

    /// Returns the previous cell, in term of ordering: the last valid cell
    /// of the same resolution numbered below this one (the deleted `K`
    /// sub-trees of the pentagons skipped).
    ///
    /// Returns `None` if `self` is the first cell at this resolution.
    pub fn pred(self) -> (prev: Option<Self>)
        ensures
            prev is Some <==> exists|e: u64|
                valid_below(e, resolution_of(self@), cell_number(self@)),
            prev matches Some(c) ==> is_prev_cell(c@, resolution_of(self@), cell_number(self@)),
    {
        let s = self.to_u64();
        let r = self.resolution().to_u8();
        let ghost n = cell_number(s);
        let mut bits = s;
        let mut p: u8 = r;
        proof {
            lemma_masks();
        }
        // The borrow turns the trailing center directions into IJ ones.
        loop
            invariant
                is_valid_cell(s),
                r == resolution_of(s),
                r <= 15,
                p <= r,
                bits >> 45u64 == s >> 45u64,
                forall|q: u8|
                    1 <= q <= 15 && (q <= p || q > r) ==> #[trigger] digit(bits, q) == digit(s, q),
                forall|q: u8| p < q <= r ==> #[trigger] digit(bits, q) == 6 && digit(s, q) == 0,
            ensures
                p == 0 || digit(s, p) != 0,
            decreases p,
        {
            if p == 0 {
                break;
            }
            let at = Resolution::new_unchecked(p);
            if bits::get_direction(bits, at) != 0 {
                break;
            }
            let ghost prev = bits;
            bits = bits::set_direction(bits, 6, at);
            proof {
                lemma_with_digit(prev, p, 6);
            }
            p = p - 1;
        }
        if p == 0 {
            // Every direction was a center: on to the last cell of the
            // previous base cell.
            let base = self.base_cell().to_u8();
            proof {
                assert forall|q: u8| 1 <= q <= r implies #[trigger] digit(s, q) == 0 by {
                    assert(digit(bits, q) == 6);
                }
                lemma_rank_hex_extremes(s, 1, r);
                lemma_number_range(s);
            }
            if base == 0 {
                proof {
                    assert(all_digits(s, 1, r, 0));
                    assert(rank_hex(s, 1, r) == 0);
                    assert(base_cell_of(s) == 0);
                    assert(n == 0) by (nonlinear_arith)
                        requires
                            n == base_cell_of(s) as nat * pow7(r as nat) + rank_hex(s, 1, r),
                            base_cell_of(s) == 0,
                            rank_hex(s, 1, r) == 0,
                    ;
                    assert forall|e: u64| !valid_below(e, r, n) by {}
                }
                return None;
            }
            let next = h3o_bit::set_base_cell(bits, base - 1);
            proof {
                let v = (base - 1) as u64;
                lemma_high_bits(bits, s);
                lemma_base_write(bits, v, 0);
                assert forall|q: u8| 1 <= q <= 15 implies #[trigger] digit(next, q) == digit(
                    bits,
                    q,
                ) by {
                    lemma_base_write(bits, v, digit_offset(q));
                }
                assert forall|q: u8| 1 <= q <= 15 && q <= r implies #[trigger] digit(next, q)
                    <= 6 by {
                    assert(digit(bits, q) == 6);
                }
                lemma_valid_fields(s, next);
                lemma_leading_digit(next, 1, r, 1);
                assert(all_digits(next, 1, r, 6));
                lemma_rank_hex_extremes(next, 1, r);
                assert((r + 1 - 1) as nat == r as nat);
                let big = pow7(r as nat);
                assert((base - 1) as nat * big + big == base as nat * big) by (nonlinear_arith)
                    requires
                        base >= 1,
                ;
                assert(cell_number(next) + 1 == n);
                assert(valid_below(next, r, n));
            }
            return Some(Self::new_unchecked(next));
        }
        let at = Resolution::new_unchecked(p);
        let d = bits::get_direction(bits, at);
        let one_less = bits::set_direction(bits, d - 1, at);
        proof {
            lemma_with_digit(bits, p, (d - 1) as u8);
            assert forall|q: u8| (p + 1) as u8 <= q <= r implies #[trigger] digit(s, q) == 0
                && digit(one_less, q) == 6 by {
                assert(digit(bits, q) == 6);
            }
            lemma_high_bits(one_less, s);
            lemma_number_step(one_less, s, p);
        }
        match Self::try_from_u64(one_less) {
            Ok(c) => {
                assert(valid_below(c@, r, n));
                Some(c)
            },
            Err(_) => {
                // Into the deleted K sub-tree of a pentagon: skip it.
                proof {
                    lemma_high_bits(one_less, s);
                    lemma_valid_fields(s, one_less);
                    lemma_leading_k(s, one_less, p);
                }
                let two_less = bits::set_direction(bits, d - 2, at);
                proof {
                    lemma_with_digit(bits, p, (d - 2) as u8);
                    lemma_high_bits(two_less, s);
                    assert forall|q: u8| 1 <= q < p + 1 && q <= r implies #[trigger] digit(
                        two_less,
                        q,
                    ) == 0 by {
                        if q < p {
                            assert(q <= (p - 1) as u8);
                        }
                    }
                    assert(p + 1 <= r ==> digit(two_less, (p + 1) as u8) == 6);
                    lemma_leading_digit(two_less, 1, r, (p + 1) as u8);
                    lemma_valid_fields(s, two_less);
                    let h = pow7((r - p) as nat);
                    let m = base_cell_of(s) as nat * pow7(r as nat);
                    lemma_number_tail(s, p);
                    lemma_number_tail(two_less, p);
                    lemma_rank_hex_extremes(s, (p + 1) as u8, r);
                    lemma_rank_hex_extremes(two_less, (p + 1) as u8, r);
                    assert((r + 1 - (p + 1)) as nat == (r - p) as nat);
                    assert(n == m + 2 * h);
                    assert(cell_number(two_less) + 1 == m + h);
                    assert forall|e: u64| #[trigger] valid_below(e, r, n) implies cell_number(e)
                        <= cell_number(two_less) by {
                        if cell_number(e) > cell_number(two_less) {
                            lemma_no_cell_in_k(e, base_cell_of(s), r, p);
                        }
                    }
                    assert(valid_below(two_less, r, n));
                }
                Some(Self::new_unchecked(two_less))
            },
        }
    }
}

/// Below a pentagon, a smaller position is a smaller hexagonal rank: the
/// positions skip the deleted `K` sub-trees but keep the order.
proof fn lemma_pent_rank_order(a: u64, b: u64, lo: u8, t: u8)
    requires
        1 <= lo <= t + 1,
        t <= 15,
        digits_in_range(a, lo, t),
        digits_in_range(b, lo, t),
        leading_digit(a, lo, t) != 1,
        leading_digit(b, lo, t) != 1,
        rank_pent(a, lo, t) < rank_pent(b, lo, t),
    ensures
        rank_hex(a, lo, t) < rank_hex(b, lo, t),
    decreases t + 1 - lo,
{
    if lo <= t {
        let k = (t - lo) as nat;
        let h = pow7(k) as int;
        let pc = pentagon_children(k) as int;
        assert((t + 1 - (lo + 1)) as nat == k);
        lemma_pentagon_children(k);
        lemma_rank_hex_bound(a, (lo + 1) as u8, t);
        lemma_rank_hex_bound(b, (lo + 1) as u8, t);
        let da = digit(a, lo) as int;
        let db = digit(b, lo) as int;
        let ra = rank_hex(a, (lo + 1) as u8, t) as int;
        let rb = rank_hex(b, (lo + 1) as u8, t) as int;
        if da == 0 {
            lemma_rank_pent_bound(a, (lo + 1) as u8, t);
        }
        if db == 0 {
            lemma_rank_pent_bound(b, (lo + 1) as u8, t);
        }
        if da == 0 && db == 0 {
            lemma_pent_rank_order(a, b, (lo + 1) as u8, t);
        } else if da == 0 {
            assert(db >= 2);
            assert(da * h + ra < db * h + rb) by (nonlinear_arith)
                requires
                    da == 0,
                    db >= 2,
                    0 <= ra < h,
                    0 <= rb,
            ;
        } else if db == 0 {
            assert(false);
        } else {
            assert(da * h + ra < db * h + rb) by (nonlinear_arith)
                requires
                    pc + (da - 2) * h + ra < pc + (db - 2) * h + rb,
            ;
        }
    }
}

/// The children of a cell at a resolution, taken in increasing position
/// (the order in which `children` yields them), come in increasing order of
/// their ordering key, the key by which cell indexes are ordered.
pub proof fn law_children_in_order(idx: u64, a: u64, b: u64, t: u8)
    requires
        is_valid_cell(idx),
        is_descendant(a, idx, t),
        is_descendant(b, idx, t),
        child_rank(a, is_pentagon_cell(idx), (resolution_of(idx) + 1) as u8, t) < child_rank(
            b,
            is_pentagon_cell(idx),
            (resolution_of(idx) + 1) as u8,
            t,
        ),
    ensures
        order_key(a) < order_key(b),
{
    let p = resolution_of(idx);
    let lo = (p + 1) as u8;
    lemma_descendant_valid(a, idx, t);
    lemma_descendant_valid(b, idx, t);
    if is_pentagon_cell(idx) {
        lemma_pent_rank_order(a, b, lo, t);
    }
    lemma_rank_hex_split(a, 1, lo, t);
    lemma_rank_hex_split(b, 1, lo, t);
    assert forall|q: u8| 1 <= q < lo implies #[trigger] digit(a, q) == digit(b, q) by {
        assert(digit(a, q) == digit(idx, q) && digit(b, q) == digit(idx, q));
    }
    lemma_rank_hex_prefix_congruent(a, b, 1, lo, t);
    assert(cell_number(a) < cell_number(b));
    law_number_follows_order(a, b);
}

} // verus!
