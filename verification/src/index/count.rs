//! Counting cells: the descendants of a cell at a finer resolution, and all
//! the cells of a resolution.
//!
//! Every position below the number of children designates a child: the
//! directions are the digits of the position (offset past the deleted `K`
//! sub-trees below a pentagon).
use crate::index::bits::{
    base_cell_of, digit, leading_digit, lemma_high_bits, lemma_with_digit, resolution_of,
    with_digit, with_unused,
};
use crate::base_cell::is_pentagon_base;
use crate::index::bitvec::{lemma_field_masks, lemma_masks};
use crate::index::cell::{
    children_count_of, is_pentagon_cell, is_valid_cell, lemma_base_cell_template,
    lemma_resolution_field, lemma_template_bits, pentagon_children, pentagons_below,
    with_resolution,
};
use crate::index::iterator::children::{is_descendant, lemma_descendant_valid, lemma_rank_bound};
use crate::index::position::law_child_position_child_at;
use crate::index::uncompact::{children_seq, lemma_nth_child, nth_child};
use crate::index::rank::{
    all_digits, child_rank, digits_in_range, lemma_pentagon_children, lemma_pow7, rank_hex,
    rank_pent,
};
use crate::resolution::{pow7, res_value, Resolution};
use vstd::prelude::*;

verus! {

/// The bits `x` with the directions `lo..=t` set to the base 7 digits of
/// `n`, the most significant first.
pub open spec fn hex_fill(x: u64, lo: u8, t: u8, n: nat) -> u64
    decreases 16 - lo,
{
    if lo == 0 || lo > t || lo > 15 {
        x
    } else {
        let h = pow7((t - lo) as nat);
        hex_fill(with_digit(x, lo, (n / h) as u8), (lo + 1) as u8, t, n % h)
    }
}

/// The bits `x` with the directions `lo..=t` set to those of the child at
/// position `n` below a pentagon: center directions while `n` lies in the
/// pentagonal sub-tree, then the digits of what is left past it.
pub open spec fn pent_fill(x: u64, lo: u8, t: u8, n: nat) -> u64
    decreases 16 - lo,
{
    if lo == 0 || lo > t || lo > 15 {
        x
    } else if n < pentagon_children((t - lo) as nat) {
        pent_fill(with_digit(x, lo, 0), (lo + 1) as u8, t, n)
    } else {
        let h = pow7((t - lo) as nat);
        let m = (n - pentagon_children((t - lo) as nat)) as nat;
        hex_fill(with_digit(x, lo, (m / h + 2) as u8), (lo + 1) as u8, t, m % h)
    }
}

/// Filling the directions `lo..=t` with the digits of `n` (below `7^(t+1-lo)`)
/// gives them the rank `n`, and keeps everything else.
proof fn lemma_hex_fill(x: u64, lo: u8, t: u8, n: nat)
    requires
        1 <= lo <= t + 1,
        t <= 15,
        n < pow7((t + 1 - lo) as nat),
    ensures
        hex_fill(x, lo, t, n) >> 45u64 == x >> 45u64,
        forall|q: u8|
            1 <= q <= 15 && (q < lo || q > t) ==> #[trigger] digit(hex_fill(x, lo, t, n), q)
                == digit(x, q),
        digits_in_range(hex_fill(x, lo, t, n), lo, t),
        rank_hex(hex_fill(x, lo, t, n), lo, t) == n,
        n == 0 ==> all_digits(hex_fill(x, lo, t, n), lo, t, 0),
    decreases t + 1 - lo,
{
    if lo <= t {
        let k = (t - lo) as nat;
        let h = pow7(k);
        lemma_pow7(k);
        assert((t + 1 - lo) as nat == k + 1);
        let d = n / h;
        let m = n % h;
        assert(d < 7 && n == d * h + m && m < h) by (nonlinear_arith)
            requires
                h >= 1,
                n < 7 * h,
                d == n / h,
                m == n % h,
        ;
        let x1 = with_digit(x, lo, d as u8);
        lemma_with_digit(x, lo, d as u8);
        assert((t + 1 - (lo + 1)) as nat == k);
        lemma_hex_fill(x1, (lo + 1) as u8, t, m);
        let y = hex_fill(x, lo, t, n);
        assert(y == hex_fill(x1, (lo + 1) as u8, t, m));
        assert(digit(y, lo) == d);
        if n == 0 {
            assert(d == 0 && m == 0) by (nonlinear_arith)
                requires
                    h >= 1,
                    n == 0,
                    d == n / h,
                    m == n % h,
            ;
            assert forall|q: u8| lo <= q <= t implies #[trigger] digit(y, q) == 0 by {
                if q > lo {
                    assert((lo + 1) as u8 <= q);
                }
            }
        }
    } else {
        assert(hex_fill(x, lo, t, n) == x);
        assert(n == 0);
    }
}

/// Filling the directions `lo..=t` below a pentagon for the position `n`
/// (below the number of its children) gives them that position, never the
/// deleted `K` direction first, and keeps everything else.
proof fn lemma_pent_fill(x: u64, lo: u8, t: u8, n: nat)
    requires
        1 <= lo <= t + 1,
        t <= 15,
        n < pentagon_children((t + 1 - lo) as nat),
    ensures
        pent_fill(x, lo, t, n) >> 45u64 == x >> 45u64,
        forall|q: u8|
            1 <= q <= 15 && (q < lo || q > t) ==> #[trigger] digit(pent_fill(x, lo, t, n), q)
                == digit(x, q),
        digits_in_range(pent_fill(x, lo, t, n), lo, t),
        rank_pent(pent_fill(x, lo, t, n), lo, t) == n,
        leading_digit(pent_fill(x, lo, t, n), lo, t) != 1,
        n == 0 ==> all_digits(pent_fill(x, lo, t, n), lo, t, 0),
    decreases t + 1 - lo,
{
    let y = pent_fill(x, lo, t, n);
    if lo <= t {
        let k = (t - lo) as nat;
        let h = pow7(k);
        let pc = pentagon_children(k);
        lemma_pentagon_children(k);
        lemma_pow7(k);
        assert((t + 1 - lo) as nat == k + 1);
        assert((t + 1 - (lo + 1)) as nat == k);
        assert(pentagon_children(k + 1) == pc + 5 * h);
        if n < pc {
            let x1 = with_digit(x, lo, 0);
            lemma_with_digit(x, lo, 0);
            lemma_pent_fill(x1, (lo + 1) as u8, t, n);
            assert(y == pent_fill(x1, (lo + 1) as u8, t, n));
            assert(digit(y, lo) == 0);
            if n == 0 {
                assert forall|q: u8| lo <= q <= t implies #[trigger] digit(y, q) == 0 by {
                    if q > lo {
                        assert((lo + 1) as u8 <= q);
                    }
                }
            }
        } else {
            let m = (n - pc) as nat;
            let d = m / h;
            let r = m % h;
            assert(d < 5 && m == d * h + r && r < h) by (nonlinear_arith)
                requires
                    h >= 1,
                    m < 5 * h,
                    d == m / h,
                    r == m % h,
            ;
            let x1 = with_digit(x, lo, (d + 2) as u8);
            lemma_with_digit(x, lo, (d + 2) as u8);
            lemma_hex_fill(x1, (lo + 1) as u8, t, r);
            assert(y == hex_fill(x1, (lo + 1) as u8, t, r));
            assert(digit(y, lo) == d + 2);
        }
    } else {
        assert(y == x);
    }
}

/// The child, at resolution `t`, of the cell `idx` at position `n`: the
/// cell's directions followed by those the position designates.
pub open spec fn child_bits(idx: u64, t: u8, n: nat) -> u64 {
    let x = with_resolution(idx, t);
    let lo = (resolution_of(idx) + 1) as u8;
    if is_pentagon_cell(idx) {
        pent_fill(x, lo, t, n)
    } else {
        hex_fill(x, lo, t, n)
    }
}

/// Every position below the number of children of a cell designates one of
/// its children, at that position.
pub proof fn lemma_child_bits(idx: u64, t: u8, n: nat)
    requires
        is_valid_cell(idx),
        resolution_of(idx) <= t <= 15,
        n < children_count_of(idx, t),
    ensures
        is_descendant(child_bits(idx, t, n), idx, t),
        child_rank(child_bits(idx, t, n), is_pentagon_cell(idx), (resolution_of(idx) + 1) as u8, t)
            == n,
{
    let p = resolution_of(idx);
    let x = with_resolution(idx, t);
    let y = child_bits(idx, t, n);
    lemma_resolution_field(idx, t);
    assert((t + 1 - (p + 1)) as nat == (t - p) as nat);
    if is_pentagon_cell(idx) {
        lemma_pent_fill(x, (p + 1) as u8, t, n);
    } else {
        lemma_hex_fill(x, (p + 1) as u8, t, n);
    }
    lemma_high_bits(y, x);
    assert forall|q: u8| 1 <= q <= p implies #[trigger] digit(y, q) == digit(idx, q) by {
        assert(digit(x, q) == digit(idx, q));
    }
    assert forall|q: u8| t < q <= 15 implies #[trigger] digit(y, q) == 7 by {
        assert(digit(x, q) == digit(idx, q));
    }
}

/// The children, at resolution `t`, of the cell `idx`.
pub open spec fn descendants(idx: u64, t: u8) -> Set<u64> {
    Set::new(|s: u64| is_descendant(s, idx, t))
}

/// The children of a cell listed by position (as `uncompact` lists them)
/// are all its children, each listed once.
pub proof fn law_children_seq(idx: u64, t: u8)
    requires
        is_valid_cell(idx),
        resolution_of(idx) <= t <= 15,
    ensures
        children_seq(idx, t).no_duplicates(),
        children_seq(idx, t).to_set() == descendants(idx, t),
{
    let pent = is_pentagon_cell(idx);
    let lo = (resolution_of(idx) + 1) as u8;
    let sq = children_seq(idx, t);
    assert forall|n: int| 0 <= n < sq.len() implies is_descendant(#[trigger] sq[n], idx, t)
        && child_rank(sq[n], pent, lo, t) == n by {
        lemma_child_bits(idx, t, n as nat);
        let w = child_bits(idx, t, n as nat);
        assert(is_descendant(w, idx, t) && child_rank(w, pent, lo, t) == n as nat);
        assert(sq[n] == nth_child(idx, t, n as nat));
    }
    assert forall|i: int, j: int| 0 <= i < sq.len() && 0 <= j < sq.len() && i != j implies sq[i]
        != sq[j] by {
        assert(child_rank(sq[i], pent, lo, t) == i);
        assert(child_rank(sq[j], pent, lo, t) == j);
    }
    assert forall|s: u64| #[trigger] descendants(idx, t).contains(s) <==> sq.to_set().contains(s) by {
        if is_descendant(s, idx, t) {
            lemma_nth_child(idx, s, t);
            lemma_rank_bound(s, idx, t);
            let n = child_rank(s, pent, lo, t) as int;
            assert(sq[n] == s);
            assert(sq.contains(s));
        }
        if sq.contains(s) {
            let i = choose|i: int| 0 <= i < sq.len() && sq[i] == s;
            assert(is_descendant(sq[i], idx, t));
        }
    }
    assert(sq.to_set() =~= descendants(idx, t));
}

/// A cell has, at each resolution, as many children as `children_count`
/// says.
pub proof fn law_children_count(idx: u64, t: u8)
    requires
        is_valid_cell(idx),
        t <= 15,
    ensures
        descendants(idx, t).finite(),
        descendants(idx, t).len() == children_count_of(idx, t),
{
    if t < resolution_of(idx) {
        assert(descendants(idx, t) =~= Set::empty());
    } else {
        let sq = children_seq(idx, t);
        law_children_seq(idx, t);
        sq.unique_seq_to_set();
        vstd::seq_lib::seq_to_set_is_finite(sq);
    }
}

/// The base cell numbered `b`, as an index.
pub open spec fn base_bits(b: u8) -> u64 {
    (0x0800_1fff_ffff_ffffu64 & !0x000f_e000_0000_0000u64) | ((b as u64) << 45u64)
}

/// The valid cells at resolution `r`.
pub open spec fn cells_at(r: u8) -> Set<u64> {
    Set::new(|e: u64| is_valid_cell(e) && resolution_of(e) == r)
}

/// The valid cells at resolution `r` over the base cells below `i`.
pub open spec fn cells_below(r: u8, i: u8) -> Set<u64> {
    Set::new(|e: u64| is_valid_cell(e) && resolution_of(e) == r && base_cell_of(e) < i)
}

/// The children of a base cell are the valid cells over it.
proof fn lemma_base_descendants(e: u64, b: u8, r: u8)
    requires
        b < 122,
        r <= 15,
    ensures
        is_valid_cell(base_bits(b)),
        resolution_of(base_bits(b)) == 0,
        base_cell_of(base_bits(b)) == b,
        is_pentagon_cell(base_bits(b)) == is_pentagon_base(b),
        is_descendant(e, base_bits(b), r) <==> (is_valid_cell(e) && resolution_of(e) == r
            && base_cell_of(e) == b),
{
    let x = base_bits(b);
    lemma_base_cell_template(b);
    lemma_template_bits(b as u64, 0);
    lemma_masks();
    lemma_field_masks(x);
    lemma_field_masks(e);
    assert((x >> 59u64) & 0xfu64 == 1);
    assert(x >> 56u64 == 8);
    if is_descendant(e, x, r) {
        lemma_descendant_valid(e, x, r);
    }
    if is_valid_cell(e) && resolution_of(e) == r && base_cell_of(e) == b {
        assert((e >> 59u64) & 0xfu64 == 1);
        assert(e >> 56u64 == 8);
        assert(digits_in_range(e, 1, r));
    }
}

/// Six pentagon children counts make five hexagon ones, plus one.
proof fn lemma_pentagon_children_sum(n: nat)
    ensures
        6 * pentagon_children(n) == 5 * pow7(n) + 1,
    decreases n,
{
    if n > 0 {
        lemma_pentagon_children_sum((n - 1) as nat);
        lemma_pow7((n - 1) as nat);
        assert(n == (n - 1) as nat + 1);
    }
}

/// The cells over the base cells below `i`: `7^r` for each hexagon,
/// `pentagon_children(r)` for each pentagon.
proof fn lemma_cells_below(r: u8, i: u8)
    requires
        r <= 15,
        i <= 122,
    ensures
        cells_below(r, i).finite(),
        cells_below(r, i).len() == i * pow7(r as nat) - pentagons_below(i as int) * (pow7(r as nat)
            - pentagon_children(r as nat)),
    decreases i,
{
    let big = pow7(r as nat) as int;
    let pc = pentagon_children(r as nat) as int;
    if i == 0 {
        assert(cells_below(r, 0) =~= Set::empty());
    } else {
        let j = (i - 1) as u8;
        lemma_cells_below(r, j);
        let b = base_bits(j);
        let d = descendants(b, r);
        lemma_base_descendants(0, j, r);
        law_children_count(b, r);
        assert forall|e: u64| #[trigger] cells_below(r, i).contains(e) <==> (cells_below(r, j)
            + d).contains(e) by {
            lemma_base_descendants(e, j, r);
        }
        assert(cells_below(r, i) =~= cells_below(r, j) + d);
        assert forall|e: u64| #[trigger] cells_below(r, j).contains(e) implies !d.contains(e) by {
            lemma_base_descendants(e, j, r);
        }
        assert(cells_below(r, j).disjoint(d));
        vstd::set_lib::lemma_set_disjoint_lens(cells_below(r, j), d);
        let pb = pentagons_below(j as int);
        assert(pentagons_below(i as int) == pb + if is_pentagon_base(j) {
            1int
        } else {
            0int
        });
        assert(children_count_of(b, r) == if is_pentagon_base(j) {
            pc
        } else {
            big
        });
        let ii = i as int;
        assert(ii * big == (ii - 1) * big + big) by (nonlinear_arith);
        assert((pb + 1) * (big - pc) == pb * (big - pc) + (big - pc)) by (nonlinear_arith);
    }
}

/// There are `2 + 120 * 7^r` valid cells at resolution `r`, the number
/// `Resolution::cell_count` gives.
pub proof fn law_cell_count(r: Resolution)
    ensures
        cells_at(res_value(r)).finite(),
        cells_at(res_value(r)).len() == 2 + 120 * pow7(res_value(r) as nat),
{
    let v = res_value(r);
    lemma_cells_below(v, 122);
    assert forall|e: u64| #[trigger] cells_at(v).contains(e) <==> cells_below(v, 122).contains(e) by {}
    assert(cells_at(v) =~= cells_below(v, 122));
    lemma_pentagon_children_sum(v as nat);
}

/// The child at position 0: the directions between the two resolutions
/// are all centers.
pub proof fn lemma_center_bits(c: u64, t: u8)
    requires
        resolution_of(c) <= t <= 15,
    ensures
        child_bits(c, t, 0) >> 45u64 == with_resolution(c, t) >> 45u64,
        forall|q: u8|
            1 <= q <= 15 ==> #[trigger] digit(child_bits(c, t, 0), q) == if resolution_of(c) < q
                <= t {
                0
            } else {
                digit(c, q)
            },
{
    let p = resolution_of(c);
    let x = with_resolution(c, t);
    lemma_resolution_field(c, t);
    assert((t + 1 - (p + 1)) as nat == (t - p) as nat);
    lemma_pow7((t - p) as nat);
    lemma_pentagon_children((t - p) as nat);
    if is_pentagon_cell(c) {
        lemma_pent_fill(x, (p + 1) as u8, t, 0);
    } else {
        lemma_hex_fill(x, (p + 1) as u8, t, 0);
    }
    let y = child_bits(c, t, 0);
    assert forall|q: u8| 1 <= q <= 15 implies #[trigger] digit(y, q) == if p < q <= t {
        0
    } else {
        digit(c, q)
    } by {
        if !(p < q <= t) {
            assert(digit(x, q) == digit(c, q));
        }
    }
}

/// The center child of a cell, at a resolution at least its own, is its
/// child at position 0, and the parent of that child, at the cell's
/// resolution, is the cell.
pub proof fn law_center_child(c: u64, t: u8)
    requires
        is_valid_cell(c),
        resolution_of(c) <= t <= 15,
    ensures
        is_descendant(child_bits(c, t, 0), c, t),
        child_rank(child_bits(c, t, 0), is_pentagon_cell(c), (resolution_of(c) + 1) as u8, t) == 0,
        with_unused(with_resolution(child_bits(c, t, 0), resolution_of(c)), resolution_of(c)) == c,
{
    let p = resolution_of(c);
    lemma_pow7((t - p) as nat);
    lemma_pentagon_children((t - p) as nat);
    lemma_child_bits(c, t, 0);
    law_child_position_child_at(c, child_bits(c, t, 0), t);
}

} // verus!
