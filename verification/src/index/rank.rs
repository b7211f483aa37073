//! Position of a cell among the children of one of its ancestors.
//!
//! Children are ordered by their directions, read as a number in base 7
//! (coarsest direction first). Below a pentagon the `K` sub-tree is deleted
//! at each level until the first non-center direction, which shifts the
//! positions.
use crate::index::bits::{digit, lemma_digit_bound};
use crate::index::cell::{hexagon_children, pentagon_children};
use crate::resolution::pow7;
use vstd::prelude::*;

verus! {

/// Position, among the children of an hexagon at resolution `lo - 1`, of
/// the cell `s` (directions `lo..=t`).
pub open spec fn rank_hex(s: u64, lo: u8, t: u8) -> nat
    decreases 16 - lo,
{
    if lo == 0 || lo > t || lo > 15 {
        0
    } else {
        (digit(s, lo) as nat) * pow7((t - lo) as nat) + rank_hex(s, (lo + 1) as u8, t)
    }
}

/// Position, among the children of a pentagon at resolution `lo - 1`, of
/// the cell `s` (directions `lo..=t`).
pub open spec fn rank_pent(s: u64, lo: u8, t: u8) -> nat
    decreases 16 - lo,
{
    if lo == 0 || lo > t || lo > 15 {
        0
    } else if digit(s, lo) == 0 {
        rank_pent(s, (lo + 1) as u8, t)
    } else {
        (pentagon_children((t - lo) as nat) + (digit(s, lo) - 2) * pow7((t - lo) as nat)
            + rank_hex(s, (lo + 1) as u8, t)) as nat
    }
}

/// Position of `s` among the children of its ancestor at resolution
/// `lo - 1`, which is a pentagon when `pent`.
pub open spec fn child_rank(s: u64, pent: bool, lo: u8, t: u8) -> nat {
    if pent {
        rank_pent(s, lo, t)
    } else {
        rank_hex(s, lo, t)
    }
}

/// Every direction of `lo..=t` is `d`.
pub open spec fn all_digits(s: u64, lo: u8, t: u8, d: u8) -> bool {
    forall|q: u8| lo <= q <= t ==> #[trigger] digit(s, q) == d
}

/// Every direction of `lo..=t` is a direction value.
pub open spec fn digits_in_range(s: u64, lo: u8, t: u8) -> bool {
    forall|q: u8| lo <= q <= t ==> #[trigger] digit(s, q) <= 6
}

/// `7^(n+1) == 7 * 7^n`, and powers of 7 are positive.
pub proof fn lemma_pow7(n: nat)
    ensures
        pow7(n + 1) == 7 * pow7(n),
        pow7(n) >= 1,
    decreases n,
{
    if n > 0 {
        lemma_pow7((n - 1) as nat);
    }
}

/// A pentagon has at least one child, at most as many as an hexagon.
pub proof fn lemma_pentagon_children(n: nat)
    ensures
        1 <= pentagon_children(n) <= pow7(n),
    decreases n,
{
    lemma_pow7(n);
    if n > 0 {
        lemma_pentagon_children((n - 1) as nat);
        lemma_pow7((n - 1) as nat);
    }
}

/// The rank only depends on the directions it reads.
pub proof fn lemma_rank_congruent(a: u64, b: u64, lo: u8, t: u8)
    requires
        1 <= lo,
        t <= 15,
        forall|q: u8| lo <= q <= t ==> #[trigger] digit(a, q) == digit(b, q),
    ensures
        rank_hex(a, lo, t) == rank_hex(b, lo, t),
        rank_pent(a, lo, t) == rank_pent(b, lo, t),
    decreases 16 - lo,
{
    if lo <= t && lo <= 15 {
        assert(digit(a, lo) == digit(b, lo));
        lemma_rank_congruent(a, b, (lo + 1) as u8, t);
    }
}

/// Directions all at 6 give the last position, all at 0 the first.
pub proof fn lemma_rank_hex_extremes(s: u64, lo: u8, t: u8)
    requires
        1 <= lo <= t + 1,
        t <= 15,
    ensures
        all_digits(s, lo, t, 6) ==> rank_hex(s, lo, t) + 1 == pow7((t + 1 - lo) as nat),
        all_digits(s, lo, t, 0) ==> rank_hex(s, lo, t) == 0,
    decreases t + 1 - lo,
{
    if lo <= t {
        lemma_rank_hex_extremes(s, (lo + 1) as u8, t);
        lemma_pow7((t - lo) as nat);
        assert((t + 1 - lo) as nat == (t - lo) as nat + 1);
    }
}

/// Directions in range give a position below the number of children.
pub proof fn lemma_rank_hex_bound(s: u64, lo: u8, t: u8)
    requires
        1 <= lo <= t + 1,
        t <= 15,
        digits_in_range(s, lo, t),
    ensures
        rank_hex(s, lo, t) < pow7((t + 1 - lo) as nat),
    decreases t + 1 - lo,
{
    if lo <= t {
        lemma_rank_hex_bound(s, (lo + 1) as u8, t);
        let n = (t - lo) as nat;
        lemma_pow7(n);
        assert((t + 1 - lo) as nat == n + 1);
        let d = digit(s, lo) as nat;
        assert(d <= 6);
        assert(d * pow7(n) <= 6 * pow7(n)) by (nonlinear_arith)
            requires
                d <= 6,
        ;
    }
}

/// Incrementing the direction at `r` (the finer directions going from all
/// 6 to all 0) moves to the next position.
pub proof fn lemma_rank_hex_step(s: u64, s2: u64, lo: u8, r: u8, t: u8)
    requires
        1 <= lo <= r <= t,
        t <= 15,
        forall|q: u8| lo <= q < r ==> #[trigger] digit(s2, q) == digit(s, q),
        digit(s, r) < 6,
        digit(s2, r) == digit(s, r) + 1,
        all_digits(s, (r + 1) as u8, t, 6),
        all_digits(s2, (r + 1) as u8, t, 0),
    ensures
        rank_hex(s2, lo, t) == rank_hex(s, lo, t) + 1,
    decreases r - lo,
{
    if lo < r {
        assert(digit(s2, lo) == digit(s, lo));
        lemma_rank_hex_step(s, s2, (lo + 1) as u8, r, t);
    } else {
        let n = (t - r) as nat;
        lemma_rank_hex_extremes(s, (r + 1) as u8, t);
        lemma_rank_hex_extremes(s2, (r + 1) as u8, t);
        assert((t + 1 - (r + 1)) as nat == n);
        let d = digit(s, r) as nat;
        let p = pow7(n);
        assert((d + 1) * p == d * p + p) by (nonlinear_arith);
    }
}

/// Directions all at 6 give the last position below a pentagon.
pub proof fn lemma_rank_pent_last(s: u64, lo: u8, t: u8)
    requires
        1 <= lo <= t + 1,
        t <= 15,
        all_digits(s, lo, t, 6),
    ensures
        rank_pent(s, lo, t) + 1 == pentagon_children((t + 1 - lo) as nat),
{
    if lo <= t {
        let n = (t - lo) as nat;
        lemma_rank_hex_extremes(s, (lo + 1) as u8, t);
        assert((t + 1 - (lo + 1)) as nat == n);
        assert((t + 1 - lo) as nat == n + 1);
        assert(digit(s, lo) == 6);
        assert(pentagon_children(n + 1) == pentagon_children(n) + 5 * pow7(n));
    }
}

/// Directions all at 0 give the first position below a pentagon.
pub proof fn lemma_rank_pent_first(s: u64, lo: u8, t: u8)
    requires
        1 <= lo <= t + 1,
        t <= 15,
        all_digits(s, lo, t, 0),
    ensures
        rank_pent(s, lo, t) == 0,
    decreases t + 1 - lo,
{
    if lo <= t {
        assert(digit(s, lo) == 0);
        lemma_rank_pent_first(s, (lo + 1) as u8, t);
    }
}

/// Incrementing the direction at `r` (the finer directions going from all
/// 6 to all 0) moves to the next position below a pentagon; when every
/// coarser direction is the center one, the deleted `K` direction is skipped
/// (0 goes to 2).
pub proof fn lemma_rank_pent_step(s: u64, s2: u64, lo: u8, r: u8, t: u8)
    requires
        1 <= lo <= r <= t,
        t <= 15,
        forall|q: u8| lo <= q < r ==> #[trigger] digit(s2, q) == digit(s, q),
        crate::index::bits::leading_digit(s, lo, r) != 1,
        ({
            ||| (digit(s, r) < 6 && digit(s2, r) == digit(s, r) + 1 && (digit(s, r) != 0
                || !all_digits(s, lo, (r - 1) as u8, 0)))
            ||| (digit(s, r) == 0 && digit(s2, r) == 2 && all_digits(s, lo, (r - 1) as u8, 0))
        }),
        all_digits(s, (r + 1) as u8, t, 6),
        all_digits(s2, (r + 1) as u8, t, 0),
    ensures
        rank_pent(s2, lo, t) == rank_pent(s, lo, t) + 1,
    decreases r - lo,
{
    if lo < r {
        let e = digit(s, lo);
        assert(digit(s2, lo) == e);
        if e == 0 {
            assert(crate::index::bits::leading_digit(s, lo, r) == crate::index::bits::leading_digit(s, (lo + 1) as u8, r));
            assert(all_digits(s, lo, (r - 1) as u8, 0) == all_digits(s, (lo + 1) as u8, (r - 1) as u8, 0)) by {
                if all_digits(s, (lo + 1) as u8, (r - 1) as u8, 0) {
                    assert forall|q: u8| lo <= q <= (r - 1) as u8 implies #[trigger] digit(s, q) == 0 by {
                        if q > lo {
                            assert((lo + 1) as u8 <= q);
                        }
                    }
                }
            }
            lemma_rank_pent_step(s, s2, (lo + 1) as u8, r, t);
        } else {
            assert(!all_digits(s, lo, (r - 1) as u8, 0)) by {
                assert(digit(s, lo) != 0);
            }
            assert(crate::index::bits::leading_digit(s, lo, r) == e);
            assert(e >= 2);
            lemma_rank_hex_step(s, s2, (lo + 1) as u8, r, t);
            let n = (t - lo) as nat;
            let ee = (e - 2) as nat;
            assert(rank_pent(s, lo, t) == pentagon_children(n) + ee * pow7(n) + rank_hex(s, (lo + 1) as u8, t));
            assert(rank_pent(s2, lo, t) == pentagon_children(n) + ee * pow7(n) + rank_hex(s2, (lo + 1) as u8, t));
        }
    } else {
        let n = (t - r) as nat;
        let p = pow7(n);
        lemma_rank_hex_extremes(s, (r + 1) as u8, t);
        lemma_rank_hex_extremes(s2, (r + 1) as u8, t);
        assert((t + 1 - (r + 1)) as nat == n);
        let d = digit(s, r);
        assert(all_digits(s, lo, (r - 1) as u8, 0));
        if d == 0 {
            lemma_rank_pent_last(s, (r + 1) as u8, t);
            assert(digit(s2, r) == 2);
            assert(rank_pent(s, r, t) == rank_pent(s, (r + 1) as u8, t));
            assert((t + 1 - (r + 1)) as nat == n);
            assert(rank_pent(s2, r, t) == pentagon_children(n) + 0 * p + rank_hex(s2, (r + 1) as u8, t));
        } else {
            assert(crate::index::bits::leading_digit(s, r, r) == d);
            assert(d >= 2);
            let dd = (d - 2) as nat;
            assert((dd + 1) * p == dd * p + p) by (nonlinear_arith);
            assert(rank_pent(s, r, t) == pentagon_children(n) + dd * p + rank_hex(s, (r + 1) as u8, t));
            assert(rank_pent(s2, r, t) == pentagon_children(n) + (dd + 1) * p + rank_hex(s2, (r + 1) as u8, t));
        }
    }
}

/// A child whose directions are in range, and whose first non-center
/// direction is not the deleted `K` one, has a position below the number
/// of children of the pentagon.
pub proof fn lemma_rank_pent_bound(s: u64, lo: u8, t: u8)
    requires
        1 <= lo <= t + 1,
        t <= 15,
        digits_in_range(s, lo, t),
        crate::index::bits::leading_digit(s, lo, t) != 1,
    ensures
        rank_pent(s, lo, t) < pentagon_children((t + 1 - lo) as nat),
    decreases t + 1 - lo,
{
    if lo <= t {
        let n = (t - lo) as nat;
        assert((t + 1 - lo) as nat == n + 1);
        lemma_pow7(n);
        if digit(s, lo) == 0 {
            lemma_rank_pent_bound(s, (lo + 1) as u8, t);
            assert((t + 1 - (lo + 1)) as nat == n);
            assert(pentagon_children(n + 1) == pentagon_children(n) + 5 * pow7(n));
        } else {
            lemma_rank_hex_bound(s, (lo + 1) as u8, t);
            assert((t + 1 - (lo + 1)) as nat == n);
            let d = digit(s, lo);
            assert(2 <= d <= 6);
            let dd = (d - 2) as nat;
            assert(dd * pow7(n) <= 4 * pow7(n)) by (nonlinear_arith)
                requires
                    dd <= 4,
            ;
        }
    }
}

/// Contribution of the directions `lo..k` (exclusive) to the position
/// below an hexagon.
pub open spec fn rank_hex_prefix(s: u64, lo: u8, k: u8, t: u8) -> nat
    decreases k,
{
    if k <= lo {
        0
    } else {
        rank_hex_prefix(s, lo, (k - 1) as u8, t) + (digit(s, (k - 1) as u8) as nat) * pow7(
            (t - (k - 1)) as nat,
        )
    }
}

/// The position below an hexagon splits into the contribution of the
/// coarser directions and the position of the finer ones.
pub proof fn lemma_rank_hex_split(s: u64, lo: u8, k: u8, t: u8)
    requires
        1 <= lo <= k <= t + 1,
        t <= 15,
    ensures
        rank_hex(s, lo, t) == rank_hex_prefix(s, lo, k, t) + rank_hex(s, k, t),
    decreases k - lo,
{
    if k > lo {
        lemma_rank_hex_split(s, lo, (k - 1) as u8, t);
    }
}

/// The prefix contribution only depends on the directions it reads.
pub proof fn lemma_rank_hex_prefix_congruent(a: u64, b: u64, lo: u8, k: u8, t: u8)
    requires
        forall|q: u8| lo <= q < k ==> #[trigger] digit(a, q) == digit(b, q),
    ensures
        rank_hex_prefix(a, lo, k, t) == rank_hex_prefix(b, lo, k, t),
    decreases k,
{
    if k > lo {
        assert(digit(a, (k - 1) as u8) == digit(b, (k - 1) as u8));
        lemma_rank_hex_prefix_congruent(a, b, lo, (k - 1) as u8, t);
    }
}

/// Leading center directions below a pentagon do not move the position.
pub proof fn lemma_rank_pent_skip_zeros(s: u64, lo: u8, k: u8, t: u8)
    requires
        1 <= lo <= k,
        t <= 15,
        all_digits(s, lo, (k - 1) as u8, 0),
    ensures
        rank_pent(s, lo, t) == rank_pent(s, k, t),
    decreases k - lo,
{
    if lo < k {
        assert(digit(s, lo) == 0);
        lemma_rank_pent_skip_zeros(s, (lo + 1) as u8, k, t);
    }
}

} // verus!
