//! Position of a cell among the children of an ancestor, and the converse.
use crate::base_cell::is_pentagon_base;
use crate::index::bitvec::{lemma_masks, lemma_top_fields};
use crate::index::bits::{
    self, base_cell_of, digit, leading_digit, lemma_high_bits, lemma_with_digit, resolution_of,
    with_digit, with_unused,
};
use crate::index::cell::{
    all_center, children_count_of, hexagon_children_count, is_pentagon_cell, is_valid_cell,
    lemma_parent_valid, lemma_resolution_field, pentagon_children, pentagon_children_count,
    with_resolution, CellIndex,
};
use crate::index::iterator::children::is_descendant;
use crate::index::rank::{
    all_digits, child_rank, digits_in_range, lemma_pentagon_children, lemma_pow7,
    lemma_rank_hex_bound, lemma_rank_hex_prefix_congruent, lemma_rank_hex_split,
    lemma_rank_pent_bound, lemma_rank_pent_first, lemma_rank_pent_skip_zeros, rank_hex,
    rank_hex_prefix, rank_pent,
};
use crate::resolution::{pow7, res_value, Resolution};
use vstd::prelude::*;

verus! {

/// Whether the ancestor, at resolution `r`, of the cell `bits` is a
/// pentagon: a pentagonal base cell and center directions down to `r`.
pub open spec fn ancestor_is_pentagon(bits: u64, r: u8) -> bool {
    is_pentagon_base(base_cell_of(bits)) && all_center(bits, r)
}

/// The parent at resolution `r` of a valid cell is a pentagon iff the
/// ancestor is.
proof fn lemma_parent_pentagon(b: u64, r: u8)
    requires
        is_valid_cell(b),
        r <= resolution_of(b),
    ensures
        is_pentagon_cell(with_unused(with_resolution(b, r), r)) == ancestor_is_pentagon(b, r),
{
    lemma_parent_valid(b, r);
    lemma_masks();
    let par = with_unused(with_resolution(b, r), r);
    if all_center(b, r) {
        assert forall|q: u8| 1 <= q <= resolution_of(par) implies #[trigger] digit(par, q) == 0 by {}
    }
    if all_center(par, resolution_of(par)) {
        assert forall|q: u8| 1 <= q <= r implies #[trigger] digit(b, q) == 0 by {
            assert(digit(par, q) == 0);
        }
    }
}

/// `7^n` is at most `7^15` for `n <= 15`.
pub(crate) proof fn lemma_pow7_le(n: nat)
    requires
        n <= 15,
    ensures
        pow7(n) <= pow7(15),
        pow7(15) == 4_747_561_509_943,
    decreases 15 - n,
{
    reveal_with_fuel(pow7, 16);
    if n < 15 {
        lemma_pow7_le(n + 1);
        lemma_pow7(n);
    }
}

impl CellIndex {
    /// Returns the position of the cell within the ordered list of all the
    /// children of its parent at `resolution`, `None` if the cell's
    /// resolution is coarser than `resolution`.
    pub fn child_position(self, resolution: Resolution) -> (pos: Option<u64>)
        ensures
            pos is Some <==> res_value(resolution) <= resolution_of(self@),
            pos matches Some(n) ==> n == child_rank(
                self@,
                ancestor_is_pentagon(self@, res_value(resolution)),
                (res_value(resolution) + 1) as u8,
                resolution_of(self@),
            ),
    {
        proof {
            use_type_invariant(&self);
        }
        let parent_is_pentagon = match self.parent(resolution) {
            Some(parent) => parent.is_pentagon(),
            // The cell's resolution is coarser than `resolution`.
            None => return None,
        };
        let bits = self.to_u64();
        let t = self.resolution().to_u8();
        let r = resolution.to_u8();
        let ghost pent0 = ancestor_is_pentagon(bits, r);
        let ghost total = child_rank(bits, pent0, (r + 1) as u8, t);
        proof {
            lemma_parent_pentagon(bits, r);
            assert(parent_is_pentagon == pent0);
            assert(digits_in_range(bits, (r + 1) as u8, t));
            lemma_pow7_le((t - r) as nat);
            if pent0 {
                bits::lemma_leading_zero_iff(bits, 1, r);
                crate::index::iterator::children::lemma_leading_split(bits, 1, r, t);
                lemma_rank_pent_bound(bits, (r + 1) as u8, t);
                lemma_pentagon_children((t - r) as nat);
            } else {
                lemma_rank_hex_bound(bits, (r + 1) as u8, t);
            }
            assert((t + 1 - (r + 1)) as nat == (t - r) as nat);
        }
        let mut sum: u64 = 0;
        let mut res: u8 = r + 1;
        if parent_is_pentagon {
            while res <= t
                invariant
                    r < res <= t + 1,
                    t == resolution_of(bits),
                    t == resolution_of(self@),
                    bits == self@,
                    r <= t <= 15,
                    is_valid_cell(bits),
                    pent0,
                    pent0 == ancestor_is_pentagon(bits, r),
                    total == rank_pent(bits, (r + 1) as u8, t),
                    total < pow7(15),
                    pow7(15) == 4_747_561_509_943,
                    ancestor_is_pentagon(bits, (res - 1) as u8) ==> sum + rank_pent(bits, res, t)
                        == total,
                    !ancestor_is_pentagon(bits, (res - 1) as u8) ==> sum + rank_hex(bits, res, t)
                        == total,
                decreases t + 1 - res,
            {
                let level = Resolution::new_unchecked(res);
                let prev = Resolution::new_unchecked(res - 1);
                // The parent exists at every level up to the cell's one.
                let parent_is_pentagon = match self.parent(prev) {
                    Some(parent) => parent.is_pentagon(),
                    None => false,
                };
                let ghost d0 = digit(bits, res);
                let n: usize = (t - res) as usize;
                proof {
                    lemma_parent_pentagon(bits, (res - 1) as u8);
                    lemma_pow7_le(n as nat);
                    lemma_pentagon_children(n as nat);
                    assert(d0 <= 6);
                    if parent_is_pentagon && d0 != 0 {
                        // The first non-center direction is never `K`.
                        bits::lemma_leading_digit(bits, 1, t, res);
                        assert(d0 != 1);
                    }
                }
                let mut direction = bits::get_direction(bits, level);
                // Adjust the direction for the deleted `K` sub-tree.
                if parent_is_pentagon && direction > 0 {
                    direction -= 1;
                }
                if direction != 0 {
                    let hex_count = hexagon_children_count(n);
                    // The offset for the center slot depends on whether the
                    // parent is a pentagon.
                    let count0 = if parent_is_pentagon {
                        pentagon_children_count(n)
                    } else {
                        hex_count
                    };
                    proof {
                        let h = pow7(n as nat);
                        let dm = (direction - 1) as int;
                        if parent_is_pentagon {
                            assert(d0 >= 2);
                            assert(rank_pent(bits, res, t) == pentagon_children(n as nat) + (d0
                                - 2) * h + rank_hex(bits, (res + 1) as u8, t));
                            assert(dm * h + count0 == (d0 - 2) * h + pentagon_children(n as nat));
                        } else {
                            assert(dm * h + h == d0 * h) by (nonlinear_arith)
                                requires
                                    dm == d0 - 1,
                            ;
                            assert(rank_hex(bits, res, t) == d0 * h + rank_hex(
                                bits,
                                (res + 1) as u8,
                                t,
                            ));
                        }
                        assert(0 <= dm * h) by (nonlinear_arith)
                            requires
                                0 <= dm,
                                0 <= h,
                        ;
                    }
                    sum = sum + ((direction - 1) as u64 * hex_count + count0);
                } else {
                    proof {
                        if !parent_is_pentagon {
                            assert(rank_hex(bits, res, t) == 0 * pow7(n as nat) + rank_hex(
                                bits,
                                (res + 1) as u8,
                                t,
                            ));
                        }
                    }
                }
                proof {
                    if ancestor_is_pentagon(bits, res) {
                        assert(all_center(bits, (res - 1) as u8));
                        assert(d0 == 0);
                    }
                    if ancestor_is_pentagon(bits, (res - 1) as u8) && d0 == 0 {
                        assert forall|q: u8| 1 <= q <= res implies #[trigger] digit(bits, q) == 0 by {
                            if q < res {
                                assert(q <= (res - 1) as u8);
                            }
                        }
                        assert(ancestor_is_pentagon(bits, res));
                    }
                    if d0 != 0 {
                        assert(!all_center(bits, res));
                    }
                }
                res = res + 1;
            }
        } else {
            while res <= t
                invariant
                    r < res <= t + 1,
                    t == resolution_of(bits),
                    r <= t <= 15,
                    is_valid_cell(bits),
                    !pent0,
                    total == rank_hex(bits, (r + 1) as u8, t),
                    total < pow7(15),
                    pow7(15) == 4_747_561_509_943,
                    sum + rank_hex(bits, res, t) == total,
                decreases t + 1 - res,
            {
                let level = Resolution::new_unchecked(res);
                let n: usize = (t - res) as usize;
                let hex_count = hexagon_children_count(n);
                let digit = bits::get_direction(bits, level);
                proof {
                    let h = pow7(n as nat);
                    assert(digit <= 6);
                    assert(rank_hex(bits, res, t) == digit * h + rank_hex(bits, (res + 1) as u8, t));
                    assert(0 <= digit * h) by (nonlinear_arith)
                        requires
                            0 <= h,
                    ;
                }
                sum = sum + digit as u64 * hex_count;
                res = res + 1;
            }
        }
        proof {
            if pent0 {
                assert(!ancestor_is_pentagon(bits, t) ==> rank_hex(bits, (t + 1) as u8, t) == 0);
            }
        }
        Some(sum)
    }
}

/// Sets the direction `digit` (known to be a direction value) at `resolution`.
fn set_child_direction(bits: u64, digit: u64, resolution: Resolution) -> (r: u64)
    requires
        digit < 7,
        res_value(resolution) != 0,
    ensures
        r == with_digit(bits, res_value(resolution), digit as u8),
{
    bits::set_direction(bits, digit as u8, resolution)
}

/// The walk of `child_at` builds the descendant at the requested position.
proof fn child_at_rank(
    b: u64,
    c0: u64,
    c1: u64,
    child: u64,
    p: u8,
    t: u8,
    start: u8,
    pos_in: u64,
    pos0: u64,
    left: bool,
    dz: u8,
)
    requires
        is_valid_cell(b),
        p == resolution_of(b),
        p < start <= t + 1,
        t <= 15,
        c0 >> 56u64 == b >> 56u64,
        base_cell_of(c0) == base_cell_of(b),
        resolution_of(c0) == t,
        forall|q: u8| 1 <= q <= 15 ==> #[trigger] digit(c0, q) == digit(b, q),
        !is_pentagon_cell(b) ==> start == p + 1 && pos0 == pos_in,
        is_pentagon_cell(b) ==> {
            &&& forall|q: u8| p < q < start - 1 ==> #[trigger] digit(c1, q) == 0
            &&& left ==> {
                &&& p < start - 1
                &&& 2 <= dz <= 6
                &&& digit(c1, (start - 1) as u8) == dz
                &&& pos_in == pentagon_children((t - (start - 1)) as nat) + (dz - 2) * pow7(
                    (t - (start - 1)) as nat,
                ) + pos0
            }
            &&& !left ==> start == t + 1 && pos0 == 0 && pos_in == 0 && forall|q: u8|
                p < q <= t ==> #[trigger] digit(c1, q) == 0
        },
        forall|q: u8| 1 <= q <= p ==> #[trigger] digit(c1, q) == digit(c0, q),
        child >> 45u64 == c0 >> 45u64,
        forall|q: u8| 1 <= q < start ==> #[trigger] digit(child, q) == digit(c1, q),
        forall|q: u8| t < q <= 15 ==> #[trigger] digit(child, q) == digit(c0, q),
        forall|q: u8| start <= q <= t ==> #[trigger] digit(child, q) <= 6,
        rank_hex_prefix(child, start, (t + 1) as u8, t) == pos0,
    ensures
        is_descendant(child, b, t),
        is_valid_cell(child),
        child_rank(child, is_pentagon_cell(b), (p + 1) as u8, t) == pos_in,
{
    let pent = is_pentagon_cell(b);
    lemma_high_bits(child, c0);
    lemma_rank_hex_split(child, start, (t + 1) as u8, t);
    assert(rank_hex(child, start, t) == pos0);
    assert forall|q: u8| 1 <= q <= p implies #[trigger] digit(child, q) == digit(b, q) by {
        assert(digit(child, q) == digit(c1, q));
        assert(digit(c1, q) == digit(c0, q));
    }
    assert forall|q: u8| t < q <= 15 implies #[trigger] digit(child, q) == 7 by {
        assert(digit(child, q) == digit(c0, q));
    }
    assert forall|q: u8| p + 1 <= q <= t implies #[trigger] digit(child, q) <= 6 by {
        if q < start {
            assert(digit(child, q) == digit(c1, q));
            if pent && left && q == start - 1 {
            } else {
                assert(digit(c1, q) == 0);
            }
        }
    }
    assert(digits_in_range(child, (p + 1) as u8, t));
    if pent {
        let lo = (p + 1) as u8;
        if left {
            let z = (start - 1) as u8;
            assert(all_digits(child, lo, (z - 1) as u8, 0)) by {
                assert forall|q: u8| lo <= q <= (z - 1) as u8 implies #[trigger] digit(child, q)
                    == 0 by {
                    assert(digit(child, q) == digit(c1, q));
                }
            }
            assert(digit(child, z) == dz);
            lemma_rank_pent_skip_zeros(child, lo, z, t);
            assert(rank_pent(child, z, t) == pentagon_children((t - z) as nat) + (dz - 2) * pow7(
                (t - z) as nat,
            ) + rank_hex(child, (z + 1) as u8, t));
            bits::lemma_leading_digit(child, lo, t, z);
        } else {
            assert(all_digits(child, lo, t, 0)) by {
                assert forall|q: u8| lo <= q <= t implies #[trigger] digit(child, q) == 0 by {
                    assert(digit(child, q) == digit(c1, q));
                }
            }
            lemma_rank_pent_first(child, lo, t);
            bits::lemma_leading_zero_iff(child, lo, t);
        }
    }
    assert(is_descendant(child, b, t));
    crate::index::iterator::children::lemma_descendant_valid(child, b, t);
}

impl CellIndex {
    /// Returns the child cell at a given position within the ordered list of
    /// all the children at `resolution`, `None` for a coarser resolution or
    /// a position out of bound.
    pub fn child_at(self, position: u64, resolution: Resolution) -> (child: Option<Self>)
        ensures
            child is Some <==> (resolution_of(self@) <= res_value(resolution) && position
                < children_count_of(self@, res_value(resolution))),
            child matches Some(c) ==> {
                &&& is_descendant(c@, self@, res_value(resolution))
                &&& child_rank(
                    c@,
                    is_pentagon_cell(self@),
                    (resolution_of(self@) + 1) as u8,
                    res_value(resolution),
                ) == position
            },
    {
        proof {
            use_type_invariant(&self);
        }
        if resolution.to_u8() < self.resolution().to_u8() || position >= self.children_count(
            resolution,
        ) {
            return None;
        }
        let ghost pos_in = position;
        let mut position = position;
        let t = resolution.to_u8();
        let p = self.resolution().to_u8();
        let ghost b = self@;
        let ghost pent = is_pentagon_cell(b);
        let mut child = bits::set_resolution(self.to_u64(), resolution);
        let ghost c0 = child;
        proof {
            lemma_masks();
            lemma_resolution_field(b, t);
            lemma_pow7_le((t - p) as nat);
            lemma_pentagon_children((t - p) as nat);
        }
        let mut cur_res = p;
        // Whether the walk left the pentagonal sub-tree, and the direction
        // it took there.
        let ghost mut left = false;
        let ghost mut dz: u8 = 0;
        if self.is_pentagon() {
            // While inside a pentagonal parent, the center child is the
            // pentagon; otherwise the digit is offset by the deleted `K`
            // direction.
            let mut res: u8 = p + 1;
            while res <= t
                invariant_except_break
                    p < res <= t + 1,
                    cur_res + 1 == res,
                    !left,
                    position == pos_in,
                    position < pentagon_children((t + 1 - res) as nat),
                invariant
                    p <= t <= 15,
                    t == res_value(resolution),
                    pent,
                    child >> 45u64 == c0 >> 45u64,
                    forall|q: u8| 1 <= q <= p ==> #[trigger] digit(child, q) == digit(c0, q),
                    forall|q: u8| p < q < res ==> #[trigger] digit(child, q) == 0,
                    forall|q: u8| cur_res < q <= 15 ==> #[trigger] digit(child, q) == digit(c0, q),
                ensures
                    p <= cur_res <= t,
                    left ==> {
                        &&& p < cur_res
                        &&& 2 <= dz <= 6
                        &&& digit(child, cur_res) == dz
                        &&& pos_in == pentagon_children((t - cur_res) as nat) + (dz - 2) * pow7(
                            (t - cur_res) as nat,
                        ) + position
                        &&& position < pow7((t - cur_res) as nat)
                    },
                    !left ==> cur_res == t && position == 0 && pos_in == 0,
                    forall|q: u8| p < q < cur_res ==> #[trigger] digit(child, q) == 0,
                    !left ==> forall|q: u8| p < q <= t ==> #[trigger] digit(child, q) == 0,
                decreases t + 1 - res,
            {
                cur_res = res;
                let n: usize = (t - res) as usize;
                let level = Resolution::new_unchecked(res);
                let pent_count = pentagon_children_count(n);
                proof {
                    lemma_pow7(n as nat);
                    assert((t + 1 - res) as nat == n as nat + 1);
                    lemma_with_digit(child, res, 0);
                }
                if position < pent_count {
                    child = bits::set_direction(child, 0, level);
                } else {
                    let count = hexagon_children_count(n);
                    position -= pent_count;
                    let ghost h = pow7(n as nat);
                    proof {
                        assert(position < 5 * h);
                        vstd::arithmetic::div_mod::lemma_fundamental_div_mod(position as int, h as int);
                        assert(position / count < 5) by (nonlinear_arith)
                            requires
                                position < 5 * h,
                                count == h,
                                h >= 1,
                        ;
                    }
                    let ghost before = child;
                    child = set_child_direction(child, (position / count) + 2, level);
                    proof {
                        dz = ((position / count) + 2) as u8;
                        lemma_with_digit(before, res, dz);
                        left = true;
                        let x = position as int;
                        let hh = h as int;
                        assert(x == (x / hh) * hh + x % hh) by (nonlinear_arith)
                            requires
                                x == hh * (x / hh) + x % hh,
                        ;
                        assert(pos_in == pentagon_children(n as nat) + (dz - 2) * h + position % count);
                    }
                    position %= count;
                    break;
                }
                res = res + 1;
            }
        }
        let ghost c1 = child;
        let ghost start = (cur_res + 1) as u8;
        let ghost pos0 = position;
        proof {
            if !pent {
                assert(pos0 < pow7((t - p) as nat));
            }
        }
        let mut res: u8 = cur_res + 1;
        while res <= t
            invariant
                start <= res <= t + 1,
                start == cur_res + 1,
                p <= cur_res <= t <= 15,
                t == res_value(resolution),
                child >> 45u64 == c0 >> 45u64,
                forall|q: u8| 1 <= q < start ==> #[trigger] digit(child, q) == digit(c1, q),
                forall|q: u8| res <= q <= 15 ==> #[trigger] digit(child, q) == digit(c0, q),
                forall|q: u8| start <= q < res ==> #[trigger] digit(child, q) <= 6,
                rank_hex_prefix(child, start, res, t) + position == pos0,
                position < pow7((t + 1 - res) as nat),
            decreases t + 1 - res,
        {
            let n: usize = (t - res) as usize;
            let level = Resolution::new_unchecked(res);
            let count = hexagon_children_count(n);
            let ghost h = pow7(n as nat);
            proof {
                lemma_pow7(n as nat);
                assert((t + 1 - res) as nat == n as nat + 1);
                vstd::arithmetic::div_mod::lemma_fundamental_div_mod(position as int, h as int);
                assert(position / count < 7) by (nonlinear_arith)
                    requires
                        position < 7 * h,
                        count == h,
                        h >= 1,
                ;
            }
            let ghost before = child;
            let d = position / count;
            child = set_child_direction(child, d, level);
            proof {
                lemma_with_digit(before, res, d as u8);
                lemma_rank_hex_prefix_congruent(child, before, start, res, t);
                assert(rank_hex_prefix(child, start, (res + 1) as u8, t) == rank_hex_prefix(
                    before,
                    start,
                    res,
                    t,
                ) + d * h);
                assert((t + 1 - (res + 1)) as nat == n as nat);
                let x = position as int;
                let hh = h as int;
                assert(x == (x / hh) * hh + x % hh) by (nonlinear_arith)
                    requires
                        x == hh * (x / hh) + x % hh,
                ;
            }
            position %= count;
            res = res + 1;
        }
        proof {
            child_at_rank(b, c0, c1, child, p, t, start, pos_in, pos0, left, dz);
        }
        Some(Self::new_unchecked(child))
    }
}

/// Indexes agreeing on the fields above the directions agree on every bit
/// from 45 up.
proof fn lemma_fields_high_bits(a: u64, b: u64)
    requires
        a >> 56u64 == b >> 56u64,
        resolution_of(a) == resolution_of(b),
        base_cell_of(a) == base_cell_of(b),
    ensures
        a >> 45u64 == b >> 45u64,
{
    lemma_masks();
    lemma_top_fields(a, b);
}

/// Below an hexagon, distinct directions in range give distinct positions.
pub(crate) proof fn lemma_rank_hex_injective(a: u64, b: u64, lo: u8, t: u8)
    requires
        1 <= lo <= t + 1,
        t <= 15,
        digits_in_range(a, lo, t),
        digits_in_range(b, lo, t),
        rank_hex(a, lo, t) == rank_hex(b, lo, t),
    ensures
        forall|q: u8| lo <= q <= t ==> #[trigger] digit(a, q) == digit(b, q),
    decreases t + 1 - lo,
{
    if lo <= t {
        let n = (t - lo) as nat;
        let h = pow7(n) as int;
        lemma_pow7(n);
        lemma_rank_hex_bound(a, (lo + 1) as u8, t);
        lemma_rank_hex_bound(b, (lo + 1) as u8, t);
        assert((t + 1 - (lo + 1)) as nat == n);
        let da = digit(a, lo) as int;
        let db = digit(b, lo) as int;
        let ra = rank_hex(a, (lo + 1) as u8, t) as int;
        let rb = rank_hex(b, (lo + 1) as u8, t) as int;
        assert(da == db) by (nonlinear_arith)
            requires
                da * h + ra == db * h + rb,
                0 <= ra < h,
                0 <= rb < h,
                0 <= da,
                0 <= db,
        ;
        lemma_rank_hex_injective(a, b, (lo + 1) as u8, t);
        assert forall|q: u8| lo <= q <= t implies #[trigger] digit(a, q) == digit(b, q) by {
            if q > lo {
                assert((lo + 1) as u8 <= q);
            }
        }
    }
}

/// Below a pentagon, distinct valid directions give distinct positions.
proof fn lemma_rank_pent_injective(a: u64, b: u64, lo: u8, t: u8)
    requires
        1 <= lo <= t + 1,
        t <= 15,
        digits_in_range(a, lo, t),
        digits_in_range(b, lo, t),
        leading_digit(a, lo, t) != 1,
        leading_digit(b, lo, t) != 1,
        rank_pent(a, lo, t) == rank_pent(b, lo, t),
    ensures
        forall|q: u8| lo <= q <= t ==> #[trigger] digit(a, q) == digit(b, q),
    decreases t + 1 - lo,
{
    if lo <= t {
        let n = (t - lo) as nat;
        let nxt = (lo + 1) as u8;
        assert((t + 1 - nxt) as nat == n);
        lemma_pow7(n);
        let da = digit(a, lo);
        let db = digit(b, lo);
        if da == 0 {
            lemma_rank_pent_bound(a, nxt, t);
        }
        if db == 0 {
            lemma_rank_pent_bound(b, nxt, t);
        }
        if da == 0 && db == 0 {
            lemma_rank_pent_injective(a, b, nxt, t);
        } else if da != 0 && db != 0 {
            let h = pow7(n) as int;
            lemma_rank_hex_bound(a, nxt, t);
            lemma_rank_hex_bound(b, nxt, t);
            let xa = (da - 2) as int;
            let xb = (db - 2) as int;
            let ra = rank_hex(a, nxt, t) as int;
            let rb = rank_hex(b, nxt, t) as int;
            assert(xa == xb) by (nonlinear_arith)
                requires
                    xa * h + ra == xb * h + rb,
                    0 <= ra < h,
                    0 <= rb < h,
                    0 <= xa,
                    0 <= xb,
            ;
            lemma_rank_hex_injective(a, b, nxt, t);
        } else {
            // One position is below the center sub-tree, the other above.
            let h = pow7(n) as int;
            if da == 0 {
                let x = (db - 2) as int;
                assert(0 <= x * h) by (nonlinear_arith)
                    requires
                        0 <= x,
                        0 <= h,
                ;
            } else {
                let x = (da - 2) as int;
                assert(0 <= x * h) by (nonlinear_arith)
                    requires
                        0 <= x,
                        0 <= h,
                ;
            }
        }
        assert forall|q: u8| lo <= q <= t implies #[trigger] digit(a, q) == digit(b, q) by {
            if q > lo {
                assert(nxt <= q);
            }
        }
    }
}

/// Each position designates at most one child: two descendants, at the same
/// resolution, of a cell with the same position are the same cell.
pub proof fn law_child_rank_injective(idx: u64, a: u64, b: u64, t: u8)
    requires
        is_valid_cell(idx),
        is_descendant(a, idx, t),
        is_descendant(b, idx, t),
        child_rank(a, is_pentagon_cell(idx), (resolution_of(idx) + 1) as u8, t) == child_rank(
            b,
            is_pentagon_cell(idx),
            (resolution_of(idx) + 1) as u8,
            t,
        ),
    ensures
        a == b,
{
    let r = resolution_of(idx);
    if is_pentagon_cell(idx) {
        lemma_rank_pent_injective(a, b, (r + 1) as u8, t);
    } else {
        lemma_rank_hex_injective(a, b, (r + 1) as u8, t);
    }
    assert forall|q: u8| 1 <= q <= 15 implies #[trigger] digit(a, q) == digit(b, q) by {
        if q <= r {
            assert(digit(a, q) == digit(idx, q));
        } else if q <= t {
            assert((r + 1) as u8 <= q);
        }
    }
    lemma_fields_high_bits(a, b);
    bits::lemma_bits_ext(a, b);
}

/// A valid cell descends, at its own resolution, from its parent at any
/// coarser resolution, where it has the position `child_position` computes;
/// and it is the only such descendant with that position. Hence
/// `child_at(child_position)` on the parent gives the cell back.
pub proof fn law_child_at_child_position(c: u64, r: u8, d: u64)
    requires
        is_valid_cell(c),
        r <= resolution_of(c),
    ensures
        ({
            let t = resolution_of(c);
            let parent = with_unused(with_resolution(c, r), r);
            &&& is_valid_cell(parent)
            &&& resolution_of(parent) == r
            &&& is_pentagon_cell(parent) == ancestor_is_pentagon(c, r)
            &&& is_descendant(c, parent, t)
            &&& child_rank(c, ancestor_is_pentagon(c, r), (r + 1) as u8, t) < children_count_of(
                parent,
                t,
            )
            &&& (is_descendant(d, parent, t) && child_rank(
                d,
                is_pentagon_cell(parent),
                (r + 1) as u8,
                t,
            ) == child_rank(c, ancestor_is_pentagon(c, r), (r + 1) as u8, t)) ==> d == c
        }),
{
    let t = resolution_of(c);
    let parent = with_unused(with_resolution(c, r), r);
    lemma_masks();
    lemma_parent_valid(c, r);
    lemma_parent_pentagon(c, r);
    lemma_resolution_field(c, r);
    bits::lemma_with_unused(with_resolution(c, r), r);
    lemma_high_bits(parent, with_resolution(c, r));
    let pent = is_pentagon_cell(parent);
    if pent {
        bits::lemma_leading_zero_iff(c, 1, r);
        crate::index::iterator::children::lemma_leading_split(c, 1, r, t);
    }
    assert(digits_in_range(c, (r + 1) as u8, t));
    assert(forall|q: u8| 1 <= q <= resolution_of(parent) ==> #[trigger] digit(c, q) == digit(parent, q));
    assert(forall|q: u8| t < q <= 15 ==> #[trigger] digit(c, q) == 7);
    assert(is_pentagon_cell(parent) ==> leading_digit(c, (resolution_of(parent) + 1) as u8, t) != 1);
    assert(is_descendant(c, parent, t));
    crate::index::iterator::children::lemma_descendant_valid(c, parent, t);
    assert((t + 1 - (r + 1)) as nat == (t - r) as nat);
    if pent {
        lemma_rank_pent_bound(c, (r + 1) as u8, t);
    } else {
        lemma_rank_hex_bound(c, (r + 1) as u8, t);
    }
    if is_descendant(d, parent, t) && child_rank(d, pent, (r + 1) as u8, t) == child_rank(
        c,
        pent,
        (r + 1) as u8,
        t,
    ) {
        law_child_rank_injective(parent, d, c, t);
    }
}

/// The parent, at the resolution of a cell, of any of its descendants is the
/// cell itself, and it is a pentagon iff the cell is. Hence
/// `child_position` of `child_at(n)` is `n`.
pub proof fn law_child_position_child_at(idx: u64, d: u64, t: u8)
    requires
        is_valid_cell(idx),
        is_descendant(d, idx, t),
    ensures
        is_valid_cell(d),
        resolution_of(idx) <= resolution_of(d),
        with_unused(with_resolution(d, resolution_of(idx)), resolution_of(idx)) == idx,
        ancestor_is_pentagon(d, resolution_of(idx)) == is_pentagon_cell(idx),
{
    let p = resolution_of(idx);
    crate::index::iterator::children::lemma_descendant_valid(d, idx, t);
    let parent = with_unused(with_resolution(d, p), p);
    lemma_parent_valid(d, p);
    lemma_resolution_field(d, p);
    bits::lemma_with_unused(with_resolution(d, p), p);
    lemma_high_bits(parent, with_resolution(d, p));
    assert forall|q: u8| 1 <= q <= 15 implies #[trigger] digit(parent, q) == digit(idx, q) by {}
    lemma_fields_high_bits(parent, idx);
    bits::lemma_bits_ext(parent, idx);
    if all_center(idx, p) {
        assert forall|q: u8| 1 <= q <= p implies #[trigger] digit(d, q) == 0 by {
            assert(digit(d, q) == digit(idx, q));
        }
    }
    if all_center(d, p) {
        assert forall|q: u8| 1 <= q <= p implies #[trigger] digit(idx, q) == 0 by {
            assert(digit(d, q) == digit(idx, q));
        }
    }
}

} // verus!
