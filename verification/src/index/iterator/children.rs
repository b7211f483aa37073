//! Iterator over the children of a cell.
use crate::direction::Direction;
use crate::index::bitvec::{lemma_field_writes, lemma_masks, lemma_top_fields};
use crate::index::bits::{
    self, base_cell_of, digit, digit_offset, field_of, leading_digit, lemma_digit_bound,
    lemma_digit_increment, lemma_high_bits, lemma_with_digit, mode_of, resolution_of, with_digit,
};
use crate::index::cell::{
    all_center, children_count_of, hexagon_children, is_pentagon_cell, is_valid_cell,
    lemma_clear_bits, lemma_resolution_field, pentagon_children, with_resolution, CellIndex,
};
use crate::index::rank::{
    all_digits, child_rank, digits_in_range, lemma_pentagon_children, lemma_pow7,
    lemma_rank_congruent, lemma_rank_hex_bound, lemma_rank_hex_extremes, lemma_rank_hex_step,
    lemma_rank_pent_bound, lemma_rank_pent_first, lemma_rank_pent_last, lemma_rank_pent_step,
    rank_hex, rank_pent,
};
use crate::resolution::{pow7, res_value, Resolution};
use vstd::prelude::*;

verus! {

/// `s` is a descendant, at resolution `t`, of the cell `idx`: same fields,
/// same directions down to the cell's resolution, directions in range down
/// to `t` and unused below.
pub open spec fn is_descendant(s: u64, idx: u64, t: u8) -> bool {
    &&& s >> 56u64 == idx >> 56u64
    &&& base_cell_of(s) == base_cell_of(idx)
    &&& resolution_of(s) == t
    &&& resolution_of(idx) <= t <= 15
    &&& forall|q: u8| 1 <= q <= resolution_of(idx) ==> #[trigger] digit(s, q) == digit(idx, q)
    &&& digits_in_range(s, (resolution_of(idx) + 1) as u8, t)
    &&& forall|q: u8| t < q <= 15 ==> #[trigger] digit(s, q) == 7
    &&& is_pentagon_cell(idx) ==> leading_digit(s, (resolution_of(idx) + 1) as u8, t) != 1
}

/// A descendant of a valid cell is a valid cell.
pub proof fn lemma_descendant_valid(s: u64, idx: u64, t: u8)
    requires
        is_valid_cell(idx),
        is_descendant(s, idx, t),
    ensures
        is_valid_cell(s),
{
    let p = resolution_of(idx);
    assert(mode_of(s) == mode_of(idx)) by {
        lemma_top_fields(s, idx);
    }
    assert forall|q: u8| 1 <= q <= 15 && q <= resolution_of(s) implies #[trigger] digit(s, q)
        <= 6 by {
        if q <= p {
            assert(digit(s, q) == digit(idx, q));
        } else {
            assert((p + 1) as u8 <= q <= t);
        }
    }
    if crate::base_cell::is_pentagon_base(base_cell_of(s)) {
        bits::lemma_leading_congruent(s, idx, 1, p);
        bits::lemma_leading_zero_iff(idx, 1, p);
        if leading_digit(s, 1, p) == 0 {
            assert forall|q: u8| 1 <= q <= p implies #[trigger] digit(idx, q) == 0 by {}
            assert(is_pentagon_cell(idx));
            lemma_leading_split(s, 1, p, t);
        } else {
            lemma_leading_prefix_nonzero(s, 1, p, t);
        }
    }
}

/// The leading digit, when the prefix up to `p` is all zero, is the leading
/// digit of the rest.
pub(crate) proof fn lemma_leading_split(s: u64, lo: u8, p: u8, t: u8)
    requires
        1 <= lo <= p + 1,
        p <= t <= 15,
        leading_digit(s, lo, p) == 0,
    ensures
        leading_digit(s, lo, t) == leading_digit(s, (p + 1) as u8, t),
    decreases 16 - lo,
{
    if lo <= p && lo <= 15 {
        lemma_leading_split(s, (lo + 1) as u8, p, t);
    }
}

/// A non-zero leading digit of a prefix is the leading digit of the whole.
proof fn lemma_leading_prefix_nonzero(s: u64, lo: u8, p: u8, t: u8)
    requires
        1 <= lo,
        p <= t <= 15,
        leading_digit(s, lo, p) != 0,
    ensures
        leading_digit(s, lo, t) == leading_digit(s, lo, p),
    decreases 16 - lo,
{
    if lo <= p && lo <= 15 && digit(s, lo) == 0 {
        lemma_leading_prefix_nonzero(s, (lo + 1) as u8, p, t);
    }
}

/// Iterator over the children cell indexes at a given resolution, in
/// increasing order.
pub struct Children {
    /// Starting cell resolution.
    parent_resolution: Resolution,
    /// Targeted cell resolution.
    target_resolution: Resolution,
    /// Iterator scratch space, used to build cell index iteratively.
    scratchpad: u64,
    /// For a pentagonal parent: the finest resolution down to which every
    /// direction is the center one (the next `K` direction there is
    /// skipped). -1 for an hexagonal parent.
    skip_count: i16,
    /// Remaining children at the targeted resolution.
    count: u64,
    /// The parent cell.
    index: Ghost<u64>,
}

impl Children {
    /// The parent cell.
    pub closed spec fn parent(self) -> u64 {
        self.index@
    }

    /// The target resolution.
    pub closed spec fn target(self) -> u8 {
        res_value(self.target_resolution)
    }

    /// The number of children still to come.
    pub closed spec fn remaining(self) -> nat {
        self.count as nat
    }

    /// The iterator's state is consistent.
    pub closed spec fn wf(self) -> bool {
        let p = res_value(self.parent_resolution);
        let t = res_value(self.target_resolution);
        let idx = self.index@;
        let s = self.scratchpad;
        let pent = is_pentagon_cell(idx);
        &&& is_valid_cell(idx)
        &&& resolution_of(idx) == p
        &&& self.count <= children_count_of(idx, t)
        &&& self.count > 0 ==> {
            &&& p <= t
            &&& is_descendant(s, idx, t)
            &&& self.count + child_rank(s, pent, (p + 1) as u8, t) == children_count_of(idx, t)
            &&& pent ==> {
                &&& p <= self.skip_count <= t
                &&& all_digits(s, (p + 1) as u8, self.skip_count as u8, 0)
                &&& self.skip_count < t ==> digit(s, (self.skip_count + 1) as u8) != 0
            }
            &&& !pent ==> self.skip_count == -1
        }
    }

    /// Returns an iterator over the children cell index at the given
    /// resolution.
    pub fn new(index: CellIndex, resolution: Resolution) -> (c: Self)
        ensures
            c.wf(),
            c.parent() == index@,
            c.target() == res_value(resolution),
            c.remaining() == children_count_of(index@, res_value(resolution)),
    {
        proof {
            use_type_invariant(&index);
        }
        let parent_resolution = index.resolution();
        let is_pentagon = index.is_pentagon();
        let scratchpad = get_starting_state(index, resolution);
        let c = Self {
            parent_resolution,
            target_resolution: resolution,
            scratchpad,
            skip_count: if is_pentagon {
                resolution.to_u8() as i16
            } else {
                -1
            },
            count: index.children_count(resolution),
            index: Ghost(index@),
        };
        proof {
            let p = res_value(parent_resolution);
            let t = res_value(resolution);
            if p <= t {
                lemma_pow7((t - p) as nat);
                lemma_pentagon_children((t - p) as nat);
                assert(all_digits(scratchpad, (p + 1) as u8, t, 0));
                lemma_rank_hex_extremes(scratchpad, (p + 1) as u8, t);
                lemma_rank_pent_first(scratchpad, (p + 1) as u8, t);
                bits::lemma_leading_zero_iff(scratchpad, (p + 1) as u8, t);
                assert(digits_in_range(scratchpad, (p + 1) as u8, t));
            }
        }
        c
    }

    /// Moves the scratchpad to the next direction value at `resolution`,
    /// and returns that direction.
    fn next_direction(&mut self, resolution: Resolution) -> (d: u8)
        requires
            res_value(resolution) != 0,
            digit(old(self).scratchpad, res_value(resolution)) <= 6,
        ensures
            final(self).scratchpad == with_digit(
                old(self).scratchpad,
                res_value(resolution),
                (digit(old(self).scratchpad, res_value(resolution)) + 1) as u8,
            ),
            d == digit(old(self).scratchpad, res_value(resolution)) + 1,
            final(self).parent_resolution == old(self).parent_resolution,
            final(self).target_resolution == old(self).target_resolution,
            final(self).skip_count == old(self).skip_count,
            final(self).count == old(self).count,
            final(self).index == old(self).index,
    {
        proof {
            lemma_digit_increment(self.scratchpad, res_value(resolution));
            lemma_with_digit(
                self.scratchpad,
                res_value(resolution),
                (digit(self.scratchpad, res_value(resolution)) + 1) as u8,
            );
        }
        // Shift the 1 to apply it on the right direction.
        let one: u64 = 1u64 << resolution.direction_offset();

        // Add one to the direction.
        self.scratchpad = self.scratchpad + one;

        bits::get_direction(self.scratchpad, resolution)
    }

    /// Returns the next child, if any.
    ///
    /// Children come in increasing order: the one returned has the position
    /// (among all the children) given by the number already returned.
    pub fn next(&mut self) -> (r: Option<CellIndex>)
        requires
            old(self).wf(),
        ensures
            final(self).wf(),
            final(self).parent() == old(self).parent(),
            final(self).target() == old(self).target(),
            old(self).remaining() == 0 ==> r is None && final(self).remaining() == 0,
            old(self).remaining() > 0 ==> {
                &&& final(self).remaining() == old(self).remaining() - 1
                &&& r matches Some(c) && {
                    &&& is_descendant(c@, old(self).parent(), old(self).target())
                    &&& child_rank(
                        c@,
                        is_pentagon_cell(old(self).parent()),
                        (resolution_of(old(self).parent()) + 1) as u8,
                        old(self).target(),
                    ) + old(self).remaining() == children_count_of(
                        old(self).parent(),
                        old(self).target(),
                    )
                }
            },
    {
        // No more children, we're done.
        if self.count == 0 {
            return None;
        }
        let ghost idx = self.index@;
        let ghost p = res_value(self.parent_resolution);
        let ghost t = res_value(self.target_resolution);
        let ghost pent = is_pentagon_cell(idx);
        let ghost s0 = self.scratchpad;
        let ghost z0 = self.skip_count;
        proof {
            lemma_descendant_valid(s0, idx, t);
        }

        // Extract the current index, to return it.
        let index = CellIndex::new_unchecked(self.scratchpad);
        self.count = self.count - 1;

        // Prepare the next iteration, if any, by incrementing the scratchpad.
        if self.count != 0 {
            let p8 = self.parent_resolution.to_u8();
            let mut res = self.target_resolution.to_u8();
            proof {
                lemma_rank_bound(s0, idx, t);
            }
            loop
                invariant_except_break
                    p8 == p,
                    p == res_value(old(self).parent_resolution),
                    t == res_value(old(self).target_resolution),
                    p < res <= t,
                    t <= 15,
                    self.index@ == idx,
                    self.parent_resolution == old(self).parent_resolution,
                    self.target_resolution == old(self).target_resolution,
                    self.count == old(self).count - 1,
                    self.count != 0,
                    self.skip_count == z0,
                    is_valid_cell(idx),
                    resolution_of(idx) == p,
                    is_descendant(s0, idx, t),
                    old(self).count + child_rank(s0, pent, (p + 1) as u8, t) == children_count_of(idx, t),
                    child_rank(s0, pent, (p + 1) as u8, t) + 1 < children_count_of(idx, t),
                    pent == is_pentagon_cell(idx),
                    pent ==> {
                        &&& p <= z0 <= t
                        &&& all_digits(s0, (p + 1) as u8, z0 as u8, 0)
                        &&& z0 < t ==> digit(s0, (z0 + 1) as u8) != 0
                    },
                    !pent ==> z0 == -1,
                    res < z0 ==> !pent,
                    self.scratchpad >> 45u64 == s0 >> 45u64,
                    forall|q: u8| 1 <= q <= res ==> #[trigger] digit(self.scratchpad, q) == digit(s0, q),
                    forall|q: u8| res < q <= t ==> #[trigger] digit(self.scratchpad, q) == 0,
                    forall|q: u8| t < q <= 15 ==> #[trigger] digit(self.scratchpad, q) == 7,
                    all_digits(s0, (res + 1) as u8, t, 6),
                ensures
                    self.wf(),
                    self.index@ == idx,
                    self.parent_resolution == old(self).parent_resolution,
                    self.target_resolution == old(self).target_resolution,
                    self.count == old(self).count - 1,
                decreases res,
            {
                let resolution = Resolution::new_unchecked(res);
                let ghost before = self.scratchpad;
                assert(digit(before, res) <= 6);
                // Move to the next direction value.
                let direction = self.next_direction(resolution);
                let ghost after_first = self.scratchpad;

                // First K axe of each resolution is skipped for pentagonal
                // index.
                if self.skip_count == res as i16 && direction == Direction::K.to_u8() {
                    proof {
                        lemma_with_digit(before, res, 1);
                        assert(digit(after_first, res) == 1);
                    }
                    self.next_direction(resolution);
                    self.skip_count = self.skip_count - 1;
                }

                // If we have exhausted this resolution, move to the lower one.
                if direction > crate::direction::MAX {
                    let ghost pre_clear = self.scratchpad;
                    self.scratchpad = bits::clr_direction(self.scratchpad, resolution);
                    proof {
                        lemma_with_digit(before, res, 7);
                        lemma_with_digit(pre_clear, res, 0);
                        assert(digit(s0, res) == 6);
                        if res == p + 1 {
                            assert(all_digits(s0, (p + 1) as u8, t, 6));
                            lemma_last_child(s0, idx, t);
                            assert(false);
                        }
                        assert forall|q: u8| (res - 1) as u8 + 1 <= q <= t implies #[trigger] digit(s0, q) == 6 by {
                            if q > res {
                                assert((res + 1) as u8 <= q);
                            }
                        }
                        lemma_high_bits(self.scratchpad, before);
                        lemma_high_bits(pre_clear, before);
                        assert(self.scratchpad >> 45u64 == s0 >> 45u64);
                    }
                    res = res - 1;
                    continue;
                }

                proof {
                    let s1 = self.scratchpad;
                    let d = digit(s0, res);
                    lemma_with_digit(before, res, (d + 1) as u8);
                    if z0 == res as i16 && d == 0 {
                        lemma_with_digit(after_first, res, 2);
                    }
                    lemma_high_bits(s1, before);
                    lemma_step_rank(s0, s1, idx, p, res, t, z0, pent);
                    if z0 == res as i16 {
                        assert(digit(s0, res) == 0);
                    }
                    assert(self.skip_count == if z0 == res as i16 {
                        z0 - 1
                    } else {
                        z0 as int
                    });
                    assert(self.count + child_rank(s1, pent, (p + 1) as u8, t) == children_count_of(idx, t));
                    assert(is_descendant(s1, idx, t));
                    assert(self.count <= children_count_of(idx, t));
                    if pent {
                        let z1 = self.skip_count;
                        assert(p <= z1 <= t);
                        assert(all_digits(s1, (p + 1) as u8, z1 as u8, 0));
                        assert(z1 < t ==> digit(s1, (z1 + 1) as u8) != 0);
                    } else {
                        assert(self.skip_count == -1);
                    }
                    assert(res_value(self.parent_resolution) == p);
                    assert(res_value(self.target_resolution) == t);
                }
                break;
            }
        }
        Some(index)
    }

    /// The remaining number of children, as bounds.
    pub fn size_hint(&self) -> (h: (usize, Option<usize>))
        ensures
            self.remaining() <= usize::MAX ==> h == (self.remaining() as usize, Some(self.remaining() as usize)),
            self.remaining() > usize::MAX ==> h == (usize::MAX, Some(usize::MAX)),
    {
        let count = if self.count <= usize::MAX as u64 {
            self.count as usize
        } else {
            usize::MAX
        };
        (count, Some(count))
    }
}

/// The position of a descendant is below the number of descendants.
pub proof fn lemma_rank_bound(s: u64, idx: u64, t: u8)
    requires
        is_valid_cell(idx),
        is_descendant(s, idx, t),
    ensures
        child_rank(s, is_pentagon_cell(idx), (resolution_of(idx) + 1) as u8, t)
            < children_count_of(idx, t),
{
    let p = resolution_of(idx);
    if is_pentagon_cell(idx) {
        lemma_rank_pent_bound(s, (p + 1) as u8, t);
    } else {
        lemma_rank_hex_bound(s, (p + 1) as u8, t);
    }
    assert((t + 1 - (p + 1)) as nat == (t - p) as nat);
}

/// The descendant whose directions are all 6 is the last one.
proof fn lemma_last_child(s: u64, idx: u64, t: u8)
    requires
        is_valid_cell(idx),
        is_descendant(s, idx, t),
        all_digits(s, (resolution_of(idx) + 1) as u8, t, 6),
    ensures
        child_rank(s, is_pentagon_cell(idx), (resolution_of(idx) + 1) as u8, t) + 1
            == children_count_of(idx, t),
{
    let p = resolution_of(idx);
    lemma_rank_hex_extremes(s, (p + 1) as u8, t);
    lemma_rank_pent_last(s, (p + 1) as u8, t);
    assert((t + 1 - (p + 1)) as nat == (t - p) as nat);
}

/// One step of the children walk moves to the next position and keeps the
/// walk's invariant.
proof fn lemma_step_rank(s0: u64, s1: u64, idx: u64, p: u8, res: u8, t: u8, z0: i16, pent: bool)
    requires
        is_valid_cell(idx),
        resolution_of(idx) == p,
        p < res <= t <= 15,
        is_descendant(s0, idx, t),
        pent == is_pentagon_cell(idx),
        pent ==> {
            &&& p <= z0 <= t
            &&& all_digits(s0, (p + 1) as u8, z0 as u8, 0)
            &&& z0 < t ==> digit(s0, (z0 + 1) as u8) != 0
        },
        !pent ==> z0 == -1,
        res < z0 ==> !pent,
        digit(s0, res) < 6,
        s1 >> 45u64 == s0 >> 45u64,
        forall|q: u8| 1 <= q < res ==> #[trigger] digit(s1, q) == digit(s0, q),
        digit(s1, res) == if z0 == res as i16 && digit(s0, res) == 0 {
            2
        } else {
            digit(s0, res) + 1
        },
        forall|q: u8| res < q <= t ==> #[trigger] digit(s1, q) == 0,
        forall|q: u8| t < q <= 15 ==> #[trigger] digit(s1, q) == 7,
        all_digits(s0, (res + 1) as u8, t, 6),
    ensures
        is_descendant(s1, idx, t),
        child_rank(s1, pent, (p + 1) as u8, t) == child_rank(s0, pent, (p + 1) as u8, t) + 1,
        pent ==> {
            let z1: int = if z0 == res as i16 {
                z0 - 1
            } else {
                z0 as int
            };
            &&& p <= z1 <= t
            &&& all_digits(s1, (p + 1) as u8, z1 as u8, 0)
            &&& z1 < t ==> digit(s1, (z1 + 1) as u8) != 0
        },
{
    lemma_high_bits(s1, s0);
    let lo = (p + 1) as u8;
    assert(all_digits(s1, (res + 1) as u8, t, 0));
    if !pent {
        lemma_rank_hex_step(s0, s1, lo, res, t);
    } else {
        // The walk never goes above the first non-center direction.
        assert(res >= z0) by {
            if res < z0 {
                assert(all_digits(s0, (p + 1) as u8, z0 as u8, 0));
            }
        }
        bits::lemma_leading_zero_iff(s0, lo, (res - 1) as u8);
        if z0 == res as i16 {
            assert(digit(s0, res) == 0);
            assert(all_digits(s0, lo, (res - 1) as u8, 0));
            bits::lemma_leading_zero_iff(s0, lo, res);
            lemma_rank_pent_step(s0, s1, lo, res, t);
            assert(digit(s1, res) == 2);
            assert(all_digits(s1, lo, (z0 - 1) as u8, 0));
            // The first non-center direction is now 2.
            bits::lemma_leading_zero_iff(s1, lo, (res - 1) as u8);
            lemma_leading_at(s1, lo, res, t);
        } else {
            assert(z0 < res);
            let zz = (z0 + 1) as u8;
            assert(digit(s0, zz) != 0);
            // The first non-center direction is at `z0 + 1`.
            lemma_leading_first_nonzero(s0, lo, zz, res);
            lemma_leading_first_nonzero(s0, lo, zz, t);
            assert(leading_digit(s0, lo, res) != 1);
            if zz == res {
                assert(!(digit(s0, res) == 0));
            } else {
                assert(!all_digits(s0, lo, (res - 1) as u8, 0)) by {
                    assert(digit(s0, zz) != 0);
                }
            }
            lemma_rank_pent_step(s0, s1, lo, res, t);
            assert(all_digits(s1, lo, z0 as u8, 0));
            assert(digit(s1, zz) != 0);
            lemma_leading_first_nonzero(s1, lo, zz, t);
            if zz == res {
                assert(digit(s1, zz) == digit(s0, zz) + 1);
            } else {
                assert(digit(s1, zz) == digit(s0, zz));
            }
        }
    }
}

/// The leading digit is the one at `z` when every earlier one is zero and
/// that one is not.
proof fn lemma_leading_first_nonzero(s: u64, lo: u8, z: u8, hi: u8)
    requires
        1 <= lo <= z <= hi <= 15,
        all_digits(s, lo, (z - 1) as u8, 0),
        digit(s, z) != 0,
    ensures
        leading_digit(s, lo, hi) == digit(s, z),
{
    bits::lemma_leading_digit(s, lo, hi, z);
}

/// After the skip, the first non-center direction is the 2 at `res`.
proof fn lemma_leading_at(s: u64, lo: u8, res: u8, t: u8)
    requires
        1 <= lo <= res <= t <= 15,
        all_digits(s, lo, (res - 1) as u8, 0),
        digit(s, res) == 2,
    ensures
        leading_digit(s, lo, t) == 2,
{
    bits::lemma_leading_digit(s, lo, t, res);
}

/// Returns the starting state of the listing: the center child at the
/// target resolution (or the cell itself for a coarser resolution).
fn get_starting_state(index: CellIndex, resolution: Resolution) -> (s: u64)
    ensures
        res_value(resolution) < resolution_of(index@) ==> s == index@,
        res_value(resolution) >= resolution_of(index@) ==> {
            &&& s >> 45u64 == with_resolution(index@, res_value(resolution)) >> 45u64
            &&& forall|q: u8|
                1 <= q <= 15 ==> #[trigger] digit(s, q) == if resolution_of(index@) < q
                    <= res_value(resolution) {
                    0
                } else {
                    digit(index@, q)
                }
            &&& is_descendant(s, index@, res_value(resolution))
        },
{
    proof {
        use_type_invariant(&index);
    }
    let parent_resolution = index.resolution();

    // Compute the range of resolution to iterate over.
    let range: usize = if resolution.to_u8() >= parent_resolution.to_u8() {
        (resolution.to_u8() - parent_resolution.to_u8()) as usize
    } else {
        0
    };

    let mut scratchpad = index.to_u64();
    // If we have resolution between current and targeted one we clear their
    // directions.
    if range != 0 {
        // Mask with the right number of bit to cover the directions.
        let width = (range * 3) as u64;
        proof {
            lemma_masks();
            assert((1u64 << width) >= 1u64);
        }
        let mask = (1u64 << width) - 1;
        // Mask offset required to clear the directions.
        let offset = resolution.direction_offset() as u64;

        // Clear directions.
        let ghost b = scratchpad;
        scratchpad = scratchpad & !(mask << offset);
        let ghost cleared = scratchpad;
        // Set resolution.
        scratchpad = bits::set_resolution(scratchpad, resolution);
        proof {
            let r = res_value(resolution);
            let cur = resolution_of(b);
            let start = digit_offset(cur);
            assert(start == offset + width);
            assert forall|q: u8| 1 <= q <= 15 implies #[trigger] digit(cleared, q) == if cur < q <= r {
                0
            } else {
                digit(b, q)
            } by {
                let o = digit_offset(q);
                lemma_masks();
                lemma_clear_bits(b, mask, width, offset, o, 0);
            }
            lemma_clear_bits(b, mask, width, offset, 0, r as u64);
            lemma_high_bits(cleared, b);
            lemma_resolution_field(cleared, r);
            lemma_resolution_field(b, r);
            assert(with_resolution(cleared, r) >> 45u64 == with_resolution(b, r) >> 45u64);
            bits::lemma_leading_zero_iff(scratchpad, (cur + 1) as u8, r);
            assert(digits_in_range(scratchpad, (cur + 1) as u8, r));
        }
    } else {
        proof {
            let r = res_value(resolution);
            let cur = resolution_of(scratchpad);
            if r >= cur {
                assert(r == cur);
                assert(with_resolution(scratchpad, r) == scratchpad) by {
                    let v = r as u64;
                    let b = scratchpad;
                    lemma_masks();
                    lemma_field_writes(b, 0, 0, v);
                }
                bits::lemma_leading_zero_iff(scratchpad, (cur + 1) as u8, r);
                assert(digits_in_range(scratchpad, (cur + 1) as u8, r));
            }
        }
    }

    scratchpad
}

impl CellIndex {
    /// Returns the children, at the specified resolution, of the cell index.
    pub fn children(self, resolution: Resolution) -> (c: Children)
        ensures
            c.wf(),
            c.parent() == self@,
            c.target() == res_value(resolution),
            c.remaining() == children_count_of(self@, res_value(resolution)),
    {
        Children::new(self, resolution)
    }
}

} // verus!
