//! Iterator for the directed edges forming the "Gosper island" outline of a
//! cell's child set at a given resolution.
//!
//! For a cell with resolution `r`, the boundary of the cell's children at
//! resolution `R` forms a closed loop of directed edges (the Gosper island):
//! `6 * 3^(R - r)` edges for an hexagon, `5 * 3^(R - r)` for a pentagon.
//!
//! At each resolution below the cell, the walk cycles through 18 positions
//! (6 sides, 3 segments per side), each mapped to a non-center direction.
//! A level moves on when every finer level asks it to, which makes the walk
//! an odometer in base 3. Pentagons are walked as hexagons, skipping the
//! positions on the deleted `K` side.
use crate::direction::{dir_value, Direction};
use crate::grid::leaves_ancestor;
use crate::index::bits::{self, base_cell_of, digit, field_of, mode_of, resolution_of};
use crate::index::bitvec::{lemma_high_fields, lemma_masks, lemma_top_fields};
use crate::index::cell::{is_pentagon_cell, is_valid_cell, CellIndex};
use crate::index::edge::{
    derived_bits, is_valid_edge, lemma_derived_field, owner_bits, DirectedEdgeIndex, Edge,
};
use crate::index::iterator::children::is_descendant;
use crate::index::mode::IndexMode;
use crate::resolution::{res_value, Resolution};
use vstd::prelude::*;

verus! {

// -----------------------------------------------------------------------------
// Walk tables.

/// The direction at each of the 18 walk positions: the 6 non-center
/// directions `{1, 5, 4, 6, 2, 3}` in counter-clockwise order, each repeated
/// three times.
pub open spec fn walk_digit_value(i: u8) -> u8 {
    if i < 3 {
        1
    } else if i < 6 {
        5
    } else if i < 9 {
        4
    } else if i < 12 {
        6
    } else if i < 15 {
        2
    } else {
        3
    }
}

/// The edge direction at each edge position, in counter-clockwise order
/// around the hexagon: `{3, 1, 5, 4, 6, 2}`.
pub open spec fn edge_dir_value(i: u8) -> u8 {
    if i == 0 {
        3
    } else if i == 1 {
        1
    } else if i == 2 {
        5
    } else if i == 3 {
        4
    } else if i == 4 {
        6
    } else {
        2
    }
}

/// Position in the cycle of walk directions (period 18).
#[derive(Clone, Copy)]
struct WalkDigitsIndex(u8);

impl WalkDigitsIndex {
    /// Starting position of a level below the first one: 14 for a Class III
    /// resolution, 16 otherwise.
    fn new(is_class3: bool) -> (w: Self)
        ensures
            w.0 == if is_class3 {
                14u8
            } else {
                16u8
            },
    {
        Self(
            if is_class3 {
                14
            } else {
                16
            },
        )
    }

    /// New parent cell: shift back by 6 positions.
    fn next_parent(&mut self)
        requires
            old(self).0 < 18,
        ensures
            final(self).0 == if old(self).0 < 6 {
                old(self).0 + 12
            } else {
                old(self).0 - 6
            },
    {
        if self.0 < 6 {
            self.0 += 12;
        } else {
            self.0 -= 6;
        }
    }

    /// Next position in the cycle.
    fn next_position(&mut self)
        requires
            old(self).0 < 18,
        ensures
            final(self).0 == if old(self).0 == 17 {
                0
            } else {
                old(self).0 + 1
            },
    {
        if self.0 == 17 {
            self.0 = 0;
        } else {
            self.0 += 1;
        }
    }
}

/// The direction at a walk position.
fn walk_digit(index: WalkDigitsIndex) -> (d: Direction)
    ensures
        dir_value(d) == walk_digit_value(index.0),
{
    if index.0 < 3 {
        Direction::K
    } else if index.0 < 6 {
        Direction::IK
    } else if index.0 < 9 {
        Direction::I
    } else if index.0 < 12 {
        Direction::IJ
    } else if index.0 < 15 {
        Direction::J
    } else {
        Direction::JK
    }
}

/// Position in the cycle of edge directions (period 6).
#[derive(Clone, Copy)]
struct EdgeDirectionsIndex(u8);

impl EdgeDirectionsIndex {
    /// Moving to a new origin cell shifts the position back by 2.
    fn next_cell(&mut self)
        requires
            old(self).0 < 6,
        ensures
            final(self).0 == (old(self).0 + 4) % 6,
    {
        if self.0 >= 2 {
            self.0 -= 2;
        } else {
            self.0 += 4;
        }
    }

    /// Next position in the cycle.
    fn next_edge(&mut self)
        requires
            old(self).0 < 6,
        ensures
            final(self).0 == if old(self).0 == 5 {
                0
            } else {
                old(self).0 + 1
            },
    {
        if self.0 == 5 {
            self.0 = 0;
        } else {
            self.0 += 1;
        }
    }
}

/// The edge direction at an edge position.
fn edge_dir(index: EdgeDirectionsIndex) -> (d: Direction)
    requires
        index.0 < 6,
    ensures
        dir_value(d) == edge_dir_value(index.0),
{
    match index.0 {
        0 => Direction::JK,
        1 => Direction::K,
        2 => Direction::IK,
        3 => Direction::I,
        4 => Direction::IJ,
        _ => Direction::J,
    }
}

/// The edge at an edge position.
fn edge_at(index: EdgeDirectionsIndex) -> (e: Edge)
    requires
        index.0 < 6,
    ensures
        e.value() == edge_dir_value(index.0),
{
    Edge::new_unchecked(edge_dir(index).to_u8())
}

/// Walk position of every resolution level.
struct WalkIndices(Vec<WalkDigitsIndex>);

impl WalkIndices {
    /// The positions, indexed by resolution.
    spec fn view(&self) -> Seq<u8> {
        self.0@.map_values(|w: WalkDigitsIndex| w.0)
    }

    /// Every level at position 0.
    fn new() -> (w: Self)
        ensures
            w.view().len() == 16,
            forall|i: int| 0 <= i < 16 ==> #[trigger] w.view()[i] == 0,
    {
        let mut v: Vec<WalkDigitsIndex> = Vec::new();
        let mut i: usize = 0;
        while i < 16
            invariant
                i <= 16,
                v@.len() == i,
                forall|j: int| 0 <= j < i ==> (#[trigger] v@[j]).0 == 0,
            decreases 16 - i,
        {
            v.push(WalkDigitsIndex(0));
            i = i + 1;
        }
        WalkIndices(v)
    }

    /// The position at a resolution.
    fn at(&self, res: Resolution) -> (w: WalkDigitsIndex)
        requires
            self.view().len() == 16,
        ensures
            w.0 == self.view()[res_value(res) as int],
    {
        self.0[res.to_u8() as usize]
    }

    /// Sets the position at a resolution.
    fn set(&mut self, res: Resolution, w: WalkDigitsIndex)
        requires
            old(self).view().len() == 16,
        ensures
            final(self).view() == old(self).view().update(res_value(res) as int, w.0),
    {
        let i = res.to_u8() as usize;
        self.0.set(i, w);
        proof {
            assert(self.view() =~= old(self).view().update(res_value(res) as int, w.0));
        }
    }
}

/// The point where each level moves to the next cell depends on the
/// resolution class: Class II (even) moves at `walk_idx % 3 == 0`, Class III
/// (odd) at `walk_idx % 3 == 1`.
fn need_to_move_to_next(walk_idx: WalkDigitsIndex, curr_resolution: Resolution) -> (b: bool)
    requires
        walk_idx.0 < 18,
    ensures
        b == (walk_idx.0 % 3 == res_value(curr_resolution) % 2),
{
    // `walk_idx % 3` for the 18 positions, packed 2 bits per position (3,
    // which matches no class, in place of 2).
    let lut: u64 = 0xfffffffd34d34d34;
    let shift = (walk_idx.0 as u64) << 1u64;
    let r = curr_resolution.to_u8() as u64;
    let class = r & 1;
    let w = walk_idx.0 as u64;
    proof {
        lemma_lut_bits(r, w, class);
    }
    (lut >> shift) & 0b11 == class
}

// -----------------------------------------------------------------------------
// Walk progress.

/// 3 to the power `n`.
pub open spec fn pow3(n: nat) -> nat
    decreases n,
{
    if n == 0 {
        1
    } else {
        3 * pow3((n - 1) as nat)
    }
}

/// The position after `w` in the cycle of 18.
pub open spec fn next_walk(w: u8) -> u8 {
    if w == 17 {
        0
    } else {
        (w + 1) as u8
    }
}

/// How many more steps the level `res`, at walk position `w`, takes before
/// it moves its coarser level on.
pub open spec fn steps_left(w: u8, res: u8) -> nat {
    (((res % 2) + 3 - (w % 3)) % 3) as nat
}

/// The steps left at the levels `lo..=t`, read as a number in base 3 (the
/// finest level as the least significant digit): the number of walk steps
/// before the level `lo - 1` moves.
pub open spec fn pending(w: Seq<u8>, lo: u8, t: u8) -> nat
    decreases 16 - lo,
{
    if lo > t || lo > 15 {
        0
    } else {
        steps_left(w[lo as int], lo) * pow3((t - lo) as nat) + pending(w, (lo + 1) as u8, t)
    }
}

/// The number of walk steps taken since the first level below the cell
/// (`p + 1`) was at position 0, when it has not wrapped around.
pub open spec fn progress(w: Seq<u8>, p: u8, t: u8) -> int {
    let k = (t - p - 1) as nat;
    w[p + 1] * pow3(k) + pow3(k) - 1 - pending(w, (p + 2) as u8, t)
}

/// One walk step, where `l0` is the coarsest level that moved: the finer
/// levels were each about to move their coarser level, and start over.
pub open spec fn stepped_at(old_w: Seq<u8>, new_w: Seq<u8>, p: u8, t: u8, l0: u8) -> bool {
    &&& p + 1 <= l0 <= t
    &&& (l0 == p + 1 || steps_left(old_w[l0 as int], l0) > 0)
    &&& new_w[l0 as int] == next_walk(old_w[l0 as int])
    &&& forall|q: u8|
        #![trigger old_w[q as int]]
        #![trigger new_w[q as int]]
        l0 < q <= t ==> steps_left(old_w[q as int], q) == 0 && steps_left(new_w[q as int], q) == 2
    &&& forall|i: int| 0 <= i < 16 && (i < l0 || i > t) ==> #[trigger] new_w[i] == old_w[i]
    &&& new_w.len() == old_w.len()
}

/// Moving to the next position takes one step off (or starts over).
proof fn lemma_steps_left_next(w: u8, res: u8)
    requires
        w < 18,
    ensures
        steps_left(next_walk(w), res) == if steps_left(w, res) == 0 {
            2
        } else {
            (steps_left(w, res) - 1) as nat
        },
{
    let c = res % 2;
    assert(c <= 1);
    if w == 17 {
        assert(w % 3 == 2);
        assert(next_walk(w) % 3 == 0);
    } else {
        assert((w + 1) % 3 == if w % 3 == 2 { 0 } else { w % 3 + 1 });
    }
}

/// `3^(n+1) == 3 * 3^n`, and powers of 3 are positive.
proof fn lemma_pow3(n: nat)
    ensures
        pow3(n + 1) == 3 * pow3(n),
        pow3(n) >= 1,
    decreases n,
{
    if n > 0 {
        lemma_pow3((n - 1) as nat);
    }
}

/// The steps left at `lo..=t` are fewer than `3^(t + 1 - lo)`.
proof fn lemma_pending_bound(w: Seq<u8>, lo: u8, t: u8)
    requires
        1 <= lo <= t + 1,
        t <= 15,
    ensures
        pending(w, lo, t) + 1 <= pow3((t + 1 - lo) as nat),
    decreases t + 1 - lo,
{
    if lo <= t {
        let n = (t - lo) as nat;
        lemma_pending_bound(w, (lo + 1) as u8, t);
        lemma_pow3(n);
        assert((t + 1 - (lo + 1)) as nat == n);
        assert((t + 1 - lo) as nat == n + 1);
        let r = steps_left(w[lo as int], lo);
        assert(r * pow3(n) <= 2 * pow3(n)) by (nonlinear_arith)
            requires
                r <= 2,
        ;
    }
}

/// Levels that all have to move give no pending step; levels that all just
/// started over give the most.
proof fn lemma_pending_extremes(w: Seq<u8>, lo: u8, t: u8)
    requires
        1 <= lo <= t + 1,
        t <= 15,
    ensures
        (forall|q: u8| lo <= q <= t ==> steps_left(#[trigger] w[q as int], q) == 0) ==> pending(
            w,
            lo,
            t,
        ) == 0,
        (forall|q: u8| lo <= q <= t ==> steps_left(#[trigger] w[q as int], q) == 2) ==> pending(
            w,
            lo,
            t,
        ) + 1 == pow3((t + 1 - lo) as nat),
    decreases t + 1 - lo,
{
    if lo <= t {
        lemma_pending_extremes(w, (lo + 1) as u8, t);
        let n = (t - lo) as nat;
        lemma_pow3(n);
        assert((t + 1 - (lo + 1)) as nat == n);
        assert((t + 1 - lo) as nat == n + 1);
        if forall|q: u8| lo <= q <= t ==> steps_left(#[trigger] w[q as int], q) == 0 {
            assert(steps_left(w[lo as int], lo) == 0);
        }
        if forall|q: u8| lo <= q <= t ==> steps_left(#[trigger] w[q as int], q) == 2 {
            assert(steps_left(w[lo as int], lo) == 2);
        }
    }
}

/// One step at `l0` (coarsest moved level) takes one pending step off the
/// levels `lo..=t`, for `lo <= l0`.
proof fn lemma_pending_step(old_w: Seq<u8>, new_w: Seq<u8>, p: u8, t: u8, l0: u8, lo: u8)
    requires
        stepped_at(old_w, new_w, p, t, l0),
        steps_left(old_w[l0 as int], l0) > 0,
        1 <= lo <= l0,
        t <= 15,
        old_w.len() == 16,
        old_w[l0 as int] < 18,
    ensures
        pending(new_w, lo, t) + 1 == pending(old_w, lo, t),
    decreases l0 - lo,
{
    let n = (t - lo) as nat;
    if lo < l0 {
        lemma_pending_step(old_w, new_w, p, t, l0, (lo + 1) as u8);
        assert(new_w[lo as int] == old_w[lo as int]);
    } else {
        lemma_pending_extremes(old_w, (l0 + 1) as u8, t);
        lemma_pending_extremes(new_w, (l0 + 1) as u8, t);
        assert((t + 1 - (l0 + 1)) as nat == n);
        let r = steps_left(old_w[l0 as int], l0);
        lemma_steps_left_next(old_w[l0 as int], l0);
        assert(steps_left(new_w[l0 as int], l0) == r - 1);
        let h = pow3(n);
        assert((r - 1) * h + h == r * h) by (nonlinear_arith);
    }
}

/// A walk step moves the progress on by one, while the first level has not
/// wrapped around.
proof fn lemma_progress_step(old_w: Seq<u8>, new_w: Seq<u8>, p: u8, t: u8, l0: u8)
    requires
        stepped_at(old_w, new_w, p, t, l0),
        p < t <= 15,
        old_w.len() == 16,
        forall|i: int| 0 <= i < 16 ==> #[trigger] old_w[i] < 18,
        old_w[p + 1] <= 16 || l0 > p + 1,
    ensures
        progress(new_w, p, t) == progress(old_w, p, t) + 1,
{
    let k = (t - p - 1) as nat;
    let h = pow3(k);
    assert((t + 1 - (p + 2)) as nat == k);
    if l0 == p + 1 {
        lemma_pending_extremes(old_w, (p + 2) as u8, t);
        lemma_pending_extremes(new_w, (p + 2) as u8, t);
        let x = old_w[p + 1] as int;
        assert((x + 1) * h == x * h + h) by (nonlinear_arith);
    } else {
        lemma_pending_step(old_w, new_w, p, t, l0, (p + 2) as u8);
        assert(new_w[p + 1] == old_w[p + 1]);
    }
}

// -----------------------------------------------------------------------------
// Shape of the walk state.

/// The walk state `s` has the shape of a directed edge whose origin is a
/// descendant, at resolution `t`, of the cell `idx`, with the directions
/// below the cell given by the walk positions `w`.
pub open spec fn walk_shape(s: u64, idx: u64, t: u8, w: Seq<u8>) -> bool {
    let p = resolution_of(idx);
    &&& mode_of(s) == 2
    &&& s >> 63u64 == 0
    &&& base_cell_of(s) == base_cell_of(idx)
    &&& resolution_of(s) == t
    &&& forall|q: u8| 1 <= q <= p ==> #[trigger] digit(s, q) == digit(idx, q)
    &&& forall|q: u8| p < q <= t ==> #[trigger] digit(s, q) == walk_digit_value(w[q as int])
    &&& forall|q: u8| t < q <= 15 ==> #[trigger] digit(s, q) == 7
}

// -----------------------------------------------------------------------------
// The walk, step by step.

/// The position six before `w` in the cycle of 18: where a level goes back
/// when its coarser level has moved to a new cell.
pub open spec fn back_six(w: u8) -> u8 {
    if w < 6 {
        (w + 12) as u8
    } else {
        (w - 6) as u8
    }
}

/// The coarsest level that moves in a walk step, looking up from level `c`:
/// a level moves its coarser one on when it has no step left, the first
/// level below the cell (`p + 1`) never does.
pub open spec fn moving_level(w: Seq<u8>, p: u8, c: u8) -> u8
    decreases c,
{
    if c > p + 1 && steps_left(w[c as int], c) == 0 {
        moving_level(w, p, (c - 1) as u8)
    } else {
        c
    }
}

/// The walk positions, and whether the direction at level `c` changed, once
/// a walk step from the positions `w`, whose coarsest moving level is `l0`,
/// has gone down to level `c`: the level `l0` takes its next position, and
/// each finer level goes back six positions if its coarser level changed
/// direction, then takes its next position.
#[verifier::opaque]
pub open spec fn stepped_down(w: Seq<u8>, l0: u8, c: u8) -> (Seq<u8>, bool)
    decreases c - l0,
{
    if c <= l0 {
        let n = next_walk(w[l0 as int]);
        (w.update(l0 as int, n), walk_digit_value(n) != walk_digit_value(w[l0 as int]))
    } else {
        let prev = stepped_down(w, l0, (c - 1) as u8);
        let m = if prev.1 {
            back_six(w[c as int])
        } else {
            w[c as int]
        };
        let n = next_walk(m);
        (prev.0.update(c as int, n), walk_digit_value(n) != walk_digit_value(w[c as int]))
    }
}

/// Going down one more level in a walk step.
proof fn lemma_stepped_down_next(w: Seq<u8>, l0: u8, c: u8, v: Seq<u8>, changed: bool, n: u8)
    requires
        l0 < c,
        v == stepped_down(w, l0, (c - 1) as u8).0,
        changed == stepped_down(w, l0, (c - 1) as u8).1,
        n == next_walk(
            if changed {
                back_six(w[c as int])
            } else {
                w[c as int]
            },
        ),
    ensures
        stepped_down(w, l0, c).0 == v.update(c as int, n),
        stepped_down(w, l0, c).1 == (walk_digit_value(n) != walk_digit_value(w[c as int])),
{
    reveal(stepped_down);
}

/// A walk step starts with the coarsest moving level taking its next
/// position.
proof fn lemma_stepped_down_first(w: Seq<u8>, l0: u8)
    ensures
        stepped_down(w, l0, l0).0 == w.update(l0 as int, next_walk(w[l0 as int])),
        stepped_down(w, l0, l0).1 == (walk_digit_value(next_walk(w[l0 as int])) != walk_digit_value(
            w[l0 as int],
        )),
{
    reveal(stepped_down);
}

/// One step of the origin cell along the outline, at resolution `t` below a
/// cell of resolution `p`: the new walk positions, and whether the origin
/// cell changed.
pub open spec fn origin_step(w: Seq<u8>, p: u8, t: u8) -> (Seq<u8>, bool) {
    stepped_down(w, moving_level(w, p, t), t)
}

/// One step along the outline from the walk positions `w` and the edge
/// position `e`: the origin cell steps, the edge position goes back two if
/// the origin cell changed, then on by one.
pub open spec fn edge_step(w: Seq<u8>, e: u8, p: u8, t: u8) -> (Seq<u8>, u8) {
    let o = origin_step(w, p, t);
    let e1 = if o.1 {
        ((e + 4) % 6) as u8
    } else {
        e
    };
    (
        o.0,
        if e1 == 5 {
            0u8
        } else {
            (e1 + 1) as u8
        },
    )
}

/// For a pentagon, the walk state after stepping, at most `fuel` times,
/// while the first level below the cell is on the deleted `K` side.
pub open spec fn off_deleted_side(w: Seq<u8>, e: u8, p: u8, t: u8, pent: bool, fuel: nat) -> (
    Seq<u8>,
    u8,
)
    decreases fuel,
{
    if fuel > 0 && pent && walk_digit_value(w[p + 1]) == 1 {
        let s = edge_step(w, e, p, t);
        off_deleted_side(s.0, s.1, p, t, pent, (fuel - 1) as nat)
    } else {
        (w, e)
    }
}

/// The walk positions at the start: the first level below the cell at 0,
/// the finer ones at 14 (Class III) or 16 (Class II), the others at 0.
pub open spec fn start_walk(p: u8, t: u8) -> Seq<u8> {
    Seq::new(
        16,
        |i: int|
            if p + 2 <= i <= t {
                if i % 2 == 1 {
                    14u8
                } else {
                    16u8
                }
            } else {
                0u8
            },
    )
}

/// The steps that take the first level below the cell through its three
/// positions on one side: enough to leave the deleted side.
pub open spec fn side_steps(p: u8, t: u8) -> nat {
    3 * pow3((t - p - 1) as nat)
}

/// The walk state (walk positions, edge position) of the `n`-th edge of the
/// outline, at resolution `t` below the cell `idx`.
pub open spec fn outline_state(idx: u64, t: u8, n: nat) -> (Seq<u8>, u8)
    decreases n,
{
    let p = resolution_of(idx);
    let s = if n == 0 {
        (start_walk(p, t), 0u8)
    } else {
        let prev = outline_state(idx, t, (n - 1) as nat);
        edge_step(prev.0, prev.1, p, t)
    };
    off_deleted_side(s.0, s.1, p, t, is_pentagon_cell(idx), side_steps(p, t))
}

/// The directed edge of a walk state: its origin has the cell's directions
/// then the walk's, down to resolution `t`, and its edge is the one at the
/// edge position `e`.
pub open spec fn walk_edge(idx: u64, t: u8, w: Seq<u8>, e: u8) -> u64 {
    fill_walk(
        crate::index::cell::with_resolution(derived_bits(idx, 2, edge_dir_value(e)), t),
        w,
        (resolution_of(idx) + 1) as u8,
        t,
    )
}

/// The bits with the directions at the resolutions `lo..=t` set to the
/// directions of the walk positions `w`.
pub open spec fn fill_walk(bits: u64, w: Seq<u8>, lo: u8, t: u8) -> u64
    decreases 16 - lo,
{
    if lo > t || lo > 15 || lo == 0 {
        bits
    } else {
        fill_walk(bits::with_digit(bits, lo, walk_digit_value(w[lo as int])), w, (lo + 1) as u8, t)
    }
}

/// Filling the directions from the walk sets those of `lo..=t` and keeps
/// the others and the bits from 45 up.
proof fn lemma_fill_walk(b: u64, w: Seq<u8>, lo: u8, t: u8)
    requires
        1 <= lo <= t + 1,
        t <= 15,
    ensures
        fill_walk(b, w, lo, t) >> 45u64 == b >> 45u64,
        forall|q: u8|
            1 <= q <= 15 ==> #[trigger] digit(fill_walk(b, w, lo, t), q) == if lo <= q <= t {
                walk_digit_value(w[q as int])
            } else {
                digit(b, q)
            },
    decreases 16 - lo,
{
    if lo <= t {
        let d = walk_digit_value(w[lo as int]);
        let b1 = bits::with_digit(b, lo, d);
        bits::lemma_with_digit(b, lo, d);
        lemma_fill_walk(b1, w, (lo + 1) as u8, t);
    }
}

/// A valid cell has its reserved bit clear.
proof fn lemma_reserved_clear(c: u64)
    by (bit_vector)
    requires
        (c >> 56u64) & 0x87u64 == 0,
    ensures
        c >> 63u64 == 0,
{
}

/// The edge of a walk state has the shape of the walk state.
proof fn lemma_walk_edge_shape(idx: u64, t: u8, w: Seq<u8>, e: u8)
    requires
        is_valid_cell(idx),
        resolution_of(idx) <= t <= 15,
        e < 6,
    ensures
        walk_shape(walk_edge(idx, t, w, e), idx, t, w),
        field_of(walk_edge(idx, t, w, e)) == edge_dir_value(e),
{
    let p = resolution_of(idx);
    let f = edge_dir_value(e);
    let d = derived_bits(idx, 2, f);
    crate::index::edge::law_owner_of_derived(idx, 2, f);
    lemma_state_bits(idx, d, idx, 0);
    lemma_same_cell_fields(idx, d);
    lemma_reserved_clear(idx);
    let b = crate::index::cell::with_resolution(d, t);
    crate::index::cell::lemma_resolution_field(d, t);
    crate::index::bitvec::lemma_top_fields(b, d);
    let x = walk_edge(idx, t, w, e);
    lemma_fill_walk(b, w, (p + 1) as u8, t);
    lemma_high_bits_of(x, b);
    lemma_masks();
    assert forall|q: u8| t < q <= 15 implies #[trigger] digit(x, q) == 7 by {
        assert(digit(x, q) == digit(idx, q));
    }
}

/// Values agreeing from bit 45 up agree on every field above the
/// directions, and on the reserved bit.
proof fn lemma_high_bits_of(x: u64, y: u64)
    requires
        x >> 45u64 == y >> 45u64,
    ensures
        mode_of(x) == mode_of(y),
        field_of(x) == field_of(y),
        resolution_of(x) == resolution_of(y),
        base_cell_of(x) == base_cell_of(y),
        x >> 63u64 == y >> 63u64,
{
    lemma_high_fields(x, y);
}

/// The `n`-th edge of the outline, at resolution `t` finer than the cell
/// `idx`.
pub open spec fn outline_edge(idx: u64, t: u8, n: nat) -> u64 {
    let st = outline_state(idx, t, n);
    walk_edge(idx, t, st.0, st.1)
}

// -----------------------------------------------------------------------------
// Why the walk stays on the outline.

/// The non-center direction at place `i` (modulo 6) of the counter-clockwise
/// ring `K, IK, I, IJ, J, JK`.
pub open spec fn ring_dir(i: int) -> u8 {
    let j = i % 6;
    if j == 0 {
        1
    } else if j == 1 {
        5
    } else if j == 2 {
        4
    } else if j == 3 {
        6
    } else if j == 4 {
        2
    } else {
        3
    }
}

/// The place on the ring of the move out of the parent that the child at
/// walk position `w` makes: the position's side, one back for the first
/// segment, one on for the last.
spec fn outward(w: u8) -> int {
    (w / 3 + w % 3 + 5) % 6
}

/// The place on the ring of the move that the child at walk position `w`,
/// of resolution `res`, hands on to its parent when it moves out of it.
spec fn handed_on(w: u8, res: u8) -> int {
    if res % 2 == 1 {
        (w / 3 + if w % 3 == 2 {
            1int
        } else {
            0int
        }) % 6
    } else {
        (w / 3 + if w % 3 == 0 {
            5int
        } else {
            0int
        }) % 6
    }
}

/// The walk state is on the outline: the edge leaves the origin's cell at
/// resolution `t` outward, and each level's move out of its parent is what
/// its parent's level needs to move out of the grandparent, up to the first
/// level below the cell.
spec fn on_outline(w: Seq<u8>, e: u8, p: u8, t: u8) -> bool {
    &&& w.len() == 16
    &&& forall|i: int| 0 <= i < 16 ==> #[trigger] w[i] < 18
    &&& e < 6
    &&& outward(w[t as int]) == (e + 5) % 6
    &&& forall|l: u8| p + 1 <= l < t ==> handed_on(#[trigger] w[l + 1], (l + 1) as u8) == outward(w[l as int])
}

/// A child moving outward hands a move on to its parent.
proof fn lemma_outward_move(w: u8, res: u8)
    requires
        w < 18,
    ensures
        crate::grid::adjustment(walk_digit_value(w), ring_dir(outward(w)), res) == ring_dir(
            handed_on(w, res),
        ),
        ring_dir(handed_on(w, res)) != 0,
        ring_dir(outward(w)) <= 6,
{
    if w == 0 {} else if w == 1 {} else if w == 2 {} else if w == 3 {} else if w == 4 {}
    else if w == 5 {} else if w == 6 {} else if w == 7 {} else if w == 8 {} else if w == 9 {}
    else if w == 10 {} else if w == 11 {} else if w == 12 {} else if w == 13 {} else if w == 14 {}
    else if w == 15 {} else if w == 16 {} else {}
}

/// The edge position `e` is the edge direction at place `e - 1` of the ring.
proof fn lemma_edge_ring(e: u8)
    requires
        e < 6,
    ensures
        edge_dir_value(e) == ring_dir((e + 5) % 6),
{
}

/// A state on the outline gives an edge that leaves the cell: the moves
/// handed on from resolution `l` up leave the cell, for every level `l`
/// below it.
proof fn lemma_on_outline_leaves(s: u64, w: Seq<u8>, e: u8, p: u8, t: u8, l: u8)
    requires
        on_outline(w, e, p, t),
        p < l <= t <= 15,
        forall|q: u8| p < q <= t ==> #[trigger] digit(s, q) == walk_digit_value(w[q as int]),
    ensures
        leaves_ancestor(s, ring_dir(outward(w[l as int])), p, l),
    decreases l,
{
    let x = w[l as int];
    lemma_outward_move(x, l);
    assert(digit(s, l) == walk_digit_value(x));
    let c = crate::grid::adjustment(digit(s, l), ring_dir(outward(x)), l);
    assert(c == ring_dir(handed_on(x, l)));
    let m = (l - 1) as u8;
    if l > p + 1 {
        lemma_on_outline_leaves(s, w, e, p, t, m);
        assert(m + 1 == l);
        assert(handed_on(w[m + 1], (m + 1) as u8) == outward(w[m as int]));
        assert(c == ring_dir(outward(w[m as int])));
    }
    assert(leaves_ancestor(s, c, p, m));
}

/// A walk step at a level that hands a move on: it steps back six
/// positions if its parent changed side, then one on; its move out of the
/// parent and the move it hands on turn one place back if it changed side
/// (which it does exactly when it stepped back), one on otherwise.
proof fn lemma_level_move(w: u8, res: u8, back: bool)
    requires
        w < 18,
        w % 3 == res % 2,
    ensures
        ({
            let n = next_walk(
                if back {
                    back_six(w)
                } else {
                    w
                },
            );
            &&& n < 18
            &&& (n / 3 != w / 3) == back
            &&& outward(n) == (outward(w) + if back {
                5int
            } else {
                1int
            }) % 6
            &&& handed_on(n, res) == (handed_on(w, res) + if back {
                5int
            } else {
                1int
            }) % 6
            &&& steps_left(n, res) == 2
        }),
{
    let c = res % 2;
    assert(c == 0 || c == 1);
    if w == 0 {} else if w == 1 {} else if w == 2 {} else if w == 3 {} else if w == 4 {}
    else if w == 5 {} else if w == 6 {} else if w == 7 {} else if w == 8 {} else if w == 9 {}
    else if w == 10 {} else if w == 11 {} else if w == 12 {} else if w == 13 {} else if w == 14 {}
    else if w == 15 {} else if w == 16 {} else {}
}

/// The step of the coarsest moving level: its move out of the parent turns
/// one place back if it changed side, one on otherwise; the move it hands
/// on stays, when it was not due to hand one on.
proof fn lemma_top_move(w: u8, res: u8)
    requires
        w < 18,
    ensures
        next_walk(w) < 18,
        outward(next_walk(w)) == (outward(w) + if next_walk(w) / 3 != w / 3 {
            5int
        } else {
            1int
        }) % 6,
        steps_left(w, res) > 0 ==> handed_on(next_walk(w), res) == handed_on(w, res),
{
    let c = res % 2;
    assert(c == 0 || c == 1);
    if w == 0 {} else if w == 1 {} else if w == 2 {} else if w == 3 {} else if w == 4 {}
    else if w == 5 {} else if w == 6 {} else if w == 7 {} else if w == 8 {} else if w == 9 {}
    else if w == 10 {} else if w == 11 {} else if w == 12 {} else if w == 13 {} else if w == 14 {}
    else if w == 15 {} else if w == 16 {} else {}
}

/// Two walk positions are on the same side when their directions agree.
proof fn lemma_walk_side(a: u8, b: u8)
    requires
        a < 18,
        b < 18,
    ensures
        (walk_digit_value(a) == walk_digit_value(b)) == (a / 3 == b / 3),
{
}

/// The coarsest moving level lies between the first level below the cell
/// and `c`; the levels finer than it were all due to hand a move on, and it
/// was not, unless it is the first level.
proof fn lemma_moving_level(w: Seq<u8>, p: u8, c: u8)
    requires
        p + 1 <= c <= 15,
    ensures
        p + 1 <= moving_level(w, p, c) <= c,
        forall|l: u8|
            moving_level(w, p, c) < l <= c ==> steps_left(#[trigger] w[l as int], l) == 0,
        moving_level(w, p, c) == p + 1 || steps_left(
            w[moving_level(w, p, c) as int],
            moving_level(w, p, c),
        ) > 0,
    decreases c,
{
    if c > p + 1 && steps_left(w[c as int], c) == 0 {
        lemma_moving_level(w, p, (c - 1) as u8);
    }
}

/// What a walk step, from the walk positions `w` to `v`, does at each level
/// from the coarsest moving level `l0` down to `c`: the finer levels leave
/// the rest unchanged, the moving level takes its next position, each
/// level's move out of its parent turns one place back when the level
/// changed side and one on otherwise, and the move each finer level hands
/// on turns with the change of its parent.
#[verifier::opaque]
spec fn level_moves(w: Seq<u8>, v: Seq<u8>, l0: u8, c: u8) -> bool {
    &&& v.len() == 16
    &&& forall|i: int| 0 <= i < 16 ==> #[trigger] v[i] < 18
    &&& forall|i: int| 0 <= i < 16 && (i < l0 || i > c) ==> #[trigger] v[i] == w[i]
    &&& v[l0 as int] == next_walk(w[l0 as int])
    &&& forall|l: u8|
        l0 <= l <= c ==> outward(#[trigger] v[l as int]) == (outward(w[l as int]) + if v[l as int] / 3
            != w[l as int] / 3 {
            5int
        } else {
            1int
        }) % 6
    &&& forall|l: u8|
        l0 < l <= c ==> handed_on(#[trigger] v[l as int], l) == (handed_on(w[l as int], l) + if v[l - 1]
            / 3 != w[l - 1] / 3 {
            5int
        } else {
            1int
        }) % 6 && steps_left(v[l as int], l) == 2
}

/// What a walk step does at each level, from the coarsest moving level
/// `l0` down to `c`.
proof fn lemma_stepped_down_shape(w: Seq<u8>, l0: u8, c: u8)
    requires
        w.len() == 16,
        forall|i: int| 0 <= i < 16 ==> #[trigger] w[i] < 18,
        1 <= l0 <= c <= 15,
        forall|l: u8| l0 < l <= c ==> steps_left(#[trigger] w[l as int], l) == 0,
    ensures
        level_moves(w, stepped_down(w, l0, c).0, l0, c),
        stepped_down(w, l0, c).1 == (stepped_down(w, l0, c).0[c as int] / 3 != w[c as int] / 3),
    decreases c - l0,
{
    reveal(level_moves);
    let r = stepped_down(w, l0, c);
    if c == l0 {
        lemma_stepped_down_first(w, l0);
        lemma_top_move(w[l0 as int], l0);
        lemma_walk_side(next_walk(w[l0 as int]), w[l0 as int]);
    } else {
        let m = (c - 1) as u8;
        lemma_stepped_down_shape(w, l0, m);
        let prev = stepped_down(w, l0, m);
        let x = w[c as int];
        assert(prev.0[c as int] == x);
        assert(steps_left(x, c) == 0);
        let n = next_walk(
            if prev.1 {
                back_six(x)
            } else {
                x
            },
        );
        lemma_stepped_down_next(w, l0, c, prev.0, prev.1, n);
        lemma_level_move(x, c, prev.1);
        lemma_walk_side(n, x);
        assert(r.0 == prev.0.update(c as int, n));
        assert forall|l: u8| l0 < l <= c implies handed_on(#[trigger] r.0[l as int], l) == (handed_on(
            w[l as int],
            l,
        ) + if r.0[l - 1] / 3 != w[l - 1] / 3 {
            5int
        } else {
            1int
        }) % 6 && steps_left(r.0[l as int], l) == 2 by {
            if l < c {
                assert(r.0[l - 1] == prev.0[l - 1]);
            } else {
                assert(l - 1 == m);
                assert(r.0[l - 1] == prev.0[m as int]);
            }
        }
    }
}

/// After a walk step, each level still hands its parent the move the parent
/// needs.
proof fn lemma_step_pairs(w: Seq<u8>, e: u8, v: Seq<u8>, p: u8, t: u8, l0: u8)
    requires
        on_outline(w, e, p, t),
        level_moves(w, v, l0, t),
        p + 1 <= l0 <= t <= 15,
        l0 == p + 1 || steps_left(w[l0 as int], l0) > 0,
    ensures
        v.len() == 16,
        forall|i: int| 0 <= i < 16 ==> #[trigger] v[i] < 18,
        forall|l: u8| p + 1 <= l < t ==> handed_on(#[trigger] v[l + 1], (l + 1) as u8) == outward(v[l as int]),
        outward(v[t as int]) == (outward(w[t as int]) + if v[t as int] / 3 != w[t as int] / 3 {
            5int
        } else {
            1int
        }) % 6,
{
    reveal(level_moves);
    assert forall|l: u8| p + 1 <= l < t implies handed_on(#[trigger] v[l + 1], (l + 1) as u8)
        == outward(v[l as int]) by {
        let h = (l + 1) as u8;
        assert(v[l + 1] == v[h as int]);
        assert(handed_on(w[l + 1], h) == outward(w[l as int]));
        if h < l0 {
            assert(v[h as int] == w[h as int]);
            assert(v[l as int] == w[l as int]);
        } else if h == l0 {
            lemma_top_move(w[h as int], h);
            assert(v[l as int] == w[l as int]);
        } else {
            assert(h - 1 == l);
        }
    }
}

/// A walk step is a step of the odometer at its coarsest moving level.
proof fn lemma_step_stepped_at(w: Seq<u8>, v: Seq<u8>, p: u8, t: u8, l0: u8)
    requires
        w.len() == 16,
        level_moves(w, v, l0, t),
        p + 1 <= l0 <= t <= 15,
        l0 == p + 1 || steps_left(w[l0 as int], l0) > 0,
        forall|l: u8| l0 < l <= t ==> steps_left(#[trigger] w[l as int], l) == 0,
    ensures
        stepped_at(w, v, p, t, l0),
{
    reveal(level_moves);
    assert forall|q: u8| l0 < q <= t implies steps_left(#[trigger] w[q as int], q) == 0 && steps_left(
        v[q as int],
        q,
    ) == 2 by {}
}

/// A step along the outline stays on it.
proof fn lemma_step_on_outline(w: Seq<u8>, e: u8, p: u8, t: u8)
    requires
        on_outline(w, e, p, t),
        p < t <= 15,
    ensures
        on_outline(edge_step(w, e, p, t).0, edge_step(w, e, p, t).1, p, t),
        stepped_at(w, edge_step(w, e, p, t).0, p, t, moving_level(w, p, t)),
{
    let l0 = moving_level(w, p, t);
    lemma_moving_level(w, p, t);
    lemma_stepped_down_shape(w, l0, t);
    let r = stepped_down(w, l0, t);
    let v = r.0;
    lemma_step_pairs(w, e, v, p, t, l0);
    lemma_step_stepped_at(w, v, p, t, l0);
    let ne = edge_step(w, e, p, t).1;
    assert(edge_step(w, e, p, t).0 == v);
    assert(outward(v[t as int]) == (ne + 5) % 6);
}

/// Moving off the deleted side of a pentagon stays on the outline.
proof fn lemma_off_side_on_outline(w: Seq<u8>, e: u8, p: u8, t: u8, pent: bool, fuel: nat)
    requires
        on_outline(w, e, p, t),
        p < t <= 15,
    ensures
        on_outline(
            off_deleted_side(w, e, p, t, pent, fuel).0,
            off_deleted_side(w, e, p, t, pent, fuel).1,
            p,
            t,
        ),
    decreases fuel,
{
    if fuel > 0 && pent && walk_digit_value(w[p + 1]) == 1 {
        lemma_step_on_outline(w, e, p, t);
        let st = edge_step(w, e, p, t);
        lemma_off_side_on_outline(st.0, st.1, p, t, pent, (fuel - 1) as nat);
    }
}

/// The walk starts on the outline.
proof fn lemma_start_on_outline(p: u8, t: u8)
    requires
        p < t <= 15,
    ensures
        on_outline(start_walk(p, t), 0, p, t),
{
    let w = start_walk(p, t);
    assert forall|l: u8| p + 1 <= l < t implies handed_on(#[trigger] w[l + 1], (l + 1) as u8)
        == outward(w[l as int]) by {
        assert(l + 1 <= t);
    }
}

/// Every state of the outline is on it.
proof fn lemma_outline_on_outline(idx: u64, t: u8, n: nat)
    requires
        resolution_of(idx) < t <= 15,
    ensures
        on_outline(outline_state(idx, t, n).0, outline_state(idx, t, n).1, resolution_of(idx), t),
    decreases n,
{
    let p = resolution_of(idx);
    let s = if n == 0 {
        lemma_start_on_outline(p, t);
        (start_walk(p, t), 0u8)
    } else {
        let prev = outline_state(idx, t, (n - 1) as nat);
        lemma_outline_on_outline(idx, t, (n - 1) as nat);
        lemma_step_on_outline(prev.0, prev.1, p, t);
        edge_step(prev.0, prev.1, p, t)
    };
    lemma_off_side_on_outline(s.0, s.1, p, t, is_pentagon_cell(idx), side_steps(p, t));
}

// -----------------------------------------------------------------------------
// The walk as a count of steps.

/// The walk state after `n` steps from the start, none skipped.
spec fn raw_walk(p: u8, t: u8, n: nat) -> (Seq<u8>, u8)
    decreases n,
{
    if n == 0 {
        (start_walk(p, t), 0u8)
    } else {
        let prev = raw_walk(p, t, (n - 1) as nat);
        edge_step(prev.0, prev.1, p, t)
    }
}

/// The progress counts the steps below the first level: the first level's
/// position times `3^k`, plus between 0 and `3^k - 1`.
proof fn lemma_progress_split(w: Seq<u8>, p: u8, t: u8)
    requires
        p < t <= 15,
    ensures
        w[p + 1] * pow3((t - p - 1) as nat) <= progress(w, p, t) <= w[p + 1] * pow3(
            (t - p - 1) as nat,
        ) + pow3((t - p - 1) as nat) - 1,
{
    let k = (t - p - 1) as nat;
    lemma_pending_bound(w, (p + 2) as u8, t);
    assert((t + 1 - (p + 2)) as nat == k);
}

/// `n / h` is `w` when `w * h <= n < w * h + h`.
proof fn lemma_div_between(n: int, w: int, h: int)
    requires
        h > 0,
        w * h <= n < w * h + h,
    ensures
        n / h == w,
{
    assert(n / h == w) by (nonlinear_arith)
        requires
            h > 0,
            w * h <= n < w * h + h,
    ;
}

/// The walk goes through the states one step at a time: after `n` steps
/// (fewer than the `18 * 3^k` of a whole turn) the progress is `n` and the
/// first level below the cell is at position `n / 3^k`.
proof fn lemma_raw_walk(p: u8, t: u8, n: nat)
    requires
        p < t <= 15,
        n < 18 * pow3((t - p - 1) as nat),
    ensures
        on_outline(raw_walk(p, t, n).0, raw_walk(p, t, n).1, p, t),
        progress(raw_walk(p, t, n).0, p, t) == n,
        raw_walk(p, t, n).0[p + 1] == n / pow3((t - p - 1) as nat),
    decreases n,
{
    let k = (t - p - 1) as nat;
    let h = pow3(k);
    lemma_pow3(k);
    let w = raw_walk(p, t, n).0;
    if n == 0 {
        lemma_start_on_outline(p, t);
        lemma_pending_extremes(w, (p + 2) as u8, t);
        assert((t + 1 - (p + 2)) as nat == k);
        assert forall|q: u8| (p + 2) as u8 <= q <= t implies steps_left(#[trigger] w[q as int], q) == 2 by {}
    } else {
        let m = (n - 1) as nat;
        lemma_raw_walk(p, t, m);
        let prev = raw_walk(p, t, m);
        lemma_step_on_outline(prev.0, prev.1, p, t);
        let l0 = moving_level(prev.0, p, t);
        if l0 == p + 1 && prev.0[p + 1] > 16 {
            lemma_moving_level(prev.0, p, t);
            lemma_pending_extremes(prev.0, (p + 2) as u8, t);
            assert((t + 1 - (p + 2)) as nat == k);
            assert forall|q: u8| (p + 2) as u8 <= q <= t implies steps_left(
                #[trigger] prev.0[q as int],
                q,
            ) == 0 by {}
            assert(prev.0[p + 1] == 17);
            assert(17 * h + h == 18 * h);
        }
        lemma_progress_step(prev.0, w, p, t, l0);
    }
    lemma_progress_split(w, p, t);
    lemma_div_between(n as int, w[p + 1] as int, h as int);
}

/// Walk positions from 3 on are off the `K` side.
proof fn lemma_off_k_side(w: u8)
    requires
        w < 18,
    ensures
        (walk_digit_value(w) == 1) == (w < 3),
{
}

/// Leaving the deleted side of a pentagon from the `j`-th step of the first
/// side takes the walk to the start of the next side.
proof fn lemma_skip_raw(p: u8, t: u8, j: nat)
    requires
        p < t <= 15,
        j <= side_steps(p, t),
    ensures
        off_deleted_side(
            raw_walk(p, t, j).0,
            raw_walk(p, t, j).1,
            p,
            t,
            true,
            (side_steps(p, t) - j) as nat,
        ) == raw_walk(p, t, side_steps(p, t)),
    decreases side_steps(p, t) - j,
{
    let k = (t - p - 1) as nat;
    let h = pow3(k);
    lemma_pow3(k);
    if j < side_steps(p, t) {
        lemma_raw_walk(p, t, j);
        let w = raw_walk(p, t, j).0;
        assert(j / h < 3) by (nonlinear_arith)
            requires
                j < 3 * h,
                h > 0,
        ;
        lemma_off_k_side(w[p + 1]);
        lemma_skip_raw(p, t, j + 1);
        assert((side_steps(p, t) - j - 1) as nat == (side_steps(p, t) - (j + 1)) as nat);
    }
}

/// The first edge skipped for a pentagon: the `K` side, `3^(t - p)` steps.
spec fn skipped(idx: u64, t: u8) -> nat {
    if is_pentagon_cell(idx) {
        side_steps(resolution_of(idx), t)
    } else {
        0
    }
}

/// The `n`-th edge of the outline is the walk after `n` steps, plus the
/// skipped side of a pentagon; from then on the walk is off the `K` side.
proof fn lemma_outline_raw(idx: u64, t: u8, n: nat)
    requires
        resolution_of(idx) < t <= 15,
        n < gosper_count(idx, t),
    ensures
        outline_state(idx, t, n) == raw_walk(resolution_of(idx), t, n + skipped(idx, t)),
        n + skipped(idx, t) < 18 * pow3((t - resolution_of(idx) - 1) as nat),
        is_pentagon_cell(idx) ==> walk_digit_value(outline_state(idx, t, n).0[resolution_of(idx) + 1]) != 1,
    decreases n,
{
    let p = resolution_of(idx);
    let k = (t - p - 1) as nat;
    let h = pow3(k);
    lemma_pow3(k);
    assert((t - p) as nat == k + 1);
    let pent = is_pentagon_cell(idx);
    let off = skipped(idx, t);
    let big = n + off;
    assert(big < 18 * h) by (nonlinear_arith)
        requires
            pent ==> n < 5 * (3 * h) && off == 3 * h,
            !pent ==> n < 6 * (3 * h) && off == 0,
            big == n + off,
    ;
    if n == 0 {
        if pent {
            lemma_skip_raw(p, t, 0);
        }
    } else {
        lemma_outline_raw(idx, t, (n - 1) as nat);
        assert((n - 1) as nat + off + 1 == big);
    }
    if pent {
        lemma_raw_walk(p, t, big);
        let w = raw_walk(p, t, big).0;
        assert(big / h >= 3) by (nonlinear_arith)
            requires
                big >= 3 * h,
                h > 0,
        ;
        lemma_off_k_side(w[p + 1]);
    }
}

/// The steps left only depend on the levels they count.
proof fn lemma_pending_congruent(a: Seq<u8>, b: Seq<u8>, lo: u8, t: u8)
    requires
        forall|q: u8| lo <= q <= t ==> #[trigger] a[q as int] == b[q as int],
    ensures
        pending(a, lo, t) == pending(b, lo, t),
    decreases 16 - lo,
{
    if lo <= t && lo <= 15 {
        assert(a[lo as int] == b[lo as int]);
        lemma_pending_congruent(a, b, (lo + 1) as u8, t);
    }
}

/// On one side, the move out of the parent tells the position.
proof fn lemma_outward_inj(a: u8, b: u8)
    requires
        a < 18,
        b < 18,
        a / 3 == b / 3,
        outward(a) == outward(b),
    ensures
        a == b,
{
    if a == 0 {} else if a == 1 {} else if a == 2 {} else if a == 3 {} else if a == 4 {}
    else if a == 5 {} else if a == 6 {} else if a == 7 {} else if a == 8 {} else if a == 9 {}
    else if a == 10 {} else if a == 11 {} else if a == 12 {} else if a == 13 {} else if a == 14 {}
    else if a == 15 {} else if a == 16 {} else {}
}

/// Two states on the outline with the same edge position and the same
/// sides have the same positions, from level `l` down to `t`.
proof fn lemma_recover(a: Seq<u8>, b: Seq<u8>, e: u8, p: u8, t: u8, l: u8)
    requires
        on_outline(a, e, p, t),
        on_outline(b, e, p, t),
        p + 1 <= l <= t <= 15,
        forall|q: u8| p < q <= t ==> #[trigger] a[q as int] / 3 == b[q as int] / 3,
    ensures
        forall|q: u8| l <= q <= t ==> #[trigger] a[q as int] == b[q as int],
    decreases t - l,
{
    assert(a[l as int] / 3 == b[l as int] / 3);
    if l < t {
        lemma_recover(a, b, e, p, t, (l + 1) as u8);
        assert(a[l + 1] == b[(l + 1) as u8 as int]);
        assert(handed_on(a[l + 1], (l + 1) as u8) == outward(a[l as int]));
        assert(handed_on(b[l + 1], (l + 1) as u8) == outward(b[l as int]));
    }
    lemma_outward_inj(a[l as int], b[l as int]);
}

/// The edge position is told by its edge direction.
proof fn lemma_edge_dir_inj(a: u8, b: u8)
    requires
        a < 6,
        b < 6,
        edge_dir_value(a) == edge_dir_value(b),
    ensures
        a == b,
{
}

/// Every edge of the outline of a cell's children at a finer resolution
/// starts from a child of the cell, and the step across it leaves the cell:
/// the digit carries of the grid's neighbour step go all the way above the
/// cell's resolution, so the neighbour across the edge is not a child.
pub proof fn law_outline_on_boundary(idx: u64, t: u8, n: nat)
    requires
        is_valid_cell(idx),
        resolution_of(idx) < t <= 15,
        n < gosper_count(idx, t),
    ensures
        is_valid_edge(outline_edge(idx, t, n)),
        resolution_of(outline_edge(idx, t, n)) == t,
        is_descendant(owner_bits(outline_edge(idx, t, n)), idx, t),
        leaves_ancestor(
            outline_edge(idx, t, n),
            field_of(outline_edge(idx, t, n)),
            resolution_of(idx),
            t,
        ),
{
    let p = resolution_of(idx);
    let st = outline_state(idx, t, n);
    let x = outline_edge(idx, t, n);
    lemma_outline_on_outline(idx, t, n);
    lemma_outline_raw(idx, t, n);
    lemma_walk_edge_shape(idx, t, st.0, st.1);
    lemma_on_outline_leaves(x, st.0, st.1, p, t, t);
    lemma_edge_ring(st.1);
    lemma_walk_edge(x, idx, t, st.0);
}

/// The edges of the outline of a cell's children at a finer resolution are
/// all different.
pub proof fn law_outline_distinct(idx: u64, t: u8, a: nat, b: nat)
    requires
        is_valid_cell(idx),
        resolution_of(idx) < t <= 15,
        a < b < gosper_count(idx, t),
    ensures
        outline_edge(idx, t, a) != outline_edge(idx, t, b),
{
    let p = resolution_of(idx);
    let sa = outline_state(idx, t, a);
    let sb = outline_state(idx, t, b);
    lemma_outline_on_outline(idx, t, a);
    lemma_outline_on_outline(idx, t, b);
    lemma_outline_raw(idx, t, a);
    lemma_outline_raw(idx, t, b);
    lemma_raw_walk(p, t, a + skipped(idx, t));
    lemma_raw_walk(p, t, b + skipped(idx, t));
    let x = outline_edge(idx, t, a);
    let y = outline_edge(idx, t, b);
    if x == y {
        lemma_walk_edge_shape(idx, t, sa.0, sa.1);
        lemma_walk_edge_shape(idx, t, sb.0, sb.1);
        lemma_edge_dir_inj(sa.1, sb.1);
        assert forall|q: u8| p < q <= t implies #[trigger] sa.0[q as int] / 3 == sb.0[q as int] / 3 by {
            assert(digit(x, q) == walk_digit_value(sa.0[q as int]));
            assert(digit(y, q) == walk_digit_value(sb.0[q as int]));
            lemma_walk_side(sa.0[q as int], sb.0[q as int]);
        }
        lemma_recover(sa.0, sb.0, sa.1, p, t, (p + 1) as u8);
        lemma_pending_congruent(sa.0, sb.0, (p + 2) as u8, t);
        assert(sa.0[p + 1] == sb.0[(p + 1) as u8 as int]);
        assert(progress(sa.0, p, t) == progress(sb.0, p, t));
    }
}

/// Values agreeing on the reserved bit and on the mode, edge, resolution and
/// base cell fields agree from bit 45 up.
proof fn lemma_fields_high(x: u64, y: u64)
    by (bit_vector)
    requires
        x >> 63u64 == y >> 63u64,
        (x >> 59u64) & 0xfu64 == (y >> 59u64) & 0xfu64,
        (x >> 56u64) & 7u64 == (y >> 56u64) & 7u64,
        (x >> 52u64) & 0xfu64 == (y >> 52u64) & 0xfu64,
        (x >> 45u64) & 0x7fu64 == (y >> 45u64) & 0x7fu64,
    ensures
        x >> 45u64 == y >> 45u64,
{
}

/// A walk state and an edge position give one directed edge: the edge of
/// the walk state is the only value of its shape.
proof fn lemma_walk_edge_unique(s: u64, idx: u64, t: u8, w: Seq<u8>, e: u8)
    requires
        is_valid_cell(idx),
        resolution_of(idx) <= t <= 15,
        e < 6,
        walk_shape(s, idx, t, w),
        field_of(s) == edge_dir_value(e),
    ensures
        walk_edge(idx, t, w, e) == s,
{
    let x = walk_edge(idx, t, w, e);
    lemma_walk_edge_shape(idx, t, w, e);
    lemma_masks();
    assert((x >> 59u64) & 0xfu64 == (s >> 59u64) & 0xfu64);
    assert((x >> 56u64) & 7u64 == (s >> 56u64) & 7u64);
    assert((x >> 52u64) & 0xfu64 == (s >> 52u64) & 0xfu64);
    assert((x >> 45u64) & 0x7fu64 == (s >> 45u64) & 0x7fu64);
    lemma_fields_high(x, s);
    let p = resolution_of(idx);
    assert forall|q: u8| 1 <= q <= 15 implies #[trigger] digit(x, q) == digit(s, q) by {
        if q <= p {
            assert(digit(x, q) == digit(idx, q));
        } else if q <= t {
            assert(digit(x, q) == walk_digit_value(w[q as int]));
        } else {
            assert(digit(x, q) == 7);
        }
    }
    bits::lemma_bits_ext(x, s);
}

/// Bit facts of the walk state: the reading of the walk table, what
/// replacing the mode or the edge bits keeps, the origin cell of an edge,
/// and that a value in directed edge mode is not zero.
proof fn lemma_lut_bits(r: u64, w: u64, class: u64)
    by (bit_vector)
    ensures
        (r & 1u64) == r % 2u64,
        (r & 1u64) <= 1u64,
        (w < 18u64 && class <= 1u64) ==> ((0xfffffffd34d34d34u64 >> (w << 1u64)) & 3u64 == class) == (w
            % 3u64 == class) && (w << 1u64) < 64u64,
{
}

/// Bit facts of the walk state (`a` and `b` two states, `c` the cell, `o`
/// a direction offset): what replacing the mode or the edge bits keeps, the
/// origin cell of an edge, and that a value in directed edge mode is not
/// zero.
proof fn lemma_state_bits(a: u64, b: u64, c: u64, o: u64)
    by (bit_vector)
    ensures
        (a >> 63u64 == b >> 63u64 && a & 0x00ff_ffff_ffff_ffffu64 == b & 0x00ff_ffff_ffff_ffffu64)
            ==> (a >> 52u64) & 0xfu64 == (b >> 52u64) & 0xfu64 && (a >> 45u64) & 0x7fu64 == (b
            >> 45u64) & 0x7fu64 && (o <= 42u64 ==> (a >> o) & 7u64 == (b >> o) & 7u64),
        ((a & !0x7800_0000_0000_0000u64) == (b & !0x7800_0000_0000_0000u64) || (a
            & !0x0700_0000_0000_0000u64) == (b & !0x0700_0000_0000_0000u64)) ==> a >> 63u64 == b
            >> 63u64 && a & 0x00ff_ffff_ffff_ffffu64 == b & 0x00ff_ffff_ffff_ffffu64,
        (a & !0x0700_0000_0000_0000u64) == (b & !0x0700_0000_0000_0000u64) ==> (a >> 59u64)
            & 0xfu64 == (b >> 59u64) & 0xfu64,
        (a >> 59u64) & 0xfu64 == 2u64 ==> a != 0u64,
        a == ((b & !0x7800_0000_0000_0000u64) | (1u64 << 59u64)) & !0x0700_0000_0000_0000u64 ==> a
            >> 63u64 == b >> 63u64 && a & 0x00ff_ffff_ffff_ffffu64 == b & 0x00ff_ffff_ffff_ffffu64,
        (a == ((b & !0x7800_0000_0000_0000u64) | (1u64 << 59u64)) & !0x0700_0000_0000_0000u64 && b
            >> 63u64 == 0u64 && (c >> 56u64) & 0x87u64 == 0u64 && (c >> 59u64) & 0xfu64 == 1u64) ==> a
            >> 56u64 == c >> 56u64,
        ((b >> 56u64) & 0x87u64 == 0u64 && (a & !0x7800_0000_0000_0000u64) == (b
            & !0x7800_0000_0000_0000u64)) ==> b >> 63u64 == 0u64 && (a >> 56u64) & 7u64 == 0,
{
}

/// Values agreeing on the reserved bit and on the 56 low bits agree on the
/// resolution, the base cell and every direction.
proof fn lemma_same_cell_fields(a: u64, b: u64)
    requires
        a >> 63u64 == b >> 63u64,
        a & 0x00ff_ffff_ffff_ffffu64 == b & 0x00ff_ffff_ffff_ffffu64,
    ensures
        resolution_of(a) == resolution_of(b),
        base_cell_of(a) == base_cell_of(b),
        forall|q: u8| 1 <= q <= 15 ==> #[trigger] digit(a, q) == digit(b, q),
{
    lemma_state_bits(a, b, 0, 0);
    assert forall|q: u8| 1 <= q <= 15 implies #[trigger] digit(a, q) == digit(b, q) by {
        lemma_state_bits(a, b, 0, crate::index::bits::digit_offset(q));
    }
}

/// Replacing the mode or the edge bits keeps the cell fields.
proof fn lemma_keep_cell_fields(a: u64, b: u64)
    requires
        (a & !0x7800_0000_0000_0000u64) == (b & !0x7800_0000_0000_0000u64) || (a
            & !0x0700_0000_0000_0000u64) == (b & !0x0700_0000_0000_0000u64),
    ensures
        a >> 63u64 == b >> 63u64,
        resolution_of(a) == resolution_of(b),
        base_cell_of(a) == base_cell_of(b),
        forall|q: u8| 1 <= q <= 15 ==> #[trigger] digit(a, q) == digit(b, q),
{
    lemma_state_bits(a, b, 0, 0);
    lemma_same_cell_fields(a, b);
}

/// A value in directed edge mode is not zero.
proof fn lemma_edge_mode_nonzero(a: u64)
    requires
        mode_of(a) == 2,
    ensures
        a != 0,
{
    lemma_masks();
    assert((a >> 59u64) & 0xfu64 == 2);
    lemma_state_bits(a, 0, 0, 0);
}

/// Values agreeing from bit 45 up agree on the reserved bit.
proof fn lemma_top_bit(a: u64, b: u64)
    requires
        a >> 45u64 == b >> 45u64,
    ensures
        a >> 63u64 == b >> 63u64,
{
    lemma_high_fields(a, b);
}

/// A walk state of the right shape, whose edge is not the deleted one, is a
/// valid directed edge from a descendant of the cell.
proof fn lemma_walk_edge(s: u64, idx: u64, t: u8, w: Seq<u8>)
    requires
        is_valid_cell(idx),
        resolution_of(idx) <= t <= 15,
        walk_shape(s, idx, t, w),
        1 <= field_of(s) <= 6,
        is_pentagon_cell(idx) ==> if t == resolution_of(idx) {
            field_of(s) != 1
        } else {
            walk_digit_value(w[resolution_of(idx) + 1]) != 1
        },
    ensures
        is_valid_edge(s),
        is_descendant(owner_bits(s), idx, t),
{
    let p = resolution_of(idx);
    let o = owner_bits(s);
    lemma_state_bits(o, s, idx, 0);
    lemma_same_cell_fields(o, s);
    lemma_masks();
    assert((idx >> 59u64) & 0xfu64 == 1);
    lemma_state_bits(o, s, idx, 0);
    assert forall|q: u8| p < q <= t implies #[trigger] digit(o, q) <= 6 by {
        assert(digit(o, q) == walk_digit_value(w[q as int]));
    }
    if is_pentagon_cell(idx) && p < t {
        let z = (p + 1) as u8;
        assert(digit(o, z) == walk_digit_value(w[z as int]));
        bits::lemma_leading_digit(o, z, t, z);
    }
    assert(is_descendant(o, idx, t));
    crate::index::iterator::children::lemma_descendant_valid(o, idx, t);
    if p < t {
        let z = (p + 1) as u8;
        assert(digit(o, z) != 0);
        assert(!is_pentagon_cell(o));
    } else {
        if crate::index::cell::all_center(idx, p) {
            assert forall|q: u8| 1 <= q <= p implies #[trigger] digit(o, q) == 0 by {
                assert(digit(o, q) == digit(idx, q));
            }
        }
        if crate::index::cell::all_center(o, p) {
            assert forall|q: u8| 1 <= q <= p implies #[trigger] digit(idx, q) == 0 by {
                assert(digit(o, q) == digit(idx, q));
            }
        }
        assert(is_pentagon_cell(o) == is_pentagon_cell(idx));
    }
}

/// `3^n <= 3^15` for `n <= 15`.
proof fn lemma_pow3_le(n: nat)
    requires
        n <= 15,
    ensures
        pow3(n) <= pow3(15),
        pow3(15) == 14_348_907,
    decreases 15 - n,
{
    reveal_with_fuel(pow3, 16);
    if n < 15 {
        lemma_pow3_le(n + 1);
        lemma_pow3(n);
    }
}

/// `3^n`, for `n <= 15`.
fn pow3_u64(n: u8) -> (r: u64)
    requires
        n <= 15,
    ensures
        r == pow3(n as nat),
{
    let mut r: u64 = 1;
    let mut i: u8 = 0;
    while i < n
        invariant
            i <= n <= 15,
            r == pow3(i as nat),
        decreases n - i,
    {
        proof {
            lemma_pow3(i as nat);
            lemma_pow3_le((i + 1) as nat);
        }
        r = r * 3;
        i = i + 1;
    }
    r
}

// -----------------------------------------------------------------------------
// The iterator.

/// The number of edges on the outline, at resolution `t`, of the children of
/// the cell `idx`: `6 * 3^(t - r)` for an hexagon, `5 * 3^(t - r)` for a
/// pentagon, none for a coarser resolution.
pub open spec fn gosper_count(idx: u64, t: u8) -> nat {
    if t < resolution_of(idx) {
        0
    } else {
        (if is_pentagon_cell(idx) {
            5nat
        } else {
            6nat
        }) * pow3((t - resolution_of(idx)) as nat)
    }
}

/// The position, in the cycle of edge directions, of the `n`-th edge of a
/// cell at its own resolution: every direction in turn from `JK`, the
/// deleted `K` one skipped for a pentagon.
pub open spec fn own_edge_index(pent: bool, n: nat) -> u8 {
    if pent && n >= 1 {
        (n + 1) as u8
    } else {
        n as u8
    }
}

/// The `n`-th edge of the outline of a cell at its own resolution: the
/// cell's own edge in the `n`-th direction of the cycle.
pub open spec fn own_edge(idx: u64, n: nat) -> u64 {
    derived_bits(idx, 2, edge_dir_value(own_edge_index(is_pentagon_cell(idx), n)))
}

/// The number of sides of a cell: 5 for a pentagon, 6 for an hexagon.
pub open spec fn side_count(pent: bool) -> nat {
    if pent {
        5
    } else {
        6
    }
}

/// At its own resolution, the outline of a cell is its own edges, all
/// different.
pub proof fn law_own_edges_distinct(idx: u64, a: nat, b: nat)
    requires
        is_valid_cell(idx),
        a < side_count(is_pentagon_cell(idx)),
        b < side_count(is_pentagon_cell(idx)),
        a != b,
    ensures
        own_edge(idx, a) != own_edge(idx, b),
        is_valid_edge(own_edge(idx, a)),
        owner_bits(own_edge(idx, a)) == idx,
{
    let pent = is_pentagon_cell(idx);
    let fa = edge_dir_value(own_edge_index(pent, a));
    let fb = edge_dir_value(own_edge_index(pent, b));
    crate::index::edge::law_owner_of_derived(idx, 2, fa);
    crate::index::edge::law_owner_of_derived(idx, 2, fb);
}

/// Iterator for the directed edges on the boundary of a cell's child set
/// (the Gosper island outline) at a given resolution.
///
/// Each yielded edge is a directed edge whose origin cell is a child of the
/// parent cell. The edges form a closed loop in counter-clockwise order
/// around the Gosper island; the starting edge is not guaranteed. The
/// `n`-th edge yielded is `own_edge` at the cell's resolution and
/// `outline_edge` at a finer one: edges from children of the cell across
/// which the step leaves the cell, all different.
pub struct Gosper {
    /// Iterator scratch space, used to build directed edge iteratively.
    scratchpad: u64,
    /// Number of edges left to yield (including current).
    count: u64,
    /// Position in the cycle of edge directions.
    edge_idx: EdgeDirectionsIndex,
    /// Position in the cycle of walk directions, per resolution level.
    walk_idx: WalkIndices,
    parent_resolution: Resolution,
    child_resolution: Resolution,
    is_pentagon: bool,
    /// The parent cell.
    index: Ghost<u64>,
}

impl Gosper {
    /// The parent cell.
    pub closed spec fn parent(self) -> u64 {
        self.index@
    }

    /// The resolution of the outline.
    pub closed spec fn target(self) -> u8 {
        res_value(self.child_resolution)
    }

    /// The number of edges still to come.
    pub closed spec fn remaining(self) -> nat {
        self.count as nat
    }

    /// The fields that hold in every state.
    closed spec fn common(self) -> bool {
        let w = self.walk_idx.view();
        &&& is_valid_cell(self.index@)
        &&& resolution_of(self.index@) == res_value(self.parent_resolution)
        &&& self.is_pentagon == is_pentagon_cell(self.index@)
        &&& w.len() == 16
        &&& forall|i: int| 0 <= i < 16 ==> #[trigger] w[i] < 18
        &&& self.edge_idx.0 < 6
    }

    /// The walk is under way below the cell, the deleted side not excluded.
    closed spec fn walking(self) -> bool {
        let p = res_value(self.parent_resolution);
        let t = res_value(self.child_resolution);
        &&& self.common()
        &&& p < t
        &&& walk_shape(self.scratchpad, self.index@, t, self.walk_idx.view())
        &&& field_of(self.scratchpad) == edge_dir_value(self.edge_idx.0)
    }

    /// The iterator's state is consistent: while edges remain, the scratch
    /// space holds a directed edge from a descendant of the cell, off the
    /// deleted side of a pentagon, and the walk state is the one of the edge
    /// whose turn it is.
    pub closed spec fn wf(self) -> bool {
        let p = res_value(self.parent_resolution);
        let t = res_value(self.child_resolution);
        let w = self.walk_idx.view();
        &&& self.common()
        &&& (self.count == 0) == (self.scratchpad == 0)
        &&& (self.count > 0 && p == t) ==> {
            &&& self.count <= side_count(self.is_pentagon)
            &&& self.edge_idx.0 == own_edge_index(
                self.is_pentagon,
                (side_count(self.is_pentagon) - self.count) as nat,
            )
            &&& self.scratchpad == derived_bits(self.index@, 2, edge_dir_value(self.edge_idx.0))
        }
        &&& (self.count > 0 && p < t) ==> {
            &&& self.count <= gosper_count(self.index@, t)
            &&& (w, self.edge_idx.0) == outline_state(
                self.index@,
                t,
                (gosper_count(self.index@, t) - self.count) as nat,
            )
        }
        &&& self.count > 0 ==> {
            &&& p <= t
            &&& walk_shape(self.scratchpad, self.index@, t, w)
            &&& field_of(self.scratchpad) == edge_dir_value(self.edge_idx.0)
            &&& self.is_pentagon ==> if t == p {
                edge_dir_value(self.edge_idx.0) != 1
            } else {
                walk_digit_value(w[p + 1]) != 1
            }
        }
    }

    /// Returns the iterator over the outline, at `child_resolution`, of the
    /// children of `index` (empty for a coarser resolution).
    pub fn new(index: CellIndex, child_resolution: Resolution) -> (g: Self)
        ensures
            g.wf(),
            g.parent() == index@,
            g.target() == res_value(child_resolution),
            g.remaining() == gosper_count(index@, res_value(child_resolution)),
    {
        proof {
            use_type_invariant(&index);
        }
        let parent_resolution = index.resolution();
        let is_pentagon = index.is_pentagon();
        let nb_sides: u64 = if is_pentagon {
            5
        } else {
            6
        };

        let mut iter = Self {
            scratchpad: 0,
            count: 0,
            edge_idx: EdgeDirectionsIndex(0),
            walk_idx: WalkIndices::new(),
            parent_resolution,
            child_resolution,
            is_pentagon,
            index: Ghost(index@),
        };
        let p = parent_resolution.to_u8();
        let t = child_resolution.to_u8();
        let ghost idx = index@;

        // In that case returns an empty iterator.
        if t < p {
            return iter;
        }
        let cell = index.to_u64();
        let mut scratchpad = bits::set_mode(cell, IndexMode::DirectedEdge);
        proof {
            lemma_keep_cell_fields(scratchpad, cell);
            lemma_state_bits(scratchpad, cell, 0, 0);
        }
        // Same-resolution fast path: no digit/resolution setup needed.
        if t == p {
            let before = scratchpad;
            iter.scratchpad = bits::set_edge(
                scratchpad,
                Edge::new_unchecked(Direction::JK.to_u8()),
            );
            iter.count = nb_sides;
            proof {
                lemma_keep_cell_fields(iter.scratchpad, before);
                assert(mode_of(iter.scratchpad) == 2) by {
                    lemma_state_bits(iter.scratchpad, before, 0, 0);
                }
                lemma_edge_mode_nonzero(iter.scratchpad);
                assert(pow3(0) == 1);
            }
            return iter;
        }

        // Set number of edges for the iterator to yield.
        let delta = t - p;
        proof {
            lemma_pow3_le(delta as nat);
            lemma_pow3(delta as nat);
        }
        iter.count = nb_sides * pow3_u64(delta);

        // Set resolution to child level.
        let ghost s_mode = scratchpad;
        scratchpad = bits::set_resolution(scratchpad, child_resolution);
        proof {
            lemma_top_fields(scratchpad, s_mode);
        }

        // Arrived here we are sure that `parent < child`: `succ` cannot fail.
        let first_child = parent_resolution.succ().expect("parent < child");

        // The first child level starts at walk position 0.
        let ghost s1 = scratchpad;
        scratchpad = bits::set_direction(scratchpad, Direction::K.to_u8(), first_child);
        proof {
            bits::lemma_with_digit(s1, (p + 1) as u8, 1);
            lemma_top_bit(scratchpad, s1);
        }

        // Subsequent levels start at either 14 or 16, depending on the class.
        let mut res: u8 = p + 2;
        proof {
            assert(iter.walk_idx.view() =~= Seq::new(
                16,
                |i: int|
                    if p + 2 <= i < res {
                        if i % 2 == 1 {
                            14u8
                        } else {
                            16u8
                        }
                    } else {
                        0u8
                    },
            ));
        }
        while res <= t
            invariant
                iter.walk_idx.view() == Seq::new(
                    16,
                    |i: int|
                        if p + 2 <= i < res {
                            if i % 2 == 1 {
                                14u8
                            } else {
                                16u8
                            }
                        } else {
                            0u8
                        },
                ),
                p + 2 <= res <= t + 1,
                p < t <= 15,
                t == res_value(iter.child_resolution),
                p == res_value(iter.parent_resolution),
                iter.walk_idx.view().len() == 16,
                forall|i: int| 0 <= i < 16 ==> #[trigger] iter.walk_idx.view()[i] < 18,
                forall|i: int| 0 <= i < 16 && !(p + 2 <= i < res) ==> #[trigger] iter.walk_idx.view()[i] == 0,
                mode_of(scratchpad) == 2,
                scratchpad >> 63u64 == 0,
                base_cell_of(scratchpad) == base_cell_of(idx),
                resolution_of(scratchpad) == t,
                field_of(scratchpad) == 0,
                forall|q: u8| 1 <= q <= p ==> #[trigger] digit(scratchpad, q) == digit(idx, q),
                forall|q: u8| p < q < res ==> #[trigger] digit(scratchpad, q) == walk_digit_value(
                    iter.walk_idx.view()[q as int],
                ),
                forall|q: u8| res <= q <= 15 ==> #[trigger] digit(scratchpad, q) == 7,
                iter.count == nb_sides * pow3(delta as nat),
                iter.scratchpad == 0,
                iter.edge_idx.0 == 0,
                iter.index@ == idx,
                iter.is_pentagon == is_pentagon,
            decreases t + 1 - res,
        {
            let level = Resolution::new_unchecked(res);
            let w = WalkDigitsIndex::new(level.is_class3());
            iter.walk_idx.set(level, w);
            let direction = walk_digit(w).to_u8();
            let ghost before = scratchpad;
            scratchpad = bits::set_direction(scratchpad, direction, level);
            proof {
                bits::lemma_with_digit(before, res, direction);
                lemma_top_bit(scratchpad, before);
                assert(iter.walk_idx.view() =~= Seq::new(
                    16,
                    |i: int|
                        if p + 2 <= i < res + 1 {
                            if i % 2 == 1 {
                                14u8
                            } else {
                                16u8
                            }
                        } else {
                            0u8
                        },
                ));
            }
            res = res + 1;
        }
        proof {
            assert(iter.walk_idx.view() =~= start_walk(p, t));
        }

        // Set initial direction.
        let edge = edge_at(iter.edge_idx);
        let ghost before = scratchpad;
        iter.scratchpad = bits::set_edge(scratchpad, edge);
        proof {
            lemma_keep_cell_fields(iter.scratchpad, before);
            lemma_state_bits(iter.scratchpad, before, 0, 0);
        }

        // For pentagons, the walk may start on a deleted subsequence.
        // Advance past those positions to reach the first valid edge.
        iter.skip_pentagon_edges();
        proof {
            lemma_edge_mode_nonzero(iter.scratchpad);
            assert(iter.count == gosper_count(idx, t));
            assert((iter.walk_idx.view(), iter.edge_idx.0) == outline_state(idx, t, 0));
        }
        iter
    }
}

impl Gosper {
    /// Advance to the next boundary edge (origin cell and edge direction).
    fn advance_edge(&mut self)
        requires
            old(self).walking(),
        ensures
            final(self).walking(),
            final(self).index == old(self).index,
            final(self).parent_resolution == old(self).parent_resolution,
            final(self).child_resolution == old(self).child_resolution,
            final(self).is_pentagon == old(self).is_pentagon,
            final(self).count == old(self).count,
            (final(self).walk_idx.view(), final(self).edge_idx.0) == edge_step(
                old(self).walk_idx.view(),
                old(self).edge_idx.0,
                res_value(old(self).parent_resolution),
                res_value(old(self).child_resolution),
            ),
            exists|l0: u8|
                stepped_at(
                    old(self).walk_idx.view(),
                    final(self).walk_idx.view(),
                    res_value(old(self).parent_resolution),
                    res_value(old(self).child_resolution),
                    l0,
                ),
    {
        let ghost w0 = self.walk_idx.view();
        let cell_changed = self.advance_origin_cell();
        let ghost w1 = self.walk_idx.view();
        let ghost l0 = choose|l0: u8|
            stepped_at(
                w0,
                w1,
                res_value(self.parent_resolution),
                res_value(self.child_resolution),
                l0,
            );

        if cell_changed {
            self.edge_idx.next_cell();
        }
        self.edge_idx.next_edge();

        let edge = edge_at(self.edge_idx);
        let ghost before = self.scratchpad;
        self.scratchpad = bits::set_edge(self.scratchpad, edge);
        proof {
            lemma_keep_cell_fields(self.scratchpad, before);
            lemma_state_bits(self.scratchpad, before, 0, 0);
            assert(self.walk_idx.view() == w1);
            assert(stepped_at(
                w0,
                w1,
                res_value(self.parent_resolution),
                res_value(self.child_resolution),
                l0,
            ));
        }
    }

    /// For a pentagon, move the walk off the deleted `K` side.
    fn skip_pentagon_edges(&mut self)
        requires
            old(self).walking(),
        ensures
            final(self).walking(),
            final(self).index == old(self).index,
            final(self).parent_resolution == old(self).parent_resolution,
            final(self).child_resolution == old(self).child_resolution,
            final(self).is_pentagon == old(self).is_pentagon,
            final(self).count == old(self).count,
            final(self).is_pentagon ==> walk_digit_value(
                final(self).walk_idx.view()[res_value(final(self).parent_resolution) + 1],
            ) != 1,
            (final(self).walk_idx.view(), final(self).edge_idx.0) == off_deleted_side(
                old(self).walk_idx.view(),
                old(self).edge_idx.0,
                res_value(old(self).parent_resolution),
                res_value(old(self).child_resolution),
                old(self).is_pentagon,
                side_steps(res_value(old(self).parent_resolution), res_value(old(self).child_resolution)),
            ),
    {
        if !self.is_pentagon {
            return;
        }
        let ghost p = res_value(self.parent_resolution);
        let ghost t = res_value(self.child_resolution);
        let ghost k = (t - p - 1) as nat;
        let ghost target = off_deleted_side(
            self.walk_idx.view(),
            self.edge_idx.0,
            p,
            t,
            true,
            side_steps(p, t),
        );
        let ghost start = progress(self.walk_idx.view(), p, t);
        let ghost mut fuel: nat = side_steps(p, t);
        proof {
            let w = self.walk_idx.view();
            lemma_pending_bound(w, (p + 2) as u8, t);
            assert((t + 1 - (p + 2)) as nat == k);
            let x = w[p + 1] as int;
            assert(x * pow3(k) >= 0) by (nonlinear_arith)
                requires
                    x >= 0,
            ;
        }
        let first_child = self.parent_resolution.succ().expect("parent < child");
        while bits::get_direction(self.scratchpad, first_child) == Direction::K.to_u8()
            invariant
                self.walking(),
                self.is_pentagon,
                res_value(first_child) == p + 1,
                p == res_value(self.parent_resolution),
                t == res_value(self.child_resolution),
                k == (t - p - 1) as nat,
                self.index == old(self).index,
                self.parent_resolution == old(self).parent_resolution,
                self.child_resolution == old(self).child_resolution,
                self.count == old(self).count,
                start >= 0,
                fuel + progress(self.walk_idx.view(), p, t) == side_steps(p, t) + start,
                off_deleted_side(self.walk_idx.view(), self.edge_idx.0, p, t, true, fuel) == target,
            decreases 3 * pow3(k) - progress(self.walk_idx.view(), p, t),
        {
            let ghost w0 = self.walk_idx.view();
            proof {
                assert(digit(self.scratchpad, (p + 1) as u8) == walk_digit_value(w0[p + 1]));
                assert(w0[p + 1] <= 2);
                lemma_pending_bound(w0, (p + 2) as u8, t);
                assert((t + 1 - (p + 2)) as nat == k);
                let x = w0[p + 1] as int;
                assert(x * pow3(k) <= 2 * pow3(k)) by (nonlinear_arith)
                    requires
                        x <= 2,
                ;
            }
            self.advance_edge();
            proof {
                let l0 = choose|l0: u8| stepped_at(w0, self.walk_idx.view(), p, t, l0);
                lemma_progress_step(w0, self.walk_idx.view(), p, t, l0);
                fuel = (fuel - 1) as nat;
            }
        }
        proof {
            assert(digit(self.scratchpad, (p + 1) as u8) == walk_digit_value(
                self.walk_idx.view()[p + 1],
            ));
        }
    }

    /// Advance the walk along origin cells on the outline, updating the
    /// child directions, and returns whether the origin cell changed.
    ///
    /// Each resolution level cycles through 18 walk positions. Across
    /// resolutions, each step at a coarser level maps to 3 steps at the next
    /// finer level. When the coarser level moves to the next cell, the finer
    /// level shifts back by 6 positions.
    #[verifier::spinoff_prover]
    #[verifier::rlimit(30)]
    fn advance_origin_cell(&mut self) -> (changed: bool)
        requires
            old(self).walking(),
        ensures
            final(self).walking(),
            final(self).index == old(self).index,
            final(self).parent_resolution == old(self).parent_resolution,
            final(self).child_resolution == old(self).child_resolution,
            final(self).is_pentagon == old(self).is_pentagon,
            final(self).count == old(self).count,
            final(self).edge_idx == old(self).edge_idx,
            (final(self).walk_idx.view(), changed) == origin_step(
                old(self).walk_idx.view(),
                res_value(old(self).parent_resolution),
                res_value(old(self).child_resolution),
            ),
            exists|l0: u8|
                stepped_at(
                    old(self).walk_idx.view(),
                    final(self).walk_idx.view(),
                    res_value(old(self).parent_resolution),
                    res_value(old(self).child_resolution),
                    l0,
                ),
    {
        // The walk recurses from the finest level to the coarsest one that
        // moves, then backtracks; the depth is bounded, so a stack of the
        // directions replaces the recursion.
        let ghost w0 = self.walk_idx.view();
        let ghost idx = self.index@;
        let p = self.parent_resolution.to_u8();
        let ghost t = res_value(self.child_resolution);
        let mut stack: Vec<u8> = Vec::new();
        let mut depth: usize = 0;

        let mut curr_res = self.child_resolution;
        let mut curr_dir = bits::get_direction(self.scratchpad, curr_res);

        // When moving to the next cell, recurse to advance the parent res.
        loop
            invariant
                self.walking(),
                *self == *old(self),
                w0 == self.walk_idx.view(),
                p == res_value(self.parent_resolution),
                t == res_value(self.child_resolution),
                p + 1 <= res_value(curr_res) <= t,
                depth == t - res_value(curr_res),
                stack@.len() == depth,
                curr_dir == digit(self.scratchpad, res_value(curr_res)),
                forall|q: u8| res_value(curr_res) < q <= t ==> steps_left(#[trigger] w0[q as int], q) == 0,
                moving_level(w0, p, t) == moving_level(w0, p, res_value(curr_res)),
                forall|i: int| 0 <= i < stack@.len() ==> #[trigger] stack@[i] == walk_digit_value(w0[t - i]),
            ensures
                self.walking(),
                *self == *old(self),
                p + 1 <= res_value(curr_res) <= t,
                depth == t - res_value(curr_res),
                stack@.len() == depth,
                curr_dir == digit(self.scratchpad, res_value(curr_res)),
                forall|q: u8| res_value(curr_res) < q <= t ==> steps_left(#[trigger] w0[q as int], q) == 0,
                res_value(curr_res) == p + 1 || steps_left(w0[res_value(curr_res) as int], res_value(curr_res)) > 0,
                res_value(curr_res) == moving_level(w0, p, t),
                forall|i: int| 0 <= i < stack@.len() ==> #[trigger] stack@[i] == walk_digit_value(w0[t - i]),
            decreases res_value(curr_res),
        {
            let prev_resolution = match curr_res.pred() {
                Some(prev) => prev,
                None => break,
            };
            if !(prev_resolution.to_u8() > p && need_to_move_to_next(
                self.walk_idx.at(curr_res),
                curr_res,
            )) {
                break;
            }
            proof {
                assert(digit(self.scratchpad, res_value(curr_res)) == walk_digit_value(
                    w0[res_value(curr_res) as int],
                ));
            }
            stack.push(curr_dir);
            depth += 1;
            curr_res = prev_resolution;
            curr_dir = bits::get_direction(self.scratchpad, curr_res);
        }

        // Leaf call, tie in the recursion and prepare to backtrack.
        let ghost l0 = res_value(curr_res);
        let mut leaf = self.walk_idx.at(curr_res);
        leaf.next_position();
        self.walk_idx.set(curr_res, leaf);
        let next_dir = walk_digit(leaf).to_u8();
        let ghost s0 = self.scratchpad;
        self.scratchpad = bits::set_direction(self.scratchpad, next_dir, curr_res);
        let mut parent_changed = next_dir != curr_dir;
        proof {
            bits::lemma_with_digit(s0, l0, next_dir);
            lemma_top_bit(self.scratchpad, s0);
            assert(curr_dir == walk_digit_value(w0[l0 as int]));
            lemma_stepped_down_first(w0, l0);
        }

        // Backtracking.
        while depth > 0
            invariant
                self.walk_idx.view().len() == 16,
                forall|i: int| 0 <= i < 16 ==> #[trigger] self.walk_idx.view()[i] < 18,
                self.edge_idx.0 < 6,
                p == res_value(self.parent_resolution),
                t == res_value(self.child_resolution),
                p < t <= 15,
                self.index == old(self).index,
                self.parent_resolution == old(self).parent_resolution,
                self.child_resolution == old(self).child_resolution,
                self.is_pentagon == old(self).is_pentagon,
                self.count == old(self).count,
                self.edge_idx == old(self).edge_idx,
                l0 <= res_value(curr_res) <= t,
                depth == t - res_value(curr_res),
                stack@.len() == t - l0,
                p + 1 <= l0,
                l0 == p + 1 || steps_left(w0[l0 as int], l0) > 0,
                self.walk_idx.view()[l0 as int] == next_walk(w0[l0 as int]),
                forall|q: u8| l0 < q <= t ==> steps_left(#[trigger] w0[q as int], q) == 0,
                forall|q: u8|
                    l0 < q <= res_value(curr_res) ==> steps_left(
                        #[trigger] self.walk_idx.view()[q as int],
                        q,
                    ) == 2,
                forall|i: int|
                    0 <= i < 16 && (i < l0 || i > res_value(curr_res)) ==> #[trigger] self.walk_idx.view()[i]
                        == w0[i],
                w0.len() == 16,
                forall|i: int| 0 <= i < 16 ==> #[trigger] w0[i] < 18,
                mode_of(self.scratchpad) == 2,
                self.scratchpad >> 63u64 == 0,
                base_cell_of(self.scratchpad) == base_cell_of(idx),
                resolution_of(self.scratchpad) == t,
                field_of(self.scratchpad) == field_of(s0),
                field_of(s0) == edge_dir_value(self.edge_idx.0),
                forall|q: u8| 1 <= q <= p ==> #[trigger] digit(self.scratchpad, q) == digit(idx, q),
                forall|q: u8|
                    p < q <= t ==> #[trigger] digit(self.scratchpad, q) == walk_digit_value(
                        self.walk_idx.view()[q as int],
                    ),
                forall|q: u8| t < q <= 15 ==> #[trigger] digit(self.scratchpad, q) == 7,
                idx == self.index@,
                forall|i: int| 0 <= i < stack@.len() ==> #[trigger] stack@[i] == walk_digit_value(w0[t - i]),
                self.walk_idx.view() == stepped_down(w0, l0, res_value(curr_res)).0,
                parent_changed == stepped_down(w0, l0, res_value(curr_res)).1,
                l0 == moving_level(w0, p, t),
            decreases depth,
        {
            depth -= 1;
            let curr_dir = stack[depth];
            // Cannot fail by construction: we cancel previous `pred`.
            curr_res = curr_res.succ().expect("backtrack");

            let mut w = self.walk_idx.at(curr_res);
            let ghost c = res_value(curr_res);
            proof {
                assert(w.0 == w0[c as int]);
                assert(steps_left(w0[c as int], c) == 0);
            }
            let ghost wp = w.0;
            if parent_changed {
                w.next_parent();
            }
            let ghost wm = w.0;
            w.next_position();
            proof {
                lemma_steps_left_next(wm, c);
                assert(wm % 3 == wp % 3);
            }
            let ghost v0 = self.walk_idx.view();
            self.walk_idx.set(curr_res, w);
            proof {
                lemma_stepped_down_next(w0, l0, c, v0, parent_changed, w.0);
            }

            // Update the child direction.
            let next_dir = walk_digit(w).to_u8();
            let ghost before = self.scratchpad;
            self.scratchpad = bits::set_direction(self.scratchpad, next_dir, curr_res);
            proof {
                bits::lemma_with_digit(before, c, next_dir);
                lemma_top_bit(self.scratchpad, before);
            }

            // Change in the finest direction is sufficient to detect a cell
            // change.
            parent_changed = next_dir != curr_dir;
            proof {
                assert(curr_dir == walk_digit_value(w0[c as int]));
            }
        }
        proof {
            assert(stepped_at(w0, self.walk_idx.view(), p, t, l0));
        }
        parent_changed
    }

    /// Returns the next edge of the outline, if any.
    pub fn next(&mut self) -> (r: Option<DirectedEdgeIndex>)
        requires
            old(self).wf(),
        ensures
            final(self).wf(),
            final(self).parent() == old(self).parent(),
            final(self).target() == old(self).target(),
            old(self).remaining() == 0 ==> r is None && final(self).remaining() == 0,
            old(self).remaining() > 0 ==> (r matches Some(e) && leaves_ancestor(
                e@,
                field_of(e@),
                resolution_of(old(self).parent()),
                old(self).target(),
            )),
            old(self).remaining() > 0 ==> {
                &&& final(self).remaining() == old(self).remaining() - 1
                &&& r matches Some(e) && is_descendant(
                    owner_bits(e@),
                    old(self).parent(),
                    old(self).target(),
                )
            },
            (old(self).remaining() > 0 && old(self).target() > resolution_of(old(self).parent()))
                ==> (r matches Some(e) && e@ == outline_edge(
                old(self).parent(),
                old(self).target(),
                (gosper_count(old(self).parent(), old(self).target()) - old(self).remaining()) as nat,
            )),
            (old(self).remaining() > 0 && old(self).target() == resolution_of(old(self).parent()))
                ==> (r matches Some(e) && e@ == own_edge(
                old(self).parent(),
                (gosper_count(old(self).parent(), old(self).target()) - old(self).remaining()) as nat,
            )),
    {
        if self.scratchpad == 0 {
            return None;
        }
        let ghost p = res_value(self.parent_resolution);
        let ghost t = res_value(self.child_resolution);
        proof {
            lemma_walk_edge(self.scratchpad, self.index@, t, self.walk_idx.view());
            lemma_walk_edge_unique(
                self.scratchpad,
                self.index@,
                t,
                self.walk_idx.view(),
                self.edge_idx.0,
            );
        }
        let ghost n = (gosper_count(self.index@, t) - self.count) as nat;
        proof {
            if p < t {
                lemma_outline_on_outline(self.index@, t, n);
                lemma_on_outline_leaves(self.scratchpad, self.walk_idx.view(), self.edge_idx.0, p, t, t);
                lemma_edge_ring(self.edge_idx.0);
            }
        }
        let res = DirectedEdgeIndex::new_unchecked(self.scratchpad);

        self.count -= 1;
        if self.count == 0 {
            self.scratchpad = 0;
            return Some(res);
        }

        if self.parent_resolution.to_u8() == self.child_resolution.to_u8() {
            // Easy case of 0 resolution delta: cycle through edge indices,
            // skipping the deleted subsequence for pentagons.
            let ghost e0 = self.edge_idx.0;
            self.edge_idx.next_edge();
            if self.is_pentagon && edge_dir(self.edge_idx).to_u8() == Direction::K.to_u8() {
                self.edge_idx.next_edge();
            }

            let edge = edge_at(self.edge_idx);
            let ghost before = self.scratchpad;
            self.scratchpad = bits::set_edge(self.scratchpad, edge);
            proof {
                lemma_keep_cell_fields(self.scratchpad, before);
                lemma_state_bits(self.scratchpad, before, 0, 0);
                lemma_derived_field(self.index@, edge_dir_value(e0), edge_dir_value(self.edge_idx.0));
                assert(self.scratchpad == derived_bits(self.index@, 2, edge_dir_value(self.edge_idx.0)));
            }
        } else {
            self.advance_edge();
            // Skip deleted subsequences for pentagons.
            self.skip_pentagon_edges();
            proof {
                assert((gosper_count(self.index@, t) - self.count) as nat == n + 1);
                assert((self.walk_idx.view(), self.edge_idx.0) == outline_state(
                    self.index@,
                    t,
                    n + 1,
                ));
            }
        }
        proof {
            lemma_edge_mode_nonzero(self.scratchpad);
        }
        Some(res)
    }

    /// The remaining number of edges, as bounds.
    pub fn size_hint(&self) -> (h: (usize, Option<usize>))
        ensures
            self.remaining() <= usize::MAX ==> h == (self.remaining() as usize, Some(self.remaining() as usize)),
            self.remaining() > usize::MAX ==> h == (usize::MAX, Some(usize::MAX)),
    {
        let count = if self.count <= usize::MAX as u64 {
            self.count as usize
        } else {
            usize::MAX
        };
        (count, Some(count))
    }
}

} // verus!
