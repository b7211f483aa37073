//! The carries of a neighbour step on the grid.
//!
//! Stepping from a cell to its neighbour in a direction adjusts the cell's
//! directions from the finest one up: each digit, with the move it
//! receives, gives a new digit and a move handed on to the coarser level
//! (the center direction when the step stays within the parent). Which
//! table applies depends on the class of the resolution of the digit.
use crate::index::bits::digit;
use vstd::prelude::*;

verus! {

/// The move handed on to the coarser level when the digit `d` of a Class
/// III resolution receives the move `dir` (the grid's `NEW_ADJUSTMENT_II`
/// table): 0 when the step stays within the parent.
pub open spec fn adjustment_ii(d: u8, dir: u8) -> u8 {
    if d == 1 {
        if dir == 1 || dir == 3 { 1 } else if dir == 5 { 5 } else { 0 }
    } else if d == 2 {
        if dir == 2 || dir == 6 { 2 } else if dir == 3 { 3 } else { 0 }
    } else if d == 3 {
        if dir == 1 { 1 } else if dir == 2 || dir == 3 { 3 } else { 0 }
    } else if d == 4 {
        if dir == 4 || dir == 5 { 4 } else if dir == 6 { 6 } else { 0 }
    } else if d == 5 {
        if dir == 1 || dir == 5 { 5 } else if dir == 4 { 4 } else { 0 }
    } else if d == 6 {
        if dir == 2 { 2 } else if dir == 4 || dir == 6 { 6 } else { 0 }
    } else {
        0
    }
}

/// The move handed on to the coarser level when the digit `d` of a Class
/// II resolution receives the move `dir` (the grid's `NEW_ADJUSTMENT_III`
/// table): 0 when the step stays within the parent.
pub open spec fn adjustment_iii(d: u8, dir: u8) -> u8 {
    if d == 1 {
        if dir == 1 || dir == 5 { 1 } else if dir == 3 { 3 } else { 0 }
    } else if d == 2 {
        if dir == 2 || dir == 3 { 2 } else if dir == 6 { 6 } else { 0 }
    } else if d == 3 {
        if dir == 1 || dir == 3 { 3 } else if dir == 2 { 2 } else { 0 }
    } else if d == 4 {
        if dir == 4 || dir == 6 { 4 } else if dir == 5 { 5 } else { 0 }
    } else if d == 5 {
        if dir == 1 { 1 } else if dir == 4 || dir == 5 { 5 } else { 0 }
    } else if d == 6 {
        if dir == 2 || dir == 6 { 6 } else if dir == 4 { 4 } else { 0 }
    } else {
        0
    }
}

/// The move handed on by the digit `d` of resolution `res` receiving the
/// move `dir`.
pub open spec fn adjustment(d: u8, dir: u8, res: u8) -> u8 {
    if res % 2 == 1 {
        adjustment_ii(d, dir)
    } else {
        adjustment_iii(d, dir)
    }
}

/// Whether a step in direction `dir` from the cell `bits`, whose digits are
/// adjusted from resolution `res` up, leaves its ancestor at resolution
/// `p`: every digit from `res` up to `p + 1` hands a move on, so the
/// neighbour differs from the cell at resolution `p` or above, and is not a
/// descendant of that ancestor.
pub open spec fn leaves_ancestor(bits: u64, dir: u8, p: u8, res: u8) -> bool
    decreases res,
{
    if res <= p || res == 0 {
        true
    } else {
        let c = adjustment(digit(bits, res), dir, res);
        c != 0 && leaves_ancestor(bits, c, p, (res - 1) as u8)
    }
}

} // verus!
