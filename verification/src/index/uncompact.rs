//! Expansion of a set of cells into their children at a finer resolution.
use crate::index::bits::resolution_of;
use crate::index::cell::{children_count_of, is_pentagon_cell, is_valid_cell, CellIndex};
use crate::index::iterator::children::is_descendant;
use crate::index::position::law_child_rank_injective;
use crate::index::rank::child_rank;
use crate::resolution::{res_value, Resolution};
use vstd::prelude::*;

verus! {

/// The child, at resolution `t`, of the cell `idx` at position `n`.
pub open spec fn nth_child(idx: u64, t: u8, n: nat) -> u64 {
    choose|s: u64|
        is_descendant(s, idx, t) && child_rank(
            s,
            is_pentagon_cell(idx),
            (resolution_of(idx) + 1) as u8,
            t,
        ) == n
}

/// The children, at resolution `t`, of the cell `idx`, in increasing order.
pub open spec fn children_seq(idx: u64, t: u8) -> Seq<u64> {
    Seq::new(children_count_of(idx, t), |n: int| nth_child(idx, t, n as nat))
}

/// The values of a sequence of cells.
pub open spec fn cells_view(cells: Seq<CellIndex>) -> Seq<u64> {
    cells.map_values(|c: CellIndex| c@)
}

/// The total number of children, at resolution `t`, of the cells.
pub open spec fn total_children(cells: Seq<u64>, t: u8) -> nat
    decreases cells.len(),
{
    if cells.len() == 0 {
        0
    } else {
        total_children(cells.drop_last(), t) + children_count_of(cells.last(), t)
    }
}

/// The children, at resolution `t`, of each of the cells in turn.
pub open spec fn uncompacted(cells: Seq<u64>, t: u8) -> Seq<u64>
    decreases cells.len(),
{
    if cells.len() == 0 {
        Seq::empty()
    } else {
        uncompacted(cells.drop_last(), t) + children_seq(cells.last(), t)
    }
}

/// A descendant is the child at its own position.
pub proof fn lemma_nth_child(idx: u64, s: u64, t: u8)
    requires
        is_valid_cell(idx),
        is_descendant(s, idx, t),
    ensures
        nth_child(idx, t, child_rank(s, is_pentagon_cell(idx), (resolution_of(idx) + 1) as u8, t))
            == s,
{
    let n = child_rank(s, is_pentagon_cell(idx), (resolution_of(idx) + 1) as u8, t);
    let c = nth_child(idx, t, n);
    assert(is_descendant(c, idx, t) && child_rank(
        c,
        is_pentagon_cell(idx),
        (resolution_of(idx) + 1) as u8,
        t,
    ) == n);
    law_child_rank_injective(idx, c, s, t);
}

/// The number of expanded cells is the total number of children.
pub proof fn lemma_uncompacted_len(cells: Seq<u64>, t: u8)
    ensures
        uncompacted(cells, t).len() == total_children(cells, t),
    decreases cells.len(),
{
    if cells.len() > 0 {
        lemma_uncompacted_len(cells.drop_last(), t);
    }
}

/// The total over a prefix is at most the total.
proof fn lemma_total_prefix(cells: Seq<u64>, i: int, t: u8)
    requires
        0 <= i <= cells.len(),
    ensures
        total_children(cells.take(i), t) <= total_children(cells, t),
    decreases cells.len() - i,
{
    if i < cells.len() {
        lemma_total_prefix(cells, i + 1, t);
        assert(cells.take(i + 1).drop_last() =~= cells.take(i));
    } else {
        assert(cells.take(i) =~= cells);
    }
}

impl CellIndex {
    /// Computes the exact size of the uncompacted set of cells: the sum of
    /// their numbers of children at `resolution`.
    pub fn uncompact_size(compacted: &[CellIndex], resolution: Resolution) -> (n: u64)
        requires
            total_children(cells_view(compacted@), res_value(resolution)) <= u64::MAX,
        ensures
            n == total_children(cells_view(compacted@), res_value(resolution)),
            n == uncompacted(cells_view(compacted@), res_value(resolution)).len(),
    {
        let ghost t = res_value(resolution);
        let ghost cv = cells_view(compacted@);
        let mut sum: u64 = 0;
        let mut i: usize = 0;
        while i < compacted.len()
            invariant
                i <= compacted.len(),
                cv == cells_view(compacted@),
                t == res_value(resolution),
                total_children(cv, t) <= u64::MAX,
                sum == total_children(cv.take(i as int), t),
            decreases compacted.len() - i,
        {
            let count = compacted[i].children_count(resolution);
            proof {
                assert(cv.take(i + 1).drop_last() =~= cv.take(i as int));
                assert(cv.take(i + 1).last() == compacted@[i as int]@);
                lemma_total_prefix(cv, i + 1, t);
            }
            sum = sum + count;
            i = i + 1;
        }
        proof {
            assert(cv.take(compacted.len() as int) =~= cv);
            lemma_uncompacted_len(cv, t);
        }
        sum
    }

    /// Expands a compacted set of cells into their children at
    /// `resolution`: the children of each cell in turn, in increasing order.
    pub fn uncompact(compacted: &[CellIndex], resolution: Resolution) -> (cells: Vec<CellIndex>)
        ensures
            cells_view(cells@) == uncompacted(cells_view(compacted@), res_value(resolution)),
    {
        let ghost t = res_value(resolution);
        let ghost cv = cells_view(compacted@);
        let mut out: Vec<CellIndex> = Vec::new();
        let mut i: usize = 0;
        while i < compacted.len()
            invariant
                i <= compacted.len(),
                cv == cells_view(compacted@),
                t == res_value(resolution),
                cells_view(out@) == uncompacted(cv.take(i as int), t),
            decreases compacted.len() - i,
        {
            let cell = compacted[i];
            proof {
                use_type_invariant(&cell);
            }
            let ghost idx = cell@;
            let ghost before = cells_view(out@);
            let ghost kids = children_seq(idx, t);
            let ghost total = children_count_of(idx, t);
            let mut children = cell.children(resolution);
            loop
                invariant
                    children.wf(),
                    children.parent() == idx,
                    children.target() == t,
                    is_valid_cell(idx),
                    children.remaining() <= total,
                    total == children_count_of(idx, t),
                    kids == children_seq(idx, t),
                    cells_view(out@) == before + kids.take(total - children.remaining()),
                ensures
                    cells_view(out@) == before + kids,
                decreases children.remaining(),
            {
                let ghost rem = children.remaining();
                match children.next() {
                    Some(child) => {
                        proof {
                            lemma_nth_child(idx, child@, t);
                            let k = (total - rem) as int;
                            assert(kids[k] == child@);
                            assert(kids.take(k + 1) =~= kids.take(k).push(child@));
                        }
                        let ghost prev = out@;
                        out.push(child);
                        proof {
                            assert(cells_view(out@) =~= cells_view(prev).push(child@));
                        }
                    },
                    None => {
                        proof {
                            assert(kids.take(total as int) =~= kids);
                        }
                        break;
                    },
                }
            }
            proof {
                assert(cv.take(i + 1).drop_last() =~= cv.take(i as int));
                assert(cv.take(i + 1).last() == idx);
            }
            i = i + 1;
        }
        proof {
            assert(cv.take(compacted.len() as int) =~= cv);
        }
        out
    }
}

} // verus!
