//! Compaction of a set of cells of one resolution: every complete set of
//! children is replaced by its parent, recursively, leaving the fewest cells
//! that cover exactly the same cells.
use crate::index::bits::{
    self, digit, digit_offset, lemma_high_bits, lemma_with_unused, resolution_of, with_unused,
};
use crate::index::bitvec::{
    lemma_ancestor_order, lemma_field_masks, lemma_lex_bits, lemma_masks, lemma_top_fields,
};
use crate::index::cell::{
    children_count_of, is_valid_cell, lemma_parent_valid, lemma_resolution_field, with_resolution,
    CellIndex,
};
use crate::index::count::{
    child_bits, descendants, law_center_child, law_children_count, law_children_seq,
};
use crate::error::CompactionError;
use crate::index::iterator::children::is_descendant;
use crate::index::position::{law_child_at_child_position, law_child_position_child_at};
use crate::index::uncompact::{cells_view, children_seq, uncompacted};
use crate::resolution::Resolution;
use vstd::prelude::*;

verus! {

/// The ancestor of a cell at the resolution `k`: its directions finer than
/// `k` set to the unused pattern.
pub open spec fn ancestor(x: u64, k: u8) -> u64 {
    with_unused(with_resolution(x, k), k)
}

/// Every cell at resolution `r` below `c` is in `cells`.
pub open spec fn covers(c: u64, cells: Set<u64>, r: u8) -> bool {
    descendants(c, r).subset_of(cells)
}

/// The compaction of the cells of resolution `r`: the cells whose children
/// at resolution `r` are all in the set, but not all those of their parent.
pub open spec fn compacted(cells: Set<u64>, r: u8) -> Set<u64> {
    Set::new(
        |c: u64|
            is_valid_cell(c) && resolution_of(c) <= r && covers(c, cells, r) && (resolution_of(c)
                == 0 || !covers(ancestor(c, (resolution_of(c) - 1) as u8), cells, r)),
    )
}

/// A valid cell is its own ancestor at its resolution.
pub proof fn lemma_ancestor_self(x: u64)
    requires
        is_valid_cell(x),
    ensures
        ancestor(x, resolution_of(x)) == x,
{
    let r = resolution_of(x);
    lemma_masks();
    lemma_parent_valid(x, r);
    let a = ancestor(x, r);
    lemma_resolution_field(x, r);
    lemma_with_unused(with_resolution(x, r), r);
    lemma_high_bits(a, with_resolution(x, r));
    lemma_masks();
    lemma_field_masks(x);
    assert((x >> 59u64) & 0xfu64 == 1);
    lemma_top_fields(a, x);
    assert forall|q: u8| 1 <= q <= 15 implies #[trigger] digit(a, q) == digit(x, q) by {}
    bits::lemma_bits_ext(a, x);
}

/// The ancestor at `j` of the ancestor at `k` (`j <= k`) is the ancestor
/// at `j`.
pub proof fn lemma_ancestor_chain(x: u64, k: u8, j: u8)
    requires
        is_valid_cell(x),
        j <= k <= resolution_of(x),
    ensures
        ancestor(ancestor(x, k), j) == ancestor(x, j),
{
    let a = ancestor(x, k);
    lemma_parent_valid(x, k);
    lemma_parent_valid(a, j);
    lemma_parent_valid(x, j);
    let l = ancestor(a, j);
    let m = ancestor(x, j);
    assert forall|q: u8| 1 <= q <= 15 implies #[trigger] digit(l, q) == digit(m, q) by {}
    lemma_masks();
    lemma_field_masks(l);
    lemma_field_masks(m);
    assert((l >> 59u64) & 0xfu64 == 1 && (m >> 59u64) & 0xfu64 == 1);
    lemma_top_fields(l, m);
    bits::lemma_bits_ext(l, m);
}

/// The descendants of a valid cell are the valid cells, at the target
/// resolution, whose ancestor at the cell's resolution is the cell.
pub proof fn lemma_descendant_ancestor(s: u64, p: u64, t: u8)
    requires
        is_valid_cell(p),
    ensures
        is_descendant(s, p, t) <==> (is_valid_cell(s) && resolution_of(s) == t && resolution_of(p)
            <= t && ancestor(s, resolution_of(p)) == p),
{
    if is_descendant(s, p, t) {
        law_child_position_child_at(p, s, t);
    }
    if is_valid_cell(s) && resolution_of(s) == t && resolution_of(p) <= t && ancestor(
        s,
        resolution_of(p),
    ) == p {
        law_child_at_child_position(s, resolution_of(p), 0);
    }
}

/// A cell of the target resolution covers itself only.
pub proof fn lemma_covers_leaf(c: u64, cells: Set<u64>)
    requires
        is_valid_cell(c),
    ensures
        covers(c, cells, resolution_of(c)) <==> cells.contains(c),
{
    let r = resolution_of(c);
    lemma_ancestor_self(c);
    lemma_descendant_ancestor(c, c, r);
    assert forall|s: u64| descendants(c, r).contains(s) implies s == c by {
        lemma_descendant_ancestor(s, c, r);
        lemma_ancestor_self(s);
    }
}

/// A cell covers the cells below it iff each of its children, one
/// resolution finer, does.
pub proof fn lemma_covers_children(p: u64, k: u8, cells: Set<u64>, r: u8)
    requires
        is_valid_cell(p),
        resolution_of(p) + 1 == k,
        k <= r <= 15,
    ensures
        covers(p, cells, r) <==> forall|q: u64| #[trigger] is_descendant(q, p, k) ==> covers(q, cells, r),
{
    let j = resolution_of(p);
    if covers(p, cells, r) {
        assert forall|q: u64| #[trigger] is_descendant(q, p, k) implies covers(q, cells, r) by {
            lemma_descendant_ancestor(q, p, k);
            assert forall|x: u64| descendants(q, r).contains(x) implies cells.contains(x) by {
                lemma_descendant_ancestor(x, q, r);
                lemma_ancestor_chain(x, k, j);
                lemma_descendant_ancestor(x, p, r);
                assert(descendants(p, r).contains(x));
            }
        }
    }
    if forall|q: u64| #[trigger] is_descendant(q, p, k) ==> covers(q, cells, r) {
        assert forall|x: u64| descendants(p, r).contains(x) implies cells.contains(x) by {
            lemma_descendant_ancestor(x, p, r);
            let q = ancestor(x, k);
            lemma_parent_valid(x, k);
            lemma_ancestor_chain(x, k, j);
            lemma_descendant_ancestor(q, p, k);
            assert(is_descendant(q, p, k));
            lemma_descendant_ancestor(x, q, r);
            assert(descendants(q, r).contains(x));
        }
    }
}

/// The cells below the ancestor of `s` at `j` are below its ancestor at
/// any coarser resolution `i`.
proof fn lemma_below_nested(s: u64, i: u8, j: u8, r: u8)
    requires
        is_valid_cell(s),
        resolution_of(s) == r,
        i <= j <= r,
    ensures
        descendants(ancestor(s, j), r).subset_of(descendants(ancestor(s, i), r)),
{
    let a = ancestor(s, j);
    let b = ancestor(s, i);
    lemma_parent_valid(s, j);
    lemma_parent_valid(s, i);
    assert forall|x: u64| descendants(a, r).contains(x) implies descendants(b, r).contains(x) by {
        lemma_descendant_ancestor(x, a, r);
        lemma_ancestor_chain(x, j, i);
        lemma_ancestor_chain(s, j, i);
        lemma_descendant_ancestor(x, b, r);
    }
}

/// Some ancestor of `s`, at `k` or coarser, belongs to the compaction, when
/// the one at `k` covers.
proof fn lemma_compacted_ancestor(s: u64, k: u8, cells: Set<u64>, r: u8)
    requires
        is_valid_cell(s),
        resolution_of(s) == r,
        k <= r,
        covers(ancestor(s, k), cells, r),
    ensures
        exists|c: u64| #[trigger] compacted(cells, r).contains(c) && is_descendant(s, c, r),
    decreases k,
{
    let a = ancestor(s, k);
    lemma_parent_valid(s, k);
    lemma_descendant_ancestor(s, a, r);
    if k > 0 && covers(ancestor(s, (k - 1) as u8), cells, r) {
        lemma_compacted_ancestor(s, (k - 1) as u8, cells, r);
    } else {
        if k > 0 {
            lemma_ancestor_chain(s, k, (k - 1) as u8);
        }
        assert(compacted(cells, r).contains(a));
    }
}

/// Compaction loses nothing and duplicates nothing: the cells below the
/// compacted cells are exactly the cells compacted, each below exactly one
/// of them. Uncompacting a compaction gives back the cells.
pub proof fn law_compact_uncompact(cells: Set<u64>, r: u8)
    requires
        r <= 15,
        forall|s: u64| #[trigger] cells.contains(s) ==> is_valid_cell(s) && resolution_of(s) == r,
    ensures
        forall|c: u64, s: u64|
            #[trigger] compacted(cells, r).contains(c) && #[trigger] is_descendant(s, c, r)
                ==> cells.contains(s),
        forall|s: u64|
            #[trigger] cells.contains(s) ==> exists|c: u64|
                #[trigger] compacted(cells, r).contains(c) && is_descendant(s, c, r),
        forall|c1: u64, c2: u64, s: u64|
            compacted(cells, r).contains(c1) && compacted(cells, r).contains(c2)
                && #[trigger] is_descendant(s, c1, r) && #[trigger] is_descendant(s, c2, r) ==> c1
                == c2,
{
    assert forall|c: u64, s: u64|
        #[trigger] compacted(cells, r).contains(c) && #[trigger] is_descendant(s, c, r) implies cells.contains(s) by {
        assert(descendants(c, r).contains(s));
    }
    assert forall|s: u64| #[trigger] cells.contains(s) implies exists|c: u64|
        #[trigger] compacted(cells, r).contains(c) && is_descendant(s, c, r) by {
        lemma_ancestor_self(s);
        lemma_covers_leaf(s, cells);
        lemma_compacted_ancestor(s, r, cells, r);
    }
    assert forall|c1: u64, c2: u64, s: u64|
        compacted(cells, r).contains(c1) && compacted(cells, r).contains(c2)
            && #[trigger] is_descendant(s, c1, r) && #[trigger] is_descendant(s, c2, r) implies c1
        == c2 by {
        lemma_descendant_ancestor(s, c1, r);
        lemma_descendant_ancestor(s, c2, r);
        let k1 = resolution_of(c1);
        let k2 = resolution_of(c2);
        if k1 < k2 {
            lemma_below_nested(s, k1, (k2 - 1) as u8, r);
            lemma_ancestor_chain(s, k2, (k2 - 1) as u8);
            assert(covers(ancestor(c2, (k2 - 1) as u8), cells, r));
        } else if k2 < k1 {
            lemma_below_nested(s, k2, (k1 - 1) as u8, r);
            lemma_ancestor_chain(s, k1, (k1 - 1) as u8);
            assert(covers(ancestor(c1, (k1 - 1) as u8), cells, r));
        }
    }
}

/// The children, at resolution `r`, of cells whose children are disjoint:
/// each child of one of the cells, listed once.
proof fn lemma_uncompacted_disjoint(v: Seq<u64>, r: u8)
    requires
        r <= 15,
        forall|i: int| 0 <= i < v.len() ==> is_valid_cell(#[trigger] v[i]) && resolution_of(v[i]) <= r,
        forall|i: int, j: int, s: u64|
            0 <= i < v.len() && 0 <= j < v.len() && i != j && #[trigger] is_descendant(s, v[i], r)
                ==> !#[trigger] is_descendant(s, v[j], r),
    ensures
        forall|x: u64|
            uncompacted(v, r).contains(x) <==> exists|i: int|
                0 <= i < v.len() && #[trigger] is_descendant(x, v[i], r),
        uncompacted(v, r).no_duplicates(),
    decreases v.len(),
{
    if v.len() > 0 {
        let w = v.drop_last();
        let c = v.last();
        let n = w.len() as int;
        assert forall|i: int| 0 <= i < w.len() implies is_valid_cell(#[trigger] w[i]) && resolution_of(
            w[i],
        ) <= r by {
            assert(w[i] == v[i]);
        }
        assert forall|i: int, j: int, s: u64|
            0 <= i < w.len() && 0 <= j < w.len() && i != j && #[trigger] is_descendant(s, w[i], r)
                implies !#[trigger] is_descendant(s, w[j], r) by {
            assert(w[i] == v[i] && w[j] == v[j]);
        }
        lemma_uncompacted_disjoint(w, r);
        let a = uncompacted(w, r);
        let b = children_seq(c, r);
        assert(v[n] == c);
        law_children_seq(c, r);
        assert(uncompacted(v, r) == a + b);
        assert forall|x: u64| (a + b).contains(x) <==> exists|i: int|
            0 <= i < v.len() && #[trigger] is_descendant(x, v[i], r) by {
            if (a + b).contains(x) {
                let k = choose|k: int| 0 <= k < (a + b).len() && (a + b)[k] == x;
                if k < a.len() {
                    assert(a.contains(x));
                    let i = choose|i: int| 0 <= i < w.len() && #[trigger] is_descendant(x, w[i], r);
                    assert(v[i] == w[i]);
                } else {
                    assert(b[k - a.len()] == x);
                    assert(b.to_set().contains(x));
                }
            }
            if exists|i: int| 0 <= i < v.len() && #[trigger] is_descendant(x, v[i], r) {
                let i = choose|i: int| 0 <= i < v.len() && #[trigger] is_descendant(x, v[i], r);
                if i < n {
                    assert(is_descendant(x, w[i], r));
                    assert(a.contains(x));
                    let k = choose|k: int| 0 <= k < a.len() && a[k] == x;
                    assert((a + b)[k] == x);
                } else {
                    assert(descendants(c, r).contains(x));
                    assert(b.contains(x));
                    let k = choose|k: int| 0 <= k < b.len() && b[k] == x;
                    assert((a + b)[a.len() + k] == x);
                }
            }
        }
        assert forall|p: int, q: int| 0 <= p < (a + b).len() && 0 <= q < (a + b).len() && p != q
            implies (a + b)[p] != (a + b)[q] by {
            let al = a.len() as int;
            if p < al && q < al {
                assert(a[p] != a[q]);
            } else if p >= al && q >= al {
                assert(b[p - al] != b[q - al]);
            } else {
                let (o, t) = if p < al {
                    (p, q)
                } else {
                    (q, p)
                };
                let x = a[o];
                assert(a.contains(x));
                let i = choose|i: int| 0 <= i < w.len() && #[trigger] is_descendant(x, w[i], r);
                assert(v[i] == w[i]);
                if x == b[t - al] {
                    assert(b.to_set().contains(x));
                    assert(is_descendant(x, v[n], r));
                }
            }
        }
    }
}

/// Uncompacting a compaction (listed without duplicates) lists each of the
/// compacted cells exactly once.
pub proof fn law_uncompact_compact(v: Seq<u64>, cells: Set<u64>, r: u8)
    requires
        r <= 15,
        forall|s: u64| #[trigger] cells.contains(s) ==> is_valid_cell(s) && resolution_of(s) == r,
        v.no_duplicates(),
        v.to_set() == compacted(cells, r),
    ensures
        uncompacted(v, r).to_set() == cells,
        uncompacted(v, r).no_duplicates(),
{
    law_compact_uncompact(cells, r);
    assert forall|i: int| 0 <= i < v.len() implies is_valid_cell(#[trigger] v[i]) && resolution_of(v[i])
        <= r by {
        assert(v.to_set().contains(v[i]));
    }
    assert forall|i: int, j: int, s: u64|
        0 <= i < v.len() && 0 <= j < v.len() && i != j && #[trigger] is_descendant(s, v[i], r)
            implies !#[trigger] is_descendant(s, v[j], r) by {
        assert(v.to_set().contains(v[i]));
        assert(v.to_set().contains(v[j]));
    }
    lemma_uncompacted_disjoint(v, r);
    assert forall|x: u64| uncompacted(v, r).to_set().contains(x) <==> cells.contains(x) by {
        if uncompacted(v, r).contains(x) {
            let i = choose|i: int| 0 <= i < v.len() && #[trigger] is_descendant(x, v[i], r);
            assert(v.to_set().contains(v[i]));
        }
        if cells.contains(x) {
            let c = choose|c: u64| #[trigger] compacted(cells, r).contains(c) && is_descendant(x, c, r);
            assert(v.to_set().contains(c));
            let i = choose|i: int| 0 <= i < v.len() && v[i] == c;
            assert(is_descendant(x, v[i], r));
        }
    }
    assert(uncompacted(v, r).to_set() =~= cells);
}

/// The valid cells at resolution `k` that cover the cells below them.
pub open spec fn cover_set(cells: Set<u64>, r: u8, k: u8) -> Set<u64> {
    Set::new(|c: u64| is_valid_cell(c) && resolution_of(c) == k && covers(c, cells, r))
}

/// The compacted cells at resolution `k`.
pub open spec fn level_set(cells: Set<u64>, r: u8, k: u8) -> Set<u64> {
    Set::new(|c: u64| compacted(cells, r).contains(c) && resolution_of(c) == k)
}

/// The values increase strictly.
pub open spec fn increasing(s: Seq<u64>) -> bool {
    forall|i: int, j: int| 0 <= i < j < s.len() ==> s[i] < s[j]
}

/// A run of the covering cells of resolution `k` sharing the parent `p`
/// holds all the children of `p` iff `p` covers.
proof fn lemma_run(cur: Seq<u64>, i: int, j: int, p: u64, k: u8, cells: Set<u64>, r: u8)
    requires
        1 <= k <= r <= 15,
        0 <= i < j <= cur.len(),
        increasing(cur),
        cur.to_set() == cover_set(cells, r, k),
        is_valid_cell(p),
        resolution_of(p) + 1 == k,
        forall|m: int|
            0 <= m < cur.len() ==> (ancestor(#[trigger] cur[m], (k - 1) as u8) == p <==> i <= m
                < j),
    ensures
        (j - i == children_count_of(p, k)) <==> covers(p, cells, r),
{
    let run = cur.subrange(i, j);
    let rs = run.to_set();
    let d = descendants(p, k);
    law_children_count(p, k);
    assert forall|q: u64| rs.contains(q) implies d.contains(q) by {
        let m = choose|m: int| 0 <= m < run.len() && run[m] == q;
        assert(cur[i + m] == q);
        assert(cur.to_set().contains(q));
        lemma_descendant_ancestor(q, p, k);
    }
    assert(run.no_duplicates()) by {
        assert forall|a: int, b: int| 0 <= a < run.len() && 0 <= b < run.len() && a != b implies run[a]
            != run[b] by {
            if a < b {
                assert(cur[i + a] < cur[i + b]);
            } else {
                assert(cur[i + b] < cur[i + a]);
            }
        }
    }
    run.unique_seq_to_set();
    vstd::seq_lib::seq_to_set_is_finite(run);
    lemma_covers_children(p, k, cells, r);
    if j - i == children_count_of(p, k) {
        vstd::set_lib::lemma_subset_equality(rs, d);
        assert forall|q: u64| #[trigger] is_descendant(q, p, k) implies covers(q, cells, r) by {
            assert(d.contains(q));
            assert(rs.contains(q));
            assert(cur.to_set().contains(q));
        }
    } else {
        vstd::set_lib::lemma_len_subset(rs, d);
        if d.subset_of(rs) {
            vstd::set_lib::lemma_len_subset(d, rs);
        }
        let q = choose|q: u64| d.contains(q) && !rs.contains(q);
        if covers(p, cells, r) {
            assert(is_descendant(q, p, k));
            assert(covers(q, cells, r));
            lemma_descendant_ancestor(q, p, k);
            assert(cover_set(cells, r, k).contains(q));
            assert(cur.to_set().contains(q));
            let m = choose|m: int| 0 <= m < cur.len() && cur[m] == q;
            assert(ancestor(cur[m], (k - 1) as u8) == p);
            assert(run[m - i] == q);
        }
    }
}

/// Two valid cells of a resolution agree from bit 52 up.
proof fn lemma_same_top(a: u64, b: u64)
    requires
        is_valid_cell(a),
        is_valid_cell(b),
        resolution_of(a) == resolution_of(b),
    ensures
        a >> 52u64 == b >> 52u64,
{
    lemma_masks();
    lemma_field_masks(a);
    lemma_field_masks(b);
    assert((a >> 59u64) & 0xfu64 == 1 && (b >> 59u64) & 0xfu64 == 1);
    lemma_lex_bits(a, b, 0, 3);
}

/// The ancestors of increasing cells of one resolution do not decrease.
proof fn lemma_ancestors_sorted(c: Seq<u64>, k: u8, j: u8)
    requires
        increasing(c),
        j <= k <= 15,
        forall|m: int| 0 <= m < c.len() ==> is_valid_cell(#[trigger] c[m]) && resolution_of(c[m]) == k,
    ensures
        forall|m: int, n: int|
            0 <= m <= n < c.len() ==> ancestor(#[trigger] c[m], j) <= ancestor(#[trigger] c[n], j),
{
    assert forall|m: int, n: int| 0 <= m <= n < c.len() implies ancestor(#[trigger] c[m], j)
        <= ancestor(#[trigger] c[n], j) by {
        lemma_same_top(c[m], c[n]);
        lemma_ancestor_order(c[m], c[n], j as u64, digit_offset(j));
    }
}

/// A value is in a sequence with a value pushed iff it is that value or in
/// the sequence.
proof fn lemma_push_contains(s: Seq<u64>, v: u64, x: u64)
    ensures
        s.push(v).contains(x) <==> (s.contains(x) || x == v),
{
    let t = s.push(v);
    if t.contains(x) {
        let i = choose|i: int| 0 <= i < t.len() && t[i] == x;
        if i < s.len() {
            assert(s[i] == x);
        }
    }
    if s.contains(x) {
        let i = choose|i: int| 0 <= i < s.len() && s[i] == x;
        assert(t[i] == x);
    }
    if x == v {
        assert(t[s.len() as int] == x);
    }
}

/// The ancestor of a cell index at resolution `k`.
fn ancestor_bits(x: u64, k: u8) -> (a: u64)
    requires
        k <= 15,
    ensures
        a == ancestor(x, k),
{
    let res = Resolution::new_unchecked(k);
    let b = bits::set_resolution(x, res);
    bits::set_unused(b, res)
}

/// One step of the compaction: the covering cells of resolution `k`, in
/// increasing order, are grouped by parent; a parent whose children are all
/// there covers, and the cells of the other groups are compacted cells.
/// Returns the covering parents, in increasing order; appends the compacted
/// cells of resolution `k`, in increasing order, to `result`.
fn compact_level(
    cur: &Vec<u64>,
    k: u8,
    result: &mut Vec<u64>,
    Ghost(cells): Ghost<Set<u64>>,
    Ghost(r): Ghost<u8>,
) -> (next: Vec<u64>)
    requires
        1 <= k <= r <= 15,
        forall|s: u64| #[trigger] cells.contains(s) ==> is_valid_cell(s) && resolution_of(s) == r,
        increasing(cur@),
        cur@.to_set() == cover_set(cells, r, k),
    ensures
        increasing(next@),
        next@.to_set() == cover_set(cells, r, (k - 1) as u8),
        final(result)@.len() >= old(result)@.len(),
        final(result)@.subrange(0, old(result)@.len() as int) == old(result)@,
        increasing(final(result)@.subrange(old(result)@.len() as int, final(result)@.len() as int)),
        final(result)@.subrange(old(result)@.len() as int, final(result)@.len() as int).to_set()
            == level_set(cells, r, k),
{
    let ghost pk = (k - 1) as u8;
    let ghost c = cur@;
    let ghost start = old(result)@;
    let ghost mut added: Seq<u64> = Seq::empty();
    let len = cur.len();
    proof {
        assert forall|m: int| 0 <= m < c.len() implies is_valid_cell(#[trigger] c[m])
            && resolution_of(c[m]) == k by {
            assert(c.to_set().contains(c[m]));
        }
        lemma_ancestors_sorted(c, k, pk);
    }
    let mut next: Vec<u64> = Vec::new();
    let mut i: usize = 0;
    while i < len
        invariant
            1 <= k <= r <= 15,
            pk == (k - 1) as u8,
            forall|s: u64| #[trigger] cells.contains(s) ==> is_valid_cell(s) && resolution_of(s) == r,
            c == cur@,
            len == c.len(),
            i <= len,
            increasing(c),
            c.to_set() == cover_set(cells, r, k),
            forall|m: int| 0 <= m < c.len() ==> is_valid_cell(#[trigger] c[m]) && resolution_of(c[m])
                == k,
            forall|m: int, n: int|
                0 <= m <= n < c.len() ==> ancestor(#[trigger] c[m], pk) <= ancestor(#[trigger] c[n], pk),
            forall|m: int, n: int|
                0 <= m < i <= n < len ==> ancestor(#[trigger] c[m], pk) < ancestor(#[trigger] c[n], pk),
            increasing(next@),
            forall|x: u64|
                next@.contains(x) <==> exists|m: int|
                    0 <= m < i && ancestor(#[trigger] c[m], pk) == x && covers(x, cells, r),
            result@ == start + added,
            increasing(added),
            forall|x: u64|
                added.contains(x) <==> exists|m: int|
                    0 <= m < i && #[trigger] c[m] == x && !covers(ancestor(x, pk), cells, r),
        decreases len - i,
    {
        let p = ancestor_bits(cur[i], k - 1);
        proof {
            lemma_parent_valid(c[i as int], pk);
        }
        let mut j = i + 1;
        loop
            invariant
                i < j <= len,
                len == c.len(),
                c == cur@,
                pk == (k - 1) as u8,
                1 <= k <= 15,
                p == ancestor(c[i as int], pk),
                forall|m: int| i <= m < j ==> ancestor(#[trigger] c[m], pk) == p,
            ensures
                j == len || ancestor(c[j as int], pk) != p,
            decreases len - j,
        {
            if j == len {
                break;
            }
            if ancestor_bits(cur[j], k - 1) != p {
                break;
            }
            j = j + 1;
        }
        proof {
            assert forall|m: int| 0 <= m < c.len() implies (ancestor(#[trigger] c[m], pk) == p <==> i
                <= m < j) by {
                if m < i {
                    assert(ancestor(c[m], pk) < ancestor(c[i as int], pk));
                }
                if m >= j {
                    assert(ancestor(c[j as int], pk) <= ancestor(c[m], pk));
                    assert(ancestor(c[j as int - 1], pk) <= ancestor(c[j as int], pk));
                }
            }
            lemma_run(c, i as int, j as int, p, k, cells, r);
        }
        let count = CellIndex::new_unchecked(p).children_count(Resolution::new_unchecked(k));
        let ghost old_next = next@;
        if (j - i) as u64 == count {
            proof {
                if next@.len() > 0 {
                    let x = next@.last();
                    assert(next@.contains(x));
                    let m = choose|m: int| 0 <= m < i && ancestor(#[trigger] c[m], pk) == x && covers(x, cells, r);
                    assert(ancestor(c[m], pk) < ancestor(c[i as int], pk));
                }
            }
            next.push(p);
            proof {
                assert(covers(p, cells, r));
                assert forall|x: u64| next@.contains(x) <==> exists|m: int|
                    0 <= m < j && ancestor(#[trigger] c[m], pk) == x && covers(x, cells, r) by {
                    lemma_push_contains(old_next, p, x);
                    if next@.contains(x) {
                        if x != p {
                            assert(old_next.contains(x));
                            let m = choose|m: int| 0 <= m < i && ancestor(#[trigger] c[m], pk) == x && covers(x, cells, r);
                            assert(0 <= m < j && ancestor(c[m], pk) == x && covers(x, cells, r));
                        } else {
                            assert(ancestor(c[i as int], pk) == x);
                        }
                    }
                    if exists|m: int| 0 <= m < j && ancestor(#[trigger] c[m], pk) == x && covers(x, cells, r) {
                        let m = choose|m: int| 0 <= m < j && ancestor(#[trigger] c[m], pk) == x && covers(x, cells, r);
                        if m < i {
                            assert(old_next.contains(x));
                        } else {
                            assert(next@.last() == p);
                        }
                    }
                }
            }
        } else {
            let mut m = i;
            while m < j
                invariant
                    i <= m <= j <= len,
                    len == c.len(),
                    c == cur@,
                    increasing(c),
                    result@ == start + added,
                    increasing(added),
                    forall|x: u64|
                        added.contains(x) <==> (exists|n: int|
                            0 <= n < i && #[trigger] c[n] == x && !covers(ancestor(x, pk), cells, r))
                            || (exists|n: int| i <= n < m && #[trigger] c[n] == x),
                decreases j - m,
            {
                let ghost before = added;
                proof {
                    if added.len() > 0 {
                        let x = added.last();
                        assert(added.contains(x));
                        if exists|n: int| 0 <= n < i && #[trigger] c[n] == x && !covers(ancestor(x, pk), cells, r) {
                            let n = choose|n: int| 0 <= n < i && #[trigger] c[n] == x && !covers(ancestor(x, pk), cells, r);
                            assert(c[n] < c[m as int]);
                        } else {
                            let n = choose|n: int| i <= n < m && #[trigger] c[n] == x;
                            assert(c[n] < c[m as int]);
                        }
                    }
                    added = added.push(c[m as int]);
                    assert forall|x: u64| added.contains(x) <==> (exists|n: int|
                        0 <= n < i && #[trigger] c[n] == x && !covers(ancestor(x, pk), cells, r))
                        || (exists|n: int| i <= n < m + 1 && #[trigger] c[n] == x) by {
                        lemma_push_contains(before, c[m as int], x);
                        if added.contains(x) && x != c[m as int] {
                            assert(before.contains(x));
                            if !(exists|n: int| 0 <= n < i && #[trigger] c[n] == x && !covers(ancestor(x, pk), cells, r)) {
                                let n = choose|n: int| i <= n < m && #[trigger] c[n] == x;
                                assert(i <= n < m + 1 && c[n] == x);
                            }
                        }
                        if x == c[m as int] {
                            assert(i <= m < m + 1 && c[m as int] == x);
                        }
                        if exists|n: int| i <= n < m + 1 && #[trigger] c[n] == x {
                            let n = choose|n: int| i <= n < m + 1 && #[trigger] c[n] == x;
                            if n < m {
                                assert(before.contains(x));
                            } else {
                                assert(added.last() == x);
                            }
                        }
                        if exists|n: int| 0 <= n < i && #[trigger] c[n] == x && !covers(ancestor(x, pk), cells, r) {
                            assert(before.contains(x));
                        }
                    }
                }
                result.push(cur[m]);
                m = m + 1;
            }
            proof {
                assert forall|x: u64| next@.contains(x) <==> exists|m: int|
                    0 <= m < j && ancestor(#[trigger] c[m], pk) == x && covers(x, cells, r) by {
                    if exists|m: int| 0 <= m < j && ancestor(#[trigger] c[m], pk) == x && covers(x, cells, r) {
                        let m = choose|m: int| 0 <= m < j && ancestor(#[trigger] c[m], pk) == x && covers(x, cells, r);
                        if m >= i {
                            assert(ancestor(c[m], pk) == p);
                        }
                    }
                }
                assert forall|x: u64| added.contains(x) <==> exists|n: int|
                    0 <= n < j && #[trigger] c[n] == x && !covers(ancestor(x, pk), cells, r) by {
                    if exists|n: int| i <= n < j && #[trigger] c[n] == x {
                        let n = choose|n: int| i <= n < j && #[trigger] c[n] == x;
                        assert(ancestor(c[n], pk) == p);
                    }
                    if exists|n: int| 0 <= n < j && #[trigger] c[n] == x && !covers(ancestor(x, pk), cells, r) {
                        let n = choose|n: int| 0 <= n < j && #[trigger] c[n] == x && !covers(ancestor(x, pk), cells, r);
                        if n >= i {
                            assert(exists|n: int| i <= n < j && #[trigger] c[n] == x);
                        }
                    }
                }
            }
        }
        proof {
            assert forall|m: int, n: int|
                0 <= m < j <= n < len implies ancestor(#[trigger] c[m], pk) < ancestor(#[trigger] c[n], pk) by {
                assert(ancestor(c[m], pk) <= ancestor(c[j as int - 1], pk));
                assert(ancestor(c[j as int], pk) <= ancestor(c[n], pk));
            }
        }
        i = j;
    }
    proof {
        let nx = next@;
        assert forall|x: u64| nx.to_set().contains(x) <==> cover_set(cells, r, pk).contains(x) by {
            if nx.contains(x) {
                let m = choose|m: int| 0 <= m < i && ancestor(#[trigger] c[m], pk) == x && covers(x, cells, r);
                lemma_parent_valid(c[m], pk);
            }
            if cover_set(cells, r, pk).contains(x) {
                let q = child_bits(x, k, 0);
                law_center_child(x, k);
                lemma_covers_children(x, k, cells, r);
                lemma_descendant_ancestor(q, x, k);
                assert(cover_set(cells, r, k).contains(q));
                assert(c.to_set().contains(q));
                let m = choose|m: int| 0 <= m < c.len() && c[m] == q;
                assert(ancestor(c[m], pk) == x);
            }
        }
        assert(nx.to_set() =~= cover_set(cells, r, pk));
        assert(result@.subrange(start.len() as int, result@.len() as int) =~= added);
        assert forall|x: u64| added.to_set().contains(x) <==> level_set(cells, r, k).contains(x) by {
            if added.contains(x) {
                let m = choose|m: int| 0 <= m < i && #[trigger] c[m] == x && !covers(ancestor(x, pk), cells, r);
                assert(c.to_set().contains(x));
            }
            if level_set(cells, r, k).contains(x) {
                assert(cover_set(cells, r, k).contains(x));
                assert(c.to_set().contains(x));
                let m = choose|m: int| 0 <= m < c.len() && c[m] == x;
            }
        }
        assert(added.to_set() =~= level_set(cells, r, k));
    }
    next
}

/// Every cell of the sequence has the resolution of the first one.
pub open spec fn same_resolution(s: Seq<u64>) -> bool {
    forall|i: int| 0 <= i < s.len() ==> resolution_of(#[trigger] s[i]) == resolution_of(s[0])
}

/// The values do not decrease.
pub open spec fn sorted(s: Seq<u64>) -> bool {
    forall|i: int, j: int| 0 <= i <= j < s.len() ==> s[i] <= s[j]
}

/// Merges two sorted sequences of values into one.
fn merge(a: &Vec<u64>, b: &Vec<u64>) -> (m: Vec<u64>)
    requires
        sorted(a@),
        sorted(b@),
    ensures
        sorted(m@),
        m@.to_multiset() == a@.to_multiset().add(b@.to_multiset()),
{
    broadcast use vstd::seq_lib::group_to_multiset_ensures;

    let mut m: Vec<u64> = Vec::new();
    let mut i: usize = 0;
    let mut j: usize = 0;
    while i < a.len() || j < b.len()
        invariant
            sorted(a@),
            sorted(b@),
            i <= a@.len(),
            j <= b@.len(),
            sorted(m@),
            m@.to_multiset() == a@.subrange(0, i as int).to_multiset().add(
                b@.subrange(0, j as int).to_multiset(),
            ),
            m@.len() > 0 && i < a@.len() ==> m@.last() <= a@[i as int],
            m@.len() > 0 && j < b@.len() ==> m@.last() <= b@[j as int],
        decreases a@.len() + b@.len() - i - j,
    {
        let ghost before = m@;
        let take_a = j >= b.len() || (i < a.len() && a[i] <= b[j]);
        if take_a {
            m.push(a[i]);
            proof {
                assert(a@.subrange(0, i + 1) =~= a@.subrange(0, i as int).push(a@[i as int]));
                vstd::seq_lib::to_multiset_build(a@.subrange(0, i as int), a@[i as int]);
                vstd::seq_lib::to_multiset_build(before, a@[i as int]);
            }
            i = i + 1;
        } else {
            m.push(b[j]);
            proof {
                assert(b@.subrange(0, j + 1) =~= b@.subrange(0, j as int).push(b@[j as int]));
                vstd::seq_lib::to_multiset_build(b@.subrange(0, j as int), b@[j as int]);
                vstd::seq_lib::to_multiset_build(before, b@[j as int]);
            }
            j = j + 1;
        }
        proof {
            assert forall|p: int, q: int| 0 <= p <= q < m@.len() implies m@[p] <= m@[q] by {
                if q == m@.len() - 1 && p < q {
                    assert(before[p] <= before.last());
                }
            }
        }
    }
    proof {
        assert(a@.subrange(0, a@.len() as int) =~= a@);
        assert(b@.subrange(0, b@.len() as int) =~= b@);
    }
    m
}

/// Sorts the values `v[lo..hi]`, by merging the sorted halves.
fn merge_sort(v: &Vec<u64>, lo: usize, hi: usize) -> (s: Vec<u64>)
    requires
        lo <= hi <= v@.len(),
    ensures
        sorted(s@),
        s@.to_multiset() == v@.subrange(lo as int, hi as int).to_multiset(),
    decreases hi - lo,
{
    broadcast use vstd::seq_lib::group_to_multiset_ensures;

    if hi - lo <= 1 {
        let mut s: Vec<u64> = Vec::new();
        if hi > lo {
            s.push(v[lo]);
            proof {
                assert(v@.subrange(lo as int, hi as int) =~= s@);
            }
        } else {
            proof {
                assert(v@.subrange(lo as int, hi as int) =~= s@);
            }
        }
        return s;
    }
    let mid = lo + (hi - lo) / 2;
    let left = merge_sort(v, lo, mid);
    let right = merge_sort(v, mid, hi);
    proof {
        assert(v@.subrange(lo as int, hi as int) =~= v@.subrange(lo as int, mid as int) + v@.subrange(
            mid as int,
            hi as int,
        ));
        vstd::seq_lib::lemma_multiset_commutative(
            v@.subrange(lo as int, mid as int),
            v@.subrange(mid as int, hi as int),
        );
    }
    merge(&left, &right)
}

/// Nothing compacts the empty set.
proof fn lemma_compacted_empty(r: u8)
    requires
        r <= 15,
    ensures
        compacted(Set::empty(), r) == Set::<u64>::empty(),
{
    assert forall|c: u64| !compacted(Set::empty(), r).contains(c) by {
        if is_valid_cell(c) && resolution_of(c) <= r {
            law_center_child(c, r);
            assert(descendants(c, r).contains(child_bits(c, r, 0)));
        }
    }
    assert(compacted(Set::empty(), r) =~= Set::<u64>::empty());
}

/// A sequence with the values (as a multiset) of a sequence without
/// duplicates has none either.
proof fn lemma_same_duplicates(a: Seq<u64>, b: Seq<u64>)
    requires
        a.to_multiset() == b.to_multiset(),
        b.no_duplicates(),
    ensures
        a.no_duplicates(),
{
    b.lemma_multiset_has_no_duplicates();
    a.lemma_multiset_has_no_duplicates_conv();
}

impl CellIndex {
    /// Compresses a set of unique cell indexes, all at the same resolution:
    /// every complete set of children is replaced by its parent,
    /// recursively, which gives the fewest cells covering the same cells.
    ///
    /// Fails with `HeterogeneousResolution` when the cells do not all have
    /// the same resolution, then with `DuplicateInput` when a cell occurs
    /// twice.
    pub fn compact(cells: &[CellIndex]) -> (res: Result<Vec<CellIndex>, CompactionError>)
        ensures
            !same_resolution(cells_view(cells@)) <==> res == Err::<Vec<CellIndex>, CompactionError>(
                CompactionError::HeterogeneousResolution,
            ),
            (same_resolution(cells_view(cells@)) && !cells_view(cells@).no_duplicates()) <==> res
                == Err::<Vec<CellIndex>, CompactionError>(CompactionError::DuplicateInput),
            res matches Ok(v) ==> {
                &&& cells_view(v@).no_duplicates()
                &&& cells_view(v@).to_set() == compacted(
                    cells_view(cells@).to_set(),
                    if cells@.len() == 0 {
                        0u8
                    } else {
                        resolution_of(cells@[0]@)
                    },
                )
            },
    {
        let ghost cv = cells_view(cells@);
        let n = cells.len();
        if n == 0 {
            proof {
                lemma_compacted_empty(0);
                assert(cv.to_set() =~= Set::<u64>::empty());
                assert(cells_view(Seq::<CellIndex>::empty()).to_set() =~= Set::<u64>::empty());
            }
            return Ok(Vec::new());
        }
        let r = cells[0].resolution().to_u8();
        let mut vals: Vec<u64> = Vec::new();
        let mut i: usize = 0;
        while i < n
            invariant
                n == cells@.len(),
                n > 0,
                cv == cells_view(cells@),
                r == resolution_of(cv[0]),
                i <= n,
                vals@ == cv.subrange(0, i as int),
                forall|m: int| 0 <= m < i ==> resolution_of(#[trigger] cv[m]) == r,
                forall|m: int| 0 <= m < i ==> is_valid_cell(#[trigger] cv[m]),
            decreases n - i,
        {
            let cell = cells[i];
            if cell.resolution().to_u8() != r {
                proof {
                    assert(cv[i as int] == cell@);
                }
                return Err(CompactionError::HeterogeneousResolution);
            }
            proof {
                assert(cv[i as int] == cell@);
            }
            vals.push(cell.to_u64());
            proof {
                assert(vals@ =~= cv.subrange(0, i + 1));
            }
            i = i + 1;
        }
        proof {
            assert(vals@ =~= cv);
            assert(same_resolution(cv));
        }
        let ghost unsorted = vals@;
        let vals = merge_sort(&vals, 0, vals.len());
        proof {
            assert(unsorted.subrange(0, unsorted.len() as int) =~= unsorted);
            broadcast use vstd::seq_lib::group_to_multiset_ensures;

            assert(unsorted == cv);
            assert(vals@.to_multiset().len() == vals@.len());
            assert(cv.to_multiset().len() == cv.len());
        }
        let len = vals.len();
        let mut i: usize = 1;
        while i < len
            invariant
                cv == cells_view(cells@),
                same_resolution(cv),
                forall|m: int| 0 <= m < cv.len() ==> is_valid_cell(#[trigger] cv[m]),
                forall|m: int| 0 <= m < cv.len() ==> resolution_of(#[trigger] cv[m]) == r,
                vals@.to_multiset() == cv.to_multiset(),
                len == vals@.len(),
                1 <= i <= len,
                forall|a: int, b: int| 0 <= a < b < i ==> vals@[a] < vals@[b],
                forall|a: int, b: int| 0 <= a <= b < len ==> vals@[a] <= vals@[b],
            decreases len - i,
        {
            if vals[i - 1] == vals[i] {
                proof {
                    assert(!vals@.no_duplicates());
                    if cv.no_duplicates() {
                        lemma_same_duplicates(vals@, cv);
                    }
                }
                return Err(CompactionError::DuplicateInput);
            }
            i = i + 1;
        }
        let ghost cells_set = cv.to_set();
        proof {
            broadcast use vstd::seq_lib::group_to_multiset_ensures;

            assert(increasing(vals@));
            assert(vals@.no_duplicates());
            lemma_same_duplicates(cv, vals@);
            assert forall|x: u64| vals@.to_set().contains(x) <==> cells_set.contains(x) by {
                assert(vals@.contains(x) <==> vals@.to_multiset().count(x) > 0);
                assert(cv.contains(x) <==> cv.to_multiset().count(x) > 0);
            }
            assert(vals@.to_set() =~= cells_set);
            assert forall|s: u64| #[trigger] cells_set.contains(s) implies is_valid_cell(s)
                && resolution_of(s) == r by {
                let m = choose|m: int| 0 <= m < cv.len() && cv[m] == s;
            }
            assert forall|x: u64| cover_set(cells_set, r, r).contains(x) <==> cells_set.contains(x) by {
                if is_valid_cell(x) && resolution_of(x) == r {
                    lemma_covers_leaf(x, cells_set);
                }
            }
            assert(cover_set(cells_set, r, r) =~= cells_set);
        }
        let mut cur = vals;
        let mut result: Vec<u64> = Vec::new();
        let mut k = r;
        while k > 0
            invariant
                k <= r <= 15,
                forall|s: u64| #[trigger] cells_set.contains(s) ==> is_valid_cell(s)
                    && resolution_of(s) == r,
                increasing(cur@),
                cur@.to_set() == cover_set(cells_set, r, k),
                result@.no_duplicates(),
                forall|x: u64| result@.contains(x) <==> compacted(cells_set, r).contains(x)
                    && resolution_of(x) > k,
            decreases k,
        {
            let ghost before = result@;
            let next = compact_level(&cur, k, &mut result, Ghost(cells_set), Ghost(r));
            proof {
                let added = result@.subrange(before.len() as int, result@.len() as int);
                assert(result@ =~= before + added);
                let bl = before.len() as int;
                assert forall|x: u64| result@.contains(x) <==> compacted(cells_set, r).contains(x)
                    && resolution_of(x) > (k - 1) as u8 by {
                    if result@.contains(x) {
                        let m = choose|m: int| 0 <= m < result@.len() && result@[m] == x;
                        if m < bl {
                            assert(before[m] == x);
                            assert(before.contains(x));
                        } else {
                            assert(added[m - bl] == x);
                            assert(added.contains(x));
                            assert(added.to_set().contains(x));
                            assert(level_set(cells_set, r, k).contains(x));
                        }
                    }
                    if compacted(cells_set, r).contains(x) && resolution_of(x) > (k - 1) as u8 {
                        if resolution_of(x) > k {
                            assert(before.contains(x));
                            let m = choose|m: int| 0 <= m < before.len() && before[m] == x;
                            assert(result@[m] == x);
                        } else {
                            assert(level_set(cells_set, r, k).contains(x));
                            assert(added.to_set().contains(x));
                            assert(added.contains(x));
                            let m = choose|m: int| 0 <= m < added.len() && added[m] == x;
                            assert(result@[bl + m] == x);
                        }
                    }
                }
                assert forall|a: int, b: int| 0 <= a < result@.len() && 0 <= b < result@.len() && a
                    != b implies result@[a] != result@[b] by {
                    let bl = before.len() as int;
                    if a < bl && b < bl {
                        assert(before[a] != before[b]);
                    } else if a >= bl && b >= bl {
                        if a < b {
                            assert(added[a - bl] < added[b - bl]);
                        } else {
                            assert(added[b - bl] < added[a - bl]);
                        }
                    } else {
                        let (o, w) = if a < bl {
                            (a, b)
                        } else {
                            (b, a)
                        };
                        assert(before.contains(before[o]));
                        assert(added.to_set().contains(added[w - bl]));
                        assert(resolution_of(result@[o]) > k);
                        assert(resolution_of(result@[w]) == k);
                    }
                }
            }
            cur = next;
            k = k - 1;
        }
        let ghost before = result@;
        let mut m: usize = 0;
        while m < cur.len()
            invariant
                m <= cur@.len(),
                increasing(cur@),
                cur@.to_set() == cover_set(cells_set, r, 0),
                result@ == before + cur@.subrange(0, m as int),
                before.no_duplicates(),
                forall|x: u64| before.contains(x) <==> compacted(cells_set, r).contains(x)
                    && resolution_of(x) > 0,
            decreases cur@.len() - m,
        {
            result.push(cur[m]);
            proof {
                assert(result@ =~= before + cur@.subrange(0, m + 1));
            }
            m = m + 1;
        }
        proof {
            assert(cur@.subrange(0, cur@.len() as int) =~= cur@);
            let z = cur@;
            assert(result@ =~= before + z);
            assert forall|x: u64| result@.contains(x) <==> compacted(cells_set, r).contains(x) by {
                if result@.contains(x) {
                    let m = choose|m: int| 0 <= m < result@.len() && result@[m] == x;
                    if m < before.len() {
                        assert(before[m] == x);
                        assert(before.contains(x));
                    } else {
                        assert(z[m - before.len()] == x);
                        assert(z.contains(x));
                        assert(z.to_set().contains(x));
                        assert(cover_set(cells_set, r, 0).contains(x));
                    }
                }
                if compacted(cells_set, r).contains(x) {
                    if resolution_of(x) > 0 {
                        assert(before.contains(x));
                        let m = choose|m: int| 0 <= m < before.len() && before[m] == x;
                        assert(result@[m] == x);
                    } else {
                        assert(cover_set(cells_set, r, 0).contains(x));
                        assert(z.to_set().contains(x));
                        let m = choose|m: int| 0 <= m < z.len() && z[m] == x;
                        assert(result@[before.len() + m] == x);
                    }
                }
            }
            assert forall|a: int, b: int| 0 <= a < result@.len() && 0 <= b < result@.len() && a != b
                implies result@[a] != result@[b] by {
                let bl = before.len() as int;
                if a < bl && b < bl {
                    assert(before[a] != before[b]);
                } else if a >= bl && b >= bl {
                    if a < b {
                        assert(z[a - bl] < z[b - bl]);
                    } else {
                        assert(z[b - bl] < z[a - bl]);
                    }
                } else {
                    let (o, w) = if a < bl {
                        (a, b)
                    } else {
                        (b, a)
                    };
                    assert(before.contains(before[o]));
                    assert(z.to_set().contains(z[w - bl]));
                }
            }
        }
        let mut out: Vec<CellIndex> = Vec::new();
        let mut m: usize = 0;
        while m < result.len()
            invariant
                m <= result@.len(),
                forall|x: u64| result@.contains(x) ==> is_valid_cell(x),
                out@.len() == m,
                cells_view(out@) == result@.subrange(0, m as int),
            decreases result@.len() - m,
        {
            proof {
                assert(result@.contains(result@[m as int]));
            }
            let ghost prev = out@;
            let cell = CellIndex::new_unchecked(result[m]);
            out.push(cell);
            proof {
                assert(out@ == prev.push(cell));
                assert forall|a: int| 0 <= a <= m implies #[trigger] cells_view(out@)[a] == result@[a] by {
                    if a < m {
                        assert(cells_view(prev)[a] == result@[a]);
                        assert(out@[a] == prev[a]);
                    }
                }
                assert(cells_view(out@) =~= result@.subrange(0, m + 1));
            }
            m = m + 1;
        }
        proof {
            assert(result@.subrange(0, result@.len() as int) =~= result@);
            assert(cells_view(out@).to_set() =~= compacted(cells_set, r));
        }
        Ok(out)
    }
}

} // verus!
