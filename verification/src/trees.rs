//! Tree counting on repeating slopes.
//!
//! A map of rows repeats to the right; five fixed slopes are walked from
//! the top-left corner, each counting the trees (`#`) it lands on, and
//! the counts are multiplied.

use vstd::prelude::*;

verus! {

/// Whether the row holds a tree at the index; past the row's end there is
/// no tree.
pub open spec fn spec_tree_at(tree_row: Seq<char>, index: int) -> bool {
    0 <= index < tree_row.len() && tree_row[index] == '#'
}

/// Looks for a tree at the index of one row.
pub fn check_tree_at_index(index: usize, tree_row: &Vec<char>) -> (r: bool)
    ensures
        r == spec_tree_at(tree_row@, index as int),
{
    if index < tree_row.len() {
        tree_row[index] == '#'
    } else {
        false
    }
}

/// Every row has at least one column (the wrap-around divides by the
/// row's width).
pub open spec fn rows_nonempty(rows: Seq<Seq<char>>) -> bool {
    forall|i: int| 0 <= i < rows.len() ==> (#[trigger] rows[i]).len() > 0
}

/// One slope's walk state after reading the first `i` rows: its column,
/// the next row it will read, and the trees found so far.
pub open spec fn spec_slope_at(rows: Seq<Seq<char>>, sx: nat, sy: nat, i: nat) -> (int, int, int)
    decreases i,
{
    if i == 0 {
        (0, 0, 0)
    } else {
        let prev = spec_slope_at(rows, sx, sy, (i - 1) as nat);
        let x = prev.0;
        let y = prev.1;
        let count = prev.2;
        let r = i - 1;
        if y == r {
            let hit: int = if spec_tree_at(rows[r], x) {
                1
            } else {
                0
            };
            ((x + sx) % rows[r].len() as int, y + sy, count + hit)
        } else {
            prev
        }
    }
}

/// The trees one slope meets over the whole map.
pub open spec fn spec_slope_count(rows: Seq<Seq<char>>, sx: nat, sy: nat) -> int {
    spec_slope_at(rows, sx, sy, rows.len() as nat).2
}

/// Walks one slope down the map. Public so that a caller can compute the
/// five counts itself and check the product bound that [`count_trees`]
/// asks for.
pub fn count_slope(tree_rows: &Vec<Vec<char>>, sx: u32, sy: u32) -> (count: u32)
    requires
        rows_nonempty(tree_rows.deep_view()),
        tree_rows@.len() <= 1000,
        forall|i: int| 0 <= i < tree_rows@.len() ==> (#[trigger] tree_rows@[i]@).len()
            <= 0xFFFFFFF,
        1 <= sx <= 10,
        1 <= sy <= 10,
    ensures
        count == spec_slope_count(tree_rows.deep_view(), sx as nat, sy as nat),
{
    let ghost rows = tree_rows.deep_view();
    proof {
        assert forall|i: int| 0 <= i < tree_rows@.len() implies (#[trigger] tree_rows@[i]@)
            == rows[i] by {
            assert(tree_rows@[i].deep_view() =~= tree_rows@[i]@);
        }
    }
    let mut x: u32 = 0;
    let mut y: u32 = 0;
    let mut count: u32 = 0;
    let mut r: usize = 0;
    while r < tree_rows.len()
        invariant
            rows == tree_rows.deep_view(),
            rows_nonempty(rows),
            rows.len() <= 1000,
            forall|i: int| 0 <= i < tree_rows@.len() ==> (#[trigger] tree_rows@[i]@) == rows[i],
            forall|i: int| 0 <= i < rows.len() ==> (#[trigger] rows[i]).len() <= 0xFFFFFFF,
            1 <= sx <= 10,
            1 <= sy <= 10,
            r <= rows.len(),
            (x as int, y as int, count as int) == spec_slope_at(rows, sx as nat, sy as nat, r as nat),
            x <= 0xFFFFFFF,
            y <= 10 * (r as int),
            count <= r,
        decreases rows.len() - r,
    {
        if y == r as u32 {
            let tree_row = &tree_rows[r];
            let is_tree = check_tree_at_index(x as usize, tree_row);
            if is_tree {
                count = count + 1;
            }
            x = (x + sx) % tree_row.len() as u32;
            y = y + sy;
        }
        r = r + 1;
    }
    count
}

/// Counts the trees met by each of the five fixed slopes and multiplies
/// the five counts.
pub fn count_trees(tree_rows: &Vec<Vec<char>>) -> (multiplier: u32)
    requires
        rows_nonempty(tree_rows.deep_view()),
        tree_rows@.len() <= 1000,
        forall|i: int| 0 <= i < tree_rows@.len() ==> (#[trigger] tree_rows@[i]@).len()
            <= 0xFFFFFFF,
        spec_slope_count(tree_rows.deep_view(), 1, 1) * spec_slope_count(
            tree_rows.deep_view(),
            3,
            1,
        ) * spec_slope_count(tree_rows.deep_view(), 5, 1) * spec_slope_count(
            tree_rows.deep_view(),
            7,
            1,
        ) * spec_slope_count(tree_rows.deep_view(), 1, 2) <= u32::MAX,
    ensures
        multiplier == spec_slope_count(tree_rows.deep_view(), 1, 1) * spec_slope_count(
            tree_rows.deep_view(),
            3,
            1,
        ) * spec_slope_count(tree_rows.deep_view(), 5, 1) * spec_slope_count(
            tree_rows.deep_view(),
            7,
            1,
        ) * spec_slope_count(tree_rows.deep_view(), 1, 2),
{
    let ghost rows = tree_rows.deep_view();
    let c1 = count_slope(tree_rows, 1, 1);
    let c2 = count_slope(tree_rows, 3, 1);
    let c3 = count_slope(tree_rows, 5, 1);
    let c4 = count_slope(tree_rows, 7, 1);
    let c5 = count_slope(tree_rows, 1, 2);
    proof {
        lemma_slope_count_nonneg(rows, 1, 1);
        lemma_slope_count_nonneg(rows, 3, 1);
        lemma_slope_count_nonneg(rows, 5, 1);
        lemma_slope_count_nonneg(rows, 7, 1);
        lemma_slope_count_nonneg(rows, 1, 2);
        assert((c1 as int) * (c2 as int) * (c3 as int) * (c4 as int) * (c5 as int) <= u32::MAX);
        assert(c1 <= 1000 && c2 <= 1000 && c3 <= 1000 && c4 <= 1000 && c5 <= 1000);
        assert((c1 as u64) * (c2 as u64) <= 1000000) by (nonlinear_arith)
            requires
                c1 <= 1000,
                c2 <= 1000,
        ;
        assert((c1 as u64) * (c2 as u64) * (c3 as u64) <= 1000000000) by (nonlinear_arith)
            requires
                (c1 as u64) * (c2 as u64) <= 1000000,
                c3 <= 1000,
        ;
        assert((c1 as u64) * (c2 as u64) * (c3 as u64) * (c4 as u64) <= 1000000000000)
            by (nonlinear_arith)
            requires
                (c1 as u64) * (c2 as u64) * (c3 as u64) <= 1000000000,
                c4 <= 1000,
        ;
        assert((c1 as u64) * (c2 as u64) * (c3 as u64) * (c4 as u64) * (c5 as u64)
            <= 1000000000000000) by (nonlinear_arith)
            requires
                (c1 as u64) * (c2 as u64) * (c3 as u64) * (c4 as u64) <= 1000000000000,
                c5 <= 1000,
        ;
    }
    let product: u64 = c1 as u64 * c2 as u64 * c3 as u64 * c4 as u64 * c5 as u64;
    product as u32
}

/// A slope count lies between zero and the number of rows.
pub proof fn lemma_slope_count_nonneg(rows: Seq<Seq<char>>, sx: nat, sy: nat)
    ensures
        0 <= spec_slope_count(rows, sx, sy) <= rows.len(),
{
    lemma_slope_at_bounds(rows, sx, sy, rows.len() as nat);
}

/// The walk state's count after `i` rows lies between zero and `i`.
pub proof fn lemma_slope_at_bounds(rows: Seq<Seq<char>>, sx: nat, sy: nat, i: nat)
    ensures
        0 <= spec_slope_at(rows, sx, sy, i).2 <= i,
    decreases i,
{
    if i > 0 {
        lemma_slope_at_bounds(rows, sx, sy, (i - 1) as nat);
    }
}

} // verus!
