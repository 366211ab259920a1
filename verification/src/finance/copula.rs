use vstd::prelude::*;
use vstd::relations::{sorted_by, total_ordering};

verus! {

broadcast use vstd::seq_lib::group_to_multiset_ensures, vstd::multiset::group_multiset_axioms;

/// Ascending order on score keys.
pub open spec fn key_le() -> spec_fn(i64, i64) -> bool {
    |a: i64, b: i64| a <= b
}

/// The scores in ascending order.
pub open spec fn sorted_keys(s: Seq<i64>) -> Seq<i64> {
    s.sort_by(key_le())
}

proof fn lemma_key_le_total()
    ensures
        total_ordering(key_le()),
{
}

/// Two ascending arrangements of the same scores are the same sequence.
proof fn lemma_sorted_unique(a: Seq<i64>, b: Seq<i64>)
    requires
        sorted_by(a, key_le()),
        sorted_by(b, key_le()),
        a.to_multiset() == b.to_multiset(),
    ensures
        a == b,
    decreases a.len(),
{
    assert(a.len() == a.to_multiset().len());
    assert(b.len() == b.to_multiset().len());
    if a.len() > 0 {
        let x = a.last();
        let y = b.last();
        assert(a.contains(x)) by {
            assert(a[a.len() - 1] == x);
        }
        assert(b.contains(y)) by {
            assert(b[b.len() - 1] == y);
        }
        assert(b.to_multiset().count(x) > 0);
        assert(a.to_multiset().count(y) > 0);
        let i = choose|i: int| 0 <= i < b.len() && b[i] == x;
        let j = choose|j: int| 0 <= j < a.len() && a[j] == y;
        if i < b.len() - 1 {
            assert(key_le()(b[i], b[b.len() - 1]));
        }
        if j < a.len() - 1 {
            assert(key_le()(a[j], a[a.len() - 1]));
        }
        assert(x == y);
        let a0 = a.drop_last();
        let b0 = b.drop_last();
        assert(a =~= a0.push(x));
        assert(b =~= b0.push(x));
        assert(a0.to_multiset() =~= b0.to_multiset()) by {
            assert(a0.push(x).to_multiset() =~= a0.to_multiset().insert(x));
            assert(b0.push(x).to_multiset() =~= b0.to_multiset().insert(x));
            assert forall|v: i64| a0.to_multiset().count(v) == b0.to_multiset().count(v) by {
                assert(a.to_multiset().count(v) == b.to_multiset().count(v));
                assert(a.to_multiset() == a0.to_multiset().insert(x));
                assert(b.to_multiset() == b0.to_multiset().insert(x));
                assert(a0.to_multiset().insert(x).count(v) == a0.to_multiset().count(v) + if v == x {
                    1nat
                } else {
                    0nat
                });
                assert(b0.to_multiset().insert(x).count(v) == b0.to_multiset().count(v) + if v == x {
                    1nat
                } else {
                    0nat
                });
            }
        }
        lemma_sorted_unique(a0, b0);
    }
}

/// Sorts the keys with the standard library's `slice::sort`, whose
/// documentation promises an ascending arrangement of the same elements.
#[verifier::external_body]
fn sort_ascending(v: &mut Vec<i64>)
    ensures
        sorted_by(final(v)@, key_le()),
        final(v)@.to_multiset() == old(v)@.to_multiset(),
{
    v.sort();
}

/// The scores of `scores`, sorted ascending.
fn sorted_copy(scores: &Vec<i64>) -> (sorted: Vec<i64>)
    ensures
        sorted@ == sorted_keys(scores@),
        sorted@.len() == scores@.len(),
{
    let mut sorted = scores.clone();
    assert(sorted@ =~= scores@);
    sort_ascending(&mut sorted);
    proof {
        lemma_key_le_total();
        scores@.lemma_sort_by_ensures(key_le());
        lemma_sorted_unique(sorted@, sorted_keys(scores@));
        assert(sorted@.len() == sorted@.to_multiset().len());
        assert(scores@.len() == scores@.to_multiset().len());
    }
    sorted
}

/// The score values at the cut positions of the sorted scores: the
/// boundaries between consecutive slices of the copula grid.
pub open spec fn cut_values(scores: Seq<i64>, cuts: Seq<usize>) -> Seq<i64> {
    Seq::new(cuts.len(), |k: int| sorted_keys(scores)[cuts[k] as int])
}

/// `k` is the slice of `score`: every boundary before `k` is at most the
/// score, and boundary `k`, if there is one, lies above it.
pub open spec fn is_slice_of(score: i64, boundaries: Seq<i64>, k: int) -> bool {
    &&& 0 <= k <= boundaries.len()
    &&& forall|j: int| 0 <= j < k ==> #[trigger] boundaries[j] <= score
    &&& k < boundaries.len() ==> score < boundaries[k]
}

/// The slice a score falls into: the first boundary above it, or the last
/// slice when no boundary is.
pub open spec fn slice_of(score: i64, boundaries: Seq<i64>) -> int {
    choose|k: int| is_slice_of(score, boundaries, k)
}

proof fn lemma_slice_unique(score: i64, boundaries: Seq<i64>, k: int)
    requires
        is_slice_of(score, boundaries, k),
    ensures
        slice_of(score, boundaries) == k,
{
    let c = slice_of(score, boundaries);
    assert(is_slice_of(score, boundaries, c));
    if c < k {
        assert(boundaries[c] <= score);
    } else if k < c {
        assert(boundaries[k] <= score);
    }
}

/// The slice of `score` among ascending `boundaries`: the index of the first
/// boundary above the score, or `boundaries.len()` when there is none.
pub fn slice_index(score: i64, boundaries: &Vec<i64>) -> (k: usize)
    ensures
        k == slice_of(score, boundaries@),
        is_slice_of(score, boundaries@, k as int),
{
    let mut i: usize = 0;
    while i < boundaries.len()
        invariant
            i <= boundaries.len(),
            forall|j: int| 0 <= j < i ==> #[trigger] boundaries@[j] <= score,
        decreases boundaries.len() - i,
    {
        if score < boundaries[i] {
            proof {
                lemma_slice_unique(score, boundaries@, i as int);
            }
            return i;
        }
        i = i + 1;
    }
    proof {
        lemma_slice_unique(score, boundaries@, i as int);
    }
    i
}

/// Number of the first `n` samples whose first score falls into slice `col`
/// and whose second score falls into slice `row`.
pub open spec fn cell_count(
    scores_1: Seq<i64>,
    scores_2: Seq<i64>,
    boundaries_1: Seq<i64>,
    boundaries_2: Seq<i64>,
    row: int,
    col: int,
    n: int,
) -> nat
    decreases n,
{
    if n <= 0 {
        0
    } else {
        cell_count(scores_1, scores_2, boundaries_1, boundaries_2, row, col, n - 1) + if slice_of(
            scores_2[n - 1],
            boundaries_2,
        ) == row && slice_of(scores_1[n - 1], boundaries_1) == col {
            1nat
        } else {
            0nat
        }
    }
}

proof fn lemma_cell_count_bound(
    scores_1: Seq<i64>,
    scores_2: Seq<i64>,
    boundaries_1: Seq<i64>,
    boundaries_2: Seq<i64>,
    row: int,
    col: int,
    n: int,
)
    requires
        n >= 0,
    ensures
        cell_count(scores_1, scores_2, boundaries_1, boundaries_2, row, col, n) <= n,
    decreases n,
{
    if n > 0 {
        lemma_cell_count_bound(scores_1, scores_2, boundaries_1, boundaries_2, row, col, n - 1);
    }
}

/// Sum of the entries of one row of counts.
pub open spec fn row_total(row: Seq<usize>) -> int
    decreases row.len(),
{
    if row.len() == 0 {
        0
    } else {
        row_total(row.drop_last()) + row.last()
    }
}

/// Sum of all entries of a grid of counts.
pub open spec fn grid_total(grid: Seq<Vec<usize>>) -> int
    decreases grid.len(),
{
    if grid.len() == 0 {
        0
    } else {
        grid_total(grid.drop_last()) + row_total(grid.last()@)
    }
}

proof fn lemma_row_total_update(row: Seq<usize>, c: int, v: usize)
    requires
        0 <= c < row.len(),
    ensures
        row_total(row.update(c, v)) == row_total(row) - row[c] + v,
    decreases row.len(),
{
    if c < row.len() - 1 {
        assert(row.update(c, v).drop_last() =~= row.drop_last().update(c, v));
        lemma_row_total_update(row.drop_last(), c, v);
    } else {
        assert(row.update(c, v).drop_last() =~= row.drop_last());
    }
}

proof fn lemma_grid_total_update(grid: Seq<Vec<usize>>, r: int, new_row: Vec<usize>)
    requires
        0 <= r < grid.len(),
    ensures
        grid_total(grid.update(r, new_row)) == grid_total(grid) - row_total(grid[r]@) + row_total(
            new_row@,
        ),
    decreases grid.len(),
{
    if r < grid.len() - 1 {
        assert(grid.update(r, new_row).drop_last() =~= grid.drop_last().update(r, new_row));
        lemma_grid_total_update(grid.drop_last(), r, new_row);
    } else {
        assert(grid.update(r, new_row).drop_last() =~= grid.drop_last());
    }
}

proof fn lemma_zero_totals(grid: Seq<Vec<usize>>, k: int)
    requires
        0 <= k <= grid.len(),
        forall|r: int, c: int|
            0 <= r < grid.len() && 0 <= c < grid[r]@.len() ==> #[trigger] grid[r]@[c] == 0,
    ensures
        grid_total(grid.subrange(0, k)) == 0,
    decreases k,
{
    if k > 0 {
        assert(grid.subrange(0, k).drop_last() =~= grid.subrange(0, k - 1));
        lemma_zero_totals(grid, k - 1);
        lemma_zero_row(grid[k - 1]@, grid[k - 1]@.len() as int);
        assert(grid[k - 1]@.subrange(0, grid[k - 1]@.len() as int) =~= grid[k - 1]@);
    }
}

proof fn lemma_zero_row(row: Seq<usize>, k: int)
    requires
        0 <= k <= row.len(),
        forall|c: int| 0 <= c < row.len() ==> #[trigger] row[c] == 0,
    ensures
        row_total(row.subrange(0, k)) == 0,
    decreases k,
{
    if k > 0 {
        assert(row.subrange(0, k).drop_last() =~= row.subrange(0, k - 1));
        lemma_zero_row(row, k - 1);
    }
}

/// A `size` by `size` grid of zeros.
fn zero_grid(size: usize) -> (grid: Vec<Vec<usize>>)
    ensures
        grid@.len() == size,
        forall|r: int| 0 <= r < size ==> (#[trigger] grid@[r])@.len() == size,
        forall|r: int, c: int| 0 <= r < size && 0 <= c < size ==> #[trigger] grid@[r]@[c] == 0,
        grid_total(grid@) == 0,
{
    let mut grid: Vec<Vec<usize>> = Vec::new();
    let mut r: usize = 0;
    while r < size
        invariant
            r <= size,
            grid@.len() == r,
            forall|i: int| 0 <= i < r ==> (#[trigger] grid@[i])@.len() == size,
            forall|i: int, c: int| 0 <= i < r && 0 <= c < size ==> #[trigger] grid@[i]@[c] == 0,
        decreases size - r,
    {
        let mut row: Vec<usize> = Vec::new();
        let mut c: usize = 0;
        while c < size
            invariant
                c <= size,
                row@.len() == c,
                forall|j: int| 0 <= j < c ==> #[trigger] row@[j] == 0,
            decreases size - c,
        {
            row.push(0);
            c = c + 1;
        }
        grid.push(row);
        r = r + 1;
    }
    proof {
        lemma_zero_totals(grid@, grid@.len() as int);
        assert(grid@.subrange(0, grid@.len() as int) =~= grid@);
    }
    grid
}

/// The values of `sorted` at the positions `cuts`.
fn values_at(sorted: &Vec<i64>, cuts: &Vec<usize>) -> (values: Vec<i64>)
    requires
        forall|k: int| 0 <= k < cuts.len() ==> #[trigger] cuts@[k] < sorted.len(),
    ensures
        values@ == Seq::new(cuts.len() as nat, |k: int| sorted@[cuts@[k] as int]),
{
    let mut values: Vec<i64> = Vec::new();
    let mut k: usize = 0;
    while k < cuts.len()
        invariant
            k <= cuts.len(),
            forall|j: int| 0 <= j < cuts.len() ==> #[trigger] cuts@[j] < sorted.len(),
            values@ =~= Seq::new(k as nat, |j: int| sorted@[cuts@[j] as int]),
        decreases cuts.len() - k,
    {
        values.push(sorted[cuts[k]]);
        k = k + 1;
    }
    values
}

/// Counts of the empirical copula of two score series.
///
/// Both series are cut into `num_slices` slices at the same positions of their
/// ascending arrangements (`cut_positions`, one per boundary between slices);
/// entry `[row][col]` counts the first `num` samples whose second score falls
/// into slice `row` and whose first score falls into slice `col`. Every sample
/// lands in exactly one cell, so the counts add up to `num`.
pub fn copula_counts(
    scores_1: &Vec<i64>,
    scores_2: &Vec<i64>,
    cut_positions: &Vec<usize>,
    num_slices: usize,
    num: usize,
) -> (counts: Vec<Vec<usize>>)
    requires
        scores_1.len() == scores_2.len(),
        num <= scores_1.len(),
        num_slices > 0 || num == 0,
        cut_positions.len() == if num_slices > 0 {
            num_slices - 1
        } else {
            0
        },
        forall|k: int| 0 <= k < cut_positions.len() ==> #[trigger] cut_positions@[k] < scores_1.len(),
    ensures
        counts@.len() == num_slices,
        forall|r: int| 0 <= r < num_slices ==> (#[trigger] counts@[r])@.len() == num_slices,
        forall|r: int, c: int|
            0 <= r < num_slices && 0 <= c < num_slices ==> #[trigger] counts@[r]@[c] == cell_count(
                scores_1@,
                scores_2@,
                cut_values(scores_1@, cut_positions@),
                cut_values(scores_2@, cut_positions@),
                r,
                c,
                num as int,
            ),
        grid_total(counts@) == num,
{
    let sorted_1 = sorted_copy(scores_1);
    let sorted_2 = sorted_copy(scores_2);
    let boundaries_1 = values_at(&sorted_1, cut_positions);
    let boundaries_2 = values_at(&sorted_2, cut_positions);
    let ghost bv1 = cut_values(scores_1@, cut_positions@);
    let ghost bv2 = cut_values(scores_2@, cut_positions@);
    assert(boundaries_1@ =~= bv1);
    assert(boundaries_2@ =~= bv2);
    let mut counts = zero_grid(num_slices);
    let n = num;
    let mut idx: usize = 0;
    while idx < n
        invariant
            idx <= n,
            n <= scores_1.len(),
            scores_1.len() == scores_2.len(),
            n > 0 ==> num_slices > 0,
            boundaries_1@ == bv1,
            boundaries_2@ == bv2,
            boundaries_1@.len() + 1 == num_slices || n == 0,
            boundaries_2@.len() + 1 == num_slices || n == 0,
            counts@.len() == num_slices,
            forall|r: int| 0 <= r < num_slices ==> (#[trigger] counts@[r])@.len() == num_slices,
            forall|r: int, c: int|
                0 <= r < num_slices && 0 <= c < num_slices ==> #[trigger] counts@[r]@[c]
                    == cell_count(scores_1@, scores_2@, bv1, bv2, r, c, idx as int),
            grid_total(counts@) == idx,
        decreases n - idx,
    {
        let col = slice_index(scores_1[idx], &boundaries_1);
        let row = slice_index(scores_2[idx], &boundaries_2);
        proof {
            lemma_cell_count_bound(
                scores_1@,
                scores_2@,
                bv1,
                bv2,
                row as int,
                col as int,
                idx as int,
            );
        }
        let mut new_row: Vec<usize> = Vec::new();
        let mut c: usize = 0;
        while c < num_slices
            invariant
                c <= num_slices,
                counts@.len() == num_slices,
                row < num_slices,
                col < num_slices,
                counts@[row as int]@.len() == num_slices,
                new_row@ =~= Seq::new(
                    c as nat,
                    |j: int|
                        if j == col {
                            (counts@[row as int]@[j] + 1) as usize
                        } else {
                            counts@[row as int]@[j]
                        },
                ),
                counts@[row as int]@[col as int] < n,
            decreases num_slices - c,
        {
            let v = counts[row][c];
            if c == col {
                new_row.push(v + 1);
            } else {
                new_row.push(v);
            }
            c = c + 1;
        }
        proof {
            let old_row = counts@[row as int]@;
            assert(new_row@ =~= old_row.update(col as int, (old_row[col as int] + 1) as usize));
            lemma_row_total_update(old_row, col as int, (old_row[col as int] + 1) as usize);
            lemma_grid_total_update(counts@, row as int, new_row);
        }
        counts.set(row, new_row);
        idx = idx + 1;
    }
    counts
}

/// Number of portfolios sampled when looking for a crisis.
pub const CRISIS_PORTFOLIOS: usize = 10_000;

/// Number of slices of the copula grid used when looking for a crisis.
pub const CRISIS_SLICES: usize = 100;

/// Half-width of the diagonal bands used when looking for a crisis: ten
/// percent of the slices.
pub const CRISIS_BAND_WIDTH: usize = 10;

/// `|a - b|`.
pub open spec fn distance(a: int, b: int) -> int {
    if a >= b {
        a - b
    } else {
        b - a
    }
}

/// Whether cell `(i, j)` of an `n` by `n` grid lies within `band_width` of the
/// up diagonal, the cells with `i + j == n - 1` (low return with low
/// volatility: the normal market).
pub fn in_up_band(i: usize, j: usize, n: usize, band_width: usize) -> (b: bool)
    requires
        i < n,
        j < n,
    ensures
        b == (distance(i + j, n - 1) <= band_width),
{
    let last = n - 1;
    let d = if i >= last - j {
        i - (last - j)
    } else {
        (last - j) - i
    };
    d <= band_width
}

/// Whether cell `(i, j)` lies within `band_width` of the down diagonal, the
/// cells with `i == j` (low return with high volatility: the crisis regime).
pub fn in_down_band(i: usize, j: usize, band_width: usize) -> (b: bool)
    ensures
        b == (distance(i as int, j as int) <= band_width),
{
    let d = if i >= j {
        i - j
    } else {
        j - i
    };
    d <= band_width
}

/// Swapping the two score series transposes the copula counts: the count of
/// cell `(row, col)` with the series swapped is the count of cell `(col, row)`.
pub proof fn lemma_cell_count_swap(
    scores_1: Seq<i64>,
    scores_2: Seq<i64>,
    boundaries_1: Seq<i64>,
    boundaries_2: Seq<i64>,
    row: int,
    col: int,
    n: int,
)
    ensures
        cell_count(scores_2, scores_1, boundaries_2, boundaries_1, row, col, n) == cell_count(
            scores_1,
            scores_2,
            boundaries_1,
            boundaries_2,
            col,
            row,
            n,
        ),
    decreases n,
{
    if n > 0 {
        lemma_cell_count_swap(scores_1, scores_2, boundaries_1, boundaries_2, row, col, n - 1);
    }
}

/// Swapping the two return series transposes the copula grid: cell
/// `(row, col)` of the swapped copula counts what cell `(col, row)` counts.
pub proof fn lemma_copula_transpose(
    scores_1: Seq<i64>,
    scores_2: Seq<i64>,
    cuts: Seq<usize>,
    row: int,
    col: int,
    n: int,
)
    ensures
        cell_count(
            scores_2,
            scores_1,
            cut_values(scores_2, cuts),
            cut_values(scores_1, cuts),
            row,
            col,
            n,
        ) == cell_count(
            scores_1,
            scores_2,
            cut_values(scores_1, cuts),
            cut_values(scores_2, cuts),
            col,
            row,
            n,
        ),
{
    lemma_cell_count_swap(
        scores_1,
        scores_2,
        cut_values(scores_1, cuts),
        cut_values(scores_2, cuts),
        row,
        col,
        n,
    );
}

/// `distance` is the absolute difference, and it is symmetric.
pub proof fn lemma_distance_is_absolute_difference(a: int, b: int)
    ensures
        distance(a, b) >= 0,
        a >= b ==> distance(a, b) == a - b,
        a < b ==> distance(a, b) == b - a,
        distance(a, b) == distance(b, a),
{
}

/// Cell `(i, j)` is within `band_width` of the up diagonal exactly when
/// `i + j` lies in `[n - 1 - band_width, n - 1 + band_width]`, and within
/// `band_width` of the down diagonal exactly when `j` lies in
/// `[i - band_width, i + band_width]`.
pub proof fn lemma_band_cells(i: int, j: int, n: int, band_width: int)
    ensures
        (distance(i + j, n - 1) <= band_width) <==> (n - 1 - band_width <= i + j && i + j <= n - 1
            + band_width),
        (distance(i, j) <= band_width) <==> (i - band_width <= j && j <= i + band_width),
{
}

/// Boundary `k` of the grid is the score at position `cuts[k]` of any
/// ascending arrangement of the scores.
pub proof fn lemma_cut_values_are_order_statistics(
    scores: Seq<i64>,
    cuts: Seq<usize>,
    arranged: Seq<i64>,
    k: int,
)
    requires
        forall|a: int, b: int| 0 <= a < b < arranged.len() ==> arranged[a] <= arranged[b],
        arranged.to_multiset() == scores.to_multiset(),
        0 <= k < cuts.len(),
        cuts[k] < scores.len(),
    ensures
        cut_values(scores, cuts)[k] == arranged[cuts[k] as int],
{
    lemma_key_le_total();
    scores.lemma_sort_by_ensures(key_le());
    assert(sorted_by(arranged, key_le())) by {
        assert forall|a: int, b: int| 0 <= a < b < arranged.len() implies #[trigger] key_le()(
            arranged[a],
            arranged[b],
        ) by {}
    }
    lemma_sorted_unique(arranged, sorted_keys(scores));
}

/// Ascending cut positions give ascending boundaries.
pub proof fn lemma_cut_values_ascending(scores: Seq<i64>, cuts: Seq<usize>)
    requires
        forall|a: int, b: int| 0 <= a < b < cuts.len() ==> cuts[a] <= cuts[b],
        forall|k: int| 0 <= k < cuts.len() ==> #[trigger] cuts[k] < scores.len(),
    ensures
        forall|a: int, b: int|
            0 <= a < b < cuts.len() ==> cut_values(scores, cuts)[a] <= cut_values(scores, cuts)[b],
{
    lemma_key_le_total();
    scores.lemma_sort_by_ensures(key_le());
    let t = sorted_keys(scores);
    assert(t.len() == scores.len()) by {
        assert(t.len() == t.to_multiset().len());
        assert(scores.len() == scores.to_multiset().len());
    }
    assert forall|a: int, b: int| 0 <= a < b < cuts.len() implies cut_values(scores, cuts)[a]
        <= cut_values(scores, cuts)[b] by {
        assert(cuts[a] < scores.len() && cuts[b] < scores.len());
        if cuts[a] < cuts[b] {
            assert(key_le()(t[cuts[a] as int], t[cuts[b] as int]));
        }
    }
}

/// For ascending boundaries the partition point of `score`: the number of
/// boundaries at most the score, which all come first.
proof fn lemma_partition_point(score: i64, boundaries: Seq<i64>) -> (k: int)
    requires
        forall|a: int, b: int| 0 <= a < b < boundaries.len() ==> boundaries[a] <= boundaries[b],
    ensures
        is_slice_of(score, boundaries, k),
        k == boundaries.filter(|x: i64| x <= score).len(),
    decreases boundaries.len(),
{
    reveal(Seq::filter);
    if boundaries.len() == 0 {
        0
    } else {
        let rest = boundaries.drop_last();
        let k0 = lemma_partition_point(score, rest);
        let last = boundaries.last();
        assert forall|j: int| 0 <= j < k0 implies #[trigger] boundaries[j] <= score by {
            assert(rest[j] == boundaries[j]);
        }
        if k0 < rest.len() {
            assert(rest[k0] == boundaries[k0]);
            assert(boundaries[k0] <= last);
            k0
        } else if last <= score {
            assert forall|j: int| 0 <= j < boundaries.len() implies #[trigger] boundaries[j]
                <= score by {
                if j < k0 {
                    assert(rest[j] == boundaries[j]);
                }
            }
            boundaries.len() as int
        } else {
            k0
        }
    }
}

/// For ascending boundaries, the slice of a score is the number of boundaries
/// at most the score: the boundaries before the slice are at most the score
/// and all the others lie above it. A score at or above the last boundary
/// falls into the last slice, `boundaries.len()`.
pub proof fn lemma_slice_counts_boundaries_at_most(score: i64, boundaries: Seq<i64>)
    requires
        forall|a: int, b: int| 0 <= a < b < boundaries.len() ==> boundaries[a] <= boundaries[b],
    ensures
        slice_of(score, boundaries) == boundaries.filter(|x: i64| x <= score).len(),
        0 <= slice_of(score, boundaries) <= boundaries.len(),
        forall|j: int| 0 <= j < slice_of(score, boundaries) ==> boundaries[j] <= score,
        forall|j: int| slice_of(score, boundaries) <= j < boundaries.len() ==> score < boundaries[j],
{
    let k = lemma_partition_point(score, boundaries);
    lemma_slice_unique(score, boundaries, k);
    assert forall|j: int| k <= j < boundaries.len() implies score < boundaries[j] by {
        assert(score < boundaries[k]);
        assert(boundaries[k] <= boundaries[j]);
    }
}

/// For ascending boundaries a higher score never falls into a lower slice.
pub proof fn lemma_slice_monotone(s1: i64, s2: i64, boundaries: Seq<i64>)
    requires
        forall|a: int, b: int| 0 <= a < b < boundaries.len() ==> boundaries[a] <= boundaries[b],
        s1 <= s2,
    ensures
        slice_of(s1, boundaries) <= slice_of(s2, boundaries),
{
    lemma_slice_counts_boundaries_at_most(s1, boundaries);
    lemma_slice_counts_boundaries_at_most(s2, boundaries);
    let k1 = slice_of(s1, boundaries);
    let k2 = slice_of(s2, boundaries);
    if k2 < k1 {
        assert(boundaries[k2] <= s1);
        assert(s2 < boundaries[k2]);
    }
}

} // verus!
