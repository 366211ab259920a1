use vstd::prelude::*;

verus! {

/// The integer coefficients of a polytope `A x <= b`: row `r` of `a` and entry
/// `r` of `b` form constraint `r`.
pub struct ConstraintTable {
    pub a: Vec<Vec<i8>>,
    pub b: Vec<i8>,
}

/// Coefficient `(row, col)` of the unit hypercube `[-1, 1]^n`: rows `0..n`
/// bound `x[row] <= 1`, rows `n..2n` bound `-x[row - n] <= 1`.
pub open spec fn hypercube_coefficient(n: int, row: int, col: int) -> int {
    if row < n {
        if col == row {
            1
        } else {
            0
        }
    } else {
        if col == row - n {
            -1
        } else {
            0
        }
    }
}

/// Coefficient `(row, col)` of the standard simplex: rows `0..n` bound
/// `-x[row] <= 0`, row `n` bounds the sum of all coordinates by 1.
pub open spec fn simplex_coefficient(n: int, row: int, col: int) -> int {
    if row < n {
        if col == row {
            -1
        } else {
            0
        }
    } else {
        1
    }
}

/// Right-hand side of constraint `row` of the standard simplex.
pub open spec fn simplex_bound(n: int, row: int) -> int {
    if row < n {
        0
    } else {
        1
    }
}

/// All coefficients of the unit hypercube in `n` dimensions.
pub open spec fn hypercube_coefficients(n: int) -> spec_fn(int, int) -> int {
    |r: int, c: int| hypercube_coefficient(n, r, c)
}

/// All right-hand sides of the unit hypercube: every one is 1.
pub open spec fn hypercube_bounds() -> spec_fn(int) -> int {
    |r: int| 1int
}

/// All coefficients of the standard simplex in `n` dimensions.
pub open spec fn simplex_coefficients(n: int) -> spec_fn(int, int) -> int {
    |r: int, c: int| simplex_coefficient(n, r, c)
}

/// All right-hand sides of the standard simplex in `n` dimensions.
pub open spec fn simplex_bounds(n: int) -> spec_fn(int) -> int {
    |r: int| simplex_bound(n, r)
}

/// Whether `table` holds exactly the coefficients `coefficient` and bounds
/// `bound` of `rows` constraints in `n` dimensions.
pub open spec fn table_matches(
    table: ConstraintTable,
    rows: int,
    n: int,
    coefficient: spec_fn(int, int) -> int,
    bound: spec_fn(int) -> int,
) -> bool {
    &&& table.a@.len() == rows
    &&& table.b@.len() == rows
    &&& forall|r: int| 0 <= r < rows ==> (#[trigger] table.a@[r])@.len() == n
    &&& forall|r: int, c: int|
        0 <= r < rows && 0 <= c < n ==> #[trigger] table.a@[r]@[c] == coefficient(r, c)
    &&& forall|r: int| 0 <= r < rows ==> #[trigger] table.b@[r] == bound(r)
}

/// The constraints of the unit hypercube `[-1, 1]^n`: `x[i] <= 1` and
/// `-x[i] <= 1` for every coordinate.
pub fn hypercube_constraints(n: usize) -> (table: ConstraintTable)
    requires
        n <= usize::MAX / 2,
    ensures
        table_matches(
            table,
            2 * n,
            n as int,
            hypercube_coefficients(n as int),
            hypercube_bounds(),
        ),
{
    let rows = 2 * n;
    let mut a: Vec<Vec<i8>> = Vec::new();
    let mut b: Vec<i8> = Vec::new();
    let mut r: usize = 0;
    while r < rows
        invariant
            rows == 2 * n,
            r <= rows,
            a@.len() == r,
            b@.len() == r,
            forall|i: int| 0 <= i < r ==> (#[trigger] a@[i])@.len() == n,
            forall|i: int, c: int|
                0 <= i < r && 0 <= c < n ==> #[trigger] a@[i]@[c] == hypercube_coefficient(
                    n as int,
                    i,
                    c,
                ),
            forall|i: int| 0 <= i < r ==> #[trigger] b@[i] == 1,
        decreases rows - r,
    {
        let mut row: Vec<i8> = Vec::new();
        let mut c: usize = 0;
        while c < n
            invariant
                c <= n,
                r < rows,
                rows == 2 * n,
                row@.len() == c,
                forall|j: int| 0 <= j < c ==> #[trigger] row@[j] == hypercube_coefficient(
                    n as int,
                    r as int,
                    j,
                ),
            decreases n - c,
        {
            let v: i8 = if r < n {
                if c == r {
                    1
                } else {
                    0
                }
            } else {
                if c == r - n {
                    -1
                } else {
                    0
                }
            };
            row.push(v);
            c = c + 1;
        }
        a.push(row);
        b.push(1);
        r = r + 1;
    }
    ConstraintTable { a, b }
}

/// The constraints of the standard simplex: `x[i] >= 0` for every coordinate
/// and `x[0] + ... + x[n - 1] <= 1`.
pub fn simplex_constraints(n: usize) -> (table: ConstraintTable)
    requires
        n < usize::MAX,
    ensures
        table_matches(
            table,
            n + 1,
            n as int,
            simplex_coefficients(n as int),
            simplex_bounds(n as int),
        ),
{
    let rows = n + 1;
    let mut a: Vec<Vec<i8>> = Vec::new();
    let mut b: Vec<i8> = Vec::new();
    let mut r: usize = 0;
    while r < rows
        invariant
            rows == n + 1,
            r <= rows,
            a@.len() == r,
            b@.len() == r,
            forall|i: int| 0 <= i < r ==> (#[trigger] a@[i])@.len() == n,
            forall|i: int, c: int|
                0 <= i < r && 0 <= c < n ==> #[trigger] a@[i]@[c] == simplex_coefficient(
                    n as int,
                    i,
                    c,
                ),
            forall|i: int| 0 <= i < r ==> #[trigger] b@[i] == simplex_bound(n as int, i),
        decreases rows - r,
    {
        let mut row: Vec<i8> = Vec::new();
        let mut c: usize = 0;
        while c < n
            invariant
                c <= n,
                r < rows,
                rows == n + 1,
                row@.len() == c,
                forall|j: int| 0 <= j < c ==> #[trigger] row@[j] == simplex_coefficient(
                    n as int,
                    r as int,
                    j,
                ),
            decreases n - c,
        {
            let v: i8 = if r < n {
                if c == r {
                    -1
                } else {
                    0
                }
            } else {
                1
            };
            row.push(v);
            c = c + 1;
        }
        a.push(row);
        b.push(if r < n {
            0
        } else {
            1
        });
        r = r + 1;
    }
    ConstraintTable { a, b }
}

/// `coefficient(row, 0) * p[0] + ... + coefficient(row, k - 1) * p[k - 1]`.
pub open spec fn row_value(coefficient: spec_fn(int, int) -> int, row: int, p: Seq<int>, k: int) -> int
    decreases k,
{
    if k <= 0 {
        0
    } else {
        row_value(coefficient, row, p, k - 1) + coefficient(row, k - 1) * p[k - 1]
    }
}

/// `p[0] + ... + p[k - 1]`.
pub open spec fn coordinate_sum(p: Seq<int>, k: int) -> int
    decreases k,
{
    if k <= 0 {
        0
    } else {
        coordinate_sum(p, k - 1) + p[k - 1]
    }
}

/// The rational point `p / q` (with `q > 0`) satisfies all `rows` constraints
/// in `n` dimensions: `row_value <= q * bound` for every row.
pub open spec fn satisfies_scaled(
    coefficient: spec_fn(int, int) -> int,
    bound: spec_fn(int) -> int,
    rows: int,
    n: int,
    p: Seq<int>,
    q: int,
) -> bool {
    forall|r: int| 0 <= r < rows ==> #[trigger] row_value(coefficient, r, p, n) <= q * bound(r)
}

proof fn lemma_hypercube_row_value(n: int, r: int, p: Seq<int>, k: int)
    requires
        0 <= r < 2 * n,
        0 <= k <= n,
    ensures
        row_value(hypercube_coefficients(n), r, p, k) == if r < n {
            if r < k {
                p[r]
            } else {
                0
            }
        } else {
            if r - n < k {
                -p[r - n]
            } else {
                0
            }
        },
    decreases k,
{
    if k > 0 {
        lemma_hypercube_row_value(n, r, p, k - 1);
    }
}

proof fn lemma_simplex_row_value(n: int, r: int, p: Seq<int>, k: int)
    requires
        0 <= r <= n,
        0 <= k <= n,
    ensures
        row_value(simplex_coefficients(n), r, p, k) == if r < n {
            if r < k {
                -p[r]
            } else {
                0
            }
        } else {
            coordinate_sum(p, k)
        },
    decreases k,
{
    if k > 0 {
        lemma_simplex_row_value(n, r, p, k - 1);
    }
}

/// The hypercube constraints describe `[-1, 1]^n`: a rational point `p / q`
/// satisfies them exactly when every coordinate lies in `[-1, 1]`.
pub proof fn lemma_hypercube_is_unit_cube(n: nat, p: Seq<int>, q: int)
    requires
        q > 0,
        p.len() == n,
    ensures
        satisfies_scaled(hypercube_coefficients(n as int), hypercube_bounds(), 2 * (n as int), n as int, p, q)
            <==> (forall|i: int| 0 <= i < n ==> -q <= #[trigger] p[i] <= q),
{
    let ni = n as int;
    assert forall|r: int| 0 <= r < 2 * ni implies #[trigger] row_value(
        hypercube_coefficients(ni),
        r,
        p,
        ni,
    ) == if r < ni {
        p[r]
    } else {
        -p[r - ni]
    } by {
        lemma_hypercube_row_value(ni, r, p, ni);
    }
    if satisfies_scaled(hypercube_coefficients(ni), hypercube_bounds(), 2 * ni, ni, p, q) {
        assert forall|i: int| 0 <= i < n implies -q <= #[trigger] p[i] <= q by {
            assert(row_value(hypercube_coefficients(ni), i, p, ni) <= q * 1);
            assert(row_value(hypercube_coefficients(ni), i + ni, p, ni) <= q * 1);
        }
    }
}

/// The simplex constraints describe the standard simplex: a rational point
/// `p / q` satisfies them exactly when no coordinate is negative and the
/// coordinates add up to at most 1.
pub proof fn lemma_simplex_is_standard_simplex(n: nat, p: Seq<int>, q: int)
    requires
        q > 0,
        p.len() == n,
    ensures
        satisfies_scaled(simplex_coefficients(n as int), simplex_bounds(n as int), n + 1int, n as int, p, q)
            <==> ((forall|i: int| 0 <= i < n ==> #[trigger] p[i] >= 0) && coordinate_sum(p, n as int)
            <= q),
{
    let ni = n as int;
    assert forall|r: int| 0 <= r <= ni implies #[trigger] row_value(
        simplex_coefficients(ni),
        r,
        p,
        ni,
    ) == if r < ni {
        -p[r]
    } else {
        coordinate_sum(p, ni)
    } by {
        lemma_simplex_row_value(ni, r, p, ni);
    }
    if satisfies_scaled(simplex_coefficients(ni), simplex_bounds(ni), ni + 1, ni, p, q) {
        assert forall|i: int| 0 <= i < n implies #[trigger] p[i] >= 0 by {
            assert(row_value(simplex_coefficients(ni), i, p, ni) <= q * simplex_bound(ni, i));
        }
        assert(row_value(simplex_coefficients(ni), ni, p, ni) <= q * simplex_bound(ni, ni));
    }
    if (forall|i: int| 0 <= i < n ==> #[trigger] p[i] >= 0) && coordinate_sum(p, ni) <= q {
        assert forall|r: int| 0 <= r < ni + 1 implies #[trigger] row_value(
            simplex_coefficients(ni),
            r,
            p,
            ni,
        ) <= q * simplex_bounds(ni)(r) by {
            if r < ni {
                assert(p[r] >= 0);
            }
        }
    }
}

} // verus!
