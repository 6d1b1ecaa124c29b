// Sums of an integer weight over the cells of a square grid.
use vstd::prelude::*;

verus! {

/// Sum of `f(x, y)` over the first `k` columns of row `y`.
pub open spec fn row_sum(f: spec_fn(int, int) -> int, y: int, k: nat) -> int
    decreases k,
{
    if k == 0 {
        0
    } else {
        row_sum(f, y, (k - 1) as nat) + f(k - 1, y)
    }
}

/// Sum of `f(x, y)` over the first `k` rows of a grid `n` columns wide.
pub open spec fn rows_sum(f: spec_fn(int, int) -> int, n: nat, k: nat) -> int
    decreases k,
{
    if k == 0 {
        0
    } else {
        rows_sum(f, n, (k - 1) as nat) + row_sum(f, k - 1, n)
    }
}

/// Sum of `f(x, y)` over every cell of a square grid of side `n`.
pub open spec fn grid_sum(f: spec_fn(int, int) -> int, n: nat) -> int {
    rows_sum(f, n, n)
}

proof fn lemma_row_point(f: spec_fn(int, int) -> int, g: spec_fn(int, int) -> int, y: int, k: nat, x0: int)
    requires
        forall|x: int| 0 <= x < k && x != x0 ==> #[trigger] f(x, y) == g(x, y),
    ensures
        row_sum(g, y, k) == row_sum(f, y, k) + (if 0 <= x0 < k { g(x0, y) - f(x0, y) } else { 0 }),
    decreases k,
{
    if k > 0 {
        lemma_row_point(f, g, y, (k - 1) as nat, x0);
    }
}

proof fn lemma_row_same(f: spec_fn(int, int) -> int, g: spec_fn(int, int) -> int, y: int, k: nat)
    requires
        forall|x: int| 0 <= x < k ==> #[trigger] f(x, y) == g(x, y),
    ensures
        row_sum(g, y, k) == row_sum(f, y, k),
    decreases k,
{
    if k > 0 {
        lemma_row_same(f, g, y, (k - 1) as nat);
    }
}

proof fn lemma_rows_point(
    f: spec_fn(int, int) -> int,
    g: spec_fn(int, int) -> int,
    n: nat,
    k: nat,
    x0: int,
    y0: int,
)
    requires
        0 <= x0 < n,
        forall|x: int, y: int| 0 <= x < n && 0 <= y < k && (x != x0 || y != y0) ==> #[trigger] f(x, y) == g(x, y),
    ensures
        rows_sum(g, n, k) == rows_sum(f, n, k) + (if 0 <= y0 < k { g(x0, y0) - f(x0, y0) } else { 0 }),
    decreases k,
{
    if k > 0 {
        lemma_rows_point(f, g, n, (k - 1) as nat, x0, y0);
        let y = k - 1;
        if y == y0 {
            lemma_row_point(f, g, y, n, x0);
        } else {
            lemma_row_same(f, g, y, n);
        }
    }
}

/// Changing the weight of one cell changes the sum by the difference.
pub proof fn lemma_sum_point(f: spec_fn(int, int) -> int, g: spec_fn(int, int) -> int, n: nat, x0: int, y0: int)
    requires
        0 <= x0 < n,
        0 <= y0 < n,
        forall|x: int, y: int| 0 <= x < n && 0 <= y < n && (x != x0 || y != y0) ==> #[trigger] f(x, y) == g(x, y),
    ensures
        grid_sum(g, n) == grid_sum(f, n) + g(x0, y0) - f(x0, y0),
{
    lemma_rows_point(f, g, n, n, x0, y0);
}

proof fn lemma_rows_same(f: spec_fn(int, int) -> int, g: spec_fn(int, int) -> int, n: nat, k: nat)
    requires
        forall|x: int, y: int| 0 <= x < n && 0 <= y < k ==> #[trigger] f(x, y) == g(x, y),
    ensures
        rows_sum(g, n, k) == rows_sum(f, n, k),
    decreases k,
{
    if k > 0 {
        lemma_rows_same(f, g, n, (k - 1) as nat);
        lemma_row_same(f, g, k - 1, n);
    }
}

/// Weights that agree on every cell have the same sum.
pub proof fn lemma_sum_same(f: spec_fn(int, int) -> int, g: spec_fn(int, int) -> int, n: nat)
    requires
        forall|x: int, y: int| 0 <= x < n && 0 <= y < n ==> #[trigger] f(x, y) == g(x, y),
    ensures
        grid_sum(g, n) == grid_sum(f, n),
{
    lemma_rows_same(f, g, n, n);
}

proof fn lemma_row_bounds(f: spec_fn(int, int) -> int, y: int, k: nat, lo: int, hi: int)
    requires
        forall|x: int| 0 <= x < k ==> lo <= #[trigger] f(x, y) <= hi,
    ensures
        lo * k <= row_sum(f, y, k) <= hi * k,
    decreases k,
{
    if k > 0 {
        lemma_row_bounds(f, y, (k - 1) as nat, lo, hi);
        assert(lo <= f(k - 1, y) <= hi);
        assert(row_sum(f, y, k) == row_sum(f, y, (k - 1) as nat) + f(k - 1, y));
        assert(lo * k == lo * (k - 1) + lo) by (nonlinear_arith);
        assert(hi * k == hi * (k - 1) + hi) by (nonlinear_arith);
    } else {
        assert(lo * k == 0 && hi * k == 0) by (nonlinear_arith)
            requires
                k == 0,
        ;
    }
}

proof fn lemma_rows_bounds(f: spec_fn(int, int) -> int, n: nat, k: nat, lo: int, hi: int)
    requires
        forall|x: int, y: int| 0 <= x < n && 0 <= y < k ==> lo <= #[trigger] f(x, y) <= hi,
    ensures
        lo * n * k <= rows_sum(f, n, k) <= hi * n * k,
    decreases k,
{
    if k > 0 {
        lemma_rows_bounds(f, n, (k - 1) as nat, lo, hi);
        assert forall|x: int| 0 <= x < n implies lo <= #[trigger] f(x, k - 1) <= hi by {}
        lemma_row_bounds(f, k - 1, n, lo, hi);
        assert(rows_sum(f, n, k) == rows_sum(f, n, (k - 1) as nat) + row_sum(f, k - 1, n));
        assert(lo * n * k == lo * n * (k - 1) + lo * n) by (nonlinear_arith);
        assert(hi * n * k == hi * n * (k - 1) + hi * n) by (nonlinear_arith);
    } else {
        assert(lo * n * k == 0 && hi * n * k == 0) by (nonlinear_arith)
            requires
                k == 0,
        ;
    }
}

/// Weights between `lo` and `hi` sum to between `lo * n * n` and `hi * n * n`.
pub proof fn lemma_sum_bounds(f: spec_fn(int, int) -> int, n: nat, lo: int, hi: int)
    requires
        forall|x: int, y: int| 0 <= x < n && 0 <= y < n ==> lo <= #[trigger] f(x, y) <= hi,
    ensures
        lo * n * n <= grid_sum(f, n) <= hi * n * n,
{
    lemma_rows_bounds(f, n, n, lo, hi);
}

} // verus!
