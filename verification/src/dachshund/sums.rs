//! Sums over ranges of integers and over tables.

use vstd::prelude::*;

verus! {

/// The sum of `f(0)`, ..., `f(n - 1)`.
pub open spec fn sum_to(f: spec_fn(int) -> int, n: int) -> int
    decreases n,
{
    if n <= 0 {
        0
    } else {
        sum_to(f, n - 1) + f(n - 1)
    }
}

/// The sum of row `i` of the table `a` over its first `k` columns.
pub open spec fn row_sum(a: spec_fn(int, int) -> int, i: int, k: int) -> int {
    sum_to(|j: int| a(i, j), k)
}

/// The sum of column `j` of the table `a` over its first `m` rows.
pub open spec fn col_sum(a: spec_fn(int, int) -> int, j: int, m: int) -> int {
    sum_to(|i: int| a(i, j), m)
}

/// The sum of the first `m` rows and `k` columns of the table `a`, row by
/// row.
pub open spec fn rect_sum(a: spec_fn(int, int) -> int, m: int, k: int) -> int {
    sum_to(|i: int| row_sum(a, i, k), m)
}

/// Sums of functions that agree below `n` are equal.
pub proof fn lemma_sum_pointwise(f: spec_fn(int) -> int, g: spec_fn(int) -> int, n: int)
    requires
        forall|i: int| 0 <= i < n ==> #[trigger] f(i) == g(i),
    ensures
        sum_to(f, n) == sum_to(g, n),
    decreases n,
{
    if n > 0 {
        lemma_sum_pointwise(f, g, n - 1);
    }
}

/// The sum of `f + g` is the sum of `f` plus the sum of `g`.
pub proof fn lemma_sum_add(
    f: spec_fn(int) -> int,
    g: spec_fn(int) -> int,
    h: spec_fn(int) -> int,
    n: int,
)
    requires
        forall|i: int| 0 <= i < n ==> #[trigger] h(i) == f(i) + g(i),
    ensures
        sum_to(h, n) == sum_to(f, n) + sum_to(g, n),
    decreases n,
{
    if n > 0 {
        lemma_sum_add(f, g, h, n - 1);
    }
}

/// A function that is 1 at `at` and 0 elsewhere sums to 1 once `at` is
/// covered.
pub proof fn lemma_sum_indicator(f: spec_fn(int) -> int, at: int, n: int)
    requires
        0 <= at,
        forall|i: int| 0 <= i < n ==> #[trigger] f(i) == if i == at { 1int } else { 0int },
    ensures
        sum_to(f, n) == if at < n { 1int } else { 0int },
    decreases n,
{
    if n > 0 {
        lemma_sum_indicator(f, at, n - 1);
    }
}

/// Functions that differ by `c` at `at` and agree elsewhere have sums that
/// differ by `c` once `at` is covered.
pub proof fn lemma_sum_change_at(
    f: spec_fn(int) -> int,
    g: spec_fn(int) -> int,
    at: int,
    c: int,
    n: int,
)
    requires
        0 <= at,
        forall|i: int| 0 <= i < n ==> #[trigger] f(i) == g(i) + if i == at { c } else { 0int },
    ensures
        sum_to(f, n) == sum_to(g, n) + if at < n { c } else { 0int },
    decreases n,
{
    if n > 0 {
        lemma_sum_change_at(f, g, at, c, n - 1);
    }
}

/// A sum whose terms are at most those of another, and one of them less, is
/// less.
pub proof fn lemma_sum_less(f: spec_fn(int) -> int, g: spec_fn(int) -> int, at: int, n: int)
    requires
        forall|i: int| 0 <= i < n ==> #[trigger] f(i) <= g(i),
        0 <= at < n,
        f(at) < g(at),
    ensures
        sum_to(f, n) < sum_to(g, n),
    decreases n,
{
    if at < n - 1 {
        lemma_sum_less(f, g, at, n - 1);
    } else {
        lemma_sum_at_most(f, g, n - 1);
    }
}

/// A sum whose terms are at most those of another is at most the other.
pub proof fn lemma_sum_at_most(f: spec_fn(int) -> int, g: spec_fn(int) -> int, n: int)
    requires
        forall|i: int| 0 <= i < n ==> #[trigger] f(i) <= g(i),
    ensures
        sum_to(f, n) <= sum_to(g, n),
    decreases n,
{
    if n > 0 {
        lemma_sum_at_most(f, g, n - 1);
    }
}

/// A sum of `n` terms that are all `c` is `c` times `n`.
pub proof fn lemma_sum_constant(f: spec_fn(int) -> int, c: int, n: int)
    requires
        0 <= n,
        forall|i: int| 0 <= i < n ==> #[trigger] f(i) == c,
    ensures
        sum_to(f, n) == c * n,
    decreases n,
{
    if n > 0 {
        lemma_sum_constant(f, c, n - 1);
        assert(c * n == c * (n - 1) + c) by (nonlinear_arith);
    } else {
        assert(c * n == 0) by (nonlinear_arith)
            requires
                n == 0,
        ;
    }
}

/// A sum of nonnegative terms is nonnegative and grows with the bound.
pub proof fn lemma_sum_monotone(f: spec_fn(int) -> int, m: int, n: int)
    requires
        0 <= m <= n,
        forall|i: int| 0 <= i < n ==> #[trigger] f(i) >= 0,
    ensures
        0 <= sum_to(f, m) <= sum_to(f, n),
    decreases n,
{
    if m < n {
        lemma_sum_monotone(f, m, n - 1);
    } else if n > 0 {
        lemma_sum_monotone(f, m - 1, n - 1);
    }
}

/// Taking one more column adds that column's sum.
pub proof fn lemma_rect_add_column(a: spec_fn(int, int) -> int, m: int, k: int)
    requires
        0 <= k,
    ensures
        rect_sum(a, m, k + 1) == rect_sum(a, m, k) + col_sum(a, k, m),
    decreases m,
{
    if m > 0 {
        lemma_rect_add_column(a, m - 1, k);
        assert(row_sum(a, m - 1, k + 1) == row_sum(a, m - 1, k) + a(m - 1, k));
    }
}

/// In a table that is symmetric below `n`, a row and the column of the same
/// index have the same sum.
pub proof fn lemma_row_is_col(a: spec_fn(int, int) -> int, n: int, i: int, k: int)
    requires
        0 <= i < n,
        k <= n,
        forall|x: int, y: int| 0 <= x < n && 0 <= y < n ==> #[trigger] a(x, y) == a(y, x),
    ensures
        row_sum(a, i, k) == col_sum(a, i, k),
    decreases k,
{
    if k > 0 {
        lemma_row_is_col(a, n, i, k - 1);
        assert(a(i, k - 1) == a(k - 1, i));
    }
}

/// A square table that is symmetric and has an even diagonal has an even sum.
pub proof fn lemma_symmetric_sum_even(a: spec_fn(int, int) -> int, n: int, m: int)
    requires
        0 <= m <= n,
        forall|x: int, y: int| 0 <= x < n && 0 <= y < n ==> #[trigger] a(x, y) == a(y, x),
        forall|x: int| 0 <= x < n ==> (#[trigger] a(x, x)) % 2 == 0,
    ensures
        rect_sum(a, m, m) % 2 == 0,
    decreases m,
{
    if m > 0 {
        lemma_symmetric_sum_even(a, n, m - 1);
        lemma_rect_add_column(a, m - 1, m - 1);
        lemma_row_is_col(a, n, m - 1, m - 1);
        assert(row_sum(a, m - 1, m) == row_sum(a, m - 1, m - 1) + a(m - 1, m - 1));
        assert(rect_sum(a, m, m) == rect_sum(a, m - 1, m) + row_sum(a, m - 1, m));
    }
}

/// Summing a table row by row gives what summing its transpose column by
/// column gives.
pub proof fn lemma_transpose_sum(
    a: spec_fn(int, int) -> int,
    b: spec_fn(int, int) -> int,
    m: int,
    k: int,
)
    requires
        0 <= m,
        0 <= k,
        forall|x: int, y: int| 0 <= x < m && 0 <= y < k ==> #[trigger] b(x, y) == a(y, x),
    ensures
        rect_sum(b, m, k) == rect_sum(a, k, m),
    decreases m,
{
    if m > 0 {
        lemma_transpose_sum(a, b, m - 1, k);
        lemma_rect_add_column(a, k, m - 1);
        lemma_sum_pointwise(|j: int| b(m - 1, j), |i: int| a(i, m - 1), k);
    } else {
        lemma_rect_zero_columns(a, k);
    }
}

/// A table without columns sums to zero.
pub proof fn lemma_rect_zero_columns(a: spec_fn(int, int) -> int, m: int)
    ensures
        rect_sum(a, m, 0) == 0,
    decreases m,
{
    if m > 0 {
        lemma_rect_zero_columns(a, m - 1);
    }
}

/// A function that is zero below `n` sums to zero.
pub proof fn lemma_sum_zero(f: spec_fn(int) -> int, n: int)
    requires
        forall|i: int| 0 <= i < n ==> #[trigger] f(i) == 0,
    ensures
        sum_to(f, n) == 0,
    decreases n,
{
    if n > 0 {
        lemma_sum_zero(f, n - 1);
    }
}

} // verus!
