//! Finite sums over index ranges, used to reason about counts of cells.

use vstd::prelude::*;

verus! {

/// `f(0) + f(1) + ... + f(m - 1)`.
pub open spec fn sum_to(f: spec_fn(int) -> int, m: int) -> int
    decreases m,
{
    if m <= 0 {
        0
    } else {
        sum_to(f, m - 1) + f(m - 1)
    }
}

/// Sums of equal terms are equal.
pub proof fn lemma_sum_congruent(f: spec_fn(int) -> int, g: spec_fn(int) -> int, m: int)
    requires
        forall|j: int| 0 <= j < m ==> #[trigger] f(j) == g(j),
    ensures
        sum_to(f, m) == sum_to(g, m),
    decreases m,
{
    if m > 0 {
        lemma_sum_congruent(f, g, m - 1);
    }
}

/// The sum of a pointwise sum is the sum of the sums.
pub proof fn lemma_sum_add(f: spec_fn(int) -> int, g: spec_fn(int) -> int, m: int)
    ensures
        sum_to(|j: int| f(j) + g(j), m) == sum_to(f, m) + sum_to(g, m),
    decreases m,
{
    if m > 0 {
        lemma_sum_add(f, g, m - 1);
    }
}

/// Sum of row `j` of the table `f`, over columns `0..b`.
pub open spec fn row_sum(f: spec_fn(int, int) -> int, j: int, b: int) -> int {
    sum_to(|p: int| f(j, p), b)
}

/// Sum of column `p` of the table `f`, over rows `0..a`.
pub open spec fn col_sum(f: spec_fn(int, int) -> int, p: int, a: int) -> int {
    sum_to(|j: int| f(j, p), a)
}

/// Total of the table `f` over rows `0..a` and columns `0..b`, row by row.
pub open spec fn total_by_rows(f: spec_fn(int, int) -> int, a: int, b: int) -> int
    decreases a,
{
    if a <= 0 {
        0
    } else {
        total_by_rows(f, a - 1, b) + row_sum(f, a - 1, b)
    }
}

/// Total of the table `f` over rows `0..a` and columns `0..b`, column by
/// column.
pub open spec fn total_by_cols(f: spec_fn(int, int) -> int, a: int, b: int) -> int
    decreases b,
{
    if b <= 0 {
        0
    } else {
        total_by_cols(f, a, b - 1) + col_sum(f, b - 1, a)
    }
}

proof fn lemma_cols_add_row(f: spec_fn(int, int) -> int, a: int, b: int)
    requires
        a > 0,
    ensures
        total_by_cols(f, a, b) == total_by_cols(f, a - 1, b) + row_sum(f, a - 1, b),
    decreases b,
{
    if b > 0 {
        lemma_cols_add_row(f, a, b - 1);
    }
}

/// Summing a table by rows or by columns gives the same total.
pub proof fn lemma_sum_swap(f: spec_fn(int, int) -> int, a: int, b: int)
    ensures
        total_by_rows(f, a, b) == total_by_cols(f, a, b),
    decreases a,
{
    if a > 0 {
        lemma_sum_swap(f, a - 1, b);
        lemma_cols_add_row(f, a, b);
    } else {
        lemma_cols_zero(f, a, b);
    }
}

proof fn lemma_cols_zero(f: spec_fn(int, int) -> int, a: int, b: int)
    requires
        a <= 0,
    ensures
        total_by_cols(f, a, b) == 0,
    decreases b,
{
    if b > 0 {
        lemma_cols_zero(f, a, b - 1);
    }
}

/// A sum of zeros is zero.
pub proof fn lemma_sum_zero(f: spec_fn(int) -> int, m: int)
    requires
        forall|j: int| 0 <= j < m ==> #[trigger] f(j) == 0,
    ensures
        sum_to(f, m) == 0,
    decreases m,
{
    if m > 0 {
        lemma_sum_zero(f, m - 1);
    }
}

/// A sum whose only non-zero term is `f(k)` equals `f(k)`.
pub proof fn lemma_sum_single(f: spec_fn(int) -> int, m: int, k: int)
    requires
        0 <= k < m,
        forall|j: int| 0 <= j < m && j != k ==> #[trigger] f(j) == 0,
    ensures
        sum_to(f, m) == f(k),
    decreases m,
{
    if k < m - 1 {
        lemma_sum_single(f, m - 1, k);
    } else {
        lemma_sum_zero(f, m - 1);
    }
}

/// Sums of terms that are pointwise no larger are no larger, and smaller when
/// one term is smaller.
pub proof fn lemma_sum_le(f: spec_fn(int) -> int, g: spec_fn(int) -> int, m: int, k: int)
    requires
        forall|j: int| 0 <= j < m ==> #[trigger] f(j) <= g(j),
    ensures
        sum_to(f, m) <= sum_to(g, m),
        0 <= k < m && f(k) < g(k) ==> sum_to(f, m) < sum_to(g, m),
    decreases m,
{
    if m > 0 {
        lemma_sum_le(f, g, m - 1, k);
    }
}

} // verus!
