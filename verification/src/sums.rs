//! Finite double sums of an integer-valued term function over a rectangular
//! index grid, with the lemmas the convolution proofs rest on: exchanging
//! the summation order, and bounds on partially accumulated sums.

use vstd::prelude::*;

verus! {

/// Sum of `f(i, j)` over `j` in `[0, jn)`, for a fixed row `i`.
pub open spec fn row_sum(f: spec_fn(int, int) -> int, i: int, jn: int) -> int
    decreases jn,
{
    if jn <= 0 {
        0
    } else {
        row_sum(f, i, jn - 1) + f(i, jn - 1)
    }
}

/// Sum of `f(i, j)` over `i` in `[0, j0)` for a fixed column `j`.
pub open spec fn col_sum(f: spec_fn(int, int) -> int, j: int, im: int) -> int
    decreases im,
{
    if im <= 0 {
        0
    } else {
        col_sum(f, j, im - 1) + f(im - 1, j)
    }
}

/// Sum of `f(i, j)` over all pairs with `i` in `[0, im)` and `j` in `[0, jn)`,
/// accumulated row by row.
pub open spec fn grid_sum(f: spec_fn(int, int) -> int, im: int, jn: int) -> int
    decreases im,
{
    if im <= 0 {
        0
    } else {
        grid_sum(f, im - 1, jn) + row_sum(f, im - 1, jn)
    }
}

/// A grid with no columns sums to zero.
pub proof fn lemma_grid_sum_zero_width(f: spec_fn(int, int) -> int, im: int, jn: int)
    requires
        jn <= 0,
    ensures
        grid_sum(f, im, jn) == 0,
    decreases im,
{
    if im > 0 {
        lemma_grid_sum_zero_width(f, im - 1, jn);
    }
}

/// Splitting off the last column of a grid sum.
pub proof fn lemma_grid_sum_peel_column(f: spec_fn(int, int) -> int, im: int, jn: int)
    requires
        jn >= 1,
    ensures
        grid_sum(f, im, jn) == grid_sum(f, im, jn - 1) + col_sum(f, jn - 1, im),
    decreases im,
{
    if im > 0 {
        lemma_grid_sum_peel_column(f, im - 1, jn);
    }
}

/// A column of `f` equals a row of `g` when `g` is `f` with its arguments
/// exchanged.
pub proof fn lemma_col_sum_as_row_sum(
    f: spec_fn(int, int) -> int,
    g: spec_fn(int, int) -> int,
    j: int,
    im: int,
)
    requires
        forall|i: int| 0 <= i < im ==> #[trigger] f(i, j) == g(j, i),
    ensures
        col_sum(f, j, im) == row_sum(g, j, im),
    decreases im,
{
    if im > 0 {
        lemma_col_sum_as_row_sum(f, g, j, im - 1);
    }
}

/// Exchanging the order of summation: summing `f` row by row over an
/// `im` by `jn` grid equals summing the argument-exchanged function `g`
/// row by row over the transposed grid.
pub proof fn lemma_grid_sum_exchange(
    f: spec_fn(int, int) -> int,
    g: spec_fn(int, int) -> int,
    im: int,
    jn: int,
)
    requires
        forall|i: int, j: int| 0 <= i < im && 0 <= j < jn ==> #[trigger] f(i, j) == g(j, i),
    ensures
        grid_sum(f, im, jn) == grid_sum(g, jn, im),
    decreases jn,
{
    if jn <= 0 {
        lemma_grid_sum_zero_width(f, im, jn);
    } else {
        lemma_grid_sum_exchange(f, g, im, jn - 1);
        lemma_grid_sum_peel_column(f, im, jn);
        lemma_col_sum_as_row_sum(f, g, jn - 1, im);
        assert(grid_sum(g, jn, im) == grid_sum(g, jn - 1, im) + row_sum(g, jn - 1, im));
    }
}

/// Pointwise dominance carries over to row sums.
pub proof fn lemma_row_sum_le(
    f: spec_fn(int, int) -> int,
    g: spec_fn(int, int) -> int,
    i: int,
    jn: int,
)
    requires
        forall|j: int| 0 <= j < jn ==> #[trigger] f(i, j) <= g(i, j),
    ensures
        row_sum(f, i, jn) <= row_sum(g, i, jn),
    decreases jn,
{
    if jn > 0 {
        lemma_row_sum_le(f, g, i, jn - 1);
    }
}

/// A row sum of nonnegative terms is nonnegative.
pub proof fn lemma_row_sum_nonneg(f: spec_fn(int, int) -> int, i: int, jn: int)
    requires
        forall|j: int| 0 <= j < jn ==> #[trigger] f(i, j) >= 0,
    ensures
        row_sum(f, i, jn) >= 0,
    decreases jn,
{
    if jn > 0 {
        lemma_row_sum_nonneg(f, i, jn - 1);
    }
}

/// A row sum of nonnegative terms grows with the number of terms.
pub proof fn lemma_row_sum_prefix_le(f: spec_fn(int, int) -> int, i: int, j1: int, j2: int)
    requires
        0 <= j1 <= j2,
        forall|j: int| 0 <= j < j2 ==> #[trigger] f(i, j) >= 0,
    ensures
        row_sum(f, i, j1) <= row_sum(f, i, j2),
    decreases j2,
{
    if j1 < j2 {
        lemma_row_sum_prefix_le(f, i, j1, j2 - 1);
    }
}

/// A grid sum of nonnegative terms grows with the number of rows.
pub proof fn lemma_grid_sum_prefix_le(f: spec_fn(int, int) -> int, i1: int, i2: int, jn: int)
    requires
        0 <= i1 <= i2,
        forall|i: int, j: int| 0 <= i < i2 && 0 <= j < jn ==> #[trigger] f(i, j) >= 0,
    ensures
        grid_sum(f, i1, jn) <= grid_sum(f, i2, jn),
    decreases i2,
{
    if i1 < i2 {
        lemma_grid_sum_prefix_le(f, i1, i2 - 1, jn);
        lemma_row_sum_nonneg(f, i2 - 1, jn);
    }
}

/// For nonnegative terms, the value accumulated after finishing the first `i`
/// rows and `j` terms of the next row lies between zero and the full grid sum.
pub proof fn lemma_grid_partial_le_total(
    f: spec_fn(int, int) -> int,
    im: int,
    jn: int,
    i: int,
    j: int,
)
    requires
        0 <= i < im,
        0 <= j <= jn,
        forall|x: int, y: int| 0 <= x < im && 0 <= y < jn ==> #[trigger] f(x, y) >= 0,
    ensures
        0 <= grid_sum(f, i, jn) + row_sum(f, i, j) <= grid_sum(f, im, jn),
{
    lemma_grid_sum_prefix_le(f, 0, i, jn);
    lemma_row_sum_nonneg(f, i, j);
    lemma_row_sum_prefix_le(f, i, j, jn);
    assert(grid_sum(f, i + 1, jn) == grid_sum(f, i, jn) + row_sum(f, i, jn));
    lemma_grid_sum_prefix_le(f, i + 1, im, jn);
}

/// For nonnegative terms, a single term is bounded by the full grid sum.
pub proof fn lemma_grid_cell_le_total(
    a: spec_fn(int, int) -> int,
    im: int,
    jn: int,
    i: int,
    j: int,
)
    requires
        0 <= i < im,
        0 <= j < jn,
        forall|x: int, y: int| 0 <= x < im && 0 <= y < jn ==> #[trigger] a(x, y) >= 0,
    ensures
        0 <= a(i, j) <= grid_sum(a, im, jn),
{
    lemma_grid_partial_le_total(a, im, jn, i, j);
    lemma_grid_partial_le_total(a, im, jn, i, j + 1);
    assert(row_sum(a, i, j + 1) == row_sum(a, i, j) + a(i, j));
}

/// For a term function bounded in magnitude by `a`, every partially
/// accumulated value is bounded in magnitude by the full grid sum of `a`.
pub proof fn lemma_grid_partial_abs_bound(
    f: spec_fn(int, int) -> int,
    a: spec_fn(int, int) -> int,
    im: int,
    jn: int,
    i: int,
    j: int,
)
    requires
        0 <= i < im,
        0 <= j <= jn,
        forall|x: int, y: int|
            0 <= x < im && 0 <= y < jn ==> -a(x, y) <= #[trigger] f(x, y) <= a(x, y),
    ensures
        -grid_sum(a, im, jn) <= grid_sum(f, i, jn) + row_sum(f, i, j) <= grid_sum(a, im, jn),
{
    let neg_f = |x: int, y: int| -f(x, y);
    assert forall|x: int, y: int| 0 <= x < im && 0 <= y < jn implies #[trigger] a(x, y) >= 0 by {
        assert(-a(x, y) <= f(x, y) <= a(x, y));
    }
    lemma_row_sum_le(f, a, i, j);
    lemma_row_sum_le(neg_f, a, i, j);
    assert forall|x: int| 0 <= x <= i implies row_sum(neg_f, x, jn) == -row_sum(f, x, jn)
        && row_sum(f, x, jn) <= row_sum(a, x, jn) && row_sum(neg_f, x, jn) <= row_sum(a, x, jn) by {
        lemma_row_sum_negated(f, neg_f, x, jn);
        if x < i + 1 {
            lemma_row_sum_le(f, a, x, jn);
            lemma_row_sum_le(neg_f, a, x, jn);
        }
    }
    lemma_grid_sum_le(f, a, i, jn);
    lemma_grid_sum_le(neg_f, a, i, jn);
    lemma_grid_sum_negated(f, neg_f, i, jn);
    lemma_row_sum_negated(f, neg_f, i, j);
    lemma_grid_partial_le_total(a, im, jn, i, j);
}

/// Pointwise dominance carries over to grid sums.
pub proof fn lemma_grid_sum_le(
    f: spec_fn(int, int) -> int,
    g: spec_fn(int, int) -> int,
    im: int,
    jn: int,
)
    requires
        forall|i: int, j: int| 0 <= i < im && 0 <= j < jn ==> #[trigger] f(i, j) <= g(i, j),
    ensures
        grid_sum(f, im, jn) <= grid_sum(g, im, jn),
    decreases im,
{
    if im > 0 {
        lemma_grid_sum_le(f, g, im - 1, jn);
        lemma_row_sum_le(f, g, im - 1, jn);
    }
}

/// Negating every term negates a row sum.
pub proof fn lemma_row_sum_negated(
    f: spec_fn(int, int) -> int,
    neg_f: spec_fn(int, int) -> int,
    i: int,
    jn: int,
)
    requires
        forall|x: int, y: int| #[trigger] neg_f(x, y) == -f(x, y),
    ensures
        row_sum(neg_f, i, jn) == -row_sum(f, i, jn),
    decreases jn,
{
    if jn > 0 {
        lemma_row_sum_negated(f, neg_f, i, jn - 1);
    }
}

/// Negating every term negates a grid sum.
pub proof fn lemma_grid_sum_negated(
    f: spec_fn(int, int) -> int,
    neg_f: spec_fn(int, int) -> int,
    im: int,
    jn: int,
)
    requires
        forall|x: int, y: int| #[trigger] neg_f(x, y) == -f(x, y),
    ensures
        grid_sum(neg_f, im, jn) == -grid_sum(f, im, jn),
    decreases im,
{
    if im > 0 {
        lemma_grid_sum_negated(f, neg_f, im - 1, jn);
        lemma_row_sum_negated(f, neg_f, im - 1, jn);
    }
}

/// A row whose terms vanish everywhere but at one index sums to that term.
pub proof fn lemma_row_sum_single(f: spec_fn(int, int) -> int, i: int, jn: int, j0: int)
    requires
        0 <= j0 < jn,
        forall|j: int| 0 <= j < jn && j != j0 ==> #[trigger] f(i, j) == 0,
    ensures
        row_sum(f, i, jn) == f(i, j0),
    decreases jn,
{
    if j0 < jn - 1 {
        lemma_row_sum_single(f, i, jn - 1, j0);
    } else {
        lemma_row_sum_vanishes(f, i, jn - 1);
    }
}

/// A row of vanishing terms sums to zero.
pub proof fn lemma_row_sum_vanishes(f: spec_fn(int, int) -> int, i: int, jn: int)
    requires
        forall|j: int| 0 <= j < jn ==> #[trigger] f(i, j) == 0,
    ensures
        row_sum(f, i, jn) == 0,
    decreases jn,
{
    if jn > 0 {
        lemma_row_sum_vanishes(f, i, jn - 1);
    }
}

} // verus!
