//! Finite sums of integers, the arithmetic every score is made of.

use vstd::prelude::*;

verus! {

/// `f(0) + f(1) + .. + f(n - 1)`.
pub open spec fn sum(n: int, f: spec_fn(int) -> int) -> int
    decreases n,
{
    if n <= 0 {
        0
    } else {
        sum(n - 1, f) + f(n - 1)
    }
}

/// The terms of `f` from `a` on.
pub open spec fn shifted(f: spec_fn(int) -> int, a: int) -> spec_fn(int) -> int {
    |i: int| f(a + i)
}

/// The sums of `f` over consecutive blocks of `b` terms: the `i`-th is over
/// `i * b .. (i + 1) * b`.
pub open spec fn block_sums(b: int, f: spec_fn(int) -> int) -> spec_fn(int) -> int {
    |i: int| sum(b, shifted(f, i * b))
}

/// Sums of pointwise equal terms are equal.
pub proof fn lemma_sum_eq(n: int, f: spec_fn(int) -> int, g: spec_fn(int) -> int)
    requires
        forall|i: int| 0 <= i < n ==> #[trigger] f(i) == g(i),
    ensures
        sum(n, f) == sum(n, g),
    decreases n,
{
    if n > 0 {
        lemma_sum_eq(n - 1, f, g);
    }
}

/// A sum of sums is the sum of the two.
pub proof fn lemma_sum_add(
    n: int,
    f: spec_fn(int) -> int,
    g: spec_fn(int) -> int,
    h: spec_fn(int) -> int,
)
    requires
        forall|i: int| 0 <= i < n ==> #[trigger] h(i) == f(i) + g(i),
    ensures
        sum(n, h) == sum(n, f) + sum(n, g),
    decreases n,
{
    if n > 0 {
        lemma_sum_add(n - 1, f, g, h);
    }
}

/// A common factor comes out of a sum.
pub proof fn lemma_sum_scale(n: int, c: int, f: spec_fn(int) -> int, g: spec_fn(int) -> int)
    requires
        forall|i: int| 0 <= i < n ==> #[trigger] g(i) == c * f(i),
    ensures
        sum(n, g) == c * sum(n, f),
    decreases n,
{
    if n > 0 {
        lemma_sum_scale(n - 1, c, f, g);
        assert(c * (sum(n - 1, f) + f(n - 1)) == c * sum(n - 1, f) + c * f(n - 1))
            by (nonlinear_arith);
    } else {
        assert(c * 0 == 0) by (nonlinear_arith);
    }
}

/// A sum of `n` terms within `-m ..= m` is within `-n * m ..= n * m`.
pub proof fn lemma_sum_bound(n: int, m: int, f: spec_fn(int) -> int)
    requires
        0 <= n,
        forall|i: int| 0 <= i < n ==> -m <= #[trigger] f(i) <= m,
    ensures
        -(n * m) <= sum(n, f) <= n * m,
    decreases n,
{
    if n > 0 {
        lemma_sum_bound(n - 1, m, f);
        assert(n * m == (n - 1) * m + m) by (nonlinear_arith);
    } else {
        assert(n * m == 0) by (nonlinear_arith)
            requires
                n == 0,
        ;
    }
}

/// A sum splits at any point.
pub proof fn lemma_sum_split(a: int, n: int, f: spec_fn(int) -> int)
    requires
        0 <= a,
        0 <= n,
    ensures
        sum(a + n, f) == sum(a, f) + sum(n, shifted(f, a)),
    decreases n,
{
    if n > 0 {
        lemma_sum_split(a, n - 1, f);
        assert(shifted(f, a)(n - 1) == f(a + (n - 1)));
    }
}

/// A sum of `a * b` terms is the sum of its `a` block sums.
pub proof fn lemma_sum_blocks(a: int, b: int, f: spec_fn(int) -> int)
    requires
        0 <= a,
        0 <= b,
    ensures
        sum(a * b, f) == sum(a, block_sums(b, f)),
    decreases a,
{
    if a > 0 {
        lemma_sum_blocks(a - 1, b, f);
        assert(a * b == (a - 1) * b + b) by (nonlinear_arith);
        assert((a - 1) * b >= 0) by (nonlinear_arith)
            requires
                a > 0,
                b >= 0,
        ;
        lemma_sum_split((a - 1) * b, b, f);
        assert(block_sums(b, f)(a - 1) == sum(b, shifted(f, (a - 1) * b)));
    } else {
        assert(a * b == 0) by (nonlinear_arith)
            requires
                a == 0,
        ;
    }
}

/// The `i`-th row sum of a table with `b` columns.
pub open spec fn row_sums(b: int, t: spec_fn(int, int) -> int) -> spec_fn(int) -> int {
    |i: int| sum(b, |j: int| t(i, j))
}

/// The `j`-th column sum of a table with `a` rows.
pub open spec fn column_sums(a: int, t: spec_fn(int, int) -> int) -> spec_fn(int) -> int {
    |j: int| sum(a, |i: int| t(i, j))
}

/// A table's entries add up to the same by rows and by columns.
pub proof fn lemma_sum_swap(a: int, b: int, t: spec_fn(int, int) -> int)
    requires
        0 <= a,
        0 <= b,
    ensures
        sum(a, row_sums(b, t)) == sum(b, column_sums(a, t)),
    decreases a,
{
    if a > 0 {
        lemma_sum_swap(a - 1, b, t);
        let last = |j: int| t(a - 1, j);
        lemma_sum_add(b, column_sums(a - 1, t), last, column_sums(a, t));
        assert(row_sums(b, t)(a - 1) == sum(b, last));
    } else {
        lemma_sum_zero(b, column_sums(a, t));
    }
}

/// A sum of zeros is zero.
pub proof fn lemma_sum_zero(n: int, f: spec_fn(int) -> int)
    requires
        forall|i: int| 0 <= i < n ==> #[trigger] f(i) == 0,
    ensures
        sum(n, f) == 0,
    decreases n,
{
    if n > 0 {
        lemma_sum_zero(n - 1, f);
    }
}

/// A sum of `a * b` terms taken in transposed order: `g` lists at `j * a + i`
/// what `f` lists at `i * b + j`.
pub proof fn lemma_sum_transpose(
    a: int,
    b: int,
    f: spec_fn(int) -> int,
    g: spec_fn(int) -> int,
)
    requires
        0 <= a,
        0 <= b,
        forall|i: int, j: int|
            0 <= i < a && 0 <= j < b ==> #[trigger] shifted(f, i * b)(j) == g(j * a + i),
    ensures
        sum(a * b, f) == sum(a * b, g),
{
    let t = |i: int, j: int| f(i * b + j);
    lemma_sum_blocks(a, b, f);
    assert forall|i: int| 0 <= i < a implies #[trigger] block_sums(b, f)(i) == row_sums(b, t)(
        i,
    ) by {
        lemma_sum_eq(b, shifted(f, i * b), |j: int| t(i, j));
    }
    lemma_sum_eq(a, block_sums(b, f), row_sums(b, t));
    lemma_sum_swap(a, b, t);
    lemma_sum_blocks(b, a, g);
    assert forall|j: int| 0 <= j < b implies #[trigger] block_sums(a, g)(j) == column_sums(a, t)(
        j,
    ) by {
        let column = |i: int| t(i, j);
        assert forall|i: int| 0 <= i < a implies #[trigger] shifted(g, j * a)(i) == column(i) by {
            assert(shifted(f, i * b)(j) == g(j * a + i));
        }
        lemma_sum_eq(a, shifted(g, j * a), column);
    }
    lemma_sum_eq(b, block_sums(a, g), column_sums(a, t));
    assert(a * b == b * a) by (nonlinear_arith);
}

} // verus!
