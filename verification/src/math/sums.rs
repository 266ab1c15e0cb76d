//! Finite sums of integer functions.

use vstd::prelude::*;

verus! {

/// The sum of `f(0)` to `f(n - 1)`.
pub open spec fn sum(f: spec_fn(int) -> int, n: nat) -> int
    decreases n,
{
    if n == 0 {
        0
    } else {
        sum(f, (n - 1) as nat) + f(n - 1)
    }
}

/// The sum of `f(i, 0)` to `f(i, m - 1)`.
pub open spec fn row_sum(f: spec_fn(int, int) -> int, i: int, m: nat) -> int
    decreases m,
{
    if m == 0 {
        0
    } else {
        row_sum(f, i, (m - 1) as nat) + f(i, m - 1)
    }
}

/// The sum of `f(0, j)` to `f(n - 1, j)`.
pub open spec fn column_sum(f: spec_fn(int, int) -> int, j: int, n: nat) -> int
    decreases n,
{
    if n == 0 {
        0
    } else {
        column_sum(f, j, (n - 1) as nat) + f(n - 1, j)
    }
}

/// The sum of the first `n` rows of `m` values each.
pub open spec fn sum_by_rows(f: spec_fn(int, int) -> int, n: nat, m: nat) -> int
    decreases n,
{
    if n == 0 {
        0
    } else {
        sum_by_rows(f, (n - 1) as nat, m) + row_sum(f, n - 1, m)
    }
}

/// The sum of the first `m` columns of `n` values each.
pub open spec fn sum_by_columns(f: spec_fn(int, int) -> int, n: nat, m: nat) -> int
    decreases m,
{
    if m == 0 {
        0
    } else {
        sum_by_columns(f, n, (m - 1) as nat) + column_sum(f, m - 1, n)
    }
}

/// Values that are zero from `n1` on add nothing.
pub proof fn lemma_sum_zero_tail(f: spec_fn(int) -> int, n1: nat, n2: nat)
    requires
        n1 <= n2,
        forall|i: int| n1 <= i < n2 ==> #[trigger] f(i) == 0,
    ensures
        sum(f, n2) == sum(f, n1),
    decreases n2,
{
    if n2 > n1 {
        lemma_sum_zero_tail(f, n1, (n2 - 1) as nat);
    }
}

/// The sum of a sum of two functions is the sum of their sums: `h` is `f`
/// plus `g`.
pub proof fn lemma_sum_add(
    f: spec_fn(int) -> int,
    g: spec_fn(int) -> int,
    h: spec_fn(int) -> int,
    n: nat,
)
    requires
        forall|i: int| 0 <= i < n ==> #[trigger] h(i) == f(i) + g(i),
    ensures
        sum(h, n) == sum(f, n) + sum(g, n),
    decreases n,
{
    if n > 0 {
        lemma_sum_add(f, g, h, (n - 1) as nat);
    }
}

/// A common factor can be taken out of a sum: `h` is `c` times `f`.
pub proof fn lemma_sum_scale(c: int, f: spec_fn(int) -> int, h: spec_fn(int) -> int, n: nat)
    requires
        forall|i: int| 0 <= i < n ==> #[trigger] h(i) == c * f(i),
    ensures
        sum(h, n) == c * sum(f, n),
    decreases n,
{
    if n > 0 {
        lemma_sum_scale(c, f, h, (n - 1) as nat);
        assert(c * (sum(f, (n - 1) as nat) + f(n - 1)) == c * sum(f, (n - 1) as nat) + c * f(n - 1))
            by (nonlinear_arith);
    } else {
        assert(c * 0 == 0);
    }
}

/// A sum can be split off its first value: `g` is `f` moved down by one
/// place.
pub proof fn lemma_sum_first(f: spec_fn(int) -> int, g: spec_fn(int) -> int, n: nat)
    requires
        n > 0,
        forall|i: int| 0 <= i < n - 1 ==> #[trigger] g(i) == f(i + 1),
    ensures
        sum(f, n) == f(0) + sum(g, (n - 1) as nat),
    decreases n,
{
    if n > 1 {
        lemma_sum_first(f, g, (n - 1) as nat);
        assert(g(n - 2) == f(n - 2 + 1));
    } else {
        assert(sum(f, 0) == 0);
        assert(sum(g, 0) == 0);
    }
}

/// A sum may be taken backwards: `back` is `f` in the opposite order.
pub proof fn lemma_sum_reverse(f: spec_fn(int) -> int, back: spec_fn(int) -> int, n: nat)
    requires
        forall|i: int| 0 <= i < n ==> #[trigger] back(i) == f(n - 1 - i),
    ensures
        sum(back, n) == sum(f, n),
    decreases n,
{
    if n > 0 {
        let moved: spec_fn(int) -> int = |i: int| back(i + 1);
        lemma_sum_first(back, moved, n);
        assert forall|i: int| 0 <= i < n - 1 implies #[trigger] moved(i) == f(n - 2 - i) by {
            assert(back(i + 1) == f(n - 1 - (i + 1)));
        }
        lemma_sum_reverse(f, moved, (n - 1) as nat);
        assert(back(0) == f(n - 1 - 0));
    }
}

/// A further row adds its sum to the sum by columns.
proof fn lemma_sum_by_columns_step(f: spec_fn(int, int) -> int, n: nat, m: nat)
    requires
        n > 0,
    ensures
        sum_by_columns(f, n, m) == sum_by_columns(f, (n - 1) as nat, m) + row_sum(f, n - 1, m),
    decreases m,
{
    if m > 0 {
        lemma_sum_by_columns_step(f, n, (m - 1) as nat);
    }
}

/// A sum over a rectangle may be taken by rows or by columns.
pub proof fn lemma_sum_exchange(f: spec_fn(int, int) -> int, n: nat, m: nat)
    ensures
        sum_by_rows(f, n, m) == sum_by_columns(f, n, m),
    decreases n,
{
    if n == 0 {
        lemma_sum_by_columns_empty(f, m);
    } else {
        lemma_sum_exchange(f, (n - 1) as nat, m);
        lemma_sum_by_columns_step(f, n, m);
    }
}

/// Columns without values sum to zero.
proof fn lemma_sum_by_columns_empty(f: spec_fn(int, int) -> int, m: nat)
    ensures
        sum_by_columns(f, 0, m) == 0,
    decreases m,
{
    if m > 0 {
        lemma_sum_by_columns_empty(f, (m - 1) as nat);
    }
}

/// The sum by rows is the sum of the values `rows(i)`, where each is the
/// sum of row `i`.
pub proof fn lemma_sum_by_rows(f: spec_fn(int, int) -> int, rows: spec_fn(int) -> int, n: nat, m: nat)
    requires
        forall|i: int| 0 <= i < n ==> #[trigger] rows(i) == row_sum(f, i, m),
    ensures
        sum_by_rows(f, n, m) == sum(rows, n),
    decreases n,
{
    if n > 0 {
        lemma_sum_by_rows(f, rows, (n - 1) as nat, m);
    }
}

/// The sum by columns is the sum of the values `columns(j)`, where each is
/// the sum of column `j`.
pub proof fn lemma_sum_by_columns(
    f: spec_fn(int, int) -> int,
    columns: spec_fn(int) -> int,
    n: nat,
    m: nat,
)
    requires
        forall|j: int| 0 <= j < m ==> #[trigger] columns(j) == column_sum(f, j, n),
    ensures
        sum_by_columns(f, n, m) == sum(columns, m),
    decreases m,
{
    if m > 0 {
        lemma_sum_by_columns(f, columns, n, (m - 1) as nat);
    }
}

/// The sum of row `i` is the sum of the values `row(j)`, where each is the
/// value at `(i, j)`.
pub proof fn lemma_row_sum(f: spec_fn(int, int) -> int, row: spec_fn(int) -> int, i: int, m: nat)
    requires
        forall|j: int| 0 <= j < m ==> #[trigger] row(j) == f(i, j),
    ensures
        row_sum(f, i, m) == sum(row, m),
    decreases m,
{
    if m > 0 {
        lemma_row_sum(f, row, i, (m - 1) as nat);
    }
}

/// The sum of column `j` is the sum of the values `column(i)`, where each
/// is the value at `(i, j)`.
pub proof fn lemma_column_sum(
    f: spec_fn(int, int) -> int,
    column: spec_fn(int) -> int,
    j: int,
    n: nat,
)
    requires
        forall|i: int| 0 <= i < n ==> #[trigger] column(i) == f(i, j),
    ensures
        column_sum(f, j, n) == sum(column, n),
    decreases n,
{
    if n > 0 {
        lemma_column_sum(f, column, j, (n - 1) as nat);
    }
}

} // verus!
