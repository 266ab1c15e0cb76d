//! Products of polynomials as sums, and the inverse of a polynomial as a
//! power series by Newton's iteration.

use vstd::prelude::*;
use crate::math::sums::lemma_column_sum;
use crate::math::sums::lemma_row_sum;
use crate::math::sums::lemma_sum_add;
use crate::math::sums::lemma_sum_by_columns;
use crate::math::sums::lemma_sum_by_rows;
use crate::math::sums::lemma_sum_exchange;
use crate::math::sums::lemma_sum_reverse;
use crate::math::sums::lemma_sum_scale;
use crate::math::sums::lemma_sum_zero_tail;
use crate::math::sums::column_sum;
use crate::math::sums::row_sum;
use crate::math::sums::sum;
use crate::poly::newton_error;
use crate::poly::newton_iter;
use crate::poly::newton_seed;
use crate::poly::lemma_newton_iter_len;
use crate::poly::newton_step;
use crate::poly::ring::conv;
use crate::poly::ring::conv_sum;
use crate::poly::ring::conv_term;
use crate::poly::ring::product;
use crate::poly::ring::ring_coeff;

verus! {

/// Coefficient `i` of `s`, zero beyond its ends.
pub open spec fn at(s: Seq<int>, i: int) -> int {
    if 0 <= i < s.len() {
        s[i]
    } else {
        0
    }
}

/// Coefficient `k` of the polynomial 1.
pub open spec fn unit(k: int) -> int {
    if k == 0 {
        1
    } else {
        0
    }
}

/// The product of `a` and `u` agrees with 1 in its first `m` coefficients.
pub open spec fn inverse_to_order(a: Seq<int>, u: Seq<int>, m: int) -> bool {
    forall|i: int| 0 <= i < m ==> #[trigger] conv(a, u, i) == unit(i)
}

/// `inv` is the inverse of `a` as a power series, to the coefficients that
/// `a` has: their product is 1 up to there.
pub open spec fn is_series_inverse(a: Seq<int>, inv: Seq<int>) -> bool {
    inverse_to_order(a, inv, a.len() as int)
}

/// Term `j` of coefficient `k` of the product of `a` and `b`.
pub open spec fn term(a: Seq<int>, b: Seq<int>, k: int) -> spec_fn(int) -> int {
    |j: int| at(a, j) * at(b, k - j)
}

/// The sum that defines a coefficient of a product is a sum of terms.
proof fn lemma_conv_sum_is_sum(a: Seq<int>, b: Seq<int>, k: int, n: nat)
    ensures
        conv_sum(a, b, k, n) == sum(term(a, b, k), n),
    decreases n,
{
    if n > 0 {
        lemma_conv_sum_is_sum(a, b, k, (n - 1) as nat);
        let j: int = n - 1;
        assert(term(a, b, k)(j) == at(a, j) * at(b, k - j));
        assert(conv_term(a, b, k, j) == at(a, j) * at(b, k - j)) by (nonlinear_arith)
            requires
                conv_term(a, b, k, j) == (if at(a, j) == 0 || at(b, k - j) == 0 {
                    0
                } else {
                    at(a, j) * at(b, k - j)
                }),
        ;
    }
}

/// Coefficient `k` of a product is the sum of its terms over any `count` of
/// places above `k`.
pub proof fn lemma_conv_is_sum(a: Seq<int>, b: Seq<int>, k: int, count: nat)
    requires
        0 <= k < count,
    ensures
        conv(a, b, k) == sum(term(a, b, k), count),
{
    let f: spec_fn(int) -> int = term(a, b, k);
    lemma_conv_sum_is_sum(a, b, k, a.len());
    assert forall|j: int| j >= a.len() || j > k implies #[trigger] f(j) == 0 by {
        assert(at(a, j) == 0 || at(b, k - j) == 0);
        assert(at(a, j) * at(b, k - j) == 0) by (nonlinear_arith)
            requires
                at(a, j) == 0 || at(b, k - j) == 0,
        ;
    }
    if a.len() <= count {
        lemma_sum_zero_tail(f, a.len(), count);
    } else {
        lemma_sum_zero_tail(f, count, a.len());
    }
}

/// The product of polynomials does not depend on their order.
pub proof fn lemma_conv_commutes(a: Seq<int>, b: Seq<int>, k: int)
    requires
        0 <= k,
    ensures
        conv(a, b, k) == conv(b, a, k),
{
    let count: nat = (k + 1) as nat;
    let f: spec_fn(int) -> int = term(a, b, k);
    let back: spec_fn(int) -> int = term(b, a, k);
    lemma_conv_is_sum(a, b, k, count);
    lemma_conv_is_sum(b, a, k, count);
    assert forall|i: int| 0 <= i < count implies #[trigger] back(i) == f(count - 1 - i) by {
        assert(at(b, i) * at(a, k - i) == at(a, k - i) * at(b, k - (k - i))) by (nonlinear_arith);
    }
    lemma_sum_reverse(f, back, count);
}

/// The product in the ring does not depend on the order of its operands.
pub proof fn lemma_ring_coeff_commutes(a: Seq<int>, b: Seq<int>, k: int)
    requires
        a.len() == b.len(),
        0 <= k,
    ensures
        ring_coeff(a, b, k) == ring_coeff(b, a, k),
{
    let n: int = a.len() as int;
    lemma_conv_commutes(a, b, k);
    lemma_conv_commutes(a, b, k + n);
    if k >= 1 {
        lemma_conv_commutes(a, b, k + n - 1);
    }
}

/// The value at `(j, i)` of the terms of coefficient `k` of a product of
/// three polynomials.
pub open spec fn triple_term(a: Seq<int>, u: Seq<int>, e: Seq<int>, k: int) -> spec_fn(
    int,
    int,
) -> int {
    |j: int, i: int| at(a, j) * (at(e, i) * at(u, k - j - i))
}

/// Term `j` of coefficient `k` of the product of `a` with the product of
/// `u` and `e`.
pub open spec fn outer_term(a: Seq<int>, u: Seq<int>, e: Seq<int>, k: int) -> spec_fn(int) -> int {
    |j: int| at(a, j) * conv(u, e, k - j)
}

/// A product of three polynomials may be taken in either grouping: the
/// terms of `a * (u * e)` and those of `e * (a * u)` have the same sum.
pub proof fn lemma_conv_regroups(a: Seq<int>, u: Seq<int>, e: Seq<int>, k: int)
    requires
        0 <= k,
    ensures
        sum(outer_term(a, u, e, k), (k + 1) as nat) == sum(outer_term(e, a, u, k), (k + 1) as nat),
{
    let count: nat = (k + 1) as nat;
    let g: spec_fn(int, int) -> int = triple_term(a, u, e, k);
    let rows: spec_fn(int) -> int = outer_term(a, u, e, k);
    let columns: spec_fn(int) -> int = outer_term(e, a, u, k);
    assert forall|j: int| 0 <= j < count implies #[trigger] rows(j) == row_sum(g, j, count) by {
        let inner: spec_fn(int) -> int = term(e, u, k - j);
        let row: spec_fn(int) -> int = |i: int| g(j, i);
        lemma_conv_commutes(u, e, k - j);
        lemma_conv_is_sum(e, u, k - j, count);
        assert forall|i: int| 0 <= i < count implies #[trigger] row(i) == at(a, j) * inner(i) by {
            assert(k - j - i == (k - j) - i);
        }
        lemma_sum_scale(at(a, j), inner, row, count);
        lemma_row_sum(g, row, j, count);
    }
    assert forall|i: int| 0 <= i < count implies #[trigger] columns(i) == column_sum(
        g,
        i,
        count,
    ) by {
        let inner: spec_fn(int) -> int = term(a, u, k - i);
        let column: spec_fn(int) -> int = |j: int| g(j, i);
        lemma_conv_is_sum(a, u, k - i, count);
        assert forall|j: int| 0 <= j < count implies #[trigger] column(j) == at(e, i) * inner(
            j,
        ) by {
            assert(k - j - i == (k - i) - j);
            assert(at(a, j) * (at(e, i) * at(u, k - j - i)) == at(e, i) * (at(a, j) * at(
                u,
                k - j - i,
            ))) by (nonlinear_arith);
        }
        lemma_sum_scale(at(e, i), inner, column, count);
        lemma_column_sum(g, column, i, count);
    }
    lemma_sum_by_rows(g, rows, count, count);
    lemma_sum_by_columns(g, columns, count, count);
    lemma_sum_exchange(g, count, count);
}

/// One round of Newton's iteration doubles the number of coefficients in
/// which the product with `a` agrees with 1, as far as `a` reaches.
pub proof fn lemma_newton_step(a: Seq<int>, u: Seq<int>, m: int, k: int)
    requires
        a.len() == u.len(),
        1 <= m <= a.len(),
        inverse_to_order(a, u, m),
        0 <= k < 2 * m,
        k < a.len(),
    ensures
        conv(a, newton_step(a, u), k) == unit(k),
{
    let n: int = a.len() as int;
    let count: nat = (k + 1) as nat;
    let e: Seq<int> = newton_error(a, u);
    let next: Seq<int> = newton_step(a, u);
    assert(product(a, u).len() == 2 * n - 1);
    assert(e.len() == 2 * n - 1);
    assert(product(u, e).len() == 3 * n - 2);
    assert forall|i: int| 0 <= i < count implies at(e, i) == conv(a, u, i) - unit(i) by {
        assert(e[i] == if i < 1 {
            product(a, u)[i] - seq![1int][i]
        } else {
            product(a, u)[i]
        });
    }
    assert forall|t: int| 0 <= t < count implies at(next, t) == at(u, t) - conv(u, e, t) by {
        assert(next[t] == u[t] - product(u, e)[t]);
    }
    let with_next: spec_fn(int) -> int = term(a, next, k);
    let with_old: spec_fn(int) -> int = term(a, u, k);
    let correction: spec_fn(int) -> int = outer_term(a, u, e, k);
    assert forall|j: int| 0 <= j < count implies #[trigger] with_old(j) == with_next(j)
        + correction(j) by {
        assert(at(a, j) * at(u, k - j) == at(a, j) * (at(u, k - j) - conv(u, e, k - j)) + at(a, j)
            * conv(u, e, k - j)) by (nonlinear_arith);
    }
    lemma_sum_add(with_next, correction, with_old, count);
    lemma_conv_is_sum(a, next, k, count);
    lemma_conv_is_sum(a, u, k, count);
    lemma_conv_regroups(a, u, e, k);
    let regrouped: spec_fn(int) -> int = outer_term(e, a, u, k);
    assert forall|i: int| 0 <= i < k implies #[trigger] regrouped(i) == 0 by {
        assert(at(e, i) == conv(a, u, i) - unit(i));
        assert(at(e, k - i) == conv(a, u, k - i) - unit(k - i));
        if i < m {
            assert(conv(a, u, i) == unit(i));
        } else {
            assert(conv(a, u, k - i) == unit(k - i));
        }
        assert(at(e, i) * conv(a, u, k - i) == 0) by (nonlinear_arith)
            requires
                at(e, i) == 0 || conv(a, u, k - i) == 0,
        ;
    }
    assert(regrouped(k) == at(e, k)) by {
        assert(conv(a, u, 0) == unit(0));
        assert(at(e, k) * 1 == at(e, k));
    }
    lemma_sum_zero_tail(regrouped, 0, k as nat);
    assert(sum(regrouped, 0) == 0);
    assert(sum(regrouped, count) == sum(regrouped, k as nat) + regrouped(k));
}

/// After `r` rounds of Newton's iteration the product with `a` agrees with 1
/// in `r + 1` coefficients, as far as `a` reaches, when the lowest
/// coefficient of `a` is 1 or -1.
pub proof fn lemma_newton_iter(a: Seq<int>, r: nat)
    requires
        a.len() >= 1,
        a[0] == 1 || a[0] == -1,
    ensures
        inverse_to_order(
            a,
            newton_iter(a, r),
            if r + 1 <= a.len() {
                (r + 1) as int
            } else {
                a.len() as int
            },
        ),
    decreases r,
{
    if r == 0 {
        let seed: Seq<int> = newton_seed(a);
        lemma_conv_is_sum(a, seed, 0, 1);
        let f: spec_fn(int) -> int = term(a, seed, 0);
        assert(sum(f, 1) == sum(f, 0) + f(0));
        assert(sum(f, 0) == 0);
        assert(f(0) == a[0] * seed[0]);
        assert(a[0] * a[0] == 1) by (nonlinear_arith)
            requires
                a[0] == 1 || a[0] == -1,
        ;
    } else {
        let before: Seq<int> = newton_iter(a, (r - 1) as nat);
        let m: int = if r <= a.len() {
            r as int
        } else {
            a.len() as int
        };
        lemma_newton_iter(a, (r - 1) as nat);
        lemma_newton_iter_len(a, (r - 1) as nat);
        assert forall|k: int| 0 <= k < r + 1 && k < a.len() implies #[trigger] conv(
            a,
            newton_iter(a, r),
            k,
        ) == unit(k) by {
            lemma_newton_step(a, before, m, k);
        }
    }
}

/// Newton's iteration gives the inverse as a power series after as many
/// rounds as the polynomial has coefficients, when the lowest coefficient
/// is 1 or -1.
pub proof fn lemma_newton_inverse(a: Seq<int>)
    requires
        a.len() >= 1,
        a[0] == 1 || a[0] == -1,
    ensures
        is_series_inverse(a, newton_iter(a, a.len())),
{
    lemma_newton_iter(a, a.len());
}

} // verus!
