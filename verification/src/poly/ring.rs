//! The product of polynomials over the integers and its reduction modulo
//! `x^n - x - 1`, as functions on coefficient sequences, and the routine
//! that computes the reduced product for every ring of the library.

use vstd::prelude::*;
use crate::math::modular::centered_residue;
use crate::math::modular::is_centered;
use crate::math::modular::lemma_centered_pair;
use crate::math::modular::lemma_centered_residue;
use crate::math::modular::lemma_centered_residue_is;
use crate::math::modular::lemma_centered_sum;
use crate::math::modular::lemma_congruent_refl;
use crate::poly::traits::ints;
use crate::poly::traits::Coeff;

verus! {

/// The term `a[j] * b[i - j]` of coefficient `i` of the product, zero where
/// an index falls outside its sequence.
pub open spec fn conv_term(a: Seq<int>, b: Seq<int>, i: int, j: int) -> int {
    if 0 <= j < a.len() && 0 <= i - j < b.len() {
        a[j] * b[i - j]
    } else {
        0
    }
}

/// The sum of the terms of coefficient `i` with `j < n`.
pub open spec fn conv_sum(a: Seq<int>, b: Seq<int>, i: int, n: nat) -> int
    decreases n,
{
    if n == 0 {
        0
    } else {
        conv_sum(a, b, i, (n - 1) as nat) + conv_term(a, b, i, n - 1)
    }
}

/// Coefficient `i` of the product of `a` and `b` over the integers.
pub open spec fn conv(a: Seq<int>, b: Seq<int>, i: int) -> int {
    conv_sum(a, b, i, a.len())
}

/// The product of `a` and `b` over the integers: `a.len() + b.len() - 1`
/// coefficients.
pub open spec fn product(a: Seq<int>, b: Seq<int>) -> Seq<int> {
    Seq::new((a.len() + b.len() - 1) as nat, |i: int| conv(a, b, i))
}

/// Coefficient `k` of the product of two polynomials of `n = a.len()`
/// coefficients after the coefficients at `lo` and above were folded down by
/// `x^n = x + 1`: coefficient `n + k` goes to `k` and to `k + 1`.
pub open spec fn ring_partial(a: Seq<int>, b: Seq<int>, k: int, lo: int) -> int {
    let n: int = a.len() as int;
    conv(a, b, k) + (if lo <= k + n && k + n <= 2 * n - 2 {
        conv(a, b, k + n)
    } else {
        0
    }) + (if k >= 1 && lo <= k + n - 1 {
        conv(a, b, k + n - 1)
    } else {
        0
    })
}

/// Coefficient `k` of the product of `a` and `b` in `Z[x]/(x^n - x - 1)`,
/// `n = a.len() = b.len()`.
pub open spec fn ring_coeff(a: Seq<int>, b: Seq<int>, k: int) -> int {
    ring_partial(a, b, k, a.len() as int)
}

/// The product of `a` and `b` in `Z[x]/(x^n - x - 1)`.
pub open spec fn ring_product(a: Seq<int>, b: Seq<int>) -> Seq<int> {
    Seq::new(a.len(), |k: int| ring_coeff(a, b, k))
}

/// The multiplicative identity of the ring: `(1, 0, ..., 0)`.
pub open spec fn ring_one(n: nat) -> Seq<int> {
    Seq::new(
        n,
        |k: int|
            if k == 0 {
                1int
            } else {
                0int
            },
    )
}

/// The product of `a` and `b` in `Z_m[x]/(x^n - x - 1)`, with centered
/// coefficients.
pub open spec fn ring_product_centered(a: Seq<int>, b: Seq<int>, m: int) -> Seq<int> {
    Seq::new(a.len(), |k: int| centered_residue(ring_coeff(a, b, k), m))
}

/// The product of `a` and `b` in the ring of polynomials modulo
/// `x^n - x - 1` with coefficients modulo `m`. The arithmetic of the
/// coefficients is that of `step`, which gives `r + f * g` reduced to its
/// centered residue: each coefficient of the product over the integers is
/// reduced as it is summed, then the upper coefficients are folded down from
/// the highest.
pub(crate) fn multiply_in_ring<A: Coeff, B: Coeff, F: Fn(A, A, B) -> A>(
    a: &[A],
    b: &[B],
    step: F,
    Ghost(m): Ghost<int>,
) -> (out: Vec<A>)
    requires
        a@.len() == b@.len(),
        1 <= a@.len(),
        2 * a@.len() <= usize::MAX,
        m > 0,
        m % 2 == 1,
        forall|r: A, j: int, k: int|
            is_centered(r.as_int(), m) && 0 <= j < a@.len() && 0 <= k < b@.len()
                ==> #[trigger] step.requires((r, a@[j], b@[k])),
        forall|r: A, s: A, one: B|
            is_centered(r.as_int(), m) && is_centered(s.as_int(), m) && one.as_int() == 1
                ==> #[trigger] step.requires((r, s, one)),
        forall|r: A, f: A, g: B, x: A| #[trigger]
            step.ensures((r, f, g), x) ==> x.as_int() == centered_residue(
                r.as_int() + f.as_int() * g.as_int(),
                m,
            ),
    ensures
        out@.len() == a@.len(),
        ints(out@) == ring_product_centered(ints(a@), ints(b@), m),
{
    let ghost sa: Seq<int> = ints(a@);
    let ghost sb: Seq<int> = ints(b@);
    let size: usize = a.len();
    proof {
        A::lemma_range(arbitrary());
        B::lemma_range(arbitrary());
        lemma_congruent_refl(0, m);
        lemma_centered_residue_is(0, 0, m);
    }
    let zero: A = A::from_i128(0);
    let one: B = B::from_i128(1);
    let mut fg: Vec<A> = Vec::new();
    let mut n: usize = 0;
    while n < size * 2 - 1
        invariant
            0 <= n <= size * 2 - 1,
            1 <= size,
            2 * size <= usize::MAX,
            fg@.len() == n,
        decreases size * 2 - 1 - n,
    {
        fg.push(zero);
        n += 1;
    }
    let mut i: usize = 0;
    while i < size
        invariant
            0 <= i <= size,
            size == a@.len(),
            size == b@.len(),
            2 * size <= usize::MAX,
            fg@.len() == size * 2 - 1,
            sa == ints(a@),
            sb == ints(b@),
            zero.as_int() == 0,
            centered_residue(0, m) == 0,
            m > 0,
            m % 2 == 1,
            forall|r: A, j: int, k: int|
                is_centered(r.as_int(), m) && 0 <= j < a@.len() && 0 <= k < b@.len()
                    ==> #[trigger] step.requires((r, a@[j], b@[k])),
            forall|r: A, f: A, g: B, x: A| #[trigger]
                step.ensures((r, f, g), x) ==> x.as_int() == centered_residue(
                    r.as_int() + f.as_int() * g.as_int(),
                    m,
                ),
            forall|k: int|
                0 <= k < i ==> (#[trigger] fg@[k]).as_int() == centered_residue(
                    conv(sa, sb, k),
                    m,
                ),
        decreases size - i,
    {
        let mut r: A = zero;
        let mut j: usize = 0;
        while j <= i
            invariant
                0 <= j <= i + 1,
                i < size,
                size == a@.len(),
                size == b@.len(),
                sa == ints(a@),
                sb == ints(b@),
                m > 0,
                m % 2 == 1,
                forall|r: A, j: int, k: int|
                    is_centered(r.as_int(), m) && 0 <= j < a@.len() && 0 <= k < b@.len()
                        ==> #[trigger] step.requires((r, a@[j], b@[k])),
                forall|r: A, f: A, g: B, x: A| #[trigger]
                    step.ensures((r, f, g), x) ==> x.as_int() == centered_residue(
                        r.as_int() + f.as_int() * g.as_int(),
                        m,
                    ),
                r.as_int() == centered_residue(conv_sum(sa, sb, i as int, j as nat), m),
            decreases i + 1 - j,
        {
            proof {
                lemma_centered_residue(conv_sum(sa, sb, i as int, j as nat), m);
                lemma_centered_sum(
                    r.as_int(),
                    conv_sum(sa, sb, i as int, j as nat),
                    conv_term(sa, sb, i as int, j as int),
                    m,
                );
            }
            r = step(r, a[j], b[i - j]);
            j += 1;
        }
        proof {
            lemma_conv_low(sa, sb, i as int);
        }
        fg[i] = r;
        i += 1;
    }
    while i < size * 2 - 1
        invariant
            size <= i <= size * 2 - 1,
            size == a@.len(),
            size == b@.len(),
            2 * size <= usize::MAX,
            fg@.len() == size * 2 - 1,
            sa == ints(a@),
            sb == ints(b@),
            zero.as_int() == 0,
            centered_residue(0, m) == 0,
            m > 0,
            m % 2 == 1,
            forall|r: A, j: int, k: int|
                is_centered(r.as_int(), m) && 0 <= j < a@.len() && 0 <= k < b@.len()
                    ==> #[trigger] step.requires((r, a@[j], b@[k])),
            forall|r: A, f: A, g: B, x: A| #[trigger]
                step.ensures((r, f, g), x) ==> x.as_int() == centered_residue(
                    r.as_int() + f.as_int() * g.as_int(),
                    m,
                ),
            forall|k: int|
                0 <= k < i ==> (#[trigger] fg@[k]).as_int() == centered_residue(
                    conv(sa, sb, k),
                    m,
                ),
        decreases size * 2 - 1 - i,
    {
        let mut r: A = zero;
        let mut j: usize = i - size + 1;
        proof {
            lemma_conv_high(sa, sb, i as int);
        }
        while j < size
            invariant
                i - size + 1 <= j <= size,
                size <= i < size * 2 - 1,
                size == a@.len(),
                size == b@.len(),
                sa == ints(a@),
                sb == ints(b@),
                m > 0,
                m % 2 == 1,
                forall|r: A, j: int, k: int|
                    is_centered(r.as_int(), m) && 0 <= j < a@.len() && 0 <= k < b@.len()
                        ==> #[trigger] step.requires((r, a@[j], b@[k])),
                forall|r: A, f: A, g: B, x: A| #[trigger]
                    step.ensures((r, f, g), x) ==> x.as_int() == centered_residue(
                        r.as_int() + f.as_int() * g.as_int(),
                        m,
                    ),
                r.as_int() == centered_residue(conv_sum(sa, sb, i as int, j as nat), m),
            decreases size - j,
        {
            proof {
                lemma_centered_residue(conv_sum(sa, sb, i as int, j as nat), m);
                lemma_centered_sum(
                    r.as_int(),
                    conv_sum(sa, sb, i as int, j as nat),
                    conv_term(sa, sb, i as int, j as int),
                    m,
                );
            }
            r = step(r, a[j], b[i - j]);
            j += 1;
        }
        fg[i] = r;
        i += 1;
    }
    let mut i: usize = size * 2 - 1;
    while i > size
        invariant
            size <= i <= size * 2 - 1,
            size == a@.len(),
            fg@.len() == size * 2 - 1,
            sa == ints(a@),
            sb == ints(b@),
            one.as_int() == 1,
            m > 0,
            m % 2 == 1,
            forall|r: A, s: A, one: B|
                is_centered(r.as_int(), m) && is_centered(s.as_int(), m) && one.as_int() == 1
                    ==> #[trigger] step.requires((r, s, one)),
            forall|r: A, f: A, g: B, x: A| #[trigger]
                step.ensures((r, f, g), x) ==> x.as_int() == centered_residue(
                    r.as_int() + f.as_int() * g.as_int(),
                    m,
                ),
            forall|k: int|
                0 <= k < size ==> (#[trigger] fg@[k]).as_int() == centered_residue(
                    ring_partial(sa, sb, k, i as int),
                    m,
                ),
            forall|k: int|
                size <= k < size * 2 - 1 ==> (#[trigger] fg@[k]).as_int() == centered_residue(
                    conv(sa, sb, k),
                    m,
                ),
        decreases i,
    {
        i -= 1;
        let top: A = fg[i];
        let low: A = fg[i - size];
        proof {
            lemma_centered_residue(conv(sa, sb, i as int), m);
            lemma_centered_residue(ring_partial(sa, sb, i - size, i + 1), m);
            lemma_centered_residue(ring_partial(sa, sb, i - size + 1, i + 1), m);
            lemma_centered_pair(
                low.as_int(),
                ring_partial(sa, sb, i - size, i + 1),
                top.as_int(),
                conv(sa, sb, i as int),
                m,
            );
            assert(top.as_int() * 1 == top.as_int());
        }
        let folded: A = step(low, top, one);
        fg[i - size] = folded;
        let next: A = fg[i - size + 1];
        proof {
            lemma_centered_pair(
                next.as_int(),
                ring_partial(sa, sb, i - size + 1, i + 1),
                top.as_int(),
                conv(sa, sb, i as int),
                m,
            );
        }
        let folded: A = step(next, top, one);
        fg[i - size + 1] = folded;
    }
    fg.truncate(size);
    assert(ints(fg@) =~= ring_product_centered(sa, sb, m));
    fg
}

/// Terms that are zero from `n1` on add nothing to the sum.
pub proof fn lemma_conv_sum_zero_tail(a: Seq<int>, b: Seq<int>, i: int, n1: nat, n2: nat)
    requires
        n1 <= n2,
        forall|j: int| n1 <= j < n2 ==> conv_term(a, b, i, j) == 0,
    ensures
        conv_sum(a, b, i, n2) == conv_sum(a, b, i, n1),
    decreases n2,
{
    if n2 > n1 {
        lemma_conv_sum_zero_tail(a, b, i, n1, (n2 - 1) as nat);
    }
}

/// A sum of zero terms is zero.
pub proof fn lemma_conv_sum_zero(a: Seq<int>, b: Seq<int>, i: int, n: nat)
    requires
        forall|j: int| 0 <= j < n ==> conv_term(a, b, i, j) == 0,
    ensures
        conv_sum(a, b, i, n) == 0,
{
    lemma_conv_sum_zero_tail(a, b, i, 0, n);
}

/// The sum of the terms of coefficient `i` stops at `j = i`.
pub proof fn lemma_conv_low(a: Seq<int>, b: Seq<int>, i: int)
    requires
        0 <= i < a.len(),
    ensures
        conv(a, b, i) == conv_sum(a, b, i, (i + 1) as nat),
{
    lemma_conv_sum_zero_tail(a, b, i, (i + 1) as nat, a.len());
}

/// The sum of the terms of coefficient `i` starts at `j = i - b.len() + 1`.
pub proof fn lemma_conv_high(a: Seq<int>, b: Seq<int>, i: int)
    requires
        i >= b.len(),
    ensures
        conv_sum(a, b, i, (i - b.len() + 1) as nat) == 0,
{
    lemma_conv_sum_zero(a, b, i, (i - b.len() + 1) as nat);
}

/// Coefficient `i` of the product of `a` with the identity is `a[i]`, and
/// zero beyond the last coefficient of `a`.
pub proof fn lemma_conv_one(a: Seq<int>, i: int)
    requires
        0 <= i,
        a.len() > 0,
    ensures
        conv(a, ring_one(a.len()), i) == (if i < a.len() {
            a[i]
        } else {
            0
        }),
{
    let e: Seq<int> = ring_one(a.len());
    assert forall|j: int| 0 <= j < a.len() && j != i implies conv_term(a, e, i, j) == 0 by {
        if 0 <= i - j < e.len() {
            assert(e[i - j] == 0);
            assert(a[j] * 0 == 0);
        }
    }
    if i < a.len() {
        lemma_conv_sum_zero(a, e, i, i as nat);
        assert(e[0] == 1);
        assert(conv_term(a, e, i, i) == a[i] * 1);
        assert(conv_sum(a, e, i, (i + 1) as nat) == a[i]);
        lemma_conv_sum_zero_tail(a, e, i, (i + 1) as nat, a.len());
    } else {
        lemma_conv_sum_zero(a, e, i, a.len());
    }
}

/// Multiplying by the identity of the ring changes nothing.
pub proof fn lemma_ring_product_one(a: Seq<int>)
    requires
        a.len() > 0,
    ensures
        ring_product(a, ring_one(a.len())) == a,
{
    let e: Seq<int> = ring_one(a.len());
    let n: int = a.len() as int;
    assert forall|k: int| 0 <= k < n implies ring_coeff(a, e, k) == a[k] by {
        lemma_conv_one(a, k);
        lemma_conv_one(a, k + n);
        lemma_conv_one(a, k + n - 1);
    }
    assert(ring_product(a, e) =~= a);
}

} // verus!
