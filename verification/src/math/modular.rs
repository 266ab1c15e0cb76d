//! Congruences and centered residues over the mathematical integers.

use vstd::prelude::*;
use vstd::arithmetic::div_mod::lemma_fundamental_div_mod;
use vstd::arithmetic::div_mod::lemma_fundamental_div_mod_converse;
use vstd::arithmetic::power::pow;

verus! {

/// `a` and `b` differ by a multiple of `m`.
pub open spec fn congruent(a: int, b: int, m: int) -> bool {
    (a - b) % m == 0
}

/// `r` lies in the interval `(-m/2, m/2]`.
pub open spec fn is_centered(r: int, m: int) -> bool {
    -m < 2 * r <= m
}

/// The representative of `x` modulo `m` in the interval `(-m/2, m/2]`.
pub open spec fn centered_residue(x: int, m: int) -> int {
    (x + (m - 1) / 2) % m - (m - 1) / 2
}

/// Two values that differ by a multiple of `m` are congruent.
pub proof fn lemma_congruent_multiple(a: int, b: int, k: int, m: int)
    requires
        m > 0,
        a - b == k * m,
    ensures
        congruent(a, b, m),
{
    assert(k * m == m * k) by (nonlinear_arith);
    lemma_fundamental_div_mod_converse(a - b, m, k, 0);
}

/// Congruent values differ by `k * m` for the `k` that is returned.
pub proof fn lemma_congruent_witness(a: int, b: int, m: int) -> (k: int)
    requires
        m > 0,
        congruent(a, b, m),
    ensures
        a - b == k * m,
{
    lemma_fundamental_div_mod(a - b, m);
    let k: int = (a - b) / m;
    assert(m * k == k * m) by (nonlinear_arith);
    k
}

/// Every value is congruent to itself.
pub proof fn lemma_congruent_refl(a: int, m: int)
    requires
        m > 0,
    ensures
        congruent(a, a, m),
{
    lemma_congruent_multiple(a, a, 0, m);
}

/// Congruence is symmetric.
pub proof fn lemma_congruent_sym(a: int, b: int, m: int)
    requires
        m > 0,
        congruent(a, b, m),
    ensures
        congruent(b, a, m),
{
    let k: int = lemma_congruent_witness(a, b, m);
    assert(b - a == (-k) * m) by (nonlinear_arith)
        requires
            a - b == k * m,
    ;
    lemma_congruent_multiple(b, a, -k, m);
}

/// Congruence is transitive.
pub proof fn lemma_congruent_trans(a: int, b: int, c: int, m: int)
    requires
        m > 0,
        congruent(a, b, m),
        congruent(b, c, m),
    ensures
        congruent(a, c, m),
{
    let k: int = lemma_congruent_witness(a, b, m);
    let l: int = lemma_congruent_witness(b, c, m);
    assert(a - c == (k + l) * m) by (nonlinear_arith)
        requires
            a - b == k * m,
            b - c == l * m,
    ;
    lemma_congruent_multiple(a, c, k + l, m);
}

/// Sums of congruent values are congruent.
pub proof fn lemma_congruent_add(a: int, b: int, c: int, d: int, m: int)
    requires
        m > 0,
        congruent(a, b, m),
        congruent(c, d, m),
    ensures
        congruent(a + c, b + d, m),
{
    let k: int = lemma_congruent_witness(a, b, m);
    let l: int = lemma_congruent_witness(c, d, m);
    assert((a + c) - (b + d) == (k + l) * m) by (nonlinear_arith)
        requires
            a - b == k * m,
            c - d == l * m,
    ;
    lemma_congruent_multiple(a + c, b + d, k + l, m);
}

/// Products of congruent values are congruent.
pub proof fn lemma_congruent_mul(a: int, b: int, c: int, d: int, m: int)
    requires
        m > 0,
        congruent(a, b, m),
        congruent(c, d, m),
    ensures
        congruent(a * c, b * d, m),
{
    let k: int = lemma_congruent_witness(a, b, m);
    let l: int = lemma_congruent_witness(c, d, m);
    assert(a * c - b * d == (k * c + b * l) * m) by (nonlinear_arith)
        requires
            a - b == k * m,
            c - d == l * m,
    ;
    lemma_congruent_multiple(a * c, b * d, k * c + b * l, m);
}

/// The negatives of congruent values are congruent.
pub proof fn lemma_congruent_neg(a: int, b: int, m: int)
    requires
        m > 0,
        congruent(a, b, m),
    ensures
        congruent(-a, -b, m),
{
    let k: int = lemma_congruent_witness(a, b, m);
    assert((-a) - (-b) == (-k) * m) by (nonlinear_arith)
        requires
            a - b == k * m,
    ;
    lemma_congruent_multiple(-a, -b, -k, m);
}

/// Congruent bases have congruent powers.
pub proof fn lemma_congruent_pow(a: int, b: int, e: nat, m: int)
    requires
        m > 0,
        congruent(a, b, m),
    ensures
        congruent(pow(a, e), pow(b, e), m),
    decreases e,
{
    reveal(pow);
    if e == 0 {
        lemma_congruent_refl(1, m);
    } else {
        lemma_congruent_pow(a, b, (e - 1) as nat, m);
        lemma_congruent_mul(a, b, pow(a, (e - 1) as nat), pow(b, (e - 1) as nat), m);
    }
}

/// Two centered values that are congruent are equal.
pub proof fn lemma_centered_unique(a: int, b: int, m: int)
    requires
        m > 0,
        congruent(a, b, m),
        is_centered(a, m),
        is_centered(b, m),
    ensures
        a == b,
{
    let k: int = lemma_congruent_witness(a, b, m);
    assert(k == 0) by (nonlinear_arith)
        requires
            a - b == k * m,
            -m < a - b < m,
            m > 0,
    ;
}

/// The centered residue is congruent to its argument and lies in
/// `(-m/2, m/2]`.
pub proof fn lemma_centered_residue(x: int, m: int)
    requires
        m > 0,
        m % 2 == 1,
    ensures
        congruent(centered_residue(x, m), x, m),
        is_centered(centered_residue(x, m), m),
{
    let h: int = (m - 1) / 2;
    lemma_fundamental_div_mod(x + h, m);
    let k: int = (x + h) / m;
    assert(centered_residue(x, m) - x == (-k) * m) by (nonlinear_arith)
        requires
            x + h == m * k + (x + h) % m,
            centered_residue(x, m) == (x + h) % m - h,
    ;
    lemma_congruent_multiple(centered_residue(x, m), x, -k, m);
}

/// A centered value congruent to `x` is the centered residue of `x`.
pub proof fn lemma_centered_residue_is(r: int, x: int, m: int)
    requires
        m > 0,
        m % 2 == 1,
        congruent(r, x, m),
        is_centered(r, m),
    ensures
        r == centered_residue(x, m),
{
    lemma_centered_residue(x, m);
    lemma_congruent_sym(centered_residue(x, m), x, m);
    lemma_congruent_trans(r, x, centered_residue(x, m), m);
    lemma_centered_unique(r, centered_residue(x, m), m);
}

/// Congruent arguments have the same centered residue.
pub proof fn lemma_centered_residue_congruent(x: int, y: int, m: int)
    requires
        m > 0,
        m % 2 == 1,
        congruent(x, y, m),
    ensures
        centered_residue(x, m) == centered_residue(y, m),
{
    lemma_centered_residue(x, m);
    lemma_congruent_trans(centered_residue(x, m), x, y, m);
    lemma_centered_residue_is(centered_residue(x, m), y, m);
}

/// For an odd modulus the centered interval is symmetric, so the centered
/// residue of `-x` is the negative of that of `x`.
pub proof fn lemma_centered_residue_neg(x: int, m: int)
    requires
        m > 0,
        m % 2 == 1,
    ensures
        centered_residue(-x, m) == -centered_residue(x, m),
{
    lemma_centered_residue(x, m);
    lemma_congruent_neg(centered_residue(x, m), x, m);
    let c: int = centered_residue(x, m);
    assert(2 * c != m) by {
        if 2 * c == m {
            assert((2 * c) % 2 == 0) by (nonlinear_arith);
        }
    }
    lemma_centered_residue_is(-c, -x, m);
}

/// Reducing a sum whose first part was reduced before gives the reduction of
/// the whole sum.
pub proof fn lemma_centered_sum(r: int, s: int, t: int, m: int)
    requires
        m > 0,
        m % 2 == 1,
        r == centered_residue(s, m),
    ensures
        centered_residue(r + t, m) == centered_residue(s + t, m),
{
    lemma_centered_residue(s, m);
    lemma_congruent_refl(t, m);
    lemma_congruent_add(r, s, t, t, m);
    lemma_centered_residue_congruent(r + t, s + t, m);
}

/// Reducing the sum of two reduced values gives the reduction of the sum of
/// what they were reduced from.
pub proof fn lemma_centered_pair(r: int, s: int, u: int, t: int, m: int)
    requires
        m > 0,
        m % 2 == 1,
        r == centered_residue(s, m),
        u == centered_residue(t, m),
    ensures
        centered_residue(r + u, m) == centered_residue(s + t, m),
{
    lemma_centered_residue(s, m);
    lemma_centered_residue(t, m);
    lemma_congruent_add(r, s, u, t, m);
    lemma_centered_residue_congruent(r + u, s + t, m);
}

} // verus!
