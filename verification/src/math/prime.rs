//! Primes, binomial coefficients and Fermat's little theorem, as far as the
//! inverse modulo the large modulus needs them.

use vstd::prelude::*;
use vstd::arithmetic::div_mod::lemma_fundamental_div_mod;
use vstd::arithmetic::power::pow;
use crate::math::modular::congruent;
use crate::math::modular::lemma_congruent_add;
use crate::math::modular::lemma_congruent_mul;
use crate::math::modular::lemma_congruent_multiple;
use crate::math::modular::lemma_congruent_pow;
use crate::math::modular::lemma_congruent_refl;
use crate::math::modular::lemma_congruent_trans;
use crate::math::modular::lemma_congruent_witness;

verus! {

/// `p` is at least 2 and has no divisor between 1 and itself.
pub open spec fn is_prime(p: int) -> bool {
    p >= 2 && forall|d: int| 2 <= d < p ==> #[trigger] (p % d) != 0
}

/// The binomial coefficient `n` over `k`, by Pascal's rule.
pub open spec fn binomial(n: nat, k: nat) -> nat
    decreases n,
{
    if k == 0 {
        1
    } else if n == 0 {
        0
    } else {
        binomial((n - 1) as nat, (k - 1) as nat) + binomial((n - 1) as nat, k)
    }
}

/// The first `c` terms of `(a + 1)^n`, those of `a^0` to `a^(c - 1)`.
pub open spec fn binomial_sum(n: nat, a: int, c: nat) -> int
    decreases c,
{
    if c == 0 {
        0
    } else {
        binomial_sum(n, a, (c - 1) as nat) + binomial(n, (c - 1) as nat) * pow(a, (c - 1) as nat)
    }
}

/// 4591 is prime.
pub proof fn lemma_4591_is_prime()
    ensures
        is_prime(4591),
{
    assert forall|d: int| 2 <= d < 4591 implies #[trigger] (4591int % d) != 0 by {
        if 4591int % d == 0 {
            lemma_fundamental_div_mod(4591, d);
            let k: int = 4591int / d;
            assert(4591 == d * k);
            assert(2 <= k < 4591) by (nonlinear_arith)
                requires
                    4591 == d * k,
                    2 <= d < 4591,
            ;
            assert(d <= 67 || k <= 67) by (nonlinear_arith)
                requires
                    4591 == d * k,
                    2 <= d,
                    2 <= k,
            ;
            if d <= 67 {
                lemma_4591_has_no_small_factor(d, k);
            } else {
                assert(4591 == k * d) by (nonlinear_arith)
                    requires
                        4591 == d * k,
                ;
                lemma_4591_has_no_small_factor(k, d);
            }
        }
    }
}

/// No number from 2 to 67 divides 4591.
proof fn lemma_4591_has_no_small_factor(s: int, t: int)
    requires
        2 <= s <= 67,
    ensures
        4591 != s * t,
{
    if 4591 == s * t {
        if s == 2 {
            assert(4591 != 2 * t);
        } else if s == 3 {
            assert(4591 != 3 * t);
        } else if s == 4 {
            assert(4591 != 4 * t);
        } else if s == 5 {
            assert(4591 != 5 * t);
        } else if s == 6 {
            assert(4591 != 6 * t);
        } else if s == 7 {
            assert(4591 != 7 * t);
        } else if s == 8 {
            assert(4591 != 8 * t);
        } else if s == 9 {
            assert(4591 != 9 * t);
        } else if s == 10 {
            assert(4591 != 10 * t);
        } else if s == 11 {
            assert(4591 != 11 * t);
        } else if s == 12 {
            assert(4591 != 12 * t);
        } else if s == 13 {
            assert(4591 != 13 * t);
        } else if s == 14 {
            assert(4591 != 14 * t);
        } else if s == 15 {
            assert(4591 != 15 * t);
        } else if s == 16 {
            assert(4591 != 16 * t);
        } else if s == 17 {
            assert(4591 != 17 * t);
        } else if s == 18 {
            assert(4591 != 18 * t);
        } else if s == 19 {
            assert(4591 != 19 * t);
        } else if s == 20 {
            assert(4591 != 20 * t);
        } else if s == 21 {
            assert(4591 != 21 * t);
        } else if s == 22 {
            assert(4591 != 22 * t);
        } else if s == 23 {
            assert(4591 != 23 * t);
        } else if s == 24 {
            assert(4591 != 24 * t);
        } else if s == 25 {
            assert(4591 != 25 * t);
        } else if s == 26 {
            assert(4591 != 26 * t);
        } else if s == 27 {
            assert(4591 != 27 * t);
        } else if s == 28 {
            assert(4591 != 28 * t);
        } else if s == 29 {
            assert(4591 != 29 * t);
        } else if s == 30 {
            assert(4591 != 30 * t);
        } else if s == 31 {
            assert(4591 != 31 * t);
        } else if s == 32 {
            assert(4591 != 32 * t);
        } else if s == 33 {
            assert(4591 != 33 * t);
        } else if s == 34 {
            assert(4591 != 34 * t);
        } else if s == 35 {
            assert(4591 != 35 * t);
        } else if s == 36 {
            assert(4591 != 36 * t);
        } else if s == 37 {
            assert(4591 != 37 * t);
        } else if s == 38 {
            assert(4591 != 38 * t);
        } else if s == 39 {
            assert(4591 != 39 * t);
        } else if s == 40 {
            assert(4591 != 40 * t);
        } else if s == 41 {
            assert(4591 != 41 * t);
        } else if s == 42 {
            assert(4591 != 42 * t);
        } else if s == 43 {
            assert(4591 != 43 * t);
        } else if s == 44 {
            assert(4591 != 44 * t);
        } else if s == 45 {
            assert(4591 != 45 * t);
        } else if s == 46 {
            assert(4591 != 46 * t);
        } else if s == 47 {
            assert(4591 != 47 * t);
        } else if s == 48 {
            assert(4591 != 48 * t);
        } else if s == 49 {
            assert(4591 != 49 * t);
        } else if s == 50 {
            assert(4591 != 50 * t);
        } else if s == 51 {
            assert(4591 != 51 * t);
        } else if s == 52 {
            assert(4591 != 52 * t);
        } else if s == 53 {
            assert(4591 != 53 * t);
        } else if s == 54 {
            assert(4591 != 54 * t);
        } else if s == 55 {
            assert(4591 != 55 * t);
        } else if s == 56 {
            assert(4591 != 56 * t);
        } else if s == 57 {
            assert(4591 != 57 * t);
        } else if s == 58 {
            assert(4591 != 58 * t);
        } else if s == 59 {
            assert(4591 != 59 * t);
        } else if s == 60 {
            assert(4591 != 60 * t);
        } else if s == 61 {
            assert(4591 != 61 * t);
        } else if s == 62 {
            assert(4591 != 62 * t);
        } else if s == 63 {
            assert(4591 != 63 * t);
        } else if s == 64 {
            assert(4591 != 64 * t);
        } else if s == 65 {
            assert(4591 != 65 * t);
        } else if s == 66 {
            assert(4591 != 66 * t);
        } else if s == 67 {
            assert(4591 != 67 * t);
        }
    }
}

/// Integers `u`, `v` and the common divisor `g > 0` of `a` and `b` with
/// `u * a + v * b == g`.
pub proof fn lemma_bezout(a: nat, b: nat) -> (r: (int, int, int))
    requires
        a > 0 || b > 0,
    ensures
        r.2 > 0,
        a as int % r.2 == 0,
        b as int % r.2 == 0,
        r.0 * a + r.1 * b == r.2,
    decreases b,
{
    if b == 0 {
        lemma_congruent_multiple(a as int, 0, 1, a as int);
        lemma_congruent_multiple(0, 0, 0, a as int);
        assert(1 * a + 0 * b == a) by (nonlinear_arith);
        (1, 0, a as int)
    } else {
        let rest: nat = a % b;
        let q: int = (a / b) as int;
        lemma_fundamental_div_mod(a as int, b as int);
        let (u, v, g) = lemma_bezout(b, rest);
        let kb: int = lemma_congruent_witness(b as int, 0, g);
        let kr: int = lemma_congruent_witness(rest as int, 0, g);
        assert(a as int - 0 == (kb * q + kr) * g) by (nonlinear_arith)
            requires
                a == b * q + rest,
                b - 0 == kb * g,
                rest - 0 == kr * g,
        ;
        lemma_congruent_multiple(a as int, 0, kb * q + kr, g);
        assert(v * a + (u - v * q) * b == g) by (nonlinear_arith)
            requires
                a == b * q + rest,
                u * b + v * rest == g,
        ;
        (v, u - v * q, g)
    }
}

/// A prime that divides a product divides one of its factors.
pub proof fn lemma_euclid(p: int, x: int, y: int)
    requires
        is_prime(p),
        (x * y) % p == 0,
        x % p != 0,
    ensures
        y % p == 0,
{
    let low: int = x % p;
    lemma_fundamental_div_mod(x, p);
    let (u, v, g) = lemma_bezout(low as nat, p as nat);
    let kp: int = lemma_congruent_witness(p, 0, g);
    let kl: int = lemma_congruent_witness(low, 0, g);
    assert(1 <= kp && g <= p) by (nonlinear_arith)
        requires
            p == kp * g,
            g > 0,
            p >= 2,
    ;
    assert(1 <= kl && g <= low) by (nonlinear_arith)
        requires
            low == kl * g,
            g > 0,
            low > 0,
    ;
    assert(g == 1) by {
        if g >= 2 {
            assert(p % g != 0);
        }
    }
    let kxy: int = lemma_congruent_witness(x * y, 0, p);
    let q: int = x / p;
    assert(y - 0 == (u * kxy - u * q * y + v * y) * p) by (nonlinear_arith)
        requires
            u * low + v * p == 1,
            x == p * q + low,
            x * y - 0 == kxy * p,
    ;
    lemma_congruent_multiple(y, 0, u * kxy - u * q * y + v * y, p);
}

/// No more than `n` things can be chosen from `n`.
pub proof fn lemma_binomial_above(n: nat, k: nat)
    requires
        k > n,
    ensures
        binomial(n, k) == 0,
    decreases n,
{
    if n > 0 {
        lemma_binomial_above((n - 1) as nat, (k - 1) as nat);
        lemma_binomial_above((n - 1) as nat, k);
    }
}

/// There is one way to choose all.
pub proof fn lemma_binomial_all(n: nat)
    ensures
        binomial(n, n) == 1,
    decreases n,
{
    if n > 0 {
        lemma_binomial_all((n - 1) as nat);
        lemma_binomial_above((n - 1) as nat, n);
    }
}

/// `k * C(n, k) == n * C(n - 1, k - 1)`.
pub proof fn lemma_binomial_absorption(n: nat, k: nat)
    requires
        n >= 1,
        k >= 1,
    ensures
        k * binomial(n, k) == n * binomial((n - 1) as nat, (k - 1) as nat),
    decreases n,
{
    let n1: nat = (n - 1) as nat;
    let k1: nat = (k - 1) as nat;
    if n == 1 {
        if k == 1 {
            assert(binomial(1, 1) == binomial(0, 0) + binomial(0, 1));
        } else {
            lemma_binomial_above(1, k);
            lemma_binomial_above(0, k1);
            assert(k * binomial(n, k) == 0) by (nonlinear_arith)
                requires
                    binomial(n, k) == 0,
            ;
            assert(n * binomial(n1, k1) == 0) by (nonlinear_arith)
                requires
                    binomial(n1, k1) == 0,
            ;
        }
    } else {
        let n2: nat = (n - 2) as nat;
        lemma_binomial_absorption(n1, k);
        assert(binomial(n, k) == binomial(n1, k1) + binomial(n1, k));
        if k == 1 {
            assert(binomial(n1, 0) == 1);
            assert(binomial(n2, 0) == 1);
            assert(k * binomial(n, k) == n * binomial(n1, k1)) by (nonlinear_arith)
                requires
                    binomial(n, k) == binomial(n1, k1) + binomial(n1, k),
                    k * binomial(n1, k) == n1 * binomial(n2, k1),
                    binomial(n1, k1) == 1,
                    binomial(n2, k1) == 1,
                    k == 1,
                    n1 == n - 1,
            ;
        } else {
            let k2: nat = (k - 2) as nat;
            lemma_binomial_absorption(n1, k1);
            assert(binomial(n1, k1) == binomial(n2, k2) + binomial(n2, k1));
            assert(k * binomial(n, k) == n * binomial(n1, k1)) by (nonlinear_arith)
                requires
                    binomial(n, k) == binomial(n1, k1) + binomial(n1, k),
                    k * binomial(n1, k) == n1 * binomial(n2, k1),
                    k1 * binomial(n1, k1) == n1 * binomial(n2, k2),
                    binomial(n1, k1) == binomial(n2, k2) + binomial(n2, k1),
                    k1 == k - 1,
                    n1 == n - 1,
            ;
        }
    }
}

/// A prime `p` divides `C(p, k)` for `0 < k < p`.
pub proof fn lemma_prime_divides_binomial(p: nat, k: nat)
    requires
        is_prime(p as int),
        0 < k < p,
    ensures
        binomial(p, k) as int % (p as int) == 0,
{
    lemma_binomial_absorption(p, k);
    let c: int = binomial((p - 1) as nat, (k - 1) as nat) as int;
    lemma_congruent_multiple((k * binomial(p, k)) as int, 0, c, p as int);
    assert(k as int % (p as int) != 0) by {
        vstd::arithmetic::div_mod::lemma_small_mod(k, p);
    }
    lemma_euclid(p as int, k as int, binomial(p, k) as int);
}

/// Pascal's rule, summed: the first `c + 1` terms of `(a + 1)^(n + 1)` are
/// `a` times the first `c` terms of `(a + 1)^n`, plus its first `c + 1`
/// terms.
pub proof fn lemma_binomial_sum_step(n: nat, a: int, c: nat)
    ensures
        binomial_sum(n + 1, a, c + 1) == a * binomial_sum(n, a, c) + binomial_sum(n, a, c + 1),
    decreases c,
{
    reveal_with_fuel(pow, 2);
    reveal_with_fuel(binomial_sum, 2);
    if c == 0 {
        assert(binomial(n + 1, 0) == 1);
        assert(binomial(n, 0) == 1);
        assert(a * 0 == 0);
    } else {
        let b: nat = (c - 1) as nat;
        lemma_binomial_sum_step(n, a, b);
        let c0: int = binomial(n, b) as int;
        let c1: int = binomial(n, c) as int;
        let x0: int = pow(a, b);
        let x1: int = pow(a, c);
        assert(x1 == a * x0);
        assert(binomial(n + 1, c) == c0 + c1);
        let s0: int = binomial_sum(n, a, b);
        let s1: int = binomial_sum(n, a, c);
        assert(s1 == s0 + c0 * x0);
        assert(binomial_sum(n, a, c + 1) == s1 + c1 * x1);
        assert(binomial_sum(n + 1, a, c + 1) == binomial_sum(n + 1, a, c) + (c0 + c1) * x1);
        assert((a * s0 + s1) + (c0 + c1) * x1 == a * s1 + (s1 + c1 * x1)) by (nonlinear_arith)
            requires
                s1 == s0 + c0 * x0,
                x1 == a * x0,
        ;
    }
}

/// The binomial theorem for `(a + 1)^n`.
pub proof fn lemma_binomial_theorem(n: nat, a: int)
    ensures
        pow(a + 1, n) == binomial_sum(n, a, n + 1),
    decreases n,
{
    reveal_with_fuel(pow, 2);
    reveal_with_fuel(binomial_sum, 2);
    if n == 0 {
        assert(binomial(0, 0) == 1);
        assert(pow(a, 0) == 1);
        assert(pow(a + 1, 0) == 1);
        assert(binomial_sum(0, a, 1) == binomial_sum(0, a, 0) + binomial(0, 0) * pow(a, 0));
    } else {
        let n1: nat = (n - 1) as nat;
        lemma_binomial_theorem(n1, a);
        lemma_binomial_sum_step(n1, a, n);
        lemma_binomial_above(n1, n);
        let s: int = binomial_sum(n1, a, n);
        assert(pow(a + 1, n1) == s);
        assert(binomial_sum(n1, a, n + 1) == s + binomial(n1, n) * pow(a, n));
        assert(binomial(n1, n) * pow(a, n) == 0) by (nonlinear_arith)
            requires
                binomial(n1, n) == 0,
        ;
        assert(binomial_sum(n, a, n + 1) == a * s + binomial_sum(n1, a, n + 1));
        assert(pow(a + 1, n) == (a + 1) * pow(a + 1, n1));
        assert((a + 1) * s == a * s + s) by (nonlinear_arith);
    }
}

/// Modulo a prime `p`, the terms of `(a + 1)^p` below `a^p` sum to 1.
pub proof fn lemma_binomial_sum_mod(p: nat, a: int, c: nat)
    requires
        is_prime(p as int),
        1 <= c <= p,
    ensures
        congruent(binomial_sum(p, a, c), 1, p as int),
    decreases c,
{
    reveal_with_fuel(binomial_sum, 2);
    if c == 1 {
        assert(binomial(p, 0) == 1);
        reveal_with_fuel(pow, 1);
        assert(pow(a, 0) == 1);
        lemma_congruent_refl(1, p as int);
    } else {
        let b: nat = (c - 1) as nat;
        lemma_binomial_sum_mod(p, a, b);
        lemma_prime_divides_binomial(p, b);
        let k: int = binomial(p, b) as int;
        let x: int = pow(a, b);
        lemma_congruent_refl(x, p as int);
        lemma_congruent_mul(k, 0, x, x, p as int);
        assert(0 * x == 0);
        lemma_congruent_add(binomial_sum(p, a, b), 1, k * x, 0, p as int);
    }
}

/// Modulo a prime `p`, `(a + 1)^p` is `a^p + 1`.
pub proof fn lemma_power_of_successor(p: nat, a: int)
    requires
        is_prime(p as int),
    ensures
        congruent(pow(a + 1, p), pow(a, p) + 1, p as int),
{
    reveal_with_fuel(binomial_sum, 2);
    lemma_binomial_theorem(p, a);
    lemma_binomial_sum_mod(p, a, p);
    lemma_binomial_all(p);
    let x: int = pow(a, p);
    assert(binomial(p, p) * x == x) by (nonlinear_arith)
        requires
            binomial(p, p) == 1,
    ;
    lemma_congruent_refl(x, p as int);
    lemma_congruent_add(binomial_sum(p, a, p), 1, x, x, p as int);
}

/// Modulo a prime `p`, `a^p` is `a`, for `a` that is not negative.
pub proof fn lemma_power_of_prime(p: nat, a: nat)
    requires
        is_prime(p as int),
    ensures
        congruent(pow(a as int, p), a as int, p as int),
    decreases a,
{
    if a == 0 {
        vstd::arithmetic::power::lemma0_pow(p);
        lemma_congruent_refl(0, p as int);
    } else {
        let b: nat = (a - 1) as nat;
        lemma_power_of_prime(p, b);
        lemma_power_of_successor(p, b as int);
        lemma_congruent_refl(1, p as int);
        lemma_congruent_add(pow(b as int, p), b as int, 1, 1, p as int);
        lemma_congruent_trans(pow(a as int, p), pow(b as int, p) + 1, a as int, p as int);
    }
}

/// Fermat's little theorem: modulo a prime `p`, `a^(p - 1)` is 1 for every
/// `a` that `p` does not divide.
pub proof fn lemma_fermat(p: nat, a: int)
    requires
        is_prime(p as int),
        a % (p as int) != 0,
    ensures
        congruent(pow(a, (p - 1) as nat), 1, p as int),
{
    let m: int = p as int;
    let low: int = a % m;
    lemma_fundamental_div_mod(a, m);
    assert(a - low == (a / m) * m) by (nonlinear_arith)
        requires
            a == m * (a / m) + low,
    ;
    lemma_congruent_multiple(a, low, a / m, m);
    let e: nat = (p - 1) as nat;
    lemma_power_of_prime(p, low as nat);
    reveal_with_fuel(pow, 1);
    let x: int = pow(low, e);
    assert(pow(low, p) == low * x);
    assert(low * x - low == low * (x - 1)) by (nonlinear_arith);
    assert(low % m != 0) by {
        vstd::arithmetic::div_mod::lemma_small_mod(low as nat, p);
    }
    lemma_euclid(m, low, x - 1);
    lemma_congruent_pow(a, low, e, m);
    lemma_congruent_trans(pow(a, e), x, 1, m);
}

} // verus!
