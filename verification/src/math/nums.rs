//! Division-free remainders and masks on machine integers.

use vstd::prelude::*;
use vstd::arithmetic::div_mod::lemma_fundamental_div_mod;
use vstd::arithmetic::div_mod::lemma_fundamental_div_mod_converse;
use crate::params::params761::P;
use crate::params::params761::W;

verus! {

/// Shifting right by 31 bits divides by `2^31`.
proof fn lemma_shr31(y: u64)
    by (bit_vector)
    ensures
        y >> 31 == y / 0x8000_0000,
{
}

/// Shifting right by 15 bits divides by `2^15`, rounding down.
pub proof fn lemma_shr15(v: i32)
    by (bit_vector)
    ensures
        v >> 15 == v / 32768,
{
}

/// Shifting right by 31 bits spreads the sign over all bits.
proof fn lemma_sign_shift(d: i32)
    by (bit_vector)
    ensures
        d < 0 ==> d >> 31 == -1i32,
        d >= 0 ==> d >> 31 == 0i32,
{
}

/// A mask of all ones keeps the other operand of `&`, a mask of zero clears
/// it.
pub proof fn lemma_mask_and(mask: i32, m: i32)
    by (bit_vector)
    ensures
        mask == 0 ==> mask & m == 0,
        mask == -1 ==> mask & m == m,
{
}

/// All ones (`-1`) when `d` is negative, zero otherwise.
pub fn sign_mask(d: i32) -> (mask: i32)
    ensures
        mask == (if d < 0 {
            -1i32
        } else {
            0i32
        }),
{
    proof {
        lemma_sign_shift(d);
    }
    d >> 31
}

/// One reduction step: subtracting `q * m`, where `q` is the quotient
/// estimated with the reciprocal `v` of `m`, leaves a value that is congruent
/// to `x`, not negative, and below `m + x * m / 2^31 + 1`.
proof fn lemma_reduction_step(x: int, m: int, v: int, q: int)
    requires
        0 <= x,
        0 < m,
        v == 0x8000_0000int / m,
        q == (x * v) / 0x8000_0000int,
    ensures
        0 <= q,
        q * m <= x,
        0x8000_0000int * (x - q * m) < x * m + 0x8000_0000int * m,
{
    let t: int = 0x8000_0000;
    lemma_fundamental_div_mod(t, m);
    lemma_fundamental_div_mod(x * v, t);
    let rv: int = t % m;
    let ry: int = (x * v) % t;
    assert(t == m * v + rv);
    assert(x * v == t * q + ry);
    assert(0 <= v) by (nonlinear_arith)
        requires
            t == m * v + rv,
            0 <= rv < m,
            0 < m,
            t > 0,
    ;
    assert(0 <= x * v) by (nonlinear_arith)
        requires
            0 <= x,
            0 <= v,
    ;
    assert(0 <= q) by (nonlinear_arith)
        requires
            x * v == t * q + ry,
            0 <= ry < t,
            0 <= x * v,
            t > 0,
    ;
    assert(t * (q * m) <= t * x) by (nonlinear_arith)
        requires
            x * v == t * q + ry,
            0 <= ry,
            t == m * v + rv,
            0 <= rv,
            0 <= x,
            0 < m,
    ;
    assert(q * m <= x) by (nonlinear_arith)
        requires
            t * (q * m) <= t * x,
            t > 0,
    ;
    assert(t * (x - q * m) < x * m + t * m) by (nonlinear_arith)
        requires
            x * v == t * q + ry,
            ry < t,
            t == m * v + rv,
            rv < m,
            0 <= x,
            0 < m,
    ;
}

/// Remainder of `x` by `m`, computed with two multiplications by the rounded
/// reciprocal of `m` and one masked correction; no step depends on the value
/// of `x`.
pub fn u32_mod_u14(x: u32, m: u16) -> (r: u32)
    requires
        0 < m < 16384,
    ensures
        r == x % (m as u32),
{
    let m32: u32 = m as u32;
    let v: u32 = 0x8000_0000u32 / m32;
    proof {
        lemma_fundamental_div_mod(0x8000_0000int, m32 as int);
        assert(v <= 0x8000_0000) by (nonlinear_arith)
            requires
                0x8000_0000int == (m32 as int) * (v as int) + (0x8000_0000int % (m32 as int)),
                0 <= 0x8000_0000int % (m32 as int),
                0 < m32,
        ;
    }
    assert((x as int) * (v as int) <= 0xffff_ffff * 0x8000_0000) by (nonlinear_arith)
        requires
            0 <= x <= 0xffff_ffff,
            0 <= v <= 0x8000_0000,
    ;
    let y1: u64 = (x as u64) * (v as u64);
    let q1: u64 = y1 >> 31;
    proof {
        lemma_shr31(y1);
        lemma_reduction_step(x as int, m as int, v as int, q1 as int);
        assert((x as int) * (m as int) <= 0xffff_ffff * 16383) by (nonlinear_arith)
            requires
                0 <= x <= 0xffff_ffff,
                0 < m <= 16383,
        ;
        assert((q1 as int) * (m32 as int) == (q1 as int) * (m as int));
    }
    let x1: u32 = x - (q1 as u32) * m32;
    assert(x1 <= 49150);
    assert((x1 as int) * (v as int) <= 49150 * 0x8000_0000) by (nonlinear_arith)
        requires
            0 <= x1 <= 49150,
            0 <= v <= 0x8000_0000,
    ;
    let y2: u64 = (x1 as u64) * (v as u64);
    let q2: u64 = y2 >> 31;
    proof {
        lemma_shr31(y2);
        lemma_reduction_step(x1 as int, m as int, v as int, q2 as int);
        assert((x1 as int) * (m as int) <= 49150 * 16383) by (nonlinear_arith)
            requires
                0 <= x1 <= 49150,
                0 < m <= 16383,
        ;
    }
    let x2: u32 = x1 - (q2 as u32) * m32;
    assert(x2 <= m32);
    let d: i32 = x2 as i32 - m32 as i32;
    let mask: i32 = sign_mask(d);
    proof {
        lemma_mask_and(mask, m32 as i32);
    }
    let r: i32 = d + (mask & (m32 as i32));
    proof {
        let k: int = if x2 == m32 {
            q1 + q2 + 1
        } else {
            q1 + q2
        };
        assert(x as int == k * (m as int) + (r as int)) by (nonlinear_arith)
            requires
                x1 == x - q1 * m,
                x2 == x1 - q2 * m,
                r == (if x2 == m {
                    0int
                } else {
                    x2 as int
                }),
                k == (if x2 == m {
                    q1 + q2 + 1
                } else {
                    q1 + q2
                }),
        ;
        assert(k * (m as int) == (m as int) * k) by (nonlinear_arith);
        lemma_fundamental_div_mod_converse(x as int, m as int, k, r as int);
    }
    r as u32
}

/// Least nonnegative remainder of the signed `x` by `m`: the remainder of
/// `x + 2^31` is corrected by that of `2^31`.
pub fn i32_mod_u14(x: i32, m: u16) -> (r: u32)
    requires
        0 < m < 16384,
    ensures
        r as int == (x as int) % (m as int),
{
    let shifted: u32 = ((x as i64) + 0x8000_0000i64) as u32;
    let hi: u32 = u32_mod_u14(shifted, m);
    let lo: u32 = u32_mod_u14(0x8000_0000u32, m);
    let d: i32 = hi as i32 - lo as i32;
    let mask: i32 = sign_mask(d);
    proof {
        lemma_mask_and(mask, m as i32);
    }
    let r: i32 = d + (mask & (m as i32));
    proof {
        let mi: int = m as int;
        let t: int = 0x8000_0000;
        lemma_fundamental_div_mod(x + t, mi);
        lemma_fundamental_div_mod(t, mi);
        let k: int = (x + t) / mi - t / mi - (if d < 0 {
            1int
        } else {
            0int
        });
        assert(x as int == mi * k + (r as int)) by (nonlinear_arith)
            requires
                x + t == mi * ((x + t) / mi) + (hi as int),
                t == mi * (t / mi) + (lo as int),
                r == hi - lo + (if d < 0 {
                    mi
                } else {
                    0int
                }),
                d == hi - lo,
                k == (x + t) / mi - t / mi - (if d < 0 {
                    1int
                } else {
                    0int
                }),
        ;
        lemma_fundamental_div_mod_converse(x as int, mi, k, r as int);
    }
    r as u32
}

/// The coefficients of `r` as mathematical integers.
pub open spec fn as_ints(r: Seq<i8>) -> Seq<int> {
    Seq::new(r.len(), |i: int| r[i] as int)
}

/// The number of odd values among the first `n` of `a`. For values among -1,
/// 0 and 1 this counts the nonzero ones.
pub open spec fn odd_count(a: Seq<int>, n: nat) -> int
    decreases n,
{
    if n == 0 {
        0
    } else {
        odd_count(a, (n - 1) as nat) + a[n - 1] % 2
    }
}

/// The weight of `a`: the number of its odd coefficients.
pub open spec fn weight(a: Seq<int>) -> int {
    odd_count(a, a.len())
}

/// The lowest bit tells whether a value is odd, whatever its sign.
proof fn lemma_low_bit(x: i8)
    by (bit_vector)
    ensures
        x & 1 == x % 2,
{
}

/// The negative of a 16-bit value in 32 bits has its highest bit set unless
/// the value was zero.
proof fn lemma_nonzero_bit(x: i16, u: u16, v: u32, neg: u32)
    by (bit_vector)
    requires
        u == x as u16,
        v == u as u32,
        neg == (if v == 0 {
            0u32
        } else {
            (0x1_0000_0000 - v) as u32
        }),
    ensures
        neg >> 31 == (if x == 0 {
            0u32
        } else {
            1u32
        }),
{
}

/// Zero when `x` is zero, all ones (`-1`) otherwise, without a comparison.
pub fn i16_nonzero_mask(x: i16) -> (mask: i16)
    ensures
        mask == (if x == 0 {
            0i16
        } else {
            -1i16
        }),
{
    let u: u16 = #[verifier::truncate] (x as u16);
    let v: u32 = u as u32;
    let neg: u32 = 0u32.wrapping_sub(v);
    proof {
        lemma_nonzero_bit(x, u, v, neg);
    }
    let bit: u32 = neg >> 31;
    -(bit as i16)
}

/// Zero when `r` has weight `W`, all ones (`-1`) otherwise. Every
/// coefficient is read, whatever the values are.
pub fn weightw_mask(r: &[i8; P]) -> (mask: i16)
    ensures
        mask == (if weight(as_ints(r@)) == W {
            0i16
        } else {
            -1i16
        }),
{
    let mut count: i16 = 0;
    let mut i: usize = 0;
    while i < P
        invariant
            0 <= i <= P,
            count as int == odd_count(as_ints(r@), i as nat),
            0 <= count <= i,
        decreases P - i,
    {
        proof {
            lemma_low_bit(r[i as int]);
        }
        count = count + ((r[i] & 1) as i16);
        i += 1;
    }
    i16_nonzero_mask(count - (W as i16))
}

} // verus!
