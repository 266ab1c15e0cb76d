//! Scalars modulo the large modulus, kept as centered representatives.

use vstd::prelude::*;
use vstd::arithmetic::power::pow;
use crate::math::modular::centered_residue;
use crate::math::modular::congruent;
use crate::math::modular::is_centered;
use crate::math::modular::lemma_centered_residue;
use crate::math::modular::lemma_centered_residue_is;
use crate::math::modular::lemma_centered_residue_neg;
use crate::math::modular::lemma_centered_residue_congruent;
use crate::math::modular::lemma_congruent_mul;
use crate::math::modular::lemma_congruent_refl;
use crate::math::modular::lemma_congruent_trans;
use crate::math::nums::i32_mod_u14;
use crate::math::prime::lemma_4591_is_prime;
use crate::math::prime::lemma_fermat;
use crate::math::nums::lemma_mask_and;
use crate::math::nums::sign_mask;
use crate::params::params761::Q;
use crate::params::params761::Q12;

verus! {

/// The centered representative of `x` modulo `Q`.
pub open spec fn freeze_spec(x: int) -> int {
    centered_residue(x, Q as int)
}

/// The inverse of `a` modulo `Q` as a power: `a^(Q-2)`, centered.
pub open spec fn recip_spec(a: int) -> int {
    freeze_spec(pow(a, (Q - 2) as nat))
}

/// Reduces `x` to its centered representative modulo `Q`: the one value `r`
/// with `r = x (mod Q)` and `-Q/2 < r <= Q/2`. Defined for every `i32`.
pub fn freeze(x: i32) -> (r: i16)
    ensures
        r as int == freeze_spec(x as int),
        congruent(r as int, x as int, Q as int),
        is_centered(r as int, Q as int),
{
    let low: u32 = i32_mod_u14(x, Q as u16);
    let over: i32 = low as i32 - Q12 as i32 - 1;
    let mask: i32 = sign_mask(over);
    let back: i32 = mask & (Q as i32);
    proof {
        lemma_mask_and(mask, Q as i32);
    }
    let r: i32 = low as i32 - Q as i32 + back;
    proof {
        lemma_centered_residue(x as int, Q as int);
        assert(congruent(r as int, x as int, Q as int));
        lemma_centered_residue_is(r as int, x as int, Q as int);
    }
    r as i16
}

/// The multiplicative inverse of `a1` modulo `Q`, as the power `a1^(Q-2)`
/// built up by `Q - 3` multiplications, each followed by `freeze`.
pub fn recip(a1: i16) -> (r: i16)
    ensures
        r as int == recip_spec(a1 as int),
{
    let mut i: usize = 1;
    let mut power: i16 = a1;
    proof {
        reveal_with_fuel(pow, 2);
        assert(pow(a1 as int, 1) == a1 as int) by (nonlinear_arith)
            requires
                pow(a1 as int, 1) == (a1 as int) * 1,
        ;
        lemma_congruent_refl(a1 as int, Q as int);
    }
    while i < Q - 2
        invariant
            1 <= i <= Q - 2,
            congruent(power as int, pow(a1 as int, i as nat), Q as int),
            i > 1 ==> is_centered(power as int, Q as int),
        decreases Q - 2 - i,
    {
        assert(-0x4000_0000 <= (a1 as int) * (power as int) <= 0x4000_0000) by (nonlinear_arith)
            requires
                -0x8000 <= a1 <= 0x7fff,
                -0x8000 <= power <= 0x7fff,
        ;
        let next: i16 = freeze((a1 as i32) * (power as i32));
        proof {
            let a: int = a1 as int;
            reveal_with_fuel(pow, 1);
            assert(pow(a, (i + 1) as nat) == a * pow(a, i as nat));
            lemma_congruent_refl(a, Q as int);
            lemma_congruent_mul(a, a, power as int, pow(a, i as nat), Q as int);
            lemma_congruent_trans(next as int, a * (power as int), pow(a, (i + 1) as nat), Q as int);
        }
        power = next;
        i += 1;
    }
    proof {
        lemma_centered_residue_is(power as int, pow(a1 as int, (Q - 2) as nat), Q as int);
    }
    power
}

/// `recip` gives the inverse: for every `a` that `Q` does not divide,
/// `a * recip(a)` reduces to 1. `Q` is prime, so this is Fermat's little
/// theorem.
pub proof fn lemma_recip_is_inverse(a: int)
    requires
        a % (Q as int) != 0,
    ensures
        freeze_spec(a * recip_spec(a)) == 1,
{
    let q: int = Q as int;
    let e: nat = (Q - 2) as nat;
    let x: int = pow(a, e);
    lemma_4591_is_prime();
    lemma_fermat(Q as nat, a);
    reveal_with_fuel(pow, 1);
    assert(pow(a, (Q - 1) as nat) == a * x);
    lemma_centered_residue(x, q);
    lemma_congruent_refl(a, q);
    lemma_congruent_mul(a, a, recip_spec(a), x, q);
    lemma_congruent_trans(a * recip_spec(a), a * x, 1, q);
    lemma_centered_residue_congruent(a * recip_spec(a), 1, q);
}

/// The inverse of `-a` is the negative of the inverse of `a`.
pub proof fn lemma_recip_neg(a: int)
    ensures
        recip_spec(-a) == -recip_spec(a),
{
    lemma_pow_odd_neg(a, (Q - 2) as nat);
    lemma_centered_residue_neg(pow(a, (Q - 2) as nat), Q as int);
}

/// An odd power of `-a` is the negative of that power of `a`.
pub proof fn lemma_pow_odd_neg(a: int, e: nat)
    requires
        e % 2 == 1,
    ensures
        pow(-a, e) == -pow(a, e),
    decreases e,
{
    reveal_with_fuel(pow, 3);
    if e == 1 {
        assert(pow(-a, 1) == (-a) * 1);
        assert(pow(a, 1) == a * 1);
    } else {
        let f: nat = (e - 2) as nat;
        lemma_pow_odd_neg(a, f);
        assert(pow(-a, e) == (-a) * ((-a) * pow(-a, f)));
        assert(pow(a, e) == a * (a * pow(a, f)));
        assert((-a) * ((-a) * (-pow(a, f))) == -(a * (a * pow(a, f)))) by (nonlinear_arith);
    }
}

} // verus!
