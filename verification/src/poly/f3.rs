//! Scalars modulo 3, kept as -1, 0 or 1, and the rounding of ring elements
//! to multiples of 3.

use vstd::prelude::*;
use crate::math::modular::centered_residue;
use crate::math::modular::is_centered;
use crate::math::modular::lemma_centered_residue;
use crate::math::nums::i32_mod_u14;
use crate::params::params761::P;
use crate::params::params761::Q;

verus! {

/// The representative of `x` modulo 3 among -1, 0 and 1.
pub open spec fn freeze_spec(x: int) -> int {
    centered_residue(x, 3)
}

/// `x` rounded to the nearest multiple of 3.
pub open spec fn round_spec(x: int) -> int {
    x - freeze_spec(x)
}

/// The coefficients of `a`, each rounded to the nearest multiple of 3.
pub open spec fn rounded(a: Seq<int>) -> Seq<int> {
    Seq::new(a.len(), |i: int| round_spec(a[i]))
}

/// A rounded value is a multiple of 3 at a distance of at most 1, and
/// rounding a centered representative modulo `Q` gives one again, as the
/// greatest of them is a multiple of 3.
pub proof fn lemma_round(x: int)
    ensures
        round_spec(x) % 3 == 0,
        -1 <= x - round_spec(x) <= 1,
        is_centered(x, Q as int) ==> is_centered(round_spec(x), Q as int),
{
    lemma_centered_residue(x, 3);
}

/// Reduces `x` to its representative modulo 3 among -1, 0 and 1.
pub fn freeze(x: i16) -> (r: i8)
    ensures
        r as int == freeze_spec(x as int),
        -1 <= r <= 1,
{
    let low: u32 = i32_mod_u14(x as i32 + 1, 3);
    (low as i8) - 1
}

/// Rounds every coefficient of `a` to the nearest multiple of 3, in place.
/// The least `i16` has no rounded value in `i16`, so it may not occur.
pub fn round(a: &mut [i16; P])
    requires
        forall|i: int| 0 <= i < P ==> old(a)@[i] > i16::MIN,
    ensures
        forall|i: int| 0 <= i < P ==> final(a)@[i] as int == round_spec(old(a)@[i] as int),
{
    let mut i: usize = 0;
    while i < P
        invariant
            0 <= i <= P,
            forall|k: int| 0 <= k < i ==> a@[k] as int == round_spec(old(a)@[k] as int),
            forall|k: int| i <= k < P ==> a@[k] == old(a)@[k],
            forall|k: int| 0 <= k < P ==> old(a)@[k] > i16::MIN,
        decreases P - i,
    {
        let x: i16 = a[i];
        let f: i8 = freeze(x);
        proof {
            lemma_centered_residue(x as int, 3);
        }
        a[i] = x - (f as i16);
        i += 1;
    }
}

} // verus!
