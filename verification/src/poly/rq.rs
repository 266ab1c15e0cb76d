//! Elements of the ring `Z_Q[x]/(x^P - x - 1)`.

use vstd::prelude::*;
use crate::math::modular::is_centered;
use crate::math::modular::lemma_centered_residue;
use crate::params::params761::P;
use crate::params::params761::Q;
use crate::poly::f3;
use crate::poly::fq;
use crate::poly::r3::R3;
use crate::math::modular::lemma_centered_residue_is;
use crate::math::modular::lemma_congruent_refl;
use crate::poly::ring::lemma_ring_product_one;
use crate::poly::ring::multiply_in_ring;
use crate::poly::ring::ring_coeff;
use crate::poly::ring::ring_one;
use crate::poly::ring::ring_product;
use crate::poly::traits::ints;

verus! {

/// An element of `Z_Q[x]/(x^P - x - 1)`: coefficient `i` belongs to `x^i`.
pub struct Rq {
    pub coeffs: [i16; P],
}

impl View for Rq {
    type V = Seq<int>;

    open spec fn view(&self) -> Seq<int> {
        Seq::new(P as nat, |i: int| self.coeffs@[i] as int)
    }
}

/// Every coefficient of `a` is a centered representative modulo `Q`.
pub open spec fn is_centered_q(a: Seq<int>) -> bool {
    forall|i: int| 0 <= i < a.len() ==> is_centered(#[trigger] a[i], Q as int)
}

/// The product of `a` and `b` in `Z_Q[x]/(x^n - x - 1)`, with centered
/// coefficients.
pub open spec fn ring_product_q(a: Seq<int>, b: Seq<int>) -> Seq<int> {
    Seq::new(a.len(), |k: int| fq::freeze_spec(ring_coeff(a, b, k)))
}

/// The coefficients of `a` reduced modulo 3 to -1, 0 and 1.
pub open spec fn reduced_3(a: Seq<int>) -> Seq<int> {
    Seq::new(a.len(), |i: int| f3::freeze_spec(a[i]))
}

/// The coefficients of `a` times `n`, reduced modulo `Q`.
pub open spec fn scaled_q(a: Seq<int>, n: int) -> Seq<int> {
    Seq::new(a.len(), |i: int| fq::freeze_spec(n * a[i]))
}

/// Multiplying by the identity of the ring gives the element back with its
/// coefficients reduced, and unchanged where they were centered already.
pub proof fn lemma_ring_product_q_one(a: Seq<int>)
    requires
        a.len() > 0,
    ensures
        ring_product_q(a, ring_one(a.len())) == scaled_q(a, 1),
        is_centered_q(a) ==> ring_product_q(a, ring_one(a.len())) == a,
{
    lemma_ring_product_one(a);
    let e: Seq<int> = ring_one(a.len());
    assert forall|k: int| 0 <= k < a.len() implies ring_product_q(a, e)[k] == scaled_q(a, 1)[k] by {
        assert(ring_product(a, e)[k] == ring_coeff(a, e, k));
    }
    assert(ring_product_q(a, e) =~= scaled_q(a, 1));
    if is_centered_q(a) {
        assert forall|k: int| 0 <= k < a.len() implies scaled_q(a, 1)[k] == a[k] by {
            assert(is_centered(a[k], Q as int));
            lemma_congruent_refl(a[k], Q as int);
            lemma_centered_residue_is(a[k], a[k], Q as int);
        }
        assert(scaled_q(a, 1) =~= a);
    }
}

/// `r + f * g`, reduced modulo `Q`.
fn multiply_add(r: i16, f: i16, g: i8) -> (x: i16)
    ensures
        x as int == fq::freeze_spec(r + f * g),
{
    assert(-0x40_0000 <= (f as int) * (g as int) <= 0x40_0000) by (nonlinear_arith)
        requires
            -0x8000 <= f <= 0x7fff,
            -128 <= g <= 127,
    ;
    fq::freeze(r as i32 + (f as i32) * (g as i32))
}

impl Rq {
    /// Every coefficient is a centered representative modulo `Q`.
    pub open spec fn is_reduced(&self) -> bool {
        is_centered_q(self@)
    }

    /// The element with the coefficients `coeffs`.
    pub fn from(coeffs: [i16; P]) -> (r: Self)
        ensures
            r.coeffs == coeffs,
    {
        Rq { coeffs }
    }

    /// The product of `self` and the small element `other` in the ring.
    pub fn mult_r3(&self, other: &R3) -> (r: Rq)
        ensures
            r@ == ring_product_q(self@, other@),
            r.is_reduced(),
    {
        let a: &[i16] = self.coeffs.as_slice();
        let b: &[i8] = other.coeffs.as_slice();
        proof {
            assert(ints(a@) =~= self@);
            assert(ints(b@) =~= other@);
        }
        let product: Vec<i16> = multiply_in_ring(a, b, multiply_add, Ghost(Q as int));
        let mut out: [i16; P] = [0i16; P];
        let mut k: usize = 0;
        while k < P
            invariant
                0 <= k <= P,
                product@.len() == P,
                forall|i: int| 0 <= i < k ==> out@[i] == product@[i],
            decreases P - k,
        {
            out[k] = product[k];
            k += 1;
        }
        let r: Rq = Rq::from(out);
        proof {
            assert forall|i: int| 0 <= i < P implies r@[i] == ring_product_q(self@, other@)[i]
                && is_centered(#[trigger] r@[i], Q as int) by {
                assert(r@[i] == ints(product@)[i]);
                lemma_centered_residue(ring_coeff(self@, other@, i), Q as int);
            }
            assert(r@ =~= ring_product_q(self@, other@));
        }
        r
    }

    /// The element with every coefficient multiplied by 3 and reduced modulo
    /// `Q`.
    pub fn mult3(&self) -> (r: Rq)
        ensures
            r@ == scaled_q(self@, 3),
            r.is_reduced(),
    {
        let mut out: [i16; P] = [0i16; P];
        let mut i: usize = 0;
        while i < P
            invariant
                0 <= i <= P,
                forall|k: int|
                    0 <= k < i ==> out@[k] as int == fq::freeze_spec(3 * (self.coeffs@[k] as int)),
            decreases P - i,
        {
            out[i] = fq::freeze(3 * (self.coeffs[i] as i32));
            i += 1;
        }
        let r: Rq = Rq::from(out);
        proof {
            assert forall|m: int| 0 <= m < P implies is_centered(#[trigger] r@[m], Q as int) by {
                lemma_centered_residue(3 * self@[m], Q as int);
            }
            assert(r@ =~= scaled_q(self@, 3));
        }
        r
    }

    /// The element of the ring modulo 3 with each coefficient reduced to -1,
    /// 0 or 1.
    pub fn r3_from_rq(&self) -> (r: R3)
        ensures
            r@ == reduced_3(self@),
            r.is_reduced(),
    {
        let mut out: [i8; P] = [0i8; P];
        let mut i: usize = 0;
        while i < P
            invariant
                0 <= i <= P,
                forall|k: int|
                    0 <= k < i ==> out@[k] as int == f3::freeze_spec(self.coeffs@[k] as int),
            decreases P - i,
        {
            out[i] = f3::freeze(self.coeffs[i]);
            i += 1;
        }
        let r: R3 = R3::from(out);
        proof {
            assert forall|m: int| 0 <= m < P implies -1 <= #[trigger] r@[m] <= 1 by {
                lemma_centered_residue(self@[m], 3);
            }
            assert(r@ =~= reduced_3(self@));
        }
        r
    }
}

} // verus!
