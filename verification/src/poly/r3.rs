//! Elements of the ring `Z_3[x]/(x^P - x - 1)`.

use vstd::prelude::*;
use crate::math::modular::lemma_centered_residue;
use crate::math::nums::as_ints;
use crate::params::params761::P;
use crate::poly::f3;
use crate::poly::ring::lemma_ring_product_one;
use crate::poly::ring::multiply_in_ring;
use crate::poly::ring::ring_coeff;
use crate::poly::ring::ring_one;
use crate::poly::ring::ring_product;
use crate::poly::traits::ints;

verus! {

/// An element of `Z_3[x]/(x^P - x - 1)`: coefficient `i` belongs to `x^i`.
pub struct R3 {
    pub coeffs: [i8; P],
}

impl View for R3 {
    type V = Seq<int>;

    open spec fn view(&self) -> Seq<int> {
        as_ints(self.coeffs@)
    }
}

/// Every coefficient of `a` is -1, 0 or 1.
pub open spec fn is_small(a: Seq<int>) -> bool {
    forall|i: int| 0 <= i < a.len() ==> -1 <= #[trigger] a[i] <= 1
}

/// The product of `a` and `b` in `Z_3[x]/(x^n - x - 1)`, with coefficients
/// -1, 0 and 1.
pub open spec fn ring_product_3(a: Seq<int>, b: Seq<int>) -> Seq<int> {
    Seq::new(a.len(), |k: int| f3::freeze_spec(ring_coeff(a, b, k)))
}

impl R3 {
    /// Every coefficient is -1, 0 or 1.
    pub open spec fn is_reduced(&self) -> bool {
        is_small(self@)
    }

    /// The element with the coefficients `coeffs`.
    pub fn from(coeffs: [i8; P]) -> (r: Self)
        ensures
            r.coeffs == coeffs,
    {
        R3 { coeffs }
    }

    /// The product of `self` and `other` in the ring.
    pub fn mult(&self, other: &R3) -> (r: R3)
        ensures
            r@ == ring_product_3(self@, other@),
            r.is_reduced(),
    {
        let a: &[i8] = self.coeffs.as_slice();
        let b: &[i8] = other.coeffs.as_slice();
        proof {
            assert(ints(a@) =~= self@);
            assert(ints(b@) =~= other@);
        }
        let product: Vec<i8> = multiply_in_ring(a, b, multiply_add, Ghost(3int));
        let mut out: [i8; P] = [0i8; P];
        let mut k: usize = 0;
        while k < P
            invariant
                0 <= k <= P,
                product@.len() == P,
                forall|i: int| 0 <= i < k ==> out@[i] == product@[i],
            decreases P - k,
        {
            out[k] = product[k];
            k += 1;
        }
        let r: R3 = R3::from(out);
        proof {
            assert forall|i: int| 0 <= i < P implies r@[i] == ring_product_3(self@, other@)[i]
                && -1 <= #[trigger] r@[i] <= 1 by {
                assert(r@[i] == ints(product@)[i]);
                lemma_centered_residue(ring_coeff(self@, other@, i), 3);
            }
            assert(r@ =~= ring_product_3(self@, other@));
        }
        r
    }
}

/// Multiplying by the identity of the ring gives the element back with its
/// coefficients reduced, and unchanged where they were -1, 0 or 1 already.
pub proof fn lemma_ring_product_3_one(a: Seq<int>)
    requires
        a.len() > 0,
    ensures
        ring_product_3(a, ring_one(a.len())) == Seq::new(a.len(), |k: int| f3::freeze_spec(a[k])),
        is_small(a) ==> ring_product_3(a, ring_one(a.len())) == a,
{
    lemma_ring_product_one(a);
    let e: Seq<int> = ring_one(a.len());
    let reduced: Seq<int> = Seq::new(a.len(), |k: int| f3::freeze_spec(a[k]));
    assert forall|k: int| 0 <= k < a.len() implies ring_product_3(a, e)[k] == reduced[k] by {
        assert(ring_product(a, e)[k] == ring_coeff(a, e, k));
    }
    assert(ring_product_3(a, e) =~= reduced);
    if is_small(a) {
        assert forall|k: int| 0 <= k < a.len() implies reduced[k] == a[k] by {
            assert(-1 <= a[k] <= 1);
        }
        assert(reduced =~= a);
    }
}

/// `r + f * g`, reduced modulo 3.
fn multiply_add(r: i8, f: i8, g: i8) -> (x: i8)
    requires
        -1 <= r <= 1,
    ensures
        x as int == f3::freeze_spec(r + f * g),
        -1 <= x <= 1,
{
    assert(-16384 <= (f as int) * (g as int) <= 16384) by (nonlinear_arith)
        requires
            -128 <= f <= 127,
            -128 <= g <= 127,
    ;
    f3::freeze(r as i16 + (f as i16) * (g as i16))
}

} // verus!
