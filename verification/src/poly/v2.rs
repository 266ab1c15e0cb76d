//! Polynomials with a fixed number of coefficients, multiplied in the ring
//! `Z_3[x]/(x^SIZE - x - 1)`.

use vstd::prelude::*;
use crate::math::modular::centered_residue;
use crate::math::modular::is_centered;
use crate::math::modular::lemma_centered_residue_is;
use crate::math::modular::lemma_congruent_multiple;
use crate::math::nums::lemma_shr15;
use crate::poly::r3::is_small;
use crate::poly::r3::lemma_ring_product_3_one;
use crate::poly::r3::ring_product_3;
use crate::poly::ring::multiply_in_ring;
use crate::poly::ring::ring_one;
use crate::poly::series::lemma_ring_coeff_commutes;
use crate::poly::traits::in_range;
use crate::poly::traits::ints;
use crate::poly::traits::to_i32;
use crate::poly::traits::Coeff;

verus! {

/// Greatest magnitude of a value that the reduction modulo 3 accepts: beyond
/// it the product with the rounded reciprocal of 3 leaves the range of
/// `i32`.
pub const FREEZE_BOUND: i32 = 196_602;

/// A polynomial of `SIZE` coefficients: coefficient `i` belongs to `x^i`.
#[derive(Debug)]
pub struct PolyInt<N, const SIZE: usize> {
    pub coeffs: [N; SIZE],
}

impl<N: Coeff, const SIZE: usize> View for PolyInt<N, SIZE> {
    type V = Seq<int>;

    open spec fn view(&self) -> Seq<int> {
        ints(self.coeffs@)
    }
}

impl<N: Coeff, const SIZE: usize> PartialEq for PolyInt<N, SIZE> {
    /// Whether the two polynomials have the same coefficients.
    fn eq(&self, other: &Self) -> (r: bool) {
        let mut i: usize = 0;
        while i < SIZE
            invariant
                0 <= i <= SIZE,
                forall|k: int| 0 <= k < i ==> self@[k] == other@[k],
            decreases SIZE - i,
        {
            if self.coeffs[i].to_i128() != other.coeffs[i].to_i128() {
                assert(self@[i as int] != other@[i as int]);
                return false;
            }
            i += 1;
        }
        assert(self@ =~= other@);
        true
    }
}

impl<N: Coeff, const SIZE: usize> vstd::std_specs::cmp::PartialEqSpecImpl for PolyInt<N, SIZE> {
    open spec fn obeys_eq_spec() -> bool {
        true
    }

    open spec fn eq_spec(&self, other: &Self) -> bool {
        self@ == other@
    }
}

/// The operands `a` and `b` of a product can be multiplied: each
/// coefficient has a value in `i32`, and each product of a coefficient of
/// `a` and one of `b`, with a carry of -1, 0 or 1 added, is accepted by the
/// reduction modulo 3.
pub open spec fn can_multiply(a: Seq<int>, b: Seq<int>) -> bool {
    &&& forall|j: int| 0 <= j < a.len() ==> i32::MIN <= #[trigger] a[j] <= i32::MAX
    &&& forall|k: int| 0 <= k < b.len() ==> i32::MIN <= #[trigger] b[k] <= i32::MAX
    &&& forall|j: int, k: int|
        0 <= j < a.len() && 0 <= k < b.len() ==> -FREEZE_BOUND < #[trigger] a[j] * #[trigger] b[k]
            < FREEZE_BOUND
}

/// Shifting right by 28 bits divides by `2^28`, rounding down.
proof fn lemma_shr28(v: i32)
    by (bit_vector)
    ensures
        v >> 28 == v / 0x1000_0000,
{
}

/// Multiplying a polynomial with coefficients -1, 0 and 1 by the identity
/// of the ring, on either side, gives the polynomial back, and both
/// products can be taken.
pub proof fn lemma_mult_poly_one(a: Seq<int>)
    requires
        a.len() >= 1,
        is_small(a),
    ensures
        can_multiply(a, ring_one(a.len())),
        can_multiply(ring_one(a.len()), a),
        ring_product_3(a, ring_one(a.len())) == a,
        ring_product_3(ring_one(a.len()), a) == a,
{
    let e: Seq<int> = ring_one(a.len());
    lemma_ring_product_3_one(a);
    assert forall|j: int, k: int| 0 <= j < a.len() && 0 <= k < e.len() implies -FREEZE_BOUND
        < #[trigger] a[j] * #[trigger] e[k] < FREEZE_BOUND && -FREEZE_BOUND < e[k] * a[j]
        < FREEZE_BOUND by {
        assert(-1 <= a[j] <= 1);
        assert(-1 <= a[j] * e[k] <= 1 && -1 <= e[k] * a[j] <= 1) by (nonlinear_arith)
            requires
                -1 <= a[j] <= 1,
                0 <= e[k] <= 1,
        ;
    }
    assert forall|j: int| 0 <= j < a.len() implies i32::MIN <= #[trigger] a[j] <= i32::MAX by {
        assert(-1 <= a[j] <= 1);
    }
    assert(can_multiply(e, a)) by {
        assert forall|j: int, k: int| 0 <= j < e.len() && 0 <= k < a.len() implies -FREEZE_BOUND
            < #[trigger] e[j] * #[trigger] a[k] < FREEZE_BOUND by {
            assert(-FREEZE_BOUND < a[k] * e[j] < FREEZE_BOUND);
            assert(e[j] * a[k] == a[k] * e[j]) by (nonlinear_arith);
        }
    }
    assert forall|k: int| 0 <= k < a.len() implies ring_product_3(e, a)[k] == ring_product_3(
        a,
        e,
    )[k] by {
        lemma_ring_coeff_commutes(e, a, k);
    }
    assert(ring_product_3(e, a) =~= ring_product_3(a, e));
}

impl<N: Coeff, const SIZE: usize> PolyInt<N, SIZE> {
    /// The polynomial with the coefficients `coeffs`.
    pub fn from(coeffs: [N; SIZE]) -> (r: Self)
        ensures
            r.coeffs == coeffs,
    {
        Self { coeffs }
    }

    /// The zero polynomial.
    pub fn new() -> (r: Self)
        ensures
            forall|i: int| 0 <= i < SIZE ==> r@[i] == 0,
    {
        proof {
            N::lemma_range(arbitrary());
        }
        let zero: N = N::from_i128(0);
        Self { coeffs: [zero; SIZE] }
    }

    /// The coefficients.
    #[inline]
    pub fn get_coeffs(&self) -> (r: &[N; SIZE])
        ensures
            *r == self.coeffs,
    {
        &self.coeffs
    }

    /// The number of coefficients.
    #[inline]
    pub fn len(&self) -> (r: usize)
        ensures
            r == SIZE,
    {
        self.coeffs.len()
    }

    /// Whether every coefficient is zero.
    pub fn equals_zero(&self) -> (r: bool)
        ensures
            r <==> forall|i: int| 0 <= i < SIZE ==> self@[i] == 0,
    {
        let mut i: usize = 0;
        while i < SIZE
            invariant
                0 <= i <= SIZE,
                forall|k: int| 0 <= k < i ==> self@[k] == 0,
            decreases SIZE - i,
        {
            if self.coeffs[i].to_i128() != 0 {
                assert(self@[i as int] != 0);
                return false;
            }
            i += 1;
        }
        true
    }

    /// Whether every coefficient is -1, 0 or 1.
    pub fn is_small(&self) -> (r: bool)
        ensures
            r <==> forall|i: int| 0 <= i < SIZE ==> -1 <= #[trigger] self@[i] <= 1,
    {
        let mut small: bool = true;
        let mut i: usize = 0;
        while i < SIZE
            invariant
                0 <= i <= SIZE,
                small <==> forall|k: int| 0 <= k < i ==> -1 <= #[trigger] self@[k] <= 1,
            decreases SIZE - i,
        {
            let value: i128 = self.coeffs[i].to_i128();
            if !(value <= 1 && value >= -1) {
                assert(!(-1 <= self@[i as int] <= 1));
                small = false;
            }
            i += 1;
        }
        small
    }

    /// Sets `self` to the product of `a` and `b` in the ring modulo 3.
    pub fn mult_poly(&mut self, a: &PolyInt<N, SIZE>, b: &PolyInt<N, SIZE>)
        requires
            1 <= SIZE,
            2 * SIZE <= usize::MAX,
            in_range::<N>(-1),
            can_multiply(a@, b@),
        ensures
            final(self)@ == ring_product_3(a@, b@),
    {
        let left: &[N] = a.coeffs.as_slice();
        let right: &[N] = b.coeffs.as_slice();
        let step = |r: N, f: N, g: N| -> (x: N)
            requires
                in_range::<N>(-1),
                -1 <= r.as_int() <= 1,
                i32::MIN <= f.as_int() <= i32::MAX,
                i32::MIN <= g.as_int() <= i32::MAX,
                -FREEZE_BOUND < f.as_int() * g.as_int() < FREEZE_BOUND,
            ensures
                x.as_int() == centered_residue(r.as_int() + f.as_int() * g.as_int(), 3),
            { a.plus(r, f, g) };
        proof {
            assert forall|r: N, j: int, k: int|
                is_centered(r.as_int(), 3) && 0 <= j < left@.len() && 0 <= k < right@.len()
                implies #[trigger] step.requires((r, left@[j], right@[k])) by {
                assert(a@[j] == left@[j].as_int());
                assert(b@[k] == right@[k].as_int());
                assert(-FREEZE_BOUND < a@[j] * b@[k] < FREEZE_BOUND);
            }
            assert forall|r: N, s: N, one: N|
                is_centered(r.as_int(), 3) && is_centered(s.as_int(), 3) && one.as_int() == 1
                implies #[trigger] step.requires((r, s, one)) by {
                assert(s.as_int() * one.as_int() == s.as_int()) by (nonlinear_arith)
                    requires
                        one.as_int() == 1,
                ;
            }
        }
        let product: Vec<N> = multiply_in_ring(left, right, step, Ghost(3int));
        let mut k: usize = 0;
        while k < SIZE
            invariant
                0 <= k <= SIZE,
                product@.len() == SIZE,
                forall|m: int| 0 <= m < k ==> self.coeffs@[m] == product@[m],
            decreases SIZE - k,
        {
            self.coeffs[k] = product[k];
            k += 1;
        }
        assert forall|m: int| 0 <= m < SIZE implies self@[m] == ring_product_3(a@, b@)[m] by {
            assert(self.coeffs@[m] == product@[m]);
            assert(self@[m] == ints(product@)[m]);
        }
        assert(self@ =~= ring_product_3(a@, b@));
    }

    /// Multiplies every coefficient by `n`.
    pub fn mult_int(&mut self, n: N)
        requires
            forall|i: int| 0 <= i < SIZE ==> in_range::<N>(#[trigger] old(self)@[i] * n.as_int()),
        ensures
            forall|i: int| 0 <= i < SIZE ==> final(self)@[i] == old(self)@[i] * n.as_int(),
    {
        let mut i: usize = 0;
        while i < SIZE
            invariant
                0 <= i <= SIZE,
                forall|k: int|
                    0 <= k < i ==> (#[trigger] self.coeffs@[k]).as_int() == old(self)@[k]
                        * n.as_int(),
                forall|k: int| i <= k < SIZE ==> self.coeffs@[k] == old(self).coeffs@[k],
                forall|k: int|
                    0 <= k < SIZE ==> in_range::<N>(#[trigger] old(self)@[k] * n.as_int()),
            decreases SIZE - i,
        {
            proof {
                N::lemma_range(n);
                assert(in_range::<N>(old(self)@[i as int] * n.as_int()));
            }
            let product: i128 = self.coeffs[i].to_i128() * n.to_i128();
            self.coeffs[i] = N::from_i128(product);
            i += 1;
        }
    }

    /// `a + b * c`, reduced modulo 3.
    fn plus(&self, a: N, b: N, c: N) -> (r: N)
        requires
            in_range::<N>(-1),
            -1 <= a.as_int() <= 1,
            i32::MIN <= b.as_int() <= i32::MAX,
            i32::MIN <= c.as_int() <= i32::MAX,
            -FREEZE_BOUND < b.as_int() * c.as_int() < FREEZE_BOUND,
        ensures
            r.as_int() == centered_residue(a.as_int() + b.as_int() * c.as_int(), 3),
    {
        let a32: i32 = to_i32(a).unwrap();
        let b32: i32 = to_i32(b).unwrap();
        let c32: i32 = to_i32(c).unwrap();
        self.freeze(a32 + b32 * c32)
    }

    /// The representative of `value` modulo 3 among -1, 0 and 1, by two
    /// multiplications with rounded reciprocals of 3.
    fn freeze(&self, value: i32) -> (r: N)
        requires
            in_range::<N>(-1),
            -FREEZE_BOUND <= value <= FREEZE_BOUND,
        ensures
            r.as_int() == centered_residue(value as int, 3),
    {
        let scaled: i32 = 10923 * value;
        proof {
            lemma_shr15(scaled);
        }
        let bs: i32 = value - 3 * (scaled >> 15);
        let rounded: i32 = 89_478_485 * bs + 134_217_728;
        proof {
            lemma_shr28(rounded);
        }
        let bc: i32 = bs - 3 * (rounded >> 28);
        proof {
            N::lemma_range(arbitrary());
            lemma_congruent_multiple(
                bc as int,
                value as int,
                -((scaled >> 15) + (rounded >> 28)),
                3,
            );
            lemma_centered_residue_is(bc as int, value as int, 3);
        }
        N::from_i128(bc as i128)
    }
}

} // verus!
