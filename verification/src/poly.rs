//! Polynomials over the integers and over the rings of the scheme.
//!
//! `PolyInt` is a polynomial with any number of coefficients of a machine
//! integer type; its arithmetic is that of the integers, and the caller
//! reduces where a modulus applies.

use vstd::prelude::*;
use vstd::relations::sorted_by;
use vstd::relations::total_ordering;
use vstd::seq_lib::lemma_sorted_unique;
use vstd::seq_lib::to_multiset_build;
use vstd::seq_lib::to_multiset_insert;
use vstd::string::StringExecFns;
use crate::poly::ring::conv_sum;
use crate::poly::ring::conv_term;
use crate::poly::ring::product;
use crate::poly::series::is_series_inverse;
use crate::poly::series::lemma_newton_inverse;
use crate::poly::traits::in_range;
use crate::poly::traits::ints;
use crate::poly::traits::rem_euclid;
use crate::poly::traits::rem_euclid_defined;
use crate::poly::traits::Coeff;

pub mod f3;
pub mod fq;
pub mod poly;
pub mod r3;
pub mod ring;
pub mod rq;
pub mod series;
pub mod traits;
pub mod v2;

verus! {

/// A polynomial: coefficient `i` belongs to `x^i`.
#[derive(Clone, Debug)]
pub struct PolyInt<T> {
    pub coeffs: Vec<T>,
}

impl<T: Coeff> View for PolyInt<T> {
    type V = Seq<int>;

    open spec fn view(&self) -> Seq<int> {
        ints(self.coeffs@)
    }
}

/// `a` with the coefficients of `b` added, as far as both reach.
pub open spec fn sum(a: Seq<int>, b: Seq<int>) -> Seq<int> {
    Seq::new(
        a.len(),
        |i: int|
            if i < b.len() {
                a[i] + b[i]
            } else {
                a[i]
            },
    )
}

/// `a` with the coefficients of `b` subtracted, as far as both reach.
pub open spec fn difference(a: Seq<int>, b: Seq<int>) -> Seq<int> {
    Seq::new(
        a.len(),
        |i: int|
            if i < b.len() {
                a[i] - b[i]
            } else {
                a[i]
            },
    )
}

/// `a` with every coefficient multiplied by `n`.
pub open spec fn scaled(a: Seq<int>, n: int) -> Seq<int> {
    Seq::new(a.len(), |i: int| a[i] * n)
}

/// `a` with every coefficient replaced by its least remainder by `m` that is
/// not negative.
pub open spec fn residues(a: Seq<int>, m: int) -> Seq<int> {
    Seq::new(a.len(), |i: int| a[i] % m)
}

/// Every value of `a` is a value of `T`.
pub open spec fn all_in_range<T: Coeff>(a: Seq<int>) -> bool {
    forall|i: int| 0 <= i < a.len() ==> in_range::<T>(#[trigger] a[i])
}

/// Every coefficient of `a` has a remainder by `m`.
pub open spec fn residues_defined<T: Coeff>(a: Seq<int>, m: int) -> bool {
    forall|i: int| 0 <= i < a.len() ==> rem_euclid_defined::<T>(#[trigger] a[i], m)
}

/// The product of `a` and `b` can be summed in `T` term by term: each
/// product of two coefficients is a value of `T`, and so is each sum of the
/// terms of one coefficient of the product, taken in the order of the
/// coefficients of `a`.
pub open spec fn product_fits<T: Coeff>(a: Seq<int>, b: Seq<int>) -> bool {
    forall|i: int, j: int|
        0 <= i < a.len() && 0 <= j < b.len() ==> #[trigger] term_fits::<T>(a, b, i, j)
}

/// The product of `a[i]` and `b[j]` is a value of `T`, and so is the sum of
/// the terms of coefficient `i + j` of the product up to this one.
pub open spec fn term_fits<T: Coeff>(a: Seq<int>, b: Seq<int>, i: int, j: int) -> bool {
    in_range::<T>(a[i] * b[j]) && in_range::<T>(conv_sum(a, b, i + j, (i + 1) as nat))
}

impl<T: Coeff> PolyInt<T> {
    /// The polynomial without coefficients.
    pub fn empty() -> (r: Self)
        ensures
            r@.len() == 0,
    {
        let coeffs: Vec<T> = Vec::new();
        PolyInt { coeffs }
    }

    /// The polynomial with the coefficients `coeffs`.
    pub fn from(coeffs: &[T]) -> (r: Self)
        ensures
            r.coeffs@ == coeffs@,
    {
        let mut copy: Vec<T> = Vec::new();
        let mut i: usize = 0;
        while i < coeffs.len()
            invariant
                0 <= i <= coeffs@.len(),
                copy@ == coeffs@.subrange(0, i as int),
            decreases coeffs@.len() - i,
        {
            copy.push(coeffs[i]);
            i += 1;
        }
        assert(coeffs@.subrange(0, coeffs@.len() as int) =~= coeffs@);
        PolyInt { coeffs: copy }
    }

    /// The polynomial of `n` coefficients that are zero.
    pub fn from_zero(n: usize) -> (r: Self)
        ensures
            r@.len() == n,
            forall|i: int| 0 <= i < n ==> r@[i] == 0,
    {
        proof {
            T::lemma_range(arbitrary());
        }
        let zero: T = T::from_i128(0);
        let mut coeffs: Vec<T> = Vec::new();
        let mut i: usize = 0;
        while i < n
            invariant
                0 <= i <= n,
                coeffs@.len() == i,
                zero.as_int() == 0,
                forall|k: int| 0 <= k < i ==> (#[trigger] coeffs@[k]).as_int() == 0,
            decreases n - i,
        {
            coeffs.push(zero);
            i += 1;
        }
        PolyInt { coeffs }
    }

    /// A copy of the polynomial.
    fn duplicate(&self) -> (r: Self)
        ensures
            r.coeffs@ == self.coeffs@,
    {
        PolyInt::from(self.coeffs.as_slice())
    }

    /// Whether every coefficient is -1, 0 or 1.
    pub fn is_small(&self) -> (r: bool)
        ensures
            r <==> forall|i: int| 0 <= i < self@.len() ==> -1 <= #[trigger] self@[i] <= 1,
    {
        let mut small: bool = true;
        let mut i: usize = 0;
        while i < self.coeffs.len()
            invariant
                0 <= i <= self@.len(),
                small <==> forall|k: int| 0 <= k < i ==> -1 <= #[trigger] self@[k] <= 1,
            decreases self@.len() - i,
        {
            let value: i128 = self.coeffs[i].to_i128();
            if !(value <= 1 && value >= -1) {
                assert(!(-1 <= self@[i as int] <= 1));
                small = false;
            }
            i += 1;
        }
        small
    }

    /// Whether every coefficient is zero.
    pub fn equals_zero(&self) -> (r: bool)
        ensures
            r <==> forall|i: int| 0 <= i < self@.len() ==> self@[i] == 0,
    {
        let mut i: usize = 0;
        while i < self.coeffs.len()
            invariant
                0 <= i <= self@.len(),
                forall|k: int| 0 <= k < i ==> self@[k] == 0,
            decreases self@.len() - i,
        {
            if self.coeffs[i].to_i128() != 0 {
                assert(self@[i as int] != 0);
                return false;
            }
            i += 1;
        }
        true
    }

    /// Replaces every coefficient by its least remainder by `modulus` that
    /// is not negative, and returns a copy of the result.
    pub fn mod_poly(&mut self, modulus: T) -> (r: Self)
        requires
            residues_defined::<T>(old(self)@, modulus.as_int()),
        ensures
            final(self)@ == residues(old(self)@, modulus.as_int()),
            r.coeffs@ == final(self).coeffs@,
    {
        let mut i: usize = 0;
        while i < self.coeffs.len()
            invariant
                0 <= i <= self@.len(),
                self@.len() == old(self)@.len(),
                residues_defined::<T>(old(self)@, modulus.as_int()),
                forall|k: int|
                    0 <= k < i ==> (#[trigger] self.coeffs@[k]).as_int() == old(self)@[k]
                        % modulus.as_int(),
                forall|k: int| i <= k < self@.len() ==> self.coeffs@[k] == old(self).coeffs@[k],
            decreases self@.len() - i,
        {
            assert(rem_euclid_defined::<T>(old(self)@[i as int], modulus.as_int()));
            let reduced: T = rem_euclid(self.coeffs[i], modulus);
            self.coeffs[i] = reduced;
            i += 1;
        }
        assert(self@ =~= residues(old(self)@, modulus.as_int()));
        self.duplicate()
    }

    /// Replaces every coefficient `c` by the least remainder of
    /// `c * factor` by `modulus` that is not negative.
    pub fn mult_mod(&mut self, factor: T, modulus: T)
        requires
            all_in_range::<T>(scaled(old(self)@, factor.as_int())),
            residues_defined::<T>(scaled(old(self)@, factor.as_int()), modulus.as_int()),
        ensures
            final(self)@ == residues(scaled(old(self)@, factor.as_int()), modulus.as_int()),
    {
        let ghost target: Seq<int> = scaled(old(self)@, factor.as_int());
        let mut i: usize = 0;
        while i < self.coeffs.len()
            invariant
                0 <= i <= self@.len(),
                self@.len() == old(self)@.len(),
                target == scaled(old(self)@, factor.as_int()),
                all_in_range::<T>(target),
                residues_defined::<T>(target, modulus.as_int()),
                forall|k: int|
                    0 <= k < i ==> (#[trigger] self.coeffs@[k]).as_int() == target[k]
                        % modulus.as_int(),
                forall|k: int| i <= k < self@.len() ==> self.coeffs@[k] == old(self).coeffs@[k],
            decreases self@.len() - i,
        {
            proof {
                T::lemma_range(factor);
                assert(in_range::<T>(target[i as int]));
                assert(rem_euclid_defined::<T>(target[i as int], modulus.as_int()));
            }
            let multiplied: T = T::from_i128(self.coeffs[i].to_i128() * factor.to_i128());
            let reduced: T = rem_euclid(multiplied, modulus);
            self.coeffs[i] = reduced;
            i += 1;
        }
        assert(self@ =~= residues(target, modulus.as_int()));
    }

    /// Subtracts the coefficients of `poly`, as far as both reach, and
    /// returns a copy of the result.
    pub fn sub_poly(&mut self, poly: &[T]) -> (r: Self)
        requires
            all_in_range::<T>(difference(old(self)@, ints(poly@))),
        ensures
            final(self)@ == difference(old(self)@, ints(poly@)),
            r.coeffs@ == final(self).coeffs@,
    {
        let ghost target: Seq<int> = difference(old(self)@, ints(poly@));
        let mut i: usize = 0;
        while i < self.coeffs.len() && i < poly.len()
            invariant
                0 <= i <= self@.len(),
                i <= poly@.len(),
                self@.len() == old(self)@.len(),
                target == difference(old(self)@, ints(poly@)),
                all_in_range::<T>(target),
                forall|k: int| 0 <= k < i ==> (#[trigger] self.coeffs@[k]).as_int() == target[k],
                forall|k: int| i <= k < self@.len() ==> self.coeffs@[k] == old(self).coeffs@[k],
            decreases self@.len() - i,
        {
            proof {
                T::lemma_range(poly@[i as int]);
                assert(in_range::<T>(target[i as int]));
            }
            let value: T = T::from_i128(self.coeffs[i].to_i128() - poly[i].to_i128());
            self.coeffs[i] = value;
            i += 1;
        }
        assert(self@ =~= target);
        self.duplicate()
    }

    /// Adds the coefficients of `poly`, as far as both reach, and returns a
    /// copy of the result.
    pub fn add_poly(&mut self, poly: &[T]) -> (r: Self)
        requires
            all_in_range::<T>(sum(old(self)@, ints(poly@))),
        ensures
            final(self)@ == sum(old(self)@, ints(poly@)),
            r.coeffs@ == final(self).coeffs@,
    {
        let ghost target: Seq<int> = sum(old(self)@, ints(poly@));
        let mut i: usize = 0;
        while i < self.coeffs.len() && i < poly.len()
            invariant
                0 <= i <= self@.len(),
                i <= poly@.len(),
                self@.len() == old(self)@.len(),
                target == sum(old(self)@, ints(poly@)),
                all_in_range::<T>(target),
                forall|k: int| 0 <= k < i ==> (#[trigger] self.coeffs@[k]).as_int() == target[k],
                forall|k: int| i <= k < self@.len() ==> self.coeffs@[k] == old(self).coeffs@[k],
            decreases self@.len() - i,
        {
            proof {
                T::lemma_range(poly@[i as int]);
                assert(in_range::<T>(target[i as int]));
            }
            let value: T = T::from_i128(self.coeffs[i].to_i128() + poly[i].to_i128());
            self.coeffs[i] = value;
            i += 1;
        }
        assert(self@ =~= target);
        self.duplicate()
    }

    /// Multiplies every coefficient by `n`, and returns a copy of the
    /// result.
    pub fn mult_int(&mut self, n: T) -> (r: Self)
        requires
            all_in_range::<T>(scaled(old(self)@, n.as_int())),
        ensures
            final(self)@ == scaled(old(self)@, n.as_int()),
            r.coeffs@ == final(self).coeffs@,
    {
        let ghost target: Seq<int> = scaled(old(self)@, n.as_int());
        let mut i: usize = 0;
        while i < self.coeffs.len()
            invariant
                0 <= i <= self@.len(),
                self@.len() == old(self)@.len(),
                target == scaled(old(self)@, n.as_int()),
                all_in_range::<T>(target),
                forall|k: int| 0 <= k < i ==> (#[trigger] self.coeffs@[k]).as_int() == target[k],
                forall|k: int| i <= k < self@.len() ==> self.coeffs@[k] == old(self).coeffs@[k],
            decreases self@.len() - i,
        {
            proof {
                T::lemma_range(n);
                assert(in_range::<T>(target[i as int]));
            }
            let value: T = T::from_i128(self.coeffs[i].to_i128() * n.to_i128());
            self.coeffs[i] = value;
            i += 1;
        }
        assert(self@ =~= target);
        self.duplicate()
    }

    /// Replaces the polynomial by its product with `poly` over the integers,
    /// of `self.len() + poly.len() - 1` coefficients, and returns a copy of
    /// the result. One of the two has a coefficient.
    pub fn mult_poly(&mut self, poly: &[T]) -> (r: Self)
        requires
            1 <= old(self)@.len() + poly@.len() <= usize::MAX,
            product_fits::<T>(old(self)@, ints(poly@)),
        ensures
            final(self)@ == product(old(self)@, ints(poly@)),
            r.coeffs@ == final(self).coeffs@,
    {
        let ghost a: Seq<int> = self@;
        let ghost b: Seq<int> = ints(poly@);
        let len_result: usize = self.coeffs.len() + poly.len() - 1;
        let mut result: PolyInt<T> = PolyInt::from_zero(len_result);
        assert forall|k: int| 0 <= k < len_result implies (#[trigger] result.coeffs@[k]).as_int()
            == 0 by {
            assert(result@[k] == 0);
        }
        let mut i: usize = 0;
        while i < self.coeffs.len()
            invariant
                0 <= i <= a.len(),
                a == self@,
                b == ints(poly@),
                len_result == a.len() + b.len() - 1,
                result@.len() == len_result,
                product_fits::<T>(a, b),
                forall|k: int|
                    0 <= k < len_result ==> (#[trigger] result.coeffs@[k]).as_int() == conv_sum(
                        a,
                        b,
                        k,
                        i as nat,
                    ),
            decreases a.len() - i,
        {
            let c1: T = self.coeffs[i];
            let mut j: usize = 0;
            while j < poly.len()
                invariant
                    0 <= j <= b.len(),
                    0 <= i < a.len(),
                    a == self@,
                    b == ints(poly@),
                    c1 == self.coeffs@[i as int],
                    len_result == a.len() + b.len() - 1,
                    result@.len() == len_result,
                    product_fits::<T>(a, b),
                    forall|k: int|
                        0 <= k < len_result ==> (#[trigger] result.coeffs@[k]).as_int() == (if i
                            <= k < i + j {
                            conv_sum(a, b, k, (i + 1) as nat)
                        } else {
                            conv_sum(a, b, k, i as nat)
                        }),
                decreases b.len() - j,
            {
                proof {
                    T::lemma_range(c1);
                    assert(term_fits::<T>(a, b, i as int, j as int));
                    assert(conv_term(a, b, i + j, i as int) == a[i as int] * b[j as int]);
                    assert(a[i as int] == c1.as_int());
                    assert(b[j as int] == poly@[j as int].as_int());
                    assert(result.coeffs@[i + j].as_int() == conv_sum(a, b, i + j, i as nat));
                }
                let term: T = T::from_i128(c1.to_i128() * poly[j].to_i128());
                let total: T = T::from_i128(result.coeffs[i + j].to_i128() + term.to_i128());
                result.coeffs[i + j] = total;
                j += 1;
            }
            proof {
                assert forall|k: int| 0 <= k < len_result implies (
                #[trigger] result.coeffs@[k]).as_int() == conv_sum(a, b, k, (i + 1) as nat) by {
                    if !(i <= k < i + b.len()) {
                        assert(conv_term(a, b, k, i as int) == 0);
                    }
                }
            }
            i += 1;
        }
        self.coeffs = result.coeffs;
        assert(self@ =~= product(a, b));
        self.duplicate()
    }

    /// Multiplies the polynomial by the inverse of `x` in the ring of
    /// polynomials modulo `x^n - x - 1` with coefficients modulo `modulus`,
    /// `n` being the number of coefficients: every coefficient moves down by
    /// one place, the lowest, `a0`, goes to the top, and the new lowest
    /// coefficient becomes its difference to `a0`, reduced.
    pub fn div_x(&mut self, modulus: T)
        requires
            old(self)@.len() >= 1,
            in_range::<T>(lowest_difference(old(self)@)),
            in_range::<T>(lowest_difference(old(self)@) + modulus.as_int()),
            rem_euclid_defined::<T>(
                lowest_difference(old(self)@) + modulus.as_int(),
                modulus.as_int(),
            ),
        ensures
            final(self)@ == div_x_spec(old(self)@, modulus.as_int()),
    {
        let n: usize = self.coeffs.len();
        let a0: T = self.coeffs[0];
        let mut i: usize = 0;
        while i + 1 < n
            invariant
                0 <= i < n,
                n == self.coeffs@.len(),
                n == old(self).coeffs@.len(),
                forall|k: int| 0 <= k < i ==> self.coeffs@[k] == old(self).coeffs@[k + 1],
                forall|k: int| i <= k < n ==> self.coeffs@[k] == old(self).coeffs@[k],
            decreases n - i,
        {
            let next: T = self.coeffs[i + 1];
            self.coeffs[i] = next;
            i += 1;
        }
        self.coeffs[n - 1] = a0;
        proof {
            T::lemma_range(a0);
            T::lemma_range(modulus);
        }
        let lowest: T = self.coeffs[0];
        let lowered: T = T::from_i128(lowest.to_i128() - a0.to_i128());
        let raised: T = T::from_i128(lowered.to_i128() + modulus.to_i128());
        let reduced: T = rem_euclid(raised, modulus);
        self.coeffs[0] = reduced;
        assert(self@ =~= div_x_spec(old(self)@, modulus.as_int()));
    }

    /// The representative of the polynomial in the ring with coefficients
    /// modulo `modulus`: every coefficient is replaced by its least
    /// remainder that is not negative. A polynomial with no more
    /// coefficients than the ring has is its own representative modulo
    /// `x^n - x - 1`, so the generator `x` does not enter the result.
    pub fn create_factor_ring(&self, x: &[T], modulus: T) -> (r: PolyInt<T>)
        requires
            residues_defined::<T>(self@, modulus.as_int()),
        ensures
            r@ == residues(self@, modulus.as_int()),
    {
        let mut copy: PolyInt<T> = self.duplicate();
        copy.mod_poly(modulus)
    }

    /// The coefficients in ascending order.
    fn sorted_values(&self) -> (values: Vec<i128>)
        ensures
            ints(values@) == self@.sort(),
    {
        let ghost leq: spec_fn(int, int) -> bool = |x: int, y: int| x <= y;
        let mut values: Vec<i128> = Vec::new();
        let mut i: usize = 0;
        assert(self@.subrange(0, 0) =~= Seq::<int>::empty());
        assert(ints(values@) =~= Seq::<int>::empty());
        while i < self.coeffs.len()
            invariant
                0 <= i <= self@.len(),
                leq == (|x: int, y: int| x <= y),
                sorted_by(ints(values@), leq),
                ints(values@).to_multiset() == self@.subrange(0, i as int).to_multiset(),
            decreases self@.len() - i,
        {
            let value: i128 = self.coeffs[i].to_i128();
            let ghost before: Seq<int> = ints(values@);
            let mut at: usize = 0;
            while at < values.len() && values[at] <= value
                invariant
                    0 <= at <= values@.len(),
                    forall|k: int| 0 <= k < at ==> values@[k] <= value,
                decreases values@.len() - at,
            {
                at += 1;
            }
            values.insert(at, value);
            proof {
                let after: Seq<int> = ints(values@);
                assert(after =~= before.insert(at as int, value as int));
                to_multiset_insert(before, at as int, value as int);
                to_multiset_build(self@.subrange(0, i as int), value as int);
                assert(self@.subrange(0, i + 1) =~= self@.subrange(0, i as int).push(value as int));
                assert forall|j: int, k: int| 0 <= j < k < after.len() implies #[trigger] leq(
                    after[j],
                    after[k],
                ) by {
                    let before_j: int = if j < at {
                        j
                    } else {
                        j - 1
                    };
                    let before_k: int = if k < at {
                        k
                    } else {
                        k - 1
                    };
                    if j != at && k != at {
                        assert(leq(before[before_j], before[before_k]));
                    } else if k == at {
                        assert(before[j] == values@[j] as int);
                    } else {
                        assert(leq(before[at as int], before[before_k]) || before_k == at);
                    }
                }
            }
            i += 1;
        }
        proof {
            assert(self@.subrange(0, self@.len() as int) =~= self@);
            self@.lemma_sort_ensures();
            assert(total_ordering(leq));
            lemma_sorted_unique(ints(values@), self@.sort(), leq);
        }
        values
    }

    /// The polynomial as text: the coefficients in ascending order, each
    /// that is not zero as a term of its value, the letters `xp~^` and its
    /// place in that order; a negative coefficient behind the first place
    /// has a further `-` before its term.
    pub fn to_string(&self) -> (text: String)
        ensures
            text@ == terms_text(self@.sort(), self@.len()),
    {
        let values: Vec<i128> = self.sorted_values();
        let mut result: String = String::new();
        let mut i: usize = 0;
        proof {
            reveal_strlit("-");
            reveal_strlit("xp~^");
            self@.lemma_sort_ensures();
            self@.to_multiset_ensures();
            self@.sort().to_multiset_ensures();
        }
        while i < values.len()
            invariant
                0 <= i <= values@.len(),
                values@.len() == self@.len(),
                ints(values@) == self@.sort(),
                "-"@ == seq!['-'],
                "xp~^"@ == seq!['x', 'p', '~', '^'],
                result@ == terms_text(self@.sort(), i as nat),
            decreases values@.len() - i,
        {
            let c: i128 = values[i];
            assert(c as int == self@.sort()[i as int]) by {
                assert(ints(values@)[i as int] == c as int);
            }
            if c != 0 {
                if c < 0 && i != 0 {
                    result.append("-");
                }
                let value: String = format_integer(c);
                let place: String = format_integer(i as i128);
                result.append(value.as_str());
                result.append("xp~^");
                result.append(place.as_str());
            }
            i += 1;
        }
        result
    }

    /// The inverse of the polynomial as a power series, to as many
    /// coefficients as the polynomial has, by Newton's iteration: from the
    /// inverse of the lowest coefficient, one round for each coefficient
    /// replaces `inv` by `inv - inv * (a * inv - 1)`. Over the integers the
    /// lowest coefficient has an inverse when it is 1 or -1, and the product
    /// of the polynomial and the result is then 1 in every coefficient that
    /// the polynomial has; for any other lowest coefficient the iteration
    /// starts from zero. A lowest coefficient of zero is not accepted.
    pub fn newton_inversion(&self) -> (inv: PolyInt<T>)
        requires
            self@.len() >= 1,
            3 * self@.len() <= usize::MAX,
            self@[0] != 0,
            forall|r: nat|
                r < self@.len() ==> newton_step_fits::<T>(self@, #[trigger] newton_iter(self@, r)),
        ensures
            inv@ == newton_iter(self@, self@.len()),
            self@[0] == 1 || self@[0] == -1 ==> is_series_inverse(self@, inv@),
    {
        proof {
            T::lemma_range(self.coeffs@[0]);
        }
        let n: usize = self.coeffs.len() - 1;
        let mut inv: PolyInt<T> = PolyInt::from_zero(n + 1);
        let ghost zeros: Seq<T> = inv.coeffs@;
        assert forall|k: int| 0 <= k < n + 1 implies (#[trigger] zeros[k]).as_int() == 0 by {
            assert(inv@[k] == 0);
        }
        let lowest: i128 = self.coeffs[0].to_i128();
        let one: T = T::from_i128(1);
        if lowest == 1 {
            inv.coeffs[0] = one;
        } else if lowest == -1 {
            inv.coeffs[0] = T::from_i128(-1);
        }
        let unit: [T; 1] = [one];
        proof {
            assert(ints(unit@) =~= seq![1int]);
            assert forall|k: int| 0 <= k < n + 1 implies inv@[k] == newton_seed(self@)[k] by {
                if k > 0 || !(lowest == 1 || lowest == -1) {
                    assert(inv.coeffs@[k] == zeros[k]);
                }
            }
            assert(inv@ =~= newton_iter(self@, 0));
        }
        let mut round: usize = 0;
        while round < n + 1
            invariant
                0 <= round <= n + 1,
                n + 1 == self@.len(),
                3 * self@.len() <= usize::MAX,
                ints(unit@) == seq![1int],
                inv@ == newton_iter(self@, round as nat),
                forall|r: nat|
                    r < self@.len() ==> newton_step_fits::<T>(
                        self@,
                        #[trigger] newton_iter(self@, r),
                    ),
            decreases n + 1 - round,
        {
            let ghost before: Seq<int> = inv@;
            assert(newton_step_fits::<T>(self@, newton_iter(self@, round as nat)));
            assert(before.len() == n + 1) by {
                lemma_newton_iter_len(self@, round as nat);
            }
            let mut self_times_inv: PolyInt<T> = self.duplicate();
            self_times_inv.mult_poly(inv.coeffs.as_slice());
            let one_minus_self_times_inv: PolyInt<T> = self_times_inv.sub_poly(unit.as_slice());
            assert(one_minus_self_times_inv@ == newton_error(self@, before));
            let mut clone_inv: PolyInt<T> = inv.duplicate();
            clone_inv.mult_poly(one_minus_self_times_inv.coeffs.as_slice());
            inv.sub_poly(clone_inv.coeffs.as_slice());
            round += 1;
        }
        proof {
            if self@[0] == 1 || self@[0] == -1 {
                lemma_newton_inverse(self@);
            }
        }
        inv
    }
}

/// The terms of a coefficient of the product with the polynomial 1 sum to
/// the coefficient of `a` once its place is reached.
proof fn lemma_conv_sum_with_one(a: Seq<int>, i: int, n: nat)
    requires
        n <= a.len(),
    ensures
        conv_sum(a, seq![1int], i, n) == (if 0 <= i < n {
            a[i]
        } else {
            0
        }),
    decreases n,
{
    if n > 0 {
        lemma_conv_sum_with_one(a, i, (n - 1) as nat);
        if i == n - 1 {
            assert(conv_term(a, seq![1int], i, n - 1) == a[i] * 1);
        }
    }
}

/// Multiplying by the polynomial 1 changes nothing, and the product can be
/// summed in every type that holds the coefficients.
pub proof fn lemma_product_one<T: Coeff>(a: Seq<int>)
    requires
        a.len() >= 1,
        all_in_range::<T>(a),
    ensures
        product_fits::<T>(a, seq![1int]),
        product(a, seq![1int]) == a,
{
    let one: Seq<int> = seq![1int];
    assert forall|i: int, j: int| 0 <= i < a.len() && 0 <= j < one.len() implies #[trigger] term_fits::<
        T,
    >(a, one, i, j) by {
        assert(in_range::<T>(a[i]));
        assert(a[i] * one[j] == a[i]);
        lemma_conv_sum_with_one(a, i + j, (i + 1) as nat);
    }
    assert forall|i: int| 0 <= i < a.len() implies product(a, one)[i] == a[i] by {
        lemma_conv_sum_with_one(a, i, a.len());
    }
    assert(product(a, one) =~= a);
}

/// The decimal digit `d`.
pub open spec fn digit(d: nat) -> char {
    (48 + d) as char
}

/// `n` in decimal digits.
pub open spec fn decimal(n: nat) -> Seq<char>
    decreases n,
{
    if n < 10 {
        seq![digit(n)]
    } else {
        decimal(n / 10).push(digit(n % 10))
    }
}

/// `c` in decimal digits, behind a `-` where it is negative.
pub open spec fn signed_decimal(c: int) -> Seq<char> {
    if c < 0 {
        seq!['-'] + decimal((-c) as nat)
    } else {
        decimal(c as nat)
    }
}

/// The term of the coefficient `c` at the place `i`: nothing for zero.
pub open spec fn term_text(c: int, i: nat) -> Seq<char> {
    if c == 0 {
        Seq::<char>::empty()
    } else if c < 0 && i != 0 {
        seq!['-'] + signed_decimal(c) + seq!['x', 'p', '~', '^'] + decimal(i)
    } else {
        signed_decimal(c) + seq!['x', 'p', '~', '^'] + decimal(i)
    }
}

/// The terms of the first `n` coefficients of `s`, one behind the other.
pub open spec fn terms_text(s: Seq<int>, n: nat) -> Seq<char>
    decreases n,
{
    if n == 0 {
        Seq::<char>::empty()
    } else {
        terms_text(s, (n - 1) as nat) + term_text(s[n - 1], (n - 1) as nat)
    }
}

/// Formats one integer with `format!`, as std displays integers: in
/// decimal digits, with a `-` before a negative value.
#[verifier::external_body]
fn format_integer(c: i128) -> (text: String)
    ensures
        text@ == signed_decimal(c as int),
{
    format!("{}", c)
}

/// Where Newton's iteration starts: the inverse of the lowest coefficient of
/// `a` over the integers, which is the coefficient itself if it is 1 or -1
/// and is taken as zero otherwise, followed by zeros.
pub open spec fn newton_seed(a: Seq<int>) -> Seq<int> {
    Seq::new(
        a.len(),
        |i: int|
            if i == 0 && (a[0] == 1 || a[0] == -1) {
                a[0]
            } else {
                0
            },
    )
}

/// How far `inv` is from an inverse of `a`: `a * inv - 1`.
pub open spec fn newton_error(a: Seq<int>, inv: Seq<int>) -> Seq<int> {
    difference(product(a, inv), seq![1int])
}

/// One round of Newton's iteration: `inv - inv * (a * inv - 1)`, cut to the
/// coefficients of `inv`.
pub open spec fn newton_step(a: Seq<int>, inv: Seq<int>) -> Seq<int> {
    difference(inv, product(inv, newton_error(a, inv)))
}

/// `r` rounds of Newton's iteration for the inverse of `a`.
pub open spec fn newton_iter(a: Seq<int>, r: nat) -> Seq<int>
    decreases r,
{
    if r == 0 {
        newton_seed(a)
    } else {
        newton_step(a, newton_iter(a, (r - 1) as nat))
    }
}

/// One round of Newton's iteration from `inv` can be computed in `T`: both
/// products can be summed, and both differences are values of `T`.
pub open spec fn newton_step_fits<T: Coeff>(a: Seq<int>, inv: Seq<int>) -> bool {
    &&& product_fits::<T>(a, inv)
    &&& all_in_range::<T>(newton_error(a, inv))
    &&& product_fits::<T>(inv, newton_error(a, inv))
    &&& all_in_range::<T>(newton_step(a, inv))
}

/// Every round of the iteration has as many coefficients as `a`.
pub proof fn lemma_newton_iter_len(a: Seq<int>, r: nat)
    ensures
        newton_iter(a, r).len() == a.len(),
    decreases r,
{
    if r > 0 {
        lemma_newton_iter_len(a, (r - 1) as nat);
    }
}

/// The difference of the coefficient that `div_x` moves to the lowest place
/// and the one it moves from there to the top.
pub open spec fn lowest_difference(a: Seq<int>) -> int {
    if a.len() > 1 {
        a[1] - a[0]
    } else {
        0
    }
}

/// `a` times the inverse of `x` modulo `x^n - x - 1` and `m`, for `a` of `n`
/// coefficients.
pub open spec fn div_x_spec(a: Seq<int>, m: int) -> Seq<int> {
    Seq::new(
        a.len(),
        |i: int|
            if i == 0 {
                (lowest_difference(a) + m) % m
            } else if i == a.len() - 1 {
                a[0]
            } else {
                a[i + 1]
            },
    )
}

/// `a` times `x` modulo `x^n - x - 1` and `m`, for `a` of `n` coefficients:
/// every coefficient moves up by one place, and the highest, which would
/// belong to `x^n`, goes to the places of 1 and of `x`.
pub open spec fn mul_x_spec(a: Seq<int>, m: int) -> Seq<int> {
    Seq::new(
        a.len(),
        |i: int|
            if i == 0 {
                a[a.len() - 1]
            } else if i == 1 {
                (a[0] + a[a.len() - 1]) % m
            } else {
                a[i - 1]
            },
    )
}

/// Multiplying by `x` what was divided by `x` gives the ring element back.
/// With a single coefficient the ring is trivial, and only zero comes back.
pub proof fn lemma_mul_x_div_x(a: Seq<int>, m: int)
    requires
        a.len() >= 2,
        m > 0,
        forall|i: int| 0 <= i < a.len() ==> 0 <= #[trigger] a[i] < m,
    ensures
        mul_x_spec(div_x_spec(a, m), m) == a,
{
    let d: Seq<int> = div_x_spec(a, m);
    let n: int = a.len() as int;
    assert(0 <= a[0] < m);
    assert(0 <= a[1] < m);
    assert(d[n - 1] == a[0]);
    assert(d[0] == (a[1] - a[0] + m) % m);
    assert((d[0] + d[n - 1]) % m == a[1]) by {
        vstd::arithmetic::div_mod::lemma_small_mod(a[0] as nat, m as nat);
        vstd::arithmetic::div_mod::lemma_small_mod(a[1] as nat, m as nat);
        vstd::arithmetic::div_mod::lemma_add_mod_noop(a[1] - a[0] + m, a[0], m);
        vstd::arithmetic::div_mod::lemma_mod_add_multiples_vanish(a[1], m);
    }
    assert(mul_x_spec(d, m) =~= a);
}

} // verus!
