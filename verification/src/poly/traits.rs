//! The coefficient types of the generic polynomials.

use vstd::prelude::*;

verus! {

/// A machine integer type whose values can be widened to `i128`. Generic
/// code widens its operands, computes, and narrows the result, so that its
/// contracts speak of mathematical integers. Every integer type of the
/// language is one, but for `u128`, whose values above `i128::MAX` cannot be
/// widened.
pub trait Coeff: Copy + Sized {
    /// The value as a mathematical integer.
    spec fn as_int(self) -> int;

    /// The least value of the type.
    spec fn min_value() -> int;

    /// The greatest value of the type.
    spec fn max_value() -> int;

    /// The values of the type lie between the least and the greatest; these
    /// enclose 0 and 1, lie within the range of `i128`, and the least is
    /// not below the negative of the greatest minus one.
    proof fn lemma_range(x: Self)
        ensures
            Self::min_value() <= x.as_int() <= Self::max_value(),
            -Self::max_value() - 1 <= Self::min_value() <= 0,
            1 <= Self::max_value(),
            i128::MIN <= Self::min_value(),
            Self::max_value() <= i128::MAX,
    ;

    /// Two elements with the same value are the same.
    proof fn lemma_as_int_injective(x: Self, y: Self)
        requires
            x.as_int() == y.as_int(),
        ensures
            x == y,
    ;

    /// The value, widened.
    fn to_i128(self) -> (w: i128)
        ensures
            w as int == self.as_int(),
    ;

    /// The element with the value `w`.
    fn from_i128(w: i128) -> (x: Self)
        requires
            Self::min_value() <= w <= Self::max_value(),
        ensures
            x.as_int() == w as int,
    ;
}

impl Coeff for i8 {
    open spec fn as_int(self) -> int {
        self as int
    }

    open spec fn min_value() -> int {
        i8::MIN as int
    }

    open spec fn max_value() -> int {
        i8::MAX as int
    }

    proof fn lemma_range(x: Self) {
    }

    proof fn lemma_as_int_injective(x: Self, y: Self) {
    }

    fn to_i128(self) -> (w: i128) {
        self as i128
    }

    fn from_i128(w: i128) -> (x: Self) {
        w as i8
    }
}

impl Coeff for i16 {
    open spec fn as_int(self) -> int {
        self as int
    }

    open spec fn min_value() -> int {
        i16::MIN as int
    }

    open spec fn max_value() -> int {
        i16::MAX as int
    }

    proof fn lemma_range(x: Self) {
    }

    proof fn lemma_as_int_injective(x: Self, y: Self) {
    }

    fn to_i128(self) -> (w: i128) {
        self as i128
    }

    fn from_i128(w: i128) -> (x: Self) {
        w as i16
    }
}

impl Coeff for i32 {
    open spec fn as_int(self) -> int {
        self as int
    }

    open spec fn min_value() -> int {
        i32::MIN as int
    }

    open spec fn max_value() -> int {
        i32::MAX as int
    }

    proof fn lemma_range(x: Self) {
    }

    proof fn lemma_as_int_injective(x: Self, y: Self) {
    }

    fn to_i128(self) -> (w: i128) {
        self as i128
    }

    fn from_i128(w: i128) -> (x: Self) {
        w as i32
    }
}

impl Coeff for i64 {
    open spec fn as_int(self) -> int {
        self as int
    }

    open spec fn min_value() -> int {
        i64::MIN as int
    }

    open spec fn max_value() -> int {
        i64::MAX as int
    }

    proof fn lemma_range(x: Self) {
    }

    proof fn lemma_as_int_injective(x: Self, y: Self) {
    }

    fn to_i128(self) -> (w: i128) {
        self as i128
    }

    fn from_i128(w: i128) -> (x: Self) {
        w as i64
    }
}

impl Coeff for i128 {
    open spec fn as_int(self) -> int {
        self as int
    }

    open spec fn min_value() -> int {
        i128::MIN as int
    }

    open spec fn max_value() -> int {
        i128::MAX as int
    }

    proof fn lemma_range(x: Self) {
    }

    proof fn lemma_as_int_injective(x: Self, y: Self) {
    }

    fn to_i128(self) -> (w: i128) {
        self as i128
    }

    fn from_i128(w: i128) -> (x: Self) {
        w as i128
    }
}

impl Coeff for u8 {
    open spec fn as_int(self) -> int {
        self as int
    }

    open spec fn min_value() -> int {
        u8::MIN as int
    }

    open spec fn max_value() -> int {
        u8::MAX as int
    }

    proof fn lemma_range(x: Self) {
    }

    proof fn lemma_as_int_injective(x: Self, y: Self) {
    }

    fn to_i128(self) -> (w: i128) {
        self as i128
    }

    fn from_i128(w: i128) -> (x: Self) {
        w as u8
    }
}

impl Coeff for u16 {
    open spec fn as_int(self) -> int {
        self as int
    }

    open spec fn min_value() -> int {
        u16::MIN as int
    }

    open spec fn max_value() -> int {
        u16::MAX as int
    }

    proof fn lemma_range(x: Self) {
    }

    proof fn lemma_as_int_injective(x: Self, y: Self) {
    }

    fn to_i128(self) -> (w: i128) {
        self as i128
    }

    fn from_i128(w: i128) -> (x: Self) {
        w as u16
    }
}

impl Coeff for u32 {
    open spec fn as_int(self) -> int {
        self as int
    }

    open spec fn min_value() -> int {
        u32::MIN as int
    }

    open spec fn max_value() -> int {
        u32::MAX as int
    }

    proof fn lemma_range(x: Self) {
    }

    proof fn lemma_as_int_injective(x: Self, y: Self) {
    }

    fn to_i128(self) -> (w: i128) {
        self as i128
    }

    fn from_i128(w: i128) -> (x: Self) {
        w as u32
    }
}

impl Coeff for u64 {
    open spec fn as_int(self) -> int {
        self as int
    }

    open spec fn min_value() -> int {
        u64::MIN as int
    }

    open spec fn max_value() -> int {
        u64::MAX as int
    }

    proof fn lemma_range(x: Self) {
    }

    proof fn lemma_as_int_injective(x: Self, y: Self) {
    }

    fn to_i128(self) -> (w: i128) {
        self as i128
    }

    fn from_i128(w: i128) -> (x: Self) {
        w as u64
    }
}

impl Coeff for isize {
    open spec fn as_int(self) -> int {
        self as int
    }

    open spec fn min_value() -> int {
        isize::MIN as int
    }

    open spec fn max_value() -> int {
        isize::MAX as int
    }

    proof fn lemma_range(x: Self) {
    }

    proof fn lemma_as_int_injective(x: Self, y: Self) {
    }

    fn to_i128(self) -> (w: i128) {
        self as i128
    }

    fn from_i128(w: i128) -> (x: Self) {
        w as isize
    }
}

impl Coeff for usize {
    open spec fn as_int(self) -> int {
        self as int
    }

    open spec fn min_value() -> int {
        usize::MIN as int
    }

    open spec fn max_value() -> int {
        usize::MAX as int
    }

    proof fn lemma_range(x: Self) {
    }

    proof fn lemma_as_int_injective(x: Self, y: Self) {
    }

    fn to_i128(self) -> (w: i128) {
        self as i128
    }

    fn from_i128(w: i128) -> (x: Self) {
        w as usize
    }
}

/// `v` is the value of some element of `T`.
pub open spec fn in_range<T: Coeff>(v: int) -> bool {
    T::min_value() <= v <= T::max_value()
}

/// The values of `s` as mathematical integers.
pub open spec fn ints<T: Coeff>(s: Seq<T>) -> Seq<int> {
    Seq::new(s.len(), |i: int| s[i].as_int())
}

/// The division of `x` by `m` that leaves a remainder that is not negative
/// has a quotient in the range of `T`. It has not when `m` is -1 and `x` is
/// the least value of a signed type.
pub open spec fn rem_euclid_defined<T: Coeff>(x: int, m: int) -> bool {
    m != 0 && (m == -1 ==> in_range::<T>(-x))
}

/// Calls `num::traits::Euclid::rem_euclid` on `i128`, which is
/// `i128::rem_euclid`: the least remainder of `a` by `m` that is not
/// negative. It panics for a zero `m`, and for the least `i128` with `m`
/// equal to -1; the contract leaves both out.
#[verifier::external_body]
fn rem_euclid_i128(a: i128, m: i128) -> (r: i128)
    requires
        m != 0,
        !(a == i128::MIN && m == -1),
    ensures
        r as int == (a as int) % (m as int),
{
    num::traits::Euclid::rem_euclid(&a, &m)
}

/// Calls `num::traits::ToPrimitive::to_i32` on `i128`: the value as an
/// `i32` where it is in the range of `i32`, nothing otherwise.
#[verifier::external_body]
fn to_i32_i128(w: i128) -> (r: Option<i32>)
    ensures
        r == (if i32::MIN <= w <= i32::MAX {
            Some(w as i32)
        } else {
            None
        }),
{
    num::traits::ToPrimitive::to_i32(&w)
}

/// The least remainder of `x` by `m` that is not negative.
pub fn rem_euclid<T: Coeff>(x: T, m: T) -> (r: T)
    requires
        rem_euclid_defined::<T>(x.as_int(), m.as_int()),
    ensures
        r.as_int() == x.as_int() % m.as_int(),
{
    proof {
        T::lemma_range(x);
        T::lemma_range(m);
        vstd::arithmetic::div_mod::lemma_fundamental_div_mod(x.as_int(), m.as_int());
    }
    T::from_i128(rem_euclid_i128(x.to_i128(), m.to_i128()))
}

/// The value of `x` as an `i32`, where it has one.
pub fn to_i32<T: Coeff>(x: T) -> (r: Option<i32>)
    ensures
        r == (if i32::MIN <= x.as_int() <= i32::MAX {
            Some(x.as_int() as i32)
        } else {
            None
        }),
{
    to_i32_i128(x.to_i128())
}

} // verus!
