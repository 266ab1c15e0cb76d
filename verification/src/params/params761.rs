//! The parameter set with ring degree 761.

use vstd::prelude::*;

verus! {

/// Ring degree: polynomials are reduced modulo `x^P - x - 1`.
pub const P: usize = 761;

/// The large modulus.
pub const Q: usize = 4591;

/// Number of nonzero coefficients of a short polynomial.
pub const W: usize = 250;

/// Largest centered representative modulo `Q`.
pub const Q12: usize = 2295;

/// Number of message coefficients.
pub const I: usize = 256;

/// Offset of the rounding map onto nibbles.
pub const TAU0: usize = 2156;

/// Scale of the rounding map onto nibbles.
pub const TAU1: usize = 114;

pub const SEEDS_BYTES: usize = 32;

pub const ROUNDED_BYTES: usize = 1007;

pub const TOP_BYTES: usize = 128;

pub const INPUTS_BYTES: usize = 32;

pub const HASH_BYTES: usize = 32;

pub const PUBLICKEYS_BYTES: usize = 1039;

pub const CIPHERTEXTS_BYTES: usize = 1135;

} // verus!
