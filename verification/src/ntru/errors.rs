//! The errors of the encryption transforms.

use vstd::prelude::*;

verus! {

/// What an encryption can fail with.
#[derive(Debug, PartialEq, Eq, Clone, Copy)]
pub enum NTRUErrors<'a> {
    /// The public key does not have the layout of a seed followed by a
    /// rounded ring element; the text says which part is wrong.
    PubKey(&'a str),
    /// The generator polynomial could not be derived from the seed.
    Derivation(&'a str),
    /// The short polynomial could not be derived from the input.
    Hash(&'a str),
}

} // verus!
