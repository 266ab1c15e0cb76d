//! Branch-free integer helpers and the modular arithmetic their contracts
//! are stated in.

pub mod modular;
pub mod nums;
pub mod prime;
pub mod sums;
