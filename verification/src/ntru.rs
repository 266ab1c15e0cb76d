//! The encryption and decryption transforms.

pub mod cipher;
pub mod errors;
