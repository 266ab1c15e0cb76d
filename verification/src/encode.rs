//! Encodings of coefficient vectors as bytes.

pub mod top;
