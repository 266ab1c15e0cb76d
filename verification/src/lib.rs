//! Arithmetic core of a Streamlined-NTRU-Prime / LPR style key-encapsulation
//! primitive: scalar reduction modulo the large modulus, polynomial arithmetic
//! in the ring `Z_m[x]/(x^P - x - 1)`, the nibble and bit codecs, and the
//! encryption and decryption transforms built from them.

pub mod encode;
pub mod math;
pub mod ntru;
pub mod params;
pub mod poly;
