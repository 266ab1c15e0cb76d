//! Parameter sets. Every operation of the library reads its constants from
//! the set that is re-exported by the modules that need them.

pub mod params761;
