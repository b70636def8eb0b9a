//! Parameters and message encodings of an educational NewHope-style key
//! exchange over Z_q[X]/(X^n + 1).

pub mod config;
pub mod encoding;
pub mod scheme;

pub use config::NewHope;
pub use scheme::EncapsulatedTuple;
