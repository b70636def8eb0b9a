//! An educational BFV (Brakerski/Fan-Vercauteren) homomorphic encryption
//! scheme over Z_q[X]/(X^n + 1) with plaintext modulus `t`.

pub mod config;
pub mod find_parameters;
pub mod plaintext;


pub use config::BFV;
pub use find_parameters::find_valid_q;
pub use plaintext::BFVPlaintext;

pub mod scheme;
pub use scheme::BFVCiphertext;
