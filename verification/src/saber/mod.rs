//! An educational key encapsulation mechanism in the style of SABER, built on
//! learning with rounding over Z_q[X]/(X^n + 1): rounding from Z_q to Z_p
//! replaces explicit noise in the public key and the ciphertext.

pub mod config;
pub mod encapsulation;
pub mod error;
pub mod exportable_params;
pub mod scheme;
pub mod types;

pub use config::Saber;

pub use encapsulation::{SaberDecapsulate, SaberEncapsulated};
pub use error::SaberError;
pub use exportable_params::SaberExportated;
pub use scheme::{Key, SaberCiphertext};
pub use types::{SaberKeypair, SaberPublicKey, SaberSecretKey};
