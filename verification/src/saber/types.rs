//! Keys of the SABER-like scheme.

use vstd::prelude::*;

use crate::polys::Polynomial;

verus! {

/// The public key: the rounded polynomial `b` and the seed of the public
/// polynomial `a`.
pub type SaberPublicKey = (Polynomial, [u8; 32]);

/// The secret key `s`.
pub type SaberSecretKey = Polynomial;

/// A public key with its secret key.
#[derive(Debug)]
pub struct SaberKeypair {
    pub public_key: SaberPublicKey,
    pub secret_key: SaberSecretKey,
}

impl Clone for SaberKeypair {
    fn clone(&self) -> (kp: Self)
        ensures
            kp.public_key.0.coeffs@ == self.public_key.0.coeffs@,
            kp.public_key.1 == self.public_key.1,
            kp.secret_key.coeffs@ == self.secret_key.coeffs@,
    {
        let b = Polynomial::new(self.public_key.0.coeffs.clone());
        let s = Polynomial::new(self.secret_key.coeffs.clone());
        SaberKeypair { public_key: (b, self.public_key.1), secret_key: s }
    }
}

impl SaberKeypair {
    /// The key pair `((b, seed), s)`.
    pub fn new(b: Polynomial, seed: [u8; 32], s: Polynomial) -> (kp: Self)
        ensures
            kp.public_key.0 == b,
            kp.public_key.1 == seed,
            kp.secret_key == s,
    {
        Self { public_key: (b, seed), secret_key: s }
    }
}

} // verus!
