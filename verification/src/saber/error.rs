//! Errors of the key encapsulation.

use vstd::prelude::*;

verus! {

/// The serialisation error of `postcard`, carried through unchanged.
#[verifier::external_type_specification]
#[verifier::external_body]
pub struct ExPostcardError(postcard::Error);

/// Why an encapsulation could not be opened or built.
#[derive(Debug)]
pub enum SaberError {
    /// The recomputed MAC differs from the transmitted one.
    InvalidMac,
    /// The encapsulation could not be serialised or deserialised.
    SerializationError(postcard::Error),
}

} // verus!
