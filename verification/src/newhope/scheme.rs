//! The pair of polynomials a responder sends back.

use vstd::prelude::*;

use crate::polys::Polynomial;

verus! {

/// The responder's message: the polynomials `u` and `v`.
pub struct EncapsulatedTuple {
    pub u: Polynomial,
    pub v: Polynomial,
}

} // verus!
