//! Parameters of the ring Z_q[X]/(X^n + 1).

use vstd::arithmetic::power2::pow2;
use vstd::prelude::*;

verus! {

/// `n` is a power of two.
pub open spec fn is_power_of_two(n: int) -> bool {
    exists|k: nat| pow2(k) == n
}

/// Degree `n`, modulus `q` and the root `omega` (a primitive `2n`-th root of
/// unity modulo `q`) used by the NTT.
#[derive(Clone, Copy, Debug)]
pub struct RingParams {
    pub n: usize,
    pub q: u64,
    pub omega: u64,
}

impl RingParams {
    /// Builds the parameters; the degree must be a power of two for the NTT.
    pub fn new(n: usize, q: u64, omega: u64) -> (params: Self)
        requires
            is_power_of_two(n as int),
        ensures
            params.n == n,
            params.q == q,
            params.omega == omega,
    {
        Self { n, q, omega }
    }
}

} // verus!
