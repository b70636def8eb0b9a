//! Parameter sets of the NewHope-style scheme.

use vstd::arithmetic::power2::{lemma2_to64, pow2};
use vstd::prelude::*;

use crate::known_roots::{lemma_first_omega_12289, lemma_roots_12289_1024};
use crate::modular::{find_valid_omega, is_first_omega, lemma_eleven_generates_12289};
use crate::ntt_mul::transform_ready;
use crate::ntt::{precalculate, tables_of, NTTprecaculated};
use crate::ring::RingParams;

verus! {

/// A NewHope instance: ring parameters, noise parameter `eta`, and the NTT
/// tables of the ring.
#[derive(Clone)]
pub struct NewHope {
    pub params: RingParams,
    pub eta: usize,
    pub ntt_precalculated: NTTprecaculated,
}

impl NewHope {
    /// The recommended parameters: `n = 1024`, `q = 12289` with its first
    /// root of unity, `eta = 16`.
    pub fn recommended() -> (nh: Self)
        ensures
            nh.params.n == 1024,
            nh.params.q == 12289,
            is_first_omega(nh.params.omega as int, 1024, 12289),
            nh.params.omega == 1945,
            nh.eta == 16,
            tables_of(nh.params, nh.ntt_precalculated),
            transform_ready(nh.params, nh.ntt_precalculated),
    {
        proof {
            lemma_eleven_generates_12289();
        }
        let omega = find_valid_omega(1024, 12289);
        let params = RingParams { n: 1024, q: 12289, omega };
        let nh = Self::new(params, 16);
        proof {
            lemma_first_omega_12289(omega as int, 1024);
            lemma_roots_12289_1024();
            lemma2_to64();
            assert(pow2(10) == 1024);
        }
        nh
    }

    /// An instance with the given parameters; its NTT tables are computed.
    pub fn new(params: RingParams, eta: usize) -> (nh: Self)
        requires
            params.n % 2 == 0,
            params.q >= 2,
        ensures
            nh.params == params,
            nh.eta == eta,
            tables_of(params, nh.ntt_precalculated),
    {
        let tables = precalculate(&params);
        Self { params: params, eta, ntt_precalculated: tables }
    }
}

} // verus!
