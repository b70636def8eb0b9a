//! Parameter sets of the BFV scheme.

use vstd::arithmetic::power2::{lemma2_to64, pow2};
use vstd::prelude::*;

use crate::known_roots::{lemma_roots_2572289, lemma_roots_512032769, lemma_roots_786433};
use crate::ntt::{precalculate, tables_of, NTTprecaculated};
use crate::ntt_mul::transform_ready;
use crate::bfv::scheme::worst_case_decrypts;
use crate::polys::{lemma_precalculated_fit, tables_fit};
use crate::ring::{is_power_of_two, RingParams};

verus! {

/// A BFV instance: ring parameters, plaintext modulus `t`, noise parameter
/// `eta`, and the NTT tables of the ring.
#[derive(Clone)]
pub struct BFV {
    pub params: RingParams,
    pub t: u64,
    pub eta: usize,
    pub ntt_precalculated: NTTprecaculated,
}

/// The parameters the scheme's operations rely on: a power-of-two degree of
/// at least 2, a modulus in `[2, 2^32]` that is nonzero as an `i32`, tables
/// built for them, and a noise parameter that keeps noise in `i32` and its
/// bit count in `usize`.
pub open spec fn bfv_params_ok(
    params: RingParams,
    eta: usize,
    tables: NTTprecaculated,
) -> bool {
    &&& params.n >= 2
    &&& is_power_of_two(params.n as int)
    &&& 2 <= params.q <= 0x1_0000_0000
    &&& (params.q as i32) != 0
    &&& tables_of(params, tables)
    &&& tables_fit(tables, params.n as nat)
    &&& eta <= i32::MAX
    &&& 2 * params.n * eta + 7 <= usize::MAX
    &&& 2 * params.n <= usize::MAX
}

impl BFV {
    /// Well-formed: the parameters fit the scheme's operations.
    pub open spec fn wf(&self) -> bool {
        bfv_params_ok(self.params, self.eta, self.ntt_precalculated)
    }

    /// Small parameters: `n = 64`, `q = 786433`, `t = 256`, `eta = 2`.
    pub fn for_test() -> (bfv: Self)
        ensures
            bfv.params.n == 64,
            bfv.params.q == 786_433,
            bfv.params.omega == 368299,
            bfv.t == 256,
            bfv.eta == 2,
            bfv.wf(),
            transform_ready(bfv.params, bfv.ntt_precalculated),
            worst_case_decrypts(bfv),
    {
        let params = RingParams { n: 64, q: 786_433, omega: 368299 };
        let tables = precalculate(&params);
        proof {
            lemma2_to64();
            assert(pow2(6) == 64);
            lemma_precalculated_fit(params, tables);
            lemma_roots_786433();
        }
        let bfv = Self { params: params, t: 256, eta: 2, ntt_precalculated: tables };
        proof {
            assert(bfv.t * (2 * bfv.params.n * bfv.eta + bfv.eta) == 66048) by (nonlinear_arith)
                requires
                    bfv.t == 256,
                    bfv.params.n == 64,
                    bfv.eta == 2,
            ;
            assert((bfv.params.q % bfv.t) * (bfv.t - 1) == 255) by (nonlinear_arith)
                requires
                    bfv.t == 256,
                    bfv.params.q == 786_433,
            ;
        }
        bfv
    }

    /// Medium parameters: `n = 1024`, `q = 2572289`, `t = 256`, `eta = 4`.
    pub fn for_medium() -> (bfv: Self)
        ensures
            bfv.params.n == 1024,
            bfv.params.q == 2572289,
            bfv.params.omega == 457185,
            bfv.t == 256,
            bfv.eta == 4,
            bfv.wf(),
            transform_ready(bfv.params, bfv.ntt_precalculated),
    {
        let params = RingParams { n: 1024, q: 2572289, omega: 457185 };
        let tables = precalculate(&params);
        proof {
            lemma2_to64();
            assert(pow2(10) == 1024);
            lemma_precalculated_fit(params, tables);
            lemma_roots_2572289();
        }
        Self { params: params, t: 256, eta: 4, ntt_precalculated: tables }
    }

    /// Large parameters: `n = 4096`, `q = 512032769`, `t = 512`, `eta = 8`.
    pub fn for_large() -> (bfv: Self)
        ensures
            bfv.params.n == 4096,
            bfv.params.q == 512032769,
            bfv.params.omega == 431951560,
            bfv.t == 512,
            bfv.eta == 8,
            bfv.wf(),
            transform_ready(bfv.params, bfv.ntt_precalculated),
            worst_case_decrypts(bfv),
    {
        let params = RingParams { n: 4096, q: 512032769, omega: 431951560 };
        let tables = precalculate(&params);
        proof {
            lemma2_to64();
            assert(pow2(12) == 4096);
            lemma_precalculated_fit(params, tables);
            lemma_roots_512032769();
        }
        let bfv = Self { params: params, t: 512, eta: 8, ntt_precalculated: tables };
        proof {
            assert(bfv.t * (2 * bfv.params.n * bfv.eta + bfv.eta) == 33558528) by (nonlinear_arith)
                requires
                    bfv.t == 512,
                    bfv.params.n == 4096,
                    bfv.eta == 8,
            ;
            assert((bfv.params.q % bfv.t) * (bfv.t - 1) == 511) by (nonlinear_arith)
                requires
                    bfv.t == 512,
                    bfv.params.q == 512_032_769,
            ;
        }
        bfv
    }
}

} // verus!
