//! Parameter sets of the SABER-like scheme.

use vstd::arithmetic::power2::{lemma2_to64, pow2};
use vstd::prelude::*;

use crate::known_roots::{lemma_first_omega_12289, lemma_roots_12289_1024, lemma_roots_12289_256};
use crate::modular::{find_valid_omega, is_first_omega, lemma_eleven_generates_12289};
use crate::ntt_mul::transform_ready;
use crate::ntt::{precalculate, tables_of, NTTprecaculated};
use crate::polys::{lemma_precalculated_fit, tables_fit};
use crate::ring::{is_power_of_two, RingParams};

verus! {

/// A SABER instance: ring parameters (`q` is the large modulus), noise
/// parameter `eta`, the NTT tables of the ring, and the rounding modulus `p`.
#[derive(Clone)]
pub struct Saber {
    pub params: RingParams,
    pub eta: usize,
    pub ntt_precalculated: NTTprecaculated,
    pub p: u64,
}

/// The parameters rounding, key generation and decryption rely on: a
/// power-of-two degree of at least 2, a modulus `q` in `[2, 2^32]`, tables
/// built for them, and a rounding modulus `p > 0` with `p q + q` and `3 p`
/// within 64-bit words.
pub open spec fn saber_ring_ok(params: RingParams, p: u64, tables: NTTprecaculated) -> bool {
    &&& params.n >= 2
    &&& is_power_of_two(params.n as int)
    &&& 2 <= params.q <= 0x1_0000_0000
    &&& tables_of(params, tables)
    &&& tables_fit(tables, params.n as nat)
    &&& p > 0
    &&& p * params.q + params.q <= u64::MAX
    &&& 3 * p <= u64::MAX
}

/// The parameters all of the scheme's operations rely on: those of
/// `saber_ring_ok`, a modulus that is nonzero as an `i32`, and a noise
/// parameter that keeps noise in `i32` and its bit count in `usize`.
pub open spec fn saber_params_ok(
    params: RingParams,
    eta: usize,
    p: u64,
    tables: NTTprecaculated,
) -> bool {
    &&& saber_ring_ok(params, p, tables)
    &&& (params.q as i32) != 0
    &&& eta <= i32::MAX
    &&& 2 * params.n * eta + 7 <= usize::MAX
    &&& 2 * params.n <= usize::MAX
}

/// A power of two of at least 2 is even.
pub proof fn lemma_power_of_two_even(n: int)
    requires
        n >= 2,
        is_power_of_two(n),
    ensures
        n % 2 == 0,
{
    let k = choose|k: nat| pow2(k) == n;
    if k == 0 {
        vstd::arithmetic::power2::lemma2_to64();
    } else {
        vstd::arithmetic::power2::lemma_pow2_unfold(k);
    }
}

impl Saber {
    /// Well-formed: the parameters fit all of the scheme's operations.
    pub open spec fn wf(&self) -> bool {
        saber_params_ok(self.params, self.eta, self.p, self.ntt_precalculated)
    }

    /// The parameters fit rounding, key generation and decryption.
    pub open spec fn ring_ok(&self) -> bool {
        saber_ring_ok(self.params, self.p, self.ntt_precalculated)
    }

    /// An instance with the given parameters; its NTT tables are computed.
    pub fn new(params: RingParams, eta: usize, p: u64) -> (saber: Self)
        requires
            params.n % 2 == 0,
            params.q >= 2,
        ensures
            saber.params == params,
            saber.eta == eta,
            saber.p == p,
            tables_of(params, saber.ntt_precalculated),
    {
        let tables = precalculate(&params);
        Self { params: params, eta, ntt_precalculated: tables, p }
    }

    /// The instance of degree `n` over Z_12289 with its first root of unity.
    fn over_12289(n: usize, eta: usize, p: u64) -> (saber: Self)
        requires
            n == 256 || n == 1024,
            2 <= eta <= 5,
            p == 256 || p == 2048,
        ensures
            saber.params.n == n,
            saber.params.q == 12289,
            is_first_omega(saber.params.omega as int, n as int, 12289),
            saber.params.omega == if n == 1024 { 1945u64 } else { 3400u64 },
            saber.eta == eta,
            saber.p == p,
            saber.wf(),
            transform_ready(saber.params, saber.ntt_precalculated),
    {
        proof {
            lemma_eleven_generates_12289();
            assert(vstd::arithmetic::power::pow(11, 1) == 11) by {
                vstd::arithmetic::power::lemma_pow1(11);
            }
        }
        let omega = find_valid_omega(n, 12289);
        let params = RingParams { n, q: 12289, omega };
        let saber = Self::new(params, eta, p);
        proof {
            lemma2_to64();
            assert(pow2(8) == 256 && pow2(10) == 1024);
            lemma_precalculated_fit(params, saber.ntt_precalculated);
            lemma_first_omega_12289(omega as int, n as int);
            lemma_roots_12289_1024();
            lemma_roots_12289_256();
        }
        saber
    }

    /// Test parameters: `n = 1024`, `q = 12289`, `eta = 2`, `p = 256`.
    pub fn for_test() -> (saber: Self)
        ensures
            saber.params.n == 1024,
            saber.params.q == 12289,
            is_first_omega(saber.params.omega as int, 1024, 12289),
            saber.params.omega == 1945,
            transform_ready(saber.params, saber.ntt_precalculated),
            saber.eta == 2,
            saber.p == 256,
            saber.wf(),
    {
        Self::over_12289(1024, 2, 256)
    }

    /// Light parameters: `n = 256`, `q = 12289`, `eta = 3`, `p = 2048`.
    pub fn light() -> (saber: Self)
        ensures
            saber.params.n == 256,
            saber.params.q == 12289,
            is_first_omega(saber.params.omega as int, 256, 12289),
            saber.params.omega == 3400,
            transform_ready(saber.params, saber.ntt_precalculated),
            saber.eta == 3,
            saber.p == 2048,
            saber.wf(),
    {
        Self::over_12289(256, 3, 2048)
    }

    /// Classic parameters: `n = 256`, `q = 12289`, `eta = 4`, `p = 2048`.
    pub fn classic() -> (saber: Self)
        ensures
            saber.params.n == 256,
            saber.params.q == 12289,
            is_first_omega(saber.params.omega as int, 256, 12289),
            saber.params.omega == 3400,
            transform_ready(saber.params, saber.ntt_precalculated),
            saber.eta == 4,
            saber.p == 2048,
            saber.wf(),
    {
        Self::over_12289(256, 4, 2048)
    }

    /// Fire parameters: `n = 256`, `q = 12289`, `eta = 5`, `p = 2048`.
    pub fn fire() -> (saber: Self)
        ensures
            saber.params.n == 256,
            saber.params.q == 12289,
            is_first_omega(saber.params.omega as int, 256, 12289),
            saber.params.omega == 3400,
            transform_ready(saber.params, saber.ntt_precalculated),
            saber.eta == 5,
            saber.p == 2048,
            saber.wf(),
    {
        Self::over_12289(256, 5, 2048)
    }
}

} // verus!
