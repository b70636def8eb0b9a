//! The parameters a peer needs to rebuild an instance (without the NTT
//! tables, which it recomputes).

use vstd::prelude::*;

use crate::ntt::tables_of;
use crate::ring::RingParams;
use crate::saber::config::Saber;

verus! {

/// Ring parameters, noise parameter and rounding modulus of an instance.
#[derive(Clone)]
pub struct SaberExportated {
    pub params: RingParams,
    pub eta: usize,
    pub p: u64,
}

impl SaberExportated {
    /// The exported parameters `(params, eta, p)`.
    pub fn new(params: RingParams, eta: usize, p: u64) -> (e: Self)
        ensures
            e.params == params,
            e.eta == eta,
            e.p == p,
    {
        Self { params, eta, p }
    }

    /// Rebuilds the instance, recomputing its NTT tables.
    pub fn to_saber(&self) -> (saber: Saber)
        requires
            self.params.n % 2 == 0,
            self.params.q >= 2,
        ensures
            saber.params == self.params,
            saber.eta == self.eta,
            saber.p == self.p,
            tables_of(self.params, saber.ntt_precalculated),
    {
        Saber::new(self.params, self.eta, self.p)
    }
}

impl Saber {
    /// The parameters of this instance, for a peer.
    pub fn to_export(&self) -> (e: SaberExportated)
        ensures
            e.params == self.params,
            e.eta == self.eta,
            e.p == self.p,
    {
        SaberExportated::new(self.params, self.eta, self.p)
    }
}

} // verus!
