//! Message encodings with coefficients held in 16 bits: message A packs a
//! seed and 1024 coefficients, message B packs 1024 coefficients and 1024
//! bits. Every coefficient takes `ceil(log2(q))` bits.

use vstd::arithmetic::power2::{lemma2_to64, lemma_pow2_strictly_increases, pow2};
use vstd::prelude::*;

use crate::bitwriting::{bits_of_bytes, pad_to_bytes, read_value};
use crate::encoding::{
    encode_a_bits, encode_b_bits, lemma_decode_a_inverts_encode_a, lemma_decode_b_inverts_encode_b,
    lemma_read_value_bound, spec_log2_ceil,
};
use crate::newhope::config::NewHope;
use crate::polys::Polynomial;
use crate::ring::RingParams;

verus! {

/// 16-bit coefficients as 64-bit words.
pub open spec fn widen(b: Seq<u16>) -> Seq<u64> {
    Seq::new(b.len(), |i: int| b[i] as u64)
}

/// The coefficients as a polynomial.
fn widened(b: &Vec<u16>) -> (p: Polynomial)
    ensures
        p.coeffs@ == widen(b@),
{
    let mut coeffs: Vec<u64> = Vec::with_capacity(b.len());
    let mut i: usize = 0;
    while i < b.len()
        invariant
            i <= b@.len(),
            coeffs@ == widen(b@.subrange(0, i as int)),
        decreases b@.len() - i,
    {
        coeffs.push(b[i] as u64);
        i = i + 1;
        assert(coeffs@ =~= widen(b@.subrange(0, i as int)));
    }
    assert(b@.subrange(0, b@.len() as int) =~= b@);
    Polynomial::new(coeffs)
}

/// Words below `2^16` as 16-bit coefficients.
fn narrowed(p: &Polynomial) -> (b: Vec<u16>)
    requires
        forall|i: int| 0 <= i < p.coeffs@.len() ==> #[trigger] p.coeffs@[i] < 0x1_0000,
    ensures
        widen(b@) == p.coeffs@,
{
    let mut b: Vec<u16> = Vec::with_capacity(p.coeffs.len());
    let mut i: usize = 0;
    while i < p.coeffs.len()
        invariant
            i <= p.coeffs@.len(),
            forall|k: int| 0 <= k < p.coeffs@.len() ==> #[trigger] p.coeffs@[k] < 0x1_0000,
            b@.len() == i,
            forall|k: int| 0 <= k < i ==> #[trigger] b@[k] as u64 == p.coeffs@[k],
        decreases p.coeffs@.len() - i,
    {
        let c = p.coeffs[i];
        assert(c < 0x1_0000);
        b.push(c as u16);
        i = i + 1;
    }
    assert(widen(b@) =~= p.coeffs@);
    b
}

/// Values read in at most 16 bits fit 16-bit coefficients.
proof fn lemma_reads_fit_u16(bits: Seq<bool>, start: int, width: nat)
    requires
        width <= 16,
    ensures
        read_value(bits, start, width) < 0x1_0000,
{
    lemma_read_value_bound(bits, start, width);
    lemma2_to64();
    if width < 16 {
        lemma_pow2_strictly_increases(width, 16);
    }
}

impl NewHope {
    /// The ring parameters with the degree fixed to the 1024 coefficients
    /// the messages carry.
    fn params_1024(&self) -> (params: RingParams)
        ensures
            params.n == 1024,
            params.q == self.params.q,
    {
        RingParams { n: 1024, q: self.params.q, omega: self.params.omega }
    }

    /// Packs the seed (eight bits per byte) followed by the coefficients of
    /// `b` (`ceil(log2(q))` bits each).
    pub fn encode_a(&self, seed: &[u8; 32], b: &Vec<u16>) -> (msg: Vec<u8>)
        ensures
            bits_of_bytes(msg@) == pad_to_bytes(encode_a_bits(seed@, widen(b@), self.params.q as int)),
    {
        let poly = widened(b);
        self.params.encode_a(seed, &poly)
    }

    /// Unpacks a seed of 32 bytes and 1024 coefficients of `ceil(log2(q))`
    /// bits, reading `msg` as `encode_a` writes it.
    pub fn decode_a(&self, msg: &[u8]) -> (res: ([u8; 32], Vec<u16>))
        requires
            spec_log2_ceil(self.params.q as int) <= 16,
            256 + 1024 * spec_log2_ceil(self.params.q as int) <= 8 * msg@.len(),
        ensures
            forall|i: int|
                0 <= i < 32 ==> #[trigger] res.0@[i] == read_value(bits_of_bytes(msg@), 8 * i, 8),
            res.1@.len() == 1024,
            forall|j: int|
                0 <= j < 1024 ==> #[trigger] res.1@[j] == read_value(
                    bits_of_bytes(msg@),
                    256 + j * spec_log2_ceil(self.params.q as int),
                    spec_log2_ceil(self.params.q as int),
                ),
    {
        let params = self.params_1024();
        let (seed, poly) = params.decode_a(msg);
        proof {
            assert forall|j: int| 0 <= j < poly.coeffs@.len() implies #[trigger] poly.coeffs@[j] < 0x1_0000 by {
                lemma_reads_fit_u16(
                    bits_of_bytes(msg@),
                    256 + j * spec_log2_ceil(self.params.q as int),
                    spec_log2_ceil(self.params.q as int),
                );
            }
        }
        let b = narrowed(&poly);
        proof {
            assert forall|j: int| 0 <= j < 1024 implies #[trigger] b@[j] == poly.coeffs@[j] by {
                assert(widen(b@)[j] == poly.coeffs@[j]);
            }
        }
        (seed, b)
    }

    /// Packs the coefficients of `u` (`ceil(log2(q))` bits each) followed by
    /// the lowest bit of each entry of `r`.
    pub fn encode_b(&self, u: &Vec<u16>, r: &Vec<u8>) -> (msg: Vec<u8>)
        ensures
            bits_of_bytes(msg@) == pad_to_bytes(encode_b_bits(widen(u@), r@, self.params.q as int)),
    {
        let poly = widened(u);
        self.params.encode_b(&poly, r)
    }

    /// Unpacks 1024 coefficients of `ceil(log2(q))` bits and then 1024 single
    /// bits, reading `msg` as `encode_b` writes it.
    pub fn decode_b(&self, msg: &[u8]) -> (res: (Vec<u16>, Vec<u8>))
        requires
            spec_log2_ceil(self.params.q as int) <= 16,
            1024 * spec_log2_ceil(self.params.q as int) + 1024 <= 8 * msg@.len(),
        ensures
            res.0@.len() == 1024,
            forall|j: int|
                0 <= j < 1024 ==> #[trigger] res.0@[j] == read_value(
                    bits_of_bytes(msg@),
                    j * spec_log2_ceil(self.params.q as int),
                    spec_log2_ceil(self.params.q as int),
                ),
            res.1@.len() == 1024,
            forall|j: int|
                0 <= j < 1024 ==> #[trigger] res.1@[j] == read_value(
                    bits_of_bytes(msg@),
                    1024 * spec_log2_ceil(self.params.q as int) + j,
                    1,
                ),
    {
        let params = self.params_1024();
        let (poly, r) = params.decode_b(msg);
        proof {
            assert forall|j: int| 0 <= j < poly.coeffs@.len() implies #[trigger] poly.coeffs@[j] < 0x1_0000 by {
                lemma_reads_fit_u16(
                    bits_of_bytes(msg@),
                    j * spec_log2_ceil(self.params.q as int),
                    spec_log2_ceil(self.params.q as int),
                );
            }
        }
        let u = narrowed(&poly);
        proof {
            assert forall|j: int| 0 <= j < 1024 implies #[trigger] u@[j] == poly.coeffs@[j] by {
                assert(widen(u@)[j] == poly.coeffs@[j]);
            }
        }
        (u, r)
    }
}

/// Decoding message A undoes its encoding: for 1024 coefficients of at most
/// `ceil(log2(q))` bits (every coefficient below `q` is one), with `ceil(log2(q)) <= 16`, the bytes produced by `encode_a` are long
/// enough for `decode_a`, which reads back the seed and the coefficients.
pub proof fn lemma_newhope_decode_a_inverts_encode_a(nh: NewHope, seed: Seq<u8>, b: Seq<u16>, msg: Seq<u8>)
    requires
        seed.len() == 32,
        b.len() == 1024,
        forall|j: int| 0 <= j < b.len() ==> #[trigger] b[j] < pow2(spec_log2_ceil(nh.params.q as int)),
        bits_of_bytes(msg) == pad_to_bytes(encode_a_bits(seed, widen(b), nh.params.q as int)),
    ensures
        256 + 1024 * spec_log2_ceil(nh.params.q as int) <= 8 * msg.len(),
        forall|i: int| 0 <= i < 32 ==> #[trigger] read_value(bits_of_bytes(msg), 8 * i, 8) == seed[i],
        forall|j: int|
            0 <= j < 1024 ==> #[trigger] read_value(
                bits_of_bytes(msg),
                256 + j * spec_log2_ceil(nh.params.q as int),
                spec_log2_ceil(nh.params.q as int),
            ) == b[j],
{
    let params = RingParams { n: 1024, q: nh.params.q, omega: nh.params.omega };
    let w = widen(b);
    assert forall|j: int| 0 <= j < w.len() implies #[trigger] w[j] < pow2(spec_log2_ceil(params.q as int)) by {
        assert(b[j] < pow2(spec_log2_ceil(nh.params.q as int)));
    }
    lemma_decode_a_inverts_encode_a(params, seed, w, msg);
}

/// Decoding message B undoes its encoding: for 1024 coefficients of at most
/// `ceil(log2(q))` bits (every coefficient below `q` is one) and 1024 entries of `r`, the bytes produced by `encode_b` are long enough
/// for `decode_b`, which reads back the coefficients and the lowest bit of
/// each entry of `r`.
pub proof fn lemma_newhope_decode_b_inverts_encode_b(nh: NewHope, u: Seq<u16>, r: Seq<u8>, msg: Seq<u8>)
    requires
        u.len() == 1024,
        r.len() == 1024,
        forall|j: int| 0 <= j < u.len() ==> #[trigger] u[j] < pow2(spec_log2_ceil(nh.params.q as int)),
        bits_of_bytes(msg) == pad_to_bytes(encode_b_bits(widen(u), r, nh.params.q as int)),
    ensures
        1024 * spec_log2_ceil(nh.params.q as int) + 1024 <= 8 * msg.len(),
        forall|j: int|
            0 <= j < 1024 ==> #[trigger] read_value(
                bits_of_bytes(msg),
                j * spec_log2_ceil(nh.params.q as int),
                spec_log2_ceil(nh.params.q as int),
            ) == u[j],
        forall|j: int|
            0 <= j < 1024 ==> #[trigger] read_value(bits_of_bytes(msg), 1024 * spec_log2_ceil(nh.params.q as int) + j, 1)
                == r[j] % 2,
{
    let params = RingParams { n: 1024, q: nh.params.q, omega: nh.params.omega };
    let w = widen(u);
    assert forall|j: int| 0 <= j < w.len() implies #[trigger] w[j] < pow2(spec_log2_ceil(params.q as int)) by {
        assert(u[j] < pow2(spec_log2_ceil(nh.params.q as int)));
    }
    lemma_decode_b_inverts_encode_b(params, w, r, msg);
}

} // verus!
