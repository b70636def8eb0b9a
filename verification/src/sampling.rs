//! Sampling of coefficients: centered binomial noise, small polynomials with
//! coefficients in {-1, 0, 1}, and uniform polynomials of Z_q.

use rand::rngs::OsRng;
use rand::Rng;
use rand::RngCore;
use vstd::prelude::*;

use crate::bitwriting::{bits_of_bytes, byte_bit, lemma_byte_bit_shift};
use crate::polys::Polynomial;
use crate::ring::RingParams;

verus! {

/// Fills `buf` with bytes of the operating system's random source
/// (`rand::rngs::OsRng::fill_bytes`, which panics only when that source
/// fails). Only the length of `buf` is known afterwards; the bytes are
/// random.
#[verifier::external_body]
pub(crate) fn fill_random_bytes(buf: &mut Vec<u8>)
    ensures
        final(buf)@.len() == old(buf)@.len(),
{
    OsRng.fill_bytes(buf.as_mut_slice());
}

/// A random 64-bit word of the operating system's random source
/// (`rand::RngCore::next_u64` on `OsRng`, which panics only when that source
/// fails); nothing is known of its value.
#[verifier::external_body]
pub(crate) fn random_u64() -> u64 {
    OsRng.next_u64()
}

/// A random `i8` in `{-1, 0, 1}` (`rand::Rng::gen_range(-1..=1)` on `OsRng`);
/// rand documents that the value lies in the inclusive range, and the range
/// is not empty, so the call panics only when the random source fails.
#[verifier::external_body]
pub(crate) fn random_ternary() -> (r: i8)
    ensures
        -1 <= r <= 1,
{
    OsRng.gen_range(-1i8..=1i8)
}

/// A random `u64` in `0..=hi` (`rand::Rng::gen_range(0..=hi)` on `OsRng`);
/// rand documents that the value lies in the inclusive range, and the range
/// is never empty, so the call panics only when the random source fails.
#[verifier::external_body]
pub(crate) fn random_up_to(hi: u64) -> (r: u64)
    ensures
        r <= hi,
{
    OsRng.gen_range(0..=hi)
}

/// Number of set bits among `bits[start..start + len]`.
pub open spec fn count_ones(bits: Seq<bool>, start: int, len: nat) -> nat
    decreases len,
{
    if len == 0 {
        0
    } else {
        count_ones(bits, start, (len - 1) as nat) + (if bits[start + len - 1] {
            1nat
        } else {
            0nat
        })
    }
}

/// Coefficient `i` of centered binomial noise drawn from `bits`: the number
/// of ones in the `i`-th run of `eta` bits minus that in the next run.
pub open spec fn cbd_coeff(bits: Seq<bool>, i: int, eta: nat) -> int {
    count_ones(bits, 2 * i * eta, eta) - count_ones(bits, 2 * i * eta + eta, eta)
}

proof fn lemma_count_ones_bound(bits: Seq<bool>, start: int, len: nat)
    ensures
        count_ones(bits, start, len) <= len,
    decreases len,
{
    if len > 0 {
        lemma_count_ones_bound(bits, start, (len - 1) as nat);
    }
}

/// Counts over two ranges that hold the same bits are equal.
proof fn lemma_count_ones_ext(b1: Seq<bool>, s1: int, b2: Seq<bool>, s2: int, len: nat)
    requires
        forall|j: int| 0 <= j < len ==> #[trigger] b1[s1 + j] == b2[s2 + j],
    ensures
        count_ones(b1, s1, len) == count_ones(b2, s2, len),
    decreases len,
{
    if len > 0 {
        lemma_count_ones_ext(b1, s1, b2, s2, (len - 1) as nat);
        assert(b1[s1 + (len - 1)] == b2[s2 + (len - 1)]);
    }
}

/// Setting one clear bit inside a range raises its count by one; setting it
/// outside the range leaves the count alone.
proof fn lemma_count_ones_set(bits: Seq<bool>, start: int, len: nat, k: int)
    requires
        0 <= k < bits.len(),
        !bits[k],
        0 <= start,
        start + len <= bits.len(),
    ensures
        count_ones(bits.update(k, true), start, len) == count_ones(bits, start, len) + (if start <= k
            < start + len {
            1int
        } else {
            0int
        }),
    decreases len,
{
    if len > 0 {
        lemma_count_ones_set(bits, start, (len - 1) as nat, k);
        let last = start + len - 1;
        assert(bits.update(k, true)[last] == if last == k {
            true
        } else {
            bits[last]
        });
    }
}

/// A range of clear bits counts zero ones; a range of set bits counts all.
proof fn lemma_count_ones_uniform(bits: Seq<bool>, start: int, len: nat, value: bool)
    requires
        forall|j: int| start <= j < start + len ==> #[trigger] bits[j] == value,
    ensures
        count_ones(bits, start, len) == (if value {
            len as int
        } else {
            0
        }),
    decreases len,
{
    if len > 0 {
        lemma_count_ones_uniform(bits, start, (len - 1) as nat, value);
        assert(bits[start + len - 1] == value);
    }
}

/// `bits` with the two runs of coefficient `i` exchanged.
pub open spec fn swap_runs(bits: Seq<bool>, i: int, eta: nat) -> Seq<bool> {
    Seq::new(
        bits.len(),
        |k: int|
            if 2 * i * eta <= k < 2 * i * eta + eta {
                bits[k + eta]
            } else if 2 * i * eta + eta <= k < 2 * i * eta + 2 * eta {
                bits[k - eta]
            } else {
                bits[k]
            },
    )
}

/// The centered binomial sampler, bit by bit. For coefficient `i`, drawn
/// from the run of `eta` bits at `2 i eta` and the run after it:
/// - with every bit of both runs clear, the coefficient is `0`;
/// - with the first run all set and the second all clear, it is `eta`, and
///   the other way round it is `-eta`;
/// - setting one clear bit of the first run raises it by one, one of the
///   second run lowers it by one, and any other bit leaves it alone;
/// - exchanging the two runs negates it (the distribution is symmetric).
pub proof fn lemma_cbd_coeff_law(bits: Seq<bool>, i: int, eta: nat, k: int)
    requires
        i >= 0,
        2 * i * eta + 2 * eta <= bits.len(),
    ensures
        (forall|j: int| 2 * i * eta <= j < 2 * i * eta + 2 * eta ==> !#[trigger] bits[j]) ==> cbd_coeff(
            bits,
            i,
            eta,
        ) == 0,
        (forall|j: int|
            2 * i * eta <= j < 2 * i * eta + 2 * eta ==> #[trigger] bits[j] == (j < 2 * i * eta + eta))
            ==> cbd_coeff(bits, i, eta) == eta,
        (forall|j: int|
            2 * i * eta <= j < 2 * i * eta + 2 * eta ==> #[trigger] bits[j] == (j >= 2 * i * eta + eta))
            ==> cbd_coeff(bits, i, eta) == -eta,
        (0 <= k < bits.len() && !bits[k]) ==> cbd_coeff(bits.update(k, true), i, eta) == cbd_coeff(bits, i, eta)
            + (if 2 * i * eta <= k < 2 * i * eta + eta {
            1int
        } else if 2 * i * eta + eta <= k < 2 * i * eta + 2 * eta {
            -1int
        } else {
            0int
        }),
        cbd_coeff(swap_runs(bits, i, eta), i, eta) == -cbd_coeff(bits, i, eta),
{
    let a = 2 * i * eta;
    let b = a + eta;
    if forall|j: int| a <= j < a + 2 * eta ==> !#[trigger] bits[j] {
        lemma_count_ones_uniform(bits, a, eta, false);
        lemma_count_ones_uniform(bits, b, eta, false);
    }
    if forall|j: int| a <= j < a + 2 * eta ==> #[trigger] bits[j] == (j < b) {
        lemma_count_ones_uniform(bits, a, eta, true);
        lemma_count_ones_uniform(bits, b, eta, false);
    }
    if forall|j: int| a <= j < a + 2 * eta ==> #[trigger] bits[j] == (j >= b) {
        lemma_count_ones_uniform(bits, a, eta, false);
        lemma_count_ones_uniform(bits, b, eta, true);
    }
    if 0 <= k < bits.len() && !bits[k] {
        lemma_count_ones_set(bits, a, eta, k);
        lemma_count_ones_set(bits, b, eta, k);
    }
    let sw = swap_runs(bits, i, eta);
    assert forall|j: int| 0 <= j < eta implies #[trigger] sw[a + j] == bits[b + j] by {}
    assert forall|j: int| 0 <= j < eta implies #[trigger] sw[b + j] == bits[a + j] by {}
    lemma_count_ones_ext(sw, a, bits, b, eta);
    lemma_count_ones_ext(sw, b, bits, a, eta);
}

/// Noise taken into Z_q as `Noise::to_poly` does (Euclidean remainder by `q`
/// seen as an `i32`).
pub open spec fn noise_poly(e: Seq<i32>, q: u64) -> Seq<u64> {
    Seq::new(e.len(), |k: int| ((e[k] as int) % (q as i32 as int)) as u64)
}

/// `n` noise values in `[-eta, eta]`.
pub open spec fn is_noise(e: Seq<i32>, n: nat, eta: int) -> bool {
    e.len() == n && forall|k: int| 0 <= k < n ==> -eta <= #[trigger] e[k] <= eta
}

/// `n` coefficients in `{0, 1, q - 1}`.
pub open spec fn is_small(u: Seq<u64>, n: nat, q: int) -> bool {
    u.len() == n && forall|k: int|
        0 <= k < n ==> #[trigger] u[k] == 0 || u[k] == 1 || u[k] == q - 1
}

/// Noise coefficients, as signed integers.
#[derive(Clone, Debug)]
pub struct Noise(pub Vec<i32>);

impl core::ops::Deref for Noise {
    type Target = Vec<i32>;

    fn deref(&self) -> (r: &Vec<i32>)
        ensures
            r@ == self.0@,
    {
        &self.0
    }
}

impl Noise {
    /// Each coefficient reduced into `[0, |m|)` where `m` is `q` taken as an
    /// `i32` (Euclidean remainder).
    pub fn to_poly(self, q: u64) -> (p: Polynomial)
        requires
            (q as i32) != 0,
            (q as i32) == -1 ==> forall|k: int| 0 <= k < self.0@.len() ==> self.0@[k] != i32::MIN,
        ensures
            p.coeffs@.len() == self.0@.len(),
            forall|k: int|
                0 <= k < self.0@.len() ==> #[trigger] p.coeffs@[k] as int == (self.0@[k] as int) % (
                q as i32 as int),
    {
        let m = q as i32;
        let d: i64 = if m < 0 {
            -(m as i64)
        } else {
            m as i64
        };
        let len = self.0.len();
        let mut coeffs: Vec<u64> = Vec::with_capacity(len);
        let mut k: usize = 0;
        while k < len
            invariant
                len == self.0@.len(),
                m == q as i32,
                m != 0,
                d == if m < 0 {
                    -(m as int)
                } else {
                    m as int
                },
                k <= len,
                coeffs@.len() == k,
                forall|j: int|
                    0 <= j < k ==> #[trigger] coeffs@[j] as int == (self.0@[j] as int) % (m as int),
            decreases len - k,
        {
            let v = self.0[k] as i64;
            let r: i64 = if v >= 0 {
                v % d
            } else {
                let s = (-v) % d;
                if s == 0 {
                    0
                } else {
                    d - s
                }
            };
            proof {
                lemma_euclid_rem(v as int, m as int, d as int, r as int);
            }
            coeffs.push(r as u64);
            k = k + 1;
        }
        Polynomial::new(coeffs)
    }
}

/// The remainder computed by `to_poly` on non-negative operands is the
/// Euclidean remainder by `m`, whose sign does not matter.
pub(crate) proof fn lemma_euclid_rem(v: int, m: int, d: int, r: int)
    requires
        m != 0,
        d == if m < 0 {
            -m
        } else {
            m
        },
        r == if v >= 0 {
            v % d
        } else if (-v) % d == 0 {
            0
        } else {
            d - (-v) % d
        },
    ensures
        r == v % m,
        0 <= r < d,
{
    vstd::arithmetic::div_mod::lemma_mod_bound(v, d);
    vstd::arithmetic::div_mod::lemma_mod_bound(-v, d);
    vstd::arithmetic::div_mod::lemma_fundamental_div_mod(v, d);
    vstd::arithmetic::div_mod::lemma_fundamental_div_mod(-v, d);
    let k: int = if v >= 0 {
        v / d
    } else if (-v) % d == 0 {
        -((-v) / d)
    } else {
        -((-v) / d) - 1
    };
    assert(v == k * d + r) by (nonlinear_arith)
        requires
            d > 0,
            v == d * (v / d) + v % d,
            -v == d * ((-v) / d) + (-v) % d,
            k == if v >= 0 {
                v / d
            } else if (-v) % d == 0 {
                -((-v) / d)
            } else {
                -((-v) / d) - 1
            },
            r == if v >= 0 {
                v % d
            } else if (-v) % d == 0 {
                0
            } else {
                d - (-v) % d
            },
    ;
    assert(0 <= r < d);
    if m > 0 {
        vstd::arithmetic::div_mod::lemma_fundamental_div_mod_converse(v, m, k, r);
    } else {
        assert(v == (-k) * m + r) by (nonlinear_arith)
            requires
                v == k * d + r,
                d == -m,
        ;
        assert(r == v % m) by (nonlinear_arith)
            requires
                v == (-k) * m + r,
                0 <= r < -m,
        ;
    }
}

/// Centered binomial noise of `n` coefficients drawn from the random bits
/// `bytes`: coefficient `i` is the number of ones among bits
/// `2 i eta .. 2 i eta + eta` minus that among the next `eta` bits.
pub fn cbd_noise_from_bytes(n: usize, eta: usize, bytes: &Vec<u8>) -> (noise: Noise)
    requires
        eta <= i32::MAX,
        2 * n * eta <= 8 * bytes@.len(),
        2 * n * eta <= usize::MAX,
    ensures
        noise.0@.len() == n,
        forall|i: int|
            0 <= i < n ==> #[trigger] noise.0@[i] as int == cbd_coeff(bits_of_bytes(bytes@), i, eta as nat),
{
    let ghost bs = bits_of_bytes(bytes@);
    let mut coeffs = vec![0i32; n];
    let mut bit_index: usize = 0;
    let mut i: usize = 0;
    while i < n
        invariant
            eta <= i32::MAX,
            2 * n * eta <= 8 * bytes@.len(),
            2 * n * eta <= usize::MAX,
            bs == bits_of_bytes(bytes@),
            i <= n,
            bit_index == 2 * i * eta,
            coeffs@.len() == n,
            forall|j: int| 0 <= j < i ==> #[trigger] coeffs@[j] as int == cbd_coeff(bs, j, eta as nat),
        decreases n - i,
    {
        assert(2 * i * eta + 2 * eta <= 2 * n * eta) by (nonlinear_arith)
            requires
                i < n,
        ;
        let ghost start = bit_index;
        let mut a: u64 = 0;
        let mut b: u64 = 0;
        let mut c: usize = 0;
        while c < eta
            invariant
                eta <= i32::MAX,
                bs == bits_of_bytes(bytes@),
                start + 2 * eta <= 8 * bytes@.len(),
                start + 2 * eta <= usize::MAX,
                c <= eta,
                bit_index == start + c,
                a == count_ones(bs, start as int, c as nat),
            decreases eta - c,
        {
            let byte = bytes[bit_index / 8];
            let bit = (byte >> ((bit_index % 8) as u8)) & 1;
            proof {
                lemma_byte_bit_shift(byte, (bit_index % 8) as u8);
                assert(bs[bit_index as int] == byte_bit(bytes@[(bit_index / 8) as int], (bit_index % 8) as int));
                assert(bit == 0 || bit == 1) by (bit_vector)
                    requires
                        bit == (byte >> ((bit_index % 8) as u8)) & 1,
                ;
                lemma_count_ones_bound(bs, start as int, c as nat);
            }
            a = a + bit as u64;
            bit_index = bit_index + 1;
            c = c + 1;
        }
        let ghost mid = bit_index;
        let mut c: usize = 0;
        while c < eta
            invariant
                eta <= i32::MAX,
                bs == bits_of_bytes(bytes@),
                mid == start + eta,
                start + 2 * eta <= 8 * bytes@.len(),
                start + 2 * eta <= usize::MAX,
                c <= eta,
                bit_index == mid + c,
                b == count_ones(bs, mid as int, c as nat),
            decreases eta - c,
        {
            let byte = bytes[bit_index / 8];
            let bit = (byte >> ((bit_index % 8) as u8)) & 1;
            proof {
                lemma_byte_bit_shift(byte, (bit_index % 8) as u8);
                assert(bs[bit_index as int] == byte_bit(bytes@[(bit_index / 8) as int], (bit_index % 8) as int));
                assert(bit == 0 || bit == 1) by (bit_vector)
                    requires
                        bit == (byte >> ((bit_index % 8) as u8)) & 1,
                ;
                lemma_count_ones_bound(bs, mid as int, c as nat);
            }
            b = b + bit as u64;
            bit_index = bit_index + 1;
            c = c + 1;
        }
        proof {
            lemma_count_ones_bound(bs, start as int, eta as nat);
            lemma_count_ones_bound(bs, mid as int, eta as nat);
        }
        coeffs.set(i, a as i32 - b as i32);
        assert(2 * (i + 1) * eta == 2 * i * eta + 2 * eta) by (nonlinear_arith);
        i = i + 1;
    }
    Noise(coeffs)
}

/// Centered binomial noise of `n` coefficients, each the difference of two
/// sums of `eta` random bits: every coefficient lies in `[-eta, eta]`.
pub fn generate_cbd_noise(n: usize, eta: usize) -> (noise: Noise)
    requires
        eta <= i32::MAX,
        2 * n <= usize::MAX,
        2 * n * eta + 7 <= usize::MAX,
    ensures
        noise.0@.len() == n,
        forall|i: int| 0 <= i < n ==> -(eta as int) <= #[trigger] noise.0@[i] <= eta,
        exists|bytes: Seq<u8>|
            bytes.len() == (2 * n * eta + 7) / 8 && forall|i: int|
                0 <= i < n ==> #[trigger] noise.0@[i] as int == cbd_coeff(bits_of_bytes(bytes), i, eta as nat),
{
    let total_bits = 2 * n * eta;
    let total_bytes = (total_bits + 7) / 8;
    let mut rng_buf = vec![0u8; total_bytes];
    fill_random_bytes(&mut rng_buf);
    let noise = cbd_noise_from_bytes(n, eta, &rng_buf);
    proof {
        assert forall|i: int| 0 <= i < n implies -(eta as int) <= #[trigger] noise.0@[i] <= eta by {
            let bs = bits_of_bytes(rng_buf@);
            lemma_count_ones_bound(bs, 2 * i * eta, eta as nat);
            lemma_count_ones_bound(bs, 2 * i * eta + eta, eta as nat);
        }
    }
    noise
}

/// A small value `d` in `{-1, 0, 1}` as a coefficient of Z_q: `-1` becomes
/// `q - 1`.
pub open spec fn small_coeff(d: i8, q: u64) -> u64 {
    if d == -1 {
        (q - 1) as u64
    } else {
        d as u64
    }
}

/// Small values in `{-1, 0, 1}`.
pub open spec fn is_small_draws(draws: Seq<i8>) -> bool {
    forall|i: int| 0 <= i < draws.len() ==> -1 <= #[trigger] draws[i] <= 1
}

/// The polynomial whose coefficients are the given values of `{-1, 0, 1}`,
/// `-1` written as `q - 1`.
pub fn small_from_draws(draws: &Vec<i8>, q: u64) -> (p: Polynomial)
    requires
        q >= 1,
        is_small_draws(draws@),
    ensures
        p.coeffs@.len() == draws@.len(),
        forall|i: int| 0 <= i < draws@.len() ==> #[trigger] p.coeffs@[i] == small_coeff(draws@[i], q),
{
    let mut coeffs: Vec<u64> = Vec::with_capacity(draws.len());
    let mut k: usize = 0;
    while k < draws.len()
        invariant
            q >= 1,
            is_small_draws(draws@),
            k <= draws@.len(),
            coeffs@.len() == k,
            forall|j: int| 0 <= j < k ==> #[trigger] coeffs@[j] == small_coeff(draws@[j], q),
        decreases draws@.len() - k,
    {
        let d = draws[k];
        let val = if d == -1 {
            q - 1
        } else {
            d as u64
        };
        coeffs.push(val);
        k = k + 1;
    }
    Polynomial { coeffs }
}

/// A polynomial of `params.n` coefficients drawn at random from `{-1, 0, 1}`,
/// `-1` written as `q - 1`: for some drawn values `d`, coefficient `i` is
/// `small_coeff(d[i], q)`.
pub fn generate_small_polynomial(params: &RingParams) -> (p: Polynomial)
    requires
        params.q >= 1,
    ensures
        p.coeffs@.len() == params.n,
        exists|draws: Seq<i8>|
            draws.len() == params.n && is_small_draws(draws) && forall|i: int|
                0 <= i < params.n ==> #[trigger] p.coeffs@[i] == small_coeff(draws[i], params.q),
{
    let n = params.n;
    let mut draws: Vec<i8> = Vec::with_capacity(n);
    let mut k: usize = 0;
    while k < n
        invariant
            k <= n,
            draws@.len() == k,
            is_small_draws(draws@),
        decreases n - k,
    {
        let d = random_ternary();
        draws.push(d);
        k = k + 1;
    }
    small_from_draws(&draws, params.q)
}

/// A polynomial of `params.n` coefficients drawn at random from `[0, q)`.
pub fn generate_uniform_polynomial(params: &RingParams) -> (p: Polynomial)
    requires
        params.q >= 1,
    ensures
        p.coeffs@.len() == params.n,
        forall|k: int| 0 <= k < params.n ==> #[trigger] p.coeffs@[k] < params.q,
{
    let n = params.n;
    let mut coeffs: Vec<u64> = Vec::with_capacity(n);
    let mut k: usize = 0;
    while k < n
        invariant
            n == params.n,
            params.q >= 1,
            k <= n,
            coeffs@.len() == k,
            forall|j: int| 0 <= j < k ==> #[trigger] coeffs@[j] < params.q,
        decreases n - k,
    {
        let uniform = random_up_to(params.q - 1);
        coeffs.push(uniform);
        k = k + 1;
    }
    Polynomial { coeffs }
}

} // verus!
