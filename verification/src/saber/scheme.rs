//! Rounding between Z_q and Z_p, message encoding, key generation,
//! encryption and decryption.

use vstd::arithmetic::div_mod::*;
use vstd::arithmetic::mul::*;
use vstd::prelude::*;

use crate::ntt_mul::{
    lemma_mul_ntt_is_negacyclic_product, lemma_negacyclic_commutes, lemma_negacyclic_swap, transform_ready,
};
use crate::polys::{
    as_ints, centered, conv, lemma_mul_ntt_reduced, lemma_negacyclic_distributes, lemma_ntt_product_fits,
    negacyclic_mul, poly_reduce, poly_scale, poly_sum, spec_mul_ntt, words, Polynomial,
};
use crate::ring::RingParams;
use crate::sampling::{generate_cbd_noise, generate_small_polynomial, is_noise, is_small, noise_poly, Noise};
use crate::saber::config::Saber;
use crate::saber::types::{SaberKeypair, SaberPublicKey};

verus! {

/// A ciphertext: `v` carries the encoded message, `u` is the rounded
/// encryption-side public polynomial.
#[derive(Debug, Clone)]
pub struct SaberCiphertext {
    pub v: Polynomial,
    pub u: Polynomial,
}

/// A shared key of 32 bytes.
pub type Key = [u8; 32];

/// Rounding of the first `n` coefficients from Z_q to Z_p:
/// `((a p + q/2) / q) mod p`.
pub open spec fn saber_round(a: Seq<u64>, n: nat, p: int, q: int) -> Seq<u64> {
    Seq::new(n, |i: int| (((a[i] * p + q / 2) / q) % p) as u64)
}

/// Message coefficients mapped into Z_p: `((m (p/2)) mod q) mod p`, so that
/// a bit `1` becomes `p/2`.
pub open spec fn saber_encode(m: Seq<u64>, p: int, q: int) -> Seq<u64> {
    Seq::new(m.len(), |i: int| (((m[i] * (p / 2)) % q) % p) as u64)
}

/// A coefficient read back as a bit: `1` when its residue modulo `p` lies in
/// `[p/4, 3p/4)`, else `0`.
pub open spec fn decode_bit(c: int, p: int) -> u64 {
    let raw = c % p;
    if p / 4 <= raw && raw < 3 * p / 4 {
        1
    } else {
        0
    }
}

/// The first `n` coefficients read back as bits.
pub open spec fn saber_decode(e: Seq<u64>, n: nat, p: int) -> Seq<u64> {
    Seq::new(n, |i: int| decode_bit(e[i] as int, p))
}

/// A word read as a two's complement 64-bit integer.
pub open spec fn signed_word(c: u64) -> int {
    if c <= i64::MAX {
        c as int
    } else {
        c - 0x1_0000_0000_0000_0000
    }
}

/// The remainder of 64-bit signed division, `v % d` in Rust: the sign of
/// `v`, the magnitude `|v| mod |d|`.
pub open spec fn trunc_rem(v: int, d: int) -> int {
    let m = (if v >= 0 { v } else { -v }) % (if d >= 0 { d } else { -d });
    if v >= 0 {
        m
    } else {
        -m
    }
}

/// One compressed coefficient: with `v` the coefficient and `d` the modulus
/// `p`, both read as signed 64-bit integers, the remainder `r = v % d`, plus
/// `d` when `r` is negative, read back as a 64-bit word. For `p <= i64::MAX`
/// this is `v mod p`, in `[0, p)`.
pub open spec fn compress_coeff(c: u64, p: u64) -> u64 {
    let d = signed_word(p);
    let r = trunc_rem(signed_word(c), d);
    let x = if r < 0 {
        r + d
    } else {
        r
    };
    (if x >= 0 {
        x
    } else {
        x + 0x1_0000_0000_0000_0000
    }) as u64
}

/// Compressing `c` with the modulus `p` stays within 64-bit signed
/// arithmetic: always when `p <= i64::MAX`; for a larger `p` (a negative
/// signed divisor) the division must not be `i64::MIN % -1` and `r + d` must
/// not pass `i64::MIN`.
pub open spec fn compress_fits(c: u64, p: u64) -> bool {
    p <= i64::MAX || {
        let d = signed_word(p);
        let v = signed_word(c);
        let r = trunc_rem(v, d);
        &&& !(v == i64::MIN && d == -1)
        &&& (r < 0 ==> r + d >= i64::MIN)
    }
}

/// Every coefficient compressed with the modulus `p` (see `compress_coeff`).
pub open spec fn saber_compress(a: Seq<u64>, p: u64) -> Seq<u64> {
    Seq::new(a.len(), |i: int| compress_coeff(a[i], p))
}

/// Every coefficient taken back from Z_p to Z_q: `(c q) / p`.
pub open spec fn saber_lift(a: Seq<u64>, p: int, q: int) -> Seq<u64> {
    Seq::new(a.len(), |i: int| ((a[i] * q) / p) as u64)
}

/// `v - s` on the first `n` coefficients, adding `p` when `v < s`.
pub open spec fn diff_p(v: Seq<u64>, s: Seq<u64>, n: nat, p: int) -> Seq<u64> {
    Seq::new(
        n,
        |i: int|
            if v[i] >= s[i] {
                (v[i] - s[i]) as u64
            } else {
                (p - (s[i] - v[i])) as u64
            },
    )
}

/// The public polynomial `b = round(a s)`.
pub open spec fn spec_public_key(saber: Saber, a: Seq<u64>, s: Seq<u64>) -> Seq<u64> {
    let n = saber.params.n as nat;
    let q = saber.params.q as int;
    saber_round(spec_mul_ntt(a, s, n, saber.ntt_precalculated, q), n, saber.p as int, q)
}

/// The ciphertext `(v, u)` for the public key `b`, the public polynomial `a`,
/// the message `m` and the randomness `r`: `u = round(a r)` and
/// `v = (round(lift(b) r) + encode(m)) mod q mod p`.
pub open spec fn spec_encrypt(saber: Saber, b: Seq<u64>, a: Seq<u64>, m: Seq<u64>, r: Seq<u64>) -> (
    Seq<u64>,
    Seq<u64>,
) {
    let n = saber.params.n as nat;
    let q = saber.params.q as int;
    let p = saber.p as int;
    let tables = saber.ntt_precalculated;
    let u = saber_round(spec_mul_ntt(a, r, n, tables, q), n, p, q);
    let v0 = saber_round(spec_mul_ntt(saber_lift(b, p, q), r, n, tables, q), n, p, q);
    let enc = saber_encode(m, p, q);
    let v = Seq::new(n, |i: int| (((v0[i] + enc[i]) % q) % p) as u64);
    (v, u)
}

/// The decryptor's view of the message: `v - round(s lift(u))` in Z_p.
pub open spec fn spec_decrypt_phase(saber: Saber, s: Seq<u64>, v: Seq<u64>, u: Seq<u64>) -> Seq<u64> {
    let n = saber.params.n as nat;
    let q = saber.params.q as int;
    let p = saber.p as int;
    let su = saber_round(spec_mul_ntt(s, saber_lift(u, p, q), n, saber.ntt_precalculated, q), n, p, q);
    diff_p(v, su, n, p)
}

/// Decryption: the phase read back as bits.
pub open spec fn spec_decrypt(saber: Saber, s: Seq<u64>, v: Seq<u64>, u: Seq<u64>) -> Seq<u64> {
    saber_decode(spec_decrypt_phase(saber, s, v, u), saber.params.n as nat, saber.p as int)
}

/// Bits: `n` coefficients in `{0, 1}`.
pub open spec fn is_binary(m: Seq<u64>, n: nat) -> bool {
    m.len() == n && forall|i: int| 0 <= i < n ==> #[trigger] m[i] <= 1
}

/// A bit encoded as `bit * (p/2)` and moved by an error `e` with
/// `|e| < p/4` is still read back as `bit`.
proof fn lemma_decode_bit_tolerates(bit: int, e: int, c: int, p: int)
    requires
        p >= 4,
        bit == 0 || bit == 1,
        -(p / 4) < e < p / 4,
        c % p == (bit * (p / 2) + e) % p,
    ensures
        decode_bit(c, p) == bit,
{
    let x = bit * (p / 2) + e;
    if x >= 0 {
        assert(x < p);
        lemma_small_mod(x as nat, p as nat);
    } else {
        assert(bit == 0);
        lemma_mod_add_multiples_vanish(x, p);
        lemma_small_mod((x + p) as nat, p as nat);
        assert(c % p == x + p);
    }
}

/// One encoded bit: `((bit (p/2)) mod q) mod p` is `bit (p/2)` when `p/2 < q`.
proof fn lemma_encode_bit(bit: int, p: int, q: int)
    requires
        p >= 4,
        p / 2 < q,
        bit == 0 || bit == 1,
    ensures
        ((bit * (p / 2)) % q) % p == bit * (p / 2),
{
    let x = bit * (p / 2);
    assert(0 <= x < q && x < p);
    lemma_small_mod(x as nat, q as nat);
    lemma_small_mod(x as nat, p as nat);
}

/// Decoding undoes encoding: for bits `m` (`n` of them), a rounding modulus
/// `p >= 4` (of 64 bits) and `p/2 < q`, `decode(encode(m)) == m`.
pub proof fn lemma_decode_inverts_encode(m: Seq<u64>, n: nat, p: int, q: int)
    requires
        4 <= p <= u64::MAX,
        p / 2 < q,
        is_binary(m, n),
    ensures
        saber_decode(saber_encode(m, p, q), n, p) == m,
{
    let enc = saber_encode(m, p, q);
    assert forall|i: int| 0 <= i < n implies #[trigger] saber_decode(enc, n, p)[i] == m[i] by {
        lemma_encode_bit(m[i] as int, p, q);
        assert(enc[i] as int == m[i] * (p / 2) + 0);
        lemma_decode_bit_tolerates(m[i] as int, 0, enc[i] as int, p);
    }
    assert(saber_decode(enc, n, p) =~= m);
}

/// Decryption tolerates noise: when every coefficient of the phase
/// `v - round(s lift(u))` equals, modulo `p`, the encoded message bit plus
/// an error of absolute value below `p/4`, decryption returns the message
/// (for `p >= 4` and `p/2 < q`).
pub proof fn lemma_decrypt_recovers_message(
    saber: Saber,
    s: Seq<u64>,
    v: Seq<u64>,
    u: Seq<u64>,
    m: Seq<u64>,
    e: Seq<int>,
)
    requires
        saber.p >= 4,
        saber.p / 2 < saber.params.q,
        is_binary(m, saber.params.n as nat),
        e.len() == saber.params.n,
        forall|i: int| 0 <= i < saber.params.n ==> -(saber.p / 4) < #[trigger] e[i] < saber.p / 4,
        forall|i: int|
            0 <= i < saber.params.n ==> (#[trigger] spec_decrypt_phase(saber, s, v, u)[i] as int) % (saber.p as int)
                == (saber_encode(m, saber.p as int, saber.params.q as int)[i] + e[i]) % (saber.p as int),
    ensures
        spec_decrypt(saber, s, v, u) == m,
{
    let n = saber.params.n as nat;
    let p = saber.p as int;
    let q = saber.params.q as int;
    let phase = spec_decrypt_phase(saber, s, v, u);
    let enc = saber_encode(m, p, q);
    assert forall|i: int| 0 <= i < n implies #[trigger] spec_decrypt(saber, s, v, u)[i] == m[i] by {
        lemma_encode_bit(m[i] as int, p, q);
        assert((phase[i] as int) % p == (enc[i] + e[i]) % p);
        lemma_decode_bit_tolerates(m[i] as int, e[i], phase[i] as int, p);
    }
    assert(spec_decrypt(saber, s, v, u) =~= m);
}

/// Lifting then rounding gives back a coefficient of Z_p when `2 p <= q`.
proof fn lemma_round_lift_coeff(c: int, p: int, q: int)
    requires
        0 <= c < p,
        2 * p <= q,
    ensures
        ((((c * q) / p) * p + q / 2) / q) % p == c,
{
    let k = (c * q) / p;
    let r = (c * q) % p;
    lemma_fundamental_div_mod(c * q, p);
    lemma_mod_bound(c * q, p);
    lemma_mul_is_commutative(p, k);
    assert(k * p + q / 2 == q * c + (q / 2 - r)) by {
        lemma_mul_is_commutative(c, q);
    }
    lemma_fundamental_div_mod_converse(k * p + q / 2, q, c, q / 2 - r);
    lemma_small_mod(c as nat, p as nat);
}

/// Rounding undoes lifting: coefficients of Z_p taken to Z_q and rounded
/// back are unchanged, for `2 p <= q`.
pub proof fn lemma_round_inverts_lift(c: Seq<u64>, n: nat, p: int, q: int)
    requires
        0 < p,
        2 * p <= q <= u64::MAX,
        c.len() == n,
        forall|i: int| 0 <= i < n ==> #[trigger] c[i] < p,
    ensures
        saber_round(saber_lift(c, p, q), n, p, q) == c,
{
    let l = saber_lift(c, p, q);
    assert forall|i: int| 0 <= i < n implies #[trigger] saber_round(l, n, p, q)[i] == c[i] by {
        let x = c[i] as int;
        assert((x * q) / p <= q) by {
            lemma_mul_inequality(x, p, q);
            lemma_mul_is_commutative(p, q);
            lemma_div_is_ordered(x * q, q * p, p);
            lemma_div_multiples_vanish(q, p);
        }
        assert(l[i] == (x * q) / p);
        lemma_round_lift_coeff(x, p, q);
    }
    assert(saber_round(l, n, p, q) =~= c);
}

/// `(y p + q/2) / q`: `y p / q` rounded half up, for any integer `y`.
pub open spec fn rnd(y: int, p: int, q: int) -> int {
    (y * p + q / 2) / q
}

/// Adding `k q` to the argument adds `k p` to the rounding.
proof fn lemma_rnd_shift(y: int, k: int, p: int, q: int)
    requires
        q > 0,
    ensures
        rnd(y + k * q, p, q) == rnd(y, p, q) + k * p,
{
    let nn = y * p + q / 2;
    lemma_fundamental_div_mod(nn, q);
    lemma_mod_bound(nn, q);
    assert((y + k * q) * p + q / 2 == q * (nn / q + k * p) + nn % q) by (nonlinear_arith)
        requires
            nn == y * p + q / 2,
            nn == q * (nn / q) + nn % q,
    ;
    lemma_fundamental_div_mod_converse((y + k * q) * p + q / 2, q, nn / q + k * p, nn % q);
}

/// Congruent arguments round to congruent values modulo `p`.
proof fn lemma_rnd_cong(y1: int, y2: int, p: int, q: int)
    requires
        q > 0,
        p > 0,
        y1 % q == y2 % q,
    ensures
        rnd(y1, p, q) % p == rnd(y2, p, q) % p,
{
    lemma_fundamental_div_mod(y1, q);
    lemma_fundamental_div_mod(y2, q);
    let k = y2 / q - y1 / q;
    assert(y2 == y1 + k * q) by (nonlinear_arith)
        requires
            y1 == q * (y1 / q) + y1 % q,
            y2 == q * (y2 / q) + y2 % q,
            y1 % q == y2 % q,
            k == y2 / q - y1 / q,
    ;
    lemma_rnd_shift(y1, k, p, q);
    lemma_mod_multiples_vanish(k, rnd(y1, p, q), p);
    lemma_mul_is_commutative(k, p);
}

/// Rounding two arguments that differ by `d` gives values that differ by
/// less than `p/4` when `|d| p < q (p/4 - 1)`.
proof fn lemma_rnd_close(x: int, d1: int, d2: int, p: int, q: int)
    requires
        q > 0,
        p >= 4,
        (if d1 - d2 < 0 { d2 - d1 } else { d1 - d2 }) * p < q * (p / 4 - 1),
    ensures
        -(p / 4) < rnd(x + d1, p, q) - rnd(x + d2, p, q) < p / 4,
{
    let n1 = (x + d1) * p + q / 2;
    let n2 = (x + d2) * p + q / 2;
    lemma_fundamental_div_mod(n1, q);
    lemma_fundamental_div_mod(n2, q);
    lemma_mod_bound(n1, q);
    lemma_mod_bound(n2, q);
    let f = n1 / q - n2 / q;
    let dd = if d1 - d2 < 0 { d2 - d1 } else { d1 - d2 };
    assert(q * f == (d1 - d2) * p + n2 % q - n1 % q) by (nonlinear_arith)
        requires
            n1 == q * (n1 / q) + n1 % q,
            n2 == q * (n2 / q) + n2 % q,
            n1 == (x + d1) * p + q / 2,
            n2 == (x + d2) * p + q / 2,
            f == n1 / q - n2 / q,
    ;
    assert(-(dd * p) <= (d1 - d2) * p <= dd * p) by (nonlinear_arith)
        requires
            p > 0,
            dd == if d1 - d2 < 0 { d2 - d1 } else { d1 - d2 },
    ;
    assert(-(p / 4) < f < p / 4) by (nonlinear_arith)
        requires
            q > 0,
            q * f < q * (p / 4 - 1) + q,
            q * f > -(q * (p / 4 - 1)) - q,
    ;
}

/// The error of lifting back a rounded polynomial, in Z_q:
/// `lift(round(x)) - x` on the first `n` coefficients.
pub open spec fn lift_error(saber: Saber, x: Seq<u64>) -> Seq<u64> {
    let n = saber.params.n as nat;
    let q = saber.params.q as int;
    let p = saber.p as int;
    let l = saber_lift(saber_round(x, n, p, q), p, q);
    Seq::new(n, |i: int| ((l[i] - x[i]) % q) as u64)
}

/// The rounding noise of a fresh encryption under `b = round(a s)` with
/// randomness `r`: with `e_b` and `e_u` the lifting errors of `b` and of
/// `u = round(a r)`, the centered coefficients of `e_b r` less those of
/// `e_u s` (products in Z_q[X]/(X^n + 1)).
pub open spec fn spec_rounding_noise(saber: Saber, a: Seq<u64>, s: Seq<u64>, r: Seq<u64>) -> Seq<int> {
    let n = saber.params.n as nat;
    let q = saber.params.q as int;
    let tables = saber.ntt_precalculated;
    let eb = lift_error(saber, spec_mul_ntt(a, s, n, tables, q));
    let eu = lift_error(saber, spec_mul_ntt(a, r, n, tables, q));
    let x = negacyclic_mul(eb, r, n, q);
    let y = negacyclic_mul(eu, s, n, q);
    Seq::new(n, |i: int| centered(x[i], q) - centered(y[i], q))
}

/// One phase coefficient of a fresh encryption: the rounded products are
/// congruent to `x + d1` and `x + d2`, the message is added below `q`, and
/// the phase is `enc + rnd(x + d1) - rnd(x + d2)` modulo `p`.
proof fn lemma_phase_coeff(
    p: int,
    q: int,
    x: int,
    y1: int,
    y2: int,
    d1: int,
    d2: int,
    enc: int,
    v0: int,
    su: int,
    v: int,
    phase: int,
)
    requires
        p >= 4,
        2 * p <= q,
        y1 % q == (x + d1) % q,
        y2 % q == (x + d2) % q,
        v0 == rnd(y1, p, q) % p,
        su == rnd(y2, p, q) % p,
        0 <= enc < p,
        v == ((v0 + enc) % q) % p,
        phase == if v >= su { v - su } else { p - (su - v) },
    ensures
        phase % p == (enc + (rnd(x + d1, p, q) - rnd(x + d2, p, q))) % p,
{
    lemma_rnd_cong(y1, x + d1, p, q);
    lemma_rnd_cong(y2, x + d2, p, q);
    lemma_mod_bound(rnd(y1, p, q), p);
    lemma_mod_bound(rnd(y2, p, q), p);
    lemma_small_mod((v0 + enc) as nat, q as nat);
    let r1 = rnd(x + d1, p, q);
    let r2 = rnd(x + d2, p, q);
    lemma_mod_twice(r1, p);
    lemma_mod_twice(r2, p);
    // v == (v0 + enc) mod p, congruent to r1 + enc
    lemma_add_mod_noop(v0, enc, p);
    lemma_add_mod_noop(r1, enc, p);
    assert(v % p == (r1 + enc) % p) by {
        lemma_mod_bound(v0 + enc, p);
        lemma_mod_twice(v0 + enc, p);
    }
    assert(phase % p == (v - su) % p) by {
        lemma_mod_bound(v0 + enc, p);
        if v >= su {
        } else {
            lemma_mod_add_multiples_vanish(v - su, p);
        }
    }
    lemma_sub_mod_noop(v, su, p);
    lemma_sub_mod_noop(r1 + enc, r2, p);
    assert(su % p == r2 % p);
    lemma_mod_bound(v0 + enc, p);
    lemma_mod_twice(v, p);
    assert((v - su) % p == (r1 + enc - r2) % p);
    assert(r1 + enc - r2 == enc + (r1 - r2));
}

/// Decryption undoes encryption: for parameters on which the product by
/// transforms is the ring product, with `p >= 4` and `2 p <= q`, the
/// encryption of bits `m` under the public key `round(a s)` with
/// randomness `r` decrypts to `m` whenever every coefficient of the
/// rounding noise `d` satisfies `|d| p < q (p/4 - 1)`.
pub proof fn lemma_saber_decrypt_undoes_encrypt(saber: Saber, a: Seq<u64>, s: Seq<u64>, m: Seq<u64>, r: Seq<u64>)
    requires
        saber.wf(),
        transform_ready(saber.params, saber.ntt_precalculated),
        saber.p >= 4,
        2 * saber.p <= saber.params.q,
        is_binary(m, saber.params.n as nat),
        a.len() == saber.params.n,
        s.len() == saber.params.n,
        r.len() == saber.params.n,
        forall|i: int|
            0 <= i < saber.params.n ==> (if #[trigger] spec_rounding_noise(saber, a, s, r)[i] < 0 {
                -spec_rounding_noise(saber, a, s, r)[i]
            } else {
                spec_rounding_noise(saber, a, s, r)[i]
            }) * saber.p < saber.params.q * (saber.p / 4 - 1),
    ensures
        spec_decrypt(
            saber,
            s,
            spec_encrypt(saber, spec_public_key(saber, a, s), a, m, r).0,
            spec_encrypt(saber, spec_public_key(saber, a, s), a, m, r).1,
        ) == m,
{
    let n = saber.params.n as nat;
    let q = saber.params.q as int;
    let p = saber.p as int;
    let params = saber.params;
    let tables = saber.ntt_precalculated;
    let asw = spec_mul_ntt(a, s, n, tables, q);
    let arw = spec_mul_ntt(a, r, n, tables, q);
    let b = spec_public_key(saber, a, s);
    let (v, u) = spec_encrypt(saber, b, a, m, r);
    let lb = saber_lift(b, p, q);
    let lu = saber_lift(u, p, q);
    let eb = lift_error(saber, asw);
    let eu = lift_error(saber, arw);
    lemma_mul_ntt_is_negacyclic_product(params, tables, a, s);
    lemma_mul_ntt_is_negacyclic_product(params, tables, a, r);
    assert(as_ints(asw).len() == asw.len() && as_ints(arw).len() == arw.len());
    assert(asw =~= words(negacyclic_mul(a, s, n, q)));
    assert(arw =~= words(negacyclic_mul(a, r, n, q)));
    // the lifted polynomials are the products plus their lifting errors
    assert forall|i: int| 0 <= i < n implies #[trigger] lb[i] < q by {
        lemma_mod_bound((asw[i] * p + q / 2) / q, p);
        lemma_lift_below(b[i] as int, p, q);
    }
    assert forall|i: int| 0 <= i < n implies #[trigger] lu[i] < q by {
        lemma_mod_bound((arw[i] * p + q / 2) / q, p);
        lemma_lift_below(u[i] as int, p, q);
    }
    assert(lb =~= words(poly_sum(asw, eb, n, q))) by {
        assert forall|i: int| 0 <= i < n implies #[trigger] lb[i] == words(poly_sum(asw, eb, n, q))[i] by {
            lemma_mod_bound(lb[i] - asw[i], q);
            lemma_add_mod_noop_right(asw[i] as int, lb[i] - asw[i], q);
            lemma_small_mod(lb[i] as nat, q as nat);
        }
    }
    assert(lu =~= words(poly_sum(arw, eu, n, q))) by {
        assert forall|i: int| 0 <= i < n implies #[trigger] lu[i] == words(poly_sum(arw, eu, n, q))[i] by {
            lemma_mod_bound(lu[i] - arw[i], q);
            lemma_add_mod_noop_right(arw[i] as int, lu[i] - arw[i], q);
            lemma_small_mod(lu[i] as nat, q as nat);
        }
    }
    lemma_mul_ntt_is_negacyclic_product(params, tables, lb, r);
    lemma_mul_ntt_is_negacyclic_product(params, tables, s, lu);
    lemma_negacyclic_commutes(params, tables, s, lu);
    lemma_negacyclic_distributes(asw, eb, r, n, q);
    lemma_negacyclic_distributes(arw, eu, s, n, q);
    lemma_negacyclic_swap(params, tables, a, s, r);
    let y1s = spec_mul_ntt(lb, r, n, tables, q);
    let y2s = spec_mul_ntt(s, lu, n, tables, q);
    assert(as_ints(y1s).len() == n && as_ints(y1s).len() == y1s.len());
    assert(as_ints(y2s).len() == n && as_ints(y2s).len() == y2s.len());
    let xs = negacyclic_mul(asw, r, n, q);
    let ebr = negacyclic_mul(eb, r, n, q);
    let eus = negacyclic_mul(eu, s, n, q);
    let noise = spec_rounding_noise(saber, a, s, r);
    let e = Seq::new(n, |i: int| rnd(xs[i] + centered(ebr[i], q), p, q) - rnd(xs[i] + centered(eus[i], q), p, q));
    let enc = saber_encode(m, p, q);
    let phase = spec_decrypt_phase(saber, s, v, u);
    let v0 = saber_round(y1s, n, p, q);
    let su = saber_round(y2s, n, p, q);
    assert(phase == diff_p(v, su, n, p));
    assert forall|i: int| 0 <= i < n implies -(p / 4) < #[trigger] e[i] < p / 4 && (phase[i] as int) % p == (enc[i]
        + e[i]) % p by {
        let d1 = centered(ebr[i], q);
        let d2 = centered(eus[i], q);
        assert(noise[i] == d1 - d2);
        lemma_rnd_close(xs[i], d1, d2, p, q);
        let y1 = y1s[i] as int;
        let y2 = y2s[i] as int;
        assert(as_ints(y1s)[i] == y1);
        assert(as_ints(y2s)[i] == y2);
        assert(y1 == (xs[i] + ebr[i]) % q);
        assert(negacyclic_mul(lu, s, n, q)[i] == (negacyclic_mul(arw, s, n, q)[i] + eus[i]) % q);
        assert(y2 == (xs[i] + eus[i]) % q);
        assert(y1 % q == (xs[i] + d1) % q) by {
            lemma_mod_twice(xs[i] + ebr[i], q);
            if ebr[i] > q / 2 {
                lemma_mod_add_multiples_vanish(xs[i] + d1, q);
            }
        }
        assert(y2 % q == (xs[i] + d2) % q) by {
            lemma_mod_twice(xs[i] + eus[i], q);
            if eus[i] > q / 2 {
                lemma_mod_add_multiples_vanish(xs[i] + d2, q);
            }
        }
        lemma_encode_bit(m[i] as int, p, q);
        assert(enc[i] as int == m[i] * (p / 2));
        lemma_mod_bound(rnd(y1, p, q), p);
        lemma_mod_bound(rnd(y2, p, q), p);
        assert(v0[i] as int == rnd(y1, p, q) % p);
        assert(su[i] as int == rnd(y2, p, q) % p);
        lemma_mod_bound(v0[i] + enc[i], q);
        lemma_mod_bound((v0[i] + enc[i]) % q, p);
        assert(v[i] as int == ((v0[i] + enc[i]) % q) % p);
        lemma_phase_coeff(
            p,
            q,
            xs[i],
            y1,
            y2,
            d1,
            d2,
            enc[i] as int,
            v0[i] as int,
            su[i] as int,
            v[i] as int,
            phase[i] as int,
        );
    }
    lemma_decrypt_recovers_message(saber, s, v, u, m, e);
}

/// Lifting a value of Z_p lands below `q`.
proof fn lemma_lift_below(c: int, p: int, q: int)
    requires
        0 <= c < p,
        q > 0,
    ensures
        0 <= (c * q) / p < q,
{
    assert(c * q < p * q) by (nonlinear_arith)
        requires
            0 <= c < p,
            q > 0,
    ;
    assert(c * q >= 0) by (nonlinear_arith)
        requires
            0 <= c,
            q > 0,
    ;
    lemma_div_pos_is_pos(c * q, p);
    lemma_div_is_ordered(c * q, p * q - 1, p);
    lemma_div_multiples_vanish_fancy(q - 1, p - 1, p);
    assert(p * (q - 1) + (p - 1) == p * q - 1) by (nonlinear_arith);
}

impl Saber {
    /// Rounds the first `params.n` coefficients from Z_q to Z_p:
    /// `((a p + q/2) / q) mod p`, i.e. `a p / q` rounded half up, mod `p`.
    pub fn round(&self, params: &RingParams, a: Polynomial) -> (r: Polynomial)
        requires
            self.p > 0,
            params.q > 0,
            params.n <= a.coeffs.len(),
            forall|i: int| 0 <= i < params.n ==> #[trigger] a.coeffs@[i] * self.p + params.q / 2 <= u64::MAX,
        ensures
            r.coeffs@ == saber_round(a.coeffs@, params.n as nat, self.p as int, params.q as int),
    {
        let n = params.n;
        let q = params.q;
        let p = self.p;
        let mut result = vec![0u64; n];
        let mut i: usize = 0;
        while i < n
            invariant
                n == params.n,
                q == params.q,
                p == self.p,
                p > 0,
                q > 0,
                n <= a.coeffs.len(),
                forall|k: int| 0 <= k < n ==> #[trigger] a.coeffs@[k] * p + q / 2 <= u64::MAX,
                i <= n,
                result.len() == n,
                forall|k: int| 0 <= k < i ==> #[trigger] result@[k] == saber_round(a.coeffs@, n as nat, p as int, q as int)[k],
            decreases n - i,
        {
            proof {
                assert(a.coeffs@[i as int] * p + q / 2 <= u64::MAX);
            }
            let c = (((a.coeffs[i] * p) + q / 2) / q) % p;
            result.set(i, c);
            i = i + 1;
        }
        let r = Polynomial::new(result);
        assert(r.coeffs@ =~= saber_round(a.coeffs@, n as nat, p as int, q as int));
        r
    }

    /// Maps message bits into Z_p: every coefficient times `p/2` modulo `q`,
    /// then reduced modulo `p`.
    pub fn encode(&self, params: &RingParams, m: &Polynomial) -> (r: Polynomial)
        requires
            self.p > 0,
            params.q > 0,
        ensures
            r.coeffs@ == saber_encode(m.coeffs@, self.p as int, params.q as int),
    {
        let p = self.p;
        let factor = p / 2;
        let m2 = m.scale(params, factor);
        let r = m2.reduce(p as u128);
        proof {
            let e = saber_encode(m.coeffs@, p as int, params.q as int);
            assert(as_ints(m2.coeffs@) == poly_scale(m.coeffs@, factor as int, params.q as int));
            assert(as_ints(r.coeffs@) == poly_reduce(m2.coeffs@, p as int));
            assert(as_ints(m2.coeffs@).len() == m2.coeffs@.len());
            assert(m2.coeffs@.len() == m.coeffs@.len());
            assert(as_ints(r.coeffs@).len() == r.coeffs@.len());
            assert(r.coeffs@.len() == m.coeffs@.len());
            assert forall|k: int| 0 <= k < m.coeffs@.len() implies #[trigger] r.coeffs@[k] == e[k] by {
                assert(as_ints(m2.coeffs@)[k] == m2.coeffs@[k] as int);
                assert(as_ints(r.coeffs@)[k] == r.coeffs@[k] as int);
                lemma_mod_bound(m.coeffs@[k] * factor, params.q as int);
                lemma_mod_bound((m.coeffs@[k] * factor) % (params.q as int), p as int);
            }
            assert(r.coeffs@.len() == as_ints(r.coeffs@).len());
            assert(r.coeffs@ =~= e);
        }
        r
    }

    /// Reads the first `params.n` coefficients back as bits: `1` when the
    /// residue modulo `p` lies in `[p/4, 3p/4)`, else `0`.
    pub fn decode(&self, params: &RingParams, encoded: &Polynomial) -> (r: Polynomial)
        requires
            self.p > 0,
            3 * self.p <= u64::MAX,
            params.n <= encoded.coeffs.len(),
        ensures
            r.coeffs@ == saber_decode(encoded.coeffs@, params.n as nat, self.p as int),
    {
        let p = self.p;
        let quarter_p = p / 4;
        let three_quarter_p = 3 * p / 4;
        let n = params.n;
        let mut coeffs = vec![0u64; n];
        let mut i: usize = 0;
        while i < n
            invariant
                n == params.n,
                p == self.p,
                p > 0,
                quarter_p == p / 4,
                three_quarter_p == 3 * p / 4,
                n <= encoded.coeffs.len(),
                i <= n,
                coeffs.len() == n,
                forall|k: int| 0 <= k < i ==> #[trigger] coeffs@[k] == decode_bit(encoded.coeffs@[k] as int, p as int),
            decreases n - i,
        {
            let raw = encoded.coeffs[i] % p;
            let bit = if raw >= quarter_p && raw < three_quarter_p {
                1
            } else {
                0
            };
            coeffs.set(i, bit);
            i = i + 1;
        }
        let r = Polynomial::new(coeffs);
        assert(r.coeffs@ =~= saber_decode(encoded.coeffs@, n as nat, p as int));
        r
    }

    /// Every coefficient compressed with the modulus `p`: read as a signed
    /// 64-bit integer, reduced by `p` read the same way, and brought up by
    /// `p` when negative. For `p <= i64::MAX` this is reduction into `[0, p)`.
    /// `p` must be nonzero and every coefficient must satisfy
    /// `compress_fits`, so that the signed division and the correction stay
    /// within 64-bit signed arithmetic.
    pub fn compress(&self, poly: &Polynomial) -> (r: Polynomial)
        requires
            self.p > 0,
            forall|i: int| 0 <= i < poly.coeffs@.len() ==> #[trigger] compress_fits(poly.coeffs@[i], self.p),
        ensures
            r.coeffs@ == saber_compress(poly.coeffs@, self.p),
    {
        let len = poly.coeffs.len();
        let p = self.p;
        let pd = p as i64;
        proof {
            if p > 0x7fff_ffff_ffff_ffff {
                assert(p > 0x7fff_ffff_ffff_ffff ==> pd as int == p as int - 0x1_0000_0000_0000_0000)
                    by (bit_vector)
                    requires
                        pd == p as i64,
                ;
            }
        }
        let d = pd as i128;
        assert(d as int == signed_word(p));
        let e: i128 = if d >= 0 {
            d
        } else {
            -d
        };
        let mut result = vec![0u64; len];
        let mut i: usize = 0;
        while i < len
            invariant
                len == poly.coeffs.len(),
                d == signed_word(p),
                p == self.p,
                p > 0,
                e as int == (if d >= 0 { d as int } else { -d }),
                e > 0,
                forall|k: int| 0 <= k < len ==> #[trigger] compress_fits(poly.coeffs@[k], p),
                i <= len,
                result.len() == len,
                forall|k: int| 0 <= k < i ==> #[trigger] result@[k] == saber_compress(poly.coeffs@, p)[k],
            decreases len - i,
        {
            let c = poly.coeffs[i];
            let val = c as i64;
            proof {
                if c > 0x7fff_ffff_ffff_ffff {
                    assert(c > 0x7fff_ffff_ffff_ffff ==> val as int == c as int - 0x1_0000_0000_0000_0000)
                        by (bit_vector)
                        requires
                            val == c as i64,
                    ;
                }
            }
            let v = val as i128;
            assert(v as int == signed_word(c));
            let a: i128 = if v >= 0 {
                v
            } else {
                -v
            };
            let m = a % e;
            let r: i128 = if v >= 0 {
                m
            } else {
                -m
            };
            assert(r as int == trunc_rem(signed_word(c), signed_word(p)));
            assert(compress_fits(c, p));
            let x: i128 = if r < 0 {
                r + d
            } else {
                r
            };
            proof {
                if d > 0 && r < 0 {
                    assert(m < e);
                }
            }
            let w: u64 = if x >= 0 {
                x as u64
            } else {
                (x + 0x1_0000_0000_0000_0000i128) as u64
            };
            assert(w == compress_coeff(c, p));
            result.set(i, w);
            i = i + 1;
        }
        let r = Polynomial::new(result);
        assert(r.coeffs@ =~= saber_compress(poly.coeffs@, self.p));
        r
    }

    /// Every coefficient taken back from Z_p to Z_q: `(c q) / p`.
    pub fn lift(&self, poly: &Polynomial) -> (r: Polynomial)
        requires
            self.p > 0,
            forall|i: int| 0 <= i < poly.coeffs@.len() ==> #[trigger] poly.coeffs@[i] * self.params.q <= u64::MAX,
        ensures
            r.coeffs@ == saber_lift(poly.coeffs@, self.p as int, self.params.q as int),
    {
        let len = poly.coeffs.len();
        let q = self.params.q;
        let p = self.p;
        let mut result: Vec<u64> = Vec::with_capacity(len);
        let mut i: usize = 0;
        while i < len
            invariant
                len == poly.coeffs.len(),
                q == self.params.q,
                p == self.p,
                p > 0,
                forall|k: int| 0 <= k < len ==> #[trigger] poly.coeffs@[k] * q <= u64::MAX,
                i <= len,
                result.len() == i,
                forall|k: int| 0 <= k < i ==> #[trigger] result@[k] == saber_lift(poly.coeffs@, p as int, q as int)[k],
            decreases len - i,
        {
            proof {
                assert(poly.coeffs@[i as int] * q <= u64::MAX);
            }
            let c = (poly.coeffs[i] * q) / p;
            result.push(c);
            i = i + 1;
        }
        let r = Polynomial::new(result);
        assert(r.coeffs@ =~= saber_lift(poly.coeffs@, p as int, q as int));
        r
    }

    /// Key generation for the given public polynomial `a`, seed and secret
    /// `s`: the public key is `(round(a s), seed)`.
    pub fn keygen_with(&self, a: &Polynomial, seed: [u8; 32], s: Polynomial) -> (kp: SaberKeypair)
        requires
            self.ring_ok(),
            a.coeffs.len() == s.coeffs.len(),
            self.params.n <= a.coeffs.len(),
        ensures
            kp.public_key.0.coeffs@ == spec_public_key(*self, a.coeffs@, s.coeffs@),
            kp.public_key.1 == seed,
            kp.secret_key.coeffs@ == s.coeffs@,
    {
        let params = &self.params;
        let ntt_tables = &self.ntt_precalculated;
        proof {
            lemma_ntt_product_fits(a.coeffs@, s.coeffs@, params.n as nat, *ntt_tables, params.q as int);
            lemma_mul_ntt_reduced(a.coeffs@, s.coeffs@, params.n as nat, *ntt_tables, params.q as int);
        }
        let b_raw = a.mul_ntt(params, ntt_tables, &s);
        proof {
            self.lemma_round_fits(b_raw.coeffs@);
        }
        let b = self.round(params, b_raw);
        SaberKeypair::new(b, seed, s)
    }

    /// Key generation for the given public polynomial `a` and its seed, with
    /// a fresh secret `s` drawn from `{-1, 0, 1}`.
    pub fn keygen(&self, a: &Polynomial, seed: [u8; 32]) -> (kp: SaberKeypair)
        requires
            self.ring_ok(),
            a.coeffs.len() == self.params.n,
        ensures
            is_small(kp.secret_key.coeffs@, self.params.n as nat, self.params.q as int),
            kp.public_key.0.coeffs@ == spec_public_key(*self, a.coeffs@, kp.secret_key.coeffs@),
            kp.public_key.1 == seed,
    {
        let s = generate_small_polynomial(&self.params);
        self.keygen_with(a, seed, s)
    }

    /// Encryption of `message` with the given randomness `r` (taken into
    /// Z_q): `u = round(a r)`, `v = round(lift(b) r) + encode(message)`.
    pub fn encrypt_with(
        &self,
        public_key: &SaberPublicKey,
        a: &Polynomial,
        message: &Polynomial,
        r: Noise,
    ) -> (ct: SaberCiphertext)
        requires
            self.wf(),
            a.coeffs.len() == self.params.n,
            public_key.0.coeffs.len() == self.params.n,
            message.coeffs.len() == self.params.n,
            is_noise(r.0@, self.params.n as nat, self.eta as int),
            forall|i: int|
                0 <= i < self.params.n ==> #[trigger] public_key.0.coeffs@[i] * self.params.q <= u64::MAX,
        ensures
            (ct.v.coeffs@, ct.u.coeffs@) == spec_encrypt(
                *self,
                public_key.0.coeffs@,
                a.coeffs@,
                message.coeffs@,
                noise_poly(r.0@, self.params.q),
            ),
    {
        let params = &self.params;
        let ntt_tables = &self.ntt_precalculated;
        let ghost rv = r.0@;
        let r = r.to_poly(params.q);
        let ghost n = params.n as nat;
        let ghost q = params.q as int;
        proof {
            assert(r.coeffs@ =~= noise_poly(rv, params.q));
            lemma_ntt_product_fits(a.coeffs@, r.coeffs@, n, *ntt_tables, q);
            lemma_mul_ntt_reduced(a.coeffs@, r.coeffs@, n, *ntt_tables, q);
        }
        let u_raw = a.mul_ntt(params, ntt_tables, &r);
        proof {
            self.lemma_round_fits(u_raw.coeffs@);
        }
        let u = self.round(params, u_raw);
        let b_in_q = self.lift(&public_key.0);
        proof {
            lemma_ntt_product_fits(b_in_q.coeffs@, r.coeffs@, n, *ntt_tables, q);
            lemma_mul_ntt_reduced(b_in_q.coeffs@, r.coeffs@, n, *ntt_tables, q);
        }
        let v_raw = b_in_q.mul_ntt(params, ntt_tables, &r);
        proof {
            self.lemma_round_fits(v_raw.coeffs@);
        }
        let v = self.round(params, v_raw);
        let encoded_message = self.encode(params, message);
        let v_sum = v.sum(params, &encoded_message);
        let v_message = v_sum.reduce(self.p as u128);
        proof {
            let enc = encoded_message.coeffs@;
            let spec_v = spec_encrypt(*self, public_key.0.coeffs@, a.coeffs@, message.coeffs@, r.coeffs@).0;
            assert(as_ints(v_sum.coeffs@) == poly_sum(v.coeffs@, enc, n, q));
            assert(as_ints(v_sum.coeffs@).len() == v_sum.coeffs@.len());
            assert(v_sum.coeffs@.len() == n);
            assert(as_ints(v_message.coeffs@) == poly_reduce(v_sum.coeffs@, self.p as int));
            assert(as_ints(v_message.coeffs@).len() == v_message.coeffs@.len());
            assert(v_message.coeffs@.len() == n);
            assert forall|k: int| 0 <= k < n implies #[trigger] v_message.coeffs@[k] == spec_v[k] by {
                assert(as_ints(v_message.coeffs@)[k] == v_message.coeffs@[k] as int);
                assert(as_ints(v_sum.coeffs@)[k] == v_sum.coeffs@[k] as int);
                lemma_mod_bound(v.coeffs@[k] + enc[k], q);
                lemma_mod_bound((v.coeffs@[k] + enc[k]) % q, self.p as int);
            }
            assert(v_message.coeffs@ =~= spec_v);
        }
        SaberCiphertext { v: v_message, u }
    }

    /// Encryption of `message` with fresh centered binomial randomness.
    pub fn encrypt(&self, public_key: &SaberPublicKey, a: &Polynomial, message: &Polynomial) -> (ct: SaberCiphertext)
        requires
            self.wf(),
            a.coeffs.len() == self.params.n,
            public_key.0.coeffs.len() == self.params.n,
            message.coeffs.len() == self.params.n,
            forall|i: int|
                0 <= i < self.params.n ==> #[trigger] public_key.0.coeffs@[i] * self.params.q <= u64::MAX,
        ensures
            exists|r: Seq<i32>|
                is_noise(r, self.params.n as nat, self.eta as int) && (ct.v.coeffs@, ct.u.coeffs@)
                    == #[trigger] spec_encrypt(
                    *self,
                    public_key.0.coeffs@,
                    a.coeffs@,
                    message.coeffs@,
                    noise_poly(r, self.params.q),
                ),
    {
        let r = generate_cbd_noise(self.params.n, self.eta);
        let ghost rv = r.0@;
        let ct = self.encrypt_with(public_key, a, message, r);
        assert(is_noise(rv, self.params.n as nat, self.eta as int));
        ct
    }

    /// Decryption: `v - round(s lift(u))` in Z_p, read back as bits.
    pub fn decrypt(&self, keypair: &SaberKeypair, encapsulated: &SaberCiphertext) -> (m: Polynomial)
        requires
            self.ring_ok(),
            keypair.secret_key.coeffs.len() == self.params.n,
            encapsulated.u.coeffs.len() == self.params.n,
            self.params.n <= encapsulated.v.coeffs.len(),
            forall|i: int|
                0 <= i < self.params.n ==> #[trigger] encapsulated.u.coeffs@[i] * self.params.q <= u64::MAX,
        ensures
            m.coeffs@ == spec_decrypt(
                *self,
                keypair.secret_key.coeffs@,
                encapsulated.v.coeffs@,
                encapsulated.u.coeffs@,
            ),
    {
        let params = &self.params;
        let ntt_tables = &self.ntt_precalculated;
        let s = &keypair.secret_key;
        let u = &encapsulated.u;
        let v = &encapsulated.v;
        let p = self.p;
        let ghost n = params.n as nat;
        let ghost q = params.q as int;
        let u_in_q = self.lift(u);
        proof {
            lemma_ntt_product_fits(s.coeffs@, u_in_q.coeffs@, n, *ntt_tables, q);
            lemma_mul_ntt_reduced(s.coeffs@, u_in_q.coeffs@, n, *ntt_tables, q);
        }
        let su_raw = s.mul_ntt(params, ntt_tables, &u_in_q);
        proof {
            self.lemma_round_fits(su_raw.coeffs@);
        }
        let su = self.round(params, su_raw);
        let nn = params.n;
        let mut m_poly_coeffs = vec![0u64; nn];
        let mut i: usize = 0;
        while i < nn
            invariant
                nn == n,
                p == self.p,
                p > 0,
                su.coeffs@.len() == n,
                su.coeffs@ == saber_round(su_raw.coeffs@, n, p as int, q),
                n <= v.coeffs@.len(),
                i <= nn,
                m_poly_coeffs.len() == nn,
                forall|k: int| 0 <= k < i ==> #[trigger] m_poly_coeffs@[k] == diff_p(v.coeffs@, su.coeffs@, n, p as int)[k],
            decreases nn - i,
        {
            proof {
                lemma_mod_bound((su_raw.coeffs@[i as int] * p + q / 2) / q, p as int);
            }
            let d = if v.coeffs[i] >= su.coeffs[i] {
                v.coeffs[i] - su.coeffs[i]
            } else {
                p - (su.coeffs[i] - v.coeffs[i])
            };
            m_poly_coeffs.set(i, d);
            i = i + 1;
        }
        let m_poly = Polynomial::new(m_poly_coeffs);
        assert(m_poly.coeffs@ =~= spec_decrypt_phase(*self, s.coeffs@, v.coeffs@, u.coeffs@));
        self.decode(params, &m_poly)
    }

    /// Coefficients of a product by transforms, all below `q`, can be
    /// rounded without leaving 64-bit words.
    proof fn lemma_round_fits(&self, c: Seq<u64>)
        requires
            self.ring_ok(),
            forall|k: int| 0 <= k < c.len() ==> #[trigger] c[k] < self.params.q,
        ensures
            forall|k: int| 0 <= k < c.len() ==> #[trigger] c[k] * self.p + self.params.q / 2 <= u64::MAX,
    {
        assert forall|k: int| 0 <= k < c.len() implies #[trigger] c[k] * self.p + self.params.q / 2 <= u64::MAX by {
            lemma_mul_inequality(c[k] as int, self.params.q as int, self.p as int);
            lemma_mul_is_commutative(self.params.q as int, self.p as int);
        }
    }
}

} // verus!
