//! Key generation, encryption, decryption and homomorphic operations of BFV.

use vstd::arithmetic::div_mod::*;
use vstd::arithmetic::mul::*;
use vstd::prelude::*;
use vstd::utf8::{decode_utf8, valid_utf8};

use crate::bfv::config::BFV;
use crate::bfv::plaintext::{low_bytes, BFVPlaintext};
use crate::polys::{
    as_ints, centered, conv, conv_rows, negacyclic_mul, words, lemma_ntt_product_fits, poly_scale, poly_sub, poly_sum, spec_mul_ntt, tables_fit,
    ntt_product_fits, Polynomial,
};
use crate::ntt_mul::{lemma_mul_ntt_is_negacyclic_product, lemma_negacyclic_swap, transform_ready};
use crate::polys::{lemma_negacyclic_distributes, lemma_negacyclic_distributes_sub};
use crate::ring::{is_power_of_two, RingParams};
use crate::sampling::{
    generate_cbd_noise, generate_small_polynomial, generate_uniform_polynomial, is_noise, is_small,
    noise_poly, Noise,
};

verus! {

/// The length of a sequence.
pub open spec fn len_of(s: Seq<u64>) -> int {
    s.len() as int
}

/// `n` coefficients below `q`.
pub open spec fn is_uniform_range(a: Seq<u64>, n: nat, q: int) -> bool {
    a.len() == n && forall|k: int| 0 <= k < n ==> #[trigger] a[k] < q
}

/// `delta = floor(q / t)`, the scale of plaintexts in ciphertexts.
pub open spec fn spec_delta(bfv: BFV) -> int {
    (bfv.params.q / bfv.t) as int
}

/// The public key part `b = a * s + e`.
pub open spec fn spec_public_b(bfv: BFV, a: Seq<u64>, s: Seq<u64>, e: Seq<i32>) -> Seq<u64> {
    words(
        poly_sum(
            spec_mul_ntt(a, s, bfv.params.n as nat, bfv.ntt_precalculated, bfv.params.q as int),
            noise_poly(e, bfv.params.q),
            bfv.params.n as nat,
            bfv.params.q as int,
        ),
    )
}

/// The ciphertext `(b u + e1 + delta m, a u + e2)`.
pub open spec fn spec_encrypt(
    bfv: BFV,
    m: Seq<u64>,
    a: Seq<u64>,
    b: Seq<u64>,
    u: Seq<u64>,
    e1: Seq<i32>,
    e2: Seq<i32>,
) -> (Seq<u64>, Seq<u64>) {
    let n = bfv.params.n as nat;
    let q = bfv.params.q as int;
    let tables = bfv.ntt_precalculated;
    let bu = spec_mul_ntt(b, u, n, tables, q);
    let c0 = words(
        poly_sum(
            words(poly_sum(bu, noise_poly(e1, bfv.params.q), n, q)),
            words(poly_scale(m, spec_delta(bfv), q)),
            n,
            q,
        ),
    );
    let au = spec_mul_ntt(a, u, n, tables, q);
    let c1 = words(poly_sum(au, noise_poly(e2, bfv.params.q), n, q));
    (c0, c1)
}

/// The noisy scaled message `c0 - c1 s` of a ciphertext.
pub open spec fn spec_phase(bfv: BFV, c0: Seq<u64>, c1: Seq<u64>, s: Seq<u64>) -> Seq<u64> {
    words(
        poly_sub(
            c0,
            spec_mul_ntt(c1, s, bfv.params.n as nat, bfv.ntt_precalculated, bfv.params.q as int),
            bfv.params.n as nat,
            bfv.params.q as int,
        ),
    )
}

/// Decoding of one coefficient: `round(t * centered / q) mod t`, rounding
/// halves up.
pub open spec fn decode_coeff(raw: int, q: int, t: int) -> int {
    ((centered(raw, q) * t + q / 2) / q) % t
}

/// Coefficient-wise decoding.
pub open spec fn decode_poly(mp: Seq<u64>, q: int, t: int) -> Seq<u64> {
    Seq::new(mp.len(), |i: int| decode_coeff(mp[i] as int, q, t) as u64)
}

/// Distance of `raw` (centered) to the nearest multiple of `delta`.
pub open spec fn coeff_noise(raw: int, q: int, delta: int) -> int {
    let c = centered(raw, q);
    let a = if c < 0 {
        -c
    } else {
        c
    };
    let r = a % delta;
    if r < delta - r {
        r
    } else {
        delta - r
    }
}

/// The largest `coeff_noise` over `s` (zero when empty).
pub open spec fn max_noise(s: Seq<u64>, q: int, delta: int) -> int
    decreases s.len(),
{
    if s.len() == 0 {
        0
    } else {
        let m = max_noise(s.drop_last(), q, delta);
        let c = coeff_noise(s.last() as int, q, delta);
        if c > m {
            c
        } else {
            m
        }
    }
}

/// The distance of `c` to the multiple `j delta`.
pub open spec fn dist_to_multiple(c: int, j: int, delta: int) -> int {
    if c >= j * delta {
        c - j * delta
    } else {
        j * delta - c
    }
}

/// A coefficient's noise is the distance of its centered value to the
/// nearest multiple of `delta`: it is no larger than the distance to any
/// multiple of `delta`, and equal to the distance to one of them.
pub proof fn lemma_coeff_noise_is_nearest_distance(raw: int, q: int, delta: int)
    requires
        delta > 0,
    ensures
        forall|j: int| coeff_noise(raw, q, delta) <= #[trigger] dist_to_multiple(centered(raw, q), j, delta),
        exists|j: int| coeff_noise(raw, q, delta) == #[trigger] dist_to_multiple(centered(raw, q), j, delta),
{
    let c = centered(raw, q);
    let a = if c < 0 {
        -c
    } else {
        c
    };
    lemma_fundamental_div_mod(a, delta);
    lemma_mod_bound(a, delta);
    let k = a / delta;
    let r = a % delta;
    let cn = coeff_noise(raw, q, delta);
    assert(cn == if r < delta - r { r } else { delta - r });
    assert forall|j: int| cn <= #[trigger] dist_to_multiple(c, j, delta) by {
        // with the sign of c absorbed, a - j' delta = (k - j') delta + r
        let jj = if c < 0 {
            -j
        } else {
            j
        };
        assert(dist_to_multiple(c, j, delta) == if a >= jj * delta {
            a - jj * delta
        } else {
            jj * delta - a
        }) by {
            if c < 0 {
                lemma_mul_unary_negation(j, delta);
            }
        }
        let m = k - jj;
        assert(a - jj * delta == m * delta + r) by {
            lemma_mul_is_distributive_sub_other_way(delta, k, jj);
            lemma_mul_is_commutative(delta, k);
        }
        if m >= 1 {
            lemma_mul_inequality(1, m, delta);
        } else if m <= -1 {
            lemma_mul_inequality(m, -1, delta);
        }
    }
    let j0 = if r < delta - r {
        k
    } else {
        k + 1
    };
    let j1 = if c < 0 {
        -j0
    } else {
        j0
    };
    assert(cn == dist_to_multiple(c, j1, delta)) by {
        if c < 0 {
            lemma_mul_unary_negation(j0, delta);
        }
        lemma_mul_is_distributive_add_other_way(delta, k, 1);
        lemma_mul_is_commutative(delta, k);
        lemma_mul_is_commutative(delta, k + 1);
    }
}

/// The noise estimate bounds every coefficient and is attained: `max_noise`
/// is at least the noise of each coefficient of `s`, and (for a nonempty
/// `s`) equal to the noise of one of them; for an empty `s` it is zero.
pub proof fn lemma_max_noise_is_maximum(s: Seq<u64>, q: int, delta: int)
    requires
        delta > 0,
    ensures
        forall|k: int| 0 <= k < s.len() ==> max_noise(s, q, delta) >= #[trigger] coeff_noise(s[k] as int, q, delta),
        s.len() > 0 ==> exists|k: int| 0 <= k < s.len() && max_noise(s, q, delta) == #[trigger] coeff_noise(s[k] as int, q, delta),
        s.len() == 0 ==> max_noise(s, q, delta) == 0,
    decreases s.len(),
{
    if s.len() > 0 {
        let p = s.drop_last();
        lemma_max_noise_is_maximum(p, q, delta);
        let last = (s.len() - 1) as int;
        assert(s.last() == s[last]);
        assert forall|k: int| 0 <= k < s.len() implies max_noise(s, q, delta) >= #[trigger] coeff_noise(s[k] as int, q, delta) by {
            if k < last {
                assert(s[k] == p[k]);
            }
        }
        if p.len() > 0 {
            let kp = choose|k: int| 0 <= k < p.len() && max_noise(p, q, delta) == #[trigger] coeff_noise(p[k] as int, q, delta);
            assert(s[kp] == p[kp]);
            if coeff_noise(s[last] as int, q, delta) > max_noise(p, q, delta) {
                assert(max_noise(s, q, delta) == coeff_noise(s[last] as int, q, delta));
            } else {
                assert(max_noise(s, q, delta) == coeff_noise(s[kp] as int, q, delta));
            }
        } else {
            let c = centered(s[last] as int, q);
            lemma_mod_bound(if c < 0 { -c } else { c }, delta);
            assert(coeff_noise(s[last] as int, q, delta) >= 0);
            assert(max_noise(p, q, delta) == 0);
            assert(max_noise(s, q, delta) == coeff_noise(s[last] as int, q, delta));
        }
    }
}

/// Decoding tolerates noise: a coefficient `raw` of `[0, q)` congruent to
/// `delta m + e` (`delta = floor(q / t)`, `0 <= m < t`) decodes to `m`
/// whenever `t |e| + (q mod t) m < q / 2`.
pub proof fn lemma_decode_coeff_tolerates(raw: int, m: int, e: int, q: int, t: int)
    requires
        0 < t,
        0 <= raw < q,
        0 <= m < t,
        raw % q == ((q / t) * m + e) % q,
        t * (if e < 0 { -e } else { e }) + (q % t) * m < q / 2,
    ensures
        decode_coeff(raw, q, t) == m,
{
    let d = q / t;
    let r0 = q % t;
    lemma_fundamental_div_mod(q, t);
    lemma_mod_bound(q, t);
    let c = centered(raw, q);
    assert(c % q == raw % q) by {
        if raw > q / 2 {
            lemma_mod_sub_multiples_vanish(raw, q);
        }
    }
    let x = c - (d * m + e);
    assert(x % q == 0) by {
        lemma_cong_sub_int(c, d * m + e, raw, d * m + e, q);
        lemma_sub_mod_noop(raw, d * m + e, q);
        lemma_mod_self_0(q);
        lemma_fundamental_div_mod(raw, q);
        lemma_fundamental_div_mod(d * m + e, q);
        assert((raw - (d * m + e)) % q == ((raw % q) - ((d * m + e) % q)) % q);
        lemma_small_mod(0, q as nat);
    }
    let j = x / q;
    lemma_fundamental_div_mod(x, q);
    let rr = q / 2 + t * e - r0 * m;
    let ae = if e < 0 { -e } else { e };
    assert(-(t * ae) <= t * e <= t * ae) by (nonlinear_arith)
        requires
            t > 0,
            ae == if e < 0 { -e } else { e },
    ;
    assert(r0 * m >= 0) by (nonlinear_arith)
        requires
            r0 >= 0,
            m >= 0,
    ;
    assert(0 <= rr < q);
    assert(c * t + q / 2 == q * (m + j * t) + rr) by (nonlinear_arith)
        requires
            q == t * d + r0,
            x == q * j + 0,
            x == c - (d * m + e),
            rr == q / 2 + t * e - r0 * m,
    ;
    lemma_fundamental_div_mod_converse(c * t + q / 2, q, m + j * t, rr);
    lemma_mod_multiples_vanish(j, m, t);
    lemma_small_mod(m as nat, t as nat);
    assert(t * j + m == m + j * t) by (nonlinear_arith);
}

/// Congruent differences (helper).
proof fn lemma_cong_sub_int(a: int, b: int, c: int, d: int, q: int)
    requires
        q > 0,
        a % q == c % q,
        b % q == d % q,
    ensures
        (a - b) % q == (c - d) % q,
{
    lemma_sub_mod_noop(a, b, q);
    lemma_sub_mod_noop(c, d, q);
}

/// Decryption tolerates noise: when every coefficient of the phase
/// `c0 - c1 s` is congruent to `delta m + e` with `0 <= m < t` and
/// `t |e| + (q mod t) m < q / 2`, the ciphertext decrypts to `m`.
pub proof fn lemma_bfv_decrypt_recovers_message(
    bfv: BFV,
    c0: Seq<u64>,
    c1: Seq<u64>,
    s: Seq<u64>,
    m: Seq<u64>,
    e: Seq<int>,
)
    requires
        0 < bfv.t,
        0 < bfv.params.q,
        m.len() == bfv.params.n,
        e.len() == bfv.params.n,
        forall|i: int| 0 <= i < bfv.params.n ==> #[trigger] m[i] < bfv.t,
        forall|i: int|
            0 <= i < bfv.params.n ==> (#[trigger] spec_phase(bfv, c0, c1, s)[i] as int) % (bfv.params.q as int)
                == (spec_delta(bfv) * m[i] + e[i]) % (bfv.params.q as int),
        forall|i: int|
            0 <= i < bfv.params.n ==> bfv.t * (if #[trigger] e[i] < 0 { -e[i] } else { e[i] }) + (bfv.params.q
                % bfv.t) * m[i] < bfv.params.q / 2,
    ensures
        decode_poly(spec_phase(bfv, c0, c1, s), bfv.params.q as int, bfv.t as int) == m,
{
    let q = bfv.params.q as int;
    let t = bfv.t as int;
    let ph = spec_phase(bfv, c0, c1, s);
    let sub = poly_sub(c0, spec_mul_ntt(c1, s, bfv.params.n as nat, bfv.ntt_precalculated, q), bfv.params.n as nat, q);
    assert forall|i: int| 0 <= i < bfv.params.n implies #[trigger] decode_poly(ph, q, t)[i] == m[i] by {
        lemma_mod_bound(c0[i] - spec_mul_ntt(c1, s, bfv.params.n as nat, bfv.ntt_precalculated, q)[i], q);
        assert(ph[i] as int == sub[i]);
        lemma_decode_coeff_tolerates(ph[i] as int, m[i] as int, e[i], q, t);
    }
    assert(decode_poly(ph, q, t) =~= m);
}

/// Adding a plaintext shifts the phase: the phase of `c + delta p` is the
/// phase of `c` plus `delta p` modulo `q`.
pub proof fn lemma_plain_sum_phase(bfv: BFV, c0: Seq<u64>, c1: Seq<u64>, s: Seq<u64>, p: Seq<u64>)
    requires
        0 < bfv.params.q,
        c0.len() >= bfv.params.n,
        p.len() >= bfv.params.n,
    ensures
        forall|i: int|
            0 <= i < bfv.params.n ==> (#[trigger] spec_phase(
                bfv,
                words(poly_sum(c0, words(poly_scale(p, spec_delta(bfv), bfv.params.q as int)), bfv.params.n as nat, bfv.params.q as int)),
                c1,
                s,
            )[i] as int) % (bfv.params.q as int) == (spec_phase(bfv, c0, c1, s)[i] + spec_delta(bfv) * p[i]) % (
            bfv.params.q as int),
{
    let q = bfv.params.q as int;
    let n = bfv.params.n as nat;
    let dp = words(poly_scale(p, spec_delta(bfv), q));
    let c0p = words(poly_sum(c0, dp, n, q));
    let cs = spec_mul_ntt(c1, s, n, bfv.ntt_precalculated, q);
    assert forall|i: int| 0 <= i < n implies (#[trigger] spec_phase(bfv, c0p, c1, s)[i] as int) % q == (spec_phase(
        bfv,
        c0,
        c1,
        s,
    )[i] + spec_delta(bfv) * p[i]) % q by {
        let d = spec_delta(bfv);
        lemma_mod_bound(p[i] * d, q);
        assert(dp[i] as int == (p[i] * d) % q);
        lemma_mod_bound(c0[i] + dp[i], q);
        assert(c0p[i] as int == (c0[i] + dp[i]) % q);
        lemma_mod_bound(c0p[i] - cs[i], q);
        let ps = poly_sub(c0p, cs, n, q);
        assert(ps[i] == (c0p[i] - cs[i]) % q);
        assert(spec_phase(bfv, c0p, c1, s) == words(ps));
        assert(spec_phase(bfv, c0p, c1, s)[i] as int == (c0p[i] - cs[i]) % q);
        lemma_mod_bound(c0[i] - cs[i], q);
        let ps0 = poly_sub(c0, cs, n, q);
        assert(ps0[i] == (c0[i] - cs[i]) % q);
        assert(spec_phase(bfv, c0, c1, s) == words(ps0));
        assert(spec_phase(bfv, c0, c1, s)[i] as int == (c0[i] - cs[i]) % q);
        let aa = c0[i] as int;
        let dd = dp[i] as int;
        let cc = cs[i] as int;
        let x = c0p[i] as int;
        let ph = (aa - cc) % q;
        let dpi = d * p[i];
        lemma_mul_is_commutative(p[i] as int, d);
        // left: ((a + dd) mod q - c) mod q == (a + dd - c) mod q
        lemma_mod_twice(aa + dd, q);
        lemma_sub_mod_noop(x, cc, q);
        lemma_sub_mod_noop(aa + dd, cc, q);
        assert((x - cc) % q == (aa + dd - cc) % q);
        // (a - c + dd) mod q == ((a - c) mod q + d p mod q) mod q
        lemma_add_mod_noop(aa - cc, dd, q);
        lemma_mod_twice(dpi, q);
        assert(dd % q == dpi % q);
        assert(aa + dd - cc == (aa - cc) + dd);
        assert((aa + dd - cc) % q == ((aa - cc) % q + dpi % q) % q);
        // right: (ph + d p) mod q == (ph mod q + d p mod q) mod q
        lemma_add_mod_noop(ph, dpi, q);
        lemma_mod_twice(aa - cc, q);
        assert((ph + dpi) % q == ((aa - cc) % q + dpi % q) % q);
        lemma_mod_twice(x - cc, q);
    }
}

/// Homomorphic addition adds phases: for parameters on which the product by
/// transforms is the ring product, the phase of the component-wise sum of
/// two ciphertexts is the sum of their phases modulo `q`.
pub proof fn lemma_sum_ciphertexts_phase(
    bfv: BFV,
    c0: Seq<u64>,
    c1: Seq<u64>,
    d0: Seq<u64>,
    d1: Seq<u64>,
    s: Seq<u64>,
)
    requires
        bfv.wf(),
        transform_ready(bfv.params, bfv.ntt_precalculated),
        c0.len() == bfv.params.n,
        c1.len() == bfv.params.n,
        d0.len() == bfv.params.n,
        d1.len() == bfv.params.n,
        s.len() == bfv.params.n,
    ensures
        forall|i: int|
            0 <= i < bfv.params.n ==> (#[trigger] spec_phase(
                bfv,
                words(poly_sum(c0, d0, bfv.params.n as nat, bfv.params.q as int)),
                words(poly_sum(c1, d1, bfv.params.n as nat, bfv.params.q as int)),
                s,
            )[i] as int) % (bfv.params.q as int) == (spec_phase(bfv, c0, c1, s)[i] + spec_phase(bfv, d0, d1, s)[i])
                % (bfv.params.q as int),
{
    let n = bfv.params.n as nat;
    let q = bfv.params.q as int;
    let tables = bfv.ntt_precalculated;
    let e0 = words(poly_sum(c0, d0, n, q));
    let e1 = words(poly_sum(c1, d1, n, q));
    lemma_mul_ntt_is_negacyclic_product(bfv.params, tables, c1, s);
    lemma_mul_ntt_is_negacyclic_product(bfv.params, tables, d1, s);
    lemma_mul_ntt_is_negacyclic_product(bfv.params, tables, e1, s);
    lemma_negacyclic_distributes(c1, d1, s, n, q);
    let m1 = spec_mul_ntt(c1, s, n, tables, q);
    let m2 = spec_mul_ntt(d1, s, n, tables, q);
    let m3 = spec_mul_ntt(e1, s, n, tables, q);
    assert(as_ints(m1).len() == n && as_ints(m1).len() == m1.len());
    assert(as_ints(m2).len() == n && as_ints(m2).len() == m2.len());
    assert(as_ints(m3).len() == n && as_ints(m3).len() == m3.len());
    assert forall|i: int| 0 <= i < n implies (#[trigger] spec_phase(bfv, e0, e1, s)[i] as int) % q == (spec_phase(
        bfv,
        c0,
        c1,
        s,
    )[i] + spec_phase(bfv, d0, d1, s)[i]) % q by {
        assert(as_ints(m1)[i] == m1[i] as int);
        assert(as_ints(m2)[i] == m2[i] as int);
        assert(as_ints(m3)[i] == m3[i] as int);
        let x1 = m1[i] as int;
        let x2 = m2[i] as int;
        let x3 = m3[i] as int;
        assert(x3 == (x1 + x2) % q);
        let a = c0[i] as int;
        let b = d0[i] as int;
        lemma_mod_bound(a + b, q);
        let y = e0[i] as int;
        assert(y == (a + b) % q);
        let p3 = (y - x3) % q;
        let p1 = (a - x1) % q;
        let p2 = (b - x2) % q;
        lemma_mod_bound(y - x3, q);
        lemma_mod_bound(a - x1, q);
        lemma_mod_bound(b - x2, q);
        let ps3 = poly_sub(e0, m3, n, q);
        let ps1 = poly_sub(c0, m1, n, q);
        let ps2 = poly_sub(d0, m2, n, q);
        assert(spec_phase(bfv, e0, e1, s) == words(ps3));
        assert(spec_phase(bfv, c0, c1, s) == words(ps1));
        assert(spec_phase(bfv, d0, d1, s) == words(ps2));
        assert(spec_phase(bfv, e0, e1, s)[i] as int == p3);
        assert(spec_phase(bfv, c0, c1, s)[i] as int == p1);
        assert(spec_phase(bfv, d0, d1, s)[i] as int == p2);
        // p3 == (a + b - (x1 + x2)) mod q
        lemma_sub_mod_noop(a + b, x1 + x2, q);
        lemma_mod_twice(a + b, q);
        lemma_mod_twice(x1 + x2, q);
        assert(p3 == (a + b - (x1 + x2)) % q);
        // p1 + p2 == (a - x1) + (b - x2) modulo q
        lemma_add_mod_noop(a - x1, b - x2, q);
        assert(a + b - (x1 + x2) == (a - x1) + (b - x2));
        lemma_mod_twice(y - x3, q);
    }
}

/// The noise of a fresh encryption under `b = a s + e` with randomness
/// `u`, `e1`, `e2`: `e u + e1 - e2 s` (products in Z_q[X]/(X^n + 1)).
pub open spec fn spec_fresh_noise(bfv: BFV, s: Seq<u64>, e: Seq<i32>, u: Seq<u64>, e1: Seq<i32>, e2: Seq<i32>) -> Seq<int> {
    let n = bfv.params.n as nat;
    let q = bfv.params.q as int;
    let eu = negacyclic_mul(noise_poly(e, bfv.params.q), u, n, q);
    let e2s = negacyclic_mul(noise_poly(e2, bfv.params.q), s, n, q);
    let ne1 = noise_poly(e1, bfv.params.q);
    Seq::new(n, |i: int| eu[i] + ne1[i] - e2s[i])
}

/// The arithmetic of one phase coefficient of a fresh encryption.
proof fn lemma_fresh_phase_coeff(
    q: int,
    bu: int,
    e1: int,
    md: int,
    c0: int,
    cs: int,
    nasu: int,
    neu: int,
    naus: int,
    ne2s: int,
    phase: int,
)
    requires
        q > 0,
        bu == (nasu + neu) % q,
        c0 == (((bu + e1) % q) + md % q) % q,
        cs == (naus + ne2s) % q,
        nasu == naus,
        phase == (c0 - cs) % q,
    ensures
        phase % q == (md + (neu + e1 - ne2s)) % q,
{
    lemma_add_mod_noop(bu + e1, md, q);
    lemma_mod_twice(bu + e1, q);
    lemma_mod_twice(md, q);
    assert(c0 == (bu + e1 + md) % q);
    lemma_add_mod_noop(bu, e1 + md, q);
    lemma_add_mod_noop(nasu + neu, e1 + md, q);
    lemma_mod_twice(nasu + neu, q);
    assert(c0 == (nasu + neu + e1 + md) % q);
    lemma_sub_mod_noop(nasu + neu + e1 + md, naus + ne2s, q);
    lemma_mod_twice(nasu + neu + e1 + md, q);
    lemma_mod_twice(naus + ne2s, q);
    assert(phase == ((nasu + neu + e1 + md) - (naus + ne2s)) % q);
    assert((nasu + neu + e1 + md) - (naus + ne2s) == md + (neu + e1 - ne2s));
    lemma_mod_twice(md + (neu + e1 - ne2s), q);
}

/// A fresh encryption carries the scaled message plus the fresh noise: for
/// parameters on which the product by transforms is the ring product, the
/// phase `c0 - c1 s` of the encryption of `m` under `b = a s + e` with
/// randomness `u`, `e1`, `e2` is `delta m + e u + e1 - e2 s` modulo `q`.
pub proof fn lemma_encrypt_phase(
    bfv: BFV,
    m: Seq<u64>,
    a: Seq<u64>,
    s: Seq<u64>,
    e: Seq<i32>,
    u: Seq<u64>,
    e1: Seq<i32>,
    e2: Seq<i32>,
)
    requires
        bfv.wf(),
        transform_ready(bfv.params, bfv.ntt_precalculated),
        m.len() == bfv.params.n,
        a.len() == bfv.params.n,
        s.len() == bfv.params.n,
        u.len() == bfv.params.n,
        e.len() == bfv.params.n,
        e1.len() == bfv.params.n,
        e2.len() == bfv.params.n,
    ensures
        forall|i: int|
            0 <= i < bfv.params.n ==> (#[trigger] spec_phase(
                bfv,
                spec_encrypt(bfv, m, a, spec_public_b(bfv, a, s, e), u, e1, e2).0,
                spec_encrypt(bfv, m, a, spec_public_b(bfv, a, s, e), u, e1, e2).1,
                s,
            )[i] as int) % (bfv.params.q as int) == (spec_delta(bfv) * m[i] + spec_fresh_noise(bfv, s, e, u, e1, e2)[i])
                % (bfv.params.q as int),
{
    let n = bfv.params.n as nat;
    let q = bfv.params.q as int;
    let params = bfv.params;
    let tables = bfv.ntt_precalculated;
    let ne = noise_poly(e, bfv.params.q);
    let ne1 = noise_poly(e1, bfv.params.q);
    let ne2 = noise_poly(e2, bfv.params.q);
    let as_ = spec_mul_ntt(a, s, n, tables, q);
    let au = spec_mul_ntt(a, u, n, tables, q);
    let b = spec_public_b(bfv, a, s, e);
    let (c0, c1) = spec_encrypt(bfv, m, a, b, u, e1, e2);
    let bu = spec_mul_ntt(b, u, n, tables, q);
    let cs = spec_mul_ntt(c1, s, n, tables, q);
    lemma_mul_ntt_is_negacyclic_product(params, tables, a, s);
    lemma_mul_ntt_is_negacyclic_product(params, tables, a, u);
    lemma_words_of_ints(as_, negacyclic_mul(a, s, n, q));
    lemma_words_of_ints(au, negacyclic_mul(a, u, n, q));
    assert(as_.len() == n && au.len() == n);
    assert(b == words(poly_sum(as_, ne, n, q)));
    assert(c1 == words(poly_sum(au, ne2, n, q)));
    lemma_mul_ntt_is_negacyclic_product(params, tables, b, u);
    lemma_mul_ntt_is_negacyclic_product(params, tables, c1, s);
    lemma_negacyclic_distributes(as_, ne, u, n, q);
    lemma_negacyclic_distributes(au, ne2, s, n, q);
    lemma_negacyclic_swap(params, tables, a, s, u);
    let nasu = negacyclic_mul(as_, u, n, q);
    let naus = negacyclic_mul(au, s, n, q);
    let neu = negacyclic_mul(ne, u, n, q);
    let ne2s = negacyclic_mul(ne2, s, n, q);
    assert(as_ints(bu).len() == n && as_ints(bu).len() == bu.len());
    assert(as_ints(cs).len() == n && as_ints(cs).len() == cs.len());
    assert forall|i: int| 0 <= i < n implies (#[trigger] spec_phase(bfv, c0, c1, s)[i] as int) % q == (spec_delta(bfv)
        * m[i] + spec_fresh_noise(bfv, s, e, u, e1, e2)[i]) % q by {
        assert(as_ints(bu)[i] == bu[i] as int);
        assert(as_ints(cs)[i] == cs[i] as int);
        let inner = words(poly_sum(bu, ne1, n, q));
        let dm = words(poly_scale(m, spec_delta(bfv), q));
        lemma_mod_bound(bu[i] + ne1[i], q);
        lemma_mod_bound(m[i] * spec_delta(bfv), q);
        assert(inner[i] as int == (bu[i] + ne1[i]) % q);
        assert(dm[i] as int == (m[i] * spec_delta(bfv)) % q);
        lemma_mod_bound(inner[i] + dm[i], q);
        assert(c0[i] as int == (inner[i] + dm[i]) % q);
        lemma_mod_twice(m[i] * spec_delta(bfv), q);
        lemma_mod_bound(c0[i] - cs[i], q);
        let ps = poly_sub(c0, cs, n, q);
        assert(spec_phase(bfv, c0, c1, s) == words(ps));
        assert(spec_phase(bfv, c0, c1, s)[i] as int == (c0[i] - cs[i]) % q);
        lemma_mul_is_commutative(m[i] as int, spec_delta(bfv));
        lemma_fresh_phase_coeff(
            q,
            bu[i] as int,
            ne1[i] as int,
            spec_delta(bfv) * m[i],
            c0[i] as int,
            cs[i] as int,
            nasu[i],
            neu[i],
            naus[i],
            ne2s[i],
            spec_phase(bfv, c0, c1, s)[i] as int,
        );
    }
}

/// Decryption undoes encryption: for parameters on which the product by
/// transforms is the ring product, a fresh encryption of `m` (coefficients
/// below `t`) decrypts to `m` whenever every coefficient of the fresh noise
/// `e u + e1 - e2 s`, centered modulo `q`, satisfies
/// `t |noise| + (q mod t) m < q / 2`.
pub proof fn lemma_decrypt_undoes_encrypt(
    bfv: BFV,
    m: Seq<u64>,
    a: Seq<u64>,
    s: Seq<u64>,
    e: Seq<i32>,
    u: Seq<u64>,
    e1: Seq<i32>,
    e2: Seq<i32>,
)
    requires
        bfv.wf(),
        transform_ready(bfv.params, bfv.ntt_precalculated),
        0 < bfv.t,
        m.len() == bfv.params.n,
        a.len() == bfv.params.n,
        s.len() == bfv.params.n,
        u.len() == bfv.params.n,
        e.len() == bfv.params.n,
        e1.len() == bfv.params.n,
        e2.len() == bfv.params.n,
        forall|i: int| 0 <= i < bfv.params.n ==> #[trigger] m[i] < bfv.t,
        forall|i: int|
            0 <= i < bfv.params.n ==> bfv.t * (if centered(#[trigger] spec_fresh_noise(bfv, s, e, u, e1, e2)[i] % (bfv.params.q as int), bfv.params.q as int) < 0 {
                -centered(spec_fresh_noise(bfv, s, e, u, e1, e2)[i] % (bfv.params.q as int), bfv.params.q as int)
            } else {
                centered(spec_fresh_noise(bfv, s, e, u, e1, e2)[i] % (bfv.params.q as int), bfv.params.q as int)
            }) + (bfv.params.q % bfv.t) * m[i] < bfv.params.q / 2,
    ensures
        decode_poly(
            spec_phase(
                bfv,
                spec_encrypt(bfv, m, a, spec_public_b(bfv, a, s, e), u, e1, e2).0,
                spec_encrypt(bfv, m, a, spec_public_b(bfv, a, s, e), u, e1, e2).1,
                s,
            ),
            bfv.params.q as int,
            bfv.t as int,
        ) == m,
{
    let q = bfv.params.q as int;
    let noise = spec_fresh_noise(bfv, s, e, u, e1, e2);
    let (c0, c1) = spec_encrypt(bfv, m, a, spec_public_b(bfv, a, s, e), u, e1, e2);
    lemma_encrypt_phase(bfv, m, a, s, e, u, e1, e2);
    let ev = Seq::new(bfv.params.n as nat, |i: int| centered(noise[i] % q, q));
    assert forall|i: int| 0 <= i < bfv.params.n implies (#[trigger] spec_phase(bfv, c0, c1, s)[i] as int) % q == (
    spec_delta(bfv) * m[i] + ev[i]) % q by {
        let r = noise[i] % q;
        lemma_mod_bound(noise[i], q);
        assert(ev[i] % q == noise[i] % q) by {
            if r > q / 2 {
                lemma_mod_sub_multiples_vanish(r, q);
            }
            lemma_mod_twice(noise[i], q);
        }
        lemma_add_mod_noop(spec_delta(bfv) * m[i], ev[i], q);
        lemma_add_mod_noop(spec_delta(bfv) * m[i], noise[i], q);
    }
    lemma_bfv_decrypt_recovers_message(bfv, c0, c1, s, m, ev);
}

/// Multiplying by a plaintext multiplies the phase: for parameters on which
/// the product by transforms is the ring product, the phase of `(c0 p, c1 p)`
/// is the phase of `(c0, c1)` times `p` in Z_q[X]/(X^n + 1).
pub proof fn lemma_mul_plaintext_phase(bfv: BFV, c0: Seq<u64>, c1: Seq<u64>, s: Seq<u64>, pt: Seq<u64>)
    requires
        bfv.wf(),
        transform_ready(bfv.params, bfv.ntt_precalculated),
        c0.len() == bfv.params.n,
        c1.len() == bfv.params.n,
        s.len() == bfv.params.n,
        pt.len() == bfv.params.n,
    ensures
        as_ints(
            spec_phase(
                bfv,
                spec_mul_ntt(c0, pt, bfv.params.n as nat, bfv.ntt_precalculated, bfv.params.q as int),
                spec_mul_ntt(c1, pt, bfv.params.n as nat, bfv.ntt_precalculated, bfv.params.q as int),
                s,
            ),
        ) == negacyclic_mul(spec_phase(bfv, c0, c1, s), pt, bfv.params.n as nat, bfv.params.q as int),
{
    let n = bfv.params.n as nat;
    let q = bfv.params.q as int;
    let params = bfv.params;
    let tables = bfv.ntt_precalculated;
    let c0p = spec_mul_ntt(c0, pt, n, tables, q);
    let c1p = spec_mul_ntt(c1, pt, n, tables, q);
    let c1s = spec_mul_ntt(c1, s, n, tables, q);
    let c1ps = spec_mul_ntt(c1p, s, n, tables, q);
    lemma_mul_ntt_is_negacyclic_product(params, tables, c0, pt);
    lemma_mul_ntt_is_negacyclic_product(params, tables, c1, pt);
    lemma_mul_ntt_is_negacyclic_product(params, tables, c1, s);
    lemma_words_of_ints(c0p, negacyclic_mul(c0, pt, n, q));
    lemma_words_of_ints(c1p, negacyclic_mul(c1, pt, n, q));
    lemma_words_of_ints(c1s, negacyclic_mul(c1, s, n, q));
    assert(c1p.len() == n && c0p.len() == n && c1s.len() == n);
    lemma_mul_ntt_is_negacyclic_product(params, tables, c1p, s);
    lemma_negacyclic_swap(params, tables, c1, pt, s);
    lemma_negacyclic_distributes_sub(c0, c1s, pt, n, q);
    let ph = spec_phase(bfv, c0, c1, s);
    assert(ph == words(poly_sub(c0, c1s, n, q)));
    let lhs = as_ints(spec_phase(bfv, c0p, c1p, s));
    let rhs = negacyclic_mul(ph, pt, n, q);
    assert(as_ints(c1ps).len() == n && as_ints(c1ps).len() == c1ps.len());
    assert forall|k: int| 0 <= k < n implies #[trigger] lhs[k] == rhs[k] by {
        assert(as_ints(c1ps)[k] == c1ps[k] as int);
        lemma_mod_bound(c0p[k] - c1ps[k], q);
        let ps = poly_sub(c0p, c1ps, n, q);
        assert(spec_phase(bfv, c0p, c1p, s) == words(ps));
        assert(lhs[k] == (c0p[k] - c1ps[k]) % q);
    }
    assert(lhs =~= rhs);
}

/// Partial products over integer coefficients (as `conv_rows` over words).
pub open spec fn sconv_rows(x: Seq<int>, y: Seq<int>, n: int, rows: nat, k: int) -> int
    decreases rows,
{
    if rows == 0 {
        0
    } else {
        sconv_rows(x, y, n, (rows - 1) as nat, k) + (if 0 <= k - (rows - 1) < n {
            x[rows - 1] * y[k - (rows - 1)]
        } else {
            0
        })
    }
}

/// Words congruent to integer coefficients have congruent partial products.
proof fn lemma_conv_rows_signed(
    a: Seq<u64>,
    b: Seq<u64>,
    x: Seq<int>,
    y: Seq<int>,
    n: int,
    rows: nat,
    k: int,
    q: int,
)
    requires
        q > 0,
        rows <= n,
        forall|i: int| 0 <= i < n ==> (#[trigger] a[i] as int) % q == x[i] % q,
        forall|j: int| 0 <= j < n ==> (#[trigger] b[j] as int) % q == y[j] % q,
    ensures
        conv_rows(a, b, n, rows, k) % q == sconv_rows(x, y, n, rows, k) % q,
    decreases rows,
{
    if rows > 0 {
        let r = (rows - 1) as nat;
        lemma_conv_rows_signed(a, b, x, y, n, r, k, q);
        if 0 <= k - r < n {
            let j = k - r;
            assert((a[r as int] as int) % q == x[r as int] % q);
            assert((b[j] as int) % q == y[j] % q);
            lemma_mul_mod_noop_general(a[r as int] as int, b[j] as int, q);
            lemma_mul_mod_noop_general(x[r as int], y[j], q);
            lemma_add_mod_noop(conv_rows(a, b, n, r, k), a[r as int] * b[j], q);
            lemma_add_mod_noop(sconv_rows(x, y, n, r, k), x[r as int] * y[j], q);
        }
    }
}

/// The worst-case noise bound of fresh encryptions: `t (2 n eta + eta) +
/// (q mod t) (t - 1) < q / 2`, for a modulus below `2^31`.
pub open spec fn worst_case_decrypts(bfv: BFV) -> bool {
    &&& bfv.params.q <= i32::MAX
    &&& 0 < bfv.t
    &&& bfv.t * (2 * bfv.params.n * bfv.eta + bfv.eta) + (bfv.params.q % bfv.t) * (bfv.t - 1) < bfv.params.q / 2
}

/// Coefficients in `{0, 1, q - 1}` as `{0, 1, -1}`.
pub open spec fn small_signed(u: Seq<u64>, q: int) -> Seq<int> {
    Seq::new(u.len(), |i: int| if u[i] == q - 1 { -1 } else { u[i] as int })
}

/// The two partial products that make up coefficient `k < n` of a
/// negacyclic product take one term per row between them, so their
/// difference is bounded by `rows * bx * by`.
proof fn lemma_sconv_rows_pair_bound(x: Seq<int>, y: Seq<int>, n: int, rows: nat, k: int, bx: int, by_: int)
    requires
        bx >= 0,
        by_ >= 0,
        rows <= n,
        0 <= k < n,
        forall|i: int| 0 <= i < n ==> -bx <= #[trigger] x[i] <= bx,
        forall|j: int| 0 <= j < n ==> -by_ <= #[trigger] y[j] <= by_,
    ensures
        -(rows * (bx * by_)) <= sconv_rows(x, y, n, rows, k) - sconv_rows(x, y, n, rows, k + n) <= rows * (bx
            * by_),
    decreases rows,
{
    if rows > 0 {
        let r = (rows - 1) as nat;
        lemma_sconv_rows_pair_bound(x, y, n, r, k, bx, by_);
        let xi = x[r as int];
        if 0 <= k - r < n {
            let yj = y[k - r];
            assert(-(bx * by_) <= xi * yj <= bx * by_) by (nonlinear_arith)
                requires
                    -bx <= xi <= bx,
                    -by_ <= yj <= by_,
            ;
        } else {
            let yj = y[k + n - r];
            assert(-(bx * by_) <= xi * yj <= bx * by_) by (nonlinear_arith)
                requires
                    -bx <= xi <= bx,
                    -by_ <= yj <= by_,
            ;
        }
        assert(rows * (bx * by_) == r * (bx * by_) + bx * by_) by (nonlinear_arith)
            requires
                rows == r + 1,
        ;
    }
}

/// A negacyclic product of noise by a small polynomial is, centered, at most
/// `n eta` in absolute value: it is congruent to the signed product.
proof fn lemma_noise_product(bfv: BFV, e: Seq<i32>, u: Seq<u64>, k: int) -> (v: int)
    requires
        bfv.wf(),
        bfv.params.q <= i32::MAX,
        is_noise(e, bfv.params.n as nat, bfv.eta as int),
        is_small(u, bfv.params.n as nat, bfv.params.q as int),
        0 <= k < bfv.params.n,
    ensures
        negacyclic_mul(noise_poly(e, bfv.params.q), u, bfv.params.n as nat, bfv.params.q as int)[k] % (bfv.params.q as int)
            == v % (bfv.params.q as int),
        -(bfv.params.n * bfv.eta) <= v <= bfv.params.n * bfv.eta,
{
    let n = bfv.params.n as int;
    let q = bfv.params.q as int;
    let eta = bfv.eta as int;
    let ee = noise_poly(e, bfv.params.q);
    let x = Seq::new(e.len(), |i: int| e[i] as int);
    let y = small_signed(u, q);
    assert(bfv.params.q as i32 as int == q);
    assert forall|i: int| 0 <= i < n implies (#[trigger] ee[i] as int) % q == x[i] % q by {
        lemma_mod_bound(e[i] as int, q);
        lemma_mod_twice(e[i] as int, q);
    }
    assert forall|j: int| 0 <= j < n implies (#[trigger] u[j] as int) % q == y[j] % q by {
        if u[j] == q - 1 {
            lemma_mod_add_multiples_vanish(-1, q);
        }
    }
    assert forall|i: int| 0 <= i < n implies -eta <= #[trigger] x[i] <= eta by {}
    assert forall|j: int| 0 <= j < n implies -1 <= #[trigger] y[j] <= 1 by {}
    lemma_conv_rows_signed(ee, u, x, y, n, n as nat, k, q);
    lemma_conv_rows_signed(ee, u, x, y, n, n as nat, k + n, q);
    lemma_sconv_rows_pair_bound(x, y, n, n as nat, k, eta, 1);
    let v = sconv_rows(x, y, n, n as nat, k) - sconv_rows(x, y, n, n as nat, k + n);
    let c1 = conv(ee, u, n as nat, k);
    let c2 = conv(ee, u, n as nat, k + n);
    lemma_sub_mod_noop(c1, c2, q);
    lemma_sub_mod_noop(sconv_rows(x, y, n, n as nat, k), sconv_rows(x, y, n, n as nat, k + n), q);
    lemma_mod_twice(c1 - c2, q);
    assert(n * (eta * 1) == n * eta);
    v
}

/// A value of absolute value below `q/2` is its own centered residue.
proof fn lemma_centered_small(v: int, q: int)
    requires
        q > 0,
        -(q / 2) < v < q / 2,
    ensures
        centered(v % q, q) == v,
{
    if v >= 0 {
        lemma_small_mod(v as nat, q as nat);
    } else {
        lemma_mod_add_multiples_vanish(v, q);
        lemma_small_mod((v + q) as nat, q as nat);
    }
}

/// Decryption always undoes encryption when the worst-case noise bound
/// holds: for parameters on which the product by transforms is the ring
/// product and with `t (2 n eta + eta) + (q mod t) (t - 1) < q / 2`, every
/// fresh encryption of `m` (coefficients below `t`) under `b = a s + e`,
/// with small `s`, `u` and noise `e`, `e1`, `e2` of parameter `eta`,
/// decrypts to `m`.
pub proof fn lemma_decrypt_always_undoes_encrypt(
    bfv: BFV,
    m: Seq<u64>,
    a: Seq<u64>,
    s: Seq<u64>,
    e: Seq<i32>,
    u: Seq<u64>,
    e1: Seq<i32>,
    e2: Seq<i32>,
)
    requires
        bfv.wf(),
        transform_ready(bfv.params, bfv.ntt_precalculated),
        worst_case_decrypts(bfv),
        m.len() == bfv.params.n,
        a.len() == bfv.params.n,
        forall|i: int| 0 <= i < bfv.params.n ==> #[trigger] m[i] < bfv.t,
        is_small(s, bfv.params.n as nat, bfv.params.q as int),
        is_small(u, bfv.params.n as nat, bfv.params.q as int),
        is_noise(e, bfv.params.n as nat, bfv.eta as int),
        is_noise(e1, bfv.params.n as nat, bfv.eta as int),
        is_noise(e2, bfv.params.n as nat, bfv.eta as int),
    ensures
        decode_poly(
            spec_phase(
                bfv,
                spec_encrypt(bfv, m, a, spec_public_b(bfv, a, s, e), u, e1, e2).0,
                spec_encrypt(bfv, m, a, spec_public_b(bfv, a, s, e), u, e1, e2).1,
                s,
            ),
            bfv.params.q as int,
            bfv.t as int,
        ) == m,
{
    let n = bfv.params.n as int;
    let q = bfv.params.q as int;
    let t = bfv.t as int;
    let eta = bfv.eta as int;
    let noise = spec_fresh_noise(bfv, s, e, u, e1, e2);
    let bound = 2 * n * eta + eta;
    assert forall|i: int| 0 <= i < n implies t * (if centered(#[trigger] noise[i] % q, q) < 0 {
        -centered(noise[i] % q, q)
    } else {
        centered(noise[i] % q, q)
    }) + (q % t) * m[i] < q / 2 by {
        let v1 = lemma_noise_product(bfv, e, u, i);
        let v2 = lemma_noise_product(bfv, e2, s, i);
        let ne1 = noise_poly(e1, bfv.params.q);
        assert(bfv.params.q as i32 as int == q);
        lemma_mod_bound(e1[i] as int, q);
        lemma_mod_twice(e1[i] as int, q);
        let sv = v1 + e1[i] - v2;
        let eu = negacyclic_mul(noise_poly(e, bfv.params.q), u, n as nat, q)[i];
        let e2s = negacyclic_mul(noise_poly(e2, bfv.params.q), s, n as nat, q)[i];
        assert(noise[i] == eu + ne1[i] - e2s);
        lemma_add_mod_noop(eu, ne1[i] as int, q);
        lemma_add_mod_noop(v1, e1[i] as int, q);
        lemma_sub_mod_noop(eu + ne1[i], e2s, q);
        lemma_sub_mod_noop(v1 + e1[i], v2, q);
        assert(noise[i] % q == sv % q);
        assert(-bound <= sv <= bound) by (nonlinear_arith)
            requires
                sv == v1 + e1[i] - v2,
                -(n * eta) <= v1 <= n * eta,
                -(n * eta) <= v2 <= n * eta,
                -eta <= e1[i] <= eta,
                bound == 2 * n * eta + eta,
        ;
        assert(t * bound < q / 2) by (nonlinear_arith)
            requires
                t * bound + (q % t) * (t - 1) < q / 2,
                (q % t) >= 0,
                t >= 1,
        ;
        assert(bound < q / 2) by (nonlinear_arith)
            requires
                t * bound < q / 2,
                t >= 1,
                bound >= 0,
        ;
        lemma_centered_small(sv, q);
        let asv = if sv < 0 { -sv } else { sv };
        assert(t * asv <= t * bound) by (nonlinear_arith)
            requires
                0 <= asv <= bound,
                t >= 1,
        ;
        assert((q % t) * m[i] <= (q % t) * (t - 1)) by (nonlinear_arith)
            requires
                0 <= m[i] <= t - 1,
                q % t >= 0,
        ;
        lemma_mod_bound(q, t);
    }
    lemma_decrypt_undoes_encrypt(bfv, m, a, s, e, u, e1, e2);
}

/// A BFV ciphertext.
#[derive(Debug, Clone)]
pub struct BFVCiphertext {
    pub c0: Polynomial,
    pub c1: Polynomial,
}

proof fn lemma_words_of_ints(r: Seq<u64>, s: Seq<int>)
    requires
        as_ints(r) == s,
    ensures
        r == words(s),
{
    assert(r =~= words(s));
}

/// `floor(num / d)` of an `i128` by a positive divisor.
fn floor_div(num: i128, d: i128) -> (r: i128)
    requires
        0 < d <= u64::MAX,
        -0x1_0000_0000_0000_0000_0000_0000_0000 <= num <= 0x1_0000_0000_0000_0000_0000_0000_0000,
    ensures
        r == num / d,
        r >= -0x1_0000_0000_0000_0000_0000_0000_0000,
{
    if num >= 0 {
        num / d
    } else {
        let pos = -num;
        let k = (pos + d - 1) / d;
        proof {
            lemma_fundamental_div_mod(pos + d - 1, d as int);
            lemma_mod_bound(pos + d - 1, d as int);
            let kk = (pos + d - 1) / (d as int);
            let rr = (pos + d - 1) % (d as int);
            // num == -k * d + (d - 1 - rr)
            assert(num == (-kk) * d + (d - 1 - rr)) by (nonlinear_arith)
                requires
                    pos + d - 1 == d * kk + rr,
                    num == -pos,
            ;
            lemma_fundamental_div_mod_converse(num as int, d as int, -kk, d - 1 - rr);
            assert(kk <= pos) by (nonlinear_arith)
                requires
                    pos >= 1,
                    d >= 1,
                    pos + d - 1 == d * kk + rr,
                    0 <= rr < d,
            ;
        }
        -k
    }
}

/// Euclidean remainder of an `i128` by a positive divisor.
fn euclid_rem(x: i128, d: i128) -> (r: i128)
    requires
        d > 0,
        x > i128::MIN,
    ensures
        r == x % d,
        0 <= r < d,
{
    if x >= 0 {
        x % d
    } else {
        let pos = -x;
        let s = pos % d;
        proof {
            lemma_fundamental_div_mod(pos as int, d as int);
            lemma_mod_bound(pos as int, d as int);
            let kk = (pos as int) / (d as int);
            if s == 0 {
                assert(x == (-kk) * d + 0) by (nonlinear_arith)
                    requires
                        pos == d * kk + s,
                        s == 0,
                        x == -pos,
                ;
                lemma_fundamental_div_mod_converse(x as int, d as int, -kk, 0);
            } else {
                assert(x == (-kk - 1) * d + (d - s)) by (nonlinear_arith)
                    requires
                        pos == d * kk + s,
                        x == -pos,
                ;
                lemma_fundamental_div_mod_converse(x as int, d as int, -kk - 1, d - s);
            }
        }
        if s == 0 {
            0
        } else {
            d - s
        }
    }
}

impl BFV {
    /// Half of `delta = floor(q / t)`: the noise that decryption tolerates.
    pub fn noise_threshold(&self) -> (r: u64)
        requires
            self.t > 0,
        ensures
            r == (self.params.q / self.t) / 2,
    {
        let delta = self.params.q / self.t;
        delta / 2
    }

    /// The largest distance, over the coefficients of `c0 - c1 * s` (with
    /// `params` and the instance's tables and `t`), of the centered
    /// coefficient to the nearest multiple of `delta = floor(q / t)`.
    /// Reveals information on the key: for experiments only.
    #[verifier::rlimit(40)]
    pub fn estimate_noise(&self, secret_key: &Polynomial, params: &RingParams, ciphertext: &BFVCiphertext) -> (r: u64)
        requires
            ciphertext.c1.coeffs.len() == secret_key.coeffs.len(),
            ciphertext.c0.coeffs.len() == params.n,
            params.n >= 2,
            is_power_of_two(params.n as int),
            params.n <= ciphertext.c1.coeffs.len(),
            2 <= params.q,
            0 < self.t <= params.q,
            tables_fit(self.ntt_precalculated, params.n as nat),
            ntt_product_fits(ciphertext.c1.coeffs@, secret_key.coeffs@, params.n as nat, self.ntt_precalculated, params.q as int),
        ensures
            r == max_noise(
                words(
                    poly_sub(
                        ciphertext.c0.coeffs@,
                        spec_mul_ntt(ciphertext.c1.coeffs@, secret_key.coeffs@, params.n as nat, self.ntt_precalculated, params.q as int),
                        params.n as nat,
                        params.q as int,
                    ),
                ),
                params.q as int,
                (params.q / self.t) as int,
            ),
            ({
                let phase = words(
                    poly_sub(
                        ciphertext.c0.coeffs@,
                        spec_mul_ntt(ciphertext.c1.coeffs@, secret_key.coeffs@, params.n as nat, self.ntt_precalculated, params.q as int),
                        params.n as nat,
                        params.q as int,
                    ),
                );
                let delta = (params.q / self.t) as int;
                &&& forall|k: int| 0 <= k < params.n ==> r >= #[trigger] coeff_noise(phase[k] as int, params.q as int, delta)
                &&& exists|k: int| 0 <= k < params.n && r == #[trigger] coeff_noise(phase[k] as int, params.q as int, delta)
            }),
    {
        let c1s = ciphertext.c1.mul_ntt(params, &self.ntt_precalculated, secret_key);
        let m_prime = ciphertext.c0.sub(params, &c1s);
        proof {
            lemma_words_of_ints(m_prime.coeffs@, poly_sub(ciphertext.c0.coeffs@, c1s.coeffs@, params.n as nat, params.q as int));
        }
        let mut max_noise_v = 0u64;
        let q = params.q as i128;
        let delta = (params.q / self.t) as i128;
        assert(params.q / self.t >= 1 && params.q / self.t <= params.q) by (nonlinear_arith)
            requires
                0 < self.t <= params.q,
        ;
        assert(forall|k: int| 0 <= k < len_of(m_prime.coeffs@) ==> #[trigger] m_prime.coeffs@[k] < q) by {
            assert forall|k: int| 0 <= k < len_of(m_prime.coeffs@) implies #[trigger] m_prime.coeffs@[k] < q by {
                lemma_mod_bound(ciphertext.c0.coeffs@[k] - c1s.coeffs@[k], params.q as int);
            }
        }
        let len = m_prime.coeffs.len();
        let mut i: usize = 0;
        while i < len
            invariant
                len == m_prime.coeffs@.len(),
                q == params.q,
                q >= 2,
                delta == params.q / self.t,
                delta >= 1,
                delta <= u64::MAX,
                i <= len,
                max_noise_v == max_noise(m_prime.coeffs@.subrange(0, i as int), q as int, delta as int),
                forall|k: int| 0 <= k < len ==> #[trigger] m_prime.coeffs@[k] < q,
            decreases len - i,
        {
            let coeff = m_prime.coeffs[i];
            let centered_v = if coeff as i128 > q / 2 {
                coeff as i128 - q
            } else {
                coeff as i128
            };
            let abs_v = if centered_v < 0 {
                -centered_v
            } else {
                centered_v
            };
            let remainder = abs_v % delta;
            let nv: i128 = if remainder < delta - remainder {
                remainder
            } else {
                delta - remainder
            };
            proof {
                lemma_mod_bound(abs_v as int, delta as int);
            }
            let noise = nv as u64;
            proof {
                lemma_mod_bound(abs_v as int, delta as int);
                assert(m_prime.coeffs@.subrange(0, i + 1).drop_last() =~= m_prime.coeffs@.subrange(0, i as int));
                assert(centered_v == centered(coeff as int, q as int));
                assert(abs_v >= 0);
                assert(remainder == (abs_v as int) % (delta as int));
                assert(0 <= nv <= delta);
                assert(nv == coeff_noise(coeff as int, q as int, delta as int));
                assert(noise as int == coeff_noise(coeff as int, q as int, delta as int));
            }
            if noise > max_noise_v {
                max_noise_v = noise;
            }
            i = i + 1;
        }
        assert(m_prime.coeffs@.subrange(0, len as int) =~= m_prime.coeffs@);
        proof {
            lemma_max_noise_is_maximum(m_prime.coeffs@, q as int, delta as int);
        }
        max_noise_v
    }

    /// `b = a * s + e` for the given noise `e` (taken into Z_q).
    pub fn public_b_with_noise(&self, a: &Polynomial, s: &Polynomial, e: Noise) -> (b: Polynomial)
        requires
            self.wf(),
            a.coeffs.len() == s.coeffs.len(),
            self.params.n <= a.coeffs.len(),
            is_noise(e.0@, self.params.n as nat, self.eta as int),
        ensures
            b.coeffs@ == spec_public_b(*self, a.coeffs@, s.coeffs@, e.0@),
    {
        let params = &self.params;
        let ntt_tables = &self.ntt_precalculated;
        let ghost ev = e.0@;
        let e = e.to_poly(params.q);
        proof {
            lemma_ntt_product_fits(a.coeffs@, s.coeffs@, params.n as nat, *ntt_tables, params.q as int);
            assert(e.coeffs@ =~= noise_poly(ev, params.q));
        }
        let mul = a.mul_ntt(params, ntt_tables, s);
        let b = mul.sum(params, &e);
        proof {
            lemma_words_of_ints(b.coeffs@, poly_sum(mul.coeffs@, e.coeffs@, params.n as nat, params.q as int));
        }
        b
    }

    /// The public key part `b = a * s + e` with fresh centered binomial
    /// noise `e` of parameter `eta`.
    pub fn generate_public_b(&self, a: &Polynomial, s: &Polynomial) -> (b: Polynomial)
        requires
            self.wf(),
            a.coeffs.len() == s.coeffs.len(),
            self.params.n <= a.coeffs.len(),
        ensures
            exists|e: Seq<i32>|
                is_noise(e, self.params.n as nat, self.eta as int) && b.coeffs@ == #[trigger] spec_public_b(
                    *self,
                    a.coeffs@,
                    s.coeffs@,
                    e,
                ),
    {
        let e = generate_cbd_noise(self.params.n, self.eta);
        let ghost ev = e.0@;
        let b = self.public_b_with_noise(a, s, e);
        assert(is_noise(ev, self.params.n as nat, self.eta as int));
        b
    }

    /// The public polynomial `a`, uniform in Z_q.
    pub fn generate_public_a(&self) -> (a: Polynomial)
        requires
            self.params.q >= 1,
        ensures
            is_uniform_range(a.coeffs@, self.params.n as nat, self.params.q as int),
    {
        generate_uniform_polynomial(&self.params)
    }

    /// The secret key: `n` coefficients drawn from `{-1, 0, 1}` in Z_q.
    pub fn generate_secret_key(&self) -> (s: Polynomial)
        requires
            self.params.q >= 1,
        ensures
            is_small(s.coeffs@, self.params.n as nat, self.params.q as int),
    {
        generate_small_polynomial(&self.params)
    }

    /// Encryption with the given randomness: `c0 = b u + e1 + delta m`,
    /// `c1 = a u + e2`.
    pub fn encrypt_with(
        &self,
        message: &BFVPlaintext,
        public_a: &Polynomial,
        public_b: &Polynomial,
        u: &Polynomial,
        e1: Noise,
        e2: Noise,
    ) -> (c: BFVCiphertext)
        requires
            self.wf(),
            self.t > 0,
            message.plain.coeffs.len() == self.params.n,
            public_a.coeffs.len() == self.params.n,
            public_b.coeffs.len() == self.params.n,
            u.coeffs.len() == self.params.n,
            is_noise(e1.0@, self.params.n as nat, self.eta as int),
            is_noise(e2.0@, self.params.n as nat, self.eta as int),
        ensures
            (c.c0.coeffs@, c.c1.coeffs@) == spec_encrypt(
                *self,
                message.plain.coeffs@,
                public_a.coeffs@,
                public_b.coeffs@,
                u.coeffs@,
                e1.0@,
                e2.0@,
            ),
    {
        let params = &self.params;
        let ntt_tables = &self.ntt_precalculated;
        let ghost (e1v, e2v) = (e1.0@, e2.0@);
        let e1 = e1.to_poly(params.q);
        let e2 = e2.to_poly(params.q);
        proof {
            assert(e1.coeffs@ =~= noise_poly(e1v, params.q));
            assert(e2.coeffs@ =~= noise_poly(e2v, params.q));
            lemma_ntt_product_fits(public_b.coeffs@, u.coeffs@, params.n as nat, *ntt_tables, params.q as int);
            lemma_ntt_product_fits(public_a.coeffs@, u.coeffs@, params.n as nat, *ntt_tables, params.q as int);
        }
        let delta = params.q / self.t;
        let bu = public_b.mul_ntt(params, ntt_tables, u);
        let delta_m = message.plain.scale(params, delta);
        let c0_temp = bu.sum(params, &e1);
        assert(as_ints(c0_temp.coeffs@).len() == params.n);
        assert(as_ints(delta_m.coeffs@).len() == message.plain.coeffs@.len());
        let c0 = c0_temp.sum(params, &delta_m);
        let au = public_a.mul_ntt(params, ntt_tables, u);
        let c1 = au.sum(params, &e2);
        proof {
            lemma_words_of_ints(delta_m.coeffs@, poly_scale(message.plain.coeffs@, delta as int, params.q as int));
            lemma_words_of_ints(c0_temp.coeffs@, poly_sum(bu.coeffs@, e1.coeffs@, params.n as nat, params.q as int));
            lemma_words_of_ints(c0.coeffs@, poly_sum(c0_temp.coeffs@, delta_m.coeffs@, params.n as nat, params.q as int));
            lemma_words_of_ints(c1.coeffs@, poly_sum(au.coeffs@, e2.coeffs@, params.n as nat, params.q as int));
        }
        BFVCiphertext { c0, c1 }
    }

    /// Encryption with fresh randomness: a small `u` and centered binomial
    /// noises `e1`, `e2`.
    pub fn encrypt(&self, message: &BFVPlaintext, public_a: &Polynomial, public_b: &Polynomial) -> (c: BFVCiphertext)
        requires
            self.wf(),
            self.t > 0,
            message.plain.coeffs.len() == self.params.n,
            public_a.coeffs.len() == self.params.n,
            public_b.coeffs.len() == self.params.n,
        ensures
            exists|u: Seq<u64>, e1: Seq<i32>, e2: Seq<i32>|
                is_small(u, self.params.n as nat, self.params.q as int) && is_noise(
                    e1,
                    self.params.n as nat,
                    self.eta as int,
                ) && is_noise(e2, self.params.n as nat, self.eta as int) && (c.c0.coeffs@, c.c1.coeffs@)
                    == #[trigger] spec_encrypt(
                    *self,
                    message.plain.coeffs@,
                    public_a.coeffs@,
                    public_b.coeffs@,
                    u,
                    e1,
                    e2,
                ),
    {
        let u = generate_small_polynomial(&self.params);
        let e1 = generate_cbd_noise(self.params.n, self.eta);
        let e2 = generate_cbd_noise(self.params.n, self.eta);
        let ghost (uv, e1v, e2v) = (u.coeffs@, e1.0@, e2.0@);
        let c = self.encrypt_with(message, public_a, public_b, &u, e1, e2);
        assert(is_small(uv, self.params.n as nat, self.params.q as int));
        assert(is_noise(e1v, self.params.n as nat, self.eta as int));
        assert(is_noise(e2v, self.params.n as nat, self.eta as int));
        c
    }

    /// Decrypts to the plaintext polynomial: each coefficient of
    /// `c0 - c1 s` is centered and scaled back by `t / q` with rounding, then
    /// reduced modulo `t`.
    pub fn backend_decrypt(&self, ciphertext: &BFVCiphertext, secret_key: &Polynomial) -> (m: Polynomial)
        requires
            self.params.n >= 2,
            is_power_of_two(self.params.n as int),
            2 <= self.params.q <= 0x1_0000_0000,
            self.t > 0,
            tables_fit(self.ntt_precalculated, self.params.n as nat),
            ciphertext.c0.coeffs.len() == self.params.n,
            ciphertext.c1.coeffs.len() == self.params.n,
            secret_key.coeffs.len() == self.params.n,
        ensures
            m.coeffs@ == decode_poly(
                spec_phase(*self, ciphertext.c0.coeffs@, ciphertext.c1.coeffs@, secret_key.coeffs@),
                self.params.q as int,
                self.t as int,
            ),
            m.coeffs@.len() == self.params.n,
            forall|k: int| 0 <= k < self.params.n ==> #[trigger] m.coeffs@[k] < self.t,
    {
        let params = &self.params;
        let ntt_tables = &self.ntt_precalculated;
        proof {
            lemma_ntt_product_fits(ciphertext.c1.coeffs@, secret_key.coeffs@, params.n as nat, *ntt_tables, params.q as int);
        }
        let c1s = ciphertext.c1.mul_ntt(params, ntt_tables, secret_key);
        let m_prime = ciphertext.c0.sub(params, &c1s);
        proof {
            lemma_words_of_ints(m_prime.coeffs@, poly_sub(ciphertext.c0.coeffs@, c1s.coeffs@, params.n as nat, params.q as int));
        }
        let ghost mp = m_prime.coeffs@;
        let n = params.n;
        let mut coeffs = vec![0u64; n];
        let q = params.q as i128;
        let t = self.t as i128;
        let mut i: usize = 0;
        while i < n
            invariant
                n == params.n,
                mp == m_prime.coeffs@,
                mp.len() == n,
                forall|k: int| 0 <= k < n ==> #[trigger] mp[k] < q,
                q == params.q,
                2 <= q <= 0x1_0000_0000,
                t == self.t,
                t > 0,
                coeffs@.len() == n,
                i <= n,
                forall|k: int| 0 <= k < i ==> #[trigger] coeffs@[k] == decode_coeff(mp[k] as int, q as int, t as int) as u64,
                forall|k: int| 0 <= k < i ==> #[trigger] coeffs@[k] < t,
            decreases n - i,
        {
            let raw = m_prime.coeffs[i] as i128;
            let val = if raw > q / 2 {
                raw - q
            } else {
                raw
            };
            proof {
                let av: int = if val < 0 {
                    -(val as int)
                } else {
                    val as int
                };
                assert(av <= 0x1_0000_0000);
                lemma_mul_upper_bound(av, 0x1_0000_0000, t as int, u64::MAX as int);
                lemma_mul_nonnegative(av, t as int);
                if val < 0 {
                    lemma_mul_unary_negation(av, t as int);
                }
            }
            let fl = floor_div(val * t + q / 2, q);
            let decoded = euclid_rem(fl, t);
            coeffs.set(i, decoded as u64);
            i = i + 1;
        }
        let m = Polynomial::new(coeffs);
        assert(m.coeffs@ =~= decode_poly(mp, params.q as int, self.t as int));
        m
    }

    /// Decrypts to text: the plaintext polynomial of `backend_decrypt`, read
    /// as the UTF-8 bytes given by the low byte of each coefficient.
    pub fn decrypt(&self, ciphertext: &BFVCiphertext, secret_key: &Polynomial) -> (text: String)
        requires
            self.params.n >= 2,
            is_power_of_two(self.params.n as int),
            2 <= self.params.q <= 0x1_0000_0000,
            self.t > 0,
            tables_fit(self.ntt_precalculated, self.params.n as nat),
            ciphertext.c0.coeffs.len() == self.params.n,
            ciphertext.c1.coeffs.len() == self.params.n,
            secret_key.coeffs.len() == self.params.n,
            valid_utf8(
                low_bytes(
                    decode_poly(
                        spec_phase(*self, ciphertext.c0.coeffs@, ciphertext.c1.coeffs@, secret_key.coeffs@),
                        self.params.q as int,
                        self.t as int,
                    ),
                ),
            ),
        ensures
            text@ == decode_utf8(
                low_bytes(
                    decode_poly(
                        spec_phase(*self, ciphertext.c0.coeffs@, ciphertext.c1.coeffs@, secret_key.coeffs@),
                        self.params.q as int,
                        self.t as int,
                    ),
                ),
            ),
    {
        let plain = self.backend_decrypt(ciphertext, secret_key);
        BFVPlaintext { plain, len: self.params.n }.decode()
    }

    /// Homomorphic addition: the ciphertexts added component-wise in Z_q.
    pub fn sum_ciphertexts(&self, first_cipher: BFVCiphertext, second_cipher: BFVCiphertext) -> (c: BFVCiphertext)
        requires
            self.params.q > 0,
            first_cipher.c0.coeffs.len() == second_cipher.c0.coeffs.len(),
            first_cipher.c1.coeffs.len() == second_cipher.c1.coeffs.len(),
            self.params.n <= first_cipher.c0.coeffs.len(),
            self.params.n <= first_cipher.c1.coeffs.len(),
        ensures
            c.c0.coeffs@ == words(poly_sum(first_cipher.c0.coeffs@, second_cipher.c0.coeffs@, self.params.n as nat, self.params.q as int)),
            c.c1.coeffs@ == words(poly_sum(first_cipher.c1.coeffs@, second_cipher.c1.coeffs@, self.params.n as nat, self.params.q as int)),
    {
        let params = &self.params;
        let new_c0 = first_cipher.c0.sum(params, &second_cipher.c0);
        let new_c1 = first_cipher.c1.sum(params, &second_cipher.c1);
        proof {
            lemma_words_of_ints(new_c0.coeffs@, poly_sum(first_cipher.c0.coeffs@, second_cipher.c0.coeffs@, params.n as nat, params.q as int));
            lemma_words_of_ints(new_c1.coeffs@, poly_sum(first_cipher.c1.coeffs@, second_cipher.c1.coeffs@, params.n as nat, params.q as int));
        }
        BFVCiphertext { c0: new_c0, c1: new_c1 }
    }

    /// Adds a plaintext to a ciphertext: `c0 + delta m`, `c1` unchanged.
    pub fn sum_ciphertext_and_plaintext(&self, ciphertext: &BFVCiphertext, plaintext: &BFVPlaintext) -> (c: BFVCiphertext)
        requires
            self.params.q > 0,
            self.t > 0,
            ciphertext.c0.coeffs.len() == plaintext.plain.coeffs.len(),
            self.params.n <= ciphertext.c0.coeffs.len(),
        ensures
            c.c0.coeffs@ == words(
                poly_sum(
                    ciphertext.c0.coeffs@,
                    words(poly_scale(plaintext.plain.coeffs@, spec_delta(*self), self.params.q as int)),
                    self.params.n as nat,
                    self.params.q as int,
                ),
            ),
            c.c1.coeffs@ == ciphertext.c1.coeffs@,
    {
        let params = &self.params;
        let delta = params.q / self.t;
        let delta_m = plaintext.plain.scale(params, delta);
        proof {
            lemma_words_of_ints(delta_m.coeffs@, poly_scale(plaintext.plain.coeffs@, delta as int, params.q as int));
        }
        let new_c0 = ciphertext.c0.sum(params, &delta_m);
        proof {
            lemma_words_of_ints(new_c0.coeffs@, poly_sum(ciphertext.c0.coeffs@, delta_m.coeffs@, params.n as nat, params.q as int));
        }
        let new_c1 = Polynomial::new(ciphertext.c1.coeffs.clone());
        assert(new_c1.coeffs@ =~= ciphertext.c1.coeffs@);
        BFVCiphertext { c0: new_c0, c1: new_c1 }
    }

    /// Multiplies a ciphertext by a plaintext polynomial: both components
    /// multiplied by transforms.
    pub fn mul_ciphertext_and_plaintext(&self, ciphertext: &BFVCiphertext, plaintext: &BFVPlaintext) -> (c: BFVCiphertext)
        requires
            self.params.n >= 2,
            is_power_of_two(self.params.n as int),
            self.params.q >= 2,
            tables_fit(self.ntt_precalculated, self.params.n as nat),
            ciphertext.c0.coeffs.len() == plaintext.plain.coeffs.len(),
            ciphertext.c1.coeffs.len() == plaintext.plain.coeffs.len(),
            self.params.n <= plaintext.plain.coeffs.len(),
            ntt_product_fits(ciphertext.c0.coeffs@, plaintext.plain.coeffs@, self.params.n as nat, self.ntt_precalculated, self.params.q as int),
            ntt_product_fits(ciphertext.c1.coeffs@, plaintext.plain.coeffs@, self.params.n as nat, self.ntt_precalculated, self.params.q as int),
        ensures
            c.c0.coeffs@ == spec_mul_ntt(ciphertext.c0.coeffs@, plaintext.plain.coeffs@, self.params.n as nat, self.ntt_precalculated, self.params.q as int),
            c.c1.coeffs@ == spec_mul_ntt(ciphertext.c1.coeffs@, plaintext.plain.coeffs@, self.params.n as nat, self.ntt_precalculated, self.params.q as int),
    {
        let params = &self.params;
        let ntt_tables = &self.ntt_precalculated;
        let new_c0 = ciphertext.c0.mul_ntt(params, ntt_tables, &plaintext.plain);
        let new_c1 = ciphertext.c1.mul_ntt(params, ntt_tables, &plaintext.plain);
        BFVCiphertext { c0: new_c0, c1: new_c1 }
    }
}

} // verus!
