//! The product by transforms is the product of Z_q[X]/(X^n + 1): the
//! forward transform evaluates a polynomial at the roots of `X^n + 1`
//! (in bit-reversed order), so it turns the negacyclic product into the
//! coefficient-wise product, and the inverse transform undoes it.

use vstd::arithmetic::div_mod::*;
use vstd::arithmetic::mul::*;
use vstd::arithmetic::power::*;
use vstd::arithmetic::power2::*;
use vstd::prelude::*;

use crate::fermat::{lemma_fermat, lemma_odd_prime_not_dividing_pow2};
use crate::modular::{mod_pow, spec_is_prime, spec_mod_pow};
use crate::ntt::{bitrev, fwd_from, fwd_hi, fwd_lo, fwd_stage, twiddle_table};
use crate::ntt::{
    all_below, lemma_forward_ntt_reduced, lemma_inverse_ntt_inverts_forward_ntt, spec_forward_ntt, spec_inverse_ntt,
    NTTprecaculated,
};
use crate::polys::{as_ints, conv, conv_rows, negacyclic_mul, pointwise_words, spec_mul_ntt, words};
use crate::ring::{is_power_of_two, RingParams};
use vstd::bits::lemma_u64_shr_is_div;
use vstd::std_specs::bits::{axiom_u64_trailing_zeros, u64_trailing_zeros};

verus! {

/// `sum_{l < k} a[j + l t] r^l`.
pub open spec fn psum(a: Seq<u64>, j: int, t: int, r: int, k: nat) -> int
    decreases k,
{
    if k == 0 {
        0
    } else {
        psum(a, j, t, r, (k - 1) as nat) + a[j + (k - 1) * t] * pow(r, (k - 1) as nat)
    }
}

/// `sum_{l < k} f(l) x^l`.
pub open spec fn wsum(f: spec_fn(int) -> int, x: int, k: nat) -> int
    decreases k,
{
    if k == 0 {
        0
    } else {
        wsum(f, x, (k - 1) as nat) + f(k - 1) * pow(x, (k - 1) as nat)
    }
}

/// Sums of congruent terms are congruent.
proof fn lemma_cong_add(a: int, b: int, c: int, d: int, q: int)
    requires
        q > 0,
        a % q == c % q,
        b % q == d % q,
    ensures
        (a + b) % q == (c + d) % q,
{
    lemma_add_mod_noop(a, b, q);
    lemma_add_mod_noop(c, d, q);
}

/// Differences of congruent terms are congruent.
proof fn lemma_cong_sub(a: int, b: int, c: int, d: int, q: int)
    requires
        q > 0,
        a % q == c % q,
        b % q == d % q,
    ensures
        (a - b) % q == (c - d) % q,
{
    lemma_sub_mod_noop(a, b, q);
    lemma_sub_mod_noop(c, d, q);
}

/// Products of congruent terms are congruent.
proof fn lemma_cong_mul(a: int, b: int, c: int, d: int, q: int)
    requires
        q > 0,
        a % q == c % q,
        b % q == d % q,
    ensures
        (a * b) % q == (c * d) % q,
{
    lemma_mul_mod_noop_general(a, b, q);
    lemma_mul_mod_noop_general(c, d, q);
}

/// Splitting a sum over `2k` terms with step `h` into the even terms and
/// the odd terms, each a sum over `k` terms with step `2h` in powers of `w^2`.
proof fn lemma_psum_split(a: Seq<u64>, j: int, h: int, w: int, k: nat)
    ensures
        psum(a, j, h, w, 2 * k) == psum(a, j, 2 * h, w * w, k) + w * psum(a, j + h, 2 * h, w * w, k),
    decreases k,
{
    if k == 0 {
        assert(w * 0 == 0);
    } else {
        let k1 = (k - 1) as nat;
        lemma_psum_split(a, j, h, w, k1);
        let e = (2 * k1) as nat;
        assert(2 * k == e + 2);
        assert(psum(a, j, h, w, (e + 1) as nat) == psum(a, j, h, w, e) + a[j + e * h] * pow(w, e));
        assert(psum(a, j, h, w, (e + 2) as nat) == psum(a, j, h, w, (e + 1) as nat) + a[j + (e + 1)
            * h] * pow(w, (e + 1) as nat));
        let ww = w * w;
        let p = pow(ww, k1);
        assert(p == pow(w, e)) by {
            lemma_square_is_pow2(w);
            lemma_pow_multiplies(w, 2, k1);
        }
        assert(pow(w, (e + 1) as nat) == w * pow(w, e)) by {
            lemma_pow_adds(w, e, 1);
            lemma_pow1(w);
            lemma_mul_is_commutative(w, pow(w, e));
        }
        assert(j + e * h == j + k1 * (2 * h)) by {
            lemma_mul_is_associative(2, k1 as int, h);
            lemma_mul_is_commutative(k1 as int, 2);
            lemma_mul_is_associative(k1 as int, 2, h);
        }
        assert(j + (e + 1) * h == (j + h) + k1 * (2 * h)) by {
            lemma_mul_is_distributive_add_other_way(h, e as int, 1);
            lemma_mul_is_associative(2, k1 as int, h);
            lemma_mul_is_commutative(k1 as int, 2);
            lemma_mul_is_associative(k1 as int, 2, h);
        }
        let se = psum(a, j + h, 2 * h, ww, k1);
        let b = a[(j + h) + k1 * (2 * h)] as int;
        assert(w * (se + b * p) == w * se + b * (w * p)) by {
            lemma_mul_is_distributive_add(w, se, b * p);
            lemma_mul_is_associative(w, b, p);
            lemma_mul_is_commutative(w, b);
            lemma_mul_is_associative(b, w, p);
        }
    }
}

/// Sums with congruent ratios are congruent.
proof fn lemma_psum_cong_ratio(a: Seq<u64>, j: int, t: int, r1: int, r2: int, k: nat, q: int)
    requires
        q > 0,
        r1 % q == r2 % q,
    ensures
        psum(a, j, t, r1, k) % q == psum(a, j, t, r2, k) % q,
    decreases k,
{
    if k > 0 {
        let k1 = (k - 1) as nat;
        lemma_psum_cong_ratio(a, j, t, r1, r2, k1, q);
        assert(pow(r1, k1) % q == pow(r2, k1) % q) by {
            lemma_pow_mod_noop(r1, k1, q);
            lemma_pow_mod_noop(r2, k1, q);
        }
        let c = a[j + k1 * t] as int;
        lemma_cong_mul(c, pow(r1, k1), c, pow(r2, k1), q);
        lemma_cong_add(psum(a, j, t, r1, k1), c * pow(r1, k1), psum(a, j, t, r2, k1), c * pow(r2, k1), q);
    }
}

/// Root of block `c` after `s` forward stages: `-1` before any stage, then
/// `tw[2^(s-1) + c/2]` for even `c` and its opposite for odd `c`.
pub open spec fn block_root(tw: Seq<u128>, s: nat, c: int) -> int {
    if s == 0 {
        -1
    } else {
        let w = tw[pow2((s - 1) as nat) + c / 2] as int;
        if c % 2 == 0 {
            w
        } else {
            -w
        }
    }
}

/// After `s` forward stages on `a` (degree `n`, blocks of `t = n / 2^s`),
/// position `k` holds, modulo `q`, coefficient `k mod t` of `a` reduced
/// modulo `X^t - r` for the root `r` of its block `k / t`.
pub open spec fn fwd_level(x: Seq<u64>, a: Seq<u64>, s: nat, n: nat, tw: Seq<u128>, q: int) -> bool {
    let t = n / pow2(s);
    forall|k: int|
        0 <= k < n ==> (#[trigger] x[k] as int) % q == psum(a, k % (t as int), t as int, block_root(tw, s, k / (t as int)), pow2(s)) % q
}

/// Each block root is the square of the twiddle of the stage that splits it.
pub open spec fn roots_square(tw: Seq<u128>, s: nat, q: int) -> bool {
    forall|c: int|
        0 <= c < pow2(s) ==> (#[trigger] tw[pow2(s) + c] * tw[pow2(s) + c]) % q == block_root(tw, s, c) % q
}

/// The upper output of a forward butterfly is `u + b w` modulo `q`, within a word.
proof fn lemma_fwd_hi(u: int, b: int, w: int, q: int)
    requires
        0 < q <= u64::MAX,
        0 <= u <= u64::MAX,
    ensures
        0 <= fwd_hi(u, b, w, q) <= u64::MAX,
        fwd_hi(u, b, w, q) % q == (u + b * w) % q,
{
    let v = (b * w) % q;
    lemma_mod_bound(b * w, q);
    lemma_add_mod_noop_right(u, b * w, q);
    if u + v >= q {
        lemma_mod_sub_multiples_vanish(u + v, q);
    }
}

/// The lower output of a forward butterfly is `u - b w` modulo `q`, within a word.
proof fn lemma_fwd_lo(u: int, b: int, w: int, q: int)
    requires
        0 < q <= u64::MAX,
        0 <= u <= u64::MAX,
    ensures
        0 <= fwd_lo(u, b, w, q) <= u64::MAX,
        fwd_lo(u, b, w, q) % q == (u - b * w) % q,
{
    let v = (b * w) % q;
    lemma_mod_bound(b * w, q);
    lemma_sub_mod_noop_right(u, b * w, q);
    if u < v {
        lemma_mod_add_multiples_vanish(u - v, q);
    }
}

/// Position `k` in blocks of `t = 2h`: its block and offset in blocks of `h`.
proof fn lemma_halve_block(k: int, h: int)
    requires
        k >= 0,
        h > 0,
    ensures
        k % (2 * h) < h ==> k / h == 2 * (k / (2 * h)) && k % h == k % (2 * h),
        k % (2 * h) < h ==> (k + h) / (2 * h) == k / (2 * h) && (k + h) % (2 * h) == k % (2 * h) + h,
        k % (2 * h) >= h ==> k / h == 2 * (k / (2 * h)) + 1 && k % h == k % (2 * h) - h,
        k % (2 * h) >= h ==> (k - h) / (2 * h) == k / (2 * h) && (k - h) % (2 * h) == k % (2 * h) - h,
{
    let t = 2 * h;
    let i = k / t;
    let r = k % t;
    lemma_fundamental_div_mod(k, t);
    lemma_mod_bound(k, t);
    assert(t * i == h * (2 * i)) by (nonlinear_arith)
        requires
            t == 2 * h,
    ;
    assert(h * (2 * i) + h == h * (2 * i + 1)) by (nonlinear_arith);
    if r < h {
        lemma_fundamental_div_mod_converse(k, h, 2 * i, r);
        lemma_fundamental_div_mod_converse(k + h, t, i, r + h);
    } else {
        lemma_fundamental_div_mod_converse(k, h, 2 * i + 1, r - h);
        lemma_fundamental_div_mod_converse(k - h, t, i, r - h);
    }
}

/// The upper butterfly output, with inputs congruent to the level sums of
/// a block, is congruent to the level sum of the even half block.
proof fn lemma_hi_level(a: Seq<u64>, u: int, b: int, w: int, root: int, q: int, j: int, h: int, kk: nat)
    requires
        0 < q <= u64::MAX,
        0 <= u <= u64::MAX,
        u % q == psum(a, j, 2 * h, root, kk) % q,
        b % q == psum(a, j + h, 2 * h, root, kk) % q,
        root % q == (w * w) % q,
    ensures
        fwd_hi(u, b, w, q) % q == psum(a, j, h, w, 2 * kk) % q,
{
    lemma_fwd_hi(u, b, w, q);
    let pa = psum(a, j, 2 * h, w * w, kk);
    let pb = psum(a, j + h, 2 * h, w * w, kk);
    lemma_psum_cong_ratio(a, j, 2 * h, root, w * w, kk, q);
    lemma_psum_cong_ratio(a, j + h, 2 * h, root, w * w, kk, q);
    lemma_cong_mul(b, w, pb, w, q);
    lemma_cong_add(u, b * w, pa, pb * w, q);
    lemma_psum_split(a, j, h, w, kk);
    lemma_mul_is_commutative(pb, w);
}

/// The lower butterfly output, with inputs congruent to the level sums of
/// a block, is congruent to the level sum of the odd half block.
proof fn lemma_lo_level(a: Seq<u64>, u: int, b: int, w: int, root: int, q: int, j: int, h: int, kk: nat)
    requires
        0 < q <= u64::MAX,
        0 <= u <= u64::MAX,
        u % q == psum(a, j, 2 * h, root, kk) % q,
        b % q == psum(a, j + h, 2 * h, root, kk) % q,
        root % q == (w * w) % q,
    ensures
        fwd_lo(u, b, w, q) % q == psum(a, j, h, -w, 2 * kk) % q,
{
    lemma_fwd_lo(u, b, w, q);
    let pa = psum(a, j, 2 * h, w * w, kk);
    let pb = psum(a, j + h, 2 * h, w * w, kk);
    lemma_psum_cong_ratio(a, j, 2 * h, root, w * w, kk, q);
    lemma_psum_cong_ratio(a, j + h, 2 * h, root, w * w, kk, q);
    lemma_cong_mul(b, w, pb, w, q);
    lemma_cong_sub(u, b * w, pa, pb * w, q);
    lemma_psum_split(a, j, h, -w, kk);
    assert((-w) * (-w) == w * w) by (nonlinear_arith);
    assert((-w) * pb == -(pb * w)) by (nonlinear_arith);
}

/// `2^L / 2^s == 2^(L-s)`.
proof fn lemma_pow2_div(l: nat, s: nat)
    requires
        s <= l,
    ensures
        pow2(l) / pow2(s) == pow2((l - s) as nat),
        pow2(l) == pow2(s) * pow2((l - s) as nat),
{
    lemma_pow2_adds(s, (l - s) as nat);
    lemma_pow2_pos(s);
    lemma_div_multiples_vanish(pow2((l - s) as nat) as int, pow2(s) as int);
}

/// One forward stage takes the level-`s` property to level `s + 1`.
proof fn lemma_fwd_stage_level(x: Seq<u64>, a: Seq<u64>, s: nat, l: nat, tw: Seq<u128>, q: int)
    requires
        0 < q <= u64::MAX,
        s < l,
        x.len() >= pow2(l),
        fwd_level(x, a, s, pow2(l), tw, q),
        roots_square(tw, s, q),
    ensures
        fwd_stage(x, pow2(s), pow2(l) / (2 * pow2(s)), tw, q).len() == x.len(),
        fwd_level(fwd_stage(x, pow2(s), pow2(l) / (2 * pow2(s)), tw, q), a, s + 1, pow2(l), tw, q),
{
    let n = pow2(l);
    let m = pow2(s);
    lemma_pow2_div(l, s);
    lemma_pow2_div(l, s + 1);
    lemma_pow2_unfold(s + 1);
    lemma_pow2_unfold((l - s) as nat);
    let t = pow2((l - s) as nat);
    let h = pow2((l - s - 1) as nat);
    assert(t == 2 * h);
    assert(n / (2 * m) == h);
    assert(n / pow2(s + 1) == h);
    assert(2 * m * h == n) by {
        lemma_mul_is_associative(2, m as int, h as int);
        lemma_mul_is_commutative(2, m as int);
        lemma_mul_is_associative(m as int, 2, h as int);
    }
    lemma_pow2_pos((l - s - 1) as nat);
    let y = fwd_stage(x, m, h, tw, q);
    assert forall|k: int| 0 <= k < n implies (#[trigger] y[k] as int) % q == psum(
        a,
        k % (h as int),
        h as int,
        block_root(tw, s + 1, k / (h as int)),
        pow2(s + 1),
    ) % q by {
        let i = k / (t as int);
        let r = k % (t as int);
        lemma_halve_block(k, h as int);
        lemma_fundamental_div_mod(k, t as int);
        lemma_mod_bound(k, t as int);
        assert(0 <= i < m) by {
            lemma_div_pos_is_pos(k, t as int);
            lemma_div_is_ordered(k, n as int, t as int);
            lemma_div_multiples_vanish(m as int, t as int);
            if i == m {
                assert(k >= t * m) by (nonlinear_arith)
                    requires
                        k == t * i + r,
                        r >= 0,
                        i == m,
                ;
                lemma_mul_is_commutative(t as int, m as int);
            }
        }
        let w = tw[m + i] as int;
        assert(i == k / (2 * h as int));
        assert((w * w) % q == block_root(tw, s, i) % q);
        if r < h {
            assert(x[k] as int % q == psum(a, r, t as int, block_root(tw, s, i), m) % q);
            assert(0 <= k + h < n) by (nonlinear_arith)
                requires
                    k == t * i + r,
                    0 <= r < h,
                    t == 2 * h,
                    0 <= i < m,
                    n == m * t,
            ;
            assert(x[k + h] as int % q == psum(a, r + h, t as int, block_root(tw, s, i), m) % q);
            lemma_hi_level(a, x[k] as int, x[k + h] as int, w, block_root(tw, s, i), q, r, h as int, m);
            lemma_fwd_hi(x[k] as int, x[k + h] as int, w, q);
            assert(y[k] as int == fwd_hi(x[k] as int, x[k + h] as int, w, q));
            assert(k / (h as int) == 2 * i);
            assert(block_root(tw, s + 1, 2 * i) == w);
        } else {
            assert(0 <= k - h < n);
            assert(x[k - h] as int % q == psum(a, r - h, t as int, block_root(tw, s, i), m) % q);
            assert(x[k] as int % q == psum(a, (r - h) + h, t as int, block_root(tw, s, i), m) % q);
            lemma_lo_level(a, x[k - h] as int, x[k] as int, w, block_root(tw, s, i), q, r - h, h as int, m);
            lemma_fwd_lo(x[k - h] as int, x[k] as int, w, q);
            assert(y[k] as int == fwd_lo(x[k - h] as int, x[k] as int, w, q));
            assert(k / (h as int) == 2 * i + 1);
            assert(block_root(tw, s + 1, 2 * i + 1) == -w);
        }
    }
}

/// Reversing the bits of zero gives zero.
proof fn lemma_bitrev_zero(b: nat)
    ensures
        bitrev(0, b) == 0,
    decreases b,
{
    if b > 0 {
        lemma_bitrev_zero((b - 1) as nat);
        assert(0nat % 2 == 0 && 0nat / 2 == 0);
        assert(bitrev(0, b) == 0 * pow2((b - 1) as nat) + bitrev(0, (b - 1) as nat));
    }
}

/// A number with its top bit clear reverses to twice its reversal on one
/// bit less: `bitrev(y, l) == 2 bitrev(y, l - 1)` for `y < 2^(l-1)`.
proof fn lemma_bitrev_double(y: nat, l: nat)
    requires
        l >= 1,
        y < pow2((l - 1) as nat),
    ensures
        bitrev(y, l) == 2 * bitrev(y, (l - 1) as nat),
    decreases l,
{
    if l == 1 {
        lemma2_to64();
        assert(y == 0);
        lemma_bitrev_zero(0);
    } else {
        lemma_pow2_unfold((l - 1) as nat);
        let p2 = pow2((l - 2) as nat);
        assert(y / 2 < p2) by {
            lemma_div_is_ordered(y as int, 2 * p2 - 1, 2);
        }
        lemma_bitrev_double(y / 2, (l - 1) as nat);
        assert(bitrev(y, (l - 1) as nat) == (y % 2) * p2 + bitrev(y / 2, (l - 2) as nat));
        assert(bitrev(y, l) == (y % 2) * pow2((l - 1) as nat) + bitrev(y / 2, (l - 1) as nat));
        if y % 2 == 0 {
            assert((y % 2) * p2 == 0);
            assert((y % 2) * pow2((l - 1) as nat) == 0);
        } else {
            assert((y % 2) * p2 == p2);
            assert((y % 2) * pow2((l - 1) as nat) == pow2((l - 1) as nat));
        }
    }
}

/// A twiddle is the power of `psi` at the reversed index, and its square
/// the power at twice that, modulo `q`.
proof fn lemma_tw_power(psi: int, q: int, n: nat, l: nat, k: int)
    requires
        2 <= q <= u64::MAX,
        0 <= k < n,
    ensures
        twiddle_table(psi, q, n, l)[k] as int == spec_mod_pow(psi, bitrev(k as nat, l), q),
        (twiddle_table(psi, q, n, l)[k] as int) % q == pow(psi, bitrev(k as nat, l)) % q,
        (twiddle_table(psi, q, n, l)[k] * twiddle_table(psi, q, n, l)[k]) % q == pow(psi, 2 * bitrev(k as nat, l)) % q,
{
    let e = bitrev(k as nat, l);
    let v = spec_mod_pow(psi, e, q);
    if e == 0 {
        lemma_pow0(psi);
        lemma_small_mod(1, q as nat);
    } else {
        lemma_mod_bound(pow(psi, e), q);
        lemma_mod_twice(pow(psi, e), q);
    }
    assert(0 <= v < q);
    assert(twiddle_table(psi, q, n, l)[k] as int == v);
    lemma_cong_mul(v, v, pow(psi, e), pow(psi, e), q);
    lemma_pow_adds(psi, e, e);
    assert(e + e == 2 * e);
}

/// For `psi` with `psi^n = -1` modulo `q` (`n = 2^l`), the twiddle that
/// splits a block at stage `s` squares to the root of that block.
proof fn lemma_roots_square(psi: int, q: int, l: nat, s: nat)
    requires
        2 <= q <= u64::MAX,
        s < l,
        pow(psi, pow2(l)) % q == q - 1,
    ensures
        roots_square(twiddle_table(psi, q, pow2(l), l), s, q),
{
    let n = pow2(l);
    let tw = twiddle_table(psi, q, n, l);
    lemma_pow2_unfold(l);
    let half = pow2((l - 1) as nat);
    assert(n == 2 * half);
    lemma_pow2_pos((l - 1) as nat);
    assert((-1int) % q == q - 1) by {
        lemma_mod_add_multiples_vanish(-1, q);
        lemma_small_mod((q - 1) as nat, q as nat);
    }
    assert forall|c: int| 0 <= c < pow2(s) implies (#[trigger] tw[pow2(s) + c] * tw[pow2(s) + c]) % q
        == block_root(tw, s, c) % q by {
        let k = pow2(s) + c;
        assert(k < n) by {
            lemma_pow2_strictly_increases(s, l);
            lemma_pow2_unfold(s + 1);
            if s + 1 < l {
                lemma_pow2_strictly_increases(s + 1, l);
            }
        }
        lemma_tw_power(psi, q, n, l, k);
        let e = bitrev(k as nat, l);
        if s == 0 {
            lemma2_to64();
            assert(k == 1);
            assert(bitrev(1, l) == 1 * half + bitrev(0, (l - 1) as nat));
            lemma_bitrev_zero((l - 1) as nat);
            assert(2 * e == n);
        } else {
            lemma_pow2_unfold(s);
            let b = c % 2;
            let y = pow2((s - 1) as nat) + c / 2;
            assert(k == 2 * y + b);
            assert(y < half) by {
                if s < l - 1 {
                    lemma_pow2_strictly_increases(s, (l - 1) as nat);
                }
            }
            assert(k as nat / 2 == y && k as nat % 2 == b);
            assert(e == b * half + bitrev(y as nat, (l - 1) as nat));
            lemma_bitrev_double(y as nat, l);
            let ey = bitrev(y as nat, l);
            assert(y < n);
            lemma_tw_power(psi, q, n, l, y);
            if b == 0 {
                lemma_mul_basics(half as int);
                assert(b * half == 0);
                assert(2 * e == ey);
                assert(block_root(tw, s, c) == tw[y] as int);
            } else {
                lemma_mul_basics(half as int);
                assert(b * half == half);
                assert(2 * e == n + ey);
                lemma_pow_adds(psi, n, ey as nat);
                // psi^(n + ey) = psi^n psi^ey, congruent to -1 times tw[y]
                lemma_cong_mul(pow(psi, n), pow(psi, ey as nat), -1, tw[y] as int, q);
                assert(block_root(tw, s, c) == -(tw[y] as int));
                assert(-1 * (tw[y] as int) == -(tw[y] as int));
            }
        }
    }
}

/// Before any stage, the level property holds of the input itself.
proof fn lemma_fwd_level_zero(a: Seq<u64>, n: nat, tw: Seq<u128>, q: int)
    requires
        q > 0,
        n >= 1,
    ensures
        fwd_level(a, a, 0, n, tw, q),
{
    lemma2_to64();
    assert(n / pow2(0) == n);
    assert forall|k: int| 0 <= k < n implies (#[trigger] a[k] as int) % q == psum(
        a,
        k % (n as int),
        n as int,
        block_root(tw, 0, k / (n as int)),
        pow2(0),
    ) % q by {
        lemma_small_mod(k as nat, n);
        lemma_pow0(-1);
        assert(psum(a, k, n as int, -1, 1) == psum(a, k, n as int, -1, 0) + a[k + 0 * n] * pow(-1, 0));
    }
}

/// The forward stages from `2^s` blocks on take the level-`s` property to
/// the last level.
proof fn lemma_fwd_from_level(x: Seq<u64>, a: Seq<u64>, s: nat, l: nat, tw: Seq<u128>, q: int)
    requires
        0 < q <= u64::MAX,
        s <= l,
        x.len() >= pow2(l),
        fwd_level(x, a, s, pow2(l), tw, q),
        forall|s2: nat| s <= s2 < l ==> #[trigger] roots_square(tw, s2, q),
    ensures
        fwd_from(x, pow2(s), pow2(l), tw, q).len() == x.len(),
        fwd_level(fwd_from(x, pow2(s), pow2(l), tw, q), a, l, pow2(l), tw, q),
    decreases l - s,
{
    lemma_pow2_pos(s);
    if s < l {
        lemma_pow2_strictly_increases(s, l);
        assert(roots_square(tw, s, q));
        lemma_fwd_stage_level(x, a, s, l, tw, q);
        let y = fwd_stage(x, pow2(s), pow2(l) / (2 * pow2(s)), tw, q);
        lemma_pow2_unfold(s + 1);
        lemma_fwd_from_level(y, a, s + 1, l, tw, q);
        assert(fwd_from(x, pow2(s), pow2(l), tw, q) == fwd_from(y, 2 * pow2(s), pow2(l), tw, q));
    }
}

/// A block root after `s` stages is a `2^(s+1)`-th root of unity:
/// `r^(2^s) = -1` modulo `q`.
proof fn lemma_root_power(tw: Seq<u128>, q: int, s: nat, c: int)
    requires
        q > 0,
        0 <= c < pow2(s),
        forall|s2: nat| s2 < s ==> #[trigger] roots_square(tw, s2, q),
    ensures
        pow(block_root(tw, s, c), pow2(s)) % q == (-1int) % q,
    decreases s,
{
    if s == 0 {
        lemma2_to64();
        lemma_pow1(-1);
    } else {
        let s1 = (s - 1) as nat;
        let c1 = c / 2;
        lemma_pow2_unfold(s);
        assert(0 <= c1 < pow2(s1));
        let w = tw[pow2(s1) + c1] as int;
        let r = block_root(tw, s, c);
        assert(r * r == w * w) by (nonlinear_arith)
            requires
                r == w || r == -w,
        ;
        assert(roots_square(tw, s1, q));
        assert((w * w) % q == block_root(tw, s1, c1) % q);
        lemma_root_power(tw, q, s1, c1);
        lemma_square_is_pow2(r);
        lemma_pow_multiplies(r, 2, pow2(s1));
        // r^(2^s) = (r r)^(2^(s-1)), congruent to root^(2^(s-1)) = -1
        lemma_pow_mod_noop(w * w, pow2(s1), q);
        lemma_pow_mod_noop(block_root(tw, s1, c1), pow2(s1), q);
    }
}

/// Sums with termwise equal coefficients are equal.
proof fn lemma_wsum_ext(f: spec_fn(int) -> int, g: spec_fn(int) -> int, x: int, k: nat)
    requires
        forall|l: int| 0 <= l < k ==> #[trigger] f(l) == g(l),
    ensures
        wsum(f, x, k) == wsum(g, x, k),
    decreases k,
{
    if k > 0 {
        lemma_wsum_ext(f, g, x, (k - 1) as nat);
    }
}

/// Sums with termwise congruent coefficients are congruent.
proof fn lemma_wsum_cong(f: spec_fn(int) -> int, g: spec_fn(int) -> int, x: int, k: nat, q: int)
    requires
        q > 0,
        forall|l: int| 0 <= l < k ==> #[trigger] f(l) % q == g(l) % q,
    ensures
        wsum(f, x, k) % q == wsum(g, x, k) % q,
    decreases k,
{
    if k > 0 {
        let k1 = (k - 1) as nat;
        lemma_wsum_cong(f, g, x, k1, q);
        lemma_cong_mul(f(k1 as int), pow(x, k1), g(k1 as int), pow(x, k1), q);
        lemma_cong_add(wsum(f, x, k1), f(k1 as int) * pow(x, k1), wsum(g, x, k1), g(k1 as int) * pow(x, k1), q);
    }
}

/// The sum of termwise sums is the sum of the sums.
proof fn lemma_wsum_add(f: spec_fn(int) -> int, g: spec_fn(int) -> int, h: spec_fn(int) -> int, x: int, k: nat)
    requires
        forall|l: int| 0 <= l < k ==> #[trigger] h(l) == f(l) + g(l),
    ensures
        wsum(h, x, k) == wsum(f, x, k) + wsum(g, x, k),
    decreases k,
{
    if k > 0 {
        let k1 = (k - 1) as nat;
        lemma_wsum_add(f, g, h, x, k1);
        lemma_mul_is_distributive_add_other_way(pow(x, k1), f(k1 as int), g(k1 as int));
    }
}

/// Scaling every coefficient scales the sum.
proof fn lemma_wsum_scale(f: spec_fn(int) -> int, g: spec_fn(int) -> int, c: int, x: int, k: nat)
    requires
        forall|l: int| 0 <= l < k ==> #[trigger] g(l) == c * f(l),
    ensures
        wsum(g, x, k) == c * wsum(f, x, k),
    decreases k,
{
    if k > 0 {
        let k1 = (k - 1) as nat;
        lemma_wsum_scale(f, g, c, x, k1);
        lemma_mul_is_associative(c, f(k1 as int), pow(x, k1));
        lemma_mul_is_distributive_add(c, wsum(f, x, k1), f(k1 as int) * pow(x, k1));
    }
}

/// The sum of `b` placed at offset `r` is `x^r` times the sum of `b`.
proof fn lemma_wsum_shift(b: spec_fn(int) -> int, g: spec_fn(int) -> int, r: nat, n: nat, x: int, kk: nat)
    requires
        forall|k: int| #[trigger] g(k) == if r <= k < r + n { b(k - r) } else { 0 },
    ensures
        kk <= r ==> wsum(g, x, kk) == 0,
        r <= kk <= r + n ==> wsum(g, x, kk) == pow(x, r) * wsum(b, x, (kk - r) as nat),
        r + n <= kk ==> wsum(g, x, kk) == pow(x, r) * wsum(b, x, n),
    decreases kk,
{
    if kk > 0 {
        let k1 = (kk - 1) as nat;
        lemma_wsum_shift(b, g, r, n, x, k1);
        if r < kk && kk <= r + n {
            let j = (k1 - r) as nat;
            assert(g(k1 as int) == b(j as int));
            lemma_pow_adds(x, r, j);
            assert(r + j == k1);
            lemma_mul_is_associative(b(j as int), pow(x, r), pow(x, j));
            lemma_mul_is_commutative(b(j as int), pow(x, r));
            lemma_mul_is_associative(pow(x, r), b(j as int), pow(x, j));
            lemma_mul_is_distributive_add(pow(x, r), wsum(b, x, j), b(j as int) * pow(x, j));
        }
    }
}

/// Splitting a sum of `n + kk` terms at `n`.
proof fn lemma_wsum_split_at(f: spec_fn(int) -> int, g: spec_fn(int) -> int, n: nat, x: int, kk: nat)
    requires
        forall|k: int| #[trigger] g(k) == f(k + n),
    ensures
        wsum(f, x, n + kk) == wsum(f, x, n) + pow(x, n) * wsum(g, x, kk),
    decreases kk,
{
    if kk > 0 {
        let k1 = (kk - 1) as nat;
        lemma_wsum_split_at(f, g, n, x, k1);
        assert(n + kk - 1 == n + k1);
        lemma_pow_adds(x, n, k1);
        assert(g(k1 as int) == f((n + k1) as int));
        lemma_mul_is_associative(g(k1 as int), pow(x, n), pow(x, k1));
        lemma_mul_is_commutative(g(k1 as int), pow(x, n));
        lemma_mul_is_associative(pow(x, n), g(k1 as int), pow(x, k1));
        lemma_mul_is_distributive_add(pow(x, n), wsum(g, x, k1), g(k1 as int) * pow(x, k1));
    }
}

/// The evaluation of the plain product: summing the partial products of the
/// first `rows` coefficients of `a` over all `2n` degrees gives
/// `a_rows(x) b(x)`.
proof fn lemma_conv_rows_eval(a: Seq<u64>, b: Seq<u64>, n: nat, x: int, rows: nat)
    requires
        rows <= n,
    ensures
        wsum(|k: int| conv_rows(a, b, n as int, rows, k), x, 2 * n) == wsum(|i: int| a[i] as int, x, rows)
            * wsum(|j: int| b[j] as int, x, n),
    decreases rows,
{
    let bb = |j: int| b[j] as int;
    let aa = |i: int| a[i] as int;
    if rows == 0 {
        lemma_wsum_ext(|k: int| conv_rows(a, b, n as int, 0, k), |k: int| 0, x, 2 * n);
        lemma_wsum_scale(bb, |k: int| 0, 0, x, 2 * n);
        lemma_mul_basics(wsum(bb, x, n));
        lemma_wsum_scale(bb, |k: int| 0, 0, x, 2 * n);
    } else {
        let r = (rows - 1) as nat;
        lemma_conv_rows_eval(a, b, n, x, r);
        let prev = |k: int| conv_rows(a, b, n as int, r, k);
        let cur = |k: int| conv_rows(a, b, n as int, rows, k);
        let shifted = |k: int| if r <= k < r + n { bb(k - r) } else { 0 };
        let term = |k: int| if 0 <= k - r < n { a[r as int] * b[k - r] } else { 0 };
        lemma_wsum_add(prev, term, cur, x, 2 * n);
        lemma_wsum_scale(shifted, term, a[r as int] as int, x, 2 * n);
        lemma_wsum_shift(bb, shifted, r, n, x, 2 * n);
        let pa = wsum(aa, x, r);
        let pb = wsum(bb, x, n);
        let pr = pow(x, r);
        assert(wsum(aa, x, rows) == pa + a[r as int] * pr);
        assert((a[r as int] as int) * (pr * pb) + pa * pb == (pa + a[r as int] * pr) * pb) by (nonlinear_arith);
    }
}

/// Evaluation at a root of `X^n + 1` turns the product of Z_q[X]/(X^n + 1)
/// into the product of the evaluations, modulo `q`.
proof fn lemma_negacyclic_eval(a: Seq<u64>, b: Seq<u64>, n: nat, x: int, q: int)
    requires
        q > 0,
        pow(x, n) % q == (-1int) % q,
    ensures
        wsum(|k: int| negacyclic_mul(a, b, n, q)[k], x, n) % q == (wsum(|i: int| a[i] as int, x, n) * wsum(
            |j: int| b[j] as int,
            x,
            n,
        )) % q,
{
    let full = |k: int| conv(a, b, n, k);
    let high = |k: int| conv(a, b, n, k + n);
    let diff = |k: int| conv(a, b, n, k) - conv(a, b, n, k + n);
    let nc = |k: int| negacyclic_mul(a, b, n, q)[k];
    lemma_conv_rows_eval(a, b, n, x, n);
    lemma_wsum_ext(|k: int| conv_rows(a, b, n as int, n, k), full, x, 2 * n);
    assert(n + n == 2 * n);
    lemma_wsum_split_at(full, high, n, x, n);
    lemma_wsum_add(diff, high, full, x, n);
    let wf = wsum(full, x, n);
    let wh = wsum(high, x, n);
    // x^n wh is congruent to -wh
    lemma_cong_mul(pow(x, n), wh, -1, wh, q);
    assert(-1 * wh == -wh);
    lemma_cong_add(wf, pow(x, n) * wh, wf, -wh, q);
    assert(wf - wh == wsum(diff, x, n));
    assert forall|k: int| 0 <= k < n implies #[trigger] nc(k) % q == diff(k) % q by {
        lemma_mod_twice(diff(k), q);
    }
    lemma_wsum_cong(nc, diff, x, n, q);
}

/// The sum with step 1 from 0 is the evaluation of the coefficients.
proof fn lemma_psum_eval(a: Seq<u64>, x: int, k: nat)
    ensures
        psum(a, 0, 1, x, k) == wsum(|i: int| a[i] as int, x, k),
    decreases k,
{
    if k > 0 {
        lemma_psum_eval(a, x, (k - 1) as nat);
        assert(0 + (k - 1) * 1 == k - 1);
    }
}

/// The trailing zero bits of `2^l` are `l`.
proof fn lemma_trailing_zeros_pow2(l: nat)
    requires
        l < 64,
    ensures
        pow2(l) <= u64::MAX,
        u64_trailing_zeros(pow2(l) as u64) == l,
{
    lemma2_to64();
    lemma2_to64_rest();
    lemma_pow2_strictly_increases(l, 64);
    let n = pow2(l) as u64;
    axiom_u64_trailing_zeros(n);
    lemma_pow2_pos(l);
    let z = u64_trailing_zeros(n);
    assert(z < 64);
    if z < l {
        lemma_u64_shr_is_div(n, z as u64);
        lemma_pow2_div(l, z as nat);
        lemma_pow2_unfold((l - z) as nat);
        let v = n >> (z as u64);
        assert(v & 1u64 == v % 2) by (bit_vector);
        assert(v == 2 * pow2((l - z - 1) as nat));
    } else if z > l {
        let j = l as u64;
        assert((n >> j) & 1u64 == 0u64);
        lemma_u64_shr_is_div(n, j);
        lemma_div_basics(pow2(l) as int);
        let v = n >> j;
        assert(v & 1u64 == v % 2) by (bit_vector);
    }
}

/// The forward transform evaluates: for `psi` with `psi^n = -1` modulo `q`
/// (`n = 2^l`), coefficient `k` of the transform of `a` is congruent to
/// `a(r_k)` for the root `r_k` of block `k` after the last stage, and
/// `r_k^n = -1` modulo `q`.
pub proof fn lemma_forward_evaluates(a: Seq<u64>, psi: int, q: int, l: nat)
    requires
        2 <= q <= u64::MAX,
        l >= 1,
        pow(psi, pow2(l)) % q == q - 1,
        a.len() >= pow2(l),
    ensures
        spec_forward_ntt(a, pow2(l), twiddle_table(psi, q, pow2(l), l), q).len() == a.len(),
        forall|k: int|
            0 <= k < pow2(l) ==> (#[trigger] spec_forward_ntt(a, pow2(l), twiddle_table(psi, q, pow2(l), l), q)[k] as int)
                % q == psum(a, 0, 1, block_root(twiddle_table(psi, q, pow2(l), l), l, k), pow2(l)) % q,
        forall|k: int|
            0 <= k < pow2(l) ==> pow(#[trigger] block_root(twiddle_table(psi, q, pow2(l), l), l, k), pow2(l)) % q
                == (-1int) % q,
{
    let n = pow2(l);
    let tw = twiddle_table(psi, q, n, l);
    assert forall|s2: nat| 0 <= s2 < l implies #[trigger] roots_square(tw, s2, q) by {
        lemma_roots_square(psi, q, l, s2);
    }
    lemma2_to64();
    lemma_pow2_pos(l);
    lemma_fwd_level_zero(a, n, tw, q);
    lemma_fwd_from_level(a, a, 0, l, tw, q);
    let fa = spec_forward_ntt(a, n, tw, q);
    assert(n / pow2(l) == 1) by {
        lemma_div_basics(n as int);
    }
    assert forall|k: int| 0 <= k < n implies (#[trigger] fa[k] as int) % q == psum(a, 0, 1, block_root(tw, l, k), n) % q by {
        lemma_mod_bound(k, 1);
        lemma_div_basics(k);
        assert(k % 1 == 0 && k / 1 == k);
    }
    assert forall|k: int| 0 <= k < n implies pow(#[trigger] block_root(tw, l, k), n) % q == (-1int) % q by {
        lemma_root_power(tw, q, l, k);
    }
}

/// One coefficient of the product by transforms: with the transforms of
/// `a`, `b` and of their negacyclic product `ab` congruent to the
/// evaluations at a root `x` of `X^n + 1`, the product of the first two
/// reduced modulo `q` is the third (which lies below `q`).
proof fn lemma_product_coeff(a: Seq<u64>, b: Seq<u64>, ab: Seq<u64>, n: nat, q: int, x: int, fa: int, fb: int, fab: int)
    requires
        0 < q <= u64::MAX,
        pow(x, n) % q == (-1int) % q,
        ab == Seq::new(n, |k: int| negacyclic_mul(a, b, n, q)[k] as u64),
        forall|k: int| 0 <= k < n ==> 0 <= #[trigger] negacyclic_mul(a, b, n, q)[k] < q,
        fa % q == psum(a, 0, 1, x, n) % q,
        fb % q == psum(b, 0, 1, x, n) % q,
        fab % q == psum(ab, 0, 1, x, n) % q,
        0 <= fab < q,
    ensures
        (fa * fb) % q == fab,
{
    let nc = negacyclic_mul(a, b, n, q);
    lemma_psum_eval(a, x, n);
    lemma_psum_eval(b, x, n);
    lemma_psum_eval(ab, x, n);
    lemma_negacyclic_eval(a, b, n, x, q);
    assert forall|i: int| 0 <= i < n implies #[trigger] (ab[i] as int) == nc[i] by {
        assert(0 <= nc[i] < q);
    }
    lemma_wsum_ext(|i: int| ab[i] as int, |i: int| nc[i], x, n);
    let ea = wsum(|i: int| a[i] as int, x, n);
    let eb = wsum(|i: int| b[i] as int, x, n);
    lemma_cong_mul(fa, fb, ea, eb, q);
    lemma_small_mod(fab as nat, q as nat);
}

/// The modular facts the product by transforms relies on: `omega^n = -1`,
/// and `omega`, `n` invertible with inverses `omega^(q-2)`, `n^(q-2)`
/// modulo `q` (all of which hold when `q` is a prime and `omega` a
/// primitive `2n`-th root of unity modulo `q`).
pub open spec fn ntt_friendly(params: RingParams) -> bool {
    &&& spec_mod_pow(params.omega as int, params.n as nat, params.q as int) == params.q - 1
    &&& (params.omega * spec_mod_pow(params.omega as int, (params.q - 2) as nat, params.q as int)) % (
    params.q as int) == 1
    &&& (params.n * spec_mod_pow(params.n as int, (params.q - 2) as nat, params.q as int)) % (params.q as int)
        == 1
}

/// Decides `ntt_friendly` by computing it: `omega^n mod q == q - 1`, and
/// `omega` and `n` each times its power `q - 2` is `1` modulo `q`. With
/// `precalculate`'s tables and a power-of-two `n >= 2`, a `true` answer makes
/// the parameters `transform_ready`, so the transform laws apply to them. For
/// a prime `q > 2` the answer is known without computing it: see
/// `lemma_prime_is_ntt_friendly`.
pub fn is_ntt_friendly(params: &RingParams) -> (b: bool)
    requires
        params.q >= 2,
    ensures
        b == ntt_friendly(*params),
{
    let q = params.q as u128;
    let w = params.omega as u128;
    let n = params.n as u128;
    let wn = mod_pow(w, n, q);
    let wi = mod_pow(w, q - 2, q);
    let ni = mod_pow(n, q - 2, q);
    proof {
        lemma_mul_upper_bound(w as int, u64::MAX as int, wi as int, u64::MAX as int);
        lemma_mul_upper_bound(n as int, u64::MAX as int, ni as int, u64::MAX as int);
    }
    wn == q - 1 && (w * wi) % q == 1 && (n * ni) % q == 1
}

/// The tables `precalculate` builds for `params`, on parameters where the
/// product by transforms is the ring product.
pub open spec fn transform_ready(params: RingParams, tables: NTTprecaculated) -> bool {
    &&& params.n >= 2
    &&& is_power_of_two(params.n as int)
    &&& params.q >= 2
    &&& tables.twiddles@ == twiddle_table(
        params.omega as int,
        params.q as int,
        params.n as nat,
        u64_trailing_zeros(params.n as u64) as nat,
    )
    &&& tables.twiddles_inv@ == twiddle_table(
        spec_mod_pow(params.omega as int, (params.q - 2) as nat, params.q as int),
        params.q as int,
        params.n as nat,
        u64_trailing_zeros(params.n as u64) as nat,
    )
    &&& ntt_friendly(params)
}

/// `log2 n` for a power of two below `2^64`, and the trailing zero count of
/// `n` agrees with it.
proof fn lemma_log2_of(n: nat) -> (l: nat)
    requires
        n >= 2,
        n <= u64::MAX,
        is_power_of_two(n as int),
    ensures
        pow2(l) == n,
        1 <= l < 64,
        u64_trailing_zeros(n as u64) == l,
{
    let l = choose|l: nat| pow2(l) == n;
    lemma2_to64();
    lemma2_to64_rest();
    if l >= 64 {
        if l > 64 {
            lemma_pow2_strictly_increases(64, l);
        }
    }
    lemma_trailing_zeros_pow2(l);
    l
}

/// The forward transform turns the ring product into the coefficient-wise
/// product: the transform of the negacyclic product of `a` and `b`
/// (reduced into `[0, q)`) is the coefficient-wise product modulo `q` of
/// their transforms.
pub proof fn lemma_forward_of_product(params: RingParams, tables: NTTprecaculated, a: Seq<u64>, b: Seq<u64>)
    requires
        transform_ready(params, tables),
        a.len() >= params.n,
        b.len() >= params.n,
    ensures
        spec_forward_ntt(words(negacyclic_mul(a, b, params.n as nat, params.q as int)), params.n as nat, tables.twiddles@, params.q as int)
            == pointwise_words(
            spec_forward_ntt(a, params.n as nat, tables.twiddles@, params.q as int),
            spec_forward_ntt(b, params.n as nat, tables.twiddles@, params.q as int),
            params.n as nat,
            params.q as int,
        ),
        all_below(words(negacyclic_mul(a, b, params.n as nat, params.q as int)), params.q as int),
        words(negacyclic_mul(a, b, params.n as nat, params.q as int)).len() == params.n,
{
    let n = params.n as nat;
    let q = params.q as int;
    let psi = params.omega as int;
    let tw = tables.twiddles@;
    let l = lemma_log2_of(n);
    // omega^n = -1 as a power
    assert(pow(psi, n) % q == q - 1);
    let nc = negacyclic_mul(a, b, n, q);
    let ab = words(nc);
    assert forall|k: int| 0 <= k < n implies 0 <= #[trigger] nc[k] < q by {
        lemma_mod_bound(conv(a, b, n, k) - conv(a, b, n, k + n), q);
    }
    assert(ab =~= Seq::new(n, |k: int| nc[k] as u64));
    assert(all_below(ab, q));
    lemma_forward_evaluates(a, psi, q, l);
    lemma_forward_evaluates(b, psi, q, l);
    lemma_forward_evaluates(ab, psi, q, l);
    let fa = spec_forward_ntt(a, n, tw, q);
    let fb = spec_forward_ntt(b, n, tw, q);
    let fab = spec_forward_ntt(ab, n, tw, q);
    lemma_forward_ntt_reduced(ab, n, tw, q);
    let pw = pointwise_words(fa, fb, n, q);
    assert forall|k: int| 0 <= k < n implies #[trigger] pw[k] == fab[k] by {
        let x = block_root(tw, l, k);
        assert((fa[k] as int) % q == psum(a, 0, 1, x, n) % q);
        assert((fb[k] as int) % q == psum(b, 0, 1, x, n) % q);
        assert((fab[k] as int) % q == psum(ab, 0, 1, x, n) % q);
        assert(pow(x, n) % q == (-1int) % q);
        lemma_product_coeff(a, b, ab, n, q, x, fa[k] as int, fb[k] as int, fab[k] as int);
    }
    assert(pw =~= fab);
}

/// The product by transforms is the product of Z_q[X]/(X^n + 1). For `n`
/// a power of two (at least 2), twiddle tables as `precalculate` builds
/// them from `omega` with `omega^n = -1`, `omega` and `omega^(q-2)` inverse
/// to each other and `n` and `n^(q-2)` inverse to each other modulo `q`
/// (all of which hold when `q` is a prime and `omega` a primitive `2n`-th
/// root of unity), the product by transforms of any two polynomials is
/// their negacyclic product, coefficients reduced into `[0, q)`.
pub proof fn lemma_mul_ntt_is_negacyclic_product(
    params: RingParams,
    tables: NTTprecaculated,
    a: Seq<u64>,
    b: Seq<u64>,
)
    requires
        transform_ready(params, tables),
        a.len() >= params.n,
        b.len() >= params.n,
    ensures
        as_ints(spec_mul_ntt(a, b, params.n as nat, tables, params.q as int)) == negacyclic_mul(
            a,
            b,
            params.n as nat,
            params.q as int,
        ),
{
    let nc = negacyclic_mul(a, b, params.n as nat, params.q as int);
    lemma_forward_of_product(params, tables, a, b);
    lemma_inverse_ntt_inverts_forward_ntt(params, tables, words(nc));
    assert forall|k: int| 0 <= k < params.n implies 0 <= #[trigger] nc[k] < params.q by {
        lemma_mod_bound(conv(a, b, params.n as nat, k) - conv(a, b, params.n as nat, k + params.n), params.q as int);
    }
    assert(as_ints(words(nc)) =~= nc);
}

/// The ring product commutes with a second factor: `(a s) u == (a u) s`,
/// products taken in Z_q[X]/(X^n + 1) with coefficients in `[0, q)`.
pub proof fn lemma_negacyclic_swap(params: RingParams, tables: NTTprecaculated, a: Seq<u64>, s: Seq<u64>, u: Seq<u64>)
    requires
        transform_ready(params, tables),
        a.len() >= params.n,
        s.len() >= params.n,
        u.len() >= params.n,
    ensures
        negacyclic_mul(words(negacyclic_mul(a, s, params.n as nat, params.q as int)), u, params.n as nat, params.q as int)
            == negacyclic_mul(words(negacyclic_mul(a, u, params.n as nat, params.q as int)), s, params.n as nat, params.q as int),
{
    let n = params.n as nat;
    let q = params.q as int;
    let tw = tables.twiddles@;
    let x = words(negacyclic_mul(a, s, n, q));
    let y = words(negacyclic_mul(a, u, n, q));
    lemma_forward_of_product(params, tables, a, s);
    lemma_forward_of_product(params, tables, a, u);
    lemma_forward_of_product(params, tables, x, u);
    lemma_forward_of_product(params, tables, y, s);
    let fa = spec_forward_ntt(a, n, tw, q);
    let fs = spec_forward_ntt(s, n, tw, q);
    let fu = spec_forward_ntt(u, n, tw, q);
    let xu = words(negacyclic_mul(x, u, n, q));
    let ys = words(negacyclic_mul(y, s, n, q));
    let fxu = spec_forward_ntt(xu, n, tw, q);
    let fys = spec_forward_ntt(ys, n, tw, q);
    assert forall|k: int| 0 <= k < n implies #[trigger] fxu[k] == fys[k] by {
        let va = fa[k] as int;
        let vs = fs[k] as int;
        let vu = fu[k] as int;
        lemma_mod_bound(va * vs, q);
        lemma_mod_bound(va * vu, q);
        assert(fxu[k] as int == (((va * vs) % q) * vu) % q);
        assert(fys[k] as int == (((va * vu) % q) * vs) % q);
        lemma_mul_mod_noop_left(va * vs, vu, q);
        lemma_mul_mod_noop_left(va * vu, vs, q);
        assert(va * vs * vu == va * vu * vs) by (nonlinear_arith);
        lemma_mod_bound((va * vs) * vu, q);
    }
    assert(fxu =~= fys);
    lemma_inverse_ntt_inverts_forward_ntt(params, tables, xu);
    lemma_inverse_ntt_inverts_forward_ntt(params, tables, ys);
    let nxu = negacyclic_mul(x, u, n, q);
    let nys = negacyclic_mul(y, s, n, q);
    assert forall|k: int| 0 <= k < n implies #[trigger] nxu[k] == nys[k] by {
        lemma_mod_bound(conv(x, u, n, k) - conv(x, u, n, k + n), q);
        lemma_mod_bound(conv(y, s, n, k) - conv(y, s, n, k + n), q);
        assert(xu[k] == ys[k]);
    }
    assert(nxu =~= nys);
}

/// The ring product is commutative: `x y == y x` in Z_q[X]/(X^n + 1)
/// (coefficients in `[0, q)`).
pub proof fn lemma_negacyclic_commutes(params: RingParams, tables: NTTprecaculated, x: Seq<u64>, y: Seq<u64>)
    requires
        transform_ready(params, tables),
        x.len() >= params.n,
        y.len() >= params.n,
    ensures
        negacyclic_mul(x, y, params.n as nat, params.q as int) == negacyclic_mul(y, x, params.n as nat, params.q as int),
{
    let n = params.n as nat;
    let q = params.q as int;
    let tw = tables.twiddles@;
    lemma_forward_of_product(params, tables, x, y);
    lemma_forward_of_product(params, tables, y, x);
    let xy = words(negacyclic_mul(x, y, n, q));
    let yx = words(negacyclic_mul(y, x, n, q));
    let fx = spec_forward_ntt(x, n, tw, q);
    let fy = spec_forward_ntt(y, n, tw, q);
    assert(pointwise_words(fx, fy, n, q) =~= pointwise_words(fy, fx, n, q)) by {
        assert forall|k: int| 0 <= k < n implies #[trigger] pointwise_words(fx, fy, n, q)[k] == pointwise_words(fy, fx, n, q)[k] by {
            lemma_mul_is_commutative(fx[k] as int, fy[k] as int);
        }
    }
    lemma_inverse_ntt_inverts_forward_ntt(params, tables, xy);
    lemma_inverse_ntt_inverts_forward_ntt(params, tables, yx);
    let a = negacyclic_mul(x, y, n, q);
    let b = negacyclic_mul(y, x, n, q);
    assert forall|k: int| 0 <= k < n implies #[trigger] a[k] == b[k] by {
        lemma_mod_bound(conv(x, y, n, k) - conv(x, y, n, k + n), q);
        lemma_mod_bound(conv(y, x, n, k) - conv(y, x, n, k + n), q);
        assert(xy[k] == yx[k]);
    }
    assert(a =~= b);
}


/// A residue `a >= 0` that a prime `q` does not divide, times its power
/// `q - 2`, is `1` modulo `q` (Fermat's little theorem).
proof fn lemma_prime_power_inverts(a: int, q: int)
    requires
        spec_is_prime(q),
        a >= 0,
        a % q != 0,
    ensures
        (a * spec_mod_pow(a, (q - 2) as nat, q)) % q == 1,
{
    let e = (q - 2) as nat;
    lemma_mul_mod_noop_right(a, pow(a, e), q);
    lemma_pow_adds(a, 1, e);
    lemma_pow1(a);
    assert(pow(a, (q - 1) as nat) == a * pow(a, e));
    lemma_fermat(a, q);
}

/// Prime moduli are NTT-friendly: for a prime `q > 2`, a power-of-two `n`
/// and a root `omega` with `omega^n = -1 (mod q)` (as `find_valid_omega`
/// returns it), `omega` and `n` are each inverted by their power `q - 2`,
/// so `ntt_friendly` holds.
pub proof fn lemma_prime_is_ntt_friendly(params: RingParams)
    requires
        spec_is_prime(params.q as int),
        params.q > 2,
        is_power_of_two(params.n as int),
        spec_mod_pow(params.omega as int, params.n as nat, params.q as int) == params.q - 1,
    ensures
        ntt_friendly(params),
{
    let q = params.q as int;
    let w = params.omega as int;
    let n = params.n as int;
    let l = choose|l: nat| pow2(l) == n;
    lemma_odd_prime_not_dividing_pow2(q, l);
    assert(n % q != 0);
    assert(n >= 1) by {
        lemma_pow2_pos(l);
    }
    assert(w % q != 0) by {
        if w % q == 0 {
            lemma_pow_mod_noop(w, params.n as nat, q);
            lemma0_pow(params.n as nat);
            lemma_small_mod(0, q as nat);
        }
    }
    lemma_prime_power_inverts(w, q);
    lemma_prime_power_inverts(n, q);
}

/// Prime moduli make the transform ready: for a prime `q > 2`, a
/// power-of-two `n >= 2`, a root `omega` with `omega^n = -1 (mod q)` and the
/// tables `precalculate` builds, `transform_ready` holds, so the inverse
/// transform undoes the forward one and the product by transforms is the
/// ring product.
pub proof fn lemma_prime_transform_ready(params: RingParams, tables: NTTprecaculated)
    requires
        spec_is_prime(params.q as int),
        params.q > 2,
        params.n >= 2,
        is_power_of_two(params.n as int),
        spec_mod_pow(params.omega as int, params.n as nat, params.q as int) == params.q - 1,
        tables.twiddles@ == twiddle_table(
            params.omega as int,
            params.q as int,
            params.n as nat,
            u64_trailing_zeros(params.n as u64) as nat,
        ),
        tables.twiddles_inv@ == twiddle_table(
            spec_mod_pow(params.omega as int, (params.q - 2) as nat, params.q as int),
            params.q as int,
            params.n as nat,
            u64_trailing_zeros(params.n as u64) as nat,
        ),
    ensures
        transform_ready(params, tables),
{
    lemma_prime_is_ntt_friendly(params);
}

/// For a prime modulus `q > 2` with the root `find_valid_omega` returns and
/// the tables of `precalculate`, the product by transforms of two
/// polynomials is their product in Z_q[X]/(X^n + 1).
pub proof fn lemma_prime_mul_ntt_is_negacyclic_product(
    params: RingParams,
    tables: NTTprecaculated,
    a: Seq<u64>,
    b: Seq<u64>,
)
    requires
        spec_is_prime(params.q as int),
        params.q > 2,
        params.n >= 2,
        is_power_of_two(params.n as int),
        spec_mod_pow(params.omega as int, params.n as nat, params.q as int) == params.q - 1,
        tables.twiddles@ == twiddle_table(
            params.omega as int,
            params.q as int,
            params.n as nat,
            u64_trailing_zeros(params.n as u64) as nat,
        ),
        tables.twiddles_inv@ == twiddle_table(
            spec_mod_pow(params.omega as int, (params.q - 2) as nat, params.q as int),
            params.q as int,
            params.n as nat,
            u64_trailing_zeros(params.n as u64) as nat,
        ),
        a.len() >= params.n,
        b.len() >= params.n,
    ensures
        as_ints(spec_mul_ntt(a, b, params.n as nat, tables, params.q as int)) == negacyclic_mul(
            a,
            b,
            params.n as nat,
            params.q as int,
        ),
{
    lemma_prime_transform_ready(params, tables);
    lemma_mul_ntt_is_negacyclic_product(params, tables, a, b);
}

/// For a prime modulus `q > 2` with the root `find_valid_omega` returns and
/// the tables of `precalculate`, the inverse transform undoes the forward
/// transform on every polynomial of `n` coefficients below `q`.
pub proof fn lemma_prime_inverse_ntt_inverts_forward_ntt(
    params: RingParams,
    tables: NTTprecaculated,
    a: Seq<u64>,
)
    requires
        spec_is_prime(params.q as int),
        params.q > 2,
        params.n >= 2,
        is_power_of_two(params.n as int),
        spec_mod_pow(params.omega as int, params.n as nat, params.q as int) == params.q - 1,
        tables.twiddles@ == twiddle_table(
            params.omega as int,
            params.q as int,
            params.n as nat,
            u64_trailing_zeros(params.n as u64) as nat,
        ),
        tables.twiddles_inv@ == twiddle_table(
            spec_mod_pow(params.omega as int, (params.q - 2) as nat, params.q as int),
            params.q as int,
            params.n as nat,
            u64_trailing_zeros(params.n as u64) as nat,
        ),
        a.len() == params.n,
        all_below(a, params.q as int),
    ensures
        spec_inverse_ntt(
            spec_forward_ntt(a, params.n as nat, tables.twiddles@, params.q as int),
            params.n as nat,
            tables.twiddles_inv@,
            params.q as int,
        ) == a,
{
    lemma_prime_is_ntt_friendly(params);
    lemma_inverse_ntt_inverts_forward_ntt(params, tables, a);
}

} // verus!
