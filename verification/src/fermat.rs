//! Fermat's little theorem: modulo a prime `p`, every `a` that `p` does not
//! divide has `a^(p-1) = 1`, so `a^(p-2)` is the inverse of `a`. Proved from
//! the binomial theorem, `p | C(p, k)` for `0 < k < p`, and Euclid's lemma.
//! With it, what makes a modulus valid for the transform: a prime `q` holds
//! an `omega` with `omega^n = -1` (`n` a power of two) only when
//! `q = 1 (mod 2n)`.

use vstd::arithmetic::div_mod::*;
use vstd::arithmetic::mul::*;
use vstd::arithmetic::power::*;
use vstd::arithmetic::power2::*;
use vstd::prelude::*;

use crate::modular::{spec_is_prime, spec_is_q_valid};

verus! {

/// The binomial coefficient `C(n, k)`, by Pascal's rule.
pub open spec fn binom(n: nat, k: nat) -> nat
    decreases n,
{
    if k == 0 {
        1
    } else if n == 0 {
        0
    } else {
        binom((n - 1) as nat, (k - 1) as nat) + binom((n - 1) as nat, k)
    }
}

proof fn lemma_binom_above(n: nat, k: nat)
    requires
        k > n,
    ensures
        binom(n, k) == 0,
    decreases n,
{
    if n > 0 {
        lemma_binom_above((n - 1) as nat, (k - 1) as nat);
        lemma_binom_above((n - 1) as nat, k);
    }
}

proof fn lemma_binom_diag(n: nat)
    ensures
        binom(n, n) == 1,
    decreases n,
{
    if n > 0 {
        lemma_binom_diag((n - 1) as nat);
        lemma_binom_above((n - 1) as nat, n);
    }
}

proof fn lemma_binom_one(n: nat)
    ensures
        binom(n, 1) == n,
    decreases n,
{
    if n > 0 {
        lemma_binom_one((n - 1) as nat);
        assert(binom(n, 1) == binom((n - 1) as nat, 0) + binom((n - 1) as nat, 1));
    }
}

/// Absorption: `k C(n, k) = n C(n - 1, k - 1)`.
proof fn lemma_binom_absorb(n: nat, k: nat)
    requires
        n >= 1,
        k >= 1,
    ensures
        k * binom(n, k) == n * binom((n - 1) as nat, (k - 1) as nat),
    decreases n,
{
    if k == 1 {
        lemma_binom_one(n);
        assert(binom((n - 1) as nat, 0) == 1);
        assert(1 * binom(n, 1) == n * 1);
    } else if n == 1 {
        lemma_binom_above(1, k);
        lemma_binom_above(0, (k - 1) as nat);
        assert(k * 0 == 1 * 0);
    } else {
        let n1 = (n - 1) as nat;
        let n2 = (n - 2) as nat;
        let k1 = (k - 1) as nat;
        let k2 = (k - 2) as nat;
        lemma_binom_absorb(n1, k);
        lemma_binom_absorb(n1, k1);
        let a = binom(n1, k1);
        let b = binom(n1, k);
        let c = binom(n2, k2);
        let d = binom(n2, k1);
        assert(binom(n, k) == a + b);
        assert(a == c + d);
        assert(k * (a + b) == n * a) by (nonlinear_arith)
            requires
                k * b == n1 * d,
                k1 * a == n1 * c,
                a == c + d,
                k1 == k - 1,
                n1 == n - 1,
        ;
    }
}

/// The greatest common divisor, by Euclid's algorithm.
pub open spec fn gcd(a: nat, b: nat) -> nat
    decreases b,
{
    if b == 0 {
        a
    } else {
        proof {
            lemma_mod_bound(a as int, b as int);
        }
        gcd(b, a % b)
    }
}

/// `gcd(a, b)` divides `a` and `b`: the two quotients.
pub(crate) proof fn lemma_gcd_divides(a: nat, b: nat) -> (k: (int, int))
    ensures
        a == gcd(a, b) * k.0,
        b == gcd(a, b) * k.1,
    decreases b,
{
    if b == 0 {
        (1, 0)
    } else {
        lemma_mod_bound(a as int, b as int);
        let r = a % b;
        let (k1, k2) = lemma_gcd_divides(b, r);
        let g = gcd(b, r);
        lemma_fundamental_div_mod(a as int, b as int);
        let q = a as int / b as int;
        assert(a == g * (k1 * q + k2)) by (nonlinear_arith)
            requires
                b == g * k1,
                r == g * k2,
                a == b * q + r,
        ;
        (k1 * q + k2, k1)
    }
}

/// Bezout: `x a + y b = gcd(a, b)` for some integers `x`, `y`.
proof fn lemma_bezout(a: nat, b: nat) -> (c: (int, int))
    ensures
        c.0 * a + c.1 * b == gcd(a, b),
    decreases b,
{
    if b == 0 {
        (1, 0)
    } else {
        lemma_mod_bound(a as int, b as int);
        let r = a % b;
        let (x, y) = lemma_bezout(b, r);
        lemma_fundamental_div_mod(a as int, b as int);
        let q = a as int / b as int;
        let g = gcd(a, b);
        assert(g == gcd(b, r));
        assert(y * a + (x - y * q) * b == g) by (nonlinear_arith)
            requires
                x * b + y * r == g,
                a == b * q + r,
        ;
        (y, x - y * q)
    }
}

/// Modulo a prime, a residue other than zero has an inverse.
proof fn lemma_inverse_mod_prime(a: int, p: int) -> (x: int)
    requires
        spec_is_prime(p),
        a % p != 0,
    ensures
        (x * a) % p == 1,
{
    lemma_mod_bound(a, p);
    let r = a % p;
    let g = gcd(r as nat, p as nat);
    let (ka, kp) = lemma_gcd_divides(r as nat, p as nat);
    assert(g >= 1) by {
        if g == 0 {
            assert(r == 0 * ka) by (nonlinear_arith)
                requires
                    r == g * ka,
                    g == 0,
            ;
        }
    }
    assert(kp >= 1) by (nonlinear_arith)
        requires
            p == g * kp,
            g >= 1,
            p >= 2,
    ;
    assert(g <= p) by (nonlinear_arith)
        requires
            p == g * kp,
            g >= 1,
            kp >= 1,
    ;
    assert(g == 1) by {
        if g == p {
            assert(false) by (nonlinear_arith)
                requires
                    r == g * ka,
                    g == p,
                    0 < r < p,
            ;
        } else if g >= 2 {
            lemma_mod_multiples_basic(kp, g as int);
            assert(kp * g == p) by (nonlinear_arith)
                requires
                    p == g * kp,
            ;
            assert(p % (g as int) == 0);
            assert(2 <= g < p);
        }
    }
    let (x, y) = lemma_bezout(r as nat, p as nat);
    assert(x * r == p * (-y) + 1) by (nonlinear_arith)
        requires
            x * r + y * p == 1,
    ;
    lemma_mod_multiples_vanish(-y, 1, p);
    lemma_small_mod(1, p as nat);
    lemma_mul_mod_noop_right(x, a, p);
    x
}

/// Euclid's lemma: a prime that divides a product, and not its first
/// factor, divides the second.
pub proof fn lemma_euclid(a: int, b: int, p: int)
    requires
        spec_is_prime(p),
        (a * b) % p == 0,
        a % p != 0,
    ensures
        b % p == 0,
{
    let x = lemma_inverse_mod_prime(a, p);
    lemma_mul_mod_noop_right(x, a * b, p);
    lemma_mul_mod_noop_left(x * a, b, p);
    lemma_mul_is_associative(x, a, b);
    assert(x * 0 == 0);
    lemma_small_mod(0, p as nat);
    assert(1 * b == b);
}

/// A prime `p` divides `C(p, k)` for `0 < k < p`.
proof fn lemma_prime_divides_binom(p: int, k: nat)
    requires
        spec_is_prime(p),
        0 < k < p,
    ensures
        (binom(p as nat, k) as int) % p == 0,
{
    lemma_binom_absorb(p as nat, k);
    let c = binom((p - 1) as nat, (k - 1) as nat);
    lemma_mod_multiples_basic(c as int, p);
    assert(c * p == p * c) by (nonlinear_arith);
    lemma_small_mod(k, p as nat);
    lemma_euclid(k as int, binom(p as nat, k) as int, p);
}

/// `sum_{k <= m} C(n, k) x^k`.
pub open spec fn binom_sum(n: nat, x: int, m: nat) -> int
    decreases m,
{
    if m == 0 {
        1
    } else {
        binom_sum(n, x, (m - 1) as nat) + binom(n, m) * pow(x, m)
    }
}

/// Pascal's rule, summed: the sum for `n + 1` is the sum for `n` plus `x`
/// times the sum for `n` one term shorter.
proof fn lemma_binom_sum_step(n: nat, x: int, m: nat)
    requires
        m >= 1,
    ensures
        binom_sum(n + 1, x, m) == binom_sum(n, x, m) + x * binom_sum(n, x, (m - 1) as nat),
    decreases m,
{
    let m1 = (m - 1) as nat;
    reveal(pow);
    if m == 1 {
        lemma_pow1(x);
        assert(binom(n + 1, 1) == binom(n, 0) + binom(n, 1));
        reveal_with_fuel(binom_sum, 2);
        assert(binom_sum(n, x, 0) == 1);
        assert(binom_sum(n + 1, x, 0) == 1);
        assert(binom_sum(n + 1, x, 1) == 1 + binom(n + 1, 1) * pow(x, 1));
        assert(binom_sum(n, x, 1) == 1 + binom(n, 1) * pow(x, 1));
        assert(binom(n + 1, 1) * pow(x, 1) == binom(n, 1) * pow(x, 1) + x * 1) by (nonlinear_arith)
            requires
                binom(n + 1, 1) == 1 + binom(n, 1),
                pow(x, 1) == x,
        ;
    } else {
        lemma_binom_sum_step(n, x, m1);
        let p1 = pow(x, m1);
        let pm = pow(x, m);
        assert(pm == x * p1);
        assert(binom(n + 1, m) == binom(n, m1) + binom(n, m));
        let s0 = binom_sum(n, x, (m1 - 1) as nat);
        let s1 = binom_sum(n, x, m1);
        assert(s1 == s0 + binom(n, m1) * p1);
        assert(binom_sum(n + 1, x, m1) + binom(n + 1, m) * pm == (s1 + binom(n, m) * pm) + x * s1)
            by (nonlinear_arith)
            requires
                binom_sum(n + 1, x, m1) == s1 + x * s0,
                binom(n + 1, m) == binom(n, m1) + binom(n, m),
                pm == x * p1,
                s1 == s0 + binom(n, m1) * p1,
        ;
    }
}

/// The binomial theorem: `(x + 1)^n = sum_{k <= n} C(n, k) x^k`.
proof fn lemma_binomial_theorem(x: int, n: nat)
    ensures
        pow(x + 1, n) == binom_sum(n, x, n),
    decreases n,
{
    reveal(pow);
    if n > 0 {
        let n1 = (n - 1) as nat;
        lemma_binomial_theorem(x, n1);
        lemma_binom_sum_step(n1, x, n);
        lemma_binom_above(n1, n);
        assert(binom_sum(n1, x, n) == binom_sum(n1, x, n1));
        assert(binom_sum(n, x, n) == (x + 1) * binom_sum(n1, x, n1)) by (nonlinear_arith)
            requires
                binom_sum(n, x, n) == binom_sum(n1, x, n) + x * binom_sum(n1, x, n1),
                binom_sum(n1, x, n) == binom_sum(n1, x, n1),
        ;
    }
}

/// Below `p`, the terms of the binomial sum for a prime `p` vanish modulo `p`
/// but the first.
proof fn lemma_binom_sum_mod_prime(p: int, x: int, m: nat)
    requires
        spec_is_prime(p),
        m < p,
    ensures
        binom_sum(p as nat, x, m) % p == 1,
    decreases m,
{
    if m == 0 {
        lemma_small_mod(1, p as nat);
    } else {
        let m1 = (m - 1) as nat;
        lemma_binom_sum_mod_prime(p, x, m1);
        lemma_prime_divides_binom(p, m);
        let c = binom(p as nat, m) as int;
        lemma_fundamental_div_mod(c, p);
        let k = c / p;
        assert(c * pow(x, m) == p * (k * pow(x, m))) by (nonlinear_arith)
            requires
                c == p * k + c % p,
                c % p == 0,
        ;
        lemma_mod_multiples_vanish(k * pow(x, m), binom_sum(p as nat, x, m1), p);
    }
}

/// The freshman's dream modulo a prime: `(x + 1)^p = x^p + 1 (mod p)`.
proof fn lemma_freshman(p: int, x: int)
    requires
        spec_is_prime(p),
    ensures
        pow(x + 1, p as nat) % p == (pow(x, p as nat) + 1) % p,
{
    let m1 = (p - 1) as nat;
    lemma_binomial_theorem(x, p as nat);
    lemma_binom_sum_mod_prime(p, x, m1);
    lemma_binom_diag(p as nat);
    assert(binom_sum(p as nat, x, p as nat) == binom_sum(p as nat, x, m1) + pow(x, p as nat));
    lemma_add_mod_noop(binom_sum(p as nat, x, m1), pow(x, p as nat), p);
    lemma_add_mod_noop(1, pow(x, p as nat), p);
    lemma_small_mod(1, p as nat);
}

/// `x^p = x (mod p)` for a prime `p` and `x >= 0`.
proof fn lemma_pow_prime_fixes(p: int, x: nat)
    requires
        spec_is_prime(p),
    ensures
        pow(x as int, p as nat) % p == (x as int) % p,
    decreases x,
{
    if x == 0 {
        lemma0_pow(p as nat);
    } else {
        let x1 = (x - 1) as nat;
        lemma_pow_prime_fixes(p, x1);
        lemma_freshman(p, x1 as int);
        lemma_add_mod_noop(pow(x1 as int, p as nat), 1, p);
        lemma_add_mod_noop(x1 as int, 1, p);
    }
}

/// Fermat's little theorem: for a prime `p` and `a >= 0` not divisible by
/// `p`, `a^(p-1) = 1 (mod p)`.
pub proof fn lemma_fermat(a: int, p: int)
    requires
        spec_is_prime(p),
        a >= 0,
        a % p != 0,
    ensures
        pow(a, (p - 1) as nat) % p == 1,
{
    let e = (p - 1) as nat;
    let pe = pow(a, e);
    lemma_pow_prime_fixes(p, a as nat);
    lemma_pow_adds(a, 1, e);
    lemma_pow1(a);
    assert(pow(a, p as nat) == a * pe);
    // a (a^(p-1) - 1) = a^p - a = 0 (mod p)
    lemma_sub_mod_noop(a * pe, a, p);
    lemma_mod_bound(a, p);
    lemma_small_mod(0, p as nat);
    assert(a * (pe - 1) == a * pe - a) by (nonlinear_arith);
    assert((a * (pe - 1)) % p == 0);
    lemma_euclid(a, pe - 1, p);
    lemma_fundamental_div_mod(pe - 1, p);
    let k = (pe - 1) / p;
    lemma_mod_multiples_vanish(k, 1, p);
    lemma_small_mod(1, p as nat);
}

/// An odd prime divides no power of two.
pub proof fn lemma_odd_prime_not_dividing_pow2(q: int, l: nat)
    requires
        spec_is_prime(q),
        q > 2,
    ensures
        (pow2(l) as int) % q != 0,
    decreases l,
{
    lemma2_to64();
    if l == 0 {
        lemma_small_mod(1, q as nat);
    } else {
        let l1 = (l - 1) as nat;
        lemma_odd_prime_not_dividing_pow2(q, l1);
        lemma_pow2_adds(1, l1);
        lemma_small_mod(2, q as nat);
        if (pow2(l) as int) % q == 0 {
            lemma_euclid(2, pow2(l1) as int, q);
        }
    }
}


/// `q = m k + 1`.
pub open spec fn one_past_multiple(q: int, m: int, k: int) -> bool {
    q == m * k + 1
}

/// If `w^b = 1 (mod q)` then `w^(b k) = 1 (mod q)`.
proof fn lemma_pow_one_multiple(w: int, b: nat, k: nat, q: int)
    requires
        q >= 2,
        pow(w, b) % q == 1,
    ensures
        pow(w, b * k) % q == 1,
{
    lemma_pow_multiplies(w, b, k);
    lemma_pow_mod_noop(pow(w, b), k, q);
    lemma1_pow(k);
    lemma_small_mod(1, q as nat);
}

/// If `w^(a + r) = 1` and `w^a = 1` (mod q) then `w^r = 1 (mod q)`.
proof fn lemma_pow_one_rest(w: int, a: nat, r: nat, q: int)
    requires
        q >= 2,
        pow(w, a + r) % q == 1,
        pow(w, a) % q == 1,
    ensures
        pow(w, r) % q == 1,
{
    lemma_pow_adds(w, a, r);
    lemma_mul_mod_noop_general(pow(w, a), pow(w, r), q);
    lemma_mod_twice(pow(w, r), q);
    assert(1 * (pow(w, r) % q) == pow(w, r) % q);
}

/// If `w^a = 1` and `w^b = 1` (mod q) then `w^gcd(a, b) = 1 (mod q)`.
proof fn lemma_pow_one_gcd(w: int, a: nat, b: nat, q: int)
    requires
        q >= 2,
        pow(w, a) % q == 1,
        pow(w, b) % q == 1,
    ensures
        pow(w, gcd(a, b)) % q == 1,
    decreases b,
{
    if b > 0 {
        lemma_mod_bound(a as int, b as int);
        lemma_fundamental_div_mod(a as int, b as int);
        let t = (a as int / b as int) as nat;
        let r = a % b;
        assert(a == b * t + r);
        lemma_pow_one_multiple(w, b, t, q);
        lemma_pow_one_rest(w, b * t, r, q);
        lemma_pow_one_gcd(w, b, r, q);
    }
}

/// An odd divisor of a power of two is `1`.
proof fn lemma_odd_divisor_of_pow2(m: int, c: int, j: nat)
    requires
        m >= 1,
        m % 2 == 1,
        pow2(j) == m * c,
    ensures
        m == 1,
    decreases j,
{
    lemma2_to64();
    if j == 0 {
        assert(m == 1) by (nonlinear_arith)
            requires
                1 == m * c,
                m >= 1,
        ;
    } else {
        let j1 = (j - 1) as nat;
        lemma_pow2_adds(1, j1);
        assert(pow2(j) == 2 * pow2(j1));
        lemma_mul_mod_noop_general(m, c, 2);
        lemma_mod_multiples_basic(pow2(j1) as int, 2);
        assert((m * c) % 2 == 0);
        assert((1 * (c % 2)) % 2 == 0);
        lemma_mod_bound(c, 2);
        lemma_small_mod((c % 2) as nat, 2);
        lemma_fundamental_div_mod(c, 2);
        let c1 = c / 2;
        assert(pow2(j1) == m * c1) by (nonlinear_arith)
            requires
                2 * pow2(j1) == m * c,
                c == 2 * c1 + c % 2,
                c % 2 == 0,
        ;
        lemma_odd_divisor_of_pow2(m, c1, j1);
    }
}

/// A divisor of `2^(l+1)` below it divides `2^l`: returns the quotient.
proof fn lemma_small_divisor_of_pow2(d: int, m: int, l: nat) -> (k: int)
    requires
        d >= 1,
        pow2(l + 1) == d * m,
        d < pow2(l + 1),
    ensures
        pow2(l) == d * k,
        k >= 1,
{
    lemma2_to64();
    lemma_pow2_adds(1, l);
    assert(pow2(l + 1) == 2 * pow2(l));
    lemma_fundamental_div_mod(m, 2);
    lemma_mod_bound(m, 2);
    assert(m >= 1) by (nonlinear_arith)
        requires
            d * m == pow2(l + 1),
            pow2(l + 1) > 0,
            d >= 1,
    {
        lemma_pow2_pos(l + 1);
    }
    if m % 2 == 1 {
        assert(d * m == m * d) by (nonlinear_arith);
        lemma_odd_divisor_of_pow2(m, d, l + 1);
        assert(d * m == d) by (nonlinear_arith)
            requires
                m == 1,
        ;
        assert(false);
    }
    let k = m / 2;
    assert(pow2(l) == d * k) by (nonlinear_arith)
        requires
            2 * pow2(l) == d * m,
            m == 2 * k + m % 2,
            m % 2 == 0,
    ;
    assert(k >= 1);
    k
}

/// Roots of `-1` need a valid modulus: if a prime `q > 2` holds an `omega`
/// with `omega^n = -1 (mod q)`, for `n` a power of two, then `2n` divides
/// `q - 1`, that is `is_q_valid(n, q)`. (The order of `omega` is exactly
/// `2n`, and by Fermat's little theorem it divides `q - 1`.)
pub proof fn lemma_root_of_minus_one_makes_q_valid(n: int, q: int, omega: int)
    requires
        n >= 1,
        crate::ring::is_power_of_two(n),
        spec_is_prime(q),
        q > 2,
        omega >= 0,
        pow(omega, n as nat) % q == q - 1,
    ensures
        spec_is_q_valid(n, q),
        exists|k: int| #[trigger] one_past_multiple(q, 2 * n, k),
{
    lemma2_to64();
    let l = choose|l: nat| pow2(l) == n;
    lemma_pow2_adds(1, l);
    let big_n = 2 * n;
    assert(pow2(l + 1) == big_n);
    // omega is not a multiple of q
    assert(omega % q != 0) by {
        if omega % q == 0 {
            lemma_pow_mod_noop(omega, n as nat, q);
            lemma0_pow(n as nat);
            lemma_small_mod(0, q as nat);
        }
    }
    lemma_fermat(omega, q);
    // omega^(2n) = (omega^n)^2 = 1
    lemma_pow_adds(omega, n as nat, n as nat);
    lemma_mul_mod_noop_general(pow(omega, n as nat), pow(omega, n as nat), q);
    assert((q - 1) * (q - 1) == q * (q - 2) + 1) by (nonlinear_arith);
    lemma_mod_multiples_vanish(q - 2, 1, q);
    lemma_small_mod(1, q as nat);
    assert(pow(omega, big_n as nat) % q == 1);
    // q - 1 = 2n k + r
    lemma_fundamental_div_mod(q - 1, big_n);
    lemma_mod_bound(q - 1, big_n);
    let k = (q - 1) / big_n;
    let r = (q - 1) % big_n;
    assert(k >= 0) by {
        lemma_div_pos_is_pos(q - 1, big_n);
    }
    assert(q - 1 == big_n * k + r);
    lemma_pow_one_multiple(omega, big_n as nat, k as nat, q);
    lemma_pow_one_rest(omega, (big_n * k) as nat, r as nat, q);
    if r > 0 {
        let g = gcd(big_n as nat, r as nat);
        lemma_pow_one_gcd(omega, big_n as nat, r as nat, q);
        let (kn, kr) = lemma_gcd_divides(big_n as nat, r as nat);
        assert(1 <= g <= r) by (nonlinear_arith)
            requires
                r == g * kr,
                r > 0,
                g >= 0,
        ;
        let m = lemma_small_divisor_of_pow2(g as int, kn, l);
        lemma_pow_one_multiple(omega, g, m as nat, q);
        assert(g * (m as nat) == n);
        assert(pow(omega, n as nat) % q == 1);
        assert(false);
    }
    assert(one_past_multiple(q, 2 * n, k));
}

/// A valid modulus for degree `n` is a prime of the form `2 n k + 1`:
/// `is_q_valid(n, q)` holds exactly when `n > 0`, `q` is prime and `q` is
/// one more than a multiple of `2n`.
pub proof fn lemma_q_valid_iff(n: int, q: int)
    ensures
        spec_is_q_valid(n, q) <==> (n > 0 && spec_is_prime(q) && exists|k: int| #[trigger] one_past_multiple(q, 2 * n, k)),
{
    if n > 0 && spec_is_prime(q) {
        if (q - 1) % (2 * n) == 0 {
            lemma_fundamental_div_mod(q - 1, 2 * n);
            let k = (q - 1) / (2 * n);
            assert(one_past_multiple(q, 2 * n, k));
        }
        if exists|k: int| #[trigger] one_past_multiple(q, 2 * n, k) {
            let k = choose|k: int| #[trigger] one_past_multiple(q, 2 * n, k);
            lemma_mod_multiples_basic(k, 2 * n);
            assert(k * (2 * n) == 2 * n * k) by (nonlinear_arith);
        }
    }
}

} // verus!
