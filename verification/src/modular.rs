//! Modular exponentiation, primality and the search for NTT-friendly roots.

use vstd::arithmetic::div_mod::*;
use vstd::arithmetic::mul::*;
use vstd::arithmetic::power::*;
use vstd::prelude::*;

verus! {

/// `base^exp mod modulus`.
pub open spec fn spec_mod_pow(base: int, exp: nat, modulus: int) -> int {
    pow(base, exp) % modulus
}

/// One square-and-multiply step keeps `result * base^exp` unchanged modulo `m`.
proof fn lemma_mod_pow_step(result: int, b: int, e: nat, m: int)
    requires
        m > 0,
        e > 0,
    ensures
        (if e % 2 == 1 { (result * b) % m } else { result }) * pow((b * b) % m, e / 2) % m
            == (result * pow(b, e)) % m,
{
    let e2 = e / 2;
    let bb = (b * b) % m;
    assert(pow(bb, e2) % m == pow(b * b, e2) % m) by {
        lemma_pow_mod_noop(b * b, e2, m);
    }
    assert(pow(b * b, e2) == pow(b, 2 * e2)) by {
        lemma_square_is_pow2(b);
        lemma_pow_multiplies(b, 2, e2);
        reveal(pow);
        assert(pow(b, 2) == b * pow(b, 1));
        assert(pow(b, 1) == b * pow(b, 0));
    }
    if e % 2 == 1 {
        assert(pow(b, e) == pow(b, 2 * e2) * pow(b, 1)) by {
            lemma_pow_adds(b, 2 * e2, 1);
        }
        assert(pow(b, 1) == b) by {
            lemma_pow1(b);
        }
        let r2 = (result * b) % m;
        // (r2 * pow(bb, e2)) % m == ((result*b) * pow(b, 2*e2)) % m
        assert((r2 * pow(bb, e2)) % m == ((result * b) * pow(b * b, e2)) % m) by {
            lemma_mul_mod_noop_general(result * b, pow(bb, e2), m);
            lemma_mul_mod_noop_general(result * b, pow(b * b, e2), m);
        }
        assert((result * b) * pow(b, 2 * e2) == result * (pow(b, 2 * e2) * b)) by {
            lemma_mul_is_associative(result, b, pow(b, 2 * e2));
            lemma_mul_is_commutative(b, pow(b, 2 * e2));
        }
    } else {
        assert(e == 2 * e2);
        assert((result * pow(bb, e2)) % m == (result * pow(b * b, e2)) % m) by {
            lemma_mul_mod_noop_general(result, pow(bb, e2), m);
            lemma_mul_mod_noop_general(result, pow(b * b, e2), m);
        }
    }
}

/// Computes `base^exp mod modulus` by square-and-multiply in 128-bit arithmetic.
pub fn mod_pow(base: u128, exp: u128, modulus: u128) -> (result: u128)
    requires
        0 < modulus <= 0x1_0000_0000_0000_0000,
    ensures
        result == spec_mod_pow(base as int, exp as nat, modulus as int),
        result < modulus,
{
    let ghost m = modulus as int;
    let ghost target = pow(base as int, exp as nat) % m;
    let mut base = base;
    let mut exp = exp;
    let mut result = 1u128 % modulus;
    proof {
        lemma_pow_mod_noop(base as int, exp as nat, m);
        lemma_mul_mod_noop_left(1, pow(base as int % m, exp as nat), m);
        lemma_mul_basics(pow(base as int % m, exp as nat));
    }
    base = base % modulus;
    while exp > 0
        invariant
            0 < m <= 0x1_0000_0000_0000_0000,
            m == modulus,
            base < modulus,
            result < modulus,
            (result * pow(base as int, exp as nat)) % m == target,
        decreases exp,
    {
        proof {
            lemma_mod_pow_step(result as int, base as int, exp as nat, m);
            assert(exp & 1 == exp % 2) by (bit_vector);
            assert(exp >> 1 == exp / 2) by (bit_vector);
            lemma_mul_upper_bound(base as int, m - 1, base as int, m - 1);
            lemma_mul_upper_bound(m - 1, 0xFFFF_FFFF_FFFF_FFFF, m - 1, 0xFFFF_FFFF_FFFF_FFFF);
        }
        if exp & 1 == 1 {
            proof {
                lemma_mul_upper_bound(
                    result as int,
                    0xFFFF_FFFF_FFFF_FFFF,
                    base as int,
                    0xFFFF_FFFF_FFFF_FFFF,
                );
            }
            result = (result * base) % modulus;
        }
        base = (base * base) % modulus;
        exp = exp >> 1;
    }
    proof {
        lemma_pow0(base as int);
        assert(result * pow(base as int, 0) == result);
        lemma_small_mod(result as nat, m as nat);
    }
    result
}

/// `n` is prime: at least 2 and without a divisor strictly between 1 and `n`.
pub open spec fn spec_is_prime(n: int) -> bool {
    n >= 2 && forall|d: int| 2 <= d < n ==> #[trigger] (n % d) != 0
}

/// The trial division of `is_prime` squares its odd trial divisor in 64 bits;
/// it stays in range unless `n` is at least `(2^32 - 1)^2` and has no divisor
/// up to `2^32 - 1`.
pub open spec fn trial_division_in_range(n: int) -> bool {
    n < 0xFFFF_FFFE_0000_0001 || exists|d: int| 2 <= d <= 0xFFFF_FFFF && #[trigger] (n % d) == 0
}

/// A composite number has a divisor whose square does not exceed it.
proof fn lemma_small_divisor(n: int, d: int)
    requires
        2 <= d < n,
        n % d == 0,
    ensures
        exists|e: int| 2 <= e < n && #[trigger] (n % e) == 0 && e * e <= n,
{
    let k = n / d;
    lemma_fundamental_div_mod(n, d);
    assert(n == d * k);
    if k <= 1 {
        lemma_mul_upper_bound(d, d, k, 1);
        assert(false);
    }
    assert(k >= 2);
    if d * d <= n {
        assert(2 <= d < n && n % d == 0 && d * d <= n);
    } else {
        // then k < d, so k * k <= k * d = n
        if k >= d {
            lemma_mul_inequality(d, k, d);
            assert(false);
        }
        lemma_mul_inequality(k, d, k);
        lemma_mul_is_commutative(k, d);
        assert(k * k <= n);
        assert(n % k == 0) by {
            lemma_mul_is_commutative(d, k);
            lemma_mod_multiples_basic(d, k);
        }
        assert(k < n) by {
            lemma_mul_strict_inequality(1, d, k);
        }
        assert(2 <= k < n && n % k == 0 && k * k <= n);
    }
}

/// Returns whether `n` is prime, by trial division with odd divisors.
pub fn is_prime(n: u64) -> (result: bool)
    requires
        trial_division_in_range(n as int),
    ensures
        result == spec_is_prime(n as int),
{
    if n < 2 {
        return false;
    }
    if n == 2 {
        assert forall|d: int| 2 <= d < n implies #[trigger] ((n as int) % d) != 0 by {}
        return true;
    }
    if n % 2 == 0 {
        return false;
    }
    let mut i = 3u64;
    loop
        invariant
            3 <= i,
            i % 2 == 1,
            n % 2 == 1,
            n > 2,
            trial_division_in_range(n as int),
            (i - 2) * (i - 2) <= n,
            forall|d: int| 2 <= d < i ==> #[trigger] ((n as int) % d) != 0,
        ensures
            i * i > n,
        decreases n - i,
    {
        proof {
            if i > 0xFFFF_FFFF {
                lemma_mul_inequality(0xFFFF_FFFF, (i - 2) as int, 0xFFFF_FFFF);
                lemma_mul_inequality(0xFFFF_FFFF, (i - 2) as int, (i - 2) as int);
                assert(n >= 0xFFFF_FFFE_0000_0001);
                let d = choose|d: int| 2 <= d <= 0xFFFF_FFFF && #[trigger] ((n as int) % d) == 0;
                assert((n as int) % d != 0);
            }
            lemma_mul_upper_bound(i as int, 0xFFFF_FFFF, i as int, 0xFFFF_FFFF);
        }
        if i * i > n {
            break;
        }
        if n % i == 0 {
            assert(!spec_is_prime(n as int)) by {
                assert((n as int) % (i as int) == 0);
                lemma_mul_inequality(3, i as int, i as int);
                assert(i < n);
            }
            return false;
        }
        proof {
            // i + 1 is even and cannot divide the odd n
            assert((n as int) % (i + 1) != 0) by {
                let e = i + 1;
                if (n as int) % e == 0 {
                    lemma_fundamental_div_mod(n as int, e as int);
                    let k = (n as int) / e;
                    assert(n == e * k);
                    assert(e == 2 * (e / 2));
                    lemma_mul_is_associative(2, e / 2, k);
                    lemma_mod_multiples_basic((e / 2) * k, 2);
                    lemma_mul_is_commutative(2, (e / 2) * k);
                    assert(false);
                }
            }
            assert(i * i <= n);
            lemma_mul_inequality(3, i as int, i as int);
            assert((i + 2 - 2) * (i + 2 - 2) <= n);
            assert(i <= n) by {
                lemma_mul_inequality(1, i as int, i as int);
            }
        }
        i = i + 2;
    }
    proof {
        assert(i * i > n);
        assert forall|d: int| 2 <= d < n implies #[trigger] ((n as int) % d) != 0 by {
            if (n as int) % d == 0 {
                lemma_small_divisor(n as int, d);
                let e = choose|e: int| 2 <= e < n && #[trigger] ((n as int) % e) == 0 && e * e <= n;
                if e >= i {
                    lemma_mul_inequality(i as int, e, i as int);
                    lemma_mul_inequality(i as int, e, e);
                    assert(false);
                }
            }
        }
    }
    true
}

/// `q` is a valid NTT modulus for rings of degree `n`: a prime with `2n | q - 1`.
pub open spec fn spec_is_q_valid(n: int, q: int) -> bool {
    n > 0 && spec_is_prime(q) && (q - 1) % (2 * n) == 0
}

/// Checks that `q` is prime and that `q ≡ 1 (mod 2n)`, so that Z_q holds a
/// primitive `2n`-th root of unity.
pub fn is_q_valid(n: usize, q: u64) -> (result: bool)
    requires
        n == 0 || q < 2 || (trial_division_in_range(q as int) && (spec_is_prime(q as int) ==> 2
            * n <= u64::MAX)),
    ensures
        result == spec_is_q_valid(n as int, q as int),
        result <==> (n > 0 && spec_is_prime(q as int) && exists|k: int|
            #[trigger] crate::fermat::one_past_multiple(q as int, 2 * n, k)),
{
    proof {
        crate::fermat::lemma_q_valid_iff(n as int, q as int);
    }
    if n == 0 || q < 2 {
        return false;
    }
    if !is_prime(q) {
        return false;
    }
    let two_n = 2 * n as u64;
    (q - 1) % two_n == 0
}

/// The candidate root obtained from `candidate`: `candidate^((q-1)/(2n)) mod q`.
pub open spec fn omega_candidate(candidate: int, n: int, q: int) -> int {
    spec_mod_pow(candidate, ((q - 1) / (2 * n)) as nat, q)
}

/// `candidate` yields a root whose `n`-th power is `-1` modulo `q`.
pub open spec fn is_omega_generator(candidate: int, n: int, q: int) -> bool {
    spec_mod_pow(omega_candidate(candidate, n, q), n as nat, q) == q - 1
}

/// `omega` is the root given by the least candidate in `[2, q)` that is a
/// generator in the sense of `is_omega_generator`.
pub open spec fn is_first_omega(omega: int, n: int, q: int) -> bool {
    exists|c: int|
        2 <= c < q && #[trigger] is_omega_generator(c, n, q) && omega == omega_candidate(c, n, q)
            && forall|d: int| 2 <= d < c ==> !#[trigger] is_omega_generator(d, n, q)
}

/// Squaring the power: from `b^e mod q` to `b^(2e) mod q`.
proof fn lemma_pow_square_mod(b: int, e: nat, q: int, r: int)
    requires
        q > 0,
        pow(b, e) % q == r,
    ensures
        pow(b, 2 * e) % q == (r * r) % q,
{
    lemma_pow_adds(b, e, e);
    assert(e + e == 2 * e);
    lemma_mul_mod_noop_general(pow(b, e), pow(b, e), q);
}

/// `11` is a generator for the modulus `12289` in degrees `256` and `1024`:
/// `11^24 = 3400` and `11^6 = 1945` modulo `12289`, and `3400^256` and
/// `1945^1024` are both `-1` modulo `12289`.
pub proof fn lemma_eleven_generates_12289()
    ensures
        omega_candidate(11, 256, 12289) == 3400,
        omega_candidate(11, 1024, 12289) == 1945,
        is_omega_generator(11, 256, 12289),
        is_omega_generator(11, 1024, 12289),
{
    let q = 12289int;
    assert(pow(11, 3) == 1331) by {
        reveal_with_fuel(pow, 4);
    }
    assert(1331int % q == 1331);
    lemma_pow_square_mod(11, 3, q, 1331);
    assert((1331int * 1331) % q == 1945);
    lemma_pow_square_mod(11, 6, q, 1945);
    assert((1945int * 1945) % q == 10302);
    lemma_pow_square_mod(11, 12, q, 10302);
    assert((10302int * 10302) % q == 3400);
    assert((q - 1) / (2 * 256int) == 24);
    assert((q - 1) / (2 * 1024int) == 6);
    assert(omega_candidate(11, 256, q) == 3400);
    assert(omega_candidate(11, 1024, q) == 1945);
    lemma_pow1(3400);
    lemma_pow_square_mod(3400, 1, q, 3400);
    assert((3400int * 3400) % q == 8340);
    lemma_pow_square_mod(3400, 2, q, 8340);
    assert((8340int * 8340) % q == 12149);
    lemma_pow_square_mod(3400, 4, q, 12149);
    assert((12149int * 12149) % q == 7311);
    lemma_pow_square_mod(3400, 8, q, 7311);
    assert((7311int * 7311) % q == 5860);
    lemma_pow_square_mod(3400, 16, q, 5860);
    assert((5860int * 5860) % q == 4134);
    lemma_pow_square_mod(3400, 32, q, 4134);
    assert((4134int * 4134) % q == 8246);
    lemma_pow_square_mod(3400, 64, q, 8246);
    assert((8246int * 8246) % q == 1479);
    lemma_pow_square_mod(3400, 128, q, 1479);
    assert((1479int * 1479) % q == 12288);
    assert(is_omega_generator(11, 256, q));
    lemma_pow1(1945);
    lemma_pow_square_mod(1945, 1, q, 1945);
    lemma_pow_square_mod(1945, 2, q, 10302);
    lemma_pow_square_mod(1945, 4, q, 3400);
    lemma_pow_square_mod(1945, 8, q, 8340);
    lemma_pow_square_mod(1945, 16, q, 12149);
    lemma_pow_square_mod(1945, 32, q, 7311);
    lemma_pow_square_mod(1945, 64, q, 5860);
    lemma_pow_square_mod(1945, 128, q, 4134);
    lemma_pow_square_mod(1945, 256, q, 8246);
    lemma_pow_square_mod(1945, 512, q, 1479);
    assert(is_omega_generator(11, 1024, q));
}

/// Searches the candidates `2, 3, ..., q - 1` in order and returns the root
/// `c^((q-1)/(2n)) mod q` of the first candidate `c` whose root raised to the
/// `n` is `q - 1`, i.e. a `2n`-th root of unity `omega` with `omega^n = -1`.
pub fn find_valid_omega(n: usize, q: u64) -> (omega: u64)
    requires
        n > 0,
        2 * n <= usize::MAX,
        exists|c: int| 2 <= c < q && #[trigger] is_omega_generator(c, n as int, q as int),
    ensures
        is_first_omega(omega as int, n as int, q as int),
        spec_mod_pow(omega as int, n as nat, q as int) == q - 1,
{
    let two_n = 2 * n;
    let exp = (q - 1) / two_n as u64;
    let mut candidate = 2u64;
    while candidate < q
        invariant
            2 <= candidate,
            n > 0,
            exp == (q - 1) / (2 * n),
            forall|d: int| 2 <= d < candidate ==> !#[trigger] is_omega_generator(d, n as int, q as int),
            exists|c: int| 2 <= c < q && #[trigger] is_omega_generator(c, n as int, q as int),
        decreases q - candidate,
    {
        let omega = mod_pow(candidate as u128, exp as u128, q as u128) as u64;
        let omega_n = mod_pow(omega as u128, n as u128, q as u128);
        if omega_n == (q as u128 - 1) {
            assert(is_omega_generator(candidate as int, n as int, q as int));
            return omega;
        }
        candidate = candidate + 1;
    }
    proof {
        let c = choose|c: int| 2 <= c < q && #[trigger] is_omega_generator(c, n as int, q as int);
        assert(!is_omega_generator(c, n as int, q as int));
    }
    0
}

} // verus!
