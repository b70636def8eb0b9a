//! Search for an NTT-friendly ciphertext modulus.

use vstd::prelude::*;

use crate::modular::{is_prime, spec_is_prime, trial_division_in_range};

verus! {

/// The first candidate of `find_valid_q`: the smallest number that is
/// `1 mod 2n` and exceeds the largest multiple of `2n` not above
/// `min_delta * t`.
pub open spec fn first_q_candidate(n: int, t: int, min_delta: int) -> int {
    ((min_delta * t) / (2 * n) + 1) * (2 * n) + 1
}

/// Candidate `j` of `find_valid_q`.
pub open spec fn q_candidate(n: int, t: int, min_delta: int, j: int) -> int {
    first_q_candidate(n, t, min_delta) + j * (2 * n)
}

/// Among the candidates up to `j`, the first prime is candidate `j`, and all
/// of them fit 64-bit words and can be tested by trial division.
pub open spec fn first_prime_candidate(n: int, t: int, min_delta: int, j: nat) -> bool {
    &&& spec_is_prime(q_candidate(n, t, min_delta, j as int))
    &&& q_candidate(n, t, min_delta, j as int) <= u64::MAX
    &&& forall|i: int| 0 <= i < j ==> !spec_is_prime(#[trigger] q_candidate(n, t, min_delta, i))
    &&& forall|i: int|
        0 <= i <= j ==> trial_division_in_range(#[trigger] q_candidate(n, t, min_delta, i))
}

/// Returns the first prime among `c, c + 2n, c + 4n, ...` where
/// `c = (floor(min_delta * t / 2n) + 1) * 2n + 1`: a prime `q ≡ 1 (mod 2n)`
/// with `q > min_delta * t`.
pub fn find_valid_q(n: usize, t: u64, min_delta: u64) -> (q: u64)
    requires
        n > 0,
        2 * n <= u64::MAX,
        min_delta * t <= u64::MAX,
        exists|j: nat| #[trigger] first_prime_candidate(n as int, t as int, min_delta as int, j),
    ensures
        exists|j: nat|
            #[trigger] first_prime_candidate(n as int, t as int, min_delta as int, j) && q
                == q_candidate(n as int, t as int, min_delta as int, j as int),
{
    let modulus = 2 * n as u64;
    let min_q = min_delta * t;
    let ghost jstar = choose|j: nat| #[trigger] first_prime_candidate(n as int, t as int, min_delta as int, j);
    proof {
        assert(q_candidate(n as int, t as int, min_delta as int, 0) <= u64::MAX) by {
            assert(q_candidate(n as int, t as int, min_delta as int, jstar as int)
                >= q_candidate(n as int, t as int, min_delta as int, 0)) by (nonlinear_arith)
                requires
                    n > 0,
                    jstar >= 0,
            ;
        }
    }
    assert(((min_q / modulus) + 1) * modulus + 1 == q_candidate(
        n as int,
        t as int,
        min_delta as int,
        0,
    ));
    assert(min_q / modulus < u64::MAX) by (nonlinear_arith)
        requires
            modulus >= 2,
            min_q <= u64::MAX,
    ;
    let k = (min_q / modulus) + 1;
    assert(k * modulus + 1 <= u64::MAX);
    let base = k * modulus;
    let mut candidate = base + 1;
    let ghost mut j: nat = 0;
    loop
        invariant
            modulus == 2 * n,
            n > 0,
            first_prime_candidate(n as int, t as int, min_delta as int, jstar),
            j <= jstar,
            candidate == q_candidate(n as int, t as int, min_delta as int, j as int),
        decreases jstar - j,
    {
        if is_prime(candidate) {
            proof {
                if j < jstar {
                    assert(!spec_is_prime(q_candidate(n as int, t as int, min_delta as int, j as int)));
                }
            }
            return candidate;
        }
        proof {
            if j == jstar {
                assert(false);
            }
            assert(q_candidate(n as int, t as int, min_delta as int, (j + 1) as int) <= q_candidate(
                n as int,
                t as int,
                min_delta as int,
                jstar as int,
            )) by (nonlinear_arith)
                requires
                    n > 0,
                    j + 1 <= jstar,
            ;
            assert(q_candidate(n as int, t as int, min_delta as int, (j + 1) as int) == candidate
                + modulus) by (nonlinear_arith)
                requires
                    candidate == q_candidate(n as int, t as int, min_delta as int, j as int),
                    modulus == 2 * n,
            ;
        }
        candidate = candidate + modulus;
        proof {
            j = j + 1;
        }
    }
}

} // verus!
