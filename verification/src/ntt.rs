//! The negacyclic number theoretic transform of Z_q[X]/(X^n + 1): iterative
//! Cooley-Tukey butterflies forward, Gentleman-Sande butterflies backward,
//! with twiddle factors `psi^bitrev(k)` where `psi` is a `2n`-th root of unity.

use vstd::arithmetic::div_mod::*;
use vstd::arithmetic::mul::*;
use vstd::arithmetic::power::*;
use vstd::arithmetic::power2::*;
use vstd::prelude::*;

use vstd::bits::lemma_u64_shr_is_div;
use vstd::std_specs::bits::{axiom_u64_trailing_zeros, u64_trailing_zeros};

use crate::modular::{mod_pow, spec_mod_pow};
use crate::polys::Polynomial;
use crate::ring::RingParams;

verus! {

/// The number whose `bits` binary digits are the `bits` lowest digits of `k`
/// in reverse order.
pub open spec fn bitrev(k: nat, bits: nat) -> nat
    decreases bits,
{
    if bits == 0 {
        0
    } else {
        (k % 2) * pow2((bits - 1) as nat) + bitrev(k / 2, (bits - 1) as nat)
    }
}

/// Twiddle table: entry `k` is `root^bitrev(k, log_n) mod q`.
pub open spec fn twiddle_table(root: int, q: int, n: nat, log_n: nat) -> Seq<u128> {
    Seq::new(n, |k: int| spec_mod_pow(root, bitrev(k as nat, log_n), q) as u128)
}

/// Upper output of a forward butterfly: `u + (b * w mod q)`, less `q` once if
/// it reaches `q`.
pub open spec fn fwd_hi(u: int, b: int, w: int, q: int) -> int {
    let v = (b * w) % q;
    if u + v >= q {
        u + v - q
    } else {
        u + v
    }
}

/// Lower output of a forward butterfly: `u - (b * w mod q)`, plus `q` if
/// negative.
pub open spec fn fwd_lo(u: int, b: int, w: int, q: int) -> int {
    let v = (b * w) % q;
    if u >= v {
        u - v
    } else {
        u + q - v
    }
}

/// One forward stage with `m` blocks of `2t` coefficients: in block `i` the
/// pair `(j, j + t)` goes through a butterfly with twiddle `tw[m + i]`.
/// Coefficients past the `m` blocks are left alone.
pub open spec fn fwd_stage(a: Seq<u64>, m: nat, t: nat, tw: Seq<u128>, q: int) -> Seq<u64> {
    Seq::new(
        a.len(),
        |k: int|
            if k < 2 * m * t {
                let i = k / (2 * t as int);
                if k % (2 * t as int) < t {
                    fwd_hi(a[k] as int, a[k + t] as int, tw[m + i] as int, q) as u64
                } else {
                    fwd_lo(a[k - t] as int, a[k] as int, tw[m + i] as int, q) as u64
                }
            } else {
                a[k]
            },
    )
}

/// The forward stages with `m, 2m, 4m, ...` blocks while fewer than `n`,
/// block halves being `n / (2m)` long.
pub open spec fn fwd_from(a: Seq<u64>, m: nat, n: nat, tw: Seq<u128>, q: int) -> Seq<u64>
    decreases (if m <= n {
        n - m
    } else {
        0
    }),
    when m >= 1
{
    if m >= n {
        a
    } else {
        fwd_from(fwd_stage(a, m, n / (2 * m), tw, q), 2 * m, n, tw, q)
    }
}

/// The forward transform of the first `n` coefficients of `a`.
pub open spec fn spec_forward_ntt(a: Seq<u64>, n: nat, tw: Seq<u128>, q: int) -> Seq<u64> {
    fwd_from(a, 1, n, tw, q)
}

/// Upper output of an inverse butterfly: `u + v`, less `q` once if it reaches `q`.
pub open spec fn inv_hi(u: int, v: int, q: int) -> int {
    if u + v >= q {
        u + v - q
    } else {
        u + v
    }
}

/// Lower output of an inverse butterfly: `((u - v) mod q) * w mod q`.
pub open spec fn inv_lo(u: int, v: int, w: int, q: int) -> int {
    (((u + q - v) % q) * w) % q
}

/// One inverse stage with `h` blocks of `2t` coefficients: in block `i` the
/// pair `(j, j + t)` goes through an inverse butterfly with twiddle `tw[h + i]`.
pub open spec fn inv_stage(a: Seq<u64>, h: nat, t: nat, tw: Seq<u128>, q: int) -> Seq<u64> {
    Seq::new(
        a.len(),
        |k: int|
            if k < 2 * h * t {
                let i = k / (2 * t as int);
                if k % (2 * t as int) < t {
                    inv_hi(a[k] as int, a[k + t] as int, q) as u64
                } else {
                    inv_lo(a[k - t] as int, a[k] as int, tw[h + i] as int, q) as u64
                }
            } else {
                a[k]
            },
    )
}

/// The inverse stages with `n/2, n/4, ..., h` blocks, in this order, block
/// halves being `n / (2h)` long.
pub open spec fn inv_to(a: Seq<u64>, h: nat, n: nat, tw: Seq<u128>, q: int) -> Seq<u64>
    decreases (if h <= n {
        n - h
    } else {
        0
    }),
    when h >= 1
{
    if 2 * h >= n {
        inv_stage(a, h, n / (2 * h), tw, q)
    } else {
        inv_stage(inv_to(a, 2 * h, n, tw, q), h, n / (2 * h), tw, q)
    }
}

/// The inverse stages of the inverse transform (before the division by `n`).
pub open spec fn spec_inverse_stages(a: Seq<u64>, n: nat, tw: Seq<u128>, q: int) -> Seq<u64> {
    inv_to(a, 1, n, tw, q)
}

/// The inverse transform: the inverse stages, then every coefficient
/// multiplied by `n_inv = n^(q-2) mod q` (the inverse of `n` when `q` is prime).
pub open spec fn spec_inverse_ntt(a: Seq<u64>, n: nat, tw: Seq<u128>, q: int) -> Seq<u64> {
    let s = spec_inverse_stages(a, n, tw, q);
    let n_inv = spec_mod_pow(n as int, (q - 2) as nat, q);
    Seq::new(s.len(), |k: int| ((s[k] * n_inv) % q) as u64)
}

/// The tables are those `precalculate` builds for `params`.
pub open spec fn tables_of(params: RingParams, tables: NTTprecaculated) -> bool {
    &&& tables.twiddles@ == twiddle_table(
        params.omega as int,
        params.q as int,
        params.n as nat,
        u64_trailing_zeros(params.n as u64) as nat,
    )
    &&& tables.twiddles_inv@ == twiddle_table(
        spec_mod_pow(params.omega as int, (params.q - 2) as nat, params.q as int),
        params.q as int,
        params.n as nat,
        u64_trailing_zeros(params.n as u64) as nat,
    )
}

/// Precomputed twiddle factors for the forward and the inverse transform.
#[derive(Clone)]
pub struct NTTprecaculated {
    pub twiddles: Vec<u128>,
    pub twiddles_inv: Vec<u128>,
}

/// `bitrev(k, bits)`, computed digit by digit.
fn bit_reverse(k: usize, bits: u32, n: usize) -> (r: usize)
    requires
        k < n,
        pow2(bits as nat) <= n,
    ensures
        r == bitrev(k as nat, bits as nat),
{
    let mut r: usize = 0;
    let mut x: usize = k;
    let mut s: u32 = 0;
    proof {
        lemma2_to64();
    }
    while s < bits
        invariant
            s <= bits,
            pow2(bits as nat) <= n,
            r < pow2(s as nat),
            bitrev(k as nat, bits as nat) == r * pow2((bits - s) as nat) + bitrev(
                x as nat,
                (bits - s) as nat,
            ),
        decreases bits - s,
    {
        proof {
            let rest = (bits - s - 1) as nat;
            lemma_pow2_unfold((bits - s) as nat);
            lemma_pow2_unfold((s + 1) as nat);
            lemma_pow2_pos(rest);
            // bitrev(x, rest + 1) == (x % 2) * 2^rest + bitrev(x / 2, rest)
            assert(bitrev(x as nat, (bits - s) as nat) == (x % 2) * pow2(rest) + bitrev(
                (x / 2) as nat,
                rest,
            ));
            // r * 2^(rest + 1) == (2 * r) * 2^rest
            lemma_mul_is_associative(r as int, 2, pow2(rest) as int);
            lemma_mul_is_commutative(r as int, 2);
            lemma_mul_is_distributive_add_other_way(pow2(rest) as int, 2 * r as int, (x % 2) as int);
            if s + 1 < bits {
                lemma_pow2_strictly_increases((s + 1) as nat, bits as nat);
            }
        }
        assert(r * 2 + x % 2 < pow2((s + 1) as nat));
        r = 2 * r + x % 2;
        x = x / 2;
        s = s + 1;
    }
    proof {
        lemma2_to64();
        assert(s == bits);
        assert(pow2(0) == 1);
        assert(bitrev(x as nat, 0) == 0);
        assert((bits - s) as nat == 0);
        lemma_mul_basics(r as int);
        assert(r * pow2((bits - s) as nat) == r);
    }
    r
}

/// Block and offset of the positions of block `i` of a stage with halves of
/// length `t`.
proof fn lemma_block_index(i: int, t: int, k: int)
    requires
        t >= 1,
        i >= 0,
        2 * i * t <= k < 2 * i * t + 2 * t,
    ensures
        k / (2 * t) == i,
        k % (2 * t) == k - 2 * i * t,
{
    lemma_mul_is_associative(2, i, t);
    lemma_mul_is_commutative(2, i * t);
    lemma_mul_is_associative(i, 2, t);
    lemma_mul_is_commutative(i, 2);
    lemma_mul_is_associative(2, i, t);
    assert(2 * i * t == (2 * t) * i) by {
        lemma_mul_is_commutative(2 * t, i);
        lemma_mul_is_associative(2, t, i);
        lemma_mul_is_commutative(t, i);
    }
    lemma_fundamental_div_mod_converse(k, 2 * t, i, k - 2 * i * t);
}

/// The end of block `i` does not pass the end of the `m` blocks.
proof fn lemma_block_end(i: int, m: int, t: int)
    requires
        0 <= i < m,
        t >= 0,
    ensures
        2 * i * t + 2 * t <= 2 * m * t,
        2 * i * t >= 0,
{
    lemma_mul_inequality(i + 1, m, 2 * t);
    lemma_mul_is_distributive_add_other_way(2 * t, i, 1);
    lemma_mul_is_commutative(i + 1, 2 * t);
    lemma_mul_is_commutative(m, 2 * t);
    lemma_mul_is_commutative(i, 2 * t);
    lemma_mul_is_associative(2, i, t);
    lemma_mul_is_associative(2, m, t);
    lemma_mul_is_commutative(2, i);
    lemma_mul_is_commutative(2, m);
    lemma_mul_is_associative(i, 2, t);
    lemma_mul_is_associative(m, 2, t);
    lemma_mul_is_commutative(i, 2 * t);
    lemma_mul_nonnegative(2 * i, t);
}

/// Runs one forward stage in place.
fn fwd_stage_exec(coeffs: &mut Vec<u64>, m: usize, t: usize, tw: &Vec<u128>, q: u128)
    requires
        m >= 1,
        t >= 1,
        2 * m * t <= old(coeffs)@.len(),
        2 * m <= tw@.len(),
        forall|k: int| m <= k < 2 * m ==> #[trigger] tw@[k] <= u64::MAX,
        0 < q <= u64::MAX,
    ensures
        final(coeffs)@ == fwd_stage(old(coeffs)@, m as nat, t as nat, tw@, q as int),
{
    let ghost a0 = coeffs@;
    let ghost st = fwd_stage(a0, m as nat, t as nat, tw@, q as int);
    let len = coeffs.len();
    let tlen = tw.len();
    let mut i: usize = 0;
    while i < m
        invariant
            len == a0.len(),
            tlen == tw@.len(),
            m >= 1,
            t >= 1,
            2 * m * t <= a0.len(),
            2 * m <= tw@.len(),
            forall|k: int| m <= k < 2 * m ==> #[trigger] tw@[k] <= u64::MAX,
            0 < q <= u64::MAX,
            st == fwd_stage(a0, m as nat, t as nat, tw@, q as int),
            i <= m,
            coeffs@.len() == a0.len(),
            forall|k: int| 0 <= k < coeffs@.len() ==> #[trigger] coeffs@[k] == if k < 2 * i * t {
                st[k]
            } else {
                a0[k]
            },
        decreases m - i,
    {
        proof {
            lemma_block_end(i as int, m as int, t as int);
        }
        let j1 = 2 * i * t;
        let mut j = j1;
        while j < j1 + t
            invariant
                m >= 1,
                t >= 1,
                i < m,
                j1 == 2 * i * t,
                j1 + 2 * t <= 2 * m * t,
                2 * m * t <= a0.len(),
                len == a0.len(),
                tlen == tw@.len(),
                2 * m <= tw@.len(),
                forall|k: int| m <= k < 2 * m ==> #[trigger] tw@[k] <= u64::MAX,
                0 < q <= u64::MAX,
                st == fwd_stage(a0, m as nat, t as nat, tw@, q as int),
                j1 <= j <= j1 + t,
                coeffs@.len() == a0.len(),
                forall|k: int|
                    0 <= k < coeffs@.len() ==> #[trigger] coeffs@[k] == if k < j1 || (j1 <= k < j)
                        || (j1 + t <= k < j + t) {
                        st[k]
                    } else {
                        a0[k]
                    },
            decreases j1 + t - j,
        {
            proof {
                lemma_block_index(i as int, t as int, j as int);
                lemma_block_index(i as int, t as int, (j + t) as int);
                lemma_mul_upper_bound(
                    a0[j + t] as int,
                    u64::MAX as int,
                    tw@[m + i] as int,
                    u64::MAX as int,
                );
            }
            let u = coeffs[j] as u128;
            let w = tw[m + i];
            let v = ((coeffs[j + t]) as u128 * w) % q;
            let mut x = u + v;
            if x >= q {
                x = x - q;
            }
            let y = if u >= v {
                u - v
            } else {
                u + q - v
            };
            coeffs.set(j, x as u64);
            coeffs.set(j + t, y as u64);
            j = j + 1;
        }
        proof {
            lemma_mul_is_distributive_add_other_way(t as int, 2 * i as int, 2);
            lemma_mul_is_distributive_add(2, i as int, 1);
        }
        i = i + 1;
    }
}

/// Runs one inverse stage in place, on coefficients below `q`.
fn inv_stage_exec(coeffs: &mut Vec<u64>, h: usize, t: usize, tw: &Vec<u128>, q: u128)
    requires
        h >= 1,
        t >= 1,
        2 * h * t <= old(coeffs)@.len(),
        2 * h <= tw@.len(),
        forall|k: int| h <= k < 2 * h ==> #[trigger] tw@[k] <= u64::MAX,
        0 < q <= u64::MAX,
        forall|k: int| 0 <= k < 2 * h * t ==> #[trigger] old(coeffs)@[k] < q,
    ensures
        final(coeffs)@ == inv_stage(old(coeffs)@, h as nat, t as nat, tw@, q as int),
{
    let ghost a0 = coeffs@;
    let ghost st = inv_stage(a0, h as nat, t as nat, tw@, q as int);
    let len = coeffs.len();
    let tlen = tw.len();
    let mut i: usize = 0;
    while i < h
        invariant
            len == a0.len(),
            tlen == tw@.len(),
            h >= 1,
            t >= 1,
            2 * h * t <= a0.len(),
            2 * h <= tw@.len(),
            forall|k: int| h <= k < 2 * h ==> #[trigger] tw@[k] <= u64::MAX,
            0 < q <= u64::MAX,
            forall|k: int| 0 <= k < 2 * h * t ==> #[trigger] a0[k] < q,
            st == inv_stage(a0, h as nat, t as nat, tw@, q as int),
            i <= h,
            coeffs@.len() == a0.len(),
            forall|k: int| 0 <= k < coeffs@.len() ==> #[trigger] coeffs@[k] == if k < 2 * i * t {
                st[k]
            } else {
                a0[k]
            },
        decreases h - i,
    {
        proof {
            lemma_block_end(i as int, h as int, t as int);
        }
        let j1 = 2 * i * t;
        let mut j = j1;
        while j < j1 + t
            invariant
                h >= 1,
                t >= 1,
                i < h,
                j1 == 2 * i * t,
                j1 + 2 * t <= 2 * h * t,
                2 * h * t <= a0.len(),
                len == a0.len(),
                tlen == tw@.len(),
                2 * h <= tw@.len(),
                forall|k: int| h <= k < 2 * h ==> #[trigger] tw@[k] <= u64::MAX,
                0 < q <= u64::MAX,
                forall|k: int| 0 <= k < 2 * h * t ==> #[trigger] a0[k] < q,
                st == inv_stage(a0, h as nat, t as nat, tw@, q as int),
                j1 <= j <= j1 + t,
                coeffs@.len() == a0.len(),
                forall|k: int|
                    0 <= k < coeffs@.len() ==> #[trigger] coeffs@[k] == if k < j1 || (j1 <= k < j)
                        || (j1 + t <= k < j + t) {
                        st[k]
                    } else {
                        a0[k]
                    },
            decreases j1 + t - j,
        {
            proof {
                lemma_block_index(i as int, t as int, j as int);
                lemma_block_index(i as int, t as int, (j + t) as int);
                assert(a0[j as int] < q);
                assert(a0[j + t] < q);
                let d = ((a0[j as int] + q - a0[j + t]) % (q as int));
                lemma_mod_bound(a0[j as int] + q - a0[j + t], q as int);
                lemma_mul_upper_bound(d, u64::MAX as int, tw@[h + i] as int, u64::MAX as int);
            }
            let u = coeffs[j] as u128;
            let v = coeffs[j + t] as u128;
            let mut sum = u + v;
            if sum >= q {
                sum = sum - q;
            }
            coeffs.set(j, sum as u64);
            let w = tw[h + i];
            let y = (((u + q - v) % q) * w) % q;
            coeffs.set(j + t, y as u64);
            j = j + 1;
        }
        proof {
            lemma_mul_is_distributive_add_other_way(t as int, 2 * i as int, 2);
            lemma_mul_is_distributive_add(2, i as int, 1);
        }
        i = i + 1;
    }
}

/// Powers of two below `n = 2^l` halve and double exactly.
proof fn lemma_pow2_split(l: nat, s: nat)
    requires
        s < l,
    ensures
        pow2(s) * pow2((l - s) as nat) == pow2(l),
        pow2((l - s) as nat) == 2 * pow2((l - s - 1) as nat),
        2 * pow2(s) * pow2((l - s - 1) as nat) == pow2(l),
        pow2((l - s - 1) as nat) >= 1,
        pow2(s) < pow2(l),
        pow2(l) / (2 * pow2(s)) == pow2((l - s - 1) as nat),
        pow2(s + 1) == 2 * pow2(s),
        pow2(s) >= 1,
        2 * pow2((l - s - 1) as nat) * pow2(s) == pow2(l),
        2 * pow2((l - s - 1) as nat) <= pow2(l),
        2 * pow2(s) <= pow2(l),
        pow2(l) / (2 * pow2((l - s - 1) as nat)) == pow2(s),
{
    lemma_pow2_adds(s, (l - s) as nat);
    lemma_pow2_unfold((l - s) as nat);
    lemma_pow2_unfold(s + 1);
    lemma_pow2_adds(s + 1, (l - s - 1) as nat);
    lemma_pow2_pos((l - s - 1) as nat);
    lemma_pow2_pos(s);
    lemma_pow2_strictly_increases(s, l);
    lemma_div_multiples_vanish(pow2((l - s - 1) as nat) as int, 2 * pow2(s) as int);
    lemma_mul_is_commutative(2 * pow2(s) as int, pow2((l - s - 1) as nat) as int);
    let a = pow2(s) as int;
    let b = pow2((l - s - 1) as nat) as int;
    assert(2 * b * a == 2 * a * b) by {
        lemma_mul_is_associative(2, b, a);
        lemma_mul_is_commutative(b, a);
        lemma_mul_is_associative(2, a, b);
    }
    lemma_mul_inequality(1, a, 2 * b);
    lemma_mul_inequality(1, b, 2 * a);
    lemma_mul_is_commutative(2 * b, a);
    lemma_mul_is_associative(2, a, b);
    lemma_div_multiples_vanish(a, 2 * b);
    lemma_mul_is_commutative(a, 2 * b);
}

/// A position in the lower half of a block has its partner inside the stage.
proof fn lemma_pair_in_range(k: int, h: int, t: int)
    requires
        t >= 1,
        h >= 0,
        0 <= k < 2 * h * t,
        k % (2 * t) < t,
    ensures
        k + t < 2 * h * t,
        k / (2 * t) < h,
{
    let i = k / (2 * t);
    lemma_fundamental_div_mod(k, 2 * t);
    assert(2 * h * t == (2 * t) * h) by {
        lemma_mul_is_associative(2, h, t);
        lemma_mul_is_commutative(h, t);
        lemma_mul_is_associative(2, t, h);
    }
    if i >= h {
        lemma_mul_inequality(h, i, 2 * t);
        lemma_mul_is_commutative(h, 2 * t);
        lemma_mul_is_commutative(i, 2 * t);
        lemma_mod_bound(k, 2 * t);
        assert(false);
    }
    lemma_mul_inequality(i + 1, h, 2 * t);
    lemma_mul_is_commutative(i + 1, 2 * t);
    lemma_mul_is_commutative(h, 2 * t);
    lemma_mul_is_distributive_add(2 * t, i, 1);
}

/// Outputs of an inverse stage on coefficients below `q` are below `q`.
proof fn lemma_inv_stage_reduced(a: Seq<u64>, h: nat, t: nat, tw: Seq<u128>, q: int)
    requires
        q > 0,
        t >= 1,
        2 * h * t <= a.len(),
        forall|k: int| 0 <= k < 2 * h * t ==> #[trigger] a[k] < q,
    ensures
        forall|k: int| 0 <= k < 2 * h * t ==> #[trigger] inv_stage(a, h, t, tw, q)[k] < q,
        inv_stage(a, h, t, tw, q).len() == a.len(),
{
    assert forall|k: int| 0 <= k < 2 * h * t implies #[trigger] inv_stage(a, h, t, tw, q)[k]
        < q by {
        let i = k / (2 * t as int);
        lemma_fundamental_div_mod(k, 2 * t as int);
        lemma_mod_bound(k, 2 * t as int);
        if k % (2 * t as int) < t {
            assert(k + t < 2 * h * t) by {
                lemma_pair_in_range(k, h as int, t as int);
            }
        } else {
            lemma_mod_bound(((a[k - t] + q - a[k]) % q) * tw[h + i], q);
        }
    }
}

/// The forward transform of the first `n` coefficients (`n` a power of two,
/// at least 2), with butterflies modulo `q` and the twiddles `tw[1..n]`.
pub fn forward_ntt(params: &RingParams, polynomial: &Polynomial, ntt_tables: &NTTprecaculated) -> (r: Polynomial)
    requires
        params.n >= 2,
        crate::ring::is_power_of_two(params.n as int),
        params.n <= polynomial.coeffs@.len(),
        params.n <= ntt_tables.twiddles@.len(),
        forall|k: int| 0 <= k < params.n ==> #[trigger] ntt_tables.twiddles@[k] <= u64::MAX,
        params.q > 0,
    ensures
        r.coeffs@ == spec_forward_ntt(polynomial.coeffs@, params.n as nat, ntt_tables.twiddles@, params.q as int),
        r.coeffs@.len() == polynomial.coeffs@.len(),
{
    forward_ntt_single(params, polynomial, ntt_tables)
}

fn forward_ntt_single(params: &RingParams, polynomial: &Polynomial, ntt_tables: &NTTprecaculated) -> (r: Polynomial)
    requires
        params.n >= 2,
        crate::ring::is_power_of_two(params.n as int),
        params.n <= polynomial.coeffs@.len(),
        params.n <= ntt_tables.twiddles@.len(),
        forall|k: int| 0 <= k < params.n ==> #[trigger] ntt_tables.twiddles@[k] <= u64::MAX,
        params.q > 0,
    ensures
        r.coeffs@ == spec_forward_ntt(polynomial.coeffs@, params.n as nat, ntt_tables.twiddles@, params.q as int),
        r.coeffs@.len() == polynomial.coeffs@.len(),
{
    let mut coeffs: Vec<u64> = polynomial.coeffs.clone();
    let ghost a0 = polynomial.coeffs@;
    let ghost tw = ntt_tables.twiddles@;
    let n = params.n;
    let q = params.q as u128;
    let ghost l = choose|l: nat| pow2(l) == n;
    let mut t: usize = n;
    let mut m: usize = 1;
    let ghost mut s: nat = 0;
    proof {
        lemma2_to64();
        if l == 0 {
            assert(false);
        }
        lemma_pow2_split(l, 0);
    }
    while m < n
        invariant
            n == params.n,
            pow2(l) == n,
            n <= coeffs@.len(),
            n <= tw.len(),
            tw == ntt_tables.twiddles@,
            forall|k: int| 0 <= k < n ==> #[trigger] tw[k] <= u64::MAX,
            0 < q <= u64::MAX,
            q == params.q,
            s <= l,
            m == pow2(s),
            t == pow2((l - s) as nat),
            fwd_from(coeffs@, m as nat, n as nat, tw, q as int) == fwd_from(a0, 1, n as nat, tw, q as int),
            coeffs@.len() == a0.len(),
        decreases l - s,
    {
        proof {
            if s == l {
                assert(false);
            }
            lemma_pow2_split(l, s);
        }
        t = t / 2;
        assert(t == n as int / (2 * m as int));
        assert(2 * m <= n);
        assert(2 * m * t == n);
        let ghost before = coeffs@;
        fwd_stage_exec(&mut coeffs, m, t, &ntt_tables.twiddles, q);
        assert(fwd_from(before, m as nat, n as nat, tw, q as int) == fwd_from(
            coeffs@,
            (2 * m) as nat,
            n as nat,
            tw,
            q as int,
        ));
        m = m * 2;
        proof {
            s = s + 1;
        }
    }
    assert(fwd_from(coeffs@, m as nat, n as nat, tw, q as int) == coeffs@);
    Polynomial { coeffs }
}

/// The inverse transform of the first `n` coefficients (`n` a power of two,
/// at least 2, the coefficients below `q`): the inverse stages with the
/// twiddles `tw_inv[1..n]`, then every coefficient times `n^(q-2) mod q`.
pub fn inverse_ntt(params: &RingParams, polynomial: &Polynomial, ntt_tables: &NTTprecaculated) -> (r: Polynomial)
    requires
        params.n >= 2,
        crate::ring::is_power_of_two(params.n as int),
        params.n <= polynomial.coeffs@.len(),
        params.n <= ntt_tables.twiddles_inv@.len(),
        forall|k: int| 0 <= k < params.n ==> #[trigger] ntt_tables.twiddles_inv@[k] <= u64::MAX,
        params.q >= 2,
        forall|k: int| 0 <= k < params.n ==> #[trigger] polynomial.coeffs@[k] < params.q,
        forall|k: int|
            0 <= k < polynomial.coeffs@.len() ==> #[trigger] spec_inverse_stages(
                polynomial.coeffs@,
                params.n as nat,
                ntt_tables.twiddles_inv@,
                params.q as int,
            )[k] * spec_mod_pow(params.n as int, (params.q - 2) as nat, params.q as int)
                <= u64::MAX,
    ensures
        r.coeffs@ == spec_inverse_ntt(polynomial.coeffs@, params.n as nat, ntt_tables.twiddles_inv@, params.q as int),
{
    inverse_ntt_single(params, polynomial, ntt_tables)
}

fn inverse_ntt_single(params: &RingParams, polynomial: &Polynomial, ntt_tables: &NTTprecaculated) -> (r: Polynomial)
    requires
        params.n >= 2,
        crate::ring::is_power_of_two(params.n as int),
        params.n <= polynomial.coeffs@.len(),
        params.n <= ntt_tables.twiddles_inv@.len(),
        forall|k: int| 0 <= k < params.n ==> #[trigger] ntt_tables.twiddles_inv@[k] <= u64::MAX,
        params.q >= 2,
        forall|k: int| 0 <= k < params.n ==> #[trigger] polynomial.coeffs@[k] < params.q,
        forall|k: int|
            0 <= k < polynomial.coeffs@.len() ==> #[trigger] spec_inverse_stages(
                polynomial.coeffs@,
                params.n as nat,
                ntt_tables.twiddles_inv@,
                params.q as int,
            )[k] * spec_mod_pow(params.n as int, (params.q - 2) as nat, params.q as int)
                <= u64::MAX,
    ensures
        r.coeffs@ == spec_inverse_ntt(polynomial.coeffs@, params.n as nat, ntt_tables.twiddles_inv@, params.q as int),
{
    let mut coeffs: Vec<u64> = polynomial.coeffs.clone();
    let ghost a0 = polynomial.coeffs@;
    let ghost tw = ntt_tables.twiddles_inv@;
    let n = params.n;
    let q = params.q as u128;
    let ghost l = choose|l: nat| pow2(l) == n;
    let mut t: usize = 1;
    let mut m: usize = n;
    let ghost mut s: nat = 0;
    proof {
        lemma2_to64();
        if l == 0 {
            assert(false);
        }
    }
    while m > 1
        invariant
            n == params.n,
            pow2(l) == n,
            n <= coeffs@.len(),
            coeffs@.len() == a0.len(),
            n <= tw.len(),
            tw == ntt_tables.twiddles_inv@,
            forall|k: int| 0 <= k < n ==> #[trigger] tw[k] <= u64::MAX,
            2 <= q <= u64::MAX,
            q == params.q,
            s <= l,
            t == pow2(s),
            m == pow2((l - s) as nat),
            forall|k: int| 0 <= k < n ==> #[trigger] coeffs@[k] < q,
            s == 0 ==> coeffs@ == a0,
            s > 0 ==> coeffs@ == inv_to(a0, m as nat, n as nat, tw, q as int),
        decreases l - s,
    {
        proof {
            if s == l {
                lemma2_to64();
                assert(false);
            }
            lemma_pow2_split(l, s);
            lemma_pow2_unfold((l - s) as nat);
        }
        let h = m / 2;
        assert(h == pow2((l - s - 1) as nat));
        assert(2 * h * t == n);
        assert(2 * h <= n);
        assert(t == n as int / (2 * h as int));
        proof {
            lemma_inv_stage_reduced(coeffs@, h as nat, t as nat, tw, q as int);
        }
        let ghost before = coeffs@;
        inv_stage_exec(&mut coeffs, h, t, &ntt_tables.twiddles_inv, q);
        proof {
            if s > 0 {
                assert(2 * h < n) by {
                    lemma_pow2_strictly_increases(0, s);
                    lemma2_to64();
                    lemma_mul_strict_inequality(1, t as int, 2 * h as int);
                    lemma_mul_is_commutative(t as int, 2 * h as int);
                }
                assert(inv_to(a0, h as nat, n as nat, tw, q as int) == inv_stage(
                    inv_to(a0, (2 * h) as nat, n as nat, tw, q as int),
                    h as nat,
                    t as nat,
                    tw,
                    q as int,
                ));
            } else {
                assert(inv_to(a0, h as nat, n as nat, tw, q as int) == inv_stage(
                    a0,
                    h as nat,
                    t as nat,
                    tw,
                    q as int,
                ));
            }
        }
        t = t * 2;
        m = m / 2;
        proof {
            s = s + 1;
        }
    }
    proof {
        if s == 0 {
            lemma2_to64();
            assert(false);
        }
    }
    assert(m == 1) by {
        lemma_pow2_pos((l - s) as nat);
    }
    let n_inv = mod_pow(n as u128, q - 2, q);
    let ghost st = coeffs@;
    let len = coeffs.len();
    assert forall|j: int| 0 <= j < len implies #[trigger] st[j] * n_inv <= u64::MAX by {
        assert(spec_inverse_stages(a0, n as nat, tw, q as int)[j] * spec_mod_pow(
            n as int,
            (q - 2) as nat,
            q as int,
        ) <= u64::MAX);
    }
    let mut k: usize = 0;
    while k < len
        invariant
            len == coeffs@.len(),
            len == st.len(),
            st == spec_inverse_stages(a0, n as nat, tw, q as int),
            n_inv == spec_mod_pow(n as int, (q - 2) as nat, q as int),
            2 <= q <= u64::MAX,
            forall|j: int| 0 <= j < len ==> #[trigger] st[j] * n_inv <= u64::MAX,
            k <= len,
            forall|j: int| 0 <= j < k ==> #[trigger] coeffs@[j] == ((st[j] * n_inv) % (q as int)) as u64,
            forall|j: int| k <= j < len ==> #[trigger] coeffs@[j] == st[j],
        decreases len - k,
    {
        let c = coeffs[k];
        coeffs.set(k, (c * n_inv as u64) % q as u64);
        k = k + 1;
    }
    let r = Polynomial { coeffs };
    assert(r.coeffs@ =~= spec_inverse_ntt(a0, n as nat, tw, q as int));
    r
}

/// `2^tz(n) <= n` for nonzero `n`, `tz` counting trailing zero bits.
proof fn lemma_trailing_zeros_le(n: u64)
    requires
        n != 0,
    ensures
        u64_trailing_zeros(n) < 64,
        pow2(u64_trailing_zeros(n) as nat) <= n,
{
    axiom_u64_trailing_zeros(n);
    let z = u64_trailing_zeros(n) as u64;
    lemma_u64_shr_is_div(n, z);
    assert((n >> z) & 1u64 == 1u64 ==> (n >> z) >= 1) by (bit_vector);
    lemma_pow2_pos(z as nat);
    if n < pow2(z as nat) {
        lemma_basic_div(n as int, pow2(z as nat) as int);
    }
}

/// Builds the twiddle tables for `params.n` (even) and `params.q` (at least
/// 2): `twiddles[k] = omega^bitrev(k) mod q` and `twiddles_inv[k] =
/// (omega^(q-2))^bitrev(k) mod q`, `bitrev` reversing the `tz(n)` lowest bits
/// where `tz(n)` counts the trailing zero bits of `n` (`log2 n` for a power
/// of two).
pub fn precalculate(params: &RingParams) -> (tables: NTTprecaculated)
    requires
        params.n % 2 == 0,
        params.q >= 2,
    ensures
        tables.twiddles@ == twiddle_table(
            params.omega as int,
            params.q as int,
            params.n as nat,
            u64_trailing_zeros(params.n as u64) as nat,
        ),
        tables.twiddles_inv@ == twiddle_table(
            spec_mod_pow(params.omega as int, (params.q - 2) as nat, params.q as int),
            params.q as int,
            params.n as nat,
            u64_trailing_zeros(params.n as u64) as nat,
        ),
{
    let n = params.n;
    let q = params.q as u128;
    let psi = params.omega as u128;
    let log_n = (n as u64).trailing_zeros();
    proof {
        if n != 0 {
            lemma_trailing_zeros_le(n as u64);
        }
    }
    let mut twiddles = vec![1u128; n];
    let mut k: usize = 0;
    while k < n
        invariant
            n == params.n,
            q == params.q,
            psi == params.omega,
            2 <= q <= u64::MAX,
            log_n == u64_trailing_zeros(n as u64),
            n != 0 ==> pow2(log_n as nat) <= n,
            twiddles@.len() == n,
            k <= n,
            forall|j: int| 0 <= j < k ==> #[trigger] twiddles@[j] == spec_mod_pow(
                psi as int,
                bitrev(j as nat, log_n as nat),
                q as int,
            ) as u128,
        decreases n - k,
    {
        let br = bit_reverse(k, log_n, n);
        let w = mod_pow(psi, br as u128, q);
        twiddles.set(k, w);
        k = k + 1;
    }
    let psi_inv = mod_pow(psi, q - 2, q);
    let mut twiddles_inv = vec![1u128; n];
    let mut k: usize = 0;
    while k < n
        invariant
            n == params.n,
            q == params.q,
            2 <= q <= u64::MAX,
            log_n == u64_trailing_zeros(n as u64),
            n != 0 ==> pow2(log_n as nat) <= n,
            psi_inv == spec_mod_pow(params.omega as int, (q - 2) as nat, q as int),
            twiddles_inv@.len() == n,
            k <= n,
            forall|j: int| 0 <= j < k ==> #[trigger] twiddles_inv@[j] == spec_mod_pow(
                psi_inv as int,
                bitrev(j as nat, log_n as nat),
                q as int,
            ) as u128,
        decreases n - k,
    {
        let br = bit_reverse(k, log_n, n);
        let w = mod_pow(psi_inv, br as u128, q);
        twiddles_inv.set(k, w);
        k = k + 1;
    }
    let tables = NTTprecaculated { twiddles, twiddles_inv };
    assert(tables.twiddles@ =~= twiddle_table(
        params.omega as int,
        params.q as int,
        params.n as nat,
        log_n as nat,
    ));
    assert(tables.twiddles_inv@ =~= twiddle_table(
        psi_inv as int,
        params.q as int,
        params.n as nat,
        log_n as nat,
    ));
    tables
}

/// Every coefficient multiplied by `c` modulo `q`.
pub open spec fn scale_mod(a: Seq<u64>, c: int, q: int) -> Seq<u64> {
    Seq::new(a.len(), |k: int| ((c * a[k]) % q) as u64)
}

/// All of `a` lies below `q`.
pub open spec fn all_below(a: Seq<u64>, q: int) -> bool {
    forall|k: int| 0 <= k < a.len() ==> #[trigger] a[k] < q
}

/// A value in `[0, 2q)` less `q` once if it reaches `q` is its residue.
proof fn lemma_cond_sub(x: int, q: int)
    requires
        q > 0,
        0 <= x < 2 * q,
    ensures
        (if x >= q {
            x - q
        } else {
            x
        }) == x % q,
{
    if x >= q {
        lemma_fundamental_div_mod_converse(x, q, 1, x - q);
    } else {
        lemma_small_mod(x as nat, q as nat);
    }
}

/// The forward butterfly computes `u + b*w` and `u - b*w` modulo `q`.
proof fn lemma_fwd_butterfly(u: int, b: int, w: int, q: int)
    requires
        q > 0,
        0 <= u < q,
        b >= 0,
        w >= 0,
    ensures
        fwd_hi(u, b, w, q) == (u + (b * w) % q) % q,
        fwd_lo(u, b, w, q) == (u - (b * w) % q) % q,
        0 <= fwd_hi(u, b, w, q) < q,
        0 <= fwd_lo(u, b, w, q) < q,
{
    let v = (b * w) % q;
    lemma_mod_bound(b * w, q);
    lemma_cond_sub(u + v, q);
    lemma_mod_bound(u + v, q);
    if u >= v {
        lemma_small_mod((u - v) as nat, q as nat);
    } else {
        lemma_fundamental_div_mod_converse(u - v, q, -1, u + q - v);
    }
}

/// The inverse butterfly on values below `q`.
proof fn lemma_inv_butterfly(u: int, v: int, w: int, q: int)
    requires
        q > 0,
        0 <= u < q,
        0 <= v < q,
    ensures
        inv_hi(u, v, q) == (u + v) % q,
        inv_lo(u, v, w, q) == (((u - v) % q) * w) % q,
        0 <= inv_hi(u, v, q) < q,
        0 <= inv_lo(u, v, w, q) < q,
{
    lemma_cond_sub(u + v, q);
    lemma_mod_bound(u + v, q);
    lemma_mod_add_multiples_vanish(u - v, q);
    lemma_mod_bound(((u + q - v) % q) * w, q);
}

/// `c * x mod q`, then `d` times that mod `q`, is `c * d * x mod q`.
proof fn lemma_scale_twice(x: int, c: int, d: int, q: int)
    requires
        q > 0,
    ensures
        (d * ((c * x) % q)) % q == ((d * c) * x) % q,
{
    lemma_mul_mod_noop_right(d, c * x, q);
    lemma_mul_is_associative(d, c, x);
}

/// An inverse butterfly undoes a forward butterfly up to a factor two when
/// the twiddles are inverse to each other modulo `q`.
proof fn lemma_butterfly_roundtrip(u: int, b: int, w: int, wi: int, q: int)
    requires
        q > 0,
        0 <= u < q,
        0 <= b < q,
        w >= 0,
        wi >= 0,
        (w * wi) % q == 1,
    ensures
        inv_hi(fwd_hi(u, b, w, q), fwd_lo(u, b, w, q), q) == (2 * u) % q,
        inv_lo(fwd_hi(u, b, w, q), fwd_lo(u, b, w, q), wi, q) == (2 * b) % q,
{
    let v = (b * w) % q;
    lemma_fwd_butterfly(u, b, w, q);
    let x = fwd_hi(u, b, w, q);
    let y = fwd_lo(u, b, w, q);
    lemma_inv_butterfly(x, y, wi, q);
    // x + y == 2u (mod q)
    lemma_add_mod_noop(u + v, u - v, q);
    assert((u + v) + (u - v) == 2 * u);
    // x - y == 2v (mod q)
    lemma_sub_mod_noop(u + v, u - v, q);
    assert((u + v) - (u - v) == 2 * v);
    // (2v mod q) * wi == 2 b w wi == 2 b (mod q)
    lemma_mul_mod_noop_left(2 * v, wi, q);
    lemma_mul_mod_noop_right(2, b * w, q);
    lemma_mul_mod_noop_left(2 * (b * w), wi, q);
    assert((2 * (b * w)) * wi == (2 * b) * (w * wi)) by {
        lemma_mul_is_associative(2, b, w);
        lemma_mul_is_associative(2 * b, w, wi);
    }
    lemma_mul_mod_noop_right(2 * b, w * wi, q);
    lemma_mul_mod_noop_left(2, v, q);
    assert((2 * v) % q == (2 * (b * w)) % q) by {
        lemma_mul_mod_noop_right(2, b * w, q);
    }
    lemma_mul_mod_noop_left((2 * v) % q, wi, q);
    lemma_mul_mod_noop_left(2 * v, wi, q);
    lemma_mul_mod_noop_left(2 * (b * w), wi, q);
    lemma_mul_basics(2 * b);
}

/// Forward stages on values below `q` give values below `q`.
proof fn lemma_fwd_stage_reduced(a: Seq<u64>, m: nat, t: nat, tw: Seq<u128>, q: int)
    requires
        q > 0,
        t >= 1,
        a.len() == 2 * m * t,
        all_below(a, q),
    ensures
        fwd_stage(a, m, t, tw, q).len() == a.len(),
        all_below(fwd_stage(a, m, t, tw, q), q),
{
    let r = fwd_stage(a, m, t, tw, q);
    assert forall|k: int| 0 <= k < r.len() implies #[trigger] r[k] < q by {
        let i = k / (2 * t as int);
        lemma_fundamental_div_mod(k, 2 * t as int);
        lemma_mod_bound(k, 2 * t as int);
        if k % (2 * t as int) < t {
            lemma_pair_in_range(k, m as int, t as int);
            lemma_fwd_butterfly(a[k] as int, a[k + t] as int, tw[m + i] as int, q);
        } else {
            assert((k - t) % (2 * t as int) == k % (2 * t as int) - t) by {
                lemma_mul_is_commutative(i, 2 * t as int);
                lemma_fundamental_div_mod_converse(k - t, 2 * t as int, i, k % (2 * t as int) - t);
            }
            lemma_pair_in_range(k - t, m as int, t as int);
            lemma_fwd_butterfly(a[k - t] as int, a[k] as int, tw[m + i] as int, q);
        }
    }
}

/// The twiddles of the stage with `m` blocks are inverse to each other.
pub open spec fn stage_twiddles_inverse(tw: Seq<u128>, twi: Seq<u128>, m: nat, q: int) -> bool {
    forall|i: int| 0 <= i < m ==> (#[trigger] tw[m + i] * twi[m + i]) % q == 1
}

/// An inverse stage undoes the forward stage with the same blocks, up to a
/// factor two, on values below `q`.
proof fn lemma_stage_roundtrip(
    a: Seq<u64>,
    m: nat,
    t: nat,
    tw: Seq<u128>,
    twi: Seq<u128>,
    q: int,
)
    requires
        q > 0,
        q <= u64::MAX,
        t >= 1,
        a.len() == 2 * m * t,
        all_below(a, q),
        stage_twiddles_inverse(tw, twi, m, q),
    ensures
        inv_stage(fwd_stage(a, m, t, tw, q), m, t, twi, q) == scale_mod(a, 2, q),
{
    let f = fwd_stage(a, m, t, tw, q);
    let g = inv_stage(f, m, t, twi, q);
    let e = scale_mod(a, 2, q);
    lemma_fwd_stage_reduced(a, m, t, tw, q);
    assert forall|k: int| 0 <= k < a.len() implies #[trigger] g[k] == e[k] by {
        let i = k / (2 * t as int);
        lemma_fundamental_div_mod(k, 2 * t as int);
        lemma_mod_bound(k, 2 * t as int);
        lemma_mod_bound(2 * a[k], q);
        if k % (2 * t as int) < t {
            lemma_pair_in_range(k, m as int, t as int);
            assert(f[k] as int == fwd_hi(a[k] as int, a[k + t] as int, tw[m + i] as int, q)) by {
                lemma_fwd_butterfly(a[k] as int, a[k + t] as int, tw[m + i] as int, q);
            }
            assert((k + t) / (2 * t as int) == i && (k + t) % (2 * t as int) >= t) by {
                lemma_fundamental_div_mod_converse(k + t, 2 * t as int, i, k % (2 * t as int) + t);
            }
            assert(f[k + t] as int == fwd_lo(a[k] as int, a[k + t] as int, tw[m + i] as int, q)) by {
                lemma_fwd_butterfly(a[k] as int, a[k + t] as int, tw[m + i] as int, q);
            }
            lemma_butterfly_roundtrip(a[k] as int, a[k + t] as int, tw[m + i] as int, twi[m + i] as int, q);
            lemma_inv_butterfly(f[k] as int, f[k + t] as int, twi[m + i] as int, q);
        } else {
            assert((k - t) / (2 * t as int) == i && (k - t) % (2 * t as int) < t) by {
                lemma_fundamental_div_mod_converse(k - t, 2 * t as int, i, k % (2 * t as int) - t);
            }
            lemma_pair_in_range(k - t, m as int, t as int);
            assert(f[k - t] as int == fwd_hi(a[k - t] as int, a[k] as int, tw[m + i] as int, q)) by {
                lemma_fwd_butterfly(a[k - t] as int, a[k] as int, tw[m + i] as int, q);
            }
            assert(f[k] as int == fwd_lo(a[k - t] as int, a[k] as int, tw[m + i] as int, q)) by {
                lemma_fwd_butterfly(a[k - t] as int, a[k] as int, tw[m + i] as int, q);
            }
            lemma_butterfly_roundtrip(a[k - t] as int, a[k] as int, tw[m + i] as int, twi[m + i] as int, q);
            lemma_inv_butterfly(f[k - t] as int, f[k] as int, twi[m + i] as int, q);
        }
    }
    assert(g =~= e);
}

/// An inverse stage commutes with multiplication by a constant modulo `q`.
proof fn lemma_inv_stage_scale(y: Seq<u64>, h: nat, t: nat, twi: Seq<u128>, c: int, q: int)
    requires
        q > 0,
        q <= u64::MAX,
        c >= 0,
        t >= 1,
        y.len() == 2 * h * t,
        all_below(y, q),
    ensures
        inv_stage(scale_mod(y, c, q), h, t, twi, q) == scale_mod(inv_stage(y, h, t, twi, q), c, q),
{
    let sy = scale_mod(y, c, q);
    let l = inv_stage(sy, h, t, twi, q);
    let g = inv_stage(y, h, t, twi, q);
    let r = scale_mod(g, c, q);
    assert forall|k: int| 0 <= k < y.len() implies #[trigger] sy[k] as int == (c * y[k]) % q && sy[k] < q by {
        lemma_mod_bound(c * y[k], q);
    }
    assert forall|k: int| 0 <= k < y.len() implies #[trigger] l[k] == r[k] by {
        let i = k / (2 * t as int);
        lemma_fundamental_div_mod(k, 2 * t as int);
        lemma_mod_bound(k, 2 * t as int);
        if k % (2 * t as int) < t {
            lemma_pair_in_range(k, h as int, t as int);
            let (u, v) = (y[k] as int, y[k + t] as int);
            lemma_inv_butterfly(u, v, twi[h + i] as int, q);
            lemma_inv_butterfly(sy[k] as int, sy[k + t] as int, twi[h + i] as int, q);
            // (cu mod q + cv mod q) mod q == c(u + v) mod q == c ((u + v) mod q) mod q
            lemma_add_mod_noop(c * u, c * v, q);
            lemma_mul_is_distributive_add(c, u, v);
            lemma_mul_mod_noop_right(c, u + v, q);
            lemma_mod_bound(c * ((u + v) % q), q);
        } else {
            assert((k - t) / (2 * t as int) == i && (k - t) % (2 * t as int) < t) by {
                lemma_mul_is_commutative(i, 2 * t as int);
                lemma_fundamental_div_mod_converse(k - t, 2 * t as int, i, k % (2 * t as int) - t);
            }
            lemma_pair_in_range(k - t, h as int, t as int);
            let (u, v) = (y[k - t] as int, y[k] as int);
            let w = twi[h + i] as int;
            lemma_inv_butterfly(u, v, w, q);
            lemma_inv_butterfly(sy[k - t] as int, sy[k] as int, w, q);
            // ((cu mod q - cv mod q) mod q) * w mod q == c ((u - v) mod q * w mod q) mod q
            lemma_sub_mod_noop(c * u, c * v, q);
            lemma_mul_is_distributive_sub(c, u, v);
            lemma_mul_mod_noop_left(c * (u - v), w, q);
            lemma_mul_mod_noop_left((c * (u - v)) % q, w, q);
            lemma_mod_twice(c * (u - v), q);
            lemma_mul_mod_noop_right(c, ((u - v) % q) * w, q);
            lemma_mul_mod_noop_right(c, u - v, q);
            lemma_mul_mod_noop_left(c * ((u - v) % q), w, q);
            lemma_mul_is_associative(c, (u - v) % q, w);
            lemma_mul_mod_noop_left(c * (u - v), w, q);
            lemma_mod_bound(c * (((u - v) % q * w) % q), q);
            lemma_mod_bound((((c * u) % q - (c * v) % q) % q) * w, q);
        }
    }
    assert(l =~= r);
}

/// Scaling twice multiplies the factors.
proof fn lemma_scale_mod_twice(a: Seq<u64>, c: int, d: int, q: int)
    requires
        q > 0,
        q <= u64::MAX,
        c >= 0,
        d >= 0,
    ensures
        scale_mod(scale_mod(a, c, q), d, q) == scale_mod(a, d * c, q),
{
    let l = scale_mod(scale_mod(a, c, q), d, q);
    let r = scale_mod(a, d * c, q);
    assert forall|k: int| 0 <= k < a.len() implies #[trigger] l[k] == r[k] by {
        lemma_mod_bound(c * a[k], q);
        lemma_scale_twice(a[k] as int, c, d, q);
        lemma_mul_nonnegative(d, c);
        lemma_mul_nonnegative(d * c, a[k] as int);
        lemma_mod_bound(d * c * a[k], q);
    }
    assert(l =~= r);
}

/// The inverse stages from `m` blocks down, applied to the forward stages
/// from `m` blocks up, multiply by `n / m` modulo `q`.
proof fn lemma_stages_roundtrip(
    x: Seq<u64>,
    l: nat,
    s: nat,
    tw: Seq<u128>,
    twi: Seq<u128>,
    q: int,
)
    requires
        q > 0,
        q <= u64::MAX,
        s < l,
        x.len() == pow2(l),
        all_below(x, q),
        forall|m: nat| 1 <= m && 2 * m <= pow2(l) ==> #[trigger] stage_twiddles_inverse(tw, twi, m, q),
    ensures
        inv_to(fwd_from(x, pow2(s), pow2(l), tw, q), pow2(s), pow2(l), twi, q) == scale_mod(
            x,
            (pow2(l) / pow2(s)) as int,
            q,
        ),
    decreases l - s,
{
    let n = pow2(l);
    let m = pow2(s);
    lemma_pow2_split(l, s);
    let t = pow2((l - s - 1) as nat);
    assert(n / (2 * m) == t) by {
        lemma_div_multiples_vanish(t as int, 2 * m as int);
        lemma_mul_is_commutative(t as int, 2 * m as int);
    }
    assert(x.len() == 2 * m * t);
    let fx = fwd_stage(x, m, t, tw, q);
    lemma_fwd_stage_reduced(x, m, t, tw, q);
    assert(stage_twiddles_inverse(tw, twi, m, q));
    lemma_stage_roundtrip(x, m, t, tw, twi, q);
    assert(fwd_from(x, m, n, tw, q) == fwd_from(fx, 2 * m, n, tw, q));
    if s + 1 == l {
        assert(2 * m == n);
        assert(fwd_from(fx, 2 * m, n, tw, q) == fx);
        assert(inv_to(fx, m, n, twi, q) == inv_stage(fx, m, t, twi, q));
        assert(n / m == 2) by {
            lemma_div_multiples_vanish(2, m as int);
            lemma_mul_is_commutative(2, m as int);
        }
    } else {
        lemma_pow2_split(l, s + 1);
        assert(pow2(s + 1) == 2 * m);
        lemma_stages_roundtrip(fx, l, s + 1, tw, twi, q);
        let c = n / (2 * m);
        // inv_to(fwd_from(fx, 2m), 2m) == scale(fx, n / 2m)
        assert(inv_to(fwd_from(fx, 2 * m, n, tw, q), m, n, twi, q) == inv_stage(
            inv_to(fwd_from(fx, 2 * m, n, tw, q), 2 * m, n, twi, q),
            m,
            t,
            twi,
            q,
        ));
        lemma_inv_stage_scale(fx, m, t, twi, c as int, q);
        lemma_scale_mod_twice(x, 2, c as int, q);
        assert(c * 2 == n / m) by {
            lemma_div_multiples_vanish(2 * t as int, m as int);
            lemma_mul_is_commutative(2 * t as int, m as int);
            lemma_mul_is_associative(2, m as int, t as int);
            lemma_mul_is_commutative(2, m as int);
            lemma_mul_is_associative(m as int, 2, t as int);
        }
    }
}

/// The twiddles of every stage are inverse to each other when `omega`
/// times its power `omega^(q-2)` is one modulo `q`.
proof fn lemma_tables_inverse(omega: int, q: int, n: nat, log_n: nat)
    requires
        2 <= q <= u64::MAX,
        omega >= 0,
        (omega * spec_mod_pow(omega, (q - 2) as nat, q)) % q == 1,
    ensures
        forall|m: nat|
            1 <= m && 2 * m <= n ==> #[trigger] stage_twiddles_inverse(
                twiddle_table(omega, q, n, log_n),
                twiddle_table(spec_mod_pow(omega, (q - 2) as nat, q), q, n, log_n),
                m,
                q,
            ),
{
    let oi = spec_mod_pow(omega, (q - 2) as nat, q);
    let tw = twiddle_table(omega, q, n, log_n);
    let twi = twiddle_table(oi, q, n, log_n);
    assert(oi >= 0) by {
        if q - 2 > 0 {
            lemma_mod_bound(pow(omega, (q - 2) as nat), q);
        }
    }
    assert(omega > 0 && oi > 0) by {
        if omega == 0 || oi == 0 {
            lemma_mul_basics(oi);
            lemma_mul_basics(omega);
            lemma_small_mod(0, q as nat);
        }
    }
    assert forall|k: int| 0 <= k < n implies (#[trigger] tw[k] * twi[k]) % q == 1 by {
        let e = bitrev(k as nat, log_n);
        if e == 0 {
            lemma_pow0(omega);
            lemma_pow0(oi);
            lemma_small_mod(1, q as nat);
            assert(tw[k] == 1 && twi[k] == 1);
        } else {
            lemma_pow_positive(omega, e);
            lemma_pow_positive(oi, e);
            lemma_mod_bound(pow(omega, e), q);
            lemma_mod_bound(pow(oi, e), q);
            assert(tw[k] as int == pow(omega, e) % q);
            assert(twi[k] as int == pow(oi, e) % q);
            lemma_pow_positive(omega, e);
            lemma_pow_positive(oi, e);
            lemma_mod_bound(pow(omega, e), q);
            lemma_mod_bound(pow(oi, e), q);
            lemma_mul_mod_noop(pow(omega, e), pow(oi, e), q);
            lemma_pow_distributes(omega, oi, e);
            lemma_pow_mod_noop(omega * oi, e, q);
            lemma1_pow(e);
            lemma_small_mod(1, q as nat);
        }
    }
    assert forall|m: nat| 1 <= m && 2 * m <= n implies stage_twiddles_inverse(tw, twi, m, q) by {
        assert forall|i: int| 0 <= i < m implies (#[trigger] tw[m + i] * twi[m + i]) % q == 1 by {
            assert(tw[m + i] * twi[m + i] == tw[(m + i) as int] * twi[(m + i) as int]);
        }
    }
}

/// Forward stages from `pow2(s)` blocks on values below `q` give values below `q`.
proof fn lemma_fwd_from_reduced(x: Seq<u64>, l: nat, s: nat, tw: Seq<u128>, q: int)
    requires
        q > 0,
        s <= l,
        x.len() == pow2(l),
        all_below(x, q),
    ensures
        fwd_from(x, pow2(s), pow2(l), tw, q).len() == x.len(),
        all_below(fwd_from(x, pow2(s), pow2(l), tw, q), q),
    decreases l - s,
{
    lemma_pow2_pos(s);
    if s < l {
        lemma_pow2_split(l, s);
        let m = pow2(s);
        let t = pow2((l - s - 1) as nat);
        assert(pow2(l) / (2 * m) == t) by {
            lemma_div_multiples_vanish(t as int, 2 * m as int);
            lemma_mul_is_commutative(t as int, 2 * m as int);
        }
        lemma_fwd_stage_reduced(x, m, t, tw, q);
        lemma_fwd_from_reduced(fwd_stage(x, m, t, tw, q), l, s + 1, tw, q);
    }
}

/// The inverse transform undoes the forward transform. For `n` a power of
/// two (at least 2), twiddle tables as `precalculate` builds them, `omega`
/// and `omega^(q-2)` inverse to each other modulo `q`, and `n` and
/// `n^(q-2)` inverse to each other modulo `q` (all of which hold when `q` is
/// a prime that divides neither `omega` nor `n`), every polynomial of `n`
/// coefficients below `q` comes back unchanged. On the way, the forward
/// transform keeps coefficients below `q` and the inverse stages give
/// `n` times the input modulo `q`.
pub proof fn lemma_inverse_ntt_inverts_forward_ntt(
    params: RingParams,
    tables: NTTprecaculated,
    a: Seq<u64>,
)
    requires
        params.n >= 2,
        crate::ring::is_power_of_two(params.n as int),
        params.q >= 2,
        tables.twiddles@ == twiddle_table(
            params.omega as int,
            params.q as int,
            params.n as nat,
            u64_trailing_zeros(params.n as u64) as nat,
        ),
        tables.twiddles_inv@ == twiddle_table(
            spec_mod_pow(params.omega as int, (params.q - 2) as nat, params.q as int),
            params.q as int,
            params.n as nat,
            u64_trailing_zeros(params.n as u64) as nat,
        ),
        (params.omega * spec_mod_pow(params.omega as int, (params.q - 2) as nat, params.q as int))
            % (params.q as int) == 1,
        (params.n * spec_mod_pow(params.n as int, (params.q - 2) as nat, params.q as int)) % (
        params.q as int) == 1,
        a.len() == params.n,
        all_below(a, params.q as int),
    ensures
        spec_forward_ntt(a, params.n as nat, tables.twiddles@, params.q as int).len() == params.n,
        all_below(spec_forward_ntt(a, params.n as nat, tables.twiddles@, params.q as int), params.q as int),
        spec_inverse_stages(
            spec_forward_ntt(a, params.n as nat, tables.twiddles@, params.q as int),
            params.n as nat,
            tables.twiddles_inv@,
            params.q as int,
        ) == scale_mod(a, params.n as int, params.q as int),
        spec_inverse_ntt(
            spec_forward_ntt(a, params.n as nat, tables.twiddles@, params.q as int),
            params.n as nat,
            tables.twiddles_inv@,
            params.q as int,
        ) == a,
{
    let n = params.n as nat;
    let q = params.q as int;
    let tw = tables.twiddles@;
    let twi = tables.twiddles_inv@;
    let l = choose|l: nat| pow2(l) == n;
    lemma2_to64();
    if l == 0 {
        assert(false);
    }
    lemma_tables_inverse(
        params.omega as int,
        q,
        n,
        u64_trailing_zeros(params.n as u64) as nat,
    );
    lemma_fwd_from_reduced(a, l, 0, tw, q);
    lemma_stages_roundtrip(a, l, 0, tw, twi, q);
    assert(n / 1 == n);
    let f = spec_forward_ntt(a, n, tw, q);
    let st = spec_inverse_stages(f, n, twi, q);
    let ni = spec_mod_pow(n as int, (q - 2) as nat, q);
    let r = spec_inverse_ntt(f, n, twi, q);
    assert(ni >= 0) by {
        if q - 2 > 0 {
            lemma_mod_bound(pow(n as int, (q - 2) as nat), q);
        }
    }
    assert forall|k: int| 0 <= k < a.len() implies #[trigger] r[k] == a[k] by {
        lemma_mod_bound(n * a[k], q);
        assert(st[k] as int == (n * a[k]) % q);
        // ((n a mod q) * ni) mod q == a (n ni) mod q == a
        lemma_mul_mod_noop_left(n * a[k], ni, q);
        lemma_mul_is_associative(n as int, a[k] as int, ni);
        lemma_mul_is_commutative(a[k] as int, ni);
        lemma_mul_is_associative(n as int, ni, a[k] as int);
        lemma_mul_is_commutative(n * ni, a[k] as int);
        lemma_mul_mod_noop_right(a[k] as int, n * ni, q);
        lemma_mul_basics(a[k] as int);
        lemma_small_mod(a[k] as nat, q as nat);
        lemma_mod_bound(st[k] * ni, q);
    }
    assert(r =~= a);
}

/// Inverse stages down to `pow2(s)` blocks on values below `q` give values below `q`.
proof fn lemma_inv_to_reduced(x: Seq<u64>, l: nat, s: nat, tw: Seq<u128>, q: int)
    requires
        q > 0,
        s < l,
        x.len() == pow2(l),
        all_below(x, q),
    ensures
        inv_to(x, pow2(s), pow2(l), tw, q).len() == x.len(),
        all_below(inv_to(x, pow2(s), pow2(l), tw, q), q),
    decreases l - s,
{
    lemma_pow2_split(l, s);
    let m = pow2(s);
    let t = pow2((l - s - 1) as nat);
    assert(pow2(l) / (2 * m) == t) by {
        lemma_div_multiples_vanish(t as int, 2 * m as int);
        lemma_mul_is_commutative(t as int, 2 * m as int);
    }
    if s + 1 < l {
        lemma_pow2_split(l, s + 1);
        lemma_inv_to_reduced(x, l, s + 1, tw, q);
        lemma_inv_stage_reduced(inv_to(x, 2 * m, pow2(l), tw, q), m, t, tw, q);
    } else {
        lemma_inv_stage_reduced(x, m, t, tw, q);
    }
}

/// The inverse stages keep values below `q`.
pub proof fn lemma_inverse_stages_reduced(a: Seq<u64>, n: nat, tw: Seq<u128>, q: int)
    requires
        q > 0,
        n >= 2,
        crate::ring::is_power_of_two(n as int),
        a.len() == n,
        all_below(a, q),
    ensures
        spec_inverse_stages(a, n, tw, q).len() == n,
        all_below(spec_inverse_stages(a, n, tw, q), q),
{
    let l = choose|l: nat| pow2(l) == n;
    lemma2_to64();
    if l == 0 {
        assert(false);
    }
    lemma_inv_to_reduced(a, l, 0, tw, q);
}

/// The forward transform keeps values below `q`.
pub proof fn lemma_forward_ntt_reduced(a: Seq<u64>, n: nat, tw: Seq<u128>, q: int)
    requires
        q > 0,
        crate::ring::is_power_of_two(n as int),
        a.len() == n,
        all_below(a, q),
    ensures
        spec_forward_ntt(a, n, tw, q).len() == n,
        all_below(spec_forward_ntt(a, n, tw, q), q),
{
    let l = choose|l: nat| pow2(l) == n;
    lemma_fwd_from_reduced(a, l, 0, tw, q);
    lemma2_to64();
}

/// Entries of a table built as `precalculate` does lie below `q`.
pub proof fn lemma_twiddle_table_below(root: int, q: int, n: nat, log_n: nat)
    requires
        2 <= q <= u64::MAX,
    ensures
        forall|k: int| 0 <= k < n ==> #[trigger] twiddle_table(root, q, n, log_n)[k] < q,
{
    assert forall|k: int| 0 <= k < n implies #[trigger] twiddle_table(root, q, n, log_n)[k] < q by {
        let e = bitrev(k as nat, log_n);
        if e != 0 {
            lemma_mod_bound(pow(root, e), q);
        }
    }
}

} // verus!