//! The stages of the transform cut into blocks: a stage with `m` blocks of
//! `2t` coefficients transforms each block by itself, so the blocks of one
//! stage can be handed out to parallel workers. The schedules list the
//! stages in order; running them is the transform.

use vstd::arithmetic::div_mod::*;
use vstd::arithmetic::mul::*;
use vstd::prelude::*;

use crate::ntt::{
    fwd_from, fwd_hi, fwd_lo, fwd_stage, inv_hi, inv_lo, inv_stage, inv_to, spec_forward_ntt, spec_inverse_stages,
};

verus! {

/// Words widened to 128 bits.
pub open spec fn wide_words(a: Seq<u64>) -> Seq<u128> {
    Seq::new(a.len(), |k: int| a[k] as u128)
}

/// One forward block of `2t` coefficients: the pair `(j, j + t)` goes through
/// a butterfly with twiddle `w`.
pub open spec fn fwd_block(block: Seq<u128>, t: nat, w: int, q: int) -> Seq<u128> {
    Seq::new(
        block.len(),
        |k: int|
            if k < t {
                fwd_hi(block[k] as int, block[k + t] as int, w, q) as u128
            } else {
                fwd_lo(block[k - t] as int, block[k] as int, w, q) as u128
            },
    )
}

/// One inverse block of `2t` coefficients: the pair `(j, j + t)` goes through
/// an inverse butterfly with twiddle `w`.
pub open spec fn inv_block(block: Seq<u128>, t: nat, w: int, q: int) -> Seq<u128> {
    Seq::new(
        block.len(),
        |k: int|
            if k < t {
                inv_hi(block[k] as int, block[k + t] as int, q) as u128
            } else {
                inv_lo(block[k - t] as int, block[k] as int, w, q) as u128
            },
    )
}

/// Every coefficient times `c`, modulo `q`.
pub open spec fn scaled_words(a: Seq<u128>, c: int, q: int) -> Seq<u64> {
    Seq::new(a.len(), |k: int| ((a[k] * c) % q) as u64)
}

/// A forward butterfly keeps words within 64 bits.
proof fn lemma_fwd_outputs_fit(u: int, b: int, w: int, q: int)
    requires
        0 <= u <= u64::MAX,
        0 < q <= u64::MAX,
    ensures
        0 <= fwd_hi(u, b, w, q) <= u64::MAX,
        0 <= fwd_lo(u, b, w, q) <= u64::MAX,
{
    lemma_mod_bound(b * w, q);
}

/// An inverse butterfly on values below `q` gives values below `q`.
proof fn lemma_inv_outputs_below(u: int, v: int, w: int, q: int)
    requires
        0 <= u < q,
        0 <= v < q,
        q > 0,
    ensures
        0 <= inv_hi(u, v, q) < q,
        0 <= inv_lo(u, v, w, q) < q,
{
    lemma_mod_bound(((u + q - v) % q) * w, q);
}

/// Index `k` of block `i` (of `2t` coefficients) lies in the block, at
/// offset `k - 2 i t`.
proof fn lemma_in_block(i: int, t: int, k: int)
    requires
        t >= 1,
        i >= 0,
        2 * i * t <= k < 2 * i * t + 2 * t,
    ensures
        k / (2 * t) == i,
        k % (2 * t) == k - 2 * i * t,
{
    assert(2 * i * t == (2 * t) * i) by {
        lemma_mul_is_associative(2, i, t);
        lemma_mul_is_commutative(i, t);
        lemma_mul_is_associative(2, t, i);
    }
    lemma_fundamental_div_mod_converse(k, 2 * t, i, k - 2 * i * t);
}

/// Block `i` of `m` blocks of `2t` ends within the `m` blocks.
proof fn lemma_block_within(i: int, m: int, t: int)
    requires
        0 <= i < m,
        t >= 0,
    ensures
        0 <= 2 * i * t,
        2 * i * t + 2 * t <= 2 * m * t,
{
    lemma_mul_inequality(i + 1, m, 2 * t);
    lemma_mul_is_distributive_add_other_way(2 * t, i, 1);
    lemma_mul_is_commutative(i + 1, 2 * t);
    lemma_mul_is_commutative(m, 2 * t);
    lemma_mul_is_commutative(i, 2 * t);
    lemma_mul_is_associative(2, i, t);
    lemma_mul_is_associative(2, m, t);
    lemma_mul_is_commutative(2, i);
    lemma_mul_is_commutative(2, m);
    lemma_mul_is_associative(i, 2, t);
    lemma_mul_is_associative(m, 2, t);
    lemma_mul_nonnegative(2 * i, t);
}

/// A forward stage acts on each of its blocks by itself: block `i` (the
/// coefficients `2 i t .. 2 i t + 2 t`) of the stage is the forward block of
/// block `i` of the input, with the twiddle `tw[m + i]`.
pub proof fn lemma_forward_stage_by_blocks(a: Seq<u64>, m: nat, t: nat, tw: Seq<u128>, q: int, i: nat)
    requires
        t >= 1,
        i < m,
        2 * m * t <= a.len(),
        0 < q <= u64::MAX,
    ensures
        wide_words(fwd_stage(a, m, t, tw, q).subrange((2 * i * t) as int, (2 * i * t + 2 * t) as int)) == fwd_block(
            wide_words(a.subrange((2 * i * t) as int, (2 * i * t + 2 * t) as int)),
            t,
            tw[(m + i) as int] as int,
            q,
        ),
{
    lemma_block_within(i as int, m as int, t as int);
    let j1: int = (2 * i * t) as int;
    let st = fwd_stage(a, m, t, tw, q);
    let lhs = wide_words(st.subrange(j1, j1 + 2 * t as int));
    let blk = wide_words(a.subrange(j1, j1 + 2 * t as int));
    let rhs = fwd_block(blk, t, tw[(m + i) as int] as int, q);
    assert forall|k: int| 0 <= k < 2 * t implies #[trigger] lhs[k] == rhs[k] by {
        let kk = j1 + k;
        lemma_in_block(i as int, t as int, kk);
        if k < t {
            lemma_in_block(i as int, t as int, kk + t);
            lemma_fwd_outputs_fit(a[kk] as int, a[kk + t] as int, tw[(m + i) as int] as int, q);
        } else {
            lemma_in_block(i as int, t as int, kk - t);
            lemma_fwd_outputs_fit(a[kk - t] as int, a[kk] as int, tw[(m + i) as int] as int, q);
        }
    }
    assert(lhs =~= rhs);
}

/// An inverse stage acts on each of its blocks by itself: on coefficients
/// below `q`, block `i` of the stage is the inverse block of block `i` of the
/// input, with the twiddle `tw[h + i]`.
pub proof fn lemma_inverse_stage_by_blocks(a: Seq<u64>, h: nat, t: nat, tw: Seq<u128>, q: int, i: nat)
    requires
        t >= 1,
        i < h,
        2 * h * t <= a.len(),
        0 < q <= u64::MAX,
        forall|k: int| 2 * i * t <= k < 2 * i * t + 2 * t ==> #[trigger] a[k] < q,
    ensures
        wide_words(inv_stage(a, h, t, tw, q).subrange((2 * i * t) as int, (2 * i * t + 2 * t) as int)) == inv_block(
            wide_words(a.subrange((2 * i * t) as int, (2 * i * t + 2 * t) as int)),
            t,
            tw[(h + i) as int] as int,
            q,
        ),
{
    lemma_block_within(i as int, h as int, t as int);
    let j1: int = (2 * i * t) as int;
    let st = inv_stage(a, h, t, tw, q);
    let lhs = wide_words(st.subrange(j1, j1 + 2 * t as int));
    let blk = wide_words(a.subrange(j1, j1 + 2 * t as int));
    let rhs = inv_block(blk, t, tw[(h + i) as int] as int, q);
    assert forall|k: int| 0 <= k < 2 * t implies #[trigger] lhs[k] == rhs[k] by {
        let kk = j1 + k;
        lemma_in_block(i as int, t as int, kk);
        if k < t {
            lemma_in_block(i as int, t as int, kk + t);
            assert(a[kk] < q && a[kk + t] < q);
            lemma_inv_outputs_below(a[kk] as int, a[kk + t] as int, tw[(h + i) as int] as int, q);
        } else {
            lemma_in_block(i as int, t as int, kk - t);
            assert(a[kk - t] < q && a[kk] < q);
            lemma_inv_outputs_below(a[kk - t] as int, a[kk] as int, tw[(h + i) as int] as int, q);
        }
    }
    assert(lhs =~= rhs);
}

/// One forward block of a stage, on its own: each pair `(j, j + t)` of the
/// `2t` coefficients goes through a butterfly with twiddle `w`. The blocks
/// of a stage do not overlap, so they can be run in parallel.
pub fn forward_ntt_block(block: &[u128], t: usize, w: u128, q: u128) -> (r: Vec<u128>)
    requires
        block@.len() == 2 * t,
        forall|k: int| 0 <= k < block@.len() ==> #[trigger] block@[k] <= u64::MAX,
        w <= u64::MAX,
        0 < q <= u64::MAX,
    ensures
        r@ == fwd_block(block@, t as nat, w as int, q as int),
        forall|k: int| 0 <= k < r@.len() ==> #[trigger] r@[k] <= u64::MAX,
{
    let len = block.len();
    let mut r: Vec<u128> = vec![0u128; len];
    let ghost spec = fwd_block(block@, t as nat, w as int, q as int);
    let mut j: usize = 0;
    while j < t
        invariant
            len == block@.len(),
            len == 2 * t,
            forall|k: int| 0 <= k < block@.len() ==> #[trigger] block@[k] <= u64::MAX,
            w <= u64::MAX,
            0 < q <= u64::MAX,
            spec == fwd_block(block@, t as nat, w as int, q as int),
            j <= t,
            r@.len() == len,
            forall|k: int| (0 <= k < j || t <= k < t + j) ==> #[trigger] r@[k] == spec[k],
        decreases t - j,
    {
        let u = block[j];
        let b = block[j + t];
        proof {
            lemma_mul_upper_bound(b as int, u64::MAX as int, w as int, u64::MAX as int);
            lemma_fwd_outputs_fit(u as int, b as int, w as int, q as int);
        }
        let v = (b * w) % q;
        let sum = u + v;
        let x = if sum >= q {
            sum - q
        } else {
            sum
        };
        let y = if u >= v {
            u - v
        } else {
            u + q - v
        };
        assert(x == spec[j as int]);
        assert(y == spec[j + t]);
        let ghost before = r@;
        r.set(j, x);
        r.set(j + t, y);
        assert(r@ == before.update(j as int, x).update(j + t, y));
        j = j + 1;
    }
    proof {
        assert forall|k: int| 0 <= k < r@.len() implies #[trigger] r@[k] <= u64::MAX by {
            if k < t {
                lemma_fwd_outputs_fit(block@[k] as int, block@[k + t] as int, w as int, q as int);
            } else {
                lemma_fwd_outputs_fit(block@[k - t] as int, block@[k] as int, w as int, q as int);
            }
        }
    }
    assert(r@ =~= spec);
    r
}

/// One inverse block of a stage, on its own, for coefficients below `q`:
/// each pair `(j, j + t)` of the `2t` coefficients goes through an inverse
/// butterfly with twiddle `w`; the results stay below `q`.
pub fn inverse_ntt_block(block: &[u128], t: usize, w: u128, q: u128) -> (r: Vec<u128>)
    requires
        block@.len() == 2 * t,
        forall|k: int| 0 <= k < block@.len() ==> #[trigger] block@[k] < q,
        w <= u64::MAX,
        0 < q <= u64::MAX,
    ensures
        r@ == inv_block(block@, t as nat, w as int, q as int),
        forall|k: int| 0 <= k < r@.len() ==> #[trigger] r@[k] < q,
{
    let len = block.len();
    let mut r: Vec<u128> = vec![0u128; len];
    let ghost spec = inv_block(block@, t as nat, w as int, q as int);
    let mut j: usize = 0;
    while j < t
        invariant
            len == block@.len(),
            len == 2 * t,
            forall|k: int| 0 <= k < block@.len() ==> #[trigger] block@[k] < q,
            w <= u64::MAX,
            0 < q <= u64::MAX,
            spec == inv_block(block@, t as nat, w as int, q as int),
            j <= t,
            r@.len() == len,
            forall|k: int| (0 <= k < j || t <= k < t + j) ==> #[trigger] r@[k] == spec[k],
        decreases t - j,
    {
        let u = block[j];
        let v = block[j + t];
        proof {
            assert(block@[j as int] < q && block@[j + t] < q);
            lemma_mod_bound(u + q - v, q as int);
            lemma_mul_upper_bound(((u + q - v) % (q as int)), u64::MAX as int, w as int, u64::MAX as int);
        }
        let sum = u + v;
        let x = if sum >= q {
            sum - q
        } else {
            sum
        };
        let y = (((u + q - v) % q) * w) % q;
        assert(x == spec[j as int]);
        assert(y == spec[j + t]);
        let ghost before = r@;
        r.set(j, x);
        r.set(j + t, y);
        assert(r@ == before.update(j as int, x).update(j + t, y));
        j = j + 1;
    }
    proof {
        assert forall|k: int| 0 <= k < r@.len() implies #[trigger] r@[k] < q by {
            if k < t {
                lemma_inv_outputs_below(block@[k] as int, block@[k + t] as int, w as int, q as int);
            } else {
                lemma_inv_outputs_below(block@[k - t] as int, block@[k] as int, w as int, q as int);
            }
        }
    }
    assert(r@ =~= spec);
    r
}

/// The last step of the inverse transform: every coefficient (below `q`)
/// times `c` (below `q`), modulo `q`, as a 64-bit word.
pub fn scale_wide_words(coeffs: &[u128], c: u128, q: u128) -> (r: Vec<u64>)
    requires
        forall|k: int| 0 <= k < coeffs@.len() ==> #[trigger] coeffs@[k] < q,
        c < q,
        0 < q <= u64::MAX,
    ensures
        r@ == scaled_words(coeffs@, c as int, q as int),
{
    let mut r: Vec<u64> = Vec::new();
    let mut k: usize = 0;
    while k < coeffs.len()
        invariant
            forall|i: int| 0 <= i < coeffs@.len() ==> #[trigger] coeffs@[i] < q,
            c < q,
            0 < q <= u64::MAX,
            k <= coeffs@.len(),
            r@ == scaled_words(coeffs@, c as int, q as int).subrange(0, k as int),
        decreases coeffs@.len() - k,
    {
        let x = coeffs[k];
        proof {
            lemma_mul_upper_bound(x as int, u64::MAX as int, c as int, u64::MAX as int);
            lemma_mod_bound(x * c, q as int);
        }
        let y = (x * c) % q;
        r.push(y as u64);
        k = k + 1;
        assert(r@ =~= scaled_words(coeffs@, c as int, q as int).subrange(0, k as int));
    }
    assert(r@ =~= scaled_words(coeffs@, c as int, q as int));
    r
}


/// The forward stages `(m, t)` from `m` blocks on: `m` blocks of `2t`
/// coefficients with `t = n / (2m)`, then `2m` blocks, and so on while
/// `m < n`.
pub open spec fn fwd_schedule(m: nat, n: nat) -> Seq<(usize, usize)>
    decreases (if m <= n {
        n - m
    } else {
        0
    }),
    when m >= 1
{
    if m >= n {
        seq![]
    } else {
        seq![(m as usize, (n / (2 * m)) as usize)] + fwd_schedule(2 * m, n)
    }
}

/// The forward stages of `s`, applied in order.
pub open spec fn fwd_apply(a: Seq<u64>, s: Seq<(usize, usize)>, tw: Seq<u128>, q: int) -> Seq<u64>
    decreases s.len(),
{
    if s.len() == 0 {
        a
    } else {
        fwd_apply(fwd_stage(a, s[0].0 as nat, s[0].1 as nat, tw, q), s.drop_first(), tw, q)
    }
}

/// The inverse stages `(h, t)` down to `h` blocks: those of `inv_to`, with
/// the most blocks first and `h` blocks of `2t = n / h` coefficients last.
pub open spec fn inv_schedule(h: nat, n: nat) -> Seq<(usize, usize)>
    decreases (if h <= n {
        n - h
    } else {
        0
    }),
    when h >= 1
{
    if 2 * h >= n {
        seq![(h as usize, (n / (2 * h)) as usize)]
    } else {
        inv_schedule(2 * h, n) + seq![(h as usize, (n / (2 * h)) as usize)]
    }
}

/// The inverse stages of `s`, applied in order.
pub open spec fn inv_apply(a: Seq<u64>, s: Seq<(usize, usize)>, tw: Seq<u128>, q: int) -> Seq<u64>
    decreases s.len(),
{
    if s.len() == 0 {
        a
    } else {
        inv_apply(inv_stage(a, s[0].0 as nat, s[0].1 as nat, tw, q), s.drop_first(), tw, q)
    }
}

/// Running the forward schedule from `m` blocks is running the forward
/// stages from `m` blocks.
proof fn lemma_fwd_schedule_runs(a: Seq<u64>, m: nat, n: nat, tw: Seq<u128>, q: int)
    requires
        m >= 1,
        n <= usize::MAX,
    ensures
        fwd_apply(a, fwd_schedule(m, n), tw, q) == fwd_from(a, m, n, tw, q),
    decreases (if m <= n {
        n - m
    } else {
        0
    }),
{
    if m < n {
        let x = (m as usize, (n / (2 * m)) as usize);
        let rest = fwd_schedule(2 * m, n);
        let s = seq![x] + rest;
        assert(s[0] == x);
        assert(s.drop_first() =~= rest);
        assert((n / (2 * m)) <= n) by {
            lemma_div_is_ordered_by_denominator(n as int, 1, 2 * m as int);
        }
        lemma_fwd_schedule_runs(fwd_stage(a, m, n / (2 * m), tw, q), 2 * m, n, tw, q);
    }
}

/// Running the stages of `s`, then one more, is running `s` with that stage
/// appended.
proof fn lemma_inv_apply_push(a: Seq<u64>, s: Seq<(usize, usize)>, x: (usize, usize), tw: Seq<u128>, q: int)
    ensures
        inv_apply(a, s + seq![x], tw, q) == inv_stage(inv_apply(a, s, tw, q), x.0 as nat, x.1 as nat, tw, q),
    decreases s.len(),
{
    if s.len() == 0 {
        assert(s + seq![x] =~= seq![x]);
        let e = seq![x].drop_first();
        assert(e =~= Seq::<(usize, usize)>::empty());
        let st = inv_stage(a, x.0 as nat, x.1 as nat, tw, q);
        assert(inv_apply(st, e, tw, q) == st);
        assert(inv_apply(a, seq![x], tw, q) == inv_apply(st, e, tw, q));
        assert(inv_apply(a, s, tw, q) == a);
    } else {
        let t = s + seq![x];
        assert(t[0] == s[0]);
        assert(t.drop_first() =~= s.drop_first() + seq![x]);
        let st = inv_stage(a, s[0].0 as nat, s[0].1 as nat, tw, q);
        lemma_inv_apply_push(st, s.drop_first(), x, tw, q);
        assert(inv_apply(a, t, tw, q) == inv_apply(st, t.drop_first(), tw, q));
        assert(inv_apply(a, s, tw, q) == inv_apply(st, s.drop_first(), tw, q));
    }
}

/// Running the inverse schedule down to `h` blocks is running the inverse
/// stages down to `h` blocks.
proof fn lemma_inv_schedule_runs(a: Seq<u64>, h: nat, n: nat, tw: Seq<u128>, q: int)
    requires
        h >= 1,
        h <= n,
        n <= usize::MAX,
    ensures
        inv_apply(a, inv_schedule(h, n), tw, q) == inv_to(a, h, n, tw, q),
    decreases n - h,
{
    let x = (h as usize, (n / (2 * h)) as usize);
    assert((n / (2 * h)) <= n) by {
        lemma_div_is_ordered_by_denominator(n as int, 1, 2 * h as int);
    }
    assert(x.0 as nat == h && x.1 as nat == n / (2 * h));
    if 2 * h >= n {
        let e = seq![x].drop_first();
        assert(e =~= Seq::<(usize, usize)>::empty());
        let st = inv_stage(a, h, n / (2 * h), tw, q);
        assert(inv_apply(st, e, tw, q) == st);
        assert(inv_apply(a, seq![x], tw, q) == inv_apply(st, e, tw, q));
    } else {
        lemma_inv_schedule_runs(a, 2 * h, n, tw, q);
        lemma_inv_apply_push(a, inv_schedule(2 * h, n), x, tw, q);
    }
}

/// The forward schedule is the forward transform: running its stages in
/// order (each stage block by block, see `lemma_forward_stage_by_blocks`)
/// gives `spec_forward_ntt`.
pub proof fn lemma_forward_schedule_is_forward_ntt(a: Seq<u64>, n: nat, tw: Seq<u128>, q: int)
    requires
        n <= usize::MAX,
    ensures
        fwd_apply(a, fwd_schedule(1, n), tw, q) == spec_forward_ntt(a, n, tw, q),
{
    lemma_fwd_schedule_runs(a, 1, n, tw, q);
}

/// The inverse schedule is the inverse stages: running its stages in order
/// (each block by block, see `lemma_inverse_stage_by_blocks`) gives
/// `spec_inverse_stages`; scaling by `n^(q-2)` then gives the inverse
/// transform.
pub proof fn lemma_inverse_schedule_is_inverse_stages(a: Seq<u64>, n: nat, tw: Seq<u128>, q: int)
    requires
        1 <= n <= usize::MAX,
    ensures
        inv_apply(a, inv_schedule(1, n), tw, q) == spec_inverse_stages(a, n, tw, q),
{
    lemma_inv_schedule_runs(a, 1, n, tw, q);
}

/// The stages of the forward transform of `n` coefficients, in order: `(m,
/// t)` for `m = 1, 2, 4, ...` below `n`, with `t = n / (2m)`.
pub fn forward_schedule(n: usize) -> (s: Vec<(usize, usize)>)
    requires
        2 * n <= usize::MAX,
    ensures
        s@ == fwd_schedule(1, n as nat),
{
    let mut s: Vec<(usize, usize)> = Vec::new();
    let mut m: usize = 1;
    while m < n
        invariant
            2 * n <= usize::MAX,
            m >= 1,
            s@ + fwd_schedule(m as nat, n as nat) == fwd_schedule(1, n as nat),
        decreases (if m <= n {
            n - m
        } else {
            0
        }),
    {
        let x = (m, n / (2 * m));
        let ghost rest = fwd_schedule((2 * m) as nat, n as nat);
        assert(fwd_schedule(m as nat, n as nat) == seq![x] + rest);
        assert(s@.push(x) + rest =~= s@ + (seq![x] + rest));
        s.push(x);
        m = 2 * m;
    }
    assert(s@ + fwd_schedule(m as nat, n as nat) =~= s@);
    s
}

/// The stages of the inverse transform's stages down to `h` blocks, in
/// order (see `inv_schedule`).
fn inverse_schedule_from(h: usize, n: usize) -> (s: Vec<(usize, usize)>)
    requires
        1 <= h <= n,
        2 * n <= usize::MAX,
    ensures
        s@ == inv_schedule(h as nat, n as nat),
    decreases n - h,
{
    let x = (h, n / (2 * h));
    if 2 * h >= n {
        let mut s: Vec<(usize, usize)> = Vec::new();
        s.push(x);
        assert(s@ =~= seq![x]);
        s
    } else {
        let mut s = inverse_schedule_from(2 * h, n);
        s.push(x);
        assert(s@ =~= inv_schedule((2 * h) as nat, n as nat) + seq![x]);
        s
    }
}

/// The stages of the inverse transform of `n` coefficients, in order:
/// `(h, t)` for `h = ..., 4, 2, 1` blocks, with `t = n / (2h)`.
pub fn inverse_schedule(n: usize) -> (s: Vec<(usize, usize)>)
    requires
        1 <= n,
        2 * n <= usize::MAX,
    ensures
        s@ == inv_schedule(1, n as nat),
{
    inverse_schedule_from(1, n)
}

/// Words widened to 128 bits.
pub fn widen_words(a: &[u64]) -> (r: Vec<u128>)
    ensures
        r@ == wide_words(a@),
{
    let mut r: Vec<u128> = Vec::new();
    let mut k: usize = 0;
    while k < a.len()
        invariant
            k <= a@.len(),
            r@ == wide_words(a@).subrange(0, k as int),
        decreases a@.len() - k,
    {
        r.push(a[k] as u128);
        k = k + 1;
        assert(r@ =~= wide_words(a@).subrange(0, k as int));
    }
    assert(r@ =~= wide_words(a@));
    r
}

/// 128-bit words that fit in 64 bits, narrowed back.
pub fn narrow_words(a: &[u128]) -> (r: Vec<u64>)
    requires
        forall|k: int| 0 <= k < a@.len() ==> #[trigger] a@[k] <= u64::MAX,
    ensures
        wide_words(r@) == a@,
{
    let mut r: Vec<u64> = Vec::new();
    let mut k: usize = 0;
    while k < a.len()
        invariant
            forall|i: int| 0 <= i < a@.len() ==> #[trigger] a@[i] <= u64::MAX,
            k <= a@.len(),
            r@.len() == k,
            wide_words(r@) == a@.subrange(0, k as int),
        decreases a@.len() - k,
    {
        let x = a[k];
        assert(x <= u64::MAX);
        let ghost old_r = r@;
        r.push(x as u64);
        assert((x as u64) as u128 == x);
        assert forall|i: int| 0 <= i <= k implies #[trigger] wide_words(r@)[i] == a@[i] by {
            if i < k {
                assert(r@[i] == old_r[i]);
                assert(wide_words(old_r)[i] == a@.subrange(0, k as int)[i]);
            }
        }
        k = k + 1;
        assert(wide_words(r@) =~= a@.subrange(0, k as int));
    }
    assert(a@.subrange(0, a@.len() as int) =~= a@);
    r
}

} // verus!
