//! Polynomials of Z_q[X]/(X^n + 1), held as their coefficient vectors.

use vstd::arithmetic::div_mod::*;
use vstd::arithmetic::mul::*;
use vstd::prelude::*;

use crate::modular::spec_mod_pow;
use crate::ntt::{
    all_below, forward_ntt, inverse_ntt, lemma_forward_ntt_reduced, lemma_inverse_stages_reduced,
    lemma_twiddle_table_below, spec_forward_ntt, spec_inverse_ntt, spec_inverse_stages, tables_of,
    twiddle_table, NTTprecaculated,
};
use vstd::std_specs::bits::u64_trailing_zeros;
use crate::ring::{is_power_of_two, RingParams};
use crate::sampling::random_u64;
use vstd::arithmetic::power2::{lemma2_to64, lemma_pow2_adds, lemma_pow2_pos, pow2};

verus! {

/// The coefficients as mathematical integers.
pub open spec fn as_ints(s: Seq<u64>) -> Seq<int> {
    Seq::new(s.len(), |i: int| s[i] as int)
}

/// `raw` seen in `(-q/2, q/2]`.
pub open spec fn centered(raw: int, q: int) -> int {
    if raw > q / 2 {
        raw - q
    } else {
        raw
    }
}

/// A sequence of integers in `[0, 2^64)` as words.
pub open spec fn words(s: Seq<int>) -> Seq<u64> {
    Seq::new(s.len(), |i: int| s[i] as u64)
}

/// Coefficient-wise sum of the first `n` coefficients, reduced modulo `q`.
pub open spec fn poly_sum(a: Seq<u64>, b: Seq<u64>, n: nat, q: int) -> Seq<int> {
    Seq::new(n, |i: int| (a[i] + b[i]) % q)
}

/// Coefficient-wise difference of the first `n` coefficients, in `[0, q)`.
pub open spec fn poly_sub(a: Seq<u64>, b: Seq<u64>, n: nat, q: int) -> Seq<int> {
    Seq::new(n, |i: int| (a[i] - b[i]) % q)
}

/// Coefficient-wise product of the first `n` coefficients, reduced modulo `q`.
pub open spec fn poly_pointwise(a: Seq<u64>, b: Seq<u64>, n: nat, q: int) -> Seq<int> {
    Seq::new(n, |i: int| (a[i] * b[i]) % q)
}

/// Every coefficient multiplied by `lambda`, reduced modulo `q`.
pub open spec fn poly_scale(a: Seq<u64>, lambda: int, q: int) -> Seq<int> {
    Seq::new(a.len(), |i: int| (a[i] * lambda) % q)
}

/// Every coefficient negated, in `[0, q)`.
pub open spec fn poly_neg(a: Seq<u64>, q: int) -> Seq<int> {
    Seq::new(a.len(), |i: int| (-a[i]) % q)
}

/// Every coefficient reduced modulo `k`.
pub open spec fn poly_reduce(a: Seq<u64>, k: int) -> Seq<int> {
    Seq::new(a.len(), |i: int| (a[i] as int) % k)
}

/// Every coefficient divided by `k`, rounded half up.
pub open spec fn poly_div_round(a: Seq<u64>, k: int) -> Seq<int> {
    Seq::new(a.len(), |i: int| (a[i] + k / 2) / k)
}

/// `sum_{i < rows, 0 <= k - i < n} a[i] * b[k - i]`: the part of the `k`-th
/// coefficient of the plain product `a * b` (of the first `n` coefficients)
/// contributed by the first `rows` coefficients of `a`.
pub open spec fn conv_rows(a: Seq<u64>, b: Seq<u64>, n: int, rows: nat, k: int) -> int
    decreases rows,
{
    if rows == 0 {
        0
    } else {
        conv_rows(a, b, n, (rows - 1) as nat, k) + (if 0 <= k - (rows - 1) < n {
            a[rows - 1] * b[k - (rows - 1)]
        } else {
            0
        })
    }
}

/// Coefficient `k` of the plain (non reduced) product of the first `n`
/// coefficients of `a` and `b`.
pub open spec fn conv(a: Seq<u64>, b: Seq<u64>, n: nat, k: int) -> int {
    conv_rows(a, b, n as int, n, k)
}

/// The product in Z_q[X]/(X^n + 1): `X^n = -1` folds coefficient `k + n` of
/// the plain product onto coefficient `k` with a minus sign.
pub open spec fn negacyclic_mul(a: Seq<u64>, b: Seq<u64>, n: nat, q: int) -> Seq<int> {
    Seq::new(n, |k: int| (conv(a, b, n, k) - conv(a, b, n, k + n)) % q)
}

/// The plain product of the first `n` coefficients fits 64-bit words.
pub open spec fn conv_fits_u64(a: Seq<u64>, b: Seq<u64>, n: nat) -> bool {
    forall|k: int| 0 <= k < 2 * n ==> #[trigger] conv(a, b, n, k) <= u64::MAX
}

/// Coefficient-wise product modulo `q` of the first `n` coefficients, as words.
pub open spec fn pointwise_words(a: Seq<u64>, b: Seq<u64>, n: nat, q: int) -> Seq<u64> {
    Seq::new(n, |i: int| ((a[i] * b[i]) % q) as u64)
}

/// The inverse stages applied to the product of the transforms of `a` and
/// `b` (the first `n` coefficients).
pub open spec fn ntt_product_stages(
    a: Seq<u64>,
    b: Seq<u64>,
    n: nat,
    tables: NTTprecaculated,
    q: int,
) -> Seq<u64> {
    spec_inverse_stages(
        pointwise_words(
            spec_forward_ntt(a, n, tables.twiddles@, q),
            spec_forward_ntt(b, n, tables.twiddles@, q),
            n,
            q,
        ),
        n,
        tables.twiddles_inv@,
        q,
    )
}

/// The product by transforms: inverse transform of the coefficient-wise
/// product of the forward transforms.
pub open spec fn spec_mul_ntt(a: Seq<u64>, b: Seq<u64>, n: nat, tables: NTTprecaculated, q: int) -> Seq<
    u64,
> {
    spec_inverse_ntt(
        pointwise_words(
            spec_forward_ntt(a, n, tables.twiddles@, q),
            spec_forward_ntt(b, n, tables.twiddles@, q),
            n,
            q,
        ),
        n,
        tables.twiddles_inv@,
        q,
    )
}

/// The final multiplication by `n^(q-2) mod q` of the product by transforms
/// stays within 64-bit words.
pub open spec fn ntt_product_fits(
    a: Seq<u64>,
    b: Seq<u64>,
    n: nat,
    tables: NTTprecaculated,
    q: int,
) -> bool {
    forall|k: int|
        0 <= k < n ==> #[trigger] ntt_product_stages(a, b, n, tables, q)[k] * spec_mod_pow(
            n as int,
            (q - 2) as nat,
            q,
        ) <= u64::MAX
}

/// Tables usable by the transforms of degree `n`: long enough, with entries
/// that fit 64-bit words.
pub open spec fn tables_fit(tables: NTTprecaculated, n: nat) -> bool {
    &&& n <= tables.twiddles@.len()
    &&& n <= tables.twiddles_inv@.len()
    &&& forall|k: int| 0 <= k < n ==> #[trigger] tables.twiddles@[k] <= u64::MAX
    &&& forall|k: int| 0 <= k < n ==> #[trigger] tables.twiddles_inv@[k] <= u64::MAX
}

/// Tables built by `precalculate` fit the transforms.
pub proof fn lemma_precalculated_fit(params: RingParams, tables: NTTprecaculated)
    requires
        2 <= params.q <= u64::MAX,
        tables_of(params, tables),
    ensures
        tables_fit(tables, params.n as nat),
{
    lemma_twiddle_table_below(
        params.omega as int,
        params.q as int,
        params.n as nat,
        u64_trailing_zeros(params.n as u64) as nat,
    );
    lemma_twiddle_table_below(
        spec_mod_pow(params.omega as int, (params.q - 2) as nat, params.q as int),
        params.q as int,
        params.n as nat,
        u64_trailing_zeros(params.n as u64) as nat,
    );
}

/// With `q <= 2^32` the product by transforms never leaves 64-bit words.
pub proof fn lemma_ntt_product_fits(a: Seq<u64>, b: Seq<u64>, n: nat, tables: NTTprecaculated, q: int)
    requires
        2 <= q <= 0x1_0000_0000,
        n >= 2,
        is_power_of_two(n as int),
    ensures
        ntt_product_fits(a, b, n, tables, q),
{
    let p = pointwise_words(
        spec_forward_ntt(a, n, tables.twiddles@, q),
        spec_forward_ntt(b, n, tables.twiddles@, q),
        n,
        q,
    );
    assert forall|k: int| 0 <= k < n implies #[trigger] p[k] < q by {
        let x = spec_forward_ntt(a, n, tables.twiddles@, q)[k];
        let y = spec_forward_ntt(b, n, tables.twiddles@, q)[k];
        lemma_mod_bound(x * y, q);
    }
    lemma_inverse_stages_reduced(p, n, tables.twiddles_inv@, q);
    let ni = spec_mod_pow(n as int, (q - 2) as nat, q);
    assert(0 <= ni < q) by {
        if q - 2 > 0 {
            lemma_mod_bound(vstd::arithmetic::power::pow(n as int, (q - 2) as nat), q);
        }
    }
    assert forall|k: int| 0 <= k < n implies #[trigger] ntt_product_stages(a, b, n, tables, q)[k]
        * ni <= u64::MAX by {
        let v = ntt_product_stages(a, b, n, tables, q)[k];
        lemma_mul_upper_bound(v as int, q - 1, ni, q - 1);
        lemma_mul_upper_bound(q - 1, 0xFFFF_FFFF, q - 1, 0xFFFF_FFFF);
    }
}

/// The product by transforms has `n` coefficients, all below `q`.
pub proof fn lemma_mul_ntt_reduced(a: Seq<u64>, b: Seq<u64>, n: nat, tables: NTTprecaculated, q: int)
    requires
        2 <= q <= u64::MAX,
        n >= 2,
        is_power_of_two(n as int),
    ensures
        spec_mul_ntt(a, b, n, tables, q).len() == n,
        all_below(spec_mul_ntt(a, b, n, tables, q), q),
{
    let p = pointwise_words(
        spec_forward_ntt(a, n, tables.twiddles@, q),
        spec_forward_ntt(b, n, tables.twiddles@, q),
        n,
        q,
    );
    assert forall|k: int| 0 <= k < n implies #[trigger] p[k] < q by {
        let x = spec_forward_ntt(a, n, tables.twiddles@, q)[k];
        let y = spec_forward_ntt(b, n, tables.twiddles@, q)[k];
        lemma_mod_bound(x * y, q);
    }
    lemma_inverse_stages_reduced(p, n, tables.twiddles_inv@, q);
    let st = spec_inverse_stages(p, n, tables.twiddles_inv@, q);
    let ni = spec_mod_pow(n as int, (q - 2) as nat, q);
    assert forall|k: int| 0 <= k < n implies #[trigger] spec_mul_ntt(a, b, n, tables, q)[k] < q by {
        lemma_mod_bound(st[k] * ni, q);
    }
}

/// The partial products of a coefficient-wise sum are congruent to the sums
/// of the partial products.
proof fn lemma_conv_rows_add(a: Seq<u64>, a2: Seq<u64>, a3: Seq<u64>, b: Seq<u64>, n: int, rows: nat, k: int, q: int)
    requires
        q > 0,
        rows <= n,
        forall|i: int| 0 <= i < n ==> (#[trigger] a3[i] as int) % q == (a[i] + a2[i]) % q,
    ensures
        conv_rows(a3, b, n, rows, k) % q == (conv_rows(a, b, n, rows, k) + conv_rows(a2, b, n, rows, k)) % q,
    decreases rows,
{
    if rows > 0 {
        let r = (rows - 1) as nat;
        lemma_conv_rows_add(a, a2, a3, b, n, r, k, q);
        let p3 = conv_rows(a3, b, n, r, k);
        let p1 = conv_rows(a, b, n, r, k);
        let p2 = conv_rows(a2, b, n, r, k);
        if 0 <= k - r < n {
            let bb = b[k - r] as int;
            let x3 = a3[r as int] as int;
            let x1 = a[r as int] as int;
            let x2 = a2[r as int] as int;
            lemma_mul_mod_noop_left(x3, bb, q);
            lemma_mul_mod_noop_left(x1 + x2, bb, q);
            lemma_mul_is_distributive_add_other_way(bb, x1, x2);
            lemma_add_mod_noop(p3, x3 * bb, q);
            lemma_add_mod_noop(p1 + p2, x1 * bb + x2 * bb, q);
            assert((p3 + x3 * bb) % q == (p1 + p2 + (x1 * bb + x2 * bb)) % q);
            assert(p1 + x1 * bb + (p2 + x2 * bb) == p1 + p2 + (x1 * bb + x2 * bb));
        }
    }
}

/// The sum is commutative.
pub proof fn lemma_sum_commutes(a: Seq<u64>, b: Seq<u64>, n: nat, q: int)
    ensures
        poly_sum(a, b, n, q) == poly_sum(b, a, n, q),
{
    assert(poly_sum(a, b, n, q) =~= poly_sum(b, a, n, q));
}

/// Adding back what was subtracted restores the first operand modulo `q`:
/// `(a - b) + b == a mod q` on the first `n` coefficients.
pub proof fn lemma_sum_undoes_sub(a: Seq<u64>, b: Seq<u64>, n: nat, q: int)
    requires
        0 < q <= u64::MAX,
    ensures
        poly_sum(words(poly_sub(a, b, n, q)), b, n, q) == Seq::new(n, |i: int| (a[i] as int) % q),
{
    let d = words(poly_sub(a, b, n, q));
    assert forall|i: int| 0 <= i < n implies #[trigger] poly_sum(d, b, n, q)[i] == (a[i] as int) % q by {
        lemma_mod_bound(a[i] - b[i], q);
        assert(d[i] as int == (a[i] - b[i]) % q);
        lemma_add_mod_noop((a[i] - b[i]) as int, b[i] as int, q);
        lemma_mod_twice(a[i] - b[i], q);
        lemma_mod_twice(b[i] as int, q);
        lemma_add_mod_noop((a[i] - b[i]) % q, b[i] as int, q);
        assert((a[i] - b[i]) + b[i] == a[i] as int);
    }
    assert(poly_sum(d, b, n, q) =~= Seq::new(n, |i: int| (a[i] as int) % q));
}

/// A polynomial plus its opposite is zero.
pub proof fn lemma_sum_with_opposite(a: Seq<u64>, q: int)
    requires
        0 < q <= u64::MAX,
    ensures
        poly_sum(a, words(poly_neg(a, q)), a.len(), q) == Seq::new(a.len(), |i: int| 0int),
{
    let o = words(poly_neg(a, q));
    assert forall|i: int| 0 <= i < a.len() implies #[trigger] poly_sum(a, o, a.len(), q)[i] == 0 by {
        lemma_mod_bound(-a[i], q);
        assert(o[i] as int == (-a[i]) % q);
        lemma_add_mod_noop(a[i] as int, -a[i], q);
        lemma_mod_twice(-a[i], q);
        lemma_mod_twice(a[i] as int, q);
        lemma_add_mod_noop((a[i] as int) % q, -a[i], q);
        lemma_add_mod_noop(a[i] as int, (-a[i]) % q, q);
        lemma_mod_self_0(q);
        assert(a[i] + (-a[i]) == 0);
        lemma_small_mod(0, q as nat);
    }
    assert(poly_sum(a, o, a.len(), q) =~= Seq::new(a.len(), |i: int| 0int));
}

/// The product distributes over the sum: the negacyclic product of `a + a2`
/// (reduced modulo `q`) by `b` is the sum of the products modulo `q`.
pub proof fn lemma_negacyclic_distributes(a: Seq<u64>, a2: Seq<u64>, b: Seq<u64>, n: nat, q: int)
    requires
        0 < q <= u64::MAX,
        a.len() >= n,
        a2.len() >= n,
    ensures
        forall|k: int|
            0 <= k < n ==> #[trigger] negacyclic_mul(
                words(poly_sum(a, a2, n, q)),
                b,
                n,
                q,
            )[k] == (negacyclic_mul(a, b, n, q)[k] + negacyclic_mul(a2, b, n, q)[k]) % q,
{
    let a3 = words(poly_sum(a, a2, n, q));
    assert forall|i: int| 0 <= i < n implies (#[trigger] a3[i] as int) % q == (a[i] + a2[i]) % q by {
        lemma_mod_bound(a[i] + a2[i], q);
        lemma_mod_twice(a[i] + a2[i], q);
    }
    assert forall|k: int| 0 <= k < n implies #[trigger] negacyclic_mul(a3, b, n, q)[k] == (negacyclic_mul(a, b, n, q)[k]
        + negacyclic_mul(a2, b, n, q)[k]) % q by {
        lemma_conv_rows_add(a, a2, a3, b, n as int, n, k, q);
        lemma_conv_rows_add(a, a2, a3, b, n as int, n, k + n, q);
        let c3 = conv(a3, b, n, k);
        let d3 = conv(a3, b, n, k + n);
        let c1 = conv(a, b, n, k);
        let d1 = conv(a, b, n, k + n);
        let c2 = conv(a2, b, n, k);
        let d2 = conv(a2, b, n, k + n);
        lemma_sub_mod_noop(c3, d3, q);
        lemma_sub_mod_noop(c1 + c2, d1 + d2, q);
        assert((c3 - d3) % q == ((c1 + c2) - (d1 + d2)) % q);
        lemma_add_mod_noop(c1 - d1, c2 - d2, q);
        assert((c1 + c2) - (d1 + d2) == (c1 - d1) + (c2 - d2));
    }
}

/// The partial products of a coefficient-wise difference are congruent to
/// the differences of the partial products.
proof fn lemma_conv_rows_sub(a: Seq<u64>, a2: Seq<u64>, a3: Seq<u64>, b: Seq<u64>, n: int, rows: nat, k: int, q: int)
    requires
        q > 0,
        rows <= n,
        forall|i: int| 0 <= i < n ==> (#[trigger] a3[i] as int) % q == (a[i] - a2[i]) % q,
    ensures
        conv_rows(a3, b, n, rows, k) % q == (conv_rows(a, b, n, rows, k) - conv_rows(a2, b, n, rows, k)) % q,
    decreases rows,
{
    if rows > 0 {
        let r = (rows - 1) as nat;
        lemma_conv_rows_sub(a, a2, a3, b, n, r, k, q);
        let p3 = conv_rows(a3, b, n, r, k);
        let p1 = conv_rows(a, b, n, r, k);
        let p2 = conv_rows(a2, b, n, r, k);
        if 0 <= k - r < n {
            let bb = b[k - r] as int;
            let x3 = a3[r as int] as int;
            let x1 = a[r as int] as int;
            let x2 = a2[r as int] as int;
            lemma_mul_mod_noop_left(x3, bb, q);
            lemma_mul_mod_noop_left(x1 - x2, bb, q);
            lemma_mul_is_distributive_sub_other_way(bb, x1, x2);
            lemma_add_mod_noop(p3, x3 * bb, q);
            lemma_add_mod_noop(p1 - p2, x1 * bb - x2 * bb, q);
            assert((p3 + x3 * bb) % q == (p1 - p2 + (x1 * bb - x2 * bb)) % q);
            assert(p1 + x1 * bb - (p2 + x2 * bb) == p1 - p2 + (x1 * bb - x2 * bb));
        }
    }
}

/// The product distributes over the difference: the negacyclic product of
/// `a - a2` (in `[0, q)`) by `b` is the difference of the products modulo `q`.
pub proof fn lemma_negacyclic_distributes_sub(a: Seq<u64>, a2: Seq<u64>, b: Seq<u64>, n: nat, q: int)
    requires
        0 < q <= u64::MAX,
        a.len() >= n,
        a2.len() >= n,
    ensures
        forall|k: int|
            0 <= k < n ==> #[trigger] negacyclic_mul(words(poly_sub(a, a2, n, q)), b, n, q)[k] == (negacyclic_mul(
                a,
                b,
                n,
                q,
            )[k] - negacyclic_mul(a2, b, n, q)[k]) % q,
{
    let a3 = words(poly_sub(a, a2, n, q));
    assert forall|i: int| 0 <= i < n implies (#[trigger] a3[i] as int) % q == (a[i] - a2[i]) % q by {
        lemma_mod_bound(a[i] - a2[i], q);
        lemma_mod_twice(a[i] - a2[i], q);
    }
    assert forall|k: int| 0 <= k < n implies #[trigger] negacyclic_mul(a3, b, n, q)[k] == (negacyclic_mul(a, b, n, q)[k]
        - negacyclic_mul(a2, b, n, q)[k]) % q by {
        lemma_conv_rows_sub(a, a2, a3, b, n as int, n, k, q);
        lemma_conv_rows_sub(a, a2, a3, b, n as int, n, k + n, q);
        let c3 = conv(a3, b, n, k);
        let d3 = conv(a3, b, n, k + n);
        let c1 = conv(a, b, n, k);
        let d1 = conv(a, b, n, k + n);
        let c2 = conv(a2, b, n, k);
        let d2 = conv(a2, b, n, k + n);
        lemma_sub_mod_noop(c3, d3, q);
        lemma_sub_mod_noop(c1 - c2, d1 - d2, q);
        assert((c3 - d3) % q == ((c1 - c2) - (d1 - d2)) % q);
        lemma_sub_mod_noop(c1 - d1, c2 - d2, q);
        assert((c1 - c2) - (d1 - d2) == (c1 - d1) - (c2 - d2));
    }
}

/// Byte `j` of a word, counting from the least significant: `(w / 2^(8j)) mod 256`.
pub open spec fn word_byte(w: u64, j: int) -> u8 {
    ((w as int / pow2((8 * j) as nat) as int) % 256) as u8
}

/// Words laid out in memory one after the other, eight bytes per word; the
/// bytes of each word come least significant first when `little`, most
/// significant first otherwise.
pub open spec fn words_bytes(words: Seq<u64>, little: bool) -> Seq<u8> {
    Seq::new(
        8 * words.len(),
        |k: int|
            word_byte(
                words[k / 8],
                if little {
                    k % 8
                } else {
                    7 - k % 8
                },
            ),
    )
}

/// The in-memory bytes of a slice of 64-bit words
/// (`bytemuck::checked::cast_slice`). The source reinterprets the same
/// memory, so each word gives its eight bytes in the machine's byte order,
/// which is little-endian or big-endian; which of the two is not stated.
#[verifier::external_body]
fn words_as_bytes(words: &[u64]) -> (bytes: &[u8])
    ensures
        bytes@ == words_bytes(words@, true) || bytes@ == words_bytes(words@, false),
        bytes@.len() == 8 * words@.len(),
{
    bytemuck::checked::cast_slice(words)
}

/// The little-endian value of a byte string.
pub open spec fn le_value(s: Seq<u8>) -> nat
    decreases s.len(),
{
    if s.len() == 0 {
        0
    } else {
        le_value(s.drop_last()) + (s.last() as nat) * pow2((8 * (s.len() - 1)) as nat)
    }
}

/// The bytes cut into words of eight bytes (the last one possibly shorter),
/// each read little-endian.
pub open spec fn le_words(bytes: Seq<u8>) -> Seq<u64> {
    Seq::new(
        ((bytes.len() + 7) / 8) as nat,
        |c: int|
            le_value(
                bytes.subrange(
                    8 * c,
                    if 8 * c + 8 <= bytes.len() {
                        8 * c + 8
                    } else {
                        bytes.len() as int
                    },
                ),
            ) as u64,
    )
}

proof fn lemma_le_value_bound(s: Seq<u8>)
    ensures
        le_value(s) < pow2((8 * s.len()) as nat),
    decreases s.len(),
{
    lemma2_to64();
    if s.len() > 0 {
        let k = (8 * (s.len() - 1)) as nat;
        lemma_le_value_bound(s.drop_last());
        lemma_pow2_adds(k, 8);
        lemma_pow2_pos(k);
        lemma_mul_inequality(s.last() as int, 255, pow2(k) as int);
    }
}

/// Turns bytes into a polynomial.
pub trait ToPoly {
    fn to_poly(&self) -> Polynomial;
}

impl<'a> ToPoly for &'a [u8] {
    /// One coefficient per eight bytes, read little-endian; the last
    /// coefficient takes the remaining bytes.
    fn to_poly(&self) -> (p: Polynomial)
        ensures
            p.coeffs@ == le_words(self@),
    {
        let bytes: &[u8] = *self;
        let len = bytes.len();
        let nwords = len / 8 + if len % 8 == 0 {
            0
        } else {
            1
        };
        let mut coeffs: Vec<u64> = Vec::with_capacity(nwords);
        let mut c: usize = 0;
        while c < nwords
            invariant
                len == bytes@.len(),
                nwords == (len + 7) / 8,
                c <= nwords,
                coeffs@.len() == c,
                forall|j: int| 0 <= j < c ==> #[trigger] coeffs@[j] == le_words(bytes@)[j],
            decreases nwords - c,
        {
            assert(8 * c < len) by (nonlinear_arith)
                requires
                    c < nwords,
                    nwords == (len + 7) / 8,
            ;
            let start = 8 * c;
            let end = if len - start >= 8 {
                start + 8
            } else {
                len
            };
            let mut word: u64 = 0;
            let mut factor: u64 = 1;
            let mut i: usize = start;
            proof {
                lemma2_to64();
            }
            while i < end
                invariant
                    start <= i <= end,
                    end <= len,
                    end <= start + 8,
                    len == bytes@.len(),
                    i - start < 8 ==> factor == pow2((8 * (i - start)) as nat),
                    word == le_value(bytes@.subrange(start as int, i as int)),
                    word < pow2((8 * (i - start)) as nat),
                decreases end - i,
            {
                let ghost k = (8 * (i - start)) as nat;
                proof {
                    lemma_pow2_adds(k, 8);
                    lemma_pow2_pos(k);
                    lemma_mul_inequality(bytes@[i as int] as int, 255, pow2(k) as int);
                    if k + 8 < 64 {
                        vstd::arithmetic::power2::lemma_pow2_strictly_increases(k + 8, 64);
                    }
                    vstd::arithmetic::power2::lemma2_to64_rest();
                    lemma2_to64();
                    assert(factor == pow2(k));
                    assert(pow2(k + 8) == 256 * pow2(k)) by {
                        lemma_mul_is_commutative(pow2(k) as int, 256);
                    }
                    assert(pow2(k + 8) <= 0x1_0000_0000_0000_0000);
                    assert(bytes@[i as int] * factor <= 255 * pow2(k));
                    assert(word + bytes@[i as int] * factor < pow2(k + 8));
                    assert(bytes@.subrange(start as int, i + 1).drop_last() =~= bytes@.subrange(start as int, i as int));
                }
                word = word + bytes[i] as u64 * factor;
                if i + 1 - start < 8 {
                    factor = factor * 256;
                }
                i = i + 1;
            }
            coeffs.push(word);
            c = c + 1;
        }
        let p = Polynomial::new(coeffs);
        assert(p.coeffs@ =~= le_words(bytes@));
        p
    }
}

/// A polynomial, by its coefficients (lowest degree first).
#[derive(Debug, Clone)]
pub struct Polynomial {
    pub coeffs: Vec<u64>,
}

/// `(a + b) mod q` for 64-bit `a`, `b`: one coefficient of a sum in Z_q.
pub fn add_mod(a: u64, b: u64, q: u64) -> (r: u64)
    requires
        q > 0,
    ensures
        r == (a + b) % (q as int),
{
    ((a as u128 + b as u128) % q as u128) as u64
}

/// `(a - b) mod q` for 64-bit `a`, `b`, in `[0, q)`: one coefficient of a
/// difference in Z_q.
pub fn sub_mod(a: u64, b: u64, q: u64) -> (r: u64)
    requires
        q > 0,
    ensures
        r == (a - b) % (q as int),
{
    if a >= b {
        (a - b) % q
    } else {
        let d = (b - a) % q;
        proof {
            lemma_fundamental_div_mod((b - a) as int, q as int);
            let k = (b - a) as int / q as int;
            if d == 0 {
                lemma_mod_multiples_vanish(-k, 0, q as int);
                lemma_mul_unary_negation(q as int, k);
                assert((a - b) as int == q * (-k));
                lemma_mod_multiples_basic(-k, q as int);
                lemma_mul_is_commutative(q as int, -k);
            } else {
                assert((a - b) as int == (q - d) + q * (-k - 1)) by {
                    lemma_mul_is_distributive_add(q as int, -k, -1);
                    lemma_mul_unary_negation(q as int, k);
                }
                lemma_mod_multiples_vanish(-k - 1, (q - d) as int, q as int);
                lemma_mul_is_commutative(q as int, -k - 1);
                lemma_small_mod((q - d) as nat, q as nat);
            }
        }
        if d == 0 {
            0
        } else {
            q - d
        }
    }
}

/// The partial sums of a plain product are non-negative.
proof fn lemma_conv_rows_nonneg(a: Seq<u64>, b: Seq<u64>, n: int, r: nat, k: int)
    ensures
        conv_rows(a, b, n, r, k) >= 0,
    decreases r,
{
    if r > 0 {
        lemma_conv_rows_nonneg(a, b, n, (r - 1) as nat, k);
        if 0 <= k - (r - 1) < n {
            lemma_mul_nonnegative(a[r - 1] as int, b[k - (r - 1)] as int);
        }
    }
}

/// The terms of a plain product are non-negative, so its partial sums only grow.
proof fn lemma_conv_rows_monotone(a: Seq<u64>, b: Seq<u64>, n: int, r1: nat, r2: nat, k: int)
    requires
        r1 <= r2,
    ensures
        conv_rows(a, b, n, r1, k) <= conv_rows(a, b, n, r2, k),
    decreases r2,
{
    if r2 > r1 {
        lemma_conv_rows_monotone(a, b, n, r1, (r2 - 1) as nat, k);
        if 0 <= k - (r2 - 1) < n {
            lemma_mul_nonnegative(a[r2 - 1] as int, b[k - (r2 - 1)] as int);
        }
    }
}

impl Polynomial {
    /// The polynomial with the given coefficients.
    pub fn new(coeffs: Vec<u64>) -> (p: Self)
        ensures
            p.coeffs@ == coeffs@,
    {
        Self { coeffs }
    }

    /// The polynomial whose coefficients are the lowest bits of the given
    /// words: coefficient `i` is `draws[i] & 1`.
    pub fn binary_from_draws(draws: &Vec<u64>) -> (p: Self)
        ensures
            p.coeffs@.len() == draws@.len(),
            forall|i: int| 0 <= i < draws@.len() ==> #[trigger] p.coeffs@[i] == draws@[i] & 1,
            forall|i: int| 0 <= i < draws@.len() ==> #[trigger] p.coeffs@[i] <= 1,
    {
        let mut coeffs: Vec<u64> = Vec::with_capacity(draws.len());
        let mut k: usize = 0;
        while k < draws.len()
            invariant
                k <= draws@.len(),
                coeffs@.len() == k,
                forall|j: int| 0 <= j < k ==> #[trigger] coeffs@[j] == draws@[j] & 1,
                forall|j: int| 0 <= j < k ==> #[trigger] coeffs@[j] <= 1,
            decreases draws@.len() - k,
        {
            let r = draws[k];
            let bit = r & 1;
            assert(bit <= 1) by (bit_vector)
                requires
                    bit == r & 1,
            ;
            coeffs.push(bit);
            k = k + 1;
        }
        Polynomial::new(coeffs)
    }

    /// A polynomial of `n` random coefficients in `{0, 1}`: for some drawn
    /// words `d`, coefficient `i` is `d[i] & 1`.
    pub fn random(n: usize) -> (p: Self)
        ensures
            p.coeffs@.len() == n,
            forall|k: int| 0 <= k < n ==> #[trigger] p.coeffs@[k] <= 1,
            exists|draws: Seq<u64>|
                draws.len() == n && forall|i: int| 0 <= i < n ==> #[trigger] p.coeffs@[i] == draws[i] & 1,
    {
        let mut draws: Vec<u64> = Vec::with_capacity(n);
        let mut k: usize = 0;
        while k < n
            invariant
                k <= n,
                draws@.len() == k,
            decreases n - k,
        {
            let r = random_u64();
            draws.push(r);
            k = k + 1;
        }
        Self::binary_from_draws(&draws)
    }

    /// The in-memory bytes of the coefficients, eight per coefficient, each
    /// coefficient's bytes in the machine's byte order (little-endian or
    /// big-endian).
    pub fn as_bytes(&self) -> (bytes: &[u8])
        ensures
            bytes@ == words_bytes(self.coeffs@, true) || bytes@ == words_bytes(self.coeffs@, false),
            bytes@.len() == 8 * self.coeffs@.len(),
    {
        words_as_bytes(self.coeffs.as_slice())
    }

    /// The zero polynomial with `n` coefficients.
    pub fn zeros(n: usize) -> (p: Self)
        ensures
            p.coeffs@ == Seq::new(n as nat, |i: int| 0u64),
    {
        let coeffs = vec![0u64; n];
        assert(coeffs@ =~= Seq::new(n as nat, |i: int| 0u64));
        Self { coeffs }
    }

    /// Sum in Z_q of the first `params.n` coefficients.
    pub fn sum(&self, params: &RingParams, polynomial: &Polynomial) -> (r: Polynomial)
        requires
            self.coeffs.len() == polynomial.coeffs.len(),
            params.n <= self.coeffs.len(),
            params.q > 0,
        ensures
            as_ints(r.coeffs@) == poly_sum(self.coeffs@, polynomial.coeffs@, params.n as nat, params.q as int),
    {
        Self::polynomial_sum_single(params, self, polynomial)
    }

    /// Difference in Z_q of the first `params.n` coefficients.
    pub fn sub(&self, params: &RingParams, polynomial: &Polynomial) -> (r: Polynomial)
        requires
            self.coeffs.len() == polynomial.coeffs.len(),
            params.n <= self.coeffs.len(),
            params.q > 0,
        ensures
            as_ints(r.coeffs@) == poly_sub(self.coeffs@, polynomial.coeffs@, params.n as nat, params.q as int),
    {
        Self::polynomial_sub_single(params, self, polynomial)
    }

    fn polynomial_sum_single(params: &RingParams, first: &Self, second: &Self) -> (r: Polynomial)
        requires
            params.n <= first.coeffs.len(),
            params.n <= second.coeffs.len(),
            params.q > 0,
        ensures
            as_ints(r.coeffs@) == poly_sum(first.coeffs@, second.coeffs@, params.n as nat, params.q as int),
    {
        let n = params.n;
        let mut coeffs = vec![0u64; n];
        let mut i: usize = 0;
        while i < n
            invariant
                n == params.n,
                n <= first.coeffs.len(),
                n <= second.coeffs.len(),
                params.q > 0,
                i <= n,
                coeffs.len() == n,
                forall|k: int| 0 <= k < i ==> coeffs@[k] == (first.coeffs@[k] + second.coeffs@[k]) % (params.q as int),
            decreases n - i,
        {
            let s = add_mod(first.coeffs[i], second.coeffs[i], params.q);
            coeffs.set(i, s);
            i = i + 1;
        }
        let r = Polynomial::new(coeffs);
        assert(as_ints(r.coeffs@) =~= poly_sum(first.coeffs@, second.coeffs@, params.n as nat, params.q as int));
        r
    }

    fn polynomial_sub_single(params: &RingParams, first: &Self, second: &Self) -> (r: Polynomial)
        requires
            params.n <= first.coeffs.len(),
            params.n <= second.coeffs.len(),
            params.q > 0,
        ensures
            as_ints(r.coeffs@) == poly_sub(first.coeffs@, second.coeffs@, params.n as nat, params.q as int),
    {
        let n = params.n;
        let mut coeffs = vec![0u64; n];
        let mut i: usize = 0;
        while i < n
            invariant
                n == params.n,
                n <= first.coeffs.len(),
                n <= second.coeffs.len(),
                params.q > 0,
                i <= n,
                coeffs.len() == n,
                forall|k: int| 0 <= k < i ==> coeffs@[k] == (first.coeffs@[k] - second.coeffs@[k]) % (params.q as int),
            decreases n - i,
        {
            let d = sub_mod(first.coeffs[i], second.coeffs[i], params.q);
            coeffs.set(i, d);
            i = i + 1;
        }
        let r = Polynomial::new(coeffs);
        assert(as_ints(r.coeffs@) =~= poly_sub(first.coeffs@, second.coeffs@, params.n as nat, params.q as int));
        r
    }

    /// Product in Z_q[X]/(X^n + 1) by the schoolbook method: the plain
    /// product is accumulated in 64-bit words, then folded with `X^n = -1`.
    pub fn mul(&self, params: &RingParams, polynomial: &Polynomial) -> (r: Self)
        requires
            self.coeffs.len() == polynomial.coeffs.len(),
            params.n <= self.coeffs.len(),
            params.q > 0,
            2 * params.n <= usize::MAX,
            conv_fits_u64(self.coeffs@, polynomial.coeffs@, params.n as nat),
        ensures
            as_ints(r.coeffs@) == negacyclic_mul(self.coeffs@, polynomial.coeffs@, params.n as nat, params.q as int),
    {
        let n = params.n;
        let ghost a = self.coeffs@;
        let ghost bb = polynomial.coeffs@;
        let mut b = vec![0u64; 2 * n];
        let mut i: usize = 0;
        while i < n
            invariant
                n == params.n,
                a == self.coeffs@,
                bb == polynomial.coeffs@,
                n <= a.len(),
                n <= bb.len(),
                2 * n <= usize::MAX,
                conv_fits_u64(a, bb, n as nat),
                i <= n,
                b.len() == 2 * n,
                forall|k: int| 0 <= k < 2 * n ==> #[trigger] b@[k] == conv_rows(a, bb, n as int, i as nat, k),
            decreases n - i,
        {
            let mut j: usize = 0;
            while j < n
                invariant
                    n == params.n,
                    a == self.coeffs@,
                    bb == polynomial.coeffs@,
                    n <= a.len(),
                    n <= bb.len(),
                    2 * n <= usize::MAX,
                    conv_fits_u64(a, bb, n as nat),
                    i < n,
                    j <= n,
                    b.len() == 2 * n,
                    forall|k: int|
                        0 <= k < 2 * n ==> #[trigger] b@[k] == conv_rows(a, bb, n as int, i as nat, k)
                            + (if i <= k < i + j {
                            a[i as int] * bb[k - i]
                        } else {
                            0
                        }),
                decreases n - j,
            {
                let k = i + j;
                proof {
                    assert(conv_rows(a, bb, n as int, (i + 1) as nat, k as int) == conv_rows(
                        a,
                        bb,
                        n as int,
                        i as nat,
                        k as int,
                    ) + a[i as int] * bb[j as int]);
                    lemma_conv_rows_monotone(a, bb, n as int, (i + 1) as nat, n as nat, k as int);
                    assert(conv(a, bb, n as nat, k as int) <= u64::MAX);
                }
                let t = b[k] + self.coeffs[i] * polynomial.coeffs[j];
                b.set(k, t);
                j = j + 1;
            }
            assert forall|k: int| 0 <= k < 2 * n implies #[trigger] b@[k] == conv_rows(
                a,
                bb,
                n as int,
                (i + 1) as nat,
                k,
            ) by {}
            i = i + 1;
        }
        let mut coeffs = vec![0u64; n];
        let mut k: usize = 0;
        while k < n
            invariant
                n == params.n,
                a == self.coeffs@,
                bb == polynomial.coeffs@,
                params.q > 0,
                2 * n <= usize::MAX,
                k <= n,
                b.len() == 2 * n,
                coeffs.len() == n,
                forall|m: int| 0 <= m < 2 * n ==> #[trigger] b@[m] == conv(a, bb, n as nat, m),
                forall|m: int|
                    0 <= m < k ==> #[trigger] coeffs@[m] == (conv(a, bb, n as nat, m) - conv(
                        a,
                        bb,
                        n as nat,
                        m + n,
                    )) % (params.q as int),
            decreases n - k,
        {
            let low = b[k];
            let high = if k + n < b.len() {
                b[k + n]
            } else {
                0
            };
            let val = sub_mod(low, high, params.q);
            coeffs.set(k, val);
            k = k + 1;
        }
        let r = Polynomial::new(coeffs);
        assert(as_ints(r.coeffs@) =~= negacyclic_mul(a, bb, n as nat, params.q as int));
        r
    }

    /// Every coefficient multiplied by `lambda` modulo `q`.
    pub fn scale(&self, params: &RingParams, lambda: u64) -> (r: Self)
        requires
            params.q > 0,
        ensures
            as_ints(r.coeffs@) == poly_scale(self.coeffs@, lambda as int, params.q as int),
    {
        let len = self.coeffs.len();
        let mut coeffs: Vec<u64> = Vec::with_capacity(len);
        let mut i: usize = 0;
        while i < len
            invariant
                len == self.coeffs.len(),
                params.q > 0,
                i <= len,
                coeffs.len() == i,
                forall|k: int| 0 <= k < i ==> coeffs@[k] == (self.coeffs@[k] * lambda) % (params.q as int),
            decreases len - i,
        {
            proof {
                lemma_mul_upper_bound(self.coeffs@[i as int] as int, u64::MAX as int, lambda as int, u64::MAX as int);
            }
            let c = (self.coeffs[i] as u128 * lambda as u128) % params.q as u128;
            coeffs.push(c as u64);
            i = i + 1;
        }
        let r = Polynomial::new(coeffs);
        assert(as_ints(r.coeffs@) =~= poly_scale(self.coeffs@, lambda as int, params.q as int));
        r
    }

    /// Every coefficient negated modulo `q`.
    pub fn opposite(&self, params: &RingParams) -> (r: Self)
        requires
            params.q > 0,
        ensures
            as_ints(r.coeffs@) == poly_neg(self.coeffs@, params.q as int),
    {
        let q = params.q;
        let len = self.coeffs.len();
        let mut coeffs: Vec<u64> = Vec::with_capacity(len);
        let mut i: usize = 0;
        while i < len
            invariant
                len == self.coeffs.len(),
                q == params.q,
                q > 0,
                i <= len,
                coeffs.len() == i,
                forall|k: int| 0 <= k < i ==> coeffs@[k] == (-self.coeffs@[k]) % (q as int),
            decreases len - i,
        {
            let c = sub_mod(0, self.coeffs[i], q);
            coeffs.push(c);
            i = i + 1;
        }
        let r = Polynomial::new(coeffs);
        assert(as_ints(r.coeffs@) =~= poly_neg(self.coeffs@, params.q as int));
        r
    }

    /// Every coefficient reduced modulo `constant`.
    pub fn reduce(&self, constant: u128) -> (r: Polynomial)
        requires
            constant > 0,
        ensures
            as_ints(r.coeffs@) == poly_reduce(self.coeffs@, constant as int),
    {
        let len = self.coeffs.len();
        let mut coeffs: Vec<u64> = Vec::with_capacity(len);
        let mut i: usize = 0;
        while i < len
            invariant
                len == self.coeffs.len(),
                constant > 0,
                i <= len,
                coeffs.len() == i,
                forall|k: int| 0 <= k < i ==> coeffs@[k] == (self.coeffs@[k] as int) % (constant as int),
            decreases len - i,
        {
            let c = (self.coeffs[i] as u128) % constant;
            proof {
                lemma_mod_bound(self.coeffs@[i as int] as int, constant as int);
                if self.coeffs@[i as int] < constant {
                    lemma_small_mod(self.coeffs@[i as int] as nat, constant as nat);
                } else {
                    assert(c < constant);
                }
            }
            coeffs.push(c as u64);
            i = i + 1;
        }
        let r = Polynomial::new(coeffs);
        assert(as_ints(r.coeffs@) =~= poly_reduce(self.coeffs@, constant as int));
        r
    }

    /// Every coefficient divided by `constant`, rounded to the nearest
    /// integer (halves upward).
    pub fn divide_by_constant(&self, constant: u128) -> (r: Polynomial)
        requires
            constant > 0,
        ensures
            as_ints(r.coeffs@) == poly_div_round(self.coeffs@, constant as int),
    {
        let len = self.coeffs.len();
        let mut coeffs: Vec<u64> = Vec::with_capacity(len);
        let mut i: usize = 0;
        while i < len
            invariant
                len == self.coeffs.len(),
                constant > 0,
                i <= len,
                coeffs.len() == i,
                forall|k: int| 0 <= k < i ==> coeffs@[k] == (self.coeffs@[k] + constant / 2) / (constant as int),
            decreases len - i,
        {
            let c = self.coeffs[i] as u128;
            let x = (c + constant / 2) / constant;
            proof {
                if constant == 1 {
                    assert(x == c);
                } else if c == 0 {
                    lemma_basic_div(constant as int / 2, constant as int);
                    assert(x == 0);
                } else {
                    lemma_mul_inequality(1, c as int, constant as int - 1);
                    lemma_div_is_ordered(c as int + constant as int / 2, c as int + c as int * (constant as int - 1), constant as int);
                    lemma_mul_inequality(1, constant as int - 1, c as int);
                    lemma_mul_is_commutative(c as int, constant as int - 1);
                    lemma_div_multiples_vanish(c as int, constant as int);
                    lemma_mul_is_distributive_add(c as int, 1, constant as int - 1);
                    lemma_mul_is_commutative(c as int, constant as int);
                    assert(x <= c);
                }
            }
            coeffs.push(x as u64);
            i = i + 1;
        }
        let r = Polynomial::new(coeffs);
        assert(as_ints(r.coeffs@) =~= poly_div_round(self.coeffs@, constant as int));
        r
    }

    /// Product by transforms: both operands go through the forward
    /// transform, are multiplied coefficient-wise, and the product goes
    /// through the inverse transform.
    pub fn mul_ntt(&self, params: &RingParams, ntt_tables: &NTTprecaculated, polynomial: &Polynomial) -> (r: Polynomial)
        requires
            self.coeffs.len() == polynomial.coeffs.len(),
            params.n >= 2,
            is_power_of_two(params.n as int),
            params.n <= self.coeffs.len(),
            params.q >= 2,
            tables_fit(*ntt_tables, params.n as nat),
            ntt_product_fits(self.coeffs@, polynomial.coeffs@, params.n as nat, *ntt_tables, params.q as int),
        ensures
            r.coeffs@ == spec_mul_ntt(self.coeffs@, polynomial.coeffs@, params.n as nat, *ntt_tables, params.q as int),
            r.coeffs@.len() == params.n,
    {
        let a = forward_ntt(params, self, ntt_tables);
        let b = forward_ntt(params, polynomial, ntt_tables);
        let c_ntt = a.pointwise_mul(params, &b);
        let ghost p = pointwise_words(a.coeffs@, b.coeffs@, params.n as nat, params.q as int);
        proof {
            let ai = as_ints(c_ntt.coeffs@);
            let pp = poly_pointwise(a.coeffs@, b.coeffs@, params.n as nat, params.q as int);
            assert(ai == pp);
            assert(c_ntt.coeffs@.len() == params.n);
            assert forall|k: int| 0 <= k < params.n implies #[trigger] c_ntt.coeffs@[k] == p[k] by {
                assert(ai[k] == pp[k]);
                assert(ai[k] == c_ntt.coeffs@[k] as int);
                assert(pp[k] == (a.coeffs@[k] * b.coeffs@[k]) % (params.q as int));
                lemma_mod_bound(a.coeffs@[k] * b.coeffs@[k], params.q as int);
            }
            assert(c_ntt.coeffs@ =~= p);
        }
        assert forall|k: int| 0 <= k < params.n implies #[trigger] c_ntt.coeffs@[k] < params.q by {
            lemma_mod_bound(a.coeffs@[k] * b.coeffs@[k], params.q as int);
        }
        proof {
            lemma_inverse_stages_reduced(c_ntt.coeffs@, params.n as nat, ntt_tables.twiddles_inv@, params.q as int);
            assert forall|k: int| 0 <= k < c_ntt.coeffs@.len() implies #[trigger] spec_inverse_stages(
                c_ntt.coeffs@,
                params.n as nat,
                ntt_tables.twiddles_inv@,
                params.q as int,
            )[k] * spec_mod_pow(params.n as int, (params.q - 2) as nat, params.q as int)
                <= u64::MAX by {
                assert(ntt_product_stages(self.coeffs@, polynomial.coeffs@, params.n as nat, *ntt_tables, params.q as int)[k] * spec_mod_pow(
                    params.n as int,
                    (params.q - 2) as nat,
                    params.q as int,
                ) <= u64::MAX);
            }
        }
        inverse_ntt(params, &c_ntt, ntt_tables)
    }

    /// Coefficient-wise product modulo `q` of the first `params.n` coefficients.
    pub fn pointwise_mul(&self, params: &RingParams, polynomial: &Polynomial) -> (r: Polynomial)
        requires
            params.n <= self.coeffs.len(),
            params.n <= polynomial.coeffs.len(),
            params.q > 0,
        ensures
            as_ints(r.coeffs@) == poly_pointwise(self.coeffs@, polynomial.coeffs@, params.n as nat, params.q as int),
    {
        let n = params.n;
        let mut result = vec![0u64; n];
        let mut i: usize = 0;
        while i < n
            invariant
                n == params.n,
                n <= self.coeffs.len(),
                n <= polynomial.coeffs.len(),
                params.q > 0,
                i <= n,
                result.len() == n,
                forall|k: int| 0 <= k < i ==> result@[k] == (self.coeffs@[k] * polynomial.coeffs@[k]) % (params.q as int),
            decreases n - i,
        {
            proof {
                lemma_mul_upper_bound(self.coeffs@[i as int] as int, u64::MAX as int, polynomial.coeffs@[i as int] as int, u64::MAX as int);
            }
            let c = (self.coeffs[i] as u128 * polynomial.coeffs[i] as u128) % params.q as u128;
            result.set(i, c as u64);
            i = i + 1;
        }
        let r = Polynomial::new(result);
        assert(as_ints(r.coeffs@) =~= poly_pointwise(self.coeffs@, polynomial.coeffs@, params.n as nat, params.q as int));
        r
    }
}

} // verus!
