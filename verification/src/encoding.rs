//! Bit-packed encodings of a seed and a polynomial (message A) and of a
//! polynomial and a bit string (message B). Every coefficient takes
//! `ceil(log2(q))` bits.

use vstd::arithmetic::div_mod::*;
use vstd::arithmetic::mul::*;
use vstd::arithmetic::power2::*;
use vstd::bits::*;
use vstd::prelude::*;
use vstd::std_specs::bits::u64_leading_zeros;

use crate::bitwriting::{
    bits_of_bytes, byte_bit, lemma_byte_bit_shift, nat_bit, pad_to_bytes, read_value, value_bits,
    BitWriter,
};
use crate::polys::Polynomial;
use crate::ring::RingParams;

verus! {

/// Number of binary digits of `x` (zero for zero).
pub open spec fn bit_length(x: nat) -> nat
    decreases x,
{
    if x == 0 {
        0
    } else {
        1 + bit_length(x / 2)
    }
}

/// `ceil(log2(q))`: the number of bits of `q - 1`, the largest value below `q`
/// (zero when `q <= 1`).
pub open spec fn spec_log2_ceil(q: int) -> nat {
    if q <= 1 {
        0
    } else {
        bit_length((q - 1) as nat)
    }
}

/// The concatenated `width`-bit encodings (lowest bit first) of `words`.
pub open spec fn words_bits(words: Seq<u64>, width: nat) -> Seq<bool>
    decreases words.len(),
{
    if words.len() == 0 {
        Seq::empty()
    } else {
        words_bits(words.drop_last(), width) + value_bits(words.last() as nat, width)
    }
}

/// The bytes of a seed as 64-bit words.
pub open spec fn seed_words(seed: Seq<u8>) -> Seq<u64> {
    Seq::new(seed.len(), |i: int| seed[i] as u64)
}

/// The bit string of message A: the seed in bytes of eight bits, then each
/// coefficient in `ceil(log2(q))` bits.
pub open spec fn encode_a_bits(seed: Seq<u8>, coeffs: Seq<u64>, q: int) -> Seq<bool> {
    words_bits(seed_words(seed), 8) + words_bits(coeffs, spec_log2_ceil(q))
}

/// The bit string of message B: each coefficient of `u` in `ceil(log2(q))`
/// bits, then the lowest bit of each entry of `r`.
pub open spec fn encode_b_bits(u: Seq<u64>, r: Seq<u8>, q: int) -> Seq<bool> {
    words_bits(u, spec_log2_ceil(q)) + Seq::new(r.len(), |i: int| r[i] % 2 == 1)
}

proof fn lemma_leading_zeros_bit_length(x: u64)
    ensures
        u64_leading_zeros(x) == 64 - bit_length(x as nat),
    decreases x,
{
    reveal(u64_leading_zeros);
    if x != 0 {
        lemma_leading_zeros_bit_length(x / 2);
    }
}

/// `x < 2^bit_length(x)`.
pub proof fn lemma_bit_length_bound(x: nat)
    ensures
        x < pow2(bit_length(x)),
    decreases x,
{
    if x == 0 {
        lemma2_to64();
    } else {
        lemma_bit_length_bound(x / 2);
        lemma_pow2_unfold(bit_length(x));
    }
}

/// `bit_length` is at most 64 on 64-bit words.
proof fn lemma_bit_length_le(x: nat, k: nat)
    requires
        x < pow2(k),
    ensures
        bit_length(x) <= k,
    decreases x,
{
    if x > 0 {
        assert(k > 0) by {
            lemma2_to64();
        }
        lemma_pow2_unfold(k);
        lemma_bit_length_le(x / 2, (k - 1) as nat);
    }
}

/// `ceil(log2(q))`: `0` for `q <= 1`, else the bit length of `q - 1`.
fn log2_ceil(q: u64) -> (r: u32)
    ensures
        r == spec_log2_ceil(q as int),
        r <= 64,
{
    if q <= 1 {
        0
    } else {
        let lz = (q - 1).leading_zeros();
        proof {
            lemma_leading_zeros_bit_length((q - 1) as u64);
            lemma2_to64_rest();
            lemma_bit_length_le((q - 1) as nat, 64);
        }
        64 - lz
    }
}

/// Every value below `q` fits in `ceil(log2(q))` bits.
pub proof fn lemma_fits_log2_ceil(c: nat, q: int)
    requires
        c < q,
    ensures
        c < pow2(spec_log2_ceil(q)),
{
    if q <= 1 {
        lemma2_to64();
    } else {
        lemma_bit_length_bound((q - 1) as nat);
    }
}

proof fn lemma_words_bits_len(words: Seq<u64>, width: nat)
    ensures
        words_bits(words, width).len() == words.len() * width,
    decreases words.len(),
{
    if words.len() > 0 {
        lemma_words_bits_len(words.drop_last(), width);
        lemma_mul_is_distributive_sub_other_way(width as int, words.len() as int, 1);
    }
}

/// Bit `i` of word `j` stands at position `j * width + i`.
pub proof fn lemma_words_bits_index(words: Seq<u64>, width: nat, j: int, i: int)
    requires
        0 <= j < words.len(),
        0 <= i < width,
    ensures
        j * width + i < words_bits(words, width).len(),
        words_bits(words, width)[j * width + i] == nat_bit(words[j] as nat, i as nat),
    decreases words.len(),
{
    lemma_words_bits_len(words, width);
    lemma_words_bits_len(words.drop_last(), width);
    let last = words.len() - 1;
    assert(j * width + i < words.len() * width) by {
        lemma_mul_inequality(j + 1, words.len() as int, width as int);
        lemma_mul_is_distributive_add_other_way(width as int, j, 1);
    }
    if j < last {
        assert(j * width + i < last * width) by {
            lemma_mul_inequality(j + 1, last, width as int);
            lemma_mul_is_distributive_add_other_way(width as int, j, 1);
        }
        lemma_words_bits_index(words.drop_last(), width, j, i);
    }
}

/// A reading depends only on the bits it covers.
pub proof fn lemma_read_value_ext(b1: Seq<bool>, s1: int, b2: Seq<bool>, s2: int, width: nat)
    requires
        forall|i: int| 0 <= i < width ==> #[trigger] b1[s1 + i] == b2[s2 + i],
    ensures
        read_value(b1, s1, width) == read_value(b2, s2, width),
    decreases width,
{
    if width > 0 {
        lemma_read_value_ext(b1, s1, b2, s2, (width - 1) as nat);
        assert(b1[s1 + (width - 1)] == b2[s2 + (width - 1)]);
    }
}

/// Reading back the `width` lowest bits of `v` gives `v mod 2^width`.
pub proof fn lemma_read_value_bits(v: nat, width: nat)
    ensures
        read_value(value_bits(v, width), 0, width) == v % pow2(width),
    decreases width,
{
    lemma_pow2_pos(width);
    if width == 0 {
        lemma2_to64();
    } else {
        let w = (width - 1) as nat;
        lemma_read_value_ext(value_bits(v, width), 0, value_bits(v, w), 0, w);
        lemma_read_value_bits(v, w);
        lemma_pow2_pos(w);
        lemma_pow2_unfold(width);
        // v % (2^w * 2) == 2^w * ((v / 2^w) % 2) + v % 2^w
        lemma_mod_breakdown(v as int, pow2(w) as int, 2);
        lemma_mul_is_commutative(pow2(w) as int, 2);
        let bit = (v / pow2(w)) % 2;
        assert(bit == 0 || bit == 1);
        if bit == 1 {
            lemma_mul_basics(pow2(w) as int);
        } else {
            lemma_mul_basics(pow2(w) as int);
        }
    }
}

/// A value read from `width` bits is below `2^width`.
pub proof fn lemma_read_value_bound(bits: Seq<bool>, start: int, width: nat)
    ensures
        read_value(bits, start, width) < pow2(width),
    decreases width,
{
    if width == 0 {
        lemma2_to64();
    } else {
        lemma_read_value_bound(bits, start, (width - 1) as nat);
        lemma_pow2_unfold(width);
    }
}

/// Reads `bits` bits of `msg` starting at bit `bit_index`, lowest first.
fn read_bits(msg: &[u8], bit_index: usize, bits: usize) -> (val: u64)
    requires
        bits <= 64,
        bit_index + bits <= 8 * msg@.len(),
        bit_index + bits <= usize::MAX,
    ensures
        val == read_value(bits_of_bytes(msg@), bit_index as int, bits as nat),
{
    let ghost b = bits_of_bytes(msg@);
    let mut val = 0u64;
    let mut i: usize = 0;
    while i < bits
        invariant
            bits <= 64,
            bit_index + bits <= 8 * msg@.len(),
            bit_index + bits <= usize::MAX,
            b == bits_of_bytes(msg@),
            i <= bits,
            val == read_value(b, bit_index as int, i as nat),
        decreases bits - i,
    {
        let pos = bit_index + i;
        let byte = msg[pos / 8];
        let bit = (byte >> ((pos % 8) as u8)) & 1;
        proof {
            lemma_byte_bit_shift(byte, (pos % 8) as u8);
            assert(b[pos as int] == byte_bit(msg@[(pos / 8) as int], (pos % 8) as int));
            lemma_read_value_bound(b, bit_index as int, i as nat);
            lemma_u64_pow2_no_overflow(i as nat);
            lemma_u64_shl_is_mul(1, i as u64);
            assert(bit <= 1) by (bit_vector)
                requires
                    bit == (byte >> ((pos % 8) as u8)) & 1,
            ;
            let bit64 = bit as u64;
            let ii = i as u64;
            assert(val < (1u64 << ii) && bit64 <= 1 && ii < 64 ==> (val | (bit64 << ii)) == val
                + (bit64 << ii)) by (bit_vector);
            assert(bit64 <= 1 && ii < 64 ==> (bit64 << ii) == (if bit64 == 1 {
                1u64 << ii
            } else {
                0u64
            })) by (bit_vector);
        }
        val = val | ((bit as u64) << (i as u64));
        i = i + 1;
    }
    val
}

/// Decoding message A undoes its encoding: for a polynomial of `n`
/// coefficients of at most `ceil(log2(q))` bits (every coefficient below `q`
/// is one), the bytes produced by `encode_a` are long enough
/// for `decode_a`, which reads back exactly the seed and the coefficients.
pub proof fn lemma_decode_a_inverts_encode_a(
    params: RingParams,
    seed: Seq<u8>,
    coeffs: Seq<u64>,
    msg: Seq<u8>,
)
    requires
        seed.len() == 32,
        coeffs.len() == params.n,
        forall|j: int| 0 <= j < coeffs.len() ==> #[trigger] coeffs[j] < pow2(spec_log2_ceil(params.q as int)),
        bits_of_bytes(msg) == pad_to_bytes(encode_a_bits(seed, coeffs, params.q as int)),
    ensures
        256 + params.n * spec_log2_ceil(params.q as int) <= 8 * msg.len(),
        forall|i: int| 0 <= i < 32 ==> #[trigger] read_value(bits_of_bytes(msg), 8 * i, 8) == seed[i],
        forall|j: int|
            0 <= j < params.n ==> #[trigger] read_value(
                bits_of_bytes(msg),
                256 + j * spec_log2_ceil(params.q as int),
                spec_log2_ceil(params.q as int),
            ) == coeffs[j],
{
    let lb = spec_log2_ceil(params.q as int);
    let sw = seed_words(seed);
    let sb = words_bits(sw, 8);
    let cb = words_bits(coeffs, lb);
    let b = bits_of_bytes(msg);
    lemma_words_bits_len(sw, 8);
    lemma_words_bits_len(coeffs, lb);
    assert(b.len() >= sb.len() + cb.len());
    lemma2_to64();
    assert forall|i: int| 0 <= i < 32 implies #[trigger] read_value(b, 8 * i, 8) == seed[i] by {
        assert forall|k: int| 0 <= k < 8 implies #[trigger] b[8 * i + k] == value_bits(
            seed[i] as nat,
            8,
        )[0 + k] by {
            lemma_words_bits_index(sw, 8, i, k);
        }
        lemma_read_value_ext(b, 8 * i, value_bits(seed[i] as nat, 8), 0, 8);
        lemma_read_value_bits(seed[i] as nat, 8);
        lemma_small_mod(seed[i] as nat, 256);
    }
    assert forall|j: int| 0 <= j < params.n implies #[trigger] read_value(b, 256 + j * lb, lb)
        == coeffs[j] by {
        assert forall|k: int| 0 <= k < lb implies #[trigger] b[(256 + j * lb) + k] == value_bits(
            coeffs[j] as nat,
            lb,
        )[0 + k] by {
            lemma_words_bits_index(coeffs, lb, j, k);
            assert((256 + j * lb) + k == 256 + (j * lb + k));
        }
        lemma_read_value_ext(b, 256 + j * lb, value_bits(coeffs[j] as nat, lb), 0, lb);
        lemma_read_value_bits(coeffs[j] as nat, lb);
        lemma_small_mod(coeffs[j] as nat, pow2(lb));
    }
}

/// Decoding message B undoes its encoding: for `u` of `n` coefficients of
/// at most `ceil(log2(q))` bits (every coefficient below `q` is one) and `r` of `n` entries, the bytes produced by `encode_b` are long
/// enough for `decode_b`, which reads back `u` and the lowest bit of each
/// entry of `r`.
pub proof fn lemma_decode_b_inverts_encode_b(
    params: RingParams,
    u: Seq<u64>,
    r: Seq<u8>,
    msg: Seq<u8>,
)
    requires
        u.len() == params.n,
        r.len() == params.n,
        forall|j: int| 0 <= j < u.len() ==> #[trigger] u[j] < pow2(spec_log2_ceil(params.q as int)),
        bits_of_bytes(msg) == pad_to_bytes(encode_b_bits(u, r, params.q as int)),
    ensures
        params.n * spec_log2_ceil(params.q as int) + params.n <= 8 * msg.len(),
        forall|j: int|
            0 <= j < params.n ==> #[trigger] read_value(
                bits_of_bytes(msg),
                j * spec_log2_ceil(params.q as int),
                spec_log2_ceil(params.q as int),
            ) == u[j],
        forall|j: int|
            0 <= j < params.n ==> #[trigger] read_value(
                bits_of_bytes(msg),
                params.n * spec_log2_ceil(params.q as int) + j,
                1,
            ) == r[j] % 2,
{
    let lb = spec_log2_ceil(params.q as int);
    let ub = words_bits(u, lb);
    let b = bits_of_bytes(msg);
    lemma_words_bits_len(u, lb);
    assert(encode_b_bits(u, r, params.q as int).len() == params.n * lb + params.n);
    assert(b.len() == 8 * msg.len());
    lemma2_to64();
    assert forall|j: int| 0 <= j < params.n implies #[trigger] read_value(b, j * lb, lb)
        == u[j] by {
        assert forall|k: int| 0 <= k < lb implies #[trigger] b[j * lb + k] == value_bits(
            u[j] as nat,
            lb,
        )[0 + k] by {
            lemma_words_bits_index(u, lb, j, k);
        }
        lemma_read_value_ext(b, j * lb, value_bits(u[j] as nat, lb), 0, lb);
        lemma_read_value_bits(u[j] as nat, lb);
        lemma_small_mod(u[j] as nat, pow2(lb));
    }
    assert forall|j: int| 0 <= j < params.n implies #[trigger] read_value(
        b,
        params.n * lb + j,
        1,
    ) == r[j] % 2 by {
        assert(b[params.n * lb + j] == (r[j] % 2 == 1));
        reveal_with_fuel(read_value, 2);
    }
}

impl RingParams {
    /// Packs the seed (eight bits per byte) followed by the coefficients of
    /// `b` (`ceil(log2(q))` bits each).
    pub fn encode_a(&self, seed: &[u8; 32], b: &Polynomial) -> (msg: Vec<u8>)
        ensures
            bits_of_bytes(msg@) == pad_to_bytes(encode_a_bits(seed@, b.coeffs@, self.q as int)),
    {
        let mut writer = BitWriter::new(1792 + 32);
        let mut i: usize = 0;
        while i < 32
            invariant
                writer.wf(),
                i <= 32,
                seed@.len() == 32,
                writer@ == words_bits(seed_words(seed@.subrange(0, i as int)), 8),
            decreases 32 - i,
        {
            writer.write_bits(seed[i] as u64, 8);
            assert(seed_words(seed@.subrange(0, i + 1)).drop_last() =~= seed_words(
                seed@.subrange(0, i as int),
            ));
            i = i + 1;
        }
        assert(seed@.subrange(0, 32) =~= seed@);
        let ghost prefix = writer@;
        let lb = log2_ceil(self.q) as usize;
        let len = b.coeffs.len();
        let mut j: usize = 0;
        while j < len
            invariant
                writer.wf(),
                j <= len,
                len == b.coeffs.len(),
                lb == spec_log2_ceil(self.q as int),
                writer@ == prefix + words_bits(b.coeffs@.subrange(0, j as int), lb as nat),
            decreases len - j,
        {
            writer.write_bits(b.coeffs[j], lb);
            assert(b.coeffs@.subrange(0, j + 1).drop_last() =~= b.coeffs@.subrange(0, j as int));
            j = j + 1;
        }
        assert(b.coeffs@.subrange(0, len as int) =~= b.coeffs@);
        writer.finish()
    }

    /// Unpacks a seed of 32 bytes and `n` coefficients of `ceil(log2(q))`
    /// bits, reading `msg` as `encode_a` writes it.
    pub fn decode_a(&self, msg: &[u8]) -> (res: ([u8; 32], Polynomial))
        requires
            256 + self.n * spec_log2_ceil(self.q as int) <= 8 * msg@.len(),
            256 + self.n * spec_log2_ceil(self.q as int) <= usize::MAX,
        ensures
            forall|i: int|
                0 <= i < 32 ==> #[trigger] res.0@[i] == read_value(bits_of_bytes(msg@), 8 * i, 8),
            res.1.coeffs@.len() == self.n,
            forall|j: int|
                0 <= j < self.n ==> #[trigger] res.1.coeffs@[j] == read_value(
                    bits_of_bytes(msg@),
                    256 + j * spec_log2_ceil(self.q as int),
                    spec_log2_ceil(self.q as int),
                ),
    {
        let ghost bs = bits_of_bytes(msg@);
        let mut seed = [0u8; 32];
        let mut bit_index: usize = 0;
        let mut i: usize = 0;
        while i < 32
            invariant
                i <= 32,
                bit_index == 8 * i,
                bs == bits_of_bytes(msg@),
                256 <= 8 * msg@.len(),
                forall|k: int| 0 <= k < i ==> #[trigger] seed@[k] == read_value(bs, 8 * k, 8),
            decreases 32 - i,
        {
            let v = read_bits(msg, bit_index, 8);
            proof {
                lemma_read_value_bound(bs, bit_index as int, 8);
                lemma2_to64();
            }
            seed[i] = v as u8;
            bit_index = bit_index + 8;
            i = i + 1;
        }
        let lb = log2_ceil(self.q) as usize;
        let n = self.n;
        let mut b: Vec<u64> = Vec::with_capacity(n);
        let mut j: usize = 0;
        while j < n
            invariant
                j <= n,
                n == self.n,
                lb == spec_log2_ceil(self.q as int),
                lb <= 64,
                bit_index == 256 + j * lb,
                256 + n * lb <= 8 * msg@.len(),
                256 + n * lb <= usize::MAX,
                bs == bits_of_bytes(msg@),
                b@.len() == j,
                forall|k: int| 0 <= k < j ==> #[trigger] b@[k] == read_value(bs, 256 + k * lb, lb as nat),
            decreases n - j,
        {
            proof {
                lemma_mul_inequality(j as int + 1, n as int, lb as int);
                lemma_mul_is_distributive_add_other_way(lb as int, j as int, 1);
            }
            let v = read_bits(msg, bit_index, lb);
            b.push(v);
            bit_index = bit_index + lb;
            j = j + 1;
        }
        (seed, Polynomial::new(b))
    }

    /// Packs the coefficients of `u` (`ceil(log2(q))` bits each) followed by
    /// the lowest bit of each entry of `r`.
    pub fn encode_b(&self, u: &Polynomial, r: &Vec<u8>) -> (msg: Vec<u8>)
        ensures
            bits_of_bytes(msg@) == pad_to_bytes(encode_b_bits(u.coeffs@, r@, self.q as int)),
    {
        let mut writer = BitWriter::new(2048);
        let lb = log2_ceil(self.q) as usize;
        let len = u.coeffs.len();
        let mut j: usize = 0;
        while j < len
            invariant
                writer.wf(),
                j <= len,
                len == u.coeffs.len(),
                lb == spec_log2_ceil(self.q as int),
                writer@ == words_bits(u.coeffs@.subrange(0, j as int), lb as nat),
            decreases len - j,
        {
            writer.write_bits(u.coeffs[j], lb);
            assert(u.coeffs@.subrange(0, j + 1).drop_last() =~= u.coeffs@.subrange(0, j as int));
            j = j + 1;
        }
        assert(u.coeffs@.subrange(0, len as int) =~= u.coeffs@);
        let ghost prefix = writer@;
        let rlen = r.len();
        let mut k: usize = 0;
        while k < rlen
            invariant
                writer.wf(),
                k <= rlen,
                rlen == r@.len(),
                writer@ == prefix + Seq::new(k as nat, |i: int| r@[i] % 2 == 1),
            decreases rlen - k,
        {
            writer.write_bit(r[k]);
            assert(prefix + Seq::new((k + 1) as nat, |i: int| r@[i] % 2 == 1) =~= (prefix
                + Seq::new(k as nat, |i: int| r@[i] % 2 == 1)).push(r@[k as int] % 2 == 1));
            k = k + 1;
        }
        writer.finish()
    }

    /// Unpacks `n` coefficients of `ceil(log2(q))` bits and then `n` single
    /// bits, reading `msg` as `encode_b` writes it.
    pub fn decode_b(&self, msg: &[u8]) -> (res: (Polynomial, Vec<u8>))
        requires
            self.n * spec_log2_ceil(self.q as int) + self.n <= 8 * msg@.len(),
            self.n * spec_log2_ceil(self.q as int) + self.n <= usize::MAX,
        ensures
            res.0.coeffs@.len() == self.n,
            forall|j: int|
                0 <= j < self.n ==> #[trigger] res.0.coeffs@[j] == read_value(
                    bits_of_bytes(msg@),
                    j * spec_log2_ceil(self.q as int),
                    spec_log2_ceil(self.q as int),
                ),
            res.1@.len() == self.n,
            forall|j: int|
                0 <= j < self.n ==> #[trigger] res.1@[j] == read_value(
                    bits_of_bytes(msg@),
                    self.n * spec_log2_ceil(self.q as int) + j,
                    1,
                ),
    {
        let ghost bs = bits_of_bytes(msg@);
        let lb = log2_ceil(self.q) as usize;
        let n = self.n;
        let mut bit_index: usize = 0;
        let mut u: Vec<u64> = Vec::with_capacity(n);
        let mut j: usize = 0;
        while j < n
            invariant
                j <= n,
                n == self.n,
                lb == spec_log2_ceil(self.q as int),
                lb <= 64,
                bit_index == j * lb,
                n * lb + n <= 8 * msg@.len(),
                n * lb + n <= usize::MAX,
                bs == bits_of_bytes(msg@),
                u@.len() == j,
                forall|k: int| 0 <= k < j ==> #[trigger] u@[k] == read_value(bs, k * lb, lb as nat),
            decreases n - j,
        {
            proof {
                lemma_mul_inequality(j as int + 1, n as int, lb as int);
                lemma_mul_is_distributive_add_other_way(lb as int, j as int, 1);
            }
            let v = read_bits(msg, bit_index, lb);
            u.push(v);
            bit_index = bit_index + lb;
            j = j + 1;
        }
        let mut r: Vec<u8> = Vec::with_capacity(n);
        let mut k: usize = 0;
        while k < n
            invariant
                k <= n,
                n == self.n,
                bit_index == n * lb + k,
                n * lb + n <= 8 * msg@.len(),
                n * lb + n <= usize::MAX,
                bs == bits_of_bytes(msg@),
                r@.len() == k,
                forall|m: int| 0 <= m < k ==> #[trigger] r@[m] == read_value(bs, n * lb + m, 1),
            decreases n - k,
        {
            let v = read_bits(msg, bit_index, 1);
            proof {
                lemma_read_value_bound(bs, bit_index as int, 1);
                lemma2_to64();
            }
            r.push(v as u8);
            bit_index = bit_index + 1;
            k = k + 1;
        }
        (Polynomial::new(u), r)
    }
}

} // verus!
