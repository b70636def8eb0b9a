//! BFV plaintexts: a polynomial whose coefficients carry the bytes of a text
//! (or arbitrary values below `t`), with the number of coefficients in use.

use vstd::prelude::*;
use vstd::string::StringSliceAdditionalSpecFns;
use vstd::utf8::{
    decode_utf8, encode_utf8, encode_utf8_decode_utf8, encode_utf8_valid_utf8, valid_utf8,
};

use crate::bfv::config::BFV;
use crate::polys::Polynomial;

verus! {

/// The text of a UTF-8 byte string (`String::from_utf8`): std documents an
/// error exactly when the bytes are not valid UTF-8, and otherwise a string
/// holding those bytes.
#[verifier::external_body]
pub(crate) fn string_from_utf8(bytes: Vec<u8>) -> (s: Option<String>)
    ensures
        s is Some <==> valid_utf8(bytes@),
        s matches Some(text) ==> text@ == decode_utf8(bytes@),
{
    String::from_utf8(bytes).ok()
}

/// The low byte of every coefficient.
pub open spec fn low_bytes(coeffs: Seq<u64>) -> Seq<u8> {
    Seq::new(coeffs.len(), |i: int| coeffs[i] as u8)
}

/// `coeffs` with `bytes[0..count]` written from position `start` on.
pub open spec fn write_bytes(coeffs: Seq<u64>, start: int, bytes: Seq<u8>, count: int) -> Seq<u64> {
    Seq::new(
        coeffs.len(),
        |k: int|
            if start <= k < start + count {
                bytes[k - start] as u64
            } else {
                coeffs[k]
            },
    )
}

/// `k` NUL characters (U+0000).
pub open spec fn nuls(k: nat) -> Seq<char> {
    Seq::new(k, |i: int| '\0')
}

/// The UTF-8 encoding of a concatenation is the concatenation of the
/// encodings.
proof fn lemma_encode_utf8_concat(a: Seq<char>, b: Seq<char>)
    ensures
        encode_utf8(a + b) == encode_utf8(a) + encode_utf8(b),
    decreases a.len(),
{
    if a.len() == 0 {
        assert(a + b =~= b);
        assert(encode_utf8(a) =~= Seq::<u8>::empty());
        assert(encode_utf8(a) + encode_utf8(b) =~= encode_utf8(b));
    } else {
        assert((a + b).drop_first() =~= a.drop_first() + b);
        assert((a + b)[0] == a[0]);
        lemma_encode_utf8_concat(a.drop_first(), b);
        let h = vstd::utf8::encode_scalar(a[0] as u32);
        assert(h + (encode_utf8(a.drop_first()) + encode_utf8(b)) =~= (h + encode_utf8(a.drop_first()))
            + encode_utf8(b));
    }
}

/// NUL characters are encoded as zero bytes, one each.
proof fn lemma_encode_nuls(k: nat)
    ensures
        encode_utf8(nuls(k)) == Seq::new(k, |i: int| 0u8),
    decreases k,
{
    if k > 0 {
        assert(nuls(k).drop_first() =~= nuls((k - 1) as nat));
        lemma_encode_nuls((k - 1) as nat);
        let z = '\0' as u32;
        assert(z == 0);
        assert((0u32 & 0x7F) as u8 == 0) by (bit_vector);
        assert(vstd::utf8::encode_scalar(nuls(k)[0] as u32) =~= seq![0u8]);
        assert(seq![0u8] + Seq::new((k - 1) as nat, |i: int| 0u8) =~= Seq::new(k, |i: int| 0u8));
    }
}

/// A text round-trips through a plaintext: when its UTF-8 bytes fit in the
/// `n` coefficients, the plaintext that `new` builds from it decodes, and
/// gives back the text followed by NUL characters up to `n` bytes.
pub proof fn lemma_plaintext_round_trip(text: Seq<char>, n: nat, coeffs: Seq<u64>)
    requires
        encode_utf8(text).len() <= n,
        coeffs == write_bytes(Seq::new(n, |i: int| 0u64), 0, encode_utf8(text), encode_utf8(text).len() as int),
    ensures
        valid_utf8(low_bytes(coeffs)),
        decode_utf8(low_bytes(coeffs)) == text + nuls((n - encode_utf8(text).len()) as nat),
{
    let bytes = encode_utf8(text);
    let k = (n - bytes.len()) as nat;
    lemma_encode_nuls(k);
    lemma_encode_utf8_concat(text, nuls(k));
    assert(low_bytes(coeffs) =~= bytes + Seq::new(k, |i: int| 0u8));
    encode_utf8_valid_utf8(text + nuls(k));
    encode_utf8_decode_utf8(text + nuls(k));
}

/// A plaintext polynomial and the number of its leading coefficients in use.
#[derive(Clone)]
pub struct BFVPlaintext {
    pub plain: Polynomial,
    pub len: usize,
}

impl BFVPlaintext {
    /// The zero plaintext of the scheme's degree, with nothing in use.
    pub fn empty(bfv: &BFV) -> (p: Self)
        ensures
            p.plain.coeffs@ == Seq::new(bfv.params.n as nat, |i: int| 0u64),
            p.len == 0,
    {
        Self { plain: Polynomial::zeros(bfv.params.n), len: 0 }
    }

    /// Appends the bytes of `to_push`, one per coefficient, after the
    /// coefficients in use, as far as the polynomial has room.
    pub fn push(self, to_push: &str) -> (p: Self)
        requires
            self.len <= self.plain.coeffs@.len(),
        ensures
            ({
                let bytes = to_push.spec_bytes();
                let room = self.plain.coeffs@.len() - self.len;
                let count = if bytes.len() < room {
                    bytes.len() as int
                } else {
                    room
                };
                &&& p.len == self.len + count
                &&& p.plain.coeffs@ == write_bytes(self.plain.coeffs@, self.len as int, bytes, count)
            }),
    {
        let ghost old_coeffs = self.plain.coeffs@;
        let ghost start = self.len;
        let mut this = self;
        let bytes = to_push.as_bytes();
        let remaining = this.plain.coeffs.len() - this.len;
        let len_to_write = if bytes.len() < remaining {
            bytes.len()
        } else {
            remaining
        };
        let mut i: usize = 0;
        while i < len_to_write
            invariant
                len_to_write <= bytes@.len(),
                this.len == start,
                old_coeffs.len() <= usize::MAX,
                this.len + len_to_write <= old_coeffs.len(),
                i <= len_to_write,
                this.plain.coeffs@ == write_bytes(old_coeffs, start as int, bytes@, i as int),
            decreases len_to_write - i,
        {
            let idx = this.len + i;
            this.plain.coeffs.set(idx, bytes[i] as u64);
            assert(this.plain.coeffs@ =~= write_bytes(old_coeffs, start as int, bytes@, i + 1));
            i = i + 1;
        }
        this.len = this.len + len_to_write;
        this
    }

    /// The plaintext of the scheme's degree whose first coefficients are the
    /// bytes of `text` (as many as fit), the rest zero.
    pub fn new(text: &str, bfv: &BFV) -> (p: Self)
        ensures
            ({
                let bytes = text.spec_bytes();
                let n = bfv.params.n as int;
                let count = if bytes.len() < n {
                    bytes.len() as int
                } else {
                    n
                };
                &&& p.len == count
                &&& p.plain.coeffs@ == write_bytes(Seq::new(n as nat, |i: int| 0u64), 0, bytes, count)
            }),
    {
        let n = bfv.params.n;
        let mut coeffs: Vec<u64> = vec![0; n];
        let ghost zeros = coeffs@;
        let bytes = text.as_bytes();
        let len_to_write = if bytes.len() < n {
            bytes.len()
        } else {
            n
        };
        assert(zeros =~= Seq::new(n as nat, |i: int| 0u64));
        let mut i: usize = 0;
        while i < len_to_write
            invariant
                len_to_write <= bytes@.len(),
                len_to_write <= n,
                zeros.len() == n,
                i <= len_to_write,
                coeffs@ == write_bytes(zeros, 0, bytes@, i as int),
            decreases len_to_write - i,
        {
            coeffs.set(i, bytes[i] as u64);
            assert(coeffs@ =~= write_bytes(zeros, 0, bytes@, i + 1));
            i = i + 1;
        }
        Self { plain: Polynomial::new(coeffs), len: len_to_write }
    }

    /// The plaintext with the given coefficients, all `n` of them in use.
    pub fn new_from_coeffs(coeffs: Vec<u64>, bfv: &BFV) -> (p: Self)
        ensures
            p.plain.coeffs@ == coeffs@,
            p.len == bfv.params.n,
    {
        Self { plain: Polynomial::new(coeffs), len: bfv.params.n }
    }

    /// The text whose UTF-8 bytes are the low bytes of all coefficients.
    pub fn decode(&self) -> (text: String)
        requires
            valid_utf8(low_bytes(self.plain.coeffs@)),
        ensures
            text@ == decode_utf8(low_bytes(self.plain.coeffs@)),
    {
        let len = self.plain.coeffs.len();
        let mut bytes: Vec<u8> = Vec::with_capacity(len);
        let mut i: usize = 0;
        while i < len
            invariant
                len == self.plain.coeffs@.len(),
                i <= len,
                bytes@ == low_bytes(self.plain.coeffs@.subrange(0, i as int)),
            decreases len - i,
        {
            bytes.push(self.plain.coeffs[i] as u8);
            assert(bytes@ =~= low_bytes(self.plain.coeffs@.subrange(0, i + 1)));
            i = i + 1;
        }
        assert(self.plain.coeffs@.subrange(0, len as int) =~= self.plain.coeffs@);
        let text = string_from_utf8(bytes);
        match text {
            Some(s) => s,
            None => {
                assert(false);
                String::new()
            },
        }
    }
}

} // verus!
