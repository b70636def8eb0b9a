//! Key encapsulation: a random binary key polynomial is encrypted, and a MAC
//! `blake3(bytes(b) || bytes(key))` binds it to the public key; both sides
//! derive the shared key `blake3(bytes(key))`.

use subtle::ConstantTimeEq;
use vstd::prelude::*;

use crate::ntt::tables_of;
use crate::ntt_mul::transform_ready;
use crate::polys::{lemma_precalculated_fit, words_bytes, Polynomial};
use crate::ring::is_power_of_two;
use crate::sampling::{generate_cbd_noise, is_noise, noise_poly, Noise};
use crate::saber::config::{lemma_power_of_two_even, Saber};
use crate::saber::error::SaberError;
use crate::saber::exportable_params::SaberExportated;
use crate::saber::scheme::{
    is_binary, lemma_saber_decrypt_undoes_encrypt, spec_decrypt, spec_encrypt, spec_public_key,
    spec_rounding_noise, SaberCiphertext,
};
use crate::saber::types::{SaberKeypair, SaberPublicKey};

verus! {

/// The BLAKE3 digest of a byte string.
pub uninterp spec fn blake3_digest(data: Seq<u8>) -> Seq<u8>;

/// `blake3::hash` on `data`, as a vector of its 32 output bytes. The digest is
/// named, not stated: the contract claims only that it is a function of the
/// input bytes alone and that it is 32 bytes long.
#[verifier::external_body]
fn blake3_hash(data: &[u8]) -> (digest: Vec<u8>)
    ensures
        digest@ == blake3_digest(data@),
        digest@.len() == 32,
{
    blake3::hash(data).as_bytes().to_vec()
}

/// `subtle::ConstantTimeEq::ct_eq` on byte slices, turned into a `bool`
/// (`From<Choice> for bool`): true exactly when both slices have the same
/// length and the same bytes, as the implementation for `[T]` in `subtle`
/// compares them.
#[verifier::external_body]
fn ct_eq_bytes(a: &[u8], b: &[u8]) -> (eq: bool)
    ensures
        eq == (a@ == b@),
{
    a.ct_eq(b).into()
}

/// The MAC binding key bytes to public-key bytes: `blake3(pk || key)`.
pub open spec fn spec_mac(pk_bytes: Seq<u8>, key_bytes: Seq<u8>) -> Seq<u8> {
    blake3_digest(pk_bytes + key_bytes)
}

/// The shared key derived from key bytes: `blake3(key)`.
pub open spec fn spec_shared_key(key_bytes: Seq<u8>) -> Seq<u8> {
    blake3_digest(key_bytes)
}

/// What opening with a MAC gives: the shared key when the MAC is the one
/// recomputed from the bytes, nothing otherwise.
pub open spec fn spec_open(pk_bytes: Seq<u8>, key_bytes: Seq<u8>, mac: Seq<u8>) -> Option<Seq<u8>> {
    if spec_mac(pk_bytes, key_bytes) == mac {
        Some(spec_shared_key(key_bytes))
    } else {
        None
    }
}

/// The concatenation `a || b` of two byte strings.
fn concat_bytes(a: &[u8], b: &[u8]) -> (r: Vec<u8>)
    ensures
        r@ == a@ + b@,
{
    let mut r: Vec<u8> = Vec::new();
    let mut i: usize = 0;
    while i < a.len()
        invariant
            i <= a@.len(),
            r@ == a@.subrange(0, i as int),
        decreases a@.len() - i,
    {
        r.push(a[i]);
        i = i + 1;
        assert(r@ =~= a@.subrange(0, i as int));
    }
    let mut j: usize = 0;
    while j < b.len()
        invariant
            j <= b@.len(),
            r@ == a@ + b@.subrange(0, j as int),
        decreases b@.len() - j,
    {
        r.push(b[j]);
        j = j + 1;
        assert(r@ =~= a@ + b@.subrange(0, j as int));
    }
    assert(b@.subrange(0, b@.len() as int) =~= b@);
    r
}

/// The MAC of key bytes under public-key bytes, and the shared key:
/// `(blake3(pk || key), blake3(key))`.
pub fn mac_and_shared_key(pk_bytes: &[u8], key_bytes: &[u8]) -> (r: (Vec<u8>, Vec<u8>))
    ensures
        r.0@ == spec_mac(pk_bytes@, key_bytes@),
        r.1@ == spec_shared_key(key_bytes@),
{
    let mac_plain = concat_bytes(pk_bytes, key_bytes);
    let mac = blake3_hash(mac_plain.as_slice());
    let shared_key = blake3_hash(key_bytes);
    (mac, shared_key)
}

/// `r` answers the outcome `o` of an opening: `Ok` with the shared key when
/// `o` holds one, `InvalidMac` when it holds none.
pub open spec fn answers(r: Result<Vec<u8>, SaberError>, o: Option<Seq<u8>>) -> bool {
    match r {
        Ok(key) => o == Some(key@),
        Err(e) => o is None && e is InvalidMac,
    }
}

/// Recomputes the MAC from the bytes and compares it in constant time with
/// `mac`: the shared key `blake3(key)` when they agree, `InvalidMac` when not.
pub fn open_with_mac(pk_bytes: &[u8], key_bytes: &[u8], mac: &[u8]) -> (r: Result<Vec<u8>, SaberError>)
    ensures
        answers(r, spec_open(pk_bytes@, key_bytes@, mac@)),
{
    let (expected, shared_key) = mac_and_shared_key(pk_bytes, key_bytes);
    if ct_eq_bytes(expected.as_slice(), mac) {
        Ok(shared_key)
    } else {
        Err(SaberError::InvalidMac)
    }
}

/// Opening with the MAC made for the same bytes gives the shared key made
/// for them.
pub proof fn lemma_own_mac_opens(pk_bytes: Seq<u8>, key_bytes: Seq<u8>)
    ensures
        spec_open(pk_bytes, key_bytes, spec_mac(pk_bytes, key_bytes)) == Some(spec_shared_key(key_bytes)),
{
}

/// What the peer receives: the ciphertext of the key, the MAC
/// `blake3(bytes(b) || bytes(key))`, and the parameters (without the NTT
/// tables, which are recomputed).
#[derive(Clone)]
pub struct SaberEncapsulated {
    pub ciphertext: SaberCiphertext,
    pub mac: Vec<u8>,
    pub exportated: SaberExportated,
}

impl SaberEncapsulated {
    /// The encapsulation `(ciphertext, mac, exportated)`.
    pub fn new(ciphertext: SaberCiphertext, mac: Vec<u8>, exportated: SaberExportated) -> (e: Self)
        ensures
            e.ciphertext == ciphertext,
            e.mac@ == mac@,
            e.exportated == exportated,
    {
        Self { ciphertext, mac, exportated }
    }
}

/// The MAC `mac` and the shared key `shared` are made from the key polynomial
/// `key` under the public key `b`, laid out with the byte orders `order_b`
/// and `order_key` (see `words_bytes`): `mac = blake3(bytes(b) || bytes(key))`
/// and `shared = blake3(bytes(key))`.
pub open spec fn sealed(
    b: Seq<u64>,
    key: Seq<u64>,
    order_b: bool,
    order_key: bool,
    mac: Seq<u8>,
    shared: Seq<u8>,
) -> bool {
    &&& mac == spec_mac(words_bytes(b, order_b), words_bytes(key, order_key))
    &&& shared == spec_shared_key(words_bytes(key, order_key))
}

/// `shared` and `enc` encapsulate the key polynomial `key` with randomness
/// `r` under the public key `b` and the public polynomial `a`: the
/// ciphertext is the encryption of `key`, the parameters are the instance's,
/// and the MAC and the shared key are made from the in-memory bytes of `b`
/// and of `key` (each in the machine's byte order).
pub open spec fn encapsulates(
    saber: Saber,
    b: Seq<u64>,
    a: Seq<u64>,
    key: Seq<u64>,
    r: Seq<i32>,
    shared: Seq<u8>,
    enc: SaberEncapsulated,
) -> bool {
    &&& (enc.ciphertext.v.coeffs@, enc.ciphertext.u.coeffs@) == spec_encrypt(
        saber,
        b,
        a,
        key,
        noise_poly(r, saber.params.q),
    )
    &&& enc.exportated.params == saber.params
    &&& enc.exportated.eta == saber.eta
    &&& enc.exportated.p == saber.p
    &&& exists|order_b: bool, order_key: bool| #[trigger] sealed(b, key, order_b, order_key, enc.mac@, shared)
}

impl Saber {
    /// Encapsulates the given binary key polynomial with the given
    /// randomness: returns the shared key and what the peer receives.
    pub fn encapsulate_with(
        &self,
        public_key: &SaberPublicKey,
        a: &Polynomial,
        key: &Polynomial,
        r: Noise,
    ) -> (out: (Vec<u8>, SaberEncapsulated))
        requires
            self.wf(),
            a.coeffs.len() == self.params.n,
            public_key.0.coeffs.len() == self.params.n,
            key.coeffs.len() == self.params.n,
            is_noise(r.0@, self.params.n as nat, self.eta as int),
            forall|i: int|
                0 <= i < self.params.n ==> #[trigger] public_key.0.coeffs@[i] * self.params.q <= u64::MAX,
        ensures
            encapsulates(*self, public_key.0.coeffs@, a.coeffs@, key.coeffs@, r.0@, out.0@, out.1),
    {
        let ghost rv = r.0@;
        let ciphertext = self.encrypt_with(public_key, a, key, r);
        let pk_bytes = public_key.0.as_bytes();
        let key_bytes = key.as_bytes();
        let (mac, shared_key) = mac_and_shared_key(pk_bytes, key_bytes);
        let exportated = self.to_export();
        let saber_enc = SaberEncapsulated::new(ciphertext, mac, exportated);
        proof {
            let order_b = pk_bytes@ == words_bytes(public_key.0.coeffs@, true);
            let order_key = key_bytes@ == words_bytes(key.coeffs@, true);
            assert(sealed(public_key.0.coeffs@, key.coeffs@, order_b, order_key, saber_enc.mac@, shared_key@));
        }
        (shared_key, saber_enc)
    }

    /// Encapsulates a fresh random binary key polynomial with fresh
    /// randomness: returns the shared key and what the peer receives.
    pub fn encapsulate(&self, public_key: &SaberPublicKey, a: &Polynomial) -> (out: (Vec<u8>, SaberEncapsulated))
        requires
            self.wf(),
            a.coeffs.len() == self.params.n,
            public_key.0.coeffs.len() == self.params.n,
            forall|i: int|
                0 <= i < self.params.n ==> #[trigger] public_key.0.coeffs@[i] * self.params.q <= u64::MAX,
        ensures
            exists|key: Seq<u64>, r: Seq<i32>|
                is_binary(key, self.params.n as nat) && is_noise(r, self.params.n as nat, self.eta as int)
                    && #[trigger] encapsulates(*self, public_key.0.coeffs@, a.coeffs@, key, r, out.0@, out.1),
    {
        let key = Polynomial::random(self.params.n);
        let r = generate_cbd_noise(self.params.n, self.eta);
        let ghost rv = r.0@;
        let out = self.encapsulate_with(public_key, a, &key, r);
        assert(is_binary(key.coeffs@, self.params.n as nat));
        assert(is_noise(rv, self.params.n as nat, self.eta as int));
        out
    }
}

/// Exported parameters a decapsulation can rebuild and use: a power-of-two
/// degree of at least 2, a modulus `q` in `[2, 2^32]`, and a rounding
/// modulus `p > 0` with `p q + q` and `3 p` within 64-bit words.
pub open spec fn exported_ok(e: SaberExportated) -> bool {
    &&& e.params.n >= 2
    &&& is_power_of_two(e.params.n as int)
    &&& 2 <= e.params.q <= 0x1_0000_0000
    &&& e.p > 0
    &&& e.p * e.params.q + e.params.q <= u64::MAX
    &&& 3 * e.p <= u64::MAX
}

/// `saber` is an instance rebuilt from the exported parameters `e`: the same
/// parameters, with the NTT tables computed from them.
pub open spec fn rebuilt_from(saber: Saber, e: SaberExportated) -> bool {
    &&& saber.params == e.params
    &&& saber.eta == e.eta
    &&& saber.p == e.p
    &&& tables_of(saber.params, saber.ntt_precalculated)
}

/// What opening `enc` with `keypair` gives when the instance `saber` decrypts
/// the key polynomial and the public key and the decrypted polynomial are
/// laid out with the byte orders `order_b` and `order_key`: the shared key
/// when the transmitted MAC is `blake3(bytes(b) || bytes(m))`, nothing
/// otherwise.
pub open spec fn decapsulation(
    enc: SaberEncapsulated,
    keypair: SaberKeypair,
    saber: Saber,
    order_b: bool,
    order_key: bool,
) -> Option<Seq<u8>> {
    let m = spec_decrypt(saber, keypair.secret_key.coeffs@, enc.ciphertext.v.coeffs@, enc.ciphertext.u.coeffs@);
    spec_open(words_bytes(keypair.public_key.0.coeffs@, order_b), words_bytes(m, order_key), enc.mac@)
}

/// Opens an encapsulation with a key pair.
pub trait SaberDecapsulate {
    /// The encapsulation can be opened with `keypair`.
    spec fn can_decapsulate(&self, keypair: &SaberKeypair) -> bool;

    /// Decrypts the key, checks the MAC and derives the shared key.
    fn decapsulate(&self, keypair: &SaberKeypair) -> (r: Result<Vec<u8>, SaberError>)
        requires
            self.can_decapsulate(keypair),
    ;
}

impl SaberDecapsulate for SaberEncapsulated {
    /// The parameters are usable, and the key pair and the ciphertext have
    /// `n` coefficients, those of `u` small enough to be lifted to Z_q.
    open spec fn can_decapsulate(&self, keypair: &SaberKeypair) -> bool {
        let n = self.exportated.params.n;
        &&& exported_ok(self.exportated)
        &&& keypair.secret_key.coeffs@.len() == n
        &&& self.ciphertext.u.coeffs@.len() == n
        &&& n <= self.ciphertext.v.coeffs@.len()
        &&& forall|i: int|
            0 <= i < n ==> #[trigger] self.ciphertext.u.coeffs@[i] * self.exportated.params.q
                <= u64::MAX
    }

    /// Rebuilds the instance, decrypts the key polynomial `m`, and opens
    /// with the transmitted MAC the in-memory bytes of `b` and of `m` (each in
    /// the machine's byte order): `Ok(blake3(bytes(m)))` when the MAC is
    /// `blake3(bytes(b) || bytes(m))`, `InvalidMac` otherwise.
    fn decapsulate(&self, keypair: &SaberKeypair) -> (r: Result<Vec<u8>, SaberError>)
        ensures
            exists|saber: Saber, order_b: bool, order_key: bool|
                rebuilt_from(saber, self.exportated) && answers(
                    r,
                    #[trigger] decapsulation(*self, *keypair, saber, order_b, order_key),
                ),
    {
        proof {
            lemma_power_of_two_even(self.exportated.params.n as int);
        }
        let saber = self.exportated.to_saber();
        proof {
            lemma_precalculated_fit(saber.params, saber.ntt_precalculated);
        }
        let poly = saber.decrypt(keypair, &self.ciphertext);
        let key_bytes = poly.as_bytes();
        let pk_bytes = keypair.public_key.0.as_bytes();
        let r = open_with_mac(pk_bytes, key_bytes, self.mac.as_slice());
        proof {
            let order_b = pk_bytes@ == words_bytes(keypair.public_key.0.coeffs@, true);
            let order_key = key_bytes@ == words_bytes(poly.coeffs@, true);
            assert(answers(r, decapsulation(*self, *keypair, saber, order_b, order_key)));
        }
        r
    }
}

/// Key agreement: an encapsulation of the binary key polynomial `key` with
/// randomness `r`, made under the public key `b = round(a s)` of `keypair`,
/// opens with `keypair` to the encapsulator's shared key, when decryption
/// recovers the key (every coefficient `d` of the rounding noise satisfies
/// `|d| p < q (p/4 - 1)`, as in `lemma_saber_decrypt_undoes_encrypt`) and
/// both sides lay out each polynomial in the same byte order.
pub proof fn lemma_decapsulation_recovers_shared_key(
    saber: Saber,
    rebuilt: Saber,
    keypair: SaberKeypair,
    a: Seq<u64>,
    key: Seq<u64>,
    r: Seq<i32>,
    shared: Seq<u8>,
    enc: SaberEncapsulated,
    order_b: bool,
    order_key: bool,
)
    requires
        saber.wf(),
        transform_ready(saber.params, saber.ntt_precalculated),
        saber.p >= 4,
        2 * saber.p <= saber.params.q,
        is_binary(key, saber.params.n as nat),
        a.len() == saber.params.n,
        keypair.secret_key.coeffs@.len() == saber.params.n,
        r.len() == saber.params.n,
        keypair.public_key.0.coeffs@ == spec_public_key(saber, a, keypair.secret_key.coeffs@),
        forall|i: int|
            0 <= i < saber.params.n ==> (if #[trigger] spec_rounding_noise(
                saber,
                a,
                keypair.secret_key.coeffs@,
                noise_poly(r, saber.params.q),
            )[i] < 0 {
                -spec_rounding_noise(saber, a, keypair.secret_key.coeffs@, noise_poly(r, saber.params.q))[i]
            } else {
                spec_rounding_noise(saber, a, keypair.secret_key.coeffs@, noise_poly(r, saber.params.q))[i]
            }) * saber.p < saber.params.q * (saber.p / 4 - 1),
        encapsulates(saber, keypair.public_key.0.coeffs@, a, key, r, shared, enc),
        sealed(keypair.public_key.0.coeffs@, key, order_b, order_key, enc.mac@, shared),
        rebuilt_from(rebuilt, enc.exportated),
    ensures
        decapsulation(enc, keypair, rebuilt, order_b, order_key) == Some(shared),
{
    let s = keypair.secret_key.coeffs@;
    let b = keypair.public_key.0.coeffs@;
    let rp = noise_poly(r, saber.params.q);
    assert(rp.len() == saber.params.n);
    lemma_saber_decrypt_undoes_encrypt(saber, a, s, key, rp);
    let (v, u) = spec_encrypt(saber, b, a, key, rp);
    assert(enc.ciphertext.v.coeffs@ == v && enc.ciphertext.u.coeffs@ == u);
    assert(spec_decrypt(rebuilt, s, v, u) == spec_decrypt(saber, s, v, u));
    lemma_own_mac_opens(words_bytes(b, order_b), words_bytes(key, order_key));
}

} // verus!
