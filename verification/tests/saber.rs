use rand::{rngs::OsRng, RngCore};
use simple_crypto_lab::modular::find_valid_omega;
use simple_crypto_lab::polys::Polynomial;
use simple_crypto_lab::ring::RingParams;
use simple_crypto_lab::sampling::{generate_uniform_polynomial, Noise};
use simple_crypto_lab::saber::encapsulation::{mac_and_shared_key, open_with_mac};
use simple_crypto_lab::saber::{
    Saber, SaberCiphertext, SaberDecapsulate, SaberEncapsulated, SaberError, SaberExportated, SaberKeypair,
};

fn public_polynomial(saber: &Saber) -> (Polynomial, [u8; 32]) {
    let a = generate_uniform_polynomial(&saber.params);
    let mut seed = [0u8; 32];
    OsRng.fill_bytes(&mut seed);
    (a, seed)
}

#[test]
fn test_encrypt_decrypt_roundtrip() {
    let saber = Saber::light();
    let (a, seed) = public_polynomial(&saber);
    let kp = saber.keygen(&a, seed);

    let msg = Polynomial::random(saber.params.n);

    let ct = saber.encrypt(&kp.public_key, &a, &msg);
    let decrypted = saber.decrypt(&kp, &ct);

    assert_eq!(msg.coeffs, decrypted.coeffs, "decrypt(encrypt(m)) != m");
}

#[test]
fn test_encapdecap() {
    let saber = Saber::fire();
    let (a, seed) = public_polynomial(&saber);
    let kp = saber.keygen(&a, seed);
    let (key, enc) = saber.encapsulate(&kp.public_key, &a);
    let recovered = match enc.decapsulate(&kp) {
        Ok(key) => key,
        Err(e) => {
            panic!("Error while decapsulating : {:?}", e)
        }
    };
    assert_eq!(key, recovered, "Error : the encapsulated key and the decapsulated key doesn't match !")
}

#[test]
fn test_encode_decode_roundtrip() {
    let saber = Saber::light();
    let params = &saber.params;

    let mut rng = OsRng;
    let mut coeffs = vec![0u64; params.n];
    for c in coeffs.iter_mut() {
        *c = rng.next_u32() as u64 & 1;
    }
    let msg = Polynomial::new(coeffs);

    let encoded = saber.encode(params, &msg);
    let decoded = saber.decode(params, &encoded);

    assert_eq!(msg.coeffs, decoded.coeffs, "encode/decode are not inverse");
}

#[test]
fn configs() {
    let t = Saber::for_test();
    assert_eq!((t.params.n, t.params.q, t.params.omega, t.eta, t.p), (1024, 12289, 1945, 2, 256));
    for (s, eta) in [(Saber::light(), 3), (Saber::classic(), 4), (Saber::fire(), 5)] {
        assert_eq!((s.params.n, s.params.q, s.params.omega, s.eta, s.p), (256, 12289, 3400, eta, 2048));
        assert_eq!(s.ntt_precalculated.twiddles.len(), 256);
    }
}

#[test]
fn round_encode_decode_compress_lift_values() {
    let params = RingParams::new(4, 100, 1);
    let saber = Saber::new(params, 2, 5);
    // ((a p + q/2) / q) mod p with p = 5, q = 100
    let r = saber.round(&params, Polynomial::new(vec![12, 9, 99, 50, 7]));
    assert_eq!(r.coeffs, vec![1, 0, 0, 3]);
    // bits times p/2 = 2
    let e = saber.encode(&params, &Polynomial::new(vec![0, 1, 1, 0]));
    assert_eq!(e.coeffs, vec![0, 2, 2, 0]);
    // [p/4, 3p/4) = [1, 3)
    let d = saber.decode(&params, &Polynomial::new(vec![0, 1, 2, 3, 4]));
    assert_eq!(d.coeffs, vec![0, 1, 1, 0]);
    let d = saber.decode(&params, &Polynomial::new(vec![6, 7, 13, 104]));
    assert_eq!(d.coeffs, vec![1, 1, 0, 0]);
    let c = saber.compress(&Polynomial::new(vec![7, u64::MAX, 1u64 << 63, 10]));
    // -1 mod 5 = 4, -2^63 mod 5 = 2
    assert_eq!(c.coeffs, vec![2, 4, 2, 0]);
    // p above i64::MAX is read as a negative divisor: u64::MAX - 1 is -2
    let mut wide = saber.clone();
    wide.p = u64::MAX - 1;
    let c = wide.compress(&Polynomial::new(vec![7, u64::MAX, 6]));
    assert_eq!(c.coeffs, vec![1, u64::MAX - 2, 0]);
    let l = saber.lift(&Polynomial::new(vec![0, 1, 4, 3]));
    assert_eq!(l.coeffs, vec![0, 20, 80, 60]);
}

#[test]
fn lift_then_round_gives_back_value() {
    let saber = Saber::light();
    let params = &saber.params;
    let coeffs: Vec<u64> = (0..256u64).map(|i| (i * 97) % 2048).collect();
    let lifted = saber.lift(&Polynomial::new(coeffs.clone()));
    let back = saber.round(params, lifted);
    assert_eq!(back.coeffs, coeffs);
}

#[test]
fn keygen_with_is_round_of_product() {
    let saber = Saber::light();
    let (a, seed) = public_polynomial(&saber);
    let s = simple_crypto_lab::sampling::generate_small_polynomial(&saber.params);
    let kp = saber.keygen_with(&a, seed, s.clone());
    let prod = a.mul(&saber.params, &s);
    let expected = saber.round(&saber.params, prod);
    assert_eq!(kp.public_key.0.coeffs, expected.coeffs);
    assert_eq!(kp.public_key.1, seed);
    assert_eq!(kp.secret_key.coeffs, s.coeffs);
    assert!(kp.public_key.0.coeffs.iter().all(|&c| c < saber.p));
}

#[test]
fn encrypt_with_zero_randomness() {
    let saber = Saber::light();
    let n = saber.params.n;
    let (a, seed) = public_polynomial(&saber);
    let kp = saber.keygen(&a, seed);
    let mut m = vec![0u64; n];
    m[3] = 1;
    let ct = saber.encrypt_with(&kp.public_key, &a, &Polynomial::new(m.clone()), Noise(vec![0; n]));
    // r = 0: u = 0 and v = encode(m)
    assert_eq!(ct.u.coeffs, vec![0u64; n]);
    let mut expected_v = vec![0u64; n];
    expected_v[3] = 1024;
    assert_eq!(ct.v.coeffs, expected_v);
    assert_eq!(saber.decrypt(&kp, &ct).coeffs, m);
}

#[test]
fn tampered_mac_is_refused() {
    let saber = Saber::light();
    let (a, seed) = public_polynomial(&saber);
    let kp = saber.keygen(&a, seed);
    let (_key, enc) = saber.encapsulate(&kp.public_key, &a);
    let mut bad = enc.clone();
    bad.mac[0] ^= 1;
    assert!(matches!(bad.decapsulate(&kp), Err(SaberError::InvalidMac)));
    let mut short = enc.clone();
    short.mac.pop();
    assert!(matches!(short.decapsulate(&kp), Err(SaberError::InvalidMac)));
}

#[test]
fn encapsulate_with_given_key() {
    let saber = Saber::light();
    let n = saber.params.n;
    let (a, seed) = public_polynomial(&saber);
    let kp = saber.keygen(&a, seed);
    let key = Polynomial::random(n);
    let (shared, enc) = saber.encapsulate_with(&kp.public_key, &a, &key, Noise(vec![0; n]));
    assert_eq!(shared, blake3::hash(key.as_bytes()).as_bytes().to_vec());
    let mut plain = kp.public_key.0.as_bytes().to_vec();
    plain.extend_from_slice(key.as_bytes());
    assert_eq!(enc.mac, blake3::hash(&plain).as_bytes().to_vec());
    assert_eq!(enc.exportated.p, saber.p);
    assert_eq!(enc.decapsulate(&kp).unwrap(), shared);
}

#[test]
fn mac_helpers() {
    let pk = [1u8, 2, 3];
    let key = [9u8, 8];
    let (mac, shared) = mac_and_shared_key(&pk, &key);
    assert_eq!(mac, blake3::hash(&[1, 2, 3, 9, 8]).as_bytes().to_vec());
    assert_eq!(shared, blake3::hash(&key).as_bytes().to_vec());
    assert_ne!(shared, key.to_vec());
    assert_eq!(open_with_mac(&pk, &key, &mac).unwrap(), shared);
    assert!(matches!(open_with_mac(&pk, &key, &shared), Err(SaberError::InvalidMac)));
    assert!(matches!(open_with_mac(&key, &pk, &mac), Err(SaberError::InvalidMac)));
}

#[test]
fn exported_parameters_rebuild_instance() {
    let saber = Saber::classic();
    let e = saber.to_export();
    assert_eq!((e.params.n, e.params.q, e.eta, e.p), (256, 12289, 4, 2048));
    let rebuilt = e.to_saber();
    assert_eq!(rebuilt.ntt_precalculated.twiddles, saber.ntt_precalculated.twiddles);
    assert_eq!(rebuilt.ntt_precalculated.twiddles_inv, saber.ntt_precalculated.twiddles_inv);
    let e2 = SaberExportated::new(RingParams::new(8, 17, find_valid_omega(8, 17)), 1, 4);
    assert_eq!((e2.params.omega, e2.eta, e2.p), (3, 1, 4));
}

#[test]
fn keypair_and_encapsulated_constructors() {
    let b = Polynomial::new(vec![1, 2]);
    let s = Polynomial::new(vec![3, 4]);
    let kp = SaberKeypair::new(b, [5u8; 32], s);
    let kp2 = kp.clone();
    assert_eq!(kp2.public_key.0.coeffs, vec![1, 2]);
    assert_eq!(kp2.public_key.1, [5u8; 32]);
    assert_eq!(kp2.secret_key.coeffs, vec![3, 4]);
    let ct = SaberCiphertext { v: Polynomial::new(vec![1]), u: Polynomial::new(vec![2]) };
    let enc = SaberEncapsulated::new(ct, vec![7, 7], Saber::light().to_export());
    assert_eq!(enc.mac, vec![7, 7]);
    assert_eq!(enc.ciphertext.u.coeffs, vec![2]);
}

#[test]
fn decoding_tolerates_noise_below_a_quarter() {
    let saber = Saber::light();
    let params = &saber.params;
    let p = saber.p as i64;
    let m: Vec<u64> = (0..256u64).map(|i| (i * 7 + i / 3) % 2).collect();
    let encoded = saber.encode(params, &Polynomial::new(m.clone()));
    let noisy: Vec<u64> = encoded
        .coeffs
        .iter()
        .enumerate()
        .map(|(i, &c)| (c as i64 + (i as i64 % 1023) - 511).rem_euclid(p) as u64)
        .collect();
    let decoded = saber.decode(params, &Polynomial::new(noisy));
    assert_eq!(decoded.coeffs, m);
}

#[test]
fn decryption_can_fail_beyond_the_rounding_noise_bound() {
    // Rounding errors of b aligned against the randomness r push the phase of
    // the first coefficient past p/4: a zero bit decrypts to one.
    let saber = Saber::for_test();
    let n = saber.params.n;
    let mut a = vec![0u64; n];
    a[0] = 12265;
    for j in 1..=100 {
        a[j] = 24;
    }
    let a = Polynomial::new(a);
    let mut s = vec![0u64; n];
    s[0] = 1;
    let kp = saber.keygen_with(&a, [0u8; 32], Polynomial::new(s));
    let msg = Polynomial::new(vec![0u64; n]);
    let ct = saber.encrypt_with(&kp.public_key, &a, &msg, Noise(vec![2; n]));
    let decrypted = saber.decrypt(&kp, &ct);
    assert_eq!(decrypted.coeffs[0], 1);
    assert!(decrypted.coeffs[1..].iter().all(|&c| c <= 1));
}
