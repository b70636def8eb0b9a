use simple_crypto_lab::newhope::NewHope;
use simple_crypto_lab::ring::RingParams;

#[test]
fn recommended_parameters() {
    let nh = NewHope::recommended();
    assert_eq!((nh.params.n, nh.params.q, nh.params.omega, nh.eta), (1024, 12289, 1945, 16));
    assert_eq!(nh.ntt_precalculated.twiddles.len(), 1024);
    let other = NewHope::new(RingParams::new(256, 12289, 3400), 8);
    assert_eq!((other.params.n, other.eta), (256, 8));
    // twiddle 1 is psi^bitrev(1) = 3400^128 mod 12289
    assert_eq!(other.ntt_precalculated.twiddles[1], 1479);
}

#[test]
fn message_a_roundtrip() {
    let nh = NewHope::recommended();
    let mut seed = [0u8; 32];
    for (i, s) in seed.iter_mut().enumerate() {
        *s = (255 - i * 3) as u8;
    }
    let b: Vec<u16> = (0..1024u32).map(|i| ((i * 4099) % 12289) as u16).collect();
    let msg = nh.encode_a(&seed, &b);
    assert_eq!(msg.len(), (256 + 1024 * 14) / 8);
    let (seed2, b2) = nh.decode_a(&msg);
    assert_eq!(seed2, seed);
    assert_eq!(b2, b);
}

#[test]
fn message_b_roundtrip() {
    let nh = NewHope::recommended();
    let u: Vec<u16> = (0..1024u32).map(|i| ((i * 7 + 12000) % 12289) as u16).collect();
    let r: Vec<u8> = (0..1024u32).map(|i| (i % 3) as u8).collect();
    let msg = nh.encode_b(&u, &r);
    assert_eq!(msg.len(), (1024 * 14 + 1024) / 8);
    let (u2, r2) = nh.decode_b(&msg);
    assert_eq!(u2, u);
    let low: Vec<u8> = r.iter().map(|&x| x & 1).collect();
    assert_eq!(r2, low);
}
