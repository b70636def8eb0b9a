use simple_crypto_lab::bitwriting::BitWriter;
use simple_crypto_lab::modular::{find_valid_omega, is_prime, is_q_valid, mod_pow};
use simple_crypto_lab::ntt::{forward_ntt, inverse_ntt, precalculate};
use simple_crypto_lab::ntt_mul::is_ntt_friendly;
use simple_crypto_lab::ntt_blocks::{
    forward_ntt_block, forward_schedule, inverse_ntt_block, inverse_schedule, narrow_words, scale_wide_words,
    widen_words,
};
use simple_crypto_lab::polys::{add_mod, sub_mod, Polynomial, ToPoly};
use simple_crypto_lab::ring::RingParams;
use simple_crypto_lab::sampling::{
    cbd_noise_from_bytes, generate_cbd_noise, generate_small_polynomial, generate_uniform_polynomial, small_from_draws,
    Noise,
};

#[test]
fn test_polynomials() {
    let params = RingParams::new(4, 17, find_valid_omega(4, 17));
    let ntt_tables = &precalculate(&params);
    let mut coeffs = vec![0u64; 4];
    coeffs[3] = 8;
    let poly1 = Polynomial::new(coeffs.clone());
    let poly2 = Polynomial::zeros(4);
    let sum = poly1.sum(&params, &poly2);
    let mul = poly1.mul(&params, &poly2);
    let mul_ntt = poly1.mul_ntt(&params, ntt_tables, &poly2);
    let scaled = poly1.scale(&params, 10);
    let divided = poly1.divide_by_constant(2);
    let reduced = poly1.reduce(2);
    let opposite = poly1.opposite(&params);
    println!();
    assert_eq!(poly1.coeffs, coeffs);
    println!("First polynomial : {:?}", poly1);
    println!();
    println!("Second polynomial : {:?}", poly2);
    assert_eq!(poly2.coeffs, vec![0u64; 4]);
    println!();
    println!("Sum is : {:?}", sum);
    assert_eq!(poly1.coeffs, sum.coeffs);
    println!();
    println!("Product is : {:?}", mul);
    assert_eq!(poly2.coeffs, mul.coeffs);
    println!();
    println!("Product with NTT is : {:?}", mul_ntt);
    assert_eq!(poly2.coeffs, mul.coeffs);
    println!();
    println!("Scaled first polynomial is : {:?}", scaled);
    let mut coeffs = vec![0u64; 4];
    coeffs[3] = (8 * 10) % params.q;
    assert_eq!(coeffs, scaled.coeffs);
    println!();
    println!("Divided first polynomial is : {:?}", divided);
    let mut coeffs = vec![0u64; 4];
    coeffs[3] = 8 / 2;
    assert_eq!(coeffs, divided.coeffs);
    println!();
    println!("Reduced first polynomial is : {:?}", reduced);
    let mut coeffs = vec![0u64; 4];
    coeffs[3] = 8 % 2;
    assert_eq!(coeffs, reduced.coeffs);
    println!();
    println!("Opposite poly1 is : {:?}", opposite);
    let mut coeffs = vec![0u64; 4];
    coeffs[3] = (-8 as i64).rem_euclid(params.q as i64) as u64;
    assert_eq!(coeffs, opposite.coeffs);
    println!()
}

#[test]
fn mod_pow_values() {
    assert_eq!(mod_pow(2, 10, 1000), 24);
    assert_eq!(mod_pow(3, 0, 7), 1);
    assert_eq!(mod_pow(3, 0, 1), 0);
    assert_eq!(mod_pow(5, 0, 1), 0);
    assert_eq!(mod_pow(7, 1, 5), 2);
    assert_eq!(mod_pow(11, 6, 12289), 1945);
    assert_eq!(mod_pow(12288, 2, 12289), 1);
    assert_eq!(mod_pow(u64::MAX as u128, 3, 1 << 64), u64::MAX as u128);
}

#[test]
fn is_prime_values() {
    let primes = [2u64, 3, 5, 17, 12289, 786_433, 2_572_289, 512_032_769];
    for p in primes {
        assert!(is_prime(p), "{} is prime", p);
    }
    let composites = [0u64, 1, 4, 9, 15, 25, 12288, 1_000_000, 4_294_967_297];
    for c in composites {
        assert!(!is_prime(c), "{} is not prime", c);
    }
}

#[test]
fn is_q_valid_values() {
    assert!(is_q_valid(1024, 12289));
    assert!(is_q_valid(256, 12289));
    assert!(is_q_valid(64, 786_433));
    assert!(!is_q_valid(8192, 12289));
    assert!(!is_q_valid(4, 15));
    assert!(!is_q_valid(0, 17));
    assert!(!is_q_valid(4, 1));
}

#[test]
fn find_valid_omega_values() {
    assert_eq!(find_valid_omega(4, 17), 9);
    assert_eq!(find_valid_omega(1024, 12289), 1945);
    assert_eq!(find_valid_omega(256, 12289), 3400);
    let omega = find_valid_omega(64, 786_433);
    assert_eq!(mod_pow(omega as u128, 64, 786_433), 786_432);
}

#[test]
fn ring_params_new_keeps_fields() {
    let params = RingParams::new(8, 17, 3);
    assert_eq!((params.n, params.q, params.omega), (8, 17, 3));
}

#[test]
fn ntt_roundtrip_gives_back_polynomial() {
    let params = RingParams::new(256, 12289, find_valid_omega(256, 12289));
    let tables = precalculate(&params);
    let coeffs: Vec<u64> = (0..256u64).map(|i| (i * 7919 + 13) % 12289).collect();
    let poly = Polynomial::new(coeffs.clone());
    let forward = forward_ntt(&params, &poly, &tables);
    assert!(forward.coeffs.iter().all(|&c| c < 12289));
    assert_ne!(forward.coeffs, coeffs);
    let back = inverse_ntt(&params, &forward, &tables);
    assert_eq!(back.coeffs, coeffs);
}

#[test]
fn precalculate_tables() {
    let params = RingParams::new(4, 17, 9);
    let tables = precalculate(&params);
    // bit-reversed powers of psi = 9: 9^0, 9^2, 9^1, 9^3
    assert_eq!(tables.twiddles, vec![1, 81 % 17, 9, 729 % 17]);
    // psi^-1 = 9^15 mod 17 = 2
    assert_eq!(tables.twiddles_inv, vec![1, 4, 2, 8]);
}

fn negacyclic(a: &[u64], b: &[u64], q: u64) -> Vec<u64> {
    let n = a.len();
    let mut r = vec![0i128; n];
    for i in 0..n {
        for j in 0..n {
            let p = (a[i] as i128) * (b[j] as i128);
            if i + j < n {
                r[i + j] += p;
            } else {
                r[i + j - n] -= p;
            }
        }
    }
    r.iter().map(|&x| x.rem_euclid(q as i128) as u64).collect()
}

#[test]
fn mul_and_mul_ntt_agree_with_negacyclic_product() {
    let params = RingParams::new(8, 17, find_valid_omega(8, 17));
    let tables = precalculate(&params);
    let a = Polynomial::new(vec![1, 2, 3, 4, 5, 6, 7, 8]);
    let b = Polynomial::new(vec![16, 0, 5, 1, 0, 0, 9, 2]);
    let expected = negacyclic(&a.coeffs, &b.coeffs, 17);
    assert_eq!(a.mul(&params, &b).coeffs, expected);
    assert_eq!(a.mul_ntt(&params, &tables, &b).coeffs, expected);
    // X * X^7 = X^8 = -1
    let mut x = vec![0u64; 8];
    x[1] = 1;
    let mut x7 = vec![0u64; 8];
    x7[7] = 1;
    let prod = Polynomial::new(x).mul(&params, &Polynomial::new(x7));
    assert_eq!(prod.coeffs, vec![16, 0, 0, 0, 0, 0, 0, 0]);
}

#[test]
fn sum_sub_pointwise_only_first_n() {
    let params = RingParams::new(2, 17, 4);
    let a = Polynomial::new(vec![10, 16, 5]);
    let b = Polynomial::new(vec![9, 3, 5]);
    assert_eq!(a.sum(&params, &b).coeffs, vec![2, 2]);
    assert_eq!(a.sub(&params, &b).coeffs, vec![1, 13]);
    assert_eq!(b.sub(&params, &a).coeffs, vec![16, 4]);
    assert_eq!(a.pointwise_mul(&params, &b).coeffs, vec![90 % 17, 48 % 17]);
}

#[test]
fn scale_opposite_reduce_divide() {
    let params = RingParams::new(4, 17, 9);
    let a = Polynomial::new(vec![0, 1, 16, 40]);
    assert_eq!(a.scale(&params, 3).coeffs, vec![0, 3, 48 % 17, 120 % 17]);
    assert_eq!(a.opposite(&params).coeffs, vec![0, 16, 1, 11]);
    assert_eq!(a.reduce(5).coeffs, vec![0, 1, 1, 0]);
    // halves round up: 1/2 -> 1, 16/3 -> 5, 40/3 -> 13
    assert_eq!(a.divide_by_constant(2).coeffs, vec![0, 1, 8, 20]);
    assert_eq!(a.divide_by_constant(3).coeffs, vec![0, 0, 5, 13]);
}

#[test]
fn zeros_and_as_bytes() {
    let z = Polynomial::zeros(3);
    assert_eq!(z.coeffs, vec![0, 0, 0]);
    let p = Polynomial::new(vec![1, 0x0102_0304_0506_0708]);
    let bytes = p.as_bytes();
    assert_eq!(bytes.len(), 16);
    let mut expected = 1u64.to_ne_bytes().to_vec();
    expected.extend_from_slice(&0x0102_0304_0506_0708u64.to_ne_bytes());
    assert_eq!(bytes, &expected[..]);
}

#[test]
fn bytes_to_poly_little_endian_words() {
    let bytes: Vec<u8> = vec![1, 0, 0, 0, 0, 0, 0, 0, 0x10, 0x20, 0x30];
    let p = (&bytes[..]).to_poly();
    assert_eq!(p.coeffs, vec![1, 0x30_2010]);
    let empty: Vec<u8> = Vec::new();
    assert_eq!((&empty[..]).to_poly().coeffs, Vec::<u64>::new());
}

#[test]
fn random_polynomial_is_binary() {
    let p = Polynomial::random(500);
    assert_eq!(p.coeffs.len(), 500);
    assert!(p.coeffs.iter().all(|&c| c <= 1));
    assert!(p.coeffs.iter().any(|&c| c == 1));
    assert!(p.coeffs.iter().any(|&c| c == 0));
}

#[test]
fn bit_writer_packs_lowest_bit_first() {
    let mut w = BitWriter::new(4);
    w.write_bit(1);
    w.write_bit(0);
    w.write_bit(3);
    w.write_bits(0b1_0110, 5);
    w.write_bits(0xFF, 3);
    let bytes = w.finish();
    // bits: 1,0,1 | 0,1,1,0,1 | 1,1,1 -> byte0 = 0b1011_0101, byte1 = 0b0000_0111
    assert_eq!(bytes, vec![0b1011_0101, 0b0000_0111]);
    let empty = BitWriter::new(0).finish();
    assert!(empty.is_empty());
}

#[test]
fn encode_decode_a_roundtrip() {
    let params = RingParams::new(8, 12289, 1);
    let mut seed = [0u8; 32];
    for (i, s) in seed.iter_mut().enumerate() {
        *s = (i * 37 + 5) as u8;
    }
    let b = Polynomial::new(vec![0, 1, 12288, 4096, 77, 9999, 12000, 3]);
    let msg = params.encode_a(&seed, &b);
    assert_eq!(msg.len(), (256 + 8 * 14 + 7) / 8);
    let (seed2, b2) = params.decode_a(&msg);
    assert_eq!(seed2, seed);
    assert_eq!(b2.coeffs, b.coeffs);
}

#[test]
fn encode_decode_b_roundtrip() {
    let params = RingParams::new(8, 12289, 1);
    let u = Polynomial::new(vec![5, 12288, 0, 1, 2, 3, 4096, 8191]);
    let r: Vec<u8> = vec![1, 0, 1, 1, 0, 0, 1, 3];
    let msg = params.encode_b(&u, &r);
    assert_eq!(msg.len(), (8 * 14 + 8 + 7) / 8);
    let (u2, r2) = params.decode_b(&msg);
    assert_eq!(u2.coeffs, u.coeffs);
    assert_eq!(r2, vec![1, 0, 1, 1, 0, 0, 1, 1]);
}

#[test]
fn cbd_noise_from_known_bytes() {
    // eta = 2: each coefficient reads 4 bits, ones among the first two minus ones among the next two
    let bytes = vec![0b0111_0011u8];
    let noise = cbd_noise_from_bytes(2, 2, &bytes);
    assert_eq!(noise.0, vec![2, 1]);
}

#[test]
fn cbd_noise_is_bounded() {
    let noise = generate_cbd_noise(1000, 3);
    assert_eq!(noise.len(), 1000);
    assert!(noise.iter().all(|&c| (-3..=3).contains(&c)));
    assert!(noise.iter().any(|&c| c != 0));
}

#[test]
fn noise_to_poly_reduces_euclidean() {
    let noise = Noise(vec![-3, 0, 2, -17]);
    assert_eq!(noise.to_poly(17).coeffs, vec![14, 0, 2, 0]);
    let noise = Noise(vec![-1, 5]);
    // 2^32 + 7 seen as an i32 is 7
    assert_eq!(noise.to_poly((1u64 << 32) + 7).coeffs, vec![6, 5]);
}

#[test]
fn small_and_uniform_polynomials() {
    let params = RingParams::new(512, 12289, 1);
    let s = generate_small_polynomial(&params);
    assert_eq!(s.coeffs.len(), 512);
    assert!(s.coeffs.iter().all(|&c| c == 0 || c == 1 || c == 12288));
    assert!(s.coeffs.iter().any(|&c| c == 12288));
    let a = generate_uniform_polynomial(&params);
    assert_eq!(a.coeffs.len(), 512);
    assert!(a.coeffs.iter().all(|&c| c < 12289));
    assert!(a.coeffs.iter().any(|&c| c > 1));
}

#[test]
fn sum_commutes_and_sub_is_undone_by_sum() {
    let params = RingParams::new(4, 17, 9);
    let a = Polynomial::new(vec![3, 16, 40, 0]);
    let b = Polynomial::new(vec![5, 2, 16, 9]);
    assert_eq!(a.sum(&params, &b).coeffs, b.sum(&params, &a).coeffs);
    let d = a.sub(&params, &b);
    let back = d.sum(&params, &b);
    assert_eq!(back.coeffs, vec![3, 16, 40 % 17, 0]);
    let zero = a.sum(&params, &a.opposite(&params));
    assert_eq!(zero.coeffs, vec![0, 0, 0, 0]);
}

#[test]
fn mul_ntt_is_ring_product_on_shipped_parameters() {
    let params = RingParams::new(64, 786_433, 368_299);
    let tables = precalculate(&params);
    let a: Vec<u64> = (0..64u64).map(|i| (i * i * 7919 + 3) % 786_433).collect();
    let b: Vec<u64> = (0..64u64).map(|i| (i * 104_729 + 11) % 786_433).collect();
    let expected = negacyclic(&a, &b, 786_433);
    let pa = Polynomial::new(a);
    let pb = Polynomial::new(b);
    assert_eq!(pa.mul_ntt(&params, &tables, &pb).coeffs, expected);
    assert_eq!(pa.mul(&params, &pb).coeffs, expected);
    let params = RingParams::new(1024, 12289, 1945);
    let tables = precalculate(&params);
    let a: Vec<u64> = (0..1024u64).map(|i| (i * 31 + 7) % 12289).collect();
    let b: Vec<u64> = (0..1024u64).map(|i| if i % 3 == 0 { 12288 } else { i % 2 }).collect();
    let expected = negacyclic(&a, &b, 12289);
    assert_eq!(Polynomial::new(a).mul_ntt(&params, &tables, &Polynomial::new(b)).coeffs, expected);
}

#[test]
fn distributivity_of_the_ring_product() {
    let params = RingParams::new(8, 17, 3);
    let a = Polynomial::new(vec![1, 5, 0, 16, 2, 2, 9, 4]);
    let a2 = Polynomial::new(vec![16, 16, 3, 1, 0, 8, 8, 1]);
    let b = Polynomial::new(vec![4, 0, 1, 0, 0, 13, 0, 2]);
    let left = a.sum(&params, &a2).mul(&params, &b);
    let right = a.mul(&params, &b).sum(&params, &a2.mul(&params, &b));
    assert_eq!(left.coeffs, right.coeffs);
}

#[test]
fn transform_by_blocks_matches_transform() {
    let params = RingParams::new(16, 97, find_valid_omega(16, 97));
    let tables = precalculate(&params);
    let q = params.q as u128;
    let poly = Polynomial::new((0..16u64).map(|k| (k * k * 7 + 3) % 97).collect());
    assert_eq!(forward_schedule(16), vec![(1, 8), (2, 4), (4, 2), (8, 1)]);
    assert_eq!(inverse_schedule(16), vec![(8, 1), (4, 2), (2, 4), (1, 8)]);
    let mut coeffs = widen_words(&poly.coeffs);
    for (m, t) in forward_schedule(16) {
        for i in 0..m {
            let block = forward_ntt_block(&coeffs[2 * i * t..2 * i * t + 2 * t], t, tables.twiddles[m + i], q);
            coeffs[2 * i * t..2 * i * t + 2 * t].copy_from_slice(&block);
        }
    }
    let forward = forward_ntt(&params, &poly, &tables);
    assert_eq!(narrow_words(&coeffs), forward.coeffs);

    for (h, t) in inverse_schedule(16) {
        for i in 0..h {
            let block = inverse_ntt_block(&coeffs[2 * i * t..2 * i * t + 2 * t], t, tables.twiddles_inv[h + i], q);
            coeffs[2 * i * t..2 * i * t + 2 * t].copy_from_slice(&block);
        }
    }
    let n_inv = mod_pow(16, q - 2, q);
    let back = scale_wide_words(&coeffs, n_inv, q);
    assert_eq!(back, inverse_ntt(&params, &forward, &tables).coeffs);
    assert_eq!(back, poly.coeffs);
}

#[test]
fn butterfly_blocks_exact_values() {
    // q = 17, w = 3: (5, 7) -> (5 + 21 mod 17, 5 - 4) = (9, 1)
    assert_eq!(forward_ntt_block(&[5, 7], 1, 3, 17), vec![9, 1]);
    // inverse: (9, 1) -> (10, (8 * 6) mod 17) = (10, 14)
    assert_eq!(inverse_ntt_block(&[9, 1], 1, 6, 17), vec![10, 14]);
    assert_eq!(scale_wide_words(&[3, 16], 5, 17), vec![15, 12]);
}

#[test]
fn coefficient_sum_and_difference() {
    assert_eq!(add_mod(15, 9, 17), 7);
    assert_eq!(add_mod(u64::MAX, u64::MAX, 1_000_003), ((u64::MAX as u128 * 2) % 1_000_003) as u64);
    assert_eq!(sub_mod(3, 9, 17), 11);
    assert_eq!(sub_mod(9, 3, 17), 6);
}

#[test]
fn small_and_binary_polynomials_from_draws() {
    let p = small_from_draws(&vec![-1, 0, 1, -1], 17);
    assert_eq!(p.coeffs, vec![16, 0, 1, 16]);
    let b = Polynomial::binary_from_draws(&vec![7, 8, u64::MAX, 0]);
    assert_eq!(b.coeffs, vec![1, 0, 1, 0]);
}

#[test]
fn encode_decode_roundtrip_above_q() {
    // ceil(log2(12289)) = 14 bits: values up to 2^14 - 1 round-trip too
    let params = RingParams::new(4, 12289, 1);
    let seed = [9u8; 32];
    let b = Polynomial::new(vec![16383, 12289, 13000, 0]);
    let (seed2, b2) = params.decode_a(&params.encode_a(&seed, &b));
    assert_eq!(seed2, seed);
    assert_eq!(b2.coeffs, b.coeffs);
    let (u2, r2) = params.decode_b(&params.encode_b(&b, &vec![1, 0, 1, 0]));
    assert_eq!(u2.coeffs, b.coeffs);
    assert_eq!(r2, vec![1, 0, 1, 0]);
}

#[test]
fn ntt_friendly_parameters() {
    assert!(is_ntt_friendly(&RingParams::new(1024, 12289, 1945)));
    assert!(is_ntt_friendly(&RingParams::new(16, 97, find_valid_omega(16, 97))));
    assert!(!is_ntt_friendly(&RingParams::new(1024, 12289, 2)));
}
