use simple_crypto_lab::bfv::{find_valid_q, BFVCiphertext, BFVPlaintext, BFV};
use simple_crypto_lab::polys::Polynomial;
use simple_crypto_lab::sampling::Noise;
use std::hash::{Hash, Hasher};
use std::time::Instant;

//For separated key generation : a single function, so that it isn't to loud in the tests
fn generate_keys(bfv: &BFV) -> (Polynomial, Polynomial, Polynomial) {
    let s = bfv.generate_secret_key();
    let a = bfv.generate_public_a();
    let b = bfv.generate_public_b(&a, &s);
    (a, b, s)
}

//For asserting a plaintext and it's decoded one
fn assert_plaintext_eq(got: &Polynomial, expected: &Polynomial, n_check: usize) {
    for i in 0..n_check.min(got.coeffs.len()) {
        assert_eq!(
            got.coeffs[i], expected.coeffs[i],
            "Coefficient mismatch at index {}: got {}, expected {}",
            i, got.coeffs[i], expected.coeffs[i]
        );
    }
}


#[test]
//Basic test for only encryption + decryption
fn basic() {
    let bfv = BFV::for_medium(); 
    let (public_a, public_b, secret_s) = generate_keys(&bfv);

    let message = BFVPlaintext::new(
        "Hello, this is BFV scheme. This basic test is here to ensure that we can encrypt special characters, as #{[|@*$ù%§! and others, like µ~'</&œ. If you want to see it totally, use for_large or for_medium.",
        &bfv
    );

    let start = Instant::now();

    let ciphertext = bfv.encrypt(&message, &public_a, &public_b);
    let decrypted = bfv.decrypt(&ciphertext, &secret_s);

    println!("Recovered: {}", decrypted);
    println!("Elapsed: {:?}", start.elapsed());

    assert_eq!(
        bfv.backend_decrypt(&ciphertext, &secret_s).coeffs,
        message.plain.coeffs,
        "Decryption mismatch"
    );
}


//Homomorphic tests

#[test]
fn test_cipher_addition() {
    let bfv = BFV::for_test();
    let (pk_a, pk_b, sk) = generate_keys(&bfv);
    let n = bfv.params.n;

    let s1 = String::from_utf8(vec![126u8; n.min(50)]).unwrap();
    let s2 = String::from_utf8(vec![126u8; n.min(50)]).unwrap();

    let pt1 = BFVPlaintext::new(&s1, &bfv);
    let pt2 = BFVPlaintext::new(&s2, &bfv);

    let ct1 = bfv.encrypt(&pt1, &pk_a, &pk_b);
    let ct2 = bfv.encrypt(&pt2, &pk_a, &pk_b);

    let ct_sum = bfv.sum_ciphertexts(ct1, ct2);
    let result = bfv.backend_decrypt(&ct_sum, &sk);

    for i in 0..n.min(50) {
        assert_eq!(result.coeffs[i], 252, "Addition failed at index {}", i);
    }

    let s3 = String::from_utf8(vec![64u8; 50]).unwrap();
    let pt3 = BFVPlaintext::new(&s3, &bfv);
    let pt4 = BFVPlaintext::new(&s3, &bfv);

    let ct3 = bfv.encrypt(&pt3, &pk_a, &pk_b);
    let ct4 = bfv.encrypt(&pt4, &pk_a, &pk_b);

    let ct_sum2 = bfv.sum_ciphertexts(ct3, ct4);
    let result2 = bfv.backend_decrypt(&ct_sum2, &sk);

    for i in 0..50 {
        assert_eq!(result2.coeffs[i], 128, "Addition failed at index {}", i);
    }
}

#[test]
fn test_add_cipher_plain() {
    let bfv = BFV::for_test();
    let (pk_a, pk_b, sk) = generate_keys(&bfv);
    let n = bfv.params.n;

    let pt1 = BFVPlaintext::new_from_coeffs(vec![60u64; n], &bfv);
    let pt2 = BFVPlaintext::new_from_coeffs(vec![30u64; n], &bfv);

    let ct1 = bfv.encrypt(&pt1, &pk_a, &pk_b);
    let result = bfv.backend_decrypt(
        &bfv.sum_ciphertext_and_plaintext(&ct1, &pt2),
        &sk
    );

    for i in 0..n.min(50) {
        assert_eq!(result.coeffs[i], 90, "C+P addition failed at index {}", i);
    }
}

#[test]
fn test_mul_cipher_plain() {
    let bfv = BFV::for_test();
    let (pk_a, pk_b, sk) = generate_keys(&bfv);
    let n = bfv.params.n;

    let pt1 = BFVPlaintext::new_from_coeffs(vec![10u64; n], &bfv);

    let mut scalar = vec![0u64; n];
    scalar[0] = 3;
    let pt_scalar = BFVPlaintext::new_from_coeffs(scalar, &bfv);

    let ct1 = bfv.encrypt(&pt1, &pk_a, &pk_b);

    let result = bfv.backend_decrypt(
        &bfv.mul_ciphertext_and_plaintext(&ct1, &pt_scalar),
        &sk
    );

    for i in 0..n.min(50) {
        assert_eq!(result.coeffs[i], 30, "C*P multiplication failed at index {}", i);
    }
}

#[test]
fn test_add_then_mul() {
    let bfv = BFV::for_test();
    let (pk_a, pk_b, sk) = generate_keys(&bfv);

    let pt_a = BFVPlaintext::new_from_coeffs(vec![20u64; bfv.params.n], &bfv);
    let pt_b = BFVPlaintext::new_from_coeffs(vec![10u64; bfv.params.n], &bfv);

    let mut scalar = vec![0u64; bfv.params.n];
    scalar[0] = 3;
    let pt_s = BFVPlaintext::new_from_coeffs(scalar, &bfv);

    let ct_sum = bfv.sum_ciphertexts(
        bfv.encrypt(&pt_a, &pk_a, &pk_b),
        bfv.encrypt(&pt_b, &pk_a, &pk_b),
    );

    let ct_res = bfv.mul_ciphertext_and_plaintext(&ct_sum, &pt_s);
    let result = bfv.backend_decrypt(&ct_res, &sk);

    for i in 0..50 {
        assert_eq!(result.coeffs[i], 90, "(A+B)*C failed at index {}", i);
    }
}

#[test]
fn test_mul_then_add() {
    let bfv = BFV::for_test();
    let (pk_a, pk_b, sk) = generate_keys(&bfv);

    let pt5 = BFVPlaintext::new_from_coeffs(vec![5u64; bfv.params.n], &bfv);
    let pt7 = BFVPlaintext::new_from_coeffs(vec![7u64; bfv.params.n], &bfv);

    let mut s = vec![0u64; bfv.params.n];
    s[0] = 4;
    let pt_s = BFVPlaintext::new_from_coeffs(s, &bfv);

    let ct_mul = bfv.mul_ciphertext_and_plaintext(
        &bfv.encrypt(&pt5, &pk_a, &pk_b),
        &pt_s,
    );

    let ct_res = bfv.sum_ciphertexts(ct_mul, bfv.encrypt(&pt7, &pk_a, &pk_b));
    let result = bfv.backend_decrypt(&ct_res, &sk);

    for i in 0..50 {
        assert_eq!(result.coeffs[i], 27, "A*B+C failed at index {}", i);
    }
}

#[test]
fn test_chained_additions() {
    let bfv = BFV::for_test();
    let (pk_a, pk_b, sk) = generate_keys(&bfv);

    let pt = BFVPlaintext::new_from_coeffs(vec![1u64; bfv.params.n], &bfv);

    let mut acc = bfv.encrypt(&pt, &pk_a, &pk_b);

    for _ in 1..10 {
        acc = bfv.sum_ciphertexts(
            acc,
            bfv.encrypt(&pt, &pk_a, &pk_b)
        );
    }

    let result = bfv.backend_decrypt(&acc, &sk);

    for i in 0..50 {
        assert_eq!(result.coeffs[i], 10, "Chained addition failed at index {}", i);
    }
}

#[test]
fn test_edge_zero() {
    let bfv = BFV::for_test();
    let (pk_a, pk_b, sk) = generate_keys(&bfv);

    let pt_x = BFVPlaintext::new_from_coeffs(vec![128u64; bfv.params.n], &bfv);
    let pt_z = BFVPlaintext::new_from_coeffs(vec![0u64; bfv.params.n], &bfv);

    let ct = bfv.sum_ciphertexts(
        bfv.encrypt(&pt_x, &pk_a, &pk_b),
        bfv.encrypt(&pt_z, &pk_a, &pk_b),
    );

    let result = bfv.backend_decrypt(&ct, &sk);

    for i in 0..50 {
        assert_eq!(result.coeffs[i], 128, "Zero addition failed at index {}", i);
    }
}

#[test]
fn test_edge_max_value() {
    let bfv = BFV::for_test();
    let (pk_a, pk_b, sk) = generate_keys(&bfv);

    let pt = BFVPlaintext::new_from_coeffs(vec![255u64; bfv.params.n], &bfv);
    let ct = bfv.encrypt(&pt, &pk_a, &pk_b);
    let result = bfv.backend_decrypt(&ct, &sk);

    for i in 0..50 {
        assert_eq!(result.coeffs[i], 255, "Max value decryption failed at index {}", i);
    }
}

#[test]
fn test_edge_add_one_to_max() {
    let bfv = BFV::for_test();
    let (pk_a, pk_b, sk) = generate_keys(&bfv);

    let t = bfv.t;

    let pt_max = BFVPlaintext::new_from_coeffs(vec![t - 1; bfv.params.n], &bfv);
    let pt_one = BFVPlaintext::new_from_coeffs(vec![1u64; bfv.params.n], &bfv);

    let ct = bfv.sum_ciphertexts(
        bfv.encrypt(&pt_max, &pk_a, &pk_b),
        bfv.encrypt(&pt_one, &pk_a, &pk_b),
    );

    let result = bfv.backend_decrypt(&ct, &sk);

    for i in 0..50 {
        assert_eq!(result.coeffs[i], 0, "Overflow wrap failed at index {}", i);
    }
}

// "Roundtrip" tests

#[test]
fn test_roundtrip_full_coeffs() {
    let bfv = BFV::for_test();
    let (pk_a, pk_b, sk) = generate_keys(&bfv);
    let n = bfv.params.n;

    let coeffs: Vec<u64> = (0..n).map(|i| (i % 200) as u64).collect();
    let plaintext = BFVPlaintext::new_from_coeffs(coeffs.clone(), &bfv);

    let ciphertext = bfv.encrypt(&plaintext, &pk_a, &pk_b);
    let recovered = bfv.backend_decrypt(&ciphertext, &sk);

    assert_eq!(recovered.coeffs, plaintext.plain.coeffs, "Full roundtrip failed");
}

#[test]
fn test_roundtrip_random_small_values() {
    let bfv = BFV::for_test();
    let (pk_a, pk_b, sk) = generate_keys(&bfv);
    let n = bfv.params.n;

    let mut rng = std::collections::hash_map::DefaultHasher::new();
    let coeffs: Vec<u64> = (0..n)
        .map(|i| {
            i.hash(&mut rng);
            (rng.finish() % (bfv.t / 2)) as u64
        })
        .collect();

    let plaintext = BFVPlaintext::new_from_coeffs(coeffs.clone(), &bfv);
    let ciphertext = bfv.encrypt(&plaintext, &pk_a, &pk_b);
    let recovered = bfv.backend_decrypt(&ciphertext, &sk);

    assert_plaintext_eq(&recovered, &plaintext.plain, n);
}

#[test]
fn test_roundtrip_binary_plaintext() {
    let bfv = BFV::for_test();
    let (pk_a, pk_b, sk) = generate_keys(&bfv);
    let n = bfv.params.n;

    // Binary plaintext: suited to repeated operations
    let coeffs: Vec<u64> = (0..n).map(|i| (i % 2) as u64).collect();
    let plaintext = BFVPlaintext::new_from_coeffs(coeffs.clone(), &bfv);

    let ciphertext = bfv.encrypt(&plaintext, &pk_a, &pk_b);
    let recovered = bfv.backend_decrypt(&ciphertext, &sk);

    assert_eq!(recovered.coeffs, plaintext.plain.coeffs, "Binary roundtrip failed");
}

//Noise "budget" tests :

#[test]
fn test_noise_budget_additions() {
    let bfv = BFV::for_medium(); 
    let (pk_a, pk_b, sk) = generate_keys(&bfv);
    let n = bfv.params.n;

    let pt = BFVPlaintext::new_from_coeffs(vec![1u64; n], &bfv);
    let mut ct = bfv.encrypt(&pt, &pk_a, &pk_b);

    let mut success_count = 0;
    for i in 1..=100 {
        ct = bfv.sum_ciphertexts(ct.clone(), ct.clone());
        let result = bfv.backend_decrypt(&ct, &sk);
        
        let expected = (1u64 << i.min(7)) % bfv.t; 
        
        if result.coeffs[0] == expected {
            success_count = i;
        } else {
            println!("Decryption failed after {} additions: got {}, expected {}", 
                     i, result.coeffs[0], expected);
            break;
        }
    }

    println!("Successful additions before noise failure: {}", success_count);
    assert!(success_count >= 5, "Noise budget too small: failed after {} additions", success_count);
}

#[test]
fn test_noise_budget_multiplications() {
    let bfv = BFV::for_large(); 
    let (pk_a, pk_b, sk) = generate_keys(&bfv);
    let n = bfv.params.n;

    let mut m = vec![0u64; n];
    m[0] = 2;  
    let pt = BFVPlaintext::new_from_coeffs(m, &bfv);

    let mut scalar = vec![0u64; n];
    scalar[0] = 2;  
    let pt_scalar = BFVPlaintext::new_from_coeffs(scalar, &bfv);
    
    let mut ct = bfv.encrypt(&pt, &pk_a, &pk_b);

    let mut success_count = 0;
    for i in 1..=15 {
        ct = bfv.mul_ciphertext_and_plaintext(&ct, &pt_scalar);
        let result = bfv.backend_decrypt(&ct, &sk);
        
        let expected = (2u64.pow(i as u32 + 1)) % bfv.t;
        
        if result.coeffs[0] == expected {
            success_count = i;
        } else {
            println!("Decryption failed after {} multiplications: got {}, expected {}", 
                     i, result.coeffs[0], expected);
            break;
        }
    }

    println!("Successful multiplications before noise failure: {}", success_count);
    assert!(success_count >= 8, "Failed after {} multiplications", success_count);
}

#[test]
fn test_noise_budget_mixed_operations() {
    let bfv = BFV::for_test();
    let (pk_a, pk_b, sk) = generate_keys(&bfv);
    let n = bfv.params.n;

    let pt_base = BFVPlaintext::new_from_coeffs(vec![3u64; n], &bfv);
    let pt_add = BFVPlaintext::new_from_coeffs(vec![1u64; n], &bfv);
    let pt_mul = BFVPlaintext::new_from_coeffs(vec![2u64; n], &bfv);

    let mut ct = bfv.encrypt(&pt_base, &pk_a, &pk_b);
    let mut operations = 0;

    for i in 0..15 {
        if i % 2 == 0 {
            ct = bfv.sum_ciphertexts(ct.clone(), bfv.encrypt(&pt_add, &pk_a, &pk_b));
        } else {
            ct = bfv.mul_ciphertext_and_plaintext(&ct, &pt_mul);
        }
        operations += 1;

        let result = bfv.backend_decrypt(&ct, &sk);
        assert!(result.coeffs[0] < bfv.t, "Decryption overflow after {} ops", operations);
    }

    println!("Completed {} mixed operations without decryption failure", operations);
}

//Noise estimation tests

#[test]
fn test_noise_estimation_growth() {
    let bfv = BFV::for_test();
    let (pk_a, pk_b, sk) = generate_keys(&bfv);
    let n = bfv.params.n;

    let pt = BFVPlaintext::new_from_coeffs(vec![1u64; n], &bfv);
    let mut ct = bfv.encrypt(&pt, &pk_a, &pk_b);

    let mut noises = Vec::new();
    for i in 0..15 {
        let noise = bfv.estimate_noise(&sk, &bfv.params, &ct);
        noises.push(noise);
        println!("After {} additions, estimated noise: {}", i, noise);
        ct = bfv.sum_ciphertexts(ct.clone(), ct.clone());
    }

    assert!(noises[10] >= noises[0], "Noise should grow with operations");
}

#[test]
fn test_noise_vs_delta_threshold() {
    let bfv = BFV::for_test();
    let (pk_a, pk_b, sk) = generate_keys(&bfv);
    let n = bfv.params.n;

    let delta = bfv.params.q / bfv.t;
    let threshold = delta / 2;  

    let pt = BFVPlaintext::new_from_coeffs(vec![1u64; n], &bfv);
    let mut ct = bfv.encrypt(&pt, &pk_a, &pk_b);

    for i in 0..50 {
        let noise = bfv.estimate_noise(&sk, &bfv.params, &ct);
        
        if noise < threshold {
            // Decryption should work
            let result = bfv.backend_decrypt(&ct, &sk);
            assert!(result.coeffs[0] < bfv.t, "Decryption failed while noise < threshold");
        } else {
            println!("Noise exceeded threshold ({}) after {} additions: {}", threshold, i, noise);
            break;
        }
        
        ct = bfv.sum_ciphertexts(ct.clone(), ct.clone());
    }
}


//Parameters validation tests


#[test]
fn test_valid_configurations() {
    BFV::for_test();   
    BFV::for_medium(); 
    BFV::for_large();  
}

#[test]
fn test_parameter_consistency() {
    let bfv = BFV::for_test();
    
    assert!(bfv.params.n.is_power_of_two());
    assert!(bfv.t >= 2 && bfv.t < bfv.params.q);
    assert!(bfv.eta >= 1 && bfv.eta <= 16);
    
    assert_eq!(bfv.ntt_precalculated.twiddles.len(), bfv.params.n);
    assert_eq!(bfv.ntt_precalculated.twiddles_inv.len(), bfv.params.n);
}

//Other tests :

#[test]
fn test_empty_plaintext() { //Just encrypt empty plaintexts
    let bfv = BFV::for_test();
    let (pk_a, pk_b, sk) = generate_keys(&bfv);
    
    let pt = BFVPlaintext::new_from_coeffs(vec![0u64; bfv.params.n], &bfv);
    let ct = bfv.encrypt(&pt, &pk_a, &pk_b);
    let result = bfv.backend_decrypt(&ct, &sk);
    
    for i in 0..50 {
        assert_eq!(result.coeffs[i], 0, "Empty plaintext decryption failed");
    }
}

#[test]
fn test_single_coefficient_nonzero() { 
    let bfv = BFV::for_test();
    let (pk_a, pk_b, sk) = generate_keys(&bfv);
    let n = bfv.params.n;
    
    let mut coeffs = vec![0u64; n];
    coeffs[n/2] = 123; 
    
    let pt = BFVPlaintext::new_from_coeffs(coeffs.clone(), &bfv);
    let ct = bfv.encrypt(&pt, &pk_a, &pk_b);
    let result = bfv.backend_decrypt(&ct, &sk);
    
    assert_eq!(result.coeffs[n/2], 123, "Single coefficient decryption failed");
}

#[test]
fn test_deterministic_encryption_with_same_randomness() {
    // BFV is probabilistic : even with the same keys, because of the noise, a plaintext shouldn't give two same ciphertexts
    
    let bfv = BFV::for_test();
    let (pk_a, pk_b, sk) = generate_keys(&bfv);
    
    let pt = BFVPlaintext::new_from_coeffs(vec![42u64; bfv.params.n], &bfv);
    
    let ct1 = bfv.encrypt(&pt, &pk_a, &pk_b);
    let ct2 = bfv.encrypt(&pt, &pk_a, &pk_b);
    
    assert_ne!(ct1.c0.coeffs, ct2.c0.coeffs, "Encryption should be probabilistic");
    
    let res1 = bfv.backend_decrypt(&ct1, &sk);
    let res2 = bfv.backend_decrypt(&ct2, &sk);
    assert_eq!(res1.coeffs, res2.coeffs, "Decryption should be deterministic");
}


#[test]
fn find_valid_q_values() {
    assert_eq!(find_valid_q(64, 256, 3072), 788_353);
    assert_eq!(find_valid_q(1024, 256, 10000), 2_572_289);
    assert_eq!(find_valid_q(4, 2, 1), 17);
    assert_eq!(find_valid_q(1024, 256, 48), 18_433);
}

#[test]
fn config_values() {
    let t = BFV::for_test();
    assert_eq!((t.params.n, t.params.q, t.params.omega, t.t, t.eta), (64, 786_433, 368_299, 256, 2));
    let m = BFV::for_medium();
    assert_eq!((m.params.n, m.params.q, m.params.omega, m.t, m.eta), (1024, 2_572_289, 457_185, 256, 4));
    let l = BFV::for_large();
    assert_eq!((l.params.n, l.params.q, l.params.omega, l.t, l.eta), (4096, 512_032_769, 431_951_560, 512, 8));
}

#[test]
fn plaintext_new_push_decode() {
    let bfv = BFV::for_test();
    let pt = BFVPlaintext::new("Hi", &bfv);
    assert_eq!(pt.len, 2);
    assert_eq!(pt.plain.coeffs.len(), 64);
    assert_eq!(&pt.plain.coeffs[..3], &[72, 105, 0]);
    let pt = pt.push(" you");
    assert_eq!(pt.len, 6);
    let text = pt.decode();
    assert!(text.starts_with("Hi you"));
    assert_eq!(text.len(), 64);
    let empty = BFVPlaintext::empty(&bfv);
    assert_eq!(empty.len, 0);
    assert!(empty.plain.coeffs.iter().all(|&c| c == 0));
    let long = "x".repeat(100);
    let pt = BFVPlaintext::new(&long, &bfv);
    assert_eq!(pt.len, 64);
    let pt = pt.push("more");
    assert_eq!(pt.len, 64);
}

#[test]
fn decrypt_gives_back_text() {
    let bfv = BFV::for_test();
    let (a, b, s) = generate_keys(&bfv);
    let pt = BFVPlaintext::new("verified ✓", &bfv);
    let ct = bfv.encrypt(&pt, &a, &b);
    let text = bfv.decrypt(&ct, &s);
    assert!(text.starts_with("verified ✓"));
    assert_eq!(text.trim_end_matches('\0'), "verified ✓");
}

#[test]
fn noise_threshold_is_half_delta() {
    let bfv = BFV::for_test();
    assert_eq!(bfv.noise_threshold(), (786_433 / 256) / 2);
}

#[test]
fn fresh_noise_is_below_threshold() {
    let bfv = BFV::for_test();
    let (a, b, s) = generate_keys(&bfv);
    let pt = BFVPlaintext::new_from_coeffs(vec![7u64; bfv.params.n], &bfv);
    let ct = bfv.encrypt(&pt, &a, &b);
    let noise = bfv.estimate_noise(&s, &bfv.params, &ct);
    assert!(noise < bfv.noise_threshold());
}

#[test]
fn keys_have_expected_shape() {
    let bfv = BFV::for_test();
    let s = bfv.generate_secret_key();
    assert!(s.coeffs.iter().all(|&c| c == 0 || c == 1 || c == bfv.params.q - 1));
    let a = bfv.generate_public_a();
    assert!(a.coeffs.iter().all(|&c| c < bfv.params.q));
    let b = bfv.generate_public_b(&a, &s);
    assert_eq!(b.coeffs.len(), bfv.params.n);
    assert!(b.coeffs.iter().all(|&c| c < bfv.params.q));
}

#[test]
fn encrypt_with_zero_noise_is_deterministic() {
    let bfv = BFV::for_test();
    let (a, b, s) = generate_keys(&bfv);
    let n = bfv.params.n;
    let pt = BFVPlaintext::new_from_coeffs(vec![5u64; n], &bfv);
    let u = bfv.generate_secret_key();
    let c1 = bfv.encrypt_with(&pt, &a, &b, &u, Noise(vec![0; n]), Noise(vec![0; n]));
    let c2 = bfv.encrypt_with(&pt, &a, &b, &u, Noise(vec![0; n]), Noise(vec![0; n]));
    assert_eq!(c1.c0.coeffs, c2.c0.coeffs);
    assert_eq!(c1.c1.coeffs, c2.c1.coeffs);
    assert_eq!(bfv.backend_decrypt(&c1, &s).coeffs, vec![5u64; n]);
    // c1 = a u exactly when e2 = 0
    let au = a.mul_ntt(&bfv.params, &bfv.ntt_precalculated, &u);
    assert_eq!(c1.c1.coeffs, au.coeffs);
}

#[test]
fn public_b_with_zero_noise_is_a_times_s() {
    let bfv = BFV::for_test();
    let s = bfv.generate_secret_key();
    let a = bfv.generate_public_a();
    let b = bfv.public_b_with_noise(&a, &s, Noise(vec![0; bfv.params.n]));
    let mut expected = a.mul(&bfv.params, &s);
    expected.coeffs.truncate(bfv.params.n);
    assert_eq!(b.coeffs, expected.coeffs);
}

#[test]
fn homomorphic_sum_wraps_modulo_t() {
    let bfv = BFV::for_test();
    let (a, b, s) = generate_keys(&bfv);
    let n = bfv.params.n;
    let pt1 = BFVPlaintext::new_from_coeffs(vec![200u64; n], &bfv);
    let pt2 = BFVPlaintext::new_from_coeffs(vec![100u64; n], &bfv);
    let ct = bfv.sum_ciphertext_and_plaintext(&bfv.encrypt(&pt1, &a, &b), &pt2);
    assert_eq!(bfv.backend_decrypt(&ct, &s).coeffs, vec![44u64; n]);
}

#[test]
fn decoding_tolerates_small_noise() {
    let bfv = BFV::for_test();
    let q = bfv.params.q;
    let delta = q / bfv.t;
    let n = bfv.params.n;
    let (_, _, s) = generate_keys(&bfv);
    // c1 = 0 makes the phase equal to c0
    let m: Vec<u64> = (0..n as u64).map(|i| (i * 37) % bfv.t).collect();
    let noise: Vec<i64> = (0..n as i64).map(|i| (i % 7 - 3) * 100).collect();
    let c0: Vec<u64> = m
        .iter()
        .zip(noise.iter())
        .map(|(&mi, &e)| ((delta * mi) as i64 + e).rem_euclid(q as i64) as u64)
        .collect();
    let ct = BFVCiphertext { c0: Polynomial::new(c0), c1: Polynomial::zeros(n) };
    assert_eq!(bfv.backend_decrypt(&ct, &s).coeffs, m);
}

#[test]
fn decryption_can_fail_beyond_the_noise_bound() {
    // With s = u = 1 + X + ... + X^(n-1), e = 4 and e1 = e2 = -4 everywhere,
    // the noise of the first coefficient is 4 - 4 * 1023 - 4 - 4088 = -8180,
    // beyond delta / 2 = 5024 for these parameters: 0 decrypts to 255.
    let bfv = BFV::for_medium();
    let n = bfv.params.n;
    let a = Polynomial::zeros(n);
    let s = Polynomial::new(vec![1; n]);
    let b = bfv.public_b_with_noise(&a, &s, Noise(vec![4; n]));
    let msg = BFVPlaintext::new_from_coeffs(vec![0; n], &bfv);
    let u = Polynomial::new(vec![1; n]);
    let ct = bfv.encrypt_with(&msg, &a, &b, &u, Noise(vec![-4; n]), Noise(vec![-4; n]));
    assert_eq!(bfv.noise_threshold(), 5024);
    let m = bfv.backend_decrypt(&ct, &s);
    assert_eq!(m.coeffs[0], 255);
}

#[test]
fn plaintext_round_trip_pads_with_nul() {
    let bfv = BFV::for_test();
    let n = bfv.params.n;
    let text = "héllo";
    let p = BFVPlaintext::new(text, &bfv);
    let mut expected = text.to_string();
    expected.push_str(&"\0".repeat(n - text.len()));
    assert_eq!(p.decode(), expected);
}
