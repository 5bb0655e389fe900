use ntt_convolve::{
    add_mod, cyclic_convolve_fast, find_primitive_root, mul_mod, negacyclic_convolve_fast,
    negative_wrapped_convolve, ntt_forward, ntt_inverse, positive_wrapped_convolve, pow_mod,
    sub_mod, ConvolveError,
};

#[test]
fn modular_arithmetic_exact_values() {
    assert_eq!(add_mod(15, 16, 17), 14);
    assert_eq!(add_mod(0, 0, 17), 0);
    assert_eq!(sub_mod(3, 5, 17), 15);
    assert_eq!(sub_mod(5, 3, 17), 2);
    assert_eq!(mul_mod(13, 14, 17), 12);
    assert_eq!(pow_mod(3, 5, 1000), 243);
    assert_eq!(pow_mod(2, 4, 17), 16);
    assert_eq!(pow_mod(5, 0, 7), 1);
    assert_eq!(pow_mod(0, 0, 7), 1);
}

#[test]
fn modular_arithmetic_near_the_word_size() {
    let q: u64 = u64::MAX - 58; // any modulus is accepted; operands stay reduced
    assert_eq!(add_mod(q - 1, q - 1, q), q - 2);
    assert_eq!(sub_mod(0, q - 1, q), 1);
    assert_eq!(mul_mod(q - 1, q - 1, q), 1);
}

#[test]
fn find_primitive_root_returns_smallest_root() {
    // 2^4 = 16 = 17 - 1 (mod 17), so 2 is a primitive 8th root of unity.
    assert_eq!(find_primitive_root(17, 4), Ok(2));
}

#[test]
fn find_primitive_root_reports_when_none_exists() {
    // No square is congruent to 6 mod 7.
    assert_eq!(find_primitive_root(7, 2), Err(ConvolveError::NoPrimitiveRoot));
}

#[test]
fn transform_round_trip_is_the_identity() {
    let p: Vec<u64> = vec![1, 2, 3, 4];
    let t = ntt_forward(&p, 17, 2, 4).unwrap();
    assert_eq!(ntt_inverse(&t, 17, 2, 4).unwrap(), p);
}

#[test]
fn transform_round_trip_with_discovered_root() {
    let q: u64 = 97; // 97 = 1 (mod 16)
    let psi = find_primitive_root(q, 8).unwrap();
    let p: Vec<u64> = vec![3, 1, 4, 1, 5, 9, 2, 6];
    let t = ntt_forward(&p, q, psi, 8).unwrap();
    assert_eq!(ntt_inverse(&t, q, psi, 8).unwrap(), p);
}

#[test]
fn transform_rejects_bad_requests() {
    let p3: Vec<u64> = vec![1, 2, 3];
    assert_eq!(ntt_forward(&p3, 17, 2, 3), Err(ConvolveError::InvalidTransformLength));
    assert_eq!(ntt_inverse(&p3, 17, 2, 3), Err(ConvolveError::InvalidTransformLength));
    let p4: Vec<u64> = vec![1, 2, 3, 4];
    assert_eq!(ntt_forward(&p4, 4, 2, 4), Err(ConvolveError::ModulusTooSmall));
    assert_eq!(ntt_inverse(&p4, 4, 2, 4), Err(ConvolveError::ModulusTooSmall));
    let big: Vec<u64> = vec![17, 0, 0, 0];
    assert_eq!(ntt_forward(&big, 17, 2, 4), Err(ConvolveError::CoefficientOutOfRange));
    assert_eq!(ntt_inverse(&big, 17, 2, 4), Err(ConvolveError::CoefficientOutOfRange));
}

#[test]
fn cyclic_fast_matches_naive_oracle() {
    let g: Vec<u32> = vec![1, 2, 3, 4];
    let h: Vec<u32> = vec![5, 6, 7, 8];
    let naive: Vec<u64> = positive_wrapped_convolve(&g, &h)
        .unwrap()
        .iter()
        .map(|&c| (c as u64) % 17)
        .collect();
    let gq: Vec<u64> = g.iter().map(|&c| c as u64).collect();
    let hq: Vec<u64> = h.iter().map(|&c| c as u64).collect();
    let fast = cyclic_convolve_fast(&gq, &hq, 17, 2, 4).unwrap();
    assert_eq!(fast, naive);
    assert_eq!(fast, vec![15, 0, 15, 9]);
}

#[test]
fn cyclic_fast_pads_shorter_operands() {
    let g: Vec<u64> = vec![1, 2];
    let h: Vec<u64> = vec![5, 6, 7, 8];
    let g32: Vec<u32> = vec![1, 2];
    let h32: Vec<u32> = vec![5, 6, 7, 8];
    let naive: Vec<u64> = positive_wrapped_convolve(&g32, &h32)
        .unwrap()
        .iter()
        .map(|&c| (c as u64) % 17)
        .collect();
    assert_eq!(cyclic_convolve_fast(&g, &h, 17, 2, 4).unwrap(), naive);
}

#[test]
fn cyclic_fast_commutes() {
    let g: Vec<u64> = vec![1, 2];
    let h: Vec<u64> = vec![5, 6, 7, 8];
    assert_eq!(
        cyclic_convolve_fast(&g, &h, 17, 2, 4).unwrap(),
        cyclic_convolve_fast(&h, &g, 17, 2, 4).unwrap()
    );
}

#[test]
fn negacyclic_fast_matches_naive_oracle() {
    let g: Vec<i32> = vec![1, 2, 3, 4];
    let h: Vec<i32> = vec![5, 6, 7, 8];
    let q: i64 = 17;
    let naive: Vec<u64> = negative_wrapped_convolve(&g, &h)
        .unwrap()
        .iter()
        .map(|&c| (((c as i64) % q + q) % q) as u64)
        .collect();
    let gq: Vec<u64> = vec![1, 2, 3, 4];
    let hq: Vec<u64> = vec![5, 6, 7, 8];
    let fast = negacyclic_convolve_fast(&gq, &hq, 17, 2, 4).unwrap();
    assert_eq!(fast, naive);
    assert_eq!(fast, vec![12, 15, 2, 9]);
}

#[test]
fn negacyclic_fast_commutes() {
    let g: Vec<u64> = vec![3, 1];
    let h: Vec<u64> = vec![5, 6, 7, 8];
    assert_eq!(
        negacyclic_convolve_fast(&g, &h, 17, 2, 4).unwrap(),
        negacyclic_convolve_fast(&h, &g, 17, 2, 4).unwrap()
    );
}

#[test]
fn fast_paths_match_naive_oracle_at_length_eight() {
    let q: u64 = 97;
    let psi = find_primitive_root(q, 8).unwrap();
    let g32: Vec<u32> = vec![3, 1, 4, 1, 5, 9, 2, 6];
    let h32: Vec<u32> = vec![2, 7, 1, 8, 2, 8, 1, 8];
    let gq: Vec<u64> = g32.iter().map(|&c| c as u64).collect();
    let hq: Vec<u64> = h32.iter().map(|&c| c as u64).collect();
    let cyclic: Vec<u64> = positive_wrapped_convolve(&g32, &h32)
        .unwrap()
        .iter()
        .map(|&c| (c as u64) % q)
        .collect();
    assert_eq!(cyclic_convolve_fast(&gq, &hq, q, psi, 8).unwrap(), cyclic);
    let gs: Vec<i32> = vec![3, 1, 4, 1, 5, 9, 2, 6];
    let hs: Vec<i32> = vec![2, 7, 1, 8, 2, 8, 1, 8];
    let negacyclic: Vec<u64> = negative_wrapped_convolve(&gs, &hs)
        .unwrap()
        .iter()
        .map(|&c| (((c as i64) % q as i64 + q as i64) % q as i64) as u64)
        .collect();
    assert_eq!(negacyclic_convolve_fast(&gq, &hq, q, psi, 8).unwrap(), negacyclic);
}

#[test]
fn fast_paths_reject_empty_operands() {
    let empty: Vec<u64> = vec![];
    let h: Vec<u64> = vec![1, 2, 3, 4];
    assert_eq!(cyclic_convolve_fast(&empty, &h, 17, 2, 4), Err(ConvolveError::EmptyInput));
    assert_eq!(cyclic_convolve_fast(&h, &empty, 17, 2, 4), Err(ConvolveError::EmptyInput));
    assert_eq!(negacyclic_convolve_fast(&empty, &h, 17, 2, 4), Err(ConvolveError::EmptyInput));
    assert_eq!(negacyclic_convolve_fast(&h, &empty, 17, 2, 4), Err(ConvolveError::EmptyInput));
}

#[test]
fn fast_paths_reject_bad_transform_requests() {
    let g: Vec<u64> = vec![1, 2, 3];
    let h: Vec<u64> = vec![4, 5, 6];
    assert_eq!(cyclic_convolve_fast(&g, &h, 17, 2, 3), Err(ConvolveError::InvalidTransformLength));
    assert_eq!(
        negacyclic_convolve_fast(&g, &h, 17, 2, 3),
        Err(ConvolveError::InvalidTransformLength)
    );
    let g4: Vec<u64> = vec![1, 2, 3, 4];
    let h4: Vec<u64> = vec![4, 5, 6, 7];
    assert_eq!(cyclic_convolve_fast(&g4, &h4, 4, 2, 4), Err(ConvolveError::ModulusTooSmall));
    assert_eq!(negacyclic_convolve_fast(&g4, &h4, 4, 2, 4), Err(ConvolveError::ModulusTooSmall));
    let big: Vec<u64> = vec![17, 0, 0, 0];
    assert_eq!(
        cyclic_convolve_fast(&big, &h4, 17, 2, 4),
        Err(ConvolveError::CoefficientOutOfRange)
    );
    assert_eq!(
        negacyclic_convolve_fast(&h4, &big, 17, 2, 4),
        Err(ConvolveError::CoefficientOutOfRange)
    );
}
