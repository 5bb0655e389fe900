use ntt_convolve::{
    linear_convolve, negative_wrapped_convolve, positive_wrapped_convolve, ConvolveError,
};

#[test]
fn linear_convolve_returns_correct_result() {
    let g: Vec<u32> = vec![1, 2, 3, 4];
    let h: Vec<u32> = vec![5, 6, 7, 8];

    let expected_result: Vec<u32> = vec![5, 16, 34, 60, 61, 52, 32];

    let _ = linear_convolve(&g, &h)
        .unwrap()
        .iter()
        .zip(expected_result.iter())
        .map(|(y, expected)| assert_eq!(y, expected));
}

#[test]
fn linear_convolve_returns_correct_result_for_differently_sized_vector() {
    let g: Vec<u32> = vec![1, 2];
    let h: Vec<u32> = vec![3, 4, 5, 6, 7, 8];

    let expected_result: Vec<u32> = vec![5, 16, 34, 60, 61, 52, 32];

    let _ = linear_convolve(&g, &h)
        .unwrap()
        .iter()
        .zip(expected_result.iter())
        .map(|(y, expected)| assert_eq!(y, expected));
}

#[test]
fn positive_wrapped_convolve_returns_correct_result() {
    let g: Vec<u32> = vec![1, 2, 3, 4];
    let h: Vec<u32> = vec![5, 6, 7, 8];

    let expected_result: Vec<u32> = vec![66, 68, 66, 60];

    let _ = positive_wrapped_convolve(&g, &h)
        .unwrap()
        .iter()
        .zip(expected_result.iter())
        .map(|(y, expected)| assert_eq!(y, expected));
}

#[test]
fn negative_wrapped_convolve_returns_correct_result() {
    let g: Vec<i32> = vec![1, 2, 3, 4];
    let h: Vec<i32> = vec![5, 6, 7, 8];

    let expected_result: Vec<i32> = vec![-56, -36, 2, 60];

    let _ = negative_wrapped_convolve(&g, &h)
        .unwrap()
        .iter()
        .zip(expected_result.iter())
        .map(|(y, expected)| assert_eq!(y, expected));
}

#[test]
fn linear_convolve_full_vector_is_exact() {
    let g: Vec<u32> = vec![1, 2, 3, 4];
    let h: Vec<u32> = vec![5, 6, 7, 8];
    assert_eq!(linear_convolve(&g, &h).unwrap(), vec![5, 16, 34, 60, 61, 52, 32]);
}

#[test]
fn positive_wrapped_convolve_full_vector_is_exact() {
    let g: Vec<u32> = vec![1, 2, 3, 4];
    let h: Vec<u32> = vec![5, 6, 7, 8];
    assert_eq!(positive_wrapped_convolve(&g, &h).unwrap(), vec![66, 68, 66, 60]);
}

#[test]
fn negative_wrapped_convolve_full_vector_is_exact() {
    let g: Vec<i32> = vec![1, 2, 3, 4];
    let h: Vec<i32> = vec![5, 6, 7, 8];
    assert_eq!(negative_wrapped_convolve(&g, &h).unwrap(), vec![-56, -36, 2, 60]);
}

#[test]
fn linear_convolve_differently_sized_operands() {
    let g: Vec<u32> = vec![1, 2];
    let h: Vec<u32> = vec![3, 4, 5, 6, 7, 8];
    assert_eq!(linear_convolve(&g, &h).unwrap(), vec![3, 10, 13, 16, 19, 22, 16]);
}

#[test]
fn linear_convolve_commutes() {
    let g: Vec<u32> = vec![1, 2];
    let h: Vec<u32> = vec![3, 4, 5, 6, 7, 8];
    assert_eq!(linear_convolve(&g, &h).unwrap(), linear_convolve(&h, &g).unwrap());
}

#[test]
fn positive_wrapped_convolve_commutes() {
    let g: Vec<u32> = vec![1, 2];
    let h: Vec<u32> = vec![3, 4, 5, 6, 7, 8];
    let r = positive_wrapped_convolve(&g, &h).unwrap();
    assert_eq!(r, positive_wrapped_convolve(&h, &g).unwrap());
    assert_eq!(r, vec![19, 10, 13, 16, 19, 22]);
}

#[test]
fn negative_wrapped_convolve_commutes() {
    let g: Vec<i32> = vec![1, 2];
    let h: Vec<i32> = vec![3, 4, 5, 6, 7, 8];
    let r = negative_wrapped_convolve(&g, &h).unwrap();
    assert_eq!(r, negative_wrapped_convolve(&h, &g).unwrap());
    assert_eq!(r, vec![-13, 10, 13, 16, 19, 22]);
}

#[test]
fn single_coefficient_scales_the_other_operand() {
    let k: Vec<u32> = vec![3];
    let h: Vec<u32> = vec![5, 6, 7];
    assert_eq!(linear_convolve(&k, &h).unwrap(), vec![15, 18, 21]);
    assert_eq!(positive_wrapped_convolve(&k, &h).unwrap(), vec![15, 18, 21]);
    let ks: Vec<i32> = vec![3];
    let hs: Vec<i32> = vec![5, -6, 7];
    assert_eq!(negative_wrapped_convolve(&ks, &hs).unwrap(), vec![15, -18, 21]);
}

#[test]
fn single_one_coefficient_is_the_identity() {
    let one: Vec<u32> = vec![1];
    let h: Vec<u32> = vec![9, 8, 7];
    assert_eq!(linear_convolve(&one, &h).unwrap(), h);
    assert_eq!(positive_wrapped_convolve(&one, &h).unwrap(), h);
    let one_s: Vec<i32> = vec![1];
    let hs: Vec<i32> = vec![-2, 5];
    assert_eq!(negative_wrapped_convolve(&one_s, &hs).unwrap(), hs);
}

#[test]
fn empty_operands_are_rejected() {
    let empty: Vec<u32> = vec![];
    let h: Vec<u32> = vec![1, 2];
    assert_eq!(linear_convolve(&empty, &h), Err(ConvolveError::EmptyInput));
    assert_eq!(linear_convolve(&h, &empty), Err(ConvolveError::EmptyInput));
    assert_eq!(linear_convolve(&empty, &empty), Err(ConvolveError::EmptyInput));
    assert_eq!(positive_wrapped_convolve(&empty, &h), Err(ConvolveError::EmptyInput));
    assert_eq!(positive_wrapped_convolve(&h, &empty), Err(ConvolveError::EmptyInput));
    let empty_s: Vec<i32> = vec![];
    let hs: Vec<i32> = vec![1, 2];
    assert_eq!(negative_wrapped_convolve(&empty_s, &hs), Err(ConvolveError::EmptyInput));
    assert_eq!(negative_wrapped_convolve(&hs, &empty_s), Err(ConvolveError::EmptyInput));
}
