use turbo_vec::quant::codebook::{quantize_scalar, quantize_scalar_binary, quantize_scalar_linear};

#[test]
fn linear_code_is_first_boundary_above() {
    let b = vec![10, 20, 30];
    assert_eq!(quantize_scalar_linear(&b, 5), 0);
    assert_eq!(quantize_scalar_linear(&b, 15), 1);
    assert_eq!(quantize_scalar_linear(&b, 20), 2);
    assert_eq!(quantize_scalar_linear(&b, 35), 3);
    assert_eq!(quantize_scalar_linear(&[], 35), 0);
}

#[test]
fn binary_code_is_count_below_or_equal_boundary() {
    let b = vec![10, 20, 30];
    assert_eq!(quantize_scalar_binary(&b, 5), 0);
    assert_eq!(quantize_scalar_binary(&b, 15), 1);
    assert_eq!(quantize_scalar_binary(&b, 20), 1);
    assert_eq!(quantize_scalar_binary(&b, 35), 3);
    assert_eq!(quantize_scalar_binary(&[], 35), 0);
}

#[test]
fn strategies_agree_off_boundaries_and_differ_on_them() {
    let b: Vec<u32> = (1..32).map(|i| i * 10).collect();
    for x in 0..330u32 {
        if x % 10 != 0 || x == 0 {
            assert_eq!(quantize_scalar(4, &b, x), quantize_scalar(5, &b, x));
        }
    }
    // on a boundary the scan goes past it, the search stops at it
    assert_eq!(quantize_scalar(4, &b, 50), 5);
    assert_eq!(quantize_scalar(5, &b, 50), 4);
}

#[test]
fn each_cell_midpoint_gets_its_own_code() {
    // centroids 0, 10, 20, 30 with boundaries at the midpoints
    let centroids = [0u32, 10, 20, 30];
    let boundaries = [5u32, 15, 25];
    for (i, &c) in centroids.iter().enumerate() {
        assert_eq!(quantize_scalar(2, &boundaries, c), i as u32);
        assert_eq!(quantize_scalar(6, &boundaries, c), i as u32);
    }
}

#[test]
fn binary_code_takes_first_of_equal_boundaries() {
    let b = vec![10, 20, 20, 20, 30];
    assert_eq!(quantize_scalar_binary(&b, 20), 1);
    assert_eq!(quantize_scalar_binary(&b, 21), 4);
    assert_eq!(quantize_scalar_linear(&b, 20), 4);
}

#[test]
fn codes_never_decrease_with_the_key() {
    let b = vec![10, 20, 20, 20, 30, 30, 40];
    for width in [2u8, 6u8] {
        let mut prev = 0u32;
        for x in 0..50u32 {
            let r = quantize_scalar(width, &b, x);
            assert!(r >= prev);
            prev = r;
        }
    }
}
