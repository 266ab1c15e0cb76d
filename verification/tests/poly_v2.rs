use ntrulp::poly::v2::PolyInt;

#[test]
fn test_init_from_arr() {
    let a = PolyInt::from([1, 2, 3]);

    assert_eq!(a.get_coeffs(), &[1, 2, 3]);
}

#[test]
fn test_init_zeros() {
    let a: PolyInt<u8, 3> = PolyInt::new();

    assert_eq!(a.len(), 3);
}

#[test]
fn v2_test_is_small() {
    let coefficients_big = [0, -1, -2, 2];
    let coefficients_small = [0, -1, -1, 1];

    let poly = PolyInt::from(coefficients_big);

    assert!(!poly.is_small());

    let poly = PolyInt::from(coefficients_small);
    assert!(poly.is_small());
}

#[test]
fn v2_test_is_zeros() {
    let coeffs = [0; 716];
    let mut poly = PolyInt::from(coeffs);

    assert!(poly.equals_zero());

    poly.coeffs[1] = 1;

    assert!(!poly.equals_zero());

    poly.coeffs[1] = -1;

    assert!(!poly.equals_zero());
}

#[test]
fn v2_test_mult_poly_int() {
    let expected_result = [1 * 3, -1 * 3, 0 * 3, -1 * 3, 1 * 3];
    let mut poly = PolyInt::from([1, -1, 0, -1, 1]);

    poly.mult_int(3);

    assert_eq!(poly.get_coeffs(), &expected_result);
}

#[test]
fn test_mult_poly() {
    let coeffs = [0i16; 761];
    let mut h = PolyInt::from(coeffs);
    let g: PolyInt<i16, 761> = PolyInt::from([
        1, 0, -1, 1, 0, 0, 0, -1, 1, 1, 1, 0, -1, -1, 1, -1, -1, -1, -1, -1, 0, -1, -1, 0, 1,
        1, -1, 0, 0, 1, 0, 0, 1, -1, 0, 1, -1, 0, 0, 1, -1, -1, 0, 0, 1, 1, 1, 0, -1, -1, 1,
        -1, 1, -1, 1, 1, -1, 0, 1, 0, 1, 1, 1, 0, 1, 1, 1, -1, 0, 0, 0, 0, 1, 1, -1, -1, -1, 1,
        -1, -1, -1, -1, 0, 0, 0, -1, 0, -1, 0, -1, 1, 0, -1, 0, -1, 1, 0, -1, 0, 1, 0, -1, -1,
        1, 0, 0, 1, -1, -1, 1, -1, 1, 1, -1, 1, 1, 0, -1, 1, 1, 1, 1, 1, -1, -1, -1, 1, 1, 0,
        1, -1, -1, 0, 1, -1, -1, 1, -1, -1, 1, 1, 1, 1, 0, 0, 1, 0, -1, 0, -1, -1, -1, -1, -1,
        0, 0, -1, -1, -1, 1, -1, 1, 1, -1, -1, -1, 1, 0, 1, 0, 1, 0, -1, 1, -1, -1, 1, 1, 0,
        -1, 0, 1, -1, 1, -1, -1, 0, 1, -1, 1, 0, -1, 1, -1, -1, 0, -1, -1, 1, 0, 1, -1, 0, 0,
        -1, -1, 0, -1, 1, 0, 1, -1, 1, -1, 1, 1, 0, -1, -1, -1, 0, 0, -1, 1, -1, 0, 0, 1, -1,
        -1, 0, -1, 0, 1, 0, -1, 1, -1, 1, -1, -1, 1, -1, 0, 0, 1, 1, -1, 1, 1, 1, 0, 0, -1, 1,
        -1, 1, 1, 0, -1, 1, -1, 1, -1, -1, 0, 0, 1, 0, 0, 0, -1, -1, 1, -1, 1, 1, 1, -1, -1, 1,
        1, 1, 0, -1, -1, 1, 1, 0, -1, -1, -1, -1, 1, 0, -1, 1, 0, 1, 0, 1, 1, -1, 1, -1, 1, 1,
        -1, -1, -1, 1, -1, 1, -1, -1, 0, 1, 1, 1, -1, 0, 0, -1, 0, 0, 1, -1, 1, -1, 0, 1, 1, 1,
        1, -1, -1, 0, -1, 1, -1, 1, -1, 0, -1, -1, 0, 1, -1, 1, 1, 0, 0, 1, 0, 1, 1, -1, 1, -1,
        0, -1, 1, 0, 1, 0, 0, 1, -1, 1, 0, -1, -1, 0, -1, 1, 1, 1, -1, -1, 1, -1, 1, -1, -1, 1,
        -1, 1, 1, -1, 0, -1, 1, -1, -1, 1, 0, 0, 0, 1, -1, 1, 0, 0, -1, 0, 0, 1, 0, 1, 0, 1, 1,
        0, 0, 0, 1, 0, 1, 1, -1, 1, -1, 1, -1, -1, 1, -1, 1, 1, 1, 0, -1, 1, 1, 0, 1, 0, -1,
        -1, -1, 0, 1, -1, 1, 0, -1, -1, 1, 0, 0, -1, 0, -1, 0, -1, -1, 1, -1, 1, -1, 1, -1, -1,
        0, 1, 0, -1, 0, 1, -1, 1, 1, -1, 0, -1, -1, 1, 0, -1, 0, 0, 0, 1, 1, 1, 0, -1, 0, 1,
        -1, -1, 0, 0, 0, 0, -1, 0, 0, 1, -1, -1, 0, 0, 1, 0, 0, -1, 1, 0, -1, -1, 1, -1, 1, 1,
        -1, -1, 1, 1, 0, 1, 1, 0, 1, -1, 1, -1, 1, 1, -1, 0, 1, 0, 1, 0, -1, 0, 0, 0, 0, 1, -1,
        -1, 0, 1, -1, 0, 1, 1, 1, 0, -1, -1, -1, -1, 0, 0, 0, 0, 0, 1, -1, -1, 1, 0, 0, 0, 1,
        -1, 0, -1, -1, -1, 0, 0, 0, 1, -1, -1, 1, -1, -1, 0, -1, 1, 0, -1, 0, 1, 0, -1, 0, 0,
        0, 0, 0, 0, 0, 1, 0, -1, 1, -1, 0, -1, -1, -1, 1, 0, -1, -1, -1, 0, 0, -1, -1, -1, 0,
        -1, -1, 0, -1, 0, 1, 1, 0, -1, 1, -1, 1, -1, 1, -1, 1, 0, 1, 1, 0, 1, -1, 0, 1, 0, 1,
        0, -1, -1, -1, 0, -1, -1, 0, 0, 1, 1, -1, -1, 0, -1, 1, -1, 0, 1, 1, 1, -1, 0, 0, -1,
        0, 1, -1, 1, -1, -1, -1, 0, 1, 0, -1, 1, 1, 0, 0, -1, -1, 0, -1, -1, 1, 1, -1, 1, 0, 1,
        1, 1, -1, -1, 1, 0, -1, 1, 1, -1, -1, 1, 1, 1, -1, 0, 0, -1, -1, -1, 1, 0, 1, -1, 0, 1,
        1, 0, 0, 1, 0, 1, 1, 1, -1, 1, 1, -1, 1, -1, 0, 0, -1, -1, -1, -1, -1, 1, 1, -1, -1, 0,
        -1, -1, -1, 1, 1, 1, 0, -1, -1, 1, -1, 1, 1, 0,
    ]);
    let f3r: PolyInt<i16, 761> = PolyInt::from([
        -3, 3, 3, 0, 0, 0, 0, -3, 0, -3, 0, 0, 0, 0, -3, 0, 0, 3, 3, -3, -3, 0, 0, 0, 3, 3, 0,
        -3, 3, 0, -3, 0, 0, 3, 0, 0, 0, 0, -3, 3, 0, 3, 0, 0, 0, 0, 0, 0, 3, 3, 0, 0, -3, 3,
        -3, 0, 0, 0, 0, 0, 0, 0, 0, 3, 0, 0, 0, 0, -3, 0, 3, 0, 0, 0, 0, -3, -3, -3, 0, 0, 0,
        0, 3, 0, 0, 0, 0, 0, 0, 0, 0, -3, 3, -3, 0, 0, 3, 0, 0, 0, 0, 0, 0, -3, 0, 3, 3, 0, 0,
        -3, 0, -3, 0, 0, 0, 0, 0, 0, 3, -3, 0, 0, 0, 3, 0, 3, 0, -3, 0, -3, 3, 3, -3, 0, -3, 3,
        -3, 3, -3, 0, 0, 0, 0, 3, 0, 0, -3, 0, 0, 0, 0, 0, -3, 0, 3, 0, 0, 0, -3, 0, 3, 0, 0,
        -3, 3, 0, -3, 0, 0, 0, 0, 0, 0, 0, -3, 0, 0, 0, 0, 0, -3, 0, 0, 0, 3, 0, 0, 3, 0, 0, 0,
        0, 0, 0, 0, 0, 0, -3, -3, 0, 0, 0, 3, 3, 0, 0, 3, -3, 0, 0, -3, 0, 3, 0, 0, -3, 0, 0,
        3, -3, 0, 3, 0, 0, 0, 0, 0, 0, 0, 0, 3, -3, 0, 0, 0, 0, 0, -3, 0, 0, 3, -3, 0, -3, 0,
        0, 0, 0, -3, -3, 0, -3, -3, 0, 0, -3, -3, 0, 3, 0, 0, 0, -3, 0, 0, 3, 0, 3, 0, 3, 0, 0,
        0, 0, 0, 0, -3, 0, 0, 0, 0, 3, 0, 3, 3, 0, 0, 0, -3, -3, 0, 0, -3, -3, 3, -3, 0, 0, 0,
        -3, 0, 0, 3, -3, 3, 0, 0, 0, -3, -3, 0, -3, 0, 0, 0, -3, -3, 0, 0, -3, 0, 0, -3, 0, 0,
        0, 3, 0, 0, 0, 3, 0, 0, -3, 0, -3, 0, 3, -3, 3, -3, 0, -3, 0, 0, -3, 0, 0, 0, 0, 0, 3,
        3, 3, -3, 0, -3, 0, -3, 0, 0, 0, 0, 0, -3, 0, 0, 3, 3, 3, 3, 0, 0, 0, 3, 0, -3, 0, 0,
        0, 0, 0, 0, 3, 0, 0, -3, 3, 3, 0, 0, 3, 0, 0, 3, -3, 0, 3, 0, -3, -3, -3, 0, 0, 0, 0,
        3, 3, 0, 0, 0, 0, 0, 0, 0, 0, -3, 0, 0, 3, 0, 0, 0, 0, 3, -3, 0, -3, 0, -3, -3, 0, -3,
        -3, 0, -3, 3, 0, 0, 3, 0, 0, 0, 0, 0, 0, -3, 0, 0, -3, 0, 0, 0, 0, 0, 0, -3, -3, 0, -3,
        0, 0, 0, 0, -3, 0, 0, 3, 3, 0, 3, 0, 3, 0, 0, 0, 0, -3, 0, 0, 0, -3, 0, 3, 0, -3, 0, 0,
        0, 0, 0, 0, 3, 3, -3, 0, 0, 3, 0, 0, -3, 0, 3, 0, 0, 3, 0, -3, -3, -3, 0, 0, 3, 0, 0,
        0, 0, 0, 0, 3, -3, -3, 3, 0, 3, 0, 0, -3, -3, 3, 0, 0, 3, -3, 0, 3, 0, 0, 0, 0, 3, 0,
        0, 0, 3, -3, 0, 0, 3, 3, 3, 0, -3, -3, 0, 3, 0, 0, 0, 3, 0, 0, 3, 0, 3, 0, -3, -3, 0,
        0, -3, 0, 0, -3, 0, 0, 0, 0, 0, 3, 0, 0, 0, 0, 0, 0, 0, 3, 0, 0, 0, -3, -3, -3, 0, 0,
        0, 3, 0, -3, 0, 0, 0, 3, -3, 0, 0, 0, -3, 0, 3, 0, -3, 0, 0, -3, -3, 0, 3, 0, 0, 0, -3,
        0, -3, 0, 0, 0, 0, 0, 0, 0, 0, 0, 3, 0, 0, 0, 0, 0, 3, -3, 0, 0, 0, 3, 3, 0, 0, -3, -3,
        0, 3, -3, 0, 0, 0, 3, 0, -3, 0, 0, 0, 3, 0, 0, 0, 0, 0, 0, -3, -3, 3, -3, 0, 3, 0, 0,
        3, -3, 0, 3, 0, -3, 3, 0, 0, 3, -3, 3, 0, -3, 0, -3, 3, -3, 3, 0, 0, 0, 0, -3, -3, 0,
        3, -3, 0, 0, 0, 0, 3, 0, 0, 0, 0, 0, 3, 3, 0, 0, 0, 3, 0, 0, 0, -3, 3, 3, 3, 0, 0, 0,
        0, 0, 0, 0, 3, 0, 0, 0, 3, 3, -3, 0, 0, 0, 0, 0, -3, 0, -3, -3, 0, 0, 0, 3, -3, 0, 3,
        0, -1,
    ]);

    h.mult_poly(&f3r, &g);

    assert_eq!(
        h.coeffs,
        [
            0, 1, 0, -1, 0, 0, 1, 0, 1, 1, -1, 1, -1, 0, 0, -1, -1, -1, -1, 1, 1, -1, 1, -1, 1,
            0, 1, 0, -1, -1, 0, -1, 0, 1, -1, 0, 1, 0, -1, 0, -1, 1, 0, -1, 1, 1, -1, 1, -1, 0,
            0, 0, 0, 0, 1, 0, 1, -1, -1, -1, 1, 1, -1, -1, 1, 1, 0, 1, 0, 0, 0, -1, 1, 0, -1,
            -1, 0, 0, -1, -1, -1, 1, 0, 0, 1, 1, 1, 1, 1, 0, -1, 1, 1, 1, 0, -1, 1, 1, -1, -1,
            1, -1, 0, -1, 0, -1, 0, -1, 0, 0, 0, 1, 0, 0, 1, -1, 1, 0, 1, 1, 1, 1, 0, -1, -1,
            0, 1, -1, -1, 0, -1, 1, -1, 0, -1, 0, 0, -1, 0, 1, 1, 1, -1, 0, -1, -1, 1, 1, 1,
            -1, -1, -1, -1, 1, 0, 1, -1, -1, 0, 0, 0, 1, 0, -1, -1, 0, -1, -1, -1, -1, -1, 1,
            0, 0, -1, 0, 1, -1, 1, 1, -1, 0, 0, 0, -1, 1, -1, 0, 0, -1, 1, 0, 0, -1, 1, 1, -1,
            0, -1, -1, 0, 1, 0, 1, -1, 1, 1, 0, -1, -1, 0, 0, 0, 0, 1, -1, 1, -1, -1, 1, 0, 1,
            0, 0, 1, 0, -1, 0, -1, 1, 1, 1, -1, -1, 1, 0, 0, 0, 0, -1, 0, 0, 1, 0, -1, 1, 0, 0,
            1, 1, -1, 0, 1, 0, 0, 0, 1, -1, 1, 0, 0, 0, 0, -1, 1, 0, -1, -1, 0, 0, 1, -1, 0, 0,
            0, 1, 1, 0, -1, 0, 1, 1, -1, 1, -1, 0, 1, -1, 1, -1, -1, -1, 0, -1, 1, 0, -1, -1,
            -1, -1, 1, 0, 0, 0, 0, 1, 0, -1, -1, 0, 0, 0, 0, -1, 1, -1, 1, 1, 0, 1, 0, 1, 1, 0,
            -1, 0, 0, 0, 1, -1, 1, 1, 1, 0, -1, 1, 1, 0, 0, 0, 0, 1, 1, -1, 1, -1, 0, 0, 1, -1,
            0, -1, -1, -1, 1, 0, 0, 0, 1, 1, 0, -1, -1, -1, 0, -1, 0, 0, -1, 1, -1, 1, 1, 0, 1,
            1, 0, -1, 0, 0, 0, 0, -1, 0, 0, 0, 1, 0, 1, 1, 0, 0, -1, 0, -1, 0, 0, -1, 0, 0, -1,
            0, 1, 1, 0, -1, -1, -1, -1, -1, 1, -1, 0, 0, -1, -1, -1, 1, 0, 0, 0, 0, 0, -1, 0,
            0, 0, 1, 1, -1, 1, 0, 1, -1, -1, -1, 1, -1, -1, 1, -1, 0, 0, -1, 1, -1, 0, -1, 0,
            1, 1, 1, 1, 1, -1, 0, 0, 0, 0, 0, 0, -1, 1, -1, -1, 1, 1, -1, 0, 0, 1, 0, 1, 1, -1,
            0, -1, 1, 1, 0, 0, -1, 1, 1, -1, 1, 1, -1, 0, -1, 1, 0, 0, 0, 1, 1, 0, -1, 0, -1,
            1, 0, -1, -1, 0, 1, 0, -1, 1, -1, 0, 0, 0, 1, 0, -1, 0, 1, -1, -1, 1, -1, -1, 0, 0,
            0, 0, 1, 0, 1, -1, -1, -1, -1, 1, 1, 0, 0, 0, -1, 0, -1, 1, -1, 0, 1, -1, 1, 1, -1,
            1, -1, -1, -1, 1, 0, 0, 0, 0, -1, 0, -1, 0, -1, 0, 0, -1, 0, 1, 1, -1, -1, 1, 0, 0,
            -1, 0, -1, 0, 0, -1, 1, 1, 0, -1, 1, 1, -1, -1, 1, 1, 0, 0, 0, 0, 0, 0, -1, -1, 1,
            0, 0, 1, 1, -1, -1, 0, -1, 1, -1, -1, 1, 0, 1, -1, -1, 1, 1, -1, 1, 1, 1, -1, 1,
            -1, 1, 0, 0, 0, 0, 0, 0, 0, -1, -1, 1, -1, -1, 0, 1, -1, -1, -1, -1, 1, -1, -1, 1,
            1, -1, 1, 0, -1, 1, 0, -1, 1, 1, 0, 0, 1, -1, 1, 1, 0, 1, 0, 1, 1, -1, 0, 0, 0, -1,
            -1, 1, -1, -1, 1, 0, 1, -1, 0, 1, -1, 1, 1, -1, 0, 1, 0, 0, -1, -1, 1, 1, 0, -1, 0,
            -1, 1, 0, 1, 0, -1, 0, 1, 1, 0, 1, 0, 1, -1, -1, 0, -1, -1, 0, 1, -1, 1, -1, 0, -1,
            -1, -1, 1, 1, 0, 0, 1, 0, 0, 0, 1, 0, 1, -1, -1, -1, -1, 0, 1, 0, -1, 1, 1, -1, -1,
            0, 1, 1, -1, 1, -1, 0, 0, 0, 1, -1, -1,
        ]
    );
}
