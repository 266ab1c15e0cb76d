use ntrulp::poly::poly::ntruprime_inv_int;
use ntrulp::poly::poly::ntruprime_mult_poly;
use ntrulp::poly::poly::NtruIntPoly;

#[test]
fn test_ntru_poly() {
    let poly = NtruIntPoly::new(761);

    assert_eq!(poly.n, 761);
    assert_eq!(poly.coeffs.len(), 761);
    assert!(poly.coeffs.iter().all(|c| (0..3).contains(c)));
}

#[test]
fn test_ntruprime_zero() {
    let poly = NtruIntPoly::from_zero(761);

    assert_eq!(poly.n, 761);
    assert_eq!(poly.coeffs, vec![0i16; 761]);
}

#[test]
fn ntruprime_inv_int_test() {
    let a: u16 = 7175;
    let mod0: u16 = 9829;
    let res = ntruprime_inv_int(a, mod0);

    assert!(res == 2885);
}

#[test]
fn test_from_zero() {
    let non_zero_poly = NtruIntPoly::new(761);
    let zero_poly = NtruIntPoly::from_zero(761);

    assert!(!non_zero_poly.equals_zero());
    assert!(zero_poly.equals_zero());
}

#[test]
fn test_get_poly_degre() {
    let zero_poly = NtruIntPoly::from_zero(740);
    let mut non_zero_poly = NtruIntPoly::from_zero(740);

    non_zero_poly.coeffs[non_zero_poly.n - 10] = 9;

    assert!(zero_poly.get_poly_degree() == 0);
    assert!(non_zero_poly.get_poly_degree() == 730);
}

#[test]
fn inv_int_gives_inverses_modulo_a_prime() {
    for a in 1u16..4591 {
        let inverse = ntruprime_inv_int(a, 4591);

        assert!(inverse < 4591);
        assert_eq!((a as u32 * inverse as u32) % 4591, 1);
    }
}

#[test]
fn inv_int_of_edge_values() {
    assert_eq!(ntruprime_inv_int(5, 0), 1);
    assert_eq!(ntruprime_inv_int(0, 7), 0);
    assert_eq!(ntruprime_inv_int(5, 1), 0);
    assert_eq!(ntruprime_inv_int(4, 6), 5);
}

#[test]
fn mult_poly_refuses_different_lengths() {
    let a = NtruIntPoly::from_zero(3);
    let b = NtruIntPoly::from_zero(4);
    let mut c = NtruIntPoly::from_zero(1);

    assert!(!ntruprime_mult_poly(&a, &b, &mut c, 3));
    assert_eq!(c.n, 1);
    assert_eq!(c.coeffs, vec![0]);
}

#[test]
fn mult_poly_folds_by_the_ring_relation() {
    let a = NtruIntPoly { n: 3, coeffs: vec![1, 2, 3] };
    let b = NtruIntPoly { n: 3, coeffs: vec![4, 5, 6] };
    let mut c = NtruIntPoly::from_zero(0);

    assert!(ntruprime_mult_poly(&a, &b, &mut c, 7));
    assert_eq!(c.n, 3);
    assert_eq!(c.coeffs, vec![(4 + 27) % 7, (13 + 27 + 18) % 7, (28 + 18) % 7]);
}

#[test]
fn mult_poly_by_one_reduces_only() {
    let a = NtruIntPoly { n: 4, coeffs: vec![9, 4, 0, 12] };
    let one = NtruIntPoly { n: 4, coeffs: vec![1, 0, 0, 0] };
    let mut c = NtruIntPoly::from_zero(4);

    assert!(ntruprime_mult_poly(&a, &one, &mut c, 5));
    assert_eq!(c.coeffs, vec![4, 4, 0, 2]);
}

#[test]
fn equals_zero_looks_at_every_coefficient() {
    assert!(!NtruIntPoly { n: 2, coeffs: vec![1, -1] }.equals_zero());
    assert!(!NtruIntPoly { n: 3, coeffs: vec![0, 0, -5] }.equals_zero());
    assert!(!NtruIntPoly { n: 2, coeffs: vec![i16::MAX, i16::MAX] }.equals_zero());
    assert!(NtruIntPoly { n: 3, coeffs: vec![0, 0, 0] }.equals_zero());
    assert!(NtruIntPoly::from_zero(0).equals_zero());
}

#[test]
fn mult_poly_refuses_different_lengths_whatever_the_operands_hold() {
    let a = NtruIntPoly { n: 2, coeffs: vec![-7, i16::MIN] };
    let b = NtruIntPoly { n: 3, coeffs: vec![-1] };
    let mut c = NtruIntPoly { n: 5, coeffs: vec![4, 4] };

    assert!(!ntruprime_mult_poly(&a, &b, &mut c, 0));
    assert!(!ntruprime_mult_poly(&a, &b, &mut c, u16::MAX));
    assert_eq!(c.n, 5);
    assert_eq!(c.coeffs, vec![4, 4]);
}
