use ntrulp::params::params761::P;
use ntrulp::params::params761::Q;
use ntrulp::poly::r3::R3;
use ntrulp::poly::rq::Rq;
use ntrulp::poly::v2::PolyInt;
use rand::thread_rng;
use rand::Rng;

fn centered(x: i64, m: i64) -> i64 {
    (x + (m - 1) / 2).rem_euclid(m) - (m - 1) / 2
}

fn ring_product(a: &[i64], b: &[i64], m: i64) -> Vec<i64> {
    let n = a.len();
    let mut raw = vec![0i64; 2 * n - 1];

    for i in 0..n {
        for j in 0..n {
            raw[i + j] += a[i] * b[j];
        }
    }
    for i in (n..2 * n - 1).rev() {
        raw[i - n] += raw[i];
        raw[i - n + 1] += raw[i];
    }
    raw[..n].iter().map(|c| centered(*c, m)).collect()
}

fn random_rq() -> Rq {
    let mut rng = thread_rng();
    let mut coeffs = [0i16; P];

    for c in coeffs.iter_mut() {
        *c = (rng.gen::<u32>() % Q as u32) as i16 - 2295;
    }
    Rq::from(coeffs)
}

fn random_r3() -> R3 {
    let mut rng = thread_rng();
    let mut coeffs = [0i8; P];

    for c in coeffs.iter_mut() {
        *c = (rng.gen::<u32>() % 3) as i8 - 1;
    }
    R3::from(coeffs)
}

fn one_r3() -> R3 {
    let mut coeffs = [0i8; P];

    coeffs[0] = 1;
    R3::from(coeffs)
}

#[test]
fn rq_times_one_is_unchanged() {
    let a = random_rq();

    assert_eq!(a.mult_r3(&one_r3()).coeffs, a.coeffs);
}

#[test]
fn rq_times_one_reduces_what_was_not_reduced() {
    let mut coeffs = [0i16; P];

    coeffs[0] = 4591;
    coeffs[1] = 2296;
    coeffs[2] = i16::MAX;
    coeffs[760] = i16::MIN;
    let product = Rq::from(coeffs).mult_r3(&one_r3());

    assert_eq!(product.coeffs[0], 0);
    assert_eq!(product.coeffs[1], -2295);
    assert_eq!(product.coeffs[2], 32767 - 7 * 4591);
    assert_eq!(product.coeffs[760], -32768 + 7 * 4591);
}

#[test]
fn r3_times_one_is_unchanged() {
    let a = random_r3();

    assert_eq!(a.mult(&one_r3()).coeffs, a.coeffs);
    assert_eq!(one_r3().mult(&a).coeffs, a.coeffs);
}

#[test]
fn rq_product_folds_by_the_ring_relation() {
    let a = random_rq();
    let b = random_r3();
    let wide_a: Vec<i64> = a.coeffs.iter().map(|c| *c as i64).collect();
    let wide_b: Vec<i64> = b.coeffs.iter().map(|c| *c as i64).collect();
    let expected = ring_product(&wide_a, &wide_b, Q as i64);
    let product = a.mult_r3(&b);

    for k in 0..P {
        assert_eq!(product.coeffs[k] as i64, expected[k]);
    }
}

#[test]
fn r3_product_folds_by_the_ring_relation() {
    let a = random_r3();
    let b = random_r3();
    let wide_a: Vec<i64> = a.coeffs.iter().map(|c| *c as i64).collect();
    let wide_b: Vec<i64> = b.coeffs.iter().map(|c| *c as i64).collect();
    let expected = ring_product(&wide_a, &wide_b, 3);
    let product = a.mult(&b);

    for k in 0..P {
        assert_eq!(product.coeffs[k] as i64, expected[k]);
    }
}

#[test]
fn x_to_the_p_is_x_plus_one() {
    let mut high = [0i16; P];
    let mut x = [0i8; P];

    high[P - 1] = 1;
    x[1] = 1;
    let product = Rq::from(high).mult_r3(&R3::from(x));

    assert_eq!(product.coeffs[0], 1);
    assert_eq!(product.coeffs[1], 1);
    for k in 2..P {
        assert_eq!(product.coeffs[k], 0);
    }
}

#[test]
fn mult3_and_reduction_modulo_three() {
    let mut coeffs = [0i16; P];

    coeffs[0] = 1;
    coeffs[1] = -1530;
    coeffs[2] = 2295;
    coeffs[3] = -2295;
    coeffs[4] = 765;
    let a = Rq::from(coeffs);
    let tripled = a.mult3();

    assert_eq!(tripled.coeffs[0], 3);
    assert_eq!(tripled.coeffs[1], 1);
    assert_eq!(tripled.coeffs[2], 2294);
    assert_eq!(tripled.coeffs[3], -2294);
    assert_eq!(tripled.coeffs[4], 2295);
    let small = a.r3_from_rq();

    assert_eq!(small.coeffs[0], 1);
    assert_eq!(small.coeffs[1], 0);
    assert_eq!(small.coeffs[2], 0);
    assert_eq!(small.coeffs[3], 0);
    assert_eq!(small.coeffs[4], 0);
    assert_eq!(Rq::from([5i16; P]).r3_from_rq().coeffs, [-1i8; P]);
}

#[test]
fn fixed_size_product_with_one_reduces_modulo_three() {
    let a: PolyInt<i32, 5> = PolyInt::from([7, -4, 0, 2, 196_601]);
    let one: PolyInt<i32, 5> = PolyInt::from([1, 0, 0, 0, 0]);
    let mut product: PolyInt<i32, 5> = PolyInt::new();

    product.mult_poly(&a, &one);
    assert_eq!(product.get_coeffs(), &[1, -1, 0, -1, -1]);
    product.mult_poly(&one, &a);
    assert_eq!(product.get_coeffs(), &[1, -1, 0, -1, -1]);
}

#[test]
fn fixed_size_product_folds_by_the_ring_relation() {
    let a: PolyInt<i64, 4> = PolyInt::from([1, 2, 0, -1]);
    let b: PolyInt<i64, 4> = PolyInt::from([0, 1, 1, 4]);
    let mut product: PolyInt<i64, 4> = PolyInt::new();
    let expected = ring_product(&[1, 2, 0, -1], &[0, 1, 1, 4], 3);

    product.mult_poly(&a, &b);
    assert_eq!(product.get_coeffs().to_vec(), expected);
}

#[test]
fn fixed_size_product_of_a_single_coefficient() {
    let a: PolyInt<i8, 1> = PolyInt::from([5]);
    let b: PolyInt<i8, 1> = PolyInt::from([7]);
    let mut product: PolyInt<i8, 1> = PolyInt::new();

    product.mult_poly(&a, &b);
    assert_eq!(product.get_coeffs(), &[-1]);
}

#[test]
fn fixed_size_polynomials_of_other_types() {
    let zero: PolyInt<u64, 4> = PolyInt::new();

    assert!(zero.equals_zero());
    assert!(zero.is_small());
    assert_eq!(zero.len(), 4);
    let mut a: PolyInt<u8, 3> = PolyInt::from([1, 0, 2]);

    assert!(!a.is_small());
    assert!(!a.equals_zero());
    a.mult_int(100);
    assert_eq!(a.get_coeffs(), &[100, 0, 200]);
}

#[test]
fn fixed_size_polynomials_compare_by_their_coefficients() {
    let a: PolyInt<i16, 3> = PolyInt::from([1, -2, 3]);
    let b: PolyInt<i16, 3> = PolyInt::from([1, -2, 3]);
    let c: PolyInt<i16, 3> = PolyInt::from([1, -2, 4]);

    assert!(a == b);
    assert!(a != c);
    assert!(PolyInt::<u8, 0>::new() == PolyInt::from([]));
}
