use bulletproofs_rs::field::Scalar;
use bulletproofs_rs::pedersen_commitment::generate_n_random_points;
use bulletproofs_rs::vector_polynomial::{Coeff, InnerProduct, VectorPolynomial};

fn f(v: u64) -> Scalar {
    Scalar::from_u64(v)
}

#[test]
fn test_coeff_zero() {
    let zero_coeff = Coeff::zero(3);
    assert_eq!(zero_coeff.0.len(), 3);
    assert!(zero_coeff.0.iter().all(|x| x.eq(&Scalar::zero())));
}

#[test]
fn test_coeff_addition() {
    let a = Coeff(vec![f(1), f(2), f(3)]);
    let b = Coeff(vec![f(4), f(5), f(6)]);
    let sum = a.clone().add(b);
    assert_eq!(sum.0, vec![f(5), f(7), f(9)]);
}

#[test]
fn test_coeff_multiplication() {
    let a = Coeff(vec![f(1), f(2), f(3)]);
    let b = Coeff(vec![f(4), f(5), f(6)]);
    let product = a.clone().mul(b);

    let result = Coeff(vec![f(4), f(10), f(18)]);
    assert_eq!(product, result);
}

#[test]
fn test_vector_polynomial_creation() {
    let coeffs = vec![Coeff(vec![f(1), f(2)]), Coeff(vec![f(3), f(4)])];
    let poly = VectorPolynomial::new(coeffs);
    assert_eq!(poly.coeffs.len(), 2);
}

#[test]
fn test_vector_polynomial_evaluation() {
    let coeffs = vec![
        Coeff(vec![f(1), f(2)]), // constant term
        Coeff(vec![f(3), f(4)]), // x term
    ];
    let poly = VectorPolynomial::new(coeffs);
    let x = f(2);
    let result = poly.evaluate(&x);
    // At x = 2:
    // First component: 1 + 3*2 = 7
    // Second component: 2 + 4*2 = 10
    assert_eq!(result.0, vec![f(7), f(10)]);
}

#[test]
fn test_coeff_inner_product() {
    let coeff_a = Coeff(vec![f(2), f(4)]);
    let coeff_b = Coeff(vec![f(3), f(6)]);

    let c = coeff_a.inner_product(&coeff_b);

    assert!(c == f(30));
}

#[test]
fn test_vector_polynomial_display() {
    let coeffs = vec![Coeff(vec![f(1), f(2)]), Coeff(vec![f(3), f(4)])];
    let poly = VectorPolynomial::new(coeffs);
    let display = poly.to_string();
    assert_eq!(display, "(1, 2)x^0 + (3, 4)x^1");
}

#[test]
fn vector_polynomial_product_coefficients() {
    // l(x) = (1, 2) + (3, 4)x, r(x) = (5, 6) + (7, 8)x
    // t0 = 1·5 + 2·6 = 17, t1 = 1·7 + 2·8 + 3·5 + 4·6 = 62, t2 = 3·7 + 4·8 = 53
    let l = VectorPolynomial::new(vec![Coeff(vec![f(1), f(2)]), Coeff(vec![f(3), f(4)])]);
    let r = VectorPolynomial::new(vec![Coeff(vec![f(5), f(6)]), Coeff(vec![f(7), f(8)])]);
    let t = l.clone().mul(r.clone());
    assert_eq!(t.coeffs(), &vec![f(17), f(62), f(53)]);
    let x = f(10);
    assert_eq!(t.evaluate(&x), l.evaluate(&x).inner_product(&r.evaluate(&x)));
}

#[test]
fn coeff_helpers() {
    let ones = Coeff::one(4);
    assert_eq!(ones.0, vec![f(1); 4]);
    assert_eq!(ones.len(), 4);
    assert!(!ones.is_empty());
    assert!(Coeff::zero(0).is_empty());
    let r = Coeff::random(5);
    assert_eq!(r.len(), 5);
    assert!(r.0.iter().all(|x| *x != Scalar::zero()));
    let c = Coeff::from_slice(&[f(2), f(3)]);
    assert_eq!(c, Coeff::new(vec![f(2), f(3)]));
    assert!(c.equals(&Coeff(vec![f(2), f(3)])));
    assert!(!c.equals(&Coeff(vec![f(2)])));
    let g = generate_n_random_points("hello".to_string(), 2);
    assert!(c.commit(&g).equals(&g[0].mul(&f(2)).add(&g[1].mul(&f(3)))));
}

#[test]
fn coeff_converts_to_and_from_vectors() {
    let v = vec![f(1), f(2)];
    let c: Coeff = Coeff::from(v.clone());
    assert_eq!(c.0, v);
    let back: Vec<Scalar> = Vec::from(c);
    assert_eq!(back, v);
}
