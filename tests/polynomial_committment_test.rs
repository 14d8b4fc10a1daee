use bulletproofs_rs::error::ProofError;
use bulletproofs_rs::field::Scalar;
use bulletproofs_rs::pedersen_commitment::generate_n_random_points;
use bulletproofs_rs::polynomial::Polynomial;
use bulletproofs_rs::polynomial_commitment::{commit_polynomial, generate_proof, verify};
use rand::Rng;

fn f(v: u64) -> Scalar {
    Scalar::from_u64(v)
}

fn random_scalar() -> Scalar {
    f(rand::thread_rng().gen())
}

#[test]
fn test_commit_polyomial() {
    let g = generate_n_random_points("hello".into(), 1)[0];
    let b = generate_n_random_points("hello".into(), 1)[0];

    let coeffs = [10u64, 20, 30, 40];
    let coeffs_f: Vec<Scalar> = coeffs.iter().map(|c| f(*c)).collect();

    let poly = Polynomial::from_coefficients_slice(&coeffs_f);

    let gammas: Vec<Scalar> = (0..coeffs.len()).map(|_| random_scalar()).collect();

    let committments = commit_polynomial(&poly, &gammas, &g, &b);

    println!("{:?}", committments);
}

#[test]
fn polynomial_committment_test_test_generate_proof() {
    let g = generate_n_random_points("hello".into(), 1)[0];
    let b = generate_n_random_points("hello".into(), 1)[0];

    let coeffs = [10u64, 20, 30, 40];
    let coeffs_f: Vec<Scalar> = coeffs.iter().map(|c| f(*c)).collect();

    let poly = Polynomial::from_coefficients_slice(&coeffs_f);

    let gammas: Vec<Scalar> = (0..coeffs.len()).map(|_| random_scalar()).collect();

    let _committments = commit_polynomial(&poly, &gammas, &g, &b);

    let u = random_scalar();
    let proof = generate_proof(&gammas, &u);

    println!("{:?}", proof);
}

#[test]
fn test_verify() {
    let g = generate_n_random_points("hello".into(), 1)[0];
    let b = generate_n_random_points("hello".into(), 1)[0];

    let coeffs = [1u64, 2, 13, 17];
    let coeffs_f: Vec<Scalar> = coeffs.iter().map(|c| f(*c)).collect();

    let poly = Polynomial::from_coefficients_slice(&coeffs_f);

    let gammas: Vec<Scalar> = (0..coeffs.len()).map(|_| f(1)).collect();

    let committments = commit_polynomial(&poly, &gammas, &g, &b).unwrap();

    let random_number: u64 = rand::thread_rng().gen_range(1..100000);
    let u = f(random_number);
    let proof = generate_proof(&gammas, &u);

    let f_u = poly.evaluate(&u);
    let verification = verify(&committments, &g, &b, &u, &f_u, &proof);

    assert!(verification);
}

#[test]
fn test_ark_rng() {
    let u = random_scalar();
    let u_pow = u.pow(4);
    assert_eq!(u_pow, u.mul(&u).mul(&u).mul(&u));
}

#[test]
fn evaluation_rejects_a_tampered_blinding() {
    let g = generate_n_random_points("hello".into(), 1)[0];
    let b = generate_n_random_points("bullet".into(), 1)[0];
    let poly = Polynomial::from_coefficients_slice(&[f(1), f(2), f(13), f(17)]);
    let gammas = vec![f(1), f(1), f(1), f(1)];
    let committments = commit_polynomial(&poly, &gammas, &g, &b).unwrap();
    let u = f(rand::thread_rng().gen_range(2..100000));
    let f_u = poly.evaluate(&u);
    assert!(verify(&committments, &g, &b, &u, &f_u, &generate_proof(&gammas, &u)));
    for i in 0..4 {
        let mut tampered = gammas.clone();
        tampered[i] = f(0);
        let proof = generate_proof(&tampered, &u);
        assert!(!verify(&committments, &g, &b, &u, &f_u, &proof), "gamma {}", i);
    }
    // a wrong value is rejected too
    let wrong = f_u.add(&f(1));
    assert!(!verify(&committments, &g, &b, &u, &wrong, &generate_proof(&gammas, &u)));
}

#[test]
fn evaluation_value_is_exact() {
    // 1 + 2·3 + 13·9 + 17·27 = 583
    let poly = Polynomial::from_coefficients_slice(&[f(1), f(2), f(13), f(17)]);
    assert_eq!(poly.evaluate(&f(3)), f(583));
    let gammas = vec![f(1), f(1), f(1), f(1)];
    assert_eq!(generate_proof(&gammas, &f(3)), f(40));
}

#[test]
fn commit_polynomial_needs_one_blinding_per_coefficient() {
    let g = generate_n_random_points("hello".into(), 1)[0];
    let poly = Polynomial::from_coefficients_slice(&[f(1), f(2)]);
    assert_eq!(
        commit_polynomial(&poly, &vec![f(1)], &g, &g),
        Err(ProofError::LengthMismatch)
    );
    // trailing zero coefficients are dropped
    let trimmed = Polynomial::from_coefficients_slice(&[f(1), f(2), f(0)]);
    assert_eq!(trimmed.coeffs().len(), 2);
    let c = commit_polynomial(&trimmed, &vec![f(5), f(6)], &g, &g).unwrap();
    assert!(c[0].equals(&g.mul(&f(6))));
    assert!(c[1].equals(&g.mul(&f(8))));
}
