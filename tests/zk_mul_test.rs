use bulletproofs_rs::field::Scalar;
use bulletproofs_rs::pedersen_commitment::generate_n_random_points;
use bulletproofs_rs::polynomial::Polynomial;
use bulletproofs_rs::zk_mul::{commit_polynomials, generate_proof, verify_proof};
use rand::Rng;

fn f(v: u64) -> Scalar {
    Scalar::from_u64(v)
}

#[test]
fn test_polynomial_committment() {
    let g_vec = generate_n_random_points("hello".to_string(), 3);

    let l_x = Polynomial::from_coefficients_slice(&[f(1), f(2)]);
    let r_x = Polynomial::from_coefficients_slice(&[f(3), f(4)]);

    let (committment, blinding_factors) = commit_polynomials(&l_x, &r_x, &g_vec);

    assert_eq!(committment.len(), 5);
    assert_eq!(blinding_factors.len(), 5);
}

#[test]
fn zk_mul_test_test_generate_proof() {
    let g_vec = generate_n_random_points("hello".to_string(), 3);

    let l_x = Polynomial::from_coefficients_slice(&[f(1), f(2)]);
    let r_x = Polynomial::from_coefficients_slice(&[f(3), f(4)]);

    let (_committment, blinding_factors) = commit_polynomials(&l_x, &r_x, &g_vec);

    let random_u = rand::thread_rng().gen_range(1..10000000);
    let u = f(random_u);

    let proof = generate_proof(&blinding_factors, &u);

    let b = &blinding_factors;
    assert_eq!(proof.0, b[0].add(&b[1].mul(&u)));
    assert_eq!(proof.1, b[2].add(&b[3].mul(&u)).add(&b[4].mul(&u).mul(&u)));
}

#[test]
fn zk_mul_test_test_verification() {
    let g_vec = generate_n_random_points("hello".to_string(), 3);

    let l_x = Polynomial::from_coefficients_slice(&[f(1), f(2)]);
    let r_x = Polynomial::from_coefficients_slice(&[f(3), f(4)]);

    let t_x = l_x.mul(&r_x);

    let (committments, blinding_factors) = commit_polynomials(&l_x, &r_x, &g_vec);

    let random_u = rand::thread_rng().gen_range(1..10000000);
    let u = f(random_u);

    let proofs = generate_proof(&blinding_factors, &u);

    let l_u = l_x.evaluate(&u);
    let r_u = r_x.evaluate(&u);
    let t_u = t_x.evaluate(&u);

    let poly_evaluations = (l_u, r_u, t_u);

    let verification = verify_proof(&committments, &g_vec, &proofs, &u, &poly_evaluations);

    assert!(verification)
}

#[test]
fn zk_mul_scenario_exact_evaluations() {
    let g_vec = generate_n_random_points("hello".to_string(), 3);
    let l_x = Polynomial::from_coefficients_slice(&[f(1), f(2)]);
    let r_x = Polynomial::from_coefficients_slice(&[f(3), f(4)]);
    let t_x = l_x.mul(&r_x);
    assert_eq!(t_x.coeffs(), &vec![f(3), f(10), f(8)]);

    let u_raw: u64 = rand::thread_rng().gen_range(1..10000000);
    let u = f(u_raw);
    let l_u = l_x.evaluate(&u);
    let r_u = r_x.evaluate(&u);
    let t_u = t_x.evaluate(&u);
    assert_eq!(l_u, f(1 + 2 * u_raw));
    assert_eq!(r_u, f(3 + 4 * u_raw));
    let t_expected = 3u128 + 10 * u_raw as u128 + 8 * (u_raw as u128) * (u_raw as u128);
    assert_eq!(t_u, f(t_expected as u64));

    let (committments, blinding_factors) = commit_polynomials(&l_x, &r_x, &g_vec);
    let proofs = generate_proof(&blinding_factors, &u);
    assert!(verify_proof(&committments, &g_vec, &proofs, &u, &(l_u, r_u, t_u)));

    // a claimed product that is not l(u)·r(u) is rejected
    assert!(!verify_proof(&committments, &g_vec, &proofs, &u, &(l_u, r_u, t_u.add(&f(1)))));
    // a wrong blinding combination is rejected
    let bad = (proofs.0.add(&f(1)), proofs.1);
    assert!(!verify_proof(&committments, &g_vec, &bad, &u, &(l_u, r_u, t_u)));
}

#[test]
fn scalar_arithmetic_is_modular() {
    assert_eq!(f(6).mul(&f(7)), f(42));
    assert_eq!(f(0).inverse(), None);
    let three_inv = f(3).inverse().unwrap();
    assert_eq!(three_inv.mul(&f(3)), f(1));
    assert_ne!(three_inv, f(3));
    assert_eq!(f(2).pow(10), f(1024));
    assert_eq!(f(2).limbs(), [2, 0, 0, 0]);
    let big = f(u64::MAX).mul(&f(u64::MAX));
    assert_eq!(big.limbs(), [1, u64::MAX - 1, 0, 0]);
}
