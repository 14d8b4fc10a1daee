use bulletproofs_rs::field::Scalar;
use bulletproofs_rs::pedersen_commitment::generate_n_random_points;
use bulletproofs_rs::vector_polynomial::{Coeff, InnerProduct, VectorPolynomial};
use bulletproofs_rs::zk_ipa::{committment_vector_polynomials, generate_proof, verify_ipa};
use bulletproofs_rs::zk_mul::generate_random_field_element;

fn f(v: u64) -> Scalar {
    Scalar::from_u64(v)
}

#[test]
fn test_polynomial_committments() {
    let g_vec = generate_n_random_points("hello".to_string(), 3);
    let h_vec = generate_n_random_points("bulletproof".into(), 3);

    let g = generate_n_random_points("ios".to_string(), 1)[0];
    let h = generate_n_random_points("seed".to_string(), 1)[0];

    let a = Coeff::random(3);
    let s_l = Coeff::random(3);
    let l_x = VectorPolynomial::new(vec![a, s_l]);

    let b = Coeff::random(3);
    let s_r = Coeff::random(3);
    let r_x = VectorPolynomial::new(vec![b, s_r]);

    let (committments, blinding_factors) =
        committment_vector_polynomials(l_x, r_x, &g_vec, &h_vec, &g, &h);
    assert_eq!(committments.len(), 5);
    assert_eq!(blinding_factors.len(), 5);
}

#[test]
fn zk_ipa_test_test_generate_proof() {
    let g_vec = generate_n_random_points("hello".to_string(), 3);
    let h_vec = generate_n_random_points("bulletproof".into(), 3);

    let g = generate_n_random_points("ios".to_string(), 1)[0];
    let h = generate_n_random_points("seed".to_string(), 1)[0];

    let a = Coeff::random(3);
    let s_l = Coeff::random(3);
    let l_x = VectorPolynomial::new(vec![a, s_l]);

    let b = Coeff::random(3);
    let s_r = Coeff::random(3);
    let r_x = VectorPolynomial::new(vec![b, s_r]);

    let t_x = l_x.clone().mul(r_x.clone());

    let (_committments, blinding_factors) =
        committment_vector_polynomials(l_x.clone(), r_x.clone(), &g_vec, &h_vec, &g, &h);

    let u = generate_random_field_element();

    let _l_u = l_x.evaluate(&u);
    let _r_u = r_x.evaluate(&u);

    let _t_u = t_x.evaluate(&u);

    let proof = generate_proof(&blinding_factors, &u);
    let expected_lr = blinding_factors[0].add(&blinding_factors[1].mul(&u));
    assert_eq!(proof.0, expected_lr);
}

#[test]
fn zk_ipa_test_test_verification() {
    let g_vec = generate_n_random_points("hello".to_string(), 3);
    let h_vec = generate_n_random_points("bulletproof".into(), 3);

    let g = generate_n_random_points("ios".to_string(), 1)[0];
    let h = generate_n_random_points("seed".to_string(), 1)[0];

    let a = Coeff::random(3);
    let s_l = Coeff::random(3);
    let l_x = VectorPolynomial::new(vec![a, s_l]);

    let b = Coeff::random(3);
    let s_r = Coeff::random(3);
    let r_x = VectorPolynomial::new(vec![b, s_r]);

    let t_x = l_x.clone().mul(r_x.clone());

    let (committments, blinding_factors) =
        committment_vector_polynomials(l_x.clone(), r_x.clone(), &g_vec, &h_vec, &g, &h);

    let u = generate_random_field_element();

    let l_u = l_x.evaluate(&u);
    let r_u = r_x.evaluate(&u);

    let t_u = t_x.evaluate(&u);

    let proofs = generate_proof(&blinding_factors, &u);

    let verification = verify_ipa(l_u, r_u, &t_u, &u, &committments, &proofs, g_vec, h_vec, &g, &h);

    assert!(verification);
}

#[test]
fn zk_ipa_scenario_inner_product_35() {
    let g_vec = generate_n_random_points("hello".to_string(), 3);
    let h_vec = generate_n_random_points("bulletproof".into(), 3);
    let g = generate_n_random_points("ios".to_string(), 1)[0];
    let h = generate_n_random_points("seed".to_string(), 1)[0];

    let a = Coeff(vec![f(2), f(4), f(1)]);
    let b = Coeff(vec![f(3), f(6), f(5)]);
    assert_eq!(a.inner_product(&b), f(35));

    let l_x = VectorPolynomial::new(vec![a, Coeff::random(3)]);
    let r_x = VectorPolynomial::new(vec![b, Coeff::random(3)]);
    let t_x = l_x.clone().mul(r_x.clone());
    assert_eq!(t_x.coeffs()[0], f(35));

    let (committments, blinding_factors) =
        committment_vector_polynomials(l_x.clone(), r_x.clone(), &g_vec, &h_vec, &g, &h);
    let u = generate_random_field_element();
    let l_u = l_x.evaluate(&u);
    let r_u = r_x.evaluate(&u);
    let t_u = t_x.evaluate(&u);
    let proofs = generate_proof(&blinding_factors, &u);
    assert!(verify_ipa(
        l_u.clone(),
        r_u.clone(),
        &t_u,
        &u,
        &committments,
        &proofs,
        g_vec.clone(),
        h_vec.clone(),
        &g,
        &h
    ));
    // a wrong t(u) fails
    let wrong = t_u.add(&f(1));
    assert!(!verify_ipa(l_u, r_u, &wrong, &u, &committments, &proofs, g_vec, h_vec, &g, &h));
}
