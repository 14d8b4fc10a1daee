use ark_bn254::{Fq, G1Affine};
use ark_ff::{BigInt, PrimeField};
use bulletproofs_rs::error::ProofError;
use bulletproofs_rs::field::Scalar;
use bulletproofs_rs::group::Point;
use bulletproofs_rs::pedersen_commitment::{commit, generate_n_random_points, pedersen_commitment};
use bulletproofs_rs::vector_polynomial::Coeff;
use rand::Rng;

fn to_ark(p: &Point) -> G1Affine {
    // `G1Affine::new` panics unless the point is on the curve and in the subgroup.
    G1Affine::new(
        Fq::from_bigint(BigInt(p.x())).unwrap(),
        Fq::from_bigint(BigInt(p.y())).unwrap(),
    )
}

#[test]
fn test_generate_n_points() {
    let points = generate_n_random_points("hello".to_string(), 10);
    assert_eq!(points.len(), 10);
    for point in points {
        assert!(point.is_on_curve());
        assert!(!point.is_infinity());
        let p = to_ark(&point);
        assert!(p.is_on_curve());
        assert!(p.is_in_correct_subgroup_assuming_on_curve());
    }
}

#[test]
fn test_pedersen_committment() {
    let vector = [1u64, 2, 3, 4, 5];
    let field_element_vector: Vec<Scalar> = vector.into_iter().map(Scalar::from_u64).collect();
    let g_vec =
        generate_n_random_points("hello".to_string(), (field_element_vector.len() + 1) as i32);
    let blinding_factor = Scalar::from_u64(rand::thread_rng().gen());
    let committment = pedersen_commitment(&field_element_vector, &g_vec, blinding_factor);
    assert!(committment.is_ok())
}

#[test]
fn pedersen_commitment_uses_last_generator_for_blinding() {
    let v = vec![Scalar::from_u64(7), Scalar::from_u64(11)];
    let g = generate_n_random_points("hello".to_string(), 4);
    let r = Scalar::from_u64(5);
    let c = pedersen_commitment(&v, &g, r).unwrap();
    let expected = g[0].mul(&v[0]).add(&g[1].mul(&v[1])).add(&g[3].mul(&r));
    assert!(c.equals(&expected));
    let other = g[0].mul(&v[0]).add(&g[1].mul(&v[1])).add(&g[2].mul(&r));
    assert!(!c.equals(&other));
}

#[test]
fn pedersen_commitment_needs_one_more_generator() {
    let v = vec![Scalar::from_u64(1), Scalar::from_u64(2)];
    let g = generate_n_random_points("hello".to_string(), 2);
    assert_eq!(pedersen_commitment(&v, &g, Scalar::one()), Err(ProofError::LengthMismatch));
    assert_eq!(commit(&v, &generate_n_random_points("hello".to_string(), 3)), Err(ProofError::LengthMismatch));
}

#[test]
fn commitment_is_homomorphic() {
    let a = Coeff(vec![Scalar::from_u64(3), Scalar::from_u64(8), Scalar::from_u64(13)]);
    let b = Coeff(vec![Scalar::from_u64(100), Scalar::from_u64(1), Scalar::from_u64(42)]);
    let g = generate_n_random_points("hello".to_string(), 3);
    let sum = a.clone().add(b.clone());
    let lhs = commit(&sum.0, &g).unwrap();
    let rhs = commit(&a.0, &g).unwrap().add(&commit(&b.0, &g).unwrap());
    assert!(lhs.equals(&rhs));
}

#[test]
fn generators_are_deterministic_and_distinct() {
    let a = generate_n_random_points("hello".to_string(), 3);
    let b = generate_n_random_points("hello".to_string(), 3);
    let c = generate_n_random_points("bullet".to_string(), 3);
    let s = bulletproofs_rs::random_ec_points::generate_n_random_points("hello".to_string(), 3);
    assert_eq!(a, b);
    assert_ne!(a[0], a[1]);
    assert_ne!(a[0], c[0]);
    assert_ne!(a[0], s[0]);
    assert!(generate_n_random_points("hello".to_string(), -2).is_empty());
    assert!(generate_n_random_points("hello".to_string(), 0).is_empty());
}

#[test]
fn sha256_generators_lie_in_the_group() {
    let points = bulletproofs_rs::random_ec_points::generate_n_random_points("hello".to_string(), 10);
    assert_eq!(points.len(), 10);
    for point in points.iter() {
        assert!(point.is_on_curve());
        let p = to_ark(point);
        assert!(p.is_in_correct_subgroup_assuming_on_curve());
    }
    let small = bulletproofs_rs::random_ec_points::generate_random_field_element();
    assert!(small != Scalar::zero());
}
