use bulletproofs_rs::field::Scalar;
use bulletproofs_rs::log_proof_commitment::{log_proof_rounds, verify_log_proof_of_committment};
use bulletproofs_rs::succinct_proof::{commit, compute_secondary_diagonal};
use bulletproofs_rs::random_ec_points::generate_n_random_points;

#[test]
fn test_log_proof_verification() {
    let mut commiting_vector = vec![Scalar::from_u64(1), Scalar::from_u64(3), Scalar::from_u64(4)];

    let mut g_vec = generate_n_random_points("hello".to_string(), 3);

    let verification = verify_log_proof_of_committment(&mut commiting_vector, &mut g_vec);

    assert!(verification);
}

#[test]
fn log_proof_leaves_inputs_unchanged() {
    let mut v: Vec<Scalar> = (1..=5).map(Scalar::from_u64).collect();
    let mut g = generate_n_random_points("hello".to_string(), 5);
    let (v0, g0) = (v.clone(), g.clone());
    assert!(verify_log_proof_of_committment(&mut v, &mut g));
    assert_eq!(v, v0);
    assert_eq!(g, g0);
    let mut empty: Vec<Scalar> = vec![];
    assert!(verify_log_proof_of_committment(&mut empty, &mut vec![]));
}

#[test]
fn log_proof_rounds_transcript() {
    let a: Vec<Scalar> = [2u64, 3, 4, 12, 7].iter().map(|x| Scalar::from_u64(*x)).collect();
    let g = generate_n_random_points("hello".to_string(), 5);
    // lengths 5 -> 3 -> 2 -> 1: three rounds
    let us: Vec<Scalar> = [3u64, 5, 7].iter().map(|x| Scalar::from_u64(*x)).collect();
    let t = log_proof_rounds(&a, &g, &us);
    assert!(t.accepted);
    assert_eq!(t.rounds.len(), 3);
    assert_eq!(t.a.len(), 1);
    assert_eq!(t.g.len(), 1);
    let (c0, l0, r0) = t.rounds[0];
    assert!(c0.equals(&commit(&a, &g).unwrap()));
    let mut a_pad = a.clone();
    let mut g_pad = g.clone();
    let (l, r) = compute_secondary_diagonal(&mut g_pad, &mut a_pad);
    assert!(l0.equals(&l) && r0.equals(&r));
    // the folded vector still opens the last commitment
    assert!(commit(&t.a, &t.g).unwrap().equals(&t.g[0].mul(&t.a[0])));
}
