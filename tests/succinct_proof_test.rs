use bulletproofs_rs::field::Scalar;
use bulletproofs_rs::group::Point;
use bulletproofs_rs::random_ec_points::{generate_n_random_points, generate_random_field_element};
use bulletproofs_rs::succinct_proof::{
    commit, commit_vector, compute_secondary_diagonal, fold_field, fold_group, split_vector,
    verify_succinct_proof,
};
use rand::Rng;

fn f(v: u64) -> Scalar {
    Scalar::from_u64(v)
}

fn random_nonzero() -> Scalar {
    f(rand::thread_rng().gen_range(1..u64::MAX))
}

#[test]
fn test_vector_committments() {
    let mut g_vec = generate_n_random_points("hello".to_string(), 2);

    let mut a = vec![f(2), f(3)];
    let committments = commit_vector(&mut a, &mut g_vec);

    let (_a, _l, _r) = committments;

    assert!(_a.equals(&g_vec[0].mul(&a[0]).add(&g_vec[1].mul(&a[1]))));

    assert!(_l.equals(&g_vec[1].mul(&a[0])));

    assert!(_r.equals(&g_vec[0].mul(&a[1])));
}

#[test]
fn succinct_proof_test_test_fold_field() {
    let u = random_nonzero();

    let mut input = vec![random_nonzero(), random_nonzero(), random_nonzero()];
    let original_input = input.clone();

    let result = fold_field(&mut input, &u);

    assert_eq!(result.len(), 2);

    let u_inv = u.inverse().unwrap();
    let expected_first = original_input[0].mul(&u).add(&original_input[1].mul(&u_inv));
    assert_eq!(result[0], expected_first);

    let expected_second = original_input[2].mul(&u).add(&Scalar::zero().mul(&u_inv));
    assert_eq!(result[1], expected_second);
}

#[test]
fn test_fold_group() {
    let u = random_nonzero();

    let g = generate_n_random_points("generator".to_string(), 1)[0];
    let mut input = vec![g.mul(&random_nonzero()), g.mul(&random_nonzero()), g.mul(&random_nonzero())];
    let original_input = input.clone();

    let result = fold_group(&mut input, &u);

    assert_eq!(result.len(), 2);

    let u_inv = u.inverse().unwrap();
    let expected_first = original_input[0].mul(&u).add(&original_input[1].mul(&u_inv));
    assert!(result[0].equals(&expected_first));

    let expected_second = original_input[2].mul(&u).add(&Point::identity().mul(&u_inv));
    assert!(result[1].equals(&expected_second));
}

#[test]
fn succinct_proof_test_test_generate_proof() {
    let mut g_vec = generate_n_random_points("hello".to_string(), 2);

    let mut a = vec![f(2), f(3)];
    let _committments = commit_vector(&mut a, &mut g_vec);

    let u = generate_random_field_element();
    let proof = fold_field(&mut a, &u);

    let a_prime = a[0].mul(&u).add(&a[1].mul(&u.inverse().unwrap()));

    assert!(proof[0] == a_prime)
}

#[test]
fn succinct_proof_test_test_verification() {
    let mut g_vec = generate_n_random_points("hello".to_string(), 2);
    let mut a_vec = vec![f(2), f(5)];

    let mut a_copy = a_vec.clone();

    let committments = commit_vector(&mut a_vec, &mut g_vec);
    let u = f(3);
    let proof = fold_field(&mut a_copy, &u);

    let a_prime = a_vec[0].mul(&u).add(&a_vec[1].mul(&u.inverse().unwrap()));

    assert!(proof[0] == a_prime);

    let (a, l, r) = committments;

    assert!(l.equals(&g_vec[1].mul(&a_vec[0])));

    let l_u_sqr = l.mul(&u).mul(&u);
    let l_u_sqr_verify = g_vec[1].mul(&a_vec[0]).mul(&u).mul(&u);

    assert!(l_u_sqr.equals(&l_u_sqr_verify));

    let u_inv = u.inverse().unwrap();

    let g_times_a = g_vec[0].mul(&a_vec[1]);
    assert!(r.equals(&g_times_a));

    let scalar = u_inv.mul(&u_inv);

    let r_u_sqr_inv = r.mul(&scalar);

    let r_u_sqr_inv_verify = g_times_a.mul(&scalar);

    assert!(r_u_sqr_inv.equals(&r_u_sqr_inv_verify));

    let folded_g = fold_group(&mut g_vec.clone(), &u_inv);
    assert!(folded_g[0].equals(&g_vec[0].mul(&u_inv).add(&g_vec[1].mul(&u))));

    let _lhs = folded_g[0].mul(&proof[0]);
    let _ = a;

    let verification = verify_succinct_proof(&committments, &proof, &u, &mut g_vec);

    assert!(verification);
}

#[test]
fn test_verification_new() {
    let mut g_vec = generate_n_random_points("hello".to_string(), 2);
    let mut a_vec = vec![f(2), f(5)];

    let mut a_copy = a_vec.clone();

    let committments = commit_vector(&mut a_vec, &mut g_vec);
    let u = f(3);

    let proof = fold_field(&mut a_copy, &u);

    let verification = verify_succinct_proof(&committments, &proof, &u, &mut g_vec);

    assert!(verification)
}

// L·u² + A + R·u⁻² equals the folded generator times the folded scalar, where
// the generators are folded with u⁻¹ and the scalars with u.
#[test]
fn test_manual_verification() {
    let mut g_vec = generate_n_random_points("hello".to_string(), 2);
    let mut a_vec = vec![f(2), f(5)];

    let a_committ = g_vec[0].mul(&a_vec[0]).add(&g_vec[1].mul(&a_vec[1]));
    let l_committ = g_vec[1].mul(&a_vec[0]);
    let r_committ = g_vec[0].mul(&a_vec[1]);

    let (_a, _l, _r) = commit_vector(&mut a_vec, &mut g_vec);

    assert!(a_committ.equals(&_a));
    assert!(l_committ.equals(&_l));
    assert!(r_committ.equals(&_r));

    let u = f(2);
    let u_inv = u.inverse().unwrap();
    let proof = a_vec[0].mul(&u).add(&a_vec[1].mul(&u_inv));

    let l_u_sqr = _l.mul(&u).mul(&u);

    let r_u_inv_sqr = _r.mul(&u_inv).mul(&u_inv);

    let folded_g = g_vec[0].mul(&u_inv).add(&g_vec[1].mul(&u));

    let lhs = l_u_sqr.add(&_a).add(&r_u_inv_sqr);

    let rhs = folded_g.mul(&proof);

    assert!(lhs.equals(&rhs));
}

#[test]
fn test_generate_random_ex_point() {
    let ec_points = generate_n_random_points("hello".to_string(), 2);

    let u = 2;
    let _a = f(100);

    let p = ec_points[0].mul(&f(u));
    assert!(p.equals(&ec_points[0].add(&ec_points[0])));
}

#[test]
fn folding_identity_on_random_vectors() {
    for n in [2usize, 3, 4, 7, 8] {
        let a: Vec<Scalar> = (0..n).map(|_| random_nonzero()).collect();
        let mut g = generate_n_random_points("hello".to_string(), n as i32);
        let u = random_nonzero();
        let mut a_fold = a.clone();
        let folded = fold_field(&mut a_fold, &u);
        let mut a_c = a.clone();
        let c = commit_vector(&mut a_c, &mut g.clone());
        assert!(verify_succinct_proof(&c, &folded, &u, &mut g), "n = {}", n);
    }
}

#[test]
fn perturbed_round_is_rejected() {
    let mut g = generate_n_random_points("hello".to_string(), 4);
    let mut a = vec![f(2), f(3), f(4), f(12)];
    let u = f(7);
    let folded = fold_field(&mut a.clone(), &u);
    let (c, l, r) = commit_vector(&mut a, &mut g);
    let bump = g[0];
    assert!(verify_succinct_proof(&(c, l, r), &folded, &u, &mut g.clone()));
    assert!(!verify_succinct_proof(&(c, l.add(&bump), r), &folded, &u, &mut g.clone()));
    assert!(!verify_succinct_proof(&(c, l, r.add(&bump)), &folded, &u, &mut g.clone()));
    let mut wrong = folded.clone();
    wrong[1] = wrong[1].add(&f(1));
    assert!(!verify_succinct_proof(&(c, l, r), &wrong, &u, &mut g.clone()));
}

#[test]
fn padding_behaves_as_zero_extension() {
    let u = f(9);
    let a = vec![f(4), f(5), f(6)];
    let mut odd = a.clone();
    let mut even = a.clone();
    even.push(Scalar::zero());
    assert_eq!(fold_field(&mut odd, &u), fold_field(&mut even.clone(), &u));
    assert_eq!(odd, even);

    let g = generate_n_random_points("hello".to_string(), 3);
    let mut g_odd = g.clone();
    let mut g_even = g.clone();
    g_even.push(Point::identity());
    assert_eq!(fold_group(&mut g_odd.clone(), &u), fold_group(&mut g_even.clone(), &u));

    let (l1, r1) = compute_secondary_diagonal(&mut g_odd, &mut a.clone());
    let (l2, r2) = compute_secondary_diagonal(&mut g_even, &mut even);
    assert!(l1.equals(&l2) && r1.equals(&r2));
    assert_eq!(g_odd.len(), 4);
}

#[test]
fn split_vector_pads_with_default() {
    let mut v = vec![1u32, 2, 3, 4, 5];
    let (l, r) = split_vector(&mut v);
    assert_eq!(l, vec![1, 3, 5]);
    assert_eq!(r, vec![2, 4, 0]);
    assert_eq!(v.len(), 6);
}

#[test]
fn succinct_commit_checks_lengths() {
    let g = generate_n_random_points("hello".to_string(), 2);
    assert!(commit(&vec![f(1)], &g).is_err());
    assert!(commit(&vec![f(1), f(2)], &g).is_ok());
}
