use bulletproofs_rs::field::Scalar;
use bulletproofs_rs::group::Point;
use bulletproofs_rs::log_ipa_proof::{
    commit, compute_l_r, compute_secondary_diagonal, fold_field, fold_points, hadamard_product,
    log_ipa_proof, log_ipa_rounds, verify_log_ipa,
};
use bulletproofs_rs::random_ec_points::generate_n_random_points;
use rand::Rng;

fn f(v: u64) -> Scalar {
    Scalar::from_u64(v)
}

fn random_nonzero() -> Scalar {
    f(rand::thread_rng().gen_range(1..u64::MAX))
}

fn scalars(v: &[u64]) -> Vec<Scalar> {
    v.iter().map(|x| f(*x)).collect()
}

#[test]
fn test_log_ipa() {
    let a = scalars(&[2, 3, 7, 6]);
    let b = scalars(&[5, 4, 9, 1]);

    let g_vec = generate_n_random_points("hello".to_string(), 4);
    let h_vec = generate_n_random_points("bullet".to_string(), 4);
    let q = generate_n_random_points("proof".to_string(), 1)[0];

    let verification = log_ipa_proof(a, b, g_vec, h_vec, q);

    assert!(verification)
}

#[test]
fn log_ipa_proof_test_test_fold_field() {
    let u = random_nonzero();
    let input = vec![random_nonzero(), random_nonzero(), random_nonzero(), random_nonzero()];
    let original_input = input.clone();

    let result = fold_field(input, &u);

    assert_eq!(result.len(), 2);

    let u_inv = u.inverse().unwrap();
    let expected_first = original_input[0].mul(&u).add(&original_input[1].mul(&u_inv));
    assert_eq!(result[0], expected_first);

    let expected_second = original_input[2].mul(&u).add(&original_input[3].mul(&u_inv));
    assert_eq!(result[1], expected_second);
}

#[test]
fn test_fold_points() {
    let u = random_nonzero();
    let g = generate_n_random_points("generator".to_string(), 1)[0];
    let input = vec![
        g.mul(&random_nonzero()),
        g.mul(&random_nonzero()),
        g.mul(&random_nonzero()),
        g.mul(&random_nonzero()),
    ];
    let original_input = input.clone();

    let result = fold_points(input, &u);

    assert_eq!(result.len(), 2);

    let u_inv = u.inverse().unwrap();
    let expected_first = original_input[0].mul(&u).add(&original_input[1].mul(&u_inv));
    assert!(result[0].equals(&expected_first));

    let expected_second = original_input[2].mul(&u).add(&original_input[3].mul(&u_inv));
    assert!(result[1].equals(&expected_second));
}

#[test]
fn log_ipa_scenario_two_rounds() {
    let a = scalars(&[2, 3, 4, 12]);
    let b = scalars(&[5, 4, 9, 18]);
    let g_vec = generate_n_random_points("hello".to_string(), 4);
    let h_vec = generate_n_random_points("bullet".to_string(), 4);
    let q = generate_n_random_points("proof".to_string(), 1)[0];
    assert!(log_ipa_proof(a, b, g_vec, h_vec, q));
}

#[test]
fn log_ipa_complete_for_powers_of_two() {
    for n in [1usize, 2, 4, 8, 16] {
        let a: Vec<Scalar> = (0..n).map(|_| random_nonzero()).collect();
        let b: Vec<Scalar> = (0..n).map(|_| random_nonzero()).collect();
        let g_vec = generate_n_random_points("hello".to_string(), n as i32);
        let h_vec = generate_n_random_points("bullet".to_string(), n as i32);
        let q = generate_n_random_points("proof".to_string(), 1)[0];
        assert!(log_ipa_proof(a, b, g_vec, h_vec, q), "n = {}", n);
    }
}

#[test]
fn log_ipa_pads_other_lengths() {
    for n in [3usize, 5, 6, 7] {
        let a: Vec<Scalar> = (0..n).map(|_| random_nonzero()).collect();
        let b: Vec<Scalar> = (0..n).map(|_| random_nonzero()).collect();
        let g_vec = generate_n_random_points("hello".to_string(), n as i32);
        let h_vec = generate_n_random_points("bullet".to_string(), n as i32);
        let q = generate_n_random_points("proof".to_string(), 1)[0];
        assert!(log_ipa_proof(a, b, g_vec, h_vec, q), "n = {}", n);
    }
}

#[test]
fn log_ipa_rejects_empty_vectors() {
    let q = generate_n_random_points("proof".to_string(), 1)[0];
    assert!(!log_ipa_proof(vec![], vec![], vec![], vec![], q));
}

#[test]
fn log_ipa_helpers_agree_with_definitions() {
    let a = scalars(&[2, 3, 4, 12]);
    let b = scalars(&[5, 4, 9, 18]);
    let g = generate_n_random_points("hello".to_string(), 4);
    let h = generate_n_random_points("bullet".to_string(), 4);
    let q = generate_n_random_points("proof".to_string(), 1)[0];

    let c = commit(&a, &g);
    let expected = g[0]
        .mul(&a[0])
        .add(&g[1].mul(&a[1]))
        .add(&g[2].mul(&a[2]))
        .add(&g[3].mul(&a[3]));
    assert!(c.equals(&expected));

    let qs = hadamard_product(&b, &vec![q; 4]);
    for i in 0..4 {
        assert!(qs[i].equals(&q.mul(&b[i])));
    }

    let (l, r) = compute_secondary_diagonal(a.clone(), g.clone());
    assert!(l.equals(&g[1].mul(&a[0]).add(&g[3].mul(&a[2]))));
    assert!(r.equals(&g[0].mul(&a[1]).add(&g[2].mul(&a[3]))));

    let (l_all, r_all) = compute_l_r(a.clone(), b.clone(), g.clone(), h.clone(), qs.clone());
    let (l1, r1) = compute_secondary_diagonal(a.clone(), g.clone());
    let (l2, r2) = compute_secondary_diagonal(b.clone(), h.clone());
    let (l3, r3) = compute_secondary_diagonal(a.clone(), qs.clone());
    assert!(l_all.equals(&l1.add(&r2).add(&l3)));
    assert!(r_all.equals(&r1.add(&l2).add(&r3)));
    assert!(!Point::identity().equals(&l_all));
}

fn honest_setup() -> (Vec<Scalar>, Vec<Scalar>, Vec<Point>, Vec<Point>, Point, Point, Vec<Scalar>) {
    let a = scalars(&[2, 3, 4, 12]);
    let b = scalars(&[5, 4, 9, 18]);
    let g = generate_n_random_points("hello".to_string(), 4);
    let h = generate_n_random_points("bullet".to_string(), 4);
    let q = generate_n_random_points("proof".to_string(), 1)[0];
    let q_vec = hadamard_product(&b, &vec![q; 4]);
    let p = commit(&a, &g).add(&commit(&b, &h)).add(&commit(&a, &q_vec));
    let us = vec![random_nonzero(), random_nonzero()];
    (a, b, g, h, q, p, us)
}

#[test]
fn log_ipa_transcript_is_accepted() {
    let (a, b, g, h, q, p, us) = honest_setup();
    let t = log_ipa_rounds(&a, &b, &g, &h, &q, &us);
    assert_eq!(t.l.len(), 2);
    assert_eq!(t.r.len(), 2);
    // the first round's cross terms are those of compute_l_r
    let q_vec = hadamard_product(&b, &vec![q; 4]);
    let (l0, r0) = compute_l_r(a.clone(), b.clone(), g.clone(), h.clone(), q_vec);
    assert!(t.l[0].equals(&l0) && t.r[0].equals(&r0));
    // a* is a folded twice
    let u0 = us[0];
    let a1 = fold_field(a.clone(), &u0);
    let a2 = fold_field(a1, &us[1]);
    assert_eq!(t.a_star, a2[0]);
    assert!(verify_log_ipa(&p, &g, &h, &q, &t, &us));
}

#[test]
fn log_ipa_rejects_tampered_transcripts() {
    let (a, b, g, h, q, p, us) = honest_setup();
    let t = log_ipa_rounds(&a, &b, &g, &h, &q, &us);
    let bump = generate_n_random_points("tamper".to_string(), 1)[0];
    for j in 0..2 {
        let mut bad = t.clone();
        bad.l[j] = bad.l[j].add(&bump);
        assert!(!verify_log_ipa(&p, &g, &h, &q, &bad, &us), "L {}", j);
        let mut bad = t.clone();
        bad.r[j] = bad.r[j].add(&bump);
        assert!(!verify_log_ipa(&p, &g, &h, &q, &bad, &us), "R {}", j);
    }
    let mut bad = t.clone();
    bad.a_star = bad.a_star.add(&f(1));
    assert!(!verify_log_ipa(&p, &g, &h, &q, &bad, &us));
    let mut bad = t.clone();
    bad.b_star = bad.b_star.add(&f(1));
    assert!(!verify_log_ipa(&p, &g, &h, &q, &bad, &us));
    // another commitment is rejected
    assert!(!verify_log_ipa(&p.add(&bump), &g, &h, &q, &t, &us));
}
