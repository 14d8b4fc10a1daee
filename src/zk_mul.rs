//! Zero-knowledge argument that `t(x) = l(x)·r(x)` for `l(x) = a + s_l·x` and
//! `r(x) = b + s_r·x`, with Pedersen commitments to the coefficients.
use crate::field::{group_order, Scalar};
use crate::group::Point;
use crate::model::{inner, lemma_add3_mod, lemma_mod_mod_eq, lemma_mul3_mod, logs, vals};
use crate::pedersen_commitment::pedersen_commitment;
use crate::polynomial::Polynomial;
use crate::random_ec_points::random_in_range;
use vstd::arithmetic::div_mod::{lemma_add_mod_noop, lemma_mul_mod_noop_left};
use vstd::prelude::*;

verus! {

/// The group element `Σ v[i]·g[i] + r·H` of a Pedersen commitment, `H` being the
/// last generator.
pub open spec fn pedersen(v: Seq<int>, g: Seq<int>, r: int) -> int {
    (inner(v, g) + r * g.last()) % group_order()
}

/// The five commitments `(C_a, C_s, C_t0, C_t1, C_t2)` to the coefficients
/// `l = (a, s_l)` and `r = (b, s_r)` and to those of their product, with the
/// blindings `(α, β, τ0, τ1, τ2)`.
pub open spec fn mul_commitments(l: Seq<int>, r: Seq<int>, g: Seq<int>, bl: Seq<int>) -> Seq<int> {
    let m = group_order();
    let (a, s_l, b, s_r) = (l[0], l[1], r[0], r[1]);
    seq![
        pedersen(seq![a, b], g, bl[0]),
        pedersen(seq![s_l, s_r], g, bl[1]),
        pedersen(seq![(a * b) % m], g, bl[2]),
        pedersen(seq![((a * s_r) % m + (b * s_l) % m) % m], g, bl[3]),
        pedersen(seq![(s_r * s_l) % m], g, bl[4]),
    ]
}

/// The blinding combinations `π_lr = α + β·u` and `π_t = τ0 + τ1·u + τ2·u²`.
pub open spec fn mul_openings(bl: Seq<int>, u: int) -> (int, int) {
    let m = group_order();
    ((bl[0] + bl[1] * u) % m, (bl[2] + bl[3] * u + bl[4] * u * u) % m)
}

/// The three checks of the verifier on the commitments `c`, the openings `pi`
/// and the revealed evaluations `(l(u), r(u), t(u))`.
pub open spec fn mul_accepts(
    c: Seq<int>,
    g: Seq<int>,
    pi: (int, int),
    u: int,
    ev: (int, int, int),
) -> bool {
    let m = group_order();
    &&& (c[0] + u * c[1]) % m == pedersen(seq![ev.0, ev.1], g, pi.0)
    &&& pedersen(seq![ev.2], g, pi.1) == (c[2] + u * c[3] + u * u * c[4]) % m
    &&& ev.2 == (ev.0 * ev.1) % m
}

fn pair(a: Scalar, b: Scalar) -> (r: Vec<Scalar>)
    ensures
        vals(r@) == seq![a@, b@],
        r@.len() == 2,
{
    let mut v: Vec<Scalar> = Vec::new();
    v.push(a);
    v.push(b);
    proof {
        assert(vals(v@) =~= seq![a@, b@]);
    }
    v
}

fn single(a: Scalar) -> (r: Vec<Scalar>)
    ensures
        vals(r@) == seq![a@],
        r@.len() == 1,
{
    let mut v: Vec<Scalar> = Vec::new();
    v.push(a);
    proof {
        assert(vals(v@) =~= seq![a@]);
    }
    v
}

/// A Pedersen commitment to one or two values, for generators enough for them.
fn commit_small(v: &Vec<Scalar>, g_vec: &Vec<Point>, blinding: Scalar) -> (r: Point)
    requires
        v@.len() + 1 <= g_vec@.len(),
    ensures
        r.log() == pedersen(vals(v@), logs(g_vec@), blinding@),
{
    match pedersen_commitment(v, g_vec, blinding) {
        Ok(c) => c,
        Err(_) => Point::identity(),
    }
}

/// A random scalar in `[1, 100000)`.
pub fn generate_random_field_element() -> (r: Scalar)
    ensures
        1 <= r@ < 100000,
{
    Scalar::from_u64(random_in_range(1, 100000))
}

/// Commits to `l(x) = a + s_l·x`, `r(x) = b + s_r·x` and the coefficients of
/// their product with fresh random blindings, and returns the commitments
/// `(C_a, C_s, C_t0, C_t1, C_t2)` with the blindings `(α, β, τ0, τ1, τ2)`.
pub fn commit_polynomials(l_x: &Polynomial, r_x: &Polynomial, g_vec: &Vec<Point>) -> (r: (
    Vec<Point>,
    Vec<Scalar>,
))
    requires
        l_x@.len() == 2,
        r_x@.len() == 2,
        g_vec@.len() >= 3,
    ensures
        r.1@.len() == 5,
        forall|i: int| 0 <= i < 5 ==> 1 <= #[trigger] vals(r.1@)[i] < 100000,
        logs(r.0@) == mul_commitments(l_x@, r_x@, logs(g_vec@), vals(r.1@)),
{
    let ghost m = group_order();
    let a = l_x.coeffs()[0];
    let s_l = l_x.coeffs()[1];
    let b = r_x.coeffs()[0];
    let s_r = r_x.coeffs()[1];
    let alpha = generate_random_field_element();
    let c_a = commit_small(&pair(a, b), g_vec, alpha);
    let beta = generate_random_field_element();
    let c_s = commit_small(&pair(s_l, s_r), g_vec, beta);
    let tau_0 = generate_random_field_element();
    let c_t0 = commit_small(&single(a.mul(&b)), g_vec, tau_0);
    let tau_1 = generate_random_field_element();
    let c_t1 = commit_small(&single(a.mul(&s_r).add(&b.mul(&s_l))), g_vec, tau_1);
    let tau_2 = generate_random_field_element();
    let c_t2 = commit_small(&single(s_r.mul(&s_l)), g_vec, tau_2);
    let mut commitments: Vec<Point> = Vec::new();
    commitments.push(c_a);
    commitments.push(c_s);
    commitments.push(c_t0);
    commitments.push(c_t1);
    commitments.push(c_t2);
    let mut blindings: Vec<Scalar> = Vec::new();
    blindings.push(alpha);
    blindings.push(beta);
    blindings.push(tau_0);
    blindings.push(tau_1);
    blindings.push(tau_2);
    proof {
        assert(logs(commitments@) =~= mul_commitments(
            l_x@,
            r_x@,
            logs(g_vec@),
            vals(blindings@),
        ));
    }
    (commitments, blindings)
}

/// The blinding combinations `π_lr = α + β·u` and `π_t = τ0 + τ1·u + τ2·u²`.
pub fn generate_proof(blinding_factors: &Vec<Scalar>, u: &Scalar) -> (r: (Scalar, Scalar))
    requires
        blinding_factors@.len() == 5,
    ensures
        (r.0@, r.1@) == mul_openings(vals(blinding_factors@), u@),
{
    let ghost m = group_order();
    let alpha = blinding_factors[0];
    let beta = blinding_factors[1];
    let tau_0 = blinding_factors[2];
    let tau_1 = blinding_factors[3];
    let tau_2 = blinding_factors[4];
    let pi_lr = alpha.add(&beta.mul(u));
    let pi_t = tau_0.add(&tau_1.mul(u)).add(&tau_2.mul(u).mul(u));
    proof {
        let bl = vals(blinding_factors@);
        Scalar::lemma_range(alpha);
        Scalar::lemma_range(tau_0);
        vstd::arithmetic::div_mod::lemma_small_mod(alpha@ as nat, m as nat);
        vstd::arithmetic::div_mod::lemma_small_mod(tau_0@ as nat, m as nat);
        lemma_add_mod_noop(alpha@, beta@ * u@, m);
        lemma_mul_mod_noop_left(tau_2@ * u@, u@, m);
        lemma_add3_mod(tau_0@, tau_1@ * u@, tau_2@ * u@ * u@, m);
    }
    (pi_lr, pi_t)
}

/// The verifier's three checks: `C_a + u·C_s == Com(l(u), r(u); π_lr)`,
/// `Com(t(u); π_t) == C_t0 + u·C_t1 + u²·C_t2` and `t(u) == l(u)·r(u)`.
pub fn verify_proof(
    committments: &Vec<Point>,
    g_vec: &Vec<Point>,
    proofs: &(Scalar, Scalar),
    u: &Scalar,
    poly_evaluation: &(Scalar, Scalar, Scalar),
) -> (r: bool)
    requires
        committments@.len() == 5,
        g_vec@.len() >= 3,
    ensures
        r == mul_accepts(
            logs(committments@),
            logs(g_vec@),
            (proofs.0@, proofs.1@),
            u@,
            (poly_evaluation.0@, poly_evaluation.1@, poly_evaluation.2@),
        ),
{
    let ghost m = group_order();
    let c_a = committments[0];
    let c_s = committments[1];
    let c_t0 = committments[2];
    let c_t1 = committments[3];
    let c_t2 = committments[4];
    let (pi_lr, pi_t) = *proofs;
    let (l_u, r_u, t_u) = *poly_evaluation;
    let lhs_1 = c_a.add(&c_s.mul(u));
    let rhs_1 = commit_small(&pair(l_u, r_u), g_vec, pi_lr);
    let lhs_2 = commit_small(&single(t_u), g_vec, pi_t);
    let rhs_2 = c_t0.add(&c_t1.mul(u)).add(&c_t2.mul(u).mul(u));
    let rhs_3 = l_u.mul(&r_u);
    proof {
        let (a, s, t0, t1, t2) = (c_a.log(), c_s.log(), c_t0.log(), c_t1.log(), c_t2.log());
        lemma_mod_mod_eq(crate::group::dlog(c_a@), m);
        lemma_mod_mod_eq(crate::group::dlog(c_t0@), m);
        lemma_add_mod_noop(a, u@ * s, m);
        lemma_mul3_mod(t2, u@, u@, m);
        lemma_add3_mod(t0, u@ * t1, t2 * u@ * u@, m);
        assert(t2 * u@ * u@ == u@ * u@ * t2) by (nonlinear_arith);
    }
    lhs_1.equals(&rhs_1) && lhs_2.equals(&rhs_2) && t_u.equals(&rhs_3)
}

/// The honest evaluations `(l(u), r(u), t(u))`, with `t(u) = t0 + t1·u + t2·u²`
/// from the product's coefficients as `commit_polynomials` computes them.
pub open spec fn mul_evaluations(l: Seq<int>, r: Seq<int>, u: int) -> (int, int, int) {
    let m = group_order();
    let (a, s_l, b, s_r) = (l[0], l[1], r[0], r[1]);
    let (t0, t1, t2) = ((a * b) % m, ((a * s_r) % m + (b * s_l) % m) % m, (s_r * s_l) % m);
    ((a + s_l * u) % m, (b + s_r * u) % m, (t0 + t1 * u + t2 * u * u) % m)
}

proof fn lemma_inner_two(x: int, y: int, g: Seq<int>)
    requires
        g.len() >= 2,
    ensures
        inner(seq![x, y], g) == x * g[0] + y * g[1],
{
    let v = seq![x, y];
    let f = |i: int| v[i] * g[i];
    assert(crate::model::sum(f, 2) == crate::model::sum(f, 1) + f(1));
    assert(crate::model::sum(f, 1) == crate::model::sum(f, 0) + f(0));
}

proof fn lemma_inner_single(x: int, g: Seq<int>)
    requires
        g.len() >= 1,
    ensures
        inner(seq![x], g) == x * g[0],
{
    let v = seq![x];
    let f = |i: int| v[i] * g[i];
    assert(crate::model::sum(f, 1) == crate::model::sum(f, 0) + f(0));
}

pub(crate) proof fn lemma_ring_open(
    a: int,
    b: int,
    s_l: int,
    s_r: int,
    g0: int,
    g1: int,
    h: int,
    al: int,
    be: int,
    u: int,
)
    ensures
        1 * (a * g0 + b * g1 + al * h) + u * (s_l * g0 + s_r * g1 + be * h) + 0 * 0 == g0 * (a
            + s_l * u) + g1 * (b + s_r * u) + h * (al + be * u),
{
    assert(u * (s_l * g0 + s_r * g1 + be * h) == u * (s_l * g0) + u * (s_r * g1) + u * (be * h))
        by (nonlinear_arith);
    assert(u * (s_l * g0) == g0 * (s_l * u)) by (nonlinear_arith);
    assert(u * (s_r * g1) == g1 * (s_r * u)) by (nonlinear_arith);
    assert(u * (be * h) == h * (be * u)) by (nonlinear_arith);
    assert(g0 * (a + s_l * u) == g0 * a + g0 * (s_l * u)) by (nonlinear_arith);
    assert(g1 * (b + s_r * u) == g1 * b + g1 * (s_r * u)) by (nonlinear_arith);
    assert(h * (al + be * u) == h * al + h * (be * u)) by (nonlinear_arith);
    assert(a * g0 == g0 * a && b * g1 == g1 * b && al * h == h * al) by (nonlinear_arith);
}

pub(crate) proof fn lemma_ring_product_commitments(
    t0: int,
    t1: int,
    t2: int,
    g0: int,
    h: int,
    e0: int,
    e1: int,
    e2: int,
    u: int,
)
    ensures
        1 * (t0 * g0 + e0 * h) + u * (t1 * g0 + e1 * h) + u * u * (t2 * g0 + e2 * h) == g0 * (t0 + t1
            * u + t2 * u * u) + h * (e0 + e1 * u + e2 * u * u) + 0 * 0,
{
    let uu = u * u;
    assert(u * (t1 * g0 + e1 * h) == g0 * (t1 * u) + h * (e1 * u)) by (nonlinear_arith);
    assert(uu * (t2 * g0 + e2 * h) == g0 * (t2 * uu) + h * (e2 * uu)) by (nonlinear_arith);
    assert(g0 * (t0 + t1 * u + t2 * uu) == g0 * t0 + g0 * (t1 * u) + g0 * (t2 * uu))
        by (nonlinear_arith);
    assert(h * (e0 + e1 * u + e2 * uu) == h * e0 + h * (e1 * u) + h * (e2 * uu))
        by (nonlinear_arith);
    assert(t2 * u * u == t2 * uu && e2 * u * u == e2 * uu) by (nonlinear_arith)
        requires uu == u * u;
    assert(t0 * g0 == g0 * t0 && e0 * h == h * e0) by (nonlinear_arith);
}

pub(crate) proof fn lemma_ring_product(a: int, b: int, s_l: int, s_r: int, u: int)
    ensures
        1 * (a * b) + u * (a * s_r + b * s_l) + u * u * (s_r * s_l) == (a + s_l * u) * (b + s_r
            * u),
{
    assert((a + s_l * u) * (b + s_r * u) == a * b + a * (s_r * u) + (s_l * u) * b + (s_l * u) * (
    s_r * u)) by (nonlinear_arith);
    assert(a * (s_r * u) == u * (a * s_r)) by (nonlinear_arith);
    assert((s_l * u) * b == u * (b * s_l)) by (nonlinear_arith);
    assert((s_l * u) * (s_r * u) == u * u * (s_r * s_l)) by (nonlinear_arith);
    assert(u * (a * s_r + b * s_l) == u * (a * s_r) + u * (b * s_l)) by (nonlinear_arith);
}

/// Completeness: for any `l = (a, s_l)` and `r = (b, s_r)`, at least three
/// generators, any blindings and any challenge `u`, the commitments, the
/// openings and the honest evaluations `l(u)`, `r(u)`, `t(u)` pass all three
/// checks of the verifier.
pub proof fn lemma_mul_complete(l: Seq<int>, r: Seq<int>, g: Seq<int>, bl: Seq<int>, u: int)
    requires
        l.len() == 2,
        r.len() == 2,
        g.len() >= 3,
        bl.len() == 5,
    ensures
        mul_accepts(
            mul_commitments(l, r, g, bl),
            g,
            mul_openings(bl, u),
            u,
            mul_evaluations(l, r, u),
        ),
{
    let m = group_order();
    let (a, s_l, b, s_r) = (l[0], l[1], r[0], r[1]);
    let (g0, g1, h) = (g[0], g[1], g.last());
    let (t0, t1, t2) = ((a * b) % m, ((a * s_r) % m + (b * s_l) % m) % m, (s_r * s_l) % m);
    let c = mul_commitments(l, r, g, bl);
    let (pi_lr, pi_t) = mul_openings(bl, u);
    let (lu, ru, tu) = mul_evaluations(l, r, u);
    lemma_inner_two(a, b, g);
    lemma_inner_two(s_l, s_r, g);
    lemma_inner_two(lu, ru, g);
    lemma_inner_single(t0, g);
    lemma_inner_single(t1, g);
    lemma_inner_single(t2, g);
    lemma_inner_single(tu, g);
    let x0 = a * g0 + b * g1 + bl[0] * h;
    let x1 = s_l * g0 + s_r * g1 + bl[1] * h;
    crate::model::lemma_eqm_mod(x0);
    crate::model::lemma_eqm_mod(x1);
    crate::model::lemma_eqm_mod(0);
    // check 1
    crate::model::lemma_eqm_lin3(c[0], x0, c[1], x1, 0, 0, 1, u, 0);
    crate::model::lemma_eqm_mod(a + s_l * u);
    crate::model::lemma_eqm_mod(b + s_r * u);
    crate::model::lemma_eqm_mod(bl[0] + bl[1] * u);
    crate::model::lemma_eqm_lin3(lu, a + s_l * u, ru, b + s_r * u, pi_lr, bl[0] + bl[1] * u, g0, g1, h);
    lemma_ring_open(a, b, s_l, s_r, g0, g1, h, bl[0], bl[1], u);
    assert(1 * c[0] + u * c[1] + 0 * 0 == c[0] + u * c[1]);
    assert(lu * g0 + ru * g1 + pi_lr * h == g0 * lu + g1 * ru + h * pi_lr) by (nonlinear_arith);
    // check 2
    let tt = t0 + t1 * u + t2 * u * u;
    let pp = bl[2] + bl[3] * u + bl[4] * u * u;
    crate::model::lemma_eqm_mod(tt);
    crate::model::lemma_eqm_mod(pp);
    crate::model::lemma_eqm_lin3(tu, tt, pi_t, pp, 0, 0, g0, h, 0);
    let y2 = t0 * g0 + bl[2] * h;
    let y3 = t1 * g0 + bl[3] * h;
    let y4 = t2 * g0 + bl[4] * h;
    crate::model::lemma_eqm_mod(y2);
    crate::model::lemma_eqm_mod(y3);
    crate::model::lemma_eqm_mod(y4);
    crate::model::lemma_eqm_lin3(c[2], y2, c[3], y3, c[4], y4, 1, u, u * u);
    lemma_ring_product_commitments(t0, t1, t2, g0, h, bl[2], bl[3], bl[4], u);
    assert(tu * g0 + pi_t * h == g0 * tu + h * pi_t + 0 * 0) by (nonlinear_arith);
    assert(1 * c[2] + u * c[3] + u * u * c[4] == c[2] + u * c[3] + u * u * c[4]);
    // check 3
    crate::model::lemma_eqm_mod(a * b);
    crate::model::lemma_eqm_mod(a * s_r);
    crate::model::lemma_eqm_mod(b * s_l);
    crate::model::lemma_eqm_mod(s_r * s_l);
    crate::model::lemma_eqm_add((a * s_r) % m, a * s_r, (b * s_l) % m, b * s_l);
    crate::model::lemma_eqm_mod((a * s_r) % m + (b * s_l) % m);
    crate::model::lemma_eqm_lin3(t0, a * b, t1, a * s_r + b * s_l, t2, s_r * s_l, 1, u, u * u);
    vstd::arithmetic::div_mod::lemma_mul_mod_noop_general(a + s_l * u, b + s_r * u, m);
    assert(1 * t0 + u * t1 + u * u * t2 == tt) by (nonlinear_arith)
        requires tt == t0 + t1 * u + t2 * u * u;
    lemma_ring_product(a, b, s_l, s_r, u);
    crate::model::lemma_mod_mod_eq(tt, m);
}

} // verus!
