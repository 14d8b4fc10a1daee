//! Zero-knowledge argument for the inner product of two committed vectors,
//! with `l(x) = a + s_l·x` and `r(x) = b + s_r·x` as vector polynomials.
use crate::field::{group_order, Scalar};
use crate::group::Point;
use crate::model::{
    inner, lemma_add3_mod, lemma_eqm_add, lemma_eqm_lin3, lemma_eqm_mod, lemma_inner_lin, lemma_inner_lin2,
    lemma_mod_mod_eq, lin_vec, logs, vals,
};
use crate::polynomial::{conv, conv_seq, eval, trim};
use crate::vector_polynomial::{column, inner_products, Coeff, InnerProduct, VectorPolynomial};
use vstd::arithmetic::power::pow;
use crate::zk_mul::{generate_random_field_element, mul_openings};
use vstd::arithmetic::div_mod::{lemma_add_mod_noop, lemma_mul_mod_noop_left};
use vstd::prelude::*;

pub use crate::zk_mul::verify_proof;

verus! {

/// The five commitments `(C_a, C_s, C_v, C_t1, C_t2)` for the vectors `a, s_l`
/// (of `l`) and `b, s_r` (of `r`), the bases `G⃗`, `H⃗`, `G`, `B` and the
/// blindings `(α, β, γ, τ1, τ2)`.
pub open spec fn ipa_commitments(
    a: Seq<int>,
    s_l: Seq<int>,
    b: Seq<int>,
    s_r: Seq<int>,
    gv: Seq<int>,
    hv: Seq<int>,
    g: int,
    bb: int,
    bl: Seq<int>,
) -> Seq<int> {
    let m = group_order();
    let v = inner(a, b) % m;
    let t1 = (inner(a, s_r) % m + inner(b, s_l) % m) % m;
    let t2 = inner(s_l, s_r) % m;
    seq![
        (inner(a, gv) + inner(b, hv) + bl[0] * bb) % m,
        (inner(s_l, gv) + inner(s_r, hv) + bl[1] * bb) % m,
        (v * g + bl[2] * bb) % m,
        (t1 * g + bl[3] * bb) % m,
        (t2 * g + bl[4] * bb) % m,
    ]
}

/// The verifier's three checks on the commitments `c`, the openings `pi`, the
/// revealed vectors `l(u)`, `r(u)` and the scalar `t(u)`.
pub open spec fn ipa_accepts(
    c: Seq<int>,
    pi: (int, int),
    u: int,
    l_u: Seq<int>,
    r_u: Seq<int>,
    t_u: int,
    gv: Seq<int>,
    hv: Seq<int>,
    g: int,
    bb: int,
) -> bool {
    let m = group_order();
    &&& (c[0] + u * c[1]) % m == (inner(l_u, gv) + inner(r_u, hv) + pi.0 * bb) % m
    &&& (t_u * g + pi.1 * bb) % m == (c[2] + u * c[3] + u * u * c[4]) % m
    &&& t_u == inner(l_u, r_u) % m
}

/// Commits to `l(x) = a + s_l·x` and `r(x) = b + s_r·x` with fresh random
/// blindings, and returns `(C_a, C_s, C_v, C_t1, C_t2)` with the blindings
/// `(α, β, γ, τ1, τ2)`.
pub fn committment_vector_polynomials(
    l_x: VectorPolynomial,
    r_x: VectorPolynomial,
    g_vec: &Vec<Point>,
    h_vec: &Vec<Point>,
    _g: &Point,
    _b: &Point,
) -> (r: (Vec<Point>, Vec<Scalar>))
    requires
        l_x.coeffs@.len() == 2,
        r_x.coeffs@.len() == 2,
        g_vec@.len() == h_vec@.len(),
        l_x.coeffs@[0].0@.len() == g_vec@.len(),
        l_x.coeffs@[1].0@.len() == g_vec@.len(),
        r_x.coeffs@[0].0@.len() == g_vec@.len(),
        r_x.coeffs@[1].0@.len() == g_vec@.len(),
    ensures
        r.1@.len() == 5,
        forall|i: int| 0 <= i < 5 ==> 1 <= #[trigger] vals(r.1@)[i] < 100000,
        logs(r.0@) == ipa_commitments(
            l_x.coeffs@[0]@,
            l_x.coeffs@[1]@,
            r_x.coeffs@[0]@,
            r_x.coeffs@[1]@,
            logs(g_vec@),
            logs(h_vec@),
            _g.log(),
            _b.log(),
            vals(r.1@),
        ),
{
    let ghost m = group_order();
    let a = &l_x.coeffs[0];
    let s_l = &l_x.coeffs[1];
    let b = &r_x.coeffs[0];
    let s_r = &r_x.coeffs[1];
    let v = a.inner_product(b);
    let alpha = generate_random_field_element();
    let c_a = a.commit(g_vec).add(&b.commit(h_vec)).add(&_b.mul(&alpha));
    let beta = generate_random_field_element();
    let c_s = s_l.commit(g_vec).add(&s_r.commit(h_vec)).add(&_b.mul(&beta));
    let gamma = generate_random_field_element();
    let c_v = _g.mul(&v).add(&_b.mul(&gamma));
    let tau_1 = generate_random_field_element();
    let t_1 = a.inner_product(s_r).add(&b.inner_product(s_l));
    let c_t1 = _g.mul(&t_1).add(&_b.mul(&tau_1));
    let tau_2 = generate_random_field_element();
    let t_2 = s_l.inner_product(s_r);
    let c_t2 = _g.mul(&t_2).add(&_b.mul(&tau_2));
    proof {
        let (gv, hv, bb, gg) = (logs(g_vec@), logs(h_vec@), _b.log(), _g.log());
        lemma_add3_mod(inner(a@, gv), inner(b@, hv), alpha@ * bb, m);
        lemma_add3_mod(inner(s_l@, gv), inner(s_r@, hv), beta@ * bb, m);
        lemma_add_mod_noop(v@ * gg, gamma@ * bb, m);
        lemma_add_mod_noop(t_1@ * gg, tau_1@ * bb, m);
        lemma_add_mod_noop(t_2@ * gg, tau_2@ * bb, m);
        assert(v@ * gg == gg * v@ && t_1@ * gg == gg * t_1@ && t_2@ * gg == gg * t_2@ && alpha@
            * bb == bb * alpha@ && beta@ * bb == bb * beta@ && gamma@ * bb == bb * gamma@
            && tau_1@ * bb == bb * tau_1@ && tau_2@ * bb == bb * tau_2@) by (nonlinear_arith);
    }
    let mut commitments: Vec<Point> = Vec::new();
    commitments.push(c_a);
    commitments.push(c_s);
    commitments.push(c_v);
    commitments.push(c_t1);
    commitments.push(c_t2);
    let mut blindings: Vec<Scalar> = Vec::new();
    blindings.push(alpha);
    blindings.push(beta);
    blindings.push(gamma);
    blindings.push(tau_1);
    blindings.push(tau_2);
    proof {
        assert(logs(commitments@) =~= ipa_commitments(
            a@,
            s_l@,
            b@,
            s_r@,
            logs(g_vec@),
            logs(h_vec@),
            _g.log(),
            _b.log(),
            vals(blindings@),
        ));
    }
    (commitments, blindings)
}

/// The blinding combinations `π_lr = α + β·u` and `π_t = γ + τ1·u + τ2·u²`.
pub fn generate_proof(blinding_factors: &Vec<Scalar>, u: &Scalar) -> (r: (Scalar, Scalar))
    requires
        blinding_factors@.len() == 5,
    ensures
        (r.0@, r.1@) == mul_openings(vals(blinding_factors@), u@),
{
    crate::zk_mul::generate_proof(blinding_factors, u)
}

/// The verifier's three checks: `C_a + u·C_s == ⟨l(u), G⃗⟩ + ⟨r(u), H⃗⟩ + π_lr·B`,
/// `t(u)·G + π_t·B == C_v + u·C_t1 + u²·C_t2` and `t(u) == ⟨l(u), r(u)⟩`.
pub fn verify_ipa(
    l_u: Coeff,
    r_u: Coeff,
    t_u: &Scalar,
    u: &Scalar,
    committments: &Vec<Point>,
    proofs: &(Scalar, Scalar),
    g_vec: Vec<Point>,
    h_vec: Vec<Point>,
    _g: &Point,
    _b: &Point,
) -> (r: bool)
    requires
        committments@.len() == 5,
        l_u.0@.len() == g_vec@.len(),
        r_u.0@.len() == h_vec@.len(),
        l_u.0@.len() == r_u.0@.len(),
    ensures
        r == ipa_accepts(
            logs(committments@),
            (proofs.0@, proofs.1@),
            u@,
            l_u@,
            r_u@,
            t_u@,
            logs(g_vec@),
            logs(h_vec@),
            _g.log(),
            _b.log(),
        ),
{
    let ghost m = group_order();
    let c_a = committments[0];
    let c_s = committments[1];
    let c_v = committments[2];
    let c_t1 = committments[3];
    let c_t2 = committments[4];
    let (pi_lr, pi_t) = *proofs;
    let lhs_1 = c_a.add(&c_s.mul(u));
    let rhs_1 = l_u.commit(&g_vec).add(&r_u.commit(&h_vec)).add(&_b.mul(&pi_lr));
    let lhs_2 = _g.mul(t_u).add(&_b.mul(&pi_t));
    let uu = u.mul(u);
    let rhs_2 = c_v.add(&c_t1.mul(u).add(&c_t2.mul(&uu)));
    let ip = l_u.inner_product(&r_u);
    proof {
        let (a, s, cv, t1, t2) = (c_a.log(), c_s.log(), c_v.log(), c_t1.log(), c_t2.log());
        let (gv, hv, gg, bb) = (logs(g_vec@), logs(h_vec@), _g.log(), _b.log());
        lemma_mod_mod_eq(crate::group::dlog(c_a@), m);
        lemma_mod_mod_eq(crate::group::dlog(c_v@), m);
        lemma_add_mod_noop(a, u@ * s, m);
        lemma_add3_mod(inner(l_u@, gv), inner(r_u@, hv), pi_lr@ * bb, m);
        lemma_add_mod_noop(t_u@ * gg, pi_t@ * bb, m);
        lemma_mul_mod_noop_left(u@ * u@, t2, m);
        lemma_add_mod_noop(u@ * t1, u@ * u@ * t2, m);
        lemma_add_mod_noop(cv, u@ * t1 + u@ * u@ * t2, m);
        assert(t_u@ * gg == gg * t_u@ && pi_t@ * bb == bb * pi_t@ && pi_lr@ * bb == bb * pi_lr@)
            by (nonlinear_arith);
        assert(cv + (u@ * t1 + u@ * u@ * t2) == cv + u@ * t1 + u@ * u@ * t2);
    }
    lhs_1.equals(&rhs_1) && lhs_2.equals(&rhs_2) && t_u.equals(&ip)
}

/// The honest `t(u) = ⟨a, b⟩ + t1·u + t2·u²`, with `t1 = ⟨a, s_r⟩ + ⟨b, s_l⟩`
/// and `t2 = ⟨s_l, s_r⟩` as `committment_vector_polynomials` computes them.
pub open spec fn ipa_evaluation(a: Seq<int>, s_l: Seq<int>, b: Seq<int>, s_r: Seq<int>, u: int) -> int {
    let m = group_order();
    let v = inner(a, b) % m;
    let t1 = (inner(a, s_r) % m + inner(b, s_l) % m) % m;
    let t2 = inner(s_l, s_r) % m;
    (v + t1 * u + t2 * u * u) % m
}

proof fn lemma_ring_ipa_open(ag: int, bh: int, sg: int, sh: int, al: int, be: int, bb: int, u: int)
    ensures
        1 * (ag + bh + al * bb) + u * (sg + sh + be * bb) + 0 * 0 == 1 * (ag + u * sg) + 1 * (bh + u
            * sh) + bb * (al + be * u),
{
    assert(u * (sg + sh + be * bb) == u * sg + u * sh + bb * (be * u)) by (nonlinear_arith);
    assert(bb * (al + be * u) == al * bb + bb * (be * u)) by (nonlinear_arith);
}

/// Completeness: for vectors `a, s_l, b, s_r` and bases `G⃗, H⃗` of one length,
/// any `G`, `B`, blindings and challenge `u`, the commitments, the openings,
/// `l(u) = a + s_l·u`, `r(u) = b + s_r·u` and the honest `t(u)` pass all three
/// checks of the verifier.
pub proof fn lemma_ipa_complete(
    a: Seq<int>,
    s_l: Seq<int>,
    b: Seq<int>,
    s_r: Seq<int>,
    gv: Seq<int>,
    hv: Seq<int>,
    g: int,
    bb: int,
    bl: Seq<int>,
    u: int,
)
    requires
        s_l.len() == a.len(),
        b.len() == a.len(),
        s_r.len() == a.len(),
        gv.len() == a.len(),
        hv.len() == a.len(),
        bl.len() == 5,
    ensures
        ipa_accepts(
            ipa_commitments(a, s_l, b, s_r, gv, hv, g, bb, bl),
            mul_openings(bl, u),
            u,
            lin_vec(a, s_l, u),
            lin_vec(b, s_r, u),
            ipa_evaluation(a, s_l, b, s_r, u),
            gv,
            hv,
            g,
            bb,
        ),
{
    let m = group_order();
    let c = ipa_commitments(a, s_l, b, s_r, gv, hv, g, bb, bl);
    let (pi_lr, pi_t) = mul_openings(bl, u);
    let (l_u, r_u) = (lin_vec(a, s_l, u), lin_vec(b, s_r, u));
    let t_u = ipa_evaluation(a, s_l, b, s_r, u);
    let v = inner(a, b) % m;
    let t1 = (inner(a, s_r) % m + inner(b, s_l) % m) % m;
    let t2 = inner(s_l, s_r) % m;
    // check 1
    let (ag, bh, sg, sh) = (inner(a, gv), inner(b, hv), inner(s_l, gv), inner(s_r, hv));
    let x0 = ag + bh + bl[0] * bb;
    let x1 = sg + sh + bl[1] * bb;
    lemma_eqm_mod(x0);
    lemma_eqm_mod(x1);
    lemma_eqm_mod(0);
    lemma_eqm_lin3(c[0], x0, c[1], x1, 0, 0, 1, u, 0);
    lemma_inner_lin(a, s_l, gv, u);
    lemma_inner_lin(b, s_r, hv, u);
    lemma_eqm_mod(bl[0] + bl[1] * u);
    lemma_eqm_lin3(
        inner(l_u, gv),
        ag + u * sg,
        inner(r_u, hv),
        bh + u * sh,
        pi_lr,
        bl[0] + bl[1] * u,
        1,
        1,
        bb,
    );
    lemma_ring_ipa_open(ag, bh, sg, sh, bl[0], bl[1], bb, u);
    assert(1 * c[0] + u * c[1] + 0 * 0 == c[0] + u * c[1]);
    assert(1 * inner(l_u, gv) + 1 * inner(r_u, hv) + bb * pi_lr == inner(l_u, gv) + inner(r_u, hv)
        + pi_lr * bb) by (nonlinear_arith);
    // check 2
    let tt = v + t1 * u + t2 * u * u;
    let pp = bl[2] + bl[3] * u + bl[4] * u * u;
    lemma_eqm_mod(tt);
    lemma_eqm_mod(pp);
    lemma_eqm_lin3(t_u, tt, pi_t, pp, 0, 0, g, bb, 0);
    let (y2, y3, y4) = (v * g + bl[2] * bb, t1 * g + bl[3] * bb, t2 * g + bl[4] * bb);
    lemma_eqm_mod(y2);
    lemma_eqm_mod(y3);
    lemma_eqm_mod(y4);
    lemma_eqm_lin3(c[2], y2, c[3], y3, c[4], y4, 1, u, u * u);
    crate::zk_mul::lemma_ring_product_commitments(v, t1, t2, g, bb, bl[2], bl[3], bl[4], u);
    assert(t_u * g + pi_t * bb == g * t_u + bb * pi_t + 0 * 0) by (nonlinear_arith);
    assert(1 * c[2] + u * c[3] + u * u * c[4] == c[2] + u * c[3] + u * u * c[4]);
    // check 3
    lemma_inner_lin2(a, s_l, b, s_r, u);
    crate::model::lemma_inner_commutes(s_l, b);
    lemma_eqm_mod(inner(a, b));
    lemma_eqm_mod(inner(a, s_r));
    lemma_eqm_mod(inner(b, s_l));
    lemma_eqm_mod(inner(s_l, s_r));
    lemma_eqm_add(inner(a, s_r) % m, inner(a, s_r), inner(b, s_l) % m, inner(b, s_l));
    lemma_eqm_mod(inner(a, s_r) % m + inner(b, s_l) % m);
    lemma_eqm_lin3(
        v,
        inner(a, b),
        t1,
        inner(a, s_r) + inner(b, s_l),
        t2,
        inner(s_l, s_r),
        1,
        u,
        u * u,
    );
    assert(1 * v + u * t1 + u * u * t2 == tt) by (nonlinear_arith)
        requires tt == v + t1 * u + t2 * u * u;
    assert(1 * inner(a, b) + u * (inner(a, s_r) + inner(b, s_l)) + u * u * inner(s_l, s_r)
        == inner(a, b) + u * (inner(a, s_r) + inner(s_l, b)) + u * u * inner(s_l, s_r));
    lemma_mod_mod_eq(tt, m);
}

/// Trailing zero coefficients do not change a polynomial's value.
pub proof fn lemma_trim_eval(c: Seq<int>, u: int)
    ensures
        eval(trim(c), u) == eval(c, u),
    decreases c.len(),
{
    if c.len() > 0 && c.last() == 0 {
        let n = (c.len() - 1) as nat;
        let d = c.drop_last();
        lemma_trim_eval(d, u);
        let f = |i: int| c[i] * pow(u, i as nat);
        let fd = |i: int| d[i] * pow(u, i as nat);
        crate::model::lemma_sum_ext(f, fd, n);
        assert(f(n as int) == 0) by (nonlinear_arith)
            requires f(n as int) == c[n as int] * pow(u, n), c[n as int] == 0;
    }
}

proof fn lemma_eval_two(c: Seq<int>, u: int)
    requires
        c.len() == 2,
    ensures
        eval(c, u) == c[0] + c[1] * u,
{
    let f = |i: int| c[i] * pow(u, i as nat);
    assert(crate::model::sum(f, 2) == crate::model::sum(f, 1) + f(1));
    assert(crate::model::sum(f, 1) == crate::model::sum(f, 0) + f(0));
    vstd::arithmetic::power::lemma_pow0(u);
    vstd::arithmetic::power::lemma_pow1(u);
}

proof fn lemma_eval_three(c: Seq<int>, u: int)
    requires
        c.len() == 3,
    ensures
        eval(c, u) == c[0] + c[1] * u + c[2] * u * u,
{
    let f = |i: int| c[i] * pow(u, i as nat);
    assert(crate::model::sum(f, 3) == crate::model::sum(f, 2) + f(2));
    assert(crate::model::sum(f, 2) == crate::model::sum(f, 1) + f(1));
    assert(crate::model::sum(f, 1) == crate::model::sum(f, 0) + f(0));
    vstd::arithmetic::power::lemma_pow0(u);
    vstd::arithmetic::power::lemma_pow1(u);
    vstd::arithmetic::power::lemma_square_is_pow2(u);
    assert(c[2] * (u * u) == c[2] * u * u) by (nonlinear_arith);
}

/// Whether `l` holds two coefficient vectors of length `n`.
pub open spec fn linear_of_length(l: Seq<Coeff>, n: nat) -> bool {
    l.len() == 2 && l[0]@.len() == n && l[1]@.len() == n
}

/// Evaluating the vector polynomial `a + s·x` at `u` gives `a + s·u`.
pub proof fn lemma_linear_evaluation(l: Seq<Coeff>, u: int)
    requires
        linear_of_length(l, l[0]@.len()),
    ensures
        Seq::new(l[0]@.len(), |j: int| eval(column(l, j), u) % group_order()) == lin_vec(
            l[0]@,
            l[1]@,
            u,
        ),
{
    assert forall|j: int| 0 <= j < l[0]@.len() implies #[trigger] eval(column(l, j), u)
        == l[0]@[j] + l[1]@[j] * u by {
        lemma_eval_two(column(l, j), u);
    }
    assert(Seq::new(l[0]@.len(), |j: int| eval(column(l, j), u) % group_order()) =~= lin_vec(
        l[0]@,
        l[1]@,
        u,
    ));
}

/// The product of `a + s_l·x` and `b + s_r·x`, evaluated at `u`, is the honest
/// `t(u)` of the argument.
pub proof fn lemma_product_evaluation(l: Seq<Coeff>, r: Seq<Coeff>, u: int)
    requires
        linear_of_length(l, l[0]@.len()),
        linear_of_length(r, l[0]@.len()),
    ensures
        eval(trim(conv_seq(inner_products(l, r), 2, 2)), u) % group_order() == ipa_evaluation(
            l[0]@,
            l[1]@,
            r[0]@,
            r[1]@,
            u,
        ),
{
    let m = group_order();
    let f = inner_products(l, r);
    let c = conv_seq(f, 2, 2);
    let (a, s_l, b, s_r) = (l[0]@, l[1]@, r[0]@, r[1]@);
    lemma_trim_eval(c, u);
    lemma_eval_three(c, u);
    assert forall|k: int| 0 <= k < 3 implies #[trigger] conv(f, 2, 2, k) == (if 0 <= k < 2 {
        f(0, k)
    } else {
        0
    }) + (if 0 <= k - 1 < 2 {
        f(1, k - 1)
    } else {
        0
    }) by {
        let g = |i: int| if 0 <= k - i < 2 { f(i, k - i) } else { 0 };
        assert(crate::model::sum(g, 2) == crate::model::sum(g, 1) + g(1));
        assert(crate::model::sum(g, 1) == crate::model::sum(g, 0) + g(0));
    }
    crate::model::lemma_inner_commutes(s_l, b);
    lemma_mod_mod_eq(inner(a, b), m);
    lemma_mod_mod_eq(inner(s_l, s_r), m);
    assert(c[0] == inner(a, b) % m);
    assert(c[1] == (inner(a, s_r) % m + inner(b, s_l) % m) % m);
    assert(c[2] == inner(s_l, s_r) % m);
}

/// Completeness from the polynomials: for `l(x) = a + s_l·x`, `r(x) = b + s_r·x`
/// with vectors as long as the bases, the commitments of
/// `committment_vector_polynomials`, the openings of `generate_proof`, the
/// evaluations `l(u)`, `r(u)` and the product `(l·r)(u)` pass all three checks.
pub proof fn lemma_ipa_complete_for_polynomials(
    l: Seq<Coeff>,
    r: Seq<Coeff>,
    gv: Seq<int>,
    hv: Seq<int>,
    g: int,
    bb: int,
    bl: Seq<int>,
    u: int,
)
    requires
        linear_of_length(l, gv.len()),
        linear_of_length(r, gv.len()),
        hv.len() == gv.len(),
        bl.len() == 5,
    ensures
        ipa_accepts(
            ipa_commitments(l[0]@, l[1]@, r[0]@, r[1]@, gv, hv, g, bb, bl),
            mul_openings(bl, u),
            u,
            Seq::new(l[0]@.len(), |j: int| eval(column(l, j), u) % group_order()),
            Seq::new(r[0]@.len(), |j: int| eval(column(r, j), u) % group_order()),
            eval(trim(conv_seq(inner_products(l, r), 2, 2)), u) % group_order(),
            gv,
            hv,
            g,
            bb,
        ),
{
    lemma_linear_evaluation(l, u);
    lemma_linear_evaluation(r, u);
    lemma_product_evaluation(l, r, u);
    lemma_ipa_complete(l[0]@, l[1]@, r[0]@, r[1]@, gv, hv, g, bb, bl, u);
}

} // verus!
