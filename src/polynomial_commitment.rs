//! Commitments to each coefficient of a polynomial, and the argument that the
//! committed polynomial takes a claimed value at a challenge point.
use crate::error::ProofError;
use crate::field::{group_order, Scalar};
use crate::group::Point;
use crate::model::{eqm, inv, is_unit, lemma_mod_mod_eq, logs, sum, vals};
use crate::polynomial::{eval, Polynomial};
use vstd::arithmetic::div_mod::{lemma_add_mod_noop, lemma_mul_mod_noop_right};
use vstd::arithmetic::power::pow;
use vstd::prelude::*;

verus! {

/// The commitments `C_i = c_i·G + γ_i·B` to the coefficients `c` with the blindings `γ`.
pub open spec fn coefficient_commitments(c: Seq<int>, gammas: Seq<int>, g: int, b: int) -> Seq<int> {
    Seq::new(c.len(), |i: int| (c[i] * g + gammas[i] * b) % group_order())
}

/// `C_i = c_i·G + γ_i·B` for each coefficient `c_i` of the polynomial; there
/// must be one blinding per coefficient.
pub fn commit_polynomial(
    poly: &Polynomial,
    gammas: &Vec<Scalar>,
    g: &Point,
    b: &Point,
) -> (r: Result<Vec<Point>, ProofError>)
    ensures
        poly@.len() != gammas@.len() ==> r == Err::<Vec<Point>, ProofError>(
            ProofError::LengthMismatch,
        ),
        poly@.len() == gammas@.len() ==> (r matches Ok(cs) && logs(cs@) == coefficient_commitments(
            poly@,
            vals(gammas@),
            g.log(),
            b.log(),
        )),
{
    let ghost m = group_order();
    let coeffs = poly.coeffs();
    if coeffs.len() != gammas.len() {
        assert(poly@.len() == coeffs@.len());
        return Err(ProofError::LengthMismatch);
    }
    let ghost target = coefficient_commitments(poly@, vals(gammas@), g.log(), b.log());
    let mut results: Vec<Point> = Vec::new();
    let mut i: usize = 0;
    while i < coeffs.len()
        invariant
            i <= coeffs@.len() == gammas@.len(),
            vals(coeffs@) == poly@,
            m == group_order(),
            target == coefficient_commitments(poly@, vals(gammas@), g.log(), b.log()),
            logs(results@) =~= target.take(i as int),
        decreases coeffs@.len() - i,
    {
        let c = g.mul(&coeffs[i]).add(&b.mul(&gammas[i]));
        proof {
            let (ci, gi) = (coeffs@[i as int]@, gammas@[i as int]@);
            lemma_add_mod_noop(ci * g.log(), gi * b.log(), m);
            assert(logs(results@.push(c)) =~= logs(results@).push(c.log()));
        }
        results.push(c);
        i = i + 1;
    }
    Ok(results)
}

/// `π = Σ γ_i·u^i`.
pub fn generate_proof(gammas: &Vec<Scalar>, u: &Scalar) -> (r: Scalar)
    ensures
        r@ == eval(vals(gammas@), u@) % group_order(),
{
    let ghost m = group_order();
    let ghost c = vals(gammas@);
    let ghost f = |i: int| c[i] * pow(u@, i as nat);
    let mut proof = Scalar::zero();
    let mut i: usize = 0;
    proof {
        vstd::arithmetic::div_mod::lemma_small_mod(0, m as nat);
    }
    while i < gammas.len()
        invariant
            i <= gammas@.len(),
            c == vals(gammas@),
            m == group_order(),
            f == (|i: int| c[i] * pow(u@, i as nat)),
            proof@ == sum(f, i as nat) % m,
        decreases gammas@.len() - i,
    {
        let t = gammas[i].mul(&u.pow(i as u64));
        let next = proof.add(&t);
        proof {
            lemma_mul_mod_noop_right(c[i as int], pow(u@, i as nat), m);
            lemma_add_mod_noop(sum(f, i as nat), f(i as int), m);
            lemma_mod_mod_eq(sum(f, i as nat), m);
            lemma_mod_mod_eq(f(i as int), m);
            assert(sum(f, (i + 1) as nat) == sum(f, i as nat) + f(i as int));
        }
        proof = next;
        i = i + 1;
    }
    proof
}

/// Checks `Σ u^i·C_i == f(u)·G + π·B`.
pub fn verify(
    commitments: &Vec<Point>,
    g: &Point,
    b: &Point,
    u: &Scalar,
    f_u: &Scalar,
    proof: &Scalar,
) -> (r: bool)
    ensures
        r == (eval(logs(commitments@), u@) % group_order() == (f_u@ * g.log() + proof@ * b.log())
            % group_order()),
{
    let ghost m = group_order();
    let ghost c = logs(commitments@);
    let ghost f = |i: int| c[i] * pow(u@, i as nat);
    let mut lhs = Point::identity();
    let mut i: usize = 0;
    proof {
        vstd::arithmetic::div_mod::lemma_small_mod(0, m as nat);
    }
    while i < commitments.len()
        invariant
            i <= commitments@.len(),
            c == logs(commitments@),
            m == group_order(),
            f == (|i: int| c[i] * pow(u@, i as nat)),
            lhs.log() == sum(f, i as nat) % m,
        decreases commitments@.len() - i,
    {
        let u_i = u.pow(i as u64);
        let next = lhs.add(&commitments[i].mul(&u_i));
        proof {
            let ci = c[i as int];
            vstd::arithmetic::div_mod::lemma_mul_mod_noop_left(pow(u@, i as nat), ci, m);
            assert(pow(u@, i as nat) * ci == ci * pow(u@, i as nat)) by (nonlinear_arith);
            lemma_add_mod_noop(sum(f, i as nat), f(i as int), m);
            lemma_mod_mod_eq(sum(f, i as nat), m);
            lemma_mod_mod_eq(f(i as int), m);
            assert(sum(f, (i + 1) as nat) == sum(f, i as nat) + f(i as int));
        }
        lhs = next;
        i = i + 1;
    }
    let rhs = g.mul(f_u).add(&b.mul(proof));
    proof {
        lemma_add_mod_noop(f_u@ * g.log(), proof@ * b.log(), m);
    }
    lhs.equals(&rhs)
}

/// Completeness: for coefficients `c` and blindings `γ` of one length, bases
/// `G`, `B` and any challenge `u`, the commitments `C_i = c_i·G + γ_i·B`, the
/// value `f(u)` and the proof `π = Σ γ_i·u^i` satisfy `Σ u^i·C_i == f(u)·G + π·B`.
pub proof fn lemma_evaluation_complete(c: Seq<int>, gammas: Seq<int>, g: int, b: int, u: int)
    requires
        c.len() == gammas.len(),
    ensures
        eval(coefficient_commitments(c, gammas, g, b), u) % group_order() == ((eval(c, u)
            % group_order()) * g + (eval(gammas, u) % group_order()) * b) % group_order(),
{
    let m = group_order();
    let n = c.len();
    let cc = coefficient_commitments(c, gammas, g, b);
    let f = |i: int| cc[i] * pow(u, i as nat);
    let fc = |i: int| c[i] * pow(u, i as nat);
    let fg = |i: int| gammas[i] * pow(u, i as nat);
    let h = |i: int| g * fc(i) + b * fg(i);
    assert forall|i: int| 0 <= i < n implies #[trigger] f(i) % m == h(i) % m by {
        let p = pow(u, i as nat);
        vstd::arithmetic::div_mod::lemma_mul_mod_noop_left(c[i] * g + gammas[i] * b, p, m);
        assert((c[i] * g + gammas[i] * b) * p == g * (c[i] * p) + b * (gammas[i] * p))
            by (nonlinear_arith);
    }
    crate::model::lemma_sum_mod(f, h, n);
    crate::model::lemma_sum_linear(fc, fg, h, g, b, n);
    let (ec, eg) = (eval(c, u), eval(gammas, u));
    crate::model::lemma_eqm_mod(ec);
    crate::model::lemma_eqm_mod(eg);
    crate::model::lemma_eqm_mod(0);
    crate::model::lemma_eqm_lin3(ec % m, ec, eg % m, eg, 0, 0, g, b, 0);
    assert((ec % m) * g == g * (ec % m) && (eg % m) * b == b * (eg % m)) by (nonlinear_arith);
}

/// Binding of the proof: when `B` is a unit (not the neutral element), at most
/// one proof value `π` satisfies `Σ u^i·C_i == f(u)·G + π·B` for given
/// commitments, challenge and value, so a tampered proof is rejected.
pub proof fn lemma_evaluation_proof_binding(lhs: int, f_u: int, g: int, b: int, pi_a: int, pi_b: int)
    requires
        is_unit(b),
        0 <= pi_a < group_order(),
        0 <= pi_b < group_order(),
        lhs == (f_u * g + pi_a * b) % group_order(),
        lhs == (f_u * g + pi_b * b) % group_order(),
    ensures
        pi_a == pi_b,
{
    let m = group_order();
    let bi = inv(b);
    crate::model::lemma_inv(b);
    // π·b ≡ π′·b
    vstd::arithmetic::div_mod::lemma_sub_mod_noop(f_u * g + pi_a * b, f_u * g, m);
    vstd::arithmetic::div_mod::lemma_sub_mod_noop(f_u * g + pi_b * b, f_u * g, m);
    assert(eqm(pi_a * b, pi_b * b));
    crate::model::lemma_eqm_mul(pi_a * b, pi_b * b, bi);
    // b·b⁻¹ ≡ 1
    assert(eqm(b * bi, 1)) by {
        vstd::arithmetic::div_mod::lemma_small_mod(1, m as nat);
    }
    crate::model::lemma_eqm_mul(b * bi, 1, pi_a);
    crate::model::lemma_eqm_mul(b * bi, 1, pi_b);
    assert(pi_a * b * bi == pi_a * (b * bi) && pi_b * b * bi == pi_b * (b * bi)) by (nonlinear_arith);
    vstd::arithmetic::div_mod::lemma_small_mod(pi_a as nat, m as nat);
    vstd::arithmetic::div_mod::lemma_small_mod(pi_b as nat, m as nat);
}

/// Binding of the value: when `G` is a unit (not the neutral element), at most
/// one value `f(u)` satisfies `Σ u^i·C_i == f(u)·G + π·B` for given
/// commitments, challenge and proof, so a wrong value is rejected.
pub proof fn lemma_evaluation_value_binding(lhs: int, pi: int, g: int, b: int, f_a: int, f_b: int)
    requires
        is_unit(g),
        0 <= f_a < group_order(),
        0 <= f_b < group_order(),
        lhs == (f_a * g + pi * b) % group_order(),
        lhs == (f_b * g + pi * b) % group_order(),
    ensures
        f_a == f_b,
{
    assert(f_a * g + pi * b == pi * b + f_a * g && f_b * g + pi * b == pi * b + f_b * g);
    lemma_evaluation_proof_binding(lhs, pi, b, g, f_a, f_b);
}

} // verus!
