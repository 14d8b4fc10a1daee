//! The logarithmic inner-product argument: `P = ⟨a, G⟩ + ⟨b, H⟩ + ⟨a, b⟩·Q` is
//! folded round by round with fresh challenges until one entry is left.
use crate::field::{group_order, Scalar};
use crate::group::Point;
use crate::model::{
    diagonal, eqm, evens, fold, inner, inv, is_unit, lemma_eqm_add, lemma_eqm_mod,
    lemma_eqm_mul, lemma_fold_cross, lemma_inner_scaled, lemma_inv_unique, lemma_two_to_pos, logs,
    odds, pad, scaled, two_to, vals,
};
use crate::pedersen_commitment::linear_combination;
use crate::random_ec_points::generate_random_field_element;
use crate::succinct_proof::inverse_of;
use vstd::prelude::*;

verus! {

/// `⟨a, g⟩` for vectors of equal length.
pub fn commit(committing_vector: &Vec<Scalar>, g_vec: &Vec<Point>) -> (r: Point)
    requires
        committing_vector@.len() == g_vec@.len(),
    ensures
        r.log() == inner(vals(committing_vector@), logs(g_vec@)) % group_order(),
{
    linear_combination(committing_vector, g_vec)
}

/// The points `a[i]·g[i]`.
pub fn hadamard_product(a_vec: &Vec<Scalar>, g_vec: &Vec<Point>) -> (r: Vec<Point>)
    requires
        a_vec@.len() == g_vec@.len(),
    ensures
        r@.len() == a_vec@.len(),
        forall|i: int|
            0 <= i < r@.len() ==> #[trigger] r@[i].log() == (a_vec@[i]@ * g_vec@[i].log())
                % group_order(),
{
    let mut r: Vec<Point> = Vec::new();
    let mut i: usize = 0;
    while i < a_vec.len()
        invariant
            i <= a_vec@.len() == g_vec@.len(),
            r@.len() == i,
            forall|j: int|
                0 <= j < i ==> #[trigger] r@[j].log() == (a_vec@[j]@ * g_vec@[j].log())
                    % group_order(),
        decreases a_vec@.len() - i,
    {
        r.push(g_vec[i].mul(&a_vec[i]));
        i = i + 1;
    }
    r
}

/// The points `b[i]·Q`.
fn times_point(b: &Vec<Scalar>, q: &Point) -> (r: Vec<Point>)
    ensures
        logs(r@) == scaled(vals(b@), q.log()),
        r@.len() == b@.len(),
{
    let mut qs: Vec<Point> = Vec::new();
    let mut i: usize = 0;
    while i < b.len()
        invariant
            i <= b@.len(),
            qs@.len() == i,
            forall|j: int| 0 <= j < i ==> #[trigger] qs@[j] == *q,
        decreases b@.len() - i,
    {
        qs.push(*q);
        i = i + 1;
    }
    let r = hadamard_product(b, &qs);
    proof {
        assert(logs(r@) =~= scaled(vals(b@), q.log()));
    }
    r
}

/// Each pair `(g[2i], g[2i+1])` replaced by `g[2i]·u + g[2i+1]·u⁻¹`, after
/// extending an odd-length vector by the neutral element.
pub fn fold_points(g_vec: Vec<Point>, u: &Scalar) -> (r: Vec<Point>)
    requires
        u@ != 0,
    ensures
        logs(r@) == fold(pad(logs(g_vec@)), u@, inv(u@)),
        r@.len() == (g_vec@.len() + 1) / 2,
{
    let mut g = g_vec;
    crate::succinct_proof::fold_group(&mut g, u)
}

/// Each pair `(a[2i], a[2i+1])` replaced by `a[2i]·u + a[2i+1]·u⁻¹`, after
/// extending an odd-length vector by one zero.
pub fn fold_field(a_vec: Vec<Scalar>, u: &Scalar) -> (r: Vec<Scalar>)
    requires
        u@ != 0,
    ensures
        vals(r@) == fold(pad(vals(a_vec@)), u@, inv(u@)),
        r@.len() == (a_vec@.len() + 1) / 2,
{
    let mut a = a_vec;
    crate::succinct_proof::fold_field(&mut a, u)
}

/// `(L, R)` with `L = ⟨evens(a), odds(g)⟩` and `R = ⟨odds(a), evens(g)⟩`,
/// after extending both vectors, when their length is odd, by a neutral element.
pub fn compute_secondary_diagonal(a: Vec<Scalar>, ec_points: Vec<Point>) -> (r: (Point, Point))
    requires
        a@.len() == ec_points@.len(),
    ensures
        (r.0.log(), r.1.log()) == diagonal(vals(a@), logs(ec_points@)),
{
    let mut a = a;
    let mut g = ec_points;
    crate::succinct_proof::compute_secondary_diagonal(&mut g, &mut a)
}

/// The cross terms of one round, summed over the three commitments: `(a, G)`,
/// `(b, H)` and `(a, Q⃗)` with `Q⃗[i] = b[i]·Q`. Since `b` is folded with `u⁻¹`
/// and `H` with `u`, the `(b, H)` terms enter with `L` and `R` exchanged.
pub fn compute_l_r(
    a: Vec<Scalar>,
    b: Vec<Scalar>,
    ec_points_g: Vec<Point>,
    ec_points_h: Vec<Point>,
    ec_points_q: Vec<Point>,
) -> (r: (Point, Point))
    requires
        a@.len() == b@.len(),
        a@.len() == ec_points_g@.len(),
        a@.len() == ec_points_h@.len(),
        a@.len() == ec_points_q@.len(),
    ensures
        r.0.log() == (diagonal(vals(a@), logs(ec_points_g@)).0 + diagonal(
            vals(b@),
            logs(ec_points_h@),
        ).1 + diagonal(vals(a@), logs(ec_points_q@)).0) % group_order(),
        r.1.log() == (diagonal(vals(a@), logs(ec_points_g@)).1 + diagonal(
            vals(b@),
            logs(ec_points_h@),
        ).0 + diagonal(vals(a@), logs(ec_points_q@)).1) % group_order(),
{
    let a2 = crate::succinct_proof::copy_vec(&a);
    let (l1_com, r1_com) = compute_secondary_diagonal(a, ec_points_g);
    let (l2_com, r2_com) = compute_secondary_diagonal(b, ec_points_h);
    let (l3_com, r3_com) = compute_secondary_diagonal(a2, ec_points_q);
    let l_com = l1_com.add(&r2_com).add(&l3_com);
    let r_com = r1_com.add(&l2_com).add(&r3_com);
    proof {
        let m = group_order();
        crate::model::lemma_add3_mod(l1_com.log(), r2_com.log(), l3_com.log(), m);
        crate::model::lemma_add3_mod(r1_com.log(), l2_com.log(), r3_com.log(), m);
        crate::model::lemma_mod_mod_eq(crate::group::dlog(l1_com@), m);
        crate::model::lemma_mod_mod_eq(crate::group::dlog(r2_com@), m);
        crate::model::lemma_mod_mod_eq(crate::group::dlog(l3_com@), m);
        crate::model::lemma_mod_mod_eq(crate::group::dlog(r1_com@), m);
        crate::model::lemma_mod_mod_eq(crate::group::dlog(l2_com@), m);
        crate::model::lemma_mod_mod_eq(crate::group::dlog(r3_com@), m);
    }
    (l_com, r_com)
}

/// The value that `P = ⟨a, G⟩ + ⟨b, H⟩ + ⟨a, b⟩·Q` commits to.
pub open spec fn ipa_value(a: Seq<int>, b: Seq<int>, g: Seq<int>, h: Seq<int>, q: int) -> int {
    inner(a, g) + inner(b, h) + q * inner(a, b)
}

/// The cross terms `(L, R)` of one round, as `compute_l_r` sums them.
pub open spec fn round_terms(a: Seq<int>, b: Seq<int>, g: Seq<int>, h: Seq<int>, q: int) -> (
    int,
    int,
) {
    let (d1, d2, d3) = (diagonal(a, g), diagonal(b, h), diagonal(a, scaled(b, q)));
    ((d1.0 + d2.1 + d3.0) % group_order(), (d1.1 + d2.0 + d3.1) % group_order())
}

/// One round of the argument keeps the commitment consistent: for vectors of
/// equal even length and a nonzero challenge `u`, `L·u² + P + R·u⁻²` commits to
/// the same value as `P` computed from `a` and `H` folded with `u`, `b` and `G`
/// folded with `u⁻¹`.
pub proof fn lemma_log_ipa_round(
    a: Seq<int>,
    b: Seq<int>,
    g: Seq<int>,
    h: Seq<int>,
    q: int,
    u: int,
)
    requires
        a.len() == b.len(),
        a.len() == g.len(),
        a.len() == h.len(),
        a.len() % 2 == 0,
        is_unit(u),
    ensures
        eqm(
            round_terms(a, b, g, h, q).0 * u * u + ipa_value(a, b, g, h, q) + round_terms(
                a,
                b,
                g,
                h,
                q,
            ).1 * inv(u) * inv(u),
            ipa_value(
                fold(a, u, inv(u)),
                fold(b, inv(u), u),
                fold(g, inv(u), u),
                fold(h, u, inv(u)),
                q,
            ),
        ),
{
    let m = group_order();
    let ui = inv(u);
    crate::model::lemma_inv(u);
    assert(eqm(u * ui, 1) && eqm(ui * u, 1)) by {
        vstd::arithmetic::div_mod::lemma_small_mod(1, m as nat);
        assert(ui * u == u * ui) by (nonlinear_arith);
    }
    let (ag, bh, ab) = (inner(a, g), inner(b, h), inner(a, b));
    let (x1, y1) = (inner(evens(a), odds(g)), inner(odds(a), evens(g)));
    let (x2, y2) = (inner(evens(b), odds(h)), inner(odds(b), evens(h)));
    let (x3, y3) = (inner(evens(a), odds(b)), inner(odds(a), evens(b)));
    let (l, r) = round_terms(a, b, g, h, q);
    // the cross terms of (a, Q⃗) are q times those of (a, b)
    let qs = scaled(b, q);
    assert(odds(qs) =~= scaled(odds(b), q));
    assert(evens(qs) =~= scaled(evens(b), q));
    lemma_inner_scaled(evens(a), odds(b), q);
    lemma_inner_scaled(odds(a), evens(b), q);
    let d3 = diagonal(a, qs);
    lemma_eqm_mod(inner(evens(a), odds(qs)));
    lemma_eqm_mod(inner(odds(a), evens(qs)));
    // l ≡ x1 + y2 + q·x3 and r ≡ y1 + x2 + q·y3
    lemma_eqm_mod(x1);
    lemma_eqm_mod(y1);
    lemma_eqm_mod(x2);
    lemma_eqm_mod(y2);
    lemma_eqm_add(x1 % m, x1, y2 % m, y2);
    lemma_eqm_add(x1 % m + y2 % m, x1 + y2, d3.0, q * x3);
    lemma_eqm_mod(x1 % m + y2 % m + d3.0);
    lemma_eqm_add(y1 % m, y1, x2 % m, x2);
    lemma_eqm_add(y1 % m + x2 % m, y1 + x2, d3.1, q * y3);
    lemma_eqm_mod(y1 % m + x2 % m + d3.1);
    let lx = x1 + y2 + q * x3;
    let rx = y1 + x2 + q * y3;
    lemma_eqm_mul(l, lx, u);
    lemma_eqm_mul(l * u, lx * u, u);
    lemma_eqm_mul(r, rx, ui);
    lemma_eqm_mul(r * ui, rx * ui, ui);
    let v = ipa_value(a, b, g, h, q);
    lemma_eqm_add(l * u * u, lx * u * u, v, v);
    lemma_eqm_add(l * u * u + v, lx * u * u + v, r * ui * ui, rx * ui * ui);
    // the folded inner products
    lemma_fold_cross(a, g, u, ui, u, ui);
    lemma_fold_cross(b, h, ui, u, ui, u);
    lemma_fold_cross(a, b, u, ui, u, ui);
    let fab = inner(fold(a, u, ui), fold(b, ui, u));
    lemma_eqm_mul(fab, ab + u * u * x3 + ui * ui * y3, q);
    let fag = inner(fold(a, u, ui), fold(g, ui, u));
    let fbh = inner(fold(b, ui, u), fold(h, u, ui));
    lemma_eqm_add(fag, ag + u * u * x1 + ui * ui * y1, fbh, bh + ui * ui * x2 + u * u * y2);
    lemma_eqm_add(
        fag + fbh,
        ag + u * u * x1 + ui * ui * y1 + (bh + ui * ui * x2 + u * u * y2),
        q * fab,
        q * (ab + u * u * x3 + ui * ui * y3),
    );
    assert(lx * u * u == lx * (u * u) && rx * ui * ui == rx * (ui * ui)) by (nonlinear_arith);
    lemma_round_ring(x1, y1, x2, y2, x3, y3, ag, bh, ab, q, u * u, ui * ui);
}

proof fn lemma_round_ring(
    x1: int,
    y1: int,
    x2: int,
    y2: int,
    x3: int,
    y3: int,
    ag: int,
    bh: int,
    ab: int,
    q: int,
    uu: int,
    ww: int,
)
    ensures
        (x1 + y2 + q * x3) * uu + (ag + bh + q * ab) + (y1 + x2 + q * y3) * ww == ag + uu * x1 + ww
            * y1 + (bh + ww * x2 + uu * y2) + q * (ab + uu * x3 + ww * y3),
{
    assert((x1 + y2 + q * x3) * uu == uu * x1 + uu * y2 + q * (uu * x3)) by (nonlinear_arith);
    assert((y1 + x2 + q * y3) * ww == ww * y1 + ww * x2 + q * (ww * y3)) by (nonlinear_arith);
    assert(q * (ab + uu * x3 + ww * y3) == q * ab + q * (uu * x3) + q * (ww * y3))
        by (nonlinear_arith);
}

proof fn lemma_inner_one(a: Seq<int>, b: Seq<int>)
    requires
        a.len() == 1,
    ensures
        inner(a, b) == a[0] * b[0],
{
    let f = |i: int| a[i] * b[i];
    assert(crate::model::sum(f, 1) == crate::model::sum(f, 0) + f(0));
}

/// `a` folded with `u` and `b` with `u⁻¹`, as the prover does in a round.
pub open spec fn fold_witness(a: Seq<int>, b: Seq<int>, u: int) -> (Seq<int>, Seq<int>) {
    (fold(pad(a), u, inv(u)), fold(pad(b), inv(u), u))
}

/// `G` folded with `u⁻¹` and `H` with `u`, as both parties do in a round.
pub open spec fn fold_bases(g: Seq<int>, h: Seq<int>, u: int) -> (Seq<int>, Seq<int>) {
    (fold(pad(g), inv(u), u), fold(pad(h), u, inv(u)))
}

/// The prover's vectors `(a_j, b_j)` after the first `j` challenges.
pub open spec fn witness_after(a: Seq<int>, b: Seq<int>, us: Seq<int>, j: nat) -> (
    Seq<int>,
    Seq<int>,
)
    decreases j,
{
    if j == 0 {
        (a, b)
    } else {
        let w = witness_after(a, b, us, (j - 1) as nat);
        fold_witness(w.0, w.1, us[j - 1])
    }
}

/// The bases `(G_j, H_j)` after the first `j` challenges.
pub open spec fn bases_after(g: Seq<int>, h: Seq<int>, us: Seq<int>, j: nat) -> (
    Seq<int>,
    Seq<int>,
)
    decreases j,
{
    if j == 0 {
        (g, h)
    } else {
        let w = bases_after(g, h, us, (j - 1) as nat);
        fold_bases(w.0, w.1, us[j - 1])
    }
}

/// The cross terms `(L_j, R_j)` that the honest prover sends in round `j`.
pub open spec fn honest_terms(
    a: Seq<int>,
    b: Seq<int>,
    g: Seq<int>,
    h: Seq<int>,
    q: int,
    us: Seq<int>,
    j: nat,
) -> (int, int) {
    let w = witness_after(a, b, us, j);
    let bs = bases_after(g, h, us, j);
    round_terms(w.0, w.1, bs.0, bs.1, q)
}

/// The verifier's commitment after `j` rounds: `P_{j+1} = L_j·u_j² + P_j + R_j·u_j⁻²`.
pub open spec fn verifier_commitment(p: int, ls: Seq<int>, rs: Seq<int>, us: Seq<int>, j: nat) -> int
    decreases j,
{
    if j == 0 {
        p
    } else {
        let u = us[j - 1];
        (ls[j - 1] * u * u + verifier_commitment(p, ls, rs, us, (j - 1) as nat) + rs[j - 1] * inv(u)
            * inv(u)) % group_order()
    }
}

/// The verifier's final check on the transcript `(L_j, R_j)`, the challenges
/// and the final scalars: `P_k == a*·G_k + b*·H_k + (a*·b*)·Q`.
pub open spec fn log_ipa_accepts(
    p: int,
    g: Seq<int>,
    h: Seq<int>,
    q: int,
    ls: Seq<int>,
    rs: Seq<int>,
    us: Seq<int>,
    a_star: int,
    b_star: int,
) -> bool {
    let k = us.len();
    let bs = bases_after(g, h, us, k);
    verifier_commitment(p, ls, rs, us, k) == (a_star * bs.0[0] + b_star * bs.1[0] + ((a_star
        * b_star) % group_order()) * q) % group_order()
}

/// What the prover sends: the cross terms `(L_j, R_j)` of each round and the
/// final scalars `(a*, b*)`.
#[derive(Clone, Debug)]
pub struct LogIpaTranscript {
    pub l: Vec<Point>,
    pub r: Vec<Point>,
    pub a_star: Scalar,
    pub b_star: Scalar,
}

/// Whether every challenge is a nonzero scalar.
pub open spec fn valid_challenges(us: Seq<Scalar>) -> bool {
    forall|i: int| 0 <= i < us.len() ==> (#[trigger] us[i])@ != 0
}

/// The prover's side of the argument for the challenges `us`: for vectors of
/// length `2^k`, `k` rounds each send the cross terms of the current vectors
/// and fold them with the round's challenge, and the last round sends the one
/// entry left of `a` and of `b`.
pub fn log_ipa_rounds(
    a: &Vec<Scalar>,
    b: &Vec<Scalar>,
    g_vec: &Vec<Point>,
    h_vec: &Vec<Point>,
    q: &Point,
    us: &Vec<Scalar>,
) -> (t: LogIpaTranscript)
    requires
        a@.len() == two_to(us@.len()),
        b@.len() == a@.len(),
        g_vec@.len() == a@.len(),
        h_vec@.len() == a@.len(),
        valid_challenges(us@),
    ensures
        t.l@.len() == us@.len(),
        t.r@.len() == us@.len(),
        forall|j: int|
            0 <= j < us@.len() ==> (#[trigger] t.l@[j].log(), t.r@[j].log()) == honest_terms(
                vals(a@),
                vals(b@),
                logs(g_vec@),
                logs(h_vec@),
                q.log(),
                vals(us@),
                j as nat,
            ),
        t.a_star@ == witness_after(vals(a@), vals(b@), vals(us@), us@.len()).0[0],
        t.b_star@ == witness_after(vals(a@), vals(b@), vals(us@), us@.len()).1[0],
{
    let ghost (a0, b0, g0, h0, uv, qd) = (
        vals(a@),
        vals(b@),
        logs(g_vec@),
        logs(h_vec@),
        vals(us@),
        q.log(),
    );
    let k = us.len();
    let mut a_j = crate::succinct_proof::copy_vec(a);
    let mut b_j = crate::succinct_proof::copy_vec(b);
    let mut g_j = crate::succinct_proof::copy_vec(g_vec);
    let mut h_j = crate::succinct_proof::copy_vec(h_vec);
    let mut ls: Vec<Point> = Vec::new();
    let mut rs: Vec<Point> = Vec::new();
    let mut j: usize = 0;
    while j < k
        invariant
            k == us@.len(),
            j <= k,
            uv == vals(us@),
            qd == q.log(),
            valid_challenges(us@),
            a_j@.len() == two_to((k - j) as nat),
            b_j@.len() == a_j@.len(),
            g_j@.len() == a_j@.len(),
            h_j@.len() == a_j@.len(),
            (vals(a_j@), vals(b_j@)) == witness_after(a0, b0, uv, j as nat),
            (logs(g_j@), logs(h_j@)) == bases_after(g0, h0, uv, j as nat),
            ls@.len() == j,
            rs@.len() == j,
            forall|i: int|
                0 <= i < j ==> (#[trigger] ls@[i].log(), rs@[i].log()) == honest_terms(
                    a0,
                    b0,
                    g0,
                    h0,
                    qd,
                    uv,
                    i as nat,
                ),
        decreases k - j,
    {
        proof {
            lemma_two_to_pos((k - j - 1) as nat);
            assert(two_to((k - j) as nat) == 2 * two_to((k - j - 1) as nat));
        }
        let q_vec = times_point(&b_j, q);
        let (l_com, r_com) = compute_l_r(
            crate::succinct_proof::copy_vec(&a_j),
            crate::succinct_proof::copy_vec(&b_j),
            crate::succinct_proof::copy_vec(&g_j),
            crate::succinct_proof::copy_vec(&h_j),
            q_vec,
        );
        ls.push(l_com);
        rs.push(r_com);
        let u = us[j];
        assert(u@ != 0);
        let u_inv = inverse_of(&u);
        let ghost prev_w = (vals(a_j@), vals(b_j@));
        let ghost prev_b = (logs(g_j@), logs(h_j@));
        g_j = fold_points(g_j, &u_inv);
        h_j = fold_points(h_j, &u);
        a_j = fold_field(a_j, &u);
        b_j = fold_field(b_j, &u_inv);
        proof {
            assert(uv[j as int] == u@);
            assert(witness_after(a0, b0, uv, (j + 1) as nat) == fold_witness(prev_w.0, prev_w.1, u@));
            assert(bases_after(g0, h0, uv, (j + 1) as nat) == fold_bases(prev_b.0, prev_b.1, u@));
            assert(vals(b_j@) == fold(pad(prev_w.1), inv(u@), u@));
            assert(logs(g_j@) == fold(pad(prev_b.0), inv(u@), u@));
            assert forall|i: int| 0 <= i < j + 1 implies (#[trigger] ls@[i].log(), rs@[i].log())
                == honest_terms(a0, b0, g0, h0, qd, uv, i as nat) by {
                if i == j {
                    assert(honest_terms(a0, b0, g0, h0, qd, uv, i as nat) == round_terms(
                        prev_w.0,
                        prev_w.1,
                        prev_b.0,
                        prev_b.1,
                        qd,
                    ));
                }
            }
        }
        j = j + 1;
    }
    LogIpaTranscript { l: ls, r: rs, a_star: a_j[0], b_star: b_j[0] }
}

/// The verifier's side: from the commitment `p`, the bases, `Q`, the
/// transcript and the challenges, it updates `P` and folds the bases round by
/// round and accepts iff `P_k == a*·G_k + b*·H_k + (a*·b*)·Q`.
pub fn verify_log_ipa(
    p: &Point,
    g_vec: &Vec<Point>,
    h_vec: &Vec<Point>,
    q: &Point,
    transcript: &LogIpaTranscript,
    us: &Vec<Scalar>,
) -> (r: bool)
    requires
        g_vec@.len() == two_to(us@.len()),
        h_vec@.len() == g_vec@.len(),
        transcript.l@.len() == us@.len(),
        transcript.r@.len() == us@.len(),
        valid_challenges(us@),
    ensures
        r == log_ipa_accepts(
            p.log(),
            logs(g_vec@),
            logs(h_vec@),
            q.log(),
            logs(transcript.l@),
            logs(transcript.r@),
            vals(us@),
            transcript.a_star@,
            transcript.b_star@,
        ),
{
    let ghost m = group_order();
    let ghost (g0, h0, uv, ls, rs) = (
        logs(g_vec@),
        logs(h_vec@),
        vals(us@),
        logs(transcript.l@),
        logs(transcript.r@),
    );
    let k = us.len();
    let mut p_j = *p;
    let mut g_j = crate::succinct_proof::copy_vec(g_vec);
    let mut h_j = crate::succinct_proof::copy_vec(h_vec);
    let mut j: usize = 0;
    while j < k
        invariant
            k == us@.len() == transcript.l@.len() == transcript.r@.len(),
            j <= k,
            m == group_order(),
            uv == vals(us@),
            ls == logs(transcript.l@),
            rs == logs(transcript.r@),
            valid_challenges(us@),
            g_j@.len() == two_to((k - j) as nat),
            h_j@.len() == g_j@.len(),
            (logs(g_j@), logs(h_j@)) == bases_after(g0, h0, uv, j as nat),
            p_j.log() == verifier_commitment(p.log(), ls, rs, uv, j as nat),
        decreases k - j,
    {
        proof {
            lemma_two_to_pos((k - j - 1) as nat);
            assert(two_to((k - j) as nat) == 2 * two_to((k - j - 1) as nat));
        }
        let u = us[j];
        assert(u@ != 0);
        let u_inv = inverse_of(&u);
        let l_j = transcript.l[j];
        let r_j = transcript.r[j];
        let next = l_j.mul(&u).mul(&u).add(&p_j).add(&r_j.mul(&u_inv).mul(&u_inv));
        proof {
            let (l, r, pv, ui) = (l_j.log(), r_j.log(), p_j.log(), u_inv@);
            assert(ls[j as int] == l && rs[j as int] == r && uv[j as int] == u@);
            crate::model::lemma_mul3_mod(l, u@, u@, m);
            crate::model::lemma_mul3_mod(r, ui, ui, m);
            crate::model::lemma_add3_mod(l * u@ * u@, pv, r * ui * ui, m);
            crate::model::lemma_mod_mod_eq(crate::group::dlog(p_j@), m);
        }
        let ghost prev_b = (logs(g_j@), logs(h_j@));
        p_j = next;
        g_j = fold_points(g_j, &u_inv);
        h_j = fold_points(h_j, &u);
        proof {
            assert(bases_after(g0, h0, uv, (j + 1) as nat) == fold_bases(prev_b.0, prev_b.1, u@));
            assert(logs(g_j@) == fold(pad(prev_b.0), inv(u@), u@));
        }
        j = j + 1;
    }
    let a_star = transcript.a_star;
    let b_star = transcript.b_star;
    let rhs = g_j[0].mul(&a_star).add(&h_j[0].mul(&b_star)).add(&q.mul(&a_star.mul(&b_star)));
    proof {
        let bs = bases_after(g0, h0, uv, k as nat);
        assert(bs.0[0] == g_j@[0].log() && bs.1[0] == h_j@[0].log());
        let (x, y, z) = (a_star@ * bs.0[0], b_star@ * bs.1[0], ((a_star@ * b_star@) % m) * q.log());
        crate::model::lemma_add3_mod(x, y, z, m);
    }
    p_j.equals(&rhs)
}

/// Completeness of the argument: for vectors of length `2^k`, any nonzero
/// challenges and `P = ⟨a, G⟩ + ⟨b, H⟩ + ⟨a, b⟩·Q`, the verifier accepts the
/// honest prover's transcript.
pub proof fn lemma_log_ipa_complete(
    a: Seq<int>,
    b: Seq<int>,
    g: Seq<int>,
    h: Seq<int>,
    q: int,
    us: Seq<int>,
)
    requires
        a.len() == two_to(us.len()),
        b.len() == a.len(),
        g.len() == a.len(),
        h.len() == a.len(),
        forall|i: int| 0 <= i < us.len() ==> is_unit(#[trigger] us[i]) && 0 <= us[i] < group_order(),
    ensures
        log_ipa_accepts(
            ipa_value(a, b, g, h, q) % group_order(),
            g,
            h,
            q,
            Seq::new(us.len(), |j: int| honest_terms(a, b, g, h, q, us, j as nat).0),
            Seq::new(us.len(), |j: int| honest_terms(a, b, g, h, q, us, j as nat).1),
            us,
            witness_after(a, b, us, us.len()).0[0],
            witness_after(a, b, us, us.len()).1[0],
        ),
{
    let m = group_order();
    let k = us.len();
    let ls = Seq::new(k, |j: int| honest_terms(a, b, g, h, q, us, j as nat).0);
    let rs = Seq::new(k, |j: int| honest_terms(a, b, g, h, q, us, j as nat).1);
    let p = ipa_value(a, b, g, h, q) % m;
    lemma_complete_upto(a, b, g, h, q, us, k);
    let w = witness_after(a, b, us, k);
    let bs = bases_after(g, h, us, k);
    lemma_inner_one(w.0, bs.0);
    lemma_inner_one(w.1, bs.1);
    lemma_inner_one(w.0, w.1);
    let (x, y) = (w.0[0] * bs.0[0], w.1[0] * bs.1[0]);
    let ab = w.0[0] * w.1[0];
    crate::model::lemma_eqm_mod(ab);
    lemma_eqm_mul(ab % m, ab, q);
    crate::model::lemma_eqm_mod(0);
    crate::model::lemma_eqm_lin3(x, x, y, y, (ab % m) * q, ab * q, 1, 1, 1);
    assert(ab * q == q * ab) by (nonlinear_arith);
    assert(1 * x + 1 * y + 1 * ((ab % m) * q) == x + y + (ab % m) * q);
    assert(1 * x + 1 * y + 1 * (ab * q) == ipa_value(w.0, w.1, bs.0, bs.1, q));
}

/// After `j` rounds the vectors keep length `2^(k - j)`, and the verifier's
/// commitment is the commitment of the folded vectors to the folded bases.
proof fn lemma_complete_upto(
    a: Seq<int>,
    b: Seq<int>,
    g: Seq<int>,
    h: Seq<int>,
    q: int,
    us: Seq<int>,
    j: nat,
)
    requires
        j <= us.len(),
        a.len() == two_to(us.len()),
        b.len() == a.len(),
        g.len() == a.len(),
        h.len() == a.len(),
        forall|i: int| 0 <= i < us.len() ==> is_unit(#[trigger] us[i]) && 0 <= us[i] < group_order(),
    ensures
        ({
            let w = witness_after(a, b, us, j);
            let bs = bases_after(g, h, us, j);
            &&& w.0.len() == two_to((us.len() - j) as nat)
            &&& w.1.len() == w.0.len()
            &&& bs.0.len() == w.0.len()
            &&& bs.1.len() == w.0.len()
            &&& verifier_commitment(
                ipa_value(a, b, g, h, q) % group_order(),
                Seq::new(us.len(), |i: int| honest_terms(a, b, g, h, q, us, i as nat).0),
                Seq::new(us.len(), |i: int| honest_terms(a, b, g, h, q, us, i as nat).1),
                us,
                j,
            ) == ipa_value(w.0, w.1, bs.0, bs.1, q) % group_order()
        }),
    decreases j,
{
    let m = group_order();
    let k = us.len();
    if j == 0 {
        crate::model::lemma_mod_mod_eq(ipa_value(a, b, g, h, q), m);
    } else {
        let i = (j - 1) as nat;
        lemma_complete_upto(a, b, g, h, q, us, i);
        let ls = Seq::new(k, |t: int| honest_terms(a, b, g, h, q, us, t as nat).0);
        let rs = Seq::new(k, |t: int| honest_terms(a, b, g, h, q, us, t as nat).1);
        let w = witness_after(a, b, us, i);
        let bs = bases_after(g, h, us, i);
        let u = us[i as int];
        let n = two_to((k - i) as nat);
        lemma_two_to_pos((k - j) as nat);
        assert(n == 2 * two_to((k - j) as nat));
        let (l, r) = round_terms(w.0, w.1, bs.0, bs.1, q);
        assert(ls[i as int] == l && rs[i as int] == r);
        let vprev = verifier_commitment(ipa_value(a, b, g, h, q) % m, ls, rs, us, i);
        let v = ipa_value(w.0, w.1, bs.0, bs.1, q);
        lemma_log_ipa_round(w.0, w.1, bs.0, bs.1, q, u);
        crate::model::lemma_eqm_mod(v);
        lemma_eqm_add(l * u * u, l * u * u, vprev, v);
        lemma_eqm_add(l * u * u + vprev, l * u * u + v, r * inv(u) * inv(u), r * inv(u) * inv(u));
        let nw = witness_after(a, b, us, j);
        let nb = bases_after(g, h, us, j);
        assert(nw == fold_witness(w.0, w.1, u));
        assert(nb == fold_bases(bs.0, bs.1, u));
        crate::model::lemma_mod_mod_eq(l * u * u + vprev + r * inv(u) * inv(u), m);
    }
}

proof fn lemma_units_in_range(us: Seq<Scalar>)
    requires
        forall|i: int| 0 <= i < us.len() ==> #[trigger] is_unit(vals(us)[i]),
    ensures
        forall|i: int|
            0 <= i < vals(us).len() ==> is_unit(#[trigger] vals(us)[i]) && 0 <= vals(us)[i]
                < group_order(),
{
    assert forall|i: int| 0 <= i < vals(us).len() implies is_unit(#[trigger] vals(us)[i]) && 0
        <= vals(us)[i] < group_order() by {
        Scalar::lemma_range(us[i]);
    }
}

proof fn lemma_honest_transcript(
    t: LogIpaTranscript,
    a: Seq<int>,
    b: Seq<int>,
    g: Seq<int>,
    h: Seq<int>,
    q: int,
    us: Seq<int>,
)
    requires
        t.l@.len() == us.len(),
        t.r@.len() == us.len(),
        forall|j: int|
            0 <= j < us.len() ==> (#[trigger] t.l@[j].log(), t.r@[j].log()) == honest_terms(
                a,
                b,
                g,
                h,
                q,
                us,
                j as nat,
            ),
    ensures
        logs(t.l@) == Seq::new(us.len(), |j: int| honest_terms(a, b, g, h, q, us, j as nat).0),
        logs(t.r@) == Seq::new(us.len(), |j: int| honest_terms(a, b, g, h, q, us, j as nat).1),
{
    let ls = Seq::new(us.len(), |j: int| honest_terms(a, b, g, h, q, us, j as nat).0);
    let rs = Seq::new(us.len(), |j: int| honest_terms(a, b, g, h, q, us, j as nat).1);
    assert forall|j: int| 0 <= j < us.len() implies logs(t.l@)[j] == #[trigger] ls[j] by {
        assert((t.l@[j].log(), t.r@[j].log()) == honest_terms(a, b, g, h, q, us, j as nat));
    }
    assert forall|j: int| 0 <= j < us.len() implies logs(t.r@)[j] == #[trigger] rs[j] by {
        assert((t.l@[j].log(), t.r@[j].log()) == honest_terms(a, b, g, h, q, us, j as nat));
    }
    assert(logs(t.l@) =~= ls);
    assert(logs(t.r@) =~= rs);
}

/// Runs the logarithmic inner-product argument on `a` and `b` with bases
/// `g_vec`, `h_vec` and `Q`: the vectors are extended by neutral entries to the
/// next power of two, `P = ⟨a, G⟩ + ⟨b, H⟩ + ⟨a, b⟩·Q` is committed, fresh
/// random challenges are drawn, and the verifier checks the honest prover's
/// transcript. An honest run always succeeds; empty vectors are rejected.
pub fn log_ipa_proof(
    a: Vec<Scalar>,
    b: Vec<Scalar>,
    g_vec: Vec<Point>,
    h_vec: Vec<Point>,
    q: Point,
) -> (r: bool)
    requires
        a@.len() == b@.len(),
        a@.len() == g_vec@.len(),
        a@.len() == h_vec@.len(),
        a@.len() <= usize::MAX / 2,
    ensures
        r == (a@.len() > 0),
{
    let ghost m = group_order();
    let n = a.len();
    if n == 0 {
        return false;
    }
    let mut size: usize = 1;
    let mut k: usize = 0;
    while size < n
        invariant
            size == two_to(k as nat),
            1 <= size <= 2 * n,
            k <= size,
            n <= usize::MAX / 2,
        decreases 2 * n - size,
    {
        size = size * 2;
        k = k + 1;
    }
    let mut a_prime = a;
    let mut b_prime = b;
    let mut g_prime = g_vec;
    let mut h_prime = h_vec;
    while a_prime.len() < size
        invariant
            a_prime@.len() == b_prime@.len(),
            a_prime@.len() == g_prime@.len(),
            a_prime@.len() == h_prime@.len(),
            a_prime@.len() <= size,
        decreases size - a_prime@.len(),
    {
        a_prime.push(Scalar::zero());
        b_prime.push(Scalar::zero());
        g_prime.push(Point::identity());
        h_prime.push(Point::identity());
    }
    let ghost qd = q.log();
    let q_vec = times_point(&b_prime, &q);
    let c_g = commit(&a_prime, &g_prime);
    let c_h = commit(&b_prime, &h_prime);
    let c_q = commit(&a_prime, &q_vec);
    let p_com = c_g.add(&c_h).add(&c_q);
    let ghost (aa, bb, gg, hh) = (vals(a_prime@), vals(b_prime@), logs(g_prime@), logs(h_prime@));
    proof {
        lemma_inner_scaled(aa, bb, qd);
        crate::model::lemma_add3_mod(inner(aa, gg), inner(bb, hh), inner(aa, scaled(bb, qd)), m);
        lemma_eqm_add(inner(aa, gg) + inner(bb, hh), inner(aa, gg) + inner(bb, hh), inner(aa, scaled(bb, qd)), qd * inner(aa, bb));
        crate::model::lemma_mod_mod_eq(ipa_value(aa, bb, gg, hh, qd), m);
    }
    let mut us: Vec<Scalar> = Vec::new();
    while us.len() < k
        invariant
            us@.len() <= k,
            valid_challenges(us@),
            forall|i: int| 0 <= i < us@.len() ==> #[trigger] is_unit(vals(us@)[i]),
        decreases k - us@.len(),
    {
        let u = generate_random_field_element();
        let u_inv = inverse_of(&u);
        proof {
            Scalar::lemma_range(u_inv);
            lemma_inv_unique(u@, u_inv@);
            assert(vals(us@.push(u)) =~= vals(us@).push(u@));
        }
        us.push(u);
    }
    let transcript = log_ipa_rounds(&a_prime, &b_prime, &g_prime, &h_prime, &q, &us);
    proof {
        lemma_units_in_range(us@);
        lemma_log_ipa_complete(aa, bb, gg, hh, qd, vals(us@));
        lemma_honest_transcript(transcript, aa, bb, gg, hh, qd, vals(us@));
    }
    verify_log_ipa(&p_com, &g_prime, &h_prime, &q, &transcript, &us)
}

/// Replacing round `j`'s cross term `L_j` by `x`, or `R_j` by `y`, shifts
/// every later verifier commitment by `(x - L_j)·u_j²`, or `(y - R_j)·u_j⁻²`.
proof fn lemma_commitment_shift(
    p: int,
    ls: Seq<int>,
    rs: Seq<int>,
    ls2: Seq<int>,
    rs2: Seq<int>,
    us: Seq<int>,
    j: nat,
    d: int,
    i: nat,
)
    requires
        j < i <= us.len(),
        ls.len() == us.len(),
        rs.len() == us.len(),
        ls2.len() == us.len(),
        rs2.len() == us.len(),
        forall|t: int| 0 <= t < us.len() && t != j ==> #[trigger] ls2[t] == ls[t] && rs2[t] == rs[t],
        d == (ls2[j as int] - ls[j as int]) * us[j as int] * us[j as int] + (rs2[j as int]
            - rs[j as int]) * inv(us[j as int]) * inv(us[j as int]),
    ensures
        eqm(
            verifier_commitment(p, ls2, rs2, us, i),
            verifier_commitment(p, ls, rs, us, i) + d,
        ),
    decreases i,
{
    let m = group_order();
    let t = (i - 1) as nat;
    let u = us[t as int];
    let v1 = verifier_commitment(p, ls, rs, us, t);
    let v2 = verifier_commitment(p, ls2, rs2, us, t);
    lemma_prefix_unchanged(p, ls, rs, ls2, rs2, us, j, j);
    if t == j {
        assert(v1 == v2);
    } else {
        lemma_commitment_shift(p, ls, rs, ls2, rs2, us, j, d, t);
        assert(ls2[t as int] == ls[t as int] && rs2[t as int] == rs[t as int]);
    }
    let x1 = ls[t as int] * u * u + v1 + rs[t as int] * inv(u) * inv(u);
    let x2 = ls2[t as int] * u * u + v2 + rs2[t as int] * inv(u) * inv(u);
    lemma_eqm_mod(x1);
    lemma_eqm_mod(x2);
    if t == j {
        assert(x2 == x1 + d) by (nonlinear_arith)
            requires
                x1 == ls[t as int] * u * u + v1 + rs[t as int] * inv(u) * inv(u),
                x2 == ls2[t as int] * u * u + v1 + rs2[t as int] * inv(u) * inv(u),
                d == (ls2[t as int] - ls[t as int]) * u * u + (rs2[t as int] - rs[t as int]) * inv(
                    u,
                ) * inv(u),
        ;
    } else {
        let c = ls[t as int] * u * u + rs[t as int] * inv(u) * inv(u);
        lemma_eqm_add(v2, v1 + d, c, c);
    }
    lemma_eqm_mod(x1 + d);
    lemma_eqm_add(x1 % m, x1, d, d);
}

/// Before round `j` nothing has changed.
proof fn lemma_prefix_unchanged(
    p: int,
    ls: Seq<int>,
    rs: Seq<int>,
    ls2: Seq<int>,
    rs2: Seq<int>,
    us: Seq<int>,
    j: nat,
    i: nat,
)
    requires
        i <= j < us.len(),
        ls.len() == us.len(),
        rs.len() == us.len(),
        ls2.len() == us.len(),
        rs2.len() == us.len(),
        forall|t: int| 0 <= t < us.len() && t != j ==> #[trigger] ls2[t] == ls[t] && rs2[t] == rs[t],
    ensures
        verifier_commitment(p, ls2, rs2, us, i) == verifier_commitment(p, ls, rs, us, i),
    decreases i,
{
    if i > 0 {
        lemma_prefix_unchanged(p, ls, rs, ls2, rs2, us, j, (i - 1) as nat);
        assert(ls2[i - 1] == ls[i - 1] && rs2[i - 1] == rs[i - 1]);
    }
}

/// Tampered cross terms are rejected: if the verifier accepts a transcript,
/// it rejects the transcript with any one `L_j` or `R_j` replaced by another
/// group element, for nonzero challenges.
pub proof fn lemma_log_ipa_rejects_tampering(
    p: int,
    g: Seq<int>,
    h: Seq<int>,
    q: int,
    ls: Seq<int>,
    rs: Seq<int>,
    us: Seq<int>,
    a_star: int,
    b_star: int,
    j: nat,
    x: int,
    y: int,
)
    requires
        j < us.len(),
        ls.len() == us.len(),
        rs.len() == us.len(),
        forall|i: int| 0 <= i < us.len() ==> is_unit(#[trigger] us[i]),
        log_ipa_accepts(p, g, h, q, ls, rs, us, a_star, b_star),
        !eqm(x, ls[j as int]) || !eqm(y, rs[j as int]),
        !eqm(x, ls[j as int]) ==> eqm(y, rs[j as int]),
    ensures
        !log_ipa_accepts(p, g, h, q, ls.update(j as int, x), rs.update(j as int, y), us, a_star, b_star),
{
    let m = group_order();
    let k = us.len();
    let u = us[j as int];
    let (ls2, rs2) = (ls.update(j as int, x), rs.update(j as int, y));
    let d = (x - ls[j as int]) * u * u + (y - rs[j as int]) * inv(u) * inv(u);
    lemma_commitment_shift(p, ls, rs, ls2, rs2, us, j, d, k);
    let v1 = verifier_commitment(p, ls, rs, us, k);
    let v2 = verifier_commitment(p, ls2, rs2, us, k);
    crate::model::lemma_inv(u);
    if v1 == v2 {
        // then d ≡ 0
        lemma_eqm_mod(v1);
        vstd::arithmetic::div_mod::lemma_sub_mod_noop(v1 + d, v1, m);
        vstd::arithmetic::div_mod::lemma_small_mod(0, m as nat);
        assert(eqm(d, 0));
        if !eqm(x, ls[j as int]) {
            lemma_eqm_mul(y, rs[j as int], inv(u) * inv(u));
            assert(y * (inv(u) * inv(u)) - rs[j as int] * (inv(u) * inv(u)) == (y - rs[j as int])
                * inv(u) * inv(u)) by (nonlinear_arith);
            vstd::arithmetic::div_mod::lemma_sub_mod_noop(y * (inv(u) * inv(u)), rs[j as int] * (inv(u) * inv(u)), m);
            lemma_eqm_add((x - ls[j as int]) * u * u, (x - ls[j as int]) * u * u, (y - rs[j as int]) * inv(u) * inv(u), 0);
            assert(eqm(u * inv(u), 1)) by {
                vstd::arithmetic::div_mod::lemma_small_mod(1, m as nat);
            }
            lemma_cancel_units(x - ls[j as int], u, inv(u));
            lemma_difference_zero(x, ls[j as int]);
        } else {
            lemma_eqm_mul(x, ls[j as int], u * u);
            assert(x * (u * u) - ls[j as int] * (u * u) == (x - ls[j as int]) * u * u) by (nonlinear_arith);
            vstd::arithmetic::div_mod::lemma_sub_mod_noop(x * (u * u), ls[j as int] * (u * u), m);
            lemma_eqm_add(0, (x - ls[j as int]) * u * u, (y - rs[j as int]) * inv(u) * inv(u), (y - rs[j as int]) * inv(u) * inv(u));
            assert(eqm(inv(u) * u, 1)) by {
                vstd::arithmetic::div_mod::lemma_small_mod(1, m as nat);
                assert(inv(u) * u == u * inv(u)) by (nonlinear_arith);
            }
            lemma_cancel_units(y - rs[j as int], inv(u), u);
            lemma_difference_zero(y, rs[j as int]);
        }
    }
}

/// A tampered final scalar is rejected: if the verifier accepts with `(a*, b*)`
/// and the final `G_k + b*·Q` is not the neutral element (a unit), it rejects
/// `(a', b*)` for every `a' ≢ a*`.
pub proof fn lemma_log_ipa_rejects_tampered_scalar(
    p: int,
    g: Seq<int>,
    h: Seq<int>,
    q: int,
    ls: Seq<int>,
    rs: Seq<int>,
    us: Seq<int>,
    a_star: int,
    b_star: int,
    a2: int,
)
    requires
        log_ipa_accepts(p, g, h, q, ls, rs, us, a_star, b_star),
        is_unit(bases_after(g, h, us, us.len()).0[0] + b_star * q),
        !eqm(a2, a_star),
    ensures
        !log_ipa_accepts(p, g, h, q, ls, rs, us, a2, b_star),
{
    let m = group_order();
    let bs = bases_after(g, h, us, us.len());
    let (g0, h0) = (bs.0[0], bs.1[0]);
    let w = g0 + b_star * q;
    if log_ipa_accepts(p, g, h, q, ls, rs, us, a2, b_star) {
        let e1 = a_star * g0 + b_star * h0 + ((a_star * b_star) % m) * q;
        let e2 = a2 * g0 + b_star * h0 + ((a2 * b_star) % m) * q;
        assert(eqm(e1, e2));
        lemma_eqm_mod(a_star * b_star);
        lemma_eqm_mod(a2 * b_star);
        lemma_eqm_mul((a_star * b_star) % m, a_star * b_star, q);
        lemma_eqm_mul((a2 * b_star) % m, a2 * b_star, q);
        let c = b_star * h0;
        lemma_eqm_add(a_star * g0 + c, a_star * g0 + c, ((a_star * b_star) % m) * q, (a_star * b_star) * q);
        lemma_eqm_add(a2 * g0 + c, a2 * g0 + c, ((a2 * b_star) % m) * q, (a2 * b_star) * q);
        assert(a2 * g0 + c + (a2 * b_star) * q - (a_star * g0 + c + (a_star * b_star) * q) == (a2
            - a_star) * w) by (nonlinear_arith)
            requires w == g0 + b_star * q;
        vstd::arithmetic::div_mod::lemma_sub_mod_noop(
            a2 * g0 + c + (a2 * b_star) * q,
            a_star * g0 + c + (a_star * b_star) * q,
            m,
        );
        vstd::arithmetic::div_mod::lemma_small_mod(0, m as nat);
        lemma_cancel_unit(a2 - a_star, w);
        lemma_difference_zero(a2, a_star);
    }
}

/// If `x·w ≡ 0` for a unit `w` then `x ≡ 0`.
proof fn lemma_cancel_unit(x: int, w: int)
    requires
        (x * w) % group_order() == 0,
        is_unit(w),
    ensures
        x % group_order() == 0,
{
    let m = group_order();
    crate::model::lemma_inv(w);
    let wi = inv(w);
    vstd::arithmetic::div_mod::lemma_small_mod(0, m as nat);
    vstd::arithmetic::div_mod::lemma_small_mod(1, m as nat);
    lemma_eqm_mul(x * w, 0, wi);
    lemma_eqm_mul(w * wi, 1, x);
    assert(x * w * wi == x * (w * wi) && 0 * wi == 0 && x * 1 == x) by (nonlinear_arith);
}

/// `(a - b) % m == 0` means `a ≡ b`.
proof fn lemma_difference_zero(a: int, b: int)
    requires
        (a - b) % group_order() == 0,
    ensures
        eqm(a, b),
{
    let m = group_order();
    vstd::arithmetic::div_mod::lemma_sub_mod_noop(a, b, m);
    vstd::arithmetic::div_mod::lemma_mod_bound(a, m);
    vstd::arithmetic::div_mod::lemma_mod_bound(b, m);
    let e = a % m - b % m;
    if e != 0 {
        if e > 0 {
            vstd::arithmetic::div_mod::lemma_small_mod(e as nat, m as nat);
        } else {
            vstd::arithmetic::div_mod::lemma_mod_add_multiples_vanish(e, m);
            vstd::arithmetic::div_mod::lemma_small_mod((e + m) as nat, m as nat);
        }
    }
}

/// If `d·a·a ≡ 0` and `a·b ≡ 1` then `d ≡ 0`.
proof fn lemma_cancel_units(d: int, a: int, b: int)
    requires
        eqm(d * a * a, 0),
        eqm(a * b, 1),
    ensures
        d % group_order() == 0,
{
    let m = group_order();
    lemma_eqm_mul(d * a * a, 0, b * b);
    lemma_eqm_mul(a * b, 1, a * b);
    lemma_eqm_mul(a * b * (a * b), 1, d);
    assert(d * a * a * (b * b) == d * (a * b * (a * b)) && 0 * (b * b) == 0 && d * 1 == d && 1 * (a * b) == a * b)
        by (nonlinear_arith);
    assert(eqm(a * b * (a * b), 1));
}

} // verus!
