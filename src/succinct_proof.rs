//! One folding round of a committed vector: the secondary-diagonal cross
//! terms, the halving of scalars and generators, and the check that ties them.
use crate::error::ProofError;
use crate::field::{group_order, Scalar};
use crate::group::Point;
use crate::model::{
    diagonal, eqm, evens, fold, inner, inv, is_unit, lemma_add3_mod, lemma_eqm_add, lemma_eqm_mod,
    lemma_eqm_mul, lemma_fold_cross, lemma_inner_pad, lemma_inv, lemma_inv_unique, lemma_logs_halves,
    lemma_mul3_mod, lemma_vals_halves, logs, odds, pad, vals,
};
use crate::pedersen_commitment::linear_combination;
use vstd::arithmetic::div_mod::lemma_add_mod_noop;
use vstd::prelude::*;

verus! {

/// The entries at even indices and those at odd indices of an even-length vector.
pub(crate) fn halves<T: Copy>(a: &Vec<T>) -> (r: (Vec<T>, Vec<T>))
    requires
        a@.len() % 2 == 0,
    ensures
        r.0@ == Seq::new(a@.len() / 2, |i: int| a@[2 * i]),
        r.1@ == Seq::new(a@.len() / 2, |i: int| a@[2 * i + 1]),
{
    let mut l: Vec<T> = Vec::new();
    let mut r: Vec<T> = Vec::new();
    let half = a.len() / 2;
    let mut i: usize = 0;
    while i < half
        invariant
            half == a@.len() / 2,
            a@.len() % 2 == 0,
            2 * half == a@.len(),
            a@.len() <= usize::MAX,
            i <= half,
            l@ =~= Seq::new(i as nat, |j: int| a@[2 * j]),
            r@ =~= Seq::new(i as nat, |j: int| a@[2 * j + 1]),
        decreases half - i,
    {
        l.push(a[2 * i]);
        r.push(a[2 * i + 1]);
        i = i + 1;
    }
    (l, r)
}

/// A copy of the vector.
pub(crate) fn copy_vec<T: Copy>(v: &Vec<T>) -> (r: Vec<T>)
    ensures
        r@ == v@,
{
    let mut r: Vec<T> = Vec::new();
    let mut i: usize = 0;
    while i < v.len()
        invariant
            i <= v@.len(),
            r@ =~= v@.take(i as int),
        decreases v@.len() - i,
    {
        r.push(v[i]);
        i = i + 1;
    }
    proof {
        assert(v@.take(v@.len() as int) =~= v@);
    }
    r
}

/// Extends an odd-length vector of scalars by one zero.
pub(crate) fn pad_scalars(a: &mut Vec<Scalar>)
    ensures
        vals(final(a)@) == pad(vals(old(a)@)),
        final(a)@.len() == pad(vals(old(a)@)).len(),
        final(a)@.len() % 2 == 0,
{
    if a.len() % 2 != 0 {
        a.push(Scalar::zero());
    }
    proof {
        assert(vals(final(a)@) =~= pad(vals(old(a)@)));
    }
}

/// Extends an odd-length vector of points by the neutral element.
pub(crate) fn pad_points(g: &mut Vec<Point>)
    ensures
        logs(final(g)@) == pad(logs(old(g)@)),
        final(g)@.len() == pad(logs(old(g)@)).len(),
        final(g)@.len() % 2 == 0,
{
    if g.len() % 2 != 0 {
        g.push(Point::identity());
    }
    proof {
        assert(logs(final(g)@) =~= pad(logs(old(g)@)));
    }
}

/// `a[2i]·x + a[2i+1]·y` for each pair of an even-length vector of scalars.
pub(crate) fn fold_scalars_with(a: &Vec<Scalar>, x: &Scalar, y: &Scalar) -> (r: Vec<Scalar>)
    requires
        a@.len() % 2 == 0,
    ensures
        vals(r@) == fold(vals(a@), x@, y@),
{
    let ghost m = group_order();
    let mut r: Vec<Scalar> = Vec::new();
    let half = a.len() / 2;
    let mut i: usize = 0;
    while i < half
        invariant
            half == a@.len() / 2,
            a@.len() % 2 == 0,
            2 * half == a@.len(),
            a@.len() <= usize::MAX,
            i <= half,
            m == group_order(),
            vals(r@) =~= fold(vals(a@), x@, y@).take(i as int),
        decreases half - i,
    {
        let v = a[2 * i].mul(x).add(&a[2 * i + 1].mul(y));
        let ghost f = fold(vals(a@), x@, y@);
        proof {
            lemma_add_mod_noop(a@[2 * i as int]@ * x@, a@[2 * i + 1]@ * y@, m);
            assert(v@ == f[i as int]);
        }
        let ghost prev = r@;
        r.push(v);
        proof {
            assert(vals(r@) =~= vals(prev).push(v@));
            assert(f.take(i + 1 as int) =~= f.take(i as int).push(f[i as int]));
        }
        i = i + 1;
    }
    proof {
        assert(fold(vals(a@), x@, y@).take(half as int) =~= fold(vals(a@), x@, y@));
    }
    r
}

/// `g[2i]·x + g[2i+1]·y` for each pair of an even-length vector of points.
pub(crate) fn fold_points_with(g: &Vec<Point>, x: &Scalar, y: &Scalar) -> (r: Vec<Point>)
    requires
        g@.len() % 2 == 0,
    ensures
        logs(r@) == fold(logs(g@), x@, y@),
{
    let ghost m = group_order();
    let mut r: Vec<Point> = Vec::new();
    let half = g.len() / 2;
    let mut i: usize = 0;
    while i < half
        invariant
            half == g@.len() / 2,
            g@.len() % 2 == 0,
            2 * half == g@.len(),
            g@.len() <= usize::MAX,
            i <= half,
            m == group_order(),
            logs(r@) =~= fold(logs(g@), x@, y@).take(i as int),
        decreases half - i,
    {
        let p = g[2 * i].mul(x).add(&g[2 * i + 1].mul(y));
        proof {
            let (g0, g1) = (g@[2 * i as int].log(), g@[2 * i + 1].log());
            lemma_add_mod_noop(x@ * g0, y@ * g1, m);
            assert(x@ * g0 == g0 * x@ && y@ * g1 == g1 * y@) by (nonlinear_arith);
        }
        let ghost f = fold(logs(g@), x@, y@);
        assert(p.log() == f[i as int]);
        let ghost prev = r@;
        r.push(p);
        proof {
            assert(logs(r@) =~= logs(prev).push(p.log()));
            assert(f.take(i + 1 as int) =~= f.take(i as int).push(f[i as int]));
        }
        i = i + 1;
    }
    proof {
        assert(fold(logs(g@), x@, y@).take(half as int) =~= fold(logs(g@), x@, y@));
    }
    r
}

/// The inverse of a nonzero scalar.
pub(crate) fn inverse_of(u: &Scalar) -> (r: Scalar)
    requires
        u@ != 0,
    ensures
        r@ == inv(u@),
        r@ != 0,
        (u@ * r@) % group_order() == 1,
        inv(r@) == u@,
{
    match u.inverse() {
        Some(v) => {
            proof {
                Scalar::lemma_range(v);
                Scalar::lemma_range(*u);
                lemma_inv_unique(u@, v@);
                assert(v@ * u@ == u@ * v@) by (nonlinear_arith);
                lemma_inv_unique(v@, u@);
                if v@ == 0 {
                    assert(u@ * v@ == 0) by (nonlinear_arith)
                        requires v@ == 0;
                    vstd::arithmetic::div_mod::lemma_small_mod(0, group_order() as nat);
                }
            }
            v
        },
        None => {
            proof {
                assert(false);
            }
            Scalar::zero()
        },
    }
}

/// `C = Σ v[i]·g[i]` for vectors of equal length.
pub fn commit(committing_vector: &Vec<Scalar>, g_vec: &Vec<Point>) -> (r: Result<
    Point,
    ProofError,
>)
    ensures
        committing_vector@.len() != g_vec@.len() ==> r == Err::<Point, ProofError>(
            ProofError::LengthMismatch,
        ),
        committing_vector@.len() == g_vec@.len() ==> (r matches Ok(c) && c.log() == inner(
            vals(committing_vector@),
            logs(g_vec@),
        ) % group_order()),
{
    if committing_vector.len() != g_vec.len() {
        return Err(ProofError::LengthMismatch);
    }
    Ok(linear_combination(committing_vector, g_vec))
}

/// `(L, R)` with `L = ⟨evens(a), odds(g)⟩` and `R = ⟨odds(a), evens(g)⟩`,
/// after extending both vectors, when their length is odd, by a neutral element.
pub fn compute_secondary_diagonal(g_vec: &mut Vec<Point>, a: &mut Vec<Scalar>) -> (r: (
    Point,
    Point,
))
    requires
        old(a)@.len() == old(g_vec)@.len(),
    ensures
        vals(final(a)@) == pad(vals(old(a)@)),
        logs(final(g_vec)@) == pad(logs(old(g_vec)@)),
        (r.0.log(), r.1.log()) == diagonal(vals(old(a)@), logs(old(g_vec)@)),
{
    pad_scalars(a);
    pad_points(g_vec);
    let (l, r) = halves(a);
    let (g1, g2) = halves(g_vec);
    proof {
        lemma_vals_halves(a@, l@, r@);
        lemma_logs_halves(g_vec@, g1@, g2@);
    }
    (linear_combination(&l, &g2), linear_combination(&r, &g1))
}

/// The commitment `⟨a, g⟩` and the cross terms `(L, R)` of one folding round.
pub fn commit_vector(a: &mut Vec<Scalar>, g_vec: &mut Vec<Point>) -> (r: (Point, Point, Point))
    requires
        old(a)@.len() == old(g_vec)@.len(),
    ensures
        vals(final(a)@) == pad(vals(old(a)@)),
        logs(final(g_vec)@) == pad(logs(old(g_vec)@)),
        r.0.log() == inner(vals(old(a)@), logs(old(g_vec)@)) % group_order(),
        (r.1.log(), r.2.log()) == diagonal(vals(old(a)@), logs(old(g_vec)@)),
{
    let c = linear_combination(a, g_vec);
    let (l, r) = compute_secondary_diagonal(g_vec, a);
    (c, l, r)
}

/// Each pair `(a[2i], a[2i+1])` replaced by `a[2i]·u + a[2i+1]·u⁻¹`, after
/// extending an odd-length vector by one zero.
pub fn fold_field(a: &mut Vec<Scalar>, u: &Scalar) -> (r: Vec<Scalar>)
    requires
        u@ != 0,
    ensures
        vals(final(a)@) == pad(vals(old(a)@)),
        vals(r@) == fold(pad(vals(old(a)@)), u@, inv(u@)),
        r@.len() == (old(a)@.len() + 1) / 2,
{
    pad_scalars(a);
    let u_inv = inverse_of(u);
    let r = fold_scalars_with(a, u, &u_inv);
    assert(r@.len() == vals(r@).len());
    r
}

/// Each pair `(g[2i], g[2i+1])` replaced by `g[2i]·u + g[2i+1]·u⁻¹`, after
/// extending an odd-length vector by the neutral element.
pub fn fold_group(a: &mut Vec<Point>, u: &Scalar) -> (r: Vec<Point>)
    requires
        u@ != 0,
    ensures
        logs(final(a)@) == pad(logs(old(a)@)),
        logs(r@) == fold(pad(logs(old(a)@)), u@, inv(u@)),
        r@.len() == (old(a)@.len() + 1) / 2,
        final(a)@.len() == old(a)@.len() + old(a)@.len() % 2,
{
    pad_points(a);
    let u_inv = inverse_of(u);
    let r = fold_points_with(a, u, &u_inv);
    assert(r@.len() == logs(r@).len());
    r
}

/// Checks `L·u² + C + R·u⁻² == ⟨proof, fold_group(g, u⁻¹)⟩` for the commitments
/// `(C, L, R)` of a folding round and the folded vector `proof`.
pub fn verify_succinct_proof(
    committments: &(Point, Point, Point),
    proof: &Vec<Scalar>,
    u: &Scalar,
    g_vec: &mut Vec<Point>,
) -> (r: bool)
    requires
        u@ != 0,
        proof@.len() == (old(g_vec)@.len() + 1) / 2,
    ensures
        logs(final(g_vec)@) == pad(logs(old(g_vec)@)),
        final(g_vec)@.len() == old(g_vec)@.len() + old(g_vec)@.len() % 2,
        r == ((committments.1.log() * u@ * u@ + committments.0.log() + committments.2.log() * inv(
            u@,
        ) * inv(u@)) % group_order() == inner(
            vals(proof@),
            fold(pad(logs(old(g_vec)@)), inv(u@), u@),
        ) % group_order()),
{
    let ghost m = group_order();
    let (c_a, c_l, c_r) = committments;
    let u_inv = inverse_of(u);
    let u_square_inv = u_inv.mul(&u_inv);
    let l_u_squared = c_l.mul(u).mul(u);
    let r_u_inv_squared = c_r.mul(&u_square_inv);
    let lhs = l_u_squared.add(c_a).add(&r_u_inv_squared);
    let folded_g_vec = fold_group(g_vec, &u_inv);
    assert(folded_g_vec@.len() == logs(folded_g_vec@).len());
    let rhs = linear_combination(proof, &folded_g_vec);
    proof {
        let (a, l, rr, ui) = (c_a.log(), c_l.log(), c_r.log(), u_inv@);
        lemma_mul3_mod(l, u@, u@, m);
        vstd::arithmetic::div_mod::lemma_mul_mod_noop_left(ui * ui, rr, m);
        assert((ui * ui) * rr == rr * ui * ui) by (nonlinear_arith);
        lemma_add3_mod(l * u@ * u@, a, rr * ui * ui, m);
        crate::model::lemma_mod_mod_eq(crate::group::dlog(c_a@), m);
    }
    lhs.equals(&rhs)
}

/// The entries at even indices and those at odd indices, after extending an
/// odd-length vector by `T::default()`.
pub fn split_vector<T: Clone + Default>(a: &mut Vec<T>) -> (r: (Vec<T>, Vec<T>))
    ensures
        old(a)@.len() % 2 == 0 ==> final(a)@ == old(a)@,
        old(a)@.len() % 2 == 1 ==> final(a)@.len() == old(a)@.len() + 1 && final(a)@.take(
            old(a)@.len() as int,
        ) == old(a)@ && call_ensures(T::default, (), final(a)@.last()),
        r.0@.len() == final(a)@.len() / 2,
        r.1@.len() == final(a)@.len() / 2,
        forall|i: int| 0 <= i < r.0@.len() ==> cloned(final(a)@[2 * i], #[trigger] r.0@[i]),
        forall|i: int| 0 <= i < r.1@.len() ==> cloned(final(a)@[2 * i + 1], #[trigger] r.1@[i]),
{
    if a.len() % 2 != 0 {
        let d = T::default();
        a.push(d);
        proof {
            assert(a@.take(old(a)@.len() as int) =~= old(a)@);
        }
    }
    let mut l: Vec<T> = Vec::new();
    let mut r: Vec<T> = Vec::new();
    let half = a.len() / 2;
    let mut i: usize = 0;
    while i < half
        invariant
            half == a@.len() / 2,
            a@.len() % 2 == 0,
            2 * half == a@.len(),
            a@.len() <= usize::MAX,
            i <= half,
            l@.len() == i,
            r@.len() == i,
            forall|j: int| 0 <= j < i ==> cloned(a@[2 * j], #[trigger] l@[j]),
            forall|j: int| 0 <= j < i ==> cloned(a@[2 * j + 1], #[trigger] r@[j]),
        decreases half - i,
    {
        l.push(a[2 * i].clone());
        r.push(a[2 * i + 1].clone());
        i = i + 1;
    }
    (l, r)
}

/// Folding identity: for a vector `a` and generators `g` of equal length and a
/// nonzero challenge `u`, with `(L, R)` the secondary diagonal of `(a, g)`,
/// `L·u² + ⟨a, g⟩ + R·u⁻²` is the commitment of `fold_field(a, u)` to
/// `fold_group(g, u⁻¹)`.
pub proof fn lemma_folding_identity(a: Seq<int>, g: Seq<int>, u: int)
    requires
        a.len() == g.len(),
        is_unit(u),
    ensures
        (diagonal(a, g).0 * u * u + inner(a, g) % group_order() + diagonal(a, g).1 * inv(u) * inv(u))
            % group_order() == inner(fold(pad(a), u, inv(u)), fold(pad(g), inv(u), inv(inv(u))))
            % group_order(),
{
    let m = group_order();
    let ui = inv(u);
    lemma_inv(u);
    vstd::arithmetic::div_mod::lemma_mod_bound(u, m);
    vstd::arithmetic::div_mod::lemma_mul_mod_noop_right(ui, u, m);
    assert(ui * u == u * ui) by (nonlinear_arith);
    lemma_inv_unique(ui, u % m);
    let uii = inv(ui);
    let (pa, pg) = (pad(a), pad(g));
    let (l, r) = diagonal(a, g);
    let (eo, oe) = (inner(evens(pa), odds(pg)), inner(odds(pa), evens(pg)));
    lemma_inner_pad(a, g);
    // ui·uii ≡ 1 and u·ui ≡ 1
    lemma_inv(ui);
    assert(eqm(u * ui, 1) && eqm(ui * uii, 1)) by {
        vstd::arithmetic::div_mod::lemma_small_mod(1, m as nat);
    }
    lemma_fold_cross(pa, pg, u, ui, uii, ui);
    // u·uii ≡ u·u
    assert(eqm(uii, u)) by {
        lemma_eqm_mod(u);
    }
    lemma_eqm_mul(uii, u, u);
    lemma_eqm_mul(u * uii, u * u, eo);
    // the reduced cross terms and commitment are congruent to the unreduced ones
    lemma_eqm_mod(eo);
    lemma_eqm_mod(oe);
    lemma_eqm_mod(inner(a, g));
    lemma_eqm_mul(l, eo, u * u);
    lemma_eqm_mul(r, oe, ui * ui);
    assert(l * u * u == l * (u * u) && r * ui * ui == r * (ui * ui) && u * uii * eo == eo * (u
        * uii) && ui * ui * oe == oe * (ui * ui)) by (nonlinear_arith);
    lemma_eqm_add(l * u * u, eo * (u * u), inner(a, g) % m, inner(a, g));
    lemma_eqm_add(
        l * u * u + inner(a, g) % m,
        eo * (u * u) + inner(a, g),
        r * ui * ui,
        oe * (ui * ui),
    );
    lemma_eqm_add(inner(a, g), inner(a, g), u * uii * eo, u * u * eo);
    lemma_eqm_add(inner(a, g) + u * uii * eo, inner(a, g) + u * u * eo, ui * ui * oe, ui * ui * oe);
    assert(eo * (u * u) == u * u * eo && oe * (ui * ui) == ui * ui * oe) by (nonlinear_arith);
}

/// Padding: an odd-length vector folds, and gives the same cross terms with
/// its generators, as if it had been extended by one neutral element.
pub proof fn lemma_padding(a: Seq<int>, g: Seq<int>, x: int, y: int)
    requires
        a.len() == g.len(),
        a.len() % 2 == 1,
    ensures
        fold(pad(a), x, y) == fold(a.push(0), x, y),
        fold(pad(a), x, y) == fold(pad(a.push(0)), x, y),
        diagonal(a, g) == diagonal(a.push(0), g.push(0)),
{
    assert(a.push(0).len() % 2 == 0);
    assert(g.push(0).len() % 2 == 0);
}

} // verus!
