//! The logarithmic proof that a commitment `C = ⟨a, g⟩` opens to `a`: each
//! round commits to the cross terms, takes a challenge, checks the folding
//! identity and halves both vectors, down to a single entry.
use crate::field::{group_order, Scalar};
use crate::group::Point;
use crate::model::{diagonal, fold, inner, inv, is_unit, lemma_inv_unique, logs, pad, vals};
use crate::pedersen_commitment::linear_combination;
use crate::random_ec_points::generate_random_field_element;
use crate::succinct_proof::{
    commit_vector, copy_vec, fold_field, fold_group, inverse_of, lemma_folding_identity,
    verify_succinct_proof,
};
use vstd::prelude::*;

verus! {

/// The number of halvings, rounding up, that bring a length down to one.
pub open spec fn halvings(n: nat) -> nat
    decreases n,
{
    if n <= 1 {
        0
    } else {
        1 + halvings(((n + 1) / 2) as nat)
    }
}

/// The vector and generators `(a_j, g_j)` after the first `j` challenges: `a`
/// folded with `u`, the generators with `u⁻¹`.
pub open spec fn opening_after(a: Seq<int>, g: Seq<int>, us: Seq<int>, j: nat) -> (
    Seq<int>,
    Seq<int>,
)
    decreases j,
{
    if j == 0 {
        (a, g)
    } else {
        let s = opening_after(a, g, us, (j - 1) as nat);
        let u = us[j - 1];
        (fold(pad(s.0), u, inv(u)), fold(pad(s.1), inv(u), u))
    }
}

/// Whether round `j`'s check `L·u² + C + R·u⁻² == ⟨a_{j+1}, g_{j+1}⟩` holds,
/// with `C`, `L` and `R` the commitment and cross terms of `(a_j, g_j)`.
pub open spec fn round_holds(a: Seq<int>, g: Seq<int>, us: Seq<int>, j: nat) -> bool {
    let s = opening_after(a, g, us, j);
    let next = opening_after(a, g, us, j + 1);
    let u = us[j as int];
    let d = diagonal(s.0, s.1);
    (d.0 * u * u + inner(s.0, s.1) % group_order() + d.1 * inv(u) * inv(u)) % group_order()
        == inner(next.0, next.1) % group_order()
}

/// The last check: at length one, `⟨a, g⟩ == a·g`; a commitment to nothing is
/// the neutral element.
pub open spec fn final_holds(a: Seq<int>, g: Seq<int>) -> bool {
    inner(a, g) % group_order() == if a.len() == 1 {
        (a[0] * g[0]) % group_order()
    } else {
        0
    }
}

/// Whether every round's check and the last check hold.
pub open spec fn opening_accepted(a: Seq<int>, g: Seq<int>, us: Seq<int>) -> bool {
    &&& forall|j: nat| j < us.len() ==> #[trigger] round_holds(a, g, us, j)
    &&& final_holds(opening_after(a, g, us, us.len()).0, opening_after(a, g, us, us.len()).1)
}

/// What the rounds of the proof give: the commitment and cross terms `(C, L, R)`
/// of each round, the vector and generators left at the end, and whether every
/// check held.
#[derive(Clone, Debug)]
pub struct OpeningTranscript {
    pub rounds: Vec<(Point, Point, Point)>,
    pub a: Vec<Scalar>,
    pub g: Vec<Point>,
    pub accepted: bool,
}

/// Runs the rounds of the proof with the challenges `us`, one per halving of
/// the length: each round commits with `commit_vector`, folds the vector with
/// the challenge, checks the round with `verify_succinct_proof` and folds the
/// generators; at length one it checks `C == a·g`.
pub fn log_proof_rounds(a: &Vec<Scalar>, g_vec: &Vec<Point>, us: &Vec<Scalar>) -> (t:
    OpeningTranscript)
    requires
        a@.len() == g_vec@.len(),
        us@.len() == halvings(a@.len()),
        forall|i: int| 0 <= i < us@.len() ==> (#[trigger] us@[i])@ != 0,
    ensures
        t.rounds@.len() == us@.len(),
        forall|j: int|
            0 <= j < us@.len() ==> {
                let s = opening_after(vals(a@), logs(g_vec@), vals(us@), j as nat);
                &&& (#[trigger] t.rounds@[j]).0.log() == inner(s.0, s.1) % group_order()
                &&& (t.rounds@[j].1.log(), t.rounds@[j].2.log()) == diagonal(s.0, s.1)
            },
        (vals(t.a@), logs(t.g@)) == opening_after(vals(a@), logs(g_vec@), vals(us@), us@.len()),
        t.accepted == opening_accepted(vals(a@), logs(g_vec@), vals(us@)),
{
    let ghost (a0, g0, uv) = (vals(a@), logs(g_vec@), vals(us@));
    let k = us.len();
    let mut a_j = copy_vec(a);
    let mut g_j = copy_vec(g_vec);
    let mut rounds: Vec<(Point, Point, Point)> = Vec::new();
    let mut all_ok = true;
    let mut j: usize = 0;
    while j < k
        invariant
            k == us@.len(),
            j <= k,
            uv == vals(us@),
            forall|i: int| 0 <= i < us@.len() ==> (#[trigger] us@[i])@ != 0,
            a_j@.len() == g_j@.len(),
            halvings(a_j@.len() as nat) == k - j,
            (vals(a_j@), logs(g_j@)) == opening_after(a0, g0, uv, j as nat),
            rounds@.len() == j,
            forall|i: int|
                0 <= i < j ==> {
                    let s = opening_after(a0, g0, uv, i as nat);
                    &&& (#[trigger] rounds@[i]).0.log() == inner(s.0, s.1) % group_order()
                    &&& (rounds@[i].1.log(), rounds@[i].2.log()) == diagonal(s.0, s.1)
                },
            all_ok == (forall|i: nat| i < j ==> #[trigger] round_holds(a0, g0, uv, i)),
        decreases k - j,
    {
        let ghost (sa, sg) = (vals(a_j@), logs(g_j@));
        let mut a_tmp = copy_vec(&a_j);
        let mut g_tmp = copy_vec(&g_j);
        let (c, l, r) = commit_vector(&mut a_tmp, &mut g_tmp);
        let u = us[j];
        assert(u@ != 0 && uv[j as int] == u@);
        let folded = fold_field(&mut a_j, &u);
        let ok = verify_succinct_proof(&(c, l, r), &folded, &u, &mut g_j);
        let u_inv = inverse_of(&u);
        let next_g = fold_group(&mut g_j, &u_inv);
        proof {
            assert(pad(pad(sg)) == pad(sg));
            assert(opening_after(a0, g0, uv, (j + 1) as nat) == (
                fold(pad(sa), u@, inv(u@)),
                fold(pad(sg), inv(u@), u@),
            ));
            assert(ok == round_holds(a0, g0, uv, j as nat));
            if all_ok && ok {
                assert forall|i: nat| i < j + 1 implies #[trigger] round_holds(a0, g0, uv, i) by {
                    if i < j {
                    }
                }
            }
            if !(all_ok && ok) {
                if !ok {
                    assert(!round_holds(a0, g0, uv, j as nat));
                } else {
                    let i = choose|i: nat| i < j && !#[trigger] round_holds(a0, g0, uv, i);
                    assert(!round_holds(a0, g0, uv, i));
                }
            }
        }
        rounds.push((c, l, r));
        all_ok = all_ok && ok;
        a_j = folded;
        g_j = next_g;
        j = j + 1;
    }
    let c = linear_combination(&a_j, &g_j);
    let expected = if a_j.len() == 1 {
        g_j[0].mul(&a_j[0])
    } else {
        Point::identity()
    };
    let final_ok = c.equals(&expected);
    proof {
        if a_j@.len() == 1 {
            assert(vals(a_j@)[0] * logs(g_j@)[0] == logs(g_j@)[0] * vals(a_j@)[0]) by (nonlinear_arith);
        }
    }
    OpeningTranscript { rounds, a: a_j, g: g_j, accepted: all_ok && final_ok }
}

/// Every check of an honest run holds: each round by the folding identity, and
/// the last because a commitment of length one is `a·g`.
pub proof fn lemma_opening_complete(a: Seq<int>, g: Seq<int>, us: Seq<int>)
    requires
        a.len() == g.len(),
        us.len() == halvings(a.len()),
        forall|i: int| 0 <= i < us.len() ==> is_unit(#[trigger] us[i]) && 0 <= us[i] < group_order(),
    ensures
        opening_accepted(a, g, us),
{
    let k = us.len();
    assert forall|j: nat| j < k implies #[trigger] round_holds(a, g, us, j) by {
        lemma_opening_lengths(a, g, us, j);
        let s = opening_after(a, g, us, j);
        let u = us[j as int];
        lemma_folding_identity(s.0, s.1, u);
        crate::model::lemma_inv(u);
        assert(inv(u) * u == u * inv(u)) by (nonlinear_arith);
        lemma_inv_unique(inv(u), u);
    }
    lemma_opening_lengths(a, g, us, k);
    let s = opening_after(a, g, us, k);
    if s.0.len() == 1 {
        let f = |i: int| s.0[i] * s.1[i];
        assert(crate::model::sum(f, 1) == crate::model::sum(f, 0) + f(0));
    } else {
        assert(s.0.len() == 0);
        vstd::arithmetic::div_mod::lemma_small_mod(0, group_order() as nat);
    }
}

/// The vectors keep equal lengths, and after `j` rounds `halvings` of the
/// length is what is left of the challenges.
proof fn lemma_opening_lengths(a: Seq<int>, g: Seq<int>, us: Seq<int>, j: nat)
    requires
        a.len() == g.len(),
        us.len() == halvings(a.len()),
        j <= us.len(),
    ensures
        opening_after(a, g, us, j).0.len() == opening_after(a, g, us, j).1.len(),
        halvings(opening_after(a, g, us, j).0.len()) == us.len() - j,
    decreases j,
{
    if j > 0 {
        lemma_opening_lengths(a, g, us, (j - 1) as nat);
    }
}

/// Runs the halving proof of the commitment of `commiting_vector` to `g_vec`
/// with fresh random challenges and reports whether every check held; an
/// honest run always succeeds. Neither vector is changed.
pub fn verify_log_proof_of_committment(
    commiting_vector: &mut Vec<Scalar>,
    g_vec: &mut Vec<Point>,
) -> (r: bool)
    requires
        old(commiting_vector)@.len() == old(g_vec)@.len(),
    ensures
        final(commiting_vector)@ == old(commiting_vector)@,
        final(g_vec)@ == old(g_vec)@,
        r,
{
    let n = commiting_vector.len();
    let mut m: usize = n;
    let mut k: usize = 0;
    while m > 1
        invariant
            halvings(n as nat) == k + halvings(m as nat),
            k + m <= n || n <= 1,
            m <= n,
        decreases m,
    {
        m = m / 2 + m % 2;
        k = k + 1;
    }
    let mut us: Vec<Scalar> = Vec::new();
    while us.len() < k
        invariant
            us@.len() <= k,
            forall|i: int| 0 <= i < us@.len() ==> (#[trigger] us@[i])@ != 0,
            forall|i: int| 0 <= i < us@.len() ==> is_unit(#[trigger] vals(us@)[i]),
        decreases k - us@.len(),
    {
        let u = generate_random_field_element();
        let u_inv = inverse_of(&u);
        proof {
            Scalar::lemma_range(u_inv);
            lemma_inv_unique(u@, u_inv@);
            assert(vals(us@.push(u)) =~= vals(us@).push(u@));
        }
        us.push(u);
    }
    let t = log_proof_rounds(commiting_vector, g_vec, &us);
    proof {
        let uv = vals(us@);
        assert forall|i: int| 0 <= i < uv.len() implies is_unit(#[trigger] uv[i]) && 0 <= uv[i]
            < group_order() by {
            Scalar::lemma_range(us@[i]);
        }
        lemma_opening_complete(vals(commiting_vector@), logs(g_vec@), uv);
    }
    t.accepted
}

} // verus!
