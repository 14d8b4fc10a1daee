//! Pedersen vector commitments, and generators derived from a seed with BLAKE3.
use crate::error::ProofError;
use crate::field::{base_modulus, group_order, le_value, Scalar};
use crate::group::{is_search_result, point_for_digest, Point};
use crate::model::{add_vec, inner, lemma_inner_add, lemma_mod_mod_eq, logs, vals};
use vstd::arithmetic::div_mod::lemma_add_mod_noop;
use vstd::prelude::*;
use vstd::utf8::encode_utf8;

verus! {

/// `Σ v[i]·g[i]` over the indices of `v`.
pub(crate) fn linear_combination(v: &Vec<Scalar>, g: &Vec<Point>) -> (r: Point)
    requires
        v@.len() <= g@.len(),
    ensures
        r.log() == inner(vals(v@), logs(g@)) % group_order(),
{
    let ghost m = group_order();
    let mut acc = Point::identity();
    let mut i: usize = 0;
    assert(inner(vals(v@).take(0), logs(g@)) == 0);
    while i < v.len()
        invariant
            i <= v@.len() <= g@.len(),
            m == group_order(),
            acc.log() == inner(vals(v@).take(i as int), logs(g@)) % m,
        decreases v@.len() - i,
    {
        let term = g[i].mul(&v[i]);
        let next = acc.add(&term);
        proof {
            let (a, b) = (vals(v@), logs(g@));
            crate::model::lemma_inner_step(a, b, i as int);
            let prev = inner(a.take(i as int), b);
            let (vi, gi) = (v@[i as int]@, g@[i as int].log());
            // acc + term ≡ prev + v[i]·g[i]
            lemma_add_mod_noop(prev, vi * gi, m);
            lemma_mod_mod_eq(prev, m);
            assert(vi * gi == gi * vi) by (nonlinear_arith);
        }
        acc = next;
        i = i + 1;
    }
    proof {
        assert(vals(v@).take(v@.len() as int) =~= vals(v@));
    }
    acc
}

/// `C = Σ v[i]·g[i] + r·H`, where `H` is the last generator: it needs one
/// generator more than there are values.
pub fn pedersen_commitment(
    committing_vector: &Vec<Scalar>,
    g_vec: &Vec<Point>,
    blinding_factor: Scalar,
) -> (r: Result<Point, ProofError>)
    ensures
        committing_vector@.len() + 1 > g_vec@.len() ==> r == Err::<Point, ProofError>(
            ProofError::LengthMismatch,
        ),
        committing_vector@.len() + 1 <= g_vec@.len() ==> (r matches Ok(c) && c.log() == (inner(
            vals(committing_vector@),
            logs(g_vec@),
        ) + blinding_factor@ * logs(g_vec@).last()) % group_order()),
{
    if committing_vector.len() >= g_vec.len() {
        return Err(ProofError::LengthMismatch);
    }
    let ghost m = group_order();
    let sum = linear_combination(committing_vector, g_vec);
    let h = &g_vec[g_vec.len() - 1];
    let blind = h.mul(&blinding_factor);
    let c = sum.add(&blind);
    proof {
        let s = inner(vals(committing_vector@), logs(g_vec@));
        lemma_add_mod_noop(s, blinding_factor@ * h.log(), m);
        lemma_mod_mod_eq(s, m);
        assert(logs(g_vec@).last() == h.log());
    }
    Ok(c)
}

/// `C = Σ v[i]·g[i]` for vectors of equal length.
pub fn commit(committing_vector: &Vec<Scalar>, g_vec: &Vec<Point>) -> (r: Result<
    Point,
    ProofError,
>)
    ensures
        committing_vector@.len() != g_vec@.len() ==> r == Err::<Point, ProofError>(
            ProofError::LengthMismatch,
        ),
        committing_vector@.len() == g_vec@.len() ==> (r matches Ok(c) && c.log() == inner(
            vals(committing_vector@),
            logs(g_vec@),
        ) % group_order()),
{
    if committing_vector.len() != g_vec.len() {
        return Err(ProofError::LengthMismatch);
    }
    Ok(linear_combination(committing_vector, g_vec))
}

/// The digest that `blake3::hash` gives for the bytes `b`.
pub uninterp spec fn blake3_of(b: Seq<u8>) -> Seq<u8>;

/// Relies on `blake3::hash`: the 32-byte BLAKE3 digest of the input.
#[verifier::external_body]
fn blake3_hash(b: &[u8]) -> (r: Vec<u8>)
    ensures
        r@ == blake3_of(b@),
        r@.len() == 32,
{
    blake3::hash(b).as_bytes().to_vec()
}

/// The lowercase hexadecimal digit of `n < 16`, as an ASCII byte.
pub open spec fn hex_digit(n: int) -> u8 {
    if n < 10 {
        (48 + n) as u8
    } else {
        (87 + n) as u8
    }
}

/// The lowercase hexadecimal text of the bytes, two digits per byte, as a
/// BLAKE3 digest displays itself.
pub open spec fn hex_of(b: Seq<u8>) -> Seq<u8> {
    Seq::new(
        2 * b.len(),
        |i: int|
            if i % 2 == 0 {
                hex_digit(b[i / 2] as int / 16)
            } else {
                hex_digit(b[i / 2] as int % 16)
            },
    )
}

fn hex_digit_of(n: u8) -> (r: u8)
    requires
        n < 16,
    ensures
        r == hex_digit(n as int),
{
    if n < 10 {
        48 + n
    } else {
        87 + n
    }
}

fn to_hex(b: &Vec<u8>) -> (r: Vec<u8>)
    requires
        b@.len() <= usize::MAX / 2,
    ensures
        r@ == hex_of(b@),
{
    let mut r: Vec<u8> = Vec::new();
    let mut i: usize = 0;
    while i < b.len()
        invariant
            i <= b@.len() <= usize::MAX / 2,
            r@ =~= hex_of(b@).take(2 * i as int),
        decreases b@.len() - i,
    {
        r.push(hex_digit_of(b[i] / 16));
        r.push(hex_digit_of(b[i] % 16));
        proof {
            let h = hex_of(b@);
            assert((2 * i as int) / 2 == i && (2 * i as int) % 2 == 0);
            assert((2 * i as int + 1) / 2 == i && (2 * i as int + 1) % 2 == 1);
            assert(r@ =~= h.take(2 * i as int + 2));
        }
        i = i + 1;
    }
    proof {
        assert(hex_of(b@).take(2 * b@.len() as int) =~= hex_of(b@));
    }
    r
}

/// The seed of round `i` of the BLAKE3 generator chain: the seed itself, then
/// the hexadecimal text of the digest of the digest of the seed before.
pub open spec fn blake3_seed(seed: Seq<u8>, i: nat) -> Seq<u8>
    decreases i,
{
    if i == 0 {
        seed
    } else {
        hex_of(blake3_of(blake3_of(blake3_seed(seed, (i - 1) as nat))))
    }
}

/// The point of one round and the seed of the next.
fn generate_random_point(seed: &Vec<u8>) -> (r: (Point, Vec<u8>))
    ensures
        is_search_result(r.0@, le_value(blake3_of(seed@)) % base_modulus()),
        r.1@ == hex_of(blake3_of(blake3_of(seed@))),
{
    let hash = blake3_hash(seed.as_slice());
    let next_hash = blake3_hash(hash.as_slice());
    let point = point_for_digest(hash.as_slice());
    (point, to_hex(&next_hash))
}

/// `num_point` generators derived from `seed` (none when it is negative): the
/// digest of each round's seed starts the search for a curve point.
pub fn generate_n_random_points(seed: String, num_point: i32) -> (r: Vec<Point>)
    ensures
        r@.len() == if num_point < 0 {
            0
        } else {
            num_point as int
        },
        forall|i: int|
            0 <= i < r@.len() ==> is_search_result(
                #[trigger] r@[i]@,
                le_value(blake3_of(blake3_seed(encode_utf8(seed@), i as nat))) % base_modulus(),
            ),
{
    let ghost s0 = encode_utf8(seed@);
    let mut random_points: Vec<Point> = Vec::new();
    let mut current_seed = vstd::slice::slice_to_vec(seed.as_str().as_bytes());
    let mut k: i32 = 0;
    while k < num_point
        invariant
            0 <= k,
            num_point >= 0 ==> k <= num_point,
            num_point < 0 ==> k == 0,
            random_points@.len() == k,
            current_seed@ == blake3_seed(s0, k as nat),
            forall|i: int|
                0 <= i < k ==> is_search_result(
                    #[trigger] random_points@[i]@,
                    le_value(blake3_of(blake3_seed(s0, i as nat))) % base_modulus(),
                ),
        decreases num_point - k,
    {
        let (point, next_seed) = generate_random_point(&current_seed);
        random_points.push(point);
        current_seed = next_seed;
        k = k + 1;
    }
    random_points
}

/// Homomorphism: for vectors `a`, `b` of one length and generators `g` of that
/// length, the commitment of the entry-wise sum `a + b` is the sum of the
/// commitments of `a` and of `b`.
pub proof fn lemma_commit_homomorphic(a: Seq<int>, b: Seq<int>, g: Seq<int>)
    requires
        a.len() == b.len(),
        a.len() == g.len(),
    ensures
        inner(add_vec(a, b), g) % group_order() == (inner(a, g) % group_order() + inner(b, g)
            % group_order()) % group_order(),
{
    lemma_inner_add(a, b, g);
    lemma_add_mod_noop(inner(a, g), inner(b, g), group_order());
}

} // verus!
