//! Generators derived from a seed with SHA-256, and small random scalars.
use crate::field::{base_modulus, le_value, Scalar};
use crate::group::{is_search_result, point_for_digest, Point};
use crate::pedersen_commitment::hex_of;
use rand::Rng;
use vstd::prelude::*;
use vstd::utf8::encode_utf8;

verus! {

/// The 32-byte SHA-256 digest of the bytes `b`.
pub uninterp spec fn sha256_of(b: Seq<u8>) -> Seq<u8>;

/// Relies on `sha256::digest`: the lowercase hexadecimal text of the SHA-256
/// digest of the input, returned here as its ASCII bytes.
#[verifier::external_body]
fn sha256_hex(b: &[u8]) -> (r: Vec<u8>)
    ensures
        r@ == hex_of(sha256_of(b@)),
        r@.len() == 64,
{
    sha256::digest(b).into_bytes()
}

/// Relies on rand's `thread_rng().gen_range`: a value drawn from `[low, high)`.
#[verifier::external_body]
pub(crate) fn random_in_range(low: u64, high: u64) -> (r: u64)
    requires
        low < high,
    ensures
        low <= r < high,
{
    rand::thread_rng().gen_range(low..high)
}

/// The seed of round `i` of the SHA-256 generator chain: the seed itself, then
/// the hexadecimal digest of the hexadecimal digest of the seed before.
pub open spec fn sha256_seed(seed: Seq<u8>, i: nat) -> Seq<u8>
    decreases i,
{
    if i == 0 {
        seed
    } else {
        hex_of(sha256_of(hex_of(sha256_of(sha256_seed(seed, (i - 1) as nat)))))
    }
}

/// The point of one round and the seed of the next.
fn generate_random_point(seed: &Vec<u8>) -> (r: (Point, Vec<u8>))
    ensures
        is_search_result(r.0@, le_value(hex_of(sha256_of(seed@))) % base_modulus()),
        r.1@ == hex_of(sha256_of(hex_of(sha256_of(seed@)))),
{
    let hash = sha256_hex(seed.as_slice());
    let next_hash = sha256_hex(hash.as_slice());
    let point = point_for_digest(hash.as_slice());
    (point, next_hash)
}

/// `num_point` generators derived from `seed` (none when it is negative): the
/// hexadecimal digest of each round's seed, read as little-endian bytes,
/// starts the search for a curve point.
pub fn generate_n_random_points(seed: String, num_point: i32) -> (r: Vec<Point>)
    ensures
        r@.len() == if num_point < 0 {
            0
        } else {
            num_point as int
        },
        forall|i: int|
            0 <= i < r@.len() ==> is_search_result(
                #[trigger] r@[i]@,
                le_value(hex_of(sha256_of(sha256_seed(encode_utf8(seed@), i as nat))))
                    % base_modulus(),
            ),
{
    let ghost s0 = encode_utf8(seed@);
    let mut random_points: Vec<Point> = Vec::new();
    let mut current_seed = vstd::slice::slice_to_vec(seed.as_str().as_bytes());
    let mut k: i32 = 0;
    while k < num_point
        invariant
            0 <= k,
            num_point >= 0 ==> k <= num_point,
            num_point < 0 ==> k == 0,
            random_points@.len() == k,
            current_seed@ == sha256_seed(s0, k as nat),
            forall|i: int|
                0 <= i < k ==> is_search_result(
                    #[trigger] random_points@[i]@,
                    le_value(hex_of(sha256_of(sha256_seed(s0, i as nat)))) % base_modulus(),
                ),
        decreases num_point - k,
    {
        let (point, next_seed) = generate_random_point(&current_seed);
        random_points.push(point);
        current_seed = next_seed;
        k = k + 1;
    }
    random_points
}

/// A random scalar in `[1, 100000)`.
pub fn generate_random_field_element() -> (r: Scalar)
    ensures
        1 <= r@ < 100000,
{
    Scalar::from_u64(random_in_range(1, 100000))
}

} // verus!
