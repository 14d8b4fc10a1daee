//! Zero-knowledge argument primitives over Pedersen vector commitments on the
//! BN254 curve: polynomial evaluation, degree-one multiplication and inner
//! product arguments, and the logarithmic folding inner-product argument.
pub mod field;
pub mod group;
pub mod model;
pub mod error;
pub mod pedersen_commitment;
pub mod random_ec_points;
pub mod succinct_proof;
pub mod log_proof_commitment;
pub mod log_ipa_proof;
pub mod polynomial;
pub mod vector_polynomial;
pub mod zk_mul;
pub mod zk_ipa;
pub mod polynomial_commitment;
