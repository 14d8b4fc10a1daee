//! Points of the BN254 group G1 in affine form, seen as elements of the cyclic
//! group of prime order `group_order()`.
use crate::field::{
    base_modulus, group_order, is_square, le_value, lemma_limbs_reduced, limbs_value,
    sqrt_candidate, Base, Scalar,
};
use ark_bn254::{Fq, Fr, G1Affine};
use ark_ec::{AffineRepr, CurveGroup};
use ark_ff::{BigInt, PrimeField};
use vstd::arithmetic::div_mod::{
    lemma_add_mod_noop, lemma_mul_mod_noop_left, lemma_mul_mod_noop_right,
};
use vstd::prelude::*;

verus! {

/// The right-hand side `x³ + 3` of the BN254 curve equation `y² = x³ + 3`,
/// modulo `base_modulus()`.
pub open spec fn curve_rhs(x: int) -> int {
    (x * x * x + 3) % base_modulus()
}

/// Whether affine coordinates `(x, y, infinity)` describe a point of the curve:
/// the point at infinity is written `(0, 0, true)`. G1 of BN254 has cofactor
/// one, so every such point lies in the group of prime order.
pub open spec fn on_curve(p: (int, int, bool)) -> bool {
    if p.2 {
        p.0 == 0 && p.1 == 0
    } else {
        0 <= p.0 < base_modulus() && 0 <= p.1 < base_modulus() && (p.1 * p.1) % base_modulus()
            == curve_rhs(p.0)
    }
}

/// The discrete logarithm of a curve point to the base `G1Affine::generator()`.
/// G1 is cyclic of prime order `group_order()`, so each point is `k·G` for one
/// `k` modulo that order. Nothing computes it: contracts use it to speak of
/// points as elements of the integers modulo `group_order()`.
pub uninterp spec fn dlog(p: (int, int, bool)) -> int;

/// A point of G1 in affine coordinates.
#[derive(Clone, Copy, Debug, PartialEq, Eq)]
pub struct Point {
    pub(crate) x: [u64; 4],
    pub(crate) y: [u64; 4],
    pub(crate) infinity: bool,
}

impl View for Point {
    type V = (int, int, bool);

    closed spec fn view(&self) -> (int, int, bool) {
        (limbs_value(self.x@), limbs_value(self.y@), self.infinity)
    }
}

impl Point {
    #[verifier::type_invariant]
    spec fn valid(self) -> bool {
        on_curve(self@)
    }

    /// The point as an element of the integers modulo `group_order()`.
    pub open spec fn log(self) -> int {
        dlog(self@) % group_order()
    }

    /// Relies on `G1Affine::identity()`: the neutral element of the group.
    #[verifier::external_body]
    fn identity_affine() -> (r: Point)
        ensures
            dlog(r@) % group_order() == 0,
    {
        let p = G1Affine::identity();
        Point { x: p.x.into_bigint().0, y: p.y.into_bigint().0, infinity: p.infinity }
    }

    /// Relies on ark_ec's addition of two G1 points followed by `into_affine`:
    /// the group law, under which discrete logarithms add. Both points are on
    /// the curve (the type's invariant), hence in the group.
    #[verifier::external_body]
    fn add_affine(&self, o: &Point) -> (r: Point)
        ensures
            dlog(r@) % group_order() == (dlog(self@) + dlog(o@)) % group_order(),
    {
        let a = G1Affine { x: Fq::new(BigInt(self.x)), y: Fq::new(BigInt(self.y)), infinity: self.infinity };
        let b = G1Affine { x: Fq::new(BigInt(o.x)), y: Fq::new(BigInt(o.y)), infinity: o.infinity };
        let s = (a + b).into_affine();
        Point { x: s.x.into_bigint().0, y: s.y.into_bigint().0, infinity: s.infinity }
    }

    /// Relies on ark_ec's scalar multiplication of a G1 point by an `Fr` element,
    /// followed by `into_affine`: the point added to itself `s` times, so its
    /// discrete logarithm is multiplied by `s`.
    #[verifier::external_body]
    fn mul_affine(&self, s: &Scalar) -> (r: Point)
        ensures
            dlog(r@) % group_order() == (s@ * dlog(self@)) % group_order(),
    {
        let a = G1Affine { x: Fq::new(BigInt(self.x)), y: Fq::new(BigInt(self.y)), infinity: self.infinity };
        let m = (a * Fr::new(BigInt(s.limbs))).into_affine();
        Point { x: m.x.into_bigint().0, y: m.y.into_bigint().0, infinity: m.infinity }
    }

    /// Relies on `PartialEq` of `G1Affine`, which compares the affine
    /// coordinates: these are canonical (the point at infinity is always
    /// `(0, 0, true)`), so two points compare equal exactly when they are the
    /// same element of the group.
    #[verifier::external_body]
    fn eq_affine(&self, o: &Point) -> (r: bool)
        ensures
            r == (dlog(self@) % group_order() == dlog(o@) % group_order()),
    {
        let a = G1Affine { x: Fq::new(BigInt(self.x)), y: Fq::new(BigInt(self.y)), infinity: self.infinity };
        let b = G1Affine { x: Fq::new(BigInt(o.x)), y: Fq::new(BigInt(o.y)), infinity: o.infinity };
        a == b
    }
}

impl Point {
    /// The neutral element.
    pub fn identity() -> (r: Point)
        ensures
            r.log() == 0,
    {
        Point::identity_affine()
    }

    /// The group law.
    pub fn add(&self, o: &Point) -> (r: Point)
        ensures
            r.log() == (self.log() + o.log()) % group_order(),
    {
        let r = self.add_affine(o);
        proof {
            lemma_add_mod_noop(dlog(self@), dlog(o@), group_order());
        }
        r
    }

    /// The point added to itself `s` times.
    pub fn mul(&self, s: &Scalar) -> (r: Point)
        ensures
            r.log() == (s@ * self.log()) % group_order(),
    {
        let r = self.mul_affine(s);
        proof {
            lemma_mul_mod_noop_right(s@, dlog(self@), group_order());
        }
        r
    }

    /// Whether two points are the same element of the group.
    pub fn equals(&self, o: &Point) -> (r: bool)
        ensures
            r == (self.log() == o.log()),
    {
        self.eq_affine(o)
    }

    /// The x coordinate, as little-endian limbs of a base field element.
    pub fn x(&self) -> (r: [u64; 4])
        ensures
            limbs_value(r@) == self@.0,
    {
        self.x
    }

    /// The y coordinate, as little-endian limbs of a base field element.
    pub fn y(&self) -> (r: [u64; 4])
        ensures
            limbs_value(r@) == self@.1,
    {
        self.y
    }

    pub fn is_infinity(&self) -> (r: bool)
        ensures
            r == self@.2,
    {
        self.infinity
    }

    /// Whether the point satisfies the curve equation; true of every point.
    pub fn is_on_curve(&self) -> (r: bool)
        ensures
            r == on_curve(self@),
    {
        proof {
            use_type_invariant(self);
            lemma_limbs_reduced(self.x@, base_modulus());
            lemma_limbs_reduced(self.y@, base_modulus());
        }
        if self.infinity {
            return true;
        }
        let x = Base { limbs: self.x };
        let y = Base { limbs: self.y };
        proof {
            x.lemma_view();
            y.lemma_view();
        }
        let rhs = rhs_of(&x);
        let lhs = y.mul(&y);
        lhs.equals(&rhs)
    }
}

/// `x³ + 3` in the base field.
fn rhs_of(x: &Base) -> (r: Base)
    ensures
        r@ == curve_rhs(x@),
{
    let x2 = x.mul(x);
    let x3 = x2.mul(x);
    let r = x3.add(&Base::from_u64(3));
    proof {
        let q = base_modulus();
        lemma_mul_mod_noop_left(x@ * x@, x@, q);
        lemma_add_mod_noop(x@ * x@ * x@, 3, q);
        vstd::arithmetic::div_mod::lemma_mod_mod(x@ * x@ * x@, q, q);
        vstd::arithmetic::div_mod::lemma_small_mod(3, q as nat);
    }
    r
}

/// The y coordinate of the curve point above `x`, when there is one: the
/// square root of `x³ + 3` that the base field computes.
fn find_y_for_x(x: &Base) -> (r: Option<Base>)
    ensures
        r matches Some(y) ==> y@ == sqrt_candidate(curve_rhs(x@)) && (y@ * y@) % base_modulus()
            == curve_rhs(x@),
        r is None ==> !is_square(curve_rhs(x@)),
{
    let rhs = rhs_of(x);
    rhs.sqrt()
}

/// Whether `p` is the point that the try-and-increment search finds from the
/// start value `x0`: its x coordinate is the first of `x0, x0 + 1, ...` (modulo
/// `base_modulus()`) above which the curve has points, and its y coordinate is
/// the square root that the base field computes there.
pub open spec fn is_search_result(p: (int, int, bool), x0: int) -> bool {
    &&& !p.2
    &&& is_square(curve_rhs(p.0))
    &&& exists|k: nat| p.0 == (x0 + k) % base_modulus() && #[trigger] no_curve_point_before(x0, k)
    &&& p.1 == sqrt_candidate(curve_rhs(p.0))
}

/// Whether the curve has no point above any of `x0, ..., x0 + k - 1`.
pub open spec fn no_curve_point_before(x0: int, k: nat) -> bool {
    forall|j: nat| j < k ==> !is_square(#[trigger] curve_rhs((x0 + j) % base_modulus()))
}

/// The curve point found from a hash digest: the digest read as a little-endian
/// integer modulo `base_modulus()` gives the start value of the search for an
/// x coordinate above which the curve has points.
pub fn point_for_digest(digest: &[u8]) -> (r: Point)
    ensures
        is_search_result(r@, le_value(digest@) % base_modulus()),
{
    let ghost q = base_modulus();
    let ghost x0 = le_value(digest@) % q;
    let mut x = Base::from_le_bytes_mod_order(digest);
    let ghost target: int = (1 - x0) % q;
    let ghost mut k: int = 0;
    let one = Base::from_u64(1);
    proof {
        vstd::arithmetic::div_mod::lemma_mod_bound(le_value(digest@), q);
        vstd::arithmetic::div_mod::lemma_small_mod(x0 as nat, q as nat);
        vstd::arithmetic::div_mod::lemma_mod_bound(1 - x0, q);
    }
    loop
        invariant
            0 <= k <= target,
            x@ == (x0 + k) % q,
            q == base_modulus(),
            x0 == le_value(digest@) % q,
            0 <= x0 < q,
            target == (1 - x0) % q,
            one@ == 1,
            forall|j: nat| j < k ==> !is_square(#[trigger] curve_rhs((x0 + j) % q)),
        decreases target - k,
    {
        match find_y_for_x(&x) {
            Some(y) => {
                proof {
                    use_type_invariant(&x);
                    use_type_invariant(&y);
                    lemma_limbs_reduced(x.limbs@, q);
                    lemma_limbs_reduced(y.limbs@, q);
                    x.lemma_view();
                    y.lemma_view();
                    assert(is_square(curve_rhs(x@))) by {
                        assert((y@ * y@) % q == curve_rhs(x@));
                    }
                }
                let p = Point { x: x.limbs, y: y.limbs, infinity: false };
                proof {
                    assert(p@.0 == (x0 + k as nat) % q);
                    assert(no_curve_point_before(x0, k as nat));
                }
                return p;
            },
            None => {
                proof {
                    if k == target {
                        vstd::arithmetic::div_mod::lemma_add_mod_noop(x0, 1 - x0, q);
                        vstd::arithmetic::div_mod::lemma_small_mod(x0 as nat, q as nat);
                        vstd::arithmetic::div_mod::lemma_small_mod(1, q as nat);
                        assert(x@ == 1);
                        assert(curve_rhs(1) == 4) by {
                            assert(1int * 1 * 1 + 3 == 4);
                            vstd::arithmetic::div_mod::lemma_small_mod(4, q as nat);
                        }
                        assert((2int * 2int) % q == 4);
                        assert(is_square(4));
                    }
                    assert(k as nat == k);
                }
                x = x.add(&one);
                proof {
                    vstd::arithmetic::div_mod::lemma_add_mod_noop(x0 + k, 1, q);
                    vstd::arithmetic::div_mod::lemma_small_mod(1, q as nat);
                    vstd::arithmetic::div_mod::lemma_mod_mod(x0 + k, q, q);
                    k = k + 1;
                }
            },
        }
    }
}

} // verus!
