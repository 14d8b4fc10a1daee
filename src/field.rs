//! Scalars of the BN254 scalar field and elements of its base field, held as
//! four little-endian 64-bit limbs of their canonical integer value.
use ark_bn254::{Fq, Fr};
use ark_ff::{BigInt, Field, PrimeField};
use vstd::arithmetic::div_mod::lemma_fundamental_div_mod_converse;
use vstd::arithmetic::power::pow;
use vstd::prelude::*;

verus! {

/// The order of the BN254 group G1, which is the modulus of its scalar field.
pub open spec fn group_order() -> int {
    0x30644e72e131a029b85045b68181585d * limb_base() * limb_base()
        + 0x2833e84879b9709143e1f593f0000001
}

/// The modulus of the BN254 base field, in which the curve coordinates live.
pub open spec fn base_modulus() -> int {
    0x30644e72e131a029b85045b68181585d * limb_base() * limb_base()
        + 0x97816a916871ca8d3c208c16d87cfd47
}

pub open spec fn limb_base() -> int {
    0x1_0000_0000_0000_0000
}

/// The integer whose little-endian 64-bit limbs are `l`.
pub open spec fn limbs_value(l: Seq<u64>) -> int {
    l[0] + limb_base() * (l[1] + limb_base() * (l[2] + limb_base() * l[3]))
}

proof fn lemma_limbs_injective(a: Seq<u64>, b: Seq<u64>)
    requires
        a.len() == 4,
        b.len() == 4,
        limbs_value(a) == limbs_value(b),
    ensures
        a == b,
{
    let d = limb_base();
    let a3 = a[1] + d * (a[2] + d * a[3]);
    let b3 = b[1] + d * (b[2] + d * b[3]);
    lemma_fundamental_div_mod_converse(limbs_value(a), d, a3, a[0] as int);
    lemma_fundamental_div_mod_converse(limbs_value(b), d, b3, b[0] as int);
    assert(limbs_value(a) == a3 * d + a[0]) by (nonlinear_arith)
        requires limbs_value(a) == a[0] + d * a3;
    assert(limbs_value(b) == b3 * d + b[0]) by (nonlinear_arith)
        requires limbs_value(b) == b[0] + d * b3;
    let a2 = a[2] + d * a[3];
    let b2 = b[2] + d * b[3];
    lemma_fundamental_div_mod_converse(a3, d, a2, a[1] as int);
    lemma_fundamental_div_mod_converse(b3, d, b2, b[1] as int);
    assert(a3 == a2 * d + a[1]) by (nonlinear_arith)
        requires a3 == a[1] + d * a2;
    assert(b3 == b2 * d + b[1]) by (nonlinear_arith)
        requires b3 == b[1] + d * b2;
    lemma_fundamental_div_mod_converse(a2, d, a[3] as int, a[2] as int);
    lemma_fundamental_div_mod_converse(b2, d, b[3] as int, b[2] as int);
    assert(a2 == a[3] * d + a[2]) by (nonlinear_arith)
        requires a2 == a[2] + d * a[3];
    assert(b2 == b[3] * d + b[2]) by (nonlinear_arith)
        requires b2 == b[2] + d * b[3];
    assert(a =~= b);
}

proof fn lemma_limbs_nonneg(l: Seq<u64>)
    requires
        l.len() == 4,
    ensures
        0 <= limbs_value(l),
{
    let d = limb_base();
    let (l0, l1, l2, l3) = (l[0] as int, l[1] as int, l[2] as int, l[3] as int);
    assert(0 <= l0 + d * (l1 + d * (l2 + d * l3))) by (nonlinear_arith)
        requires 0 <= l0, 0 <= l1, 0 <= l2, 0 <= l3, d > 0;
}

pub(crate) proof fn lemma_limbs_reduced(l: Seq<u64>, m: int)
    requires
        l.len() == 4,
        limbs_value(l) < m,
    ensures
        limbs_value(l) % m == limbs_value(l),
{
    lemma_limbs_nonneg(l);
    vstd::arithmetic::div_mod::lemma_small_mod(limbs_value(l) as nat, m as nat);
}

/// An element of the scalar field of BN254, that is an integer modulo
/// `group_order()`, kept in canonical form.
#[derive(Clone, Copy, Debug, PartialEq, Eq)]
pub struct Scalar {
    pub(crate) limbs: [u64; 4],
}

impl View for Scalar {
    type V = int;

    closed spec fn view(&self) -> int {
        limbs_value(self.limbs@) % group_order()
    }
}

impl Scalar {
    #[verifier::type_invariant]
    pub(crate) open spec fn canonical(self) -> bool {
        limbs_value(self.limbs@) < group_order()
    }

    /// Every scalar lies in `[0, group_order())`.
    pub broadcast proof fn lemma_range(s: Scalar)
        ensures
            0 <= #[trigger] s@ < group_order(),
    {
    }

    /// The scalar `v`.
    pub fn from_u64(v: u64) -> (r: Scalar)
        ensures
            r@ == v,
    {
        let r = Scalar { limbs: [v, 0, 0, 0] };
        assert(limbs_value(r.limbs@) == v);
        proof {
            lemma_limbs_reduced(r.limbs@, group_order());
        }
        r
    }

    pub fn zero() -> (r: Scalar)
        ensures
            r@ == 0,
    {
        Scalar::from_u64(0)
    }

    pub fn one() -> (r: Scalar)
        ensures
            r@ == 1,
    {
        Scalar::from_u64(1)
    }

    /// The four little-endian limbs of the canonical value.
    pub fn limbs(&self) -> (r: [u64; 4])
        ensures
            limbs_value(r@) == self@,
    {
        proof {
            use_type_invariant(self);
            lemma_limbs_reduced(self.limbs@, group_order());
        }
        self.limbs
    }

    /// Field equality.
    pub fn equals(&self, o: &Scalar) -> (r: bool)
        ensures
            r == (self@ == o@),
    {
        let r = self.limbs[0] == o.limbs[0] && self.limbs[1] == o.limbs[1]
            && self.limbs[2] == o.limbs[2] && self.limbs[3] == o.limbs[3];
        proof {
            use_type_invariant(self);
            use_type_invariant(o);
            lemma_limbs_reduced(self.limbs@, group_order());
            lemma_limbs_reduced(o.limbs@, group_order());
            if self@ == o@ {
                lemma_limbs_injective(self.limbs@, o.limbs@);
            }
            if r {
                assert(self.limbs@ =~= o.limbs@);
            }
        }
        r
    }

    /// The sum modulo `group_order()`.
    pub fn add(&self, o: &Scalar) -> (r: Scalar)
        ensures
            r@ == (self@ + o@) % group_order(),
    {
        self.add_fr(o)
    }

    /// The product modulo `group_order()`.
    pub fn mul(&self, o: &Scalar) -> (r: Scalar)
        ensures
            r@ == (self@ * o@) % group_order(),
    {
        self.mul_fr(o)
    }

    /// The multiplicative inverse modulo `group_order()`; none for zero.
    pub fn inverse(&self) -> (r: Option<Scalar>)
        ensures
            r is None <==> self@ == 0,
            r matches Some(v) ==> (self@ * v@) % group_order() == 1,
    {
        self.inverse_fr()
    }

    /// `self^e` modulo `group_order()`.
    pub fn pow(&self, e: u64) -> (r: Scalar)
        ensures
            r@ == pow(self@, e as nat) % group_order(),
    {
        self.pow_fr(e)
    }

    /// Relies on ark_ff's addition in `ark_bn254::Fr`: the sum modulo the field's modulus.
    #[verifier::external_body]
    fn add_fr(&self, o: &Scalar) -> (r: Scalar)
        ensures
            r@ == (self@ + o@) % group_order(),
    {
        let s = Fr::new(BigInt(self.limbs)) + Fr::new(BigInt(o.limbs));
        Scalar { limbs: s.into_bigint().0 }
    }

    /// Relies on ark_ff's multiplication in `ark_bn254::Fr`: the product modulo the field's modulus.
    #[verifier::external_body]
    fn mul_fr(&self, o: &Scalar) -> (r: Scalar)
        ensures
            r@ == (self@ * o@) % group_order(),
    {
        let s = Fr::new(BigInt(self.limbs)) * Fr::new(BigInt(o.limbs));
        Scalar { limbs: s.into_bigint().0 }
    }

    /// Relies on ark_ff's `Field::inverse` on `ark_bn254::Fr`: the multiplicative
    /// inverse of a nonzero element, and none for zero.
    #[verifier::external_body]
    fn inverse_fr(&self) -> (r: Option<Scalar>)
        ensures
            r is None <==> self@ == 0,
            r matches Some(v) ==> (self@ * v@) % group_order() == 1,
    {
        Fr::new(BigInt(self.limbs)).inverse().map(|v| Scalar { limbs: v.into_bigint().0 })
    }

    /// Relies on ark_ff's `Field::pow` on `ark_bn254::Fr` with a one-limb exponent:
    /// the power modulo the field's modulus.
    #[verifier::external_body]
    fn pow_fr(&self, e: u64) -> (r: Scalar)
        ensures
            r@ == pow(self@, e as nat) % group_order(),
    {
        Scalar { limbs: Fr::new(BigInt(self.limbs)).pow([e]).into_bigint().0 }
    }
}

/// The integer whose little-endian bytes are `b`.
pub open spec fn le_value(b: Seq<u8>) -> int
    decreases b.len(),
{
    if b.len() == 0 {
        0
    } else {
        b[0] + 256 * le_value(b.subrange(1, b.len() as int))
    }
}

/// Whether `v` has a square root modulo `base_modulus()`.
pub open spec fn is_square(v: int) -> bool {
    exists|z: int| 0 <= z < base_modulus() && #[trigger] ((z * z) % base_modulus()) == v
}

/// The candidate square root of `v` that the base field computes: since the
/// modulus is 3 modulo 4, it is `v^((q + 1) / 4)`.
pub open spec fn sqrt_candidate(v: int) -> int {
    pow(v, ((base_modulus() + 1) / 4) as nat) % base_modulus()
}

/// An element of the base field of BN254, that is an integer modulo
/// `base_modulus()`, kept in canonical form.
#[derive(Clone, Copy, Debug, PartialEq, Eq)]
pub struct Base {
    pub(crate) limbs: [u64; 4],
}

impl View for Base {
    type V = int;

    closed spec fn view(&self) -> int {
        limbs_value(self.limbs@) % base_modulus()
    }
}

impl Base {
    #[verifier::type_invariant]
    pub(crate) open spec fn canonical(self) -> bool {
        limbs_value(self.limbs@) < base_modulus()
    }

    pub(crate) proof fn lemma_view(self)
        ensures
            self@ == limbs_value(self.limbs@) % base_modulus(),
    {
    }

    /// The base field element `v`.
    pub fn from_u64(v: u64) -> (r: Base)
        ensures
            r@ == v,
    {
        let r = Base { limbs: [v, 0, 0, 0] };
        assert(limbs_value(r.limbs@) == v);
        proof {
            lemma_limbs_reduced(r.limbs@, base_modulus());
        }
        r
    }

    /// The four little-endian limbs of the canonical value.
    pub fn limbs(&self) -> (r: [u64; 4])
        ensures
            limbs_value(r@) == self@,
    {
        proof {
            use_type_invariant(self);
            lemma_limbs_reduced(self.limbs@, base_modulus());
        }
        self.limbs
    }

    /// Field equality.
    pub fn equals(&self, o: &Base) -> (r: bool)
        ensures
            r == (self@ == o@),
    {
        let r = self.limbs[0] == o.limbs[0] && self.limbs[1] == o.limbs[1]
            && self.limbs[2] == o.limbs[2] && self.limbs[3] == o.limbs[3];
        proof {
            use_type_invariant(self);
            use_type_invariant(o);
            lemma_limbs_reduced(self.limbs@, base_modulus());
            lemma_limbs_reduced(o.limbs@, base_modulus());
            if self@ == o@ {
                lemma_limbs_injective(self.limbs@, o.limbs@);
            }
            if r {
                assert(self.limbs@ =~= o.limbs@);
            }
        }
        r
    }

    /// Relies on ark_ff's `PrimeField::from_le_bytes_mod_order` on `ark_bn254::Fq`:
    /// the little-endian integer of the bytes, reduced modulo the field's modulus.
    #[verifier::external_body]
    pub(crate) fn from_le_bytes_mod_order(b: &[u8]) -> (r: Base)
        ensures
            r@ == le_value(b@) % base_modulus(),
    {
        Base { limbs: Fq::from_le_bytes_mod_order(b).into_bigint().0 }
    }

    /// Relies on ark_ff's addition in `ark_bn254::Fq`: the sum modulo the field's modulus.
    #[verifier::external_body]
    pub(crate) fn add(&self, o: &Base) -> (r: Base)
        ensures
            r@ == (self@ + o@) % base_modulus(),
    {
        let s = Fq::new(BigInt(self.limbs)) + Fq::new(BigInt(o.limbs));
        Base { limbs: s.into_bigint().0 }
    }

    /// Relies on ark_ff's multiplication in `ark_bn254::Fq`: the product modulo the field's modulus.
    #[verifier::external_body]
    pub(crate) fn mul(&self, o: &Base) -> (r: Base)
        ensures
            r@ == (self@ * o@) % base_modulus(),
    {
        let s = Fq::new(BigInt(self.limbs)) * Fq::new(BigInt(o.limbs));
        Base { limbs: s.into_bigint().0 }
    }

    /// Relies on ark_ff's `Field::sqrt` on `ark_bn254::Fq`, which computes
    /// `v^((q + 1) / 4)` and returns it when it squares to `v`, and returns
    /// nothing when `v` has no square root.
    #[verifier::external_body]
    pub(crate) fn sqrt(&self) -> (r: Option<Base>)
        ensures
            r matches Some(y) ==> y@ == sqrt_candidate(self@) && (y@ * y@) % base_modulus() == self@,
            r is None ==> !is_square(self@),
    {
        Fq::new(BigInt(self.limbs)).sqrt().map(|y| Base { limbs: y.into_bigint().0 })
    }
}

} // verus!
