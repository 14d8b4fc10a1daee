//! Vectors of scalars, and polynomials whose coefficients are such vectors.
use crate::field::{group_order, Scalar};
use crate::group::Point;
use crate::model::{add_vec, inner, lemma_mod_mod_eq, logs, sum, vals};
use crate::pedersen_commitment::linear_combination;
use crate::polynomial::{conv_seq, convolve, entries, eval, lemma_conv_ext, trim, Polynomial};
use crate::random_ec_points::random_in_range;
use vstd::arithmetic::div_mod::{lemma_add_mod_noop, lemma_mul_mod_noop_right};
use vstd::arithmetic::power::pow;
use vstd::prelude::*;

verus! {

/// A vector of scalars.
#[derive(Clone, Debug, PartialEq, Eq)]
pub struct Coeff(pub Vec<Scalar>);

impl View for Coeff {
    type V = Seq<int>;

    open spec fn view(&self) -> Seq<int> {
        vals(self.0@)
    }
}

proof fn lemma_vals_push(s: Seq<Scalar>, x: Scalar)
    ensures
        vals(s.push(x)) == vals(s).push(x@),
{
    assert(vals(s.push(x)) =~= vals(s).push(x@));
}

/// `n` copies of the scalar `v`.
fn filled(len: usize, v: Scalar) -> (r: Vec<Scalar>)
    ensures
        r@.len() == len,
        forall|i: int| 0 <= i < len ==> #[trigger] r@[i] == v,
{
    let mut r: Vec<Scalar> = Vec::new();
    while r.len() < len
        invariant
            r@.len() <= len,
            forall|i: int| 0 <= i < r@.len() ==> #[trigger] r@[i] == v,
        decreases len - r@.len(),
    {
        r.push(v);
    }
    r
}

impl Coeff {
    pub fn new(values: Vec<Scalar>) -> (r: Coeff)
        ensures
            r.0 == values,
    {
        Coeff(values)
    }

    pub fn from_slice(values: &[Scalar]) -> (r: Coeff)
        ensures
            r.0@ == values@,
    {
        Coeff(vstd::slice::slice_to_vec(values))
    }

    /// `len` random scalars, each in `[1, 100000000)`.
    pub fn random(len: usize) -> (r: Coeff)
        ensures
            r.0@.len() == len,
            forall|i: int| 0 <= i < len ==> 1 <= #[trigger] r@[i] < 100000000,
    {
        let mut v: Vec<Scalar> = Vec::new();
        while v.len() < len
            invariant
                v@.len() <= len,
                forall|i: int| 0 <= i < v@.len() ==> 1 <= (#[trigger] v@[i])@ < 100000000,
            decreases len - v@.len(),
        {
            v.push(Scalar::from_u64(random_in_range(1, 100000000)));
        }
        assert(vals(v@).len() == v@.len());
        Coeff(v)
    }

    /// `len` zeros.
    pub fn zero(len: usize) -> (r: Coeff)
        ensures
            r@ == Seq::new(len as nat, |i: int| 0int),
            r.0@.len() == len,
    {
        let r = Coeff(filled(len, Scalar::zero()));
        proof {
            assert(r@ =~= Seq::new(len as nat, |i: int| 0int));
        }
        r
    }

    /// `len` ones.
    pub fn one(len: usize) -> (r: Coeff)
        ensures
            r@ == Seq::new(len as nat, |i: int| 1int),
            r.0@.len() == len,
    {
        let r = Coeff(filled(len, Scalar::one()));
        proof {
            assert(r@ =~= Seq::new(len as nat, |i: int| 1int));
        }
        r
    }

    /// `Σ v[i]·g[i]`.
    pub fn commit(&self, g_vec: &Vec<Point>) -> (r: Point)
        requires
            self.0@.len() == g_vec@.len(),
        ensures
            r.log() == inner(self@, logs(g_vec@)) % group_order(),
    {
        linear_combination(&self.0, g_vec)
    }

    pub fn len(&self) -> (r: usize)
        ensures
            r == self.0@.len(),
    {
        self.0.len()
    }

    pub fn is_empty(&self) -> (r: bool)
        ensures
            r == (self.0@.len() == 0),
    {
        self.0.len() == 0
    }

    /// Entry-wise sum.
    pub fn add(self, rhs: Coeff) -> (r: Coeff)
        requires
            self.0@.len() == rhs.0@.len(),
        ensures
            r@ == add_vec(self@, rhs@),
            r.0@.len() == self.0@.len(),
    {
        let mut v: Vec<Scalar> = Vec::new();
        let mut i: usize = 0;
        while i < self.0.len()
            invariant
                i <= self.0@.len() == rhs.0@.len(),
                vals(v@) =~= add_vec(self@, rhs@).take(
                    i as int,
                ),
            decreases self.0@.len() - i,
        {
            assert(vals(v@).len() == v@.len());
            let x = self.0[i].add(&rhs.0[i]);
            proof {
                lemma_vals_push(v@, x);
            }
            v.push(x);
            i = i + 1;
        }
        assert(vals(v@).len() == v@.len());
        Coeff(v)
    }

    /// Entry-wise product.
    pub fn mul(self, rhs: Coeff) -> (r: Coeff)
        requires
            self.0@.len() == rhs.0@.len(),
        ensures
            r@ == Seq::new(self@.len(), |i: int| (self@[i] * rhs@[i]) % group_order()),
            r.0@.len() == self.0@.len(),
    {
        let mut v: Vec<Scalar> = Vec::new();
        let mut i: usize = 0;
        while i < self.0.len()
            invariant
                i <= self.0@.len() == rhs.0@.len(),
                vals(v@) =~= Seq::new(self@.len(), |k: int| (self@[k] * rhs@[k]) % group_order()).take(
                    i as int,
                ),
            decreases self.0@.len() - i,
        {
            assert(vals(v@).len() == v@.len());
            let x = self.0[i].mul(&rhs.0[i]);
            proof {
                lemma_vals_push(v@, x);
            }
            v.push(x);
            i = i + 1;
        }
        assert(vals(v@).len() == v@.len());
        Coeff(v)
    }

    /// Each entry multiplied by `s`.
    fn scale(&self, s: &Scalar) -> (r: Coeff)
        ensures
            r@ == Seq::new(self@.len(), |i: int| (self@[i] * s@) % group_order()),
            r.0@.len() == self.0@.len(),
    {
        let mut v: Vec<Scalar> = Vec::new();
        let mut i: usize = 0;
        while i < self.0.len()
            invariant
                i <= self.0@.len(),
                vals(v@) =~= Seq::new(self@.len(), |k: int| (self@[k] * s@) % group_order()).take(
                    i as int,
                ),
            decreases self.0@.len() - i,
        {
            assert(vals(v@).len() == v@.len());
            let x = self.0[i].mul(s);
            proof {
                lemma_vals_push(v@, x);
            }
            v.push(x);
            i = i + 1;
        }
        assert(vals(v@).len() == v@.len());
        Coeff(v)
    }

    /// Entry-wise equality.
    pub fn equals(&self, other: &Coeff) -> (r: bool)
        ensures
            r == (self@ == other@),
    {
        if self.0.len() != other.0.len() {
            assert(self@.len() != other@.len());
            return false;
        }
        let mut i: usize = 0;
        while i < self.0.len()
            invariant
                i <= self.0@.len() == other.0@.len(),
                forall|k: int| 0 <= k < i ==> self@[k] == other@[k],
            decreases self.0@.len() - i,
        {
            if !self.0[i].equals(&other.0[i]) {
                assert(self@[i as int] != other@[i as int]);
                return false;
            }
            i = i + 1;
        }
        proof {
            assert(self@ =~= other@);
        }
        true
    }
}

impl From<Vec<Scalar>> for Coeff {
    fn from(values: Vec<Scalar>) -> (r: Coeff) {
        Coeff(values)
    }
}

impl vstd::std_specs::convert::FromSpecImpl<Vec<Scalar>> for Coeff {
    open spec fn obeys_from_spec() -> bool {
        true
    }

    open spec fn from_spec(v: Vec<Scalar>) -> Coeff {
        Coeff(v)
    }
}

impl From<Coeff> for Vec<Scalar> {
    fn from(coeff: Coeff) -> (r: Vec<Scalar>) {
        coeff.0
    }
}

impl vstd::std_specs::convert::FromSpecImpl<Coeff> for Vec<Scalar> {
    open spec fn obeys_from_spec() -> bool {
        true
    }

    open spec fn from_spec(c: Coeff) -> Vec<Scalar> {
        c.0
    }
}

/// The inner product of two vectors.
pub trait InnerProduct: Sized {
    type Output;

    /// Whether the two vectors can be paired.
    spec fn pairs_with(&self, rhs: &Self) -> bool;

    /// What the inner product of the two vectors is.
    spec fn is_inner_product(&self, rhs: &Self, r: Self::Output) -> bool;

    fn inner_product(&self, rhs: &Self) -> (r: Self::Output)
        requires
            self.pairs_with(rhs),
        ensures
            self.is_inner_product(rhs, r),
    ;
}

impl InnerProduct for Coeff {
    type Output = Scalar;

    open spec fn pairs_with(&self, rhs: &Self) -> bool {
        self.0@.len() == rhs.0@.len()
    }

    open spec fn is_inner_product(&self, rhs: &Self, r: Scalar) -> bool {
        r@ == inner(self@, rhs@) % group_order()
    }

    /// `Σ a[i]·b[i]`.
    fn inner_product(&self, rhs: &Self) -> (r: Scalar) {
        let ghost q = group_order();
        let mut acc = Scalar::zero();
        let mut i: usize = 0;
        proof {
            vstd::arithmetic::div_mod::lemma_small_mod(0, q as nat);
            assert(inner(self@.take(0), rhs@) == 0);
        }
        while i < self.0.len()
            invariant
                i <= self.0@.len() == rhs.0@.len(),
                q == group_order(),
                acc@ == inner(self@.take(i as int), rhs@) % q,
            decreases self.0@.len() - i,
        {
            let t = self.0[i].mul(&rhs.0[i]);
            let next = acc.add(&t);
            proof {
                crate::model::lemma_inner_step(self@, rhs@, i as int);
                let prev = inner(self@.take(i as int), rhs@);
                lemma_add_mod_noop(prev, self@[i as int] * rhs@[i as int], q);
                lemma_mod_mod_eq(prev, q);
            }
            acc = next;
            i = i + 1;
        }
        proof {
            assert(self@.take(self@.len() as int) =~= self@);
        }
        acc
    }
}

/// Component `j` of each coefficient vector, lowest degree first.
pub open spec fn column(c: Seq<Coeff>, j: int) -> Seq<int> {
    Seq::new(c.len(), |i: int| c[i]@[j])
}

/// The inner products `⟨a[i], b[j]⟩` of the coefficient vectors of two vector
/// polynomials, modulo `group_order()`.
pub open spec fn inner_products(a: Seq<Coeff>, b: Seq<Coeff>) -> spec_fn(int, int) -> int {
    |i: int, j: int| inner(a[i]@, b[j]@) % group_order()
}

/// A polynomial whose coefficients are vectors of scalars of one length; the
/// coefficient at index `i` is that of `x^i`.
#[derive(Clone, Debug)]
pub struct VectorPolynomial {
    pub coeffs: Vec<Coeff>,
}

impl VectorPolynomial {
    /// Whether all coefficient vectors have the same length.
    pub open spec fn well_formed(&self) -> bool {
        forall|i: int|
            0 <= i < self.coeffs@.len() ==> (#[trigger] self.coeffs@[i]).0@.len()
                == self.coeffs@[0].0@.len()
    }

    /// The polynomial with these coefficients, which must all have the same length.
    pub fn new(coeffs: Vec<Coeff>) -> (r: VectorPolynomial)
        requires
            forall|i: int|
                0 <= i < coeffs@.len() ==> (#[trigger] coeffs@[i]).0@.len() == coeffs@[0].0@.len(),
        ensures
            r.coeffs == coeffs,
            r.well_formed(),
    {
        VectorPolynomial { coeffs }
    }

    pub fn len(&self) -> (r: usize)
        ensures
            r == self.coeffs@.len(),
    {
        self.coeffs.len()
    }

    /// The vector `Σ coeffs[i]·x^i`, component by component.
    pub fn evaluate(&self, x: &Scalar) -> (r: Coeff)
        requires
            self.coeffs@.len() > 0,
            self.well_formed(),
        ensures
            r@ == Seq::new(
                self.coeffs@[0].0@.len(),
                |j: int| eval(column(self.coeffs@, j), x@) % group_order(),
            ),
    {
        let ghost q = group_order();
        let n = self.coeffs[0].len();
        let ghost c = self.coeffs@;
        let mut result = Coeff::zero(n);
        let mut index: usize = 0;
        proof {
            vstd::arithmetic::div_mod::lemma_small_mod(0, q as nat);
        }
        while index < self.coeffs.len()
            invariant
                index <= self.coeffs@.len(),
                c == self.coeffs@,
                self.well_formed(),
                n == c[0].0@.len(),
                q == group_order(),
                result.0@.len() == n,
                forall|j: int|
                    0 <= j < n ==> #[trigger] result@[j] == sum(
                        |i: int| column(c, j)[i] * pow(x@, i as nat),
                        index as nat,
                    ) % q,
            decreases self.coeffs@.len() - index,
        {
            let p = x.pow(index as u64);
            let term = self.coeffs[index].scale(&p);
            let ghost prev = result@;
            result = result.add(term);
            proof {
                assert forall|j: int| 0 <= j < n implies #[trigger] result@[j] == sum(
                    |i: int| column(c, j)[i] * pow(x@, i as nat),
                    (index + 1) as nat,
                ) % q by {
                    let f = |i: int| column(c, j)[i] * pow(x@, i as nat);
                    let cij = c[index as int]@[j];
                    assert(column(c, j)[index as int] == cij);
                    lemma_mul_mod_noop_right(cij, pow(x@, index as nat), q);
                    lemma_add_mod_noop(sum(f, index as nat), f(index as int), q);
                    lemma_mod_mod_eq(sum(f, index as nat), q);
                    lemma_mod_mod_eq(f(index as int), q);
                    assert(sum(f, (index + 1) as nat) == sum(f, index as nat) + f(index as int));
                }
            }
            index = index + 1;
        }
        proof {
            assert(result@ =~= Seq::new(n as nat, |j: int| eval(column(c, j), x@) % q));
        }
        result
    }

    /// The scalar polynomial `Σ_k (Σ_{i+j=k} ⟨a_i, b_j⟩)·x^k`, trailing zeros dropped.
    pub fn mul(self, rhs: VectorPolynomial) -> (r: Polynomial)
        requires
            self.coeffs@.len() > 0,
            rhs.coeffs@.len() > 0,
            self.well_formed(),
            rhs.well_formed(),
            self.coeffs@[0].0@.len() == rhs.coeffs@[0].0@.len(),
            self.coeffs@.len() + rhs.coeffs@.len() <= usize::MAX,
        ensures
            r@ == trim(
                conv_seq(
                    inner_products(self.coeffs@, rhs.coeffs@),
                    self.coeffs@.len(),
                    rhs.coeffs@.len(),
                ),
            ),
    {
        let na = self.coeffs.len();
        let nb = rhs.coeffs.len();
        let mut m: Vec<Vec<Scalar>> = Vec::new();
        let mut i: usize = 0;
        while i < na
            invariant
                i <= na == self.coeffs@.len(),
                nb == rhs.coeffs@.len(),
                self.well_formed(),
                rhs.well_formed(),
                self.coeffs@[0].0@.len() == rhs.coeffs@[0].0@.len(),
                m@.len() == i,
                forall|a: int| 0 <= a < i ==> (#[trigger] m@[a])@.len() == nb,
                forall|a: int, b: int|
                    0 <= a < i && 0 <= b < nb ==> #[trigger] m@[a]@[b]@ == inner_products(
                        self.coeffs@,
                        rhs.coeffs@,
                    )(a, b),
            decreases na - i,
        {
            let mut row: Vec<Scalar> = Vec::new();
            let mut j: usize = 0;
            while j < nb
                invariant
                    i < na == self.coeffs@.len(),
                    nb == rhs.coeffs@.len(),
                    self.well_formed(),
                    rhs.well_formed(),
                    self.coeffs@[0].0@.len() == rhs.coeffs@[0].0@.len(),
                    j <= nb,
                    row@.len() == j,
                    forall|b: int|
                        0 <= b < j ==> #[trigger] row@[b]@ == inner_products(
                            self.coeffs@,
                            rhs.coeffs@,
                        )(i as int, b),
                decreases nb - j,
            {
                assert(self.coeffs@[i as int].0@.len() == rhs.coeffs@[j as int].0@.len());
                row.push(self.coeffs[i].inner_product(&rhs.coeffs[j]));
                j = j + 1;
            }
            m.push(row);
            i = i + 1;
        }
        let c = convolve(&m, nb);
        proof {
            lemma_conv_ext(
                entries(m@),
                inner_products(self.coeffs@, rhs.coeffs@),
                na as nat,
                nb as nat,
            );
        }
        Polynomial::from_coefficients_vec(c)
    }
}

/// The decimal digits of `n`, most significant first.
pub open spec fn decimal(n: nat) -> Seq<char>
    decreases n,
{
    if n < 10 {
        seq![digit_char(n)]
    } else {
        decimal(n / 10).push(digit_char(n % 10))
    }
}

pub open spec fn digit_char(d: nat) -> char {
    if d == 0 {
        '0'
    } else if d == 1 {
        '1'
    } else if d == 2 {
        '2'
    } else if d == 3 {
        '3'
    } else if d == 4 {
        '4'
    } else if d == 5 {
        '5'
    } else if d == 6 {
        '6'
    } else if d == 7 {
        '7'
    } else if d == 8 {
        '8'
    } else {
        '9'
    }
}

/// The values written in decimal and separated by `", "`.
pub open spec fn joined(v: Seq<int>) -> Seq<char>
    decreases v.len(),
{
    if v.len() == 0 {
        Seq::empty()
    } else if v.len() == 1 {
        decimal(v[0] as nat)
    } else {
        joined(v.drop_last()) + seq![',', ' '] + decimal(v.last() as nat)
    }
}

/// The text `(c0)x^0 + (c1)x^1 + ...` of the coefficient vectors `c`.
pub open spec fn polynomial_text(c: Seq<Seq<int>>) -> Seq<char>
    decreases c.len(),
{
    if c.len() == 0 {
        Seq::empty()
    } else {
        let k = (c.len() - 1) as nat;
        let sep = if k > 0 {
            seq![' ', '+', ' ']
        } else {
            Seq::empty()
        };
        polynomial_text(c.drop_last()) + sep + seq!['('] + joined(c.last()) + seq![')', 'x', '^']
            + decimal(k)
    }
}

/// Relies on the `Display` of `ark_bn254::Fr`, which writes the canonical
/// integer in decimal.
#[verifier::external_body]
fn scalar_decimal(s: &Scalar) -> (r: Vec<char>)
    ensures
        r@ == decimal(s@ as nat),
{
    ark_bn254::Fr::new(ark_ff::BigInt(s.limbs)).to_string().chars().collect()
}

/// Relies on `String::from_iter`: the string of these characters.
#[verifier::external_body]
fn string_of(c: Vec<char>) -> (r: String)
    ensures
        r@ == c@,
{
    c.into_iter().collect()
}

fn digit_of(d: usize) -> (r: char)
    requires
        d < 10,
    ensures
        r == digit_char(d as nat),
{
    if d == 0 {
        '0'
    } else if d == 1 {
        '1'
    } else if d == 2 {
        '2'
    } else if d == 3 {
        '3'
    } else if d == 4 {
        '4'
    } else if d == 5 {
        '5'
    } else if d == 6 {
        '6'
    } else if d == 7 {
        '7'
    } else if d == 8 {
        '8'
    } else {
        '9'
    }
}

fn usize_decimal(n: usize) -> (r: Vec<char>)
    ensures
        r@ == decimal(n as nat),
    decreases n,
{
    if n < 10 {
        let mut v: Vec<char> = Vec::new();
        v.push(digit_of(n));
        proof {
            assert(v@ =~= seq![digit_char(n as nat)]);
        }
        v
    } else {
        let mut v = usize_decimal(n / 10);
        v.push(digit_of(n % 10));
        v
    }
}

fn push_all(dst: &mut Vec<char>, src: &Vec<char>)
    ensures
        final(dst)@ == old(dst)@ + src@,
{
    let mut i: usize = 0;
    while i < src.len()
        invariant
            i <= src@.len(),
            dst@ == old(dst)@ + src@.take(i as int),
        decreases src@.len() - i,
    {
        dst.push(src[i]);
        proof {
            assert(src@.take(i + 1 as int) =~= src@.take(i as int).push(src@[i as int]));
            assert(dst@ =~= old(dst)@ + src@.take(i + 1 as int));
        }
        i = i + 1;
    }
    proof {
        assert(src@.take(src@.len() as int) =~= src@);
    }
}

/// The views of the coefficient vectors.
pub open spec fn coeff_views(c: Seq<Coeff>) -> Seq<Seq<int>> {
    c.map_values(|x: Coeff| x@)
}

impl VectorPolynomial {
    /// The text `(c0)x^0 + (c1)x^1 + ...`, each coefficient vector written as
    /// its entries in decimal separated by `", "`.
    pub fn to_string(&self) -> (r: String)
        ensures
            r@ == polynomial_text(coeff_views(self.coeffs@)),
    {
        let ghost cv = coeff_views(self.coeffs@);
        let mut out: Vec<char> = Vec::new();
        let mut i: usize = 0;
        while i < self.coeffs.len()
            invariant
                i <= self.coeffs@.len(),
                cv == coeff_views(self.coeffs@),
                out@ == polynomial_text(cv.take(i as int)),
            decreases self.coeffs@.len() - i,
        {
            let ghost before = out@;
            if i > 0 {
                out.push(' ');
                out.push('+');
                out.push(' ');
            }
            out.push('(');
            let ghost head = out@;
            let v = &self.coeffs[i].0;
            let mut j: usize = 0;
            while j < v.len()
                invariant
                    j <= v@.len(),
                    out@ == head + joined(vals(v@).take(j as int)),
                decreases v@.len() - j,
            {
                let ghost mid = out@;
                if j > 0 {
                    out.push(',');
                    out.push(' ');
                }
                let d = scalar_decimal(&v[j]);
                push_all(&mut out, &d);
                proof {
                    let t = vals(v@).take(j + 1 as int);
                    assert(t.drop_last() =~= vals(v@).take(j as int));
                    if j > 0 {
                        assert(out@ =~= head + joined(t));
                    } else {
                        assert(out@ =~= head + joined(t));
                    }
                }
                j = j + 1;
            }
            out.push(')');
            out.push('x');
            out.push('^');
            let e = usize_decimal(i);
            push_all(&mut out, &e);
            proof {
                let c = cv.take(i + 1 as int);
                assert(c.drop_last() =~= cv.take(i as int));
                assert(vals(v@).take(v@.len() as int) =~= vals(v@));
                assert(c.last() == vals(v@));
                assert(out@ =~= polynomial_text(c));
            }
            i = i + 1;
        }
        proof {
            assert(cv.take(self.coeffs@.len() as int) =~= cv);
        }
        string_of(out)
    }
}

} // verus!
