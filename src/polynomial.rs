//! Univariate polynomials with scalar coefficients, lowest degree first, kept
//! without trailing zero coefficients.
use crate::field::{group_order, Scalar};
use crate::model::{lemma_eqm_mod, sum, vals};
use vstd::arithmetic::power::pow;
use vstd::prelude::*;

verus! {

/// The coefficients without their trailing zeros.
pub open spec fn trim(c: Seq<int>) -> Seq<int>
    decreases c.len(),
{
    if c.len() > 0 && c.last() == 0 {
        trim(c.drop_last())
    } else {
        c
    }
}

/// `Σ c[i]·x^i`.
pub open spec fn eval(c: Seq<int>, x: int) -> int {
    sum(|i: int| c[i] * pow(x, i as nat), c.len())
}

/// The coefficient of `x^k` in the product of two polynomials whose products of
/// coefficients are `f(i, j)`, the first having `na` coefficients and the
/// second `nb`.
pub open spec fn conv(f: spec_fn(int, int) -> int, na: nat, nb: nat, k: int) -> int {
    sum(|i: int| if 0 <= k - i < nb { f(i, k - i) } else { 0 }, na)
}

/// The coefficients of the product: `na + nb - 1` of them, none when either is empty.
pub open spec fn conv_seq(f: spec_fn(int, int) -> int, na: nat, nb: nat) -> Seq<int> {
    if na == 0 || nb == 0 {
        Seq::empty()
    } else {
        Seq::new((na + nb - 1) as nat, |k: int| conv(f, na, nb, k) % group_order())
    }
}

/// The contributions of rows `0..i`, and of columns `0..j` of row `i`.
spec fn conv_partial(f: spec_fn(int, int) -> int, i: nat, j: int, nb: nat, k: int) -> int {
    conv(f, i, nb, k) + if 0 <= k - i < j {
        f(i as int, k - i)
    } else {
        0
    }
}

/// The entries of a matrix of scalars, as a function of row and column.
pub open spec fn entries(m: Seq<Vec<Scalar>>) -> spec_fn(int, int) -> int {
    |i: int, j: int| m[i]@[j]@
}

/// The coefficients of a product from the matrix `m[i][j]` of products of
/// coefficients, `m` having `na` rows of `nb` entries each.
pub(crate) fn convolve(m: &Vec<Vec<Scalar>>, nb: usize) -> (r: Vec<Scalar>)
    requires
        m@.len() + nb <= usize::MAX,
        forall|i: int| 0 <= i < m@.len() ==> (#[trigger] m@[i])@.len() == nb,
    ensures
        vals(r@) == conv_seq(entries(m@), m@.len(), nb as nat),
{
    let ghost f = entries(m@);
    let ghost q = group_order();
    let na = m.len();
    let mut r: Vec<Scalar> = Vec::new();
    if na == 0 || nb == 0 {
        proof {
            assert(vals(r@) =~= conv_seq(f, na as nat, nb as nat));
        }
        return r;
    }
    let len = na + nb - 1;
    let mut k: usize = 0;
    while k < len
        invariant
            k <= len,
            r@.len() == k,
            forall|t: int| 0 <= t < k ==> (#[trigger] r@[t])@ == 0,
        decreases len - k,
    {
        r.push(Scalar::zero());
        k = k + 1;
    }
    proof {
        vstd::arithmetic::div_mod::lemma_small_mod(0, q as nat);
        assert forall|t: int| 0 <= t < len implies (#[trigger] r@[t])@ == conv(f, 0, nb as nat, t)
            % q by {}
    }
    let mut i: usize = 0;
    while i < na
        invariant
            na == m@.len(),
            len == na + nb - 1,
            nb > 0,
            i <= na,
            r@.len() == len,
            q == group_order(),
            f == entries(m@),
            forall|t: int| 0 <= t < len ==> (#[trigger] r@[t])@ == conv(f, i as nat, nb as nat, t) % q,
            forall|a: int| 0 <= a < m@.len() ==> (#[trigger] m@[a])@.len() == nb,
        decreases na - i,
    {
        let mut j: usize = 0;
        while j < nb
            invariant
                na == m@.len(),
                len == na + nb - 1,
                i < na,
                j <= nb,
                r@.len() == len,
                q == group_order(),
                m@[i as int]@.len() == nb,
                f == entries(m@),
                forall|t: int|
                    0 <= t < len ==> (#[trigger] r@[t])@ == conv_partial(f, i as nat, j as int, nb as nat, t) % q,
            decreases nb - j,
        {
            let v = r[i + j].add(&m[i][j]);
            let ghost old_r = r@;
            r.set(i + j, v);
            proof {
                assert forall|t: int| 0 <= t < len implies (#[trigger] r@[t])@ == conv_partial(
                    f,
                    i as nat,
                    j + 1,
                    nb as nat,
                    t,
                ) % q by {
                    if t == i + j {
                        let c = conv(f, i as nat, nb as nat, t);
                        Scalar::lemma_range(m@[i as int]@[j as int]);
                        assert(f(i as int, j as int) == m@[i as int]@[j as int]@);
                        assert(m[i as int][j as int] == m@[i as int]@[j as int]);
                        vstd::arithmetic::div_mod::lemma_small_mod(f(i as int, j as int) as nat, q as nat);
                        lemma_eqm_mod(c);
                        vstd::arithmetic::div_mod::lemma_add_mod_noop(c, f(i as int, j as int), q);
                        crate::model::lemma_mod_mod_eq(c, q);
                    }
                }
            }
            j = j + 1;
        }
        proof {
            assert forall|t: int| 0 <= t < len implies (#[trigger] r@[t])@ == conv(
                f,
                (i + 1) as nat,
                nb as nat,
                t,
            ) % q by {
                let g = |a: int| if 0 <= t - a < nb { f(a, t - a) } else { 0 };
                assert(sum(g, (i + 1) as nat) == sum(g, i as nat) + g(i as int));
            }
        }
        i = i + 1;
    }
    proof {
        assert(vals(r@) =~= conv_seq(f, na as nat, nb as nat));
    }
    r
}

/// Two functions that agree on the indices of the matrix give the same product.
pub proof fn lemma_conv_ext(f: spec_fn(int, int) -> int, g: spec_fn(int, int) -> int, na: nat, nb: nat)
    requires
        forall|i: int, j: int| 0 <= i < na && 0 <= j < nb ==> #[trigger] f(i, j) == g(i, j),
    ensures
        conv_seq(f, na, nb) == conv_seq(g, na, nb),
{
    if na > 0 && nb > 0 {
        assert forall|k: int| 0 <= k < na + nb - 1 implies conv(f, na, nb, k) == conv(g, na, nb, k) by {
            crate::model::lemma_sum_ext(
                |i: int| if 0 <= k - i < nb { f(i, k - i) } else { 0 },
                |i: int| if 0 <= k - i < nb { g(i, k - i) } else { 0 },
                na,
            );
        }
        assert(conv_seq(f, na, nb) =~= conv_seq(g, na, nb));
    }
}

/// The products `a[i]·b[j]` of the coefficients of two polynomials, modulo
/// `group_order()`.
pub open spec fn products(a: Seq<int>, b: Seq<int>) -> spec_fn(int, int) -> int {
    |i: int, j: int| (a[i] * b[j]) % group_order()
}

/// Drops trailing zero coefficients.
fn trim_zeros(c: &mut Vec<Scalar>)
    ensures
        vals(final(c)@) == trim(vals(old(c)@)),
{
    while c.len() > 0 && c[c.len() - 1].equals(&Scalar::zero())
        invariant
            trim(vals(c@)) == trim(vals(old(c)@)),
        decreases c@.len(),
    {
        proof {
            assert(vals(c@).drop_last() =~= vals(c@.drop_last()));
        }
        c.pop();
    }
}

/// A polynomial `Σ c[i]·x^i` with scalar coefficients.
#[derive(Clone, Debug)]
pub struct Polynomial {
    coeffs: Vec<Scalar>,
}

impl View for Polynomial {
    type V = Seq<int>;

    closed spec fn view(&self) -> Seq<int> {
        vals(self.coeffs@)
    }
}

impl Polynomial {
    /// The polynomial with these coefficients, trailing zeros dropped.
    pub fn from_coefficients_vec(coeffs: Vec<Scalar>) -> (r: Polynomial)
        ensures
            r@ == trim(vals(coeffs@)),
    {
        let mut c = coeffs;
        trim_zeros(&mut c);
        Polynomial { coeffs: c }
    }

    /// The polynomial with these coefficients, trailing zeros dropped.
    pub fn from_coefficients_slice(coeffs: &[Scalar]) -> (r: Polynomial)
        ensures
            r@ == trim(vals(coeffs@)),
    {
        Polynomial::from_coefficients_vec(vstd::slice::slice_to_vec(coeffs))
    }

    /// The coefficients, lowest degree first.
    pub fn coeffs(&self) -> (r: &Vec<Scalar>)
        ensures
            vals(r@) == self@,
    {
        &self.coeffs
    }

    /// `Σ c[i]·x^i`.
    pub fn evaluate(&self, x: &Scalar) -> (r: Scalar)
        ensures
            r@ == eval(self@, x@) % group_order(),
    {
        let ghost q = group_order();
        let ghost c = self@;
        let ghost f = |i: int| c[i] * pow(x@, i as nat);
        let mut acc = Scalar::zero();
        let mut i: usize = 0;
        proof {
            vstd::arithmetic::div_mod::lemma_small_mod(0, q as nat);
        }
        while i < self.coeffs.len()
            invariant
                i <= self.coeffs@.len(),
                c == self@,
                c.len() == self.coeffs@.len(),
                q == group_order(),
                f == (|i: int| c[i] * pow(x@, i as nat)),
                acc@ == sum(f, i as nat) % q,
            decreases self.coeffs@.len() - i,
        {
            let p = x.pow(i as u64);
            let t = self.coeffs[i].mul(&p);
            let next = acc.add(&t);
            proof {
                let ci = self.coeffs@[i as int]@;
                assert(ci == c[i as int]);
                vstd::arithmetic::div_mod::lemma_mul_mod_noop_right(ci, pow(x@, i as nat), q);
                vstd::arithmetic::div_mod::lemma_add_mod_noop(sum(f, i as nat), f(i as int), q);
                crate::model::lemma_mod_mod_eq(sum(f, i as nat), q);
                crate::model::lemma_mod_mod_eq(f(i as int), q);
                assert(sum(f, (i + 1) as nat) == sum(f, i as nat) + f(i as int));
            }
            acc = next;
            i = i + 1;
        }
        acc
    }

    /// The product of two polynomials.
    pub fn mul(&self, other: &Polynomial) -> (r: Polynomial)
        requires
            self@.len() + other@.len() <= usize::MAX,
        ensures
            r@ == trim(conv_seq(products(self@, other@), self@.len(), other@.len())),
    {
        let na = self.coeffs.len();
        let nb = other.coeffs.len();
        let mut m: Vec<Vec<Scalar>> = Vec::new();
        let mut i: usize = 0;
        while i < na
            invariant
                i <= na == self.coeffs@.len(),
                nb == other.coeffs@.len(),
                m@.len() == i,
                forall|a: int| 0 <= a < i ==> (#[trigger] m@[a])@.len() == nb,
                forall|a: int, b: int|
                    0 <= a < i && 0 <= b < nb ==> #[trigger] m@[a]@[b]@ == products(self@, other@)(
                        a,
                        b,
                    ),
            decreases na - i,
        {
            let mut row: Vec<Scalar> = Vec::new();
            let mut j: usize = 0;
            while j < nb
                invariant
                    i < na == self.coeffs@.len(),
                    nb == other.coeffs@.len(),
                    j <= nb,
                    row@.len() == j,
                    forall|b: int|
                        0 <= b < j ==> #[trigger] row@[b]@ == products(self@, other@)(i as int, b),
                decreases nb - j,
            {
                row.push(self.coeffs[i].mul(&other.coeffs[j]));
                j = j + 1;
            }
            m.push(row);
            i = i + 1;
        }
        let mut c = convolve(&m, nb);
        proof {
            lemma_conv_ext(entries(m@), products(self@, other@), na as nat, nb as nat);
        }
        trim_zeros(&mut c);
        Polynomial { coeffs: c }
    }
}

} // verus!
