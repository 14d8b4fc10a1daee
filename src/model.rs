//! The mathematical model that the contracts speak of: scalars and points both
//! as integers modulo `group_order()`, and vectors of them as `Seq<int>`.
use crate::field::{group_order, Scalar};
use crate::group::Point;
use vstd::arithmetic::div_mod::{
    lemma_add_mod_noop, lemma_mod_bound, lemma_mul_mod_noop_general, lemma_mul_mod_noop_left,
    lemma_small_mod,
};
use vstd::prelude::*;

verus! {

/// The values of a vector of scalars.
pub open spec fn vals(s: Seq<Scalar>) -> Seq<int> {
    s.map_values(|x: Scalar| x@)
}

/// The group elements of a vector of points.
pub open spec fn logs(s: Seq<Point>) -> Seq<int> {
    s.map_values(|p: Point| p.log())
}

/// `f(0) + ... + f(n - 1)`.
pub open spec fn sum(f: spec_fn(int) -> int, n: nat) -> int
    decreases n,
{
    if n == 0 {
        0
    } else {
        sum(f, (n - 1) as nat) + f(n - 1)
    }
}

/// `Σ a[i]·b[i]` over the indices of `a`.
pub open spec fn inner(a: Seq<int>, b: Seq<int>) -> int {
    sum(|i: int| a[i] * b[i], a.len())
}

/// Whether `u` has a multiplicative inverse modulo `group_order()`; in the
/// prime field these are exactly the nonzero elements.
pub open spec fn is_unit(u: int) -> bool {
    exists|v: int| #[trigger] ((u * v) % group_order()) == 1
}

/// The inverse of `u` modulo `group_order()`.
pub open spec fn inv(u: int) -> int {
    choose|v: int| 0 <= v < group_order() && #[trigger] ((u * v) % group_order()) == 1
}

/// The vector extended by one zero when its length is odd.
pub open spec fn pad(a: Seq<int>) -> Seq<int> {
    if a.len() % 2 == 1 {
        a.push(0)
    } else {
        a
    }
}

/// The entries at even indices.
pub open spec fn evens(a: Seq<int>) -> Seq<int> {
    Seq::new(a.len() / 2, |i: int| a[2 * i])
}

/// The entries at odd indices.
pub open spec fn odds(a: Seq<int>) -> Seq<int> {
    Seq::new(a.len() / 2, |i: int| a[2 * i + 1])
}

/// The two cross terms `(⟨evens(a), odds(g)⟩, ⟨odds(a), evens(g)⟩)` of the
/// padded vectors, modulo `group_order()`.
pub open spec fn diagonal(a: Seq<int>, g: Seq<int>) -> (int, int) {
    (
        inner(evens(pad(a)), odds(pad(g))) % group_order(),
        inner(odds(pad(a)), evens(pad(g))) % group_order(),
    )
}

/// Each pair `(a[2i], a[2i+1])` of an even-length vector replaced by
/// `a[2i]·x + a[2i+1]·y`, modulo `group_order()`.
pub open spec fn fold(a: Seq<int>, x: int, y: int) -> Seq<int> {
    Seq::new(a.len() / 2, |i: int| (a[2 * i] * x + a[2 * i + 1] * y) % group_order())
}

/// `(x % m) % m == x % m`.
pub proof fn lemma_mod_mod_eq(x: int, m: int)
    requires
        m > 0,
    ensures
        (x % m) % m == x % m,
{
    lemma_mod_bound(x, m);
    lemma_small_mod((x % m) as nat, m as nat);
}

/// `((x % m) + (y % m) + (z % m)) % m == (x + y + z) % m`, with the partial
/// sums reduced as the executable code reduces them.
pub proof fn lemma_add3_mod(x: int, y: int, z: int, m: int)
    requires
        m > 0,
    ensures
        (((x % m + y % m) % m) + z % m) % m == (x + y + z) % m,
{
    lemma_add_mod_noop(x, y, m);
    lemma_add_mod_noop(x + y, z, m);
    lemma_mod_mod_eq(x + y, m);
}

/// `(c · ((b · a) % m)) % m == (a · b · c) % m`.
pub proof fn lemma_mul3_mod(a: int, b: int, c: int, m: int)
    requires
        m > 0,
    ensures
        (c * ((b * a) % m)) % m == (a * b * c) % m,
{
    vstd::arithmetic::div_mod::lemma_mul_mod_noop_right(c, b * a, m);
    assert(c * (b * a) == a * b * c) by (nonlinear_arith);
}

/// The entries at even (odd) indices of the values of a vector of scalars are
/// the values of its entries at even (odd) indices.
pub proof fn lemma_vals_halves(a: Seq<Scalar>, e: Seq<Scalar>, o: Seq<Scalar>)
    requires
        e == Seq::new(a.len() / 2, |i: int| a[2 * i]),
        o == Seq::new(a.len() / 2, |i: int| a[2 * i + 1]),
    ensures
        vals(e) == evens(vals(a)),
        vals(o) == odds(vals(a)),
{
    assert(vals(e) =~= evens(vals(a)));
    assert(vals(o) =~= odds(vals(a)));
}

/// The same for the group elements of a vector of points.
pub proof fn lemma_logs_halves(a: Seq<Point>, e: Seq<Point>, o: Seq<Point>)
    requires
        e == Seq::new(a.len() / 2, |i: int| a[2 * i]),
        o == Seq::new(a.len() / 2, |i: int| a[2 * i + 1]),
    ensures
        logs(e) == evens(logs(a)),
        logs(o) == odds(logs(a)),
{
    assert(logs(e) =~= evens(logs(a)));
    assert(logs(o) =~= odds(logs(a)));
}

pub proof fn lemma_sum_ext(f: spec_fn(int) -> int, g: spec_fn(int) -> int, n: nat)
    requires
        forall|i: int| 0 <= i < n ==> #[trigger] f(i) == g(i),
    ensures
        sum(f, n) == sum(g, n),
    decreases n,
{
    if n > 0 {
        lemma_sum_ext(f, g, (n - 1) as nat);
    }
}

/// `Σ (c·f(i) + d·g(i)) == c·Σ f(i) + d·Σ g(i)`.
pub proof fn lemma_sum_linear(
    f: spec_fn(int) -> int,
    g: spec_fn(int) -> int,
    h: spec_fn(int) -> int,
    c: int,
    d: int,
    n: nat,
)
    requires
        forall|i: int| 0 <= i < n ==> #[trigger] h(i) == c * f(i) + d * g(i),
    ensures
        sum(h, n) == c * sum(f, n) + d * sum(g, n),
    decreases n,
{
    if n > 0 {
        let m = (n - 1) as nat;
        lemma_sum_linear(f, g, h, c, d, m);
        let (sf, sg, fm, gm) = (sum(f, m), sum(g, m), f(m as int), g(m as int));
        assert(c * sf + d * sg + (c * fm + d * gm) == c * (sf + fm) + d * (sg + gm))
            by (nonlinear_arith);
    }
}

/// Sums that agree term by term modulo `group_order()` agree modulo it.
pub proof fn lemma_sum_mod(f: spec_fn(int) -> int, g: spec_fn(int) -> int, n: nat)
    requires
        forall|i: int| 0 <= i < n ==> #[trigger] f(i) % group_order() == g(i) % group_order(),
    ensures
        sum(f, n) % group_order() == sum(g, n) % group_order(),
    decreases n,
{
    if n > 0 {
        let m = (n - 1) as nat;
        let r = group_order();
        lemma_sum_mod(f, g, m);
        lemma_add_mod_noop(sum(f, m), f(m as int), r);
        lemma_add_mod_noop(sum(g, m), g(m as int), r);
    }
}

/// A sum over `2m` terms, taken pair by pair.
pub proof fn lemma_sum_pairs(f: spec_fn(int) -> int, m: nat)
    ensures
        sum(f, 2 * m) == sum(|i: int| f(2 * i) + f(2 * i + 1), m),
    decreases m,
{
    if m > 0 {
        let k = (m - 1) as nat;
        lemma_sum_pairs(f, k);
        assert(sum(f, 2 * m) == sum(f, (2 * m - 1) as nat) + f(2 * m as int - 1));
        assert(sum(f, (2 * m - 1) as nat) == sum(f, 2 * k) + f(2 * k as int));
    }
}

/// The inner product of the first `i + 1` entries.
pub proof fn lemma_inner_step(a: Seq<int>, b: Seq<int>, i: int)
    requires
        0 <= i < a.len(),
        a.len() <= b.len(),
    ensures
        inner(a.take(i + 1), b) == inner(a.take(i), b) + a[i] * b[i],
{
    let f1 = |j: int| a.take(i + 1)[j] * b[j];
    let f0 = |j: int| a.take(i)[j] * b[j];
    lemma_sum_ext(f1, f0, i as nat);
}

/// A zero entry appended to one vector and anything to the other leaves the
/// inner product unchanged.
pub proof fn lemma_inner_push_zero(a: Seq<int>, b: Seq<int>, z: int)
    requires
        a.len() == b.len(),
    ensures
        inner(a.push(0), b.push(z)) == inner(a, b),
{
    let f1 = |j: int| a.push(0)[j] * b.push(z)[j];
    let f0 = |j: int| a[j] * b[j];
    lemma_sum_ext(f1, f0, a.len());
}

/// `inner(a, b) == inner(evens(a), evens(b)) + inner(odds(a), odds(b))` for even lengths.
pub proof fn lemma_inner_split(a: Seq<int>, b: Seq<int>)
    requires
        a.len() == b.len(),
        a.len() % 2 == 0,
    ensures
        inner(a, b) == inner(evens(a), evens(b)) + inner(odds(a), odds(b)),
{
    let m = (a.len() / 2) as nat;
    let f = |i: int| a[i] * b[i];
    lemma_sum_pairs(f, m);
    assert(2 * m == a.len());
    let fe = |i: int| evens(a)[i] * evens(b)[i];
    let fo = |i: int| odds(a)[i] * odds(b)[i];
    let fp = |i: int| f(2 * i) + f(2 * i + 1);
    lemma_sum_linear(fe, fo, fp, 1, 1, m);
}

/// The inner product of two folded vectors, expanded over the halves of the
/// unfolded ones, modulo `group_order()`.
pub proof fn lemma_inner_fold(a: Seq<int>, g: Seq<int>, x: int, y: int, x2: int, y2: int)
    requires
        a.len() == g.len(),
        a.len() % 2 == 0,
    ensures
        inner(fold(a, x, y), fold(g, x2, y2)) % group_order() == (x * x2 * inner(evens(a), evens(g))
            + x * y2 * inner(evens(a), odds(g)) + y * x2 * inner(odds(a), evens(g)) + y * y2
            * inner(odds(a), odds(g))) % group_order(),
{
    let r = group_order();
    let m = (a.len() / 2) as nat;
    let fa = fold(a, x, y);
    let fg = fold(g, x2, y2);
    let ee = |i: int| evens(a)[i] * evens(g)[i];
    let eo = |i: int| evens(a)[i] * odds(g)[i];
    let oe = |i: int| odds(a)[i] * evens(g)[i];
    let oo = |i: int| odds(a)[i] * odds(g)[i];
    let t1 = |i: int| x * x2 * ee(i) + x * y2 * eo(i);
    let t2 = |i: int| y * x2 * oe(i) + y * y2 * oo(i);
    let t = |i: int| 1 * t1(i) + 1 * t2(i);
    let f = |i: int| fa[i] * fg[i];
    assert forall|i: int| 0 <= i < m implies #[trigger] f(i) % r == t(i) % r by {
        let (a0, a1, g0, g1) = (a[2 * i], a[2 * i + 1], g[2 * i], g[2 * i + 1]);
        lemma_mul_mod_noop_general(a0 * x + a1 * y, g0 * x2 + g1 * y2, r);
        lemma_expand_pair(a0, a1, g0, g1, x, y, x2, y2);
    }
    lemma_sum_mod(f, t, m);
    lemma_sum_linear(t1, t2, t, 1, 1, m);
    lemma_sum_linear(ee, eo, t1, x * x2, x * y2, m);
    lemma_sum_linear(oe, oo, t2, y * x2, y * y2, m);
}

proof fn lemma_expand_pair(a0: int, a1: int, g0: int, g1: int, x: int, y: int, x2: int, y2: int)
    ensures
        (a0 * x + a1 * y) * (g0 * x2 + g1 * y2) == x * x2 * (a0 * g0) + x * y2 * (a0 * g1) + (y
            * x2 * (a1 * g0) + y * y2 * (a1 * g1)),
{
    let (p, q, s, t) = (a0 * x, a1 * y, g0 * x2, g1 * y2);
    assert((p + q) * (s + t) == p * s + p * t + (q * s + q * t)) by (nonlinear_arith);
    assert(p * s == x * x2 * (a0 * g0)) by (nonlinear_arith)
        requires p == a0 * x, s == g0 * x2;
    assert(p * t == x * y2 * (a0 * g1)) by (nonlinear_arith)
        requires p == a0 * x, t == g1 * y2;
    assert(q * s == y * x2 * (a1 * g0)) by (nonlinear_arith)
        requires q == a1 * y, s == g0 * x2;
    assert(q * t == y * y2 * (a1 * g1)) by (nonlinear_arith)
        requires q == a1 * y, t == g1 * y2;
}

/// The inverse is unique: any `v` in range with `u·v ≡ 1` is `inv(u)`.
pub proof fn lemma_inv_unique(u: int, v: int)
    requires
        0 <= v < group_order(),
        (u * v) % group_order() == 1,
    ensures
        inv(u) == v,
        is_unit(u),
{
    let r = group_order();
    let w = inv(u);
    assert(0 <= w < r && (u * w) % r == 1);
    // w ≡ w·(u·v) ≡ (w·u)·v ≡ v
    lemma_mul_mod_noop_general(w, u * v, r);
    lemma_mul_mod_noop_general(w * u, v, r);
    assert(w * (u * v) == (w * u) * v) by (nonlinear_arith);
    assert((u * w) == (w * u)) by (nonlinear_arith);
    lemma_small_mod(w as nat, r as nat);
    lemma_small_mod(v as nat, r as nat);
    lemma_small_mod(1, r as nat);
    lemma_mod_bound(w, r);
    assert((w * 1) % r == w % r);
    assert((1 * v) % r == v % r);
    assert((u * v) % r == 1);
}

/// A unit has its inverse in range, and `u·inv(u) ≡ 1`.
pub proof fn lemma_inv(u: int)
    requires
        is_unit(u),
    ensures
        0 <= inv(u) < group_order(),
        (u * inv(u)) % group_order() == 1,
{
    let r = group_order();
    let v = choose|v: int| #[trigger] ((u * v) % r) == 1;
    lemma_mul_mod_noop_general(u, v, r);
    lemma_mod_bound(v, r);
    assert((u * (v % r)) % r == 1) by {
        vstd::arithmetic::div_mod::lemma_mul_mod_noop_right(u, v, r);
    }
}

/// Congruence modulo `group_order()`.
pub open spec fn eqm(x: int, y: int) -> bool {
    x % group_order() == y % group_order()
}

pub proof fn lemma_eqm_mul(x: int, y: int, k: int)
    requires
        eqm(x, y),
    ensures
        eqm(x * k, y * k),
        eqm(k * x, k * y),
{
    let m = group_order();
    vstd::arithmetic::div_mod::lemma_mul_mod_noop_left(x, k, m);
    vstd::arithmetic::div_mod::lemma_mul_mod_noop_left(y, k, m);
    assert(k * x == x * k && k * y == y * k) by (nonlinear_arith);
}

pub proof fn lemma_eqm_add(x1: int, y1: int, x2: int, y2: int)
    requires
        eqm(x1, y1),
        eqm(x2, y2),
    ensures
        eqm(x1 + x2, y1 + y2),
{
    let m = group_order();
    lemma_add_mod_noop(x1, x2, m);
    lemma_add_mod_noop(y1, y2, m);
}

pub proof fn lemma_eqm_mod(x: int)
    ensures
        eqm(x % group_order(), x),
{
    lemma_mod_mod_eq(x, group_order());
}

/// `inner(pad(a), pad(g)) == inner(a, g)` for vectors of equal length.
pub proof fn lemma_inner_pad(a: Seq<int>, g: Seq<int>)
    requires
        a.len() == g.len(),
    ensures
        inner(pad(a), pad(g)) == inner(a, g),
{
    if a.len() % 2 == 1 {
        lemma_inner_push_zero(a, g, 0);
    }
}

/// Folding with `(x, y)` and `(y', x')` where `x·y' ≡ 1`, `y·x' ≡ 1`: the inner
/// product of the folded vectors is the unfolded one plus the cross terms
/// weighted by `x·x'` and `y·y'`.
pub proof fn lemma_fold_cross(a: Seq<int>, g: Seq<int>, x: int, y: int, x2: int, y2: int)
    requires
        a.len() == g.len(),
        a.len() % 2 == 0,
        eqm(x * y2, 1),
        eqm(y * x2, 1),
    ensures
        eqm(
            inner(fold(a, x, y), fold(g, y2, x2)),
            inner(a, g) + x * x2 * inner(evens(a), odds(g)) + y * y2 * inner(odds(a), evens(g)),
        ),
{
    let (ee, eo, oe, oo) = (
        inner(evens(a), evens(g)),
        inner(evens(a), odds(g)),
        inner(odds(a), evens(g)),
        inner(odds(a), odds(g)),
    );
    lemma_inner_fold(a, g, x, y, y2, x2);
    lemma_inner_split(a, g);
    lemma_eqm_mul(x * y2, 1, ee);
    lemma_eqm_mul(y * x2, 1, oo);
    lemma_eqm_add(x * y2 * ee, ee, x * x2 * eo, x * x2 * eo);
    lemma_eqm_add(x * y2 * ee + x * x2 * eo, ee + x * x2 * eo, y * y2 * oe, y * y2 * oe);
    lemma_eqm_add(
        x * y2 * ee + x * x2 * eo + y * y2 * oe,
        ee + x * x2 * eo + y * y2 * oe,
        y * x2 * oo,
        oo,
    );
    assert(ee + x * x2 * eo + y * y2 * oe + oo == ee + oo + x * x2 * eo + y * y2 * oe);
}

/// Each entry multiplied by `q`, modulo `group_order()`.
pub open spec fn scaled(y: Seq<int>, q: int) -> Seq<int> {
    Seq::new(y.len(), |i: int| (y[i] * q) % group_order())
}

/// `⟨x, y·q⟩ ≡ q·⟨x, y⟩`.
pub proof fn lemma_inner_scaled(x: Seq<int>, y: Seq<int>, q: int)
    requires
        x.len() <= y.len(),
    ensures
        eqm(inner(x, scaled(y, q)), q * inner(x, y)),
{
    let n = x.len();
    let f = |i: int| x[i] * scaled(y, q)[i];
    let g = |i: int| x[i] * y[i];
    let h = |i: int| q * g(i) + 0 * g(i);
    assert forall|i: int| 0 <= i < n implies #[trigger] f(i) % group_order() == h(i)
        % group_order() by {
        vstd::arithmetic::div_mod::lemma_mul_mod_noop_right(x[i], y[i] * q, group_order());
        assert(x[i] * (y[i] * q) == q * (x[i] * y[i]) + 0 * (x[i] * y[i])) by (nonlinear_arith);
    }
    lemma_sum_mod(f, h, n);
    lemma_sum_linear(g, g, h, q, 0, n);
}

/// Congruent terms, combined linearly with the same weights, stay congruent.
pub proof fn lemma_eqm_lin3(
    x1: int,
    y1: int,
    x2: int,
    y2: int,
    x3: int,
    y3: int,
    k1: int,
    k2: int,
    k3: int,
)
    requires
        eqm(x1, y1),
        eqm(x2, y2),
        eqm(x3, y3),
    ensures
        eqm(k1 * x1 + k2 * x2 + k3 * x3, k1 * y1 + k2 * y2 + k3 * y3),
{
    lemma_eqm_mul(x1, y1, k1);
    lemma_eqm_mul(x2, y2, k2);
    lemma_eqm_mul(x3, y3, k3);
    lemma_eqm_add(k1 * x1, k1 * y1, k2 * x2, k2 * y2);
    lemma_eqm_add(k1 * x1 + k2 * x2, k1 * y1 + k2 * y2, k3 * x3, k3 * y3);
}

/// The entry-wise sum of two vectors, modulo `group_order()`.
pub open spec fn add_vec(a: Seq<int>, b: Seq<int>) -> Seq<int> {
    Seq::new(a.len(), |i: int| (a[i] + b[i]) % group_order())
}

/// `⟨a + b, g⟩ ≡ ⟨a, g⟩ + ⟨b, g⟩`.
pub proof fn lemma_inner_add(a: Seq<int>, b: Seq<int>, g: Seq<int>)
    requires
        a.len() == b.len(),
        a.len() <= g.len(),
    ensures
        eqm(inner(add_vec(a, b), g), inner(a, g) + inner(b, g)),
{
    let n = a.len();
    let f = |i: int| add_vec(a, b)[i] * g[i];
    let fa = |i: int| a[i] * g[i];
    let fb = |i: int| b[i] * g[i];
    let h = |i: int| 1 * fa(i) + 1 * fb(i);
    assert forall|i: int| 0 <= i < n implies #[trigger] f(i) % group_order() == h(i)
        % group_order() by {
        vstd::arithmetic::div_mod::lemma_mul_mod_noop_left(a[i] + b[i], g[i], group_order());
        assert((a[i] + b[i]) * g[i] == 1 * (a[i] * g[i]) + 1 * (b[i] * g[i])) by (nonlinear_arith);
    }
    lemma_sum_mod(f, h, n);
    lemma_sum_linear(fa, fb, h, 1, 1, n);
}

/// The vector `a + s·u`, modulo `group_order()`.
pub open spec fn lin_vec(a: Seq<int>, s: Seq<int>, u: int) -> Seq<int> {
    Seq::new(a.len(), |i: int| (a[i] + s[i] * u) % group_order())
}

/// `⟨a + s·u, g⟩ ≡ ⟨a, g⟩ + u·⟨s, g⟩`.
pub proof fn lemma_inner_lin(a: Seq<int>, s: Seq<int>, g: Seq<int>, u: int)
    requires
        a.len() == s.len(),
        a.len() <= g.len(),
    ensures
        eqm(inner(lin_vec(a, s, u), g), inner(a, g) + u * inner(s, g)),
{
    let n = a.len();
    let f = |i: int| lin_vec(a, s, u)[i] * g[i];
    let fa = |i: int| a[i] * g[i];
    let fs = |i: int| s[i] * g[i];
    let h = |i: int| 1 * fa(i) + u * fs(i);
    assert forall|i: int| 0 <= i < n implies #[trigger] f(i) % group_order() == h(i)
        % group_order() by {
        vstd::arithmetic::div_mod::lemma_mul_mod_noop_left(a[i] + s[i] * u, g[i], group_order());
        assert((a[i] + s[i] * u) * g[i] == 1 * (a[i] * g[i]) + u * (s[i] * g[i]))
            by (nonlinear_arith);
    }
    lemma_sum_mod(f, h, n);
    lemma_sum_linear(fa, fs, h, 1, u, n);
}

/// `⟨a, b⟩ == ⟨b, a⟩`.
pub proof fn lemma_inner_commutes(a: Seq<int>, b: Seq<int>)
    requires
        a.len() == b.len(),
    ensures
        inner(a, b) == inner(b, a),
{
    assert forall|i: int| 0 <= i < a.len() implies #[trigger] (a[i] * b[i]) == b[i] * a[i] by {
        assert(a[i] * b[i] == b[i] * a[i]) by (nonlinear_arith);
    }
    lemma_sum_ext(|i: int| a[i] * b[i], |i: int| b[i] * a[i], a.len());
}

/// `⟨a + s·u, b + t·u⟩ ≡ ⟨a, b⟩ + u·(⟨a, t⟩ + ⟨s, b⟩) + u²·⟨s, t⟩`.
pub proof fn lemma_inner_lin2(a: Seq<int>, s: Seq<int>, b: Seq<int>, t: Seq<int>, u: int)
    requires
        a.len() == s.len(),
        a.len() == b.len(),
        a.len() == t.len(),
    ensures
        eqm(
            inner(lin_vec(a, s, u), lin_vec(b, t, u)),
            inner(a, b) + u * (inner(a, t) + inner(s, b)) + u * u * inner(s, t),
        ),
{
    let n = a.len();
    let m = group_order();
    let f = |i: int| lin_vec(a, s, u)[i] * lin_vec(b, t, u)[i];
    let fab = |i: int| a[i] * b[i];
    let fat = |i: int| a[i] * t[i];
    let fsb = |i: int| s[i] * b[i];
    let fst = |i: int| s[i] * t[i];
    let h1 = |i: int| 1 * fab(i) + u * fat(i);
    let h2 = |i: int| u * fsb(i) + (u * u) * fst(i);
    let h = |i: int| 1 * h1(i) + 1 * h2(i);
    assert forall|i: int| 0 <= i < n implies #[trigger] f(i) % m == h(i) % m by {
        vstd::arithmetic::div_mod::lemma_mul_mod_noop_general(a[i] + s[i] * u, b[i] + t[i] * u, m);
        lemma_bilinear_term(a[i], s[i], b[i], t[i], u);
    }
    lemma_sum_mod(f, h, n);
    lemma_sum_linear(h1, h2, h, 1, 1, n);
    lemma_sum_linear(fab, fat, h1, 1, u, n);
    lemma_sum_linear(fsb, fst, h2, u, u * u, n);
    assert(1 * (1 * inner(a, b) + u * inner(a, t)) + 1 * (u * inner(s, b) + (u * u) * inner(s, t))
        == inner(a, b) + u * (inner(a, t) + inner(s, b)) + u * u * inner(s, t))
        by (nonlinear_arith);
}

proof fn lemma_bilinear_term(a: int, s: int, b: int, t: int, u: int)
    ensures
        (a + s * u) * (b + t * u) == 1 * (1 * (a * b) + u * (a * t)) + 1 * (u * (s * b) + (u * u) * (s
            * t)),
{
    assert((a + s * u) * (b + t * u) == a * b + a * (t * u) + (s * u) * b + (s * u) * (t * u))
        by (nonlinear_arith);
    assert(a * (t * u) == u * (a * t)) by (nonlinear_arith);
    assert((s * u) * b == u * (s * b)) by (nonlinear_arith);
    assert((s * u) * (t * u) == (u * u) * (s * t)) by (nonlinear_arith);
}

/// `2^k`.
pub open spec fn two_to(k: nat) -> nat
    decreases k,
{
    if k == 0 {
        1
    } else {
        2 * two_to((k - 1) as nat)
    }
}

pub proof fn lemma_two_to_pos(k: nat)
    ensures
        two_to(k) >= 1,
    decreases k,
{
    if k > 0 {
        lemma_two_to_pos((k - 1) as nat);
    }
}

} // verus!
