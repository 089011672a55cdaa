//! Polynomials over the scalar field, as sequences of coefficients with the constant first.
use super::congruence::{eqm, lemma_eqm_add, lemma_eqm_mul, lemma_eqm_pow, lemma_eqm_sub};
use super::fourier::{dft, lemma_dft_injective, lemma_dft_padded, padded};
use super::roots::{is_domain_size, lemma_root_periodic, unity_root};
use super::sums::{
    lemma_sum_add, lemma_sum_eq, lemma_sum_eqm, lemma_sum_scale, lemma_sum_single, lemma_sum_split,
    lemma_sum_sub, lemma_sum_trailing_zeros, lemma_sum_zero, sum,
};
use vstd::arithmetic::power::{lemma_pow0, lemma_pow1, lemma_pow_adds, lemma_pow_multiplies, pow};
use vstd::prelude::*;

verus! {

/// The coefficient of the `k`-th power.
pub open spec fn coeff(p: Seq<int>, k: int) -> int {
    if 0 <= k < p.len() {
        p[k]
    } else {
        0
    }
}

/// `p` and `q` are the same polynomial.
pub open spec fn same_poly(p: Seq<int>, q: Seq<int>) -> bool {
    forall|k: int| eqm(#[trigger] coeff(p, k), coeff(q, k))
}

/// The value of the polynomial at `x`.
pub open spec fn eval(p: Seq<int>, x: int) -> int {
    sum(p.len() as int, |j: int| p[j] * pow(x, j as nat))
}

/// The highest coefficient is not zero.
pub open spec fn is_trimmed(p: Seq<int>) -> bool {
    p.len() == 0 || !eqm(p.last(), 0)
}

pub open spec fn poly_add(p: Seq<int>, q: Seq<int>) -> Seq<int> {
    Seq::new(
        if p.len() >= q.len() {
            p.len()
        } else {
            q.len()
        },
        |k: int| coeff(p, k) + coeff(q, k),
    )
}

pub open spec fn poly_sub(p: Seq<int>, q: Seq<int>) -> Seq<int> {
    Seq::new(
        if p.len() >= q.len() {
            p.len()
        } else {
            q.len()
        },
        |k: int| coeff(p, k) - coeff(q, k),
    )
}

pub open spec fn poly_scale(p: Seq<int>, c: int) -> Seq<int> {
    Seq::new(p.len(), |k: int| p[k] * c)
}

/// The `k`-th coefficient of the product of two polynomials.
pub open spec fn product_coeff(p: Seq<int>, q: Seq<int>, k: int) -> int {
    sum(p.len() as int, |i: int| p[i] * coeff(q, k - i))
}

pub open spec fn poly_mul(p: Seq<int>, q: Seq<int>) -> Seq<int> {
    Seq::new(p.len() + q.len(), |k: int| product_coeff(p, q, k))
}

/// The polynomial `p(s X)`.
pub open spec fn poly_shift(p: Seq<int>, s: int) -> Seq<int> {
    Seq::new(p.len(), |k: int| p[k] * pow(s, k as nat))
}

/// The polynomial `X - c`.
pub open spec fn linear(c: int) -> Seq<int> {
    seq![-c, 1]
}

/// The polynomial `X^n - 1`, which vanishes on the domain of size `n`.
pub open spec fn vanishing(n: int) -> Seq<int> {
    Seq::new(
        (n + 1) as nat,
        |k: int|
            if k == 0 {
                -1
            } else if k == n {
                1
            } else {
                0
            },
    )
}

/// `q` is the quotient of the division of `a` by `b`: what is left has fewer coefficients than
/// `b`.
pub open spec fn is_quotient(q: Seq<int>, a: Seq<int>, b: Seq<int>) -> bool {
    exists|r: Seq<int>| #[trigger] is_division(q, a, b, r)
}

pub open spec fn is_division(q: Seq<int>, a: Seq<int>, b: Seq<int>, r: Seq<int>) -> bool {
    r.len() < b.len() && same_poly(a, poly_add(poly_mul(q, b), r))
}

/// The linear combination of `points` with the coefficients of the polynomial.
pub open spec fn commitment(p: Seq<int>, points: Seq<int>) -> int {
    sum(p.len() as int, |j: int| p[j] * points[j])
}

/// A value can be computed with any number of terms that covers the coefficients.
pub proof fn lemma_eval_terms(p: Seq<int>, x: int, n: int)
    requires
        n >= p.len(),
    ensures
        eval(p, x) == sum(n, |j: int| coeff(p, j) * pow(x, j as nat)),
{
    let f = |j: int| coeff(p, j) * pow(x, j as nat);
    let g = |j: int| p[j] * pow(x, j as nat);
    lemma_sum_eq(p.len() as int, g, f);
    assert forall|j: int| p.len() <= j < n implies #[trigger] f(j) == 0 by {
        assert(0 * pow(x, j as nat) == 0);
    }
    lemma_sum_trailing_zeros(p.len() as int, n, f);
}

spec fn longer(p: Seq<int>, q: Seq<int>) -> int {
    if p.len() >= q.len() {
        p.len() as int
    } else {
        q.len() as int
    }
}

/// The same polynomial has the same values.
pub proof fn lemma_eval_same(p: Seq<int>, q: Seq<int>, x: int)
    requires
        same_poly(p, q),
    ensures
        eqm(eval(p, x), eval(q, x)),
{
    let n = longer(p, q);
    lemma_eval_terms(p, x, n);
    lemma_eval_terms(q, x, n);
    let f = |j: int| coeff(p, j) * pow(x, j as nat);
    let g = |j: int| coeff(q, j) * pow(x, j as nat);
    assert forall|j: int| 0 <= j < n implies eqm(#[trigger] f(j), g(j)) by {
        lemma_eqm_mul(coeff(p, j), coeff(q, j), pow(x, j as nat), pow(x, j as nat));
    }
    lemma_sum_eqm(n, f, g);
}

/// Congruent points have congruent values.
pub proof fn lemma_eval_point(p: Seq<int>, x: int, y: int)
    requires
        eqm(x, y),
    ensures
        eqm(eval(p, x), eval(p, y)),
{
    let f = |j: int| p[j] * pow(x, j as nat);
    let g = |j: int| p[j] * pow(y, j as nat);
    assert forall|j: int| 0 <= j < p.len() implies eqm(#[trigger] f(j), g(j)) by {
        lemma_eqm_pow(x, y, j as nat);
        lemma_eqm_mul(p[j], p[j], pow(x, j as nat), pow(y, j as nat));
    }
    lemma_sum_eqm(p.len() as int, f, g);
}

pub proof fn lemma_eval_add(p: Seq<int>, q: Seq<int>, x: int)
    ensures
        eval(poly_add(p, q), x) == eval(p, x) + eval(q, x),
{
    let n = longer(p, q);
    lemma_eval_terms(p, x, n);
    lemma_eval_terms(q, x, n);
    let f = |j: int| coeff(p, j) * pow(x, j as nat);
    let g = |j: int| coeff(q, j) * pow(x, j as nat);
    let h = |j: int| poly_add(p, q)[j] * pow(x, j as nat);
    let fg = |j: int| f(j) + g(j);
    lemma_sum_add(n, f, g);
    assert forall|j: int| 0 <= j < n implies #[trigger] h(j) == fg(j) by {
        let (a, b, t) = (coeff(p, j), coeff(q, j), pow(x, j as nat));
        assert((a + b) * t == a * t + b * t) by (nonlinear_arith);
    }
    lemma_sum_eq(n, h, fg);
}

pub proof fn lemma_eval_sub(p: Seq<int>, q: Seq<int>, x: int)
    ensures
        eval(poly_sub(p, q), x) == eval(p, x) - eval(q, x),
{
    let n = longer(p, q);
    lemma_eval_terms(p, x, n);
    lemma_eval_terms(q, x, n);
    let f = |j: int| coeff(p, j) * pow(x, j as nat);
    let g = |j: int| coeff(q, j) * pow(x, j as nat);
    let h = |j: int| poly_sub(p, q)[j] * pow(x, j as nat);
    let fg = |j: int| f(j) - g(j);
    lemma_sum_sub(n, f, g);
    assert forall|j: int| 0 <= j < n implies #[trigger] h(j) == fg(j) by {
        let (a, b, t) = (coeff(p, j), coeff(q, j), pow(x, j as nat));
        assert((a - b) * t == a * t - b * t) by (nonlinear_arith);
    }
    lemma_sum_eq(n, h, fg);
}

pub proof fn lemma_eval_scale(p: Seq<int>, c: int, x: int)
    ensures
        eval(poly_scale(p, c), x) == eval(p, x) * c,
{
    let n = p.len() as int;
    let f = |j: int| p[j] * pow(x, j as nat);
    let g = |j: int| poly_scale(p, c)[j] * pow(x, j as nat);
    let h = |j: int| c * f(j);
    assert forall|j: int| 0 <= j < n implies #[trigger] g(j) == h(j) by {
        let (a, t) = (p[j], pow(x, j as nat));
        assert((a * c) * t == c * (a * t)) by (nonlinear_arith);
    }
    lemma_sum_eq(n, g, h);
    lemma_sum_scale(n, c, f);
    assert(c * eval(p, x) == eval(p, x) * c) by (nonlinear_arith);
}

/// The products of the coefficients, summed up with `n` powers, are the product of the values.
proof fn lemma_product_terms(p: Seq<int>, q: Seq<int>, x: int, n: int)
    requires
        n >= p.len() + q.len(),
    ensures
        sum(n, |k: int| product_coeff(p, q, k) * pow(x, k as nat)) == eval(p, x) * eval(q, x),
    decreases p.len(),
{
    let f = |k: int| product_coeff(p, q, k) * pow(x, k as nat);
    if p.len() == 0 {
        assert forall|k: int| 0 <= k < n implies #[trigger] f(k) == 0 by {
            assert(0 * pow(x, k as nat) == 0);
        }
        lemma_sum_zero(n, f);
        assert(0 * eval(q, x) == 0);
    } else {
        let m = p.len() - 1;
        let head = p.drop_last();
        let c = p[m];
        lemma_product_terms(head, q, x, n);
        let g = |k: int| product_coeff(head, q, k) * pow(x, k as nat);
        let h = |k: int| (c * coeff(q, k - m)) * pow(x, k as nat);
        let gh = |k: int| g(k) + h(k);
        assert forall|k: int| 0 <= k < n implies #[trigger] f(k) == gh(k) by {
            let a = |i: int| p[i] * coeff(q, k - i);
            let b = |i: int| head[i] * coeff(q, k - i);
            assert(sum(m + 1, a) == sum(m, a) + a(m));
            lemma_sum_eq(m, a, b);
            let (u, v, t) = (sum(m, b), c * coeff(q, k - m), pow(x, k as nat));
            assert((u + v) * t == u * t + v * t) by (nonlinear_arith);
        }
        lemma_sum_eq(n, f, gh);
        lemma_sum_add(n, g, h);
        // The part that the last coefficient contributes starts at its own power.
        lemma_sum_split(m, n - m, h);
        assert forall|k: int| 0 <= k < m implies #[trigger] h(k) == 0 by {
            assert(c * 0 == 0);
            assert(0 * pow(x, k as nat) == 0);
        }
        lemma_sum_zero(m, h);
        let cx = c * pow(x, m as nat);
        let e = |i: int| coeff(q, i) * pow(x, i as nat);
        let tail = |i: int| h(m + i);
        let scaled = |i: int| cx * e(i);
        assert forall|i: int| 0 <= i < n - m implies #[trigger] tail(i) == scaled(i) by {
            lemma_pow_adds(x, m as nat, i as nat);
            assert((m + i) as nat == m as nat + i as nat);
            let (b, s, t) = (coeff(q, i), pow(x, m as nat), pow(x, i as nat));
            assert((c * b) * (s * t) == (c * s) * (b * t)) by (nonlinear_arith);
        }
        lemma_sum_eq(n - m, tail, scaled);
        lemma_sum_scale(n - m, cx, e);
        lemma_eval_terms(q, x, n - m);
        assert(eval(p, x) == eval(head, x) + cx) by {
            let a = |j: int| p[j] * pow(x, j as nat);
            let b = |j: int| head[j] * pow(x, j as nat);
            assert(sum(m + 1, a) == sum(m, a) + a(m));
            lemma_sum_eq(m, a, b);
        }
        let (u, v, w) = (eval(head, x), cx, eval(q, x));
        assert((u + v) * w == u * w + v * w) by (nonlinear_arith);
    }
}

pub proof fn lemma_eval_mul(p: Seq<int>, q: Seq<int>, x: int)
    ensures
        eval(poly_mul(p, q), x) == eval(p, x) * eval(q, x),
{
    let n = (p.len() + q.len()) as int;
    lemma_product_terms(p, q, x, n);
    let f = |k: int| product_coeff(p, q, k) * pow(x, k as nat);
    let g = |k: int| poly_mul(p, q)[k] * pow(x, k as nat);
    lemma_sum_eq(n, g, f);
}

pub proof fn lemma_eval_shift(p: Seq<int>, s: int, x: int)
    ensures
        eval(poly_shift(p, s), x) == eval(p, s * x),
{
    let f = |k: int| poly_shift(p, s)[k] * pow(x, k as nat);
    let g = |k: int| p[k] * pow(s * x, k as nat);
    assert forall|k: int| 0 <= k < p.len() implies #[trigger] f(k) == g(k) by {
        vstd::arithmetic::power::lemma_pow_distributes(s, x, k as nat);
        let (a, u, v) = (p[k], pow(s, k as nat), pow(x, k as nat));
        assert((a * u) * v == a * (u * v)) by (nonlinear_arith);
    }
    lemma_sum_eq(p.len() as int, f, g);
}

pub proof fn lemma_eval_linear(c: int, x: int)
    ensures
        eval(linear(c), x) == x - c,
{
    let f = |j: int| linear(c)[j] * pow(x, j as nat);
    lemma_pow0(x);
    lemma_pow1(x);
    assert(linear(c).len() == 2);
    assert(f(0) == -c * pow(x, 0) && f(1) == 1 * pow(x, 1));
    assert(-c * 1 == -c);
    assert(sum(2, f) == sum(1, f) + f(1));
    assert(sum(1, f) == sum(0, f) + f(0));
}

pub proof fn lemma_eval_constant(c: int, x: int)
    ensures
        eval(seq![c], x) == c,
{
    let p = seq![c];
    let f = |j: int| p[j] * pow(x, j as nat);
    lemma_pow0(x);
    assert(sum(1, f) == sum(0, f) + f(0));
}

pub proof fn lemma_eval_vanishing(n: int, x: int)
    requires
        n >= 1,
    ensures
        eval(vanishing(n), x) == pow(x, n as nat) - 1,
{
    let f = |j: int| vanishing(n)[j] * pow(x, j as nat);
    lemma_pow0(x);
    assert(sum(n + 1, f) == sum(n, f) + f(n));
    assert forall|j: int| 0 <= j < n && j != 0 implies #[trigger] f(j) == 0 by {
        assert(0 * pow(x, j as nat) == 0);
    }
    lemma_sum_single(n, 0, f);
}

/// Values at the powers of a root are the coefficients of the Fourier transform.
pub proof fn lemma_eval_at_root_power(p: Seq<int>, w: int, k: nat)
    ensures
        eval(p, pow(w, k)) == dft(p, w, k as int),
{
    let f = |j: int| p[j] * pow(pow(w, k), j as nat);
    let g = |j: int| p[j] * pow(w, (j * k) as nat);
    assert forall|j: int| 0 <= j < p.len() implies #[trigger] f(j) == g(j) by {
        lemma_pow_multiplies(w, k, j as nat);
        assert(k * (j as nat) == (j * k) as nat) by (nonlinear_arith)
            requires
                j >= 0,
        ;
    }
    lemma_sum_eq(p.len() as int, f, g);
}

/// A polynomial with at most `n` coefficients that vanishes on the domain of size `n` is zero.
pub proof fn lemma_zero_on_domain(r: Seq<int>, n: int)
    requires
        is_domain_size(n),
        r.len() <= n,
        forall|i: int| 0 <= i < n ==> eqm(#[trigger] eval(r, pow(unity_root(n), i as nat)), 0),
    ensures
        same_poly(r, Seq::<int>::empty()),
{
    let w = unity_root(n);
    let u = padded(r, n);
    let v = Seq::new(n as nat, |i: int| 0int);
    assert forall|k: int| 0 <= k < n implies eqm(#[trigger] dft(u, w, k), dft(v, w, k)) by {
        assert(eqm(eval(r, pow(w, k as nat)), 0));
        lemma_dft_padded(r, n, w, k);
        lemma_eval_at_root_power(r, w, k as nat);
        let g = |j: int| v[j] * pow(w, (j * k) as nat);
        assert forall|j: int| 0 <= j < n implies #[trigger] g(j) == 0 by {
            assert(0 * pow(w, (j * k) as nat) == 0);
        }
        lemma_sum_zero(n, g);
    }
    lemma_dft_injective(n, u, v);
    assert forall|k: int| eqm(#[trigger] coeff(r, k), coeff(Seq::<int>::empty(), k)) by {
        if 0 <= k < r.len() {
            assert(eqm(u[k], v[k]));
        }
    }
}

/// A polynomial that vanishes on the domain of size `n` is its quotient by `X^n - 1` times
/// `X^n - 1`.
pub proof fn lemma_quotient_exact(q: Seq<int>, a: Seq<int>, n: int, x: int)
    requires
        is_domain_size(n),
        is_quotient(q, a, vanishing(n)),
        forall|i: int| 0 <= i < n ==> eqm(#[trigger] eval(a, pow(unity_root(n), i as nat)), 0),
    ensures
        eqm(eval(a, x), eval(q, x) * (pow(x, n as nat) - 1)),
{
    let w = unity_root(n);
    let z = vanishing(n);
    let r = choose|r: Seq<int>| is_division(q, a, z, r);
    assert forall|i: int| 0 <= i < n implies eqm(#[trigger] eval(r, pow(w, i as nat)), 0) by {
        let y = pow(w, i as nat);
        assert(eqm(eval(a, y), 0));
        lemma_division_value(q, a, z, r, y);
        lemma_eval_vanishing(n, y);
        lemma_pow_multiplies(w, i as nat, n as nat);
        lemma_root_periodic(n, 0, i as nat);
        lemma_pow0(w);
        lemma_eqm_sub(pow(y, n as nat), 1, 1, 1);
        lemma_eqm_mul(eval(q, y), eval(q, y), eval(z, y), 0);
        assert(eval(q, y) * 0 == 0);
        lemma_eqm_add(eval(q, y) * eval(z, y), 0, eval(r, y), eval(r, y));
    }
    lemma_zero_on_domain(r, n);
    lemma_division_value(q, a, z, r, x);
    lemma_eval_vanishing(n, x);
    lemma_eval_same(r, Seq::<int>::empty(), x);
    assert(eval(Seq::<int>::empty(), x) == 0);
    lemma_eqm_add(eval(q, x) * eval(z, x), eval(q, x) * eval(z, x), eval(r, x), 0);
}

/// The values of dividend, quotient, divisor and remainder.
pub proof fn lemma_division_value(q: Seq<int>, a: Seq<int>, b: Seq<int>, r: Seq<int>, x: int)
    requires
        is_division(q, a, b, r),
    ensures
        eqm(eval(a, x), eval(q, x) * eval(b, x) + eval(r, x)),
{
    lemma_eval_same(a, poly_add(poly_mul(q, b), r), x);
    lemma_eval_add(poly_mul(q, b), r, x);
    lemma_eval_mul(q, b, x);
}

/// Dividing by `X - c` leaves the value at `c`.
pub proof fn lemma_linear_quotient(q: Seq<int>, a: Seq<int>, c: int, x: int)
    requires
        is_quotient(q, a, linear(c)),
    ensures
        eqm(eval(a, x) - eval(a, c), eval(q, x) * (x - c)),
{
    let b = linear(c);
    let r = choose|r: Seq<int>| is_division(q, a, b, r);
    lemma_division_value(q, a, b, r, x);
    lemma_division_value(q, a, b, r, c);
    lemma_eval_linear(c, x);
    lemma_eval_linear(c, c);
    assert(eval(q, c) * 0 == 0);
    assert(eval(r, x) == eval(r, c)) by {
        if r.len() == 1 {
            assert(r =~= seq![r[0]]);
            lemma_eval_constant(r[0], x);
            lemma_eval_constant(r[0], c);
        } else {
            assert(r =~= Seq::<int>::empty());
        }
    }
    lemma_eqm_sub(eval(a, x), eval(q, x) * (x - c) + eval(r, x), eval(a, c), eval(r, c));
}

/// The same polynomial has the same linear combination of points.
pub proof fn lemma_commitment_same(p: Seq<int>, q: Seq<int>, points: Seq<int>)
    requires
        same_poly(p, q),
    ensures
        eqm(commitment(p, points), commitment(q, points)),
{
    let n = longer(p, q);
    let f = |j: int| coeff(p, j) * points[j];
    let g = |j: int| coeff(q, j) * points[j];
    lemma_commitment_terms(p, points, n);
    lemma_commitment_terms(q, points, n);
    assert forall|j: int| 0 <= j < n implies eqm(#[trigger] f(j), g(j)) by {
        lemma_eqm_mul(coeff(p, j), coeff(q, j), points[j], points[j]);
    }
    lemma_sum_eqm(n, f, g);
}

proof fn lemma_commitment_terms(p: Seq<int>, points: Seq<int>, n: int)
    requires
        n >= p.len(),
    ensures
        commitment(p, points) == sum(n, |j: int| coeff(p, j) * points[j]),
{
    let f = |j: int| coeff(p, j) * points[j];
    let g = |j: int| p[j] * points[j];
    lemma_sum_eq(p.len() as int, g, f);
    assert forall|j: int| p.len() <= j < n implies #[trigger] f(j) == 0 by {
        assert(0 * points[j] == 0);
    }
    lemma_sum_trailing_zeros(p.len() as int, n, f);
}

/// With the powers of `t` times `a` as points, the linear combination is `a` times the value at
/// `t`.
pub proof fn lemma_commitment_value(p: Seq<int>, points: Seq<int>, a: int, t: int)
    requires
        forall|j: int| 0 <= j < p.len() ==> eqm(#[trigger] points[j], a * pow(t, j as nat)),
    ensures
        eqm(commitment(p, points), a * eval(p, t)),
{
    let n = p.len() as int;
    let f = |j: int| p[j] * points[j];
    let g = |j: int| p[j] * pow(t, j as nat);
    let h = |j: int| a * g(j);
    assert forall|j: int| 0 <= j < n implies eqm(#[trigger] f(j), h(j)) by {
        let s = pow(t, j as nat);
        assert(eqm(points[j], a * s));
        lemma_eqm_mul(p[j], p[j], points[j], a * s);
        let b = p[j];
        assert(b * (a * s) == a * (b * s)) by (nonlinear_arith);
    }
    lemma_sum_eqm(n, f, h);
    lemma_sum_scale(n, a, g);
}

} // verus!
