//! Quotients by linear factors and by `X^n - 1`, and the products of the Lagrange basis.
use super::congruence::{
    eqm, lemma_eqm_add, lemma_eqm_mul, lemma_eqm_pow, lemma_eqm_sub, lemma_unit_cancel,
    lemma_unit_eqm,
};
use super::lagrange::{
    indicator, lagrange, lemma_domain_values, lemma_lagrange_factor, lemma_lagrange_value,
    size_inverse,
};
use super::polynomial::{
    coeff, eval, is_division, is_quotient, lemma_eval_mul, lemma_eval_point, lemma_eval_same,
    lemma_eval_scale, lemma_eval_sub, lemma_eval_terms, lemma_eval_vanishing, linear, poly_add,
    poly_mul, poly_scale, poly_sub, product_coeff, same_poly, vanishing,
};
use super::roots::{
    is_domain_size, lemma_root_difference_is_unit, lemma_root_square_pow, unity_root,
};
use super::sums::{
    lemma_sum_add, lemma_sum_eq, lemma_sum_eqm, lemma_sum_first, lemma_sum_scale, lemma_sum_single,
    lemma_sum_swap, lemma_sum_trailing_zeros, lemma_sum_zero, sum,
};
use vstd::arithmetic::power::{lemma_pow0, lemma_pow1, lemma_pow_adds, lemma_pow_multiplies, pow};
use vstd::prelude::*;

verus! {

/// The coefficient of `X^m` in the quotient of `f` by `X - c`, for an `f` with at most `n`
/// coefficients.
pub open spec fn quotient_coeff(f: Seq<int>, c: int, n: int, m: int) -> int {
    sum(n, |e: int| coeff(f, m + 1 + e) * pow(c, e as nat))
}

/// The quotient of `f` by `X - c`, for an `f` with at most `n` coefficients.
pub open spec fn linear_quotient(f: Seq<int>, c: int, n: int) -> Seq<int> {
    Seq::new((n - 1) as nat, |m: int| quotient_coeff(f, c, n, m))
}

/// Horner's rule on the coefficients of the quotient.
proof fn lemma_quotient_coeff_step(f: Seq<int>, c: int, n: int, m: int)
    requires
        f.len() <= n,
        0 <= m,
        1 <= n,
    ensures
        quotient_coeff(f, c, n, m - 1) == coeff(f, m) + c * quotient_coeff(f, c, n, m),
{
    let g = |e: int| coeff(f, m + e) * pow(c, e as nat);
    let h = |e: int| coeff(f, m + 1 + e) * pow(c, e as nat);
    let g1 = |e: int| g(e + 1);
    let h1 = |e: int| c * h(e);
    assert(sum(n, g) == quotient_coeff(f, c, n, m - 1)) by {
        lemma_sum_eq(n, g, |e: int| coeff(f, (m - 1) + 1 + e) * pow(c, e as nat));
    }
    lemma_sum_first(n, g);
    lemma_pow0(c);
    assert(g(0) == coeff(f, m)) by {
        assert(coeff(f, m) * 1 == coeff(f, m));
    }
    assert forall|e: int| 0 <= e < n - 1 implies #[trigger] g1(e) == h1(e) by {
        lemma_pow_adds(c, 1, e as nat);
        lemma_pow1(c);
        let a = coeff(f, m + 1 + e);
        let p = pow(c, e as nat);
        assert(a * (c * p) == c * (a * p)) by (nonlinear_arith);
    }
    lemma_sum_eq(n - 1, g1, h1);
    assert(h1(n - 1) == 0) by {
        assert(h(n - 1) == 0 * pow(c, (n - 1) as nat));
        assert(c * 0 == 0);
    }
    assert(sum(n, h1) == sum(n - 1, h1) + h1(n - 1));
    lemma_sum_scale(n, c, h);
}

proof fn lemma_linear_quotient_partial(f: Seq<int>, c: int, n: int, x: int, k: int)
    requires
        f.len() <= n,
        0 <= k,
        1 <= n,
    ensures
        (x - c) * sum(k, |m: int| quotient_coeff(f, c, n, m) * pow(x, m as nat)) == quotient_coeff(
            f,
            c,
            n,
            k - 1,
        ) * pow(x, k as nat) - quotient_coeff(f, c, n, -1) + sum(
            k,
            |m: int| coeff(f, m) * pow(x, m as nat),
        ),
    decreases k,
{
    let g = |m: int| quotient_coeff(f, c, n, m) * pow(x, m as nat);
    let h = |m: int| coeff(f, m) * pow(x, m as nat);
    if k == 0 {
        lemma_pow0(x);
        assert((x - c) * 0 == 0);
    } else {
        lemma_linear_quotient_partial(f, c, n, x, k - 1);
        lemma_quotient_coeff_step(f, c, n, k - 1);
        let p = pow(x, (k - 1) as nat);
        lemma_pow_adds(x, 1, (k - 1) as nat);
        lemma_pow1(x);
        let q = quotient_coeff(f, c, n, k - 1);
        let a = coeff(f, k - 1);
        let s = sum(k - 1, g);
        let r = quotient_coeff(f, c, n, k - 2);
        assert((x - c) * (s + q * p) == (x - c) * s + q * (x * p) - (r * p - a * p))
            by (nonlinear_arith)
            requires
                r == a + c * q,
        ;
    }
}

/// The quotient of `f` by `X - c` is exact up to the value of `f` at `c`.
pub proof fn lemma_linear_quotient_value(f: Seq<int>, c: int, n: int, x: int)
    requires
        f.len() <= n,
        1 <= n,
    ensures
        (x - c) * eval(linear_quotient(f, c, n), x) == eval(f, x) - eval(f, c),
{
    let q = linear_quotient(f, c, n);
    let g = |m: int| quotient_coeff(f, c, n, m) * pow(x, m as nat);
    lemma_sum_eq(n - 1, |m: int| q[m] * pow(x, m as nat), g);
    lemma_linear_quotient_partial(f, c, n, x, n - 1);
    lemma_eval_terms(f, x, n);
    lemma_eval_terms(f, c, n);
    let h = |m: int| coeff(f, m) * pow(x, m as nat);
    let last = |e: int| coeff(f, n - 1 + e) * pow(c, e as nat);
    assert(quotient_coeff(f, c, n, n - 2) == coeff(f, n - 1)) by {
        lemma_sum_eq(n, last, |e: int| coeff(f, (n - 2) + 1 + e) * pow(c, e as nat));
        assert forall|e: int| 0 <= e < n && e != 0 implies #[trigger] last(e) == 0 by {
            assert(0 * pow(c, e as nat) == 0);
        }
        lemma_sum_single(n, 0, last);
        lemma_pow0(c);
        assert(coeff(f, n - 1) * 1 == coeff(f, n - 1));
    }
    assert(sum(n, h) == sum(n - 1, h) + h(n - 1));
    assert(quotient_coeff(f, c, n, -1) == eval(f, c)) by {
        lemma_sum_eq(
            n,
            |e: int| coeff(f, -1 + 1 + e) * pow(c, e as nat),
            |e: int| coeff(f, e) * pow(c, e as nat),
        );
    }
}

/// The value of the quotient, with the roles of the two points exchanged.
pub proof fn lemma_linear_quotient_swap(f: Seq<int>, c: int, n: int, x: int)
    requires
        f.len() <= n,
        1 <= n,
    ensures
        eval(linear_quotient(f, c, n), x) == sum(
            n,
            |e: int| quotient_coeff(f, x, n, e) * pow(c, e as nat),
        ),
{
    let q = linear_quotient(f, c, n);
    let g = |m: int, e: int| coeff(f, m + 1 + e) * pow(c, e as nat) * pow(x, m as nat);
    let lhs = |m: int| quotient_coeff(f, c, n, m) * pow(x, m as nat);
    let mid = |m: int| sum(n, |e: int| g(m, e));
    assert forall|m: int| 0 <= m < n implies #[trigger] lhs(m) == mid(m) by {
        let p = pow(x, m as nat);
        let u = |e: int| coeff(f, m + 1 + e) * pow(c, e as nat);
        let v = |e: int| p * u(e);
        let g_m = |e: int| g(m, e);
        lemma_sum_scale(n, p, u);
        assert forall|e: int| 0 <= e < n implies #[trigger] g_m(e) == v(e) by {
            assert(u(e) * p == p * u(e)) by (nonlinear_arith);
        }
        lemma_sum_eq(n, g_m, v);
        assert(sum(n, u) * p == p * sum(n, u)) by (nonlinear_arith);
    }
    lemma_sum_eq(n, lhs, mid);
    lemma_sum_swap(n, n, g);
    let out = |e: int| sum(n, |m: int| g(m, e));
    let want = |e: int| quotient_coeff(f, x, n, e) * pow(c, e as nat);
    assert forall|e: int| 0 <= e < n implies #[trigger] out(e) == want(e) by {
        let p = pow(c, e as nat);
        let u = |m: int| coeff(f, e + 1 + m) * pow(x, m as nat);
        let v = |m: int| p * u(m);
        let g_e = |m: int| g(m, e);
        lemma_sum_scale(n, p, u);
        assert forall|m: int| 0 <= m < n implies #[trigger] g_e(m) == v(m) by {
            let a = coeff(f, m + 1 + e);
            let y = pow(x, m as nat);
            assert(a * p * y == p * (a * y)) by (nonlinear_arith);
        }
        lemma_sum_eq(n, g_e, v);
        assert(sum(n, u) * p == p * sum(n, u)) by (nonlinear_arith);
    }
    lemma_sum_eq(n, out, want);
    assert(mid =~= (|m: int| sum(n, |e: int| g(m, e))));
    assert(out =~= (|e: int| sum(n, |m: int| g(m, e))));
    // The last coefficient of the quotient is zero.
    assert(lhs(n - 1) == 0) by {
        let u = |e: int| coeff(f, (n - 1) + 1 + e) * pow(c, e as nat);
        assert forall|e: int| 0 <= e < n implies #[trigger] u(e) == 0 by {
            assert(0 * pow(c, e as nat) == 0);
        }
        lemma_sum_zero(n, u);
        assert(0 * pow(x, (n - 1) as nat) == 0);
    }
    assert(sum(n, lhs) == sum(n - 1, lhs) + lhs(n - 1));
    lemma_sum_eq(n - 1, |m: int| q[m] * pow(x, m as nat), lhs);
}

/// Polynomials that are the same have the same quotients by a linear factor.
pub proof fn lemma_linear_quotient_same(f: Seq<int>, g: Seq<int>, c: int, n: int, x: int)
    requires
        same_poly(f, g),
    ensures
        eqm(eval(linear_quotient(f, c, n), x), eval(linear_quotient(g, c, n), x)),
{
    let p = linear_quotient(f, c, n);
    let q = linear_quotient(g, c, n);
    assert forall|m: int| eqm(#[trigger] coeff(p, m), coeff(q, m)) by {
        if 0 <= m < n - 1 {
            let u = |e: int| coeff(f, m + 1 + e) * pow(c, e as nat);
            let v = |e: int| coeff(g, m + 1 + e) * pow(c, e as nat);
            assert forall|e: int| 0 <= e < n implies eqm(#[trigger] u(e), v(e)) by {
                assert(eqm(coeff(f, m + 1 + e), coeff(g, m + 1 + e)));
                let y = pow(c, e as nat);
                lemma_eqm_mul(coeff(f, m + 1 + e), coeff(g, m + 1 + e), y, y);
            }
            lemma_sum_eqm(n, u, v);
        }
    }
    lemma_eval_same(p, q, x);
}

/// Multiplication by `X^n - 1`.
proof fn lemma_product_vanishing(p: Seq<int>, n: int, k: int)
    requires
        n >= 1,
    ensures
        product_coeff(p, vanishing(n), k) == coeff(p, k - n) - coeff(p, k),
{
    let z = vanishing(n);
    let len = p.len() as int;
    let f = |i: int| p[i] * coeff(z, k - i);
    let g = |i: int|
        if i == k - n {
            p[i]
        } else {
            0
        };
    let h = |i: int|
        if i == k {
            -p[i]
        } else {
            0
        };
    let s = |i: int| g(i) + h(i);
    assert forall|i: int| 0 <= i < len implies #[trigger] f(i) == s(i) by {
        if i == k - n {
            assert(p[i] * 1 == p[i]);
        } else if i == k {
            assert(p[i] * (-1) == -p[i]);
        } else {
            assert(coeff(z, k - i) == 0);
            assert(p[i] * 0 == 0);
        }
    }
    lemma_sum_eq(len, f, s);
    lemma_sum_add(len, g, h);
    if 0 <= k - n < len {
        lemma_sum_single(len, k - n, g);
    } else {
        lemma_sum_zero(len, g);
    }
    if 0 <= k < len {
        lemma_sum_single(len, k, h);
    } else {
        lemma_sum_zero(len, h);
    }
}

/// The difference of two quotients by `X^n - 1`, one of them exact, is zero from the top down.
proof fn lemma_quotient_difference(q: Seq<int>, p: Seq<int>, a: Seq<int>, n: int, k: int)
    requires
        n >= 1,
        0 <= k,
        is_quotient(q, a, vanishing(n)),
        same_poly(a, poly_mul(p, vanishing(n))),
    ensures
        eqm(coeff(q, k), coeff(p, k)),
    decreases
            (if k < q.len() + p.len() {
                q.len() + p.len() - k
            } else {
                0
            }),
{
    if k < q.len() + p.len() {
        let z = vanishing(n);
        let r = choose|r: Seq<int>| #[trigger] is_division(q, a, z, r);
        assert(is_division(q, a, z, r));
        lemma_quotient_difference(q, p, a, n, k + n);
        lemma_product_vanishing(q, n, k + n);
        lemma_product_vanishing(p, n, k + n);
        let sum_poly = poly_add(poly_mul(q, z), r);
        assert(eqm(coeff(a, k + n), coeff(sum_poly, k + n)));
        assert(eqm(coeff(a, k + n), coeff(poly_mul(p, z), k + n)));
        lemma_product_coeff_beyond(q, z, k + n);
        lemma_product_coeff_beyond(p, z, k + n);
        assert(coeff(poly_mul(q, z), k + n) == coeff(q, k) - coeff(q, k + n));
        assert(coeff(poly_mul(p, z), k + n) == coeff(p, k) - coeff(p, k + n));
        assert(coeff(r, k + n) == 0);
        assert(coeff(sum_poly, k + n) == coeff(q, k) - coeff(q, k + n));
        lemma_eqm_add(
            coeff(q, k) - coeff(q, k + n),
            coeff(p, k) - coeff(p, k + n),
            coeff(q, k + n),
            coeff(p, k + n),
        );
    }
}

/// Beyond its length a product has no coefficients.
proof fn lemma_product_coeff_beyond(p: Seq<int>, q: Seq<int>, k: int)
    requires
        0 <= k,
    ensures
        coeff(poly_mul(p, q), k) == product_coeff(p, q, k),
{
    if k >= p.len() + q.len() {
        let f = |i: int| p[i] * coeff(q, k - i);
        assert forall|i: int| 0 <= i < p.len() implies #[trigger] f(i) == 0 by {
            assert(p[i] * 0 == 0);
        }
        lemma_sum_zero(p.len() as int, f);
    }
}

/// An exact quotient by `X^n - 1` is the only one.
pub proof fn lemma_vanishing_quotient_unique(q: Seq<int>, p: Seq<int>, a: Seq<int>, n: int)
    requires
        n >= 1,
        is_quotient(q, a, vanishing(n)),
        same_poly(a, poly_mul(p, vanishing(n))),
    ensures
        same_poly(q, p),
{
    assert forall|k: int| eqm(#[trigger] coeff(q, k), coeff(p, k)) by {
        if k >= 0 {
            lemma_quotient_difference(q, p, a, n, k);
        }
    }
}

/// The product of two polynomials of the Lagrange basis, less the first one where they are the
/// same.
/// It vanishes on the domain.
pub open spec fn cross_product(n: int, i: int, j: int) -> Seq<int> {
    poly_sub(
        poly_mul(lagrange(n, i), lagrange(n, j)),
        poly_scale(lagrange(n, i), indicator(i, j)),
    )
}

/// The value of a cross product at any point.
pub proof fn lemma_cross_product_value(n: int, i: int, j: int, x: int)
    ensures
        eval(cross_product(n, i, j), x) == eval(lagrange(n, i), x) * eval(lagrange(n, j), x)
            - eval(lagrange(n, i), x) * indicator(i, j),
{
    lemma_eval_sub(
        poly_mul(lagrange(n, i), lagrange(n, j)),
        poly_scale(lagrange(n, i), indicator(i, j)),
        x,
    );
    lemma_eval_mul(lagrange(n, i), lagrange(n, j), x);
    lemma_eval_scale(lagrange(n, i), indicator(i, j), x);
}

/// A cross product vanishes on the domain.
pub proof fn lemma_cross_product_vanishes(n: int, i: int, j: int, k: int)
    requires
        is_domain_size(n),
        0 <= i < n,
        0 <= j < n,
        0 <= k < n,
    ensures
        eqm(eval(cross_product(n, i, j), pow(unity_root(n), k as nat)), 0),
{
    let x = pow(unity_root(n), k as nat);
    let a = eval(lagrange(n, i), x);
    let b = eval(lagrange(n, j), x);
    lemma_cross_product_value(n, i, j, x);
    lemma_lagrange_value(n, i, k);
    lemma_lagrange_value(n, j, k);
    lemma_eqm_mul(a, indicator(i, k), b, indicator(j, k));
    lemma_eqm_mul(a, indicator(i, k), indicator(i, j), indicator(i, j));
    lemma_eqm_sub(
        a * b,
        indicator(i, k) * indicator(j, k),
        a * indicator(i, j),
        indicator(i, k) * indicator(i, j),
    );
    assert(indicator(i, k) * indicator(j, k) - indicator(i, k) * indicator(i, j) == 0);
}

/// A cross product at a point of the domain of twice the size, next to the quotient of a basis
/// polynomial by a linear factor.
proof fn lemma_cross_on_double_domain(n: int, i: int, j: int, p: Seq<int>, k: int)
    requires
        is_domain_size(n),
        is_domain_size(2 * n),
        0 <= i < n,
        0 <= j < n,
        p == poly_scale(
            linear_quotient(lagrange(n, i), pow(unity_root(n), j as nat), n),
            pow(unity_root(n), j as nat) * size_inverse(n),
        ),
        0 <= k < 2 * n,
    ensures
        eqm(
            eval(poly_mul(p, vanishing(n)), pow(unity_root(2 * n), k as nat)),
            eval(cross_product(n, i, j), pow(unity_root(2 * n), k as nat)),
        ),
{
    let x = pow(unity_root(2 * n), k as nat);
    let v = pow(unity_root(n), j as nat);
    let s = v * size_inverse(n);
    let li = lagrange(n, i);
    let lj = lagrange(n, j);
    let lq = linear_quotient(li, v, n);
    let z = pow(x, n as nat) - 1;
    let a = eval(li, x);
    let b = eval(lj, x);
    let q = eval(lq, x);
    let d = indicator(i, j);
    lemma_eval_mul(p, vanishing(n), x);
    lemma_eval_scale(lq, s, x);
    lemma_eval_vanishing(n, x);
    lemma_cross_product_value(n, i, j, x);
    assert(eval(poly_mul(p, vanishing(n)), x) == q * s * z);
    // The right-hand side is `b * (a - d)`.
    assert(a * b - a * d == b * (a - d) - d * (a - b)) by (nonlinear_arith);
    if i == j {
        assert(a == b);
        assert(d * (a - b) == 0) by (nonlinear_arith)
            requires
                a == b,
        ;
    } else {
        assert(d * (a - b) == 0) by (nonlinear_arith)
            requires
                d == 0,
        ;
    }
    lemma_root_square_pow(n, j as nat);
    let v2 = pow(unity_root(2 * n), (2 * j) as nat);
    assert(eqm(v2, v));
    lemma_lagrange_value(n, i, j);
    if k == 2 * j {
        // Both sides are zero at the root itself.
        assert(eqm(x, v));
        lemma_eqm_pow(x, v, n as nat);
        lemma_root_power_order(n, j as nat);
        lemma_eqm_sub(pow(x, n as nat), 1, 1, 1);
        lemma_eqm_mul(q * s, q * s, z, 0);
        assert(q * s * 0 == 0) by (nonlinear_arith);
        lemma_eval_point(li, x, v);
        lemma_eqm_sub(a, d, d, d);
        lemma_eqm_mul(b, b, a - d, 0);
        assert(b * 0 == 0) by (nonlinear_arith);
    } else {
        let f = x - v;
        lemma_linear_quotient_value(li, v, n, x);
        lemma_lagrange_factor(n, j, x);
        lemma_root_difference_is_unit(2 * n, k as nat, (2 * j) as nat);
        lemma_eqm_sub(x, x, v2, v);
        lemma_unit_eqm(x - v2, f);
        // `f * q == a - li(v)`, and `b * f` is `s * z`.
        let lv = eval(li, v);
        lemma_eqm_sub(a, a, lv, d);
        assert(f * q == a - lv);
        lemma_eqm_mul(f * q, a - d, s * z, b * f);
        assert((f * q) * (s * z) == f * (q * s * z)) by (nonlinear_arith);
        assert((a - d) * (b * f) == f * (b * (a - d))) by (nonlinear_arith);
        lemma_unit_cancel(f, q * s * z, b * (a - d));
    }
}

/// The order of an element of the domain divides the size of the domain.
pub proof fn lemma_root_power_order(n: int, j: nat)
    requires
        is_domain_size(n),
    ensures
        eqm(pow(pow(unity_root(n), j), n as nat), 1),
{
    let w = unity_root(n);
    lemma_pow_multiplies(w, j, n as nat);
    super::roots::lemma_root_periodic(n, 0, j);
    lemma_pow0(w);
    assert(0 + j * (n as nat) == j * (n as nat));
}

/// The quotient of a cross product by `X^n - 1` comes from the quotient of a basis polynomial by a
/// linear factor.
pub proof fn lemma_cross_quotient(n: int, i: int, j: int, q: Seq<int>, x: int)
    requires
        is_domain_size(n),
        is_domain_size(2 * n),
        0 <= i < n,
        0 <= j < n,
        is_quotient(q, cross_product(n, i, j), vanishing(n)),
    ensures
        eqm(
            eval(q, x),
            eval(linear_quotient(lagrange(n, i), pow(unity_root(n), j as nat), n), x) * (pow(
                unity_root(n),
                j as nat,
            ) * size_inverse(n)),
        ),
{
    let v = pow(unity_root(n), j as nat);
    let lq = linear_quotient(lagrange(n, i), v, n);
    let p = poly_scale(lq, v * size_inverse(n));
    let a = cross_product(n, i, j);
    let b = poly_mul(p, vanishing(n));
    assert forall|k: int| 0 <= k < 2 * n implies eqm(
        #[trigger] eval(a, pow(unity_root(2 * n), k as nat)),
        eval(b, pow(unity_root(2 * n), k as nat)),
    ) by {
        lemma_cross_on_double_domain(n, i, j, p, k);
    }
    lemma_domain_values(a, b, 2 * n);
    lemma_vanishing_quotient_unique(q, p, a, n);
    lemma_eval_same(q, p, x);
    lemma_eval_scale(lq, v * size_inverse(n), x);
}

/// Products of polynomials that are the same are the same.
pub proof fn lemma_mul_same(p: Seq<int>, p2: Seq<int>, q: Seq<int>, q2: Seq<int>)
    requires
        same_poly(p, p2),
        same_poly(q, q2),
    ensures
        same_poly(poly_mul(p, q), poly_mul(p2, q2)),
{
    assert forall|k: int| eqm(
        #[trigger] coeff(poly_mul(p, q), k),
        coeff(poly_mul(p2, q2), k),
    ) by {
        if k >= 0 {
            let n = if p.len() >= p2.len() {
                p.len() as int
            } else {
                p2.len() as int
            };
            lemma_product_coeff_beyond(p, q, k);
            lemma_product_coeff_beyond(p2, q2, k);
            lemma_product_terms(p, q, k, n);
            lemma_product_terms(p2, q2, k, n);
            let f = |i: int| coeff(p, i) * coeff(q, k - i);
            let g = |i: int| coeff(p2, i) * coeff(q2, k - i);
            assert forall|i: int| 0 <= i < n implies eqm(#[trigger] f(i), g(i)) by {
                assert(eqm(coeff(p, i), coeff(p2, i)));
                assert(eqm(coeff(q, k - i), coeff(q2, k - i)));
                lemma_eqm_mul(coeff(p, i), coeff(p2, i), coeff(q, k - i), coeff(q2, k - i));
            }
            lemma_sum_eqm(n, f, g);
        }
    }
}

/// The coefficient of a product as a sum that goes on beyond the first factor.
proof fn lemma_product_terms(p: Seq<int>, q: Seq<int>, k: int, n: int)
    requires
        n >= p.len(),
    ensures
        product_coeff(p, q, k) == sum(n, |i: int| coeff(p, i) * coeff(q, k - i)),
{
    let f = |i: int| coeff(p, i) * coeff(q, k - i);
    assert forall|i: int| p.len() <= i < n implies #[trigger] f(i) == 0 by {
        assert(0 * coeff(q, k - i) == 0);
    }
    lemma_sum_trailing_zeros(p.len() as int, n, f);
    lemma_sum_eq(p.len() as int, f, |i: int| p[i] * coeff(q, k - i));
}

/// Sums and differences of polynomials that are the same are the same.
pub proof fn lemma_add_same(p: Seq<int>, p2: Seq<int>, q: Seq<int>, q2: Seq<int>)
    requires
        same_poly(p, p2),
        same_poly(q, q2),
    ensures
        same_poly(poly_add(p, q), poly_add(p2, q2)),
        same_poly(poly_sub(p, q), poly_sub(p2, q2)),
{
    assert forall|k: int| eqm(#[trigger] coeff(poly_add(p, q), k), coeff(poly_add(p2, q2), k)) by {
        assert(eqm(coeff(p, k), coeff(p2, k)) && eqm(coeff(q, k), coeff(q2, k)));
        lemma_eqm_add(coeff(p, k), coeff(p2, k), coeff(q, k), coeff(q2, k));
    }
    assert forall|k: int| eqm(#[trigger] coeff(poly_sub(p, q), k), coeff(poly_sub(p2, q2), k)) by {
        assert(eqm(coeff(p, k), coeff(p2, k)) && eqm(coeff(q, k), coeff(q2, k)));
        lemma_eqm_sub(coeff(p, k), coeff(p2, k), coeff(q, k), coeff(q2, k));
    }
}

/// Polynomials that are the same have the same quotients.
pub proof fn lemma_quotient_same(
    q: Seq<int>,
    a: Seq<int>,
    a2: Seq<int>,
    b: Seq<int>,
    b2: Seq<int>,
)
    requires
        is_quotient(q, a, b),
        same_poly(a, a2),
        same_poly(b, b2),
        b.len() == b2.len(),
    ensures
        is_quotient(q, a2, b2),
{
    let r = choose|r: Seq<int>| #[trigger] is_division(q, a, b, r);
    let c = poly_add(poly_mul(q, b), r);
    let c2 = poly_add(poly_mul(q, b2), r);
    lemma_mul_same(q, q, b, b2);
    lemma_add_same(poly_mul(q, b), poly_mul(q, b2), r, r);
    assert forall|k: int| eqm(#[trigger] coeff(a2, k), coeff(c2, k)) by {
        assert(eqm(coeff(a, k), coeff(a2, k)));
        assert(eqm(coeff(a, k), coeff(c, k)));
        assert(eqm(coeff(c, k), coeff(c2, k)));
    }
    assert(is_division(q, a2, b2, r));
}

/// Multiplication by `X - c`.
proof fn lemma_product_linear(p: Seq<int>, c: int, k: int)
    ensures
        product_coeff(p, linear(c), k) == coeff(p, k - 1) - c * coeff(p, k),
{
    let z = linear(c);
    let len = p.len() as int;
    let f = |i: int| p[i] * coeff(z, k - i);
    let g = |i: int|
        if i == k - 1 {
            p[i]
        } else {
            0
        };
    let h = |i: int|
        if i == k {
            -(c * p[i])
        } else {
            0
        };
    let s = |i: int| g(i) + h(i);
    assert forall|i: int| 0 <= i < len implies #[trigger] f(i) == s(i) by {
        if i == k - 1 {
            assert(p[i] * 1 == p[i]);
        } else if i == k {
            assert(p[i] * (-c) == -(c * p[i])) by (nonlinear_arith);
        } else {
            assert(coeff(z, k - i) == 0);
            assert(p[i] * 0 == 0);
        }
    }
    lemma_sum_eq(len, f, s);
    lemma_sum_add(len, g, h);
    if 0 <= k - 1 < len {
        lemma_sum_single(len, k - 1, g);
    } else {
        lemma_sum_zero(len, g);
    }
    if 0 <= k < len {
        lemma_sum_single(len, k, h);
    } else {
        lemma_sum_zero(len, h);
        assert(c * 0 == 0);
    }
}

/// The coefficients of a quotient by `X - c`, from the top down.
proof fn lemma_linear_quotient_coeff(q: Seq<int>, a: Seq<int>, c: int, n: int, k: int)
    requires
        1 <= n,
        a.len() <= n,
        0 <= k,
        is_quotient(q, a, linear(c)),
    ensures
        eqm(coeff(q, k), quotient_coeff(a, c, n, k)),
    decreases
            (if k < q.len() + n {
                q.len() + n - k
            } else {
                0
            }),
{
    if k >= q.len() + n {
        let f = |e: int| coeff(a, k + 1 + e) * pow(c, e as nat);
        assert forall|e: int| 0 <= e < n implies #[trigger] f(e) == 0 by {
            assert(0 * pow(c, e as nat) == 0);
        }
        lemma_sum_zero(n, f);
    } else {
        lemma_linear_quotient_coeff(q, a, c, n, k + 1);
        lemma_quotient_coeff_step(a, c, n, k + 1);
        let z = linear(c);
        let r = choose|r: Seq<int>| #[trigger] is_division(q, a, z, r);
        let s = poly_add(poly_mul(q, z), r);
        assert(eqm(coeff(a, k + 1), coeff(s, k + 1)));
        lemma_product_coeff_beyond(q, z, k + 1);
        lemma_product_linear(q, c, k + 1);
        assert(coeff(r, k + 1) == 0);
        assert(coeff(s, k + 1) == coeff(q, k) - c * coeff(q, k + 1));
        let v = quotient_coeff(a, c, n, k + 1);
        lemma_eqm_mul(c, c, coeff(q, k + 1), v);
        lemma_eqm_add(
            coeff(q, k) - c * coeff(q, k + 1),
            coeff(a, k + 1),
            c * coeff(q, k + 1),
            c * v,
        );
    }
}

/// The quotient by `X - c` is the only one.
pub proof fn lemma_linear_quotient_unique(q: Seq<int>, a: Seq<int>, c: int, n: int)
    requires
        1 <= n,
        a.len() <= n,
        is_quotient(q, a, linear(c)),
    ensures
        same_poly(q, linear_quotient(a, c, n)),
{
    let p = linear_quotient(a, c, n);
    assert forall|k: int| eqm(#[trigger] coeff(q, k), coeff(p, k)) by {
        if k >= 0 {
            lemma_linear_quotient_coeff(q, a, c, n, k);
            if k >= n - 1 {
                let f = |e: int| coeff(a, k + 1 + e) * pow(c, e as nat);
                assert forall|e: int| 0 <= e < n implies #[trigger] f(e) == 0 by {
                    assert(0 * pow(c, e as nat) == 0);
                }
                lemma_sum_zero(n, f);
            }
        }
    }
}

/// Being the same polynomial is transitive.
pub proof fn lemma_same_trans(p: Seq<int>, q: Seq<int>, r: Seq<int>)
    requires
        same_poly(p, q),
        same_poly(q, r),
    ensures
        same_poly(p, r),
        same_poly(q, p),
{
    assert forall|k: int| eqm(#[trigger] coeff(p, k), coeff(r, k)) by {
        assert(eqm(coeff(p, k), coeff(q, k)));
        assert(eqm(coeff(q, k), coeff(r, k)));
    }
    assert forall|k: int| eqm(#[trigger] coeff(q, k), coeff(p, k)) by {
        assert(eqm(coeff(p, k), coeff(q, k)));
    }
}

/// Multiples of polynomials that are the same are the same.
pub proof fn lemma_scale_same(p: Seq<int>, q: Seq<int>, c: int, d: int)
    requires
        same_poly(p, q),
        eqm(c, d),
    ensures
        same_poly(poly_scale(p, c), poly_scale(q, d)),
{
    assert forall|k: int| eqm(
        #[trigger] coeff(poly_scale(p, c), k),
        coeff(poly_scale(q, d), k),
    ) by {
        assert(eqm(coeff(p, k), coeff(q, k)));
        lemma_eqm_mul(coeff(p, k), coeff(q, k), c, d);
        if k < 0 || k >= p.len() {
            assert(0 * c == 0);
        }
        if k < 0 || k >= q.len() {
            assert(0 * d == 0);
        }
    }
}

/// `X^n - 1` without the linear factor of an element of the domain.
pub open spec fn vanishing_without(n: int, c: int) -> Seq<int> {
    Seq::new(n as nat, |k: int| pow(c, (n - 1 - k) as nat))
}

/// The quotient of `X^n - 1` by `X - c`.
pub proof fn lemma_vanishing_without(q: Seq<int>, n: int, c: int)
    requires
        1 <= n,
        is_quotient(q, vanishing(n), linear(c)),
    ensures
        same_poly(q, vanishing_without(n, c)),
{
    let v = vanishing(n);
    lemma_linear_quotient_unique(q, v, c, n + 1);
    let p = linear_quotient(v, c, n + 1);
    assert forall|m: int| 0 <= m < n implies #[trigger] p[m] == pow(c, (n - 1 - m) as nat) by {
        let f = |e: int| coeff(v, m + 1 + e) * pow(c, e as nat);
        assert forall|e: int| 0 <= e < n + 1 && e != n - 1 - m implies #[trigger] f(e) == 0 by {
            assert(coeff(v, m + 1 + e) == 0);
            assert(0 * pow(c, e as nat) == 0);
        }
        lemma_sum_single(n + 1, n - 1 - m, f);
        assert(1 * pow(c, (n - 1 - m) as nat) == pow(c, (n - 1 - m) as nat));
    }
    assert(p =~= vanishing_without(n, c));
}

/// `X^n - 1` without a linear factor, times that factor.
pub proof fn lemma_vanishing_without_value(n: int, c: int, x: int)
    requires
        1 <= n,
    ensures
        eval(vanishing_without(n, c), x) * (x - c) == pow(x, n as nat) - pow(c, n as nat),
    decreases n,
{
    let p = vanishing_without(n, c);
    let f = |k: int| p[k] * pow(x, k as nat);
    if n == 1 {
        lemma_pow0(c);
        lemma_pow0(x);
        lemma_pow1(x);
        lemma_pow1(c);
        assert(sum(1, f) == sum(0, f) + f(0));
        assert(f(0) == 1);
        assert(1 * (x - c) == x - c);
    } else {
        lemma_vanishing_without_value(n - 1, c, x);
        let q = vanishing_without(n - 1, c);
        let g = |k: int| q[k] * pow(x, k as nat);
        let h = |k: int| c * g(k);
        assert forall|k: int| 0 <= k < n - 1 implies #[trigger] f(k) == h(k) by {
            lemma_pow_adds(c, 1, (n - 2 - k) as nat);
            lemma_pow1(c);
            let u = pow(c, (n - 2 - k) as nat);
            let v = pow(x, k as nat);
            assert(c * u * v == c * (u * v)) by (nonlinear_arith);
        }
        lemma_sum_eq(n - 1, f, h);
        lemma_sum_scale(n - 1, c, g);
        lemma_pow0(c);
        let y = pow(x, (n - 1) as nat);
        assert(f(n - 1) == y) by {
            assert(1 * y == y);
        }
        let e = sum(n - 1, g);
        lemma_pow_adds(x, 1, (n - 1) as nat);
        lemma_pow_adds(c, 1, (n - 1) as nat);
        lemma_pow1(x);
        lemma_pow1(c);
        let d = pow(c, (n - 1) as nat);
        assert((c * e + y) * (x - c) == c * (e * (x - c)) + y * (x - c)) by (nonlinear_arith);
        assert(c * (y - d) + y * (x - c) == x * y - c * d) by (nonlinear_arith);
    }
}

/// `X^n - 1` without a linear factor, at the element of that factor.
pub proof fn lemma_vanishing_without_at_root(n: int, c: int)
    requires
        1 <= n,
    ensures
        eval(vanishing_without(n, c), c) == n * pow(c, (n - 1) as nat),
{
    let p = vanishing_without(n, c);
    let d = pow(c, (n - 1) as nat);
    let f = |k: int| p[k] * pow(c, k as nat);
    let h = |k: int| d * one_term(k);
    assert forall|k: int| 0 <= k < n implies #[trigger] f(k) == h(k) by {
        lemma_pow_adds(c, (n - 1 - k) as nat, k as nat);
    }
    lemma_sum_eq(n, f, h);
    let ones = |k: int| one_term(k);
    lemma_sum_scale(n, d, ones);
    lemma_sum_eq(n, h, |k: int| d * ones(k));
    lemma_count(n, ones);
    assert(d * n == n * d) by (nonlinear_arith);
}

spec fn one_term(k: int) -> int {
    1
}

proof fn lemma_count(n: int, f: spec_fn(int) -> int)
    requires
        0 <= n,
        forall|k: int| #[trigger] f(k) == 1,
    ensures
        sum(n, f) == n,
    decreases n,
{
    if n > 0 {
        lemma_count(n - 1, f);
    }
}

} // verus!
