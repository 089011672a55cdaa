//! The Lagrange basis of a domain of roots of unity.
use super::congruence::{
    eqm, inverse_of, lemma_eqm_add, lemma_eqm_difference, lemma_eqm_mul, lemma_eqm_sub,
};
use super::fourier::lemma_power_of_two_is_unit;
use super::polynomial::{
    coeff, eval, lemma_eval_at_root_power, lemma_eval_same, lemma_eval_sub, lemma_zero_on_domain,
    linear, poly_sub, same_poly,
};
use super::roots::{
    is_domain_size, lemma_geometric_sum_zero, lemma_root_order, lemma_root_periodic, unity_root,
};
use super::sums::{
    lemma_sum_eq, lemma_sum_eqm, lemma_sum_scale, lemma_sum_single, lemma_sum_swap, sum,
};
use vstd::arithmetic::power::{lemma_pow0, lemma_pow1, lemma_pow_adds, lemma_pow_multiplies, pow};
use vstd::prelude::*;

verus! {

/// The inverse of the size of a domain.
pub open spec fn size_inverse(n: int) -> int {
    choose|b: int| inverse_of(n, b)
}

/// The polynomial that is one at the element `i` of the domain of size `n`, and zero at the others.
pub open spec fn lagrange(n: int, i: int) -> Seq<int> {
    Seq::new(n as nat, |k: int| size_inverse(n) * pow(unity_root(n), ((n - i) * k) as nat))
}

/// One where the indices agree, and zero elsewhere.
pub open spec fn indicator(i: int, j: int) -> int {
    if i == j {
        1
    } else {
        0
    }
}

pub proof fn lemma_size_inverse(n: int)
    requires
        is_domain_size(n),
    ensures
        eqm(n * size_inverse(n), 1),
{
    lemma_power_of_two_is_unit(n);
    let b = choose|b: int| inverse_of(n, b);
    assert(inverse_of(n, b));
}

/// The sum of `n` terms that are all one.
proof fn lemma_sum_ones(n: int, f: spec_fn(int) -> int)
    requires
        0 <= n,
        forall|k: int| 0 <= k < n ==> eqm(#[trigger] f(k), 1),
    ensures
        eqm(sum(n, f), n),
    decreases n,
{
    if n > 0 {
        lemma_sum_ones(n - 1, f);
        assert(eqm(f(n - 1), 1));
        lemma_eqm_add(sum(n - 1, f), n - 1, f(n - 1), 1);
    }
}

/// The values of the basis on the domain.
pub proof fn lemma_lagrange_value(n: int, i: int, j: int)
    requires
        is_domain_size(n),
        0 <= i < n,
        0 <= j < n,
    ensures
        eqm(eval(lagrange(n, i), pow(unity_root(n), j as nat)), indicator(i, j)),
{
    let w = unity_root(n);
    let c = size_inverse(n);
    let p = lagrange(n, i);
    let e = (n - i + j) as nat;
    lemma_eval_at_root_power(p, w, j as nat);
    let f = |k: int| p[k] * pow(w, (k * j) as nat);
    let g = |k: int| pow(w, e * (k as nat));
    let h = |k: int| c * g(k);
    assert forall|k: int| 0 <= k < n implies #[trigger] f(k) == h(k) by {
        assert((n - i) * k >= 0 && k * j >= 0) by (nonlinear_arith)
            requires
                0 <= k,
                0 <= j,
                i < n,
        ;
        lemma_pow_adds(w, ((n - i) * k) as nat, (k * j) as nat);
        assert((n - i) * k + k * j == (n - i + j) * k) by (nonlinear_arith);
        assert(e * (k as nat) == (n - i + j) * k);
        let u = pow(w, ((n - i) * k) as nat);
        let v = pow(w, (k * j) as nat);
        assert((c * u) * v == c * (u * v)) by (nonlinear_arith);
    }
    lemma_sum_eq(n, f, h);
    lemma_sum_scale(n, c, g);
    lemma_size_inverse(n);
    if i == j {
        assert forall|k: int| 0 <= k < n implies eqm(#[trigger] g(k), 1) by {
            assert(e * (k as nat) == 0 + (k as nat) * (n as nat)) by (nonlinear_arith)
                requires
                    e == n,
                    k >= 0,
            ;
            lemma_root_periodic(n, 0, k as nat);
            lemma_pow0(w);
        }
        lemma_sum_ones(n, g);
        lemma_eqm_mul(c, c, sum(n, g), n);
        assert(c * n == n * c) by (nonlinear_arith);
    } else {
        assert(e as int % n != 0) by {
            if j > i {
                vstd::arithmetic::div_mod::lemma_mod_add_multiples_vanish(j - i, n);
                vstd::arithmetic::div_mod::lemma_small_mod((j - i) as nat, n as nat);
            } else {
                vstd::arithmetic::div_mod::lemma_small_mod(e, n as nat);
            }
        }
        lemma_geometric_sum_zero(n, e);
        assert(g =~= (|k: int| pow(w, e * (k as nat))));
        lemma_eqm_mul(c, c, sum(n, g), 0);
        assert(c * 0 == 0);
    }
}

/// A polynomial of the right size is fixed by its values on the domain.
pub proof fn lemma_domain_values(p: Seq<int>, q: Seq<int>, n: int)
    requires
        is_domain_size(n),
        p.len() <= n,
        q.len() <= n,
        forall|j: int|
            0 <= j < n ==> eqm(
                #[trigger] eval(p, pow(unity_root(n), j as nat)),
                eval(q, pow(unity_root(n), j as nat)),
            ),
    ensures
        same_poly(p, q),
{
    let d = poly_sub(p, q);
    assert forall|j: int| 0 <= j < n implies eqm(
        #[trigger] eval(d, pow(unity_root(n), j as nat)),
        0,
    ) by {
        let x = pow(unity_root(n), j as nat);
        assert(eqm(eval(p, x), eval(q, x)));
        lemma_eval_sub(p, q, x);
        lemma_eqm_difference(eval(p, x), eval(q, x));
    }
    lemma_zero_on_domain(d, n);
    assert forall|k: int| eqm(#[trigger] coeff(p, k), coeff(q, k)) by {
        assert(eqm(coeff(d, k), coeff(Seq::<int>::empty(), k)));
        assert(coeff(d, k) == coeff(p, k) - coeff(q, k));
        lemma_eqm_difference(coeff(p, k), coeff(q, k));
    }
}

/// The values of the basis fix its polynomials.
pub proof fn lemma_lagrange_unique(p: Seq<int>, n: int, i: int)
    requires
        is_domain_size(n),
        0 <= i < n,
        p.len() <= n,
        forall|j: int|
            0 <= j < n ==> eqm(
                #[trigger] eval(p, pow(unity_root(n), j as nat)),
                indicator(i, j),
            ),
    ensures
        same_poly(p, lagrange(n, i)),
{
    assert forall|j: int| 0 <= j < n implies eqm(
        #[trigger] eval(p, pow(unity_root(n), j as nat)),
        eval(lagrange(n, i), pow(unity_root(n), j as nat)),
    ) by {
        assert(eqm(eval(p, pow(unity_root(n), j as nat)), indicator(i, j)));
        lemma_lagrange_value(n, i, j);
    }
    lemma_domain_values(p, lagrange(n, i), n);
}

/// The terms of a polynomial in the Lagrange basis, at a point.
pub open spec fn basis_terms(values: spec_fn(int) -> int, n: int, x: int) -> spec_fn(int) -> int {
    |j: int| values(j) * eval(lagrange(n, j), x)
}

/// The combination of the Lagrange basis with the given values.
pub open spec fn interpolated(values: spec_fn(int) -> int, n: int) -> Seq<int> {
    Seq::new(n as nat, |k: int| sum(n, |j: int| values(j) * lagrange(n, j)[k]))
}

/// The value of a combination of the basis.
pub proof fn lemma_eval_interpolated(values: spec_fn(int) -> int, n: int, x: int)
    requires
        n >= 0,
    ensures
        eval(interpolated(values, n), x) == sum(n, basis_terms(values, n, x)),
{
    let p = interpolated(values, n);
    let f = |k: int, j: int| values(j) * lagrange(n, j)[k] * pow(x, k as nat);
    let lhs = |k: int| p[k] * pow(x, k as nat);
    let mid = |k: int| sum(n, |j: int| f(k, j));
    assert forall|k: int| 0 <= k < n implies #[trigger] lhs(k) == mid(k) by {
        let c = pow(x, k as nat);
        let g = |j: int| values(j) * lagrange(n, j)[k];
        let h = |j: int| c * g(j);
        lemma_sum_scale(n, c, g);
        let f_k = |j: int| f(k, j);
        assert forall|j: int| 0 <= j < n implies #[trigger] f_k(j) == h(j) by {
            assert(g(j) * c == c * g(j)) by (nonlinear_arith);
        }
        lemma_sum_eq(n, f_k, h);
        assert(p[k] == sum(n, g));
        assert(p[k] * c == c * p[k]) by (nonlinear_arith);
    }
    lemma_sum_eq(n, lhs, mid);
    lemma_sum_swap(n, n, f);
    let out = |j: int| sum(n, |k: int| f(k, j));
    let want = basis_terms(values, n, x);
    assert forall|j: int| 0 <= j < n implies #[trigger] out(j) == want(j) by {
        let q = lagrange(n, j);
        let g = |k: int| q[k] * pow(x, k as nat);
        let h = |k: int| values(j) * g(k);
        lemma_sum_scale(n, values(j), g);
        let f_j = |k: int| f(k, j);
        assert forall|k: int| 0 <= k < n implies #[trigger] f_j(k) == h(k) by {
            assert(values(j) * q[k] * pow(x, k as nat) == values(j) * (q[k] * pow(x, k as nat)))
                by (nonlinear_arith);
        }
        lemma_sum_eq(n, f_j, h);
        assert(eval(q, x) == sum(n, g));
    }
    lemma_sum_eq(n, out, want);
    assert(mid =~= (|k: int| sum(n, |j: int| f(k, j))));
    assert(out =~= (|j: int| sum(n, |k: int| f(k, j))));
}

/// A polynomial is the combination of the basis with its values on the domain.
pub proof fn lemma_interpolation(p: Seq<int>, values: spec_fn(int) -> int, n: int, x: int)
    requires
        is_domain_size(n),
        p.len() <= n,
        forall|j: int|
            0 <= j < n ==> eqm(
                eval(p, pow(unity_root(n), j as nat)),
                #[trigger] values(j),
            ),
    ensures
        eqm(eval(p, x), sum(n, basis_terms(values, n, x))),
{
    let q = interpolated(values, n);
    assert forall|j: int| 0 <= j < n implies eqm(
        #[trigger] eval(p, pow(unity_root(n), j as nat)),
        eval(q, pow(unity_root(n), j as nat)),
    ) by {
        let y = pow(unity_root(n), j as nat);
        lemma_eval_interpolated(values, n, y);
        let f = basis_terms(values, n, y);
        let g = |i: int| values(i) * indicator(i, j);
        assert forall|i: int| 0 <= i < n implies eqm(#[trigger] f(i), g(i)) by {
            lemma_lagrange_value(n, i, j);
            lemma_eqm_mul(values(i), values(i), eval(lagrange(n, i), y), indicator(i, j));
        }
        lemma_sum_eqm(n, f, g);
        lemma_sum_single(n, j, g);
        assert(eqm(eval(p, y), values(j)));
    }
    lemma_domain_values(p, q, n);
    lemma_eval_same(p, q, x);
    lemma_eval_interpolated(values, n, x);
}

/// The finite geometric series.
pub proof fn lemma_geometric(r: int, n: int)
    requires
        n >= 0,
    ensures
        sum(n, |k: int| pow(r, k as nat)) * (r - 1) == pow(r, n as nat) - 1,
    decreases n,
{
    let f = |k: int| pow(r, k as nat);
    if n == 0 {
        lemma_pow0(r);
    } else {
        lemma_geometric(r, n - 1);
        let s = sum(n - 1, f);
        let q = pow(r, (n - 1) as nat);
        lemma_pow_adds(r, (n - 1) as nat, 1);
        lemma_pow1(r);
        assert((s + q) * (r - 1) == s * (r - 1) + q * r - q) by (nonlinear_arith);
    }
}

/// A basis polynomial is `X^n - 1` without one of its linear factors.
pub proof fn lemma_lagrange_factor(n: int, j: int, x: int)
    requires
        is_domain_size(n),
        0 <= j < n,
    ensures
        eqm(
            eval(lagrange(n, j), x) * (x - pow(unity_root(n), j as nat)),
            pow(unity_root(n), j as nat) * size_inverse(n) * (pow(x, n as nat) - 1),
        ),
{
    let w = unity_root(n);
    let c = size_inverse(n);
    let p = lagrange(n, j);
    let u = pow(w, (n - j) as nat);
    let v = pow(w, j as nat);
    let r = u * x;
    let f = |k: int| p[k] * pow(x, k as nat);
    let g = |k: int| pow(r, k as nat);
    let h = |k: int| c * g(k);
    assert forall|k: int| 0 <= k < n implies #[trigger] f(k) == h(k) by {
        lemma_pow_multiplies(w, (n - j) as nat, k as nat);
        assert(((n - j) * k) as nat == ((n - j) as nat) * (k as nat)) by (nonlinear_arith)
            requires
                0 <= k,
                j < n,
        ;
        vstd::arithmetic::power::lemma_pow_distributes(u, x, k as nat);
        assert(c * pow(u, k as nat) * pow(x, k as nat) == c * (pow(u, k as nat) * pow(
            x,
            k as nat,
        ))) by (nonlinear_arith);
    }
    lemma_sum_eq(n, f, h);
    lemma_sum_scale(n, c, g);
    lemma_geometric(r, n);
    assert(g =~= (|k: int| pow(r, k as nat)));
    // `v * (r - 1)` is `x - v`, and `r^n` is `x^n`.
    lemma_pow_adds(w, (n - j) as nat, j as nat);
    lemma_root_order(n);
    lemma_eqm_mul(u * v, 1, x, x);
    lemma_eqm_sub(u * v * x, x, v, v);
    assert(u * v * x - v == v * (r - 1)) by (nonlinear_arith)
        requires
            r == u * x,
    ;
    vstd::arithmetic::power::lemma_pow_distributes(u, x, n as nat);
    lemma_pow_multiplies(w, (n - j) as nat, n as nat);
    lemma_root_periodic(n, 0, (n - j) as nat);
    lemma_pow0(w);
    assert(((n - j) as nat) * (n as nat) == 0 + ((n - j) as nat) * (n as nat));
    let xn = pow(x, n as nat);
    lemma_eqm_mul(pow(u, n as nat), 1, xn, xn);
    assert(1 * xn == xn);
    lemma_eqm_sub(pow(r, n as nat), xn, 1, 1);
    // `c * s * (x - v) = c * s * v * (r - 1) = v * c * (r^n - 1)`.
    let s = sum(n, g);
    lemma_eqm_mul(c * s, c * s, x - v, v * (r - 1));
    assert(c * s * (v * (r - 1)) == v * c * (s * (r - 1))) by (nonlinear_arith);
    lemma_eqm_mul(v * c, v * c, pow(r, n as nat) - 1, xn - 1);
}

} // verus!
