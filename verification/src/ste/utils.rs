//! Interpolation and opening proofs over a domain of roots of unity.
use crate::algebra::congruence::{
    eqm, inverse_of, is_unit, lemma_eqm_mod, lemma_eqm_mul, lemma_unit_eqm, lemma_unit_mul,
    lemma_unit_nonzero, modulus,
};
use crate::algebra::fourier::{
    cyclic, cyclic_term, dft, is_transform, lemma_convolution, lemma_dft_injective,
    lemma_dft_padded, padded,
};
use crate::algebra::lagrange::{
    indicator, lagrange, lemma_lagrange_unique, lemma_size_inverse, size_inverse,
};
use crate::algebra::polynomial::{
    coeff, commitment, eval, is_trimmed, lemma_eval_at_root_power, same_poly,
};
use crate::algebra::quotients::{lemma_linear_quotient_swap, linear_quotient, quotient_coeff};
use crate::algebra::roots::{is_domain_size, lemma_root_is_unit, unity_root};
use crate::algebra::sums::{
    lemma_sum_eq, lemma_sum_eqm, lemma_sum_first, lemma_sum_scale, lemma_sum_trailing_zeros, sum,
};
use crate::field::{scalar_fft, scalar_ifft, vals, Scalar};
use crate::group::{g1_fft, g1_ifft, g1_msm, g2_msm, G1, G2};
use crate::poly::Poly;
use vstd::arithmetic::power::{lemma_pow_multiplies, pow};
use vstd::prelude::*;

verus! {

/// Every coefficient of a basis polynomial is a unit.
pub proof fn lemma_lagrange_coeff_is_unit(n: int, i: int, k: int)
    requires
        is_domain_size(n),
        0 <= i < n,
        0 <= k < n,
    ensures
        is_unit(lagrange(n, i)[k]),
{
    lemma_size_inverse(n);
    assert(size_inverse(n) * n == n * size_inverse(n)) by (nonlinear_arith);
    assert(inverse_of(size_inverse(n), n));
    assert((n - i) * k >= 0) by (nonlinear_arith)
        requires
            i < n,
            k >= 0,
    ;
    lemma_root_is_unit(n, ((n - i) * k) as nat);
    lemma_unit_mul(size_inverse(n), pow(unity_root(n), ((n - i) * k) as nat));
}

/// A basis polynomial without leading zeros has as many coefficients as the domain has elements.
pub proof fn lemma_lagrange_length(p: Seq<int>, n: int, i: int)
    requires
        is_domain_size(n),
        0 <= i < n,
        same_poly(p, lagrange(n, i)),
        is_trimmed(p),
    ensures
        p.len() == n,
{
    if p.len() > n {
        assert(eqm(coeff(p, p.len() - 1), coeff(lagrange(n, i), p.len() - 1)));
    }
    if p.len() < n {
        assert(eqm(coeff(p, n - 1), coeff(lagrange(n, i), n - 1)));
        lemma_lagrange_coeff_is_unit(n, i, n - 1);
        lemma_unit_eqm(lagrange(n, i)[n - 1], 0);
        lemma_unit_nonzero(0);
        crate::algebra::congruence::lemma_modulus();
        crate::algebra::congruence::lemma_reduced(0);
    }
}

/// The polynomial that is one at the element `i` of the domain of size `n`, and zero at the others.
pub fn lagrange_poly(n: usize, i: usize) -> (res: Poly)
    requires
        is_domain_size(n as int),
        i < n,
    ensures
        same_poly(res@, lagrange(n as int, i as int)),
        is_trimmed(res@),
        res@.len() == n,
{
    let mut evals: Vec<Scalar> = Vec::new();
    let mut j: usize = 0;
    while j < n
        invariant
            0 <= j <= n,
            evals@.len() == j,
            forall|k: int|
                0 <= k < j ==> (#[trigger] evals@[k])@ == indicator(i as int, k),
        decreases n - j,
    {
        if j == i {
            evals.push(Scalar::one());
        } else {
            evals.push(Scalar::zero());
        }
        j += 1;
    }
    let coeffs = scalar_ifft(&evals, n);
    let ghost c = vals(coeffs@);
    proof {
        assert forall|k: int| 0 <= k < n implies eqm(
            #[trigger] eval(c, pow(unity_root(n as int), k as nat)),
            indicator(i as int, k),
        ) by {
            lemma_eval_at_root_power(c, unity_root(n as int), k as nat);
            assert(eqm(vals(evals@)[k], dft(c, unity_root(n as int), k)));
            assert(vals(evals@)[k] == evals@[k]@);
        }
        lemma_lagrange_unique(c, n as int, i as int);
    }
    let res = Poly::from_coefficients_vec(coeffs);
    proof {
        assert forall|k: int| eqm(
            #[trigger] coeff(res@, k),
            coeff(lagrange(n as int, i as int), k),
        ) by {
            assert(eqm(coeff(res@, k), coeff(c, k)));
            assert(eqm(coeff(c, k), coeff(lagrange(n as int, i as int), k)));
        }
        lemma_lagrange_length(res@, n as int, i as int);
    }
    res
}

/// The commitment to a polynomial with the given coefficients, on the first of the points.
pub fn commit(points: &Vec<G1>, coeffs: &Vec<Scalar>) -> (res: G1)
    requires
        coeffs@.len() <= points@.len(),
    ensures
        res@ == commitment(vals(coeffs@), vals(points@)) % modulus(),
{
    let mut bases: Vec<G1> = Vec::new();
    let mut i: usize = 0;
    while i < coeffs.len()
        invariant
            0 <= i <= coeffs@.len(),
            coeffs@.len() <= points@.len(),
            bases@ == points@.subrange(0, i as int),
        decreases coeffs@.len() - i,
    {
        bases.push(points[i]);
        i += 1;
    }
    proof {
        let p = vals(coeffs@);
        let q = vals(points@);
        let f = |j: int| vals(bases@)[j] * p[j];
        let g = |j: int| p[j] * q[j];
        assert forall|j: int| 0 <= j < coeffs@.len() implies #[trigger] f(j) == g(j) by {
            assert(vals(bases@)[j] == q[j]);
            assert(q[j] * p[j] == p[j] * q[j]) by (nonlinear_arith);
        }
        lemma_sum_eq(coeffs@.len() as int, f, g);
    }
    g1_msm(&bases, coeffs)
}

/// The commitment to a polynomial with the given coefficients, on the first of the points of
/// the second group.
pub fn commit_g2(points: &Vec<G2>, coeffs: &Vec<Scalar>) -> (res: G2)
    requires
        coeffs@.len() <= points@.len(),
    ensures
        res@ == commitment(vals(coeffs@), vals(points@)) % modulus(),
{
    let mut bases: Vec<G2> = Vec::new();
    let mut i: usize = 0;
    while i < coeffs.len()
        invariant
            0 <= i <= coeffs@.len(),
            coeffs@.len() <= points@.len(),
            bases@ == points@.subrange(0, i as int),
        decreases coeffs@.len() - i,
    {
        bases.push(points[i]);
        i += 1;
    }
    proof {
        let p = vals(coeffs@);
        let q = vals(points@);
        let f = |j: int| vals(bases@)[j] * p[j];
        let g = |j: int| p[j] * q[j];
        assert forall|j: int| 0 <= j < coeffs@.len() implies #[trigger] f(j) == g(j) by {
            assert(vals(bases@)[j] == q[j]);
            assert(q[j] * p[j] == p[j] * q[j]) by (nonlinear_arith);
        }
        lemma_sum_eq(coeffs@.len() as int, f, g);
    }
    g2_msm(&bases, coeffs)
}

/// Whether the points are the given ones times a scalar.
pub open spec fn is_multiple_row(row: Seq<G1>, points: Seq<G1>, k: int) -> bool {
    &&& row.len() == points.len()
    &&& forall|i: int| 0 <= i < row.len() ==> (#[trigger] row[i])@ == (points[i]@ * k) % modulus()
}

/// Whether the rows of points are the given ones times a scalar.
pub open spec fn is_multiple_table(rows: Seq<Vec<G1>>, points: Seq<Vec<G1>>, k: int) -> bool {
    &&& rows.len() == points.len()
    &&& forall|i: int|
        0 <= i < rows.len() ==> is_multiple_row((#[trigger] rows[i])@, points[i]@, k)
}

/// All points times a scalar.
pub fn multiply_row(points: &Vec<G1>, k: &Scalar) -> (res: Vec<G1>)
    ensures
        is_multiple_row(res@, points@, k@),
{
    let mut res: Vec<G1> = Vec::new();
    let mut i: usize = 0;
    while i < points.len()
        invariant
            0 <= i <= points@.len(),
            res@.len() == i,
            forall|j: int| 0 <= j < i ==> (#[trigger] res@[j])@ == (points@[j]@ * k@) % modulus(),
        decreases points@.len() - i,
    {
        res.push(points[i].mul(k));
        i += 1;
    }
    res
}

/// All rows of points times a scalar.
pub fn multiply_table(points: &Vec<Vec<G1>>, k: &Scalar) -> (res: Vec<Vec<G1>>)
    ensures
        is_multiple_table(res@, points@, k@),
{
    let mut res: Vec<Vec<G1>> = Vec::new();
    let mut i: usize = 0;
    while i < points.len()
        invariant
            0 <= i <= points@.len(),
            res@.len() == i,
            forall|j: int|
                0 <= j < i ==> is_multiple_row((#[trigger] res@[j])@, points@[j]@, k@),
        decreases points@.len() - i,
    {
        res.push(multiply_row(&points[i], k));
        i += 1;
    }
    res
}

/// The coefficients of `f` from the second on, behind `n + 1` zeros.
pub open spec fn shifted_coeffs(f: Seq<int>, n: int) -> Seq<int> {
    Seq::new(
        (n + f.len()) as nat,
        |k: int|
            if k <= n {
                0
            } else {
                f[k - n]
            },
    )
}

/// The powers of `t`, from `n - 1` down to zero, times `c`, in front of `n` zeros.
pub open spec fn falling_powers(c: int, t: int, n: int) -> Seq<int> {
    Seq::new(
        (2 * n) as nat,
        |k: int|
            if k < n {
                c * pow(t, (n - 1 - k) as nat)
            } else {
                0
            },
    )
}

/// Whether `h` has, on the domain of size `2 * n`, the products of `y` with the values of the shifted
/// coefficients of `f`.
pub open spec fn is_opening_product(y: Seq<int>, f: Seq<int>, n: int, h: Seq<int>) -> bool {
    &&& h.len() == 2 * n
    &&& forall|k: int|
        0 <= k < 2 * n ==> eqm(
            #[trigger] dft(h, unity_root(2 * n), k),
            y[k] * dft(shifted_coeffs(f, n), unity_root(2 * n), k),
        )
}

/// Whether the results are the values, on the domain of size `n`, of the first half of such an `h`.
pub open spec fn are_openings(y: Seq<int>, f: Seq<int>, n: int, res: Seq<int>) -> bool {
    exists|h: Seq<int>| #[trigger]
        is_opening_product(y, f, n, h) && is_transform(h.subrange(0, n), res, n)
}

/// Opening proofs of the polynomial with coefficients `f` at all elements of the domain of size
/// `n`, from the preprocessed powers `y`.
pub fn open_all_values(y: &Vec<G1>, f: &Vec<Scalar>, n: usize) -> (res: Vec<G1>)
    requires
        is_domain_size(n as int),
        is_domain_size(2 * n as int),
        2 * n <= usize::MAX,
        y@.len() == 2 * n,
        1 <= f@.len() <= n,
    ensures
        res@.len() == n,
        are_openings(vals(y@), vals(f@), n as int, vals(res@)),
{
    let size: usize = 2 * n;
    let mut v: Vec<Scalar> = Vec::new();
    let mut i: usize = 0;
    while i < n + f.len()
        invariant
            0 <= i <= n + f@.len(),
            2 * n <= usize::MAX,
            f@.len() <= n,
            v@.len() == i,
            forall|k: int|
                0 <= k < i ==> (#[trigger] v@[k])@ == shifted_coeffs(vals(f@), n as int)[k],
        decreases n + f@.len() - i,
    {
        if i <= n {
            v.push(Scalar::zero());
        } else {
            assert(vals(f@)[i - n] == f@[i - n]@);
            v.push(f[i - n]);
        }
        i += 1;
    }
    assert(vals(v@) =~= shifted_coeffs(vals(f@), n as int));
    let v_hat = scalar_fft(&v, size);
    assert(v_hat@.len() == vals(v_hat@).len());

    let mut h_hat: Vec<G1> = Vec::new();
    let mut k: usize = 0;
    while k < size
        invariant
            0 <= k <= size,
            size == 2 * n,
            y@.len() == size,
            v_hat@.len() == size,
            h_hat@.len() == k,
            forall|m: int|
                0 <= m < k ==> (#[trigger] h_hat@[m])@ == (y@[m]@ * v_hat@[m]@) % modulus(),
        decreases size - k,
    {
        h_hat.push(y[k].mul(&v_hat[k]));
        k += 1;
    }
    let mut h = g1_ifft(&h_hat, size);
    let ghost full = vals(h@);
    proof {
        assert forall|m: int| 0 <= m < 2 * n implies eqm(
            #[trigger] dft(full, unity_root(2 * n as int), m),
            vals(y@)[m] * dft(shifted_coeffs(vals(f@), n as int), unity_root(2 * n as int), m),
        ) by {
            let d = dft(shifted_coeffs(vals(f@), n as int), unity_root(2 * n as int), m);
            assert(eqm(vals(h_hat@)[m], dft(full, unity_root(2 * n as int), m)));
            assert(vals(h_hat@)[m] == h_hat@[m]@);
            assert(eqm(vals(v_hat@)[m], d));
            assert(vals(v_hat@)[m] == v_hat@[m]@);
            lemma_eqm_mod(y@[m]@ * v_hat@[m]@);
            lemma_eqm_mul(y@[m]@, y@[m]@, v_hat@[m]@, d);
        }
        assert(is_opening_product(vals(y@), vals(f@), n as int, full));
    }
    h.truncate(n);
    assert(vals(h@) =~= full.subrange(0, n as int));
    let res = g1_fft(&h, n);
    assert(res@.len() == vals(res@).len());
    res
}

/// A sum in the opposite order.
proof fn lemma_sum_reverse(n: int, f: spec_fn(int) -> int)
    requires
        n >= 0,
    ensures
        sum(n, f) == sum(n, |i: int| f(n - 1 - i)),
    decreases n,
{
    if n > 0 {
        lemma_sum_reverse(n - 1, f);
        let g = |i: int| f(n - 1 - i);
        lemma_sum_first(n, g);
        lemma_sum_eq(n - 1, |i: int| g(i + 1), |i: int| f(n - 1 - 1 - i));
    }
}

/// A coefficient of the product with the falling powers is a coefficient of a quotient by a linear
/// factor.
proof fn lemma_toeplitz_term(f: Seq<int>, c: int, t: int, n: int, e: int)
    requires
        1 <= n,
        1 <= f.len() <= n,
        0 <= e < n,
    ensures
        cyclic_term(falling_powers(c, t, n), padded(shifted_coeffs(f, n), 2 * n), 2 * n, e) == c
            * quotient_coeff(f, t, n, e),
{
    let u = falling_powers(c, t, n);
    let v = padded(shifted_coeffs(f, n), 2 * n);
    let g = |p: int| u[p] * v[(e - p) % (2 * n)];
    assert forall|p: int| n <= p < 2 * n implies #[trigger] g(p) == 0 by {
        assert(0 * v[(e - p) % (2 * n)] == 0);
    }
    lemma_sum_trailing_zeros(n, 2 * n, g);
    lemma_sum_reverse(n, g);
    let r = |m: int| g(n - 1 - m);
    let q = |m: int| coeff(f, e + 1 + m) * pow(t, m as nat);
    let s = |m: int| c * q(m);
    assert forall|m: int| 0 <= m < n implies #[trigger] r(m) == s(m) by {
        let p = n - 1 - m;
        let d = e - p;
        let x = pow(t, m as nat);
        assert(u[p] == c * x);
        if d >= 0 {
            vstd::arithmetic::div_mod::lemma_small_mod(d as nat, (2 * n) as nat);
            assert(v[d] == 0);
            assert(c * x * 0 == 0);
            assert(coeff(f, e + 1 + m) == 0);
            assert(0 * x == 0);
            assert(c * 0 == 0);
        } else {
            vstd::arithmetic::div_mod::lemma_mod_add_multiples_vanish(d, 2 * n);
            vstd::arithmetic::div_mod::lemma_small_mod((d + 2 * n) as nat, (2 * n) as nat);
            assert(v[d + 2 * n] == coeff(f, e + 1 + m));
            let a = coeff(f, e + 1 + m);
            assert(c * x * a == c * (a * x)) by (nonlinear_arith);
        }
    }
    lemma_sum_eq(n, r, s);
    lemma_sum_scale(n, c, q);
}

/// From the transform of the falling powers of `t`, all opening proofs come out: the quotients of
/// the polynomial by `X - w^j`, at `t`.
pub proof fn lemma_all_openings(
    y: Seq<int>,
    f: Seq<int>,
    n: int,
    res: Seq<int>,
    c: int,
    t: int,
    j: int,
)
    requires
        is_domain_size(n),
        is_domain_size(2 * n),
        1 <= f.len() <= n,
        is_transform(falling_powers(c, t, n), y, 2 * n),
        are_openings(y, f, n, res),
        0 <= j < n,
    ensures
        eqm(res[j], c * eval(linear_quotient(f, pow(unity_root(n), j as nat), n), t)),
{
    let w2 = unity_root(2 * n);
    let w = unity_root(n);
    let h = choose|h: Seq<int>| #[trigger]
        is_opening_product(y, f, n, h) && is_transform(h.subrange(0, n), res, n);
    let u = falling_powers(c, t, n);
    let s = shifted_coeffs(f, n);
    let v = padded(s, 2 * n);
    let conv = cyclic(u, v, 2 * n);
    assert forall|k: int| 0 <= k < 2 * n implies eqm(
        #[trigger] dft(h, w2, k),
        dft(conv, w2, k),
    ) by {
        lemma_dft_padded(s, 2 * n, w2, k);
        assert(eqm(y[k], dft(u, w2, k)));
        lemma_eqm_mul(y[k], dft(u, w2, k), dft(v, w2, k), dft(v, w2, k));
        lemma_convolution(2 * n, u, v, k);
    }
    lemma_dft_injective(2 * n, h, conv);
    let first = h.subrange(0, n);
    let x = pow(w, j as nat);
    let lhs = |e: int| first[e] * pow(w, (e * j) as nat);
    let q = |e: int| quotient_coeff(f, t, n, e) * pow(x, e as nat);
    let rhs = |e: int| c * q(e);
    assert forall|e: int| 0 <= e < n implies eqm(#[trigger] lhs(e), rhs(e)) by {
        assert(eqm(h[e], conv[e]));
        lemma_toeplitz_term(f, c, t, n, e);
        lemma_pow_multiplies(w, j as nat, e as nat);
        assert((e * j) as nat == (j as nat) * (e as nat)) by (nonlinear_arith)
            requires
                0 <= e,
                0 <= j,
        ;
        let p = pow(x, e as nat);
        let a = quotient_coeff(f, t, n, e);
        lemma_eqm_mul(first[e], c * a, p, p);
        assert(c * a * p == c * (a * p)) by (nonlinear_arith);
    }
    lemma_sum_eqm(n, lhs, rhs);
    lemma_sum_scale(n, c, q);
    lemma_linear_quotient_swap(f, x, n, t);
    assert(eqm(res[j], dft(first, w, j)));
}

} // verus!
