//! The discrete Fourier transform over the two-adic roots of unity.
use super::congruence::{
    eqm, is_unit, lemma_eqm_mul, lemma_two_is_unit, lemma_unit_cancel, lemma_unit_mul,
};
use super::roots::{
    is_domain_size, is_power_of_two, lemma_geometric_sum_zero, lemma_root_periodic, unity_root,
};
use super::sums::{
    lemma_sum_eq, lemma_sum_eqm, lemma_sum_rotate, lemma_sum_scale, lemma_sum_single,
    lemma_sum_swap, lemma_sum_trailing_zeros, sum,
};
use vstd::arithmetic::power::{lemma_pow0, lemma_pow_adds, pow};
use vstd::prelude::*;

verus! {

/// The `k`-th coefficient of the Fourier transform of `a` with respect to the root `w`: the
/// value at `w^k` of the polynomial with the coefficients `a`.
pub open spec fn dft(a: Seq<int>, w: int, k: int) -> int {
    sum(a.len() as int, |j: int| a[j] * pow(w, (j * k) as nat))
}

/// `b` is the Fourier transform of `a` over the domain of size `n`.
pub open spec fn is_transform(a: Seq<int>, b: Seq<int>, n: int) -> bool {
    &&& b.len() == n
    &&& forall|k: int| 0 <= k < n ==> eqm(#[trigger] b[k], dft(a, unity_root(n), k))
}

/// The sequence `a`, filled up with zeros to length `n`.
pub open spec fn padded(a: Seq<int>, n: int) -> Seq<int> {
    Seq::new(
        n as nat,
        |i: int|
            if i < a.len() {
                a[i]
            } else {
                0
            },
    )
}

/// The `i`-th term of the cyclic convolution of two sequences of length `n`.
pub open spec fn cyclic_term(a: Seq<int>, b: Seq<int>, n: int, i: int) -> int {
    sum(n, |j: int| a[j] * b[(i - j) % n])
}

/// The cyclic convolution of two sequences of length `n`.
pub open spec fn cyclic(a: Seq<int>, b: Seq<int>, n: int) -> Seq<int> {
    Seq::new(n as nat, |i: int| cyclic_term(a, b, n, i))
}

pub proof fn lemma_power_of_two_is_unit(n: int)
    requires
        is_power_of_two(n),
    ensures
        is_unit(n),
    decreases n,
{
    if n == 1 {
        assert(super::congruence::inverse_of(1, 1));
    } else {
        lemma_power_of_two_is_unit(n / 2);
        lemma_two_is_unit();
        lemma_unit_mul(2, n / 2);
        assert(2 * (n / 2) == n);
    }
}

/// Filling up with zeros does not change the transform.
pub proof fn lemma_dft_padded(a: Seq<int>, n: int, w: int, k: int)
    requires
        a.len() <= n,
    ensures
        dft(padded(a, n), w, k) == dft(a, w, k),
{
    let f = |j: int| padded(a, n)[j] * pow(w, (j * k) as nat);
    let g = |j: int| a[j] * pow(w, (j * k) as nat);
    lemma_sum_eq(a.len() as int, f, g);
    assert forall|j: int| a.len() <= j < n implies #[trigger] f(j) == 0 by {
        assert(0 * pow(w, (j * k) as nat) == 0);
    }
    lemma_sum_trailing_zeros(a.len() as int, n, f);
}

/// Congruent sequences have congruent transforms.
pub proof fn lemma_dft_eqm(a: Seq<int>, b: Seq<int>, w: int, k: int)
    requires
        a.len() == b.len(),
        forall|i: int| 0 <= i < a.len() ==> eqm(#[trigger] a[i], b[i]),
    ensures
        eqm(dft(a, w, k), dft(b, w, k)),
{
    let f = |j: int| a[j] * pow(w, (j * k) as nat);
    let g = |j: int| b[j] * pow(w, (j * k) as nat);
    assert forall|j: int| 0 <= j < a.len() implies eqm(#[trigger] f(j), g(j)) by {
        assert(eqm(a[j], b[j]));
        lemma_eqm_mul(a[j], b[j], pow(w, (j * k) as nat), pow(w, (j * k) as nat));
    }
    lemma_sum_eqm(a.len() as int, f, g);
}

/// Multiplying a sequence by a constant multiplies its transform.
pub proof fn lemma_dft_scale(a: Seq<int>, c: int, w: int, k: int)
    ensures
        dft(Seq::new(a.len(), |i: int| c * a[i]), w, k) == c * dft(a, w, k),
{
    let b = Seq::new(a.len(), |i: int| c * a[i]);
    let f = |j: int| a[j] * pow(w, (j * k) as nat);
    let g = |j: int| b[j] * pow(w, (j * k) as nat);
    let h = |j: int| c * f(j);
    assert forall|j: int| 0 <= j < a.len() implies #[trigger] g(j) == h(j) by {
        let p = pow(w, (j * k) as nat);
        assert((c * a[j]) * p == c * (a[j] * p)) by (nonlinear_arith);
    }
    lemma_sum_eq(a.len() as int, g, h);
    lemma_sum_scale(a.len() as int, c, f);
}

/// Transforming back recovers `n` times the sequence.
pub proof fn lemma_dft_inversion(n: int, u: Seq<int>, i: int)
    requires
        is_domain_size(n),
        u.len() == n,
        0 <= i < n,
    ensures
        eqm(
            sum(
                n,
                |k: int|
                    dft(u, unity_root(n), k) * pow(unity_root(n), ((n - i) * k) as nat),
            ),
            n * u[i],
        ),
{
    let w = unity_root(n);
    let term = |k: int, j: int| u[j] * pow(w, ((j + n - i) * k) as nat);
    let lhs = |k: int| dft(u, w, k) * pow(w, ((n - i) * k) as nat);
    let rows = |k: int| sum(n, |j: int| term(k, j));
    assert forall|k: int| 0 <= k < n implies #[trigger] lhs(k) == rows(k) by {
        let c = pow(w, ((n - i) * k) as nat);
        let f = |j: int| u[j] * pow(w, (j * k) as nat);
        let g = |j: int| c * f(j);
        let row = |j: int| term(k, j);
        assert forall|j: int| 0 <= j < n implies #[trigger] g(j) == row(j) by {
            assert((j + n - i) * k == j * k + (n - i) * k) by (nonlinear_arith);
            assert(j * k >= 0 && (n - i) * k >= 0) by (nonlinear_arith)
                requires
                    j >= 0,
                    k >= 0,
                    n - i > 0,
            ;
            lemma_pow_adds(w, (j * k) as nat, ((n - i) * k) as nat);
            let p = pow(w, (j * k) as nat);
            assert(c * (u[j] * p) == u[j] * (p * c)) by (nonlinear_arith);
        }
        lemma_sum_eq(n, g, row);
        lemma_sum_scale(n, c, f);
        assert(c * sum(n, f) == sum(n, f) * c) by (nonlinear_arith);
    }
    lemma_sum_eq(n, lhs, rows);
    lemma_sum_swap(n, n, term);
    let cols = |j: int| sum(n, |k: int| term(k, j));
    let single = |j: int|
        if j == i {
            n * u[i]
        } else {
            0
        };
    assert forall|j: int| 0 <= j < n implies eqm(#[trigger] cols(j), single(j)) by {
        let m = (j + n - i) as nat;
        let powers = |k: int| pow(w, m * (k as nat));
        let scaled = |k: int| u[j] * powers(k);
        let col = |k: int| term(k, j);
        assert forall|k: int| 0 <= k < n implies #[trigger] col(k) == scaled(k) by {
            assert(((j + n - i) * k) as nat == m * (k as nat));
        }
        lemma_sum_eq(n, col, scaled);
        lemma_sum_scale(n, u[j], powers);
        if j == i {
            let ones = |k: int| 1int;
            assert forall|k: int| 0 <= k < n implies eqm(#[trigger] powers(k), ones(k)) by {
                lemma_root_periodic(n, 0, k as nat);
                lemma_pow0(w);
                assert(m * (k as nat) == 0 + (k as nat) * (n as nat)) by (nonlinear_arith)
                    requires
                        m == n as nat,
                ;
            }
            lemma_sum_eqm(n, powers, ones);
            lemma_sum_ones(n);
            lemma_eqm_mul(u[j], u[j], sum(n, powers), n);
            assert(u[j] * n == n * u[j]) by (nonlinear_arith);
        } else {
            assert(m as int % n != 0) by {
                if j > i {
                    vstd::arithmetic::div_mod::lemma_mod_add_multiples_vanish(j - i, n);
                    vstd::arithmetic::div_mod::lemma_small_mod((j - i) as nat, n as nat);
                    assert(m as int == n + (j - i));
                } else {
                    vstd::arithmetic::div_mod::lemma_small_mod(m, n as nat);
                }
            }
            lemma_geometric_sum_zero(n, m);
            lemma_eqm_mul(u[j], u[j], sum(n, powers), 0);
            assert(u[j] * 0 == 0);
        }
    }
    lemma_sum_eqm(n, cols, single);
    lemma_sum_single(n, i, single);
}

proof fn lemma_sum_ones(n: int)
    requires
        0 <= n,
    ensures
        sum(n, |k: int| 1int) == n,
    decreases n,
{
    if n > 0 {
        lemma_sum_ones(n - 1);
    }
}

/// Sequences with the same transform are congruent.
pub proof fn lemma_dft_injective(n: int, u: Seq<int>, v: Seq<int>)
    requires
        is_domain_size(n),
        u.len() == n,
        v.len() == n,
        forall|k: int|
            0 <= k < n ==> eqm(
                #[trigger] dft(u, unity_root(n), k),
                dft(v, unity_root(n), k),
            ),
    ensures
        forall|i: int| 0 <= i < n ==> eqm(#[trigger] u[i], v[i]),
{
    let w = unity_root(n);
    assert forall|i: int| 0 <= i < n implies eqm(#[trigger] u[i], v[i]) by {
        let f = |k: int| dft(u, w, k) * pow(w, ((n - i) * k) as nat);
        let g = |k: int| dft(v, w, k) * pow(w, ((n - i) * k) as nat);
        assert forall|k: int| 0 <= k < n implies eqm(#[trigger] f(k), g(k)) by {
            let p = pow(w, ((n - i) * k) as nat);
            assert(eqm(dft(u, w, k), dft(v, w, k)));
            lemma_eqm_mul(dft(u, w, k), dft(v, w, k), p, p);
        }
        lemma_sum_eqm(n, f, g);
        lemma_dft_inversion(n, u, i);
        lemma_dft_inversion(n, v, i);
        lemma_power_of_two_is_unit(n);
        lemma_unit_cancel(n, u[i], v[i]);
    }
}

/// The transform of a cyclic convolution is the product of the transforms.
pub proof fn lemma_convolution(n: int, a: Seq<int>, b: Seq<int>, k: int)
    requires
        is_domain_size(n),
        a.len() == n,
        b.len() == n,
        0 <= k < n,
    ensures
        eqm(
            dft(cyclic(a, b, n), unity_root(n), k),
            dft(a, unity_root(n), k) * dft(b, unity_root(n), k),
        ),
{
    let w = unity_root(n);
    let c = cyclic(a, b, n);
    let term = |i: int, j: int| (a[j] * b[(i - j) % n]) * pow(w, (i * k) as nat);
    let lhs = |i: int| c[i] * pow(w, (i * k) as nat);
    let rows = |i: int| sum(n, |j: int| term(i, j));
    assert forall|i: int| 0 <= i < n implies #[trigger] lhs(i) == rows(i) by {
        let p = pow(w, (i * k) as nat);
        let f = |j: int| a[j] * b[(i - j) % n];
        let g = |j: int| p * f(j);
        let row = |j: int| term(i, j);
        assert forall|j: int| 0 <= j < n implies #[trigger] g(j) == row(j) by {
            assert(p * f(j) == f(j) * p) by (nonlinear_arith);
        }
        lemma_sum_eq(n, g, row);
        lemma_sum_scale(n, p, f);
        assert(p * sum(n, f) == sum(n, f) * p) by (nonlinear_arith);
    }
    lemma_sum_eq(n, lhs, rows);
    lemma_sum_swap(n, n, term);
    let db = dft(b, w, k);
    let fa = |j: int| a[j] * pow(w, (j * k) as nat);
    let cols = |j: int| sum(n, |i: int| term(i, j));
    let goal = |j: int| db * fa(j);
    assert forall|j: int| 0 <= j < n implies eqm(#[trigger] cols(j), goal(j)) by {
        let col = |i: int| term(i, j);
        let wj = pow(w, (j * k) as nat);
        let fb = |l: int| b[l] * pow(w, (l * k) as nat);
        let h = |l: int| fa(j) * fb(l);
        let s = (n - j) % n;
        vstd::arithmetic::div_mod::lemma_mod_bound(n - j, n);
        let turned = |i: int| h((i + s) % n);
        assert forall|i: int| 0 <= i < n implies eqm(#[trigger] col(i), turned(i)) by {
            let l = (i - j) % n;
            vstd::arithmetic::div_mod::lemma_add_mod_noop_right(i, n - j, n);
            vstd::arithmetic::div_mod::lemma_mod_add_multiples_vanish(i - j, n);
            assert(i + (n - j) == n + (i - j));
            assert((i + s) % n == l);
            // l + j is i, or i + n where i < j.
            let r: int = if i >= j {
                0
            } else {
                1
            };
            assert(l == i - j + r * n) by {
                if i >= j {
                    vstd::arithmetic::div_mod::lemma_small_mod((i - j) as nat, n as nat);
                } else {
                    vstd::arithmetic::div_mod::lemma_small_mod((i - j + n) as nat, n as nat);
                }
            }
            assert(l * k + j * k == i * k + (r * k) * n) by (nonlinear_arith)
                requires
                    l == i - j + r * n,
            ;
            assert(l * k >= 0 && j * k >= 0 && i * k >= 0 && r * k >= 0) by (nonlinear_arith)
                requires
                    l >= 0,
                    j >= 0,
                    i >= 0,
                    k >= 0,
                    r >= 0,
            ;
            lemma_root_periodic(n, (i * k) as nat, (r * k) as nat);
            lemma_pow_adds(w, (l * k) as nat, (j * k) as nat);
            assert(((l * k) as nat + (j * k) as nat) as nat == (i * k) as nat + ((r * k) as nat) * (
            n as nat));
            let wl = pow(w, (l * k) as nat);
            let wi = pow(w, (i * k) as nat);
            assert(eqm(wl * wj, wi));
            lemma_eqm_mul(a[j] * b[l], a[j] * b[l], wi, wl * wj);
            assert((a[j] * b[l]) * (wl * wj) == (a[j] * wj) * (b[l] * wl)) by (nonlinear_arith);
        }
        lemma_sum_eqm(n, col, turned);
        lemma_sum_rotate(n, s, h);
        lemma_sum_scale(n, fa(j), fb);
        assert(fa(j) * db == db * fa(j)) by (nonlinear_arith);
    }
    lemma_sum_eqm(n, cols, goal);
    lemma_sum_scale(n, db, fa);
    assert(db * dft(a, w, k) == dft(a, w, k) * db) by (nonlinear_arith);
}

} // verus!
