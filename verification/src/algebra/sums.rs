//! Finite sums and products of integers.
use super::congruence::{eqm, lemma_eqm_add, lemma_eqm_mul};
use vstd::prelude::*;

verus! {

/// `f(0) + f(1) + ... + f(n - 1)`.
pub open spec fn sum(n: int, f: spec_fn(int) -> int) -> int
    decreases n,
{
    if n <= 0 {
        0
    } else {
        sum(n - 1, f) + f(n - 1)
    }
}

/// `f(0) * f(1) * ... * f(n - 1)`.
pub open spec fn product(n: int, f: spec_fn(int) -> int) -> int
    decreases n,
{
    if n <= 0 {
        1
    } else {
        product(n - 1, f) * f(n - 1)
    }
}

pub proof fn lemma_sum_eq(n: int, f: spec_fn(int) -> int, g: spec_fn(int) -> int)
    requires
        forall|i: int| 0 <= i < n ==> #[trigger] f(i) == g(i),
    ensures
        sum(n, f) == sum(n, g),
    decreases n,
{
    if n > 0 {
        lemma_sum_eq(n - 1, f, g);
        assert(f(n - 1) == g(n - 1));
    }
}

pub proof fn lemma_sum_eqm(n: int, f: spec_fn(int) -> int, g: spec_fn(int) -> int)
    requires
        forall|i: int| 0 <= i < n ==> eqm(#[trigger] f(i), g(i)),
    ensures
        eqm(sum(n, f), sum(n, g)),
    decreases n,
{
    if n > 0 {
        lemma_sum_eqm(n - 1, f, g);
        assert(eqm(f(n - 1), g(n - 1)));
        lemma_eqm_add(sum(n - 1, f), sum(n - 1, g), f(n - 1), g(n - 1));
    }
}

pub proof fn lemma_sum_add(n: int, f: spec_fn(int) -> int, g: spec_fn(int) -> int)
    ensures
        sum(n, |i: int| f(i) + g(i)) == sum(n, f) + sum(n, g),
    decreases n,
{
    if n > 0 {
        lemma_sum_add(n - 1, f, g);
    }
}

pub proof fn lemma_sum_sub(n: int, f: spec_fn(int) -> int, g: spec_fn(int) -> int)
    ensures
        sum(n, |i: int| f(i) - g(i)) == sum(n, f) - sum(n, g),
    decreases n,
{
    if n > 0 {
        lemma_sum_sub(n - 1, f, g);
    }
}

pub proof fn lemma_sum_scale(n: int, c: int, f: spec_fn(int) -> int)
    ensures
        sum(n, |i: int| c * f(i)) == c * sum(n, f),
    decreases n,
{
    if n > 0 {
        lemma_sum_scale(n - 1, c, f);
        assert(c * sum(n - 1, f) + c * f(n - 1) == c * (sum(n - 1, f) + f(n - 1)))
            by (nonlinear_arith);
    } else {
        assert(c * 0 == 0);
    }
}

pub proof fn lemma_sum_zero(n: int, f: spec_fn(int) -> int)
    requires
        forall|i: int| 0 <= i < n ==> #[trigger] f(i) == 0,
    ensures
        sum(n, f) == 0,
    decreases n,
{
    if n > 0 {
        lemma_sum_zero(n - 1, f);
        assert(f(n - 1) == 0);
    }
}

/// A sum in which only one term can be nonzero.
pub proof fn lemma_sum_single(n: int, k: int, f: spec_fn(int) -> int)
    requires
        0 <= k < n,
        forall|i: int| 0 <= i < n && i != k ==> #[trigger] f(i) == 0,
    ensures
        sum(n, f) == f(k),
    decreases n,
{
    if k == n - 1 {
        lemma_sum_zero(n - 1, f);
    } else {
        lemma_sum_single(n - 1, k, f);
        assert(f(n - 1) == 0);
    }
}

pub proof fn lemma_sum_split(n: int, m: int, f: spec_fn(int) -> int)
    requires
        0 <= n,
        0 <= m,
    ensures
        sum(n + m, f) == sum(n, f) + sum(m, |i: int| f(n + i)),
    decreases m,
{
    if m > 0 {
        lemma_sum_split(n, m - 1, f);
        let g = |i: int| f(n + i);
        assert(g(m - 1) == f(n + m - 1));
    }
}

pub proof fn lemma_sum_first(n: int, f: spec_fn(int) -> int)
    requires
        0 < n,
    ensures
        sum(n, f) == f(0) + sum(n - 1, |i: int| f(i + 1)),
{
    lemma_sum_split(1, n - 1, f);
    assert(sum(1, f) == f(0)) by {
        assert(sum(0, f) == 0);
    }
    lemma_sum_eq(n - 1, |i: int| f(1 + i), |i: int| f(i + 1));
}

/// Trailing zero terms do not change a sum.
pub proof fn lemma_sum_trailing_zeros(n: int, m: int, f: spec_fn(int) -> int)
    requires
        0 <= n <= m,
        forall|i: int| n <= i < m ==> #[trigger] f(i) == 0,
    ensures
        sum(m, f) == sum(n, f),
{
    lemma_sum_split(n, m - n, f);
    let g = |i: int| f(n + i);
    assert forall|i: int| 0 <= i < m - n implies #[trigger] g(i) == 0 by {
        assert(f(n + i) == 0);
    }
    lemma_sum_zero(m - n, g);
}

/// The order of summation does not matter.
pub proof fn lemma_sum_swap(n: int, m: int, f: spec_fn(int, int) -> int)
    ensures
        sum(n, |i: int| sum(m, |j: int| f(i, j))) == sum(m, |j: int| sum(n, |i: int| f(i, j))),
    decreases n,
{
    let rows = |i: int| sum(m, |j: int| f(i, j));
    if n <= 0 {
        let cols = |j: int| sum(n, |i: int| f(i, j));
        lemma_sum_zero(m, cols);
    } else {
        lemma_sum_swap(n - 1, m, f);
        let head = |j: int| sum(n - 1, |i: int| f(i, j));
        let last = |j: int| f(n - 1, j);
        let both = |j: int| head(j) + last(j);
        lemma_sum_add(m, head, last);
        assert(sum(n, rows) == sum(n - 1, rows) + rows(n - 1));
        assert(rows(n - 1) == sum(m, last)) by {
            lemma_sum_eq(m, |j: int| f(n - 1, j), last);
        }
        let cols = |j: int| sum(n, |i: int| f(i, j));
        assert forall|j: int| 0 <= j < m implies #[trigger] both(j) == cols(j) by {
            let col = |i: int| f(i, j);
            assert(sum(n, col) == sum(n - 1, col) + col(n - 1));
        }
        lemma_sum_eq(m, both, cols);
    }
}

/// Rotating the index of a sum over a whole cycle does not change it.
pub proof fn lemma_sum_rotate(n: int, s: int, f: spec_fn(int) -> int)
    requires
        0 <= s < n,
    ensures
        sum(n, |i: int| f((i + s) % n)) == sum(n, f),
{
    let g = |i: int| f((i + s) % n);
    lemma_sum_split(n - s, s, g);
    lemma_sum_split(s, n - s, f);
    let high = |i: int| f(s + i);
    assert forall|i: int| 0 <= i < n - s implies #[trigger] g(i) == high(i) by {
        vstd::arithmetic::div_mod::lemma_small_mod((i + s) as nat, n as nat);
    }
    lemma_sum_eq(n - s, g, high);
    let wrapped = |i: int| g(n - s + i);
    assert forall|i: int| 0 <= i < s implies #[trigger] wrapped(i) == f(i) by {
        assert((n - s + i + s) % n == i) by {
            vstd::arithmetic::div_mod::lemma_mod_add_multiples_vanish(i, n);
            vstd::arithmetic::div_mod::lemma_small_mod(i as nat, n as nat);
        }
    }
    lemma_sum_eq(s, wrapped, f);
}

pub proof fn lemma_product_eqm(n: int, f: spec_fn(int) -> int, g: spec_fn(int) -> int)
    requires
        forall|i: int| 0 <= i < n ==> eqm(#[trigger] f(i), g(i)),
    ensures
        eqm(product(n, f), product(n, g)),
    decreases n,
{
    if n > 0 {
        lemma_product_eqm(n - 1, f, g);
        assert(eqm(f(n - 1), g(n - 1)));
        lemma_eqm_mul(product(n - 1, f), product(n - 1, g), f(n - 1), g(n - 1));
    }
}

pub proof fn lemma_product_mul(n: int, f: spec_fn(int) -> int, g: spec_fn(int) -> int)
    ensures
        product(n, |i: int| f(i) * g(i)) == product(n, f) * product(n, g),
    decreases n,
{
    if n > 0 {
        lemma_product_mul(n - 1, f, g);
        let (p, q, a, b) = (product(n - 1, f), product(n - 1, g), f(n - 1), g(n - 1));
        assert((p * q) * (a * b) == (p * a) * (q * b)) by (nonlinear_arith);
    }
}

pub proof fn lemma_product_split(n: int, m: int, f: spec_fn(int) -> int)
    requires
        0 <= n,
        0 <= m,
    ensures
        product(n + m, f) == product(n, f) * product(m, |i: int| f(n + i)),
    decreases m,
{
    if m > 0 {
        lemma_product_split(n, m - 1, f);
        let g = |i: int| f(n + i);
        assert(g(m - 1) == f(n + m - 1));
        let (a, b, c) = (product(n, f), product(m - 1, g), g(m - 1));
        assert((a * b) * c == a * (b * c)) by (nonlinear_arith);
    } else {
        assert(product(n, f) * 1 == product(n, f));
    }
}

} // verus!
