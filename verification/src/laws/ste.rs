//! Laws of the reference string and the keys of the threshold scheme.
use crate::algebra::congruence::{eqm, lemma_eqm_mul, lemma_eqm_sub, lemma_reduced, modulus};
use crate::algebra::lagrange::{lagrange, lemma_lagrange_factor, lemma_size_inverse, size_inverse};
use crate::algebra::polynomial::{eval, is_quotient, lemma_quotient_exact, vanishing};
use crate::algebra::quotients::{
    cross_product, lemma_cross_product_value, lemma_cross_product_vanishes,
    lemma_linear_quotient_value, linear_quotient,
};
use crate::algebra::roots::unity_root;
use crate::algebra::sums::{lemma_sum_eq, sum};
use crate::field::{are_draws, vals, Scalar};
use crate::group::{lemma_g1_range, lemma_g2_range, G1};
use crate::ste::crs::{is_cross_value, is_generated_slot, CRS};
use crate::ste::decryption::lemma_lagrange_tail;
use crate::ste::utils::{falling_powers, lemma_all_openings, open_all_values};
use ark_std::rand::rngs::StdRng;
use vstd::arithmetic::power::pow;
use vstd::prelude::*;

verus! {

/// The shape of a reference string for `n` parties and `l` slots.
pub open spec fn has_shape(crs: &CRS, n: int, l: int) -> bool {
    &&& crs.n == n
    &&& crs.l == l
    &&& crs.gen_g@.len() == l
    &&& crs.gen_h@.len() == l
    &&& crs.powers_of_g@.len() == l
    &&& crs.powers_of_h@.len() == l
    &&& crs.li@.len() == l
    &&& crs.li_minus0@.len() == l
    &&& crs.li_x@.len() == l
    &&& crs.li_lj_z@.len() == l
    &&& crs.gamma_g2@.len() == l
    &&& crs.y@.len() == l
}

/// Whether a slot holds the powers of `t` on the base `a`, and the second secret on it.
pub open spec fn holds_slot_powers(crs: &CRS, k: int, a: int, t: int, gamma: int) -> bool {
    &&& crs.gen_g@[k]@ == a
    &&& crs.gen_h@[k]@ == a
    &&& crs.gamma_g2@[k]@ == (gamma * a) % modulus()
    &&& crs.powers_of_g@[k]@.len() == crs.n + 1
    &&& crs.powers_of_h@[k]@.len() == crs.n + 1
    &&& forall|i: int|
        0 <= i <= crs.n ==> (#[trigger] crs.powers_of_g@[k]@[i])@ == (a * pow(t, i as nat))
            % modulus()
    &&& forall|i: int|
        0 <= i <= crs.n ==> (#[trigger] crs.powers_of_h@[k]@[i])@ == (a * pow(t, i as nat))
            % modulus()
}

/// Whether a slot holds, for element `w^i` of the domain, what the basis polynomials are at `t`, on the
/// base `a`. They are told by what they are multiplied with: `n * (t - w^i) * L_i` is
/// `w^i * (t^n - 1)`, and a basis polynomial is `1 / n` at zero.
pub open spec fn holds_slot_basis(crs: &CRS, k: int, a: int, t: int, i: int) -> bool {
    let n = crs.n as int;
    let v = pow(unity_root(n), i as nat);
    let li = crs.li@[k]@[i]@;
    let x = crs.li_x@[k]@[i]@;
    let minus0 = crs.li_minus0@[k]@[i]@;
    &&& eqm(n * (li * (t - v)), a * (v * (pow(t, n as nat) - 1)))
    &&& eqm(n * (x * t), n * li - a)
    &&& eqm(minus0, x * (t * t))
}

/// Whether a slot holds, for two elements of the domain, the product of the two basis polynomials over
/// `t^n - 1`, less the basis polynomial itself where they are the same.
pub open spec fn holds_slot_cross(crs: &CRS, k: int, a: int, t: int, i: int, j: int) -> bool {
    let n = crs.n as int;
    let li = crs.li@[k]@[i]@;
    let lj = crs.li@[k]@[j]@;
    let c = crs.li_lj_z@[k]@[i]@[j]@;
    eqm(
        a * (c * (pow(t, n as nat) - 1)),
        if i == j {
            li * li - a * li
        } else {
            li * lj
        },
    )
}

/// Whether a slot holds the transform of the powers of `t` below the number of parties, highest first.
pub open spec fn holds_slot_transform(crs: &CRS, k: int, a: int, t: int) -> bool {
    let n = crs.n as int;
    &&& crs.y@[k]@.len() == 2 * n
    &&& forall|i: int|
        0 <= i < 2 * n ==> (#[trigger] crs.y@[k]@[i])@ == sum(
            n,
            |j: int|
                a * pow(t, (n - 1 - j) as nat) * pow(unity_root(2 * n), (j * i) as nat),
        ) % modulus()
}

/// Whether the reference string is that of `t`, `gamma` and the bases of the slots.
pub open spec fn holds_secrets(crs: &CRS, t: int, alphas: Seq<int>, gamma: int) -> bool {
    let n = crs.n as int;
    let l = crs.l as int;
    &&& forall|k: int| 0 <= k < l ==> #[trigger] holds_slot_powers(crs, k, alphas[k], t, gamma)
    &&& forall|k: int, i: int|
        0 <= k < l && 0 <= i < n ==> #[trigger] holds_slot_basis(crs, k, alphas[k], t, i)
    &&& forall|k: int, i: int, j: int|
        0 <= k < l && 0 <= i < n && 0 <= j < n ==> #[trigger] holds_slot_cross(
            crs,
            k,
            alphas[k],
            t,
            i,
            j,
        )
    &&& forall|k: int| 0 <= k < l ==> #[trigger] holds_slot_transform(crs, k, alphas[k], t)
}

proof fn lemma_slot_powers(crs: &CRS, k: int, a: int, t: int, gamma: int)
    requires
        crs.slot_wf(k),
        is_generated_slot(crs, k, a, t, gamma),
    ensures
        holds_slot_powers(crs, k, a, t, gamma),
{
    broadcast use lemma_g1_range, lemma_g2_range;

    lemma_reduced(crs.gamma_g2@[k]@);
    assert forall|i: int| 0 <= i <= crs.n implies (#[trigger] crs.powers_of_g@[k]@[i])@ == (a
        * pow(t, i as nat)) % modulus() by {
        assert(eqm(vals(crs.powers_of_g@[k]@)[i], a * pow(t, i as nat)));
        lemma_reduced(crs.powers_of_g@[k]@[i]@);
    }
    assert forall|i: int| 0 <= i <= crs.n implies (#[trigger] crs.powers_of_h@[k]@[i])@ == (a
        * pow(t, i as nat)) % modulus() by {
        assert(eqm(vals(crs.powers_of_h@[k]@)[i], a * pow(t, i as nat)));
        lemma_reduced(crs.powers_of_h@[k]@[i]@);
    }
}

proof fn lemma_slot_basis(crs: &CRS, k: int, a: int, t: int, gamma: int, i: int)
    requires
        crs.wf(),
        crs.slot_wf(k),
        is_generated_slot(crs, k, a, t, gamma),
        0 <= i < crs.n,
    ensures
        holds_slot_basis(crs, k, a, t, i),
{
    let n = crs.n as int;
    let v = pow(unity_root(n), i as nat);
    let z = pow(t, n as nat) - 1;
    let li = crs.li@[k]@[i]@;
    let x = crs.li_x@[k]@[i]@;
    let minus0 = crs.li_minus0@[k]@[i]@;
    let e = eval(lagrange(n, i), t);
    let f = eval(crate::ste::setup::lagrange_x(n, i), t);
    let inv = size_inverse(n);
    assert(eqm(vals(crs.li@[k]@)[i], a * e));
    assert(eqm(vals(crs.li_x@[k]@)[i], a * f));
    assert(eqm(
        vals(crs.li_minus0@[k]@)[i],
        a * eval(crate::ste::setup::lagrange_minus0(n, i), t),
    ));
    lemma_lagrange_factor(n, i, t);
    lemma_size_inverse(n);
    lemma_lagrange_tail(n, i, t);
    assert(eqm(n * (li * (t - v)), a * (v * z))) by {
        lemma_eqm_mul(li, a * e, t - v, t - v);
        lemma_eqm_mul(n, n, li * (t - v), a * e * (t - v));
        lemma_eqm_mul(n * a, n * a, e * (t - v), v * inv * z);
        assert(n * (a * e * (t - v)) == n * a * (e * (t - v))) by (nonlinear_arith);
        assert(n * a * (v * inv * z) == n * inv * (a * (v * z))) by (nonlinear_arith);
        lemma_eqm_mul(n * inv, 1, a * (v * z), a * (v * z));
    }
    assert(eqm(n * (x * t), n * li - a)) by {
        lemma_eqm_mul(x, a * f, t, t);
        lemma_eqm_mul(n, n, x * t, a * f * t);
        lemma_eqm_mul(n, n, li, a * e);
        lemma_eqm_mul(n * inv, 1, a, a);
        lemma_eqm_sub(n * li, n * (a * e), a, n * inv * a);
        assert(n * (a * (inv + t * f)) - n * inv * a == n * (a * f * t)) by (nonlinear_arith);
    }
    assert(eqm(minus0, x * (t * t))) by {
        lemma_eqm_mul(x, a * f, t * t, t * t);
        assert(a * (t * t * f) == a * f * (t * t)) by (nonlinear_arith);
    }
}

proof fn lemma_slot_cross(crs: &CRS, k: int, a: int, t: int, gamma: int, i: int, j: int)
    requires
        crs.wf(),
        crs.slot_wf(k),
        is_generated_slot(crs, k, a, t, gamma),
        0 <= i < crs.n,
        0 <= j < crs.n,
    ensures
        holds_slot_cross(crs, k, a, t, i, j),
{
    let n = crs.n as int;
    let z = pow(t, n as nat) - 1;
    let li = crs.li@[k]@[i]@;
    let lj = crs.li@[k]@[j]@;
    let row = crs.li_lj_z@[k]@[i]@;
    let c = row[j]@;
    let d = eval(lagrange(n, i), t);
    let e = eval(lagrange(n, j), t);
    assert(eqm(vals(crs.li@[k]@)[i], a * d));
    assert(eqm(vals(crs.li@[k]@)[j], a * e));
    assert(row.len() == n);
    assert(is_cross_value(vals(row)[j], n, i, j, a, t));
    let q = choose|q: Seq<int>| #[trigger]
        is_quotient(q, cross_product(n, i, j), vanishing(n)) && eqm(c, a * eval(q, t));
    assert forall|m: int| 0 <= m < n implies eqm(
        #[trigger] eval(cross_product(n, i, j), pow(unity_root(n), m as nat)),
        0,
    ) by {
        lemma_cross_product_vanishes(n, i, j, m);
    }
    lemma_quotient_exact(q, cross_product(n, i, j), n, t);
    lemma_cross_product_value(n, i, j, t);
    let p = eval(q, t);
    lemma_eqm_mul(c, a * p, z, z);
    lemma_eqm_mul(a, a, c * z, a * p * z);
    assert(a * (a * p * z) == a * a * (p * z)) by (nonlinear_arith);
    let x = eval(cross_product(n, i, j), t);
    lemma_eqm_mul(a * a, a * a, p * z, x);
    lemma_eqm_mul(li, a * d, lj, a * e);
    lemma_eqm_mul(li, a * d, li, a * d);
    lemma_eqm_mul(a, a, li, a * d);
    if i == j {
        assert(a * a * (d * d - d * 1) == a * d * (a * d) - a * (a * d)) by (nonlinear_arith);
        lemma_eqm_sub(li * li, a * d * (a * d), a * li, a * (a * d));
    } else {
        assert(a * a * (d * e - d * 0) == a * d * (a * e)) by (nonlinear_arith);
    }
}

proof fn lemma_slot_transform(crs: &CRS, k: int, a: int, t: int, gamma: int)
    requires
        crs.wf(),
        crs.slot_wf(k),
        is_generated_slot(crs, k, a, t, gamma),
    ensures
        holds_slot_transform(crs, k, a, t),
{
    broadcast use lemma_g1_range;

    let n = crs.n as int;
    let w = unity_root(2 * n);
    let u = falling_powers(a, t, n);
    assert forall|i: int| 0 <= i < 2 * n implies (#[trigger] crs.y@[k]@[i])@ == sum(
        n,
        |j: int| a * pow(t, (n - 1 - j) as nat) * pow(w, (j * i) as nat),
    ) % modulus() by {
        let f = |j: int| a * pow(t, (n - 1 - j) as nat) * pow(w, (j * i) as nat);
        let g = |j: int| u[j] * pow(w, (j * i) as nat);
        assert(eqm(vals(crs.y@[k]@)[i], sum(2 * n, g)));
        assert forall|j: int| n <= j < 2 * n implies #[trigger] g(j) == 0 by {
            let p = pow(w, (j * i) as nat);
            assert(0 * p == 0);
        }
        crate::algebra::sums::lemma_sum_trailing_zeros(n, 2 * n, g);
        lemma_sum_eq(n, f, g);
        lemma_reduced(crs.y@[k]@[i]@);
    }
}

proof fn lemma_secrets(crs: &CRS, l: int, t: int, alphas: Seq<int>, gamma: int)
    requires
        crs.is_generated(crs.n as int, l, t, alphas, gamma),
    ensures
        has_shape(crs, crs.n as int, l),
        holds_secrets(crs, t, alphas, gamma),
{
    let n = crs.n as int;
    assert forall|k: int| 0 <= k < l implies #[trigger] holds_slot_powers(
        crs,
        k,
        alphas[k],
        t,
        gamma,
    ) && holds_slot_transform(crs, k, alphas[k], t) by {
        assert(crs.slot_wf(k) && is_generated_slot(crs, k, alphas[k], t, gamma));
        lemma_slot_powers(crs, k, alphas[k], t, gamma);
        lemma_slot_transform(crs, k, alphas[k], t, gamma);
    }
    assert forall|k: int| 0 <= k < l implies #[trigger] holds_slot_transform(
        crs,
        k,
        alphas[k],
        t,
    ) by {
        assert(holds_slot_powers(crs, k, alphas[k], t, gamma));
    }
    assert forall|k: int, i: int| 0 <= k < l && 0 <= i < n implies #[trigger] holds_slot_basis(
        crs,
        k,
        alphas[k],
        t,
        i,
    ) by {
        assert(crs.slot_wf(k) && is_generated_slot(crs, k, alphas[k], t, gamma));
        lemma_slot_basis(crs, k, alphas[k], t, gamma, i);
    }
    assert forall|k: int, i: int, j: int|
        0 <= k < l && 0 <= i < n && 0 <= j < n implies #[trigger] holds_slot_cross(
        crs,
        k,
        alphas[k],
        t,
        i,
        j,
    ) by {
        assert(crs.slot_wf(k) && is_generated_slot(crs, k, alphas[k], t, gamma));
        lemma_slot_cross(crs, k, alphas[k], t, gamma, i, j);
    }
}

/// A reference string is that of the secrets that it is made from.
pub proof fn law_reference_string(
    n: usize,
    tau: Scalar,
    alphas: Vec<Scalar>,
    gamma: Scalar,
    crs: CRS,
)
    requires
        call_ensures(CRS::from_trapdoor, (n, &tau, &alphas, &gamma), crs),
    ensures
        has_shape(&crs, n as int, alphas@.len() as int),
        holds_secrets(&crs, tau@, vals(alphas@), gamma@),
{
    lemma_secrets(&crs, alphas@.len() as int, tau@, vals(alphas@), gamma@);
}

/// A new reference string is that of what the generator yields: first the secret, then the bases, then
/// the second secret.
pub proof fn law_new_reference_string(n: usize, l: usize, rng: &mut StdRng, crs: CRS)
    requires
        call_ensures(CRS::new, (n, l, rng), crs),
    ensures
        has_shape(&crs, n as int, l as int),
        exists|tau: Scalar, alphas: Seq<Scalar>, gamma: Scalar|
            alphas.len() == l && #[trigger] are_draws(
                *old(rng),
                *final(rng),
                seq![tau] + alphas + seq![gamma],
            ) && holds_secrets(&crs, tau@, vals(alphas), gamma@),
{
    let (tau, alphas, gamma) = choose|tau: Scalar, alphas: Seq<Scalar>, gamma: Scalar| #[trigger]
        are_draws(*old(rng), *final(rng), seq![tau] + alphas + seq![gamma]) && crs.is_generated(
            n as int,
            l as int,
            tau@,
            vals(alphas),
            gamma@,
        );
    lemma_secrets(&crs, l as int, tau@, vals(alphas), gamma@);
}

/// The preprocessed powers open a polynomial at all elements of the domain at once: each proof is the
/// slope between the element and the secret, on the base of the slot.
pub proof fn law_open_all_values(
    n: usize,
    tau: Scalar,
    alphas: Vec<Scalar>,
    gamma: Scalar,
    crs: CRS,
    k: int,
    coeffs: Vec<Scalar>,
    opens: Vec<G1>,
    j: int,
)
    requires
        call_ensures(CRS::from_trapdoor, (n, &tau, &alphas, &gamma), crs),
        0 <= k < alphas@.len(),
        1 <= coeffs@.len() <= n,
        call_ensures(open_all_values, (&crs.y@[k], &coeffs, n), opens),
        0 <= j < n,
    ensures
        opens@.len() == n,
        ({
            let f = vals(coeffs@);
            let x = pow(unity_root(n as int), j as nat);
            eqm(
                opens@[j]@ * (tau@ - x),
                alphas@[k]@ * (eval(f, tau@) - eval(f, x)),
            )
        }),
{
    let m = n as int;
    let f = vals(coeffs@);
    let x = pow(unity_root(m), j as nat);
    let a = alphas@[k]@;
    assert(vals(alphas@)[k] == a);
    assert(is_generated_slot(&crs, k, vals(alphas@)[k], tau@, gamma@));
    assert(crs.slot_wf(k));
    lemma_all_openings(vals(crs.y@[k]@), f, m, vals(opens@), a, tau@, j);
    let q = linear_quotient(f, x, m);
    lemma_linear_quotient_value(f, x, m, tau@);
    let e = eval(q, tau@);
    let d = tau@ - x;
    assert(vals(opens@)[j] == opens@[j]@);
    lemma_eqm_mul(opens@[j]@, a * e, d, d);
    assert(a * e * d == a * (d * e)) by (nonlinear_arith);
}

} // verus!
