//! Decryption from partial decryptions.
use crate::algebra::congruence::{
    eqm, lemma_eqm_add, lemma_eqm_mod, lemma_eqm_mul, lemma_eqm_sub, lemma_modulus, lemma_reduced,
    modulus,
};
use crate::algebra::lagrange::{
    basis_terms, indicator, lagrange, lemma_interpolation, lemma_size_inverse, size_inverse,
};
use crate::algebra::polynomial::{
    coeff, commitment, eval, is_quotient, is_trimmed, lemma_commitment_same, lemma_commitment_value,
    lemma_eval_mul, lemma_eval_same, lemma_quotient_exact, poly_mul, same_poly, vanishing,
};
use crate::algebra::quotients::{
    cross_product, lemma_cross_product_value, lemma_cross_product_vanishes, lemma_mul_same,
};
use crate::algebra::roots::{is_domain_size, lemma_root_order, unity_root};
use crate::algebra::sums::{
    lemma_sum_add, lemma_sum_eq, lemma_sum_eqm, lemma_sum_first, lemma_sum_scale, lemma_sum_single,
    sum,
};
use crate::field::{domain_generator, vals, Scalar};
use crate::group::{g1_msm, inner_product, pairing, G1, Gt};
use crate::poly::Poly;
use crate::ste::aggregate::{cross_terms, is_cross_sum_row, key_terms, AggregateKey, EncryptionKey};
use crate::ste::crs::{are_cross_values, is_cross_value, is_generated_slot, CRS};
use crate::ste::encryption::{ct_value, sa1_value, sa2_value, Ciphertext};
use crate::ste::setup::{lagrange_minus0, lagrange_x, LagPublicKey, PartialDecryption, SecretKey};
use crate::ste::utils::{commit, commit_g2, is_multiple_row};
use vstd::arithmetic::power::{lemma_pow0, lemma_pow1, lemma_pow_adds, pow};
use vstd::prelude::*;

verus! {

/// How many of the first `k` parties are selected.
pub open spec fn selected_count(selector: Seq<bool>, k: int) -> int
    decreases k,
{
    if k <= 0 {
        0
    } else {
        selected_count(selector, k - 1) + if selector[k - 1] {
            1int
        } else {
            0int
        }
    }
}

/// `1 - X / w^i`, for the domain of size `n`.
pub open spec fn root_factor(n: int, i: int) -> Seq<int> {
    seq![1, -pow(unity_root(n), (n - i) as nat)]
}

/// The polynomial that is one at zero, and zero at the elements of the domain that belong to parties
/// among the first `k` that are not selected.
pub open spec fn selector_poly(selector: Seq<bool>, n: int, k: int) -> Seq<int>
    decreases k,
{
    if k <= 0 {
        seq![1]
    } else if selector[k - 1] {
        selector_poly(selector, n, k - 1)
    } else {
        poly_mul(selector_poly(selector, n, k - 1), root_factor(n, k - 1))
    }
}

/// The polynomial without its constant coefficient, divided by `X`.
pub open spec fn tail(b: Seq<int>) -> Seq<int> {
    Seq::new(
        if b.len() == 0 {
            0
        } else {
            (b.len() - 1) as nat
        },
        |i: int| b[i + 1],
    )
}

/// The value of a polynomial at the element `i` of the domain.
pub open spec fn at_root(b: Seq<int>, n: int, i: int) -> int {
    eval(b, pow(unity_root(n), i as nat))
}

/// The terms of a sum over the domain, weighted by the values of a polynomial.
pub open spec fn weighted(b: Seq<int>, n: int, f: spec_fn(int) -> int) -> spec_fn(int) -> int {
    |i: int| at_root(b, n, i) * f(i)
}

/// A sum over the domain, weighted by the values of a polynomial.
pub open spec fn weighted_sum(b: Seq<int>, n: int, f: spec_fn(int) -> int) -> int {
    sum(n, weighted(b, n, f))
}

/// The points from index `t` on.
pub open spec fn points_from(points: Seq<int>, t: int) -> Seq<int> {
    Seq::new((points.len() - t) as nat, |i: int| points[t + i])
}

/// The partial decryptions of the parties.
pub open spec fn pd_terms(pds: Seq<PartialDecryption>) -> spec_fn(int) -> int {
    |i: int| pds[i].pd@
}

/// The keys of the parties on the base of a slot.
pub open spec fn bls_terms(pk: Seq<LagPublicKey>, k: int) -> spec_fn(int) -> int {
    |i: int| pk[i].bls_pk@[k]@
}

pub open spec fn x_terms(pk: Seq<LagPublicKey>, k: int) -> spec_fn(int) -> int {
    |i: int| pk[i].sk_li_x@[k]@
}

pub open spec fn minus0_terms(pk: Seq<LagPublicKey>, k: int) -> spec_fn(int) -> int {
    |i: int| pk[i].sk_li_minus0@[k]@
}

pub open spec fn agg_terms(row: Seq<G1>) -> spec_fn(int) -> int {
    |j: int| row[j]@
}

/// What masks the message of a slot, by the pairing equation of the scheme, for the polynomial `b`
/// of the selected parties.
pub open spec fn slot_mask(
    crs: &CRS,
    key: &AggregateKey,
    pds: Seq<PartialDecryption>,
    c: &Ciphertext,
    b: Seq<int>,
    k: int,
) -> int {
    let n = crs.n as int;
    let inv = size_inverse(n);
    let sa2 = vals(c.sa2@);
    let g = vals(crs.powers_of_g@[k]@);
    vals(c.sa1@)[0] * commitment(b, vals(crs.powers_of_h@[k]@)) - (inv * weighted_sum(
        b,
        n,
        bls_terms(key.pk@, k),
    )) * sa2[0] + (inv * weighted_sum(b, n, pd_terms(pds))) * crs.gamma_g2@[k]@ - weighted_sum(
        b,
        n,
        agg_terms(key.agg_sk_li_lj_z@[k]@),
    ) * sa2[1] - weighted_sum(b, n, x_terms(key.pk@, k)) * sa2[2] + weighted_sum(
        b,
        n,
        minus0_terms(key.pk@, k),
    ) * sa2[3] - commitment(b, points_from(g, c.t as int)) * sa2[4] - commitment(tail(b), g)
        * sa2[5]
}

/// Whether the messages are the masked ones less their masks.
pub open spec fn is_decryption(
    res: Seq<int>,
    crs: &CRS,
    key: &AggregateKey,
    pds: Seq<PartialDecryption>,
    c: &Ciphertext,
    selector: Seq<bool>,
) -> bool {
    &&& res.len() == c.ct@.len()
    &&& forall|k: int|
        0 <= k < res.len() ==> eqm(
            #[trigger] res[k],
            c.ct@[k]@ - slot_mask(
                crs,
                key,
                pds,
                c,
                selector_poly(selector, crs.n as int, crs.n as int),
                k,
            ),
        )
}

/// The polynomial of the selected parties.
fn selector_polynomial(selector: &[bool], n: usize, w: &Scalar) -> (res: Poly)
    requires
        selector@.len() == n,
        n <= 0x8000_0000,
        w@ == unity_root(n as int),
    ensures
        same_poly(res@, selector_poly(selector@, n as int, n as int)),
        is_trimmed(res@),
        res@.len() <= n - selected_count(selector@, n as int) + 1,
{
    let mut one: Vec<Scalar> = Vec::new();
    one.push(Scalar::one());
    let mut b = Poly::from_coefficients_vec(one);
    proof {
        assert(vals(one@) =~= selector_poly(selector@, n as int, 0));
    }
    let mut i: usize = 0;
    while i < n
        invariant
            0 <= i <= n,
            n <= 0x8000_0000,
            selector@.len() == n,
            w@ == unity_root(n as int),
            same_poly(b@, selector_poly(selector@, n as int, i as int)),
            is_trimmed(b@),
            0 <= selected_count(selector@, i as int),
            b@.len() <= i - selected_count(selector@, i as int) + 1,
        decreases n - i,
    {
        if !selector[i] {
            let root = w.pow((n - i) as u64);
            let mut factor_coeffs: Vec<Scalar> = Vec::new();
            factor_coeffs.push(Scalar::one());
            factor_coeffs.push(root.neg());
            let factor = Poly::from_coefficients_vec(factor_coeffs);
            let next = b.mul(&factor);
            proof {
                let f = root_factor(n as int, i as int);
                let v = vals(factor_coeffs@);
                assert forall|k: int| eqm(#[trigger] coeff(factor@, k), coeff(f, k)) by {
                    assert(eqm(coeff(factor@, k), coeff(v, k)));
                    if k == 0 {
                        assert(v[0] == factor_coeffs@[0]@);
                    } else if k == 1 {
                        assert(v[1] == factor_coeffs@[1]@);
                        let p = pow(w@, (n - i) as nat);
                        lemma_eqm_mod(p);
                        lemma_eqm_sub(0, 0, root@, p);
                        lemma_eqm_mod(-root@);
                    }
                }
                let before = selector_poly(selector@, n as int, i as int);
                lemma_mul_same(b@, before, factor@, f);
                let after = poly_mul(before, f);
                assert forall|k: int| eqm(#[trigger] coeff(next@, k), coeff(after, k)) by {
                    assert(eqm(coeff(next@, k), coeff(poly_mul(b@, factor@), k)));
                    assert(eqm(coeff(poly_mul(b@, factor@), k), coeff(after, k)));
                }
            }
            b = next;
        }
        i += 1;
    }
    b
}

/// The values of a polynomial at the elements of the domain.
fn domain_values(b: &Poly, n: usize, w: &Scalar) -> (res: Vec<Scalar>)
    requires
        n <= 0x8000_0000,
        w@ == unity_root(n as int),
    ensures
        res@.len() == n,
        forall|i: int| 0 <= i < n ==> eqm((#[trigger] res@[i])@, at_root(b@, n as int, i)),
{
    let mut res: Vec<Scalar> = Vec::new();
    let mut i: usize = 0;
    while i < n
        invariant
            0 <= i <= n,
            n <= 0x8000_0000,
            w@ == unity_root(n as int),
            res@.len() == i,
            forall|k: int| 0 <= k < i ==> eqm((#[trigger] res@[k])@, at_root(b@, n as int, k)),
        decreases n - i,
    {
        let x = w.pow(i as u64);
        let v = b.evaluate(&x);
        proof {
            lemma_eqm_mod(pow(w@, i as nat));
            crate::algebra::polynomial::lemma_eval_point(b@, x@, pow(w@, i as nat));
            lemma_eqm_mod(eval(b@, x@));
        }
        res.push(v);
        i += 1;
    }
    res
}

/// The sum of the points, weighted by the values of a polynomial.
fn weigh(points: &Vec<G1>, values: &Vec<Scalar>, b: Ghost<Seq<int>>, f: Ghost<spec_fn(int) -> int>)
    -> (res: G1)
    requires
        points@.len() == values@.len(),
        forall|i: int|
            0 <= i < values@.len() ==> eqm(
                (#[trigger] values@[i])@,
                at_root(b@, values@.len() as int, i),
            ),
        forall|i: int| 0 <= i < points@.len() ==> (#[trigger] points@[i])@ == f@(i),
    ensures
        eqm(res@, weighted_sum(b@, values@.len() as int, f@)),
{
    let res = g1_msm(points, values);
    proof {
        let n = values@.len() as int;
        let u = |i: int| vals(points@)[i] * vals(values@)[i];
        let v = weighted(b@, n, f@);
        assert forall|i: int| 0 <= i < n implies eqm(#[trigger] u(i), v(i)) by {
            let x = at_root(b@, n, i);
            assert(points@[i]@ == f@(i));
            lemma_eqm_mul(f@(i), f@(i), values@[i]@, x);
            assert(f@(i) * x == x * f@(i)) by (nonlinear_arith);
        }
        lemma_sum_eqm(n, u, v);
        lemma_eqm_mod(inner_product(vals(points@), vals(values@)));
    }
    res
}

/// Decrypts the messages of all slots from the partial decryptions of the selected parties, of
/// which there are at least as many as the threshold of the ciphertext asks for.
pub fn agg_dec(
    partial_decryptions: &Vec<PartialDecryption>,
    ct: &Ciphertext,
    selector: &[bool],
    agg_key: &AggregateKey,
    crs: &CRS,
) -> (res: Vec<Gt>)
    requires
        crs.wf(),
        agg_key.wf(crs.n as int, crs.l as int),
        partial_decryptions@.len() == crs.n,
        selector@.len() == crs.n,
        ct.ct@.len() <= crs.l,
        ct.t <= selected_count(selector@, crs.n as int),
    ensures
        is_decryption(vals(res@), crs, agg_key, partial_decryptions@, ct, selector@),
{
    let n: usize = crs.n;
    let w = domain_generator(n);
    let b = selector_polynomial(selector, n, &w);
    let values = domain_values(&b, n, &w);
    let n_inv = size_inverse_scalar(n);

    let mut pds: Vec<G1> = Vec::new();
    let mut i: usize = 0;
    while i < n
        invariant
            0 <= i <= n,
            partial_decryptions@.len() == n,
            pds@.len() == i,
            forall|j: int|
                0 <= j < i ==> (#[trigger] pds@[j])@ == pd_terms(partial_decryptions@)(j),
        decreases n - i,
    {
        pds.push(partial_decryptions[i].pd);
        i += 1;
    }
    let pd_sum = weigh(&pds, &values, Ghost(b@), Ghost(pd_terms(partial_decryptions@)));
    let sigma = pd_sum.mul(&n_inv);

    let mut res: Vec<Gt> = Vec::new();
    let mut k: usize = 0;
    while k < ct.ct.len()
        invariant
            0 <= k <= ct.ct@.len(),
            n == crs.n,
            crs.wf(),
            agg_key.wf(crs.n as int, crs.l as int),
            ct.ct@.len() <= crs.l,
            ct.t <= selected_count(selector@, n as int),
            values@.len() == n,
            forall|j: int|
                0 <= j < n ==> eqm((#[trigger] values@[j])@, at_root(b@, n as int, j)),
            eqm(n_inv@, size_inverse(n as int)),
            eqm(pd_sum@, weighted_sum(b@, n as int, pd_terms(partial_decryptions@))),
            sigma@ == (pd_sum@ * n_inv@) % modulus(),
            b@.len() <= n - selected_count(selector@, n as int) + 1,
            res@.len() == k,
            forall|j: int|
                0 <= j < k ==> eqm(
                    (#[trigger] res@[j])@,
                    ct.ct@[j]@ - slot_mask(crs, agg_key, partial_decryptions@, ct, b@, j),
                ),
        decreases ct.ct@.len() - k,
    {
        let mask = slot_mask_point(&b, &values, &n_inv, &sigma, ct, agg_key, crs, k,
            Ghost(partial_decryptions@), Ghost(pd_sum@));
        proof {
            let m = slot_mask(crs, agg_key, partial_decryptions@, ct, b@, k as int);
            let c = ct.ct@[k as int]@;
            lemma_eqm_sub(c, c, mask@, m);
            lemma_eqm_mod(c - mask@);
        }
        res.push(ct.ct[k].sub(&mask));
        k += 1;
    }
    proof {
        let s = selector_poly(selector@, n as int, n as int);
        assert forall|j: int| 0 <= j < ct.ct@.len() implies eqm(
            #[trigger] vals(res@)[j],
            ct.ct@[j]@ - slot_mask(crs, agg_key, partial_decryptions@, ct, s, j),
        ) by {
            assert(eqm(
                res@[j]@,
                ct.ct@[j]@ - slot_mask(crs, agg_key, partial_decryptions@, ct, b@, j),
            ));
            lemma_slot_mask_same(crs, agg_key, partial_decryptions@, ct, b@, s, j);
            let x = slot_mask(crs, agg_key, partial_decryptions@, ct, b@, j);
            let y = slot_mask(crs, agg_key, partial_decryptions@, ct, s, j);
            lemma_eqm_sub(ct.ct@[j]@, ct.ct@[j]@, x, y);
        }
    }
    res
}

/// The inverse of the size of a domain.
fn size_inverse_scalar(n: usize) -> (res: Scalar)
    requires
        is_domain_size(n as int),
    ensures
        eqm(res@, size_inverse(n as int)),
{
    let size = Scalar::from_u64(n as u64);
    proof {
        crate::algebra::fourier::lemma_power_of_two_is_unit(n as int);
        crate::algebra::congruence::lemma_unit_nonzero(n as int);
        lemma_modulus();
        lemma_reduced(n as int);
        lemma_reduced(1);
        lemma_size_inverse(n as int);
    }
    match size.inverse() {
        Some(inv) => {
            proof {
                crate::algebra::congruence::lemma_unit_cancel(
                    n as int,
                    inv@,
                    size_inverse(n as int),
                );
            }
            inv
        },
        None => Scalar::zero(),
    }
}

proof fn lemma_product(x: int, xx: int, y: int, yy: int)
    requires
        eqm(x, xx),
        eqm(y, yy),
    ensures
        eqm((x * y) % modulus(), xx * yy),
{
    lemma_eqm_mul(x, xx, y, yy);
    lemma_eqm_mod(x * y);
}

proof fn lemma_plus(x: int, xx: int, y: int, yy: int)
    requires
        eqm(x, xx),
        eqm(y, yy),
    ensures
        eqm((x + y) % modulus(), xx + yy),
{
    lemma_eqm_add(x, xx, y, yy);
    lemma_eqm_mod(x + y);
}

proof fn lemma_minus(x: int, xx: int, y: int, yy: int)
    requires
        eqm(x, xx),
        eqm(y, yy),
    ensures
        eqm((x - y) % modulus(), xx - yy),
{
    lemma_eqm_sub(x, xx, y, yy);
    lemma_eqm_mod(x - y);
}

/// The points from index `t` on.
fn take_from(points: &Vec<G1>, t: usize) -> (res: Vec<G1>)
    requires
        t <= points@.len(),
    ensures
        vals(res@) == points_from(vals(points@), t as int),
{
    let mut res: Vec<G1> = Vec::new();
    let mut i: usize = t;
    while i < points.len()
        invariant
            t <= i <= points@.len(),
            res@ == points@.subrange(t as int, i as int),
        decreases points@.len() - i,
    {
        res.push(points[i]);
        i += 1;
    }
    assert(vals(res@) =~= points_from(vals(points@), t as int));
    res
}

/// The coefficients from the second on.
fn drop_constant(coeffs: &Vec<Scalar>) -> (res: Vec<Scalar>)
    ensures
        vals(res@) == tail(vals(coeffs@)),
{
    let mut res: Vec<Scalar> = Vec::new();
    let mut i: usize = 1;
    while i < coeffs.len()
        invariant
            1 <= i,
            coeffs@.len() >= 1 ==> i <= coeffs@.len(),
            coeffs@.len() == 0 ==> i == 1 && res@.len() == 0,
            coeffs@.len() >= 1 ==> res@ == coeffs@.subrange(1, i as int),
        decreases coeffs@.len() - i,
    {
        res.push(coeffs[i]);
        i += 1;
    }
    assert(vals(res@) =~= tail(vals(coeffs@)));
    res
}

/// The hints of the parties for a slot.
fn party_points(pk: &Vec<LagPublicKey>, n: usize, l: Ghost<int>, k: usize) -> (res: (
    Vec<G1>,
    Vec<G1>,
    Vec<G1>,
))
    requires
        pk@.len() == n,
        forall|i: int| 0 <= i < n ==> (#[trigger] pk@[i]).wf(n as int, l@),
        k < l@,
    ensures
        res.0@.len() == n,
        res.1@.len() == n,
        res.2@.len() == n,
        forall|i: int| 0 <= i < n ==> (#[trigger] res.0@[i])@ == bls_terms(pk@, k as int)(i),
        forall|i: int| 0 <= i < n ==> (#[trigger] res.1@[i])@ == x_terms(pk@, k as int)(i),
        forall|i: int| 0 <= i < n ==> (#[trigger] res.2@[i])@ == minus0_terms(pk@, k as int)(i),
{
    let mut bls: Vec<G1> = Vec::new();
    let mut xs: Vec<G1> = Vec::new();
    let mut minus0s: Vec<G1> = Vec::new();
    let mut i: usize = 0;
    while i < n
        invariant
            0 <= i <= n,
            pk@.len() == n,
            forall|j: int| 0 <= j < n ==> (#[trigger] pk@[j]).wf(n as int, l@),
            k < l@,
            bls@.len() == i,
            xs@.len() == i,
            minus0s@.len() == i,
            forall|j: int| 0 <= j < i ==> (#[trigger] bls@[j])@ == bls_terms(pk@, k as int)(j),
            forall|j: int| 0 <= j < i ==> (#[trigger] xs@[j])@ == x_terms(pk@, k as int)(j),
            forall|j: int|
                0 <= j < i ==> (#[trigger] minus0s@[j])@ == minus0_terms(pk@, k as int)(j),
        decreases n - i,
    {
        assert(pk@[i as int].wf(n as int, l@));
        let p = &pk[i];
        bls.push(p.bls_pk[k]);
        xs.push(p.sk_li_x[k]);
        minus0s.push(p.sk_li_minus0[k]);
        i += 1;
    }
    (bls, xs, minus0s)
}

/// What masks the message of a slot.
#[verifier::rlimit(50)]
fn slot_mask_point(
    b: &Poly,
    values: &Vec<Scalar>,
    n_inv: &Scalar,
    sigma: &G1,
    ct: &Ciphertext,
    agg_key: &AggregateKey,
    crs: &CRS,
    k: usize,
    pds: Ghost<Seq<PartialDecryption>>,
    pd_sum: Ghost<int>,
) -> (res: Gt)
    requires
        crs.wf(),
        agg_key.wf(crs.n as int, crs.l as int),
        k < crs.l,
        ct.t + b@.len() <= crs.n + 1,
        values@.len() == crs.n,
        forall|j: int|
            0 <= j < crs.n ==> eqm((#[trigger] values@[j])@, at_root(b@, crs.n as int, j)),
        eqm(n_inv@, size_inverse(crs.n as int)),
        eqm(pd_sum@, weighted_sum(b@, crs.n as int, pd_terms(pds@))),
        sigma@ == (pd_sum@ * n_inv@) % modulus(),
    ensures
        eqm(res@, slot_mask(crs, agg_key, pds@, ct, b@, k as int)),
{
    let ghost n = crs.n as int;
    let ghost kk = k as int;
    assert(crs.slot_wf(kk));
    let coeffs = b.coeffs();
    assert(coeffs@.len() == vals(coeffs@).len());
    let b_h = commit_g2(&crs.powers_of_h[k], coeffs);
    let (bls, xs, minus0s) = party_points(&agg_key.pk, crs.n, Ghost(crs.l as int), k);
    let bls_sum = weigh(&bls, values, Ghost(b@), Ghost(bls_terms(agg_key.pk@, kk)));
    let apk = bls_sum.mul(n_inv);
    let agg_row = &agg_key.agg_sk_li_lj_z[k];
    assert(agg_row@.len() == crs.n);
    let q_z = weigh(agg_row, values, Ghost(b@), Ghost(agg_terms(agg_row@)));
    let q_x = weigh(&xs, values, Ghost(b@), Ghost(x_terms(agg_key.pk@, kk)));
    let q_hat = weigh(&minus0s, values, Ghost(b@), Ghost(minus0_terms(agg_key.pk@, kk)));
    let shifted = take_from(&crs.powers_of_g[k], ct.t);
    assert(shifted@.len() == vals(shifted@).len());
    let b_hat = commit(&shifted, coeffs);
    let rest = drop_constant(coeffs);
    assert(rest@.len() == vals(rest@).len());
    let q_0 = commit(&crs.powers_of_g[k], &rest);

    let e0 = pairing(&ct.sa1[0], &b_h);
    let e1 = pairing(&apk, &ct.sa2[0]);
    let e2 = pairing(sigma, &crs.gamma_g2[k]);
    let e3 = pairing(&q_z, &ct.sa2[1]);
    let e4 = pairing(&q_x, &ct.sa2[2]);
    let e5 = pairing(&q_hat, &ct.sa2[3]);
    let e6 = pairing(&b_hat, &ct.sa2[4]);
    let e7 = pairing(&q_0, &ct.sa2[5]);
    let r1 = e0.sub(&e1);
    let r2 = r1.add(&e2);
    let r3 = r2.sub(&e3);
    let r4 = r3.sub(&e4);
    let r5 = r4.add(&e5);
    let r6 = r5.sub(&e6);
    let res = r6.sub(&e7);
    proof {
        let inv = size_inverse(n);
        let g = vals(crs.powers_of_g@[kk]@);
        let c0 = commitment(b@, vals(crs.powers_of_h@[kk]@));
        let wb = weighted_sum(b@, n, bls_terms(agg_key.pk@, kk));
        let wp = weighted_sum(b@, n, pd_terms(pds@));
        let wz = weighted_sum(b@, n, agg_terms(agg_key.agg_sk_li_lj_z@[kk]@));
        let wx = weighted_sum(b@, n, x_terms(agg_key.pk@, kk));
        let wm = weighted_sum(b@, n, minus0_terms(agg_key.pk@, kk));
        let c6 = commitment(b@, points_from(g, ct.t as int));
        let c7 = commitment(tail(b@), g);
        lemma_eqm_mod(c0);
        lemma_eqm_mod(c6);
        lemma_eqm_mod(c7);
        lemma_product(bls_sum@, wb, n_inv@, inv);
        lemma_product(pd_sum@, wp, n_inv@, inv);
        assert(wb * inv == inv * wb) by (nonlinear_arith);
        assert(wp * inv == inv * wp) by (nonlinear_arith);
        let a0 = ct.sa1@[0]@;
        let h0 = ct.sa2@[0]@;
        let h1 = ct.sa2@[1]@;
        let h2 = ct.sa2@[2]@;
        let h3 = ct.sa2@[3]@;
        let h4 = ct.sa2@[4]@;
        let h5 = ct.sa2@[5]@;
        let gm = crs.gamma_g2@[kk]@;
        assert(vals(ct.sa1@)[0] == a0);
        assert(vals(ct.sa2@)[0] == h0 && vals(ct.sa2@)[1] == h1 && vals(ct.sa2@)[2] == h2);
        assert(vals(ct.sa2@)[3] == h3 && vals(ct.sa2@)[4] == h4 && vals(ct.sa2@)[5] == h5);
        lemma_product(a0, a0, b_h@, c0);
        lemma_product(apk@, inv * wb, h0, h0);
        lemma_product(sigma@, inv * wp, gm, gm);
        lemma_product(q_z@, wz, h1, h1);
        lemma_product(q_x@, wx, h2, h2);
        lemma_product(q_hat@, wm, h3, h3);
        lemma_product(b_hat@, c6, h4, h4);
        lemma_product(q_0@, c7, h5, h5);
        let t1 = a0 * c0 - (inv * wb) * h0;
        lemma_minus(e0@, a0 * c0, e1@, (inv * wb) * h0);
        let t2 = t1 + (inv * wp) * gm;
        lemma_plus(r1@, t1, e2@, (inv * wp) * gm);
        let t3 = t2 - wz * h1;
        lemma_minus(r2@, t2, e3@, wz * h1);
        let t4 = t3 - wx * h2;
        lemma_minus(r3@, t3, e4@, wx * h2);
        let t5 = t4 + wm * h3;
        lemma_plus(r4@, t4, e5@, wm * h3);
        let t6 = t5 - c6 * h4;
        lemma_minus(r5@, t5, e6@, c6 * h4);
        lemma_minus(r6@, t6, e7@, c7 * h5);
        assert(slot_mask(crs, agg_key, pds@, ct, b@, kk) == t6 - c7 * h5);
    }
    res
}

/// Sums weighted by polynomials that are the same are the same.
proof fn lemma_weighted_same(b: Seq<int>, s: Seq<int>, n: int, f: spec_fn(int) -> int)
    requires
        same_poly(b, s),
    ensures
        eqm(weighted_sum(b, n, f), weighted_sum(s, n, f)),
{
    let u = weighted(b, n, f);
    let v = weighted(s, n, f);
    assert forall|i: int| 0 <= i < n implies eqm(#[trigger] u(i), v(i)) by {
        lemma_eval_same(b, s, pow(unity_root(n), i as nat));
        lemma_eqm_mul(at_root(b, n, i), at_root(s, n, i), f(i), f(i));
    }
    lemma_sum_eqm(n, u, v);
}

proof fn lemma_tail_same(b: Seq<int>, s: Seq<int>)
    requires
        same_poly(b, s),
    ensures
        same_poly(tail(b), tail(s)),
{
    assert forall|k: int| eqm(#[trigger] coeff(tail(b), k), coeff(tail(s), k)) by {
        if k >= 0 {
            assert(eqm(coeff(b, k + 1), coeff(s, k + 1)));
            assert(coeff(tail(b), k) == coeff(b, k + 1));
            assert(coeff(tail(s), k) == coeff(s, k + 1));
        }
    }
}

/// The pairing equation, with the two sides of each of the eight pairings as lists.
pub open spec fn mask_expr(p: Seq<int>, q: Seq<int>) -> int {
    p[0] * q[0] - p[1] * q[1] + p[2] * q[2] - p[3] * q[3] - p[4] * q[4] + p[5] * q[5] - p[6] * q[6]
        - p[7] * q[7]
}

proof fn lemma_mask_expr(p: Seq<int>, pp: Seq<int>, q: Seq<int>, qq: Seq<int>)
    requires
        p.len() == 8,
        q.len() == 8,
        pp.len() == 8,
        qq.len() == 8,
        forall|i: int| 0 <= i < 8 ==> eqm(#[trigger] p[i], pp[i]),
        forall|i: int| 0 <= i < 8 ==> eqm(#[trigger] q[i], qq[i]),
    ensures
        eqm(mask_expr(p, q), mask_expr(pp, qq)),
{
    assert forall|i: int| 0 <= i < 8 implies eqm(#[trigger] p[i] * q[i], pp[i] * qq[i]) by {
        assert(eqm(p[i], pp[i]) && eqm(q[i], qq[i]));
        lemma_eqm_mul(p[i], pp[i], q[i], qq[i]);
    }
    let x = |i: int| p[i] * q[i];
    let y = |i: int| pp[i] * qq[i];
    assert forall|i: int| 0 <= i < 8 implies eqm(#[trigger] x(i), y(i)) by {
        assert(eqm(p[i] * q[i], pp[i] * qq[i]));
    }
    lemma_eqm_sub(x(0), y(0), x(1), y(1));
    lemma_eqm_add(x(0) - x(1), y(0) - y(1), x(2), y(2));
    lemma_eqm_sub(x(0) - x(1) + x(2), y(0) - y(1) + y(2), x(3), y(3));
    lemma_eqm_sub(x(0) - x(1) + x(2) - x(3), y(0) - y(1) + y(2) - y(3), x(4), y(4));
    let p4 = x(0) - x(1) + x(2) - x(3) - x(4);
    let q4 = y(0) - y(1) + y(2) - y(3) - y(4);
    lemma_eqm_add(p4, q4, x(5), y(5));
    lemma_eqm_sub(p4 + x(5), q4 + y(5), x(6), y(6));
    lemma_eqm_sub(p4 + x(5) - x(6), q4 + y(5) - y(6), x(7), y(7));
}

/// Polynomials that are the same give the same masks.
proof fn lemma_slot_mask_same(
    crs: &CRS,
    key: &AggregateKey,
    pds: Seq<PartialDecryption>,
    c: &Ciphertext,
    b: Seq<int>,
    s: Seq<int>,
    k: int,
)
    requires
        same_poly(b, s),
    ensures
        eqm(slot_mask(crs, key, pds, c, b, k), slot_mask(crs, key, pds, c, s, k)),
{
    let n = crs.n as int;
    let inv = size_inverse(n);
    let a0 = vals(c.sa1@)[0];
    let sa2 = vals(c.sa2@);
    let g = vals(crs.powers_of_g@[k]@);
    let h = vals(crs.powers_of_h@[k]@);
    let gm = crs.gamma_g2@[k]@;
    let pg = points_from(g, c.t as int);
    lemma_commitment_same(b, s, h);
    lemma_commitment_same(b, s, pg);
    lemma_tail_same(b, s);
    lemma_commitment_same(tail(b), tail(s), g);
    let f1 = bls_terms(key.pk@, k);
    let f2 = pd_terms(pds);
    let f3 = agg_terms(key.agg_sk_li_lj_z@[k]@);
    let f4 = x_terms(key.pk@, k);
    let f5 = minus0_terms(key.pk@, k);
    lemma_weighted_same(b, s, n, f1);
    lemma_weighted_same(b, s, n, f2);
    lemma_weighted_same(b, s, n, f3);
    lemma_weighted_same(b, s, n, f4);
    lemma_weighted_same(b, s, n, f5);
    lemma_eqm_mul(inv, inv, weighted_sum(b, n, f1), weighted_sum(s, n, f1));
    lemma_eqm_mul(inv, inv, weighted_sum(b, n, f2), weighted_sum(s, n, f2));
    let p = seq![
        a0,
        inv * weighted_sum(b, n, f1),
        inv * weighted_sum(b, n, f2),
        weighted_sum(b, n, f3),
        weighted_sum(b, n, f4),
        weighted_sum(b, n, f5),
        commitment(b, pg),
        commitment(tail(b), g),
    ];
    let pp = seq![
        a0,
        inv * weighted_sum(s, n, f1),
        inv * weighted_sum(s, n, f2),
        weighted_sum(s, n, f3),
        weighted_sum(s, n, f4),
        weighted_sum(s, n, f5),
        commitment(s, pg),
        commitment(tail(s), g),
    ];
    let q = seq![commitment(b, h), sa2[0], gm, sa2[1], sa2[2], sa2[3], sa2[4], sa2[5]];
    let qq = seq![commitment(s, h), sa2[0], gm, sa2[1], sa2[2], sa2[3], sa2[4], sa2[5]];
    assert forall|i: int| 0 <= i < 8 implies eqm(#[trigger] p[i], pp[i]) by {
    }
    assert forall|i: int| 0 <= i < 8 implies eqm(#[trigger] q[i], qq[i]) by {
    }
    lemma_mask_expr(p, pp, q, qq);
    assert(slot_mask(crs, key, pds, c, b, k) == mask_expr(p, q));
    assert(slot_mask(crs, key, pds, c, s, k) == mask_expr(pp, qq));
}

/// A polynomial as its constant coefficient and the rest.
proof fn lemma_eval_tail(b: Seq<int>, x: int)
    requires
        b.len() >= 1,
    ensures
        eval(b, x) == b[0] + x * eval(tail(b), x),
{
    let n = b.len() as int;
    let f = |j: int| b[j] * pow(x, j as nat);
    let g = |j: int| f(j + 1);
    let t = |j: int| tail(b)[j] * pow(x, j as nat);
    let h = |j: int| x * t(j);
    lemma_sum_first(n, f);
    lemma_pow0(x);
    assert(b[0] * 1 == b[0]);
    assert forall|j: int| 0 <= j < n - 1 implies #[trigger] g(j) == h(j) by {
        lemma_pow_adds(x, 1, j as nat);
        lemma_pow1(x);
        let p = pow(x, j as nat);
        assert(b[j + 1] * (x * p) == x * (b[j + 1] * p)) by (nonlinear_arith);
    }
    lemma_sum_eq(n - 1, g, h);
    lemma_sum_scale(n - 1, x, t);
}

/// The polynomial of the selected parties is one at zero, and has no more coefficients than there
/// are parties that are not selected, and one.
pub(crate) proof fn lemma_selector_shape(selector: Seq<bool>, n: int, k: int)
    requires
        0 <= k,
    ensures
        selector_poly(selector, n, k).len() >= 1,
        selector_poly(selector, n, k)[0] == 1,
        0 <= selected_count(selector, k) <= k,
        forall|j: int|
            j > k - selected_count(selector, k) ==> #[trigger] coeff(
                selector_poly(selector, n, k),
                j,
            ) == 0,
    decreases k,
{
    if k > 0 {
        lemma_selector_shape(selector, n, k - 1);
        if !selector[k - 1] {
            let p = selector_poly(selector, n, k - 1);
            let q = root_factor(n, k - 1);
            let r = poly_mul(p, q);
            let f = |i: int| p[i] * coeff(q, 0 - i);
            assert forall|i: int| 0 <= i < p.len() && i != 0 implies #[trigger] f(i) == 0 by {
                assert(p[i] * 0 == 0);
            }
            lemma_sum_single(p.len() as int, 0, f);
            assert(r[0] == p[0] * q[0]);
            let d = k - 1 - selected_count(selector, k - 1);
            assert forall|j: int| j > d + 1 implies #[trigger] coeff(r, j) == 0 by {
                if j < r.len() {
                    let g = |i: int| p[i] * coeff(q, j - i);
                    assert forall|i: int| 0 <= i < p.len() implies #[trigger] g(i) == 0 by {
                        if j - i > 1 {
                            assert(coeff(q, j - i) == 0);
                            assert(p[i] * 0 == 0);
                        } else {
                            assert(coeff(p, i) == 0);
                            assert(0 * coeff(q, j - i) == 0);
                        }
                    }
                    crate::algebra::sums::lemma_sum_zero(p.len() as int, g);
                    assert(r[j] == crate::algebra::polynomial::product_coeff(p, q, j));
                }
            }
        }
    }
}

/// The polynomial of the selected parties is zero at every party that is not selected.
pub(crate) proof fn lemma_selector_zero(selector: Seq<bool>, n: int, k: int, i: int)
    requires
        is_domain_size(n),
        0 <= i < k <= n,
        !selector[i],
    ensures
        eqm(at_root(selector_poly(selector, n, k), n, i), 0),
    decreases k,
{
    let w = unity_root(n);
    let x = pow(w, i as nat);
    let p = selector_poly(selector, n, k - 1);
    if i < k - 1 {
        lemma_selector_zero(selector, n, k - 1, i);
    }
    if !selector[k - 1] {
        let q = root_factor(n, k - 1);
        lemma_eval_mul(p, q, x);
        if i == k - 1 {
            let c = pow(w, (n - i) as nat);
            let f = |j: int| q[j] * pow(x, j as nat);
            assert(sum(2, f) == sum(1, f) + f(1));
            assert(sum(1, f) == sum(0, f) + f(0));
            lemma_pow0(x);
            lemma_pow1(x);
            assert(f(0) == 1);
            assert(f(1) == -c * x);
            lemma_pow_adds(w, (n - i) as nat, i as nat);
            lemma_root_order(n);
            assert(-c * x == -(c * x)) by (nonlinear_arith);
            lemma_eqm_sub(1, 1, c * x, 1);
            assert(eqm(eval(q, x), 0));
            lemma_eqm_mul(eval(p, x), eval(p, x), eval(q, x), 0);
            assert(eval(p, x) * 0 == 0);
        } else {
            lemma_eqm_mul(eval(p, x), 0, eval(q, x), eval(q, x));
            assert(0 * eval(q, x) == 0);
        }
    }
}

/// A basis polynomial as its constant coefficient and the rest.
pub(crate) proof fn lemma_lagrange_tail(n: int, i: int, x: int)
    requires
        1 <= n,
    ensures
        eval(lagrange(n, i), x) == size_inverse(n) + x * eval(lagrange_x(n, i), x),
        eval(lagrange_minus0(n, i), x) == x * x * eval(lagrange_x(n, i), x),
{
    let p = lagrange(n, i);
    lemma_eval_tail(p, x);
    assert(tail(p) =~= lagrange_x(n, i));
    lemma_pow0(unity_root(n));
    assert((n - i) * 0 == 0);
    assert(size_inverse(n) * 1 == size_inverse(n));
    let m = lagrange_minus0(n, i);
    let t = tail(m);
    lemma_eval_tail(m, x);
    lemma_eval_tail(t, x);
    assert(tail(t) =~= lagrange_x(n, i));
    let v = eval(lagrange_x(n, i), x);
    assert(x * (0 + x * v) == x * x * v) by (nonlinear_arith);
}

/// The values of the basis at a point, times the keys.
pub open spec fn key_basis_terms(sk: spec_fn(int) -> int, n: int, t: int) -> spec_fn(int) -> int {
    |i: int| sk(i) * eval(lagrange(n, i), t)
}

/// The values of `(L_i - L_i(0)) / X` at a point, times the keys.
pub open spec fn key_x_terms(sk: spec_fn(int) -> int, n: int, t: int) -> spec_fn(int) -> int {
    |i: int| sk(i) * eval(lagrange_x(n, i), t)
}

/// The values of the cross products, times the keys.
pub open spec fn key_cross_terms(
    sk: spec_fn(int) -> int,
    v: spec_fn(int, int) -> int,
    j: int,
) -> spec_fn(int) -> int {
    |i: int| v(i, j) * sk(i)
}

/// The sums of the values of the cross products.
pub open spec fn key_cross_sums(
    sk: spec_fn(int) -> int,
    v: spec_fn(int, int) -> int,
    n: int,
) -> spec_fn(int) -> int {
    |j: int| sum(n, key_cross_terms(sk, v, j))
}

/// One column of the product of the two sums over the basis.
proof fn lemma_sumcheck_column(
    sk: spec_fn(int) -> int,
    n: int,
    t: int,
    v: spec_fn(int, int) -> int,
    a: int,
    j: int,
)
    requires
        0 <= j < n,
        forall|i: int|
            0 <= i < n ==> eqm(
                #[trigger] v(i, j) * (pow(t, n as nat) - 1),
                a * eval(cross_product(n, i, j), t),
            ),
    ensures
        eqm(
            a * (sum(n, key_basis_terms(sk, n, t)) * eval(lagrange(n, j), t)),
            (pow(t, n as nat) - 1) * sum(n, key_cross_terms(sk, v, j)) + a * (sk(j) * eval(
                lagrange(n, j),
                t,
            )),
        ),
{
    let z = pow(t, n as nat) - 1;
    let lj = eval(lagrange(n, j), t);
    let f = key_basis_terms(sk, n, t);
    let g = key_cross_terms(sk, v, j);
    let c = a * lj;
    let lhs = |i: int| c * f(i);
    let cross = |i: int| z * g(i);
    let diag = |i: int| a * (sk(i) * eval(lagrange(n, i), t) * indicator(i, j));
    let rhs = |i: int| cross(i) + diag(i);
    assert forall|i: int| 0 <= i < n implies eqm(#[trigger] lhs(i), rhs(i)) by {
        let li = eval(lagrange(n, i), t);
        let d = indicator(i, j);
        let s = sk(i);
        let x = v(i, j);
        lemma_cross_product_value(n, i, j, t);
        assert(eqm(x * z, a * (li * lj - li * d)));
        lemma_eqm_mul(x * z, a * (li * lj - li * d), s, s);
        let w = a * (s * li * d);
        lemma_eqm_add(x * z * s, a * (li * lj - li * d) * s, w, w);
        assert(x * z * s == z * (x * s)) by (nonlinear_arith);
        let m1 = li * lj;
        let m2 = li * d;
        assert(a * (m1 - m2) * s == a * m1 * s - a * m2 * s) by (nonlinear_arith);
        assert(a * (li * lj) * s == a * lj * (s * li)) by (nonlinear_arith);
        assert(a * (li * d) * s == a * (s * li * d)) by (nonlinear_arith);
    }
    lemma_sum_eqm(n, lhs, rhs);
    lemma_sum_scale(n, c, f);
    lemma_sum_add(n, cross, diag);
    lemma_sum_scale(n, z, g);
    assert forall|i: int| 0 <= i < n && i != j implies #[trigger] diag(i) == 0 by {
        let li = eval(lagrange(n, i), t);
        assert(sk(i) * li * 0 == 0) by (nonlinear_arith);
        assert(a * 0 == 0);
    }
    lemma_sum_single(n, j, diag);
    assert(sk(j) * lj * 1 == sk(j) * lj);
    assert(a * lj * sum(n, f) == a * (sum(n, f) * lj)) by (nonlinear_arith);
    assert(rhs =~= (|i: int| cross(i) + diag(i)));
}

proof fn lemma_negate(d: int, x: int)
    ensures
        d * (-x) == -(d * x),
{
    assert(d * (-x) == -(d * x)) by (nonlinear_arith);
}

proof fn lemma_distribute(d: int, x: int, y: int, z: int)
    ensures
        d * (x + (y + z)) == d * x + d * y + d * z,
        d * (x + y + z) == d * x + d * y + d * z,
{
    assert(d * (x + (y + z)) == d * x + d * (y + z)) by (nonlinear_arith);
    assert(d * (y + z) == d * y + d * z) by (nonlinear_arith);
    assert(x + y + z == x + (y + z));
}

/// The sumcheck that decryption rests on: the product of the sum of the keys with the polynomial of
/// the selected parties, at the secret, splits into a multiple of `X^n - 1`, a multiple of `X` and
/// the weighted sum of the keys.
proof fn lemma_sumcheck(
    b: Seq<int>,
    sk: spec_fn(int) -> int,
    n: int,
    t: int,
    v: spec_fn(int, int) -> int,
    a: int,
)
    requires
        is_domain_size(n),
        b.len() <= n,
        forall|i: int, j: int|
            0 <= i < n && 0 <= j < n ==> eqm(
                #[trigger] v(i, j) * (pow(t, n as nat) - 1),
                a * eval(cross_product(n, i, j), t),
            ),
    ensures
        eqm(
            a * (sum(n, key_basis_terms(sk, n, t)) * eval(b, t)),
            (pow(t, n as nat) - 1) * weighted_sum(b, n, key_cross_sums(sk, v, n)) + a * (
            size_inverse(n) * weighted_sum(b, n, sk) + t * weighted_sum(
                b,
                n,
                key_x_terms(sk, n, t),
            )),
        ),
{
    let z = pow(t, n as nat) - 1;
    let inv = size_inverse(n);
    let s = sum(n, key_basis_terms(sk, n, t));
    let values = |j: int| at_root(b, n, j);
    let f = basis_terms(values, n, t);
    lemma_interpolation(b, values, n, t);
    lemma_eqm_mul(s, s, eval(b, t), sum(n, f));
    lemma_eqm_mul(a, a, s * eval(b, t), s * sum(n, f));
    // Column by column.
    let lhs = |j: int| (a * s) * f(j);
    lemma_sum_scale(n, a * s, f);
    assert(a * s * sum(n, f) == a * (s * sum(n, f))) by (nonlinear_arith);
    let wq = weighted(b, n, key_cross_sums(sk, v, n));
    let wk = weighted(b, n, sk);
    let wx = weighted(b, n, key_x_terms(sk, n, t));
    let r1 = |j: int| z * wq(j);
    let r2 = |j: int| (a * inv) * wk(j);
    let r3 = |j: int| (a * t) * wx(j);
    let r23 = |j: int| r2(j) + r3(j);
    let rhs = |j: int| r1(j) + r23(j);
    assert forall|j: int| 0 <= j < n implies eqm(#[trigger] lhs(j), rhs(j)) by {
        let bj = at_root(b, n, j);
        let lj = eval(lagrange(n, j), t);
        let q = sum(n, key_cross_terms(sk, v, j));
        let k = sk(j);
        let x = eval(lagrange_x(n, j), t);
        lemma_sumcheck_column(sk, n, t, v, a, j);
        lemma_lagrange_tail(n, j, t);
        lemma_eqm_mul(bj, bj, a * (s * lj), z * q + a * (k * lj));
        assert(bj * (a * (s * lj)) == a * s * (bj * lj)) by (nonlinear_arith);
        let m1 = a * (k * inv);
        let m2 = a * (k * (t * x));
        assert(k * (inv + t * x) == k * inv + k * (t * x)) by (nonlinear_arith);
        assert(a * (k * inv + k * (t * x)) == m1 + m2) by (nonlinear_arith)
            requires
                m1 == a * (k * inv),
                m2 == a * (k * (t * x)),
        ;
        lemma_distribute(bj, z * q, m1, m2);
        assert(bj * (z * q) == z * (bj * q)) by (nonlinear_arith);
        assert(bj * (a * (k * inv)) == a * inv * (bj * k)) by (nonlinear_arith);
        assert(bj * (a * (k * (t * x))) == a * t * (bj * (k * x))) by (nonlinear_arith);
    }
    lemma_sum_eqm(n, lhs, rhs);
    lemma_sum_add(n, r1, r23);
    lemma_sum_add(n, r2, r3);
    lemma_sum_scale(n, z, wq);
    lemma_sum_scale(n, a * inv, wk);
    lemma_sum_scale(n, a * t, wx);
    let sk_sum = weighted_sum(b, n, sk);
    let x_sum = weighted_sum(b, n, key_x_terms(sk, n, t));
    assert(a * inv * sk_sum + a * t * x_sum == a * (inv * sk_sum + t * x_sum))
        by (nonlinear_arith);
}

/// A weighted sum of values that are multiples of others.
proof fn lemma_weighted_multiple(
    b: Seq<int>,
    n: int,
    f: spec_fn(int) -> int,
    g: spec_fn(int) -> int,
    c: int,
)
    requires
        forall|i: int| 0 <= i < n ==> eqm(at_root(b, n, i) * #[trigger] f(i), at_root(b, n, i) * (c * g(i))),
    ensures
        eqm(weighted_sum(b, n, f), c * weighted_sum(b, n, g)),
{
    let u = weighted(b, n, f);
    let v = weighted(b, n, g);
    let w = |i: int| c * v(i);
    assert forall|i: int| 0 <= i < n implies eqm(#[trigger] u(i), w(i)) by {
        let x = at_root(b, n, i);
        assert(eqm(x * f(i), x * (c * g(i))));
        assert(x * (c * g(i)) == c * (x * g(i))) by (nonlinear_arith);
    }
    lemma_sum_eqm(n, u, w);
    lemma_sum_scale(n, c, v);
}

/// The secret keys of the parties.
pub open spec fn secret_terms(secrets: Seq<SecretKey>) -> spec_fn(int) -> int {
    |i: int| secrets[i].sk@
}

/// Whether the public keys are those of the secret keys, each for its own position.
pub open spec fn are_keys_of(
    pk: Seq<LagPublicKey>,
    secrets: Seq<SecretKey>,
    crs: &CRS,
) -> bool {
    &&& pk.len() == crs.n
    &&& secrets.len() == crs.n
    &&& forall|i: int|
        0 <= i < crs.n ==> (#[trigger] pk[i]).is_key_of(secrets[i], i, crs)
}

/// Whether every selected party has contributed its partial decryption.
pub open spec fn are_contributions(
    pds: Seq<PartialDecryption>,
    base: int,
    secrets: Seq<SecretKey>,
    selector: Seq<bool>,
) -> bool {
    forall|i: int|
        0 <= i < selector.len() && selector[i] ==> (#[trigger] pds[i]).pd@ == (base
            * secrets[i].sk@) % modulus()
}

/// The values of the quotients of cross products in a slot.
pub open spec fn slot_cross(crs: &CRS, k: int) -> spec_fn(int, int) -> int {
    |i: int, j: int| crs.li_lj_z@[k]@[i]@[j]@
}

/// What the sums of hints in a slot come to.
proof fn lemma_slot_sums(
    crs: &CRS,
    l: int,
    t: int,
    alphas: Seq<int>,
    gamma: int,
    secrets: Seq<SecretKey>,
    pk: Seq<LagPublicKey>,
    key: &AggregateKey,
    b: Seq<int>,
    k: int,
)
    requires
        crs.is_generated(crs.n as int, l, t, alphas, gamma),
        are_keys_of(pk, secrets, crs),
        key.is_aggregate(pk, crs),
        0 <= k < l,
    ensures
        eqm(
            weighted_sum(b, crs.n as int, bls_terms(key.pk@, k)),
            alphas[k] * weighted_sum(b, crs.n as int, secret_terms(secrets)),
        ),
        eqm(
            weighted_sum(b, crs.n as int, x_terms(key.pk@, k)),
            alphas[k] * weighted_sum(
                b,
                crs.n as int,
                key_x_terms(secret_terms(secrets), crs.n as int, t),
            ),
        ),
        eqm(
            weighted_sum(b, crs.n as int, minus0_terms(key.pk@, k)),
            (alphas[k] * (t * t)) * weighted_sum(
                b,
                crs.n as int,
                key_x_terms(secret_terms(secrets), crs.n as int, t),
            ),
        ),
        eqm(
            weighted_sum(b, crs.n as int, agg_terms(key.agg_sk_li_lj_z@[k]@)),
            weighted_sum(
                b,
                crs.n as int,
                key_cross_sums(secret_terms(secrets), slot_cross(crs, k), crs.n as int),
            ),
        ),
{
    let n = crs.n as int;
    let a = alphas[k];
    let sk = secret_terms(secrets);
    assert(crs.slot_wf(k) && is_generated_slot(crs, k, a, t, gamma));
    let f1 = bls_terms(pk, k);
    assert forall|i: int| 0 <= i < n implies eqm(
        at_root(b, n, i) * #[trigger] f1(i),
        at_root(b, n, i) * (a * sk(i)),
    ) by {
        assert(pk[i].is_key_of(secrets[i], i, crs));
        assert(pk[i].bls_pk@[k]@ == (crs.gen_g@[k]@ * secrets[i].sk@) % modulus());
        lemma_eqm_mod(a * sk(i));
        lemma_eqm_mul(at_root(b, n, i), at_root(b, n, i), f1(i), a * sk(i));
    }
    lemma_weighted_multiple(b, n, f1, sk, a);
    let f2 = x_terms(pk, k);
    let g2 = key_x_terms(sk, n, t);
    assert forall|i: int| 0 <= i < n implies eqm(
        at_root(b, n, i) * #[trigger] f2(i),
        at_root(b, n, i) * (a * g2(i)),
    ) by {
        assert(pk[i].is_key_of(secrets[i], i, crs));
        let x = crs.li_x@[k]@[i]@;
        let e = eval(lagrange_x(n, i), t);
        assert(pk[i].sk_li_x@[k]@ == (x * sk(i)) % modulus());
        assert(eqm(vals(crs.li_x@[k]@)[i], a * e));
        lemma_product(x, a * e, sk(i), sk(i));
        assert(a * e * sk(i) == a * (sk(i) * e)) by (nonlinear_arith);
        lemma_eqm_mul(at_root(b, n, i), at_root(b, n, i), f2(i), a * g2(i));
    }
    lemma_weighted_multiple(b, n, f2, g2, a);
    let f3 = minus0_terms(pk, k);
    assert forall|i: int| 0 <= i < n implies eqm(
        at_root(b, n, i) * #[trigger] f3(i),
        at_root(b, n, i) * (a * (t * t) * g2(i)),
    ) by {
        assert(pk[i].is_key_of(secrets[i], i, crs));
        let x = crs.li_minus0@[k]@[i]@;
        let e = eval(lagrange_x(n, i), t);
        let m = eval(lagrange_minus0(n, i), t);
        lemma_lagrange_tail(n, i, t);
        assert(pk[i].sk_li_minus0@[k]@ == (x * sk(i)) % modulus());
        assert(eqm(vals(crs.li_minus0@[k]@)[i], a * m));
        lemma_product(x, a * m, sk(i), sk(i));
        assert(a * m * sk(i) == a * (t * t) * (sk(i) * e)) by (nonlinear_arith)
            requires
                m == t * t * e,
        ;
        lemma_eqm_mul(at_root(b, n, i), at_root(b, n, i), f3(i), a * (t * t) * g2(i));
    }
    lemma_weighted_multiple(b, n, f3, g2, a * (t * t));
    let f4 = agg_terms(key.agg_sk_li_lj_z@[k]@);
    let v = slot_cross(crs, k);
    let g4 = key_cross_sums(sk, v, n);
    assert forall|j: int| 0 <= j < n implies eqm(
        at_root(b, n, j) * #[trigger] f4(j),
        at_root(b, n, j) * (1 * g4(j)),
    ) by {
        let row = key.agg_sk_li_lj_z@[k]@;
        assert(is_cross_sum_row(row, pk, k));
        let c = cross_terms(pk, k, j);
        assert(eqm(row[j]@, sum(n, c)));
        let d = key_cross_terms(sk, v, j);
        assert forall|i: int| 0 <= i < n implies eqm(#[trigger] c(i), d(i)) by {
            assert(pk[i].is_key_of(secrets[i], i, crs));
            assert(is_multiple_row(pk[i].sk_li_lj_z@[k]@, crs.li_lj_z@[k]@[i]@, sk(i)));
            assert(crs.li_lj_z@[k]@[i]@.len() == n);
            assert(pk[i].sk_li_lj_z@[k]@[j]@ == (v(i, j) * sk(i)) % modulus());
            lemma_eqm_mod(v(i, j) * sk(i));
        }
        lemma_sum_eqm(n, c, d);
        lemma_eqm_mul(at_root(b, n, j), at_root(b, n, j), f4(j), g4(j));
    }
    lemma_weighted_multiple(b, n, f4, g4, 1);
}

/// The cross values of a slot are the cross products divided by `X^n - 1`.
proof fn lemma_slot_cross(
    crs: &CRS,
    l: int,
    t: int,
    alphas: Seq<int>,
    gamma: int,
    k: int,
    i: int,
    j: int,
)
    requires
        crs.is_generated(crs.n as int, l, t, alphas, gamma),
        0 <= k < l,
        0 <= i < crs.n,
        0 <= j < crs.n,
    ensures
        eqm(
            slot_cross(crs, k)(i, j) * (pow(t, crs.n as nat) - 1),
            alphas[k] * eval(cross_product(crs.n as int, i, j), t),
        ),
{
    let n = crs.n as int;
    let a = alphas[k];
    assert(crs.slot_wf(k) && is_generated_slot(crs, k, a, t, gamma));
    let row = crs.li_lj_z@[k]@[i]@;
    assert(row.len() == n);
    assert(are_cross_values(vals(row), n, i, a, t));
    assert(is_cross_value(vals(row)[j], n, i, j, a, t));
    let q = choose|q: Seq<int>| #[trigger]
        is_quotient(q, cross_product(n, i, j), vanishing(n)) && eqm(
            vals(row)[j],
            a * eval(q, t),
        );
    assert forall|m: int| 0 <= m < n implies eqm(
        #[trigger] eval(cross_product(n, i, j), pow(unity_root(n), m as nat)),
        0,
    ) by {
        lemma_cross_product_vanishes(n, i, j, m);
    }
    lemma_quotient_exact(q, cross_product(n, i, j), n, t);
    let z = pow(t, n as nat) - 1;
    lemma_eqm_mul(row[j]@, a * eval(q, t), z, z);
    lemma_eqm_mul(a, a, eval(cross_product(n, i, j), t), eval(q, t) * z);
    assert(a * eval(q, t) * z == a * (eval(q, t) * z)) by (nonlinear_arith);
}

/// The pairing equation, in the exponent: with the sumcheck, everything cancels but the mask of the
/// slot.
proof fn lemma_pairing_equation(
    a: int,
    a0: int,
    gamma: int,
    t: int,
    tt: int,
    z: int,
    sigma: int,
    beta: int,
    u: int,
    q: int,
    x: int,
    rest: int,
    s: Seq<int>,
)
    requires
        s.len() == 5,
        eqm(a * (sigma * beta), z * q + a * (u + t * x)),
        beta == 1 + t * rest,
    ensures
        eqm(
            (a0 * sigma * s[0] + a0 * tt * s[3] + a0 * s[4]) * (a * beta) - (a * u) * (a0 * s[0]
                + gamma * a0 * s[2]) + (a0 * s[2] * u) * (gamma * a) - q * (a0 * z * s[0]) - (a * x)
                * (a0 * t * s[0] + a0 * (t * t) * s[1]) + (a * (t * t) * x) * (a0 * s[1]) - (a * (tt
                * beta)) * (a0 * s[3]) - (a * rest) * (a0 * t * s[4]),
            a * a0 * s[4],
        ),
{
    let s0 = s[0];
    let s1 = s[1];
    let s2 = s[2];
    let s3 = s[3];
    let s4 = s[4];
    let lhs = a * (sigma * beta);
    let rhs = z * q + a * (u + t * x);
    lemma_eqm_sub(lhs, rhs, rhs, rhs);
    lemma_eqm_mul(a0 * s0, a0 * s0, lhs - rhs, 0);
    assert(a0 * s0 * 0 == 0) by (nonlinear_arith);
    lemma_eqm_add(a0 * s0 * (lhs - rhs), 0, a * a0 * s4, a * a0 * s4);
    let d = a * beta;
    lemma_distribute(d, a0 * sigma * s0, a0 * tt * s3, a0 * s4);
    assert((a0 * sigma * s0 + a0 * tt * s3 + a0 * s4) * d == d * (a0 * sigma * s0 + (a0 * tt * s3
        + a0 * s4))) by (nonlinear_arith);
    assert(a * beta * (a0 * sigma * s0) == a0 * s0 * (a * (sigma * beta))) by (nonlinear_arith);
    assert(a * beta * (a0 * tt * s3) == a * (tt * beta) * (a0 * s3)) by (nonlinear_arith);
    assert(a * beta * (a0 * s4) == a * a0 * s4 * beta) by (nonlinear_arith);
    lemma_distribute(a * a0 * s4, 1, t * rest, 0);
    assert(a * a0 * s4 * 1 == a * a0 * s4 && a * a0 * s4 * 0 == 0) by (nonlinear_arith);
    assert(a * a0 * s4 * (t * rest) == a * rest * (a0 * t * s4)) by (nonlinear_arith);
    lemma_distribute(a * u, a0 * s0, gamma * a0 * s2, 0);
    assert(a * u * 0 == 0) by (nonlinear_arith);
    assert(a * u * (a0 * s0) == a0 * s0 * (a * u)) by (nonlinear_arith);
    assert(a * u * (gamma * a0 * s2) == a0 * s2 * u * (gamma * a)) by (nonlinear_arith);
    assert(q * (a0 * z * s0) == a0 * s0 * (z * q)) by (nonlinear_arith);
    lemma_distribute(a * x, a0 * t * s0, a0 * (t * t) * s1, 0);
    assert(a * x * 0 == 0) by (nonlinear_arith);
    assert(a * x * (a0 * t * s0) == a0 * s0 * (a * (t * x))) by (nonlinear_arith);
    assert(a * x * (a0 * (t * t) * s1) == a * (t * t) * x * (a0 * s1)) by (nonlinear_arith);
    let tx = t * x;
    assert(a * (u + tx) == a * u + a * tx) by (nonlinear_arith);
    lemma_distribute(a0 * s0, lhs, -(z * q), -(a * u + a * tx));
    lemma_distribute(a0 * s0, -(a * u), -(a * tx), 0);
    lemma_negate(a0 * s0, z * q);
    lemma_negate(a0 * s0, a * u);
    lemma_negate(a0 * s0, a * tx);
    assert(a0 * s0 * 0 == 0) by (nonlinear_arith);
}

/// The polynomial of the selected parties with no more coefficients than it needs.
proof fn lemma_short_selector(selector: Seq<bool>, n: int) -> (b: Seq<int>)
    requires
        0 <= n,
    ensures
        same_poly(b, selector_poly(selector, n, n)),
        b.len() == n - selected_count(selector, n) + 1,
        b[0] == 1,
{
    lemma_selector_shape(selector, n, n);
    let p = selector_poly(selector, n, n);
    let b = Seq::new((n - selected_count(selector, n) + 1) as nat, |j: int| coeff(p, j));
    assert forall|j: int| eqm(#[trigger] coeff(b, j), coeff(p, j)) by {
    }
    b
}

/// The parts of a ciphertext, in terms of the secrets of the reference string.
proof fn lemma_ciphertext_parts(
    crs: &CRS,
    l: int,
    t: int,
    alphas: Seq<int>,
    gamma: int,
    secrets: Seq<SecretKey>,
    pk: Seq<LagPublicKey>,
    ek: &EncryptionKey,
    c: &Ciphertext,
    messages: Seq<int>,
    s: Seq<int>,
)
    requires
        crs.is_generated(crs.n as int, l, t, alphas, gamma),
        are_keys_of(pk, secrets, crs),
        ek.is_aggregate(pk, crs),
        c.t <= crs.n,
        s.len() == 5,
        c.is_encryption(crs, ek, c.t as int, messages, s),
    ensures
        ({
            let n = crs.n as int;
            let a0 = alphas[0];
            let sigma = sum(n, key_basis_terms(secret_terms(secrets), n, t));
            let tt = pow(t, c.t as nat);
            let z = pow(t, n as nat) - 1;
            let sa1 = vals(c.sa1@);
            let sa2 = vals(c.sa2@);
            &&& eqm(sa1[0], a0 * sigma * s[0] + a0 * tt * s[3] + a0 * s[4])
            &&& eqm(sa1[1], a0 * s[2])
            &&& eqm(sa2[0], a0 * s[0] + gamma * a0 * s[2])
            &&& eqm(sa2[1], a0 * z * s[0])
            &&& eqm(sa2[2], a0 * t * s[0] + a0 * (t * t) * s[1])
            &&& eqm(sa2[3], a0 * s[1])
            &&& eqm(sa2[4], a0 * s[3])
            &&& eqm(sa2[5], a0 * t * s[4])
        }),
{
    let n = crs.n as int;
    let a0 = alphas[0];
    let sk = secret_terms(secrets);
    let sigma = sum(n, key_basis_terms(sk, n, t));
    let tt = pow(t, c.t as nat);
    let z = pow(t, n as nat) - 1;
    assert(crs.slot_wf(0) && is_generated_slot(crs, 0, a0, t, gamma));
    let g = vals(crs.powers_of_g@[0]@);
    let h = vals(crs.powers_of_h@[0]@);
    let sa1 = vals(c.sa1@);
    let sa2 = vals(c.sa2@);
    // The aggregate of the keys.
    let f = key_terms(pk);
    let u = key_basis_terms(sk, n, t);
    let v = |i: int| a0 * u(i);
    assert forall|i: int| 0 <= i < n implies eqm(#[trigger] f(i), v(i)) by {
        assert(pk[i].is_key_of(secrets[i], i, crs));
        let x = crs.li@[0]@[i]@;
        let e = eval(lagrange(n, i), t);
        assert(pk[i].sk_li@[0]@ == (x * sk(i)) % modulus());
        assert(eqm(vals(crs.li@[0]@)[i], a0 * e));
        lemma_product(x, a0 * e, sk(i), sk(i));
        assert(a0 * e * sk(i) == a0 * (sk(i) * e)) by (nonlinear_arith);
    }
    lemma_sum_eqm(n, f, v);
    lemma_sum_scale(n, a0, u);
    // The powers.
    lemma_pow0(t);
    lemma_pow1(t);
    lemma_pow_adds(t, 1, 1);
    assert(a0 * 1 == a0);
    assert(eqm(g[0], a0 * pow(t, 0)));
    assert(eqm(g[c.t as int], a0 * tt));
    assert(eqm(h[0], a0 * pow(t, 0)));
    assert(eqm(h[1], a0 * pow(t, 1)));
    assert(eqm(h[2], a0 * pow(t, 2)));
    assert(eqm(h[n], a0 * pow(t, n as nat)));
    lemma_eqm_sub(h[n], a0 * pow(t, n as nat), h[0], a0);
    assert(a0 * pow(t, n as nat) - a0 == a0 * z) by (nonlinear_arith)
        requires
            z == pow(t, n as nat) - 1,
    ;
    assert(eqm(ek.z_g2@, a0 * z));
    assert(eqm(ek.gamma_g2@[0]@, gamma * a0));
    // The parts.
    lemma_eqm_mul(ek.ask@, a0 * sigma, s[0], s[0]);
    lemma_eqm_mul(g[c.t as int], a0 * tt, s[3], s[3]);
    lemma_eqm_mul(g[0], a0, s[4], s[4]);
    lemma_eqm_add(ek.ask@ * s[0], a0 * sigma * s[0], g[c.t as int] * s[3], a0 * tt * s[3]);
    lemma_eqm_add(
        ek.ask@ * s[0] + g[c.t as int] * s[3],
        a0 * sigma * s[0] + a0 * tt * s[3],
        g[0] * s[4],
        a0 * s[4],
    );
    assert(eqm(sa1[0], sa1_value(crs, ek, c.t as int, s, 0)));
    lemma_eqm_mul(g[0], a0, s[2], s[2]);
    assert(eqm(sa1[1], sa1_value(crs, ek, c.t as int, s, 1)));
    lemma_eqm_mul(h[0], a0, s[0], s[0]);
    lemma_eqm_mul(ek.gamma_g2@[0]@, gamma * a0, s[2], s[2]);
    lemma_eqm_add(h[0] * s[0], a0 * s[0], ek.gamma_g2@[0]@ * s[2], gamma * a0 * s[2]);
    assert(eqm(sa2[0], sa2_value(crs, ek, s, 0)));
    lemma_eqm_mul(ek.z_g2@, a0 * z, s[0], s[0]);
    assert(eqm(sa2[1], sa2_value(crs, ek, s, 1)));
    lemma_eqm_mul(h[1], a0 * t, s[0], s[0]);
    lemma_eqm_mul(h[2], a0 * (t * t), s[1], s[1]);
    lemma_eqm_add(h[1] * s[0], a0 * t * s[0], h[2] * s[1], a0 * (t * t) * s[1]);
    assert(eqm(sa2[2], sa2_value(crs, ek, s, 2)));
    lemma_eqm_mul(h[0], a0, s[1], s[1]);
    assert(eqm(sa2[3], sa2_value(crs, ek, s, 3)));
    lemma_eqm_mul(h[0], a0, s[3], s[3]);
    assert(eqm(sa2[4], sa2_value(crs, ek, s, 4)));
    lemma_eqm_mul(h[1], a0 * t, s[4], s[4]);
    assert(eqm(sa2[5], sa2_value(crs, ek, s, 5)));
}

/// The partial decryptions of the selected parties, weighted.
proof fn lemma_contributions(
    pds: Seq<PartialDecryption>,
    base: int,
    secrets: Seq<SecretKey>,
    selector: Seq<bool>,
    n: int,
    b: Seq<int>,
)
    requires
        is_domain_size(n),
        selector.len() == n,
        same_poly(b, selector_poly(selector, n, n)),
        are_contributions(pds, base, secrets, selector),
    ensures
        eqm(
            weighted_sum(b, n, pd_terms(pds)),
            base * weighted_sum(b, n, secret_terms(secrets)),
        ),
{
    let f = pd_terms(pds);
    let sk = secret_terms(secrets);
    assert forall|i: int| 0 <= i < n implies eqm(
        at_root(b, n, i) * #[trigger] f(i),
        at_root(b, n, i) * (base * sk(i)),
    ) by {
        let x = at_root(b, n, i);
        if selector[i] {
            assert(pds[i].pd@ == (base * sk(i)) % modulus());
            lemma_eqm_mod(base * sk(i));
            lemma_eqm_mul(x, x, f(i), base * sk(i));
        } else {
            lemma_selector_zero(selector, n, n, i);
            lemma_eval_same(b, selector_poly(selector, n, n), pow(unity_root(n), i as nat));
            lemma_eqm_mul(x, 0, f(i), f(i));
            lemma_eqm_mul(x, 0, base * sk(i), base * sk(i));
            assert(0 * f(i) == 0);
            assert(0 * (base * sk(i)) == 0);
        }
    }
    lemma_weighted_multiple(b, n, f, sk, base);
}

/// What masks the message of a slot comes to the mask that encryption put there.
#[verifier::rlimit(50)]
proof fn lemma_slot_mask_value(
    crs: &CRS,
    l: int,
    t: int,
    alphas: Seq<int>,
    gamma: int,
    secrets: Seq<SecretKey>,
    pk: Seq<LagPublicKey>,
    key: &AggregateKey,
    ek: &EncryptionKey,
    c: &Ciphertext,
    messages: Seq<int>,
    s: Seq<int>,
    pds: Seq<PartialDecryption>,
    selector: Seq<bool>,
    b: Seq<int>,
    k: int,
)
    requires
        crs.is_generated(crs.n as int, l, t, alphas, gamma),
        are_keys_of(pk, secrets, crs),
        key.is_aggregate(pk, crs),
        ek.is_aggregate(pk, crs),
        c.is_encryption(crs, ek, c.t as int, messages, s),
        s.len() == 5,
        selector.len() == crs.n,
        are_contributions(pds, c.sa1@[1]@, secrets, selector),
        same_poly(b, selector_poly(selector, crs.n as int, crs.n as int)),
        1 <= b.len() <= crs.n,
        b.len() + c.t <= crs.n + 1,
        b[0] == 1,
        0 <= k < l,
    ensures
        eqm(slot_mask(crs, key, pds, c, b, k), alphas[k] * alphas[0] * s[4]),
{
    let n = crs.n as int;
    let a = alphas[k];
    let a0 = alphas[0];
    let inv = size_inverse(n);
    let sk = secret_terms(secrets);
    let sigma = sum(n, key_basis_terms(sk, n, t));
    let tt = pow(t, c.t as nat);
    let z = pow(t, n as nat) - 1;
    let beta = eval(b, t);
    let rest = eval(tail(b), t);
    let ws = weighted_sum(b, n, sk);
    let u = inv * ws;
    let x = weighted_sum(b, n, key_x_terms(sk, n, t));
    let v = slot_cross(crs, k);
    let q = weighted_sum(b, n, key_cross_sums(sk, v, n));
    assert(crs.slot_wf(k) && is_generated_slot(crs, k, a, t, gamma));
    lemma_ciphertext_parts(crs, l, t, alphas, gamma, secrets, pk, ek, c, messages, s);
    lemma_slot_sums(crs, l, t, alphas, gamma, secrets, pk, key, b, k);
    let sa1 = vals(c.sa1@);
    let sa2 = vals(c.sa2@);
    let g = vals(crs.powers_of_g@[k]@);
    let h = vals(crs.powers_of_h@[k]@);
    let gm = crs.gamma_g2@[k]@;
    // Commitments.
    lemma_commitment_value(b, h, a, t);
    let pg = points_from(g, c.t as int);
    assert forall|j: int| 0 <= j < b.len() implies eqm(
        #[trigger] pg[j],
        (a * tt) * pow(t, j as nat),
    ) by {
        assert(eqm(g[c.t + j], a * pow(t, (c.t + j) as nat)));
        lemma_pow_adds(t, c.t as nat, j as nat);
        let y = pow(t, j as nat);
        assert(a * (tt * y) == a * tt * y) by (nonlinear_arith);
    }
    lemma_commitment_value(b, pg, a * tt, t);
    assert(a * tt * beta == a * (tt * beta)) by (nonlinear_arith);
    lemma_commitment_value(tail(b), g, a, t);
    // Weighted sums.
    let wb = weighted_sum(b, n, bls_terms(key.pk@, k));
    lemma_eqm_mul(inv, inv, wb, a * ws);
    assert(inv * (a * ws) == a * (inv * ws)) by (nonlinear_arith);
    lemma_contributions(pds, c.sa1@[1]@, secrets, selector, n, b);
    let wp = weighted_sum(b, n, pd_terms(pds));
    assert(sa1[1] == c.sa1@[1]@);
    lemma_eqm_mul(sa1[1], a0 * s[2], ws, ws);
    lemma_eqm_mul(inv, inv, wp, a0 * s[2] * ws);
    assert(inv * (a0 * s[2] * ws) == a0 * s[2] * (inv * ws)) by (nonlinear_arith);
    let wz = weighted_sum(b, n, agg_terms(key.agg_sk_li_lj_z@[k]@));
    let wx = weighted_sum(b, n, x_terms(key.pk@, k));
    let wm = weighted_sum(b, n, minus0_terms(key.pk@, k));
    // The sumcheck.
    assert forall|i: int, j: int| 0 <= i < n && 0 <= j < n implies eqm(
        #[trigger] v(i, j) * (pow(t, n as nat) - 1),
        a * eval(cross_product(n, i, j), t),
    ) by {
        lemma_slot_cross(crs, l, t, alphas, gamma, k, i, j);
    }
    lemma_sumcheck(b, sk, n, t, v, a);
    lemma_eval_tail(b, t);
    lemma_pairing_equation(a, a0, gamma, t, tt, z, sigma, beta, u, q, x, rest, s);
    // All eight pairings.
    let c0 = commitment(b, h);
    let c6 = commitment(b, pg);
    let c7 = commitment(tail(b), g);
    let p = seq![sa1[0], inv * wb, inv * wp, wz, wx, wm, c6, c7];
    let pp = seq![
        a0 * sigma * s[0] + a0 * tt * s[3] + a0 * s[4],
        a * u,
        a0 * s[2] * u,
        q,
        a * x,
        a * (t * t) * x,
        a * (tt * beta),
        a * rest,
    ];
    let r = seq![c0, sa2[0], gm, sa2[1], sa2[2], sa2[3], sa2[4], sa2[5]];
    let rr = seq![
        a * beta,
        a0 * s[0] + gamma * a0 * s[2],
        gamma * a,
        a0 * z * s[0],
        a0 * t * s[0] + a0 * (t * t) * s[1],
        a0 * s[1],
        a0 * s[3],
        a0 * t * s[4],
    ];
    assert forall|i: int| 0 <= i < 8 implies eqm(#[trigger] p[i], pp[i]) by {
    }
    assert forall|i: int| 0 <= i < 8 implies eqm(#[trigger] r[i], rr[i]) by {
    }
    lemma_mask_expr(p, pp, r, rr);
    assert(slot_mask(crs, key, pds, c, b, k) == mask_expr(p, r));
}

/// At least as many parties as the threshold asks for, each with its own key, decrypt what was
/// encrypted under the aggregate of their keys.
pub proof fn lemma_decryption_correct(
    crs: &CRS,
    l: int,
    t: int,
    alphas: Seq<int>,
    gamma: int,
    secrets: Seq<SecretKey>,
    pk: Seq<LagPublicKey>,
    key: &AggregateKey,
    ek: &EncryptionKey,
    c: &Ciphertext,
    messages: Seq<int>,
    s: Seq<int>,
    pds: Seq<PartialDecryption>,
    selector: Seq<bool>,
    res: Seq<int>,
)
    requires
        crs.is_generated(crs.n as int, l, t, alphas, gamma),
        are_keys_of(pk, secrets, crs),
        key.is_aggregate(pk, crs),
        ek.is_aggregate(pk, crs),
        s.len() == 5,
        messages.len() <= l,
        c.is_encryption(crs, ek, c.t as int, messages, s),
        selector.len() == crs.n,
        c.t <= selected_count(selector, crs.n as int),
        1 <= selected_count(selector, crs.n as int),
        are_contributions(pds, c.sa1@[1]@, secrets, selector),
        is_decryption(res, crs, key, pds, c, selector),
    ensures
        res.len() == messages.len(),
        forall|k: int| 0 <= k < messages.len() ==> eqm(#[trigger] res[k], messages[k]),
{
    let n = crs.n as int;
    let full = selector_poly(selector, n, n);
    lemma_selector_shape(selector, n, n);
    let b = lemma_short_selector(selector, n);
    assert(vals(c.ct@).len() == c.ct@.len());
    assert forall|k: int| 0 <= k < messages.len() implies eqm(#[trigger] res[k], messages[k]) by {
        let a = alphas[k];
        let a0 = alphas[0];
        assert(crs.slot_wf(0) && is_generated_slot(crs, 0, a0, t, gamma));
        assert(is_generated_slot(crs, k, a, t, gamma));
        lemma_slot_mask_same(crs, key, pds, c, b, full, k);
        lemma_slot_mask_value(
            crs,
            l,
            t,
            alphas,
            gamma,
            secrets,
            pk,
            key,
            ek,
            c,
            messages,
            s,
            pds,
            selector,
            b,
            k,
        );
        let m = slot_mask(crs, key, pds, c, full, k);
        let ck = c.ct@[k]@;
        assert(vals(c.ct@)[k] == ck);
        assert(eqm(ck, ct_value(ek, s, messages[k], k)));
        // The mask of the slot is the pairing of the bases.
        let h0 = crs.powers_of_h@[0]@[0]@;
        lemma_pow0(t);
        assert(eqm(vals(crs.powers_of_h@[0]@)[0], a0 * pow(t, 0)));
        assert(a0 * 1 == a0);
        lemma_product(a, a, h0, a0);
        let e = ek.e_gh@[k]@;
        lemma_eqm_mul(e, a * a0, s[4], s[4]);
        lemma_eqm_add(e * s[4], a * a0 * s[4], messages[k], messages[k]);
        lemma_eqm_sub(ck, a * a0 * s[4] + messages[k], m, a * a0 * s[4]);
    }
}

} // verus!
