//! Batched threshold encryption: pseudorandom functions over a pairing whose keys can be punctured.
use crate::algebra::congruence::{
    eqm, lemma_eqm_add, lemma_eqm_mod, lemma_eqm_mul, lemma_eqm_sub, modulus,
};
use crate::algebra::fourier::{
    cyclic, dft, is_transform, lemma_convolution, lemma_dft_injective, lemma_dft_padded, padded,
};
use crate::algebra::roots::{is_domain_size, unity_root};
use crate::algebra::sums::{
    lemma_sum_eq, lemma_sum_eqm, lemma_sum_scale, lemma_sum_single, lemma_sum_sub,
    lemma_sum_trailing_zeros, sum,
};
use crate::bte::crs::{lags, punctured_power, CRS};
use crate::field::{is_draw, vals, Scalar};
use crate::group::{g1_fft, gt_ifft, multi_pairing, pairing, G1, G2, Gt};
use ark_std::rand::rngs::StdRng;
use vstd::arithmetic::power::{lemma_pow_adds, pow};
use vstd::prelude::*;

pub mod crs;
pub mod decryption;
pub mod encryption;

verus! {

/// A key of the pseudorandom function.
#[derive(Clone, Copy, Debug)]
pub struct PRF {
    pub key: Scalar,
}

/// A key that is good for every input but one.
#[derive(Clone, Copy, Debug)]
pub struct PPRF {
    pub key: G1,
    pub point: usize,
}

/// The value of the function with the given key.
pub open spec fn prf_value(crs: &CRS, key: int, input: int) -> int {
    (crs.gt_powers@[input]@ * key) % modulus()
}

/// The key, punctured at a point.
pub open spec fn punctured_key(crs: &CRS, key: int, point: int) -> int {
    (crs.powers_of_g@[point]@ * key) % modulus()
}

/// Whether the punctured key belongs to the given key.
pub open spec fn is_punctured(crs: &CRS, pprf: PPRF, key: int) -> bool {
    pprf.point < crs.batch_size && pprf.key@ == punctured_key(crs, key, pprf.point as int)
}

/// What pairs with a key punctured at `point` for the given input.
pub open spec fn partner(crs: &CRS, point: int, input: int) -> int {
    crs.powers_of_h@[crs.batch_size + 1 + input - point]@
}

/// Whether the reference string holds the partner of `point` for the given input.
pub open spec fn has_partner(crs: &CRS, point: int, input: int) -> bool {
    &&& crs.batch_size + 1 + input <= usize::MAX
    &&& 0 <= crs.batch_size + 1 + input - point < crs.powers_of_h@.len()
}

/// The value of the function with a punctured key.
pub open spec fn pprf_value(crs: &CRS, pprf: PPRF, input: int) -> int {
    (pprf.key@ * partner(crs, pprf.point as int, input)) % modulus()
}

/// The contributions of punctured keys to the value at an input.
pub open spec fn batch_terms(crs: &CRS, pprfs: Seq<PPRF>, input: int) -> spec_fn(int) -> int {
    |j: int| pprfs[j].key@ * partner(crs, pprfs[j].point as int, input)
}

/// The sum of the values with all punctured keys.
pub open spec fn batch_value(crs: &CRS, pprfs: Seq<PPRF>, input: int) -> int {
    sum(pprfs.len() as int, batch_terms(crs, pprfs, input)) % modulus()
}

/// The contributions to the value at an input of keys that are punctured at their own positions.
pub open spec fn position_terms(crs: &CRS, pprfs: Seq<PPRF>, input: int) -> spec_fn(int) -> int {
    |j: int| pprfs[j].key@ * partner(crs, j, input)
}

/// The value at an input with the sum of the keys, less the values with all the keys punctured at
/// their own positions.
pub open spec fn mask_value(crs: &CRS, key: int, pprfs: Seq<PPRF>, input: int) -> int {
    (prf_value(crs, key, input) - sum(pprfs.len() as int, position_terms(crs, pprfs, input)))
        % modulus()
}

impl PRF {
    /// A random key: what the generator yields next.
    pub fn new(rng: &mut StdRng) -> (res: PRF)
        ensures
            0 <= res.key@ < modulus(),
            is_draw(*old(rng), *final(rng), res.key),
    {
        PRF { key: Scalar::random(rng) }
    }

    pub fn from_key(key: Scalar) -> (res: PRF)
        ensures
            res.key == key,
    {
        PRF { key }
    }

    /// The value at an input below the batch size.
    pub fn eval(&self, input: usize, crs: &CRS) -> (res: Gt)
        requires
            crs.wf(),
            input < crs.batch_size,
        ensures
            res@ == prf_value(crs, self.key@, input as int),
    {
        crs.gt_powers[input].mul(&self.key)
    }

    /// Punctures the key at a point below the batch size.
    pub fn puncture(&self, point: usize, crs: &CRS) -> (res: PPRF)
        requires
            crs.wf(),
            point < crs.batch_size,
        ensures
            res.point == point,
            is_punctured(crs, res, self.key@),
    {
        PPRF { key: crs.powers_of_g[point].mul(&self.key), point }
    }
}

impl PPRF {
    /// The value at an input other than the punctured point.
    pub fn eval(&self, input: usize, crs: &CRS) -> (res: Gt)
        requires
            input != crs.batch_size + 1,
            input != self.point,
            has_partner(crs, self.point as int, input as int),
        ensures
            res@ == pprf_value(crs, *self, input as int),
    {
        pairing(&self.key, &crs.powers_of_h[crs.batch_size + 1 + input - self.point])
    }
}

/// The sum of the values with all punctured keys at an input, by one multi-pairing.
pub fn batch_eval(pprfs: &[PPRF], input: usize, crs: &CRS) -> (res: Gt)
    requires
        forall|j: int|
            0 <= j < pprfs@.len() ==> has_partner(
                crs,
                (#[trigger] pprfs@[j]).point as int,
                input as int,
            ),
    ensures
        res@ == batch_value(crs, pprfs@, input as int),
{
    let mut lhs: Vec<G1> = Vec::new();
    let mut rhs: Vec<G2> = Vec::new();
    let mut j: usize = 0;
    while j < pprfs.len()
        invariant
            0 <= j <= pprfs@.len(),
            lhs@.len() == j,
            rhs@.len() == j,
            forall|i: int|
                0 <= i < pprfs@.len() ==> has_partner(
                    crs,
                    (#[trigger] pprfs@[i]).point as int,
                    input as int,
                ),
            forall|i: int| 0 <= i < j ==> (#[trigger] lhs@[i])@ == pprfs@[i].key@,
            forall|i: int|
                0 <= i < j ==> (#[trigger] rhs@[i])@ == partner(
                    crs,
                    pprfs@[i].point as int,
                    input as int,
                ),
        decreases pprfs@.len() - j,
    {
        assert(has_partner(crs, pprfs@[j as int].point as int, input as int));
        let pprf = pprfs[j];
        lhs.push(pprf.key);
        rhs.push(crs.powers_of_h[crs.batch_size + 1 + input - pprf.point]);
        j += 1;
    }
    proof {
        let f = batch_terms(crs, pprfs@, input as int);
        let g = |i: int| vals(lhs@)[i] * vals(rhs@)[i];
        assert forall|i: int| 0 <= i < pprfs@.len() implies #[trigger] f(i) == g(i) by {
            assert(vals(lhs@)[i] == lhs@[i]@);
            assert(vals(rhs@)[i] == rhs@[i]@);
        }
        lemma_sum_eq(pprfs@.len() as int, f, g);
    }
    multi_pairing(&lhs, &rhs)
}

/// The same as [`batch_eval`], by one pairing for each key.
pub fn naive_batch_eval(pprfs: &[PPRF], input: usize, crs: &CRS) -> (res: Gt)
    requires
        forall|j: int|
            0 <= j < pprfs@.len() ==> has_partner(
                crs,
                (#[trigger] pprfs@[j]).point as int,
                input as int,
            ),
    ensures
        res@ == batch_value(crs, pprfs@, input as int),
{
    let mut res = Gt::zero();
    let mut j: usize = 0;
    let ghost f = batch_terms(crs, pprfs@, input as int);
    while j < pprfs.len()
        invariant
            0 <= j <= pprfs@.len(),
            forall|i: int|
                0 <= i < pprfs@.len() ==> has_partner(
                    crs,
                    (#[trigger] pprfs@[i]).point as int,
                    input as int,
                ),
            f == batch_terms(crs, pprfs@, input as int),
            eqm(res@, sum(j as int, f)),
        decreases pprfs@.len() - j,
    {
        assert(has_partner(crs, pprfs@[j as int].point as int, input as int));
        let pprf = pprfs[j];
        let value = pairing(&pprf.key, &crs.powers_of_h[crs.batch_size + 1 + input - pprf.point]);
        proof {
            let term = pprf.key@ * partner(crs, pprf.point as int, input as int);
            assert(f(j as int) == term);
            lemma_eqm_mod(term);
            lemma_eqm_add(res@, sum(j as int, f), value@, term);
            lemma_eqm_mod(res@ + value@);
        }
        res = res.add(&value);
        j += 1;
    }
    proof {
        crate::group::lemma_gt_range(res);
        crate::algebra::congruence::lemma_reduced(res@);
    }
    res
}

/// Computes the masks at all inputs at once, from the sum of the keys and the keys punctured at
/// their own positions, by a cyclic convolution of the keys with the lags of the reference string.
pub fn fft_batch_eval(k_agg: &PRF, pprfs: &[PPRF], crs: &CRS) -> (res: Vec<Gt>)
    requires
        crs.wf(),
        pprfs@.len() == crs.batch_size,
    ensures
        res@.len() == crs.batch_size,
        forall|i: int|
            0 <= i < crs.batch_size ==> (#[trigger] res@[i])@ == mask_value(
                crs,
                k_agg.key@,
                pprfs@,
                i,
            ),
{
    let b: usize = crs.batch_size;
    let n: usize = crs.fft_size;
    proof {
        crs.lemma_fft_size();
    }

    let mut a_vec: Vec<G1> = Vec::new();
    let mut j: usize = 0;
    while j < b
        invariant
            0 <= j <= b,
            b == pprfs@.len(),
            a_vec@.len() == j,
            forall|i: int| 0 <= i < j ==> (#[trigger] a_vec@[i])@ == pprfs@[i].key@,
        decreases b - j,
    {
        a_vec.push(pprfs[j].key);
        j += 1;
    }
    let a_hat = g1_fft(&a_vec, n);
    assert(a_hat@.len() == vals(a_hat@).len());
    assert(crs.fft_h@.len() == vals(crs.fft_h@).len());

    let mut c_hat: Vec<Gt> = Vec::new();
    let mut k: usize = 0;
    while k < n
        invariant
            0 <= k <= n,
            n == a_hat@.len(),
            n == crs.fft_h@.len(),
            c_hat@.len() == k,
            forall|i: int|
                0 <= i < k ==> (#[trigger] c_hat@[i])@ == (a_hat@[i]@ * crs.fft_h@[i]@)
                    % modulus(),
        decreases n - k,
    {
        c_hat.push(pairing(&a_hat[k], &crs.fft_h[k]));
        k += 1;
    }
    let c = gt_ifft(&c_hat, n);

    let mut res: Vec<Gt> = Vec::new();
    let mut i: usize = 0;
    proof {
        let keys = vals(a_vec@);
        let h = vals(crs.powers_of_h@);
        assert(keys =~= Seq::new(b as nat, |m: int| pprfs@[m].key@));
        lemma_correlation(
            keys,
            h,
            b as int,
            n as int,
            vals(a_hat@),
            vals(crs.fft_h@),
            vals(c_hat@),
            vals(c@),
        );
        assert forall|m: int| 0 <= m < b implies eqm(
            (#[trigger] c@[m])@,
            sum(pprfs@.len() as int, position_terms(crs, pprfs@, m)),
        ) by {
            assert(vals(c@)[m] == c@[m]@);
            let f = correlation_terms(keys, h, b as int, m);
            let g = position_terms(crs, pprfs@, m);
            assert forall|q: int| 0 <= q < b implies #[trigger] f(q) == g(q) by {
                assert(h[b + 1 + m - q] == crs.powers_of_h@[b + 1 + m - q]@);
            }
            lemma_sum_eq(b as int, f, g);
        }
    }
    while i < b
        invariant
            0 <= i <= b,
            crs.wf(),
            b == crs.batch_size,
            b == pprfs@.len(),
            b <= c@.len(),
            res@.len() == i,
            forall|m: int|
                0 <= m < b ==> eqm(
                    (#[trigger] c@[m])@,
                    sum(pprfs@.len() as int, position_terms(crs, pprfs@, m)),
                ),
            forall|m: int|
                0 <= m < i ==> (#[trigger] res@[m])@ == mask_value(crs, k_agg.key@, pprfs@, m),
        decreases b - i,
    {
        let value = k_agg.eval(i, crs);
        proof {
            lemma_eqm_sub(
                value@,
                value@,
                c@[i as int]@,
                sum(pprfs@.len() as int, position_terms(crs, pprfs@, i as int)),
            );
        }
        res.push(value.sub(&c[i]));
        i += 1;
    }
    res
}

/// The products that meet at an input when the keys are correlated with the powers.
pub open spec fn correlation_terms(
    keys: Seq<int>,
    h: Seq<int>,
    b: int,
    input: int,
) -> spec_fn(int) -> int {
    |j: int| keys[j] * h[b + 1 + input - j]
}

/// The transform of the correlation of the keys with the powers is the product of the transforms
/// of the keys and of the lags.
proof fn lemma_correlation(
    keys: Seq<int>,
    h: Seq<int>,
    b: int,
    n: int,
    a_hat: Seq<int>,
    h_hat: Seq<int>,
    c_hat: Seq<int>,
    c: Seq<int>,
)
    requires
        1 <= b,
        2 * b <= n,
        is_domain_size(n),
        keys.len() == b,
        h.len() == 2 * b + 1,
        is_transform(keys, a_hat, n),
        is_transform(lags(h, b, n), h_hat, n),
        c_hat.len() == n,
        forall|k: int| 0 <= k < n ==> #[trigger] c_hat[k] == (a_hat[k] * h_hat[k]) % modulus(),
        c.len() == n,
        is_transform(c, c_hat, n),
    ensures
        forall|i: int|
            0 <= i < b ==> eqm(#[trigger] c[i], sum(b, correlation_terms(keys, h, b, i))),
{
    let w = unity_root(n);
    let a = padded(keys, n);
    let l = lags(h, b, n);
    let conv = cyclic(a, l, n);
    assert forall|k: int| 0 <= k < n implies eqm(#[trigger] dft(c, w, k), dft(conv, w, k)) by {
        assert(eqm(c_hat[k], dft(c, w, k)));
        assert(eqm(a_hat[k], dft(keys, w, k)));
        assert(eqm(h_hat[k], dft(l, w, k)));
        lemma_dft_padded(keys, n, w, k);
        lemma_eqm_mul(a_hat[k], dft(a, w, k), h_hat[k], dft(l, w, k));
        lemma_eqm_mod(a_hat[k] * h_hat[k]);
        lemma_convolution(n, a, l, k);
    }
    lemma_dft_injective(n, c, conv);
    assert forall|i: int| 0 <= i < b implies eqm(
        #[trigger] c[i],
        sum(b, correlation_terms(keys, h, b, i)),
    ) by {
        assert(eqm(c[i], conv[i]));
        let f = |j: int| a[j] * l[(i - j) % n];
        let g = correlation_terms(keys, h, b, i);
        assert forall|j: int| b <= j < n implies #[trigger] f(j) == 0 by {
            assert(a[j] == 0);
        }
        lemma_sum_trailing_zeros(b, n, f);
        assert forall|j: int| 0 <= j < b implies #[trigger] f(j) == g(j) by {
            if j <= i {
                vstd::arithmetic::div_mod::lemma_small_mod((i - j) as nat, n as nat);
            } else {
                vstd::arithmetic::div_mod::lemma_mod_add_multiples_vanish(i - j, n);
                vstd::arithmetic::div_mod::lemma_small_mod((n + i - j) as nat, n as nat);
            }
        }
        lemma_sum_eq(b, f, g);
    }
}

/// A contribution of a punctured key is nothing at the punctured point, and the value with the full
/// key elsewhere.
proof fn lemma_term(crs: &CRS, b: int, x: int, pprf: PPRF, key: int, input: int)
    requires
        crs.is_generated(b, x),
        is_punctured(crs, pprf, key),
        0 <= input < b,
    ensures
        pprf.point == input ==> pprf.key@ * partner(crs, pprf.point as int, input) == 0,
        pprf.point != input ==> eqm(
            pprf.key@ * partner(crs, pprf.point as int, input),
            key * crs.gt_powers@[input]@,
        ),
{
    let p = pprf.point as int;
    let at = b + 1 + input - p;
    assert(crs.powers_of_h@[at]@ == punctured_power(x, b, at));
    if p != input {
        assert(crs.powers_of_g@[p]@ == punctured_power(x, b, p));
        let u = pow(x, p as nat);
        let v = pow(x, at as nat);
        lemma_eqm_mod(u);
        lemma_eqm_mod(v);
        lemma_eqm_mod((u % modulus()) * key);
        lemma_eqm_mul(u % modulus(), u, key, key);
        lemma_eqm_mul(pprf.key@, u * key, v % modulus(), v);
        lemma_pow_adds(x, p as nat, at as nat);
        assert(u * key * v == key * (u * v)) by (nonlinear_arith);
        assert(crs.gt_powers@[input]@ == pow(x, (b + 1 + input) as nat) % modulus());
        lemma_eqm_mod(u * v);
        lemma_eqm_mul(key, key, u * v, crs.gt_powers@[input]@);
    } else {
        assert(pprf.key@ * 0 == 0) by (nonlinear_arith);
    }
}

/// A punctured key gives the same values as the full key, at every input but the punctured point.
pub proof fn lemma_puncture_agrees(crs: &CRS, b: int, x: int, pprf: PPRF, key: int, input: int)
    requires
        crs.is_generated(b, x),
        is_punctured(crs, pprf, key),
        0 <= input < b,
        input != pprf.point,
    ensures
        pprf_value(crs, pprf, input) == prf_value(crs, key, input),
{
    lemma_term(crs, b, x, pprf, key, input);
    assert(key * crs.gt_powers@[input]@ == crs.gt_powers@[input]@ * key) by (nonlinear_arith);
}

/// The values with two keys add up to the value with the sum of the keys.
pub proof fn lemma_prf_homomorphic(crs: &CRS, key1: int, key2: int, input: int)
    ensures
        (prf_value(crs, key1, input) + prf_value(crs, key2, input)) % modulus() == prf_value(
            crs,
            (key1 + key2) % modulus(),
            input,
        ),
{
    let p = crs.gt_powers@[input]@;
    lemma_eqm_mod(p * key1);
    lemma_eqm_mod(p * key2);
    lemma_eqm_add((p * key1) % modulus(), p * key1, (p * key2) % modulus(), p * key2);
    lemma_eqm_mod(key1 + key2);
    lemma_eqm_mul(p, p, (key1 + key2) % modulus(), key1 + key2);
    assert(p * key1 + p * key2 == p * (key1 + key2)) by (nonlinear_arith);
}

/// The sum of a list of keys.
pub open spec fn key_sum(keys: Seq<int>) -> int {
    sum(keys.len() as int, |j: int| keys[j]) % modulus()
}

/// The values with punctured keys add up to the value with the sum of the keys, at every input at
/// which none of them is punctured.
pub proof fn lemma_batch_homomorphic(
    crs: &CRS,
    b: int,
    x: int,
    pprfs: Seq<PPRF>,
    keys: Seq<int>,
    input: int,
)
    requires
        crs.is_generated(b, x),
        keys.len() == pprfs.len(),
        forall|j: int|
            0 <= j < pprfs.len() ==> is_punctured(crs, #[trigger] pprfs[j], keys[j])
                && pprfs[j].point != input,
        0 <= input < b,
    ensures
        batch_value(crs, pprfs, input) == prf_value(crs, key_sum(keys), input),
{
    let n = pprfs.len() as int;
    let p = crs.gt_powers@[input]@;
    let f = batch_terms(crs, pprfs, input);
    let k = |j: int| keys[j];
    let g = |j: int| p * k(j);
    assert forall|j: int| 0 <= j < n implies eqm(#[trigger] f(j), g(j)) by {
        assert(is_punctured(crs, pprfs[j], keys[j]));
        lemma_term(crs, b, x, pprfs[j], keys[j], input);
        assert(keys[j] * p == p * keys[j]) by (nonlinear_arith);
    }
    lemma_sum_eqm(n, f, g);
    lemma_sum_scale(n, p, k);
    lemma_eqm_mod(sum(n, k));
    lemma_eqm_mul(p, p, key_sum(keys), sum(n, k));
}

/// The value with the sum of the keys, less the values with all punctured keys, at a point at which
/// exactly one of them is punctured, is the value with that key. So the batch gives away exactly
/// the value that was punctured out of each key.
pub proof fn lemma_mask_recovered(
    crs: &CRS,
    b: int,
    x: int,
    pprfs: Seq<PPRF>,
    keys: Seq<int>,
    m: int,
)
    requires
        crs.is_generated(b, x),
        keys.len() == pprfs.len(),
        0 <= m < pprfs.len(),
        forall|j: int| 0 <= j < pprfs.len() ==> is_punctured(crs, #[trigger] pprfs[j], keys[j]),
        forall|j: int|
            0 <= j < pprfs.len() && j != m ==> (#[trigger] pprfs[j]).point != pprfs[m].point,
    ensures
        (prf_value(crs, key_sum(keys), pprfs[m].point as int) - batch_value(
            crs,
            pprfs,
            pprfs[m].point as int,
        )) % modulus() == prf_value(crs, keys[m], pprfs[m].point as int),
{
    let n = pprfs.len() as int;
    let input = pprfs[m].point as int;
    assert(is_punctured(crs, pprfs[m], keys[m]));
    let p = crs.gt_powers@[input]@;
    let f = batch_terms(crs, pprfs, input);
    let k = |j: int| keys[j];
    let g = |j: int| p * k(j);
    let d = |j: int| g(j) - f(j);
    let e = |j: int|
        if j == m {
            p * keys[m]
        } else {
            0
        };
    assert forall|j: int| 0 <= j < n implies eqm(#[trigger] d(j), e(j)) by {
        assert(is_punctured(crs, pprfs[j], keys[j]));
        lemma_term(crs, b, x, pprfs[j], keys[j], input);
        assert(keys[j] * p == p * keys[j]) by (nonlinear_arith);
        if j != m {
            assert(pprfs[j].point != input);
            assert(eqm(f(j), g(j)));
            lemma_eqm_sub(g(j), g(j), f(j), g(j));
        }
    }
    lemma_sum_sub(n, g, f);
    lemma_sum_eqm(n, d, e);
    lemma_sum_single(n, m, e);
    lemma_sum_scale(n, p, k);
    lemma_eqm_mod(sum(n, k));
    lemma_eqm_mul(p, p, key_sum(keys), sum(n, k));
    lemma_eqm_mod(p * key_sum(keys));
    lemma_eqm_mod(sum(n, f));
    lemma_eqm_sub(
        prf_value(crs, key_sum(keys), input),
        sum(n, g),
        batch_value(crs, pprfs, input),
        sum(n, f),
    );
}

/// Where every key is punctured at its own position, the mask at an input is the value with the sum
/// of the keys less the values with all punctured keys: the convolution gives the same masks as
/// separate evaluations.
pub proof fn lemma_fft_agrees(crs: &CRS, key: int, pprfs: Seq<PPRF>, input: int)
    requires
        forall|j: int| 0 <= j < pprfs.len() ==> (#[trigger] pprfs[j]).point == j,
    ensures
        mask_value(crs, key, pprfs, input) == (prf_value(crs, key, input) - batch_value(
            crs,
            pprfs,
            input,
        )) % modulus(),
{
    let n = pprfs.len() as int;
    let f = position_terms(crs, pprfs, input);
    let g = batch_terms(crs, pprfs, input);
    lemma_sum_eq(n, f, g);
    lemma_eqm_mod(sum(n, g));
    lemma_eqm_sub(
        prf_value(crs, key, input),
        prf_value(crs, key, input),
        sum(n, g) % modulus(),
        sum(n, g),
    );
}

} // verus!
