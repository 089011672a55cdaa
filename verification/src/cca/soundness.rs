//! What the equations that a verifier checks say of the values behind them, whoever made the proof.
//!
//! Responses to two challenges for the same first-round commitments lead to secrets that explain the
//! statement. Constraints of the range proof that vanish on the domain lead to a chunk in range.
use crate::algebra::congruence::{
    eqm, inverse_of, is_unit, lemma_eqm_add, lemma_eqm_difference, lemma_eqm_mod, lemma_eqm_mul,
    lemma_eqm_reduced, lemma_eqm_sub, lemma_modulus, lemma_unit_cancel, lemma_unit_eqm,
    lemma_unit_mul, modulus,
};
use crate::algebra::fourier::lemma_power_of_two_is_unit;
use crate::algebra::polynomial::{eval, lemma_eval_point};
use crate::algebra::primality::{lemma_no_zero_divisors, lemma_nonzero_is_unit};
use crate::algebra::quotients::{lemma_vanishing_without_at_root, vanishing_without};
use crate::algebra::roots::{lemma_root_difference_is_unit, lemma_root_is_unit};
use crate::bte::crs::CRS as BteCRS;
use crate::bte::encryption::{chunk_radix, Ciphertext};
use crate::cca::polynomials::{
    lemma_eval_range_poly, lemma_range_size, range_last, range_poly, range_root, range_size,
    step_value,
};
use crate::cca::schnorr::{
    is_witness, lemma_map_opens, less_multiple, opened_values, params_of, response, responses,
    schnorr_map, statement_values, SchnorrParams, SchnorrValues,
};
use crate::field::{vals, Scalar};
use crate::group::G1;
use crate::ste::aggregate::EncryptionKey;
use crate::ste::crs::CRS as SteCRS;
use vstd::arithmetic::power::{lemma_pow0, lemma_pow1, lemma_pow_adds, pow};
use vstd::arithmetic::power2::{lemma_pow2_unfold, pow2};
use vstd::prelude::*;

verus! {

/// Three combinations of three values vanish only if the values do, where the differences of the
/// factors can be divided by.
pub proof fn lemma_combinations_vanish(a: int, b: int, c: int, t: (int, int, int))
    requires
        is_unit(t.0 - t.1),
        is_unit(t.0 - t.2),
        is_unit(t.1 - t.2),
        eqm(a + b * t.0 + c * (t.0 * t.0), 0),
        eqm(a + b * t.1 + c * (t.1 * t.1), 0),
        eqm(a + b * t.2 + c * (t.2 * t.2), 0),
    ensures
        eqm(a, 0),
        eqm(b, 0),
        eqm(c, 0),
{
    let u = b + c * (t.0 + t.1);
    let v = b + c * (t.0 + t.2);
    lemma_combination_pair(a, b, c, t.0, t.1);
    lemma_combination_pair(a, b, c, t.0, t.2);
    lemma_eqm_sub(u, 0, v, 0);
    let d = t.1 - t.2;
    assert(c * (t.0 + t.1) - c * (t.0 + t.2) == d * c) by (nonlinear_arith)
        requires
            d == t.1 - t.2,
    ;
    assert(d * 0 == 0);
    lemma_unit_cancel(d, c, 0);
    lemma_eqm_mul(c, 0, t.0 + t.1, t.0 + t.1);
    assert(0 * (t.0 + t.1) == 0);
    lemma_eqm_sub(u, 0, c * (t.0 + t.1), 0);
    lemma_eqm_mul(b, 0, t.0, t.0);
    lemma_eqm_mul(c, 0, t.0 * t.0, t.0 * t.0);
    assert(0 * t.0 == 0);
    assert(0 * (t.0 * t.0) == 0);
    lemma_eqm_add(b * t.0, 0, c * (t.0 * t.0), 0);
    lemma_eqm_sub(a + b * t.0 + c * (t.0 * t.0), 0, b * t.0 + c * (t.0 * t.0), 0);
}

proof fn lemma_combination_pair(a: int, b: int, c: int, s: int, t: int)
    requires
        is_unit(s - t),
        eqm(a + b * s + c * (s * s), 0),
        eqm(a + b * t + c * (t * t), 0),
    ensures
        eqm(b + c * (s + t), 0),
{
    let d = s - t;
    let u = b + c * (s + t);
    lemma_eqm_sub(a + b * s + c * (s * s), 0, a + b * t + c * (t * t), 0);
    assert(d * (s + t) == s * s - t * t) by (nonlinear_arith)
        requires
            d == s - t,
    ;
    let w = s + t;
    let ss = s * s;
    let tt = t * t;
    assert(d * (b + c * w) == b * d + c * (d * w)) by (nonlinear_arith);
    assert(c * (ss - tt) == c * ss - c * tt) by (nonlinear_arith);
    assert(b * d == b * s - b * t) by (nonlinear_arith)
        requires
            d == s - t,
    ;
    assert(d * 0 == 0);
    lemma_unit_cancel(d, u, 0);
}

/// Whether a value is zero or one.
pub open spec fn is_bit(x: int) -> bool {
    eqm(x, 0) || eqm(x, 1)
}

/// What a value of the polynomial of a chunk has more than twice the next one.
pub open spec fn step_at(g: Seq<int>, i: int) -> int {
    eval(g, pow(range_root(), i as nat)) - eval(g, pow(range_root(), (i + 1) as nat)) * 2
}

/// Whether the combined constraints vanish on the domain.
pub open spec fn constraints_vanish(f: Seq<int>, g: Seq<int>, tau: int) -> bool {
    forall|j: int|
        0 <= j < range_size() ==> eqm(
            #[trigger] eval(range_poly(f, g, tau), pow(range_root(), j as nat)),
            0,
        )
}

/// Whether no two of three challenges are the same scalar.
pub open spec fn are_different(t: (int, int, int)) -> bool {
    !eqm(t.0, t.1) && !eqm(t.0, t.2) && !eqm(t.1, t.2)
}

proof fn lemma_different_units(t: (int, int, int))
    requires
        are_different(t),
    ensures
        is_unit(t.0 - t.1),
        is_unit(t.0 - t.2),
        is_unit(t.1 - t.2),
{
    lemma_eqm_difference(t.0, t.1);
    lemma_eqm_difference(t.0, t.2);
    lemma_eqm_difference(t.1, t.2);
    lemma_nonzero_is_unit(t.0 - t.1);
    lemma_nonzero_is_unit(t.0 - t.2);
    lemma_nonzero_is_unit(t.1 - t.2);
}

/// If the combined constraints vanish on the domain under three challenges, then the polynomial of
/// the chunk and that of the commitment agree at one, and the last value of the former and what each
/// other value has more than twice the next one are roots of `X * (1 - X)`.
pub proof fn lemma_constraints_enforced(f: Seq<int>, g: Seq<int>, t: (int, int, int))
    requires
        are_different(t),
        constraints_vanish(f, g, t.0),
        constraints_vanish(f, g, t.1),
        constraints_vanish(f, g, t.2),
    ensures
        eqm(eval(g, 1), eval(f, 1)),
        eqm(eval(g, range_last()) * (1 - eval(g, range_last())), 0),
        forall|i: int|
            0 <= i < range_size() - 1 ==> eqm(#[trigger] step_at(g, i) * (1 - step_at(g, i)), 0),
{
    let w = range_root();
    let n = range_size();
    lemma_different_units(t);
    lemma_range_size();
    lemma_pow0(w);
    // The first constraint, at one.
    lemma_constraints_split(f, g, t, 0);
    let e1 = eval(vanishing_without(n, 1), 1);
    lemma_own_factor_is_unit(1, 0);
    assert((eval(g, 1) - eval(f, 1)) * e1 == e1 * (eval(g, 1) - eval(f, 1))) by (nonlinear_arith);
    assert(e1 * 0 == 0);
    lemma_unit_cancel(e1, eval(g, 1) - eval(f, 1), 0);
    lemma_eqm_difference(eval(g, 1), eval(f, 1));
    // The second constraint, at the last element.
    let last = range_last();
    let x = pow(w, 15);
    lemma_eqm_mod(x);
    lemma_constraints_split(f, g, t, 15);
    let e2 = eval(vanishing_without(n, last), x);
    lemma_own_factor_is_unit(last, 15);
    lemma_eval_point(vanishing_without(n, last), last, x);
    lemma_unit_eqm(eval(vanishing_without(n, last), last), e2);
    let gx = eval(g, x);
    assert(gx * (1 - gx) * e2 == e2 * (gx * (1 - gx))) by (nonlinear_arith);
    assert(e2 * 0 == 0);
    lemma_unit_cancel(e2, gx * (1 - gx), 0);
    let gl = eval(g, last);
    lemma_eval_point(g, last, x);
    lemma_eqm_sub(1, 1, gl, gx);
    lemma_eqm_mul(gl, gx, 1 - gl, 1 - gx);
    // The third constraint, at all other elements.
    assert forall|i: int| 0 <= i < n - 1 implies eqm(
        #[trigger] step_at(g, i) * (1 - step_at(g, i)),
        0,
    ) by {
        let y = pow(w, i as nat);
        lemma_constraints_split(f, g, t, i);
        lemma_pow_adds(w, 1, i as nat);
        lemma_pow1(w);
        assert(w * y == pow(w, (i + 1) as nat));
        let s = step_at(g, i);
        let d = s * (1 - s);
        assert(step_value(eval(g, y), eval(g, w * y), y) == d * (y - last));
        lemma_root_difference_is_unit(n, i as nat, 15);
        lemma_eqm_sub(y, y, x, last);
        lemma_unit_eqm(y - x, y - last);
        assert(d * (y - last) == (y - last) * d) by (nonlinear_arith);
        assert((y - last) * 0 == 0);
        lemma_unit_cancel(y - last, d, 0);
    }
}

/// `X^16 - 1` without a linear factor does not vanish at the element of that factor.
proof fn lemma_own_factor_is_unit(c: int, i: nat)
    requires
        i < range_size(),
        eqm(c, pow(range_root(), i)),
    ensures
        is_unit(eval(vanishing_without(range_size(), c), c)),
{
    let n = range_size();
    let y = pow(range_root(), i);
    lemma_range_size();
    lemma_vanishing_without_at_root(n, c);
    lemma_root_is_unit(n, i);
    lemma_eqm_sub(y, y, y, c);
    lemma_unit_eqm(y, c);
    lemma_unit_pow(c, (n - 1) as nat);
    lemma_power_of_two_is_unit(n);
    lemma_unit_mul(n, pow(c, (n - 1) as nat));
}

proof fn lemma_unit_pow(c: int, e: nat)
    requires
        is_unit(c),
    ensures
        is_unit(pow(c, e)),
    decreases e,
{
    if e == 0 {
        lemma_pow0(c);
        assert(inverse_of(1, 1));
    } else {
        lemma_unit_pow(c, (e - 1) as nat);
        lemma_pow_adds(c, 1, (e - 1) as nat);
        lemma_pow1(c);
        lemma_unit_mul(c, pow(c, (e - 1) as nat));
    }
}

/// Each constraint vanishes where their combinations do.
proof fn lemma_constraints_split(f: Seq<int>, g: Seq<int>, t: (int, int, int), j: int)
    requires
        is_unit(t.0 - t.1),
        is_unit(t.0 - t.2),
        is_unit(t.1 - t.2),
        constraints_vanish(f, g, t.0),
        constraints_vanish(f, g, t.1),
        constraints_vanish(f, g, t.2),
        0 <= j < range_size(),
    ensures
        ({
            let x = pow(range_root(), j as nat);
            &&& eqm((eval(g, x) - eval(f, x)) * eval(vanishing_without(range_size(), 1), x), 0)
            &&& eqm(
                eval(g, x) * (1 - eval(g, x)) * eval(
                    vanishing_without(range_size(), range_last()),
                    x,
                ),
                0,
            )
            &&& eqm(step_value(eval(g, x), eval(g, range_root() * x), x), 0)
        }),
{
    let x = pow(range_root(), j as nat);
    let a = (eval(g, x) - eval(f, x)) * eval(vanishing_without(range_size(), 1), x);
    let b = eval(g, x) * (1 - eval(g, x)) * eval(vanishing_without(range_size(), range_last()), x);
    let c = step_value(eval(g, x), eval(g, range_root() * x), x);
    lemma_eval_range_poly(f, g, t.0, x);
    lemma_eval_range_poly(f, g, t.1, x);
    lemma_eval_range_poly(f, g, t.2, x);
    lemma_combinations_vanish(a, b, c, t);
}

/// If the polynomial of the chunk and that of the commitment agree at one, and the last value of the
/// former and what each other value has more than twice the next one are bits, then the committed
/// value is in range.
pub proof fn lemma_bits_in_range(f: Seq<int>, g: Seq<int>)
    requires
        eqm(eval(g, 1), eval(f, 1)),
        is_bit(eval(g, range_last())),
        forall|i: int| 0 <= i < range_size() - 1 ==> is_bit(#[trigger] step_at(g, i)),
    ensures
        exists|v: int| 0 <= v < chunk_radix() && #[trigger] eqm(eval(f, 1), v),
{
    let w = range_root();
    lemma_pow0(w);
    let x = pow(w, 15);
    lemma_eqm_mod(x);
    lemma_eval_point(g, range_last(), x);
    lemma_prefix_in_range(g, 15);
    let v = choose|v: int| 0 <= v < pow2(16) && #[trigger] eqm(eval(g, pow(w, 0)), v);
    vstd::arithmetic::power2::lemma2_to64();
    assert(eqm(eval(f, 1), v));
}

/// If the combined constraints vanish on the domain under three challenges, then the committed value
/// is in range.
pub proof fn lemma_constraints_give_range(f: Seq<int>, g: Seq<int>, t: (int, int, int))
    requires
        are_different(t),
        constraints_vanish(f, g, t.0),
        constraints_vanish(f, g, t.1),
        constraints_vanish(f, g, t.2),
    ensures
        exists|v: int| 0 <= v < chunk_radix() && #[trigger] eqm(eval(f, 1), v),
{
    lemma_constraints_enforced(f, g, t);
    lemma_root_is_bit(eval(g, range_last()));
    assert forall|i: int| 0 <= i < range_size() - 1 implies is_bit(#[trigger] step_at(g, i)) by {
        lemma_root_is_bit(step_at(g, i));
    }
    lemma_bits_in_range(f, g);
}

/// The roots of `X * (1 - X)` are zero and one.
proof fn lemma_root_is_bit(x: int)
    requires
        eqm(x * (1 - x), 0),
    ensures
        is_bit(x),
{
    lemma_no_zero_divisors(x, 1 - x);
    lemma_eqm_difference(1, x);
}

/// The value at an element of the domain has as many bits as elements are left.
proof fn lemma_prefix_in_range(g: Seq<int>, k: nat)
    requires
        k <= 15,
        is_bit(eval(g, pow(range_root(), 15))),
        forall|i: int| 0 <= i < range_size() - 1 ==> is_bit(#[trigger] step_at(g, i)),
    ensures
        exists|v: int|
            0 <= v < pow2(k + 1) && #[trigger] eqm(
                eval(g, pow(range_root(), (15 - k) as nat)),
                v,
            ),
    decreases k,
{
    let w = range_root();
    vstd::arithmetic::power2::lemma2_to64();
    let x = eval(g, pow(w, (15 - k) as nat));
    if k == 0 {
        if eqm(x, 0) {
            assert(eqm(x, 0));
        } else {
            assert(eqm(x, 1));
        }
    } else {
        lemma_prefix_in_range(g, (k - 1) as nat);
        let y = eval(g, pow(w, (16 - k) as nat));
        let u = choose|u: int|
            0 <= u < pow2(((k - 1) + 1) as nat) && #[trigger] eqm(
                eval(g, pow(w, (15 - (k - 1)) as nat)),
                u,
            );
        let s = step_at(g, 15 - k);
        assert(is_bit(s));
        let b: int = if eqm(s, 0) {
            0
        } else {
            1
        };
        lemma_eqm_mul(y, u, 2, 2);
        lemma_eqm_add(s, b, y * 2, u * 2);
        lemma_pow2_unfold(k + 1);
        let v = b + u * 2;
        assert(eqm(x, v));
    }
}

/// The first-round commitments that the responses to a challenge open.
pub open spec fn first_round(
    ciphertext: &Ciphertext,
    bte_crs: &BteCRS,
    ste_crs: &SteCRS,
    ek: &EncryptionKey,
    commitments: Seq<G1>,
    challenge: int,
    z_chunks: Seq<int>,
    z_ste_randomness: Seq<int>,
    z_commitment_randomness: Seq<int>,
) -> SchnorrValues {
    opened_values(
        schnorr_map(
            params_of(ciphertext, bte_crs, ste_crs, ek),
            z_chunks,
            z_ste_randomness,
            z_commitment_randomness,
        ),
        statement_values(ciphertext, commitments),
        challenge,
    )
}

/// What two responses say of the secret, with the inverse of the difference of the challenges.
pub open spec fn extracted(a: Seq<int>, b: Seq<int>, inverse: int) -> Seq<int> {
    Seq::new(a.len(), |i: int| ((a[i] - b[i]) * inverse) % modulus())
}

/// The first response is the one for the extracted secret, with the second response as its mask.
proof fn lemma_extracted_responses(a: Seq<int>, b: Seq<int>, c: int, inverse: int)
    requires
        a.len() == b.len(),
        inverse_of(c, inverse),
        forall|i: int| 0 <= i < a.len() ==> 0 <= #[trigger] a[i] < modulus(),
    ensures
        responses(b, c, extracted(a, b, inverse)) == a,
{
    let w = extracted(a, b, inverse);
    let z = responses(b, c, w);
    assert forall|i: int| 0 <= i < a.len() implies #[trigger] z[i] == a[i] by {
        let d = a[i] - b[i];
        lemma_eqm_mod(d * inverse);
        lemma_eqm_mul(c, c, w[i], d * inverse);
        lemma_eqm_mul(c * inverse, 1, d, d);
        assert(c * (d * inverse) == c * inverse * d) by (nonlinear_arith);
        lemma_eqm_mod(c * w[i]);
        lemma_eqm_add(b[i], b[i], (c * w[i]) % modulus(), d);
        lemma_eqm_mod(b[i] + (c * w[i]) % modulus());
        assert(z[i] == response(b[i], c, w[i]));
        lemma_eqm_reduced(z[i], a[i]);
    }
    assert(z =~= a);
}

/// A value that opens two challenges alike is the one that explains their responses.
proof fn lemma_explained(a: int, b: int, v: int, w: int, c: int, d: int)
    requires
        (a - v * c) % modulus() == (b - v * d) % modulus(),
        (a - w * (c - d)) % modulus() == b,
        is_unit(c - d),
        0 <= v < modulus(),
        0 <= w < modulus(),
    ensures
        v == w,
{
    let e = c - d;
    lemma_eqm_mod(a - w * e);
    // a - w * e is congruent to b, and a - v * c to b - v * d.
    lemma_eqm_sub(a - v * c, b - v * d, a - w * e, b);
    lemma_eqm_mul(-1, -1, w * e - v * c, -(v * d));
    assert(-1 * (w * e - v * c) == v * c - w * e);
    assert(-1 * -(v * d) == v * d);
    lemma_eqm_sub(v * c - w * e, v * d, v * d, v * d);
    assert(v * c - v * d == v * e) by (nonlinear_arith)
        requires
            e == c - d,
    ;
    assert(eqm(v * e - w * e, 0));
    lemma_eqm_add(v * e - w * e, 0, w * e, w * e);
    assert(v * e == e * v) by (nonlinear_arith);
    assert(w * e == e * w) by (nonlinear_arith);
    lemma_unit_cancel(e, v, w);
    lemma_eqm_reduced(v, w);
}

/// Public values are canonical representatives.
proof fn lemma_map_reduced(p: SchnorrParams, chunks: Seq<int>, s: Seq<int>, blinds: Seq<int>)
    ensures
        ({
            let w = schnorr_map(p, chunks, s, blinds);
            &&& 0 <= w.pprf_key < modulus()
            &&& 0 <= w.mask < modulus()
            &&& is_reduced(w.sa1)
            &&& is_reduced(w.sa2)
            &&& is_reduced(w.ct)
            &&& is_reduced(w.commitments)
        }),
{
    lemma_modulus();
}

/// Responses to two challenges that open the same first-round commitments lead to secrets of the
/// statement: chunks, encryption randomness and blinding scalars that give the punctured key, the
/// encrypted key, the mask and the commitments.
pub proof fn lemma_secrets_extracted(
    ciphertext: &Ciphertext,
    bte_crs: &BteCRS,
    ste_crs: &SteCRS,
    ek: &EncryptionKey,
    commitments: Seq<G1>,
    challenge1: int,
    z_chunks1: Seq<Scalar>,
    z_ste_randomness1: Seq<Scalar>,
    z_commitment_randomness1: Seq<Scalar>,
    challenge2: int,
    z_chunks2: Seq<Scalar>,
    z_ste_randomness2: Seq<Scalar>,
    z_commitment_randomness2: Seq<Scalar>,
    inverse: int,
)
    requires
        ciphertext.encrypted_key.ct@.len() == commitments.len(),
        z_chunks1.len() == commitments.len(),
        z_chunks2.len() == commitments.len(),
        z_commitment_randomness1.len() == commitments.len(),
        z_commitment_randomness2.len() == commitments.len(),
        z_ste_randomness1.len() == 5,
        z_ste_randomness2.len() == 5,
        inverse_of(challenge1 - challenge2, inverse),
        first_round(
            ciphertext,
            bte_crs,
            ste_crs,
            ek,
            commitments,
            challenge1,
            vals(z_chunks1),
            vals(z_ste_randomness1),
            vals(z_commitment_randomness1),
        ) == first_round(
            ciphertext,
            bte_crs,
            ste_crs,
            ek,
            commitments,
            challenge2,
            vals(z_chunks2),
            vals(z_ste_randomness2),
            vals(z_commitment_randomness2),
        ),
    ensures
        is_witness(
            ciphertext,
            bte_crs,
            ste_crs,
            ek,
            commitments,
            extracted(vals(z_chunks1), vals(z_chunks2), inverse),
            extracted(vals(z_ste_randomness1), vals(z_ste_randomness2), inverse),
            extracted(vals(z_commitment_randomness1), vals(z_commitment_randomness2), inverse),
        ),
{
    broadcast use crate::field::lemma_scalar_range;

    let p = params_of(ciphertext, bte_crs, ste_crs, ek);
    let c = challenge1 - challenge2;
    let chunks = extracted(vals(z_chunks1), vals(z_chunks2), inverse);
    let s = extracted(vals(z_ste_randomness1), vals(z_ste_randomness2), inverse);
    let blinds = extracted(vals(z_commitment_randomness1), vals(z_commitment_randomness2), inverse);
    lemma_extracted_responses(vals(z_chunks1), vals(z_chunks2), c, inverse);
    lemma_extracted_responses(vals(z_ste_randomness1), vals(z_ste_randomness2), c, inverse);
    lemma_extracted_responses(
        vals(z_commitment_randomness1),
        vals(z_commitment_randomness2),
        c,
        inverse,
    );
    lemma_map_opens(
        p,
        vals(z_chunks2),
        vals(z_ste_randomness2),
        vals(z_commitment_randomness2),
        chunks,
        s,
        blinds,
        c,
    );
    let a = schnorr_map(
        p,
        vals(z_chunks1),
        vals(z_ste_randomness1),
        vals(z_commitment_randomness1),
    );
    let b = schnorr_map(
        p,
        vals(z_chunks2),
        vals(z_ste_randomness2),
        vals(z_commitment_randomness2),
    );
    let w = schnorr_map(p, chunks, s, blinds);
    lemma_map_reduced(p, chunks, s, blinds);
    lemma_values_explained(a, b, w, challenge1, challenge2, ciphertext, commitments);
}

/// The same for lists of values.
proof fn lemma_lists_explained(a: Seq<int>, b: Seq<int>, v: Seq<int>, w: Seq<int>, c: int, d: int)
    requires
        less_multiple(a, v, c) == less_multiple(b, v, d),
        less_multiple(a, w, c - d) == b,
        is_unit(c - d),
        a.len() == v.len() == w.len(),
        is_reduced(v),
        is_reduced(w),
    ensures
        v == w,
{
    let x = less_multiple(a, v, c);
    let y = less_multiple(b, v, d);
    let z = less_multiple(a, w, c - d);
    assert forall|i: int| 0 <= i < v.len() implies #[trigger] v[i] == w[i] by {
        assert(x[i] == (a[i] - v[i] * c) % modulus());
        assert(y[i] == (b[i] - v[i] * d) % modulus());
        assert(z[i] == (a[i] - w[i] * (c - d)) % modulus());
        lemma_explained(a[i], b[i], v[i], w[i], c, d);
    }
    assert(v =~= w);
}

/// Whether all values are canonical representatives.
spec fn is_reduced(v: Seq<int>) -> bool {
    forall|i: int| 0 <= i < v.len() ==> 0 <= #[trigger] v[i] < modulus()
}

/// The same for all public values of a statement.
proof fn lemma_values_explained(
    a: SchnorrValues,
    b: SchnorrValues,
    w: SchnorrValues,
    c: int,
    d: int,
    ciphertext: &Ciphertext,
    commitments: Seq<G1>,
)
    requires
        opened_values(a, statement_values(ciphertext, commitments), c) == opened_values(
            b,
            statement_values(ciphertext, commitments),
            d,
        ),
        opened_values(a, w, c - d) == b,
        is_unit(c - d),
        0 <= w.pprf_key < modulus(),
        0 <= w.mask < modulus(),
        is_reduced(w.sa1),
        is_reduced(w.sa2),
        is_reduced(w.ct),
        is_reduced(w.commitments),
        a.sa1.len() == w.sa1.len() == 2,
        a.sa2.len() == w.sa2.len() == 6,
        a.ct.len() == w.ct.len() == ciphertext.encrypted_key.ct@.len(),
        a.commitments.len() == w.commitments.len() == commitments.len(),
    ensures
        statement_values(ciphertext, commitments) == w,
{
    broadcast use crate::group::lemma_g1_range, crate::group::lemma_g2_range;
    broadcast use crate::group::lemma_gt_range;

    let v = statement_values(ciphertext, commitments);
    let x = opened_values(a, v, c);
    let y = opened_values(b, v, d);
    let z = opened_values(a, w, c - d);
    assert(x.sa1 == y.sa1 && x.sa2 == y.sa2 && x.ct == y.ct && x.commitments == y.commitments);
    assert(z.sa1 == b.sa1 && z.sa2 == b.sa2 && z.ct == b.ct && z.commitments == b.commitments);
    lemma_explained(a.pprf_key, b.pprf_key, v.pprf_key, w.pprf_key, c, d);
    lemma_explained(a.mask, b.mask, v.mask, w.mask, c, d);
    lemma_lists_explained(a.sa1, b.sa1, v.sa1, w.sa1, c, d);
    lemma_lists_explained(a.sa2, b.sa2, v.sa2, w.sa2, c, d);
    lemma_lists_explained(a.ct, b.ct, v.ct, w.ct, c, d);
    lemma_lists_explained(a.commitments, b.commitments, v.commitments, w.commitments, c, d);
}

} // verus!
