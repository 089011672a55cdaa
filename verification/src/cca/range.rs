//! The proof that every committed chunk is in range.
//!
//! For each chunk the prover commits to a polynomial that holds, on a domain with one element for
//! each bit, what the chunk has left without its lowest bits, and to the quotient of the combined
//! constraints on it. The verifier checks three openings and one identity for each chunk.
use crate::algebra::congruence::{
    eqm, inverse_of, is_unit, lemma_eqm_add, lemma_eqm_difference, lemma_eqm_mod, lemma_eqm_mul,
    lemma_eqm_pow, lemma_eqm_sub, lemma_modulus, lemma_reduced, lemma_unit_cancel, modulus,
};
use crate::algebra::polynomial::{
    commitment, eval, is_quotient, lemma_commitment_value, lemma_eval_add, lemma_eval_point,
    lemma_eval_same, lemma_eval_scale, lemma_linear_quotient, lemma_quotient_exact, linear,
    poly_add, poly_scale, same_poly, vanishing,
};
use crate::algebra::quotients::{
    lemma_add_same, lemma_quotient_same, lemma_root_power_order, lemma_same_trans,
    lemma_vanishing_without_value, vanishing_without,
};
use crate::algebra::roots::{lemma_root_difference_is_unit, unity_root};
use crate::algebra::sums::sum;
use crate::bte::encryption::{chunk_radix, EncryptionWitness, CHUNK_BITS};
use crate::cca::polynomials::{
    is_bit_poly, is_in_range_domain, is_range_element, lemma_eval_pedersen, lemma_eval_range_poly,
    lemma_range_size, pedersen_poly, pedersen_polynomial, range_g_polynomial, range_last,
    range_omega, range_poly, range_q_polynomial, range_root, range_size, step_value,
    without_low_bits,
};
use crate::cca::{
    are_pedersen, blinding_base, pedersen_value, pedersen_value_base, range_digest,
    range_params_digest, value_base, PedersenCommitments, PedersenOpenings,
};
use crate::field::{are_draws, le_bytes, lemma_next_draw, vals, Scalar};
use crate::group::{pairing, G1};
use crate::poly::Poly;
use crate::ste::crs::{is_generated_slot, is_opening_proof, CRS};
use crate::transcript::{bytes_entry, challenge_of, framed, list_entry, size_entry, Transcript};
use ark_std::rand::rngs::StdRng;
use vstd::arithmetic::power::{lemma_pow0, lemma_pow1, lemma_pow_adds, pow};
use vstd::prelude::*;
use vstd::string::StringSliceAdditionalSpecFns;

verus! {

/// A range proof for all committed chunks.
#[derive(Clone, Debug, PartialEq)]
pub struct RangeProof {
    /// Commitments to the polynomials of the chunks.
    pub g_commitments: Vec<G1>,
    /// Commitments to the quotients of the combined constraints.
    pub q_commitments: Vec<G1>,
    /// The challenge that combines the constraints.
    pub tau: Scalar,
    /// The point at which the polynomials are opened, outside of the domain.
    pub rho: Scalar,
    pub openings: Vec<RangeChunkProof>,
}

/// The openings for one chunk.
#[derive(Clone, Copy, Debug, PartialEq)]
pub struct RangeChunkProof {
    /// The value of the polynomial of the chunk at the point.
    pub g_at_rho: Scalar,
    /// Its value at the point times the generator of the domain.
    pub g_at_rho_omega: Scalar,
    /// The value of the linear combination of the committed polynomials at the point.
    pub w_hat_at_rho: Scalar,
    pub g_opening_at_rho: G1,
    pub g_opening_at_rho_omega: G1,
    pub w_hat_opening_at_rho: G1,
}

/// The least number of powers that the reference string has to hold.
pub open spec fn required_powers() -> int {
    2 * CHUNK_BITS + 3
}

/// Whether every slot of the reference string has enough powers.
pub open spec fn has_enough_powers(crs: &CRS) -> bool {
    &&& forall|k: int|
        0 <= k < crs.l && k < crs.powers_of_g@.len() ==> (#[trigger] crs.powers_of_g@[k])@.len()
            >= required_powers()
    &&& crs.powers_of_h@[0]@.len() >= required_powers()
}

/// Whether the reference string has enough slots and powers for the commitments.
pub open spec fn range_shape(commitments: int, crs: &CRS) -> bool {
    commitments <= crs.l && has_enough_powers(crs)
}

/// What a verifier reads of a reference string whose shape it has not checked is there.
pub open spec fn can_check_range(commitments: int, crs: &CRS) -> bool {
    &&& 1 <= crs.powers_of_h@.len()
    &&& commitments <= crs.l ==> commitments <= crs.powers_of_g@.len()
}

/// A reference string that is well formed has enough powers if there are enough parties.
pub proof fn lemma_enough_powers(crs: &CRS)
    requires
        crs.wf(),
    ensures
        has_enough_powers(crs) <==> crs.n + 1 >= required_powers(),
{
    assert(crs.slot_wf(0));
    assert(crs.powers_of_g@[0]@.len() == crs.n + 1);
    assert forall|k: int| 0 <= k < crs.l implies (#[trigger] crs.powers_of_g@[k])@.len() == crs.n
        + 1 by {
        assert(crs.slot_wf(k));
    }
}

fn validate_range_statement_shape(chunk_commitments: &PedersenCommitments, ste_crs: &CRS) -> (res:
    Result<(), ()>)
    requires
        1 <= ste_crs.powers_of_h@.len(),
    ensures
        res is Ok <==> range_shape(chunk_commitments.commitments@.len() as int, ste_crs),
{
    if chunk_commitments.commitments.len() > ste_crs.l || !range_crs_has_enough_degree(ste_crs) {
        return Err(());
    }
    Ok(())
}

pub fn range_crs_has_enough_degree(ste_crs: &CRS) -> (res: bool)
    requires
        1 <= ste_crs.powers_of_h@.len(),
    ensures
        res == has_enough_powers(ste_crs),
{
    let required_len: usize = 2 * (CHUNK_BITS as usize) + 3;
    let mut k: usize = 0;
    while k < ste_crs.l && k < ste_crs.powers_of_g.len()
        invariant
            0 <= k <= ste_crs.l,
            required_len == required_powers(),
            forall|i: int|
                0 <= i < k && i < ste_crs.powers_of_g@.len() ==> (
                #[trigger] ste_crs.powers_of_g@[i])@.len() >= required_powers(),
        decreases ste_crs.l - k,
    {
        if ste_crs.powers_of_g[k].len() < required_len {
            return false;
        }
        k += 1;
    }
    ste_crs.powers_of_h[0].len() >= required_len
}

/// What is said before the challenge that combines the constraints.
pub open spec fn tau_transcript(
    digest: Seq<u8>,
    commitments: Seq<G1>,
    g_commitments: Seq<G1>,
) -> Seq<u8> {
    framed("BSTE-CCA-RANGE-PROOF-TAU-V1".spec_bytes()) + bytes_entry(
        "range_params_digest".spec_bytes(),
        digest,
    ) + list_entry("chunk_commitments".spec_bytes(), commitments) + list_entry(
        "g_commitments".spec_bytes(),
        g_commitments,
    )
}

/// The challenge that combines the constraints.
pub open spec fn tau_value(digest: Seq<u8>, commitments: Seq<G1>, g_commitments: Seq<G1>) -> int {
    challenge_of(tau_transcript(digest, commitments, g_commitments))
}

fn range_tau_challenge(
    range_params_digest: &[u8; 32],
    chunk_commitments: &PedersenCommitments,
    g_commitments: &Vec<G1>,
) -> (res: Scalar)
    ensures
        res@ == tau_value(
            range_params_digest@,
            chunk_commitments.commitments@,
            g_commitments@,
        ),
{
    let mut transcript = Transcript::new("BSTE-CCA-RANGE-PROOF-TAU-V1");
    transcript.append_bytes("range_params_digest", range_params_digest.as_slice());
    transcript.append_serializable_slice("chunk_commitments", &chunk_commitments.commitments);
    transcript.append_serializable_slice("g_commitments", g_commitments);
    transcript.challenge()
}

/// What is said before the first candidate for the point at which polynomials are opened.
pub open spec fn rho_transcript(
    digest: Seq<u8>,
    commitments: Seq<G1>,
    g_commitments: Seq<G1>,
    tau: int,
    q_commitments: Seq<G1>,
) -> Seq<u8> {
    framed("BSTE-CCA-RANGE-PROOF-RHO-V1".spec_bytes()) + bytes_entry(
        "range_params_digest".spec_bytes(),
        digest,
    ) + list_entry("chunk_commitments".spec_bytes(), commitments) + list_entry(
        "g_commitments".spec_bytes(),
        g_commitments,
    ) + bytes_entry("tau".spec_bytes(), le_bytes(tau, 32)) + list_entry(
        "q_commitments".spec_bytes(),
        q_commitments,
    )
}

/// The first candidate for the point at which polynomials are opened.
pub open spec fn rho_start(
    digest: Seq<u8>,
    commitments: Seq<G1>,
    g_commitments: Seq<G1>,
    tau: int,
    q_commitments: Seq<G1>,
) -> int {
    challenge_of(rho_transcript(digest, commitments, g_commitments, tau, q_commitments))
}

/// The candidates for the point, each drawn from the one before.
pub open spec fn rho_candidate(start: int, k: int) -> int
    decreases k,
{
    if k <= 0 {
        start
    } else {
        challenge_of(
            framed("BSTE-CCA-RANGE-PROOF-RHO-RETRY-V1".spec_bytes()) + bytes_entry(
                "rho".spec_bytes(),
                le_bytes(rho_candidate(start, k - 1), 32),
            ) + size_entry("counter".spec_bytes(), k - 1),
        )
    }
}

/// Whether the candidate with the index is the first outside of the domain.
pub open spec fn is_first_outside(start: int, k: int) -> bool {
    &&& 0 <= k <= usize::MAX
    &&& !is_range_element(rho_candidate(start, k))
    &&& forall|j: int| 0 <= j < k ==> is_range_element(#[trigger] rho_candidate(start, j))
}

/// Whether the point is the first candidate outside of the domain.
pub open spec fn is_rho(start: int, rho: int) -> bool {
    exists|k: int| #[trigger] is_first_outside(start, k) && rho == rho_candidate(start, k)
}

/// There is at most one first candidate outside of the domain.
proof fn lemma_rho_unique(start: int, a: int, b: int)
    requires
        is_rho(start, a),
        is_rho(start, b),
    ensures
        a == b,
{
    let j = choose|k: int| #[trigger] is_first_outside(start, k) && a == rho_candidate(start, k);
    let k = choose|k: int| #[trigger] is_first_outside(start, k) && b == rho_candidate(start, k);
    if j < k {
        assert(is_range_element(rho_candidate(start, j)));
    }
    if k < j {
        assert(is_range_element(rho_candidate(start, k)));
    }
}

/// The point at which polynomials are opened: the first candidate outside of the domain, if there is
/// one among those that a counter can number.
fn range_rho_challenge(
    range_params_digest: &[u8; 32],
    chunk_commitments: &PedersenCommitments,
    g_commitments: &Vec<G1>,
    tau: &Scalar,
    q_commitments: &Vec<G1>,
) -> (res: Option<Scalar>)
    ensures
        ({
            let start = rho_start(
                range_params_digest@,
                chunk_commitments.commitments@,
                g_commitments@,
                tau@,
                q_commitments@,
            );
            match res {
                Some(rho) => is_rho(start, rho@),
                None => forall|rho: int| !#[trigger] is_rho(start, rho),
            }
        }),
{
    let mut transcript = Transcript::new("BSTE-CCA-RANGE-PROOF-RHO-V1");
    transcript.append_bytes("range_params_digest", range_params_digest.as_slice());
    transcript.append_serializable_slice("chunk_commitments", &chunk_commitments.commitments);
    transcript.append_serializable_slice("g_commitments", g_commitments);
    transcript.append_serializable("tau", tau);
    transcript.append_serializable_slice("q_commitments", q_commitments);
    let mut rho = transcript.challenge();
    let ghost start = rho@;
    let mut counter: usize = 0;
    while is_in_range_domain(&rho)
        invariant
            rho@ == rho_candidate(start, counter as int),
            forall|j: int|
                0 <= j < counter ==> is_range_element(#[trigger] rho_candidate(start, j)),
            start == rho_start(
                range_params_digest@,
                chunk_commitments.commitments@,
                g_commitments@,
                tau@,
                q_commitments@,
            ),
        decreases usize::MAX - counter,
    {
        if counter == usize::MAX {
            assert forall|r: int| !#[trigger] is_rho(start, r) by {
                if is_rho(start, r) {
                    let k = choose|k: int| #[trigger]
                        is_first_outside(start, k) && r == rho_candidate(start, k);
                    if k < counter {
                        assert(is_range_element(rho_candidate(start, k)));
                    }
                }
            }
            return None;
        }
        let mut retry = Transcript::new("BSTE-CCA-RANGE-PROOF-RHO-RETRY-V1");
        retry.append_serializable("rho", &rho);
        retry.append_usize("counter", counter);
        rho = retry.challenge();
        counter += 1;
    }
    assert(is_first_outside(start, counter as int));
    Some(rho)
}

/// Whether a commitment in a slot opens to a value at a point, by the pairing equation.
pub open spec fn is_kzg_opening(
    crs: &CRS,
    slot: int,
    c: int,
    point: int,
    value: int,
    opening: int,
) -> bool {
    let h = crs.powers_of_h@[0]@;
    eqm((c - value_base(crs, slot) * value) * h[0]@, opening * (h[1]@ - h[0]@ * point))
}

fn verify_kzg_opening(
    ste_crs: &CRS,
    chunk: usize,
    commitment: &G1,
    point: &Scalar,
    value: &Scalar,
    opening: &G1,
) -> (res: bool)
    requires
        chunk < ste_crs.powers_of_g@.len(),
        1 <= ste_crs.powers_of_g@[chunk as int]@.len(),
        1 <= ste_crs.powers_of_h@.len(),
        2 <= ste_crs.powers_of_h@[0]@.len(),
    ensures
        res == is_kzg_opening(ste_crs, chunk as int, commitment@, point@, value@, opening@),
{
    let value_point = pedersen_value_base(ste_crs, chunk);
    let h0 = ste_crs.powers_of_h[0][0];
    let h1 = ste_crs.powers_of_h[0][1];
    let difference = commitment.sub(&value_point.mul(value));
    let shifted = h1.sub(&h0.mul(point));
    let lhs = pairing(&difference, &h0);
    let rhs = pairing(opening, &shifted);
    proof {
        let vb = value_base(ste_crs, chunk as int);
        lemma_eqm_mod(vb * value@);
        lemma_eqm_sub(commitment@, commitment@, (vb * value@) % modulus(), vb * value@);
        lemma_eqm_mod(commitment@ - (vb * value@) % modulus());
        lemma_eqm_mul(difference@, commitment@ - vb * value@, h0@, h0@);
        lemma_eqm_mod(h0@ * point@);
        lemma_eqm_sub(h1@, h1@, (h0@ * point@) % modulus(), h0@ * point@);
        lemma_eqm_mod(h1@ - (h0@ * point@) % modulus());
        lemma_eqm_mul(opening@, opening@, shifted@, h1@ - h0@ * point@);
    }
    lhs.equals(&rhs)
}

/// An opening proof of a polynomial that was committed to is accepted.
pub proof fn lemma_kzg_complete(
    crs: &CRS,
    l: int,
    t: int,
    alphas: Seq<int>,
    gamma: int,
    slot: int,
    p: Seq<int>,
    c: int,
    point: int,
    value: int,
    opening: int,
)
    requires
        crs.is_generated(crs.n as int, l, t, alphas, gamma),
        0 <= slot < l,
        p.len() <= crs.n + 1,
        eqm(c, commitment(p, vals(crs.powers_of_g@[slot]@))),
        eqm(value, eval(p, point)),
        is_opening_proof(p, point, vals(crs.powers_of_g@[slot]@), opening),
    ensures
        is_kzg_opening(crs, slot, c, point, value, opening),
{
    let a = alphas[slot];
    let a0 = alphas[0];
    assert(crs.slot_wf(slot) && is_generated_slot(crs, slot, a, t, gamma));
    assert(crs.slot_wf(0) && is_generated_slot(crs, 0, a0, t, gamma));
    let g = vals(crs.powers_of_g@[slot]@);
    let h = vals(crs.powers_of_h@[0]@);
    let q = choose|q: Seq<int>| #[trigger]
        is_quotient(q, p, linear(point)) && q.len() <= p.len() && opening == commitment(q, g)
            % modulus();
    lemma_commitment_value(p, g, a, t);
    lemma_commitment_value(q, g, a, t);
    lemma_eqm_mod(commitment(q, g));
    lemma_linear_quotient(q, p, point, t);
    lemma_pow0(t);
    lemma_pow1(t);
    assert(a * 1 == a && a0 * 1 == a0);
    assert(eqm(g[0], a * pow(t, 0)));
    assert(eqm(h[0], a0 * pow(t, 0)));
    assert(eqm(h[1], a0 * pow(t, 1)));
    let vb = value_base(crs, slot);
    let h0 = crs.powers_of_h@[0]@[0]@;
    let h1 = crs.powers_of_h@[0]@[1]@;
    let pt = eval(p, t);
    let pz = eval(p, point);
    let qt = eval(q, t);
    // The left-hand side is `a * (p(t) - p(point)) * a0`.
    lemma_eqm_mul(vb, a, value, pz);
    lemma_eqm_sub(c, a * pt, vb * value, a * pz);
    assert(a * pt - a * pz == a * (pt - pz)) by (nonlinear_arith);
    lemma_eqm_mul(a, a, pt - pz, qt * (t - point));
    lemma_eqm_mul(c - vb * value, a * (qt * (t - point)), h0, a0);
    // The right-hand side is `a * q(t) * (a0 * t - a0 * point)`.
    lemma_eqm_mul(h0, a0, point, point);
    lemma_eqm_sub(h1, a0 * t, h0 * point, a0 * point);
    lemma_eqm_mul(opening, a * qt, h1 - h0 * point, a0 * t - a0 * point);
    let d = t - point;
    assert(a0 * t - a0 * point == a0 * d) by (nonlinear_arith)
        requires
            d == t - point,
    ;
    assert(a * (qt * d) * a0 == a * qt * (a0 * d)) by (nonlinear_arith);
}

/// The value of `(X^16 - 1) / (X - 1)` at a point.
pub open spec fn first_quotient(rho: int) -> int {
    eval(vanishing_without(range_size(), 1), rho)
}

/// The value of `X^16 - 1` divided by the linear factor of the last element of the domain.
pub open spec fn last_quotient(rho: int) -> int {
    eval(vanishing_without(range_size(), range_last()), rho)
}

/// The value of `X^16 - 1` at a point.
pub open spec fn vanishing_value(rho: int) -> int {
    pow(rho, range_size() as nat) - 1
}

/// The check of the combined constraints from the opened values.
pub open spec fn is_identity(tau: int, rho: int, g: int, next: int, w_hat: int) -> bool {
    eqm(
        g * first_quotient(rho) + tau * (g * (1 - g) * last_quotient(rho)) + tau * tau * step_value(
            g,
            next,
            rho,
        ),
        w_hat,
    )
}

/// Whether the openings of a chunk are accepted.
pub open spec fn is_accepted_chunk(
    crs: &CRS,
    i: int,
    c: int,
    g_commitment: int,
    q_commitment: int,
    tau: int,
    rho: int,
    o: RangeChunkProof,
) -> bool {
    &&& is_kzg_opening(crs, i, g_commitment, rho, o.g_at_rho@, o.g_opening_at_rho@)
    &&& is_kzg_opening(
        crs,
        i,
        g_commitment,
        (rho * range_root()) % modulus(),
        o.g_at_rho_omega@,
        o.g_opening_at_rho_omega@,
    )
    &&& is_kzg_opening(
        crs,
        i,
        c * first_quotient(rho) + q_commitment * vanishing_value(rho),
        rho,
        o.w_hat_at_rho@,
        o.w_hat_opening_at_rho@,
    )
    &&& is_identity(tau, rho, o.g_at_rho@, o.g_at_rho_omega@, o.w_hat_at_rho@)
}

impl RangeProof {
    /// Whether the proof is accepted.
    pub open spec fn is_accepted(&self, digest: Seq<u8>, commitments: Seq<G1>, crs: &CRS) -> bool {
        &&& range_shape(commitments.len() as int, crs)
        &&& self.g_commitments@.len() == commitments.len()
        &&& self.q_commitments@.len() == commitments.len()
        &&& self.openings@.len() == commitments.len()
        &&& self.tau@ == tau_value(digest, commitments, self.g_commitments@)
        &&& is_rho(
            rho_start(
                digest,
                commitments,
                self.g_commitments@,
                self.tau@,
                self.q_commitments@,
            ),
            self.rho@,
        )
        &&& forall|i: int|
            0 <= i < commitments.len() ==> is_accepted_chunk(
                crs,
                i,
                commitments[i]@,
                self.g_commitments@[i]@,
                self.q_commitments@[i]@,
                self.tau@,
                self.rho@,
                #[trigger] self.openings@[i],
            )
    }
}

/// The value of `X^16 - 1` divided by a linear factor of the domain, at a point outside of it.
fn quotient_at(rho: &Scalar, root: &Scalar) -> (res: Scalar)
    requires
        !is_range_element(rho@),
        eqm(pow(root@, range_size() as nat), 1),
    ensures
        eqm(res@, eval(vanishing_without(range_size(), root@), rho@)),
{
    let n_minus_one = rho.pow(CHUNK_BITS as u64).sub(&Scalar::one());
    let difference = rho.sub(root);
    let ghost e = eval(vanishing_without(range_size(), root@), rho@);
    proof {
        let x = pow(rho@, range_size() as nat);
        let y = pow(root@, range_size() as nat);
        lemma_modulus();
        lemma_reduced(0);
        lemma_reduced(1);
        if difference@ == 0 {
            lemma_eqm_difference(rho@, root@);
            lemma_eqm_pow(rho@, root@, range_size() as nat);
        }
        lemma_eqm_mod(x);
        lemma_eqm_sub(x % modulus(), x, 1, 1);
        lemma_eqm_mod(x % modulus() - 1);
        lemma_vanishing_without_value(range_size(), root@, rho@);
        lemma_eqm_sub(x, x, y, 1);
    }
    match difference.inverse() {
        Some(inv) => {
            let res = n_minus_one.mul(&inv);
            proof {
                let d = difference@;
                let f = rho@ - root@;
                lemma_eqm_mod(f);
                assert(inverse_of(d, inv@));
                assert(is_unit(d));
                lemma_eqm_mul(e, e, d, f);
                // `d * res` is `x^16 - 1`, and so is `d * e`.
                lemma_eqm_mod(n_minus_one@ * inv@);
                lemma_eqm_mul(d, d, res@, n_minus_one@ * inv@);
                lemma_eqm_mul(n_minus_one@, n_minus_one@, d * inv@, 1);
                assert(d * (n_minus_one@ * inv@) == n_minus_one@ * (d * inv@))
                    by (nonlinear_arith);
                assert(n_minus_one@ * 1 == n_minus_one@);
                assert(e * d == d * e) by (nonlinear_arith);
                lemma_unit_cancel(d, res@, e);
            }
            res
        },
        None => Scalar::zero(),
    }
}

/// The last element of the domain.
fn last_element() -> (res: Scalar)
    ensures
        res@ == range_last(),
        eqm(pow(res@, range_size() as nat), 1),
{
    let res = range_omega().pow((CHUNK_BITS - 1) as u64);
    proof {
        lemma_range_size();
        let e = (range_size() - 1) as nat;
        lemma_root_power_order(range_size(), e);
        lemma_eqm_mod(pow(range_root(), e));
        lemma_eqm_pow(res@, pow(range_root(), e), range_size() as nat);
    }
    res
}

impl RangeProof {
    /// Checks the proof against the digest of the reference string.
    pub fn verify(&self, chunk_commitments: &PedersenCommitments, ste_crs: &CRS) -> (res: bool)
        requires
            can_check_range(chunk_commitments.commitments@.len() as int, ste_crs),
        ensures
            res == self.is_accepted(
                range_digest(ste_crs),
                chunk_commitments.commitments@,
                ste_crs,
            ),
    {
        let digest = range_params_digest(ste_crs);
        self.verify_with_context(&digest, chunk_commitments, ste_crs)
    }

    /// Checks the proof against a digest of the parameters.
    pub fn verify_with_context(
        &self,
        range_params_digest: &[u8; 32],
        chunk_commitments: &PedersenCommitments,
        ste_crs: &CRS,
    ) -> (res: bool)
        requires
            can_check_range(chunk_commitments.commitments@.len() as int, ste_crs),
        ensures
            res == self.is_accepted(
                range_params_digest@,
                chunk_commitments.commitments@,
                ste_crs,
            ),
    {
        let count: usize = chunk_commitments.commitments.len();
        if validate_range_statement_shape(chunk_commitments, ste_crs).is_err()
            || self.g_commitments.len() != count || self.q_commitments.len() != count
            || self.openings.len() != count {
            return false;
        }
        let tau = range_tau_challenge(range_params_digest, chunk_commitments, &self.g_commitments);
        if !tau.equals(&self.tau) {
            return false;
        }
        let found = range_rho_challenge(
            range_params_digest,
            chunk_commitments,
            &self.g_commitments,
            &self.tau,
            &self.q_commitments,
        );
        let ghost start = rho_start(
            range_params_digest@,
            chunk_commitments.commitments@,
            self.g_commitments@,
            self.tau@,
            self.q_commitments@,
        );
        let rho = match found {
            Some(rho) => rho,
            None => {
                return false;
            },
        };
        if !rho.equals(&self.rho) {
            proof {
                if is_rho(start, self.rho@) {
                    lemma_rho_unique(start, rho@, self.rho@);
                }
            }
            return false;
        }
        let one = Scalar::one();
        let last = last_element();
        let rho_omega = self.rho.mul(&range_omega());
        let rho_n_minus_one = self.rho.pow(CHUNK_BITS as u64).sub(&one);
        proof {
            vstd::arithmetic::power::lemma1_pow(range_size() as nat);
        }
        let first = quotient_at(&self.rho, &one);
        let second = quotient_at(&self.rho, &last);
        proof {
            let x = pow(self.rho@, range_size() as nat);
            lemma_eqm_mod(x);
            lemma_eqm_sub(x % modulus(), x, 1, 1);
            lemma_eqm_mod(x % modulus() - 1);
        }
        let mut i: usize = 0;
        while i < count
            invariant
                0 <= i <= count,
                can_check_range(count as int, ste_crs),
                has_enough_powers(ste_crs),
                count == chunk_commitments.commitments@.len(),
                count <= ste_crs.l,
                self.g_commitments@.len() == count,
                self.q_commitments@.len() == count,
                self.openings@.len() == count,
                rho_omega@ == (self.rho@ * range_root()) % modulus(),
                eqm(rho_n_minus_one@, vanishing_value(self.rho@)),
                eqm(first@, first_quotient(self.rho@)),
                eqm(second@, last_quotient(self.rho@)),
                last@ == range_last(),
                forall|j: int|
                    0 <= j < i ==> is_accepted_chunk(
                        ste_crs,
                        j,
                        chunk_commitments.commitments@[j]@,
                        self.g_commitments@[j]@,
                        self.q_commitments@[j]@,
                        self.tau@,
                        self.rho@,
                        #[trigger] self.openings@[j],
                    ),
            decreases count - i,
        {
            assert(ste_crs.powers_of_g@[i as int]@.len() >= required_powers());
            let accepted = verify_chunk(
                ste_crs,
                i,
                &chunk_commitments.commitments[i],
                &self.g_commitments[i],
                &self.q_commitments[i],
                &self.tau,
                &self.rho,
                &rho_omega,
                &rho_n_minus_one,
                &first,
                &second,
                &last,
                &self.openings[i],
            );
            if !accepted {
                assert(!is_accepted_chunk(
                    ste_crs,
                    i as int,
                    chunk_commitments.commitments@[i as int]@,
                    self.g_commitments@[i as int]@,
                    self.q_commitments@[i as int]@,
                    self.tau@,
                    self.rho@,
                    self.openings@[i as int],
                ));
                return false;
            }
            i += 1;
        }
        true
    }
}

proof fn lemma_kzg_congruent(
    crs: &CRS,
    slot: int,
    c: int,
    d: int,
    point: int,
    value: int,
    opening: int,
)
    requires
        eqm(c, d),
    ensures
        is_kzg_opening(crs, slot, c, point, value, opening) == is_kzg_opening(
            crs,
            slot,
            d,
            point,
            value,
            opening,
        ),
{
    let v = value_base(crs, slot) * value;
    let h0 = crs.powers_of_h@[0]@[0]@;
    lemma_eqm_sub(c, d, v, v);
    lemma_eqm_mul(c - v, d - v, h0, h0);
}

/// Checks the openings of one chunk.
fn verify_chunk(
    ste_crs: &CRS,
    i: usize,
    chunk_commitment: &G1,
    g_commitment: &G1,
    q_commitment: &G1,
    tau: &Scalar,
    rho: &Scalar,
    rho_omega: &Scalar,
    rho_n_minus_one: &Scalar,
    first: &Scalar,
    second: &Scalar,
    last: &Scalar,
    opening: &RangeChunkProof,
) -> (res: bool)
    requires
        i < ste_crs.powers_of_g@.len(),
        1 <= ste_crs.powers_of_g@[i as int]@.len(),
        1 <= ste_crs.powers_of_h@.len(),
        2 <= ste_crs.powers_of_h@[0]@.len(),
        rho_omega@ == (rho@ * range_root()) % modulus(),
        eqm(rho_n_minus_one@, vanishing_value(rho@)),
        eqm(first@, first_quotient(rho@)),
        eqm(second@, last_quotient(rho@)),
        last@ == range_last(),
    ensures
        res == is_accepted_chunk(
            ste_crs,
            i as int,
            chunk_commitment@,
            g_commitment@,
            q_commitment@,
            tau@,
            rho@,
            *opening,
        ),
{
    if !verify_kzg_opening(
        ste_crs,
        i,
        g_commitment,
        rho,
        &opening.g_at_rho,
        &opening.g_opening_at_rho,
    ) || !verify_kzg_opening(
        ste_crs,
        i,
        g_commitment,
        rho_omega,
        &opening.g_at_rho_omega,
        &opening.g_opening_at_rho_omega,
    ) {
        return false;
    }
    let w_hat_commitment = chunk_commitment.mul(first).add(&q_commitment.mul(rho_n_minus_one));
    proof {
        let c = chunk_commitment@;
        let q = q_commitment@;
        let x = c * first@;
        let y = q * rho_n_minus_one@;
        lemma_eqm_mod(x);
        lemma_eqm_mod(y);
        lemma_eqm_add(x % modulus(), x, y % modulus(), y);
        lemma_eqm_mod(x % modulus() + y % modulus());
        lemma_eqm_mul(c, c, first@, first_quotient(rho@));
        lemma_eqm_mul(q, q, rho_n_minus_one@, vanishing_value(rho@));
        lemma_eqm_add(
            x,
            c * first_quotient(rho@),
            y,
            q * vanishing_value(rho@),
        );
        lemma_kzg_congruent(
            ste_crs,
            i as int,
            w_hat_commitment@,
            c * first_quotient(rho@) + q * vanishing_value(rho@),
            rho@,
            opening.w_hat_at_rho@,
            opening.w_hat_opening_at_rho@,
        );
    }
    if !verify_kzg_opening(
        ste_crs,
        i,
        &w_hat_commitment,
        rho,
        &opening.w_hat_at_rho,
        &opening.w_hat_opening_at_rho,
    ) {
        return false;
    }
    verify_identity(tau, rho, first, second, last, opening)
}

/// Checks the combined constraints on the opened values.
fn verify_identity(
    tau: &Scalar,
    rho: &Scalar,
    first: &Scalar,
    second: &Scalar,
    last: &Scalar,
    opening: &RangeChunkProof,
) -> (res: bool)
    requires
        eqm(first@, first_quotient(rho@)),
        eqm(second@, last_quotient(rho@)),
        last@ == range_last(),
    ensures
        res == is_identity(
            tau@,
            rho@,
            opening.g_at_rho@,
            opening.g_at_rho_omega@,
            opening.w_hat_at_rho@,
        ),
{
    let one = Scalar::one();
    let two = Scalar::from_u64(2);
    let g = opening.g_at_rho;
    let next = opening.g_at_rho_omega;
    let complement = one.sub(&g);
    let bit = g.mul(&complement);
    let w2 = bit.mul(second);
    let doubled = two.mul(&next);
    let transition = g.sub(&doubled);
    let transition_complement = complement.add(&doubled);
    let steps = transition.mul(&transition_complement);
    let distance = rho.sub(last);
    let w3 = steps.mul(&distance);
    let t1 = g.mul(first);
    let t2 = tau.mul(&w2);
    let tau_squared = tau.mul(tau);
    let t3 = tau_squared.mul(&w3);
    let total = t1.add(&t2).add(&t3);
    let check = total.sub(&opening.w_hat_at_rho);
    proof {
        let gv = g@;
        let nv = next@;
        lemma_eqm_mod(1 - gv);
        lemma_mul_mod(gv, gv, complement@, 1 - gv);
        lemma_mul_mod(bit@, gv * (1 - gv), second@, last_quotient(rho@));
        lemma_eqm_mod(2 * nv);
        lemma_eqm_sub(gv, gv, doubled@, nv * 2);
        lemma_eqm_mod(gv - doubled@);
        lemma_eqm_add(complement@, 1 - gv, doubled@, nv * 2);
        lemma_eqm_mod(complement@ + doubled@);
        lemma_mul_mod(
            transition@,
            gv - nv * 2,
            transition_complement@,
            1 - gv + nv * 2,
        );
        lemma_eqm_mod(rho@ - last@);
        lemma_mul_mod(
            steps@,
            (gv - nv * 2) * (1 - gv + nv * 2),
            distance@,
            rho@ - range_last(),
        );
        let s = step_value(gv, nv, rho@);
        lemma_mul_mod(gv, gv, first@, first_quotient(rho@));
        lemma_mul_mod(tau@, tau@, w2@, gv * (1 - gv) * last_quotient(rho@));
        lemma_mul_mod(tau@, tau@, tau@, tau@);
        lemma_mul_mod(tau_squared@, tau@ * tau@, w3@, s);
        let a = gv * first_quotient(rho@);
        let b = tau@ * (gv * (1 - gv) * last_quotient(rho@));
        let c = tau@ * tau@ * s;
        lemma_eqm_add(t1@, a, t2@, b);
        lemma_eqm_mod(t1@ + t2@);
        lemma_eqm_add((t1@ + t2@) % modulus(), a + b, t3@, c);
        lemma_eqm_mod((t1@ + t2@) % modulus() + t3@);
        let wh = opening.w_hat_at_rho@;
        lemma_eqm_difference(a + b + c, wh);
        lemma_eqm_sub(total@, a + b + c, wh, wh);
        lemma_eqm_mod(total@ - wh);
        lemma_modulus();
        lemma_reduced(0);
    }
    check.is_zero()
}

proof fn lemma_mul_mod(x: int, xx: int, y: int, yy: int)
    requires
        eqm(x, xx),
        eqm(y, yy),
    ensures
        eqm((x * y) % modulus(), xx * yy),
{
    lemma_eqm_mul(x, xx, y, yy);
    lemma_eqm_mod(x * y);
}

/// The linear combination of the polynomial of a commitment and the quotient that is opened.
pub open spec fn w_hat_poly(f: Seq<int>, q: Seq<int>, rho: int) -> Seq<int> {
    poly_add(poly_scale(f, first_quotient(rho)), poly_scale(q, vanishing_value(rho)))
}

/// What the prover knows of one chunk.
pub struct ChunkPolys {
    /// The polynomial of the commitment.
    pub f: Seq<int>,
    /// The polynomial of the bits.
    pub g: Seq<int>,
    /// The quotient of the combined constraints.
    pub q: Seq<int>,
}

/// Whether the polynomials are those of a chunk, its blinding scalar and two further blinding values.
pub open spec fn are_chunk_polys(
    p: ChunkPolys,
    chunk: int,
    blind: int,
    noise1: int,
    noise2: int,
    tau: int,
) -> bool {
    &&& same_poly(p.f, pedersen_poly(chunk, blind))
    &&& p.f.len() <= 2
    &&& is_bit_poly(p.g, chunk, noise1, noise2)
    &&& is_quotient(p.q, range_poly(p.f, p.g, tau), vanishing(range_size()))
    &&& p.q.len() <= 34
}

/// Whether the openings of a chunk are those of its polynomials.
pub open spec fn is_made_chunk(
    o: RangeChunkProof,
    p: ChunkPolys,
    powers: Seq<int>,
    rho: int,
) -> bool {
    let rho_omega = (rho * range_root()) % modulus();
    let w_hat = w_hat_poly(p.f, p.q, rho);
    &&& o.g_at_rho@ == eval(p.g, rho) % modulus()
    &&& o.g_at_rho_omega@ == eval(p.g, rho_omega) % modulus()
    &&& o.w_hat_at_rho@ == eval(w_hat, rho) % modulus()
    &&& is_opening_proof(p.g, rho, powers, o.g_opening_at_rho@)
    &&& is_opening_proof(p.g, rho_omega, powers, o.g_opening_at_rho_omega@)
    &&& is_opening_proof(w_hat, rho, powers, o.w_hat_opening_at_rho@)
}

/// Whether these are the commitments of the prover to the polynomials of the chunks.
pub open spec fn are_round_commitments(
    digest: Seq<u8>,
    commitments: Seq<G1>,
    chunks: Seq<int>,
    blinds: Seq<int>,
    noise: Seq<(int, int)>,
    crs: &CRS,
    polys: Seq<ChunkPolys>,
    g: Seq<G1>,
    q: Seq<G1>,
) -> bool {
    &&& g.len() == commitments.len()
    &&& q.len() == commitments.len()
    &&& polys.len() == commitments.len()
    &&& forall|i: int|
        0 <= i < commitments.len() ==> are_chunk_polys(
            #[trigger] polys[i],
            chunks[i],
            blinds[i],
            noise[i].0,
            noise[i].1,
            tau_value(digest, commitments, g),
        )
    &&& forall|i: int|
        0 <= i < commitments.len() ==> (#[trigger] g[i])@ == commitment(
            polys[i].g,
            vals(crs.powers_of_g@[i]@),
        ) % modulus()
    &&& forall|i: int|
        0 <= i < commitments.len() ==> (#[trigger] q[i])@ == commitment(
            polys[i].q,
            vals(crs.powers_of_g@[i]@),
        ) % modulus()
}

impl RangeProof {
    /// Whether the proof is made from the polynomials of the chunks.
    pub open spec fn is_made(
        &self,
        digest: Seq<u8>,
        commitments: Seq<G1>,
        chunks: Seq<int>,
        blinds: Seq<int>,
        noise: Seq<(int, int)>,
        crs: &CRS,
        polys: Seq<ChunkPolys>,
    ) -> bool {
        &&& are_round_commitments(
            digest,
            commitments,
            chunks,
            blinds,
            noise,
            crs,
            polys,
            self.g_commitments@,
            self.q_commitments@,
        )
        &&& self.openings@.len() == commitments.len()
        &&& self.tau@ == tau_value(digest, commitments, self.g_commitments@)
        &&& is_rho(
            rho_start(
                digest,
                commitments,
                self.g_commitments@,
                self.tau@,
                self.q_commitments@,
            ),
            self.rho@,
        )
        &&& forall|i: int|
            0 <= i < commitments.len() ==> is_made_chunk(
                #[trigger] self.openings@[i],
                polys[i],
                vals(crs.powers_of_g@[i]@),
                self.rho@,
            )
    }
}

/// Whether no candidate for the opening point is outside of the domain.
pub open spec fn has_no_rho(digest: Seq<u8>, commitments: Seq<G1>, g: Seq<G1>, q: Seq<G1>) -> bool {
    forall|rho: int|
        !#[trigger] is_rho(
            rho_start(digest, commitments, g, tau_value(digest, commitments, g), q),
            rho,
        )
}

/// Whether the result is a proof made with the given blinding values, or there is no point at which
/// the polynomials could be opened.
pub open spec fn is_prover_result(
    res: Option<RangeProof>,
    digest: Seq<u8>,
    commitments: Seq<G1>,
    chunks: Seq<int>,
    blinds: Seq<int>,
    noise: Seq<(int, int)>,
    crs: &CRS,
) -> bool {
    match res {
        Some(p) => exists|polys: Seq<ChunkPolys>| #[trigger]
            p.is_made(digest, commitments, chunks, blinds, noise, crs, polys),
        None => exists|polys: Seq<ChunkPolys>, g: Seq<G1>, q: Seq<G1>| #[trigger]
            are_round_commitments(
                digest,
                commitments,
                chunks,
                blinds,
                noise,
                crs,
                polys,
                g,
                q,
            ) && has_no_rho(digest, commitments, g, q),
    }
}

/// The mathematical values of pairs of scalars.
pub open spec fn pair_values(pairs: Seq<(Scalar, Scalar)>) -> Seq<(int, int)> {
    Seq::new(pairs.len(), |i: int| (pairs[i].0@, pairs[i].1@))
}

/// The scalars of pairs, one after the other.
pub open spec fn flat_pairs(pairs: Seq<(Scalar, Scalar)>) -> Seq<Scalar>
    decreases pairs.len(),
{
    if pairs.len() == 0 {
        Seq::empty()
    } else {
        flat_pairs(pairs.drop_last()).push(pairs.last().0).push(pairs.last().1)
    }
}

/// Random pairs of scalars, drawn one after the other.
fn random_pairs(n: usize, rng: &mut StdRng) -> (res: Vec<(Scalar, Scalar)>)
    ensures
        res@.len() == n,
        are_draws(*old(rng), *final(rng), flat_pairs(res@)),
{
    let mut res: Vec<(Scalar, Scalar)> = Vec::new();
    let mut i: usize = 0;
    while i < n
        invariant
            0 <= i <= n,
            res@.len() == i,
            are_draws(*old(rng), *rng, flat_pairs(res@)),
        decreases n - i,
    {
        let ghost pairs = res@;
        let ghost r0 = *rng;
        let first = Scalar::random(rng);
        let ghost r1 = *rng;
        let second = Scalar::random(rng);
        res.push((first, second));
        proof {
            lemma_next_draw(*old(rng), r0, r1, flat_pairs(pairs), first);
            lemma_next_draw(*old(rng), r1, *rng, flat_pairs(pairs).push(first), second);
            assert(res@.drop_last() =~= pairs);
        }
        i += 1;
    }
    res
}

/// What the prover asks of its arguments.
pub open spec fn can_prove_range(
    commitments: Seq<G1>,
    chunks: Seq<Scalar>,
    blinds: Seq<Scalar>,
    crs: &CRS,
) -> bool {
    &&& can_check_range(commitments.len() as int, crs)
    &&& range_shape(commitments.len() as int, crs)
    &&& chunks.len() == commitments.len()
    &&& blinds.len() == commitments.len()
    &&& forall|i: int| 0 <= i < chunks.len() ==> (#[trigger] chunks[i])@ < chunk_radix()
}

/// The polynomial of the bits of every chunk, with its commitment.
fn commit_bits(
    chunks: &Vec<Scalar>,
    noise: &Vec<(Scalar, Scalar)>,
    crs: &CRS,
    commitments: Ghost<Seq<G1>>,
    blinds: Ghost<Seq<Scalar>>,
) -> (res: (Vec<Poly>, Vec<G1>))
    requires
        can_prove_range(commitments@, chunks@, blinds@, crs),
        noise@.len() == chunks@.len(),
    ensures
        res.0@.len() == chunks@.len(),
        res.1@.len() == chunks@.len(),
        forall|i: int|
            0 <= i < chunks@.len() ==> is_bit_poly(
                (#[trigger] res.0@[i])@,
                vals(chunks@)[i],
                pair_values(noise@)[i].0,
                pair_values(noise@)[i].1,
            ),
        forall|i: int|
            0 <= i < chunks@.len() ==> (#[trigger] res.1@[i])@ == commitment(
                res.0@[i]@,
                vals(crs.powers_of_g@[i]@),
            ) % modulus(),
{
    let mut g_polys: Vec<Poly> = Vec::new();
    let mut g_commitments: Vec<G1> = Vec::new();
    let mut i: usize = 0;
    while i < chunks.len()
        invariant
            0 <= i <= chunks@.len(),
            can_prove_range(commitments@, chunks@, blinds@, crs),
            noise@.len() == chunks@.len(),
            g_polys@.len() == i,
            g_commitments@.len() == i,
            forall|k: int|
                0 <= k < i ==> is_bit_poly(
                    (#[trigger] g_polys@[k])@,
                    vals(chunks@)[k],
                    pair_values(noise@)[k].0,
                    pair_values(noise@)[k].1,
                ),
            forall|k: int|
                0 <= k < i ==> (#[trigger] g_commitments@[k])@ == commitment(
                    g_polys@[k]@,
                    vals(crs.powers_of_g@[k]@),
                ) % modulus(),
        decreases chunks@.len() - i,
    {
        assert(crs.powers_of_g@[i as int]@.len() >= required_powers());
        assert(chunks@[i as int]@ < chunk_radix());
        let g_poly = range_g_polynomial(&chunks[i], &noise[i].0, &noise[i].1);
        let coeffs = g_poly.coeffs();
        assert(coeffs@.len() == vals(coeffs@).len());
        g_commitments.push(crs.commit_g1(coeffs, i));
        g_polys.push(g_poly);
        i += 1;
    }
    (g_polys, g_commitments)
}

/// The polynomial of the commitment to every chunk, and the quotient of its constraints, with its
/// commitment.
fn commit_quotients(
    chunks: &Vec<Scalar>,
    blinds: &Vec<Scalar>,
    g_polys: &Vec<Poly>,
    tau: &Scalar,
    crs: &CRS,
    commitments: Ghost<Seq<G1>>,
) -> (res: (Vec<Poly>, Vec<Poly>, Vec<G1>))
    requires
        can_prove_range(commitments@, chunks@, blinds@, crs),
        g_polys@.len() == chunks@.len(),
        forall|i: int|
            0 <= i < chunks@.len() ==> (#[trigger] g_polys@[i])@.len() <= range_size() + 2,
    ensures
        res.0@.len() == chunks@.len(),
        res.1@.len() == chunks@.len(),
        res.2@.len() == chunks@.len(),
        forall|i: int|
            0 <= i < chunks@.len() ==> same_poly(
                (#[trigger] res.0@[i])@,
                pedersen_poly(vals(chunks@)[i], vals(blinds@)[i]),
            ) && res.0@[i]@.len() <= 2,
        forall|i: int|
            0 <= i < chunks@.len() ==> is_quotient(
                (#[trigger] res.1@[i])@,
                range_poly(res.0@[i]@, g_polys@[i]@, tau@),
                vanishing(range_size()),
            ) && res.1@[i]@.len() <= 34,
        forall|i: int|
            0 <= i < chunks@.len() ==> (#[trigger] res.2@[i])@ == commitment(
                res.1@[i]@,
                vals(crs.powers_of_g@[i]@),
            ) % modulus(),
{
    let mut f_polys: Vec<Poly> = Vec::new();
    let mut q_polys: Vec<Poly> = Vec::new();
    let mut q_commitments: Vec<G1> = Vec::new();
    let mut i: usize = 0;
    while i < chunks.len()
        invariant
            0 <= i <= chunks@.len(),
            can_prove_range(commitments@, chunks@, blinds@, crs),
            g_polys@.len() == chunks@.len(),
            forall|k: int|
                0 <= k < chunks@.len() ==> (#[trigger] g_polys@[k])@.len() <= range_size() + 2,
            f_polys@.len() == i,
            q_polys@.len() == i,
            q_commitments@.len() == i,
            forall|k: int|
                0 <= k < i ==> same_poly(
                    (#[trigger] f_polys@[k])@,
                    pedersen_poly(vals(chunks@)[k], vals(blinds@)[k]),
                ) && f_polys@[k]@.len() <= 2,
            forall|k: int|
                0 <= k < i ==> is_quotient(
                    (#[trigger] q_polys@[k])@,
                    range_poly(f_polys@[k]@, g_polys@[k]@, tau@),
                    vanishing(range_size()),
                ) && q_polys@[k]@.len() <= 34,
            forall|k: int|
                0 <= k < i ==> (#[trigger] q_commitments@[k])@ == commitment(
                    q_polys@[k]@,
                    vals(crs.powers_of_g@[k]@),
                ) % modulus(),
        decreases chunks@.len() - i,
    {
        assert(crs.powers_of_g@[i as int]@.len() >= required_powers());
        let f_poly = pedersen_polynomial(&chunks[i], &blinds[i]);
        let q_poly = range_q_polynomial(&f_poly, &g_polys[i], tau);
        let coeffs = q_poly.coeffs();
        assert(coeffs@.len() == vals(coeffs@).len());
        q_commitments.push(crs.commit_g1(coeffs, i));
        f_polys.push(f_poly);
        q_polys.push(q_poly);
        i += 1;
    }
    (f_polys, q_polys, q_commitments)
}

/// The openings of one chunk.
fn open_chunk(
    f: &Poly,
    g: &Poly,
    q: &Poly,
    rho: &Scalar,
    rho_omega: &Scalar,
    first: &Scalar,
    rho_n_minus_one: &Scalar,
    crs: &CRS,
    slot: usize,
) -> (res: RangeChunkProof)
    requires
        slot < crs.powers_of_g@.len(),
        crs.powers_of_g@[slot as int]@.len() >= required_powers(),
        f@.len() <= 2,
        g@.len() <= range_size() + 2,
        q@.len() <= 34,
        rho_omega@ == (rho@ * range_root()) % modulus(),
        eqm(first@, first_quotient(rho@)),
        eqm(rho_n_minus_one@, vanishing_value(rho@)),
    ensures
        is_made_chunk(
            res,
            ChunkPolys { f: f@, g: g@, q: q@ },
            vals(crs.powers_of_g@[slot as int]@),
            rho@,
        ),
{
    let g_coeffs = g.coeffs();
    assert(g_coeffs@.len() == vals(g_coeffs@).len());
    let scaled_f = f.scale(first);
    let scaled_q = q.scale(rho_n_minus_one);
    let w_hat = scaled_f.add(&scaled_q);
    let ghost spec_w = w_hat_poly(f@, q@, rho@);
    proof {
        crate::algebra::quotients::lemma_scale_same(f@, f@, first@, first_quotient(rho@));
        lemma_same_trans(
            scaled_f@,
            poly_scale(f@, first@),
            poly_scale(f@, first_quotient(rho@)),
        );
        crate::algebra::quotients::lemma_scale_same(
            q@,
            q@,
            rho_n_minus_one@,
            vanishing_value(rho@),
        );
        lemma_same_trans(
            scaled_q@,
            poly_scale(q@, rho_n_minus_one@),
            poly_scale(q@, vanishing_value(rho@)),
        );
        lemma_add_same(
            scaled_f@,
            poly_scale(f@, first_quotient(rho@)),
            scaled_q@,
            poly_scale(q@, vanishing_value(rho@)),
        );
        lemma_same_trans(w_hat@, poly_add(scaled_f@, scaled_q@), spec_w);
    }
    let w_coeffs = w_hat.coeffs();
    assert(w_coeffs@.len() == vals(w_coeffs@).len());
    let w_opening = crs.compute_opening_proof(w_coeffs, rho, slot);
    let w_value = w_hat.evaluate(rho);
    proof {
        lemma_eval_same(w_hat@, spec_w, rho@);
        let powers = vals(crs.powers_of_g@[slot as int]@);
        let quotient = choose|quotient: Seq<int>| #[trigger]
            is_quotient(quotient, w_hat@, linear(rho@)) && quotient.len() <= w_hat@.len()
                && w_opening@ == commitment(quotient, powers) % modulus();
        lemma_quotient_same(quotient, w_hat@, spec_w, linear(rho@), linear(rho@));
        assert(is_opening_proof(spec_w, rho@, powers, w_opening@));
    }
    RangeChunkProof {
        g_at_rho: g.evaluate(rho),
        g_at_rho_omega: g.evaluate(rho_omega),
        w_hat_at_rho: w_value,
        g_opening_at_rho: crs.compute_opening_proof(g_coeffs, rho, slot),
        g_opening_at_rho_omega: crs.compute_opening_proof(g_coeffs, rho_omega, slot),
        w_hat_opening_at_rho: w_opening,
    }
}

impl RangeProof {
    /// Proves that the committed chunks are in range, under the digest of the reference string. There
    /// is no proof if no candidate for the opening point is outside of the domain.
    pub fn prove(
        chunk_commitments: &PedersenCommitments,
        witness: &EncryptionWitness,
        commitment_openings: &PedersenOpenings,
        ste_crs: &CRS,
        rng: &mut StdRng,
    ) -> (res: Option<RangeProof>)
        requires
            can_prove_range(
                chunk_commitments.commitments@,
                witness.chunks@,
                commitment_openings.randomness@,
                ste_crs,
            ),
        ensures
            exists|noise: Seq<(Scalar, Scalar)>| #[trigger]
                are_draws(*old(rng), *final(rng), flat_pairs(noise)) && noise.len()
                    == witness.chunks@.len() && is_prover_result(
                    res,
                    range_digest(ste_crs),
                    chunk_commitments.commitments@,
                    vals(witness.chunks@),
                    vals(commitment_openings.randomness@),
                    pair_values(noise),
                    ste_crs,
                ),
    {
        let digest = range_params_digest(ste_crs);
        RangeProof::prove_with_context(
            &digest,
            chunk_commitments,
            witness,
            commitment_openings,
            ste_crs,
            rng,
        )
    }

    /// Proves that the committed chunks are in range, under a digest of the parameters.
    pub fn prove_with_context(
        range_params_digest: &[u8; 32],
        chunk_commitments: &PedersenCommitments,
        witness: &EncryptionWitness,
        commitment_openings: &PedersenOpenings,
        ste_crs: &CRS,
        rng: &mut StdRng,
    ) -> (res: Option<RangeProof>)
        requires
            can_prove_range(
                chunk_commitments.commitments@,
                witness.chunks@,
                commitment_openings.randomness@,
                ste_crs,
            ),
        ensures
            exists|noise: Seq<(Scalar, Scalar)>| #[trigger]
                are_draws(*old(rng), *final(rng), flat_pairs(noise)) && noise.len()
                    == witness.chunks@.len() && is_prover_result(
                    res,
                    range_params_digest@,
                    chunk_commitments.commitments@,
                    vals(witness.chunks@),
                    vals(commitment_openings.randomness@),
                    pair_values(noise),
                    ste_crs,
                ),
    {
        let noise = random_pairs(witness.chunks.len(), rng);
        let res = RangeProof::prove_with_noise(
            range_params_digest,
            chunk_commitments,
            witness,
            commitment_openings,
            ste_crs,
            &noise,
        );
        assert(is_prover_result(
            res,
            range_params_digest@,
            chunk_commitments.commitments@,
            vals(witness.chunks@),
            vals(commitment_openings.randomness@),
            pair_values(noise@),
            ste_crs,
        ));
        res
    }

    /// Proves that the committed chunks are in range, with given blinding values for the polynomials
    /// of the bits, two for each chunk.
    pub fn prove_with_noise(
        range_params_digest: &[u8; 32],
        chunk_commitments: &PedersenCommitments,
        witness: &EncryptionWitness,
        commitment_openings: &PedersenOpenings,
        ste_crs: &CRS,
        noise: &Vec<(Scalar, Scalar)>,
    ) -> (res: Option<RangeProof>)
        requires
            can_prove_range(
                chunk_commitments.commitments@,
                witness.chunks@,
                commitment_openings.randomness@,
                ste_crs,
            ),
            noise@.len() == witness.chunks@.len(),
        ensures
            is_prover_result(
                res,
                range_params_digest@,
                chunk_commitments.commitments@,
                vals(witness.chunks@),
                vals(commitment_openings.randomness@),
                pair_values(noise@),
                ste_crs,
            ),
    {
        let ghost blinds = commitment_openings.randomness@;
        let ghost commitments = chunk_commitments.commitments@;
        let count: usize = witness.chunks.len();
        let (g_polys, g_commitments) = commit_bits(
            &witness.chunks,
            noise,
            ste_crs,
            Ghost(commitments),
            Ghost(blinds),
        );
        let tau = range_tau_challenge(range_params_digest, chunk_commitments, &g_commitments);
        let (f_polys, q_polys, q_commitments) = commit_quotients(
            &witness.chunks,
            &commitment_openings.randomness,
            &g_polys,
            &tau,
            ste_crs,
            Ghost(commitments),
        );
        let found = range_rho_challenge(
            range_params_digest,
            chunk_commitments,
            &g_commitments,
            &tau,
            &q_commitments,
        );
        let ghost polys = Seq::new(
            count as nat,
            |i: int| ChunkPolys { f: f_polys@[i]@, g: g_polys@[i]@, q: q_polys@[i]@ },
        );
        assert(are_round_commitments(
            range_params_digest@,
            commitments,
            vals(witness.chunks@),
            vals(blinds),
            pair_values(noise@),
            ste_crs,
            polys,
            g_commitments@,
            q_commitments@,
        ));
        let rho = match found {
            Some(rho) => rho,
            None => {
                assert(has_no_rho(
                    range_params_digest@,
                    commitments,
                    g_commitments@,
                    q_commitments@,
                ));
                return None;
            },
        };
        let one = Scalar::one();
        let rho_omega = rho.mul(&range_omega());
        let rho_n_minus_one = rho.pow(CHUNK_BITS as u64).sub(&one);
        proof {
            vstd::arithmetic::power::lemma1_pow(range_size() as nat);
            let x = pow(rho@, range_size() as nat);
            lemma_eqm_mod(x);
            lemma_eqm_sub(x % modulus(), x, 1, 1);
            lemma_eqm_mod(x % modulus() - 1);
        }
        let first = quotient_at(&rho, &one);
        let mut openings: Vec<RangeChunkProof> = Vec::new();
        let mut i: usize = 0;
        while i < count
            invariant
                0 <= i <= count,
                count == commitments.len(),
                can_check_range(commitments.len() as int, ste_crs),
                range_shape(commitments.len() as int, ste_crs),
                f_polys@.len() == count,
                g_polys@.len() == count,
                q_polys@.len() == count,
                polys == Seq::new(
                    count as nat,
                    |k: int| ChunkPolys { f: f_polys@[k]@, g: g_polys@[k]@, q: q_polys@[k]@ },
                ),
                forall|k: int| 0 <= k < count ==> (#[trigger] f_polys@[k])@.len() <= 2,
                forall|k: int|
                    0 <= k < count ==> (#[trigger] g_polys@[k])@.len() <= range_size() + 2,
                forall|k: int| 0 <= k < count ==> (#[trigger] q_polys@[k])@.len() <= 34,
                rho_omega@ == (rho@ * range_root()) % modulus(),
                eqm(first@, first_quotient(rho@)),
                eqm(rho_n_minus_one@, vanishing_value(rho@)),
                openings@.len() == i,
                forall|k: int|
                    0 <= k < i ==> is_made_chunk(
                        #[trigger] openings@[k],
                        polys[k],
                        vals(ste_crs.powers_of_g@[k]@),
                        rho@,
                    ),
            decreases count - i,
        {
            assert(ste_crs.powers_of_g@[i as int]@.len() >= required_powers());
            let opening = open_chunk(
                &f_polys[i],
                &g_polys[i],
                &q_polys[i],
                &rho,
                &rho_omega,
                &first,
                &rho_n_minus_one,
                ste_crs,
                i,
            );
            openings.push(opening);
            i += 1;
        }
        let res = RangeProof { g_commitments, q_commitments, tau, rho, openings };
        let out = Some(res);
        assert(out->0.is_made(
            range_params_digest@,
            commitments,
            vals(witness.chunks@),
            vals(blinds),
            pair_values(noise@),
            ste_crs,
            polys,
        ));
        out
    }
}

/// `X^16 - 1` without a linear factor vanishes at every other element of the domain.
proof fn lemma_quotient_vanishes(c: int, i: nat, j: nat)
    requires
        i < range_size(),
        j < range_size(),
        i != j,
        eqm(c, pow(range_root(), i)),
    ensures
        eqm(eval(vanishing_without(range_size(), c), pow(range_root(), j)), 0),
{
    let n = range_size();
    let x = pow(range_root(), j);
    let y = pow(range_root(), i);
    let e = eval(vanishing_without(n, c), x);
    lemma_range_size();
    lemma_vanishing_without_value(n, c, x);
    lemma_root_power_order(n, i);
    lemma_root_power_order(n, j);
    lemma_eqm_pow(c, y, n as nat);
    lemma_eqm_sub(pow(x, n as nat), 1, pow(c, n as nat), 1);
    lemma_root_difference_is_unit(n, j, i);
    lemma_eqm_sub(x, x, y, c);
    crate::algebra::congruence::lemma_unit_eqm(x - y, x - c);
    assert(e * (x - c) == (x - c) * e) by (nonlinear_arith);
    assert((x - c) * 0 == 0);
    lemma_unit_cancel(x - c, e, 0);
}

/// The combined constraints on the polynomials of a chunk in range vanish on the domain.
proof fn lemma_constraints_vanish(
    p: ChunkPolys,
    chunk: int,
    blind: int,
    noise1: int,
    noise2: int,
    tau: int,
    j: int,
)
    requires
        0 <= chunk < chunk_radix(),
        are_chunk_polys(p, chunk, blind, noise1, noise2, tau),
        0 <= j < range_size(),
    ensures
        eqm(eval(range_poly(p.f, p.g, tau), pow(range_root(), j as nat)), 0),
{
    let w = range_root();
    let x = pow(w, j as nat);
    let gx = eval(p.g, x);
    let fx = eval(p.f, x);
    let nx = eval(p.g, w * x);
    let e1 = eval(vanishing_without(range_size(), 1), x);
    let e2 = eval(vanishing_without(range_size(), range_last()), x);
    let v = without_low_bits(chunk, j);
    assert(eqm(gx, v));
    lemma_eval_range_poly(p.f, p.g, tau, x);
    let last = range_last();
    lemma_eqm_mod(pow(w, 15));
    lemma_pow0(w);
    // The first constraint.
    let s1 = (gx - fx) * e1;
    assert(eqm(s1, 0)) by {
        if j == 0 {
            lemma_eval_same(p.f, pedersen_poly(chunk, blind), x);
            lemma_eval_pedersen(chunk, blind, x);
            assert(blind * (x - 1) == 0) by (nonlinear_arith)
                requires
                    x == 1,
            ;
            lemma_all_bits(chunk);
            lemma_eqm_sub(gx, chunk, fx, chunk);
            lemma_eqm_mul(gx - fx, 0, e1, e1);
            assert(0 * e1 == 0);
        } else {
            lemma_quotient_vanishes(1, 0, j as nat);
            lemma_eqm_mul(gx - fx, gx - fx, e1, 0);
            assert((gx - fx) * 0 == 0);
        }
    }
    // The second constraint.
    let s2 = gx * (1 - gx) * e2;
    assert(eqm(s2, 0)) by {
        if j == 15 {
            lemma_top_bit(chunk);
            lemma_eqm_sub(1, 1, gx, v);
            lemma_eqm_mul(gx, v, 1 - gx, 1 - v);
            lemma_eqm_mul(gx * (1 - gx), 0, e2, e2);
            assert(0 * e2 == 0);
        } else {
            lemma_quotient_vanishes(last, 15, j as nat);
            lemma_eqm_mul(gx * (1 - gx), gx * (1 - gx), e2, 0);
            assert(gx * (1 - gx) * 0 == 0);
        }
    }
    // The third constraint.
    let s3 = step_value(gx, nx, x);
    assert(eqm(s3, 0)) by {
        let d = (gx - nx * 2) * (1 - gx + nx * 2);
        if j == 15 {
            lemma_eqm_sub(x, x, last, x);
            lemma_eqm_mul(d, d, x - last, 0);
            assert(d * 0 == 0);
        } else {
            lemma_pow_adds(w, 1, j as nat);
            lemma_pow1(w);
            let u = without_low_bits(chunk, j + 1);
            assert(w * x == pow(w, (j + 1) as nat));
            assert(eqm(nx, u));
            crate::cca::polynomials::lemma_low_bit(chunk, j);
            lemma_eqm_mul(nx, u, 2, 2);
            lemma_eqm_sub(gx, v, nx * 2, u * 2);
            lemma_eqm_sub(1, 1, gx - nx * 2, v - u * 2);
            lemma_eqm_mul(gx - nx * 2, v - u * 2, 1 - gx + nx * 2, 1 - v + u * 2);
            let b = v - u * 2;
            assert(b == 0 || b == 1);
            assert(b * (1 - b) == 0);
            lemma_eqm_mul(d, 0, x - last, x - last);
            assert(0 * (x - last) == 0);
        }
    }
    lemma_eqm_mul(s2, 0, tau, tau);
    lemma_eqm_mul(s3, 0, tau * tau, tau * tau);
    assert(0 * tau == 0);
    assert(0 * (tau * tau) == 0);
    lemma_eqm_add(s1, 0, s2 * tau, 0);
    lemma_eqm_add(s1 + s2 * tau, 0, s3 * (tau * tau), 0);
}

proof fn lemma_all_bits(v: int)
    ensures
        without_low_bits(v, 0) == v,
{
    vstd::arithmetic::power2::lemma2_to64();
    vstd::arithmetic::div_mod::lemma_div_basics(v);
}

proof fn lemma_top_bit(v: int)
    requires
        0 <= v < chunk_radix(),
    ensures
        without_low_bits(v, 15) * (1 - without_low_bits(v, 15)) == 0,
{
    vstd::arithmetic::power2::lemma2_to64();
    let p = vstd::arithmetic::power2::pow2(15) as int;
    let q = v / p;
    assert(p == 0x8000);
    assert(q == v / 0x8000);
    assert(q == without_low_bits(v, 15));
    assert(q * (1 - q) == 0) by (nonlinear_arith)
        requires
            q == 0 || q == 1,
    ;
}

/// The opened values of a chunk in range satisfy the combined constraints.
proof fn lemma_identity_holds(
    p: ChunkPolys,
    chunk: int,
    blind: int,
    noise1: int,
    noise2: int,
    tau: int,
    rho: int,
    o: RangeChunkProof,
    powers: Seq<int>,
)
    requires
        0 <= chunk < chunk_radix(),
        are_chunk_polys(p, chunk, blind, noise1, noise2, tau),
        is_made_chunk(o, p, powers, rho),
    ensures
        is_identity(tau, rho, o.g_at_rho@, o.g_at_rho_omega@, o.w_hat_at_rho@),
{
    let w = range_root();
    let a = range_poly(p.f, p.g, tau);
    lemma_range_size();
    assert forall|j: int| 0 <= j < range_size() implies eqm(
        #[trigger] eval(a, pow(unity_root(range_size()), j as nat)),
        0,
    ) by {
        lemma_constraints_vanish(p, chunk, blind, noise1, noise2, tau, j);
    }
    lemma_quotient_exact(p.q, a, range_size(), rho);
    lemma_eval_range_poly(p.f, p.g, tau, rho);
    let g = eval(p.g, rho);
    let f = eval(p.f, rho);
    let n = eval(p.g, w * rho);
    let q = eval(p.q, rho);
    let e1 = first_quotient(rho);
    let e2 = last_quotient(rho);
    let z = vanishing_value(rho);
    let gv = o.g_at_rho@;
    let nv = o.g_at_rho_omega@;
    let wv = o.w_hat_at_rho@;
    lemma_eqm_mod(g);
    lemma_eqm_mod(rho * w);
    assert(w * rho == rho * w) by (nonlinear_arith);
    lemma_eval_point(p.g, (rho * w) % modulus(), w * rho);
    lemma_eqm_mod(eval(p.g, (rho * w) % modulus()));
    let w_hat = w_hat_poly(p.f, p.q, rho);
    lemma_eval_add(poly_scale(p.f, e1), poly_scale(p.q, z), rho);
    lemma_eval_scale(p.f, e1, rho);
    lemma_eval_scale(p.q, z, rho);
    lemma_eqm_mod(eval(w_hat, rho));
    // The opened values are those of the polynomials.
    lemma_eqm_mul(gv, g, e1, e1);
    lemma_eqm_sub(1, 1, gv, g);
    lemma_eqm_mul(gv, g, 1 - gv, 1 - g);
    lemma_eqm_mul(gv * (1 - gv), g * (1 - g), e2, e2);
    lemma_eqm_mul(tau, tau, gv * (1 - gv) * e2, g * (1 - g) * e2);
    lemma_eqm_mul(nv, n, 2, 2);
    lemma_eqm_sub(gv, g, nv * 2, n * 2);
    lemma_eqm_sub(1, 1, gv - nv * 2, g - n * 2);
    lemma_eqm_mul(gv - nv * 2, g - n * 2, 1 - gv + nv * 2, 1 - g + n * 2);
    let last = range_last();
    lemma_eqm_mul(
        (gv - nv * 2) * (1 - gv + nv * 2),
        (g - n * 2) * (1 - g + n * 2),
        rho - last,
        rho - last,
    );
    let sv = step_value(gv, nv, rho);
    let s = step_value(g, n, rho);
    lemma_eqm_mul(tau * tau, tau * tau, sv, s);
    let b2 = g * (1 - g) * e2;
    let lhs = gv * e1 + tau * (gv * (1 - gv) * e2) + tau * tau * sv;
    lemma_eqm_add(gv * e1, g * e1, tau * (gv * (1 - gv) * e2), tau * b2);
    lemma_eqm_add(
        gv * e1 + tau * (gv * (1 - gv) * e2),
        g * e1 + tau * b2,
        tau * tau * sv,
        tau * tau * s,
    );
    // The polynomial identity.
    let total = (g - f) * e1 + b2 * tau + s * (tau * tau);
    assert(eqm(total, q * z));
    lemma_eqm_add(total, q * z, f * e1, f * e1);
    assert((g - f) * e1 == g * e1 - f * e1) by (nonlinear_arith);
    assert(b2 * tau == tau * b2) by (nonlinear_arith);
    assert(s * (tau * tau) == tau * tau * s) by (nonlinear_arith);
    assert(eqm(lhs, f * e1 + q * z));
}

/// The commitment to a value in a slot is a commitment to the polynomial
/// `value + blind * (X - 1)`, which takes the value at one.
pub proof fn lemma_pedersen_is_commitment(crs: &CRS, i: int, value: int, blind: int)
    requires
        crs.wf(),
        0 <= i < crs.l,
    ensures
        eqm(
            pedersen_value(crs, i, value, blind),
            commitment(pedersen_poly(value, blind), vals(crs.powers_of_g@[i]@)),
        ),
        eval(pedersen_poly(value, blind), 1) == value,
{
    assert(crs.slot_wf(i));
    let g = vals(crs.powers_of_g@[i]@);
    let p = pedersen_poly(value, blind);
    let f = |j: int| p[j] * g[j];
    assert(sum(2, f) == sum(1, f) + f(1));
    assert(sum(1, f) == sum(0, f) + f(0));
    lemma_eval_pedersen(value, blind, 1);
    assert(blind * (1 - 1) == 0);
    let d = g[1] - g[0];
    lemma_eqm_mod(d);
    lemma_eqm_mul(d % modulus(), d, blind, blind);
    lemma_eqm_add(g[0] * value, g[0] * value, (d % modulus()) * blind, d * blind);
    lemma_eqm_mod(value_base(crs, i) * value + blinding_base(crs, i) * blind);
    let g0 = g[0];
    let g1 = g[1];
    assert((value - blind) * g0 + blind * g1 == g0 * value + (g1 - g0) * blind)
        by (nonlinear_arith);
}

/// The commitment to a value, in terms of the secret of the reference string.
proof fn lemma_pedersen_value(
    crs: &CRS,
    l: int,
    t: int,
    alphas: Seq<int>,
    gamma: int,
    i: int,
    chunk: int,
    blind: int,
    f: Seq<int>,
)
    requires
        crs.is_generated(crs.n as int, l, t, alphas, gamma),
        0 <= i < l,
        same_poly(f, pedersen_poly(chunk, blind)),
    ensures
        eqm(pedersen_value(crs, i, chunk, blind), alphas[i] * eval(f, t)),
{
    let a = alphas[i];
    assert(crs.slot_wf(i) && is_generated_slot(crs, i, a, t, gamma));
    let g = vals(crs.powers_of_g@[i]@);
    lemma_pow0(t);
    lemma_pow1(t);
    assert(a * 1 == a);
    assert(eqm(g[0], a * pow(t, 0)));
    assert(eqm(g[1], a * pow(t, 1)));
    let vb = value_base(crs, i);
    let bb = blinding_base(crs, i);
    lemma_eqm_sub(g[1], a * t, g[0], a);
    lemma_eqm_mod(g[1] - g[0]);
    lemma_eqm_mul(vb, a, chunk, chunk);
    lemma_eqm_mul(bb, a * t - a, blind, blind);
    lemma_eqm_add(vb * chunk, a * chunk, bb * blind, (a * t - a) * blind);
    lemma_eqm_mod(vb * chunk + bb * blind);
    lemma_eval_same(f, pedersen_poly(chunk, blind), t);
    lemma_eval_pedersen(chunk, blind, t);
    let d = t - 1;
    assert((a * t - a) * blind == a * (blind * d)) by (nonlinear_arith)
        requires
            d == t - 1,
    ;
    let bd = blind * d;
    assert(a * chunk + a * bd == a * (chunk + bd)) by (nonlinear_arith);
    lemma_eqm_mul(a, a, eval(f, t), chunk + bd);
}

/// The openings of a chunk in range are accepted.
proof fn lemma_chunk_accepted(
    crs: &CRS,
    l: int,
    t: int,
    alphas: Seq<int>,
    gamma: int,
    i: int,
    p: ChunkPolys,
    chunk: int,
    blind: int,
    noise1: int,
    noise2: int,
    c: int,
    g_commitment: int,
    q_commitment: int,
    tau: int,
    rho: int,
    o: RangeChunkProof,
)
    requires
        crs.is_generated(crs.n as int, l, t, alphas, gamma),
        crs.n + 1 >= required_powers(),
        0 <= i < l,
        0 <= chunk < chunk_radix(),
        are_chunk_polys(p, chunk, blind, noise1, noise2, tau),
        c == pedersen_value(crs, i, chunk, blind),
        g_commitment == commitment(p.g, vals(crs.powers_of_g@[i]@)) % modulus(),
        q_commitment == commitment(p.q, vals(crs.powers_of_g@[i]@)) % modulus(),
        is_made_chunk(o, p, vals(crs.powers_of_g@[i]@), rho),
    ensures
        is_accepted_chunk(crs, i, c, g_commitment, q_commitment, tau, rho, o),
{
    let powers = vals(crs.powers_of_g@[i]@);
    let a = alphas[i];
    assert(crs.slot_wf(i) && is_generated_slot(crs, i, a, t, gamma));
    let rho_omega = (rho * range_root()) % modulus();
    lemma_eqm_mod(commitment(p.g, powers));
    lemma_eqm_mod(commitment(p.q, powers));
    lemma_eqm_mod(eval(p.g, rho));
    lemma_eqm_mod(eval(p.g, rho_omega));
    lemma_kzg_complete(
        crs,
        l,
        t,
        alphas,
        gamma,
        i,
        p.g,
        g_commitment,
        rho,
        o.g_at_rho@,
        o.g_opening_at_rho@,
    );
    lemma_kzg_complete(
        crs,
        l,
        t,
        alphas,
        gamma,
        i,
        p.g,
        g_commitment,
        rho_omega,
        o.g_at_rho_omega@,
        o.g_opening_at_rho_omega@,
    );
    let e1 = first_quotient(rho);
    let z = vanishing_value(rho);
    let w_hat = w_hat_poly(p.f, p.q, rho);
    lemma_pedersen_value(crs, l, t, alphas, gamma, i, chunk, blind, p.f);
    lemma_commitment_value(p.q, powers, a, t);
    lemma_commitment_value(w_hat, powers, a, t);
    lemma_eval_add(poly_scale(p.f, e1), poly_scale(p.q, z), t);
    lemma_eval_scale(p.f, e1, t);
    lemma_eval_scale(p.q, z, t);
    let ft = eval(p.f, t);
    let qt = eval(p.q, t);
    lemma_eqm_mul(c, a * ft, e1, e1);
    lemma_eqm_mul(q_commitment, a * qt, z, z);
    lemma_eqm_add(c * e1, a * ft * e1, q_commitment * z, a * qt * z);
    let fe = ft * e1;
    let qz = qt * z;
    assert(a * ft * e1 == a * (ft * e1)) by (nonlinear_arith);
    assert(a * qt * z == a * (qt * z)) by (nonlinear_arith);
    assert(a * fe + a * qz == a * (fe + qz)) by (nonlinear_arith);
    lemma_eqm_mod(eval(w_hat, rho));
    lemma_kzg_complete(
        crs,
        l,
        t,
        alphas,
        gamma,
        i,
        w_hat,
        c * e1 + q_commitment * z,
        rho,
        o.w_hat_at_rho@,
        o.w_hat_opening_at_rho@,
    );
    lemma_identity_holds(p, chunk, blind, noise1, noise2, tau, rho, o, powers);
}

/// A proof that was made from chunks in range, for commitments to them, is accepted.
pub proof fn lemma_range_proof_accepted(
    proof_made: &RangeProof,
    digest: Seq<u8>,
    commitments: Seq<G1>,
    chunks: Seq<int>,
    blinds: Seq<int>,
    noise: Seq<(int, int)>,
    crs: &CRS,
    l: int,
    t: int,
    alphas: Seq<int>,
    gamma: int,
    polys: Seq<ChunkPolys>,
)
    requires
        crs.is_generated(crs.n as int, l, t, alphas, gamma),
        range_shape(commitments.len() as int, crs),
        are_pedersen(commitments, crs, chunks, blinds),
        forall|i: int| 0 <= i < chunks.len() ==> 0 <= #[trigger] chunks[i] < chunk_radix(),
        proof_made.is_made(digest, commitments, chunks, blinds, noise, crs, polys),
    ensures
        proof_made.is_accepted(digest, commitments, crs),
{
    lemma_enough_powers(crs);
    assert forall|i: int| 0 <= i < commitments.len() implies is_accepted_chunk(
        crs,
        i,
        commitments[i]@,
        proof_made.g_commitments@[i]@,
        proof_made.q_commitments@[i]@,
        proof_made.tau@,
        proof_made.rho@,
        #[trigger] proof_made.openings@[i],
    ) by {
        assert(are_chunk_polys(
            polys[i],
            chunks[i],
            blinds[i],
            noise[i].0,
            noise[i].1,
            proof_made.tau@,
        ));
        assert(0 <= chunks[i] < chunk_radix());
        assert(commitments[i]@ == pedersen_value(crs, i, chunks[i], blinds[i]));
        assert(proof_made.g_commitments@[i]@ == commitment(
            polys[i].g,
            vals(crs.powers_of_g@[i]@),
        ) % modulus());
        assert(proof_made.q_commitments@[i]@ == commitment(
            polys[i].q,
            vals(crs.powers_of_g@[i]@),
        ) % modulus());
        lemma_chunk_accepted(
            crs,
            l,
            t,
            alphas,
            gamma,
            i,
            polys[i],
            chunks[i],
            blinds[i],
            noise[i].0,
            noise[i].1,
            commitments[i]@,
            proof_made.g_commitments@[i]@,
            proof_made.q_commitments@[i]@,
            proof_made.tau@,
            proof_made.rho@,
            proof_made.openings@[i],
        );
    }
}

} // verus!
