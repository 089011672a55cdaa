//! Laws of range proofs.
use crate::algebra::congruence::{
    eqm, is_unit, lemma_eqm_add, lemma_eqm_difference, lemma_eqm_mod, lemma_eqm_mul, lemma_eqm_sub,
    lemma_reduced, lemma_unit_cancel, modulus,
};
use crate::algebra::primality::lemma_nonzero_is_unit;
use crate::algebra::quotients::lemma_vanishing_without_value;
use crate::algebra::roots::unity_root;
use crate::cca::polynomials::range_last;
use crate::cca::range::{
    first_quotient, is_accepted_chunk, is_first_outside, is_rho, last_quotient, rho_candidate,
    rho_start, rho_transcript, tau_transcript, RangeChunkProof, RangeProof,
};
use crate::cca::PedersenCommitments;
use crate::field::{le_bytes, vals};
use crate::group::G1;
use crate::laws::partial::{hashed_scalar, lemma_said_prefix};
use crate::laws::transcripts::{
    codes_are_faithful, lemma_framed_binds, lemma_framed_length, lemma_g1_list_binds,
    lemma_said_binds, list_line, said, same_shape,
};
use crate::ste::crs::CRS;
use crate::transcript::{framed, size_bytes};
use vstd::arithmetic::power::{lemma1_pow, pow};
use vstd::prelude::*;
use vstd::string::StringSliceAdditionalSpecFns;

verus! {

/// The lines before the challenge that combines the constraints.
pub open spec fn tau_lines(digest: Seq<u8>, c: Seq<G1>, g: Seq<G1>) -> Seq<(Seq<u8>, Seq<u8>)> {
    seq![
        ("range_params_digest".spec_bytes(), framed(digest)),
        ("chunk_commitments".spec_bytes(), list_line(c)),
        ("g_commitments".spec_bytes(), list_line(g)),
    ]
}

/// The lines before the first candidate for the opening point.
pub open spec fn rho_lines(
    digest: Seq<u8>,
    c: Seq<G1>,
    g: Seq<G1>,
    tau: int,
    q: Seq<G1>,
) -> Seq<(Seq<u8>, Seq<u8>)> {
    seq![
        ("range_params_digest".spec_bytes(), framed(digest)),
        ("chunk_commitments".spec_bytes(), list_line(c)),
        ("g_commitments".spec_bytes(), list_line(g)),
        ("tau".spec_bytes(), framed(le_bytes(tau, 32))),
        ("q_commitments".spec_bytes(), list_line(q)),
    ]
}

/// The lines before another candidate.
pub open spec fn retry_lines(rho: int, counter: int) -> Seq<(Seq<u8>, Seq<u8>)> {
    seq![
        ("rho".spec_bytes(), framed(le_bytes(rho, 32))),
        ("counter".spec_bytes(), size_bytes(counter)),
    ]
}

/// Before the challenge that combines the constraints, the transcript says these lines.
#[verifier::rlimit(40)]
pub proof fn law_tau_transcript(digest: Seq<u8>, c: Seq<G1>, g: Seq<G1>)
    ensures
        tau_transcript(digest, c, g) == said(
            "BSTE-CCA-RANGE-PROOF-TAU-V1".spec_bytes(),
            tau_lines(digest, c, g),
        ),
{
    let d = "BSTE-CCA-RANGE-PROOF-TAU-V1".spec_bytes();
    let lines = tau_lines(digest, c, g);
    lemma_said_prefix(d, lines, 3);
    lemma_said_prefix(d, lines, 2);
    lemma_said_prefix(d, lines, 1);
    assert(lines.subrange(0, 3) =~= lines);
    assert(lines.subrange(0, 0) =~= Seq::empty());
    assert(tau_transcript(digest, c, g) =~= said(d, lines));
}

/// Before the first candidate for the point, the transcript says these lines.
#[verifier::rlimit(40)]
pub proof fn law_rho_transcript(digest: Seq<u8>, c: Seq<G1>, g: Seq<G1>, tau: int, q: Seq<G1>)
    ensures
        rho_transcript(digest, c, g, tau, q) == said(
            "BSTE-CCA-RANGE-PROOF-RHO-V1".spec_bytes(),
            rho_lines(digest, c, g, tau, q),
        ),
{
    let d = "BSTE-CCA-RANGE-PROOF-RHO-V1".spec_bytes();
    let lines = rho_lines(digest, c, g, tau, q);
    lemma_said_prefix(d, lines, 5);
    lemma_said_prefix(d, lines, 4);
    lemma_said_prefix(d, lines, 3);
    lemma_said_prefix(d, lines, 2);
    lemma_said_prefix(d, lines, 1);
    assert(lines.subrange(0, 5) =~= lines);
    assert(lines.subrange(0, 0) =~= Seq::empty());
    assert(rho_transcript(digest, c, g, tau, q) =~= said(d, lines));
}

/// Each further candidate is drawn from the one before and its number.
pub proof fn law_rho_retry(start: int, k: int)
    requires
        0 <= k,
    ensures
        rho_candidate(start, 0) == start,
        rho_candidate(start, k + 1) == hashed_scalar(
            said(
                "BSTE-CCA-RANGE-PROOF-RHO-RETRY-V1".spec_bytes(),
                retry_lines(rho_candidate(start, k), k),
            ),
        ),
{
    let d = "BSTE-CCA-RANGE-PROOF-RHO-RETRY-V1".spec_bytes();
    let lines = retry_lines(rho_candidate(start, k), k);
    lemma_said_prefix(d, lines, 2);
    lemma_said_prefix(d, lines, 1);
    assert(lines.subrange(0, 2) =~= lines);
    assert(lines.subrange(0, 0) =~= Seq::empty());
    assert(said(d, lines) =~= framed(d) + crate::transcript::bytes_entry(
        "rho".spec_bytes(),
        le_bytes(rho_candidate(start, k), 32),
    ) + crate::transcript::size_entry("counter".spec_bytes(), k));
}

/// The challenges determine the digest of the parameters and all commitments that they come after.
#[verifier::rlimit(40)]
pub proof fn law_range_transcripts_bind(
    digest: Seq<u8>,
    c: Seq<G1>,
    g: Seq<G1>,
    tau: int,
    q: Seq<G1>,
    digest2: Seq<u8>,
    c2: Seq<G1>,
    g2: Seq<G1>,
    tau2: int,
    q2: Seq<G1>,
)
    requires
        codes_are_faithful(),
        digest.len() == digest2.len(),
        c.len() == c2.len(),
        g.len() == g2.len(),
        q.len() == q2.len(),
    ensures
        tau_transcript(digest, c, g) == tau_transcript(digest2, c2, g2) ==> digest == digest2 && vals(
            c,
        ) == vals(c2) && vals(g) == vals(g2),
        rho_transcript(digest, c, g, tau, q) == rho_transcript(digest2, c2, g2, tau2, q2) ==> digest
            == digest2 && vals(c) == vals(c2) && vals(g) == vals(g2) && vals(q) == vals(q2)
            && le_bytes(tau, 32) == le_bytes(tau2, 32),
{
    law_tau_transcript(digest, c, g);
    law_tau_transcript(digest2, c2, g2);
    law_rho_transcript(digest, c, g, tau, q);
    law_rho_transcript(digest2, c2, g2, tau2, q2);
    lemma_framed_length(digest);
    lemma_framed_length(digest2);
    lemma_framed_length(le_bytes(tau, 32));
    lemma_framed_length(le_bytes(tau2, 32));
    lemma_g1_list_binds(c, c2);
    lemma_g1_list_binds(g, g2);
    lemma_g1_list_binds(q, q2);
    if tau_transcript(digest, c, g) == tau_transcript(digest2, c2, g2) {
        let x = tau_lines(digest, c, g);
        let y = tau_lines(digest2, c2, g2);
        assert(same_shape(x, y));
        lemma_said_binds("BSTE-CCA-RANGE-PROOF-TAU-V1".spec_bytes(), x, y);
        assert(x[0] == y[0] && x[1] == y[1] && x[2] == y[2]);
        lemma_framed_binds(digest, digest2);
    }
    if rho_transcript(digest, c, g, tau, q) == rho_transcript(digest2, c2, g2, tau2, q2) {
        let x = rho_lines(digest, c, g, tau, q);
        let y = rho_lines(digest2, c2, g2, tau2, q2);
        assert(same_shape(x, y));
        lemma_said_binds("BSTE-CCA-RANGE-PROOF-RHO-V1".spec_bytes(), x, y);
        assert(x[0] == y[0] && x[1] == y[1] && x[2] == y[2] && x[3] == y[3] && x[4] == y[4]);
        lemma_framed_binds(digest, digest2);
        lemma_framed_binds(le_bytes(tau, 32), le_bytes(tau2, 32));
    }
}

/// The pairing equation of an opening: `C - v * G` on the first base of the second group is the proof
/// on the difference of the second base and the point.
pub open spec fn opens_to(crs: &CRS, slot: int, c: int, point: int, v: int, opening: int) -> bool {
    let g0 = crs.powers_of_g@[slot]@[0]@;
    let h0 = crs.powers_of_h@[0]@[0]@;
    let h1 = crs.powers_of_h@[0]@[1]@;
    eqm((c - g0 * v) * h0, opening * (h1 - h0 * point))
}

/// The constraint on the opened values of a chunk, with the quotients of `X^16 - 1` by `X - 1` and by
/// `X - w15` at the point.
pub open spec fn constraint_holds(
    tau: int,
    rho: int,
    w15: int,
    e1: int,
    e2: int,
    g: int,
    next: int,
    w_hat: int,
) -> bool {
    eqm(
        g * e1 + tau * (g * (1 - g) * e2) + tau * tau * ((g - 2 * next) * (1 - g + 2 * next) * (rho
            - w15)),
        w_hat,
    )
}

/// Whether a value is the quotient of `X^16 - 1` by `X - c` at a point.
pub open spec fn is_quotient_at(e: int, rho: int, c: int) -> bool {
    eqm(e * (rho - c), pow(rho, 16) - 1)
}

/// What an accepted range proof shows of its values: the shape fits, the challenges are those of the
/// transcripts, the point is outside of the domain, and for every chunk the three openings and the
/// constraint on the opened values hold.
pub proof fn law_range_verify(
    p: RangeProof,
    digest: [u8; 32],
    commitments: PedersenCommitments,
    crs: CRS,
    i: int,
    e1: int,
    e2: int,
)
    requires
        call_ensures(RangeProof::verify_with_context, (&p, &digest, &commitments, &crs), true),
        0 <= i < commitments.commitments@.len(),
        is_quotient_at(e1, p.rho@, 1),
        is_quotient_at(e2, p.rho@, pow(unity_root(16), 15)),
    ensures
        p.g_commitments@.len() == commitments.commitments@.len(),
        p.q_commitments@.len() == commitments.commitments@.len(),
        p.openings@.len() == commitments.commitments@.len(),
        p.tau@ == hashed_scalar(
            said(
                "BSTE-CCA-RANGE-PROOF-TAU-V1".spec_bytes(),
                tau_lines(digest@, commitments.commitments@, p.g_commitments@),
            ),
        ),
        opens_to(
            &crs,
            i,
            p.g_commitments@[i]@,
            p.rho@,
            p.openings@[i].g_at_rho@,
            p.openings@[i].g_opening_at_rho@,
        ),
        opens_to(
            &crs,
            i,
            p.g_commitments@[i]@,
            p.rho@ * unity_root(16),
            p.openings@[i].g_at_rho_omega@,
            p.openings@[i].g_opening_at_rho_omega@,
        ),
        opens_to(
            &crs,
            i,
            commitments.commitments@[i]@ * e1 + p.q_commitments@[i]@ * (pow(p.rho@, 16) - 1),
            p.rho@,
            p.openings@[i].w_hat_at_rho@,
            p.openings@[i].w_hat_opening_at_rho@,
        ),
        constraint_holds(
            p.tau@,
            p.rho@,
            pow(unity_root(16), 15),
            e1,
            e2,
            p.openings@[i].g_at_rho@,
            p.openings@[i].g_at_rho_omega@,
            p.openings@[i].w_hat_at_rho@,
        ),
{
    law_range_verify_exact(p, digest, commitments, crs, e1, e2, true);
    assert(chunk_holds(
        &crs,
        i,
        commitments.commitments@[i]@,
        p.g_commitments@[i]@,
        p.q_commitments@[i]@,
        p.tau@,
        p.rho@,
        p.openings@[i],
        e1,
        e2,
    ));
}

/// The quotients that the verifier computes are the only ones.
proof fn lemma_quotients_agree(rho: int, e1: int, e2: int)
    requires
        !eqm(pow(rho, 16), 1),
        is_quotient_at(e1, rho, 1),
        is_quotient_at(e2, rho, pow(unity_root(16), 15)),
    ensures
        eqm(first_quotient(rho), e1),
        eqm(last_quotient(rho), e2),
{
    let last = range_last();
    let w15 = pow(unity_root(16), 15);
    lemma_eqm_mod(w15);
    lemma1_pow(16);
    lemma_vanishing_without_value(16, 1, rho);
    lemma_vanishing_without_value(16, last, rho);
    crate::cca::polynomials::lemma_range_size();
    crate::algebra::quotients::lemma_root_power_order(16, 15);
    crate::algebra::congruence::lemma_eqm_pow(last, w15, 16);
    lemma_outside(rho, 1);
    lemma_outside(rho, last);
    lemma_eqm_sub(rho, rho, last, w15);
    lemma_eqm_mul(e2, e2, rho - last, rho - w15);
    lemma_eqm_sub(pow(rho, 16), pow(rho, 16), pow(last, 16), 1);
    let a = first_quotient(rho);
    let b = last_quotient(rho);
    assert(a * (rho - 1) == (rho - 1) * a) by (nonlinear_arith);
    assert(e1 * (rho - 1) == (rho - 1) * e1) by (nonlinear_arith);
    assert(b * (rho - last) == (rho - last) * b) by (nonlinear_arith);
    assert(e2 * (rho - last) == (rho - last) * e2) by (nonlinear_arith);
    lemma_unit_cancel(rho - 1, a, e1);
    lemma_unit_cancel(rho - last, b, e2);
}

proof fn lemma_outside(rho: int, c: int)
    requires
        !eqm(pow(rho, 16), 1),
        eqm(pow(c, 16), 1),
    ensures
        is_unit(rho - c),
{
    if eqm(rho - c, 0) {
        lemma_eqm_difference(rho, c);
        crate::algebra::congruence::lemma_eqm_pow(rho, c, 16);
    }
    lemma_nonzero_is_unit(rho - c);
}

/// An accepted range proof fits the reference string, and its point is the first candidate that is
/// outside of the domain: the hash of all commitments, where that is outside.
pub proof fn law_range_shape_and_point(
    p: RangeProof,
    digest: [u8; 32],
    commitments: PedersenCommitments,
    crs: CRS,
)
    requires
        call_ensures(RangeProof::verify_with_context, (&p, &digest, &commitments, &crs), true),
    ensures
        commitments.commitments@.len() <= crs.l,
        forall|k: int|
            0 <= k < crs.l && k < crs.powers_of_g@.len() ==> (#[trigger] crs.powers_of_g@[k])@.len()
                >= 35,
        crs.powers_of_h@[0]@.len() >= 35,
        !eqm(pow(p.rho@, 16), 1),
        ({
            let start = hashed_scalar(
                said(
                    "BSTE-CCA-RANGE-PROOF-RHO-V1".spec_bytes(),
                    rho_lines(
                        digest@,
                        commitments.commitments@,
                        p.g_commitments@,
                        p.tau@,
                        p.q_commitments@,
                    ),
                ),
            );
            &&& !eqm(pow(start, 16), 1) ==> p.rho@ == start
            &&& exists|k: int|
                0 <= k <= usize::MAX && p.rho@ == #[trigger] rho_candidate(start, k) && forall|
                    j: int,
                |
                    0 <= j < k ==> eqm(pow(#[trigger] rho_candidate(start, j), 16), 1)
        }),
{
    law_rho_transcript(
        digest@,
        commitments.commitments@,
        p.g_commitments@,
        p.tau@,
        p.q_commitments@,
    );
    let start = rho_start(
        digest@,
        commitments.commitments@,
        p.g_commitments@,
        p.tau@,
        p.q_commitments@,
    );
    let k = choose|k: int| #[trigger]
        is_first_outside(start, k) && p.rho@ == rho_candidate(start, k);
    lemma_reduced_one();
    if k > 0 {
        assert(crate::cca::polynomials::is_range_element(rho_candidate(start, 0)));
    }
    assert(p.rho@ == rho_candidate(start, k));
}

proof fn lemma_reduced_one()
    ensures
        1int % modulus() == 1,
{
    crate::algebra::congruence::lemma_modulus();
    lemma_reduced(1);
}

/// Checking a proof on its own is checking it under the digest of the reference string.
pub proof fn law_range_verify_alone(
    p: RangeProof,
    commitments: PedersenCommitments,
    crs: CRS,
    digest: [u8; 32],
    alone: bool,
    with_digest: bool,
)
    requires
        digest@ == crate::transcript::sha256(
            said(
                "BSTE-CCA-RANGE-PARAMS-DIGEST-V1".spec_bytes(),
                crate::laws::digests::range_digest_lines(&crs),
            ),
        ),
        call_ensures(RangeProof::verify, (&p, &commitments, &crs), alone),
        call_ensures(
            RangeProof::verify_with_context,
            (&p, &digest, &commitments, &crs),
            with_digest,
        ),
    ensures
        alone == with_digest,
{
    crate::laws::digests::law_range_digest(&crs);
}

/// Whether the openings of a chunk hold: the three openings, and the constraint on the opened values.
pub open spec fn chunk_holds(
    crs: &CRS,
    i: int,
    c: int,
    g_commitment: int,
    q_commitment: int,
    tau: int,
    rho: int,
    o: RangeChunkProof,
    e1: int,
    e2: int,
) -> bool {
    &&& opens_to(crs, i, g_commitment, rho, o.g_at_rho@, o.g_opening_at_rho@)
    &&& opens_to(
        crs,
        i,
        g_commitment,
        rho * unity_root(16),
        o.g_at_rho_omega@,
        o.g_opening_at_rho_omega@,
    )
    &&& opens_to(
        crs,
        i,
        c * e1 + q_commitment * (pow(rho, 16) - 1),
        rho,
        o.w_hat_at_rho@,
        o.w_hat_opening_at_rho@,
    )
    &&& constraint_holds(
        tau,
        rho,
        pow(unity_root(16), 15),
        e1,
        e2,
        o.g_at_rho@,
        o.g_at_rho_omega@,
        o.w_hat_at_rho@,
    )
}

/// Whether the point is the first candidate outside of the domain.
pub open spec fn is_point(start: int, rho: int) -> bool {
    exists|k: int|
        0 <= k <= usize::MAX && rho == #[trigger] rho_candidate(start, k) && !eqm(pow(rho, 16), 1)
            && forall|j: int| 0 <= j < k ==> eqm(pow(#[trigger] rho_candidate(start, j), 16), 1)
}

/// A range proof is accepted exactly if the shape fits, the challenges are those of the transcripts, the
/// point is the first candidate outside of the domain, and the openings of every chunk hold.
pub proof fn law_range_verify_exact(
    p: RangeProof,
    digest: [u8; 32],
    commitments: PedersenCommitments,
    crs: CRS,
    e1: int,
    e2: int,
    ok: bool,
)
    requires
        call_ensures(RangeProof::verify_with_context, (&p, &digest, &commitments, &crs), ok),
        is_quotient_at(e1, p.rho@, 1),
        is_quotient_at(e2, p.rho@, pow(unity_root(16), 15)),
    ensures
        ok == ({
            let c = commitments.commitments@;
            &&& c.len() <= crs.l
            &&& forall|k: int|
                0 <= k < crs.l && k < crs.powers_of_g@.len() ==> (
                #[trigger] crs.powers_of_g@[k])@.len() >= 35
            &&& crs.powers_of_h@[0]@.len() >= 35
            &&& p.g_commitments@.len() == c.len()
            &&& p.q_commitments@.len() == c.len()
            &&& p.openings@.len() == c.len()
            &&& p.tau@ == hashed_scalar(
                said(
                    "BSTE-CCA-RANGE-PROOF-TAU-V1".spec_bytes(),
                    tau_lines(digest@, c, p.g_commitments@),
                ),
            )
            &&& is_point(
                hashed_scalar(
                    said(
                        "BSTE-CCA-RANGE-PROOF-RHO-V1".spec_bytes(),
                        rho_lines(digest@, c, p.g_commitments@, p.tau@, p.q_commitments@),
                    ),
                ),
                p.rho@,
            )
            &&& forall|i: int|
                0 <= i < c.len() ==> chunk_holds(
                    &crs,
                    i,
                    c[i]@,
                    p.g_commitments@[i]@,
                    p.q_commitments@[i]@,
                    p.tau@,
                    p.rho@,
                    #[trigger] p.openings@[i],
                    e1,
                    e2,
                )
        }),
{
    let c = commitments.commitments@;
    law_tau_transcript(digest@, c, p.g_commitments@);
    law_rho_transcript(digest@, c, p.g_commitments@, p.tau@, p.q_commitments@);
    let start = rho_start(digest@, c, p.g_commitments@, p.tau@, p.q_commitments@);
    lemma_reduced_one();
    lemma_point(start, p.rho@);
    if is_point(start, p.rho@) {
        assert forall|i: int| 0 <= i < c.len() implies is_accepted_chunk(
            &crs,
            i,
            c[i]@,
            p.g_commitments@[i]@,
            p.q_commitments@[i]@,
            p.tau@,
            p.rho@,
            #[trigger] p.openings@[i],
        ) == chunk_holds(
            &crs,
            i,
            c[i]@,
            p.g_commitments@[i]@,
            p.q_commitments@[i]@,
            p.tau@,
            p.rho@,
            p.openings@[i],
            e1,
            e2,
        ) by {
            lemma_chunk_holds(
                &crs,
                i,
                c[i]@,
                p.g_commitments@[i]@,
                p.q_commitments@[i]@,
                p.tau@,
                p.rho@,
                p.openings@[i],
                e1,
                e2,
            );
        }
    }
}

/// The point that provers and verifiers look for.
pub(crate) proof fn lemma_point(start: int, rho: int)
    ensures
        is_point(start, rho) == is_rho(start, rho),
{
    lemma_reduced_one();
    if is_rho(start, rho) {
        let k = choose|k: int| #[trigger]
            is_first_outside(start, k) && rho == rho_candidate(start, k);
        assert(rho == rho_candidate(start, k));
    }
    if is_point(start, rho) {
        let k = choose|k: int|
            0 <= k <= usize::MAX && rho == #[trigger] rho_candidate(start, k) && !eqm(
                pow(rho, 16),
                1,
            ) && forall|j: int|
                0 <= j < k ==> eqm(pow(#[trigger] rho_candidate(start, j), 16), 1);
        assert(is_first_outside(start, k));
    }
}

proof fn lemma_chunk_holds(
    crs: &CRS,
    i: int,
    c: int,
    g_commitment: int,
    q_commitment: int,
    tau: int,
    rho: int,
    o: RangeChunkProof,
    e1: int,
    e2: int,
)
    requires
        !eqm(pow(rho, 16), 1),
        is_quotient_at(e1, rho, 1),
        is_quotient_at(e2, rho, pow(unity_root(16), 15)),
    ensures
        is_accepted_chunk(crs, i, c, g_commitment, q_commitment, tau, rho, o) == chunk_holds(
            crs,
            i,
            c,
            g_commitment,
            q_commitment,
            tau,
            rho,
            o,
            e1,
            e2,
        ),
{
    let w = unity_root(16);
    let w15 = pow(w, 15);
    lemma_eqm_mod(w15);
    lemma_quotients_agree(rho, e1, e2);
    // The second opening, at the unreduced point.
    let h0 = crs.powers_of_h@[0]@[0]@;
    let h1 = crs.powers_of_h@[0]@[1]@;
    lemma_eqm_mod(rho * w);
    lemma_eqm_mul(h0, h0, (rho * w) % modulus(), rho * w);
    lemma_eqm_sub(h1, h1, h0 * ((rho * w) % modulus()), h0 * (rho * w));
    lemma_eqm_mul(
        o.g_opening_at_rho_omega@,
        o.g_opening_at_rho_omega@,
        h1 - h0 * ((rho * w) % modulus()),
        h1 - h0 * (rho * w),
    );
    // The third opening, with the given quotient.
    let q = q_commitment * (pow(rho, 16) - 1);
    let f1 = first_quotient(rho);
    let f2 = last_quotient(rho);
    lemma_eqm_mul(c, c, f1, e1);
    lemma_eqm_add(c * f1, c * e1, q, q);
    let v = crs.powers_of_g@[i]@[0]@ * o.w_hat_at_rho@;
    lemma_eqm_sub(c * f1 + q, c * e1 + q, v, v);
    lemma_eqm_mul(c * f1 + q - v, c * e1 + q - v, h0, h0);
    // The constraint.
    let g = o.g_at_rho@;
    let n = o.g_at_rho_omega@;
    lemma_eqm_mul(g, g, f1, e1);
    let x = g * (1 - g);
    lemma_eqm_mul(x, x, f2, e2);
    lemma_eqm_mul(tau, tau, x * f2, x * e2);
    assert(n * 2 == 2 * n);
    let d = (g - 2 * n) * (1 - g + 2 * n);
    lemma_eqm_sub(rho, rho, range_last(), w15);
    lemma_eqm_mul(d, d, rho - range_last(), rho - w15);
    lemma_eqm_mul(tau * tau, tau * tau, d * (rho - range_last()), d * (rho - w15));
    lemma_eqm_add(g * f1, g * e1, tau * (x * f2), tau * (x * e2));
    lemma_eqm_add(
        g * f1 + tau * (x * f2),
        g * e1 + tau * (x * e2),
        tau * tau * (d * (rho - range_last())),
        tau * tau * (d * (rho - w15)),
    );
}

} // verus!
