//! Laws of the provers: what they draw, what they answer, and that verifiers accept it.
use crate::algebra::congruence::{eqm, lemma_eqm_add, lemma_eqm_mod, modulus};
use crate::algebra::polynomial::eval;
use crate::algebra::roots::unity_root;
use crate::algebra::sums::{lemma_sum_eq, sum};
use crate::bte::crs::CRS as BteCRS;
use crate::bte::encryption::{encrypt_with_key, Ciphertext, EncryptionWitness};
use crate::bte::PRF;
use crate::cca::polynomials::{range_root, without_low_bits};
use crate::cca::range::{
    are_chunk_polys, are_round_commitments, can_prove_range, flat_pairs, has_no_rho,
    is_prover_result, is_rho, lemma_range_proof_accepted, pair_values, rho_start, tau_value,
    ChunkPolys, RangeProof,
};
use crate::cca::schnorr::{
    can_prove, is_made_opening, is_validity_result, lemma_validity_proof_accepted, response,
    responses, SchnorrMasks, SchnorrProof, ValidityProof,
};
use crate::cca::{CcaStatementContext, PedersenCommitments, PedersenOpenings};
use crate::field::{are_draws, lemma_scalar_range, vals, Scalar};
use crate::group::G1;
use crate::laws::digests::{law_range_digest, range_digest_lines};
use crate::laws::partial::hashed_scalar;
use crate::transcript::sha256;
use crate::laws::range::{
    is_point, law_rho_transcript, law_tau_transcript, lemma_point, rho_lines, tau_lines,
};
use crate::laws::schnorr::{images, law_schnorr_transcript, lemma_images, schnorr_lines};
use crate::laws::transcripts::said;
use crate::ste::aggregate::EncryptionKey;
use crate::ste::crs::CRS as SteCRS;
use crate::ste::encryption::EncryptionRandomness;
use ark_std::rand::rngs::StdRng;
use vstd::arithmetic::power::pow;
use vstd::arithmetic::power2::pow2;
use vstd::prelude::*;
use vstd::string::StringSliceAdditionalSpecFns;

verus! {

/// Fresh masks are what the generator yields: first those of the chunks, then those of the encryption
/// randomness, then those of the blinding scalars.
pub proof fn law_masks(n: usize, rng: &mut StdRng, masks: SchnorrMasks)
    requires
        call_ensures(SchnorrMasks::random, (n, rng), masks),
    ensures
        masks.chunks@.len() == n,
        masks.commitment_randomness@.len() == n,
        are_draws(
            *old(rng),
            *final(rng),
            masks.chunks@ + masks.ste_randomness@ + masks.commitment_randomness@,
        ),
{
}

/// Whether every answer is the mask plus the challenge times the secret.
pub open spec fn answers(z: Seq<Scalar>, r: Seq<Scalar>, c: int, w: Seq<Scalar>) -> bool {
    &&& z.len() == r.len()
    &&& forall|i: int| 0 <= i < z.len() ==> (#[trigger] z[i])@ == (r[i]@ + c * w[i]@) % modulus()
}

proof fn lemma_answers(z: Seq<Scalar>, r: Seq<Scalar>, c: int, w: Seq<Scalar>)
    requires
        vals(z) == responses(vals(r), c, vals(w)),
        w.len() >= r.len(),
    ensures
        answers(z, r, c, w),
{
    assert(vals(z).len() == z.len());
    assert forall|i: int| 0 <= i < z.len() implies (#[trigger] z[i])@ == (r[i]@ + c * w[i]@)
        % modulus() by {
        assert(vals(z)[i] == response(r[i]@, c, w[i]@));
        let p = c * w[i]@;
        lemma_eqm_mod(p);
        lemma_eqm_add(r[i]@, r[i]@, p % modulus(), p);
    }
}

/// Whether a proof of knowledge answers the hash of the statement and of the images of the masks.
pub open spec fn answers_statement(
    c: int,
    z_chunks: Seq<Scalar>,
    z_s: Seq<Scalar>,
    z_blinds: Seq<Scalar>,
    digest: Seq<u8>,
    ct: &Ciphertext,
    bte_crs: &BteCRS,
    ste_crs: &SteCRS,
    ek: &EncryptionKey,
    commitments: Seq<G1>,
    witness: &EncryptionWitness,
    openings: &PedersenOpenings,
    masks: SchnorrMasks,
) -> bool {
    &&& masks.chunks@.len() == commitments.len()
    &&& masks.commitment_randomness@.len() == commitments.len()
    &&& c == hashed_scalar(
        said(
            "BSTE-CCA-CIPHERTEXT-VALIDITY-V2-COMPACT".spec_bytes(),
            schnorr_lines(
                digest,
                ct,
                commitments,
                images(
                    bte_crs,
                    ste_crs,
                    ek,
                    ct.pprf.point as int,
                    ct.encrypted_key.t as int,
                    vals(masks.chunks@),
                    vals(masks.ste_randomness@),
                    vals(masks.commitment_randomness@),
                ),
            ),
        ),
    )
    &&& answers(z_chunks, masks.chunks@, c, witness.chunks@)
    &&& answers(z_s, masks.ste_randomness@, c, witness.ste_randomness.s@)
    &&& answers(z_blinds, masks.commitment_randomness@, c, openings.randomness@)
}

proof fn lemma_answers_statement(
    c: int,
    z_chunks: Seq<Scalar>,
    z_s: Seq<Scalar>,
    z_blinds: Seq<Scalar>,
    digest: Seq<u8>,
    ct: &Ciphertext,
    bte_crs: &BteCRS,
    ste_crs: &SteCRS,
    ek: &EncryptionKey,
    commitments: Seq<G1>,
    witness: &EncryptionWitness,
    openings: &PedersenOpenings,
    masks: SchnorrMasks,
)
    requires
        witness.chunks@.len() == commitments.len(),
        openings.randomness@.len() == commitments.len(),
        is_made_opening(
            c,
            vals(z_chunks),
            vals(z_s),
            vals(z_blinds),
            digest,
            ct,
            bte_crs,
            ste_crs,
            ek,
            commitments,
            vals(witness.chunks@),
            vals(witness.ste_randomness.s@),
            vals(openings.randomness@),
            masks,
        ),
    ensures
        answers_statement(
            c,
            z_chunks,
            z_s,
            z_blinds,
            digest,
            ct,
            bte_crs,
            ste_crs,
            ek,
            commitments,
            witness,
            openings,
            masks,
        ),
{
    let a = vals(masks.chunks@);
    let b = vals(masks.ste_randomness@);
    let d = vals(masks.commitment_randomness@);
    lemma_images(ct, bte_crs, ste_crs, ek, a, b, d);
    law_schnorr_transcript(
        digest,
        ct,
        commitments,
        images(
            bte_crs,
            ste_crs,
            ek,
            ct.pprf.point as int,
            ct.encrypted_key.t as int,
            a,
            b,
            d,
        ),
    );
    lemma_answers(z_chunks, masks.chunks@, c, witness.chunks@);
    lemma_answers(z_s, masks.ste_randomness@, c, witness.ste_randomness.s@);
    lemma_answers(z_blinds, masks.commitment_randomness@, c, openings.randomness@);
}

/// With given masks, the prover answers the hash of the statement and of the images of the masks.
pub proof fn law_schnorr_prove_with_masks(
    context: CcaStatementContext,
    ct: Ciphertext,
    bte_crs: BteCRS,
    ste_crs: SteCRS,
    ek: EncryptionKey,
    commitments: PedersenCommitments,
    witness: EncryptionWitness,
    openings: PedersenOpenings,
    masks: SchnorrMasks,
    p: SchnorrProof,
)
    requires
        witness.chunks@.len() == commitments.commitments@.len(),
        openings.randomness@.len() == commitments.commitments@.len(),
        call_ensures(
            SchnorrProof::prove_with_masks,
            (
                &context,
                &ct,
                &bte_crs,
                &ste_crs,
                &ek,
                &commitments,
                &witness,
                &openings,
                &masks,
            ),
            p,
        ),
    ensures
        answers_statement(
            p.challenge@,
            p.z_chunks@,
            p.z_ste_randomness@,
            p.z_commitment_randomness@,
            context.validity_params_digest@,
            &ct,
            &bte_crs,
            &ste_crs,
            &ek,
            commitments.commitments@,
            &witness,
            &openings,
            masks,
        ),
{
    lemma_answers_statement(
        p.challenge@,
        p.z_chunks@,
        p.z_ste_randomness@,
        p.z_commitment_randomness@,
        context.validity_params_digest@,
        &ct,
        &bte_crs,
        &ste_crs,
        &ek,
        commitments.commitments@,
        &witness,
        &openings,
        masks,
    );
}

/// The prover draws its masks, and answers the hash of the statement and of their images.
pub proof fn law_schnorr_prove(
    context: CcaStatementContext,
    ct: Ciphertext,
    bte_crs: BteCRS,
    ste_crs: SteCRS,
    ek: EncryptionKey,
    commitments: PedersenCommitments,
    witness: EncryptionWitness,
    openings: PedersenOpenings,
    rng: &mut StdRng,
    p: SchnorrProof,
)
    requires
        witness.chunks@.len() == commitments.commitments@.len(),
        openings.randomness@.len() == commitments.commitments@.len(),
        call_ensures(
            SchnorrProof::prove_with_context,
            (
                &context,
                &ct,
                &bte_crs,
                &ste_crs,
                &ek,
                &commitments,
                &witness,
                &openings,
                rng,
            ),
            p,
        ),
    ensures
        exists|masks: SchnorrMasks|
            are_draws(
                *old(rng),
                *final(rng),
                masks.chunks@ + masks.ste_randomness@ + masks.commitment_randomness@,
            ) && #[trigger] answers_statement(
                p.challenge@,
                p.z_chunks@,
                p.z_ste_randomness@,
                p.z_commitment_randomness@,
                context.validity_params_digest@,
                &ct,
                &bte_crs,
                &ste_crs,
                &ek,
                commitments.commitments@,
                &witness,
                &openings,
                masks,
            ),
{
    let masks = choose|masks: SchnorrMasks| #[trigger]
        p.is_made(
            &context,
            &ct,
            &bte_crs,
            &ste_crs,
            &ek,
            commitments.commitments@,
            &witness,
            &openings,
            masks,
        ) && are_draws(*old(rng), *final(rng), masks.drawn());
    lemma_answers_statement(
        p.challenge@,
        p.z_chunks@,
        p.z_ste_randomness@,
        p.z_commitment_randomness@,
        context.validity_params_digest@,
        &ct,
        &bte_crs,
        &ste_crs,
        &ek,
        commitments.commitments@,
        &witness,
        &openings,
        masks,
    );
}

/// Pairs, one after the other.
pub open spec fn in_order(pairs: Seq<(Scalar, Scalar)>) -> Seq<Scalar> {
    Seq::new(
        2 * pairs.len(),
        |k: int|
            if k % 2 == 0 {
                pairs[k / 2].0
            } else {
                pairs[k / 2].1
            },
    )
}

proof fn lemma_in_order(pairs: Seq<(Scalar, Scalar)>)
    ensures
        flat_pairs(pairs) == in_order(pairs),
    decreases pairs.len(),
{
    if pairs.len() > 0 {
        lemma_in_order(pairs.drop_last());
    }
    assert(flat_pairs(pairs) =~= in_order(pairs));
}

/// Whether the commitments of a prover are to polynomials of the chunks: each takes the chunk without
/// its lowest bits on the domain, and what was drawn for it at three and five.
pub open spec fn commits_to_bits(
    g_commitments: Seq<G1>,
    g: Seq<Seq<int>>,
    crs: &SteCRS,
    chunks: Seq<Scalar>,
    noise: Seq<(Scalar, Scalar)>,
) -> bool {
    &&& g.len() == g_commitments.len()
    &&& noise.len() == chunks.len()
    &&& forall|i: int|
        0 <= i < g_commitments.len() ==> (#[trigger] g_commitments[i])@ == sum(
            g[i].len() as int,
            |j: int| g[i][j] * crs.powers_of_g@[i]@[j]@,
        ) % modulus()
    &&& forall|i: int|
        0 <= i < g.len() ==> (#[trigger] g[i]).len() <= 18 && eqm(eval(g[i], 3), noise[i].0@)
            && eqm(eval(g[i], 5), noise[i].1@)
    &&& forall|i: int, k: int|
        0 <= i < g.len() && 0 <= k < 16 ==> eqm(
            #[trigger] eval(g[i], pow(unity_root(16), k as nat)),
            chunks[i]@ / (pow2(k as nat) as int),
        )
}

/// Whether a range proof is the prover's: its commitments are to the bits of the chunks and what was
/// drawn for them, and the challenges are those of the transcripts.
pub open spec fn is_range_proof_of(
    p: RangeProof,
    digest: Seq<u8>,
    c: Seq<G1>,
    g: Seq<Seq<int>>,
    crs: &SteCRS,
    chunks: Seq<Scalar>,
    noise: Seq<(Scalar, Scalar)>,
) -> bool {
    &&& p.g_commitments@.len() == c.len()
    &&& p.q_commitments@.len() == c.len()
    &&& p.openings@.len() == c.len()
    &&& commits_to_bits(p.g_commitments@, g, crs, chunks, noise)
    &&& p.tau@ == hashed_scalar(
        said(
            "BSTE-CCA-RANGE-PROOF-TAU-V1".spec_bytes(),
            tau_lines(digest, c, p.g_commitments@),
        ),
    )
    &&& forall|i: int|
        0 <= i < c.len() ==> eqm((#[trigger] p.openings@[i]).g_at_rho@, eval(g[i], p.rho@))
}

proof fn lemma_range_proof_of(
    p: RangeProof,
    digest: Seq<u8>,
    c: Seq<G1>,
    crs: &SteCRS,
    chunks: Seq<Scalar>,
    blinds: Seq<int>,
    noise: Seq<(Scalar, Scalar)>,
    polys: Seq<ChunkPolys>,
) -> (g: Seq<Seq<int>>)
    requires
        chunks.len() == c.len(),
        noise.len() == c.len(),
        p.is_made(digest, c, vals(chunks), blinds, pair_values(noise), crs, polys),
        crate::cca::range::range_shape(c.len() as int, crs),
        c.len() <= crs.powers_of_g@.len(),
    ensures
        is_range_proof_of(p, digest, c, g, crs, chunks, noise),
{
    let g = Seq::new(polys.len(), |i: int| polys[i].g);
    law_tau_transcript(digest, c, p.g_commitments@);
    let tau = p.tau@;
    assert forall|i: int| 0 <= i < c.len() implies are_chunk_polys(
        #[trigger] polys[i],
        chunks[i]@,
        blinds[i],
        noise[i].0@,
        noise[i].1@,
        tau,
    ) by {
        assert(vals(chunks)[i] == chunks[i]@);
        assert(pair_values(noise)[i] == (noise[i].0@, noise[i].1@));
    }
    assert forall|i: int| 0 <= i < c.len() implies (#[trigger] p.g_commitments@[i])@ == sum(
        g[i].len() as int,
        |j: int| g[i][j] * crs.powers_of_g@[i]@[j]@,
    ) % modulus() by {
        let points = vals(crs.powers_of_g@[i]@);
        assert(are_chunk_polys(
            polys[i],
            chunks[i]@,
            blinds[i],
            noise[i].0@,
            noise[i].1@,
            tau,
        ));
        assert(crs.powers_of_g@[i]@.len() >= 35);
        lemma_sum_eq(
            g[i].len() as int,
            |j: int| g[i][j] * crs.powers_of_g@[i]@[j]@,
            |j: int| polys[i].g[j] * points[j],
        );
    }
    assert forall|i: int| 0 <= i < g.len() implies (#[trigger] g[i]).len() <= 18 && eqm(
        eval(g[i], 3),
        noise[i].0@,
    ) && eqm(eval(g[i], 5), noise[i].1@) by {
        assert(g[i] == polys[i].g);
    }
    assert forall|i: int, k: int| 0 <= i < g.len() && 0 <= k < 16 implies eqm(
        #[trigger] eval(g[i], pow(unity_root(16), k as nat)),
        chunks[i]@ / (pow2(k as nat) as int),
    ) by {
        assert(g[i] == polys[i].g);
        assert(are_chunk_polys(
            polys[i],
            chunks[i]@,
            blinds[i],
            noise[i].0@,
            noise[i].1@,
            tau,
        ));
        assert(eqm(
            eval(polys[i].g, pow(range_root(), k as nat)),
            without_low_bits(chunks[i]@, k),
        ));
    }
    assert forall|i: int| 0 <= i < c.len() implies eqm(
        (#[trigger] p.openings@[i]).g_at_rho@,
        eval(g[i], p.rho@),
    ) by {
        lemma_eqm_mod(eval(polys[i].g, p.rho@));
    }
    g
}

/// What the candidates for the point start from, after two rounds of commitments.
pub open spec fn first_candidate(digest: Seq<u8>, c: Seq<G1>, g: Seq<G1>, q: Seq<G1>) -> int {
    let tau = hashed_scalar(
        said("BSTE-CCA-RANGE-PROOF-TAU-V1".spec_bytes(), tau_lines(digest, c, g)),
    );
    hashed_scalar(
        said("BSTE-CCA-RANGE-PROOF-RHO-V1".spec_bytes(), rho_lines(digest, c, g, tau, q)),
    )
}

/// Whether there is a point for the polynomials to be opened at, whatever was committed to in the two
/// rounds.
pub open spec fn always_has_point(digest: Seq<u8>, c: Seq<G1>) -> bool {
    forall|g: Seq<G1>, q: Seq<G1>|
        exists|rho: int| is_point(#[trigger] first_candidate(digest, c, g, q), rho)
}

proof fn lemma_always_has_point(
    digest: Seq<u8>,
    c: Seq<G1>,
    chunks: Seq<int>,
    blinds: Seq<int>,
    noise: Seq<(int, int)>,
    crs: &SteCRS,
)
    requires
        always_has_point(digest, c),
    ensures
        !is_prover_result(None, digest, c, chunks, blinds, noise, crs),
{
    if is_prover_result(None, digest, c, chunks, blinds, noise, crs) {
        let (polys, g, q) = choose|polys: Seq<ChunkPolys>, g: Seq<G1>, q: Seq<G1>| #[trigger]
            are_round_commitments(digest, c, chunks, blinds, noise, crs, polys, g, q)
                && has_no_rho(digest, c, g, q);
        law_tau_transcript(digest, c, g);
        law_rho_transcript(digest, c, g, tau_value(digest, c, g), q);
        let start = first_candidate(digest, c, g, q);
        let rho = choose|rho: int| is_point(start, rho);
        lemma_point(start, rho);
        assert(is_rho(rho_start(digest, c, g, tau_value(digest, c, g), q), rho));
    }
}

/// The prover of ranges draws two values for each chunk and commits to its bits with them.
pub proof fn law_range_prove(
    digest: [u8; 32],
    commitments: PedersenCommitments,
    witness: EncryptionWitness,
    openings: PedersenOpenings,
    crs: SteCRS,
    rng: &mut StdRng,
    res: Option<RangeProof>,
)
    requires
        can_prove_range(
            commitments.commitments@,
            witness.chunks@,
            openings.randomness@,
            &crs,
        ),
        call_ensures(
            RangeProof::prove_with_context,
            (&digest, &commitments, &witness, &openings, &crs, rng),
            res,
        ),
    ensures
        exists|noise: Seq<(Scalar, Scalar)>| #[trigger]
            are_draws(*old(rng), *final(rng), in_order(noise)) && noise.len()
                == witness.chunks@.len() && (res matches Some(p) ==> exists|g: Seq<Seq<int>>| #[trigger]
                is_range_proof_of(
                    p,
                    digest@,
                    commitments.commitments@,
                    g,
                    &crs,
                    witness.chunks@,
                    noise,
                )),
        always_has_point(digest@, commitments.commitments@) ==> res is Some,
{
    let c = commitments.commitments@;
    let noise = choose|noise: Seq<(Scalar, Scalar)>| #[trigger]
        are_draws(*old(rng), *final(rng), flat_pairs(noise)) && noise.len() == witness.chunks@.len()
            && is_prover_result(
            res,
            digest@,
            c,
            vals(witness.chunks@),
            vals(openings.randomness@),
            pair_values(noise),
            &crs,
        );
    lemma_in_order(noise);
    if res is None && always_has_point(digest@, c) {
        lemma_always_has_point(
            digest@,
            c,
            vals(witness.chunks@),
            vals(openings.randomness@),
            pair_values(noise),
            &crs,
        );
    }
    if let Some(p) = res {
        let polys = choose|polys: Seq<ChunkPolys>| #[trigger]
            p.is_made(
                digest@,
                c,
                vals(witness.chunks@),
                vals(openings.randomness@),
                pair_values(noise),
                &crs,
                polys,
            );
        let g = lemma_range_proof_of(
            p,
            digest@,
            c,
            &crs,
            witness.chunks@,
            vals(openings.randomness@),
            noise,
            polys,
        );
    }
}

/// For commitments to chunks, the range proof that is made of them is accepted, and there is one unless
/// no point is found.
pub proof fn law_range_complete(
    n: usize,
    tau: Scalar,
    alphas: Vec<Scalar>,
    gamma: Scalar,
    crs: SteCRS,
    digest: [u8; 32],
    witness: EncryptionWitness,
    commitments: PedersenCommitments,
    openings: PedersenOpenings,
    noise: Vec<(Scalar, Scalar)>,
    res: Option<RangeProof>,
    ok: bool,
)
    requires
        call_ensures(SteCRS::from_trapdoor, (n, &tau, &alphas, &gamma), crs),
        call_ensures(
            PedersenCommitments::with_randomness,
            (&witness.chunks, &crs, &openings.randomness),
            commitments,
        ),
        can_prove_range(
            commitments.commitments@,
            witness.chunks@,
            openings.randomness@,
            &crs,
        ),
        call_ensures(
            RangeProof::prove_with_noise,
            (&digest, &commitments, &witness, &openings, &crs, &noise),
            res,
        ),
        res matches Some(p) ==> call_ensures(
            RangeProof::verify_with_context,
            (&p, &digest, &commitments, &crs),
            ok,
        ),
    ensures
        res is Some ==> ok,
        always_has_point(digest@, commitments.commitments@) ==> res is Some,
{
    let c = commitments.commitments@;
    let chunks = vals(witness.chunks@);
    let blinds = vals(openings.randomness@);
    assert forall|i: int| 0 <= i < chunks.len() implies 0 <= #[trigger] chunks[i] < 65536 by {
        lemma_scalar_range(witness.chunks@[i]);
        assert(witness.chunks@[i]@ < 65536);
    }
    match res {
        Some(p) => {
            let polys = choose|polys: Seq<ChunkPolys>| #[trigger]
                p.is_made(digest@, c, chunks, blinds, pair_values(noise@), &crs, polys);
            lemma_range_proof_accepted(
                &p,
                digest@,
                c,
                chunks,
                blinds,
                pair_values(noise@),
                &crs,
                alphas@.len() as int,
                tau@,
                vals(alphas@),
                gamma@,
                polys,
            );
        },
        None => {
            if always_has_point(digest@, c) {
                lemma_always_has_point(digest@, c, chunks, blinds, pair_values(noise@), &crs);
            }
        },
    }
}

/// A validity proof that was made for an encryption and commitments to its chunks is accepted.
pub proof fn law_validity_complete(
    n: usize,
    tau: Scalar,
    alphas: Vec<Scalar>,
    gamma: Scalar,
    ste_crs: SteCRS,
    bte_crs: BteCRS,
    ek: EncryptionKey,
    position: usize,
    t: usize,
    prf: PRF,
    randomness: EncryptionRandomness,
    ct: Ciphertext,
    witness: EncryptionWitness,
    commitments: PedersenCommitments,
    openings: PedersenOpenings,
    context: CcaStatementContext,
    rng: &mut StdRng,
    p: ValidityProof,
    ok: bool,
)
    requires
        call_ensures(SteCRS::from_trapdoor, (n, &tau, &alphas, &gamma), ste_crs),
        call_ensures(
            encrypt_with_key,
            (position, &bte_crs, &ste_crs, &ek, t, &prf, &randomness),
            (ct, witness),
        ),
        call_ensures(
            PedersenCommitments::with_randomness,
            (&witness.chunks, &ste_crs, &openings.randomness),
            commitments,
        ),
        can_prove(
            &ct,
            &bte_crs,
            &ste_crs,
            &ek,
            commitments.commitments@,
            &witness,
            &openings,
        ),
        call_ensures(
            ValidityProof::prove_with_context,
            (
                &context,
                &ct,
                &bte_crs,
                &ste_crs,
                &ek,
                &commitments,
                &witness,
                &openings,
                rng,
            ),
            Some(p),
        ),
        call_ensures(
            ValidityProof::verify_with_context,
            (&p, &context, &ct, &bte_crs, &ste_crs, &ek, &commitments),
            ok,
        ),
    ensures
        ok,
{
    let c = commitments.commitments@;
    let (masks, noise, polys) = choose|
        masks: SchnorrMasks,
        noise: Seq<(Scalar, Scalar)>,
        polys: Seq<ChunkPolys>,
    | #[trigger]
        p.is_made(
            context.validity_params_digest@,
            context.range_params_digest@,
            &ct,
            &bte_crs,
            &ste_crs,
            &ek,
            c,
            &witness,
            &openings,
            masks,
            pair_values(noise),
            polys,
        ) && noise.len() == c.len() && are_draws(
            *old(rng),
            *final(rng),
            flat_pairs(noise) + masks.drawn(),
        );
    lemma_scalar_range(prf.key);
    lemma_validity_proof_accepted(
        &p,
        context.validity_params_digest@,
        context.range_params_digest@,
        &ct,
        &bte_crs,
        &ste_crs,
        alphas@.len() as int,
        tau@,
        vals(alphas@),
        gamma@,
        &ek,
        c,
        &witness,
        &openings,
        position as int,
        t as int,
        prf.key@,
        masks,
        pair_values(noise),
        polys,
    );
}

/// Whether a validity proof is the prover's, from what was drawn: the blinding values of the range
/// proof, two for each chunk, and then the masks. It is a range proof and the answers to the hash of
/// the statement.
pub open spec fn is_validity_proof_of(
    p: ValidityProof,
    validity_digest: Seq<u8>,
    range_digest: Seq<u8>,
    ct: &Ciphertext,
    bte_crs: &BteCRS,
    ste_crs: &SteCRS,
    ek: &EncryptionKey,
    commitments: Seq<G1>,
    witness: &EncryptionWitness,
    openings: &PedersenOpenings,
    noise: Seq<(Scalar, Scalar)>,
    masks: SchnorrMasks,
    g: Seq<Seq<int>>,
) -> bool {
    &&& is_range_proof_of(
        p.range_proof,
        range_digest,
        commitments,
        g,
        ste_crs,
        witness.chunks@,
        noise,
    )
    &&& answers_statement(
        p.challenge@,
        p.z_chunks@,
        p.z_ste_randomness@,
        p.z_commitment_randomness@,
        validity_digest,
        ct,
        bte_crs,
        ste_crs,
        ek,
        commitments,
        witness,
        openings,
        masks,
    )
}

proof fn lemma_validity_parts(
    before: StdRng,
    after: StdRng,
    p: ValidityProof,
    validity_digest: Seq<u8>,
    range_digest: Seq<u8>,
    ct: &Ciphertext,
    bte_crs: &BteCRS,
    ste_crs: &SteCRS,
    ek: &EncryptionKey,
    commitments: Seq<G1>,
    witness: &EncryptionWitness,
    openings: &PedersenOpenings,
) -> (res: (Seq<(Scalar, Scalar)>, SchnorrMasks, Seq<Seq<int>>))
    requires
        can_prove(ct, bte_crs, ste_crs, ek, commitments, witness, openings),
        is_validity_result(
            before,
            after,
            Some(p),
            validity_digest,
            range_digest,
            ct,
            bte_crs,
            ste_crs,
            ek,
            commitments,
            witness,
            openings,
        ),
    ensures
        are_draws(
            before,
            after,
            in_order(res.0) + (res.1.chunks@ + res.1.ste_randomness@
                + res.1.commitment_randomness@),
        ),
        is_validity_proof_of(
            p,
            validity_digest,
            range_digest,
            ct,
            bte_crs,
            ste_crs,
            ek,
            commitments,
            witness,
            openings,
            res.0,
            res.1,
            res.2,
        ),
{
    let (masks, noise, polys) = choose|
        masks: SchnorrMasks,
        noise: Seq<(Scalar, Scalar)>,
        polys: Seq<ChunkPolys>,
    | #[trigger]
        p.is_made(
            validity_digest,
            range_digest,
            ct,
            bte_crs,
            ste_crs,
            ek,
            commitments,
            witness,
            openings,
            masks,
            pair_values(noise),
            polys,
        ) && noise.len() == commitments.len() && are_draws(
            before,
            after,
            flat_pairs(noise) + masks.drawn(),
        );
    lemma_in_order(noise);
    let g = lemma_range_proof_of(
        p.range_proof,
        range_digest,
        commitments,
        ste_crs,
        witness.chunks@,
        vals(openings.randomness@),
        noise,
        polys,
    );
    lemma_answers_statement(
        p.challenge@,
        p.z_chunks@,
        p.z_ste_randomness@,
        p.z_commitment_randomness@,
        validity_digest,
        ct,
        bte_crs,
        ste_crs,
        ek,
        commitments,
        witness,
        openings,
        masks,
    );
    (noise, masks, g)
}

/// The prover of validity draws what its proof is made of.
pub proof fn law_validity_prove(
    context: CcaStatementContext,
    ct: Ciphertext,
    bte_crs: BteCRS,
    ste_crs: SteCRS,
    ek: EncryptionKey,
    commitments: PedersenCommitments,
    witness: EncryptionWitness,
    openings: PedersenOpenings,
    rng: &mut StdRng,
    p: ValidityProof,
)
    requires
        can_prove(
            &ct,
            &bte_crs,
            &ste_crs,
            &ek,
            commitments.commitments@,
            &witness,
            &openings,
        ),
        call_ensures(
            ValidityProof::prove_with_context,
            (
                &context,
                &ct,
                &bte_crs,
                &ste_crs,
                &ek,
                &commitments,
                &witness,
                &openings,
                rng,
            ),
            Some(p),
        ),
    ensures
        exists|noise: Seq<(Scalar, Scalar)>, masks: SchnorrMasks, g: Seq<Seq<int>>|
            are_draws(
                *old(rng),
                *final(rng),
                in_order(noise) + (masks.chunks@ + masks.ste_randomness@
                    + masks.commitment_randomness@),
            ) && #[trigger] is_validity_proof_of(
                p,
                context.validity_params_digest@,
                context.range_params_digest@,
                &ct,
                &bte_crs,
                &ste_crs,
                &ek,
                commitments.commitments@,
                &witness,
                &openings,
                noise,
                masks,
                g,
            ),
{
    let parts = lemma_validity_parts(
        *old(rng),
        *final(rng),
        p,
        context.validity_params_digest@,
        context.range_params_digest@,
        &ct,
        &bte_crs,
        &ste_crs,
        &ek,
        commitments.commitments@,
        &witness,
        &openings,
    );
}

/// Without a context, the prover works under the context of its parameters.
pub proof fn law_validity_prove_alone(
    context: CcaStatementContext,
    ct: Ciphertext,
    bte_crs: BteCRS,
    ste_crs: SteCRS,
    ek: EncryptionKey,
    commitments: PedersenCommitments,
    witness: EncryptionWitness,
    openings: PedersenOpenings,
    rng: &mut StdRng,
    p: ValidityProof,
)
    requires
        can_prove(
            &ct,
            &bte_crs,
            &ste_crs,
            &ek,
            commitments.commitments@,
            &witness,
            &openings,
        ),
        call_ensures(CcaStatementContext::new, (&bte_crs, &ste_crs, &ek), context),
        call_ensures(
            ValidityProof::prove,
            (&ct, &bte_crs, &ste_crs, &ek, &commitments, &witness, &openings, rng),
            Some(p),
        ),
    ensures
        exists|noise: Seq<(Scalar, Scalar)>, masks: SchnorrMasks, g: Seq<Seq<int>>|
            are_draws(
                *old(rng),
                *final(rng),
                in_order(noise) + (masks.chunks@ + masks.ste_randomness@
                    + masks.commitment_randomness@),
            ) && #[trigger] is_validity_proof_of(
                p,
                context.validity_params_digest@,
                context.range_params_digest@,
                &ct,
                &bte_crs,
                &ste_crs,
                &ek,
                commitments.commitments@,
                &witness,
                &openings,
                noise,
                masks,
                g,
            ),
{
    let parts = lemma_validity_parts(
        *old(rng),
        *final(rng),
        p,
        context.validity_params_digest@,
        context.range_params_digest@,
        &ct,
        &bte_crs,
        &ste_crs,
        &ek,
        commitments.commitments@,
        &witness,
        &openings,
    );
}

/// Without a digest, the prover of ranges works under the digest of the reference string.
pub proof fn law_range_prove_alone(
    digest: Seq<u8>,
    commitments: PedersenCommitments,
    witness: EncryptionWitness,
    openings: PedersenOpenings,
    crs: SteCRS,
    rng: &mut StdRng,
    p: RangeProof,
)
    requires
        digest == sha256(
            said("BSTE-CCA-RANGE-PARAMS-DIGEST-V1".spec_bytes(), range_digest_lines(&crs)),
        ),
        can_prove_range(
            commitments.commitments@,
            witness.chunks@,
            openings.randomness@,
            &crs,
        ),
        call_ensures(
            RangeProof::prove,
            (&commitments, &witness, &openings, &crs, rng),
            Some(p),
        ),
    ensures
        exists|noise: Seq<(Scalar, Scalar)>, g: Seq<Seq<int>>|
            are_draws(*old(rng), *final(rng), in_order(noise)) && #[trigger] is_range_proof_of(
                p,
                digest,
                commitments.commitments@,
                g,
                &crs,
                witness.chunks@,
                noise,
            ),
{
    let c = commitments.commitments@;
    law_range_digest(&crs);
    let noise = choose|noise: Seq<(Scalar, Scalar)>| #[trigger]
        are_draws(*old(rng), *final(rng), flat_pairs(noise)) && noise.len() == witness.chunks@.len()
            && is_prover_result(
            Some(p),
            digest,
            c,
            vals(witness.chunks@),
            vals(openings.randomness@),
            pair_values(noise),
            &crs,
        );
    lemma_in_order(noise);
    let polys = choose|polys: Seq<ChunkPolys>| #[trigger]
        p.is_made(
            digest,
            c,
            vals(witness.chunks@),
            vals(openings.randomness@),
            pair_values(noise),
            &crs,
            polys,
        );
    let g = lemma_range_proof_of(
        p,
        digest,
        c,
        &crs,
        witness.chunks@,
        vals(openings.randomness@),
        noise,
        polys,
    );
}

/// There is a range proof under the digest of the reference string unless no point is found.
pub proof fn law_range_proof_exists(
    digest: Seq<u8>,
    commitments: PedersenCommitments,
    witness: EncryptionWitness,
    openings: PedersenOpenings,
    crs: SteCRS,
    rng: &mut StdRng,
    res: Option<RangeProof>,
)
    requires
        digest == sha256(
            said("BSTE-CCA-RANGE-PARAMS-DIGEST-V1".spec_bytes(), range_digest_lines(&crs)),
        ),
        call_ensures(RangeProof::prove, (&commitments, &witness, &openings, &crs, rng), res),
        always_has_point(digest, commitments.commitments@),
    ensures
        res is Some,
{
    let c = commitments.commitments@;
    law_range_digest(&crs);
    let noise = choose|noise: Seq<(Scalar, Scalar)>| #[trigger]
        are_draws(*old(rng), *final(rng), flat_pairs(noise)) && noise.len() == witness.chunks@.len()
            && is_prover_result(
            res,
            digest,
            c,
            vals(witness.chunks@),
            vals(openings.randomness@),
            pair_values(noise),
            &crs,
        );
    lemma_always_has_point(
        digest,
        c,
        vals(witness.chunks@),
        vals(openings.randomness@),
        pair_values(noise),
        &crs,
    );
}

/// There is a validity proof unless no point is found, with or without a context.
pub proof fn law_validity_proof_exists(
    context: CcaStatementContext,
    ct: Ciphertext,
    bte_crs: BteCRS,
    ste_crs: SteCRS,
    ek: EncryptionKey,
    commitments: PedersenCommitments,
    witness: EncryptionWitness,
    openings: PedersenOpenings,
    rng: &mut StdRng,
    alone_rng: &mut StdRng,
    res: Option<ValidityProof>,
    alone: Option<ValidityProof>,
)
    requires
        call_ensures(CcaStatementContext::new, (&bte_crs, &ste_crs, &ek), context),
        call_ensures(
            ValidityProof::prove_with_context,
            (
                &context,
                &ct,
                &bte_crs,
                &ste_crs,
                &ek,
                &commitments,
                &witness,
                &openings,
                rng,
            ),
            res,
        ),
        call_ensures(
            ValidityProof::prove,
            (&ct, &bte_crs, &ste_crs, &ek, &commitments, &witness, &openings, alone_rng),
            alone,
        ),
        always_has_point(context.range_params_digest@, commitments.commitments@),
    ensures
        res is Some,
        alone is Some,
{
    let c = commitments.commitments@;
    let digest = context.range_params_digest@;
    let chunks = vals(witness.chunks@);
    let blinds = vals(openings.randomness@);
    assert forall|noise: Seq<(Scalar, Scalar)>| !#[trigger] is_prover_result(
        None,
        digest,
        c,
        chunks,
        blinds,
        pair_values(noise),
        &ste_crs,
    ) by {
        lemma_always_has_point(digest, c, chunks, blinds, pair_values(noise), &ste_crs);
    }
}

} // verus!
