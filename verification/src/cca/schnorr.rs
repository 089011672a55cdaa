//! The compact proof of knowledge that links committed chunks to a ciphertext, and the full validity
//! proof.
use crate::algebra::congruence::{
    eqm, lemma_eqm_add, lemma_eqm_mod, lemma_eqm_mul, lemma_eqm_sub, lemma_reduced, modulus,
};
use crate::algebra::sums::{lemma_sum_add, lemma_sum_eqm, lemma_sum_scale};
use crate::bte::crs::CRS as BteCRS;
use crate::bte::encryption::{
    chunk_radix, chunks_of, in_target_group, lemma_chunk_range, lemma_recompose, place_terms,
    recompose_chunks, recomposed, Ciphertext, EncryptionWitness,
};
use crate::cca::range::{
    can_check_range, flat_pairs, has_enough_powers, is_prover_result, lemma_range_proof_accepted,
    pair_values, range_crs_has_enough_degree, required_powers, ChunkPolys, RangeProof,
};
use crate::cca::{
    are_pedersen, blinding_base, has_bases, pedersen_value, value_base, CcaStatementContext,
    PedersenCommitments, PedersenOpenings,
};
use crate::field::{are_draws, lemma_more_draws, random_five, random_scalars, vals, Scalar};
use crate::group::{g1_compressed, gt_encoding, G1, G2, Gt};
use crate::ste::aggregate::EncryptionKey;
use crate::ste::crs::CRS as SteCRS;
use crate::ste::encryption::{can_encrypt, ct_value, encryption_parts, sa1_value, sa2_value};
use crate::transcript::{
    bytes_entry, challenge_of, framed, framed_joined, g1_code, g2_code, gt_code, joined,
    lemma_joined, list_entry, size_bytes, size_entry, Encode, Transcript,
};
use ark_std::rand::rngs::StdRng;
use vstd::arithmetic::power::pow;
use vstd::prelude::*;
use vstd::string::StringSliceAdditionalSpecFns;

verus! {

/// A proof that a ciphertext and commitments to chunks belong together. It does not show that the
/// chunks are in range.
#[derive(Clone, Debug, PartialEq)]
pub struct SchnorrProof {
    /// The challenge. The commitments that it was drawn from follow from the statement and the
    /// responses.
    pub challenge: Scalar,
    /// The responses for the chunks.
    pub z_chunks: Vec<Scalar>,
    /// The responses for the randomness of the encryption.
    pub z_ste_randomness: [Scalar; 5],
    /// The responses for the blinding scalars of the commitments.
    pub z_commitment_randomness: Vec<Scalar>,
}

/// A proof that a ciphertext is valid: a range proof for the committed chunks, and a proof that they
/// belong to the ciphertext.
#[derive(Clone, Debug, PartialEq)]
pub struct ValidityProof {
    pub range_proof: RangeProof,
    pub challenge: Scalar,
    pub z_chunks: Vec<Scalar>,
    pub z_ste_randomness: [Scalar; 5],
    pub z_commitment_randomness: Vec<Scalar>,
}

/// One-time masks for everything that a proof of knowledge speaks of.
#[derive(Clone, Debug)]
pub struct SchnorrMasks {
    pub chunks: Vec<Scalar>,
    pub ste_randomness: [Scalar; 5],
    pub commitment_randomness: Vec<Scalar>,
}

/// The first-round commitments of the prover.
#[derive(Clone, Debug, PartialEq)]
pub struct SchnorrCommitments {
    pub a_pprf_key: G1,
    pub a_mask: Gt,
    pub a_sa1: [G1; 2],
    pub a_sa2: [G2; 6],
    pub a_ct: Vec<Gt>,
    pub a_chunk_commitments: Vec<G1>,
}

/// The public values that a proof of knowledge speaks of.
#[verifier::ext_equal]
pub struct SchnorrValues {
    pub pprf_key: int,
    pub mask: int,
    pub sa1: Seq<int>,
    pub sa2: Seq<int>,
    pub ct: Seq<int>,
    pub commitments: Seq<int>,
}

/// The parameters and the place of a statement.
pub struct SchnorrParams<'a> {
    pub bte_crs: &'a BteCRS,
    pub ste_crs: &'a SteCRS,
    pub ek: &'a EncryptionKey,
    pub point: int,
    pub t: int,
}

/// The public values that belong to chunks, randomness and blinding scalars.
pub open spec fn schnorr_map(
    p: SchnorrParams,
    chunks: Seq<int>,
    s: Seq<int>,
    blinds: Seq<int>,
) -> SchnorrValues {
    SchnorrValues {
        pprf_key: (p.bte_crs.powers_of_g@[p.point]@ * recomposed(chunks)) % modulus(),
        mask: (p.bte_crs.gt_powers@[p.point]@ * recomposed(chunks)) % modulus(),
        sa1: Seq::new(2, |i: int| sa1_value(p.ste_crs, p.ek, p.t, s, i) % modulus()),
        sa2: Seq::new(6, |i: int| sa2_value(p.ste_crs, p.ek, s, i) % modulus()),
        ct: Seq::new(chunks.len(), |k: int| ct_value(p.ek, s, chunks[k], k) % modulus()),
        commitments: Seq::new(
            chunks.len(),
            |i: int| pedersen_value(p.ste_crs, i, chunks[i], blinds[i]),
        ),
    }
}

/// The differences of values and multiples of others, place by place.
pub open spec fn less_multiple(a: Seq<int>, b: Seq<int>, c: int) -> Seq<int> {
    Seq::new(a.len(), |i: int| (a[i] - b[i] * c) % modulus())
}

/// The values that are left of responses without the challenge times the public values.
pub open spec fn opened_values(a: SchnorrValues, b: SchnorrValues, c: int) -> SchnorrValues {
    SchnorrValues {
        pprf_key: (a.pprf_key - b.pprf_key * c) % modulus(),
        mask: (a.mask - b.mask * c) % modulus(),
        sa1: less_multiple(a.sa1, b.sa1, c),
        sa2: less_multiple(a.sa2, b.sa2, c),
        ct: less_multiple(a.ct, b.ct, c),
        commitments: less_multiple(a.commitments, b.commitments, c),
    }
}

/// The public values of a statement.
pub open spec fn statement_values(ciphertext: &Ciphertext, commitments: Seq<G1>) -> SchnorrValues {
    SchnorrValues {
        pprf_key: ciphertext.pprf.key@,
        mask: ciphertext.mask@,
        sa1: vals(ciphertext.encrypted_key.sa1@),
        sa2: vals(ciphertext.encrypted_key.sa2@),
        ct: vals(ciphertext.encrypted_key.ct@),
        commitments: vals(commitments),
    }
}

/// What the transcript says of a statement.
pub open spec fn statement_entries(
    digest: Seq<u8>,
    ciphertext: &Ciphertext,
    commitments: Seq<G1>,
) -> Seq<u8> {
    bytes_entry("validity_params_digest".spec_bytes(), digest) + size_entry(
        "pprf_point".spec_bytes(),
        ciphertext.pprf.point as int,
    ) + bytes_entry("pprf_key".spec_bytes(), g1_compressed(ciphertext.pprf.key@)) + bytes_entry(
        "encrypted_key".spec_bytes(),
        ciphertext.encrypted_key.encoding(),
    ) + bytes_entry("mask".spec_bytes(), gt_encoding(ciphertext.mask@)) + list_entry(
        "pedersen_commitments".spec_bytes(),
        commitments,
    )
}

/// What the transcript says of a list of values.
pub open spec fn value_list_entry(
    label: Seq<u8>,
    values: Seq<int>,
    code: spec_fn(int) -> Seq<u8>,
) -> Seq<u8> {
    framed(label) + size_bytes(values.len() as int) + framed_joined(values, code)
}

/// What the transcript says of the first-round commitments.
pub open spec fn value_entries(v: SchnorrValues) -> Seq<u8> {
    bytes_entry("a_pprf_key".spec_bytes(), g1_compressed(v.pprf_key)) + bytes_entry(
        "a_mask".spec_bytes(),
        gt_encoding(v.mask),
    ) + bytes_entry("a_sa1".spec_bytes(), joined(v.sa1, g1_code())) + bytes_entry(
        "a_sa2".spec_bytes(),
        joined(v.sa2, g2_code()),
    ) + value_list_entry("a_ct".spec_bytes(), v.ct, gt_code()) + value_list_entry(
        "a_chunk_commitments".spec_bytes(),
        v.commitments,
        g1_code(),
    )
}

/// What is said before the challenge of a proof of knowledge.
pub open spec fn schnorr_transcript(
    digest: Seq<u8>,
    ciphertext: &Ciphertext,
    commitments: Seq<G1>,
    v: SchnorrValues,
) -> Seq<u8> {
    framed("BSTE-CCA-CIPHERTEXT-VALIDITY-V2-COMPACT".spec_bytes()) + statement_entries(
        digest,
        ciphertext,
        commitments,
    ) + value_entries(v)
}

/// The challenge for a statement and the first-round commitments.
pub open spec fn schnorr_challenge(
    digest: Seq<u8>,
    ciphertext: &Ciphertext,
    commitments: Seq<G1>,
    v: SchnorrValues,
) -> int {
    challenge_of(schnorr_transcript(digest, ciphertext, commitments, v))
}

impl SchnorrCommitments {
    /// The values of the commitments.
    pub open spec fn values(&self) -> SchnorrValues {
        SchnorrValues {
            pprf_key: self.a_pprf_key@,
            mask: self.a_mask@,
            sa1: vals(self.a_sa1@),
            sa2: vals(self.a_sa2@),
            ct: vals(self.a_ct@),
            commitments: vals(self.a_chunk_commitments@),
        }
    }
}

fn append_statement(
    transcript: &mut Transcript,
    validity_params_digest: &[u8; 32],
    ciphertext: &Ciphertext,
    chunk_commitments: &PedersenCommitments,
)
    ensures
        final(transcript)@ == old(transcript)@ + statement_entries(
            validity_params_digest@,
            ciphertext,
            chunk_commitments.commitments@,
        ),
{
    transcript.append_bytes("validity_params_digest", validity_params_digest.as_slice());
    transcript.append_usize("pprf_point", ciphertext.pprf.point);
    transcript.append_serializable("pprf_key", &ciphertext.pprf.key);
    transcript.append_serializable("encrypted_key", &ciphertext.encrypted_key);
    transcript.append_serializable("mask", &ciphertext.mask);
    transcript.append_serializable_slice("pedersen_commitments", &chunk_commitments.commitments);
    assert(transcript@ =~= old(transcript)@ + statement_entries(
        validity_params_digest@,
        ciphertext,
        chunk_commitments.commitments@,
    ));
}

fn challenge_scalar(
    validity_params_digest: &[u8; 32],
    ciphertext: &Ciphertext,
    chunk_commitments: &PedersenCommitments,
    commitments: &SchnorrCommitments,
) -> (res: Scalar)
    ensures
        res@ == schnorr_challenge(
            validity_params_digest@,
            ciphertext,
            chunk_commitments.commitments@,
            commitments.values(),
        ),
{
    let mut transcript = Transcript::new("BSTE-CCA-CIPHERTEXT-VALIDITY-V2-COMPACT");
    append_statement(&mut transcript, validity_params_digest, ciphertext, chunk_commitments);
    let ghost start = transcript@;
    transcript.append_serializable("a_pprf_key", &commitments.a_pprf_key);
    transcript.append_serializable("a_mask", &commitments.a_mask);
    transcript.append_serializable("a_sa1", &commitments.a_sa1);
    transcript.append_serializable("a_sa2", &commitments.a_sa2);
    transcript.append_serializable_slice("a_ct", &commitments.a_ct);
    transcript.append_serializable_slice("a_chunk_commitments", &commitments.a_chunk_commitments);
    proof {
        lemma_joined(commitments.a_sa1@, g1_code());
        lemma_joined(commitments.a_sa2@, g2_code());
        lemma_joined(commitments.a_ct@, gt_code());
        lemma_joined(commitments.a_chunk_commitments@, g1_code());
        assert(transcript@ =~= start + value_entries(commitments.values()));
    }
    transcript.challenge()
}

/// The linear equations of the encryption of chunks.
fn ste_linear_commitments(
    ste_crs: &SteCRS,
    ek: &EncryptionKey,
    t: usize,
    chunks: &Vec<Scalar>,
    s: &[Scalar; 5],
) -> (res: ([G1; 2], [G2; 6], Vec<Gt>))
    requires
        can_encrypt(ste_crs, ek, t as int, chunks@.len() as int),
    ensures
        vals(res.0@) == Seq::new(
            2,
            |i: int| sa1_value(ste_crs, ek, t as int, vals(s@), i) % modulus(),
        ),
        vals(res.1@) == Seq::new(6, |i: int| sa2_value(ste_crs, ek, vals(s@), i) % modulus()),
        vals(res.2@) == Seq::new(
            chunks@.len(),
            |k: int| ct_value(ek, vals(s@), vals(chunks@)[k], k) % modulus(),
        ),
{
    let messages = in_target_group(chunks);
    assert(messages@.len() == vals(messages@).len());
    let (sa1, sa2, ct) = encryption_parts(ste_crs, ek, t, &messages, s);
    proof {
        let v = vals(s@);
        assert forall|i: int| 0 <= i < 2 implies #[trigger] vals(sa1@)[i] == sa1_value(
            ste_crs,
            ek,
            t as int,
            v,
            i,
        ) % modulus() by {
            crate::group::lemma_g1_range(sa1@[i]);
            lemma_reduced(sa1@[i]@);
        }
        assert forall|i: int| 0 <= i < 6 implies #[trigger] vals(sa2@)[i] == sa2_value(
            ste_crs,
            ek,
            v,
            i,
        ) % modulus() by {
            crate::group::lemma_g2_range(sa2@[i]);
            lemma_reduced(sa2@[i]@);
        }
        assert forall|k: int| 0 <= k < chunks@.len() implies #[trigger] vals(ct@)[k] == ct_value(
            ek,
            v,
            vals(chunks@)[k],
            k,
        ) % modulus() by {
            crate::group::lemma_gt_range(ct@[k]);
            lemma_reduced(ct@[k]@);
        }
        assert(vals(sa1@) =~= Seq::new(
            2,
            |i: int| sa1_value(ste_crs, ek, t as int, v, i) % modulus(),
        ));
        assert(vals(sa2@) =~= Seq::new(6, |i: int| sa2_value(ste_crs, ek, v, i) % modulus()));
        assert(vals(ct@) =~= Seq::new(
            chunks@.len(),
            |k: int| ct_value(ek, v, vals(chunks@)[k], k) % modulus(),
        ));
    }
    (sa1, sa2, ct)
}

/// What the linear maps of a statement ask of their arguments.
pub open spec fn can_map(p: SchnorrParams, slots: int) -> bool {
    &&& 0 <= p.point < p.bte_crs.powers_of_g@.len()
    &&& p.point < p.bte_crs.gt_powers@.len()
    &&& can_encrypt(p.ste_crs, p.ek, p.t, slots)
    &&& has_bases(p.ste_crs, slots)
}

/// The public values that belong to chunks, randomness and blinding scalars.
pub fn map_values(
    bte_crs: &BteCRS,
    ste_crs: &SteCRS,
    ek: &EncryptionKey,
    point: usize,
    t: usize,
    chunks: &Vec<Scalar>,
    s: &[Scalar; 5],
    blinds: &Vec<Scalar>,
) -> (res: SchnorrCommitments)
    requires
        can_map(
            (SchnorrParams { bte_crs, ste_crs, ek, point: point as int, t: t as int }),
            chunks@.len() as int,
        ),
        blinds@.len() == chunks@.len(),
    ensures
        res.values() == schnorr_map(
            (SchnorrParams { bte_crs, ste_crs, ek, point: point as int, t: t as int }),
            vals(chunks@),
            vals(s@),
            vals(blinds@),
        ),
{
    let key = recompose_chunks(chunks);
    let a_pprf_key = bte_crs.powers_of_g[point].mul(&key);
    let a_mask = bte_crs.gt_powers[point].mul(&key);
    let (a_sa1, a_sa2, a_ct) = ste_linear_commitments(ste_crs, ek, t, chunks, s);
    let commitments = PedersenCommitments::with_randomness(chunks, ste_crs, blinds);
    let a_chunk_commitments = commitments.commitments;
    proof {
        let k = recomposed(vals(chunks@));
        let g = bte_crs.powers_of_g@[point as int]@;
        let h = bte_crs.gt_powers@[point as int]@;
        lemma_eqm_mod(k);
        lemma_eqm_mul(g, g, k % modulus(), k);
        lemma_eqm_mul(h, h, k % modulus(), k);
        assert(vals(a_chunk_commitments@) =~= Seq::new(
            vals(chunks@).len(),
            |i: int| pedersen_value(ste_crs, i, vals(chunks@)[i], vals(blinds@)[i]),
        ));
    }
    SchnorrCommitments { a_pprf_key, a_mask, a_sa1, a_sa2, a_ct, a_chunk_commitments }
}

/// A point less a multiple of another.
fn open_g1(a: &G1, b: &G1, c: &Scalar) -> (res: G1)
    ensures
        res@ == (a@ - b@ * c@) % modulus(),
{
    proof {
        lemma_eqm_mod(b@ * c@);
        lemma_eqm_sub(a@, a@, (b@ * c@) % modulus(), b@ * c@);
    }
    a.sub(&b.mul(c))
}

fn open_g2(a: &G2, b: &G2, c: &Scalar) -> (res: G2)
    ensures
        res@ == (a@ - b@ * c@) % modulus(),
{
    proof {
        lemma_eqm_mod(b@ * c@);
        lemma_eqm_sub(a@, a@, (b@ * c@) % modulus(), b@ * c@);
    }
    a.sub(&b.mul(c))
}

fn open_gt(a: &Gt, b: &Gt, c: &Scalar) -> (res: Gt)
    ensures
        res@ == (a@ - b@ * c@) % modulus(),
{
    proof {
        lemma_eqm_mod(b@ * c@);
        lemma_eqm_sub(a@, a@, (b@ * c@) % modulus(), b@ * c@);
    }
    a.sub(&b.mul(c))
}

/// The first-round commitments, from the responses and the statement.
pub fn reconstruct_schnorr_commitments(
    challenge: &Scalar,
    z_chunks: &Vec<Scalar>,
    z_ste_randomness: &[Scalar; 5],
    z_commitment_randomness: &Vec<Scalar>,
    ciphertext: &Ciphertext,
    bte_crs: &BteCRS,
    ste_crs: &SteCRS,
    ek: &EncryptionKey,
    chunk_commitments: &PedersenCommitments,
) -> (res: SchnorrCommitments)
    requires
        can_map(
            (SchnorrParams {
                bte_crs,
                ste_crs,
                ek,
                point: ciphertext.pprf.point as int,
                t: ciphertext.encrypted_key.t as int,
            }),
            z_chunks@.len() as int,
        ),
        z_commitment_randomness@.len() == z_chunks@.len(),
        ciphertext.encrypted_key.ct@.len() == z_chunks@.len(),
        chunk_commitments.commitments@.len() == z_chunks@.len(),
    ensures
        res.values() == opened_values(
            schnorr_map(
                (SchnorrParams {
                    bte_crs,
                    ste_crs,
                    ek,
                    point: ciphertext.pprf.point as int,
                    t: ciphertext.encrypted_key.t as int,
                }),
                vals(z_chunks@),
                vals(z_ste_randomness@),
                vals(z_commitment_randomness@),
            ),
            statement_values(ciphertext, chunk_commitments.commitments@),
            challenge@,
        ),
{
    let e = &ciphertext.encrypted_key;
    let z = map_values(
        bte_crs,
        ste_crs,
        ek,
        ciphertext.pprf.point,
        e.t,
        z_chunks,
        z_ste_randomness,
        z_commitment_randomness,
    );
    let ghost zv = z.values();
    let a_pprf_key = open_g1(&z.a_pprf_key, &ciphertext.pprf.key, challenge);
    let a_mask = open_gt(&z.a_mask, &ciphertext.mask, challenge);
    let a_sa1 = [
        open_g1(&z.a_sa1[0], &e.sa1[0], challenge),
        open_g1(&z.a_sa1[1], &e.sa1[1], challenge),
    ];
    let a_sa2 = [
        open_g2(&z.a_sa2[0], &e.sa2[0], challenge),
        open_g2(&z.a_sa2[1], &e.sa2[1], challenge),
        open_g2(&z.a_sa2[2], &e.sa2[2], challenge),
        open_g2(&z.a_sa2[3], &e.sa2[3], challenge),
        open_g2(&z.a_sa2[4], &e.sa2[4], challenge),
        open_g2(&z.a_sa2[5], &e.sa2[5], challenge),
    ];
    let mut a_ct: Vec<Gt> = Vec::new();
    let mut a_chunk_commitments: Vec<G1> = Vec::new();
    assert(z.a_ct@.len() == vals(z.a_ct@).len());
    assert(z.a_chunk_commitments@.len() == vals(z.a_chunk_commitments@).len());
    let mut i: usize = 0;
    while i < z_chunks.len()
        invariant
            0 <= i <= z_chunks@.len(),
            z.a_ct@.len() == z_chunks@.len(),
            z.a_chunk_commitments@.len() == z_chunks@.len(),
            e.ct@.len() == z_chunks@.len(),
            chunk_commitments.commitments@.len() == z_chunks@.len(),
            a_ct@.len() == i,
            a_chunk_commitments@.len() == i,
            forall|k: int|
                0 <= k < i ==> (#[trigger] a_ct@[k])@ == (z.a_ct@[k]@ - e.ct@[k]@ * challenge@)
                    % modulus(),
            forall|k: int|
                0 <= k < i ==> (#[trigger] a_chunk_commitments@[k])@ == (
                z.a_chunk_commitments@[k]@ - chunk_commitments.commitments@[k]@ * challenge@)
                    % modulus(),
        decreases z_chunks@.len() - i,
    {
        a_ct.push(open_gt(&z.a_ct[i], &e.ct[i], challenge));
        a_chunk_commitments.push(
            open_g1(&z.a_chunk_commitments[i], &chunk_commitments.commitments[i], challenge),
        );
        i += 1;
    }
    let res = SchnorrCommitments {
        a_pprf_key,
        a_mask,
        a_sa1,
        a_sa2,
        a_ct,
        a_chunk_commitments,
    };
    proof {
        let sv = statement_values(ciphertext, chunk_commitments.commitments@);
        let ov = opened_values(zv, sv, challenge@);
        assert(vals(a_sa1@) =~= ov.sa1);
        assert(vals(a_sa2@) =~= ov.sa2);
        assert(vals(a_ct@) =~= ov.ct);
        assert(vals(a_chunk_commitments@) =~= ov.commitments);
        assert(res.values() =~= ov);
    }
    res
}

/// Whether a statement fits the parameters.
pub open spec fn statement_shape(
    ciphertext: &Ciphertext,
    bte_crs: &BteCRS,
    ste_crs: &SteCRS,
    ek: &EncryptionKey,
    commitments: int,
) -> bool {
    &&& ciphertext.pprf.point < bte_crs.batch_size
    &&& ciphertext.encrypted_key.t < ste_crs.powers_of_g@[0]@.len()
    &&& ciphertext.encrypted_key.ct@.len() == commitments
    &&& commitments <= ste_crs.l
    &&& ek.e_gh@.len() >= commitments
    &&& ek.gamma_g2@.len() > 0
    &&& ste_crs.n >= 1
    &&& has_enough_powers(ste_crs)
}

/// What is read of parameters whose shape has not been checked is there.
pub open spec fn can_check(
    ciphertext: &Ciphertext,
    bte_crs: &BteCRS,
    ste_crs: &SteCRS,
    commitments: int,
) -> bool {
    &&& ciphertext.pprf.point < bte_crs.batch_size ==> ciphertext.pprf.point
        < bte_crs.powers_of_g@.len() && ciphertext.pprf.point < bte_crs.gt_powers@.len()
    &&& 1 <= ste_crs.powers_of_g@.len()
    &&& can_check_range(commitments, ste_crs)
}

fn validate_statement_shape(
    ciphertext: &Ciphertext,
    bte_crs: &BteCRS,
    ste_crs: &SteCRS,
    ek: &EncryptionKey,
    chunk_commitments: &PedersenCommitments,
) -> (res: Result<(), ()>)
    requires
        1 <= ste_crs.powers_of_g@.len(),
        1 <= ste_crs.powers_of_h@.len(),
    ensures
        res is Ok <==> statement_shape(
            ciphertext,
            bte_crs,
            ste_crs,
            ek,
            chunk_commitments.commitments@.len() as int,
        ),
{
    if ciphertext.pprf.point >= bte_crs.batch_size {
        return Err(());
    }
    if ciphertext.encrypted_key.t >= ste_crs.powers_of_g[0].len() {
        return Err(());
    }
    if ciphertext.encrypted_key.ct.len() != chunk_commitments.commitments.len()
        || chunk_commitments.commitments.len() > ste_crs.l || ek.e_gh.len()
        < chunk_commitments.commitments.len() || ek.gamma_g2.len() == 0 || ste_crs.n < 1
        || !range_crs_has_enough_degree(ste_crs) {
        return Err(());
    }
    Ok(())
}

/// The parameters and the place of the statement about a ciphertext.
pub open spec fn params_of<'a>(
    ciphertext: &Ciphertext,
    bte_crs: &'a BteCRS,
    ste_crs: &'a SteCRS,
    ek: &'a EncryptionKey,
) -> SchnorrParams<'a> {
    SchnorrParams {
        bte_crs,
        ste_crs,
        ek,
        point: ciphertext.pprf.point as int,
        t: ciphertext.encrypted_key.t as int,
    }
}

proof fn lemma_shape_can_map(
    ciphertext: &Ciphertext,
    bte_crs: &BteCRS,
    ste_crs: &SteCRS,
    ek: &EncryptionKey,
    commitments: int,
)
    requires
        can_check(ciphertext, bte_crs, ste_crs, commitments),
        statement_shape(ciphertext, bte_crs, ste_crs, ek, commitments),
    ensures
        can_map(params_of(ciphertext, bte_crs, ste_crs, ek), commitments),
{
    assert forall|k: int| 0 <= k < commitments implies 2 <= (
    #[trigger] ste_crs.powers_of_g@[k])@.len() by {
        assert(ste_crs.powers_of_g@[k]@.len() >= required_powers());
    }
}

/// Whether responses open the challenge for a statement.
pub open spec fn is_accepted_opening(
    challenge: int,
    z_chunks: Seq<int>,
    z_ste_randomness: Seq<int>,
    z_commitment_randomness: Seq<int>,
    digest: Seq<u8>,
    ciphertext: &Ciphertext,
    bte_crs: &BteCRS,
    ste_crs: &SteCRS,
    ek: &EncryptionKey,
    commitments: Seq<G1>,
) -> bool {
    &&& z_chunks.len() == commitments.len()
    &&& z_commitment_randomness.len() == commitments.len()
    &&& challenge == schnorr_challenge(
        digest,
        ciphertext,
        commitments,
        opened_values(
            schnorr_map(
                params_of(ciphertext, bte_crs, ste_crs, ek),
                z_chunks,
                z_ste_randomness,
                z_commitment_randomness,
            ),
            statement_values(ciphertext, commitments),
            challenge,
        ),
    )
}

/// Checks that responses open the challenge for a statement.
fn verify_opening(
    challenge: &Scalar,
    z_chunks: &Vec<Scalar>,
    z_ste_randomness: &[Scalar; 5],
    z_commitment_randomness: &Vec<Scalar>,
    validity_params_digest: &[u8; 32],
    ciphertext: &Ciphertext,
    bte_crs: &BteCRS,
    ste_crs: &SteCRS,
    ek: &EncryptionKey,
    chunk_commitments: &PedersenCommitments,
) -> (res: bool)
    requires
        can_check(
            ciphertext,
            bte_crs,
            ste_crs,
            chunk_commitments.commitments@.len() as int,
        ),
        statement_shape(
            ciphertext,
            bte_crs,
            ste_crs,
            ek,
            chunk_commitments.commitments@.len() as int,
        ),
    ensures
        res == is_accepted_opening(
            challenge@,
            vals(z_chunks@),
            vals(z_ste_randomness@),
            vals(z_commitment_randomness@),
            validity_params_digest@,
            ciphertext,
            bte_crs,
            ste_crs,
            ek,
            chunk_commitments.commitments@,
        ),
{
    if z_chunks.len() != chunk_commitments.commitments.len() || z_commitment_randomness.len()
        != chunk_commitments.commitments.len() {
        return false;
    }
    proof {
        lemma_shape_can_map(
            ciphertext,
            bte_crs,
            ste_crs,
            ek,
            chunk_commitments.commitments@.len() as int,
        );
    }
    let commitments = reconstruct_schnorr_commitments(
        challenge,
        z_chunks,
        z_ste_randomness,
        z_commitment_randomness,
        ciphertext,
        bte_crs,
        ste_crs,
        ek,
        chunk_commitments,
    );
    let expected = challenge_scalar(
        validity_params_digest,
        ciphertext,
        chunk_commitments,
        &commitments,
    );
    expected.equals(challenge)
}

/// A response: the mask plus the challenge times the secret.
pub open spec fn response(r: int, c: int, w: int) -> int {
    (r + (c * w) % modulus()) % modulus()
}

/// The responses for lists of masks and secrets.
pub open spec fn responses(r: Seq<int>, c: int, w: Seq<int>) -> Seq<int> {
    Seq::new(r.len(), |i: int| response(r[i], c, w[i]))
}

fn respond(r: &Vec<Scalar>, c: &Scalar, w: &Vec<Scalar>) -> (res: Vec<Scalar>)
    requires
        r@.len() == w@.len(),
    ensures
        vals(res@) == responses(vals(r@), c@, vals(w@)),
{
    let mut res: Vec<Scalar> = Vec::new();
    let mut i: usize = 0;
    while i < r.len()
        invariant
            0 <= i <= r@.len(),
            r@.len() == w@.len(),
            res@.len() == i,
            forall|k: int| 0 <= k < i ==> (#[trigger] res@[k])@ == response(r@[k]@, c@, w@[k]@),
        decreases r@.len() - i,
    {
        res.push(r[i].add(&c.mul(&w[i])));
        i += 1;
    }
    assert(vals(res@) =~= responses(vals(r@), c@, vals(w@)));
    res
}

/// Whether the challenge and the responses are those of the masks and the secrets.
pub open spec fn is_made_opening(
    challenge: int,
    z_chunks: Seq<int>,
    z_ste_randomness: Seq<int>,
    z_commitment_randomness: Seq<int>,
    digest: Seq<u8>,
    ciphertext: &Ciphertext,
    bte_crs: &BteCRS,
    ste_crs: &SteCRS,
    ek: &EncryptionKey,
    commitments: Seq<G1>,
    chunks: Seq<int>,
    s: Seq<int>,
    blinds: Seq<int>,
    masks: SchnorrMasks,
) -> bool {
    &&& masks.chunks@.len() == commitments.len()
    &&& masks.commitment_randomness@.len() == commitments.len()
    &&& challenge == schnorr_challenge(
        digest,
        ciphertext,
        commitments,
        schnorr_map(
            params_of(ciphertext, bte_crs, ste_crs, ek),
            vals(masks.chunks@),
            vals(masks.ste_randomness@),
            vals(masks.commitment_randomness@),
        ),
    )
    &&& z_chunks == responses(vals(masks.chunks@), challenge, chunks)
    &&& z_ste_randomness == responses(vals(masks.ste_randomness@), challenge, s)
    &&& z_commitment_randomness == responses(
        vals(masks.commitment_randomness@),
        challenge,
        blinds,
    )
}

impl SchnorrMasks {
    /// All masks, in the order in which they are drawn.
    pub open spec fn drawn(&self) -> Seq<Scalar> {
        self.chunks@ + self.ste_randomness@ + self.commitment_randomness@
    }

    /// Fresh masks for a number of chunks.
    pub fn random(n: usize, rng: &mut StdRng) -> (res: SchnorrMasks)
        ensures
            res.chunks@.len() == n,
            res.commitment_randomness@.len() == n,
            are_draws(*old(rng), *final(rng), res.drawn()),
    {
        let ghost r0 = *rng;
        let chunks = random_scalars(n, rng);
        let ghost r1 = *rng;
        let ste_randomness = random_five(rng);
        let ghost r2 = *rng;
        let commitment_randomness = random_scalars(n, rng);
        proof {
            lemma_more_draws(r0, r1, r2, chunks@, ste_randomness@);
            lemma_more_draws(r0, r2, *rng, chunks@ + ste_randomness@, commitment_randomness@);
        }
        SchnorrMasks { chunks, ste_randomness, commitment_randomness }
    }
}

/// What the prover asks of its arguments.
pub open spec fn can_prove(
    ciphertext: &Ciphertext,
    bte_crs: &BteCRS,
    ste_crs: &SteCRS,
    ek: &EncryptionKey,
    commitments: Seq<G1>,
    witness: &EncryptionWitness,
    openings: &PedersenOpenings,
) -> bool {
    &&& can_check(ciphertext, bte_crs, ste_crs, commitments.len() as int)
    &&& statement_shape(ciphertext, bte_crs, ste_crs, ek, commitments.len() as int)
    &&& witness.chunks@.len() == commitments.len()
    &&& openings.randomness@.len() == commitments.len()
}

impl SchnorrProof {
    /// Whether the proof is accepted.
    pub open spec fn is_accepted(
        &self,
        context: &CcaStatementContext,
        ciphertext: &Ciphertext,
        bte_crs: &BteCRS,
        ste_crs: &SteCRS,
        ek: &EncryptionKey,
        commitments: Seq<G1>,
    ) -> bool {
        &&& statement_shape(ciphertext, bte_crs, ste_crs, ek, commitments.len() as int)
        &&& is_accepted_opening(
            self.challenge@,
            vals(self.z_chunks@),
            vals(self.z_ste_randomness@),
            vals(self.z_commitment_randomness@),
            context.validity_params_digest@,
            ciphertext,
            bte_crs,
            ste_crs,
            ek,
            commitments,
        )
    }

    /// Whether the proof is made with the given masks.
    pub open spec fn is_made(
        &self,
        context: &CcaStatementContext,
        ciphertext: &Ciphertext,
        bte_crs: &BteCRS,
        ste_crs: &SteCRS,
        ek: &EncryptionKey,
        commitments: Seq<G1>,
        witness: &EncryptionWitness,
        openings: &PedersenOpenings,
        masks: SchnorrMasks,
    ) -> bool {
        is_made_opening(
            self.challenge@,
            vals(self.z_chunks@),
            vals(self.z_ste_randomness@),
            vals(self.z_commitment_randomness@),
            context.validity_params_digest@,
            ciphertext,
            bte_crs,
            ste_crs,
            ek,
            commitments,
            vals(witness.chunks@),
            vals(witness.ste_randomness.s@),
            vals(openings.randomness@),
            masks,
        )
    }

    /// Proves that a ciphertext and commitments to its chunks belong together.
    pub fn prove_with_context(
        context: &CcaStatementContext,
        ciphertext: &Ciphertext,
        bte_crs: &BteCRS,
        ste_crs: &SteCRS,
        ek: &EncryptionKey,
        chunk_commitments: &PedersenCommitments,
        witness: &EncryptionWitness,
        commitment_openings: &PedersenOpenings,
        rng: &mut StdRng,
    ) -> (res: SchnorrProof)
        requires
            can_prove(
                ciphertext,
                bte_crs,
                ste_crs,
                ek,
                chunk_commitments.commitments@,
                witness,
                commitment_openings,
            ),
        ensures
            exists|masks: SchnorrMasks| #[trigger]
                res.is_made(
                    context,
                    ciphertext,
                    bte_crs,
                    ste_crs,
                    ek,
                    chunk_commitments.commitments@,
                    witness,
                    commitment_openings,
                    masks,
                ) && are_draws(*old(rng), *final(rng), masks.drawn()),
    {
        let masks = SchnorrMasks::random(witness.chunks.len(), rng);
        SchnorrProof::prove_with_masks(
            context,
            ciphertext,
            bte_crs,
            ste_crs,
            ek,
            chunk_commitments,
            witness,
            commitment_openings,
            &masks,
        )
    }

    /// Proves that a ciphertext and commitments to its chunks belong together, with given masks.
    pub fn prove_with_masks(
        context: &CcaStatementContext,
        ciphertext: &Ciphertext,
        bte_crs: &BteCRS,
        ste_crs: &SteCRS,
        ek: &EncryptionKey,
        chunk_commitments: &PedersenCommitments,
        witness: &EncryptionWitness,
        commitment_openings: &PedersenOpenings,
        masks: &SchnorrMasks,
    ) -> (res: SchnorrProof)
        requires
            can_prove(
                ciphertext,
                bte_crs,
                ste_crs,
                ek,
                chunk_commitments.commitments@,
                witness,
                commitment_openings,
            ),
            masks.chunks@.len() == witness.chunks@.len(),
            masks.commitment_randomness@.len() == witness.chunks@.len(),
        ensures
            res.is_made(
                context,
                ciphertext,
                bte_crs,
                ste_crs,
                ek,
                chunk_commitments.commitments@,
                witness,
                commitment_openings,
                *masks,
            ),
    {
        proof {
            lemma_shape_can_map(
                ciphertext,
                bte_crs,
                ste_crs,
                ek,
                chunk_commitments.commitments@.len() as int,
            );
        }
        let commitments = map_values(
            bte_crs,
            ste_crs,
            ek,
            ciphertext.pprf.point,
            ciphertext.encrypted_key.t,
            &masks.chunks,
            &masks.ste_randomness,
            &masks.commitment_randomness,
        );
        let challenge = challenge_scalar(
            &context.validity_params_digest,
            ciphertext,
            chunk_commitments,
            &commitments,
        );
        let z_chunks = respond(&masks.chunks, &challenge, &witness.chunks);
        let r = &masks.ste_randomness;
        let w = &witness.ste_randomness.s;
        let z_ste_randomness = [
            r[0].add(&challenge.mul(&w[0])),
            r[1].add(&challenge.mul(&w[1])),
            r[2].add(&challenge.mul(&w[2])),
            r[3].add(&challenge.mul(&w[3])),
            r[4].add(&challenge.mul(&w[4])),
        ];
        proof {
            assert(vals(z_ste_randomness@) =~= responses(vals(r@), challenge@, vals(w@)));
        }
        let z_commitment_randomness = respond(
            &masks.commitment_randomness,
            &challenge,
            &commitment_openings.randomness,
        );
        SchnorrProof { challenge, z_chunks, z_ste_randomness, z_commitment_randomness }
    }

    /// Checks that a ciphertext and commitments to its chunks belong together.
    pub fn verify_with_context(
        &self,
        context: &CcaStatementContext,
        ciphertext: &Ciphertext,
        bte_crs: &BteCRS,
        ste_crs: &SteCRS,
        ek: &EncryptionKey,
        chunk_commitments: &PedersenCommitments,
    ) -> (res: bool)
        requires
            can_check(
                ciphertext,
                bte_crs,
                ste_crs,
                chunk_commitments.commitments@.len() as int,
            ),
        ensures
            res == self.is_accepted(
                context,
                ciphertext,
                bte_crs,
                ste_crs,
                ek,
                chunk_commitments.commitments@,
            ),
    {
        if validate_statement_shape(ciphertext, bte_crs, ste_crs, ek, chunk_commitments).is_err() {
            return false;
        }
        verify_opening(
            &self.challenge,
            &self.z_chunks,
            &self.z_ste_randomness,
            &self.z_commitment_randomness,
            &context.validity_params_digest,
            ciphertext,
            bte_crs,
            ste_crs,
            ek,
            chunk_commitments,
        )
    }
}

impl ValidityProof {
    /// Whether the proof is accepted under the digests of a context.
    pub open spec fn is_accepted(
        &self,
        validity_digest: Seq<u8>,
        range_digest: Seq<u8>,
        ciphertext: &Ciphertext,
        bte_crs: &BteCRS,
        ste_crs: &SteCRS,
        ek: &EncryptionKey,
        commitments: Seq<G1>,
    ) -> bool {
        &&& statement_shape(ciphertext, bte_crs, ste_crs, ek, commitments.len() as int)
        &&& self.range_proof.is_accepted(range_digest, commitments, ste_crs)
        &&& is_accepted_opening(
            self.challenge@,
            vals(self.z_chunks@),
            vals(self.z_ste_randomness@),
            vals(self.z_commitment_randomness@),
            validity_digest,
            ciphertext,
            bte_crs,
            ste_crs,
            ek,
            commitments,
        )
    }

    /// Whether both parts of the proof are made from the secrets of the ciphertext and of the
    /// commitments, with the given masks and blinding values.
    pub open spec fn is_made(
        &self,
        validity_digest: Seq<u8>,
        range_digest: Seq<u8>,
        ciphertext: &Ciphertext,
        bte_crs: &BteCRS,
        ste_crs: &SteCRS,
        ek: &EncryptionKey,
        commitments: Seq<G1>,
        witness: &EncryptionWitness,
        openings: &PedersenOpenings,
        masks: SchnorrMasks,
        noise: Seq<(int, int)>,
        polys: Seq<ChunkPolys>,
    ) -> bool {
        &&& self.range_proof.is_made(
            range_digest,
            commitments,
            vals(witness.chunks@),
            vals(openings.randomness@),
            noise,
            ste_crs,
            polys,
        )
        &&& is_made_opening(
            self.challenge@,
            vals(self.z_chunks@),
            vals(self.z_ste_randomness@),
            vals(self.z_commitment_randomness@),
            validity_digest,
            ciphertext,
            bte_crs,
            ste_crs,
            ek,
            commitments,
            vals(witness.chunks@),
            vals(witness.ste_randomness.s@),
            vals(openings.randomness@),
            masks,
        )
    }

    /// Proves that a ciphertext is valid, under the digests of its parameters. There is no proof only
    /// where there is no range proof.
    pub fn prove(
        ciphertext: &Ciphertext,
        bte_crs: &BteCRS,
        ste_crs: &SteCRS,
        ek: &EncryptionKey,
        chunk_commitments: &PedersenCommitments,
        witness: &EncryptionWitness,
        commitment_openings: &PedersenOpenings,
        rng: &mut StdRng,
    ) -> (res: Option<ValidityProof>)
        requires
            can_prove(
                ciphertext,
                bte_crs,
                ste_crs,
                ek,
                chunk_commitments.commitments@,
                witness,
                commitment_openings,
            ),
            forall|i: int|
                0 <= i < witness.chunks@.len() ==> (#[trigger] witness.chunks@[i])@
                    < chunk_radix(),
        ensures
            is_validity_result(
                *old(rng),
                *final(rng),
                res,
                crate::cca::validity_digest(bte_crs, ste_crs, ek),
                crate::cca::range_digest(ste_crs),
                ciphertext,
                bte_crs,
                ste_crs,
                ek,
                chunk_commitments.commitments@,
                witness,
                commitment_openings,
            ),
    {
        let context = CcaStatementContext::new(bte_crs, ste_crs, ek);
        ValidityProof::prove_with_context(
            &context,
            ciphertext,
            bte_crs,
            ste_crs,
            ek,
            chunk_commitments,
            witness,
            commitment_openings,
            rng,
        )
    }

    /// Proves that a ciphertext is valid, under the digests of a context.
    pub fn prove_with_context(
        context: &CcaStatementContext,
        ciphertext: &Ciphertext,
        bte_crs: &BteCRS,
        ste_crs: &SteCRS,
        ek: &EncryptionKey,
        chunk_commitments: &PedersenCommitments,
        witness: &EncryptionWitness,
        commitment_openings: &PedersenOpenings,
        rng: &mut StdRng,
    ) -> (res: Option<ValidityProof>)
        requires
            can_prove(
                ciphertext,
                bte_crs,
                ste_crs,
                ek,
                chunk_commitments.commitments@,
                witness,
                commitment_openings,
            ),
            forall|i: int|
                0 <= i < witness.chunks@.len() ==> (#[trigger] witness.chunks@[i])@
                    < chunk_radix(),
        ensures
            is_validity_result(
                *old(rng),
                *final(rng),
                res,
                context.validity_params_digest@,
                context.range_params_digest@,
                ciphertext,
                bte_crs,
                ste_crs,
                ek,
                chunk_commitments.commitments@,
                witness,
                commitment_openings,
            ),
    {
        let ghost r0 = *rng;
        let found = RangeProof::prove_with_context(
            &context.range_params_digest,
            chunk_commitments,
            witness,
            commitment_openings,
            ste_crs,
            rng,
        );
        let ghost r1 = *rng;
        let ghost noise = choose|noise: Seq<(Scalar, Scalar)>| #[trigger]
            are_draws(r0, r1, flat_pairs(noise)) && noise.len() == witness.chunks@.len()
                && is_prover_result(
                found,
                context.range_params_digest@,
                chunk_commitments.commitments@,
                vals(witness.chunks@),
                vals(commitment_openings.randomness@),
                pair_values(noise),
                ste_crs,
            );
        match found {
            None => {
                assert(is_prover_result(
                    None,
                    context.range_params_digest@,
                    chunk_commitments.commitments@,
                    vals(witness.chunks@),
                    vals(commitment_openings.randomness@),
                    pair_values(noise),
                    ste_crs,
                ));
                None
            },
            Some(range_proof) => {
                let masks = SchnorrMasks::random(witness.chunks.len(), rng);
                let schnorr = SchnorrProof::prove_with_masks(
                    context,
                    ciphertext,
                    bte_crs,
                    ste_crs,
                    ek,
                    chunk_commitments,
                    witness,
                    commitment_openings,
                    &masks,
                );
                let res = ValidityProof {
                    range_proof,
                    challenge: schnorr.challenge,
                    z_chunks: schnorr.z_chunks,
                    z_ste_randomness: schnorr.z_ste_randomness,
                    z_commitment_randomness: schnorr.z_commitment_randomness,
                };
                let out = Some(res);
                proof {
                    lemma_more_draws(r0, r1, *rng, flat_pairs(noise), masks.drawn());
                    let polys = choose|polys: Seq<ChunkPolys>| #[trigger]
                        found->0.is_made(
                            context.range_params_digest@,
                            chunk_commitments.commitments@,
                            vals(witness.chunks@),
                            vals(commitment_openings.randomness@),
                            pair_values(noise),
                            ste_crs,
                            polys,
                        );
                    assert(out->0.is_made(
                        context.validity_params_digest@,
                        context.range_params_digest@,
                        ciphertext,
                        bte_crs,
                        ste_crs,
                        ek,
                        chunk_commitments.commitments@,
                        witness,
                        commitment_openings,
                        masks,
                        pair_values(noise),
                        polys,
                    ));
                }
                out
            },
        }
    }

    /// Checks that a ciphertext is valid, under the digests of its parameters.
    pub fn verify(
        &self,
        ciphertext: &Ciphertext,
        bte_crs: &BteCRS,
        ste_crs: &SteCRS,
        ek: &EncryptionKey,
        chunk_commitments: &PedersenCommitments,
    ) -> (res: bool)
        requires
            can_check(
                ciphertext,
                bte_crs,
                ste_crs,
                chunk_commitments.commitments@.len() as int,
            ),
        ensures
            res == self.is_accepted(
                crate::cca::validity_digest(bte_crs, ste_crs, ek),
                crate::cca::range_digest(ste_crs),
                ciphertext,
                bte_crs,
                ste_crs,
                ek,
                chunk_commitments.commitments@,
            ),
    {
        let context = CcaStatementContext::new(bte_crs, ste_crs, ek);
        self.verify_with_context(&context, ciphertext, bte_crs, ste_crs, ek, chunk_commitments)
    }

    /// Checks that a ciphertext is valid, under the digests of a context.
    pub fn verify_with_context(
        &self,
        context: &CcaStatementContext,
        ciphertext: &Ciphertext,
        bte_crs: &BteCRS,
        ste_crs: &SteCRS,
        ek: &EncryptionKey,
        chunk_commitments: &PedersenCommitments,
    ) -> (res: bool)
        requires
            can_check(
                ciphertext,
                bte_crs,
                ste_crs,
                chunk_commitments.commitments@.len() as int,
            ),
        ensures
            res == self.is_accepted(
                context.validity_params_digest@,
                context.range_params_digest@,
                ciphertext,
                bte_crs,
                ste_crs,
                ek,
                chunk_commitments.commitments@,
            ),
    {
        if validate_statement_shape(ciphertext, bte_crs, ste_crs, ek, chunk_commitments).is_err() {
            return false;
        }
        if !self.range_proof.verify_with_context(
            &context.range_params_digest,
            chunk_commitments,
            ste_crs,
        ) {
            return false;
        }
        verify_opening(
            &self.challenge,
            &self.z_chunks,
            &self.z_ste_randomness,
            &self.z_commitment_randomness,
            &context.validity_params_digest,
            ciphertext,
            bte_crs,
            ste_crs,
            ek,
            chunk_commitments,
        )
    }
}

/// Whether the result is a proof that was made from the secrets and from what was drawn, or there is no
/// range proof.
pub open spec fn is_validity_result(
    before: StdRng,
    after: StdRng,
    res: Option<ValidityProof>,
    validity_digest: Seq<u8>,
    range_digest: Seq<u8>,
    ciphertext: &Ciphertext,
    bte_crs: &BteCRS,
    ste_crs: &SteCRS,
    ek: &EncryptionKey,
    commitments: Seq<G1>,
    witness: &EncryptionWitness,
    openings: &PedersenOpenings,
) -> bool {
    match res {
        Some(p) => exists|
            masks: SchnorrMasks,
            noise: Seq<(Scalar, Scalar)>,
            polys: Seq<ChunkPolys>,
        | #[trigger]
            p.is_made(
                validity_digest,
                range_digest,
                ciphertext,
                bte_crs,
                ste_crs,
                ek,
                commitments,
                witness,
                openings,
                masks,
                pair_values(noise),
                polys,
            ) && noise.len() == commitments.len() && are_draws(
                before,
                after,
                flat_pairs(noise) + masks.drawn(),
            ),
        None => exists|noise: Seq<(Scalar, Scalar)>| #[trigger]
            is_prover_result(
                None,
                range_digest,
                commitments,
                vals(witness.chunks@),
                vals(openings.randomness@),
                pair_values(noise),
                ste_crs,
            ) && noise.len() == commitments.len() && are_draws(before, after, flat_pairs(noise)),
    }
}

proof fn lemma_response(r: int, c: int, w: int)
    ensures
        eqm(response(r, c, w), r + c * w),
{
    lemma_eqm_mod(c * w);
    lemma_eqm_add(r, r, (c * w) % modulus(), c * w);
    lemma_eqm_mod(r + (c * w) % modulus());
}

/// A linear form of responses, less the challenge times the form of the secrets, is the form of the
/// masks.
proof fn lemma_form_opens(
    x: int,
    y: int,
    u: int,
    r: (int, int, int),
    w: (int, int, int),
    c: int,
)
    ensures
        ((x * response(r.0, c, w.0) + y * response(r.1, c, w.1) + u * response(r.2, c, w.2))
            % modulus() - ((x * w.0 + y * w.1 + u * w.2) % modulus()) * c) % modulus() == (x * r.0
            + y * r.1 + u * r.2) % modulus(),
{
    let z0 = response(r.0, c, w.0);
    let z1 = response(r.1, c, w.1);
    let z2 = response(r.2, c, w.2);
    lemma_response(r.0, c, w.0);
    lemma_response(r.1, c, w.1);
    lemma_response(r.2, c, w.2);
    lemma_eqm_mul(x, x, z0, r.0 + c * w.0);
    lemma_eqm_mul(y, y, z1, r.1 + c * w.1);
    lemma_eqm_mul(u, u, z2, r.2 + c * w.2);
    let a0 = x * (r.0 + c * w.0);
    let a1 = y * (r.1 + c * w.1);
    let a2 = u * (r.2 + c * w.2);
    lemma_eqm_add(x * z0, a0, y * z1, a1);
    lemma_eqm_add(x * z0 + y * z1, a0 + a1, u * z2, a2);
    lemma_eqm_mod(x * z0 + y * z1 + u * z2);
    let f = x * w.0 + y * w.1 + u * w.2;
    lemma_eqm_mod(f);
    lemma_eqm_mul(f % modulus(), f, c, c);
    lemma_eqm_sub(
        (x * z0 + y * z1 + u * z2) % modulus(),
        a0 + a1 + a2,
        (f % modulus()) * c,
        f * c,
    );
    lemma_term_opens(x, r.0, c, w.0);
    lemma_term_opens(y, r.1, c, w.1);
    lemma_term_opens(u, r.2, c, w.2);
    let p = x * w.0;
    let q = y * w.1;
    let s = u * w.2;
    assert((p + q + s) * c == p * c + q * c + s * c) by (nonlinear_arith);
}

proof fn lemma_term_opens(x: int, r: int, c: int, w: int)
    ensures
        x * (r + c * w) == x * r + x * w * c,
{
    let cw = c * w;
    assert(x * (r + cw) == x * r + x * cw) by (nonlinear_arith);
    assert(x * (c * w) == x * w * c) by (nonlinear_arith);
}

/// Putting responses together gives the response for what the masks and the secrets are put together
/// to.
proof fn lemma_recompose_responses(r: Seq<int>, c: int, w: Seq<int>)
    requires
        r.len() == w.len(),
    ensures
        eqm(recomposed(responses(r, c, w)), recomposed(r) + c * recomposed(w)),
{
    let n = r.len() as int;
    let z = responses(r, c, w);
    let f = place_terms(z);
    let fr = place_terms(r);
    let fw = place_terms(w);
    let cw = |i: int| c * fw(i);
    let s = |i: int| fr(i) + cw(i);
    assert forall|i: int| 0 <= i < n implies eqm(#[trigger] f(i), s(i)) by {
        let p = pow(chunk_radix(), i as nat);
        lemma_response(r[i], c, w[i]);
        lemma_eqm_mul(z[i], r[i] + c * w[i], p, p);
        let ri = r[i];
        let wi = w[i];
        let x = c * wi;
        assert((ri + x) * p == ri * p + x * p) by (nonlinear_arith);
        assert(c * wi * p == c * (wi * p)) by (nonlinear_arith);
    }
    lemma_sum_eqm(n, f, s);
    lemma_sum_add(n, fr, cw);
    lemma_sum_scale(n, c, fw);
}

/// A multiple of the recomposed responses opens to the multiple of the recomposed masks.
proof fn lemma_key_opens(x: int, r: Seq<int>, c: int, w: Seq<int>)
    requires
        r.len() == w.len(),
    ensures
        ((x * recomposed(responses(r, c, w))) % modulus() - ((x * recomposed(w)) % modulus()) * c)
            % modulus() == (x * recomposed(r)) % modulus(),
{
    let z = recomposed(responses(r, c, w));
    let rr = recomposed(r);
    let ww = recomposed(w);
    lemma_recompose_responses(r, c, w);
    lemma_eqm_mul(x, x, z, rr + c * ww);
    lemma_eqm_mod(x * z);
    lemma_eqm_mod(x * ww);
    lemma_eqm_mul((x * ww) % modulus(), x * ww, c, c);
    lemma_eqm_sub(
        (x * z) % modulus(),
        x * (rr + c * ww),
        ((x * ww) % modulus()) * c,
        x * ww * c,
    );
    lemma_term_opens(x, rr, c, ww);
}

/// The public values of responses, less the challenge times those of the secrets, are those of the
/// masks.
pub proof fn lemma_map_opens(
    p: SchnorrParams,
    r_chunks: Seq<int>,
    r_s: Seq<int>,
    r_blinds: Seq<int>,
    w_chunks: Seq<int>,
    w_s: Seq<int>,
    w_blinds: Seq<int>,
    c: int,
)
    requires
        r_chunks.len() == w_chunks.len(),
        r_blinds.len() == r_chunks.len(),
        w_blinds.len() == r_chunks.len(),
        r_s.len() == 5,
        w_s.len() == 5,
    ensures
        opened_values(
            schnorr_map(
                p,
                responses(r_chunks, c, w_chunks),
                responses(r_s, c, w_s),
                responses(r_blinds, c, w_blinds),
            ),
            schnorr_map(p, w_chunks, w_s, w_blinds),
            c,
        ) == schnorr_map(p, r_chunks, r_s, r_blinds),
{
    let z_chunks = responses(r_chunks, c, w_chunks);
    let z_s = responses(r_s, c, w_s);
    let z_blinds = responses(r_blinds, c, w_blinds);
    let zm = schnorr_map(p, z_chunks, z_s, z_blinds);
    let wm = schnorr_map(p, w_chunks, w_s, w_blinds);
    let rm = schnorr_map(p, r_chunks, r_s, r_blinds);
    let om = opened_values(zm, wm, c);
    lemma_key_opens(p.bte_crs.powers_of_g@[p.point]@, r_chunks, c, w_chunks);
    lemma_key_opens(p.bte_crs.gt_powers@[p.point]@, r_chunks, c, w_chunks);
    let g = p.ste_crs.powers_of_g@[0]@;
    let h = p.ste_crs.powers_of_h@[0]@;
    assert forall|i: int| 0 <= i < 2 implies #[trigger] om.sa1[i] == rm.sa1[i] by {
        if i == 0 {
            lemma_form_opens(
                p.ek.ask@,
                g[p.t]@,
                g[0]@,
                (r_s[0], r_s[3], r_s[4]),
                (w_s[0], w_s[3], w_s[4]),
                c,
            );
        } else {
            lemma_form_opens(g[0]@, 0, 0, (r_s[2], 0, 0), (w_s[2], 0, 0), c);
        }
    }
    assert(om.sa1 =~= rm.sa1);
    assert forall|i: int| 0 <= i < 6 implies #[trigger] om.sa2[i] == rm.sa2[i] by {
        if i == 0 {
            lemma_form_opens(
                h[0]@,
                p.ek.gamma_g2@[0]@,
                0,
                (r_s[0], r_s[2], 0),
                (w_s[0], w_s[2], 0),
                c,
            );
        } else if i == 1 {
            lemma_form_opens(p.ek.z_g2@, 0, 0, (r_s[0], 0, 0), (w_s[0], 0, 0), c);
        } else if i == 2 {
            lemma_form_opens(
                h[1]@,
                h[2]@,
                0,
                (r_s[0], r_s[1], 0),
                (w_s[0], w_s[1], 0),
                c,
            );
        } else if i == 3 {
            lemma_form_opens(h[0]@, 0, 0, (r_s[1], 0, 0), (w_s[1], 0, 0), c);
        } else if i == 4 {
            lemma_form_opens(h[0]@, 0, 0, (r_s[3], 0, 0), (w_s[3], 0, 0), c);
        } else {
            lemma_form_opens(h[1]@, 0, 0, (r_s[4], 0, 0), (w_s[4], 0, 0), c);
        }
    }
    assert(om.sa2 =~= rm.sa2);
    assert forall|k: int| 0 <= k < r_chunks.len() implies #[trigger] om.ct[k] == rm.ct[k] by {
        lemma_form_opens(
            p.ek.e_gh@[k]@,
            1,
            0,
            (r_s[4], r_chunks[k], 0),
            (w_s[4], w_chunks[k], 0),
            c,
        );
    }
    assert(om.ct =~= rm.ct);
    assert forall|i: int| 0 <= i < r_chunks.len() implies #[trigger] om.commitments[i]
        == rm.commitments[i] by {
        lemma_form_opens(
            value_base(p.ste_crs, i),
            blinding_base(p.ste_crs, i),
            0,
            (r_chunks[i], r_blinds[i], 0),
            (w_chunks[i], w_blinds[i], 0),
            c,
        );
    }
    assert(om.commitments =~= rm.commitments);
}

/// Whether the secrets are those of the statement.
pub open spec fn is_witness(
    ciphertext: &Ciphertext,
    bte_crs: &BteCRS,
    ste_crs: &SteCRS,
    ek: &EncryptionKey,
    commitments: Seq<G1>,
    chunks: Seq<int>,
    s: Seq<int>,
    blinds: Seq<int>,
) -> bool {
    &&& chunks.len() == commitments.len()
    &&& s.len() == 5
    &&& blinds.len() == commitments.len()
    &&& statement_values(ciphertext, commitments) == schnorr_map(
        params_of(ciphertext, bte_crs, ste_crs, ek),
        chunks,
        s,
        blinds,
    )
}

/// What is reconstructed from responses is what the prover committed to: for secrets of a statement
/// and any masks and challenge, the public values of the responses less the challenge times the
/// statement are those of the masks.
pub proof fn lemma_commitments_reconstructed(
    ciphertext: &Ciphertext,
    bte_crs: &BteCRS,
    ste_crs: &SteCRS,
    ek: &EncryptionKey,
    commitments: Seq<G1>,
    chunks: Seq<int>,
    s: Seq<int>,
    blinds: Seq<int>,
    r_chunks: Seq<int>,
    r_s: Seq<int>,
    r_blinds: Seq<int>,
    challenge: int,
)
    requires
        is_witness(ciphertext, bte_crs, ste_crs, ek, commitments, chunks, s, blinds),
        r_chunks.len() == chunks.len(),
        r_s.len() == 5,
        r_blinds.len() == chunks.len(),
    ensures
        opened_values(
            schnorr_map(
                params_of(ciphertext, bte_crs, ste_crs, ek),
                responses(r_chunks, challenge, chunks),
                responses(r_s, challenge, s),
                responses(r_blinds, challenge, blinds),
            ),
            statement_values(ciphertext, commitments),
            challenge,
        ) == schnorr_map(
            params_of(ciphertext, bte_crs, ste_crs, ek),
            r_chunks,
            r_s,
            r_blinds,
        ),
{
    lemma_map_opens(
        params_of(ciphertext, bte_crs, ste_crs, ek),
        r_chunks,
        r_s,
        r_blinds,
        chunks,
        s,
        blinds,
        challenge,
    );
}

/// A challenge and responses that were made from the secrets of a statement are accepted.
proof fn lemma_opening_accepted(
    challenge: int,
    z_chunks: Seq<int>,
    z_ste_randomness: Seq<int>,
    z_commitment_randomness: Seq<int>,
    digest: Seq<u8>,
    ciphertext: &Ciphertext,
    bte_crs: &BteCRS,
    ste_crs: &SteCRS,
    ek: &EncryptionKey,
    commitments: Seq<G1>,
    chunks: Seq<int>,
    s: Seq<int>,
    blinds: Seq<int>,
    masks: SchnorrMasks,
)
    requires
        is_witness(ciphertext, bte_crs, ste_crs, ek, commitments, chunks, s, blinds),
        is_made_opening(
            challenge,
            z_chunks,
            z_ste_randomness,
            z_commitment_randomness,
            digest,
            ciphertext,
            bte_crs,
            ste_crs,
            ek,
            commitments,
            chunks,
            s,
            blinds,
            masks,
        ),
    ensures
        is_accepted_opening(
            challenge,
            z_chunks,
            z_ste_randomness,
            z_commitment_randomness,
            digest,
            ciphertext,
            bte_crs,
            ste_crs,
            ek,
            commitments,
        ),
{
    lemma_commitments_reconstructed(
        ciphertext,
        bte_crs,
        ste_crs,
        ek,
        commitments,
        chunks,
        s,
        blinds,
        vals(masks.chunks@),
        vals(masks.ste_randomness@),
        vals(masks.commitment_randomness@),
        challenge,
    );
}

/// The secrets of an honest encryption and of commitments to its chunks are those of the statement
/// about them.
pub proof fn lemma_honest_witness(
    ciphertext: &Ciphertext,
    bte_crs: &BteCRS,
    ste_crs: &SteCRS,
    ek: &EncryptionKey,
    commitments: Seq<G1>,
    position: int,
    t: int,
    key: int,
    s: Seq<int>,
    blinds: Seq<int>,
)
    requires
        0 <= key < modulus(),
        s.len() == 5,
        ciphertext.is_encryption(bte_crs, ste_crs, ek, position, t, key, s),
        are_pedersen(commitments, ste_crs, chunks_of(key), blinds),
    ensures
        is_witness(ciphertext, bte_crs, ste_crs, ek, commitments, chunks_of(key), s, blinds),
{
    let chunks = chunks_of(key);
    let p = params_of(ciphertext, bte_crs, ste_crs, ek);
    let a = statement_values(ciphertext, commitments);
    let b = schnorr_map(p, chunks, s, blinds);
    let e = ciphertext.encrypted_key;
    lemma_recompose(key);
    assert forall|i: int| 0 <= i < 2 implies #[trigger] a.sa1[i] == b.sa1[i] by {
        crate::group::lemma_g1_range(e.sa1@[i]);
        lemma_reduced(e.sa1@[i]@);
    }
    assert(a.sa1 =~= b.sa1);
    assert forall|i: int| 0 <= i < 6 implies #[trigger] a.sa2[i] == b.sa2[i] by {
        crate::group::lemma_g2_range(e.sa2@[i]);
        lemma_reduced(e.sa2@[i]@);
    }
    assert(a.sa2 =~= b.sa2);
    assert(vals(e.ct@).len() == chunks.len());
    assert forall|k: int| 0 <= k < chunks.len() implies #[trigger] a.ct[k] == b.ct[k] by {
        crate::group::lemma_gt_range(e.ct@[k]);
        lemma_reduced(e.ct@[k]@);
    }
    assert(a.ct =~= b.ct);
    assert(a.commitments =~= b.commitments);
}

/// A proof of knowledge that was made from the secrets of its statement is accepted.
pub proof fn lemma_schnorr_proof_accepted(
    proof_made: &SchnorrProof,
    context: &CcaStatementContext,
    ciphertext: &Ciphertext,
    bte_crs: &BteCRS,
    ste_crs: &SteCRS,
    ek: &EncryptionKey,
    commitments: Seq<G1>,
    witness: &EncryptionWitness,
    openings: &PedersenOpenings,
    masks: SchnorrMasks,
)
    requires
        statement_shape(ciphertext, bte_crs, ste_crs, ek, commitments.len() as int),
        is_witness(
            ciphertext,
            bte_crs,
            ste_crs,
            ek,
            commitments,
            vals(witness.chunks@),
            vals(witness.ste_randomness.s@),
            vals(openings.randomness@),
        ),
        proof_made.is_made(
            context,
            ciphertext,
            bte_crs,
            ste_crs,
            ek,
            commitments,
            witness,
            openings,
            masks,
        ),
    ensures
        proof_made.is_accepted(context, ciphertext, bte_crs, ste_crs, ek, commitments),
{
    lemma_opening_accepted(
        proof_made.challenge@,
        vals(proof_made.z_chunks@),
        vals(proof_made.z_ste_randomness@),
        vals(proof_made.z_commitment_randomness@),
        context.validity_params_digest@,
        ciphertext,
        bte_crs,
        ste_crs,
        ek,
        commitments,
        vals(witness.chunks@),
        vals(witness.ste_randomness.s@),
        vals(openings.randomness@),
        masks,
    );
}

/// A validity proof that was made for an honest encryption and commitments to its chunks is accepted.
pub proof fn lemma_validity_proof_accepted(
    proof_made: &ValidityProof,
    validity_digest: Seq<u8>,
    range_digest: Seq<u8>,
    ciphertext: &Ciphertext,
    bte_crs: &BteCRS,
    ste_crs: &SteCRS,
    l: int,
    tau: int,
    alphas: Seq<int>,
    gamma: int,
    ek: &EncryptionKey,
    commitments: Seq<G1>,
    witness: &EncryptionWitness,
    openings: &PedersenOpenings,
    position: int,
    t: int,
    key: int,
    masks: SchnorrMasks,
    noise: Seq<(int, int)>,
    polys: Seq<ChunkPolys>,
)
    requires
        ste_crs.is_generated(ste_crs.n as int, l, tau, alphas, gamma),
        statement_shape(ciphertext, bte_crs, ste_crs, ek, commitments.len() as int),
        0 <= key < modulus(),
        ciphertext.is_encryption(
            bte_crs,
            ste_crs,
            ek,
            position,
            t,
            key,
            vals(witness.ste_randomness.s@),
        ),
        vals(witness.chunks@) == chunks_of(key),
        are_pedersen(commitments, ste_crs, vals(witness.chunks@), vals(openings.randomness@)),
        proof_made.is_made(
            validity_digest,
            range_digest,
            ciphertext,
            bte_crs,
            ste_crs,
            ek,
            commitments,
            witness,
            openings,
            masks,
            noise,
            polys,
        ),
    ensures
        proof_made.is_accepted(
            validity_digest,
            range_digest,
            ciphertext,
            bte_crs,
            ste_crs,
            ek,
            commitments,
        ),
{
    let chunks = vals(witness.chunks@);
    assert forall|i: int| 0 <= i < chunks.len() implies 0 <= #[trigger] chunks[i]
        < chunk_radix() by {
        lemma_chunk_range(key, i);
    }
    lemma_range_proof_accepted(
        &proof_made.range_proof,
        range_digest,
        commitments,
        chunks,
        vals(openings.randomness@),
        noise,
        ste_crs,
        l,
        tau,
        alphas,
        gamma,
        polys,
    );
    lemma_honest_witness(
        ciphertext,
        bte_crs,
        ste_crs,
        ek,
        commitments,
        position,
        t,
        key,
        vals(witness.ste_randomness.s@),
        vals(openings.randomness@),
    );
    lemma_opening_accepted(
        proof_made.challenge@,
        vals(proof_made.z_chunks@),
        vals(proof_made.z_ste_randomness@),
        vals(proof_made.z_commitment_randomness@),
        validity_digest,
        ciphertext,
        bte_crs,
        ste_crs,
        ek,
        commitments,
        chunks,
        vals(witness.ste_randomness.s@),
        vals(openings.randomness@),
        masks,
    );
}

} // verus!
