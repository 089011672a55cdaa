//! Proofs that a ciphertext of a batch is valid.
//!
//! The chunks of the encrypted key are committed to, shown to be in range by a proof over polynomial
//! commitments, and linked to the punctured key, the encrypted key and the mask by a compact proof of
//! knowledge. Challenges are drawn from transcripts that hold digests of the public parameters, so
//! that many proofs under the same parameters can share them.
use crate::algebra::congruence::{lemma_eqm_add, lemma_eqm_mod, modulus};
use crate::bte::crs::CRS as BteCRS;
use crate::bte::encryption::CHUNK_BITS;
use crate::field::{are_draws, random_scalars, vals, Scalar};
use crate::group::G1;
use crate::ste::aggregate::EncryptionKey;
use crate::ste::crs::CRS as SteCRS;
use crate::transcript::{bytes_entry, framed, list_entry, sha256, size_entry, Encode, Transcript};
use ark_std::rand::rngs::StdRng;
use vstd::prelude::*;
use vstd::string::StringSliceAdditionalSpecFns;

pub mod polynomials;
pub mod range;
pub mod schnorr;
pub mod soundness;

pub use crate::cca::range::{RangeChunkProof, RangeProof};
pub use crate::cca::schnorr::{SchnorrMasks, SchnorrProof, ValidityProof};

verus! {

/// Commitments to the chunks of a key. Each is a commitment to the polynomial
/// `chunk + blind * (X - 1)`, on the base of its own slot.
#[derive(Clone, Debug, PartialEq)]
pub struct PedersenCommitments {
    pub commitments: Vec<G1>,
}

/// The blinding scalars of commitments to chunks.
#[derive(Clone, Debug, PartialEq)]
pub struct PedersenOpenings {
    pub randomness: Vec<Scalar>,
}

/// Digests of fixed public parameters.
#[derive(Clone, Debug, PartialEq)]
pub struct CcaStatementContext {
    pub validity_params_digest: [u8; 32],
    pub range_params_digest: [u8; 32],
}

/// The base of a slot for committed values.
pub open spec fn value_base(crs: &SteCRS, i: int) -> int {
    crs.powers_of_g@[i]@[0]@
}

/// The base of a slot for blinding scalars.
pub open spec fn blinding_base(crs: &SteCRS, i: int) -> int {
    (crs.powers_of_g@[i]@[1]@ - crs.powers_of_g@[i]@[0]@) % modulus()
}

/// The commitment to a value in a slot.
pub open spec fn pedersen_value(crs: &SteCRS, i: int, value: int, blind: int) -> int {
    (value_base(crs, i) * value + blinding_base(crs, i) * blind) % modulus()
}

/// Whether the points are commitments to the values with the given blinding scalars.
pub open spec fn are_pedersen(
    points: Seq<G1>,
    crs: &SteCRS,
    chunks: Seq<int>,
    blinds: Seq<int>,
) -> bool {
    &&& points.len() == chunks.len()
    &&& blinds.len() == chunks.len()
    &&& forall|i: int|
        0 <= i < points.len() ==> (#[trigger] points[i])@ == pedersen_value(
            crs,
            i,
            chunks[i],
            blinds[i],
        )
}

/// Whether the first slots have the powers that commitments are made of.
pub open spec fn has_bases(crs: &SteCRS, slots: int) -> bool {
    &&& slots <= crs.powers_of_g@.len()
    &&& forall|k: int| 0 <= k < slots ==> 2 <= (#[trigger] crs.powers_of_g@[k])@.len()
}

pub fn pedersen_value_base(crs: &SteCRS, chunk: usize) -> (res: G1)
    requires
        chunk < crs.powers_of_g@.len(),
        1 <= crs.powers_of_g@[chunk as int]@.len(),
    ensures
        res@ == value_base(crs, chunk as int),
{
    crs.powers_of_g[chunk][0]
}

pub fn pedersen_blinding_base(crs: &SteCRS, chunk: usize) -> (res: G1)
    requires
        chunk < crs.powers_of_g@.len(),
        2 <= crs.powers_of_g@[chunk as int]@.len(),
    ensures
        res@ == blinding_base(crs, chunk as int),
{
    crs.powers_of_g[chunk][1].sub(&crs.powers_of_g[chunk][0])
}

/// The commitment to a value in a slot.
pub fn pedersen_commitment(crs: &SteCRS, chunk: usize, value: &Scalar, blind: &Scalar) -> (res: G1)
    requires
        chunk < crs.powers_of_g@.len(),
        2 <= crs.powers_of_g@[chunk as int]@.len(),
    ensures
        res@ == pedersen_value(crs, chunk as int, value@, blind@),
{
    let v = pedersen_value_base(crs, chunk);
    let b = pedersen_blinding_base(crs, chunk);
    proof {
        lemma_eqm_mod(v@ * value@);
        lemma_eqm_mod(b@ * blind@);
        lemma_eqm_add(
            (v@ * value@) % modulus(),
            v@ * value@,
            (b@ * blind@) % modulus(),
            b@ * blind@,
        );
    }
    v.mul(value).add(&b.mul(blind))
}

impl PedersenCommitments {
    /// Commits to chunks with fresh blinding scalars.
    pub fn commit(chunks: &Vec<Scalar>, ste_crs: &SteCRS, rng: &mut StdRng) -> (res: (
        PedersenCommitments,
        PedersenOpenings,
    ))
        requires
            chunks@.len() <= ste_crs.l,
            has_bases(ste_crs, chunks@.len() as int),
        ensures
            are_pedersen(res.0.commitments@, ste_crs, vals(chunks@), vals(res.1.randomness@)),
            are_draws(*old(rng), *final(rng), res.1.randomness@),
    {
        let randomness = random_scalars(chunks.len(), rng);
        let commitments = PedersenCommitments::with_randomness(chunks, ste_crs, &randomness);
        (commitments, PedersenOpenings { randomness })
    }

    /// Commits to chunks with given blinding scalars.
    pub fn with_randomness(
        chunks: &Vec<Scalar>,
        ste_crs: &SteCRS,
        randomness: &Vec<Scalar>,
    ) -> (res: PedersenCommitments)
        requires
            has_bases(ste_crs, chunks@.len() as int),
            randomness@.len() == chunks@.len(),
        ensures
            are_pedersen(res.commitments@, ste_crs, vals(chunks@), vals(randomness@)),
    {
        let mut commitments: Vec<G1> = Vec::new();
        let mut i: usize = 0;
        while i < chunks.len()
            invariant
                0 <= i <= chunks@.len(),
                has_bases(ste_crs, chunks@.len() as int),
                randomness@.len() == chunks@.len(),
                commitments@.len() == i,
                forall|k: int|
                    0 <= k < i ==> (#[trigger] commitments@[k])@ == pedersen_value(
                        ste_crs,
                        k,
                        vals(chunks@)[k],
                        vals(randomness@)[k],
                    ),
            decreases chunks@.len() - i,
        {
            assert(vals(chunks@)[i as int] == chunks@[i as int]@);
            assert(vals(randomness@)[i as int] == randomness@[i as int]@);
            commitments.push(pedersen_commitment(ste_crs, i, &chunks[i], &randomness[i]));
            i += 1;
        }
        PedersenCommitments { commitments }
    }
}

/// What is hashed of the parameters of a validity proof.
pub open spec fn validity_transcript(bte_crs: &BteCRS, ste_crs: &SteCRS, ek: &EncryptionKey) -> Seq<u8> {
    framed("BSTE-CCA-VALIDITY-PARAMS-DIGEST-V1".spec_bytes()) + size_entry(
        "bte_batch_size".spec_bytes(),
        bte_crs.batch_size as int,
    ) + size_entry("bte_fft_size".spec_bytes(), bte_crs.fft_size as int) + list_entry(
        "bte_powers_of_g".spec_bytes(),
        bte_crs.powers_of_g@,
    ) + list_entry("bte_powers_of_h".spec_bytes(), bte_crs.powers_of_h@) + bytes_entry(
        "bte_gt_nplus1".spec_bytes(),
        bte_crs.gt_nplus1.encoding(),
    ) + list_entry("bte_fft_h".spec_bytes(), bte_crs.fft_h@) + list_entry(
        "bte_gt_powers".spec_bytes(),
        bte_crs.gt_powers@,
    ) + bytes_entry("ste_crs".spec_bytes(), ste_crs.encoding()) + bytes_entry(
        "ek".spec_bytes(),
        ek.encoding(),
    )
}

/// The digest of the parameters of a validity proof.
pub open spec fn validity_digest(bte_crs: &BteCRS, ste_crs: &SteCRS, ek: &EncryptionKey) -> Seq<u8> {
    sha256(validity_transcript(bte_crs, ste_crs, ek))
}

/// What is hashed of the parameters of a range proof.
pub open spec fn range_transcript(ste_crs: &SteCRS) -> Seq<u8> {
    framed("BSTE-CCA-RANGE-PARAMS-DIGEST-V1".spec_bytes()) + size_entry(
        "chunk_bits".spec_bytes(),
        CHUNK_BITS as int,
    ) + bytes_entry("ste_crs".spec_bytes(), ste_crs.encoding())
}

/// The digest of the parameters of a range proof.
pub open spec fn range_digest(ste_crs: &SteCRS) -> Seq<u8> {
    sha256(range_transcript(ste_crs))
}

fn validity_params_digest(bte_crs: &BteCRS, ste_crs: &SteCRS, ek: &EncryptionKey) -> (res: [u8; 32])
    ensures
        res@ == validity_digest(bte_crs, ste_crs, ek),
{
    let mut transcript = Transcript::new("BSTE-CCA-VALIDITY-PARAMS-DIGEST-V1");
    transcript.append_usize("bte_batch_size", bte_crs.batch_size);
    transcript.append_usize("bte_fft_size", bte_crs.fft_size);
    transcript.append_serializable_slice("bte_powers_of_g", &bte_crs.powers_of_g);
    transcript.append_serializable_slice("bte_powers_of_h", &bte_crs.powers_of_h);
    transcript.append_serializable("bte_gt_nplus1", &bte_crs.gt_nplus1);
    transcript.append_serializable_slice("bte_fft_h", &bte_crs.fft_h);
    transcript.append_serializable_slice("bte_gt_powers", &bte_crs.gt_powers);
    transcript.append_serializable("ste_crs", ste_crs);
    transcript.append_serializable("ek", ek);
    transcript.finalize()
}

fn range_params_digest(ste_crs: &SteCRS) -> (res: [u8; 32])
    ensures
        res@ == range_digest(ste_crs),
{
    let mut transcript = Transcript::new("BSTE-CCA-RANGE-PARAMS-DIGEST-V1");
    transcript.append_usize("chunk_bits", CHUNK_BITS as usize);
    transcript.append_serializable("ste_crs", ste_crs);
    transcript.finalize()
}

impl CcaStatementContext {
    /// Whether this is the context of the given parameters.
    pub open spec fn is_for(&self, bte_crs: &BteCRS, ste_crs: &SteCRS, ek: &EncryptionKey) -> bool {
        &&& self.validity_params_digest@ == validity_digest(bte_crs, ste_crs, ek)
        &&& self.range_params_digest@ == range_digest(ste_crs)
    }

    /// Hashes the public parameters once, for many proofs.
    pub fn new(bte_crs: &BteCRS, ste_crs: &SteCRS, ek: &EncryptionKey) -> (res: CcaStatementContext)
        ensures
            res.is_for(bte_crs, ste_crs, ek),
    {
        CcaStatementContext {
            validity_params_digest: validity_params_digest(bte_crs, ste_crs, ek),
            range_params_digest: range_params_digest(ste_crs),
        }
    }
}

} // verus!
