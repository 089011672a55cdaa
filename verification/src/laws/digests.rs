//! Laws of the digests of public parameters.
use crate::bte::crs::CRS as BteCRS;
use crate::cca::{range_transcript, validity_transcript, CcaStatementContext};
use crate::laws::partial::lemma_said_prefix;
use crate::laws::transcripts::{list_line, said};
use crate::ste::aggregate::EncryptionKey;
use crate::ste::crs::CRS as SteCRS;
use crate::transcript::{framed, sha256, size_bytes, Encode};
use vstd::prelude::*;
use vstd::string::StringSliceAdditionalSpecFns;

verus! {

/// What is hashed of the parameters of a range proof.
pub open spec fn range_digest_lines(crs: &SteCRS) -> Seq<(Seq<u8>, Seq<u8>)> {
    seq![
        ("chunk_bits".spec_bytes(), size_bytes(16)),
        ("ste_crs".spec_bytes(), framed(crs.encoding())),
    ]
}

/// What is hashed of the parameters of a validity proof.
pub open spec fn validity_digest_lines(
    bte_crs: &BteCRS,
    ste_crs: &SteCRS,
    ek: &EncryptionKey,
) -> Seq<(Seq<u8>, Seq<u8>)> {
    seq![
        ("bte_batch_size".spec_bytes(), size_bytes(bte_crs.batch_size as int)),
        ("bte_fft_size".spec_bytes(), size_bytes(bte_crs.fft_size as int)),
        ("bte_powers_of_g".spec_bytes(), list_line(bte_crs.powers_of_g@)),
        ("bte_powers_of_h".spec_bytes(), list_line(bte_crs.powers_of_h@)),
        ("bte_gt_nplus1".spec_bytes(), framed(bte_crs.gt_nplus1.encoding())),
        ("bte_fft_h".spec_bytes(), list_line(bte_crs.fft_h@)),
        ("bte_gt_powers".spec_bytes(), list_line(bte_crs.gt_powers@)),
        ("ste_crs".spec_bytes(), framed(ste_crs.encoding())),
        ("ek".spec_bytes(), framed(ek.encoding())),
    ]
}

/// The digest of the parameters of range proofs is the hash of these lines.
pub proof fn law_range_digest(crs: &SteCRS)
    ensures
        range_transcript(crs) == said(
            "BSTE-CCA-RANGE-PARAMS-DIGEST-V1".spec_bytes(),
            range_digest_lines(crs),
        ),
{
    let d = "BSTE-CCA-RANGE-PARAMS-DIGEST-V1".spec_bytes();
    let lines = range_digest_lines(crs);
    lemma_said_prefix(d, lines, 2);
    lemma_said_prefix(d, lines, 1);
    assert(lines.subrange(0, 2) =~= lines);
    assert(lines.subrange(0, 0) =~= Seq::empty());
    assert(range_transcript(crs) =~= said(d, lines));
}

/// The digest of the parameters of validity proofs is the hash of these lines.
#[verifier::rlimit(40)]
pub proof fn law_validity_digest(bte_crs: &BteCRS, ste_crs: &SteCRS, ek: &EncryptionKey)
    ensures
        validity_transcript(bte_crs, ste_crs, ek) == said(
            "BSTE-CCA-VALIDITY-PARAMS-DIGEST-V1".spec_bytes(),
            validity_digest_lines(bte_crs, ste_crs, ek),
        ),
{
    let d = "BSTE-CCA-VALIDITY-PARAMS-DIGEST-V1".spec_bytes();
    let lines = validity_digest_lines(bte_crs, ste_crs, ek);
    lemma_said_prefix(d, lines, 9);
    lemma_said_prefix(d, lines, 8);
    lemma_said_prefix(d, lines, 7);
    lemma_said_prefix(d, lines, 6);
    lemma_said_prefix(d, lines, 5);
    lemma_said_prefix(d, lines, 4);
    lemma_said_prefix(d, lines, 3);
    lemma_said_prefix(d, lines, 2);
    lemma_said_prefix(d, lines, 1);
    assert(lines.subrange(0, 9) =~= lines);
    assert(lines.subrange(0, 0) =~= Seq::empty());
    assert(validity_transcript(bte_crs, ste_crs, ek) =~= said(d, lines));
}

/// A context holds the digests of all public parameters.
pub proof fn law_context(
    bte_crs: BteCRS,
    ste_crs: SteCRS,
    ek: EncryptionKey,
    res: CcaStatementContext,
)
    requires
        call_ensures(CcaStatementContext::new, (&bte_crs, &ste_crs, &ek), res),
    ensures
        res.validity_params_digest@ == sha256(
            said(
                "BSTE-CCA-VALIDITY-PARAMS-DIGEST-V1".spec_bytes(),
                validity_digest_lines(&bte_crs, &ste_crs, &ek),
            ),
        ),
        res.range_params_digest@ == sha256(
            said(
                "BSTE-CCA-RANGE-PARAMS-DIGEST-V1".spec_bytes(),
                range_digest_lines(&ste_crs),
            ),
        ),
{
    law_range_digest(&ste_crs);
    law_validity_digest(&bte_crs, &ste_crs, &ek);
}

} // verus!
