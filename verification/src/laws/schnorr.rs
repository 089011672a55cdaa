//! Laws of the proofs of knowledge and of the validity proofs.
use crate::algebra::congruence::{
    eqm, lemma_eqm_add, lemma_eqm_difference, lemma_eqm_mod, lemma_eqm_mul, lemma_eqm_reduced,
    lemma_eqm_sub, lemma_modulus, lemma_reduced, modulus,
};
use crate::algebra::primality::lemma_no_zero_divisors;
use crate::algebra::sums::sum;
use crate::bte::crs::CRS as BteCRS;
use crate::bte::encryption::{Ciphertext, EncryptionWitness};
use crate::cca::schnorr::{
    lemma_map_opens, map_values, opened_values, params_of, reconstruct_schnorr_commitments,
    responses, schnorr_map, schnorr_transcript, statement_entries, statement_values, value_entries,
    value_list_entry, SchnorrCommitments, SchnorrMasks, SchnorrProof, SchnorrValues, ValidityProof,
};
use crate::cca::{CcaStatementContext, PedersenCommitments, PedersenOpenings};
use crate::cca::range::RangeProof;
use crate::field::{lemma_scalar_range, vals, Scalar};
use crate::group::{g1_compressed, gt_encoding, lemma_g1_range, lemma_g2_range, lemma_gt_range, G1};
use crate::laws::partial::{hashed_scalar, lemma_said_prefix};
use crate::laws::transcripts::{
    are_reduced, codes_are_faithful, lemma_framed_binds, lemma_framed_length, lemma_g1_list_binds,
    lemma_said_binds, lemma_size_binds, lemma_size_length, lemma_values_bind, list_line, said,
    same_shape, value_line,
};
use crate::ste::aggregate::EncryptionKey;
use crate::ste::crs::CRS as SteCRS;
use crate::transcript::{framed, g1_code, g2_code, gt_code, joined, list_entry, size_bytes, Encode};
use vstd::arithmetic::power::pow;
use vstd::prelude::*;
use vstd::string::StringSliceAdditionalSpecFns;

verus! {

/// The lines of the transcript of a proof of knowledge.
pub open spec fn schnorr_lines(
    digest: Seq<u8>,
    ct: &Ciphertext,
    commitments: Seq<G1>,
    v: SchnorrValues,
) -> Seq<(Seq<u8>, Seq<u8>)> {
    seq![
        ("validity_params_digest".spec_bytes(), framed(digest)),
        ("pprf_point".spec_bytes(), size_bytes(ct.pprf.point as int)),
        ("pprf_key".spec_bytes(), framed(g1_compressed(ct.pprf.key@))),
        ("encrypted_key".spec_bytes(), framed(ct.encrypted_key.encoding())),
        ("mask".spec_bytes(), framed(gt_encoding(ct.mask@))),
        ("pedersen_commitments".spec_bytes(), list_line(commitments)),
        ("a_pprf_key".spec_bytes(), framed(g1_compressed(v.pprf_key))),
        ("a_mask".spec_bytes(), framed(gt_encoding(v.mask))),
        ("a_sa1".spec_bytes(), framed(joined(v.sa1, g1_code()))),
        ("a_sa2".spec_bytes(), framed(joined(v.sa2, g2_code()))),
        ("a_ct".spec_bytes(), value_line(v.ct, gt_code())),
        ("a_chunk_commitments".spec_bytes(), value_line(v.commitments, g1_code())),
    ]
}

/// One line with its label.
spec fn entry(line: (Seq<u8>, Seq<u8>)) -> Seq<u8> {
    framed(line.0) + line.1
}

/// Six lines more.
#[verifier::rlimit(40)]
proof fn lemma_six_more(d: Seq<u8>, lines: Seq<(Seq<u8>, Seq<u8>)>, n: int)
    requires
        0 <= n <= lines.len() - 6,
    ensures
        said(d, lines.subrange(0, n + 6)) == said(d, lines.subrange(0, n)) + (entry(lines[n])
            + entry(lines[n + 1]) + entry(lines[n + 2]) + entry(lines[n + 3]) + entry(lines[n + 4])
            + entry(lines[n + 5])),
{
    lemma_said_prefix(d, lines, n + 6);
    lemma_said_prefix(d, lines, n + 5);
    lemma_said_prefix(d, lines, n + 4);
    lemma_said_prefix(d, lines, n + 3);
    lemma_said_prefix(d, lines, n + 2);
    lemma_said_prefix(d, lines, n + 1);
    let x = said(d, lines.subrange(0, n));
    let e0 = entry(lines[n]);
    let e1 = entry(lines[n + 1]);
    let e2 = entry(lines[n + 2]);
    let e3 = entry(lines[n + 3]);
    let e4 = entry(lines[n + 4]);
    let e5 = entry(lines[n + 5]);
    assert(said(d, lines.subrange(0, n + 6)) == x + e0 + e1 + e2 + e3 + e4 + e5);
    assert(x + e0 + e1 + e2 + e3 + e4 + e5 =~= x + (e0 + e1 + e2 + e3 + e4 + e5));
}

/// Before the challenge is drawn, the transcript says these lines.
#[verifier::rlimit(40)]
pub proof fn law_schnorr_transcript(
    digest: Seq<u8>,
    ct: &Ciphertext,
    commitments: Seq<G1>,
    v: SchnorrValues,
)
    ensures
        schnorr_transcript(digest, ct, commitments, v) == said(
            "BSTE-CCA-CIPHERTEXT-VALIDITY-V2-COMPACT".spec_bytes(),
            schnorr_lines(digest, ct, commitments, v),
        ),
{
    let d = "BSTE-CCA-CIPHERTEXT-VALIDITY-V2-COMPACT".spec_bytes();
    let lines = schnorr_lines(digest, ct, commitments, v);
    assert(lines.subrange(0, 12) =~= lines);
    assert(lines.subrange(0, 0) =~= Seq::empty());
    assert(said(d, Seq::empty()) == framed(d));
    lemma_six_more(d, lines, 0);
    lemma_six_more(d, lines, 6);
    assert(entry(lines[5]) =~= list_entry("pedersen_commitments".spec_bytes(), commitments));
    assert(entry(lines[10]) =~= value_list_entry("a_ct".spec_bytes(), v.ct, gt_code()));
    assert(entry(lines[11]) =~= value_list_entry(
        "a_chunk_commitments".spec_bytes(),
        v.commitments,
        g1_code(),
    ));
    assert(statement_entries(digest, ct, commitments) == entry(lines[0]) + entry(lines[1]) + entry(
        lines[2],
    ) + entry(lines[3]) + entry(lines[4]) + entry(lines[5]));
    assert(value_entries(v) == entry(lines[6]) + entry(lines[7]) + entry(lines[8]) + entry(lines[9])
        + entry(lines[10]) + entry(lines[11]));
}

/// Whether all values are reduced.
pub open spec fn is_reduced_statement(v: SchnorrValues) -> bool {
    &&& 0 <= v.pprf_key < modulus()
    &&& 0 <= v.mask < modulus()
    &&& are_reduced(v.sa1)
    &&& are_reduced(v.sa2)
    &&& are_reduced(v.ct)
    &&& are_reduced(v.commitments)
}

/// Whether two lists of first-round commitments have the same lengths.
pub open spec fn same_counts(v: SchnorrValues, w: SchnorrValues) -> bool {
    &&& v.sa1.len() == w.sa1.len()
    &&& v.sa2.len() == w.sa2.len()
    &&& v.ct.len() == w.ct.len()
    &&& v.commitments.len() == w.commitments.len()
}

/// The transcript determines the digest of the parameters, the statement, and all first-round
/// commitments.
#[verifier::rlimit(40)]
pub proof fn law_schnorr_transcript_binds(
    digest: Seq<u8>,
    ct: Ciphertext,
    commitments: Seq<G1>,
    v: SchnorrValues,
    digest2: Seq<u8>,
    ct2: Ciphertext,
    commitments2: Seq<G1>,
    w: SchnorrValues,
)
    requires
        codes_are_faithful(),
        digest.len() == digest2.len(),
        ct.encrypted_key.encoding().len() == ct2.encrypted_key.encoding().len(),
        commitments.len() == commitments2.len(),
        same_counts(v, w),
        is_reduced_statement(v),
        is_reduced_statement(w),
        schnorr_transcript(digest, &ct, commitments, v) == schnorr_transcript(
            digest2,
            &ct2,
            commitments2,
            w,
        ),
    ensures
        v == w,
        digest == digest2,
        ct.pprf.point == ct2.pprf.point,
        ct.pprf.key@ == ct2.pprf.key@,
        ct.encrypted_key.encoding() == ct2.encrypted_key.encoding(),
        ct.mask@ == ct2.mask@,
        vals(commitments) == vals(commitments2),
{
    broadcast use lemma_g1_range, lemma_gt_range;

    let d = "BSTE-CCA-CIPHERTEXT-VALIDITY-V2-COMPACT".spec_bytes();
    let x = schnorr_lines(digest, &ct, commitments, v);
    let y = schnorr_lines(digest2, &ct2, commitments2, w);
    law_schnorr_transcript(digest, &ct, commitments, v);
    law_schnorr_transcript(digest2, &ct2, commitments2, w);
    assert forall|n: int| #[trigger] size_bytes(n).len() == 8 by {
        lemma_size_length(n);
    }
    assert forall|s: Seq<u8>| #[trigger] framed(s).len() == 8 + s.len() by {
        lemma_framed_length(s);
    }
    assert(g1_code()(ct.pprf.key@).len() == g1_code()(ct2.pprf.key@).len());
    assert(gt_code()(ct.mask@).len() == gt_code()(ct2.mask@).len());
    assert(g1_code()(v.pprf_key).len() == g1_code()(w.pprf_key).len());
    assert(gt_code()(v.mask).len() == gt_code()(w.mask).len());
    lemma_g1_list_binds(commitments, commitments2);
    lemma_values_bind(v.sa1, w.sa1, g1_code());
    lemma_values_bind(v.sa2, w.sa2, g2_code());
    lemma_values_bind(v.ct, w.ct, gt_code());
    lemma_values_bind(v.commitments, w.commitments, g1_code());
    assert(same_shape(x, y));
    lemma_said_binds(d, x, y);
    assert(x[0] == y[0] && x[1] == y[1] && x[2] == y[2] && x[3] == y[3] && x[4] == y[4] && x[5]
        == y[5] && x[6] == y[6] && x[7] == y[7] && x[8] == y[8] && x[9] == y[9] && x[10] == y[10]
        && x[11] == y[11]);
    lemma_framed_binds(digest, digest2);
    lemma_size_binds(ct.pprf.point as int, ct2.pprf.point as int);
    lemma_framed_binds(g1_compressed(ct.pprf.key@), g1_compressed(ct2.pprf.key@));
    lemma_framed_binds(ct.encrypted_key.encoding(), ct2.encrypted_key.encoding());
    lemma_framed_binds(gt_encoding(ct.mask@), gt_encoding(ct2.mask@));
    lemma_framed_binds(g1_compressed(v.pprf_key), g1_compressed(w.pprf_key));
    lemma_framed_binds(gt_encoding(v.mask), gt_encoding(w.mask));
    lemma_framed_binds(joined(v.sa1, g1_code()), joined(w.sa1, g1_code()));
    lemma_framed_binds(joined(v.sa2, g2_code()), joined(w.sa2, g2_code()));
    assert(g1_code()(ct.pprf.key@) == g1_code()(ct2.pprf.key@));
    assert(gt_code()(ct.mask@) == gt_code()(ct2.mask@));
    assert(g1_code()(v.pprf_key) == g1_code()(w.pprf_key));
    assert(gt_code()(v.mask) == gt_code()(w.mask));
}

/// What chunks, encryption randomness and blinding scalars lead to: the punctured key and the mask of
/// the key with these chunks, the parts of its encryption, and the commitments.
pub open spec fn images(
    bte_crs: &BteCRS,
    ste_crs: &SteCRS,
    ek: &EncryptionKey,
    point: int,
    t: int,
    chunks: Seq<int>,
    s: Seq<int>,
    blinds: Seq<int>,
) -> SchnorrValues {
    let key = sum(chunks.len() as int, |i: int| chunks[i] * pow(65536, i as nat));
    let g = ste_crs.powers_of_g@[0]@;
    let h = ste_crs.powers_of_h@[0]@;
    SchnorrValues {
        pprf_key: (bte_crs.powers_of_g@[point]@ * key) % modulus(),
        mask: (bte_crs.gt_powers@[point]@ * key) % modulus(),
        sa1: seq![
            (ek.ask@ * s[0] + g[t]@ * s[3] + g[0]@ * s[4]) % modulus(),
            (g[0]@ * s[2]) % modulus(),
        ],
        sa2: seq![
            (h[0]@ * s[0] + ek.gamma_g2@[0]@ * s[2]) % modulus(),
            (ek.z_g2@ * s[0]) % modulus(),
            (h[1]@ * s[0] + h[2]@ * s[1]) % modulus(),
            (h[0]@ * s[1]) % modulus(),
            (h[0]@ * s[3]) % modulus(),
            (h[1]@ * s[4]) % modulus(),
        ],
        ct: Seq::new(chunks.len(), |k: int| (ek.e_gh@[k]@ * s[4] + chunks[k]) % modulus()),
        commitments: Seq::new(
            chunks.len(),
            |i: int|
                (ste_crs.powers_of_g@[i]@[0]@ * chunks[i] + (ste_crs.powers_of_g@[i]@[1]@
                    - ste_crs.powers_of_g@[i]@[0]@) * blinds[i]) % modulus(),
        ),
    }
}

/// The public maps of a statement are these.
pub(crate) proof fn lemma_images(
    ct: &Ciphertext,
    bte_crs: &BteCRS,
    ste_crs: &SteCRS,
    ek: &EncryptionKey,
    chunks: Seq<int>,
    s: Seq<int>,
    blinds: Seq<int>,
)
    ensures
        schnorr_map(params_of(ct, bte_crs, ste_crs, ek), chunks, s, blinds) == images(
            bte_crs,
            ste_crs,
            ek,
            ct.pprf.point as int,
            ct.encrypted_key.t as int,
            chunks,
            s,
            blinds,
        ),
{
    let a = schnorr_map(params_of(ct, bte_crs, ste_crs, ek), chunks, s, blinds);
    let b = images(
        bte_crs,
        ste_crs,
        ek,
        ct.pprf.point as int,
        ct.encrypted_key.t as int,
        chunks,
        s,
        blinds,
    );
    let f = |i: int| chunks[i] * pow(65536, i as nat);
    crate::algebra::sums::lemma_sum_eq(
        chunks.len() as int,
        f,
        crate::bte::encryption::place_terms(chunks),
    );
    assert(a.sa1 =~= b.sa1);
    assert(a.sa2 =~= b.sa2);
    assert(a.ct =~= b.ct);
    assert forall|i: int| 0 <= i < chunks.len() implies #[trigger] a.commitments[i]
        == b.commitments[i] by {
        let g0 = ste_crs.powers_of_g@[i]@[0]@;
        let g1 = ste_crs.powers_of_g@[i]@[1]@;
        lemma_eqm_mod(g1 - g0);
        lemma_eqm_mul((g1 - g0) % modulus(), g1 - g0, blinds[i], blinds[i]);
        lemma_eqm_add(
            g0 * chunks[i],
            g0 * chunks[i],
            ((g1 - g0) % modulus()) * blinds[i],
            (g1 - g0) * blinds[i],
        );
    }
    assert(a.commitments =~= b.commitments);
}

/// The values of a statement.
pub open spec fn values_of(ct: &Ciphertext, commitments: Seq<G1>) -> SchnorrValues {
    SchnorrValues {
        pprf_key: ct.pprf.key@,
        mask: ct.mask@,
        sa1: vals(ct.encrypted_key.sa1@),
        sa2: vals(ct.encrypted_key.sa2@),
        ct: vals(ct.encrypted_key.ct@),
        commitments: vals(commitments),
    }
}

/// What is left of one list of values without a multiple of another, place by place.
pub open spec fn minus_multiple(a: Seq<int>, b: Seq<int>, c: int) -> Seq<int> {
    Seq::new(a.len(), |i: int| (a[i] - b[i] * c) % modulus())
}

/// The same for all values of a statement.
pub open spec fn minus_statement(a: SchnorrValues, b: SchnorrValues, c: int) -> SchnorrValues {
    SchnorrValues {
        pprf_key: (a.pprf_key - b.pprf_key * c) % modulus(),
        mask: (a.mask - b.mask * c) % modulus(),
        sa1: minus_multiple(a.sa1, b.sa1, c),
        sa2: minus_multiple(a.sa2, b.sa2, c),
        ct: minus_multiple(a.ct, b.ct, c),
        commitments: minus_multiple(a.commitments, b.commitments, c),
    }
}

proof fn lemma_minus(a: SchnorrValues, b: SchnorrValues, c: int)
    ensures
        opened_values(a, b, c) == minus_statement(a, b, c),
{
    assert(opened_values(a, b, c).sa1 =~= minus_multiple(a.sa1, b.sa1, c));
    assert(opened_values(a, b, c).sa2 =~= minus_multiple(a.sa2, b.sa2, c));
    assert(opened_values(a, b, c).ct =~= minus_multiple(a.ct, b.ct, c));
    assert(opened_values(a, b, c).commitments =~= minus_multiple(a.commitments, b.commitments, c));
}

/// Whether the statement fits the parameters.
pub open spec fn fits(
    ct: &Ciphertext,
    bte_crs: &BteCRS,
    ste_crs: &SteCRS,
    ek: &EncryptionKey,
    n: int,
) -> bool {
    &&& ct.pprf.point < bte_crs.batch_size
    &&& ct.encrypted_key.t < ste_crs.powers_of_g@[0]@.len()
    &&& ct.encrypted_key.ct@.len() == n
    &&& n <= ste_crs.l
    &&& n <= ek.e_gh@.len()
    &&& ek.gamma_g2@.len() > 0
    &&& ste_crs.n >= 1
    &&& forall|k: int|
        0 <= k < ste_crs.l && k < ste_crs.powers_of_g@.len() ==> (
        #[trigger] ste_crs.powers_of_g@[k])@.len() >= 35
    &&& ste_crs.powers_of_h@[0]@.len() >= 35
}

/// Whether the challenge is recomputed from the responses: it is the hash of the statement and of the
/// images of the responses, without the challenge times the statement.
pub open spec fn recomputes(
    digest: Seq<u8>,
    ct: &Ciphertext,
    bte_crs: &BteCRS,
    ste_crs: &SteCRS,
    ek: &EncryptionKey,
    commitments: Seq<G1>,
    c: int,
    z_chunks: Seq<int>,
    z_s: Seq<int>,
    z_blinds: Seq<int>,
) -> bool {
    c == hashed_scalar(
        said(
            "BSTE-CCA-CIPHERTEXT-VALIDITY-V2-COMPACT".spec_bytes(),
            schnorr_lines(
                digest,
                ct,
                commitments,
                minus_statement(
                    images(
                        bte_crs,
                        ste_crs,
                        ek,
                        ct.pprf.point as int,
                        ct.encrypted_key.t as int,
                        z_chunks,
                        z_s,
                        z_blinds,
                    ),
                    values_of(ct, commitments),
                    c,
                ),
            ),
        ),
    )
}

proof fn lemma_recomputes(
    digest: Seq<u8>,
    ct: &Ciphertext,
    bte_crs: &BteCRS,
    ste_crs: &SteCRS,
    ek: &EncryptionKey,
    commitments: Seq<G1>,
    c: int,
    z_chunks: Seq<int>,
    z_s: Seq<int>,
    z_blinds: Seq<int>,
)
    ensures
        recomputes(digest, ct, bte_crs, ste_crs, ek, commitments, c, z_chunks, z_s, z_blinds) == (c
            == crate::cca::schnorr::schnorr_challenge(
            digest,
            ct,
            commitments,
            opened_values(
                schnorr_map(params_of(ct, bte_crs, ste_crs, ek), z_chunks, z_s, z_blinds),
                statement_values(ct, commitments),
                c,
            ),
        )),
{
    lemma_images(ct, bte_crs, ste_crs, ek, z_chunks, z_s, z_blinds);
    let m = schnorr_map(params_of(ct, bte_crs, ste_crs, ek), z_chunks, z_s, z_blinds);
    let v = statement_values(ct, commitments);
    lemma_minus(m, v, c);
    law_schnorr_transcript(digest, ct, commitments, opened_values(m, v, c));
    assert(v == values_of(ct, commitments));
}

/// A proof of knowledge is accepted exactly if the statement fits, there is a response for every chunk
/// and every blinding scalar, and the challenge is recomputed from the responses.
pub proof fn law_schnorr_verify(
    p: SchnorrProof,
    context: CcaStatementContext,
    ct: Ciphertext,
    bte_crs: BteCRS,
    ste_crs: SteCRS,
    ek: EncryptionKey,
    commitments: PedersenCommitments,
    ok: bool,
)
    requires
        call_ensures(
            SchnorrProof::verify_with_context,
            (&p, &context, &ct, &bte_crs, &ste_crs, &ek, &commitments),
            ok,
        ),
    ensures
        ok == ({
            let n = commitments.commitments@.len();
            &&& fits(&ct, &bte_crs, &ste_crs, &ek, n as int)
            &&& p.z_chunks@.len() == n
            &&& p.z_commitment_randomness@.len() == n
            &&& recomputes(
                context.validity_params_digest@,
                &ct,
                &bte_crs,
                &ste_crs,
                &ek,
                commitments.commitments@,
                p.challenge@,
                vals(p.z_chunks@),
                vals(p.z_ste_randomness@),
                vals(p.z_commitment_randomness@),
            )
        }),
{
    lemma_recomputes(
        context.validity_params_digest@,
        &ct,
        &bte_crs,
        &ste_crs,
        &ek,
        commitments.commitments@,
        p.challenge@,
        vals(p.z_chunks@),
        vals(p.z_ste_randomness@),
        vals(p.z_commitment_randomness@),
    );
    assert(vals(p.z_chunks@).len() == p.z_chunks@.len());
    assert(vals(p.z_commitment_randomness@).len() == p.z_commitment_randomness@.len());
}

/// A validity proof is accepted exactly if both of its parts are.
pub proof fn law_validity_verify(
    p: ValidityProof,
    context: CcaStatementContext,
    ct: Ciphertext,
    bte_crs: BteCRS,
    ste_crs: SteCRS,
    ek: EncryptionKey,
    commitments: PedersenCommitments,
    ok: bool,
    range_ok: bool,
)
    requires
        call_ensures(
            ValidityProof::verify_with_context,
            (&p, &context, &ct, &bte_crs, &ste_crs, &ek, &commitments),
            ok,
        ),
        call_ensures(
            RangeProof::verify_with_context,
            (&p.range_proof, &context.range_params_digest, &commitments, &ste_crs),
            range_ok,
        ),
    ensures
        ok == ({
            let n = commitments.commitments@.len();
            &&& range_ok
            &&& fits(&ct, &bte_crs, &ste_crs, &ek, n as int)
            &&& p.z_chunks@.len() == n
            &&& p.z_commitment_randomness@.len() == n
            &&& recomputes(
                context.validity_params_digest@,
                &ct,
                &bte_crs,
                &ste_crs,
                &ek,
                commitments.commitments@,
                p.challenge@,
                vals(p.z_chunks@),
                vals(p.z_ste_randomness@),
                vals(p.z_commitment_randomness@),
            )
        }),
{
    lemma_recomputes(
        context.validity_params_digest@,
        &ct,
        &bte_crs,
        &ste_crs,
        &ek,
        commitments.commitments@,
        p.challenge@,
        vals(p.z_chunks@),
        vals(p.z_ste_randomness@),
        vals(p.z_commitment_randomness@),
    );
    assert(vals(p.z_chunks@).len() == p.z_chunks@.len());
    assert(vals(p.z_commitment_randomness@).len() == p.z_commitment_randomness@.len());
}

/// Checking a validity proof on its own is checking it under the context of its parameters.
pub proof fn law_validity_verify_alone(
    p: ValidityProof,
    context: CcaStatementContext,
    ct: Ciphertext,
    bte_crs: BteCRS,
    ste_crs: SteCRS,
    ek: EncryptionKey,
    commitments: PedersenCommitments,
    alone: bool,
    with_context: bool,
)
    requires
        call_ensures(CcaStatementContext::new, (&bte_crs, &ste_crs, &ek), context),
        call_ensures(
            ValidityProof::verify,
            (&p, &ct, &bte_crs, &ste_crs, &ek, &commitments),
            alone,
        ),
        call_ensures(
            ValidityProof::verify_with_context,
            (&p, &context, &ct, &bte_crs, &ste_crs, &ek, &commitments),
            with_context,
        ),
    ensures
        alone == with_context,
{
}

/// A value that differs is told apart by a challenge that is not zero.
proof fn lemma_same_opening(a: int, v: int, w: int, c: int)
    requires
        (a - v * c) % modulus() == (a - w * c) % modulus(),
        !eqm(c, 0),
        0 <= v < modulus(),
        0 <= w < modulus(),
    ensures
        v == w,
{
    lemma_eqm_sub(a - v * c, a - w * c, a - w * c, a - w * c);
    assert(c * (w - v) == w * c - v * c) by (nonlinear_arith);
    assert(eqm(c * (w - v), 0));
    lemma_no_zero_divisors(c, w - v);
    lemma_eqm_difference(w, v);
    lemma_eqm_reduced(v, w);
}

proof fn lemma_same_openings(a: Seq<int>, v: Seq<int>, w: Seq<int>, c: int)
    requires
        minus_multiple(a, v, c) == minus_multiple(a, w, c),
        !eqm(c, 0),
        a.len() == v.len() == w.len(),
        are_reduced(v),
        are_reduced(w),
    ensures
        v == w,
{
    let x = minus_multiple(a, v, c);
    let y = minus_multiple(a, w, c);
    assert forall|i: int| 0 <= i < v.len() implies #[trigger] v[i] == w[i] by {
        assert(x[i] == (a[i] - v[i] * c) % modulus());
        assert(y[i] == (a[i] - w[i] * c) % modulus());
        lemma_same_opening(a[i], v[i], w[i], c);
    }
    assert(v =~= w);
}

proof fn lemma_images_reduced(
    bte_crs: &BteCRS,
    ste_crs: &SteCRS,
    ek: &EncryptionKey,
    point: int,
    t: int,
    chunks: Seq<int>,
    s: Seq<int>,
    blinds: Seq<int>,
)
    ensures
        is_reduced_statement(images(bte_crs, ste_crs, ek, point, t, chunks, s, blinds)),
{
    lemma_modulus();
    let v = images(bte_crs, ste_crs, ek, point, t, chunks, s, blinds);
    assert(v.sa1.len() == 2 && 0 <= v.sa1[0] < modulus() && 0 <= v.sa1[1] < modulus());
    assert(v.sa2.len() == 6 && 0 <= v.sa2[0] < modulus() && 0 <= v.sa2[1] < modulus() && 0
        <= v.sa2[2] < modulus() && 0 <= v.sa2[3] < modulus() && 0 <= v.sa2[4] < modulus() && 0
        <= v.sa2[5] < modulus());
}

/// A proof that is made in the usual way, from secrets that do not explain the statement, is accepted
/// only if two different transcripts lead to the same challenge.
pub proof fn law_wrong_statement_needs_collision(
    context: CcaStatementContext,
    ct: Ciphertext,
    bte_crs: BteCRS,
    ste_crs: SteCRS,
    ek: EncryptionKey,
    commitments: PedersenCommitments,
    witness: EncryptionWitness,
    openings: PedersenOpenings,
    masks: SchnorrMasks,
    p: SchnorrProof,
    ok: bool,
)
    requires
        codes_are_faithful(),
        witness.chunks@.len() == commitments.commitments@.len(),
        openings.randomness@.len() == commitments.commitments@.len(),
        values_of(&ct, commitments.commitments@) != images(
            &bte_crs,
            &ste_crs,
            &ek,
            ct.pprf.point as int,
            ct.encrypted_key.t as int,
            vals(witness.chunks@),
            vals(witness.ste_randomness.s@),
            vals(openings.randomness@),
        ),
        call_ensures(
            SchnorrProof::prove_with_masks,
            (
                &context,
                &ct,
                &bte_crs,
                &ste_crs,
                &ek,
                &commitments,
                &witness,
                &openings,
                &masks,
            ),
            p,
        ),
        p.challenge@ != 0,
        call_ensures(
            SchnorrProof::verify_with_context,
            (&p, &context, &ct, &bte_crs, &ste_crs, &ek, &commitments),
            ok,
        ),
        ok,
    ensures
        exists|a: Seq<u8>, b: Seq<u8>|
            a != b && #[trigger] hashed_scalar(a) == #[trigger] hashed_scalar(b),
{
    broadcast use lemma_g1_range, lemma_g2_range, lemma_gt_range;

    let cs = commitments.commitments@;
    let digest = context.validity_params_digest@;
    let par = params_of(&ct, &bte_crs, &ste_crs, &ek);
    let point = ct.pprf.point as int;
    let t = ct.encrypted_key.t as int;
    let c = p.challenge@;
    let wc = vals(witness.chunks@);
    let ws = vals(witness.ste_randomness.s@);
    let wb = vals(openings.randomness@);
    let rc = vals(masks.chunks@);
    let rs = vals(masks.ste_randomness@);
    let rb = vals(masks.commitment_randomness@);
    let zc = vals(p.z_chunks@);
    let zs = vals(p.z_ste_randomness@);
    let zb = vals(p.z_commitment_randomness@);
    lemma_images(&ct, &bte_crs, &ste_crs, &ek, wc, ws, wb);
    lemma_images(&ct, &bte_crs, &ste_crs, &ek, rc, rs, rb);
    lemma_images(&ct, &bte_crs, &ste_crs, &ek, zc, zs, zb);
    let w = images(&bte_crs, &ste_crs, &ek, point, t, wc, ws, wb);
    let r = images(&bte_crs, &ste_crs, &ek, point, t, rc, rs, rb);
    let z = images(&bte_crs, &ste_crs, &ek, point, t, zc, zs, zb);
    let v = values_of(&ct, cs);
    lemma_images_reduced(&bte_crs, &ste_crs, &ek, point, t, wc, ws, wb);
    lemma_images_reduced(&bte_crs, &ste_crs, &ek, point, t, rc, rs, rb);
    lemma_minus(z, v, c);
    lemma_minus(z, w, c);
    let made = schnorr_transcript(digest, &ct, cs, r);
    let opened = schnorr_transcript(digest, &ct, cs, minus_statement(z, v, c));
    assert(v == statement_values(&ct, cs));
    assert(hashed_scalar(made) == hashed_scalar(opened));
    if made == opened {
        lemma_modulus();
        assert(masks.chunks@.len() == cs.len());
        assert(zc.len() == cs.len() && zb.len() == cs.len());
        assert(ct.encrypted_key.ct@.len() == cs.len());
        assert(is_reduced_statement(minus_statement(z, v, c)));
        law_schnorr_transcript_binds(
            digest,
            ct,
            cs,
            r,
            digest,
            ct,
            cs,
            minus_statement(z, v, c),
        );
        lemma_map_opens(par, rc, rs, rb, wc, ws, wb, c);
        assert(minus_statement(z, w, c) == r);
        lemma_scalar_range(p.challenge);
        if eqm(c, 0) {
            lemma_reduced(0);
            lemma_eqm_reduced(c, 0);
        }
        assert(vals(ct.encrypted_key.ct@).len() == cs.len());
        let a = minus_statement(z, v, c);
        let b = minus_statement(z, w, c);
        assert(a == b);
        assert(a.sa1 == b.sa1 && a.sa2 == b.sa2 && a.ct == b.ct && a.commitments == b.commitments);
        lemma_same_opening(z.pprf_key, v.pprf_key, w.pprf_key, c);
        lemma_same_opening(z.mask, v.mask, w.mask, c);
        lemma_same_openings(z.sa1, v.sa1, w.sa1, c);
        lemma_same_openings(z.sa2, v.sa2, w.sa2, c);
        lemma_same_openings(z.ct, v.ct, w.ct, c);
        lemma_same_openings(z.commitments, v.commitments, w.commitments, c);
        assert(v == w);
    }
}

/// Whether the commitments of the first round have the given values.
pub open spec fn have_values(a: SchnorrCommitments, v: SchnorrValues) -> bool {
    &&& a.a_pprf_key@ == v.pprf_key
    &&& a.a_mask@ == v.mask
    &&& vals(a.a_sa1@) == v.sa1
    &&& vals(a.a_sa2@) == v.sa2
    &&& vals(a.a_ct@) == v.ct
    &&& vals(a.a_chunk_commitments@) == v.commitments
}

/// The first round commits to the images of the masks, and a verifier gets the commitments back from
/// the answers: the images of these, less the challenge times the statement.
pub proof fn law_first_round(
    ct: Ciphertext,
    bte_crs: BteCRS,
    ste_crs: SteCRS,
    ek: EncryptionKey,
    commitments: PedersenCommitments,
    chunks: Vec<Scalar>,
    s: [Scalar; 5],
    blinds: Vec<Scalar>,
    challenge: Scalar,
    a: SchnorrCommitments,
    b: SchnorrCommitments,
)
    requires
        call_ensures(
            map_values,
            (
                &bte_crs,
                &ste_crs,
                &ek,
                ct.pprf.point,
                ct.encrypted_key.t,
                &chunks,
                &s,
                &blinds,
            ),
            a,
        ),
        call_ensures(
            reconstruct_schnorr_commitments,
            (
                &challenge,
                &chunks,
                &s,
                &blinds,
                &ct,
                &bte_crs,
                &ste_crs,
                &ek,
                &commitments,
            ),
            b,
        ),
    ensures
        have_values(
            a,
            images(
                &bte_crs,
                &ste_crs,
                &ek,
                ct.pprf.point as int,
                ct.encrypted_key.t as int,
                vals(chunks@),
                vals(s@),
                vals(blinds@),
            ),
        ),
        have_values(
            b,
            minus_statement(
                images(
                    &bte_crs,
                    &ste_crs,
                    &ek,
                    ct.pprf.point as int,
                    ct.encrypted_key.t as int,
                    vals(chunks@),
                    vals(s@),
                    vals(blinds@),
                ),
                values_of(&ct, commitments.commitments@),
                challenge@,
            ),
        ),
{
    lemma_images(&ct, &bte_crs, &ste_crs, &ek, vals(chunks@), vals(s@), vals(blinds@));
    let m = schnorr_map(
        params_of(&ct, &bte_crs, &ste_crs, &ek),
        vals(chunks@),
        vals(s@),
        vals(blinds@),
    );
    let v = statement_values(&ct, commitments.commitments@);
    lemma_minus(m, v, challenge@);
    assert(v == values_of(&ct, commitments.commitments@));
    assert(a.values() == m);
    assert(b.values() == opened_values(m, v, challenge@));
}

} // verus!
