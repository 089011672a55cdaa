//! Laws of partial decryptions and their proofs.
use crate::algebra::congruence::{
    eqm, inverse_of, lemma_eqm_add, lemma_eqm_difference, lemma_eqm_mod, lemma_eqm_mul,
    lemma_eqm_reduced, lemma_eqm_sub, lemma_reduced, modulus,
};
use crate::algebra::primality::{lemma_no_zero_divisors, lemma_nonzero_is_unit};
use crate::algebra::sums::sum;
use crate::bte::encryption::Ciphertext as BteCiphertext;
use crate::field::{is_draw, le_value, lemma_scalar_range, Scalar};
use crate::group::{g1_compressed, lemma_g1_range, G1};
use crate::laws::transcripts::{
    codes_are_faithful, lemma_framed_binds, lemma_framed_length, lemma_said_binds, lemma_size_binds,
    lemma_size_length, said, same_shape,
};
use crate::ste::crs::CRS;
use crate::ste::encryption::Ciphertext;
use crate::ste::partial::{
    batch_transcript, ciphertext_transcript, encrypted_key_entries,
    lemma_partial_decryption_proof_accepted, lemma_secret_key_extracted,
    partial_decryption_transcript, PartialDecryption, PartialDecryptionProof,
};
use crate::ste::setup::{LagPublicKey, SecretKey};
use crate::transcript::{framed, g1_code, sha256, size_bytes, Encode};
use ark_std::rand::rngs::StdRng;
use vstd::prelude::*;
use vstd::string::StringSliceAdditionalSpecFns;

verus! {

/// The lines of the transcript of a proof for a partial decryption.
pub open spec fn partial_lines(
    pd: PartialDecryption,
    base: int,
    digest: Seq<u8>,
    pk: &LagPublicKey,
    crs: &CRS,
    a_pk: int,
    a_pd: int,
) -> Seq<(Seq<u8>, Seq<u8>)> {
    seq![
        ("crs_n".spec_bytes(), size_bytes(crs.n as int)),
        ("crs_l".spec_bytes(), size_bytes(crs.l as int)),
        ("public_generator".spec_bytes(), framed(g1_compressed(crs.gen_g@[0]@))),
        ("party_id".spec_bytes(), size_bytes(pk.id as int)),
        ("party_position".spec_bytes(), size_bytes(pk.position as int)),
        ("public_key".spec_bytes(), framed(g1_compressed(pk.bls_pk@[0]@))),
        ("partial_decryption_id".spec_bytes(), size_bytes(pd.id as int)),
        ("decryption_base".spec_bytes(), framed(g1_compressed(base))),
        ("partial_decryption".spec_bytes(), framed(g1_compressed(pd.pd@))),
        ("ciphertext_digest".spec_bytes(), framed(digest)),
        ("a_pk".spec_bytes(), framed(g1_compressed(a_pk))),
        ("a_pd".spec_bytes(), framed(g1_compressed(a_pd))),
    ]
}

/// The transcript of a proof for a partial decryption has these lines.
#[verifier::rlimit(40)]
pub proof fn law_partial_transcript(
    pd: PartialDecryption,
    base: int,
    digest: Seq<u8>,
    pk: &LagPublicKey,
    crs: &CRS,
    a_pk: int,
    a_pd: int,
)
    ensures
        partial_decryption_transcript(pd, base, digest, pk, crs, a_pk, a_pd) == said(
            "STE-PARTIAL-DECRYPTION-SCHNORR-V1".spec_bytes(),
            partial_lines(pd, base, digest, pk, crs, a_pk, a_pd),
        ),
{
    let d = "STE-PARTIAL-DECRYPTION-SCHNORR-V1".spec_bytes();
    let lines = partial_lines(pd, base, digest, pk, crs, a_pk, a_pd);
    lemma_said_prefix(d, lines, 12);
    lemma_said_prefix(d, lines, 11);
    lemma_said_prefix(d, lines, 10);
    lemma_said_prefix(d, lines, 9);
    lemma_said_prefix(d, lines, 8);
    lemma_said_prefix(d, lines, 7);
    lemma_said_prefix(d, lines, 6);
    lemma_said_prefix(d, lines, 5);
    lemma_said_prefix(d, lines, 4);
    lemma_said_prefix(d, lines, 3);
    lemma_said_prefix(d, lines, 2);
    lemma_said_prefix(d, lines, 1);
    assert(lines.subrange(0, 12) =~= lines);
    assert(lines.subrange(0, 0) =~= Seq::empty());
    assert(partial_decryption_transcript(pd, base, digest, pk, crs, a_pk, a_pd) =~= said(d, lines));
}

/// One line more.
pub proof fn lemma_said_prefix(d: Seq<u8>, lines: Seq<(Seq<u8>, Seq<u8>)>, n: int)
    requires
        0 < n <= lines.len(),
    ensures
        said(d, lines.subrange(0, n)) == said(d, lines.subrange(0, n - 1)) + (framed(
            lines[n - 1].0,
        ) + lines[n - 1].1),
{
    assert(lines.subrange(0, n).drop_last() =~= lines.subrange(0, n - 1));
}

/// The transcript determines what it speaks of: the statement, and both first-round commitments.
#[verifier::rlimit(40)]
pub proof fn law_partial_transcript_binds(
    pd: PartialDecryption,
    base: int,
    digest: Seq<u8>,
    pk: &LagPublicKey,
    crs: &CRS,
    a_pk: int,
    a_pd: int,
    pd2: PartialDecryption,
    base2: int,
    digest2: Seq<u8>,
    pk2: &LagPublicKey,
    crs2: &CRS,
    b_pk: int,
    b_pd: int,
)
    requires
        codes_are_faithful(),
        digest.len() == digest2.len(),
        0 <= base < modulus(),
        0 <= base2 < modulus(),
        0 <= a_pk < modulus(),
        0 <= a_pd < modulus(),
        0 <= b_pk < modulus(),
        0 <= b_pd < modulus(),
        partial_decryption_transcript(pd, base, digest, pk, crs, a_pk, a_pd)
            == partial_decryption_transcript(pd2, base2, digest2, pk2, crs2, b_pk, b_pd),
    ensures
        a_pk == b_pk,
        a_pd == b_pd,
        base == base2,
        digest == digest2,
        pd.id == pd2.id,
        pd.pd@ == pd2.pd@,
        pk.id == pk2.id,
        pk.position == pk2.position,
        pk.bls_pk@[0]@ == pk2.bls_pk@[0]@,
        crs.n == crs2.n,
        crs.l == crs2.l,
        crs.gen_g@[0]@ == crs2.gen_g@[0]@,
{
    broadcast use lemma_g1_range;

    let d = "STE-PARTIAL-DECRYPTION-SCHNORR-V1".spec_bytes();
    let x = partial_lines(pd, base, digest, pk, crs, a_pk, a_pd);
    let y = partial_lines(pd2, base2, digest2, pk2, crs2, b_pk, b_pd);
    law_partial_transcript(pd, base, digest, pk, crs, a_pk, a_pd);
    law_partial_transcript(pd2, base2, digest2, pk2, crs2, b_pk, b_pd);
    assert forall|n: int| #[trigger] size_bytes(n).len() == 8 by {
        lemma_size_length(n);
    }
    assert forall|s: Seq<u8>| #[trigger] framed(s).len() == 8 + s.len() by {
        lemma_framed_length(s);
    }
    assert(g1_code()(crs.gen_g@[0]@).len() == g1_code()(crs2.gen_g@[0]@).len());
    assert(g1_code()(pk.bls_pk@[0]@).len() == g1_code()(pk2.bls_pk@[0]@).len());
    assert(g1_code()(base).len() == g1_code()(base2).len());
    assert(g1_code()(pd.pd@).len() == g1_code()(pd2.pd@).len());
    assert(g1_code()(a_pk).len() == g1_code()(b_pk).len());
    assert(g1_code()(a_pd).len() == g1_code()(b_pd).len());
    assert(same_shape(x, y));
    lemma_said_binds(d, x, y);
    assert(x[0] == y[0] && x[1] == y[1] && x[2] == y[2] && x[3] == y[3] && x[4] == y[4] && x[5]
        == y[5] && x[6] == y[6] && x[7] == y[7] && x[8] == y[8] && x[9] == y[9] && x[10] == y[10]
        && x[11] == y[11]);
    lemma_size_binds(crs.n as int, crs2.n as int);
    lemma_size_binds(crs.l as int, crs2.l as int);
    lemma_size_binds(pk.id as int, pk2.id as int);
    lemma_size_binds(pk.position as int, pk2.position as int);
    lemma_size_binds(pd.id as int, pd2.id as int);
    lemma_framed_binds(g1_compressed(crs.gen_g@[0]@), g1_compressed(crs2.gen_g@[0]@));
    lemma_framed_binds(g1_compressed(pk.bls_pk@[0]@), g1_compressed(pk2.bls_pk@[0]@));
    lemma_framed_binds(g1_compressed(base), g1_compressed(base2));
    lemma_framed_binds(g1_compressed(pd.pd@), g1_compressed(pd2.pd@));
    lemma_framed_binds(digest, digest2);
    lemma_framed_binds(g1_compressed(a_pk), g1_compressed(b_pk));
    lemma_framed_binds(g1_compressed(a_pd), g1_compressed(b_pd));
}

/// What is hashed of a ciphertext.
pub open spec fn ciphertext_lines(ct: &Ciphertext) -> Seq<(Seq<u8>, Seq<u8>)> {
    seq![("ciphertext".spec_bytes(), framed(ct.encoding()))]
}

/// What is hashed of a ciphertext are these lines.
pub proof fn law_ciphertext_transcript(ct: &Ciphertext)
    ensures
        ciphertext_transcript(ct) == said(
            "STE-PARTIAL-DECRYPTION-CT-V1".spec_bytes(),
            ciphertext_lines(ct),
        ),
{
    let d = "STE-PARTIAL-DECRYPTION-CT-V1".spec_bytes();
    let lines = ciphertext_lines(ct);
    lemma_said_prefix(d, lines, 1);
    assert(lines.subrange(0, 1) =~= lines);
    assert(lines.subrange(0, 0) =~= Seq::empty());
    assert(ciphertext_transcript(ct) =~= said(d, lines));
}

/// What is hashed of a batch: the number of ciphertexts, and each encrypted key.
pub open spec fn batch_lines(cts: Seq<BteCiphertext>, n: int) -> Seq<(Seq<u8>, Seq<u8>)> {
    Seq::new(
        (n + 1) as nat,
        |i: int|
            if i == 0 {
                ("num_ciphertexts".spec_bytes(), size_bytes(cts.len() as int))
            } else {
                ("encrypted_key".spec_bytes(), framed(cts[i - 1].encrypted_key.encoding()))
            },
    )
}

proof fn lemma_batch_lines(cts: Seq<BteCiphertext>, n: int)
    requires
        0 <= n <= cts.len(),
    ensures
        framed("STE-BATCH-PARTIAL-DECRYPTION-CT-V1".spec_bytes()) + (framed(
            "num_ciphertexts".spec_bytes(),
        ) + size_bytes(cts.len() as int)) + encrypted_key_entries(cts, n) == said(
            "STE-BATCH-PARTIAL-DECRYPTION-CT-V1".spec_bytes(),
            batch_lines(cts, n),
        ),
    decreases n,
{
    let d = "STE-BATCH-PARTIAL-DECRYPTION-CT-V1".spec_bytes();
    let lines = batch_lines(cts, n);
    let head = framed(d) + (framed("num_ciphertexts".spec_bytes()) + size_bytes(cts.len() as int));
    assert(lines.last() == lines[n]);
    if n == 0 {
        assert(lines.drop_last() =~= Seq::empty());
        assert(said(d, Seq::empty()) == framed(d));
        assert(head + encrypted_key_entries(cts, 0) =~= head);
    } else {
        lemma_batch_lines(cts, n - 1);
        assert(lines.drop_last() =~= batch_lines(cts, n - 1));
        assert(head + encrypted_key_entries(cts, n) =~= head + encrypted_key_entries(cts, n - 1) + (
        framed(lines.last().0) + lines.last().1));
    }
}

/// What is hashed of a batch are these lines.
pub proof fn law_batch_transcript(cts: Seq<BteCiphertext>)
    ensures
        batch_transcript(cts) == said(
            "STE-BATCH-PARTIAL-DECRYPTION-CT-V1".spec_bytes(),
            batch_lines(cts, cts.len() as int),
        ),
{
    lemma_batch_lines(cts, cts.len() as int);
    let d = "STE-BATCH-PARTIAL-DECRYPTION-CT-V1".spec_bytes();
    assert(batch_transcript(cts) =~= framed(d) + (framed("num_ciphertexts".spec_bytes())
        + size_bytes(cts.len() as int)) + encrypted_key_entries(cts, cts.len() as int));
}

/// The scalar that the digest of a transcript stands for.
pub open spec fn hashed_scalar(transcript: Seq<u8>) -> int {
    le_value(sha256(transcript)) % modulus()
}

/// The equation that an accepted proof satisfies, for the given base and digest.
pub open spec fn recomputes(
    p: PartialDecryptionProof,
    pd: PartialDecryption,
    base: int,
    digest: Seq<u8>,
    pk: &LagPublicKey,
    crs: &CRS,
) -> bool {
    let c = p.challenge@;
    let z = p.z_sk@;
    c == hashed_scalar(
        said(
            "STE-PARTIAL-DECRYPTION-SCHNORR-V1".spec_bytes(),
            partial_lines(
                pd,
                base,
                digest,
                pk,
                crs,
                (crs.gen_g@[0]@ * z - pk.bls_pk@[0]@ * c) % modulus(),
                (base * z - pd.pd@ * c) % modulus(),
            ),
        ),
    )
}

/// A proof for one ciphertext is accepted exactly if the statement makes sense and the challenge is
/// recomputed from the response on both bases.
pub proof fn law_verify(
    p: PartialDecryptionProof,
    pd: PartialDecryption,
    ct: Ciphertext,
    pk: LagPublicKey,
    crs: CRS,
    ok: bool,
)
    requires
        call_ensures(PartialDecryptionProof::verify, (&p, &pd, &ct, &pk, &crs), ok),
    ensures
        ok == (pd.id == pk.id && pk.position < crs.n && crs.gen_g@.len() > 0 && pk.bls_pk@.len() > 0
            && recomputes(
            p,
            pd,
            ct.sa1@[1]@,
            sha256(said("STE-PARTIAL-DECRYPTION-CT-V1".spec_bytes(), ciphertext_lines(&ct))),
            &pk,
            &crs,
        )),
{
    let c = p.challenge@;
    let z = p.z_sk@;
    let base = ct.sa1@[1]@;
    law_ciphertext_transcript(&ct);
    law_partial_transcript(
        pd,
        base,
        sha256(ciphertext_transcript(&ct)),
        &pk,
        &crs,
        (crs.gen_g@[0]@ * z - pk.bls_pk@[0]@ * c) % modulus(),
        (base * z - pd.pd@ * c) % modulus(),
    );
}

/// The same for a batch, whose base is the sum of those of its ciphertexts.
pub proof fn law_verify_batch(
    p: PartialDecryptionProof,
    pd: PartialDecryption,
    cts: &[BteCiphertext],
    pk: LagPublicKey,
    crs: CRS,
    ok: bool,
)
    requires
        call_ensures(PartialDecryptionProof::verify_batch, (&p, &pd, cts, &pk, &crs), ok),
    ensures
        ok == (cts@.len() > 0 && pd.id == pk.id && pk.position < crs.n && crs.gen_g@.len() > 0
            && pk.bls_pk@.len() > 0 && recomputes(
            p,
            pd,
            sum(cts@.len() as int, |j: int| cts@[j].encrypted_key.sa1@[1]@) % modulus(),
            sha256(
                said(
                    "STE-BATCH-PARTIAL-DECRYPTION-CT-V1".spec_bytes(),
                    batch_lines(cts@, cts@.len() as int),
                ),
            ),
            &pk,
            &crs,
        )),
{
    let c = p.challenge@;
    let z = p.z_sk@;
    let f = |j: int| cts@[j].encrypted_key.sa1@[1]@;
    let g = crate::bte::decryption::sa1_terms(cts@, 1);
    crate::algebra::sums::lemma_sum_eq(cts@.len() as int, f, g);
    let base = sum(cts@.len() as int, f) % modulus();
    law_batch_transcript(cts@);
    law_partial_transcript(
        pd,
        base,
        sha256(batch_transcript(cts@)),
        &pk,
        &crs,
        (crs.gen_g@[0]@ * z - pk.bls_pk@[0]@ * c) % modulus(),
        (base * z - pd.pd@ * c) % modulus(),
    );
}

/// A party contributes the base of the ciphertext, times its key.
pub proof fn law_partial_decryption(key: SecretKey, ct: Ciphertext, res: PartialDecryption)
    requires
        call_ensures(SecretKey::partial_decryption, (&key, &ct), res),
    ensures
        res.id == key.id,
        res.pd@ == (ct.sa1@[1]@ * key.sk@) % modulus(),
{
}

/// For a batch, it contributes the sum of the bases, times its key.
pub proof fn law_batch_partial_decryption(
    key: SecretKey,
    cts: Vec<BteCiphertext>,
    res: PartialDecryption,
)
    requires
        call_ensures(SecretKey::batch_partial_decryption, (&key, &cts), res),
    ensures
        res.id == key.id,
        eqm(
            res.pd@,
            sum(cts@.len() as int, |j: int| cts@[j].encrypted_key.sa1@[1]@) * key.sk@,
        ),
{
    let f = |j: int| cts@[j].encrypted_key.sa1@[1]@;
    let g = crate::bte::decryption::sa1_terms(cts@, 1);
    let n = cts@.len() as int;
    crate::algebra::sums::lemma_sum_eq(n, f, g);
    lemma_eqm_mod(sum(n, f));
    lemma_eqm_mul(sum(n, f) % modulus(), sum(n, f), key.sk@, key.sk@);
    lemma_eqm_mod((sum(n, f) % modulus()) * key.sk@);
}

/// What a party contributes with a proof is what it contributes without one, and the proof is accepted
/// if the public key is the party's. The mask of the proof is what the generator yields next.
pub proof fn law_proved_contribution(
    key: SecretKey,
    ct: Ciphertext,
    pk: LagPublicKey,
    crs: CRS,
    rng: &mut StdRng,
    res: (PartialDecryption, PartialDecryptionProof),
    ok: bool,
)
    requires
        key.id == pk.id,
        pk.position < crs.n,
        crs.gen_g@.len() > 0,
        pk.bls_pk@.len() > 0,
        pk.bls_pk@[0]@ == (crs.gen_g@[0]@ * key.sk@) % modulus(),
        call_ensures(
            SecretKey::partial_decryption_with_proof,
            (&key, &ct, &pk, &crs, rng),
            res,
        ),
        call_ensures(PartialDecryptionProof::verify, (&res.1, &res.0, &ct, &pk, &crs), ok),
    ensures
        ok,
        res.0.id == key.id,
        res.0.pd@ == (ct.sa1@[1]@ * key.sk@) % modulus(),
        exists|r: Scalar| #[trigger]
            is_draw(*old(rng), *final(rng), r) && res.1.z_sk@ == (r@ + (res.1.challenge@ * key.sk@)
                % modulus()) % modulus(),
{
    let r = choose|r: Scalar| #[trigger]
        is_draw(*old(rng), *final(rng), r) && res.1.is_made(
            key.sk@,
            r@,
            res.0,
            ct.sa1@[1]@,
            crate::ste::partial::ciphertext_digest(&ct),
            &pk,
            &crs,
        );
    lemma_partial_decryption_proof_accepted(
        res.1,
        key,
        r@,
        res.0,
        ct.sa1@[1]@,
        crate::ste::partial::ciphertext_digest(&ct),
        &pk,
        &crs,
    );
}

/// The same for a batch.
pub proof fn law_proved_batch_contribution(
    key: SecretKey,
    cts: &[BteCiphertext],
    pk: LagPublicKey,
    crs: CRS,
    rng: &mut StdRng,
    res: (PartialDecryption, PartialDecryptionProof),
    ok: bool,
)
    requires
        cts@.len() > 0,
        key.id == pk.id,
        pk.position < crs.n,
        crs.gen_g@.len() > 0,
        pk.bls_pk@.len() > 0,
        pk.bls_pk@[0]@ == (crs.gen_g@[0]@ * key.sk@) % modulus(),
        call_ensures(
            SecretKey::batch_partial_decryption_with_proof,
            (&key, cts, &pk, &crs, rng),
            res,
        ),
        call_ensures(PartialDecryptionProof::verify_batch, (&res.1, &res.0, cts, &pk, &crs), ok),
    ensures
        ok,
        res.0.id == key.id,
        eqm(
            res.0.pd@,
            sum(cts@.len() as int, |j: int| cts@[j].encrypted_key.sa1@[1]@) * key.sk@,
        ),
        exists|r: Scalar| #[trigger]
            is_draw(*old(rng), *final(rng), r) && res.1.z_sk@ == (r@ + (res.1.challenge@ * key.sk@)
                % modulus()) % modulus(),
{
    let base = crate::ste::partial::batch_base(cts@);
    let r = choose|r: Scalar| #[trigger]
        is_draw(*old(rng), *final(rng), r) && res.1.is_made(
            key.sk@,
            r@,
            res.0,
            base,
            crate::ste::partial::batch_digest(cts@),
            &pk,
            &crs,
        );
    lemma_partial_decryption_proof_accepted(
        res.1,
        key,
        r@,
        res.0,
        base,
        crate::ste::partial::batch_digest(cts@),
        &pk,
        &crs,
    );
    let f = |j: int| cts@[j].encrypted_key.sa1@[1]@;
    let g = crate::bte::decryption::sa1_terms(cts@, 1);
    let n = cts@.len() as int;
    crate::algebra::sums::lemma_sum_eq(n, f, g);
    lemma_eqm_mod(sum(n, f));
    lemma_eqm_mul(sum(n, f) % modulus(), sum(n, f), key.sk@, key.sk@);
    lemma_eqm_mod((sum(n, f) % modulus()) * key.sk@);
}

/// Whether the same key leads from one base to one value and from another to another.
pub open spec fn is_behind(sk: int, g: int, pk: int, base: int, pd: int) -> bool {
    0 <= sk < modulus() && pk == (g * sk) % modulus() && pd == (base * sk) % modulus()
}

/// Two accepted proofs for one contribution, with different challenges for the same first-round
/// commitments, show that one key is behind the public key and behind the contribution.
pub proof fn law_accepted_twice(
    p: PartialDecryptionProof,
    q: PartialDecryptionProof,
    pd: PartialDecryption,
    ct: Ciphertext,
    ct2: Ciphertext,
    pk: LagPublicKey,
    crs: CRS,
)
    requires
        codes_are_faithful(),
        call_ensures(PartialDecryptionProof::verify, (&p, &pd, &ct, &pk, &crs), true),
        call_ensures(PartialDecryptionProof::verify, (&q, &pd, &ct2, &pk, &crs), true),
        ct.sa1@[1]@ == ct2.sa1@[1]@,
        p.challenge@ != q.challenge@,
        (crs.gen_g@[0]@ * p.z_sk@ - pk.bls_pk@[0]@ * p.challenge@) % modulus() == (crs.gen_g@[0]@
            * q.z_sk@ - pk.bls_pk@[0]@ * q.challenge@) % modulus(),
        (ct.sa1@[1]@ * p.z_sk@ - pd.pd@ * p.challenge@) % modulus() == (ct.sa1@[1]@ * q.z_sk@
            - pd.pd@ * q.challenge@) % modulus(),
    ensures
        pd.id == pk.id,
        exists|sk: int| #[trigger]
            is_behind(sk, crs.gen_g@[0]@, pk.bls_pk@[0]@, ct.sa1@[1]@, pd.pd@),
{
    let c = p.challenge@;
    let d = q.challenge@;
    lemma_scalar_range(p.challenge);
    lemma_scalar_range(q.challenge);
    if eqm(c, d) {
        lemma_eqm_reduced(c, d);
    }
    lemma_eqm_difference(c, d);
    lemma_nonzero_is_unit(c - d);
    let e = c - d;
    let inverse = choose|w: int| inverse_of(e, w);
    lemma_secret_key_extracted(pd, ct.sa1@[1]@, &pk, &crs, p, q, inverse);
    let sk = ((p.z_sk@ - q.z_sk@) * inverse) % modulus();
    lemma_eqm_mod((p.z_sk@ - q.z_sk@) * inverse);
    assert(is_behind(sk, crs.gen_g@[0]@, pk.bls_pk@[0]@, ct.sa1@[1]@, pd.pd@));
}

/// A proof that is made in the usual way for a wrong contribution is accepted only if two different
/// transcripts lead to the same challenge.
pub proof fn law_wrong_contribution_needs_collision(
    key: SecretKey,
    pd: PartialDecryption,
    ct: Ciphertext,
    digest: [u8; 32],
    pk: LagPublicKey,
    crs: CRS,
    r: Scalar,
    p: PartialDecryptionProof,
    ok: bool,
)
    requires
        codes_are_faithful(),
        key.id == pk.id,
        pk.bls_pk@[0]@ == (crs.gen_g@[0]@ * key.sk@) % modulus(),
        pd.pd@ != (ct.sa1@[1]@ * key.sk@) % modulus(),
        digest@ == sha256(
            said("STE-PARTIAL-DECRYPTION-CT-V1".spec_bytes(), ciphertext_lines(&ct)),
        ),
        call_ensures(
            SecretKey::partial_decryption_proof_for_base,
            (&key, &pd, &ct.sa1@[1], &digest, &pk, &crs, &r),
            p,
        ),
        p.challenge@ != 0,
        call_ensures(PartialDecryptionProof::verify, (&p, &pd, &ct, &pk, &crs), ok),
        ok,
    ensures
        exists|a: Seq<u8>, b: Seq<u8>|
            a != b && #[trigger] hashed_scalar(a) == #[trigger] hashed_scalar(b),
{
    let c = p.challenge@;
    let z = p.z_sk@;
    let base = ct.sa1@[1]@;
    let g = crs.gen_g@[0]@;
    let made = partial_decryption_transcript(
        pd,
        base,
        digest@,
        &pk,
        &crs,
        (g * r@) % modulus(),
        (base * r@) % modulus(),
    );
    let a_pk = (g * z - pk.bls_pk@[0]@ * c) % modulus();
    let a_pd = (base * z - pd.pd@ * c) % modulus();
    let opened = partial_decryption_transcript(pd, base, digest@, &pk, &crs, a_pk, a_pd);
    law_verify(p, pd, ct, pk, crs, ok);
    law_partial_transcript(pd, base, digest@, &pk, &crs, a_pk, a_pd);
    assert(hashed_scalar(made) == hashed_scalar(opened));
    if made == opened {
        lemma_g1_range(ct.sa1@[1]);
        lemma_g1_range(pd.pd);
        lemma_eqm_mod(g * r@);
        lemma_eqm_mod(base * r@);
        lemma_eqm_mod(g * z - pk.bls_pk@[0]@ * c);
        lemma_eqm_mod(base * z - pd.pd@ * c);
        law_partial_transcript_binds(
            pd,
            base,
            digest@,
            &pk,
            &crs,
            (g * r@) % modulus(),
            (base * r@) % modulus(),
            pd,
            base,
            digest@,
            &pk,
            &crs,
            a_pk,
            a_pd,
        );
        // base * r is congruent to base * z - pd * c, and z to r + c * sk.
        let sk = key.sk@;
        lemma_eqm_mod(c * sk);
        lemma_eqm_add(r@, r@, (c * sk) % modulus(), c * sk);
        lemma_eqm_mod(r@ + (c * sk) % modulus());
        lemma_eqm_mul(base, base, z, r@ + c * sk);
        let x = pd.pd@;
        lemma_eqm_sub(base * z, base * (r@ + c * sk), x * c, x * c);
        let rr = r@;
        assert(base * (rr + c * sk) == base * rr + c * (base * sk)) by (nonlinear_arith);
        let y = base * sk;
        lemma_eqm_sub(base * rr + c * y - x * c, base * rr, base * rr, base * rr);
        assert(c * (y - x) == c * y - x * c) by (nonlinear_arith);
        assert(eqm(c * (y - x), 0));
        lemma_no_zero_divisors(c, y - x);
        lemma_scalar_range(p.challenge);
        if eqm(c, 0) {
            lemma_reduced(0);
            lemma_eqm_reduced(c, 0);
        }
        lemma_eqm_difference(y, x);
        lemma_eqm_mod(y);
        lemma_eqm_reduced(x, y % modulus());
    }
}

/// A proof for a base answers the hash of the statement and of the mask on both bases with the mask plus
/// the challenge times the key.
pub proof fn law_proof_for_base(
    key: SecretKey,
    pd: PartialDecryption,
    base: G1,
    digest: [u8; 32],
    pk: LagPublicKey,
    crs: CRS,
    r: Scalar,
    p: PartialDecryptionProof,
)
    requires
        call_ensures(
            SecretKey::partial_decryption_proof_for_base,
            (&key, &pd, &base, &digest, &pk, &crs, &r),
            p,
        ),
    ensures
        p.challenge@ == hashed_scalar(
            said(
                "STE-PARTIAL-DECRYPTION-SCHNORR-V1".spec_bytes(),
                partial_lines(
                    pd,
                    base@,
                    digest@,
                    &pk,
                    &crs,
                    (crs.gen_g@[0]@ * r@) % modulus(),
                    (base@ * r@) % modulus(),
                ),
            ),
        ),
        eqm(p.z_sk@, r@ + p.challenge@ * key.sk@),
{
    law_partial_transcript(
        pd,
        base@,
        digest@,
        &pk,
        &crs,
        (crs.gen_g@[0]@ * r@) % modulus(),
        (base@ * r@) % modulus(),
    );
    let x = p.challenge@ * key.sk@;
    lemma_eqm_mod(x);
    lemma_eqm_add(r@, r@, x % modulus(), x);
    lemma_eqm_mod(r@ + x % modulus());
}

/// A party that did not respond contributes nothing.
pub proof fn law_no_contribution(pd: PartialDecryption)
    requires
        call_ensures(PartialDecryption::zero, (), pd),
    ensures
        pd.id == 0,
        pd.pd@ == 0,
{
}

} // verus!
