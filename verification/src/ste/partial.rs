//! Partial decryptions, and proofs that they were made with the secret key of a party.
use crate::algebra::congruence::{
    eqm, inverse_of, lemma_eqm_add, lemma_eqm_mod, lemma_eqm_mul, lemma_eqm_reduced, lemma_eqm_sub,
    lemma_reduced, modulus,
};
use crate::algebra::sums::sum;
use crate::bte::decryption::{is_sum_of, sa1_terms};
use crate::bte::encryption::Ciphertext as BteCiphertext;
use crate::field::{is_draw, Scalar};
use crate::group::{g1_compressed, lemma_g1_range, G1};
use crate::ste::crs::CRS;
use crate::ste::encryption::Ciphertext;
use crate::ste::setup::{LagPublicKey, SecretKey};
use crate::transcript::{bytes_entry, challenge_of, framed, sha256, size_entry, Encode, Transcript};
use ark_std::rand::rngs::StdRng;
use vstd::prelude::*;
use vstd::string::StringSliceAdditionalSpecFns;

verus! {

/// What a party contributes to a decryption.
#[derive(Clone, Copy, Debug, PartialEq)]
pub struct PartialDecryption {
    /// The id of the party.
    pub id: usize,
    pub pd: G1,
}

impl PartialDecryption {
    /// The contribution of a party that did not respond.
    pub fn zero() -> (res: PartialDecryption)
        ensures
            res.id == 0,
            res.pd@ == 0,
    {
        PartialDecryption { id: 0, pd: G1::zero() }
    }
}

/// A proof that a partial decryption was made with the secret key behind a public key.
#[derive(Clone, Copy, Debug, PartialEq)]
pub struct PartialDecryptionProof {
    /// The challenge. The commitments that it was drawn from follow from the statement and the
    /// response.
    pub challenge: Scalar,
    /// The response: the mask plus the challenge times the secret key.
    pub z_sk: Scalar,
}

/// The first-round commitments: the mask on the two bases of the statement.
struct PartialDecryptionCommitments {
    a_pk: G1,
    a_pd: G1,
}

/// What is hashed of a ciphertext.
pub open spec fn ciphertext_transcript(ct: &Ciphertext) -> Seq<u8> {
    framed("STE-PARTIAL-DECRYPTION-CT-V1".spec_bytes()) + bytes_entry(
        "ciphertext".spec_bytes(),
        ct.encoding(),
    )
}

/// The digest of a ciphertext.
pub open spec fn ciphertext_digest(ct: &Ciphertext) -> Seq<u8> {
    sha256(ciphertext_transcript(ct))
}

/// What the transcript of a batch says of its first `n` encrypted keys.
pub open spec fn encrypted_key_entries(cts: Seq<BteCiphertext>, n: int) -> Seq<u8>
    decreases n,
{
    if n <= 0 {
        Seq::empty()
    } else {
        encrypted_key_entries(cts, n - 1) + bytes_entry(
            "encrypted_key".spec_bytes(),
            cts[n - 1].encrypted_key.encoding(),
        )
    }
}

/// What is hashed of the encrypted keys of a batch.
pub open spec fn batch_transcript(cts: Seq<BteCiphertext>) -> Seq<u8> {
    framed("STE-BATCH-PARTIAL-DECRYPTION-CT-V1".spec_bytes()) + size_entry(
        "num_ciphertexts".spec_bytes(),
        cts.len() as int,
    ) + encrypted_key_entries(cts, cts.len() as int)
}

/// The digest of the encrypted keys of a batch.
pub open spec fn batch_digest(cts: Seq<BteCiphertext>) -> Seq<u8> {
    sha256(batch_transcript(cts))
}

/// The base of the partial decryption of a batch: the sum of those of its ciphertexts.
pub open spec fn batch_base(cts: Seq<BteCiphertext>) -> int {
    sum(cts.len() as int, sa1_terms(cts, 1)) % modulus()
}

/// What is said before the challenge of a proof for a partial decryption.
pub open spec fn partial_decryption_transcript(
    partial_decryption: PartialDecryption,
    base: int,
    digest: Seq<u8>,
    public_key: &LagPublicKey,
    crs: &CRS,
    a_pk: int,
    a_pd: int,
) -> Seq<u8> {
    framed("STE-PARTIAL-DECRYPTION-SCHNORR-V1".spec_bytes()) + size_entry(
        "crs_n".spec_bytes(),
        crs.n as int,
    ) + size_entry("crs_l".spec_bytes(), crs.l as int) + bytes_entry(
        "public_generator".spec_bytes(),
        g1_compressed(crs.gen_g@[0]@),
    ) + size_entry("party_id".spec_bytes(), public_key.id as int) + size_entry(
        "party_position".spec_bytes(),
        public_key.position as int,
    ) + bytes_entry("public_key".spec_bytes(), g1_compressed(public_key.bls_pk@[0]@))
        + size_entry("partial_decryption_id".spec_bytes(), partial_decryption.id as int)
        + bytes_entry("decryption_base".spec_bytes(), g1_compressed(base)) + bytes_entry(
        "partial_decryption".spec_bytes(),
        g1_compressed(partial_decryption.pd@),
    ) + bytes_entry("ciphertext_digest".spec_bytes(), digest) + bytes_entry(
        "a_pk".spec_bytes(),
        g1_compressed(a_pk),
    ) + bytes_entry("a_pd".spec_bytes(), g1_compressed(a_pd))
}

/// The challenge for a statement and the commitments of the first round.
pub open spec fn partial_decryption_challenge_value(
    partial_decryption: PartialDecryption,
    base: int,
    digest: Seq<u8>,
    public_key: &LagPublicKey,
    crs: &CRS,
    a_pk: int,
    a_pd: int,
) -> int {
    challenge_of(partial_decryption_transcript(
        partial_decryption,
        base,
        digest,
        public_key,
        crs,
        a_pk,
        a_pd,
    ))
}

/// Whether a statement about a partial decryption makes sense.
pub open spec fn is_valid_statement(
    partial_decryption: PartialDecryption,
    public_key: &LagPublicKey,
    crs: &CRS,
) -> bool {
    &&& partial_decryption.id == public_key.id
    &&& public_key.position < crs.n
    &&& crs.gen_g@.len() > 0
    &&& public_key.bls_pk@.len() > 0
}

/// What is left of a base times the response without the challenge times the public value.
pub open spec fn opened(base: int, z: int, value: int, c: int) -> int {
    (base * z - value * c) % modulus()
}

impl PartialDecryptionProof {
    /// Whether the proof is accepted for a base and a digest.
    pub open spec fn is_accepted(
        &self,
        partial_decryption: PartialDecryption,
        base: int,
        digest: Seq<u8>,
        public_key: &LagPublicKey,
        crs: &CRS,
    ) -> bool {
        &&& is_valid_statement(partial_decryption, public_key, crs)
        &&& self.challenge@ == partial_decryption_challenge_value(
            partial_decryption,
            base,
            digest,
            public_key,
            crs,
            opened(crs.gen_g@[0]@, self.z_sk@, public_key.bls_pk@[0]@, self.challenge@),
            opened(base, self.z_sk@, partial_decryption.pd@, self.challenge@),
        )
    }

    /// Whether the proof is the one that a secret key and a mask lead to.
    pub open spec fn is_made(
        &self,
        sk: int,
        r: int,
        partial_decryption: PartialDecryption,
        base: int,
        digest: Seq<u8>,
        public_key: &LagPublicKey,
        crs: &CRS,
    ) -> bool {
        &&& self.challenge@ == partial_decryption_challenge_value(
            partial_decryption,
            base,
            digest,
            public_key,
            crs,
            (crs.gen_g@[0]@ * r) % modulus(),
            (base * r) % modulus(),
        )
        &&& self.z_sk@ == (r + (self.challenge@ * sk) % modulus()) % modulus()
    }

    /// Checks the proof for a partial decryption of one ciphertext.
    pub fn verify(
        &self,
        partial_decryption: &PartialDecryption,
        ct: &Ciphertext,
        public_key: &LagPublicKey,
        crs: &CRS,
    ) -> (res: bool)
        ensures
            res == self.is_accepted(
                *partial_decryption,
                ct.sa1@[1]@,
                ciphertext_digest(ct),
                public_key,
                crs,
            ),
    {
        let digest = partial_decryption_ciphertext_digest(ct);
        self.verify_for_base(partial_decryption, &ct.sa1[1], &digest, public_key, crs)
    }

    /// Checks the proof for a partial decryption of a batch, which must not be empty.
    pub fn verify_batch(
        &self,
        partial_decryption: &PartialDecryption,
        cts: &[BteCiphertext],
        public_key: &LagPublicKey,
        crs: &CRS,
    ) -> (res: bool)
        ensures
            res == (cts@.len() > 0 && self.is_accepted(
                *partial_decryption,
                batch_base(cts@),
                batch_digest(cts@),
                public_key,
                crs,
            )),
    {
        if cts.len() == 0 {
            return false;
        }
        let digest = batch_partial_decryption_ciphertext_digest(cts);
        let base = batch_partial_decryption_base(cts);
        self.verify_for_base(partial_decryption, &base, &digest, public_key, crs)
    }

    fn verify_for_base(
        &self,
        partial_decryption: &PartialDecryption,
        decryption_base: &G1,
        ciphertext_digest: &[u8; 32],
        public_key: &LagPublicKey,
        crs: &CRS,
    ) -> (res: bool)
        ensures
            res == self.is_accepted(
                *partial_decryption,
                decryption_base@,
                ciphertext_digest@,
                public_key,
                crs,
            ),
    {
        if !valid_partial_decryption_statement(partial_decryption, public_key, crs) {
            return false;
        }
        let commitments = PartialDecryptionCommitments {
            a_pk: open_commitment(
                &crs.gen_g[0],
                &self.z_sk,
                &public_key.bls_pk[0],
                &self.challenge,
            ),
            a_pd: open_commitment(
                decryption_base,
                &self.z_sk,
                &partial_decryption.pd,
                &self.challenge,
            ),
        };
        let challenge = partial_decryption_challenge(
            partial_decryption,
            decryption_base,
            ciphertext_digest,
            public_key,
            crs,
            &commitments,
        );
        challenge.equals(&self.challenge)
    }
}

/// A first-round commitment, from the response.
fn open_commitment(base: &G1, z: &Scalar, value: &G1, c: &Scalar) -> (res: G1)
    ensures
        res@ == opened(base@, z@, value@, c@),
{
    let res = base.mul(z).sub(&value.mul(c));
    proof {
        lemma_eqm_mod(base@ * z@);
        lemma_eqm_mod(value@ * c@);
        lemma_eqm_sub(
            (base@ * z@) % modulus(),
            base@ * z@,
            (value@ * c@) % modulus(),
            value@ * c@,
        );
    }
    res
}

fn valid_partial_decryption_statement(
    partial_decryption: &PartialDecryption,
    public_key: &LagPublicKey,
    crs: &CRS,
) -> (res: bool)
    ensures
        res == is_valid_statement(*partial_decryption, public_key, crs),
{
    partial_decryption.id == public_key.id && public_key.position < crs.n && crs.gen_g.len() > 0
        && public_key.bls_pk.len() > 0
}

fn batch_partial_decryption_base(cts: &[BteCiphertext]) -> (res: G1)
    ensures
        res@ == batch_base(cts@),
{
    let mut res = G1::zero();
    let ghost f = sa1_terms(cts@, 1);
    let mut i: usize = 0;
    while i < cts.len()
        invariant
            0 <= i <= cts@.len(),
            f == sa1_terms(cts@, 1),
            eqm(res@, sum(i as int, f)),
        decreases cts@.len() - i,
    {
        let term = cts[i].encrypted_key.sa1[1];
        proof {
            lemma_eqm_add(res@, sum(i as int, f), term@, f(i as int));
            lemma_eqm_mod(res@ + term@);
        }
        res = res.add(&term);
        i += 1;
    }
    proof {
        lemma_g1_range(res);
        lemma_reduced(res@);
    }
    res
}

fn partial_decryption_ciphertext_digest(ct: &Ciphertext) -> (res: [u8; 32])
    ensures
        res@ == ciphertext_digest(ct),
{
    let mut transcript = Transcript::new("STE-PARTIAL-DECRYPTION-CT-V1");
    transcript.append_serializable("ciphertext", ct);
    transcript.finalize()
}

fn batch_partial_decryption_ciphertext_digest(cts: &[BteCiphertext]) -> (res: [u8; 32])
    ensures
        res@ == batch_digest(cts@),
{
    let mut transcript = Transcript::new("STE-BATCH-PARTIAL-DECRYPTION-CT-V1");
    transcript.append_usize("num_ciphertexts", cts.len());
    let ghost start = transcript@;
    let mut i: usize = 0;
    assert(transcript@ =~= start + encrypted_key_entries(cts@, 0));
    while i < cts.len()
        invariant
            0 <= i <= cts@.len(),
            transcript@ == start + encrypted_key_entries(cts@, i as int),
        decreases cts@.len() - i,
    {
        transcript.append_serializable("encrypted_key", &cts[i].encrypted_key);
        assert(transcript@ =~= start + encrypted_key_entries(cts@, i + 1));
        i += 1;
    }
    transcript.finalize()
}

fn partial_decryption_challenge(
    partial_decryption: &PartialDecryption,
    decryption_base: &G1,
    ciphertext_digest: &[u8; 32],
    public_key: &LagPublicKey,
    crs: &CRS,
    commitments: &PartialDecryptionCommitments,
) -> (res: Scalar)
    requires
        crs.gen_g@.len() > 0,
        public_key.bls_pk@.len() > 0,
    ensures
        res@ == partial_decryption_challenge_value(
            *partial_decryption,
            decryption_base@,
            ciphertext_digest@,
            public_key,
            crs,
            commitments.a_pk@,
            commitments.a_pd@,
        ),
{
    let mut transcript = Transcript::new("STE-PARTIAL-DECRYPTION-SCHNORR-V1");
    transcript.append_usize("crs_n", crs.n);
    transcript.append_usize("crs_l", crs.l);
    transcript.append_serializable("public_generator", &crs.gen_g[0]);
    transcript.append_usize("party_id", public_key.id);
    transcript.append_usize("party_position", public_key.position);
    transcript.append_serializable("public_key", &public_key.bls_pk[0]);
    transcript.append_usize("partial_decryption_id", partial_decryption.id);
    transcript.append_serializable("decryption_base", decryption_base);
    transcript.append_serializable("partial_decryption", &partial_decryption.pd);
    transcript.append_bytes("ciphertext_digest", ciphertext_digest.as_slice());
    transcript.append_serializable("a_pk", &commitments.a_pk);
    transcript.append_serializable("a_pd", &commitments.a_pd);
    transcript.challenge()
}

impl SecretKey {
    /// Whether the partial decryption is that of this key for a base.
    pub open spec fn decrypts(&self, partial_decryption: PartialDecryption, base: int) -> bool {
        &&& partial_decryption.id == self.id
        &&& partial_decryption.pd@ == (base * self.sk@) % modulus()
    }

    /// The contribution of this party to the decryption of a ciphertext.
    pub fn partial_decryption(&self, ct: &Ciphertext) -> (res: PartialDecryption)
        ensures
            self.decrypts(res, ct.sa1@[1]@),
    {
        PartialDecryption { id: self.id, pd: ct.sa1[1].mul(&self.sk) }
    }

    /// The same, with a proof.
    pub fn partial_decryption_with_proof(
        &self,
        ct: &Ciphertext,
        public_key: &LagPublicKey,
        crs: &CRS,
        rng: &mut StdRng,
    ) -> (res: (PartialDecryption, PartialDecryptionProof))
        requires
            self.id == public_key.id,
            public_key.position < crs.n,
            crs.gen_g@.len() > 0,
            public_key.bls_pk@.len() > 0,
        ensures
            self.decrypts(res.0, ct.sa1@[1]@),
            exists|r: Scalar| #[trigger]
                is_draw(*old(rng), *final(rng), r) && res.1.is_made(
                    self.sk@,
                    r@,
                    res.0,
                    ct.sa1@[1]@,
                    ciphertext_digest(ct),
                    public_key,
                    crs,
                ),
    {
        let partial_decryption = self.partial_decryption(ct);
        let digest = partial_decryption_ciphertext_digest(ct);
        let r = Scalar::random(rng);
        let pd_proof = self.partial_decryption_proof_for_base(
            &partial_decryption,
            &ct.sa1[1],
            &digest,
            public_key,
            crs,
            &r,
        );
        let res = (partial_decryption, pd_proof);
        assert(res.1.is_made(
            self.sk@,
            r@,
            res.0,
            ct.sa1@[1]@,
            ciphertext_digest(ct),
            public_key,
            crs,
        ));
        res
    }

    /// The contribution of this party to the decryption of a batch.
    pub fn batch_partial_decryption(&self, ct: &Vec<BteCiphertext>) -> (res: PartialDecryption)
        ensures
            self.decrypts(res, batch_base(ct@)),
    {
        let base = batch_partial_decryption_base(ct.as_slice());
        PartialDecryption { id: self.id, pd: base.mul(&self.sk) }
    }

    /// The same, with a proof, for a batch that is not empty.
    pub fn batch_partial_decryption_with_proof(
        &self,
        ct: &[BteCiphertext],
        public_key: &LagPublicKey,
        crs: &CRS,
        rng: &mut StdRng,
    ) -> (res: (PartialDecryption, PartialDecryptionProof))
        requires
            ct@.len() > 0,
            self.id == public_key.id,
            public_key.position < crs.n,
            crs.gen_g@.len() > 0,
            public_key.bls_pk@.len() > 0,
        ensures
            self.decrypts(res.0, batch_base(ct@)),
            exists|r: Scalar| #[trigger]
                is_draw(*old(rng), *final(rng), r) && res.1.is_made(
                    self.sk@,
                    r@,
                    res.0,
                    batch_base(ct@),
                    batch_digest(ct@),
                    public_key,
                    crs,
                ),
    {
        let base = batch_partial_decryption_base(ct);
        let partial_decryption = PartialDecryption { id: self.id, pd: base.mul(&self.sk) };
        let digest = batch_partial_decryption_ciphertext_digest(ct);
        let r = Scalar::random(rng);
        let pd_proof = self.partial_decryption_proof_for_base(
            &partial_decryption,
            &base,
            &digest,
            public_key,
            crs,
            &r,
        );
        let res = (partial_decryption, pd_proof);
        assert(res.1.is_made(
            self.sk@,
            r@,
            res.0,
            batch_base(ct@),
            batch_digest(ct@),
            public_key,
            crs,
        ));
        res
    }

    /// The proof for a partial decryption with a given mask.
    pub fn partial_decryption_proof_for_base(
        &self,
        partial_decryption: &PartialDecryption,
        decryption_base: &G1,
        ciphertext_digest: &[u8; 32],
        public_key: &LagPublicKey,
        crs: &CRS,
        r: &Scalar,
    ) -> (res: PartialDecryptionProof)
        requires
            self.id == public_key.id,
            is_valid_statement(*partial_decryption, public_key, crs),
        ensures
            res.is_made(
                self.sk@,
                r@,
                *partial_decryption,
                decryption_base@,
                ciphertext_digest@,
                public_key,
                crs,
            ),
    {
        let commitments = PartialDecryptionCommitments {
            a_pk: crs.gen_g[0].mul(r),
            a_pd: decryption_base.mul(r),
        };
        let challenge = partial_decryption_challenge(
            partial_decryption,
            decryption_base,
            ciphertext_digest,
            public_key,
            crs,
            &commitments,
        );
        let z_sk = r.add(&challenge.mul(&self.sk));
        PartialDecryptionProof { challenge, z_sk }
    }
}

/// The response opens the commitment: what the challenge adds is what the public value takes away.
pub proof fn lemma_response_opens(base: int, w: int, r: int, c: int, z: int, value: int)
    requires
        z == (r + (c * w) % modulus()) % modulus(),
        value == (base * w) % modulus(),
    ensures
        opened(base, z, value, c) == (base * r) % modulus(),
{
    lemma_eqm_mod(c * w);
    lemma_eqm_add(r, r, (c * w) % modulus(), c * w);
    lemma_eqm_mod(r + (c * w) % modulus());
    lemma_eqm_mul(base, base, z, r + c * w);
    lemma_eqm_mod(base * w);
    lemma_eqm_mul(value, base * w, c, c);
    lemma_eqm_sub(base * z, base * (r + c * w), value * c, base * w * c);
    assert(base * (r + c * w) == base * r + base * (c * w)) by (nonlinear_arith);
    assert(base * (c * w) == base * w * c) by (nonlinear_arith);
}

/// A proof that was made with the secret key behind the public key, for a partial decryption that
/// was made with it too, is accepted.
pub proof fn lemma_partial_decryption_proof_accepted(
    pd_proof: PartialDecryptionProof,
    secret: SecretKey,
    r: int,
    partial_decryption: PartialDecryption,
    base: int,
    digest: Seq<u8>,
    public_key: &LagPublicKey,
    crs: &CRS,
)
    requires
        is_valid_statement(partial_decryption, public_key, crs),
        secret.decrypts(partial_decryption, base),
        public_key.bls_pk@[0]@ == (crs.gen_g@[0]@ * secret.sk@) % modulus(),
        pd_proof.is_made(secret.sk@, r, partial_decryption, base, digest, public_key, crs),
    ensures
        pd_proof.is_accepted(partial_decryption, base, digest, public_key, crs),
{
    let c = pd_proof.challenge@;
    let z = pd_proof.z_sk@;
    lemma_response_opens(crs.gen_g@[0]@, secret.sk@, r, c, z, public_key.bls_pk@[0]@);
    lemma_response_opens(base, secret.sk@, r, c, z, partial_decryption.pd@);
}

/// Responses to two challenges that open the same commitments lead to one secret key behind both the
/// public key and the partial decryption.
pub proof fn lemma_secret_key_extracted(
    partial_decryption: PartialDecryption,
    base: int,
    public_key: &LagPublicKey,
    crs: &CRS,
    first: PartialDecryptionProof,
    second: PartialDecryptionProof,
    inverse: int,
)
    requires
        inverse_of(first.challenge@ - second.challenge@, inverse),
        opened(crs.gen_g@[0]@, first.z_sk@, public_key.bls_pk@[0]@, first.challenge@) == opened(
            crs.gen_g@[0]@,
            second.z_sk@,
            public_key.bls_pk@[0]@,
            second.challenge@,
        ),
        opened(base, first.z_sk@, partial_decryption.pd@, first.challenge@) == opened(
            base,
            second.z_sk@,
            partial_decryption.pd@,
            second.challenge@,
        ),
    ensures
        ({
            let sk = ((first.z_sk@ - second.z_sk@) * inverse) % modulus();
            &&& public_key.bls_pk@[0]@ == (crs.gen_g@[0]@ * sk) % modulus()
            &&& partial_decryption.pd@ == (base * sk) % modulus()
        }),
{
    broadcast use lemma_g1_range;

    let c = first.challenge@;
    let d = second.challenge@;
    let z = first.z_sk@;
    let y = second.z_sk@;
    lemma_extracted(crs.gen_g@[0]@, public_key.bls_pk@[0]@, z, c, y, d, inverse);
    lemma_extracted(base, partial_decryption.pd@, z, c, y, d, inverse);
}

proof fn lemma_extracted(base: int, value: int, z: int, c: int, y: int, d: int, inverse: int)
    requires
        inverse_of(c - d, inverse),
        opened(base, z, value, c) == opened(base, y, value, d),
        0 <= value < modulus(),
    ensures
        value == (base * (((z - y) * inverse) % modulus())) % modulus(),
{
    let e = c - d;
    let x = z - y;
    // value * e is congruent to base * x.
    lemma_eqm_sub(base * z - value * c, base * y - value * d, base * y - value * c, base * y - value * c);
    assert(base * z - base * y == base * x) by (nonlinear_arith)
        requires
            x == z - y,
    ;
    assert(value * c - value * d == value * e) by (nonlinear_arith)
        requires
            e == c - d,
    ;
    assert(eqm(base * x, value * e));
    lemma_eqm_mul(base * x, value * e, inverse, inverse);
    lemma_eqm_mul(value, value, e * inverse, 1);
    assert(value * e * inverse == value * (e * inverse)) by (nonlinear_arith);
    assert(base * x * inverse == base * (x * inverse)) by (nonlinear_arith);
    let w = (x * inverse) % modulus();
    lemma_eqm_mod(x * inverse);
    lemma_eqm_mul(base, base, w, x * inverse);
    lemma_eqm_mod(base * w);
    lemma_eqm_reduced(value, (base * w) % modulus());
}

/// The base of the partial decryption of a batch is that of the sum of its encrypted keys, so that
/// partial decryptions of the one and of the other are the same.
pub proof fn lemma_batch_base(c: &Ciphertext, cts: Seq<BteCiphertext>, l: int, t: int)
    requires
        is_sum_of(c, cts, cts.len() as int, l, t),
    ensures
        c.sa1@[1]@ == batch_base(cts),
{
    let s = sum(cts.len() as int, sa1_terms(cts, 1));
    assert(eqm(c.sa1@[1]@, s));
    lemma_g1_range(c.sa1@[1]);
    lemma_eqm_mod(s);
    lemma_eqm_reduced(c.sa1@[1]@, s % modulus());
}

} // verus!
