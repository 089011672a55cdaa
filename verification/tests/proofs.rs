use ark_std::rand::rngs::StdRng;
use ark_std::rand::SeedableRng;
use silent_batched_threshold_encryption::bte;
use silent_batched_threshold_encryption::bte::encryption::{
    encrypt_with_witness, EncryptionWitness, NUM_CHUNKS,
};
use silent_batched_threshold_encryption::cca::{
    CcaStatementContext, PedersenCommitments, PedersenOpenings, RangeProof, SchnorrMasks,
    SchnorrProof, ValidityProof,
};
use silent_batched_threshold_encryption::cca::schnorr::{map_values, reconstruct_schnorr_commitments};
use silent_batched_threshold_encryption::field::Scalar;
use silent_batched_threshold_encryption::group::{G1, Gt};
use silent_batched_threshold_encryption::ste;
use silent_batched_threshold_encryption::ste::aggregate::{AggregateKey, EncryptionKey};
use silent_batched_threshold_encryption::ste::encryption::EncryptionRandomness;
use silent_batched_threshold_encryption::ste::setup::SecretKey;

fn test_rng() -> StdRng {
    StdRng::seed_from_u64(6)
}

fn s(x: u64) -> Scalar {
    Scalar::from_u64(x)
}

fn witness(chunks: &[u64]) -> EncryptionWitness {
    EncryptionWitness {
        chunks: chunks.iter().map(|c| s(*c)).collect(),
        ste_randomness: EncryptionRandomness { s: [Scalar::zero(); 5] },
    }
}

fn range_setup(
    chunks: &[u64],
) -> (ste::crs::CRS, EncryptionWitness, PedersenCommitments, PedersenOpenings, RangeProof) {
    let mut rng = test_rng();
    let crs = ste::crs::CRS::new(64, 2, &mut rng);
    let witness = witness(chunks);
    let (commitments, openings) = PedersenCommitments::commit(&witness.chunks, &crs, &mut rng);
    let proof = RangeProof::prove(&commitments, &witness, &openings, &crs, &mut rng).unwrap();
    (crs, witness, commitments, openings, proof)
}

#[test]
fn chunks_at_the_ends_of_the_range_are_proved() {
    let (crs, _, commitments, _, proof) = range_setup(&[0, 0xffff]);
    assert!(proof.verify(&commitments, &crs));
}

#[test]
fn no_chunks_need_no_openings() {
    let (crs, _, commitments, _, proof) = range_setup(&[]);
    assert!(proof.openings.is_empty());
    assert!(proof.verify(&commitments, &crs));
}

#[test]
fn range_proofs_are_bound_to_everything() {
    let (crs, _, commitments, _, proof) = range_setup(&[5, 0xb2c5]);
    assert!(proof.verify(&commitments, &crs));
    let g = G1::generator();

    let mut p = proof.clone();
    p.g_commitments[1] = p.g_commitments[1].add(&g);
    assert!(!p.verify(&commitments, &crs));
    let mut p = proof.clone();
    p.q_commitments[0] = p.q_commitments[0].add(&g);
    assert!(!p.verify(&commitments, &crs));
    let mut p = proof.clone();
    p.tau = p.tau.add(&Scalar::one());
    assert!(!p.verify(&commitments, &crs));
    let mut p = proof.clone();
    p.rho = p.rho.add(&Scalar::one());
    assert!(!p.verify(&commitments, &crs));
    let mut p = proof.clone();
    p.openings[0].g_at_rho_omega = p.openings[0].g_at_rho_omega.add(&Scalar::one());
    assert!(!p.verify(&commitments, &crs));
    let mut p = proof.clone();
    p.openings[1].w_hat_at_rho = p.openings[1].w_hat_at_rho.add(&Scalar::one());
    assert!(!p.verify(&commitments, &crs));
    let mut p = proof.clone();
    p.openings[1].w_hat_opening_at_rho = p.openings[1].w_hat_opening_at_rho.add(&g);
    assert!(!p.verify(&commitments, &crs));

    // Another commitment, another digest, other lengths.
    let mut c = commitments.clone();
    c.commitments[0] = c.commitments[0].add(&g);
    assert!(!proof.verify(&c, &crs));
    assert!(!proof.verify_with_context(&[7; 32], &commitments, &crs));
    let mut p = proof.clone();
    p.openings.pop();
    assert!(!p.verify(&commitments, &crs));
    let mut c = commitments.clone();
    c.commitments.push(g);
    assert!(!proof.verify(&c, &crs));
}

#[test]
fn a_reference_string_with_too_few_powers_is_refused() {
    let (_, _, commitments, _, proof) = range_setup(&[5]);
    let small = ste::crs::CRS::new(32, 2, &mut test_rng());
    assert!(!proof.verify(&commitments, &small));
}

#[test]
fn commitments_are_exact() {
    let alphas = vec![s(3), s(7)];
    let crs = ste::crs::CRS::from_trapdoor(2, &s(5), &alphas, &s(11));
    let c = PedersenCommitments::with_randomness(&vec![s(10), s(20)], &crs, &vec![s(1), s(2)]);
    // 3 * 10 + (15 - 3) * 1, and 7 * 20 + (35 - 7) * 2.
    assert_eq!(c.commitments[0], G1::generator().mul(&s(42)));
    assert_eq!(c.commitments[1], G1::generator().mul(&s(196)));
    // The same as commitments to `value + blind * (X - 1)`.
    assert_eq!(c.commitments[0], crs.commit_g1(&vec![s(9), s(1)], 0));
}

struct Statement {
    bte_crs: bte::crs::CRS,
    ste_crs: ste::crs::CRS,
    ek: EncryptionKey,
    ciphertext: bte::encryption::Ciphertext,
    witness: EncryptionWitness,
    commitments: PedersenCommitments,
    openings: PedersenOpenings,
    rng: StdRng,
}

// Keys that are multiples of one another keep the setup fast.
fn statement() -> Statement {
    let mut rng = test_rng();
    let bte_crs = bte::crs::CRS::new(2, &mut rng);
    let ste_crs = ste::crs::CRS::new(64, NUM_CHUNKS, &mut rng);
    let key = SecretKey::from_scalar(s(2), 0).get_lagrange_pk(0, &ste_crs);
    let (_, ek) = AggregateKey::new(vec![key; 64], &ste_crs);
    let (ciphertext, witness) = encrypt_with_witness(1, &bte_crs, &ste_crs, &ek, 5, &mut rng);
    let (commitments, openings) = PedersenCommitments::commit(&witness.chunks, &ste_crs, &mut rng);
    Statement { bte_crs, ste_crs, ek, ciphertext, witness, commitments, openings, rng }
}

#[test]
fn knowledge_proofs_are_bound_to_everything() {
    let mut st = statement();
    let context = CcaStatementContext {
        validity_params_digest: [1; 32],
        range_params_digest: [2; 32],
    };
    let proof = SchnorrProof::prove_with_context(
        &context,
        &st.ciphertext,
        &st.bte_crs,
        &st.ste_crs,
        &st.ek,
        &st.commitments,
        &st.witness,
        &st.openings,
        &mut st.rng,
    );
    let accepts = |p: &SchnorrProof,
                   context: &CcaStatementContext,
                   ciphertext: &bte::encryption::Ciphertext,
                   commitments: &PedersenCommitments| {
        p.verify_with_context(context, ciphertext, &st.bte_crs, &st.ste_crs, &st.ek, commitments)
    };
    assert!(accepts(&proof, &context, &st.ciphertext, &st.commitments));

    let mut p = proof.clone();
    p.z_chunks[3] = p.z_chunks[3].add(&Scalar::one());
    assert!(!accepts(&p, &context, &st.ciphertext, &st.commitments));
    let mut p = proof.clone();
    p.z_ste_randomness[4] = p.z_ste_randomness[4].add(&Scalar::one());
    assert!(!accepts(&p, &context, &st.ciphertext, &st.commitments));
    let mut p = proof.clone();
    p.z_commitment_randomness.pop();
    assert!(!accepts(&p, &context, &st.ciphertext, &st.commitments));
    let other = CcaStatementContext { validity_params_digest: [3; 32], ..context.clone() };
    assert!(!accepts(&proof, &other, &st.ciphertext, &st.commitments));

    // A punctured point, a threshold or a number of slots that does not fit.
    let mut c = st.ciphertext.clone();
    c.pprf.point = 2;
    assert!(!accepts(&proof, &context, &c, &st.commitments));
    let mut c = st.ciphertext.clone();
    c.encrypted_key.t = 65;
    assert!(!accepts(&proof, &context, &c, &st.commitments));
    let mut c = st.ciphertext.clone();
    c.encrypted_key.ct.pop();
    assert!(!accepts(&proof, &context, &c, &st.commitments));
    let mut c = st.ciphertext.clone();
    c.encrypted_key.ct[0] = c.encrypted_key.ct[0].add(&Gt::generator());
    assert!(!accepts(&proof, &context, &c, &st.commitments));
}

#[test]
fn one_context_serves_many_proofs() {
    let mut st = statement();
    let context = CcaStatementContext::new(&st.bte_crs, &st.ste_crs, &st.ek);
    let proof = ValidityProof::prove_with_context(
        &context,
        &st.ciphertext,
        &st.bte_crs,
        &st.ste_crs,
        &st.ek,
        &st.commitments,
        &st.witness,
        &st.openings,
        &mut st.rng,
    )
    .unwrap();
    assert!(proof.verify_with_context(
        &context,
        &st.ciphertext,
        &st.bte_crs,
        &st.ste_crs,
        &st.ek,
        &st.commitments
    ));
    assert!(proof.verify(&st.ciphertext, &st.bte_crs, &st.ste_crs, &st.ek, &st.commitments));
    assert!(proof.range_proof.verify(&st.commitments, &st.ste_crs));
    let mut ek = st.ek.clone();
    ek.ask = ek.ask.add(&G1::generator());
    assert!(!proof.verify(&st.ciphertext, &st.bte_crs, &st.ste_crs, &ek, &st.commitments));
}

#[test]
fn two_responses_with_the_same_masks_reveal_the_secrets() {
    let mut st = statement();
    let masks = SchnorrMasks::random(NUM_CHUNKS, &mut st.rng);
    let prove = |digest: u8| {
        let context = CcaStatementContext {
            validity_params_digest: [digest; 32],
            range_params_digest: [0; 32],
        };
        SchnorrProof::prove_with_masks(
            &context,
            &st.ciphertext,
            &st.bte_crs,
            &st.ste_crs,
            &st.ek,
            &st.commitments,
            &st.witness,
            &st.openings,
            &masks,
        )
    };
    let first = prove(1);
    let second = prove(2);
    let inverse = first.challenge.sub(&second.challenge).inverse().unwrap();
    for i in 0..NUM_CHUNKS {
        let chunk = first.z_chunks[i].sub(&second.z_chunks[i]).mul(&inverse);
        assert_eq!(chunk, st.witness.chunks[i]);
        let blind = first.z_commitment_randomness[i]
            .sub(&second.z_commitment_randomness[i])
            .mul(&inverse);
        assert_eq!(blind, st.openings.randomness[i]);
    }
    for i in 0..5 {
        let s = first.z_ste_randomness[i].sub(&second.z_ste_randomness[i]).mul(&inverse);
        assert_eq!(s, st.witness.ste_randomness.s[i]);
    }
}

#[test]
fn reconstructed_commitments_are_those_of_the_masks() {
    let mut st = statement();
    let masks = SchnorrMasks::random(NUM_CHUNKS, &mut st.rng);
    let committed = map_values(
        &st.bte_crs,
        &st.ste_crs,
        &st.ek,
        st.ciphertext.pprf.point,
        st.ciphertext.encrypted_key.t,
        &masks.chunks,
        &masks.ste_randomness,
        &masks.commitment_randomness,
    );
    let challenge = Scalar::random(&mut st.rng);
    let respond = |r: &Scalar, w: &Scalar| r.add(&challenge.mul(w));
    let z_chunks = (0..NUM_CHUNKS)
        .map(|i| respond(&masks.chunks[i], &st.witness.chunks[i]))
        .collect::<Vec<_>>();
    let z_blinds = (0..NUM_CHUNKS)
        .map(|i| respond(&masks.commitment_randomness[i], &st.openings.randomness[i]))
        .collect::<Vec<_>>();
    let mut z_s = masks.ste_randomness;
    for i in 0..5 {
        z_s[i] = respond(&masks.ste_randomness[i], &st.witness.ste_randomness.s[i]);
    }
    let reconstruct = |challenge: &Scalar| {
        reconstruct_schnorr_commitments(
            challenge,
            &z_chunks,
            &z_s,
            &z_blinds,
            &st.ciphertext,
            &st.bte_crs,
            &st.ste_crs,
            &st.ek,
            &st.commitments,
        )
    };
    assert_eq!(reconstruct(&challenge), committed);
    assert_ne!(reconstruct(&challenge.add(&Scalar::one())), committed);
}

#[test]
fn shapes_are_checked_before_they_are_relied_on() {
    let (crs, witness, commitments, openings, proof) = range_setup(&[5, 6]);
    // One slot with too few powers, in a reference string that is otherwise in order.
    let mut short = crs.clone();
    short.powers_of_g[1].truncate(10);
    assert!(!proof.verify(&commitments, &short));
    let mut short = crs.clone();
    short.powers_of_h[0].truncate(10);
    assert!(!proof.verify(&commitments, &short));
    let mut few = crs.clone();
    few.l = 1;
    assert!(!proof.verify(&commitments, &few));
    // What a verifier does not read may be missing.
    let digest = [9; 32];
    let proof = RangeProof::prove_with_context(
        &digest,
        &commitments,
        &witness,
        &openings,
        &crs,
        &mut test_rng(),
    )
    .unwrap();
    let mut bare = crs;
    bare.li.clear();
    bare.y.clear();
    bare.powers_of_h.truncate(1);
    assert!(proof.verify_with_context(&digest, &commitments, &bare));
}

#[test]
fn provers_read_only_the_powers() {
    let (crs, witness, commitments, openings, _) = range_setup(&[7, 8]);
    let digest = [3; 32];
    let mut bare = crs.clone();
    bare.li.clear();
    bare.y.clear();
    bare.li_lj_z.clear();
    bare.powers_of_h.truncate(1);
    let proof = RangeProof::prove_with_context(
        &digest,
        &commitments,
        &witness,
        &openings,
        &bare,
        &mut test_rng(),
    )
    .unwrap();
    assert!(proof.verify_with_context(&digest, &commitments, &crs));
}
