use ark_std::rand::rngs::StdRng;
use ark_std::rand::{RngCore, SeedableRng};
use silent_batched_threshold_encryption::bte;
use silent_batched_threshold_encryption::bte::encryption::{
    encrypt_with_witness, CHUNK_BITS, NUM_CHUNKS,
};
use silent_batched_threshold_encryption::cca::{PedersenCommitments, ValidityProof};
use silent_batched_threshold_encryption::field::Scalar;
use silent_batched_threshold_encryption::group::Gt;
use silent_batched_threshold_encryption::ste;
use silent_batched_threshold_encryption::ste::aggregate::{AggregateKey, EncryptionKey};
use silent_batched_threshold_encryption::ste::setup::SecretKey;

// All keys are drawn; most of them have 64 bits, which keeps the setup fast.
fn setup() -> (bte::crs::CRS, ste::crs::CRS, EncryptionKey, StdRng) {
    let mut rng = StdRng::seed_from_u64(4);
    let n = (2 * CHUNK_BITS as usize + 3).next_power_of_two();
    let l = NUM_CHUNKS;
    let batch_size = 8;
    let bte_crs = bte::crs::CRS::new(batch_size, &mut rng);
    let ste_crs = ste::crs::CRS::new(n, l, &mut rng);
    let sk = (0..n)
        .map(|i| {
            if i < 4 {
                SecretKey::new(&mut rng, i)
            } else {
                SecretKey::from_scalar(Scalar::from_u64(rng.next_u64()), i)
            }
        })
        .collect::<Vec<_>>();
    let pk = sk
        .iter()
        .enumerate()
        .map(|(i, sk)| sk.get_lagrange_pk(i, &ste_crs))
        .collect::<Vec<_>>();
    let (_ak, ek) = AggregateKey::new(pk, &ste_crs);
    (bte_crs, ste_crs, ek, rng)
}

#[test]
fn valid_ciphertext_proof_verifies() {
    let (bte_crs, ste_crs, ek, mut rng) = setup();
    let t = 4;
    let (ciphertext, witness) =
        encrypt_with_witness(3, &bte_crs, &ste_crs, &ek, t, &mut rng);
    let (commitments, openings) =
        PedersenCommitments::commit(&witness.chunks, &ste_crs, &mut rng);

    let proof = ValidityProof::prove(
        &ciphertext,
        &bte_crs,
        &ste_crs,
        &ek,
        &commitments,
        &witness,
        &openings,
        &mut rng,
    )
    .unwrap();

    assert!(proof.verify(&ciphertext, &bte_crs, &ste_crs, &ek, &commitments));
}

#[test]
fn tampered_statement_does_not_verify() {
    let (bte_crs, ste_crs, ek, mut rng) = setup();
    let t = 4;
    let (mut ciphertext, witness) =
        encrypt_with_witness(3, &bte_crs, &ste_crs, &ek, t, &mut rng);
    let (commitments, openings) =
        PedersenCommitments::commit(&witness.chunks, &ste_crs, &mut rng);

    let proof = ValidityProof::prove(
        &ciphertext,
        &bte_crs,
        &ste_crs,
        &ek,
        &commitments,
        &witness,
        &openings,
        &mut rng,
    )
    .unwrap();

    ciphertext.mask = ciphertext.mask.add(&Gt::generator());

    assert!(!proof.verify(&ciphertext, &bte_crs, &ste_crs, &ek, &commitments));
}

#[test]
fn tampered_commitment_does_not_verify() {
    let (bte_crs, ste_crs, ek, mut rng) = setup();
    let t = 4;
    let (ciphertext, witness) =
        encrypt_with_witness(3, &bte_crs, &ste_crs, &ek, t, &mut rng);
    let (mut commitments, openings) =
        PedersenCommitments::commit(&witness.chunks, &ste_crs, &mut rng);

    let proof = ValidityProof::prove(
        &ciphertext,
        &bte_crs,
        &ste_crs,
        &ek,
        &commitments,
        &witness,
        &openings,
        &mut rng,
    )
    .unwrap();

    commitments.commitments[0] = commitments.commitments[0].add(&ste_crs.gen_g[0]);

    assert!(!proof.verify(&ciphertext, &bte_crs, &ste_crs, &ek, &commitments));
}

#[test]
fn tampered_challenge_does_not_verify() {
    let (bte_crs, ste_crs, ek, mut rng) = setup();
    let t = 4;
    let (ciphertext, witness) =
        encrypt_with_witness(3, &bte_crs, &ste_crs, &ek, t, &mut rng);
    let (commitments, openings) =
        PedersenCommitments::commit(&witness.chunks, &ste_crs, &mut rng);

    let mut proof = ValidityProof::prove(
        &ciphertext,
        &bte_crs,
        &ste_crs,
        &ek,
        &commitments,
        &witness,
        &openings,
        &mut rng,
    )
    .unwrap();

    proof.challenge = proof.challenge.add(&Scalar::from_u64(1));

    assert!(!proof.verify(&ciphertext, &bte_crs, &ste_crs, &ek, &commitments));
}

#[test]
fn tampered_range_proof_does_not_verify() {
    let (bte_crs, ste_crs, ek, mut rng) = setup();
    let t = 4;
    let (ciphertext, witness) =
        encrypt_with_witness(3, &bte_crs, &ste_crs, &ek, t, &mut rng);
    let (commitments, openings) =
        PedersenCommitments::commit(&witness.chunks, &ste_crs, &mut rng);

    let mut proof = ValidityProof::prove(
        &ciphertext,
        &bte_crs,
        &ste_crs,
        &ek,
        &commitments,
        &witness,
        &openings,
        &mut rng,
    )
    .unwrap();

    proof.range_proof.openings[0].g_at_rho =
        proof.range_proof.openings[0].g_at_rho.add(&Scalar::from_u64(1));

    assert!(!proof.verify(&ciphertext, &bte_crs, &ste_crs, &ek, &commitments));
}

