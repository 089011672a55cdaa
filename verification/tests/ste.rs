use ark_std::rand::rngs::StdRng;
use ark_std::rand::SeedableRng;
use silent_batched_threshold_encryption::bte;
use silent_batched_threshold_encryption::bte::encryption::NUM_CHUNKS;
use silent_batched_threshold_encryption::field::Scalar;
use silent_batched_threshold_encryption::group::{G1, Gt};
use silent_batched_threshold_encryption::ste::aggregate::{AggregateKey, EncryptionKey};
use silent_batched_threshold_encryption::ste::crs::CRS;
use silent_batched_threshold_encryption::ste::decryption::agg_dec;
use silent_batched_threshold_encryption::ste::encryption::{
    encrypt, encrypt_with_randomness, Ciphertext, EncryptionRandomness,
};
use silent_batched_threshold_encryption::ste::setup::{
    LagPolys, LagPublicKey, PartialDecryption, SecretKey,
};

fn test_rng() -> StdRng {
    StdRng::seed_from_u64(2)
}

fn keys(n: usize, crs: &CRS, rng: &mut StdRng) -> (Vec<SecretKey>, Vec<LagPublicKey>) {
    let sk = (0..n).map(|i| SecretKey::new(rng, i)).collect::<Vec<_>>();
    let pk = sk
        .iter()
        .enumerate()
        .map(|(i, sk)| sk.get_lagrange_pk(i, crs))
        .collect::<Vec<_>>();
    (sk, pk)
}

#[test]
fn test_setup() {
    let mut rng = test_rng();
    let n = 1 << 4;
    let l = 8;
    let crs = CRS::new(n, l, &mut rng);

    assert_eq!(crs.gen_g.len(), l);
    assert_eq!(crs.gen_h.len(), l);

    assert_eq!(crs.powers_of_g.len(), l);
    assert_eq!(crs.powers_of_g[0].len(), n + 1);

    assert_eq!(crs.powers_of_h.len(), l);
    assert_eq!(crs.powers_of_h[0].len(), n + 1);

    assert_eq!(crs.li.len(), l);
    assert_eq!(crs.li[0].len(), n);

    assert_eq!(crs.li_minus0.len(), l);
    assert_eq!(crs.li_minus0[0].len(), n);

    assert_eq!(crs.li_x.len(), l);
    assert_eq!(crs.li_x[0].len(), n);

    assert_eq!(crs.li_lj_z.len(), l);
    assert_eq!(crs.li_lj_z[0].len(), n);
    assert_eq!(crs.li_lj_z[0][0].len(), n);

    assert_eq!(crs.gamma_g2.len(), l);

    assert_eq!(crs.y.len(), l);
    assert_eq!(crs.y[0].len(), 2 * n);

    let sk = SecretKey::new(&mut rng, 0);
    let pk = sk.get_pk(&crs);

    assert_eq!(pk.id, sk.id);
    assert_eq!(pk.bls_pk.len(), l);
    assert_eq!(pk.hints.len(), l);
    assert_eq!(pk.hints[0].len(), n + 1);
    assert_eq!(pk.y.len(), l);
    assert_eq!(pk.y[0].len(), 2 * n);

    let mut sk: Vec<SecretKey> = Vec::new();
    let mut pk: Vec<LagPublicKey> = Vec::new();
    let mut lagrange_pk: Vec<LagPublicKey> = Vec::new();

    for i in 0..n {
        sk.push(SecretKey::new(&mut rng, i));
        pk.push(sk[i].get_lagrange_pk(i, &crs));
        lagrange_pk.push(sk[i].get_lagrange_pk(i, &crs));

        assert_eq!(pk[i].sk_li, lagrange_pk[i].sk_li);
        assert_eq!(pk[i].sk_li_minus0, lagrange_pk[i].sk_li_minus0);
        assert_eq!(pk[i].sk_li_x, lagrange_pk[i].sk_li_x);
        assert_eq!(pk[i].sk_li_lj_z, lagrange_pk[i].sk_li_lj_z);
    }

    let _ak = AggregateKey::new(pk, &crs);
}

#[test]
fn test_setup_lag_setup() {
    let mut rng = test_rng();
    let n = 8;
    let l = 8;
    let crs = CRS::new(n, l, &mut rng);
    let lagpolys = LagPolys::new(n);

    let sk = SecretKey::new(&mut rng, 0);
    let pk = sk.get_pk(&crs);

    let lag_pk = sk.get_lagrange_pk(0, &crs);

    let computed_lag_pk = pk.get_lag_public_key(0, &crs, &lagpolys);

    assert_eq!(computed_lag_pk.bls_pk, lag_pk.bls_pk);
    assert_eq!(computed_lag_pk.sk_li, lag_pk.sk_li);
    assert_eq!(computed_lag_pk.sk_li_minus0, lag_pk.sk_li_minus0);
    assert_eq!(computed_lag_pk.sk_li_x, lag_pk.sk_li_x);
    assert_eq!(computed_lag_pk.sk_li_lj_z, lag_pk.sk_li_lj_z);
}

#[test]
fn partial_decryption_proof_verifies() {
    let mut rng = test_rng();
    let n = 8;
    let l = 4;
    let t = n / 2;
    let crs = CRS::new(n, l, &mut rng);
    let (sk, pk) = keys(n, &crs, &mut rng);
    let (_ak, ek) = AggregateKey::new(pk.clone(), &crs);
    let message = vec![Gt::zero(); l];
    let ct = encrypt(&ek, t, &crs, &message, &mut rng);

    let (partial_decryption, proof) =
        sk[0].partial_decryption_with_proof(&ct, &pk[0], &crs, &mut rng);

    assert!(proof.verify(&partial_decryption, &ct, &pk[0], &crs));

    let mut tampered_partial_decryption = partial_decryption.clone();
    tampered_partial_decryption.pd = tampered_partial_decryption.pd.add(&crs.gen_g[0]);
    assert!(!proof.verify(&tampered_partial_decryption, &ct, &pk[0], &crs));

    let mut tampered_ct = ct.clone();
    tampered_ct.sa1[1] = tampered_ct.sa1[1].add(&crs.gen_g[0]);
    assert!(!proof.verify(&partial_decryption, &tampered_ct, &pk[0], &crs));
}

#[test]
fn batch_partial_decryption_proof_verifies() {
    let mut rng = test_rng();
    let n = 8;
    let l = NUM_CHUNKS;
    let batch_size = 2;
    let t = n / 2;
    let bte_crs = bte::crs::CRS::new(batch_size, &mut rng);
    let crs = CRS::new(n, l, &mut rng);
    let (sk, pk) = keys(n, &crs, &mut rng);
    let (_ak, ek) = AggregateKey::new(pk.clone(), &crs);
    let cts = (0..batch_size)
        .map(|i| bte::encryption::encrypt(i, &bte_crs, &crs, &ek, t, &mut rng))
        .collect::<Vec<_>>();

    let (partial_decryption, proof) =
        sk[0].batch_partial_decryption_with_proof(&cts, &pk[0], &crs, &mut rng);

    assert!(proof.verify_batch(&partial_decryption, &cts, &pk[0], &crs));

    let mut tampered_cts = cts.clone();
    tampered_cts[0].encrypted_key.sa1[1] =
        tampered_cts[0].encrypted_key.sa1[1].add(&crs.gen_g[0]);
    assert!(!proof.verify_batch(&partial_decryption, &tampered_cts, &pk[0], &crs));

    // An empty batch has no proof.
    assert!(!proof.verify_batch(&partial_decryption, &[], &pk[0], &crs));
    // The partial decryption of the batch is that of the sum of its encrypted keys.
    let sum = cts
        .iter()
        .fold(Ciphertext::zero(l, t), |acc, c| acc.add(&c.encrypted_key));
    assert_eq!(sk[1].batch_partial_decryption(&cts), sk[1].partial_decryption(&sum));
}

#[test]
fn proofs_are_bound_to_their_statement() {
    let mut rng = test_rng();
    let n = 4;
    let crs = CRS::new(n, 2, &mut rng);
    let (sk, pk) = keys(n, &crs, &mut rng);
    let (_ak, ek) = AggregateKey::new(pk.clone(), &crs);
    let ct = encrypt(&ek, 2, &crs, &vec![Gt::zero(); 2], &mut rng);
    let (partial, proof) = sk[1].partial_decryption_with_proof(&ct, &pk[1], &crs, &mut rng);
    assert!(proof.verify(&partial, &ct, &pk[1], &crs));
    // Another party's key, another id, a position out of range, an empty key.
    assert!(!proof.verify(&partial, &ct, &pk[2], &crs));
    assert!(!proof.verify(&PartialDecryption { id: 3, pd: partial.pd }, &ct, &pk[1], &crs));
    let mut misplaced = pk[1].clone();
    misplaced.position = n;
    assert!(!proof.verify(&partial, &ct, &misplaced, &crs));
    let mut empty = pk[1].clone();
    empty.bls_pk = Vec::new();
    assert!(!proof.verify(&partial, &ct, &empty, &crs));
    let mut shifted = proof;
    shifted.z_sk = shifted.z_sk.add(&Scalar::one());
    assert!(!shifted.verify(&partial, &ct, &pk[1], &crs));
}

fn decrypt_with(
    selector: &[bool],
    sk: &[SecretKey],
    ak: &AggregateKey,
    ct: &Ciphertext,
    crs: &CRS,
) -> Vec<Gt> {
    let partial: Vec<PartialDecryption> = selector
        .iter()
        .zip(sk.iter())
        .map(|(chosen, key)| {
            if *chosen {
                key.partial_decryption(ct)
            } else {
                PartialDecryption::zero()
            }
        })
        .collect();
    agg_dec(&partial, ct, selector, ak, crs)
}

#[test]
fn enough_parties_decrypt() {
    let mut rng = test_rng();
    let n = 8;
    let l = 3;
    let crs = CRS::new(n, l, &mut rng);
    let (sk, pk) = keys(n, &crs, &mut rng);
    let (ak, ek) = AggregateKey::new(pk, &crs);
    let messages: Vec<Gt> = [0u64, 1, 123_456]
        .iter()
        .map(|m| Gt::generator().mul(&Scalar::from_u64(*m)))
        .collect();
    for t in [1usize, 3, 8] {
        let ct = encrypt(&ek, t, &crs, &messages, &mut rng);
        let first: Vec<bool> = (0..n).map(|i| i < t).collect();
        let last: Vec<bool> = (0..n).map(|i| i >= n - t).collect();
        let all = vec![true; n];
        for selector in [&first, &last, &all] {
            assert_eq!(decrypt_with(selector, &sk, &ak, &ct, &crs), messages);
        }
    }
}

#[test]
fn wrong_shares_do_not_decrypt() {
    let mut rng = test_rng();
    let n = 4;
    let crs = CRS::new(n, 1, &mut rng);
    let (sk, pk) = keys(n, &crs, &mut rng);
    let (ak, ek) = AggregateKey::new(pk, &crs);
    let messages = vec![Gt::generator()];
    let ct = encrypt(&ek, 2, &crs, &messages, &mut rng);
    let selector = [true, true, false, false];
    let mut other = sk.clone();
    other[1].sk = other[1].sk.add(&Scalar::one());
    assert_eq!(decrypt_with(&selector, &sk, &ak, &ct, &crs), messages);
    assert_ne!(decrypt_with(&selector, &other, &ak, &ct, &crs), messages);
}

#[test]
fn fewer_messages_than_slots() {
    let mut rng = test_rng();
    let n = 4;
    let crs = CRS::new(n, 3, &mut rng);
    let (sk, pk) = keys(n, &crs, &mut rng);
    let (ak, ek) = AggregateKey::new(pk, &crs);
    let messages = vec![Gt::generator(), Gt::zero()];
    let ct = encrypt(&ek, 1, &crs, &messages, &mut rng);
    assert_eq!(decrypt_with(&[false, false, true, false], &sk, &ak, &ct, &crs), messages);
}

#[test]
fn sums_of_ciphertexts_decrypt_to_sums() {
    let mut rng = test_rng();
    let n = 4;
    let crs = CRS::new(n, 2, &mut rng);
    let (sk, pk) = keys(n, &crs, &mut rng);
    let (ak, ek) = AggregateKey::new(pk, &crs);
    let a = vec![Gt::generator().mul(&Scalar::from_u64(5)), Gt::generator()];
    let b = vec![Gt::generator().mul(&Scalar::from_u64(37)), Gt::zero()];
    let ca = encrypt(&ek, 2, &crs, &a, &mut rng);
    let cb = encrypt(&ek, 2, &crs, &b, &mut rng);
    let sum = Ciphertext::zero(2, 2).add(&ca).add(&cb);
    assert_eq!(sum.t, 2);
    let expected = vec![Gt::generator().mul(&Scalar::from_u64(42)), Gt::generator()];
    assert_eq!(decrypt_with(&[true, false, true, true], &sk, &ak, &sum, &crs), expected);
}

fn small_system() -> (CRS, AggregateKey, EncryptionKey) {
    let alphas = vec![Scalar::from_u64(3), Scalar::from_u64(7)];
    let crs = CRS::from_trapdoor(2, &Scalar::from_u64(5), &alphas, &Scalar::from_u64(11));
    let pk = (0..2)
        .map(|i| SecretKey::from_scalar(Scalar::from_u64(i as u64 + 1), i).get_lagrange_pk(i, &crs))
        .collect::<Vec<_>>();
    let (ak, ek) = AggregateKey::new(pk, &crs);
    (crs, ak, ek)
}

fn g1(exponent: u64) -> G1 {
    G1::generator().mul(&Scalar::from_u64(exponent))
}

#[test]
fn reference_string_values_are_exact() {
    let (crs, _ak, ek) = small_system();
    assert_eq!(crs.gen_g, vec![g1(3), g1(7)]);
    assert_eq!(crs.powers_of_g[0], vec![g1(3), g1(15), g1(75)]);
    assert_eq!(crs.powers_of_g[1], vec![g1(7), g1(35), g1(175)]);
    // On the domain of size two, `L_0` is `(1 + X) / 2` and `L_1` is `(1 - X) / 2`.
    assert_eq!(crs.li[0], vec![g1(9), G1::zero().sub(&g1(6))]);
    let half = Scalar::from_u64(2).inverse().unwrap();
    assert_eq!(crs.li_x[0], vec![g1(3).mul(&half), G1::zero().sub(&g1(3).mul(&half))]);
    assert_eq!(crs.li_minus0[0][0], g1(3 * 25).mul(&half));
    // `L_0 * L_1` is `-(X^2 - 1) / 4`, and `L_0^2 - L_0` is `(X^2 - 1) / 4`.
    let quarter = half.mul(&half);
    assert_eq!(crs.li_lj_z[0][0][0], g1(3).mul(&quarter));
    assert_eq!(crs.li_lj_z[0][0][1], G1::zero().sub(&g1(3).mul(&quarter)));
    // The aggregate of the keys 1 and 2 is `9 - 12`, times the base.
    assert_eq!(ek.ask, G1::zero().sub(&g1(3)));
    assert_eq!(ek.e_gh[1], Gt::generator().mul(&Scalar::from_u64(21)));
}

#[test]
fn commitments_and_openings_are_exact() {
    let (crs, _ak, _ek) = small_system();
    let p = vec![Scalar::from_u64(2), Scalar::from_u64(1), Scalar::from_u64(4)];
    // 2 + 5 + 100, on the base 7.
    assert_eq!(crs.commit_g1(&p, 1), g1(7 * 107));
    // The quotient of `4 X^2 + X + 2` by `X - 3` is `4 X + 13`.
    assert_eq!(crs.compute_opening_proof(&p, &Scalar::from_u64(3), 0), g1(3 * 33));
    assert_eq!(crs.commit_g1(&Vec::new(), 0), G1::zero());
}

#[test]
fn encryption_equations_are_exact() {
    let (crs, _ak, ek) = small_system();
    let s = [1u64, 2, 3, 4, 5].map(Scalar::from_u64);
    let messages = vec![Gt::generator(), Gt::generator().mul(&Scalar::from_u64(6))];
    let ct = encrypt_with_randomness(&ek, 1, &crs, &messages, &EncryptionRandomness { s });
    // ask * 1 + 15 * 4 + 3 * 5, with ask at -3.
    assert_eq!(ct.sa1[0], g1(72));
    assert_eq!(ct.sa1[1], g1(9));
    assert_eq!(ct.ct[0], Gt::generator().mul(&Scalar::from_u64(9 * 5 + 1)));
    assert_eq!(ct.ct[1], Gt::generator().mul(&Scalar::from_u64(21 * 5 + 6)));
    assert_eq!(ct.t, 1);
}

#[test]
fn basis_polynomials_of_the_smallest_domain() {
    let polys = LagPolys::new(2);
    let half = Scalar::from_u64(2).inverse().unwrap();
    assert_eq!(polys.denom, half);
    assert_eq!(polys.l[0].coeffs(), &vec![half, half]);
    assert_eq!(polys.l[1].coeffs(), &vec![half, half.neg()]);
    assert_eq!(polys.l_minus0[0].coeffs(), &vec![Scalar::zero(), Scalar::zero(), half]);
    assert_eq!(polys.l_x[1].coeffs(), &vec![half.neg()]);
    assert_eq!(polys.li_lj_z[0][1].coeffs(), &vec![half.mul(&half).neg()]);
}

#[test]
fn every_position_can_be_derived() {
    let mut rng = test_rng();
    let n = 4;
    let crs = CRS::new(n, 2, &mut rng);
    let polys = LagPolys::new(n);
    let sk = SecretKey::new(&mut rng, 9);
    let pk = sk.get_pk(&crs);
    for position in 0..n {
        let direct = sk.get_lagrange_pk(position, &crs);
        let derived = pk.get_lag_public_key(position, &crs, &polys);
        assert_eq!(derived.id, 9);
        assert_eq!(derived.position, position);
        assert_eq!(derived.sk_li, direct.sk_li);
        assert_eq!(derived.sk_li_minus0, direct.sk_li_minus0);
        assert_eq!(derived.sk_li_x, direct.sk_li_x);
        assert_eq!(derived.sk_li_lj_z, direct.sk_li_lj_z);
    }
}

#[test]
fn the_preprocessed_part_is_the_transform_of_the_hints() {
    let mut rng = test_rng();
    let crs = CRS::new(2, 2, &mut rng);
    let pk = SecretKey::new(&mut rng, 3).get_pk(&crs);
    // A root of order four, from one of order sixteen.
    let w = silent_batched_threshold_encryption::cca::polynomials::range_omega().pow(4);
    for slot in 0..2 {
        for i in 0..4 {
            let expected = pk.hints[slot][1].add(&pk.hints[slot][0].mul(&w.pow(i as u64)));
            assert_eq!(pk.y[slot][i], expected);
        }
    }
}

#[test]
fn two_responses_with_one_mask_reveal_the_key() {
    let mut rng = test_rng();
    let crs = CRS::new(4, 1, &mut rng);
    let secret = SecretKey::from_scalar(Scalar::from_u64(987654321), 1);
    let public = secret.get_lagrange_pk(1, &crs);
    let base = G1::generator().mul(&Scalar::from_u64(17));
    let part = PartialDecryption { id: 1, pd: base.mul(&secret.sk) };
    let r = Scalar::random(&mut rng);
    let first =
        secret.partial_decryption_proof_for_base(&part, &base, &[1; 32], &public, &crs, &r);
    let second =
        secret.partial_decryption_proof_for_base(&part, &base, &[2; 32], &public, &crs, &r);
    assert_ne!(first.challenge, second.challenge);
    let inverse = first.challenge.sub(&second.challenge).inverse().unwrap();
    let sk = first.z_sk.sub(&second.z_sk).mul(&inverse);
    assert_eq!(sk, secret.sk);
    assert_eq!(base.mul(&sk), part.pd);
    assert_eq!(crs.gen_g[0].mul(&sk), public.bls_pk[0]);
}
