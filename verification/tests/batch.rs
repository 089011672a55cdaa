use ark_std::rand::rngs::StdRng;
use ark_std::rand::SeedableRng;
use silent_batched_threshold_encryption::bte;
use silent_batched_threshold_encryption::bte::decryption::{decrypt, decrypt_fft, DecryptError};
use silent_batched_threshold_encryption::bte::encryption::{
    decompose_key, encrypt, encrypt_with_witness, recompose_chunks, Ciphertext, CHUNK_BITS,
    NUM_CHUNKS,
};
use silent_batched_threshold_encryption::dlog::{HomomorphicBatchTooLarge, Markers};
use silent_batched_threshold_encryption::field::Scalar;
use silent_batched_threshold_encryption::group::Gt;
use silent_batched_threshold_encryption::ste;
use silent_batched_threshold_encryption::ste::aggregate::{AggregateKey, EncryptionKey};
use silent_batched_threshold_encryption::ste::setup::{PartialDecryption, SecretKey};

fn test_rng() -> StdRng {
    StdRng::seed_from_u64(3)
}

#[test]
fn test_encrypt() {
    let mut rng = test_rng();
    let n = 1 << 3;
    let l = NUM_CHUNKS;
    let batch_size = 8;
    let t: usize = n / 2;

    let bte_crs = bte::crs::CRS::new(batch_size, &mut rng);
    let ste_crs = ste::crs::CRS::new(n, l, &mut rng);
    let position = 5;

    let sk = (0..n).map(|i| SecretKey::new(&mut rng, i)).collect::<Vec<_>>();

    let pk = sk
        .iter()
        .enumerate()
        .map(|(i, sk)| sk.get_lagrange_pk(i, &ste_crs))
        .collect::<Vec<_>>();

    let (_ak, ek) = AggregateKey::new(pk, &ste_crs);

    let ciphertext = encrypt(position, &bte_crs, &ste_crs, &ek, t, &mut rng);
    assert_eq!(ciphertext.pprf.point, position);
}

#[test]
fn test_decrypt() {
    let mut rng = test_rng();
    let n = 1 << 3;
    let l = NUM_CHUNKS;
    let batch_size = 8;
    let t: usize = n / 2;

    let bte_crs = bte::crs::CRS::new(batch_size, &mut rng);
    let ste_crs = ste::crs::CRS::new(n, l, &mut rng);

    let sk = (0..n).map(|i| SecretKey::new(&mut rng, i)).collect::<Vec<_>>();

    let pk = sk
        .iter()
        .enumerate()
        .map(|(i, sk)| sk.get_lagrange_pk(i, &ste_crs))
        .collect::<Vec<_>>();

    let (ak, ek) = AggregateKey::new(pk, &ste_crs);

    let cts = (0..batch_size)
        .map(|i| encrypt(i, &bte_crs, &ste_crs, &ek, t, &mut rng))
        .collect::<Vec<_>>();

    let mut partial_decryptions: Vec<PartialDecryption> = Vec::new();
    for i in 0..t {
        partial_decryptions.push(sk[i].batch_partial_decryption(&cts));
    }
    for _ in t..n {
        partial_decryptions.push(PartialDecryption::zero());
    }

    let mut selector: Vec<bool> = Vec::new();
    for _ in 0..t {
        selector.push(true);
    }
    for _ in t..n {
        selector.push(false);
    }

    let markers = Markers::new();

    let masks: Vec<Gt> = cts.iter().map(|c| c.mask).collect();
    let recovered = decrypt(
        &cts,
        &bte_crs,
        &ste_crs,
        t,
        &partial_decryptions,
        &selector,
        &ak,
        &markers,
    );
    assert_eq!(recovered, Ok(masks.clone()));
    let recovered = decrypt_fft(
        &cts,
        &bte_crs,
        &ste_crs,
        t,
        &partial_decryptions,
        &selector,
        &ak,
        &markers,
    );
    assert_eq!(recovered, Ok(masks));
}

struct System {
    bte_crs: bte::crs::CRS,
    ste_crs: ste::crs::CRS,
    sk: Vec<SecretKey>,
    ak: AggregateKey,
    ek: EncryptionKey,
    markers: Markers,
    rng: StdRng,
}

fn system(batch_size: usize) -> System {
    let mut rng = test_rng();
    let n = 4;
    let bte_crs = bte::crs::CRS::new(batch_size, &mut rng);
    let ste_crs = ste::crs::CRS::new(n, NUM_CHUNKS, &mut rng);
    let sk = (0..n).map(|i| SecretKey::new(&mut rng, i)).collect::<Vec<_>>();
    let pk = sk
        .iter()
        .enumerate()
        .map(|(i, key)| key.get_lagrange_pk(i, &ste_crs))
        .collect::<Vec<_>>();
    let (ak, ek) = AggregateKey::new(pk, &ste_crs);
    System { bte_crs, ste_crs, sk, ak, ek, markers: Markers::new(), rng }
}

impl System {
    fn batch(&mut self, size: usize, t: usize) -> Vec<Ciphertext> {
        (0..size)
            .map(|i| encrypt(i, &self.bte_crs, &self.ste_crs, &self.ek, t, &mut self.rng))
            .collect()
    }

    fn open(
        &self,
        cts: &Vec<Ciphertext>,
        t: usize,
        partial: &Vec<PartialDecryption>,
        fft: bool,
    ) -> Result<Vec<Gt>, DecryptError> {
        let run = if fft { decrypt_fft } else { decrypt };
        run(
            cts,
            &self.bte_crs,
            &self.ste_crs,
            t,
            partial,
            &[false, true, true, true],
            &self.ak,
            &self.markers,
        )
    }

    fn partial(&self, cts: &Vec<Ciphertext>) -> Vec<PartialDecryption> {
        self.sk.iter().map(|key| key.batch_partial_decryption(cts)).collect()
    }
}

#[test]
fn part_of_a_batch_decrypts() {
    let mut s = system(4);
    let cts = s.batch(2, 3);
    let partial = s.partial(&cts);
    let masks: Vec<Gt> = cts.iter().map(|c| c.mask).collect();
    assert_eq!(s.open(&cts, 3, &partial, false), Ok(masks));
}

#[test]
fn an_empty_batch_decrypts_to_nothing() {
    let s = system(2);
    let cts: Vec<Ciphertext> = Vec::new();
    let partial = s.partial(&cts);
    assert_eq!(s.open(&cts, 1, &partial, false), Ok(Vec::new()));
}

#[test]
fn a_changed_mask_is_found() {
    let mut s = system(3);
    let mut cts = s.batch(3, 2);
    let partial = s.partial(&cts);
    cts[1].mask = cts[1].mask.add(&Gt::generator());
    let expected = Err(DecryptError::MaskMismatch { index: 1 });
    assert_eq!(s.open(&cts, 2, &partial, false), expected);
    assert_eq!(s.open(&cts, 2, &partial, true), expected);
}

#[test]
fn a_changed_slot_is_out_of_range() {
    let mut s = system(2);
    let mut cts = s.batch(2, 2);
    let partial = s.partial(&cts);
    let far = Gt::generator().mul(&Scalar::from_u64(1 << 40));
    cts[0].encrypted_key.ct[3] = cts[0].encrypted_key.ct[3].add(&far);
    let expected = Err(DecryptError::DlogOutOfRange { slot: 3 });
    assert_eq!(s.open(&cts, 2, &partial, false), expected);
    assert_eq!(s.open(&cts, 2, &partial, true), expected);
}

#[test]
fn a_batch_that_is_too_large_is_refused() {
    let mut s = system(513);
    let one = s.batch(1, 2).remove(0);
    let cts = vec![one; 513];
    let partial = vec![PartialDecryption::zero(); 4];
    let expected = Err(DecryptError::BatchTooLarge(HomomorphicBatchTooLarge {
        batch_size: 513,
        max_batch_size: 512,
    }));
    assert_eq!(s.open(&cts, 2, &partial, false), expected);
    assert_eq!(s.open(&cts, 2, &partial, true), expected);
}

#[test]
fn chunks_are_exact() {
    assert_eq!(CHUNK_BITS as usize * NUM_CHUNKS, 256);
    let key = Scalar::from_u128(0x0007_0006_0005_0004_0003_0002_ffff_0001);
    let chunks = decompose_key(&key);
    assert_eq!(chunks.len(), NUM_CHUNKS);
    for (i, value) in [1u64, 0xffff, 2, 3, 4, 5, 6, 7].iter().enumerate() {
        assert_eq!(chunks[i], Scalar::from_u64(*value));
    }
    for chunk in &chunks[8..] {
        assert_eq!(*chunk, Scalar::zero());
    }
    assert_eq!(recompose_chunks(&chunks), key);
}

#[test]
fn chunks_put_together_give_the_key() {
    let mut rng = test_rng();
    let largest = Scalar::one().neg();
    for key in [Scalar::zero(), largest, Scalar::random(&mut rng), Scalar::random(&mut rng)] {
        assert_eq!(recompose_chunks(&decompose_key(&key)), key);
    }
}

#[test]
fn the_same_draws_give_the_same_ciphertext() {
    let s = system(2);
    let mut first = StdRng::seed_from_u64(77);
    let mut second = StdRng::seed_from_u64(77);
    let a = encrypt(1, &s.bte_crs, &s.ste_crs, &s.ek, 3, &mut first);
    let (b, witness) =
        encrypt_with_witness(1, &s.bte_crs, &s.ste_crs, &s.ek, 3, &mut second);
    assert_eq!(a.pprf.point, b.pprf.point);
    assert_eq!(a.pprf.key, b.pprf.key);
    assert_eq!(a.mask, b.mask);
    assert_eq!(a.encrypted_key.t, b.encrypted_key.t);
    assert_eq!(a.encrypted_key.sa1, b.encrypted_key.sa1);
    assert_eq!(a.encrypted_key.sa2, b.encrypted_key.sa2);
    assert_eq!(a.encrypted_key.ct, b.encrypted_key.ct);
    // The witness explains it.
    let messages = witness
        .chunks
        .iter()
        .map(|chunk| Gt::generator().mul(chunk))
        .collect::<Vec<_>>();
    let (sa1, sa2, ct) = ste::encryption::encryption_parts(
        &s.ste_crs,
        &s.ek,
        3,
        &messages,
        &witness.ste_randomness.s,
    );
    assert_eq!(sa1, a.encrypted_key.sa1);
    assert_eq!(sa2, a.encrypted_key.sa2);
    assert_eq!(ct, a.encrypted_key.ct);
}
