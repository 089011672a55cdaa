use sha2::{Digest, Sha256};
use silent_batched_threshold_encryption::field::Scalar;
use silent_batched_threshold_encryption::group::G1;
use silent_batched_threshold_encryption::transcript::{Encode, Transcript};

fn framed(bytes: &[u8]) -> Vec<u8> {
    let mut res = (bytes.len() as u64).to_le_bytes().to_vec();
    res.extend_from_slice(bytes);
    res
}

#[test]
fn transcripts_hash_what_was_said() {
    let g = G1::generator();
    let mut transcript = Transcript::new("domain");
    transcript.append_usize("number", 300);
    transcript.append_bytes("bytes", &[1, 2, 3]);
    transcript.append_serializable("point", &g);
    transcript.append_serializable_slice("list", &vec![g, G1::zero()]);

    let mut expected = framed(b"domain");
    expected.extend(framed(b"number"));
    expected.extend(300u64.to_le_bytes());
    expected.extend(framed(b"bytes"));
    expected.extend(framed(&[1, 2, 3]));
    expected.extend(framed(b"point"));
    expected.extend(framed(&g.compress()));
    expected.extend(framed(b"list"));
    expected.extend(2u64.to_le_bytes());
    expected.extend(framed(&g.compress()));
    expected.extend(framed(&G1::zero().compress()));
    let digest: [u8; 32] = Sha256::digest(&expected).into();
    assert_eq!(transcript.finalize(), digest);
}

#[test]
fn digest_of_an_empty_domain() {
    // SHA-256 of eight zero bytes.
    let digest = Transcript::new("").finalize();
    assert_eq!(&digest[..4], &[0xaf, 0x55, 0x70, 0xf5]);
}

#[test]
fn challenges_are_reduced_digests() {
    let digest = Transcript::new("x").finalize();
    let challenge = Transcript::new("x").challenge();
    assert_eq!(challenge, Scalar::from_le_bytes_mod_order(&digest.to_vec()));
    assert_ne!(challenge, Transcript::new("y").challenge());
}

#[test]
fn encodings_of_compound_values() {
    assert_eq!(5usize.encode(), vec![5, 0, 0, 0, 0, 0, 0, 0]);
    assert_eq!(vec![1usize, 2].encode().len(), 24);
    assert_eq!([1usize, 2].encode().len(), 16);
    assert_eq!(Scalar::from_u64(258).encode()[..3], [2, 1, 0]);
    let nested = vec![vec![7usize], Vec::new()];
    assert_eq!(nested.encode().len(), 8 + 8 + 8 + 8);
}
