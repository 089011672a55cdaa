use silent_batched_threshold_encryption::bte::crs::CRS as BteCRS;
use silent_batched_threshold_encryption::field::Scalar;
use silent_batched_threshold_encryption::group::{G1, G2, Gt};

fn s(x: u64) -> Scalar {
    Scalar::from_u64(x)
}

fn g2_generator() -> G2 {
    BteCRS::from_secret(1, &s(1)).powers_of_h[0]
}

#[test]
fn operations_follow_the_exponents() {
    let g = G1::generator();
    assert_eq!(g.mul(&s(2)).add(&g.mul(&s(3))), g.mul(&s(5)));
    assert_eq!(g.mul(&s(2)).sub(&g.mul(&s(3))), g.mul(&s(1).neg()));
    assert_eq!(g.mul(&Scalar::zero()), G1::zero());
    assert_ne!(g, G1::zero());

    let h = g2_generator();
    assert_eq!(h.mul(&s(2)).add(&h.mul(&s(3))), h.mul(&s(5)));
    assert_eq!(h.mul(&s(2)).sub(&h), h);
    assert_eq!(h.sub(&h), G2::zero());

    let t = Gt::generator();
    assert_eq!(t.mul(&s(2)).add(&t.mul(&s(3))), t.mul(&s(5)));
    assert_eq!(t.mul(&s(2)).sub(&t), t);
    assert_eq!(t.sub(&t), Gt::zero());
}

#[test]
fn equality_is_that_of_elements() {
    let g = G1::generator();
    assert!(g.add(&g).equals(&g.mul(&s(2))));
    assert!(!g.equals(&G1::zero()));
    let t = Gt::generator();
    assert!(t.add(&t).equals(&t.mul(&s(2))));
    assert!(!t.equals(&Gt::zero()));
    let h = g2_generator();
    assert!(h.add(&h).equals(&h.mul(&s(2))));
    assert!(!h.equals(&G2::zero()));
}

#[test]
fn compressed_generators_are_the_standard_ones() {
    let g1 = G1::generator().compress();
    assert_eq!(g1.len(), 48);
    assert_eq!(&g1[..8], &[0x97, 0xf1, 0xd3, 0xa7, 0x31, 0x97, 0xd7, 0x94]);
    assert_eq!(&g1[44..], &[0xdb, 0x22, 0xc6, 0xbb]);
    let g2 = g2_generator().compress();
    assert_eq!(g2.len(), 96);
    assert_eq!(&g2[..4], &[0x93, 0xe0, 0x2b, 0x60]);
    assert_eq!(G1::zero().compress()[0], 0xc0);
    assert_ne!(G1::generator().mul(&s(2)).compress(), g1);
}

#[test]
fn target_elements_have_encodings_of_their_own() {
    let t = Gt::generator();
    let bytes = t.to_bytes();
    assert_eq!(bytes.len(), 576);
    assert_ne!(bytes, Gt::zero().to_bytes());
    // The neutral element is the one of the field.
    let one = Gt::zero().to_bytes();
    assert_eq!(one[0], 1);
    assert!(one[1..].iter().all(|b| *b == 0));
    // An element and its inverse share the first half of their encodings.
    let inverse = Gt::zero().sub(&t).to_bytes();
    assert_eq!(bytes[..288], inverse[..288]);
    assert_ne!(bytes, inverse);
}

#[test]
fn compressed_elements_are_read_back() {
    for k in [0u64, 1, 2, 12345] {
        let p = G1::generator().mul(&s(k));
        let bytes: [u8; 48] = p.compress().try_into().unwrap();
        assert_eq!(G1::decompress(&bytes), Some(p));
    }
    // No flag, a field element that is too large, a neutral element with a coordinate.
    assert_eq!(G1::decompress(&[0; 48]), None);
    assert_eq!(G1::decompress(&[0xff; 48]), None);
    let mut bytes = [0; 48];
    bytes[0] = 0xc0;
    assert_eq!(G1::decompress(&bytes), Some(G1::zero()));
    bytes[47] = 1;
    assert_eq!(G1::decompress(&bytes), None);
}
