use ark_std::rand::rngs::StdRng;
use ark_std::rand::SeedableRng;
use silent_batched_threshold_encryption::field::{random_scalars, Scalar};

fn s(x: u64) -> Scalar {
    Scalar::from_u64(x)
}

// The order of the groups, lowest byte first.
const ORDER: [u8; 32] = [
    0x01, 0x00, 0x00, 0x00, 0xff, 0xff, 0xff, 0xff, 0xfe, 0x5b, 0xfe, 0xff, 0x02, 0xa4, 0xbd, 0x53,
    0x05, 0xd8, 0xa1, 0x09, 0x08, 0xd8, 0x39, 0x33, 0x48, 0x7d, 0x9d, 0x29, 0x53, 0xa7, 0xed, 0x73,
];

#[test]
fn arithmetic_is_modular() {
    assert_eq!(s(7).add(&s(35)), s(42));
    assert_eq!(s(50).sub(&s(8)), s(42));
    assert_eq!(s(6).mul(&s(7)), s(42));
    assert_eq!(s(8).sub(&s(50)).add(&s(50)), s(8));
    assert_eq!(s(42).neg().add(&s(42)), Scalar::zero());
    assert_eq!(Scalar::zero().neg(), Scalar::zero());
    assert_eq!(s(3).pow(5), s(243));
    assert_eq!(s(3).pow(0), Scalar::one());
    assert_eq!(Scalar::one().neg().pow(2), Scalar::one());
}

#[test]
fn inverses_exist_but_for_zero() {
    let seven = s(7);
    assert_eq!(seven.inverse().unwrap().mul(&seven), Scalar::one());
    assert_ne!(seven.inverse().unwrap(), seven);
    assert_eq!(Scalar::zero().inverse(), None);
}

#[test]
fn shifts_work_on_the_canonical_representative() {
    let x = Scalar::from_u128(0x1234_5678_9abc_def0_1122_3344_5566_7788);
    assert_eq!(x.shift_right(64), s(0x1234_5678_9abc_def0));
    assert_eq!(x.shift_right(0), x);
    assert_eq!(s(0x1122).shift_left(64), Scalar::from_u128(0x1122u128 << 64));
    assert_eq!(s(1).shift_right(255), Scalar::zero());
    // The largest scalar has 255 bits.
    assert_eq!(Scalar::one().neg().shift_right(254), Scalar::one());
}

#[test]
fn limbs_and_bytes() {
    let x = Scalar::from_u128((9u128 << 64) + 5);
    assert_eq!(x.to_limbs(), [5, 9, 0, 0]);
    let bytes = s(0x0102).to_bytes();
    assert_eq!(bytes.len(), 32);
    assert_eq!(&bytes[..3], &[2, 1, 0]);
    assert_eq!(Scalar::from_le_bytes_mod_order(&bytes), s(0x0102));
}

#[test]
fn bytes_are_reduced() {
    assert_eq!(Scalar::from_le_bytes_mod_order(&ORDER.to_vec()), Scalar::zero());
    let mut next = ORDER.to_vec();
    next[0] += 41;
    assert_eq!(Scalar::from_le_bytes_mod_order(&next), s(41));
    assert_eq!(Scalar::from_le_bytes_mod_order(&Vec::new()), Scalar::zero());
    let mut largest = ORDER.to_vec();
    largest[0] = 0;
    assert_eq!(Scalar::one().neg().to_bytes(), largest);
}

#[test]
fn equality_is_that_of_values() {
    assert!(s(5).equals(&s(2).add(&s(3))));
    assert!(!s(5).equals(&s(6)));
    assert!(Scalar::zero().is_zero());
    assert!(!Scalar::one().is_zero());
}

#[test]
fn random_scalars_differ() {
    let mut rng = StdRng::seed_from_u64(5);
    let drawn = random_scalars(3, &mut rng);
    assert_eq!(drawn.len(), 3);
    assert_ne!(drawn[0], drawn[1]);
    assert_ne!(drawn[1], drawn[2]);
}
