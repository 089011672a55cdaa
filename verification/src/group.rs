//! The three groups of the pairing, each of prime order, written additively.
//!
//! An element is held as its canonical uncompressed encoding. Its mathematical value is its
//! discrete logarithm to the base of the group's generator, so that the group operations are the
//! operations of the scalars on the logarithms.
use crate::algebra::congruence::{lemma_mod_range, lemma_reduced, modulus};
use crate::algebra::fourier::is_transform;
use crate::algebra::roots::is_domain_size;
use crate::algebra::sums::sum;
use crate::field::{vals, Scalar};
use ark_bls12_381::{Bls12_381, Fr, G1Affine, G1Projective, G2Affine, G2Projective};
use ark_ec::pairing::{Pairing, PairingOutput};
use ark_ec::{CurveGroup, PrimeGroup, ScalarMul, VariableBaseMSM};
use ark_ff::{BigInt, PrimeField, Zero};
use ark_poly::{EvaluationDomain, Radix2EvaluationDomain};
use ark_serialize::{CanonicalDeserialize, CanonicalSerialize};
use vstd::prelude::*;

verus! {

/// The uncompressed encoding of the multiple of the generator of the first group.
pub uninterp spec fn g1_encoding(k: int) -> Seq<u8>;

/// The uncompressed encoding of the multiple of the generator of the second group.
pub uninterp spec fn g2_encoding(k: int) -> Seq<u8>;

/// The encoding of the multiple of the generator of the target group.
pub uninterp spec fn gt_encoding(k: int) -> Seq<u8>;

/// The compressed encoding of the multiple of the generator of the first group.
pub uninterp spec fn g1_compressed(k: int) -> Seq<u8>;

/// The compressed encoding of the multiple of the generator of the second group.
pub uninterp spec fn g2_compressed(k: int) -> Seq<u8>;

/// `sum of scalars[i] * points[i]`.
pub open spec fn inner_product(points: Seq<int>, scalars: Seq<int>) -> int {
    sum(points.len() as int, |i: int| points[i] * scalars[i])
}

/// An element of the first group.
#[derive(Clone, Copy, Debug, PartialEq, Eq)]
pub struct G1 {
    bytes: [u8; 96],
}

impl View for G1 {
    type V = int;

    /// The discrete logarithm.
    closed spec fn view(&self) -> int {
        (choose|k: int| 0 <= k < modulus() && self.bytes@ == #[trigger] g1_encoding(k)) % modulus()
    }
}

/// Logarithms are reduced.
pub broadcast proof fn lemma_g1_range(p: G1)
    ensures
        0 <= #[trigger] p@ < modulus(),
{
    lemma_mod_range(choose|k: int| 0 <= k < modulus() && p.bytes@ == #[trigger] g1_encoding(k));
}

impl G1 {
    #[verifier::type_invariant]
    closed spec fn is_element(self) -> bool {
        exists|k: int| 0 <= k < modulus() && self.bytes@ == #[trigger] g1_encoding(k)
    }

    proof fn lemma_encoding(&self)
        requires
            self.is_element(),
        ensures
            self.bytes@ == g1_encoding(self@),
    {
        lemma_reduced(
            choose|k: int| 0 <= k < modulus() && self.bytes@ == #[trigger] g1_encoding(k),
        );
    }

    pub fn zero() -> (res: G1)
        ensures
            res@ == 0,
    {
        g1_zero()
    }

    pub fn generator() -> (res: G1)
        ensures
            res@ == 1,
    {
        g1_generator()
    }

    /// Whether two elements are the same. Encodings are canonical.
    pub fn equals(&self, other: &G1) -> (res: bool)
        ensures
            res == (self@ == other@),
    {
        proof {
            use_type_invariant(self);
            use_type_invariant(other);
            self.lemma_encoding();
            other.lemma_encoding();
        }
        let mut i: usize = 0;
        while i < 96
            invariant
                0 <= i <= 96,
                forall|j: int| 0 <= j < i ==> self.bytes@[j] == other.bytes@[j],
                self.bytes@ == g1_encoding(self@),
                other.bytes@ == g1_encoding(other@),
            decreases 96 - i,
        {
            if self.bytes[i] != other.bytes[i] {
                return false;
            }
            i += 1;
        }
        assert(self.bytes@ =~= other.bytes@);
        true
    }

    pub fn add(&self, other: &G1) -> (res: G1)
        ensures
            res@ == (self@ + other@) % modulus(),
    {
        g1_add(self, other)
    }

    pub fn sub(&self, other: &G1) -> (res: G1)
        ensures
            res@ == (self@ - other@) % modulus(),
    {
        g1_sub(self, other)
    }

    pub fn mul(&self, scalar: &Scalar) -> (res: G1)
        ensures
            res@ == (self@ * scalar@) % modulus(),
    {
        g1_mul(self, scalar)
    }

    /// The compressed encoding.
    pub fn compress(&self) -> (res: Vec<u8>)
        ensures
            res@ == g1_compressed(self@),
    {
        g1_compress(self)
    }

    /// The element with the given compressed encoding, if there is one.
    pub fn decompress(bytes: &[u8; 48]) -> (res: Option<G1>)
        ensures
            res matches Some(p) ==> g1_compressed(p@) == bytes@,
            forall|k: int|
                0 <= k < modulus() && #[trigger] g1_compressed(k) == bytes@ ==> res is Some
                    && res->0@ == k,
    {
        g1_decompress(bytes)
    }
}

/// An element of the second group.
#[derive(Clone, Copy, Debug, PartialEq, Eq)]
pub struct G2 {
    bytes: [u8; 192],
}

impl View for G2 {
    type V = int;

    /// The discrete logarithm.
    closed spec fn view(&self) -> int {
        (choose|k: int| 0 <= k < modulus() && self.bytes@ == #[trigger] g2_encoding(k)) % modulus()
    }
}

/// Logarithms are reduced.
pub broadcast proof fn lemma_g2_range(p: G2)
    ensures
        0 <= #[trigger] p@ < modulus(),
{
    lemma_mod_range(choose|k: int| 0 <= k < modulus() && p.bytes@ == #[trigger] g2_encoding(k));
}

impl G2 {
    #[verifier::type_invariant]
    closed spec fn is_element(self) -> bool {
        exists|k: int| 0 <= k < modulus() && self.bytes@ == #[trigger] g2_encoding(k)
    }

    proof fn lemma_encoding(&self)
        requires
            self.is_element(),
        ensures
            self.bytes@ == g2_encoding(self@),
    {
        lemma_reduced(
            choose|k: int| 0 <= k < modulus() && self.bytes@ == #[trigger] g2_encoding(k),
        );
    }

    pub fn zero() -> (res: G2)
        ensures
            res@ == 0,
    {
        g2_zero()
    }

    /// Whether two elements are the same. Encodings are canonical.
    pub fn equals(&self, other: &G2) -> (res: bool)
        ensures
            res == (self@ == other@),
    {
        proof {
            use_type_invariant(self);
            use_type_invariant(other);
            self.lemma_encoding();
            other.lemma_encoding();
        }
        let mut i: usize = 0;
        while i < 192
            invariant
                0 <= i <= 192,
                forall|j: int| 0 <= j < i ==> self.bytes@[j] == other.bytes@[j],
                self.bytes@ == g2_encoding(self@),
                other.bytes@ == g2_encoding(other@),
            decreases 192 - i,
        {
            if self.bytes[i] != other.bytes[i] {
                return false;
            }
            i += 1;
        }
        assert(self.bytes@ =~= other.bytes@);
        true
    }

    pub fn add(&self, other: &G2) -> (res: G2)
        ensures
            res@ == (self@ + other@) % modulus(),
    {
        g2_add(self, other)
    }

    pub fn sub(&self, other: &G2) -> (res: G2)
        ensures
            res@ == (self@ - other@) % modulus(),
    {
        g2_sub(self, other)
    }

    pub fn mul(&self, scalar: &Scalar) -> (res: G2)
        ensures
            res@ == (self@ * scalar@) % modulus(),
    {
        g2_mul(self, scalar)
    }

    /// The compressed encoding.
    pub fn compress(&self) -> (res: Vec<u8>)
        ensures
            res@ == g2_compressed(self@),
    {
        g2_compress(self)
    }
}

/// An element of the target group.
#[derive(Clone, Copy, Debug, PartialEq, Eq)]
pub struct Gt {
    bytes: [u8; 576],
}

impl View for Gt {
    type V = int;

    /// The discrete logarithm.
    closed spec fn view(&self) -> int {
        (choose|k: int| 0 <= k < modulus() && self.bytes@ == #[trigger] gt_encoding(k)) % modulus()
    }
}

/// Logarithms are reduced.
pub broadcast proof fn lemma_gt_range(p: Gt)
    ensures
        0 <= #[trigger] p@ < modulus(),
{
    lemma_mod_range(choose|k: int| 0 <= k < modulus() && p.bytes@ == #[trigger] gt_encoding(k));
}

impl Gt {
    #[verifier::type_invariant]
    closed spec fn is_element(self) -> bool {
        exists|k: int| 0 <= k < modulus() && self.bytes@ == #[trigger] gt_encoding(k)
    }

    proof fn lemma_encoding(&self)
        requires
            self.is_element(),
        ensures
            self.bytes@ == gt_encoding(self@),
    {
        lemma_reduced(
            choose|k: int| 0 <= k < modulus() && self.bytes@ == #[trigger] gt_encoding(k),
        );
    }

    pub fn zero() -> (res: Gt)
        ensures
            res@ == 0,
    {
        gt_zero()
    }

    pub fn generator() -> (res: Gt)
        ensures
            res@ == 1,
    {
        gt_generator()
    }

    /// Whether two elements are the same. Encodings are canonical.
    pub fn equals(&self, other: &Gt) -> (res: bool)
        ensures
            res == (self@ == other@),
    {
        proof {
            use_type_invariant(self);
            use_type_invariant(other);
            self.lemma_encoding();
            other.lemma_encoding();
        }
        let mut i: usize = 0;
        while i < 576
            invariant
                0 <= i <= 576,
                forall|j: int| 0 <= j < i ==> self.bytes@[j] == other.bytes@[j],
                self.bytes@ == gt_encoding(self@),
                other.bytes@ == gt_encoding(other@),
            decreases 576 - i,
        {
            if self.bytes[i] != other.bytes[i] {
                return false;
            }
            i += 1;
        }
        assert(self.bytes@ =~= other.bytes@);
        true
    }

    pub fn add(&self, other: &Gt) -> (res: Gt)
        ensures
            res@ == (self@ + other@) % modulus(),
    {
        gt_add(self, other)
    }

    pub fn sub(&self, other: &Gt) -> (res: Gt)
        ensures
            res@ == (self@ - other@) % modulus(),
    {
        gt_sub(self, other)
    }

    pub fn mul(&self, scalar: &Scalar) -> (res: Gt)
        ensures
            res@ == (self@ * scalar@) % modulus(),
    {
        gt_mul(self, scalar)
    }

    /// The encoding, in 576 bytes.
    pub fn to_bytes(&self) -> (res: Vec<u8>)
        ensures
            res@ == gt_encoding(self@),
            res@.len() == 576,
    {
        proof {
            use_type_invariant(self);
            self.lemma_encoding();
        }
        let mut res: Vec<u8> = Vec::new();
        let mut i: usize = 0;
        while i < 576
            invariant
                0 <= i <= 576,
                res@ == self.bytes@.subrange(0, i as int),
            decreases 576 - i,
        {
            res.push(self.bytes[i]);
            i += 1;
        }
        assert(res@ =~= self.bytes@);
        res
    }
}

/// `PrimeGroup::generator` of `ark_ec` for `G1Projective`, in its canonical encoding.
#[verifier::external_body]
fn g1_generator() -> (res: G1)
    ensures
        res@ == 1,
        res.bytes@ == g1_encoding(1),
{
    let point = G1Projective::generator();
    let mut bytes = [0u8; 96];
    point.into_affine().serialize_uncompressed(&mut bytes[..]).unwrap();
    G1 { bytes }
}

/// `Zero::zero` of `ark_ff` for `G1Projective`: the neutral element.
#[verifier::external_body]
fn g1_zero() -> (res: G1)
    ensures
        res@ == 0,
        res.bytes@ == g1_encoding(0),
{
    let point = G1Projective::zero();
    let mut bytes = [0u8; 96];
    point.into_affine().serialize_uncompressed(&mut bytes[..]).unwrap();
    G1 { bytes }
}

/// The group addition of `ark_ec` for `G1Projective`: it adds logarithms.
#[verifier::external_body]
fn g1_add(a: &G1, b: &G1) -> (res: G1)
    ensures
        res@ == (a@ + b@) % modulus(),
{
    let a = G1Affine::deserialize_uncompressed_unchecked(&a.bytes[..]).unwrap();
    let b = G1Affine::deserialize_uncompressed_unchecked(&b.bytes[..]).unwrap();
    let point = G1Projective::from(a) + b;
    let mut bytes = [0u8; 96];
    point.into_affine().serialize_uncompressed(&mut bytes[..]).unwrap();
    G1 { bytes }
}

/// The group subtraction of `ark_ec` for `G1Projective`: it subtracts logarithms.
#[verifier::external_body]
fn g1_sub(a: &G1, b: &G1) -> (res: G1)
    ensures
        res@ == (a@ - b@) % modulus(),
{
    let a = G1Affine::deserialize_uncompressed_unchecked(&a.bytes[..]).unwrap();
    let b = G1Affine::deserialize_uncompressed_unchecked(&b.bytes[..]).unwrap();
    let point = G1Projective::from(a) - b;
    let mut bytes = [0u8; 96];
    point.into_affine().serialize_uncompressed(&mut bytes[..]).unwrap();
    G1 { bytes }
}

/// The scalar multiplication of `ark_ec` for `G1Projective`: it multiplies the logarithm.
#[verifier::external_body]
fn g1_mul(a: &G1, k: &Scalar) -> (res: G1)
    ensures
        res@ == (a@ * k@) % modulus(),
{
    let a = G1Affine::deserialize_uncompressed_unchecked(&a.bytes[..]).unwrap();
    let point = G1Projective::from(a) * Fr::new(BigInt(k.to_limbs()));
    let mut bytes = [0u8; 96];
    point.into_affine().serialize_uncompressed(&mut bytes[..]).unwrap();
    G1 { bytes }
}

/// `CanonicalSerialize::serialize_compressed` of `ark_serialize` for `G1Affine`: the result is a
/// function of the point.
#[verifier::external_body]
fn g1_compress(a: &G1) -> (res: Vec<u8>)
    ensures
        res@ == g1_compressed(a@),
{
    let point = G1Affine::deserialize_uncompressed_unchecked(&a.bytes[..]).unwrap();
    let mut bytes = Vec::new();
    point.serialize_compressed(&mut bytes).unwrap();
    bytes
}

/// `CanonicalDeserialize::deserialize_compressed` of `ark_serialize` for `G1Affine`: it accepts
/// the compressed encodings of the elements of the group and no other bytes, and gives back the
/// element that was encoded.
#[verifier::external_body]
fn g1_decompress(bytes: &[u8; 48]) -> (res: Option<G1>)
    ensures
        res matches Some(p) ==> g1_compressed(p@) == bytes@,
        forall|k: int|
            0 <= k < modulus() && #[trigger] g1_compressed(k) == bytes@ ==> res is Some && res->0@
                == k,
{
    G1Affine::deserialize_compressed(&bytes[..]).ok().map(|point| {
        let mut bytes = [0u8; 96];
        point.serialize_uncompressed(&mut bytes[..]).unwrap();
        G1 { bytes }
    })
}

/// `ScalarMul::batch_mul` of `ark_ec` on the generator of `G1Projective`: all its multiples by the
/// given scalars.
#[verifier::external_body]
pub(crate) fn g1_generator_multiples(scalars: &Vec<Scalar>) -> (res: Vec<G1>)
    ensures
        res@.len() == scalars@.len(),
        forall|i: int| 0 <= i < scalars@.len() ==> (#[trigger] res@[i])@ == scalars@[i]@,
{
    let ks: Vec<Fr> = scalars.iter().map(|k| Fr::new(BigInt(k.to_limbs()))).collect();
    let points = G1Projective::generator().batch_mul(&ks);
    points.iter().map(|p| {
        let mut bytes = [0u8; 96];
        p.serialize_uncompressed(&mut bytes[..]).unwrap();
        G1 { bytes }
    }).collect()
}

/// `VariableBaseMSM::msm` of `ark_ec` for `G1Projective`: the sum of the points' multiples. It
/// fails on lists of different lengths only.
#[verifier::external_body]
pub(crate) fn g1_msm(points: &Vec<G1>, scalars: &Vec<Scalar>) -> (res: G1)
    requires
        points@.len() == scalars@.len(),
    ensures
        res@ == inner_product(vals(points@), vals(scalars@)) % modulus(),
{
    let ps: Vec<G1Affine> = points.iter().map(|p| {
        G1Affine::deserialize_uncompressed_unchecked(&p.bytes[..]).unwrap()
    }).collect();
    let ks: Vec<Fr> = scalars.iter().map(|k| Fr::new(BigInt(k.to_limbs()))).collect();
    let point = G1Projective::msm(&ps, &ks).unwrap();
    let mut bytes = [0u8; 96];
    point.into_affine().serialize_uncompressed(&mut bytes[..]).unwrap();
    G1 { bytes }
}

/// `EvaluationDomain::fft` of `ark_poly` on `G1Projective`: the discrete Fourier transform of the
/// points.
#[verifier::external_body]
pub(crate) fn g1_fft(points: &Vec<G1>, size: usize) -> (res: Vec<G1>)
    requires
        is_domain_size(size as int),
        points@.len() <= size,
    ensures
        is_transform(vals(points@), vals(res@), size as int),
{
    let input: Vec<G1Projective> = points.iter().map(|p| {
        G1Affine::deserialize_uncompressed_unchecked(&p.bytes[..]).unwrap().into()
    }).collect();
    let output = Radix2EvaluationDomain::<Fr>::new(size).unwrap().fft(&input);
    output.iter().map(|p| {
        let mut bytes = [0u8; 96];
        p.into_affine().serialize_uncompressed(&mut bytes[..]).unwrap();
        G1 { bytes }
    }).collect()
}

/// `EvaluationDomain::ifft` of `ark_poly` on `G1Projective`: the inverse of the transform.
#[verifier::external_body]
pub(crate) fn g1_ifft(points: &Vec<G1>, size: usize) -> (res: Vec<G1>)
    requires
        is_domain_size(size as int),
        points@.len() == size,
    ensures
        res@.len() == size,
        is_transform(vals(res@), vals(points@), size as int),
{
    let input: Vec<G1Projective> = points.iter().map(|p| {
        G1Affine::deserialize_uncompressed_unchecked(&p.bytes[..]).unwrap().into()
    }).collect();
    let output = Radix2EvaluationDomain::<Fr>::new(size).unwrap().ifft(&input);
    output.iter().map(|p| {
        let mut bytes = [0u8; 96];
        p.into_affine().serialize_uncompressed(&mut bytes[..]).unwrap();
        G1 { bytes }
    }).collect()
}

/// `Zero::zero` of `ark_ff` for `G2Projective`: the neutral element.
#[verifier::external_body]
fn g2_zero() -> (res: G2)
    ensures
        res@ == 0,
        res.bytes@ == g2_encoding(0),
{
    let point = G2Projective::zero();
    let mut bytes = [0u8; 192];
    point.into_affine().serialize_uncompressed(&mut bytes[..]).unwrap();
    G2 { bytes }
}

/// The group addition of `ark_ec` for `G2Projective`: it adds logarithms.
#[verifier::external_body]
fn g2_add(a: &G2, b: &G2) -> (res: G2)
    ensures
        res@ == (a@ + b@) % modulus(),
{
    let a = G2Affine::deserialize_uncompressed_unchecked(&a.bytes[..]).unwrap();
    let b = G2Affine::deserialize_uncompressed_unchecked(&b.bytes[..]).unwrap();
    let point = G2Projective::from(a) + b;
    let mut bytes = [0u8; 192];
    point.into_affine().serialize_uncompressed(&mut bytes[..]).unwrap();
    G2 { bytes }
}

/// The group subtraction of `ark_ec` for `G2Projective`: it subtracts logarithms.
#[verifier::external_body]
fn g2_sub(a: &G2, b: &G2) -> (res: G2)
    ensures
        res@ == (a@ - b@) % modulus(),
{
    let a = G2Affine::deserialize_uncompressed_unchecked(&a.bytes[..]).unwrap();
    let b = G2Affine::deserialize_uncompressed_unchecked(&b.bytes[..]).unwrap();
    let point = G2Projective::from(a) - b;
    let mut bytes = [0u8; 192];
    point.into_affine().serialize_uncompressed(&mut bytes[..]).unwrap();
    G2 { bytes }
}

/// The scalar multiplication of `ark_ec` for `G2Projective`: it multiplies the logarithm.
#[verifier::external_body]
fn g2_mul(a: &G2, k: &Scalar) -> (res: G2)
    ensures
        res@ == (a@ * k@) % modulus(),
{
    let a = G2Affine::deserialize_uncompressed_unchecked(&a.bytes[..]).unwrap();
    let point = G2Projective::from(a) * Fr::new(BigInt(k.to_limbs()));
    let mut bytes = [0u8; 192];
    point.into_affine().serialize_uncompressed(&mut bytes[..]).unwrap();
    G2 { bytes }
}

/// `CanonicalSerialize::serialize_compressed` of `ark_serialize` for `G2Affine`: the result is a
/// function of the point.
#[verifier::external_body]
fn g2_compress(a: &G2) -> (res: Vec<u8>)
    ensures
        res@ == g2_compressed(a@),
{
    let point = G2Affine::deserialize_uncompressed_unchecked(&a.bytes[..]).unwrap();
    let mut bytes = Vec::new();
    point.serialize_compressed(&mut bytes).unwrap();
    bytes
}

/// `ScalarMul::batch_mul` of `ark_ec` on the generator of `G2Projective`: all its multiples by the
/// given scalars.
#[verifier::external_body]
pub(crate) fn g2_generator_multiples(scalars: &Vec<Scalar>) -> (res: Vec<G2>)
    ensures
        res@.len() == scalars@.len(),
        forall|i: int| 0 <= i < scalars@.len() ==> (#[trigger] res@[i])@ == scalars@[i]@,
{
    let ks: Vec<Fr> = scalars.iter().map(|k| Fr::new(BigInt(k.to_limbs()))).collect();
    let points = G2Projective::generator().batch_mul(&ks);
    points.iter().map(|p| {
        let mut bytes = [0u8; 192];
        p.serialize_uncompressed(&mut bytes[..]).unwrap();
        G2 { bytes }
    }).collect()
}

/// `VariableBaseMSM::msm` of `ark_ec` for `G2Projective`: the sum of the points' multiples. It
/// fails on lists of different lengths only.
#[verifier::external_body]
pub(crate) fn g2_msm(points: &Vec<G2>, scalars: &Vec<Scalar>) -> (res: G2)
    requires
        points@.len() == scalars@.len(),
    ensures
        res@ == inner_product(vals(points@), vals(scalars@)) % modulus(),
{
    let ps: Vec<G2Affine> = points.iter().map(|p| {
        G2Affine::deserialize_uncompressed_unchecked(&p.bytes[..]).unwrap()
    }).collect();
    let ks: Vec<Fr> = scalars.iter().map(|k| Fr::new(BigInt(k.to_limbs()))).collect();
    let point = G2Projective::msm(&ps, &ks).unwrap();
    let mut bytes = [0u8; 192];
    point.into_affine().serialize_uncompressed(&mut bytes[..]).unwrap();
    G2 { bytes }
}

/// `EvaluationDomain::fft` of `ark_poly` on `G2Projective`: the discrete Fourier transform of the
/// points.
#[verifier::external_body]
pub(crate) fn g2_fft(points: &Vec<G2>, size: usize) -> (res: Vec<G2>)
    requires
        is_domain_size(size as int),
        points@.len() <= size,
    ensures
        is_transform(vals(points@), vals(res@), size as int),
{
    let input: Vec<G2Projective> = points.iter().map(|p| {
        G2Affine::deserialize_uncompressed_unchecked(&p.bytes[..]).unwrap().into()
    }).collect();
    let output = Radix2EvaluationDomain::<Fr>::new(size).unwrap().fft(&input);
    output.iter().map(|p| {
        let mut bytes = [0u8; 192];
        p.into_affine().serialize_uncompressed(&mut bytes[..]).unwrap();
        G2 { bytes }
    }).collect()
}

/// `PrimeGroup::generator` of `ark_ec` for `PairingOutput`, in its canonical encoding.
#[verifier::external_body]
fn gt_generator() -> (res: Gt)
    ensures
        res@ == 1,
        res.bytes@ == gt_encoding(1),
{
    let point = PairingOutput::<Bls12_381>::generator();
    let mut bytes = [0u8; 576];
    point.serialize_uncompressed(&mut bytes[..]).unwrap();
    Gt { bytes }
}

/// `Zero::zero` of `ark_ff` for `PairingOutput`: the neutral element.
#[verifier::external_body]
fn gt_zero() -> (res: Gt)
    ensures
        res@ == 0,
        res.bytes@ == gt_encoding(0),
{
    let point = PairingOutput::<Bls12_381>::zero();
    let mut bytes = [0u8; 576];
    point.serialize_uncompressed(&mut bytes[..]).unwrap();
    Gt { bytes }
}

/// The group addition of `ark_ec` for `PairingOutput`: it adds logarithms.
#[verifier::external_body]
fn gt_add(a: &Gt, b: &Gt) -> (res: Gt)
    ensures
        res@ == (a@ + b@) % modulus(),
{
    let a = PairingOutput::<Bls12_381>::deserialize_uncompressed_unchecked(&a.bytes[..]).unwrap();
    let b = PairingOutput::<Bls12_381>::deserialize_uncompressed_unchecked(&b.bytes[..]).unwrap();
    let point = a + b;
    let mut bytes = [0u8; 576];
    point.serialize_uncompressed(&mut bytes[..]).unwrap();
    Gt { bytes }
}

/// The group subtraction of `ark_ec` for `PairingOutput`: it subtracts logarithms.
#[verifier::external_body]
fn gt_sub(a: &Gt, b: &Gt) -> (res: Gt)
    ensures
        res@ == (a@ - b@) % modulus(),
{
    let a = PairingOutput::<Bls12_381>::deserialize_uncompressed_unchecked(&a.bytes[..]).unwrap();
    let b = PairingOutput::<Bls12_381>::deserialize_uncompressed_unchecked(&b.bytes[..]).unwrap();
    let point = a - b;
    let mut bytes = [0u8; 576];
    point.serialize_uncompressed(&mut bytes[..]).unwrap();
    Gt { bytes }
}

/// The scalar multiplication of `ark_ec` for `PairingOutput`: it multiplies the logarithm.
#[verifier::external_body]
fn gt_mul(a: &Gt, k: &Scalar) -> (res: Gt)
    ensures
        res@ == (a@ * k@) % modulus(),
{
    let a = PairingOutput::<Bls12_381>::deserialize_uncompressed_unchecked(&a.bytes[..]).unwrap();
    let point = a * Fr::new(BigInt(k.to_limbs()));
    let mut bytes = [0u8; 576];
    point.serialize_uncompressed(&mut bytes[..]).unwrap();
    Gt { bytes }
}

/// `EvaluationDomain::ifft` of `ark_poly` on `PairingOutput`: the inverse of the transform.
#[verifier::external_body]
pub(crate) fn gt_ifft(points: &Vec<Gt>, size: usize) -> (res: Vec<Gt>)
    requires
        is_domain_size(size as int),
        points@.len() == size,
    ensures
        res@.len() == size,
        is_transform(vals(res@), vals(points@), size as int),
{
    let input: Vec<PairingOutput<Bls12_381>> = points.iter().map(|p| {
        PairingOutput::<Bls12_381>::deserialize_uncompressed_unchecked(&p.bytes[..]).unwrap()
    }).collect();
    let output = Radix2EvaluationDomain::<Fr>::new(size).unwrap().ifft(&input);
    output.iter().map(|p| {
        let mut bytes = [0u8; 576];
        p.serialize_uncompressed(&mut bytes[..]).unwrap();
        Gt { bytes }
    }).collect()
}

/// `Pairing::pairing` of `ark_ec` for `Bls12_381`. The pairing is bilinear, and the generator of
/// the target group is the pairing of the two generators.
#[verifier::external_body]
pub(crate) fn pairing(p: &G1, q: &G2) -> (res: Gt)
    ensures
        res@ == (p@ * q@) % modulus(),
{
    let p = G1Affine::deserialize_uncompressed_unchecked(&p.bytes[..]).unwrap();
    let q = G2Affine::deserialize_uncompressed_unchecked(&q.bytes[..]).unwrap();
    let value = Bls12_381::pairing(p, q);
    let mut bytes = [0u8; 576];
    value.serialize_uncompressed(&mut bytes[..]).unwrap();
    Gt { bytes }
}

/// `Pairing::multi_pairing` of `ark_ec` for `Bls12_381`: the sum of the pairings. It panics on
/// lists of different lengths.
#[verifier::external_body]
pub(crate) fn multi_pairing(ps: &Vec<G1>, qs: &Vec<G2>) -> (res: Gt)
    requires
        ps@.len() == qs@.len(),
    ensures
        res@ == inner_product(vals(ps@), vals(qs@)) % modulus(),
{
    let a: Vec<G1Affine> = ps.iter().map(|p| {
        G1Affine::deserialize_uncompressed_unchecked(&p.bytes[..]).unwrap()
    }).collect();
    let b: Vec<G2Affine> = qs.iter().map(|q| {
        G2Affine::deserialize_uncompressed_unchecked(&q.bytes[..]).unwrap()
    }).collect();
    let value = Bls12_381::multi_pairing(a, b);
    let mut bytes = [0u8; 576];
    value.serialize_uncompressed(&mut bytes[..]).unwrap();
    Gt { bytes }
}

} // verus!
