//! Scalars: the integers modulo the order of the pairing groups.
use crate::algebra::congruence::{lemma_mod_range, lemma_modulus, lemma_reduced, modulus};
use crate::algebra::fourier::is_transform;
use crate::algebra::primality::lemma_no_zero_divisors;
use crate::algebra::roots::{is_domain_size, unity_root};
use ark_bls12_381::Fr;
use ark_ff::{BigInt, Field, PrimeField};
use ark_poly::{EvaluationDomain, Radix2EvaluationDomain};
use ark_serialize::CanonicalSerialize;
use ark_std::rand::rngs::StdRng;
use ark_std::UniformRand;
use vstd::arithmetic::power::pow;
use vstd::arithmetic::power2::pow2;
use vstd::prelude::*;

verus! {

/// The generator of random bits that scalars are drawn with. Nothing is known of its state.
#[verifier::external_type_specification]
#[verifier::external_body]
pub struct ExStdRng(StdRng);

/// A scalar, held as the four 64-bit limbs of its canonical representative, lowest limb first.
#[derive(Clone, Copy, Debug, PartialEq, Eq)]
pub struct Scalar {
    limbs: [u64; 4],
}

/// The integer with the given 64-bit limbs, lowest limb first.
pub open spec fn limbs_value(limbs: Seq<u64>) -> int {
    limbs[0] + limbs[1] * 0x1_0000_0000_0000_0000int + limbs[2]
        * 0x1_0000_0000_0000_0000_0000_0000_0000_0000int + limbs[3]
        * 0x1_0000_0000_0000_0000_0000_0000_0000_0000_0000_0000_0000_0000int
}

/// The integer with the given bytes, lowest byte first.
pub open spec fn le_value(bytes: Seq<u8>) -> int
    decreases bytes.len(),
{
    if bytes.len() == 0 {
        0
    } else {
        bytes[0] + 256 * le_value(bytes.drop_first())
    }
}

/// The `n` lowest bytes of an integer, lowest byte first.
pub open spec fn le_bytes(v: int, n: nat) -> Seq<u8> {
    Seq::new(n, |i: int| ((v / pow(256, i as nat)) % 256) as u8)
}

/// The mathematical values of a sequence of scalars or group elements.
pub open spec fn vals<T: View<V = int>>(s: Seq<T>) -> Seq<int> {
    Seq::new(s.len(), |i: int| s[i]@)
}

impl View for Scalar {
    type V = int;

    /// The canonical representative.
    closed spec fn view(&self) -> int {
        limbs_value(self.limbs@) % modulus()
    }
}

/// Scalars are reduced.
pub broadcast proof fn lemma_scalar_range(s: Scalar)
    ensures
        0 <= #[trigger] s@ < modulus(),
{
    lemma_mod_range(limbs_value(s.limbs@));
}

impl Scalar {
    #[verifier::type_invariant]
    closed spec fn is_canonical(self) -> bool {
        limbs_value(self.limbs@) < modulus()
    }

    pub fn zero() -> (res: Scalar)
        ensures
            res@ == 0,
    {
        Scalar::from_u64(0)
    }

    pub fn one() -> (res: Scalar)
        ensures
            res@ == 1,
    {
        Scalar::from_u64(1)
    }

    pub fn from_u64(x: u64) -> (res: Scalar)
        ensures
            res@ == x,
    {
        proof {
            lemma_modulus();
            lemma_reduced(x as int);
        }
        Scalar { limbs: [x, 0, 0, 0] }
    }

    pub fn from_u128(x: u128) -> (res: Scalar)
        ensures
            res@ == x,
    {
        let low: u64 = (x % 0x1_0000_0000_0000_0000u128) as u64;
        let high: u64 = (x / 0x1_0000_0000_0000_0000u128) as u64;
        proof {
            lemma_modulus();
            lemma_reduced(x as int);
        }
        Scalar { limbs: [low, high, 0, 0] }
    }

    /// The scalar with the given canonical representative, by its limbs, lowest limb first.
    pub(crate) fn from_limbs(limbs: [u64; 4]) -> (res: Scalar)
        requires
            limbs_value(limbs@) < modulus(),
        ensures
            res@ == limbs_value(limbs@),
    {
        proof {
            lemma_reduced(limbs_value(limbs@));
        }
        Scalar { limbs }
    }

    /// The limbs of the canonical representative, lowest limb first.
    pub fn to_limbs(&self) -> (res: [u64; 4])
        ensures
            limbs_value(res@) == self@,
    {
        proof {
            use_type_invariant(self);
            lemma_reduced(limbs_value(self.limbs@));
        }
        self.limbs
    }

    /// Whether two scalars are the same.
    pub fn equals(&self, other: &Scalar) -> (res: bool)
        ensures
            res == (self@ == other@),
    {
        proof {
            use_type_invariant(self);
            use_type_invariant(other);
            lemma_reduced(limbs_value(self.limbs@));
            lemma_reduced(limbs_value(other.limbs@));
        }
        self.limbs[0] == other.limbs[0] && self.limbs[1] == other.limbs[1] && self.limbs[2]
            == other.limbs[2] && self.limbs[3] == other.limbs[3]
    }

    pub fn is_zero(&self) -> (res: bool)
        ensures
            res == (self@ == 0),
    {
        self.equals(&Scalar::zero())
    }

    pub fn add(&self, other: &Scalar) -> (res: Scalar)
        ensures
            res@ == (self@ + other@) % modulus(),
    {
        fr_add(self, other)
    }

    pub fn sub(&self, other: &Scalar) -> (res: Scalar)
        ensures
            res@ == (self@ - other@) % modulus(),
    {
        fr_sub(self, other)
    }

    pub fn neg(&self) -> (res: Scalar)
        ensures
            res@ == (-self@) % modulus(),
    {
        fr_sub(&Scalar::zero(), self)
    }

    /// The product. The scalars are a field, so it is zero only where a factor is.
    pub fn mul(&self, other: &Scalar) -> (res: Scalar)
        ensures
            res@ == (self@ * other@) % modulus(),
            res@ == 0 ==> self@ == 0 || other@ == 0,
    {
        let res = fr_mul(self, other);
        proof {
            if res@ == 0 {
                lemma_modulus();
                lemma_reduced(0);
                lemma_scalar_range(*self);
                lemma_scalar_range(*other);
                lemma_no_zero_divisors(self@, other@);
                lemma_reduced(self@);
                lemma_reduced(other@);
            }
        }
        res
    }

    pub fn pow(&self, e: u64) -> (res: Scalar)
        ensures
            res@ == pow(self@, e as nat) % modulus(),
    {
        fr_pow(self, e)
    }

    /// The multiplicative inverse, which every scalar but zero has.
    pub fn inverse(&self) -> (res: Option<Scalar>)
        ensures
            res is Some <==> self@ != 0,
            res matches Some(inv) ==> (self@ * inv@) % modulus() == 1,
    {
        fr_inverse(self)
    }

    /// The integer quotient of the canonical representative by `2^bits`.
    pub fn shift_right(&self, bits: u32) -> (res: Scalar)
        requires
            bits < 256,
        ensures
            res@ == self@ / (pow2(bits as nat) as int),
    {
        fr_shift_right(self, bits)
    }

    /// The canonical representative times `2^bits`, where that is still canonical.
    pub fn shift_left(&self, bits: u32) -> (res: Scalar)
        requires
            bits < 256,
            self@ * pow2(bits as nat) < modulus(),
        ensures
            res@ == self@ * pow2(bits as nat),
    {
        fr_shift_left(self, bits)
    }

    /// The integer that the bytes stand for, lowest byte first, reduced.
    pub fn from_le_bytes_mod_order(bytes: &Vec<u8>) -> (res: Scalar)
        ensures
            res@ == le_value(bytes@) % modulus(),
    {
        fr_from_le_bytes(bytes)
    }

    /// The canonical encoding: 32 bytes, lowest first.
    pub fn to_bytes(&self) -> (res: Vec<u8>)
        ensures
            res@ == le_bytes(self@, 32),
    {
        fr_to_bytes(self)
    }

    /// A random scalar: what the generator yields next.
    pub fn random(rng: &mut StdRng) -> (res: Scalar)
        ensures
            0 <= res@ < modulus(),
            is_draw(*old(rng), *final(rng), res),
    {
        let (res, next) = apply(fr_random, &*rng);
        *rng = next;
        proof {
            lemma_scalar_range(res);
        }
        res
    }
}

/// Whether the scalar is what drawing from a generator in the state `before` returned, with the
/// generator in the state `after` when it was done. Only a draw establishes it.
pub closed spec fn is_draw(before: StdRng, after: StdRng, k: Scalar) -> bool {
    call_ensures(fr_random, (&before,), (k, after))
}

/// A draw is an outcome of the outside generator on the state before it, and the state after it is the
/// one that the generator was left in.
pub(crate) proof fn lemma_draw_is_outcome(before: StdRng, after: StdRng, k: Scalar)
    ensures
        is_draw(before, after, k) ==> call_ensures(fr_random, (&before,), (k, after)),
{
}

/// Whether the scalars are what drawing one after the other returned.
pub open spec fn are_draws(before: StdRng, after: StdRng, ks: Seq<Scalar>) -> bool
    decreases ks.len(),
{
    if ks.len() == 0 {
        before == after
    } else {
        exists|rng: StdRng|
            are_draws(before, rng, ks.drop_last()) && #[trigger] is_draw(rng, after, ks.last())
    }
}

/// One more draw.
pub proof fn lemma_next_draw(before: StdRng, rng: StdRng, after: StdRng, ks: Seq<Scalar>, k: Scalar)
    requires
        are_draws(before, rng, ks),
        is_draw(rng, after, k),
    ensures
        are_draws(before, after, ks.push(k)),
{
    assert(ks.push(k).drop_last() =~= ks);
    assert(ks.push(k).last() == k);
}

/// A single draw.
pub proof fn lemma_one_draw(before: StdRng, after: StdRng, k: Scalar)
    requires
        is_draw(before, after, k),
    ensures
        are_draws(before, after, seq![k]),
{
    assert(are_draws(before, before, Seq::empty()));
    lemma_next_draw(before, before, after, Seq::empty(), k);
    assert(Seq::<Scalar>::empty().push(k) =~= seq![k]);
}

/// Draws after draws.
pub proof fn lemma_more_draws(
    before: StdRng,
    rng: StdRng,
    after: StdRng,
    ks: Seq<Scalar>,
    ls: Seq<Scalar>,
)
    requires
        are_draws(before, rng, ks),
        are_draws(rng, after, ls),
    ensures
        are_draws(before, after, ks + ls),
    decreases ls.len(),
{
    if ls.len() == 0 {
        assert(ks + ls =~= ks);
    } else {
        let mid = choose|mid: StdRng|
            are_draws(rng, mid, ls.drop_last()) && #[trigger] is_draw(mid, after, ls.last());
        lemma_more_draws(before, rng, mid, ks, ls.drop_last());
        lemma_next_draw(before, mid, after, ks + ls.drop_last(), ls.last());
        assert((ks + ls.drop_last()).push(ls.last()) =~= ks + ls);
    }
}

/// Five random scalars, drawn one after the other.
pub fn random_five(rng: &mut StdRng) -> (res: [Scalar; 5])
    ensures
        are_draws(*old(rng), *final(rng), res@),
{
    let ghost r0 = *rng;
    let a = Scalar::random(rng);
    let ghost r1 = *rng;
    let b = Scalar::random(rng);
    let ghost r2 = *rng;
    let c = Scalar::random(rng);
    let ghost r3 = *rng;
    let d = Scalar::random(rng);
    let ghost r4 = *rng;
    let e = Scalar::random(rng);
    let res = [a, b, c, d, e];
    proof {
        lemma_one_draw(r0, r1, a);
        lemma_next_draw(r0, r1, r2, seq![a], b);
        lemma_next_draw(r0, r2, r3, seq![a].push(b), c);
        lemma_next_draw(r0, r3, r4, seq![a].push(b).push(c), d);
        lemma_next_draw(r0, r4, *rng, seq![a].push(b).push(c).push(d), e);
        assert(res@ =~= seq![a].push(b).push(c).push(d).push(e));
    }
    res
}

/// The result of a function on its argument.
fn apply<A, B, F: FnOnce(A) -> B>(f: F, a: A) -> (res: B)
    requires
        call_requires(f, (a,)),
    ensures
        call_ensures(f, (a,), res),
{
    f(a)
}

/// Random scalars, drawn one after the other.
pub fn random_scalars(n: usize, rng: &mut StdRng) -> (res: Vec<Scalar>)
    ensures
        res@.len() == n,
        are_draws(*old(rng), *final(rng), res@),
{
    let mut res: Vec<Scalar> = Vec::new();
    let mut i: usize = 0;
    while i < n
        invariant
            0 <= i <= n,
            res@.len() == i,
            are_draws(*old(rng), *rng, res@),
        decreases n - i,
    {
        let ghost drawn = res@;
        let ghost state = *rng;
        let k = Scalar::random(rng);
        proof {
            lemma_next_draw(*old(rng), state, *rng, drawn, k);
        }
        res.push(k);
        i += 1;
    }
    res
}

/// The field addition of `ark_ff`: the reduced sum.
#[verifier::external_body]
fn fr_add(a: &Scalar, b: &Scalar) -> (res: Scalar)
    ensures
        res@ == (a@ + b@) % modulus(),
{
    let sum = Fr::new(BigInt(a.limbs)) + Fr::new(BigInt(b.limbs));
    Scalar { limbs: sum.into_bigint().0 }
}

/// The field subtraction of `ark_ff`: the reduced difference.
#[verifier::external_body]
fn fr_sub(a: &Scalar, b: &Scalar) -> (res: Scalar)
    ensures
        res@ == (a@ - b@) % modulus(),
{
    let difference = Fr::new(BigInt(a.limbs)) - Fr::new(BigInt(b.limbs));
    Scalar { limbs: difference.into_bigint().0 }
}

/// The field multiplication of `ark_ff`: the reduced product.
#[verifier::external_body]
fn fr_mul(a: &Scalar, b: &Scalar) -> (res: Scalar)
    ensures
        res@ == (a@ * b@) % modulus(),
{
    let product = Fr::new(BigInt(a.limbs)) * Fr::new(BigInt(b.limbs));
    Scalar { limbs: product.into_bigint().0 }
}

/// `Field::pow` of `ark_ff`: the reduced power.
#[verifier::external_body]
fn fr_pow(a: &Scalar, e: u64) -> (res: Scalar)
    ensures
        res@ == pow(a@, e as nat) % modulus(),
{
    Scalar { limbs: Fr::new(BigInt(a.limbs)).pow([e]).into_bigint().0 }
}

/// `Field::inverse` of `ark_ff`: the multiplicative inverse, of every element but zero.
#[verifier::external_body]
fn fr_inverse(a: &Scalar) -> (res: Option<Scalar>)
    ensures
        res is Some <==> a@ != 0,
        res matches Some(inv) ==> (a@ * inv@) % modulus() == 1,
{
    match Fr::new(BigInt(a.limbs)).inverse() {
        Some(inv) => Some(Scalar { limbs: inv.into_bigint().0 }),
        None => None,
    }
}

/// The right shift of `ark_ff`'s big integers, on the canonical representative, and back by
/// `PrimeField::from_bigint`.
#[verifier::external_body]
fn fr_shift_right(a: &Scalar, bits: u32) -> (res: Scalar)
    requires
        bits < 256,
    ensures
        res@ == a@ / (pow2(bits as nat) as int),
{
    let q = Fr::new(BigInt(a.limbs)).into_bigint() >> bits;
    Scalar { limbs: Fr::from_bigint(q).unwrap().into_bigint().0 }
}

/// The left shift of `ark_ff`'s big integers, on the canonical representative, and back by
/// `PrimeField::from_bigint`, which accepts what is below the modulus.
#[verifier::external_body]
fn fr_shift_left(a: &Scalar, bits: u32) -> (res: Scalar)
    requires
        bits < 256,
        a@ * pow2(bits as nat) < modulus(),
    ensures
        res@ == a@ * pow2(bits as nat),
{
    let q = Fr::new(BigInt(a.limbs)).into_bigint() << bits;
    Scalar { limbs: Fr::from_bigint(q).unwrap().into_bigint().0 }
}

/// `PrimeField::from_le_bytes_mod_order` of `ark_ff`: the bytes as an integer, reduced.
#[verifier::external_body]
fn fr_from_le_bytes(bytes: &Vec<u8>) -> (res: Scalar)
    ensures
        res@ == le_value(bytes@) % modulus(),
{
    Scalar { limbs: Fr::from_le_bytes_mod_order(bytes).into_bigint().0 }
}

/// `CanonicalSerialize::serialize_compressed` of `ark_ff`'s scalars: the canonical
/// representative in 32 bytes, lowest first.
#[verifier::external_body]
fn fr_to_bytes(a: &Scalar) -> (res: Vec<u8>)
    ensures
        res@ == le_bytes(a@, 32),
{
    let mut bytes = Vec::new();
    Fr::new(BigInt(a.limbs)).serialize_compressed(&mut bytes).unwrap();
    bytes
}

/// `UniformRand::rand` of `ark_std` for `ark_ff`'s scalars, on a copy of the generator, which is handed
/// back in its next state. Which scalar comes out is up to the generator.
#[verifier::external_body]
pub(crate) fn fr_random(rng: &StdRng) -> (res: (Scalar, StdRng)) {
    let mut next = rng.clone();
    let limbs = Fr::rand(&mut next).into_bigint().0;
    (Scalar { limbs }, next)
}

/// The generator of the radix-two domain of `ark_poly` with the given size.
#[verifier::external_body]
pub(crate) fn domain_generator(size: usize) -> (res: Scalar)
    requires
        is_domain_size(size as int),
    ensures
        res@ == unity_root(size as int),
{
    let domain = Radix2EvaluationDomain::<Fr>::new(size).unwrap();
    Scalar { limbs: domain.group_gen.into_bigint().0 }
}

/// `EvaluationDomain::fft` of `ark_poly` on scalars: the values of the polynomial with the given
/// coefficients at the elements of the domain.
#[verifier::external_body]
pub(crate) fn scalar_fft(coeffs: &Vec<Scalar>, size: usize) -> (res: Vec<Scalar>)
    requires
        is_domain_size(size as int),
        coeffs@.len() <= size,
    ensures
        is_transform(vals(coeffs@), vals(res@), size as int),
{
    let domain = Radix2EvaluationDomain::<Fr>::new(size).unwrap();
    let input: Vec<Fr> = coeffs.iter().map(|c| Fr::new(BigInt(c.limbs))).collect();
    let output = domain.fft(&input);
    output.iter().map(|c| Scalar { limbs: c.into_bigint().0 }).collect()
}

/// `EvaluationDomain::ifft` of `ark_poly` on scalars: the inverse of the transform.
#[verifier::external_body]
pub(crate) fn scalar_ifft(evals: &Vec<Scalar>, size: usize) -> (res: Vec<Scalar>)
    requires
        is_domain_size(size as int),
        evals@.len() == size,
    ensures
        res@.len() == size,
        is_transform(vals(res@), vals(evals@), size as int),
{
    let domain = Radix2EvaluationDomain::<Fr>::new(size).unwrap();
    let input: Vec<Fr> = evals.iter().map(|c| Fr::new(BigInt(c.limbs))).collect();
    let output = domain.ifft(&input);
    output.iter().map(|c| Scalar { limbs: c.into_bigint().0 }).collect()
}

} // verus!
