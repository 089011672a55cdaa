//! Encryption for a batch: a fresh key, punctured at the position in the batch, and encrypted in
//! chunks under the threshold scheme.
use crate::algebra::congruence::{
    eqm, lemma_eqm_add, lemma_eqm_mod, lemma_eqm_mul, lemma_eqm_reduced, lemma_modulus,
    lemma_reduced, modulus,
};
use crate::algebra::sums::sum;
use crate::bte::crs::CRS as BteCRS;
use crate::bte::{is_punctured, prf_value, PPRF, PRF};
use crate::field::{
    are_draws, lemma_more_draws, lemma_one_draw, lemma_scalar_range, random_five, vals, Scalar,
};
use crate::group::Gt;
use crate::poly::lemma_power_step;
use crate::ste::aggregate::EncryptionKey;
use crate::ste::crs::CRS as SteCRS;
use crate::ste::encryption::{
    can_encrypt, ct_value, encrypt_with_randomness, sa1_value, sa2_value,
    Ciphertext as SteCiphertext, EncryptionRandomness,
};
use ark_std::rand::rngs::StdRng;
use vstd::arithmetic::div_mod::{lemma_div_denominator, lemma_fundamental_div_mod, lemma_small_mod};
use vstd::arithmetic::power::{lemma_pow0, lemma_pow1, lemma_pow_adds, lemma_pow_positive, pow};
use vstd::arithmetic::power2::{lemma2_to64, pow2};
use vstd::prelude::*;

verus! {

/// Bits of a chunk of a key.
pub const CHUNK_BITS: u32 = 16;

/// Number of chunks of a key. Together they cover every scalar.
pub const NUM_CHUNKS: usize = 16;

/// The number of values of a chunk.
pub open spec fn chunk_radix() -> int {
    0x1_0000
}

/// The chunk `i` of a key, lowest first.
pub open spec fn chunk(key: int, i: int) -> int {
    (key / pow(chunk_radix(), i as nat)) % chunk_radix()
}

/// All chunks of a key, lowest first.
pub open spec fn chunks_of(key: int) -> Seq<int> {
    Seq::new(NUM_CHUNKS as nat, |i: int| chunk(key, i))
}

/// Chunks in their places.
pub open spec fn place_terms(chunks: Seq<int>) -> spec_fn(int) -> int {
    |i: int| chunks[i] * pow(chunk_radix(), i as nat)
}

/// The number with the given chunks, lowest first.
pub open spec fn recomposed(chunks: Seq<int>) -> int {
    sum(chunks.len() as int, place_terms(chunks))
}

/// A ciphertext of a batch.
#[derive(Clone, Debug)]
pub struct Ciphertext {
    pub pprf: PPRF,
    /// The key, in chunks, under the threshold scheme.
    pub encrypted_key: SteCiphertext,
    /// The value of the function at the punctured point.
    pub mask: Gt,
}

/// What only the encryptor knows of a ciphertext.
#[derive(Clone, Debug)]
pub struct EncryptionWitness {
    pub chunks: Vec<Scalar>,
    pub ste_randomness: EncryptionRandomness,
}

impl Ciphertext {
    /// Whether this is the encryption for a position with the given key and randomness.
    pub open spec fn is_encryption(
        &self,
        bte_crs: &BteCRS,
        ste_crs: &SteCRS,
        ek: &EncryptionKey,
        position: int,
        t: int,
        key: int,
        s: Seq<int>,
    ) -> bool {
        &&& self.pprf.point == position
        &&& is_punctured(bte_crs, self.pprf, key)
        &&& self.encrypted_key.is_encryption(ste_crs, ek, t, chunks_of(key), s)
        &&& self.mask@ == prf_value(bte_crs, key, position)
    }
}

impl EncryptionWitness {
    /// Whether the ciphertext is the encryption for a position with the key whose chunks are here, and
    /// with the randomness that is here.
    pub open spec fn explains(
        &self,
        ciphertext: &Ciphertext,
        bte_crs: &BteCRS,
        ste_crs: &SteCRS,
        ek: &EncryptionKey,
        position: int,
        t: int,
    ) -> bool {
        exists|key: int|
            0 <= key < modulus() && vals(self.chunks@) == chunks_of(key)
                && #[trigger] ciphertext.is_encryption(
                bte_crs,
                ste_crs,
                ek,
                position,
                t,
                key,
                vals(self.ste_randomness.s@),
            )
    }
}

/// Whether two ciphertexts have the same parts.
pub open spec fn same_ciphertext(a: &Ciphertext, b: &Ciphertext) -> bool {
    &&& a.pprf.point == b.pprf.point
    &&& a.pprf.key@ == b.pprf.key@
    &&& a.mask@ == b.mask@
    &&& a.encrypted_key.t == b.encrypted_key.t
    &&& vals(a.encrypted_key.sa1@) == vals(b.encrypted_key.sa1@)
    &&& vals(a.encrypted_key.sa2@) == vals(b.encrypted_key.sa2@)
    &&& vals(a.encrypted_key.ct@) == vals(b.encrypted_key.ct@)
}

/// Whether encryption for a position is possible with these parameters.
pub open spec fn can_encrypt_at(
    bte_crs: &BteCRS,
    ste_crs: &SteCRS,
    ek: &EncryptionKey,
    position: int,
    t: int,
) -> bool {
    &&& bte_crs.wf()
    &&& 0 <= position < bte_crs.batch_size
    &&& can_encrypt(ste_crs, ek, t, NUM_CHUNKS as int)
}

/// Splits a key into its chunks.
pub fn decompose_key(key: &Scalar) -> (res: Vec<Scalar>)
    ensures
        vals(res@) == chunks_of(key@),
{
    let mut rest = *key;
    let mut chunks: Vec<Scalar> = Vec::new();
    let mut i: usize = 0;
    proof {
        lemma_pow0(chunk_radix());
        lemma_scalar_range(*key);
    }
    while i < NUM_CHUNKS
        invariant
            0 <= i <= NUM_CHUNKS,
            chunks@.len() == i,
            0 <= key@ < modulus(),
            rest@ == key@ / pow(chunk_radix(), i as nat),
            forall|k: int| 0 <= k < i ==> (#[trigger] chunks@[k])@ == chunk(key@, k),
        decreases NUM_CHUNKS - i,
    {
        let q = rest.shift_right(CHUNK_BITS);
        proof {
            lemma_scalar_range(rest);
            lemma_chunk_shift(rest@);
            lemma_pow_positive(chunk_radix(), i as nat);
            lemma_div_denominator(key@, pow(chunk_radix(), i as nat), chunk_radix());
            lemma_pow_adds(chunk_radix(), i as nat, 1);
            lemma_pow1(chunk_radix());
        }
        let high = q.shift_left(CHUNK_BITS);
        let low = rest.sub(&high);
        proof {
            lemma_reduced(rest@ - high@);
        }
        chunks.push(low);
        rest = q;
        i += 1;
    }
    assert(vals(chunks@) =~= chunks_of(key@));
    chunks
}

/// One step of the decomposition.
proof fn lemma_chunk_shift(v: int)
    requires
        0 <= v < modulus(),
    ensures
        pow2(CHUNK_BITS as nat) == chunk_radix(),
        0 <= v / chunk_radix() * chunk_radix() <= v,
        v - v / chunk_radix() * chunk_radix() == v % chunk_radix(),
        0 <= v % chunk_radix() < modulus(),
{
    lemma2_to64();
    lemma_fundamental_div_mod(v, chunk_radix());
    lemma_modulus();
}

/// The scalar with the given chunks, lowest first.
pub fn recompose_chunks(chunks: &Vec<Scalar>) -> (res: Scalar)
    ensures
        res@ == recomposed(vals(chunks@)) % modulus(),
{
    let mut key = Scalar::zero();
    let mut offset = Scalar::one();
    let radix = Scalar::from_u128(0x1_0000u128);
    let ghost f = place_terms(vals(chunks@));
    let mut i: usize = 0;
    proof {
        lemma_pow0(chunk_radix());
    }
    while i < chunks.len()
        invariant
            0 <= i <= chunks@.len(),
            radix@ == chunk_radix(),
            f == place_terms(vals(chunks@)),
            eqm(offset@, pow(chunk_radix(), i as nat)),
            eqm(key@, sum(i as int, f)),
        decreases chunks@.len() - i,
    {
        let term = offset.mul(&chunks[i]);
        proof {
            let c = chunks@[i as int]@;
            let p = pow(chunk_radix(), i as nat);
            assert(vals(chunks@)[i as int] == c);
            lemma_eqm_mul(offset@, p, c, c);
            lemma_eqm_mod(offset@ * c);
            assert(p * c == c * p) by (nonlinear_arith);
            lemma_eqm_add(key@, sum(i as int, f), term@, f(i as int));
            lemma_eqm_mod(key@ + term@);
            lemma_power_step(chunk_radix(), offset@, i as nat);
            lemma_eqm_mod(offset@ * radix@);
        }
        key = key.add(&term);
        offset = offset.mul(&radix);
        i += 1;
    }
    proof {
        lemma_scalar_range(key);
        lemma_reduced(key@);
    }
    key
}

/// The first chunks of a number make up what it leaves when divided by the place of the next.
proof fn lemma_recompose_prefix(key: int, n: int)
    requires
        0 <= key,
        0 <= n <= NUM_CHUNKS,
    ensures
        sum(n, place_terms(chunks_of(key))) == key % pow(chunk_radix(), n as nat),
    decreases n,
{
    let f = place_terms(chunks_of(key));
    if n == 0 {
        lemma_pow0(chunk_radix());
    } else {
        lemma_recompose_prefix(key, n - 1);
        let r = chunk_radix();
        let p = pow(r, (n - 1) as nat);
        lemma_pow_positive(r, (n - 1) as nat);
        lemma_pow_adds(r, (n - 1) as nat, 1);
        lemma_pow1(r);
        vstd::arithmetic::div_mod::lemma_mod_breakdown(key, p, r);
        assert(f(n - 1) == ((key / p) % r) * p);
        assert(((key / p) % r) * p == p * ((key / p) % r)) by (nonlinear_arith);
    }
}

/// Putting the chunks of a key together again gives the key.
pub proof fn lemma_recompose(key: int)
    requires
        0 <= key < modulus(),
    ensures
        recomposed(chunks_of(key)) == key,
{
    lemma_recompose_prefix(key, NUM_CHUNKS as int);
    let r = chunk_radix();
    lemma_modulus();
    lemma_pow_adds(r, 8, 8);
    lemma_pow_adds(r, 4, 4);
    lemma_pow_adds(r, 2, 2);
    lemma_pow_adds(r, 1, 1);
    lemma_pow1(r);
    let r2 = pow(r, 2);
    let r4 = pow(r, 4);
    let r8 = pow(r, 8);
    assert(r2 == 0x1_0000_0000);
    assert(r4 == 0x1_0000_0000_0000_0000int) by (nonlinear_arith)
        requires
            r2 == 0x1_0000_0000,
            r4 == r2 * r2,
    ;
    assert(r8 == 0x1_0000_0000_0000_0000_0000_0000_0000_0000int) by (nonlinear_arith)
        requires
            r4 == 0x1_0000_0000_0000_0000int,
            r8 == r4 * r4,
    ;
    assert(r8 * r8
        == 0x1_0000_0000_0000_0000_0000_0000_0000_0000_0000_0000_0000_0000_0000_0000_0000_0000int)
        by (nonlinear_arith)
        requires
            r8 == 0x1_0000_0000_0000_0000_0000_0000_0000_0000int,
    ;
    lemma_small_mod(key as nat, pow(r, 16) as nat);
}

/// Every chunk of a key is in range.
pub proof fn lemma_chunk_range(key: int, i: int)
    ensures
        0 <= chunk(key, i) < chunk_radix(),
{
}

/// Encrypts for a position with a given key and randomness.
pub fn encrypt_with_key(
    position: usize,
    bte_crs: &BteCRS,
    ste_crs: &SteCRS,
    ek: &EncryptionKey,
    t: usize,
    prf: &PRF,
    randomness: &EncryptionRandomness,
) -> (res: (Ciphertext, EncryptionWitness))
    requires
        can_encrypt_at(bte_crs, ste_crs, ek, position as int, t as int),
    ensures
        res.0.is_encryption(
            bte_crs,
            ste_crs,
            ek,
            position as int,
            t as int,
            prf.key@,
            vals(randomness.s@),
        ),
        vals(res.1.chunks@) == chunks_of(prf.key@),
        res.1.ste_randomness == *randomness,
{
    let pprf = prf.puncture(position, bte_crs);
    let chunks = decompose_key(&prf.key);
    let chunks_t = in_target_group(&chunks);
    assert(chunks_t@.len() == vals(chunks_t@).len());
    let encrypted_key = encrypt_with_randomness(ek, t, ste_crs, &chunks_t, randomness);
    let ciphertext = Ciphertext { pprf, encrypted_key, mask: prf.eval(position, bte_crs) };
    (ciphertext, EncryptionWitness { chunks, ste_randomness: *randomness })
}

/// Scalars in the exponent of the target group.
pub fn in_target_group(scalars: &Vec<Scalar>) -> (res: Vec<Gt>)
    ensures
        vals(res@) == vals(scalars@),
{
    let gen_t = Gt::generator();
    let mut res: Vec<Gt> = Vec::new();
    let mut i: usize = 0;
    while i < scalars.len()
        invariant
            0 <= i <= scalars@.len(),
            gen_t@ == 1,
            res@.len() == i,
            forall|k: int| 0 <= k < i ==> (#[trigger] res@[k])@ == scalars@[k]@,
        decreases scalars@.len() - i,
    {
        proof {
            lemma_scalar_range(scalars@[i as int]);
            lemma_reduced(scalars@[i as int]@);
        }
        res.push(gen_t.mul(&scalars[i]));
        i += 1;
    }
    assert(vals(res@) =~= vals(scalars@));
    res
}

/// Draws a key, punctures it at the position and encrypts it. The mask is the value of the function
/// at the position.
pub fn encrypt(
    position: usize,
    bte_crs: &BteCRS,
    ste_crs: &SteCRS,
    ek: &EncryptionKey,
    t: usize,
    rng: &mut StdRng,
) -> (res: Ciphertext)
    requires
        can_encrypt_at(bte_crs, ste_crs, ek, position as int, t as int),
    ensures
        exists|witness: EncryptionWitness| #[trigger]
            witness.explains(&res, bte_crs, ste_crs, ek, position as int, t as int),
        exists|key: Scalar, s: Seq<Scalar>|
            s.len() == 5 && #[trigger] are_draws(*old(rng), *final(rng), seq![key] + s)
                && res.is_encryption(
                bte_crs,
                ste_crs,
                ek,
                position as int,
                t as int,
                key@,
                vals(s),
            ),
{
    let (ciphertext, witness) = encrypt_with_witness(position, bte_crs, ste_crs, ek, t, rng);
    assert(witness.explains(&ciphertext, bte_crs, ste_crs, ek, position as int, t as int));
    ciphertext
}

/// Same as [`encrypt`], but also returns what a validity proof needs.
pub fn encrypt_with_witness(
    position: usize,
    bte_crs: &BteCRS,
    ste_crs: &SteCRS,
    ek: &EncryptionKey,
    t: usize,
    rng: &mut StdRng,
) -> (res: (Ciphertext, EncryptionWitness))
    requires
        can_encrypt_at(bte_crs, ste_crs, ek, position as int, t as int),
    ensures
        res.1.explains(&res.0, bte_crs, ste_crs, ek, position as int, t as int),
        exists|key: Scalar| #[trigger]
            are_draws(*old(rng), *final(rng), seq![key] + res.1.ste_randomness.s@) && vals(
                res.1.chunks@,
            ) == chunks_of(key@) && res.0.is_encryption(
                bte_crs,
                ste_crs,
                ek,
                position as int,
                t as int,
                key@,
                vals(res.1.ste_randomness.s@),
            ),
{
    let ghost r0 = *rng;
    let prf = PRF::new(rng);
    let ghost r1 = *rng;
    let s = random_five(rng);
    let randomness = EncryptionRandomness { s };
    let res = encrypt_with_key(position, bte_crs, ste_crs, ek, t, &prf, &randomness);
    proof {
        lemma_one_draw(r0, r1, prf.key);
        lemma_more_draws(r0, r1, *rng, seq![prf.key], s@);
        lemma_scalar_range(prf.key);
        assert(res.1.explains(&res.0, bte_crs, ste_crs, ek, position as int, t as int));
    }
    res
}

/// What is drawn determines the ciphertext: ciphertexts that the same witness explains are the same.
/// So [`encrypt`] and [`encrypt_with_witness`] give the same ciphertext where they draw the same key
/// and randomness.
pub proof fn lemma_witness_determines_ciphertext(
    witness: EncryptionWitness,
    a: &Ciphertext,
    b: &Ciphertext,
    bte_crs: &BteCRS,
    ste_crs: &SteCRS,
    ek: &EncryptionKey,
    position: int,
    t: int,
)
    requires
        witness.explains(a, bte_crs, ste_crs, ek, position, t),
        witness.explains(b, bte_crs, ste_crs, ek, position, t),
    ensures
        same_ciphertext(a, b),
{
    broadcast use crate::group::lemma_g1_range, crate::group::lemma_g2_range;
    broadcast use crate::group::lemma_gt_range;

    let s = vals(witness.ste_randomness.s@);
    let key = choose|key: int|
        0 <= key < modulus() && vals(witness.chunks@) == chunks_of(key) && #[trigger] a.is_encryption(
            bte_crs,
            ste_crs,
            ek,
            position,
            t,
            key,
            s,
        );
    let other = choose|key: int|
        0 <= key < modulus() && vals(witness.chunks@) == chunks_of(key) && #[trigger] b.is_encryption(
            bte_crs,
            ste_crs,
            ek,
            position,
            t,
            key,
            s,
        );
    lemma_recompose(key);
    lemma_recompose(other);
    let x = a.encrypted_key;
    let y = b.encrypted_key;
    assert forall|i: int| 0 <= i < 2 implies #[trigger] vals(x.sa1@)[i] == vals(y.sa1@)[i] by {
        assert(eqm(vals(x.sa1@)[i], sa1_value(ste_crs, ek, t, s, i)));
        assert(eqm(vals(y.sa1@)[i], sa1_value(ste_crs, ek, t, s, i)));
        lemma_eqm_reduced(x.sa1@[i]@, y.sa1@[i]@);
    }
    assert(vals(x.sa1@) =~= vals(y.sa1@));
    assert forall|i: int| 0 <= i < 6 implies #[trigger] vals(x.sa2@)[i] == vals(y.sa2@)[i] by {
        assert(eqm(vals(x.sa2@)[i], sa2_value(ste_crs, ek, s, i)));
        assert(eqm(vals(y.sa2@)[i], sa2_value(ste_crs, ek, s, i)));
        lemma_eqm_reduced(x.sa2@[i]@, y.sa2@[i]@);
    }
    assert(vals(x.sa2@) =~= vals(y.sa2@));
    let n = chunks_of(key).len() as int;
    assert forall|k: int| 0 <= k < n implies #[trigger] vals(x.ct@)[k] == vals(y.ct@)[k] by {
        assert(eqm(vals(x.ct@)[k], ct_value(ek, s, chunks_of(key)[k], k)));
        assert(eqm(vals(y.ct@)[k], ct_value(ek, s, chunks_of(key)[k], k)));
        lemma_eqm_reduced(x.ct@[k]@, y.ct@[k]@);
    }
    assert(vals(x.ct@) =~= vals(y.ct@));
}

} // verus!
