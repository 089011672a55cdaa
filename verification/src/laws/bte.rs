//! Laws of the batched scheme.
use crate::algebra::congruence::{
    eqm, lemma_eqm_mod, lemma_eqm_mul, lemma_eqm_reduced, lemma_eqm_sub, lemma_modulus,
    lemma_reduced, modulus,
};
use crate::algebra::primality::lemma_no_zero_divisors;
use crate::algebra::roots::{is_power_of_two, unity_root};
use crate::algebra::sums::{lemma_sum_eq, sum};
use crate::bte::crs::{lags, lemma_doubled_to, CRS};
use crate::bte::decryption::{
    all_found, convolved_masks, decrypt, decrypt_fft, is_opening, is_outcome,
    lemma_decryptions_agree, lemma_honest_batch_decrypts, lemma_opening_unique, pprfs_of,
    recovered_key, sa1_terms, separate_masks, sum_encrypted_keys, DecryptError,
};
use crate::bte::encryption::{
    chunks_of, decompose_key, encrypt, encrypt_with_key, encrypt_with_witness, lemma_recompose,
    place_terms, recompose_chunks, Ciphertext, EncryptionWitness,
};
use crate::bte::{
    batch_eval, batch_terms, fft_batch_eval, is_punctured, lemma_fft_agrees, lemma_mask_recovered,
    lemma_puncture_agrees, naive_batch_eval, position_terms, PPRF, PRF,
};
use crate::dlog::{
    dlog_key, giant_step, has_distinct_keys, option_value, search_result, HomomorphicBatchTooLarge,
    Markers,
};
use crate::field::{are_draws, is_draw, lemma_scalar_range, vals, Scalar};
use crate::group::{lemma_g1_range, lemma_g2_range, lemma_gt_range, Gt};
use crate::laws::dlog::{lemma_default_bound, prefix_key, tells_multiples_apart};
use crate::laws::keys::{count, lemma_count};
use crate::laws::schnorr::{images, values_of};
use crate::ste::aggregate::{AggregateKey, EncryptionKey};
use crate::ste::crs::CRS as SteCRS;
use crate::ste::decryption::agg_dec;
use crate::ste::encryption::{Ciphertext as SteCiphertext, EncryptionRandomness};
use crate::ste::setup::{LagPublicKey, PartialDecryption, SecretKey};
use ark_std::rand::rngs::StdRng;
use vstd::arithmetic::power::{lemma_pow_adds, pow};
use vstd::arithmetic::power2::{lemma2_to64, pow2};
use vstd::prelude::*;

verus! {

/// Whether the reference string holds the powers of `x`, but for the one in the middle, which only
/// the target group has.
pub open spec fn holds_powers(crs: &CRS, b: int, x: int) -> bool {
    &&& crs.batch_size == b
    &&& crs.powers_of_g@.len() == 2 * b + 1
    &&& crs.powers_of_h@.len() == 2 * b + 1
    &&& crs.gt_powers@.len() == b
    &&& crs.powers_of_g@[b + 1]@ == 0
    &&& crs.powers_of_h@[b + 1]@ == 0
    &&& forall|i: int|
        0 <= i <= 2 * b && i != b + 1 ==> (#[trigger] crs.powers_of_g@[i])@ == pow(x, i as nat)
            % modulus()
    &&& forall|i: int|
        0 <= i <= 2 * b && i != b + 1 ==> (#[trigger] crs.powers_of_h@[i])@ == pow(x, i as nat)
            % modulus()
    &&& crs.gt_nplus1@ == pow(x, (b + 1) as nat) % modulus()
    &&& forall|i: int|
        0 <= i < b ==> (#[trigger] crs.gt_powers@[i])@ == pow(x, (b + 1 + i) as nat) % modulus()
}

/// The power at a distance from the middle, going round a circle of the given length: first the
/// distances from zero up, at the end the negative ones, and zeros between them.
pub open spec fn around_middle(crs: &CRS, length: int, k: int) -> int {
    let b = crs.batch_size as int;
    if k < b {
        crs.powers_of_h@[b + 1 + k]@
    } else if k > length - b {
        crs.powers_of_h@[b + 1 + k - length]@
    } else {
        0
    }
}

/// Whether the transform of these powers is there, at the shortest length with room for all.
pub open spec fn holds_transform(crs: &CRS) -> bool {
    let n = crs.fft_size as int;
    &&& is_power_of_two(n)
    &&& 2 * crs.batch_size <= n < 4 * crs.batch_size
    &&& crs.fft_h@.len() == n
    &&& forall|k: int|
        0 <= k < n ==> (#[trigger] crs.fft_h@[k])@ == sum(
            n,
            |j: int| around_middle(crs, n, j) * pow(unity_root(n), (j * k) as nat),
        ) % modulus()
}

proof fn lemma_generated(crs: &CRS, b: int, x: int)
    requires
        crs.is_generated(b, x),
    ensures
        holds_powers(crs, b, x),
        holds_transform(crs),
{
    broadcast use lemma_g2_range;

    let n = crs.fft_size as int;
    crs.lemma_fft_size();
    lemma_doubled_to(1, 2 * crs.batch_size as int);
    let l = lags(vals(crs.powers_of_h@), b, n);
    assert(vals(crs.fft_h@).len() == n);
    assert forall|k: int| 0 <= k < n implies (#[trigger] crs.fft_h@[k])@ == sum(
        n,
        |j: int| around_middle(crs, n, j) * pow(unity_root(n), (j * k) as nat),
    ) % modulus() by {
        let f = |j: int| around_middle(crs, n, j) * pow(unity_root(n), (j * k) as nat);
        let g = |j: int| l[j] * pow(unity_root(n), (j * k) as nat);
        assert forall|j: int| 0 <= j < n implies #[trigger] f(j) == g(j) by {
            assert(l[j] == around_middle(crs, n, j));
        }
        lemma_sum_eq(n, f, g);
        assert(eqm(vals(crs.fft_h@)[k], sum(n, g)));
        assert(vals(crs.fft_h@)[k] == crs.fft_h@[k]@);
        lemma_reduced(crs.fft_h@[k]@);
    }
}

/// A reference string holds the powers of its secret.
pub proof fn law_reference_string(batch_size: usize, x: Scalar, crs: CRS)
    requires
        call_ensures(CRS::from_secret, (batch_size, &x), crs),
    ensures
        holds_powers(&crs, batch_size as int, x@),
        holds_transform(&crs),
{
    lemma_generated(&crs, batch_size as int, x@);
}

/// A new reference string holds the powers of what the generator yields.
pub proof fn law_new_reference_string(batch_size: usize, rng: &mut StdRng, crs: CRS)
    requires
        call_ensures(CRS::new, (batch_size, rng), crs),
    ensures
        exists|x: Scalar| #[trigger]
            is_draw(*old(rng), *final(rng), x) && holds_powers(&crs, batch_size as int, x@)
                && holds_transform(&crs),
{
    let x = choose|x: Scalar| #[trigger]
        is_draw(*old(rng), *final(rng), x) && crs.is_generated(batch_size as int, x@);
    lemma_generated(&crs, batch_size as int, x@);
}

/// A new key is what the generator yields.
pub proof fn law_new_key(rng: &mut StdRng, prf: PRF)
    requires
        call_ensures(PRF::new, (rng,), prf),
    ensures
        is_draw(*old(rng), *final(rng), prf.key),
{
}

/// A key is the scalar that it is made from.
pub proof fn law_key_from_scalar(key: Scalar, prf: PRF)
    requires
        call_ensures(PRF::from_key, (key,), prf),
    ensures
        prf.key@ == key@,
{
}

/// The value of the function at an input is the key times a power of the secret, and the punctured
/// key is the key times the power at the punctured point.
pub proof fn law_function(
    batch_size: usize,
    x: Scalar,
    crs: CRS,
    prf: PRF,
    input: usize,
    value: Gt,
    punctured: PPRF,
)
    requires
        call_ensures(CRS::from_secret, (batch_size, &x), crs),
        input < batch_size,
        call_ensures(PRF::eval, (&prf, input, &crs), value),
        call_ensures(PRF::puncture, (&prf, input, &crs), punctured),
    ensures
        value@ == (prf.key@ * pow(x@, (batch_size + 1 + input) as nat)) % modulus(),
        punctured.point == input,
        punctured.key@ == (prf.key@ * pow(x@, input as nat)) % modulus(),
{
    lemma_generated(&crs, batch_size as int, x@);
    let k = prf.key@;
    let p = pow(x@, (batch_size + 1 + input) as nat);
    let q = pow(x@, input as nat);
    lemma_eqm_mod(p);
    lemma_eqm_mod(q);
    lemma_eqm_mul(p % modulus(), p, k, k);
    lemma_eqm_mul(q % modulus(), q, k, k);
    assert(p * k == k * p) by (nonlinear_arith);
    assert(q * k == k * q) by (nonlinear_arith);
}

/// A punctured key gives the values of the key at every other input.
pub proof fn law_punctured_key(
    batch_size: usize,
    x: Scalar,
    crs: CRS,
    prf: PRF,
    point: usize,
    punctured: PPRF,
    input: usize,
    value: Gt,
    other: Gt,
)
    requires
        call_ensures(CRS::from_secret, (batch_size, &x), crs),
        call_ensures(PRF::puncture, (&prf, point, &crs), punctured),
        input < batch_size,
        input != point,
        call_ensures(PRF::eval, (&prf, input, &crs), value),
        call_ensures(PPRF::eval, (&punctured, input, &crs), other),
    ensures
        value@ == other@,
{
    lemma_puncture_agrees(&crs, batch_size as int, x@, punctured, prf.key@, input as int);
}

/// Different keys have different values, unless the secret is zero, and so have different punctured
/// keys.
pub proof fn law_keys_told_apart(
    batch_size: usize,
    x: Scalar,
    crs: CRS,
    a: PRF,
    b: PRF,
    input: usize,
    va: Gt,
    vb: Gt,
    pa: PPRF,
    pb: PPRF,
)
    requires
        call_ensures(CRS::from_secret, (batch_size, &x), crs),
        x@ != 0,
        input < batch_size,
        call_ensures(PRF::eval, (&a, input, &crs), va),
        call_ensures(PRF::eval, (&b, input, &crs), vb),
        call_ensures(PRF::puncture, (&a, input, &crs), pa),
        call_ensures(PRF::puncture, (&b, input, &crs), pb),
    ensures
        va@ == vb@ <==> a.key@ == b.key@,
        pa.key@ == pb.key@ <==> a.key@ == b.key@,
{
    law_function(batch_size, x, crs, a, input, va, pa);
    law_function(batch_size, x, crs, b, input, vb, pb);
    lemma_scalar_range(x);
    lemma_power_not_zero(x@, (batch_size + 1 + input) as nat);
    lemma_power_not_zero(x@, input as nat);
    if va@ == vb@ {
        lemma_factor_told_apart(a.key, b.key, pow(x@, (batch_size + 1 + input) as nat));
    }
    if pa.key@ == pb.key@ {
        lemma_factor_told_apart(a.key, b.key, pow(x@, input as nat));
    }
}

proof fn lemma_power_not_zero(x: int, e: nat)
    requires
        0 < x < modulus(),
    ensures
        !eqm(pow(x, e), 0),
    decreases e,
{
    lemma_modulus();
    lemma_reduced(0);
    if e == 0 {
        vstd::arithmetic::power::lemma_pow0(x);
        lemma_reduced(1);
    } else {
        lemma_power_not_zero(x, (e - 1) as nat);
        lemma_pow_adds(x, 1, (e - 1) as nat);
        vstd::arithmetic::power::lemma_pow1(x);
        lemma_reduced(x);
        if eqm(pow(x, e), 0) {
            lemma_no_zero_divisors(x, pow(x, (e - 1) as nat));
        }
    }
}

proof fn lemma_factor_told_apart(a: Scalar, b: Scalar, p: int)
    requires
        eqm(a@ * p, b@ * p),
        !eqm(p, 0),
    ensures
        a@ == b@,
{
    lemma_scalar_range(a);
    lemma_scalar_range(b);
    lemma_eqm_sub(a@ * p, b@ * p, b@ * p, b@ * p);
    assert(p * (a@ - b@) == a@ * p - b@ * p) by (nonlinear_arith);
    lemma_no_zero_divisors(p, a@ - b@);
    crate::algebra::congruence::lemma_eqm_difference(a@, b@);
    lemma_eqm_reduced(a@, b@);
}

/// The sum of the values at an input, each the pairing of a punctured key with the power as far from
/// the middle as the input is from the point.
pub open spec fn paired_sum(pprfs: Seq<PPRF>, crs: &CRS, input: int) -> int {
    sum(
        pprfs.len() as int,
        |j: int|
            pprfs[j].key@ * crs.powers_of_h@[crs.batch_size + 1 + input - pprfs[j].point as int]@,
    ) % modulus()
}

/// Evaluating a batch gives the sum of the values, in both ways.
pub proof fn law_batch_eval(pprfs: &[PPRF], input: usize, crs: CRS, a: Gt, b: Gt)
    requires
        call_ensures(batch_eval, (pprfs, input, &crs), a),
        call_ensures(naive_batch_eval, (pprfs, input, &crs), b),
    ensures
        a@ == b@ == paired_sum(pprfs@, &crs, input as int),
{
    let f = |j: int|
        pprfs@[j].key@ * crs.powers_of_h@[crs.batch_size + 1 + input - pprfs@[j].point as int]@;
    lemma_sum_eq(pprfs@.len() as int, f, batch_terms(&crs, pprfs@, input as int));
}

/// One convolution gives, at every input, the value with the sum of the keys less that of all
/// punctured keys.
pub proof fn law_fft_batch_eval(
    k_agg: PRF,
    pprfs: &[PPRF],
    crs: CRS,
    masks: Vec<Gt>,
    i: usize,
    whole: Gt,
    punctured: Gt,
)
    requires
        forall|j: int| 0 <= j < pprfs@.len() ==> (#[trigger] pprfs@[j]).point == j,
        pprfs@.len() == crs.batch_size,
        i < crs.batch_size,
        call_ensures(fft_batch_eval, (&k_agg, pprfs, &crs), masks),
        call_ensures(PRF::eval, (&k_agg, i, &crs), whole),
        call_ensures(batch_eval, (pprfs, i, &crs), punctured),
    ensures
        masks@.len() == crs.batch_size,
        masks@[i as int]@ == (whole@ - punctured@) % modulus(),
{
    assert(masks@[i as int]@ == crate::bte::mask_value(&crs, k_agg.key@, pprfs@, i as int));
    lemma_fft_agrees(&crs, k_agg.key@, pprfs@, i as int);
}

/// A batch gives away exactly the values that were punctured out: with the sum of the keys, the
/// convolution gives the value of every key at its own position.
pub proof fn law_masks_recovered(
    batch_size: usize,
    x: Scalar,
    crs: CRS,
    keys: Seq<PRF>,
    k_agg: PRF,
    pprfs: &[PPRF],
    masks: Vec<Gt>,
    i: usize,
    value: Gt,
)
    requires
        call_ensures(CRS::from_secret, (batch_size, &x), crs),
        keys.len() == batch_size,
        pprfs@.len() == batch_size,
        forall|j: usize|
            j < batch_size ==> #[trigger] call_ensures(
                PRF::puncture,
                (&keys[j as int], j, &crs),
                pprfs@[j as int],
            ),
        k_agg.key@ == sum(keys.len() as int, |j: int| keys[j].key@) % modulus(),
        call_ensures(fft_batch_eval, (&k_agg, pprfs, &crs), masks),
        i < batch_size,
        call_ensures(PRF::eval, (&keys[i as int], i, &crs), value),
    ensures
        masks@[i as int]@ == value@,
{
    let b = batch_size as int;
    let ks = Seq::new(keys.len(), |j: int| keys[j].key@);
    assert forall|j: int| 0 <= j < pprfs@.len() implies is_punctured(
        &crs,
        #[trigger] pprfs@[j],
        ks[j],
    ) && pprfs@[j].point == j by {
        assert(call_ensures(
            PRF::puncture,
            (&keys[(j as usize) as int], j as usize, &crs),
            pprfs@[(j as usize) as int],
        ));
    }
    lemma_sum_eq(keys.len() as int, |j: int| keys[j].key@, |j: int| ks[j]);
    lemma_mask_recovered(&crs, b, x@, pprfs@, ks, i as int);
    lemma_fft_agrees(&crs, k_agg.key@, pprfs@, i as int);
    assert(masks@[i as int]@ == crate::bte::mask_value(&crs, k_agg.key@, pprfs@, i as int));
}

/// A key is split into sixteen chunks of sixteen bits, lowest first, and putting them together gives
/// the key again.
pub proof fn law_chunks(key: Scalar, chunks: Vec<Scalar>, back: Scalar)
    requires
        call_ensures(decompose_key, (&key,), chunks),
        call_ensures(recompose_chunks, (&chunks,), back),
    ensures
        chunks@.len() == 16,
        forall|i: int| 0 <= i < 16 ==> 0 <= (#[trigger] chunks@[i])@ < 65536,
        sum(16, |i: int| chunks@[i]@ * pow(65536, i as nat)) == key@,
        back@ == key@,
{
    lemma_scalar_range(key);
    lemma_recompose(key@);
    assert(vals(chunks@).len() == chunks@.len());
    assert forall|i: int| 0 <= i < 16 implies 0 <= (#[trigger] chunks@[i])@ < 65536 by {
        assert(vals(chunks@)[i] == chunks@[i]@);
    }
    lemma_sum_eq(16, |i: int| chunks@[i]@ * pow(65536, i as nat), place_terms(vals(chunks@)));
    lemma_reduced(key@);
}

/// Putting chunks together gives the sum of the chunks in their places, for any chunks.
pub proof fn law_recompose(chunks: Vec<Scalar>, key: Scalar)
    requires
        call_ensures(recompose_chunks, (&chunks,), key),
    ensures
        key@ == sum(chunks@.len() as int, |i: int| chunks@[i]@ * pow(65536, i as nat)) % modulus(),
{
    lemma_sum_eq(
        chunks@.len() as int,
        |i: int| chunks@[i]@ * pow(65536, i as nat),
        place_terms(vals(chunks@)),
    );
}

/// Whether the ciphertext is what follows from a key and randomness: the key punctured at the
/// position, its chunks encrypted, and the value at the position as the mask.
pub open spec fn follows_from(
    ct: &Ciphertext,
    bte_crs: &CRS,
    ste_crs: &SteCRS,
    ek: &EncryptionKey,
    position: int,
    t: int,
    key: int,
    s: Seq<int>,
) -> bool {
    let chunks = Seq::new(16, |i: int| (key / pow(65536, i as nat)) % 65536);
    let v = images(bte_crs, ste_crs, ek, position, t, chunks, s, Seq::empty());
    let w = values_of(ct, Seq::empty());
    &&& ct.pprf.point == position
    &&& ct.encrypted_key.t == t
    &&& w.pprf_key == (bte_crs.powers_of_g@[position]@ * key) % modulus()
    &&& w.mask == (bte_crs.gt_powers@[position]@ * key) % modulus()
    &&& w.sa1 == v.sa1
    &&& w.sa2 == v.sa2
    &&& w.ct == v.ct
}

proof fn lemma_follows(
    ct: &Ciphertext,
    bte_crs: &CRS,
    ste_crs: &SteCRS,
    ek: &EncryptionKey,
    position: int,
    t: int,
    key: int,
    s: Seq<int>,
)
    requires
        ct.is_encryption(bte_crs, ste_crs, ek, position, t, key, s),
    ensures
        follows_from(ct, bte_crs, ste_crs, ek, position, t, key, s),
{
    broadcast use lemma_g1_range, lemma_g2_range, lemma_gt_range;

    let chunks = Seq::new(16, |i: int| (key / pow(65536, i as nat)) % 65536);
    assert(chunks =~= chunks_of(key));
    let v = images(bte_crs, ste_crs, ek, position, t, chunks, s, Seq::empty());
    let e = ct.encrypted_key;
    assert forall|i: int| 0 <= i < 2 implies #[trigger] vals(e.sa1@)[i] == v.sa1[i] by {
        lemma_reduced(vals(e.sa1@)[i]);
    }
    assert forall|i: int| 0 <= i < 6 implies #[trigger] vals(e.sa2@)[i] == v.sa2[i] by {
        lemma_reduced(vals(e.sa2@)[i]);
    }
    assert forall|i: int| 0 <= i < 16 implies #[trigger] vals(e.ct@)[i] == v.ct[i] by {
        lemma_reduced(vals(e.ct@)[i]);
    }
    assert(vals(e.sa1@) =~= v.sa1);
    assert(vals(e.sa2@) =~= v.sa2);
    assert(vals(e.ct@) =~= v.ct);
}

/// Encrypting with a key and randomness gives what follows from them, and hands out the chunks of the
/// key and the randomness.
pub proof fn law_encrypt_with_key(
    position: usize,
    bte_crs: CRS,
    ste_crs: SteCRS,
    ek: EncryptionKey,
    t: usize,
    prf: PRF,
    randomness: EncryptionRandomness,
    ct: Ciphertext,
    witness: EncryptionWitness,
)
    requires
        call_ensures(
            encrypt_with_key,
            (position, &bte_crs, &ste_crs, &ek, t, &prf, &randomness),
            (ct, witness),
        ),
    ensures
        follows_from(
            &ct,
            &bte_crs,
            &ste_crs,
            &ek,
            position as int,
            t as int,
            prf.key@,
            vals(randomness.s@),
        ),
        sum(16, |i: int| witness.chunks@[i]@ * pow(65536, i as nat)) == prf.key@,
        witness.chunks@.len() == 16,
        witness.ste_randomness == randomness,
{
    lemma_follows(
        &ct,
        &bte_crs,
        &ste_crs,
        &ek,
        position as int,
        t as int,
        prf.key@,
        vals(randomness.s@),
    );
    lemma_scalar_range(prf.key);
    lemma_recompose(prf.key@);
    assert(vals(witness.chunks@).len() == witness.chunks@.len());
    lemma_sum_eq(
        16,
        |i: int| witness.chunks@[i]@ * pow(65536, i as nat),
        place_terms(vals(witness.chunks@)),
    );
}

/// Encryption draws a key and then the five scalars of the randomness, and gives what follows from
/// them.
pub proof fn law_encrypt(
    position: usize,
    bte_crs: CRS,
    ste_crs: SteCRS,
    ek: EncryptionKey,
    t: usize,
    rng: &mut StdRng,
    ct: Ciphertext,
)
    requires
        call_ensures(encrypt, (position, &bte_crs, &ste_crs, &ek, t, rng), ct),
    ensures
        exists|key: Scalar, s: Seq<Scalar>|
            s.len() == 5 && #[trigger] are_draws(*old(rng), *final(rng), seq![key] + s)
                && follows_from(
                &ct,
                &bte_crs,
                &ste_crs,
                &ek,
                position as int,
                t as int,
                key@,
                vals(s),
            ),
{
    let (key, s) = choose|key: Scalar, s: Seq<Scalar>|
        s.len() == 5 && #[trigger] are_draws(*old(rng), *final(rng), seq![key] + s)
            && ct.is_encryption(
            &bte_crs,
            &ste_crs,
            &ek,
            position as int,
            t as int,
            key@,
            vals(s),
        );
    lemma_follows(&ct, &bte_crs, &ste_crs, &ek, position as int, t as int, key@, vals(s));
}

/// The same with the witness: it holds the chunks of the drawn key and the drawn randomness.
pub proof fn law_encrypt_with_witness(
    position: usize,
    bte_crs: CRS,
    ste_crs: SteCRS,
    ek: EncryptionKey,
    t: usize,
    rng: &mut StdRng,
    ct: Ciphertext,
    witness: EncryptionWitness,
)
    requires
        call_ensures(
            encrypt_with_witness,
            (position, &bte_crs, &ste_crs, &ek, t, rng),
            (ct, witness),
        ),
    ensures
        exists|key: Scalar| #[trigger]
            are_draws(*old(rng), *final(rng), seq![key] + witness.ste_randomness.s@) && sum(
                16,
                |i: int| witness.chunks@[i]@ * pow(65536, i as nat),
            ) == key@ && follows_from(
                &ct,
                &bte_crs,
                &ste_crs,
                &ek,
                position as int,
                t as int,
                key@,
                vals(witness.ste_randomness.s@),
            ),
        witness.chunks@.len() == 16,
        forall|i: int| 0 <= i < 16 ==> 0 <= (#[trigger] witness.chunks@[i])@ < 65536,
{
    let s = vals(witness.ste_randomness.s@);
    let key = choose|key: Scalar| #[trigger]
        are_draws(*old(rng), *final(rng), seq![key] + witness.ste_randomness.s@) && vals(
            witness.chunks@,
        ) == chunks_of(key@) && ct.is_encryption(
            &bte_crs,
            &ste_crs,
            &ek,
            position as int,
            t as int,
            key@,
            s,
        );
    lemma_follows(&ct, &bte_crs, &ste_crs, &ek, position as int, t as int, key@, s);
    lemma_scalar_range(key);
    lemma_recompose(key@);
    assert(vals(witness.chunks@).len() == witness.chunks@.len());
    assert forall|i: int| 0 <= i < 16 implies 0 <= (#[trigger] witness.chunks@[i])@ < 65536 by {
        assert(vals(witness.chunks@)[i] == witness.chunks@[i]@);
    }
    lemma_sum_eq(
        16,
        |i: int| witness.chunks@[i]@ * pow(65536, i as nat),
        place_terms(vals(witness.chunks@)),
    );
}

/// Every part of the sum of a batch is the sum of that part over the batch.
pub proof fn law_sum_encrypted_keys(cts: Vec<Ciphertext>, l: usize, t: usize, c: SteCiphertext)
    requires
        call_ensures(sum_encrypted_keys, (&cts, l, t), c),
    ensures
        c.t == t,
        c.ct@.len() == l,
        forall|i: int|
            0 <= i < 2 ==> (#[trigger] c.sa1@[i])@ == sum(
                cts@.len() as int,
                |j: int| cts@[j].encrypted_key.sa1@[i]@,
            ) % modulus(),
        forall|i: int|
            0 <= i < 6 ==> (#[trigger] c.sa2@[i])@ == sum(
                cts@.len() as int,
                |j: int| cts@[j].encrypted_key.sa2@[i]@,
            ) % modulus(),
        forall|k: int|
            0 <= k < l ==> (#[trigger] c.ct@[k])@ == sum(
                cts@.len() as int,
                |j: int| cts@[j].encrypted_key.ct@[k]@,
            ) % modulus(),
{
    broadcast use lemma_g1_range, lemma_g2_range, lemma_gt_range;

    let n = cts@.len() as int;
    assert forall|i: int| 0 <= i < 2 implies (#[trigger] c.sa1@[i])@ == sum(
        n,
        |j: int| cts@[j].encrypted_key.sa1@[i]@,
    ) % modulus() by {
        lemma_sum_eq(n, |j: int| cts@[j].encrypted_key.sa1@[i]@, sa1_terms(cts@, i));
        lemma_reduced(c.sa1@[i]@);
    }
    assert forall|i: int| 0 <= i < 6 implies (#[trigger] c.sa2@[i])@ == sum(
        n,
        |j: int| cts@[j].encrypted_key.sa2@[i]@,
    ) % modulus() by {
        lemma_sum_eq(
            n,
            |j: int| cts@[j].encrypted_key.sa2@[i]@,
            crate::bte::decryption::sa2_terms(cts@, i),
        );
        lemma_reduced(c.sa2@[i]@);
    }
    assert forall|k: int| 0 <= k < l implies (#[trigger] c.ct@[k])@ == sum(
        n,
        |j: int| cts@[j].encrypted_key.ct@[k]@,
    ) % modulus() by {
        lemma_sum_eq(
            n,
            |j: int| cts@[j].encrypted_key.ct@[k]@,
            crate::bte::decryption::ct_terms(cts@, k),
        );
        lemma_reduced(c.ct@[k]@);
    }
}

/// Both ways to decrypt have the same result where every key is punctured at its own position.
pub proof fn law_decryptions_agree(
    cts: Vec<Ciphertext>,
    bte_crs: CRS,
    ste_crs: SteCRS,
    t: usize,
    pds: Vec<PartialDecryption>,
    selector: &[bool],
    agg_key: AggregateKey,
    markers: Markers,
    a: Result<Vec<Gt>, DecryptError>,
    b: Result<Vec<Gt>, DecryptError>,
)
    requires
        forall|j: int| 0 <= j < cts@.len() ==> (#[trigger] cts@[j]).pprf.point == j,
        call_ensures(
            decrypt,
            (&cts, &bte_crs, &ste_crs, t, &pds, selector, &agg_key, &markers),
            a,
        ),
        call_ensures(
            decrypt_fft,
            (&cts, &bte_crs, &ste_crs, t, &pds, selector, &agg_key, &markers),
            b,
        ),
    ensures
        a is Ok <==> b is Ok,
        a is Ok ==> vals(a->Ok_0@) == vals(b->Ok_0@),
        a is Err ==> a->Err_0 == b->Err_0,
{
    lemma_decryptions_agree(
        cts@,
        &bte_crs,
        &ste_crs,
        t as int,
        pds@,
        selector@,
        &agg_key,
        &markers,
        a,
        b,
    );
}

/// Decryption refuses every batch of more than 512 ciphertexts, and no other as
/// too large; what it gives back are the masks of all ciphertexts.
pub proof fn law_decrypt(
    cts: Vec<Ciphertext>,
    bte_crs: CRS,
    ste_crs: SteCRS,
    t: usize,
    pds: Vec<PartialDecryption>,
    selector: &[bool],
    agg_key: AggregateKey,
    markers: Markers,
    res: Result<Vec<Gt>, DecryptError>,
)
    requires
        call_ensures(
            decrypt,
            (&cts, &bte_crs, &ste_crs, t, &pds, selector, &agg_key, &markers),
            res,
        ) || call_ensures(
            decrypt_fft,
            (&cts, &bte_crs, &ste_crs, t, &pds, selector, &agg_key, &markers),
            res,
        ),
    ensures
        cts@.len() > 512 ==> res == Err::<Vec<Gt>, DecryptError>(
            DecryptError::BatchTooLarge(
                HomomorphicBatchTooLarge {
                    batch_size: cts@.len() as usize,
                    max_batch_size: 512,
                },
            ),
        ),
        cts@.len() <= 512 ==> !(res matches Err(DecryptError::BatchTooLarge(_))),
        res matches Ok(masks) ==> masks@.len() == cts@.len() && forall|i: int|
            0 <= i < cts@.len() ==> (#[trigger] masks@[i])@ == cts@[i].mask@,
        res matches Err(DecryptError::DlogOutOfRange { slot }) ==> slot < ste_crs.l,
        res matches Err(DecryptError::MaskMismatch { index }) ==> index < cts@.len(),
{
    lemma_default_bound(cts@.len() as int);
    vstd::std_specs::vec::axiom_spec_len(&cts);
}

/// A batch of up to 512 ciphertexts, each for its own position, decrypts to the values of its keys at
/// their positions, in both ways, from the contributions of at least as many parties as the threshold
/// asks for. The table for logarithms is to tell its entries apart.
pub proof fn law_batch_round_trip(
    batch_size: usize,
    x: Scalar,
    bte_crs: CRS,
    n: usize,
    tau: Scalar,
    alphas: Vec<Scalar>,
    gamma: Scalar,
    ste_crs: SteCRS,
    secrets: Seq<SecretKey>,
    pk: Vec<LagPublicKey>,
    agg_key: AggregateKey,
    ek: EncryptionKey,
    t: usize,
    keys: Seq<PRF>,
    randomness: Seq<EncryptionRandomness>,
    witnesses: Seq<EncryptionWitness>,
    cts: Vec<Ciphertext>,
    pds: Vec<PartialDecryption>,
    selector: &[bool],
    markers: Markers,
    res: Result<Vec<Gt>, DecryptError>,
)
    requires
        call_ensures(CRS::from_secret, (batch_size, &x), bte_crs),
        call_ensures(SteCRS::from_trapdoor, (n, &tau, &alphas, &gamma), ste_crs),
        alphas@.len() == 16,
        secrets.len() == n,
        pk@.len() == n,
        forall|i: usize|
            i < n ==> #[trigger] call_ensures(
                SecretKey::get_lagrange_pk,
                (&secrets[i as int], i, &ste_crs),
                pk@[i as int],
            ),
        call_ensures(AggregateKey::new, (pk, &ste_crs), (agg_key, ek)),
        cts@.len() <= 512,
        cts@.len() <= batch_size,
        keys.len() == cts@.len(),
        randomness.len() == cts@.len(),
        forall|j: usize|
            j < cts@.len() ==> #[trigger] call_ensures(
                encrypt_with_key,
                (j, &bte_crs, &ste_crs, &ek, t, &keys[j as int], &randomness[j as int]),
                (cts@[j as int], witnesses[j as int]),
            ),
        selector@.len() == n,
        pds@.len() == n,
        1 <= count(selector@, n as int),
        t <= count(selector@, n as int),
        forall|i: int|
            0 <= i < n && selector@[i] ==> call_ensures(
                SecretKey::batch_partial_decryption,
                (&secrets[i], &cts),
                #[trigger] pds@[i],
            ),
        call_ensures(Markers::new, (), markers),
        tells_multiples_apart(4096, 8192),
        call_ensures(
            decrypt,
            (&cts, &bte_crs, &ste_crs, t, &pds, selector, &agg_key, &markers),
            res,
        ) || call_ensures(
            decrypt_fft,
            (&cts, &bte_crs, &ste_crs, t, &pds, selector, &agg_key, &markers),
            res,
        ),
    ensures
        res matches Ok(masks) && masks@.len() == cts@.len() && forall|i: int|
            0 <= i < cts@.len() ==> (#[trigger] masks@[i])@ == (keys[i].key@ * pow(
                x@,
                (batch_size + 1 + i) as nat,
            )) % modulus(),
{
    let b = batch_size as int;
    let ks = Seq::new(keys.len(), |j: int| keys[j].key@);
    let ss = Seq::new(keys.len(), |j: int| vals(randomness[j].s@));
    lemma_count(selector@, n as int);
    lemma_default_bound(cts@.len() as int);
    lemma_tells_apart(&markers);
    assert forall|i: int| 0 <= i < n implies (#[trigger] pk@[i]).is_key_of(
        secrets[i],
        i,
        &ste_crs,
    ) by {
        assert(call_ensures(
            SecretKey::get_lagrange_pk,
            (&secrets[(i as usize) as int], i as usize, &ste_crs),
            pk@[(i as usize) as int],
        ));
    }
    vstd::std_specs::vec::axiom_spec_len(&cts);
    assert forall|j: int| 0 <= j < cts@.len() implies (#[trigger] cts@[j]).is_encryption(
        &bte_crs,
        &ste_crs,
        &ek,
        j,
        t as int,
        ks[j],
        ss[j],
    ) by {
        let u: usize = j as usize;
        assert(call_ensures(
            encrypt_with_key,
            (u, &bte_crs, &ste_crs, &ek, t, &keys[u as int], &randomness[u as int]),
            (cts@[u as int], witnesses[u as int]),
        ));
    }
    assert forall|j: int| 0 <= j < ks.len() implies 0 <= #[trigger] ks[j] < modulus() by {
        lemma_scalar_range(keys[j].key);
    }
    lemma_honest_batch_decrypts(
        cts@,
        &bte_crs,
        x@,
        &ste_crs,
        tau@,
        vals(alphas@),
        gamma@,
        secrets,
        pk@,
        &agg_key,
        &ek,
        t as int,
        ks,
        ss,
        pds@,
        selector@,
        &markers,
        res,
    );
    assert forall|i: int| 0 <= i < cts@.len() implies #[trigger] cts@[i].mask@ == (keys[i].key@
        * pow(x@, (b + 1 + i) as nat)) % modulus() by {
        assert(cts@[i].is_encryption(&bte_crs, &ste_crs, &ek, i, t as int, ks[i], ss[i]));
        let p = pow(x@, (b + 1 + i) as nat);
        let k = keys[i].key@;
        assert(bte_crs.gt_powers@[i]@ == p % modulus());
        lemma_eqm_mod(p);
        lemma_eqm_mul(p % modulus(), p, k, k);
        assert(p * k == k * p) by (nonlinear_arith);
    }
}

proof fn lemma_tells_apart(markers: &Markers)
    requires
        markers.log_max_input == 25,
        markers.log_markers == 13,
        tells_multiples_apart(4096, 8192),
    ensures
        has_distinct_keys(markers.log_bases(), markers.log_markers as nat),
{
    let lb = markers.log_bases();
    lemma2_to64();
    assert(pow2(12) == 4096 && pow2(13) == 8192);
    assert(lb == 12);
    assert forall|i: int, j: int| 0 <= i < j <= pow2(13) implies #[trigger] dlog_key(
        giant_step(lb, i),
    ) != #[trigger] dlog_key(giant_step(lb, j)) by {
        assert(prefix_key((i * 4096) % modulus()) != prefix_key((j * 4096) % modulus()));
    }
}

/// How a batch that is not too large is decrypted, by the steps: the encrypted keys are summed up and
/// decrypted, the logarithms of the slots are looked up, and the chunks put together. With that key,
/// what is left of every value without those of the punctured keys is compared with the mask. The first
/// logarithm that is out of range, or else the first mask that differs, is reported.
pub proof fn law_decrypt_steps(
    cts: Vec<Ciphertext>,
    bte_crs: CRS,
    ste_crs: SteCRS,
    t: usize,
    pds: Vec<PartialDecryption>,
    selector: &[bool],
    agg_key: AggregateKey,
    markers: Markers,
    res: Result<Vec<Gt>, DecryptError>,
    c: SteCiphertext,
    dec: Vec<Gt>,
    dlogs: Seq<Option<Scalar>>,
    chunks: Vec<Scalar>,
    key: Scalar,
    pprfs: &[PPRF],
    whole: Seq<Gt>,
    punctured: Seq<Gt>,
)
    requires
        cts@.len() <= 512,
        call_ensures(
            decrypt,
            (&cts, &bte_crs, &ste_crs, t, &pds, selector, &agg_key, &markers),
            res,
        ),
        call_ensures(sum_encrypted_keys, (&cts, ste_crs.l, t), c),
        call_ensures(agg_dec, (&pds, &c, selector, &agg_key, &ste_crs), dec),
        dlogs.len() == dec@.len(),
        forall|k: int|
            0 <= k < dlogs.len() ==> call_ensures(
                Markers::compute_dlog,
                (&markers, &dec@[k]),
                #[trigger] dlogs[k],
            ),
        chunks@.len() == dlogs.len(),
        forall|k: int|
            0 <= k < dlogs.len() ==> (dlogs[k] matches Some(x) ==> (#[trigger] chunks@[k])@
                == x@),
        call_ensures(recompose_chunks, (&chunks,), key),
        pprfs@.len() == cts@.len(),
        forall|j: int| 0 <= j < pprfs@.len() ==> #[trigger] pprfs@[j] == cts@[j].pprf,
        whole.len() == cts@.len(),
        punctured.len() == cts@.len(),
        forall|i: usize|
            i < cts@.len() ==> #[trigger] call_ensures(
                PRF::eval,
                (&(PRF { key }), i, &bte_crs),
                whole[i as int],
            ),
        forall|i: usize|
            i < cts@.len() ==> #[trigger] call_ensures(
                batch_eval,
                (pprfs, i, &bte_crs),
                punctured[i as int],
            ),
    ensures
        (exists|k: int| 0 <= k < dlogs.len() && #[trigger] dlogs[k] is None) ==> (
        res matches Err(DecryptError::DlogOutOfRange { slot }) && 0 <= slot < dlogs.len()
            && dlogs[slot as int] is None && forall|k: int|
            0 <= k < slot ==> #[trigger] dlogs[k] is Some),
        (forall|k: int| 0 <= k < dlogs.len() ==> #[trigger] dlogs[k] is Some) ==> match res {
            Ok(masks) => masks@.len() == cts@.len() && forall|i: int|
                0 <= i < cts@.len() ==> (#[trigger] masks@[i])@ == cts@[i].mask@ && masks@[i]@ == (
                whole[i]@ - punctured[i]@) % modulus(),
            Err(DecryptError::MaskMismatch { index }) => index < cts@.len()
                && cts@[index as int].mask@ != (whole[index as int]@ - punctured[index as int]@)
                % modulus() && forall|i: int|
                0 <= i < index ==> (#[trigger] cts@[i]).mask@ == (whole[i]@ - punctured[i]@)
                    % modulus(),
            _ => false,
        },
{
    broadcast use lemma_gt_range;

    lemma_default_bound(cts@.len() as int);
    vstd::std_specs::vec::axiom_spec_len(&cts);
    let (c1, dec1, dlogs1) = choose|
        c: SteCiphertext,
        dec: Seq<int>,
        dlogs: Seq<Option<int>>,
    | #[trigger]
        is_opening(
            cts@,
            &ste_crs,
            t as int,
            pds@,
            selector@,
            &agg_key,
            &markers,
            c,
            dec,
            dlogs,
        ) && is_outcome(
            cts@,
            dlogs,
            separate_masks(&bte_crs, cts@, recovered_key(dlogs)),
            res,
        );
    let full = Seq::new(dlogs.len(), |k: int| option_value(dlogs[k]));
    assert(vals(dec@).len() == dec@.len());
    assert forall|k: int| 0 <= k < full.len() implies #[trigger] full[k] == search_result(
        markers.markers_map@,
        markers.log_bases(),
        vals(dec@)[k],
    ) by {
        assert(call_ensures(Markers::compute_dlog, (&markers, &dec@[k]), dlogs[k]));
    }
    assert forall|k: int| 0 <= k < vals(dec@).len() implies 0 <= #[trigger] vals(dec@)[k]
        < modulus() by {
        lemma_gt_range(dec@[k]);
    }
    lemma_opening_unique(
        cts@,
        &ste_crs,
        t as int,
        pds@,
        selector@,
        &agg_key,
        &markers,
        c1,
        dec1,
        dlogs1,
        c,
        vals(dec@),
        full,
    );
    assert forall|k: int| 0 <= k < dlogs1.len() implies #[trigger] dlogs1[k] == full[k] by {}
    if forall|k: int| 0 <= k < dlogs.len() ==> #[trigger] dlogs[k] is Some {
        assert forall|k: int| 0 <= k < dlogs1.len() implies #[trigger] dlogs1[k] is Some by {
            assert(dlogs1[k] == full[k]);
            assert(dlogs[k] is Some);
        }
        assert(all_found(dlogs1));
        assert(dlogs1 =~= full);
        let found = Seq::new(dlogs1.len(), |k: int| dlogs1[k]->0);
        assert forall|k: int| 0 <= k < found.len() implies found[k] == #[trigger] vals(
            chunks@,
        )[k] by {
            assert(dlogs[k] is Some);
            assert(full[k] == Some(dlogs[k]->0@));
            assert(chunks@[k]@ == dlogs[k]->0@);
        }
        assert(found =~= vals(chunks@));
        assert(key@ == recovered_key(dlogs1));
        let masks = separate_masks(&bte_crs, cts@, key@);
        assert(pprfs@ =~= pprfs_of(cts@));
        assert forall|i: int| 0 <= i < cts@.len() implies #[trigger] masks(i) == (whole[i]@
            - punctured[i]@) % modulus() by {
            let u: usize = i as usize;
            assert(call_ensures(PRF::eval, (&(PRF { key }), u, &bte_crs), whole[u as int]));
            assert(call_ensures(batch_eval, (pprfs, u, &bte_crs), punctured[u as int]));
        }
        if let Err(DecryptError::MaskMismatch { index }) = res {
            assert forall|i: int| 0 <= i < index implies (#[trigger] cts@[i]).mask@ == (whole[i]@
                - punctured[i]@) % modulus() by {
                assert(masks(i) == cts@[i].mask@);
            }
            assert(masks(index as int) != cts@[index as int].mask@);
        }
    }
    if exists|k: int| 0 <= k < dlogs.len() && #[trigger] dlogs[k] is None {
        let s = choose|k: int| 0 <= k < dlogs.len() && #[trigger] dlogs[k] is None;
        assert(full[s] is None);
        if s < dlogs1.len() {
            assert(dlogs1[s] is None);
        }
        assert(!all_found(dlogs1));
        if let Err(DecryptError::DlogOutOfRange { slot }) = res {
            assert(dlogs1[slot as int] == full[slot as int]);
            assert(dlogs[slot as int] is None);
            assert forall|k: int| 0 <= k < slot implies #[trigger] dlogs[k] is Some by {
                assert(dlogs1[k] is Some);
                assert(full[k] is Some);
            }
        }
    }
}

/// The value with a punctured key is its pairing with the power as far from the middle as the input is
/// from the point.
pub proof fn law_punctured_value(punctured: PPRF, input: usize, crs: CRS, value: Gt)
    requires
        call_ensures(PPRF::eval, (&punctured, input, &crs), value),
    ensures
        value@ == (punctured.key@ * crs.powers_of_h@[crs.batch_size + 1 + input
            - punctured.point as int]@) % modulus(),
{
}

/// The same with one convolution, which takes every key as punctured at its own position.
pub proof fn law_decrypt_fft_steps(
    cts: Vec<Ciphertext>,
    bte_crs: CRS,
    ste_crs: SteCRS,
    t: usize,
    pds: Vec<PartialDecryption>,
    selector: &[bool],
    agg_key: AggregateKey,
    markers: Markers,
    res: Result<Vec<Gt>, DecryptError>,
    c: SteCiphertext,
    dec: Vec<Gt>,
    dlogs: Seq<Option<Scalar>>,
    chunks: Vec<Scalar>,
    key: Scalar,
    pprfs: &[PPRF],
    recovered: Vec<Gt>,
)
    requires
        cts@.len() <= 512,
        call_ensures(
            decrypt_fft,
            (&cts, &bte_crs, &ste_crs, t, &pds, selector, &agg_key, &markers),
            res,
        ),
        call_ensures(sum_encrypted_keys, (&cts, ste_crs.l, t), c),
        call_ensures(agg_dec, (&pds, &c, selector, &agg_key, &ste_crs), dec),
        dlogs.len() == dec@.len(),
        forall|k: int|
            0 <= k < dlogs.len() ==> call_ensures(
                Markers::compute_dlog,
                (&markers, &dec@[k]),
                #[trigger] dlogs[k],
            ),
        chunks@.len() == dlogs.len(),
        forall|k: int|
            0 <= k < dlogs.len() ==> (dlogs[k] matches Some(x) ==> (#[trigger] chunks@[k])@
                == x@),
        call_ensures(recompose_chunks, (&chunks,), key),
        pprfs@.len() == cts@.len(),
        forall|j: int| 0 <= j < pprfs@.len() ==> #[trigger] pprfs@[j] == cts@[j].pprf,
        call_ensures(fft_batch_eval, (&(PRF { key }), pprfs, &bte_crs), recovered),
        cts@.len() == bte_crs.batch_size,
    ensures
        (exists|k: int| 0 <= k < dlogs.len() && #[trigger] dlogs[k] is None) ==> (
        res matches Err(DecryptError::DlogOutOfRange { slot }) && 0 <= slot < dlogs.len()
            && dlogs[slot as int] is None && forall|k: int|
            0 <= k < slot ==> #[trigger] dlogs[k] is Some),
        (forall|k: int| 0 <= k < dlogs.len() ==> #[trigger] dlogs[k] is Some) ==> match res {
            Ok(masks) => masks@.len() == cts@.len() && forall|i: int|
                0 <= i < cts@.len() ==> (#[trigger] masks@[i])@ == cts@[i].mask@ && masks@[i]@
                == recovered@[i]@,
            Err(DecryptError::MaskMismatch { index }) => index < cts@.len()
                && cts@[index as int].mask@ != recovered@[index as int]@ && forall|i: int|
                0 <= i < index ==> (#[trigger] cts@[i]).mask@ == recovered@[i]@,
            _ => false,
        },
{
    broadcast use lemma_gt_range;

    lemma_default_bound(cts@.len() as int);
    vstd::std_specs::vec::axiom_spec_len(&cts);
    let (c1, dec1, dlogs1) = choose|
        c: SteCiphertext,
        dec: Seq<int>,
        dlogs: Seq<Option<int>>,
    | #[trigger]
        is_opening(
            cts@,
            &ste_crs,
            t as int,
            pds@,
            selector@,
            &agg_key,
            &markers,
            c,
            dec,
            dlogs,
        ) && is_outcome(
            cts@,
            dlogs,
            convolved_masks(&bte_crs, cts@, recovered_key(dlogs)),
            res,
        );
    let full = Seq::new(dlogs.len(), |k: int| option_value(dlogs[k]));
    assert(vals(dec@).len() == dec@.len());
    assert forall|k: int| 0 <= k < full.len() implies #[trigger] full[k] == search_result(
        markers.markers_map@,
        markers.log_bases(),
        vals(dec@)[k],
    ) by {
        assert(call_ensures(Markers::compute_dlog, (&markers, &dec@[k]), dlogs[k]));
    }
    assert forall|k: int| 0 <= k < vals(dec@).len() implies 0 <= #[trigger] vals(dec@)[k]
        < modulus() by {
        lemma_gt_range(dec@[k]);
    }
    lemma_opening_unique(
        cts@,
        &ste_crs,
        t as int,
        pds@,
        selector@,
        &agg_key,
        &markers,
        c1,
        dec1,
        dlogs1,
        c,
        vals(dec@),
        full,
    );
    assert forall|k: int| 0 <= k < dlogs1.len() implies #[trigger] dlogs1[k] == full[k] by {}
    if forall|k: int| 0 <= k < dlogs.len() ==> #[trigger] dlogs[k] is Some {
        assert forall|k: int| 0 <= k < dlogs1.len() implies #[trigger] dlogs1[k] is Some by {
            assert(dlogs1[k] == full[k]);
            assert(dlogs[k] is Some);
        }
        assert(all_found(dlogs1));
        assert(dlogs1 =~= full);
        let found = Seq::new(dlogs1.len(), |k: int| dlogs1[k]->0);
        assert forall|k: int| 0 <= k < found.len() implies found[k] == #[trigger] vals(
            chunks@,
        )[k] by {
            assert(dlogs[k] is Some);
            assert(full[k] == Some(dlogs[k]->0@));
            assert(chunks@[k]@ == dlogs[k]->0@);
        }
        assert(found =~= vals(chunks@));
        assert(key@ == recovered_key(dlogs1));
        let masks = convolved_masks(&bte_crs, cts@, key@);
        assert(pprfs@ =~= pprfs_of(cts@));
        assert forall|i: int| 0 <= i < cts@.len() implies #[trigger] masks(i)
            == recovered@[i]@ by {}
        if let Err(DecryptError::MaskMismatch { index }) = res {
            assert forall|i: int| 0 <= i < index implies (#[trigger] cts@[i]).mask@
                == recovered@[i]@ by {
                assert(masks(i) == cts@[i].mask@);
            }
            assert(masks(index as int) != cts@[index as int].mask@);
        }
    }
    if exists|k: int| 0 <= k < dlogs.len() && #[trigger] dlogs[k] is None {
        let s = choose|k: int| 0 <= k < dlogs.len() && #[trigger] dlogs[k] is None;
        assert(full[s] is None);
        if s < dlogs1.len() {
            assert(dlogs1[s] is None);
        }
        assert(!all_found(dlogs1));
        if let Err(DecryptError::DlogOutOfRange { slot }) = res {
            assert(dlogs1[slot as int] == full[slot as int]);
            assert(dlogs[slot as int] is None);
            assert forall|k: int| 0 <= k < slot implies #[trigger] dlogs[k] is Some by {
                assert(dlogs1[k] is Some);
                assert(full[k] is Some);
            }
        }
    }
}

/// What the convolution gives, whatever points the keys are punctured at: at every input the value with
/// the given key, less the pairing of each punctured key with the power as far from the middle as the
/// input is from its position.
pub proof fn law_convolution(k_agg: PRF, pprfs: &[PPRF], crs: CRS, masks: Vec<Gt>, i: int)
    requires
        call_ensures(fft_batch_eval, (&k_agg, pprfs, &crs), masks),
        pprfs@.len() == crs.batch_size,
        0 <= i < crs.batch_size,
    ensures
        masks@.len() == crs.batch_size,
        eqm(
            masks@[i]@,
            crs.gt_powers@[i]@ * k_agg.key@ - sum(
                pprfs@.len() as int,
                |j: int| pprfs@[j].key@ * crs.powers_of_h@[crs.batch_size + 1 + i - j]@,
            ),
        ),
{
    let n = pprfs@.len() as int;
    let f = |j: int| pprfs@[j].key@ * crs.powers_of_h@[crs.batch_size + 1 + i - j]@;
    lemma_sum_eq(n, f, position_terms(&crs, pprfs@, i));
    let p = crs.gt_powers@[i]@ * k_agg.key@;
    lemma_eqm_mod(p);
    lemma_eqm_sub(p % modulus(), p, sum(n, f), sum(n, f));
    assert(masks@[i]@ == crate::bte::mask_value(&crs, k_agg.key@, pprfs@, i));
    lemma_eqm_mod(p % modulus() - sum(n, f));
}

} // verus!
