//! Laws of the keys of the threshold scheme, and of encryption under their aggregate.
use crate::algebra::congruence::{eqm, inverse_of, lemma_eqm_reduced, lemma_reduced, modulus};
use crate::algebra::lagrange::{lemma_size_inverse, size_inverse};
use crate::algebra::polynomial::{coeff, eval};
use crate::algebra::roots::unity_root;
use crate::algebra::sums::{lemma_sum_eq, sum};
use crate::bte::encryption::in_target_group;
use crate::field::{are_draws, is_draw, vals, Scalar};
use crate::group::{lemma_g1_range, lemma_g2_range, lemma_gt_range, G1, G2, Gt};
use crate::ste::aggregate::{cross_terms, is_cross_sum_row, key_terms, AggregateKey, EncryptionKey};
use crate::ste::crs::CRS;
use crate::ste::decryption::{
    agg_dec, agg_terms, at_root, bls_terms, lemma_decryption_correct, lemma_selector_shape,
    lemma_selector_zero, minus0_terms, pd_terms, points_from, selected_count, selector_poly,
    slot_mask, tail, weighted, weighted_sum, x_terms,
};
use crate::ste::encryption::{
    encrypt, encrypt_with_randomness, encrypt_with_witness, encryption_parts,
    lemma_encryption_homomorphic, sums, Ciphertext, EncryptionRandomness,
};
use crate::ste::setup::{
    lemma_lag_key_agrees, LagPolys, LagPublicKey, PartialDecryption, PublicKey, SecretKey,
};
use crate::ste::utils::is_multiple_row;
use ark_std::rand::rngs::StdRng;
use vstd::arithmetic::power::pow;
use vstd::prelude::*;

verus! {

/// A new secret key is what the generator yields.
pub proof fn law_new_secret_key(rng: &mut StdRng, id: usize, key: SecretKey)
    requires
        call_ensures(SecretKey::new, (rng, id), key),
    ensures
        key.id == id,
        is_draw(*old(rng), *final(rng), key.sk),
{
}

/// A secret key is the scalar that it is made from.
pub proof fn law_secret_key_from_scalar(sk: Scalar, id: usize, key: SecretKey)
    requires
        call_ensures(SecretKey::from_scalar, (sk, id), key),
    ensures
        key.id == id,
        key.sk@ == sk@,
{
}

/// Whether all points are the given ones times a scalar.
pub open spec fn are_times(points: Seq<G1>, bases: Seq<G1>, k: int) -> bool {
    &&& points.len() == bases.len()
    &&& forall|i: int|
        0 <= i < points.len() ==> (#[trigger] points[i])@ == (bases[i]@ * k) % modulus()
}

/// A public key holds the bases, the powers and the transforms of the reference string, all times the
/// secret key.
pub proof fn law_public_key(key: SecretKey, crs: CRS, public: PublicKey)
    requires
        call_ensures(SecretKey::get_pk, (&key, &crs), public),
    ensures
        public.id == key.id,
        are_times(public.bls_pk@, crs.gen_g@, key.sk@),
        public.hints@.len() == crs.powers_of_g@.len(),
        public.y@.len() == crs.y@.len(),
        forall|k: int|
            0 <= k < public.hints@.len() ==> are_times(
                (#[trigger] public.hints@[k])@,
                crs.powers_of_g@[k]@,
                key.sk@,
            ),
        forall|k: int|
            0 <= k < public.y@.len() ==> are_times(
                (#[trigger] public.y@[k])@,
                crs.y@[k]@,
                key.sk@,
            ),
{
    assert forall|k: int| 0 <= k < public.hints@.len() implies are_times(
        (#[trigger] public.hints@[k])@,
        crs.powers_of_g@[k]@,
        key.sk@,
    ) by {
        assert(is_multiple_row(public.hints@[k]@, crs.powers_of_g@[k]@, key.sk@));
    }
    assert forall|k: int| 0 <= k < public.y@.len() implies are_times(
        (#[trigger] public.y@[k])@,
        crs.y@[k]@,
        key.sk@,
    ) by {
        assert(is_multiple_row(public.y@[k]@, crs.y@[k]@, key.sk@));
    }
}

/// Whether the key for a position holds what the reference string has for it, times the secret key.
pub open spec fn is_position_key(
    public: LagPublicKey,
    id: int,
    sk: int,
    position: int,
    crs: &CRS,
) -> bool {
    &&& public.id == id
    &&& public.position == position
    &&& are_times(public.bls_pk@, crs.gen_g@, sk)
    &&& public.sk_li@.len() == crs.l
    &&& public.sk_li_minus0@.len() == crs.l
    &&& public.sk_li_x@.len() == crs.l
    &&& public.sk_li_lj_z@.len() == crs.l
    &&& forall|k: int|
        0 <= k < crs.l ==> (#[trigger] public.sk_li@[k])@ == (crs.li@[k]@[position]@ * sk)
            % modulus()
    &&& forall|k: int|
        0 <= k < crs.l ==> (#[trigger] public.sk_li_minus0@[k])@ == (
        crs.li_minus0@[k]@[position]@ * sk) % modulus()
    &&& forall|k: int|
        0 <= k < crs.l ==> (#[trigger] public.sk_li_x@[k])@ == (crs.li_x@[k]@[position]@ * sk)
            % modulus()
    &&& forall|k: int|
        0 <= k < crs.l ==> are_times(
            (#[trigger] public.sk_li_lj_z@[k])@,
            crs.li_lj_z@[k]@[position]@,
            sk,
        )
}

proof fn lemma_position_key(public: LagPublicKey, key: SecretKey, position: int, crs: &CRS)
    requires
        crs.wf(),
        public.is_key_of(key, position, crs),
    ensures
        is_position_key(public, key.id as int, key.sk@, position, crs),
{
    assert forall|k: int| 0 <= k < crs.l implies are_times(
        (#[trigger] public.sk_li_lj_z@[k])@,
        crs.li_lj_z@[k]@[position]@,
        key.sk@,
    ) by {
        assert(is_multiple_row(
            public.sk_li_lj_z@[k]@,
            crs.li_lj_z@[k]@[position]@,
            key.sk@,
        ));
    }
}

/// The key for a position holds what the reference string has for it, times the secret key.
pub proof fn law_lagrange_key(key: SecretKey, position: usize, crs: CRS, public: LagPublicKey)
    requires
        crs.wf(),
        call_ensures(SecretKey::get_lagrange_pk, (&key, position, &crs), public),
    ensures
        is_position_key(public, key.id as int, key.sk@, position as int, &crs),
{
    lemma_position_key(public, key, position as int, &crs);
}

/// Whoever derives the key for a position from the public key gets the one that the secret key gives.
pub proof fn law_lagrange_key_without_secret(
    n: usize,
    tau: Scalar,
    alphas: Vec<Scalar>,
    gamma: Scalar,
    crs: CRS,
    polys: LagPolys,
    key: SecretKey,
    public: PublicKey,
    position: usize,
    derived: LagPublicKey,
)
    requires
        call_ensures(CRS::from_trapdoor, (n, &tau, &alphas, &gamma), crs),
        call_ensures(LagPolys::new, (n,), polys),
        call_ensures(SecretKey::get_pk, (&key, &crs), public),
        position < n,
        call_ensures(PublicKey::get_lag_public_key, (&public, position, &crs, &polys), derived),
    ensures
        is_position_key(derived, key.id as int, key.sk@, position as int, &crs),
{
    lemma_lag_key_agrees(
        &crs,
        alphas@.len() as int,
        tau@,
        vals(alphas@),
        gamma@,
        key,
        public,
        &polys,
        position as int,
        derived,
    );
    lemma_position_key(derived, key, position as int, &crs);
}

/// A key for a position has the parts that it is made of.
pub proof fn law_lagrange_key_parts(
    id: usize,
    position: usize,
    bls_pk: Vec<G1>,
    sk_li: Vec<G1>,
    sk_li_minus0: Vec<G1>,
    sk_li_lj_z: Vec<Vec<G1>>,
    sk_li_x: Vec<G1>,
    key: LagPublicKey,
)
    requires
        call_ensures(
            LagPublicKey::new,
            (id, position, bls_pk, sk_li, sk_li_minus0, sk_li_lj_z, sk_li_x),
            key,
        ),
    ensures
        key.id == id,
        key.position == position,
        key.bls_pk == bls_pk,
        key.sk_li == sk_li,
        key.sk_li_minus0 == sk_li_minus0,
        key.sk_li_lj_z == sk_li_lj_z,
        key.sk_li_x == sk_li_x,
{
}

/// The keys of all parties are summed up: in the encryption key their parts on the basis polynomials,
/// in the decryption key their parts on the cross products. The rest comes from the reference string.
pub proof fn law_aggregate(
    pk: Vec<LagPublicKey>,
    crs: CRS,
    agg_key: AggregateKey,
    ek: EncryptionKey,
)
    requires
        crs.wf(),
        call_ensures(AggregateKey::new, (pk, &crs), (agg_key, ek)),
    ensures
        agg_key.pk@ == pk@,
        agg_key.agg_sk_li_lj_z@.len() == crs.l,
        forall|k: int, j: int|
            0 <= k < crs.l && 0 <= j < crs.n ==> (
            #[trigger] agg_key.agg_sk_li_lj_z@[k]@[j])@ == sum(
                pk@.len() as int,
                |i: int| pk@[i].sk_li_lj_z@[k]@[j]@,
            ) % modulus(),
        ek.ask@ == sum(pk@.len() as int, |i: int| pk@[i].sk_li@[0]@) % modulus(),
        ek.z_g2@ == (crs.powers_of_h@[0]@[crs.n as int]@ - crs.powers_of_h@[0]@[0]@) % modulus(),
        ek.e_gh@.len() == crs.l,
        forall|k: int|
            0 <= k < crs.l ==> (#[trigger] ek.e_gh@[k])@ == (crs.gen_g@[k]@
                * crs.powers_of_h@[0]@[0]@) % modulus(),
        ek.gamma_g2@ == crs.gamma_g2@,
{
    broadcast use lemma_g1_range, lemma_g2_range;

    let n = pk@.len() as int;
    assert forall|k: int, j: int| 0 <= k < crs.l && 0 <= j < crs.n implies (
    #[trigger] agg_key.agg_sk_li_lj_z@[k]@[j])@ == sum(
        n,
        |i: int| pk@[i].sk_li_lj_z@[k]@[j]@,
    ) % modulus() by {
        let row = agg_key.agg_sk_li_lj_z@[k]@;
        assert(is_cross_sum_row(row, pk@, k));
        lemma_sum_eq(n, |i: int| pk@[i].sk_li_lj_z@[k]@[j]@, cross_terms(pk@, k, j));
        assert(eqm(row[j]@, sum(n, cross_terms(pk@, k, j))));
        lemma_reduced(row[j]@);
    }
    lemma_sum_eq(n, |i: int| pk@[i].sk_li@[0]@, key_terms(pk@));
    lemma_reduced(ek.ask@);
    lemma_reduced(ek.z_g2@);
}

/// Whether the ciphertext has the parts that follow from messages and randomness.
pub open spec fn has_parts(
    c: &Ciphertext,
    crs: &CRS,
    ek: &EncryptionKey,
    t: int,
    messages: Seq<int>,
    s: Seq<int>,
) -> bool {
    let g = crs.powers_of_g@[0]@;
    let h = crs.powers_of_h@[0]@;
    &&& c.t == t
    &&& c.sa1@[0]@ == (ek.ask@ * s[0] + g[t]@ * s[3] + g[0]@ * s[4]) % modulus()
    &&& c.sa1@[1]@ == (g[0]@ * s[2]) % modulus()
    &&& c.sa2@[0]@ == (h[0]@ * s[0] + ek.gamma_g2@[0]@ * s[2]) % modulus()
    &&& c.sa2@[1]@ == (ek.z_g2@ * s[0]) % modulus()
    &&& c.sa2@[2]@ == (h[1]@ * s[0] + h[2]@ * s[1]) % modulus()
    &&& c.sa2@[3]@ == (h[0]@ * s[1]) % modulus()
    &&& c.sa2@[4]@ == (h[0]@ * s[3]) % modulus()
    &&& c.sa2@[5]@ == (h[1]@ * s[4]) % modulus()
    &&& c.ct@.len() == messages.len()
    &&& forall|k: int|
        0 <= k < messages.len() ==> (#[trigger] c.ct@[k])@ == (ek.e_gh@[k]@ * s[4] + messages[k])
            % modulus()
}

proof fn lemma_parts(
    c: &Ciphertext,
    crs: &CRS,
    ek: &EncryptionKey,
    t: int,
    messages: Seq<int>,
    s: Seq<int>,
)
    requires
        c.is_encryption(crs, ek, t, messages, s),
    ensures
        has_parts(c, crs, ek, t, messages, s),
{
    broadcast use lemma_g1_range, lemma_g2_range, lemma_gt_range;

    assert forall|i: int| 0 <= i < 2 implies (#[trigger] c.sa1@[i])@
        == crate::ste::encryption::sa1_value(crs, ek, t, s, i) % modulus() by {
        assert(vals(c.sa1@)[i] == c.sa1@[i]@);
        lemma_reduced(c.sa1@[i]@);
    }
    assert forall|i: int| 0 <= i < 6 implies (#[trigger] c.sa2@[i])@
        == crate::ste::encryption::sa2_value(crs, ek, s, i) % modulus() by {
        assert(vals(c.sa2@)[i] == c.sa2@[i]@);
        lemma_reduced(c.sa2@[i]@);
    }
    assert(vals(c.ct@).len() == c.ct@.len());
    assert forall|k: int| 0 <= k < messages.len() implies (#[trigger] c.ct@[k])@ == (ek.e_gh@[k]@
        * s[4] + messages[k]) % modulus() by {
        assert(vals(c.ct@)[k] == c.ct@[k]@);
        lemma_reduced(c.ct@[k]@);
    }
}

/// Encrypting with given randomness gives the parts that follow from it.
pub proof fn law_encrypt_with_randomness(
    ek: EncryptionKey,
    t: usize,
    crs: CRS,
    messages: Vec<Gt>,
    randomness: EncryptionRandomness,
    c: Ciphertext,
)
    requires
        call_ensures(encrypt_with_randomness, (&ek, t, &crs, &messages, &randomness), c),
    ensures
        has_parts(&c, &crs, &ek, t as int, vals(messages@), vals(randomness.s@)),
{
    lemma_parts(&c, &crs, &ek, t as int, vals(messages@), vals(randomness.s@));
}

/// Encryption draws five scalars and gives the parts that follow from them.
pub proof fn law_encrypt(
    ek: EncryptionKey,
    t: usize,
    crs: CRS,
    messages: Vec<Gt>,
    rng: &mut StdRng,
    c: Ciphertext,
)
    requires
        call_ensures(encrypt, (&ek, t, &crs, &messages, rng), c),
    ensures
        exists|s: Seq<Scalar>|
            s.len() == 5 && #[trigger] are_draws(*old(rng), *final(rng), s) && has_parts(
                &c,
                &crs,
                &ek,
                t as int,
                vals(messages@),
                vals(s),
            ),
{
    let s = choose|s: Seq<Scalar>|
        s.len() == 5 && #[trigger] are_draws(*old(rng), *final(rng), s) && c.is_encryption(
            &crs,
            &ek,
            t as int,
            vals(messages@),
            vals(s),
        );
    lemma_parts(&c, &crs, &ek, t as int, vals(messages@), vals(s));
}

/// The same where the randomness is handed out.
pub proof fn law_encrypt_with_witness(
    ek: EncryptionKey,
    t: usize,
    crs: CRS,
    messages: Vec<Gt>,
    rng: &mut StdRng,
    c: Ciphertext,
    randomness: EncryptionRandomness,
)
    requires
        call_ensures(encrypt_with_witness, (&ek, t, &crs, &messages, rng), (c, randomness)),
    ensures
        are_draws(*old(rng), *final(rng), randomness.s@),
        has_parts(&c, &crs, &ek, t as int, vals(messages@), vals(randomness.s@)),
{
    lemma_parts(&c, &crs, &ek, t as int, vals(messages@), vals(randomness.s@));
}

/// The empty sum of ciphertexts is neutral, and the sum is commutative.
pub proof fn law_sum_of_ciphertexts(
    zero: Ciphertext,
    a: Ciphertext,
    b: Ciphertext,
    with_zero: Ciphertext,
    ab: Ciphertext,
    ba: Ciphertext,
)
    requires
        call_ensures(Ciphertext::zero, (a.ct@.len() as usize, a.t), zero),
        a.t == b.t,
        a.ct@.len() == b.ct@.len(),
        call_ensures(Ciphertext::add, (&zero, &a), with_zero),
        call_ensures(Ciphertext::add, (&a, &b), ab),
        call_ensures(Ciphertext::add, (&b, &a), ba),
    ensures
        with_zero.t == a.t,
        vals(with_zero.sa1@) == vals(a.sa1@),
        vals(with_zero.sa2@) == vals(a.sa2@),
        vals(with_zero.ct@) == vals(a.ct@),
        ab.t == ba.t == a.t,
        vals(ab.sa1@) == vals(ba.sa1@),
        vals(ab.sa2@) == vals(ba.sa2@),
        vals(ab.ct@) == vals(ba.ct@),
{
    broadcast use lemma_g1_range, lemma_g2_range, lemma_gt_range;

    vstd::std_specs::vec::axiom_spec_len(&a.ct);
    assert forall|i: int| 0 <= i < 2 implies #[trigger] vals(with_zero.sa1@)[i]
        == vals(a.sa1@)[i] by {
        lemma_reduced(a.sa1@[i]@);
    }
    assert forall|i: int| 0 <= i < 6 implies #[trigger] vals(with_zero.sa2@)[i]
        == vals(a.sa2@)[i] by {
        lemma_reduced(a.sa2@[i]@);
    }
    assert forall|i: int| 0 <= i < a.ct@.len() implies #[trigger] vals(with_zero.ct@)[i]
        == vals(a.ct@)[i] by {
        lemma_reduced(a.ct@[i]@);
    }
    assert(vals(with_zero.sa1@) =~= vals(a.sa1@));
    assert(vals(with_zero.sa2@) =~= vals(a.sa2@));
    assert(vals(with_zero.ct@) =~= vals(a.ct@));
    assert(vals(ab.sa1@) =~= vals(ba.sa1@));
    assert(vals(ab.sa2@) =~= vals(ba.sa2@));
    assert(vals(ab.ct@) =~= vals(ba.ct@));
}

/// The sum of two ciphertexts has the sums of their parts.
pub proof fn law_add(a: Ciphertext, b: Ciphertext, c: Ciphertext)
    requires
        a.t == b.t,
        a.ct@.len() == b.ct@.len(),
        call_ensures(Ciphertext::add, (&a, &b), c),
    ensures
        c.t == a.t,
        c.ct@.len() == a.ct@.len(),
        forall|i: int|
            0 <= i < 2 ==> (#[trigger] c.sa1@[i])@ == (a.sa1@[i]@ + b.sa1@[i]@) % modulus(),
        forall|i: int|
            0 <= i < 6 ==> (#[trigger] c.sa2@[i])@ == (a.sa2@[i]@ + b.sa2@[i]@) % modulus(),
        forall|k: int|
            0 <= k < c.ct@.len() ==> (#[trigger] c.ct@[k])@ == (a.ct@[k]@ + b.ct@[k]@)
                % modulus(),
{
    assert(vals(c.ct@).len() == c.ct@.len());
    assert(vals(a.ct@).len() == a.ct@.len());
    assert forall|i: int| 0 <= i < 2 implies (#[trigger] c.sa1@[i])@ == (a.sa1@[i]@
        + b.sa1@[i]@) % modulus() by {
        assert(vals(c.sa1@)[i] == c.sa1@[i]@);
    }
    assert forall|i: int| 0 <= i < 6 implies (#[trigger] c.sa2@[i])@ == (a.sa2@[i]@
        + b.sa2@[i]@) % modulus() by {
        assert(vals(c.sa2@)[i] == c.sa2@[i]@);
    }
    assert forall|i: int| 0 <= i < c.ct@.len() implies (#[trigger] c.ct@[i])@ == (a.ct@[i]@
        + b.ct@[i]@) % modulus() by {
        assert(vals(c.ct@)[i] == c.ct@[i]@);
    }
}

/// The sum of two encryptions is the encryption of the sums of the messages, with the sums of the
/// randomness.
pub proof fn law_homomorphic(
    ek: EncryptionKey,
    t: usize,
    crs: CRS,
    ma: Vec<Gt>,
    mb: Vec<Gt>,
    mc: Vec<Gt>,
    ra: EncryptionRandomness,
    rb: EncryptionRandomness,
    rc: EncryptionRandomness,
    a: Ciphertext,
    b: Ciphertext,
    sum: Ciphertext,
    c: Ciphertext,
)
    requires
        ma@.len() == mb@.len() == mc@.len(),
        forall|k: int|
            0 <= k < mc@.len() ==> (#[trigger] mc@[k])@ == (ma@[k]@ + mb@[k]@) % modulus(),
        forall|k: int|
            0 <= k < 5 ==> (#[trigger] rc.s@[k])@ == (ra.s@[k]@ + rb.s@[k]@) % modulus(),
        call_ensures(encrypt_with_randomness, (&ek, t, &crs, &ma, &ra), a),
        call_ensures(encrypt_with_randomness, (&ek, t, &crs, &mb, &rb), b),
        call_ensures(encrypt_with_randomness, (&ek, t, &crs, &mc, &rc), c),
        call_ensures(Ciphertext::add, (&a, &b), sum),
    ensures
        sum.t == c.t,
        forall|i: int| 0 <= i < 2 ==> (#[trigger] sum.sa1@[i])@ == c.sa1@[i]@,
        forall|i: int| 0 <= i < 6 ==> (#[trigger] sum.sa2@[i])@ == c.sa2@[i]@,
        sum.ct@.len() == c.ct@.len(),
        forall|k: int| 0 <= k < c.ct@.len() ==> (#[trigger] sum.ct@[k])@ == c.ct@[k]@,
{
    let m = vals(mc@);
    let s = vals(rc.s@);
    assert(vals(a.ct@).len() == a.ct@.len());
    assert(vals(b.ct@).len() == b.ct@.len());
    assert(vals(ma@).len() == ma@.len());
    assert(vals(mb@).len() == mb@.len());
    lemma_encryption_homomorphic(
        &crs,
        &ek,
        &a,
        &b,
        &sum,
        t as int,
        vals(ma@),
        vals(mb@),
        vals(ra.s@),
        vals(rb.s@),
    );
    assert(sums(vals(ma@), vals(mb@)) =~= m);
    assert(sums(vals(ra.s@), vals(rb.s@)) =~= s);
    lemma_parts(&sum, &crs, &ek, t as int, m, s);
    lemma_parts(&c, &crs, &ek, t as int, m, s);
    assert forall|i: int| 0 <= i < 2 implies (#[trigger] sum.sa1@[i])@ == c.sa1@[i]@ by {}
    assert forall|i: int| 0 <= i < 6 implies (#[trigger] sum.sa2@[i])@ == c.sa2@[i]@ by {}
}

/// The number of selected parties.
pub open spec fn count(selector: Seq<bool>, n: int) -> int {
    sum(
        n,
        |i: int|
            if selector[i] {
                1
            } else {
                0
            },
    )
}

/// The count is the sum of ones over the selected parties.
pub proof fn lemma_count(selector: Seq<bool>, n: int)
    requires
        0 <= n,
    ensures
        selected_count(selector, n) == count(selector, n),
    decreases n,
{
    if n > 0 {
        lemma_count(selector, n - 1);
    }
}

/// At least as many parties as the threshold asks for, each with its own key, get back the messages.
pub proof fn law_round_trip(
    n: usize,
    tau: Scalar,
    alphas: Vec<Scalar>,
    gamma: Scalar,
    crs: CRS,
    secrets: Seq<SecretKey>,
    pk: Vec<LagPublicKey>,
    agg_key: AggregateKey,
    ek: EncryptionKey,
    t: usize,
    messages: Vec<Gt>,
    randomness: EncryptionRandomness,
    c: Ciphertext,
    pds: Vec<PartialDecryption>,
    selector: &[bool],
    res: Vec<Gt>,
)
    requires
        call_ensures(CRS::from_trapdoor, (n, &tau, &alphas, &gamma), crs),
        secrets.len() == n,
        pk@.len() == n,
        forall|i: usize|
            i < n ==> #[trigger] call_ensures(
                SecretKey::get_lagrange_pk,
                (&secrets[i as int], i, &crs),
                pk@[i as int],
            ),
        call_ensures(AggregateKey::new, (pk, &crs), (agg_key, ek)),
        messages@.len() <= alphas@.len(),
        call_ensures(encrypt_with_randomness, (&ek, t, &crs, &messages, &randomness), c),
        selector@.len() == n,
        pds@.len() == n,
        1 <= count(selector@, n as int),
        t <= count(selector@, n as int),
        forall|i: int|
            0 <= i < n && selector@[i] ==> call_ensures(
                SecretKey::partial_decryption,
                (&secrets[i], &c),
                #[trigger] pds@[i],
            ),
        call_ensures(agg_dec, (&pds, &c, selector, &agg_key, &crs), res),
    ensures
        vals(res@) == vals(messages@),
{
    broadcast use lemma_gt_range;

    let m = vals(messages@);
    lemma_count(selector@, n as int);
    assert forall|i: int| 0 <= i < n implies (#[trigger] pk@[i]).is_key_of(secrets[i], i, &crs) by {
        assert(call_ensures(
            SecretKey::get_lagrange_pk,
            (&secrets[(i as usize) as int], i as usize, &crs),
            pk@[(i as usize) as int],
        ));
    }
    lemma_decryption_correct(
        &crs,
        alphas@.len() as int,
        tau@,
        vals(alphas@),
        gamma@,
        secrets,
        pk@,
        &agg_key,
        &ek,
        &c,
        m,
        vals(randomness.s@),
        pds@,
        selector@,
        vals(res@),
    );
    assert forall|k: int| 0 <= k < m.len() implies #[trigger] vals(res@)[k] == m[k] by {
        assert(eqm(vals(res@)[k], m[k]));
        lemma_eqm_reduced(res@[k]@, messages@[k]@);
    }
    assert(vals(res@) =~= m);
}

/// A sum over the parties, weighted by the values of a polynomial at the elements of the domain.
pub open spec fn over_parties(b: Seq<int>, n: int, f: spec_fn(int) -> int) -> int {
    sum(n, |i: int| eval(b, pow(unity_root(n), i as nat)) * f(i))
}

/// Whether the polynomial is one at zero and zero at every party that is not selected, with no more
/// coefficients than it takes for that.
pub open spec fn selects(b: Seq<int>, selector: Seq<bool>, n: int) -> bool {
    &&& b.len() >= 1
    &&& b[0] == 1
    &&& forall|j: int| j > n - count(selector, n) ==> #[trigger] coeff(b, j) == 0
    &&& forall|i: int|
        0 <= i < n && !selector[i] ==> eqm(
            #[trigger] eval(b, pow(unity_root(n), i as nat)),
            0,
        )
}

/// The pairing equation that the mask of a slot satisfies for a polynomial of the selected parties:
/// `inv` is one over the number of parties.
pub open spec fn pairing_mask(
    crs: &CRS,
    key: &AggregateKey,
    pds: Seq<PartialDecryption>,
    c: &Ciphertext,
    b: Seq<int>,
    inv: int,
    k: int,
) -> int {
    let n = crs.n as int;
    let g = crs.powers_of_g@[k]@;
    let h = crs.powers_of_h@[k]@;
    c.sa1@[0]@ * sum(b.len() as int, |j: int| b[j] * h[j]@) - inv * over_parties(
        b,
        n,
        |i: int| key.pk@[i].bls_pk@[k]@,
    ) * c.sa2@[0]@ + inv * over_parties(b, n, |i: int| pds[i].pd@) * crs.gamma_g2@[k]@
        - over_parties(b, n, |i: int| key.agg_sk_li_lj_z@[k]@[i]@) * c.sa2@[1]@ - over_parties(
        b,
        n,
        |i: int| key.pk@[i].sk_li_x@[k]@,
    ) * c.sa2@[2]@ + over_parties(b, n, |i: int| key.pk@[i].sk_li_minus0@[k]@) * c.sa2@[3]@ - sum(
        b.len() as int,
        |j: int| b[j] * g[c.t + j]@,
    ) * c.sa2@[4]@ - sum(b.len() - 1, |j: int| b[j + 1] * g[j]@) * c.sa2@[5]@
}

proof fn lemma_over_parties(
    b: Seq<int>,
    n: int,
    f: spec_fn(int) -> int,
    g: spec_fn(int) -> int,
)
    requires
        forall|i: int| 0 <= i < n ==> #[trigger] f(i) == g(i),
    ensures
        over_parties(b, n, f) == weighted_sum(b, n, g),
{
    let p = |i: int| eval(b, pow(unity_root(n), i as nat)) * f(i);
    assert forall|i: int| 0 <= i < n implies #[trigger] p(i) == weighted(b, n, g)(i) by {
        assert(f(i) == g(i));
        assert(at_root(b, n, i) == eval(b, pow(unity_root(n), i as nat)));
    }
    lemma_sum_eq(n, p, weighted(b, n, g));
}

proof fn lemma_pairing_mask(
    crs: &CRS,
    key: &AggregateKey,
    pds: Seq<PartialDecryption>,
    c: &Ciphertext,
    b: Seq<int>,
    k: int,
)
    requires
        b.len() >= 1,
        crs.powers_of_g@[k]@.len() == crs.n + 1,
        crs.powers_of_h@[k]@.len() == crs.n + 1,
        0 <= c.t <= crs.n,
        forall|j: int| j > crs.n - c.t ==> #[trigger] coeff(b, j) == 0,
    ensures
        slot_mask(crs, key, pds, c, b, k) == pairing_mask(
            crs,
            key,
            pds,
            c,
            b,
            size_inverse(crs.n as int),
            k,
        ),
{
    let n = crs.n as int;
    let t = c.t as int;
    let g = crs.powers_of_g@[k]@;
    let h = crs.powers_of_h@[k]@;
    lemma_over_parties(b, n, |i: int| key.pk@[i].bls_pk@[k]@, bls_terms(key.pk@, k));
    lemma_over_parties(b, n, |i: int| pds[i].pd@, pd_terms(pds));
    lemma_over_parties(
        b,
        n,
        |i: int| key.agg_sk_li_lj_z@[k]@[i]@,
        agg_terms(key.agg_sk_li_lj_z@[k]@),
    );
    lemma_over_parties(b, n, |i: int| key.pk@[i].sk_li_x@[k]@, x_terms(key.pk@, k));
    lemma_over_parties(b, n, |i: int| key.pk@[i].sk_li_minus0@[k]@, minus0_terms(key.pk@, k));
    let f1 = |j: int| b[j] * h[j]@;
    let g1 = |j: int| b[j] * vals(h)[j];
    let f2 = |j: int| b[j] * g[t + j]@;
    let g2 = |j: int| b[j] * points_from(vals(g), t)[j];
    let f3 = |j: int| b[j + 1] * g[j]@;
    let g3 = |j: int| tail(b)[j] * vals(g)[j];
    assert forall|j: int| 0 <= j < b.len() implies #[trigger] f1(j) == g1(j) && f2(j) == g2(j) by {
        if j > n - t {
            assert(coeff(b, j) == 0);
            let x = h[j]@;
            let y = vals(h)[j];
            assert(0 * x == 0 && 0 * y == 0) by (nonlinear_arith);
            let u = g[t + j]@;
            let v = points_from(vals(g), t)[j];
            assert(0 * u == 0 && 0 * v == 0) by (nonlinear_arith);
        }
    }
    assert forall|j: int| 0 <= j < b.len() implies #[trigger] f2(j) == g2(j) by {
        assert(f1(j) == g1(j));
    }
    assert forall|j: int| 0 <= j < b.len() - 1 implies #[trigger] f3(j) == g3(j) by {
        if j >= n - t {
            assert(coeff(b, j + 1) == 0);
            let x = g[j]@;
            let y = vals(g)[j];
            assert(0 * x == 0 && 0 * y == 0) by (nonlinear_arith);
        }
    }
    lemma_sum_eq(b.len() as int, f1, g1);
    lemma_sum_eq(b.len() as int, f2, g2);
    lemma_sum_eq(b.len() - 1, f3, g3);
}

/// Decryption takes the mask off every slot, for any contributions: the mask that the pairing equation
/// gives with a polynomial of the selected parties.
pub proof fn law_agg_dec(
    pds: Vec<PartialDecryption>,
    c: Ciphertext,
    selector: &[bool],
    agg_key: AggregateKey,
    crs: CRS,
    res: Vec<Gt>,
)
    requires
        crs.wf(),
        selector@.len() == crs.n,
        c.ct@.len() <= crs.l,
        c.t <= count(selector@, crs.n as int),
        call_ensures(agg_dec, (&pds, &c, selector, &agg_key, &crs), res),
    ensures
        res@.len() == c.ct@.len(),
        exists|b: Seq<int>, inv: int|
            #[trigger] inverse_of(crs.n as int, inv) && #[trigger] selects(
                b,
                selector@,
                crs.n as int,
            ) && forall|k: int|
                0 <= k < res@.len() ==> (#[trigger] res@[k])@ == (c.ct@[k]@ - pairing_mask(
                    &crs,
                    &agg_key,
                    pds@,
                    &c,
                    b,
                    inv,
                    k,
                )) % modulus(),
{
    broadcast use lemma_gt_range;

    let n = crs.n as int;
    let b = selector_poly(selector@, n, n);
    let inv = size_inverse(n);
    lemma_size_inverse(n);
    lemma_count(selector@, n);
    lemma_selector_shape(selector@, n, n);
    assert forall|i: int| 0 <= i < n && !selector@[i] implies eqm(
        #[trigger] eval(b, pow(unity_root(n), i as nat)),
        0,
    ) by {
        lemma_selector_zero(selector@, n, n, i);
    }
    assert(selects(b, selector@, n) && inverse_of(n, inv));
    assert(vals(res@).len() == res@.len());
    assert forall|k: int| 0 <= k < res@.len() implies (#[trigger] res@[k])@ == (c.ct@[k]@
        - pairing_mask(&crs, &agg_key, pds@, &c, b, inv, k)) % modulus() by {
        assert(crs.slot_wf(k));
        lemma_pairing_mask(&crs, &agg_key, pds@, &c, b, k);
        assert(eqm(vals(res@)[k], c.ct@[k]@ - slot_mask(&crs, &agg_key, pds@, &c, b, k)));
        lemma_reduced(res@[k]@);
    }
}

/// The parts of an encryption are those of the ciphertext that they make up.
pub proof fn law_encryption_parts(
    crs: CRS,
    ek: EncryptionKey,
    t: usize,
    messages: Vec<Gt>,
    s: [Scalar; 5],
    parts: ([G1; 2], [G2; 6], Vec<Gt>),
)
    requires
        call_ensures(encryption_parts, (&crs, &ek, t, &messages, &s), parts),
    ensures
        has_parts(
            &(Ciphertext { sa1: parts.0, sa2: parts.1, ct: parts.2, t }),
            &crs,
            &ek,
            t as int,
            vals(messages@),
            vals(s@),
        ),
{
    let c = Ciphertext { sa1: parts.0, sa2: parts.1, ct: parts.2, t };
    lemma_parts(&c, &crs, &ek, t as int, vals(messages@), vals(s@));
}

/// Scalars are put in the exponent of the target group one by one.
pub proof fn law_in_target_group(scalars: Vec<Scalar>, res: Vec<Gt>)
    requires
        call_ensures(in_target_group, (&scalars,), res),
    ensures
        res@.len() == scalars@.len(),
        forall|i: int| 0 <= i < res@.len() ==> (#[trigger] res@[i])@ == scalars@[i]@,
{
    assert(vals(res@).len() == res@.len());
    assert(vals(scalars@).len() == scalars@.len());
    assert forall|i: int| 0 <= i < res@.len() implies (#[trigger] res@[i])@ == scalars@[i]@ by {
        assert(vals(res@)[i] == vals(scalars@)[i]);
    }
}

} // verus!
