//! Decryption of a batch.
use crate::algebra::congruence::{
    eqm, lemma_eqm_add, lemma_eqm_mod, lemma_eqm_reduced, lemma_modulus, modulus,
};
use crate::algebra::sums::{
    lemma_sum_add, lemma_sum_eq, lemma_sum_eqm, lemma_sum_scale, lemma_sum_swap, sum,
};
use crate::bte::crs::CRS as BteCRS;
use crate::bte::encryption::{
    chunk, chunk_radix, chunks_of, lemma_chunk_range, lemma_recompose, place_terms,
    recompose_chunks, recomposed, Ciphertext, CHUNK_BITS, NUM_CHUNKS,
};
use crate::bte::{
    batch_eval, batch_value, fft_batch_eval, has_partner, is_punctured, key_sum, lemma_fft_agrees,
    lemma_mask_recovered, mask_value, prf_value, PPRF, PRF,
};
use crate::dlog::{
    assert_homomorphic_batch_safe, batch_fits, has_distinct_keys, homomorphic_batch_bound,
    lemma_dlog_recovered, option_value, search_result, HomomorphicBatchTooLarge, Markers,
    DLOG_RANGE_BITS,
};
use crate::field::{vals, Scalar};
use crate::group::Gt;
use crate::ste::aggregate::{AggregateKey, EncryptionKey};
use crate::ste::crs::CRS as SteCRS;
use crate::ste::decryption::{
    agg_dec, are_contributions, are_keys_of, is_decryption, lemma_decryption_correct,
    selected_count, selector_poly, slot_mask,
};
use crate::ste::encryption::{ct_value, sa1_value, sa2_value, sums, Ciphertext as SteCiphertext};
use crate::ste::setup::{LagPublicKey, PartialDecryption, SecretKey};
use vstd::arithmetic::power::pow;
use vstd::arithmetic::power2::{lemma2_to64, pow2};
use vstd::prelude::*;

verus! {

/// Why a batch could not be decrypted.
#[derive(Clone, Copy, Debug, PartialEq, Eq)]
pub enum DecryptError {
    /// The chunk sums of so many ciphertexts may leave the range of the discrete logarithms.
    BatchTooLarge(HomomorphicBatchTooLarge),
    /// The discrete logarithm of a slot is out of range.
    DlogOutOfRange { slot: usize },
    /// A recovered mask is not that of its ciphertext.
    MaskMismatch { index: usize },
}

/// The part `i` of all ciphertexts in the first group.
pub open spec fn sa1_terms(cts: Seq<Ciphertext>, i: int) -> spec_fn(int) -> int {
    |j: int| cts[j].encrypted_key.sa1@[i]@
}

/// The part `i` of all ciphertexts in the second group.
pub open spec fn sa2_terms(cts: Seq<Ciphertext>, i: int) -> spec_fn(int) -> int {
    |j: int| cts[j].encrypted_key.sa2@[i]@
}

/// The slot `k` of all ciphertexts.
pub open spec fn ct_terms(cts: Seq<Ciphertext>, k: int) -> spec_fn(int) -> int {
    |j: int| cts[j].encrypted_key.ct@[k]@
}

/// Whether the parts of the ciphertext are the sums of those of the first `n` ciphertexts.
pub open spec fn is_sum_of(
    c: &SteCiphertext,
    cts: Seq<Ciphertext>,
    n: int,
    l: int,
    t: int,
) -> bool {
    &&& c.t == t
    &&& c.ct@.len() == l
    &&& forall|i: int| 0 <= i < 2 ==> eqm((#[trigger] c.sa1@[i])@, sum(n, sa1_terms(cts, i)))
    &&& forall|i: int| 0 <= i < 6 ==> eqm((#[trigger] c.sa2@[i])@, sum(n, sa2_terms(cts, i)))
    &&& forall|k: int| 0 <= k < l ==> eqm((#[trigger] c.ct@[k])@, sum(n, ct_terms(cts, k)))
}

/// Whether all ciphertexts are for the threshold and the number of slots.
pub open spec fn fit_together(cts: Seq<Ciphertext>, l: int, t: int) -> bool {
    forall|j: int|
        0 <= j < cts.len() ==> (#[trigger] cts[j]).encrypted_key.t == t
            && cts[j].encrypted_key.ct@.len() == l
}

/// The homomorphic sum of the encrypted keys of a batch.
pub fn sum_encrypted_keys(cts: &Vec<Ciphertext>, l: usize, t: usize) -> (res: SteCiphertext)
    requires
        fit_together(cts@, l as int, t as int),
    ensures
        is_sum_of(&res, cts@, cts@.len() as int, l as int, t as int),
{
    let mut acc = SteCiphertext::zero(l, t);
    proof {
        assert(acc.ct@.len() == vals(acc.ct@).len());
        assert forall|i: int| 0 <= i < 2 implies (#[trigger] acc.sa1@[i])@ == 0 by {
            assert(vals(acc.sa1@)[i] == 0);
        }
        assert forall|i: int| 0 <= i < 6 implies (#[trigger] acc.sa2@[i])@ == 0 by {
            assert(vals(acc.sa2@)[i] == 0);
        }
        assert forall|i: int| 0 <= i < l implies (#[trigger] acc.ct@[i])@ == 0 by {
            assert(vals(acc.ct@)[i] == 0);
        }
    }
    let mut j: usize = 0;
    while j < cts.len()
        invariant
            0 <= j <= cts@.len(),
            fit_together(cts@, l as int, t as int),
            is_sum_of(&acc, cts@, j as int, l as int, t as int),
        decreases cts@.len() - j,
    {
        assert(cts@[j as int].encrypted_key.t == t);
        let next = acc.add(&cts[j].encrypted_key);
        proof {
            lemma_sum_step(&acc, &next, cts@, j as int, l as int, t as int);
        }
        acc = next;
        j += 1;
    }
    acc
}

proof fn lemma_sum_step(
    acc: &SteCiphertext,
    next: &SteCiphertext,
    cts: Seq<Ciphertext>,
    j: int,
    l: int,
    t: int,
)
    requires
        0 <= j < cts.len(),
        is_sum_of(acc, cts, j, l, t),
        cts[j].encrypted_key.ct@.len() == l,
        next.t == acc.t,
        vals(next.sa1@) == sums(vals(acc.sa1@), vals(cts[j].encrypted_key.sa1@)),
        vals(next.sa2@) == sums(vals(acc.sa2@), vals(cts[j].encrypted_key.sa2@)),
        vals(next.ct@) == sums(vals(acc.ct@), vals(cts[j].encrypted_key.ct@)),
    ensures
        is_sum_of(next, cts, j + 1, l, t),
{
    let e = cts[j].encrypted_key;
    assert(next.ct@.len() == vals(next.ct@).len());
    assert forall|i: int| 0 <= i < 2 implies eqm(
        (#[trigger] next.sa1@[i])@,
        sum(j + 1, sa1_terms(cts, i)),
    ) by {
        let f = sa1_terms(cts, i);
        assert(vals(next.sa1@)[i] == (vals(acc.sa1@)[i] + vals(e.sa1@)[i]) % modulus());
        assert(eqm(acc.sa1@[i]@, sum(j, f)));
        lemma_eqm_add(acc.sa1@[i]@, sum(j, f), e.sa1@[i]@, f(j));
        lemma_eqm_mod(acc.sa1@[i]@ + e.sa1@[i]@);
    }
    assert forall|i: int| 0 <= i < 6 implies eqm(
        (#[trigger] next.sa2@[i])@,
        sum(j + 1, sa2_terms(cts, i)),
    ) by {
        let f = sa2_terms(cts, i);
        assert(vals(next.sa2@)[i] == (vals(acc.sa2@)[i] + vals(e.sa2@)[i]) % modulus());
        assert(eqm(acc.sa2@[i]@, sum(j, f)));
        lemma_eqm_add(acc.sa2@[i]@, sum(j, f), e.sa2@[i]@, f(j));
        lemma_eqm_mod(acc.sa2@[i]@ + e.sa2@[i]@);
    }
    assert forall|k: int| 0 <= k < l implies eqm(
        (#[trigger] next.ct@[k])@,
        sum(j + 1, ct_terms(cts, k)),
    ) by {
        let f = ct_terms(cts, k);
        assert(vals(next.ct@)[k] == (vals(acc.ct@)[k] + vals(e.ct@)[k]) % modulus());
        assert(eqm(acc.ct@[k]@, sum(j, f)));
        lemma_eqm_add(acc.ct@[k]@, sum(j, f), e.ct@[k]@, f(j));
        lemma_eqm_mod(acc.ct@[k]@ + e.ct@[k]@);
    }
}

/// Whether these are the outcomes of the searches for the discrete logarithms of the targets, up to
/// the first that did not succeed.
pub open spec fn are_searches(
    targets: Seq<int>,
    markers: &Markers,
    dlogs: Seq<Option<int>>,
) -> bool {
    &&& dlogs.len() <= targets.len()
    &&& dlogs.len() < targets.len() ==> !all_found(dlogs)
    &&& forall|k: int|
        0 <= k < dlogs.len() ==> #[trigger] dlogs[k] == search_result(
            markers.markers_map@,
            markers.log_bases(),
            targets[k],
        )
}

/// Whether these are the sum of the encrypted keys, its decryption and the outcomes of the searches
/// for discrete logarithms.
pub open spec fn is_opening(
    cts: Seq<Ciphertext>,
    ste_crs: &SteCRS,
    t: int,
    pds: Seq<PartialDecryption>,
    selector: Seq<bool>,
    agg_key: &AggregateKey,
    markers: &Markers,
    c: SteCiphertext,
    dec: Seq<int>,
    dlogs: Seq<Option<int>>,
) -> bool {
    &&& is_sum_of(&c, cts, cts.len() as int, ste_crs.l as int, t)
    &&& is_decryption(dec, ste_crs, agg_key, pds, &c, selector)
    &&& forall|k: int| 0 <= k < dec.len() ==> 0 <= #[trigger] dec[k] < modulus()
    &&& are_searches(dec, markers, dlogs)
}

/// Whether the search succeeded in every slot.
pub open spec fn all_found(dlogs: Seq<Option<int>>) -> bool {
    forall|k: int| 0 <= k < dlogs.len() ==> (#[trigger] dlogs[k]) is Some
}

/// Whether this is the first slot in which the search did not succeed.
pub open spec fn is_first_missing(dlogs: Seq<Option<int>>, slot: int) -> bool {
    &&& 0 <= slot < dlogs.len()
    &&& dlogs[slot] is None
    &&& forall|k: int| 0 <= k < slot ==> (#[trigger] dlogs[k]) is Some
}

/// The sum of the keys, from the logarithms of all slots.
pub open spec fn recovered_key(dlogs: Seq<Option<int>>) -> int {
    recomposed(Seq::new(dlogs.len(), |k: int| dlogs[k]->0)) % modulus()
}

/// The punctured keys of a batch.
pub open spec fn pprfs_of(cts: Seq<Ciphertext>) -> Seq<PPRF> {
    Seq::new(cts.len(), |i: int| cts[i].pprf)
}

/// The masks that follow from the sum of the keys, by separate evaluations.
pub open spec fn separate_masks(
    bte_crs: &BteCRS,
    cts: Seq<Ciphertext>,
    key: int,
) -> spec_fn(int) -> int {
    |i: int|
        (prf_value(bte_crs, key, i) - batch_value(bte_crs, pprfs_of(cts), i)) % modulus()
}

/// The masks that follow from the sum of the keys, by one convolution.
pub open spec fn convolved_masks(
    bte_crs: &BteCRS,
    cts: Seq<Ciphertext>,
    key: int,
) -> spec_fn(int) -> int {
    |i: int| mask_value(bte_crs, key, pprfs_of(cts), i)
}

/// Whether the result is the masks if all are those of the ciphertexts, and else points to the
/// first that is not.
pub open spec fn is_mask_outcome(
    cts: Seq<Ciphertext>,
    masks: spec_fn(int) -> int,
    res: Result<Vec<Gt>, DecryptError>,
) -> bool {
    match res {
        Ok(v) => v@.len() == cts.len() && forall|i: int|
            0 <= i < cts.len() ==> (#[trigger] v@[i])@ == masks(i) && masks(i) == cts[i].mask@,
        Err(DecryptError::MaskMismatch { index }) => {
            &&& 0 <= index < cts.len()
            &&& masks(index as int) != cts[index as int].mask@
            &&& forall|i: int| 0 <= i < index ==> #[trigger] masks(i) == cts[i].mask@
        },
        _ => false,
    }
}

/// Whether the result is what follows from the logarithms of the slots.
pub open spec fn is_outcome(
    cts: Seq<Ciphertext>,
    dlogs: Seq<Option<int>>,
    masks: spec_fn(int) -> int,
    res: Result<Vec<Gt>, DecryptError>,
) -> bool {
    if all_found(dlogs) {
        is_mask_outcome(cts, masks, res)
    } else {
        res matches Err(DecryptError::DlogOutOfRange { slot }) && is_first_missing(
            dlogs,
            slot as int,
        )
    }
}

/// The refusal of a batch that is too large.
pub open spec fn too_large(n: usize) -> DecryptError {
    DecryptError::BatchTooLarge(
        HomomorphicBatchTooLarge {
            batch_size: n,
            max_batch_size: homomorphic_batch_bound(
                CHUNK_BITS as nat,
                DLOG_RANGE_BITS as nat,
            ) as usize,
        },
    )
}

/// Whether the sums of the chunks of so many keys stay in range.
pub open spec fn is_safe_batch(n: int) -> bool {
    batch_fits(n, CHUNK_BITS as nat, DLOG_RANGE_BITS as nat)
}

/// Whether the result is that of decryption by separate evaluations.
pub open spec fn is_decrypted(
    cts: Seq<Ciphertext>,
    bte_crs: &BteCRS,
    ste_crs: &SteCRS,
    t: int,
    pds: Seq<PartialDecryption>,
    selector: Seq<bool>,
    agg_key: &AggregateKey,
    markers: &Markers,
    res: Result<Vec<Gt>, DecryptError>,
) -> bool {
    &&& !is_safe_batch(cts.len() as int) ==> res == Err::<Vec<Gt>, DecryptError>(
        too_large(cts.len() as usize),
    )
    &&& is_safe_batch(cts.len() as int) ==> exists|
        c: SteCiphertext,
        dec: Seq<int>,
        dlogs: Seq<Option<int>>,
    | #[trigger]
        is_opening(cts, ste_crs, t, pds, selector, agg_key, markers, c, dec, dlogs) && is_outcome(
            cts,
            dlogs,
            separate_masks(bte_crs, cts, recovered_key(dlogs)),
            res,
        )
}

/// Whether the result is that of decryption by one convolution.
pub open spec fn is_decrypted_by_fft(
    cts: Seq<Ciphertext>,
    bte_crs: &BteCRS,
    ste_crs: &SteCRS,
    t: int,
    pds: Seq<PartialDecryption>,
    selector: Seq<bool>,
    agg_key: &AggregateKey,
    markers: &Markers,
    res: Result<Vec<Gt>, DecryptError>,
) -> bool {
    &&& !is_safe_batch(cts.len() as int) ==> res == Err::<Vec<Gt>, DecryptError>(
        too_large(cts.len() as usize),
    )
    &&& is_safe_batch(cts.len() as int) ==> exists|
        c: SteCiphertext,
        dec: Seq<int>,
        dlogs: Seq<Option<int>>,
    | #[trigger]
        is_opening(cts, ste_crs, t, pds, selector, agg_key, markers, c, dec, dlogs) && is_outcome(
            cts,
            dlogs,
            convolved_masks(bte_crs, cts, recovered_key(dlogs)),
            res,
        )
}

/// What both ways to decrypt ask of their arguments.
pub open spec fn can_decrypt(
    cts: Seq<Ciphertext>,
    bte_crs: &BteCRS,
    ste_crs: &SteCRS,
    t: int,
    pds: Seq<PartialDecryption>,
    selector: Seq<bool>,
    agg_key: &AggregateKey,
    markers: &Markers,
) -> bool {
    &&& bte_crs.wf()
    &&& ste_crs.wf()
    &&& agg_key.wf(ste_crs.n as int, ste_crs.l as int)
    &&& markers.wf()
    &&& fit_together(cts, ste_crs.l as int, t)
    &&& pds.len() == ste_crs.n
    &&& selector.len() == ste_crs.n
    &&& t <= selected_count(selector, ste_crs.n as int)
    &&& cts.len() <= bte_crs.batch_size
}

/// The logarithms of all slots, or the first slot that has none in range.
fn find_dlogs(targets: &Vec<Gt>, markers: &Markers) -> (res: (
    Result<Vec<Scalar>, usize>,
    Ghost<Seq<Option<int>>>,
))
    requires
        markers.wf(),
    ensures
        are_searches(vals(targets@), markers, res.1@),
        match res.0 {
            Ok(chunks) => all_found(res.1@) && vals(chunks@) == Seq::new(
                res.1@.len(),
                |k: int| res.1@[k]->0,
            ),
            Err(slot) => is_first_missing(res.1@, slot as int),
        },
{
    let mut chunks: Vec<Scalar> = Vec::new();
    let ghost mut dlogs: Seq<Option<int>> = Seq::empty();
    let mut k: usize = 0;
    while k < targets.len()
        invariant
            0 <= k <= targets@.len(),
            markers.wf(),
            dlogs.len() == k,
            chunks@.len() == k,
            all_found(dlogs),
            forall|i: int|
                0 <= i < k ==> #[trigger] dlogs[i] == search_result(
                    markers.markers_map@,
                    markers.log_bases(),
                    vals(targets@)[i],
                ),
            forall|i: int| 0 <= i < k ==> (#[trigger] chunks@[i])@ == dlogs[i]->0,
        decreases targets@.len() - k,
    {
        let found = markers.compute_dlog(&targets[k]);
        let ghost before = dlogs;
        proof {
            dlogs = dlogs.push(option_value(found));
            assert(vals(targets@)[k as int] == targets@[k as int]@);
        }
        match found {
            Some(x) => {
                chunks.push(x);
            },
            None => {
                assert(is_first_missing(dlogs, k as int)) by {
                    assert forall|i: int| 0 <= i < k implies (#[trigger] dlogs[i]) is Some by {
                        assert(before[i] is Some);
                    }
                }
                return (Err(k), Ghost(dlogs));
            },
        }
        k += 1;
    }
    assert(vals(chunks@) =~= Seq::new(dlogs.len(), |i: int| dlogs[i]->0));
    (Ok(chunks), Ghost(dlogs))
}

/// The sum of the keys of a batch, or the first slot whose logarithm is out of range.
fn recover_key(
    ct: &Vec<Ciphertext>,
    ste_crs: &SteCRS,
    t: usize,
    partial_decryptions: &Vec<PartialDecryption>,
    selector: &[bool],
    agg_key: &AggregateKey,
    markers: &Markers,
) -> (res: (Result<Scalar, usize>, Ghost<(SteCiphertext, Seq<int>, Seq<Option<int>>)>))
    requires
        ste_crs.wf(),
        agg_key.wf(ste_crs.n as int, ste_crs.l as int),
        markers.wf(),
        fit_together(ct@, ste_crs.l as int, t as int),
        partial_decryptions@.len() == ste_crs.n,
        selector@.len() == ste_crs.n,
        t <= selected_count(selector@, ste_crs.n as int),
    ensures
        is_opening(
            ct@,
            ste_crs,
            t as int,
            partial_decryptions@,
            selector@,
            agg_key,
            markers,
            res.1@.0,
            res.1@.1,
            res.1@.2,
        ),
        match res.0 {
            Ok(key) => all_found(res.1@.2) && key@ == recovered_key(res.1@.2),
            Err(slot) => is_first_missing(res.1@.2, slot as int),
        },
{
    let k_agg_ct = sum_encrypted_keys(ct, ste_crs.l, t);
    let k_agg_t = agg_dec(partial_decryptions, &k_agg_ct, selector, agg_key, ste_crs);
    proof {
        assert forall|k: int| 0 <= k < vals(k_agg_t@).len() implies 0 <= #[trigger] vals(
            k_agg_t@,
        )[k] < modulus() by {
            crate::group::lemma_gt_range(k_agg_t@[k]);
        }
    }
    let (found, dlogs) = find_dlogs(&k_agg_t, markers);
    let ghost opening = (k_agg_ct, vals(k_agg_t@), dlogs@);
    match found {
        Ok(chunks) => (Ok(recompose_chunks(&chunks)), Ghost(opening)),
        Err(slot) => (Err(slot), Ghost(opening)),
    }
}

/// The punctured keys of a batch.
fn collect_pprfs(ct: &Vec<Ciphertext>) -> (res: Vec<PPRF>)
    ensures
        res@ == pprfs_of(ct@),
{
    let mut res: Vec<PPRF> = Vec::new();
    let mut i: usize = 0;
    while i < ct.len()
        invariant
            0 <= i <= ct@.len(),
            res@.len() == i,
            forall|k: int| 0 <= k < i ==> #[trigger] res@[k] == ct@[k].pprf,
        decreases ct@.len() - i,
    {
        res.push(ct[i].pprf);
        i += 1;
    }
    assert(res@ =~= pprfs_of(ct@));
    res
}

/// Decrypts a batch from the partial decryptions of the selected parties: it recovers the masks of
/// all ciphertexts, or says what went wrong first.
pub fn decrypt(
    ct: &Vec<Ciphertext>,
    bte_crs: &BteCRS,
    ste_crs: &SteCRS,
    t: usize,
    partial_decryptions: &Vec<PartialDecryption>,
    selector: &[bool],
    agg_key: &AggregateKey,
    markers: &Markers,
) -> (res: Result<Vec<Gt>, DecryptError>)
    requires
        can_decrypt(
            ct@,
            bte_crs,
            ste_crs,
            t as int,
            partial_decryptions@,
            selector@,
            agg_key,
            markers,
        ),
        forall|j: int|
            0 <= j < ct@.len() ==> (#[trigger] ct@[j]).pprf.point <= bte_crs.batch_size + 1,
    ensures
        is_decrypted(
            ct@,
            bte_crs,
            ste_crs,
            t as int,
            partial_decryptions@,
            selector@,
            agg_key,
            markers,
            res,
        ),
{
    match assert_homomorphic_batch_safe(ct.len(), CHUNK_BITS, DLOG_RANGE_BITS) {
        Ok(()) => {},
        Err(e) => {
            return Err(DecryptError::BatchTooLarge(e));
        },
    }
    let (found, opening) = recover_key(
        ct,
        ste_crs,
        t,
        partial_decryptions,
        selector,
        agg_key,
        markers,
    );
    let ghost dlogs = opening@.2;
    match found {
        Err(slot) => {
            assert(!all_found(dlogs)) by {
                assert(dlogs[slot as int] is None);
            }
            let res: Result<Vec<Gt>, DecryptError> = Err(DecryptError::DlogOutOfRange { slot });
            assert(is_outcome(ct@, dlogs, separate_masks(bte_crs, ct@, recovered_key(dlogs)), res));
            res
        },
        Ok(key) => {
            let k_agg = PRF::from_key(key);
            let pprfs = collect_pprfs(ct);
            let ghost masks = separate_masks(bte_crs, ct@, recovered_key(dlogs));
            let mut recovered: Vec<Gt> = Vec::new();
            let mut i: usize = 0;
            while i < ct.len()
                invariant
                    0 <= i <= ct@.len(),
                    bte_crs.wf(),
                    ct@.len() <= bte_crs.batch_size,
                    pprfs@ == pprfs_of(ct@),
                    k_agg.key@ == recovered_key(dlogs),
                    masks == separate_masks(bte_crs, ct@, recovered_key(dlogs)),
                    all_found(dlogs),
                    is_opening(
                        ct@,
                        ste_crs,
                        t as int,
                        partial_decryptions@,
                        selector@,
                        agg_key,
                        markers,
                        opening@.0,
                        opening@.1,
                        dlogs,
                    ),
                    is_safe_batch(ct@.len() as int),
                    forall|j: int|
                        0 <= j < ct@.len() ==> (#[trigger] ct@[j]).pprf.point
                            <= bte_crs.batch_size + 1,
                    recovered@.len() == i,
                    forall|j: int|
                        0 <= j < i ==> (#[trigger] recovered@[j])@ == masks(j) && masks(j)
                            == ct@[j].mask@,
                decreases ct@.len() - i,
            {
                proof {
                    bte_crs.lemma_fft_size();
                    assert forall|j: int| 0 <= j < pprfs@.len() implies has_partner(
                        bte_crs,
                        (#[trigger] pprfs@[j]).point as int,
                        i as int,
                    ) by {
                        assert(ct@[j].pprf.point <= bte_crs.batch_size + 1);
                    }
                }
                let mask1 = batch_eval(pprfs.as_slice(), i, bte_crs);
                let mask2 = k_agg.eval(i, bte_crs);
                let mask = mask2.sub(&mask1);
                assert(mask@ == masks(i as int));
                if !mask.equals(&ct[i].mask) {
                    let res = Err(DecryptError::MaskMismatch { index: i });
                    assert(is_mask_outcome(ct@, masks, res)) by {
                        assert forall|j: int| 0 <= j < i implies #[trigger] masks(j)
                            == ct@[j].mask@ by {
                            assert(recovered@[j]@ == masks(j));
                        }
                    }
                    return res;
                }
                recovered.push(mask);
                i += 1;
            }
            let res: Result<Vec<Gt>, DecryptError> = Ok(recovered);
            assert(is_outcome(ct@, dlogs, masks, res));
            res
        },
    }
}

/// Same as [`decrypt`] for a full batch, with one convolution in place of separate evaluations.
pub fn decrypt_fft(
    ct: &Vec<Ciphertext>,
    bte_crs: &BteCRS,
    ste_crs: &SteCRS,
    t: usize,
    partial_decryptions: &Vec<PartialDecryption>,
    selector: &[bool],
    agg_key: &AggregateKey,
    markers: &Markers,
) -> (res: Result<Vec<Gt>, DecryptError>)
    requires
        can_decrypt(
            ct@,
            bte_crs,
            ste_crs,
            t as int,
            partial_decryptions@,
            selector@,
            agg_key,
            markers,
        ),
        ct@.len() == bte_crs.batch_size,
    ensures
        is_decrypted_by_fft(
            ct@,
            bte_crs,
            ste_crs,
            t as int,
            partial_decryptions@,
            selector@,
            agg_key,
            markers,
            res,
        ),
{
    match assert_homomorphic_batch_safe(ct.len(), CHUNK_BITS, DLOG_RANGE_BITS) {
        Ok(()) => {},
        Err(e) => {
            return Err(DecryptError::BatchTooLarge(e));
        },
    }
    let (found, opening) = recover_key(
        ct,
        ste_crs,
        t,
        partial_decryptions,
        selector,
        agg_key,
        markers,
    );
    let ghost dlogs = opening@.2;
    match found {
        Err(slot) => {
            assert(!all_found(dlogs)) by {
                assert(dlogs[slot as int] is None);
            }
            let res: Result<Vec<Gt>, DecryptError> = Err(DecryptError::DlogOutOfRange { slot });
            assert(is_outcome(ct@, dlogs, convolved_masks(bte_crs, ct@, recovered_key(dlogs)), res));
            res
        },
        Ok(key) => {
            let k_agg = PRF::from_key(key);
            let pprfs = collect_pprfs(ct);
            let ghost masks = convolved_masks(bte_crs, ct@, recovered_key(dlogs));
            let recovered = fft_batch_eval(&k_agg, pprfs.as_slice(), bte_crs);
            let mut i: usize = 0;
            while i < ct.len()
                invariant
                    0 <= i <= ct@.len(),
                    ct@.len() == recovered@.len(),
                    all_found(dlogs),
                    masks == convolved_masks(bte_crs, ct@, recovered_key(dlogs)),
                    is_opening(
                        ct@,
                        ste_crs,
                        t as int,
                        partial_decryptions@,
                        selector@,
                        agg_key,
                        markers,
                        opening@.0,
                        opening@.1,
                        dlogs,
                    ),
                    is_safe_batch(ct@.len() as int),
                    forall|j: int|
                        0 <= j < ct@.len() ==> (#[trigger] recovered@[j])@ == masks(j),
                    forall|j: int| 0 <= j < i ==> #[trigger] masks(j) == ct@[j].mask@,
                decreases ct@.len() - i,
            {
                assert(recovered@[i as int]@ == masks(i as int));
                if !recovered[i].equals(&ct[i].mask) {
                    let res = Err(DecryptError::MaskMismatch { index: i });
                    assert(is_mask_outcome(ct@, masks, res));
                    return res;
                }
                i += 1;
            }
            let res: Result<Vec<Gt>, DecryptError> = Ok(recovered);
            assert(is_outcome(ct@, dlogs, masks, res));
            res
        },
    }
}

/// The entries of a column.
pub open spec fn column(rows: Seq<Seq<int>>, i: int) -> spec_fn(int) -> int {
    |j: int| rows[j][i]
}

/// The sums of the first columns.
pub open spec fn column_sums(rows: Seq<Seq<int>>, len: nat) -> Seq<int> {
    Seq::new(len, |i: int| sum(rows.len() as int, column(rows, i)))
}

proof fn lemma_sum_linear(
    n: int,
    x: int,
    f: spec_fn(int) -> int,
    y: int,
    g: spec_fn(int) -> int,
    z: int,
    h: spec_fn(int) -> int,
)
    ensures
        sum(n, |j: int| x * f(j) + y * g(j) + z * h(j)) == x * sum(n, f) + y * sum(n, g) + z
            * sum(n, h),
{
    let xf = |j: int| x * f(j);
    let yg = |j: int| y * g(j);
    let zh = |j: int| z * h(j);
    let s = |j: int| xf(j) + yg(j);
    lemma_sum_scale(n, x, f);
    lemma_sum_scale(n, y, g);
    lemma_sum_scale(n, z, h);
    lemma_sum_add(n, xf, yg);
    lemma_sum_add(n, s, zh);
    lemma_sum_eq(n, |j: int| x * f(j) + y * g(j) + z * h(j), |j: int| s(j) + zh(j));
}

/// Terms that are congruent to a linear combination have a sum that is congruent to the combination
/// of the sums.
proof fn lemma_sum_combination(
    n: int,
    terms: spec_fn(int) -> int,
    x: int,
    f: spec_fn(int) -> int,
    y: int,
    g: spec_fn(int) -> int,
    z: int,
    h: spec_fn(int) -> int,
)
    requires
        forall|j: int|
            0 <= j < n ==> eqm(#[trigger] terms(j), x * f(j) + y * g(j) + z * h(j)),
    ensures
        eqm(sum(n, terms), x * sum(n, f) + y * sum(n, g) + z * sum(n, h)),
{
    let all = |j: int| x * f(j) + y * g(j) + z * h(j);
    assert forall|j: int| 0 <= j < n implies eqm(#[trigger] terms(j), all(j)) by {
    }
    lemma_sum_eqm(n, terms, all);
    lemma_sum_linear(n, x, f, y, g, z, h);
}

/// Whether the encrypted keys of a batch are encryptions of the given rows of messages.
pub open spec fn are_key_encryptions(
    cts: Seq<Ciphertext>,
    ste_crs: &SteCRS,
    ek: &EncryptionKey,
    t: int,
    ms: Seq<Seq<int>>,
    ss: Seq<Seq<int>>,
) -> bool {
    &&& ms.len() == cts.len()
    &&& ss.len() == cts.len()
    &&& forall|j: int|
        0 <= j < cts.len() ==> (#[trigger] cts[j]).encrypted_key.is_encryption(
            ste_crs,
            ek,
            t,
            ms[j],
            ss[j],
        ) && ss[j].len() == 5
}

/// The sum of encryptions is the encryption of the sums.
pub proof fn lemma_sum_is_encryption(
    c: &SteCiphertext,
    cts: Seq<Ciphertext>,
    ste_crs: &SteCRS,
    ek: &EncryptionKey,
    l: nat,
    t: int,
    ms: Seq<Seq<int>>,
    ss: Seq<Seq<int>>,
)
    requires
        is_sum_of(c, cts, cts.len() as int, l as int, t),
        fit_together(cts, l as int, t),
        are_key_encryptions(cts, ste_crs, ek, t, ms, ss),
    ensures
        c.is_encryption(ste_crs, ek, t, column_sums(ms, l), column_sums(ss, 5)),
{
    let n = cts.len() as int;
    let m = column_sums(ms, l);
    let s = column_sums(ss, 5);
    let g = ste_crs.powers_of_g@[0]@;
    let h = ste_crs.powers_of_h@[0]@;
    let s0 = column(ss, 0);
    let s1 = column(ss, 1);
    let s2 = column(ss, 2);
    let s3 = column(ss, 3);
    let s4 = column(ss, 4);
    assert(s[0] == sum(n, s0) && s[1] == sum(n, s1) && s[2] == sum(n, s2));
    assert(s[3] == sum(n, s3) && s[4] == sum(n, s4));
    assert forall|i: int| 0 <= i < 2 implies eqm(
        #[trigger] vals(c.sa1@)[i],
        sa1_value(ste_crs, ek, t, s, i),
    ) by {
        let f = sa1_terms(cts, i);
        assert(eqm(c.sa1@[i]@, sum(n, f)));
        assert forall|j: int| 0 <= j < n implies eqm(
            #[trigger] f(j),
            sa1_value(ste_crs, ek, t, ss[j], i),
        ) by {
            assert(cts[j].encrypted_key.is_encryption(ste_crs, ek, t, ms[j], ss[j]));
            assert(vals(cts[j].encrypted_key.sa1@)[i] == f(j));
        }
        if i == 0 {
            lemma_sum_combination(n, f, ek.ask@, s0, g[t]@, s3, g[0]@, s4);
        } else {
            assert forall|j: int| 0 <= j < n implies eqm(
                #[trigger] f(j),
                g[0]@ * s2(j) + 0 * s2(j) + 0 * s2(j),
            ) by {
                assert(eqm(f(j), sa1_value(ste_crs, ek, t, ss[j], i)));
            }
            lemma_sum_combination(n, f, g[0]@, s2, 0, s2, 0, s2);
            assert(0 * sum(n, s2) == 0);
        }
    }
    assert forall|i: int| 0 <= i < 6 implies eqm(
        #[trigger] vals(c.sa2@)[i],
        sa2_value(ste_crs, ek, s, i),
    ) by {
        let f = sa2_terms(cts, i);
        assert(eqm(c.sa2@[i]@, sum(n, f)));
        assert forall|j: int| 0 <= j < n implies eqm(
            #[trigger] f(j),
            sa2_value(ste_crs, ek, ss[j], i),
        ) by {
            assert(cts[j].encrypted_key.is_encryption(ste_crs, ek, t, ms[j], ss[j]));
            assert(vals(cts[j].encrypted_key.sa2@)[i] == f(j));
        }
        let (x, u, y, v) = if i == 0 {
            (h[0]@, s0, ek.gamma_g2@[0]@, s2)
        } else if i == 1 {
            (ek.z_g2@, s0, 0, s0)
        } else if i == 2 {
            (h[1]@, s0, h[2]@, s1)
        } else if i == 3 {
            (h[0]@, s1, 0, s1)
        } else if i == 4 {
            (h[0]@, s3, 0, s3)
        } else {
            (h[1]@, s4, 0, s4)
        };
        assert forall|j: int| 0 <= j < n implies eqm(
            #[trigger] f(j),
            x * u(j) + y * v(j) + 0 * u(j),
        ) by {
            assert(eqm(f(j), sa2_value(ste_crs, ek, ss[j], i)));
        }
        lemma_sum_combination(n, f, x, u, y, v, 0, u);
        assert(0 * sum(n, u) == 0 && 0 * sum(n, v) == 0);
        assert(x * sum(n, u) + y * sum(n, v) == sa2_value(ste_crs, ek, s, i));
    }
    assert(vals(c.ct@).len() == l);
    assert forall|k: int| 0 <= k < l implies eqm(
        #[trigger] vals(c.ct@)[k],
        ct_value(ek, s, m[k], k),
    ) by {
        let f = ct_terms(cts, k);
        let mk = column(ms, k);
        let e = ek.e_gh@[k]@;
        assert(eqm(c.ct@[k]@, sum(n, f)));
        assert forall|j: int| 0 <= j < n implies eqm(
            #[trigger] f(j),
            e * s4(j) + 1 * mk(j) + 0 * mk(j),
        ) by {
            assert(cts[j].encrypted_key.is_encryption(ste_crs, ek, t, ms[j], ss[j]));
            assert(cts[j].encrypted_key.ct@.len() == l);
            assert(vals(cts[j].encrypted_key.ct@)[k] == f(j));
            assert(eqm(f(j), ct_value(ek, ss[j], ms[j][k], k)));
        }
        lemma_sum_combination(n, f, e, s4, 1, mk, 0, mk);
        assert(0 * sum(n, mk) == 0 && 1 * sum(n, mk) == sum(n, mk));
    }
}

/// The rows of chunks of the keys.
pub open spec fn chunk_rows(keys: Seq<int>) -> Seq<Seq<int>> {
    Seq::new(keys.len(), |j: int| chunks_of(keys[j]))
}

/// The sum of the chunks of all keys in a slot.
pub open spec fn slot_sum(keys: Seq<int>, k: int) -> int {
    sum(keys.len() as int, column(chunk_rows(keys), k))
}

/// The sum of the chunks of a safe batch is in the range of the discrete logarithms.
proof fn lemma_slot_sum_range(keys: Seq<int>, n: int, k: int)
    requires
        0 <= n <= keys.len(),
        0 <= k < NUM_CHUNKS,
    ensures
        0 <= sum(n, column(chunk_rows(keys), k)) <= n * (chunk_radix() - 1),
    decreases n,
{
    if n > 0 {
        lemma_slot_sum_range(keys, n - 1, k);
        lemma_chunk_range(keys[n - 1], k);
        assert(column(chunk_rows(keys), k)(n - 1) == chunk(keys[n - 1], k));
    }
}

/// A safe batch stays in the range of the discrete logarithms, slot by slot.
pub proof fn lemma_safe_batch(keys: Seq<int>, k: int)
    requires
        is_safe_batch(keys.len() as int),
        0 <= k < NUM_CHUNKS,
    ensures
        0 <= slot_sum(keys, k) < pow2(DLOG_RANGE_BITS as nat),
{
    lemma_slot_sum_range(keys, keys.len() as int, k);
    lemma2_to64();
}

/// Putting the slot sums together gives the sum of the keys.
proof fn lemma_recompose_sums(keys: Seq<int>)
    requires
        forall|j: int| 0 <= j < keys.len() ==> 0 <= #[trigger] keys[j] < modulus(),
    ensures
        recomposed(Seq::new(NUM_CHUNKS as nat, |k: int| slot_sum(keys, k))) == sum(
            keys.len() as int,
            |j: int| keys[j],
        ),
{
    let n = keys.len() as int;
    let c = NUM_CHUNKS as int;
    let rows = chunk_rows(keys);
    let slots = Seq::new(NUM_CHUNKS as nat, |k: int| slot_sum(keys, k));
    let f = |k: int, j: int| rows[j][k] * pow(chunk_radix(), k as nat);
    let lhs = place_terms(slots);
    let mid = |k: int| sum(n, |j: int| f(k, j));
    assert forall|k: int| 0 <= k < c implies #[trigger] lhs(k) == mid(k) by {
        let p = pow(chunk_radix(), k as nat);
        let u = column(rows, k);
        let v = |j: int| p * u(j);
        let f_k = |j: int| f(k, j);
        lemma_sum_scale(n, p, u);
        assert forall|j: int| 0 <= j < n implies #[trigger] f_k(j) == v(j) by {
            assert(u(j) * p == p * u(j)) by (nonlinear_arith);
        }
        lemma_sum_eq(n, f_k, v);
        assert(slots[k] * p == p * slots[k]) by (nonlinear_arith);
    }
    lemma_sum_eq(c, lhs, mid);
    assert(mid =~= (|k: int| sum(n, |j: int| f(k, j))));
    lemma_sum_swap(c, n, f);
    let out = |j: int| sum(c, |k: int| f(k, j));
    assert(out =~= (|j: int| sum(c, |k: int| f(k, j))));
    let want = |j: int| keys[j];
    assert forall|j: int| 0 <= j < n implies #[trigger] out(j) == want(j) by {
        let f_j = |k: int| f(k, j);
        lemma_sum_eq(c, f_j, place_terms(chunks_of(keys[j])));
        lemma_recompose(keys[j]);
    }
    lemma_sum_eq(n, out, want);
}

/// Whether the ciphertexts of a batch are honest encryptions, each for its own position.
pub open spec fn is_honest_batch(
    cts: Seq<Ciphertext>,
    bte_crs: &BteCRS,
    ste_crs: &SteCRS,
    ek: &EncryptionKey,
    t: int,
    keys: Seq<int>,
    ss: Seq<Seq<int>>,
) -> bool {
    &&& keys.len() == cts.len()
    &&& ss.len() == cts.len()
    &&& forall|j: int| 0 <= j < keys.len() ==> 0 <= #[trigger] keys[j] < modulus()
    &&& forall|j: int|
        0 <= j < cts.len() ==> (#[trigger] cts[j]).is_encryption(
            bte_crs,
            ste_crs,
            ek,
            j,
            t,
            keys[j],
            ss[j],
        ) && ss[j].len() == 5
}

/// The opening of an honest batch: every search succeeds, and the key comes out as the sum of the
/// keys of the batch.
proof fn lemma_honest_opening(
    cts: Seq<Ciphertext>,
    bte_crs: &BteCRS,
    ste_crs: &SteCRS,
    tau: int,
    alphas: Seq<int>,
    gamma: int,
    secrets: Seq<SecretKey>,
    pk: Seq<LagPublicKey>,
    agg_key: &AggregateKey,
    ek: &EncryptionKey,
    t: int,
    keys: Seq<int>,
    ss: Seq<Seq<int>>,
    pds: Seq<PartialDecryption>,
    selector: Seq<bool>,
    markers: &Markers,
    c: SteCiphertext,
    dec: Seq<int>,
    dlogs: Seq<Option<int>>,
)
    requires
        ste_crs.is_generated(
            ste_crs.n as int,
            NUM_CHUNKS as int,
            tau,
            alphas,
            gamma,
        ),
        are_keys_of(pk, secrets, ste_crs),
        agg_key.is_aggregate(pk, ste_crs),
        ek.is_aggregate(pk, ste_crs),
        is_honest_batch(cts, bte_crs, ste_crs, ek, t, keys, ss),
        is_safe_batch(cts.len() as int),
        selector.len() == ste_crs.n,
        0 <= t <= selected_count(selector, ste_crs.n as int),
        1 <= selected_count(selector, ste_crs.n as int),
        are_contributions(
            pds,
            sum(cts.len() as int, sa1_terms(cts, 1)) % modulus(),
            secrets,
            selector,
        ),
        markers.is_complete(),
        markers.log_max_input == DLOG_RANGE_BITS,
        has_distinct_keys(markers.log_bases(), markers.log_markers as nat),
        is_opening(cts, ste_crs, t, pds, selector, agg_key, markers, c, dec, dlogs),
    ensures
        all_found(dlogs),
        recovered_key(dlogs) == key_sum(keys),
{
    let ms = chunk_rows(keys);
    let l = NUM_CHUNKS as nat;
    assert forall|j: int| 0 <= j < cts.len() implies (#[trigger] cts[j]).encrypted_key.t == t
        && cts[j].encrypted_key.ct@.len() == l by {
        assert(cts[j].is_encryption(bte_crs, ste_crs, ek, j, t, keys[j], ss[j]));
        assert(vals(cts[j].encrypted_key.ct@).len() == cts[j].encrypted_key.ct@.len());
    }
    assert forall|j: int| 0 <= j < cts.len() implies (
    #[trigger] cts[j]).encrypted_key.is_encryption(ste_crs, ek, t, ms[j], ss[j]) && ss[j].len()
        == 5 by {
        assert(cts[j].is_encryption(bte_crs, ste_crs, ek, j, t, keys[j], ss[j]));
    }
    lemma_sum_is_encryption(&c, cts, ste_crs, ek, l, t, ms, ss);
    let m = column_sums(ms, l);
    let s = column_sums(ss, 5);
    // The partial decryptions are for the sum.
    let base = sum(cts.len() as int, sa1_terms(cts, 1)) % modulus();
    assert(eqm(c.sa1@[1]@, sum(cts.len() as int, sa1_terms(cts, 1))));
    crate::group::lemma_g1_range(c.sa1@[1]);
    lemma_eqm_mod(sum(cts.len() as int, sa1_terms(cts, 1)));
    lemma_eqm_reduced(c.sa1@[1]@, base);
    lemma_decryption_correct(
        ste_crs,
        NUM_CHUNKS as int,
        tau,
        alphas,
        gamma,
        secrets,
        pk,
        agg_key,
        ek,
        &c,
        m,
        s,
        pds,
        selector,
        dec,
    );
    lemma_modulus();
    lemma2_to64();
    assert forall|k: int| 0 <= k < dlogs.len() implies #[trigger] dlogs[k] == Some(
        slot_sum(keys, k),
    ) by {
        assert(eqm(dec[k], m[k]));
        assert(m[k] == slot_sum(keys, k));
        lemma_safe_batch(keys, k);
        assert(0 <= dec[k] < modulus());
        lemma_eqm_reduced(dec[k], slot_sum(keys, k));
        lemma_dlog_recovered(markers, dec[k]);
    }
    assert(all_found(dlogs));
    assert(dlogs.len() == l);
    assert(Seq::new(dlogs.len(), |k: int| dlogs[k]->0) =~= Seq::new(
        NUM_CHUNKS as nat,
        |k: int| slot_sum(keys, k),
    ));
    lemma_recompose_sums(keys);
}

/// The masks of an honest batch, from the sum of its keys.
proof fn lemma_honest_masks(
    cts: Seq<Ciphertext>,
    bte_crs: &BteCRS,
    x: int,
    ste_crs: &SteCRS,
    ek: &EncryptionKey,
    t: int,
    keys: Seq<int>,
    ss: Seq<Seq<int>>,
    i: int,
)
    requires
        bte_crs.is_generated(bte_crs.batch_size as int, x),
        is_honest_batch(cts, bte_crs, ste_crs, ek, t, keys, ss),
        0 <= i < cts.len(),
    ensures
        separate_masks(bte_crs, cts, key_sum(keys))(i) == cts[i].mask@,
        convolved_masks(bte_crs, cts, key_sum(keys))(i) == cts[i].mask@,
{
    let pprfs = pprfs_of(cts);
    assert forall|j: int| 0 <= j < pprfs.len() implies is_punctured(
        bte_crs,
        #[trigger] pprfs[j],
        keys[j],
    ) && pprfs[j].point == j by {
        assert(cts[j].is_encryption(bte_crs, ste_crs, ek, j, t, keys[j], ss[j]));
    }
    lemma_mask_recovered(bte_crs, bte_crs.batch_size as int, x, pprfs, keys, i);
    assert(cts[i].is_encryption(bte_crs, ste_crs, ek, i, t, keys[i], ss[i]));
    lemma_fft_agrees(bte_crs, key_sum(keys), pprfs, i);
}

/// Decryption gives back the masks of an honest batch, by separate evaluations as well as by one
/// convolution, from the partial decryptions of at least as many parties as the threshold asks for.
pub proof fn lemma_honest_batch_decrypts(
    cts: Seq<Ciphertext>,
    bte_crs: &BteCRS,
    x: int,
    ste_crs: &SteCRS,
    tau: int,
    alphas: Seq<int>,
    gamma: int,
    secrets: Seq<SecretKey>,
    pk: Seq<LagPublicKey>,
    agg_key: &AggregateKey,
    ek: &EncryptionKey,
    t: int,
    keys: Seq<int>,
    ss: Seq<Seq<int>>,
    pds: Seq<PartialDecryption>,
    selector: Seq<bool>,
    markers: &Markers,
    res: Result<Vec<Gt>, DecryptError>,
)
    requires
        bte_crs.is_generated(bte_crs.batch_size as int, x),
        ste_crs.is_generated(
            ste_crs.n as int,
            NUM_CHUNKS as int,
            tau,
            alphas,
            gamma,
        ),
        are_keys_of(pk, secrets, ste_crs),
        agg_key.is_aggregate(pk, ste_crs),
        ek.is_aggregate(pk, ste_crs),
        is_honest_batch(cts, bte_crs, ste_crs, ek, t, keys, ss),
        is_safe_batch(cts.len() as int),
        selector.len() == ste_crs.n,
        0 <= t <= selected_count(selector, ste_crs.n as int),
        1 <= selected_count(selector, ste_crs.n as int),
        are_contributions(
            pds,
            sum(cts.len() as int, sa1_terms(cts, 1)) % modulus(),
            secrets,
            selector,
        ),
        markers.is_complete(),
        markers.log_max_input == DLOG_RANGE_BITS,
        has_distinct_keys(markers.log_bases(), markers.log_markers as nat),
        is_decrypted(cts, bte_crs, ste_crs, t, pds, selector, agg_key, markers, res)
            || is_decrypted_by_fft(
            cts,
            bte_crs,
            ste_crs,
            t,
            pds,
            selector,
            agg_key,
            markers,
            res,
        ),
    ensures
        res matches Ok(v) && v@.len() == cts.len() && forall|i: int|
            0 <= i < cts.len() ==> (#[trigger] v@[i])@ == cts[i].mask@,
{
    let (c, dec, dlogs) = choose|c: SteCiphertext, dec: Seq<int>, dlogs: Seq<Option<int>>| #[trigger]
        is_opening(cts, ste_crs, t, pds, selector, agg_key, markers, c, dec, dlogs) && (is_outcome(
            cts,
            dlogs,
            separate_masks(bte_crs, cts, recovered_key(dlogs)),
            res,
        ) || is_outcome(
            cts,
            dlogs,
            convolved_masks(bte_crs, cts, recovered_key(dlogs)),
            res,
        ));
    lemma_honest_opening(
        cts,
        bte_crs,
        ste_crs,
        tau,
        alphas,
        gamma,
        secrets,
        pk,
        agg_key,
        ek,
        t,
        keys,
        ss,
        pds,
        selector,
        markers,
        c,
        dec,
        dlogs,
    );
    assert forall|i: int| 0 <= i < cts.len() implies #[trigger] separate_masks(
        bte_crs,
        cts,
        key_sum(keys),
    )(i) == cts[i].mask@ && convolved_masks(bte_crs, cts, key_sum(keys))(i) == cts[i].mask@ by {
        lemma_honest_masks(cts, bte_crs, x, ste_crs, ek, t, keys, ss, i);
    }
    if let Err(DecryptError::MaskMismatch { index }) = res {
        lemma_honest_masks(cts, bte_crs, x, ste_crs, ek, t, keys, ss, index as int);
    }
}

/// Where every key is punctured at its own position, a result is what follows from the logarithms of
/// the slots by separate evaluations exactly if it is what follows from them by one convolution.
pub proof fn lemma_outcomes_agree(
    cts: Seq<Ciphertext>,
    bte_crs: &BteCRS,
    key: int,
    dlogs: Seq<Option<int>>,
    res: Result<Vec<Gt>, DecryptError>,
)
    requires
        forall|j: int| 0 <= j < cts.len() ==> (#[trigger] cts[j]).pprf.point == j,
    ensures
        is_outcome(cts, dlogs, separate_masks(bte_crs, cts, key), res) <==> is_outcome(
            cts,
            dlogs,
            convolved_masks(bte_crs, cts, key),
            res,
        ),
{
    let a = separate_masks(bte_crs, cts, key);
    let b = convolved_masks(bte_crs, cts, key);
    let pprfs = pprfs_of(cts);
    assert forall|j: int| 0 <= j < pprfs.len() implies (#[trigger] pprfs[j]).point == j by {
        assert(cts[j].pprf.point == j);
    }
    assert forall|i: int| #[trigger] a(i) == b(i) by {
        lemma_fft_agrees(bte_crs, key, pprfs, i);
    }
    assert(a =~= b);
}

/// Two lists of outcomes of the same searches succeed or fail together, and in the same slot.
proof fn lemma_searches_agree(
    targets: Seq<int>,
    markers: &Markers,
    a: Seq<Option<int>>,
    b: Seq<Option<int>>,
)
    requires
        are_searches(targets, markers, a),
        are_searches(targets, markers, b),
    ensures
        all_found(a) ==> all_found(b) && a == b,
        forall|slot: int| #[trigger] is_first_missing(a, slot) ==> is_first_missing(b, slot),
{
    if all_found(a) {
        assert forall|k: int| 0 <= k < b.len() implies (#[trigger] b[k]) is Some by {
            assert(a[k] is Some);
        }
        assert(a =~= b);
    }
    assert forall|slot: int| #[trigger] is_first_missing(a, slot) implies is_first_missing(
        b,
        slot,
    ) by {
        assert forall|k: int| 0 <= k < slot && k < b.len() implies (#[trigger] b[k]) is Some by {
            assert(a[k] is Some);
        }
        if b.len() <= slot {
            assert(all_found(b));
        }
        assert(b[slot] == a[slot]);
    }
}

/// The sum of the encrypted keys and its decryption are determined by the arguments.
pub(crate) proof fn lemma_opening_unique(
    cts: Seq<Ciphertext>,
    ste_crs: &SteCRS,
    t: int,
    pds: Seq<PartialDecryption>,
    selector: Seq<bool>,
    agg_key: &AggregateKey,
    markers: &Markers,
    c1: SteCiphertext,
    dec1: Seq<int>,
    dlogs1: Seq<Option<int>>,
    c2: SteCiphertext,
    dec2: Seq<int>,
    dlogs2: Seq<Option<int>>,
)
    requires
        is_opening(cts, ste_crs, t, pds, selector, agg_key, markers, c1, dec1, dlogs1),
        is_opening(cts, ste_crs, t, pds, selector, agg_key, markers, c2, dec2, dlogs2),
    ensures
        dec1 == dec2,
{
    broadcast use crate::group::lemma_g1_range, crate::group::lemma_g2_range;
    broadcast use crate::group::lemma_gt_range;

    let n = cts.len() as int;
    assert forall|i: int| 0 <= i < 2 implies #[trigger] vals(c1.sa1@)[i] == vals(c2.sa1@)[i] by {
        assert(eqm(c1.sa1@[i]@, sum(n, sa1_terms(cts, i))));
        assert(eqm(c2.sa1@[i]@, sum(n, sa1_terms(cts, i))));
        lemma_eqm_reduced(c1.sa1@[i]@, c2.sa1@[i]@);
    }
    assert(vals(c1.sa1@) =~= vals(c2.sa1@));
    assert forall|i: int| 0 <= i < 6 implies #[trigger] vals(c1.sa2@)[i] == vals(c2.sa2@)[i] by {
        assert(eqm(c1.sa2@[i]@, sum(n, sa2_terms(cts, i))));
        assert(eqm(c2.sa2@[i]@, sum(n, sa2_terms(cts, i))));
        lemma_eqm_reduced(c1.sa2@[i]@, c2.sa2@[i]@);
    }
    assert(vals(c1.sa2@) =~= vals(c2.sa2@));
    let b = selector_poly(selector, ste_crs.n as int, ste_crs.n as int);
    assert forall|k: int| 0 <= k < dec1.len() implies #[trigger] dec1[k] == dec2[k] by {
        assert(eqm(c1.ct@[k]@, sum(n, ct_terms(cts, k))));
        assert(eqm(c2.ct@[k]@, sum(n, ct_terms(cts, k))));
        lemma_eqm_reduced(c1.ct@[k]@, c2.ct@[k]@);
        assert(slot_mask(ste_crs, agg_key, pds, &c1, b, k) == slot_mask(
            ste_crs,
            agg_key,
            pds,
            &c2,
            b,
            k,
        ));
        assert(eqm(dec2[k], c2.ct@[k]@ - slot_mask(ste_crs, agg_key, pds, &c2, b, k)));
        lemma_eqm_reduced(dec1[k], dec2[k]);
    }
    assert(dec1 =~= dec2);
}

/// Whether two results are the same: the same masks, or the same error.
pub open spec fn same_result(
    a: Result<Vec<Gt>, DecryptError>,
    b: Result<Vec<Gt>, DecryptError>,
) -> bool {
    match (a, b) {
        (Ok(v), Ok(w)) => vals(v@) == vals(w@),
        (Err(e), Err(f)) => e == f,
        _ => false,
    }
}

/// Decryption by one convolution and by separate evaluations have the same result on the same
/// arguments, where every key is punctured at its own position: both succeed, with the same masks,
/// or both fail, with the same error.
pub proof fn lemma_decryptions_agree(
    cts: Seq<Ciphertext>,
    bte_crs: &BteCRS,
    ste_crs: &SteCRS,
    t: int,
    pds: Seq<PartialDecryption>,
    selector: Seq<bool>,
    agg_key: &AggregateKey,
    markers: &Markers,
    separate: Result<Vec<Gt>, DecryptError>,
    convolved: Result<Vec<Gt>, DecryptError>,
)
    requires
        forall|j: int| 0 <= j < cts.len() ==> (#[trigger] cts[j]).pprf.point == j,
        is_decrypted(cts, bte_crs, ste_crs, t, pds, selector, agg_key, markers, separate),
        is_decrypted_by_fft(cts, bte_crs, ste_crs, t, pds, selector, agg_key, markers, convolved),
    ensures
        same_result(separate, convolved),
{
    if is_safe_batch(cts.len() as int) {
        let (c1, dec1, dlogs1) = choose|
            c: SteCiphertext,
            dec: Seq<int>,
            dlogs: Seq<Option<int>>,
        | #[trigger]
            is_opening(cts, ste_crs, t, pds, selector, agg_key, markers, c, dec, dlogs)
                && is_outcome(
                cts,
                dlogs,
                separate_masks(bte_crs, cts, recovered_key(dlogs)),
                separate,
            );
        let (c2, dec2, dlogs2) = choose|
            c: SteCiphertext,
            dec: Seq<int>,
            dlogs: Seq<Option<int>>,
        | #[trigger]
            is_opening(cts, ste_crs, t, pds, selector, agg_key, markers, c, dec, dlogs)
                && is_outcome(
                cts,
                dlogs,
                convolved_masks(bte_crs, cts, recovered_key(dlogs)),
                convolved,
            );
        lemma_opening_unique(
            cts,
            ste_crs,
            t,
            pds,
            selector,
            agg_key,
            markers,
            c1,
            dec1,
            dlogs1,
            c2,
            dec2,
            dlogs2,
        );
        lemma_searches_agree(dec1, markers, dlogs1, dlogs2);
        lemma_searches_agree(dec1, markers, dlogs2, dlogs1);
        let key = recovered_key(dlogs1);
        if all_found(dlogs1) {
            lemma_outcomes_agree(cts, bte_crs, key, dlogs1, separate);
            lemma_mask_outcomes_same(
                cts,
                convolved_masks(bte_crs, cts, key),
                separate,
                convolved,
            );
        } else {
            lemma_missing_same(dlogs1, separate, convolved);
        }
    }
}

/// Only one slot is the first that is missing.
proof fn lemma_missing_same(
    dlogs: Seq<Option<int>>,
    a: Result<Vec<Gt>, DecryptError>,
    b: Result<Vec<Gt>, DecryptError>,
)
    requires
        a matches Err(DecryptError::DlogOutOfRange { slot }) && is_first_missing(
            dlogs,
            slot as int,
        ),
        b matches Err(DecryptError::DlogOutOfRange { slot }) && is_first_missing(
            dlogs,
            slot as int,
        ),
    ensures
        same_result(a, b),
{
    let i = a->Err_0->slot as int;
    let j = b->Err_0->slot as int;
    if i < j {
        assert(dlogs[i] is Some);
    } else if j < i {
        assert(dlogs[j] is Some);
    }
}

/// The masks that were recovered determine the result.
proof fn lemma_mask_outcomes_same(
    cts: Seq<Ciphertext>,
    masks: spec_fn(int) -> int,
    a: Result<Vec<Gt>, DecryptError>,
    b: Result<Vec<Gt>, DecryptError>,
)
    requires
        is_mask_outcome(cts, masks, a),
        is_mask_outcome(cts, masks, b),
    ensures
        same_result(a, b),
{
    match (a, b) {
        (Ok(v), Ok(w)) => {
            assert forall|i: int| 0 <= i < cts.len() implies #[trigger] vals(v@)[i] == vals(
                w@,
            )[i] by {
                assert(v@[i]@ == masks(i));
                assert(w@[i]@ == masks(i));
            }
            assert(vals(v@) =~= vals(w@));
        },
        (Ok(v), Err(DecryptError::MaskMismatch { index })) => {
            assert(v@[index as int]@ == masks(index as int));
        },
        (Err(DecryptError::MaskMismatch { index }), Ok(v)) => {
            assert(v@[index as int]@ == masks(index as int));
        },
        (
            Err(DecryptError::MaskMismatch { index: i }),
            Err(DecryptError::MaskMismatch { index: j }),
        ) => {
            if i < j {
                assert(masks(i as int) == cts[i as int].mask@);
            } else if j < i {
                assert(masks(j as int) == cts[j as int].mask@);
            }
        },
        _ => {},
    }
}

} // verus!
