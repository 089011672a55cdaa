//! Laws of the discrete logarithms.
use crate::algebra::congruence::modulus;
use crate::dlog::{
    assert_homomorphic_batch_safe, batch_fits, dlog_key, giant_step, has_distinct_keys,
    homomorphic_batch_bound, lemma_dlog_recovered, max_chunk_value, max_dlog_exponent,
    max_homomorphic_batch_size, HomomorphicBatchTooLarge, Markers,
};
use crate::field::{le_value, Scalar};
use crate::group::{gt_encoding, lemma_gt_range, Gt};
use vstd::arithmetic::power2::{lemma2_to64, lemma_pow2_pos, lemma_pow2_unfold, pow2};
use vstd::prelude::*;

verus! {

/// A batch is accepted exactly if so many chunks of the largest value sum up to an exponent in range.
/// A refusal tells the size of the batch and the largest size that is accepted.
pub proof fn law_batch_bound(
    batch_size: usize,
    chunk_bits: u32,
    range_bits: usize,
    largest: u128,
    exponent: u128,
    bound: usize,
    res: Result<(), HomomorphicBatchTooLarge>,
)
    requires
        call_ensures(max_chunk_value, (chunk_bits,), largest),
        call_ensures(max_dlog_exponent, (range_bits,), exponent),
        call_ensures(max_homomorphic_batch_size, (chunk_bits, range_bits), bound),
        call_ensures(assert_homomorphic_batch_safe, (batch_size, chunk_bits, range_bits), res),
    ensures
        largest + 1 == pow2(chunk_bits as nat),
        exponent + 1 == pow2(range_bits as nat),
        bound * largest <= exponent,
        bound == usize::MAX || (bound + 1) * largest > exponent,
        res is Ok <==> batch_size * largest <= exponent,
        res is Ok <==> batch_size <= bound,
        res matches Err(e) ==> e.batch_size == batch_size && e.max_batch_size == bound,
{
    lemma_pow2_pos(chunk_bits as nat);
    lemma_pow2_pos(range_bits as nat);
    let m = largest as int;
    let cap = exponent as int;
    let b = bound as int;
    assert(batch_fits(bound as int, chunk_bits as nat, range_bits as nat)) by {
        assert(bound <= bound);
    }
    assert(batch_size <= bound <==> batch_fits(
        batch_size as int,
        chunk_bits as nat,
        range_bits as nat,
    ));
    if bound != usize::MAX {
        let next: usize = (bound + 1) as usize;
        assert(!batch_fits(next as int, chunk_bits as nat, range_bits as nat));
    }
}

/// The table for logarithms with the default parameters covers twenty-five bits with two to the
/// thirteenth giant steps.
pub proof fn law_default_table(markers: Markers)
    requires
        call_ensures(Markers::new, (), markers),
    ensures
        markers.log_max_input == 25,
        markers.log_markers == 13,
        holds_multiples(&markers),
{
    lemma_multiples(&markers);
}

/// The key of a logarithm in the table: the first sixteen bytes of the encoding, lowest first.
pub open spec fn prefix_key(v: int) -> u128 {
    le_value(gt_encoding(v).subrange(0, 16)) as u128
}

/// Whether the table holds the multiples of `2^(log_max_input - log_markers)`, up to the one with
/// index `2^log_markers`: every multiple has its key there, and under every key stands the greatest
/// index of a multiple with that key.
pub open spec fn holds_multiples(markers: &Markers) -> bool {
    let step = pow2((markers.log_max_input - markers.log_markers) as nat);
    let n = pow2(markers.log_markers as nat);
    &&& forall|j: int|
        0 <= j <= n ==> markers.markers_map@.contains_key(
            prefix_key(#[trigger] ((j * step) % modulus())),
        )
    &&& forall|k: u128| #[trigger]
        markers.markers_map@.contains_key(k) ==> markers.markers_map@[k] <= n && k == prefix_key(
            (markers.markers_map@[k] as int * step) % modulus(),
        )
    &&& forall|k: u128, j: int|
        markers.markers_map@.contains_key(k) && (#[trigger] markers.markers_map@[k]) < j <= n
            ==> k != prefix_key(
            #[trigger] ((j * step) % modulus()),
        )
}

proof fn lemma_multiples(markers: &Markers)
    requires
        markers.is_complete(),
    ensures
        holds_multiples(markers),
{
    let lb = markers.log_bases();
    let step = pow2(lb);
    let table = markers.markers_map@;
    let n = pow2(markers.log_markers as nat);
    assert forall|v: int| #[trigger] dlog_key(v) == prefix_key(v) by {}
    assert forall|j: int| 0 <= j <= n implies table.contains_key(
        prefix_key(#[trigger] ((j * step) % modulus())),
    ) by {
        assert(table.contains_key(dlog_key(giant_step(lb, j))));
    }
    assert forall|k: u128, j: int|
        table.contains_key(k) && (#[trigger] table[k]) < j <= n implies k != prefix_key(
        #[trigger] ((j * step) % modulus()),
    ) by {
        assert(k != dlog_key(giant_step(lb, j)));
    }
}

/// A table for given parameters has them and holds the multiples that they ask for.
pub proof fn law_table(log_max_input: usize, log_markers: usize, markers: Markers)
    requires
        call_ensures(Markers::with_params, (log_max_input, log_markers), markers),
    ensures
        markers.log_max_input == log_max_input,
        markers.log_markers == log_markers,
        holds_multiples(&markers),
{
    lemma_multiples(&markers);
}

/// Whether the multiples in the table have different keys.
pub open spec fn tells_multiples_apart(step: int, n: int) -> bool {
    forall|i: int, j: int|
        0 <= i < j <= n ==> prefix_key(#[trigger] ((i * step) % modulus())) != prefix_key(
            #[trigger] ((j * step) % modulus()),
        )
}

/// What the search finds is the logarithm of the target, and it is in range. It finds every logarithm
/// in range, if the keys of the table are different.
pub proof fn law_search(
    log_max_input: usize,
    log_markers: usize,
    markers: Markers,
    target: Gt,
    res: Option<Scalar>,
)
    requires
        log_max_input >= log_markers,
        call_ensures(Markers::with_params, (log_max_input, log_markers), markers),
        call_ensures(Markers::compute_dlog, (&markers, &target), res),
    ensures
        res matches Some(x) ==> x@ == target@ && x@ < pow2(log_max_input as nat),
        target@ < pow2(log_max_input as nat) && tells_multiples_apart(
            pow2((log_max_input - log_markers) as nat) as int,
            pow2(log_markers as nat) as int,
        ) ==> res is Some,
{
    lemma_gt_range(target);
    lemma_dlog_recovered(&markers, target@);
    let lb = markers.log_bases();
    let lm = log_markers as nat;
    if tells_multiples_apart(pow2(lb) as int, pow2(lm) as int) {
        assert forall|i: int, j: int| 0 <= i < j <= pow2(lm) implies #[trigger] dlog_key(
            giant_step(lb, i),
        ) != #[trigger] dlog_key(giant_step(lb, j)) by {
            assert(prefix_key((i * pow2(lb)) % modulus()) != prefix_key((j * pow2(lb)) % modulus()));
        }
        assert(has_distinct_keys(lb, lm));
    }
}

/// In any table, what the search finds is the logarithm of the target.
pub proof fn law_search_is_sound(markers: Markers, target: Gt, res: Option<Scalar>)
    requires
        call_ensures(Markers::compute_dlog, (&markers, &target), res),
    ensures
        res matches Some(x) ==> x@ == target@,
{
}

/// A batch of up to 512 keys in chunks of sixteen bits is in range of the default table.
pub proof fn lemma_default_bound(n: int)
    ensures
        batch_fits(n, 16, 25) <==> n <= 512,
        homomorphic_batch_bound(16, 25) == 512,
{
    lemma2_to64();
    lemma_pow2_unfold(25);
    assert(pow2(25) == 33554432);
    assert(pow2(16) == 65536);
}

} // verus!
