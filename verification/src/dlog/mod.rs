//! Baby-step / giant-step discrete logarithms in the target group, and the bounds that keep a
//! homomorphic sum of chunks inside the range that the solver covers.
use crate::algebra::congruence::{lemma_eqm_mod, lemma_modulus, lemma_reduced, modulus};
use crate::field::{le_value, Scalar};
use crate::group::{gt_encoding, Gt};
use std::collections::HashMap;
use vstd::arithmetic::power2::{lemma_pow2_adds, lemma_pow2_pos, lemma_pow2_unfold, pow2};
use vstd::prelude::*;
use vstd::relations::injective_on;
use vstd::set_lib::{lemma_int_range, lemma_len_subset, lemma_map_size, set_int_range};

verus! {

/// The solver recovers exponents in `[0, 2^DLOG_RANGE_BITS)`.
pub const DLOG_RANGE_BITS: usize = 25;

/// The table holds `2^DLOG_MARKER_BITS + 1` giant steps.
pub const DLOG_MARKER_BITS: usize = 13;

/// The solver takes `2^DLOG_STEP_BITS` baby steps.
pub const DLOG_STEP_BITS: usize = 12;

/// Width in bytes of a table key: a prefix of the uncompressed encoding of a group element.
pub const DLOG_KEY_BYTES: usize = 16;

/// Shifting one to the left by `e` bits gives the `e`-th power of two.
pub proof fn lemma_one_shl_u128(e: u32)
    requires
        e < 128,
    ensures
        (1u128 << e) == pow2(e as nat),
    decreases e,
{
    if e == 0 {
        assert((1u128 << 0u32) == 1u128) by (bit_vector);
        assert(pow2(0) == 1) by {
            vstd::arithmetic::power2::lemma2_to64();
        }
    } else {
        let d: u32 = (e - 1) as u32;
        lemma_one_shl_u128(d);
        lemma_pow2_unfold(e as nat);
        assert((1u128 << e) == 2 * (1u128 << d)) by (bit_vector)
            requires
                0 < e < 128u32,
                d == e - 1,
        ;
    }
}

/// Largest value a single chunk limb can take: `2^chunk_bits - 1`.
pub fn max_chunk_value(chunk_bits: u32) -> (res: u128)
    requires
        chunk_bits < 128,
    ensures
        res == pow2(chunk_bits as nat) - 1,
{
    proof {
        lemma_one_shl_u128(chunk_bits);
        lemma_pow2_pos(chunk_bits as nat);
    }
    (1u128 << chunk_bits) - 1
}

/// Largest exponent the solver can recover: `2^range_bits - 1`.
pub fn max_dlog_exponent(range_bits: usize) -> (res: u128)
    requires
        range_bits < 128,
    ensures
        res == pow2(range_bits as nat) - 1,
{
    let bits: u32 = range_bits as u32;
    proof {
        lemma_one_shl_u128(bits);
        lemma_pow2_pos(range_bits as nat);
    }
    (1u128 << bits) - 1
}

/// The most ciphertexts whose chunk slots can be summed with every slot still at most
/// `2^range_bits - 1`, as far as `usize` can count them.
pub open spec fn homomorphic_batch_bound(chunk_bits: nat, range_bits: nat) -> int {
    let m = pow2(chunk_bits) - 1;
    let cap = pow2(range_bits) - 1;
    if m == 0 || cap / m > usize::MAX {
        usize::MAX as int
    } else {
        cap / m
    }
}

/// Whether `batch_size` chunks of `chunk_bits` bits always sum to at most `2^range_bits - 1`.
pub open spec fn batch_fits(batch_size: int, chunk_bits: nat, range_bits: nat) -> bool {
    batch_size * (pow2(chunk_bits) - 1) <= pow2(range_bits) - 1
}

/// How many ciphertexts can be summed homomorphically without leaving the range of the solver.
///
/// Each ciphertext contributes one chunk per slot and each chunk is at most `2^chunk_bits - 1`,
/// so `b` ciphertexts are safe exactly when `b * (2^chunk_bits - 1) <= 2^range_bits - 1`.
pub fn max_homomorphic_batch_size(chunk_bits: u32, range_bits: usize) -> (res: usize)
    requires
        chunk_bits < 128,
        range_bits < 128,
    ensures
        res == homomorphic_batch_bound(chunk_bits as nat, range_bits as nat),
        forall|b: usize|
            b <= res <==> #[trigger] batch_fits(b as int, chunk_bits as nat, range_bits as nat),
{
    let m: u128 = max_chunk_value(chunk_bits);
    let cap: u128 = max_dlog_exponent(range_bits);
    if m == 0 {
        assert forall|b: usize| #[trigger]
            batch_fits(b as int, chunk_bits as nat, range_bits as nat) by {
            assert(b * 0 == 0);
        }
        return usize::MAX;
    }
    let q: u128 = cap / m;
    assert forall|b: usize|
        b <= q <==> #[trigger] batch_fits(b as int, chunk_bits as nat, range_bits as nat) by {
        let bi: int = b as int;
        assert((bi <= q) == (bi * m <= cap)) by (nonlinear_arith)
            requires
                q == cap as int / m as int,
                m > 0,
        ;
    }
    if q > usize::MAX as u128 {
        usize::MAX
    } else {
        q as usize
    }
}

/// A batch that is too large for its chunk sums to stay inside the range of the solver.
#[derive(Clone, Copy, Debug, PartialEq, Eq)]
pub struct HomomorphicBatchTooLarge {
    /// The size of the refused batch.
    pub batch_size: usize,
    /// The largest batch that would have been accepted.
    pub max_batch_size: usize,
}

/// Refuses a batch whose size exceeds [`max_homomorphic_batch_size`].
pub fn assert_homomorphic_batch_safe(batch_size: usize, chunk_bits: u32, range_bits: usize) -> (res:
    Result<(), HomomorphicBatchTooLarge>)
    requires
        chunk_bits < 128,
        range_bits < 128,
    ensures
        res is Ok <==> batch_fits(batch_size as int, chunk_bits as nat, range_bits as nat),
        res matches Err(e) ==> e.batch_size == batch_size && e.max_batch_size
            == homomorphic_batch_bound(chunk_bits as nat, range_bits as nat),
{
    let max_batch_size: usize = max_homomorphic_batch_size(chunk_bits, range_bits);
    if batch_size <= max_batch_size {
        Ok(())
    } else {
        Err(HomomorphicBatchTooLarge { batch_size, max_batch_size })
    }
}

/// The table key of the group element with the given logarithm: the first bytes of its encoding.
pub open spec fn dlog_key(v: int) -> u128 {
    le_value(gt_encoding(v).subrange(0, DLOG_KEY_BYTES as int)) as u128
}

/// The logarithm of the giant step with index `j`.
pub open spec fn giant_step(log_bases: nat, j: int) -> int {
    (j * pow2(log_bases)) % modulus()
}

/// The logarithm of the baby step with index `i` from the target.
pub open spec fn baby_step(target: int, i: int) -> int {
    (target + 1 + i) % modulus()
}

/// Whether the table holds the giant steps with indices below `n`, each under its key, the last one
/// where keys coincide.
pub open spec fn holds_giant_steps(table: Map<u128, usize>, log_bases: nat, n: int) -> bool {
    &&& forall|j: int|
        0 <= j < n ==> table.contains_key(#[trigger] dlog_key(giant_step(log_bases, j)))
    &&& forall|k: u128| #[trigger]
        table.contains_key(k) ==> table[k] < n && k == dlog_key(
            giant_step(log_bases, table[k] as int),
        )
    &&& forall|k: u128, j: int| #[trigger]
        table.contains_key(k) && table[k] < j < n ==> k != #[trigger] dlog_key(
            giant_step(log_bases, j),
        )
}

/// Whether the baby step with index `i` is in the table and leads to the target: it is as far beyond
/// the target as the giant step under its key is.
pub open spec fn is_hit(table: Map<u128, usize>, log_bases: nat, target: int, i: int) -> bool {
    let key = dlog_key(baby_step(target, i));
    &&& 0 <= i < pow2(log_bases)
    &&& table.contains_key(key)
    &&& table[key] * pow2(log_bases) == target + 1 + i
}

/// The outcome of a search: the target, if a baby step leads to it.
pub open spec fn search_result(
    table: Map<u128, usize>,
    log_bases: nat,
    target: int,
) -> Option<int> {
    if exists|i: int| #[trigger] is_hit(table, log_bases, target, i) {
        Some(target)
    } else {
        None
    }
}

/// The mathematical value of an optional scalar.
pub open spec fn option_value(s: Option<Scalar>) -> Option<int> {
    match s {
        Some(x) => Some(x@),
        None => None,
    }
}

proof fn lemma_le_value_bound(bytes: Seq<u8>)
    ensures
        0 <= le_value(bytes) < pow2((8 * bytes.len()) as nat),
    decreases bytes.len(),
{
    if bytes.len() == 0 {
        lemma_pow2_pos(0);
    } else {
        lemma_le_value_bound(bytes.drop_first());
        let n = (8 * (bytes.len() - 1)) as nat;
        lemma_pow2_adds(8, n);
        vstd::arithmetic::power2::lemma2_to64();
    }
}

fn point_key(p: &Gt) -> (res: u128)
    ensures
        res == dlog_key(p@),
{
    let bytes = p.to_bytes();
    let mut key: u128 = 0;
    let mut i: usize = DLOG_KEY_BYTES;
    let ghost prefix = bytes@.subrange(0, DLOG_KEY_BYTES as int);
    assert(prefix.subrange(16, 16).len() == 0);
    while i > 0
        invariant
            0 <= i <= DLOG_KEY_BYTES,
            bytes@.len() == 576,
            prefix == bytes@.subrange(0, DLOG_KEY_BYTES as int),
            key == le_value(prefix.subrange(i as int, DLOG_KEY_BYTES as int)),
        decreases i,
    {
        proof {
            let rest = prefix.subrange(i - 1, DLOG_KEY_BYTES as int);
            assert(rest.drop_first() =~= prefix.subrange(i as int, DLOG_KEY_BYTES as int));
            lemma_le_value_bound(rest);
            let bits = (8 * (DLOG_KEY_BYTES - (i - 1))) as nat;
            lemma_pow2_adds(64, 64);
            vstd::arithmetic::power2::lemma2_to64();
            if bits < 128 {
                vstd::arithmetic::power2::lemma_pow2_strictly_increases(bits, 128);
            }
        }
        i -= 1;
        key = key * 256 + bytes[i] as u128;
    }
    assert(prefix.subrange(0, DLOG_KEY_BYTES as int) =~= prefix);
    key
}

fn power_of_two_u64(bits: usize) -> (res: u64)
    requires
        bits < 64,
    ensures
        res == pow2(bits as nat),
{
    proof {
        lemma_one_shl_u128(bits as u32);
        if bits < 63 {
            vstd::arithmetic::power2::lemma_pow2_strictly_increases(bits as nat, 63);
        }
        vstd::arithmetic::power2::lemma2_to64();
        vstd::arithmetic::power2::lemma2_to64_rest();
    }
    (1u128 << (bits as u32)) as u64
}

/// A table of giant steps for discrete logarithms in `[0, 2^log_max_input)` to the base of the
/// generator of the target group.
///
/// The giant steps are the multiples of `2^log_bases`, where `log_bases` is
/// `log_max_input - log_markers`. A search takes up to `2^log_bases` baby steps from the target and
/// looks each one up in the table.
#[derive(Clone, Debug)]
pub struct Markers {
    pub log_max_input: usize,
    pub log_markers: usize,
    /// The index of each giant step under its key.
    pub markers_map: HashMap<u128, usize>,
}

impl Markers {
    /// Whether the parameters are those of a table that can be searched.
    pub open spec fn wf(&self) -> bool {
        &&& self.log_markers <= self.log_max_input
        &&& self.log_max_input - self.log_markers < 64
    }

    /// The logarithm of the distance between giant steps.
    pub open spec fn log_bases(&self) -> nat {
        (self.log_max_input - self.log_markers) as nat
    }

    /// Whether the table holds exactly the giant steps that its parameters ask for.
    pub open spec fn is_complete(&self) -> bool {
        &&& self.wf()
        &&& self.log_markers < usize::BITS
        &&& holds_giant_steps(
            self.markers_map@,
            self.log_bases(),
            pow2(self.log_markers as nat) as int + 1,
        )
    }

    /// Builds the table with the default parameters.
    pub fn new() -> (res: Markers)
        ensures
            res.log_max_input == DLOG_RANGE_BITS,
            res.log_markers == DLOG_MARKER_BITS,
            res.is_complete(),
    {
        Markers::with_params(DLOG_RANGE_BITS, DLOG_MARKER_BITS)
    }

    /// Builds the table for logarithms of `log_max_input` bits, with `2^log_markers` giant steps
    /// after the first.
    pub fn with_params(log_max_input: usize, log_markers: usize) -> (res: Markers)
        requires
            log_max_input >= log_markers,
            log_max_input - log_markers < 64,
            log_markers < usize::BITS,
        ensures
            res.log_max_input == log_max_input,
            res.log_markers == log_markers,
            res.is_complete(),
    {
        broadcast use vstd::std_specs::hash::group_hash_axioms;

        let log_bases: usize = log_max_input - log_markers;
        let steps: u64 = power_of_two_u64(log_bases);
        let step = Gt::generator().mul(&Scalar::from_u64(steps));
        proof {
            lemma_reduced_step(steps as int);
        }
        let last: usize = power_of_two_u64(log_markers) as usize;
        proof {
            lemma_fits_usize(log_markers);
        }
        let mut marker = Gt::zero();
        let mut markers_map: HashMap<u128, usize> = HashMap::new();
        let key = point_key(&marker);
        markers_map.insert(key, 0);
        let mut i: usize = 0;
        proof {
            assert(0 * pow2(log_bases as nat) == 0);
            lemma_modulus();
            lemma_reduced(0);
            assert(giant_step(log_bases as nat, 0) == 0);
        }
        while i < last
            invariant
                0 <= i <= last,
                last == pow2(log_markers as nat),
                steps == pow2(log_bases as nat),
                step@ == steps,
                marker@ == giant_step(log_bases as nat, i as int),
                holds_giant_steps(markers_map@, log_bases as nat, i + 1),
            decreases last - i,
        {
            broadcast use vstd::std_specs::hash::group_hash_axioms;

            proof {
                lemma_next_giant_step(log_bases as nat, i as int);
            }
            marker = marker.add(&step);
            i += 1;
            let key = point_key(&marker);
            let ghost before = markers_map@;
            markers_map.insert(key, i);
            proof {
                lemma_insert_giant_step(before, log_bases as nat, i as int, key);
            }
        }
        Markers { log_max_input, log_markers, markers_map }
    }

    /// Finds the logarithm of the target in `[0, 2^log_max_input)`. Whatever is found is the
    /// logarithm: a key that two group elements share leads to no wrong result.
    pub fn compute_dlog(&self, target: &Gt) -> (res: Option<Scalar>)
        requires
            self.wf(),
        ensures
            option_value(res) == search_result(self.markers_map@, self.log_bases(), target@),
    {
        broadcast use vstd::std_specs::hash::group_hash_axioms;

        let log_bases: usize = self.log_max_input - self.log_markers;
        let num_steps: u64 = power_of_two_u64(log_bases);
        let gen = Gt::generator();
        let mut dart = target.add(&gen);
        let mut i: u64 = 0;
        let ghost table = self.markers_map@;
        while i < num_steps
            invariant
                0 <= i <= num_steps,
                num_steps == pow2(log_bases as nat),
                table == self.markers_map@,
                gen@ == 1,
                dart@ == baby_step(target@, i as int),
                forall|k: int|
                    0 <= k < i ==> !#[trigger] is_hit(table, log_bases as nat, target@, k),
                log_bases == self.log_bases(),
            decreases num_steps - i,
        {
            broadcast use vstd::std_specs::hash::group_hash_axioms;

            let key = point_key(&dart);
            match self.markers_map.get(&key) {
                Some(j) => {
                    let index: usize = *j;
                    proof {
                        assert(0 <= index * num_steps <= 0xffff_ffff_ffff_ffffint
                            * 0xffff_ffff_ffff_ffffint) by (nonlinear_arith)
                            requires
                                0 <= index <= 0xffff_ffff_ffff_ffffint,
                                0 <= num_steps <= 0xffff_ffff_ffff_ffffint,
                        ;
                    }
                    let giant: u128 = (index as u128) * (num_steps as u128);
                    let ahead: u128 = i as u128 + 1;
                    if giant >= ahead {
                        let x = Scalar::from_u128(giant - ahead);
                        proof {
                            crate::field::lemma_scalar_range(x);
                            lemma_reduced(x@);
                        }
                        if gen.mul(&x).equals(target) {
                            assert(is_hit(table, log_bases as nat, target@, i as int));
                            return Some(x);
                        }
                    } else {
                        proof {
                            crate::group::lemma_gt_range(*target);
                        }
                    }
                },
                None => {},
            }
            assert(!is_hit(table, log_bases as nat, target@, i as int));
            proof {
                lemma_eqm_mod(target@ + 1 + i);
                crate::algebra::congruence::lemma_eqm_add(dart@, target@ + 1 + i, 1, 1);
            }
            dart = dart.add(&gen);
            i += 1;
        }
        None
    }
}

proof fn lemma_reduced_step(steps: int)
    requires
        0 <= steps <= u64::MAX,
    ensures
        (1 * steps) % modulus() == steps,
{
    lemma_modulus();
    lemma_reduced(steps);
}

proof fn lemma_fits_usize(bits: usize)
    requires
        bits < usize::BITS,
    ensures
        pow2(bits as nat) < usize::MAX,
{
    vstd::arithmetic::power2::lemma2_to64();
    vstd::arithmetic::power2::lemma2_to64_rest();
    if usize::BITS == 64 {
        if bits < 63 {
            vstd::arithmetic::power2::lemma_pow2_strictly_increases(bits as nat, 63);
        }
    } else {
        if bits < 31 {
            vstd::arithmetic::power2::lemma_pow2_strictly_increases(bits as nat, 31);
        }
    }
}

proof fn lemma_next_giant_step(log_bases: nat, j: int)
    ensures
        (giant_step(log_bases, j) + pow2(log_bases)) % modulus() == giant_step(log_bases, j + 1),
{
    let s = pow2(log_bases) as int;
    lemma_eqm_mod(j * s);
    crate::algebra::congruence::lemma_eqm_add((j * s) % modulus(), j * s, s, s);
    assert(j * s + s == (j + 1) * s) by (nonlinear_arith);
}

proof fn lemma_insert_giant_step(
    table: Map<u128, usize>,
    log_bases: nat,
    j: int,
    key: u128,
)
    requires
        0 <= j <= usize::MAX,
        holds_giant_steps(table, log_bases, j),
        key == dlog_key(giant_step(log_bases, j)),
    ensures
        holds_giant_steps(table.insert(key, j as usize), log_bases, j + 1),
{
    let next = table.insert(key, j as usize);
    assert forall|i: int| 0 <= i < j + 1 implies next.contains_key(
        #[trigger] dlog_key(giant_step(log_bases, i)),
    ) by {
        if i < j {
            assert(table.contains_key(dlog_key(giant_step(log_bases, i))));
        }
    }
}

/// Whether no two of the giant steps of a table share a key.
pub open spec fn has_distinct_keys(log_bases: nat, log_markers: nat) -> bool {
    forall|i: int, j: int|
        0 <= i < j <= pow2(log_markers) ==> #[trigger] dlog_key(giant_step(log_bases, i))
            != #[trigger] dlog_key(giant_step(log_bases, j))
}

/// A complete table with as many entries as it has giant steps has no two that share a key.
pub proof fn lemma_full_table_has_distinct_keys(markers: &Markers)
    requires
        markers.is_complete(),
        markers.markers_map@.dom().finite(),
        markers.markers_map@.dom().len() == pow2(markers.log_markers as nat) + 1,
    ensures
        has_distinct_keys(markers.log_bases(), markers.log_markers as nat),
{
    let table = markers.markers_map@;
    let lb = markers.log_bases();
    let n = pow2(markers.log_markers as nat) as int + 1;
    assert forall|i: int, j: int| 0 <= i < j < n implies #[trigger] dlog_key(giant_step(lb, i))
        != #[trigger] dlog_key(giant_step(lb, j)) by {
        if dlog_key(giant_step(lb, i)) == dlog_key(giant_step(lb, j)) {
            // The table holds no entry for the first of the two, so it is too small.
            let index = |k: u128| table[k] as int;
            let indices = table.dom().map(index);
            let others = set_int_range(0, n).remove(i);
            assert(injective_on(index, table.dom())) by {
                assert forall|k: u128, l: u128|
                    table.dom().contains(k) && table.dom().contains(l) && #[trigger] index(k)
                        == #[trigger] index(l) implies k == l by {
                    assert(table.contains_key(k) && table.contains_key(l));
                }
            }
            lemma_map_size(table.dom(), indices, index);
            assert forall|x: int| #[trigger] indices.contains(x) implies others.contains(x) by {
                let k = choose|k: u128| table.dom().contains(k) && index(k) == x;
                assert(table.contains_key(k));
                assert(k == dlog_key(giant_step(lb, table[k] as int)));
                if x == i {
                    assert(k == dlog_key(giant_step(lb, j)));
                }
            }
            lemma_int_range(0, n);
            lemma_len_subset(indices, others);
        }
    }
}

/// The last giant step is far below the order of the group.
proof fn lemma_table_size(markers: &Markers)
    requires
        markers.is_complete(),
    ensures
        pow2(markers.log_bases()) * pow2(markers.log_markers as nat) == pow2(
            markers.log_max_input as nat,
        ),
        pow2(markers.log_max_input as nat) + pow2(markers.log_bases()) + 1 < modulus(),
        1 <= pow2(markers.log_bases()),
{
    let lb = markers.log_bases();
    lemma_pow2_adds(lb, markers.log_markers as nat);
    lemma_pow2_pos(lb);
    lemma_modulus();
    lemma_pow2_adds(64, 64);
    vstd::arithmetic::power2::lemma2_to64();
    vstd::arithmetic::power2::lemma_pow2_strictly_increases(lb, 64);
    vstd::arithmetic::power2::lemma_pow2_strictly_increases(markers.log_max_input as nat, 128);
}

/// The search in a complete table finds the logarithm of the target if it is in range, provided that
/// no two giant steps share a key, and finds nothing if it is out of range.
pub proof fn lemma_dlog_recovered(markers: &Markers, target: int)
    requires
        markers.is_complete(),
        0 <= target < modulus(),
    ensures
        target >= pow2(markers.log_max_input as nat) ==> search_result(
            markers.markers_map@,
            markers.log_bases(),
            target,
        ) is None,
        target < pow2(markers.log_max_input as nat) && has_distinct_keys(
            markers.log_bases(),
            markers.log_markers as nat,
        ) ==> search_result(markers.markers_map@, markers.log_bases(), target) == Some(target),
{
    let table = markers.markers_map@;
    let lb = markers.log_bases();
    let s = pow2(lb) as int;
    let m = pow2(markers.log_markers as nat) as int;
    lemma_table_size(markers);
    if target < s * m {
        let j = target / s + 1;
        let i = j * s - target - 1;
        assert(0 <= i < s && 1 <= j <= m) by (nonlinear_arith)
            requires
                s >= 1,
                0 <= target < s * m,
                j == target / s + 1,
                i == j * s - target - 1,
        ;
        assert(baby_step(target, i) == giant_step(lb, j));
        let key = dlog_key(giant_step(lb, j));
        assert(table.contains_key(key));
        if has_distinct_keys(lb, markers.log_markers as nat) {
            assert(key == dlog_key(giant_step(lb, table[key] as int)));
            assert(table[key] == j);
            assert(is_hit(table, lb, target, i));
        }
    } else {
        assert forall|i: int| !#[trigger] is_hit(table, lb, target, i) by {
            if is_hit(table, lb, target, i) {
                let key = dlog_key(baby_step(target, i));
                let l = table[key] as int;
                assert(table.contains_key(key));
                assert(l * s <= m * s) by (nonlinear_arith)
                    requires
                        l <= m,
                        s >= 1,
                ;
                assert(m * s == s * m) by (nonlinear_arith);
            }
        }
    }
}

} // verus!
