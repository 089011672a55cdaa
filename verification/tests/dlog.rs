use silent_batched_threshold_encryption::bte::encryption::CHUNK_BITS;
use silent_batched_threshold_encryption::dlog::{
    assert_homomorphic_batch_safe, max_chunk_value, max_dlog_exponent, max_homomorphic_batch_size,
    HomomorphicBatchTooLarge, Markers, DLOG_KEY_BYTES, DLOG_MARKER_BITS, DLOG_RANGE_BITS,
    DLOG_STEP_BITS,
};
use silent_batched_threshold_encryption::field::Scalar;
use silent_batched_threshold_encryption::group::Gt;

#[test]
fn test_compute_dlog() {
    let should_be_dlog = Scalar::from_u64(100);
    let target = Gt::generator().mul(&should_be_dlog);

    let markers = Markers::new();

    let computed_dlog = markers.compute_dlog(&target).unwrap();
    assert_eq!(computed_dlog, should_be_dlog);
}

#[test]
fn test_compute_dlog_large() {
    let markers = Markers::new();
    // 512 ciphertexts with the largest chunk in a slot.
    let large_val = 33_553_920u128;
    let target = Gt::generator().mul(&Scalar::from_u128(large_val));
    let result = markers.compute_dlog(&target).unwrap();
    assert_eq!(result, Scalar::from_u128(large_val));
}

#[test]
fn max_batch_with_bsgs() {
    assert_eq!(max_homomorphic_batch_size(CHUNK_BITS, DLOG_RANGE_BITS), 512);
    assert_eq!(
        max_homomorphic_batch_size(8, DLOG_RANGE_BITS),
        (max_dlog_exponent(DLOG_RANGE_BITS) / max_chunk_value(8)) as usize
    );
}

#[test]
fn parameters_fit_together() {
    assert_eq!(DLOG_STEP_BITS, DLOG_RANGE_BITS - DLOG_MARKER_BITS);
    assert_eq!(DLOG_KEY_BYTES, 16);
    assert_eq!(max_chunk_value(0), 0);
    assert_eq!(max_chunk_value(16), 65_535);
    assert_eq!(max_dlog_exponent(25), 33_554_431);
    assert_eq!(max_chunk_value(127), u128::MAX / 2);
}

#[test]
fn bound_saturates() {
    assert_eq!(max_homomorphic_batch_size(0, 25), usize::MAX);
    assert_eq!(max_homomorphic_batch_size(1, 127), usize::MAX);
    assert_eq!(max_homomorphic_batch_size(25, 25), 1);
    assert_eq!(max_homomorphic_batch_size(26, 25), 0);
}

#[test]
fn batches_beyond_the_bound_are_refused() {
    assert_eq!(assert_homomorphic_batch_safe(512, 16, 25), Ok(()));
    assert_eq!(
        assert_homomorphic_batch_safe(513, 16, 25),
        Err(HomomorphicBatchTooLarge { batch_size: 513, max_batch_size: 512 })
    );
}

#[test]
fn small_table_covers_exactly_its_range() {
    let markers = Markers::with_params(6, 3);
    assert_eq!(markers.log_max_input, 6);
    assert_eq!(markers.log_markers, 3);
    assert_eq!(markers.markers_map.len(), 9);
    for x in 0..64u64 {
        let target = Gt::generator().mul(&Scalar::from_u64(x));
        assert_eq!(markers.compute_dlog(&target), Some(Scalar::from_u64(x)));
    }
    for x in [64u64, 65, 100, 1 << 20] {
        let target = Gt::generator().mul(&Scalar::from_u64(x));
        assert_eq!(markers.compute_dlog(&target), None);
    }
}

#[test]
fn negative_exponents_are_out_of_range() {
    let markers = Markers::with_params(6, 3);
    for x in 1..20u64 {
        let target = Gt::generator().mul(&Scalar::from_u64(x).neg());
        assert_eq!(markers.compute_dlog(&target), None);
    }
}

#[test]
fn tables_without_baby_steps_or_giant_steps() {
    let giants = Markers::with_params(4, 4);
    let babies = Markers::with_params(4, 0);
    for x in 0..16u64 {
        let target = Gt::generator().mul(&Scalar::from_u64(x));
        assert_eq!(giants.compute_dlog(&target), Some(Scalar::from_u64(x)));
        assert_eq!(babies.compute_dlog(&target), Some(Scalar::from_u64(x)));
    }
    let target = Gt::generator().mul(&Scalar::from_u64(16));
    assert_eq!(giants.compute_dlog(&target), None);
    assert_eq!(babies.compute_dlog(&target), None);
}

#[test]
fn a_table_outlives_its_copy() {
    let markers = Markers::with_params(6, 2);
    let copy = Markers {
        log_max_input: markers.log_max_input,
        log_markers: markers.log_markers,
        markers_map: markers.markers_map.clone(),
    };
    let target = Gt::generator().mul(&Scalar::from_u64(37));
    assert_eq!(copy.compute_dlog(&target), markers.clone().compute_dlog(&target));
}

#[test]
fn the_default_table_has_an_entry_for_every_giant_step() {
    assert_eq!(Markers::new().markers_map.len(), (1 << DLOG_MARKER_BITS) + 1);
}
