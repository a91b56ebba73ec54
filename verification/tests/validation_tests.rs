use feox_vector::query::{ann_search_limits, validate_query};
use feox_vector::validation::{
    ann_candidate_limit, ann_ef_search, query_limit, validate_metadata, validate_scope,
    validate_min_score, validate_segment, validate_upsert_len, validate_values,
};
use feox_vector::VectorError;

fn message<T>(result: Result<T, VectorError>) -> String {
    match result {
        Err(VectorError::Invalid(message)) => message,
        Err(_) => panic!("expected an invalid-input error, got another error"),
        Ok(_) => panic!("expected an invalid-input error, got a value"),
    }
}

fn bits(values: &[f32]) -> Vec<u32> {
    values.iter().map(|v| v.to_bits()).collect()
}

#[test]
fn segments_must_be_non_blank_slash_free_and_short() {
    let expected = "namespace cannot be empty, contain /, or exceed 512 bytes";
    assert_eq!(message(validate_segment("", "namespace")), expected);
    assert_eq!(message(validate_segment(" \t\n", "namespace")), expected);
    assert_eq!(message(validate_segment("a/b", "namespace")), expected);
    assert_eq!(message(validate_segment(&"x".repeat(513), "namespace")), expected);
    assert!(validate_segment(&"x".repeat(512), "namespace").is_ok());
    assert!(validate_segment(" padded ", "vector_id").is_ok());
    assert_eq!(
        message(validate_segment(&"\u{e9}".repeat(257), "vector_id")),
        "vector_id cannot be empty, contain /, or exceed 512 bytes"
    );
}

#[test]
fn scope_reports_the_first_bad_segment() {
    assert_eq!(
        message(validate_scope("ns", "", "a/b")),
        "index cannot be empty, contain /, or exceed 512 bytes"
    );
    assert_eq!(
        message(validate_scope("ns", "idx", "a/b")),
        "partition cannot be empty, contain /, or exceed 512 bytes"
    );
    assert!(validate_scope("ns", "idx", "part").is_ok());
}

#[test]
fn upserts_hold_one_to_128_records() {
    assert_eq!(
        message(validate_upsert_len(0)),
        "upsert must contain 1 to 128 records"
    );
    assert_eq!(
        message(validate_upsert_len(129)),
        "upsert must contain 1 to 128 records"
    );
    assert!(validate_upsert_len(1).is_ok());
    assert!(validate_upsert_len(128).is_ok());
}

#[test]
fn vectors_have_1_to_4096_finite_values() {
    assert_eq!(
        message(validate_values(&[])),
        "vector must contain 1 to 4096 dimensions"
    );
    assert_eq!(
        message(validate_values(&vec![0u32; 4097])),
        "vector must contain 1 to 4096 dimensions"
    );
    assert_eq!(
        message(validate_values(&bits(&[1.0, f32::NAN]))),
        "vector values must be finite numbers"
    );
    assert_eq!(
        message(validate_values(&bits(&[f32::NEG_INFINITY]))),
        "vector values must be finite numbers"
    );
    assert!(validate_values(&bits(&[0.0, -0.0, f32::MAX, f32::MIN_POSITIVE])).is_ok());
    assert!(validate_values(&vec![0u32; 4096]).is_ok());
}

#[test]
fn metadata_text_is_at_most_16384_bytes() {
    assert!(validate_metadata(&vec![b'x'; 16384]).is_ok());
    assert_eq!(
        message(validate_metadata(&vec![b'x'; 16385])),
        "metadata cannot exceed 16384 bytes"
    );
}

#[test]
fn query_limits_default_and_bounds() {
    assert_eq!(query_limit(None).ok(), Some(10));
    assert_eq!(query_limit(Some(100)).ok(), Some(100));
    assert_eq!(message(query_limit(Some(0))), "top_k must be between 1 and 100");
    assert_eq!(message(query_limit(Some(101))), "top_k must be between 1 and 100");

    assert_eq!(ann_candidate_limit(None, 5).ok(), Some(64));
    assert_eq!(ann_candidate_limit(None, 10).ok(), Some(80));
    assert_eq!(ann_candidate_limit(Some(10), 10).ok(), Some(10));
    assert_eq!(
        message(ann_candidate_limit(Some(3), 5)),
        "candidate_limit must be between top_k and 10000"
    );
    assert_eq!(
        message(ann_candidate_limit(Some(10_001), 5)),
        "candidate_limit must be between top_k and 10000"
    );

    assert_eq!(ann_ef_search(None, 80).ok(), Some(80));
    assert_eq!(ann_ef_search(None, 10).ok(), Some(64));
    assert_eq!(
        message(ann_ef_search(Some(5), 10)),
        "ef_search must be between candidate_limit and 10000"
    );
    assert_eq!(
        message(ann_ef_search(None, 10_001)),
        "ef_search must be between candidate_limit and 10000"
    );
}

#[test]
fn query_inputs_are_checked_in_order() {
    let good = bits(&[1.0, 0.0]);
    assert_eq!(
        validate_query("ns", "idx", "part", &good, b"{}", None).ok(),
        Some(10)
    );
    assert_eq!(
        message(validate_query("ns", "idx", "a/b", &[], b"{}", Some(0))),
        "partition cannot be empty, contain /, or exceed 512 bytes"
    );
    assert_eq!(
        message(validate_query("ns", "idx", "part", &[], b"{}", Some(0))),
        "vector must contain 1 to 4096 dimensions"
    );
    assert_eq!(
        message(validate_query("ns", "idx", "part", &bits(&[f32::NAN]), b"{}", Some(0))),
        "vector values must be finite numbers"
    );
    assert_eq!(
        message(validate_query("ns", "idx", "part", &good, &vec![b' '; 16385], Some(0))),
        "metadata cannot exceed 16384 bytes"
    );
    assert_eq!(
        message(validate_query("ns", "idx", "part", &good, b"{}", Some(0))),
        "top_k must be between 1 and 100"
    );
}

#[test]
fn ann_search_limits_scale_with_filters() {
    assert_eq!(ann_search_limits(None, None, true, 10).ok(), Some((320, 320)));
    assert_eq!(ann_search_limits(None, None, true, 1).ok(), Some((256, 256)));
    assert_eq!(ann_search_limits(None, None, false, 10).ok(), Some((80, 80)));
    assert_eq!(ann_search_limits(Some(20), Some(100), true, 10).ok(), Some((20, 100)));
    assert_eq!(
        message(ann_search_limits(Some(5), None, false, 10)),
        "candidate_limit must be between top_k and 10000"
    );
    assert_eq!(
        message(ann_search_limits(None, Some(10), false, 10)),
        "ef_search must be between candidate_limit and 10000"
    );
}

#[test]
fn blank_means_unicode_white_space_only() {
    let expected = "partition cannot be empty, contain /, or exceed 512 bytes";
    assert_eq!(message(validate_segment("\u{3000}\u{a0}\u{2028}", "partition")), expected);
    assert_eq!(message(validate_segment("\u{85}\u{205f}\u{b}", "partition")), expected);
    assert!(validate_segment("\u{200b}", "partition").is_ok());
    assert!(validate_segment("\u{feff}", "partition").is_ok());
    assert!(validate_segment("\u{3000}x", "partition").is_ok());
}

#[test]
fn min_score_must_be_finite_when_given() {
    assert!(validate_min_score(None).is_ok());
    assert!(validate_min_score(Some(0.25f32.to_bits())).is_ok());
    assert!(validate_min_score(Some((-1.0f32).to_bits())).is_ok());
    assert_eq!(
        message(validate_min_score(Some(f32::NAN.to_bits()))),
        "min_score must be a finite number"
    );
    assert_eq!(
        message(validate_min_score(Some(f32::INFINITY.to_bits()))),
        "min_score must be a finite number"
    );
}
