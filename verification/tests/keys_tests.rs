use feox_vector::keys::{record_id_from_key, record_key, record_prefix, scope_key};

#[test]
fn keys_nest_records_under_their_collection() {
    assert_eq!(record_prefix("ns", "idx", "part"), "vector/ns/idx/part/record/");
    assert_eq!(
        record_key("ns", "idx", "part", "doc-1"),
        "vector/ns/idx/part/record/doc-1"
    );
    assert_eq!(scope_key("ns", "idx", "part"), "ns/idx/part");
}

#[test]
fn record_id_is_what_follows_the_last_slash() {
    assert_eq!(record_id_from_key("vector/ns/idx/part/record/doc-1"), "doc-1");
    assert_eq!(record_id_from_key("plain"), "plain");
    assert_eq!(record_id_from_key("ends/with/"), "");
    assert_eq!(
        record_id_from_key(&record_key("a", "b", "c", "id-\u{e9}")),
        "id-\u{e9}"
    );
}

#[test]
fn a_collection_prefix_reaches_only_its_own_records() {
    let prefix = record_prefix("ns", "idx", "p");
    assert!(record_key("ns", "idx", "p", "a").starts_with(&prefix));
    assert!(!record_key("ns", "idx", "p2", "a").starts_with(&prefix));
    assert!(!record_key("ns", "idx2", "p", "a").starts_with(&prefix));
    assert!(!record_key("ns2", "idx", "p", "a").starts_with(&prefix));
    assert!(!record_key("ns", "idx", "q", "p/record/a").starts_with(&prefix));
}
