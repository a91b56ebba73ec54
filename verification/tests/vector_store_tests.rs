use feox_vector::keys::{record_key, record_prefix};
use feox_vector::store::{millis_to_u64, now_ms, rank_order, score_key, RankKey};
use feox_vector::{
    Store, StoreConfig, VectorDeleteInput, VectorError, VectorStore, VectorUpsertInput,
    VectorUpsertRecord,
};

fn message<T>(result: Result<T, VectorError>) -> String {
    match result {
        Err(VectorError::Invalid(message)) => message,
        Err(_) => panic!("expected an invalid-input error, got another error"),
        Ok(_) => panic!("expected an invalid-input error, got a value"),
    }
}

fn memory_store() -> VectorStore {
    VectorStore::new(Store::open(StoreConfig::default()).ok().unwrap())
}

fn record(id: &str, values: &[f32], metadata: &str) -> VectorUpsertRecord {
    VectorUpsertRecord {
        id: id.to_string(),
        values: values.iter().map(|v| v.to_bits()).collect(),
        metadata: metadata.as_bytes().to_vec(),
    }
}

fn upsert(store: &VectorStore, part: &str, records: Vec<VectorUpsertRecord>) -> usize {
    let mut wrote_any = false;
    let result = store
        .upsert("ns", "idx", part, VectorUpsertInput { records }, &mut wrote_any).0
        .ok()
        .unwrap();
    assert!(wrote_any);
    result.upserted
}

#[test]
fn upsert_then_read_back() {
    let store = memory_store();
    let count = upsert(
        &store,
        "p",
        vec![
            record("a", &[1.0, 0.0], r#"{"tag":"x"}"#),
            record("b", &[0.0, 1.0], "{}"),
        ],
    );
    assert_eq!(count, 2);
    let a = store
        .get_record(&record_key("ns", "idx", "p", "a")).0
        .ok()
        .unwrap()
        .unwrap();
    assert_eq!(a.id, "a");
    assert_eq!(a.values, vec![1.0f32.to_bits(), 0.0f32.to_bits()]);
    assert_eq!(a.metadata, br#"{"tag":"x"}"#.to_vec());
    assert_eq!(a.created_at_ms, a.updated_at_ms);
    assert!(store
        .get_record(&record_key("ns", "idx", "p", "missing")).0
        .ok()
        .unwrap()
        .is_none());
}

#[test]
fn replacing_a_record_keeps_its_creation_time() {
    let store = memory_store();
    upsert(&store, "p", vec![record("a", &[1.0], "{}")]);
    let first = store
        .get_record(&record_key("ns", "idx", "p", "a")).0
        .ok()
        .unwrap()
        .unwrap();
    while now_ms().ok().unwrap() <= first.updated_at_ms {}
    upsert(&store, "p", vec![record("a", &[2.0], r#"{"v":2}"#)]);
    let second = store
        .get_record(&record_key("ns", "idx", "p", "a")).0
        .ok()
        .unwrap()
        .unwrap();
    assert_eq!(second.created_at_ms, first.created_at_ms);
    assert!(second.updated_at_ms > first.updated_at_ms);
    assert_eq!(second.values, vec![2.0f32.to_bits()]);
}

#[test]
fn upsert_refusals() {
    let store = memory_store();
    let mut wrote_any = false;
    let bad_scope = store.upsert(
        "",
        "idx",
        "p",
        VectorUpsertInput {
            records: vec![record("a", &[1.0], "{}")],
        },
        &mut wrote_any,
    ).0;
    assert_eq!(
        message(bad_scope),
        "namespace cannot be empty, contain /, or exceed 512 bytes"
    );
    assert!(!wrote_any);
    assert_eq!(
        message(store.upsert(
            "ns",
            "idx",
            "p",
            VectorUpsertInput { records: vec![] },
            &mut wrote_any
        ).0),
        "upsert must contain 1 to 128 records"
    );
    assert!(!wrote_any);

    let partial = store.upsert(
        "ns",
        "idx",
        "p",
        VectorUpsertInput {
            records: vec![record("a", &[1.0], "{}"), record("b/c", &[1.0], "{}")],
        },
        &mut wrote_any,
    ).0;
    assert_eq!(
        message(partial),
        "vector_id cannot be empty, contain /, or exceed 512 bytes"
    );
    assert!(wrote_any);
    assert!(store
        .get_record(&record_key("ns", "idx", "p", "a")).0
        .ok()
        .unwrap()
        .is_some());

    let mut wrote = false;
    assert_eq!(
        message(store.upsert(
            "ns",
            "idx",
            "p",
            VectorUpsertInput {
                records: vec![record("n", &[f32::NAN], "{}")],
            },
            &mut wrote
        ).0),
        "vector values must be finite numbers"
    );
    assert_eq!(
        message(store.upsert(
            "ns",
            "idx",
            "p",
            VectorUpsertInput {
                records: vec![VectorUpsertRecord {
                    id: "big".to_string(),
                    values: vec![0],
                    metadata: vec![b' '; 16385],
                }],
            },
            &mut wrote
        ).0),
        "metadata cannot exceed 16384 bytes"
    );
    assert!(!wrote);
}

#[test]
fn delete_counts_the_records_that_were_there() {
    let store = memory_store();
    upsert(
        &store,
        "p",
        vec![record("a", &[1.0], "{}"), record("b", &[1.0], "{}")],
    );
    let mut deleted_any = false;
    let result = store
        .delete(
            "ns",
            "idx",
            "p",
            VectorDeleteInput {
                ids: vec!["a".to_string(), "missing".to_string()],
            },
            &mut deleted_any,
        ).0
        .ok()
        .unwrap();
    assert_eq!(result.deleted, 1);
    assert!(deleted_any);
    assert!(store
        .get_record(&record_key("ns", "idx", "p", "a")).0
        .ok()
        .unwrap()
        .is_none());

    let mut none = false;
    assert_eq!(
        store
            .delete(
                "ns",
                "idx",
                "p",
                VectorDeleteInput {
                    ids: vec!["a".to_string()],
                },
                &mut none
            ).0
            .ok()
            .unwrap()
            .deleted,
        0
    );
    assert!(!none);
    assert_eq!(
        message(store.delete(
            "ns",
            "idx",
            "p",
            VectorDeleteInput {
                ids: vec!["".to_string()],
            },
            &mut none
        ).0),
        "vector_id cannot be empty, contain /, or exceed 512 bytes"
    );
}

#[test]
fn scan_pages_through_one_collection_in_key_order() {
    let store = memory_store();
    upsert(
        &store,
        "p",
        vec![
            record("c", &[1.0], "{}"),
            record("a", &[1.0, 2.0], "{}"),
            record("b", &[1.0], "{}"),
        ],
    );
    upsert(&store, "q", vec![record("z", &[1.0], "{}")]);
    let prefix = record_prefix("ns", "idx", "p");
    let page = store.scan_page(&prefix, None).0.ok().unwrap();
    let ids: Vec<&str> = page.records.iter().map(|r| r.id.as_str()).collect();
    assert_eq!(ids, vec!["a", "b", "c"]);
    assert_eq!(page.records[0].values.len(), 2);
    let last = page.last_key.unwrap();
    assert_eq!(last, record_key("ns", "idx", "p", "c"));
    let next = store.scan_page(&prefix, Some(last.as_str())).0.ok().unwrap();
    assert!(next.records.is_empty());
    assert!(next.last_key.is_none());
    let after_a = store
        .scan_page(&prefix, Some(record_key("ns", "idx", "p", "a").as_str())).0
        .ok()
        .unwrap();
    let ids: Vec<&str> = after_a.records.iter().map(|r| r.id.as_str()).collect();
    assert_eq!(ids, vec!["b", "c"]);
}

#[test]
fn fetch_follows_the_order_of_the_ids() {
    let store = memory_store();
    upsert(
        &store,
        "p",
        vec![record("a", &[1.0], "{}"), record("b", &[2.0], "{}")],
    );
    let found = store
        .fetch_records("ns", "idx", "p", &["b", "missing", "a"]).0
        .ok()
        .unwrap();
    assert_eq!(found.len(), 3);
    assert_eq!(found[0].as_ref().unwrap().id, "b");
    assert!(found[1].is_none());
    assert_eq!(found[2].as_ref().unwrap().id, "a");
}

fn key(score: f32, updated_at_ms: u64, id: &str) -> RankKey {
    RankKey {
        score: score_key(score.to_bits()),
        updated_at_ms,
        id: id.to_string(),
    }
}

#[test]
fn score_keys_order_as_the_scores() {
    let scores = [f32::MIN, -1.0, -0.5, 0.0, 1e-30, 0.5, 1.0, f32::MAX];
    for pair in scores.windows(2) {
        assert!(score_key(pair[0].to_bits()) < score_key(pair[1].to_bits()));
    }
    assert_eq!(score_key(0.0f32.to_bits()), score_key((-0.0f32).to_bits()));
    assert_eq!(score_key(0.0f32.to_bits()), 0x8000_0000);
}

#[test]
fn ranking_is_by_score_then_recency_then_id() {
    let keys = vec![
        key(0.5, 1, "low"),
        key(0.9, 1, "b"),
        key(0.9, 5, "recent"),
        key(0.9, 1, "a"),
        key(-0.2, 9, "negative"),
    ];
    assert_eq!(rank_order(&keys, 10), vec![2, 3, 1, 0, 4]);
    assert_eq!(rank_order(&keys, 2), vec![2, 3]);
    assert!(rank_order(&keys, 0).is_empty());
    assert!(rank_order(&Vec::new(), 3).is_empty());
}

#[test]
fn equal_keys_keep_their_order() {
    let keys = vec![key(0.3, 1, "same"), key(0.3, 1, "same"), key(0.7, 1, "top")];
    assert_eq!(rank_order(&keys, 3), vec![2, 0, 1]);
}

#[test]
fn clock_reads_milliseconds_since_the_epoch() {
    let now = now_ms().ok().unwrap();
    assert!(now > 1_600_000_000_000);
}

#[test]
fn the_key_value_store_refuses_empty_and_oversized_keys_and_values() {
    let store = Store::open(StoreConfig::default()).ok().unwrap();
    assert!(store.put_bytes("", b"v").0.is_err());
    assert!(store.put_bytes("k", b"").0.is_err());
    assert!(store.put_bytes(&"k".repeat(102_401), b"v").0.is_err());
    assert!(store.get_bytes("").0.is_err());
    assert!(store.delete("").0.is_err());
    assert!(store.list_prefix("", 0).0.ok().unwrap().is_empty());
    assert!(store.list_prefix(&"p".repeat(102_400), 1).0.is_err());
    assert!(store
        .list_prefix_after("p", Some("k".repeat(102_400).as_str()), 1).0
        .is_err());

    assert!(store.put_bytes("k", b"v").0.ok().unwrap());
    assert_eq!(store.get_bytes("k").0.ok().unwrap(), Some(b"v".to_vec()));
    assert!(store.get_bytes("other").0.ok().unwrap().is_none());
    assert!(store.delete("k").0.ok().unwrap());
    assert!(!store.delete("k").0.ok().unwrap());

    let vectors = VectorStore::new(store);
    assert!(matches!(
        vectors.get_record("").0,
        Err(VectorError::Store(_))
    ));
}

#[test]
fn upsert_refuses_metadata_that_is_not_an_object() {
    let store = memory_store();
    let mut wrote = false;
    let result = store.upsert(
        "ns",
        "idx",
        "p",
        VectorUpsertInput {
            records: vec![record("a", &[1.0], "[1]")],
        },
        &mut wrote,
    ).0;
    assert!(matches!(result, Err(VectorError::Json(_))));
    assert!(!wrote);
}

#[test]
fn ann_scan_keeps_the_records_of_its_dimensions() {
    let store = memory_store();
    upsert(
        &store,
        "p",
        vec![
            record("a", &[1.0, 0.0], r#"{"k":1}"#),
            record("b", &[1.0], "{}"),
            record("c", &[0.0, 1.0], "{}"),
        ],
    );
    let prefix = record_prefix("ns", "idx", "p");
    let page = store.scan_ann_page(&prefix, None, 2).0.ok().unwrap();
    let ids: Vec<&str> = page.records.iter().map(|r| r.id.as_str()).collect();
    assert_eq!(ids, vec!["a", "c"]);
    assert_eq!(page.records[0].metadata, br#"{"k":1}"#.to_vec());
    assert_eq!(page.last_key.unwrap(), record_key("ns", "idx", "p", "c"));
    let one = store.scan_ann_page(&prefix, None, 1).0.ok().unwrap();
    assert_eq!(one.records.len(), 1);
    assert_eq!(one.records[0].id, "b");
}

#[test]
fn deletes_records() {
    let store = memory_store();
    let mut wrote = false;
    store
        .upsert(
            "ns-a",
            "memory",
            "user-a",
            VectorUpsertInput {
                records: vec![record("one", &[1.0], "{}")],
            },
            &mut wrote,
        )
        .0
        .ok()
        .unwrap();
    let mut deleted_any = false;
    let deleted = store
        .delete(
            "ns-a",
            "memory",
            "user-a",
            VectorDeleteInput {
                ids: vec!["one".to_string()],
            },
            &mut deleted_any,
        )
        .0
        .ok()
        .unwrap();
    assert_eq!(deleted.deleted, 1);
    let page = store
        .scan_page(&record_prefix("ns-a", "memory", "user-a"), None)
        .0
        .ok()
        .unwrap();
    assert!(page.records.is_empty());
    assert!(page.last_key.is_none());
}

#[test]
fn milliseconds_wrap_modulo_two_to_the_64() {
    assert_eq!(millis_to_u64(1_700_000_000_123), 1_700_000_000_123);
    assert_eq!(millis_to_u64(u64::MAX as u128), u64::MAX);
    assert_eq!(millis_to_u64((1u128 << 64) + 5), 5);
}
