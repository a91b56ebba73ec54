use feox_vector::codec::DecodedRecord;
use feox_vector::json::JsonValue;
use feox_vector::keys::record_prefix;
use feox_vector::query::{plan_filtered_search, record_matches, FilteredSearch};
use feox_vector::store::{rank_order, score_key, RankKey};
use feox_vector::{
    MetadataFilterIndex, Store, StoreConfig, VectorMetadata, VectorStore, VectorUpsertInput,
    VectorUpsertRecord,
};
use serde_json::Value;

fn to_json(value: &Value) -> JsonValue {
    match value {
        Value::Null => JsonValue::Null,
        Value::Bool(b) => JsonValue::Bool(*b),
        Value::Number(n) => JsonValue::Number(n.to_string()),
        Value::String(s) => JsonValue::Str(s.clone()),
        Value::Array(items) => JsonValue::Array(items.iter().map(to_json).collect()),
        Value::Object(map) => JsonValue::Object(
            map.iter()
                .map(|(k, v)| (k.clone(), to_json(v)))
                .collect(),
        ),
    }
}

fn metadata_bytes(bytes: &[u8]) -> VectorMetadata {
    let value: Value = serde_json::from_slice(bytes).unwrap();
    match to_json(&value) {
        JsonValue::Object(entries) => entries,
        _ => panic!("metadata must be an object"),
    }
}

fn metadata(text: &str) -> VectorMetadata {
    metadata_bytes(text.as_bytes())
}

fn record(id: &str, values: &[f32], metadata: &str) -> VectorUpsertRecord {
    VectorUpsertRecord {
        id: id.to_string(),
        values: values.iter().map(|v| v.to_bits()).collect(),
        metadata: metadata.as_bytes().to_vec(),
    }
}

fn cosine(left: &[f32], right: &[f32]) -> f32 {
    let dot: f32 = left.iter().zip(right).map(|(a, b)| a * b).sum();
    let l: f32 = left.iter().map(|a| a * a).sum::<f32>().sqrt();
    let r: f32 = right.iter().map(|a| a * a).sum::<f32>().sqrt();
    dot / (l * r)
}

/// Scans one collection, keeps the candidates of the filter, scores them in
/// the test and ranks them with the library.
fn exact_ids(store: &VectorStore, part: &str, query: &[f32], filter: &str, limit: usize) -> Vec<String> {
    let filter = metadata(filter);
    let prefix = record_prefix("ns-a", "memory", part);
    let mut keys = Vec::new();
    let mut ids = Vec::new();
    let mut after: Option<String> = None;
    loop {
        let page = store.scan_page(&prefix, after.as_deref()).0.ok().unwrap();
        let Some(last) = page.last_key else { break };
        after = Some(last);
        for rec in page.records {
            if !record_matches(&rec, &metadata_bytes(&rec.metadata), query.len(), &filter) {
                continue;
            }
            let values: Vec<f32> = rec.values.iter().map(|b| f32::from_bits(*b)).collect();
            let score = cosine(query, &values);
            keys.push(RankKey {
                score: score_key(score.to_bits()),
                updated_at_ms: rec.updated_at_ms,
                id: rec.id.clone(),
            });
            ids.push(rec.id);
        }
    }
    rank_order(&keys, limit)
        .into_iter()
        .map(|p| ids[p].clone())
        .collect()
}

#[test]
fn scan_filter_and_rank_a_partition() {
    let store = VectorStore::new(Store::open(StoreConfig::default()).ok().unwrap());
    let mut wrote = false;
    store
        .upsert(
            "ns-a",
            "memory",
            "user-a",
            VectorUpsertInput {
                records: vec![
                    record("north", &[1.0, 0.0], r#"{"userId":"user-a"}"#),
                    record("east", &[0.0, 1.0], r#"{"userId":"user-a"}"#),
                    record("diag", &[1.0, 1.0], r#"{"userId":"user-b"}"#),
                    record("flat", &[1.0, 0.0, 0.0], r#"{"userId":"user-a"}"#),
                ],
            },
            &mut wrote,
        ).0
        .ok()
        .unwrap();
    store
        .upsert(
            "ns-a",
            "memory",
            "user-b",
            VectorUpsertInput {
                records: vec![record("other", &[1.0, 0.0], "{}")],
            },
            &mut wrote,
        ).0
        .ok()
        .unwrap();

    assert_eq!(
        exact_ids(&store, "user-a", &[1.0, 0.1], "{}", 10),
        vec!["north", "diag", "east"]
    );
    assert_eq!(
        exact_ids(&store, "user-a", &[1.0, 0.1], r#"{"userId":{"$eq":"user-a"}}"#, 10),
        vec!["north", "east"]
    );
    assert_eq!(exact_ids(&store, "user-a", &[1.0, 0.1], "{}", 1), vec!["north"]);
    assert_eq!(exact_ids(&store, "user-b", &[1.0, 0.0], "{}", 10), vec!["other"]);
}

#[test]
fn candidates_need_the_dimensions_and_the_filter() {
    let rec = DecodedRecord {
        id: "a".to_string(),
        values: vec![0, 0],
        metadata: b"{}".to_vec(),
        created_at_ms: 0,
        updated_at_ms: 0,
    };
    let md = metadata(r#"{"k":"v"}"#);
    assert!(record_matches(&rec, &md, 2, &metadata(r#"{"k":"v"}"#)));
    assert!(!record_matches(&rec, &md, 3, &metadata(r#"{"k":"v"}"#)));
    assert!(!record_matches(&rec, &md, 2, &metadata(r#"{"k":"w"}"#)));
    assert!(record_matches(&rec, &md, 2, &metadata("{}")));
}

#[test]
fn filtered_searches_are_planned_by_selectivity() {
    let mut index = MetadataFilterIndex::new();
    for n in 0..4097 {
        let tag = if n < 3 { "rare" } else { "common" };
        index.insert(&format!("id-{n}"), &metadata(&format!(r#"{{"tag":"{tag}"}}"#)));
    }

    let nothing = metadata(r#"{"tag":"absent"}"#);
    assert!(matches!(
        plan_filtered_search(&index.compile(&nothing), true),
        FilteredSearch::NoMatches
    ));

    let rare = metadata(r#"{"tag":"rare"}"#);
    match plan_filtered_search(&index.compile(&rare), true) {
        FilteredSearch::ExactIds(mut ids) => {
            ids.sort_unstable();
            assert_eq!(ids, vec!["id-0", "id-1", "id-2"]);
        }
        _ => panic!("a selective filter is answered from its ids"),
    }

    let any = metadata(r#"{"tag":{"$in":["rare","common"]}}"#);
    assert!(matches!(
        plan_filtered_search(&index.compile(&any), true),
        FilteredSearch::Search { filtered: true }
    ));

    let empty = metadata("{}");
    assert!(matches!(
        plan_filtered_search(&index.compile(&empty), false),
        FilteredSearch::Search { filtered: false }
    ));

    let no_exclusions = metadata(r#"{"tag":{"$nin":[]}}"#);
    assert!(matches!(
        plan_filtered_search(&index.compile(&no_exclusions), true),
        FilteredSearch::Search { filtered: false }
    ));
}
