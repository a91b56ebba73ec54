use feox_vector::json::JsonValue;
use feox_vector::{metadata_matches_filter, MetadataFilterIndex, VectorMetadata};
use serde_json::Value;

fn to_json(value: &Value) -> JsonValue {
    match value {
        Value::Null => JsonValue::Null,
        Value::Bool(b) => JsonValue::Bool(*b),
        Value::Number(_) => JsonValue::Number(serde_json::to_string(value).unwrap()),
        Value::String(s) => JsonValue::Str(s.clone()),
        Value::Array(items) => JsonValue::Array(items.iter().map(to_json).collect()),
        Value::Object(map) => JsonValue::Object(
            map.iter()
                .map(|(k, v)| (k.clone(), to_json(v)))
                .collect(),
        ),
    }
}

fn metadata(text: &str) -> VectorMetadata {
    let value: Value = serde_json::from_str(text).unwrap();
    match to_json(&value) {
        JsonValue::Object(entries) => entries,
        _ => panic!("metadata must be an object"),
    }
}

#[test]
fn candidate_ids_use_eq_in_and_array_metadata() {
    let mut index = MetadataFilterIndex::new();
    let first = metadata(r#"{ "user_id": "user-a", "tags": ["runbook", "guide"] }"#);
    let second = metadata(r#"{ "user_id": "user-b", "tags": ["guide"] }"#);
    let third = metadata(r#"{ "user_id": "user-a", "tags": ["changelog"] }"#);
    index.insert("first", &first);
    index.insert("second", &second);
    index.insert("third", &third);

    let filter = metadata(
        r#"{ "user_id": { "$eq": "user-a" }, "tags": { "$in": ["guide"] } }"#,
    );
    let compiled = index.compile(&filter);
    let mut ids = compiled.candidate_ids(16).unwrap();
    ids.sort_unstable();

    assert_eq!(ids, vec!["first"]);
    assert!(metadata_matches_filter(&first, &filter));
    assert!(!metadata_matches_filter(&second, &filter));
    assert!(!metadata_matches_filter(&third, &filter));
}

#[test]
fn candidate_ids_respect_limit() {
    let mut index = MetadataFilterIndex::new();
    let first = metadata(r#"{ "user_id": "user-a" }"#);
    let second = metadata(r#"{ "user_id": "user-a" }"#);
    index.insert("first", &first);
    index.insert("second", &second);

    let filter = metadata(r#"{ "user_id": { "$eq": "user-a" } }"#);
    let compiled = index.compile(&filter);

    assert!(compiled.candidate_ids(1).is_none());
    assert_eq!(compiled.candidate_ids(2).unwrap().len(), 2);
}

#[test]
fn nin_matches_absent_values_and_requires_array() {
    let record = metadata(r#"{ "tag": "guide" }"#);
    let missing_ok = metadata(r#"{ "source": { "$nin": ["archived"] } }"#);
    let scalar_nin = metadata(r#"{ "tag": { "$nin": "guide" } }"#);

    assert!(metadata_matches_filter(&record, &missing_ok));
    assert!(!metadata_matches_filter(&record, &scalar_nin));

    let mut index = MetadataFilterIndex::new();
    index.insert("guide", &record);
    assert!(index.compile(&scalar_nin).candidate_ids(16).is_none());
}

fn ids_of(values: Option<Vec<&str>>) -> Vec<String> {
    let mut ids: Vec<String> = values.unwrap().iter().map(|s| s.to_string()).collect();
    ids.sort();
    ids
}

#[test]
fn index_answers_filters_as_the_exact_match_does() {
    let records = [
        ("r1", metadata(r#"{ "tag": "runbook", "org": "a", "n": 3, "flags": [true, null] }"#)),
        ("r2", metadata(r#"{ "tag": "guide", "org": "a", "n": 4 }"#)),
        ("r3", metadata(r#"{ "tag": ["guide", "runbook"], "org": "b" }"#)),
        ("r4", metadata(r#"{ "org": "b", "n": 3 }"#)),
    ];
    let mut index = MetadataFilterIndex::new();
    for (id, md) in &records {
        index.insert(id, md);
    }
    let filters = [
        r#"{ "tag": "guide" }"#,
        r#"{ "tag": { "$eq": "runbook" }, "org": "a" }"#,
        r#"{ "tag": { "$in": ["guide", "missing"] } }"#,
        r#"{ "tag": { "$nin": ["guide"] } }"#,
        r#"{ "n": 3 }"#,
        r#"{ "flags": null }"#,
        r#"{ "flags": true, "org": { "$nin": ["b"] } }"#,
        r#"{ "org": { "$in": [] } }"#,
        r#"{ "org": { "$nin": [] } }"#,
        r#"{ "org": { "$gt": 1 } }"#,
        r#"{ "org": {} }"#,
        r#"{}"#,
    ];
    for text in filters {
        let filter = metadata(text);
        let compiled = index.compile(&filter);
        for (id, md) in &records {
            assert_eq!(
                compiled.accepts(id),
                metadata_matches_filter(md, &filter),
                "filter {text} on {id}"
            );
        }
    }
}

#[test]
fn candidate_lists_are_the_accepted_ids() {
    let mut index = MetadataFilterIndex::new();
    index.insert("x", &metadata(r#"{ "k": "v", "o": 1 }"#));
    index.insert("y", &metadata(r#"{ "k": "w", "o": 1 }"#));
    index.insert("z", &metadata(r#"{ "k": "v" }"#));
    let filter = metadata(r#"{ "k": "v", "o": { "$nin": [2] } }"#);
    let compiled = index.compile(&filter);
    assert_eq!(ids_of(compiled.candidate_ids(10)), vec!["x", "z"]);
    let none = metadata(r#"{ "k": "absent" }"#);
    assert!(index.compile(&none).is_none());
    assert!(index.compile(&metadata("{}")).is_all());
}

#[test]
fn reinserting_an_id_adds_its_new_tokens() {
    let mut index = MetadataFilterIndex::new();
    assert_eq!(index.intern_id("a"), 0);
    assert_eq!(index.intern_id("b"), 1);
    assert_eq!(index.intern_id("a"), 0);
    index.insert("a", &metadata(r#"{ "k": "v" }"#));
    let filter = metadata(r#"{ "k": "v" }"#);
    assert_eq!(ids_of(index.compile(&filter).candidate_ids(10)), vec!["a"]);
}

#[test]
fn compile_gives_nothing_or_all_by_the_entries() {
    let mut index = MetadataFilterIndex::new();
    index.insert("guide", &metadata(r#"{ "tag": "guide" }"#));
    assert!(index.compile(&metadata(r#"{ "tag": { "$nin": "guide" } }"#)).is_none());
    assert!(index.compile(&metadata(r#"{ "tag": "absent" }"#)).is_none());
    assert!(index.compile(&metadata(r#"{ "tag": { "$in": [] } }"#)).is_none());
    assert!(index.compile(&metadata(r#"{ "tag": { "$gt": 1 } }"#)).is_none());
    assert!(index.compile(&metadata(r#"{ "tag": {} }"#)).is_none());
    assert!(index.compile(&metadata("{}")).is_all());
    assert!(index.compile(&metadata(r#"{ "tag": { "$nin": ["absent"] } }"#)).is_all());
    let excluding = index.compile(&metadata(r#"{ "tag": { "$nin": ["guide"] } }"#));
    assert!(!excluding.is_all() && !excluding.is_none());
    assert!(!excluding.accepts("guide"));
}

#[test]
fn zero_operands_match_when_no_negative_zero_is_stored() {
    let mut index = MetadataFilterIndex::new();
    let zero = metadata(r#"{ "x": 0.0 }"#);
    let one = metadata(r#"{ "x": 1.0 }"#);
    index.insert("zero", &zero);
    index.insert("one", &one);
    let filter = metadata(r#"{ "x": 0.0 }"#);
    let compiled = index.compile(&filter);
    assert!(compiled.accepts("zero") && metadata_matches_filter(&zero, &filter));
    assert!(!compiled.accepts("one") && !metadata_matches_filter(&one, &filter));
}
