use feox_vector::filter::{scalar_token, value_contains, value_matches_filter, value_tokens};
use feox_vector::json::{json_equal, number_equal, JsonValue};

fn s(text: &str) -> JsonValue {
    JsonValue::Str(text.to_string())
}

fn n(text: &str) -> JsonValue {
    JsonValue::Number(text.to_string())
}

#[test]
fn tokens_join_key_and_json_text() {
    assert_eq!(
        scalar_token("tag", &s("guide")).unwrap(),
        "tag\u{1f}\"guide\""
    );
    assert_eq!(
        scalar_token("q", &s("a\"b\\c\nd\u{1}")).unwrap(),
        "q\u{1f}\"a\\\"b\\\\c\\nd\\u0001\""
    );
    assert_eq!(scalar_token("n", &n("3")).unwrap(), "n\u{1f}3");
    assert_eq!(scalar_token("b", &JsonValue::Bool(false)).unwrap(), "b\u{1f}false");
    assert_eq!(scalar_token("z", &JsonValue::Null).unwrap(), "z\u{1f}null");
    assert!(scalar_token("a", &JsonValue::Array(vec![])).is_none());
    assert!(scalar_token("o", &JsonValue::Object(vec![])).is_none());
}

#[test]
fn array_values_give_one_token_per_scalar() {
    let value = JsonValue::Array(vec![s("x"), JsonValue::Array(vec![]), n("1.5")]);
    assert_eq!(value_tokens("k", &value), vec!["k\u{1f}\"x\"", "k\u{1f}1.5"]);
    assert_eq!(value_tokens("k", &s("y")), vec!["k\u{1f}\"y\""]);
    assert!(value_tokens("k", &JsonValue::Object(vec![])).is_empty());
}

#[test]
fn equality_follows_json_values() {
    assert!(number_equal("0.0", "-0.0"));
    assert!(!number_equal("1", "1.0"));
    assert!(json_equal(
        &JsonValue::Object(vec![("a".to_string(), n("1"))]),
        &JsonValue::Object(vec![("a".to_string(), n("1"))])
    ));
    assert!(!json_equal(&s("1"), &n("1")));
    assert!(json_equal(
        &JsonValue::Array(vec![n("-0.0"), JsonValue::Null]),
        &JsonValue::Array(vec![n("0.0"), JsonValue::Null])
    ));
}

#[test]
fn arrays_contain_their_elements() {
    let tags = JsonValue::Array(vec![s("guide"), s("runbook")]);
    assert!(value_contains(&tags, &s("guide")));
    assert!(value_contains(&tags, &tags));
    assert!(!value_contains(&tags, &s("other")));
    assert!(value_contains(&s("x"), &s("x")));
}

#[test]
fn operators_and_literals_match_values() {
    let eq = JsonValue::Object(vec![("$eq".to_string(), s("a"))]);
    let nin = JsonValue::Object(vec![("$nin".to_string(), JsonValue::Array(vec![s("a")]))]);
    let unknown = JsonValue::Object(vec![("$gt".to_string(), n("1"))]);
    assert!(value_matches_filter(Some(&s("a")), &eq));
    assert!(!value_matches_filter(None, &eq));
    assert!(value_matches_filter(None, &nin));
    assert!(!value_matches_filter(Some(&s("a")), &nin));
    assert!(!value_matches_filter(Some(&s("a")), &unknown));
    assert!(!value_matches_filter(Some(&s("a")), &JsonValue::Object(vec![])));
    assert!(value_matches_filter(Some(&s("a")), &s("a")));
}
