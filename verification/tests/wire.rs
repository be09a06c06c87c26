use dynamodb::{Item, JsonValue};
use dynamodb::text::to_wire_text;

fn wire_obj(entries: Vec<(&str, JsonValue)>) -> JsonValue {
    JsonValue::Object(entries.into_iter().map(|(k, v)| (k.to_string(), v)).collect())
}

fn wire_str(text: &str) -> JsonValue {
    JsonValue::String(text.to_string())
}

#[test]
fn emits_scalars() {
    assert_eq!(to_wire_text(&JsonValue::Null), "null");
    assert_eq!(to_wire_text(&JsonValue::Bool(true)), "true");
    assert_eq!(to_wire_text(&JsonValue::Bool(false)), "false");
    assert_eq!(to_wire_text(&JsonValue::Number("42.5".to_string())), "42.5");
    assert_eq!(to_wire_text(&wire_str("hi")), "\"hi\"");
}

#[test]
fn emits_arrays_and_objects() {
    let v = JsonValue::Array(vec![wire_str("a"), JsonValue::Null, JsonValue::Bool(false)]);
    assert_eq!(to_wire_text(&v), "[\"a\",null,false]");
    let v = wire_obj(vec![("a", wire_str("x")), ("b", JsonValue::Array(vec![]))]);
    assert_eq!(to_wire_text(&v), "{\"a\":\"x\",\"b\":[]}");
    assert_eq!(to_wire_text(&wire_obj(vec![])), "{}");
}

#[test]
fn escapes_string_characters() {
    let v = wire_str("a\"b\\c\nd\te\rf\u{8}g\u{c}h\u{1}i");
    assert_eq!(to_wire_text(&v), "\"a\\\"b\\\\c\\nd\\te\\rf\\bg\\fh\\u0001i\"");
}

#[test]
fn keeps_non_ascii_characters_raw() {
    let v = wire_str("héllo");
    assert_eq!(to_wire_text(&v), "\"héllo\"");
}

#[test]
fn wire_text_is_deterministic() {
    let item = Item::Object(vec![
        ("b".to_string(), Item::String("2".to_string())),
        ("a".to_string(), Item::String("1".to_string())),
    ]);
    let first = to_wire_text(&item.to_typed_map().unwrap());
    let second = to_wire_text(&item.to_typed_map().unwrap());
    assert_eq!(first, second);
    assert_eq!(first, "{\"b\":{\"S\":\"2\"},\"a\":{\"S\":\"1\"}}");
}

#[test]
fn wire_text_of_a_typed_item_matches_the_protocol() {
    let plain = wire_obj(vec![
        ("username", wire_str("nathan")),
        ("rand_data", wire_obj(vec![("favorite_banana", wire_str("Jana"))])),
    ]);
    let item = Item::from_json(&plain).unwrap();
    let body = to_wire_text(&item.to_typed_map().unwrap());
    assert_eq!(
        body,
        "{\"username\":{\"S\":\"nathan\"},\"rand_data\":{\"M\":{\"favorite_banana\":{\"S\":\"Jana\"}}}}"
    );
}

#[test]
fn emitted_text_parses_as_json() {
    let plain = wire_obj(vec![
        ("k", wire_str("v\n\"w\"")),
        ("xs", JsonValue::Array(vec![wire_str("é"), JsonValue::Null])),
    ]);
    let text = to_wire_text(&plain);
    let parsed: serde_json::Value = serde_json::from_str(&text).unwrap();

    let mut inner = serde_json::Map::new();
    inner.insert("k".to_string(), serde_json::Value::String("v\n\"w\"".to_string()));
    inner.insert(
        "xs".to_string(),
        serde_json::Value::Array(vec![
            serde_json::Value::String("é".to_string()),
            serde_json::Value::Null,
        ]),
    );
    assert_eq!(parsed, serde_json::Value::Object(inner));
}
