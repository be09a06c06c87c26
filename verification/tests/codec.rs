use dynamodb::{DynamoDbError, Item, JsonValue, Number};

fn obj(entries: Vec<(&str, JsonValue)>) -> JsonValue {
    JsonValue::Object(entries.into_iter().map(|(k, v)| (k.to_string(), v)).collect())
}

fn s(text: &str) -> JsonValue {
    JsonValue::String(text.to_string())
}

#[test]
fn encodes_nested_object_to_typed_form() {
    // {"username": "nathan", "rand_data": {"favorite_banana": "Jana"}}
    let plain = obj(vec![
        ("username", s("nathan")),
        ("rand_data", obj(vec![("favorite_banana", s("Jana"))])),
    ]);
    let item = Item::from_json(&plain).unwrap();
    let typed = item.to_typed_json();
    let expected = obj(vec![(
        "M",
        obj(vec![
            ("username", obj(vec![("S", s("nathan"))])),
            ("rand_data", obj(vec![("M", obj(vec![(
                "favorite_banana",
                obj(vec![("S", s("Jana"))]),
            )]))])),
        ]),
    )]);
    assert_eq!(typed, expected);
}

#[test]
fn typed_round_trip_returns_the_value() {
    let item = Item::Object(vec![
        ("name".to_string(), Item::String("ada".to_string())),
        ("age".to_string(), Item::Number(Number::new("36"))),
        ("blob".to_string(), Item::Binary(vec![77, 97, 110])),
        ("tags".to_string(), Item::StringSet(vec!["a".to_string(), "b".to_string()])),
        ("scores".to_string(), Item::NumberSet(vec![Number::new("1"), Number::new("2")])),
        ("chunks".to_string(), Item::BinarySet(vec![vec![1, 2], vec![3]])),
        ("row".to_string(), Item::List(vec![Item::Null, Item::String("x".to_string())])),
        ("inner".to_string(), Item::Object(vec![("k".to_string(), Item::Null)])),
    ]);
    let typed = item.to_typed_json();
    let back = Item::from_typed_json(&typed).unwrap();
    assert_eq!(back, item);
}

#[test]
fn plain_round_trip_returns_the_value() {
    let plain = obj(vec![
        ("a", s("x")),
        ("b", JsonValue::Array(vec![JsonValue::Null, s("y")])),
        ("c", obj(vec![("d", JsonValue::Null)])),
    ]);
    let item = Item::from_json(&plain).unwrap();
    let back = item.to_json().unwrap();
    assert_eq!(back, plain);
}

#[test]
fn top_level_non_map_is_a_protocol_error() {
    let err = Item::String("oops".to_string()).to_typed_map().unwrap_err();
    assert!(matches!(err, DynamoDbError::ProtocolError(_)));
    let err = Item::Null.to_typed_map().unwrap_err();
    assert!(matches!(err, DynamoDbError::ProtocolError(_)));
}

#[test]
fn zero_tags_is_a_protocol_error() {
    let wire = obj(vec![]);
    let err = Item::from_typed_json(&wire).unwrap_err();
    assert!(matches!(err, DynamoDbError::ProtocolError(_)));
}

#[test]
fn two_tags_is_a_protocol_error() {
    let wire = obj(vec![("S", s("a")), ("N", s("1"))]);
    let err = Item::from_typed_json(&wire).unwrap_err();
    assert!(matches!(err, DynamoDbError::ProtocolError(_)));
}

#[test]
fn unrecognized_tag_is_a_protocol_error() {
    let wire = obj(vec![("XX", s("a"))]);
    let err = Item::from_typed_json(&wire).unwrap_err();
    assert!(matches!(err, DynamoDbError::ProtocolError(_)));
}

#[test]
fn tag_payload_of_the_wrong_shape_is_a_protocol_error() {
    let err = Item::from_typed_json(&obj(vec![("S", JsonValue::Null)])).unwrap_err();
    assert!(matches!(err, DynamoDbError::ProtocolError(_)));
    let err = Item::from_typed_json(&obj(vec![("L", s("not an array"))])).unwrap_err();
    assert!(matches!(err, DynamoDbError::ProtocolError(_)));
    let err = Item::from_typed_json(&obj(vec![("M", s("not an object"))])).unwrap_err();
    assert!(matches!(err, DynamoDbError::ProtocolError(_)));
}

#[test]
fn null_tag_accepts_any_marker() {
    let item = Item::from_typed_json(&obj(vec![("NULL", JsonValue::Bool(true))])).unwrap();
    assert_eq!(item, Item::Null);
    let item = Item::from_typed_json(&obj(vec![("NULL", s("true"))])).unwrap();
    assert_eq!(item, Item::Null);
}

#[test]
fn binary_encodes_as_base64() {
    let typed = Item::Binary(vec![77, 97, 110]).to_typed_json();
    assert_eq!(typed, obj(vec![("B", s("TWFu"))]));
    let typed = Item::Binary(vec![77, 97]).to_typed_json();
    assert_eq!(typed, obj(vec![("B", s("TWE="))]));
    let typed = Item::Binary(vec![77]).to_typed_json();
    assert_eq!(typed, obj(vec![("B", s("TQ=="))]));
}

#[test]
fn base64_decodes_through_the_typed_codec() {
    let item = Item::from_typed_json(&obj(vec![("B", s("TWFu"))])).unwrap();
    assert_eq!(item, Item::Binary(vec![77, 97, 110]));
    let item = Item::from_typed_json(&obj(vec![("B", s("TQ=="))])).unwrap();
    assert_eq!(item, Item::Binary(vec![77]));
}

#[test]
fn malformed_base64_is_a_protocol_error() {
    let err = Item::from_typed_json(&obj(vec![("B", s("not base64!"))])).unwrap_err();
    assert!(matches!(err, DynamoDbError::ProtocolError(_)));
    // Non-canonical padding bits are refused by the strict decoder.
    let err = Item::from_typed_json(&obj(vec![("B", s("TR=="))])).unwrap_err();
    assert!(matches!(err, DynamoDbError::ProtocolError(_)));
}

#[test]
fn duplicate_set_members_are_a_protocol_error() {
    let wire = obj(vec![("SS", JsonValue::Array(vec![s("a"), s("a")]))]);
    let err = Item::from_typed_json(&wire).unwrap_err();
    assert!(matches!(err, DynamoDbError::ProtocolError(_)));
    let wire = obj(vec![("NS", JsonValue::Array(vec![s("1"), s("1")]))]);
    let err = Item::from_typed_json(&wire).unwrap_err();
    assert!(matches!(err, DynamoDbError::ProtocolError(_)));
    let wire = obj(vec![("BS", JsonValue::Array(vec![s("TQ=="), s("TQ==")]))]);
    let err = Item::from_typed_json(&wire).unwrap_err();
    assert!(matches!(err, DynamoDbError::ProtocolError(_)));
}

#[test]
fn duplicate_map_keys_are_a_protocol_error() {
    let wire = obj(vec![("M", obj(vec![
        ("k", obj(vec![("S", s("a"))])),
        ("k", obj(vec![("S", s("b"))])),
    ]))]);
    let err = Item::from_typed_json(&wire).unwrap_err();
    assert!(matches!(err, DynamoDbError::ProtocolError(_)));
}

#[test]
fn from_typed_map_decodes_a_response_item() {
    let wire = obj(vec![
        ("username", obj(vec![("S", s("nathan"))])),
        ("age", obj(vec![("N", s("30"))])),
    ]);
    let item = Item::from_typed_map(&wire).unwrap();
    assert_eq!(
        item,
        Item::Object(vec![
            ("username".to_string(), Item::String("nathan".to_string())),
            ("age".to_string(), Item::Number(Number::new("30"))),
        ])
    );
}

#[test]
fn from_typed_map_rejects_non_objects() {
    let err = Item::from_typed_map(&s("nope")).unwrap_err();
    assert!(matches!(err, DynamoDbError::ProtocolError(_)));
}

#[test]
fn plain_numbers_are_a_decoding_error() {
    let err = Item::from_json(&JsonValue::Number("1.5".to_string())).unwrap_err();
    assert!(matches!(err, DynamoDbError::DecodingError(_)));
}

#[test]
fn plain_booleans_are_a_decoding_error() {
    let err = Item::from_json(&JsonValue::Bool(true)).unwrap_err();
    assert!(matches!(err, DynamoDbError::DecodingError(_)));
}

#[test]
fn unsupported_variants_have_no_plain_form() {
    let err = Item::Number(Number::new("1")).to_json().unwrap_err();
    assert!(matches!(err, DynamoDbError::EncodingError(_)));
    let err = Item::Binary(vec![1]).to_json().unwrap_err();
    assert!(matches!(err, DynamoDbError::EncodingError(_)));
    let err = Item::StringSet(vec!["a".to_string()]).to_json().unwrap_err();
    assert!(matches!(err, DynamoDbError::EncodingError(_)));
}

#[test]
fn number_keeps_its_decimal_string() {
    let n = Number::new("3.14159265358979323846264338327950288");
    assert_eq!(n.as_string(), "3.14159265358979323846264338327950288");
}

#[test]
fn errors_describe_themselves() {
    assert_eq!(DynamoDbError::NoCredentials.describe(), "no credentials configured");
    assert_eq!(DynamoDbError::ConditionFailed.describe(), "conditional check failed");
    assert_eq!(DynamoDbError::ProtocolError("bad tag".to_string()).describe(), "bad tag");
    assert_eq!(DynamoDbError::TransportError("down".to_string()).describe(), "down");
}
