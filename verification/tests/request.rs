use dynamodb::{Condition, DynamoDbError, Item, JsonValue, Number, PrimaryKey, ToPrimaryKey};
use dynamodb::request::{
    classify_get_response, classify_put_response, get_item_target, get_request_body,
    put_item_target, put_request_body,
};
fn req_obj(entries: Vec<(&str, JsonValue)>) -> JsonValue {
    JsonValue::Object(entries.into_iter().map(|(k, v)| (k.to_string(), v)).collect())
}

fn req_str(text: &str) -> JsonValue {
    JsonValue::String(text.to_string())
}

#[test]
fn condition_expressions_are_verbatim_text() {
    assert_eq!(Condition::attribute_exists("age").to_raw_string(), "attribute_exists(age)");
    assert_eq!(
        Condition::attribute_not_exists("age").to_raw_string(),
        "attribute_not_exists(age)"
    );
}

#[test]
fn operation_targets_carry_the_service_version() {
    assert_eq!(put_item_target(), "DynamoDB_20120810.PutItem");
    assert_eq!(get_item_target(), "DynamoDB_20120810.GetItem");
}

#[test]
fn composite_primary_key_builds_both_attributes() {
    // ("id", "u1", "ts", "100") -> {"id": {"S": "u1"}, "ts": {"S": "100"}}
    let key = ("id", "u1", "ts", "100").to_primary_key();
    let expected = req_obj(vec![
        ("id", req_obj(vec![("S", req_str("u1"))])),
        ("ts", req_obj(vec![("S", req_str("100"))])),
    ]);
    assert_eq!(key.to_json(), expected);
}

#[test]
fn hash_only_primary_key_builds_one_attribute() {
    let key = PrimaryKey::new(("id", "u1"));
    assert_eq!(key.to_json(), req_obj(vec![("id", req_obj(vec![("S", req_str("u1"))]))]));
}

#[test]
fn number_key_values_use_the_numeric_tag() {
    let key = PrimaryKey::new(dynamodb::PrimaryKeyValuePair::new(
        "n",
        dynamodb::PrimaryKeyValue::Number(Number::new("7")),
    ));
    assert_eq!(key.to_json(), req_obj(vec![("n", req_obj(vec![("N", req_str("7"))]))]));
}

#[test]
fn put_request_body_holds_table_and_item() {
    let item = Item::Object(vec![("a".to_string(), Item::String("x".to_string()))]);
    let body = put_request_body("people", &item, None).unwrap();
    assert_eq!(body, "{\"TableName\":\"people\",\"Item\":{\"a\":{\"S\":\"x\"}}}");
}

#[test]
fn put_request_body_carries_the_condition() {
    let item = Item::Object(vec![("a".to_string(), Item::String("x".to_string()))]);
    let cond = Condition::attribute_not_exists("a");
    let body = put_request_body("people", &item, Some(&cond)).unwrap();
    assert_eq!(
        body,
        "{\"TableName\":\"people\",\"Item\":{\"a\":{\"S\":\"x\"}},\"ConditionExpression\":\"attribute_not_exists(a)\"}"
    );
}

#[test]
fn put_request_body_rejects_non_map_items() {
    let err = put_request_body("people", &Item::Null, None).unwrap_err();
    assert!(matches!(err, DynamoDbError::ProtocolError(_)));
}

#[test]
fn get_request_body_holds_table_and_key() {
    let key = PrimaryKey::new(("id", "u1"));
    let body = get_request_body("people", &key);
    assert_eq!(body, "{\"TableName\":\"people\",\"Key\":{\"id\":{\"S\":\"u1\"}}}");
}

#[test]
fn ok_status_is_a_put_success() {
    assert!(classify_put_response(200, None).is_ok());
}

#[test]
fn conditional_check_failure_is_classified() {
    let body = req_obj(vec![(
        "__type",
        req_str("com.amazonaws.dynamodb.v20120810#ConditionalCheckFailedException"),
    )]);
    let err = classify_put_response(400, Some(&body)).unwrap_err();
    assert!(matches!(err, DynamoDbError::ConditionFailed));
}

#[test]
fn unknown_error_types_are_surfaced_not_fatal() {
    let body = req_obj(vec![(
        "__type",
        req_str("com.amazonaws.dynamodb.v20120810#SomeOtherException"),
    )]);
    let err = classify_put_response(400, Some(&body)).unwrap_err();
    match err {
        DynamoDbError::UnrecognizedServerError(t) => {
            assert_eq!(t, "com.amazonaws.dynamodb.v20120810#SomeOtherException");
        },
        other => panic!("unexpected classification: {:?}", other),
    }
}

#[test]
fn malformed_error_envelope_is_a_decoding_error() {
    let err = classify_put_response(400, Some(&req_obj(vec![]))).unwrap_err();
    assert!(matches!(err, DynamoDbError::DecodingError(_)));
    let err = classify_put_response(400, None).unwrap_err();
    assert!(matches!(err, DynamoDbError::DecodingError(_)));
}

#[test]
fn unknown_status_is_a_transport_error() {
    let err = classify_put_response(503, None).unwrap_err();
    assert!(matches!(err, DynamoDbError::TransportError(_)));
}

#[test]
fn get_without_item_field_is_not_found() {
    // A response whose body has no "Item" field means "no such record,"
    // which is a valid outcome and not an error.
    let body = req_obj(vec![("ConsumedCapacity", JsonValue::Number("1".to_string()))]);
    let outcome = classify_get_response(200, Some(&body)).unwrap();
    assert!(outcome.is_none());
}

#[test]
fn get_with_item_field_decodes_the_record() {
    let body = req_obj(vec![(
        "Item",
        req_obj(vec![("username", req_obj(vec![("S", req_str("nathan"))]))]),
    )]);
    let item = classify_get_response(200, Some(&body)).unwrap().unwrap();
    assert_eq!(
        item,
        Item::Object(vec![("username".to_string(), Item::String("nathan".to_string()))])
    );
}

#[test]
fn get_with_malformed_item_is_a_protocol_error() {
    let body = req_obj(vec![("Item", req_str("nope"))]);
    let err = classify_get_response(200, Some(&body)).unwrap_err();
    assert!(matches!(err, DynamoDbError::ProtocolError(_)));
}

#[test]
fn get_with_unparseable_body_is_a_decoding_error() {
    let err = classify_get_response(200, None).unwrap_err();
    assert!(matches!(err, DynamoDbError::DecodingError(_)));
}

#[test]
fn get_shares_the_error_status_classification() {
    let body = req_obj(vec![(
        "__type",
        req_str("com.amazonaws.dynamodb.v20120810#ConditionalCheckFailedException"),
    )]);
    let err = classify_get_response(400, Some(&body)).unwrap_err();
    assert!(matches!(err, DynamoDbError::ConditionFailed));
}

#[test]
fn request_bodies_parse_as_json() {
    let item = Item::Object(vec![("a".to_string(), Item::Binary(vec![1, 2, 3]))]);
    let body = put_request_body("t", &item, None).unwrap();
    let parsed: serde_json::Value = serde_json::from_str(&body).unwrap();
    assert_eq!(parsed["TableName"], serde_json::Value::String("t".to_string()));
    assert_eq!(parsed["Item"]["a"]["B"], serde_json::Value::String("AQID".to_string()));
}

#[test]
fn error_envelope_reads_the_type_string() {
    let body = req_obj(vec![("__type", req_str("ns#Boom")), ("message", req_str("m"))]);
    let envelope = dynamodb::AWSApiError::from_json(&body).unwrap();
    assert_eq!(envelope.__type, "ns#Boom");
    assert!(dynamodb::AWSApiError::from_json(&req_str("x")).is_none());
}

#[test]
fn binary_key_values_use_the_base64_tag() {
    let key = PrimaryKey::new(dynamodb::PrimaryKeyValuePair::new(
        "blob",
        dynamodb::PrimaryKeyValue::Binary(vec![77, 97, 110]),
    ));
    assert_eq!(
        key.to_json(),
        req_obj(vec![("blob", req_obj(vec![("B", req_str("TWFu"))]))])
    );
}

#[test]
fn key_pairs_expose_name_and_value() {
    let pair = dynamodb::PrimaryKeyValuePair::new("id", "u1");
    assert_eq!(pair.name(), "id");
    assert_eq!(*pair.value(), dynamodb::PrimaryKeyValue::String("u1".to_string()));
    let key = PrimaryKey::with_range(("id", "u1"), ("ts", "100"));
    assert_eq!(key.hash_pair().name(), "id");
    assert_eq!(key.range_pair().unwrap().name(), "ts");
}
