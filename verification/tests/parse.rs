use dynamodb::parse::parse_wire_text;
use dynamodb::text::to_wire_text;
use dynamodb::{DynamoDbError, JsonValue};

fn parsed(text: &str) -> JsonValue {
    parse_wire_text(text).unwrap()
}

fn parse_obj(entries: Vec<(&str, JsonValue)>) -> JsonValue {
    JsonValue::Object(entries.into_iter().map(|(k, v)| (k.to_string(), v)).collect())
}

#[test]
fn parses_scalars() {
    assert_eq!(parsed("null"), JsonValue::Null);
    assert_eq!(parsed("true"), JsonValue::Bool(true));
    assert_eq!(parsed("false"), JsonValue::Bool(false));
    assert_eq!(parsed("\"hi\""), JsonValue::String("hi".to_string()));
    assert_eq!(parsed("42"), JsonValue::Number("42".to_string()));
    assert_eq!(parsed("-12.5e+3"), JsonValue::Number("-12.5e+3".to_string()));
    assert_eq!(parsed("0.25"), JsonValue::Number("0.25".to_string()));
}

#[test]
fn parses_nested_structures() {
    assert_eq!(
        parsed("[1,\"a\",null,[true]]"),
        JsonValue::Array(vec![
            JsonValue::Number("1".to_string()),
            JsonValue::String("a".to_string()),
            JsonValue::Null,
            JsonValue::Array(vec![JsonValue::Bool(true)]),
        ])
    );
    assert_eq!(
        parsed("{\"a\":{\"b\":[]},\"c\":{}}"),
        parse_obj(vec![
            ("a", parse_obj(vec![("b", JsonValue::Array(vec![]))])),
            ("c", parse_obj(vec![])),
        ])
    );
}

#[test]
fn skips_insignificant_whitespace() {
    assert_eq!(
        parsed(" {\n  \"a\" : [ 1 , 2 ] ,\r\n  \"b\" : \"x\"\t} "),
        parse_obj(vec![
            ("a", JsonValue::Array(vec![
                JsonValue::Number("1".to_string()),
                JsonValue::Number("2".to_string()),
            ])),
            ("b", JsonValue::String("x".to_string())),
        ])
    );
}

#[test]
fn unescapes_string_characters() {
    assert_eq!(
        parsed("\"a\\\"b\\\\c\\/d\\ne\\tf\\rg\\bh\\fi\""),
        JsonValue::String("a\"b\\c/d\ne\tf\rg\u{8}h\u{c}i".to_string())
    );
}

#[test]
fn unescapes_unicode_code_points() {
    assert_eq!(parsed("\"\\u0041\\u00e9\""), JsonValue::String("Aé".to_string()));
    // A surrogate pair stands for one character outside the basic plane.
    assert_eq!(parsed("\"\\ud83d\\ude00\""), JsonValue::String("\u{1F600}".to_string()));
}

#[test]
fn rejects_lone_surrogates() {
    assert!(parse_wire_text("\"\\ud83d\"").is_err());
    assert!(parse_wire_text("\"\\ude00\"").is_err());
}

#[test]
fn rejects_malformed_text() {
    for text in [
        "", "  ", "{", "[", "\"open", "{\"a\":}", "{\"a\" 1}", "[1,]", "{,}", "nul", "tru",
        "01", "1.", "1e", "+1", "'a'", "{\"a\":1,}", "[1 2]", "\"\\x\"",
    ] {
        let err = parse_wire_text(text).unwrap_err();
        assert!(matches!(err, DynamoDbError::DecodingError(_)), "accepted: {:?}", text);
    }
}

#[test]
fn rejects_trailing_text() {
    let err = parse_wire_text("null x").unwrap_err();
    assert!(matches!(err, DynamoDbError::DecodingError(_)));
    let err = parse_wire_text("{} {}").unwrap_err();
    assert!(matches!(err, DynamoDbError::DecodingError(_)));
}

#[test]
fn rejects_raw_control_characters_in_strings() {
    let err = parse_wire_text("\"a\nb\"").unwrap_err();
    assert!(matches!(err, DynamoDbError::DecodingError(_)));
}

#[test]
fn parsing_undoes_the_emitter() {
    let value = parse_obj(vec![
        ("s", JsonValue::String("he said \"hi\"\n\\done".to_string())),
        ("n", JsonValue::Number("-0.5e2".to_string())),
        ("xs", JsonValue::Array(vec![
            JsonValue::Null,
            JsonValue::Bool(false),
            parse_obj(vec![("k", JsonValue::String("é\u{1}".to_string()))]),
        ])),
    ]);
    let text = to_wire_text(&value);
    assert_eq!(parsed(&text), value);
}

#[test]
fn parses_a_get_response_body() {
    let body = parsed(
        "{\"Item\":{\"username\":{\"S\":\"nathan\"}},\"ConsumedCapacity\":{\"TableName\":\"t\",\"CapacityUnits\":1}}",
    );
    let outcome = dynamodb::request::classify_get_response(200, Some(&body)).unwrap();
    let item = outcome.unwrap();
    assert_eq!(
        item,
        dynamodb::Item::Object(vec![(
            "username".to_string(),
            dynamodb::Item::String("nathan".to_string()),
        )])
    );
}
