//! The request assembler and response classifier: the bodies this layer
//! sends for Put and Get, the operation targets they are dispatched under,
//! and the classification of what the store sends back.
//!
//! The transport collaborator itself (signing, HTTP, retries) is outside
//! this layer: a host performs the dispatch and hands back the status code
//! and the parsed response body.

use vstd::prelude::*;
use crate::chars::str_eq;
use crate::codec::{
    item_of_typed_map, lemma_typed_entries_number_free, lemma_typed_number_free, pk_json,
    typed_entries, typed_map_of,
};
use crate::condition::Condition;
use crate::error::{AWSApiError, DynamoDbError};
use crate::json::{json_entries_view, lemma_json_entries_view, lemma_lookup_key_skip, lookup_key,
    JsonV, JsonValue};
use crate::parse::{number_free, number_free_entries, wire_parse};
use crate::text::{json_text, to_wire_text};
use crate::types::{pk_item, Item, ItemV, PrimaryKey, PrimaryKeyV};
use vstd::string::StringExecFns;

verus! {

/// The operation target of a Put dispatch.
pub fn put_item_target() -> (r: String)
    ensures
        r@ == "DynamoDB_20120810.PutItem"@,
{
    String::from_str("DynamoDB_20120810.PutItem")
}

/// The operation target of a Get dispatch.
pub fn get_item_target() -> (r: String)
    ensures
        r@ == "DynamoDB_20120810.GetItem"@,
{
    String::from_str("DynamoDB_20120810.GetItem")
}

/// The view of an optional condition.
pub open spec fn cond_view(c: Option<&Condition>) -> Option<Seq<char>> {
    match c {
        Some(c) => Some(c@),
        None => None,
    }
}

/// The envelope of a Put request: the table name, the item's wire object,
/// and, if one is attached, the condition expression.
pub open spec fn put_request_json(
    table: Seq<char>,
    item_wire: JsonV,
    cond: Option<Seq<char>>,
) -> JsonV {
    let base = seq![("TableName"@, JsonV::String(table)), ("Item"@, item_wire)];
    match cond {
        None => JsonV::Object(base),
        Some(c) => JsonV::Object(base.push(("ConditionExpression"@, JsonV::String(c)))),
    }
}

/// The envelope of a Get request: the table name and the primary key's wire
/// object.
pub open spec fn get_request_json(table: Seq<char>, k: crate::types::PrimaryKeyV) -> JsonV {
    JsonV::Object(seq![("TableName"@, JsonV::String(table)), ("Key"@, pk_json(k))])
}

/// The wire text of a Put request's body. Only an item that is a map at
/// its top level can be sent; anything else is a protocol error.
pub fn put_request_body(table: &str, item: &Item, condition: Option<&Condition>) -> (r: Result<
    String,
    DynamoDbError,
>)
    ensures
        match r {
            Ok(s) => typed_map_of(item@) matches Some(w) && s@ == json_text(
                put_request_json(table@, w, cond_view(condition)),
            ),
            Err(e) => typed_map_of(item@) is None && e is ProtocolError,
        },
{
    let wire = match item.to_typed_map() {
        Ok(w) => w,
        Err(e) => {
            return Err(e);
        },
    };
    let ghost wire_v = wire@;
    let mut entries: Vec<(String, JsonValue)> = Vec::new();
    entries.push((String::from_str("TableName"), JsonValue::String(table.to_owned())));
    entries.push((String::from_str("Item"), wire));
    match condition {
        Some(c) => {
            entries.push(
                (String::from_str("ConditionExpression"), JsonValue::String(c.to_raw_string())),
            );
            proof {
                lemma_json_entries_view(entries@);
                assert(json_entries_view(entries@) =~= seq![
                    ("TableName"@, JsonV::String(table@)),
                    ("Item"@, wire_v),
                ].push(("ConditionExpression"@, JsonV::String(c@))));
            }
        },
        None => {
            proof {
                lemma_json_entries_view(entries@);
                assert(json_entries_view(entries@) =~= seq![
                    ("TableName"@, JsonV::String(table@)),
                    ("Item"@, wire_v),
                ]);
            }
        },
    }
    Ok(to_wire_text(&JsonValue::Object(entries)))
}

/// The wire text of a Get request's body.
pub fn get_request_body(table: &str, key: &PrimaryKey) -> (r: String)
    ensures
        r@ == json_text(get_request_json(table@, key@)),
{
    let mut entries: Vec<(String, JsonValue)> = Vec::new();
    entries.push((String::from_str("TableName"), JsonValue::String(table.to_owned())));
    entries.push((String::from_str("Key"), key.to_json()));
    proof {
        lemma_json_entries_view(entries@);
        assert(json_entries_view(entries@) =~= seq![
            ("TableName"@, JsonV::String(table@)),
            ("Key"@, pk_json(key@)),
        ]);
    }
    to_wire_text(&JsonValue::Object(entries))
}

/// The value of the first field with the given name, if the object has one.
#[verifier::loop_isolation(false)]
fn find_field<'a>(entries: &'a Vec<(String, JsonValue)>, key: &str) -> (r: Option<
    &'a JsonValue,
>)
    ensures
        match r {
            Some(v) => lookup_key(json_entries_view(entries@), key@) == Some(v@),
            None => lookup_key(json_entries_view(entries@), key@) is None,
        },
{
    let ghost evs = json_entries_view(entries@);
    proof {
        lemma_json_entries_view(entries@);
    }
    let mut i: usize = 0;
    while i < entries.len()
        invariant
            i <= entries@.len(),
            forall|k: int| 0 <= k < i ==> evs[k].0 != key@,
        decreases entries@.len() - i,
    {
        let e = &entries[i];
        if str_eq(e.0.as_str(), key) {
            proof {
                lemma_lookup_key_skip(evs, key@, i as int);
                assert(evs.skip(i as int)[0] == evs[i as int]);
            }
            return Some(&e.1);
        }
        i = i + 1;
    }
    proof {
        lemma_lookup_key_skip(evs, key@, entries@.len() as int);
        assert(evs.skip(entries@.len() as int) =~= Seq::<(Seq<char>, JsonV)>::empty());
    }
    None
}

/// The error-type string of a Bad-Request body, if the body is an object
/// whose `__type` field holds a string.
pub open spec fn error_type_of(j: JsonV) -> Option<Seq<char>> {
    match j {
        JsonV::Object(es) => match lookup_key(es, "__type"@) {
            Some(JsonV::String(t)) => Some(t),
            _ => None,
        },
        _ => None,
    }
}

impl AWSApiError {
    /// The error envelope of a Bad-Request body, if the body carries one.
    pub fn from_json(body: &JsonValue) -> (r: Option<AWSApiError>)
        ensures
            match r {
                Some(a) => error_type_of(body@) == Some(a.__type@),
                None => error_type_of(body@) is None,
            },
    {
        match body {
            JsonValue::Object(entries) => match find_field(entries, "__type") {
                Some(JsonValue::String(t)) => Some(AWSApiError { __type: t.clone() }),
                _ => None,
            },
            _ => None,
        }
    }
}

/// The reserved error-type string of a failed conditional write.
pub open spec fn conditional_check_failed_type() -> Seq<char> {
    "com.amazonaws.dynamodb.v20120810#ConditionalCheckFailedException"@
}

/// The error a response with a non-OK status stands for.
fn classify_error_status(status: u16, body: Option<&JsonValue>) -> (e: DynamoDbError)
    requires
        status != 200,
    ensures
        status == 400 ==> match body {
            Some(b) => match error_type_of(b@) {
                Some(t) => if t == conditional_check_failed_type() {
                    e is ConditionFailed
                } else {
                    e matches DynamoDbError::UnrecognizedServerError(m) && m@ == t
                },
                None => e is DecodingError,
            },
            None => e is DecodingError,
        },
        status != 400 ==> e is TransportError,
{
    if status == 400 {
        let envelope = match body {
            Some(b) => AWSApiError::from_json(b),
            None => None,
        };
        match envelope {
            Some(err) => {
                if str_eq(
                    err.__type.as_str(),
                    "com.amazonaws.dynamodb.v20120810#ConditionalCheckFailedException",
                ) {
                    DynamoDbError::ConditionFailed
                } else {
                    DynamoDbError::UnrecognizedServerError(err.__type)
                }
            },
            None => DynamoDbError::DecodingError(
                String::from_str("malformed error envelope in response"),
            ),
        }
    } else {
        DynamoDbError::TransportError(String::from_str("unrecognized response status"))
    }
}

/// Classifies a Put response: success on an OK status; on Bad Request, a
/// failed conditional write or an unrecognized server error, read from the
/// error envelope; a typed error on any other status.
pub fn classify_put_response(status: u16, body: Option<&JsonValue>) -> (r: Result<
    (),
    DynamoDbError,
>)
    ensures
        status == 200 ==> r is Ok,
        status == 400 ==> match body {
            Some(b) => match error_type_of(b@) {
                Some(t) => if t == conditional_check_failed_type() {
                    r matches Err(e) && e is ConditionFailed
                } else {
                    r matches Err(e) && (e matches DynamoDbError::UnrecognizedServerError(m)
                        && m@ == t)
                },
                None => r matches Err(e) && e is DecodingError,
            },
            None => r matches Err(e) && e is DecodingError,
        },
        status != 200 && status != 400 ==> (r matches Err(e) && e is TransportError),
{
    if status == 200 {
        Ok(())
    } else {
        Err(classify_error_status(status, body))
    }
}

/// The `Item` field of a Get response body, if the body is an object that
/// has one.
pub open spec fn item_field_of(b: JsonV) -> Option<JsonV> {
    match b {
        JsonV::Object(es) => lookup_key(es, "Item"@),
        _ => None,
    }
}

/// Classifies a Get response. On an OK status, a body without an `Item`
/// field means the record does not exist, which is a valid outcome and not
/// an error; a body with one decodes through the typed-attribute codec.
/// Other statuses classify as a Put response does.
pub fn classify_get_response(status: u16, body: Option<&JsonValue>) -> (r: Result<
    Option<Item>,
    DynamoDbError,
>)
    ensures
        status == 200 ==> match body {
            Some(b) => match item_field_of(b@) {
                Some(ij) => match item_of_typed_map(ij) {
                    Some(iv) => r matches Ok(Some(item)) && item@ == iv,
                    None => r matches Err(e) && e is ProtocolError,
                },
                None => r matches Ok(None),
            },
            None => r matches Err(e) && e is DecodingError,
        },
        status == 400 ==> match body {
            Some(b) => match error_type_of(b@) {
                Some(t) => if t == conditional_check_failed_type() {
                    r matches Err(e) && e is ConditionFailed
                } else {
                    r matches Err(e) && (e matches DynamoDbError::UnrecognizedServerError(m)
                        && m@ == t)
                },
                None => r matches Err(e) && e is DecodingError,
            },
            None => r matches Err(e) && e is DecodingError,
        },
        status != 200 && status != 400 ==> (r matches Err(e) && e is TransportError),
{
    if status != 200 {
        return Err(classify_error_status(status, body));
    }
    let b = match body {
        Some(b) => b,
        None => {
            return Err(DynamoDbError::DecodingError(
                String::from_str("response body is not valid structured data"),
            ));
        },
    };
    match b {
        JsonValue::Object(entries) => match find_field(entries, "Item") {
            Some(item_json) => match Item::from_typed_map(item_json) {
                Ok(item) => Ok(Some(item)),
                Err(e) => Err(e),
            },
            None => Ok(None),
        },
        _ => Ok(None),
    }
}


/// A singleton entry sequence whose value is number-free is number-free.
proof fn lemma_nf_entries1(a: (Seq<char>, JsonV))
    requires
        number_free(a.1),
    ensures
        number_free_entries(seq![a]),
{
    assert(seq![a].len() == 1);
    assert(seq![a][0] == a);
    assert(seq![a].drop_first() =~= Seq::<(Seq<char>, JsonV)>::empty());
    assert(seq![a].drop_first().len() == 0);
    assert(number_free_entries(seq![a].drop_first()));
}

/// A two-entry sequence whose values are number-free is number-free.
proof fn lemma_nf_entries2(a: (Seq<char>, JsonV), b: (Seq<char>, JsonV))
    requires
        number_free(a.1),
        number_free(b.1),
    ensures
        number_free_entries(seq![a, b]),
{
    lemma_nf_entries1(b);
    assert(seq![a, b].drop_first() =~= seq![b]);
}

/// A three-entry sequence whose values are number-free is number-free.
proof fn lemma_nf_entries3(a: (Seq<char>, JsonV), b: (Seq<char>, JsonV), c: (Seq<char>, JsonV))
    requires
        number_free(a.1),
        number_free(b.1),
        number_free(c.1),
    ensures
        number_free_entries(seq![a, b, c]),
{
    lemma_nf_entries2(b, c);
    assert(seq![a, b, c].drop_first() =~= seq![b, c]);
}

/// A Put request's body parses back as exactly the envelope it encodes:
/// the wire text this layer sends is read back, byte for byte, as the same
/// table name, item and condition.
pub proof fn lemma_put_request_round_trip(table: Seq<char>, item: ItemV, cond: Option<Seq<char>>)
    requires
        typed_map_of(item) is Some,
    ensures
        wire_parse(json_text(put_request_json(table, typed_map_of(item).unwrap(), cond)))
            == Some(put_request_json(table, typed_map_of(item).unwrap(), cond)),
{
    let w = typed_map_of(item).unwrap();
    match item {
        ItemV::Object(es) => {
            lemma_typed_entries_number_free(es);
            assert(w == JsonV::Object(typed_entries(es)));
            assert(number_free(w));
        },
        _ => {},
    }
    let t_entry = ("TableName"@, JsonV::String(table));
    let i_entry = ("Item"@, w);
    let base = seq![t_entry, i_entry];
    let body = put_request_json(table, w, cond);
    match cond {
        None => {
            lemma_nf_entries2(t_entry, i_entry);
            assert(number_free(body));
        },
        Some(c) => {
            let c_entry = ("ConditionExpression"@, JsonV::String(c));
            assert(base.push(c_entry) =~= seq![t_entry, i_entry, c_entry]);
            lemma_nf_entries3(t_entry, i_entry, c_entry);
            assert(number_free(body));
        },
    }
    crate::parse::lemma_wire_round_trip(body);
}

/// A Get request's body parses back as exactly the envelope it encodes.
pub proof fn lemma_get_request_round_trip(table: Seq<char>, k: PrimaryKeyV)
    ensures
        wire_parse(json_text(get_request_json(table, k))) == Some(get_request_json(table, k)),
{
    let h_entry = (k.hash.0, crate::codec::typed_of(pk_item(k.hash.1)));
    lemma_typed_number_free(pk_item(k.hash.1));
    match k.range {
        None => {
            lemma_nf_entries1(h_entry);
        },
        Some(rg) => {
            let r_entry = (rg.0, crate::codec::typed_of(pk_item(rg.1)));
            lemma_typed_number_free(pk_item(rg.1));
            lemma_nf_entries2(h_entry, r_entry);
        },
    }
    assert(number_free(pk_json(k)));
    let t_entry = ("TableName"@, JsonV::String(table));
    let k_entry = ("Key"@, pk_json(k));
    lemma_nf_entries2(t_entry, k_entry);
    let body = get_request_json(table, k);
    assert(number_free(body));
    crate::parse::lemma_wire_round_trip(body);
}

} // verus!
