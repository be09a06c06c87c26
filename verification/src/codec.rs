//! The attribute codec: the two conversions between the typed-value model,
//! the plain structured form, and the store's tagged wire form, with the
//! round-trip laws that hold of them.

use vstd::prelude::*;
use crate::base64::{b64_decode, b64_encode, base64_decode, base64_encode, lemma_b64_round_trip};
use crate::chars::str_eq;
use crate::error::DynamoDbError;
use crate::json::{
    json_entries_view, json_view, jsons_view, lemma_json_entries_view, lemma_jsons_view,
    plain_shape, plain_shape_entries, plain_shapes, wf_json, wf_json_entries, wf_jsons, JsonV,
    JsonValue,
};
use crate::types::{
    entries_view, item_view, items_view, lemma_entries_view, lemma_items_view, pk_item, unique,
    unique_keys, wf_entries, wf_item, wf_items, Item, ItemV, Number, PrimaryKey, PrimaryKeyV,
    PrimaryKeyValue,
};
use vstd::string::StringExecFns;

verus! {

broadcast use vstd::std_specs::vec::axiom_vec_decreases_to_view, vstd::seq::axiom_seq_index_decreases;

// ---------------------------------------------------------------------------
// The tagged wire form of an attribute value.
// ---------------------------------------------------------------------------

/// The wire object `{tag: v}` with a single tagged field.
pub open spec fn tagged(tag: Seq<char>, v: JsonV) -> JsonV {
    JsonV::Object(seq![(tag, v)])
}

/// The wire form of a sequence of scalar strings.
pub open spec fn strings_json(es: Seq<Seq<char>>) -> Seq<JsonV> {
    es.map_values(|s: Seq<char>| JsonV::String(s))
}

/// The wire form of a sequence of byte strings: each encoded as base64.
pub open spec fn blobs_json(es: Seq<Seq<u8>>) -> Seq<JsonV> {
    es.map_values(|b: Seq<u8>| JsonV::String(b64_encode(b)))
}

/// The tagged wire form of an attribute value.
pub open spec fn typed_of(v: ItemV) -> JsonV
    decreases v,
{
    match v {
        ItemV::Number(n) => tagged(seq!['N'], JsonV::String(n)),
        ItemV::String(s) => tagged(seq!['S'], JsonV::String(s)),
        ItemV::Binary(b) => tagged(seq!['B'], JsonV::String(b64_encode(b))),
        ItemV::Null => tagged(seq!['N', 'U', 'L', 'L'], JsonV::Bool(true)),
        ItemV::StringSet(es) => tagged(seq!['S', 'S'], JsonV::Array(strings_json(es))),
        ItemV::NumberSet(es) => tagged(seq!['N', 'S'], JsonV::Array(strings_json(es))),
        ItemV::BinarySet(es) => tagged(seq!['B', 'S'], JsonV::Array(blobs_json(es))),
        ItemV::List(es) => tagged(seq!['L'], JsonV::Array(typed_list(es))),
        ItemV::Object(es) => tagged(seq!['M'], JsonV::Object(typed_entries(es))),
    }
}

/// The tagged wire forms of a sequence of attribute values.
pub open spec fn typed_list(es: Seq<ItemV>) -> Seq<JsonV>
    decreases es,
{
    if es.len() == 0 {
        Seq::empty()
    } else {
        seq![typed_of(es[0])] + typed_list(es.drop_first())
    }
}

/// The tagged wire forms of a sequence of named attribute values.
pub open spec fn typed_entries(es: Seq<(Seq<char>, ItemV)>) -> Seq<(Seq<char>, JsonV)>
    decreases es,
{
    if es.len() == 0 {
        Seq::empty()
    } else {
        proof {
            assert(decreases_to!(es => es[0]));
            assert(decreases_to!(es[0] => es[0].1));
        }
        seq![(es[0].0, typed_of(es[0].1))] + typed_entries(es.drop_first())
    }
}

/// `typed_list` maps `typed_of` across the sequence, index by index.
pub proof fn lemma_typed_list(es: Seq<ItemV>)
    ensures
        typed_list(es).len() == es.len(),
        forall|k: int| 0 <= k < es.len() ==> typed_list(es)[k] == typed_of(es[k]),
    decreases es.len(),
{
    if es.len() > 0 {
        lemma_typed_list(es.drop_first());
    }
}

/// `typed_entries` keeps each key and tags each value.
pub proof fn lemma_typed_entries(es: Seq<(Seq<char>, ItemV)>)
    ensures
        typed_entries(es).len() == es.len(),
        forall|k: int| 0 <= k < es.len() ==> typed_entries(es)[k] == (es[k].0, typed_of(es[k].1)),
    decreases es.len(),
{
    if es.len() > 0 {
        lemma_typed_entries(es.drop_first());
    }
}

// ---------------------------------------------------------------------------
// Reading the tagged wire form back.
// ---------------------------------------------------------------------------

/// Whether a key is one of the nine attribute type tags.
pub open spec fn recognized_tag(t: Seq<char>) -> bool {
    ||| t == seq!['S']
    ||| t == seq!['N']
    ||| t == seq!['B']
    ||| t == seq!['N', 'U', 'L', 'L']
    ||| t == seq!['S', 'S']
    ||| t == seq!['N', 'S']
    ||| t == seq!['B', 'S']
    ||| t == seq!['L']
    ||| t == seq!['M']
}

/// The scalar strings of a wire array, if every element is a string.
pub open spec fn strings_of(es: Seq<JsonV>) -> Option<Seq<Seq<char>>>
    decreases es,
{
    if es.len() == 0 {
        Some(Seq::empty())
    } else {
        match es[0] {
            JsonV::String(s) => match strings_of(es.drop_first()) {
                Some(t) => Some(seq![s] + t),
                None => None,
            },
            _ => None,
        }
    }
}

/// The byte strings of a wire array, if every element is strict base64 text.
pub open spec fn blobs_of(es: Seq<JsonV>) -> Option<Seq<Seq<u8>>>
    decreases es,
{
    if es.len() == 0 {
        Some(Seq::empty())
    } else {
        match es[0] {
            JsonV::String(s) => match (b64_decode(s), blobs_of(es.drop_first())) {
                (Some(b), Some(t)) => Some(seq![b] + t),
                _ => None,
            },
            _ => None,
        }
    }
}

/// The attribute value a tagged wire value stands for, if the wire value
/// holds exactly one recognized tag whose payload has the right shape.
pub open spec fn item_of_typed(j: JsonV) -> Option<ItemV>
    decreases j,
{
    match j {
        JsonV::Object(fields) => {
            if fields.len() != 1 {
                None
            } else {
                proof {
                    assert(decreases_to!(j => fields));
                    assert(decreases_to!(fields => fields[0]));
                    assert(decreases_to!(fields[0] => fields[0].1));
                }
                let t = fields[0].0;
                let v = fields[0].1;
                if t == seq!['S'] {
                    match v {
                        JsonV::String(s) => Some(ItemV::String(s)),
                        _ => None,
                    }
                } else if t == seq!['N'] {
                    match v {
                        JsonV::String(s) => Some(ItemV::Number(s)),
                        _ => None,
                    }
                } else if t == seq!['B'] {
                    match v {
                        JsonV::String(s) => match b64_decode(s) {
                            Some(b) => Some(ItemV::Binary(b)),
                            None => None,
                        },
                        _ => None,
                    }
                } else if t == seq!['N', 'U', 'L', 'L'] {
                    Some(ItemV::Null)
                } else if t == seq!['S', 'S'] {
                    match v {
                        JsonV::Array(elems) => match strings_of(elems) {
                            Some(ss) => if unique(ss) {
                                Some(ItemV::StringSet(ss))
                            } else {
                                None
                            },
                            None => None,
                        },
                        _ => None,
                    }
                } else if t == seq!['N', 'S'] {
                    match v {
                        JsonV::Array(elems) => match strings_of(elems) {
                            Some(ns) => if unique(ns) {
                                Some(ItemV::NumberSet(ns))
                            } else {
                                None
                            },
                            None => None,
                        },
                        _ => None,
                    }
                } else if t == seq!['B', 'S'] {
                    match v {
                        JsonV::Array(elems) => match blobs_of(elems) {
                            Some(bs) => if unique(bs) {
                                Some(ItemV::BinarySet(bs))
                            } else {
                                None
                            },
                            None => None,
                        },
                        _ => None,
                    }
                } else if t == seq!['L'] {
                    match v {
                        JsonV::Array(elems) => match items_of_typed(elems) {
                            Some(items) => Some(ItemV::List(items)),
                            None => None,
                        },
                        _ => None,
                    }
                } else if t == seq!['M'] {
                    match v {
                        JsonV::Object(inner) => match entries_of_typed(inner) {
                            Some(ents) => if unique_keys(ents) {
                                Some(ItemV::Object(ents))
                            } else {
                                None
                            },
                            None => None,
                        },
                        _ => None,
                    }
                } else {
                    None
                }
            }
        },
        _ => None,
    }
}

/// The attribute values of a wire array, if every element reads back.
pub open spec fn items_of_typed(es: Seq<JsonV>) -> Option<Seq<ItemV>>
    decreases es,
{
    if es.len() == 0 {
        Some(Seq::empty())
    } else {
        match (item_of_typed(es[0]), items_of_typed(es.drop_first())) {
            (Some(h), Some(t)) => Some(seq![h] + t),
            _ => None,
        }
    }
}

/// The named attribute values of a wire object, if every entry reads back.
pub open spec fn entries_of_typed(es: Seq<(Seq<char>, JsonV)>) -> Option<
    Seq<(Seq<char>, ItemV)>,
>
    decreases es,
{
    if es.len() == 0 {
        Some(Seq::empty())
    } else {
        proof {
            assert(decreases_to!(es => es[0]));
            assert(decreases_to!(es[0] => es[0].1));
        }
        match (item_of_typed(es[0].1), entries_of_typed(es.drop_first())) {
            (Some(h), Some(t)) => Some(seq![(es[0].0, h)] + t),
            _ => None,
        }
    }
}

// ---------------------------------------------------------------------------
// The plain structured form of an attribute value, and back.
// ---------------------------------------------------------------------------

/// The attribute value a plain structured value stands for. Numbers and
/// booleans have no typed counterpart in this codec and read as nothing.
pub open spec fn item_of_plain(j: JsonV) -> Option<ItemV>
    decreases j,
{
    match j {
        JsonV::Null => Some(ItemV::Null),
        JsonV::Bool(_) => None,
        JsonV::Number(_) => None,
        JsonV::String(s) => Some(ItemV::String(s)),
        JsonV::Array(es) => {
            proof {
                assert(decreases_to!(j => es));
            }
            match items_of_plain(es) {
                Some(items) => Some(ItemV::List(items)),
                None => None,
            }
        },
        JsonV::Object(es) => {
            proof {
                assert(decreases_to!(j => es));
            }
            match entries_of_plain(es) {
                Some(ents) => if unique_keys(ents) {
                    Some(ItemV::Object(ents))
                } else {
                    None
                },
                None => None,
            }
        },
    }
}

/// The attribute values of a plain array, if every element converts.
pub open spec fn items_of_plain(es: Seq<JsonV>) -> Option<Seq<ItemV>>
    decreases es,
{
    if es.len() == 0 {
        Some(Seq::empty())
    } else {
        match (item_of_plain(es[0]), items_of_plain(es.drop_first())) {
            (Some(h), Some(t)) => Some(seq![h] + t),
            _ => None,
        }
    }
}

/// The named attribute values of a plain object, if every entry converts.
pub open spec fn entries_of_plain(es: Seq<(Seq<char>, JsonV)>) -> Option<
    Seq<(Seq<char>, ItemV)>,
>
    decreases es,
{
    if es.len() == 0 {
        Some(Seq::empty())
    } else {
        proof {
            assert(decreases_to!(es => es[0]));
            assert(decreases_to!(es[0] => es[0].1));
        }
        match (item_of_plain(es[0].1), entries_of_plain(es.drop_first())) {
            (Some(h), Some(t)) => Some(seq![(es[0].0, h)] + t),
            _ => None,
        }
    }
}

/// The plain structured form of an attribute value. Numbers, sets and
/// binary values have no plain counterpart in this codec.
pub open spec fn plain_of_item(v: ItemV) -> Option<JsonV>
    decreases v,
{
    match v {
        ItemV::Number(_) => None,
        ItemV::String(s) => Some(JsonV::String(s)),
        ItemV::Binary(_) => None,
        ItemV::Null => Some(JsonV::Null),
        ItemV::StringSet(_) => None,
        ItemV::NumberSet(_) => None,
        ItemV::BinarySet(_) => None,
        ItemV::List(es) => {
            proof {
                assert(decreases_to!(v => es));
            }
            match plains_of_items(es) {
                Some(items) => Some(JsonV::Array(items)),
                None => None,
            }
        },
        ItemV::Object(es) => {
            proof {
                assert(decreases_to!(v => es));
            }
            match plains_of_entries(es) {
                Some(ents) => Some(JsonV::Object(ents)),
                None => None,
            }
        },
    }
}

/// The plain forms of a sequence of attribute values, if every one converts.
pub open spec fn plains_of_items(es: Seq<ItemV>) -> Option<Seq<JsonV>>
    decreases es,
{
    if es.len() == 0 {
        Some(Seq::empty())
    } else {
        match (plain_of_item(es[0]), plains_of_items(es.drop_first())) {
            (Some(h), Some(t)) => Some(seq![h] + t),
            _ => None,
        }
    }
}

/// The plain forms of a sequence of named values, if every one converts.
pub open spec fn plains_of_entries(es: Seq<(Seq<char>, ItemV)>) -> Option<
    Seq<(Seq<char>, JsonV)>,
>
    decreases es,
{
    if es.len() == 0 {
        Some(Seq::empty())
    } else {
        proof {
            assert(decreases_to!(es => es[0]));
            assert(decreases_to!(es[0] => es[0].1));
        }
        match (plain_of_item(es[0].1), plains_of_entries(es.drop_first())) {
            (Some(h), Some(t)) => Some(seq![(es[0].0, h)] + t),
            _ => None,
        }
    }
}

// ---------------------------------------------------------------------------
// Round-trip laws.
// ---------------------------------------------------------------------------

/// The nine type tags are pairwise distinct.
pub proof fn lemma_tags_distinct()
    ensures
        seq!['S'] != seq!['N'],
        seq!['S'] != seq!['B'],
        seq!['N'] != seq!['B'],
        seq!['S'] != seq!['L'],
        seq!['N'] != seq!['L'],
        seq!['B'] != seq!['L'],
        seq!['S'] != seq!['M'],
        seq!['N'] != seq!['M'],
        seq!['B'] != seq!['M'],
        seq!['L'] != seq!['M'],
        seq!['S', 'S'] != seq!['N', 'S'],
        seq!['S', 'S'] != seq!['B', 'S'],
        seq!['N', 'S'] != seq!['B', 'S'],
{
    assert(seq!['S'][0] == 'S');
    assert(seq!['N'][0] == 'N');
    assert(seq!['B'][0] == 'B');
    assert(seq!['L'][0] == 'L');
    assert(seq!['M'][0] == 'M');
    assert(seq!['S', 'S'][0] == 'S');
    assert(seq!['N', 'S'][0] == 'N');
    assert(seq!['B', 'S'][0] == 'B');
}

/// Reading scalar strings back from their wire array is the identity.
proof fn lemma_strings_round_trip(es: Seq<Seq<char>>)
    ensures
        strings_of(strings_json(es)) == Some(es),
    decreases es.len(),
{
    if es.len() > 0 {
        lemma_strings_round_trip(es.drop_first());
        assert(strings_json(es).drop_first() =~= strings_json(es.drop_first()));
        assert(strings_of(strings_json(es)).unwrap() =~= es);
    } else {
        assert(strings_json(es).len() == 0);
        assert(strings_of(strings_json(es)).unwrap() =~= es);
    }
}

/// Reading byte strings back from their base64 wire array is the identity.
proof fn lemma_blobs_round_trip(es: Seq<Seq<u8>>)
    ensures
        blobs_of(blobs_json(es)) == Some(es),
    decreases es.len(),
{
    if es.len() > 0 {
        lemma_b64_round_trip(es[0]);
        lemma_blobs_round_trip(es.drop_first());
        assert(blobs_json(es).drop_first() =~= blobs_json(es.drop_first()));
        assert(blobs_of(blobs_json(es)).unwrap() =~= es);
    } else {
        assert(blobs_json(es).len() == 0);
        assert(blobs_of(blobs_json(es)).unwrap() =~= es);
    }
}

/// Reading a well-formed attribute value back from its tagged wire form
/// yields the value again.
pub proof fn lemma_typed_round_trip(v: ItemV)
    requires
        wf_item(v),
    ensures
        item_of_typed(typed_of(v)) == Some(v),
    decreases v,
{
    lemma_tags_distinct();
    match v {
        ItemV::Number(n) => {
            let fields = seq![(seq!['N'], JsonV::String(n))];
            assert(typed_of(v) == JsonV::Object(fields));
            assert(fields.len() == 1);
            assert(fields[0].0 == seq!['N']);
            assert(fields[0].1 == JsonV::String(n));
            assert(item_of_typed(typed_of(v)) == Some(v));
        },
        ItemV::String(s) => {
            let fields = seq![(seq!['S'], JsonV::String(s))];
            assert(typed_of(v) == JsonV::Object(fields));
            assert(fields.len() == 1);
            assert(fields[0].0 == seq!['S']);
            assert(fields[0].1 == JsonV::String(s));
            assert(item_of_typed(typed_of(v)) == Some(v));
        },
        ItemV::Binary(b) => {
            lemma_b64_round_trip(b);
            let fields = seq![(seq!['B'], JsonV::String(b64_encode(b)))];
            assert(typed_of(v) == JsonV::Object(fields));
            assert(fields.len() == 1);
            assert(fields[0].0 == seq!['B']);
            assert(fields[0].1 == JsonV::String(b64_encode(b)));
            assert(item_of_typed(typed_of(v)) == Some(v));
        },
        ItemV::Null => {
            let fields = seq![(seq!['N', 'U', 'L', 'L'], JsonV::Bool(true))];
            assert(typed_of(v) == JsonV::Object(fields));
            assert(fields.len() == 1);
            assert(fields[0].0 == seq!['N', 'U', 'L', 'L']);
            assert(fields[0].1 == JsonV::Bool(true));
            assert(item_of_typed(typed_of(v)) == Some(v));
        },
        ItemV::StringSet(es) => {
            lemma_strings_round_trip(es);
            let fields = seq![(seq!['S', 'S'], JsonV::Array(strings_json(es)))];
            assert(typed_of(v) == JsonV::Object(fields));
            assert(fields.len() == 1);
            assert(fields[0].0 == seq!['S', 'S']);
            assert(fields[0].1 == JsonV::Array(strings_json(es)));
            assert(item_of_typed(typed_of(v)) == Some(v));
        },
        ItemV::NumberSet(es) => {
            lemma_strings_round_trip(es);
            let fields = seq![(seq!['N', 'S'], JsonV::Array(strings_json(es)))];
            assert(typed_of(v) == JsonV::Object(fields));
            assert(fields.len() == 1);
            assert(fields[0].0 == seq!['N', 'S']);
            assert(fields[0].1 == JsonV::Array(strings_json(es)));
            assert(item_of_typed(typed_of(v)) == Some(v));
        },
        ItemV::BinarySet(es) => {
            lemma_blobs_round_trip(es);
            let fields = seq![(seq!['B', 'S'], JsonV::Array(blobs_json(es)))];
            assert(typed_of(v) == JsonV::Object(fields));
            assert(fields.len() == 1);
            assert(fields[0].0 == seq!['B', 'S']);
            assert(fields[0].1 == JsonV::Array(blobs_json(es)));
            assert(item_of_typed(typed_of(v)) == Some(v));
        },
        ItemV::List(es) => {
            assert(decreases_to!(v => es));
            lemma_typed_list_round_trip(es);
            let fields = seq![(seq!['L'], JsonV::Array(typed_list(es)))];
            assert(typed_of(v) == JsonV::Object(fields));
            assert(fields.len() == 1);
            assert(fields[0].0 == seq!['L']);
            assert(fields[0].1 == JsonV::Array(typed_list(es)));
            assert(item_of_typed(typed_of(v)) == Some(v));
        },
        ItemV::Object(es) => {
            assert(decreases_to!(v => es));
            lemma_typed_entries_round_trip(es);
            let fields = seq![(seq!['M'], JsonV::Object(typed_entries(es)))];
            assert(typed_of(v) == JsonV::Object(fields));
            assert(fields.len() == 1);
            assert(fields[0].0 == seq!['M']);
            assert(fields[0].1 == JsonV::Object(typed_entries(es)));
            assert(item_of_typed(typed_of(v)) == Some(v));
        },
    }
}

/// Reading a sequence of well-formed values back from their wire forms
/// yields the sequence again.
proof fn lemma_typed_list_round_trip(es: Seq<ItemV>)
    requires
        wf_items(es),
    ensures
        items_of_typed(typed_list(es)) == Some(es),
    decreases es,
{
    if es.len() > 0 {
        lemma_typed_round_trip(es[0]);
        lemma_typed_list_round_trip(es.drop_first());
        assert(typed_list(es).drop_first() =~= typed_list(es.drop_first()));
        assert(items_of_typed(typed_list(es)).unwrap() =~= es);
    } else {
        assert(typed_list(es).len() == 0);
        assert(items_of_typed(typed_list(es)).unwrap() =~= es);
    }
}

/// Reading named well-formed values back from their wire forms yields the
/// entries again.
proof fn lemma_typed_entries_round_trip(es: Seq<(Seq<char>, ItemV)>)
    requires
        wf_entries(es),
    ensures
        entries_of_typed(typed_entries(es)) == Some(es),
    decreases es,
{
    if es.len() > 0 {
        assert(decreases_to!(es => es[0]));
        assert(decreases_to!(es[0] => es[0].1));
        lemma_typed_round_trip(es[0].1);
        lemma_typed_entries_round_trip(es.drop_first());
        assert(typed_entries(es).drop_first() =~= typed_entries(es.drop_first()));
        assert(entries_of_typed(typed_entries(es)).unwrap() =~= es);
    } else {
        assert(typed_entries(es).len() == 0);
        assert(entries_of_typed(typed_entries(es)).unwrap() =~= es);
    }
}

/// Taking a plain structured value of the supported primitive shapes into
/// the typed-value model and back yields the value again, and the model
/// value it passes through is well-formed.
pub proof fn lemma_plain_round_trip(p: JsonV)
    requires
        plain_shape(p),
        wf_json(p),
    ensures
        item_of_plain(p) is Some,
        wf_item(item_of_plain(p).unwrap()),
        plain_of_item(item_of_plain(p).unwrap()) == Some(p),
    decreases p,
{
    match p {
        JsonV::Null => {},
        JsonV::Bool(_) => {},
        JsonV::Number(_) => {},
        JsonV::String(_) => {},
        JsonV::Array(es) => {
            assert(decreases_to!(p => es));
            lemma_plain_items_round_trip(es);
        },
        JsonV::Object(es) => {
            assert(decreases_to!(p => es));
            lemma_plain_entries_round_trip(es);
            let ents = entries_of_plain(es).unwrap();
            assert(forall|i: int, j: int|
                0 <= i < j < ents.len() ==> ents[i].0 == es[i].0 && ents[j].0 == es[j].0);
            assert(unique_keys(ents));
        },
    }
}

/// The element-wise form of the plain round trip.
proof fn lemma_plain_items_round_trip(es: Seq<JsonV>)
    requires
        plain_shapes(es),
        wf_jsons(es),
    ensures
        items_of_plain(es) is Some,
        wf_items(items_of_plain(es).unwrap()),
        plains_of_items(items_of_plain(es).unwrap()) == Some(es),
    decreases es,
{
    if es.len() > 0 {
        lemma_plain_round_trip(es[0]);
        lemma_plain_items_round_trip(es.drop_first());
        let items = items_of_plain(es).unwrap();
        assert(items =~= seq![item_of_plain(es[0]).unwrap()] + items_of_plain(
            es.drop_first(),
        ).unwrap());
        assert(items.drop_first() =~= items_of_plain(es.drop_first()).unwrap());
        assert(plains_of_items(items).unwrap() =~= es);
    } else {
        assert(items_of_plain(es).unwrap().len() == 0);
        assert(plains_of_items(items_of_plain(es).unwrap()).unwrap() =~= es);
    }
}

/// The entry-wise form of the plain round trip; keys are kept unchanged.
proof fn lemma_plain_entries_round_trip(es: Seq<(Seq<char>, JsonV)>)
    requires
        plain_shape_entries(es),
        wf_json_entries(es),
    ensures
        entries_of_plain(es) is Some,
        entries_of_plain(es).unwrap().len() == es.len(),
        forall|k: int|
            0 <= k < es.len() ==> entries_of_plain(es).unwrap()[k].0 == es[k].0,
        wf_entries(entries_of_plain(es).unwrap()),
        unique_keys(es) ==> plains_of_entries(entries_of_plain(es).unwrap()) == Some(es),
    decreases es,
{
    if es.len() > 0 {
        assert(decreases_to!(es => es[0]));
        assert(decreases_to!(es[0] => es[0].1));
        lemma_plain_round_trip(es[0].1);
        lemma_plain_entries_round_trip(es.drop_first());
        let ents = entries_of_plain(es).unwrap();
        assert(ents =~= seq![(es[0].0, item_of_plain(es[0].1).unwrap())] + entries_of_plain(
            es.drop_first(),
        ).unwrap());
        assert(ents.drop_first() =~= entries_of_plain(es.drop_first()).unwrap());
        assert forall|k: int| 0 <= k < es.len() implies ents[k].0 == es[k].0 by {
            if k >= 1 {
                assert(ents[k] == ents.drop_first()[k - 1]);
                assert(es[k] == es.drop_first()[k - 1]);
            }
        }
        if unique_keys(es) {
            assert(unique_keys(es.drop_first()));
            assert(plains_of_entries(ents).unwrap() =~= es);
        }
    } else {
        assert(entries_of_plain(es).unwrap().len() == 0);
        assert(plains_of_entries(entries_of_plain(es).unwrap()).unwrap() =~= es);
    }
}

/// How many entries of a wire object carry a recognized type tag.
pub open spec fn recognized_count(es: Seq<(Seq<char>, JsonV)>) -> nat
    decreases es,
{
    if es.len() == 0 {
        0
    } else {
        (if recognized_tag(es[0].0) {
            1nat
        } else {
            0nat
        }) + recognized_count(es.drop_first())
    }
}

/// Tag exclusivity: a wire object that does not carry exactly one
/// recognized type tag stands for no attribute value.
pub proof fn lemma_tag_exclusivity(es: Seq<(Seq<char>, JsonV)>)
    requires
        recognized_count(es) != 1,
    ensures
        item_of_typed(JsonV::Object(es)) is None,
{
    if es.len() == 1 {
        assert(recognized_count(es.drop_first()) == 0);
        assert(!recognized_tag(es[0].0));
    }
}

/// An unrecognized key anywhere in a wire object also stands for no
/// attribute value: a tagged wire value carries its tag and nothing else.
pub proof fn lemma_unrecognized_tag(es: Seq<(Seq<char>, JsonV)>, k: int)
    requires
        0 <= k < es.len(),
        !recognized_tag(es[k].0),
    ensures
        item_of_typed(JsonV::Object(es)) is None,
{
}

// ---------------------------------------------------------------------------
// The top-level item contract.
// ---------------------------------------------------------------------------

/// The wire object of a whole item. Only a map can stand at the top level
/// of an item.
pub open spec fn typed_map_of(v: ItemV) -> Option<JsonV> {
    match v {
        ItemV::Object(es) => Some(JsonV::Object(typed_entries(es))),
        _ => None,
    }
}

/// The top-level round trip: reading a well-formed item back from the wire
/// object that `typed_map_of` gives it yields the item again.
pub proof fn lemma_typed_map_round_trip(v: ItemV)
    requires
        wf_item(v),
        v is Object,
    ensures
        typed_map_of(v) is Some,
        item_of_typed_map(typed_map_of(v).unwrap()) == Some(v),
{
    match v {
        ItemV::Object(es) => {
            lemma_typed_entries_round_trip(es);
        },
        _ => {},
    }
}

/// The item a response's wire object stands for.
pub open spec fn item_of_typed_map(j: JsonV) -> Option<ItemV> {
    match j {
        JsonV::Object(fields) => match entries_of_typed(fields) {
            Some(ents) => if unique_keys(ents) {
                Some(ItemV::Object(ents))
            } else {
                None
            },
            None => None,
        },
        _ => None,
    }
}


// ---------------------------------------------------------------------------
// Executable conversions.
// ---------------------------------------------------------------------------

/// The wire object `{tag: v}` with a single tagged field.
fn tag_object(tag: &str, v: JsonValue) -> (r: JsonValue)
    ensures
        r@ == tagged(tag@, v@),
{
    let mut entries: Vec<(String, JsonValue)> = Vec::new();
    let ghost payload = v@;
    entries.push((tag.to_owned(), v));
    proof {
        lemma_json_entries_view(entries@);
        assert(json_entries_view(entries@) =~= seq![(tag@, payload)]);
    }
    JsonValue::Object(entries)
}

impl Item {
    /// The tagged wire form of this attribute value, covering all nine
    /// shapes of the data model.
    #[verifier::loop_isolation(false)]
    pub fn to_typed_json(&self) -> (r: JsonValue)
        ensures
            r@ == typed_of(self@),
        decreases self,
    {
        match self {
            Item::Number(n) => {
                let r = tag_object("N", JsonValue::String(n.as_string().to_owned()));
                proof {
                    reveal_strlit("N");
                    assert(("N")@ =~= seq!['N']);
                }
                r
            },
            Item::String(s) => {
                let r = tag_object("S", JsonValue::String(s.clone()));
                proof {
                    reveal_strlit("S");
                    assert(("S")@ =~= seq!['S']);
                }
                r
            },
            Item::Binary(b) => {
                let r = tag_object("B", JsonValue::String(base64_encode(b.as_slice())));
                proof {
                    reveal_strlit("B");
                    assert(("B")@ =~= seq!['B']);
                }
                r
            },
            Item::Null => {
                let r = tag_object("NULL", JsonValue::Bool(true));
                proof {
                    reveal_strlit("NULL");
                    assert(("NULL")@ =~= seq!['N', 'U', 'L', 'L']);
                }
                r
            },
            Item::StringSet(ss) => {
                let mut elems: Vec<JsonValue> = Vec::new();
                let mut i: usize = 0;
                while i < ss.len()
                    invariant
                        i <= ss@.len(),
                        elems@.len() == i,
                        forall|k: int|
                            0 <= k < i ==> json_view(elems@[k]) == JsonV::String(ss@[k]@),
                    decreases ss@.len() - i,
                {
                    elems.push(JsonValue::String(ss[i].clone()));
                    i = i + 1;
                }
                proof {
                    lemma_jsons_view(elems@);
                    assert(jsons_view(elems@) =~= strings_json(ss.deep_view()));
                }
                let r = tag_object("SS", JsonValue::Array(elems));
                proof {
                    reveal_strlit("SS");
                    assert(("SS")@ =~= seq!['S', 'S']);
                }
                r
            },
            Item::NumberSet(ns) => {
                let mut elems: Vec<JsonValue> = Vec::new();
                let mut i: usize = 0;
                while i < ns.len()
                    invariant
                        i <= ns@.len(),
                        elems@.len() == i,
                        forall|k: int|
                            0 <= k < i ==> json_view(elems@[k]) == JsonV::String(ns@[k]@),
                    decreases ns@.len() - i,
                {
                    elems.push(JsonValue::String(ns[i].as_string().to_owned()));
                    i = i + 1;
                }
                proof {
                    lemma_jsons_view(elems@);
                    assert(jsons_view(elems@) =~= strings_json(
                        Seq::new(ns@.len(), |k: int| ns@[k]@),
                    ));
                }
                let r = tag_object("NS", JsonValue::Array(elems));
                proof {
                    reveal_strlit("NS");
                    assert(("NS")@ =~= seq!['N', 'S']);
                }
                r
            },
            Item::BinarySet(bs) => {
                let mut elems: Vec<JsonValue> = Vec::new();
                let mut i: usize = 0;
                while i < bs.len()
                    invariant
                        i <= bs@.len(),
                        elems@.len() == i,
                        forall|k: int|
                            0 <= k < i ==> json_view(elems@[k]) == JsonV::String(
                                b64_encode(bs@[k]@),
                            ),
                    decreases bs@.len() - i,
                {
                    elems.push(JsonValue::String(base64_encode(bs[i].as_slice())));
                    i = i + 1;
                }
                proof {
                    lemma_jsons_view(elems@);
                    assert forall|k: int| 0 <= k < bs@.len() implies bs.deep_view()[k] == bs@[k]@ by {
                        assert(bs.deep_view()[k] =~= bs@[k]@);
                    }
                    assert(jsons_view(elems@) =~= blobs_json(bs.deep_view()));
                }
                let r = tag_object("BS", JsonValue::Array(elems));
                proof {
                    reveal_strlit("BS");
                    assert(("BS")@ =~= seq!['B', 'S']);
                }
                r
            },
            Item::List(items) => {
                let mut elems: Vec<JsonValue> = Vec::new();
                let mut i: usize = 0;
                while i < items.len()
                    invariant
                        i <= items@.len(),
                        elems@.len() == i,
                        forall|k: int|
                            0 <= k < i ==> json_view(elems@[k]) == typed_of(
                                item_view(items@[k]),
                            ),
                    decreases items@.len() - i,
                {
                    proof {
                        assert(decreases_to!(*self => *items));
                        assert(decreases_to!(*items => items@));
                    }
                    elems.push(items[i].to_typed_json());
                    i = i + 1;
                }
                proof {
                    lemma_jsons_view(elems@);
                    lemma_items_view(items@);
                    lemma_typed_list(items_view(items@));
                    assert(jsons_view(elems@) =~= typed_list(items_view(items@)));
                }
                let r = tag_object("L", JsonValue::Array(elems));
                proof {
                    reveal_strlit("L");
                    assert(("L")@ =~= seq!['L']);
                }
                r
            },
            Item::Object(entries) => {
                let mut fields: Vec<(String, JsonValue)> = Vec::new();
                let mut i: usize = 0;
                while i < entries.len()
                    invariant
                        i <= entries@.len(),
                        fields@.len() == i,
                        forall|k: int|
                            0 <= k < i ==> fields@[k].0@ == entries@[k].0@ && json_view(
                                fields@[k].1,
                            ) == typed_of(item_view(entries@[k].1)),
                    decreases entries@.len() - i,
                {
                    proof {
                        assert(decreases_to!(*self => *entries));
                        assert(decreases_to!(*entries => entries@));
                    }
                    let e = &entries[i];
                    fields.push((e.0.clone(), e.1.to_typed_json()));
                    i = i + 1;
                }
                proof {
                    lemma_json_entries_view(fields@);
                    lemma_entries_view(entries@);
                    lemma_typed_entries(entries_view(entries@));
                    assert(json_entries_view(fields@) =~= typed_entries(entries_view(entries@)));
                }
                let r = tag_object("M", JsonValue::Object(fields));
                proof {
                    reveal_strlit("M");
                    assert(("M")@ =~= seq!['M']);
                }
                r
            },
        }
    }
}


// ---------------------------------------------------------------------------
// Index characterizations of the sequence decoders.
// ---------------------------------------------------------------------------

/// `strings_of` succeeds exactly when every element is a string, and then
/// reads the strings off index by index.
pub proof fn lemma_strings_of(es: Seq<JsonV>)
    ensures
        (strings_of(es) is Some <==> (forall|k: int| 0 <= k < es.len() ==> es[k] is String)),
        strings_of(es) matches Some(r) ==> r.len() == es.len() && (forall|k: int|
            0 <= k < es.len() ==> r[k] == es[k]->String_0),
    decreases es.len(),
{
    if es.len() > 0 {
        lemma_strings_of(es.drop_first());
        assert(forall|k: int| 0 <= k < es.drop_first().len() ==> es.drop_first()[k] == es[k + 1]);
        assert(forall|k: int| 1 <= k < es.len() ==> es[k] == es.drop_first()[k - 1]);
    }
}

/// `blobs_of` succeeds exactly when every element is a strict base64
/// string, and then reads the decoded bytes off index by index.
pub proof fn lemma_blobs_of(es: Seq<JsonV>)
    ensures
        (blobs_of(es) is Some <==> (forall|k: int|
            0 <= k < es.len() ==> es[k] is String && b64_decode(es[k]->String_0) is Some)),
        blobs_of(es) matches Some(r) ==> r.len() == es.len() && (forall|k: int|
            0 <= k < es.len() ==> Some(r[k]) == b64_decode(es[k]->String_0)),
    decreases es.len(),
{
    if es.len() > 0 {
        lemma_blobs_of(es.drop_first());
        assert(forall|k: int| 0 <= k < es.drop_first().len() ==> es.drop_first()[k] == es[k + 1]);
        assert(forall|k: int| 1 <= k < es.len() ==> es[k] == es.drop_first()[k - 1]);
    }
}

/// `items_of_typed` succeeds exactly when every element reads back, and
/// then reads the values off index by index.
pub proof fn lemma_items_of_typed(es: Seq<JsonV>)
    ensures
        (items_of_typed(es) is Some <==> (forall|k: int|
            0 <= k < es.len() ==> item_of_typed(es[k]) is Some)),
        items_of_typed(es) matches Some(r) ==> r.len() == es.len() && (forall|k: int|
            0 <= k < es.len() ==> Some(r[k]) == item_of_typed(es[k])),
    decreases es.len(),
{
    if es.len() > 0 {
        lemma_items_of_typed(es.drop_first());
        assert(forall|k: int| 0 <= k < es.drop_first().len() ==> es.drop_first()[k] == es[k + 1]);
        assert(forall|k: int| 1 <= k < es.len() ==> es[k] == es.drop_first()[k - 1]);
    }
}

/// `entries_of_typed` succeeds exactly when every entry's value reads
/// back, keeping each key.
pub proof fn lemma_entries_of_typed(es: Seq<(Seq<char>, JsonV)>)
    ensures
        (entries_of_typed(es) is Some <==> (forall|k: int|
            0 <= k < es.len() ==> item_of_typed(es[k].1) is Some)),
        entries_of_typed(es) matches Some(r) ==> r.len() == es.len() && (forall|k: int|
            0 <= k < es.len() ==> r[k].0 == es[k].0 && Some(r[k].1) == item_of_typed(es[k].1)),
    decreases es.len(),
{
    if es.len() > 0 {
        lemma_entries_of_typed(es.drop_first());
        assert(forall|k: int| 0 <= k < es.drop_first().len() ==> es.drop_first()[k] == es[k + 1]);
        assert(forall|k: int| 1 <= k < es.len() ==> es[k] == es.drop_first()[k - 1]);
    }
}

/// `items_of_plain` succeeds exactly when every element converts, and then
/// reads the values off index by index.
pub proof fn lemma_items_of_plain(es: Seq<JsonV>)
    ensures
        (items_of_plain(es) is Some <==> (forall|k: int|
            0 <= k < es.len() ==> item_of_plain(es[k]) is Some)),
        items_of_plain(es) matches Some(r) ==> r.len() == es.len() && (forall|k: int|
            0 <= k < es.len() ==> Some(r[k]) == item_of_plain(es[k])),
    decreases es.len(),
{
    if es.len() > 0 {
        lemma_items_of_plain(es.drop_first());
        assert(forall|k: int| 0 <= k < es.drop_first().len() ==> es.drop_first()[k] == es[k + 1]);
        assert(forall|k: int| 1 <= k < es.len() ==> es[k] == es.drop_first()[k - 1]);
    }
}

/// `entries_of_plain` succeeds exactly when every entry's value converts,
/// keeping each key.
pub proof fn lemma_entries_of_plain(es: Seq<(Seq<char>, JsonV)>)
    ensures
        (entries_of_plain(es) is Some <==> (forall|k: int|
            0 <= k < es.len() ==> item_of_plain(es[k].1) is Some)),
        entries_of_plain(es) matches Some(r) ==> r.len() == es.len() && (forall|k: int|
            0 <= k < es.len() ==> r[k].0 == es[k].0 && Some(r[k].1) == item_of_plain(es[k].1)),
    decreases es.len(),
{
    if es.len() > 0 {
        lemma_entries_of_plain(es.drop_first());
        assert(forall|k: int| 0 <= k < es.drop_first().len() ==> es.drop_first()[k] == es[k + 1]);
        assert(forall|k: int| 1 <= k < es.len() ==> es[k] == es.drop_first()[k - 1]);
    }
}

/// `plains_of_items` succeeds exactly when every value converts, and then
/// reads the plain forms off index by index.
pub proof fn lemma_plains_of_items(es: Seq<ItemV>)
    ensures
        (plains_of_items(es) is Some <==> (forall|k: int|
            0 <= k < es.len() ==> plain_of_item(es[k]) is Some)),
        plains_of_items(es) matches Some(r) ==> r.len() == es.len() && (forall|k: int|
            0 <= k < es.len() ==> Some(r[k]) == plain_of_item(es[k])),
    decreases es.len(),
{
    if es.len() > 0 {
        lemma_plains_of_items(es.drop_first());
        assert(forall|k: int| 0 <= k < es.drop_first().len() ==> es.drop_first()[k] == es[k + 1]);
        assert(forall|k: int| 1 <= k < es.len() ==> es[k] == es.drop_first()[k - 1]);
    }
}

/// `plains_of_entries` succeeds exactly when every entry's value converts,
/// keeping each key.
pub proof fn lemma_plains_of_entries(es: Seq<(Seq<char>, ItemV)>)
    ensures
        (plains_of_entries(es) is Some <==> (forall|k: int|
            0 <= k < es.len() ==> plain_of_item(es[k].1) is Some)),
        plains_of_entries(es) matches Some(r) ==> r.len() == es.len() && (forall|k: int|
            0 <= k < es.len() ==> r[k].0 == es[k].0 && Some(r[k].1) == plain_of_item(es[k].1)),
    decreases es.len(),
{
    if es.len() > 0 {
        lemma_plains_of_entries(es.drop_first());
        assert(forall|k: int| 0 <= k < es.drop_first().len() ==> es.drop_first()[k] == es[k + 1]);
        assert(forall|k: int| 1 <= k < es.len() ==> es[k] == es.drop_first()[k - 1]);
    }
}


// ---------------------------------------------------------------------------
// Equality and uniqueness checks used by the decoders.
// ---------------------------------------------------------------------------

/// Whether two byte sequences are equal.
fn bytes_eq(a: &Vec<u8>, b: &Vec<u8>) -> (r: bool)
    ensures
        r == (a@ == b@),
{
    if a.len() != b.len() {
        proof {
            assert(a@ != b@);
        }
        return false;
    }
    let mut i: usize = 0;
    while i < a.len()
        invariant
            i <= a@.len(),
            a@.len() == b@.len(),
            forall|k: int| 0 <= k < i ==> a@[k] == b@[k],
        decreases a@.len() - i,
    {
        if a[i] != b[i] {
            return false;
        }
        i = i + 1;
    }
    proof {
        assert(a@ =~= b@);
    }
    true
}

/// Whether the strings are pairwise distinct.
#[verifier::loop_isolation(false)]
fn strings_unique(v: &Vec<String>) -> (r: bool)
    ensures
        r == unique(v.deep_view()),
{
    let ghost m = v.deep_view();
    proof {
        assert(m.len() == v@.len());
        assert(forall|k: int| 0 <= k < v@.len() ==> m[k] == v@[k]@);
    }
    let mut i: usize = 0;
    while i < v.len()
        invariant
            i <= v@.len(),
            forall|p: int, q: int| 0 <= p < q < m.len() && p < i ==> m[p] != m[q],
        decreases v@.len() - i,
    {
        let mut j: usize = i + 1;
        while j < v.len()
            invariant
                i < j <= v@.len(),
                forall|q: int| i < q < j ==> m[i as int] != m[q],
            decreases v@.len() - j,
        {
            if str_eq(v[i].as_str(), v[j].as_str()) {
                proof {
                    assert(m[i as int] == m[j as int]);
                }
                return false;
            }
            j = j + 1;
        }
        i = i + 1;
    }
    true
}

/// Whether the numbers are pairwise distinct by their decimal strings.
#[verifier::loop_isolation(false)]
fn numbers_unique(v: &Vec<Number>) -> (r: bool)
    ensures
        r == unique(Seq::new(v@.len(), |k: int| v@[k]@)),
{
    let ghost m = Seq::new(v@.len(), |k: int| v@[k]@);
    let mut i: usize = 0;
    while i < v.len()
        invariant
            i <= v@.len(),
            forall|p: int, q: int| 0 <= p < q < m.len() && p < i ==> m[p] != m[q],
        decreases v@.len() - i,
    {
        let mut j: usize = i + 1;
        while j < v.len()
            invariant
                i < j <= v@.len(),
                forall|q: int| i < q < j ==> m[i as int] != m[q],
            decreases v@.len() - j,
        {
            if str_eq(v[i].as_string(), v[j].as_string()) {
                proof {
                    assert(m[i as int] == m[j as int]);
                }
                return false;
            }
            j = j + 1;
        }
        i = i + 1;
    }
    true
}

/// Whether the byte strings are pairwise distinct.
#[verifier::loop_isolation(false)]
fn blobs_unique(v: &Vec<Vec<u8>>) -> (r: bool)
    ensures
        r == unique(v.deep_view()),
{
    let ghost m = v.deep_view();
    proof {
        assert(m.len() == v@.len());
        assert forall|k: int| 0 <= k < v@.len() implies m[k] == v@[k]@ by {
            assert(m[k] =~= v@[k]@);
        }
    }
    let mut i: usize = 0;
    while i < v.len()
        invariant
            i <= v@.len(),
            forall|p: int, q: int| 0 <= p < q < m.len() && p < i ==> m[p] != m[q],
        decreases v@.len() - i,
    {
        let mut j: usize = i + 1;
        while j < v.len()
            invariant
                i < j <= v@.len(),
                forall|q: int| i < q < j ==> m[i as int] != m[q],
            decreases v@.len() - j,
        {
            if bytes_eq(&v[i], &v[j]) {
                proof {
                    assert(m[i as int] == m[j as int]);
                }
                return false;
            }
            j = j + 1;
        }
        i = i + 1;
    }
    true
}

/// Whether the entries' keys are pairwise distinct.
#[verifier::loop_isolation(false)]
fn entry_keys_unique(v: &Vec<(String, Item)>) -> (r: bool)
    ensures
        r == unique_keys(entries_view(v@)),
{
    let ghost m = entries_view(v@);
    proof {
        lemma_entries_view(v@);
    }
    let mut i: usize = 0;
    while i < v.len()
        invariant
            i <= v@.len(),
            forall|p: int, q: int| 0 <= p < q < m.len() && p < i ==> m[p].0 != m[q].0,
        decreases v@.len() - i,
    {
        let mut j: usize = i + 1;
        while j < v.len()
            invariant
                i < j <= v@.len(),
                forall|q: int| i < q < j ==> m[i as int].0 != m[q].0,
            decreases v@.len() - j,
        {
            if str_eq(v[i].0.as_str(), v[j].0.as_str()) {
                proof {
                    assert(m[i as int].0 == m[j as int].0);
                }
                return false;
            }
            j = j + 1;
        }
        i = i + 1;
    }
    true
}

/// A protocol error carrying the given description.
fn protocol_error(msg: &str) -> (r: DynamoDbError)
    ensures
        r is ProtocolError,
{
    DynamoDbError::ProtocolError(msg.to_owned())
}


impl Item {
    /// The attribute value a tagged wire value stands for. Wire data that
    /// violates the tagged-attribute contract is reported as a protocol
    /// error, never by aborting.
    #[verifier::loop_isolation(false)]
    pub fn from_typed_json(json: &JsonValue) -> (r: Result<Item, DynamoDbError>)
        ensures
            match r {
                Ok(item) => item_of_typed(json@) == Some(item@),
                Err(e) => item_of_typed(json@) is None && e is ProtocolError,
            },
        decreases json,
    {
        proof {
            reveal_strlit("S");
            reveal_strlit("N");
            reveal_strlit("B");
            reveal_strlit("NULL");
            reveal_strlit("SS");
            reveal_strlit("NS");
            reveal_strlit("BS");
            reveal_strlit("L");
            reveal_strlit("M");
            assert(("S")@ =~= seq!['S']);
            assert(("N")@ =~= seq!['N']);
            assert(("B")@ =~= seq!['B']);
            assert(("NULL")@ =~= seq!['N', 'U', 'L', 'L']);
            assert(("SS")@ =~= seq!['S', 'S']);
            assert(("NS")@ =~= seq!['N', 'S']);
            assert(("BS")@ =~= seq!['B', 'S']);
            assert(("L")@ =~= seq!['L']);
            assert(("M")@ =~= seq!['M']);
        }
        match json {
            JsonValue::Object(fields) => {
                proof {
                    lemma_json_entries_view(fields@);
                }
                if fields.len() != 1 {
                    Err(protocol_error("attribute value must carry exactly one type tag"))
                } else {
                    let pair = &fields[0];
                    let tag = &pair.0;
                    let v = &pair.1;
                    let ghost fv = json_entries_view(fields@);
                    let ghost payload = fv[0].1;
                    proof {
                        assert(fv[0].0 == tag@);
                        assert(payload == json_view(*v));
                    }
                    if str_eq(tag.as_str(), "S") {
                        match v {
                            JsonValue::String(s) => Ok(Item::String(s.clone())),
                            _ => Err(protocol_error("type S must carry a string")),
                        }
                    } else if str_eq(tag.as_str(), "N") {
                        match v {
                            JsonValue::String(s) => Ok(Item::Number(Number::new(s.as_str()))),
                            _ => Err(protocol_error("type N must carry a decimal string")),
                        }
                    } else if str_eq(tag.as_str(), "B") {
                        match v {
                            JsonValue::String(s) => match base64_decode(s.as_str()) {
                                Some(bytes) => Ok(Item::Binary(bytes)),
                                None => Err(protocol_error("type B must carry base64 text")),
                            },
                            _ => Err(protocol_error("type B must carry base64 text")),
                        }
                    } else if str_eq(tag.as_str(), "NULL") {
                        Ok(Item::Null)
                    } else if str_eq(tag.as_str(), "SS") {
                        match v {
                            JsonValue::Array(elems) => {
                                let ghost evs = jsons_view(elems@);
                                proof {
                                    lemma_jsons_view(elems@);
                                }
                                let mut out: Vec<String> = Vec::new();
                                let mut i: usize = 0;
                                while i < elems.len()
                                    invariant
                                        i <= elems@.len(),
                                        out@.len() == i,
                                        forall|k: int|
                                            0 <= k < i ==> evs[k] is String && out@[k]@
                                                == evs[k]->String_0,
                                    decreases elems@.len() - i,
                                {
                                    let ev = &elems[i];
                                    match ev {
                                        JsonValue::String(s) => out.push(s.clone()),
                                        _ => {
                                            proof {
                                                assert(evs[i as int] == json_view(*ev));
                                                assert(!(evs[i as int] is String));
                                                lemma_strings_of(evs);
                                            }
                                            return Err(protocol_error(
                                                "type SS must carry strings",
                                            ));
                                        },
                                    }
                                    i = i + 1;
                                }
                                proof {
                                    lemma_strings_of(evs);
                                    assert(strings_of(evs).unwrap() =~= out.deep_view());
                                }
                                if strings_unique(&out) {
                                    Ok(Item::StringSet(out))
                                } else {
                                    Err(protocol_error("duplicate value in string set"))
                                }
                            },
                            _ => Err(protocol_error("type SS must carry an array")),
                        }
                    } else if str_eq(tag.as_str(), "NS") {
                        match v {
                            JsonValue::Array(elems) => {
                                let ghost evs = jsons_view(elems@);
                                proof {
                                    lemma_jsons_view(elems@);
                                }
                                let mut out: Vec<Number> = Vec::new();
                                let mut i: usize = 0;
                                while i < elems.len()
                                    invariant
                                        i <= elems@.len(),
                                        out@.len() == i,
                                        forall|k: int|
                                            0 <= k < i ==> evs[k] is String && out@[k]@
                                                == evs[k]->String_0,
                                    decreases elems@.len() - i,
                                {
                                    let ev = &elems[i];
                                    match ev {
                                        JsonValue::String(s) => out.push(Number::new(s.as_str())),
                                        _ => {
                                            proof {
                                                assert(evs[i as int] == json_view(*ev));
                                                assert(!(evs[i as int] is String));
                                                lemma_strings_of(evs);
                                            }
                                            return Err(protocol_error(
                                                "type NS must carry decimal strings",
                                            ));
                                        },
                                    }
                                    i = i + 1;
                                }
                                proof {
                                    lemma_strings_of(evs);
                                    assert(strings_of(evs).unwrap() =~= Seq::new(
                                        out@.len(),
                                        |k: int| out@[k]@,
                                    ));
                                }
                                if numbers_unique(&out) {
                                    Ok(Item::NumberSet(out))
                                } else {
                                    Err(protocol_error("duplicate value in number set"))
                                }
                            },
                            _ => Err(protocol_error("type NS must carry an array")),
                        }
                    } else if str_eq(tag.as_str(), "BS") {
                        match v {
                            JsonValue::Array(elems) => {
                                let ghost evs = jsons_view(elems@);
                                proof {
                                    lemma_jsons_view(elems@);
                                }
                                let mut out: Vec<Vec<u8>> = Vec::new();
                                let mut i: usize = 0;
                                while i < elems.len()
                                    invariant
                                        i <= elems@.len(),
                                        out@.len() == i,
                                        forall|k: int|
                                            0 <= k < i ==> evs[k] is String && Some(out@[k]@)
                                                == b64_decode(evs[k]->String_0),
                                    decreases elems@.len() - i,
                                {
                                    let ev = &elems[i];
                                    match ev {
                                        JsonValue::String(s) => match base64_decode(s.as_str()) {
                                            Some(bytes) => out.push(bytes),
                                            None => {
                                                proof {
                                                    lemma_blobs_of(evs);
                                                }
                                                return Err(protocol_error(
                                                    "type BS must carry base64 text",
                                                ));
                                            },
                                        },
                                        _ => {
                                            proof {
                                                assert(evs[i as int] == json_view(*ev));
                                                assert(!(evs[i as int] is String));
                                                lemma_blobs_of(evs);
                                            }
                                            return Err(protocol_error(
                                                "type BS must carry base64 text",
                                            ));
                                        },
                                    }
                                    i = i + 1;
                                }
                                proof {
                                    lemma_blobs_of(evs);
                                    assert forall|k: int|
                                        0 <= k < out@.len() implies out.deep_view()[k]
                                        == out@[k]@ by {
                                        assert(out.deep_view()[k] =~= out@[k]@);
                                    }
                                    assert(blobs_of(evs).unwrap() =~= out.deep_view());
                                }
                                if blobs_unique(&out) {
                                    Ok(Item::BinarySet(out))
                                } else {
                                    Err(protocol_error("duplicate value in binary set"))
                                }
                            },
                            _ => Err(protocol_error("type BS must carry an array")),
                        }
                    } else if str_eq(tag.as_str(), "L") {
                        match v {
                            JsonValue::Array(elems) => {
                                let ghost evs = jsons_view(elems@);
                                proof {
                                    lemma_jsons_view(elems@);
                                }
                                let mut out: Vec<Item> = Vec::new();
                                let mut i: usize = 0;
                                while i < elems.len()
                                    invariant
                                        i <= elems@.len(),
                                        out@.len() == i,
                                        forall|k: int|
                                            0 <= k < i ==> item_of_typed(evs[k]) == Some(
                                                item_view(out@[k]),
                                            ),
                                    decreases elems@.len() - i,
                                {
                                    proof {
                                        assert(decreases_to!(*json => *fields));
                                        assert(decreases_to!(*fields => fields@));
                                        assert(decreases_to!(fields@ => fields@[0]));
                                        assert(decreases_to!(fields@[0] => fields@[0].1));
                                        assert(fields@[0].1 == *v);
                                        assert(decreases_to!(*v => *elems));
                                        assert(decreases_to!(*elems => elems@));
                                        assert(decreases_to!(elems@ => elems@[i as int]));
                                    }
                                    let ev = &elems[i];
                                    match Item::from_typed_json(ev) {
                                        Ok(it) => out.push(it),
                                        Err(e) => {
                                            proof {
                                                assert(evs[i as int] == json_view(*ev));
                                                lemma_items_of_typed(evs);
                                            }
                                            return Err(e);
                                        },
                                    }
                                    i = i + 1;
                                }
                                proof {
                                    lemma_items_of_typed(evs);
                                    lemma_items_view(out@);
                                    assert(items_of_typed(evs).unwrap() =~= items_view(out@));
                                }
                                Ok(Item::List(out))
                            },
                            _ => Err(protocol_error("type L must carry an array")),
                        }
                    } else if str_eq(tag.as_str(), "M") {
                        match v {
                            JsonValue::Object(inner) => {
                                let ghost ievs = json_entries_view(inner@);
                                proof {
                                    lemma_json_entries_view(inner@);
                                }
                                let mut out: Vec<(String, Item)> = Vec::new();
                                let mut i: usize = 0;
                                while i < inner.len()
                                    invariant
                                        i <= inner@.len(),
                                        out@.len() == i,
                                        forall|k: int|
                                            0 <= k < i ==> out@[k].0@ == ievs[k].0
                                                && item_of_typed(ievs[k].1) == Some(
                                                item_view(out@[k].1),
                                            ),
                                    decreases inner@.len() - i,
                                {
                                    proof {
                                        assert(decreases_to!(*json => *fields));
                                        assert(decreases_to!(*fields => fields@));
                                        assert(decreases_to!(fields@ => fields@[0]));
                                        assert(decreases_to!(fields@[0] => fields@[0].1));
                                        assert(fields@[0].1 == *v);
                                        assert(decreases_to!(*v => *inner));
                                        assert(decreases_to!(*inner => inner@));
                                        assert(decreases_to!(inner@ => inner@[i as int]));
                                        assert(decreases_to!(inner@[i as int] => inner@[i as int].1));
                                    }
                                    let e = &inner[i];
                                    match Item::from_typed_json(&e.1) {
                                        Ok(it) => out.push((e.0.clone(), it)),
                                        Err(er) => {
                                            proof {
                                                assert(*e == inner@[i as int]);
                                                assert(ievs[i as int].1 == json_view(e.1));
                                                lemma_entries_of_typed(ievs);
                                            }
                                            return Err(er);
                                        },
                                    }
                                    i = i + 1;
                                }
                                proof {
                                    lemma_entries_of_typed(ievs);
                                    lemma_entries_view(out@);
                                    assert(entries_of_typed(ievs).unwrap() =~= entries_view(out@));
                                }
                                if entry_keys_unique(&out) {
                                    Ok(Item::Object(out))
                                } else {
                                    Err(protocol_error("duplicate key in map"))
                                }
                            },
                            _ => Err(protocol_error("type M must carry an object")),
                        }
                    } else {
                        Err(protocol_error("unrecognized attribute type tag"))
                    }
                }
            },
            _ => Err(protocol_error("attribute value must be an object")),
        }
    }
}


/// A decoding error carrying the given description.
fn decoding_error(msg: &str) -> (r: DynamoDbError)
    ensures
        r is DecodingError,
{
    DynamoDbError::DecodingError(msg.to_owned())
}

/// An encoding error carrying the given description.
fn encoding_error(msg: &str) -> (r: DynamoDbError)
    ensures
        r is EncodingError,
{
    DynamoDbError::EncodingError(msg.to_owned())
}

impl Item {
    /// The wire object of a whole item. Only a map may stand at the top
    /// level of an item; any other shape is a protocol error.
    #[verifier::loop_isolation(false)]
    pub fn to_typed_map(&self) -> (r: Result<JsonValue, DynamoDbError>)
        ensures
            match r {
                Ok(j) => typed_map_of(self@) == Some(j@),
                Err(e) => typed_map_of(self@) is None && e is ProtocolError,
            },
    {
        match self {
            Item::Object(entries) => {
                let mut fields: Vec<(String, JsonValue)> = Vec::new();
                let mut i: usize = 0;
                while i < entries.len()
                    invariant
                        i <= entries@.len(),
                        fields@.len() == i,
                        forall|k: int|
                            0 <= k < i ==> fields@[k].0@ == entries@[k].0@ && json_view(
                                fields@[k].1,
                            ) == typed_of(item_view(entries@[k].1)),
                    decreases entries@.len() - i,
                {
                    let e = &entries[i];
                    fields.push((e.0.clone(), e.1.to_typed_json()));
                    i = i + 1;
                }
                proof {
                    lemma_json_entries_view(fields@);
                    lemma_entries_view(entries@);
                    lemma_typed_entries(entries_view(entries@));
                    assert(json_entries_view(fields@) =~= typed_entries(entries_view(entries@)));
                }
                Ok(JsonValue::Object(fields))
            },
            _ => Err(protocol_error("top level type must be a map")),
        }
    }

    /// The item a response's wire object stands for: the symmetric entry
    /// point for decoding a response item.
    #[verifier::loop_isolation(false)]
    pub fn from_typed_map(json: &JsonValue) -> (r: Result<Item, DynamoDbError>)
        ensures
            match r {
                Ok(item) => item_of_typed_map(json@) == Some(item@),
                Err(e) => item_of_typed_map(json@) is None && e is ProtocolError,
            },
    {
        match json {
            JsonValue::Object(fields) => {
                let ghost fvs = json_entries_view(fields@);
                proof {
                    lemma_json_entries_view(fields@);
                }
                let mut out: Vec<(String, Item)> = Vec::new();
                let mut i: usize = 0;
                while i < fields.len()
                    invariant
                        i <= fields@.len(),
                        out@.len() == i,
                        forall|k: int|
                            0 <= k < i ==> out@[k].0@ == fvs[k].0 && item_of_typed(fvs[k].1)
                                == Some(item_view(out@[k].1)),
                    decreases fields@.len() - i,
                {
                    let e = &fields[i];
                    match Item::from_typed_json(&e.1) {
                        Ok(it) => out.push((e.0.clone(), it)),
                        Err(er) => {
                            proof {
                                assert(*e == fields@[i as int]);
                                assert(fvs[i as int].1 == json_view(e.1));
                                lemma_entries_of_typed(fvs);
                            }
                            return Err(er);
                        },
                    }
                    i = i + 1;
                }
                proof {
                    lemma_entries_of_typed(fvs);
                    lemma_entries_view(out@);
                    assert(entries_of_typed(fvs).unwrap() =~= entries_view(out@));
                }
                if entry_keys_unique(&out) {
                    Ok(Item::Object(out))
                } else {
                    Err(protocol_error("duplicate key in map"))
                }
            },
            _ => Err(protocol_error("invalid map data")),
        }
    }

    /// The attribute value a plain structured value stands for. Numbers and
    /// booleans are a known gap of this codec and are reported as decoding
    /// errors rather than dropped.
    #[verifier::loop_isolation(false)]
    pub fn from_json(json: &JsonValue) -> (r: Result<Item, DynamoDbError>)
        ensures
            match r {
                Ok(item) => item_of_plain(json@) == Some(item@),
                Err(e) => item_of_plain(json@) is None && e is DecodingError,
            },
        decreases json,
    {
        match json {
            JsonValue::Null => Ok(Item::Null),
            JsonValue::Bool(_) => Err(decoding_error("boolean values are not supported")),
            JsonValue::Number(_) => Err(decoding_error("numeric values are not supported")),
            JsonValue::String(s) => Ok(Item::String(s.clone())),
            JsonValue::Array(elems) => {
                let ghost evs = jsons_view(elems@);
                proof {
                    lemma_jsons_view(elems@);
                }
                let mut out: Vec<Item> = Vec::new();
                let mut i: usize = 0;
                while i < elems.len()
                    invariant
                        i <= elems@.len(),
                        out@.len() == i,
                        forall|k: int|
                            0 <= k < i ==> item_of_plain(evs[k]) == Some(item_view(out@[k])),
                    decreases elems@.len() - i,
                {
                    proof {
                        assert(decreases_to!(*json => *elems));
                        assert(decreases_to!(*elems => elems@));
                        assert(decreases_to!(elems@ => elems@[i as int]));
                    }
                    let ev = &elems[i];
                    match Item::from_json(ev) {
                        Ok(it) => out.push(it),
                        Err(e) => {
                            proof {
                                assert(evs[i as int] == json_view(*ev));
                                lemma_items_of_plain(evs);
                            }
                            return Err(e);
                        },
                    }
                    i = i + 1;
                }
                proof {
                    lemma_items_of_plain(evs);
                    lemma_items_view(out@);
                    assert(items_of_plain(evs).unwrap() =~= items_view(out@));
                }
                Ok(Item::List(out))
            },
            JsonValue::Object(entries) => {
                let ghost ievs = json_entries_view(entries@);
                proof {
                    lemma_json_entries_view(entries@);
                }
                let mut out: Vec<(String, Item)> = Vec::new();
                let mut i: usize = 0;
                while i < entries.len()
                    invariant
                        i <= entries@.len(),
                        out@.len() == i,
                        forall|k: int|
                            0 <= k < i ==> out@[k].0@ == ievs[k].0 && item_of_plain(ievs[k].1)
                                == Some(item_view(out@[k].1)),
                    decreases entries@.len() - i,
                {
                    proof {
                        assert(decreases_to!(*json => *entries));
                        assert(decreases_to!(*entries => entries@));
                        assert(decreases_to!(entries@ => entries@[i as int]));
                        assert(decreases_to!(entries@[i as int] => entries@[i as int].1));
                    }
                    let e = &entries[i];
                    match Item::from_json(&e.1) {
                        Ok(it) => out.push((e.0.clone(), it)),
                        Err(er) => {
                            proof {
                                assert(*e == entries@[i as int]);
                                assert(ievs[i as int].1 == json_view(e.1));
                                lemma_entries_of_plain(ievs);
                            }
                            return Err(er);
                        },
                    }
                    i = i + 1;
                }
                proof {
                    lemma_entries_of_plain(ievs);
                    lemma_entries_view(out@);
                    assert(entries_of_plain(ievs).unwrap() =~= entries_view(out@));
                }
                if entry_keys_unique(&out) {
                    Ok(Item::Object(out))
                } else {
                    Err(decoding_error("duplicate key in object"))
                }
            },
        }
    }

    /// The plain structured form of this attribute value, used when a
    /// decoded response item is handed back to the application. Numbers,
    /// sets and binary values are a known gap of this codec and are
    /// reported as encoding errors rather than aborting.
    #[verifier::loop_isolation(false)]
    pub fn to_json(&self) -> (r: Result<JsonValue, DynamoDbError>)
        ensures
            match r {
                Ok(j) => plain_of_item(self@) == Some(j@),
                Err(e) => plain_of_item(self@) is None && e is EncodingError,
            },
        decreases self,
    {
        match self {
            Item::Number(_) => Err(encoding_error("numeric values have no plain form")),
            Item::String(s) => Ok(JsonValue::String(s.clone())),
            Item::Binary(_) => Err(encoding_error("binary values have no plain form")),
            Item::Null => Ok(JsonValue::Null),
            Item::StringSet(_) => Err(encoding_error("string sets have no plain form")),
            Item::NumberSet(_) => Err(encoding_error("number sets have no plain form")),
            Item::BinarySet(_) => Err(encoding_error("binary sets have no plain form")),
            Item::List(items) => {
                let ghost ivs = items_view(items@);
                proof {
                    lemma_items_view(items@);
                }
                let mut out: Vec<JsonValue> = Vec::new();
                let mut i: usize = 0;
                while i < items.len()
                    invariant
                        i <= items@.len(),
                        out@.len() == i,
                        forall|k: int|
                            0 <= k < i ==> plain_of_item(ivs[k]) == Some(json_view(out@[k])),
                    decreases items@.len() - i,
                {
                    proof {
                        assert(decreases_to!(*self => *items));
                        assert(decreases_to!(*items => items@));
                        assert(decreases_to!(items@ => items@[i as int]));
                    }
                    let iv = &items[i];
                    match iv.to_json() {
                        Ok(j) => out.push(j),
                        Err(e) => {
                            proof {
                                assert(ivs[i as int] == item_view(*iv));
                                lemma_plains_of_items(ivs);
                            }
                            return Err(e);
                        },
                    }
                    i = i + 1;
                }
                proof {
                    lemma_plains_of_items(ivs);
                    lemma_jsons_view(out@);
                    assert(plains_of_items(ivs).unwrap() =~= jsons_view(out@));
                }
                Ok(JsonValue::Array(out))
            },
            Item::Object(entries) => {
                let ghost evs = entries_view(entries@);
                proof {
                    lemma_entries_view(entries@);
                }
                let mut out: Vec<(String, JsonValue)> = Vec::new();
                let mut i: usize = 0;
                while i < entries.len()
                    invariant
                        i <= entries@.len(),
                        out@.len() == i,
                        forall|k: int|
                            0 <= k < i ==> out@[k].0@ == evs[k].0 && plain_of_item(evs[k].1)
                                == Some(json_view(out@[k].1)),
                    decreases entries@.len() - i,
                {
                    proof {
                        assert(decreases_to!(*self => *entries));
                        assert(decreases_to!(*entries => entries@));
                        assert(decreases_to!(entries@ => entries@[i as int]));
                        assert(decreases_to!(entries@[i as int] => entries@[i as int].1));
                    }
                    let e = &entries[i];
                    match e.1.to_json() {
                        Ok(j) => out.push((e.0.clone(), j)),
                        Err(er) => {
                            proof {
                                assert(*e == entries@[i as int]);
                                assert(evs[i as int].1 == item_view(e.1));
                                lemma_plains_of_entries(evs);
                            }
                            return Err(er);
                        },
                    }
                    i = i + 1;
                }
                proof {
                    lemma_plains_of_entries(evs);
                    lemma_json_entries_view(out@);
                    assert(plains_of_entries(evs).unwrap() =~= json_entries_view(out@));
                }
                Ok(JsonValue::Object(out))
            },
        }
    }
}


// ---------------------------------------------------------------------------
// The wire form of a primary key.
// ---------------------------------------------------------------------------

/// The wire object of a primary key: the hash attribute and, if present,
/// the range attribute, each in its scalar tagged form.
pub open spec fn pk_json(k: PrimaryKeyV) -> JsonV {
    match k.range {
        None => JsonV::Object(seq![(k.hash.0, typed_of(pk_item(k.hash.1)))]),
        Some(rg) => JsonV::Object(
            seq![(k.hash.0, typed_of(pk_item(k.hash.1))), (rg.0, typed_of(pk_item(rg.1)))],
        ),
    }
}

impl PrimaryKeyValue {
    /// The tagged wire form of this key scalar.
    pub fn to_json(&self) -> (r: JsonValue)
        ensures
            r@ == typed_of(pk_item(self@)),
    {
        match self {
            PrimaryKeyValue::String(s) => {
                let r = tag_object("S", JsonValue::String(s.clone()));
                proof {
                    reveal_strlit("S");
                    assert(("S")@ =~= seq!['S']);
                }
                r
            },
            PrimaryKeyValue::Number(n) => {
                let r = tag_object("N", JsonValue::String(n.as_string().to_owned()));
                proof {
                    reveal_strlit("N");
                    assert(("N")@ =~= seq!['N']);
                }
                r
            },
            PrimaryKeyValue::Binary(b) => {
                let r = tag_object("B", JsonValue::String(base64_encode(b.as_slice())));
                proof {
                    reveal_strlit("B");
                    assert(("B")@ =~= seq!['B']);
                }
                r
            },
        }
    }
}

impl PrimaryKey {
    /// The wire object of this primary key.
    pub fn to_json(&self) -> (r: JsonValue)
        ensures
            r@ == pk_json(self@),
    {
        let mut entries: Vec<(String, JsonValue)> = Vec::new();
        let hash = self.hash_pair();
        entries.push((hash.name().to_owned(), hash.value().to_json()));
        match self.range_pair() {
            Some(range) => {
                entries.push((range.name().to_owned(), range.value().to_json()));
                proof {
                    lemma_json_entries_view(entries@);
                    assert(json_entries_view(entries@) =~= seq![
                        (self@.hash.0, typed_of(pk_item(self@.hash.1))),
                        (self@.range.unwrap().0, typed_of(pk_item(self@.range.unwrap().1))),
                    ]);
                }
            },
            None => {
                proof {
                    lemma_json_entries_view(entries@);
                    assert(json_entries_view(entries@) =~= seq![
                        (self@.hash.0, typed_of(pk_item(self@.hash.1))),
                    ]);
                }
            },
        }
        JsonValue::Object(entries)
    }
}


// ---------------------------------------------------------------------------
// Emitted wire values carry numbers only as strings.
// ---------------------------------------------------------------------------

/// A wire array of plain strings carries no raw number token.
proof fn lemma_strings_json_number_free(es: Seq<Seq<char>>)
    ensures
        crate::parse::number_free_seq(strings_json(es)),
    decreases es.len(),
{
    if es.len() > 0 {
        lemma_strings_json_number_free(es.drop_first());
        assert(strings_json(es).len() == es.len());
        assert(strings_json(es)[0] == JsonV::String(es[0]));
        assert(crate::parse::number_free(strings_json(es)[0]));
        assert(strings_json(es).drop_first() =~= strings_json(es.drop_first()));
        assert(crate::parse::number_free_seq(strings_json(es).drop_first()));
    } else {
        assert(strings_json(es).len() == 0);
    }
}

/// A wire array of base64 strings carries no raw number token.
proof fn lemma_blobs_json_number_free(es: Seq<Seq<u8>>)
    ensures
        crate::parse::number_free_seq(blobs_json(es)),
    decreases es.len(),
{
    if es.len() > 0 {
        lemma_blobs_json_number_free(es.drop_first());
        assert(blobs_json(es).len() == es.len());
        assert(blobs_json(es)[0] == JsonV::String(b64_encode(es[0])));
        assert(crate::parse::number_free(blobs_json(es)[0]));
        assert(blobs_json(es).drop_first() =~= blobs_json(es.drop_first()));
        assert(crate::parse::number_free_seq(blobs_json(es).drop_first()));
    } else {
        assert(blobs_json(es).len() == 0);
    }
}

/// The tagged wire form of a single field carries no raw number token if
/// its payload carries none.
proof fn lemma_tagged_number_free(tag: Seq<char>, payload: JsonV)
    requires
        crate::parse::number_free(payload),
    ensures
        crate::parse::number_free(tagged(tag, payload)),
{
    let fields = seq![(tag, payload)];
    assert(fields.drop_first() =~= Seq::<(Seq<char>, JsonV)>::empty());
    assert(crate::parse::number_free_entries(fields.drop_first()));
    assert(fields[0].1 == payload);
    assert(crate::parse::number_free_entries(fields));
}

/// The tagged wire form of any attribute value carries numbers only as
/// strings, never as raw number tokens.
pub proof fn lemma_typed_number_free(v: ItemV)
    ensures
        crate::parse::number_free(typed_of(v)),
    decreases v,
{
    match v {
        ItemV::Number(n) => {
            lemma_tagged_number_free(seq!['N'], JsonV::String(n));
        },
        ItemV::String(s) => {
            lemma_tagged_number_free(seq!['S'], JsonV::String(s));
        },
        ItemV::Binary(b) => {
            lemma_tagged_number_free(seq!['B'], JsonV::String(b64_encode(b)));
        },
        ItemV::Null => {
            lemma_tagged_number_free(seq!['N', 'U', 'L', 'L'], JsonV::Bool(true));
        },
        ItemV::StringSet(es) => {
            lemma_strings_json_number_free(es);
            lemma_tagged_number_free(seq!['S', 'S'], JsonV::Array(strings_json(es)));
        },
        ItemV::NumberSet(es) => {
            lemma_strings_json_number_free(es);
            lemma_tagged_number_free(seq!['N', 'S'], JsonV::Array(strings_json(es)));
        },
        ItemV::BinarySet(es) => {
            lemma_blobs_json_number_free(es);
            lemma_tagged_number_free(seq!['B', 'S'], JsonV::Array(blobs_json(es)));
        },
        ItemV::List(es) => {
            assert(decreases_to!(v => es));
            lemma_typed_list_number_free(es);
            lemma_tagged_number_free(seq!['L'], JsonV::Array(typed_list(es)));
        },
        ItemV::Object(es) => {
            assert(decreases_to!(v => es));
            lemma_typed_entries_number_free(es);
            lemma_tagged_number_free(seq!['M'], JsonV::Object(typed_entries(es)));
        },
    }
}

/// The element-wise form of `lemma_typed_number_free`.
proof fn lemma_typed_list_number_free(es: Seq<ItemV>)
    ensures
        crate::parse::number_free_seq(typed_list(es)),
    decreases es,
{
    if es.len() > 0 {
        lemma_typed_number_free(es[0]);
        lemma_typed_list_number_free(es.drop_first());
        assert(typed_list(es)[0] == typed_of(es[0]));
        assert(typed_list(es).drop_first() =~= typed_list(es.drop_first()));
    } else {
        assert(typed_list(es).len() == 0);
    }
}

/// The entry-wise form of `lemma_typed_number_free`.
pub proof fn lemma_typed_entries_number_free(es: Seq<(Seq<char>, ItemV)>)
    ensures
        crate::parse::number_free_entries(typed_entries(es)),
    decreases es,
{
    if es.len() > 0 {
        assert(decreases_to!(es => es[0]));
        assert(decreases_to!(es[0] => es[0].1));
        lemma_typed_number_free(es[0].1);
        lemma_typed_entries_number_free(es.drop_first());
        assert(typed_entries(es)[0] == (es[0].0, typed_of(es[0].1)));
        assert(typed_entries(es).drop_first() =~= typed_entries(es.drop_first()));
    } else {
        assert(typed_entries(es).len() == 0);
    }
}


// ---------------------------------------------------------------------------
// Decoded wire values satisfy the data model's invariants.
// ---------------------------------------------------------------------------

/// Every attribute value the wire decoder accepts is well-formed: its sets
/// are unique by value and its maps' keys are unique, at every depth.
pub proof fn lemma_item_of_typed_wf(j: JsonV)
    ensures
        item_of_typed(j) matches Some(v) ==> wf_item(v),
    decreases j,
{
    match j {
        JsonV::Object(fields) => {
            if fields.len() == 1 {
                assert(decreases_to!(j => fields));
                assert(decreases_to!(fields => fields[0]));
                assert(decreases_to!(fields[0] => fields[0].1));
                let v = fields[0].1;
                match v {
                    JsonV::Array(elems) => {
                        lemma_items_of_typed_wf(elems);
                    },
                    JsonV::Object(inner) => {
                        lemma_entries_of_typed_wf(inner);
                    },
                    _ => {},
                }
            }
        },
        _ => {},
    }
}

/// The element-wise form of `lemma_item_of_typed_wf`.
proof fn lemma_items_of_typed_wf(es: Seq<JsonV>)
    ensures
        items_of_typed(es) matches Some(r) ==> wf_items(r),
    decreases es,
{
    if es.len() > 0 {
        lemma_item_of_typed_wf(es[0]);
        lemma_items_of_typed_wf(es.drop_first());
        match items_of_typed(es) {
            Some(r) => {
                assert(r[0] == item_of_typed(es[0]).unwrap());
                assert(r.drop_first() =~= items_of_typed(es.drop_first()).unwrap());
            },
            None => {},
        }
    }
}

/// The entry-wise form of `lemma_item_of_typed_wf`.
proof fn lemma_entries_of_typed_wf(es: Seq<(Seq<char>, JsonV)>)
    ensures
        entries_of_typed(es) matches Some(r) ==> wf_entries(r),
    decreases es,
{
    if es.len() > 0 {
        assert(decreases_to!(es => es[0]));
        assert(decreases_to!(es[0] => es[0].1));
        lemma_item_of_typed_wf(es[0].1);
        lemma_entries_of_typed_wf(es.drop_first());
        match entries_of_typed(es) {
            Some(r) => {
                assert(r[0] == (es[0].0, item_of_typed(es[0].1).unwrap()));
                assert(r.drop_first() =~= entries_of_typed(es.drop_first()).unwrap());
            },
            None => {},
        }
    }
}

/// The top-level form: every item the response decoder accepts is
/// well-formed.
pub proof fn lemma_item_of_typed_map_wf(j: JsonV)
    ensures
        item_of_typed_map(j) matches Some(v) ==> wf_item(v),
{
    match j {
        JsonV::Object(fields) => {
            lemma_entries_of_typed_wf(fields);
        },
        _ => {},
    }
}

} // verus!
