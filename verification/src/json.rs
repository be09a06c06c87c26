//! The plain structured form: the JSON-shaped data the codec converts to and
//! from, held as the library's own closed type so every conversion over it
//! can be stated and checked.

use vstd::prelude::*;

verus! {

broadcast use vstd::std_specs::vec::axiom_vec_decreases_to_view, vstd::seq::axiom_seq_index_decreases;

/// Mathematical model of a plain structured value. A number is carried as
/// its raw decimal token so that no precision is lost.
pub enum JsonV {
    Null,
    Bool(bool),
    Number(Seq<char>),
    String(Seq<char>),
    Array(Seq<JsonV>),
    Object(Seq<(Seq<char>, JsonV)>),
}

/// A plain structured value: the shape an application's serializer produces
/// and the shape wire JSON parses into. Object entries keep their order, so
/// an encoding of the same value is always the same text.
#[derive(Debug, PartialEq)]
pub enum JsonValue {
    Null,
    Bool(bool),
    Number(String),
    String(String),
    Array(Vec<JsonValue>),
    Object(Vec<(String, JsonValue)>),
}

impl View for JsonValue {
    type V = JsonV;

    open spec fn view(&self) -> JsonV {
        json_view(*self)
    }
}

/// The view of a plain structured value, taken recursively.
pub open spec fn json_view(j: JsonValue) -> JsonV
    decreases j,
{
    match j {
        JsonValue::Null => JsonV::Null,
        JsonValue::Bool(b) => JsonV::Bool(b),
        JsonValue::Number(n) => JsonV::Number(n@),
        JsonValue::String(s) => JsonV::String(s@),
        JsonValue::Array(items) => {
            proof {
                assert(decreases_to!(j => items));
                assert(decreases_to!(items => items@));
            }
            JsonV::Array(jsons_view(items@))
        },
        JsonValue::Object(entries) => {
            proof {
                assert(decreases_to!(j => entries));
                assert(decreases_to!(entries => entries@));
            }
            JsonV::Object(json_entries_view(entries@))
        },
    }
}

/// The views of a sequence of plain values, element by element.
pub open spec fn jsons_view(s: Seq<JsonValue>) -> Seq<JsonV>
    decreases s,
{
    if s.len() == 0 {
        Seq::empty()
    } else {
        seq![json_view(s[0])] + jsons_view(s.drop_first())
    }
}

/// The views of a sequence of object entries, entry by entry.
pub open spec fn json_entries_view(s: Seq<(String, JsonValue)>) -> Seq<(Seq<char>, JsonV)>
    decreases s,
{
    if s.len() == 0 {
        Seq::empty()
    } else {
        proof {
            assert(decreases_to!(s => s[0]));
            assert(decreases_to!(s[0] => s[0].1));
        }
        seq![(s[0].0@, json_view(s[0].1))] + json_entries_view(s.drop_first())
    }
}

/// A well-formed plain value: each object's keys are unique, at every depth.
pub open spec fn wf_json(j: JsonV) -> bool
    decreases j,
{
    match j {
        JsonV::Null => true,
        JsonV::Bool(_) => true,
        JsonV::Number(_) => true,
        JsonV::String(_) => true,
        JsonV::Array(es) => wf_jsons(es),
        JsonV::Object(es) => crate::types::unique_keys(es) && wf_json_entries(es),
    }
}

/// Each element of the sequence is well-formed.
pub open spec fn wf_jsons(es: Seq<JsonV>) -> bool
    decreases es,
{
    if es.len() == 0 {
        true
    } else {
        wf_json(es[0]) && wf_jsons(es.drop_first())
    }
}

/// Each entry's value is well-formed.
pub open spec fn wf_json_entries(es: Seq<(Seq<char>, JsonV)>) -> bool
    decreases es,
{
    if es.len() == 0 {
        true
    } else {
        proof {
            assert(decreases_to!(es => es[0]));
            assert(decreases_to!(es[0] => es[0].1));
        }
        wf_json(es[0].1) && wf_json_entries(es.drop_first())
    }
}

/// A plain value made only of the primitive shapes the codec accepts:
/// object, array, string and null.
pub open spec fn plain_shape(j: JsonV) -> bool
    decreases j,
{
    match j {
        JsonV::Null => true,
        JsonV::Bool(_) => false,
        JsonV::Number(_) => false,
        JsonV::String(_) => true,
        JsonV::Array(es) => plain_shapes(es),
        JsonV::Object(es) => plain_shape_entries(es),
    }
}

/// Each element of the sequence has a plain primitive shape.
pub open spec fn plain_shapes(es: Seq<JsonV>) -> bool
    decreases es,
{
    if es.len() == 0 {
        true
    } else {
        plain_shape(es[0]) && plain_shapes(es.drop_first())
    }
}

/// Each entry's value has a plain primitive shape.
pub open spec fn plain_shape_entries(es: Seq<(Seq<char>, JsonV)>) -> bool
    decreases es,
{
    if es.len() == 0 {
        true
    } else {
        proof {
            assert(decreases_to!(es => es[0]));
            assert(decreases_to!(es[0] => es[0].1));
        }
        plain_shape(es[0].1) && plain_shape_entries(es.drop_first())
    }
}

/// The value of the first entry with the given key, if the key is present.
pub open spec fn lookup_key(es: Seq<(Seq<char>, JsonV)>, key: Seq<char>) -> Option<JsonV>
    decreases es,
{
    if es.len() == 0 {
        None
    } else if es[0].0 == key {
        Some(es[0].1)
    } else {
        lookup_key(es.drop_first(), key)
    }
}

/// Looking a key up skips any prefix in which it does not occur.
pub proof fn lemma_lookup_key_skip(es: Seq<(Seq<char>, JsonV)>, key: Seq<char>, i: int)
    requires
        0 <= i <= es.len(),
        forall|k: int| 0 <= k < i ==> es[k].0 != key,
    ensures
        lookup_key(es, key) == lookup_key(es.skip(i), key),
    decreases i,
{
    if i == 0 {
        assert(es.skip(0) =~= es);
    } else {
        lemma_lookup_key_skip(es, key, i - 1);
        assert(es.skip(i - 1)[0] == es[i - 1]);
        assert(es.skip(i - 1).drop_first() =~= es.skip(i));
    }
}

/// `jsons_view` maps the view across the sequence, index by index.
pub proof fn lemma_jsons_view(s: Seq<JsonValue>)
    ensures
        jsons_view(s).len() == s.len(),
        forall|k: int| 0 <= k < s.len() ==> jsons_view(s)[k] == json_view(s[k]),
    decreases s.len(),
{
    if s.len() > 0 {
        lemma_jsons_view(s.drop_first());
    }
}

/// `json_entries_view` keeps each key and takes the view of each value.
pub proof fn lemma_json_entries_view(s: Seq<(String, JsonValue)>)
    ensures
        json_entries_view(s).len() == s.len(),
        forall|k: int|
            0 <= k < s.len() ==> json_entries_view(s)[k] == (s[k].0@, json_view(s[k].1)),
    decreases s.len(),
{
    if s.len() > 0 {
        lemma_json_entries_view(s.drop_first());
    }
}

} // verus!
