//! The typed-value model: the closed set of attribute shapes the store
//! supports, together with its mathematical view.

use vstd::prelude::*;

verus! {

broadcast use vstd::std_specs::vec::axiom_vec_decreases_to_view, vstd::seq::axiom_seq_index_decreases;

/// Mathematical model of an attribute value: the nine shapes of the store's
/// data model, over sequences of characters and bytes.
pub enum ItemV {
    Number(Seq<char>),
    String(Seq<char>),
    Binary(Seq<u8>),
    Null,
    StringSet(Seq<Seq<char>>),
    NumberSet(Seq<Seq<char>>),
    BinarySet(Seq<Seq<u8>>),
    List(Seq<ItemV>),
    Object(Seq<(Seq<char>, ItemV)>),
}

/// An arbitrary-precision numeric value, carried as its decimal string so no
/// precision is lost to a native float representation.
#[derive(Clone, Debug, Eq, Hash, PartialEq)]
pub struct Number {
    value: String,
}

impl View for Number {
    type V = Seq<char>;

    closed spec fn view(&self) -> Seq<char> {
        self.value@
    }
}

impl Number {
    /// Wrap a decimal string as a numeric attribute value.
    pub fn new(value: &str) -> (r: Number)
        ensures
            r@ == value@,
    {
        Number { value: value.to_owned() }
    }

    /// The decimal string this number carries.
    pub fn as_string(&self) -> (r: &str)
        ensures
            r@ == self@,
    {
        self.value.as_str()
    }
}

/// An attribute value: one record field in the store's data model.
///
/// Sets are unique by value and carry no significant order; `Map` keys are
/// unique attribute names whose insertion order is kept so that encodings
/// stay deterministic.
#[derive(Debug, PartialEq)]
pub enum Item {
    Number(Number),
    String(String),
    Binary(Vec<u8>),
    Null,
    StringSet(Vec<String>),
    NumberSet(Vec<Number>),
    BinarySet(Vec<Vec<u8>>),
    List(Vec<Item>),
    Object(Vec<(String, Item)>),
}

impl View for Item {
    type V = ItemV;

    open spec fn view(&self) -> ItemV {
        item_view(*self)
    }
}

/// The view of an attribute value, taken recursively.
pub open spec fn item_view(i: Item) -> ItemV
    decreases i,
{
    match i {
        Item::Number(n) => ItemV::Number(n@),
        Item::String(s) => ItemV::String(s@),
        Item::Binary(b) => ItemV::Binary(b@),
        Item::Null => ItemV::Null,
        Item::StringSet(ss) => ItemV::StringSet(ss.deep_view()),
        Item::NumberSet(ns) => ItemV::NumberSet(Seq::new(ns@.len(), |k: int| ns@[k]@)),
        Item::BinarySet(bs) => ItemV::BinarySet(bs.deep_view()),
        Item::List(items) => {
            proof {
                assert(decreases_to!(i => items));
                assert(decreases_to!(items => items@));
            }
            ItemV::List(items_view(items@))
        },
        Item::Object(entries) => {
            proof {
                assert(decreases_to!(i => entries));
                assert(decreases_to!(entries => entries@));
            }
            ItemV::Object(entries_view(entries@))
        },
    }
}

/// The views of a sequence of attribute values, element by element.
pub open spec fn items_view(s: Seq<Item>) -> Seq<ItemV>
    decreases s,
{
    if s.len() == 0 {
        Seq::empty()
    } else {
        seq![item_view(s[0])] + items_view(s.drop_first())
    }
}

/// The views of a sequence of named attribute values, entry by entry.
pub open spec fn entries_view(s: Seq<(String, Item)>) -> Seq<(Seq<char>, ItemV)>
    decreases s,
{
    if s.len() == 0 {
        Seq::empty()
    } else {
        proof {
            assert(decreases_to!(s => s[0]));
            assert(decreases_to!(s[0] => s[0].1));
        }
        seq![(s[0].0@, item_view(s[0].1))] + entries_view(s.drop_first())
    }
}

/// `items_view` maps the view across the sequence, index by index.
pub proof fn lemma_items_view(s: Seq<Item>)
    ensures
        items_view(s).len() == s.len(),
        forall|k: int| 0 <= k < s.len() ==> items_view(s)[k] == item_view(s[k]),
    decreases s.len(),
{
    if s.len() > 0 {
        lemma_items_view(s.drop_first());
    }
}

/// No element occurs twice.
pub open spec fn unique<T>(s: Seq<T>) -> bool {
    forall|i: int, j: int| 0 <= i < j < s.len() ==> s[i] != s[j]
}

/// No key occurs twice among the entries.
pub open spec fn unique_keys<T>(es: Seq<(Seq<char>, T)>) -> bool {
    forall|i: int, j: int| 0 <= i < j < es.len() ==> es[i].0 != es[j].0
}

/// A well-formed attribute value: each set is unique by value and each map's
/// keys are unique, at every depth.
pub open spec fn wf_item(v: ItemV) -> bool
    decreases v,
{
    match v {
        ItemV::Number(_) => true,
        ItemV::String(_) => true,
        ItemV::Binary(_) => true,
        ItemV::Null => true,
        ItemV::StringSet(es) => unique(es),
        ItemV::NumberSet(es) => unique(es),
        ItemV::BinarySet(es) => unique(es),
        ItemV::List(es) => wf_items(es),
        ItemV::Object(es) => unique_keys(es) && wf_entries(es),
    }
}

/// Each element of the sequence is well-formed.
pub open spec fn wf_items(es: Seq<ItemV>) -> bool
    decreases es,
{
    if es.len() == 0 {
        true
    } else {
        wf_item(es[0]) && wf_items(es.drop_first())
    }
}

/// Each entry's value is well-formed.
pub open spec fn wf_entries(es: Seq<(Seq<char>, ItemV)>) -> bool
    decreases es,
{
    if es.len() == 0 {
        true
    } else {
        proof {
            assert(decreases_to!(es => es[0]));
            assert(decreases_to!(es[0] => es[0].1));
        }
        wf_item(es[0].1) && wf_entries(es.drop_first())
    }
}

/// `entries_view` keeps each key and takes the view of each value.
pub proof fn lemma_entries_view(s: Seq<(String, Item)>)
    ensures
        entries_view(s).len() == s.len(),
        forall|k: int| 0 <= k < s.len() ==> entries_view(s)[k] == (s[k].0@, item_view(s[k].1)),
    decreases s.len(),
{
    if s.len() > 0 {
        lemma_entries_view(s.drop_first());
    }
}

// ---------------------------------------------------------------------------
// Primary keys.
// ---------------------------------------------------------------------------

/// Mathematical model of a primary-key scalar.
pub enum PrimaryKeyValueV {
    String(Seq<char>),
    Number(Seq<char>),
    Binary(Seq<u8>),
}

/// A scalar legal as a key attribute: the restriction of the typed-value
/// model to the three key-capable shapes.
#[derive(Debug, PartialEq)]
pub enum PrimaryKeyValue {
    String(String),
    Number(Number),
    Binary(Vec<u8>),
}

impl View for PrimaryKeyValue {
    type V = PrimaryKeyValueV;

    open spec fn view(&self) -> PrimaryKeyValueV {
        match self {
            PrimaryKeyValue::String(s) => PrimaryKeyValueV::String(s@),
            PrimaryKeyValue::Number(n) => PrimaryKeyValueV::Number(n@),
            PrimaryKeyValue::Binary(b) => PrimaryKeyValueV::Binary(b@),
        }
    }
}

impl PrimaryKeyValue {
    /// A scalar holding the same value.
    pub fn duplicate(&self) -> (r: PrimaryKeyValue)
        ensures
            r@ == self@,
    {
        match self {
            PrimaryKeyValue::String(s) => PrimaryKeyValue::String(s.clone()),
            PrimaryKeyValue::Number(n) => PrimaryKeyValue::Number(Number::new(n.as_string())),
            PrimaryKeyValue::Binary(b) => PrimaryKeyValue::Binary(
                vstd::slice::slice_to_vec(b.as_slice()),
            ),
        }
    }

    /// The attribute value this key scalar stands for.
    pub open spec fn as_item(self) -> ItemV {
        match self@ {
            PrimaryKeyValueV::String(s) => ItemV::String(s),
            PrimaryKeyValueV::Number(n) => ItemV::Number(n),
            PrimaryKeyValueV::Binary(b) => ItemV::Binary(b),
        }
    }
}

/// The attribute value a primary-key scalar model stands for.
pub open spec fn pk_item(v: PrimaryKeyValueV) -> ItemV {
    match v {
        PrimaryKeyValueV::String(s) => ItemV::String(s),
        PrimaryKeyValueV::Number(n) => ItemV::Number(n),
        PrimaryKeyValueV::Binary(b) => ItemV::Binary(b),
    }
}

/// Whatever can serve as a primary-key scalar.
pub trait ToPrimaryKeyValue {
    /// The model of the scalar this value stands for.
    spec fn pk_value_model(&self) -> PrimaryKeyValueV;

    /// The scalar this value stands for.
    fn to_primary_key_value(&self) -> (r: PrimaryKeyValue)
        ensures
            r@ == self.pk_value_model(),
    ;
}

impl ToPrimaryKeyValue for PrimaryKeyValue {
    open spec fn pk_value_model(&self) -> PrimaryKeyValueV {
        self@
    }

    fn to_primary_key_value(&self) -> (r: PrimaryKeyValue) {
        self.duplicate()
    }
}

impl<'a> ToPrimaryKeyValue for &'a str {
    open spec fn pk_value_model(&self) -> PrimaryKeyValueV {
        PrimaryKeyValueV::String((*self)@)
    }

    fn to_primary_key_value(&self) -> (r: PrimaryKeyValue) {
        PrimaryKeyValue::String((*self).to_owned())
    }
}

/// One named key attribute: an attribute name and its scalar value.
#[derive(Debug)]
pub struct PrimaryKeyValuePair {
    key: String,
    value: PrimaryKeyValue,
}

impl View for PrimaryKeyValuePair {
    type V = (Seq<char>, PrimaryKeyValueV);

    closed spec fn view(&self) -> (Seq<char>, PrimaryKeyValueV) {
        (self.key@, self.value@)
    }
}

impl PrimaryKeyValuePair {
    /// The pair of the given attribute name and scalar value.
    pub fn new<V: ToPrimaryKeyValue>(key: &str, value: V) -> (r: PrimaryKeyValuePair)
        ensures
            r@ == (key@, value.pk_value_model()),
    {
        PrimaryKeyValuePair { key: key.to_owned(), value: value.to_primary_key_value() }
    }

    /// The attribute name of this pair.
    pub fn name(&self) -> (r: &str)
        ensures
            r@ == self@.0,
    {
        self.key.as_str()
    }

    /// The scalar value of this pair.
    pub fn value(&self) -> (r: &PrimaryKeyValue)
        ensures
            r@ == self@.1,
    {
        &self.value
    }

    /// A pair holding the same name and value.
    pub fn duplicate(&self) -> (r: PrimaryKeyValuePair)
        ensures
            r@ == self@,
    {
        PrimaryKeyValuePair { key: self.key.clone(), value: self.value.duplicate() }
    }
}

/// Whatever can serve as one named key attribute.
pub trait ToPrimaryKeyValuePair {
    /// The model of the pair this value stands for.
    spec fn pk_pair_model(&self) -> (Seq<char>, PrimaryKeyValueV);

    /// The pair this value stands for.
    fn to_primary_key_value_pair(&self) -> (r: PrimaryKeyValuePair)
        ensures
            r@ == self.pk_pair_model(),
    ;
}

impl ToPrimaryKeyValuePair for PrimaryKeyValuePair {
    open spec fn pk_pair_model(&self) -> (Seq<char>, PrimaryKeyValueV) {
        self@
    }

    fn to_primary_key_value_pair(&self) -> (r: PrimaryKeyValuePair) {
        self.duplicate()
    }
}

impl<'a, V: ToPrimaryKeyValue> ToPrimaryKeyValuePair for (&'a str, V) {
    open spec fn pk_pair_model(&self) -> (Seq<char>, PrimaryKeyValueV) {
        (self.0@, self.1.pk_value_model())
    }

    fn to_primary_key_value_pair(&self) -> (r: PrimaryKeyValuePair) {
        PrimaryKeyValuePair { key: self.0.to_owned(), value: self.1.to_primary_key_value() }
    }
}

/// Mathematical model of a primary key: the hash attribute and an optional
/// range attribute.
pub struct PrimaryKeyV {
    pub hash: (Seq<char>, PrimaryKeyValueV),
    pub range: Option<(Seq<char>, PrimaryKeyValueV)>,
}

/// A record's primary key: a required hash attribute and an optional range
/// attribute, constructed immediately before a request and never changed.
#[derive(Debug)]
pub struct PrimaryKey {
    hash: PrimaryKeyValuePair,
    range: Option<PrimaryKeyValuePair>,
}

impl View for PrimaryKey {
    type V = PrimaryKeyV;

    closed spec fn view(&self) -> PrimaryKeyV {
        PrimaryKeyV {
            hash: self.hash@,
            range: match self.range {
                Some(r) => Some(r@),
                None => None,
            },
        }
    }
}

impl PrimaryKey {
    /// The hash-only primary key of the given key attribute.
    pub fn new<K: ToPrimaryKeyValuePair>(key_value: K) -> (r: PrimaryKey)
        ensures
            r@.hash == key_value.pk_pair_model(),
            r@.range is None,
    {
        PrimaryKey { hash: key_value.to_primary_key_value_pair(), range: None }
    }

    /// The primary key of the given hash and range attributes.
    pub fn with_range<K1: ToPrimaryKeyValuePair, K2: ToPrimaryKeyValuePair>(
        hash: K1,
        range: K2,
    ) -> (r: PrimaryKey)
        ensures
            r@.hash == hash.pk_pair_model(),
            r@.range == Some(range.pk_pair_model()),
    {
        PrimaryKey {
            hash: hash.to_primary_key_value_pair(),
            range: Some(range.to_primary_key_value_pair()),
        }
    }

    /// The hash attribute of this key.
    pub fn hash_pair(&self) -> (r: &PrimaryKeyValuePair)
        ensures
            r@ == self@.hash,
    {
        &self.hash
    }

    /// The range attribute of this key, if it has one.
    pub fn range_pair(&self) -> (r: Option<&PrimaryKeyValuePair>)
        ensures
            match r {
                Some(p) => self@.range == Some(p@),
                None => self@.range is None,
            },
    {
        match &self.range {
            Some(p) => Some(p),
            None => None,
        }
    }
}

/// Whatever can serve as a whole primary key.
pub trait ToPrimaryKey {
    /// The model of the primary key this value stands for.
    spec fn pk_model(&self) -> PrimaryKeyV;

    /// The primary key this value stands for.
    fn to_primary_key(self) -> (r: PrimaryKey)
        ensures
            r@ == self.pk_model(),
    ;
}

impl ToPrimaryKey for PrimaryKey {
    open spec fn pk_model(&self) -> PrimaryKeyV {
        self@
    }

    fn to_primary_key(self) -> (r: PrimaryKey) {
        self
    }
}

impl<'a, V: ToPrimaryKeyValue> ToPrimaryKey for (&'a str, V) {
    open spec fn pk_model(&self) -> PrimaryKeyV {
        PrimaryKeyV { hash: (self.0@, self.1.pk_value_model()), range: None }
    }

    fn to_primary_key(self) -> (r: PrimaryKey) {
        PrimaryKey::new((self.0, self.1))
    }
}

impl<'a, V1: ToPrimaryKeyValue, V2: ToPrimaryKeyValue> ToPrimaryKey for (
    &'a str,
    V1,
    &'a str,
    V2,
) {
    open spec fn pk_model(&self) -> PrimaryKeyV {
        PrimaryKeyV {
            hash: (self.0@, self.1.pk_value_model()),
            range: Some((self.2@, self.3.pk_value_model())),
        }
    }

    fn to_primary_key(self) -> (r: PrimaryKey) {
        PrimaryKey::with_range((self.0, self.1), (self.2, self.3))
    }
}

} // verus!
