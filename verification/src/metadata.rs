//! Document metadata as JSON values, kept in a `serde_json` map.

use crate::text::views;
use vstd::prelude::*;

verus! {

/// A JSON map from names to values, `serde_json::Map`; it is opaque here, and
/// `metadata_entries` names what it holds.
#[verifier::external_type_specification]
#[verifier::external_body]
#[verifier::reject_recursive_types(K)]
#[verifier::reject_recursive_types(V)]
pub struct ExJsonMap<K, V>(serde_json::Map<K, V>);

/// A JSON value, `serde_json::Value`; it is opaque here.
#[verifier::external_type_specification]
#[verifier::external_body]
pub struct ExJsonValue(serde_json::Value);

/// The error of a failed serialization, `serde_json::Error`; it is opaque here.
#[verifier::external_type_specification]
#[verifier::external_body]
pub struct ExJsonError(serde_json::Error);

/// A JSON value.
pub enum Json {
    /// `null`.
    Null,
    /// `true` or `false`.
    Bool(bool),
    /// A number, by its text.
    Number(Seq<char>),
    /// A string.
    Text(Seq<char>),
    /// An array.
    List(Seq<Json>),
    /// An object.
    Object(Map<Seq<char>, Json>),
}

/// The names and values that a metadata map holds.
pub uninterp spec fn metadata_entries(
    map: serde_json::Map<String, serde_json::Value>,
) -> Map<Seq<char>, Json>;

/// The JSON text of a value, or `None` where it has none.
pub uninterp spec fn json_text(value: Json) -> Option<Seq<char>>;

/// A metadata value as front matter writes it.
#[derive(Debug)]
pub enum FrontValue {
    /// A single string.
    Text(String),
    /// A list of strings.
    List(Vec<String>),
}

/// The list of the given strings.
pub open spec fn string_list(items: Seq<Seq<char>>) -> Json {
    Json::List(items.map_values(|item: Seq<char>| Json::Text(item)))
}

impl FrontValue {
    /// The value as JSON.
    pub open spec fn json(self) -> Json {
        match self {
            FrontValue::Text(text) => Json::Text(text@),
            FrontValue::List(items) => string_list(views(items@)),
        }
    }
}

/// `text` is the JSON text of no other list of strings than `items`.
pub open spec fn tells_strings(text: Seq<char>, items: Seq<Seq<char>>) -> bool {
    forall|other: Seq<Seq<char>>| #[trigger]
        json_text(string_list(other)) == Some(text) ==> other == items
}

/// `text` is the JSON text of no metadata map with other entries than `entries`.
pub open spec fn tells_entries(text: Seq<char>, entries: Map<Seq<char>, Json>) -> bool {
    forall|other: serde_json::Map<String, serde_json::Value>|
        json_text(Json::Object(#[trigger] metadata_entries(other))) == Some(text)
            ==> metadata_entries(other) == entries
}

/// No metadata.
pub open spec fn no_entries() -> Map<Seq<char>, Json> {
    Map::empty()
}

/// `serde_json::Map::new` makes an empty map.
#[verifier::external_body]
pub(crate) fn new_metadata() -> (r: serde_json::Map<String, serde_json::Value>)
    ensures
        metadata_entries(r) == no_entries(),
{
    serde_json::Map::new()
}

/// `serde_json::Map::insert` gives `key` the value; one that it had is replaced.
/// The other entries stay.
#[verifier::external_body]
pub(crate) fn insert_metadata(
    map: &mut serde_json::Map<String, serde_json::Value>,
    key: String,
    value: FrontValue,
)
    ensures
        metadata_entries(*final(map)) == metadata_entries(*old(map)).insert(key@, value.json()),
{
    let json = match value {
        FrontValue::Text(text) => serde_json::Value::String(text),
        FrontValue::List(items) => serde_json::Value::Array(
            items.into_iter().map(serde_json::Value::String).collect(),
        ),
    };
    map.insert(key, json);
}

/// `Clone::clone` of a `serde_json::Map` makes a map of the same entries.
pub assume_specification[ <serde_json::Map<String, serde_json::Value> as Clone>::clone ](
    map: &serde_json::Map<String, serde_json::Value>,
) -> (r: serde_json::Map<String, serde_json::Value>)
    ensures
        metadata_entries(r) == metadata_entries(*map),
;

/// `serde_json::to_string` of a metadata map: the JSON text of the object that
/// the map stands for. It fails only for keys that are no strings and for values
/// that refuse to be serialized, and such a map has neither. Maps that are written
/// as the same text have the same entries: keys come in their order, strings are
/// quoted, with quotes, backslashes and control characters escaped, and no two
/// kinds of value begin with the same character. What else the text is rests with
/// `json_text`.
#[verifier::external_body]
pub(crate) fn metadata_to_string(map: &serde_json::Map<String, serde_json::Value>) -> (r: Result<
    String,
    serde_json::Error,
>)
    ensures
        r is Ok,
        json_text(Json::Object(metadata_entries(*map))) == (match r {
            Ok(text) => Some(text@),
            Err(_) => None,
        }),
        r matches Ok(text) ==> tells_entries(text@, metadata_entries(*map)),
{
    serde_json::to_string(map)
}

/// `serde_json::to_string` of a list of strings: the JSON text of that array. It
/// does not fail, as a list of strings holds no map and no value that refuses to be
/// serialized. Lists that are written as the same text are the same: strings are
/// quoted, with quotes, backslashes and control characters escaped. What else the
/// text is rests with `json_text`.
#[verifier::external_body]
pub(crate) fn strings_to_string(items: &Vec<String>) -> (r: Result<String, serde_json::Error>)
    ensures
        r is Ok,
        json_text(string_list(views(items@))) == (match r {
            Ok(text) => Some(text@),
            Err(_) => None,
        }),
        r matches Ok(text) ==> tells_strings(text@, views(items@)),
{
    serde_json::to_string(items)
}

/// A value of front matter is the JSON string, or the JSON array of strings, that it
/// holds.
pub proof fn law_front_values_are_strings_or_lists(text: String, items: Vec<String>, i: int)
    requires
        0 <= i < items@.len(),
    ensures
        FrontValue::Text(text).json() == Json::Text(text@),
        FrontValue::List(items).json() matches Json::List(list) && list.len() == items@.len()
            && list[i] == Json::Text(items@[i]@),
{
}

} // verus!
