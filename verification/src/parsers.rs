use vstd::prelude::*;
use crate::json::{well_formed, Json, JsonValue};

verus! {

/// What `serde_json::from_str::<serde_json::Value>` reads from a text, or
/// its error message.
pub uninterp spec fn json_parse(text: Seq<char>) -> Result<Json, Seq<char>>;

/// The values that `serde_json`'s stream deserializer reads, one after
/// another, from a text, or the message of the first error.
pub uninterp spec fn json_stream_parse(text: Seq<char>) -> Result<Seq<Json>, Seq<char>>;

/// What `serde_yaml::from_str::<serde_json::Value>` reads from a text, or
/// its error message.
pub uninterp spec fn yaml_parse(text: Seq<char>) -> Result<Json, Seq<char>>;

/// The documents that `serde_yaml::Deserializer::from_str` reads, one after
/// another, from a text, or the first error message.
pub uninterp spec fn yaml_documents_parse(text: Seq<char>) -> Result<Seq<Json>, Seq<char>>;

/// What `toml::from_str::<serde_json::Value>` reads from a text, or its
/// error message.
pub uninterp spec fn toml_parse(text: Seq<char>) -> Result<Json, Seq<char>>;

/// What `quick_xml::de::from_str::<serde_json::Value>` reads from a text,
/// or its error message.
pub uninterp spec fn xml_parse(text: Seq<char>) -> Result<Json, Seq<char>>;

/// The key/value pairs that `java_properties::read` reads from a text (a
/// later pair for a key replaces an earlier one), or its error message.
pub uninterp spec fn properties_parse(text: Seq<char>) -> Result<Map<Seq<char>, Seq<char>>, Seq<char>>;

/// `serde_json::Value`, which the readers below hand over before it is
/// converted.
#[verifier::external_type_specification]
#[verifier::external_body]
pub struct ExSerdeValue(serde_json::Value);

/// The text pairs, each taken by its characters.
pub open spec fn pairs_model(p: Seq<(String, String)>) -> Seq<(Seq<char>, Seq<char>)> {
    Seq::new(p.len(), |i: int| (p[i].0@, p[i].1@))
}

/// The map that a list of pairs with distinct keys stands for.
pub open spec fn pairs_map(p: Seq<(Seq<char>, Seq<char>)>) -> Map<Seq<char>, Seq<char>> {
    Map::new(
        |k: Seq<char>| crate::json::has_key(p, k),
        |k: Seq<char>| p[crate::json::key_index(p, k)].1,
    )
}

/// Converts a `serde_json::Value` into the library's own value, variant by
/// variant (a number keeps its canonical text, an object its entries in
/// order). It carries no contract of its own: it runs only inside the
/// readers below, whose contracts name what comes out of them.
#[verifier::external_body]
fn json_from_serde(v: serde_json::Value) -> JsonValue {
    match v {
        serde_json::Value::Null => JsonValue::Null,
        serde_json::Value::Bool(b) => JsonValue::Bool(b),
        serde_json::Value::Number(n) => JsonValue::Number(n.to_string()),
        serde_json::Value::String(s) => JsonValue::Str(s),
        serde_json::Value::Array(a) => JsonValue::Array(a.into_iter().map(json_from_serde).collect()),
        serde_json::Value::Object(m) => JsonValue::Object(
            m.into_iter().map(|(k, x)| (k, json_from_serde(x))).collect(),
        ),
    }
}

/// `serde_json::from_str` into a `serde_json::Value`: the value is named
/// `json_parse`, and so is the message of the error, which is handed on
/// beside it; objects, read into a map, have distinct keys.
#[verifier::external_body]
pub(crate) fn parse_json_text(text: &str) -> (r: Result<JsonValue, (serde_json::Error, String)>)
    ensures
        match json_parse(text@) {
            Ok(j) => r matches Ok(v) && v@ == j && well_formed(j),
            Err(m) => r matches Err(e) && e.1@ == m,
        },
{
    match serde_json::from_str::<serde_json::Value>(text) {
        Ok(v) => Ok(json_from_serde(v)),
        Err(e) => {
            let msg = e.to_string();
            Err((e, msg))
        },
    }
}

/// `serde_json`'s stream deserializer over a text, collected up to the first
/// error: named `json_stream_parse`, the error's message too, the error
/// handed on beside it; objects have distinct keys.
#[verifier::external_body]
pub(crate) fn parse_json_stream(text: &str) -> (r: Result<Vec<JsonValue>, (serde_json::Error, String)>)
    ensures
        match json_stream_parse(text@) {
            Ok(js) => r matches Ok(vs) && crate::json::items_model(vs@) == js && forall|i: int|
                0 <= i < js.len() ==> well_formed(#[trigger] js[i]),
            Err(m) => r matches Err(e) && e.1@ == m,
        },
{
    serde_json::Deserializer::from_str(text)
        .into_iter::<serde_json::Value>()
        .map(|item| item.map(json_from_serde))
        .collect::<Result<Vec<JsonValue>, serde_json::Error>>()
        .map_err(|e| {
            let msg = e.to_string();
            (e, msg)
        })
}

/// `serde_yaml::from_str` into a `serde_json::Value`: named `yaml_parse`,
/// the error by its message; objects have distinct keys.
#[verifier::external_body]
pub(crate) fn parse_yaml_text(text: &str) -> (r: Result<JsonValue, String>)
    ensures
        match yaml_parse(text@) {
            Ok(j) => r matches Ok(v) && v@ == j && well_formed(j),
            Err(m) => r matches Err(e) && e@ == m,
        },
{
    match serde_yaml::from_str::<serde_json::Value>(text) {
        Ok(v) => Ok(json_from_serde(v)),
        Err(e) => Err(e.to_string()),
    }
}

/// The message of `serde_yaml`'s error for a text that holds more than one
/// document, which `serde_yaml::from_str` refuses.
pub open spec fn more_than_one_document_message() -> Seq<char> {
    "deserializing from YAML containing more than one document is not supported"@
}

/// The documents of `serde_yaml::Deserializer::from_str`, each read into a
/// `serde_json::Value`, up to the first error: named
/// `yaml_documents_parse`; objects have distinct keys. `serde_yaml::from_str`
/// reads the first document in the same way and then fails if another one
/// follows (its `Deserializer::de` beside the iterator's `next`), so: what
/// it reads is the one document read here; an error of its, other than the
/// one for more than one document, is the first error here; and an error
/// here is its error or it refused the text as holding more documents.
#[verifier::external_body]
pub(crate) fn parse_yaml_documents(text: &str) -> (r: Result<Vec<JsonValue>, String>)
    ensures
        match yaml_documents_parse(text@) {
            Ok(js) => r matches Ok(vs) && crate::json::items_model(vs@) == js && forall|i: int|
                0 <= i < js.len() ==> well_formed(#[trigger] js[i]),
            Err(m) => r matches Err(e) && e@ == m,
        },
        match yaml_parse(text@) {
            Ok(j) => r matches Ok(vs) && crate::json::items_model(vs@) == seq![j],
            Err(m) => m == more_than_one_document_message() || (r matches Err(e) && e@ == m),
        },
        r matches Err(e) ==> (yaml_parse(text@) matches Err(m) && (m == e@ || m
            == more_than_one_document_message())),
{
    serde_yaml::Deserializer::from_str(text)
        .map(|doc| <serde_json::Value as serde::Deserialize>::deserialize(doc))
        .map(|item| item.map(json_from_serde).map_err(|e| e.to_string()))
        .collect()
}

/// `toml::from_str` into a `serde_json::Value`: named `toml_parse`, the
/// error by its message; objects have distinct keys.
#[verifier::external_body]
pub(crate) fn parse_toml_text(text: &str) -> (r: Result<JsonValue, String>)
    ensures
        match toml_parse(text@) {
            Ok(j) => r matches Ok(v) && v@ == j && well_formed(j),
            Err(m) => r matches Err(e) && e@ == m,
        },
{
    match toml::from_str::<serde_json::Value>(text) {
        Ok(v) => Ok(json_from_serde(v)),
        Err(e) => Err(e.to_string()),
    }
}

/// `quick_xml::de::from_str` into a `serde_json::Value`: named `xml_parse`,
/// the error by its message; objects have distinct keys.
#[verifier::external_body]
pub(crate) fn parse_xml_text(text: &str) -> (r: Result<JsonValue, String>)
    ensures
        match xml_parse(text@) {
            Ok(j) => r matches Ok(v) && v@ == j && well_formed(j),
            Err(m) => r matches Err(e) && e@ == m,
        },
{
    match quick_xml::de::from_str::<serde_json::Value>(text) {
        Ok(v) => Ok(json_from_serde(v)),
        Err(e) => Err(e.to_string()),
    }
}

/// `java_properties::read` over the text's bytes: the pairs come out in the
/// order its `HashMap` is walked (not stated), with distinct keys, and
/// together they are the map named `properties_parse`; the error by its
/// message.
#[verifier::external_body]
pub(crate) fn read_properties(text: &str) -> (r: Result<Vec<(String, String)>, String>)
    ensures
        match properties_parse(text@) {
            Ok(m) => r matches Ok(p) && crate::json::unique_keys(pairs_model(p@)) && pairs_map(
                pairs_model(p@),
            ) == m,
            Err(msg) => r matches Err(e) && e@ == msg,
        },
{
    match java_properties::read(text.as_bytes()) {
        Ok(m) => Ok(m.into_iter().collect()),
        Err(e) => Err(e.to_string()),
    }
}

} // verus!
