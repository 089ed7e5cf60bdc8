use vstd::prelude::*;
use crate::error::{CliError, Failure};
use crate::json::{Json, JsonValue};

verus! {

/// The compact text that `serde_json::to_string` writes for the
/// `serde_json::Value` that holds `j` (numbers read back from their text by
/// `serde_json::Number`'s `FromStr`, objects in the order of their entries);
/// or, where such a value cannot be built (a number's text is no JSON
/// number), the message of `serde_json`'s error.
pub uninterp spec fn json_text_of(j: Json) -> Result<Seq<char>, Seq<char>>;

/// Builds the `serde_json::Value` that holds `v`, variant by variant (a
/// number read back from its text). It carries no contract of its own: it
/// runs only inside `serde_json_text`, whose contract names what comes out.
#[verifier::external_body]
fn json_to_serde(v: &JsonValue) -> Result<serde_json::Value, serde_json::Error> {
    Ok(match v {
        JsonValue::Null => serde_json::Value::Null,
        JsonValue::Bool(b) => serde_json::Value::Bool(*b),
        JsonValue::Number(t) => serde_json::Value::Number(t.parse::<serde_json::Number>()?),
        JsonValue::Str(s) => serde_json::Value::String(s.clone()),
        JsonValue::Array(a) => serde_json::Value::Array(
            a.iter().map(json_to_serde).collect::<Result<Vec<_>, _>>()?,
        ),
        JsonValue::Object(m) => serde_json::Value::Object(
            m.iter().map(|(k, x)| json_to_serde(x).map(|y| (k.clone(), y))).collect::<Result<
                serde_json::Map<String, serde_json::Value>,
                _,
            >>()?,
        ),
    })
}

/// `serde_json::to_string` of the `serde_json::Value` that holds `v`: the
/// text, or the message of the error (handed on beside it), is named
/// `json_text_of`. As its serializer shows, an object's text opens with `{`
/// and an array's with `[`.
#[verifier::external_body]
fn serde_json_text(v: &JsonValue) -> (r: Result<String, (serde_json::Error, String)>)
    ensures
        match json_text_of(v@) {
            Ok(t) => r matches Ok(s) && s@ == t,
            Err(m) => r matches Err(e) && e.1@ == m,
        },
        v@ is Object ==> (r matches Ok(s) ==> s@.len() > 0 && s@[0] == '{'),
        v@ is Array ==> (r matches Ok(s) ==> s@.len() > 0 && s@[0] == '['),
{
    match json_to_serde(v).and_then(|x| serde_json::to_string(&x)) {
        Ok(s) => Ok(s),
        Err(e) => {
            let msg = e.to_string();
            Err((e, msg))
        },
    }
}

/// The compact JSON text of a sample, as `serde_json::to_string` writes it;
/// a sample that holds a number text which is no JSON number is a JSON
/// error with `serde_json`'s message.
pub fn sample_text(v: &JsonValue) -> (r: Result<String, CliError>)
    ensures
        match json_text_of(v@) {
            Ok(t) => r matches Ok(s) && s@ == t,
            Err(m) => r matches Err(e) && e@ == Failure::Json(m),
        },
        v@ is Object ==> (r matches Ok(s) ==> s@.len() > 0 && s@[0] == '{'),
        v@ is Array ==> (r matches Ok(s) ==> s@.len() > 0 && s@[0] == '['),
{
    match serde_json_text(v) {
        Ok(s) => Ok(s),
        Err((e, msg)) => Err(CliError::Json(e, msg)),
    }
}

} // verus!
