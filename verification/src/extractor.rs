//! The non-streaming path: extract the answer text from one complete
//! JSON response body, at the path `choices[0].message.content`.

use vstd::prelude::*;

use crate::record::opt_str_view;

verus! {

/// The answer text that JSON parsing extracts from a complete response
/// body: `Some` exactly when the body is valid JSON carrying a string at
/// `choices[0].message.content`, and then the characters of that string.
pub uninterp spec fn json_message_content(body: Seq<u8>) -> Option<Seq<char>>;

/// The failure of the non-streaming path: the body is not valid JSON, or
/// the expected field is missing or not a string.
#[derive(Debug, Clone, Copy, PartialEq, Eq, Structural)]
pub struct ExtractionError;

/// Relies on serde_json::from_slice::<Value> and Value::get / Value::as_str:
/// parsing the body and walking to `choices[0].message.content` is a pure
/// function of the body bytes, named `json_message_content`.
#[verifier::external_body]
fn json_standard_content(body: &[u8]) -> (r: Option<String>)
    ensures
        opt_str_view(r) == json_message_content(body@),
{
    let value: serde_json::Value = match serde_json::from_slice(body) {
        Ok(v) => v,
        Err(_) => return None,
    };
    value.get("choices")?.get(0)?.get("message")?.get("content")?.as_str().map(|s| s.to_string())
}

/// Extracts the answer text of a complete response body: succeeds with the
/// string at `choices[0].message.content` exactly when the body carries
/// one, and fails with an `ExtractionError` otherwise.
pub fn extract_standard_content(body: &[u8]) -> (r: Result<String, ExtractionError>)
    ensures
        match r {
            Ok(s) => json_message_content(body@) == Some(s@),
            Err(_) => json_message_content(body@) is None,
        },
{
    match json_standard_content(body) {
        Some(s) => Ok(s),
        None => Err(ExtractionError),
    }
}

} // verus!

