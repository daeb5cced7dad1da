//! The one gate to the JSON parser: a candidate substring is decoded into
//! plain values (field keys, rendered field texts, 64-bit readings) that the
//! verified extraction logic then works on.

use vstd::prelude::*;

verus! {

/// One field of a decoded JSON object: its key, the field's value rendered
/// back to compact JSON text, and the value read as a `u64` where it is a
/// number representable as one.
pub struct JsonField {
    pub key: String,
    pub text: String,
    pub num: Option<u64>,
}

/// The outcome of decoding one candidate substring.
pub enum ParsedJson {
    /// A JSON object with these fields, in the decoder's key order.
    Fields(Vec<JsonField>),
    /// Valid JSON but not an object; the value's rendered text.
    NotObject(String),
    /// Not valid JSON; the parser's message.
    Invalid(String),
}

/// What the JSON decoder yields for the given candidate bytes; a function
/// of the bytes alone.
pub uninterp spec fn json_decode(bytes: Seq<u8>) -> ParsedJson;

/// The characters that stand for the given bytes when they are read as
/// UTF-8 text, invalid sequences replaced; a function of the bytes alone.
pub uninterp spec fn lossy_of(bytes: Seq<u8>) -> Seq<char>;

/// Relies on serde_json::from_slice to parse the candidate, and on
/// serde_json::Value::as_u64, Value::to_string and Error::to_string to read
/// the outcome back as plain values; all are deterministic in the bytes.
#[verifier::external_body]
pub(crate) fn decode_candidate(bytes: &Vec<u8>) -> (r: ParsedJson)
    ensures
        r == json_decode(bytes@),
{
    match serde_json::from_slice::<serde_json::Value>(bytes) {
        Ok(serde_json::Value::Object(map)) => ParsedJson::Fields(
            map.into_iter().map(
                |(key, v)| JsonField { num: v.as_u64(), text: v.to_string(), key },
            ).collect(),
        ),
        Ok(other) => ParsedJson::NotObject(other.to_string()),
        Err(e) => ParsedJson::Invalid(e.to_string()),
    }
}

/// Relies on String::from_utf8_lossy: reads the candidate bytes back as
/// text, a function of the bytes alone.
#[verifier::external_body]
pub(crate) fn lossy_string(bytes: &Vec<u8>) -> (r: String)
    ensures
        r@ == lossy_of(bytes@),
{
    String::from_utf8_lossy(bytes).into_owned()
}

/// Relies on str::replace with an empty replacement: the result holds
/// exactly the characters of the input that are not double quotes.
#[verifier::external_body]
pub(crate) fn strip_quotes(s: &String) -> (r: String)
    ensures
        r@ == s@.filter(|c: char| c != '"'),
{
    s.replace('"', "")
}

} // verus!
