//! JSON bodies.

use vstd::prelude::*;
use vstd::utf8::*;

use crate::request::HttpRequest;
use crate::response::{HttpResponse, ResponseView};

verus! {

/// A JSON document.
#[verifier::external_type_specification]
#[verifier::external_body]
pub struct ExJsonValue(serde_json::Value);

/// The error of the JSON parser and writer.
#[verifier::external_type_specification]
#[verifier::external_body]
pub struct ExJsonError(serde_json::Error);

/// The document that `serde_json::from_slice` reads from `bytes`, or its error.
pub uninterp spec fn json_document(bytes: Seq<u8>) -> Result<serde_json::Value, serde_json::Error>;

/// The bytes that `serde_json::to_vec` writes for `value`, or the text of its error.
pub uninterp spec fn json_bytes(value: serde_json::Value) -> Result<Seq<u8>, Seq<char>>;

/// Parses a document with `serde_json::from_slice`.
///
/// Trusted: the document, or the error where there is none, depends on the bytes alone.
/// The grammar, and what each error says, are left unsaid.
#[verifier::external_body]
fn from_slice(bytes: &[u8]) -> (document: Result<serde_json::Value, serde_json::Error>)
    ensures
        document == json_document(bytes@),
{
    serde_json::from_slice(bytes)
}

/// Writes a document with `serde_json::to_vec`.
///
/// Trusted: the bytes, or the text of the error, depend on the document alone.
#[verifier::external_body]
fn to_vec(value: &serde_json::Value) -> (encoded: Result<Vec<u8>, String>)
    ensures
        match encoded {
            Ok(bytes) => json_bytes(*value) == Ok::<Seq<u8>, Seq<char>>(bytes@),
            Err(message) => json_bytes(*value) == Err::<Seq<u8>, Seq<char>>(message@),
        },
{
    serde_json::to_vec(value).map_err(|e| e.to_string())
}

impl HttpRequest {
    /// Parse the body as JSON.
    pub fn json(&self) -> (document: Result<serde_json::Value, serde_json::Error>)
        ensures
            document == json_document(self@.body),
    {
        from_slice(self.body.as_slice())
    }
}

/// The response that carries an encoded document, or the message of a failed encoding.
pub open spec fn json_outcome(encoded: Result<Seq<u8>, Seq<char>>) -> ResponseView {
    match encoded {
        Ok(body) => ResponseView::empty(200).with_header(
            "content-type"@,
            "application/json"@,
        ).with_body(body),
        Err(message) => ResponseView::empty(500).with_header(
            "content-type"@,
            "application/json"@,
        ).with_body(
            encode_utf8("{\"error\":\"serialization failed: "@ + message + "\"}"@),
        ),
    }
}

/// The outcome of an encoding, with bytes and text taken for what they hold.
pub open spec fn encoding_view(encoded: Result<Vec<u8>, String>) -> Result<Seq<u8>, Seq<char>> {
    match encoded {
        Ok(bytes) => Ok(bytes@),
        Err(message) => Err(message@),
    }
}

/// The response to an encoding: the document (200), or an error (500).
pub fn json_response(encoded: Result<Vec<u8>, String>) -> (response: HttpResponse)
    ensures
        response@ == json_outcome(encoding_view(encoded)),
        response@.headers == seq![("content-type"@, "application/json"@)],
        match encoded {
            Ok(body) => response.status == 200 && response.body@ == body@,
            Err(message) => response.status == 500 && response.body@ == encode_utf8(
                "{\"error\":\"serialization failed: "@ + message@ + "\"}"@,
            ),
        },
{
    match encoded {
        Ok(body) => HttpResponse::status(200).header(
            "content-type",
            "application/json",
        ).body_bytes(body),
        Err(message) => {
            let text = "{\"error\":\"serialization failed: ".to_owned().concat(
                message.as_str(),
            ).concat("\"}");
            HttpResponse::status(500).header("content-type", "application/json").body_bytes(
                vstd::slice::slice_to_vec(text.as_str().as_bytes()),
            )
        },
    }
}

/// The response to a document.
pub fn document_response(value: &serde_json::Value) -> (response: HttpResponse)
    ensures
        response@ == json_outcome(json_bytes(*value)),
        response@.headers == seq![("content-type"@, "application/json"@)],
        match json_bytes(*value) {
            Ok(body) => response.status == 200 && response.body@ == body,
            Err(message) => response.status == 500 && response.body@ == encode_utf8(
                "{\"error\":\"serialization failed: "@ + message + "\"}"@,
            ),
        },
{
    json_response(to_vec(value))
}

} // verus!
