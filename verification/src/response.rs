//! HTTP responses of route handlers.
//!
//! ## Response wire format (little-endian)
//! ```text
//! [u16 status] [u32 num_headers] ([u32 key_len] [key] [u32 val_len] [val])* [body]
//! ```

use vstd::prelude::*;
use vstd::utf8::*;

use crate::text;
use crate::wire;
use crate::wire::TextPair;

verus! {

/// An HTTP response that crosses the wasm boundary.
#[derive(Debug)]
pub struct HttpResponse {
    pub status: u16,
    pub headers: Vec<(String, String)>,
    pub body: Vec<u8>,
}

/// What a response holds.
#[verifier::ext_equal]
pub struct ResponseView {
    pub status: u16,
    pub headers: Seq<TextPair>,
    pub body: Seq<u8>,
}

impl View for HttpResponse {
    type V = ResponseView;

    open spec fn view(&self) -> ResponseView {
        ResponseView {
            status: self.status,
            headers: wire::pairs_view(self.headers@),
            body: self.body@,
        }
    }
}

impl ResponseView {
    /// A response without headers and body.
    pub open spec fn empty(status: u16) -> ResponseView {
        ResponseView { status, headers: Seq::empty(), body: Seq::empty() }
    }

    /// The response with one more header behind the others.
    pub open spec fn with_header(self, key: Seq<char>, value: Seq<char>) -> ResponseView {
        ResponseView { headers: self.headers.push((key, value)), ..self }
    }

    /// The response with another body.
    pub open spec fn with_body(self, body: Seq<u8>) -> ResponseView {
        ResponseView { body, ..self }
    }

    /// The response with a text as its body and one more content type.
    pub open spec fn with_content(self, content_type: Seq<char>, text: Seq<char>) -> ResponseView {
        self.with_header("content-type"@, content_type).with_body(encode_utf8(text))
    }

    /// The response on the wire.
    pub open spec fn wire(self) -> Seq<u8> {
        wire::u16_bytes(self.status) + wire::list_bytes(self.headers) + self.body
    }

    /// The response that `bytes` hold on the wire.
    pub open spec fn unwire(bytes: Seq<u8>) -> Option<ResponseView> {
        if bytes.len() < 6 {
            None
        } else {
            match wire::take_list(bytes.skip(2)) {
                Some((headers, body)) => Some(
                    ResponseView { status: wire::u16_value(bytes), headers, body },
                ),
                None => None,
            }
        }
    }

    /// Whether every length and count in the response fits the wire format.
    pub open spec fn fits_wire(self) -> bool {
        &&& self.headers.len() <= wire::MAX_WIRE_ITEMS
        &&& wire::pairs_fit(self.headers)
    }
}

impl Clone for HttpResponse {
    fn clone(&self) -> (copy: HttpResponse)
        ensures
            copy@ == self@,
    {
        HttpResponse {
            status: self.status,
            headers: wire::copy_pairs(&self.headers),
            body: vstd::slice::slice_to_vec(self.body.as_slice()),
        }
    }
}

impl HttpResponse {
    /// Create a response with the given status code.
    pub fn status(code: u16) -> (response: HttpResponse)
        ensures
            response@ == ResponseView::empty(code),
            response.status == code,
            response.headers@.len() == 0,
            response.body@.len() == 0,
    {
        HttpResponse { status: code, headers: Vec::new(), body: Vec::new() }
    }

    /// Add a header to the response.
    pub fn header<K: Into<String>, V: Into<String>>(self, key: K, value: V) -> (response: HttpResponse)
        ensures
            exists|k: String, v: String|
                call_ensures(<K as Into<String>>::into, (key,), k) && call_ensures(
                    <V as Into<String>>::into,
                    (value,),
                    v,
                ) && response@ == self@.with_header(k@, v@) && response.headers@
                    == self.headers@.push((k, v)),
            response.status == self.status,
            response.body == self.body,
    {
        let k: String = key.into();
        let v: String = value.into();
        let mut response = self;
        response.headers.push((k, v));
        assert(response@ =~= self@.with_header(k@, v@));
        response
    }

    /// Sets a text body behind one more `content-type` header.
    fn content(self, content_type: &str, text: &str) -> (response: HttpResponse)
        ensures
            response@ == self@.with_content(content_type@, text@),
            response.status == self.status,
            response@.headers == self@.headers.push(("content-type"@, content_type@)),
            response.body@ == encode_utf8(text@),
    {
        let mut response = self;
        response.headers.push(("content-type".to_owned(), content_type.to_owned()));
        response.body = vstd::slice::slice_to_vec(text.as_bytes());
        assert(response@ =~= self@.with_content(content_type@, text@));
        response
    }

    /// Set the body to HTML content.
    pub fn html<B: Into<String>>(self, body: B) -> (response: HttpResponse)
        ensures
            exists|text: String|
                call_ensures(<B as Into<String>>::into, (body,), text) && response@
                    == self@.with_content("text/html; charset=utf-8"@, text@) && response.body@
                    == encode_utf8(text@),
            response.status == self.status,
            response@.headers == self@.headers.push(
                ("content-type"@, "text/html; charset=utf-8"@),
            ),
    {
        let text: String = body.into();
        self.content("text/html; charset=utf-8", text.as_str())
    }

    /// Set the body to plain text.
    pub fn text<B: Into<String>>(self, body: B) -> (response: HttpResponse)
        ensures
            exists|text: String|
                call_ensures(<B as Into<String>>::into, (body,), text) && response@
                    == self@.with_content("text/plain; charset=utf-8"@, text@) && response.body@
                    == encode_utf8(text@),
            response.status == self.status,
            response@.headers == self@.headers.push(
                ("content-type"@, "text/plain; charset=utf-8"@),
            ),
    {
        let text: String = body.into();
        self.content("text/plain; charset=utf-8", text.as_str())
    }

    /// Set the body to JSON content.
    pub fn json<B: Into<String>>(self, body: B) -> (response: HttpResponse)
        ensures
            exists|text: String|
                call_ensures(<B as Into<String>>::into, (body,), text) && response@
                    == self@.with_content("application/json"@, text@) && response.body@
                    == encode_utf8(text@),
            response.status == self.status,
            response@.headers == self@.headers.push(
                ("content-type"@, "application/json"@),
            ),
    {
        let text: String = body.into();
        self.content("application/json", text.as_str())
    }

    /// Set a raw byte body.
    pub fn body_bytes(self, body: Vec<u8>) -> (response: HttpResponse)
        ensures
            response@ == self@.with_body(body@),
            response.status == self.status,
            response.headers == self.headers,
            response.body == body,
    {
        let mut response = self;
        response.body = body;
        response
    }

    /// Encode this response to bytes for the wasm boundary.
    pub fn encode(&self) -> (bytes: Vec<u8>)
        ensures
            bytes@ == self@.wire(),
    {
        let mut buf: Vec<u8> = Vec::new();
        wire::write_u16(&mut buf, self.status);
        wire::write_pairs(&mut buf, &self.headers);
        wire::write_bytes(&mut buf, self.body.as_slice());
        assert(buf@ =~= self@.wire());
        buf
    }

    /// Decode a response from bytes received from the wasm boundary.
    /// Returns `None` if the bytes are malformed.
    pub fn decode(bytes: &[u8]) -> (response: Option<HttpResponse>)
        ensures
            response is Some <==> ResponseView::unwire(bytes@) is Some,
            response matches Some(r) ==> r@ == ResponseView::unwire(bytes@)->0,
            // A key or value that was not valid UTF-8 shows.
            response matches Some(r) ==> wire::list_holds_utf8(bytes@.skip(2))
                || !wire::pairs_clean(r@.headers),
            // Without such a key or value, encoding gives the same bytes.
            response matches Some(r) ==> wire::pairs_clean(r@.headers) ==> r@.wire() == bytes@,
    {
        if bytes.len() < 6 {
            return None;
        }
        let status: u16 = bytes[0] as u16 + 0x100 * bytes[1] as u16;
        let mut pos: usize = 2;
        let headers = match wire::read_pairs(bytes, &mut pos) {
            Some(headers) => headers,
            None => return None,
        };
        let rest = vstd::slice::slice_subrange(bytes, pos, bytes.len());
        let body = vstd::slice::slice_to_vec(rest);
        assert(rest@ =~= bytes@.skip(pos as int));
        proof {
            if wire::list_holds_utf8(bytes@.skip(2)) {
                decoded_response_rewritten(bytes@);
            }
        }
        Some(HttpResponse { status, headers, body })
    }
}

/// Decoding gives back the response that was encoded: status, headers in order, body.
pub proof fn response_round_trip(response: ResponseView)
    requires
        response.fits_wire(),
    ensures
        ResponseView::unwire(response.wire()) == Some(response),
{
    let headers = wire::list_bytes(response.headers);
    let status = wire::u16_bytes(response.status);
    wire::lemma_add_assoc(status, headers, response.body);
    wire::u16_round_trip(response.status, headers + response.body);
    wire::list_round_trip(response.headers, response.body);
}

/// Encoding a decoded response gives the bytes that it was decoded from, as long as its
/// keys and values were valid UTF-8.
pub proof fn decoded_response_rewritten(bytes: Seq<u8>)
    requires
        wire::list_holds_utf8(bytes.skip(2)),
    ensures
        ResponseView::unwire(bytes) matches Some(r) ==> r.wire() == bytes,
{
    if let Some(r) = ResponseView::unwire(bytes) {
        let head = wire::u16_bytes(r.status);
        wire::list_rewritten(bytes.skip(2));
        wire::lemma_add_assoc(head, wire::list_bytes(r.headers), r.body);
        assert(head + bytes.skip(2) =~= bytes);
    }
}

/// More bytes behind an encoded response go to its body.
pub proof fn response_extends(bytes: Seq<u8>, more: Seq<u8>)
    ensures
        ResponseView::unwire(bytes) matches Some(r) ==> ResponseView::unwire(bytes + more) == Some(
            r.with_body(r.body + more),
        ),
{
    if bytes.len() >= 6 {
        assert((bytes + more).skip(2) =~= bytes.skip(2) + more);
        wire::list_extends(bytes.skip(2), more);
    }
}

/// An encoded response that is cut off before its body is refused.
pub proof fn cut_response_refused(response: ResponseView, len: int)
    requires
        response.fits_wire(),
        0 <= len < response.wire().len() - response.body.len(),
    ensures
        ResponseView::unwire(response.wire().take(len)) is None,
{
    let bytes = response.wire();
    response_round_trip(response);
    response_extends(bytes.take(len), bytes.skip(len));
    assert(bytes.take(len) + bytes.skip(len) =~= bytes);
}

/// A response that claims more headers than the wire format allows is refused, whatever
/// follows the claim.
pub proof fn crafted_response_refused(status: u16, count: u32, rest: Seq<u8>)
    requires
        count > wire::MAX_WIRE_ITEMS,
    ensures
        ResponseView::unwire(wire::u16_bytes(status) + (wire::u32_bytes(count) + rest)) is None,
{
    wire::u16_round_trip(status, wire::u32_bytes(count) + rest);
    wire::u32_round_trip(count, rest);
}

/// A response is never decoded with more headers than the wire format allows.
pub proof fn decoded_response_bounded(bytes: Seq<u8>)
    ensures
        ResponseView::unwire(bytes) matches Some(r) ==> r.headers.len() <= wire::MAX_WIRE_ITEMS,
{
    wire::lemma_list_len(bytes.skip(2));
}

/// The fields of a response are all that it holds.
pub proof fn response_view_holds(response: HttpResponse)
    ensures
        response@.status == response.status,
        response@.headers == wire::pairs_view(response.headers@),
        response@.body == response.body@,
{
}

/// On the wire the status comes first, in two bytes, then the number of headers, the
/// headers, and the body up to the end.
pub proof fn response_layout(response: ResponseView)
    ensures
        response.wire() == wire::u16_bytes(response.status) + (wire::list_bytes(response.headers)
            + response.body),
{
    wire::lemma_add_assoc(
        wire::u16_bytes(response.status),
        wire::list_bytes(response.headers),
        response.body,
    );
}

/// A status, up to 1024 headers of any bytes, and a body are decoded into just those, each
/// key and value as the text that it is taken for.
pub proof fn raw_response_decoded(
    status: u16,
    raw: Seq<wire::RawPair>,
    headers: Seq<TextPair>,
    body: Seq<u8>,
)
    requires
        raw.len() <= 1024,
        forall|i: int|
            0 <= i < raw.len() ==> (#[trigger] raw[i]).0.len() < 0x1_0000_0000 && raw[i].1.len()
                < 0x1_0000_0000,
        headers.len() == raw.len(),
        forall|i: int|
            0 <= i < raw.len() ==> (#[trigger] headers[i]).0 == text::lossy_text(raw[i].0)
                && headers[i].1 == text::lossy_text(raw[i].1),
    ensures
        ResponseView::unwire(
            wire::u16_bytes(status) + (wire::count_bytes(raw.len()) + wire::raw_pairs_bytes(raw)
                + body),
        ) == Some(ResponseView { status, headers, body }),
{
    let list = wire::count_bytes(raw.len()) + wire::raw_pairs_bytes(raw) + body;
    wire::u16_round_trip(status, list);
    wire::raw_list_read(raw, headers, body);
    wire::count_layout(raw.len());
}

/// Only a status, up to 1024 headers and a body are decoded.
pub proof fn decoded_response_framed(bytes: Seq<u8>) -> (raw: Seq<wire::RawPair>)
    ensures
        ResponseView::unwire(bytes) matches Some(r) ==> {
            &&& raw.len() == r.headers.len() <= 1024
            &&& forall|i: int|
                0 <= i < raw.len() ==> (#[trigger] raw[i]).0.len() < 0x1_0000_0000
                    && raw[i].1.len() < 0x1_0000_0000
            &&& bytes == wire::u16_bytes(r.status) + (wire::count_bytes(raw.len())
                + wire::raw_pairs_bytes(raw) + r.body)
            &&& forall|i: int|
                0 <= i < raw.len() ==> (#[trigger] r.headers[i]).0 == text::lossy_text(raw[i].0)
                    && r.headers[i].1 == text::lossy_text(raw[i].1)
        },
{
    let raw = wire::read_list_framed(bytes.skip(2));
    if let Some(r) = ResponseView::unwire(bytes) {
        assert(wire::u16_bytes(r.status) + bytes.skip(2) =~= bytes);
    }
    raw
}

/// A response with up to 1024 headers comes back from its bytes.
pub proof fn any_response_round_trip(response: ResponseView)
    requires
        response.headers.len() <= 1024,
        forall|i: int|
            0 <= i < response.headers.len() ==> encode_utf8((#[trigger] response.headers[i]).0).len()
                < 0x1_0000_0000 && encode_utf8(response.headers[i].1).len() < 0x1_0000_0000,
    ensures
        ResponseView::unwire(response.wire()) == Some(response),
{
    assert(wire::pairs_fit(response.headers));
    response_round_trip(response);
}

} // verus!
