//! HTTP requests passed to route handlers.
//!
//! ## Request wire format (little-endian)
//! ```text
//! [u32 method_len] [method] [u32 path_len] [path]
//! [u32 num_headers] ([u32 key_len] [key] [u32 val_len] [val])*
//! [u32 num_path_params] ([u32 key_len] [key] [u32 val_len] [val])*
//! [u32 query_len] [query]
//! [body]
//! ```

use vstd::prelude::*;
use vstd::utf8::*;

use crate::fields;
use crate::params;
use crate::params::PathParams;
use crate::text;
use crate::urlencoding;
use crate::wire;
use crate::wire::TextPair;

verus! {

/// An HTTP request passed to route handlers.
#[derive(Debug)]
pub struct HttpRequest {
    pub method: String,
    pub path: String,
    pub headers: Vec<(String, String)>,
    pub path_params: PathParams,
    pub query: String,
    pub body: Vec<u8>,
}

/// What a request holds.
#[verifier::ext_equal]
pub struct RequestView {
    pub method: Seq<char>,
    pub path: Seq<char>,
    pub headers: Seq<TextPair>,
    pub path_params: Seq<TextPair>,
    pub query: Seq<char>,
    pub body: Seq<u8>,
}

impl View for HttpRequest {
    type V = RequestView;

    open spec fn view(&self) -> RequestView {
        RequestView {
            method: self.method@,
            path: self.path@,
            headers: wire::pairs_view(self.headers@),
            path_params: self.path_params@,
            query: self.query@,
            body: self.body@,
        }
    }
}

impl RequestView {
    /// The part of the wire format that stands before the body.
    pub open spec fn head(self) -> Seq<u8> {
        wire::text_bytes(self.method) + (wire::text_bytes(self.path) + (wire::list_bytes(
            self.headers,
        ) + (wire::list_bytes(self.path_params) + wire::text_bytes(self.query))))
    }

    /// The request on the wire.
    pub open spec fn wire(self) -> Seq<u8> {
        self.head() + self.body
    }

    /// The request that `bytes` hold on the wire. Where a path parameter occurs more
    /// than once, its last value counts.
    pub open spec fn unwire(bytes: Seq<u8>) -> Option<RequestView> {
        match wire::take_text(bytes) {
            None => None,
            Some((method, rest)) => match wire::take_text(rest) {
                None => None,
                Some((path, rest)) => match wire::take_list(rest) {
                    None => None,
                    Some((headers, rest)) => match wire::take_list(rest) {
                        None => None,
                        Some((pairs, rest)) => match wire::take_text(rest) {
                            None => None,
                            Some((query, body)) => Some(
                                RequestView {
                                    method,
                                    path,
                                    headers,
                                    path_params: params::inserted_all(Seq::empty(), pairs),
                                    query,
                                    body,
                                },
                            ),
                        },
                    },
                },
            },
        }
    }

    /// Whether nothing in the request holds U+FFFD, which stands for what is not valid
    /// UTF-8. The body, which is no text, does not count.
    pub open spec fn is_clean(self) -> bool {
        &&& wire::is_clean(self.method)
        &&& wire::is_clean(self.path)
        &&& wire::pairs_clean(self.headers)
        &&& wire::pairs_clean(self.path_params)
        &&& wire::is_clean(self.query)
    }

    /// Whether each part of the request holds U+FFFD where the bytes that it was decoded
    /// from are not valid UTF-8. Of a path parameter that occurs more than once, the
    /// values that do not count may hold it too.
    pub open spec fn shows_repairs(self, bytes: Seq<u8>) -> bool {
        &&& wire::holds_utf8(bytes) || !wire::is_clean(self.method)
        &&& wire::take_text(bytes) matches Some((method, rest)) ==> {
            &&& wire::holds_utf8(rest) || !wire::is_clean(self.path)
            &&& wire::take_text(rest) matches Some((path, rest)) ==> {
                &&& wire::list_holds_utf8(rest) || !wire::pairs_clean(self.headers)
                &&& wire::take_list(rest) matches Some((headers, rest)) ==> {
                    &&& wire::take_list(rest) matches Some((pairs, behind)) ==> {
                        &&& wire::list_holds_utf8(rest) || !wire::pairs_clean(pairs)
                        &&& wire::holds_utf8(behind) || !wire::is_clean(self.query)
                    }
                }
            }
        }
    }

    /// Whether every length and count in the request fits the wire format.
    pub open spec fn fits_wire(self) -> bool {
        &&& wire::text_fits(self.method)
        &&& wire::text_fits(self.path)
        &&& self.headers.len() <= wire::MAX_WIRE_ITEMS
        &&& wire::pairs_fit(self.headers)
        &&& self.path_params.len() <= wire::MAX_WIRE_ITEMS
        &&& wire::pairs_fit(self.path_params)
        &&& wire::text_fits(self.query)
    }
}

/// The value of the first header whose name is `name` but for case.
pub open spec fn header_in(headers: Seq<TextPair>, name: Seq<char>) -> Option<Seq<char>>
    decreases headers.len(),
{
    if headers.len() == 0 {
        None
    } else if text::lowercase(headers[0].0) == text::lowercase(name) {
        Some(headers[0].1)
    } else {
        header_in(headers.skip(1), name)
    }
}

impl Clone for HttpRequest {
    fn clone(&self) -> (copy: HttpRequest)
        ensures
            copy@ == self@,
    {
        HttpRequest {
            method: self.method.clone(),
            path: self.path.clone(),
            headers: wire::copy_pairs(&self.headers),
            path_params: self.path_params.clone(),
            query: self.query.clone(),
            body: vstd::slice::slice_to_vec(self.body.as_slice()),
        }
    }
}

impl HttpRequest {
    /// Get a header value by name (case-insensitive).
    pub fn header(&self, name: &str) -> (value: Option<&str>)
        ensures
            text::option_text(value) == header_in(self@.headers, name@),
    {
        let name_lower = text::to_lowercase(name);
        let ghost all = self@.headers;
        let mut i: usize = 0;
        assert(all.skip(0) =~= all);
        while i < self.headers.len()
            invariant
                i <= self.headers@.len(),
                all == self@.headers,
                name_lower@ == text::lowercase(name@),
                header_in(all.skip(i as int), name@) == header_in(all, name@),
            decreases self.headers@.len() - i,
        {
            let pair = &self.headers[i];
            assert(all.skip(i as int)[0] == all[i as int]);
            assert(all.skip(i as int).skip(1) =~= all.skip(i + 1));
            if text::to_lowercase(pair.0.as_str()) == name_lower {
                return Some(pair.1.as_str());
            }
            i += 1;
        }
        None
    }

    /// Get a cookie value by name.
    pub fn cookie(&self, name: &str) -> (value: Option<&str>)
        ensures
            text::option_text(value) == match header_in(self@.headers, "cookie"@) {
                Some(cookies) => fields::cookie_in(cookies, name@),
                None => None,
            },
    {
        match self.header("cookie") {
            Some(cookies) => fields::cookie_value(cookies, name),
            None => None,
        }
    }

    /// Get a path parameter by name (e.g., `:id` in `/brick/:id`).
    pub fn path_param(&self, name: &str) -> (value: Option<&str>)
        ensures
            text::option_text(value) == params::value_of(self@.path_params, name@),
    {
        self.path_params.get(name)
    }

    /// Get a query parameter by name.
    pub fn query_param(&self, name: &str) -> (value: Option<String>)
        ensures
            text::option_string(value) == fields::field_in(self@.query, name@),
            value matches Some(v) ==> fields::raw_in(self@.query, name@) matches Some(raw)
                && urlencoding::repairs_in_place(raw, v@),
    {
        fields::field_value(self.query.as_str(), name)
    }

    /// Parse the body as a URL-encoded form and get a field.
    pub fn form_field(&self, name: &str) -> (value: Option<String>)
        ensures
            text::option_string(value) == if valid_utf8(self@.body) {
                fields::field_in(decode_utf8(self@.body), name@)
            } else {
                None
            },
            value matches Some(v) ==> fields::raw_in(decode_utf8(self@.body), name@) matches Some(
                raw,
            ) && urlencoding::repairs_in_place(raw, v@),
    {
        match text::from_utf8(self.body.as_slice()) {
            Some(form) => fields::field_value(form, name),
            None => None,
        }
    }

    /// Encode this request to bytes for the wasm boundary.
    pub fn encode(&self) -> (bytes: Vec<u8>)
        ensures
            bytes@ == self@.wire(),
    {
        let mut buf: Vec<u8> = Vec::new();
        wire::write_text(&mut buf, self.method.as_str());
        wire::write_text(&mut buf, self.path.as_str());
        wire::write_pairs(&mut buf, &self.headers);
        wire::write_pairs(&mut buf, self.path_params.entries());
        wire::write_text(&mut buf, self.query.as_str());
        wire::write_bytes(&mut buf, self.body.as_slice());
        assert(buf@ =~= self@.wire());
        buf
    }

    /// Decode a request from bytes received from the host.
    pub fn decode(bytes: &[u8]) -> (request: Option<HttpRequest>)
        ensures
            request is Some <==> RequestView::unwire(bytes@) is Some,
            request matches Some(r) ==> r@ == RequestView::unwire(bytes@)->0,
            // What was not valid UTF-8 shows.
            request matches Some(r) ==> r@.shows_repairs(bytes@),
            // Where nothing was repaired and no parameter came twice, encoding gives the
            // same bytes.
            request matches Some(r) ==> r@.is_clean() && params_distinct(bytes@) ==> r@.wire()
                == bytes@,
    {
        let mut pos: usize = 0;
        assert(bytes@.skip(0) =~= bytes@);
        let method = match wire::read_length_prefixed_str(bytes, &mut pos) {
            Some(method) => method,
            None => return None,
        };
        let path = match wire::read_length_prefixed_str(bytes, &mut pos) {
            Some(path) => path,
            None => return None,
        };
        let headers = match wire::read_pairs(bytes, &mut pos) {
            Some(headers) => headers,
            None => return None,
        };
        let pairs = match wire::read_pairs(bytes, &mut pos) {
            Some(pairs) => pairs,
            None => return None,
        };
        let path_params = PathParams::from_pairs(pairs);
        let query = match wire::read_length_prefixed_str(bytes, &mut pos) {
            Some(query) => query,
            None => return None,
        };
        let rest = vstd::slice::slice_subrange(bytes, pos, bytes.len());
        let body = vstd::slice::slice_to_vec(rest);
        assert(rest@ =~= bytes@.skip(pos as int));
        let request = HttpRequest { method, path, headers, path_params, query, body };
        proof {
            if request@.is_clean() && params_distinct(bytes@) {
                clean_request_rewritten(bytes@, request@);
            }
        }
        Some(request)
    }
}

/// Decoding gives back the request that was encoded: method, path, headers in order,
/// path parameters, query and body.
pub proof fn request_round_trip(request: RequestView)
    requires
        request.fits_wire(),
        params::names_distinct(request.path_params),
    ensures
        RequestView::unwire(request.wire()) == Some(request),
{
    let m = wire::text_bytes(request.method);
    let p = wire::text_bytes(request.path);
    let h = wire::list_bytes(request.headers);
    let pp = wire::list_bytes(request.path_params);
    let q = wire::text_bytes(request.query);
    let b = request.body;
    wire::lemma_add_assoc(m, p + (h + (pp + q)), b);
    wire::lemma_add_assoc(p, h + (pp + q), b);
    wire::lemma_add_assoc(h, pp + q, b);
    wire::lemma_add_assoc(pp, q, b);
    wire::text_round_trip(request.method, p + (h + (pp + (q + b))));
    wire::text_round_trip(request.path, h + (pp + (q + b)));
    wire::list_round_trip(request.headers, pp + (q + b));
    wire::list_round_trip(request.path_params, q + b);
    wire::text_round_trip(request.query, b);
    assert(Seq::<TextPair>::empty() + request.path_params =~= request.path_params);
    params::inserted_all_appends(Seq::empty(), request.path_params);
}

/// Whether every text in the encoded request is valid UTF-8.
pub open spec fn texts_hold_utf8(bytes: Seq<u8>) -> bool {
    &&& wire::holds_utf8(bytes)
    &&& wire::take_text(bytes) matches Some((method, rest)) ==> {
        &&& wire::holds_utf8(rest)
        &&& wire::take_text(rest) matches Some((path, rest)) ==> {
            &&& wire::list_holds_utf8(rest)
            &&& wire::take_list(rest) matches Some((headers, rest)) ==> {
                &&& wire::list_holds_utf8(rest)
                &&& wire::take_list(rest) matches Some((pairs, rest)) ==> wire::holds_utf8(rest)
            }
        }
    }
}

/// Whether no path parameter occurs twice in the encoded request.
pub open spec fn params_distinct(bytes: Seq<u8>) -> bool {
    wire::take_text(bytes) matches Some((method, rest)) ==> wire::take_text(rest) matches Some(
        (path, rest),
    ) ==> wire::take_list(rest) matches Some((headers, rest)) ==> wire::take_list(
        rest,
    ) matches Some((pairs, rest)) ==> params::names_distinct(pairs)
}

/// Encoding a decoded request gives the bytes that it was decoded from, as long as its
/// texts were valid UTF-8 and no path parameter occurred twice.
pub proof fn decoded_request_rewritten(bytes: Seq<u8>)
    requires
        texts_hold_utf8(bytes),
        params_distinct(bytes),
    ensures
        RequestView::unwire(bytes) matches Some(r) ==> r.wire() == bytes,
{
    if let Some(r) = RequestView::unwire(bytes) {
        let (method, after_method) = wire::take_text(bytes)->0;
        let (path, after_path) = wire::take_text(after_method)->0;
        let (headers, after_headers) = wire::take_list(after_path)->0;
        let (pairs, after_pairs) = wire::take_list(after_headers)->0;
        wire::text_rewritten(bytes);
        wire::text_rewritten(after_method);
        wire::list_rewritten(after_path);
        wire::list_rewritten(after_headers);
        wire::text_rewritten(after_pairs);
        assert(Seq::<TextPair>::empty() + pairs =~= pairs);
        params::inserted_all_appends(Seq::empty(), pairs);
        let m = wire::text_bytes(method);
        let p = wire::text_bytes(path);
        let h = wire::list_bytes(headers);
        let pp = wire::list_bytes(pairs);
        let q = wire::text_bytes(r.query);
        wire::lemma_add_assoc(m, p + (h + (pp + q)), r.body);
        wire::lemma_add_assoc(p, h + (pp + q), r.body);
        wire::lemma_add_assoc(h, pp + q, r.body);
        wire::lemma_add_assoc(pp, q, r.body);
    }
}

/// Encoding a decoded request that holds no U+FFFD gives the bytes that it was decoded
/// from, as long as no path parameter occurred twice.
pub proof fn clean_request_rewritten(bytes: Seq<u8>, request: RequestView)
    requires
        RequestView::unwire(bytes) == Some(request),
        request.shows_repairs(bytes),
        request.is_clean(),
        params_distinct(bytes),
    ensures
        texts_hold_utf8(bytes),
        request.wire() == bytes,
{
    let (method, after_method) = wire::take_text(bytes)->0;
    let (path, after_path) = wire::take_text(after_method)->0;
    let (headers, after_headers) = wire::take_list(after_path)->0;
    let (pairs, after_pairs) = wire::take_list(after_headers)->0;
    assert(Seq::<TextPair>::empty() + pairs =~= pairs);
    params::inserted_all_appends(Seq::empty(), pairs);
    decoded_request_rewritten(bytes);
}

/// More bytes behind an encoded request go to its body.
pub proof fn request_extends(bytes: Seq<u8>, more: Seq<u8>)
    ensures
        RequestView::unwire(bytes) matches Some(r) ==> RequestView::unwire(bytes + more) == Some(
            RequestView { body: r.body + more, ..r },
        ),
{
    wire::text_extends(bytes, more);
    if let Some((method, rest)) = wire::take_text(bytes) {
        wire::text_extends(rest, more);
        if let Some((path, rest)) = wire::take_text(rest) {
            wire::list_extends(rest, more);
            if let Some((headers, rest)) = wire::take_list(rest) {
                wire::list_extends(rest, more);
                if let Some((pairs, rest)) = wire::take_list(rest) {
                    wire::text_extends(rest, more);
                }
            }
        }
    }
}

/// An encoded request that is cut off before its body is refused.
pub proof fn cut_request_refused(request: RequestView, len: int)
    requires
        request.fits_wire(),
        params::names_distinct(request.path_params),
        0 <= len < request.head().len(),
    ensures
        RequestView::unwire(request.wire().take(len)) is None,
{
    let bytes = request.wire();
    request_round_trip(request);
    request_extends(bytes.take(len), bytes.skip(len));
    assert(bytes.take(len) + bytes.skip(len) =~= bytes);
}

/// A request that claims more headers than the wire format allows is refused, whatever
/// follows the claim.
pub proof fn crafted_headers_refused(
    method: Seq<char>,
    path: Seq<char>,
    count: u32,
    rest: Seq<u8>,
)
    requires
        wire::text_fits(method),
        wire::text_fits(path),
        count > wire::MAX_WIRE_ITEMS,
    ensures
        RequestView::unwire(
            wire::text_bytes(method) + (wire::text_bytes(path) + (wire::u32_bytes(count) + rest)),
        ) is None,
{
    let claim = wire::u32_bytes(count) + rest;
    wire::text_round_trip(method, wire::text_bytes(path) + claim);
    wire::text_round_trip(path, claim);
    wire::u32_round_trip(count, rest);
}

/// A request that claims more path parameters than the wire format allows is refused,
/// whatever follows the claim.
pub proof fn crafted_params_refused(
    method: Seq<char>,
    path: Seq<char>,
    headers: Seq<TextPair>,
    count: u32,
    rest: Seq<u8>,
)
    requires
        wire::text_fits(method),
        wire::text_fits(path),
        headers.len() <= wire::MAX_WIRE_ITEMS,
        wire::pairs_fit(headers),
        count > wire::MAX_WIRE_ITEMS,
    ensures
        RequestView::unwire(
            wire::text_bytes(method) + (wire::text_bytes(path) + (wire::list_bytes(headers) + (
            wire::u32_bytes(count) + rest))),
        ) is None,
{
    let claim = wire::u32_bytes(count) + rest;
    let list = wire::list_bytes(headers);
    wire::text_round_trip(method, wire::text_bytes(path) + (list + claim));
    wire::text_round_trip(path, list + claim);
    wire::list_round_trip(headers, claim);
    wire::u32_round_trip(count, rest);
}

/// A request is never decoded with more headers or path parameters than the wire format
/// allows, nor with two path parameters of one name.
pub proof fn decoded_request_bounded(bytes: Seq<u8>)
    ensures
        RequestView::unwire(bytes) matches Some(r) ==> {
            &&& r.headers.len() <= wire::MAX_WIRE_ITEMS
            &&& r.path_params.len() <= wire::MAX_WIRE_ITEMS
            &&& params::names_distinct(r.path_params)
        },
{
    if let Some((method, rest)) = wire::take_text(bytes) {
        if let Some((path, rest)) = wire::take_text(rest) {
            wire::lemma_list_len(rest);
            if let Some((headers, rest)) = wire::take_list(rest) {
                wire::lemma_list_len(rest);
                if let Some((pairs, rest)) = wire::take_list(rest) {
                    params::inserted_all_distinct(Seq::empty(), pairs);
                    params::inserted_all_len(Seq::empty(), pairs);
                }
            }
        }
    }
}

/// Names that lower to the same text find the same header.
pub proof fn header_ignores_case(headers: Seq<TextPair>, name: Seq<char>, other: Seq<char>)
    requires
        text::lowercase(name) == text::lowercase(other),
    ensures
        header_in(headers, name) == header_in(headers, other),
    decreases headers.len(),
{
    if headers.len() > 0 {
        header_ignores_case(headers.skip(1), name, other);
    }
}

/// ASCII names that differ in nothing but the case of letters find the same header.
pub proof fn header_ignores_ascii_case(headers: Seq<TextPair>, name: Seq<char>, other: Seq<char>)
    requires
        is_ascii_chars(name),
        is_ascii_chars(other),
        name.len() == other.len(),
        forall|i: int|
            0 <= i < name.len() ==> text::ascii_lower(#[trigger] name[i]) == text::ascii_lower(
                other[i],
            ),
    ensures
        header_in(headers, name) == header_in(headers, other),
{
    assert(text::lowercase(name) =~= text::lowercase(other));
    header_ignores_case(headers, name, other);
}

/// The header that counts is the first one with the name.
pub proof fn first_header_counts(headers: Seq<TextPair>, name: Seq<char>, i: int)
    requires
        0 <= i < headers.len(),
        text::lowercase(headers[i].0) == text::lowercase(name),
        forall|j: int|
            0 <= j < i ==> text::lowercase((#[trigger] headers[j]).0) != text::lowercase(name),
    ensures
        header_in(headers, name) == Some(headers[i].1),
    decreases headers.len(),
{
    if i > 0 {
        let tail = headers.skip(1);
        assert(text::lowercase(headers[0].0) != text::lowercase(name));
        assert forall|j: int| 0 <= j < i - 1 implies text::lowercase((#[trigger] tail[j]).0)
            != text::lowercase(name) by {
            assert(tail[j] == headers[j + 1]);
        }
        first_header_counts(tail, name, i - 1);
    }
}

/// A name that no header has, but for case, finds nothing.
pub proof fn missing_header(headers: Seq<TextPair>, name: Seq<char>)
    requires
        forall|j: int|
            0 <= j < headers.len() ==> text::lowercase((#[trigger] headers[j]).0)
                != text::lowercase(name),
    ensures
        header_in(headers, name) is None,
    decreases headers.len(),
{
    if headers.len() > 0 {
        let tail = headers.skip(1);
        assert(text::lowercase(headers[0].0) != text::lowercase(name));
        assert forall|j: int| 0 <= j < tail.len() implies text::lowercase((#[trigger] tail[j]).0)
            != text::lowercase(name) by {
            assert(tail[j] == headers[j + 1]);
        }
        missing_header(tail, name);
    }
}

/// The fields of a request are all that it holds.
pub proof fn request_view_holds(request: HttpRequest)
    ensures
        request@.method == request.method@,
        request@.path == request.path@,
        request@.headers == wire::pairs_view(request.headers@),
        request@.path_params == request.path_params@,
        request@.query == request.query@,
        request@.body == request.body@,
{
}

/// On the wire the method comes first, then the path, the headers, the path parameters and
/// the query, and the body up to the end.
pub proof fn request_layout(request: RequestView)
    ensures
        request.wire() == wire::text_bytes(request.method) + (wire::text_bytes(request.path) + (
        wire::list_bytes(request.headers) + (wire::list_bytes(request.path_params) + (
        wire::text_bytes(request.query) + request.body)))),
{
    let m = wire::text_bytes(request.method);
    let p = wire::text_bytes(request.path);
    let h = wire::list_bytes(request.headers);
    let pp = wire::list_bytes(request.path_params);
    let q = wire::text_bytes(request.query);
    let b = request.body;
    wire::lemma_add_assoc(m, p + (h + (pp + q)), b);
    wire::lemma_add_assoc(p, h + (pp + q), b);
    wire::lemma_add_assoc(h, pp + q, b);
    wire::lemma_add_assoc(pp, q, b);
}

/// A method, a path, up to 1024 headers and 1024 path parameters, and a query, of any
/// bytes, and a body are decoded into just those, each text as what its bytes are taken
/// for.
pub proof fn raw_request_decoded(
    method: Seq<u8>,
    path: Seq<u8>,
    raw_headers: Seq<wire::RawPair>,
    raw_params: Seq<wire::RawPair>,
    query: Seq<u8>,
    body: Seq<u8>,
    headers: Seq<TextPair>,
    pairs: Seq<TextPair>,
)
    requires
        method.len() < 0x1_0000_0000,
        path.len() < 0x1_0000_0000,
        query.len() < 0x1_0000_0000,
        raw_headers.len() <= 1024,
        raw_params.len() <= 1024,
        forall|i: int|
            0 <= i < raw_headers.len() ==> (#[trigger] raw_headers[i]).0.len() < 0x1_0000_0000
                && raw_headers[i].1.len() < 0x1_0000_0000,
        forall|i: int|
            0 <= i < raw_params.len() ==> (#[trigger] raw_params[i]).0.len() < 0x1_0000_0000
                && raw_params[i].1.len() < 0x1_0000_0000,
        headers.len() == raw_headers.len(),
        forall|i: int|
            0 <= i < headers.len() ==> (#[trigger] headers[i]).0 == text::lossy_text(
                raw_headers[i].0,
            ) && headers[i].1 == text::lossy_text(raw_headers[i].1),
        pairs.len() == raw_params.len(),
        forall|i: int|
            0 <= i < pairs.len() ==> (#[trigger] pairs[i]).0 == text::lossy_text(raw_params[i].0)
                && pairs[i].1 == text::lossy_text(raw_params[i].1),
    ensures
        RequestView::unwire(
            wire::block_bytes(method) + (wire::block_bytes(path) + (wire::count_bytes(
                raw_headers.len(),
            ) + wire::raw_pairs_bytes(raw_headers) + (wire::count_bytes(raw_params.len())
                + wire::raw_pairs_bytes(raw_params) + (wire::block_bytes(query) + body)))),
        ) == Some(
            RequestView {
                method: text::lossy_text(method),
                path: text::lossy_text(path),
                headers,
                path_params: params::inserted_all(Seq::empty(), pairs),
                query: text::lossy_text(query),
                body,
            },
        ),
{
    let b4 = wire::block_bytes(query) + body;
    let b3 = wire::count_bytes(raw_params.len()) + wire::raw_pairs_bytes(raw_params) + b4;
    let b2 = wire::count_bytes(raw_headers.len()) + wire::raw_pairs_bytes(raw_headers) + b3;
    wire::lossy_round_trip(method, wire::block_bytes(path) + b2);
    wire::lossy_round_trip(path, b2);
    wire::raw_list_read(raw_headers, headers, b3);
    wire::raw_list_read(raw_params, pairs, b4);
    wire::lossy_round_trip(query, body);
}

/// Only what has that form is decoded.
pub proof fn decoded_request_framed(bytes: Seq<u8>) -> (raw: (
    Seq<u8>,
    Seq<u8>,
    Seq<wire::RawPair>,
    Seq<wire::RawPair>,
    Seq<u8>,
))
    ensures
        RequestView::unwire(bytes) matches Some(r) ==> {
            let (method, path, headers, pairs, query) = raw;
            &&& method.len() < 0x1_0000_0000
            &&& path.len() < 0x1_0000_0000
            &&& query.len() < 0x1_0000_0000
            &&& headers.len() <= 1024
            &&& pairs.len() <= 1024
            &&& forall|i: int|
                0 <= i < headers.len() ==> (#[trigger] headers[i]).0.len() < 0x1_0000_0000
                    && headers[i].1.len() < 0x1_0000_0000
            &&& forall|i: int|
                0 <= i < pairs.len() ==> (#[trigger] pairs[i]).0.len() < 0x1_0000_0000
                    && pairs[i].1.len() < 0x1_0000_0000
            &&& bytes == wire::block_bytes(method) + (wire::block_bytes(path) + (wire::count_bytes(
                headers.len(),
            ) + wire::raw_pairs_bytes(headers) + (wire::count_bytes(pairs.len())
                + wire::raw_pairs_bytes(pairs) + (wire::block_bytes(query) + r.body))))
        },
{
    let after_method = if let Some((t, rest)) = wire::take_text(bytes) { rest } else { bytes };
    let after_path = if let Some((t, rest)) = wire::take_text(after_method) { rest } else { bytes };
    let after_headers = if let Some((l, rest)) = wire::take_list(after_path) {
        rest
    } else {
        bytes
    };
    let after_pairs = if let Some((l, rest)) = wire::take_list(after_headers) {
        rest
    } else {
        bytes
    };
    let method = wire::read_text_framed(bytes);
    let path = wire::read_text_framed(after_method);
    let headers = wire::read_list_framed(after_path);
    let pairs = wire::read_list_framed(after_headers);
    let query = wire::read_text_framed(after_pairs);
    (method, path, headers, pairs, query)
}

/// A request with up to 1024 headers and 1024 path parameters, no two of them with one
/// name, comes back from its bytes.
pub proof fn any_request_round_trip(request: RequestView)
    requires
        encode_utf8(request.method).len() < 0x1_0000_0000,
        encode_utf8(request.path).len() < 0x1_0000_0000,
        encode_utf8(request.query).len() < 0x1_0000_0000,
        request.headers.len() <= 1024,
        request.path_params.len() <= 1024,
        forall|i: int|
            0 <= i < request.headers.len() ==> encode_utf8((#[trigger] request.headers[i]).0).len()
                < 0x1_0000_0000 && encode_utf8(request.headers[i].1).len() < 0x1_0000_0000,
        forall|i: int|
            0 <= i < request.path_params.len() ==> encode_utf8(
                (#[trigger] request.path_params[i]).0,
            ).len() < 0x1_0000_0000 && encode_utf8(request.path_params[i].1).len() < 0x1_0000_0000,
        forall|i: int, j: int|
            0 <= i < j < request.path_params.len() ==> (#[trigger] request.path_params[i]).0 != (
            #[trigger] request.path_params[j]).0,
    ensures
        RequestView::unwire(request.wire()) == Some(request),
{
    assert(wire::pairs_fit(request.headers));
    assert(wire::pairs_fit(request.path_params));
    assert(params::names_distinct(request.path_params));
    request_round_trip(request);
}

} // verus!
