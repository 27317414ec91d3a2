//! The host's side of a route: path parameters, the request handed to the module, and
//! the response that it hands back.

use vstd::prelude::*;
use vstd::utf8::*;

use crate::headers;
use crate::headers::HeaderItem;
use crate::params;
use crate::params::PathParams;
use crate::request::RequestView;
use crate::response::{HttpResponse, ResponseView};
use crate::text;
use crate::wire;
use crate::wire::TextPair;

verus! {

/// The parameters that the parts of a route pattern capture from the parts of a path:
/// a part `:name` takes the part of the path that stands in its place.
pub open spec fn captured(pattern: Seq<Seq<char>>, path: Seq<Seq<char>>) -> Seq<TextPair>
    decreases pattern.len(),
{
    if pattern.len() == 0 || path.len() == 0 {
        Seq::empty()
    } else {
        let rest = captured(pattern.skip(1), path.skip(1));
        if pattern[0].len() > 0 && pattern[0][0] == ':' {
            seq![(pattern[0].skip(1), path[0])] + rest
        } else {
            rest
        }
    }
}

/// Extract path parameters from a route pattern like `/brick/:id` matched against `/brick/42`.
pub fn extract_path_params(pattern: &str, path: &str) -> (found: PathParams)
    ensures
        found@ == params::inserted_all(
            Seq::empty(),
            captured(text::pieces(pattern@, '/'), text::pieces(path@, '/')),
        ),
        params::names_distinct(found@),
        // A part `:name` gives `name` the part of the path in its place; the last one counts.
        forall|name: Seq<char>, i: int|
            #![trigger params::value_of(found@, name), text::pieces(path@, '/')[i]]
            0 <= i < text::pieces(pattern@, '/').len() && i < text::pieces(path@, '/').len()
                && text::pieces(pattern@, '/')[i] == seq![':'] + name && (forall|j: int|
                i < j < text::pieces(pattern@, '/').len() && j < text::pieces(path@, '/').len()
                    ==> #[trigger] text::pieces(pattern@, '/')[j] != seq![':'] + name)
                ==> params::value_of(found@, name) == Some(text::pieces(path@, '/')[i]),
        // There are no other parameters.
        forall|name: Seq<char>|
            (forall|j: int|
                0 <= j < text::pieces(pattern@, '/').len() && j < text::pieces(path@, '/').len()
                    ==> #[trigger] text::pieces(pattern@, '/')[j] != seq![':'] + name)
                ==> #[trigger] params::value_of(found@, name) is None,
{
    let pattern_parts = text::split(pattern, '/');
    let path_parts = text::split(path, '/');
    let ghost pats = text::texts(pattern_parts@);
    let ghost vals = text::texts(path_parts@);
    let mut found = PathParams::new();
    let mut i: usize = 0;
    assert(pats.skip(0) =~= pats);
    assert(vals.skip(0) =~= vals);
    while i < pattern_parts.len() && i < path_parts.len()
        invariant
            i <= pattern_parts@.len(),
            i <= path_parts@.len(),
            pats == text::texts(pattern_parts@),
            vals == text::texts(path_parts@),
            params::names_distinct(found@),
            params::inserted_all(found@, captured(pats.skip(i as int), vals.skip(i as int)))
                == params::inserted_all(Seq::empty(), captured(pats, vals)),
        decreases pattern_parts@.len() - i,
    {
        let pat = pattern_parts[i];
        let val = path_parts[i];
        proof {
            assert(pats.skip(i as int)[0] == pat@);
            assert(vals.skip(i as int)[0] == val@);
            assert(pats.skip(i as int).skip(1) =~= pats.skip(i + 1));
            assert(vals.skip(i as int).skip(1) =~= vals.skip(i + 1));
        }
        let len: usize = pat.unicode_len();
        if len > 0 && pat.get_char(0) == ':' {
            let name = pat.substring_char(1, len);
            proof {
                let rest = captured(pats.skip(i + 1), vals.skip(i + 1));
                let pair = (pat@.skip(1), val@);
                assert(name@ =~= pat@.skip(1));
                assert((seq![pair] + rest)[0] == pair);
                assert((seq![pair] + rest).skip(1) =~= rest);
            }
            found.insert(name.to_owned(), val.to_owned());
        }
        i += 1;
    }
    proof {
        lemma_captured_values(pats, vals);
    }
    found
}

/// Whether a part of a pattern captures a parameter called `name`.
pub open spec fn captures(part: Seq<char>, name: Seq<char>) -> bool {
    part == seq![':'] + name
}

/// A name that no part captures is not among the captured ones.
proof fn lemma_not_captured(pattern: Seq<Seq<char>>, path: Seq<Seq<char>>, name: Seq<char>)
    requires
        forall|j: int|
            0 <= j < pattern.len() && j < path.len() ==> !captures(#[trigger] pattern[j], name),
    ensures
        forall|k: int|
            0 <= k < captured(pattern, path).len() ==> (#[trigger] captured(pattern, path)[k]).0
                != name,
    decreases pattern.len(),
{
    if pattern.len() > 0 && path.len() > 0 {
        let (pats, vals) = (pattern.skip(1), path.skip(1));
        assert forall|j: int| 0 <= j < pats.len() && j < vals.len() implies !captures(
            #[trigger] pats[j],
            name,
        ) by {
            assert(pats[j] == pattern[j + 1]);
        }
        lemma_not_captured(pats, vals, name);
        let rest = captured(pats, vals);
        if pattern[0].len() > 0 && pattern[0][0] == ':' {
            let first = pattern[0].skip(1);
            assert(!captures(pattern[0], name));
            assert(pattern[0] =~= seq![':'] + first);
            assert forall|k: int| 0 <= k < captured(pattern, path).len() implies (
            #[trigger] captured(pattern, path)[k]).0 != name by {
                if k > 0 {
                    assert(captured(pattern, path)[k] == rest[k - 1]);
                }
            }
        }
    }
}

/// Where the pair that a part captures stands among the captured ones.
proof fn lemma_captured_at(
    pattern: Seq<Seq<char>>,
    path: Seq<Seq<char>>,
    name: Seq<char>,
    i: int,
) -> (k: int)
    requires
        0 <= i < pattern.len(),
        i < path.len(),
        captures(pattern[i], name),
        forall|j: int|
            i < j < pattern.len() && j < path.len() ==> !captures(#[trigger] pattern[j], name),
    ensures
        0 <= k < captured(pattern, path).len(),
        captured(pattern, path)[k] == (name, path[i]),
        forall|j: int|
            k < j < captured(pattern, path).len() ==> (#[trigger] captured(pattern, path)[j]).0
                != name,
    decreases pattern.len(),
{
    let (pats, vals) = (pattern.skip(1), path.skip(1));
    let rest = captured(pats, vals);
    assert forall|j: int| i - 1 < j < pats.len() && j < vals.len() implies !captures(
        #[trigger] pats[j],
        name,
    ) by {
        assert(pats[j] == pattern[j + 1]);
    }
    if i == 0 {
        lemma_not_captured(pats, vals, name);
        assert(pattern[0].skip(1) =~= name);
        0
    } else {
        let k = lemma_captured_at(pats, vals, name, i - 1);
        if pattern[0].len() > 0 && pattern[0][0] == ':' {
            let pair = (pattern[0].skip(1), path[0]);
            assert(captured(pattern, path) == seq![pair] + rest);
            assert forall|j: int| k + 1 < j < captured(pattern, path).len() implies (
            #[trigger] captured(pattern, path)[j]).0 != name by {
                assert(captured(pattern, path)[j] == rest[j - 1]);
            }
            k + 1
        } else {
            k
        }
    }
}

/// A part `:name` of a pattern gives `name` the part of the path in its place. Where a
/// pattern has the name more than once, the last part counts.
pub proof fn captured_param(
    pattern: Seq<Seq<char>>,
    path: Seq<Seq<char>>,
    name: Seq<char>,
    i: int,
)
    requires
        0 <= i < pattern.len(),
        i < path.len(),
        captures(pattern[i], name),
        forall|j: int|
            i < j < pattern.len() && j < path.len() ==> !captures(#[trigger] pattern[j], name),
    ensures
        params::value_of(params::inserted_all(Seq::empty(), captured(pattern, path)), name) == Some(
            path[i],
        ),
{
    let k = lemma_captured_at(pattern, path, name, i);
    params::last_insert_counts(Seq::empty(), captured(pattern, path), name, k);
}

/// A name that no part of the pattern captures has no value.
pub proof fn uncaptured_param(pattern: Seq<Seq<char>>, path: Seq<Seq<char>>, name: Seq<char>)
    requires
        forall|j: int|
            0 <= j < pattern.len() && j < path.len() ==> !captures(#[trigger] pattern[j], name),
    ensures
        params::value_of(
            params::inserted_all(Seq::empty(), captured(pattern, path)),
            name,
        ) is None,
{
    lemma_not_captured(pattern, path, name);
    params::other_inserts_keep(Seq::empty(), captured(pattern, path), name);
}

/// The parameters that parts of a pattern capture, by name.
pub proof fn lemma_captured_values(pattern: Seq<Seq<char>>, path: Seq<Seq<char>>)
    ensures
        forall|name: Seq<char>, i: int|
            #![trigger params::value_of(
                params::inserted_all(Seq::empty(), captured(pattern, path)),
                name,
            ), path[i]]
            0 <= i < pattern.len() && i < path.len() && pattern[i] == seq![':'] + name && (forall|
                j: int,
            |
                i < j < pattern.len() && j < path.len() ==> #[trigger] pattern[j] != seq![':']
                    + name) ==> params::value_of(
                params::inserted_all(Seq::empty(), captured(pattern, path)),
                name,
            ) == Some(path[i]),
        forall|name: Seq<char>|
            (forall|j: int|
                0 <= j < pattern.len() && j < path.len() ==> #[trigger] pattern[j] != seq![':']
                    + name) ==> #[trigger] params::value_of(
                params::inserted_all(Seq::empty(), captured(pattern, path)),
                name,
            ) is None,
{
    let all = params::inserted_all(Seq::empty(), captured(pattern, path));
    assert forall|name: Seq<char>, i: int|
        #![trigger params::value_of(all, name), path[i]]
        0 <= i < pattern.len() && i < path.len() && pattern[i] == seq![':'] + name && (forall|j: int|
            i < j < pattern.len() && j < path.len() ==> #[trigger] pattern[j] != seq![':']
                + name) implies params::value_of(all, name) == Some(path[i]) by {
        assert forall|j: int| i < j < pattern.len() && j < path.len() implies !captures(
            #[trigger] pattern[j],
            name,
        ) by {}
        captured_param(pattern, path, name, i);
    }
    assert forall|name: Seq<char>|
        (forall|j: int|
            0 <= j < pattern.len() && j < path.len() ==> #[trigger] pattern[j] != seq![':']
                + name) implies #[trigger] params::value_of(all, name) is None by {
        assert forall|j: int| 0 <= j < pattern.len() && j < path.len() implies !captures(
            #[trigger] pattern[j],
            name,
        ) by {}
        uncaptured_param(pattern, path, name);
    }
}

/// Headers one after another: `[u32 key_len] [key] [u32 val_len] [val]` each.
pub open spec fn items_bytes(items: Seq<HeaderItem>) -> Seq<u8>
    decreases items.len(),
{
    if items.len() == 0 {
        Seq::empty()
    } else {
        wire::text_bytes(items[0].0) + wire::block_bytes(items[0].1) + items_bytes(items.skip(1))
    }
}

/// The part of a request that stands before its body, with the headers as the host
/// holds them.
pub open spec fn request_head(
    method: Seq<char>,
    path: Seq<char>,
    items: Seq<HeaderItem>,
    path_params: Seq<TextPair>,
    query: Seq<char>,
) -> Seq<u8> {
    wire::text_bytes(method) + (wire::text_bytes(path) + ((wire::count_bytes(items.len())
        + items_bytes(items)) + (wire::list_bytes(path_params) + wire::text_bytes(query))))
}

/// The text of a query, which is empty where there is none.
pub open spec fn query_text(query: Option<&str>) -> Seq<char> {
    match query {
        Some(q) => q@,
        None => Seq::empty(),
    }
}

/// Appends a counted list of headers.
fn write_items(buf: &mut Vec<u8>, items: &Vec<(String, Vec<u8>)>)
    ensures
        final(buf)@ == old(buf)@ + (wire::count_bytes(items@.len()) + items_bytes(
            headers::items_view(items@),
        )),
{
    let ghost all = headers::items_view(items@);
    let ghost total = old(buf)@ + (wire::count_bytes(items@.len()) + items_bytes(all));
    wire::write_count(buf, items.len());
    let mut i: usize = 0;
    assert(all.skip(0) =~= all);
    assert(buf@ + items_bytes(all) =~= total);
    while i < items.len()
        invariant
            i <= items@.len(),
            all == headers::items_view(items@),
            buf@ + items_bytes(all.skip(i as int)) == total,
        decreases items@.len() - i,
    {
        let item = &items[i];
        let ghost before = buf@;
        wire::write_text(buf, item.0.as_str());
        wire::write_length_prefixed(buf, item.1.as_slice());
        proof {
            let rest = all.skip(i as int);
            assert(rest[0] == all[i as int]);
            assert(rest.skip(1) =~= all.skip(i + 1));
            assert(buf@ + items_bytes(all.skip(i + 1)) =~= before + items_bytes(rest));
        }
        i += 1;
    }
    assert(buf@ + items_bytes(all.skip(i as int)) =~= buf@);
}

/// Encode an HTTP request, its headers listed one by one, into the wire format expected
/// by the wasm module.
pub fn encode_request_items(
    method: &str,
    path: &str,
    items: &Vec<(String, Vec<u8>)>,
    path_params: &PathParams,
    query: Option<&str>,
    body: &[u8],
) -> (bytes: Vec<u8>)
    ensures
        bytes@ == request_head(
            method@,
            path@,
            headers::items_view(items@),
            path_params@,
            query_text(query),
        ) + body@,
        // The query is the whole of what was given, or empty.
        bytes@ == request_head(
            method@,
            path@,
            headers::items_view(items@),
            path_params@,
            match query {
                Some(q) => q@,
                None => Seq::empty(),
            },
        ) + body@,
{
    let mut buf: Vec<u8> = Vec::new();
    wire::write_text(&mut buf, method);
    wire::write_text(&mut buf, path);
    write_items(&mut buf, items);
    wire::write_pairs(&mut buf, path_params.entries());
    match query {
        Some(q) => wire::write_text(&mut buf, q),
        None => {
            let none = String::new();
            assert(none@ =~= Seq::empty());
            wire::write_text(&mut buf, none.as_str());
        },
    }
    wire::write_bytes(&mut buf, body);
    assert(buf@ =~= request_head(
        method@,
        path@,
        headers::items_view(items@),
        path_params@,
        query_text(query),
    ) + body@);
    buf
}

/// Encode the HTTP request into the wire format expected by the wasm module.
///
/// Wire format (all u32/u16 are little-endian):
/// ```text
/// [u32 method_len] [method] [u32 path_len] [path]
/// [u32 num_headers] ([u32 key_len] [key] [u32 val_len] [val])*
/// [u32 num_path_params] ([u32 key_len] [key] [u32 val_len] [val])*
/// [u32 query_len] [query]
/// [body]
/// ```
///
/// The headers stand in the order in which the map is walked.
pub fn encode_request(
    method: &str,
    path: &str,
    headers: &axum::http::HeaderMap<axum::http::HeaderValue>,
    path_params: &PathParams,
    query: Option<&str>,
    body: &[u8],
) -> (bytes: Vec<u8>)
    ensures
        exists|items: Seq<HeaderItem>|
            headers::lists(items, headers::header_contents(*headers)) && bytes@
                == #[trigger] request_head(
                method@,
                path@,
                items,
                path_params@,
                query_text(query),
            ) + body@,
        // The query is the whole of what was given, or empty.
        exists|items: Seq<HeaderItem>, text: Seq<char>|
            headers::lists(items, headers::header_contents(*headers)) && (match query {
                Some(q) => text == q@,
                None => text.len() == 0,
            }) && bytes@ == #[trigger] request_head(method@, path@, items, path_params@, text)
                + body@,
{
    let items = headers::header_items(headers);
    encode_request_items(method, path, &items, path_params, query, body)
}

/// A response as the host sends it.
pub struct RouteResponse {
    pub status: u16,
    pub headers: axum::http::HeaderMap<axum::http::HeaderValue>,
    pub body: Vec<u8>,
}

/// The status of a response: the code that was asked for, or 500 where it is none.
pub open spec fn sent_status(code: u16) -> u16 {
    if 100 <= code <= 999 {
        code
    } else {
        500
    }
}

/// The headers once each of the pairs has been put in turn. A pair whose name or value
/// cannot stand in a header is left out.
pub open spec fn sent_headers(
    contents: Map<Seq<char>, Seq<Seq<u8>>>,
    pairs: Seq<TextPair>,
) -> Map<Seq<char>, Seq<Seq<u8>>>
    decreases pairs.len(),
{
    if pairs.len() == 0 {
        contents
    } else {
        let before = sent_headers(contents, pairs.drop_last());
        let (name, value) = pairs.last();
        if headers::is_header_name(name) && headers::is_header_value(value) {
            before.insert(headers::normal_name(name), seq![encode_utf8(value)])
        } else {
            before
        }
    }
}

/// Puts the headers of a module's response into the header map.
fn fill_headers(
    map: &mut axum::http::HeaderMap<axum::http::HeaderValue>,
    pairs: &Vec<(String, String)>,
)
    requires
        headers::header_contents(*old(map)).dom().finite(),
        headers::header_contents(*old(map)).dom().len() + pairs@.len() < headers::SAFE_HEADER_NAMES,
    ensures
        headers::header_contents(*final(map)) == sent_headers(
            headers::header_contents(*old(map)),
            wire::pairs_view(pairs@),
        ),
{
    let ghost all = wire::pairs_view(pairs@);
    let ghost start = headers::header_contents(*old(map));
    let mut i: usize = 0;
    while i < pairs.len()
        invariant
            i <= pairs@.len(),
            all == wire::pairs_view(pairs@),
            start.dom().len() + pairs@.len() < headers::SAFE_HEADER_NAMES,
            headers::header_contents(*map) == sent_headers(start, all.take(i as int)),
            headers::header_contents(*map).dom().finite(),
            headers::header_contents(*map).dom().len() <= start.dom().len() + i,
        decreases pairs@.len() - i,
    {
        let pair = &pairs[i];
        let ghost contents = headers::header_contents(*map);
        proof {
            let upto = all.take(i + 1);
            assert(upto.drop_last() =~= all.take(i as int));
            assert(upto.last() == (pair.0@, pair.1@));
        }
        if headers::header_name_accepted(pair.0.as_str()) && headers::header_value_accepted(
            pair.1.as_str(),
        ) {
            headers::insert_header(map, pair.0.as_str(), pair.1.as_str());
            proof {
                let name = headers::normal_name(pair.0@);
                let value = seq![encode_utf8(pair.1@)];
                assert(contents.insert(name, value).dom() =~= contents.dom().insert(name));
            }
        }
        i += 1;
    }
    assert(all.take(i as int) =~= all);
}

/// Decode the wire-format response from the wasm module into the response to send. A
/// malformed response is answered with 500.
pub fn decode_route_response(bytes: &[u8]) -> (response: Result<RouteResponse, u16>)
    ensures
        match (response, ResponseView::unwire(bytes@)) {
            (Ok(sent), Some(decoded)) => {
                &&& sent.status == sent_status(decoded.status)
                &&& 100 <= decoded.status <= 999 ==> sent.status == decoded.status
                &&& !(100 <= decoded.status <= 999) ==> sent.status == 500
                &&& headers::header_contents(sent.headers) == sent_headers(
                    headers::octet_stream_contents(),
                    decoded.headers,
                )
                &&& sent.body@ == decoded.body
                &&& wire::list_holds_utf8(bytes@.skip(2)) || !wire::pairs_clean(decoded.headers)
            },
            (Err(status), None) => status == 500,
            _ => false,
        },
{
    let decoded = match HttpResponse::decode(bytes) {
        Some(decoded) => decoded,
        None => return Err(500),
    };
    let status: u16 = if headers::status_accepted(decoded.status) {
        decoded.status
    } else {
        500
    };
    let mut map = headers::octet_stream_headers();
    proof {
        wire::lemma_list_len(bytes@.skip(2));
        assert(headers::octet_stream_contents().dom() =~= Set::<Seq<char>>::empty().insert(
            "content-type"@,
        ));
    }
    fill_headers(&mut map, &decoded.headers);
    Ok(RouteResponse { status, headers: map, body: decoded.body })
}

/// Whether every header fits behind its length prefixes.
pub open spec fn items_fit(items: Seq<HeaderItem>) -> bool {
    forall|i: int| #![trigger items[i]]
        0 <= i < items.len() ==> wire::text_fits(items[i].0) && items[i].1.len() < 0x1_0000_0000
}

/// The headers as the module reads them: the bytes of each value taken for UTF-8.
pub open spec fn items_text(items: Seq<HeaderItem>) -> Seq<TextPair> {
    Seq::new(items.len(), |i: int| (items[i].0, text::lossy_text(items[i].1)))
}

/// A run of headers is read back in order.
proof fn lemma_items_round_trip(items: Seq<HeaderItem>, rest: Seq<u8>)
    requires
        items_fit(items),
    ensures
        wire::take_pairs(items_bytes(items) + rest, items.len()) == Some((items_text(items), rest)),
    decreases items.len(),
{
    if items.len() == 0 {
        assert(items_text(items) =~= Seq::empty());
        assert(items_bytes(items) + rest =~= rest);
    } else {
        let tail = items.skip(1);
        assert forall|i: int| #![trigger tail[i]] 0 <= i < tail.len() implies wire::text_fits(
            tail[i].0,
        ) && tail[i].1.len() < 0x1_0000_0000 by {
            assert(tail[i] == items[i + 1]);
        }
        let n = wire::text_bytes(items[0].0);
        let v = wire::block_bytes(items[0].1);
        let t = items_bytes(tail);
        lemma_items_round_trip(tail, rest);
        wire::lossy_round_trip(items[0].1, t + rest);
        wire::text_round_trip(items[0].0, v + (t + rest));
        wire::lemma_add_assoc(n + v, t, rest);
        wire::lemma_add_assoc(n, v, t + rest);
        assert(items_text(items) =~= seq![(items[0].0, text::lossy_text(items[0].1))] + items_text(
            tail,
        ));
    }
}

/// The module decodes from the host's bytes the request that the host encoded: the same
/// method, path, path parameters, query and body, and the same headers in the order in
/// which the host wrote them, their values taken for UTF-8.
pub proof fn host_request_round_trip(
    method: Seq<char>,
    path: Seq<char>,
    items: Seq<HeaderItem>,
    path_params: Seq<TextPair>,
    query: Seq<char>,
    body: Seq<u8>,
)
    requires
        wire::text_fits(method),
        wire::text_fits(path),
        items.len() <= wire::MAX_WIRE_ITEMS,
        items_fit(items),
        path_params.len() <= wire::MAX_WIRE_ITEMS,
        wire::pairs_fit(path_params),
        params::names_distinct(path_params),
        wire::text_fits(query),
    ensures
        RequestView::unwire(request_head(method, path, items, path_params, query) + body) == Some(
            RequestView { method, path, headers: items_text(items), path_params, query, body },
        ),
{
    let m = wire::text_bytes(method);
    let p = wire::text_bytes(path);
    let c = wire::count_bytes(items.len());
    let i = items_bytes(items);
    let pp = wire::list_bytes(path_params);
    let q = wire::text_bytes(query);
    wire::lemma_add_assoc(m, p + ((c + i) + (pp + q)), body);
    wire::lemma_add_assoc(p, (c + i) + (pp + q), body);
    wire::lemma_add_assoc(c + i, pp + q, body);
    wire::lemma_add_assoc(pp, q, body);
    wire::text_round_trip(method, p + ((c + i) + (pp + (q + body))));
    wire::text_round_trip(path, (c + i) + (pp + (q + body)));
    wire::lemma_count_round_trip(items.len(), i, pp + (q + body));
    lemma_items_round_trip(items, pp + (q + body));
    wire::list_round_trip(path_params, q + body);
    wire::text_round_trip(query, body);
    assert(Seq::<TextPair>::empty() + path_params =~= path_params);
    params::inserted_all_appends(Seq::empty(), path_params);
}

/// Whether a pair can stand as the header `name`.
pub open spec fn sets_header(pair: TextPair, name: Seq<char>) -> bool {
    &&& headers::is_header_name(pair.0)
    &&& headers::is_header_value(pair.1)
    &&& headers::normal_name(pair.0) == name
}

/// Of the pairs that set a header, in whatever case they name it, the last one counts,
/// and its value is the only one.
pub proof fn last_header_counts(
    contents: Map<Seq<char>, Seq<Seq<u8>>>,
    pairs: Seq<TextPair>,
    name: Seq<char>,
    i: int,
)
    requires
        0 <= i < pairs.len(),
        sets_header(pairs[i], name),
        forall|j: int| i < j < pairs.len() ==> !sets_header(#[trigger] pairs[j], name),
    ensures
        sent_headers(contents, pairs).contains_key(name),
        sent_headers(contents, pairs)[name] == seq![encode_utf8(pairs[i].1)],
    decreases pairs.len(),
{
    if i < pairs.len() - 1 {
        let front = pairs.drop_last();
        assert(!sets_header(pairs[pairs.len() - 1], name));
        assert forall|j: int| i < j < front.len() implies !sets_header(
            #[trigger] front[j],
            name,
        ) by {
            assert(front[j] == pairs[j]);
        }
        last_header_counts(contents, front, name, i);
    }
}

/// A header that no pair sets stays as it was: `content-type`, unless the module sets
/// it, says that the body is raw bytes, and there is no header that the module did not
/// set.
pub proof fn other_headers_stay(
    contents: Map<Seq<char>, Seq<Seq<u8>>>,
    pairs: Seq<TextPair>,
    name: Seq<char>,
)
    requires
        forall|j: int| 0 <= j < pairs.len() ==> !sets_header(#[trigger] pairs[j], name),
    ensures
        sent_headers(contents, pairs).contains_key(name) == contents.contains_key(name),
        contents.contains_key(name) ==> sent_headers(contents, pairs)[name] == contents[name],
    decreases pairs.len(),
{
    if pairs.len() > 0 {
        let front = pairs.drop_last();
        assert(!sets_header(pairs[pairs.len() - 1], name));
        assert forall|j: int| 0 <= j < front.len() implies !sets_header(
            #[trigger] front[j],
            name,
        ) by {
            assert(front[j] == pairs[j]);
        }
        other_headers_stay(contents, front, name);
    }
}

/// A code that is a status is sent as it is, and any other as 500.
pub proof fn status_sent(code: u16)
    ensures
        100 <= code <= 999 ==> sent_status(code) == code,
        code < 100 || code > 999 ==> sent_status(code) == 500,
{
}

/// A part `:name` of a pattern gives `name` the part of the path in its place, unless a
/// later part does so too. Both are what stands between one `/` and the next.
pub proof fn path_param_found(pattern: Seq<char>, path: Seq<char>, name: Seq<char>, i: int)
    requires
        0 <= i < text::pieces(pattern, '/').len(),
        i < text::pieces(path, '/').len(),
        text::pieces(pattern, '/')[i] == seq![':'] + name,
        forall|j: int|
            i < j < text::pieces(pattern, '/').len() && j < text::pieces(path, '/').len()
                ==> #[trigger] text::pieces(pattern, '/')[j] != seq![':'] + name,
    ensures
        params::value_of(
            params::inserted_all(
                Seq::empty(),
                captured(text::pieces(pattern, '/'), text::pieces(path, '/')),
            ),
            name,
        ) == Some(text::pieces(path, '/')[i]),
{
    lemma_captured_values(text::pieces(pattern, '/'), text::pieces(path, '/'));
}

/// A name that no part of the pattern captures has no value.
pub proof fn path_param_missing(pattern: Seq<char>, path: Seq<char>, name: Seq<char>)
    requires
        forall|j: int|
            0 <= j < text::pieces(pattern, '/').len() && j < text::pieces(path, '/').len()
                ==> #[trigger] text::pieces(pattern, '/')[j] != seq![':'] + name,
    ensures
        params::value_of(
            params::inserted_all(
                Seq::empty(),
                captured(text::pieces(pattern, '/'), text::pieces(path, '/')),
            ),
            name,
        ) is None,
{
    lemma_captured_values(text::pieces(pattern, '/'), text::pieces(path, '/'));
}

/// The host writes headers as a block for each name and each value, in order.
pub proof fn items_layout(items: Seq<HeaderItem>, raw: Seq<wire::RawPair>)
    requires
        raw.len() == items.len(),
        forall|i: int|
            0 <= i < raw.len() ==> (#[trigger] raw[i]).0 == encode_utf8(items[i].0) && raw[i].1
                == items[i].1,
    ensures
        items_bytes(items) == wire::raw_pairs_bytes(raw),
    decreases items.len(),
{
    if items.len() > 0 {
        let (tail, raw_tail) = (items.skip(1), raw.skip(1));
        assert forall|i: int| 0 <= i < raw_tail.len() implies (#[trigger] raw_tail[i]).0
            == encode_utf8(tail[i].0) && raw_tail[i].1 == tail[i].1 by {
            assert(raw_tail[i] == raw[i + 1]);
        }
        items_layout(tail, raw_tail);
        reveal(wire::text_bytes);
        assert(raw[0].0 == encode_utf8(items[0].0));
    }
}

/// The host writes the method first, then the path, the headers, the path parameters and
/// the query.
pub proof fn host_request_layout(
    method: Seq<char>,
    path: Seq<char>,
    items: Seq<HeaderItem>,
    path_params: Seq<TextPair>,
    query: Seq<char>,
)
    ensures
        request_head(method, path, items, path_params, query) == wire::text_bytes(method) + (
        wire::text_bytes(path) + (wire::count_bytes(items.len()) + items_bytes(items) + (
        wire::list_bytes(path_params) + wire::text_bytes(query)))),
{
}

/// The module decodes what the host encoded, for every query: the method, the path, the
/// path parameters, the query and the body, and the headers in order, each value as the
/// text that its bytes are taken for.
pub proof fn host_request_decoded(
    method: Seq<char>,
    path: Seq<char>,
    items: Seq<HeaderItem>,
    path_params: Seq<TextPair>,
    query: Seq<char>,
    body: Seq<u8>,
)
    requires
        encode_utf8(method).len() < 0x1_0000_0000,
        encode_utf8(path).len() < 0x1_0000_0000,
        encode_utf8(query).len() < 0x1_0000_0000,
        items.len() <= 1024,
        forall|i: int|
            0 <= i < items.len() ==> encode_utf8((#[trigger] items[i]).0).len() < 0x1_0000_0000
                && items[i].1.len() < 0x1_0000_0000,
        path_params.len() <= 1024,
        forall|i: int|
            0 <= i < path_params.len() ==> encode_utf8((#[trigger] path_params[i]).0).len()
                < 0x1_0000_0000 && encode_utf8(path_params[i].1).len() < 0x1_0000_0000,
        forall|i: int, j: int|
            0 <= i < j < path_params.len() ==> (#[trigger] path_params[i]).0 != (
            #[trigger] path_params[j]).0,
    ensures
        RequestView::unwire(
            request_head(method, path, items, path_params, query) + body,
        ) matches Some(seen) && {
            &&& seen.method == method
            &&& seen.path == path
            &&& seen.path_params == path_params
            &&& seen.query == query
            &&& seen.body == body
            &&& seen.headers.len() == items.len()
            &&& forall|i: int|
                0 <= i < items.len() ==> (#[trigger] seen.headers[i]).0 == items[i].0
                    && seen.headers[i].1 == text::lossy_text(items[i].1)
        },
{
    assert(wire::pairs_fit(path_params));
    assert(items_fit(items));
    assert(params::names_distinct(path_params));
    host_request_round_trip(method, path, items, path_params, query, body);
}

/// The module refuses a request with more than 1024 path parameters.
pub proof fn many_params_refused(
    method: Seq<char>,
    path: Seq<char>,
    items: Seq<HeaderItem>,
    path_params: Seq<TextPair>,
    query: Seq<char>,
    body: Seq<u8>,
)
    requires
        encode_utf8(method).len() < 0x1_0000_0000,
        encode_utf8(path).len() < 0x1_0000_0000,
        items.len() <= 1024,
        forall|i: int|
            0 <= i < items.len() ==> encode_utf8((#[trigger] items[i]).0).len() < 0x1_0000_0000
                && items[i].1.len() < 0x1_0000_0000,
        1024 < path_params.len() < 0x1_0000_0000,
    ensures
        RequestView::unwire(
            request_head(method, path, items, path_params, query) + body,
        ) is None,
{
    let m = wire::text_bytes(method);
    let p = wire::text_bytes(path);
    let c = wire::count_bytes(items.len());
    let i = items_bytes(items);
    let pp = wire::list_bytes(path_params);
    let q = wire::text_bytes(query);
    assert(items_fit(items));
    wire::lemma_add_assoc(m, p + ((c + i) + (pp + q)), body);
    wire::lemma_add_assoc(p, (c + i) + (pp + q), body);
    wire::lemma_add_assoc(c + i, pp + q, body);
    wire::lemma_add_assoc(pp, q, body);
    wire::text_round_trip(method, p + ((c + i) + (pp + (q + body))));
    wire::text_round_trip(path, (c + i) + (pp + (q + body)));
    wire::lemma_count_round_trip(items.len(), i, pp + (q + body));
    lemma_items_round_trip(items, pp + (q + body));
    wire::lemma_count_round_trip(path_params.len(), wire::pairs_bytes(path_params), q + body);
}

/// A header that can be sent is sent, and takes the place of an earlier one of its name, in
/// whatever case; a later one takes its place.
pub proof fn good_header_sent(
    contents: Map<Seq<char>, Seq<Seq<u8>>>,
    pairs: Seq<TextPair>,
    i: int,
)
    requires
        0 <= i < pairs.len(),
        headers::is_header_name(pairs[i].0),
        headers::is_header_value(pairs[i].1),
        forall|j: int|
            i < j < pairs.len() ==> !headers::is_header_name((#[trigger] pairs[j]).0)
                || !headers::is_header_value(pairs[j].1) || headers::normal_name(pairs[j].0)
                != headers::normal_name(pairs[i].0),
    ensures
        sent_headers(contents, pairs).contains_key(headers::normal_name(pairs[i].0)),
        sent_headers(contents, pairs)[headers::normal_name(pairs[i].0)] == seq![
            encode_utf8(pairs[i].1),
        ],
{
    let name = headers::normal_name(pairs[i].0);
    assert forall|j: int| i < j < pairs.len() implies !sets_header(#[trigger] pairs[j], name) by {}
    last_header_counts(contents, pairs, name, i);
}

/// A name that no header that can be sent has keeps its values: nothing is sent that the
/// module did not set, but for what stood there before.
pub proof fn unset_header_kept(
    contents: Map<Seq<char>, Seq<Seq<u8>>>,
    pairs: Seq<TextPair>,
    name: Seq<char>,
)
    requires
        forall|j: int|
            0 <= j < pairs.len() ==> !headers::is_header_name((#[trigger] pairs[j]).0)
                || !headers::is_header_value(pairs[j].1) || headers::normal_name(pairs[j].0) != name,
    ensures
        sent_headers(contents, pairs).contains_key(name) <==> contents.contains_key(name),
        contents.contains_key(name) ==> sent_headers(contents, pairs)[name] == contents[name],
{
    assert forall|j: int| 0 <= j < pairs.len() implies !sets_header(#[trigger] pairs[j], name) by {}
    other_headers_stay(contents, pairs, name);
}

/// What a pattern captures is no longer than the parts of the pattern and the path.
pub proof fn lemma_captured_fit(pattern: Seq<Seq<char>>, path: Seq<Seq<char>>)
    requires
        forall|i: int| 0 <= i < pattern.len() ==> wire::text_fits(#[trigger] pattern[i]),
        forall|i: int| 0 <= i < path.len() ==> wire::text_fits(#[trigger] path[i]),
    ensures
        wire::pairs_fit(captured(pattern, path)),
        captured(pattern, path).len() <= pattern.len(),
        captured(pattern, path).len() <= path.len(),
    decreases pattern.len(),
{
    if pattern.len() > 0 && path.len() > 0 {
        let (pats, vals) = (pattern.skip(1), path.skip(1));
        assert forall|i: int| 0 <= i < pats.len() implies wire::text_fits(#[trigger] pats[i]) by {
            assert(pats[i] == pattern[i + 1]);
        }
        assert forall|i: int| 0 <= i < vals.len() implies wire::text_fits(#[trigger] vals[i]) by {
            assert(vals[i] == path[i + 1]);
        }
        lemma_captured_fit(pats, vals);
        let rest = captured(pats, vals);
        let all = captured(pattern, path);
        if pattern[0].len() > 0 && pattern[0][0] == ':' {
            let name = pattern[0].skip(1);
            assert(pattern[0] =~= seq![':'] + name);
            text::utf8_of_concat(seq![':'], name);
            assert(wire::text_fits(pattern[0]));
            assert(wire::text_fits(path[0]));
            assert forall|i: int| #![trigger all[i]] 0 <= i < all.len() implies wire::text_fits(
                all[i].0,
            ) && wire::text_fits(all[i].1) by {
                if i > 0 {
                    assert(all[i] == rest[i - 1]);
                }
            }
        }
    }
}

/// A pattern captures no more parameters than it has characters.
pub proof fn lemma_captured_count(pattern: Seq<char>, path: Seq<Seq<char>>)
    ensures
        captured(text::pieces(pattern, '/'), path).len() <= pattern.len(),
    decreases pattern.len(),
{
    text::halves_cut(pattern, '/');
    match text::halves(pattern, '/') {
        Some((before, behind)) => {
            text::first_piece(before, behind, '/');
            let pats = text::pieces(pattern, '/');
            assert(pats.skip(1) =~= text::pieces(behind, '/'));
            lemma_captured_count(behind, path.skip(1));
        },
        None => {
            text::whole_piece(pattern, '/');
            let pats = text::pieces(pattern, '/');
            assert(pats.skip(1) =~= Seq::empty());
            assert(captured(pats.skip(1), path.skip(1)) == Seq::<TextPair>::empty());
        },
    }
}

} // verus!
