//! The header map of an HTTP message, as the `http` crate (seen through `axum`) keeps it.

use vstd::prelude::*;
use vstd::utf8::*;

use crate::text;

verus! {

/// A header map.
#[verifier::external_type_specification]
#[verifier::external_body]
#[verifier::reject_recursive_types(T)]
pub struct ExHeaderMap<T>(axum::http::HeaderMap<T>);

/// A header value.
#[verifier::external_type_specification]
#[verifier::external_body]
pub struct ExHeaderValue(axum::http::HeaderValue);

/// The values of each header, by its name in lower case.
pub uninterp spec fn header_contents(
    map: axum::http::HeaderMap<axum::http::HeaderValue>,
) -> Map<Seq<char>, Seq<Seq<u8>>>;

/// With fewer names than this a map can always take one more: it doubles its table
/// once a fifth of the slots is used or later, and the table may have `2^15` slots.
pub const SAFE_HEADER_NAMES: usize = 6553;

/// A header name and one of its values.
pub type HeaderItem = (Seq<char>, Seq<u8>);

/// The names and values, in order.
pub open spec fn items_view(items: Seq<(String, Vec<u8>)>) -> Seq<HeaderItem> {
    Seq::new(items.len(), |i: int| (items[i].0@, items[i].1@))
}

/// The values of the items that have this name, in order.
pub open spec fn values_under(items: Seq<HeaderItem>, name: Seq<char>) -> Seq<Seq<u8>> {
    items.filter(|item: HeaderItem| item.0 == name).map_values(|item: HeaderItem| item.1)
}

/// Whether the items are all the headers of a map: each name with each of its values,
/// the values of one name in their order.
pub open spec fn lists(items: Seq<HeaderItem>, contents: Map<Seq<char>, Seq<Seq<u8>>>) -> bool {
    &&& forall|i: int| 0 <= i < items.len() ==> contents.contains_key((#[trigger] items[i]).0)
    &&& forall|name: Seq<char>|
        contents.contains_key(name) ==> #[trigger] values_under(items, name) == contents[name]
}

/// Whether a byte may stand in a header name.
pub open spec fn is_name_byte(b: u8) -> bool {
    ||| 0x30 <= b <= 0x39  // digits
    ||| 0x41 <= b <= 0x5A  // upper case letters
    ||| 0x61 <= b <= 0x7A  // lower case letters
    ||| b == 0x21  // !
    ||| 0x23 <= b <= 0x27  // # $ % & '
    ||| b == 0x2A  // *
    ||| b == 0x2B  // +
    ||| b == 0x2D  // -
    ||| b == 0x2E  // .
    ||| b == 0x5E  // ^
    ||| b == 0x5F  // _
    ||| b == 0x60  // `
    ||| b == 0x7C  // |
    ||| b == 0x7E  // ~
}

/// Whether `name` can be a header name.
pub open spec fn is_header_name(name: Seq<char>) -> bool {
    let bytes = encode_utf8(name);
    &&& 1 <= bytes.len() <= 0xFFFF
    &&& forall|i: int| 0 <= i < bytes.len() ==> is_name_byte(#[trigger] bytes[i])
}

/// Whether a byte may stand in a header value.
pub open spec fn is_value_byte(b: u8) -> bool {
    b == 0x09 || (b >= 0x20 && b != 0x7F)
}

/// Whether `value` can be a header value.
pub open spec fn is_header_value(value: Seq<char>) -> bool {
    let bytes = encode_utf8(value);
    forall|i: int| 0 <= i < bytes.len() ==> is_value_byte(#[trigger] bytes[i])
}

/// `name` with its ASCII letters in lower case.
pub open spec fn normal_name(name: Seq<char>) -> Seq<char> {
    name.map_values(|c: char| text::ascii_lower(c))
}

/// Checks a header name with `HeaderName::from_bytes`.
///
/// Trusted: a name is accepted just where it has 1 to 65535 bytes, all of them token
/// characters.
#[verifier::external_body]
pub(crate) fn header_name_accepted(name: &str) -> (accepted: bool)
    ensures
        accepted == is_header_name(name@),
{
    axum::http::HeaderName::from_bytes(name.as_bytes()).is_ok()
}

/// Checks a header value with `HeaderValue::from_str`.
///
/// Trusted: a value is accepted just where none of its bytes is a control character
/// other than a tab. Bytes beyond ASCII are accepted.
#[verifier::external_body]
pub(crate) fn header_value_accepted(value: &str) -> (accepted: bool)
    ensures
        accepted == is_header_value(value@),
{
    axum::http::HeaderValue::from_str(value).is_ok()
}

/// Puts a header into a map with `HeaderMap::insert`.
///
/// Trusted: the value takes the place of all values that the map has under the name,
/// in whatever case it is given; the other headers stay. The map must be small enough
/// to grow by one.
#[verifier::external_body]
pub(crate) fn insert_header(
    map: &mut axum::http::HeaderMap<axum::http::HeaderValue>,
    name: &str,
    value: &str,
)
    requires
        is_header_name(name@),
        is_header_value(value@),
        header_contents(*old(map)).dom().finite(),
        header_contents(*old(map)).dom().len() < SAFE_HEADER_NAMES,
    ensures
        header_contents(*final(map)) == header_contents(*old(map)).insert(
            normal_name(name@),
            seq![encode_utf8(value@)],
        ),
{
    let name = axum::http::HeaderName::from_bytes(name.as_bytes()).unwrap();
    let value = axum::http::HeaderValue::from_str(value).unwrap();
    map.insert(name, value);
}

/// The headers that `IntoResponse` of `axum` gives a response whose body is a vector of
/// bytes.
///
/// Trusted: there is one, `content-type`, with the value `application/octet-stream`.
#[verifier::external_body]
pub(crate) fn octet_stream_headers() -> (map: axum::http::HeaderMap<axum::http::HeaderValue>)
    ensures
        header_contents(map) == octet_stream_contents(),
{
    axum::response::IntoResponse::into_response(Vec::<u8>::new()).into_parts().0.headers
}

/// One header, which marks the body as raw bytes.
pub open spec fn octet_stream_contents() -> Map<Seq<char>, Seq<Seq<u8>>> {
    Map::empty().insert("content-type"@, seq![encode_utf8("application/octet-stream"@)])
}

/// Walks a map with `HeaderMap::iter`.
///
/// Trusted: the walk gives every name once for each of its values, and the values of
/// one name in their order. The order of the names is left unsaid.
#[verifier::external_body]
pub(crate) fn header_items(
    map: &axum::http::HeaderMap<axum::http::HeaderValue>,
) -> (items: Vec<(String, Vec<u8>)>)
    ensures
        lists(items_view(items@), header_contents(*map)),
{
    map.iter().map(|(name, value)| (name.as_str().to_owned(), value.as_bytes().to_vec())).collect()
}

/// Checks a status code with `StatusCode::from_u16`.
///
/// Trusted: the codes from 100 to 999 are accepted.
#[verifier::external_body]
pub(crate) fn status_accepted(code: u16) -> (accepted: bool)
    ensures
        accepted == (100 <= code <= 999),
{
    axum::http::StatusCode::from_u16(code).is_ok()
}

/// The name and the value of each item are taken for what they hold, in order.
pub proof fn items_view_holds(items: Seq<(String, Vec<u8>)>)
    ensures
        items_view(items).len() == items.len(),
        forall|i: int|
            0 <= i < items.len() ==> (#[trigger] items_view(items)[i]).0 == items[i].0@
                && items_view(items)[i].1 == items[i].1@,
{
}

/// The values under a name are those of the items that have it, and keep their order.
pub proof fn values_under_one_more(items: Seq<HeaderItem>, item: HeaderItem, name: Seq<char>)
    ensures
        values_under(Seq::empty(), name) == Seq::<Seq<u8>>::empty(),
        values_under(items.push(item), name) == if item.0 == name {
            values_under(items, name).push(item.1)
        } else {
            values_under(items, name)
        },
{
    reveal(Seq::filter);
    let all = items.push(item);
    assert(all.drop_last() =~= items);
    assert(all.last() == item);
    assert(values_under(Seq::empty(), name) =~= Seq::<Seq<u8>>::empty());
    assert(values_under(all, name) =~= if item.0 == name {
        values_under(items, name).push(item.1)
    } else {
        values_under(items, name)
    });
}

/// A list of a map's headers has the names of the map and no others, and under each name
/// the values that the map has, in their order.
pub proof fn lists_all(items: Seq<HeaderItem>, contents: Map<Seq<char>, Seq<Seq<u8>>>)
    ensures
        lists(items, contents) <==> (forall|i: int|
            0 <= i < items.len() ==> contents.contains_key((#[trigger] items[i]).0)) && (forall|
            name: Seq<char>,
        |
            contents.contains_key(name) ==> #[trigger] values_under(items, name) == contents[name]),
{
}

/// A header name is 1 to 65535 bytes, each a letter, a digit or one of `!#$%&'*+-.^_|~` and
/// the back quote.
pub proof fn header_name_bytes(name: Seq<char>)
    ensures
        is_header_name(name) <==> 1 <= encode_utf8(name).len() <= 65535 && forall|i: int|
            0 <= i < encode_utf8(name).len() ==> {
                let b = #[trigger] encode_utf8(name)[i];
                (b >= 48 && b <= 57) || (b >= 65 && b <= 90) || (b >= 94 && b <= 122) || (b >= 35 && b
                    <= 39) || b == 33 || b == 42 || b == 43 || b == 45 || b == 46 || b == 124 || b
                    == 126
            },
{
    let bytes = encode_utf8(name);
    assert(forall|i: int|
        0 <= i < bytes.len() ==> is_name_byte(#[trigger] bytes[i]) == {
            let b = bytes[i];
            (b >= 48 && b <= 57) || (b >= 65 && b <= 90) || (b >= 94 && b <= 122) || (b >= 35 && b
                <= 39) || b == 33 || b == 42 || b == 43 || b == 45 || b == 46 || b == 124 || b == 126
        });
}

/// A header value holds no control character but the tab.
pub proof fn header_value_bytes(value: Seq<char>)
    ensures
        is_header_value(value) <==> forall|i: int|
            0 <= i < encode_utf8(value).len() ==> {
                let b = #[trigger] encode_utf8(value)[i];
                b == 9 || (b >= 32 && b != 127)
            },
{
    let bytes = encode_utf8(value);
    assert(forall|i: int|
        0 <= i < bytes.len() ==> is_value_byte(#[trigger] bytes[i]) == (bytes[i] == 9 || (bytes[i]
            >= 32 && bytes[i] != 127)));
}

/// A header name is kept with a small letter for every capital, and every other character
/// as it is.
pub proof fn normal_name_letters(name: Seq<char>)
    ensures
        normal_name(name).len() == name.len(),
        forall|i: int|
            0 <= i < name.len() ==> #[trigger] normal_name(name)[i] as u32 == if 0x41
                <= name[i] as u32 <= 0x5A {
                name[i] as u32 + 32
            } else {
                name[i] as u32 as int
            },
{
    assert forall|i: int| 0 <= i < name.len() implies #[trigger] normal_name(name)[i] as u32 == if 0x41
        <= name[i] as u32 <= 0x5A {
        name[i] as u32 + 32
    } else {
        name[i] as u32 as int
    } by {
        text::lemma_ascii_lower(name[i]);
    }
}

/// The headers of raw bytes are one: `content-type`, with one value.
pub proof fn octet_stream_holds(name: Seq<char>)
    ensures
        octet_stream_contents().contains_key(name) <==> name == "content-type"@,
        octet_stream_contents()["content-type"@] == seq![encode_utf8("application/octet-stream"@)],
{
}

} // verus!
