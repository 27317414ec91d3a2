//! Look-ups in cookie headers, query strings and URL-encoded forms.

use vstd::prelude::*;

use crate::text;
use crate::urlencoding;
use crate::wire::TextPair;

verus! {

/// What one `name=value` piece of a cookie header answers to a look-up of `name`.
/// White space round the piece, its name and its value does not count.
pub open spec fn cookie_rule(name: Seq<char>) -> spec_fn(Seq<char>) -> Option<Seq<char>> {
    |piece: Seq<char>|
        match text::halves(text::trimmed(piece), '=') {
            Some((key, val)) => if text::trimmed(key) == name {
                Some(text::trimmed(val))
            } else {
                None
            },
            None => None,
        }
}

/// The value of the cookie `name` in a cookie header.
pub open spec fn cookie_in(cookies: Seq<char>, name: Seq<char>) -> Option<Seq<char>> {
    text::first_answer(text::pieces(cookies, ';'), cookie_rule(name))
}

/// What one `name=value` piece of a query or form answers to a look-up of `name`. The
/// name is taken as it stands, the value is percent-decoded.
pub open spec fn field_rule(name: Seq<char>) -> spec_fn(Seq<char>) -> Option<Seq<char>> {
    |piece: Seq<char>|
        match text::halves(piece, '=') {
            Some((key, val)) => if key == name {
                Some(urlencoding::decoded_text(val))
            } else {
                None
            },
            None => None,
        }
}

/// The value of the field `name` in a query or form.
pub open spec fn field_in(fields: Seq<char>, name: Seq<char>) -> Option<Seq<char>> {
    text::first_answer(text::pieces(fields, '&'), field_rule(name))
}

/// The encoded value in one piece of a query or form that has this name.
pub open spec fn raw_rule(name: Seq<char>) -> spec_fn(Seq<char>) -> Option<Seq<char>> {
    |piece: Seq<char>|
        match text::halves(piece, '=') {
            Some((key, val)) => if key == name {
                Some(val)
            } else {
                None
            },
            None => None,
        }
}

/// The encoded value of the field `name` in a query or form.
pub open spec fn raw_in(fields: Seq<char>, name: Seq<char>) -> Option<Seq<char>> {
    text::first_answer(text::pieces(fields, '&'), raw_rule(name))
}

/// The value of a field is what its encoded value decodes to.
pub proof fn field_is_decoded(fields: Seq<char>, name: Seq<char>)
    ensures
        field_in(fields, name) == match raw_in(fields, name) {
            Some(raw) => Some(urlencoding::decoded_text(raw)),
            None => None,
        },
    decreases fields.len(),
{
    text::lemma_first_piece(fields, '&', field_rule(name));
    text::lemma_first_piece(fields, '&', raw_rule(name));
    if let Some((piece, more)) = text::halves(fields, '&') {
        field_is_decoded(more, name);
    }
}

/// The look-up in one piece of a cookie header.
fn cookie_piece<'a>(piece: &'a str, name: &str) -> (value: Option<&'a str>)
    ensures
        text::option_text(value) == (cookie_rule(name@))(piece@),
{
    match text::split_once(text::trim(piece), '=') {
        Some((key, val)) => if text::same_text(text::trim(key), name) {
            Some(text::trim(val))
        } else {
            None
        },
        None => None,
    }
}

/// The value of the first cookie `name` in a cookie header.
pub fn cookie_value<'a>(cookies: &'a str, name: &str) -> (value: Option<&'a str>)
    ensures
        text::option_text(value) == cookie_in(cookies@, name@),
{
    let mut rest: &'a str = cookies;
    loop
        invariant
            cookie_in(rest@, name@) == cookie_in(cookies@, name@),
        decreases rest@.len(),
    {
        proof {
            text::lemma_first_piece(rest@, ';', cookie_rule(name@));
        }
        match text::split_once(rest, ';') {
            Some((piece, more)) => {
                let value = cookie_piece(piece, name);
                if value.is_some() {
                    return value;
                }
                rest = more;
            },
            None => {
                return cookie_piece(rest, name);
            },
        }
    }
}

/// The look-up in one piece of a query or form.
fn field_piece(piece: &str, name: &str) -> (value: Option<String>)
    ensures
        text::option_string(value) == (field_rule(name@))(piece@),
        value matches Some(v) ==> (raw_rule(name@))(piece@) matches Some(raw)
            && urlencoding::repairs_in_place(raw, v@),
{
    match text::split_once(piece, '=') {
        Some((key, val)) => if text::same_text(key, name) {
            Some(urlencoding::urlencoding_decode(val))
        } else {
            None
        },
        None => None,
    }
}

/// The value of the first field `name` in a query or form.
pub fn field_value(fields: &str, name: &str) -> (value: Option<String>)
    ensures
        text::option_string(value) == field_in(fields@, name@),
        value matches Some(v) ==> raw_in(fields@, name@) matches Some(raw)
            && urlencoding::repairs_in_place(raw, v@),
{
    let mut rest: &str = fields;
    loop
        invariant
            field_in(rest@, name@) == field_in(fields@, name@),
            raw_in(rest@, name@) == raw_in(fields@, name@),
        decreases rest@.len(),
    {
        proof {
            text::lemma_first_piece(rest@, '&', field_rule(name@));
            text::lemma_first_piece(rest@, '&', raw_rule(name@));
        }
        match text::split_once(rest, '&') {
            Some((piece, more)) => {
                let value = field_piece(piece, name);
                if value.is_some() {
                    return value;
                }
                rest = more;
            },
            None => {
                return field_piece(rest, name);
            },
        }
    }
}

/// A query or form that holds the pairs: `name=value&name=value`.
pub open spec fn query_of(pairs: Seq<TextPair>) -> Seq<char> {
    text::joined(pairs.map_values(|pair: TextPair| pair.0 + seq!['='] + pair.1), '&')
}

/// Whether a name and a value can stand in a query as they are.
pub open spec fn fits_query(pair: TextPair) -> bool {
    &&& !pair.0.contains('=')
    &&& !pair.0.contains('&')
    &&& !pair.1.contains('&')
}

/// What the pieces of a query hold.
proof fn lemma_query_pieces(pairs: Seq<TextPair>, name: Seq<char>)
    requires
        pairs.len() > 0,
        forall|i: int| 0 <= i < pairs.len() ==> fits_query(#[trigger] pairs[i]),
    ensures
        text::pieces(query_of(pairs), '&').len() == pairs.len(),
        forall|i: int|
            #![trigger text::pieces(query_of(pairs), '&')[i]]
            0 <= i < pairs.len() ==> (field_rule(name))(text::pieces(query_of(pairs), '&')[i])
                == if pairs[i].0 == name {
                Some(urlencoding::decoded_text(pairs[i].1))
            } else {
                None
            },
{
    let parts = pairs.map_values(|pair: TextPair| pair.0 + seq!['='] + pair.1);
    assert forall|i: int| 0 <= i < parts.len() implies !(#[trigger] parts[i]).contains('&') by {
        assert(fits_query(pairs[i]));
        let (key, val) = pairs[i];
        assert forall|j: int| 0 <= j < parts[i].len() implies parts[i][j] != '&' by {
            if j < key.len() {
                assert(key.contains(key[j]));
            } else if j > key.len() {
                assert(val.contains(val[j - key.len() - 1]));
            }
        }
    }
    text::joined_then_split(parts, '&');
    assert forall|i: int| 0 <= i < pairs.len() implies (field_rule(name))(#[trigger] parts[i])
        == if pairs[i].0 == name {
        Some(urlencoding::decoded_text(pairs[i].1))
    } else {
        None
    } by {
        assert(fits_query(pairs[i]));
        text::pair_then_split(pairs[i].0, pairs[i].1, '=');
    }
}

/// A look-up in a query or form gives the decoded value of the first pair with the name.
pub proof fn query_then_look_up(pairs: Seq<TextPair>, name: Seq<char>, i: int)
    requires
        forall|j: int| 0 <= j < pairs.len() ==> fits_query(#[trigger] pairs[j]),
        0 <= i < pairs.len(),
        pairs[i].0 == name,
        forall|j: int| 0 <= j < i ==> (#[trigger] pairs[j]).0 != name,
    ensures
        field_in(query_of(pairs), name) == Some(urlencoding::decoded_text(pairs[i].1)),
{
    lemma_query_pieces(pairs, name);
    let pieces = text::pieces(query_of(pairs), '&');
    assert forall|j: int| 0 <= j < i implies (field_rule(name))(#[trigger] pieces[j]) is None by {
        assert(pairs[j].0 != name);
    }
    assert((field_rule(name))(pieces[i]) is Some);
    text::first_answer_at(pieces, field_rule(name), i);
}

/// A value without `%` and `+` is found as it stands.
pub proof fn plain_query_then_look_up(pairs: Seq<TextPair>, name: Seq<char>, i: int)
    requires
        forall|j: int| 0 <= j < pairs.len() ==> fits_query(#[trigger] pairs[j]),
        0 <= i < pairs.len(),
        pairs[i].0 == name,
        forall|j: int| 0 <= j < i ==> (#[trigger] pairs[j]).0 != name,
        !pairs[i].1.contains('%'),
        !pairs[i].1.contains('+'),
    ensures
        field_in(query_of(pairs), name) == Some(pairs[i].1),
{
    query_then_look_up(pairs, name, i);
    urlencoding::plain_text_unchanged(pairs[i].1);
}

/// A look-up of a name that no pair has finds nothing.
pub proof fn query_then_miss(pairs: Seq<TextPair>, name: Seq<char>)
    requires
        forall|j: int| 0 <= j < pairs.len() ==> fits_query(#[trigger] pairs[j]),
        forall|j: int| 0 <= j < pairs.len() ==> (#[trigger] pairs[j]).0 != name,
    ensures
        field_in(query_of(pairs), name) is None,
{
    if pairs.len() == 0 {
        let none = Seq::<char>::empty();
        assert(query_of(pairs) =~= none);
        text::lemma_first_piece(none, '&', field_rule(name));
        assert((field_rule(name))(none) is None);
    } else {
        lemma_query_pieces(pairs, name);
        let pieces = text::pieces(query_of(pairs), '&');
        assert forall|j: int| 0 <= j < pieces.len() implies (field_rule(name))(
            #[trigger] pieces[j],
        ) is None by {
            assert(pairs[j].0 != name);
        }
        text::no_answer(pieces, field_rule(name));
    }
}

/// One piece of a cookie header: a space before every cookie but the first.
pub open spec fn cookie_part(pair: TextPair, first: bool) -> Seq<char> {
    if first {
        pair.0 + seq!['='] + pair.1
    } else {
        seq![' '] + (pair.0 + seq!['='] + pair.1)
    }
}

/// A cookie header that holds the pairs: `name=value; name=value`.
pub open spec fn cookies_of(pairs: Seq<TextPair>) -> Seq<char> {
    text::joined(Seq::new(pairs.len(), |i: int| cookie_part(pairs[i], i == 0)), ';')
}

/// Whether a text has no white space at its ends.
pub open spec fn has_tight_ends(s: Seq<char>) -> bool {
    s.len() > 0 ==> !text::is_white_space(s[0]) && !text::is_white_space(s.last())
}

/// Whether a name and a value can stand in a cookie header as they are.
pub open spec fn fits_cookie(pair: TextPair) -> bool {
    &&& !pair.0.contains('=')
    &&& !pair.0.contains(';')
    &&& !pair.1.contains(';')
    &&& has_tight_ends(pair.0)
    &&& has_tight_ends(pair.1)
}

/// Trimming leaves a text without white space at its ends.
proof fn lemma_tight_trimmed(s: Seq<char>)
    requires
        has_tight_ends(s),
    ensures
        text::trimmed(s) == s,
{
    if s.len() > 0 {
        text::padded_then_trimmed(Seq::empty(), s);
        assert(Seq::<char>::empty() + s =~= s);
    }
}

/// What one piece of a cookie header answers.
proof fn lemma_cookie_part(pair: TextPair, first: bool, name: Seq<char>)
    requires
        fits_cookie(pair),
    ensures
        !cookie_part(pair, first).contains(';'),
        (cookie_rule(name))(cookie_part(pair, first)) == if pair.0 == name {
            Some(pair.1)
        } else {
            None
        },
{
    let (key, val) = pair;
    let inner = key + seq!['='] + val;
    let part = cookie_part(pair, first);
    let pad = if first { Seq::<char>::empty() } else { seq![' '] };
    assert(part =~= pad + inner);
    assert forall|j: int| 0 <= j < inner.len() implies inner[j] != ';' by {
        if j < key.len() {
            assert(key.contains(key[j]));
        } else if j > key.len() {
            assert(val.contains(val[j - key.len() - 1]));
        }
    }
    assert(inner[0] == if key.len() > 0 { key[0] } else { '=' });
    assert(inner.last() == if val.len() > 0 { val.last() } else { '=' });
    text::padded_then_trimmed(pad, inner);
    text::pair_then_split(key, val, '=');
    lemma_tight_trimmed(key);
    lemma_tight_trimmed(val);
}

/// What the pieces of a cookie header hold.
proof fn lemma_cookie_pieces(pairs: Seq<TextPair>, name: Seq<char>)
    requires
        pairs.len() > 0,
        forall|i: int| 0 <= i < pairs.len() ==> fits_cookie(#[trigger] pairs[i]),
    ensures
        text::pieces(cookies_of(pairs), ';').len() == pairs.len(),
        forall|i: int|
            #![trigger text::pieces(cookies_of(pairs), ';')[i]]
            0 <= i < pairs.len() ==> (cookie_rule(name))(text::pieces(cookies_of(pairs), ';')[i])
                == if pairs[i].0 == name {
                Some(pairs[i].1)
            } else {
                None
            },
{
    let parts = Seq::new(pairs.len(), |i: int| cookie_part(pairs[i], i == 0));
    assert forall|i: int| 0 <= i < parts.len() implies !(#[trigger] parts[i]).contains(';') && (
    cookie_rule(name))(parts[i]) == if pairs[i].0 == name {
        Some(pairs[i].1)
    } else {
        None
    } by {
        assert(fits_cookie(pairs[i]));
        lemma_cookie_part(pairs[i], i == 0, name);
    }
    text::joined_then_split(parts, ';');
}

/// A look-up in a cookie header gives the value of the first cookie with the name.
pub proof fn cookies_then_look_up(pairs: Seq<TextPair>, name: Seq<char>, i: int)
    requires
        forall|j: int| 0 <= j < pairs.len() ==> fits_cookie(#[trigger] pairs[j]),
        0 <= i < pairs.len(),
        pairs[i].0 == name,
        forall|j: int| 0 <= j < i ==> (#[trigger] pairs[j]).0 != name,
    ensures
        cookie_in(cookies_of(pairs), name) == Some(pairs[i].1),
{
    lemma_cookie_pieces(pairs, name);
    let pieces = text::pieces(cookies_of(pairs), ';');
    assert forall|j: int| 0 <= j < i implies (cookie_rule(name))(#[trigger] pieces[j]) is None by {
        assert(pairs[j].0 != name);
    }
    assert((cookie_rule(name))(pieces[i]) is Some);
    text::first_answer_at(pieces, cookie_rule(name), i);
}

/// A look-up of a cookie that is not there finds nothing.
pub proof fn cookies_then_miss(pairs: Seq<TextPair>, name: Seq<char>)
    requires
        forall|j: int| 0 <= j < pairs.len() ==> fits_cookie(#[trigger] pairs[j]),
        forall|j: int| 0 <= j < pairs.len() ==> (#[trigger] pairs[j]).0 != name,
    ensures
        cookie_in(cookies_of(pairs), name) is None,
{
    if pairs.len() == 0 {
        let none = Seq::<char>::empty();
        assert(cookies_of(pairs) =~= none);
        text::lemma_first_piece(none, ';', cookie_rule(name));
        assert((cookie_rule(name))(none) is None);
    } else {
        lemma_cookie_pieces(pairs, name);
        let pieces = text::pieces(cookies_of(pairs), ';');
        assert forall|j: int| 0 <= j < pieces.len() implies (cookie_rule(name))(
            #[trigger] pieces[j],
        ) is None by {
            assert(pairs[j].0 != name);
        }
        text::no_answer(pieces, cookie_rule(name));
    }
}

/// Whether a piece `name=value` has this name.
proof fn lemma_field_rule(piece: Seq<char>, name: Seq<char>)
    ensures
        (field_rule(name))(piece) is Some <==> !name.contains('=') && name.push('=').is_prefix_of(
            piece,
        ),
        (field_rule(name))(piece) matches Some(value) ==> value == urlencoding::decoded_text(
            piece.skip(name.len() as int + 1),
        ),
        (raw_rule(name))(piece) is Some <==> (field_rule(name))(piece) is Some,
        (raw_rule(name))(piece) matches Some(raw) ==> raw == piece.skip(name.len() as int + 1),
{
    let start = name.push('=');
    text::halves_cut(piece, '=');
    if let Some((key, val)) = text::halves(piece, '=') {
        assert(piece == key + seq!['='] + val);
        if key == name {
            assert(start =~= piece.take(start.len() as int));
            assert(piece.skip(name.len() as int + 1) =~= val);
        }
    }
    if !name.contains('=') && start.is_prefix_of(piece) {
        let val = piece.skip(name.len() as int + 1);
        assert forall|k: int| 0 <= k < start.len() implies piece[k] == start[k] by {
            assert(piece.subrange(0, start.len() as int)[k] == piece[k]);
        }
        assert(piece =~= name + seq!['='] + val);
        text::pair_then_split(name, val, '=');
    }
}

/// A look-up finds the first piece of a query or form that starts with `name=`, and gives
/// what the rest of the piece decodes to. Pieces of another form do not matter.
pub proof fn field_found(fields: Seq<char>, name: Seq<char>, i: int)
    requires
        !name.contains('='),
        0 <= i < text::pieces(fields, '&').len(),
        name.push('=').is_prefix_of(text::pieces(fields, '&')[i]),
        forall|j: int|
            0 <= j < i ==> !name.push('=').is_prefix_of(#[trigger] text::pieces(fields, '&')[j]),
    ensures
        field_in(fields, name) == Some(
            urlencoding::decoded_text(text::pieces(fields, '&')[i].skip(name.len() as int + 1)),
        ),
        raw_in(fields, name) == Some(text::pieces(fields, '&')[i].skip(name.len() as int + 1)),
{
    let pieces = text::pieces(fields, '&');
    lemma_field_rule(pieces[i], name);
    assert forall|j: int| 0 <= j < i implies (field_rule(name))(#[trigger] pieces[j]) is None
        && (raw_rule(name))(pieces[j]) is None by {
        lemma_field_rule(pieces[j], name);
    }
    text::first_answer_at(pieces, field_rule(name), i);
    text::first_answer_at(pieces, raw_rule(name), i);
}

/// A look-up finds nothing where no piece of the query or form starts with `name=`, nor
/// where the name itself holds a `=`.
pub proof fn field_missing(fields: Seq<char>, name: Seq<char>)
    requires
        name.contains('=') || forall|j: int|
            0 <= j < text::pieces(fields, '&').len() ==> !name.push('=').is_prefix_of(
                #[trigger] text::pieces(fields, '&')[j],
            ),
    ensures
        field_in(fields, name) is None,
        raw_in(fields, name) is None,
{
    let pieces = text::pieces(fields, '&');
    assert forall|j: int| 0 <= j < pieces.len() implies (field_rule(name))(#[trigger] pieces[j]) is None
        && (raw_rule(name))(pieces[j]) is None by {
        lemma_field_rule(pieces[j], name);
    }
    text::no_answer(pieces, field_rule(name));
    text::no_answer(pieces, raw_rule(name));
}

/// A look-up finds the first piece of a cookie header that is, but for white space round
/// the piece, its name and its value, `name=value`, and gives the value.
pub proof fn cookie_found(cookies: Seq<char>, name: Seq<char>, i: int, key: Seq<char>, val: Seq<char>)
    requires
        0 <= i < text::pieces(cookies, ';').len(),
        text::trimmed(text::pieces(cookies, ';')[i]) == key + seq!['='] + val,
        !key.contains('='),
        text::trimmed(key) == name,
        forall|j: int|
            0 <= j < i ==> (text::halves(
                text::trimmed(#[trigger] text::pieces(cookies, ';')[j]),
                '=',
            ) matches Some((k, v)) ==> text::trimmed(k) != name),
    ensures
        cookie_in(cookies, name) == Some(text::trimmed(val)),
{
    let pieces = text::pieces(cookies, ';');
    text::pair_then_split(key, val, '=');
    assert forall|j: int| 0 <= j < i implies (cookie_rule(name))(#[trigger] pieces[j]) is None by {
        assert(text::pieces(cookies, ';')[j] == pieces[j]);
    }
    text::first_answer_at(pieces, cookie_rule(name), i);
}

/// A look-up finds nothing where no piece of the cookie header is `name=value`, but for
/// white space.
pub proof fn cookie_missing(cookies: Seq<char>, name: Seq<char>)
    requires
        forall|j: int|
            0 <= j < text::pieces(cookies, ';').len() ==> (text::halves(
                text::trimmed(#[trigger] text::pieces(cookies, ';')[j]),
                '=',
            ) matches Some((k, v)) ==> text::trimmed(k) != name),
    ensures
        cookie_in(cookies, name) is None,
{
    let pieces = text::pieces(cookies, ';');
    assert forall|j: int| 0 <= j < pieces.len() implies (cookie_rule(name))(
        #[trigger] pieces[j],
    ) is None by {
        assert(text::pieces(cookies, ';')[j] == pieces[j]);
    }
    text::no_answer(pieces, cookie_rule(name));
}

} // verus!
