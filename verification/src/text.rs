//! Text primitives: conversions between bytes and text, and the pieces of text
//! that cookies, query strings and route patterns are made of.

use vstd::prelude::*;
use vstd::utf8::*;

verus! {

/// The text that `String::from_utf8_lossy` makes of bytes that are not valid UTF-8.
pub uninterp spec fn repaired_text(bytes: Seq<u8>) -> Seq<char>;

/// The text that `str::to_lowercase` makes of text that is not all ASCII.
pub uninterp spec fn unicode_lowercase(text: Seq<char>) -> Seq<char>;

/// The text in `bytes`: decoded where they are valid UTF-8, repaired where not.
pub open spec fn lossy_text(bytes: Seq<u8>) -> Seq<char> {
    if valid_utf8(bytes) {
        decode_utf8(bytes)
    } else {
        repaired_text(bytes)
    }
}

/// An ASCII letter in lower case, and any other character unchanged.
pub open spec fn ascii_lower(c: char) -> char {
    if 'A' <= c <= 'Z' {
        (c as u32 + 32) as char
    } else {
        c
    }
}

/// `text` in lower case.
pub open spec fn lowercase(text: Seq<char>) -> Seq<char> {
    if is_ascii_chars(text) {
        text.map_values(|c: char| ascii_lower(c))
    } else {
        unicode_lowercase(text)
    }
}

/// Decodes UTF-8 with `String::from_utf8_lossy`.
///
/// Trusted: the result depends on the bytes alone. Valid UTF-8 is decoded as it
/// stands; where a part of the input is not valid UTF-8, U+FFFD takes its place. A front
/// part that is valid UTF-8 is decoded as it stands, and what follows it is treated as it
/// would be alone. How many replacement characters stand for one invalid part is left
/// unsaid.
#[verifier::external_body]
fn from_utf8_lossy(bytes: &[u8]) -> (text: String)
    ensures
        valid_utf8(bytes@) ==> text@ == decode_utf8(bytes@),
        !valid_utf8(bytes@) ==> text@ == repaired_text(bytes@),
        !valid_utf8(bytes@) ==> text@.contains('\u{FFFD}'),
        forall|n: int|
            0 <= n <= bytes@.len() && valid_utf8(#[trigger] bytes@.take(n)) ==> text@
                == decode_utf8(bytes@.take(n)) + lossy_text(bytes@.skip(n)),
{
    String::from_utf8_lossy(bytes).into_owned()
}

/// The text in `bytes`, with U+FFFD in place of what is not valid UTF-8.
pub fn to_text(bytes: &[u8]) -> (text: String)
    ensures
        text@ == lossy_text(bytes@),
        !valid_utf8(bytes@) ==> text@.contains('\u{FFFD}'),
        forall|n: int|
            0 <= n <= bytes@.len() && valid_utf8(#[trigger] bytes@.take(n)) ==> text@
                == decode_utf8(bytes@.take(n)) + lossy_text(bytes@.skip(n)),
{
    from_utf8_lossy(bytes)
}

/// The text in the UTF-8 form of a text is that text.
pub proof fn lossy_text_of_utf8(text: Seq<char>)
    ensures
        lossy_text(encode_utf8(text)) == text,
{
    encode_utf8_valid_utf8(text);
    encode_utf8_decode_utf8(text);
}

/// The UTF-8 form of a text is the forms of its parts one after another.
pub proof fn utf8_of_concat(a: Seq<char>, b: Seq<char>)
    ensures
        encode_utf8(a + b) == encode_utf8(a) + encode_utf8(b),
    decreases a.len(),
{
    if a.len() == 0 {
        assert(a + b =~= b);
        assert(encode_utf8(a) + encode_utf8(b) =~= encode_utf8(b));
    } else {
        let tail = a.drop_first();
        utf8_of_concat(tail, b);
        assert((a + b).drop_first() =~= tail + b);
        assert(encode_utf8(a + b) =~= encode_utf8(a) + encode_utf8(b));
    }
}

/// Reads UTF-8 with `std::str::from_utf8`.
///
/// Trusted: there is a text just where the bytes are valid UTF-8, and it is the text
/// that they encode.
#[verifier::external_body]
pub(crate) fn from_utf8(bytes: &[u8]) -> (text: Option<&str>)
    ensures
        text is Some <==> valid_utf8(bytes@),
        text matches Some(t) ==> t@ == decode_utf8(bytes@),
{
    std::str::from_utf8(bytes).ok()
}

/// Lowers `text` with `str::to_lowercase`.
///
/// Trusted: the result depends on the text alone. Text that is all ASCII has its
/// letters lowered one by one. What Unicode prescribes for other text is left unsaid.
#[verifier::external_body]
pub(crate) fn to_lowercase(text: &str) -> (lowered: String)
    ensures
        is_ascii_chars(text@) ==> lowered@ == text@.map_values(|c: char| ascii_lower(c)),
        !is_ascii_chars(text@) ==> lowered@ == unicode_lowercase(text@),
{
    text.to_lowercase()
}

/// Whether two texts are the same.
pub fn same_text(a: &str, b: &str) -> (same: bool)
    ensures
        same == (a@ == b@),
{
    let x = a.as_bytes();
    let y = b.as_bytes();
    proof {
        encode_utf8_decode_utf8(a@);
        encode_utf8_decode_utf8(b@);
    }
    if x.len() != y.len() {
        return false;
    }
    let mut i: usize = 0;
    while i < x.len()
        invariant
            i <= x@.len(),
            x@.len() == y@.len(),
            x@ == encode_utf8(a@),
            y@ == encode_utf8(b@),
            forall|j: int| 0 <= j < i ==> x@[j] == y@[j],
        decreases x@.len() - i,
    {
        if x[i] != y[i] {
            return false;
        }
        i += 1;
    }
    assert(x@ =~= y@);
    true
}

/// The place of the first `c` in `text`, or its length where there is none.
pub open spec fn first_place(text: Seq<char>, c: char) -> int
    decreases text.len(),
{
    if text.len() == 0 || text[0] == c {
        0
    } else {
        1 + first_place(text.skip(1), c)
    }
}

/// What stands before and behind the first `c`.
pub open spec fn halves(text: Seq<char>, c: char) -> Option<(Seq<char>, Seq<char>)> {
    let at = first_place(text, c);
    if at < text.len() {
        Some((text.take(at), text.skip(at + 1)))
    } else {
        None
    }
}

/// The pieces of `text` between one `c` and the next.
pub open spec fn pieces(text: Seq<char>, c: char) -> Seq<Seq<char>>
    decreases text.len(),
{
    let at = first_place(text, c);
    if 0 <= at < text.len() {
        seq![text.take(at)] + pieces(text.skip(at + 1), c)
    } else {
        seq![text]
    }
}

/// The first answer that `find` gives to one of the pieces.
pub open spec fn first_answer(
    pieces: Seq<Seq<char>>,
    find: spec_fn(Seq<char>) -> Option<Seq<char>>,
) -> Option<Seq<char>>
    decreases pieces.len(),
{
    if pieces.len() == 0 {
        None
    } else if find(pieces[0]) is Some {
        find(pieces[0])
    } else {
        first_answer(pieces.skip(1), find)
    }
}

/// The text of a borrowed string, where there is one.
pub open spec fn option_text(text: Option<&str>) -> Option<Seq<char>> {
    match text {
        Some(t) => Some(t@),
        None => None,
    }
}

/// The text of an owned string, where there is one.
pub open spec fn option_string(text: Option<String>) -> Option<Seq<char>> {
    match text {
        Some(t) => Some(t@),
        None => None,
    }
}

/// Whether a character has the Unicode property `White_Space`.
pub open spec fn is_white_space(c: char) -> bool {
    ||| '\t' <= c <= '\r'
    ||| c == ' '
    ||| c == '\u{85}'
    ||| c == '\u{A0}'
    ||| c == '\u{1680}'
    ||| '\u{2000}' <= c <= '\u{200A}'
    ||| c == '\u{2028}'
    ||| c == '\u{2029}'
    ||| c == '\u{202F}'
    ||| c == '\u{205F}'
    ||| c == '\u{3000}'
}

/// `text` without the white space at its front.
pub open spec fn front_trimmed(text: Seq<char>) -> Seq<char>
    decreases text.len(),
{
    if text.len() > 0 && is_white_space(text[0]) {
        front_trimmed(text.skip(1))
    } else {
        text
    }
}

/// `text` without the white space at its end.
pub open spec fn back_trimmed(text: Seq<char>) -> Seq<char>
    decreases text.len(),
{
    if text.len() > 0 && is_white_space(text.last()) {
        back_trimmed(text.drop_last())
    } else {
        text
    }
}

/// `text` without the white space at either end.
pub open spec fn trimmed(text: Seq<char>) -> Seq<char> {
    back_trimmed(front_trimmed(text))
}

/// The first answer comes from what stands before the first `c`, or else from the
/// pieces behind it.
pub proof fn lemma_first_piece(
    text: Seq<char>,
    c: char,
    find: spec_fn(Seq<char>) -> Option<Seq<char>>,
)
    ensures
        first_answer(pieces(text, c), find) == match halves(text, c) {
            Some((before, behind)) => if find(before) is Some {
                find(before)
            } else {
                first_answer(pieces(behind, c), find)
            },
            None => find(text),
        },
        halves(text, c) matches Some((before, behind)) ==> behind.len() < text.len(),
{
    lemma_first_place_range(text, c);
    match halves(text, c) {
        Some((before, behind)) => {
            let tail = pieces(behind, c);
            assert((seq![before] + tail).skip(1) =~= tail);
        },
        None => {
            assert(seq![text].skip(1) =~= Seq::empty());
            assert(first_answer(Seq::empty(), find) is None);
        },
    }
}

/// The first place lies in the text or right behind it.
proof fn lemma_first_place_range(text: Seq<char>, c: char)
    ensures
        0 <= first_place(text, c) <= text.len(),
    decreases text.len(),
{
    if text.len() > 0 && text[0] != c {
        lemma_first_place_range(text.skip(1), c);
    }
}

/// A place where the first `c` stands is the first place.
proof fn lemma_first_place(text: Seq<char>, c: char, at: int)
    requires
        0 <= at <= text.len(),
        at < text.len() ==> text[at] == c,
        forall|j: int| 0 <= j < at ==> text[j] != c,
    ensures
        first_place(text, c) == at,
    decreases text.len(),
{
    if at > 0 {
        let tail = text.skip(1);
        assert forall|j: int| 0 <= j < at - 1 implies tail[j] != c by {
            assert(tail[j] == text[j + 1]);
        }
        lemma_first_place(tail, c, at - 1);
    }
}

/// Splits `text` at the first `c`.
pub fn split_once<'a>(text: &'a str, c: char) -> (halves: Option<(&'a str, &'a str)>)
    ensures
        match (halves, self::halves(text@, c)) {
            (Some((before, behind)), Some((left, right))) => before@ == left && behind@ == right,
            (None, None) => true,
            _ => false,
        },
        match halves {
            Some((before, behind)) => text@ == before@ + seq![c] + behind@ && !before@.contains(c),
            None => !text@.contains(c),
        },
{
    proof {
        halves_cut(text@, c);
    }
    let len: usize = text.unicode_len();
    let mut i: usize = 0;
    let mut found: Option<usize> = None;
    for d in iter: text.chars()
        invariant
            i == iter.index(),
            iter.seq() == text@,
            len == text@.len(),
            match found {
                Some(at) => at < i && text@[at as int] == c && forall|j: int|
                    0 <= j < at ==> text@[j] != c,
                None => forall|j: int| 0 <= j < i ==> text@[j] != c,
            },
    {
        if d == c && found.is_none() {
            found = Some(i);
        }
        i += 1;
    }
    match found {
        Some(at) => {
            proof {
                lemma_first_place(text@, c, at as int);
            }
            Some((text.substring_char(0, at), text.substring_char(at + 1, len)))
        },
        None => {
            proof {
                lemma_first_place(text@, c, len as int);
            }
            None
        },
    }
}

/// The texts of string slices.
pub open spec fn texts(slices: Seq<&str>) -> Seq<Seq<char>> {
    slices.map_values(|slice: &str| slice@)
}

/// Splits `text` at every `c`.
pub fn split<'a>(text: &'a str, c: char) -> (parts: Vec<&'a str>)
    ensures
        texts(parts@) == pieces(text@, c),
        parts@.len() == pieces(text@, c).len(),
        forall|i: int| 0 <= i < parts@.len() ==> (#[trigger] parts@[i])@ == pieces(text@, c)[i],
{
    let mut parts: Vec<&'a str> = Vec::new();
    let mut rest: &'a str = text;
    assert(texts(parts@) + pieces(text@, c) =~= pieces(text@, c));
    loop
        invariant
            texts(parts@) + pieces(rest@, c) == pieces(text@, c),
        decreases rest@.len(),
    {
        proof {
            lemma_first_place_range(rest@, c);
        }
        let ghost before = texts(parts@);
        match split_once(rest, c) {
            Some((piece, more)) => {
                parts.push(piece);
                proof {
                    assert(texts(parts@) =~= before.push(piece@));
                    assert(texts(parts@) + pieces(more@, c) =~= before + pieces(rest@, c));
                }
                rest = more;
            },
            None => {
                parts.push(rest);
                assert(texts(parts@) =~= before + pieces(rest@, c));
                assert forall|i: int| 0 <= i < parts@.len() implies (#[trigger] parts@[i])@
                    == pieces(text@, c)[i] by {
                    assert(texts(parts@)[i] == parts@[i]@);
                }
                return parts;
            },
        }
    }
}

/// Whether a character is white space.
pub fn white_space(c: char) -> (yes: bool)
    ensures
        yes == is_white_space(c),
{
    ('\t' <= c && c <= '\r') || c == ' ' || c == '\u{85}' || c == '\u{A0}' || c == '\u{1680}' || (
    '\u{2000}' <= c && c <= '\u{200A}') || c == '\u{2028}' || c == '\u{2029}' || c == '\u{202F}' || c
        == '\u{205F}' || c == '\u{3000}'
}

/// What is left once `start` characters of white space are gone from the front.
proof fn lemma_front_trimmed(text: Seq<char>, start: int)
    requires
        0 <= start <= text.len(),
        forall|j: int| 0 <= j < start ==> is_white_space(#[trigger] text[j]),
        start < text.len() ==> !is_white_space(text[start]),
    ensures
        front_trimmed(text) == text.skip(start),
    decreases start,
{
    if start > 0 {
        let tail = text.skip(1);
        assert(is_white_space(text[0]));
        assert forall|j: int| 0 <= j < start - 1 implies is_white_space(#[trigger] tail[j]) by {
            assert(tail[j] == text[j + 1]);
        }
        lemma_front_trimmed(tail, start - 1);
        assert(tail.skip(start - 1) =~= text.skip(start));
    } else {
        assert(text.skip(0) =~= text);
    }
}

/// What is left once all but `end` characters are gone from the back.
proof fn lemma_back_trimmed(text: Seq<char>, end: int)
    requires
        0 <= end <= text.len(),
        forall|j: int| end <= j < text.len() ==> is_white_space(#[trigger] text[j]),
        end > 0 ==> !is_white_space(text[end - 1]),
    ensures
        back_trimmed(text) == text.take(end),
    decreases text.len(),
{
    if end < text.len() {
        assert(is_white_space(text.last()));
        lemma_back_trimmed(text.drop_last(), end);
        assert(text.drop_last().take(end) =~= text.take(end));
    } else {
        assert(text.take(end) =~= text);
    }
}

/// Takes the white space off either end of `text`.
pub fn trim<'a>(text: &'a str) -> (inner: &'a str)
    ensures
        inner@ == trimmed(text@),
{
    let len: usize = text.unicode_len();
    let mut i: usize = 0;
    let mut start: usize = 0;
    let mut end: usize = 0;
    for c in iter: text.chars()
        invariant
            i == iter.index(),
            iter.seq() == text@,
            len == text@.len(),
            start <= i,
            end <= i,
            forall|j: int| 0 <= j < start ==> is_white_space(#[trigger] text@[j]),
            forall|j: int| end <= j < i ==> is_white_space(#[trigger] text@[j]),
            start < i ==> start < end && !is_white_space(text@[start as int]),
            start == i ==> end == 0,
            end > 0 ==> !is_white_space(text@[end - 1]),
    {
        let blank = white_space(c);
        if blank {
            if start == i {
                start = start + 1;
            }
        } else {
            end = i + 1;
        }
        i += 1;
    }
    if start == len {
        end = start;
    }
    proof {
        lemma_front_trimmed(text@, start as int);
        let rest = text@.skip(start as int);
        assert forall|j: int| end - start <= j < rest.len() implies is_white_space(
            #[trigger] rest[j],
        ) by {
            assert(rest[j] == text@[j + start]);
        }
        lemma_back_trimmed(rest, end - start);
        assert(rest.take(end - start) =~= text@.subrange(start as int, end as int));
    }
    text.substring_char(start, end)
}

/// The parts with one `c` between each and the next.
pub open spec fn joined(parts: Seq<Seq<char>>, c: char) -> Seq<char>
    decreases parts.len(),
{
    if parts.len() == 0 {
        Seq::empty()
    } else if parts.len() == 1 {
        parts[0]
    } else {
        parts[0] + seq![c] + joined(parts.skip(1), c)
    }
}

/// Splitting at every `c` undoes joining with `c`.
pub proof fn joined_then_split(parts: Seq<Seq<char>>, c: char)
    requires
        parts.len() > 0,
        forall|i: int| 0 <= i < parts.len() ==> !(#[trigger] parts[i]).contains(c),
    ensures
        pieces(joined(parts, c), c) == parts,
    decreases parts.len(),
{
    let whole = joined(parts, c);
    assert(!parts[0].contains(c));
    if parts.len() == 1 {
        lemma_first_place(whole, c, whole.len() as int);
        assert(seq![whole] =~= parts);
    } else {
        let tail = parts.skip(1);
        let at = parts[0].len() as int;
        assert forall|i: int| 0 <= i < tail.len() implies !(#[trigger] tail[i]).contains(c) by {
            assert(tail[i] == parts[i + 1]);
        }
        assert forall|j: int| 0 <= j < at implies whole[j] != c by {
            assert(parts[0].contains(parts[0][j]));
            assert(whole[j] == parts[0][j]);
        }
        lemma_first_place(whole, c, at);
        joined_then_split(tail, c);
        assert(whole.take(at) =~= parts[0]);
        assert(whole.skip(at + 1) =~= joined(tail, c));
        assert(seq![parts[0]] + tail =~= parts);
    }
}

/// A name and a value with `c` between them split into the two.
pub proof fn pair_then_split(name: Seq<char>, value: Seq<char>, c: char)
    requires
        !name.contains(c),
    ensures
        halves(name + seq![c] + value, c) == Some((name, value)),
{
    let whole = name + seq![c] + value;
    let at = name.len() as int;
    assert forall|j: int| 0 <= j < at implies whole[j] != c by {
        assert(name.contains(name[j]));
        assert(whole[j] == name[j]);
    }
    lemma_first_place(whole, c, at);
    assert(whole.take(at) =~= name);
    assert(whole.skip(at + 1) =~= value);
}

/// White space before a text, and none at its ends, is what trimming takes.
pub proof fn padded_then_trimmed(pad: Seq<char>, inner: Seq<char>)
    requires
        forall|j: int| 0 <= j < pad.len() ==> is_white_space(#[trigger] pad[j]),
        inner.len() > 0,
        !is_white_space(inner[0]),
        !is_white_space(inner.last()),
    ensures
        trimmed(pad + inner) == inner,
{
    let whole = pad + inner;
    assert forall|j: int| 0 <= j < pad.len() implies is_white_space(#[trigger] whole[j]) by {
        assert(whole[j] == pad[j]);
    }
    lemma_front_trimmed(whole, pad.len() as int);
    assert(whole.skip(pad.len() as int) =~= inner);
    lemma_back_trimmed(inner, inner.len() as int);
    assert(inner.take(inner.len() as int) =~= inner);
}

/// The first piece that has an answer gives the answer.
pub proof fn first_answer_at(
    pieces: Seq<Seq<char>>,
    find: spec_fn(Seq<char>) -> Option<Seq<char>>,
    i: int,
)
    requires
        0 <= i < pieces.len(),
        find(pieces[i]) is Some,
        forall|j: int| 0 <= j < i ==> find(#[trigger] pieces[j]) is None,
    ensures
        first_answer(pieces, find) == find(pieces[i]),
    decreases pieces.len(),
{
    if i > 0 {
        let tail = pieces.skip(1);
        assert(find(pieces[0]) is None);
        assert forall|j: int| 0 <= j < i - 1 implies find(#[trigger] tail[j]) is None by {
            assert(tail[j] == pieces[j + 1]);
        }
        first_answer_at(tail, find, i - 1);
    }
}

/// Where no piece has an answer there is none.
pub proof fn no_answer(
    pieces: Seq<Seq<char>>,
    find: spec_fn(Seq<char>) -> Option<Seq<char>>,
)
    requires
        forall|j: int| 0 <= j < pieces.len() ==> find(#[trigger] pieces[j]) is None,
    ensures
        first_answer(pieces, find) is None,
    decreases pieces.len(),
{
    if pieces.len() > 0 {
        let tail = pieces.skip(1);
        assert(find(pieces[0]) is None);
        assert forall|j: int| 0 <= j < tail.len() implies find(#[trigger] tail[j]) is None by {
            assert(tail[j] == pieces[j + 1]);
        }
        no_answer(tail, find);
    }
}

/// Where the first `c` stands.
proof fn lemma_first_place_found(text: Seq<char>, c: char)
    ensures
        0 <= first_place(text, c) <= text.len(),
        first_place(text, c) < text.len() ==> text[first_place(text, c)] == c,
        forall|j: int| 0 <= j < first_place(text, c) ==> #[trigger] text[j] != c,
    decreases text.len(),
{
    if text.len() > 0 && text[0] != c {
        let tail = text.skip(1);
        lemma_first_place_found(tail, c);
        assert forall|j: int| 0 <= j < first_place(text, c) implies #[trigger] text[j] != c by {
            if j > 0 {
                assert(tail[j - 1] == text[j]);
            }
        }
    }
}

/// A cut at `c` gives back the text with the `c` between the halves, and there is no `c`
/// in the first half. There is no cut just where there is no `c`.
pub proof fn halves_cut(text: Seq<char>, c: char)
    ensures
        match halves(text, c) {
            Some((before, behind)) => text == before + seq![c] + behind && !before.contains(c),
            None => !text.contains(c),
        },
{
    lemma_first_place_found(text, c);
    if let Some((before, behind)) = halves(text, c) {
        assert(text =~= before + seq![c] + behind);
        assert forall|j: int| 0 <= j < before.len() implies before[j] != c by {
            assert(before[j] == text[j]);
        }
    }
}

/// A text without `c` is one piece.
pub proof fn whole_piece(text: Seq<char>, c: char)
    requires
        !text.contains(c),
    ensures
        pieces(text, c) == seq![text],
{
    halves_cut(text, c);
    lemma_first_place_found(text, c);
}

/// What stands before the first `c` is the first piece, and the pieces of what stands
/// behind it are the others.
pub proof fn first_piece(before: Seq<char>, behind: Seq<char>, c: char)
    requires
        !before.contains(c),
    ensures
        pieces(before + seq![c] + behind, c) == seq![before] + pieces(behind, c),
{
    pair_then_split(before, behind, c);
    lemma_first_place_found(before + seq![c] + behind, c);
}

/// A text has as many pieces as joining needs: the pieces joined with `c` are the text, and
/// no piece holds a `c`.
pub proof fn split_then_joined(text: Seq<char>, c: char)
    ensures
        pieces(text, c).len() > 0,
        joined(pieces(text, c), c) == text,
        forall|i: int| 0 <= i < pieces(text, c).len() ==> !(#[trigger] pieces(text, c)[i]).contains(c),
    decreases text.len(),
{
    halves_cut(text, c);
    lemma_first_place_found(text, c);
    match halves(text, c) {
        Some((before, behind)) => {
            let tail = pieces(behind, c);
            split_then_joined(behind, c);
            assert(pieces(text, c) == seq![before] + tail);
            assert((seq![before] + tail).skip(1) =~= tail);
            assert(joined(pieces(text, c), c) =~= text);
            assert forall|i: int| 0 <= i < pieces(text, c).len() implies !(#[trigger] pieces(
                text,
                c,
            )[i]).contains(c) by {
                if i > 0 {
                    assert(pieces(text, c)[i] == tail[i - 1]);
                }
            }
        },
        None => {
            whole_piece(text, c);
        },
    }
}

/// A text has no more characters than bytes in UTF-8.
pub proof fn lemma_utf8_len(text: Seq<char>)
    ensures
        text.len() <= encode_utf8(text).len(),
    decreases text.len(),
{
    if text.len() > 0 {
        lemma_utf8_len(text.drop_first());
    }
}

/// No piece of a text is longer than the text in UTF-8.
pub proof fn lemma_piece_len(text: Seq<char>, c: char, i: int)
    requires
        0 <= i < pieces(text, c).len(),
    ensures
        encode_utf8(pieces(text, c)[i]).len() <= encode_utf8(text).len(),
    decreases text.len(),
{
    halves_cut(text, c);
    match halves(text, c) {
        Some((before, behind)) => {
            first_piece(before, behind, c);
            utf8_of_concat(before + seq![c], behind);
            utf8_of_concat(before, seq![c]);
            if i > 0 {
                assert(pieces(text, c)[i] == pieces(behind, c)[i - 1]);
                lemma_piece_len(behind, c, i - 1);
            }
        },
        None => {
            whole_piece(text, c);
        },
    }
}

/// The string slices and strings of an option are taken for their texts, nothing else.
pub proof fn option_texts(slice: &str, string: String)
    ensures
        option_text(Some(slice)) == Some(slice@),
        option_text(None) is None,
        option_string(Some(string)) == Some(string@),
        option_string(None) is None,
{
}

/// White space by code point.
pub proof fn white_space_points(c: char)
    ensures
        is_white_space(c) <==> {
            let p = c as u32;
            p == 0x20 || 0x9 <= p <= 0xD || p == 0x85 || p == 0xA0 || p == 0x1680 || 0x2000 <= p
                <= 0x200A || p == 0x2028 || p == 0x2029 || p == 0x202F || p == 0x205F || p == 0x3000
        },
{
}

/// Where the text without the white space at its front starts.
proof fn lemma_front_cut(text: Seq<char>) -> (start: int)
    ensures
        0 <= start <= text.len(),
        front_trimmed(text) == text.skip(start),
        forall|k: int| 0 <= k < start ==> is_white_space(#[trigger] text[k]),
        start < text.len() ==> !is_white_space(text[start]),
    decreases text.len(),
{
    if text.len() > 0 && is_white_space(text[0]) {
        let tail = text.skip(1);
        let start = lemma_front_cut(tail);
        assert(tail.skip(start) =~= text.skip(start + 1));
        assert forall|k: int| 0 <= k < start + 1 implies is_white_space(#[trigger] text[k]) by {
            if k > 0 {
                assert(tail[k - 1] == text[k]);
            }
        }
        start + 1
    } else {
        assert(text.skip(0) =~= text);
        0
    }
}

/// Where the text without the white space at its back ends.
proof fn lemma_back_cut(text: Seq<char>) -> (end: int)
    ensures
        0 <= end <= text.len(),
        back_trimmed(text) == text.take(end),
        forall|k: int| end <= k < text.len() ==> is_white_space(#[trigger] text[k]),
        end > 0 ==> !is_white_space(text[end - 1]),
    decreases text.len(),
{
    if text.len() > 0 && is_white_space(text.last()) {
        let front = text.drop_last();
        let end = lemma_back_cut(front);
        assert(front.take(end) =~= text.take(end));
        assert forall|k: int| end <= k < text.len() implies is_white_space(#[trigger] text[k]) by {
            if k < front.len() {
                assert(front[k] == text[k]);
            }
        }
        end
    } else {
        assert(text.take(text.len() as int) =~= text);
        text.len() as int
    }
}

/// Trimming takes white space off either end, and nothing else: what is left neither
/// starts nor ends with white space.
pub proof fn trimmed_cut(text: Seq<char>)
    ensures
        exists|before: Seq<char>, after: Seq<char>|
            text == #[trigger] (before + trimmed(text) + after) && (forall|k: int|
                0 <= k < before.len() ==> is_white_space(#[trigger] before[k])) && (forall|k: int|
                0 <= k < after.len() ==> is_white_space(#[trigger] after[k])),
        trimmed(text).len() > 0 ==> !is_white_space(trimmed(text)[0]) && !is_white_space(
            trimmed(text).last(),
        ),
{
    let start = lemma_front_cut(text);
    let rest = text.skip(start);
    let end = lemma_back_cut(rest);
    let (before, after) = (text.take(start), rest.skip(end));
    assert forall|k: int| 0 <= k < after.len() implies is_white_space(#[trigger] after[k]) by {
        assert(after[k] == rest[end + k]);
    }
    assert forall|k: int| 0 <= k < before.len() implies is_white_space(#[trigger] before[k]) by {
        assert(before[k] == text[k]);
    }
    assert(text =~= before + trimmed(text) + after);
}

/// ASCII text in lower case has a small letter for every capital, and every other
/// character as it is.
pub proof fn lowercase_letters(text: Seq<char>)
    ensures
        is_ascii_chars(text) ==> lowercase(text).len() == text.len() && forall|i: int|
            0 <= i < text.len() ==> #[trigger] lowercase(text)[i] as u32 == if 0x41 <= text[i] as u32
                <= 0x5A {
                text[i] as u32 + 32
            } else {
                text[i] as u32 as int
            },
        !is_ascii_chars(text) ==> lowercase(text) == unicode_lowercase(text),
{
    if is_ascii_chars(text) {
        assert forall|i: int| 0 <= i < text.len() implies #[trigger] lowercase(text)[i] as u32
            == if 0x41 <= text[i] as u32 <= 0x5A {
            text[i] as u32 + 32
        } else {
            text[i] as u32 as int
        } by {
            lemma_ascii_lower(text[i]);
        }
    }
}

/// The code point of a character in lower case.
pub proof fn lemma_ascii_lower(c: char)
    ensures
        ascii_lower(c) as u32 == if 0x41 <= c as u32 <= 0x5A {
            c as u32 + 32
        } else {
            c as u32 as int
        },
{
}

/// Valid UTF-8 is the UTF-8 form of its text, and other bytes are repaired.
pub proof fn lossy_text_cases(bytes: Seq<u8>)
    ensures
        valid_utf8(bytes) ==> encode_utf8(lossy_text(bytes)) == bytes,
        !valid_utf8(bytes) ==> lossy_text(bytes) == repaired_text(bytes),
{
    if valid_utf8(bytes) {
        decode_utf8_encode_utf8(bytes);
    }
}

/// `String::from` on a string slice: trusted to give the same text.
pub assume_specification<'_0>[ <String as From<&'_0 str>>::from ](v: &str) -> (s: String)
    ensures
        s@ == v@,
;

/// The conversion of a type into itself: trusted to give its argument back.
pub assume_specification<Value>[ <Value as From<Value>>::from ](v: Value) -> (r: Value)
    ensures
        r == v,
;

} // verus!
