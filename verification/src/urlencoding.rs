//! Minimal percent-decoding for form/query values.

use vstd::prelude::*;
use vstd::utf8::*;

use crate::text;

verus! {

/// The value of a hexadecimal digit in either case.
pub open spec fn digit_value(digit: u8) -> Option<u8> {
    if 0x30 <= digit <= 0x39 {
        Some((digit - 0x30) as u8)
    } else if 0x41 <= digit <= 0x46 {
        Some((digit - 0x41 + 10) as u8)
    } else if 0x61 <= digit <= 0x66 {
        Some((digit - 0x61 + 10) as u8)
    } else {
        None
    }
}

/// What `input` decodes to. `+` (0x2B) stands for a space. `%` (0x25) and two
/// hexadecimal digits stand for a byte. A `%` that is not followed by two digits
/// stands for itself, and the two bytes behind it, or as many as there are, are
/// dropped.
pub open spec fn percent_decoded(input: Seq<u8>) -> Seq<u8>
    decreases input.len(),
{
    if input.len() == 0 {
        Seq::empty()
    } else if input[0] == 0x2B {
        seq![0x20u8] + percent_decoded(input.skip(1))
    } else if input[0] != 0x25 {
        seq![input[0]] + percent_decoded(input.skip(1))
    } else if input.len() < 3 {
        seq![0x25u8]
    } else {
        let byte = match (digit_value(input[1]), digit_value(input[2])) {
            (Some(high), Some(low)) => (high * 16 + low) as u8,
            _ => 0x25u8,
        };
        seq![byte] + percent_decoded(input.skip(3))
    }
}

/// Reads a hexadecimal digit.
fn hex_digit(digit: u8) -> (value: Option<u8>)
    ensures
        value == digit_value(digit),
        value matches Some(v) ==> v < 16,
{
    if 0x30 <= digit && digit <= 0x39 {
        Some(digit - 0x30)
    } else if 0x41 <= digit && digit <= 0x46 {
        Some(digit - 0x41 + 10)
    } else if 0x61 <= digit && digit <= 0x66 {
        Some(digit - 0x61 + 10)
    } else {
        None
    }
}

/// Percent-decodes raw bytes.
pub fn percent_decode(input: &[u8]) -> (bytes: Vec<u8>)
    ensures
        bytes@ == percent_decoded(input@),
{
    let mut bytes: Vec<u8> = Vec::with_capacity(input.len());
    let mut i: usize = 0;
    assert(input@.skip(0) =~= input@);
    assert(bytes@ + percent_decoded(input@) =~= percent_decoded(input@));
    while i < input.len()
        invariant
            i <= input@.len(),
            bytes@ + percent_decoded(input@.skip(i as int)) == percent_decoded(input@),
        decreases input@.len() - i,
    {
        let ghost rest = input@.skip(i as int);
        let ghost before = bytes@;
        let b: u8 = input[i];
        if b == 0x25 {
            if input.len() - i >= 3 {
                let byte: u8 = match (hex_digit(input[i + 1]), hex_digit(input[i + 2])) {
                    (Some(high), Some(low)) => high * 16 + low,
                    _ => 0x25,
                };
                bytes.push(byte);
                assert(rest.skip(3) =~= input@.skip(i + 3));
                assert(bytes@ + percent_decoded(rest.skip(3)) =~= before + percent_decoded(rest));
                i += 3;
            } else {
                bytes.push(0x25);
                i = input.len();
                assert(bytes@ + percent_decoded(input@.skip(i as int)) =~= before
                    + percent_decoded(rest));
            }
        } else {
            bytes.push(if b == 0x2B { 0x20 } else { b });
            assert(rest.skip(1) =~= input@.skip(i + 1));
            assert(bytes@ + percent_decoded(rest.skip(1)) =~= before + percent_decoded(rest));
            i += 1;
        }
    }
    assert(bytes@ + percent_decoded(input@.skip(i as int)) =~= bytes@);
    bytes
}

/// Minimal percent-decoding for form/query values.
/// Collects decoded bytes first, then converts to UTF-8 to handle multi-byte sequences.
pub fn urlencoding_decode(s: &str) -> (decoded: String)
    ensures
        decoded@ == decoded_text(s@),
        repairs_in_place(s@, decoded@),
        valid_utf8(percent_decoded(encode_utf8(s@))) ==> encode_utf8(decoded@) == percent_decoded(
            encode_utf8(s@),
        ),
        !valid_utf8(percent_decoded(encode_utf8(s@))) ==> decoded@ == text::repaired_text(
            percent_decoded(encode_utf8(s@)),
        ),
{
    let bytes = percent_decode(s.as_bytes());
    let decoded = text::to_text(bytes.as_slice());
    proof {
        text::lossy_text_cases(bytes@);
        assert forall|n: int|
            0 <= n <= s@.len() && !(#[trigger] s@.take(n)).contains('%') implies decoded@ == spaced(
            s@.take(n),
        ) + decoded_text(s@.skip(n)) by {
            let (a, b) = (s@.take(n), s@.skip(n));
            let front = encode_utf8(spaced(a));
            let behind = percent_decoded(encode_utf8(b));
            assert(a + b =~= s@);
            lemma_plain_front(a, b);
            assert(bytes@.take(front.len() as int) =~= front);
            assert(bytes@.skip(front.len() as int) =~= behind);
            encode_utf8_valid_utf8(spaced(a));
            encode_utf8_decode_utf8(spaced(a));
        }
    }
    decoded
}

/// The text that an encoded value stands for.
pub open spec fn decoded_text(value: Seq<char>) -> Seq<char> {
    text::lossy_text(percent_decoded(encode_utf8(value)))
}

/// Whether `decoded` shows with U+FFFD that `value` does not decode to valid UTF-8, and
/// starts with what stands before any `%` in `value`, each `+` as a space, followed by
/// what the rest decodes to.
pub open spec fn repairs_in_place(value: Seq<char>, decoded: Seq<char>) -> bool {
    &&& valid_utf8(percent_decoded(encode_utf8(value))) || decoded.contains('\u{FFFD}')
    &&& forall|n: int|
        0 <= n <= value.len() && !(#[trigger] value.take(n)).contains('%') ==> decoded == spaced(
            value.take(n),
        ) + decoded_text(value.skip(n))
}

/// The hexadecimal digit for a value below 16.
pub open spec fn digit_of(value: int, upper: bool) -> u8 {
    if value < 10 {
        (0x30 + value) as u8
    } else if upper {
        (0x41 + value - 10) as u8
    } else {
        (0x61 + value - 10) as u8
    }
}

/// Every byte of `data` written as `%` and two digits.
pub open spec fn escaped(data: Seq<u8>, upper: bool) -> Seq<u8>
    decreases data.len(),
{
    if data.len() == 0 {
        Seq::empty()
    } else {
        seq![
            0x25u8,
            digit_of(data[0] as int / 16, upper),
            digit_of(data[0] as int % 16, upper),
        ] + escaped(data.skip(1), upper)
    }
}

/// Escaping any bytes, with digits in either case, is undone by decoding.
pub proof fn escape_round_trip(data: Seq<u8>, upper: bool)
    ensures
        percent_decoded(escaped(data, upper)) == data,
    decreases data.len(),
{
    if data.len() == 0 {
        assert(data =~= Seq::empty());
    } else {
        let code = escaped(data, upper);
        let tail = escaped(data.skip(1), upper);
        escape_round_trip(data.skip(1), upper);
        assert(code.skip(3) =~= tail);
        assert(seq![data[0]] + data.skip(1) =~= data);
    }
}

/// Text of any script, escaped byte by byte, decodes to that text.
pub proof fn escaped_text_round_trip(value: Seq<char>, plain: Seq<char>, upper: bool)
    requires
        encode_utf8(value) == escaped(encode_utf8(plain), upper),
    ensures
        decoded_text(value) == plain,
{
    escape_round_trip(encode_utf8(plain), upper);
    text::lossy_text_of_utf8(plain);
}

/// The bytes with a space in place of every `+`.
pub open spec fn spaced_bytes(input: Seq<u8>) -> Seq<u8> {
    input.map_values(
        |b: u8|
            if b == 0x2B {
                0x20u8
            } else {
                b
            },
    )
}

/// The text with a space in place of every `+`.
pub open spec fn spaced(value: Seq<char>) -> Seq<char> {
    value.map_values(
        |c: char|
            if c == '+' {
                ' '
            } else {
                c
            },
    )
}

/// Bytes without `%` decode apart from the bytes behind them.
pub proof fn plain_front_bytes(front: Seq<u8>, behind: Seq<u8>)
    requires
        !front.contains(0x25),
    ensures
        percent_decoded(front + behind) == spaced_bytes(front) + percent_decoded(behind),
    decreases front.len(),
{
    if front.len() == 0 {
        assert(front + behind =~= behind);
        assert(spaced_bytes(front) + percent_decoded(behind) =~= percent_decoded(behind));
    } else {
        let tail = front.skip(1);
        assert(front.contains(front[0]));
        assert(!tail.contains(0x25)) by {
            assert(forall|i: int| 0 <= i < tail.len() ==> tail[i] == front[i + 1]);
        }
        plain_front_bytes(tail, behind);
        assert((front + behind).skip(1) =~= tail + behind);
        assert(spaced_bytes(front) + percent_decoded(behind) =~= seq![spaced_bytes(front)[0]] + (
        spaced_bytes(tail) + percent_decoded(behind)));
    }
}

/// Bytes without `%` keep their places, and every `+` becomes a space.
pub proof fn plus_means_space(input: Seq<u8>)
    requires
        !input.contains(0x25),
    ensures
        percent_decoded(input) == spaced_bytes(input),
{
    plain_front_bytes(input, Seq::empty());
    assert(input + Seq::<u8>::empty() =~= input);
    assert(spaced_bytes(input) + Seq::<u8>::empty() =~= spaced_bytes(input));
}

/// The UTF-8 form of a character holds an ASCII byte only if it is that character.
proof fn lemma_scalar_bytes(c: u32, i: int)
    requires
        0 <= i < encode_scalar(c).len(),
    ensures
        encode_scalar(c)[i] >= 0x80 || encode_scalar(c)[i] == c,
{
    assert((0x80u8 | (c & 0x3F) as u8) >= 0x80) by (bit_vector);
    assert((0x80u8 | ((c >> 6) & 0x3F) as u8) >= 0x80) by (bit_vector);
    assert((0x80u8 | ((c >> 12) & 0x3F) as u8) >= 0x80) by (bit_vector);
    assert((0xC0u8 | ((c >> 6) & 0x1F) as u8) >= 0x80) by (bit_vector);
    assert((0xE0u8 | ((c >> 12) & 0x0F) as u8) >= 0x80) by (bit_vector);
    assert((0xF0u8 | ((c >> 18) & 0x7) as u8) >= 0x80) by (bit_vector);
    assert(c <= 0x7f ==> (c & 0x7F) as u8 == c) by (bit_vector);
}

/// The UTF-8 form of a character holds the byte of another ASCII character nowhere.
proof fn lemma_absent_scalar(c: char, other: char, i: int)
    requires
        c != other,
        (other as u32) < 0x80,
        0 <= i < encode_scalar(c as u32).len(),
    ensures
        encode_scalar(c as u32)[i] != other as u32,
{
    lemma_scalar_bytes(c as u32, i);
}

/// The bytes of a text hold an ASCII character only where the text does.
proof fn lemma_absent_byte(value: Seq<char>, c: char)
    requires
        !value.contains(c),
        (c as u32) < 0x80,
    ensures
        forall|i: int|
            0 <= i < encode_utf8(value).len() ==> #[trigger] encode_utf8(value)[i] != c as u32,
    decreases value.len(),
{
    if value.len() > 0 {
        let tail = value.drop_first();
        assert(forall|j: int| 0 <= j < tail.len() ==> tail[j] == value[j + 1]);
        lemma_absent_byte(tail, c);
        let head = encode_scalar(value[0] as u32);
        assert(value[0] != c);
        assert forall|i: int| 0 <= i < encode_utf8(value).len() implies #[trigger] encode_utf8(
            value,
        )[i] != c as u32 by {
            if i < head.len() {
                lemma_absent_scalar(value[0], c, i);
            } else {
                assert(encode_utf8(value)[i] == encode_utf8(tail)[i - head.len()]);
            }
        }
    }
}

/// Putting a space for `+` in a text is the same as doing so in its bytes.
proof fn lemma_spaced_utf8(value: Seq<char>)
    ensures
        encode_utf8(spaced(value)) == spaced_bytes(encode_utf8(value)),
    decreases value.len(),
{
    if value.len() == 0 {
        assert(spaced_bytes(encode_utf8(value)) =~= Seq::empty());
    } else {
        let tail = value.drop_first();
        let head = encode_scalar(value[0] as u32);
        lemma_spaced_utf8(tail);
        assert(spaced(value).drop_first() =~= spaced(tail));
        assert(spaced_bytes(head + encode_utf8(tail)) =~= spaced_bytes(head) + spaced_bytes(
            encode_utf8(tail),
        ));
        assert(spaced_bytes(head) =~= encode_scalar(spaced(value)[0] as u32)) by {
            if value[0] == '+' {
                assert((0x2Bu32 & 0x7F) as u8 == 0x2B) by (bit_vector);
                assert((0x20u32 & 0x7F) as u8 == 0x20) by (bit_vector);
            } else {
                assert forall|i: int| 0 <= i < head.len() implies head[i] != 0x2B by {
                    lemma_absent_scalar(value[0], '+', i);
                }
            }
        }
    }
}

/// What a text without `%`, and a text behind it, decode to.
proof fn lemma_plain_front(a: Seq<char>, b: Seq<char>)
    requires
        !a.contains('%'),
    ensures
        percent_decoded(encode_utf8(a + b)) == encode_utf8(spaced(a)) + percent_decoded(
            encode_utf8(b),
        ),
{
    lemma_absent_byte(a, '%');
    text::utf8_of_concat(a, b);
    plain_front_bytes(encode_utf8(a), encode_utf8(b));
    lemma_spaced_utf8(a);
}

/// A text without `%` decodes to itself with every `+` as a space.
pub proof fn plus_text_means_space(value: Seq<char>)
    requires
        !value.contains('%'),
    ensures
        percent_decoded(encode_utf8(value)) == encode_utf8(spaced(value)),
        decoded_text(value) == spaced(value),
{
    lemma_absent_byte(value, '%');
    plus_means_space(encode_utf8(value));
    lemma_spaced_utf8(value);
    text::lossy_text_of_utf8(spaced(value));
}

/// A text without `%` decodes apart from the text behind it, byte for byte.
pub proof fn plain_front_decodes_apart(a: Seq<char>, b: Seq<char>)
    requires
        !a.contains('%'),
    ensures
        percent_decoded(encode_utf8(a + b)) == percent_decoded(encode_utf8(a)) + percent_decoded(
            encode_utf8(b),
        ),
{
    lemma_plain_front(a, b);
    plus_text_means_space(a);
}

/// A text without `%` decodes apart from the text behind it, where that decodes to valid
/// UTF-8.
pub proof fn plain_front_text_decodes_apart(a: Seq<char>, b: Seq<char>)
    requires
        !a.contains('%'),
        valid_utf8(percent_decoded(encode_utf8(b))),
    ensures
        decoded_text(a + b) == decoded_text(a) + decoded_text(b),
{
    let behind = percent_decoded(encode_utf8(b));
    lemma_plain_front(a, b);
    plus_text_means_space(a);
    decode_utf8_encode_utf8(behind);
    text::utf8_of_concat(spaced(a), decode_utf8(behind));
    text::lossy_text_of_utf8(spaced(a) + decode_utf8(behind));
}

/// Text without `%` and `+` decodes to itself.
pub proof fn plain_text_unchanged(value: Seq<char>)
    requires
        !value.contains('%'),
        !value.contains('+'),
    ensures
        decoded_text(value) == value,
{
    plus_text_means_space(value);
    assert forall|i: int| 0 <= i < value.len() implies spaced(value)[i] == value[i] by {
        assert(value.contains(value[i]));
    }
    assert(spaced(value) =~= value);
}

/// Nothing decodes to nothing, and a byte other than `%` stands for itself, but for `+`,
/// which stands for a space, wherever it is; what follows decodes as it would alone.
pub proof fn plain_byte_then_rest(b: u8, rest: Seq<u8>)
    ensures
        percent_decoded(Seq::empty()) == Seq::<u8>::empty(),
        b == 0x2B ==> percent_decoded(seq![b] + rest) == seq![0x20u8] + percent_decoded(rest),
        b != 0x2B && b != 0x25 ==> percent_decoded(seq![b] + rest) == seq![b] + percent_decoded(rest),
{
    assert((seq![b] + rest).skip(1) =~= rest);
}

/// `%` and two hexadecimal digits, in either case, stand for the byte that they spell; what
/// follows decodes as it would alone.
pub proof fn digits_then_rest(high: u8, low: u8, h: int, l: int, rest: Seq<u8>)
    requires
        (0 <= h <= 9 && high == 0x30 + h) || (10 <= h <= 15 && (high == 0x37 + h || high == 0x57
            + h)),
        (0 <= l <= 9 && low == 0x30 + l) || (10 <= l <= 15 && (low == 0x37 + l || low == 0x57 + l)),
    ensures
        percent_decoded(seq![0x25u8, high, low] + rest) == seq![(16 * h + l) as u8]
            + percent_decoded(rest),
{
    assert((seq![0x25u8, high, low] + rest).skip(3) =~= rest);
}

/// An escaped byte decodes to the byte; what follows decodes as it would alone.
pub proof fn escape_then_rest(b: u8, rest: Seq<u8>, upper: bool)
    ensures
        percent_decoded(escaped(seq![b], upper) + rest) == seq![b] + percent_decoded(rest),
{
    let (h, l) = (b as int / 16, b as int % 16);
    let (high, low) = (digit_of(h, upper), digit_of(l, upper));
    assert(seq![b].skip(1) =~= Seq::empty());
    assert(escaped(Seq::empty(), upper) == Seq::<u8>::empty());
    assert(escaped(seq![b], upper) =~= seq![0x25u8, high, low]);
    digits_then_rest(high, low, h, l, rest);
}

/// A `%` before two bytes that are not both hexadecimal digits stands for itself, and the
/// two are dropped; what follows decodes as it would alone.
pub proof fn bad_escape_then_rest(high: u8, low: u8, rest: Seq<u8>)
    requires
        (!(0x30 <= high <= 0x39) && !(0x41 <= high <= 0x46) && !(0x61 <= high <= 0x66)) || (!(0x30
            <= low <= 0x39) && !(0x41 <= low <= 0x46) && !(0x61 <= low <= 0x66)),
    ensures
        percent_decoded(seq![0x25u8, high, low] + rest) == seq![0x25u8] + percent_decoded(rest),
{
    assert((seq![0x25u8, high, low] + rest).skip(3) =~= rest);
}

/// A `%` with fewer than two bytes behind it stands for itself, and what is behind it is
/// dropped.
pub proof fn cut_escape(b: u8)
    ensures
        percent_decoded(seq![0x25u8]) == seq![0x25u8],
        percent_decoded(seq![0x25u8, b]) == seq![0x25u8],
{
}

/// A value stands for the text in the bytes that it decodes to.
pub proof fn decoded_bytes(value: Seq<char>)
    ensures
        valid_utf8(percent_decoded(encode_utf8(value))) ==> encode_utf8(decoded_text(value))
            == percent_decoded(encode_utf8(value)),
        !valid_utf8(percent_decoded(encode_utf8(value))) ==> decoded_text(value)
            == text::repaired_text(percent_decoded(encode_utf8(value))),
{
    text::lossy_text_cases(percent_decoded(encode_utf8(value)));
}

/// A text without `%` decodes to a text of the same length, with a space for each `+` and
/// every other character in its place.
pub proof fn plus_chars_mean_space(value: Seq<char>)
    requires
        !value.contains('%'),
    ensures
        decoded_text(value).len() == value.len(),
        forall|i: int|
            0 <= i < value.len() ==> #[trigger] decoded_text(value)[i] == if value[i] == '+' {
                ' '
            } else {
                value[i]
            },
{
    plus_text_means_space(value);
}

} // verus!
