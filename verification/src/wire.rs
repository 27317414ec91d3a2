//! The binary framing shared by requests and responses: little-endian integers,
//! length-prefixed blocks, and counted lists of key/value pairs.

use vstd::prelude::*;
use vstd::utf8::*;

use crate::text;

verus! {

/// Maximum number of headers or path params allowed in wire format decoding.
/// Prevents unbounded allocation from crafted payloads.
pub const MAX_WIRE_ITEMS: usize = 1024;

/// A key and a value as text.
pub type TextPair = (Seq<char>, Seq<char>);

/// The text of each pair, in order.
pub open spec fn pairs_view(pairs: Seq<(String, String)>) -> Seq<TextPair> {
    Seq::new(pairs.len(), |i: int| (pairs[i].0@, pairs[i].1@))
}

/// A copy of the pairs.
pub(crate) fn copy_pairs(pairs: &Vec<(String, String)>) -> (copy: Vec<(String, String)>)
    ensures
        copy@ == pairs@,
{
    let mut copy: Vec<(String, String)> = Vec::with_capacity(pairs.len());
    let mut i: usize = 0;
    while i < pairs.len()
        invariant
            i <= pairs@.len(),
            copy@ == pairs@.take(i as int),
        decreases pairs@.len() - i,
    {
        let pair = &pairs[i];
        copy.push((pair.0.clone(), pair.1.clone()));
        assert(copy@ =~= pairs@.take(i + 1));
        i += 1;
    }
    assert(copy@ =~= pairs@);
    copy
}

// ---------------------------------------------------------------------------
// Encoding
// ---------------------------------------------------------------------------

/// `value` in two bytes, least significant first.
pub open spec fn u16_bytes(value: u16) -> Seq<u8> {
    seq![(value % 256) as u8, (value / 256) as u8]
}

/// `value` in four bytes, least significant first.
pub open spec fn u32_bytes(value: u32) -> Seq<u8> {
    seq![
        (value % 256) as u8,
        (value / 0x100 % 256) as u8,
        (value / 0x1_0000 % 256) as u8,
        (value / 0x100_0000) as u8,
    ]
}

/// A length or a count as it stands on the wire: its low 32 bits.
pub open spec fn count_bytes(count: nat) -> Seq<u8> {
    u32_bytes((count % 0x1_0000_0000) as u32)
}

/// `[u32 len] [data]`
pub open spec fn block_bytes(data: Seq<u8>) -> Seq<u8> {
    count_bytes(data.len()) + data
}

/// A block that holds `text` in UTF-8.
#[verifier::opaque]
pub open spec fn text_bytes(text: Seq<char>) -> Seq<u8> {
    block_bytes(encode_utf8(text))
}

/// `[u32 key_len] [key] [u32 val_len] [val]`
pub open spec fn pair_bytes(pair: TextPair) -> Seq<u8> {
    text_bytes(pair.0) + text_bytes(pair.1)
}

/// The pairs one after another.
pub open spec fn pairs_bytes(pairs: Seq<TextPair>) -> Seq<u8>
    decreases pairs.len(),
{
    if pairs.len() == 0 {
        Seq::empty()
    } else {
        pair_bytes(pairs[0]) + pairs_bytes(pairs.skip(1))
    }
}

/// `[u32 count] ([u32 key_len] [key] [u32 val_len] [val])*`
pub open spec fn list_bytes(pairs: Seq<TextPair>) -> Seq<u8> {
    count_bytes(pairs.len()) + pairs_bytes(pairs)
}

/// Appends `value` in two bytes.
pub(crate) fn write_u16(buf: &mut Vec<u8>, value: u16)
    ensures
        final(buf)@ == old(buf)@ + u16_bytes(value),
{
    buf.push((value % 256) as u8);
    buf.push((value / 256) as u8);
}

/// Appends a length or a count in four bytes.
pub(crate) fn write_count(buf: &mut Vec<u8>, count: usize)
    ensures
        final(buf)@ == old(buf)@ + count_bytes(count as nat),
{
    let value: u32 = (count as u64 % 0x1_0000_0000) as u32;
    buf.push((value % 256) as u8);
    buf.push((value / 0x100 % 256) as u8);
    buf.push((value / 0x1_0000 % 256) as u8);
    buf.push((value / 0x100_0000) as u8);
}

/// Appends raw bytes.
pub(crate) fn write_bytes(buf: &mut Vec<u8>, data: &[u8])
    ensures
        final(buf)@ == old(buf)@ + data@,
{
    buf.extend_from_slice(data);
    assert(buf@ =~= old(buf)@ + data@);
}

/// Appends `data` behind its length.
pub fn write_length_prefixed(buf: &mut Vec<u8>, data: &[u8])
    ensures
        final(buf)@ == old(buf)@ + block_bytes(data@),
{
    write_count(buf, data.len());
    write_bytes(buf, data);
    assert(buf@ =~= old(buf)@ + block_bytes(data@));
}

/// Appends `text` in UTF-8 behind its length.
pub(crate) fn write_text(buf: &mut Vec<u8>, text: &str)
    ensures
        final(buf)@ == old(buf)@ + text_bytes(text@),
{
    reveal(text_bytes);
    write_length_prefixed(buf, text.as_bytes());
}

/// Appends a counted list of pairs.
pub(crate) fn write_pairs(buf: &mut Vec<u8>, pairs: &Vec<(String, String)>)
    ensures
        final(buf)@ == old(buf)@ + list_bytes(pairs_view(pairs@)),
{
    let ghost all = pairs_view(pairs@);
    write_count(buf, pairs.len());
    let mut i: usize = 0;
    assert(all.skip(0) =~= all);
    while i < pairs.len()
        invariant
            i <= pairs.len(),
            all == pairs_view(pairs@),
            buf@ + pairs_bytes(all.skip(i as int)) == old(buf)@ + list_bytes(all),
        decreases pairs.len() - i,
    {
        let pair = &pairs[i];
        let ghost before = buf@;
        write_text(buf, pair.0.as_str());
        write_text(buf, pair.1.as_str());
        proof {
            let rest = all.skip(i as int);
            assert(rest[0] == all[i as int]);
            assert(rest.skip(1) =~= all.skip(i + 1));
            assert(buf@ + pairs_bytes(all.skip(i + 1)) =~= before + (pair_bytes(rest[0])
                + pairs_bytes(rest.skip(1))));
        }
        i += 1;
    }
    assert(buf@ + pairs_bytes(all.skip(i as int)) =~= buf@);
}

// ---------------------------------------------------------------------------
// Decoding
// ---------------------------------------------------------------------------

/// The number that the first two bytes hold.
pub open spec fn u16_value(input: Seq<u8>) -> u16 {
    (input[0] + 0x100 * input[1]) as u16
}

/// The number that the first four bytes hold.
pub open spec fn u32_value(input: Seq<u8>) -> u32 {
    (input[0] + 0x100 * input[1] + 0x1_0000 * input[2] + 0x100_0000 * input[3]) as u32
}

/// Takes a number off the front of `input`; gives it and what is left.
pub open spec fn take_u32(input: Seq<u8>) -> Option<(u32, Seq<u8>)> {
    if input.len() < 4 {
        None
    } else {
        Some((u32_value(input), input.skip(4)))
    }
}

/// Takes a length-prefixed block off the front of `input`.
pub open spec fn take_block(input: Seq<u8>) -> Option<(Seq<u8>, Seq<u8>)> {
    match take_u32(input) {
        Some((len, rest)) => if len <= rest.len() {
            Some((rest.take(len as int), rest.skip(len as int)))
        } else {
            None
        },
        None => None,
    }
}

/// Takes a block of text off the front of `input`.
#[verifier::opaque]
pub open spec fn take_text(input: Seq<u8>) -> Option<(Seq<char>, Seq<u8>)> {
    match take_block(input) {
        Some((data, rest)) => Some((text::lossy_text(data), rest)),
        None => None,
    }
}

/// Takes a key and a value off the front of `input`.
pub open spec fn take_pair(input: Seq<u8>) -> Option<(TextPair, Seq<u8>)> {
    match take_text(input) {
        Some((key, rest)) => match take_text(rest) {
            Some((val, rest)) => Some(((key, val), rest)),
            None => None,
        },
        None => None,
    }
}

/// Takes `count` pairs off the front of `input`.
pub open spec fn take_pairs(input: Seq<u8>, count: nat) -> Option<(Seq<TextPair>, Seq<u8>)>
    decreases count,
{
    if count == 0 {
        Some((Seq::empty(), input))
    } else {
        match take_pair(input) {
            Some((pair, rest)) => match take_pairs(rest, (count - 1) as nat) {
                Some((pairs, rest)) => Some((seq![pair] + pairs, rest)),
                None => None,
            },
            None => None,
        }
    }
}

/// Takes a counted list of at most `MAX_WIRE_ITEMS` pairs off the front of `input`.
pub open spec fn take_list(input: Seq<u8>) -> Option<(Seq<TextPair>, Seq<u8>)> {
    match take_u32(input) {
        Some((count, rest)) => if count <= MAX_WIRE_ITEMS {
            take_pairs(rest, count as nat)
        } else {
            None
        },
        None => None,
    }
}

/// Whether the block at the front of `input` is valid UTF-8.
pub open spec fn holds_utf8(input: Seq<u8>) -> bool {
    take_block(input) matches Some((data, rest)) && valid_utf8(data)
}

/// Whether the next `count` pairs in `input` are valid UTF-8.
pub open spec fn pairs_hold_utf8(input: Seq<u8>, count: nat) -> bool
    decreases count,
{
    count > 0 ==> {
        &&& holds_utf8(input)
        &&& take_text(input) matches Some((key, rest)) ==> {
            &&& holds_utf8(rest)
            &&& take_text(rest) matches Some((val, rest)) ==> pairs_hold_utf8(
                rest,
                (count - 1) as nat,
            )
        }
    }
}

/// Whether the list at the front of `input` is all valid UTF-8.
pub open spec fn list_holds_utf8(input: Seq<u8>) -> bool {
    take_u32(input) matches Some((count, rest)) ==> pairs_hold_utf8(rest, count as nat)
}

/// Whether a text holds no U+FFFD, which stands for what is not valid UTF-8.
pub open spec fn is_clean(text: Seq<char>) -> bool {
    !text.contains('\u{FFFD}')
}

/// Whether no key and no value holds U+FFFD.
pub open spec fn pairs_clean(pairs: Seq<TextPair>) -> bool {
    forall|i: int| #![trigger pairs[i]]
        0 <= i < pairs.len() ==> is_clean(pairs[i].0) && is_clean(pairs[i].1)
}

/// Reads a number at `pos` and moves behind it. Without four more bytes there is no
/// number, and `pos` stays.
pub fn read_u32(bytes: &[u8], pos: &mut usize) -> (value: Option<u32>)
    ensures
        value is Some <==> *old(pos) + 4 <= bytes@.len(),
        value matches Some(v) ==> v == u32_value(bytes@.skip(*old(pos) as int)) && *final(pos)
            == *old(pos) + 4,
        value is None ==> *final(pos) == *old(pos),
{
    let at: usize = *pos;
    if at > bytes.len() || bytes.len() - at < 4 {
        return None;
    }
    let value: u32 = bytes[at] as u32 + 0x100 * bytes[at + 1] as u32 + 0x1_0000 * bytes[at
        + 2] as u32 + 0x100_0000 * bytes[at + 3] as u32;
    *pos = at + 4;
    Some(value)
}

/// Reads a length-prefixed text at `pos` and moves behind it. Where the bytes end
/// before the length, `pos` stays; where they end within the text, it has moved
/// behind the length.
pub fn read_length_prefixed_str(bytes: &[u8], pos: &mut usize) -> (value: Option<String>)
    ensures
        *old(pos) <= bytes@.len() ==> *final(pos) <= bytes@.len(),
        *old(pos) > bytes@.len() ==> value is None && *final(pos) == *old(pos),
        *old(pos) <= bytes@.len() ==> match (value, take_text(bytes@.skip(*old(pos) as int))) {
            (Some(s), Some((text, rest))) => s@ == text && rest == bytes@.skip(*final(pos) as int),
            (None, None) => *final(pos) == if *old(pos) + 4 <= bytes@.len() {
                *old(pos) + 4
            } else {
                *old(pos) as int
            },
            _ => false,
        },
        value matches Some(s) ==> holds_utf8(bytes@.skip(*old(pos) as int)) || !is_clean(s@),
{
    reveal(take_text);
    let len: usize = match read_u32(bytes, pos) {
        Some(len) => len as usize,
        None => return None,
    };
    let start: usize = *pos;
    let ghost input = bytes@.skip(*old(pos) as int);
    assert(input.skip(4) =~= bytes@.skip(start as int));
    if bytes.len() - start < len {
        return None;
    }
    let data = vstd::slice::slice_subrange(bytes, start, start + len);
    let text = text::to_text(data);
    *pos = start + len;
    assert(data@ =~= input.skip(4).take(len as int));
    assert(bytes@.skip(start + len) =~= input.skip(4).skip(len as int));
    Some(text)
}

/// Where pairs hold no U+FFFD, neither do the last pair and those before it.
proof fn lemma_push_clean(pairs: Seq<TextPair>, pair: TextPair)
    requires
        pairs_clean(pairs.push(pair)),
    ensures
        pairs_clean(pairs),
        is_clean(pair.0),
        is_clean(pair.1),
{
    let all = pairs.push(pair);
    assert(all[pairs.len() as int] == pair);
    assert forall|i: int| #![trigger pairs[i]] 0 <= i < pairs.len() implies is_clean(pairs[i].0)
        && is_clean(pairs[i].1) by {
        assert(all[i] == pairs[i]);
    }
}

/// Reads a counted list of pairs at `pos` and moves behind it. A count beyond
/// `MAX_WIRE_ITEMS` is refused before anything is read or allocated for it.
pub(crate) fn read_pairs(bytes: &[u8], pos: &mut usize) -> (list: Option<Vec<(String, String)>>)
    requires
        *old(pos) <= bytes@.len(),
    ensures
        *final(pos) <= bytes@.len(),
        match (list, take_list(bytes@.skip(*old(pos) as int))) {
            (Some(v), Some((pairs, rest))) => pairs_view(v@) == pairs && rest == bytes@.skip(
                *final(pos) as int,
            ),
            (None, None) => true,
            _ => false,
        },
        list matches Some(v) ==> list_holds_utf8(bytes@.skip(*old(pos) as int)) || !pairs_clean(
            pairs_view(v@),
        ),
{
    let ghost input = bytes@.skip(*old(pos) as int);
    let count: usize = match read_u32(bytes, pos) {
        Some(count) => count as usize,
        None => return None,
    };
    if count > MAX_WIRE_ITEMS {
        return None;
    }
    let ghost body = bytes@.skip(*pos as int);
    assert(input.skip(4) =~= body);
    let mut pairs: Vec<(String, String)> = Vec::with_capacity(count);
    assert(pairs_view(pairs@) =~= Seq::empty());
    let mut i: usize = 0;
    assert(match take_pairs(body, count as nat) {
        Some((all, rest)) => all =~= pairs_view(pairs@) + all,
        None => true,
    });
    while i < count
        invariant
            i <= count,
            *pos <= bytes@.len(),
            input == bytes@.skip(*old(pos) as int),
            take_list(input) == take_pairs(body, count as nat),
            match take_pairs(bytes@.skip(*pos as int), (count - i) as nat) {
                Some((more, rest)) => take_pairs(body, count as nat) == Some(
                    (pairs_view(pairs@) + more, rest),
                ),
                None => take_pairs(body, count as nat) is None,
            },
            list_holds_utf8(input) == pairs_hold_utf8(body, count as nat),
            pairs_clean(pairs_view(pairs@)) && pairs_hold_utf8(
                bytes@.skip(*pos as int),
                (count - i) as nat,
            ) ==> pairs_hold_utf8(body, count as nat),
        decreases count - i,
    {
        let ghost at = bytes@.skip(*pos as int);
        let ghost before = pairs_view(pairs@);
        let key = match read_length_prefixed_str(bytes, pos) {
            Some(key) => key,
            None => return None,
        };
        let val = match read_length_prefixed_str(bytes, pos) {
            Some(val) => val,
            None => return None,
        };
        let ghost pair = (key@, val@);
        pairs.push((key, val));
        proof {
            assert(pairs_view(pairs@) =~= before.push(pair));
            let after = bytes@.skip(*pos as int);
            assert(take_pair(at) == Some((pair, after)));
            if let Some((more, rest)) = take_pairs(after, (count - i - 1) as nat) {
                assert(before + (seq![pair] + more) =~= before.push(pair) + more);
            }
            if pairs_clean(before.push(pair)) {
                lemma_push_clean(before, pair);
            }
        }
        i += 1;
    }
    assert(pairs_view(pairs@) + Seq::<TextPair>::empty() =~= pairs_view(pairs@));
    Some(pairs)
}

// ---------------------------------------------------------------------------
// What decoding makes of what was encoded
// ---------------------------------------------------------------------------

/// Whether the length of `text` in UTF-8 fits into its length prefix.
pub open spec fn text_fits(text: Seq<char>) -> bool {
    encode_utf8(text).len() < 0x1_0000_0000
}

/// Whether every key and every value fits behind its length prefix.
pub open spec fn pairs_fit(pairs: Seq<TextPair>) -> bool {
    forall|i: int| #![trigger pairs[i]]
        0 <= i < pairs.len() ==> text_fits(pairs[i].0) && text_fits(pairs[i].1)
}

/// A number comes back from its four bytes, whatever follows them.
pub proof fn u32_round_trip(value: u32, rest: Seq<u8>)
    ensures
        take_u32(u32_bytes(value) + rest) == Some((value, rest)),
{
    let input = u32_bytes(value) + rest;
    assert(input.skip(4) =~= rest);
    assert(value == value % 256 + 0x100 * (value / 0x100 % 256) + 0x1_0000 * (value / 0x1_0000
        % 256) + 0x100_0000 * (value / 0x100_0000)) by (nonlinear_arith);
}

/// A number comes back from its two bytes, whatever follows them.
pub proof fn u16_round_trip(value: u16, rest: Seq<u8>)
    ensures
        u16_value(u16_bytes(value) + rest) == value,
        (u16_bytes(value) + rest).skip(2) == rest,
{
    assert((u16_bytes(value) + rest).skip(2) =~= rest);
}

/// A block comes back with its data, as long as the length prefix can hold its length.
pub proof fn block_round_trip(data: Seq<u8>, rest: Seq<u8>)
    requires
        data.len() < 0x1_0000_0000,
    ensures
        take_block(block_bytes(data) + rest) == Some((data, rest)),
{
    lemma_count_round_trip(data.len(), data, rest);
    assert((data + rest).take(data.len() as int) =~= data);
    assert((data + rest).skip(data.len() as int) =~= rest);
}

/// Text comes back as it was written.
pub proof fn text_round_trip(text: Seq<char>, rest: Seq<u8>)
    requires
        text_fits(text),
    ensures
        take_text(text_bytes(text) + rest) == Some((text, rest)),
{
    reveal(text_bytes);
    reveal(take_text);
    block_round_trip(encode_utf8(text), rest);
    text::lossy_text_of_utf8(text);
}

/// Bytes that need not be UTF-8 come back as the text that they are taken for.
pub proof fn lossy_round_trip(data: Seq<u8>, rest: Seq<u8>)
    requires
        data.len() < 0x1_0000_0000,
    ensures
        take_text(block_bytes(data) + rest) == Some((text::lossy_text(data), rest)),
{
    reveal(take_text);
    block_round_trip(data, rest);
}

/// A pair comes back as it was written.
pub proof fn pair_round_trip(pair: TextPair, rest: Seq<u8>)
    requires
        text_fits(pair.0),
        text_fits(pair.1),
    ensures
        take_pair(pair_bytes(pair) + rest) == Some((pair, rest)),
{
    let key = text_bytes(pair.0);
    let val = text_bytes(pair.1);
    text_round_trip(pair.1, rest);
    text_round_trip(pair.0, val + rest);
    lemma_add_assoc(key, val, rest);
}

/// A pair, and a run of pairs behind it, make a run that is longer by one.
proof fn lemma_take_pairs_step(
    input: Seq<u8>,
    pair: TextPair,
    after: Seq<u8>,
    tail: Seq<TextPair>,
    rest: Seq<u8>,
)
    requires
        take_pair(input) == Some((pair, after)),
        take_pairs(after, tail.len()) == Some((tail, rest)),
    ensures
        take_pairs(input, tail.len() + 1) == Some((seq![pair] + tail, rest)),
{
}

/// A run of pairs comes back in order.
pub proof fn pairs_round_trip(pairs: Seq<TextPair>, rest: Seq<u8>)
    requires
        pairs_fit(pairs),
    ensures
        take_pairs(pairs_bytes(pairs) + rest, pairs.len()) == Some((pairs, rest)),
    decreases pairs.len(),
{
    if pairs.len() == 0 {
        assert(pairs =~= Seq::empty());
        assert(pairs_bytes(pairs) + rest =~= rest);
    } else {
        let tail = pairs.skip(1);
        assert forall|i: int| #![trigger tail[i]] 0 <= i < tail.len() implies text_fits(tail[i].0)
            && text_fits(tail[i].1) by {
            assert(tail[i] == pairs[i + 1]);
        }
        let after = pairs_bytes(tail) + rest;
        let input = pairs_bytes(pairs) + rest;
        pairs_round_trip(tail, rest);
        assert(take_pair(input) == Some((pairs[0], after))) by {
            pair_round_trip(pairs[0], after);
            lemma_add_assoc(pair_bytes(pairs[0]), pairs_bytes(tail), rest);
        }
        lemma_take_pairs_step(input, pairs[0], after, tail, rest);
        assert(seq![pairs[0]] + tail =~= pairs);
    }
}

/// A count comes back from what stands before `body`.
pub proof fn lemma_count_round_trip(count: nat, body: Seq<u8>, rest: Seq<u8>)
    requires
        count < 0x1_0000_0000,
    ensures
        take_u32(count_bytes(count) + body + rest) == Some((count as u32, body + rest)),
{
    u32_round_trip(count as u32, body + rest);
    lemma_add_assoc(u32_bytes(count as u32), body, rest);
}

/// A run of pairs has as many pairs as were asked for.
pub proof fn lemma_pairs_len(input: Seq<u8>, count: nat)
    ensures
        take_pairs(input, count) matches Some((pairs, rest)) ==> pairs.len() == count,
    decreases count,
{
    if count > 0 {
        if let Some((pair, rest)) = take_pair(input) {
            lemma_pairs_len(rest, (count - 1) as nat);
        }
    }
}

/// A list has at most `MAX_WIRE_ITEMS` pairs.
pub proof fn lemma_list_len(input: Seq<u8>)
    ensures
        take_list(input) matches Some((pairs, rest)) ==> pairs.len() <= MAX_WIRE_ITEMS,
{
    if let Some((count, rest)) = take_u32(input) {
        lemma_pairs_len(rest, count as nat);
    }
}

/// Concatenation is associative.
pub proof fn lemma_add_assoc(a: Seq<u8>, b: Seq<u8>, c: Seq<u8>)
    ensures
        (a + b) + c == a + (b + c),
{
    assert((a + b) + c =~= a + (b + c));
}

/// A list of up to `MAX_WIRE_ITEMS` pairs comes back in order.
pub proof fn list_round_trip(pairs: Seq<TextPair>, rest: Seq<u8>)
    requires
        pairs.len() <= MAX_WIRE_ITEMS,
        pairs_fit(pairs),
    ensures
        take_list(list_bytes(pairs) + rest) == Some((pairs, rest)),
{
    lemma_count_round_trip(pairs.len(), pairs_bytes(pairs), rest);
    pairs_round_trip(pairs, rest);
}

// ---------------------------------------------------------------------------
// What decoding makes of more bytes
// ---------------------------------------------------------------------------

/// More bytes behind a number do not change it.
proof fn lemma_u32_extends(input: Seq<u8>, more: Seq<u8>)
    ensures
        take_u32(input) matches Some((value, rest)) ==> take_u32(input + more) == Some(
            (value, rest + more),
        ),
{
    if input.len() >= 4 {
        assert((input + more).skip(4) =~= input.skip(4) + more);
    }
}

/// More bytes behind a text do not change it.
pub proof fn text_extends(input: Seq<u8>, more: Seq<u8>)
    ensures
        take_text(input) matches Some((text, rest)) ==> take_text(input + more) == Some(
            (text, rest + more),
        ),
{
    reveal(take_text);
    lemma_u32_extends(input, more);
    if let Some((len, rest)) = take_u32(input) {
        if len <= rest.len() {
            assert((rest + more).take(len as int) =~= rest.take(len as int));
            assert((rest + more).skip(len as int) =~= rest.skip(len as int) + more);
        }
    }
}

/// More bytes behind a run of pairs do not change it.
proof fn lemma_pairs_extend(input: Seq<u8>, count: nat, more: Seq<u8>)
    ensures
        take_pairs(input, count) matches Some((pairs, rest)) ==> take_pairs(input + more, count)
            == Some((pairs, rest + more)),
    decreases count,
{
    if count > 0 {
        text_extends(input, more);
        if let Some((key, rest)) = take_text(input) {
            text_extends(rest, more);
            if let Some((val, rest)) = take_text(rest) {
                lemma_pairs_extend(rest, (count - 1) as nat, more);
            }
        }
    }
}

/// More bytes behind a list do not change it.
pub proof fn list_extends(input: Seq<u8>, more: Seq<u8>)
    ensures
        take_list(input) matches Some((pairs, rest)) ==> take_list(input + more) == Some(
            (pairs, rest + more),
        ),
{
    lemma_u32_extends(input, more);
    if let Some((count, rest)) = take_u32(input) {
        lemma_pairs_extend(rest, count as nat, more);
    }
}

// ---------------------------------------------------------------------------
// What encoding makes of what was decoded
// ---------------------------------------------------------------------------

/// The bytes of the number that four bytes hold are the four.
proof fn lemma_u32_digits(a: u8, b: u8, c: u8, d: u8, value: u32)
    requires
        value == a + 0x100 * b + 0x1_0000 * c + 0x100_0000 * d,
    ensures
        value % 256 == a,
        value / 0x100 % 256 == b,
        value / 0x1_0000 % 256 == c,
        value / 0x100_0000 == d,
{
    assert(value / 0x100 == b + 0x100 * c + 0x1_0000 * d);
    assert(value / 0x1_0000 == c + 0x100 * d);
}

/// The four bytes that a number was read from are its bytes.
proof fn lemma_u32_rewritten(input: Seq<u8>)
    ensures
        take_u32(input) matches Some((value, rest)) ==> u32_bytes(value) + rest == input,
{
    if input.len() >= 4 {
        let value = u32_value(input);
        lemma_u32_digits(input[0], input[1], input[2], input[3], value);
        assert(u32_bytes(value) =~= input.take(4));
        assert(input.take(4) + input.skip(4) =~= input);
    }
}

/// The bytes that a block was read from are the bytes of the block.
proof fn lemma_block_rewritten(input: Seq<u8>)
    ensures
        take_block(input) matches Some((data, rest)) ==> block_bytes(data) + rest == input
            && data.len() < 0x1_0000_0000,
{
    lemma_u32_rewritten(input);
    if let Some((len, tail)) = take_u32(input) {
        if len <= tail.len() {
            let data = tail.take(len as int);
            let rest = tail.skip(len as int);
            assert(data + rest =~= tail);
            assert(count_bytes(data.len()) == u32_bytes(len));
            lemma_add_assoc(u32_bytes(len), data, rest);
        }
    }
}

/// The bytes that a text was read from are the bytes of the text.
pub proof fn text_rewritten(input: Seq<u8>)
    requires
        holds_utf8(input),
    ensures
        take_text(input) matches Some((text, rest)) && text_bytes(text) + rest == input,
{
    lemma_block_rewritten(input);
    let (data, rest) = take_block(input)->0;
    decode_utf8_encode_utf8(data);
    assert(take_text(input) == Some((decode_utf8(data), rest))) by {
        reveal(take_text);
    }
    assert(text_bytes(decode_utf8(data)) == block_bytes(data)) by {
        reveal(text_bytes);
    }
}

/// The bytes that pairs were read from are the bytes of the pairs.
proof fn lemma_pairs_rewritten(input: Seq<u8>, count: nat)
    requires
        pairs_hold_utf8(input, count),
    ensures
        take_pairs(input, count) matches Some((pairs, rest)) ==> pairs_bytes(pairs) + rest == input
            && pairs.len() == count,
    decreases count,
{
    if count == 0 {
        assert(pairs_bytes(Seq::empty()) + input =~= input);
    } else {
        text_rewritten(input);
        if let Some((key, more)) = take_text(input) {
            text_rewritten(more);
            if let Some((val, after)) = take_text(more) {
                lemma_pairs_rewritten(after, (count - 1) as nat);
                if let Some((tail, rest)) = take_pairs(after, (count - 1) as nat) {
                    let pairs = seq![(key, val)] + tail;
                    let (k, v, t) = (text_bytes(key), text_bytes(val), pairs_bytes(tail));
                    assert(pairs[0] == (key, val));
                    assert(pairs.skip(1) =~= tail);
                    lemma_add_assoc(k + v, t, rest);
                    lemma_add_assoc(k, v, t + rest);
                }
            }
        }
    }
}

/// The bytes that a list was read from are the bytes of the list.
pub proof fn list_rewritten(input: Seq<u8>)
    requires
        list_holds_utf8(input),
    ensures
        take_list(input) matches Some((pairs, rest)) ==> list_bytes(pairs) + rest == input,
{
    lemma_u32_rewritten(input);
    if let Some((count, body)) = take_u32(input) {
        lemma_pairs_rewritten(body, count as nat);
        if let Some((pairs, rest)) = take_pairs(body, count as nat) {
            lemma_add_assoc(u32_bytes(count), pairs_bytes(pairs), rest);
        }
    }
}

// ---------------------------------------------------------------------------
// What stands where on the wire
// ---------------------------------------------------------------------------

/// The key and the value of each pair are taken for their texts, in order.
pub proof fn pairs_view_holds(pairs: Seq<(String, String)>)
    ensures
        pairs_view(pairs).len() == pairs.len(),
        forall|i: int|
            0 <= i < pairs.len() ==> (#[trigger] pairs_view(pairs)[i]).0 == pairs[i].0@
                && pairs_view(pairs)[i].1 == pairs[i].1@,
{
}

/// Two bytes hold a number with the least significant byte first.
pub proof fn u16_layout(value: u16, input: Seq<u8>)
    ensures
        u16_bytes(value).len() == 2,
        u16_bytes(value)[0] + 0x100 * u16_bytes(value)[1] == value,
        u16_value(input) == input[0] + 0x100 * input[1],
{
}

/// Four bytes hold a number with the least significant byte first.
pub proof fn u32_layout(value: u32, input: Seq<u8>)
    ensures
        u32_bytes(value).len() == 4,
        u32_bytes(value)[0] + 0x100 * u32_bytes(value)[1] + 0x1_0000 * u32_bytes(value)[2]
            + 0x100_0000 * u32_bytes(value)[3] == value,
        u32_value(input) == input[0] + 0x100 * input[1] + 0x1_0000 * input[2] + 0x100_0000
            * input[3],
{
    assert(value == value % 256 + 0x100 * (value / 0x100 % 256) + 0x1_0000 * (value / 0x1_0000
        % 256) + 0x100_0000 * (value / 0x100_0000)) by (nonlinear_arith);
}

/// A count stands in four bytes, least significant first, as far as they can hold it.
pub proof fn count_layout(count: nat)
    ensures
        count_bytes(count).len() == 4,
        count < 0x1_0000_0000 ==> count_bytes(count)[0] + 0x100 * count_bytes(count)[1] + 0x1_0000
            * count_bytes(count)[2] + 0x100_0000 * count_bytes(count)[3] == count,
{
    u32_layout((count % 0x1_0000_0000) as u32, Seq::empty());
}

/// A block is the length of its data in four bytes, least significant first, and the data.
pub proof fn block_layout(data: Seq<u8>)
    ensures
        block_bytes(data).len() == 4 + data.len(),
        block_bytes(data).take(4) == count_bytes(data.len()),
        block_bytes(data).skip(4) == data,
{
    count_layout(data.len());
    assert(block_bytes(data).take(4) =~= count_bytes(data.len()));
    assert(block_bytes(data).skip(4) =~= data);
}

/// A text is a block of its UTF-8 form.
pub proof fn text_layout(text: Seq<char>)
    ensures
        text_bytes(text).len() == 4 + encode_utf8(text).len(),
        text_bytes(text).take(4) == count_bytes(encode_utf8(text).len()),
        text_bytes(text).skip(4) == encode_utf8(text),
{
    reveal(text_bytes);
    block_layout(encode_utf8(text));
}

/// A key and a value as bytes.
pub type RawPair = (Seq<u8>, Seq<u8>);

/// Blocks for the keys and values, one after another.
pub open spec fn raw_pairs_bytes(pairs: Seq<RawPair>) -> Seq<u8>
    decreases pairs.len(),
{
    if pairs.len() == 0 {
        Seq::empty()
    } else {
        block_bytes(pairs[0].0) + block_bytes(pairs[0].1) + raw_pairs_bytes(pairs.skip(1))
    }
}

/// The first key stands first, its value next, and the other pairs behind them.
pub proof fn raw_pairs_layout(pair: RawPair, rest: Seq<RawPair>)
    ensures
        raw_pairs_bytes(Seq::empty()) == Seq::<u8>::empty(),
        raw_pairs_bytes(seq![pair] + rest) == block_bytes(pair.0) + block_bytes(pair.1)
            + raw_pairs_bytes(rest),
{
    assert((seq![pair] + rest).skip(1) =~= rest);
}

/// A list of pairs is their number and a block of UTF-8 for each key and each value, in
/// order.
pub proof fn list_layout(pairs: Seq<TextPair>, raw: Seq<RawPair>)
    requires
        raw.len() == pairs.len(),
        forall|i: int|
            0 <= i < raw.len() ==> (#[trigger] raw[i]).0 == encode_utf8(pairs[i].0) && raw[i].1
                == encode_utf8(pairs[i].1),
    ensures
        pairs_bytes(pairs) == raw_pairs_bytes(raw),
        list_bytes(pairs) == count_bytes(pairs.len()) + raw_pairs_bytes(raw),
    decreases pairs.len(),
{
    if pairs.len() > 0 {
        let (tail, raw_tail) = (pairs.skip(1), raw.skip(1));
        assert forall|i: int| 0 <= i < raw_tail.len() implies (#[trigger] raw_tail[i]).0
            == encode_utf8(tail[i].0) && raw_tail[i].1 == encode_utf8(tail[i].1) by {
            assert(raw_tail[i] == raw[i + 1]);
        }
        list_layout(tail, raw_tail);
        reveal(text_bytes);
        assert(raw[0].0 == encode_utf8(pairs[0].0));
    }
}

/// Whether every key and every value fits behind its length prefix.
spec fn raw_fits(pairs: Seq<RawPair>) -> bool {
    forall|i: int|
        0 <= i < pairs.len() ==> (#[trigger] pairs[i]).0.len() < 0x1_0000_0000 && pairs[i].1.len()
            < 0x1_0000_0000
}

/// A run of raw pairs is read back in order, each as the text that it is taken for.
proof fn lemma_raw_pairs_read(raw: Seq<RawPair>, pairs: Seq<TextPair>, rest: Seq<u8>)
    requires
        raw_fits(raw),
        pairs.len() == raw.len(),
        forall|i: int|
            0 <= i < raw.len() ==> (#[trigger] pairs[i]).0 == text::lossy_text(raw[i].0)
                && pairs[i].1 == text::lossy_text(raw[i].1),
    ensures
        take_pairs(raw_pairs_bytes(raw) + rest, raw.len()) == Some((pairs, rest)),
    decreases raw.len(),
{
    if raw.len() == 0 {
        assert(pairs =~= Seq::empty());
        assert(raw_pairs_bytes(raw) + rest =~= rest);
    } else {
        let (tail, raw_tail) = (pairs.skip(1), raw.skip(1));
        assert forall|i: int| 0 <= i < raw_tail.len() implies (#[trigger] raw_tail[i]).0.len()
            < 0x1_0000_0000 && raw_tail[i].1.len() < 0x1_0000_0000 by {
            assert(raw_tail[i] == raw[i + 1]);
        }
        assert forall|i: int| 0 <= i < raw_tail.len() implies (#[trigger] tail[i]).0
            == text::lossy_text(raw_tail[i].0) && tail[i].1 == text::lossy_text(raw_tail[i].1) by {
            assert(tail[i] == pairs[i + 1]);
        }
        lemma_raw_pairs_read(raw_tail, tail, rest);
        let k = block_bytes(raw[0].0);
        let v = block_bytes(raw[0].1);
        let t = raw_pairs_bytes(raw_tail);
        assert(raw[0].0.len() < 0x1_0000_0000);
        assert(pairs[0].0 == text::lossy_text(raw[0].0));
        lossy_round_trip(raw[0].1, t + rest);
        lossy_round_trip(raw[0].0, v + (t + rest));
        lemma_add_assoc(k + v, t, rest);
        lemma_add_assoc(k, v, t + rest);
        lemma_take_pairs_step(raw_pairs_bytes(raw) + rest, pairs[0], t + rest, tail, rest);
        assert(seq![pairs[0]] + tail =~= pairs);
    }
}

/// A list of up to 1024 pairs of any bytes is read back in order, each key and value as the
/// text that it is taken for.
pub proof fn raw_list_read(raw: Seq<RawPair>, pairs: Seq<TextPair>, rest: Seq<u8>)
    requires
        raw.len() <= 1024,
        forall|i: int|
            0 <= i < raw.len() ==> (#[trigger] raw[i]).0.len() < 0x1_0000_0000 && raw[i].1.len()
                < 0x1_0000_0000,
        pairs.len() == raw.len(),
        forall|i: int|
            0 <= i < raw.len() ==> (#[trigger] pairs[i]).0 == text::lossy_text(raw[i].0)
                && pairs[i].1 == text::lossy_text(raw[i].1),
    ensures
        take_list(count_bytes(raw.len()) + raw_pairs_bytes(raw) + rest) == Some((pairs, rest)),
{
    lemma_count_round_trip(raw.len(), raw_pairs_bytes(raw), rest);
    lemma_raw_pairs_read(raw, pairs, rest);
}

/// What a text was read from.
pub proof fn read_text_framed(input: Seq<u8>) -> (data: Seq<u8>)
    ensures
        take_text(input) matches Some((text, rest)) ==> data.len() < 0x1_0000_0000 && input
            == block_bytes(data) + rest && text == text::lossy_text(data),
{
    reveal(take_text);
    lemma_block_rewritten(input);
    match take_block(input) {
        Some((data, rest)) => data,
        None => Seq::empty(),
    }
}

/// What a run of pairs was read from.
proof fn lemma_pairs_framed(input: Seq<u8>, count: nat) -> (raw: Seq<RawPair>)
    ensures
        take_pairs(input, count) matches Some((pairs, rest)) ==> {
            &&& raw.len() == count
            &&& pairs.len() == count
            &&& raw_fits(raw)
            &&& input == raw_pairs_bytes(raw) + rest
            &&& forall|i: int|
                0 <= i < count ==> (#[trigger] pairs[i]).0 == text::lossy_text(raw[i].0)
                    && pairs[i].1 == text::lossy_text(raw[i].1)
        },
    decreases count,
{
    if count == 0 {
        assert(raw_pairs_bytes(Seq::empty()) + input =~= input);
        Seq::empty()
    } else {
        let key = read_text_framed(input);
        let after_key = if let Some((text, rest)) = take_text(input) { rest } else { input };
        let val = read_text_framed(after_key);
        let after = if let Some((text, rest)) = take_text(after_key) { rest } else { input };
        let tail = lemma_pairs_framed(after, (count - 1) as nat);
        let raw = seq![(key, val)] + tail;
        if let Some((pairs, rest)) = take_pairs(input, count) {
            let (more, more_rest) = take_pairs(after, (count - 1) as nat)->0;
            assert(rest == more_rest);
            raw_pairs_layout((key, val), tail);
            let (k, v, t) = (block_bytes(key), block_bytes(val), raw_pairs_bytes(tail));
            lemma_add_assoc(k + v, t, rest);
            lemma_add_assoc(k, v, t + rest);
            assert forall|i: int| 0 <= i < count implies (#[trigger] pairs[i]).0
                == text::lossy_text(raw[i].0) && pairs[i].1 == text::lossy_text(raw[i].1) by {
                if i > 0 {
                    assert(pairs[i] == more[i - 1]);
                    assert(raw[i] == tail[i - 1]);
                }
            }
            assert forall|i: int| 0 <= i < raw.len() implies (#[trigger] raw[i]).0.len()
                < 0x1_0000_0000 && raw[i].1.len() < 0x1_0000_0000 by {
                if i > 0 {
                    assert(raw[i] == tail[i - 1]);
                }
            }
        }
        raw
    }
}

/// What a list was read from: a count of at most 1024, and as many pairs of blocks.
pub proof fn read_list_framed(input: Seq<u8>) -> (raw: Seq<RawPair>)
    ensures
        take_list(input) matches Some((pairs, rest)) ==> {
            &&& raw.len() == pairs.len() <= 1024
            &&& input == count_bytes(raw.len()) + raw_pairs_bytes(raw) + rest
            &&& forall|i: int|
                0 <= i < raw.len() ==> (#[trigger] raw[i]).0.len() < 0x1_0000_0000
                    && raw[i].1.len() < 0x1_0000_0000
            &&& forall|i: int|
                0 <= i < raw.len() ==> (#[trigger] pairs[i]).0 == text::lossy_text(raw[i].0)
                    && pairs[i].1 == text::lossy_text(raw[i].1)
        },
{
    lemma_u32_rewritten(input);
    match take_u32(input) {
        Some((count, body)) => {
            let raw = lemma_pairs_framed(body, count as nat);
            if let Some((pairs, rest)) = take_pairs(body, count as nat) {
                lemma_add_assoc(u32_bytes(count), raw_pairs_bytes(raw), rest);
                assert(count_bytes(raw.len()) == u32_bytes(count));
            }
            raw
        },
        None => Seq::empty(),
    }
}

} // verus!
