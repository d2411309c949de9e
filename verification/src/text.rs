//! Facts about UTF-8 text and the conversion from bytes to text.

use vstd::prelude::*;
use vstd::utf8::*;

verus! {

/// `core::str::from_utf8`: the bytes as text, if and only if they are
/// well-formed UTF-8; the text then encodes to exactly those bytes.
#[verifier::external_body]
pub(crate) fn text_of(bytes: &[u8]) -> (text: Option<&str>)
    ensures
        text is Some <==> valid_utf8(bytes@),
        text matches Some(s) ==> encode_utf8(s@) == bytes@,
{
    core::str::from_utf8(bytes).ok()
}

/// The text of an optional string.
pub open spec fn opt_text(found: Option<String>) -> Option<Seq<char>> {
    match found {
        Some(text) => Some(text@),
        None => None,
    }
}

/// The texts held by a list of strings, in order.
pub open spec fn texts(strings: Seq<String>) -> Seq<Seq<char>> {
    strings.map_values(|s: String| s@)
}

/// Encoding a text piece by piece gives the encoding of the whole.
pub(crate) proof fn lemma_encode_concat(a: Seq<char>, b: Seq<char>)
    ensures
        encode_utf8(a + b) == encode_utf8(a) + encode_utf8(b),
    decreases a.len(),
{
    if a.len() == 0 {
        assert(a + b =~= b);
        assert(encode_utf8(a) + encode_utf8(b) =~= encode_utf8(b));
    } else {
        lemma_encode_concat(a.drop_first(), b);
        assert((a + b).drop_first() =~= a.drop_first() + b);
        assert(encode_utf8(a + b) =~= encode_utf8(a) + encode_utf8(b));
    }
}

/// The numbers of the bits that UTF-8 puts into each byte of a character
/// that needs more than one byte: every such byte is 0x80 or more.
proof fn lemma_wide_bytes(v: u32)
    by (bit_vector)
    ensures
        v <= 0x7f ==> (v & 0x7F) as u8 == v as u8,
        (0xC0u8 | ((v >> 6) & 0x1F) as u8) >= 0x80,
        (0xE0u8 | ((v >> 12) & 0x0F) as u8) >= 0x80,
        (0xF0u8 | ((v >> 18) & 0x7) as u8) >= 0x80,
        (0x80u8 | (v & 0x3F) as u8) >= 0x80,
        (0x80u8 | ((v >> 6) & 0x3F) as u8) >= 0x80,
        (0x80u8 | ((v >> 12) & 0x3F) as u8) >= 0x80,
{
}

/// A character below 0x80 is encoded as the one byte of that value; every
/// other character as two to four bytes, none of them below 0x80.
pub(crate) proof fn lemma_scalar_bytes(c: char)
    ensures
        (c as u32) < 0x80 ==> encode_scalar(c as u32) == seq![c as u8],
        (c as u32) >= 0x80 ==> encode_scalar(c as u32).len() >= 2 && forall|i: int|
            0 <= i < encode_scalar(c as u32).len() ==> #[trigger] encode_scalar(c as u32)[i]
                >= 0x80,
{
    let v = c as u32;
    lemma_wide_bytes(v);
    char_is_scalar(c);
    if v < 0x80 {
        assert(encode_scalar(v) =~= seq![c as u8]);
    }
}

/// A text of one character is encoded as that character is.
pub(crate) proof fn lemma_encode_single(c: char)
    ensures
        encode_utf8(seq![c]) == encode_scalar(c as u32),
{
    reveal_with_fuel(encode_utf8, 2);
    assert(seq![c].drop_first() =~= Seq::<char>::empty());
    assert(encode_utf8(seq![c]) =~= encode_scalar(c as u32));
}

/// A text ends with the bytes of its last character.
pub(crate) proof fn lemma_encode_last(text: Seq<char>)
    requires
        text.len() > 0,
    ensures
        encode_utf8(text) == encode_utf8(text.drop_last()) + encode_scalar(text.last() as u32),
{
    let last = seq![text.last()];
    assert(text =~= text.drop_last() + last);
    lemma_encode_concat(text.drop_last(), last);
    lemma_encode_single(text.last());
}

/// An offset between two characters of a text is also between two characters
/// of any tail of that text that starts on such an offset before it.
pub(crate) proof fn lemma_boundary_in_tail(bytes: Seq<u8>, from: int, at: int)
    requires
        valid_utf8(bytes),
        valid_utf8(bytes.subrange(from, bytes.len() as int)),
        0 <= from <= at <= bytes.len(),
        is_char_boundary(bytes, at),
    ensures
        is_char_boundary(bytes.subrange(from, bytes.len() as int), at - from),
{
    let tail = bytes.subrange(from, bytes.len() as int);
    if at == bytes.len() {
        is_char_boundary_start_end_of_seq(tail);
    } else {
        is_char_boundary_iff_not_is_continuation_byte(bytes, at);
        is_char_boundary_iff_not_is_continuation_byte(tail, at - from);
    }
}

} // verus!
