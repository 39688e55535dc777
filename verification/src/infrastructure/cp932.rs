//! Decode the Windows Japanese code page used by text records.
//!
//! `encoding_rs` exposes this encoding as `SHIFT_JIS`: the WHATWG name for the
//! Windows-31J / code page 932 mapping.
use vstd::prelude::*;

verus! {

/// What `encoding_rs::SHIFT_JIS` decodes octets to.
pub uninterp spec fn shift_jis_text(bytes: Seq<u8>) -> Seq<char>;

/// How many octets the characters took together.
pub open spec fn octets_in(chars: Seq<char>) -> int
    decreases chars.len(),
{
    if chars.len() == 0 {
        0
    } else {
        octets_in(chars.drop_last()) + octets_of(chars.last())
    }
}

/// `encoding_rs::Encoding::decode_without_bom_handling` on `SHIFT_JIS`: the
/// characters are a function of the octets alone, with malformed or unassigned
/// input replaced by U+FFFD. Where nothing was replaced, every octet up to 80
/// (hexadecimal) and from A1 to DF gave a character of its own, ASCII, U+0080
/// or half-width katakana, and every other character took two octets. The bound
/// is that of the result: a character takes four octets of memory, there may be
/// one for each octet of input, and no `Vec` holds more than `isize::MAX`
/// octets. The text in between takes at most three for each.
#[verifier::external_body]
fn shift_jis(bytes: &[u8]) -> (r: Vec<char>)
    requires
        bytes@.len() <= usize::MAX / 8,
    ensures
        r@ == shift_jis_text(bytes@),
        !r@.contains('\u{FFFD}') ==> octets_in(r@) == bytes@.len(),
{
    let (text, _had_errors) = encoding_rs::SHIFT_JIS.decode_without_bom_handling(bytes);
    let mut chars: Vec<char> = Vec::with_capacity(bytes.len());
    chars.extend(text.chars());
    chars
}

/// Decode a CP932 byte string, replacing malformed or unassigned input with
/// U+FFFD rather than failing. A page with one bad octet should still give up
/// the rest of its text. Where nothing was replaced, the lengths of the
/// characters add up to that of the octets.
pub fn decode(bytes: &[u8]) -> (r: Vec<char>)
    requires
        bytes@.len() <= usize::MAX / 8,
    ensures
        r@ == shift_jis_text(bytes@),
        !r@.contains('\u{FFFD}') ==> octets_in(r@) == bytes@.len(),
{
    shift_jis(bytes)
}

/// How many octets a character took: one for ASCII, U+0080, half-width
/// katakana and the replacement character, two otherwise.
pub open spec fn octets_of(ch: char) -> int {
    let c = ch as u32;
    if c <= 0x80 || (0xFF61 <= c <= 0xFF9F) || c == 0xFFFD {
        1
    } else {
        2
    }
}

/// How many source octets `decode` consumed for this character: one for ASCII,
/// U+0080, half-width katakana and the replacement character, two otherwise.
pub fn byte_len(ch: char) -> (n: usize)
    ensures
        n == octets_of(ch),
{
    let c: u32 = ch as u32;
    if c <= 0x80 || (0xFF61 <= c && c <= 0xFF9F) || c == 0xFFFD {
        1
    } else {
        2
    }
}

} // verus!
