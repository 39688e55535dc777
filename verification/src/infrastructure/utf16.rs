//! Text in 16-bit units.
use vstd::prelude::*;

verus! {

/// `char::from_u32` gives the character with the number, where the number is
/// that of a Unicode scalar value, and none otherwise.
pub assume_specification[ char::from_u32 ](i: u32) -> (r: Option<char>)
    ensures
        r == (if i < 0xD800 || (0xE000 <= i && i <= 0x10_FFFF) {
            Some(i as char)
        } else {
            None
        }),
;

/// The first half of a pair.
pub open spec fn is_high(u: u16) -> bool {
    0xD800 <= u < 0xDC00
}

/// The second half of a pair.
pub open spec fn is_low(u: u16) -> bool {
    0xDC00 <= u < 0xE000
}

/// The character that a pair means.
pub open spec fn paired(high: u16, low: u16) -> char {
    (0x1_0000 + (high - 0xD800) * 0x400 + (low - 0xDC00)) as char
}

/// The characters from the `i`-th unit on. A half that stands alone is replaced
/// by U+FFFD.
pub open spec fn utf16_text(units: Seq<u16>, i: int) -> Seq<char>
    decreases units.len() - i,
{
    if i < 0 || i >= units.len() {
        Seq::empty()
    } else if is_high(units[i]) && i + 1 < units.len() && is_low(units[i + 1]) {
        seq![paired(units[i], units[i + 1])] + utf16_text(units, i + 2)
    } else if is_high(units[i]) || is_low(units[i]) {
        seq!['\u{FFFD}'] + utf16_text(units, i + 1)
    } else {
        seq![units[i] as char] + utf16_text(units, i + 1)
    }
}

fn scalar(n: u32) -> (c: char)
    requires
        n < 0xD800 || 0xE000 <= n <= 0x10_FFFF,
    ensures
        c == n as char,
{
    match char::from_u32(n) {
        Some(c) => c,
        None => '\u{FFFD}',
    }
}

/// Decodes 16-bit units, replacing a half of a pair that stands alone.
pub fn decode_lossy(units: &Vec<u16>) -> (out: Vec<char>)
    ensures
        out@ == utf16_text(units@, 0),
        out@.len() <= units@.len(),
{
    let mut out: Vec<char> = Vec::new();
    let mut i: usize = 0;
    proof {
        assert(out@ + utf16_text(units@, 0) =~= utf16_text(units@, 0));
    }
    while i < units.len()
        invariant
            i <= units@.len(),
            out@.len() <= i,
            out@ + utf16_text(units@, i as int) == utf16_text(units@, 0),
        decreases units@.len() - i,
    {
        let u: u16 = units[i];
        let mut next: usize = i + 1;
        let c: char = if 0xD800 <= u && u < 0xDC00 && i + 1 < units.len() && 0xDC00 <= units[i + 1]
            && units[i + 1] < 0xE000 {
            next = i + 2;
            scalar(0x1_0000 + (u as u32 - 0xD800) * 0x400 + (units[i + 1] as u32 - 0xDC00))
        } else if 0xD800 <= u && u < 0xE000 {
            '\u{FFFD}'
        } else {
            scalar(u as u32)
        };
        proof {
            assert(out@ + utf16_text(units@, i as int) =~= out@.push(c) + utf16_text(
                units@,
                next as int,
            ));
        }
        out.push(c);
        i = next;
    }
    proof {
        assert(out@ + Seq::<char>::empty() =~= out@);
    }
    out
}

} // verus!
