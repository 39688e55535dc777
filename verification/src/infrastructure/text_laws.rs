//! What is written in the small formats of a document is read back.
use crate::error::Error;
use crate::infrastructure::jpeg::{
    frame_info, info_from, jpeg_info, segment_density, Density, JpegInfo, JFIF,
};
use crate::infrastructure::tlv::{be_value, element, elements_in, uint_of, window, Tlv};
use crate::infrastructure::utf16::utf16_text;
use crate::infrastructure::writing::{
    big_short, lemma_big_short_read, lemma_lies_apart, lies_at,
};
use vstd::prelude::*;

verus! {

// ---------------------------------------------------------------------- text

/// The 16-bit units of a text: a character past the first 65536 takes two, ten
/// bits of its number in each.
pub open spec fn units_of(text: Seq<char>) -> Seq<u16>
    decreases text.len(),
{
    if text.len() == 0 {
        Seq::empty()
    } else {
        let n = text[0] as u32;
        let rest = units_of(text.drop_first());
        if n < 0x1_0000 {
            seq![n as u16] + rest
        } else {
            let over = n - 0x1_0000;
            seq![(0xD800 + over / 1024) as u16, (0xDC00 + over % 1024) as u16] + rest
        }
    }
}

proof fn lemma_units_from(head: Seq<u16>, rest: Seq<u16>, i: int)
    requires
        0 <= i,
    ensures
        utf16_text(head + rest, head.len() + i) == utf16_text(rest, i),
    decreases rest.len() - i,
{
    let all = head + rest;
    if i < rest.len() {
        assert(all[head.len() + i] == rest[i]);
        if i + 1 < rest.len() {
            assert(all[head.len() + i + 1] == rest[i + 1]);
        }
        lemma_units_from(head, rest, i + 1);
        if i + 1 < rest.len() {
            lemma_units_from(head, rest, i + 2);
        }
    }
}

proof fn lemma_character(c: char)
    ensures
        (c as u32) < 0xD800 || 0xE000 <= c as u32 <= 0x10_FFFF,
        (c as u32) as char == c,
        c as u32 as int == c as int,
        c as int as char == c,
{
}

/// A text comes back from its units.
pub proof fn law_units_read_back(text: Seq<char>)
    ensures
        utf16_text(units_of(text), 0) == text,
    decreases text.len(),
{
    if text.len() > 0 {
        let c = text[0];
        let n = c as u32;
        let rest = units_of(text.drop_first());
        let all = units_of(text);
        law_units_read_back(text.drop_first());
        lemma_character(c);
        if n < 0x1_0000 {
            lemma_units_from(seq![n as u16], rest, 0);
            assert(all[0] == n as u16);
            assert((n as u16) as char == c);
            assert(utf16_text(all, 0) =~= text);
        } else {
            let over = n - 0x1_0000;
            let (a, b) = ((0xD800 + over / 1024) as u16, (0xDC00 + over % 1024) as u16);
            lemma_units_from(seq![a, b], rest, 0);
            assert(all[0] == a && all[1] == b);
            assert(over / 1024 * 1024 + over % 1024 == over);
            assert(utf16_text(all, 0) =~= text);
        }
    }
}

// ------------------------------------------------------------------- elements

/// A number in so many octets, the highest first.
pub open spec fn big(v: nat, octets: nat) -> Seq<u8>
    decreases octets,
{
    if octets == 0 {
        Seq::empty()
    } else {
        big(v / 256, (octets - 1) as nat).push((v % 256) as u8)
    }
}

/// How many numbers so many octets can hold.
pub open spec fn room(octets: nat) -> nat
    decreases octets,
{
    if octets == 0 {
        1
    } else {
        256 * room((octets - 1) as nat)
    }
}

proof fn lemma_big(v: nat, octets: nat)
    requires
        v < room(octets),
    ensures
        be_value(big(v, octets)) == v,
        big(v, octets).len() == octets,
    decreases octets,
{
    if octets > 0 {
        let less = (octets - 1) as nat;
        assert(v / 256 < room(less));
        lemma_big(v / 256, less);
        assert(big(v, octets).drop_last() =~= big(v / 256, less));
    }
}

/// A tag, a length and a value. The length takes `wide` octets behind one that
/// says so, or where that is zero just one.
pub struct Written {
    pub tag: u8,
    pub wide: nat,
    pub value: Seq<u8>,
}

pub open spec fn can_be_written(e: Written) -> bool {
    if e.wide == 0 {
        e.value.len() < 128
    } else {
        e.wide <= 4 && e.value.len() < room(e.wide)
    }
}

pub open spec fn length_octets(e: Written) -> Seq<u8> {
    if e.wide == 0 {
        seq![e.value.len() as u8]
    } else {
        seq![(128 + e.wide) as u8] + big(e.value.len(), e.wide)
    }
}

pub open spec fn written(e: Written) -> Seq<u8> {
    seq![e.tag] + (length_octets(e) + e.value)
}

pub open spec fn all_written(es: Seq<Written>) -> Seq<u8>
    decreases es.len(),
{
    if es.len() == 0 {
        Seq::empty()
    } else {
        written(es[0]) + all_written(es.drop_first())
    }
}

/// Where the elements stand, when the first stands at `at`.
pub open spec fn standing(es: Seq<Written>, at: int) -> Seq<Tlv>
    decreases es.len(),
{
    if es.len() == 0 {
        Seq::empty()
    } else {
        let e = es[0];
        let value = at + 2 + e.wide;
        seq![
            Tlv {
                tag: e.tag,
                start: at as usize,
                value: value as usize,
                len: e.value.len() as usize,
            },
        ] + standing(es.drop_first(), value + e.value.len())
    }
}

/// An element is read as it was written.
pub proof fn law_element_reads_back(data: Seq<u8>, at: int, e: Written)
    requires
        data.len() <= usize::MAX,
        can_be_written(e),
        lies_at(data, at, written(e)),
    ensures
        element(data, at) == Ok::<Tlv, Error>(
            Tlv {
                tag: e.tag,
                start: at as usize,
                value: (at + 2 + e.wide) as usize,
                len: e.value.len() as usize,
            },
        ),
        data.subrange(at + 2 + e.wide, at + 2 + e.wide + e.value.len()) == e.value,
        written(e).len() == 2 + e.wide + e.value.len(),
{
    lemma_lies_apart(data, at, seq![e.tag], length_octets(e) + e.value);
    lemma_lies_apart(data, at + 1, length_octets(e), e.value);
    assert(data[at + 0] == seq![e.tag][0]);
    if e.wide == 0 {
        assert(data[at + 1 + 0] == length_octets(e)[0]);
    } else {
        let n = big(e.value.len(), e.wide);
        lemma_big(e.value.len(), e.wide);
        lemma_lies_apart(data, at + 1, seq![(128 + e.wide) as u8], n);
        assert(data[at + 1 + 0] == seq![(128 + e.wide) as u8][0]);
        assert(data.subrange(at + 2, at + 2 + e.wide) =~= n);
    }
    assert(data.subrange(at + 2 + e.wide, at + 2 + e.wide + e.value.len()) =~= e.value);
}

proof fn lemma_elements(data: Seq<u8>, at: int, es: Seq<Written>)
    requires
        data.len() <= usize::MAX,
        forall|i: int| 0 <= i < es.len() ==> can_be_written(#[trigger] es[i]),
        lies_at(data, at, all_written(es)),
    ensures
        elements_in(data, at, at + all_written(es).len()) == Ok::<Seq<Tlv>, Error>(
            standing(es, at),
        ),
    decreases es.len(),
{
    if es.len() > 0 {
        let rest = es.drop_first();
        let e = es[0];
        assert(can_be_written(e));
        assert forall|i: int| 0 <= i < rest.len() implies can_be_written(#[trigger] rest[i]) by {
            assert(rest[i] == es[i + 1]);
        }
        lemma_lies_apart(data, at, written(e), all_written(rest));
        law_element_reads_back(data, at, e);
        lemma_elements(data, at + written(e).len(), rest);
    }
}

/// Elements that were written one behind the other are read so.
pub proof fn law_elements_read_back(data: Seq<u8>, at: int, es: Seq<Written>)
    requires
        data.len() <= usize::MAX,
        forall|i: int| 0 <= i < es.len() ==> can_be_written(#[trigger] es[i]),
        lies_at(data, at, all_written(es)),
    ensures
        window(data, at, all_written(es).len() as int) == Ok::<Seq<Tlv>, Error>(standing(es, at)),
{
    lemma_elements(data, at, es);
}

/// A number that is the value of an element is read as it was written.
pub proof fn law_number_reads_back(data: Seq<u8>, t: Tlv, v: nat)
    requires
        1 <= t.len <= 8,
        v < room(t.len as nat),
        lies_at(data, t.value as int, big(v, t.len as nat)),
    ensures
        uint_of(data, t) == Some(v as u64),
{
    lemma_big(v, t.len as nat);
    assert(data.subrange(t.value as int, t.value + t.len) =~= big(v, t.len as nat));
}

// ----------------------------------------------------------------------- JPEG

/// A segment: its marker, its length with the two octets of that, its content.
pub open spec fn segment(marker: u8, content: Seq<u8>) -> Seq<u8> {
    seq![0xFFu8, marker] + (big_short((content.len() + 2) as nat) + content)
}

/// The marker of a segment that is passed over.
pub open spec fn is_passed_over(marker: u8) -> bool {
    ||| 0x02 <= marker <= 0xBF
    ||| marker == 0xC4
    ||| marker == 0xC8
    ||| marker == 0xCC
    ||| 0xDB <= marker <= 0xFE && marker != 0xE0
}

pub open spec fn segments(parts: Seq<(u8, Seq<u8>)>) -> Seq<u8>
    decreases parts.len(),
{
    if parts.len() == 0 {
        Seq::empty()
    } else {
        segment(parts[0].0, parts[0].1) + segments(parts.drop_first())
    }
}

/// `JFIF`, the version, the unit of the density, the density, a thumbnail.
pub open spec fn jfif(version: Seq<u8>, unit: u8, x: nat, y: nat, rest: Seq<u8>) -> Seq<u8> {
    seq![0x4Au8, 0x46u8, 0x49u8, 0x46u8, 0x00u8] + (version + (seq![unit] + (big_short(x) + (
    big_short(y) + rest))))
}

/// The precision, the height, the width, how many components, and those.
pub open spec fn frame(precision: u8, height: nat, width: nat, parts: u8, rest: Seq<u8>) -> Seq<
    u8,
> {
    seq![precision] + (big_short(height) + (big_short(width) + (seq![parts] + rest)))
}

/// What the density says: dots per inch for the unit 1, per centimetre for the
/// unit 2.
pub open spec fn meant(unit: u8, x: nat, y: nat) -> Option<Density> {
    if x > 0 && y > 0 && unit == 1 {
        Some(Density::PerInch(x as u16, y as u16))
    } else if x > 0 && y > 0 && unit == 2 {
        Some(Density::PerCentimetre(x as u16, y as u16))
    } else {
        None
    }
}

proof fn lemma_segment(buf: Seq<u8>, i: int, marker: u8, content: Seq<u8>)
    requires
        content.len() < 0xFFFE,
        lies_at(buf, i, segment(marker, content)),
    ensures
        buf[i] == 0xFF,
        buf[i + 1] == marker,
        crate::infrastructure::octets::be16_of(buf, i + 2) == Some((content.len() + 2) as u16),
        buf.subrange(i + 4, i + 4 + content.len()) == content,
        segment(marker, content).len() == 4 + content.len(),
{
    let n = big_short((content.len() + 2) as nat);
    let head = seq![0xFFu8, marker];
    lemma_lies_apart(buf, i, head, n + content);
    lemma_lies_apart(buf, i + 2, n, content);
    assert(buf[i + 0] == head[0] && buf[i + 1] == head[1]);
    lemma_big_short_read(buf, i + 2, (content.len() + 2) as nat);
    assert(buf.subrange(i + 4, i + 4 + content.len()) =~= content);
}

proof fn lemma_jfif(version: Seq<u8>, unit: u8, x: nat, y: nat, rest: Seq<u8>)
    requires
        version.len() == 2,
        x < 0x1_0000,
        y < 0x1_0000,
    ensures
        segment_density(0xE0, jfif(version, unit, x, y, rest)) == meant(unit, x, y),
{
    let s = jfif(version, unit, x, y, rest);
    let name = seq![0x4Au8, 0x46u8, 0x49u8, 0x46u8, 0x00u8];
    assert(lies_at(s, 0, s));
    let d = big_short(y) + rest;
    let c = big_short(x) + d;
    let b = seq![unit] + c;
    let a = version + b;
    lemma_lies_apart(s, 0, name, a);
    lemma_lies_apart(s, 5, version, b);
    lemma_lies_apart(s, 7, seq![unit], c);
    lemma_lies_apart(s, 8, big_short(x), d);
    lemma_lies_apart(s, 10, big_short(y), rest);
    lemma_big_short_read(s, 8, x);
    lemma_big_short_read(s, 10, y);
    assert(JFIF@ =~= name);
    assert(s.take(5) =~= name);
    assert(s[7 + 0int] == seq![unit][0]);
}

proof fn lemma_frame(
    precision: u8,
    height: nat,
    width: nat,
    parts: u8,
    rest: Seq<u8>,
    known: Option<Density>,
)
    requires
        0 < height < 0x1_0000,
        0 < width < 0x1_0000,
        0 < parts,
    ensures
        frame_info(frame(precision, height, width, parts, rest), known) == Some(
            JpegInfo {
                width: width as u32,
                height: height as u32,
                components: parts,
                density: match known {
                    Some(d) => d,
                    None => Density::PerInch(72, 72),
                },
                dpi_known: known is Some,
            },
        ),
{
    let s = frame(precision, height, width, parts, rest);
    assert(lies_at(s, 0, s));
    let c = seq![parts] + rest;
    let b = big_short(width) + c;
    let a = big_short(height) + b;
    lemma_lies_apart(s, 0, seq![precision], a);
    lemma_lies_apart(s, 1, big_short(height), b);
    lemma_lies_apart(s, 3, big_short(width), c);
    lemma_lies_apart(s, 5, seq![parts], rest);
    lemma_big_short_read(s, 1, height);
    lemma_big_short_read(s, 3, width);
    assert(s[5 + 0int] == seq![parts][0]);
}

/// Segments that say nothing of the size or the density are passed over.
proof fn lemma_passed_over(
    buf: Seq<u8>,
    i: int,
    parts: Seq<(u8, Seq<u8>)>,
    known: Option<Density>,
)
    requires
        lies_at(buf, i, segments(parts)),
        forall|k: int|
            0 <= k < parts.len() ==> is_passed_over((#[trigger] parts[k]).0) && parts[k].1.len()
                < 0xFFFE,
    ensures
        info_from(buf, i, known) == info_from(buf, i + segments(parts).len(), known),
    decreases parts.len(),
{
    if parts.len() > 0 {
        let (marker, content) = parts[0];
        let rest = parts.drop_first();
        assert(is_passed_over(parts[0].0));
        assert forall|k: int| 0 <= k < rest.len() implies is_passed_over((#[trigger] rest[k]).0)
            && rest[k].1.len() < 0xFFFE by {
            assert(rest[k] == parts[k + 1]);
        }
        lemma_lies_apart(buf, i, segment(marker, content), segments(rest));
        lemma_segment(buf, i, marker, content);
        lemma_passed_over(buf, i + 4 + content.len(), rest, known);
    }
}

/// A JPEG file declares the size that its frame was written with, and the
/// density that its first segment was written with.
pub proof fn law_jpeg_reads_back(
    buf: Seq<u8>,
    density: Option<(Seq<u8>, u8, nat, nat, Seq<u8>)>,
    parts: Seq<(u8, Seq<u8>)>,
    marker: u8,
    precision: u8,
    height: nat,
    width: nat,
    components: u8,
    rest: Seq<u8>,
)
    requires
        density matches Some((version, unit, x, y, tail)) ==> version.len() == 2 && x < 0x1_0000
            && y < 0x1_0000 && tail.len() < 0xFFF2,
        forall|k: int|
            0 <= k < parts.len() ==> is_passed_over((#[trigger] parts[k]).0) && parts[k].1.len()
                < 0xFFFE,
        0xC0 <= marker <= 0xC3 || 0xC5 <= marker <= 0xC7 || 0xC9 <= marker <= 0xCB || 0xCD <= marker
            <= 0xCF,
        0 < height < 0x1_0000,
        0 < width < 0x1_0000,
        0 < components,
        rest.len() < 0xFFF8,
        lies_at(
            buf,
            0,
            seq![0xFFu8, 0xD8u8] + (match density {
                Some((version, unit, x, y, tail)) => segment(
                    0xE0,
                    jfif(version, unit, x, y, tail),
                ),
                None => Seq::empty(),
            } + (segments(parts) + segment(
                marker,
                frame(precision, height, width, components, rest),
            ))),
        ),
    ensures
        ({
            let known = match density {
                Some((version, unit, x, y, tail)) => meant(unit, x, y),
                None => None,
            };
            jpeg_info(buf) == Some(
                JpegInfo {
                    width: width as u32,
                    height: height as u32,
                    components,
                    density: match known {
                        Some(d) => d,
                        None => Density::PerInch(72, 72),
                    },
                    dpi_known: known is Some,
                },
            )
        }),
{
    let start = seq![0xFFu8, 0xD8u8];
    let one = match density {
        Some((version, unit, x, y, tail)) => segment(0xE0, jfif(version, unit, x, y, tail)),
        None => Seq::empty(),
    };
    let known = match density {
        Some((version, unit, x, y, tail)) => meant(unit, x, y),
        None => None,
    };
    let content = frame(precision, height, width, components, rest);
    let end = segment(marker, content);
    let more = segments(parts) + end;
    lemma_lies_apart(buf, 0, start, one + more);
    assert(buf[0int + 0] == start[0] && buf[0int + 1] == start[1]);
    lemma_lies_apart(buf, 2, one, more);
    if let Some((version, unit, x, y, tail)) = density {
        let c = jfif(version, unit, x, y, tail);
        lemma_segment(buf, 2, 0xE0, c);
        lemma_jfif(version, unit, x, y, tail);
        assert(info_from(buf, 2, None) == info_from(buf, 2 + one.len() as int, known));
    }
    let i = 2 + one.len() as int;
    lemma_lies_apart(buf, i, segments(parts), end);
    lemma_passed_over(buf, i, parts, known);
    let j = i + segments(parts).len();
    lemma_segment(buf, j, marker, content);
    lemma_frame(precision, height, width, components, rest, known);
    assert(segment_density(marker, content) is None);
}

} // verus!
