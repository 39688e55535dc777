//! The objects of an embedded font.
use crate::adapters::pdf::fonts::{cmap_end, cmap_head, Glyphs, Used};
use crate::adapters::pdf::subset::{take_glyphs, subset_of};
use crate::adapters::pdf::words::{push_units, unit_text};
use crate::adapters::pdf::writer::{octets, stream_body, Writer};
use crate::infrastructure::deflate::{zlib, zlib_stream};
use crate::infrastructure::ttf::Font;
use crate::text::{decimal, push_decimal, push_upper_hex, upper_hex};
use vstd::prelude::*;
use vstd::string::*;

verus! {

/// Where the run of consecutive glyph numbers that holds `i` ends.
pub open spec fn run_end(v: Seq<Used>, i: int) -> int
    decreases v.len() - i,
{
    if i + 1 < v.len() && v[i + 1].gid == v[i].gid + 1 {
        run_end(v, i + 1)
    } else {
        i + 1
    }
}

/// The widths from `i` up to `j`, with spaces between them.
pub open spec fn widths_between(v: Seq<Used>, i: int, j: int) -> Seq<char>
    decreases j - i,
{
    if j <= i {
        Seq::empty()
    } else if j == i + 1 {
        decimal(v[i].width as nat)
    } else {
        widths_between(v, i, j - 1) + " "@ + decimal(v[j - 1].width as nat)
    }
}

/// The widths from `i` on, run by run.
pub open spec fn width_runs(v: Seq<Used>, i: int) -> Seq<char>
    decreases v.len() - i,
{
    if i < 0 || i >= v.len() {
        Seq::empty()
    } else {
        let j = run_end(v, i);
        if j <= i || j > v.len() {
            Seq::empty()
        } else {
            decimal(v[i].gid as nat) + " ["@ + widths_between(v, i, j) + "] "@ + width_runs(v, j)
        }
    }
}

/// The lines that say which characters the glyphs from `i` up to `j` stand
/// for.
pub open spec fn character_lines(v: Seq<Used>, i: int, j: int) -> Seq<char>
    decreases j - i,
{
    if j <= i {
        Seq::empty()
    } else {
        character_lines(v, i, j - 1) + "<"@ + upper_hex(v[j - 1].gid as nat, 4) + "> <"@
            + unit_text(v[j - 1].character) + ">\n"@
    }
}

/// The sections of the character map from `i` on, each of a hundred lines at
/// most.
pub open spec fn character_sections(v: Seq<Used>, i: int) -> Seq<char>
    decreases v.len() - i,
{
    if i < 0 || i >= v.len() {
        Seq::empty()
    } else {
        let j = if i + 100 < v.len() {
            i + 100
        } else {
            v.len() as int
        };
        decimal((j - i) as nat) + " beginbfchar\n"@ + character_lines(v, i, j) + "endbfchar\n"@
            + character_sections(v, j)
    }
}

/// The dictionary of the font file.
pub open spec fn file_dict(len: nat) -> Seq<char> {
    "<< /Length1 "@ + decimal(len) + " /Filter /FlateDecode >>"@
}

/// The font descriptor.
pub open spec fn descriptor_text(name: Seq<char>, file: nat) -> Seq<char> {
    "<< /Type /FontDescriptor /FontName /"@ + name
        + " /Flags 4 /FontBBox [-1000 -1000 2000 2000] /ItalicAngle 0 /Ascent 880 /Descent -120 /CapHeight 700 /StemV 80 /FontFile2 "@
        + decimal(file) + " 0 R >>"@
}

/// The font that is keyed by glyph number.
pub open spec fn cid_font(name: Seq<char>, descriptor: nat, used: Seq<Used>) -> Seq<char> {
    "<< /Type /Font /Subtype /CIDFontType2 /BaseFont /"@ + name
        + " /CIDSystemInfo << /Registry (Adobe) /Ordering (Identity) /Supplement 0 >> /FontDescriptor "@
        + decimal(descriptor) + " 0 R /DW 1000 /W ["@ + width_runs(used, 0)
        + "] /CIDToGIDMap /Identity >>"@
}

/// The map from glyph numbers to characters.
pub open spec fn character_map(used: Seq<Used>) -> Seq<char> {
    cmap_head() + character_sections(used, 0) + cmap_end()
}

/// The composite font.
pub open spec fn composite_font(name: Seq<char>, cid: nat, to_unicode: nat) -> Seq<char> {
    "<< /Type /Font /Subtype /Type0 /BaseFont /"@ + name
        + " /Encoding /Identity-H /DescendantFonts ["@ + decimal(cid) + " 0 R] /ToUnicode "@
        + decimal(to_unicode) + " 0 R >>"@
}

/// The four objects beside the font itself, the first of which gets the
/// number `first`.
pub open spec fn font_objects(name: Seq<char>, data: Seq<u8>, used: Seq<Used>, first: nat) -> Seq<
    Option<Seq<u8>>,
> {
    seq![
        Some(stream_body(file_dict(data.len()), zlib_stream(data))),
        Some(octets(descriptor_text(name, first))),
        Some(octets(cid_font(name, first + 1, used))),
        Some(stream_body("<< >>"@, octets(character_map(used)))),
    ]
}

proof fn lemma_run_end(v: Seq<Used>, i: int)
    requires
        0 <= i < v.len(),
    ensures
        i < run_end(v, i) <= v.len(),
    decreases v.len() - i,
{
    if i + 1 < v.len() && v[i + 1].gid == v[i].gid + 1 {
        lemma_run_end(v, i + 1);
    }
}

fn find_run_end(v: &Vec<Used>, i: usize) -> (j: usize)
    requires
        i < v@.len(),
    ensures
        j == run_end(v@, i as int),
        i < j <= v@.len(),
{
    assert(i < v.len());
    let mut j: usize = i + 1;
    while j < v.len() && v[j].gid as u32 == v[j - 1].gid as u32 + 1
        invariant
            i < j <= v@.len(),
            run_end(v@, i as int) == run_end(v@, j - 1),
        decreases v@.len() - j,
    {
        j += 1;
    }
    j
}

fn push_run(out: &mut String, v: &Vec<Used>, i: usize, j: usize)
    requires
        i < j <= v@.len(),
    ensures
        final(out)@ == old(out)@ + widths_between(v@, i as int, j as int),
{
    push_decimal(out, v[i].width as u64);
    let mut k: usize = i + 1;
    proof {
        assert(out@ =~= old(out)@ + widths_between(v@, i as int, k as int));
    }
    while k < j
        invariant
            i < k <= j <= v@.len(),
            out@ == old(out)@ + widths_between(v@, i as int, k as int),
        decreases j - k,
    {
        out.append(" ");
        push_decimal(out, v[k].width as u64);
        k += 1;
        proof {
            assert(out@ =~= old(out)@ + widths_between(v@, i as int, k as int));
        }
    }
}

fn push_width_runs(out: &mut String, v: &Vec<Used>)
    ensures
        final(out)@ == old(out)@ + width_runs(v@, 0),
{
    let mut i: usize = 0;
    while i < v.len()
        invariant
            i <= v@.len(),
            out@ + width_runs(v@, i as int) == old(out)@ + width_runs(v@, 0),
        decreases v@.len() - i,
    {
        let ghost before = out@;
        let j: usize = find_run_end(v, i);
        push_decimal(out, v[i].gid as u64);
        out.append(" [");
        push_run(out, v, i, j);
        out.append("] ");
        proof {
            assert(out@ + width_runs(v@, j as int) =~= before + width_runs(v@, i as int));
        }
        i = j;
    }
    proof {
        assert(out@ + width_runs(v@, i as int) =~= out@);
    }
}

fn push_lines(out: &mut String, v: &Vec<Used>, i: usize, j: usize)
    requires
        i <= j <= v@.len(),
    ensures
        final(out)@ == old(out)@ + character_lines(v@, i as int, j as int),
{
    let mut k: usize = i;
    proof {
        assert(out@ =~= old(out)@ + character_lines(v@, i as int, k as int));
    }
    while k < j
        invariant
            i <= k <= j <= v@.len(),
            out@ == old(out)@ + character_lines(v@, i as int, k as int),
        decreases j - k,
    {
        out.append("<");
        push_upper_hex(out, v[k].gid as u32, 4);
        out.append("> <");
        push_units(out, v[k].character);
        out.append(">\n");
        k += 1;
        proof {
            assert(out@ =~= old(out)@ + character_lines(v@, i as int, k as int));
        }
    }
}

fn push_sections(out: &mut String, v: &Vec<Used>)
    ensures
        final(out)@ == old(out)@ + character_sections(v@, 0),
{
    let mut i: usize = 0;
    while i < v.len()
        invariant
            i <= v@.len(),
            out@ + character_sections(v@, i as int) == old(out)@ + character_sections(v@, 0),
        decreases v@.len() - i,
    {
        let ghost before = out@;
        let j: usize = if 100 < v.len() - i {
            i + 100
        } else {
            v.len()
        };
        push_decimal(out, (j - i) as u64);
        out.append(" beginbfchar\n");
        push_lines(out, v, i, j);
        out.append("endbfchar\n");
        proof {
            assert(out@ + character_sections(v@, j as int) =~= before + character_sections(
                v@,
                i as int,
            ));
        }
        i = j;
    }
    proof {
        assert(out@ + character_sections(v@, i as int) =~= out@);
    }
}

fn file_object(w: &mut Writer, data: &[u8]) -> (id: usize)
    ensures
        final(w)@ == old(w)@.push(
            Some(stream_body(file_dict(data@.len()), zlib_stream(data@))),
        ),
        id == final(w)@.len(),
{
    let compressed = zlib(data);
    let mut dict = String::from_str("<< /Length1 ");
    push_decimal(&mut dict, data.len() as u64);
    dict.append(" /Filter /FlateDecode >>");
    proof {
        assert(dict@ =~= file_dict(data@.len()));
    }
    w.add_stream(dict.as_str(), compressed.as_slice())
}

fn descriptor_object(w: &mut Writer, name: &str, file: usize) -> (id: usize)
    ensures
        final(w)@ == old(w)@.push(Some(octets(descriptor_text(name@, file as nat)))),
        id == final(w)@.len(),
{
    let mut text = String::from_str("<< /Type /FontDescriptor /FontName /");
    text.append(name);
    text.append(
        " /Flags 4 /FontBBox [-1000 -1000 2000 2000] /ItalicAngle 0 /Ascent 880 /Descent -120 /CapHeight 700 /StemV 80 /FontFile2 ",
    );
    push_decimal(&mut text, file as u64);
    text.append(" 0 R >>");
    proof {
        assert(text@ =~= descriptor_text(name@, file as nat));
    }
    w.add(text.as_str())
}

fn cid_object(w: &mut Writer, name: &str, descriptor: usize, used: &Vec<Used>) -> (id: usize)
    ensures
        final(w)@ == old(w)@.push(Some(octets(cid_font(name@, descriptor as nat, used@)))),
        id == final(w)@.len(),
{
    let mut text = String::from_str("<< /Type /Font /Subtype /CIDFontType2 /BaseFont /");
    text.append(name);
    text.append(
        " /CIDSystemInfo << /Registry (Adobe) /Ordering (Identity) /Supplement 0 >> /FontDescriptor ",
    );
    push_decimal(&mut text, descriptor as u64);
    text.append(" 0 R /DW 1000 /W [");
    push_width_runs(&mut text, used);
    text.append("] /CIDToGIDMap /Identity >>");
    proof {
        assert(text@ =~= cid_font(name@, descriptor as nat, used@));
    }
    w.add(text.as_str())
}

fn map_object(w: &mut Writer, used: &Vec<Used>) -> (id: usize)
    ensures
        final(w)@ == old(w)@.push(
            Some(stream_body("<< >>"@, octets(character_map(used@)))),
        ),
        id == final(w)@.len(),
{
    let mut text = String::new();
    text.append(
        "/CIDInit /ProcSet findresource begin 12 dict begin begincmap\n/CMapName /Identity-UCS def /CMapType 2 def\n/CIDSystemInfo << /Registry (Adobe) /Ordering (UCS) /Supplement 0 >> def\n1 begincodespacerange <0000> <FFFF> endcodespacerange\n",
    );
    push_sections(&mut text, used);
    text.append("endcmap CMapName currentdict /CMap defineresource pop end end");
    proof {
        assert(text@ =~= character_map(used@));
        reveal(octets);
    }
    w.add_stream("<< >>", text.as_str().as_bytes())
}

/// Writes an embedded font into the object claimed for it.
///
/// The font is keyed by glyph number, so the text operand carries glyph
/// numbers and a map carries the characters back. That combination renders and
/// copies correctly in any reader, with nothing installed.
pub fn embed_font(w: &mut Writer, id: usize, font: &Font, data: &[u8], used: &Vec<Used>)
    requires
        1 <= id <= old(w)@.len(),
    ensures
        final(w)@ == (old(w)@ + font_objects(
            font.name@,
            data@,
            used@,
            old(w)@.len() + 1,
        )).update(
            id - 1,
            Some(octets(composite_font(font.name@, old(w)@.len() + 3, old(w)@.len() + 4))),
        ),
{
    let ghost before = w@;
    let name: &str = font.name.as_str();
    let file: usize = file_object(w, data);
    let descriptor: usize = descriptor_object(w, name, file);
    let cid: usize = cid_object(w, name, descriptor, used);
    let to_unicode: usize = map_object(w, used);
    let mut text = String::from_str("<< /Type /Font /Subtype /Type0 /BaseFont /");
    text.append(name);
    text.append(" /Encoding /Identity-H /DescendantFonts [");
    push_decimal(&mut text, cid as u64);
    text.append(" 0 R] /ToUnicode ");
    push_decimal(&mut text, to_unicode as u64);
    text.append(" 0 R >>");
    proof {
        assert(text@ =~= composite_font(name@, before.len() + 3, before.len() + 4));
        assert(w@ =~= before + font_objects(name@, data@, used@, before.len() + 1));
    }
    w.set(id, text.as_str());
}

/// The font file that goes into the document: the subset, or the whole font
/// where there is none. None where the subset cannot be made after all.
pub open spec fn embedded_file(font: Seq<u8>, subset: Option<Seq<u16>>) -> Option<Seq<u8>> {
    match subset {
        Some(order) => subset_of(font, order),
        None => Some(font),
    }
}

/// The object claimed for the embedded font, when no text uses it.
pub open spec fn unused_font() -> Seq<char> {
    "<< /Type /Font /Subtype /Type1 /BaseFont /Helvetica >>"@
}

impl Glyphs {
    /// Fills in the object claimed for the embedded font, once every page has
    /// been drawn. Gives false, and leaves the object unfilled, where the
    /// subset cannot be made.
    pub fn embed(&self, w: &mut Writer, id: usize, font: &Font) -> (done: bool)
        requires
            1 <= id <= old(w)@.len(),
        ensures
            if self@.used.len() == 0 {
                done && final(w)@ == old(w)@.update(id - 1, Some(octets(unused_font())))
            } else {
                match embedded_file(font.data@, self@.order) {
                    Some(file) => done && final(w)@ == (old(w)@ + font_objects(
                        font.name@,
                        file,
                        self@.used,
                        old(w)@.len() + 1,
                    )).update(
                        id - 1,
                        Some(
                            octets(
                                composite_font(font.name@, old(w)@.len() + 3, old(w)@.len() + 4),
                            ),
                        ),
                    ),
                    None => !done && final(w)@ == old(w)@,
                }
            },
    {
        if self.is_empty() {
            w.set(id, "<< /Type /Font /Subtype /Type1 /BaseFont /Helvetica >>");
            return true;
        }
        match self.remapper() {
            Some(m) => match take_glyphs(font.data.as_slice(), m) {
                Some(file) => {
                    embed_font(w, id, font, file.as_slice(), self.used());
                    true
                },
                None => false,
            },
            None => {
                embed_font(w, id, font, font.data.as_slice(), self.used());
                true
            },
        }
    }
}

} // verus!
