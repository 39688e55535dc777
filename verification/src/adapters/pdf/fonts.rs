//! The fonts of a PDF: the faces that a reader supplies, and the one that the
//! caller has embedded.
use crate::adapters::pdf::subset::{
    assigned, glyph_count, glyph_order, new_order, remap, take_glyphs, subset_of,
};
use crate::adapters::pdf::words::{push_units, unit_text};
use crate::adapters::pdf::writer::{octets, stream_body, Writer};
use crate::domain::output::Language;
use crate::domain::rendering::FontKind;
use crate::infrastructure::ttf::{at_most, Font};
use crate::text::{decimal, push_decimal, push_upper_hex, upper_hex};
use subsetter::GlyphRemapper;
use vstd::prelude::*;
use vstd::string::*;

verus! {

/// The objects of the fonts that a page can name.
#[derive(Debug, Clone, Copy, PartialEq, Eq)]
pub struct FontIds {
    /// The face for Latin notes.
    pub latin: usize,
    /// The face that stands for any Japanese text.
    pub cjk: Option<usize>,
    pub mincho: Option<usize>,
    pub pmincho: Option<usize>,
    pub pgothic: Option<usize>,
}

/// The text of the Latin face.
pub open spec fn latin_font() -> Seq<char> {
    "<< /Type /Font /Subtype /Type1 /BaseFont /Helvetica /Encoding /WinAnsiEncoding >>"@
}

/// The start of every character map.
pub open spec fn cmap_head() -> Seq<char> {
    "/CIDInit /ProcSet findresource begin 12 dict begin begincmap\n/CMapName /Identity-UCS def /CMapType 2 def\n/CIDSystemInfo << /Registry (Adobe) /Ordering (UCS) /Supplement 0 >> def\n1 begincodespacerange <0000> <FFFF> endcodespacerange\n"@
}

/// The end of every character map.
pub open spec fn cmap_end() -> Seq<char> {
    "endcmap CMapName currentdict /CMap defineresource pop end end"@
}

/// The map from 16-bit codes to characters that leaves each as it is. With it
/// a reader without the face can still copy and search the text.
pub open spec fn identity_map() -> Seq<char> {
    cmap_head() + "1 beginbfrange <0000> <FFFF> <0000> endbfrange\n"@ + cmap_end()
}

/// The descriptor of the face that stands for any Japanese text.
pub open spec fn cjk_descriptor() -> Seq<char> {
    "<< /Type /FontDescriptor /FontName /MS-Mincho /Flags 6 /FontBBox [-1000 -140 1000 859] /ItalicAngle 0 /Ascent 859 /Descent -140 /CapHeight 679 /StemV 1000 >>"@
}

/// The descriptor of a Japanese system face.
pub open spec fn face_descriptor(name: Seq<char>) -> Seq<char> {
    "<< /Type /FontDescriptor /FontName /"@ + name
        + " /Flags 6 /ItalicAngle 0 /Ascent 859 /Descent -140 /CapHeight 679 /StemV 1000 >>"@
}

/// The descendant font of a Japanese system face.
pub open spec fn face_descendant(name: Seq<char>, descriptor: nat) -> Seq<char> {
    "<< /Type /Font /Subtype /CIDFontType2 /BaseFont /"@ + name
        + " /CIDSystemInfo << /Registry (Adobe) /Ordering (Japan1) /Supplement 4 >> /FontDescriptor "@
        + decimal(descriptor) + " 0 R /DW 1000 >>"@
}

/// The composite font of a Japanese system face.
pub open spec fn face_font(name: Seq<char>, descendant: nat, to_unicode: nat) -> Seq<char> {
    "<< /Type /Font /Subtype /Type0 /BaseFont /"@ + name
        + " /Encoding /UniJIS-UTF16-H /DescendantFonts ["@ + decimal(descendant)
        + " 0 R] /ToUnicode "@ + decimal(to_unicode) + " 0 R >>"@
}

/// The four objects of a Japanese face, the first of which gets the number
/// `first`. The last is the font itself.
#[verifier::opaque]
pub open spec fn face_objects(name: Seq<char>, descriptor: Seq<char>, first: nat) -> Seq<
    Option<Seq<u8>>,
> {
    seq![
        Some(octets(descriptor)),
        Some(octets(face_descendant(name, first))),
        Some(stream_body("<< >>"@, octets(identity_map()))),
        Some(octets(face_font(name, first + 1, first + 2))),
    ]
}

fn push_descendant(out: &mut String, name: &str, descriptor: usize)
    ensures
        final(out)@ == old(out)@ + face_descendant(name@, descriptor as nat),
{
    out.append("<< /Type /Font /Subtype /CIDFontType2 /BaseFont /");
    out.append(name);
    out.append(
        " /CIDSystemInfo << /Registry (Adobe) /Ordering (Japan1) /Supplement 4 >> /FontDescriptor ",
    );
    push_decimal(out, descriptor as u64);
    out.append(" 0 R /DW 1000 >>");
    proof {
        assert(out@ =~= old(out)@ + face_descendant(name@, descriptor as nat));
    }
}

fn push_face(out: &mut String, name: &str, descendant: usize, to_unicode: usize)
    ensures
        final(out)@ == old(out)@ + face_font(name@, descendant as nat, to_unicode as nat),
{
    out.append("<< /Type /Font /Subtype /Type0 /BaseFont /");
    out.append(name);
    out.append(" /Encoding /UniJIS-UTF16-H /DescendantFonts [");
    push_decimal(out, descendant as u64);
    out.append(" 0 R] /ToUnicode ");
    push_decimal(out, to_unicode as u64);
    out.append(" 0 R >>");
    proof {
        assert(out@ =~= old(out)@ + face_font(name@, descendant as nat, to_unicode as nat));
    }
}

fn push_cmap_head(out: &mut String)
    ensures
        final(out)@ == old(out)@ + cmap_head(),
{
    out.append(
        "/CIDInit /ProcSet findresource begin 12 dict begin begincmap\n/CMapName /Identity-UCS def /CMapType 2 def\n/CIDSystemInfo << /Registry (Adobe) /Ordering (UCS) /Supplement 0 >> def\n1 begincodespacerange <0000> <FFFF> endcodespacerange\n",
    );
}

fn face(w: &mut Writer, name: &str, descriptor: &str) -> (id: usize)
    ensures
        final(w)@ == old(w)@ + face_objects(name@, descriptor@, old(w)@.len() + 1),
        final(w)@.len() == old(w)@.len() + 4,
        id == final(w)@.len(),
{
    let ghost before = w@;
    let d: usize = w.add(descriptor);
    let mut text = String::new();
    push_descendant(&mut text, name, d);
    proof {
        assert(text@ =~= face_descendant(name@, before.len() + 1));
    }
    let descendant: usize = w.add(text.as_str());
    let mut map = String::new();
    push_cmap_head(&mut map);
    map.append("1 beginbfrange <0000> <FFFF> <0000> endbfrange\n");
    map.append("endcmap CMapName currentdict /CMap defineresource pop end end");
    proof {
        assert(map@ =~= identity_map());
        reveal(octets);
    }
    let to_unicode: usize = w.add_stream("<< >>", map.as_str().as_bytes());
    let mut font = String::new();
    push_face(&mut font, name, descendant, to_unicode);
    proof {
        assert(font@ =~= face_font(name@, before.len() + 2, before.len() + 3));
    }
    let id: usize = w.add(font.as_str());
    proof {
        reveal(face_objects);
        assert(w@ =~= before + face_objects(name@, descriptor@, before.len() + 1));
    }
    id
}

/// A Japanese system face used by a source text run. It is deliberately
/// separate from the face that stands for any Japanese text: punctuation in a
/// run must keep the metrics and the glyph design of its own face.
pub fn named_japanese_font(w: &mut Writer, name: &str) -> (id: usize)
    ensures
        final(w)@ == old(w)@ + face_objects(name@, face_descriptor(name@), old(w)@.len() + 1),
        final(w)@.len() == old(w)@.len() + 4,
        id == final(w)@.len(),
{
    let mut descriptor = String::from_str("<< /Type /FontDescriptor /FontName /");
    descriptor.append(name);
    descriptor.append(
        " /Flags 6 /ItalicAngle 0 /Ascent 859 /Descent -140 /CapHeight 679 /StemV 1000 >>",
    );
    proof {
        assert(descriptor@ =~= face_descriptor(name@));
    }
    face(w, name, descriptor.as_str())
}

/// The fonts of a page in a language, where the first object gets the number
/// `first`: always a Latin face, and for Japanese one face for any text and
/// three of its own for the source faces.
pub open spec fn note_objects(lang: Language, first: nat) -> Seq<Option<Seq<u8>>> {
    match lang {
        Language::English => seq![Some(octets(latin_font()))],
        Language::Japanese => seq![Some(octets(latin_font()))] + japanese_objects(first + 1),
    }
}

/// The Japanese faces, where the first object gets the number `first`.
pub open spec fn japanese_objects(first: nat) -> Seq<Option<Seq<u8>>> {
    face_objects("MS-Mincho"@, cjk_descriptor(), first) + face_objects(
        "MS-Mincho"@,
        face_descriptor("MS-Mincho"@),
        first + 4,
    ) + face_objects("MS-PMincho"@, face_descriptor("MS-PMincho"@), first + 8) + face_objects(
        "MS-PGothic"@,
        face_descriptor("MS-PGothic"@),
        first + 12,
    )
}

fn japanese_faces(w: &mut Writer) -> (ids: (usize, usize, usize, usize))
    ensures
        final(w)@ == old(w)@ + japanese_objects(old(w)@.len() + 1),
        ids.0 == old(w)@.len() + 4,
        ids.1 == old(w)@.len() + 8,
        ids.2 == old(w)@.len() + 12,
        ids.3 == old(w)@.len() + 16,
{
    let ghost before = w@;
    let cjk: usize = face(
        w,
        "MS-Mincho",
        "<< /Type /FontDescriptor /FontName /MS-Mincho /Flags 6 /FontBBox [-1000 -140 1000 859] /ItalicAngle 0 /Ascent 859 /Descent -140 /CapHeight 679 /StemV 1000 >>",
    );
    let ghost a = w@;
    let mincho: usize = named_japanese_font(w, "MS-Mincho");
    let ghost b = w@;
    let pmincho: usize = named_japanese_font(w, "MS-PMincho");
    let ghost c = w@;
    let pgothic: usize = named_japanese_font(w, "MS-PGothic");
    proof {
        let first = before.len() + 1;
        assert(a.len() == before.len() + 4);
        assert(b.len() == before.len() + 8);
        assert(c.len() == before.len() + 12);
        assert(w@ =~= before + (face_objects("MS-Mincho"@, cjk_descriptor(), first) + face_objects(
            "MS-Mincho"@,
            face_descriptor("MS-Mincho"@),
            first + 4,
        ) + face_objects("MS-PMincho"@, face_descriptor("MS-PMincho"@), first + 8) + face_objects(
            "MS-PGothic"@,
            face_descriptor("MS-PGothic"@),
            first + 12,
        )));
    }
    (cjk, mincho, pmincho, pgothic)
}

/// Their numbers.
pub open spec fn note_ids(lang: Language, first: nat) -> FontIds {
    match lang {
        Language::English => FontIds {
            latin: first as usize,
            cjk: None,
            mincho: None,
            pmincho: None,
            pgothic: None,
        },
        Language::Japanese => FontIds {
            latin: first as usize,
            cjk: Some((first + 4) as usize),
            mincho: Some((first + 8) as usize),
            pmincho: Some((first + 12) as usize),
            pgothic: Some((first + 16) as usize),
        },
    }
}

/// The Japanese faces beside a Latin one, where the first of their objects
/// gets the number `first`.
pub open spec fn japanese_ids(latin: usize, first: nat) -> FontIds {
    FontIds {
        latin,
        cjk: Some((first + 3) as usize),
        mincho: Some((first + 7) as usize),
        pmincho: Some((first + 11) as usize),
        pgothic: Some((first + 15) as usize),
    }
}

/// Every face that Japanese text can name is there.
pub open spec fn has_japanese(ids: FontIds) -> bool {
    ids.cjk is Some && ids.mincho is Some && ids.pmincho is Some && ids.pgothic is Some
}

/// The fonts once a language has been asked for: those that were known, with
/// the faces that were missing for it.
pub open spec fn fonts_after(known: Option<FontIds>, lang: Language, first: nat) -> FontIds {
    match (known, lang) {
        (None, _) => note_ids(lang, first),
        (Some(ids), Language::Japanese) => if has_japanese(ids) {
            ids
        } else {
            japanese_ids(ids.latin, first)
        },
        (Some(ids), Language::English) => ids,
    }
}

/// The objects once a language has been asked for.
pub open spec fn with_faces(
    objects: Seq<Option<Seq<u8>>>,
    known: Option<FontIds>,
    lang: Language,
) -> Seq<Option<Seq<u8>>> {
    match (known, lang) {
        (None, _) => objects + note_objects(lang, objects.len() + 1),
        (Some(ids), Language::Japanese) => if has_japanese(ids) {
            objects
        } else {
            objects + japanese_objects(objects.len() + 1)
        },
        (Some(_), Language::English) => objects,
    }
}

/// The fonts that a page in a language may need. A face is made once and kept
/// for later pages; one that is still missing is added.
pub fn note_fonts(w: &mut Writer, cache: &mut Option<FontIds>, lang: Language) -> (ids: FontIds)
    ensures
        *final(cache) == Some(ids),
        ids == fonts_after(*old(cache), lang, old(w)@.len() + 1),
        final(w)@ == with_faces(old(w)@, *old(cache), lang),
{
    let ghost before = w@;
    let latin: usize = match *cache {
        Some(ids) => {
            let ready: bool = ids.cjk.is_some() && ids.mincho.is_some() && ids.pmincho.is_some()
                && ids.pgothic.is_some();
            if let Language::English = lang {
                return ids;
            }
            if ready {
                return ids;
            }
            ids.latin
        },
        None => w.add(
            "<< /Type /Font /Subtype /Type1 /BaseFont /Helvetica /Encoding /WinAnsiEncoding >>",
        ),
    };
    let ids: FontIds = match lang {
        Language::English => FontIds {
            latin,
            cjk: None,
            mincho: None,
            pmincho: None,
            pgothic: None,
        },
        Language::Japanese => {
            let (cjk, mincho, pmincho, pgothic) = japanese_faces(w);
            FontIds {
                latin,
                cjk: Some(cjk),
                mincho: Some(mincho),
                pmincho: Some(pmincho),
                pgothic: Some(pgothic),
            }
        },
    };
    proof {
        assert(w@ =~= with_faces(before, *cache, lang));
    }
    *cache = Some(ids);
    ids
}

/// Text that was recovered always finds its Japanese faces, whatever pages came
/// before; and a face that was made stays the same object.
pub proof fn law_faces_are_ready(known: Option<FontIds>, lang: Language, first: nat)
    ensures
        has_japanese(fonts_after(known, Language::Japanese, first)),
        known matches Some(ids) ==> fonts_after(known, lang, first).latin == ids.latin && (
        has_japanese(ids) ==> fonts_after(known, lang, first) == ids),
{
}

/// A font named among a page's resources.
pub open spec fn font_entry(name: Seq<char>, id: Option<usize>) -> Seq<char> {
    match id {
        Some(i) => name + decimal(i as nat) + " 0 R"@,
        None => Seq::empty(),
    }
}

/// The Japanese faces named among a page's resources.
pub open spec fn japanese_entries(ids: FontIds) -> Seq<char> {
    font_entry(" /FJ "@, ids.cjk) + font_entry(" /FM "@, ids.mincho) + font_entry(
        " /FP "@,
        ids.pmincho,
    ) + font_entry(" /FG "@, ids.pgothic)
}

/// The font resources of a page.
pub open spec fn resources_of(ids: FontIds) -> Seq<char> {
    "/FA "@ + decimal(ids.latin as nat) + " 0 R"@ + japanese_entries(ids)
}

fn push_font(out: &mut String, name: &str, id: Option<usize>)
    ensures
        final(out)@ == old(out)@ + font_entry(name@, id),
{
    if let Some(i) = id {
        out.append(name);
        push_decimal(out, i as u64);
        out.append(" 0 R");
    }
    proof {
        assert(out@ =~= old(out)@ + font_entry(name@, id));
    }
}

fn push_japanese(out: &mut String, ids: FontIds)
    ensures
        final(out)@ == old(out)@ + japanese_entries(ids),
{
    push_font(out, " /FJ ", ids.cjk);
    push_font(out, " /FM ", ids.mincho);
    push_font(out, " /FP ", ids.pmincho);
    push_font(out, " /FG ", ids.pgothic);
    proof {
        assert(out@ =~= old(out)@ + japanese_entries(ids));
    }
}

/// The font entries that a page needs in its resource dictionary.
pub fn font_resources(ids: FontIds) -> (out: String)
    ensures
        out@ == resources_of(ids),
{
    let mut out = String::from_str("/FA ");
    push_decimal(&mut out, ids.latin as u64);
    out.append(" 0 R");
    push_japanese(&mut out, ids);
    proof {
        assert(out@ =~= resources_of(ids));
    }
    out
}

/// The fonts of a page that shows recovered text. An embedded font takes the
/// Latin face's place.
pub open spec fn text_fonts(embedded: Option<usize>, ids: FontIds) -> Seq<char> {
    match embedded {
        Some(id) => resources_of(FontIds { latin: id, ..ids }),
        None => resources_of(ids),
    }
}

/// The fonts of a page that shows recovered text.
pub fn page_fonts(embedded: Option<usize>, ids: FontIds) -> (r: String)
    ensures
        r@ == text_fonts(embedded, ids),
{
    match embedded {
        Some(id) => font_resources(
            FontIds {
                latin: id,
                cjk: ids.cjk,
                mincho: ids.mincho,
                pmincho: ids.pmincho,
                pgothic: ids.pgothic,
            },
        ),
        None => font_resources(ids),
    }
}

/// One glyph that the text uses: its number in the embedded font, the
/// character that it stands for and its width.
#[derive(Debug, Clone, Copy, PartialEq, Eq, Structural)]
pub struct Used {
    pub gid: u16,
    pub character: char,
    pub width: u16,
}

/// The numbers rise.
pub open spec fn rising(v: Seq<Used>) -> bool {
    forall|i: int, j: int| 0 <= i < j < v.len() ==> (#[trigger] v[i]).gid < (#[trigger] v[j]).gid
}

/// The glyphs of the embedded font that the text uses.
pub struct Glyphs {
    /// The numbers that the glyphs get in the subset; none where the whole
    /// font is embedded.
    order: Option<GlyphRemapper>,
    /// The glyphs in use, their numbers rising.
    used: Vec<Used>,
}

/// The glyphs in use, their numbers rising, and the glyphs of the font in the
/// order of the subset, where there is one.
pub struct GlyphModel {
    pub used: Seq<Used>,
    pub order: Option<Seq<u16>>,
}

impl View for Glyphs {
    type V = GlyphModel;

    closed spec fn view(&self) -> GlyphModel {
        GlyphModel {
            used: self.used@,
            order: match self.order {
                Some(m) => Some(glyph_order(m)),
                None => None,
            },
        }
    }
}

impl Glyphs {
    /// The numbers of the glyphs in use rise.
    pub open spec fn wf(self) -> bool {
        rising(self@.used)
    }

    /// Starts without glyphs. A font that cannot be made smaller is embedded
    /// whole, and its glyphs keep their numbers.
    pub fn new(font: Option<&Font>) -> (g: Glyphs)
        ensures
            g.wf(),
            g@.used == Seq::<Used>::empty(),
            g@.order == (match font {
                Some(f) => if subset_of(f.data@, seq![0u16]) is Some {
                    Some(seq![0u16])
                } else {
                    None
                },
                None => None,
            }),
    {
        let order: Option<GlyphRemapper> = match font {
            Some(f) => {
                let fresh = new_order();
                match take_glyphs(f.data.as_slice(), &fresh) {
                    Some(_) => Some(fresh),
                    None => None,
                }
            },
            None => None,
        };
        Glyphs { order, used: Vec::new() }
    }

    /// The glyphs in use.
    pub fn used(&self) -> (v: &Vec<Used>)
        ensures
            v@ == self@.used,
    {
        &self.used
    }

    /// The order of the subset, where there is one.
    pub(crate) fn remapper(&self) -> (r: Option<&GlyphRemapper>)
        ensures
            match (r, self@.order) {
                (Some(m), Some(s)) => glyph_order(*m) == s,
                (None, None) => true,
                _ => false,
            },
    {
        match &self.order {
            Some(m) => Some(m),
            None => None,
        }
    }

    /// Whether any glyph is in use.
    pub fn is_empty(&self) -> (r: bool)
        ensures
            r == (self@.used.len() == 0),
    {
        self.used.len() == 0
    }
}

/// A glyph list with `u` in it, in the place of one with its number.
pub open spec fn with_glyph(v: Seq<Used>, u: Used) -> Seq<Used>
    decreases v.len(),
{
    if v.len() == 0 {
        seq![u]
    } else if v.last().gid < u.gid {
        v.push(u)
    } else if v.last().gid == u.gid {
        v.drop_last().push(u)
    } else {
        with_glyph(v.drop_last(), u).push(v.last())
    }
}

proof fn lemma_with_glyph(v: Seq<Used>, u: Used)
    requires
        rising(v),
    ensures
        rising(with_glyph(v, u)),
        forall|i: int|
            0 <= i < with_glyph(v, u).len() ==> (#[trigger] with_glyph(v, u)[i]) == u || v.contains(
                with_glyph(v, u)[i],
            ),
    decreases v.len(),
{
    let r = with_glyph(v, u);
    if v.len() > 0 {
        let front = v.drop_last();
        if v.last().gid > u.gid {
            lemma_with_glyph(front, u);
            assert forall|i: int| 0 <= i < r.len() implies (#[trigger] r[i]) == u || v.contains(
                r[i],
            ) by {
                if i < r.len() - 1 {
                    assert(r[i] == with_glyph(front, u)[i]);
                    if r[i] != u {
                        assert(front.contains(r[i]));
                        let k = choose|k: int| 0 <= k < front.len() && front[k] == r[i];
                        assert(v[k] == r[i]);
                    }
                } else {
                    assert(r[i] == v[v.len() - 1]);
                }
            }
            assert forall|i: int, j: int| 0 <= i < j < r.len() implies (#[trigger] r[i]).gid < (
            #[trigger] r[j]).gid by {
                if j == r.len() - 1 {
                    let x = with_glyph(front, u)[i];
                    assert(r[i] == x);
                    if x != u {
                        assert(front.contains(x));
                        let k = choose|k: int| 0 <= k < front.len() && front[k] == x;
                        assert(v[k].gid < v[v.len() - 1].gid);
                    }
                }
            }
        } else {
            assert forall|i: int| 0 <= i < r.len() implies (#[trigger] r[i]) == u || v.contains(
                r[i],
            ) by {
                if i < r.len() - 1 {
                    assert(r[i] == v[i]);
                }
            }
            assert forall|i: int, j: int| 0 <= i < j < r.len() implies (#[trigger] r[i]).gid < (
            #[trigger] r[j]).gid by {
                assert(r[i] == v[i]);
                if j < r.len() - 1 {
                    assert(r[j] == v[j]);
                } else {
                    assert(v[i].gid < v[v.len() - 1].gid || i == v.len() - 1);
                }
            }
        }
    }
}

fn insert(v: &mut Vec<Used>, u: Used)
    requires
        rising(old(v)@),
    ensures
        final(v)@ == with_glyph(old(v)@, u),
        rising(final(v)@),
{
    let ghost all = v@;
    let mut n: usize = v.len();
    proof {
        lemma_with_glyph(all, u);
        assert(all.take(n as int) =~= all);
        assert(all.skip(n as int) =~= Seq::<Used>::empty());
        assert(with_glyph(all, u) =~= with_glyph(all.take(n as int), u) + all.skip(n as int));
    }
    while n > 0 && v[n - 1].gid > u.gid
        invariant
            n <= v@.len(),
            v@ == all,
            with_glyph(all, u) == with_glyph(all.take(n as int), u) + all.skip(n as int),
        decreases n,
    {
        proof {
            let t = all.take(n as int);
            assert(t.drop_last() =~= all.take(n - 1));
            assert(t.last() == all[n - 1]);
            assert(all.skip(n - 1) =~= seq![all[n - 1]] + all.skip(n as int));
            assert(with_glyph(all, u) =~= with_glyph(all.take(n - 1), u) + all.skip(n - 1));
        }
        n -= 1;
    }
    proof {
        if n > 0 {
            assert(all.take(n as int).last() == all[n - 1]);
            assert(all.take(n as int).drop_last() =~= all.take(n - 1));
        } else {
            assert(all.take(0).len() == 0);
        }
    }
    if n > 0 && v[n - 1].gid == u.gid {
        v.set(n - 1, u);
        proof {
            assert(v@ =~= with_glyph(all, u));
        }
    } else {
        v.insert(n, u);
        proof {
            assert(v@ =~= with_glyph(all, u));
        }
    }
}

/// The width that a font gives a glyph, in thousandths of an em.
pub open spec fn glyph_width(f: Font, gid: u16) -> u16 {
    at_most(
        (if gid < f.model().advances.len() {
            f.model().advances[gid as int] as int
        } else {
            0
        }) * 1000 / f.model().units_per_em as int,
        0xFFFF,
    ) as u16
}

/// A character that the embedded Latin face can show.
pub open spec fn is_ascii_shown(c: char) -> bool {
    ' ' <= c && c <= '~'
}

/// The font that shows a character of a run. The run's own face is kept; a
/// character outside ASCII goes to the face for any Japanese text.
pub open spec fn face_name(kind: FontKind, c: char) -> Seq<char> {
    if !is_ascii_shown(c) {
        "/FJ"@
    } else {
        match kind {
            FontKind::Latin => "/FA"@,
            FontKind::JapaneseProportional => "/FP"@,
            FontKind::JapaneseProportionalGothic => "/FG"@,
            FontKind::Japanese => "/FM"@,
        }
    }
}

/// The font that shows a character of a run.
pub fn face_of(kind: FontKind, c: char) -> (s: &'static str)
    ensures
        s@ == face_name(kind, c),
{
    if !(' ' <= c && c <= '~') {
        "/FJ"
    } else {
        match kind {
            FontKind::Latin => "/FA",
            FontKind::JapaneseProportional => "/FP",
            FontKind::JapaneseProportionalGothic => "/FG",
            FontKind::Japanese => "/FM",
        }
    }
}

/// The embedded font shows the character.
pub open spec fn is_embedded(kind: FontKind, c: char) -> bool {
    kind == FontKind::Latin && is_ascii_shown(c)
}

/// The text-showing operand of a character that no embedded font shows: the
/// character's units for a Japanese face, one octet for the Latin one.
pub open spec fn plain_operand(kind: FontKind, c: char) -> Seq<char> {
    if is_embedded(kind, c) {
        "<"@ + upper_hex(c as nat, 2) + ">"@
    } else {
        "<"@ + unit_text(c) + ">"@
    }
}

/// The text-showing operand of a glyph of the embedded font.
pub open spec fn glyph_operand(gid: u16) -> Seq<char> {
    "<"@ + upper_hex(gid as nat, 4) + ">"@
}

/// The order of the subset after the font's glyph `gid` has been used: none
/// where the whole font is embedded. None at all where the order can take no
/// more.
pub open spec fn after_use(order: Option<Seq<u16>>, gid: u16) -> Option<Option<Seq<u16>>> {
    match order {
        Some(s) => if s.contains(gid) {
            Some(Some(s))
        } else if s.len() < 0xFFFF {
            Some(Some(s.push(gid)))
        } else {
            None
        },
        None => Some(None),
    }
}

/// The number of the font's glyph `own` in the embedded font: its place in the
/// order of the subset, or its own number where the whole font is embedded.
pub open spec fn glyph_number(order: Option<Seq<u16>>, own: u16) -> u16 {
    match order {
        Some(s) => s.index_of(own) as u16,
        None => own,
    }
}

/// The text-showing operand of a character, and the glyphs after it. A Latin
/// character is shown by the embedded font where there is one; without a glyph
/// for it there, it is left out.
pub open spec fn shown_char(font: Option<Font>, kind: FontKind, c: char, g: GlyphModel) -> (
    Option<Seq<char>>,
    GlyphModel,
) {
    match font {
        Some(f) => if !is_embedded(kind, c) {
            (Some(plain_operand(kind, c)), g)
        } else if !f.model().map.contains_key(c as u32) {
            (None, g)
        } else {
            let own = f.model().map[c as u32];
            match after_use(g.order, own) {
                Some(order) => {
                    let gid = glyph_number(order, own);
                    (
                        Some(glyph_operand(gid)),
                        GlyphModel {
                            used: with_glyph(
                                g.used,
                                Used { gid, character: c, width: glyph_width(f, own) },
                            ),
                            order,
                        },
                    )
                },
                None => (None, g),
            }
        },
        None => (Some(plain_operand(kind, c)), g),
    }
}

/// The font, without the reference.
pub open spec fn font_of(font: Option<&Font>) -> Option<Font> {
    match font {
        Some(f) => Some(*f),
        None => None,
    }
}

impl Glyphs {
    fn number(&mut self, own: u16) -> (r: Option<u16>)
        requires
            old(self).wf(),
        ensures
            final(self).wf(),
            final(self)@.used == old(self)@.used,
            match (r, after_use(old(self)@.order, own)) {
                (Some(n), Some(order)) => final(self)@.order == order && n == glyph_number(
                    order,
                    own,
                ),
                (None, None) => final(self)@.order == old(self)@.order,
                _ => false,
            },
    {
        match &mut self.order {
            Some(m) => match assigned(m, own) {
                Some(g) => {
                    proof {
                        let s = glyph_order(*m);
                        assert(s[g as int] == own);
                        assert(s.contains(own));
                        assert(s[s.index_of(own)] == own);
                    }
                    Some(g)
                },
                None => {
                    if glyph_count(m) == 0xFFFF {
                        return None;
                    }
                    let ghost before = glyph_order(*m);
                    let g: u16 = remap(m, own);
                    proof {
                        let s = glyph_order(*m);
                        assert(s == before.push(own));
                        assert(s[before.len() as int] == own);
                        assert(s.contains(own));
                        assert(s[s.index_of(own)] == own);
                    }
                    Some(g)
                },
            },
            None => Some(own),
        }
    }

    /// The text-showing operand of a character. None where the embedded font
    /// would show it and has no glyph for it; the character is then left out.
    pub fn operand(&mut self, font: Option<&Font>, kind: FontKind, c: char) -> (r: Option<String>)
        requires
            old(self).wf(),
            font matches Some(f) ==> f.wf(),
        ensures
            final(self).wf(),
            match (r, shown_char(font_of(font), kind, c, old(self)@).0) {
                (Some(s), Some(t)) => s@ == t,
                (None, None) => true,
                _ => false,
            },
            final(self)@ == shown_char(font_of(font), kind, c, old(self)@).1,
    {
        let embedded: bool = ' ' <= c && c <= '~' && kind == FontKind::Latin;
        let mut out = String::new();
        out.append("<");
        if !embedded {
            push_units(&mut out, c);
            out.append(">");
            proof {
                assert(out@ =~= plain_operand(kind, c));
            }
            return Some(out);
        }
        let f: &Font = match font {
            Some(f) => f,
            None => {
                push_upper_hex(&mut out, c as u32, 2);
                out.append(">");
                proof {
                    assert(out@ =~= plain_operand(kind, c));
                }
                return Some(out);
            },
        };
        let own: u16 = match f.glyph(c) {
            Some(g) => g,
            None => {
                return None;
            },
        };
        let gid: u16 = match self.number(own) {
            Some(g) => g,
            None => {
                return None;
            },
        };
        insert(&mut self.used, Used { gid, character: c, width: f.width(own) });
        push_upper_hex(&mut out, gid as u32, 4);
        out.append(">");
        proof {
            assert(out@ =~= glyph_operand(gid));
        }
        Some(out)
    }
}

} // verus!
