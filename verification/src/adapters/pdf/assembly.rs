//! The pages of a PDF put together, with what travels beside them: original
//! files, bookmarks for the gaps, and a note of how complete the file is.
use crate::adapters::pdf::fonts::{
    font_resources, fonts_after, note_fonts, page_fonts, resources_of, text_fonts, with_faces, FontIds,
};
use crate::adapters::pdf::words::{
    carried_name, source_name, string_object, text_string,
};
use crate::adapters::pdf::writer::{file_of, octets, stream_body, Writer};
use crate::domain::attachment::{extension_of, Attachment};
use crate::domain::output::Language;
use crate::text::{decimal, padded, push_decimal, push_padded};
use vstd::prelude::*;
use vstd::string::*;

verus! {

/// How to treat pages whose image cannot be recovered.
#[derive(Debug, Clone, Copy, PartialEq, Eq, Structural)]
pub enum Missing {
    /// Leave them out. Page numbering in the PDF will not match the original.
    Skip,
    /// Emit a blank page of the right size carrying a short note, so the page
    /// numbering still lines up with the original document.
    Placeholder,
}

/// Width and height in millionths of a point.
pub type Size = (u64, u64);

/// A4 on the 600 dpi page grid used by Windows print output.
pub const A4: Size = (595_320_000, 841_920_000);

/// US Letter.
pub const LETTER: Size = (612_000_000, 792_000_000);

/// Settings for a conversion. The font to embed is handed over beside them.
#[derive(Debug, Clone, PartialEq, Eq)]
pub struct Options {
    pub missing: Missing,
    /// Expand pages held in the container's own coding and redraw them from the
    /// metafile inside. On by default: it is the difference between a page of
    /// searchable text and an apology.
    pub decode: bool,
    /// Show preview entries as pages. Off by default: they are low resolution
    /// copies of other pages, not content.
    pub include_previews: bool,
    /// Put every page on one paper size, instead of the size each page
    /// declares. Images are centred and scaled down to fit; they are never
    /// scaled up.
    pub paper: Option<Size>,
    /// Carry any original file found inside the document as a PDF attachment,
    /// so the source travels with the conversion instead of beside it.
    pub embed_originals: bool,
    /// Language for the placeholder notes.
    pub lang: Language,
    /// Document title. The source file name is a sensible choice.
    pub title: Option<String>,
    /// Add bookmarks pointing at every page that could not be recovered, so an
    /// auditor can jump straight to the gaps instead of scrolling a long file.
    pub bookmark_gaps: bool,
    /// Attach the whole source document to the PDF. It roughly doubles the
    /// output, so it is off by default.
    pub carry_source: bool,
}

impl Default for Options {
    fn default() -> (o: Options)
        ensures
            o.missing == Missing::Placeholder,
            o.decode,
            !o.include_previews,
            o.paper is None,
            o.embed_originals,
            o.lang == Language::English,
            o.title is None,
            o.bookmark_gaps,
            !o.carry_source,
    {
        Options {
            missing: Missing::Placeholder,
            decode: true,
            include_previews: false,
            paper: None,
            embed_originals: true,
            lang: Language::English,
            title: None,
            bookmark_gaps: true,
            carry_source: false,
        }
    }
}

/// What ended up in the PDF.
#[derive(Debug, Clone, Copy, PartialEq, Eq)]
pub struct Report {
    pub embedded: usize,
    pub placeholders: usize,
    /// Pages redrawn from the metafile the container's own coding holds.
    pub drawn: usize,
    /// Characters placed from those metafiles.
    pub glyphs: usize,
    pub skipped: usize,
    /// Original files attached to the PDF.
    pub attachments: usize,
    /// Bookmarks pointing at unrecoverable pages.
    pub bookmarks: usize,
    /// Pictures recovered off sheets that could not themselves be reproduced.
    pub pictures_placed: usize,
}

impl Report {
    /// Nothing yet.
    pub open spec fn zero() -> Report {
        Report {
            embedded: 0,
            placeholders: 0,
            drawn: 0,
            glyphs: 0,
            skipped: 0,
            attachments: 0,
            bookmarks: 0,
            pictures_placed: 0,
        }
    }
}

impl Default for Report {
    fn default() -> (r: Report)
        ensures
            r == Report::zero(),
    {
        Report {
            embedded: 0,
            placeholders: 0,
            drawn: 0,
            glyphs: 0,
            skipped: 0,
            attachments: 0,
            bookmarks: 0,
            pictures_placed: 0,
        }
    }
}

// -------------------------------------------------------------- paper

/// Standard paper sizes, in hundredths of a millimetre, which the frame of a
/// scanned page may miss by a little. The orientation is part of each entry.
pub const STANDARD_PAPERS_MM100: [(u32, u32); 14] = [
    (10_500, 14_800),
    (14_800, 10_500),
    (14_800, 21_000),
    (21_000, 14_800),
    (18_200, 25_700),
    (25_700, 18_200),
    (21_000, 29_700),
    (29_700, 21_000),
    (21_590, 27_940),
    (27_940, 21_590),
    (25_700, 36_400),
    (36_400, 25_700),
    (29_700, 42_000),
    (42_000, 29_700),
];

/// How far a frame may miss a standard size.
pub const STANDARD_PAPER_TOLERANCE_MM100: u32 = 100;

/// The sizes differ by no more than the tolerance.
pub open spec fn is_close(a: u32, b: u32) -> bool {
    a <= b + STANDARD_PAPER_TOLERANCE_MM100 && b <= a + STANDARD_PAPER_TOLERANCE_MM100
}

/// The first standard size from `k` on that a paper is close to; the paper
/// itself where there is none.
pub open spec fn standard_from(paper: (u32, u32), k: int) -> (u32, u32)
    decreases 14 - k,
{
    if k < 0 || k >= 14 {
        paper
    } else if is_close(paper.0, STANDARD_PAPERS_MM100@[k].0) && is_close(
        paper.1,
        STANDARD_PAPERS_MM100@[k].1,
    ) {
        STANDARD_PAPERS_MM100@[k]
    } else {
        standard_from(paper, k + 1)
    }
}

/// A length in device units of a 600 dpi printer, rounded to the nearest.
pub open spec fn device_units(mm100: u32) -> nat {
    (60 * mm100 as nat + 127) / 254
}

/// The size of a page. Windows print drivers describe a page in 600 dpi
/// device units, of which each is 0.12 points.
pub open spec fn page_size(paper: (u32, u32)) -> Size {
    let p = standard_from(paper, 0);
    ((device_units(p.0) * 120_000) as u64, (device_units(p.1) * 120_000) as u64)
}

fn close(a: u32, b: u32) -> (r: bool)
    ensures
        r == is_close(a, b),
{
    if a < b {
        b - a <= STANDARD_PAPER_TOLERANCE_MM100
    } else {
        a - b <= STANDARD_PAPER_TOLERANCE_MM100
    }
}

/// The page of a paper size, on the grid that Windows printouts use. Bounds of
/// a scanned page can be about a millimetre short of a standard sheet; that
/// narrow case is recognised, and other paper sizes are kept.
pub fn pdf_paper_size(paper: (u32, u32)) -> (size: Size)
    ensures
        size == page_size(paper),
{
    let mut p: (u32, u32) = paper;
    let mut k: usize = 0;
    let mut found: bool = false;
    while k < 14 && !found
        invariant
            k <= 14,
            found ==> p == standard_from(paper, 0),
            !found ==> p == paper && standard_from(paper, k as int) == standard_from(paper, 0),
        decreases 14 - k,
    {
        let s: (u32, u32) = STANDARD_PAPERS_MM100[k];
        if close(paper.0, s.0) && close(paper.1, s.1) {
            p = s;
            found = true;
        }
        k += 1;
    }
    ((60 * p.0 as u64 + 127) / 254 * 120_000, (60 * p.1 as u64 + 127) / 254 * 120_000)
}

// -------------------------------------------------------------- pages

/// A length with two decimals, rounded to the nearest.
pub open spec fn length_text(v: u64) -> Seq<char> {
    let hundredths = (v as nat + 5_000) / 10_000;
    decimal(hundredths / 100) + "."@ + padded(decimal(hundredths % 100), 2, '0')
}

fn push_length(out: &mut String, v: u64)
    ensures
        final(out)@ == old(out)@ + length_text(v),
{
    let hundredths: u64 = v / 10_000 + (if v % 10_000 >= 5_000 {
        1
    } else {
        0
    });
    proof {
        assert(hundredths == (v as nat + 5_000) / 10_000);
    }
    push_decimal(out, hundredths / 100);
    out.append(".");
    push_padded(out, hundredths % 100, 2);
    proof {
        assert(out@ =~= old(out)@ + length_text(v));
    }
}

/// The turn left to the reader for a displayed page.
pub open spec fn display_turned(rotation: u16) -> u16 {
    if rotation % 90 == 0 {
        0
    } else {
        (rotation % 360) as u16
    }
}

/// The turn left to the reader for a sheet.
pub open spec fn sheet_turned(rotation: u16) -> u16 {
    if rotation % 180 == 90 {
        0
    } else {
        (rotation % 360) as u16
    }
}

/// The turn left to the reader for a displayed page. Quarter turns have been
/// applied to what is drawn.
pub fn display_turn(rotation: u16) -> (t: u16)
    ensures
        t == display_turned(rotation),
{
    match rotation % 360 {
        0 | 90 | 180 | 270 => 0,
        other => other,
    }
}

/// The turn left to the reader for a sheet. A page turned by a quarter is
/// emitted with its displayed dimensions, so nothing is left of its turn.
pub fn sheet_turn(rotation: u16) -> (t: u16)
    ensures
        t == sheet_turned(rotation),
{
    if rotation % 180 == 90 {
        0
    } else {
        rotation % 360
    }
}

/// The resource dictionary of a page.
pub open spec fn resources_text(fonts: Seq<char>, xobjects: Seq<char>) -> Seq<char> {
    if fonts.len() == 0 {
        "/XObject << "@ + xobjects + " >>"@
    } else if xobjects.len() == 0 {
        "/Font << "@ + fonts + " >>"@
    } else {
        "/Font << "@ + fonts + " >> /XObject << "@ + xobjects + " >>"@
    }
}

/// The entry for the turn left to the reader.
pub open spec fn turn_text(turn: u16) -> Seq<char> {
    if turn == 0 {
        ""@
    } else {
        " /Rotate "@ + decimal(turn as nat)
    }
}

/// A page.
pub open spec fn page_text(
    parent: nat,
    size: Size,
    turn: u16,
    fonts: Seq<char>,
    xobjects: Seq<char>,
    contents: nat,
) -> Seq<char> {
    "<< /Type /Page /Parent "@ + decimal(parent) + " 0 R /MediaBox [0 0 "@ + length_text(size.0)
        + " "@ + length_text(size.1) + "]"@ + turn_text(turn) + " /Resources << "@
        + resources_text(fonts, xobjects) + " >> /Contents "@ + decimal(contents) + " 0 R >>"@
}

fn push_resources(out: &mut String, fonts: &str, xobjects: &str)
    ensures
        final(out)@ == old(out)@ + resources_text(fonts@, xobjects@),
{
    if fonts.unicode_len() == 0 {
        out.append("/XObject << ");
        out.append(xobjects);
        out.append(" >>");
    } else if xobjects.unicode_len() == 0 {
        out.append("/Font << ");
        out.append(fonts);
        out.append(" >>");
    } else {
        out.append("/Font << ");
        out.append(fonts);
        out.append(" >> /XObject << ");
        out.append(xobjects);
        out.append(" >>");
    }
    proof {
        assert(out@ =~= old(out)@ + resources_text(fonts@, xobjects@));
    }
}

fn write_page(
    parent: usize,
    size: Size,
    turn: u16,
    fonts: &str,
    xobjects: &str,
    contents: usize,
) -> (out: String)
    ensures
        out@ == page_text(parent as nat, size, turn, fonts@, xobjects@, contents as nat),
{
    let mut out = String::from_str("<< /Type /Page /Parent ");
    push_decimal(&mut out, parent as u64);
    out.append(" 0 R /MediaBox [0 0 ");
    push_length(&mut out, size.0);
    out.append(" ");
    push_length(&mut out, size.1);
    out.append("]");
    if turn == 0 {
        out.append("");
    } else {
        out.append(" /Rotate ");
        push_decimal(&mut out, turn as u64);
    }
    out.append(" /Resources << ");
    push_resources(&mut out, fonts, xobjects);
    out.append(" >> /Contents ");
    push_decimal(&mut out, contents as u64);
    out.append(" 0 R >>");
    proof {
        assert(out@ =~= page_text(parent as nat, size, turn, fonts@, xobjects@, contents as nat));
    }
    out
}

/// What a page of the output is.
#[derive(Debug, Clone, Copy, PartialEq, Eq, Structural)]
pub enum Outcome {
    /// The page's own picture.
    Embedded { glyphs: usize, pictures: usize },
    /// A drawing that was decoded.
    Redrawn { glyphs: usize, pictures: usize },
    /// A note that the page with this number is not recovered.
    Gap { page_no: usize, pictures: usize },
    /// The note of a document without any page to show.
    Nothing,
}

/// The sum of two counts, as far as counts go.
pub open spec fn total(a: usize, b: usize) -> usize {
    if a + b <= usize::MAX {
        (a + b) as usize
    } else {
        usize::MAX
    }
}

/// The report after one more page.
pub open spec fn counted(r: Report, o: Outcome) -> Report {
    match o {
        Outcome::Embedded { glyphs, pictures } => Report {
            embedded: total(r.embedded, 1),
            glyphs: total(r.glyphs, glyphs),
            pictures_placed: total(r.pictures_placed, pictures),
            ..r
        },
        Outcome::Redrawn { glyphs, pictures } => Report {
            drawn: total(r.drawn, 1),
            glyphs: total(r.glyphs, glyphs),
            pictures_placed: total(r.pictures_placed, pictures),
            ..r
        },
        Outcome::Gap { page_no, pictures } => Report {
            placeholders: total(r.placeholders, 1),
            pictures_placed: total(r.pictures_placed, pictures),
            ..r
        },
        Outcome::Nothing => r,
    }
}

impl Report {
    /// Counts one more page.
    pub fn count(&mut self, o: Outcome)
        ensures
            *final(self) == counted(*old(self), o),
    {
        match o {
            Outcome::Embedded { glyphs, pictures } => {
                self.embedded = self.embedded.saturating_add(1);
                self.glyphs = self.glyphs.saturating_add(glyphs);
                self.pictures_placed = self.pictures_placed.saturating_add(pictures);
            },
            Outcome::Redrawn { glyphs, pictures } => {
                self.drawn = self.drawn.saturating_add(1);
                self.glyphs = self.glyphs.saturating_add(glyphs);
                self.pictures_placed = self.pictures_placed.saturating_add(pictures);
            },
            Outcome::Gap { pictures, .. } => {
                self.placeholders = self.placeholders.saturating_add(1);
                self.pictures_placed = self.pictures_placed.saturating_add(pictures);
            },
            Outcome::Nothing => {},
        }
    }
}

/// A PDF under construction.
pub struct Assembly {
    pub writer: Writer,
    /// The object claimed for the page tree.
    pub pages_id: usize,
    /// The object claimed for an embedded font. One serves every page, but
    /// which glyphs it must carry is only known once every page has been
    /// drawn.
    pub embedded: Option<usize>,
    pub fonts: Option<FontIds>,
    /// The page objects.
    pub kids: Vec<usize>,
    /// Object and page number of each page that is only a marker.
    pub gaps: Vec<(usize, usize)>,
    pub report: Report,
}

/// The fonts of a page that shows recovered text, or a note in English beside
/// an embedded font.
pub open spec fn fonts_named(embedded: Option<usize>, ids: FontIds, lang: Language) -> Seq<char> {
    match (embedded, lang) {
        (Some(id), Language::English) => "/FA "@ + decimal(id as nat) + " 0 R"@,
        _ => text_fonts(embedded, ids),
    }
}

/// A PDF under construction as a value.
#[verifier::ext_equal]
pub struct AssemblyModel {
    pub objects: Seq<Option<Seq<u8>>>,
    pub pages_id: usize,
    pub embedded: Option<usize>,
    pub fonts: Option<FontIds>,
    pub kids: Seq<usize>,
    pub gaps: Seq<(usize, usize)>,
    pub report: Report,
}

impl View for Assembly {
    type V = AssemblyModel;

    open spec fn view(&self) -> AssemblyModel {
        AssemblyModel {
            objects: self.writer@,
            pages_id: self.pages_id,
            embedded: self.embedded,
            fonts: self.fonts,
            kids: self.kids@,
            gaps: self.gaps@,
            report: self.report,
        }
    }
}

impl AssemblyModel {
    /// Nothing but the objects claimed in advance.
    pub open spec fn fresh(with_font: bool) -> AssemblyModel {
        AssemblyModel {
            objects: if with_font {
                seq![None::<Seq<u8>>, None]
            } else {
                seq![None::<Seq<u8>>]
            },
            pages_id: 1,
            embedded: if with_font {
                Some(2)
            } else {
                None
            },
            fonts: None,
            kids: Seq::empty(),
            gaps: Seq::empty(),
            report: Report::zero(),
        }
    }

    /// The fonts that there are once a language has been asked for.
    pub open spec fn fonts_for(self, lang: Language) -> FontIds {
        fonts_after(self.fonts, lang, self.objects.len() + 1)
    }

    /// The fonts for a language are made where they were missing.
    pub open spec fn with_fonts(self, lang: Language) -> AssemblyModel {
        AssemblyModel {
            objects: with_faces(self.objects, self.fonts, lang),
            fonts: Some(self.fonts_for(lang)),
            ..self
        }
    }

    /// One more page: its contents, then the page object, which the page tree
    /// will list and, where the page is a gap, the bookmarks too.
    pub open spec fn with_page(
        self,
        size: Size,
        turn: u16,
        fonts: Seq<char>,
        xobjects: Seq<char>,
        content: Seq<char>,
        outcome: Outcome,
    ) -> AssemblyModel {
        let id = (self.objects.len() + 2) as usize;
        AssemblyModel {
            objects: self.objects + seq![
                Some(stream_body("<< >>"@, octets(content))),
                Some(
                    octets(
                        page_text(
                            self.pages_id as nat,
                            size,
                            turn,
                            fonts,
                            xobjects,
                            self.objects.len() + 1,
                        ),
                    ),
                ),
            ],
            kids: self.kids.push(id),
            gaps: match outcome {
                Outcome::Gap { page_no, .. } => self.gaps.push((id, page_no)),
                _ => self.gaps,
            },
            report: counted(self.report, outcome),
            ..self
        }
    }

    /// One more page that is left out.
    pub open spec fn with_skip(self) -> AssemblyModel {
        AssemblyModel {
            report: Report { skipped: total(self.report.skipped, 1), ..self.report },
            ..self
        }
    }
}

impl Assembly {
    /// The objects claimed in advance are there.
    pub open spec fn wf(self) -> bool {
        &&& 1 <= self.pages_id <= self.writer@.len()
        &&& self.embedded matches Some(id) ==> 1 <= id <= self.writer@.len()
    }

    /// Starts a file, with an object for a font if one is to be embedded.
    pub fn new(with_font: bool) -> (a: Assembly)
        ensures
            a.wf(),
            a@ == AssemblyModel::fresh(with_font),
    {
        let mut writer = Writer::new();
        let pages_id: usize = writer.reserve();
        let embedded: Option<usize> = if with_font {
            Some(writer.reserve())
        } else {
            None
        };
        proof {
            if with_font {
                assert(writer@ =~= seq![None::<Seq<u8>>, None]);
            } else {
                assert(writer@ =~= seq![None::<Seq<u8>>]);
            }
        }
        Assembly {
            writer,
            pages_id,
            embedded,
            fonts: None,
            kids: Vec::new(),
            gaps: Vec::new(),
            report: Report::default(),
        }
    }

    /// Adds a page: its contents, then the page object, which the page tree
    /// will list and, where the page is a gap, the bookmarks too.
    pub fn add_page(
        &mut self,
        size: Size,
        turn: u16,
        fonts: &str,
        xobjects: &str,
        content: &str,
        outcome: Outcome,
    )
        requires
            old(self).wf(),
        ensures
            final(self).wf(),
            final(self)@ == old(self)@.with_page(
                size,
                turn,
                fonts@,
                xobjects@,
                content@,
                outcome,
            ),
    {
        let ghost before = self.writer@;
        proof {
            reveal(octets);
        }
        let cid: usize = self.writer.add_stream("<< >>", content.as_bytes());
        let text = write_page(self.pages_id, size, turn, fonts, xobjects, cid);
        let pid: usize = self.writer.add(text.as_str());
        self.kids.push(pid);
        if let Outcome::Gap { page_no, .. } = outcome {
            self.gaps.push((pid, page_no));
        }
        self.report.count(outcome);
        proof {
            assert(self.writer@ =~= before + seq![
                Some(stream_body("<< >>"@, octets(content@))),
                Some(
                    octets(
                        page_text(
                            self.pages_id as nat,
                            size,
                            turn,
                            fonts@,
                            xobjects@,
                            before.len() + 1,
                        ),
                    ),
                ),
            ]);
        }
    }

    /// Makes sure that the fonts for a language are there, and names them among
    /// a page's resources.
    pub fn note_resources(&mut self, lang: Language) -> (r: String)
        requires
            old(self).wf(),
        ensures
            final(self).wf(),
            final(self)@ == old(self)@.with_fonts(lang),
            r@ == resources_of(old(self)@.fonts_for(lang)),
    {
        let ids = note_fonts(&mut self.writer, &mut self.fonts, lang);
        font_resources(ids)
    }

    /// Makes sure that the fonts for a language are there, and names them among
    /// the resources of a page that shows recovered text.
    pub fn text_resources(&mut self, lang: Language) -> (r: String)
        requires
            old(self).wf(),
        ensures
            final(self).wf(),
            final(self)@ == old(self)@.with_fonts(lang),
            r@ == fonts_named(old(self).embedded, old(self)@.fonts_for(lang), lang),
    {
        let ids = note_fonts(&mut self.writer, &mut self.fonts, lang);
        match (self.embedded, lang) {
            (Some(id), Language::English) => {
                let mut s = String::from_str("/FA ");
                push_decimal(&mut s, id as u64);
                s.append(" 0 R");
                s
            },
            _ => page_fonts(self.embedded, ids),
        }
    }

    /// Counts a page that is left out.
    pub fn skip_page(&mut self)
        requires
            old(self).wf(),
        ensures
            final(self).wf(),
            final(self)@ == old(self)@.with_skip(),
    {
        self.report.skipped = self.report.skipped.saturating_add(1);
    }
}

// --------------------------------------------------- what travels along

/// References to objects, with spaces between them.
pub open spec fn references(ids: Seq<usize>) -> Seq<char>
    decreases ids.len(),
{
    if ids.len() == 0 {
        Seq::empty()
    } else if ids.len() == 1 {
        decimal(ids[0] as nat) + " 0 R"@
    } else {
        references(ids.drop_last()) + " "@ + decimal(ids.last() as nat) + " 0 R"@
    }
}

/// The page tree.
pub open spec fn page_tree(kids: Seq<usize>) -> Seq<char> {
    "<< /Type /Pages /Count "@ + decimal(kids.len()) + " /Kids ["@ + references(kids) + "] >>"@
}

fn push_references(out: &mut String, ids: &Vec<usize>)
    ensures
        final(out)@ == old(out)@ + references(ids@),
{
    let mut i: usize = 0;
    proof {
        assert(out@ =~= old(out)@ + references(ids@.take(0)));
    }
    while i < ids.len()
        invariant
            i <= ids@.len(),
            out@ == old(out)@ + references(ids@.take(i as int)),
        decreases ids@.len() - i,
    {
        proof {
            assert(ids@.take(i + 1).drop_last() =~= ids@.take(i as int));
            assert(ids@.take(i + 1).last() == ids@[i as int]);
        }
        if i > 0 {
            out.append(" ");
        }
        push_decimal(out, ids[i] as u64);
        out.append(" 0 R");
        i += 1;
        proof {
            assert(out@ =~= old(out)@ + references(ids@.take(i as int)));
        }
    }
    proof {
        assert(ids@.take(i as int) =~= ids@);
    }
}

/// The dictionary of an attached file.
pub open spec fn file_dict(len: nat) -> Seq<char> {
    "<< /Type /EmbeddedFile /Params << /Size "@ + decimal(len) + " >> >>"@
}

/// The entry that describes an attached file.
pub open spec fn file_entry(name: Seq<char>, description: Seq<char>, stream: nat) -> Seq<char> {
    "<< /Type /Filespec /F ("@ + name + ") /UF ("@ + name + ") /Desc ("@ + description
        + ") /EF << /F "@ + decimal(stream) + " 0 R >> >>"@
}

/// An attached file named in the catalog.
pub open spec fn name_entry(name: Seq<char>, id: nat) -> Seq<char> {
    "("@ + name + ") "@ + decimal(id) + " 0 R"@
}

/// What an original file is described as.
pub open spec fn original_description() -> Seq<char> {
    "original file carried inside the source document"@
}

/// What the carried source is described as.
pub open spec fn source_description() -> Seq<char> {
    "the source document this file was made from"@
}

/// The name that the `n`-th original file gets.
pub open spec fn original_name(n: nat, extension: Seq<char>) -> Seq<char> {
    "original"@ + decimal(n) + "."@ + extension
}

/// The objects and the catalog's names after a file has been attached.
pub open spec fn attached(
    objects: Seq<Option<Seq<u8>>>,
    names: Seq<char>,
    payload: Seq<u8>,
    name: Seq<char>,
    description: Seq<char>,
) -> (Seq<Option<Seq<u8>>>, Seq<char>) {
    (
        objects + seq![
            Some(stream_body(file_dict(payload.len()), payload)),
            Some(octets(file_entry(name, description, objects.len() + 1))),
        ],
        if names.len() == 0 {
            name_entry(name, objects.len() + 2)
        } else {
            names + " "@ + name_entry(name, objects.len() + 2)
        },
    )
}

fn attach(w: &mut Writer, names: &mut String, payload: &[u8], name: &str, description: &str)
    ensures
        (final(w)@, final(names)@) == attached(
            old(w)@,
            old(names)@,
            payload@,
            name@,
            description@,
        ),
{
    let ghost before = w@;
    let ghost listed = names@;
    let mut dict = String::from_str("<< /Type /EmbeddedFile /Params << /Size ");
    push_decimal(&mut dict, payload.len() as u64);
    dict.append(" >> >>");
    proof {
        assert(dict@ =~= file_dict(payload@.len()));
    }
    let stream: usize = w.add_stream(dict.as_str(), payload);
    let mut entry = String::from_str("<< /Type /Filespec /F (");
    entry.append(name);
    entry.append(") /UF (");
    entry.append(name);
    entry.append(") /Desc (");
    entry.append(description);
    entry.append(") /EF << /F ");
    push_decimal(&mut entry, stream as u64);
    entry.append(" 0 R >> >>");
    proof {
        assert(entry@ =~= file_entry(name@, description@, before.len() + 1));
    }
    let id: usize = w.add(entry.as_str());
    if names.as_str().unicode_len() > 0 {
        names.append(" ");
    }
    names.append("(");
    names.append(name);
    names.append(") ");
    push_decimal(names, id as u64);
    names.append(" 0 R");
    proof {
        let want = attached(before, listed, payload@, name@, description@);
        assert(w@ =~= want.0);
        assert(names@ =~= want.1);
    }
}

/// The objects and names after the first `n` original files.
pub open spec fn originals_attached(
    objects: Seq<Option<Seq<u8>>>,
    data: Seq<u8>,
    files: Seq<Attachment>,
    n: int,
) -> (Seq<Option<Seq<u8>>>, Seq<char>)
    decreases n,
{
    if n <= 0 {
        (objects, Seq::empty())
    } else {
        let (before, names) = originals_attached(objects, data, files, n - 1);
        let a = files[n - 1];
        attached(
            before,
            names,
            data.subrange(a.offset as int, a.offset + a.len),
            original_name(n as nat, extension_of(a.kind)),
            original_description(),
        )
    }
}

fn attach_originals(w: &mut Writer, data: &[u8], files: &Vec<Attachment>) -> (names: String)
    requires
        forall|k: int| 0 <= k < files@.len() ==> (#[trigger] files@[k]).fits(data@.len()),
    ensures
        (final(w)@, names@) == originals_attached(
            old(w)@,
            data@,
            files@,
            files@.len() as int,
        ),
{
    let mut names = String::new();
    let mut i: usize = 0;
    proof {
        assert(names@ =~= Seq::<char>::empty());
    }
    while i < files.len()
        invariant
            i <= files@.len(),
            forall|k: int| 0 <= k < files@.len() ==> (#[trigger] files@[k]).fits(data@.len()),
            (w@, names@) == originals_attached(old(w)@, data@, files@, i as int),
        decreases files@.len() - i,
    {
        let a: &Attachment = &files[i];
        assert(a.fits(data@.len()));
        let payload: &[u8] = a.bytes(data);
        let mut name = String::from_str("original");
        push_decimal(&mut name, i as u64 + 1);
        name.append(".");
        name.append(a.kind.extension());
        proof {
            assert(name@ =~= original_name((i + 1) as nat, extension_of(a.kind)));
        }
        attach(
            w,
            &mut names,
            payload,
            name.as_str(),
            "original file carried inside the source document",
        );
        i += 1;
    }
    names
}

// ---------------------------------------------------------- bookmarks

/// The bookmark of the `k`-th gap. The bookmarks' objects follow the outline's
/// root, which has the number `root`.
pub open spec fn bookmark(gaps: Seq<(usize, usize)>, root: nat, k: int) -> Seq<char> {
    "<< /Title (Page "@ + decimal(gaps[k].1 as nat) + " not recovered) /Parent "@ + decimal(root)
        + " 0 R /Dest ["@ + decimal(gaps[k].0 as nat) + " 0 R /XYZ null null null]"@ + (if k > 0 {
        " /Prev "@ + decimal((root + k) as nat) + " 0 R"@
    } else {
        ""@
    }) + (if k + 1 < gaps.len() {
        " /Next "@ + decimal((root + k + 2) as nat) + " 0 R"@
    } else {
        ""@
    }) + " >>"@
}

/// The root of the outline.
pub open spec fn outline_root(root: nat, n: nat) -> Seq<char> {
    "<< /Type /Outlines /Count "@ + decimal(n) + " /First "@ + decimal(root + 1) + " 0 R /Last "@
        + decimal(root + n) + " 0 R >>"@
}

/// The objects of the outline: its root, then a bookmark for each gap.
pub open spec fn outline_objects(gaps: Seq<(usize, usize)>, root: nat) -> Seq<Option<Seq<u8>>> {
    seq![Some(octets(outline_root(root, gaps.len())))] + Seq::new(
        gaps.len(),
        |k: int| Some(octets(bookmark(gaps, root, k))),
    )
}

fn write_bookmark(gaps: &Vec<(usize, usize)>, root: usize, k: usize) -> (out: String)
    requires
        k < gaps@.len(),
        root + gaps@.len() <= usize::MAX,
    ensures
        out@ == bookmark(gaps@, root as nat, k as int),
{
    let (page, no): (usize, usize) = gaps[k];
    let mut out = String::from_str("<< /Title (Page ");
    push_decimal(&mut out, no as u64);
    out.append(" not recovered) /Parent ");
    push_decimal(&mut out, root as u64);
    out.append(" 0 R /Dest [");
    push_decimal(&mut out, page as u64);
    out.append(" 0 R /XYZ null null null]");
    if k > 0 {
        out.append(" /Prev ");
        push_decimal(&mut out, (root + k) as u64);
        out.append(" 0 R");
    } else {
        out.append("");
    }
    if k + 1 < gaps.len() {
        out.append(" /Next ");
        push_decimal(&mut out, (root + k + 2) as u64);
        out.append(" 0 R");
    } else {
        out.append("");
    }
    out.append(" >>");
    proof {
        assert(out@ =~= bookmark(gaps@, root as nat, k as int));
    }
    out
}

/// Adds a bookmark for each gap. A three hundred page conversion with a dozen
/// holes in it is unusable without them.
fn add_outline(w: &mut Writer, gaps: &Vec<(usize, usize)>) -> (root: usize)
    requires
        gaps@.len() > 0,
        old(w)@.len() + gaps@.len() < usize::MAX,
    ensures
        root == old(w)@.len() + 1,
        final(w)@ == old(w)@ + outline_objects(gaps@, root as nat),
{
    let ghost before = w@;
    let root: usize = w.reserve();
    let n: usize = gaps.len();
    let mut k: usize = 0;
    proof {
        assert(w@ =~= before.push(None) + outline_objects(gaps@, root as nat).subrange(1, 1));
    }
    while k < n
        invariant
            k <= n,
            n == gaps@.len(),
            root == before.len() + 1,
            root + n <= usize::MAX,
            w@ == before.push(None) + outline_objects(gaps@, root as nat).subrange(1, k + 1),
        decreases n - k,
    {
        let text = write_bookmark(gaps, root, k);
        w.add(text.as_str());
        k += 1;
        proof {
            let all = outline_objects(gaps@, root as nat);
            assert(all[k as int] == Some(octets(bookmark(gaps@, root as nat, k - 1))));
            assert(all.subrange(1, k + 1) =~= all.subrange(1, k as int).push(all[k as int]));
            assert(w@ =~= before.push(None) + all.subrange(1, k + 1));
        }
    }
    let mut text = String::from_str("<< /Type /Outlines /Count ");
    push_decimal(&mut text, n as u64);
    text.append(" /First ");
    push_decimal(&mut text, (root + 1) as u64);
    text.append(" 0 R /Last ");
    push_decimal(&mut text, (root + n) as u64);
    text.append(" 0 R >>");
    proof {
        assert(text@ =~= outline_root(root as nat, n as nat));
    }
    w.set(root, text.as_str());
    proof {
        assert(w@ =~= before + outline_objects(gaps@, root as nat));
    }
    root
}

// ------------------------------------------------------------- ending

/// The catalog. A reader honours one page mode. Attachments win over the
/// bookmarks: an original document sitting unnoticed is the bigger loss.
pub open spec fn catalog_text(
    pages: nat,
    outline: Option<usize>,
    attachments: nat,
    names: Seq<char>,
) -> Seq<char> {
    "<< /Type /Catalog /Pages "@ + decimal(pages) + " 0 R"@ + (match outline {
        Some(root) => " /Outlines "@ + decimal(root as nat) + " 0 R"@,
        None => ""@,
    }) + (if attachments > 0 {
        " /PageMode /UseAttachments"@
    } else if outline is Some {
        " /PageMode /UseOutlines"@
    } else {
        ""@
    }) + (if names.len() > 0 {
        " /Names << /EmbeddedFiles << /Names ["@ + names + "] >> >>"@
    } else {
        ""@
    }) + " >>"@
}

/// What the file says of itself and of how complete it is.
pub open spec fn info_text(title: Option<Seq<char>>, report: Report, pages: nat) -> Seq<char> {
    "<< /Producer (xdw-salvage)"@ + (match title {
        Some(t) => " /Title "@ + string_object(t),
        None => ""@,
    }) + " /Subject (recovered "@ + decimal(total(report.embedded, report.drawn) as nat) + " of "@
        + decimal(pages) + " page(s); "@ + decimal(report.placeholders as nat)
        + " placeholder(s), "@ + decimal(report.attachments as nat) + " attachment(s)) >>"@
}

fn write_catalog(pages: usize, outline: Option<usize>, attachments: usize, names: &str) -> (out:
    String)
    ensures
        out@ == catalog_text(pages as nat, outline, attachments as nat, names@),
{
    let mut out = String::from_str("<< /Type /Catalog /Pages ");
    push_decimal(&mut out, pages as u64);
    out.append(" 0 R");
    match outline {
        Some(root) => {
            out.append(" /Outlines ");
            push_decimal(&mut out, root as u64);
            out.append(" 0 R");
        },
        None => out.append(""),
    }
    if attachments > 0 {
        out.append(" /PageMode /UseAttachments");
    } else if outline.is_some() {
        out.append(" /PageMode /UseOutlines");
    } else {
        out.append("");
    }
    if names.unicode_len() > 0 {
        out.append(" /Names << /EmbeddedFiles << /Names [");
        out.append(names);
        out.append("] >> >>");
    } else {
        out.append("");
    }
    out.append(" >>");
    proof {
        assert(out@ =~= catalog_text(pages as nat, outline, attachments as nat, names@));
    }
    out
}

/// A title as a value.
pub open spec fn title_text(t: Option<String>) -> Option<Seq<char>> {
    match t {
        Some(s) => Some(s@),
        None => None,
    }
}

/// The title of a conversion.
pub open spec fn title_of(o: Options) -> Option<Seq<char>> {
    title_text(o.title)
}

fn write_info(title: &Option<String>, report: &Report, pages: usize) -> (out: String)
    ensures
        out@ == info_text(title_text(*title), *report, pages as nat),
{
    let mut out = String::from_str("<< /Producer (xdw-salvage)");
    match title {
        Some(t) => {
            out.append(" /Title ");
            let s = text_string(t.as_str());
            out.append(s.as_str());
        },
        None => out.append(""),
    }
    out.append(" /Subject (recovered ");
    push_decimal(&mut out, report.embedded.saturating_add(report.drawn) as u64);
    out.append(" of ");
    push_decimal(&mut out, pages as u64);
    out.append(" page(s); ");
    push_decimal(&mut out, report.placeholders as u64);
    out.append(" placeholder(s), ");
    push_decimal(&mut out, report.attachments as u64);
    out.append(" attachment(s)) >>");
    proof {
        assert(out@ =~= info_text(title_text(*title), *report, pages as nat));
    }
    out
}

/// The objects and names after every file that travels along is attached.
pub open spec fn files_attached(
    objects: Seq<Option<Seq<u8>>>,
    data: Seq<u8>,
    files: Seq<Attachment>,
    o: Options,
) -> (Seq<Option<Seq<u8>>>, Seq<char>) {
    let (first, names) = if o.embed_originals {
        originals_attached(objects, data, files, files.len() as int)
    } else {
        (objects, Seq::empty())
    };
    if o.carry_source {
        attached(first, names, data, carried_name(title_of(o)), source_description())
    } else {
        (first, names)
    }
}

/// How many files travel along.
pub open spec fn files_carried(files: Seq<Attachment>, o: Options) -> int {
    (if o.embed_originals {
        files.len() as int
    } else {
        0
    }) + (if o.carry_source {
        1int
    } else {
        0
    })
}

/// The report of a finished conversion.
pub open spec fn finished_report(a: AssemblyModel, files: Seq<Attachment>, o: Options) -> Report {
    Report {
        attachments: files_carried(files, o) as usize,
        bookmarks: if o.bookmark_gaps {
            a.gaps.len() as usize
        } else {
            0
        },
        ..a.report
    }
}

/// The objects of a finished conversion, and the numbers of its catalog and of
/// what it says of itself: the last two.
pub open spec fn finished_objects(
    a: AssemblyModel,
    data: Seq<u8>,
    files: Seq<Attachment>,
    o: Options,
    pages: nat,
) -> Seq<Option<Seq<u8>>> {
    let listed = a.objects.update(a.pages_id - 1, Some(octets(page_tree(a.kids))));
    let (carried, names) = files_attached(listed, data, files, o);
    let report = finished_report(a, files, o);
    let (outlined, outline) = if o.bookmark_gaps && a.gaps.len() > 0 {
        (
            carried + outline_objects(a.gaps, carried.len() + 1),
            Some((carried.len() + 1) as usize),
        )
    } else {
        (carried, None)
    };
    outlined.push(
        Some(
            octets(catalog_text(a.pages_id as nat, outline, report.attachments as nat, names)),
        ),
    ).push(Some(octets(info_text(title_of(o), report, pages))))
}

proof fn lemma_attached_len(
    objects: Seq<Option<Seq<u8>>>,
    data: Seq<u8>,
    files: Seq<Attachment>,
    n: int,
)
    requires
        0 <= n,
    ensures
        originals_attached(objects, data, files, n).0.len() == objects.len() + 2 * n,
    decreases n,
{
    if n > 0 {
        lemma_attached_len(objects, data, files, n - 1);
    }
}

impl Assembly {
    /// Finishes the file: lists the pages, attaches what travels along,
    /// bookmarks the gaps, and records what the file is and how complete.
    /// `pages` is how many pages the document shows.
    pub fn finish(self, data: &[u8], files: &Vec<Attachment>, opts: &Options, pages: usize) -> (r: (
        Vec<u8>,
        Report,
    ))
        requires
            self.wf(),
            forall|k: int| 0 <= k < files@.len() ==> (#[trigger] files@[k]).fits(data@.len()),
            self.writer@.len() + 2 * files@.len() + self.gaps@.len() + 6 <= usize::MAX,
        ensures
            r.1 == finished_report(self@, files@, *opts),
            ({
                let objects = finished_objects(self@, data@, files@, *opts, pages as nat);
                r.0@ == file_of(
                    objects,
                    (objects.len() - 1) as nat,
                    Some(objects.len() as usize),
                )
            }),
    {
        let ghost start = self@;
        let mut w = self.writer;
        let mut report: Report = self.report;
        let mut tree = String::from_str("<< /Type /Pages /Count ");
        push_decimal(&mut tree, self.kids.len() as u64);
        tree.append(" /Kids [");
        push_references(&mut tree, &self.kids);
        tree.append("] >>");
        proof {
            assert(tree@ =~= page_tree(self.kids@));
        }
        w.set(self.pages_id, tree.as_str());
        let ghost listed = w@;
        let mut names = String::new();
        let mut count: usize = 0;
        proof {
            assert(names@ =~= Seq::<char>::empty());
            lemma_attached_len(listed, data@, files@, files@.len() as int);
        }
        if opts.embed_originals {
            names = attach_originals(&mut w, data, files);
            count = files.len();
        }
        if opts.carry_source {
            let name = match &opts.title {
                Some(t) => source_name(Some(t.as_str())),
                None => source_name(None),
            };
            attach(
                &mut w,
                &mut names,
                data,
                name.as_str(),
                "the source document this file was made from",
            );
            count += 1;
        }
        let ghost carried = w@;
        proof {
            assert((carried, names@) == files_attached(listed, data@, files@, *opts));
            assert(count == files_carried(files@, *opts));
        }
        report.attachments = count;
        let mut outline: Option<usize> = None;
        report.bookmarks = if opts.bookmark_gaps {
            self.gaps.len()
        } else {
            0
        };
        if opts.bookmark_gaps && self.gaps.len() > 0 {
            outline = Some(add_outline(&mut w, &self.gaps));
        }
        let catalog = write_catalog(self.pages_id, outline, count, names.as_str());
        let root: usize = w.add(catalog.as_str());
        let info = write_info(&opts.title, &report, pages);
        let info_id: usize = w.add(info.as_str());
        proof {
            assert(report == finished_report(start, files@, *opts));
            assert(w@ == finished_objects(start, data@, files@, *opts, pages as nat));
        }
        (w.finish(root, Some(info_id)), report)
    }
}

/// Every page of the output is counted once: as embedded, as redrawn or as a
/// placeholder.
pub proof fn law_each_page_is_counted_once(r: Report, o: Outcome)
    requires
        o !is Nothing,
        r.embedded + r.drawn + r.placeholders < usize::MAX,
    ensures
        ({
            let next = counted(r, o);
            next.embedded + next.drawn + next.placeholders == r.embedded + r.drawn + r.placeholders
                + 1
        }),
        counted(r, o).skipped == r.skipped,
        counted(r, o).placeholders == r.placeholders + (if o is Gap {
            1int
        } else {
            0
        }),
{
}

} // verus!
