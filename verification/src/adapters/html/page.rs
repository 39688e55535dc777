//! The parts of an HTML page: figures, gaps, artwork and files to download.
use crate::adapters::html::base64::{b64, base64};
use crate::adapters::html::svg::{BoxModel, BoxNumbers};
use crate::adapters::html::words::{esc, markup, stem, stem_of, Wording, CSS};
use crate::adapters::pdf::images::{jpeg_stream, stream_of};
use crate::domain::attachment::{extension_of, Attachment};
use crate::domain::document::{bands, is_picture_on, run_models, Document};
use crate::domain::output::Language;
use crate::domain::page::Page;
use crate::text::{decimal, push_decimal};
use vstd::prelude::*;
use vstd::string::*;

verus! {

/// Settings for a conversion.
#[derive(Debug, Clone, PartialEq, Eq)]
pub struct Options {
    /// Expand pages held in the container's own coding and lay out the text
    /// from the metafile inside.
    pub decode: bool,
    /// Language of the text that is written into the page.
    pub lang: Language,
    /// Used as the document title and browser tab name.
    pub title: Option<String>,
    /// Show preview entries. Off by default; they are low resolution copies of
    /// other pages and they are in the vendor coding.
    pub include_previews: bool,
    /// Carry original files found in the container as download links.
    pub embed_originals: bool,
    /// Leave out the pages that could not be recovered, rather than marking
    /// them. Page numbering then no longer matches the original.
    pub skip_missing: bool,
    /// Offer the whole source document for download from the page. It roughly
    /// doubles the output, so it is off by default.
    pub carry_source: bool,
}

impl Default for Options {
    fn default() -> (o: Options)
        ensures
            o.decode,
            o.lang == Language::English,
            o.title is None,
            !o.include_previews,
            o.embed_originals,
            !o.skip_missing,
            !o.carry_source,
    {
        Options {
            decode: true,
            lang: Language::English,
            title: None,
            include_previews: false,
            embed_originals: true,
            skip_missing: false,
            carry_source: false,
        }
    }
}

/// What went into the page.
#[derive(Debug, Clone, Copy, PartialEq, Eq)]
pub struct Report {
    /// Characters of page text placed.
    pub glyphs: usize,
    pub embedded: usize,
    pub gaps: usize,
    pub skipped: usize,
    pub attachments: usize,
    /// Pictures shown on sheets that could not themselves be reproduced.
    pub pictures: usize,
}

impl Report {
    /// Nothing yet.
    pub open spec fn zero() -> Report {
        Report { glyphs: 0, embedded: 0, gaps: 0, skipped: 0, attachments: 0, pictures: 0 }
    }
}

impl Default for Report {
    fn default() -> (r: Report)
        ensures
            r == Report::zero(),
    {
        Report { glyphs: 0, embedded: 0, gaps: 0, skipped: 0, attachments: 0, pictures: 0 }
    }
}

/// The sum of two counts, as far as counts go.
pub open spec fn total(a: usize, b: usize) -> usize {
    if a + b <= usize::MAX {
        (a + b) as usize
    } else {
        usize::MAX
    }
}

/// Result of drawing one metafile.
///
/// `painted` is deliberately separate from the picture count. A page can be
/// fully recovered from text, fills, or vector paths without containing any
/// bitmap at all.
#[derive(Debug, Clone, Copy, PartialEq, Eq, Structural)]
pub struct HtmlDrawn {
    pub glyphs: usize,
    pub pictures: usize,
    pub painted: bool,
}

impl Default for HtmlDrawn {
    fn default() -> (d: HtmlDrawn)
        ensures
            d == (HtmlDrawn { glyphs: 0, pictures: 0, painted: false }),
    {
        HtmlDrawn { glyphs: 0, pictures: 0, painted: false }
    }
}

impl HtmlDrawn {
    /// Adds another result.
    pub fn add(&mut self, other: HtmlDrawn)
        ensures
            *final(self) == (HtmlDrawn {
                glyphs: total(old(self).glyphs, other.glyphs),
                pictures: total(old(self).pictures, other.pictures),
                painted: old(self).painted || other.painted,
            }),
    {
        self.glyphs = self.glyphs.saturating_add(other.glyphs);
        self.pictures = self.pictures.saturating_add(other.pictures);
        self.painted = self.painted || other.painted;
    }
}

/// What a sheet came out as.
#[derive(Debug, Clone, Copy, PartialEq, Eq, Structural)]
pub enum Outcome {
    /// A page, with the characters and the additional pictures on it.
    Shown { glyphs: usize, pictures: usize },
    /// A note, with the pictures found on the sheet.
    Gap { pictures: usize },
    /// Nothing: it is left out.
    Skipped,
}

/// The report after one more sheet.
pub open spec fn counted(r: Report, o: Outcome) -> Report {
    match o {
        Outcome::Shown { glyphs, pictures } => Report {
            embedded: total(r.embedded, 1),
            glyphs: total(r.glyphs, glyphs),
            pictures: total(r.pictures, pictures),
            ..r
        },
        Outcome::Gap { pictures } => Report {
            gaps: total(r.gaps, 1),
            pictures: total(r.pictures, pictures),
            ..r
        },
        Outcome::Skipped => Report { skipped: total(r.skipped, 1), ..r },
    }
}

impl Report {
    /// Counts one more sheet.
    pub fn count(&mut self, o: Outcome)
        ensures
            *final(self) == counted(*old(self), o),
    {
        match o {
            Outcome::Shown { glyphs, pictures } => {
                self.embedded = self.embedded.saturating_add(1);
                self.glyphs = self.glyphs.saturating_add(glyphs);
                self.pictures = self.pictures.saturating_add(pictures);
            },
            Outcome::Gap { pictures } => {
                self.gaps = self.gaps.saturating_add(1);
                self.pictures = self.pictures.saturating_add(pictures);
            },
            Outcome::Skipped => {
                self.skipped = self.skipped.saturating_add(1);
            },
        }
    }
}

// ------------------------------------------------------------ figures

/// The class of a sheet that is shown turned.
pub open spec fn turn_class(rotation: u16) -> Seq<char> {
    if rotation % 360 == 90 {
        " turn90"@
    } else if rotation % 360 == 180 {
        " turn180"@
    } else if rotation % 360 == 270 {
        " turn270"@
    } else {
        ""@
    }
}

/// A sheet as a figure. `frame` and `sheet` are the ratios of width to height
/// of the figure as shown and of the sheet before it is turned.
pub open spec fn figure_text(
    rotation: u16,
    no: nat,
    frame: Seq<char>,
    sheet: Seq<char>,
    svg: Seq<char>,
    spans: Seq<char>,
) -> Seq<char> {
    "<figure id=\"p"@ + decimal(no) + "\">\n<div class=\"frame\" style=\"aspect-ratio:"@ + frame
        + "\">\n<div class=\"sheet"@ + turn_class(rotation) + "\" style=\"aspect-ratio:"@ + sheet
        + "\">\n"@ + svg + spans + "</div>\n</div>\n</figure>\n"@
}

/// Appends one sheet-shaped figure.
pub fn push_sheet_figure(
    body: &mut String,
    rotation: u16,
    no: usize,
    frame: &str,
    sheet: &str,
    svg: &str,
    spans: &str,
)
    ensures
        final(body)@ == old(body)@ + figure_text(
            rotation,
            no as nat,
            frame@,
            sheet@,
            svg@,
            spans@,
        ),
{
    body.append("<figure id=\"p");
    push_decimal(body, no as u64);
    body.append("\">\n<div class=\"frame\" style=\"aspect-ratio:");
    body.append(frame);
    body.append("\">\n<div class=\"sheet");
    if rotation % 360 == 90 {
        body.append(" turn90");
    } else if rotation % 360 == 180 {
        body.append(" turn180");
    } else if rotation % 360 == 270 {
        body.append(" turn270");
    } else {
        body.append("");
    }
    body.append("\" style=\"aspect-ratio:");
    body.append(sheet);
    body.append("\">\n");
    body.append(svg);
    body.append(spans);
    body.append("</div>\n</div>\n</figure>\n");
    proof {
        assert(body@ =~= old(body)@ + figure_text(
            rotation,
            no as nat,
            frame@,
            sheet@,
            svg@,
            spans@,
        ));
    }
}

/// A displayed page that did not come out.
pub open spec fn display_gap(no: nat, why: Seq<char>) -> Seq<char> {
    "<section id=\"p"@ + decimal(no) + "\" class=\"gap\"><p class=\"why\">"@ + markup(why)
        + "</p></section>\n"@
}

/// Appends the note of a displayed page that did not come out.
pub fn push_display_gap(body: &mut String, no: usize, why: &str)
    ensures
        final(body)@ == old(body)@ + display_gap(no as nat, why@),
{
    body.append("<section id=\"p");
    push_decimal(body, no as u64);
    body.append("\" class=\"gap\"><p class=\"why\">");
    let text = esc(why);
    body.append(text.as_str());
    body.append("</p></section>\n");
    proof {
        assert(body@ =~= old(body)@ + display_gap(no as nat, why@));
    }
}

/// A sheet that did not come out, with the artwork that was found on it.
pub open spec fn sheet_gap(no: nat, why: Seq<char>, art: Seq<char>) -> Seq<char> {
    "<section id=\"p"@ + decimal(no) + "\" class=\"gap\">\n<p class=\"why\">"@ + markup(why)
        + "</p>\n"@ + (if art.len() > 0 {
        "<div class=\"arts\">\n"@ + art + "</div>\n"@
    } else {
        ""@
    }) + "</section>\n"@
}

/// Appends the note of a sheet that did not come out, with the artwork that
/// was found on it: a page comes back as its artwork instead of an empty box.
pub fn push_sheet_gap(body: &mut String, no: usize, why: &str, art: &str)
    ensures
        final(body)@ == old(body)@ + sheet_gap(no as nat, why@, art@),
{
    body.append("<section id=\"p");
    push_decimal(body, no as u64);
    body.append("\" class=\"gap\">\n<p class=\"why\">");
    let text = esc(why);
    body.append(text.as_str());
    body.append("</p>\n");
    if art.unicode_len() > 0 {
        body.append("<div class=\"arts\">\n");
        body.append(art);
        body.append("</div>\n");
    } else {
        body.append("");
    }
    body.append("</section>\n");
    proof {
        assert(body@ =~= old(body)@ + sheet_gap(no as nat, why@, art@));
    }
}

// ----------------------------------------------------------- pictures

/// A picture placed on a sheet, in hundredths of it.
pub open spec fn placed_picture(place: BoxModel, alt: Seq<char>, stream: Seq<u8>) -> Seq<char> {
    "<img class=\"art\" style=\"left:"@ + place.x + "%;top:"@ + place.y + "%;width:"@ + place.width
        + "%;height:"@ + place.height + "%\" loading=\"lazy\" alt=\""@ + markup(alt)
        + "\" src=\"data:image/jpeg;base64,"@ + base64(stream) + "\">\n"@
}

/// Appends a picture placed on a sheet.
pub fn push_placed_picture(out: &mut String, place: &BoxNumbers, alt: &str, stream: &[u8])
    ensures
        final(out)@ == old(out)@ + placed_picture(place@, alt@, stream@),
{
    out.append("<img class=\"art\" style=\"left:");
    out.append(place.x.as_str());
    out.append("%;top:");
    out.append(place.y.as_str());
    out.append("%;width:");
    out.append(place.width.as_str());
    out.append("%;height:");
    out.append(place.height.as_str());
    out.append("%\" loading=\"lazy\" alt=\"");
    let text = esc(alt);
    out.append(text.as_str());
    out.append("\" src=\"data:image/jpeg;base64,");
    let code = b64(stream);
    out.append(code.as_str());
    out.append("\">\n");
    proof {
        assert(out@ =~= old(out)@ + placed_picture(place@, alt@, stream@));
    }
}

/// Where a sheet's own picture goes: the whole sheet, or its upper part when
/// the pictures that were found on it follow.
pub open spec fn picture_style(has_art: bool) -> Seq<char> {
    if has_art {
        "left:5%;top:0%;width:90%;height:52%;object-fit:contain"@
    } else {
        "left:0%;top:0%;width:100%;height:100%"@
    }
}

/// A sheet that is a picture: the picture, the artwork found on it, and the
/// drawings over both.
pub open spec fn picture_sheet(
    alt: Seq<char>,
    stream: Seq<u8>,
    art: Seq<char>,
    svg: Seq<char>,
    spans: Seq<char>,
) -> Seq<char> {
    "<img class=\"art\" style=\""@ + picture_style(art.len() > 0) + "\" loading=\"lazy\" alt=\""@
        + markup(alt) + "\" src=\"data:image/jpeg;base64,"@ + base64(stream) + "\">\n"@ + (
    if art.len() > 0 {
        "<div class=\"picture-stack\">"@ + art + "</div>\n"@
    } else {
        ""@
    }) + svg + spans
}

/// Writes a sheet that is a picture.
pub fn write_picture_sheet(alt: &str, stream: &[u8], art: &str, svg: &str, spans: &str) -> (out:
    String)
    ensures
        out@ == picture_sheet(alt@, stream@, art@, svg@, spans@),
{
    let has_art: bool = art.unicode_len() > 0;
    let mut out = String::from_str("<img class=\"art\" style=\"");
    if has_art {
        out.append("left:5%;top:0%;width:90%;height:52%;object-fit:contain");
    } else {
        out.append("left:0%;top:0%;width:100%;height:100%");
    }
    out.append("\" loading=\"lazy\" alt=\"");
    let text = esc(alt);
    out.append(text.as_str());
    out.append("\" src=\"data:image/jpeg;base64,");
    let code = b64(stream);
    out.append(code.as_str());
    out.append("\">\n");
    if has_art {
        out.append("<div class=\"picture-stack\">");
        out.append(art);
        out.append("</div>\n");
    } else {
        out.append("");
    }
    out.append(svg);
    out.append(spans);
    proof {
        assert(out@ =~= picture_sheet(alt@, stream@, art@, svg@, spans@));
    }
    out
}

// ------------------------------------------------------------ artwork

/// The pictures of a run that lie in the file.
pub open spec fn found(data: Seq<u8>, run: Seq<Page>) -> Seq<Seq<u8>>
    decreases run.len(),
{
    if run.len() == 0 {
        Seq::empty()
    } else {
        match jpeg_stream(data, Some(run.last().data)) {
            Some(s) => found(data, run.drop_last()).push(s),
            None => found(data, run.drop_last()),
        }
    }
}

/// The bands of one picture.
pub open spec fn band_images(streams: Seq<Seq<u8>>, alt: Seq<char>) -> Seq<char>
    decreases streams.len(),
{
    if streams.len() == 0 {
        Seq::empty()
    } else {
        band_images(streams.drop_last(), alt) + "<img loading=\"lazy\" alt=\""@ + markup(alt)
            + "\" src=\"data:image/jpeg;base64,"@ + base64(streams.last()) + "\">\n"@
    }
}

/// The artwork of the runs, and how many pictures it holds.
pub open spec fn art_of(data: Seq<u8>, runs: Seq<Seq<Page>>, alt: Seq<char>) -> (Seq<char>, nat)
    decreases runs.len(),
{
    if runs.len() == 0 {
        (Seq::empty(), 0)
    } else {
        let (art, count) = art_of(data, runs.drop_last(), alt);
        let streams = found(data, runs.last());
        if streams.len() == 0 {
            (art, count)
        } else {
            (
                art + "<figure class=\"art\"><div class=\"bands\">\n"@ + band_images(streams, alt)
                    + "</div></figure>\n"@,
                count + streams.len(),
            )
        }
    }
}

fn push_bands(out: &mut String, data: &[u8], run: &Vec<&Page>, alt: &str) -> (n: usize)
    ensures
        n == found(data@, run@.unref()).len(),
        n <= run@.len(),
        final(out)@ == old(out)@ + band_images(found(data@, run@.unref()), alt@),
{
    let ghost all = run@.unref();
    let mut n: usize = 0;
    let mut i: usize = 0;
    let text = esc(alt);
    proof {
        assert(all.take(0) =~= Seq::empty());
        assert(out@ =~= old(out)@ + band_images(found(data@, all.take(0)), alt@));
    }
    while i < run.len()
        invariant
            i <= run@.len(),
            n <= i,
            all == run@.unref(),
            text@ == markup(alt@),
            n == found(data@, all.take(i as int)).len(),
            out@ == old(out)@ + band_images(found(data@, all.take(i as int)), alt@),
        decreases run@.len() - i,
    {
        let ghost before = found(data@, all.take(i as int));
        proof {
            assert(all.take(i + 1).drop_last() =~= all.take(i as int));
            assert(all.take(i + 1).last() == *run@[i as int]);
        }
        if let Some(stream) = stream_of(data, run[i]) {
            let code = b64(stream);
            out.append("<img loading=\"lazy\" alt=\"");
            out.append(text.as_str());
            out.append("\" src=\"data:image/jpeg;base64,");
            out.append(code.as_str());
            out.append("\">\n");
            n += 1;
            proof {
                assert(before.push(stream@).drop_last() =~= before);
                assert(out@ =~= old(out)@ + band_images(before.push(stream@), alt@));
            }
        }
        i += 1;
    }
    proof {
        assert(all.take(i as int) =~= all);
    }
    n
}

/// The plain JPEG artwork that belongs to the sheet with entry number `index`,
/// as figures, and how many pictures it holds.
pub fn artwork(data: &[u8], doc: &Document, index: usize, alt: &str) -> (r: (String, usize))
    ensures
        ({
            let runs = bands(doc.pages@.filter(|p: Page| is_picture_on(p, index)));
            let (art, count) = art_of(data@, runs, alt@);
            r.0@ == art && r.1 == (if count <= usize::MAX {
                count
            } else {
                usize::MAX as nat
            })
        }),
{
    let runs = doc.picture_runs(index);
    let ghost all = run_models(runs@);
    let mut art = String::new();
    let mut count: usize = 0;
    let mut i: usize = 0;
    proof {
        assert(all.take(0) =~= Seq::empty());
        assert(art@ =~= Seq::empty());
    }
    while i < runs.len()
        invariant
            i <= runs@.len(),
            all == run_models(runs@),
            art@ == art_of(data@, all.take(i as int), alt@).0,
            count == (if art_of(data@, all.take(i as int), alt@).1 <= usize::MAX {
                art_of(data@, all.take(i as int), alt@).1
            } else {
                usize::MAX as nat
            }),
        decreases runs@.len() - i,
    {
        let ghost before = art@;
        proof {
            assert(all.take(i + 1).drop_last() =~= all.take(i as int));
            assert(all.take(i + 1).last() == runs@[i as int]@.unref());
        }
        let mut images = String::new();
        let n: usize = push_bands(&mut images, data, &runs[i], alt);
        if n > 0 {
            art.append("<figure class=\"art\"><div class=\"bands\">\n");
            art.append(images.as_str());
            art.append("</div></figure>\n");
            count = count.saturating_add(n);
            proof {
                let streams = found(data@, runs@[i as int]@.unref());
                assert(images@ =~= band_images(streams, alt@));
                assert(art@ =~= before + "<figure class=\"art\"><div class=\"bands\">\n"@
                    + band_images(streams, alt@) + "</div></figure>\n"@);
            }
        }
        i += 1;
    }
    proof {
        assert(all.take(i as int) =~= all);
    }
    (art, count)
}

// -------------------------------------------------------------- files

/// A file offered for download.
pub open spec fn file_item(name: Seq<char>, payload: Seq<u8>) -> Seq<char> {
    "<li><a download=\""@ + markup(name) + "\" href=\"data:application/octet-stream;base64,"@
        + base64(payload) + "\">"@ + markup(name) + "</a></li>\n"@
}

/// The name that the `n`-th original file gets.
pub open spec fn original_name(title: Seq<char>, n: nat, extension: Seq<char>) -> Seq<char> {
    stem_of(title) + "-original-"@ + decimal(n) + "."@ + extension
}

/// The first `n` original files, and how many of them lie in the file.
pub open spec fn originals(
    data: Seq<u8>,
    title: Seq<char>,
    files: Seq<Attachment>,
    n: int,
) -> (Seq<char>, nat)
    decreases n,
{
    if n <= 0 {
        (Seq::empty(), 0)
    } else {
        let (text, count) = originals(data, title, files, n - 1);
        let a = files[n - 1];
        if a.fits(data.len()) {
            (
                text + file_item(
                    original_name(title, n as nat, extension_of(a.kind)),
                    data.subrange(a.offset as int, a.offset + a.len),
                ),
                count + 1,
            )
        } else {
            (text, count)
        }
    }
}

/// The files that are offered for download, and how many they are.
pub open spec fn downloads(data: Seq<u8>, title: Seq<char>, files: Seq<Attachment>, o: Options) -> (
    Seq<char>,
    nat,
) {
    let (text, count) = if o.embed_originals {
        originals(data, title, files, files.len() as int)
    } else {
        (Seq::empty(), 0)
    };
    if o.carry_source {
        (text + file_item(stem_of(title) + ".xdw"@, data), count + 1)
    } else {
        (text, count)
    }
}

fn push_file(out: &mut String, name: &str, payload: &[u8])
    ensures
        final(out)@ == old(out)@ + file_item(name@, payload@),
{
    let text = esc(name);
    let code = b64(payload);
    out.append("<li><a download=\"");
    out.append(text.as_str());
    out.append("\" href=\"data:application/octet-stream;base64,");
    out.append(code.as_str());
    out.append("\">");
    out.append(text.as_str());
    out.append("</a></li>\n");
    proof {
        assert(out@ =~= old(out)@ + file_item(name@, payload@));
    }
}

/// The files that are offered for download, and how many they are.
pub fn write_files(data: &[u8], title: &str, files: &Vec<Attachment>, opts: &Options) -> (r: (
    String,
    usize,
))
    requires
        files@.len() < usize::MAX,
    ensures
        r.0@ == downloads(data@, title@, files@, *opts).0,
        r.1 == downloads(data@, title@, files@, *opts).1,
{
    let mut out = String::new();
    let mut count: usize = 0;
    let base = stem(title);
    proof {
        assert(out@ =~= Seq::empty());
    }
    if opts.embed_originals {
        let mut i: usize = 0;
        while i < files.len()
            invariant
                i <= files@.len(),
                files@.len() < usize::MAX,
                count <= i,
                base@ == stem_of(title@),
                out@ == originals(data@, title@, files@, i as int).0,
                count == originals(data@, title@, files@, i as int).1,
            decreases files@.len() - i,
        {
            let a: &Attachment = &files[i];
            if a.offset <= data.len() && a.len <= data.len() - a.offset {
                let mut name = base.clone();
                name.append("-original-");
                push_decimal(&mut name, i as u64 + 1);
                name.append(".");
                name.append(a.kind.extension());
                proof {
                    assert(name@ =~= original_name(
                        title@,
                        (i + 1) as nat,
                        extension_of(a.kind),
                    ));
                }
                push_file(&mut out, name.as_str(), a.bytes(data));
                count += 1;
            }
            i += 1;
        }
    }
    if opts.carry_source {
        let mut name = base.clone();
        name.append(".xdw");
        push_file(&mut out, name.as_str(), data);
        count += 1;
    }
    (out, count)
}

// --------------------------------------------------------------- shell

/// The whole page. A page without any sheet says so; a page that just stops
/// would be worse.
pub open spec fn document_text(
    lang_attr: Seq<char>,
    empty: Seq<char>,
    title: Seq<char>,
    sheets: Seq<char>,
    files: Seq<char>,
) -> Seq<char> {
    "<!doctype html>\n<html lang=\""@ + lang_attr
        + "\">\n<head>\n<meta charset=\"utf-8\">\n<meta name=\"viewport\" content=\"width=device-width,initial-scale=1\">\n<title>"@
        + markup(title) + "</title>\n<style>"@ + CSS@
        + "</style>\n</head>\n<body>\n<main>\n"@ + (if sheets.len() == 0 {
        "<p class=\"why\">"@ + markup(empty) + "</p>\n"@
    } else {
        sheets
    }) + (if files.len() == 0 {
        ""@
    } else {
        "<ul class=\"files\">\n"@ + files + "</ul>\n"@
    }) + "</main>\n</body>\n</html>\n"@
}

/// The whole page.
pub fn write_document(words: &Wording, title: &str, sheets: &str, files: &str) -> (out: String)
    ensures
        out@ == document_text(words.lang_attr@, words.empty@, title@, sheets@, files@),
{
    let mut out = String::from_str("<!doctype html>\n<html lang=\"");
    out.append(words.lang_attr);
    out.append(
        "\">\n<head>\n<meta charset=\"utf-8\">\n<meta name=\"viewport\" content=\"width=device-width,initial-scale=1\">\n<title>",
    );
    let name = esc(title);
    out.append(name.as_str());
    out.append("</title>\n<style>");
    out.append(CSS);
    out.append("</style>\n</head>\n<body>\n<main>\n");
    if sheets.unicode_len() == 0 {
        out.append("<p class=\"why\">");
        let empty = esc(words.empty);
        out.append(empty.as_str());
        out.append("</p>\n");
    } else {
        out.append(sheets);
    }
    if files.unicode_len() == 0 {
        out.append("");
    } else {
        out.append("<ul class=\"files\">\n");
        out.append(files);
        out.append("</ul>\n");
    }
    out.append("</main>\n</body>\n</html>\n");
    proof {
        assert(out@ =~= document_text(words.lang_attr@, words.empty@, title@, sheets@, files@));
    }
    out
}

/// Every sheet is counted once: as shown, as a gap or as skipped.
pub proof fn law_each_sheet_is_counted_once(r: Report, o: Outcome)
    requires
        r.embedded + r.gaps + r.skipped < usize::MAX,
    ensures
        ({
            let next = counted(r, o);
            next.embedded + next.gaps + next.skipped == r.embedded + r.gaps + r.skipped + 1
        }),
{
}

} // verus!
