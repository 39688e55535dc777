//! The sheets of a document that says nothing of how it is displayed, as pages
//! of the PDF.
use crate::adapters::pdf::assembly::{
    page_size, pdf_paper_size, sheet_turn, sheet_turned, Assembly, AssemblyModel, Missing, Options,
    Outcome, Size, A4,
};
use crate::adapters::pdf::compose::{
    bare_sheet, drawing_laid, law_drawing_keeps_objects, law_overlays_keep_objects, lay_drawing,
    lay_overlays, lay_picture, overlays_drawn, picture_laid, LayerNumbers, PlaceNumbers, Sheet,
    SheetModel,
};
use crate::adapters::pdf::assembly::total;
use crate::adapters::pdf::fonts::{font_of, resources_of, GlyphModel, Glyphs};
use crate::adapters::pdf::pages::{add_text_page, is_file, text_page, with_sheet, FileModel};
use crate::adapters::pdf::stack::{
    band_count, block_models, blocks_of, draw_blocks, law_each_band_is_drawn, numbers_match,
    read_blocks, with_blocks, Band, BlockNumbers, Stacked,
};
use crate::adapters::pdf::writer::Writer;
use crate::adapters::plan::unref_label;
use crate::adapters::sheets::{group_of, picture_group, OverlayLayer};
use crate::domain::document::{bands, is_picture_on, Document};
use crate::domain::output::Language;
use crate::domain::page::Page;
use crate::domain::rendering::Metafile;
use crate::infrastructure::ttf::Font;
use vstd::prelude::*;
use vstd::string::*;

verus! {

/// What is measured for a sheet.
pub struct SheetNumbers {
    /// The size of what it shows, for a sheet whose paper is not known.
    pub natural: Size,
    /// How its drawing is drawn.
    pub body: LayerNumbers,
    /// Where its picture is drawn.
    pub place: PlaceNumbers,
    /// How its overlays are drawn.
    pub overlays: Vec<LayerNumbers>,
    /// How the label of its picture is drawn, where it fits.
    pub label: Option<LayerNumbers>,
    /// How the artwork that belongs to it is laid out.
    pub blocks: Vec<BlockNumbers>,
    /// What stands on the page where nothing came out.
    pub note: String,
}

/// The artwork that belongs to a sheet, in blocks.
pub open spec fn sheet_blocks(data: Seq<u8>, doc: Document, page: Page) -> Seq<Seq<Band>> {
    blocks_of(data, bands(doc.pages@.filter(|p: Page| is_picture_on(p, page.index))))
}

/// There are numbers for all that a sheet can show.
pub open spec fn is_measured(
    data: Seq<u8>,
    doc: Document,
    page: Page,
    overlays: Seq<OverlayLayer>,
    n: SheetNumbers,
) -> bool {
    n.overlays@.len() == overlays.len() && numbers_match(sheet_blocks(data, doc, page), n.blocks@)
}

/// The size of a page that shows a sheet.
pub open spec fn sheet_size_of(
    forced: Option<Size>,
    paper: Option<(u32, u32)>,
    natural: Size,
    rotation: u16,
) -> Size {
    match forced {
        Some(size) => size,
        None => {
            let size = match paper {
                Some(p) => page_size(p),
                None => natural,
            };
            if rotation % 180 == 90 {
                (size.1, size.0)
            } else {
                size
            }
        },
    }
}

/// The size of a page that shows a sheet: the one that is forced on every page,
/// else that of its paper, or of what it shows, as it is turned.
pub fn sheet_size(
    forced: Option<Size>,
    paper: Option<(u32, u32)>,
    natural: Size,
    rotation: u16,
) -> (size: Size)
    ensures
        size == sheet_size_of(forced, paper, natural, rotation),
{
    if let Some(size) = forced {
        return size;
    }
    let size: Size = match paper {
        Some(p) => pdf_paper_size(p),
        None => natural,
    };
    if rotation % 180 == 90 {
        (size.1, size.0)
    } else {
        size
    }
}

/// The size of a page that stands for a sheet which is lost.
pub open spec fn lost_size_of(forced: Option<Size>, paper: Option<(u32, u32)>) -> Size {
    match (forced, paper) {
        (Some(size), _) => size,
        (None, Some(p)) => page_size(p),
        (None, None) => A4,
    }
}

/// The size of a page that stands for a sheet which is lost: the one that is
/// forced on every page, else that of its paper, else A4.
pub fn lost_size(forced: Option<Size>, paper: Option<(u32, u32)>) -> (size: Size)
    ensures
        size == lost_size_of(forced, paper),
{
    match (forced, paper) {
        (Some(size), _) => size,
        (None, Some(p)) => pdf_paper_size(p),
        (None, None) => A4,
    }
}

// -------------------------------------------------------------- artwork

/// The artwork of a sheet more on its page, and how many pictures it took.
pub open spec fn artwork_laid(
    s: SheetModel,
    data: Seq<u8>,
    blocks: Seq<Seq<Band>>,
    n: Seq<BlockNumbers>,
) -> (SheetModel, usize) {
    let before = Stacked {
        objects: s.objects,
        xobjects: s.resources,
        content: s.content,
        next: 0,
    };
    let t = if band_count(blocks, blocks.len() as int) <= usize::MAX {
        with_blocks(before, data, blocks, n, blocks.len() as int)
    } else {
        before
    };
    (
        SheetModel { objects: t.objects, resources: t.xobjects, content: t.content, ..s },
        t.next as usize,
    )
}

fn lay_artwork(
    w: &mut Writer,
    sheet: Sheet,
    data: &[u8],
    doc: &Document,
    page: &Page,
    n: &SheetNumbers,
) -> (r: (Sheet, usize))
    requires
        numbers_match(sheet_blocks(data@, *doc, *page), n.blocks@),
    ensures
        r.0.glyphs == sheet.glyphs,
        final(w)@.len() >= old(w)@.len(),
        (r.0.with(final(w)@), r.1) == artwork_laid(
            sheet.with(old(w)@),
            data@,
            sheet_blocks(data@, *doc, *page),
            n.blocks@,
        ),
{
    let ghost before = sheet.with(w@);
    let ghost objects = w@;
    let runs = doc.picture_runs(page.index);
    let blocks = read_blocks(data, &runs);
    let ghost all = block_models(blocks@);
    proof {
        assert(all == sheet_blocks(data@, *doc, *page));
    }
    let mut r = sheet;
    let count: usize = draw_blocks(
        w,
        data,
        &blocks,
        &n.blocks,
        &mut r.resources,
        &mut r.content,
    );
    proof {
        let start = Stacked {
            objects,
            xobjects: before.resources,
            content: before.content,
            next: 0,
        };
        law_each_band_is_drawn(start, data@, all, n.blocks@, all.len() as int);
        assert((r.with(w@), count) == artwork_laid(before, data@, all, n.blocks@));
    }
    (r, count)
}

// ------------------------------------------------------------- overlays

/// What the overlays of a sheet lay on a page of their own; nothing where they
/// are not drawn.
pub open spec fn overlays_alone(
    objects: Seq<Option<Seq<u8>>>,
    glyphs: GlyphModel,
    data: Seq<u8>,
    doc: Document,
    page: Page,
    overlaid: bool,
    overlays: Seq<OverlayLayer>,
    n: SheetNumbers,
    font: Option<Font>,
) -> SheetModel {
    let bare = bare_sheet(objects, glyphs);
    if overlaid {
        overlays_drawn(
            bare,
            data,
            overlays,
            n.overlays@,
            picture_group(doc.pages@, page),
            font,
            overlays.len() as int,
        )
    } else {
        bare
    }
}

fn lay_overlays_alone(
    w: &mut Writer,
    glyphs: Glyphs,
    data: &[u8],
    doc: &Document,
    page: &Page,
    overlaid: bool,
    overlays: &Vec<OverlayLayer>,
    n: &SheetNumbers,
    font: Option<&Font>,
) -> (s: Sheet)
    requires
        glyphs.wf(),
        font matches Some(f) ==> f.wf(),
        n.overlays@.len() == overlays@.len(),
    ensures
        s.glyphs.wf(),
        final(w)@.len() >= old(w)@.len(),
        s.with(final(w)@) == overlays_alone(
            old(w)@,
            glyphs@,
            data@,
            *doc,
            *page,
            overlaid,
            overlays@,
            *n,
            font_of(font),
        ),
{
    let ghost bare = bare_sheet(w@, glyphs@);
    let s = Sheet::bare(glyphs);
    if !overlaid {
        return s;
    }
    let group = group_of(doc, page);
    proof {
        law_overlays_keep_objects(
            bare,
            data@,
            overlays@,
            n.overlays@,
            group@.unref(),
            font_of(font),
            overlays@.len() as int,
        );
    }
    lay_overlays(w, s, data, overlays, &n.overlays, &group, font)
}

// ------------------------------------------------------- picture sheets

/// What is laid on a page that shows the picture of a sheet, and how many
/// pictures of its artwork: the picture, its artwork, the overlays if they
/// painted anything, and its label.
pub open spec fn picture_composed(
    over: SheetModel,
    data: Seq<u8>,
    doc: Document,
    page: Page,
    n: SheetNumbers,
    label: Option<Metafile>,
    font: Option<Font>,
) -> (SheetModel, usize) {
    let own = picture_laid(
        bare_sheet(over.objects, over.glyphs),
        data,
        page,
        "Im0"@,
        n.place,
        None,
    );
    let (art, count) = artwork_laid(own, data, sheet_blocks(data, doc, page), n.blocks@);
    let covered = if over.painted {
        SheetModel {
            resources: art.resources + over.resources,
            content: art.content + over.content,
            placed: total(art.placed, over.placed),
            ..art
        }
    } else {
        art
    };
    (
        match (label, n.label) {
            (Some(m), Some(l)) => drawing_laid(covered, data, m, l@, Seq::empty(), "L"@, font),
            _ => covered,
        },
        count,
    )
}

/// A page whose fonts are named only where it shows text.
pub open spec fn page_shown(
    f: AssemblyModel,
    s: SheetModel,
    size: Size,
    turn: u16,
    outcome: Outcome,
) -> AssemblyModel {
    let laid = with_sheet(f, s);
    if s.placed > 0 {
        text_page(laid, Language::Japanese, size, turn, s.resources, s.content, outcome)
    } else {
        laid.with_page(size, turn, Seq::empty(), s.resources, s.content, outcome)
    }
}

/// The page of a sheet with a picture. Overlays that place pictures are the
/// page; the picture that they placed for the sheet itself does not count.
#[verifier::opaque]
pub open spec fn picture_shown(
    f: FileModel,
    data: Seq<u8>,
    doc: Document,
    page: Page,
    overlaid: bool,
    overlays: Seq<OverlayLayer>,
    n: SheetNumbers,
    label: Option<Metafile>,
    forced: Option<Size>,
    font: Option<Font>,
) -> FileModel {
    let size = sheet_size_of(forced, page.paper, n.natural, page.rotation);
    let turn = sheet_turned(page.rotation);
    let over = overlays_alone(
        f.file.objects,
        f.glyphs,
        data,
        doc,
        page,
        overlaid,
        overlays,
        n,
        font,
    );
    if over.pictures > 0 {
        let outcome = Outcome::Embedded {
            glyphs: over.placed,
            pictures: (over.pictures - 1) as usize,
        };
        FileModel {
            file: text_page(
                with_sheet(f.file, over),
                Language::Japanese,
                size,
                turn,
                over.resources,
                over.content,
                outcome,
            ),
            glyphs: over.glyphs,
        }
    } else {
        let (s, count) = picture_composed(over, data, doc, page, n, label, font);
        let outcome = Outcome::Embedded { glyphs: s.placed, pictures: count };
        FileModel { file: page_shown(f.file, s, size, turn, outcome), glyphs: s.glyphs }
    }
}

fn compose_picture(
    w: &mut Writer,
    over: Sheet,
    data: &[u8],
    doc: &Document,
    page: &Page,
    n: &SheetNumbers,
    label: Option<&Metafile>,
    font: Option<&Font>,
) -> (r: (Sheet, usize))
    requires
        over.glyphs.wf(),
        font matches Some(f) ==> f.wf(),
        numbers_match(sheet_blocks(data@, *doc, *page), n.blocks@),
    ensures
        r.0.glyphs.wf(),
        final(w)@.len() >= old(w)@.len(),
        (r.0.with(final(w)@), r.1) == picture_composed(
            over.with(old(w)@),
            data@,
            *doc,
            *page,
            *n,
            unref_label(label),
            font_of(font),
        ),
{
    let ghost before = over.with(w@);
    let (resources, content): (String, String) = (over.resources, over.content);
    let s = Sheet::bare(over.glyphs);
    let s = lay_picture(w, s, data, page, "Im0", &n.place, &None);
    let (mut s, count): (Sheet, usize) = lay_artwork(w, s, data, doc, page, n);
    let ghost art = s.with(w@);
    if over.painted {
        s.resources.append(resources.as_str());
        s.content.append(content.as_str());
        s.placed = s.placed.saturating_add(over.placed);
    }
    let ghost covered = s.with(w@);
    proof {
        if before.painted {
            assert(covered =~= (SheetModel {
                resources: art.resources + before.resources,
                content: art.content + before.content,
                placed: total(art.placed, before.placed),
                ..art
            }));
        }
    }
    let s = match (label, &n.label) {
        (Some(m), Some(l)) => {
            let none: Vec<&Page> = Vec::new();
            proof {
                assert(none@.unref() =~= Seq::<Page>::empty());
                law_drawing_keeps_objects(
                    covered,
                    data@,
                    *m,
                    l@,
                    Seq::empty(),
                    "L"@,
                    font_of(font),
                );
            }
            lay_drawing(w, s, data, m, l, &none, "L", font)
        },
        _ => s,
    };
    (s, count)
}

fn add_shown_page(a: &mut Assembly, s: &Sheet, size: Size, turn: u16, outcome: Outcome)
    requires
        old(a).wf(),
    ensures
        final(a).wf(),
        final(a)@ == page_shown(old(a)@, s.with(old(a)@.objects), size, turn, outcome),
{
    proof {
        assert(with_sheet(a@, s.with(a@.objects)) =~= a@);
        reveal_strlit("");
        assert(""@ =~= Seq::<char>::empty());
    }
    if s.placed > 0 {
        add_text_page(
            a,
            Language::Japanese,
            size,
            turn,
            s.resources.as_str(),
            s.content.as_str(),
            outcome,
        );
    } else {
        a.add_page(size, turn, "", s.resources.as_str(), s.content.as_str(), outcome);
    }
}

/// Adds the page of a sheet with a picture.
pub fn add_picture(
    a: &mut Assembly,
    glyphs: Glyphs,
    data: &[u8],
    doc: &Document,
    page: &Page,
    overlaid: bool,
    overlays: &Vec<OverlayLayer>,
    n: &SheetNumbers,
    label: Option<&Metafile>,
    forced: Option<Size>,
    font: Option<&Font>,
) -> (r: Glyphs)
    requires
        old(a).wf(),
        glyphs.wf(),
        font matches Some(f) ==> f.wf(),
        is_measured(data@, *doc, *page, overlays@, *n),
    ensures
        is_file(
            *final(a),
            r,
            picture_shown(
                FileModel { file: old(a)@, glyphs: glyphs@ },
                data@,
                *doc,
                *page,
                overlaid,
                overlays@,
                *n,
                unref_label(label),
                forced,
                font_of(font),
            ),
        ),
{
    proof {
        reveal(picture_shown);
    }
    let ghost start = a@;
    let size: Size = sheet_size(forced, page.paper, n.natural, page.rotation);
    let turn: u16 = sheet_turn(page.rotation);
    let over = lay_overlays_alone(
        &mut a.writer,
        glyphs,
        data,
        doc,
        page,
        overlaid,
        overlays,
        n,
        font,
    );
    let ghost first = over.with(a@.objects);
    proof {
        assert(a@ =~= with_sheet(start, first));
    }
    if over.pictures > 0 {
        let outcome = Outcome::Embedded { glyphs: over.placed, pictures: over.pictures - 1 };
        add_text_page(
            a,
            Language::Japanese,
            size,
            turn,
            over.resources.as_str(),
            over.content.as_str(),
            outcome,
        );
        return over.glyphs;
    }
    let (s, count): (Sheet, usize) = compose_picture(
        &mut a.writer,
        over,
        data,
        doc,
        page,
        n,
        label,
        font,
    );
    let ghost second = s.with(a@.objects);
    proof {
        assert(a@ =~= with_sheet(start, second));
        assert(with_sheet(a@, second) =~= with_sheet(start, second));
    }
    let outcome = Outcome::Embedded { glyphs: s.placed, pictures: count };
    add_shown_page(a, &s, size, turn, outcome);
    s.glyphs
}

// ------------------------------------------------------- drawing sheets

/// What is laid on the page of a sheet that was decoded into a drawing.
pub open spec fn drawing_composed(
    f: FileModel,
    data: Seq<u8>,
    doc: Document,
    page: Page,
    meta: Metafile,
    overlays: Seq<OverlayLayer>,
    n: SheetNumbers,
    font: Option<Font>,
) -> SheetModel {
    overlays_drawn(
        drawing_laid(
            bare_sheet(f.file.objects, f.glyphs),
            data,
            meta,
            n.body@,
            doc.pages@.filter(|p: Page| is_picture_on(p, page.index)),
            "M"@,
            font,
        ),
        data,
        overlays,
        n.overlays@,
        picture_group(doc.pages@, page),
        font,
        overlays.len() as int,
    )
}

/// The page of a sheet that was decoded into a drawing.
#[verifier::opaque]
pub open spec fn drawing_shown(
    f: FileModel,
    data: Seq<u8>,
    doc: Document,
    page: Page,
    meta: Metafile,
    overlays: Seq<OverlayLayer>,
    n: SheetNumbers,
    forced: Option<Size>,
    font: Option<Font>,
) -> FileModel {
    let s = drawing_composed(f, data, doc, page, meta, overlays, n, font);
    FileModel {
        file: text_page(
            with_sheet(f.file, s),
            Language::Japanese,
            sheet_size_of(forced, page.paper, n.natural, page.rotation),
            sheet_turned(page.rotation),
            s.resources,
            s.content,
            Outcome::Redrawn { glyphs: s.placed, pictures: s.pictures },
        ),
        glyphs: s.glyphs,
    }
}

/// Adds the page of a sheet that was decoded into a drawing.
pub fn add_drawing(
    a: &mut Assembly,
    glyphs: Glyphs,
    data: &[u8],
    doc: &Document,
    page: &Page,
    meta: &Metafile,
    overlays: &Vec<OverlayLayer>,
    n: &SheetNumbers,
    forced: Option<Size>,
    font: Option<&Font>,
) -> (r: Glyphs)
    requires
        old(a).wf(),
        glyphs.wf(),
        font matches Some(f) ==> f.wf(),
        n.overlays@.len() == overlays@.len(),
    ensures
        is_file(
            *final(a),
            r,
            drawing_shown(
                FileModel { file: old(a)@, glyphs: glyphs@ },
                data@,
                *doc,
                *page,
                *meta,
                overlays@,
                *n,
                forced,
                font_of(font),
            ),
        ),
{
    proof {
        reveal(drawing_shown);
    }
    let ghost start = FileModel { file: a@, glyphs: glyphs@ };
    let ghost bare = bare_sheet(a@.objects, glyphs@);
    let size: Size = sheet_size(forced, page.paper, n.natural, page.rotation);
    let turn: u16 = sheet_turn(page.rotation);
    let stored = doc.pictures_on(page.index);
    let group = group_of(doc, page);
    let s = Sheet::bare(glyphs);
    let s = lay_drawing(&mut a.writer, s, data, meta, &n.body, &stored, "M", font);
    let ghost between = s.with(a@.objects);
    let s = lay_overlays(&mut a.writer, s, data, overlays, &n.overlays, &group, font);
    proof {
        let laid = drawing_composed(
            start,
            data@,
            *doc,
            *page,
            *meta,
            overlays@,
            *n,
            font_of(font),
        );
        assert(s.with(a@.objects) == laid);
        law_drawing_keeps_objects(
            bare,
            data@,
            *meta,
            n.body@,
            stored@.unref(),
            "M"@,
            font_of(font),
        );
        law_overlays_keep_objects(
            between,
            data@,
            overlays@,
            n.overlays@,
            group@.unref(),
            font_of(font),
            overlays@.len() as int,
        );
        assert(a@ =~= with_sheet(start.file, laid));
    }
    let outcome = Outcome::Redrawn { glyphs: s.placed, pictures: s.pictures };
    add_text_page(
        a,
        Language::Japanese,
        size,
        turn,
        s.resources.as_str(),
        s.content.as_str(),
        outcome,
    );
    s.glyphs
}

// ---------------------------------------------------------- lost sheets

/// The page of a sheet whose body is lost. Overlays that painted anything
/// stand in its place. Else it is left out where that is asked for, or a note
/// stands there, with the artwork that belongs to the sheet.
#[verifier::opaque]
pub open spec fn lost_shown(
    f: FileModel,
    data: Seq<u8>,
    doc: Document,
    page: Page,
    overlaid: bool,
    overlays: Seq<OverlayLayer>,
    n: SheetNumbers,
    opts: Options,
    page_no: usize,
    font: Option<Font>,
) -> FileModel {
    let size = lost_size_of(opts.paper, page.paper);
    let turn = sheet_turned(page.rotation);
    let lang = lost_lang(page, opts.lang);
    let ready = lost_ready(f.file, lang, opts.missing);
    let over = overlays_alone(
        ready.objects,
        f.glyphs,
        data,
        doc,
        page,
        overlaid,
        overlays,
        n,
        font,
    );
    let laid = with_sheet(ready, over);
    FileModel {
        file: if over.painted {
            text_page(
                laid,
                Language::Japanese,
                size,
                turn,
                over.resources,
                over.content,
                Outcome::Redrawn { glyphs: over.placed, pictures: over.pictures },
            )
        } else if opts.missing == Missing::Skip {
            laid.with_skip()
        } else {
            gap_shown(
                laid,
                over.glyphs,
                data,
                doc,
                page,
                n,
                size,
                turn,
                resources_of(f.file.fonts_for(lang)),
                page_no,
            )
        },
        glyphs: over.glyphs,
    }
}

/// The file before a lost sheet is laid out: where a note may come to stand
/// for it, the fonts of the note are made before anything is drawn.
pub open spec fn lost_ready(f: AssemblyModel, lang: Language, missing: Missing) -> AssemblyModel {
    if missing == Missing::Skip {
        f
    } else {
        f.with_fonts(lang)
    }
}

/// A page with a note, and the artwork that belongs to its sheet.
pub open spec fn gap_shown(
    f: AssemblyModel,
    glyphs: GlyphModel,
    data: Seq<u8>,
    doc: Document,
    page: Page,
    n: SheetNumbers,
    size: Size,
    turn: u16,
    fonts: Seq<char>,
    page_no: usize,
) -> AssemblyModel {
    let noted = SheetModel { content: n.note@, ..bare_sheet(f.objects, glyphs) };
    let (s, count) = artwork_laid(noted, data, sheet_blocks(data, doc, page), n.blocks@);
    with_sheet(f, s).with_page(
        size,
        turn,
        fonts,
        s.resources,
        s.content,
        Outcome::Gap { page_no, pictures: count },
    )
}

fn add_gap(
    a: &mut Assembly,
    glyphs: Glyphs,
    data: &[u8],
    doc: &Document,
    page: &Page,
    n: &SheetNumbers,
    size: Size,
    turn: u16,
    fonts: &str,
    page_no: usize,
) -> (r: Glyphs)
    requires
        old(a).wf(),
        numbers_match(sheet_blocks(data@, *doc, *page), n.blocks@),
    ensures
        r == glyphs,
        final(a).wf(),
        final(a)@ == gap_shown(
            old(a)@,
            glyphs@,
            data@,
            *doc,
            *page,
            *n,
            size,
            turn,
            fonts@,
            page_no,
        ),
{
    let ghost start = a@;
    let mut s = Sheet::bare(glyphs);
    let ghost bare = s.with(a@.objects);
    s.content.append(n.note.as_str());
    proof {
        assert(bare == bare_sheet(a@.objects, glyphs@));
        assert(s.with(a@.objects) =~= (SheetModel {
            content: n.note@,
            ..bare_sheet(a@.objects, glyphs@)
        }));
    }
    let (s, count): (Sheet, usize) = lay_artwork(&mut a.writer, s, data, doc, page, n);
    proof {
        assert(a@ =~= with_sheet(start, s.with(a@.objects)));
    }
    a.add_page(
        size,
        turn,
        fonts,
        s.resources.as_str(),
        s.content.as_str(),
        Outcome::Gap { page_no, pictures: count },
    );
    s.glyphs
}

/// The language of the fonts on a page for a lost sheet: that of its overlays,
/// where it has any, is Japanese.
pub open spec fn lost_lang(page: Page, lang: Language) -> Language {
    if page.overlays@.len() == 0 {
        lang
    } else {
        Language::Japanese
    }
}

/// Adds the page of a sheet whose body is lost.
pub fn add_lost(
    a: &mut Assembly,
    glyphs: Glyphs,
    data: &[u8],
    doc: &Document,
    page: &Page,
    overlaid: bool,
    overlays: &Vec<OverlayLayer>,
    n: &SheetNumbers,
    opts: &Options,
    page_no: usize,
    font: Option<&Font>,
) -> (r: Glyphs)
    requires
        old(a).wf(),
        glyphs.wf(),
        font matches Some(f) ==> f.wf(),
        is_measured(data@, *doc, *page, overlays@, *n),
    ensures
        is_file(
            *final(a),
            r,
            lost_shown(
                FileModel { file: old(a)@, glyphs: glyphs@ },
                data@,
                *doc,
                *page,
                overlaid,
                overlays@,
                *n,
                *opts,
                page_no,
                font_of(font),
            ),
        ),
{
    proof {
        reveal(lost_shown);
    }
    let size: Size = lost_size(opts.paper, page.paper);
    let turn: u16 = sheet_turn(page.rotation);
    let lang: Language = if page.overlays.len() == 0 {
        opts.lang
    } else {
        Language::Japanese
    };
    let fonts = if let Missing::Skip = opts.missing {
        String::new()
    } else {
        a.note_resources(lang)
    };
    let ghost ready = a@;
    let over = lay_overlays_alone(
        &mut a.writer,
        glyphs,
        data,
        doc,
        page,
        overlaid,
        overlays,
        n,
        font,
    );
    let ghost first = over.with(a@.objects);
    proof {
        assert(a@ =~= with_sheet(ready, first));
    }
    if over.painted {
        let outcome = Outcome::Redrawn { glyphs: over.placed, pictures: over.pictures };
        add_text_page(
            a,
            Language::Japanese,
            size,
            turn,
            over.resources.as_str(),
            over.content.as_str(),
            outcome,
        );
        return over.glyphs;
    }
    if let Missing::Skip = opts.missing {
        a.skip_page();
        return over.glyphs;
    }
    add_gap(a, over.glyphs, data, doc, page, n, size, turn, fonts.as_str(), page_no)
}

} // verus!
