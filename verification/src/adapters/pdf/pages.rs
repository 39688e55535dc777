//! The pages of the PDF: what is laid on each, in which fonts it is shown, and
//! what it counts as.
use crate::adapters::pdf::assembly::{
    display_turn, display_turned, fonts_named, page_size, pdf_paper_size, Assembly, AssemblyModel,
    Missing, Options, Outcome, Size,
};
use crate::adapters::pdf::compose::{
    bare_sheet, law_members_keep_objects, law_overlays_keep_objects, lay_members, lay_overlays,
    members_drawn, overlays_drawn, LayerNumbers, MemberNumbers, Sheet, SheetModel,
};
use crate::adapters::pdf::fonts::{font_of, GlyphModel, Glyphs};
use crate::adapters::pdf::writer::Writer;
use crate::adapters::plan::{anchor_of, came_out, display_group, is_recovered};
use crate::adapters::sheets::{group_of, MemberLayer, OverlayLayer};
use crate::application::ports::PageDecoder;
use crate::domain::document::{DisplayPage, Document};
use crate::domain::output::Language;
use crate::domain::page::Page;
use crate::infrastructure::recovery::{or_default, paper_or_default};
use crate::infrastructure::ttf::Font;
use vstd::prelude::*;
use vstd::string::*;

verus! {

/// A file under construction, and the glyphs that its text uses.
pub struct FileModel {
    pub file: AssemblyModel,
    pub glyphs: GlyphModel,
}

/// A page that shows text, in the fonts for a language.
pub open spec fn text_page(
    f: AssemblyModel,
    lang: Language,
    size: Size,
    turn: u16,
    resources: Seq<char>,
    content: Seq<char>,
    outcome: Outcome,
) -> AssemblyModel {
    f.with_fonts(lang).with_page(
        size,
        turn,
        fonts_named(f.embedded, f.fonts_for(lang), lang),
        resources,
        content,
        outcome,
    )
}

pub(crate) fn add_text_page(
    a: &mut Assembly,
    lang: Language,
    size: Size,
    turn: u16,
    resources: &str,
    content: &str,
    outcome: Outcome,
)
    requires
        old(a).wf(),
    ensures
        final(a).wf(),
        final(a)@ == text_page(old(a)@, lang, size, turn, resources@, content@, outcome),
{
    let fonts = a.text_resources(lang);
    a.add_page(size, turn, fonts.as_str(), resources, content, outcome);
}

// ------------------------------------------------------ displayed pages

/// What is measured for a displayed page: its bodies, its overlays, and the
/// note that stands on it where nothing came out.
pub struct DisplayNumbers {
    pub members: Vec<MemberNumbers>,
    pub overlays: Vec<LayerNumbers>,
    pub note: String,
}

/// The size of a displayed page.
pub open spec fn display_size_of(forced: Option<Size>, paper: Option<(u32, u32)>) -> Size {
    match forced {
        Some(size) => size,
        None => page_size(paper_or_default(paper)),
    }
}

/// The size of a displayed page: the one that is forced on every page, else
/// that of its paper.
pub fn display_size(forced: Option<Size>, paper: Option<(u32, u32)>) -> (size: Size)
    ensures
        size == display_size_of(forced, paper),
{
    match forced {
        Some(size) => size,
        None => pdf_paper_size(or_default(paper)),
    }
}

/// What is laid on a displayed page.
pub open spec fn display_laid(
    objects: Seq<Option<Seq<u8>>>,
    glyphs: GlyphModel,
    data: Seq<u8>,
    doc: Document,
    display: DisplayPage,
    members: Seq<MemberLayer>,
    overlays: Seq<OverlayLayer>,
    n: DisplayNumbers,
    font: Option<Font>,
) -> SheetModel {
    overlays_drawn(
        members_drawn(
            bare_sheet(objects, glyphs),
            data,
            doc.pages@,
            members,
            n.members@,
            font,
            members.len() as int,
        ),
        data,
        overlays,
        n.overlays@,
        display_group(doc, display),
        font,
        overlays.len() as int,
    )
}

/// The file with what is laid on a page, before the page itself.
pub open spec fn with_sheet(f: AssemblyModel, s: SheetModel) -> AssemblyModel {
    AssemblyModel { objects: s.objects, ..f }
}

/// A displayed page that came out is shown. One that did not is left out, or
/// shown with a note.
pub open spec fn display_added(
    f: AssemblyModel,
    s: SheetModel,
    came_out: bool,
    missing: Missing,
    lang: Language,
    size: Size,
    turn: u16,
    note: Seq<char>,
    page_no: usize,
) -> AssemblyModel {
    let laid = with_sheet(f, s);
    if came_out {
        let outcome = Outcome::Redrawn { glyphs: s.placed, pictures: s.pictures };
        if s.placed > 0 {
            text_page(laid, Language::Japanese, size, turn, s.resources, s.content, outcome)
        } else {
            laid.with_page(size, turn, Seq::empty(), s.resources, s.content, outcome)
        }
    } else if missing == Missing::Skip {
        laid.with_skip()
    } else {
        text_page(
            laid,
            if s.placed > 0 {
                Language::Japanese
            } else {
                lang
            },
            size,
            turn,
            s.resources,
            s.content + note,
            Outcome::Gap { page_no, pictures: s.pictures },
        )
    }
}

/// A displayed page more.
#[verifier::opaque]
pub open spec fn display_shown<D: PageDecoder>(
    f: FileModel,
    data: Seq<u8>,
    doc: Document,
    display: DisplayPage,
    members: Seq<MemberLayer>,
    overlays: Seq<OverlayLayer>,
    n: DisplayNumbers,
    opts: Options,
    page_no: usize,
    font: Option<Font>,
    decoder: &D,
) -> FileModel {
    let s = display_laid(f.file.objects, f.glyphs, data, doc, display, members, overlays, n, font);
    let file = display_added(
        f.file,
        s,
        came_out(decoder, display@, s.painted),
        opts.missing,
        opts.lang,
        display_size_of(opts.paper, display.paper),
        display_turned(display.rotation),
        n.note@,
        page_no,
    );
    FileModel { file, glyphs: s.glyphs }
}

/// The result of adding pages is the file that is described.
pub open spec fn is_file(a: Assembly, g: Glyphs, f: FileModel) -> bool {
    a.wf() && g.wf() && a@ == f.file && g@ == f.glyphs
}

fn add_laid_display(
    a: &mut Assembly,
    s: &Sheet,
    came_out: bool,
    opts: &Options,
    size: Size,
    turn: u16,
    note: &str,
    page_no: usize,
)
    requires
        old(a).wf(),
    ensures
        final(a).wf(),
        final(a)@ == display_added(
            old(a)@,
            s.with(old(a)@.objects),
            came_out,
            opts.missing,
            opts.lang,
            size,
            turn,
            note@,
            page_no,
        ),
{
    proof {
        assert(with_sheet(a@, s.with(a@.objects)) =~= a@);
    }
    if came_out {
        let outcome = Outcome::Redrawn { glyphs: s.placed, pictures: s.pictures };
        if s.placed > 0 {
            add_text_page(
                a,
                Language::Japanese,
                size,
                turn,
                s.resources.as_str(),
                s.content.as_str(),
                outcome,
            );
            return;
        }
        proof {
            reveal_strlit("");
            assert(""@ =~= Seq::<char>::empty());
        }
        a.add_page(size, turn, "", s.resources.as_str(), s.content.as_str(), outcome);
        return;
    }
    if let Missing::Skip = opts.missing {
        a.skip_page();
        return;
    }
    let lang: Language = if s.placed > 0 {
        Language::Japanese
    } else {
        opts.lang
    };
    let mut content = String::from_str(s.content.as_str());
    content.append(note);
    add_text_page(
        a,
        lang,
        size,
        turn,
        s.resources.as_str(),
        content.as_str(),
        Outcome::Gap { page_no, pictures: s.pictures },
    );
}

fn lay_display(
    w: &mut Writer,
    glyphs: Glyphs,
    data: &[u8],
    doc: &Document,
    display: &DisplayPage,
    members: &Vec<MemberLayer>,
    overlays: &Vec<OverlayLayer>,
    n: &DisplayNumbers,
    font: Option<&Font>,
) -> (s: Sheet)
    requires
        glyphs.wf(),
        font matches Some(f) ==> f.wf(),
        n.members@.len() == members@.len(),
        n.overlays@.len() == overlays@.len(),
    ensures
        s.glyphs.wf(),
        s.with(final(w)@) == display_laid(
            old(w)@,
            glyphs@,
            data@,
            *doc,
            *display,
            members@,
            overlays@,
            *n,
            font_of(font),
        ),
        final(w)@.len() >= old(w)@.len(),
{
    let group: Vec<&Page> = match anchor_of(doc, display) {
        Some(k) => group_of(doc, &doc.pages[k]),
        None => Vec::new(),
    };
    proof {
        assert(group@.unref() =~= display_group(*doc, *display));
    }
    let ghost bare = bare_sheet(w@, glyphs@);
    let s = Sheet::bare(glyphs);
    let s = lay_members(w, s, data, doc, members, &n.members, font);
    let ghost between = s.with(w@);
    let s = lay_overlays(w, s, data, overlays, &n.overlays, &group, font);
    proof {
        law_members_keep_objects(
            bare,
            data@,
            doc.pages@,
            members@,
            n.members@,
            font_of(font),
            members@.len() as int,
        );
        law_overlays_keep_objects(
            between,
            data@,
            overlays@,
            n.overlays@,
            group@.unref(),
            font_of(font),
            overlays@.len() as int,
        );
    }
    s
}

/// Adds a displayed page: its bodies, and over them its overlays.
pub fn add_display<D: PageDecoder>(
    a: &mut Assembly,
    glyphs: Glyphs,
    data: &[u8],
    doc: &Document,
    display: &DisplayPage,
    members: &Vec<MemberLayer>,
    overlays: &Vec<OverlayLayer>,
    n: &DisplayNumbers,
    opts: &Options,
    page_no: usize,
    font: Option<&Font>,
    decoder: &D,
) -> (r: Glyphs)
    requires
        old(a).wf(),
        glyphs.wf(),
        font matches Some(f) ==> f.wf(),
        n.members@.len() == members@.len(),
        n.overlays@.len() == overlays@.len(),
    ensures
        is_file(
            *final(a),
            r,
            display_shown(
                FileModel { file: old(a)@, glyphs: glyphs@ },
                data@,
                *doc,
                *display,
                members@,
                overlays@,
                *n,
                *opts,
                page_no,
                font_of(font),
                decoder,
            ),
        ),
{
    proof {
        reveal(display_shown);
    }
    let ghost start = FileModel { file: a@, glyphs: glyphs@ };
    let s = lay_display(&mut a.writer, glyphs, data, doc, display, members, overlays, n, font);
    let came: bool = is_recovered(display, s.painted, decoder);
    let size: Size = display_size(opts.paper, display.paper);
    let turn: u16 = display_turn(display.rotation);
    proof {
        let laid = display_laid(
            start.file.objects,
            start.glyphs,
            data@,
            *doc,
            *display,
            members@,
            overlays@,
            *n,
            font_of(font),
        );
        assert(s.with(a@.objects) == laid);
        assert(a@ =~= with_sheet(start.file, laid));
        assert(with_sheet(a@, laid) =~= with_sheet(start.file, laid));
    }
    add_laid_display(a, &s, came, opts, size, turn, n.note.as_str(), page_no);
    s.glyphs
}

} // verus!
