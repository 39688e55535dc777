//! A whole document as a PDF: its pages one after the other, and what travels
//! along with them.
use crate::adapters::pdf::assembly::{
    finished_objects, finished_report, Assembly, AssemblyModel, Missing, Options, Outcome, Report,
    A4,
};
use crate::adapters::pdf::embed::{composite_font, embedded_file, font_objects, unused_font};
use crate::adapters::pdf::fonts::{font_of, resources_of, GlyphModel, Glyphs};
use crate::adapters::pdf::pages::{
    add_display, display_shown, is_file, DisplayNumbers, FileModel,
};
use crate::adapters::pdf::sheets::{
    add_drawing, add_lost, add_picture, drawing_shown, is_measured, lost_lang, lost_ready,
    lost_shown, overlays_alone, picture_shown, SheetNumbers,
};
use crate::adapters::pdf::writer::{file_of, octets};
use crate::adapters::plan::{label_after, label_behind, pages_among, SheetPlan};
use crate::adapters::sheets::{MemberLayer, OverlayLayer};
use crate::application::ports::PageDecoder;
use crate::domain::attachment::Attachment;
use crate::domain::document::Document;
use crate::domain::page::Page;
use crate::domain::rendering::Metafile;
use crate::infrastructure::ttf::Font;
use vstd::prelude::*;
use vstd::string::*;

verus! {

/// What a displayed page shows, and what is measured for it.
pub struct DisplayLayers {
    pub members: Vec<MemberLayer>,
    pub overlays: Vec<OverlayLayer>,
    pub numbers: DisplayNumbers,
}

impl DisplayLayers {
    /// There are numbers for all that the page shows.
    pub open spec fn is_measured(self) -> bool {
        self.numbers.members@.len() == self.members@.len() && self.numbers.overlays@.len()
            == self.overlays@.len()
    }
}

/// What lies over a sheet, and what is measured for it.
pub struct SheetLayers {
    pub overlays: Vec<OverlayLayer>,
    pub numbers: SheetNumbers,
}

/// The first `k` displayed pages more.
pub open spec fn displays_shown<D: PageDecoder>(
    f: FileModel,
    data: Seq<u8>,
    doc: Document,
    layers: Seq<DisplayLayers>,
    opts: Options,
    font: Option<Font>,
    decoder: &D,
    k: int,
) -> FileModel
    decreases k,
{
    if k <= 0 {
        f
    } else {
        display_shown(
            displays_shown(f, data, doc, layers, opts, font, decoder, k - 1),
            data,
            doc,
            doc.display_pages@[k - 1],
            layers[k - 1].members@,
            layers[k - 1].overlays@,
            layers[k - 1].numbers,
            opts,
            k as usize,
            font,
            decoder,
        )
    }
}

/// Adds the displayed pages.
pub fn add_displays<D: PageDecoder>(
    a: &mut Assembly,
    glyphs: Glyphs,
    data: &[u8],
    doc: &Document,
    layers: &Vec<DisplayLayers>,
    opts: &Options,
    font: Option<&Font>,
    decoder: &D,
) -> (r: Glyphs)
    requires
        old(a).wf(),
        glyphs.wf(),
        font matches Some(f) ==> f.wf(),
        layers@.len() == doc.display_pages@.len(),
        forall|i: int| 0 <= i < layers@.len() ==> (#[trigger] layers@[i]).is_measured(),
    ensures
        is_file(
            *final(a),
            r,
            displays_shown(
                FileModel { file: old(a)@, glyphs: glyphs@ },
                data@,
                *doc,
                layers@,
                *opts,
                font_of(font),
                decoder,
                layers@.len() as int,
            ),
        ),
{
    let ghost start = FileModel { file: a@, glyphs: glyphs@ };
    let mut g = glyphs;
    let mut k: usize = 0;
    while k < doc.display_pages.len()
        invariant
            k <= layers@.len(),
            start == (FileModel { file: old(a)@, glyphs: glyphs@ }),
            a.wf(),
            g.wf(),
            font matches Some(f) ==> f.wf(),
            layers@.len() == doc.display_pages@.len(),
            forall|i: int| 0 <= i < layers@.len() ==> (#[trigger] layers@[i]).is_measured(),
            displays_shown(start, data@, *doc, layers@, *opts, font_of(font), decoder, k as int)
                == (FileModel { file: a@, glyphs: g@ }),
        decreases layers@.len() - k,
    {
        assert(k < doc.display_pages.len());
        assert(layers@[k as int].is_measured());
        let l: &DisplayLayers = &layers[k];
        g = add_display(
            a,
            g,
            data,
            doc,
            &doc.display_pages[k],
            &l.members,
            &l.overlays,
            &l.numbers,
            opts,
            k + 1,
            font,
            decoder,
        );
        k += 1;
    }
    g
}

// --------------------------------------------------------------- sheets

/// One sheet more.
pub open spec fn sheet_shown(
    f: FileModel,
    data: Seq<u8>,
    doc: Document,
    index: usize,
    plans: Seq<SheetPlan>,
    i: int,
    l: SheetLayers,
    opts: Options,
    font: Option<Font>,
) -> FileModel {
    let page = doc.pages@[index as int];
    match plans[i] {
        SheetPlan::Label(_) => f,
        SheetPlan::Picture { overlaid, .. } => picture_shown(
            f,
            data,
            doc,
            page,
            overlaid,
            l.overlays@,
            l.numbers,
            label_after(plans, i),
            opts.paper,
            font,
        ),
        SheetPlan::Drawing(m) => drawing_shown(
            f,
            data,
            doc,
            page,
            m,
            l.overlays@,
            l.numbers,
            opts.paper,
            font,
        ),
        SheetPlan::Missing { overlaid } => lost_shown(
            f,
            data,
            doc,
            page,
            overlaid,
            l.overlays@,
            l.numbers,
            opts,
            pages_among(plans, i + 1) as usize,
            font,
        ),
    }
}

/// The first `k` sheets more.
pub open spec fn sheets_shown(
    f: FileModel,
    data: Seq<u8>,
    doc: Document,
    selected: Seq<usize>,
    plans: Seq<SheetPlan>,
    layers: Seq<SheetLayers>,
    opts: Options,
    font: Option<Font>,
    k: int,
) -> FileModel
    decreases k,
{
    if k <= 0 {
        f
    } else {
        sheet_shown(
            sheets_shown(f, data, doc, selected, plans, layers, opts, font, k - 1),
            data,
            doc,
            selected[k - 1],
            plans,
            k - 1,
            layers[k - 1],
            opts,
            font,
        )
    }
}

/// There are numbers for all that the sheets can show.
pub open spec fn are_measured(
    data: Seq<u8>,
    doc: Document,
    selected: Seq<usize>,
    layers: Seq<SheetLayers>,
) -> bool {
    layers.len() == selected.len() && forall|i: int|
        0 <= i < selected.len() ==> (#[trigger] selected[i]) < doc.pages@.len() && is_measured(
            data,
            doc,
            doc.pages@[selected[i] as int],
            layers[i].overlays@,
            layers[i].numbers,
        )
}

fn add_sheet(
    a: &mut Assembly,
    glyphs: Glyphs,
    data: &[u8],
    doc: &Document,
    index: usize,
    plans: &Vec<SheetPlan>,
    i: usize,
    l: &SheetLayers,
    opts: &Options,
    page_no: usize,
    font: Option<&Font>,
) -> (r: Glyphs)
    requires
        old(a).wf(),
        glyphs.wf(),
        font matches Some(f) ==> f.wf(),
        index < doc.pages@.len(),
        i < plans@.len(),
        page_no == pages_among(plans@, i + 1),
        is_measured(data@, *doc, doc.pages@[index as int], l.overlays@, l.numbers),
    ensures
        is_file(
            *final(a),
            r,
            sheet_shown(
                FileModel { file: old(a)@, glyphs: glyphs@ },
                data@,
                *doc,
                index,
                plans@,
                i as int,
                *l,
                *opts,
                font_of(font),
            ),
        ),
{
    let page = &doc.pages[index];
    match &plans[i] {
        SheetPlan::Label(_) => glyphs,
        SheetPlan::Picture { overlaid, .. } => {
            let label: Option<&Metafile> = label_behind(plans, i);
            add_picture(
                a,
                glyphs,
                data,
                doc,
                page,
                *overlaid,
                &l.overlays,
                &l.numbers,
                label,
                opts.paper,
                font,
            )
        },
        SheetPlan::Drawing(m) => add_drawing(
            a,
            glyphs,
            data,
            doc,
            page,
            m,
            &l.overlays,
            &l.numbers,
            opts.paper,
            font,
        ),
        SheetPlan::Missing { overlaid } => add_lost(
            a,
            glyphs,
            data,
            doc,
            page,
            *overlaid,
            &l.overlays,
            &l.numbers,
            opts,
            page_no,
            font,
        ),
    }
}

/// Adds the sheets. A label is no page of its own.
pub fn add_sheets(
    a: &mut Assembly,
    glyphs: Glyphs,
    data: &[u8],
    doc: &Document,
    selected: &Vec<usize>,
    plans: &Vec<SheetPlan>,
    layers: &Vec<SheetLayers>,
    opts: &Options,
    font: Option<&Font>,
) -> (r: Glyphs)
    requires
        old(a).wf(),
        glyphs.wf(),
        font matches Some(f) ==> f.wf(),
        plans@.len() == selected@.len(),
        are_measured(data@, *doc, selected@, layers@),
    ensures
        is_file(
            *final(a),
            r,
            sheets_shown(
                FileModel { file: old(a)@, glyphs: glyphs@ },
                data@,
                *doc,
                selected@,
                plans@,
                layers@,
                *opts,
                font_of(font),
                selected@.len() as int,
            ),
        ),
{
    let ghost start = FileModel { file: a@, glyphs: glyphs@ };
    let mut g = glyphs;
    let mut page_no: usize = 0;
    let mut k: usize = 0;
    while k < selected.len()
        invariant
            k <= selected@.len(),
            start == (FileModel { file: old(a)@, glyphs: glyphs@ }),
            page_no <= k,
            page_no == pages_among(plans@, k as int),
            a.wf(),
            g.wf(),
            font matches Some(f) ==> f.wf(),
            plans@.len() == selected@.len(),
            are_measured(data@, *doc, selected@, layers@),
            sheets_shown(
                start,
                data@,
                *doc,
                selected@,
                plans@,
                layers@,
                *opts,
                font_of(font),
                k as int,
            ) == (FileModel { file: a@, glyphs: g@ }),
        decreases selected@.len() - k,
    {
        assert(k < selected.len());
        assert(selected@[k as int] < doc.pages@.len());
        if let SheetPlan::Label(_) = &plans[k] {
        } else {
            page_no += 1;
        }
        g = add_sheet(a, g, data, doc, selected[k], plans, k, &layers[k], opts, page_no, font);
        k += 1;
    }
    g
}

// -------------------------------------------------------- the whole file

/// The file with one page at least: a document without any gets a note.
pub open spec fn with_some_page(f: AssemblyModel, opts: Options, note: Seq<char>) -> AssemblyModel {
    if f.kids.len() == 0 {
        f.with_fonts(opts.lang).with_page(
            A4,
            0,
            resources_of(f.fonts_for(opts.lang)),
            Seq::empty(),
            note,
            Outcome::Nothing,
        )
    } else {
        f
    }
}

/// The file with its embedded font. None where the subset cannot be made after
/// all.
pub open spec fn with_font(f: AssemblyModel, glyphs: GlyphModel, font: Option<Font>) -> Option<
    AssemblyModel,
> {
    match (f.embedded, font) {
        (Some(id), Some(font)) => if glyphs.used.len() == 0 {
            Some(
                AssemblyModel {
                    objects: f.objects.update(id - 1, Some(octets(unused_font()))),
                    ..f
                },
            )
        } else {
            match embedded_file(font.data@, glyphs.order) {
                Some(file) => Some(
                    AssemblyModel {
                        objects: (f.objects + font_objects(
                            font.name@,
                            file,
                            glyphs.used,
                            f.objects.len() + 1,
                        )).update(
                            id - 1,
                            Some(
                                octets(
                                    composite_font(
                                        font.name@,
                                        f.objects.len() + 3,
                                        f.objects.len() + 4,
                                    ),
                                ),
                            ),
                        ),
                        ..f
                    },
                ),
                None => None,
            }
        },
        _ => Some(f),
    }
}

/// The numbers of all objects fit.
pub open spec fn is_countable(f: AssemblyModel, files: Seq<Attachment>) -> bool {
    f.objects.len() + 2 * files.len() + f.gaps.len() + 6 <= usize::MAX
}

/// Finishes a file whose pages have been added: a note where there are none,
/// the embedded font, and what travels along. `pages` is how many pages the
/// document shows. None where the subset of the font cannot be made after all,
/// or there are more objects than can be counted.
pub fn finish_file(
    a: Assembly,
    glyphs: &Glyphs,
    data: &[u8],
    font: Option<&Font>,
    files: &Vec<Attachment>,
    opts: &Options,
    pages: usize,
    note: &str,
) -> (r: Option<(Vec<u8>, Report)>)
    requires
        a.wf(),
        forall|k: int| 0 <= k < files@.len() ==> (#[trigger] files@[k]).fits(data@.len()),
    ensures
        match with_font(with_some_page(a@, *opts, note@), glyphs@, font_of(font)) {
            Some(f) => if is_countable(f, files@) {
                r matches Some(done) && done.1 == finished_report(f, files@, *opts) && ({
                    let objects = finished_objects(f, data@, files@, *opts, pages as nat);
                    done.0@ == file_of(
                        objects,
                        (objects.len() - 1) as nat,
                        Some(objects.len() as usize),
                    )
                })
            } else {
                r is None
            },
            None => r is None,
        },
{
    let mut a = a;
    if a.kids.len() == 0 {
        let fonts = a.note_resources(opts.lang);
        proof {
            reveal_strlit("");
            assert(""@ =~= Seq::<char>::empty());
        }
        a.add_page(A4, 0, fonts.as_str(), "", note, Outcome::Nothing);
    }
    let ghost shown = a@;
    if let Some(id) = a.embedded {
        if let Some(f) = font {
            if !glyphs.embed(&mut a.writer, id, f) {
                return None;
            }
        }
    }
    proof {
        assert(with_font(shown, glyphs@, font_of(font)) == Some(a@));
    }
    let n: u128 = a.writer.len() as u128 + 2 * (files.len() as u128) + a.gaps.len() as u128 + 6;
    if n > usize::MAX as u128 {
        return None;
    }
    Some(a.finish(data, files, opts, pages))
}

// ----------------------------------------------------------------- laws

/// Pages that are shown and pages that are left out.
pub open spec fn pages_met(f: AssemblyModel) -> int {
    f.kids.len() + f.report.skipped
}

/// The second file has one page more, or one more that was left out.
spec fn is_page_more(f: AssemblyModel, g: AssemblyModel, missing: Missing) -> bool {
    &&& pages_met(g) == pages_met(f) + 1
    &&& f.report.skipped <= g.report.skipped <= f.report.skipped + 1
    &&& missing == Missing::Placeholder ==> g.report.skipped == f.report.skipped
}

proof fn lemma_lost_is_page(
    f: FileModel,
    data: Seq<u8>,
    doc: Document,
    page: Page,
    overlaid: bool,
    overlays: Seq<OverlayLayer>,
    n: SheetNumbers,
    opts: Options,
    page_no: usize,
    font: Option<Font>,
)
    requires
        f.file.report.skipped < usize::MAX,
    ensures
        is_page_more(
            f.file,
            lost_shown(f, data, doc, page, overlaid, overlays, n, opts, page_no, font).file,
            opts.missing,
        ),
{
    reveal(lost_shown);
    let ready = lost_ready(f.file, lost_lang(page, opts.lang), opts.missing);
    let over = overlays_alone(
        ready.objects,
        f.glyphs,
        data,
        doc,
        page,
        overlaid,
        overlays,
        n,
        font,
    );
    assert(over.painted || !over.painted);
}

proof fn lemma_one_page_more(
    f: FileModel,
    data: Seq<u8>,
    doc: Document,
    index: usize,
    plans: Seq<SheetPlan>,
    i: int,
    l: SheetLayers,
    opts: Options,
    font: Option<Font>,
)
    requires
        f.file.report.skipped < usize::MAX,
    ensures
        ({
            let g = sheet_shown(f, data, doc, index, plans, i, l, opts, font);
            if plans[i] is Label {
                g == f
            } else {
                is_page_more(f.file, g.file, opts.missing)
            }
        }),
{
    let page = doc.pages@[index as int];
    match plans[i] {
        SheetPlan::Label(_) => {},
        SheetPlan::Picture { .. } => {
            reveal(picture_shown);
        },
        SheetPlan::Drawing(_) => {
            reveal(drawing_shown);
        },
        SheetPlan::Missing { overlaid } => {
            lemma_lost_is_page(
                f,
                data,
                doc,
                page,
                overlaid,
                l.overlays@,
                l.numbers,
                opts,
                pages_among(plans, i + 1) as usize,
                font,
            );
        },
    }
}

/// Every sheet that is no label is either a page of the file or counted as
/// left out; and none is left out where notes are to stand for what is lost.
/// So the page numbers line up with those of the document.
pub proof fn law_each_sheet_is_a_page(
    f: FileModel,
    data: Seq<u8>,
    doc: Document,
    selected: Seq<usize>,
    plans: Seq<SheetPlan>,
    layers: Seq<SheetLayers>,
    opts: Options,
    font: Option<Font>,
    k: int,
)
    requires
        0 <= k,
        f.file.report.skipped + k <= usize::MAX,
    ensures
        ({
            let g = sheets_shown(f, data, doc, selected, plans, layers, opts, font, k);
            &&& pages_met(g.file) == pages_met(f.file) + pages_among(plans, k)
            &&& g.file.report.skipped <= f.file.report.skipped + k
            &&& opts.missing == Missing::Placeholder ==> g.file.report.skipped
                == f.file.report.skipped
        }),
    decreases k,
{
    if k > 0 {
        law_each_sheet_is_a_page(f, data, doc, selected, plans, layers, opts, font, k - 1);
        let b = sheets_shown(f, data, doc, selected, plans, layers, opts, font, k - 1);
        lemma_one_page_more(
            b,
            data,
            doc,
            selected[k - 1],
            plans,
            k - 1,
            layers[k - 1],
            opts,
            font,
        );
    }
}

/// Every displayed page is either a page of the file or counted as left out;
/// and none is left out where notes are to stand for what is lost.
pub proof fn law_each_display_is_a_page<D: PageDecoder>(
    f: FileModel,
    data: Seq<u8>,
    doc: Document,
    layers: Seq<DisplayLayers>,
    opts: Options,
    font: Option<Font>,
    decoder: &D,
    k: int,
)
    requires
        0 <= k,
        f.file.report.skipped + k <= usize::MAX,
    ensures
        ({
            let g = displays_shown(f, data, doc, layers, opts, font, decoder, k);
            &&& pages_met(g.file) == pages_met(f.file) + k
            &&& g.file.report.skipped <= f.file.report.skipped + k
            &&& opts.missing == Missing::Placeholder ==> g.file.report.skipped
                == f.file.report.skipped
        }),
    decreases k,
{
    if k > 0 {
        law_each_display_is_a_page(f, data, doc, layers, opts, font, decoder, k - 1);
        reveal(display_shown);
    }
}

/// A finished file has a page to open.
pub proof fn law_some_page_is_shown(f: AssemblyModel, opts: Options, note: Seq<char>)
    ensures
        with_some_page(f, opts, note).kids.len() > 0,
{
}

} // verus!
