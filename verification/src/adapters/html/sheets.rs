//! The sheets and displayed pages of a document as figures of the page, and
//! the page as a whole.
use crate::adapters::html::compose::{
    bare_sheet, drawing_laid, lay_drawing, lay_members, lay_overlays, members_drawn,
    overlays_drawn, MemberNumbers, Sheet, SheetModel,
};
use crate::adapters::html::page::{
    art_of, artwork, counted, display_gap, document_text, downloads, figure_text, picture_sheet,
    push_display_gap, push_sheet_figure, push_sheet_gap, sheet_gap, total, write_document,
    write_files, write_picture_sheet, Options, Outcome, Report,
};
use crate::adapters::html::svg::SvgNumbers;
use crate::adapters::html::words::Wording;
use crate::adapters::pdf::images::{jpeg_stream, stream_of};
use crate::adapters::plan::{
    anchor_of, came_out, display_group, is_recovered, label_after, label_behind, pages_among, unref_label, SheetPlan,
};
use crate::adapters::sheets::{group_of, picture_group, MemberLayer, OverlayLayer};
use crate::application::ports::PageDecoder;
use crate::domain::attachment::Attachment;
use crate::domain::document::{bands, is_picture_on, DisplayPage, Document};
use crate::domain::page::Page;
use crate::domain::rendering::Metafile;
use crate::infrastructure::recovery::{or_default, paper_or_default};
use vstd::prelude::*;
use vstd::string::*;

verus! {

/// The figures so far, and what they count as.
pub struct Figures {
    pub body: String,
    pub report: Report,
}

/// The figures so far as a value.
#[verifier::ext_equal]
pub struct FiguresModel {
    pub body: Seq<char>,
    pub report: Report,
}

impl View for Figures {
    type V = FiguresModel;

    open spec fn view(&self) -> FiguresModel {
        FiguresModel { body: self.body@, report: self.report }
    }
}

impl FiguresModel {
    /// One sheet more: what is written for it, and what it counts as.
    pub open spec fn with(self, text: Seq<char>, o: Outcome) -> FiguresModel {
        FiguresModel { body: self.body + text, report: counted(self.report, o) }
    }
}

impl Figures {
    /// None yet.
    pub fn new() -> (f: Figures)
        ensures
            f@ == (FiguresModel { body: Seq::empty(), report: Report::zero() }),
    {
        let f = Figures { body: String::new(), report: Report::default() };
        proof {
            assert(f.body@ =~= Seq::<char>::empty());
        }
        f
    }
}

// ------------------------------------------------------ displayed pages

/// What is measured for a displayed page: its bodies, its overlays, and the
/// ratio of its width to its height.
pub struct DisplayNumbers {
    pub members: Vec<MemberNumbers>,
    pub overlays: Vec<SvgNumbers>,
    pub ratio: String,
}

/// What a displayed page shows, and what is measured for it.
pub struct DisplayLayers {
    pub members: Vec<MemberLayer>,
    pub overlays: Vec<OverlayLayer>,
    pub numbers: DisplayNumbers,
}

impl DisplayLayers {
    /// There are numbers for all that the page shows.
    pub open spec fn is_measured(self) -> bool {
        self.numbers.members@.len() == self.members@.len() && self.numbers.overlays@.len()
            == self.overlays@.len()
    }
}

/// What is laid on a displayed page.
pub open spec fn display_laid(
    data: Seq<u8>,
    doc: Document,
    display: DisplayPage,
    l: DisplayLayers,
    no: nat,
    words: Wording,
) -> SheetModel {
    overlays_drawn(
        members_drawn(
            bare_sheet(),
            data,
            doc.pages@,
            l.members@,
            l.numbers.members@,
            no,
            words.page_alt@,
            words.art_alt@,
            l.members@.len() as int,
        ),
        data,
        l.overlays@,
        l.numbers.overlays@,
        no,
        "do"@,
        display_group(doc, display),
        words.art_alt@,
        l.overlays@.len() as int,
    )
}

/// A displayed page is a figure: it has an extent and came out.
pub open spec fn is_figure<D: PageDecoder>(
    display: DisplayPage,
    painted: bool,
    decoder: &D,
) -> bool {
    let paper = paper_or_default(display.paper);
    paper.0 > 0 && paper.1 > 0 && came_out(decoder, display@, painted)
}

/// A displayed page more. One that did not come out is left out, or a note
/// stands for it.
pub open spec fn display_shown<D: PageDecoder>(
    f: FiguresModel,
    data: Seq<u8>,
    doc: Document,
    display: DisplayPage,
    l: DisplayLayers,
    skip: bool,
    no: nat,
    words: Wording,
    decoder: &D,
) -> FiguresModel {
    let s = display_laid(data, doc, display, l, no, words);
    if is_figure(display, s.drawn.painted, decoder) {
        f.with(
            figure_text(
                display.rotation,
                no,
                l.numbers.ratio@,
                l.numbers.ratio@,
                s.svg,
                s.spans,
            ),
            Outcome::Shown { glyphs: s.drawn.glyphs, pictures: s.drawn.pictures },
        )
    } else if skip {
        f.with(Seq::empty(), Outcome::Skipped)
    } else {
        f.with(display_gap(no, words.gap_why@), Outcome::Gap { pictures: 0 })
    }
}

fn lay_display(
    data: &[u8],
    doc: &Document,
    display: &DisplayPage,
    l: &DisplayLayers,
    no: usize,
    words: &Wording,
) -> (s: Sheet)
    requires
        l.is_measured(),
    ensures
        s@ == display_laid(data@, *doc, *display, *l, no as nat, *words),
{
    let group: Vec<&Page> = match anchor_of(doc, display) {
        Some(k) => group_of(doc, &doc.pages[k]),
        None => Vec::new(),
    };
    proof {
        assert(group@.unref() =~= display_group(*doc, *display));
    }
    let mut s = Sheet::bare();
    lay_members(
        &mut s,
        data,
        doc,
        &l.members,
        &l.numbers.members,
        no,
        words.page_alt,
        words.art_alt,
    );
    lay_overlays(
        &mut s,
        data,
        &l.overlays,
        &l.numbers.overlays,
        no,
        "do",
        &group,
        words.art_alt,
    );
    s
}

/// Adds a displayed page: its bodies, and over them its overlays.
pub fn add_display<D: PageDecoder>(
    f: &mut Figures,
    data: &[u8],
    doc: &Document,
    display: &DisplayPage,
    l: &DisplayLayers,
    skip: bool,
    no: usize,
    words: &Wording,
    decoder: &D,
)
    requires
        l.is_measured(),
    ensures
        final(f)@ == display_shown(
            old(f)@,
            data@,
            *doc,
            *display,
            *l,
            skip,
            no as nat,
            *words,
            decoder,
        ),
{
    let ghost before = f@;
    let s = lay_display(data, doc, display, l, no, words);
    let paper: (u32, u32) = or_default(display.paper);
    if paper.0 > 0 && paper.1 > 0 && is_recovered(display, s.drawn.painted, decoder) {
        push_sheet_figure(
            &mut f.body,
            display.rotation,
            no,
            l.numbers.ratio.as_str(),
            l.numbers.ratio.as_str(),
            s.svg.as_str(),
            s.spans.as_str(),
        );
        f.report.count(Outcome::Shown { glyphs: s.drawn.glyphs, pictures: s.drawn.pictures });
    } else if skip {
        f.report.count(Outcome::Skipped);
    } else {
        push_display_gap(&mut f.body, no, words.gap_why);
        f.report.count(Outcome::Gap { pictures: 0 });
    }
    proof {
        assert(f@ =~= display_shown(
            before,
            data@,
            *doc,
            *display,
            *l,
            skip,
            no as nat,
            *words,
            decoder,
        ));
    }
}

/// The first `k` displayed pages more.
pub open spec fn displays_shown<D: PageDecoder>(
    f: FiguresModel,
    data: Seq<u8>,
    doc: Document,
    layers: Seq<DisplayLayers>,
    skip: bool,
    words: Wording,
    decoder: &D,
    k: int,
) -> FiguresModel
    decreases k,
{
    if k <= 0 {
        f
    } else {
        display_shown(
            displays_shown(f, data, doc, layers, skip, words, decoder, k - 1),
            data,
            doc,
            doc.display_pages@[k - 1],
            layers[k - 1],
            skip,
            k as nat,
            words,
            decoder,
        )
    }
}

/// Adds the displayed pages.
pub fn add_displays<D: PageDecoder>(
    f: &mut Figures,
    data: &[u8],
    doc: &Document,
    layers: &Vec<DisplayLayers>,
    skip: bool,
    words: &Wording,
    decoder: &D,
)
    requires
        layers@.len() == doc.display_pages@.len(),
        forall|i: int| 0 <= i < layers@.len() ==> (#[trigger] layers@[i]).is_measured(),
    ensures
        final(f)@ == displays_shown(
            old(f)@,
            data@,
            *doc,
            layers@,
            skip,
            *words,
            decoder,
            layers@.len() as int,
        ),
{
    let ghost start = f@;
    let mut k: usize = 0;
    while k < doc.display_pages.len()
        invariant
            k <= layers@.len(),
            layers@.len() == doc.display_pages@.len(),
            forall|i: int| 0 <= i < layers@.len() ==> (#[trigger] layers@[i]).is_measured(),
            f@ == displays_shown(
                start,
                data@,
                *doc,
                layers@,
                skip,
                *words,
                decoder,
                k as int,
            ),
        decreases layers@.len() - k,
    {
        assert(k < doc.display_pages.len());
        assert(layers@[k as int].is_measured());
        add_display(f, data, doc, &doc.display_pages[k], &layers[k], skip, k + 1, words, decoder);
        k += 1;
    }
}

// --------------------------------------------------------------- sheets

/// What is measured for a sheet.
pub struct SheetNumbers {
    /// The ratio of width to height of the sheet as shown, and before it is
    /// turned.
    pub frame: String,
    pub sheet: String,
    /// How its drawing is drawn.
    pub body: SvgNumbers,
    /// How its overlays are drawn.
    pub overlays: Vec<SvgNumbers>,
    /// How the label of its picture is drawn.
    pub label: SvgNumbers,
}

/// What lies over a sheet, and what is measured for it.
pub struct SheetLayers {
    pub overlays: Vec<OverlayLayer>,
    pub numbers: SheetNumbers,
}

/// What the overlays of a sheet lay over `s`.
pub open spec fn overlays_laid_over(
    s: SheetModel,
    data: Seq<u8>,
    doc: Document,
    page: Page,
    l: SheetLayers,
    no: nat,
    words: Wording,
) -> SheetModel {
    overlays_drawn(
        s,
        data,
        l.overlays@,
        l.numbers.overlays@,
        no,
        "o"@,
        picture_group(doc.pages@, page),
        words.art_alt@,
        l.overlays@.len() as int,
    )
}

fn lay_page_overlays(
    s: &mut Sheet,
    data: &[u8],
    doc: &Document,
    page: &Page,
    l: &SheetLayers,
    no: usize,
    words: &Wording,
)
    requires
        l.numbers.overlays@.len() == l.overlays@.len(),
    ensures
        final(s)@ == overlays_laid_over(old(s)@, data@, *doc, *page, *l, no as nat, *words),
{
    let group = group_of(doc, page);
    lay_overlays(
        s,
        data,
        &l.overlays,
        &l.numbers.overlays,
        no,
        "o",
        &group,
        words.art_alt,
    );
}

/// A sheet as a figure.
pub open spec fn sheet_figure(
    page: Page,
    n: SheetNumbers,
    no: nat,
    svg: Seq<char>,
    spans: Seq<char>,
) -> Seq<char> {
    figure_text(page.rotation, no, n.frame@, n.sheet@, svg, spans)
}

/// The artwork that belongs to a sheet.
pub open spec fn sheet_art(data: Seq<u8>, doc: Document, page: Page, words: Wording) -> (
    Seq<char>,
    usize,
) {
    let runs = bands(doc.pages@.filter(|p: Page| is_picture_on(p, page.index)));
    let (art, count) = art_of(data, runs, words.art_alt@);
    (
        art,
        if count <= usize::MAX {
            count as usize
        } else {
            usize::MAX
        },
    )
}

/// The figure of a sheet with a picture. Overlays that place pictures are the
/// figure; the picture that they placed for the sheet itself does not count.
/// Else the picture is shown, with its artwork, and over both the overlays and
/// the label.
#[verifier::opaque]
pub open spec fn picture_shown(
    f: FiguresModel,
    data: Seq<u8>,
    doc: Document,
    page: Page,
    stream: Seq<u8>,
    overlaid: bool,
    l: SheetLayers,
    label: Option<Metafile>,
    no: nat,
    words: Wording,
) -> FiguresModel {
    let over = if overlaid {
        overlays_laid_over(bare_sheet(), data, doc, page, l, no, words)
    } else {
        bare_sheet()
    };
    if over.drawn.pictures > 0 {
        f.with(
            sheet_figure(page, l.numbers, no, over.svg, over.spans),
            Outcome::Shown {
                glyphs: over.drawn.glyphs,
                pictures: (over.drawn.pictures - 1) as usize,
            },
        )
    } else {
        let s = match label {
            Some(m) => drawing_laid(
                over,
                data,
                m,
                l.numbers.label@,
                no,
                "l"@,
                Seq::empty(),
                words.art_alt@,
            ),
            None => over,
        };
        let (art, count) = sheet_art(data, doc, page, words);
        f.with(
            sheet_figure(
                page,
                l.numbers,
                no,
                picture_sheet(words.page_alt@, stream, art, s.svg, s.spans),
                Seq::empty(),
            ),
            Outcome::Shown {
                glyphs: s.drawn.glyphs,
                pictures: total(s.drawn.pictures, count),
            },
        )
    }
}

/// The figure of a sheet that was decoded into a drawing.
#[verifier::opaque]
pub open spec fn drawing_shown(
    f: FiguresModel,
    data: Seq<u8>,
    doc: Document,
    page: Page,
    meta: Metafile,
    l: SheetLayers,
    no: nat,
    words: Wording,
) -> FiguresModel {
    let stored = doc.pages@.filter(|p: Page| is_picture_on(p, page.index));
    let s = overlays_laid_over(
        drawing_laid(
            bare_sheet(),
            data,
            meta,
            l.numbers.body@,
            no,
            "m"@,
            stored,
            words.art_alt@,
        ),
        data,
        doc,
        page,
        l,
        no,
        words,
    );
    f.with(
        sheet_figure(page, l.numbers, no, s.svg, s.spans),
        Outcome::Shown { glyphs: s.drawn.glyphs, pictures: s.drawn.pictures },
    )
}

/// What stands for a sheet whose body is lost: its overlays, if they painted
/// anything; else it is left out, or a note stands for it, with the artwork
/// that was found on it.
#[verifier::opaque]
pub open spec fn lost_shown(
    f: FiguresModel,
    data: Seq<u8>,
    doc: Document,
    page: Page,
    overlaid: bool,
    l: SheetLayers,
    skip: bool,
    no: nat,
    words: Wording,
) -> FiguresModel {
    let over = if overlaid {
        overlays_laid_over(bare_sheet(), data, doc, page, l, no, words)
    } else {
        bare_sheet()
    };
    if over.drawn.painted {
        f.with(
            sheet_figure(page, l.numbers, no, over.svg, over.spans),
            Outcome::Shown {
                glyphs: over.drawn.glyphs,
                pictures: if over.drawn.pictures > 0 {
                    (over.drawn.pictures - 1) as usize
                } else {
                    0
                },
            },
        )
    } else if skip {
        f.with(Seq::empty(), Outcome::Skipped)
    } else {
        let (art, count) = sheet_art(data, doc, page, words);
        f.with(sheet_gap(no, words.gap_why@, art), Outcome::Gap { pictures: count })
    }
}

/// Adds the figure of a sheet with a picture.
pub fn add_picture(
    f: &mut Figures,
    data: &[u8],
    doc: &Document,
    page: &Page,
    stream: &[u8],
    overlaid: bool,
    l: &SheetLayers,
    label: Option<&Metafile>,
    no: usize,
    words: &Wording,
)
    requires
        l.numbers.overlays@.len() == l.overlays@.len(),
    ensures
        final(f)@ == picture_shown(
            old(f)@,
            data@,
            *doc,
            *page,
            stream@,
            overlaid,
            *l,
            unref_label(label),
            no as nat,
            *words,
        ),
{
    proof {
        reveal(picture_shown);
    }
    let ghost before = f@;
    let n: &SheetNumbers = &l.numbers;
    let mut s = Sheet::bare();
    if overlaid {
        lay_page_overlays(&mut s, data, doc, page, l, no, words);
    }
    if s.drawn.pictures > 0 {
        push_sheet_figure(
            &mut f.body,
            page.rotation,
            no,
            n.frame.as_str(),
            n.sheet.as_str(),
            s.svg.as_str(),
            s.spans.as_str(),
        );
        let pictures: usize = s.drawn.pictures - 1;
        f.report.count(Outcome::Shown { glyphs: s.drawn.glyphs, pictures });
    } else {
        if let Some(m) = label {
            let none: Vec<&Page> = Vec::new();
            proof {
                assert(none@.unref() =~= Seq::<Page>::empty());
            }
            lay_drawing(&mut s, data, m, &n.label, no, "l", &none, words.art_alt);
        }
        let (art, count): (String, usize) = artwork(data, doc, page.index, words.art_alt);
        let content = write_picture_sheet(
            words.page_alt,
            stream,
            art.as_str(),
            s.svg.as_str(),
            s.spans.as_str(),
        );
        proof {
            reveal_strlit("");
            assert(""@ =~= Seq::<char>::empty());
        }
        push_sheet_figure(
            &mut f.body,
            page.rotation,
            no,
            n.frame.as_str(),
            n.sheet.as_str(),
            content.as_str(),
            "",
        );
        let pictures: usize = s.drawn.pictures.saturating_add(count);
        f.report.count(Outcome::Shown { glyphs: s.drawn.glyphs, pictures });
    }
    proof {
        assert(f@ =~= picture_shown(
            before,
            data@,
            *doc,
            *page,
            stream@,
            overlaid,
            *l,
            unref_label(label),
            no as nat,
            *words,
        ));
    }
}

/// Adds the figure of a sheet that was decoded into a drawing.
pub fn add_drawing(
    f: &mut Figures,
    data: &[u8],
    doc: &Document,
    page: &Page,
    meta: &Metafile,
    l: &SheetLayers,
    no: usize,
    words: &Wording,
)
    requires
        l.numbers.overlays@.len() == l.overlays@.len(),
    ensures
        final(f)@ == drawing_shown(old(f)@, data@, *doc, *page, *meta, *l, no as nat, *words),
{
    proof {
        reveal(drawing_shown);
    }
    let ghost before = f@;
    let n: &SheetNumbers = &l.numbers;
    let stored = doc.pictures_on(page.index);
    let mut s = Sheet::bare();
    lay_drawing(&mut s, data, meta, &n.body, no, "m", &stored, words.art_alt);
    lay_page_overlays(&mut s, data, doc, page, l, no, words);
    push_sheet_figure(
        &mut f.body,
        page.rotation,
        no,
        n.frame.as_str(),
        n.sheet.as_str(),
        s.svg.as_str(),
        s.spans.as_str(),
    );
    f.report.count(Outcome::Shown { glyphs: s.drawn.glyphs, pictures: s.drawn.pictures });
    proof {
        assert(f@ =~= drawing_shown(before, data@, *doc, *page, *meta, *l, no as nat, *words));
    }
}

/// Adds what stands for a sheet whose body is lost.
pub fn add_lost(
    f: &mut Figures,
    data: &[u8],
    doc: &Document,
    page: &Page,
    overlaid: bool,
    l: &SheetLayers,
    skip: bool,
    no: usize,
    words: &Wording,
)
    requires
        l.numbers.overlays@.len() == l.overlays@.len(),
    ensures
        final(f)@ == lost_shown(
            old(f)@,
            data@,
            *doc,
            *page,
            overlaid,
            *l,
            skip,
            no as nat,
            *words,
        ),
{
    proof {
        reveal(lost_shown);
    }
    let ghost before = f@;
    let n: &SheetNumbers = &l.numbers;
    let mut s = Sheet::bare();
    if overlaid {
        lay_page_overlays(&mut s, data, doc, page, l, no, words);
    }
    if s.drawn.painted {
        push_sheet_figure(
            &mut f.body,
            page.rotation,
            no,
            n.frame.as_str(),
            n.sheet.as_str(),
            s.svg.as_str(),
            s.spans.as_str(),
        );
        let pictures: usize = s.drawn.pictures.saturating_sub(1);
        f.report.count(Outcome::Shown { glyphs: s.drawn.glyphs, pictures });
    } else if skip {
        f.report.count(Outcome::Skipped);
    } else {
        let (art, count): (String, usize) = artwork(data, doc, page.index, words.art_alt);
        push_sheet_gap(&mut f.body, no, words.gap_why, art.as_str());
        f.report.count(Outcome::Gap { pictures: count });
    }
    proof {
        assert(f@ =~= lost_shown(
            before,
            data@,
            *doc,
            *page,
            overlaid,
            *l,
            skip,
            no as nat,
            *words,
        ));
    }
}

/// One sheet more. A picture that does not lie in the file is lost.
pub open spec fn sheet_shown(
    f: FiguresModel,
    data: Seq<u8>,
    doc: Document,
    index: usize,
    plans: Seq<SheetPlan>,
    i: int,
    l: SheetLayers,
    skip: bool,
    words: Wording,
) -> FiguresModel {
    let page = doc.pages@[index as int];
    let no = pages_among(plans, i + 1);
    match plans[i] {
        SheetPlan::Label(_) => f,
        SheetPlan::Picture { overlaid, .. } => match jpeg_stream(data, Some(page.data)) {
            Some(stream) => picture_shown(
                f,
                data,
                doc,
                page,
                stream,
                overlaid,
                l,
                label_after(plans, i),
                no,
                words,
            ),
            None => lost_shown(f, data, doc, page, false, l, skip, no, words),
        },
        SheetPlan::Drawing(m) => drawing_shown(f, data, doc, page, m, l, no, words),
        SheetPlan::Missing { overlaid } => lost_shown(
            f,
            data,
            doc,
            page,
            overlaid,
            l,
            skip,
            no,
            words,
        ),
    }
}

/// The first `k` sheets more.
pub open spec fn sheets_shown(
    f: FiguresModel,
    data: Seq<u8>,
    doc: Document,
    selected: Seq<usize>,
    plans: Seq<SheetPlan>,
    layers: Seq<SheetLayers>,
    skip: bool,
    words: Wording,
    k: int,
) -> FiguresModel
    decreases k,
{
    if k <= 0 {
        f
    } else {
        sheet_shown(
            sheets_shown(f, data, doc, selected, plans, layers, skip, words, k - 1),
            data,
            doc,
            selected[k - 1],
            plans,
            k - 1,
            layers[k - 1],
            skip,
            words,
        )
    }
}

fn add_sheet(
    f: &mut Figures,
    data: &[u8],
    doc: &Document,
    index: usize,
    plans: &Vec<SheetPlan>,
    i: usize,
    l: &SheetLayers,
    skip: bool,
    no: usize,
    words: &Wording,
)
    requires
        index < doc.pages@.len(),
        i < plans@.len(),
        no == pages_among(plans@, i + 1),
        l.numbers.overlays@.len() == l.overlays@.len(),
    ensures
        final(f)@ == sheet_shown(
            old(f)@,
            data@,
            *doc,
            index,
            plans@,
            i as int,
            *l,
            skip,
            *words,
        ),
{
    let page = &doc.pages[index];
    match &plans[i] {
        SheetPlan::Label(_) => {},
        SheetPlan::Picture { overlaid, .. } => {
            let label: Option<&Metafile> = label_behind(plans, i);
            match stream_of(data, page) {
                Some(stream) => add_picture(
                    f,
                    data,
                    doc,
                    page,
                    stream,
                    *overlaid,
                    l,
                    label,
                    no,
                    words,
                ),
                None => add_lost(f, data, doc, page, false, l, skip, no, words),
            }
        },
        SheetPlan::Drawing(m) => add_drawing(f, data, doc, page, m, l, no, words),
        SheetPlan::Missing { overlaid } => add_lost(
            f,
            data,
            doc,
            page,
            *overlaid,
            l,
            skip,
            no,
            words,
        ),
    }
}

/// Adds the sheets. A label is no figure of its own.
pub fn add_sheets(
    f: &mut Figures,
    data: &[u8],
    doc: &Document,
    selected: &Vec<usize>,
    plans: &Vec<SheetPlan>,
    layers: &Vec<SheetLayers>,
    skip: bool,
    words: &Wording,
)
    requires
        plans@.len() == selected@.len(),
        layers@.len() == selected@.len(),
        forall|i: int| 0 <= i < selected@.len() ==> #[trigger] selected@[i] < doc.pages@.len(),
        forall|i: int|
            0 <= i < layers@.len() ==> (#[trigger] layers@[i]).numbers.overlays@.len()
                == layers@[i].overlays@.len(),
    ensures
        final(f)@ == sheets_shown(
            old(f)@,
            data@,
            *doc,
            selected@,
            plans@,
            layers@,
            skip,
            *words,
            selected@.len() as int,
        ),
{
    let ghost start = f@;
    let mut no: usize = 0;
    let mut k: usize = 0;
    while k < selected.len()
        invariant
            k <= selected@.len(),
            no <= k,
            no == pages_among(plans@, k as int),
            plans@.len() == selected@.len(),
            layers@.len() == selected@.len(),
            forall|i: int| 0 <= i < selected@.len() ==> #[trigger] selected@[i] < doc.pages@.len(),
            forall|i: int|
                0 <= i < layers@.len() ==> (#[trigger] layers@[i]).numbers.overlays@.len()
                    == layers@[i].overlays@.len(),
            f@ == sheets_shown(
                start,
                data@,
                *doc,
                selected@,
                plans@,
                layers@,
                skip,
                *words,
                k as int,
            ),
        decreases selected@.len() - k,
    {
        assert(k < selected.len());
        if let SheetPlan::Label(_) = &plans[k] {
        } else {
            no += 1;
        }
        add_sheet(f, data, doc, selected[k], plans, k, &layers[k], skip, no, words);
        k += 1;
    }
}

// -------------------------------------------------------- the whole page

/// The name of a document.
pub open spec fn title_of(opts: Options) -> Seq<char> {
    match opts.title {
        Some(t) => t@,
        None => "document"@,
    }
}

/// The report on a page, once what travels along with it is counted.
pub open spec fn finished_report(
    r: Report,
    data: Seq<u8>,
    files: Seq<Attachment>,
    opts: Options,
) -> Report {
    Report { attachments: downloads(data, title_of(opts), files, opts).1 as usize, ..r }
}

/// Finishes a page whose figures have been added.
pub fn finish_page(
    f: Figures,
    data: &[u8],
    files: &Vec<Attachment>,
    opts: &Options,
    words: &Wording,
) -> (r: (String, Report))
    requires
        files@.len() < usize::MAX,
    ensures
        ({
            let links = downloads(data@, title_of(*opts), files@, *opts).0;
            &&& r.0@ == document_text(
                words.lang_attr@,
                words.empty@,
                title_of(*opts),
                f.body@,
                links,
            )
            &&& r.1 == finished_report(f.report, data@, files@, *opts)
        }),
{
    let title: &str = match &opts.title {
        Some(t) => t.as_str(),
        None => "document",
    };
    let (links, count): (String, usize) = write_files(data, title, files, opts);
    let mut report: Report = f.report;
    report.attachments = count;
    (write_document(words, title, f.body.as_str(), links.as_str()), report)
}

// ----------------------------------------------------------------- laws

/// Sheets that are shown, noted or left out.
pub open spec fn sheets_met(r: Report) -> int {
    r.embedded + r.gaps + r.skipped
}

/// The report counts one sheet more than another, and one more left out only
/// where that is asked for.
spec fn meets_one(after: Report, before: Report, skip: bool) -> bool {
    sheets_met(after) == sheets_met(before) + 1 && (!skip ==> after.skipped == before.skipped)
}

proof fn lemma_one_sheet_is_met(
    f: FiguresModel,
    data: Seq<u8>,
    doc: Document,
    index: usize,
    plans: Seq<SheetPlan>,
    i: int,
    l: SheetLayers,
    skip: bool,
    words: Wording,
)
    requires
        sheets_met(f.report) < usize::MAX,
    ensures
        ({
            let g = sheet_shown(f, data, doc, index, plans, i, l, skip, words);
            if plans[i] is Label {
                g == f
            } else {
                meets_one(g.report, f.report, skip)
            }
        }),
{
    let page = doc.pages@[index as int];
    let no = pages_among(plans, i + 1);
    let label = label_after(plans, i);
    let stream = match jpeg_stream(data, Some(page.data)) {
        Some(stream) => stream,
        None => Seq::empty(),
    };
    assert forall|overlaid: bool| meets_one(
        #[trigger] picture_shown(f, data, doc, page, stream, overlaid, l, label, no, words).report,
        f.report,
        skip,
    ) by {
        reveal(picture_shown);
    }
    assert forall|m: Metafile| meets_one(
        #[trigger] drawing_shown(f, data, doc, page, m, l, no, words).report,
        f.report,
        skip,
    ) by {
        reveal(drawing_shown);
    }
    assert forall|overlaid: bool| meets_one(
        #[trigger] lost_shown(f, data, doc, page, overlaid, l, skip, no, words).report,
        f.report,
        skip,
    ) by {
        reveal(lost_shown);
    }
}

/// Every sheet that is no label is counted once, as shown, noted or left out;
/// and none is left out where notes are to stand for what is lost.
pub proof fn law_each_sheet_is_met(
    f: FiguresModel,
    data: Seq<u8>,
    doc: Document,
    selected: Seq<usize>,
    plans: Seq<SheetPlan>,
    layers: Seq<SheetLayers>,
    skip: bool,
    words: Wording,
    k: int,
)
    requires
        0 <= k,
        sheets_met(f.report) + k <= usize::MAX,
    ensures
        ({
            let g = sheets_shown(f, data, doc, selected, plans, layers, skip, words, k);
            &&& sheets_met(g.report) == sheets_met(f.report) + pages_among(plans, k)
            &&& pages_among(plans, k) <= k
            &&& !skip ==> g.report.skipped == f.report.skipped
        }),
    decreases k,
{
    if k > 0 {
        law_each_sheet_is_met(f, data, doc, selected, plans, layers, skip, words, k - 1);
        lemma_one_sheet_is_met(
            sheets_shown(f, data, doc, selected, plans, layers, skip, words, k - 1),
            data,
            doc,
            selected[k - 1],
            plans,
            k - 1,
            layers[k - 1],
            skip,
            words,
        );
    }
}

/// Every displayed page is counted once, as shown, noted or left out; and none
/// is left out where notes are to stand for what is lost.
pub proof fn law_each_display_is_met<D: PageDecoder>(
    f: FiguresModel,
    data: Seq<u8>,
    doc: Document,
    layers: Seq<DisplayLayers>,
    skip: bool,
    words: Wording,
    decoder: &D,
    k: int,
)
    requires
        0 <= k,
        sheets_met(f.report) + k <= usize::MAX,
    ensures
        ({
            let g = displays_shown(f, data, doc, layers, skip, words, decoder, k);
            &&& sheets_met(g.report) == sheets_met(f.report) + k
            &&& !skip ==> g.report.skipped == f.report.skipped
        }),
    decreases k,
{
    if k > 0 {
        law_each_display_is_met(f, data, doc, layers, skip, words, decoder, k - 1);
    }
}

/// The first report leaves out what the second has notes for. Else they count
/// the same sheets as shown, the same characters and the same files.
pub open spec fn skips_the_gaps(skipping: Report, noting: Report) -> bool {
    &&& skipping.embedded == noting.embedded
    &&& skipping.glyphs == noting.glyphs
    &&& skipping.attachments == noting.attachments
    &&& skipping.skipped == noting.gaps
    &&& skipping.gaps == 0
    &&& noting.skipped == 0
}

proof fn lemma_one_sheet_skipped(
    f: FiguresModel,
    g: FiguresModel,
    data: Seq<u8>,
    doc: Document,
    index: usize,
    plans: Seq<SheetPlan>,
    i: int,
    l: SheetLayers,
    words: Wording,
)
    requires
        skips_the_gaps(f.report, g.report),
    ensures
        skips_the_gaps(
            sheet_shown(f, data, doc, index, plans, i, l, true, words).report,
            sheet_shown(g, data, doc, index, plans, i, l, false, words).report,
        ),
{
    let page = doc.pages@[index as int];
    let no = pages_among(plans, i + 1);
    let label = label_after(plans, i);
    let stream = match jpeg_stream(data, Some(page.data)) {
        Some(stream) => stream,
        None => Seq::empty(),
    };
    assert forall|overlaid: bool| skips_the_gaps(
        #[trigger] picture_shown(f, data, doc, page, stream, overlaid, l, label, no, words).report,
        picture_shown(g, data, doc, page, stream, overlaid, l, label, no, words).report,
    ) by {
        reveal(picture_shown);
    }
    assert forall|m: Metafile| skips_the_gaps(
        #[trigger] drawing_shown(f, data, doc, page, m, l, no, words).report,
        drawing_shown(g, data, doc, page, m, l, no, words).report,
    ) by {
        reveal(drawing_shown);
    }
    assert forall|overlaid: bool| skips_the_gaps(
        #[trigger] lost_shown(f, data, doc, page, overlaid, l, true, no, words).report,
        lost_shown(g, data, doc, page, overlaid, l, false, no, words).report,
    ) by {
        reveal(lost_shown);
    }
}

/// Leaving out what is lost changes nothing else: the sheets that are shown
/// and their characters stay, and as many are left out as there would be
/// notes.
pub proof fn law_skipping_sheets(
    f: FiguresModel,
    g: FiguresModel,
    data: Seq<u8>,
    doc: Document,
    selected: Seq<usize>,
    plans: Seq<SheetPlan>,
    layers: Seq<SheetLayers>,
    words: Wording,
    k: int,
)
    requires
        skips_the_gaps(f.report, g.report),
    ensures
        skips_the_gaps(
            sheets_shown(f, data, doc, selected, plans, layers, true, words, k).report,
            sheets_shown(g, data, doc, selected, plans, layers, false, words, k).report,
        ),
    decreases k,
{
    if k > 0 {
        law_skipping_sheets(f, g, data, doc, selected, plans, layers, words, k - 1);
        lemma_one_sheet_skipped(
            sheets_shown(f, data, doc, selected, plans, layers, true, words, k - 1),
            sheets_shown(g, data, doc, selected, plans, layers, false, words, k - 1),
            data,
            doc,
            selected[k - 1],
            plans,
            k - 1,
            layers[k - 1],
            words,
        );
    }
}

/// Leaving out displayed pages that are lost changes nothing else either.
pub proof fn law_skipping_displays<D: PageDecoder>(
    f: FiguresModel,
    g: FiguresModel,
    data: Seq<u8>,
    doc: Document,
    layers: Seq<DisplayLayers>,
    words: Wording,
    decoder: &D,
    k: int,
)
    requires
        skips_the_gaps(f.report, g.report),
    ensures
        skips_the_gaps(
            displays_shown(f, data, doc, layers, true, words, decoder, k).report,
            displays_shown(g, data, doc, layers, false, words, decoder, k).report,
        ),
    decreases k,
{
    if k > 0 {
        law_skipping_displays(f, g, data, doc, layers, words, decoder, k - 1);
    }
}

/// The finished reports tell the same: a page with nothing yet skips no gaps,
/// and what travels along is the same whether or not lost pages are left out.
pub proof fn law_skipping_keeps_files(
    skipping: Report,
    noting: Report,
    data: Seq<u8>,
    files: Seq<Attachment>,
    opts: Options,
)
    ensures
        skips_the_gaps(Report::zero(), Report::zero()),
        skips_the_gaps(skipping, noting) ==> skips_the_gaps(
            finished_report(skipping, data, files, Options { skip_missing: true, ..opts }),
            finished_report(noting, data, files, Options { skip_missing: false, ..opts }),
        ),
{
}

} // verus!
