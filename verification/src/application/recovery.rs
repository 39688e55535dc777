//! Recovery-oriented use cases.
use crate::application::ports::{same_drawing, PageDecoder};
use crate::domain::coverage::Coverage;
use crate::domain::document::{
    count, is_blank, is_sheet, lemma_count_bound, structural_coverage, DisplayModel, DisplayPage,
    Document, DocumentModel,
};
use crate::domain::page::{overlay_models, Overlay, OverlayModel, Page, PageData, PageModel};
use crate::domain::rendering::{Image, Metafile, MetafileModel, RasterOp, Source};
use crate::infrastructure::recovery::{or_default, paper_or_default, unless_empty, visible};
use crate::rounding::{
    above, coarse, nearest, round_coarse, round_quotient, round_whole, single, Binary, FINE, SINGLE,
};
use vstd::prelude::*;

verus! {

/// What a page draws by itself; a drawing of nothing is none.
pub open spec fn page_drawn<D: PageDecoder>(
    decoder: &D,
    data: Seq<u8>,
    page: PageModel,
) -> Option<MetafileModel> {
    visible(decoder.page_drawing(data, page))
}

/// What a page draws in its document; a drawing of nothing is none.
pub open spec fn page_drawn_in<D: PageDecoder>(
    decoder: &D,
    data: Seq<u8>,
    page: PageModel,
    document: DocumentModel,
) -> Option<MetafileModel> {
    visible(decoder.document_drawing(data, page, document))
}

/// Some overlay draws something.
pub open spec fn some_overlay_drawn<D: PageDecoder>(
    decoder: &D,
    overlays: Seq<OverlayModel>,
    paper: (u32, u32),
) -> bool {
    exists|k: int|
        0 <= k < overlays.len() && visible(
            decoder.overlay_drawing(#[trigger] overlays[k], paper),
        ) is Some
}

/// Page body or overlay can be recovered.
pub open spec fn recoverable_page<D: PageDecoder>(
    decoder: &D,
    data: Seq<u8>,
    page: PageModel,
    document: DocumentModel,
) -> bool {
    page.recoverable() || page_drawn_in(decoder, data, page, document) is Some
        || some_overlay_drawn(decoder, page.overlays, paper_or_default(page.paper))
}

/// Decodes one page through the supplied port. An empty drawing is a failed
/// recovery.
pub fn decode_page<D: PageDecoder>(data: &[u8], page: &Page, decoder: &D) -> (r: Option<Metafile>)
    ensures
        same_drawing(r, page_drawn(decoder, data@, page@)),
{
    let m = decoder.decode(data, page);
    unless_empty(m)
}

/// Decodes a page with the document context that page-sized previews need,
/// whose thumbnail holds the rest of the page.
pub fn decode_page_for_document<D: PageDecoder>(
    data: &[u8],
    page: &Page,
    document: &Document,
    decoder: &D,
) -> (r: Option<Metafile>)
    ensures
        same_drawing(r, page_drawn_in(decoder, data@, page@, document@)),
{
    let m = decoder.decode_with_document(data, page, document);
    unless_empty(m)
}

/// Decodes the drawing of an overlay; an empty one is none.
pub fn decode_overlay<D: PageDecoder>(decoder: &D, overlay: &Overlay, paper: (u32, u32)) -> (r:
    Option<Metafile>)
    ensures
        same_drawing(r, visible(decoder.overlay_drawing(overlay@, paper))),
{
    let m = decoder.decode_overlay(overlay, paper);
    unless_empty(m)
}

fn any_overlay_drawn<D: PageDecoder>(decoder: &D, overlays: &Vec<Overlay>, paper: (u32, u32)) -> (
    r: bool)
    ensures
        r == some_overlay_drawn(decoder, overlay_models(overlays@), paper),
{
    let ghost m = overlay_models(overlays@);
    let mut k: usize = 0;
    while k < overlays.len()
        invariant
            k <= overlays@.len(),
            m == overlay_models(overlays@),
            forall|j: int|
                0 <= j < k ==> visible(decoder.overlay_drawing(#[trigger] m[j], paper)) is None,
        decreases overlays@.len() - k,
    {
        if decode_overlay(decoder, &overlays[k], paper).is_some() {
            assert(visible(decoder.overlay_drawing(m[k as int], paper)) is Some);
            return true;
        }
        k += 1;
    }
    false
}

/// Whether the page body or a drawing laid over the page can be recovered with
/// the decoder. The form in the container alone would miss coded pages that
/// hold a metafile.
pub fn page_is_recoverable<D: PageDecoder>(
    data: &[u8],
    page: &Page,
    document: &Document,
    decoder: &D,
) -> (r: bool)
    ensures
        r == recoverable_page(decoder, data@, page@, document@),
{
    page.is_recoverable() || decode_page_for_document(data, page, document, decoder).is_some()
        || any_overlay_drawn(decoder, &page.overlays, or_default(page.paper))
}

/// The page only has overlays, and each of them is a drawing of nothing.
pub open spec fn explicitly_blank<D: PageDecoder>(decoder: &D, display: DisplayModel) -> bool {
    &&& display.members.len() == 0
    &&& display.overlays.len() > 0
    &&& forall|k: int|
        0 <= k < display.overlays.len() ==> (decoder.overlay_drawing(
            #[trigger] display.overlays[k],
            paper_or_default(display.paper),
        ) matches Some(p) && p.is_blank())
}

/// A body of the displayed page can be recovered.
pub open spec fn some_member_recoverable<D: PageDecoder>(
    decoder: &D,
    data: Seq<u8>,
    display: DisplayModel,
    document: DocumentModel,
) -> bool {
    exists|k: int|
        0 <= k < display.members.len() && (#[trigger] display.members[k]).page_index
            < document.pages.len() && recoverable_page(
            decoder,
            data,
            document.pages[display.members[k].page_index as int],
            document,
        )
}

/// A displayed page can be recovered: as its bodies, as overlays, or as a page
/// that is meant to be blank.
pub open spec fn recoverable_display<D: PageDecoder>(
    decoder: &D,
    data: Seq<u8>,
    display: DisplayModel,
    document: DocumentModel,
) -> bool {
    some_member_recoverable(decoder, data, display, document) || some_overlay_drawn(
        decoder,
        display.overlays,
        paper_or_default(display.paper),
    ) || explicitly_blank(decoder, display) || (display.members.len() == 0
        && display.overlays.len() == 0)
}

/// Whether a displayed page that only has overlays holds drawings that are
/// intentionally empty. Some drivers store a blank page as a full-page
/// metafile without anything to paint; it must not become a missing page.
pub fn display_page_is_explicit_blank<D: PageDecoder>(display: &DisplayPage, decoder: &D) -> (r:
    bool)
    ensures
        r == explicitly_blank(decoder, display@),
{
    if display.members.len() > 0 || display.overlays.len() == 0 {
        assert(display@.overlays.len() == display.overlays@.len());
        return false;
    }
    let paper = or_default(display.paper);
    let mut k: usize = 0;
    while k < display.overlays.len()
        invariant
            k <= display.overlays@.len(),
            paper == paper_or_default(display.paper),
            display@.overlays.len() == display.overlays@.len(),
            forall|j: int|
                0 <= j < k ==> (decoder.overlay_drawing(
                    #[trigger] display@.overlays[j],
                    paper,
                ) matches Some(p) && p.is_blank()),
        decreases display.overlays@.len() - k,
    {
        let empty: bool = match decoder.decode_overlay(&display.overlays[k], paper) {
            Some(m) => m.is_empty(),
            None => false,
        };
        if !empty {
            assert(!(decoder.overlay_drawing(display@.overlays[k as int], paper) matches Some(p)
                && p.is_blank()));
            return false;
        }
        k += 1;
    }
    true
}

fn any_member_recoverable<D: PageDecoder>(
    data: &[u8],
    display: &DisplayPage,
    document: &Document,
    decoder: &D,
) -> (r: bool)
    ensures
        r == some_member_recoverable(decoder, data@, display@, document@),
{
    let mut k: usize = 0;
    while k < display.members.len()
        invariant
            k <= display.members@.len(),
            document@.pages.len() == document.pages@.len(),
            forall|j: int|
                0 <= j < k ==> !((#[trigger] display@.members[j]).page_index
                    < document@.pages.len() && recoverable_page(
                    decoder,
                    data@,
                    document@.pages[display@.members[j].page_index as int],
                    document@,
                )),
        decreases display.members@.len() - k,
    {
        let i: usize = display.members[k].page_index;
        if i < document.pages.len() && page_is_recoverable(
            data,
            &document.pages[i],
            document,
            decoder,
        ) {
            assert(display@.members[k as int].page_index < document@.pages.len());
            return true;
        }
        k += 1;
    }
    false
}

/// Whether a displayed page can be recovered.
pub fn display_page_is_recoverable<D: PageDecoder>(
    data: &[u8],
    display: &DisplayPage,
    document: &Document,
    decoder: &D,
) -> (r: bool)
    ensures
        r == recoverable_display(decoder, data@, display@, document@),
{
    proof {
        assert(display@.overlays.len() == display.overlays@.len());
    }
    any_member_recoverable(data, display, document, decoder) || any_overlay_drawn(
        decoder,
        &display.overlays,
        or_default(display.paper),
    ) || display_page_is_explicit_blank(display, decoder) || (display.members.len() == 0
        && display.overlays.len() == 0)
}

// ------------------------------------------------- what an overlay replaces

/// Nine tenths of a length, without passing the largest value on the way.
pub open spec fn nine_tenths(v: u32) -> int {
    (if 9 * v > u32::MAX {
        u32::MAX as int
    } else {
        9 * v
    }) / 10
}

fn most_of(v: u32) -> (r: u32)
    ensures
        r == nine_tenths(v),
{
    if v > u32::MAX / 9 {
        u32::MAX / 10
    } else {
        9 * v / 10
    }
}

/// The box covers the paper but for narrow margins.
pub open spec fn covers_paper(area: (u32, u32, u32, u32), paper: (u32, u32)) -> bool {
    area.0 <= paper.0 / 20 && area.1 <= paper.1 / 20 && area.2 >= nine_tenths(paper.0) && area.3
        >= nine_tenths(paper.1)
}

/// Whether a box covers the paper but for narrow margins.
pub fn area_covers_paper(area: (u32, u32, u32, u32), paper: (u32, u32)) -> (r: bool)
    ensures
        r == covers_paper(area, paper),
{
    area.0 <= paper.0 / 20 && area.1 <= paper.1 / 20 && area.2 >= most_of(paper.0) && area.3
        >= most_of(paper.1)
}

/// A drawing of text alone.
pub open spec fn only_text(m: MetafileModel) -> bool {
    m.text.len() > 0 && m.images.len() == 0 && m.rasters.len() == 0 && m.fills.len() == 0
        && m.shapes.len() == 0 && m.paths.len() == 0
}

/// An overlay that covers the sheet and is text alone.
pub open spec fn is_text_layer<D: PageDecoder>(
    decoder: &D,
    o: OverlayModel,
    paper: (u32, u32),
) -> bool {
    (o.area matches Some(a) && covers_paper(a, paper)) && (decoder.overlay_drawing(
        o,
        paper,
    ) matches Some(m) && only_text(m))
}

/// A small preview and an overlay with the text of the whole sheet.
pub open spec fn preview_replaced<D: PageDecoder>(
    decoder: &D,
    page: PageModel,
    overlays: Seq<OverlayModel>,
    paper: (u32, u32),
) -> bool {
    page.data is Preview && !page.full_size_preview() && exists|k: int|
        0 <= k < overlays.len() && is_text_layer(decoder, #[trigger] overlays[k], paper)
}

/// Whether a small preview is only a thumbnail, because an overlay supplies the
/// text of the whole sheet. Keeping both would show the coarse glyphs of the
/// preview beside the clean ones.
pub fn preview_replaced_by_text_overlay<D: PageDecoder>(
    page: &Page,
    overlays: &[Overlay],
    paper: (u32, u32),
    decoder: &D,
) -> (r: bool)
    ensures
        r == preview_replaced(decoder, page@, overlay_models(overlays@), paper),
{
    let preview: bool = match page.data {
        PageData::Preview { .. } => true,
        _ => false,
    };
    if !preview || page.is_full_size_preview() {
        return false;
    }
    let ghost m = overlay_models(overlays@);
    let mut k: usize = 0;
    while k < overlays.len()
        invariant
            k <= overlays@.len(),
            m == overlay_models(overlays@),
            page@.data is Preview,
            !page@.full_size_preview(),
            forall|j: int| 0 <= j < k ==> !is_text_layer(decoder, #[trigger] m[j], paper),
        decreases overlays@.len() - k,
    {
        let covering: bool = match overlays[k].area {
            Some(a) => area_covers_paper(a, paper),
            None => false,
        };
        if covering {
            let text: bool = match decoder.decode_overlay(&overlays[k], paper) {
                Some(d) => d.text.len() > 0 && d.images.len() == 0 && d.rasters.len() == 0
                    && d.fills.len() == 0 && d.shapes.len() == 0 && d.paths.len() == 0,
                None => false,
            };
            if text {
                assert(is_text_layer(decoder, m[k as int], paper));
                return true;
            }
        }
        k += 1;
    }
    false
}

/// The size of a number without its sign.
pub open spec fn size_of(v: i32) -> int {
    crate::domain::rendering::magnitude(v)
}

/// A length of paper in points, in fine units, as single precision has it; at
/// least one point.
pub open spec fn points_of(paper: u32) -> int {
    let points = coarse(
        SINGLE as nat,
        (single(single(paper as int) * 72) * FINE) as nat,
        2540,
        1,
    );
    if points < FINE {
        FINE as int
    } else {
        points as int
    }
}

/// A bitmap of fewer than 72 pixels to the inch of paper, as single precision
/// tells it.
pub open spec fn is_coarse(pixels: u32, paper: u32) -> bool {
    above(
        nearest(SINGLE as nat, 72, 1),
        nearest(
            SINGLE as nat,
            (single(single(pixels as int) * 72) * FINE) as nat,
            points_of(paper) as nat,
        ),
    )
}

/// The drawing is one coarse bitmap, as it is, over the whole page.
pub open spec fn is_thumbnail_body(body: MetafileModel, paper: (u32, u32)) -> bool {
    &&& body.images.len() == 1
    &&& body.rasters.len() == 1
    &&& body.text.len() == 0
    &&& body.fills.len() == 0
    &&& body.shapes.len() == 0
    &&& body.paths.len() == 0
    &&& is_whole_page_image(body.images[0], body.device)
    &&& body.images[0].source == Source::Inline(0)
    &&& body.rasters[0].width > 0
    &&& body.rasters[0].height > 0
    &&& is_coarse(body.rasters[0].width, paper.0)
    &&& is_coarse(body.rasters[0].height, paper.1)
}

/// The picture is copied over the whole page, without a clip.
pub open spec fn is_whole_page_image(i: Image, device: (i32, i32)) -> bool {
    &&& i.raster_op == RasterOp::Copy
    &&& i.clip is None
    &&& i.clip_path is None
    &&& i.left.at_most(1)
    &&& i.left.at_least((-1) as i32)
    &&& i.top.at_most(1)
    &&& i.top.at_least((-1) as i32)
    &&& size_of(device.0) > 0
    &&& size_of(device.1) > 0
    &&& !i.right.short_of(size_of(device.0) as u32)
    &&& !i.bottom.short_of(size_of(device.1) as u32)
}

/// An overlay that covers the sheet and draws with lines and text alone.
pub open spec fn is_vector_layer<D: PageDecoder>(
    decoder: &D,
    o: OverlayModel,
    paper: (u32, u32),
) -> bool {
    (match o.area {
        Some(a) => covers_paper(a, paper),
        None => true,
    }) && (decoder.overlay_drawing(o, paper) matches Some(m) && m.images.len() == 0
        && m.rasters.len() == 0 && (m.text.len() > 0 || m.fills.len() > 0 || m.shapes.len() > 0))
}

/// A coarse bitmap and an overlay that draws the whole sheet.
pub open spec fn body_replaced<D: PageDecoder>(
    decoder: &D,
    body: MetafileModel,
    overlays: Seq<OverlayModel>,
    paper: (u32, u32),
) -> bool {
    is_thumbnail_body(body, paper) && exists|k: int|
        0 <= k < overlays.len() && is_vector_layer(decoder, #[trigger] overlays[k], paper)
}

fn points_on(paper: u32) -> (r: i128)
    ensures
        r == points_of(paper),
        FINE <= r <= 0x2_0000_0000_0000_0000_0000_0000,
{
    let length: i128 = round_whole(SINGLE, paper as i128);
    let dots: i128 = round_whole(SINGLE, length * 72);
    let points: i128 = round_coarse(SINGLE, (dots * FINE) as u128, 2540) as i128;
    if points < FINE {
        FINE
    } else {
        points
    }
}

fn coarse_bitmap(pixels: u32, paper: u32) -> (r: bool)
    ensures
        r == is_coarse(pixels, paper),
{
    let width: i128 = round_whole(SINGLE, pixels as i128);
    let dots: i128 = round_whole(SINGLE, width * 72);
    let dpi: Binary = round_quotient(SINGLE, (dots * FINE) as u128, points_on(paper) as u128);
    let limit: Binary = round_quotient(SINGLE, 72, 1);
    limit.is_above(&dpi)
}

fn whole_page_image(i: &Image, device: (i32, i32)) -> (r: bool)
    ensures
        r == is_whole_page_image(*i, device),
{
    let w: u32 = crate::domain::rendering::abs_i32(device.0);
    let h: u32 = crate::domain::rendering::abs_i32(device.1);
    i.raster_op == RasterOp::Copy && i.clip.is_none() && i.clip_path.is_none() && i.left.is_at_most(
        1,
    ) && i.left.is_at_least(-1) && i.top.is_at_most(1) && i.top.is_at_least(-1) && w > 0 && h > 0
        && !i.right.is_short_of(w) && !i.bottom.is_short_of(h)
}

fn thumbnail_body(body: &Metafile, paper: (u32, u32)) -> (r: bool)
    ensures
        r == is_thumbnail_body(body@, paper),
{
    if body.images.len() != 1 || body.rasters.len() != 1 || body.text.len() > 0 || body.fills.len()
        > 0 || body.shapes.len() > 0 || body.paths.len() > 0 {
        return false;
    }
    proof {
        assert(body@.rasters[0] == body.rasters@[0]@);
    }
    let first: bool = match body.images[0].source {
        Source::Inline(index) => index == 0,
        Source::Stored { .. } => false,
    };
    let raster = &body.rasters[0];
    first && whole_page_image(&body.images[0], body.device) && raster.width > 0 && raster.height
        > 0 && coarse_bitmap(raster.width, paper.0) && coarse_bitmap(raster.height, paper.1)
}

/// Whether a coarse bitmap that is the body of a page is redundant, because an
/// overlay draws the whole sheet sharply. Painting both would show the bitmap
/// as a blurred copy underneath. A bitmap of 72 pixels to the inch or more may
/// be meant, and is kept.
pub fn page_body_replaced_by_vector_overlay<D: PageDecoder>(
    body: &Metafile,
    overlays: &[Overlay],
    paper: (u32, u32),
    decoder: &D,
) -> (r: bool)
    ensures
        r == body_replaced(decoder, body@, overlay_models(overlays@), paper),
{
    if !thumbnail_body(body, paper) {
        return false;
    }
    let ghost m = overlay_models(overlays@);
    let mut k: usize = 0;
    while k < overlays.len()
        invariant
            k <= overlays@.len(),
            m == overlay_models(overlays@),
            is_thumbnail_body(body@, paper),
            forall|j: int| 0 <= j < k ==> !is_vector_layer(decoder, #[trigger] m[j], paper),
        decreases overlays@.len() - k,
    {
        let covering: bool = match overlays[k].area {
            Some(a) => area_covers_paper(a, paper),
            None => true,
        };
        if covering {
            let vector: bool = match decoder.decode_overlay(&overlays[k], paper) {
                Some(d) => d.images.len() == 0 && d.rasters.len() == 0 && (d.text.len() > 0
                    || d.fills.len() > 0 || d.shapes.len() > 0),
                None => false,
            };
            if vector {
                assert(is_vector_layer(decoder, m[k as int], paper));
                return true;
            }
        }
        k += 1;
    }
    false
}

// ------------------------------------------------------------ coverage

/// A sheet that is no image in a standard form but that the decoder can draw,
/// by its body or by an overlay.
pub open spec fn is_drawn_sheet<D: PageDecoder>(
    decoder: &D,
    data: Seq<u8>,
    document: DocumentModel,
    p: Page,
) -> bool {
    is_sheet(p) && !p@.recoverable() && (page_drawn_in(decoder, data, p@, document) is Some
        || some_overlay_drawn(decoder, p@.overlays, paper_or_default(p.paper)))
}

/// A sheet that comes out empty: neither it nor a picture on it can be
/// recovered.
pub open spec fn is_lost_sheet<D: PageDecoder>(
    decoder: &D,
    data: Seq<u8>,
    document: DocumentModel,
    pages: Seq<Page>,
    p: Page,
) -> bool {
    is_blank(pages, p) && !is_drawn_sheet(decoder, data, document, p)
}

/// What can be recovered of a document with a decoder.
pub open spec fn decoded_coverage<D: PageDecoder>(
    decoder: &D,
    data: Seq<u8>,
    document: Document,
) -> Coverage {
    let pages = document.pages@;
    let base = structural_coverage(pages);
    Coverage {
        sheets_recovered: (base.sheets_recovered + count(
            pages,
            |p: Page| is_drawn_sheet(decoder, data, document@, p),
        )) as usize,
        sheets_blank: count(
            pages,
            |p: Page| is_lost_sheet(decoder, data, document@, pages, p),
        ) as usize,
        ..base
    }
}

/// Recovered and drawn sheets are different sheets.
pub proof fn lemma_recovered_and_drawn<D: PageDecoder>(
    decoder: &D,
    data: Seq<u8>,
    document: DocumentModel,
    pages: Seq<Page>,
)
    ensures
        count(pages, |p: Page| is_sheet(p) && p@.recoverable()) + count(
            pages,
            |p: Page| is_drawn_sheet(decoder, data, document, p),
        ) <= count(pages, |p: Page| is_sheet(p)),
        count(pages, |p: Page| is_sheet(p)) <= pages.len(),
    decreases pages.len(),
{
    if pages.len() > 0 {
        lemma_recovered_and_drawn(decoder, data, document, pages.drop_last());
    }
}

/// With any decoder, the sheets that are recovered and those that are lost are
/// different sheets of the document, and what the structure alone recovers is
/// recovered.
pub proof fn law_decoded_coverage<D: PageDecoder>(decoder: &D, data: Seq<u8>, document: Document)
    requires
        document.pages@.len() <= usize::MAX,
    ensures
        ({
            let c = decoded_coverage(decoder, data, document);
            let s = structural_coverage(document.pages@);
            &&& c.sheets_recovered + c.sheets_blank <= c.sheets
            &&& s.sheets_recovered <= c.sheets_recovered
            &&& c.sheets_blank <= s.sheets_blank
            &&& c.sheets == s.sheets
        }),
{
    let pages = document.pages@;
    lemma_recovered_and_drawn(decoder, data, document@, pages);
    lemma_lost(decoder, data, document@, pages, pages);
    lemma_count_bound(pages, |p: Page| is_sheet(p));
    lemma_count_bound(pages, |p: Page| is_sheet(p) && p@.recoverable());
    lemma_count_bound(pages, |p: Page| is_blank(pages, p));
    lemma_count_bound(pages, |p: Page| is_lost_sheet(decoder, data, document@, pages, p));
}

proof fn lemma_lost<D: PageDecoder>(
    decoder: &D,
    data: Seq<u8>,
    document: DocumentModel,
    all: Seq<Page>,
    pages: Seq<Page>,
)
    ensures
        count(pages, |p: Page| is_lost_sheet(decoder, data, document, all, p)) <= count(
            pages,
            |p: Page| is_blank(all, p),
        ),
        count(pages, |p: Page| is_sheet(p) && p@.recoverable()) + count(
            pages,
            |p: Page| is_drawn_sheet(decoder, data, document, p),
        ) + count(pages, |p: Page| is_lost_sheet(decoder, data, document, all, p)) <= count(
            pages,
            |p: Page| is_sheet(p),
        ),
    decreases pages.len(),
{
    if pages.len() > 0 {
        lemma_lost(decoder, data, document, all, pages.drop_last());
    }
}

/// What can be recovered, from the structure of the document and with the
/// decoder for pages in a coded form.
pub fn coverage<D: PageDecoder>(data: &[u8], document: &Document, decoder: &D) -> (c: Coverage)
    ensures
        c == decoded_coverage(decoder, data@, *document),
{
    let base = document.coverage();
    let ghost pages = document.pages@;
    let mut drawn: usize = 0;
    let mut blank: usize = 0;
    let mut i: usize = 0;
    while i < document.pages.len()
        invariant
            i <= document.pages@.len(),
            pages == document.pages@,
            drawn <= i,
            blank <= i,
            drawn == count(
                pages.take(i as int),
                |p: Page| is_drawn_sheet(decoder, data@, document@, p),
            ),
            blank == count(
                pages.take(i as int),
                |p: Page| is_lost_sheet(decoder, data@, document@, pages, p),
            ),
        decreases document.pages@.len() - i,
    {
        proof {
            assert(pages.take(i + 1).drop_last() =~= pages.take(i as int));
        }
        let page = &document.pages[i];
        if page.is_sheet() && !page.is_recoverable() {
            if decode_page_for_document(data, page, document, decoder).is_some()
                || any_overlay_drawn(decoder, &page.overlays, or_default(page.paper)) {
                drawn += 1;
            } else {
                if !document.has_recoverable_picture(page.index) {
                    blank += 1;
                }
            }
        }
        i += 1;
    }
    proof {
        assert(pages.take(i as int) =~= pages);
        lemma_recovered_and_drawn(decoder, data@, document@, pages);
        lemma_count_bound(pages, |p: Page| is_sheet(p) && p@.recoverable());
    }
    Coverage {
        sheets: base.sheets,
        sheets_recovered: base.sheets_recovered + drawn,
        pictures: base.pictures,
        pictures_recovered: base.pictures_recovered,
        thumbnails: base.thumbnails,
        data_tables: base.data_tables,
        sheets_with_pictures: base.sheets_with_pictures,
        sheets_blank: blank,
    }
}

/// Gives whatever writes a document the same recovery decisions and the same
/// drawings.
#[derive(Debug)]
pub struct RecoveryView<'a, D: PageDecoder> {
    pub data: &'a [u8],
    pub document: &'a Document,
    pub decoder: &'a D,
}

impl<'a, D: PageDecoder> RecoveryView<'a, D> {
    pub fn new(data: &'a [u8], document: &'a Document, decoder: &'a D) -> (v: Self)
        ensures
            v.data == data,
            v.document == document,
            v.decoder == decoder,
    {
        RecoveryView { data, document, decoder }
    }

    pub fn document(&self) -> (d: &Document)
        ensures
            d == self.document,
    {
        self.document
    }

    pub fn decode(&self, page: &Page) -> (r: Option<Metafile>)
        ensures
            same_drawing(r, page_drawn_in(self.decoder, self.data@, page@, self.document@)),
    {
        decode_page_for_document(self.data, page, self.document, self.decoder)
    }

    pub fn coverage(&self) -> (c: Coverage)
        ensures
            c == decoded_coverage(self.decoder, self.data@, *self.document),
    {
        coverage(self.data, self.document, self.decoder)
    }
}

} // verus!
