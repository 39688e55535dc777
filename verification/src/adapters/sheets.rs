//! Which sheets a conversion shows, and what is drawn on each of them.
//!
//! One output page per sheet. The container's entry table also holds
//! thumbnails and the pictures a sheet is made of; putting those on sheets of
//! their own would make the page numbering meaningless.
use crate::adapters::pdf::words::is_word_char;
use crate::application::ports::PageDecoder;
use crate::application::recovery::{
    area_covers_paper, body_replaced, covers_paper, decode_page_for_document,
    page_body_replaced_by_vector_overlay, page_drawn_in, preview_replaced,
    preview_replaced_by_text_overlay,
};
use crate::domain::document::{
    display_models, is_picture_on, DisplayModel, DisplayPage, Document, DocumentModel,
};
use crate::domain::page::{
    overlay_models, page_models, Overlay, OverlayModel, Page, PageData, PageModel, Role,
};
use crate::domain::rendering::{abs_i32, magnitude, Metafile, MetafileModel, Source};
use crate::infrastructure::recovery::{or_default, paper_or_default};
use vstd::prelude::*;

verus! {

// ---------------------------------------------------------- selection

/// An entry that is shown by itself: a sheet, or a preview where those are
/// asked for.
pub open spec fn is_listed(p: PageModel, previews: bool) -> bool {
    p.role == Role::Sheet || (previews && p.role == Role::Thumbnail)
}

/// The entries that are shown by themselves, among the first `n`.
pub open spec fn listed(pages: Seq<PageModel>, previews: bool, n: int) -> Seq<usize>
    decreases n,
{
    if n <= 0 {
        Seq::empty()
    } else if is_listed(pages[n - 1], previews) {
        listed(pages, previews, n - 1).push((n - 1) as usize)
    } else {
        listed(pages, previews, n - 1)
    }
}

/// The first body of each of the first `n` displayed pages, where it has one.
pub open spec fn first_bodies(display: Seq<DisplayModel>, pages: nat, n: int) -> Seq<usize>
    decreases n,
{
    if n <= 0 {
        Seq::empty()
    } else {
        let members = display[n - 1].members;
        if members.len() > 0 && members[0].page_index < pages {
            first_bodies(display, pages, n - 1).push(members[0].page_index)
        } else {
            first_bodies(display, pages, n - 1)
        }
    }
}

/// The entries that a conversion shows: of each displayed page the first body,
/// or the sheets where nothing says how they are displayed.
pub open spec fn selection(doc: DocumentModel, previews: bool) -> Seq<usize> {
    if doc.display_pages.len() > 0 {
        first_bodies(doc.display_pages, doc.pages.len(), doc.display_pages.len() as int)
    } else {
        listed(doc.pages, previews, doc.pages.len() as int)
    }
}

/// The entries that a conversion shows, as places in the page table.
pub fn selected_pages(doc: &Document, previews: bool) -> (r: Vec<usize>)
    ensures
        r@ == selection(doc@, previews),
        forall|k: int| 0 <= k < r@.len() ==> #[trigger] r@[k] < doc.pages@.len(),
{
    let mut r: Vec<usize> = Vec::new();
    let mut i: usize = 0;
    if doc.display_pages.len() > 0 {
        while i < doc.display_pages.len()
            invariant
                i <= doc.display_pages@.len(),
                doc@.display_pages == display_models(doc.display_pages@),
                doc@.pages.len() == doc.pages@.len(),
                r@ == first_bodies(doc@.display_pages, doc@.pages.len(), i as int),
                forall|k: int| 0 <= k < r@.len() ==> #[trigger] r@[k] < doc.pages@.len(),
            decreases doc.display_pages@.len() - i,
        {
            let d = &doc.display_pages[i];
            proof {
                assert(doc@.display_pages[i as int] == d@);
            }
            if d.members.len() > 0 && d.members[0].page_index < doc.pages.len() {
                r.push(d.members[0].page_index);
            }
            i += 1;
        }
    } else {
        while i < doc.pages.len()
            invariant
                i <= doc.pages@.len(),
                doc@.pages == page_models(doc.pages@),
                r@ == listed(doc@.pages, previews, i as int),
                forall|k: int| 0 <= k < r@.len() ==> #[trigger] r@[k] < doc.pages@.len(),
            decreases doc.pages@.len() - i,
        {
            proof {
                assert(doc@.pages[i as int] == doc.pages@[i as int]@);
            }
            if doc.pages[i].is_sheet() || (previews && doc.pages[i].is_preview()) {
                r.push(i);
            }
            i += 1;
        }
    }
    r
}

// ------------------------------------------------------------- labels

/// A sheet of the size of a label.
pub open spec fn label_sized(paper: Option<(u32, u32)>) -> bool {
    paper matches Some(p) && 300 <= p.0 <= 3000 && 300 <= p.1 <= 3000
}

/// Whether a sheet is small enough to plausibly be a text label attached to a
/// preceding image page. Only the page's declared geometry decides; not a
/// document name, nor the text that the page carries.
pub fn is_text_only_label(page: &Page) -> (r: bool)
    ensures
        r == label_sized(page.paper),
{
    match page.paper {
        Some((w, h)) => 300 <= w && w <= 3000 && 300 <= h && h <= 3000,
        None => false,
    }
}

/// A character of a serial number.
pub open spec fn serial_char(c: char) -> bool {
    crate::adapters::pdf::words::ascii_word_char(c) || c == '-' || c == '_' || c == '/' || c == '.'
        || c == ':' || c == ' '
}

/// One short run of serial-number characters and nothing else.
pub open spec fn is_serial_label(m: MetafileModel) -> bool {
    &&& m.text.len() == 1
    &&& 0 < m.text[0].chars.len() <= 64
    &&& m.images.len() == 0
    &&& m.rasters.len() == 0
    &&& m.fills.len() == 0
    &&& m.shapes.len() == 0
    &&& forall|i: int| 0 <= i < m.text[0].chars.len() ==> serial_char(#[trigger] m.text[0].chars[i])
}

/// A serial label has only one short, printable ASCII text layer. Requiring no
/// other drawing primitives keeps ordinary small forms from being merged
/// accidentally with a preceding picture.
pub fn serial_label(meta: &Metafile) -> (r: bool)
    ensures
        r == is_serial_label(meta@),
{
    if meta.text.len() != 1 || meta.images.len() != 0 || meta.rasters.len() != 0
        || meta.fills.len() != 0 || meta.shapes.len() != 0 {
        return false;
    }
    let chars = &meta.text[0].chars;
    proof {
        assert(meta@.text[0] == meta.text@[0]@);
        assert(meta@.text[0].chars == chars@);
    }
    if chars.len() == 0 || chars.len() > 64 {
        return false;
    }
    let mut i: usize = 0;
    while i < chars.len()
        invariant
            i <= chars@.len(),
            meta@.text[0].chars == chars@,
            forall|k: int| 0 <= k < i ==> serial_char(#[trigger] meta@.text[0].chars[k]),
        decreases chars@.len() - i,
    {
        let c: char = chars[i];
        if !(is_word_char(c) || c == '-' || c == '_' || c == '/' || c == '.' || c == ':' || c
            == ' ') {
            assert(!serial_char(meta@.text[0].chars[i as int]));
            return false;
        }
        i += 1;
    }
    true
}

/// The drawing of the `i`-th selected sheet, where it is a label of the picture
/// before it.
pub open spec fn label_at<D: PageDecoder>(
    decoder: &D,
    data: Seq<u8>,
    doc: DocumentModel,
    selected: Seq<usize>,
    decode: bool,
    i: int,
) -> Option<MetafileModel> {
    if !decode || doc.display_pages.len() > 0 || i <= 0 || i >= selected.len() {
        None
    } else {
        let label = doc.pages[selected[i] as int];
        if doc.pages[selected[i - 1] as int].data is Jpeg && label.role == Role::Sheet
            && label_sized(label.paper) {
            match page_drawn_in(decoder, data, label, doc) {
                Some(m) => if is_serial_label(m) {
                    Some(m)
                } else {
                    None
                },
                None => None,
            }
        } else {
            None
        }
    }
}

fn is_jpeg(p: &Page) -> (r: bool)
    ensures
        r == (p.data is Jpeg),
{
    match p.data {
        PageData::Jpeg { .. } => true,
        _ => false,
    }
}

fn label_of<D: PageDecoder>(
    data: &[u8],
    doc: &Document,
    selected: &Vec<usize>,
    decode: bool,
    decoder: &D,
    i: usize,
) -> (r: Option<Metafile>)
    requires
        forall|k: int| 0 <= k < selected@.len() ==> #[trigger] selected@[k] < doc.pages@.len(),
        i < selected@.len(),
    ensures
        crate::application::ports::same_drawing(
            r,
            label_at(decoder, data@, doc@, selected@, decode, i as int),
        ),
{
    if !decode || doc.display_pages.len() > 0 || i == 0 {
        return None;
    }
    let previous: usize = selected[i - 1];
    let own: usize = selected[i];
    let label: &Page = &doc.pages[own];
    proof {
        assert(doc@.pages[previous as int] == doc.pages@[previous as int]@);
        assert(doc@.pages[own as int] == label@);
    }
    if !is_jpeg(&doc.pages[previous]) || !label.is_sheet() || !is_text_only_label(label) {
        return None;
    }
    match decode_page_for_document(data, label, doc, decoder) {
        Some(m) => if serial_label(&m) {
            Some(m)
        } else {
            None
        },
        None => None,
    }
}

/// The same drawings, sheet by sheet.
pub open spec fn same_labels<D: PageDecoder>(
    decoder: &D,
    data: Seq<u8>,
    doc: DocumentModel,
    selected: Seq<usize>,
    decode: bool,
    labels: Seq<Option<Metafile>>,
) -> bool {
    labels.len() == selected.len() && forall|i: int|
        0 <= i < labels.len() ==> crate::application::ports::same_drawing(
            #[trigger] labels[i],
            label_at(decoder, data, doc, selected, decode, i),
        )
}

/// The sheets that are labels of the picture before them, with their
/// drawings. Some saved-over documents keep a small, text-only serial-number
/// sheet immediately after the picture that it annotates. It is a drawing
/// layer, not a second page: it is painted onto that picture and left out of
/// the page sequence.
pub fn merged_labels<D: PageDecoder>(
    data: &[u8],
    doc: &Document,
    selected: &Vec<usize>,
    decode: bool,
    decoder: &D,
) -> (labels: Vec<Option<Metafile>>)
    requires
        forall|k: int| 0 <= k < selected@.len() ==> #[trigger] selected@[k] < doc.pages@.len(),
    ensures
        same_labels(decoder, data@, doc@, selected@, decode, labels@),
{
    let mut labels: Vec<Option<Metafile>> = Vec::new();
    let mut i: usize = 0;
    while i < selected.len()
        invariant
            i <= selected@.len(),
            labels@.len() == i,
            forall|k: int| 0 <= k < selected@.len() ==> #[trigger] selected@[k] < doc.pages@.len(),
            forall|k: int|
                0 <= k < i ==> crate::application::ports::same_drawing(
                    #[trigger] labels@[k],
                    label_at(decoder, data@, doc@, selected@, decode, k),
                ),
        decreases selected@.len() - i,
    {
        labels.push(label_of(data, doc, selected, decode, decoder, i));
        i += 1;
    }
    labels
}

// ----------------------------------------------------------- pictures

/// The drawing calls for a picture stored beside its sheet.
pub open spec fn calls_stored(m: MetafileModel) -> bool {
    exists|i: int| 0 <= i < m.images.len() && (#[trigger] m.images[i]).source is Stored
}

/// Whether the drawing calls for a picture stored beside its sheet.
pub fn uses_stored(meta: &Metafile) -> (r: bool)
    ensures
        r == calls_stored(meta@),
{
    let mut i: usize = 0;
    while i < meta.images.len()
        invariant
            i <= meta.images@.len(),
            forall|k: int| 0 <= k < i ==> !((#[trigger] meta@.images[k]).source is Stored),
        decreases meta.images@.len() - i,
    {
        match meta.images[i].source {
            Source::Stored { .. } => {
                assert(meta@.images[i as int].source is Stored);
                return true;
            },
            Source::Inline(_) => {},
        }
        i += 1;
    }
    false
}

/// Some overlay composes the sheet from the pictures stored beside it.
pub open spec fn composed_by_overlay<D: PageDecoder>(
    decoder: &D,
    overlays: Seq<OverlayModel>,
    paper: (u32, u32),
) -> bool {
    exists|k: int|
        0 <= k < overlays.len() && (decoder.overlay_drawing(#[trigger] overlays[k], paper) matches
            Some(m) && calls_stored(m))
}

/// Whether some overlay composes the sheet from the pictures stored beside it.
/// The picture below it is then not drawn as a full-sheet background too: that
/// would show as bands outside the overlay's bounds.
pub fn overlay_uses_stored<D: PageDecoder>(overlays: &Vec<Overlay>, paper: (u32, u32), decoder: &D) -> (r:
    bool)
    ensures
        r == composed_by_overlay(decoder, overlay_models(overlays@), paper),
{
    let ghost m = overlay_models(overlays@);
    let mut k: usize = 0;
    while k < overlays.len()
        invariant
            k <= overlays@.len(),
            m == overlay_models(overlays@),
            forall|j: int|
                0 <= j < k ==> !(decoder.overlay_drawing(#[trigger] m[j], paper) matches Some(d)
                    && calls_stored(d)),
        decreases overlays@.len() - k,
    {
        if let Some(d) = decoder.decode_overlay(&overlays[k], paper) {
            if uses_stored(&d) {
                assert(decoder.overlay_drawing(m[k as int], paper) matches Some(d) && calls_stored(
                    d,
                ));
                return true;
            }
        }
        k += 1;
    }
    false
}

/// The pages with `p` behind the last one whose entry number is not above its
/// own.
pub open spec fn placed_by_index(v: Seq<Page>, p: Page) -> Seq<Page>
    decreases v.len(),
{
    if v.len() == 0 || v.last().index <= p.index {
        v.push(p)
    } else {
        placed_by_index(v.drop_last(), p).push(v.last())
    }
}

/// The pages in the order of their entry numbers; those with one number stay
/// in their order.
pub open spec fn by_index(v: Seq<Page>) -> Seq<Page>
    decreases v.len(),
{
    if v.len() == 0 {
        Seq::empty()
    } else {
        placed_by_index(by_index(v.drop_last()), v.last())
    }
}

/// The pictures that a drawing laid over a page can call for: every picture of
/// the page in storage order, the page's own among them when the page is
/// itself a picture.
pub open spec fn picture_group(pages: Seq<Page>, own: Page) -> Seq<Page> {
    let stored = pages.filter(|p: Page| is_picture_on(p, own.index));
    if own@.recoverable() {
        by_index(stored.push(own))
    } else {
        stored
    }
}

fn place_by_index<'a>(v: &mut Vec<&'a Page>, p: &'a Page)
    ensures
        final(v)@.unref() == placed_by_index(old(v)@.unref(), *p),
{
    let ghost all = v@.unref();
    let mut n: usize = v.len();
    proof {
        assert(all.take(n as int) =~= all);
        assert(placed_by_index(all, *p) =~= placed_by_index(all.take(n as int), *p) + all.skip(
            n as int,
        ));
    }
    while n > 0 && v[n - 1].index > p.index
        invariant
            n <= v@.len(),
            v@.unref() == all,
            placed_by_index(all, *p) == placed_by_index(all.take(n as int), *p) + all.skip(
                n as int,
            ),
        decreases n,
    {
        proof {
            let t = all.take(n as int);
            assert(all[n - 1] == *v@[n - 1]);
            assert(t.drop_last() =~= all.take(n - 1));
            assert(all.skip(n - 1) =~= seq![all[n - 1]] + all.skip(n as int));
            assert(placed_by_index(all, *p) =~= placed_by_index(all.take(n - 1), *p) + all.skip(
                n - 1,
            ));
        }
        n -= 1;
    }
    proof {
        if n > 0 {
            assert(all[n - 1] == *v@[n - 1]);
            assert(all.take(n as int).last() == all[n - 1]);
        }
        assert(placed_by_index(all.take(n as int), *p) == all.take(n as int).push(*p));
    }
    v.insert(n, p);
    proof {
        assert(v@.unref() =~= placed_by_index(all, *p));
    }
}

/// The pictures that a drawing laid over `own` can call for.
pub fn group_of<'a>(doc: &'a Document, own: &'a Page) -> (r: Vec<&'a Page>)
    ensures
        r@.unref() == picture_group(doc.pages@, *own),
{
    let mut stored = doc.pictures_on(own.index);
    if !own.is_recoverable() {
        return stored;
    }
    let ghost before = stored@.unref();
    stored.push(own);
    let ghost all = stored@.unref();
    proof {
        assert(all =~= before.push(*own));
    }
    let mut r: Vec<&'a Page> = Vec::new();
    let mut i: usize = 0;
    proof {
        assert(r@.unref() =~= by_index(all.take(0)));
    }
    while i < stored.len()
        invariant
            i <= stored@.len(),
            all == stored@.unref(),
            r@.unref() == by_index(all.take(i as int)),
        decreases stored@.len() - i,
    {
        proof {
            assert(all.take(i + 1).drop_last() =~= all.take(i as int));
            assert(all.take(i + 1).last() == *stored@[i as int]);
        }
        place_by_index(&mut r, stored[i]);
        i += 1;
    }
    proof {
        assert(all.take(i as int) =~= all);
    }
    r
}

// --------------------------------------------------------- placements

/// Twenty times `x` is at most `f`, and ten times `w` at least nine times it.
pub open spec fn spans(x: u32, w: u32, f: int) -> bool {
    20 * x <= f && 10 * w >= 9 * f
}

/// The box covers a frame, but for narrow margins.
pub open spec fn is_frame_covered(area: Option<(u32, u32, u32, u32)>, frame: (i32, i32)) -> bool {
    match area {
        Some(a) => magnitude(frame.0) > 0 && magnitude(frame.1) > 0 && spans(
            a.0,
            a.2,
            magnitude(frame.0),
        ) && spans(a.1, a.3, magnitude(frame.1)),
        None => false,
    }
}

/// Whether a box covers a frame, but for narrow margins. A full-sheet text
/// overlay is already expressed in page coordinates; fitting its occupied text
/// box would enlarge the layer past the page.
pub fn covers_frame(area: Option<(u32, u32, u32, u32)>, frame: (i32, i32)) -> (r: bool)
    ensures
        r == is_frame_covered(area, frame),
{
    let (x, y, w, h): (u32, u32, u32, u32) = match area {
        Some(a) => a,
        None => {
            return false;
        },
    };
    let fw: u64 = abs_i32(frame.0) as u64;
    let fh: u64 = abs_i32(frame.1) as u64;
    fw > 0 && fh > 0 && 20 * x as u64 <= fw && 20 * y as u64 <= fh && 10 * w as u64 >= 9 * fw && 10
        * h as u64 >= 9 * fh
}

/// A drawing of text without artwork.
pub open spec fn is_bare_text(m: MetafileModel) -> bool {
    m.text.len() > 0 && m.images.len() == 0 && m.rasters.len() == 0 && m.fills.len() == 0
        && m.shapes.len() == 0
}

fn bare_text(meta: &Metafile) -> (r: bool)
    ensures
        r == is_bare_text(meta@),
{
    meta.text.len() > 0 && meta.images.len() == 0 && meta.rasters.len() == 0 && meta.fills.len()
        == 0 && meta.shapes.len() == 0
}

/// The output formats differ in a few decisions.
#[derive(Debug, Clone, Copy, PartialEq, Eq, Structural)]
pub enum Format {
    Pdf,
    Html,
}

/// The overlay's box is where its text hangs, not what its frame is scaled
/// to.
pub open spec fn is_anchored_text(format: Format, o: OverlayModel, m: MetafileModel) -> bool {
    o.area is Some && is_bare_text(m) && (format == Format::Pdf ==> !is_frame_covered(
        o.area,
        m.frame_mm100,
    ))
}

/// Whether an overlay's box is where its text hangs, not what its frame is
/// scaled to. A drawing of text alone is safe to identify this way; one with
/// artwork must go on scaling to its box.
pub fn is_point_sized_text(format: Format, overlay: &Overlay, meta: &Metafile) -> (r: bool)
    ensures
        r == is_anchored_text(format, overlay@, meta@),
{
    overlay.area.is_some() && bare_text(meta) && (format == Format::Html || !covers_frame(
        overlay.area,
        meta.frame_mm100,
    ))
}

/// The quarter turn that a drawing still needs: none where its own frame
/// already lies as the target does.
pub open spec fn turn_needed(frame: (i32, i32), target_is_wide: bool, rotation: u16) -> u16 {
    let r = rotation % 360;
    if r % 180 != 90 || frame.0 <= 0 || frame.1 <= 0 || (frame.0 > frame.1) == target_is_wide {
        0
    } else {
        r
    }
}

/// The quarter turn that a drawing still needs. Some writers store the frame
/// after the turn, while their properties still retain the rotation.
pub fn component_rotation(frame: (i32, i32), target_is_wide: bool, rotation: u16) -> (r: u16)
    ensures
        r == turn_needed(frame, target_is_wide, rotation),
{
    let r: u16 = rotation % 360;
    if r % 180 != 90 || frame.0 <= 0 || frame.1 <= 0 || (frame.0 > frame.1) == target_is_wide {
        0
    } else {
        r
    }
}

// ------------------------------------------------------------- layers

/// A drawing laid over a sheet, and how it is placed.
#[derive(Debug, PartialEq, Eq)]
pub struct OverlayLayer {
    /// Which of the overlays it is.
    pub number: usize,
    pub drawing: Metafile,
    /// Where it sits; the whole sheet where there is no box.
    pub area: Option<(u32, u32, u32, u32)>,
    /// Its box is where its text hangs, not what its frame is scaled to.
    pub anchored: bool,
    /// It can call for the pictures stored beside the sheet.
    pub calls_pictures: bool,
}

/// A drawing laid over a sheet as a value.
pub struct OverlayLayerModel {
    pub number: usize,
    pub drawing: MetafileModel,
    pub area: Option<(u32, u32, u32, u32)>,
    pub anchored: bool,
    pub calls_pictures: bool,
}

impl View for OverlayLayer {
    type V = OverlayLayerModel;

    open spec fn view(&self) -> OverlayLayerModel {
        OverlayLayerModel {
            number: self.number,
            drawing: self.drawing@,
            area: self.area,
            anchored: self.anchored,
            calls_pictures: self.calls_pictures,
        }
    }
}

/// The layers as values.
pub open spec fn overlay_layer_models(v: Seq<OverlayLayer>) -> Seq<OverlayLayerModel> {
    Seq::new(v.len(), |i: int| v[i]@)
}

/// The pictures of the page table that an overlay can call for.
pub open spec fn callable(layer: OverlayLayer, group: Seq<Page>) -> Seq<Page> {
    if layer.calls_pictures {
        group
    } else {
        Seq::empty()
    }
}

/// How an overlay with a drawing is laid over its sheet. In a PDF a box that
/// covers the paper counts as the whole sheet.
pub open spec fn overlay_layer(
    format: Format,
    number: int,
    o: OverlayModel,
    m: MetafileModel,
    paper: (u32, u32),
) -> OverlayLayerModel {
    OverlayLayerModel {
        number: number as usize,
        drawing: m,
        area: match o.area {
            Some(a) => if format == Format::Pdf && covers_paper(a, paper) {
                None
            } else {
                Some(a)
            },
            None => None,
        },
        anchored: is_anchored_text(format, o, m),
        calls_pictures: o.area is None || calls_stored(m),
    }
}

/// What the first `n` overlays lay over the sheet.
pub open spec fn overlays_laid<D: PageDecoder>(
    format: Format,
    decoder: &D,
    overlays: Seq<OverlayModel>,
    paper: (u32, u32),
    n: int,
) -> Seq<OverlayLayerModel>
    decreases n,
{
    if n <= 0 {
        Seq::empty()
    } else {
        let before = overlays_laid(format, decoder, overlays, paper, n - 1);
        match decoder.overlay_drawing(overlays[n - 1], paper) {
            Some(m) => before.push(overlay_layer(format, n - 1, overlays[n - 1], m, paper)),
            None => before,
        }
    }
}

/// What the overlays lay over the sheet, in their order. An overlay whose
/// drawing cannot be recovered is left out.
pub fn overlay_layers<D: PageDecoder>(
    format: Format,
    overlays: &Vec<Overlay>,
    paper: (u32, u32),
    decoder: &D,
) -> (r: Vec<OverlayLayer>)
    ensures
        overlay_layer_models(r@) == overlays_laid(
            format,
            decoder,
            overlay_models(overlays@),
            paper,
            overlays@.len() as int,
        ),
{
    let ghost models = overlay_models(overlays@);
    let mut r: Vec<OverlayLayer> = Vec::new();
    let mut k: usize = 0;
    proof {
        assert(overlay_layer_models(r@) =~= overlays_laid(format, decoder, models, paper, 0));
    }
    while k < overlays.len()
        invariant
            k <= overlays@.len(),
            models == overlay_models(overlays@),
            overlay_layer_models(r@) == overlays_laid(format, decoder, models, paper, k as int),
        decreases overlays@.len() - k,
    {
        let o: &Overlay = &overlays[k];
        let ghost before = overlay_layer_models(r@);
        proof {
            assert(models[k as int] == o@);
        }
        if let Some(drawing) = decoder.decode_overlay(o, paper) {
            let anchored: bool = is_point_sized_text(format, o, &drawing);
            let calls_pictures: bool = o.area.is_none() || uses_stored(&drawing);
            let area: Option<(u32, u32, u32, u32)> = match o.area {
                Some(a) => if format == Format::Pdf && area_covers_paper(a, paper) {
                    None
                } else {
                    Some(a)
                },
                None => None,
            };
            let layer = OverlayLayer { number: k, drawing, area, anchored, calls_pictures };
            let ghost m = layer@;
            r.push(layer);
            proof {
                assert(overlay_layer_models(r@) =~= before.push(m));
            }
        }
        k += 1;
    }
    r
}

/// What a body puts on its displayed page.
#[derive(Debug, PartialEq, Eq)]
pub enum Body {
    /// The picture that the page holds.
    Picture,
    /// The drawing that the page was decoded into.
    Drawing(Metafile),
}

/// What a body puts on its displayed page, as a value.
pub enum BodyModel {
    Picture,
    Drawing(MetafileModel),
}

/// A body of a displayed page that is drawn.
#[derive(Debug, PartialEq, Eq)]
pub struct MemberLayer {
    /// Which of the members it is.
    pub number: usize,
    /// Its place in the page table.
    pub page_index: usize,
    /// Where it sits; the whole sheet where there is no box.
    pub area: Option<(u32, u32, u32, u32)>,
    pub body: Body,
}

/// A body of a displayed page as a value.
pub struct MemberLayerModel {
    pub number: usize,
    pub page_index: usize,
    pub area: Option<(u32, u32, u32, u32)>,
    pub body: BodyModel,
}

impl View for MemberLayer {
    type V = MemberLayerModel;

    open spec fn view(&self) -> MemberLayerModel {
        MemberLayerModel {
            number: self.number,
            page_index: self.page_index,
            area: self.area,
            body: match self.body {
                Body::Picture => BodyModel::Picture,
                Body::Drawing(m) => BodyModel::Drawing(m@),
            },
        }
    }
}

/// The layers as values.
pub open spec fn member_layer_models(v: Seq<MemberLayer>) -> Seq<MemberLayerModel> {
    Seq::new(v.len(), |i: int| v[i]@)
}

/// The page has a body in the container's own coding, which is redrawn.
pub open spec fn is_redrawn(d: PageData) -> bool {
    d is Encoded || d is Preview || d is Bare
}

pub(crate) fn redrawn(d: PageData) -> (r: bool)
    ensures
        r == is_redrawn(d),
{
    match d {
        PageData::Encoded { .. } => true,
        PageData::Preview { .. } => true,
        PageData::Bare { .. } => true,
        _ => false,
    }
}

/// What a body puts on its displayed page. A picture that an overlay composes
/// anyway is not put there too, and in a PDF neither is a coarse body that an
/// overlay draws sharply.
pub open spec fn body_shown<D: PageDecoder>(
    format: Format,
    decoder: &D,
    data: Seq<u8>,
    doc: DocumentModel,
    display: DisplayModel,
    decode: bool,
    k: int,
) -> Option<BodyModel> {
    let member = display.members[k];
    let paper = paper_or_default(display.paper);
    if member.page_index >= doc.pages.len() {
        None
    } else {
        let page = doc.pages[member.page_index as int];
        if format == Format::Pdf && preview_replaced(decoder, page, display.overlays, paper) {
            None
        } else {
            match page.data {
                PageData::Jpeg { offset, len } => if (decode && composed_by_overlay(
                    decoder,
                    display.overlays,
                    paper,
                ) && member.area is None) || offset + len > data.len() {
                    None
                } else {
                    Some(BodyModel::Picture)
                },
                _ => if is_redrawn(page.data) && decode {
                    match page_drawn_in(decoder, data, page, doc) {
                        Some(m) => if format == Format::Pdf && body_replaced(
                            decoder,
                            m,
                            display.overlays,
                            paper,
                        ) {
                            None
                        } else {
                            Some(BodyModel::Drawing(m))
                        },
                        None => None,
                    }
                } else {
                    None
                },
            }
        }
    }
}

/// The first `n` bodies that are drawn on a displayed page.
pub open spec fn members_laid<D: PageDecoder>(
    format: Format,
    decoder: &D,
    data: Seq<u8>,
    doc: DocumentModel,
    display: DisplayModel,
    decode: bool,
    n: int,
) -> Seq<MemberLayerModel>
    decreases n,
{
    if n <= 0 {
        Seq::empty()
    } else {
        let before = members_laid(format, decoder, data, doc, display, decode, n - 1);
        match body_shown(format, decoder, data, doc, display, decode, n - 1) {
            Some(body) => before.push(
                MemberLayerModel {
                    number: (n - 1) as usize,
                    page_index: display.members[n - 1].page_index,
                    area: display.members[n - 1].area,
                    body,
                },
            ),
            None => before,
        }
    }
}

/// The same body, or none in both.
pub open spec fn same_body(r: Option<Body>, s: Option<BodyModel>) -> bool {
    match (r, s) {
        (Some(Body::Picture), Some(BodyModel::Picture)) => true,
        (Some(Body::Drawing(m)), Some(BodyModel::Drawing(p))) => m@ == p,
        (None, None) => true,
        _ => false,
    }
}

fn show_body<D: PageDecoder>(
    format: Format,
    data: &[u8],
    doc: &Document,
    display: &DisplayPage,
    decode: bool,
    composed: bool,
    decoder: &D,
    k: usize,
) -> (r: Option<Body>)
    requires
        k < display.members@.len(),
        composed == (decode && composed_by_overlay(
            decoder,
            display@.overlays,
            paper_or_default(display.paper),
        )),
    ensures
        same_body(r, body_shown(format, decoder, data@, doc@, display@, decode, k as int)),
{
    let member = display.members[k];
    if member.page_index >= doc.pages.len() {
        return None;
    }
    let page: &Page = &doc.pages[member.page_index];
    let paper: (u32, u32) = or_default(display.paper);
    proof {
        assert(doc@.pages[member.page_index as int] == page@);
    }
    if format == Format::Pdf && preview_replaced_by_text_overlay(
        page,
        display.overlays.as_slice(),
        paper,
        decoder,
    ) {
        return None;
    }
    if let PageData::Jpeg { offset, len } = page.data {
        if (composed && member.area.is_none()) || offset > data.len() || len > data.len() - offset {
            return None;
        }
        return Some(Body::Picture);
    }
    if !decode || !redrawn(page.data) {
        return None;
    }
    match decode_page_for_document(data, page, doc, decoder) {
        Some(m) => if format == Format::Pdf && page_body_replaced_by_vector_overlay(
            &m,
            display.overlays.as_slice(),
            paper,
            decoder,
        ) {
            None
        } else {
            Some(Body::Drawing(m))
        },
        None => None,
    }
}

/// The bodies that are drawn on a displayed page, in their order.
pub fn member_layers<D: PageDecoder>(
    format: Format,
    data: &[u8],
    doc: &Document,
    display: &DisplayPage,
    decode: bool,
    decoder: &D,
) -> (r: Vec<MemberLayer>)
    ensures
        member_layer_models(r@) == members_laid(
            format,
            decoder,
            data@,
            doc@,
            display@,
            decode,
            display.members@.len() as int,
        ),
{
    let composed: bool = decode && overlay_uses_stored(
        &display.overlays,
        or_default(display.paper),
        decoder,
    );
    let mut r: Vec<MemberLayer> = Vec::new();
    let mut k: usize = 0;
    proof {
        assert(member_layer_models(r@) =~= members_laid(
            format,
            decoder,
            data@,
            doc@,
            display@,
            decode,
            0,
        ));
    }
    while k < display.members.len()
        invariant
            k <= display.members@.len(),
            display@.members == display.members@,
            composed == (decode && composed_by_overlay(
                decoder,
                display@.overlays,
                paper_or_default(display.paper),
            )),
            member_layer_models(r@) == members_laid(
                format,
                decoder,
                data@,
                doc@,
                display@,
                decode,
                k as int,
            ),
        decreases display.members@.len() - k,
    {
        let ghost before = member_layer_models(r@);
        if let Some(body) = show_body(format, data, doc, display, decode, composed, decoder, k) {
            let layer = MemberLayer {
                number: k,
                page_index: display.members[k].page_index,
                area: display.members[k].area,
                body,
            };
            let ghost m = layer@;
            r.push(layer);
            proof {
                assert(member_layer_models(r@) =~= before.push(m));
            }
        }
        k += 1;
    }
    r
}

} // verus!
