//! What becomes of each sheet of a document that says nothing of how it is
//! displayed, and of each displayed page of one that does.
use crate::adapters::sheets::{
    is_redrawn, label_at, merged_labels, picture_group, overlay_layer_models, overlay_layers, overlays_laid,
    redrawn, same_labels, selected_pages, selection, Format, OverlayLayer, OverlayLayerModel,
};
use crate::application::ports::PageDecoder;
use crate::application::recovery::{
    decode_page_for_document, display_page_is_explicit_blank, explicitly_blank, page_drawn_in,
};
use crate::domain::document::{DisplayModel, DisplayPage, Document, DocumentModel};
use crate::domain::page::{overlay_models, Overlay, OverlayModel, Page, PageData, PageModel};
use crate::domain::rendering::{Metafile, MetafileModel};
use crate::infrastructure::recovery::{or_default, paper_or_default};
use vstd::prelude::*;

verus! {

/// What becomes of a sheet.
#[derive(Debug, PartialEq, Eq)]
pub enum SheetPlan {
    /// It is a label of the picture before it, and no page of its own.
    Label(Metafile),
    /// Its picture is shown. Its overlays are drawn first where one of them
    /// covers the page: if they place pictures, they are the page.
    Picture { offset: usize, len: usize, overlaid: bool },
    /// The drawing that it was decoded into is shown.
    Drawing(Metafile),
    /// Its body cannot be shown. Its overlays are tried in its place.
    Missing { overlaid: bool },
}

/// What becomes of a sheet, as a value.
pub enum SheetPlanModel {
    Label(MetafileModel),
    Picture { offset: usize, len: usize, overlaid: bool },
    Drawing(MetafileModel),
    Missing { overlaid: bool },
}

impl View for SheetPlan {
    type V = SheetPlanModel;

    open spec fn view(&self) -> SheetPlanModel {
        match *self {
            SheetPlan::Label(m) => SheetPlanModel::Label(m@),
            SheetPlan::Picture { offset, len, overlaid } => SheetPlanModel::Picture {
                offset,
                len,
                overlaid,
            },
            SheetPlan::Drawing(m) => SheetPlanModel::Drawing(m@),
            SheetPlan::Missing { overlaid } => SheetPlanModel::Missing { overlaid },
        }
    }
}

/// An overlay covers the page.
pub open spec fn has_page_overlay(overlays: Seq<OverlayModel>) -> bool {
    exists|k: int| 0 <= k < overlays.len() && (#[trigger] overlays[k]).area is None
}

fn page_overlay(overlays: &Vec<Overlay>) -> (r: bool)
    ensures
        r == has_page_overlay(overlay_models(overlays@)),
{
    let ghost m = overlay_models(overlays@);
    let mut k: usize = 0;
    while k < overlays.len()
        invariant
            k <= overlays@.len(),
            m == overlay_models(overlays@),
            forall|j: int| 0 <= j < k ==> (#[trigger] m[j]).area is Some,
        decreases overlays@.len() - k,
    {
        if overlays[k].area.is_none() {
            assert(m[k as int].area is None);
            return true;
        }
        k += 1;
    }
    false
}

/// What becomes of a sheet that is no label. Where its body is lost, its
/// overlays stand in for it.
pub open spec fn body_plan<D: PageDecoder>(
    decoder: &D,
    data: Seq<u8>,
    doc: DocumentModel,
    page: PageModel,
    decode: bool,
) -> SheetPlanModel {
    let drawn = if decode {
        page_drawn_in(decoder, data, page, doc)
    } else {
        None
    };
    let lost = SheetPlanModel::Missing { overlaid: decode && page.overlays.len() > 0 };
    match page.data {
        PageData::Jpeg { offset, len } => if offset + len <= data.len() {
            SheetPlanModel::Picture {
                offset,
                len,
                overlaid: decode && has_page_overlay(page.overlays),
            }
        } else {
            lost
        },
        _ => match drawn {
            Some(m) => if is_redrawn(page.data) {
                SheetPlanModel::Drawing(m)
            } else {
                lost
            },
            None => lost,
        },
    }
}

/// What becomes of the `i`-th selected sheet.
pub open spec fn sheet_plan<D: PageDecoder>(
    decoder: &D,
    data: Seq<u8>,
    doc: DocumentModel,
    selected: Seq<usize>,
    decode: bool,
    i: int,
) -> SheetPlanModel {
    match label_at(decoder, data, doc, selected, decode, i) {
        Some(m) => SheetPlanModel::Label(m),
        None => body_plan(decoder, data, doc, doc.pages[selected[i] as int], decode),
    }
}

fn plan_body<D: PageDecoder>(
    data: &[u8],
    doc: &Document,
    page: &Page,
    decode: bool,
    decoder: &D,
) -> (r: SheetPlan)
    ensures
        r@ == body_plan(decoder, data@, doc@, page@, decode),
{
    let overlays: bool = decode && page.overlays.len() > 0;
    match page.data {
        PageData::Jpeg { offset, len } => {
            if offset <= data.len() && len <= data.len() - offset {
                return SheetPlan::Picture {
                    offset,
                    len,
                    overlaid: decode && page_overlay(&page.overlays),
                };
            }
            SheetPlan::Missing { overlaid: overlays }
        },
        _ => {
            let drawn: Option<Metafile> = if decode {
                decode_page_for_document(data, page, doc, decoder)
            } else {
                None
            };
            match drawn {
                Some(m) => if redrawn(page.data) {
                    SheetPlan::Drawing(m)
                } else {
                    SheetPlan::Missing { overlaid: overlays }
                },
                None => SheetPlan::Missing { overlaid: overlays },
            }
        },
    }
}

/// The entries that a conversion shows, and what becomes of each of them where
/// nothing says how they are displayed.
pub fn plan_sheets<D: PageDecoder>(
    data: &[u8],
    doc: &Document,
    previews: bool,
    decode: bool,
    decoder: &D,
) -> (r: (Vec<usize>, Vec<SheetPlan>))
    ensures
        r.0@ == selection(doc@, previews),
        r.1@.len() == r.0@.len(),
        forall|i: int|
            0 <= i < r.1@.len() ==> (#[trigger] r.1@[i])@ == sheet_plan(
                decoder,
                data@,
                doc@,
                r.0@,
                decode,
                i,
            ),
        forall|k: int| 0 <= k < r.0@.len() ==> #[trigger] r.0@[k] < doc.pages@.len(),
{
    let selected = selected_pages(doc, previews);
    let mut labels = merged_labels(data, doc, &selected, decode, decoder);
    let n: usize = selected.len();
    let ghost known = labels@;
    let mut plans: Vec<SheetPlan> = Vec::new();
    let mut i: usize = n;
    while i > 0
        invariant
            i <= n,
            n == selected@.len(),
            known.len() == n,
            labels@ == known.take(i as int),
            same_labels(decoder, data@, doc@, selected@, decode, known),
            forall|k: int| 0 <= k < selected@.len() ==> #[trigger] selected@[k] < doc.pages@.len(),
            plans@.len() == n - i,
            forall|k: int|
                0 <= k < plans@.len() ==> (#[trigger] plans@[k])@ == sheet_plan(
                    decoder,
                    data@,
                    doc@,
                    selected@,
                    decode,
                    n - 1 - k,
                ),
        decreases i,
    {
        i -= 1;
        proof {
            assert(labels@.last() == known[i as int]);
            assert(labels@.drop_last() =~= known.take(i as int));
            assert(doc@.pages[selected@[i as int] as int] == doc.pages@[selected@[i as int] as int]@);
        }
        let label: Option<Metafile> = labels.pop().unwrap();
        let plan = match label {
            Some(m) => SheetPlan::Label(m),
            None => plan_body(data, doc, &doc.pages[selected[i]], decode, decoder),
        };
        plans.push(plan);
    }
    let ghost backwards = plans@;
    let mut ordered: Vec<SheetPlan> = Vec::new();
    let mut k: usize = 0;
    while k < n
        invariant
            k <= n,
            n == backwards.len(),
            plans@ == backwards.take(n - k),
            ordered@.len() == k,
            forall|j: int| 0 <= j < k ==> #[trigger] ordered@[j] == backwards[n - 1 - j],
        decreases n - k,
    {
        proof {
            assert(plans@.last() == backwards[n - 1 - k]);
            assert(plans@.drop_last() =~= backwards.take(n - k - 1));
        }
        let plan: SheetPlan = plans.pop().unwrap();
        ordered.push(plan);
        k += 1;
    }
    proof {
        assert forall|j: int| 0 <= j < ordered@.len() implies (#[trigger] ordered@[j])@
            == sheet_plan(decoder, data@, doc@, selected@, decode, j) by {
            assert(ordered@[j] == backwards[n - 1 - j]);
        }
    }
    (selected, ordered)
}

/// How many of the first `k` sheets are pages of their own.
pub open spec fn pages_among(plans: Seq<SheetPlan>, k: int) -> nat
    decreases k,
{
    if k <= 0 {
        0
    } else if plans[k - 1] is Label {
        pages_among(plans, k - 1)
    } else {
        pages_among(plans, k - 1) + 1
    }
}

/// The page numbers of the sheets, where a label has that of the picture
/// before it, and how many pages there are.
pub fn number_sheets(plans: &Vec<SheetPlan>) -> (r: (Vec<usize>, usize))
    ensures
        r.0@.len() == plans@.len(),
        forall|i: int| 0 <= i < plans@.len() ==> #[trigger] r.0@[i] == pages_among(plans@, i + 1),
        r.1 == pages_among(plans@, plans@.len() as int),
{
    let mut numbers: Vec<usize> = Vec::new();
    let mut pages: usize = 0;
    let mut i: usize = 0;
    while i < plans.len()
        invariant
            pages <= i <= plans@.len(),
            pages == pages_among(plans@, i as int),
            numbers@.len() == i,
            forall|k: int| 0 <= k < i ==> #[trigger] numbers@[k] == pages_among(plans@, k + 1),
        decreases plans@.len() - i,
    {
        if let SheetPlan::Label(_) = &plans[i] {
        } else {
            pages += 1;
        }
        numbers.push(pages);
        i += 1;
    }
    (numbers, pages)
}

/// The label that belongs to the sheet before it.
pub fn label_behind(plans: &Vec<SheetPlan>, i: usize) -> (r: Option<&Metafile>)
    requires
        i < plans@.len(),
    ensures
        unref_label(r) == label_after(plans@, i as int),
{
    assert(i < plans.len());
    if i + 1 < plans.len() {
        match &plans[i + 1] {
            SheetPlan::Label(m) => Some(m),
            _ => None,
        }
    } else {
        None
    }
}

/// The label that belongs to the sheet before it.
pub open spec fn label_after(plans: Seq<SheetPlan>, i: int) -> Option<Metafile> {
    if i + 1 < plans.len() {
        match plans[i + 1] {
            SheetPlan::Label(m) => Some(m),
            _ => None,
        }
    } else {
        None
    }
}

/// The label behind a reference.
pub open spec fn unref_label(label: Option<&Metafile>) -> Option<Metafile> {
    match label {
        Some(m) => Some(*m),
        None => None,
    }
}

// ----------------------------------------------------- displayed pages

/// The entry that carries the pictures which overlays of a displayed page can
/// call for: its first body.
pub open spec fn display_anchor(doc: DocumentModel, display: DisplayModel) -> Option<usize> {
    if display.members.len() > 0 && display.members[0].page_index < doc.pages.len() {
        Some(display.members[0].page_index)
    } else {
        None
    }
}

/// The entry that carries the pictures which overlays of a displayed page can
/// call for.
pub fn anchor_of(doc: &Document, display: &DisplayPage) -> (r: Option<usize>)
    ensures
        r == display_anchor(doc@, display@),
        r matches Some(k) ==> k < doc.pages@.len(),
{
    if display.members.len() > 0 && display.members[0].page_index < doc.pages.len() {
        Some(display.members[0].page_index)
    } else {
        None
    }
}

/// The pictures that overlays of a displayed page can call for.
pub open spec fn display_group(doc: Document, display: DisplayPage) -> Seq<Page> {
    match display_anchor(doc@, display@) {
        Some(k) => picture_group(doc.pages@, doc.pages@[k as int]),
        None => Seq::empty(),
    }
}

/// What the overlays lay over a displayed page.
pub open spec fn display_overlays<D: PageDecoder>(
    format: Format,
    decoder: &D,
    display: DisplayModel,
) -> Seq<OverlayLayerModel> {
    overlays_laid(
        format,
        decoder,
        display.overlays,
        paper_or_default(display.paper),
        display.overlays.len() as int,
    )
}

/// What the overlays lay over a displayed page.
pub fn displayed_overlays<D: PageDecoder>(
    format: Format,
    display: &DisplayPage,
    decoder: &D,
) -> (r: Vec<OverlayLayer>)
    ensures
        overlay_layer_models(r@) == display_overlays(format, decoder, display@),
{
    proof {
        assert(display@.overlays.len() == display.overlays@.len());
    }
    overlay_layers(format, &display.overlays, or_default(display.paper), decoder)
}

/// A displayed page came out: something was painted on it, or it is meant to
/// be blank.
pub open spec fn came_out<D: PageDecoder>(
    decoder: &D,
    display: DisplayModel,
    painted: bool,
) -> bool {
    painted || (display.members.len() == 0 && display.overlays.len() == 0)
        || explicitly_blank(decoder, display)
}

/// Whether a displayed page came out. Some printer exports keep explicit blank
/// pages without a body for them; they are still real pages.
pub fn is_recovered<D: PageDecoder>(
    display: &DisplayPage,
    painted: bool,
    decoder: &D,
) -> (r: bool)
    ensures
        r == came_out(decoder, display@, painted),
{
    proof {
        assert(display@.overlays.len() == display.overlays@.len());
    }
    painted || (display.members.len() == 0 && display.overlays.len() == 0)
        || display_page_is_explicit_blank(display, decoder)
}

/// Every selected sheet is either a page of the output or a label of the
/// picture right before it, which is one. So no two labels follow each other.
pub proof fn law_labels_follow_pictures<D: PageDecoder>(
    decoder: &D,
    data: Seq<u8>,
    doc: DocumentModel,
    selected: Seq<usize>,
    decode: bool,
    i: int,
)
    requires
        0 <= i < selected.len(),
        sheet_plan(decoder, data, doc, selected, decode, i) is Label,
        forall|k: int| 0 <= k < doc.pages.len() ==> ((#[trigger] doc.pages[k]).data matches
            PageData::Jpeg { offset, len } ==> decoder.document_drawing(data, doc.pages[k], doc) is None
            && offset + len <= data.len()),
        forall|k: int| 0 <= k < selected.len() ==> #[trigger] selected[k] < doc.pages.len(),
    ensures
        i > 0,
        sheet_plan(decoder, data, doc, selected, decode, i - 1) is Picture,
{
    let before = doc.pages[selected[i - 1] as int];
    assert(before.data is Jpeg);
    assert(label_at(decoder, data, doc, selected, decode, i - 1) is None);
}

} // verus!
