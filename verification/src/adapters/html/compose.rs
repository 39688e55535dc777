//! What is laid on a sheet of the page: drawings and pictures, one over the
//! other, each where its numbers place it.
use crate::adapters::drawing::{masks_of, paint_order};
use crate::adapters::html::layer::{counted_glyphs, draw_metafile, is_shown};
use crate::adapters::html::page::{placed_picture, push_placed_picture, total, HtmlDrawn};
use crate::adapters::html::svg::{runs_drawn, svg_drawn, BoxNumbers, SvgModel, SvgNumbers};
use crate::adapters::pdf::images::{jpeg_stream, stream_of, tagged, tagged_name};
use crate::adapters::sheets::{callable, Body, Format, MemberLayer, OverlayLayer};
use crate::domain::document::{is_picture_on, Document};
use crate::domain::page::Page;
use crate::domain::rendering::Metafile;
use vstd::prelude::*;
use vstd::string::*;

verus! {

/// The numbers of a body of a displayed page: where its picture is shown, or
/// how its drawing is.
pub struct MemberNumbers {
    pub place: BoxNumbers,
    pub drawing: SvgNumbers,
}

/// A sheet as far as it is laid out.
pub struct Sheet {
    pub svg: String,
    pub spans: String,
    pub drawn: HtmlDrawn,
}

/// A sheet as far as it is laid out, as a value.
#[verifier::ext_equal]
pub struct SheetModel {
    pub svg: Seq<char>,
    pub spans: Seq<char>,
    pub drawn: HtmlDrawn,
}

impl View for Sheet {
    type V = SheetModel;

    open spec fn view(&self) -> SheetModel {
        SheetModel { svg: self.svg@, spans: self.spans@, drawn: self.drawn }
    }
}

/// A sheet with nothing on it.
pub open spec fn bare_sheet() -> SheetModel {
    SheetModel {
        svg: Seq::empty(),
        spans: Seq::empty(),
        drawn: HtmlDrawn { glyphs: 0, pictures: 0, painted: false },
    }
}

impl Sheet {
    /// A sheet with nothing on it.
    pub fn bare() -> (s: Sheet)
        ensures
            s@ == bare_sheet(),
    {
        let s = Sheet { svg: String::new(), spans: String::new(), drawn: HtmlDrawn::default() };
        proof {
            assert(s@ =~= bare_sheet());
        }
        s
    }
}

/// A drawing more on the sheet.
pub open spec fn drawing_laid(
    s: SheetModel,
    data: Seq<u8>,
    meta: Metafile,
    n: SvgModel,
    no: nat,
    tag: Seq<char>,
    stored: Seq<Page>,
    alt: Seq<char>,
) -> SheetModel {
    if is_shown(meta) {
        let p = svg_drawn(
            meta,
            n,
            no,
            tag,
            data,
            stored,
            masks_of(Format::Html, data, meta@, stored),
            alt,
            paint_order(meta@, false),
        );
        let glyphs = counted_glyphs(meta@, n);
        SheetModel {
            svg: s.svg + p.out,
            spans: s.spans + runs_drawn(meta@, n, meta@.text.len() as int).0,
            drawn: HtmlDrawn {
                glyphs: total(s.drawn.glyphs, glyphs),
                pictures: total(s.drawn.pictures, p.pictures),
                painted: s.drawn.painted || p.painted || glyphs > 0,
            },
        }
    } else {
        s
    }
}

/// Lays a drawing on the sheet.
pub fn lay_drawing(
    s: &mut Sheet,
    data: &[u8],
    meta: &Metafile,
    n: &SvgNumbers,
    no: usize,
    tag: &str,
    stored: &Vec<&Page>,
    alt: &str,
)
    ensures
        final(s)@ == drawing_laid(
            old(s)@,
            data@,
            *meta,
            n@,
            no as nat,
            tag@,
            stored@.unref(),
            alt@,
        ),
{
    let ghost before = s@;
    let (svg, spans, drawn): (String, String, HtmlDrawn) = draw_metafile(
        data,
        meta,
        n,
        no,
        tag,
        stored,
        alt,
    );
    s.svg.append(svg.as_str());
    s.spans.append(spans.as_str());
    s.drawn.add(drawn);
    proof {
        let after = drawing_laid(
            before,
            data@,
            *meta,
            n@,
            no as nat,
            tag@,
            stored@.unref(),
            alt@,
        );
        assert(s@ =~= after);
    }
}

/// The first `k` overlays more on the sheet.
pub open spec fn overlays_drawn(
    s: SheetModel,
    data: Seq<u8>,
    layers: Seq<OverlayLayer>,
    n: Seq<SvgNumbers>,
    no: nat,
    tag: Seq<char>,
    group: Seq<Page>,
    alt: Seq<char>,
    k: int,
) -> SheetModel
    decreases k,
{
    if k <= 0 {
        s
    } else {
        drawing_laid(
            overlays_drawn(s, data, layers, n, no, tag, group, alt, k - 1),
            data,
            layers[k - 1].drawing,
            n[k - 1]@,
            no,
            tagged(""@, tag, layers[k - 1].number as nat),
            callable(layers[k - 1], group),
            alt,
        )
    }
}

/// Lays the overlays on the sheet, in their order.
pub fn lay_overlays(
    s: &mut Sheet,
    data: &[u8],
    layers: &Vec<OverlayLayer>,
    n: &Vec<SvgNumbers>,
    no: usize,
    tag: &str,
    group: &Vec<&Page>,
    alt: &str,
)
    requires
        n@.len() == layers@.len(),
    ensures
        final(s)@ == overlays_drawn(
            old(s)@,
            data@,
            layers@,
            n@,
            no as nat,
            tag@,
            group@.unref(),
            alt@,
            layers@.len() as int,
        ),
{
    let ghost before = s@;
    let none: Vec<&Page> = Vec::new();
    proof {
        assert(none@.unref() =~= Seq::<Page>::empty());
    }
    let mut k: usize = 0;
    while k < layers.len()
        invariant
            k <= layers@.len(),
            n@.len() == layers@.len(),
            none@.unref() == Seq::<Page>::empty(),
            s@ == overlays_drawn(
                before,
                data@,
                layers@,
                n@,
                no as nat,
                tag@,
                group@.unref(),
                alt@,
                k as int,
            ),
        decreases layers@.len() - k,
    {
        let layer: &OverlayLayer = &layers[k];
        let name = tagged_name("", tag, layer.number);
        if layer.calls_pictures {
            lay_drawing(s, data, &layer.drawing, &n[k], no, name.as_str(), group, alt);
        } else {
            lay_drawing(s, data, &layer.drawing, &n[k], no, name.as_str(), &none, alt);
        }
        k += 1;
    }
}

/// One body more on a displayed page.
pub open spec fn member_drawn(
    s: SheetModel,
    data: Seq<u8>,
    pages: Seq<Page>,
    layer: MemberLayer,
    n: MemberNumbers,
    no: nat,
    page_alt: Seq<char>,
    art_alt: Seq<char>,
) -> SheetModel {
    if layer.page_index < pages.len() {
        let page = pages[layer.page_index as int];
        match layer.body {
            Body::Picture => match jpeg_stream(data, Some(page.data)) {
                Some(stream) => SheetModel {
                    svg: s.svg + placed_picture(n.place@, page_alt, stream),
                    drawn: HtmlDrawn { painted: true, ..s.drawn },
                    ..s
                },
                None => s,
            },
            Body::Drawing(m) => drawing_laid(
                s,
                data,
                m,
                n.drawing@,
                no,
                tagged(""@, "d"@, layer.number as nat),
                pages.filter(|p: Page| is_picture_on(p, page.index)),
                art_alt,
            ),
        }
    } else {
        s
    }
}

/// The first `k` bodies more on a displayed page.
pub open spec fn members_drawn(
    s: SheetModel,
    data: Seq<u8>,
    pages: Seq<Page>,
    layers: Seq<MemberLayer>,
    n: Seq<MemberNumbers>,
    no: nat,
    page_alt: Seq<char>,
    art_alt: Seq<char>,
    k: int,
) -> SheetModel
    decreases k,
{
    if k <= 0 {
        s
    } else {
        member_drawn(
            members_drawn(s, data, pages, layers, n, no, page_alt, art_alt, k - 1),
            data,
            pages,
            layers[k - 1],
            n[k - 1],
            no,
            page_alt,
            art_alt,
        )
    }
}

fn lay_member(
    s: &mut Sheet,
    data: &[u8],
    doc: &Document,
    layer: &MemberLayer,
    n: &MemberNumbers,
    no: usize,
    page_alt: &str,
    art_alt: &str,
)
    ensures
        final(s)@ == member_drawn(
            old(s)@,
            data@,
            doc.pages@,
            *layer,
            *n,
            no as nat,
            page_alt@,
            art_alt@,
        ),
{
    if layer.page_index >= doc.pages.len() {
        return;
    }
    let page: &Page = &doc.pages[layer.page_index];
    match &layer.body {
        Body::Picture => {
            if let Some(stream) = stream_of(data, page) {
                push_placed_picture(&mut s.svg, &n.place, page_alt, stream);
                s.drawn.painted = true;
            }
        },
        Body::Drawing(m) => {
            let stored = doc.pictures_on(page.index);
            let tag = tagged_name("", "d", layer.number);
            lay_drawing(s, data, m, &n.drawing, no, tag.as_str(), &stored, art_alt);
        },
    }
}

/// Lays the bodies of a displayed page on it, in their order.
pub fn lay_members(
    s: &mut Sheet,
    data: &[u8],
    doc: &Document,
    layers: &Vec<MemberLayer>,
    n: &Vec<MemberNumbers>,
    no: usize,
    page_alt: &str,
    art_alt: &str,
)
    requires
        n@.len() == layers@.len(),
    ensures
        final(s)@ == members_drawn(
            old(s)@,
            data@,
            doc.pages@,
            layers@,
            n@,
            no as nat,
            page_alt@,
            art_alt@,
            layers@.len() as int,
        ),
{
    let ghost before = s@;
    let mut k: usize = 0;
    while k < layers.len()
        invariant
            k <= layers@.len(),
            n@.len() == layers@.len(),
            s@ == members_drawn(
                before,
                data@,
                doc.pages@,
                layers@,
                n@,
                no as nat,
                page_alt@,
                art_alt@,
                k as int,
            ),
        decreases layers@.len() - k,
    {
        lay_member(s, data, doc, &layers[k], &n[k], no, page_alt, art_alt);
        k += 1;
    }
}

} // verus!
