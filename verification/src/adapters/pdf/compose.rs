//! What is laid on a page of the PDF: drawings and pictures, one over the
//! other, each where its numbers place it.
use crate::adapters::drawing::{is_measurable, masks_of};
use crate::adapters::pdf::assembly::total;
use crate::adapters::pdf::content::{
    picture_ops, push_picture, push_turned, turned_content, Numbers, NumbersModel,
};
use crate::adapters::pdf::fonts::{font_of, GlyphModel, Glyphs};
use crate::adapters::pdf::images::{
    declared_components, declared_size, embed_page_picture, jpeg_dict, jpeg_stream, resource_entry,
    tagged, tagged_name,
};
use crate::adapters::pdf::layer::{draw_page, page_painted};
use crate::adapters::pdf::pictures::{law_embedding_keeps_objects, pictures_embedded, starts_with};
use crate::adapters::pdf::writer::{law_payload_is_kept, octets, stream_body, with_length, Writer};
use crate::adapters::sheets::{callable, Body, Format, MemberLayer, OverlayLayer};
use crate::domain::document::{is_picture_on, Document};
use crate::domain::page::{Page, PageData};
use crate::domain::rendering::Metafile;
use crate::infrastructure::jpeg::jpeg_info;
use crate::infrastructure::ttf::Font;
use vstd::prelude::*;
use vstd::string::*;

verus! {

/// The numbers of a drawing on a page, and the matrix that turns it where it
/// is turned.
pub struct LayerNumbers {
    pub drawing: Numbers,
    pub turn: Option<String>,
}

/// The numbers of a drawing on a page as a value.
pub struct LayerModel {
    pub drawing: NumbersModel,
    pub turn: Option<Seq<char>>,
}

impl View for LayerNumbers {
    type V = LayerModel;

    open spec fn view(&self) -> LayerModel {
        LayerModel { drawing: self.drawing@, turn: turn_of(self.turn) }
    }
}

/// The matrix of a turn as a value.
pub open spec fn turn_of(turn: Option<String>) -> Option<Seq<char>> {
    match turn {
        Some(m) => Some(m@),
        None => None,
    }
}

/// Where a picture is drawn: its width, height and lower left corner.
pub struct PlaceNumbers {
    pub width: String,
    pub height: String,
    pub x: String,
    pub y: String,
}

/// The numbers of a body of a displayed page: where its picture is drawn, or
/// how its drawing is.
pub struct MemberNumbers {
    pub place: PlaceNumbers,
    pub layer: LayerNumbers,
}

/// A page as far as it is laid out, beside the objects of the file.
pub struct Sheet {
    /// The names of the images that its content draws.
    pub resources: String,
    pub content: String,
    /// The glyphs in use, on this page and on those before it.
    pub glyphs: Glyphs,
    /// How many characters were placed.
    pub placed: usize,
    pub pictures: usize,
    pub painted: bool,
}

/// A page as far as it is laid out, with the objects of the file.
#[verifier::ext_equal]
pub struct SheetModel {
    pub objects: Seq<Option<Seq<u8>>>,
    pub resources: Seq<char>,
    pub content: Seq<char>,
    pub glyphs: GlyphModel,
    pub placed: usize,
    pub pictures: usize,
    pub painted: bool,
}

/// A page with nothing on it.
pub open spec fn bare_sheet(objects: Seq<Option<Seq<u8>>>, glyphs: GlyphModel) -> SheetModel {
    SheetModel {
        objects,
        resources: Seq::empty(),
        content: Seq::empty(),
        glyphs,
        placed: 0,
        pictures: 0,
        painted: false,
    }
}

impl Sheet {
    /// The page beside the objects of the file.
    pub open spec fn with(self, objects: Seq<Option<Seq<u8>>>) -> SheetModel {
        SheetModel {
            objects,
            resources: self.resources@,
            content: self.content@,
            glyphs: self.glyphs@,
            placed: self.placed,
            pictures: self.pictures,
            painted: self.painted,
        }
    }

    /// A page with nothing on it.
    pub fn bare(glyphs: Glyphs) -> (s: Sheet)
        ensures
            s.glyphs == glyphs,
            forall|objects: Seq<Option<Seq<u8>>>| #[trigger]
                s.with(objects) == bare_sheet(objects, glyphs@),
    {
        let s = Sheet {
            resources: String::new(),
            content: String::new(),
            glyphs,
            placed: 0,
            pictures: 0,
            painted: false,
        };
        proof {
            assert forall|objects: Seq<Option<Seq<u8>>>| #[trigger]
                s.with(objects) == bare_sheet(objects, glyphs@) by {
                assert(s.with(objects) =~= bare_sheet(objects, glyphs@));
            }
        }
        s
    }
}

/// Content in its own coordinate system, where it has one.
pub open spec fn placed_content(turn: Option<Seq<char>>, body: Seq<char>) -> Seq<char> {
    match turn {
        Some(matrix) => turned_content(matrix, body),
        None => body,
    }
}

fn push_placed(out: &mut String, turn: &Option<String>, body: &str)
    ensures
        final(out)@ == old(out)@ + placed_content(turn_of(*turn), body@),
{
    match turn {
        Some(matrix) => push_turned(out, matrix.as_str(), body),
        None => out.append(body),
    }
}

/// A drawing more on the page. One that cannot be measured shows nothing.
pub open spec fn drawing_laid(
    s: SheetModel,
    data: Seq<u8>,
    meta: Metafile,
    n: LayerModel,
    stored: Seq<Page>,
    tag: Seq<char>,
    font: Option<Font>,
) -> SheetModel {
    if is_measurable(meta.rasters@) {
        let masks = masks_of(Format::Pdf, data, meta@, stored);
        let e = pictures_embedded(s.objects, Seq::empty(), data, meta@, stored, masks, tag);
        let p = page_painted(s.glyphs, meta@, n.drawing, masks, e.names, font);
        SheetModel {
            objects: e.objects,
            resources: s.resources + e.resources,
            content: s.content + placed_content(n.turn, p.out),
            glyphs: p.glyphs,
            placed: total(s.placed, p.placed),
            pictures: total(s.pictures, p.pictures),
            painted: s.painted || p.painted,
        }
    } else {
        s
    }
}

/// Lays a drawing on the page.
pub fn lay_drawing(
    w: &mut Writer,
    sheet: Sheet,
    data: &[u8],
    meta: &Metafile,
    n: &LayerNumbers,
    stored: &Vec<&Page>,
    tag: &str,
    font: Option<&Font>,
) -> (r: Sheet)
    requires
        sheet.glyphs.wf(),
        font matches Some(f) ==> f.wf(),
    ensures
        r.glyphs.wf(),
        r.with(final(w)@) == drawing_laid(
            sheet.with(old(w)@),
            data@,
            *meta,
            n@,
            stored@.unref(),
            tag@,
            font_of(font),
        ),
{
    let ghost before = sheet.with(w@);
    let mut r = sheet;
    let mut named = String::new();
    proof {
        assert(named@ =~= Seq::<char>::empty());
    }
    let p = draw_page(w, data, meta, &n.drawing, stored, tag, &mut named, font, r.glyphs);
    push_placed(&mut r.content, &n.turn, p.content.as_str());
    r.resources.append(named.as_str());
    r.glyphs = p.glyphs;
    r.placed = r.placed.saturating_add(p.placed);
    r.pictures = r.pictures.saturating_add(p.pictures);
    r.painted = r.painted || p.painted;
    proof {
        let after = drawing_laid(before, data@, *meta, n@, stored@.unref(), tag@, font_of(font));
        if !is_measurable(meta.rasters@) {
            reveal_strlit("");
            assert(placed_content(n@.turn, p.content@) =~= Seq::<char>::empty());
        }
        assert(r.with(w@) =~= after);
    }
    r
}

/// The first `k` overlays more on the page.
pub open spec fn overlays_drawn(
    s: SheetModel,
    data: Seq<u8>,
    layers: Seq<OverlayLayer>,
    n: Seq<LayerNumbers>,
    group: Seq<Page>,
    font: Option<Font>,
    k: int,
) -> SheetModel
    decreases k,
{
    if k <= 0 {
        s
    } else {
        drawing_laid(
            overlays_drawn(s, data, layers, n, group, font, k - 1),
            data,
            layers[k - 1].drawing,
            n[k - 1]@,
            callable(layers[k - 1], group),
            tagged(""@, "O"@, layers[k - 1].number as nat),
            font,
        )
    }
}

/// Lays the overlays on the page, in their order.
pub fn lay_overlays(
    w: &mut Writer,
    sheet: Sheet,
    data: &[u8],
    layers: &Vec<OverlayLayer>,
    n: &Vec<LayerNumbers>,
    group: &Vec<&Page>,
    font: Option<&Font>,
) -> (r: Sheet)
    requires
        n@.len() == layers@.len(),
        sheet.glyphs.wf(),
        font matches Some(f) ==> f.wf(),
    ensures
        r.glyphs.wf(),
        r.with(final(w)@) == overlays_drawn(
            sheet.with(old(w)@),
            data@,
            layers@,
            n@,
            group@.unref(),
            font_of(font),
            layers@.len() as int,
        ),
{
    let ghost before = sheet.with(w@);
    let none: Vec<&Page> = Vec::new();
    proof {
        assert(none@.unref() =~= Seq::<Page>::empty());
    }
    let mut r = sheet;
    let mut k: usize = 0;
    while k < layers.len()
        invariant
            k <= layers@.len(),
            n@.len() == layers@.len(),
            r.glyphs.wf(),
            font matches Some(f) ==> f.wf(),
            none@.unref() == Seq::<Page>::empty(),
            r.with(w@) == overlays_drawn(
                before,
                data@,
                layers@,
                n@,
                group@.unref(),
                font_of(font),
                k as int,
            ),
        decreases layers@.len() - k,
    {
        let layer: &OverlayLayer = &layers[k];
        let tag = tagged_name("", "O", layer.number);
        r = if layer.calls_pictures {
            lay_drawing(w, r, data, &layer.drawing, &n[k], group, tag.as_str(), font)
        } else {
            lay_drawing(w, r, data, &layer.drawing, &n[k], &none, tag.as_str(), font)
        };
        k += 1;
    }
    r
}

/// The picture of a page more on the sheet. A page that is no picture in the
/// file leaves it as it is.
pub open spec fn picture_laid(
    s: SheetModel,
    data: Seq<u8>,
    page: Page,
    name: Seq<char>,
    at: PlaceNumbers,
    turn: Option<Seq<char>>,
) -> SheetModel {
    match jpeg_stream(data, Some(page.data)) {
        Some(stream) => {
            let own = jpeg_info(stream);
            SheetModel {
                objects: s.objects.push(
                    Some(
                        stream_body(
                            jpeg_dict(declared_size(own, page.pixels), declared_components(own)),
                            stream,
                        ),
                    ),
                ),
                resources: s.resources + resource_entry(name, s.objects.len() + 1),
                content: s.content + placed_content(
                    turn,
                    picture_ops(at.width@, at.height@, at.x@, at.y@, name),
                ),
                painted: true,
                ..s
            }
        },
        None => s,
    }
}

/// Lays the picture of a page on the sheet.
pub fn lay_picture(
    w: &mut Writer,
    sheet: Sheet,
    data: &[u8],
    page: &Page,
    name: &str,
    at: &PlaceNumbers,
    turn: &Option<String>,
) -> (r: Sheet)
    ensures
        r.glyphs == sheet.glyphs,
        r.with(final(w)@) == picture_laid(
            sheet.with(old(w)@),
            data@,
            *page,
            name@,
            *at,
            turn_of(*turn),
        ),
{
    let ghost before = sheet.with(w@);
    let mut r = sheet;
    if embed_page_picture(w, data, page, name, &mut r.resources).is_some() {
        let mut body = String::new();
        push_picture(
            &mut body,
            at.width.as_str(),
            at.height.as_str(),
            at.x.as_str(),
            at.y.as_str(),
            name,
        );
        proof {
            assert(body@ =~= picture_ops(at.width@, at.height@, at.x@, at.y@, name@));
        }
        push_placed(&mut r.content, turn, body.as_str());
        r.painted = true;
    }
    proof {
        assert(r.with(w@) =~= picture_laid(before, data@, *page, name@, *at, turn_of(*turn)));
    }
    r
}

/// One body more on a displayed page.
pub open spec fn member_drawn(
    s: SheetModel,
    data: Seq<u8>,
    pages: Seq<Page>,
    layer: MemberLayer,
    n: MemberNumbers,
    font: Option<Font>,
) -> SheetModel {
    if layer.page_index < pages.len() {
        let page = pages[layer.page_index as int];
        let tag = tagged(""@, "D"@, layer.number as nat);
        match layer.body {
            Body::Picture => picture_laid(s, data, page, tag + "Im"@, n.place, n.layer@.turn),
            Body::Drawing(m) => drawing_laid(
                s,
                data,
                m,
                n.layer@,
                pages.filter(|p: Page| is_picture_on(p, page.index)),
                tag,
                font,
            ),
        }
    } else {
        s
    }
}

/// The first `k` bodies more on a displayed page.
pub open spec fn members_drawn(
    s: SheetModel,
    data: Seq<u8>,
    pages: Seq<Page>,
    layers: Seq<MemberLayer>,
    n: Seq<MemberNumbers>,
    font: Option<Font>,
    k: int,
) -> SheetModel
    decreases k,
{
    if k <= 0 {
        s
    } else {
        member_drawn(
            members_drawn(s, data, pages, layers, n, font, k - 1),
            data,
            pages,
            layers[k - 1],
            n[k - 1],
            font,
        )
    }
}

fn lay_member(
    w: &mut Writer,
    sheet: Sheet,
    data: &[u8],
    doc: &Document,
    layer: &MemberLayer,
    n: &MemberNumbers,
    font: Option<&Font>,
) -> (r: Sheet)
    requires
        sheet.glyphs.wf(),
        font matches Some(f) ==> f.wf(),
    ensures
        r.glyphs.wf(),
        r.with(final(w)@) == member_drawn(
            sheet.with(old(w)@),
            data@,
            doc.pages@,
            *layer,
            *n,
            font_of(font),
        ),
{
    if layer.page_index >= doc.pages.len() {
        return sheet;
    }
    let page: &Page = &doc.pages[layer.page_index];
    let mut tag = tagged_name("", "D", layer.number);
    match &layer.body {
        Body::Picture => {
            tag.append("Im");
            lay_picture(w, sheet, data, page, tag.as_str(), &n.place, &n.layer.turn)
        },
        Body::Drawing(m) => {
            let stored = doc.pictures_on(page.index);
            lay_drawing(w, sheet, data, m, &n.layer, &stored, tag.as_str(), font)
        },
    }
}

/// Lays the bodies of a displayed page on it, in their order.
pub fn lay_members(
    w: &mut Writer,
    sheet: Sheet,
    data: &[u8],
    doc: &Document,
    layers: &Vec<MemberLayer>,
    n: &Vec<MemberNumbers>,
    font: Option<&Font>,
) -> (r: Sheet)
    requires
        n@.len() == layers@.len(),
        sheet.glyphs.wf(),
        font matches Some(f) ==> f.wf(),
    ensures
        r.glyphs.wf(),
        r.with(final(w)@) == members_drawn(
            sheet.with(old(w)@),
            data@,
            doc.pages@,
            layers@,
            n@,
            font_of(font),
            layers@.len() as int,
        ),
{
    let ghost before = sheet.with(w@);
    let mut r = sheet;
    let mut k: usize = 0;
    while k < layers.len()
        invariant
            k <= layers@.len(),
            n@.len() == layers@.len(),
            r.glyphs.wf(),
            font matches Some(f) ==> f.wf(),
            r.with(w@) == members_drawn(
                before,
                data@,
                doc.pages@,
                layers@,
                n@,
                font_of(font),
                k as int,
            ),
        decreases layers@.len() - k,
    {
        r = lay_member(w, r, data, doc, &layers[k], &n[k], font);
        k += 1;
    }
    r
}

// --------------------------------------------------------------- laws

/// Laying a drawing on a page leaves the objects that were there.
pub proof fn law_drawing_keeps_objects(
    s: SheetModel,
    data: Seq<u8>,
    meta: Metafile,
    n: LayerModel,
    stored: Seq<Page>,
    tag: Seq<char>,
    font: Option<Font>,
)
    ensures
        starts_with(drawing_laid(s, data, meta, n, stored, tag, font).objects, s.objects),
{
    let masks = masks_of(Format::Pdf, data, meta@, stored);
    law_embedding_keeps_objects(s.objects, Seq::empty(), data, meta@, stored, masks, tag);
    assert(s.objects.take(s.objects.len() as int) =~= s.objects);
}

/// Laying overlays on a page leaves the objects that were there.
pub proof fn law_overlays_keep_objects(
    s: SheetModel,
    data: Seq<u8>,
    layers: Seq<OverlayLayer>,
    n: Seq<LayerNumbers>,
    group: Seq<Page>,
    font: Option<Font>,
    k: int,
)
    ensures
        starts_with(overlays_drawn(s, data, layers, n, group, font, k).objects, s.objects),
    decreases k,
{
    if k <= 0 {
        assert(s.objects.take(s.objects.len() as int) =~= s.objects);
    } else {
        law_overlays_keep_objects(s, data, layers, n, group, font, k - 1);
        let b = overlays_drawn(s, data, layers, n, group, font, k - 1);
        let tag = tagged(""@, "O"@, layers[k - 1].number as nat);
        let stored = callable(layers[k - 1], group);
        law_drawing_keeps_objects(b, data, layers[k - 1].drawing, n[k - 1]@, stored, tag, font);
        let c = overlays_drawn(s, data, layers, n, group, font, k);
        assert(c.objects.take(s.objects.len() as int) =~= b.objects.take(s.objects.len() as int));
    }
}

/// Laying the bodies of a displayed page on it leaves the objects that were
/// there.
pub proof fn law_members_keep_objects(
    s: SheetModel,
    data: Seq<u8>,
    pages: Seq<Page>,
    layers: Seq<MemberLayer>,
    n: Seq<MemberNumbers>,
    font: Option<Font>,
    k: int,
)
    ensures
        starts_with(members_drawn(s, data, pages, layers, n, font, k).objects, s.objects),
    decreases k,
{
    if k <= 0 {
        assert(s.objects.take(s.objects.len() as int) =~= s.objects);
    } else {
        law_members_keep_objects(s, data, pages, layers, n, font, k - 1);
        let b = members_drawn(s, data, pages, layers, n, font, k - 1);
        let layer = layers[k - 1];
        let c = member_drawn(b, data, pages, layer, n[k - 1], font);
        assert(starts_with(c.objects, b.objects)) by {
            assert(b.objects.take(b.objects.len() as int) =~= b.objects);
            if layer.page_index < pages.len() {
                let page = pages[layer.page_index as int];
                let tag = tagged(""@, "D"@, layer.number as nat);
                match layer.body {
                    Body::Picture => {
                        assert(c.objects.take(b.objects.len() as int) =~= b.objects);
                    },
                    Body::Drawing(m) => {
                        let stored = pages.filter(|p: Page| is_picture_on(p, page.index));
                        law_drawing_keeps_objects(b, data, m, n[k - 1].layer@, stored, tag, font);
                    },
                }
            }
        }
        assert(c.objects.take(s.objects.len() as int) =~= b.objects.take(s.objects.len() as int));
    }
}

/// The picture of a page goes into the file octet for octet: the object that is
/// made for it is a stream whose payload is the page's own.
pub proof fn law_picture_is_kept(
    s: SheetModel,
    data: Seq<u8>,
    page: Page,
    name: Seq<char>,
    at: PlaceNumbers,
    turn: Option<Seq<char>>,
    offset: usize,
    len: usize,
)
    requires
        page.data == (PageData::Jpeg { offset, len }),
        offset + len <= data.len(),
    ensures
        ({
            let after = picture_laid(s, data, page, name, at, turn);
            let body = after.objects.last()->0;
            &&& after.objects.len() == s.objects.len() + 1
            &&& after.objects.last() is Some
            &&& exists|p: int|
                0 <= p && p + len <= body.len() && #[trigger] body.subrange(p, p + len)
                    == data.subrange(offset as int, offset + len)
        }),
{
    let stream = data.subrange(offset as int, offset + len);
    let own = jpeg_info(stream);
    let dict = jpeg_dict(declared_size(own, page.pixels), declared_components(own));
    law_payload_is_kept(dict, stream);
    let p = octets(with_length(dict, stream.len())).len() + octets("\nstream\n"@).len();
    let body = picture_laid(s, data, page, name, at, turn).objects.last()->0;
    assert(body.subrange(p as int, p + len) == stream);
}

} // verus!
