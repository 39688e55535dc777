//! One drawing on a sheet: the pictures it names go into the file, and its
//! parts become the content of the page.
use crate::adapters::drawing::{
    can_measure, draw_order, is_measurable, is_paint_order, lemma_one_paint_order,
    lemma_order_is_valid, masked_pictures, masks_of, paint_order, Pictures,
};
use crate::adapters::pdf::content::{
    blank_sheet, closed, paint, parts_painted, Numbers, NumbersModel, PaintModel, Painted,
};
use crate::adapters::pdf::fonts::{font_of, GlyphModel, Glyphs};
use crate::adapters::pdf::pictures::{embed_pictures, pictures_embedded};
use crate::adapters::pdf::writer::Writer;
use crate::adapters::sheets::Format;
use crate::domain::page::Page;
use crate::domain::rendering::{Metafile, MetafileModel};
use crate::infrastructure::ttf::Font;
use vstd::prelude::*;
use vstd::string::*;

verus! {

/// The page as far as a drawing paints it.
pub open spec fn page_painted(
    glyphs: GlyphModel,
    meta: MetafileModel,
    n: NumbersModel,
    masks: Seq<Option<usize>>,
    names: Seq<Seq<char>>,
    font: Option<Font>,
) -> PaintModel {
    let marks = paint_order(meta, true);
    closed(
        parts_painted(
            blank_sheet(glyphs),
            meta,
            n,
            masks,
            names,
            font,
            marks,
            marks.len() as int,
        ),
    )
}

/// The result is what has been painted.
pub open spec fn is_painted(r: Painted, p: PaintModel) -> bool {
    r.content@ == p.out && r.glyphs@ == p.glyphs && r.placed == p.placed && r.pictures
        == p.pictures && r.painted == p.painted
}

/// Draws a drawing: embeds its pictures and paints its parts in the order that
/// the source gave them. A drawing with a bitmap too wide to be measured shows
/// nothing.
pub fn draw_page(
    w: &mut Writer,
    data: &[u8],
    meta: &Metafile,
    numbers: &Numbers,
    stored: &Vec<&Page>,
    tag: &str,
    xobjects: &mut String,
    font: Option<&Font>,
    glyphs: Glyphs,
) -> (r: Painted)
    requires
        glyphs.wf(),
        font matches Some(f) ==> f.wf(),
    ensures
        r.glyphs.wf(),
        is_measurable(meta.rasters@) ==> {
            let masks = masks_of(Format::Pdf, data@, meta@, stored@.unref());
            let e = pictures_embedded(
                old(w)@,
                old(xobjects)@,
                data@,
                meta@,
                stored@.unref(),
                masks,
                tag@,
            );
            &&& final(w)@ == e.objects
            &&& final(xobjects)@ == e.resources
            &&& is_painted(
                r,
                page_painted(glyphs@, meta@, numbers@, masks, e.names, font_of(font)),
            )
        },
        !is_measurable(meta.rasters@) ==> final(w)@ == old(w)@ && final(xobjects)@ == old(
            xobjects,
        )@ && r.content@.len() == 0 && r.glyphs@ == glyphs@ && r.placed == 0 && r.pictures == 0
            && !r.painted,
{
    if !can_measure(meta) {
        return Painted {
            content: String::new(),
            glyphs,
            placed: 0,
            pictures: 0,
            painted: false,
        };
    }
    let pictures = Pictures::pair(meta, stored);
    let masks = masked_pictures(Format::Pdf, data, meta, stored, &pictures);
    proof {
        assert(masks@ =~= masks_of(Format::Pdf, data@, meta@, stored@.unref()));
    }
    let names = embed_pictures(w, data, meta, stored, &pictures, &masks, tag, xobjects);
    let marks = draw_order(meta, true);
    proof {
        assert(meta.fills.len() == meta@.fills.len() && meta.images.len() == meta@.images.len()
            && meta.shapes.len() == meta@.shapes.len() && meta.text.len() == meta@.text.len());
        assert(is_paint_order(meta@, true, marks@));
        lemma_order_is_valid(meta@, true, marks@);
        lemma_one_paint_order(meta@, true, marks@);
    }
    paint(meta, numbers, &masks, &names, &marks, font, glyphs)
}

} // verus!
