//! One drawing on a sheet: what it shows, from the pictures it names to the
//! text over them.
use crate::adapters::drawing::{
    can_measure, draw_order, is_measurable, is_paint_order, lemma_one_paint_order,
    lemma_order_is_valid, mask_at, masked_pictures, masks_of, paint_order, starts_masked, Pictures,
};
use crate::adapters::html::page::HtmlDrawn;
use crate::adapters::html::svg::{
    draw_spans, draw_svg, masks_valid, runs_drawn, svg_drawn, SvgModel, SvgNumbers,
};
use crate::adapters::sheets::Format;
use crate::domain::page::Page;
use crate::domain::rendering::{Metafile, MetafileModel};
use vstd::prelude::*;
use vstd::string::*;

verus! {

proof fn lemma_masks_are_valid(data: Seq<u8>, m: MetafileModel, stored: Seq<Page>)
    ensures
        masks_valid(m, masks_of(Format::Html, data, m, stored)),
{
    let masks = masks_of(Format::Html, data, m, stored);
    assert forall|i: int| 0 <= i < masks.len() implies ((#[trigger] masks[i]) matches Some(k) ==> k
        < m.rasters.len() && crate::adapters::masks::is_mask(m.rasters[k as int])
        && m.rasters[k as int].width * m.rasters[k as int].height <= usize::MAX) by {
        assert(masks[i] == mask_at(Format::Html, data, m, stored, i));
        if masks[i] is Some {
            assert(starts_masked(Format::Html, data, m, stored, i));
        }
    }
}

/// How many of the characters are counted.
pub open spec fn counted_glyphs(m: MetafileModel, n: SvgModel) -> usize {
    let placed = runs_drawn(m, n, m.text.len() as int).1;
    if placed <= usize::MAX {
        placed as usize
    } else {
        usize::MAX
    }
}

/// A drawing that is shown: its device has an extent, and its bitmaps can be
/// measured.
pub open spec fn is_shown(m: Metafile) -> bool {
    m.device.0 > 0 && m.device.1 > 0 && is_measurable(m.rasters@)
}

/// Draws a drawing: the element with its pictures, fills and outlines, the
/// spans with its text, and what that came to; text counts as painted. A
/// drawing whose device has no extent, or with a bitmap too wide to be
/// measured, shows nothing.
pub fn draw_metafile(
    data: &[u8],
    meta: &Metafile,
    n: &SvgNumbers,
    no: usize,
    tag: &str,
    stored: &Vec<&Page>,
    alt: &str,
) -> (r: (String, String, HtmlDrawn))
    ensures
        is_shown(*meta) ==> {
            let p = svg_drawn(
                *meta,
                n@,
                no as nat,
                tag@,
                data@,
                stored@.unref(),
                masks_of(Format::Html, data@, meta@, stored@.unref()),
                alt@,
                paint_order(meta@, false),
            );
            &&& r.0@ == p.out
            &&& r.2.pictures == p.pictures
            &&& r.2.painted == (p.painted || counted_glyphs(meta@, n@) > 0)
            &&& r.1@ == runs_drawn(meta@, n@, meta@.text.len() as int).0
            &&& r.2.glyphs == counted_glyphs(meta@, n@)
        },
        !is_shown(*meta) ==> r.0@.len() == 0 && r.1@.len() == 0 && r.2
            == (HtmlDrawn { glyphs: 0, pictures: 0, painted: false }),
{
    if meta.device.0 <= 0 || meta.device.1 <= 0 || !can_measure(meta) {
        return (String::new(), String::new(), HtmlDrawn::default());
    }
    let pictures = Pictures::pair(meta, stored);
    let masks = masked_pictures(Format::Html, data, meta, stored, &pictures);
    let marks = draw_order(meta, false);
    proof {
        assert(meta.fills.len() == meta@.fills.len() && meta.images.len() == meta@.images.len()
            && meta.shapes.len() == meta@.shapes.len() && meta.text.len() == meta@.text.len());
        assert(masks@ =~= masks_of(Format::Html, data@, meta@, stored@.unref()));
        lemma_masks_are_valid(data@, meta@, stored@.unref());
        assert(is_paint_order(meta@, false, marks@));
        lemma_order_is_valid(meta@, false, marks@);
        lemma_one_paint_order(meta@, false, marks@);
    }
    let (svg, mut drawn) = draw_svg(
        meta,
        n,
        no,
        tag,
        data,
        stored,
        &pictures,
        &masks,
        alt,
        &marks,
    );
    let (spans, glyphs): (String, usize) = draw_spans(meta, n);
    drawn.glyphs = glyphs;
    drawn.painted = drawn.painted || glyphs > 0;
    (svg, spans, drawn)
}

} // verus!
