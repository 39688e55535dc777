//! The glyphs of a font that a document uses, taken out of the font file.
use crate::adapters::pdf::tables::{can_take_glyphs, is_takeable};
use subsetter::GlyphRemapper;
use vstd::prelude::*;

verus! {

/// The table of `subsetter` that gives glyphs new numbers.
#[verifier::external_type_specification]
#[verifier::external_body]
pub struct ExGlyphRemapper(GlyphRemapper);

/// The glyphs that a table holds, in the order of their new numbers.
pub uninterp spec fn glyph_order(m: GlyphRemapper) -> Seq<u16>;

/// The glyph stands at `n` and nowhere else.
pub open spec fn is_only_place(order: Seq<u16>, gid: u16, n: int) -> bool {
    0 <= n < order.len() && forall|i: int| 0 <= i < order.len() ==> (#[trigger] order[i] == gid <==> i == n)
}

/// `GlyphRemapper::new` makes a table that holds the glyph for unknown
/// characters and nothing else.
#[verifier::external_body]
pub(crate) fn new_order() -> (m: GlyphRemapper)
    ensures
        glyph_order(m) == seq![0u16],
{
    GlyphRemapper::new()
}

/// `GlyphRemapper::num_gids` counts the glyphs that a table holds.
#[verifier::external_body]
pub(crate) fn glyph_count(m: &GlyphRemapper) -> (n: u16)
    ensures
        n == glyph_order(*m).len(),
{
    m.num_gids()
}

/// `GlyphRemapper::get` gives a glyph's new number, if the table holds it. No
/// table holds a glyph twice.
#[verifier::external_body]
pub(crate) fn assigned(m: &GlyphRemapper, gid: u16) -> (r: Option<u16>)
    ensures
        match r {
            Some(n) => is_only_place(glyph_order(*m), gid, n as int),
            None => !glyph_order(*m).contains(gid),
        },
{
    m.get(gid)
}

/// `GlyphRemapper::remap` gives a glyph the next number, unless it has one. It
/// cannot count further than a 16-bit number goes.
#[verifier::external_body]
pub(crate) fn remap(m: &mut GlyphRemapper, gid: u16) -> (n: u16)
    requires
        glyph_order(*old(m)).contains(gid) || glyph_order(*old(m)).len() < 0xFFFF,
    ensures
        glyph_order(*final(m)) == (if glyph_order(*old(m)).contains(gid) {
            glyph_order(*old(m))
        } else {
            glyph_order(*old(m)).push(gid)
        }),
        is_only_place(glyph_order(*final(m)), gid, n as int),
{
    m.remap(gid)
}

/// The font file that `subsetter::subset` makes of the first font in `data`
/// for the glyphs in `order`; none where it refuses the font.
pub uninterp spec fn subset_outcome(data: Seq<u8>, order: Seq<u16>) -> Option<Seq<u8>>;

/// `subsetter::subset` takes glyphs out of a font file. What comes of it
/// depends on the file and on the glyphs alone. It counts glyphs, names and
/// lengths with 16-bit numbers, and stops the program where they run out. Fonts
/// whose compact outlines it would read are left out: there it also stops the
/// program at a real number that is too large, and it writes out nested
/// subroutines in full, which need not come to an end.
#[verifier::external_body]
fn subset_font(data: &[u8], m: &GlyphRemapper) -> (r: Option<Vec<u8>>)
    requires
        can_take_glyphs(data@, glyph_order(*m)),
    ensures
        match (r, subset_outcome(data@, glyph_order(*m))) {
            (Some(v), Some(s)) => v@ == s,
            (None, None) => true,
            _ => false,
        },
{
    subsetter::subset(data, 0, m).ok()
}

/// The font file for the glyphs in `order`; none where glyphs cannot be taken
/// out of the font.
pub open spec fn subset_of(data: Seq<u8>, order: Seq<u16>) -> Option<Seq<u8>> {
    if can_take_glyphs(data, order) {
        subset_outcome(data, order)
    } else {
        None
    }
}

/// Takes glyphs out of a font file.
pub(crate) fn take_glyphs(data: &[u8], m: &GlyphRemapper) -> (r: Option<Vec<u8>>)
    ensures
        match (r, subset_of(data@, glyph_order(*m))) {
            (Some(v), Some(s)) => v@ == s,
            (None, None) => true,
            _ => false,
        },
{
    if is_takeable(data, m) {
        subset_font(data, m)
    } else {
        None
    }
}

} // verus!
