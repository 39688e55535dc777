//! What holds of every page that a metafile draws.
use crate::domain::rendering::{
    FigureModel, MetafileModel, PathModel, RasterModel, RasterOp, Source,
};
use crate::infrastructure::emf;
use crate::infrastructure::gdi::CanvasModel;
use crate::infrastructure::octets::{i32_of, u16_of};
use crate::infrastructure::wmf;
use vstd::prelude::*;

verus! {

/// Saving the device context and restoring the newest brings it back, whatever
/// was drawn and changed between, as long as nothing else was saved or restored
/// for good.
pub proof fn law_restore_undoes_changes(c: CanvasModel, later: CanvasModel)
    requires
        later.saved_states == c.saving().saved_states,
    ensures
        later.restoring((-1) as i32).state == c.state,
        later.restoring((-1) as i32).saved_states == c.saved_states,
        later.restoring((-1) as i32).page == later.page,
{
    assert(c.saving().saved_states.take(c.saved_states.len() as int) =~= c.saved_states);
}

/// Restoring a level forgets it and every newer one, and keeps the older ones.
pub proof fn law_restore_forgets_newer(c: CanvasModel, level: i32)
    requires
        0 < level <= c.saved_states.len(),
    ensures
        c.restoring(level).state == c.saved_states[level - 1],
        c.restoring(level).saved_states.len() == level - 1,
        forall|i: int|
            0 <= i < level - 1 ==> #[trigger] c.restoring(level).saved_states[i]
                == c.saved_states[i],
{
}

/// A clip path that is stored.
pub open spec fn clip_ok(clip_path: Option<usize>, paths: Seq<PathModel>) -> bool {
    match clip_path {
        Some(k) => k < paths.len(),
        None => true,
    }
}

/// A picture that is carried in the page, where it is said to be.
pub open spec fn source_ok(source: Source, rasters: Seq<RasterModel>) -> bool {
    match source {
        Source::Inline(k) => k < rasters.len(),
        Source::Stored { .. } => true,
    }
}

/// Every picture and every clip path that the page refers to is stored in it,
/// and every character has its place.
pub open spec fn refers_well(p: MetafileModel) -> bool {
    &&& forall|i: int|
        0 <= i < p.images.len() ==> source_ok((#[trigger] p.images[i]).source, p.rasters)
            && clip_ok(p.images[i].clip_path, p.paths)
    &&& forall|i: int| 0 <= i < p.fills.len() ==> clip_ok((#[trigger] p.fills[i]).clip_path, p.paths)
    &&& forall|i: int|
        0 <= i < p.text.len() ==> (#[trigger] p.text[i]).xs.len() == p.text[i].chars.len()
}

/// Everything of a kind is in draw order, up to `n`.
pub open spec fn in_draw_order(p: MetafileModel, n: int) -> bool {
    &&& forall|i: int, j: int|
        0 <= i < j < p.text.len() ==> (#[trigger] p.text[i]).order < (#[trigger] p.text[j]).order
    &&& forall|i: int| 0 <= i < p.text.len() ==> (#[trigger] p.text[i]).order <= n
    &&& forall|i: int, j: int|
        0 <= i < j < p.images.len() ==> (#[trigger] p.images[i]).order < (
        #[trigger] p.images[j]).order
    &&& forall|i: int| 0 <= i < p.images.len() ==> (#[trigger] p.images[i]).order <= n
    &&& forall|i: int, j: int|
        0 <= i < j < p.fills.len() ==> (#[trigger] p.fills[i]).order < (
        #[trigger] p.fills[j]).order
    &&& forall|i: int| 0 <= i < p.fills.len() ==> (#[trigger] p.fills[i]).order <= n
    &&& forall|i: int, j: int|
        0 <= i < j < p.shapes.len() ==> (#[trigger] p.shapes[i]).order < (
        #[trigger] p.shapes[j]).order
    &&& forall|i: int| 0 <= i < p.shapes.len() ==> (#[trigger] p.shapes[i]).order <= n
}

/// What every operation keeps.
#[verifier::opaque]
pub open spec fn sound(c: CanvasModel) -> bool {
    &&& refers_well(c.page)
    &&& in_draw_order(c.page, c.order as int)
    &&& clip_ok(c.state.clip_path, c.page.paths)
    &&& forall|k: int|
        0 <= k < c.saved_states.len() ==> clip_ok(
            (#[trigger] c.saved_states[k]).clip_path,
            c.page.paths,
        )
    &&& match c.picture {
        Some(source) => source_ok(source, c.page.rasters),
        None => true,
    }
}

/// The operation keeps the canvas sound and advances the draw order by at most
/// one.
pub open spec fn keeps(a: CanvasModel, b: CanvasModel) -> bool {
    sound(a) && a.order < usize::MAX ==> sound(b) && b.order <= a.order + 1
}

/// Nothing that is drawn changes.
pub open spec fn same_drawing(a: CanvasModel, b: CanvasModel) -> bool {
    &&& b.page.text == a.page.text
    &&& b.page.images == a.page.images
    &&& b.page.fills == a.page.fills
    &&& b.page.shapes == a.page.shapes
    &&& b.page.rasters == a.page.rasters
    &&& b.page.paths == a.page.paths
    &&& b.order == a.order
    &&& b.picture == a.picture
    &&& b.saved_states == a.saved_states
    &&& b.state.clip_path == a.state.clip_path || b.state.clip_path is None
}

proof fn lemma_same_drawing(a: CanvasModel, b: CanvasModel)
    requires
        same_drawing(a, b),
    ensures
        sound(a) ==> sound(b),
{
    reveal(sound);
}

/// What was saved is as sound as what is in force.
proof fn lemma_saving(c: CanvasModel, level: i32)
    ensures
        sound(c) ==> sound(c.saving()) && sound(c.restoring(level)),
{
    reveal(sound);
}

proof fn lemma_painting(c: CanvasModel, path: PathModel, fill: bool, stroke: bool)
    ensures
        keeps(c, c.advanced().painting(path, fill, stroke, c.advanced().order)),
{
    reveal(sound);
    let d = c.advanced().painting(path, fill, stroke, c.advanced().order);
    if sound(c) && c.order < usize::MAX {
        assert forall|i: int, j: int| 0 <= i < j < d.page.shapes.len() implies (
        #[trigger] d.page.shapes[i]).order < (#[trigger] d.page.shapes[j]).order by {
            if j == c.page.shapes.len() {
                assert(d.page.shapes[i] == c.page.shapes[i]);
            } else {
                assert(d.page.shapes[i] == c.page.shapes[i]);
                assert(d.page.shapes[j] == c.page.shapes[j]);
            }
        }
        assert forall|i: int| 0 <= i < d.page.shapes.len() implies (
        #[trigger] d.page.shapes[i]).order <= d.order by {
            if i < c.page.shapes.len() {
                assert(d.page.shapes[i] == c.page.shapes[i]);
            }
        }
    }
}

proof fn lemma_polygon(c: CanvasModel, points: Seq<(i32, i32)>, closed: bool)
    ensures
        keeps(c, c.drawing_polygon(points, closed)),
{
    reveal(sound);
    if points.len() >= 2 {
        lemma_painting(
            c,
            PathModel {
                figures: seq![
                    crate::infrastructure::gdi::line_figure(
                        crate::infrastructure::gdi::mapped(c.state, points),
                        closed,
                    ),
                ],
                even_odd: c.state.even_odd,
            },
            closed,
            true,
        );
    }
}

proof fn lemma_figure(c: CanvasModel, f: FigureModel)
    ensures
        keeps(c, c.drawing_figure(f)),
{
    lemma_painting(c, PathModel { figures: seq![f], even_odd: c.state.even_odd }, true, true);
}

proof fn lemma_ellipse(c: CanvasModel, l: i32, t: i32, r: i32, b: i32)
    ensures
        keeps(c, c.drawing_ellipse(l, t, r, b)),
{
    reveal(sound);
    let d = c.drawing_ellipse(l, t, r, b);
    if d != c.advanced() {
        let s = c.state;
        let x = crate::infrastructure::gdi::ordered_across(
            s,
            if r < l {
                r
            } else {
                l
            },
            if r < l {
                l
            } else {
                r
            },
        );
        let y = crate::infrastructure::gdi::ordered_down(
            s,
            if b < t {
                b
            } else {
                t
            },
            if b < t {
                t
            } else {
                b
            },
        );
        lemma_figure(c, crate::infrastructure::gdi::ellipse_figure(s, x, y));
    }
}

proof fn lemma_filling(c: CanvasModel, x: i32, y: i32, cx: i32, cy: i32)
    ensures
        keeps(c, c.filling(x, y, cx, cy)),
{
    reveal(sound);
    let d = c.filling(x, y, cx, cy);
    if sound(c) && c.order < usize::MAX {
        assert forall|i: int, j: int| 0 <= i < j < d.page.fills.len() implies (
        #[trigger] d.page.fills[i]).order < (#[trigger] d.page.fills[j]).order by {
            assert(d.page.fills[i] == c.page.fills[i]);
            if j < c.page.fills.len() {
                assert(d.page.fills[j] == c.page.fills[j]);
            }
        }
        assert forall|i: int| 0 <= i < d.page.fills.len() implies (
        #[trigger] d.page.fills[i]).order <= d.order && clip_ok(
            d.page.fills[i].clip_path,
            d.page.paths,
        ) by {
            if i < c.page.fills.len() {
                assert(d.page.fills[i] == c.page.fills[i]);
            }
        }
    }
}

proof fn lemma_placing(c: CanvasModel, source: Source, dst: (i32, i32, i32, i32), op: RasterOp)
    requires
        source_ok(source, c.page.rasters),
    ensures
        keeps(c, c.placing(source, dst, op)),
{
    reveal(sound);
    let d = c.placing(source, dst, op);
    if sound(c) && c.order < usize::MAX {
        assert forall|i: int, j: int| 0 <= i < j < d.page.images.len() implies (
        #[trigger] d.page.images[i]).order < (#[trigger] d.page.images[j]).order by {
            assert(d.page.images[i] == c.page.images[i]);
            if j < c.page.images.len() {
                assert(d.page.images[j] == c.page.images[j]);
            }
        }
        assert forall|i: int| 0 <= i < d.page.images.len() implies (
        #[trigger] d.page.images[i]).order <= d.order && clip_ok(
            d.page.images[i].clip_path,
            d.page.paths,
        ) && source_ok(d.page.images[i].source, d.page.rasters) by {
            if i < c.page.images.len() {
                assert(d.page.images[i] == c.page.images[i]);
            }
        }
    }
}

proof fn lemma_writing(c: CanvasModel, x: i32, y: i32, chars: Seq<char>, advances: Seq<i64>)
    ensures
        keeps(c, c.writing(x, y, chars, advances)),
{
    reveal(sound);
    let d = c.writing(x, y, chars, advances);
    if sound(c) && c.order < usize::MAX {
        assert forall|i: int, j: int| 0 <= i < j < d.page.text.len() implies (
        #[trigger] d.page.text[i]).order < (#[trigger] d.page.text[j]).order by {
            assert(d.page.text[i] == c.page.text[i]);
            if j < c.page.text.len() {
                assert(d.page.text[j] == c.page.text[j]);
            }
        }
        assert forall|i: int| 0 <= i < d.page.text.len() implies (
        #[trigger] d.page.text[i]).order <= d.order && d.page.text[i].xs.len()
            == d.page.text[i].chars.len() by {
            if i < c.page.text.len() {
                assert(d.page.text[i] == c.page.text[i]);
            }
        }
    }
}

proof fn lemma_raster(c: CanvasModel, r: RasterModel)
    requires
        c.page.rasters.len() < usize::MAX,
    ensures
        sound(c) ==> sound(c.with_raster(r)),
        source_ok(Source::Inline(c.page.rasters.len() as usize), c.with_raster(r).page.rasters),
{
    reveal(sound);
}

proof fn lemma_stretching(
    c: CanvasModel,
    info: Seq<u8>,
    bits: Seq<u8>,
    dst: (i32, i32, i32, i32),
    src: (i32, i32, i32, i32),
    rop: u32,
)
    requires
        c.page.rasters.len() < usize::MAX,
    ensures
        keeps(c, c.stretching(info, bits, dst, src, rop).1),
        c.stretching(info, bits, dst, src, rop).1.page.rasters.len() <= c.page.rasters.len() + 1,
{
    reveal(sound);
    match crate::infrastructure::dib::bitmap_of(info, bits) {
        None => {},
        Some(r) => {
            let op = crate::domain::rendering::raster_op(rop);
            let at = Source::Inline(c.page.rasters.len() as usize);
            let drawn = if rop == crate::infrastructure::gdi::MASK_PAINT {
                match c.state.brush {
                    Some(colour) => crate::infrastructure::comments::cropped(
                        RasterModel { stencil: Some(colour), ..r },
                        src,
                    ),
                    None => r,
                }
            } else if rop == crate::infrastructure::gdi::SRCAND {
                crate::infrastructure::comments::cropped(
                    if r.bits == 1 {
                        crate::infrastructure::comments::as_mask(r)
                    } else {
                        r
                    },
                    src,
                )
            } else {
                crate::infrastructure::comments::cropped(r, src)
            };
            lemma_raster(c, drawn);
            lemma_placing(c.with_raster(drawn), at, dst, op);
        },
    }
}

proof fn lemma_placing_current(
    c: CanvasModel,
    dst: (i32, i32, i32, i32),
    px: (i32, i32),
    op: RasterOp,
)
    ensures
        keeps(c, c.placing_current(dst, px, op).1),
        c.placing_current(dst, px, op).1.page.rasters.len() == c.page.rasters.len(),
{
    reveal(sound);
    if !(px.0 < 0 || px.1 < 0 || dst.2 <= 0 || dst.3 <= 0) {
        let size = (px.0 as u32, px.1 as u32);
        match c.picture {
            Some(Source::Stored { ordinal, .. }) => {
                let source = Source::Stored { ordinal, px: size };
                lemma_placing(CanvasModel { picture: Some(source), ..c }, source, dst, op);
            },
            Some(Source::Inline(index)) => {
                if op == RasterOp::And {
                    if index < c.page.rasters.len() {
                        lemma_placing(c.masking(index), Source::Inline(index), dst, op);
                    }
                } else if sound(c) {
                    lemma_placing(c, Source::Inline(index), dst, op);
                }
            },
            None => {
                let source = Source::Stored { ordinal: c.pictures_called, px: size };
                lemma_placing(
                    CanvasModel { picture: Some(source), ..c.naming_next() },
                    source,
                    dst,
                    op,
                );
            },
        }
    }
}

proof fn lemma_clip_path(c: CanvasModel)
    requires
        c.page.paths.len() < usize::MAX,
    ensures
        keeps(c, c.clipping_to_path()),
        c.clipping_to_path().page.paths.len() <= c.page.paths.len() + 1,
        c.clipping_to_path().page.rasters.len() == c.page.rasters.len(),
{
    reveal(sound);
}

proof fn lemma_heeding(c: CanvasModel, body: Seq<u8>)
    requires
        c.page.rasters.len() < usize::MAX,
        c.page.paths.len() < usize::MAX,
    ensures
        keeps(c, c.heeding(body).1),
        c.heeding(body).1.page.rasters.len() <= c.page.rasters.len() + 1,
        c.heeding(body).1.page.paths.len() <= c.page.paths.len() + 1,
{
    reveal(sound);
    match crate::infrastructure::comments::topic_of(body) {
        Some(crate::infrastructure::comments::Topic::PlacePicture) => {
            lemma_placing_by(c, body);
        },
        Some(crate::infrastructure::comments::Topic::PlacePicture16) => {
            lemma_placing_by(c, body);
        },
        Some(crate::infrastructure::comments::Topic::ClipPath) => {
            lemma_clip_path(c);
        },
        Some(crate::infrastructure::comments::Topic::FillPath) => {
            lemma_painting_path(c, true);
        },
        Some(crate::infrastructure::comments::Topic::StrokePath) => {
            lemma_painting_path(c, false);
        },
        Some(crate::infrastructure::comments::Topic::Geometry) => {
            match crate::infrastructure::points::points_of(body) {
                Some(points) => {
                    lemma_polygon(c, points, false);
                    lemma_polygon(c, points, true);
                },
                None => {},
            }
        },
        _ => {},
    }
}

proof fn lemma_painting_path(c: CanvasModel, fill: bool)
    ensures
        keeps(c, c.painting_path(fill)),
        c.painting_path(fill).page.rasters == c.page.rasters,
        c.painting_path(fill).page.paths == c.page.paths,
{
    reveal(sound);
    match c.path {
        Some(path) => {
            lemma_painting(
                CanvasModel { path: None, ..c },
                PathModel { even_odd: c.state.even_odd, ..path },
                fill,
                !fill,
            );
        },
        None => {},
    }
}

proof fn lemma_placing_by(c: CanvasModel, body: Seq<u8>)
    ensures
        keeps(c, c.placing_by(body).1),
        keeps(c, c.placing_by_16(body).1),
        c.placing_by(body).1.page.rasters.len() == c.page.rasters.len(),
        c.placing_by_16(body).1.page.rasters.len() == c.page.rasters.len(),
        c.placing_by(body).1.page.paths == c.page.paths,
        c.placing_by_16(body).1.page.paths == c.page.paths,
{
    assert forall|dst: (i32, i32, i32, i32), px: (i32, i32), op: RasterOp|
        keeps(c, #[trigger] c.placing_current(dst, px, op).1) && c.placing_current(
            dst,
            px,
            op,
        ).1.page.rasters.len() == c.page.rasters.len() by {
        lemma_placing_current(c, dst, px, op);
    }
}

/// There is room for one more of everything.
pub open spec fn has_room(c: CanvasModel) -> bool {
    c.order < usize::MAX && c.page.rasters.len() < usize::MAX && c.page.paths.len() < usize::MAX
}

/// At most one more of everything, and still sound.
pub open spec fn advances_soundly(a: CanvasModel, b: CanvasModel) -> bool {
    sound(a) && has_room(a) ==> {
        &&& sound(b)
        &&& b.order <= a.order + 1
        &&& b.page.rasters.len() <= a.page.rasters.len() + 1
        &&& b.page.paths.len() <= a.page.paths.len() + 1
    }
}

proof fn lemma_lining(c: CanvasModel, x: i32, y: i32)
    ensures
        advances_soundly(c, emf::lining(c, x, y)),
{
    reveal(sound);
    match c.state.moved {
        Some(from) => {
            lemma_polygon(c, seq![from, (x, y)], false);
        },
        None => {},
    }
}

/// Counting a record as skipped changes nothing that is drawn.
proof fn lemma_or_skipped(c: CanvasModel, r: (bool, CanvasModel), kind: u32)
    requires
        advances_soundly(c, r.1),
    ensures
        advances_soundly(c, emf::or_skipped(r, kind)),
{
    lemma_same_drawing(r.1, r.1.skipping(kind));
}

proof fn lemma_emf_drawing(c: CanvasModel, kind: u32, r: Seq<u8>)
    ensures
        advances_soundly(c, emf::drawing_record(c, kind, r)),
{
    lemma_same_drawing(c, c.skipping(kind));
    if kind == emf::EMR_LINETO {
        match emf::pair_of(r) {
            Some((x, y)) => lemma_lining(c, x, y),
            None => {},
        }
    } else if kind == emf::EMR_BITBLT {
        match emf::four_of(r, 24) {
            Some((x, y, cx, cy)) => lemma_filling(c, x, y, cx, cy),
            None => {},
        }
    } else if kind == emf::EMR_STRETCHDIBITS {
        lemma_emf_bitmap(c, r);
        lemma_or_skipped(c, emf::bitmap_record(c, r), kind);
    } else if kind == emf::EMR_RECTANGLE {
        match emf::four_of(r, 8) {
            Some((l, t, rt, b)) => lemma_polygon(c, emf::corners(l, t, rt, b), true),
            None => {},
        }
    } else if kind == emf::EMR_ELLIPSE {
        match emf::four_of(r, 8) {
            Some((l, t, rt, b)) => lemma_ellipse(c, l, t, rt, b),
            None => {},
        }
    } else if kind == emf::EMR_POLYGON || kind == emf::EMR_POLYLINE {
        match emf::wide_points(r) {
            Some(points) => lemma_polygon(c, points, kind == emf::EMR_POLYGON),
            None => {},
        }
    } else if kind == emf::EMR_POLYGON16 || kind == emf::EMR_POLYLINE16 {
        match emf::narrow_points(r) {
            Some(points) => lemma_polygon(c, points, kind == emf::EMR_POLYGON16),
            None => {},
        }
    } else if kind == emf::EMR_EXTTEXTOUTA || kind == emf::EMR_EXTTEXTOUTW {
        lemma_emf_text(c, r, kind == emf::EMR_EXTTEXTOUTW);
        lemma_or_skipped(c, emf::text_record(c, r, kind == emf::EMR_EXTTEXTOUTW), kind);
    } else if kind == emf::EMR_GDICOMMENT {
        match emf::comment_body(r) {
            Some(body) => {
                if has_room(c) {
                    lemma_heeding(c, body);
                }
                lemma_or_skipped(c, c.heeding(body), kind);
            },
            None => {},
        }
    }
}

proof fn lemma_emf_bitmap(c: CanvasModel, r: Seq<u8>)
    ensures
        advances_soundly(c, emf::bitmap_record(c, r).1),
{
    if has_room(c) {
        assert forall|
            info: Seq<u8>,
            bits: Seq<u8>,
            dst: (i32, i32, i32, i32),
            src: (i32, i32, i32, i32),
            rop: u32,
        | advances_soundly(c, #[trigger] c.stretching(info, bits, dst, src, rop).1) by {
            lemma_stretching(c, info, bits, dst, src, rop);
        }
    }
}

proof fn lemma_emf_text(c: CanvasModel, r: Seq<u8>, wide: bool)
    ensures
        advances_soundly(c, emf::text_record(c, r, wide).1),
{
    assert forall|x: i32, y: i32, chars: Seq<char>, advances: Seq<i64>|
        advances_soundly(c, #[trigger] c.writing(x, y, chars, advances)) by {
        lemma_writing(c, x, y, chars, advances);
    }
}

proof fn lemma_emf_record(c: CanvasModel, kind: u32, r: Seq<u8>)
    ensures
        advances_soundly(c, emf::after_record(c, kind, r)),
{
    match emf::state_record(c, kind, r) {
        Some(d) => {
            if kind == emf::EMR_SAVEDC || kind == emf::EMR_RESTOREDC {
                lemma_saving(
                    c,
                    match i32_of(r, 8) {
                        Some(level) => level,
                        None => 0,
                    },
                );
            } else {
                lemma_same_drawing(c, d);
            }
        },
        None => match emf::object_record(c, kind, r) {
            Some(d) => lemma_same_drawing(c, d),
            None => lemma_emf_drawing(c, kind, r),
        },
    }
}

proof fn lemma_emf_records(c: CanvasModel, d: Seq<u8>, at: int)
    requires
        sound(c),
        0 <= at <= d.len() <= usize::MAX,
        c.order <= at,
        c.page.rasters.len() <= at,
        c.page.paths.len() <= at,
    ensures
        sound(emf::after_records(c, d, at)),
    decreases d.len() - at,
{
    if at + emf::REC_HEAD <= d.len() {
        let kind = crate::infrastructure::octets::u32_of(d, at)->0;
        let size = crate::infrastructure::octets::u32_of(d, at + 4)->0;
        if !(size < emf::REC_HEAD || at + size > d.len()) {
            let r = d.subrange(at, at + size);
            lemma_emf_record(c, kind, r);
            lemma_emf_records(emf::after_record(c, kind, r), d, at + size);
        }
    }
}

/// Every picture and clip path that a page of an enhanced metafile refers to
/// is stored in the page, every character has its place, and everything of a
/// kind is in the order in which it was drawn.
pub proof fn law_emf_page(d: Seq<u8>)
    requires
        d.len() <= usize::MAX,
    ensures
        emf::emf_page(d) matches Some(p) ==> refers_well(p) && in_draw_order(p, usize::MAX as int),
{
    reveal(sound);
    lemma_emf_records(emf::header_canvas(d), d, 0);
}

proof fn lemma_wmf_bitmap(c: CanvasModel, r: Seq<u8>)
    ensures
        advances_soundly(c, wmf::bitmap_record(c, r).1),
{
    if has_room(c) {
        assert forall|
            info: Seq<u8>,
            bits: Seq<u8>,
            dst: (i32, i32, i32, i32),
            src: (i32, i32, i32, i32),
            rop: u32,
        | advances_soundly(c, #[trigger] c.stretching(info, bits, dst, src, rop).1) by {
            lemma_stretching(c, info, bits, dst, src, rop);
        }
    }
}

proof fn lemma_wmf_text(c: CanvasModel, r: Seq<u8>)
    ensures
        advances_soundly(c, wmf::text_record(c, r).1),
        advances_soundly(c, wmf::ext_text_record(c, r).1),
{
    assert forall|x: i32, y: i32, chars: Seq<char>, advances: Seq<i64>|
        advances_soundly(c, #[trigger] c.writing(x, y, chars, advances)) by {
        lemma_writing(c, x, y, chars, advances);
    }
}

proof fn lemma_wmf_escape(c: CanvasModel, r: Seq<u8>)
    ensures
        advances_soundly(c, wmf::escape_record(c, r).1),
{
    if has_room(c) {
        assert forall|body: Seq<u8>| advances_soundly(c, #[trigger] c.heeding(body).1) by {
            lemma_heeding(c, body);
        }
    }
}

proof fn lemma_wmf_drawing(c: CanvasModel, kind: u16, r: Seq<u8>)
    ensures
        advances_soundly(c, wmf::drawing_record(c, kind, r)),
{
    let number = kind as u32;
    lemma_same_drawing(c, c.skipping(number));
    if kind == wmf::META_PATBLT {
        match (
            wmf::parameter(r, 2),
            wmf::parameter(r, 3),
            wmf::parameter(r, 4),
            wmf::parameter(r, 5),
        ) {
            (Some(h), Some(w), Some(y), Some(x)) => lemma_filling(c, x, y, w, h),
            _ => {},
        }
    } else if kind == wmf::META_RECTANGLE {
        match wmf::box_of(r) {
            Some((l, t, rt, b)) => lemma_polygon(c, emf::corners(l, t, rt, b), true),
            None => {},
        }
    } else if kind == wmf::META_ELLIPSE {
        match wmf::box_of(r) {
            Some((l, t, rt, b)) => lemma_ellipse(c, l, t, rt, b),
            None => {},
        }
    } else if kind == wmf::META_POLYGON || kind == wmf::META_POLYLINE {
        match wmf::polygon_points(r) {
            Some(points) => lemma_polygon(c, points, kind == wmf::META_POLYGON),
            None => {},
        }
    } else if kind == wmf::META_LINETO {
        match wmf::point_of(r) {
            Some((x, y)) => lemma_lining(c, x, y),
            None => {},
        }
    } else if kind == wmf::META_STRETCHDIB {
        lemma_wmf_bitmap(c, r);
        lemma_or_skipped(c, wmf::bitmap_record(c, r), number);
    } else if kind == wmf::META_EXTTEXTOUT || kind == wmf::META_TEXTOUT {
        lemma_wmf_text(c, r);
        lemma_or_skipped(c, wmf::text_record(c, r), number);
        lemma_or_skipped(c, wmf::ext_text_record(c, r), number);
    } else if kind == wmf::META_ESCAPE {
        lemma_wmf_escape(c, r);
        lemma_or_skipped(c, wmf::escape_record(c, r), number);
    }
}

proof fn lemma_wmf_record(s: wmf::Slotted, kind: u16, r: Seq<u8>)
    ensures
        advances_soundly(s.canvas, wmf::after_record(s, kind, r).canvas),
{
    reveal(wmf::after_record);
    match wmf::state_record(s.canvas, kind, r) {
        Some(d) => {
            if kind == wmf::META_SAVEDC || kind == wmf::META_RESTOREDC {
                lemma_saving(
                    s.canvas,
                    match wmf::parameter(r, 0) {
                        Some(level) => level,
                        None => 0,
                    },
                );
            } else {
                lemma_same_drawing(s.canvas, d);
            }
        },
        None => match wmf::object_record(s, kind, r) {
            Some(t) => lemma_same_drawing(s.canvas, t.canvas),
            None => lemma_wmf_drawing(s.canvas, kind, r),
        },
    }
}

proof fn lemma_wmf_records(s: wmf::Slotted, d: Seq<u8>, at: int)
    requires
        sound(s.canvas),
        0 <= at <= d.len() <= usize::MAX,
        s.canvas.order <= at,
        s.canvas.page.rasters.len() <= at,
        s.canvas.page.paths.len() <= at,
    ensures
        sound(wmf::after_records(s, d, at).canvas),
    decreases d.len() - at,
{
    if at + 6 <= d.len() {
        let size = 2 * (crate::infrastructure::octets::u32_of(d, at)->0);
        let kind = crate::infrastructure::octets::u16_of(d, at + 4)->0;
        if !(size < 6 || at + size > d.len() || kind == wmf::META_EOF) {
            let r = d.subrange(at, at + size);
            lemma_wmf_record(s, kind, r);
            lemma_wmf_records(wmf::after_record(s, kind, r), d, at + size);
        }
    }
}

/// The same of a page of the older flavour.
pub proof fn law_wmf_page(d: Seq<u8>, paper_mm100: (i32, i32))
    requires
        d.len() <= usize::MAX,
    ensures
        wmf::wmf_page(d, paper_mm100) matches Some(p) ==> refers_well(p) && in_draw_order(
            p,
            usize::MAX as int,
        ),
{
    reveal(sound);
    if wmf::is_header(d) {
        lemma_wmf_records(
            wmf::Slotted {
                canvas: wmf::header_canvas(d, paper_mm100),
                slots: Seq::empty(),
            },
            d,
            wmf::HEADER as int,
        );
    }
}

/// The page keeps its frame.
pub open spec fn same_frame(a: CanvasModel, b: CanvasModel) -> bool {
    b.page.frame_mm100 == a.page.frame_mm100
}

proof fn lemma_text_frame(c: CanvasModel, r: Seq<u8>)
    ensures
        same_frame(c, wmf::text_record(c, r).1),
        same_frame(c, wmf::ext_text_record(c, r).1),
{
    assert forall|x: i32, y: i32, chars: Seq<char>, advances: Seq<i64>|
        same_frame(c, #[trigger] c.writing(x, y, chars, advances)) by {}
}

proof fn lemma_bitmap_frame(c: CanvasModel, r: Seq<u8>)
    ensures
        same_frame(c, wmf::bitmap_record(c, r).1),
{
    assert forall|
        info: Seq<u8>,
        bits: Seq<u8>,
        dst: (i32, i32, i32, i32),
        src: (i32, i32, i32, i32),
        rop: u32,
    | same_frame(c, #[trigger] c.stretching(info, bits, dst, src, rop).1) by {}
}

proof fn lemma_heeding_frame(c: CanvasModel, body: Seq<u8>)
    ensures
        same_frame(c, c.heeding(body).1),
{
    assert forall|dst: (i32, i32, i32, i32), px: (i32, i32), op: RasterOp|
        same_frame(c, #[trigger] c.placing_current(dst, px, op).1) by {}
    assert(same_frame(c, c.painting_path(true)) && same_frame(c, c.painting_path(false)));
    assert(same_frame(c, c.clipping_to_path()));
    assert(same_frame(c, c.drawing_points(body).1)) by {
        assert forall|points: Seq<(i32, i32)>, closed: bool|
            same_frame(c, #[trigger] c.drawing_polygon(points, closed)) by {}
    }
    assert(same_frame(c, c.naming_inline(body).1) && same_frame(c, c.naming_next()));
}

proof fn lemma_wmf_drawing_frame(c: CanvasModel, kind: u16, r: Seq<u8>)
    ensures
        same_frame(c, wmf::drawing_record(c, kind, r)),
{
    if kind == wmf::META_STRETCHDIB {
        lemma_bitmap_frame(c, r);
    } else if kind == wmf::META_EXTTEXTOUT || kind == wmf::META_TEXTOUT {
        lemma_text_frame(c, r);
    } else if kind == wmf::META_ESCAPE {
        assert forall|body: Seq<u8>| same_frame(c, #[trigger] c.heeding(body).1) by {
            lemma_heeding_frame(c, body);
        }
        assert(same_frame(c, wmf::escape_record(c, r).1));
    } else {
        assert forall|points: Seq<(i32, i32)>, closed: bool|
            same_frame(c, #[trigger] c.drawing_polygon(points, closed)) by {}
        assert forall|x: i32, y: i32, cx: i32, cy: i32|
            same_frame(c, #[trigger] c.filling(x, y, cx, cy)) by {}
        assert forall|l: i32, t: i32, rt: i32, b: i32|
            same_frame(c, #[trigger] c.drawing_ellipse(l, t, rt, b)) by {}
        assert forall|x: i32, y: i32| same_frame(c, #[trigger] emf::lining(c, x, y)) by {}
    }
}

proof fn lemma_wmf_frame(s: wmf::Slotted, kind: u16, r: Seq<u8>)
    ensures
        same_frame(s.canvas, wmf::after_record(s, kind, r).canvas),
{
    reveal(wmf::after_record);
    lemma_wmf_drawing_frame(s.canvas, kind, r);
}

proof fn lemma_wmf_frames(s: wmf::Slotted, d: Seq<u8>, at: int)
    ensures
        same_frame(s.canvas, wmf::after_records(s, d, at).canvas),
    decreases d.len() - at,
{
    if 0 <= at && at + 6 <= d.len() {
        let size = 2 * (crate::infrastructure::octets::u32_of(d, at)->0);
        let kind = u16_of(d, at + 4)->0;
        if !(size < 6 || at + size > d.len() || kind == wmf::META_EOF) {
            let r = d.subrange(at, at + size);
            lemma_wmf_frame(s, kind, r);
            lemma_wmf_frames(wmf::after_record(s, kind, r), d, at + size);
        }
    }
}

/// A file is read exactly where it starts with the header of the older
/// flavour: the words one, nine and one of two versions. Its page has the
/// frame of the paper, whatever its records hold.
pub proof fn law_wmf_frame(d: Seq<u8>, paper_mm100: (i32, i32))
    ensures
        wmf::is_header(d) == (d.len() >= 18 && d[0] == 1 && d[1] == 0 && d[2] == 9 && d[3] == 0
            && d[4] == 0 && (d[5] == 1 || d[5] == 3)),
        wmf::wmf_page(d, paper_mm100) is Some == wmf::is_header(d),
        wmf::wmf_page(d, paper_mm100) matches Some(p) ==> p.frame_mm100 == paper_mm100,
{
    if wmf::is_header(d) {
        lemma_wmf_frames(
            wmf::Slotted { canvas: wmf::header_canvas(d, paper_mm100), slots: Seq::empty() },
            d,
            wmf::HEADER as int,
        );
    }
}

} // verus!
