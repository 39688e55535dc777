//! Bitmaps drawn by a metafile, and the maker's private comments.
use crate::domain::rendering::{
    raster_models, raster_op, row_octets, same_path, Figure, FigureModel, MetafileModel, Path,
    PathModel, Point, Raster, RasterModel, RasterOp, Segment, Source,
};
use crate::infrastructure::dib::{bitmap_of, decode as decode_dib};
use crate::infrastructure::gdi::{
    bump, bumped, curve_figure, curves, line_figure, lines, make_curves, make_lines, map_points,
    mapped, Canvas, CanvasModel, State, MASK_PAINT, SRCAND, SRCCOPY,
};
use crate::infrastructure::octets::{
    i16_at, i16_of, i32_at, i32_of, u32_at, u32_of,
};
use crate::infrastructure::points::{
    decode_points, points_of, CODE_I16, CODE_I32, CODE_I8, CODE_NIBBLE,
};
use vstd::prelude::*;
use vstd::slice::slice_subrange;

verus! {

broadcast use vstd::std_specs::hash::group_hash_axioms;

// What the third octet of a geometry comment says the points are.
pub const OP_POLYLINE: u8 = 0x00;

pub const OP_LINE: u8 = 0x01;

pub const OP_POLYLINE_TO: u8 = 0x02;

pub const OP_POLYGON: u8 = 0x03;

pub const OP_EXTENDED_CONTINUE: u8 = 0x10;

pub const OP_EXTENDED_START: u8 = 0x11;

pub const OP_EXTENDED_APPEND: u8 = 0x12;

pub const OP_BEZIER: u8 = 0x13;

pub const OP_FILLED_POLYGON: u8 = 0x20;

pub const OP_LINE_DIRECT: u8 = 0x40;

/// Offsets in an inline picture count from the start of its record, which has
/// this many octets before the comment.
pub const RECORD_PREFIX: u32 = 12;

/// What a private comment is about.
#[derive(Debug, Clone, Copy, PartialEq, Eq, Structural)]
pub enum Topic {
    InlinePicture,
    NextPicture,
    PlacePicture,
    PlacePicture16,
    ClipRect,
    EndClipPath,
    BeginPath,
    ClipPath,
    FillPath,
    StrokePath,
    Geometry,
}

/// What a comment is about, from its first four octets; none for another
/// maker's.
pub open spec fn topic_of(body: Seq<u8>) -> Option<Topic> {
    if body.len() < 4 || body[0] != 0x44 || body[1] != 0x57 {
        None
    } else if body[2] == 0x61 && body[3] == 0 {
        Some(Topic::InlinePicture)
    } else if (body[2] == 0x62 && body[3] == 0) || (body[2] == 2 && body[3] == 1) {
        Some(Topic::NextPicture)
    } else if body[2] == 0x63 && body[3] == 0 {
        Some(Topic::PlacePicture)
    } else if body[2] == 2 && body[3] == 2 {
        Some(Topic::PlacePicture16)
    } else if body[2] == 0x30 && body[3] == 0x36 {
        Some(Topic::ClipRect)
    } else if body[2] == 0x30 && body[3] == 0x31 {
        Some(Topic::EndClipPath)
    } else if body[2] == 0x30 && body[3] == 0x32 {
        Some(Topic::BeginPath)
    } else if body[2] == 0x30 && body[3] == 0x33 {
        Some(Topic::ClipPath)
    } else if body[2] == 0x30 && body[3] == 0x34 {
        Some(Topic::FillPath)
    } else if body[2] == 0x30 && body[3] == 0x35 {
        Some(Topic::StrokePath)
    } else {
        Some(Topic::Geometry)
    }
}

fn read_topic(body: &[u8]) -> (r: Option<Topic>)
    ensures
        r == topic_of(body@),
{
    if body.len() < 4 || body[0] != 0x44 || body[1] != 0x57 {
        return None;
    }
    let topic = match (body[2], body[3]) {
        (0x61, 0) => Topic::InlinePicture,
        (0x62, 0) => Topic::NextPicture,
        (2, 1) => Topic::NextPicture,
        (0x63, 0) => Topic::PlacePicture,
        (2, 2) => Topic::PlacePicture16,
        (0x30, 0x36) => Topic::ClipRect,
        (0x30, 0x31) => Topic::EndClipPath,
        (0x30, 0x32) => Topic::BeginPath,
        (0x30, 0x33) => Topic::ClipPath,
        (0x30, 0x34) => Topic::FillPath,
        (0x30, 0x35) => Topic::StrokePath,
        _ => Topic::Geometry,
    };
    Some(topic)
}

// ------------------------------------------------------------ bitmaps

/// A monochrome mask in the common form: zero bits are painted black, one bits
/// leave what is there.
pub open spec fn as_mask(r: RasterModel) -> RasterModel {
    if r.stencil is Some {
        r
    } else {
        RasterModel {
            rows: if r.palette.len() > 1 && r.palette[1] == (0u8, 0u8, 0u8) {
                Seq::new(r.rows.len(), |i: int| (255 - r.rows[i]) as u8)
            } else {
                r.rows
            },
            stencil: Some((0, 0, 0)),
            ..r
        }
    }
}

/// Octets of one row.
pub open spec fn row_size(r: RasterModel) -> int {
    row_octets(r.width as int, r.bits as int)
}

/// The part of a bitmap given as x, y, width, height. Only whole rows are cut.
pub open spec fn cropped(r: RasterModel, src: (i32, i32, i32, i32)) -> RasterModel {
    let (sx, sy, sw, sh) = src;
    let first = if sy < 0 {
        0
    } else {
        sy as int
    };
    let end = if first + sh < r.height {
        first + sh
    } else {
        r.height as int
    };
    if sx != 0 || sw <= 0 || sh <= 0 || sw != r.width || first >= end || (first == 0 && end
        == r.height) {
        r
    } else {
        RasterModel {
            rows: r.rows.subrange(first * row_size(r), end * row_size(r)),
            height: (end - first) as u32,
            ..r
        }
    }
}

/// Turns a monochrome mask into the common form.
fn normalize_and_mask(raster: &mut Raster)
    ensures
        final(raster)@ == as_mask(old(raster)@),
{
    if raster.stencil.is_some() {
        return;
    }
    if raster.palette.len() > 1 && raster.palette[1].0 == 0 && raster.palette[1].1 == 0
        && raster.palette[1].2 == 0 {
        let ghost rows = raster.rows@;
        let mut i: usize = 0;
        while i < raster.rows.len()
            invariant
                i <= raster.rows@.len(),
                raster.rows@.len() == rows.len(),
                rows == old(raster).rows@,
                raster.width == old(raster).width,
                raster.height == old(raster).height,
                raster.bits == old(raster).bits,
                raster.palette == old(raster).palette,
                raster.stencil == old(raster).stencil,
                forall|k: int| 0 <= k < i ==> raster.rows@[k] == 255 - #[trigger] rows[k],
                forall|k: int| i <= k < rows.len() ==> raster.rows@[k] == #[trigger] rows[k],
            decreases raster.rows@.len() - i,
        {
            let b: u8 = raster.rows[i];
            raster.rows.set(i, 255 - b);
            i += 1;
        }
        proof {
            assert(raster.rows@ =~= Seq::new(rows.len(), |i: int| (255 - rows[i]) as u8));
        }
    }
    raster.stencil = Some((0, 0, 0));
}

/// Keeps only a part of a bitmap.
fn crop(raster: &mut Raster, src: (i32, i32, i32, i32))
    requires
        old(raster).full(),
        old(raster).measurable(),
    ensures
        final(raster)@ == cropped(old(raster)@, src),
{
    let (sx, sy, sw, sh) = src;
    if sx != 0 || sw <= 0 || sh <= 0 || sw as u32 != raster.width {
        return;
    }
    let height: u64 = raster.height as u64;
    let first: u64 = if sy < 0 {
        0
    } else {
        sy as u64
    };
    let end: u64 = if first + (sh as u64) < height {
        first + sh as u64
    } else {
        height
    };
    if first >= end || (first == 0 && end == height) {
        return;
    }
    let stride: usize = raster.stride();
    proof {
        assert(0 <= first * stride <= end * stride <= raster.height * stride) by (nonlinear_arith)
            requires
                0 <= first <= end <= raster.height,
                0 <= stride,
        ;
        assert(stride * raster.height == raster.height * stride) by (nonlinear_arith);
        assert(raster.rows.len() == raster.height * stride);
    }
    let a: usize = first as usize * stride;
    let b: usize = end as usize * stride;
    let part = slice_subrange(raster.rows.as_slice(), a, b);
    let mut rows: Vec<u8> = Vec::new();
    rows.extend_from_slice(part);
    proof {
        assert(rows@ =~= raster.rows@.subrange(a as int, b as int));
    }
    raster.rows = rows;
    raster.height = (end - first) as u32;
}

impl CanvasModel {
    /// The canvas with one more bitmap.
    pub open spec fn with_raster(self, r: RasterModel) -> CanvasModel {
        CanvasModel {
            page: MetafileModel { rasters: self.page.rasters.push(r), ..self.page },
            ..self
        }
    }

    /// The bitmap placed as the last one.
    pub open spec fn placing_raster(
        self,
        r: RasterModel,
        dst: (i32, i32, i32, i32),
        op: RasterOp,
    ) -> CanvasModel {
        self.with_raster(r).placing(Source::Inline(self.page.rasters.len() as usize), dst, op)
    }

    /// A bitmap carried in a record, drawn at a logical rectangle, and whether
    /// the record was understood. `src` is the part of the bitmap to draw; the
    /// raster operation decides whether it is a picture, a mask, or a stencil
    /// for the brush. A stencil without a brush leaves the page alone.
    pub open spec fn stretching(
        self,
        info: Seq<u8>,
        bits: Seq<u8>,
        dst: (i32, i32, i32, i32),
        src: (i32, i32, i32, i32),
        rop: u32,
    ) -> (bool, CanvasModel) {
        match bitmap_of(info, bits) {
            None => (false, self),
            Some(r) => if rop == MASK_PAINT {
                if r.bits != 1 {
                    (false, self)
                } else {
                    match self.state.brush {
                        None => (true, self.advanced()),
                        Some(colour) => (
                            true,
                            self.placing_raster(
                                cropped(RasterModel { stencil: Some(colour), ..r }, src),
                                dst,
                                raster_op(rop),
                            ),
                        ),
                    }
                }
            } else if rop == SRCAND {
                (
                    true,
                    self.placing_raster(
                        cropped(
                            if r.bits == 1 {
                                as_mask(r)
                            } else {
                                r
                            },
                            src,
                        ),
                        dst,
                        raster_op(rop),
                    ),
                )
            } else if rop == SRCCOPY {
                (true, self.placing_raster(cropped(r, src), dst, raster_op(rop)))
            } else {
                (false, self)
            },
        }
    }
}

impl Canvas {
    fn add_raster(&mut self, raster: Raster)
        ensures
            final(self)@ == old(self)@.with_raster(raster@),
    {
        let ghost m = raster@;
        self.page.rasters.push(raster);
        proof {
            assert(self@.page.rasters =~= old(self)@.page.rasters.push(m));
        }
    }

    /// A bitmap carried in the record, drawn at a logical rectangle. Returns
    /// whether the record was understood.
    pub fn stretch_dib(
        &mut self,
        info: &[u8],
        bits: &[u8],
        dst: (i32, i32, i32, i32),
        src: (i32, i32, i32, i32),
        rop: u32,
    ) -> (understood: bool)
        ensures
            (understood, final(self)@) == old(self)@.stretching(info@, bits@, dst, src, rop),
    {
        let mut raster = match decode_dib(info, bits) {
            Some(r) => r,
            None => {
                return false;
            },
        };
        if rop == MASK_PAINT {
            if raster.bits != 1 {
                return false;
            }
            match self.state.brush {
                Some(colour) => {
                    raster.stencil = Some(colour);
                },
                None => {
                    self.advance();
                    return true;
                },
            }
        } else if rop == SRCAND {
            if raster.bits == 1 {
                let ghost before = raster@;
                normalize_and_mask(&mut raster);
                proof {
                    assert(raster@.rows.len() == before.rows.len());
                }
            }
        } else if rop != SRCCOPY {
            return false;
        }
        crop(&mut raster, src);
        let index: usize = self.page.rasters.len();
        self.add_raster(raster);
        self.place(Source::Inline(index), dst, RasterOp::from_code(rop));
        true
    }
}

// ------------------------------------------------------------ pictures

/// A part of the comment, at an offset that counts from the start of the
/// record.
pub open spec fn record_part(body: Seq<u8>, off: u32, len: u32) -> Option<Seq<u8>> {
    if off < RECORD_PREFIX || off - RECORD_PREFIX + len > body.len() {
        None
    } else {
        Some(body.subrange(off - RECORD_PREFIX, off - RECORD_PREFIX + len))
    }
}

impl CanvasModel {
    /// The next stored picture is the one to place.
    pub open spec fn naming_next(self) -> CanvasModel {
        CanvasModel {
            picture: Some(Source::Stored { ordinal: self.pictures_called, px: (0, 0) }),
            pictures_called: bump(self.pictures_called),
            ..self
        }
    }

    /// A bitmap defined in a comment is the one to place.
    pub open spec fn naming_inline(self, body: Seq<u8>) -> (bool, CanvasModel) {
        match (u32_of(body, 4), u32_of(body, 8), u32_of(body, 12), u32_of(body, 16)) {
            (Some(off_bmi), Some(cb_bmi), Some(off_bits), Some(cb_bits)) => match (
                record_part(body, off_bmi, cb_bmi),
                record_part(body, off_bits, cb_bits),
            ) {
                (Some(info), Some(bits)) => match bitmap_of(info, bits) {
                    Some(r) => (
                        true,
                        CanvasModel {
                            picture: Some(Source::Inline(self.page.rasters.len() as usize)),
                            ..self.with_raster(r)
                        },
                    ),
                    None => (false, self),
                },
                _ => (false, self),
            },
            _ => (false, self),
        }
    }

    /// The canvas with the bitmap it is about to place in the form of a mask.
    pub open spec fn masking(self, index: usize) -> CanvasModel {
        CanvasModel {
            page: MetafileModel {
                rasters: self.page.rasters.update(
                    index as int,
                    as_mask(self.page.rasters[index as int]),
                ),
                ..self.page
            },
            ..self
        }
    }

    /// The current picture drawn at a logical rectangle; `px` is its stored
    /// size where the placement says, or zero where only the order identifies
    /// it. Without a current picture the next stored one is meant.
    pub open spec fn placing_current(
        self,
        dst: (i32, i32, i32, i32),
        px: (i32, i32),
        op: RasterOp,
    ) -> (bool, CanvasModel) {
        if px.0 < 0 || px.1 < 0 || dst.2 <= 0 || dst.3 <= 0 {
            (false, self)
        } else {
            let size = (px.0 as u32, px.1 as u32);
            match self.picture {
                Some(Source::Stored { ordinal, .. }) => {
                    let source = Source::Stored { ordinal, px: size };
                    (
                        true,
                        CanvasModel { picture: Some(source), ..self }.placing(source, dst, op),
                    )
                },
                Some(Source::Inline(index)) => if op == RasterOp::And {
                    if index >= self.page.rasters.len() || self.page.rasters[index as int].bits
                        != 1 {
                        (false, self)
                    } else {
                        (true, self.masking(index).placing(Source::Inline(index), dst, op))
                    }
                } else {
                    (true, self.placing(Source::Inline(index), dst, op))
                },
                None => {
                    let source = Source::Stored { ordinal: self.pictures_called, px: size };
                    (
                        true,
                        CanvasModel { picture: Some(source), ..self.naming_next() }.placing(
                            source,
                            dst,
                            op,
                        ),
                    )
                },
            }
        }
    }

    /// The current picture drawn where a comment says: logical origin, source
    /// size, raster operation and logical size.
    pub open spec fn placing_by(self, body: Seq<u8>) -> (bool, CanvasModel) {
        match (
            i32_of(body, 20),
            i32_of(body, 24),
            i32_of(body, 36),
            i32_of(body, 40),
            i32_of(body, 52),
            i32_of(body, 56),
        ) {
            (Some(x), Some(y), Some(sw), Some(sh), Some(w), Some(h)) => self.placing_current(
                (x, y, w, h),
                (sw, sh),
                match u32_of(body, 48) {
                    Some(code) => raster_op(code),
                    None => RasterOp::Copy,
                },
            ),
            _ => (false, self),
        }
    }

    /// The same with 16-bit values. Without any, the picture fills the clip
    /// rectangle set just before.
    pub open spec fn placing_by_16(self, body: Seq<u8>) -> (bool, CanvasModel) {
        if body.len() <= 4 {
            match self.state.clip_logical {
                Some((l, t, r, b)) => self.placing_current(
                    (l, t, r.wrapping_sub(l), b.wrapping_sub(t)),
                    (0, 0),
                    RasterOp::Copy,
                ),
                None => (false, self),
            }
        } else {
            match (
                i16_of(body, 4),
                i16_of(body, 6),
                i16_of(body, 8),
                i16_of(body, 10),
                i16_of(body, 16),
                i16_of(body, 18),
            ) {
                (Some(x), Some(y), Some(w), Some(h), Some(sw), Some(sh)) => self.placing_current(
                    (x as i32, y as i32, w as i32, h as i32),
                    (sw as i32, sh as i32),
                    RasterOp::Copy,
                ),
                _ => (false, self),
            }
        }
    }
}

fn part_of<'a>(body: &'a [u8], off: u32, len: u32) -> (r: Option<&'a [u8]>)
    ensures
        match (r, record_part(body@, off, len)) {
            (Some(v), Some(s)) => v@ == s,
            (None, None) => true,
            _ => false,
        },
{
    if off < RECORD_PREFIX {
        return None;
    }
    let start: u64 = (off - RECORD_PREFIX) as u64;
    if start + len as u64 > body.len() as u64 {
        return None;
    }
    Some(slice_subrange(body, start as usize, start as usize + len as usize))
}

impl Canvas {
    fn next_picture(&mut self)
        ensures
            final(self)@ == old(self)@.naming_next(),
    {
        self.picture = Some(Source::Stored { ordinal: self.pictures_called, px: (0, 0) });
        self.pictures_called = bumped(self.pictures_called);
    }

    /// A bitmap defined in the comment for later placements.
    fn inline_picture(&mut self, body: &[u8]) -> (understood: bool)
        ensures
            (understood, final(self)@) == old(self)@.naming_inline(body@),
    {
        match (u32_at(body, 4), u32_at(body, 8), u32_at(body, 12), u32_at(body, 16)) {
            (Some(off_bmi), Some(cb_bmi), Some(off_bits), Some(cb_bits)) => {
                match (part_of(body, off_bmi, cb_bmi), part_of(body, off_bits, cb_bits)) {
                    (Some(info), Some(bits)) => {
                        match decode_dib(info, bits) {
                            Some(raster) => {
                                let index: usize = self.page.rasters.len();
                                self.add_raster(raster);
                                self.picture = Some(Source::Inline(index));
                                true
                            },
                            None => false,
                        }
                    },
                    _ => false,
                }
            },
            _ => false,
        }
    }

    fn mask_raster(&mut self, index: usize)
        requires
            index < old(self)@.page.rasters.len(),
        ensures
            final(self)@ == old(self)@.masking(index),
    {
        let ghost before = self.page.rasters@;
        normalize_and_mask(&mut self.page.rasters[index]);
        proof {
            assert(self@.page.rasters =~= raster_models(before).update(
                index as int,
                as_mask(before[index as int]@),
            ));
        }
    }

    /// Draws the current picture. Returns whether there was one to draw.
    fn place_current(&mut self, dst: (i32, i32, i32, i32), px: (i32, i32), op: RasterOp) -> (
        understood: bool)
        ensures
            (understood, final(self)@) == old(self)@.placing_current(dst, px, op),
    {
        if px.0 < 0 || px.1 < 0 || dst.2 <= 0 || dst.3 <= 0 {
            return false;
        }
        let size: (u32, u32) = (px.0 as u32, px.1 as u32);
        match self.picture {
            Some(Source::Stored { ordinal, .. }) => {
                let source = Source::Stored { ordinal, px: size };
                self.picture = Some(source);
                self.place(source, dst, op);
            },
            Some(Source::Inline(index)) => {
                if op == RasterOp::And {
                    if index >= self.page.rasters.len() || self.page.rasters[index].bits != 1 {
                        return false;
                    }
                    self.mask_raster(index);
                }
                self.place(Source::Inline(index), dst, op);
            },
            None => {
                let source = Source::Stored { ordinal: self.pictures_called, px: size };
                self.next_picture();
                self.picture = Some(source);
                self.place(source, dst, op);
            },
        }
        true
    }

    fn place_picture(&mut self, body: &[u8]) -> (understood: bool)
        ensures
            (understood, final(self)@) == old(self)@.placing_by(body@),
    {
        match (
            i32_at(body, 20),
            i32_at(body, 24),
            i32_at(body, 36),
            i32_at(body, 40),
            i32_at(body, 52),
            i32_at(body, 56),
        ) {
            (Some(x), Some(y), Some(sw), Some(sh), Some(w), Some(h)) => {
                let op = match u32_at(body, 48) {
                    Some(code) => RasterOp::from_code(code),
                    None => RasterOp::Copy,
                };
                self.place_current((x, y, w, h), (sw, sh), op)
            },
            _ => false,
        }
    }

    fn place_picture_16(&mut self, body: &[u8]) -> (understood: bool)
        ensures
            (understood, final(self)@) == old(self)@.placing_by_16(body@),
    {
        if body.len() <= 4 {
            return match self.state.clip_logical {
                Some((l, t, r, b)) => self.place_current(
                    (l, t, r.wrapping_sub(l), b.wrapping_sub(t)),
                    (0, 0),
                    RasterOp::Copy,
                ),
                None => false,
            };
        }
        match (
            i16_at(body, 4),
            i16_at(body, 6),
            i16_at(body, 8),
            i16_at(body, 10),
            i16_at(body, 16),
            i16_at(body, 18),
        ) {
            (Some(x), Some(y), Some(w), Some(h), Some(sw), Some(sh)) => self.place_current(
                (x as i32, y as i32, w as i32, h as i32),
                (sw as i32, sh as i32),
                RasterOp::Copy,
            ),
            _ => false,
        }
    }
}

// ------------------------------------------------------------ paths

/// The path with one more figure.
pub open spec fn with_figure(path: PathModel, f: FigureModel) -> PathModel {
    PathModel { figures: path.figures.push(f), ..path }
}

/// The path with its last figure drawn on.
pub open spec fn with_segments(path: PathModel, more: Seq<Segment>) -> PathModel {
    let last = path.figures.last();
    PathModel {
        figures: path.figures.drop_last().push(
            FigureModel { segments: last.segments + more, ..last },
        ),
        ..path
    }
}

/// The path that the points of a comment go on; none where the operation draws
/// on no path. A list without points, which cannot come, changes nothing.
pub open spec fn path_with(path: PathModel, op: u8, pts: Seq<Point>) -> Option<PathModel> {
    if op == OP_POLYLINE || op == OP_POLYLINE_TO {
        Some(
            if path.figures.len() > 0 {
                with_segments(path, lines(pts, 0))
            } else if pts.len() > 0 {
                with_figure(path, line_figure(pts, false))
            } else {
                path
            },
        )
    } else if op == OP_LINE || op == OP_POLYGON {
        Some(
            if pts.len() > 0 {
                with_figure(path, line_figure(pts, op == OP_POLYGON))
            } else {
                path
            },
        )
    } else if op == OP_EXTENDED_START || op == OP_EXTENDED_CONTINUE || op == OP_EXTENDED_APPEND {
        Some(
            if pts.len() == 0 {
                path
            } else if op == OP_EXTENDED_START || path.figures.len() == 0 {
                with_figure(path, curve_figure(pts, false))
            } else {
                with_segments(path, curves(pts, 0))
            },
        )
    } else if op == OP_BEZIER {
        Some(
            if pts.len() > 0 {
                with_figure(path, curve_figure(pts, true))
            } else {
                path
            },
        )
    } else {
        None
    }
}

/// The operation draws on the path under construction.
pub open spec fn builds_path(op: u8) -> bool {
    op == OP_POLYLINE || op == OP_POLYLINE_TO || op == OP_LINE || op == OP_POLYGON || op
        == OP_EXTENDED_START || op == OP_EXTENDED_CONTINUE || op == OP_EXTENDED_APPEND || op
        == OP_BEZIER
}

impl CanvasModel {
    /// Geometry comments: points that are painted straight away or go on the
    /// path under construction.
    pub open spec fn drawing_points(self, body: Seq<u8>) -> (bool, CanvasModel) {
        let op = body[2];
        let code = body[3];
        if code != CODE_I32 && code != CODE_I16 && code != CODE_I8 && code != CODE_NIBBLE {
            (false, self)
        } else {
            match points_of(body) {
                None => (false, self),
                Some(points) => if op == OP_LINE_DIRECT {
                    (true, self.drawing_polygon(points, false))
                } else if op == OP_FILLED_POLYGON {
                    (true, self.drawing_polygon(points, true))
                } else {
                    match self.path {
                        Some(path) => match path_with(path, op, mapped(self.state, points)) {
                            Some(longer) => (true, CanvasModel { path: Some(longer), ..self }),
                            None => (false, self),
                        },
                        None => (false, self),
                    }
                },
            }
        }
    }

    /// The path under construction becomes the clip path. The last path is not
    /// stored again: gradients clip every sliver to the same outline.
    pub open spec fn clipping_to_path(self) -> CanvasModel {
        match self.path {
            None => self,
            Some(path) => {
                let n = self.page.paths.len();
                if n > 0 && same_path(self.page.paths.last(), path) {
                    CanvasModel {
                        path: None,
                        state: State { clip_path: Some((n - 1) as usize), ..self.state },
                        ..self
                    }
                } else {
                    CanvasModel {
                        path: None,
                        state: State { clip_path: Some(n as usize), ..self.state },
                        page: MetafileModel { paths: self.page.paths.push(path), ..self.page },
                        ..self
                    }
                }
            },
        }
    }

    /// The path under construction is painted, with the brush or the pen.
    pub open spec fn painting_path(self, fill: bool) -> CanvasModel {
        let c = self.advanced();
        match self.path {
            None => c,
            Some(path) => CanvasModel { path: None, ..c }.painting(
                PathModel { even_odd: self.state.even_odd, ..path },
                fill,
                !fill,
                c.order,
            ),
        }
    }

    /// What a private comment does, and whether it was understood.
    pub open spec fn heeding(self, body: Seq<u8>) -> (bool, CanvasModel) {
        match topic_of(body) {
            None => (false, self),
            Some(Topic::InlinePicture) => self.naming_inline(body),
            Some(Topic::NextPicture) => (true, self.naming_next()),
            Some(Topic::PlacePicture) => self.placing_by(body),
            Some(Topic::PlacePicture16) => self.placing_by_16(body),
            Some(Topic::ClipRect) => (
                true,
                match (i32_of(body, 4), i32_of(body, 8), i32_of(body, 12), i32_of(body, 16)) {
                    (Some(l), Some(t), Some(r), Some(b)) => self.clipping(l, t, r, b),
                    _ => self,
                },
            ),
            Some(Topic::EndClipPath) => (true, self),
            Some(Topic::BeginPath) => (
                true,
                CanvasModel {
                    path: Some(
                        PathModel { figures: Seq::empty(), even_odd: self.state.even_odd },
                    ),
                    ..self
                },
            ),
            Some(Topic::ClipPath) => (true, self.clipping_to_path()),
            Some(Topic::FillPath) => (true, self.painting_path(true)),
            Some(Topic::StrokePath) => (true, self.painting_path(false)),
            Some(Topic::Geometry) => self.drawing_points(body),
        }
    }
}

fn add_figure(path: &mut Path, figure: Figure)
    ensures
        final(path)@ == with_figure(old(path)@, figure@),
{
    let ghost m = figure@;
    path.figures.push(figure);
    proof {
        assert(path@.figures =~= old(path)@.figures.push(m));
    }
}

fn add_segments(path: &mut Path, more: Vec<Segment>)
    requires
        old(path)@.figures.len() > 0,
    ensures
        final(path)@ == with_segments(old(path)@, more@),
{
    let mut more = more;
    match path.figures.pop() {
        Some(mut last) => {
            last.segments.append(&mut more);
            let ghost m = last@;
            path.figures.push(last);
            proof {
                assert(path@.figures =~= old(path)@.figures.drop_last().push(m));
            }
        },
        None => {},
    }
}

fn lines_of(pts: &Vec<Point>, closed: bool) -> (f: Figure)
    requires
        pts@.len() > 0,
    ensures
        f@ == line_figure(pts@, closed),
{
    Figure { start: pts[0], segments: make_lines(pts, 1), closed }
}

fn curves_of(pts: &Vec<Point>, closed: bool) -> (f: Figure)
    requires
        pts@.len() > 0,
    ensures
        f@ == curve_figure(pts@, closed),
{
    Figure { start: pts[0], segments: make_curves(pts, 1), closed }
}

/// Draws on the path under construction. Returns whether the operation does.
fn extend_path(path: &mut Path, op: u8, pts: &Vec<Point>) -> (r: bool)
    ensures
        r == builds_path(op),
        match path_with(old(path)@, op, pts@) {
            Some(m) => r && final(path)@ == m,
            None => !r && final(path)@ == old(path)@,
        },
{
    match op {
        OP_POLYLINE | OP_POLYLINE_TO => {
            if path.figures.len() > 0 {
                add_segments(path, make_lines(pts, 0));
            } else if pts.len() > 0 {
                add_figure(path, lines_of(pts, false));
            }
            true
        },
        OP_LINE | OP_POLYGON => {
            if pts.len() > 0 {
                add_figure(path, lines_of(pts, op == OP_POLYGON));
            }
            true
        },
        OP_EXTENDED_START | OP_EXTENDED_CONTINUE | OP_EXTENDED_APPEND => {
            if pts.len() > 0 {
                if op == OP_EXTENDED_START || path.figures.len() == 0 {
                    add_figure(path, curves_of(pts, false));
                } else {
                    add_segments(path, make_curves(pts, 0));
                }
            }
            true
        },
        OP_BEZIER => {
            if pts.len() > 0 {
                add_figure(path, curves_of(pts, true));
            }
            true
        },
        _ => false,
    }
}

impl Canvas {
    fn geometry(&mut self, body: &[u8]) -> (understood: bool)
        requires
            body@.len() >= 4,
        ensures
            (understood, final(self)@) == old(self)@.drawing_points(body@),
    {
        let op: u8 = body[2];
        let code: u8 = body[3];
        if code != CODE_I32 && code != CODE_I16 && code != CODE_I8 && code != CODE_NIBBLE {
            return false;
        }
        let points = match decode_points(body) {
            Some(p) => p,
            None => {
                return false;
            },
        };
        if op == OP_LINE_DIRECT {
            self.polygon(points.as_slice(), false);
            return true;
        }
        if op == OP_FILLED_POLYGON {
            self.polygon(points.as_slice(), true);
            return true;
        }
        let pts = map_points(&self.state, points.as_slice());
        match self.path.take() {
            Some(path) => {
                let mut path = path;
                let r: bool = extend_path(&mut path, op, &pts);
                self.path = Some(path);
                r
            },
            None => false,
        }
    }

    fn clip_to_path(&mut self)
        ensures
            final(self)@ == old(self)@.clipping_to_path(),
    {
        match self.path.take() {
            Some(path) => {
                let n: usize = self.page.paths.len();
                if n > 0 && self.page.paths[n - 1].is_same(&path) {
                    self.state.clip_path = Some(n - 1);
                } else {
                    let ghost m = path@;
                    self.page.paths.push(path);
                    self.state.clip_path = Some(n);
                    proof {
                        assert(self@.page.paths =~= old(self)@.page.paths.push(m));
                    }
                }
            },
            None => {},
        }
    }

    fn paint_path(&mut self, fill: bool)
        ensures
            final(self)@ == old(self)@.painting_path(fill),
    {
        let order: usize = self.advance();
        match self.path.take() {
            Some(path) => {
                let path = Path { even_odd: self.state.even_odd, ..path };
                self.paint(path, fill, !fill, order);
            },
            None => {},
        }
    }

    /// Interprets one private comment. Returns whether it was understood.
    pub fn comment(&mut self, body: &[u8]) -> (understood: bool)
        ensures
            (understood, final(self)@) == old(self)@.heeding(body@),
    {
        match read_topic(body) {
            None => false,
            Some(Topic::InlinePicture) => self.inline_picture(body),
            Some(Topic::NextPicture) => {
                self.next_picture();
                true
            },
            Some(Topic::PlacePicture) => self.place_picture(body),
            Some(Topic::PlacePicture16) => self.place_picture_16(body),
            Some(Topic::ClipRect) => {
                match (i32_at(body, 4), i32_at(body, 8), i32_at(body, 12), i32_at(body, 16)) {
                    (Some(l), Some(t), Some(r), Some(b)) => {
                        self.set_clip_rect(l, t, r, b);
                    },
                    _ => {},
                }
                true
            },
            Some(Topic::EndClipPath) => true,
            Some(Topic::BeginPath) => {
                let path = Path { figures: Vec::new(), even_odd: self.state.even_odd };
                proof {
                    assert(path@.figures =~= Seq::<FigureModel>::empty());
                }
                self.path = Some(path);
                true
            },
            Some(Topic::ClipPath) => {
                self.clip_to_path();
                true
            },
            Some(Topic::FillPath) => {
                self.paint_path(true);
                true
            },
            Some(Topic::StrokePath) => {
                self.paint_path(false);
                true
            },
            Some(Topic::Geometry) => self.geometry(body),
        }
    }
}

} // verus!
