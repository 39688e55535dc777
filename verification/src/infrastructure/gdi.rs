//! The drawing state shared by the two metafile readers.
//!
//! Both flavours drive one model: a window origin that maps logical to device
//! coordinates, a table of fonts, pens and brushes selected into the device
//! context, a clip rectangle, and a path under construction. On top of that the
//! maker adds private comments of its own, which are the same in both flavours:
//! picture placement, clip rectangles, and path geometry in a compact point
//! coding. The canvas here interprets all of it and produces the domain's
//! [`Metafile`].
use crate::domain::rendering::{
    abs_i32, blank_page, figure_models, magnitude, BlendMode, Coord, Figure, FigureModel, Fill,
    FontKind, Hang, Image, Length, Metafile, MetafileModel, Path, PathModel, Point, RasterOp, Rect,
    Rgb, Segment, Shape, ShapeModel, Source, Text, TextModel,
};
pub use crate::infrastructure::octets::{i16_at, i32_at, u16_at, u32_at};
pub use crate::infrastructure::points::decode_points;
use std::collections::HashMap;
use vstd::prelude::*;

verus! {

broadcast use vstd::std_specs::hash::group_hash_axioms;

/// Copy the source over the destination.
pub const SRCCOPY: u32 = 0x00CC_0020;

/// Paint the brush where the source is black, leave the rest: how a monochrome
/// bitmap is drawn as a coloured stencil.
pub const MASK_PAINT: u32 = 0x00B8_074A;

/// Keep the destination where the source bitmap is white and clear it where
/// the source is black: how a monochrome mask is drawn.
pub const SRCAND: u32 = 0x0088_00C6;

/// Stock objects are selected by an index with the top bit set.
pub const STOCK: u32 = 0x8000_0000;

pub const NULL_BRUSH: u32 = 5;

pub const WHITE_PEN: u32 = 6;

pub const NULL_PEN: u32 = 8;

pub const TA_BASELINE: u32 = 24;

pub const TA_BOTTOM: u32 = 8;

pub const TA_RIGHT: u32 = 2;

pub const TA_CENTER: u32 = 6;

/// A face of this weight or more is bold.
pub const BOLD: i32 = 600;

/// The largest advance of a character, in half logical units.
pub const MAX_ADVANCE: i64 = 0x2_0000_0000;

/// A font as the metafile created it.
#[derive(Clone, Copy, Debug, PartialEq, Eq, Structural)]
pub struct Font {
    pub height: i32,
    pub escapement: i32,
    pub weight: i32,
    pub underline: bool,
    /// The font family selected by the source for this font object.
    pub kind: FontKind,
}

impl Font {
    /// The font before any is selected.
    pub open spec fn plain() -> Font {
        Font {
            height: 0,
            escapement: 0,
            weight: 0,
            underline: false,
            kind: FontKind::Japanese,
        }
    }
}

impl Default for Font {
    fn default() -> (f: Font)
        ensures
            f == Font::plain(),
    {
        Font {
            height: 0,
            escapement: 0,
            weight: 0,
            underline: false,
            kind: FontKind::Japanese,
        }
    }
}

/// What a selectable object is.
#[derive(Clone, Copy, Debug, PartialEq, Eq)]
pub enum Object {
    Font(Font),
    /// A brush; `None` paints nothing.
    Brush(Option<Rgb>),
    /// A pen with colour and width; `None` draws nothing.
    Pen(Option<(Rgb, Length)>),
    /// Something the maker created that is not interpreted. It still takes a
    /// slot, so later objects keep their numbers.
    Opaque,
}

/// What drawing depends on and a saved device context brings back.
#[derive(Clone, Copy, Debug, PartialEq, Eq)]
pub struct State {
    /// device = (logical - window_org) * viewport_ext / window_ext +
    /// viewport_org, without scaling unless both extents were given.
    pub window_org: (i32, i32),
    pub viewport_org: (i32, i32),
    pub window_ext: Option<(i32, i32)>,
    pub viewport_ext: Option<(i32, i32)>,
    pub font: Font,
    pub brush: Option<Rgb>,
    pub pen: Option<(Rgb, Length)>,
    pub align: u32,
    pub text_rgb: Rgb,
    pub even_odd: bool,
    /// Clip rectangle, if narrower than the page.
    pub clip: Option<Rect>,
    /// The last clip rectangle asked for, in logical units, whether or not it
    /// narrowed anything. The 16-bit flavour places pictures into it.
    pub clip_logical: Option<(i32, i32, i32, i32)>,
    /// Index into `page.paths` of the clip path in force.
    pub clip_path: Option<usize>,
    /// The current position, from which a line goes on.
    pub moved: Option<(i32, i32)>,
}

/// Accumulates drawing state and output while a metafile is walked.
#[derive(Debug)]
pub struct Canvas {
    pub page: Metafile,
    pub order: usize,
    pub state: State,
    pub objects: HashMap<u32, Object>,
    /// A path being built between the maker's begin and end comments.
    pub path: Option<Path>,
    /// Which picture the next placement draws.
    pub picture: Option<Source>,
    /// How many stored pictures have been called for.
    pub pictures_called: usize,
    /// Device contexts that were saved, the newest last.
    pub saved_states: Vec<State>,
}

/// A canvas as a value.
pub struct CanvasModel {
    pub page: MetafileModel,
    pub order: usize,
    pub state: State,
    pub objects: Map<u32, Object>,
    pub path: Option<PathModel>,
    pub picture: Option<Source>,
    pub pictures_called: usize,
    pub saved_states: Seq<State>,
}

/// A path that may be there, as a value.
pub open spec fn path_model(p: Option<Path>) -> Option<PathModel> {
    match p {
        Some(path) => Some(path@),
        None => None,
    }
}

impl View for Canvas {
    type V = CanvasModel;

    open spec fn view(&self) -> CanvasModel {
        CanvasModel {
            page: self.page@,
            order: self.order,
            state: self.state,
            objects: self.objects@,
            path: path_model(self.path),
            picture: self.picture,
            pictures_called: self.pictures_called,
            saved_states: self.saved_states@,
        }
    }
}

// ------------------------------------------------------------ small pieces

/// One more, up to the largest value.
pub open spec fn bump(n: usize) -> usize {
    if n < usize::MAX {
        (n + 1) as usize
    } else {
        n
    }
}

pub(crate) fn bumped(n: usize) -> (r: usize)
    ensures
        r == bump(n),
{
    if n < usize::MAX {
        n + 1
    } else {
        n
    }
}

/// The sum, or the limit of the type that it would pass.
pub open spec fn capped_sum(a: i32, b: i32) -> i32 {
    if a + b > i32::MAX {
        i32::MAX
    } else if a + b < i32::MIN {
        i32::MIN
    } else {
        (a + b) as i32
    }
}

fn sum_capped(a: i32, b: i32) -> (r: i32)
    ensures
        r == capped_sum(a, b),
{
    let s: i64 = a as i64 + b as i64;
    if s > i32::MAX as i64 {
        i32::MAX
    } else if s < i32::MIN as i64 {
        i32::MIN
    } else {
        s as i32
    }
}

/// The colour that a colour reference holds.
pub open spec fn colour_of(c: u32) -> Rgb {
    ((c % 0x100) as u8, (c / 0x100 % 0x100) as u8, (c / 0x1_0000 % 0x100) as u8)
}

/// The colour that a colour reference holds.
pub fn rgb(c: u32) -> (r: Rgb)
    ensures
        r == colour_of(c),
{
    ((c % 0x100) as u8, (c / 0x100 % 0x100) as u8, (c / 0x1_0000 % 0x100) as u8)
}

/// The device context at the start: a white brush and a black pen one pixel
/// wide.
pub open spec fn first_state() -> State {
    State {
        window_org: (0, 0),
        viewport_org: (0, 0),
        window_ext: None,
        viewport_ext: None,
        font: Font::plain(),
        brush: Some((255, 255, 255)),
        pen: Some(((0, 0, 0), Length::one())),
        align: 0,
        text_rgb: (0, 0, 0),
        even_odd: true,
        clip: None,
        clip_logical: None,
        clip_path: None,
        moved: Some((0, 0)),
    }
}

/// A canvas with nothing on it.
pub open spec fn first_canvas(device: (i32, i32), frame_mm100: (i32, i32)) -> CanvasModel {
    CanvasModel {
        page: blank_page(device, frame_mm100),
        order: 0,
        state: first_state(),
        objects: Map::empty(),
        path: None,
        picture: None,
        pictures_called: 0,
        saved_states: Seq::empty(),
    }
}

impl State {
    /// Pixels for each logical unit across: numerator and denominator.
    pub open spec fn across(self) -> (i32, i32) {
        match (self.window_ext, self.viewport_ext) {
            (Some(w), Some(v)) => (v.0, w.0),
            _ => (1, 1),
        }
    }

    /// Pixels for each logical unit down: numerator and denominator.
    pub open spec fn down(self) -> (i32, i32) {
        match (self.window_ext, self.viewport_ext) {
            (Some(w), Some(v)) => (v.1, w.1),
            _ => (1, 1),
        }
    }

    /// A position across, from parts of a logical unit.
    pub open spec fn across_at(self, offset: int, per: u32) -> Coord {
        Coord {
            offset: offset as i64,
            per,
            num: self.across().0,
            den: self.across().1,
            origin: self.viewport_org.0,
        }
    }

    /// A position down, from parts of a logical unit.
    pub open spec fn down_at(self, offset: int, per: u32) -> Coord {
        Coord {
            offset: offset as i64,
            per,
            num: self.down().0,
            den: self.down().1,
            origin: self.viewport_org.1,
        }
    }

    /// A logical point in device units.
    pub open spec fn point(self, x: i32, y: i32) -> Point {
        (
            self.across_at(x - self.window_org.0, 1),
            self.down_at(y - self.window_org.1, 1),
        )
    }

    /// A logical distance in device units.
    pub open spec fn length(self, units: u64) -> Length {
        Length { units, per: 1, num: self.down().0, den: self.down().1 }
    }

    fn scale(&self) -> (r: ((i32, i32), (i32, i32)))
        ensures
            r == (self.across(), self.down()),
    {
        match (self.window_ext, self.viewport_ext) {
            (Some(w), Some(v)) => ((v.0, w.0), (v.1, w.1)),
            _ => ((1, 1), (1, 1)),
        }
    }

    fn part_across(&self, offset: i64, per: u32) -> (c: Coord)
        ensures
            c == self.across_at(offset as int, per),
    {
        let s = self.scale().0;
        Coord { offset, per, num: s.0, den: s.1, origin: self.viewport_org.0 }
    }

    fn part_down(&self, offset: i64, per: u32) -> (c: Coord)
        ensures
            c == self.down_at(offset as int, per),
    {
        let s = self.scale().1;
        Coord { offset, per, num: s.0, den: s.1, origin: self.viewport_org.1 }
    }

    fn map(&self, x: i32, y: i32) -> (p: Point)
        ensures
            p == self.point(x, y),
    {
        let dx: i64 = x as i64 - self.window_org.0 as i64;
        let dy: i64 = y as i64 - self.window_org.1 as i64;
        (self.part_across(dx, 1), self.part_down(dy, 1))
    }
}

/// The rectangle between two corners.
pub open spec fn rect_of(a: Point, b: Point) -> Rect {
    Rect {
        left: if b.0.before(a.0) {
            b.0
        } else {
            a.0
        },
        top: if b.1.before(a.1) {
            b.1
        } else {
            a.1
        },
        right: if a.0.before(b.0) {
            b.0
        } else {
            a.0
        },
        bottom: if a.1.before(b.1) {
            b.1
        } else {
            a.1
        },
    }
}

fn make_rect(a: &Point, b: &Point) -> (r: Rect)
    ensures
        r == rect_of(*a, *b),
{
    Rect {
        left: if b.0.is_before(&a.0) {
            b.0
        } else {
            a.0
        },
        top: if b.1.is_before(&a.1) {
            b.1
        } else {
            a.1
        },
        right: if a.0.is_before(&b.0) {
            b.0
        } else {
            a.0
        },
        bottom: if a.1.is_before(&b.1) {
            b.1
        } else {
            a.1
        },
    }
}

/// The rectangle covers a page of the size.
pub open spec fn covers(r: Rect, device: (i32, i32)) -> bool {
    r.left.at_most(0) && r.top.at_most(0) && r.right.at_least(device.0) && r.bottom.at_least(
        device.1,
    )
}

/// Lines through the points from the second on.
pub open spec fn lines(pts: Seq<Point>, from: int) -> Seq<Segment> {
    Seq::new(
        (if from < pts.len() {
            pts.len() - from
        } else {
            0
        }) as nat,
        |i: int| Segment::Line(pts[from + i]),
    )
}

/// Curves through the points from `from` on, three for each; what is left over
/// is dropped.
pub open spec fn curves(pts: Seq<Point>, from: int) -> Seq<Segment> {
    Seq::new(
        (if from < pts.len() {
            (pts.len() - from) / 3
        } else {
            0
        }) as nat,
        |i: int|
            Segment::Curve(pts[from + 3 * i], pts[from + 3 * i + 1], pts[from + 3 * i + 2]),
    )
}

/// The points in device units.
pub open spec fn mapped(s: State, points: Seq<(i32, i32)>) -> Seq<Point> {
    Seq::new(points.len(), |i: int| s.point(points[i].0, points[i].1))
}

/// A figure of straight lines.
pub open spec fn line_figure(pts: Seq<Point>, closed: bool) -> FigureModel {
    FigureModel { start: pts[0], segments: lines(pts, 1), closed }
}

/// A figure of curves.
pub open spec fn curve_figure(pts: Seq<Point>, closed: bool) -> FigureModel {
    FigureModel { start: pts[0], segments: curves(pts, 1), closed }
}

pub(crate) fn map_points(s: &State, points: &[(i32, i32)]) -> (v: Vec<Point>)
    ensures
        v@ == mapped(*s, points@),
{
    let mut v: Vec<Point> = Vec::new();
    let mut i: usize = 0;
    while i < points.len()
        invariant
            i <= points@.len(),
            v@.len() == i,
            forall|k: int| 0 <= k < i ==> #[trigger] v@[k] == s.point(points@[k].0, points@[k].1),
        decreases points@.len() - i,
    {
        v.push(s.map(points[i].0, points[i].1));
        i += 1;
    }
    proof {
        assert(v@ =~= mapped(*s, points@));
    }
    v
}

pub(crate) fn make_lines(pts: &Vec<Point>, from: usize) -> (v: Vec<Segment>)
    ensures
        v@ == lines(pts@, from as int),
{
    let mut v: Vec<Segment> = Vec::new();
    let mut i: usize = from;
    while i < pts.len()
        invariant
            from <= i,
            i <= pts@.len() || i == from,
            v@.len() == i - from,
            forall|k: int| 0 <= k < v@.len() ==> #[trigger] v@[k] == Segment::Line(pts@[from + k]),
        decreases pts@.len() - i,
    {
        v.push(Segment::Line(pts[i]));
        i += 1;
    }
    proof {
        assert(v@ =~= lines(pts@, from as int));
    }
    v
}

pub(crate) fn make_curves(pts: &Vec<Point>, from: usize) -> (v: Vec<Segment>)
    requires
        from <= 1,
    ensures
        v@ == curves(pts@, from as int),
{
    let mut v: Vec<Segment> = Vec::new();
    if from >= pts.len() {
        proof {
            assert(v@ =~= curves(pts@, from as int));
        }
        return v;
    }
    let n: usize = (pts.len() - from) / 3;
    let mut i: usize = 0;
    while i < n
        invariant
            i <= n,
            from <= 1,
            n == (pts.len() - from) / 3,
            from < pts.len(),
            v@.len() == i,
            forall|k: int|
                0 <= k < v@.len() ==> #[trigger] v@[k] == Segment::Curve(
                    pts@[from + 3 * k],
                    pts@[from + 3 * k + 1],
                    pts@[from + 3 * k + 2],
                ),
        decreases n - i,
    {
        v.push(Segment::Curve(pts[from + 3 * i], pts[from + 3 * i + 1], pts[from + 3 * i + 2]));
        i += 1;
    }
    proof {
        assert(v@ =~= curves(pts@, from as int));
    }
    v
}

// ------------------------------------------------------------ what operations do

impl CanvasModel {
    /// The canvas with another device context.
    pub open spec fn with_state(self, state: State) -> CanvasModel {
        CanvasModel { state, ..self }
    }

    /// The canvas one step further in the draw order.
    pub open spec fn advanced(self) -> CanvasModel {
        CanvasModel { order: bump(self.order), ..self }
    }

    /// The canvas with one more record of the kind not drawn.
    pub open spec fn skipping(self, kind: u32) -> CanvasModel {
        let count = if self.page.skipped.contains_key(kind) {
            self.page.skipped[kind]
        } else {
            0
        };
        CanvasModel {
            page: MetafileModel {
                skipped: self.page.skipped.insert(kind, bump(count)),
                ..self.page
            },
            ..self
        }
    }

    /// The number of the device context that a level means: counted back from
    /// the newest where it is negative, and from one on where it is not.
    pub open spec fn saved_number(self, level: i32) -> int {
        if level < 0 {
            self.saved_states.len() + level
        } else {
            level - 1
        }
    }

    /// The canvas with its device context saved.
    pub open spec fn saving(self) -> CanvasModel {
        CanvasModel { saved_states: self.saved_states.push(self.state), ..self }
    }

    /// The canvas with a saved device context in force; that one and every
    /// newer one are no longer saved.
    pub open spec fn restoring(self, level: i32) -> CanvasModel {
        let k = self.saved_number(level);
        if 0 <= k < self.saved_states.len() {
            CanvasModel {
                state: self.saved_states[k],
                saved_states: self.saved_states.take(k),
                ..self
            }
        } else {
            self
        }
    }

    /// The canvas with an object selected.
    pub open spec fn selecting(self, handle: u32) -> CanvasModel {
        let s = self.state;
        self.with_state(
            if handle >= STOCK {
                let k = handle - STOCK;
                if k == 0 {
                    State { brush: Some((255, 255, 255)), ..s }
                } else if k == 1 {
                    State { brush: Some((192, 192, 192)), ..s }
                } else if k == 2 {
                    State { brush: Some((128, 128, 128)), ..s }
                } else if k == 3 {
                    State { brush: Some((64, 64, 64)), ..s }
                } else if k == 4 {
                    State { brush: Some((0, 0, 0)), ..s }
                } else if k == NULL_BRUSH {
                    State { brush: None, ..s }
                } else if k == WHITE_PEN {
                    State { pen: Some(((255, 255, 255), Length::one())), ..s }
                } else if k == 7 {
                    State { pen: Some(((0, 0, 0), Length::one())), ..s }
                } else if k == NULL_PEN {
                    State { pen: None, ..s }
                } else {
                    s
                }
            } else if self.objects.contains_key(handle) {
                match self.objects[handle] {
                    Object::Font(f) => State { font: f, ..s },
                    Object::Brush(b) => State { brush: b, ..s },
                    Object::Pen(p) => State { pen: p, ..s },
                    Object::Opaque => s,
                }
            } else {
                s
            },
        )
    }

    /// The canvas with drawing restricted to a logical rectangle. One that
    /// covers the page is no restriction; either lifts the clip path.
    pub open spec fn clipping(self, left: i32, top: i32, right: i32, bottom: i32) -> CanvasModel {
        let s = self.state;
        let rect = rect_of(s.point(left, top), s.point(right, bottom));
        self.with_state(
            State {
                clip_logical: Some((left, top, right, bottom)),
                clip: if self.page.device.0 <= 0 || covers(rect, self.page.device) {
                    None
                } else {
                    Some(rect)
                },
                clip_path: None,
                ..s
            },
        )
    }

    /// The canvas with the path painted, if brush or pen paints anything.
    pub open spec fn painting(
        self,
        path: PathModel,
        fill: bool,
        stroke: bool,
        order: usize,
    ) -> CanvasModel {
        let f = if fill {
            self.state.brush
        } else {
            None
        };
        let p = if stroke {
            self.state.pen
        } else {
            None
        };
        if f is None && p is None {
            self
        } else {
            CanvasModel {
                page: MetafileModel {
                    shapes: self.page.shapes.push(
                        ShapeModel {
                            path,
                            fill: f,
                            stroke: p,
                            blend: BlendMode::Normal,
                            order,
                            clip: self.state.clip,
                        },
                    ),
                    ..self.page
                },
                ..self
            }
        }
    }

    /// A polygon or polyline, painted with pen and brush.
    pub open spec fn drawing_polygon(self, points: Seq<(i32, i32)>, closed: bool) -> CanvasModel {
        let c = self.advanced();
        if points.len() < 2 {
            c
        } else {
            c.painting(
                PathModel {
                    figures: seq![line_figure(mapped(self.state, points), closed)],
                    even_odd: self.state.even_odd,
                },
                closed,
                true,
                c.order,
            )
        }
    }

    /// The clip path counts as a mask.
    pub open spec fn masks(self) -> usize {
        if self.state.clip_path is Some {
            bump(self.page.shape_masks)
        } else {
            self.page.shape_masks
        }
    }

    /// A rectangle painted with the brush. One without an area is not painted.
    pub open spec fn filling(self, x: i32, y: i32, cx: i32, cy: i32) -> CanvasModel {
        let c = self.advanced();
        let s = self.state;
        let (l, t) = s.point(x, y);
        let (r, b) = s.point(capped_sum(x, cx), capped_sum(y, cy));
        match s.brush {
            Some(rgb) => if l.before(r) && t.before(b) {
                CanvasModel {
                    page: MetafileModel {
                        shape_masks: self.masks(),
                        fills: self.page.fills.push(
                            Fill {
                                left: l,
                                top: t,
                                right: r,
                                bottom: b,
                                rgb,
                                blend: BlendMode::Normal,
                                order: c.order,
                                clip: s.clip,
                                clip_path: s.clip_path,
                            },
                        ),
                        ..self.page
                    },
                    ..c
                }
            } else {
                c
            },
            None => c,
        }
    }

    /// The size in pixels of the picture that a source names.
    pub open spec fn source_size(self, source: Source) -> (u32, u32) {
        match source {
            Source::Stored { px, .. } => px,
            Source::Inline(i) => if i < self.page.rasters.len() {
                (self.page.rasters[i as int].width, self.page.rasters[i as int].height)
            } else {
                (0, 0)
            },
        }
    }

    /// A picture placed at a logical rectangle given as x, y, width, height.
    /// One without an area is not placed.
    pub open spec fn placing(
        self,
        source: Source,
        dst: (i32, i32, i32, i32),
        op: RasterOp,
    ) -> CanvasModel {
        let c = self.advanced();
        let s = self.state;
        let (l, t) = s.point(dst.0, dst.1);
        let (r, b) = s.point(capped_sum(dst.0, dst.2), capped_sum(dst.1, dst.3));
        if l.before(r) && t.before(b) {
            CanvasModel {
                page: MetafileModel {
                    shape_masks: self.masks(),
                    images: self.page.images.push(
                        Image {
                            left: l,
                            top: t,
                            right: r,
                            bottom: b,
                            src: self.source_size(source),
                            source,
                            raster_op: op,
                            order: c.order,
                            clip: s.clip,
                            clip_path: s.clip_path,
                        },
                    ),
                    ..self.page
                },
                ..c
            }
        } else {
            c
        }
    }
}

impl Canvas {
    pub fn new(device: (i32, i32), frame_mm100: (i32, i32)) -> (c: Canvas)
        ensures
            c@ == first_canvas(device, frame_mm100),
    {
        let c = Canvas {
            page: Metafile::blank(device, frame_mm100),
            order: 0,
            state: State {
                window_org: (0, 0),
                viewport_org: (0, 0),
                window_ext: None,
                viewport_ext: None,
                font: Font {
                    height: 0,
                    escapement: 0,
                    weight: 0,
                    underline: false,
                    kind: FontKind::Japanese,
                },
                brush: Some((255, 255, 255)),
                pen: Some(((0, 0, 0), Length::pixels(1))),
                align: 0,
                text_rgb: (0, 0, 0),
                even_odd: true,
                clip: None,
                clip_logical: None,
                clip_path: None,
                moved: Some((0, 0)),
            },
            objects: HashMap::new(),
            path: None,
            picture: None,
            pictures_called: 0,
            saved_states: Vec::new(),
        };
        proof {
            assert(c@.objects =~= Map::<u32, Object>::empty());
        }
        c
    }

    /// Counts a record and returns its place in the draw order.
    pub fn advance(&mut self) -> (n: usize)
        ensures
            final(self)@ == old(self)@.advanced(),
            n == final(self)@.order,
    {
        self.order = bumped(self.order);
        self.order
    }

    /// Counts a record that is not drawn.
    pub fn skip(&mut self, kind: u32)
        ensures
            final(self)@ == old(self)@.skipping(kind),
    {
        let count: usize = match self.page.skipped.get(&kind) {
            Some(n) => *n,
            None => 0,
        };
        self.page.skipped.insert(kind, bumped(count));
    }

    /// Saves the state that affects subsequent drawing.
    pub fn save_state(&mut self)
        ensures
            final(self)@ == old(self)@.saving(),
    {
        self.saved_states.push(self.state);
    }

    /// Restores a saved state. Negative levels are relative to the newest
    /// snapshot; positive levels count from the oldest, which is one.
    pub fn restore_state(&mut self, level: i32)
        ensures
            final(self)@ == old(self)@.restoring(level),
    {
        let k: i128 = if level < 0 {
            self.saved_states.len() as i128 + level as i128
        } else {
            level as i128 - 1
        };
        if k < 0 || k >= self.saved_states.len() as i128 {
            return;
        }
        let k: usize = k as usize;
        self.state = self.saved_states[k];
        self.saved_states.truncate(k);
        proof {
            assert(self@.saved_states =~= old(self)@.saved_states.take(k as int));
        }
    }

    pub fn finish(self) -> (m: Metafile)
        ensures
            m@ == self@.page,
    {
        self.page
    }

    // ----- coordinate mapping -----

    pub fn set_window_org(&mut self, x: i32, y: i32)
        ensures
            final(self)@ == old(self)@.with_state(
                State { window_org: (x, y), ..old(self)@.state },
            ),
    {
        self.state.window_org = (x, y);
    }

    pub fn set_viewport_org(&mut self, x: i32, y: i32)
        ensures
            final(self)@ == old(self)@.with_state(
                State { viewport_org: (x, y), ..old(self)@.state },
            ),
    {
        self.state.viewport_org = (x, y);
    }

    /// Sets the window extent; one without an area is ignored.
    pub fn set_window_ext(&mut self, x: i32, y: i32)
        ensures
            final(self)@ == (if x != 0 && y != 0 {
                old(self)@.with_state(State { window_ext: Some((x, y)), ..old(self)@.state })
            } else {
                old(self)@
            }),
    {
        if x != 0 && y != 0 {
            self.state.window_ext = Some((x, y));
        }
    }

    /// Sets the viewport extent; one without an area is ignored.
    pub fn set_viewport_ext(&mut self, x: i32, y: i32)
        ensures
            final(self)@ == (if x != 0 && y != 0 {
                old(self)@.with_state(State { viewport_ext: Some((x, y)), ..old(self)@.state })
            } else {
                old(self)@
            }),
    {
        if x != 0 && y != 0 {
            self.state.viewport_ext = Some((x, y));
        }
    }

    /// A logical point in device units.
    pub fn device(&self, x: i32, y: i32) -> (p: Point)
        ensures
            p == self@.state.point(x, y),
    {
        self.state.map(x, y)
    }

    /// A logical distance in device units.
    pub fn device_len(&self, units: u32) -> (l: Length)
        ensures
            l == self@.state.length(units as u64),
    {
        let s = self.state.scale().1;
        Length { units: units as u64, per: 1, num: s.0, den: s.1 }
    }

    /// Sets the current position.
    pub fn move_to(&mut self, x: i32, y: i32)
        ensures
            final(self)@ == old(self)@.with_state(
                State { moved: Some((x, y)), ..old(self)@.state },
            ),
    {
        self.state.moved = Some((x, y));
    }

    /// Draws a line from the current position and advances it.
    pub fn line_to(&mut self, x: i32, y: i32)
        ensures
            final(self)@ == ({
                let c = match old(self)@.state.moved {
                    Some(from) => old(self)@.drawing_polygon(seq![from, (x, y)], false),
                    None => old(self)@,
                };
                c.with_state(State { moved: Some((x, y)), ..c.state })
            }),
    {
        match self.state.moved {
            Some(from) => {
                let ends: [(i32, i32); 2] = [from, (x, y)];
                proof {
                    assert(ends@ =~= seq![from, (x, y)]);
                }
                self.polygon(&ends, false);
            },
            None => {},
        }
        self.state.moved = Some((x, y));
    }

    // ----- objects -----

    pub fn create(&mut self, handle: u32, object: Object)
        ensures
            final(self)@ == (CanvasModel {
                objects: old(self)@.objects.insert(handle, object),
                ..old(self)@
            }),
    {
        self.objects.insert(handle, object);
    }

    pub fn delete(&mut self, handle: u32)
        ensures
            final(self)@ == (CanvasModel {
                objects: old(self)@.objects.remove(handle),
                ..old(self)@
            }),
    {
        self.objects.remove(&handle);
    }

    /// Selects an object: a stock object where the top bit of the handle is
    /// set, and one that was created otherwise.
    pub fn select(&mut self, handle: u32)
        ensures
            final(self)@ == old(self)@.selecting(handle),
    {
        if handle >= STOCK {
            match handle - STOCK {
                0 => {
                    self.state.brush = Some((255, 255, 255));
                },
                1 => {
                    self.state.brush = Some((192, 192, 192));
                },
                2 => {
                    self.state.brush = Some((128, 128, 128));
                },
                3 => {
                    self.state.brush = Some((64, 64, 64));
                },
                4 => {
                    self.state.brush = Some((0, 0, 0));
                },
                NULL_BRUSH => {
                    self.state.brush = None;
                },
                WHITE_PEN => {
                    self.state.pen = Some(((255, 255, 255), Length::pixels(1)));
                },
                7 => {
                    self.state.pen = Some(((0, 0, 0), Length::pixels(1)));
                },
                NULL_PEN => {
                    self.state.pen = None;
                },
                _ => {},
            }
            return;
        }
        match self.objects.get(&handle) {
            Some(Object::Font(f)) => {
                self.state.font = *f;
            },
            Some(Object::Brush(b)) => {
                self.state.brush = *b;
            },
            Some(Object::Pen(p)) => {
                self.state.pen = *p;
            },
            _ => {},
        }
    }

    /// The selected font's height in logical units.
    pub fn font_height(&self) -> (h: u32)
        ensures
            h == magnitude(self@.state.font.height),
            h <= 0x8000_0000,
    {
        abs_i32(self.state.font.height)
    }

    pub fn set_text_align(&mut self, align: u32)
        ensures
            final(self)@ == old(self)@.with_state(State { align, ..old(self)@.state }),
    {
        self.state.align = align;
    }

    pub fn set_text_colour(&mut self, colour: u32)
        ensures
            final(self)@ == old(self)@.with_state(
                State { text_rgb: colour_of(colour), ..old(self)@.state },
            ),
    {
        self.state.text_rgb = rgb(colour);
    }

    /// Fills by the winding rule in mode 2, by the even-odd rule in any other.
    pub fn set_poly_fill_mode(&mut self, mode: u32)
        ensures
            final(self)@ == old(self)@.with_state(
                State { even_odd: mode != 2, ..old(self)@.state },
            ),
    {
        self.state.even_odd = mode != 2;
    }

    /// Restricts drawing to a logical rectangle.
    pub fn set_clip_rect(&mut self, left: i32, top: i32, right: i32, bottom: i32)
        ensures
            final(self)@ == old(self)@.clipping(left, top, right, bottom),
    {
        self.state.clip_logical = Some((left, top, right, bottom));
        let a = self.state.map(left, top);
        let b = self.state.map(right, bottom);
        let rect = make_rect(&a, &b);
        let (pw, ph): (i32, i32) = self.page.device;
        let whole: bool = rect.left.is_at_most(0) && rect.top.is_at_most(0)
            && rect.right.is_at_least(pw) && rect.bottom.is_at_least(ph);
        self.state.clip = if whole || pw <= 0 {
            None
        } else {
            Some(rect)
        };
        self.state.clip_path = None;
    }

    // ----- drawing -----

    pub(crate) fn paint(&mut self, path: Path, fill: bool, stroke: bool, order: usize)
        ensures
            final(self)@ == old(self)@.painting(path@, fill, stroke, order),
    {
        let fill = if fill {
            self.state.brush
        } else {
            None
        };
        let stroke = if stroke {
            self.state.pen
        } else {
            None
        };
        if fill.is_none() && stroke.is_none() {
            return;
        }
        let shape = Shape {
            path,
            fill,
            stroke,
            blend: BlendMode::Normal,
            order,
            clip: self.state.clip,
        };
        let ghost m = shape@;
        self.page.shapes.push(shape);
        proof {
            assert(self@.page.shapes =~= old(self)@.page.shapes.push(m));
        }
    }

    /// A polygon or polyline in logical units, painted with the current pen
    /// and brush.
    pub fn polygon(&mut self, points: &[(i32, i32)], closed: bool)
        ensures
            final(self)@ == old(self)@.drawing_polygon(points@, closed),
    {
        let order: usize = self.advance();
        if points.len() < 2 {
            return;
        }
        let pts = map_points(&self.state, points);
        let figure = Figure { start: pts[0], segments: make_lines(&pts, 1), closed };
        let ghost m = figure@;
        let mut figures: Vec<Figure> = Vec::new();
        figures.push(figure);
        let path = Path { figures, even_odd: self.state.even_odd };
        proof {
            assert(path@.figures =~= seq![m]);
        }
        self.paint(path, closed, true, order);
    }

    /// A rectangle painted with the current brush, from logical corner and
    /// size.
    pub fn pat_fill(&mut self, x: i32, y: i32, cx: i32, cy: i32)
        ensures
            final(self)@ == old(self)@.filling(x, y, cx, cy),
    {
        let order: usize = self.advance();
        let rgb = match self.state.brush {
            Some(c) => c,
            None => {
                return;
            },
        };
        let (l, t) = self.state.map(x, y);
        let (r, b) = self.state.map(sum_capped(x, cx), sum_capped(y, cy));
        if !l.is_before(&r) || !t.is_before(&b) {
            return;
        }
        if self.state.clip_path.is_some() {
            self.page.shape_masks = bumped(self.page.shape_masks);
        }
        self.page.fills.push(
            Fill {
                left: l,
                top: t,
                right: r,
                bottom: b,
                rgb,
                blend: BlendMode::Normal,
                order,
                clip: self.state.clip,
                clip_path: self.state.clip_path,
            },
        );
    }

    /// Places a picture at a logical rectangle given as x, y, width, height.
    pub(crate) fn place(&mut self, source: Source, dst: (i32, i32, i32, i32), op: RasterOp)
        ensures
            final(self)@ == old(self)@.placing(source, dst, op),
    {
        let order: usize = self.advance();
        let (l, t) = self.state.map(dst.0, dst.1);
        let (r, b) = self.state.map(sum_capped(dst.0, dst.2), sum_capped(dst.1, dst.3));
        if !l.is_before(&r) || !t.is_before(&b) {
            return;
        }
        let px: (u32, u32) = match source {
            Source::Stored { px, .. } => px,
            Source::Inline(i) => {
                if i < self.page.rasters.len() {
                    (self.page.rasters[i].width, self.page.rasters[i].height)
                } else {
                    (0, 0)
                }
            },
        };
        if self.state.clip_path.is_some() {
            self.page.shape_masks = bumped(self.page.shape_masks);
        }
        self.page.images.push(
            Image {
                left: l,
                top: t,
                right: r,
                bottom: b,
                src: px,
                source,
                raster_op: op,
                order,
                clip: self.state.clip,
                clip_path: self.state.clip_path,
            },
        );
    }
}

// ------------------------------------------------------------ text

/// The advance of a character; one that is not given is zero.
pub open spec fn advance_of(advances: Seq<i64>, i: int) -> int {
    if 0 <= i < advances.len() {
        advances[i] as int
    } else {
        0
    }
}

/// The advances of the first `n` characters together.
pub open spec fn advance_below(advances: Seq<i64>, n: int) -> int
    decreases n,
{
    if n <= 0 {
        0
    } else {
        advance_below(advances, n - 1) + advance_of(advances, n - 1)
    }
}

/// How far left of the reference point a run starts, in quarter units: all of
/// its length, half of it, or not at all.
pub open spec fn run_shift(align: u32, total: int) -> int {
    if align & TA_CENTER == TA_RIGHT {
        2 * total
    } else if align & TA_CENTER == TA_CENTER {
        total
    } else {
        0
    }
}

/// The left edges of `n` characters from the reference point, in quarter
/// units; advances are in half units.
pub open spec fn left_edges(align: u32, advances: Seq<i64>, n: int) -> Seq<i128> {
    Seq::new(
        (if n < 0 {
            0
        } else {
            n
        }) as nat,
        |i: int|
            (2 * advance_below(advances, i) - run_shift(align, advance_below(advances, n))) as i128,
    )
}

/// How the baseline lies to the reference point.
pub open spec fn hang_of(align: u32) -> Hang {
    if align & TA_BASELINE == TA_BASELINE {
        Hang::Baseline
    } else if align & TA_BOTTOM == TA_BOTTOM {
        Hang::Bottom
    } else {
        Hang::Top
    }
}

/// The size of the characters: the height of the font, or where the font
/// states none the advance of the first character, and never less than a
/// pixel then.
pub open spec fn text_size(s: State, advances: Seq<i64>, n: int) -> Length {
    if s.font.height != 0 {
        s.length(magnitude(s.font.height) as u64)
    } else if n > 1 {
        let a = advance_of(advances, 0);
        let l = Length {
            units: (if a < 0 {
                -a
            } else {
                a
            }) as u64,
            per: 2,
            num: s.across().0,
            den: s.across().1,
        };
        if l.under_one() {
            Length::one()
        } else {
            l
        }
    } else {
        Length::one()
    }
}

impl CanvasModel {
    /// Text at a logical reference point, with advances in half units.
    pub open spec fn writing(self, x: i32, y: i32, chars: Seq<char>, advances: Seq<i64>) -> CanvasModel {
        if chars.len() == 0 {
            self
        } else {
            let c = self.advanced();
            let s = self.state;
            CanvasModel {
                page: MetafileModel {
                    text: self.page.text.push(
                        TextModel {
                            x: s.point(x, y).0,
                            xs: left_edges(s.align, advances, chars.len() as int),
                            y: s.point(x, y).1,
                            hang: hang_of(s.align),
                            chars,
                            font_kind: s.font.kind,
                            size: text_size(s, advances, chars.len() as int),
                            escapement: s.font.escapement,
                            rgb: s.text_rgb,
                            order: c.order,
                            bold: s.font.weight >= BOLD,
                            underline: s.font.underline,
                        },
                    ),
                    ..self.page
                },
                ..c
            }
        }
    }
}

/// Every advance is within bounds.
pub open spec fn sane_advances(advances: Seq<i64>) -> bool {
    forall|i: int|
        0 <= i < advances.len() ==> -MAX_ADVANCE <= #[trigger] advances[i] <= MAX_ADVANCE
}

proof fn lemma_advance_below(advances: Seq<i64>, n: int)
    requires
        sane_advances(advances),
        0 <= n,
    ensures
        -(MAX_ADVANCE * n) <= advance_below(advances, n) <= MAX_ADVANCE * n,
    decreases n,
{
    if n > 0 {
        lemma_advance_below(advances, n - 1);
    }
}

fn make_left_edges(align: u32, advances: &[i64], n: usize) -> (xs: Vec<i128>)
    requires
        sane_advances(advances@),
    ensures
        xs@ == left_edges(align, advances@, n as int),
{
    let mut total: i128 = 0;
    let mut i: usize = 0;
    while i < n
        invariant
            i <= n,
            sane_advances(advances@),
            total == advance_below(advances@, i as int),
        decreases n - i,
    {
        proof {
            lemma_advance_below(advances@, i as int);
        }
        if i < advances.len() {
            total += advances[i] as i128;
        }
        i += 1;
    }
    proof {
        lemma_advance_below(advances@, n as int);
    }
    let shift: i128 = if align & TA_CENTER == TA_RIGHT {
        2 * total
    } else if align & TA_CENTER == TA_CENTER {
        total
    } else {
        0
    };
    let mut xs: Vec<i128> = Vec::new();
    let mut sum: i128 = 0;
    let mut k: usize = 0;
    while k < n
        invariant
            k <= n,
            sane_advances(advances@),
            sum == advance_below(advances@, k as int),
            total == advance_below(advances@, n as int),
            shift == run_shift(align, total as int),
            -(MAX_ADVANCE * n) <= total <= MAX_ADVANCE * n,
            xs@.len() == k,
            forall|j: int|
                0 <= j < k ==> #[trigger] xs@[j] == 2 * advance_below(advances@, j) - shift,
        decreases n - k,
    {
        proof {
            lemma_advance_below(advances@, k as int);
        }
        xs.push(2 * sum - shift);
        if k < advances.len() {
            sum += advances[k] as i128;
        }
        k += 1;
    }
    proof {
        assert(xs@ =~= left_edges(align, advances@, n as int));
    }
    xs
}

fn make_text_size(s: &State, advances: &[i64], n: usize) -> (l: Length)
    requires
        sane_advances(advances@),
    ensures
        l == text_size(*s, advances@, n as int),
{
    let (across, down) = s.scale();
    if s.font.height != 0 {
        return Length {
            units: abs_i32(s.font.height) as u64,
            per: 1,
            num: down.0,
            den: down.1,
        };
    }
    if n <= 1 {
        return Length::pixels(1);
    }
    let a: i64 = if advances.len() > 0 {
        advances[0]
    } else {
        0
    };
    let units: u64 = if a < 0 {
        (-a) as u64
    } else {
        a as u64
    };
    let l = Length { units, per: 2, num: across.0, den: across.1 };
    if l.is_under_one() {
        Length::pixels(1)
    } else {
        l
    }
}

impl Canvas {
    /// Text at a logical reference point, with the advance of each character
    /// in half logical units.
    pub fn text(&mut self, x: i32, y: i32, chars: Vec<char>, advances: &[i64])
        requires
            sane_advances(advances@),
        ensures
            final(self)@ == old(self)@.writing(x, y, chars@, advances@),
    {
        if chars.len() == 0 {
            return;
        }
        let order: usize = self.advance();
        let (dx, dy) = self.state.map(x, y);
        let align: u32 = self.state.align;
        let hang = if align & TA_BASELINE == TA_BASELINE {
            Hang::Baseline
        } else if align & TA_BOTTOM == TA_BOTTOM {
            Hang::Bottom
        } else {
            Hang::Top
        };
        let xs = make_left_edges(align, advances, chars.len());
        let size = make_text_size(&self.state, advances, chars.len());
        let run = Text {
            x: dx,
            xs,
            y: dy,
            hang,
            chars,
            font_kind: self.state.font.kind,
            size,
            escapement: self.state.font.escapement,
            rgb: self.state.text_rgb,
            order,
            bold: self.state.font.weight >= BOLD,
            underline: self.state.font.underline,
        };
        let ghost m = run@;
        self.page.text.push(run);
        proof {
            assert(self@.page.text =~= old(self)@.page.text.push(m));
        }
    }
}

// ------------------------------------------------------------ outlines

/// The outlines that have two points or more, among the first `n`.
pub open spec fn outlines(s: State, polygons: Seq<Vec<(i32, i32)>>, closed: bool, n: int) -> Seq<
    FigureModel,
>
    decreases n,
{
    if n <= 0 {
        Seq::empty()
    } else {
        let before = outlines(s, polygons, closed, n - 1);
        if polygons[n - 1]@.len() >= 2 {
            before.push(line_figure(mapped(s, polygons[n - 1]@), closed))
        } else {
            before
        }
    }
}

/// The parts of a logical unit in which the points of a rounded outline are
/// counted: fine enough for the control points.
pub const CURVE_PARTS: u32 = 20_000_000;

/// Half of the parts.
pub const HALF: i64 = 10_000_000;

/// How far the control points of a quarter ellipse lie from its middle, in
/// halves of the diameter, times ten million.
pub const KAPPA: i64 = 5_522_848;

/// The point between `lo` and `hi` that weighs `hi` by `w` parts.
pub open spec fn mix(lo: int, hi: int, w: int) -> int {
    lo * (2 * HALF - w) + hi * w
}

/// The point `w` parts of the diameter `d` from `lo` towards `hi`.
pub open spec fn inset(lo: int, hi: int, d: int, w: int) -> int {
    2 * HALF * lo + (if hi > lo {
        d * w
    } else {
        -(d * w)
    })
}

/// The ellipse in the box from `x.0` to `x.1` and from `y.0` to `y.1`, counted
/// from the window origin.
pub open spec fn ellipse_figure(s: State, x: (int, int), y: (int, int)) -> FigureModel {
    let px = |w: int| s.across_at(mix(x.0, x.1, w), CURVE_PARTS);
    let py = |w: int| s.down_at(mix(y.0, y.1, w), CURVE_PARTS);
    let far = 2 * HALF as int;
    let mid = HALF as int;
    let more = HALF + KAPPA;
    let less = HALF - KAPPA;
    FigureModel {
        start: (px(far), py(mid)),
        segments: seq![
            Segment::Curve((px(far), py(more)), (px(more), py(far)), (px(mid), py(far))),
            Segment::Curve((px(less), py(far)), (px(0), py(more)), (px(0), py(mid))),
            Segment::Curve((px(0), py(less)), (px(less), py(0)), (px(mid), py(0))),
            Segment::Curve((px(more), py(0)), (px(far), py(less)), (px(far), py(mid))),
        ],
        closed: true,
    }
}

/// The box from `x.0` to `x.1` and from `y.0` to `y.1` with its corners rounded
/// by ellipses of the given diameters.
pub open spec fn rounded_figure(
    s: State,
    x: (int, int),
    y: (int, int),
    dx: int,
    dy: int,
) -> FigureModel {
    let l = |w: int| s.across_at(inset(x.0, x.1, dx, w), CURVE_PARTS);
    let r = |w: int| s.across_at(inset(x.1, x.0, dx, w), CURVE_PARTS);
    let t = |w: int| s.down_at(inset(y.0, y.1, dy, w), CURVE_PARTS);
    let b = |w: int| s.down_at(inset(y.1, y.0, dy, w), CURVE_PARTS);
    let full = HALF as int;
    let near = HALF - KAPPA;
    FigureModel {
        start: (l(full), t(0)),
        segments: seq![
            Segment::Line((r(full), t(0))),
            Segment::Curve((r(near), t(0)), (r(0), t(near)), (r(0), t(full))),
            Segment::Line((r(0), b(full))),
            Segment::Curve((r(0), b(near)), (r(near), b(0)), (r(full), b(0))),
            Segment::Line((l(full), b(0))),
            Segment::Curve((l(near), b(0)), (l(0), b(near)), (l(0), b(full))),
            Segment::Line((l(0), t(full))),
            Segment::Curve((l(0), t(near)), (l(near), t(0)), (l(full), t(0))),
        ],
        closed: true,
    }
}

/// The smaller of two diameters.
pub open spec fn diameter(d: int, span: int) -> int {
    let room = if span < 0 {
        -span
    } else {
        span
    };
    if d < room {
        d
    } else {
        room
    }
}

/// Two logical positions across, the one that is left on the page first, from
/// the window origin.
pub open spec fn ordered_across(s: State, a: i32, b: i32) -> (int, int) {
    let p = a - s.window_org.0;
    let q = b - s.window_org.0;
    if s.across_at(q, 1).before(s.across_at(p, 1)) {
        (q, p)
    } else {
        (p, q)
    }
}

/// Two logical positions down, the one that is higher on the page first, from
/// the window origin.
pub open spec fn ordered_down(s: State, a: i32, b: i32) -> (int, int) {
    let p = a - s.window_org.1;
    let q = b - s.window_org.1;
    if s.down_at(q, 1).before(s.down_at(p, 1)) {
        (q, p)
    } else {
        (p, q)
    }
}

/// The box has an area on the page.
pub open spec fn has_area(s: State, x: (int, int), y: (int, int)) -> bool {
    s.across_at(x.0, 1).before(s.across_at(x.1, 1)) && s.down_at(y.0, 1).before(s.down_at(y.1, 1))
}

impl CanvasModel {
    /// Several polygons of one record, painted as one path.
    pub open spec fn drawing_polygons(self, polygons: Seq<Vec<(i32, i32)>>, closed: bool) -> CanvasModel {
        let c = self.advanced();
        let figures = outlines(self.state, polygons, closed, polygons.len() as int);
        if figures.len() == 0 {
            c
        } else {
            c.painting(
                PathModel { figures, even_odd: self.state.even_odd },
                closed,
                true,
                c.order,
            )
        }
    }

    /// A single figure painted with pen and brush.
    pub open spec fn drawing_figure(self, figure: FigureModel) -> CanvasModel {
        let c = self.advanced();
        c.painting(
            PathModel { figures: seq![figure], even_odd: self.state.even_odd },
            true,
            true,
            c.order,
        )
    }

    /// An ellipse in a logical box. One without an area is not painted.
    pub open spec fn drawing_ellipse(self, left: i32, top: i32, right: i32, bottom: i32) -> CanvasModel {
        let s = self.state;
        let x = ordered_across(
            s,
            if right < left {
                right
            } else {
                left
            },
            if right < left {
                left
            } else {
                right
            },
        );
        let y = ordered_down(
            s,
            if bottom < top {
                bottom
            } else {
                top
            },
            if bottom < top {
                top
            } else {
                bottom
            },
        );
        if has_area(s, x, y) {
            self.drawing_figure(ellipse_figure(s, x, y))
        } else {
            self.advanced()
        }
    }

    /// A logical box with rounded corners. One without an area is not painted.
    pub open spec fn drawing_round_rect(
        self,
        left: i32,
        top: i32,
        right: i32,
        bottom: i32,
        width: i32,
        height: i32,
    ) -> CanvasModel {
        let s = self.state;
        let x = ordered_across(s, left, right);
        let y = ordered_down(s, top, bottom);
        if has_area(s, x, y) {
            self.drawing_figure(
                rounded_figure(
                    s,
                    x,
                    y,
                    diameter(magnitude(width), x.1 - x.0),
                    diameter(magnitude(height), y.1 - y.0),
                ),
            )
        } else {
            self.advanced()
        }
    }
}

fn order_across(s: &State, a: i32, b: i32) -> (r: (i64, i64))
    ensures
        (r.0 as int, r.1 as int) == ordered_across(*s, a, b),
        -0x1_0000_0000 <= r.0 <= 0x1_0000_0000,
        -0x1_0000_0000 <= r.1 <= 0x1_0000_0000,
{
    let p: i64 = a as i64 - s.window_org.0 as i64;
    let q: i64 = b as i64 - s.window_org.0 as i64;
    if s.part_across(q, 1).is_before(&s.part_across(p, 1)) {
        (q, p)
    } else {
        (p, q)
    }
}

fn order_down(s: &State, a: i32, b: i32) -> (r: (i64, i64))
    ensures
        (r.0 as int, r.1 as int) == ordered_down(*s, a, b),
        -0x1_0000_0000 <= r.0 <= 0x1_0000_0000,
        -0x1_0000_0000 <= r.1 <= 0x1_0000_0000,
{
    let p: i64 = a as i64 - s.window_org.1 as i64;
    let q: i64 = b as i64 - s.window_org.1 as i64;
    if s.part_down(q, 1).is_before(&s.part_down(p, 1)) {
        (q, p)
    } else {
        (p, q)
    }
}

fn with_area(s: &State, x: (i64, i64), y: (i64, i64)) -> (r: bool)
    ensures
        r == has_area(*s, (x.0 as int, x.1 as int), (y.0 as int, y.1 as int)),
{
    s.part_across(x.0, 1).is_before(&s.part_across(x.1, 1)) && s.part_down(y.0, 1).is_before(
        &s.part_down(y.1, 1),
    )
}

fn mixed(lo: i64, hi: i64, w: i64) -> (r: i64)
    requires
        -0x1_0000_0000 <= lo <= 0x1_0000_0000,
        -0x1_0000_0000 <= hi <= 0x1_0000_0000,
        0 <= w <= 2 * HALF,
    ensures
        r == mix(lo as int, hi as int, w as int),
{
    let v: i64 = 2 * HALF - w;
    proof {
        assert(-0x1_0000_0000 * 20_000_000 <= lo * v <= 0x1_0000_0000 * 20_000_000)
            by (nonlinear_arith)
            requires
                -0x1_0000_0000 <= lo <= 0x1_0000_0000,
                0 <= v <= 20_000_000,
        ;
        assert(-0x1_0000_0000 * 20_000_000 <= hi * w <= 0x1_0000_0000 * 20_000_000)
            by (nonlinear_arith)
            requires
                -0x1_0000_0000 <= hi <= 0x1_0000_0000,
                0 <= w <= 20_000_000,
        ;
    }
    lo * v + hi * w
}

fn insetted(lo: i64, hi: i64, d: i64, w: i64) -> (r: i64)
    requires
        -0x1_0000_0000 <= lo <= 0x1_0000_0000,
        0 <= d <= 0x2_0000_0000,
        0 <= w <= HALF,
    ensures
        r == inset(lo as int, hi as int, d as int, w as int),
{
    proof {
        assert(0 <= d * w <= 0x2_0000_0000 * 10_000_000) by (nonlinear_arith)
            requires
                0 <= d <= 0x2_0000_0000,
                0 <= w <= 10_000_000,
        ;
    }
    let base: i64 = 20_000_000 * lo;
    if hi > lo {
        base + d * w
    } else {
        base - d * w
    }
}

fn smaller_diameter(d: u32, span: i64) -> (r: i64)
    requires
        -0x2_0000_0000 <= span <= 0x2_0000_0000,
    ensures
        r == diameter(d as int, span as int),
        0 <= r <= 0x2_0000_0000,
{
    let room: i64 = if span < 0 {
        -span
    } else {
        span
    };
    if (d as i64) < room {
        d as i64
    } else {
        room
    }
}

fn make_ellipse(s: &State, x: (i64, i64), y: (i64, i64)) -> (f: Figure)
    requires
        -0x1_0000_0000 <= x.0 <= 0x1_0000_0000,
        -0x1_0000_0000 <= x.1 <= 0x1_0000_0000,
        -0x1_0000_0000 <= y.0 <= 0x1_0000_0000,
        -0x1_0000_0000 <= y.1 <= 0x1_0000_0000,
    ensures
        f@ == ellipse_figure(*s, (x.0 as int, x.1 as int), (y.0 as int, y.1 as int)),
{
    let left = s.part_across(mixed(x.0, x.1, 0), CURVE_PARTS);
    let cx_less = s.part_across(mixed(x.0, x.1, HALF - KAPPA), CURVE_PARTS);
    let cx = s.part_across(mixed(x.0, x.1, HALF), CURVE_PARTS);
    let cx_more = s.part_across(mixed(x.0, x.1, HALF + KAPPA), CURVE_PARTS);
    let right = s.part_across(mixed(x.0, x.1, 2 * HALF), CURVE_PARTS);
    let top = s.part_down(mixed(y.0, y.1, 0), CURVE_PARTS);
    let cy_less = s.part_down(mixed(y.0, y.1, HALF - KAPPA), CURVE_PARTS);
    let cy = s.part_down(mixed(y.0, y.1, HALF), CURVE_PARTS);
    let cy_more = s.part_down(mixed(y.0, y.1, HALF + KAPPA), CURVE_PARTS);
    let bottom = s.part_down(mixed(y.0, y.1, 2 * HALF), CURVE_PARTS);
    let mut segments: Vec<Segment> = Vec::new();
    segments.push(Segment::Curve((right, cy_more), (cx_more, bottom), (cx, bottom)));
    segments.push(Segment::Curve((cx_less, bottom), (left, cy_more), (left, cy)));
    segments.push(Segment::Curve((left, cy_less), (cx_less, top), (cx, top)));
    segments.push(Segment::Curve((cx_more, top), (right, cy_less), (right, cy)));
    let f = Figure { start: (right, cy), segments, closed: true };
    proof {
        assert(f@.segments =~= ellipse_figure(
            *s,
            (x.0 as int, x.1 as int),
            (y.0 as int, y.1 as int),
        ).segments);
    }
    f
}

fn make_rounded(s: &State, x: (i64, i64), y: (i64, i64), dx: i64, dy: i64) -> (f: Figure)
    requires
        -0x1_0000_0000 <= x.0 <= 0x1_0000_0000,
        -0x1_0000_0000 <= x.1 <= 0x1_0000_0000,
        -0x1_0000_0000 <= y.0 <= 0x1_0000_0000,
        -0x1_0000_0000 <= y.1 <= 0x1_0000_0000,
        0 <= dx <= 0x2_0000_0000,
        0 <= dy <= 0x2_0000_0000,
    ensures
        f@ == rounded_figure(
            *s,
            (x.0 as int, x.1 as int),
            (y.0 as int, y.1 as int),
            dx as int,
            dy as int,
        ),
{
    let near: i64 = HALF - KAPPA;
    let l0 = s.part_across(insetted(x.0, x.1, dx, 0), CURVE_PARTS);
    let l1 = s.part_across(insetted(x.0, x.1, dx, near), CURVE_PARTS);
    let l2 = s.part_across(insetted(x.0, x.1, dx, HALF), CURVE_PARTS);
    let r0 = s.part_across(insetted(x.1, x.0, dx, 0), CURVE_PARTS);
    let r1 = s.part_across(insetted(x.1, x.0, dx, near), CURVE_PARTS);
    let r2 = s.part_across(insetted(x.1, x.0, dx, HALF), CURVE_PARTS);
    let t0 = s.part_down(insetted(y.0, y.1, dy, 0), CURVE_PARTS);
    let t1 = s.part_down(insetted(y.0, y.1, dy, near), CURVE_PARTS);
    let t2 = s.part_down(insetted(y.0, y.1, dy, HALF), CURVE_PARTS);
    let b0 = s.part_down(insetted(y.1, y.0, dy, 0), CURVE_PARTS);
    let b1 = s.part_down(insetted(y.1, y.0, dy, near), CURVE_PARTS);
    let b2 = s.part_down(insetted(y.1, y.0, dy, HALF), CURVE_PARTS);
    let mut segments: Vec<Segment> = Vec::new();
    segments.push(Segment::Line((r2, t0)));
    segments.push(Segment::Curve((r1, t0), (r0, t1), (r0, t2)));
    segments.push(Segment::Line((r0, b2)));
    segments.push(Segment::Curve((r0, b1), (r1, b0), (r2, b0)));
    segments.push(Segment::Line((l2, b0)));
    segments.push(Segment::Curve((l1, b0), (l0, b1), (l0, b2)));
    segments.push(Segment::Line((l0, t2)));
    segments.push(Segment::Curve((l0, t1), (l1, t0), (l2, t0)));
    let f = Figure { start: (l2, t0), segments, closed: true };
    proof {
        assert(f@.segments =~= rounded_figure(
            *s,
            (x.0 as int, x.1 as int),
            (y.0 as int, y.1 as int),
            dx as int,
            dy as int,
        ).segments);
    }
    f
}

impl Canvas {
    /// Paints several polygons from one record as one path. Such records are
    /// used for outlined glyphs; keeping their contours together preserves the
    /// selected fill rule and the holes in each glyph.
    pub fn polygons(&mut self, polygons: &[Vec<(i32, i32)>], closed: bool)
        ensures
            final(self)@ == old(self)@.drawing_polygons(polygons@, closed),
    {
        let order: usize = self.advance();
        let mut figures: Vec<Figure> = Vec::new();
        let mut i: usize = 0;
        proof {
            assert(figure_models(figures@) =~= Seq::<FigureModel>::empty());
        }
        while i < polygons.len()
            invariant
                i <= polygons@.len(),
                figure_models(figures@) == outlines(self.state, polygons@, closed, i as int),
            decreases polygons@.len() - i,
        {
            if polygons[i].len() >= 2 {
                let pts = map_points(&self.state, polygons[i].as_slice());
                let figure = Figure { start: pts[0], segments: make_lines(&pts, 1), closed };
                let ghost before = figure_models(figures@);
                let ghost m = figure@;
                figures.push(figure);
                proof {
                    assert(figure_models(figures@) =~= before.push(m));
                }
            }
            i += 1;
        }
        if figures.len() == 0 {
            return;
        }
        let path = Path { figures, even_odd: self.state.even_odd };
        self.paint(path, closed, true, order);
    }

    pub(crate) fn draw_figure(&mut self, figure: Figure)
        ensures
            final(self)@ == old(self)@.drawing_figure(figure@),
    {
        let order: usize = self.advance();
        let ghost m = figure@;
        let mut figures: Vec<Figure> = Vec::new();
        figures.push(figure);
        let path = Path { figures, even_odd: self.state.even_odd };
        proof {
            assert(path@.figures =~= seq![m]);
        }
        self.paint(path, true, true, order);
    }

    /// Paints an axis-aligned ellipse as four cubic curves.
    pub fn ellipse(&mut self, left: i32, top: i32, right: i32, bottom: i32)
        ensures
            final(self)@ == old(self)@.drawing_ellipse(left, top, right, bottom),
    {
        let (x0, x1): (i32, i32) = if right < left {
            (right, left)
        } else {
            (left, right)
        };
        let (y0, y1): (i32, i32) = if bottom < top {
            (bottom, top)
        } else {
            (top, bottom)
        };
        let x = order_across(&self.state, x0, x1);
        let y = order_down(&self.state, y0, y1);
        if !with_area(&self.state, x, y) {
            self.advance();
            return;
        }
        let figure = make_ellipse(&self.state, x, y);
        self.draw_figure(figure);
    }

    /// Paints a rectangle whose corners are rounded by an ellipse of the given
    /// width and height.
    pub fn round_rect(
        &mut self,
        left: i32,
        top: i32,
        right: i32,
        bottom: i32,
        ellipse_width: i32,
        ellipse_height: i32,
    )
        ensures
            final(self)@ == old(self)@.drawing_round_rect(
                left,
                top,
                right,
                bottom,
                ellipse_width,
                ellipse_height,
            ),
    {
        let x = order_across(&self.state, left, right);
        let y = order_down(&self.state, top, bottom);
        if !with_area(&self.state, x, y) {
            self.advance();
            return;
        }
        let dx: i64 = smaller_diameter(abs_i32(ellipse_width), x.1 - x.0);
        let dy: i64 = smaller_diameter(abs_i32(ellipse_height), y.1 - y.0);
        let figure = make_rounded(&self.state, x, y, dx, dy);
        self.draw_figure(figure);
    }
}

} // verus!
