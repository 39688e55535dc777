//! Format-neutral drawing data produced by a page decoder.
//!
//! The metafile readers turn a decoded page into these values, and whatever
//! draws the page consumes them. Positions are device pixels of the page, y
//! increasing downward, kept as the integers that they are measured from: the
//! mapping from logical units to pixels is a quotient of two of them. Where
//! positions are compared, they are taken to single precision.
use crate::rounding::{coarse, round_coarse, round_whole, single, FINE, SINGLE};
use std::collections::HashMap;
use vstd::prelude::*;

verus! {

broadcast use vstd::std_specs::hash::group_hash_axioms;

/// The font family selected by the source metafile for a text run.
///
/// The same ASCII hyphen can have a different shape and width in a Japanese
/// proportional face than in a Latin one.
#[derive(Debug, Clone, Copy, PartialEq, Eq, Structural)]
pub enum FontKind {
    Japanese,
    JapaneseProportional,
    JapaneseProportionalGothic,
    Latin,
}

impl Default for FontKind {
    fn default() -> (k: FontKind)
        ensures
            k == FontKind::Japanese,
    {
        FontKind::Japanese
    }
}

/// Red, green, blue.
pub type Rgb = (u8, u8, u8);

/// A position in device pixels: `offset / per * num / den + origin`, where
/// `offset` counts the `per`-th parts of a logical unit from the window origin.
#[derive(Debug, Clone, Copy, PartialEq, Eq, Structural)]
pub struct Coord {
    pub offset: i64,
    pub per: u32,
    pub num: i32,
    pub den: i32,
    pub origin: i32,
}

/// A distance in device pixels: the size of `units / per * num / den`.
#[derive(Debug, Clone, Copy, PartialEq, Eq, Structural)]
pub struct Length {
    pub units: u64,
    pub per: u32,
    pub num: i32,
    pub den: i32,
}

impl Length {
    /// One pixel.
    pub open spec fn one() -> Length {
        Length { units: 1, per: 1, num: 1, den: 1 }
    }

    /// So many whole pixels.
    pub fn pixels(n: u32) -> (l: Length)
        ensures
            l == (Length { units: n as u64, per: 1, num: 1, den: 1 }),
    {
        Length { units: n as u64, per: 1, num: 1, den: 1 }
    }

    /// Less than one pixel.
    pub open spec fn under_one(self) -> bool {
        self.units * magnitude(self.num) < self.per * magnitude(self.den)
    }

    /// Whether the distance is less than one pixel.
    pub fn is_under_one(&self) -> (r: bool)
        ensures
            r == self.under_one(),
    {
        let n: u128 = abs_i32(self.num) as u128;
        let d: u128 = abs_i32(self.den) as u128;
        proof {
            assert(0 <= self.units * n <= 0xFFFF_FFFF_FFFF_FFFF * 0x8000_0000) by (nonlinear_arith)
                requires
                    0 <= self.units <= 0xFFFF_FFFF_FFFF_FFFF,
                    0 <= n <= 0x8000_0000,
            ;
            assert(0 <= self.per * d <= 0xFFFF_FFFF * 0x8000_0000) by (nonlinear_arith)
                requires
                    0 <= self.per <= 0xFFFF_FFFF,
                    0 <= d <= 0x8000_0000,
            ;
        }
        self.units as u128 * n < self.per as u128 * d
    }
}

/// The size of a number without its sign.
pub open spec fn magnitude(v: i32) -> int {
    if v < 0 {
        -v
    } else {
        v as int
    }
}

/// The size of a number without its sign.
pub fn abs_i32(v: i32) -> (r: u32)
    ensures
        r == magnitude(v),
        r <= 0x8000_0000,
{
    if v < 0 {
        (-(v as i64)) as u32
    } else {
        v as u32
    }
}

/// The hundredth of a pixel as single precision has it, in fine units.
pub const HUNDREDTH: i128 = 0xA3D70A_000000;

/// So many of the parts that `MOST` counts make one: two to the power of 24.
pub const PART: i128 = 0x100_0000;

/// 95 hundredths as single precision has it.
pub const MOST: i128 = 0xF3_3333;

/// Pixels for each logical unit in single precision, in fine units.
pub open spec fn scale_of(num: i32, den: i32) -> int {
    let size = coarse(
        SINGLE as nat,
        (single(magnitude(num)) * FINE) as nat,
        single(magnitude(den)) as nat,
        1,
    );
    if (num < 0) == (den < 0) {
        size as int
    } else {
        -size
    }
}

fn scale(num: i32, den: i32) -> (s: i128)
    requires
        den != 0,
    ensures
        s == scale_of(num, den),
        -0x100_0000_0000_0000_0000_0000 <= s <= 0x100_0000_0000_0000_0000_0000,
{
    let n: i128 = round_whole(SINGLE, abs_i32(num) as i128);
    let d: i128 = round_whole(SINGLE, abs_i32(den) as i128);
    let size: i128 = round_coarse(SINGLE, (n * FINE) as u128, d as u128) as i128;
    if (num < 0) == (den < 0) {
        size
    } else {
        -size
    }
}

impl Coord {
    /// The pixels times `per * den`.
    pub open spec fn scaled(self) -> int {
        self.offset * self.num + self.origin * (self.per * self.den)
    }

    /// A whole number of logical units, no further from the window origin than
    /// two logical positions lie apart.
    pub open spec fn is_logical(self) -> bool {
        self.per == 1 && -0x1_0000_0000 <= self.offset <= 0x1_0000_0000 && self.den != 0
    }

    /// Where single-precision arithmetic puts a logical position, in fine units
    /// of a pixel: every step is rounded to 24 bits, and none gives a part of
    /// such a unit.
    #[verifier::opaque]
    pub open spec fn placed(self) -> int {
        single(
            single(single(self.offset as int) * scale_of(self.num, self.den)) + single(
                self.origin as int,
            ) * FINE,
        )
    }

    /// The same position.
    #[verifier::opaque]
    pub open spec fn same(self, other: Coord) -> bool {
        if self.is_logical() && other.is_logical() {
            self.placed() == other.placed()
        } else {
            self.per == other.per && self.scaled() * other.den == other.scaled() * self.den
        }
    }

    /// No further than a hundredth of a pixel from the other position.
    pub open spec fn near(self, other: Coord) -> bool {
        if self.is_logical() && other.is_logical() {
            let gap = single(self.placed() - other.placed());
            -HUNDREDTH <= gap <= HUNDREDTH
        } else {
            let gap = self.scaled() * other.den - other.scaled() * self.den;
            let limit = self.per * (magnitude(self.den) * magnitude(other.den));
            self.per == other.per && 100 * gap <= limit && -100 * gap <= limit
        }
    }

    /// Left of or above the other position.
    pub open spec fn before(self, other: Coord) -> bool {
        if self.is_logical() && other.is_logical() {
            self.placed() < other.placed()
        } else if (self.den > 0) == (other.den > 0) {
            self.scaled() * other.den < other.scaled() * self.den
        } else {
            self.scaled() * other.den > other.scaled() * self.den
        }
    }

    /// At `limit` or before it.
    pub open spec fn at_most(self, limit: i32) -> bool {
        if self.is_logical() {
            self.placed() <= single(limit as int) * FINE
        } else if self.den > 0 {
            self.scaled() <= limit * (self.per * self.den)
        } else {
            self.scaled() >= limit * (self.per * self.den)
        }
    }

    /// At `limit` or behind it.
    pub open spec fn at_least(self, limit: i32) -> bool {
        if self.is_logical() {
            self.placed() >= single(limit as int) * FINE
        } else if self.den > 0 {
            self.scaled() >= limit * (self.per * self.den)
        } else {
            self.scaled() <= limit * (self.per * self.den)
        }
    }

    /// Before 95 hundredths of a length in pixels.
    pub open spec fn short_of(self, length: u32) -> bool {
        if self.is_logical() {
            self.placed() < single(single(length as int) * MOST) * (FINE / PART)
        } else if self.den > 0 {
            100 * self.scaled() < 95 * length * (self.per * self.den)
        } else {
            100 * self.scaled() > 95 * length * (self.per * self.den)
        }
    }

    /// A whole number of pixels.
    pub open spec fn whole(v: u32) -> Coord {
        Coord { offset: v as i64, per: 1, num: 1, den: 1, origin: 0 }
    }

    /// A whole number of pixels.
    pub fn pixels(v: u32) -> (c: Coord)
        ensures
            c == Coord::whole(v),
    {
        Coord { offset: v as i64, per: 1, num: 1, den: 1, origin: 0 }
    }

    proof fn lemma_scaled(self)
        ensures
            -0x4000_0000_0000_0000_0000_0000 <= self.offset * self.num
                <= 0x4000_0000_0000_0000_0000_0000,
            -0x8000_0000_0000_0000 <= self.per * self.den <= 0x8000_0000_0000_0000,
            -0x4000_0000_0000_0000_0000_0000 <= self.origin * (self.per * self.den)
                <= 0x4000_0000_0000_0000_0000_0000,
    {
        lemma_product(
            self.offset as int,
            0x8000_0000_0000_0000,
            self.num as int,
            0x8000_0000,
        );
        lemma_product(self.per as int, 0x1_0000_0000, self.den as int, 0x8000_0000);
        lemma_product(
            self.origin as int,
            0x8000_0000,
            self.per * self.den,
            0x8000_0000_0000_0000,
        );
    }

    fn top(&self) -> (t: i128)
        ensures
            t == self.scaled(),
            -0x8000_0000_0000_0000_0000_0000 <= t <= 0x8000_0000_0000_0000_0000_0000,
    {
        proof {
            self.lemma_scaled();
        }
        self.offset as i128 * self.num as i128 + self.origin as i128 * (self.per as i128
            * self.den as i128)
    }

    fn logical(&self) -> (r: bool)
        ensures
            r == self.is_logical(),
    {
        self.per == 1 && -0x1_0000_0000 <= self.offset && self.offset <= 0x1_0000_0000 && self.den
            != 0
    }

    fn place(&self) -> (t: i128)
        requires
            self.is_logical(),
        ensures
            t == self.placed(),
            -0x1000_0000_0000_0000_0000_0000_0000_0000 <= t
                <= 0x1000_0000_0000_0000_0000_0000_0000_0000,
    {
        let offset: i128 = round_whole(SINGLE, self.offset as i128);
        let origin: i128 = round_whole(SINGLE, self.origin as i128);
        let s: i128 = scale(self.num, self.den);
        proof {
            reveal(Coord::placed);
            lemma_product(
                offset as int,
                0x2_0000_0001,
                s as int,
                0x100_0000_0000_0000_0000_0000,
            );
        }
        let across: i128 = round_whole(SINGLE, offset * s);
        round_whole(SINGLE, across + origin * FINE)
    }

    /// Whether the position lies before 95 hundredths of a length in pixels.
    pub fn is_short_of(&self, length: u32) -> (r: bool)
        ensures
            r == self.short_of(length),
    {
        if self.logical() {
            let l: i128 = round_whole(SINGLE, length as i128);
            let most: i128 = round_whole(SINGLE, l * MOST);
            return self.place() < most * (FINE / PART);
        }
        let a: i128 = self.top();
        proof {
            self.lemma_scaled();
            lemma_product(95 * length, 0x100_0000_0000, self.per * self.den, 0x8000_0000_0000_0000);
        }
        let b: i128 = (95 * length as i128) * (self.per as i128 * self.den as i128);
        if self.den > 0 {
            100 * a < b
        } else {
            100 * a > b
        }
    }

    /// Whether both are the same position.
    pub fn is_same(&self, other: &Coord) -> (r: bool)
        ensures
            r == self.same(*other),
    {
        proof {
            reveal(Coord::same);
        }
        if self.logical() && other.logical() {
            return self.place() == other.place();
        }
        let a: i128 = self.top();
        let b: i128 = other.top();
        proof {
            lemma_product(
                a as int,
                0x8000_0000_0000_0000_0000_0000,
                other.den as int,
                0x8000_0000,
            );
            lemma_product(
                b as int,
                0x8000_0000_0000_0000_0000_0000,
                self.den as int,
                0x8000_0000,
            );
        }
        self.per == other.per && a * other.den as i128 == b * self.den as i128
    }

    /// Whether the positions lie within a hundredth of a pixel.
    pub fn is_near(&self, other: &Coord) -> (r: bool)
        ensures
            r == self.near(*other),
    {
        if self.logical() && other.logical() {
            let gap: i128 = round_whole(SINGLE, self.place() - other.place());
            return -HUNDREDTH <= gap && gap <= HUNDREDTH;
        }
        if self.per != other.per {
            return false;
        }
        let a: i128 = self.top();
        let b: i128 = other.top();
        let da: i128 = abs_i32(self.den) as i128;
        let db: i128 = abs_i32(other.den) as i128;
        proof {
            lemma_product(
                a as int,
                0x8000_0000_0000_0000_0000_0000,
                other.den as int,
                0x8000_0000,
            );
            lemma_product(
                b as int,
                0x8000_0000_0000_0000_0000_0000,
                self.den as int,
                0x8000_0000,
            );
            lemma_product(da as int, 0x8000_0000, db as int, 0x8000_0000);
            lemma_product(
                self.per as int,
                0x1_0000_0000,
                da * db,
                0x4000_0000_0000_0000,
            );
        }
        let x: i128 = a * other.den as i128;
        let y: i128 = b * self.den as i128;
        let whole: i128 = self.per as i128 * (da * db);
        proof {
            assert(whole >= 0) by (nonlinear_arith)
                requires
                    whole == self.per * (da * db),
                    self.per >= 0,
                    da >= 0,
                    db >= 0,
            ;
        }
        let limit: i128 = whole / 100;
        x <= y + limit && y <= x + limit
    }

    /// Whether this position comes first.
    pub fn is_before(&self, other: &Coord) -> (r: bool)
        ensures
            r == self.before(*other),
    {
        if self.logical() && other.logical() {
            return self.place() < other.place();
        }
        let a: i128 = self.top();
        let b: i128 = other.top();
        proof {
            lemma_product(
                a as int,
                0x8000_0000_0000_0000_0000_0000,
                other.den as int,
                0x8000_0000,
            );
            lemma_product(
                b as int,
                0x8000_0000_0000_0000_0000_0000,
                self.den as int,
                0x8000_0000,
            );
        }
        if (self.den > 0) == (other.den > 0) {
            a * (other.den as i128) < b * (self.den as i128)
        } else {
            a * (other.den as i128) > b * (self.den as i128)
        }
    }

    /// Whether the position is at `limit` or before it.
    pub fn is_at_most(&self, limit: i32) -> (r: bool)
        ensures
            r == self.at_most(limit),
    {
        if self.logical() {
            return self.place() <= round_whole(SINGLE, limit as i128) * FINE;
        }
        let a: i128 = self.top();
        proof {
            self.lemma_scaled();
            lemma_product(
                limit as int,
                0x8000_0000,
                self.per * self.den,
                0x8000_0000_0000_0000,
            );
        }
        let b: i128 = limit as i128 * (self.per as i128 * self.den as i128);
        if self.den > 0 {
            a <= b
        } else {
            a >= b
        }
    }

    /// Whether the position is at `limit` or behind it.
    pub fn is_at_least(&self, limit: i32) -> (r: bool)
        ensures
            r == self.at_least(limit),
    {
        if self.logical() {
            return self.place() >= round_whole(SINGLE, limit as i128) * FINE;
        }
        let a: i128 = self.top();
        proof {
            self.lemma_scaled();
            lemma_product(
                limit as int,
                0x8000_0000,
                self.per * self.den,
                0x8000_0000_0000_0000,
            );
        }
        let b: i128 = limit as i128 * (self.per as i128 * self.den as i128);
        if self.den > 0 {
            a >= b
        } else {
            a <= b
        }
    }
}

proof fn lemma_product(a: int, m: int, b: int, n: int)
    requires
        -m <= a <= m,
        -n <= b <= n,
    ensures
        -(m * n) <= a * b <= m * n,
{
    assert(-(m * n) <= a * b <= m * n) by (nonlinear_arith)
        requires
            -m <= a <= m,
            -n <= b <= n,
    ;
}

/// Where a line of text hangs from its reference point.
#[derive(Debug, Clone, Copy, PartialEq, Eq, Structural)]
pub enum Hang {
    /// The point is on the baseline.
    Baseline,
    /// The point is on the bottom; the baseline is a fifth of the size above.
    Bottom,
    /// The point is on the top; the baseline is four fifths of the size below.
    Top,
}

/// One run of characters, already positioned.
#[derive(Debug, PartialEq, Eq)]
pub struct Text {
    /// The reference point's position across the page.
    pub x: Coord,
    /// The left edge of each character: its distance from the reference point
    /// in quarters of a logical unit, scaled as `x` is.
    pub xs: Vec<i128>,
    /// The reference point's position down the page.
    pub y: Coord,
    /// How the baseline of the run lies to the reference point.
    pub hang: Hang,
    /// The characters, one per entry in `xs`.
    pub chars: Vec<char>,
    /// The source font family selected for this run.
    pub font_kind: FontKind,
    /// Character height.
    pub size: Length,
    /// Tenths of a degree counter-clockwise; 0 for ordinary horizontal text.
    pub escapement: i32,
    pub rgb: Rgb,
    /// Position in the source's draw order.
    pub order: usize,
    /// The face asked for a bold weight.
    pub bold: bool,
    /// The face asked for an underline.
    pub underline: bool,
}

/// Where the pixels of a placed picture come from.
#[derive(Debug, Clone, Copy, PartialEq, Eq)]
pub enum Source {
    /// A picture stored beside the sheet in the container, named by the order
    /// in which the sheet calls for its pictures and by its stored size.
    Stored { ordinal: usize, px: (u32, u32) },
    /// A bitmap carried inside the metafile itself: `rasters[index]`.
    Inline(usize),
}

/// How a bitmap placement combines with what is there. A colour picture
/// between two inverting placements with a masking one is one masked picture.
#[derive(Debug, Clone, Copy, PartialEq, Eq, Structural)]
pub enum RasterOp {
    Copy,
    And,
    SourceInvert,
    MaskPaint,
    Other(u32),
}

/// The operation that a ternary raster code of the metafile formats names.
pub open spec fn raster_op(code: u32) -> RasterOp {
    if code == 0x00CC_0020 {
        RasterOp::Copy
    } else if code == 0x0088_00C6 {
        RasterOp::And
    } else if code == 0x0066_0046 {
        RasterOp::SourceInvert
    } else if code == 0x00B8_074A {
        RasterOp::MaskPaint
    } else {
        RasterOp::Other(code)
    }
}

impl RasterOp {
    /// The operation that a ternary raster code of the metafile formats names.
    pub fn from_code(code: u32) -> (op: RasterOp)
        ensures
            op == raster_op(code),
    {
        match code {
            0x00CC_0020 => RasterOp::Copy,
            0x0088_00C6 => RasterOp::And,
            0x0066_0046 => RasterOp::SourceInvert,
            0x00B8_074A => RasterOp::MaskPaint,
            other => RasterOp::Other(other),
        }
    }
}

/// How a fill or shape combines with what is under it.
#[derive(Debug, Clone, Copy, PartialEq, Eq, Structural)]
pub enum BlendMode {
    Normal,
    Multiply,
}

/// An axis-aligned rectangle.
#[derive(Debug, Clone, Copy, PartialEq, Eq)]
pub struct Rect {
    pub left: Coord,
    pub top: Coord,
    pub right: Coord,
    pub bottom: Coord,
}

impl Rect {
    /// The same rectangle.
    pub open spec fn same(self, other: Rect) -> bool {
        self.left.same(other.left) && self.top.same(other.top) && self.right.same(other.right)
            && self.bottom.same(other.bottom)
    }

    /// Whether both are the same rectangle.
    pub fn is_same(&self, other: &Rect) -> (r: bool)
        ensures
            r == self.same(*other),
    {
        self.left.is_same(&other.left) && self.top.is_same(&other.top) && self.right.is_same(
            &other.right,
        ) && self.bottom.is_same(&other.bottom)
    }
}

/// One picture placed on the page.
#[derive(Debug, Clone, Copy, PartialEq, Eq)]
pub struct Image {
    /// Where it is drawn.
    pub left: Coord,
    pub top: Coord,
    pub right: Coord,
    pub bottom: Coord,
    /// Size of the stored picture this draws, in pixels.
    pub src: (u32, u32),
    /// Which pixels to draw.
    pub source: Source,
    /// The raster operation used for this placement.
    pub raster_op: RasterOp,
    /// Position in the source's draw order.
    pub order: usize,
    /// The clip rectangle in force when the picture was drawn, if narrower
    /// than the page.
    pub clip: Option<Rect>,
    /// A path the picture is clipped to: `paths[index]`.
    pub clip_path: Option<usize>,
}

/// A filled rectangle: a rule, a border, or a block of colour.
#[derive(Debug, Clone, Copy, PartialEq, Eq)]
pub struct Fill {
    pub left: Coord,
    pub top: Coord,
    pub right: Coord,
    pub bottom: Coord,
    pub rgb: Rgb,
    pub blend: BlendMode,
    /// Position in the source's draw order.
    pub order: usize,
    /// The rectangle the fill was clipped to, if narrower than the page.
    pub clip: Option<Rect>,
    /// A path the fill is clipped to: `paths[index]`. Gradients and textured
    /// lettering are drawn as many thin rectangles clipped to the outline.
    pub clip_path: Option<usize>,
}

/// A point of the page, across and down.
pub type Point = (Coord, Coord);

/// One piece of a figure: a straight line or a cubic curve to a point.
#[derive(Debug, Clone, Copy, PartialEq, Eq)]
pub enum Segment {
    Line(Point),
    Curve(Point, Point, Point),
}

/// One connected run of a path, starting with a move.
#[derive(Debug, PartialEq, Eq)]
pub struct Figure {
    pub start: Point,
    pub segments: Vec<Segment>,
    /// Whether the outline returns to `start`. Filling closes every figure
    /// regardless.
    pub closed: bool,
}

/// A figure as a value.
pub struct FigureModel {
    pub start: Point,
    pub segments: Seq<Segment>,
    pub closed: bool,
}

impl View for Figure {
    type V = FigureModel;

    open spec fn view(&self) -> FigureModel {
        FigureModel { start: self.start, segments: self.segments@, closed: self.closed }
    }
}

/// The figures as values.
pub open spec fn figure_models(v: Seq<Figure>) -> Seq<FigureModel> {
    Seq::new(v.len(), |i: int| v[i]@)
}

/// A path of figures.
#[derive(Debug, PartialEq, Eq)]
pub struct Path {
    pub figures: Vec<Figure>,
    /// Fill by the even-odd rule instead of the non-zero winding rule.
    pub even_odd: bool,
}

/// A path as a value.
pub struct PathModel {
    pub figures: Seq<FigureModel>,
    pub even_odd: bool,
}

impl View for Path {
    type V = PathModel;

    open spec fn view(&self) -> PathModel {
        PathModel { figures: figure_models(self.figures@), even_odd: self.even_odd }
    }
}

/// The paths as values.
pub open spec fn path_models(v: Seq<Path>) -> Seq<PathModel> {
    Seq::new(v.len(), |i: int| v[i]@)
}

/// The same point.
pub open spec fn same_point(a: Point, b: Point) -> bool {
    a.0.same(b.0) && a.1.same(b.1)
}

/// The same piece of a figure.
pub open spec fn same_segment(a: Segment, b: Segment) -> bool {
    match (a, b) {
        (Segment::Line(p), Segment::Line(q)) => same_point(p, q),
        (Segment::Curve(p, q, r), Segment::Curve(s, t, u)) => same_point(p, s) && same_point(q, t)
            && same_point(r, u),
        _ => false,
    }
}

/// The same outline, piece by piece.
pub open spec fn same_figure(a: FigureModel, b: FigureModel) -> bool {
    &&& same_point(a.start, b.start)
    &&& a.closed == b.closed
    &&& a.segments.len() == b.segments.len()
    &&& forall|i: int|
        0 <= i < a.segments.len() ==> same_segment(#[trigger] a.segments[i], b.segments[i])
}

/// The same path, figure by figure.
pub open spec fn same_path(a: PathModel, b: PathModel) -> bool {
    &&& a.even_odd == b.even_odd
    &&& a.figures.len() == b.figures.len()
    &&& forall|i: int|
        0 <= i < a.figures.len() ==> same_figure(#[trigger] a.figures[i], b.figures[i])
}

fn is_same_point(a: &Point, b: &Point) -> (r: bool)
    ensures
        r == same_point(*a, *b),
{
    a.0.is_same(&b.0) && a.1.is_same(&b.1)
}

fn is_same_segment(a: &Segment, b: &Segment) -> (r: bool)
    ensures
        r == same_segment(*a, *b),
{
    match (a, b) {
        (Segment::Line(p), Segment::Line(q)) => is_same_point(p, q),
        (Segment::Curve(p, q, r), Segment::Curve(s, t, u)) => is_same_point(p, s)
            && is_same_point(q, t) && is_same_point(r, u),
        _ => false,
    }
}

fn is_same_figure(a: &Figure, b: &Figure) -> (r: bool)
    ensures
        r == same_figure(a@, b@),
{
    if !is_same_point(&a.start, &b.start) || a.closed != b.closed || a.segments.len()
        != b.segments.len() {
        return false;
    }
    let mut i: usize = 0;
    while i < a.segments.len()
        invariant
            i <= a.segments@.len(),
            a.segments@.len() == b.segments@.len(),
            forall|k: int|
                0 <= k < i ==> same_segment(#[trigger] a.segments@[k], b.segments@[k]),
        decreases a.segments@.len() - i,
    {
        if !is_same_segment(&a.segments[i], &b.segments[i]) {
            assert(!same_segment(a@.segments[i as int], b@.segments[i as int]));
            return false;
        }
        i += 1;
    }
    true
}

impl Path {
    pub fn is_empty(&self) -> (r: bool)
        ensures
            r == (self@.figures.len() == 0),
    {
        self.figures.len() == 0
    }

    /// Whether both are the same path.
    pub fn is_same(&self, other: &Path) -> (r: bool)
        ensures
            r == same_path(self@, other@),
    {
        if self.even_odd != other.even_odd || self.figures.len() != other.figures.len() {
            return false;
        }
        let mut i: usize = 0;
        while i < self.figures.len()
            invariant
                i <= self.figures@.len(),
                self.figures@.len() == other.figures@.len(),
                forall|k: int|
                    0 <= k < i ==> same_figure(#[trigger] self@.figures[k], other@.figures[k]),
            decreases self.figures@.len() - i,
        {
            if !is_same_figure(&self.figures[i], &other.figures[i]) {
                assert(!same_figure(self@.figures[i as int], other@.figures[i as int]));
                return false;
            }
            i += 1;
        }
        true
    }
}

/// A path painted onto the page: filled with a brush and/or outlined with a
/// pen.
#[derive(Debug, PartialEq, Eq)]
pub struct Shape {
    pub path: Path,
    /// Fill colour, if the brush paints anything.
    pub fill: Option<Rgb>,
    /// Outline colour and width, if the pen draws anything.
    pub stroke: Option<(Rgb, Length)>,
    pub blend: BlendMode,
    /// Position in the source's draw order.
    pub order: usize,
    /// The rectangle the drawing was clipped to, if narrower than the page.
    pub clip: Option<Rect>,
}

/// A text run as a value.
pub struct TextModel {
    pub x: Coord,
    pub xs: Seq<i128>,
    pub y: Coord,
    pub hang: Hang,
    pub chars: Seq<char>,
    pub font_kind: FontKind,
    pub size: Length,
    pub escapement: i32,
    pub rgb: Rgb,
    pub order: usize,
    pub bold: bool,
    pub underline: bool,
}

impl View for Text {
    type V = TextModel;

    open spec fn view(&self) -> TextModel {
        TextModel {
            x: self.x,
            xs: self.xs@,
            y: self.y,
            hang: self.hang,
            chars: self.chars@,
            font_kind: self.font_kind,
            size: self.size,
            escapement: self.escapement,
            rgb: self.rgb,
            order: self.order,
            bold: self.bold,
            underline: self.underline,
        }
    }
}

/// The runs as values.
pub open spec fn text_models(v: Seq<Text>) -> Seq<TextModel> {
    Seq::new(v.len(), |i: int| v[i]@)
}

/// A shape as a value.
pub struct ShapeModel {
    pub path: PathModel,
    pub fill: Option<Rgb>,
    pub stroke: Option<(Rgb, Length)>,
    pub blend: BlendMode,
    pub order: usize,
    pub clip: Option<Rect>,
}

impl View for Shape {
    type V = ShapeModel;

    open spec fn view(&self) -> ShapeModel {
        ShapeModel {
            path: self.path@,
            fill: self.fill,
            stroke: self.stroke,
            blend: self.blend,
            order: self.order,
            clip: self.clip,
        }
    }
}

/// The shapes as values.
pub open spec fn shape_models(v: Seq<Shape>) -> Seq<ShapeModel> {
    Seq::new(v.len(), |i: int| v[i]@)
}

/// A bitmap as a value.
pub struct RasterModel {
    pub width: u32,
    pub height: u32,
    pub bits: u8,
    pub palette: Seq<Rgb>,
    pub rows: Seq<u8>,
    pub stencil: Option<Rgb>,
}

impl View for Raster {
    type V = RasterModel;

    open spec fn view(&self) -> RasterModel {
        RasterModel {
            width: self.width,
            height: self.height,
            bits: self.bits,
            palette: self.palette@,
            rows: self.rows@,
            stencil: self.stencil,
        }
    }
}

/// The bitmaps as values.
pub open spec fn raster_models(v: Seq<Raster>) -> Seq<RasterModel> {
    Seq::new(v.len(), |i: int| v[i]@)
}

/// A decoded page reduced to the drawing primitives that can be drawn.
#[derive(Debug, PartialEq, Eq)]
pub struct Metafile {
    /// Page size in device units, from the source's device size.
    pub device: (i32, i32),
    /// Page size in hundredths of a millimetre, from the source frame.
    pub frame_mm100: (i32, i32),
    /// Text runs, in source draw order.
    pub text: Vec<Text>,
    /// Pictures, in source draw order.
    pub images: Vec<Image>,
    /// Bitmaps carried inside the page, referenced by `Source::Inline`.
    pub rasters: Vec<Raster>,
    /// Filled rectangles: rules, borders and blocks of colour.
    pub fills: Vec<Fill>,
    /// Polygons, polylines and curves.
    pub shapes: Vec<Shape>,
    /// Clip paths referenced by fills and pictures, each stored once.
    pub paths: Vec<Path>,
    /// How many drawing operations were clipped to a path.
    pub shape_masks: usize,
    /// Record types read but not drawn, with their counts.
    pub skipped: HashMap<u32, usize>,
    /// Records in the source, as its header declares.
    pub records: u32,
}

/// A decoded page as a value.
pub struct MetafileModel {
    pub device: (i32, i32),
    pub frame_mm100: (i32, i32),
    pub text: Seq<TextModel>,
    pub images: Seq<Image>,
    pub rasters: Seq<RasterModel>,
    pub fills: Seq<Fill>,
    pub shapes: Seq<ShapeModel>,
    pub paths: Seq<PathModel>,
    pub shape_masks: usize,
    pub skipped: Map<u32, usize>,
    pub records: u32,
}

impl View for Metafile {
    type V = MetafileModel;

    open spec fn view(&self) -> MetafileModel {
        MetafileModel {
            device: self.device,
            frame_mm100: self.frame_mm100,
            text: text_models(self.text@),
            images: self.images@,
            rasters: raster_models(self.rasters@),
            fills: self.fills@,
            shapes: shape_models(self.shapes@),
            paths: path_models(self.paths@),
            shape_masks: self.shape_masks,
            skipped: self.skipped@,
            records: self.records,
        }
    }
}

/// A page with nothing on it.
pub open spec fn blank_page(device: (i32, i32), frame_mm100: (i32, i32)) -> MetafileModel {
    MetafileModel {
        device,
        frame_mm100,
        text: Seq::empty(),
        images: Seq::empty(),
        rasters: Seq::empty(),
        fills: Seq::empty(),
        shapes: Seq::empty(),
        paths: Seq::empty(),
        shape_masks: 0,
        skipped: Map::empty(),
        records: 0,
    }
}

impl MetafileModel {
    /// Nothing is drawn.
    pub open spec fn is_blank(self) -> bool {
        self.text.len() == 0 && self.images.len() == 0 && self.fills.len() == 0
            && self.shapes.len() == 0
    }
}

impl Default for Metafile {
    fn default() -> (m: Metafile)
        ensures
            m@ == blank_page((0, 0), (0, 0)),
    {
        Metafile::blank((0, 0), (0, 0))
    }
}

/// The sizes of the stored pictures among the first `n` images, each once.
pub open spec fn sizes_below(images: Seq<Image>, n: int) -> Seq<(u32, u32)>
    decreases n,
{
    if n <= 0 {
        Seq::empty()
    } else {
        let before = sizes_below(images, n - 1);
        if images[n - 1].source is Stored && !before.contains(images[n - 1].src) {
            before.push(images[n - 1].src)
        } else {
            before
        }
    }
}

/// One more than the largest ordinal that the first `n` images call for.
pub open spec fn called_below(images: Seq<Image>, n: int) -> int
    decreases n,
{
    if n <= 0 {
        0
    } else {
        let before = called_below(images, n - 1);
        match images[n - 1].source {
            Source::Stored { ordinal, .. } => if ordinal + 1 > before {
                ordinal + 1
            } else {
                before
            },
            Source::Inline(_) => before,
        }
    }
}

impl Metafile {
    /// A page of a size, with nothing on it.
    pub fn blank(device: (i32, i32), frame_mm100: (i32, i32)) -> (m: Metafile)
        ensures
            m@ == blank_page(device, frame_mm100),
    {
        let m = Metafile {
            device,
            frame_mm100,
            text: Vec::new(),
            images: Vec::new(),
            rasters: Vec::new(),
            fills: Vec::new(),
            shapes: Vec::new(),
            paths: Vec::new(),
            shape_masks: 0,
            skipped: HashMap::new(),
            records: 0,
        };
        proof {
            assert(m@.text =~= Seq::<TextModel>::empty());
            assert(m@.rasters =~= Seq::<RasterModel>::empty());
            assert(m@.shapes =~= Seq::<ShapeModel>::empty());
            assert(m@.paths =~= Seq::<PathModel>::empty());
            assert(m@.skipped =~= Map::<u32, usize>::empty());
        }
        m
    }

    /// Whether anything at all was recovered from this page.
    pub fn is_empty(&self) -> (r: bool)
        ensures
            r == self@.is_blank(),
    {
        self.text.len() == 0 && self.images.len() == 0 && self.fills.len() == 0
            && self.shapes.len() == 0
    }

    /// The sizes of the stored pictures this page draws, each listed once.
    pub fn image_sizes(&self) -> (out: Vec<(u32, u32)>)
        ensures
            out@ == sizes_below(self.images@, self.images@.len() as int),
    {
        let mut out: Vec<(u32, u32)> = Vec::new();
        let mut i: usize = 0;
        while i < self.images.len()
            invariant
                i <= self.images@.len(),
                out@ == sizes_below(self.images@, i as int),
            decreases self.images@.len() - i,
        {
            let stored: bool = match self.images[i].source {
                Source::Stored { .. } => true,
                Source::Inline(_) => false,
            };
            let src: (u32, u32) = self.images[i].src;
            if stored && !has_size(&out, src) {
                out.push(src);
            }
            i += 1;
        }
        out
    }

    /// How many stored pictures the page calls for.
    pub fn stored_pictures(&self) -> (n: usize)
        requires
            called_below(self.images@, self.images@.len() as int) <= usize::MAX,
        ensures
            n == called_below(self.images@, self.images@.len() as int),
    {
        let mut n: usize = 0;
        let mut i: usize = 0;
        while i < self.images.len()
            invariant
                i <= self.images@.len(),
                n == called_below(self.images@, i as int),
                called_below(self.images@, self.images@.len() as int) <= usize::MAX,
            decreases self.images@.len() - i,
        {
            proof {
                lemma_called_grows(self.images@, i + 1, self.images@.len() as int);
            }
            match self.images[i].source {
                Source::Stored { ordinal, .. } => {
                    if ordinal >= n {
                        n = ordinal + 1;
                    }
                },
                Source::Inline(_) => {},
            }
            i += 1;
        }
        n
    }
}

proof fn lemma_called_grows(images: Seq<Image>, a: int, b: int)
    requires
        a <= b,
    ensures
        called_below(images, a) <= called_below(images, b),
    decreases b,
{
    if a < b && b > 0 {
        lemma_called_grows(images, a, b - 1);
    }
}

fn has_size(v: &Vec<(u32, u32)>, size: (u32, u32)) -> (r: bool)
    ensures
        r == v@.contains(size),
{
    let mut i: usize = 0;
    while i < v.len()
        invariant
            i <= v@.len(),
            forall|k: int| 0 <= k < i ==> #[trigger] v@[k] != size,
        decreases v@.len() - i,
    {
        if v[i].0 == size.0 && v[i].1 == size.1 {
            assert(v@[i as int] == size);
            return true;
        }
        i += 1;
    }
    false
}

// ----------------------------------------------------- pairing stored pictures

/// Every stored picture is called for twice in a row, at one size: a mask pass
/// and a colour pass.
pub open spec fn two_passes(
    calls: Seq<(usize, (u32, u32))>,
    stored: Seq<Option<(u32, u32)>>,
) -> bool {
    &&& stored.len() > 0
    &&& calls.len() == 2 * stored.len()
    &&& forall|k: int| 0 <= k < stored.len() ==> (#[trigger] calls[2 * k]).1 == calls[2 * k + 1].1
}

/// The first picture from `k` on that is free and, where the size is known, of
/// that size.
pub open spec fn free_from(
    stored: Seq<Option<(u32, u32)>>,
    taken: Seq<bool>,
    px: Option<(u32, u32)>,
    k: int,
) -> Option<usize>
    decreases stored.len() - k,
{
    if k < 0 || k >= stored.len() {
        None
    } else if !taken[k] && (px is None || stored[k] == px) {
        Some(k as usize)
    } else {
        free_from(stored, taken, px, k + 1)
    }
}

/// The last picture below `k` of a size.
pub open spec fn last_of_size(
    stored: Seq<Option<(u32, u32)>>,
    px: (u32, u32),
    k: int,
) -> Option<usize>
    decreases k,
{
    if k <= 0 {
        None
    } else if stored[k - 1] == Some(px) {
        Some((k - 1) as usize)
    } else {
        last_of_size(stored, px, k - 1)
    }
}

/// A size that says something.
pub open spec fn known_size(px: (u32, u32)) -> Option<(u32, u32)> {
    if px.0 > 0 && px.1 > 0 {
        Some(px)
    } else {
        None
    }
}

/// Which picture a call of a size takes: the first free one of the size, else
/// the last one of the size, else the first free one.
pub open spec fn picture_for(
    stored: Seq<Option<(u32, u32)>>,
    taken: Seq<bool>,
    px: (u32, u32),
) -> Option<usize> {
    let known = known_size(px);
    let fresh = free_from(stored, taken, known, 0);
    if fresh is Some {
        fresh
    } else if known is Some && last_of_size(stored, px, stored.len() as int) is Some {
        last_of_size(stored, px, stored.len() as int)
    } else {
        free_from(stored, taken, None, 0)
    }
}

/// What the first `n` calls take, and which pictures are taken after them.
pub open spec fn taken_by(
    calls: Seq<(usize, (u32, u32))>,
    stored: Seq<Option<(u32, u32)>>,
    n: int,
) -> (Seq<Option<usize>>, Seq<bool>)
    decreases n,
{
    if n <= 0 {
        (Seq::empty(), Seq::new(stored.len(), |i: int| false))
    } else {
        let (picks, taken) = taken_by(calls, stored, n - 1);
        let pick = picture_for(stored, taken, calls[n - 1].1);
        (
            picks.push(pick),
            match pick {
                Some(k) => taken.update(k as int, true),
                None => taken,
            },
        )
    }
}

/// Which stored picture each call draws.
pub open spec fn pairing(
    calls: Seq<(usize, (u32, u32))>,
    stored: Seq<Option<(u32, u32)>>,
) -> Seq<Option<usize>> {
    if two_passes(calls, stored) {
        Seq::new(calls.len(), |i: int| Some((i / 2) as usize))
    } else {
        taken_by(calls, stored, calls.len() as int).0
    }
}

fn find_free(
    stored: &[Option<(u32, u32)>],
    taken: &Vec<bool>,
    px: Option<(u32, u32)>,
) -> (r: Option<usize>)
    requires
        taken@.len() == stored@.len(),
    ensures
        r == free_from(stored@, taken@, px, 0),
        r matches Some(k) ==> k < stored@.len(),
{
    let mut k: usize = 0;
    while k < stored.len()
        invariant
            k <= stored@.len(),
            taken@.len() == stored@.len(),
            free_from(stored@, taken@, px, 0) == free_from(stored@, taken@, px, k as int),
        decreases stored@.len() - k,
    {
        let fits: bool = match (px, stored[k]) {
            (None, _) => true,
            (Some(a), Some(b)) => a.0 == b.0 && a.1 == b.1,
            (Some(_), None) => false,
        };
        if !taken[k] && fits {
            return Some(k);
        }
        k += 1;
    }
    None
}

fn find_last(stored: &[Option<(u32, u32)>], px: (u32, u32)) -> (r: Option<usize>)
    ensures
        r == last_of_size(stored@, px, stored@.len() as int),
        r matches Some(k) ==> k < stored@.len(),
{
    let mut k: usize = stored.len();
    while k > 0
        invariant
            k <= stored@.len(),
            last_of_size(stored@, px, stored@.len() as int) == last_of_size(
                stored@,
                px,
                k as int,
            ),
        decreases k,
    {
        let same: bool = match stored[k - 1] {
            Some(s) => s.0 == px.0 && s.1 == px.1,
            None => false,
        };
        if same {
            return Some(k - 1);
        }
        k -= 1;
    }
    None
}

fn find_picture(stored: &[Option<(u32, u32)>], taken: &Vec<bool>, px: (u32, u32)) -> (r: Option<
    usize,
>)
    requires
        taken@.len() == stored@.len(),
    ensures
        r == picture_for(stored@, taken@, px),
        r matches Some(k) ==> k < stored@.len(),
{
    let known: Option<(u32, u32)> = if px.0 > 0 && px.1 > 0 {
        Some(px)
    } else {
        None
    };
    let fresh = find_free(stored, taken, known);
    if fresh.is_some() {
        return fresh;
    }
    if known.is_some() {
        let last = find_last(stored, px);
        if last.is_some() {
            return last;
        }
    }
    find_free(stored, taken, None)
}

fn is_two_passes(calls: &[(usize, (u32, u32))], stored: &[Option<(u32, u32)>]) -> (r: bool)
    ensures
        r == two_passes(calls@, stored@),
{
    if stored.len() == 0 || calls.len() % 2 != 0 || calls.len() / 2 != stored.len() {
        return false;
    }
    let mut k: usize = 0;
    while k < stored.len()
        invariant
            k <= stored@.len(),
            calls.len() == 2 * stored@.len(),
            forall|j: int| 0 <= j < k ==> (#[trigger] calls@[2 * j]).1 == calls@[2 * j + 1].1,
        decreases stored@.len() - k,
    {
        let a: (u32, u32) = calls[2 * k].1;
        let b: (u32, u32) = calls[2 * k + 1].1;
        if a.0 != b.0 || a.1 != b.1 {
            assert(calls@[2 * k as int].1 != calls@[2 * k + 1].1);
            return false;
        }
        k += 1;
    }
    true
}

/// Pairs the stored pictures a page calls for with the pictures kept beside
/// the sheet.
///
/// `calls` lists each ordinal the page named, with the pixel size it drew at,
/// in ordinal order; `stored` lists the sizes of the pictures beside the sheet
/// in storage order. The container keeps each distinct picture once, so a tile
/// placed thirty times is one stored picture named thirty times. Returns, per
/// call, the index into `stored`.
pub fn pair_pictures(calls: &[(usize, (u32, u32))], stored: &[Option<(u32, u32)>]) -> (out: Vec<
    Option<usize>,
>)
    ensures
        out@ == pairing(calls@, stored@),
{
    let mut out: Vec<Option<usize>> = Vec::new();
    let mut i: usize = 0;
    if is_two_passes(calls, stored) {
        while i < calls.len()
            invariant
                i <= calls@.len(),
                out@ == Seq::new(i as nat, |k: int| Some((k / 2) as usize)),
            decreases calls@.len() - i,
        {
            out.push(Some(i / 2));
            i += 1;
            proof {
                assert(out@ =~= Seq::new(i as nat, |k: int| Some((k / 2) as usize)));
            }
        }
        return out;
    }
    let mut taken: Vec<bool> = Vec::new();
    while taken.len() < stored.len()
        invariant
            taken@.len() <= stored@.len(),
            forall|k: int| 0 <= k < taken@.len() ==> !(#[trigger] taken@[k]),
        decreases stored@.len() - taken@.len(),
    {
        taken.push(false);
    }
    proof {
        assert(taken@ =~= Seq::new(stored@.len(), |i: int| false));
    }
    while i < calls.len()
        invariant
            i <= calls@.len(),
            taken@.len() == stored@.len(),
            taken_by(calls@, stored@, i as int) == (out@, taken@),
        decreases calls@.len() - i,
    {
        let pick = find_picture(stored, &taken, calls[i].1);
        match pick {
            Some(k) => {
                taken.set(k, true);
            },
            None => {},
        }
        out.push(pick);
        i += 1;
    }
    out
}

proof fn lemma_free_from(
    stored: Seq<Option<(u32, u32)>>,
    taken: Seq<bool>,
    px: Option<(u32, u32)>,
    k: int,
)
    requires
        stored.len() <= usize::MAX,
    ensures
        free_from(stored, taken, px, k) matches Some(i) ==> i < stored.len() && !taken[i as int]
            && (px is None || stored[i as int] == px),
        k >= 0 && free_from(stored, taken, px, k) is None ==> forall|i: int|
            k <= i < stored.len() && !(#[trigger] taken[i]) ==> px is Some && stored[i] != px,
    decreases stored.len() - k,
{
    if 0 <= k < stored.len() && !(!taken[k] && (px is None || stored[k] == px)) {
        lemma_free_from(stored, taken, px, k + 1);
    }
}

proof fn lemma_last_of_size(stored: Seq<Option<(u32, u32)>>, px: (u32, u32), k: int)
    requires
        0 <= k <= stored.len() <= usize::MAX,
    ensures
        last_of_size(stored, px, k) matches Some(i) ==> i < k && stored[i as int] == Some(px),
        last_of_size(stored, px, k) is None ==> forall|i: int|
            0 <= i < k ==> #[trigger] stored[i] != Some(px),
    decreases k,
{
    if k > 0 {
        lemma_last_of_size(stored, px, k - 1);
    }
}

proof fn lemma_taken(calls: Seq<(usize, (u32, u32))>, stored: Seq<Option<(u32, u32)>>, n: int)
    requires
        0 <= n <= calls.len(),
        stored.len() <= usize::MAX,
    ensures
        taken_by(calls, stored, n).0.len() == n,
        taken_by(calls, stored, n).1.len() == stored.len(),
        forall|i: int|
            0 <= i < n ==> {
                let px = calls[i].1;
                match #[trigger] taken_by(calls, stored, n).0[i] {
                    Some(k) => k < stored.len() && (known_size(px) is Some && stored.contains(
                        Some(px),
                    ) ==> stored[k as int] == Some(px)),
                    None => known_size(px) is None || !stored.contains(Some(px)),
                }
            },
    decreases n,
{
    if n > 0 {
        lemma_taken(calls, stored, n - 1);
        let taken = taken_by(calls, stored, n - 1).1;
        let px = calls[n - 1].1;
        lemma_free_from(stored, taken, known_size(px), 0);
        lemma_free_from(stored, taken, None, 0);
        lemma_last_of_size(stored, px, stored.len() as int);
    }
}

/// Unless every picture is called for in two passes, a call of a known size
/// that was stored draws a picture of that size; and whatever a call draws was
/// stored.
pub proof fn law_calls_draw_their_size(
    calls: Seq<(usize, (u32, u32))>,
    stored: Seq<Option<(u32, u32)>>,
    i: int,
)
    requires
        stored.len() <= usize::MAX,
        0 <= i < calls.len(),
    ensures
        pairing(calls, stored).len() == calls.len(),
        pairing(calls, stored)[i] matches Some(k) ==> k < stored.len(),
        !two_passes(calls, stored) && known_size(calls[i].1) is Some && stored.contains(
            Some(calls[i].1),
        ) ==> (pairing(calls, stored)[i] matches Some(k) && stored[k as int] == Some(calls[i].1)),
{
    lemma_taken(calls, stored, calls.len() as int);
}


/// A bitmap carried inside the page itself, rows top-down and packed to the
/// octet with no padding, the way PDF and PNG both want them.
#[derive(Debug, Clone, PartialEq, Eq)]
pub struct Raster {
    pub width: u32,
    pub height: u32,
    /// 1, 4 or 8 for palette indices, 24 for packed red, green, blue.
    pub bits: u8,
    /// Colours for index values; empty for 24-bit data.
    pub palette: Vec<(u8, u8, u8)>,
    pub rows: Vec<u8>,
    /// A one-bit stencil rather than a picture: zero bits are painted in this
    /// colour and one bits leave the page as it was.
    pub stencil: Option<(u8, u8, u8)>,
}

/// Octets that a row of `width` pixels of `bits` bits takes.
pub open spec fn row_octets(width: int, bits: int) -> int {
    (width * bits + 7) / 8
}

impl Raster {
    /// A row can be measured: its bits can be counted in a `usize`.
    pub open spec fn measurable(self) -> bool {
        self.width * self.bits + 7 <= usize::MAX
    }

    /// The rows hold exactly the pixels that the size calls for.
    pub open spec fn full(self) -> bool {
        self.rows@.len() == row_octets(self.width as int, self.bits as int) * self.height
    }

    /// Octets per row.
    pub fn stride(&self) -> (n: usize)
        requires
            self.measurable(),
        ensures
            n == row_octets(self.width as int, self.bits as int),
    {
        proof {
            assert(self.width * self.bits >= 0) by (nonlinear_arith)
                requires
                    self.width >= 0,
                    self.bits >= 0,
            ;
        }
        (self.width as usize * self.bits as usize + 7) / 8
    }

    /// Whether the palette is exactly black and white, which readers show
    /// faster as a one-bit grey image than through a palette.
    pub fn is_bilevel(&self) -> (r: bool)
        ensures
            r == (self.bits == 1 && (self.palette@ == seq![
                (0u8, 0u8, 0u8),
                (255u8, 255u8, 255u8),
            ] || self.palette@ == seq![(255u8, 255u8, 255u8), (0u8, 0u8, 0u8)])),
    {
        if self.bits != 1 || self.palette.len() != 2 {
            return false;
        }
        let a = self.palette[0];
        let b = self.palette[1];
        proof {
            assert(self.palette@ =~= seq![a, b]);
            assert(seq![(0u8, 0u8, 0u8), (255u8, 255u8, 255u8)][0] == (0u8, 0u8, 0u8));
            assert(seq![(0u8, 0u8, 0u8), (255u8, 255u8, 255u8)][1] == (255u8, 255u8, 255u8));
            assert(seq![(255u8, 255u8, 255u8), (0u8, 0u8, 0u8)][0] == (255u8, 255u8, 255u8));
            assert(seq![(255u8, 255u8, 255u8), (0u8, 0u8, 0u8)][1] == (0u8, 0u8, 0u8));
        }
        (a.0 == 0 && a.1 == 0 && a.2 == 0 && b.0 == 255 && b.1 == 255 && b.2 == 255) || (a.0 == 255
            && a.1 == 255 && a.2 == 255 && b.0 == 0 && b.1 == 0 && b.2 == 0)
    }
}

} // verus!
