//! What holds of the records of both metafile flavours: what is written in
//! either is what is drawn.
use crate::domain::rendering::{
    BlendMode, Coord, FigureModel, MetafileModel, PathModel, Point, Segment, ShapeModel,
};
use crate::infrastructure::emf;
use crate::infrastructure::gdi::{CanvasModel, State};
use crate::infrastructure::octets::{i16_of, i32_of, u16_of, u32_of};
use vstd::prelude::*;

verus! {

// ----------------------------------------------------------------- the numbers

/// Numbers of 32 bits as they stand in a record: the lowest octet first.
pub open spec fn longs(v: Seq<int>) -> Seq<u8> {
    Seq::new(
        4 * v.len(),
        |k: int|
            {
                let n = v[k / 4] % 0x1_0000_0000;
                (if k % 4 == 0 {
                    n % 256
                } else if k % 4 == 1 {
                    n / 256 % 256
                } else if k % 4 == 2 {
                    n / 0x1_0000 % 256
                } else {
                    n / 0x100_0000
                }) as u8
            },
    )
}

/// Numbers of 16 bits as they stand in a record: the lower octet first.
pub open spec fn shorts(v: Seq<int>) -> Seq<u8> {
    Seq::new(
        2 * v.len(),
        |k: int|
            {
                let n = v[k / 2] % 0x1_0000;
                (if k % 2 == 0 {
                    n % 256
                } else {
                    n / 256
                }) as u8
            },
    )
}

proof fn lemma_four_octets(n: int)
    requires
        0 <= n < 0x1_0000_0000,
    ensures
        n % 256 + 0x100 * (n / 256 % 256) + 0x1_0000 * (n / 0x1_0000 % 256) + 0x100_0000 * (n
            / 0x100_0000) == n,
        0 <= n / 0x100_0000 < 256,
{
    assert(n / 256 == 256 * (n / 0x1_0000) + n / 256 % 256);
    assert(n / 0x1_0000 == 256 * (n / 0x100_0000) + n / 0x1_0000 % 256);
}

proof fn lemma_long_octets(v: Seq<int>, i: int)
    requires
        0 <= i < v.len(),
    ensures
        ({
            let n = v[i] % 0x1_0000_0000;
            let o = longs(v);
            &&& o[4 * i] == n % 256
            &&& o[4 * i + 1] == n / 256 % 256
            &&& o[4 * i + 2] == n / 0x1_0000 % 256
            &&& o[4 * i + 3] == n / 0x100_0000
        }),
{
    let n = v[i] % 0x1_0000_0000;
    lemma_four_octets(n);
    assert((4 * i) / 4 == i && (4 * i) % 4 == 0);
    assert((4 * i + 1) / 4 == i && (4 * i + 1) % 4 == 1);
    assert((4 * i + 2) / 4 == i && (4 * i + 2) % 4 == 2);
    assert((4 * i + 3) / 4 == i && (4 * i + 3) % 4 == 3);
}

pub proof fn lemma_long(head: Seq<u8>, v: Seq<int>, rest: Seq<u8>, i: int)
    requires
        0 <= i < v.len(),
    ensures
        u32_of(head + longs(v) + rest, head.len() + 4 * i) == Some(
            (v[i] % 0x1_0000_0000) as u32,
        ),
        -0x8000_0000 <= v[i] < 0x8000_0000 ==> i32_of(
            head + longs(v) + rest,
            head.len() + 4 * i,
        ) == Some(v[i] as i32),
{
    let o = longs(v);
    let s = head + o + rest;
    let at = head.len() + 4 * i;
    let n = v[i] % 0x1_0000_0000;
    assert(o.len() == 4 * v.len());
    assert(s[at] == o[4 * i]);
    assert(s[at + 1] == o[4 * i + 1]);
    assert(s[at + 2] == o[4 * i + 2]);
    assert(s[at + 3] == o[4 * i + 3]);
    lemma_long_octets(v, i);
    lemma_four_octets(n);
    assert(crate::infrastructure::tlv::le32(s, at) == n);
    if -0x8000_0000 <= v[i] < 0x8000_0000 {
        if v[i] < 0 {
            assert(n == v[i] + 0x1_0000_0000);
        } else {
            assert(n == v[i]);
        }
    }
}

pub proof fn lemma_short(head: Seq<u8>, v: Seq<int>, rest: Seq<u8>, i: int)
    requires
        0 <= i < v.len(),
    ensures
        u16_of(head + shorts(v) + rest, head.len() + 2 * i) == Some((v[i] % 0x1_0000) as u16),
        -0x8000 <= v[i] < 0x8000 ==> i16_of(head + shorts(v) + rest, head.len() + 2 * i) == Some(
            v[i] as i16,
        ),
{
    let s = head + shorts(v) + rest;
    let o = shorts(v);
    let at = head.len() + 2 * i;
    assert(s[at] == o[2 * i]);
    assert(s[at + 1] == o[2 * i + 1]);
    assert((2 * i) / 2 == i && (2 * i) % 2 == 0);
    assert((2 * i + 1) / 2 == i && (2 * i + 1) % 2 == 1);
    let n = v[i] % 0x1_0000;
    assert(n % 256 + 0x100 * (n / 256) == n);
    if -0x8000 <= v[i] < 0x8000 {
        if v[i] < 0 {
            assert(n == v[i] + 0x1_0000);
        } else {
            assert(n == v[i]);
        }
    }
}

/// Two numbers of 16 bits read as one of 32.
pub proof fn lemma_two_shorts(head: Seq<u8>, v: Seq<int>, rest: Seq<u8>, i: int)
    requires
        0 <= i,
        i + 1 < v.len(),
    ensures
        u32_of(head + shorts(v) + rest, head.len() + 2 * i) == Some(
            (v[i] % 0x1_0000 + 0x1_0000 * (v[i + 1] % 0x1_0000)) as u32,
        ),
{
    lemma_short(head, v, rest, i);
    lemma_short(head, v, rest, i + 1);
}

// -------------------------------------------------------------------- the page

/// Where a logical point lies on the page: so many units from the window
/// origin, so many pixels for each, and the viewport origin.
pub open spec fn spot(s: State, x: i32, y: i32) -> Point {
    let (across, down) = match (s.window_ext, s.viewport_ext) {
        (Some(w), Some(v)) => ((v.0, w.0), (v.1, w.1)),
        _ => ((1i32, 1i32), (1i32, 1i32)),
    };
    (
        Coord {
            offset: (x - s.window_org.0) as i64,
            per: 1,
            num: across.0,
            den: across.1,
            origin: s.viewport_org.0,
        },
        Coord {
            offset: (y - s.window_org.1) as i64,
            per: 1,
            num: down.0,
            den: down.1,
            origin: s.viewport_org.1,
        },
    )
}

/// The canvas with lines through the points: one shape more, drawn with the
/// pen, and filled with the brush where the lines are closed. Fewer than two
/// points draw nothing, nor does a canvas with neither.
#[verifier::opaque]
pub open spec fn outlined(c: CanvasModel, points: Seq<(i32, i32)>, closed: bool) -> CanvasModel {
    let order = if c.order < usize::MAX {
        (c.order + 1) as usize
    } else {
        c.order
    };
    let fill = if closed {
        c.state.brush
    } else {
        None
    };
    let figure = FigureModel {
        start: spot(c.state, points[0].0, points[0].1),
        segments: Seq::new(
            (points.len() - 1) as nat,
            |i: int| Segment::Line(spot(c.state, points[i + 1].0, points[i + 1].1)),
        ),
        closed,
    };
    let shape = ShapeModel {
        path: PathModel { figures: seq![figure], even_odd: c.state.even_odd },
        fill,
        stroke: c.state.pen,
        blend: BlendMode::Normal,
        order,
        clip: c.state.clip,
    };
    if points.len() < 2 || (fill is None && c.state.pen is None) {
        CanvasModel { order, ..c }
    } else {
        CanvasModel {
            order,
            page: MetafileModel { shapes: c.page.shapes.push(shape), ..c.page },
            ..c
        }
    }
}

pub proof fn lemma_outlined(c: CanvasModel, points: Seq<(i32, i32)>, closed: bool)
    ensures
        c.drawing_polygon(points, closed) == outlined(c, points, closed),
{
    reveal(outlined);
    if points.len() >= 2 {
        let pts = crate::infrastructure::gdi::mapped(c.state, points);
        let a = crate::infrastructure::gdi::line_figure(pts, closed);
        let b = Seq::new(
            (points.len() - 1) as nat,
            |i: int| Segment::Line(spot(c.state, points[i + 1].0, points[i + 1].1)),
        );
        assert(a.segments =~= b);
    }
}

/// What a record tells to do, in logical units.
pub enum Act {
    WindowOrigin(i32, i32),
    WindowExtent(i32, i32),
    ViewportOrigin(i32, i32),
    ViewportExtent(i32, i32),
    MoveTo(i32, i32),
    LineTo(i32, i32),
    /// From left, top, right and bottom.
    Rectangle(i32, i32, i32, i32),
    Ellipse(i32, i32, i32, i32),
    Clip(i32, i32, i32, i32),
    /// From left, top, width and height.
    Fill(i32, i32, i32, i32),
    /// Lines through points, closed or not.
    Outline(Seq<(i32, i32)>, bool),
    /// Red, green and blue.
    TextColour(u8, u8, u8),
    TextAlign(u16),
    /// Whether where two parts overlap is left out.
    EvenOdd(bool),
    Save,
    Restore(i32),
}

/// The canvas when that is done.
#[verifier::opaque]
pub open spec fn acted(c: CanvasModel, a: Act) -> CanvasModel {
    let s = c.state;
    match a {
        Act::WindowOrigin(x, y) => CanvasModel { state: State { window_org: (x, y), ..s }, ..c },
        Act::ViewportOrigin(x, y) => CanvasModel {
            state: State { viewport_org: (x, y), ..s },
            ..c
        },
        Act::WindowExtent(x, y) => if x == 0 || y == 0 {
            c
        } else {
            CanvasModel { state: State { window_ext: Some((x, y)), ..s }, ..c }
        },
        Act::ViewportExtent(x, y) => if x == 0 || y == 0 {
            c
        } else {
            CanvasModel { state: State { viewport_ext: Some((x, y)), ..s }, ..c }
        },
        Act::MoveTo(x, y) => CanvasModel { state: State { moved: Some((x, y)), ..s }, ..c },
        Act::LineTo(x, y) => {
            let d = match s.moved {
                Some(from) => outlined(c, seq![from, (x, y)], false),
                None => c,
            };
            CanvasModel { state: State { moved: Some((x, y)), ..s }, ..d }
        },
        Act::Rectangle(l, t, r, b) => outlined(c, seq![(l, t), (r, t), (r, b), (l, b)], true),
        Act::Ellipse(l, t, r, b) => c.drawing_ellipse(l, t, r, b),
        Act::Clip(l, t, r, b) => c.clipping(l, t, r, b),
        Act::Fill(x, y, w, h) => c.filling(x, y, w, h),
        Act::Outline(points, closed) => outlined(c, points, closed),
        Act::TextColour(r, g, b) => CanvasModel { state: State { text_rgb: (r, g, b), ..s }, ..c },
        Act::TextAlign(v) => CanvasModel { state: State { align: v as u32, ..s }, ..c },
        Act::EvenOdd(yes) => CanvasModel { state: State { even_odd: yes, ..s }, ..c },
        Act::Save => CanvasModel { saved_states: c.saved_states.push(s), ..c },
        Act::Restore(level) => c.restoring(level),
    }
}

/// The points one after another, across first.
pub open spec fn flat(points: Seq<(i32, i32)>) -> Seq<int> {
    Seq::new(
        2 * points.len(),
        |k: int|
            if k % 2 == 0 {
                points[k / 2].0 as int
            } else {
                points[k / 2].1 as int
            },
    )
}

// ------------------------------------------------------------- enhanced records

/// The number of the record of the enhanced flavour.
pub open spec fn emf_kind(a: Act) -> u32 {
    match a {
        Act::WindowExtent(_, _) => 9,
        Act::WindowOrigin(_, _) => 10,
        Act::ViewportExtent(_, _) => 11,
        Act::ViewportOrigin(_, _) => 12,
        Act::MoveTo(_, _) => 27,
        Act::LineTo(_, _) => 54,
        Act::Rectangle(_, _, _, _) => 43,
        Act::Ellipse(_, _, _, _) => 42,
        Act::Clip(_, _, _, _) => 30,
        Act::Fill(_, _, _, _) => 76,
        Act::Outline(_, closed) => if closed {
            3
        } else {
            4
        },
        Act::TextColour(_, _, _) => 24,
        Act::TextAlign(_) => 22,
        Act::EvenOdd(_) => 19,
        Act::Save => 33,
        Act::Restore(_) => 34,
    }
}

/// The numbers in the record, behind its number and its size. Those that draw
/// start with the bounds of what is drawn.
pub open spec fn emf_numbers(a: Act, bounds: Seq<int>) -> Seq<int> {
    match a {
        Act::WindowExtent(x, y) => seq![x as int, y as int],
        Act::WindowOrigin(x, y) => seq![x as int, y as int],
        Act::ViewportExtent(x, y) => seq![x as int, y as int],
        Act::ViewportOrigin(x, y) => seq![x as int, y as int],
        Act::MoveTo(x, y) => seq![x as int, y as int],
        Act::LineTo(x, y) => seq![x as int, y as int],
        Act::Rectangle(l, t, r, b) => seq![l as int, t as int, r as int, b as int],
        Act::Ellipse(l, t, r, b) => seq![l as int, t as int, r as int, b as int],
        Act::Clip(l, t, r, b) => seq![l as int, t as int, r as int, b as int],
        Act::Fill(x, y, w, h) => bounds + seq![
            x as int,
            y as int,
            w as int,
            h as int,
            0x00F0_0021int,
        ],
        Act::Outline(points, _) => bounds + seq![points.len() as int] + flat(points),
        Act::TextColour(r, g, b) => seq![r + 256 * g + 65536 * b],
        Act::TextAlign(v) => seq![v as int],
        Act::EvenOdd(yes) => seq![
            if yes {
                1int
            } else {
                2
            },
        ],
        Act::Save => seq![],
        Act::Restore(level) => seq![level as int],
    }
}

/// Lines have at most so many points.
pub open spec fn is_act(a: Act) -> bool {
    a matches Act::Outline(points, _) ==> points.len() <= 0x10_0000
}

/// The number of 32 bits stands in the record at `at`.
#[verifier::opaque]
spec fn says_long(r: Seq<u8>, at: int, v: int) -> bool {
    &&& u32_of(r, at) == Some((v % 0x1_0000_0000) as u32)
    &&& -0x8000_0000 <= v < 0x8000_0000 ==> i32_of(r, at) == Some(v as i32)
}

/// The numbers stand in the record, behind its number and its size.
#[verifier::opaque]
spec fn says_longs(r: Seq<u8>, v: Seq<int>) -> bool {
    forall|i: int| 0 <= i < v.len() ==> says_long(r, 8 + 4 * i, #[trigger] v[i])
}

proof fn lemma_says_long(head: Seq<u8>, v: Seq<int>, rest: Seq<u8>, i: int)
    requires
        head.len() == 8,
        0 <= i < v.len(),
    ensures
        says_long(head + longs(v) + rest, 8 + 4 * i, v[i]),
{
    reveal(says_long);
    lemma_long(head, v, rest, i);
}

proof fn lemma_says_longs(head: Seq<u8>, v: Seq<int>, rest: Seq<u8>)
    requires
        head.len() == 8,
    ensures
        says_longs(head + longs(v) + rest, v),
{
    reveal(says_longs);
    assert forall|i: int| 0 <= i < v.len() implies says_long(
        head + longs(v) + rest,
        8 + 4 * i,
        #[trigger] v[i],
    ) by {
        lemma_says_long(head, v, rest, i);
    }
}

proof fn lemma_said(r: Seq<u8>, v: Seq<int>, i: int)
    requires
        says_longs(r, v),
        0 <= i < v.len(),
    ensures
        u32_of(r, 8 + 4 * i) == Some((v[i] % 0x1_0000_0000) as u32),
        -0x8000_0000 <= v[i] < 0x8000_0000 ==> i32_of(r, 8 + 4 * i) == Some(v[i] as i32),
{
    reveal(says_longs);
    reveal(says_long);
    assert(says_long(r, 8 + 4 * i, v[i]));
}

proof fn lemma_outline_read(r: Seq<u8>, bounds: Seq<int>, points: Seq<(i32, i32)>)
    requires
        bounds.len() == 4,
        points.len() <= 0x10_0000,
        says_longs(r, bounds + seq![points.len() as int] + flat(points)),
    ensures
        emf::wide_points(r) == Some(points),
{
    let v = bounds + seq![points.len() as int] + flat(points);
    let n = points.len() as int;
    lemma_said(r, v, 4);
    assert(v[4] == n);
    if n > 0 {
        lemma_outline_point(r, bounds, points, n - 1);
    }
    let got = emf::wide_points(r)->0;
    assert forall|i: int| 0 <= i < n implies got[i] == points[i] by {
        lemma_outline_point(r, bounds, points, i);
    }
    assert(got =~= points);
}

proof fn lemma_outline_point(r: Seq<u8>, bounds: Seq<int>, points: Seq<(i32, i32)>, i: int)
    requires
        bounds.len() == 4,
        0 <= i < points.len(),
        says_longs(r, bounds + seq![points.len() as int] + flat(points)),
    ensures
        i32_of(r, 28 + 8 * i) == Some(points[i].0),
        i32_of(r, 32 + 8 * i) == Some(points[i].1),
{
    let v = bounds + seq![points.len() as int] + flat(points);
    assert(v[5 + 2 * i] == flat(points)[2 * i]);
    assert(v[6 + 2 * i] == flat(points)[2 * i + 1]);
    assert((2 * i) / 2 == i && (2 * i) % 2 == 0);
    assert((2 * i + 1) / 2 == i && (2 * i + 1) % 2 == 1);
    lemma_said(r, v, 5 + 2 * i);
    lemma_said(r, v, 6 + 2 * i);
    assert(8 + 4 * (5 + 2 * i) == 28 + 8 * i);
    assert(8 + 4 * (6 + 2 * i) == 32 + 8 * i);
}

proof fn lemma_emf_mapping(c: CanvasModel, kind: u32, r: Seq<u8>, x: i32, y: i32)
    requires
        emf::pair_of(r) == Some((x, y)),
    ensures
        kind == 9 ==> emf::after_record(c, kind, r) == acted(c, Act::WindowExtent(x, y)),
        kind == 10 ==> emf::after_record(c, kind, r) == acted(c, Act::WindowOrigin(x, y)),
        kind == 11 ==> emf::after_record(c, kind, r) == acted(c, Act::ViewportExtent(x, y)),
        kind == 12 ==> emf::after_record(c, kind, r) == acted(c, Act::ViewportOrigin(x, y)),
        kind == 27 ==> emf::after_record(c, kind, r) == acted(c, Act::MoveTo(x, y)),
{
    reveal(acted);
}

proof fn lemma_emf_line(c: CanvasModel, r: Seq<u8>, x: i32, y: i32)
    requires
        emf::pair_of(r) == Some((x, y)),
    ensures
        emf::after_record(c, 54, r) == acted(c, Act::LineTo(x, y)),
{
    reveal(acted);
    reveal(outlined);
    match c.state.moved {
        Some(from) => lemma_outlined(c, seq![from, (x, y)], false),
        None => {},
    }
    assert(emf::after_record(c, 54, r) == emf::lining(c, x, y));
}

proof fn lemma_emf_box(c: CanvasModel, kind: u32, r: Seq<u8>, l: i32, t: i32, rt: i32, b: i32)
    requires
        emf::four_of(r, 8) == Some((l, t, rt, b)),
    ensures
        kind == 30 ==> emf::after_record(c, kind, r) == acted(c, Act::Clip(l, t, rt, b)),
        kind == 42 ==> emf::after_record(c, kind, r) == acted(c, Act::Ellipse(l, t, rt, b)),
        kind == 43 ==> emf::after_record(c, kind, r) == acted(c, Act::Rectangle(l, t, rt, b)),
{
    reveal(acted);
    lemma_outlined(c, seq![(l, t), (rt, t), (rt, b), (l, b)], true);
}

proof fn lemma_emf_fill(c: CanvasModel, r: Seq<u8>, x: i32, y: i32, w: i32, h: i32)
    requires
        emf::four_of(r, 24) == Some((x, y, w, h)),
        u32_of(r, 40) == Some(0x00F0_0021u32),
    ensures
        emf::after_record(c, 76, r) == acted(c, Act::Fill(x, y, w, h)),
{
    reveal(acted);
}

proof fn lemma_emf_outline(c: CanvasModel, r: Seq<u8>, points: Seq<(i32, i32)>, kind: u32)
    ensures
        kind == 3 && emf::wide_points(r) == Some(points) ==> emf::after_record(c, kind, r)
            == acted(c, Act::Outline(points, true)),
        kind == 4 && emf::wide_points(r) == Some(points) ==> emf::after_record(c, kind, r)
            == acted(c, Act::Outline(points, false)),
        kind == 86 && emf::narrow_points(r) == Some(points) ==> emf::after_record(c, kind, r)
            == acted(c, Act::Outline(points, true)),
        kind == 87 && emf::narrow_points(r) == Some(points) ==> emf::after_record(c, kind, r)
            == acted(c, Act::Outline(points, false)),
{
    reveal(acted);
    lemma_outlined(c, points, true);
    lemma_outlined(c, points, false);
}

proof fn lemma_emf_setting(c: CanvasModel, a: Act, r: Seq<u8>)
    requires
        emf_says(a, r),
        a is TextColour || a is TextAlign || a is EvenOdd || a is Save || a is Restore,
    ensures
        emf::after_record(c, emf_kind(a), r) == acted(c, a),
{
    reveal(emf_says);
    reveal(acted);
}

proof fn lemma_pair(r: Seq<u8>, x: i32, y: i32)
    requires
        says_longs(r, seq![x as int, y as int]),
    ensures
        emf::pair_of(r) == Some((x, y)),
{
    let v = seq![x as int, y as int];
    lemma_said(r, v, 0);
    lemma_said(r, v, 1);
}

/// What a record of the enhanced flavour says.
#[verifier::opaque]
spec fn emf_says(a: Act, r: Seq<u8>) -> bool {
    match a {
        Act::WindowExtent(x, y) => emf::pair_of(r) == Some((x, y)),
        Act::WindowOrigin(x, y) => emf::pair_of(r) == Some((x, y)),
        Act::ViewportExtent(x, y) => emf::pair_of(r) == Some((x, y)),
        Act::ViewportOrigin(x, y) => emf::pair_of(r) == Some((x, y)),
        Act::MoveTo(x, y) => emf::pair_of(r) == Some((x, y)),
        Act::LineTo(x, y) => emf::pair_of(r) == Some((x, y)),
        Act::Rectangle(l, t, rt, b) => emf::four_of(r, 8) == Some((l, t, rt, b)),
        Act::Ellipse(l, t, rt, b) => emf::four_of(r, 8) == Some((l, t, rt, b)),
        Act::Clip(l, t, rt, b) => emf::four_of(r, 8) == Some((l, t, rt, b)),
        Act::Fill(x, y, w, h) => emf::four_of(r, 24) == Some((x, y, w, h)) && u32_of(r, 40) == Some(
            0x00F0_0021u32,
        ),
        Act::Outline(points, _) => emf::wide_points(r) == Some(points),
        Act::TextColour(rd, g, b) => crate::infrastructure::gdi::colour_of(emf::value_of(r, 0))
            == (rd, g, b),
        Act::TextAlign(v) => emf::value_of(r, 0) == v,
        Act::EvenOdd(yes) => (emf::value_of(r, 1) != 2) == yes,
        Act::Save => true,
        Act::Restore(level) => i32_of(r, 8) == Some(level),
    }
}

/// What is written is what a record says.
proof fn lemma_emf_says(a: Act, r: Seq<u8>, bounds: Seq<int>)
    requires
        bounds.len() == 4,
        is_act(a),
        says_longs(r, emf_numbers(a, bounds)),
    ensures
        emf_says(a, r),
{
    reveal(emf_says);
    let v = emf_numbers(a, bounds);
    match a {
        Act::WindowExtent(x, y) => lemma_pair(r, x, y),
        Act::WindowOrigin(x, y) => lemma_pair(r, x, y),
        Act::ViewportExtent(x, y) => lemma_pair(r, x, y),
        Act::ViewportOrigin(x, y) => lemma_pair(r, x, y),
        Act::MoveTo(x, y) => lemma_pair(r, x, y),
        Act::LineTo(x, y) => lemma_pair(r, x, y),
        Act::Rectangle(l, t, rt, b) => lemma_four(r, v, 0),
        Act::Ellipse(l, t, rt, b) => lemma_four(r, v, 0),
        Act::Clip(l, t, rt, b) => lemma_four(r, v, 0),
        Act::Fill(x, y, w, h) => {
            assert(v[4] == x && v[5] == y && v[6] == w && v[7] == h && v[8] == 0x00F0_0021);
            lemma_four(r, v, 4);
            lemma_said(r, v, 8);
        },
        Act::Outline(points, closed) => lemma_outline_read(r, bounds, points),
        Act::TextColour(rd, g, b) => {
            lemma_said(r, v, 0);
            lemma_colour(rd, g, b);
        },
        Act::TextAlign(n) => lemma_said(r, v, 0),
        Act::EvenOdd(yes) => lemma_said(r, v, 0),
        Act::Save => {},
        Act::Restore(level) => lemma_said(r, v, 0),
    }
}

/// What a record says is done.
proof fn lemma_emf_does(c: CanvasModel, a: Act, r: Seq<u8>)
    requires
        emf_says(a, r),
    ensures
        emf_does(c, a, r),
{
    reveal(emf_says);
    reveal(emf_does);
    match a {
        Act::WindowExtent(x, y) => lemma_emf_mapping(c, 9, r, x, y),
        Act::WindowOrigin(x, y) => lemma_emf_mapping(c, 10, r, x, y),
        Act::ViewportExtent(x, y) => lemma_emf_mapping(c, 11, r, x, y),
        Act::ViewportOrigin(x, y) => lemma_emf_mapping(c, 12, r, x, y),
        Act::MoveTo(x, y) => lemma_emf_mapping(c, 27, r, x, y),
        Act::LineTo(x, y) => lemma_emf_line(c, r, x, y),
        Act::Rectangle(l, t, rt, b) => lemma_emf_box(c, 43, r, l, t, rt, b),
        Act::Ellipse(l, t, rt, b) => lemma_emf_box(c, 42, r, l, t, rt, b),
        Act::Clip(l, t, rt, b) => lemma_emf_box(c, 30, r, l, t, rt, b),
        Act::Fill(x, y, w, h) => lemma_emf_fill(c, r, x, y, w, h),
        Act::Outline(points, closed) => lemma_emf_outline(c, r, points, emf_kind(a)),
        Act::TextColour(rd, g, b) => lemma_emf_setting(c, a, r),
        Act::TextAlign(n) => lemma_emf_setting(c, a, r),
        Act::EvenOdd(yes) => lemma_emf_setting(c, a, r),
        Act::Save => lemma_emf_setting(c, a, r),
        Act::Restore(level) => lemma_emf_setting(c, a, r),
    }
}

#[verifier::opaque]
spec fn emf_does(c: CanvasModel, a: Act, r: Seq<u8>) -> bool {
    emf::after_record(c, emf_kind(a), r) == acted(c, a)
}

/// A record of the enhanced flavour does what is written in it.
pub proof fn law_emf_record_acts(
    c: CanvasModel,
    a: Act,
    head: Seq<u8>,
    bounds: Seq<int>,
    rest: Seq<u8>,
)
    requires
        head.len() == 8,
        bounds.len() == 4,
        is_act(a),
    ensures
        emf::after_record(c, emf_kind(a), head + longs(emf_numbers(a, bounds)) + rest) == acted(
            c,
            a,
        ),
{
    let r = head + longs(emf_numbers(a, bounds)) + rest;
    assert(emf_does(c, a, r)) by {
        lemma_says_longs(head, emf_numbers(a, bounds), rest);
        lemma_emf_says(a, r, bounds);
        lemma_emf_does(c, a, r);
    }
    reveal(emf_does);
}

proof fn lemma_four(r: Seq<u8>, v: Seq<int>, i: int)
    requires
        says_longs(r, v),
        0 <= i,
        i + 3 < v.len(),
        forall|k: int| i <= k < i + 4 ==> -0x8000_0000 <= #[trigger] v[k] < 0x8000_0000,
    ensures
        emf::four_of(r, 8 + 4 * i) == Some(
            (v[i] as i32, v[i + 1] as i32, v[i + 2] as i32, v[i + 3] as i32),
        ),
{
    lemma_said(r, v, i);
    lemma_said(r, v, i + 1);
    lemma_said(r, v, i + 2);
    lemma_said(r, v, i + 3);
    assert(8 + 4 * (i + 1) == 8 + 4 * i + 4);
    assert(8 + 4 * (i + 2) == 8 + 4 * i + 8);
    assert(8 + 4 * (i + 3) == 8 + 4 * i + 12);
}

pub proof fn lemma_colour(r: u8, g: u8, b: u8)
    ensures
        crate::infrastructure::gdi::colour_of((r + 256 * g + 65536 * b) as u32) == (r, g, b),
        (r + 256 * g + 65536 * b) % 0x1_0000_0000 == r + 256 * g + 65536 * b,
{
    let v = r + 256 * g + 65536 * b;
    assert(v % 0x100 == r);
    assert(v / 0x100 % 0x100 == g);
    assert(v / 0x1_0000 % 0x100 == b);
}

/// Every coordinate of the points fits 16 bits.
pub open spec fn are_short(points: Seq<(i32, i32)>) -> bool {
    forall|i: int|
        0 <= i < points.len() ==> -0x8000 <= (#[trigger] points[i]).0 < 0x8000 && -0x8000
            <= points[i].1 < 0x8000
}

proof fn lemma_short_points(
    points: Seq<(i32, i32)>,
    head: Seq<u8>,
    bounds: Seq<int>,
    rest: Seq<u8>,
)
    requires
        head.len() == 8,
        bounds.len() == 4,
        points.len() <= 0x10_0000,
        are_short(points),
    ensures
        emf::narrow_points(
            head + longs(bounds + seq![points.len() as int]) + shorts(flat(points)) + rest,
        ) == Some(points),
{
    let v = bounds + seq![points.len() as int];
    let front = head + longs(v);
    let tail = shorts(flat(points)) + rest;
    let r = front + shorts(flat(points)) + rest;
    assert(r =~= front + tail);
    lemma_long(head, v, tail, 4);
    assert(front.len() == 28);
    let got = emf::narrow_points(r)->0;
    assert forall|i: int| 0 <= i < points.len() implies got[i] == points[i] by {
        let f = flat(points);
        assert(-0x8000 <= points[i].0 < 0x8000);
        lemma_short(front, f, rest, 2 * i);
        lemma_short(front, f, rest, 2 * i + 1);
        assert((2 * i) / 2 == i && (2 * i) % 2 == 0);
        assert((2 * i + 1) / 2 == i && (2 * i + 1) % 2 == 1);
        assert(28 + 2 * (2 * i) == 28 + 4 * i);
        assert(28 + 2 * (2 * i + 1) == 30 + 4 * i);
    }
    assert(got =~= points);
}

/// Lines in 16-bit points are drawn as those in 32-bit points are.
pub proof fn law_emf_short_points(
    c: CanvasModel,
    points: Seq<(i32, i32)>,
    closed: bool,
    head: Seq<u8>,
    bounds: Seq<int>,
    rest: Seq<u8>,
)
    requires
        head.len() == 8,
        bounds.len() == 4,
        points.len() <= 0x10_0000,
        are_short(points),
    ensures
        emf::after_record(
            c,
            if closed {
                86
            } else {
                87
            },
            head + longs(bounds + seq![points.len() as int]) + shorts(flat(points)) + rest,
        ) == acted(c, Act::Outline(points, closed)),
{
    lemma_short_points(points, head, bounds, rest);
    lemma_emf_outline(
        c,
        head + longs(bounds + seq![points.len() as int]) + shorts(flat(points)) + rest,
        points,
        if closed {
            86
        } else {
            87
        },
    );
}

} // verus!
