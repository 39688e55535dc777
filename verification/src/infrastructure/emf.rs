//! Turns a decoded enhanced metafile into the drawing model.
use crate::domain::rendering::{FontKind, Length, Metafile, MetafileModel, Rgb};
use crate::infrastructure::advances::{
    code_advances, find_table, read_code_advances, read_unit_advances, unit_advances, Table,
};
use crate::infrastructure::cp932::{decode as decode_cp932, shift_jis_text};
use crate::infrastructure::gdi::{
    colour_of, first_canvas, rgb, Canvas, CanvasModel, Font, Object, State,
};
use crate::infrastructure::octets::{
    i16_at, i16_of, i32_at, i32_of, u16_at, u16_of, u32_at, u32_of,
};
use crate::infrastructure::utf16::{decode_lossy, utf16_text};
use vstd::prelude::*;
use vstd::slice::slice_subrange;

verus! {

pub const REC_HEAD: usize = 8;

pub const EMR_HEADER: u32 = 1;

pub const EMR_POLYGON: u32 = 3;

pub const EMR_POLYLINE: u32 = 4;

pub const EMR_SETWINDOWEXTEX: u32 = 9;

pub const EMR_SETWINDOWORGEX: u32 = 10;

pub const EMR_SETVIEWPORTEXTEX: u32 = 11;

pub const EMR_SETVIEWPORTORGEX: u32 = 12;

pub const EMR_EOF: u32 = 14;

pub const EMR_SETPOLYFILLMODE: u32 = 19;

pub const EMR_SETTEXTALIGN: u32 = 22;

pub const EMR_SAVEDC: u32 = 33;

pub const EMR_RESTOREDC: u32 = 34;

pub const EMR_SETTEXTCOLOR: u32 = 24;

pub const EMR_MOVETOEX: u32 = 27;

pub const EMR_INTERSECTCLIPRECT: u32 = 30;

pub const EMR_SELECTOBJECT: u32 = 37;

pub const EMR_CREATEPEN: u32 = 38;

pub const EMR_CREATEBRUSHINDIRECT: u32 = 39;

pub const EMR_DELETEOBJECT: u32 = 40;

pub const EMR_ELLIPSE: u32 = 42;

pub const EMR_RECTANGLE: u32 = 43;

pub const EMR_LINETO: u32 = 54;

pub const EMR_GDICOMMENT: u32 = 70;

pub const EMR_BITBLT: u32 = 76;

pub const EMR_STRETCHDIBITS: u32 = 81;

pub const EMR_EXTCREATEFONTINDIRECTW: u32 = 82;

pub const EMR_EXTTEXTOUTA: u32 = 83;

pub const EMR_EXTTEXTOUTW: u32 = 84;

pub const EMR_POLYGON16: u32 = 86;

pub const EMR_POLYLINE16: u32 = 87;

pub const EMR_EXTCREATEPEN: u32 = 95;

pub const PATCOPY: u32 = 0x00F0_0021;

pub const BS_NULL: u32 = 1;

pub const PS_NULL: u32 = 5;

/// The longest polygon that is read.
pub const MAX_POLYGON: u32 = 0x10_0000;

/// The longest text that is read.
pub const MAX_TEXT: u32 = 0x1_0000;

// ------------------------------------------------------------ pieces of a record

/// Two numbers at `8`.
pub open spec fn pair_of(r: Seq<u8>) -> Option<(i32, i32)> {
    match (i32_of(r, 8), i32_of(r, 12)) {
        (Some(x), Some(y)) => Some((x, y)),
        _ => None,
    }
}

/// Four numbers from `at` on.
pub open spec fn four_of(r: Seq<u8>, at: int) -> Option<(i32, i32, i32, i32)> {
    match (i32_of(r, at), i32_of(r, at + 4), i32_of(r, at + 8), i32_of(r, at + 12)) {
        (Some(a), Some(b), Some(c), Some(d)) => Some((a, b, c, d)),
        _ => None,
    }
}

fn read_pair(r: &[u8]) -> (p: Option<(i32, i32)>)
    ensures
        p == pair_of(r@),
{
    match (i32_at(r, 8), i32_at(r, 12)) {
        (Some(x), Some(y)) => Some((x, y)),
        _ => None,
    }
}

fn read_four(r: &[u8], at: usize) -> (p: Option<(i32, i32, i32, i32)>)
    requires
        at <= 64,
    ensures
        p == four_of(r@, at as int),
{
    match (i32_at(r, at), i32_at(r, at + 4), i32_at(r, at + 8), i32_at(r, at + 12)) {
        (Some(a), Some(b), Some(c), Some(d)) => Some((a, b, c, d)),
        _ => None,
    }
}

/// A number at `8`, or what stands for it.
pub open spec fn value_of(r: Seq<u8>, other: u32) -> u32 {
    match u32_of(r, 8) {
        Some(v) => v,
        None => other,
    }
}

fn read_value(r: &[u8], other: u32) -> (v: u32)
    ensures
        v == value_of(r@, other),
{
    match u32_at(r, 8) {
        Some(v) => v,
        None => other,
    }
}

/// A pen from its style, logical width and colour. Width zero is the thinnest
/// line there is.
pub open spec fn pen_of(s: State, style: u32, width: i32, colour: u32) -> Option<(Rgb, Length)> {
    if style % 16 == PS_NULL {
        None
    } else {
        Some(
            (
                colour_of(colour),
                s.length(
                    (if width > 1 {
                        width as int
                    } else {
                        1
                    }) as u64,
                ),
            ),
        )
    }
}

/// A pen from its style, logical width and colour.
pub(crate) fn make_pen(c: &Canvas, style: u32, width: i32, colour: u32) -> (p: Option<
    (Rgb, Length),
>)
    ensures
        p == pen_of(c@.state, style, width, colour),
{
    if style % 16 == PS_NULL {
        return None;
    }
    let units: u32 = if width > 1 {
        width as u32
    } else {
        1
    };
    Some((rgb(colour), c.device_len(units)))
}

/// The points of a polygon record: bounds, count, then the points.
pub open spec fn wide_points(r: Seq<u8>) -> Option<Seq<(i32, i32)>> {
    match u32_of(r, 24) {
        None => None,
        Some(n) => if n > MAX_POLYGON || (n > 0 && 28 + 8 * n > r.len()) {
            None
        } else {
            Some(
                Seq::new(
                    n as nat,
                    |i: int| (i32_of(r, 28 + 8 * i)->0, i32_of(r, 32 + 8 * i)->0),
                ),
            )
        },
    }
}

/// The points of a polygon record of 16-bit points.
pub open spec fn narrow_points(r: Seq<u8>) -> Option<Seq<(i32, i32)>> {
    match u32_of(r, 24) {
        None => None,
        Some(n) => if n > MAX_POLYGON || (n > 0 && 28 + 4 * n > r.len()) {
            None
        } else {
            Some(
                Seq::new(
                    n as nat,
                    |i: int|
                        (i16_of(r, 28 + 4 * i)->0 as i32, i16_of(r, 30 + 4 * i)->0 as i32),
                ),
            )
        },
    }
}

fn points32(r: &[u8]) -> (p: Option<Vec<(i32, i32)>>)
    ensures
        match (p, wide_points(r@)) {
            (Some(v), Some(s)) => v@ == s,
            (None, None) => true,
            _ => false,
        },
{
    let n: usize = match u32_at(r, 24) {
        Some(n) => {
            if n > MAX_POLYGON {
                return None;
            }
            n as usize
        },
        None => {
            return None;
        },
    };
    if n > 0 && 28 + 8 * n > r.len() {
        return None;
    }
    let mut v: Vec<(i32, i32)> = Vec::new();
    let mut i: usize = 0;
    while i < n
        invariant
            i <= n,
            n <= MAX_POLYGON,
            n > 0 ==> 28 + 8 * n <= r.len(),
            v@.len() == i,
            forall|k: int|
                0 <= k < i ==> #[trigger] v@[k] == (
                    i32_of(r@, 28 + 8 * k)->0,
                    i32_of(r@, 32 + 8 * k)->0,
                ),
        decreases n - i,
    {
        match (i32_at(r, 28 + 8 * i), i32_at(r, 32 + 8 * i)) {
            (Some(x), Some(y)) => {
                v.push((x, y));
            },
            _ => {},
        }
        i += 1;
    }
    proof {
        assert(v@ =~= wide_points(r@)->0);
    }
    Some(v)
}

fn points16(r: &[u8]) -> (p: Option<Vec<(i32, i32)>>)
    ensures
        match (p, narrow_points(r@)) {
            (Some(v), Some(s)) => v@ == s,
            (None, None) => true,
            _ => false,
        },
{
    let n: usize = match u32_at(r, 24) {
        Some(n) => {
            if n > MAX_POLYGON {
                return None;
            }
            n as usize
        },
        None => {
            return None;
        },
    };
    if n > 0 && 28 + 4 * n > r.len() {
        return None;
    }
    let mut v: Vec<(i32, i32)> = Vec::new();
    let mut i: usize = 0;
    while i < n
        invariant
            i <= n,
            n <= MAX_POLYGON,
            n > 0 ==> 28 + 4 * n <= r.len(),
            v@.len() == i,
            forall|k: int|
                0 <= k < i ==> #[trigger] v@[k] == (
                    i16_of(r@, 28 + 4 * k)->0 as i32,
                    i16_of(r@, 30 + 4 * k)->0 as i32,
                ),
        decreases n - i,
    {
        match (i16_at(r, 28 + 4 * i), i16_at(r, 30 + 4 * i)) {
            (Some(x), Some(y)) => {
                v.push((x as i32, y as i32));
            },
            _ => {},
        }
        i += 1;
    }
    proof {
        assert(v@ =~= narrow_points(r@)->0);
    }
    Some(v)
}

/// The corners of a box, in the order they are drawn.
pub open spec fn corners(l: i32, t: i32, r: i32, b: i32) -> Seq<(i32, i32)> {
    seq![(l, t), (r, t), (r, b), (l, b)]
}

/// Draws a box with pen and brush.
pub(crate) fn draw_box(c: &mut Canvas, l: i32, t: i32, r: i32, b: i32)
    ensures
        final(c)@ == old(c)@.drawing_polygon(corners(l, t, r, b), true),
{
    let points: [(i32, i32); 4] = [(l, t), (r, t), (r, b), (l, b)];
    proof {
        assert(points@ =~= corners(l, t, r, b));
    }
    c.polygon(&points, true);
}

/// A part of the record.
pub open spec fn part(r: Seq<u8>, off: u32, len: u32) -> Option<Seq<u8>> {
    if off + len > r.len() {
        None
    } else {
        Some(r.subrange(off as int, off + len))
    }
}

fn read_part<'a>(r: &'a [u8], off: u32, len: u32) -> (p: Option<&'a [u8]>)
    ensures
        match (p, part(r@, off, len)) {
            (Some(v), Some(s)) => v@ == s,
            (None, None) => true,
            _ => false,
        },
{
    if off as u64 + len as u64 > r.len() as u64 {
        return None;
    }
    Some(slice_subrange(r, off as usize, off as usize + len as usize))
}

// ------------------------------------------------------------ bitmaps and text

/// A bitmap record, and whether it was understood.
pub open spec fn bitmap_record(c: CanvasModel, r: Seq<u8>) -> (bool, CanvasModel) {
    match (
        four_of(r, 24),
        i32_of(r, 40),
        i32_of(r, 44),
        u32_of(r, 48),
        u32_of(r, 52),
        u32_of(r, 56),
        u32_of(r, 60),
        u32_of(r, 68),
        i32_of(r, 72),
        i32_of(r, 76),
    ) {
        (
            Some((xd, yd, xs, ys)),
            Some(cxs),
            Some(cys),
            Some(off_bmi),
            Some(cb_bmi),
            Some(off_bits),
            Some(cb_bits),
            Some(rop),
            Some(cxd),
            Some(cyd),
        ) => match (part(r, off_bmi, cb_bmi), part(r, off_bits, cb_bits)) {
            (Some(info), Some(bits)) => c.stretching(
                info,
                bits,
                (xd, yd, cxd, cyd),
                (xs, ys, cxs, cys),
                rop,
            ),
            _ => (false, c),
        },
        _ => (false, c),
    }
}

fn stretch_dibits(r: &[u8], c: &mut Canvas) -> (understood: bool)
    ensures
        (understood, final(c)@) == bitmap_record(old(c)@, r@),
{
    if r.len() < 80 {
        return false;
    }
    match (
        read_four(r, 24),
        i32_at(r, 40),
        i32_at(r, 44),
        u32_at(r, 48),
        u32_at(r, 52),
        u32_at(r, 56),
        u32_at(r, 60),
        u32_at(r, 68),
        i32_at(r, 72),
        i32_at(r, 76),
    ) {
        (
            Some((xd, yd, xs, ys)),
            Some(cxs),
            Some(cys),
            Some(off_bmi),
            Some(cb_bmi),
            Some(off_bits),
            Some(cb_bits),
            Some(rop),
            Some(cxd),
            Some(cyd),
        ) => {
            match (read_part(r, off_bmi, cb_bmi), read_part(r, off_bits, cb_bits)) {
                (Some(info), Some(bits)) => c.stretch_dib(
                    info,
                    bits,
                    (xd, yd, cxd, cyd),
                    (xs, ys, cxs, cys),
                    rop,
                ),
                _ => false,
            }
        },
        _ => false,
    }
}

/// The 16-bit units in the octets.
pub open spec fn units_of(b: Seq<u8>) -> Seq<u16> {
    Seq::new(b.len() / 2, |i: int| u16_of(b, 2 * i)->0)
}

/// A text record, and whether it was understood. An empty one is.
pub open spec fn text_record(c: CanvasModel, r: Seq<u8>, wide: bool) -> (bool, CanvasModel) {
    match (i32_of(r, 36), i32_of(r, 40), u32_of(r, 44), u32_of(r, 48), u32_of(r, 72)) {
        (Some(x), Some(y), Some(n), Some(off), Some(off_dx)) => if n == 0 {
            (true, c)
        } else if n > MAX_TEXT {
            (false, c)
        } else {
            match part(
                r,
                off,
                if wide {
                    (2 * n) as u32
                } else {
                    n
                },
            ) {
                None => (false, c),
                Some(b) => {
                    let table = Table::found(off_dx as int, n as usize, true, r.len());
                    if wide {
                        let chars = utf16_text(units_of(b), 0);
                        (true, c.writing(x, y, chars, unit_advances(r, table, chars.len())))
                    } else {
                        let chars = shift_jis_text(b);
                        (true, c.writing(x, y, chars, code_advances(r, table, chars)))
                    }
                },
            }
        },
        _ => (false, c),
    }
}

fn read_units(b: &[u8]) -> (v: Vec<u16>)
    ensures
        v@ == units_of(b@),
{
    let n: usize = b.len() / 2;
    let mut v: Vec<u16> = Vec::new();
    let mut i: usize = 0;
    while i < n
        invariant
            i <= n,
            n == b.len() / 2,
            v@.len() == i,
            forall|k: int| 0 <= k < i ==> #[trigger] v@[k] == u16_of(b@, 2 * k)->0,
        decreases n - i,
    {
        match u16_at(b, 2 * i) {
            Some(u) => {
                v.push(u);
            },
            None => {},
        }
        i += 1;
    }
    proof {
        assert(v@ =~= units_of(b@));
    }
    v
}

fn text_out(r: &[u8], wide: bool, c: &mut Canvas) -> (understood: bool)
    ensures
        (understood, final(c)@) == text_record(old(c)@, r@, wide),
{
    match (i32_at(r, 36), i32_at(r, 40), u32_at(r, 44), u32_at(r, 48), u32_at(r, 72)) {
        (Some(x), Some(y), Some(n), Some(off), Some(off_dx)) => {
            if n == 0 {
                return true;
            }
            if n > MAX_TEXT {
                return false;
            }
            let len: u32 = if wide {
                2 * n
            } else {
                n
            };
            match read_part(r, off, len) {
                None => false,
                Some(b) => {
                    let table = find_table(r, off_dx as usize, n as usize, true);
                    if wide {
                        let chars = decode_lossy(&read_units(b));
                        let advances = read_unit_advances(r, table, chars.len());
                        c.text(x, y, chars, advances.as_slice());
                    } else {
                        let chars = decode_cp932(b);
                        let advances = read_code_advances(r, table, &chars);
                        c.text(x, y, chars, advances.as_slice());
                    }
                    true
                },
            }
        },
        _ => false,
    }
}

// ------------------------------------------------------------ records

/// A record that was not understood counts as skipped.
pub open spec fn or_skipped(r: (bool, CanvasModel), kind: u32) -> CanvasModel {
    if r.0 {
        r.1
    } else {
        r.1.skipping(kind)
    }
}

/// The octets of a comment.
pub open spec fn comment_body(r: Seq<u8>) -> Option<Seq<u8>> {
    if r.len() < 12 {
        None
    } else {
        let len = value_of(r, 0);
        Some(
            r.subrange(
                12,
                12 + (if len < r.len() - 12 {
                    len as int
                } else {
                    r.len() - 12
                }),
            ),
        )
    }
}

/// The canvas with an object created.
pub open spec fn creating(c: CanvasModel, handle: u32, object: Object) -> CanvasModel {
    CanvasModel { objects: c.objects.insert(handle, object), ..c }
}

/// A line from the current position.
pub open spec fn lining(c: CanvasModel, x: i32, y: i32) -> CanvasModel {
    let drawn = match c.state.moved {
        Some(from) => c.drawing_polygon(seq![from, (x, y)], false),
        None => c,
    };
    drawn.with_state(State { moved: Some((x, y)), ..drawn.state })
}

/// A record that changes the device context: the mapping, the current
/// position, and how text and polygons are drawn.
pub open spec fn state_record(c: CanvasModel, kind: u32, r: Seq<u8>) -> Option<CanvasModel> {
    let s = c.state;
    if kind == EMR_HEADER || kind == EMR_EOF {
        Some(c)
    } else if kind == EMR_SAVEDC {
        Some(c.saving())
    } else if kind == EMR_RESTOREDC {
        Some(
            match i32_of(r, 8) {
                Some(level) => c.restoring(level),
                None => c,
            },
        )
    } else if kind == EMR_SETWINDOWORGEX {
        Some(
            match pair_of(r) {
                Some(p) => c.with_state(State { window_org: p, ..s }),
                None => c,
            },
        )
    } else if kind == EMR_SETVIEWPORTORGEX {
        Some(
            match pair_of(r) {
                Some(p) => c.with_state(State { viewport_org: p, ..s }),
                None => c,
            },
        )
    } else if kind == EMR_SETWINDOWEXTEX {
        Some(
            match pair_of(r) {
                Some(p) => if p.0 != 0 && p.1 != 0 {
                    c.with_state(State { window_ext: Some(p), ..s })
                } else {
                    c
                },
                None => c,
            },
        )
    } else if kind == EMR_SETVIEWPORTEXTEX {
        Some(
            match pair_of(r) {
                Some(p) => if p.0 != 0 && p.1 != 0 {
                    c.with_state(State { viewport_ext: Some(p), ..s })
                } else {
                    c
                },
                None => c,
            },
        )
    } else if kind == EMR_SETTEXTALIGN {
        Some(c.with_state(State { align: value_of(r, 0), ..s }))
    } else if kind == EMR_SETTEXTCOLOR {
        Some(c.with_state(State { text_rgb: colour_of(value_of(r, 0)), ..s }))
    } else if kind == EMR_SETPOLYFILLMODE {
        Some(c.with_state(State { even_odd: value_of(r, 1) != 2, ..s }))
    } else if kind == EMR_INTERSECTCLIPRECT {
        Some(
            match four_of(r, 8) {
                Some((l, t, rt, b)) => c.clipping(l, t, rt, b),
                None => c,
            },
        )
    } else if kind == EMR_MOVETOEX {
        Some(
            match pair_of(r) {
                Some(p) => c.with_state(State { moved: Some(p), ..s }),
                None => c,
            },
        )
    } else {
        None
    }
}

/// A record about objects: created, selected, deleted.
pub open spec fn object_record(c: CanvasModel, kind: u32, r: Seq<u8>) -> Option<CanvasModel> {
    if kind == EMR_EXTCREATEFONTINDIRECTW {
        Some(
            match (u32_of(r, 8), i32_of(r, 12), i32_of(r, 20), i32_of(r, 28)) {
                (Some(h), Some(height), Some(escapement), Some(weight)) => creating(
                    c,
                    h,
                    Object::Font(
                        Font {
                            height,
                            escapement,
                            weight,
                            underline: r.len() > 33 && r[33] != 0,
                            kind: FontKind::Japanese,
                        },
                    ),
                ),
                _ => c,
            },
        )
    } else if kind == EMR_CREATEBRUSHINDIRECT {
        Some(
            match (u32_of(r, 8), u32_of(r, 12), u32_of(r, 16)) {
                (Some(h), Some(style), Some(colour)) => creating(
                    c,
                    h,
                    Object::Brush(
                        if style != BS_NULL {
                            Some(colour_of(colour))
                        } else {
                            None
                        },
                    ),
                ),
                _ => c,
            },
        )
    } else if kind == EMR_CREATEPEN {
        Some(
            match (u32_of(r, 8), u32_of(r, 12), i32_of(r, 16), u32_of(r, 24)) {
                (Some(h), Some(style), Some(width), Some(colour)) => creating(
                    c,
                    h,
                    Object::Pen(pen_of(c.state, style, width, colour)),
                ),
                _ => c,
            },
        )
    } else if kind == EMR_EXTCREATEPEN {
        Some(
            match (u32_of(r, 8), u32_of(r, 28), i32_of(r, 32), u32_of(r, 40)) {
                (Some(h), Some(style), Some(width), Some(colour)) => creating(
                    c,
                    h,
                    Object::Pen(pen_of(c.state, style, width, colour)),
                ),
                _ => c,
            },
        )
    } else if kind == EMR_SELECTOBJECT {
        Some(
            match u32_of(r, 8) {
                Some(h) => c.selecting(h),
                None => c,
            },
        )
    } else if kind == EMR_DELETEOBJECT {
        Some(
            match u32_of(r, 8) {
                Some(h) => CanvasModel { objects: c.objects.remove(h), ..c },
                None => c,
            },
        )
    } else {
        None
    }
}

/// A record that draws something, or one that is not understood.
pub open spec fn drawing_record(c: CanvasModel, kind: u32, r: Seq<u8>) -> CanvasModel {
    if kind == EMR_LINETO {
        match pair_of(r) {
            Some((x, y)) => lining(c, x, y),
            None => c,
        }
    } else if kind == EMR_BITBLT {
        if u32_of(r, 40) == Some(PATCOPY) {
            match four_of(r, 24) {
                Some((x, y, cx, cy)) => c.filling(x, y, cx, cy),
                None => c,
            }
        } else {
            c.skipping(kind)
        }
    } else if kind == EMR_STRETCHDIBITS {
        or_skipped(bitmap_record(c, r), kind)
    } else if kind == EMR_RECTANGLE {
        match four_of(r, 8) {
            Some((l, t, rt, b)) => c.drawing_polygon(corners(l, t, rt, b), true),
            None => c,
        }
    } else if kind == EMR_ELLIPSE {
        match four_of(r, 8) {
            Some((l, t, rt, b)) => c.drawing_ellipse(l, t, rt, b),
            None => c,
        }
    } else if kind == EMR_POLYGON || kind == EMR_POLYLINE {
        match wide_points(r) {
            Some(points) => c.drawing_polygon(points, kind == EMR_POLYGON),
            None => c,
        }
    } else if kind == EMR_POLYGON16 || kind == EMR_POLYLINE16 {
        match narrow_points(r) {
            Some(points) => c.drawing_polygon(points, kind == EMR_POLYGON16),
            None => c,
        }
    } else if kind == EMR_EXTTEXTOUTA || kind == EMR_EXTTEXTOUTW {
        or_skipped(text_record(c, r, kind == EMR_EXTTEXTOUTW), kind)
    } else if kind == EMR_GDICOMMENT {
        match comment_body(r) {
            Some(body) => or_skipped(c.heeding(body), kind),
            None => c.skipping(kind),
        }
    } else {
        c.skipping(kind)
    }
}

/// What a record does.
pub open spec fn after_record(c: CanvasModel, kind: u32, r: Seq<u8>) -> CanvasModel {
    match state_record(c, kind, r) {
        Some(d) => d,
        None => match object_record(c, kind, r) {
            Some(d) => d,
            None => drawing_record(c, kind, r),
        },
    }
}

/// What the records from `at` on do; the first that does not fit ends them.
pub open spec fn after_records(c: CanvasModel, d: Seq<u8>, at: int) -> CanvasModel
    decreases d.len() - at,
{
    if at < 0 || at + REC_HEAD > d.len() {
        c
    } else {
        let kind = u32_of(d, at)->0;
        let size = u32_of(d, at + 4)->0;
        if size < REC_HEAD || at + size > d.len() {
            c
        } else {
            after_records(
                after_record(c, kind, d.subrange(at, at + size)),
                d,
                at + size,
            )
        }
    }
}

/// The difference, or the limit of the type that it would pass.
pub open spec fn capped_difference(a: i32, b: i32) -> i32 {
    if a - b > i32::MAX {
        i32::MAX
    } else if a - b < i32::MIN {
        i32::MIN
    } else {
        (a - b) as i32
    }
}

fn difference_capped(a: i32, b: i32) -> (r: i32)
    ensures
        r == capped_difference(a, b),
{
    let d: i64 = a as i64 - b as i64;
    if d > i32::MAX as i64 {
        i32::MAX
    } else if d < i32::MIN as i64 {
        i32::MIN
    } else {
        d as i32
    }
}

/// The canvas that the header of the metafile describes.
pub open spec fn header_canvas(d: Seq<u8>) -> CanvasModel {
    let c = first_canvas(
        (i32_of(d, 72)->0, i32_of(d, 76)->0),
        (
            capped_difference(i32_of(d, 32)->0, i32_of(d, 24)->0),
            capped_difference(i32_of(d, 36)->0, i32_of(d, 28)->0),
        ),
    );
    CanvasModel { page: MetafileModel { records: u32_of(d, 52)->0, ..c.page }, ..c }
}

/// The page that an enhanced metafile draws.
pub open spec fn emf_page(d: Seq<u8>) -> Option<MetafileModel> {
    if d.len() < 80 || d[40] != 0x20 || d[41] != 0x45 || d[42] != 0x4D || d[43] != 0x46 {
        None
    } else {
        Some(after_records(header_canvas(d), d, 0).page)
    }
}

fn change_state(c: &mut Canvas, kind: u32, r: &[u8]) -> (known: bool)
    ensures
        match state_record(old(c)@, kind, r@) {
            Some(m) => known && final(c)@ == m,
            None => !known && final(c)@ == old(c)@,
        },
{
    match kind {
        EMR_HEADER | EMR_EOF => true,
        EMR_SAVEDC => {
            c.save_state();
            true
        },
        EMR_RESTOREDC => {
            match i32_at(r, 8) {
                Some(level) => c.restore_state(level),
                None => {},
            }
            true
        },
        EMR_SETWINDOWORGEX => {
            match read_pair(r) {
                Some((x, y)) => c.set_window_org(x, y),
                None => {},
            }
            true
        },
        EMR_SETVIEWPORTORGEX => {
            match read_pair(r) {
                Some((x, y)) => c.set_viewport_org(x, y),
                None => {},
            }
            true
        },
        EMR_SETWINDOWEXTEX => {
            match read_pair(r) {
                Some((x, y)) => c.set_window_ext(x, y),
                None => {},
            }
            true
        },
        EMR_SETVIEWPORTEXTEX => {
            match read_pair(r) {
                Some((x, y)) => c.set_viewport_ext(x, y),
                None => {},
            }
            true
        },
        EMR_SETTEXTALIGN => {
            c.set_text_align(read_value(r, 0));
            true
        },
        EMR_SETTEXTCOLOR => {
            c.set_text_colour(read_value(r, 0));
            true
        },
        EMR_SETPOLYFILLMODE => {
            c.set_poly_fill_mode(read_value(r, 1));
            true
        },
        EMR_INTERSECTCLIPRECT => {
            match read_four(r, 8) {
                Some((l, t, rt, b)) => c.set_clip_rect(l, t, rt, b),
                None => {},
            }
            true
        },
        EMR_MOVETOEX => {
            match read_pair(r) {
                Some((x, y)) => c.move_to(x, y),
                None => {},
            }
            true
        },
        _ => false,
    }
}

fn change_objects(c: &mut Canvas, kind: u32, r: &[u8]) -> (known: bool)
    ensures
        match object_record(old(c)@, kind, r@) {
            Some(m) => known && final(c)@ == m,
            None => !known && final(c)@ == old(c)@,
        },
{
    match kind {
        EMR_EXTCREATEFONTINDIRECTW => {
            match (u32_at(r, 8), i32_at(r, 12), i32_at(r, 20), i32_at(r, 28)) {
                (Some(h), Some(height), Some(escapement), Some(weight)) => {
                    let underline: bool = r.len() > 33 && r[33] != 0;
                    c.create(
                        h,
                        Object::Font(
                            Font {
                                height,
                                escapement,
                                weight,
                                underline,
                                kind: FontKind::Japanese,
                            },
                        ),
                    );
                },
                _ => {},
            }
            true
        },
        EMR_CREATEBRUSHINDIRECT => {
            match (u32_at(r, 8), u32_at(r, 12), u32_at(r, 16)) {
                (Some(h), Some(style), Some(colour)) => {
                    let brush = if style != BS_NULL {
                        Some(rgb(colour))
                    } else {
                        None
                    };
                    c.create(h, Object::Brush(brush));
                },
                _ => {},
            }
            true
        },
        EMR_CREATEPEN => {
            match (u32_at(r, 8), u32_at(r, 12), i32_at(r, 16), u32_at(r, 24)) {
                (Some(h), Some(style), Some(width), Some(colour)) => {
                    let pen = make_pen(c, style, width, colour);
                    c.create(h, Object::Pen(pen));
                },
                _ => {},
            }
            true
        },
        EMR_EXTCREATEPEN => {
            match (u32_at(r, 8), u32_at(r, 28), i32_at(r, 32), u32_at(r, 40)) {
                (Some(h), Some(style), Some(width), Some(colour)) => {
                    let pen = make_pen(c, style, width, colour);
                    c.create(h, Object::Pen(pen));
                },
                _ => {},
            }
            true
        },
        EMR_SELECTOBJECT => {
            match u32_at(r, 8) {
                Some(h) => c.select(h),
                None => {},
            }
            true
        },
        EMR_DELETEOBJECT => {
            match u32_at(r, 8) {
                Some(h) => c.delete(h),
                None => {},
            }
            true
        },
        _ => false,
    }
}

fn draw(c: &mut Canvas, kind: u32, r: &[u8])
    ensures
        final(c)@ == drawing_record(old(c)@, kind, r@),
{
    match kind {
        EMR_LINETO => {
            match read_pair(r) {
                Some((x, y)) => c.line_to(x, y),
                None => {},
            }
        },
        EMR_BITBLT => {
            let rop = u32_at(r, 40);
            if rop.is_some() && rop.unwrap() == PATCOPY {
                match read_four(r, 24) {
                    Some((x, y, cx, cy)) => c.pat_fill(x, y, cx, cy),
                    None => {},
                }
            } else {
                c.skip(kind);
            }
        },
        EMR_STRETCHDIBITS => {
            if !stretch_dibits(r, c) {
                c.skip(kind);
            }
        },
        EMR_RECTANGLE => {
            match read_four(r, 8) {
                Some((l, t, rt, b)) => draw_box(c, l, t, rt, b),
                None => {},
            }
        },
        EMR_ELLIPSE => {
            match read_four(r, 8) {
                Some((l, t, rt, b)) => c.ellipse(l, t, rt, b),
                None => {},
            }
        },
        EMR_POLYGON | EMR_POLYLINE => {
            match points32(r) {
                Some(points) => c.polygon(points.as_slice(), kind == EMR_POLYGON),
                None => {},
            }
        },
        EMR_POLYGON16 | EMR_POLYLINE16 => {
            match points16(r) {
                Some(points) => c.polygon(points.as_slice(), kind == EMR_POLYGON16),
                None => {},
            }
        },
        EMR_EXTTEXTOUTA | EMR_EXTTEXTOUTW => {
            if !text_out(r, kind == EMR_EXTTEXTOUTW, c) {
                c.skip(kind);
            }
        },
        EMR_GDICOMMENT => {
            if r.len() < 12 {
                c.skip(kind);
                return;
            }
            let len: u32 = read_value(r, 0);
            let room: usize = r.len() - 12;
            let n: usize = if (len as u64) < room as u64 {
                len as usize
            } else {
                room
            };
            if !c.comment(slice_subrange(r, 12, 12 + n)) {
                c.skip(kind);
            }
        },
        _ => {
            c.skip(kind);
        },
    }
}

fn step(c: &mut Canvas, kind: u32, r: &[u8])
    ensures
        final(c)@ == after_record(old(c)@, kind, r@),
{
    if change_state(c, kind, r) {
        return;
    }
    if change_objects(c, kind, r) {
        return;
    }
    draw(c, kind, r);
}

fn walk(c: &mut Canvas, d: &[u8])
    ensures
        final(c)@ == after_records(old(c)@, d@, 0),
{
    let mut at: usize = 0;
    while at <= d.len() && d.len() - at >= REC_HEAD
        invariant
            at <= d.len(),
            after_records(c@, d@, at as int) == after_records(old(c)@, d@, 0),
        decreases d.len() - at,
    {
        match (u32_at(d, at), u32_at(d, at + 4)) {
            (Some(kind), Some(size)) => {
                let size: u64 = size as u64;
                if size < REC_HEAD as u64 || size > (d.len() - at) as u64 {
                    return;
                }
                let size: usize = size as usize;
                step(c, kind, slice_subrange(d, at, at + size));
                at = at + size;
            },
            _ => {
                return;
            },
        }
    }
}

/// Reads an enhanced metafile.
pub fn read(d: &[u8]) -> (r: Option<Metafile>)
    ensures
        match (r, emf_page(d@)) {
            (Some(m), Some(p)) => m@ == p,
            (None, None) => true,
            _ => false,
        },
{
    if d.len() < 80 || d[40] != 0x20 || d[41] != 0x45 || d[42] != 0x4D || d[43] != 0x46 {
        return None;
    }
    match (
        i32_at(d, 72),
        i32_at(d, 76),
        i32_at(d, 24),
        i32_at(d, 28),
        i32_at(d, 32),
        i32_at(d, 36),
        u32_at(d, 52),
    ) {
        (
            Some(width),
            Some(height),
            Some(left),
            Some(top),
            Some(right),
            Some(bottom),
            Some(records),
        ) => {
            let mut c = Canvas::new(
                (width, height),
                (difference_capped(right, left), difference_capped(bottom, top)),
            );
            c.page.records = records;
            walk(&mut c, d);
            Some(c.finish())
        },
        _ => None,
    }
}

} // verus!
