//! Turns a decoded metafile of the older flavour into the drawing model.
//!
//! Pages of one storage kind expand to this flavour. Records are counted in
//! 16-bit words, coordinates are 16-bit, and objects are addressed by slot
//! number rather than handle.
use crate::domain::rendering::{magnitude, FontKind, Metafile, MetafileModel};
use crate::infrastructure::advances::{
    code_advances, find_table, guess_advances, guessed_advances, read_code_advances, Table,
};
use crate::infrastructure::cp932::{decode as decode_cp932, shift_jis_text};
use crate::infrastructure::dib::{header, header_of};
use crate::infrastructure::emf::{
    corners, creating, draw_box, lining, make_pen, or_skipped, pen_of, BS_NULL, PATCOPY,
};
use crate::infrastructure::gdi::{
    colour_of, first_canvas, rgb, Canvas, CanvasModel, Font, Object, State,
};
use crate::infrastructure::octets::{
    i16_at, i16_of, u16_at, u16_of, u32_at, u32_of,
};
use vstd::prelude::*;
use vstd::slice::slice_subrange;

verus! {

/// Octets of the file header.
pub const HEADER: usize = 18;

pub const META_EOF: u16 = 0x0000;

pub const META_SAVEDC: u16 = 0x001E;

pub const META_SETBKMODE: u16 = 0x0102;

pub const META_SETPOLYFILLMODE: u16 = 0x0106;

pub const META_RESTOREDC: u16 = 0x0127;

pub const META_SELECTOBJECT: u16 = 0x012D;

pub const META_SETTEXTALIGN: u16 = 0x012E;

pub const META_DELETEOBJECT: u16 = 0x01F0;

pub const META_SETTEXTCOLOR: u16 = 0x0209;

pub const META_SETWINDOWORG: u16 = 0x020B;

pub const META_SETWINDOWEXT: u16 = 0x020C;

pub const META_SETVIEWPORTORG: u16 = 0x020D;

pub const META_SETVIEWPORTEXT: u16 = 0x020E;

pub const META_LINETO: u16 = 0x0213;

pub const META_MOVETO: u16 = 0x0214;

pub const META_CREATEPENINDIRECT: u16 = 0x02FA;

pub const META_CREATEFONTINDIRECT: u16 = 0x02FB;

pub const META_CREATEBRUSHINDIRECT: u16 = 0x02FC;

pub const META_POLYGON: u16 = 0x0324;

pub const META_POLYLINE: u16 = 0x0325;

pub const META_INTERSECTCLIPRECT: u16 = 0x0416;

pub const META_ELLIPSE: u16 = 0x0418;

pub const META_RECTANGLE: u16 = 0x041B;

pub const META_TEXTOUT: u16 = 0x0521;

pub const META_PATBLT: u16 = 0x061D;

pub const META_ESCAPE: u16 = 0x0626;

/// A record of the maker's own that creates an object of some kind.
pub const META_DW_CREATE: u16 = 0x06FF;

pub const META_EXTTEXTOUT: u16 = 0x0A32;

pub const META_STRETCHDIB: u16 = 0x0F43;

pub const MFCOMMENT: u16 = 0x000F;

/// The octets start with the header of this flavour.
pub open spec fn is_header(d: Seq<u8>) -> bool {
    d.len() >= HEADER && u16_of(d, 0) == Some(1u16) && u16_of(d, 2) == Some(9u16) && (u16_of(d, 4)
        == Some(0x0100u16) || u16_of(d, 4) == Some(0x0300u16))
}

/// Whether the octets start with a metafile header of this flavour.
pub fn looks_like(d: &[u8]) -> (r: bool)
    ensures
        r == is_header(d@),
{
    if d.len() < HEADER {
        return false;
    }
    match (u16_at(d, 0), u16_at(d, 2), u16_at(d, 4)) {
        (Some(kind), Some(words), Some(version)) => kind == 1 && words == 9 && (version == 0x0100
            || version == 0x0300),
        _ => false,
    }
}

// ------------------------------------------------------------ pieces of a record

/// A parameter of the record.
pub open spec fn parameter(r: Seq<u8>, i: int) -> Option<i32> {
    match i16_of(r, 6 + 2 * i) {
        Some(v) => Some(v as i32),
        None => None,
    }
}

fn read_parameter(r: &[u8], i: usize) -> (v: Option<i32>)
    requires
        i <= 16,
    ensures
        v == parameter(r@, i as int),
{
    match i16_at(r, 6 + 2 * i) {
        Some(v) => Some(v as i32),
        None => None,
    }
}

/// A point whose coordinates are the first two parameters, y first.
pub open spec fn point_of(r: Seq<u8>) -> Option<(i32, i32)> {
    match (parameter(r, 0), parameter(r, 1)) {
        (Some(y), Some(x)) => Some((x, y)),
        _ => None,
    }
}

fn read_point(r: &[u8]) -> (p: Option<(i32, i32)>)
    ensures
        p == point_of(r@),
{
    match (read_parameter(r, 0), read_parameter(r, 1)) {
        (Some(y), Some(x)) => Some((x, y)),
        _ => None,
    }
}

/// A box from four parameters: bottom, right, top, left. As left, top, right,
/// bottom.
pub open spec fn box_of(r: Seq<u8>) -> Option<(i32, i32, i32, i32)> {
    match (parameter(r, 0), parameter(r, 1), parameter(r, 2), parameter(r, 3)) {
        (Some(b), Some(rt), Some(t), Some(l)) => Some((l, t, rt, b)),
        _ => None,
    }
}

fn read_box(r: &[u8]) -> (p: Option<(i32, i32, i32, i32)>)
    ensures
        p == box_of(r@),
{
    match (
        read_parameter(r, 0),
        read_parameter(r, 1),
        read_parameter(r, 2),
        read_parameter(r, 3),
    ) {
        (Some(b), Some(rt), Some(t), Some(l)) => Some((l, t, rt, b)),
        _ => None,
    }
}

/// The first parameter as a word, or what stands for it.
pub open spec fn word_of(r: Seq<u8>, other: u32) -> u32 {
    match u16_of(r, 6) {
        Some(v) => v as u32,
        None => other,
    }
}

fn read_word(r: &[u8], other: u32) -> (v: u32)
    ensures
        v == word_of(r@, other),
{
    match u16_at(r, 6) {
        Some(v) => v as u32,
        None => other,
    }
}

/// The points of a polygon: a count, then the points.
pub open spec fn polygon_points(r: Seq<u8>) -> Option<Seq<(i32, i32)>> {
    match u16_of(r, 6) {
        None => None,
        Some(n) => if 8 + 4 * n > r.len() {
            None
        } else {
            Some(
                Seq::new(
                    n as nat,
                    |i: int| (i16_of(r, 8 + 4 * i)->0 as i32, i16_of(r, 10 + 4 * i)->0 as i32),
                ),
            )
        },
    }
}

fn read_points(r: &[u8]) -> (p: Option<Vec<(i32, i32)>>)
    ensures
        match (p, polygon_points(r@)) {
            (Some(v), Some(s)) => v@ == s,
            (None, None) => true,
            _ => false,
        },
{
    let n: usize = match u16_at(r, 6) {
        Some(n) => n as usize,
        None => {
            return None;
        },
    };
    if 8 + 4 * n > r.len() {
        return None;
    }
    let mut v: Vec<(i32, i32)> = Vec::new();
    let mut i: usize = 0;
    while i < n
        invariant
            i <= n,
            8 + 4 * n <= r.len(),
            v@.len() == i,
            forall|k: int|
                0 <= k < i ==> #[trigger] v@[k] == (
                    i16_of(r@, 8 + 4 * k)->0 as i32,
                    i16_of(r@, 10 + 4 * k)->0 as i32,
                ),
        decreases n - i,
    {
        match (i16_at(r, 8 + 4 * i), i16_at(r, 10 + 4 * i)) {
            (Some(x), Some(y)) => {
                v.push((x as i32, y as i32));
            },
            _ => {},
        }
        i += 1;
    }
    proof {
        assert(v@ =~= polygon_points(r@)->0);
    }
    Some(v)
}

/// The octets from `at` on, `n` of them.
pub open spec fn octets(r: Seq<u8>, at: int, n: int) -> Option<Seq<u8>> {
    if at + n > r.len() {
        None
    } else {
        Some(r.subrange(at, at + n))
    }
}

fn read_octets<'a>(r: &'a [u8], at: usize, n: usize) -> (p: Option<&'a [u8]>)
    requires
        at <= 0x1_0000,
        n <= 0x1_0000,
    ensures
        match (p, octets(r@, at as int, n as int)) {
            (Some(v), Some(s)) => v@ == s,
            (None, None) => true,
            _ => false,
        },
{
    if at + n > r.len() {
        return None;
    }
    Some(slice_subrange(r, at, at + n))
}

// ------------------------------------------------------------ bitmaps and text

/// A bitmap record, and whether it was understood: raster operation and usage,
/// source and destination rectangle, then the bitmap.
pub open spec fn bitmap_record(c: CanvasModel, r: Seq<u8>) -> (bool, CanvasModel) {
    let p = |i: int| parameter(r, i + 3);
    match (p(0), p(1), p(2), p(3), p(4), p(5), p(6), p(7)) {
        (
            Some(sh),
            Some(sw),
            Some(sy),
            Some(sx),
            Some(dh),
            Some(dw),
            Some(dy),
            Some(dx),
        ) => {
            let info = r.subrange(28, r.len() as int);
            match header_of(info) {
                Some(h) => if h.info_len > info.len() {
                    (false, c)
                } else {
                    c.stretching(
                        info,
                        info.subrange(h.info_len as int, info.len() as int),
                        (dx, dy, dw, dh),
                        (sx, sy, sw, sh),
                        match u32_of(r, 6) {
                            Some(rop) => rop,
                            None => 0,
                        },
                    )
                },
                None => (false, c),
            }
        },
        _ => (false, c),
    }
}

fn stretch_dib(r: &[u8], c: &mut Canvas) -> (understood: bool)
    ensures
        (understood, final(c)@) == bitmap_record(old(c)@, r@),
{
    match (
        read_parameter(r, 3),
        read_parameter(r, 4),
        read_parameter(r, 5),
        read_parameter(r, 6),
        read_parameter(r, 7),
        read_parameter(r, 8),
        read_parameter(r, 9),
        read_parameter(r, 10),
    ) {
        (
            Some(sh),
            Some(sw),
            Some(sy),
            Some(sx),
            Some(dh),
            Some(dw),
            Some(dy),
            Some(dx),
        ) => {
            let info = slice_subrange(r, 28, r.len());
            match header(info) {
                Some(h) => {
                    if h.info_len > info.len() {
                        return false;
                    }
                    let bits = slice_subrange(info, h.info_len, info.len());
                    let rop: u32 = match u32_at(r, 6) {
                        Some(rop) => rop,
                        None => 0,
                    };
                    c.stretch_dib(info, bits, (dx, dy, dw, dh), (sx, sy, sw, sh), rop)
                },
                None => false,
            }
        },
        _ => false,
    }
}

/// A text record with options and advances, and whether it was understood. An
/// empty one is. Two of the options put a rectangle before the text; the text
/// is padded to a word, and the advances follow where they are recorded.
pub open spec fn ext_text_record(c: CanvasModel, r: Seq<u8>) -> (bool, CanvasModel) {
    match (parameter(r, 0), parameter(r, 1), u16_of(r, 10), u16_of(r, 12)) {
        (Some(y), Some(x), Some(n), Some(options)) => if n == 0 {
            (true, c)
        } else {
            let at = if options / 2 % 4 != 0 {
                22
            } else {
                14int
            };
            match octets(r, at, n as int) {
                None => (false, c),
                Some(b) => {
                    let chars = shift_jis_text(b);
                    let table = Table::found(at + n + n % 2, n as usize, false, r.len());
                    (
                        true,
                        c.writing(
                            x,
                            y,
                            chars,
                            if table is Some {
                                code_advances(r, table, chars)
                            } else {
                                guessed_advances(chars, magnitude(c.state.font.height) as u32)
                            },
                        ),
                    )
                },
            }
        },
        _ => (false, c),
    }
}

fn ext_text_out(r: &[u8], c: &mut Canvas) -> (understood: bool)
    ensures
        (understood, final(c)@) == ext_text_record(old(c)@, r@),
{
    match (read_parameter(r, 0), read_parameter(r, 1), u16_at(r, 10), u16_at(r, 12)) {
        (Some(y), Some(x), Some(n), Some(options)) => {
            if n == 0 {
                return true;
            }
            let n: usize = n as usize;
            let at: usize = if options / 2 % 4 != 0 {
                22
            } else {
                14
            };
            match read_octets(r, at, n) {
                None => false,
                Some(b) => {
                    let chars = decode_cp932(b);
                    let table = find_table(r, at + n + n % 2, n, false);
                    let advances = if table.is_some() {
                        read_code_advances(r, table, &chars)
                    } else {
                        guess_advances(&chars, c.font_height())
                    };
                    c.text(x, y, chars, advances.as_slice());
                    true
                },
            }
        },
        _ => false,
    }
}

/// A plain text record, and whether it was understood: a count, the text
/// padded to a word, then the point.
pub open spec fn text_record(c: CanvasModel, r: Seq<u8>) -> (bool, CanvasModel) {
    match u16_of(r, 6) {
        None => (false, c),
        Some(n) => match octets(r, 8, n as int) {
            None => (false, c),
            Some(b) => {
                let after = 8 + n + n % 2;
                match (i16_of(r, after), i16_of(r, after + 2)) {
                    (Some(y), Some(x)) => {
                        let chars = shift_jis_text(b);
                        (
                            true,
                            c.writing(
                                x as i32,
                                y as i32,
                                chars,
                                guessed_advances(chars, magnitude(c.state.font.height) as u32),
                            ),
                        )
                    },
                    _ => (false, c),
                }
            },
        },
    }
}

fn text_out(r: &[u8], c: &mut Canvas) -> (understood: bool)
    ensures
        (understood, final(c)@) == text_record(old(c)@, r@),
{
    let n: usize = match u16_at(r, 6) {
        Some(n) => n as usize,
        None => {
            return false;
        },
    };
    match read_octets(r, 8, n) {
        None => false,
        Some(b) => {
            let after: usize = 8 + n + n % 2;
            match (i16_at(r, after), i16_at(r, after + 2)) {
                (Some(y), Some(x)) => {
                    let chars = decode_cp932(b);
                    let advances = guess_advances(&chars, c.font_height());
                    c.text(x as i32, y as i32, chars, advances.as_slice());
                    true
                },
                _ => false,
            }
        },
    }
}

// ------------------------------------------------------------ object slots

/// The lowest slot from `k` on that is free, or the one behind the last.
pub open spec fn free_slot(slots: Seq<bool>, k: int) -> int
    decreases slots.len() - k,
{
    if k < 0 || k >= slots.len() {
        slots.len() as int
    } else if !slots[k] {
        k
    } else {
        free_slot(slots, k + 1)
    }
}

/// The canvas and the slots that are taken.
pub struct Slotted {
    pub canvas: CanvasModel,
    pub slots: Seq<bool>,
}

/// An object put in the lowest free slot.
pub open spec fn in_slot(s: Slotted, object: Object) -> Slotted {
    let k = free_slot(s.slots, 0);
    Slotted {
        canvas: creating(s.canvas, k as u32, object),
        slots: if k == s.slots.len() {
            s.slots.push(true)
        } else {
            s.slots.update(k, true)
        },
    }
}

/// The slot and what is in it no longer taken.
pub open spec fn slot_freed(s: Slotted, slot: u16) -> Slotted {
    Slotted {
        canvas: CanvasModel { objects: s.canvas.objects.remove(slot as u32), ..s.canvas },
        slots: if slot < s.slots.len() {
            s.slots.update(slot as int, false)
        } else {
            s.slots
        },
    }
}

fn create(slots: &mut Vec<bool>, c: &mut Canvas, object: Object)
    ensures
        (Slotted { canvas: final(c)@, slots: final(slots)@ }) == in_slot(
            Slotted { canvas: old(c)@, slots: old(slots)@ },
            object,
        ),
{
    let mut k: usize = 0;
    while k < slots.len() && slots[k]
        invariant
            k <= slots@.len(),
            slots@ == old(slots)@,
            free_slot(slots@, 0) == free_slot(slots@, k as int),
        decreases slots@.len() - k,
    {
        k += 1;
    }
    if k == slots.len() {
        slots.push(true);
    } else {
        slots.set(k, true);
    }
    #[verifier::truncate]
    let handle: u32 = k as u32;
    c.create(handle, object);
}

// ------------------------------------------------------------ records

/// The device size where none is known yet, from the window extent.
pub open spec fn sized(c: CanvasModel, x: i32, y: i32) -> CanvasModel {
    if c.page.device == (0i32, 0i32) {
        CanvasModel {
            page: MetafileModel {
                device: (magnitude(x) as i32, magnitude(y) as i32),
                ..c.page
            },
            ..c
        }
    } else {
        c
    }
}

/// A record that changes the device context.
pub open spec fn state_record(c: CanvasModel, kind: u16, r: Seq<u8>) -> Option<CanvasModel> {
    let s = c.state;
    if kind == META_SAVEDC {
        Some(c.saving())
    } else if kind == META_RESTOREDC {
        Some(
            match parameter(r, 0) {
                Some(level) => c.restoring(level),
                None => c,
            },
        )
    } else if kind == META_SETWINDOWORG {
        Some(
            match point_of(r) {
                Some(p) => c.with_state(State { window_org: p, ..s }),
                None => c,
            },
        )
    } else if kind == META_SETWINDOWEXT {
        Some(
            match point_of(r) {
                Some(p) => sized(
                    if p.0 != 0 && p.1 != 0 {
                        c.with_state(State { window_ext: Some(p), ..s })
                    } else {
                        c
                    },
                    p.0,
                    p.1,
                ),
                None => c,
            },
        )
    } else if kind == META_SETVIEWPORTORG {
        Some(
            match point_of(r) {
                Some(p) => c.with_state(State { viewport_org: p, ..s }),
                None => c,
            },
        )
    } else if kind == META_SETVIEWPORTEXT {
        Some(
            match point_of(r) {
                Some(p) => if p.0 != 0 && p.1 != 0 {
                    c.with_state(State { viewport_ext: Some(p), ..s })
                } else {
                    c
                },
                None => c,
            },
        )
    } else if kind == META_SETTEXTALIGN {
        Some(c.with_state(State { align: word_of(r, 0), ..s }))
    } else if kind == META_SETTEXTCOLOR {
        Some(
            c.with_state(
                State {
                    text_rgb: colour_of(
                        match u32_of(r, 6) {
                            Some(v) => v,
                            None => 0,
                        },
                    ),
                    ..s
                },
            ),
        )
    } else if kind == META_SETPOLYFILLMODE {
        Some(c.with_state(State { even_odd: word_of(r, 1) != 2, ..s }))
    } else if kind == META_SETBKMODE {
        Some(c)
    } else if kind == META_INTERSECTCLIPRECT {
        Some(
            match box_of(r) {
                Some((l, t, rt, b)) => c.clipping(l, t, rt, b),
                None => c,
            },
        )
    } else if kind == META_MOVETO {
        Some(
            match point_of(r) {
                Some(p) => c.with_state(State { moved: Some(p), ..s }),
                None => c,
            },
        )
    } else {
        None
    }
}

/// A record about objects.
pub open spec fn object_record(s: Slotted, kind: u16, r: Seq<u8>) -> Option<Slotted> {
    if kind == META_CREATEFONTINDIRECT {
        Some(
            match (parameter(r, 0), parameter(r, 2), parameter(r, 4)) {
                (Some(height), Some(escapement), Some(weight)) => in_slot(
                    s,
                    Object::Font(
                        Font {
                            height,
                            escapement,
                            weight,
                            underline: r.len() > 17 && r[17] != 0,
                            kind: FontKind::Japanese,
                        },
                    ),
                ),
                _ => s,
            },
        )
    } else if kind == META_CREATEBRUSHINDIRECT {
        Some(
            match (u16_of(r, 6), u32_of(r, 8)) {
                (Some(style), Some(colour)) => in_slot(
                    s,
                    Object::Brush(
                        if style != BS_NULL {
                            Some(colour_of(colour))
                        } else {
                            None
                        },
                    ),
                ),
                _ => s,
            },
        )
    } else if kind == META_CREATEPENINDIRECT {
        Some(
            match (u16_of(r, 6), parameter(r, 1), u32_of(r, 12)) {
                (Some(style), Some(width), Some(colour)) => in_slot(
                    s,
                    Object::Pen(pen_of(s.canvas.state, style as u32, width, colour)),
                ),
                _ => s,
            },
        )
    } else if kind == META_DW_CREATE {
        Some(in_slot(s, Object::Opaque))
    } else if kind == META_SELECTOBJECT {
        Some(
            match u16_of(r, 6) {
                Some(slot) => Slotted { canvas: s.canvas.selecting(slot as u32), ..s },
                None => s,
            },
        )
    } else if kind == META_DELETEOBJECT {
        Some(
            match u16_of(r, 6) {
                Some(slot) => slot_freed(s, slot),
                None => s,
            },
        )
    } else {
        None
    }
}

/// What a comment record does, and whether it was understood.
pub open spec fn escape_record(c: CanvasModel, r: Seq<u8>) -> (bool, CanvasModel) {
    match (u16_of(r, 6), u16_of(r, 8)) {
        (Some(f), Some(len)) => if f == MFCOMMENT {
            c.heeding(
                r.subrange(
                    10,
                    10 + (if len < r.len() - 10 {
                        len as int
                    } else {
                        r.len() - 10
                    }),
                ),
            )
        } else {
            (false, c)
        },
        _ => (false, c),
    }
}

/// A record that draws something, or one that is not understood.
pub open spec fn drawing_record(c: CanvasModel, kind: u16, r: Seq<u8>) -> CanvasModel {
    let number = kind as u32;
    if kind == META_PATBLT {
        if u32_of(r, 6) == Some(PATCOPY) {
            match (parameter(r, 2), parameter(r, 3), parameter(r, 4), parameter(r, 5)) {
                (Some(h), Some(w), Some(y), Some(x)) => c.filling(x, y, w, h),
                _ => c,
            }
        } else {
            c.skipping(number)
        }
    } else if kind == META_RECTANGLE {
        match box_of(r) {
            Some((l, t, rt, b)) => c.drawing_polygon(corners(l, t, rt, b), true),
            None => c,
        }
    } else if kind == META_ELLIPSE {
        match box_of(r) {
            Some((l, t, rt, b)) => c.drawing_ellipse(l, t, rt, b),
            None => c,
        }
    } else if kind == META_POLYGON || kind == META_POLYLINE {
        match polygon_points(r) {
            Some(points) => c.drawing_polygon(points, kind == META_POLYGON),
            None => c,
        }
    } else if kind == META_LINETO {
        match point_of(r) {
            Some((x, y)) => lining(c, x, y),
            None => c,
        }
    } else if kind == META_STRETCHDIB {
        or_skipped(bitmap_record(c, r), number)
    } else if kind == META_EXTTEXTOUT {
        or_skipped(ext_text_record(c, r), number)
    } else if kind == META_TEXTOUT {
        or_skipped(text_record(c, r), number)
    } else if kind == META_ESCAPE {
        or_skipped(escape_record(c, r), number)
    } else {
        c.skipping(number)
    }
}

/// What a record does.
#[verifier::opaque]
pub open spec fn after_record(s: Slotted, kind: u16, r: Seq<u8>) -> Slotted {
    match state_record(s.canvas, kind, r) {
        Some(canvas) => Slotted { canvas, ..s },
        None => match object_record(s, kind, r) {
            Some(t) => t,
            None => Slotted { canvas: drawing_record(s.canvas, kind, r), ..s },
        },
    }
}

/// What the records from `at` on do, up to the end record or the first that
/// does not fit.
pub open spec fn after_records(s: Slotted, d: Seq<u8>, at: int) -> Slotted
    decreases d.len() - at,
{
    if at < 0 || at + 6 > d.len() {
        s
    } else {
        let size = 2 * (u32_of(d, at)->0);
        let kind = u16_of(d, at + 4)->0;
        if size < 6 || at + size > d.len() || kind == META_EOF {
            s
        } else {
            after_records(after_record(s, kind, d.subrange(at, at + size)), d, at + size)
        }
    }
}

/// The canvas before the first record. The file carries no page size of its
/// own.
pub open spec fn header_canvas(d: Seq<u8>, paper_mm100: (i32, i32)) -> CanvasModel {
    let c = first_canvas((0, 0), paper_mm100);
    CanvasModel {
        page: MetafileModel { records: u16_of(d, 14)->0 as u32, ..c.page },
        ..c
    }
}

/// The page that a metafile of this flavour draws on paper of a size.
pub open spec fn wmf_page(d: Seq<u8>, paper_mm100: (i32, i32)) -> Option<MetafileModel> {
    if !is_header(d) {
        None
    } else {
        Some(
            after_records(
                Slotted { canvas: header_canvas(d, paper_mm100), slots: Seq::empty() },
                d,
                HEADER as int,
            ).canvas.page,
        )
    }
}

fn size_page(c: &mut Canvas, x: i32, y: i32)
    requires
        -0x8000 <= x <= 0x8000,
        -0x8000 <= y <= 0x8000,
    ensures
        final(c)@ == sized(old(c)@, x, y),
{
    if c.page.device.0 == 0 && c.page.device.1 == 0 {
        let w: i32 = if x < 0 {
            -x
        } else {
            x
        };
        let h: i32 = if y < 0 {
            -y
        } else {
            y
        };
        c.page.device = (w, h);
    }
}

fn change_state(c: &mut Canvas, kind: u16, r: &[u8]) -> (known: bool)
    ensures
        match state_record(old(c)@, kind, r@) {
            Some(m) => known && final(c)@ == m,
            None => !known && final(c)@ == old(c)@,
        },
{
    match kind {
        META_SAVEDC => {
            c.save_state();
            true
        },
        META_RESTOREDC => {
            match read_parameter(r, 0) {
                Some(level) => c.restore_state(level),
                None => {},
            }
            true
        },
        META_SETWINDOWORG => {
            match read_point(r) {
                Some((x, y)) => c.set_window_org(x, y),
                None => {},
            }
            true
        },
        META_SETWINDOWEXT => {
            match read_point(r) {
                Some((x, y)) => {
                    c.set_window_ext(x, y);
                    size_page(c, x, y);
                },
                None => {},
            }
            true
        },
        META_SETVIEWPORTORG => {
            match read_point(r) {
                Some((x, y)) => c.set_viewport_org(x, y),
                None => {},
            }
            true
        },
        META_SETVIEWPORTEXT => {
            match read_point(r) {
                Some((x, y)) => c.set_viewport_ext(x, y),
                None => {},
            }
            true
        },
        META_SETTEXTALIGN => {
            c.set_text_align(read_word(r, 0));
            true
        },
        META_SETTEXTCOLOR => {
            let colour: u32 = match u32_at(r, 6) {
                Some(v) => v,
                None => 0,
            };
            c.set_text_colour(colour);
            true
        },
        META_SETPOLYFILLMODE => {
            c.set_poly_fill_mode(read_word(r, 1));
            true
        },
        META_SETBKMODE => true,
        META_INTERSECTCLIPRECT => {
            match read_box(r) {
                Some((l, t, rt, b)) => c.set_clip_rect(l, t, rt, b),
                None => {},
            }
            true
        },
        META_MOVETO => {
            match read_point(r) {
                Some((x, y)) => c.move_to(x, y),
                None => {},
            }
            true
        },
        _ => false,
    }
}

fn change_objects(slots: &mut Vec<bool>, c: &mut Canvas, kind: u16, r: &[u8]) -> (known: bool)
    ensures
        match object_record(Slotted { canvas: old(c)@, slots: old(slots)@ }, kind, r@) {
            Some(m) => known && (Slotted { canvas: final(c)@, slots: final(slots)@ }) == m,
            None => !known && final(c)@ == old(c)@ && final(slots)@ == old(slots)@,
        },
{
    match kind {
        META_CREATEFONTINDIRECT => {
            match (read_parameter(r, 0), read_parameter(r, 2), read_parameter(r, 4)) {
                (Some(height), Some(escapement), Some(weight)) => {
                    let underline: bool = r.len() > 17 && r[17] != 0;
                    create(
                        slots,
                        c,
                        Object::Font(
                            Font {
                                height,
                                escapement,
                                weight,
                                underline,
                                kind: FontKind::Japanese,
                            },
                        ),
                    );
                },
                _ => {},
            }
            true
        },
        META_CREATEBRUSHINDIRECT => {
            match (u16_at(r, 6), u32_at(r, 8)) {
                (Some(style), Some(colour)) => {
                    let brush = if style as u32 != BS_NULL {
                        Some(rgb(colour))
                    } else {
                        None
                    };
                    create(slots, c, Object::Brush(brush));
                },
                _ => {},
            }
            true
        },
        META_CREATEPENINDIRECT => {
            match (u16_at(r, 6), read_parameter(r, 1), u32_at(r, 12)) {
                (Some(style), Some(width), Some(colour)) => {
                    let pen = make_pen(c, style as u32, width, colour);
                    create(slots, c, Object::Pen(pen));
                },
                _ => {},
            }
            true
        },
        META_DW_CREATE => {
            create(slots, c, Object::Opaque);
            true
        },
        META_SELECTOBJECT => {
            match u16_at(r, 6) {
                Some(slot) => c.select(slot as u32),
                None => {},
            }
            true
        },
        META_DELETEOBJECT => {
            match u16_at(r, 6) {
                Some(slot) => {
                    c.delete(slot as u32);
                    if (slot as usize) < slots.len() {
                        slots.set(slot as usize, false);
                    }
                },
                None => {},
            }
            true
        },
        _ => false,
    }
}

fn escape(r: &[u8], c: &mut Canvas) -> (understood: bool)
    ensures
        (understood, final(c)@) == escape_record(old(c)@, r@),
{
    match (u16_at(r, 6), u16_at(r, 8)) {
        (Some(f), Some(len)) => {
            if f != MFCOMMENT {
                return false;
            }
            let room: usize = r.len() - 10;
            let n: usize = if (len as usize) < room {
                len as usize
            } else {
                room
            };
            c.comment(slice_subrange(r, 10, 10 + n))
        },
        _ => false,
    }
}

fn draw(c: &mut Canvas, kind: u16, r: &[u8])
    ensures
        final(c)@ == drawing_record(old(c)@, kind, r@),
{
    let number: u32 = kind as u32;
    match kind {
        META_PATBLT => {
            let rop = u32_at(r, 6);
            if rop.is_some() && rop.unwrap() == PATCOPY {
                match (
                    read_parameter(r, 2),
                    read_parameter(r, 3),
                    read_parameter(r, 4),
                    read_parameter(r, 5),
                ) {
                    (Some(h), Some(w), Some(y), Some(x)) => c.pat_fill(x, y, w, h),
                    _ => {},
                }
            } else {
                c.skip(number);
            }
        },
        META_RECTANGLE => {
            match read_box(r) {
                Some((l, t, rt, b)) => draw_box(c, l, t, rt, b),
                None => {},
            }
        },
        META_ELLIPSE => {
            match read_box(r) {
                Some((l, t, rt, b)) => c.ellipse(l, t, rt, b),
                None => {},
            }
        },
        META_POLYGON | META_POLYLINE => {
            match read_points(r) {
                Some(points) => c.polygon(points.as_slice(), kind == META_POLYGON),
                None => {},
            }
        },
        META_LINETO => {
            match read_point(r) {
                Some((x, y)) => c.line_to(x, y),
                None => {},
            }
        },
        META_STRETCHDIB => {
            if !stretch_dib(r, c) {
                c.skip(number);
            }
        },
        META_EXTTEXTOUT => {
            if !ext_text_out(r, c) {
                c.skip(number);
            }
        },
        META_TEXTOUT => {
            if !text_out(r, c) {
                c.skip(number);
            }
        },
        META_ESCAPE => {
            if !escape(r, c) {
                c.skip(number);
            }
        },
        _ => {
            c.skip(number);
        },
    }
}

fn step(slots: &mut Vec<bool>, c: &mut Canvas, kind: u16, r: &[u8])
    ensures
        (Slotted { canvas: final(c)@, slots: final(slots)@ }) == after_record(
            Slotted { canvas: old(c)@, slots: old(slots)@ },
            kind,
            r@,
        ),
{
    proof {
        reveal(after_record);
    }
    if change_state(c, kind, r) {
        return;
    }
    if change_objects(slots, c, kind, r) {
        return;
    }
    draw(c, kind, r);
}

fn walk(slots: &mut Vec<bool>, c: &mut Canvas, d: &[u8])
    requires
        d.len() >= HEADER,
    ensures
        final(c)@ == after_records(
            Slotted { canvas: old(c)@, slots: old(slots)@ },
            d@,
            HEADER as int,
        ).canvas,
{
    let ghost start = Slotted { canvas: c@, slots: slots@ };
    let mut at: usize = HEADER;
    while at <= d.len() && d.len() - at >= 6
        invariant
            at <= d.len(),
            start == (Slotted { canvas: old(c)@, slots: old(slots)@ }),
            after_records(Slotted { canvas: c@, slots: slots@ }, d@, at as int) == after_records(
                start,
                d@,
                HEADER as int,
            ),
        decreases d.len() - at,
    {
        match (u32_at(d, at), u16_at(d, at + 4)) {
            (Some(words), Some(kind)) => {
                let size: u64 = 2 * words as u64;
                if size < 6 || size > (d.len() - at) as u64 || kind == META_EOF {
                    return;
                }
                let size: usize = size as usize;
                step(slots, c, kind, slice_subrange(d, at, at + size));
                at = at + size;
            },
            _ => {
                return;
            },
        }
    }
}

/// Reads a metafile of this flavour. The file carries no page size of its own,
/// so the window extent is taken as the device size and `paper_mm100` as the
/// frame.
pub fn read(d: &[u8], paper_mm100: (i32, i32)) -> (r: Option<Metafile>)
    ensures
        match (r, wmf_page(d@, paper_mm100)) {
            (Some(m), Some(p)) => m@ == p,
            (None, None) => true,
            _ => false,
        },
{
    if !looks_like(d) {
        return None;
    }
    let mut c = Canvas::new((0, 0), paper_mm100);
    match u16_at(d, 14) {
        Some(n) => {
            c.page.records = n as u32;
        },
        None => {},
    }
    let mut slots: Vec<bool> = Vec::new();
    walk(&mut slots, &mut c, d);
    Some(c.finish())
}

} // verus!
