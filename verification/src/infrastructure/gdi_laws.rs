//! What holds of what is drawn on the page: where it lies, and what it is drawn
//! with.
use crate::domain::rendering::{FontKind, Hang, Length, RasterOp, Source};
use crate::infrastructure::advances::unit_advances;
use crate::infrastructure::advances::Table;
use crate::infrastructure::emf;
use crate::infrastructure::gdi::{
    advance_below, hang_of, left_edges, run_shift, sane_advances, CanvasModel, Font,
    Object, State,
};
use crate::infrastructure::octets::u16_of;
use crate::infrastructure::record_laws::spot;
use crate::infrastructure::text_laws::{law_units_read_back, units_of};
use crate::infrastructure::utf16::utf16_text;
use crate::infrastructure::writing::{
    lemma_long_read, lemma_short_read, lemma_signed_long_read, lies_at, long, short, signed_long,
};
use vstd::prelude::*;

verus! {

// ---------------------------------------------------------------------- places

/// A painted rectangle reaches from one corner to the other, in the colour of
/// the brush.
pub proof fn law_fill_covers_box(c: CanvasModel, x: i32, y: i32, w: i32, h: i32)
    requires
        i32::MIN <= x + w <= i32::MAX,
        i32::MIN <= y + h <= i32::MAX,
        c.state.brush is Some,
    ensures
        ({
            let (l, t) = spot(c.state, x, y);
            let (r, b) = spot(c.state, (x + w) as i32, (y + h) as i32);
            let d = c.filling(x, y, w, h);
            if l.before(r) && t.before(b) {
                &&& d.page.fills.len() == c.page.fills.len() + 1
                &&& d.page.fills.drop_last() == c.page.fills
                &&& d.page.fills.last().left == l
                &&& d.page.fills.last().top == t
                &&& d.page.fills.last().right == r
                &&& d.page.fills.last().bottom == b
                &&& Some(d.page.fills.last().rgb) == c.state.brush
                &&& d.page.fills.last().clip == c.state.clip
                &&& d.page.fills.last().clip_path == c.state.clip_path
                &&& d.page.fills.last().order == d.order
            } else {
                d.page == c.page
            }
        }),
{
    let d = c.filling(x, y, w, h);
    if d.page.fills.len() > c.page.fills.len() {
        assert(d.page.fills.drop_last() =~= c.page.fills);
    }
}

/// A picture that is placed reaches from one corner to the other.
pub proof fn law_picture_covers_box(
    c: CanvasModel,
    source: Source,
    x: i32,
    y: i32,
    w: i32,
    h: i32,
    op: RasterOp,
)
    requires
        i32::MIN <= x + w <= i32::MAX,
        i32::MIN <= y + h <= i32::MAX,
    ensures
        ({
            let (l, t) = spot(c.state, x, y);
            let (r, b) = spot(c.state, (x + w) as i32, (y + h) as i32);
            let d = c.placing(source, (x, y, w, h), op);
            if l.before(r) && t.before(b) {
                &&& d.page.images.len() == c.page.images.len() + 1
                &&& d.page.images.drop_last() == c.page.images
                &&& d.page.images.last().left == l
                &&& d.page.images.last().top == t
                &&& d.page.images.last().right == r
                &&& d.page.images.last().bottom == b
                &&& d.page.images.last().source == source
                &&& d.page.images.last().raster_op == op
                &&& d.page.images.last().clip == c.state.clip
                &&& d.page.images.last().clip_path == c.state.clip_path
                &&& d.page.images.last().order == d.order
            } else {
                d.page == c.page
            }
        }),
{
    let d = c.placing(source, (x, y, w, h), op);
    if d.page.images.len() > c.page.images.len() {
        assert(d.page.images.drop_last() =~= c.page.images);
    }
}

/// The clip rectangle lies between the two corners, whichever is given first,
/// and none is in force where it would cover the page.
pub proof fn law_clip_lies_between(c: CanvasModel, l: i32, t: i32, r: i32, b: i32)
    ensures
        ({
            let p = spot(c.state, l, t);
            let q = spot(c.state, r, b);
            let d = c.clipping(l, t, r, b).state;
            &&& d.clip_path is None
            &&& d.clip_logical == Some((l, t, r, b))
            &&& d.clip matches Some(k) ==> {
                &&& p.0.before(q.0) && !q.0.before(p.0) ==> k.left == p.0 && k.right == q.0
                &&& q.0.before(p.0) && !p.0.before(q.0) ==> k.left == q.0 && k.right == p.0
                &&& p.1.before(q.1) && !q.1.before(p.1) ==> k.top == p.1 && k.bottom == q.1
                &&& q.1.before(p.1) && !p.1.before(q.1) ==> k.top == q.1 && k.bottom == p.1
                &&& !(k.left.at_most(0) && k.top.at_most(0) && k.right.at_least(c.page.device.0)
                    && k.bottom.at_least(c.page.device.1))
            }
        }),
{
}

// ----------------------------------------------------------------------- text

/// Each character starts where the one before ends. A run that is aligned left
/// starts at the reference point, one aligned right ends there, and one in the
/// centre lies as far to its left as to its right.
pub proof fn law_run_is_aligned(align: u32, advances: Seq<i64>, n: int)
    requires
        sane_advances(advances),
        0 < n == advances.len() <= 0x1_0000,
    ensures
        ({
            let xs = left_edges(align, advances, n);
            let end = xs[n - 1] + 2 * advances[n - 1];
            &&& xs.len() == n
            &&& forall|i: int| 0 <= i < n - 1 ==> xs[i + 1] == xs[i] + 2 * #[trigger] advances[i]
            &&& align & 6 == 0 ==> xs[0] == 0
            &&& align & 6 == 2 ==> end == 0
            &&& align & 6 == 6 ==> xs[0] + end == 0
        }),
{
    let xs = left_edges(align, advances, n);
    assert forall|i: int| 0 <= i <= n implies -(i * 0x2_0000_0000) <= #[trigger] advance_below(
        advances,
        i,
    ) <= i * 0x2_0000_0000 by {
        lemma_below(advances, i);
    }
    assert(advance_below(advances, n) == advance_below(advances, n - 1) + advances[n - 1]);
    assert(advance_below(advances, 0) == 0);
    assert forall|i: int| 0 <= i < n - 1 implies xs[i + 1] == xs[i] + 2 * #[trigger] advances[i] by {
        assert(advance_below(advances, i + 1) == advance_below(advances, i) + advances[i]);
    }
    assert(align & 6 == 0 ==> run_shift(align, 1) == 0);
}

proof fn lemma_below(advances: Seq<i64>, n: int)
    requires
        sane_advances(advances),
        0 <= n <= advances.len(),
    ensures
        -(n * 0x2_0000_0000) <= advance_below(advances, n) <= n * 0x2_0000_0000,
    decreases n,
{
    if n > 0 {
        lemma_below(advances, n - 1);
        let a = advances[n - 1];
    }
}

/// The reference point lies on the baseline, at the bottom or at the top.
pub proof fn law_run_hangs(align: u32)
    ensures
        align & 24 == 24 ==> hang_of(align) == Hang::Baseline,
        align & 24 == 8 ==> hang_of(align) == Hang::Bottom,
        align & 24 == 0 ==> hang_of(align) == Hang::Top,
{
    assert(align & 24 == 8 ==> align & 8 == 8) by (bit_vector);
    assert(align & 24 == 0 ==> align & 8 == 0) by (bit_vector);
}

/// Text that is written as 16-bit units, with how far each reaches, is shown so:
/// its characters, from the reference point on, in the colour and the font in
/// force.
pub proof fn law_text_is_shown(
    c: CanvasModel,
    r: Seq<u8>,
    x: i32,
    y: i32,
    text: Seq<char>,
    reach: Seq<i32>,
    at: nat,
    reaches_at: nat,
)
    requires
        0 < text.len() == reach.len() <= 0x1_0000,
        forall|i: int| 0 <= i < text.len() ==> (#[trigger] text[i] as u32) < 0x1_0000,
        at < 0x1_0000_0000,
        reaches_at < 0x1_0000_0000,
        lies_at(r, 36, signed_long(x as int)),
        lies_at(r, 40, signed_long(y as int)),
        lies_at(r, 44, long(text.len())),
        lies_at(r, 48, long(at)),
        lies_at(r, 72, long(reaches_at)),
        forall|i: int|
            0 <= i < text.len() ==> lies_at(r, at + 2 * i, short(#[trigger] text[i] as u32 as nat)),
        forall|i: int|
            0 <= i < text.len() ==> lies_at(
                r,
                reaches_at + 4 * i,
                signed_long(#[trigger] reach[i] as int),
            ),
    ensures
        ({
            let d = emf::after_record(c, 84, r);
            let t = d.page.text.last();
            &&& d.page.text.len() == c.page.text.len() + 1
            &&& d.page.text.drop_last() == c.page.text
            &&& t.chars == text
            &&& (t.x, t.y) == spot(c.state, x, y)
            &&& t.xs == left_edges(
                c.state.align,
                Seq::new(reach.len(), |i: int| (2 * reach[i]) as i64),
                text.len() as int,
            )
            &&& t.rgb == c.state.text_rgb
            &&& t.font_kind == c.state.font.kind
            &&& t.escapement == c.state.font.escapement
            &&& t.underline == c.state.font.underline
            &&& t.bold == (c.state.font.weight >= 600)
            &&& t.order == d.order
            &&& d.state == c.state
        }),
{
    let a = Seq::new(reach.len(), |i: int| (2 * reach[i]) as i64);
    lemma_text_read(c, r, x, y, text, reach, at, reaches_at);
    lemma_text_record(c, r);
    let d = c.writing(x, y, text, a);
    assert(d.page.text.drop_last() =~= c.page.text);
}

proof fn lemma_text_read(
    c: CanvasModel,
    r: Seq<u8>,
    x: i32,
    y: i32,
    text: Seq<char>,
    reach: Seq<i32>,
    at: nat,
    reaches_at: nat,
)
    requires
        0 < text.len() == reach.len() <= 0x1_0000,
        forall|i: int| 0 <= i < text.len() ==> (#[trigger] text[i] as u32) < 0x1_0000,
        at < 0x1_0000_0000,
        reaches_at < 0x1_0000_0000,
        lies_at(r, 36, signed_long(x as int)),
        lies_at(r, 40, signed_long(y as int)),
        lies_at(r, 44, long(text.len())),
        lies_at(r, 48, long(at)),
        lies_at(r, 72, long(reaches_at)),
        forall|i: int|
            0 <= i < text.len() ==> lies_at(r, at + 2 * i, short(#[trigger] text[i] as u32 as nat)),
        forall|i: int|
            0 <= i < text.len() ==> lies_at(
                r,
                reaches_at + 4 * i,
                signed_long(#[trigger] reach[i] as int),
            ),
    ensures
        emf::text_record(c, r, true) == (
            true,
            c.writing(x, y, text, Seq::new(reach.len(), |i: int| (2 * reach[i]) as i64)),
        ),
{
    let n = text.len();
    lemma_signed_long_read(r, 36, x as int);
    lemma_signed_long_read(r, 40, y as int);
    lemma_long_read(r, 44, n);
    lemma_long_read(r, 48, at);
    lemma_long_read(r, 72, reaches_at);
    let last = text[n - 1];
    let far = reach[n - 1];
    lemma_text_units(r, at as int, text);
    let table = Table::found(reaches_at as int, n as usize, true, r.len());
    assert(table is Some);
    let a = unit_advances(r, table, n);
    assert forall|i: int| 0 <= i < n implies #[trigger] a[i] == (2 * reach[i]) as i64 by {
        assert(lies_at(r, reaches_at + 4 * i, signed_long(reach[i] as int)));
        lemma_signed_long_read(r, reaches_at + 4 * i, reach[i] as int);
    }
    assert(a =~= Seq::new(reach.len(), |i: int| (2 * reach[i]) as i64));
    assert(emf::text_record(c, r, true) == (true, c.writing(x, y, text, a)));
}

proof fn lemma_text_record(c: CanvasModel, r: Seq<u8>)
    ensures
        emf::after_record(c, 84, r) == emf::or_skipped(emf::text_record(c, r, true), 84),
{
    assert(emf::state_record(c, 84, r) is None);
    assert(emf::object_record(c, 84, r) is None);
}

proof fn lemma_text_units(r: Seq<u8>, at: int, text: Seq<char>)
    requires
        0 <= at,
        at + 2 * text.len() <= r.len(),
        forall|i: int| 0 <= i < text.len() ==> (#[trigger] text[i] as u32) < 0x1_0000,
        forall|i: int|
            0 <= i < text.len() ==> lies_at(r, at + 2 * i, short(#[trigger] text[i] as u32 as nat)),
    ensures
        utf16_text(emf::units_of(r.subrange(at, at + 2 * text.len())), 0) == text,
{
    let b = r.subrange(at, at + 2 * text.len());
    let u = emf::units_of(b);
    lemma_short_units(text);
    law_units_read_back(text);
    assert forall|i: int| 0 <= i < text.len() implies #[trigger] u[i] == text[i] as u32 as u16 by {
        assert(lies_at(r, at + 2 * i, short(text[i] as u32 as nat)));
        lemma_short_read(r, at + 2 * i, text[i] as u32 as nat);
        assert(b[2 * i] == r[at + 2 * i] && b[2 * i + 1] == r[at + 2 * i + 1]);
        assert(u16_of(b, 2 * i) == u16_of(r, at + 2 * i));
    }
    assert(u =~= units_of(text));
}

/// Characters of one unit each.
proof fn lemma_short_units(text: Seq<char>)
    requires
        forall|i: int| 0 <= i < text.len() ==> (#[trigger] text[i] as u32) < 0x1_0000,
    ensures
        units_of(text).len() == text.len(),
        forall|i: int| 0 <= i < text.len() ==> #[trigger] units_of(text)[i] == text[i] as u32 as u16,
    decreases text.len(),
{
    if text.len() > 0 {
        let rest = text.drop_first();
        assert forall|i: int| 0 <= i < rest.len() implies (#[trigger] rest[i] as u32)
            < 0x1_0000 by {
            assert(rest[i] == text[i + 1]);
        }
        let first = text[0];
        lemma_short_units(rest);
        assert forall|i: int| 0 <= i < text.len() implies #[trigger] units_of(text)[i]
            == text[i] as u32 as u16 by {
            if i > 0 {
                assert(units_of(text)[i] == units_of(rest)[i - 1]);
                assert(rest[i - 1] == text[i]);
            }
        }
    }
}

// -------------------------------------------------------------------- objects

/// A colour as it is written: red lowest, blue highest.
pub open spec fn colour_number(r: u8, g: u8, b: u8) -> nat {
    (r + 256 * g + 65536 * b) as nat
}

pub proof fn lemma_colour_number(r: u8, g: u8, b: u8)
    ensures
        colour_number(r, g, b) < 0x100_0000,
        crate::infrastructure::gdi::colour_of(colour_number(r, g, b) as u32) == (r, g, b),
{
    let n = r + 256 * g + 65536 * b;
    assert(n % 256 == r);
    assert(n / 256 == g + 256 * b);
    assert((g + 256 * b) % 256 == g);
    assert(n / 65536 == b);
}

/// What a record of the enhanced flavour does.
#[verifier::opaque]
pub open spec fn after(c: CanvasModel, kind: u32, r: Seq<u8>) -> CanvasModel {
    emf::after_record(c, kind, r)
}

/// The state that an object is selected in.
pub open spec fn put_to_use(s: State, o: Object) -> State {
    match o {
        Object::Font(f) => State { font: f, ..s },
        Object::Brush(b) => State { brush: b, ..s },
        Object::Pen(p) => State { pen: p, ..s },
        Object::Opaque => s,
    }
}

/// The record makes an object and does nothing else: selected, it is put to use,
/// any other is what it was, and once it is deleted its number stands for none.
pub open spec fn makes(c: CanvasModel, d: CanvasModel, handle: nat, o: Object) -> bool {
    &&& d.state == c.state
    &&& d.page == c.page
    &&& d.order == c.order
    &&& d.saved_states == c.saved_states
    &&& forall|r: Seq<u8>| #[trigger]
        lies_at(r, 8, long(handle)) ==> after(d, 37, r).state == put_to_use(c.state, o)
            && after(after(d, 40, r), 37, r).state == c.state
    &&& forall|r: Seq<u8>, other: nat|
        other < 0x1_0000_0000 && other != handle && #[trigger] lies_at(r, 8, long(other))
            ==> after(d, 37, r).state == after(c, 37, r).state
}

proof fn lemma_select(c: CanvasModel, r: Seq<u8>, handle: nat)
    requires
        handle < 0x1_0000_0000,
        lies_at(r, 8, long(handle)),
    ensures
        after(c, 37, r) == c.selecting(handle as u32),
        after(c, 40, r) == (CanvasModel {
            objects: c.objects.remove(handle as u32),
            ..c
        }),
{
    reveal(after);
    lemma_long_read(r, 8, handle);
    assert(emf::state_record(c, 37, r) is None);
    assert(emf::state_record(c, 40, r) is None);
}

proof fn lemma_makes(c: CanvasModel, d: CanvasModel, handle: nat, o: Object)
    requires
        handle < 0x8000_0000,
        d == (CanvasModel { objects: c.objects.insert(handle as u32, o), ..c }),
    ensures
        makes(c, d, handle, o),
{
    assert forall|r: Seq<u8>| #[trigger] lies_at(r, 8, long(handle)) implies after(
        d,
        37,
        r,
    ).state == put_to_use(c.state, o) && after(
        after(d, 40, r),
        37,
        r,
    ).state == c.state by {
        lemma_select(d, r, handle);
        lemma_select(after(d, 40, r), r, handle);
    }
    assert forall|r: Seq<u8>, other: nat|
        other < 0x1_0000_0000 && other != handle && #[trigger] lies_at(
            r,
            8,
            long(other),
        ) implies after(d, 37, r).state == after(c, 37, r).state by {
        lemma_select(d, r, other);
        lemma_select(c, r, other);
    }
}

/// A brush is of the colour that was written; one of the style 1 paints nothing.
pub proof fn law_brush_is_made(
    c: CanvasModel,
    r: Seq<u8>,
    handle: nat,
    style: nat,
    colour: (u8, u8, u8),
)
    requires
        handle < 0x8000_0000,
        style < 0x1_0000_0000,
        lies_at(r, 8, long(handle)),
        lies_at(r, 12, long(style)),
        lies_at(r, 16, long(colour_number(colour.0, colour.1, colour.2))),
    ensures
        makes(
            c,
            after(c, 39, r),
            handle,
            Object::Brush(
                if style == 1 {
                    None
                } else {
                    Some(colour)
                },
            ),
        ),
{
    lemma_colour_number(colour.0, colour.1, colour.2);
    reveal(after);
    lemma_long_read(r, 8, handle);
    lemma_long_read(r, 12, style);
    lemma_long_read(r, 16, colour_number(colour.0, colour.1, colour.2));
    assert(emf::state_record(c, 39, r) is None);
    let o = Object::Brush(
        if style == 1 {
            None
        } else {
            Some(colour)
        },
    );
    lemma_makes(c, after(c, 39, r), handle, o);
}

/// A pen as wide as so many units down are, at least one; of the style 5, none.
pub open spec fn pen_meant(
    s: State,
    style: nat,
    width: int,
    colour: (u8, u8, u8),
) -> Object {
    let units = if width < 1 {
        1
    } else {
        width
    };
    let (num, den) = match (s.window_ext, s.viewport_ext) {
        (Some(w), Some(v)) => (v.1, w.1),
        _ => (1i32, 1i32),
    };
    Object::Pen(
        if style % 16 == 5 {
            None
        } else {
            Some((colour, Length { units: units as u64, per: 1, num, den }))
        },
    )
}

/// A pen is of the width and the colour that were written, in the short record
/// and in the long one.
pub proof fn law_pen_is_made(
    c: CanvasModel,
    r: Seq<u8>,
    handle: nat,
    style: nat,
    width: int,
    colour: (u8, u8, u8),
    extended: bool,
)
    requires
        handle < 0x8000_0000,
        style < 0x1_0000_0000,
        -0x8000_0000 <= width < 0x8000_0000,
        lies_at(r, 8, long(handle)),
        !extended ==> lies_at(r, 12, long(style)) && lies_at(r, 16, signed_long(width)) && lies_at(
            r,
            24,
            long(colour_number(colour.0, colour.1, colour.2)),
        ),
        extended ==> lies_at(r, 28, long(style)) && lies_at(r, 32, signed_long(width)) && lies_at(
            r,
            40,
            long(colour_number(colour.0, colour.1, colour.2)),
        ),
    ensures
        makes(
            c,
            after(
                c,
                if extended {
                    95
                } else {
                    38
                },
                r,
            ),
            handle,
            pen_meant(c.state, style, width, colour),
        ),
{
    let n = colour_number(colour.0, colour.1, colour.2);
    lemma_colour_number(colour.0, colour.1, colour.2);
    reveal(after);
    lemma_long_read(r, 8, handle);
    let o = pen_meant(c.state, style, width, colour);
    if extended {
        lemma_long_read(r, 28, style);
        lemma_signed_long_read(r, 32, width);
        lemma_long_read(r, 40, n);
        assert(emf::state_record(c, 95, r) is None);
        lemma_makes(c, after(c, 95, r), handle, o);
    } else {
        lemma_long_read(r, 12, style);
        lemma_signed_long_read(r, 16, width);
        lemma_long_read(r, 24, n);
        assert(emf::state_record(c, 38, r) is None);
        lemma_makes(c, after(c, 38, r), handle, o);
    }
}

/// A font is of the height, the slope and the weight that were written, and
/// underlined where that was.
pub proof fn law_font_is_made(
    c: CanvasModel,
    r: Seq<u8>,
    handle: nat,
    height: i32,
    escapement: i32,
    weight: i32,
    italic: u8,
    underline: u8,
)
    requires
        handle < 0x8000_0000,
        lies_at(r, 8, long(handle)),
        lies_at(r, 12, signed_long(height as int)),
        lies_at(r, 20, signed_long(escapement as int)),
        lies_at(r, 28, signed_long(weight as int)),
        lies_at(r, 32, seq![italic, underline]),
    ensures
        makes(
            c,
            after(c, 82, r),
            handle,
            Object::Font(
                Font {
                    height,
                    escapement,
                    weight,
                    underline: underline != 0,
                    kind: FontKind::Japanese,
                },
            ),
        ),
{
    reveal(after);
    lemma_long_read(r, 8, handle);
    lemma_signed_long_read(r, 12, height as int);
    lemma_signed_long_read(r, 20, escapement as int);
    lemma_signed_long_read(r, 28, weight as int);
    let pair = seq![italic, underline];
    assert(r[32int + 1] == pair[1]);
    assert(emf::state_record(c, 82, r) is None);
    let o = Object::Font(
        Font {
            height,
            escapement,
            weight,
            underline: underline != 0,
            kind: FontKind::Japanese,
        },
    );
    lemma_makes(c, after(c, 82, r), handle, o);
}

} // verus!
