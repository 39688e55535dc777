//! What holds of the records of the 16-bit flavour: what is written in one is
//! what is drawn, and the same as in the other flavour.
use crate::domain::rendering::MetafileModel;
use crate::infrastructure::gdi::CanvasModel;
use crate::infrastructure::octets::u32_of;
use crate::infrastructure::record_laws::{
    acted, are_short, flat, lemma_colour, lemma_outlined, lemma_short, lemma_two_shorts, shorts,
    Act,
};
use crate::infrastructure::wmf;
use crate::infrastructure::wmf::Slotted;
use vstd::prelude::*;

verus! {

/// The number of the record of the 16-bit flavour.
pub open spec fn wmf_kind(a: Act) -> u16 {
    match a {
        Act::WindowOrigin(_, _) => 0x020B,
        Act::WindowExtent(_, _) => 0x020C,
        Act::ViewportOrigin(_, _) => 0x020D,
        Act::ViewportExtent(_, _) => 0x020E,
        Act::LineTo(_, _) => 0x0213,
        Act::MoveTo(_, _) => 0x0214,
        Act::Clip(_, _, _, _) => 0x0416,
        Act::Ellipse(_, _, _, _) => 0x0418,
        Act::Rectangle(_, _, _, _) => 0x041B,
        Act::Fill(_, _, _, _) => 0x061D,
        Act::Outline(_, closed) => if closed {
            0x0324
        } else {
            0x0325
        },
        Act::TextColour(_, _, _) => 0x0209,
        Act::TextAlign(_) => 0x012E,
        Act::EvenOdd(_) => 0x0106,
        Act::Save => 0x001E,
        Act::Restore(_) => 0x0127,
    }
}

/// The numbers in the record, behind its size and its number: of points and
/// boxes the last first, of lines the points in order.
pub open spec fn wmf_numbers(a: Act) -> Seq<int> {
    match a {
        Act::WindowExtent(x, y) => seq![y as int, x as int],
        Act::WindowOrigin(x, y) => seq![y as int, x as int],
        Act::ViewportExtent(x, y) => seq![y as int, x as int],
        Act::ViewportOrigin(x, y) => seq![y as int, x as int],
        Act::MoveTo(x, y) => seq![y as int, x as int],
        Act::LineTo(x, y) => seq![y as int, x as int],
        Act::Rectangle(l, t, r, b) => seq![b as int, r as int, t as int, l as int],
        Act::Ellipse(l, t, r, b) => seq![b as int, r as int, t as int, l as int],
        Act::Clip(l, t, r, b) => seq![b as int, r as int, t as int, l as int],
        Act::Fill(x, y, w, h) => seq![
            0x0021int,
            0x00F0int,
            h as int,
            w as int,
            y as int,
            x as int,
        ],
        Act::Outline(points, _) => seq![points.len() as int] + flat(points),
        Act::TextColour(r, g, b) => seq![r + 256 * g, b as int],
        Act::TextAlign(v) => seq![v as int],
        Act::EvenOdd(yes) => seq![
            if yes {
                1int
            } else {
                2
            },
        ],
        Act::Save => seq![],
        Act::Restore(level) => seq![level as int],
    }
}

/// The number fits 16 bits.
pub open spec fn is_short(v: i32) -> bool {
    -0x8000 <= v < 0x8000
}

/// All numbers of the act fit 16 bits.
pub open spec fn is_short_act(a: Act) -> bool {
    match a {
        Act::WindowExtent(x, y) => is_short(x) && is_short(y),
        Act::WindowOrigin(x, y) => is_short(x) && is_short(y),
        Act::ViewportExtent(x, y) => is_short(x) && is_short(y),
        Act::ViewportOrigin(x, y) => is_short(x) && is_short(y),
        Act::MoveTo(x, y) => is_short(x) && is_short(y),
        Act::LineTo(x, y) => is_short(x) && is_short(y),
        Act::Rectangle(l, t, r, b) => is_short(l) && is_short(t) && is_short(r) && is_short(b),
        Act::Ellipse(l, t, r, b) => is_short(l) && is_short(t) && is_short(r) && is_short(b),
        Act::Clip(l, t, r, b) => is_short(l) && is_short(t) && is_short(r) && is_short(b),
        Act::Fill(x, y, w, h) => is_short(x) && is_short(y) && is_short(w) && is_short(h),
        Act::Outline(points, _) => points.len() <= 0xFFFF && are_short(points),
        Act::Restore(level) => is_short(level),
        _ => true,
    }
}

/// The canvas when that is done in the 16-bit flavour. The first window extent
/// is also the size of a page that has none.
pub open spec fn acted_short(c: CanvasModel, a: Act) -> CanvasModel {
    let d = acted(c, a);
    match a {
        Act::WindowExtent(x, y) => if c.page.device == (0i32, 0i32) {
            CanvasModel {
                page: MetafileModel {
                    device: (
                        if x < 0 {
                            (-x) as i32
                        } else {
                            x
                        },
                        if y < 0 {
                            (-y) as i32
                        } else {
                            y
                        },
                    ),
                    ..d.page
                },
                ..d
            }
        } else {
            d
        },
        _ => d,
    }
}

/// What a record of the 16-bit flavour says.
#[verifier::opaque]
spec fn wmf_says(a: Act, r: Seq<u8>) -> bool {
    match a {
        Act::WindowExtent(x, y) => wmf::point_of(r) == Some((x, y)),
        Act::WindowOrigin(x, y) => wmf::point_of(r) == Some((x, y)),
        Act::ViewportExtent(x, y) => wmf::point_of(r) == Some((x, y)),
        Act::ViewportOrigin(x, y) => wmf::point_of(r) == Some((x, y)),
        Act::MoveTo(x, y) => wmf::point_of(r) == Some((x, y)),
        Act::LineTo(x, y) => wmf::point_of(r) == Some((x, y)),
        Act::Rectangle(l, t, rt, b) => wmf::box_of(r) == Some((l, t, rt, b)),
        Act::Ellipse(l, t, rt, b) => wmf::box_of(r) == Some((l, t, rt, b)),
        Act::Clip(l, t, rt, b) => wmf::box_of(r) == Some((l, t, rt, b)),
        Act::Fill(x, y, w, h) => u32_of(r, 6) == Some(0x00F0_0021u32) && wmf::parameter(r, 2)
            == Some(h) && wmf::parameter(r, 3) == Some(w) && wmf::parameter(r, 4) == Some(y)
            && wmf::parameter(r, 5) == Some(x),
        Act::Outline(points, _) => wmf::polygon_points(r) == Some(points),
        Act::TextColour(rd, g, b) => match u32_of(r, 6) {
            Some(v) => crate::infrastructure::gdi::colour_of(v) == (rd, g, b),
            None => false,
        },
        Act::TextAlign(v) => wmf::word_of(r, 0) == v,
        Act::EvenOdd(yes) => (wmf::word_of(r, 1) != 2) == yes,
        Act::Save => true,
        Act::Restore(level) => wmf::parameter(r, 0) == Some(level),
    }
}

proof fn lemma_parameter(head: Seq<u8>, v: Seq<int>, rest: Seq<u8>, i: int)
    requires
        head.len() == 6,
        0 <= i < v.len(),
        -0x8000 <= v[i] < 0x8000,
    ensures
        wmf::parameter(head + shorts(v) + rest, i) == Some(v[i] as i32),
{
    lemma_short(head, v, rest, i);
}

proof fn lemma_point(head: Seq<u8>, x: i32, y: i32, rest: Seq<u8>)
    requires
        head.len() == 6,
        is_short(x),
        is_short(y),
    ensures
        wmf::point_of(head + shorts(seq![y as int, x as int]) + rest) == Some((x, y)),
{
    let v = seq![y as int, x as int];
    lemma_parameter(head, v, rest, 0);
    lemma_parameter(head, v, rest, 1);
}

proof fn lemma_box(head: Seq<u8>, l: i32, t: i32, rt: i32, b: i32, rest: Seq<u8>)
    requires
        head.len() == 6,
        is_short(l),
        is_short(t),
        is_short(rt),
        is_short(b),
    ensures
        wmf::box_of(head + shorts(seq![b as int, rt as int, t as int, l as int]) + rest) == Some(
            (l, t, rt, b),
        ),
{
    let v = seq![b as int, rt as int, t as int, l as int];
    lemma_parameter(head, v, rest, 0);
    lemma_parameter(head, v, rest, 1);
    lemma_parameter(head, v, rest, 2);
    lemma_parameter(head, v, rest, 3);
}

proof fn lemma_points(head: Seq<u8>, points: Seq<(i32, i32)>, rest: Seq<u8>)
    requires
        head.len() == 6,
        points.len() <= 0xFFFF,
        are_short(points),
    ensures
        wmf::polygon_points(head + shorts(seq![points.len() as int] + flat(points)) + rest)
            == Some(points),
{
    let v = seq![points.len() as int] + flat(points);
    let r = head + shorts(v) + rest;
    lemma_short(head, v, rest, 0);
    let got = wmf::polygon_points(r)->0;
    assert forall|i: int| 0 <= i < points.len() implies got[i] == points[i] by {
        assert(is_short(points[i].0) && is_short(points[i].1));
        assert(v[1 + 2 * i] == flat(points)[2 * i]);
        assert(v[2 + 2 * i] == flat(points)[2 * i + 1]);
        assert((2 * i) / 2 == i && (2 * i) % 2 == 0);
        assert((2 * i + 1) / 2 == i && (2 * i + 1) % 2 == 1);
        lemma_short(head, v, rest, 1 + 2 * i);
        lemma_short(head, v, rest, 2 + 2 * i);
        assert(6 + 2 * (1 + 2 * i) == 8 + 4 * i);
        assert(6 + 2 * (2 + 2 * i) == 10 + 4 * i);
    }
    assert(got =~= points);
}

proof fn lemma_first_word(head: Seq<u8>, v: Seq<int>, rest: Seq<u8>)
    requires
        head.len() == 6,
        0 < v.len(),
        0 <= v[0] <= 0xFFFF,
    ensures
        wmf::word_of(head + shorts(v) + rest, 0) == v[0],
        wmf::word_of(head + shorts(v) + rest, 1) == v[0],
{
    lemma_short(head, v, rest, 0);
}

proof fn lemma_fill(head: Seq<u8>, x: i32, y: i32, w: i32, h: i32, rest: Seq<u8>)
    requires
        head.len() == 6,
        is_short(x),
        is_short(y),
        is_short(w),
        is_short(h),
    ensures
        wmf_says(
            Act::Fill(x, y, w, h),
            head + shorts(wmf_numbers(Act::Fill(x, y, w, h))) + rest,
        ),
{
    reveal(wmf_says);
    let v = wmf_numbers(Act::Fill(x, y, w, h));
    assert(v[0] == 0x0021 && v[1] == 0x00F0 && v[2] == h && v[3] == w && v[4] == y && v[5] == x);
    assert(0x0021int % 0x1_0000 + 0x1_0000 * (0x00F0int % 0x1_0000) == 0x00F0_0021);
    lemma_two_shorts(head, v, rest, 0);
    lemma_parameter(head, v, rest, 2);
    lemma_parameter(head, v, rest, 3);
    lemma_parameter(head, v, rest, 4);
    lemma_parameter(head, v, rest, 5);
}

proof fn lemma_text_colour(head: Seq<u8>, r: u8, g: u8, b: u8, rest: Seq<u8>)
    requires
        head.len() == 6,
    ensures
        wmf_says(
            Act::TextColour(r, g, b),
            head + shorts(wmf_numbers(Act::TextColour(r, g, b))) + rest,
        ),
{
    reveal(wmf_says);
    let v = wmf_numbers(Act::TextColour(r, g, b));
    let low = r + 256 * g;
    assert(v[0] == low && v[1] == b);
    assert(low % 0x1_0000 == low);
    lemma_two_shorts(head, v, rest, 0);
    lemma_colour(r, g, b);
}

proof fn lemma_point_says(a: Act, x: i32, y: i32, head: Seq<u8>, rest: Seq<u8>)
    requires
        head.len() == 6,
        is_short(x),
        is_short(y),
        a == Act::WindowExtent(x, y) || a == Act::WindowOrigin(x, y) || a == Act::ViewportExtent(
            x,
            y,
        ) || a == Act::ViewportOrigin(x, y) || a == Act::MoveTo(x, y) || a == Act::LineTo(x, y),
    ensures
        wmf_says(a, head + shorts(wmf_numbers(a)) + rest),
{
    reveal(wmf_says);
    lemma_point(head, x, y, rest);
}

proof fn lemma_box_says(a: Act, l: i32, t: i32, r: i32, b: i32, head: Seq<u8>, rest: Seq<u8>)
    requires
        head.len() == 6,
        is_short(l),
        is_short(t),
        is_short(r),
        is_short(b),
        a == Act::Rectangle(l, t, r, b) || a == Act::Ellipse(l, t, r, b) || a == Act::Clip(
            l,
            t,
            r,
            b,
        ),
    ensures
        wmf_says(a, head + shorts(wmf_numbers(a)) + rest),
{
    reveal(wmf_says);
    lemma_box(head, l, t, r, b, rest);
}

proof fn lemma_rest_says(a: Act, head: Seq<u8>, rest: Seq<u8>)
    requires
        head.len() == 6,
        is_short_act(a),
        a is Outline || a is TextAlign || a is EvenOdd || a is Save || a is Restore,
    ensures
        wmf_says(a, head + shorts(wmf_numbers(a)) + rest),
{
    reveal(wmf_says);
    let v = wmf_numbers(a);
    match a {
        Act::Outline(points, closed) => lemma_points(head, points, rest),
        Act::TextAlign(n) => lemma_first_word(head, v, rest),
        Act::EvenOdd(yes) => lemma_first_word(head, v, rest),
        Act::Restore(level) => lemma_parameter(head, v, rest, 0),
        _ => {},
    }
}

proof fn lemma_wmf_says(a: Act, head: Seq<u8>, rest: Seq<u8>)
    requires
        head.len() == 6,
        is_short_act(a),
    ensures
        wmf_says(a, head + shorts(wmf_numbers(a)) + rest),
{
    match a {
        Act::WindowExtent(x, y) => lemma_point_says(a, x, y, head, rest),
        Act::WindowOrigin(x, y) => lemma_point_says(a, x, y, head, rest),
        Act::ViewportExtent(x, y) => lemma_point_says(a, x, y, head, rest),
        Act::ViewportOrigin(x, y) => lemma_point_says(a, x, y, head, rest),
        Act::MoveTo(x, y) => lemma_point_says(a, x, y, head, rest),
        Act::LineTo(x, y) => lemma_point_says(a, x, y, head, rest),
        Act::Rectangle(l, t, r, b) => lemma_box_says(a, l, t, r, b, head, rest),
        Act::Ellipse(l, t, r, b) => lemma_box_says(a, l, t, r, b, head, rest),
        Act::Clip(l, t, r, b) => lemma_box_says(a, l, t, r, b, head, rest),
        Act::Fill(x, y, w, h) => lemma_fill(head, x, y, w, h, rest),
        Act::TextColour(r, g, b) => lemma_text_colour(head, r, g, b, rest),
        _ => lemma_rest_says(a, head, rest),
    }
}

#[verifier::opaque]
spec fn wmf_does(s: Slotted, a: Act, r: Seq<u8>) -> bool {
    wmf::after_record(s, wmf_kind(a), r) == (Slotted { canvas: acted_short(s.canvas, a), ..s })
}

proof fn lemma_wmf_state(s: Slotted, a: Act, r: Seq<u8>)
    requires
        wmf_says(a, r),
        is_short_act(a),
        !(a is LineTo || a is Rectangle || a is Ellipse || a is Fill || a is Outline),
    ensures
        wmf_does(s, a, r),
{
    reveal(wmf_says);
    reveal(wmf_does);
    reveal(wmf::after_record);
    reveal(acted);
}

proof fn lemma_wmf_line(s: Slotted, r: Seq<u8>, x: i32, y: i32)
    requires
        wmf::point_of(r) == Some((x, y)),
    ensures
        wmf_does(s, Act::LineTo(x, y), r),
{
    reveal(wmf_does);
    reveal(wmf::after_record);
    reveal(acted);
    reveal(crate::infrastructure::record_laws::outlined);
    let c = s.canvas;
    match c.state.moved {
        Some(from) => lemma_outlined(c, seq![from, (x, y)], false),
        None => {},
    }
    assert(wmf::drawing_record(c, 0x0213, r) == crate::infrastructure::emf::lining(c, x, y));
}

proof fn lemma_wmf_box(s: Slotted, a: Act, r: Seq<u8>, l: i32, t: i32, rt: i32, b: i32)
    requires
        wmf::box_of(r) == Some((l, t, rt, b)),
        a == Act::Rectangle(l, t, rt, b) || a == Act::Ellipse(l, t, rt, b),
    ensures
        wmf_does(s, a, r),
{
    reveal(wmf_does);
    reveal(wmf::after_record);
    reveal(acted);
    lemma_outlined(s.canvas, seq![(l, t), (rt, t), (rt, b), (l, b)], true);
}

proof fn lemma_wmf_shape(s: Slotted, a: Act, r: Seq<u8>)
    requires
        wmf_says(a, r),
        a is Fill || a is Outline,
    ensures
        wmf_does(s, a, r),
{
    reveal(wmf_says);
    reveal(wmf_does);
    reveal(wmf::after_record);
    reveal(acted);
    match a {
        Act::Outline(points, closed) => lemma_outlined(s.canvas, points, closed),
        _ => {},
    }
}

/// A record of the 16-bit flavour does what is written in it, which is what the
/// record of the other flavour does.
pub proof fn law_wmf_record_acts(s: Slotted, a: Act, head: Seq<u8>, rest: Seq<u8>)
    requires
        head.len() == 6,
        is_short_act(a),
    ensures
        wmf::after_record(s, wmf_kind(a), head + shorts(wmf_numbers(a)) + rest) == (Slotted {
            canvas: acted_short(s.canvas, a),
            ..s
        }),
{
    let r = head + shorts(wmf_numbers(a)) + rest;
    assert(wmf_does(s, a, r)) by {
        lemma_wmf_says(a, head, rest);
        reveal(wmf_says);
        match a {
            Act::LineTo(x, y) => lemma_wmf_line(s, r, x, y),
            Act::Rectangle(l, t, rt, b) => lemma_wmf_box(s, a, r, l, t, rt, b),
            Act::Ellipse(l, t, rt, b) => lemma_wmf_box(s, a, r, l, t, rt, b),
            Act::Fill(_, _, _, _) => lemma_wmf_shape(s, a, r),
            Act::Outline(_, _) => lemma_wmf_shape(s, a, r),
            _ => lemma_wmf_state(s, a, r),
        }
    }
    reveal(wmf_does);
}

} // verus!
