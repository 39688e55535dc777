//! What holds of the objects of the 16-bit flavour, which are numbered by the
//! slots they take.
use crate::domain::rendering::FontKind;
use crate::infrastructure::gdi::{Font, Object};
use crate::infrastructure::gdi_laws::{
    colour_number, lemma_colour_number, pen_meant, put_to_use,
};
use crate::infrastructure::wmf::{self, after_record, free_slot, in_slot, slot_freed, Slotted};
use crate::infrastructure::writing::{
    lemma_long_read, lemma_short_read, lemma_signed_short_read, lies_at, long, short, signed_short,
};
use vstd::prelude::*;

verus! {

/// The slot is the lowest that is free.
pub open spec fn is_lowest(slots: Seq<bool>, k: int) -> bool {
    &&& 0 <= k <= slots.len()
    &&& forall|j: int| 0 <= j < k ==> #[trigger] slots[j]
    &&& k < slots.len() ==> !slots[k]
}

/// The record puts an object in the slot and does nothing else: selected by that
/// number it is put to use, any other is what it was, and once it is deleted
/// its number stands for none and the slot is free.
pub open spec fn takes(s: Slotted, d: Slotted, k: int, o: Object) -> bool {
    &&& d.canvas.state == s.canvas.state
    &&& d.canvas.page == s.canvas.page
    &&& d.canvas.order == s.canvas.order
    &&& d.canvas.saved_states == s.canvas.saved_states
    &&& k < d.slots.len()
    &&& d.slots[k]
    &&& forall|j: int| 0 <= j < s.slots.len() && j != k ==> #[trigger] d.slots[j] == s.slots[j]
    &&& forall|r: Seq<u8>| #[trigger]
        lies_at(r, 6, short(k as nat)) ==> after_record(d, 0x012D, r).canvas.state == put_to_use(
            s.canvas.state,
            o,
        ) && after_record(after_record(d, 0x01F0, r), 0x012D, r).canvas.state == s.canvas.state && !after_record(
            d,
            0x01F0,
            r,
        ).slots[k]
    &&& forall|r: Seq<u8>, other: nat|
        other < 0x1_0000 && other != k && #[trigger] lies_at(r, 6, short(other)) ==> after_record(
            d,
            0x012D,
            r,
        ).canvas.state == after_record(s, 0x012D, r).canvas.state
}

proof fn lemma_slot_selected(s: Slotted, r: Seq<u8>, k: nat)
    requires
        k < 0x1_0000,
        lies_at(r, 6, short(k)),
    ensures
        after_record(s, 0x012D, r) == (Slotted { canvas: s.canvas.selecting(k as u32), ..s }),
        after_record(s, 0x01F0, r) == slot_freed(s, k as u16),
{
    reveal(after_record);
    lemma_short_read(r, 6, k);
    assert(wmf::state_record(s.canvas, 0x012D, r) is None);
    assert(wmf::state_record(s.canvas, 0x01F0, r) is None);
}

proof fn lemma_lowest(slots: Seq<bool>, from: int, k: int)
    requires
        is_lowest(slots, k),
        0 <= from <= k,
    ensures
        free_slot(slots, from) == k,
    decreases k - from,
{
    if from < k {
        assert(slots[from]);
        lemma_lowest(slots, from + 1, k);
    }
}

proof fn lemma_takes(s: Slotted, k: int, o: Object)
    requires
        is_lowest(s.slots, k),
        k < 0x1_0000,
    ensures
        takes(s, in_slot(s, o), k, o),
{
    lemma_lowest(s.slots, 0, k);
    let d = in_slot(s, o);
    assert forall|r: Seq<u8>| #[trigger] lies_at(r, 6, short(k as nat)) implies after_record(
        d,
        0x012D,
        r,
    ).canvas.state == put_to_use(s.canvas.state, o) && after_record(
        after_record(d, 0x01F0, r),
        0x012D,
        r,
    ).canvas.state == s.canvas.state && !after_record(d, 0x01F0, r).slots[k] by {
        lemma_slot_selected(d, r, k as nat);
        lemma_slot_selected(after_record(d, 0x01F0, r), r, k as nat);
    }
    assert forall|r: Seq<u8>, other: nat|
        other < 0x1_0000 && other != k && #[trigger] lies_at(r, 6, short(other)) implies after_record(
        d,
        0x012D,
        r,
    ).canvas.state == after_record(s, 0x012D, r).canvas.state by {
        lemma_slot_selected(d, r, other);
        lemma_slot_selected(s, r, other);
    }
}

/// A brush takes the lowest free slot, in the colour that was written; one of
/// the style 1 paints nothing.
pub proof fn law_brush_takes_slot(
    s: Slotted,
    r: Seq<u8>,
    k: int,
    style: nat,
    colour: (u8, u8, u8),
)
    requires
        is_lowest(s.slots, k),
        k < 0x1_0000,
        style < 0x1_0000,
        lies_at(r, 6, short(style)),
        lies_at(r, 8, long(colour_number(colour.0, colour.1, colour.2))),
    ensures
        takes(
            s,
            after_record(s, 0x02FC, r),
            k,
            Object::Brush(
                if style == 1 {
                    None
                } else {
                    Some(colour)
                },
            ),
        ),
{
    reveal(after_record);
    lemma_colour_number(colour.0, colour.1, colour.2);
    lemma_short_read(r, 6, style);
    lemma_long_read(r, 8, colour_number(colour.0, colour.1, colour.2));
    assert(wmf::state_record(s.canvas, 0x02FC, r) is None);
    let o = Object::Brush(
        if style == 1 {
            None
        } else {
            Some(colour)
        },
    );
    assert(after_record(s, 0x02FC, r) == in_slot(s, o));
    lemma_takes(s, k, o);
}

/// A pen takes the lowest free slot, of the width and the colour that were
/// written.
pub proof fn law_pen_takes_slot(
    s: Slotted,
    r: Seq<u8>,
    k: int,
    style: nat,
    width: int,
    colour: (u8, u8, u8),
)
    requires
        is_lowest(s.slots, k),
        k < 0x1_0000,
        style < 0x1_0000,
        -0x8000 <= width < 0x8000,
        lies_at(r, 6, short(style)),
        lies_at(r, 8, signed_short(width)),
        lies_at(r, 12, long(colour_number(colour.0, colour.1, colour.2))),
    ensures
        takes(s, after_record(s, 0x02FA, r), k, pen_meant(s.canvas.state, style, width, colour)),
{
    reveal(after_record);
    lemma_colour_number(colour.0, colour.1, colour.2);
    lemma_short_read(r, 6, style);
    lemma_signed_short_read(r, 8, width);
    lemma_long_read(r, 12, colour_number(colour.0, colour.1, colour.2));
    assert(wmf::state_record(s.canvas, 0x02FA, r) is None);
    let o = pen_meant(s.canvas.state, style, width, colour);
    assert(after_record(s, 0x02FA, r) == in_slot(s, o));
    lemma_takes(s, k, o);
}

/// A font takes the lowest free slot, of the height, the slope and the weight
/// that were written, and underlined where that was.
pub proof fn law_font_takes_slot(
    s: Slotted,
    r: Seq<u8>,
    k: int,
    height: int,
    escapement: int,
    weight: int,
    italic: u8,
    underline: u8,
)
    requires
        is_lowest(s.slots, k),
        k < 0x1_0000,
        -0x8000 <= height < 0x8000,
        -0x8000 <= escapement < 0x8000,
        -0x8000 <= weight < 0x8000,
        lies_at(r, 6, signed_short(height)),
        lies_at(r, 10, signed_short(escapement)),
        lies_at(r, 14, signed_short(weight)),
        lies_at(r, 16, seq![italic, underline]),
    ensures
        takes(
            s,
            after_record(s, 0x02FB, r),
            k,
            Object::Font(
                Font {
                    height: height as i32,
                    escapement: escapement as i32,
                    weight: weight as i32,
                    underline: underline != 0,
                    kind: FontKind::Japanese,
                },
            ),
        ),
{
    reveal(after_record);
    lemma_signed_short_read(r, 6, height);
    lemma_signed_short_read(r, 10, escapement);
    lemma_signed_short_read(r, 14, weight);
    let pair = seq![italic, underline];
    assert(r[16int + 1] == pair[1]);
    assert(wmf::state_record(s.canvas, 0x02FB, r) is None);
    let o = Object::Font(
        Font {
            height: height as i32,
            escapement: escapement as i32,
            weight: weight as i32,
            underline: underline != 0,
            kind: FontKind::Japanese,
        },
    );
    assert(after_record(s, 0x02FB, r) == in_slot(s, o));
    lemma_takes(s, k, o);
}

} // verus!
