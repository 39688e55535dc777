//! The pixels of a bitmap come back, in each of the ways to write them.
use crate::domain::rendering::row_octets;
use crate::infrastructure::dib::{
    bitmap_of, bitmap_rows, channel_of, direct_colour, direct_pixels, direct_row, expand_from,
    expanded, header_of, indexed_row, low_zeros, masks_of, ones, packed_row, palette_of, put_each,
    put_index, put_same, rows_present, run_index, stored_row, stored_stride, Header,
};
use crate::infrastructure::octets::{lemma_stacked_len, stacked, u16_of, zeros};
use crate::infrastructure::writing::{
    lemma_lies_apart, lemma_long_read, lemma_short_read, lemma_signed_long_read, lies_at, long,
    short, signed_long,
};
use vstd::prelude::*;

verus! {

/// How a bitmap is described: its size, where a height below zero stands for
/// rows from the top down, its depth, how it is written, and its colours.
pub struct Described {
    pub width: nat,
    pub height: int,
    pub planes: Seq<u8>,
    pub depth: nat,
    pub coding: nat,
    pub measures: Seq<u8>,
    pub used: nat,
    pub important: Seq<u8>,
}

pub open spec fn is_described(d: Described) -> bool {
    &&& 0 < d.width < 0x8000_0000
    &&& -0x8000_0000 < d.height < 0x8000_0000
    &&& d.height != 0
    &&& d.width * tall(d) <= 67_108_864
    &&& d.planes.len() == 2
    &&& d.measures.len() == 12
    &&& d.important.len() == 4
    &&& d.used < 0x1_0000_0000
    &&& d.depth < 0x1_0000
    &&& d.coding < 0x1_0000_0000
}

/// How many rows there are.
pub open spec fn tall(d: Described) -> int {
    if d.height < 0 {
        -d.height
    } else {
        d.height
    }
}

/// Which row of those that are written is shown at `y` from the top.
pub open spec fn written_row(d: Described, y: int) -> int {
    if d.height < 0 {
        y
    } else {
        d.height - 1 - y
    }
}

#[verifier::opaque]
pub open spec fn description(d: Described) -> Seq<u8> {
    long(40) + (long(d.width) + (signed_long(d.height) + (d.planes + (short(d.depth) + (long(
        d.coding,
    ) + (d.measures + (long(d.used) + d.important)))))))
}

/// A row takes whole groups of four octets, as few as hold it.
pub open spec fn is_row_length(d: Described, stride: int) -> bool {
    stride % 4 == 0 && d.width * d.depth <= 8 * stride < d.width * d.depth + 32
}

/// The header says what was described.
spec fn agrees(h: Header, d: Described) -> bool {
    &&& h.width == d.width
    &&& h.height == tall(d)
    &&& h.bottom_up == (d.height > 0)
    &&& h.bits == d.depth
    &&& h.compression == d.coding
    &&& h.palette_at == 40
    &&& h.width * h.height <= 67_108_864
}

proof fn lemma_description(info: Seq<u8>, d: Described)
    requires
        is_described(d),
        crate::infrastructure::dib::known_depth(d.depth as int),
        lies_at(info, 0, description(d)),
    ensures
        header_of(info) matches Some(h) && agrees(h, d),
        d.depth <= 8 && d.used == 0 ==> header_of(info)->0.palette_entries == (if d.depth == 1 {
            2int
        } else if d.depth == 4 {
            16
        } else {
            256
        }),
        d.depth == 1 && 0 < d.used <= 2 || d.depth == 4 && 0 < d.used <= 16 || d.depth == 8 && 0
            < d.used <= 256 ==> header_of(info)->0.palette_entries == d.used,
{
    reveal(description);
    let g = long(d.used) + d.important;
    let f = d.measures + g;
    let e = long(d.coding) + f;
    let c = short(d.depth) + e;
    let b = d.planes + c;
    let a = signed_long(d.height) + b;
    let z = long(d.width) + a;
    lemma_lies_apart(info, 0, long(40), z);
    lemma_lies_apart(info, 4, long(d.width), a);
    lemma_lies_apart(info, 8, signed_long(d.height), b);
    lemma_lies_apart(info, 12, d.planes, c);
    lemma_lies_apart(info, 14, short(d.depth), e);
    lemma_lies_apart(info, 16, long(d.coding), f);
    lemma_lies_apart(info, 20, d.measures, g);
    lemma_lies_apart(info, 32, long(d.used), d.important);
    lemma_long_read(info, 0, 40);
    lemma_long_read(info, 4, d.width);
    lemma_signed_long_read(info, 8, d.height);
    lemma_short_read(info, 14, d.depth);
    lemma_long_read(info, 16, d.coding);
    lemma_long_read(info, 32, d.used);
    assert(tall(d) as u32 * d.width as u32 <= 67_108_864) by (nonlinear_arith)
        requires
            d.width * tall(d) <= 67_108_864,
            d.width as u32 == d.width,
            tall(d) as u32 == tall(d),
    ;
}

/// The octet at `k` of a row, where rows take `wide` octets each.
pub open spec fn in_row(s: Seq<u8>, wide: int, row: int, k: int) -> u8 {
    s[row * wide + k]
}

/// The rows of a stack lie one behind the other.
proof fn lemma_stacked_at(row: spec_fn(int) -> Seq<u8>, n: nat, stride: nat, y: int, k: int)
    requires
        forall|i: int| 0 <= i < n ==> (#[trigger] row(i)).len() == stride,
        0 <= y < n,
        0 <= k < stride,
    ensures
        0 <= y * stride + k < stacked(row, n).len(),
        stacked(row, n)[y * stride + k] == row(y)[k],
    decreases n,
{
    let m = (n - 1) as nat;
    lemma_stacked_len(row, n, stride);
    lemma_stacked_len(row, m, stride);
    assert(y * stride + k < (y + 1) * stride) by (nonlinear_arith)
        requires
            k < stride,
    ;
    assert((y + 1) * stride <= n * stride) by (nonlinear_arith)
        requires
            y + 1 <= n,
            0 <= stride,
    ;
    assert(0 <= y * stride) by (nonlinear_arith)
        requires
            0 <= y,
            0 <= stride,
    ;
    if y < m {
        assert((y + 1) * stride <= m * stride) by (nonlinear_arith)
            requires
                y + 1 <= m,
                0 <= stride,
        ;
        lemma_stacked_at(row, m, stride, y, k);
    }
}

/// Every row is there where as many octets are as all take.
proof fn lemma_rows_there(h: Header, d: Described, data: Seq<u8>, stride: int, y: int)
    requires
        is_described(d),
        agrees(h, d),
        is_row_length(d, stride),
        tall(d) * stride <= data.len(),
        0 <= y < tall(d),
    ensures
        stored_stride(h) == stride,
        stored_row(h, y) == written_row(d, y),
        forall|used: int|
            used <= stride ==> #[trigger] rows_present(h, used, data.len() as int, y),
{
    assert(h.width * h.bits == d.width * d.depth) by (nonlinear_arith)
        requires
            h.width == d.width,
            h.bits == d.depth,
    ;
    assert forall|used: int| used <= stride implies #[trigger] rows_present(
        h,
        used,
        data.len() as int,
        y,
    ) by {
        assert forall|k: int| 0 <= k <= y implies #[trigger] stored_row(h, k) * stored_stride(h)
            + used <= data.len() by {
            let r = stored_row(h, k);
            assert(stored_stride(h) == stride);
            assert(r * stride + stride <= tall(d) * stride) by (nonlinear_arith)
                requires
                    r + 1 <= tall(d),
                    0 <= stride,
            ;
        }
    }
}

// -------------------------------------------------------------- colours

proof fn lemma_direct_pixel(
    h: Header,
    masks: Option<(u32, u32, u32)>,
    data: Seq<u8>,
    at: int,
    n: nat,
    x: int,
)
    requires
        0 <= x < n,
    ensures
        ({
            let c = direct_colour(h.bits as int, masks, data, at + x * (h.bits / 8));
            let r = direct_pixels(h, masks, data, at, n);
            r[3 * x] == c.0 && r[3 * x + 1] == c.1 && r[3 * x + 2] == c.2
        }),
        direct_pixels(h, masks, data, at, n).len() == 3 * n,
    decreases n,
{
    let m = (n - 1) as nat;
    if x < m {
        lemma_direct_pixel(h, masks, data, at, m, x);
    } else {
        lemma_direct_len(h, masks, data, at, m);
    }
}

proof fn lemma_direct_len(
    h: Header,
    masks: Option<(u32, u32, u32)>,
    data: Seq<u8>,
    at: int,
    n: nat,
)
    ensures
        direct_pixels(h, masks, data, at, n).len() == 3 * n,
    decreases n,
{
    if n > 0 {
        lemma_direct_len(h, masks, data, at, (n - 1) as nat);
    }
}

/// A colour of five bits a part in eight: the upper three are repeated.
pub open spec fn spread(v: nat) -> nat {
    8 * v + v / 4
}

/// How the colour of a pixel is written: blue first, then green, then red, an
/// octet each; with 16 bits, five bits each, blue in the lowest.
pub open spec fn colour_octets(depth: nat, c: (nat, nat, nat)) -> Seq<u8> {
    if depth == 16 {
        short(1024 * c.0 + 32 * c.1 + c.2)
    } else {
        seq![c.2 as u8, c.1 as u8, c.0 as u8]
    }
}

/// How it is shown.
pub open spec fn shown_colour(depth: nat, c: (nat, nat, nat)) -> Seq<u8> {
    if depth == 16 {
        seq![spread(c.0) as u8, spread(c.1) as u8, spread(c.2) as u8]
    } else {
        seq![c.0 as u8, c.1 as u8, c.2 as u8]
    }
}

pub open spec fn is_colour(depth: nat, c: (nat, nat, nat)) -> bool {
    let limit = if depth == 16 {
        32nat
    } else {
        256
    };
    c.0 < limit && c.1 < limit && c.2 < limit
}

proof fn lemma_five_bits(v: u32, r: u32, g: u32, b: u32)
    requires
        r < 32,
        g < 32,
        b < 32,
        v == 1024 * r + 32 * g + b,
    ensures
        channel_of(v, 0x7C00) == spread(r as nat),
        channel_of(v, 0x03E0) == spread(g as nat),
        channel_of(v, 0x001F) == spread(b as nat),
{
    reveal_with_fuel(low_zeros, 12);
    reveal_with_fuel(ones, 7);
    assert(low_zeros(0x7C00) == 10);
    assert(low_zeros(0x03E0) == 5);
    assert(low_zeros(0x001F) == 0);
    assert(0x7C00u32 >> 10u32 == 31 && 0x03E0u32 >> 5u32 == 31 && 0x001Fu32 >> 0u32 == 31)
        by (bit_vector);
    assert(ones(31) == 5);
    assert((v & 0x7C00) >> 10u32 == r && (v & 0x03E0) >> 5u32 == g && (v & 0x001F) >> 0u32 == b)
        by (bit_vector)
        requires
            r < 32,
            g < 32,
            b < 32,
            v == 1024 * r + 32 * g + b,
    ;
    lemma_five_wide(r);
    lemma_five_wide(g);
    lemma_five_wide(b);
}

proof fn lemma_five_wide(c: u32)
    requires
        c < 32,
    ensures
        ((c << 3u32) | (c >> 2u32)) as u8 == spread(c as nat),
{
    assert(((c << 3u32) | (c >> 2u32)) == 8 * c + c / 4) by (bit_vector)
        requires
            c < 32,
    ;
}

proof fn lemma_colour(data: Seq<u8>, at: int, depth: nat, c: (nat, nat, nat))
    requires
        depth == 16 || depth == 24 || depth == 32,
        is_colour(depth, c),
        lies_at(data, at, colour_octets(depth, c)),
    ensures
        ({
            let s = shown_colour(depth, c);
            direct_colour(depth as int, None, data, at) == (s[0], s[1], s[2])
        }),
{
    let o = colour_octets(depth, c);
    if depth == 16 {
        let v = (1024 * c.0 + 32 * c.1 + c.2) as u32;
        lemma_short_read(data, at, v as nat);
        assert(u16_of(data, at) == Some(v as u16));
        assert((data[at] + 0x100 * data[at + 1]) as u32 == v);
        lemma_five_bits(v, c.0 as u32, c.1 as u32, c.2 as u32);
    } else {
        assert(data[at + 0] == o[0] && data[at + 1] == o[1] && data[at + 2] == o[2]);
    }
}

/// The colours of the pixels come back, whichever way the rows run.
pub proof fn law_colours_come_back(
    info: Seq<u8>,
    data: Seq<u8>,
    d: Described,
    stride: int,
    colour: spec_fn(int, int) -> (nat, nat, nat),
)
    requires
        is_described(d),
        d.coding == 0,
        d.depth == 16 || d.depth == 24 || d.depth == 32,
        lies_at(info, 0, description(d)),
        is_row_length(d, stride),
        tall(d) * stride <= data.len(),
        forall|x: int, y: int|
            0 <= x < d.width && 0 <= y < tall(d) ==> is_colour(d.depth, #[trigger] colour(x, y))
                && lies_at(
                data,
                written_row(d, y) * stride + x * (d.depth / 8),
                colour_octets(d.depth, colour(x, y)),
            ),
    ensures
        ({
            let m = bitmap_of(info, data);
            &&& m is Some
            &&& m->0.width == d.width
            &&& m->0.height == tall(d)
            &&& m->0.bits == 24
            &&& m->0.palette.len() == 0
            &&& m->0.stencil is None
            &&& forall|x: int, y: int|
                0 <= x < d.width && 0 <= y < tall(d) ==> lies_at(
                    m->0.rows,
                    y * (3 * d.width) + 3 * x,
                    shown_colour(d.depth, #[trigger] colour(x, y)),
                )
        }),
{
    lemma_description(info, d);
    lemma_colours(header_of(info)->0, info, data, d, stride, colour);
}

proof fn lemma_colours(
    h: Header,
    info: Seq<u8>,
    data: Seq<u8>,
    d: Described,
    stride: int,
    colour: spec_fn(int, int) -> (nat, nat, nat),
)
    requires
        is_described(d),
        agrees(h, d),
        d.coding == 0,
        d.depth == 16 || d.depth == 24 || d.depth == 32,
        is_row_length(d, stride),
        tall(d) * stride <= data.len(),
        forall|x: int, y: int|
            0 <= x < d.width && 0 <= y < tall(d) ==> is_colour(d.depth, #[trigger] colour(x, y))
                && lies_at(
                data,
                written_row(d, y) * stride + x * (d.depth / 8),
                colour_octets(d.depth, colour(x, y)),
            ),
    ensures
        ({
            let m = bitmap_rows(h, info, data);
            &&& m is Some
            &&& (m->0).0 == 24
            &&& forall|x: int, y: int|
                0 <= x < d.width && 0 <= y < tall(d) ==> lies_at(
                    (m->0).1,
                    y * (3 * d.width) + 3 * x,
                    shown_colour(d.depth, #[trigger] colour(x, y)),
                )
        }),
{
    let row = |y: int| direct_row(h, masks_of(h, info), data, y);
    let n = tall(d) as nat;
    let wide = (3 * d.width) as nat;
    assert(h.bits / 8 == d.depth / 8);
    assert(d.width * (d.depth / 8) <= stride) by (nonlinear_arith)
        requires
            d.depth == 16 || d.depth == 24 || d.depth == 32,
            d.width * d.depth <= 8 * stride,
    ;
    assert forall|y: int| 0 <= y < n implies (#[trigger] row(y)).len() == wide && row(y)
        == direct_pixels(h, None, data, written_row(d, y) * stride, d.width) by {
        lemma_rows_there(h, d, data, stride, y);
        assert(h.width * (h.bits / 8) == d.width * (d.depth / 8)) by (nonlinear_arith)
            requires
                h.width == d.width,
                h.bits / 8 == d.depth / 8,
        ;
        assert(rows_present(h, h.width * (h.bits / 8), data.len() as int, y));
        lemma_direct_len(h, None, data, written_row(d, y) * stride, d.width);
    }
    let rows = stacked(row, n);
    assert forall|x: int, y: int| 0 <= x < d.width && 0 <= y < tall(d) implies lies_at(
        rows,
        y * (3 * d.width) + 3 * x,
        shown_colour(d.depth, #[trigger] colour(x, y)),
    ) by {
        let c = colour(x, y);
        let at = written_row(d, y) * stride;
        assert(row(y).len() == wide);
        lemma_direct_pixel(h, None, data, at, d.width, x);
        lemma_colour(data, at + x * (d.depth / 8), d.depth, c);
        lemma_stacked_at(row, n, wide, y, 3 * x);
        lemma_stacked_at(row, n, wide, y, 3 * x + 1);
        lemma_stacked_at(row, n, wide, y, 3 * x + 2);
        let s = shown_colour(d.depth, c);
        assert(rows[y * wide + 3 * x] == s[0]);
        assert(rows[y * wide + 3 * x + 1] == s[1]);
        assert(rows[y * wide + 3 * x + 2] == s[2]);
    }
}

// -------------------------------------------------------------- palettes

/// How many colours an index of so many bits can choose from.
pub open spec fn choices(depth: nat) -> int {
    if depth == 1 {
        2
    } else if depth == 4 {
        16
    } else {
        256
    }
}

/// The colours of the table stand blue first, and an octet that says nothing.
pub open spec fn has_palette(info: Seq<u8>, colours: Seq<(u8, u8, u8)>) -> bool {
    forall|i: int|
        0 <= i < colours.len() ==> lies_at(
            info,
            40 + 4 * i,
            seq![(#[trigger] colours[i]).2, colours[i].1, colours[i].0],
        ) && 44 + 4 * i <= info.len()
}

proof fn lemma_palette(info: Seq<u8>, d: Described, colours: Seq<(u8, u8, u8)>)
    requires
        is_described(d),
        d.depth == 1 || d.depth == 4 || d.depth == 8,
        lies_at(info, 0, description(d)),
        has_palette(info, colours),
        colours.len() == choices(d.depth) && d.used == 0 || 0 < colours.len() == d.used <= choices(
            d.depth,
        ),
    ensures
        palette_of(header_of(info)->0, info) == Seq::new(
            choices(d.depth) as nat,
            |i: int|
                if i < colours.len() {
                    colours[i]
                } else {
                    (0u8, 0u8, 0u8)
                },
        ),
{
    lemma_description(info, d);
    let h = header_of(info)->0;
    let p = palette_of(h, info);
    assert(h.palette_entries == colours.len());
    assert forall|i: int| 0 <= i < choices(d.depth) implies #[trigger] p[i] == (if i
        < colours.len() {
        colours[i]
    } else {
        (0u8, 0u8, 0u8)
    }) by {
        if i < colours.len() {
            let c = colours[i];
            let o = seq![c.2, c.1, c.0];
            assert(lies_at(info, 40 + 4 * i, o));
            assert(info[40 + 4 * i + 0] == o[0] && info[40 + 4 * i + 1] == o[1] && info[40 + 4 * i
                + 2] == o[2]);
        }
    }
    assert(p =~= Seq::new(
        choices(d.depth) as nat,
        |i: int|
            if i < colours.len() {
                colours[i]
            } else {
                (0u8, 0u8, 0u8)
            },
    ));
}

/// The indices of the pixels come back octet for octet, whichever way the rows
/// run, with the colours they choose from.
pub proof fn law_indices_come_back(
    info: Seq<u8>,
    data: Seq<u8>,
    d: Described,
    stride: int,
    colours: Seq<(u8, u8, u8)>,
    used: int,
)
    requires
        is_described(d),
        d.coding == 0,
        d.depth == 1 || d.depth == 4 || d.depth == 8,
        lies_at(info, 0, description(d)),
        has_palette(info, colours),
        colours.len() == choices(d.depth) && d.used == 0 || 0 < colours.len() == d.used <= choices(
            d.depth,
        ),
        is_row_length(d, stride),
        tall(d) * stride <= data.len(),
        d.width * d.depth <= 8 * used < d.width * d.depth + 8,
    ensures
        ({
            let m = bitmap_of(info, data);
            &&& m is Some
            &&& m->0.width == d.width
            &&& m->0.height == tall(d)
            &&& m->0.bits == d.depth
            &&& m->0.palette == Seq::new(
                choices(d.depth) as nat,
                |i: int|
                    if i < colours.len() {
                        colours[i]
                    } else {
                        (0u8, 0u8, 0u8)
                    },
            )
            &&& m->0.stencil is None
            &&& m->0.rows.len() == tall(d) * used
            &&& forall|y: int, k: int|
                0 <= y < tall(d) && 0 <= k < used ==> #[trigger] in_row(
                    data,
                    stride,
                    written_row(d, y),
                    k,
                ) == in_row(m->0.rows, used, y, k)
        }),
{
    lemma_description(info, d);
    lemma_palette(info, d, colours);
    lemma_indices(header_of(info)->0, info, data, d, stride, used);
}

proof fn lemma_indices(
    h: Header,
    info: Seq<u8>,
    data: Seq<u8>,
    d: Described,
    stride: int,
    used: int,
)
    requires
        is_described(d),
        agrees(h, d),
        d.coding == 0,
        d.depth == 1 || d.depth == 4 || d.depth == 8,
        is_row_length(d, stride),
        tall(d) * stride <= data.len(),
        d.width * d.depth <= 8 * used < d.width * d.depth + 8,
    ensures
        ({
            let m = bitmap_rows(h, info, data);
            &&& m is Some
            &&& (m->0).0 == d.depth
            &&& (m->0).1.len() == tall(d) * used
            &&& forall|y: int, k: int|
                0 <= y < tall(d) && 0 <= k < used ==> #[trigger] in_row(
                    data,
                    stride,
                    written_row(d, y),
                    k,
                ) == in_row((m->0).1, used, y, k)
        }),
{
    assert(h.width * h.bits == d.width * d.depth) by (nonlinear_arith)
        requires
            h.width == d.width,
            h.bits == d.depth,
    ;
    let row = |y: int| indexed_row(h, data, y);
    let n = tall(d) as nat;
    assert(row_octets(h.width as int, h.bits as int) == used);
    assert(used <= stride);
    assert forall|y: int| 0 <= y < n implies (#[trigger] row(y)).len() == used && row(y)
        == data.subrange(written_row(d, y) * stride, written_row(d, y) * stride + used) && 0
        <= written_row(d, y) * stride <= data.len() - used by {
        lemma_rows_there(h, d, data, stride, y);
        assert(rows_present(h, used, data.len() as int, y));
        assert(0 <= written_row(d, y) * stride) by (nonlinear_arith)
            requires
                0 <= written_row(d, y),
                0 <= stride,
        ;
        assert(stored_row(h, y) * stored_stride(h) + used <= data.len());
    }
    let rows = stacked(row, n);
    lemma_stacked_len(row, n, used as nat);
    assert forall|y: int, k: int| 0 <= y < tall(d) && 0 <= k < used implies #[trigger] in_row(
        data,
        stride,
        written_row(d, y),
        k,
    ) == in_row(rows, used, y, k) by {
        lemma_stacked_at(row, n, used as nat, y, k);
        assert(row(y).len() == used);
        assert(row(y)[k] == data[written_row(d, y) * stride + k]);
    }
}

// ------------------------------------------------------------------- runs

/// A run of pixels: one octet over and over, octets as they come, or pixels
/// left as they are.
pub enum Run {
    Same(nat, u8),
    Each(Seq<u8>),
    Skip(nat),
}

/// The indices of the run.
pub open spec fn indices_of(r: Run, half: bool) -> Seq<u8> {
    match r {
        Run::Same(n, v) => Seq::new(
            n,
            |k: int|
                if !half {
                    v
                } else if k % 2 == 0 {
                    v / 16
                } else {
                    v % 16
                },
        ),
        Run::Each(s) => s,
        Run::Skip(n) => zeros(n as int),
    }
}

pub open spec fn is_run(r: Run, half: bool) -> bool {
    match r {
        Run::Same(n, _) => 1 <= n <= 255,
        Run::Each(s) => 3 <= s.len() <= 255 && (half ==> forall|i: int|
            0 <= i < s.len() ==> #[trigger] s[i] < 16),
        Run::Skip(n) => n <= 255,
    }
}

/// Indices in octets: one each, or two, the first in the upper half.
pub open spec fn packed(s: Seq<u8>, half: bool) -> Seq<u8> {
    if half {
        Seq::new(
            ((s.len() + 1) / 2) as nat,
            |k: int|
                (16 * s[2 * k] + (if 2 * k + 1 < s.len() {
                    s[2 * k + 1] as int
                } else {
                    0
                })) as u8,
        )
    } else {
        s
    }
}

/// One octet more where their number is odd.
pub open spec fn evened(s: Seq<u8>) -> Seq<u8> {
    if s.len() % 2 == 1 {
        s.push(0)
    } else {
        s
    }
}

pub open spec fn run_code(r: Run, half: bool) -> Seq<u8> {
    match r {
        Run::Same(n, v) => seq![n as u8, v],
        Run::Each(s) => seq![0u8, s.len() as u8] + evened(packed(s, half)),
        Run::Skip(n) => seq![0u8, 2u8, n as u8, 0u8],
    }
}

pub open spec fn row_code(runs: Seq<Run>, half: bool) -> Seq<u8>
    decreases runs.len(),
{
    if runs.len() == 0 {
        Seq::empty()
    } else {
        run_code(runs[0], half) + row_code(runs.drop_first(), half)
    }
}

pub open spec fn row_indices(runs: Seq<Run>, half: bool) -> Seq<u8>
    decreases runs.len(),
{
    if runs.len() == 0 {
        Seq::empty()
    } else {
        indices_of(runs[0], half) + row_indices(runs.drop_first(), half)
    }
}

/// The rows, each with its end: 0 and 0, or for the last 0 and 1.
pub open spec fn picture_code(rows: Seq<Seq<Run>>, half: bool) -> Seq<u8>
    decreases rows.len(),
{
    if rows.len() == 0 {
        Seq::empty()
    } else {
        row_code(rows[0], half) + (seq![
            0u8,
            if rows.len() == 1 {
                1u8
            } else {
                0u8
            },
        ] + picture_code(rows.drop_first(), half))
    }
}

pub open spec fn picture_indices(rows: Seq<Seq<Run>>, half: bool) -> Seq<u8>
    decreases rows.len(),
{
    if rows.len() == 0 {
        Seq::empty()
    } else {
        row_indices(rows[0], half) + picture_indices(rows.drop_first(), half)
    }
}

/// Every row is as long as the picture is wide.
pub open spec fn are_rows(rows: Seq<Seq<Run>>, width: nat, half: bool) -> bool {
    forall|y: int|
        0 <= y < rows.len() ==> row_indices(#[trigger] rows[y], half).len() == width && forall|
            k: int,
        |
            0 <= k < rows[y].len() ==> is_run(#[trigger] rows[y][k], half)
}

/// An index written where nothing is yet.
proof fn lemma_put(done: Seq<u8>, w: int, h: int, x: int, y: int, v: u8)
    requires
        0 <= x < w,
        0 <= y < h,
        done.len() == y * w + x,
    ensures
        y * w + x < w * h,
        put_index(done + zeros(w * h - done.len()), w, h, x, y, v) == done.push(v) + zeros(
            w * h - done.len() - 1,
        ),
{
    assert(y * w + x < w * h) by (nonlinear_arith)
        requires
            0 <= x < w,
            0 <= y < h,
    ;
    assert(put_index(done + zeros(w * h - done.len()), w, h, x, y, v) =~= done.push(v) + zeros(
        w * h - done.len() - 1,
    ));
}

proof fn lemma_put_same(
    done: Seq<u8>,
    w: int,
    h: int,
    x: int,
    y: int,
    half: bool,
    v: u8,
    n: nat,
)
    requires
        0 <= x,
        x + n <= w,
        0 <= y < h,
        done.len() == y * w + x,
    ensures
        ({
            let all = done + indices_of(Run::Same(n, v), half);
            put_same(done + zeros(w * h - done.len()), w, h, x, y, half, v, n) == all + zeros(
                w * h - all.len(),
            )
        }),
    decreases n,
{
    if n == 0 {
        assert(done + indices_of(Run::Same(n, v), half) =~= done);
    } else {
        let m = (n - 1) as nat;
        lemma_put_same(done, w, h, x, y, half, v, m);
        let less = done + indices_of(Run::Same(m, v), half);
        lemma_put(less, w, h, x + m, y, run_index(half, v, m as int));
        assert(less.push(run_index(half, v, m as int)) =~= done + indices_of(
            Run::Same(n, v),
            half,
        ));
    }
}

proof fn lemma_put_each(
    done: Seq<u8>,
    w: int,
    h: int,
    x: int,
    y: int,
    half: bool,
    src: Seq<u8>,
    i: int,
    s: Seq<u8>,
    n: nat,
)
    requires
        0 <= x,
        n <= s.len(),
        x + n <= w,
        0 <= y < h,
        done.len() == y * w + x,
        half ==> forall|k: int| 0 <= k < s.len() ==> #[trigger] s[k] < 16,
        lies_at(src, i, packed(s, half)),
    ensures
        ({
            let all = done + s.take(n as int);
            put_each(done + zeros(w * h - done.len()), w, h, x, y, half, src, i, n) == all + zeros(
                w * h - all.len(),
            )
        }),
    decreases n,
{
    if n == 0 {
        assert(done + s.take(0) =~= done);
    } else {
        let m = (n - 1) as nat;
        lemma_put_each(done, w, h, x, y, half, src, i, s, m);
        let less = done + s.take(m as int);
        let v = s[m as int];
        let k = if half {
            m as int / 2
        } else {
            m as int
        };
        let p = packed(s, half);
        assert(src[i + k] == p[k]);
        if half {
            assert(s[2 * k] < 16);
            if 2 * k + 1 < s.len() {
                assert(s[2 * k + 1] < 16);
            }
        }
        assert(run_index(half, src[i + k], m as int) == v);
        lemma_put(less, w, h, x + m, y, v);
        assert(less.push(v) =~= done + s.take(n as int));
    }
}

proof fn lemma_run(src: Seq<u8>, w: int, h: int, half: bool, i: int, x: int, y: int, done: Seq<
    u8,
>, r: Run)
    requires
        is_run(r, half),
        0 <= x,
        x + indices_of(r, half).len() <= w,
        0 <= y < h,
        done.len() == y * w + x,
        lies_at(src, i, run_code(r, half)),
        i + run_code(r, half).len() < src.len(),
    ensures
        ({
            let n = indices_of(r, half);
            let all = done + n;
            expand_from(src, w, h, half, i, x, y, done + zeros(w * h - done.len())) == expand_from(
                src,
                w,
                h,
                half,
                i + run_code(r, half).len(),
                x + n.len(),
                y,
                all + zeros(w * h - all.len()),
            )
        }),
{
    let c = run_code(r, half);
    let n = indices_of(r, half);
    assert(y * w + x + n.len() <= w * h) by (nonlinear_arith)
        requires
            x + n.len() <= w,
            0 <= y < h,
            0 <= w,
    ;
    match r {
        Run::Same(n, v) => {
            assert(src[i + 0] == c[0] && src[i + 1] == c[1]);
            lemma_put_same(done, w, h, x, y, half, v, n);
        },
        Run::Each(s) => {
            let head = seq![0u8, s.len() as u8];
            let p = packed(s, half);
            lemma_lies_apart(src, i, head, evened(p));
            assert(src[i + 0] == head[0] && src[i + 1] == head[1]);
            assert(lies_at(src, i + 2, p)) by {
                assert forall|k: int| 0 <= k < p.len() implies src[i + 2 + k] == #[trigger] p[k] by {
                    assert(evened(p)[k] == p[k]);
                }
            }
            lemma_put_each(done, w, h, x, y, half, src, i + 2, s, s.len());
            assert(s.take(s.len() as int) =~= s);
        },
        Run::Skip(n) => {
            assert(src[i + 0] == c[0] && src[i + 1] == c[1] && src[i + 2] == c[2] && src[i + 3]
                == c[3]);
            let all = done + zeros(n as int);
            assert(done + zeros(w * h - done.len()) =~= all + zeros(w * h - all.len()));
        },
    }
}

proof fn lemma_row(src: Seq<u8>, w: int, h: int, half: bool, i: int, x: int, y: int, done: Seq<
    u8,
>, runs: Seq<Run>)
    requires
        forall|k: int| 0 <= k < runs.len() ==> is_run(#[trigger] runs[k], half),
        0 <= x,
        x + row_indices(runs, half).len() <= w,
        0 <= y < h,
        done.len() == y * w + x,
        lies_at(src, i, row_code(runs, half)),
        i + row_code(runs, half).len() < src.len(),
    ensures
        ({
            let n = row_indices(runs, half);
            let all = done + n;
            expand_from(src, w, h, half, i, x, y, done + zeros(w * h - done.len())) == expand_from(
                src,
                w,
                h,
                half,
                i + row_code(runs, half).len(),
                x + n.len(),
                y,
                all + zeros(w * h - all.len()),
            )
        }),
    decreases runs.len(),
{
    if runs.len() == 0 {
        assert(done + row_indices(runs, half) =~= done);
    } else {
        let rest = runs.drop_first();
        let r = runs[0];
        assert(is_run(r, half));
        assert forall|k: int| 0 <= k < rest.len() implies is_run(#[trigger] rest[k], half) by {
            assert(rest[k] == runs[k + 1]);
        }
        let n = indices_of(r, half);
        lemma_lies_apart(src, i, run_code(r, half), row_code(rest, half));
        lemma_run(src, w, h, half, i, x, y, done, r);
        lemma_row(
            src,
            w,
            h,
            half,
            i + run_code(r, half).len(),
            x + n.len(),
            y,
            done + n,
            rest,
        );
        assert((done + n) + row_indices(rest, half) =~= done + row_indices(runs, half));
    }
}

proof fn lemma_picture(src: Seq<u8>, w: int, h: int, half: bool, i: int, y: int, done: Seq<
    u8,
>, rows: Seq<Seq<Run>>)
    requires
        0 < w,
        0 <= y,
        0 < rows.len(),
        y + rows.len() == h,
        are_rows(rows, w as nat, half),
        done.len() == y * w,
        lies_at(src, i, picture_code(rows, half)),
    ensures
        expand_from(src, w, h, half, i, 0, y, done + zeros(w * h - done.len())) == Some(
            done + picture_indices(rows, half),
        ),
        picture_indices(rows, half).len() == rows.len() * w,
    decreases rows.len(),
{
    let rest = rows.drop_first();
    let code = row_code(rows[0], half);
    let end = seq![
        0u8,
        if rows.len() == 1 {
            1u8
        } else {
            0u8
        },
    ];
    let one = row_indices(rows[0], half);
    assert(one.len() == w);
    lemma_lies_apart(src, i, code, end + picture_code(rest, half));
    lemma_lies_apart(src, i + code.len(), end, picture_code(rest, half));
    lemma_row(src, w, h, half, i, 0, y, done, rows[0]);
    let j = i + code.len();
    assert(src[j + 0] == end[0] && src[j + 1] == end[1]);
    let all = done + one;
    assert(all.len() == (y + 1) * w) by (nonlinear_arith)
        requires
            all.len() == done.len() + w,
            done.len() == y * w,
    ;
    assert(rows.len() * w == (rows.len() - 1) * w + w) by (nonlinear_arith);
    if rows.len() == 1 {
        assert(w * h == (y + 1) * w) by (nonlinear_arith)
            requires
                y + 1 == h,
        ;
        assert(picture_indices(rest, half) =~= Seq::<u8>::empty());
        assert(all + zeros(w * h - all.len()) =~= done + picture_indices(rows, half));
    } else {
        assert forall|k: int| 0 <= k < rest.len() implies row_indices(
            #[trigger] rest[k],
            half,
        ).len() == w && forall|m: int|
            0 <= m < rest[k].len() ==> is_run(#[trigger] rest[k][m], half) by {
            assert(rest[k] == rows[k + 1]);
        }
        lemma_picture(src, w, h, half, j + 2, y + 1, all, rest);
        assert(all + picture_indices(rest, half) =~= done + picture_indices(rows, half));
    }
}

/// The indices of a picture in runs come back: row behind row, as they were
/// written, and the pixels left out are of the first colour.
pub proof fn law_runs_come_back(src: Seq<u8>, width: nat, rows: Seq<Seq<Run>>, half: bool)
    requires
        0 < width,
        0 < rows.len(),
        are_rows(rows, width, half),
        lies_at(src, 0, picture_code(rows, half)),
    ensures
        expanded(src, width as int, rows.len() as int, half) == Some(picture_indices(rows, half)),
        picture_indices(rows, half).len() == rows.len() * width,
{
    let w = width as int;
    let h = rows.len() as int;
    let done = Seq::<u8>::empty();
    lemma_picture(src, w, h, half, 0, 0, done, rows);
    assert(done + zeros(w * h - done.len()) =~= zeros(w * h));
    assert(done + picture_indices(rows, half) =~= picture_indices(rows, half));
}

/// Two pixels next to each other in one octet.
pub open spec fn both(s: Seq<u8>, wide: int, row: int, k: int) -> int {
    16 * (in_row(s, wide, row, 2 * k) % 16) + (if 2 * k + 1 < wide {
        (in_row(s, wide, row, 2 * k + 1) % 16) as int
    } else {
        0
    })
}

/// The picture in runs is shown so: an octet a pixel, or two pixels in one, the
/// left one in the upper half, whichever way the rows run.
pub proof fn law_run_picture_comes_back(
    info: Seq<u8>,
    data: Seq<u8>,
    d: Described,
    rows: Seq<Seq<Run>>,
)
    requires
        is_described(d),
        d.depth == 8 && d.coding == 1 || d.depth == 4 && d.coding == 2,
        lies_at(info, 0, description(d)),
        rows.len() == tall(d),
        are_rows(rows, d.width, d.depth == 4),
        lies_at(data, 0, picture_code(rows, d.depth == 4)),
    ensures
        ({
            let m = bitmap_of(info, data);
            let all = picture_indices(rows, d.depth == 4);
            let wide = if d.depth == 4 {
                (d.width + 1) as int / 2
            } else {
                d.width as int
            };
            &&& m is Some
            &&& m->0.width == d.width
            &&& m->0.height == tall(d)
            &&& m->0.bits == d.depth
            &&& m->0.stencil is None
            &&& m->0.rows.len() == tall(d) * wide
            &&& d.depth == 8 ==> forall|x: int, y: int|
                0 <= x < wide && 0 <= y < tall(d) ==> in_row(m->0.rows, wide, y, x)
                    == #[trigger] in_row(all, d.width as int, written_row(d, y), x)
            &&& d.depth == 4 ==> forall|k: int, y: int|
                0 <= k < wide && 0 <= y < tall(d) ==> in_row(m->0.rows, wide, y, k)
                    == #[trigger] both(all, d.width as int, written_row(d, y), k)
        }),
{
    lemma_description(info, d);
    lemma_run_picture(header_of(info)->0, info, data, d, rows);
}

proof fn lemma_run_picture(
    h: Header,
    info: Seq<u8>,
    data: Seq<u8>,
    d: Described,
    rows: Seq<Seq<Run>>,
)
    requires
        is_described(d),
        agrees(h, d),
        d.depth == 8 && d.coding == 1 || d.depth == 4 && d.coding == 2,
        rows.len() == tall(d),
        are_rows(rows, d.width, d.depth == 4),
        lies_at(data, 0, picture_code(rows, d.depth == 4)),
    ensures
        ({
            let m = bitmap_rows(h, info, data);
            let all = picture_indices(rows, d.depth == 4);
            let wide = if d.depth == 4 {
                (d.width + 1) as int / 2
            } else {
                d.width as int
            };
            &&& m is Some
            &&& (m->0).0 == d.depth
            &&& (m->0).1.len() == tall(d) * wide
            &&& d.depth == 8 ==> forall|x: int, y: int|
                0 <= x < wide && 0 <= y < tall(d) ==> in_row((m->0).1, wide, y, x)
                    == #[trigger] in_row(all, d.width as int, written_row(d, y), x)
            &&& d.depth == 4 ==> forall|k: int, y: int|
                0 <= k < wide && 0 <= y < tall(d) ==> in_row((m->0).1, wide, y, k)
                    == #[trigger] both(all, d.width as int, written_row(d, y), k)
        }),
{
    let half = d.depth == 4;
    law_runs_come_back(data, d.width, rows, half);
    let all = picture_indices(rows, half);
    let row = |y: int| packed_row(h, all, y);
    let n = tall(d) as nat;
    let wide = if half {
        ((d.width + 1) / 2) as nat
    } else {
        d.width
    };
    assert(d.width * tall(d) == tall(d) * d.width) by (nonlinear_arith);
    assert forall|y: int| 0 <= y < n implies (#[trigger] row(y)).len() == wide by {
        assert(0 <= written_row(d, y) * d.width && written_row(d, y) * d.width + d.width <= tall(d)
            * d.width) by (nonlinear_arith)
            requires
                0 <= written_row(d, y) < tall(d),
                0 <= d.width,
        ;
    }
    let shown = stacked(row, n);
    lemma_stacked_len(row, n, wide);
    if half {
        assert forall|k: int, y: int| 0 <= k < wide && 0 <= y < tall(d) implies in_row(
            shown,
            wide as int,
            y,
            k,
        ) == #[trigger] both(all, d.width as int, written_row(d, y), k) by {
            assert(row(y).len() == wide);
            lemma_stacked_at(row, n, wide, y, k);
            assert(stored_row(h, y) == written_row(d, y));
        }
    } else {
        assert forall|x: int, y: int| 0 <= x < wide && 0 <= y < tall(d) implies in_row(
            shown,
            wide as int,
            y,
            x,
        ) == #[trigger] in_row(all, d.width as int, written_row(d, y), x) by {
            assert(row(y).len() == wide);
            lemma_stacked_at(row, n, wide, y, x);
            let at = written_row(d, y) * d.width;
            assert(stored_row(h, y) * h.width == at);
            assert(0 <= at && at + d.width <= tall(d) * d.width) by (nonlinear_arith)
                requires
                    at == written_row(d, y) * d.width,
                    0 <= written_row(d, y) < tall(d),
                    0 <= d.width,
            ;
            assert(row(y)[x] == all[at + x]);
        }
    }
}

} // verus!
