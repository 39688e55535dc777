//! Windows device-independent bitmaps, as metafiles carry them, turned into
//! the domain's packed raster.
//!
//! Handles the headers and pixel formats seen inside page metafiles:
//! `BITMAPINFOHEADER` with 1, 4, 8, 16, 24 or 32 bits per pixel, uncompressed
//! or run-length coded.
use crate::domain::rendering::{row_octets, Raster, RasterModel};
use crate::infrastructure::octets::{
    append, append_zeros, lemma_stacked_len, signed32, stacked, to_signed32, u16_at, u16_of,
    u32_at, u32_of, zeros,
};
use vstd::prelude::*;
use vstd::slice::slice_subrange;

verus! {

pub const BI_RGB: u32 = 0;

pub const BI_RLE8: u32 = 1;

pub const BI_RLE4: u32 = 2;

pub const BI_BITFIELDS: u32 = 3;

/// The largest bitmap this will expand, in pixels. A page at 600 dpi is about
/// 35 million; anything past that is a corrupt header, not a picture.
pub const MAX_PIXELS: u64 = 67_108_864;

/// The fields of a bitmap header that are used.
#[derive(Debug, Clone, Copy, PartialEq, Eq, Structural)]
pub struct Header {
    pub width: u32,
    pub height: u32,
    /// Rows run bottom to top, the usual way.
    pub bottom_up: bool,
    pub bits: u16,
    pub compression: u32,
    /// Offset of the colour table from the start of the header.
    pub palette_at: usize,
    pub palette_entries: usize,
    /// Octets the header and colour table take together.
    pub info_len: usize,
}

/// A depth that is read.
pub open spec fn known_depth(bits: int) -> bool {
    bits == 1 || bits == 4 || bits == 8 || bits == 16 || bits == 24 || bits == 32
}

/// How many colours an index of so many bits can name.
pub open spec fn colours_of(bits: int) -> int {
    if bits == 1 {
        2
    } else if bits == 4 {
        16
    } else {
        256
    }
}

/// How many entries the table after the header has.
pub open spec fn table_entries(bits: int, compression: int, size: int, used: int) -> int {
    if bits <= 8 {
        if used == 0 || used > colours_of(bits) {
            colours_of(bits)
        } else {
            used
        }
    } else if compression == BI_BITFIELDS && size == 40 {
        3
    } else {
        0
    }
}

/// The header that `info` starts with.
pub open spec fn header_of(info: Seq<u8>) -> Option<Header> {
    match (
        u32_of(info, 0),
        u32_of(info, 4),
        u32_of(info, 8),
        u16_of(info, 14),
        u32_of(info, 16),
        u32_of(info, 32),
    ) {
        (Some(size), Some(w), Some(h), Some(bits), Some(compression), Some(used)) => {
            let width = signed32(w);
            let height = signed32(h);
            if !(40 <= size <= 256) || width <= 0 || height == 0 || !known_depth(bits as int) {
                None
            } else {
                let entries = table_entries(
                    bits as int,
                    compression as int,
                    size as int,
                    used as int,
                );
                Some(
                    Header {
                        width: width as u32,
                        height: (if height < 0 {
                            -height
                        } else {
                            height as int
                        }) as u32,
                        bottom_up: height > 0,
                        bits,
                        compression,
                        palette_at: size as usize,
                        palette_entries: entries as usize,
                        info_len: (size + entries * 4) as usize,
                    },
                )
            }
        },
        _ => None,
    }
}

/// Read a `BITMAPINFOHEADER` (or a later version of it).
pub fn header(info: &[u8]) -> (r: Option<Header>)
    ensures
        r == header_of(info@),
        r matches Some(h) ==> 40 <= h.palette_at <= 256 && h.palette_entries <= 256 && 0 < h.width
            && 0 < h.height <= 0x8000_0000 && known_depth(h.bits as int),
{
    let (size, w, h, bits, compression, used) = match (
        u32_at(info, 0),
        u32_at(info, 4),
        u32_at(info, 8),
        u16_at(info, 14),
        u32_at(info, 16),
        u32_at(info, 32),
    ) {
        (Some(a), Some(b), Some(c), Some(d), Some(e), Some(f)) => (a, b, c, d, e, f),
        _ => {
            return None;
        },
    };
    let width: i32 = to_signed32(w);
    let height: i32 = to_signed32(h);
    if size < 40 || size > 256 || width <= 0 || height == 0 {
        return None;
    }
    if bits != 1 && bits != 4 && bits != 8 && bits != 16 && bits != 24 && bits != 32 {
        return None;
    }
    let entries: u32 = if bits <= 8 {
        let max: u32 = if bits == 1 {
            2
        } else if bits == 4 {
            16
        } else {
            256
        };
        if used == 0 || used > max {
            max
        } else {
            used
        }
    } else if compression == BI_BITFIELDS && size == 40 {
        // Three colour masks follow the header in place of a palette.
        3
    } else {
        0
    };
    let tall: i64 = if height < 0 {
        -(height as i64)
    } else {
        height as i64
    };
    Some(
        Header {
            width: width as u32,
            height: tall as u32,
            bottom_up: height > 0,
            bits,
            compression,
            palette_at: size as usize,
            palette_entries: entries as usize,
            info_len: (size + entries * 4) as usize,
        },
    )
}

// ---------------------------------------------------------------- the palette

/// The colour of index `i`; a table that ends early leaves the rest black.
pub open spec fn palette_colour(h: Header, info: Seq<u8>, i: int) -> (u8, u8, u8) {
    let at = h.palette_at + 4 * i;
    if i < h.palette_entries && at + 4 <= info.len() {
        (info[at + 2], info[at + 1], info[at])
    } else {
        (0, 0, 0)
    }
}

/// The palette of an indexed bitmap; a direct-colour one has none.
pub open spec fn palette_of(h: Header, info: Seq<u8>) -> Seq<(u8, u8, u8)> {
    if h.bits <= 8 {
        Seq::new(colours_of(h.bits as int) as nat, |i: int| palette_colour(h, info, i))
    } else {
        Seq::empty()
    }
}

fn read_palette(h: &Header, info: &[u8]) -> (p: Vec<(u8, u8, u8)>)
    requires
        known_depth(h.bits as int),
        h.palette_at <= 256,
    ensures
        p@ == palette_of(*h, info@),
{
    let mut p: Vec<(u8, u8, u8)> = Vec::new();
    if h.bits > 8 {
        assert(p@ =~= palette_of(*h, info@));
        return p;
    }
    let max: usize = if h.bits == 1 {
        2
    } else if h.bits == 4 {
        16
    } else {
        256
    };
    let mut i: usize = 0;
    while i < max
        invariant
            i <= max <= 256,
            h.palette_at <= 256,
            p@ == Seq::new(i as nat, |k: int| palette_colour(*h, info@, k)),
        decreases max - i,
    {
        let at: usize = h.palette_at + 4 * i;
        if i < h.palette_entries && at + 4 <= info.len() {
            p.push((info[at + 2], info[at + 1], info[at]));
        } else {
            p.push((0, 0, 0));
        }
        i += 1;
        proof {
            assert(p@ =~= Seq::new(i as nat, |k: int| palette_colour(*h, info@, k)));
        }
    }
    proof {
        assert(p@ =~= palette_of(*h, info@));
    }
    p
}

// ------------------------------------------------------------------- the rows

/// Octets a stored row takes, padded to four.
pub open spec fn stored_stride(h: Header) -> int {
    (h.width * h.bits + 31) / 32 * 4
}

/// Which stored row is shown at `y` from the top.
pub open spec fn stored_row(h: Header, y: int) -> int {
    if h.bottom_up {
        h.height - 1 - y
    } else {
        y
    }
}

/// Every row down to `y` is there; drawing stops at the first that is not.
pub open spec fn rows_present(h: Header, used: int, n: int, y: int) -> bool {
    forall|k: int| 0 <= k <= y ==> #[trigger] stored_row(h, k) * stored_stride(h) + used <= n
}

/// The row at `y` of a bitmap of palette indices.
pub open spec fn indexed_row(h: Header, bits: Seq<u8>, y: int) -> Seq<u8> {
    let used = row_octets(h.width as int, h.bits as int);
    if rows_present(h, used, bits.len() as int, y) {
        let at = stored_row(h, y) * stored_stride(h);
        bits.subrange(at, at + used)
    } else {
        zeros(used)
    }
}

/// How many zero bits `m` ends with.
pub open spec fn low_zeros(m: nat) -> nat
    decreases m,
{
    if m == 0 || m % 2 == 1 {
        0
    } else {
        1 + low_zeros(m / 2)
    }
}

/// How many one bits `m` has.
pub open spec fn ones(m: nat) -> nat
    decreases m,
{
    if m == 0 {
        0
    } else {
        m % 2 + ones(m / 2)
    }
}

/// One masked channel scaled to eight bits, the top bits repeated in the low
/// ones.
pub open spec fn channel_of(v: u32, mask: u32) -> u8 {
    if mask == 0 {
        0
    } else {
        let shift = low_zeros(mask as nat) as u32;
        let width = ones((mask >> shift) as nat);
        let raw = (v & mask) >> shift;
        if width >= 8 {
            (raw >> ((width - 8) as u32)) as u8
        } else {
            ((raw << ((8 - width) as u32)) | (raw >> ((if width < 4 {
                0
            } else {
                2 * width - 8
            }) as u32))) as u8
        }
    }
}

proof fn lemma_low_zeros(m: nat)
    requires
        0 < m <= 0xFFFF_FFFF,
    ensures
        low_zeros(m) < 32,
{
    vstd::arithmetic::power2::lemma2_to64();
    lemma_low_zeros_below(m, 32, 0x1_0000_0000);
}

proof fn lemma_low_zeros_below(m: nat, k: nat, limit: nat)
    requires
        0 < m < limit,
        limit == vstd::arithmetic::power2::pow2(k),
    ensures
        low_zeros(m) < k,
    decreases k,
{
    vstd::arithmetic::power2::lemma2_to64();
    if k == 0 {
    } else if m % 2 == 0 {
        vstd::arithmetic::power2::lemma_pow2_unfold(k);
        lemma_low_zeros_below(
            m / 2,
            (k - 1) as nat,
            vstd::arithmetic::power2::pow2((k - 1) as nat),
        );
    }
}

proof fn lemma_ones_bound(m: nat, k: nat, limit: nat)
    requires
        m < limit,
        limit == vstd::arithmetic::power2::pow2(k),
    ensures
        ones(m) <= k,
    decreases k,
{
    vstd::arithmetic::power2::lemma2_to64();
    if k > 0 && m > 0 {
        vstd::arithmetic::power2::lemma_pow2_unfold(k);
        lemma_ones_bound(
            m / 2,
            (k - 1) as nat,
            vstd::arithmetic::power2::pow2((k - 1) as nat),
        );
    }
}

/// Scale one masked channel to eight bits.
fn channel(v: u32, mask: u32) -> (r: u8)
    ensures
        r == channel_of(v, mask),
{
    if mask == 0 {
        return 0;
    }
    let mut shift: u32 = 0;
    let mut m: u32 = mask;
    proof {
        lemma_low_zeros(mask as nat);
    }
    while m % 2 == 0
        invariant
            0 < m,
            shift + low_zeros(m as nat) == low_zeros(mask as nat),
            low_zeros(mask as nat) < 32,
        decreases m,
    {
        m = m / 2;
        shift += 1;
    }
    let mut width: u32 = 0;
    let mut rest: u32 = mask >> shift;
    let ghost all = rest as nat;
    proof {
        vstd::arithmetic::power2::lemma2_to64();
        lemma_ones_bound(all, 32, 0x1_0000_0000);
    }
    while rest > 0
        invariant
            width + ones(rest as nat) == ones(all),
            ones(all) <= 32,
        decreases rest,
    {
        width = width + rest % 2;
        rest = rest / 2;
    }
    let raw: u32 = (v & mask) >> shift;
    if width >= 8 {
        #[verifier::truncate]
        let top: u8 = (raw >> (width - 8)) as u8;
        top
    } else {
        let low: u32 = if width < 4 {
            0
        } else {
            2 * width - 8
        };
        #[verifier::truncate]
        let both: u8 = ((raw << (8 - width)) | (raw >> low)) as u8;
        both
    }
}

/// The three channel masks after the header, when the bitmap has its own.
pub open spec fn masks_of(h: Header, info: Seq<u8>) -> Option<(u32, u32, u32)> {
    if h.compression == BI_BITFIELDS {
        let m = |i: int|
            match u32_of(info, h.palette_at + 4 * i) {
                Some(v) => v,
                None => 0u32,
            };
        Some((m(0), m(1), m(2)))
    } else {
        None
    }
}

/// The colour of the pixel whose octets start at `at`.
pub open spec fn direct_colour(
    bits: int,
    masks: Option<(u32, u32, u32)>,
    px: Seq<u8>,
    at: int,
) -> (u8, u8, u8) {
    if bits == 16 {
        let v = (px[at] + 0x100 * px[at + 1]) as u32;
        let m = match masks {
            Some(m) => m,
            None => (0x7C00u32, 0x03E0u32, 0x001Fu32),
        };
        (channel_of(v, m.0), channel_of(v, m.1), channel_of(v, m.2))
    } else if bits == 32 && masks is Some {
        let v = crate::infrastructure::tlv::le32(px, at) as u32;
        let m = masks->0;
        (channel_of(v, m.0), channel_of(v, m.1), channel_of(v, m.2))
    } else {
        (px[at + 2], px[at + 1], px[at])
    }
}

/// The first `n` pixels of a row that starts at `at`, as red, green, blue.
pub open spec fn direct_pixels(
    h: Header,
    masks: Option<(u32, u32, u32)>,
    bits: Seq<u8>,
    at: int,
    n: nat,
) -> Seq<u8>
    decreases n,
{
    if n == 0 {
        Seq::empty()
    } else {
        let c = direct_colour(h.bits as int, masks, bits, at + (n - 1) * (h.bits / 8));
        direct_pixels(h, masks, bits, at, (n - 1) as nat) + seq![c.0, c.1, c.2]
    }
}

/// The row at `y` of a direct-colour bitmap.
pub open spec fn direct_row(
    h: Header,
    masks: Option<(u32, u32, u32)>,
    bits: Seq<u8>,
    y: int,
) -> Seq<u8> {
    let used = h.width * (h.bits / 8);
    if rows_present(h, used, bits.len() as int, y) {
        direct_pixels(h, masks, bits, stored_row(h, y) * stored_stride(h), h.width as nat)
    } else {
        zeros(3 * h.width)
    }
}

// --------------------------------------------------------- run-length coding

/// One index written at `x`, `y`; outside the bitmap nothing is written.
pub open spec fn put_index(out: Seq<u8>, w: int, h: int, x: int, y: int, v: u8) -> Seq<u8> {
    if x < w && y < h {
        out.update(y * w + x, v)
    } else {
        out
    }
}

/// The `k`-th index of a run: an octet each, or a nibble, the high one first.
pub open spec fn run_index(nibbles: bool, octet: u8, k: int) -> u8 {
    if !nibbles {
        octet
    } else if k % 2 == 0 {
        octet / 16
    } else {
        octet % 16
    }
}

/// The first `n` indices of a run of one octet, written from `x` on.
pub open spec fn put_same(
    out: Seq<u8>,
    w: int,
    h: int,
    x: int,
    y: int,
    nibbles: bool,
    octet: u8,
    n: nat,
) -> Seq<u8>
    decreases n,
{
    if n == 0 {
        out
    } else {
        put_index(
            put_same(out, w, h, x, y, nibbles, octet, (n - 1) as nat),
            w,
            h,
            x + n - 1,
            y,
            run_index(nibbles, octet, n - 1),
        )
    }
}

/// The octet that holds the `k`-th index of an absolute run.
pub open spec fn run_octet(nibbles: bool, k: int) -> int {
    if nibbles {
        k / 2
    } else {
        k
    }
}

/// The first `n` indices of an absolute run at `i`, written from `x` on.
pub open spec fn put_each(
    out: Seq<u8>,
    w: int,
    h: int,
    x: int,
    y: int,
    nibbles: bool,
    src: Seq<u8>,
    i: int,
    n: nat,
) -> Seq<u8>
    decreases n,
{
    if n == 0 {
        out
    } else {
        put_index(
            put_each(out, w, h, x, y, nibbles, src, i, (n - 1) as nat),
            w,
            h,
            x + n - 1,
            y,
            run_index(nibbles, src[i + run_octet(nibbles, n - 1)], n - 1),
        )
    }
}

/// Octets an absolute run of `n` indices takes, without its padding.
pub open spec fn run_octets(nibbles: bool, n: int) -> int {
    if nibbles {
        (n + 1) / 2
    } else {
        n
    }
}

/// The indices, one octet a pixel and rows as stored, after the codes from `i`
/// on have been carried out at `x`, `y`. A code that is cut short is no
/// picture; codes after the last row, and a stream that simply ends, are let
/// be.
pub open spec fn expand_from(
    src: Seq<u8>,
    w: int,
    h: int,
    nibbles: bool,
    i: int,
    x: int,
    y: int,
    out: Seq<u8>,
) -> Option<Seq<u8>>
    decreases src.len() - i,
{
    if i < 0 || i + 1 >= src.len() {
        Some(out)
    } else {
        let count = src[i];
        let value = src[i + 1];
        if count > 0 {
            expand_from(
                src,
                w,
                h,
                nibbles,
                i + 2,
                x + count,
                y,
                put_same(out, w, h, x, y, nibbles, value, count as nat),
            )
        } else if value == 0 {
            if y + 1 >= h {
                Some(out)
            } else {
                expand_from(src, w, h, nibbles, i + 2, 0, y + 1, out)
            }
        } else if value == 1 {
            Some(out)
        } else if value == 2 {
            if i + 4 > src.len() {
                None
            } else if y + src[i + 3] >= h {
                Some(out)
            } else {
                expand_from(src, w, h, nibbles, i + 4, x + src[i + 2], y + src[i + 3], out)
            }
        } else {
            let n = run_octets(nibbles, value as int);
            if i + 2 + n > src.len() {
                None
            } else {
                let more = put_each(out, w, h, x, y, nibbles, src, i + 2, value as nat);
                let next = i + 2 + (n + 1) / 2 * 2;
                if next >= src.len() {
                    Some(more)
                } else {
                    expand_from(src, w, h, nibbles, next, x + value, y, more)
                }
            }
        }
    }
}

/// The expanded indices of a run-length coded bitmap. Pixels that the codes
/// never write stay at index zero.
pub open spec fn expanded(src: Seq<u8>, w: int, h: int, nibbles: bool) -> Option<Seq<u8>> {
    expand_from(src, w, h, nibbles, 0, 0, 0, zeros(w * h))
}

proof fn lemma_index_in(w: int, h: int, x: int, y: int)
    requires
        0 <= x < w,
        0 <= y < h,
    ensures
        0 <= y * w + x < w * h,
{
    assert(0 <= y * w) by (nonlinear_arith)
        requires
            0 <= y,
            0 <= w,
    ;
    assert(y * w + w <= w * h) by (nonlinear_arith)
        requires
            y + 1 <= h,
            0 <= w,
    ;
}

/// Writes one index and moves on; a position past the row is kept at its end.
fn put(out: &mut Vec<u8>, w: usize, h: usize, x: &mut usize, y: usize, v: u8, real_x: Ghost<int>)
    requires
        old(out)@.len() == w * h,
        *old(x) == (if real_x@ < w { real_x@ } else { w as int }),
        0 <= real_x@,
        w < usize::MAX,
    ensures
        final(out)@ == put_index(old(out)@, w as int, h as int, real_x@, y as int, v),
        final(out)@.len() == w * h,
        *final(x) == (if real_x@ + 1 < w { real_x@ + 1 } else { w as int }),
{
    if *x < w && y < h {
        proof {
            lemma_index_in(w as int, h as int, *x as int, y as int);
            assert(0 <= y * w) by (nonlinear_arith);
            assert(out.len() == w * h);
        }
        let at: usize = y * w + *x;
        out[at] = v;
    }
    if *x < w {
        *x = *x + 1;
    }
}

/// Expand run-length data into one index per pixel, rows in the order stored.
fn run_length(src: &[u8], w: usize, h: usize, nibbles: bool) -> (r: Option<Vec<u8>>)
    requires
        0 < w,
        0 < h,
        w * h <= MAX_PIXELS,
    ensures
        match (r, expanded(src@, w as int, h as int, nibbles)) {
            (Some(v), Some(s)) => v@ == s && v@.len() == w * h,
            (None, None) => true,
            _ => false,
        },
{
    proof {
        assert(w <= w * h && h <= w * h) by (nonlinear_arith)
            requires
                0 < w,
                0 < h,
        ;
    }
    let mut out: Vec<u8> = Vec::new();
    append_zeros(&mut out, w * h);
    proof {
        assert(out@ =~= zeros(w * h));
    }
    let mut x: usize = 0;
    let mut y: usize = 0;
    let mut i: usize = 0;
    let ghost mut rx: int = 0;
    let ghost want = expanded(src@, w as int, h as int, nibbles);
    while i < src.len() && src.len() - i > 1
        invariant
            0 < w <= MAX_PIXELS,
            0 < h <= MAX_PIXELS,
            i <= src.len(),
            out@.len() == w * h,
            y < h,
            0 <= rx,
            x == (if rx < w { rx } else { w as int }),
            want == expanded(src@, w as int, h as int, nibbles),
            want == expand_from(
                src@,
                w as int,
                h as int,
                nibbles,
                i as int,
                rx,
                y as int,
                out@,
            ),
        decreases src.len() - i,
    {
        let count: u8 = src[i];
        let value: u8 = src[i + 1];
        if count > 0 {
            let ghost before = out@;
            let ghost from = rx;
            let mut k: u8 = 0;
            while k < count
                invariant
                    k <= count,
                    0 < w <= MAX_PIXELS,
                    out@.len() == w * h,
                    0 <= from,
                    rx == from + k,
                    x == (if rx < w { rx } else { w as int }),
                    out@ == put_same(
                        before,
                        w as int,
                        h as int,
                        from,
                        y as int,
                        nibbles,
                        value,
                        k as nat,
                    ),
                decreases count - k,
            {
                let v: u8 = if !nibbles {
                    value
                } else if k % 2 == 0 {
                    value / 16
                } else {
                    value % 16
                };
                put(&mut out, w, h, &mut x, y, v, Ghost(rx));
                k += 1;
                proof {
                    rx = rx + 1;
                }
            }
            i += 2;
        } else if value == 0 {
            x = 0;
            proof {
                rx = 0;
            }
            if y + 1 >= h {
                return Some(out);
            }
            y += 1;
            i += 2;
        } else if value == 1 {
            return Some(out);
        } else if value == 2 {
            if src.len() - i < 4 {
                return None;
            }
            let dx: usize = src[i + 2] as usize;
            let dy: usize = src[i + 3] as usize;
            if y + dy >= h {
                return Some(out);
            }
            proof {
                rx = rx + dx;
            }
            x = if x + dx < w {
                x + dx
            } else {
                w
            };
            y = y + dy;
            i += 4;
        } else {
            let n: usize = if nibbles {
                (value as usize + 1) / 2
            } else {
                value as usize
            };
            if src.len() - i - 2 < n {
                return None;
            }
            let ghost before = out@;
            let ghost from = rx;
            let mut k: usize = 0;
            while k < value as usize
                invariant
                    k <= value,
                    0 < w <= MAX_PIXELS,
                    out@.len() == w * h,
                    0 <= from,
                    rx == from + k,
                    x == (if rx < w { rx } else { w as int }),
                    n == run_octets(nibbles, value as int),
                    i + 2 + n <= src.len(),
                    out@ == put_each(
                        before,
                        w as int,
                        h as int,
                        from,
                        y as int,
                        nibbles,
                        src@,
                        i + 2,
                        k as nat,
                    ),
                decreases value - k,
            {
                let v: u8 = if !nibbles {
                    src[i + 2 + k]
                } else if k % 2 == 0 {
                    src[i + 2 + k / 2] / 16
                } else {
                    src[i + 2 + k / 2] % 16
                };
                put(&mut out, w, h, &mut x, y, v, Ghost(rx));
                k += 1;
                proof {
                    rx = rx + 1;
                }
            }
            // Each absolute run is padded to a 16-bit boundary.
            let padded: usize = (n + 1) / 2 * 2;
            if src.len() - i - 2 <= padded {
                return Some(out);
            }
            i = i + 2 + padded;
        }
    }
    Some(out)
}

/// The row at `y` of the expanded indices, packed again.
pub open spec fn packed_row(h: Header, indices: Seq<u8>, y: int) -> Seq<u8> {
    let at = stored_row(h, y) * h.width;
    if h.bits == 8 {
        indices.subrange(at, at + h.width)
    } else {
        Seq::new(
            ((h.width + 1) / 2) as nat,
            |k: int|
                (indices[at + 2 * k] % 16 * 16 + (if 2 * k + 1 < h.width {
                    (indices[at + 2 * k + 1] % 16) as int
                } else {
                    0
                })) as u8,
        )
    }
}

// ----------------------------------------------------------------- the bitmap

/// The rows of the raster that a header, its tables and the pixel data give,
/// with the depth they come out at; nothing for a bitmap too large or in a
/// form that is not read.
pub open spec fn bitmap_rows(h: Header, info: Seq<u8>, bits: Seq<u8>) -> Option<(u8, Seq<u8>)> {
    if h.width * h.height > MAX_PIXELS {
        None
    } else if h.compression == BI_RGB && h.bits <= 8 {
        Some((h.bits as u8, stacked(|y: int| indexed_row(h, bits, y), h.height as nat)))
    } else if (h.compression == BI_RGB || h.compression == BI_BITFIELDS) && h.bits > 8 {
        Some(
            (
                24,
                stacked(|y: int| direct_row(h, masks_of(h, info), bits, y), h.height as nat),
            ),
        )
    } else if (h.compression == BI_RLE8 && h.bits == 8) || (h.compression == BI_RLE4 && h.bits
        == 4) {
        match expanded(bits, h.width as int, h.height as int, h.bits == 4) {
            None => None,
            Some(indices) => Some(
                (h.bits as u8, stacked(|y: int| packed_row(h, indices, y), h.height as nat)),
            ),
        }
    } else {
        None
    }
}

/// The raster is the bitmap that `info` and `bits` describe.
pub open spec fn is_bitmap(r: Raster, info: Seq<u8>, bits: Seq<u8>) -> bool {
    match header_of(info) {
        None => false,
        Some(h) => match bitmap_rows(h, info, bits) {
            None => false,
            Some((depth, rows)) => {
                &&& r.width == h.width
                &&& r.height == h.height
                &&& r.bits == depth
                &&& r.palette@ == palette_of(h, info)
                &&& r.rows@ == rows
                &&& r.stencil is None
            },
        },
    }
}

/// The bitmap that `info` and `bits` describe.
pub open spec fn bitmap_of(info: Seq<u8>, bits: Seq<u8>) -> Option<RasterModel> {
    match header_of(info) {
        None => None,
        Some(h) => match bitmap_rows(h, info, bits) {
            None => None,
            Some((depth, rows)) => Some(
                RasterModel {
                    width: h.width,
                    height: h.height,
                    bits: depth,
                    palette: palette_of(h, info),
                    rows,
                    stencil: None,
                },
            ),
        },
    }
}

/// Whether `info` and `bits` describe a bitmap that can be read.
pub open spec fn readable(info: Seq<u8>, bits: Seq<u8>) -> bool {
    header_of(info) matches Some(h) && bitmap_rows(h, info, bits) is Some
}

/// A bitmap that is not too large: its rows can be counted and addressed.
pub open spec fn sane(h: Header) -> bool {
    &&& 0 < h.width
    &&& 0 < h.height
    &&& known_depth(h.bits as int)
    &&& h.width * h.height <= MAX_PIXELS
    &&& h.palette_at <= 256
}

pub proof fn lemma_sizes(h: Header)
    requires
        sane(h),
    ensures
        h.width <= MAX_PIXELS,
        h.height <= MAX_PIXELS,
        0 < h.width * h.bits <= 32 * MAX_PIXELS,
        0 < row_octets(h.width as int, h.bits as int) <= stored_stride(h) <= 8 * h.width,
        h.width * (h.bits / 8) <= stored_stride(h),
        stored_stride(h) * h.height <= 8 * MAX_PIXELS,
        row_octets(h.width as int, h.bits as int) * h.height <= 8 * MAX_PIXELS,
{
    let w = h.width as int;
    let b = h.bits as int;
    assert(w <= w * h.height && h.height <= w * h.height) by (nonlinear_arith)
        requires
            0 < w,
            0 < h.height,
    ;
    assert(0 < w * b <= 32 * w) by (nonlinear_arith)
        requires
            0 < w,
            1 <= b <= 32,
    ;
    assert(w * (b / 8) * 8 <= w * b) by (nonlinear_arith)
        requires
            0 < w,
            0 <= b,
            (b / 8) * 8 <= b,
    ;
    assert(w * (b / 8) * 8 == 8 * (w * (b / 8))) by (nonlinear_arith);
    let s = stored_stride(h);
    assert(s * h.height <= 8 * (w * h.height)) by (nonlinear_arith)
        requires
            s <= 8 * w,
            0 < h.height,
    ;
    let u = row_octets(w, b);
    assert(u * h.height <= s * h.height) by (nonlinear_arith)
        requires
            u <= s,
            0 < h.height,
    ;
}

/// Where the stored row shown at `y` starts, and whether it is all there.
fn row_start(h: &Header, n: usize, used: usize, y: u32) -> (r: Option<usize>)
    requires
        sane(*h),
        y < h.height,
        used <= stored_stride(*h),
    ensures
        match r {
            Some(at) => at == stored_row(*h, y as int) * stored_stride(*h) && at + used <= n,
            None => stored_row(*h, y as int) * stored_stride(*h) + used > n,
        },
{
    proof {
        lemma_sizes(*h);
        let row = stored_row(*h, y as int);
        let s = stored_stride(*h);
        assert(0 <= row * s && row * s + s <= s * h.height) by (nonlinear_arith)
            requires
                0 <= row < h.height,
                0 <= s,
        ;
    }
    let stride: usize = (h.width as usize * h.bits as usize + 31) / 32 * 4;
    let row: usize = if h.bottom_up {
        (h.height - 1 - y) as usize
    } else {
        y as usize
    };
    let at: usize = row * stride;
    if at + used <= n {
        Some(at)
    } else {
        None
    }
}

fn indexed_rows(h: &Header, bits: &[u8]) -> (rows: Vec<u8>)
    requires
        sane(*h),
    ensures
        rows@ == stacked(|y: int| indexed_row(*h, bits@, y), h.height as nat),
{
    proof {
        lemma_sizes(*h);
    }
    let used: usize = (h.width as usize * h.bits as usize + 7) / 8;
    let mut rows: Vec<u8> = Vec::new();
    let ghost row = |y: int| indexed_row(*h, bits@, y);
    let mut whole: bool = true;
    let mut y: u32 = 0;
    while y < h.height
        invariant
            sane(*h),
            y <= h.height,
            used == row_octets(h.width as int, h.bits as int),
            used <= stored_stride(*h),
            row == (|y: int| indexed_row(*h, bits@, y)),
            rows@ == stacked(row, y as nat),
            whole <==> rows_present(*h, used as int, bits@.len() as int, y - 1),
        decreases h.height - y,
    {
        let ghost before = rows@;
        let start = row_start(h, bits.len(), used, y);
        proof {
            let n = bits@.len() as int;
            assert(rows_present(*h, used as int, n, y as int) <==> whole && start is Some) by {
                if rows_present(*h, used as int, n, y as int) {
                    assert(rows_present(*h, used as int, n, y - 1)) by {
                        assert forall|k: int| 0 <= k <= y - 1 implies #[trigger] stored_row(*h, k)
                            * stored_stride(*h) + used <= n by {}
                    }
                    assert(stored_row(*h, y as int) * stored_stride(*h) + used <= n);
                }
            }
        }
        match start {
            Some(at) if whole => {
                append(&mut rows, slice_subrange(bits, at, at + used));
            },
            _ => {
                whole = false;
                append_zeros(&mut rows, used);
            },
        }
        y += 1;
        proof {
            assert(rows@ =~= before + row(y - 1));
        }
    }
    rows
}

fn direct_rows(h: &Header, info: &[u8], bits: &[u8]) -> (rows: Vec<u8>)
    requires
        sane(*h),
        h.bits > 8,
    ensures
        rows@ == stacked(
            |y: int| direct_row(*h, masks_of(*h, info@), bits@, y),
            h.height as nat,
        ),
{
    proof {
        lemma_sizes(*h);
    }
    let bpp: usize = h.bits as usize / 8;
    let w: usize = h.width as usize;
    let used: usize = w * bpp;
    let masks: Option<(u32, u32, u32)> = if h.compression == BI_BITFIELDS {
        let a: u32 = match u32_at(info, h.palette_at) {
            Some(v) => v,
            None => 0,
        };
        let b: u32 = match u32_at(info, h.palette_at + 4) {
            Some(v) => v,
            None => 0,
        };
        let c: u32 = match u32_at(info, h.palette_at + 8) {
            Some(v) => v,
            None => 0,
        };
        Some((a, b, c))
    } else {
        None
    };
    proof {
        assert(masks == masks_of(*h, info@));
    }
    let mut rows: Vec<u8> = Vec::new();
    let ghost row = |y: int| direct_row(*h, masks_of(*h, info@), bits@, y);
    let mut whole: bool = true;
    let mut y: u32 = 0;
    while y < h.height
        invariant
            sane(*h),
            h.bits > 8,
            y <= h.height,
            w == h.width,
            w <= MAX_PIXELS,
            bpp == h.bits / 8,
            used == h.width * (h.bits / 8),
            used <= stored_stride(*h),
            masks == masks_of(*h, info@),
            row == (|y: int| direct_row(*h, masks_of(*h, info@), bits@, y)),
            rows@ == stacked(row, y as nat),
            whole <==> rows_present(*h, used as int, bits@.len() as int, y - 1),
        decreases h.height - y,
    {
        let ghost before = rows@;
        let start = row_start(h, bits.len(), used, y);
        proof {
            let n = bits@.len() as int;
            assert(rows_present(*h, used as int, n, y as int) <==> whole && start is Some) by {
                if rows_present(*h, used as int, n, y as int) {
                    assert(rows_present(*h, used as int, n, y - 1)) by {
                        assert forall|k: int| 0 <= k <= y - 1 implies #[trigger] stored_row(*h, k)
                            * stored_stride(*h) + used <= n by {}
                    }
                    assert(stored_row(*h, y as int) * stored_stride(*h) + used <= n);
                }
            }
        }
        match start {
            Some(at) if whole => {
                let mut x: usize = 0;
                let mut from: usize = at;
                proof {
                    assert(before + Seq::<u8>::empty() =~= before);
                }
                while x < w
                    invariant
                        x <= w,
                        w == h.width,
                        bpp == h.bits / 8,
                        known_depth(h.bits as int),
                        h.bits > 8,
                        used == h.width * (h.bits / 8),
                        from == at + x * (h.bits / 8),
                        at + used <= bits.len(),
                        rows@ == before + direct_pixels(*h, masks, bits@, at as int, x as nat),
                    decreases w - x,
                {
                    proof {
                        assert((x + 1) * (h.bits / 8) == x * (h.bits / 8) + h.bits / 8)
                            by (nonlinear_arith);
                        assert((x + 1) * (h.bits / 8) <= h.width * (h.bits / 8))
                            by (nonlinear_arith)
                            requires
                                x + 1 <= h.width,
                                0 <= h.bits / 8,
                        ;
                    }
                    let ghost prior = rows@;
                    let (r, g, b): (u8, u8, u8) = if bpp == 2 {
                        let v: u32 = bits[from] as u32 + 0x100 * bits[from + 1] as u32;
                        let m = match masks {
                            Some(m) => m,
                            None => (0x7C00u32, 0x03E0u32, 0x001Fu32),
                        };
                        (channel(v, m.0), channel(v, m.1), channel(v, m.2))
                    } else if bpp == 4 && masks.is_some() {
                        let v: u32 = bits[from] as u32 + 0x100 * bits[from + 1] as u32 + 0x1_0000
                            * bits[from + 2] as u32 + 0x100_0000 * bits[from + 3] as u32;
                        let m = masks.unwrap();
                        (channel(v, m.0), channel(v, m.1), channel(v, m.2))
                    } else {
                        (bits[from + 2], bits[from + 1], bits[from])
                    };
                    rows.push(r);
                    rows.push(g);
                    rows.push(b);
                    x += 1;
                    from += bpp;
                    proof {
                        assert(rows@ =~= prior + seq![r, g, b]);
                        assert(rows@ =~= before + direct_pixels(
                            *h,
                            masks,
                            bits@,
                            at as int,
                            x as nat,
                        ));
                    }
                }
            },
            _ => {
                whole = false;
                append_zeros(&mut rows, 3 * w);
            },
        }
        y += 1;
        proof {
            assert(rows@ =~= before + row(y - 1));
        }
    }
    rows
}

fn packed_rows(h: &Header, indices: &Vec<u8>) -> (rows: Vec<u8>)
    requires
        sane(*h),
        h.bits == 8 || h.bits == 4,
        indices@.len() == h.width * h.height,
    ensures
        rows@ == stacked(|y: int| packed_row(*h, indices@, y), h.height as nat),
{
    proof {
        lemma_sizes(*h);
    }
    let w: usize = h.width as usize;
    let mut rows: Vec<u8> = Vec::new();
    let ghost row = |y: int| packed_row(*h, indices@, y);
    let mut y: u32 = 0;
    while y < h.height
        invariant
            sane(*h),
            h.bits == 8 || h.bits == 4,
            indices@.len() == h.width * h.height,
            y <= h.height,
            w == h.width,
            w <= MAX_PIXELS,
            row == (|y: int| packed_row(*h, indices@, y)),
            rows@ == stacked(row, y as nat),
        decreases h.height - y,
    {
        let ghost before = rows@;
        let line: usize = if h.bottom_up {
            (h.height - 1 - y) as usize
        } else {
            y as usize
        };
        proof {
            assert(0 <= line * w && line * w + w <= w * h.height) by (nonlinear_arith)
                requires
                    0 <= line < h.height,
                    0 <= w,
            ;
        }
        let at: usize = line * w;
        if h.bits == 8 {
            append(&mut rows, slice_subrange(indices.as_slice(), at, at + w));
        } else {
            let half: usize = (w + 1) / 2;
            let mut k: usize = 0;
            while k < half
                invariant
                    k <= half,
                    half == (w + 1) / 2,
                    w == h.width,
                    w <= MAX_PIXELS,
                    h.bits == 4,
                    at + w <= indices.len(),
                    at == stored_row(*h, y as int) * h.width,
                    rows@ == before + packed_row(*h, indices@, y as int).take(k as int),
                decreases half - k,
            {
                let hi: u8 = indices[at + 2 * k] % 16;
                let lo: u8 = if 2 * k + 1 < w {
                    indices[at + 2 * k + 1] % 16
                } else {
                    0
                };
                rows.push(hi * 16 + lo);
                proof {
                    let r = packed_row(*h, indices@, y as int);
                    assert(r.take(k + 1) =~= r.take(k as int).push(r[k as int]));
                    assert(rows@ =~= before + r.take(k + 1));
                }
                k += 1;
            }
            proof {
                let r = packed_row(*h, indices@, y as int);
                assert(r.take(half as int) =~= r);
            }
        }
        y += 1;
        proof {
            assert(rows@ =~= before + row(y - 1));
        }
    }
    rows
}

/// Turn a bitmap header plus its pixel data into a packed raster.
///
/// `info` starts at the header; `bits` is the pixel data. The raster's rows
/// hold exactly as many octets as its size and depth call for.
pub fn decode(info: &[u8], bits: &[u8]) -> (r: Option<Raster>)
    ensures
        r is Some <==> readable(info@, bits@),
        match (r, bitmap_of(info@, bits@)) {
            (Some(raster), Some(m)) => raster@ == m,
            (None, None) => true,
            _ => false,
        },
        r matches Some(raster) ==> is_bitmap(raster, info@, bits@) && raster.full()
            && raster.measurable() && 0 < raster.width <= MAX_PIXELS && 0 < raster.height
            <= MAX_PIXELS,
        r matches Some(raster) ==> (raster.bits == 24 || raster.bits == 1 || raster.bits == 4
            || raster.bits == 8) && raster.palette@.len() == (if raster.bits <= 8 {
            colours_of(raster.bits as int)
        } else {
            0
        }) && raster.stencil is None,
{
    let h = match header(info) {
        Some(h) => h,
        None => {
            return None;
        },
    };
    proof {
        assert(0 <= h.width * h.height <= 0xFFFF_FFFF * 0xFFFF_FFFF) by (nonlinear_arith)
            requires
                0 <= h.width <= 0xFFFF_FFFF,
                0 <= h.height <= 0xFFFF_FFFF,
        ;
    }
    if h.width as u64 * h.height as u64 > MAX_PIXELS {
        return None;
    }
    proof {
        lemma_sizes(h);
    }
    let palette = read_palette(&h, info);
    if h.compression == BI_RGB && h.bits <= 8 {
        let rows = indexed_rows(&h, bits);
        proof {
            lemma_stacked_len(
                |y: int| indexed_row(h, bits@, y),
                h.height as nat,
                row_octets(h.width as int, h.bits as int) as nat,
            );
        }
        return Some(
            Raster {
                width: h.width,
                height: h.height,
                bits: h.bits as u8,
                palette,
                rows,
                stencil: None,
            },
        );
    }
    if (h.compression == BI_RGB || h.compression == BI_BITFIELDS) && h.bits > 8 {
        let rows = direct_rows(&h, info, bits);
        proof {
            assert forall|y: int| 0 <= y < h.height implies (#[trigger] direct_row(
                h,
                masks_of(h, info@),
                bits@,
                y,
            )).len() == 3 * h.width by {
                lemma_direct_len(
                    h,
                    masks_of(h, info@),
                    bits@,
                    stored_row(h, y) * stored_stride(h),
                    h.width as nat,
                );
            }
            lemma_stacked_len(
                |y: int| direct_row(h, masks_of(h, info@), bits@, y),
                h.height as nat,
                (3 * h.width) as nat,
            );
        }
        return Some(
            Raster {
                width: h.width,
                height: h.height,
                bits: 24,
                palette,
                rows,
                stencil: None,
            },
        );
    }
    if (h.compression == BI_RLE8 && h.bits == 8) || (h.compression == BI_RLE4 && h.bits == 4) {
        let indices = match run_length(bits, h.width as usize, h.height as usize, h.bits == 4) {
            Some(v) => v,
            None => {
                return None;
            },
        };
        let rows = packed_rows(&h, &indices);
        proof {
            assert forall|y: int| 0 <= y < h.height implies (#[trigger] packed_row(
                h,
                indices@,
                y,
            )).len() == row_octets(h.width as int, h.bits as int) by {
                let line = stored_row(h, y);
                if h.bits == 8 {
                    assert(h.width * h.bits == h.width * 8);
                } else {
                    assert(h.width * h.bits == h.width * 4);
                }
                assert(0 <= line * h.width && line * h.width + h.width <= h.width * h.height)
                    by (nonlinear_arith)
                    requires
                        0 <= line < h.height,
                        0 <= h.width,
                ;
            }
            lemma_stacked_len(
                |y: int| packed_row(h, indices@, y),
                h.height as nat,
                row_octets(h.width as int, h.bits as int) as nat,
            );
        }
        return Some(
            Raster {
                width: h.width,
                height: h.height,
                bits: h.bits as u8,
                palette,
                rows,
                stencil: None,
            },
        );
    }
    None
}

proof fn lemma_direct_len(
    h: Header,
    masks: Option<(u32, u32, u32)>,
    bits: Seq<u8>,
    at: int,
    n: nat,
)
    ensures
        direct_pixels(h, masks, bits, at, n).len() == 3 * n,
    decreases n,
{
    if n > 0 {
        lemma_direct_len(h, masks, bits, at, (n - 1) as nat);
    }
}

} // verus!
