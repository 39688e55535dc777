//! One-bit masks that cut a picture out of its rectangle.
use crate::domain::rendering::{row_octets, Raster, RasterModel, RasterOp};
use crate::infrastructure::lzh::BIT_WEIGHT;
use crate::infrastructure::png::{encode, png_file};
use vstd::prelude::*;

verus! {

/// The bitmap can be a mask: one bit for every pixel, and the rows hold them
/// all.
pub open spec fn is_mask(m: RasterModel) -> bool {
    m.bits == 1 && m.width > 0 && m.height > 0 && row_octets(m.width as int, 1) * m.height
        <= m.rows.len()
}

/// The bit of a mask at `x`, `y`.
pub open spec fn mask_bit(m: RasterModel, x: int, y: int) -> int {
    (m.rows[y * row_octets(m.width as int, 1) + x / 8] / BIT_WEIGHT@[x % 8] % 2) as int
}

/// Whether the bitmap can be a mask.
pub(crate) fn can_mask(mask: &Raster) -> (r: bool)
    requires
        mask.measurable(),
    ensures
        r == is_mask(mask@),
{
    if mask.bits != 1 || mask.width == 0 || mask.height == 0 {
        return false;
    }
    let stride: usize = mask.stride();
    let have: usize = mask.rows.len();
    proof {
        assert(mask.width * 1 == mask.width);
        assert(stride == row_octets(mask.width as int, 1));
        assert(stride * mask.height == row_octets(mask.width as int, 1) * mask.height);
        assert(mask@.rows.len() == have);
    }
    match stride.checked_mul(mask.height as usize) {
        Some(n) => n <= have,
        None => false,
    }
}

fn bit_at(mask: &Raster, x: u32, y: u32) -> (bit: u8)
    requires
        mask.measurable(),
        is_mask(mask@),
        x < mask.width,
        y < mask.height,
    ensures
        bit == mask_bit(mask@, x as int, y as int),
        bit == 0 || bit == 1,
{
    let stride: usize = mask.stride();
    let have: usize = mask.rows.len();
    let ghost s = row_octets(mask.width as int, 1);
    proof {
        assert(mask.width * 1 == mask.width);
        assert(stride == s);
        assert(y * s + s <= s * mask.height) by (nonlinear_arith)
            requires
                y + 1 <= mask.height,
                s >= 0,
        ;
        assert(y * s >= 0) by (nonlinear_arith)
            requires
                y >= 0,
                s >= 0,
        ;
        assert(x / 8 < s);
        assert(y * s == y as usize * stride);
        assert(mask@.rows.len() == have);
        assert(y * s + x / 8 < have);
    }
    mask.rows[y as usize * stride + (x / 8) as usize] / BIT_WEIGHT[(x % 8) as usize] % 2
}

/// The pixel of `m` that lies under the middle of pixel `v` of `n`.
pub open spec fn sampled(v: int, n: int, m: int) -> int {
    (2 * v + 1) * m / (2 * n)
}

proof fn lemma_sampled(v: int, n: int, m: int)
    requires
        0 <= v < n,
        m > 0,
    ensures
        0 <= sampled(v, n, m) < m,
{
    assert(0 <= (2 * v + 1) * m < 2 * n * m) by (nonlinear_arith)
        requires
            0 <= v < n,
            m > 0,
    ;
    assert((2 * v + 1) * m / (2 * n) < m) by (nonlinear_arith)
        requires
            (2 * v + 1) * m < 2 * n * m,
            n > 0,
    ;
    assert((2 * v + 1) * m / (2 * n) >= 0) by (nonlinear_arith)
        requires
            0 <= (2 * v + 1) * m,
            n > 0,
    ;
}

fn sample(v: u32, n: u32, m: u32) -> (r: u32)
    requires
        v < n,
        m > 0,
    ensures
        r == sampled(v as int, n as int, m as int),
        r < m,
{
    proof {
        lemma_sampled(v as int, n as int, m as int);
        assert((2 * v + 1) * m < 0x2_0000_0000_0000_0000) by (nonlinear_arith)
            requires
                v < 0x1_0000_0000,
                m < 0x1_0000_0000,
        ;
    }
    let k: u128 = (2 * v as u128 + 1) * m as u128;
    (k / (2 * n as u128)) as u32
}

/// The alpha of one pixel: opaque where the mask's bit is zero.
pub open spec fn alpha_of(bit: int) -> u8 {
    if bit == 0 {
        255
    } else {
        0
    }
}

/// The alpha channel of a picture of `width` by `height` pixels under a mask,
/// row by row.
pub open spec fn alpha_channel(m: RasterModel, width: nat, height: nat) -> Seq<u8> {
    Seq::new(
        width * height,
        |i: int|
            alpha_of(
                mask_bit(
                    m,
                    sampled(i % width as int, width as int, m.width as int),
                    sampled(i / width as int, height as int, m.height as int),
                ),
            ),
    )
}

/// Converts the foreground of a mask, its zero bits, into opaque alpha, at the
/// size of the picture that it cuts out.
pub fn mask_alpha(mask: &Raster, width: u32, height: u32) -> (r: Option<Vec<u8>>)
    requires
        mask.measurable(),
    ensures
        r is Some <==> is_mask(mask@) && width > 0 && height > 0 && width * height <= usize::MAX,
        r matches Some(alpha) ==> alpha@ == alpha_channel(mask@, width as nat, height as nat),
{
    if width == 0 || height == 0 || !can_mask(mask) {
        return None;
    }
    let pixels: usize = match (width as usize).checked_mul(height as usize) {
        Some(n) => n,
        None => {
            return None;
        },
    };
    let ghost whole = alpha_channel(mask@, width as nat, height as nat);
    let mut alpha: Vec<u8> = Vec::new();
    let mut y: u32 = 0;
    while y < height
        invariant
            y <= height,
            width > 0,
            pixels == width * height,
            mask.measurable(),
            is_mask(mask@),
            whole == alpha_channel(mask@, width as nat, height as nat),
            alpha@ == whole.take(y * width),
            y * width <= pixels,
        decreases height - y,
    {
        let source_y: u32 = sample(y, height, mask.height);
        let mut x: u32 = 0;
        proof {
            assert((y + 1) * width <= width * height) by (nonlinear_arith)
                requires
                    y + 1 <= height,
            ;
            assert((y + 1) * width == y * width + width) by (nonlinear_arith);
        }
        while x < width
            invariant
                x <= width,
                y < height,
                width > 0,
                y * width + width <= pixels,
                pixels == width * height,
                mask.measurable(),
                is_mask(mask@),
                source_y == sampled(y as int, height as int, mask.height as int),
                source_y < mask.height,
                whole == alpha_channel(mask@, width as nat, height as nat),
                alpha@ == whole.take(y * width + x),
            decreases width - x,
        {
            let source_x: u32 = sample(x, width, mask.width);
            let bit: u8 = bit_at(mask, source_x, source_y);
            let v: u8 = if bit == 0 {
                255
            } else {
                0
            };
            proof {
                let i = y * width + x;
                assert(i / width as int == y && i % width as int == x) by (nonlinear_arith)
                    requires
                        i == y * width + x,
                        0 <= x < width,
                ;
                assert(whole.len() == width * height);
                assert(whole[i] == v);
                assert(whole.take(i + 1) =~= whole.take(i).push(v));
            }
            alpha.push(v);
            x += 1;
        }
        y += 1;
        proof {
            assert((y - 1) * width + width == y * width) by (nonlinear_arith);
        }
    }
    proof {
        assert(height * width == width * height) by (nonlinear_arith);
        assert(whole.take(pixels as int) =~= whole);
    }
    Some(alpha)
}

/// A mask with an octet for each pixel, white where its bit is zero and black
/// where it is one.
pub open spec fn luminance(m: RasterModel) -> RasterModel {
    RasterModel {
        width: m.width,
        height: m.height,
        bits: 8,
        palette: seq![(255u8, 255u8, 255u8), (0u8, 0u8, 0u8)],
        rows: Seq::new(
            (m.width * m.height) as nat,
            |i: int| mask_bit(m, i % (m.width as int), i / (m.width as int)) as u8,
        ),
        stencil: None,
    }
}

/// The PNG file of a luminance mask.
pub open spec fn mask_png(m: RasterModel) -> Seq<u8> {
    png_file(choose|p: Raster| p@ == luminance(m))
}

proof fn lemma_one_file(p: Raster, q: Raster)
    requires
        p@ == q@,
        p.stencil is None,
    ensures
        png_file(p) == png_file(q),
{
    assert(p.rows@ == p@.rows && q.rows@ == q@.rows);
    assert(p.palette@ == p@.palette && q.palette@ == q@.palette);
}

/// Converts a mask into a luminance mask for SVG: zero bits, the opaque
/// foreground, become white.
pub fn html_mask_png(mask: &Raster) -> (r: Option<Vec<u8>>)
    requires
        mask.measurable(),
        mask.width * 8 + 7 <= usize::MAX,
    ensures
        r is Some <==> is_mask(mask@) && mask.width * mask.height <= usize::MAX,
        r matches Some(png) ==> png@ == mask_png(mask@),
{
    if !can_mask(mask) {
        return None;
    }
    let pixels: usize = match (mask.width as usize).checked_mul(mask.height as usize) {
        Some(n) => n,
        None => {
            return None;
        },
    };
    let ghost whole = luminance(mask@).rows;
    let mut rows: Vec<u8> = Vec::new();
    let mut y: u32 = 0;
    while y < mask.height
        invariant
            y <= mask.height,
            pixels == mask.width * mask.height,
            mask.measurable(),
            is_mask(mask@),
            whole == luminance(mask@).rows,
            rows@ == whole.take(y * mask.width),
            y * mask.width <= pixels,
        decreases mask.height - y,
    {
        let mut x: u32 = 0;
        proof {
            assert((y + 1) * mask.width <= mask.width * mask.height) by (nonlinear_arith)
                requires
                    y + 1 <= mask.height,
            ;
            assert((y + 1) * mask.width == y * mask.width + mask.width) by (nonlinear_arith);
        }
        while x < mask.width
            invariant
                x <= mask.width,
                y < mask.height,
                y * mask.width + mask.width <= pixels,
                pixels == mask.width * mask.height,
                mask.measurable(),
                is_mask(mask@),
                whole == luminance(mask@).rows,
                rows@ == whole.take(y * mask.width + x),
            decreases mask.width - x,
        {
            let bit: u8 = bit_at(mask, x, y);
            proof {
                let i = y * mask.width + x;
                assert(i / mask.width as int == y && i % mask.width as int == x)
                    by (nonlinear_arith)
                    requires
                        i == y * mask.width + x,
                        0 <= x < mask.width,
                ;
                assert(whole.len() == mask.width * mask.height);
                assert(whole[i] == bit);
                assert(whole.take(i + 1) =~= whole.take(i).push(bit));
            }
            rows.push(bit);
            x += 1;
        }
        y += 1;
        proof {
            assert((y - 1) * mask.width + mask.width == y * mask.width) by (nonlinear_arith);
        }
    }
    proof {
        assert(mask.height * mask.width == mask.width * mask.height) by (nonlinear_arith);
        assert(whole.take(pixels as int) =~= whole);
    }
    let mut palette: Vec<(u8, u8, u8)> = Vec::new();
    palette.push((255, 255, 255));
    palette.push((0, 0, 0));
    let p = Raster {
        width: mask.width,
        height: mask.height,
        bits: 8,
        palette,
        rows,
        stencil: None,
    };
    proof {
        assert(p.palette@ =~= luminance(mask@).palette);
        assert(p@ == luminance(mask@));
    }
    let png = encode(&p);
    proof {
        lemma_one_file(p, choose|q: Raster| q@ == luminance(mask@));
    }
    Some(png)
}

/// Whether an image placement is drawn: an inverting one only as part of a
/// picture that its mask has been recognised for.
pub fn should_draw_source_invert(raster_op: RasterOp, masked: bool) -> (r: bool)
    ensures
        r == (raster_op != RasterOp::SourceInvert || masked),
{
    raster_op != RasterOp::SourceInvert || masked
}

} // verus!
