//! What holds of the bitmaps that are cut and turned into masks.
use crate::domain::rendering::RasterModel;
use crate::infrastructure::comments::{as_mask, cropped, row_size};
use vstd::prelude::*;

verus! {

/// The octets of a row.
pub open spec fn row_of(r: RasterModel, y: int) -> Seq<u8> {
    r.rows.subrange(y * row_size(r), y * row_size(r) + row_size(r))
}

/// A part as wide as the bitmap, from a row on and so many rows tall, holds those
/// rows, as far as there are any.
pub proof fn law_part_is_cut_out(r: RasterModel, from: i32, tall: i32)
    requires
        0 <= from < r.height,
        0 < tall,
        0 < r.width < 0x8000_0000,
        r.rows.len() == r.height * row_size(r),
        0 <= row_size(r),
    ensures
        ({
            let c = cropped(r, (0i32, from, r.width as i32, tall));
            &&& c.height == (if from + tall < r.height {
                tall as int
            } else {
                r.height - from
            })
            &&& c.width == r.width
            &&& c.bits == r.bits
            &&& c.palette == r.palette
            &&& c.stencil == r.stencil
            &&& c.rows.len() == c.height * row_size(r)
            &&& forall|y: int| 0 <= y < c.height ==> #[trigger] row_of(c, y) == row_of(r, from + y)
        }),
{
    let c = cropped(r, (0i32, from, r.width as i32, tall));
    let n = row_size(r);
    let end = from + c.height;
    assert(0 <= from * n <= end * n <= r.height * n) by (nonlinear_arith)
        requires
            0 <= from <= end <= r.height,
            0 <= n,
    ;
    assert(end * n - from * n == c.height * n) by (nonlinear_arith)
        requires
            end == from + c.height,
    ;
    assert(from == 0 ==> from * n == 0);
    assert forall|y: int| 0 <= y < c.height implies #[trigger] row_of(c, y) == row_of(
        r,
        from + y,
    ) by {
        assert(0 <= y * n && y * n + n <= c.height * n && (from + y) * n == from * n + y * n)
            by (nonlinear_arith)
            requires
                0 <= y,
                y + 1 <= c.height,
                0 <= n,
        ;
        assert(row_of(c, y) =~= row_of(r, from + y));
    }
}

/// A mask paints a pixel, with a bit of zero, exactly where the bitmap is black.
pub proof fn law_mask_paints_black(r: RasterModel, i: int, weight: int)
    requires
        r.stencil is None,
        r.palette == seq![(0u8, 0u8, 0u8), (255u8, 255u8, 255u8)] || r.palette == seq![
            (255u8, 255u8, 255u8),
            (0u8, 0u8, 0u8),
        ],
        0 <= i < r.rows.len(),
        weight == 1 || weight == 2 || weight == 4 || weight == 8 || weight == 16 || weight == 32
            || weight == 64 || weight == 128,
    ensures
        as_mask(r).rows.len() == r.rows.len(),
        as_mask(r).rows[i] as int / weight % 2 == 0 <==> r.palette[r.rows[i] as int / weight % 2]
            == (0u8, 0u8, 0u8),
        as_mask(r).stencil == Some((0u8, 0u8, 0u8)),
        as_mask(r).width == r.width,
        as_mask(r).height == r.height,
{
    let o = r.rows[i] as int;
    assert((255 - o) / weight % 2 == 1 - o / weight % 2);
}

} // verus!
