//! A bitmap stored from the bottom up is the one stored from the top down with
//! its rows in the other order.
use crate::domain::rendering::row_octets;
use crate::infrastructure::dib::{
    bitmap_of, bitmap_rows, direct_pixels, direct_row, header_of, indexed_row, known_depth,
    lemma_sizes, palette_colour, palette_of, rows_present, sane, stored_row, stored_stride, Header,
    BI_RGB, MAX_PIXELS,
};
use crate::infrastructure::octets::{signed32, stacked, u32_of};
use vstd::prelude::*;

verus! {

/// The headers are the same but for the height, which is negative in the
/// second: its rows are stored from the top down.
pub open spec fn is_turned_over(up: Seq<u8>, down: Seq<u8>) -> bool {
    &&& up.len() == down.len()
    &&& forall|i: int| 0 <= i < up.len() && !(8 <= i < 12) ==> #[trigger] up[i] == down[i]
    &&& match (u32_of(up, 8), u32_of(down, 8)) {
        (Some(a), Some(b)) => 0 < signed32(a) && signed32(b) == -signed32(a),
        _ => false,
    }
}

/// The octets are `n` full rows, and the other octets the same rows in the
/// other order.
pub open spec fn are_rows_reversed(bits: Seq<u8>, other: Seq<u8>, stride: int, n: int) -> bool {
    &&& bits.len() == n * stride
    &&& other.len() == n * stride
    &&& forall|y: int, k: int|
        0 <= y < n && 0 <= k < stride ==> #[trigger] at_row(other, stride, y, k) == at_row(
            bits,
            stride,
            n - 1 - y,
            k,
        )
}

/// The octet at `k` of the row at `y`.
pub open spec fn at_row(bits: Seq<u8>, stride: int, y: int, k: int) -> u8 {
    bits[y * stride + k]
}

proof fn lemma_row_within(stride: int, y: int, n: int)
    requires
        0 <= stride,
        0 <= y < n,
    ensures
        0 <= y * stride,
        y * stride + stride <= n * stride,
{
    assert(0 <= y * stride && y * stride + stride <= n * stride) by (nonlinear_arith)
        requires
            0 <= stride,
            0 <= y < n,
    ;
}

proof fn lemma_all_present(h: Header, used: int, n: int, y: int)
    requires
        0 <= stored_stride(h),
        used <= stored_stride(h),
        n == h.height * stored_stride(h),
        y < h.height,
    ensures
        rows_present(h, used, n, y),
{
    assert forall|k: int| 0 <= k <= y implies #[trigger] stored_row(h, k) * stored_stride(h) + used
        <= n by {
        lemma_row_within(stored_stride(h), stored_row(h, k), h.height as int);
    }
}

proof fn lemma_same_pixels(
    h: Header,
    other: Header,
    a: Seq<u8>,
    b: Seq<u8>,
    at: int,
    to: int,
    n: nat,
)
    requires
        h.bits == other.bits,
        h.bits == 16 || h.bits == 24 || h.bits == 32,
        forall|k: int| 0 <= k < n * (h.bits / 8) ==> #[trigger] a[at + k] == b[to + k],
    ensures
        direct_pixels(h, None, a, at, n) == direct_pixels(other, None, b, to, n),
    decreases n,
{
    if n > 0 {
        let size = (h.bits / 8) as int;
        let m = (n - 1) * size;
        assert(n * size == m + size && 0 <= m) by (nonlinear_arith)
            requires
                m == (n - 1) * size,
                0 <= size,
                0 < n,
        ;
        lemma_same_pixels(h, other, a, b, at, to, (n - 1) as nat);
        assert(a[at + m] == b[to + m]);
        assert(a[at + (m + 1)] == b[to + (m + 1)]);
        if h.bits != 16 {
            assert(a[at + (m + 2)] == b[to + (m + 2)]);
        }
    }
}

proof fn lemma_same_stack(f: spec_fn(int) -> Seq<u8>, g: spec_fn(int) -> Seq<u8>, n: nat)
    requires
        forall|y: int| 0 <= y < n ==> #[trigger] f(y) == g(y),
    ensures
        stacked(f, n) == stacked(g, n),
    decreases n,
{
    if n > 0 {
        lemma_same_stack(f, g, (n - 1) as nat);
        assert(f(n - 1) == g(n - 1));
    }
}

proof fn lemma_row_turned(h: Header, other: Header, bits: Seq<u8>, rev: Seq<u8>, y: int)
    requires
        sane(h),
        h.bottom_up,
        other == (Header { bottom_up: false, ..h }),
        are_rows_reversed(bits, rev, stored_stride(h), h.height as int),
        0 <= y < h.height,
    ensures
        h.bits <= 8 ==> indexed_row(h, bits, y) == indexed_row(other, rev, y),
        h.bits > 8 ==> direct_row(h, None, bits, y) == direct_row(other, None, rev, y),
{
    lemma_sizes(h);
    let stride = stored_stride(h);
    let n = h.height as int;
    let from = stored_row(h, y);
    lemma_row_within(stride, from, n);
    lemma_row_within(stride, y, n);
    assert forall|k: int| 0 <= k < stride implies #[trigger] bits[from * stride + k] == rev[y
        * stride + k] by {
        assert(at_row(rev, stride, y, k) == at_row(bits, stride, n - 1 - y, k));
    }
    if h.bits <= 8 {
        let used = row_octets(h.width as int, h.bits as int);
        lemma_all_present(h, used, bits.len() as int, y);
        lemma_all_present(other, used, rev.len() as int, y);
        let a = bits.subrange(from * stride, from * stride + used);
        let b = rev.subrange(y * stride, y * stride + used);
        assert forall|k: int| 0 <= k < used implies a[k] == b[k] by {
            assert(bits[from * stride + k] == rev[y * stride + k]);
        }
        assert(a =~= b);
    } else {
        let used = h.width * (h.bits / 8);
        lemma_all_present(h, used, bits.len() as int, y);
        lemma_all_present(other, used, rev.len() as int, y);
        lemma_same_pixels(h, other, bits, rev, from * stride, y * stride, h.width as nat);
    }
}

proof fn lemma_turned_header(up: Seq<u8>, down: Seq<u8>)
    requires
        is_turned_over(up, down),
    ensures
        match (header_of(up), header_of(down)) {
            (Some(h), Some(other)) => h.bottom_up && other == (Header { bottom_up: false, ..h })
                && palette_of(h, up) == palette_of(other, down) && 0 < h.width && 0 < h.height
                && known_depth(h.bits as int) && 40 <= h.palette_at <= 256,
            (None, None) => true,
            _ => false,
        },
{
    match (header_of(up), header_of(down)) {
        (Some(h), Some(other)) => {
            assert forall|i: int| 0 <= i implies #[trigger] palette_colour(h, up, i)
                == palette_colour(other, down, i) by {
                let at = h.palette_at + 4 * i;
                if i < h.palette_entries && at + 4 <= up.len() {
                    assert(up[at] == down[at] && up[at + 1] == down[at + 1] && up[at + 2] == down[at
                        + 2]);
                }
            }
            assert(palette_of(h, up) =~= palette_of(other, down));
        },
        _ => {},
    }
}

/// A plain bitmap stored from the bottom up decodes to the same picture as one
/// stored from the top down whose rows are in the other order.
pub proof fn law_rows_turned_over(up: Seq<u8>, down: Seq<u8>, bits: Seq<u8>, rev: Seq<u8>)
    requires
        is_turned_over(up, down),
        header_of(up) matches Some(h) ==> h.compression == BI_RGB && are_rows_reversed(
            bits,
            rev,
            stored_stride(h),
            h.height as int,
        ),
    ensures
        bitmap_of(up, bits) == bitmap_of(down, rev),
{
    lemma_turned_header(up, down);
    match (header_of(up), header_of(down)) {
        (Some(h), Some(other)) => {
            if h.width * h.height <= MAX_PIXELS {
                let f = |y: int| indexed_row(h, bits, y);
                let g = |y: int| indexed_row(other, rev, y);
                let df = |y: int| direct_row(h, None, bits, y);
                let dg = |y: int| direct_row(other, None, rev, y);
                assert forall|y: int| 0 <= y < h.height implies (h.bits <= 8 ==> #[trigger] f(y)
                    == g(y)) && (h.bits > 8 ==> df(y) == dg(y)) by {
                    lemma_row_turned(h, other, bits, rev, y);
                }
                if h.bits <= 8 {
                    lemma_same_stack(f, g, h.height as nat);
                } else {
                    assert forall|y: int| 0 <= y < h.height implies #[trigger] df(y) == dg(y) by {
                        assert(f(y) == f(y));
                    }
                    lemma_same_stack(df, dg, h.height as nat);
                }
            }
            assert(bitmap_rows(h, up, bits) == bitmap_rows(other, down, rev));
        },
        _ => {},
    }
}

} // verus!
