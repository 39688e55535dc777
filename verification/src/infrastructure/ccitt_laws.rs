//! What holds of images coded in Group 4: what may follow them, what they
//! measure, and when both ways of reading them agree.
use crate::infrastructure::ccitt::{
    appended, changes_until, image_rows, lemma_step_moves, lemma_word_moves,
    lemma_zeroes_move, mode_from, mode_word, packed_pixels, pair_from, pixel, reference_pair_of,
    right_edge, row_at, row_bytes, row_from, row_step, rows_at, run_at, run_word, uncompressed,
    word_from, zeroes_at, Mode, RowState,
};
use crate::infrastructure::lzh::{bit_at, bits_at, BIT_WEIGHT};
use vstd::prelude::*;

verus! {

// ------------------------------------------------------------ what may follow

proof fn lemma_same_bits(d: Seq<u8>, e: Seq<u8>, p: int, n: nat)
    requires
        0 <= p,
        p + n <= 8 * d.len(),
    ensures
        bits_at(d + e, p, n) == bits_at(d, p, n),
    decreases n,
{
    if n > 0 {
        lemma_same_bits(d, e, p, (n - 1) as nat);
        assert((d + e)[(p + n - 1) / 8] == d[(p + n - 1) / 8]);
    }
}

proof fn lemma_mode_before(d: Seq<u8>, e: Seq<u8>, p: int, len: nat)
    requires
        0 <= p,
        mode_from(d, p, len) is Some,
    ensures
        mode_from(d + e, p, len) == mode_from(d, p, len),
        (mode_from(d, p, len)->0).1 >= p,
    decreases 11 - len,
{
    lemma_same_bits(d, e, p, len);
    if mode_word(len as int, bits_at(d, p, len) as int) is None {
        lemma_mode_before(d, e, p, len + 1);
    }
}

proof fn lemma_word_before(d: Seq<u8>, e: Seq<u8>, p: int, black: bool, len: nat)
    requires
        0 <= p,
        word_from(d, p, black, len) is Some,
    ensures
        word_from(d + e, p, black, len) == word_from(d, p, black, len),
    decreases 14 - len,
{
    lemma_same_bits(d, e, p, len);
    if run_word(black, len as int, bits_at(d, p, len) as int) is None {
        lemma_word_before(d, e, p, black, len + 1);
    }
}

proof fn lemma_run_before(d: Seq<u8>, e: Seq<u8>, p: int, black: bool, total: nat)
    requires
        0 <= p,
        run_at(d, p, black, total) is Some,
    ensures
        run_at(d + e, p, black, total) == run_at(d, p, black, total),
        (run_at(d, p, black, total)->0).1 >= p,
    decreases 8 * d.len() - p,
{
    lemma_word_before(d, e, p, black, 1);
    lemma_word_moves(d, p, black, 1);
    let (run, q) = word_from(d, p, black, 1)->0;
    if total + run <= usize::MAX && run >= 64 {
        lemma_run_before(d, e, q, black, total + run);
    }
}

proof fn lemma_zeroes_before(d: Seq<u8>, e: Seq<u8>, p: int, n: nat)
    requires
        0 <= p,
        zeroes_at(d, p, n) is Some,
    ensures
        zeroes_at(d + e, p, n) == zeroes_at(d, p, n),
    decreases 11 - n,
{
    assert((d + e)[p / 8] == d[p / 8]);
    if bit_at(d, p) != 1 {
        lemma_zeroes_before(d, e, p + 1, n + 1);
    }
}

proof fn lemma_uncompressed_before(
    d: Seq<u8>,
    e: Seq<u8>,
    s: RowState,
    width: int,
    relaxed: bool,
)
    requires
        0 <= s.p,
        uncompressed(d, s, width, relaxed) is Some,
    ensures
        uncompressed(d + e, s, width, relaxed) == uncompressed(d, s, width, relaxed),
    decreases 8 * d.len() - s.p,
{
    lemma_zeroes_before(d, e, s.p, 0);
    lemma_zeroes_move(d, s.p, 0);
    let (z, q) = zeroes_at(d, s.p, 0)->0;
    let at = RowState { p: q, ..s };
    if z >= 6 {
        assert((d + e)[q / 8] == d[q / 8]);
    } else {
        let more = if z == 5 {
            appended(at, true, 5, width, relaxed)
        } else {
            match appended(at, true, z as int, width, relaxed) {
                None => None,
                Some(t) => appended(t, false, 1, width, relaxed),
            }
        };
        let t = more->0;
        assert(t.p == q);
        if !(t.a0 >= width && !relaxed) {
            lemma_uncompressed_before(d, e, t, width, relaxed);
        }
    }
}

proof fn lemma_step_before(
    d: Seq<u8>,
    e: Seq<u8>,
    width: int,
    reference: Seq<int>,
    relaxed: bool,
    s: RowState,
)
    requires
        0 <= s.p,
        row_step(d, width, reference, relaxed, s) is Some,
    ensures
        row_step(d + e, width, reference, relaxed, s) == row_step(
            d,
            width,
            reference,
            relaxed,
            s,
        ),
{
    lemma_mode_before(d, e, s.p, 1);
    let (mode, q) = mode_from(d, s.p, 1)->0;
    match mode {
        Mode::Horizontal => {
            lemma_run_before(d, e, q, !s.white, 0);
            lemma_run_before(d, e, (run_at(d, q, !s.white, 0)->0).1, s.white, 0);
        },
        Mode::Uncompressed => {
            lemma_uncompressed_before(d, e, RowState { p: q, ..s }, width, relaxed);
        },
        _ => {},
    }
}

proof fn lemma_row_before(
    d: Seq<u8>,
    e: Seq<u8>,
    width: int,
    reference: Seq<int>,
    relaxed: bool,
    s: RowState,
)
    requires
        0 <= s.p,
        row_from(d, width, reference, relaxed, s) is Some,
    ensures
        row_from(d + e, width, reference, relaxed, s) == row_from(
            d,
            width,
            reference,
            relaxed,
            s,
        ),
        (row_from(d, width, reference, relaxed, s)->0).1 >= s.p,
    decreases 8 * d.len() - s.p,
{
    if s.a0 < width {
        lemma_step_moves(d, width, reference, relaxed, s);
        lemma_step_before(d, e, width, reference, relaxed, s);
        let t = row_step(d, width, reference, relaxed, s)->0;
        lemma_row_before(d, e, width, reference, relaxed, t);
    }
}

proof fn lemma_rows_before(
    d: Seq<u8>,
    e: Seq<u8>,
    p: int,
    width: int,
    reference: Seq<int>,
    relaxed: bool,
    n: nat,
)
    requires
        0 <= p,
        rows_at(d, p, width, reference, relaxed, n) is Some,
    ensures
        rows_at(d + e, p, width, reference, relaxed, n) == rows_at(
            d,
            p,
            width,
            reference,
            relaxed,
            n,
        ),
    decreases n,
{
    if n > 0 {
        lemma_row_before(
            d,
            e,
            width,
            reference,
            relaxed,
            RowState { p, a0: 0, white: true, changes: Seq::empty() },
        );
        let (changes, q) = row_at(d, p, width, reference, relaxed)->0;
        lemma_rows_before(d, e, q, width, changes, relaxed, (n - 1) as nat);
    }
}

/// Whatever follows the declared rows is ignored.
pub proof fn law_rest_is_ignored(
    d: Seq<u8>,
    e: Seq<u8>,
    width: u32,
    height: u32,
    relaxed: bool,
)
    ensures
        image_rows(d, width, height, relaxed) is Some ==> image_rows(d + e, width, height, relaxed)
            == image_rows(d, width, height, relaxed),
{
    if image_rows(d, width, height, relaxed) is Some {
        lemma_rows_before(d, e, 0, width as int, Seq::empty(), relaxed, height as nat);
    }
}

// ------------------------------------------------------------- what they measure

/// Every bit past the last column is zero.
pub open spec fn is_padded(rows: Seq<u8>, width: int, n: int) -> bool {
    let stride = (width + 7) / 8;
    forall|y: int, x: int|
        0 <= y < n && width <= x < 8 * stride ==> #[trigger] column(rows, stride, y, x) == 0
}

/// The pixel of a packed image.
pub open spec fn column(rows: Seq<u8>, stride: int, y: int, x: int) -> nat {
    bit_at(rows, 8 * (stride * y) + x)
}

/// A bit of a packed octet is the pixel that was packed there.
pub proof fn lemma_packed_bit(changes: Seq<int>, width: int, x: int, k: int)
    requires
        0 <= k < 8,
    ensures
        packed_pixels(changes, width, x, 8) <= 255,
        ((packed_pixels(changes, width, x, 8) as u8) / BIT_WEIGHT@[k] % 2) as nat == pixel(
            changes,
            width,
            x + k,
        ),
{
    reveal_with_fuel(packed_pixels, 9);
    let v = packed_pixels(changes, width, x, 8);
    let a = pixel(changes, width, x);
    let b = pixel(changes, width, x + 1);
    let c = pixel(changes, width, x + 2);
    let d = pixel(changes, width, x + 3);
    let e = pixel(changes, width, x + 4);
    let f = pixel(changes, width, x + 5);
    let g = pixel(changes, width, x + 6);
    let h = pixel(changes, width, x + 7);
    assert(v == 128 * a + 64 * b + 32 * c + 16 * d + 8 * e + 4 * f + 2 * g + h);
    assert(v / 128 % 2 == a);
    assert(v / 64 % 2 == b);
    assert(v / 32 % 2 == c);
    assert(v / 16 % 2 == d);
    assert(v / 8 % 2 == e);
    assert(v / 4 % 2 == f);
    assert(v / 2 % 2 == g);
    assert(v % 2 == h);
    let w = BIT_WEIGHT@[k];
    assert(k == 0 ==> w == 128);
    assert(k == 1 ==> w == 64);
    assert(k == 2 ==> w == 32);
    assert(k == 3 ==> w == 16);
    assert(k == 4 ==> w == 8);
    assert(k == 5 ==> w == 4);
    assert(k == 6 ==> w == 2);
    assert(k == 7 ==> w == 1);
}

proof fn lemma_rows_padded(
    data: Seq<u8>,
    p: int,
    width: int,
    reference: Seq<int>,
    relaxed: bool,
    n: nat,
)
    requires
        0 < width,
    ensures
        rows_at(data, p, width, reference, relaxed, n) matches Some(rows) ==> rows.len() == ((width
            + 7) / 8) * n && is_padded(rows, width, n as int),
    decreases n,
{
    let stride = (width + 7) / 8;
    if n == 0 {
        assert(stride * 0 == 0);
    } else if rows_at(data, p, width, reference, relaxed, n) is Some {
        let (changes, q) = row_at(data, p, width, reference, relaxed)->0;
        let first = row_bytes(changes, width);
        let rest = rows_at(data, q, width, changes, relaxed, (n - 1) as nat)->0;
        let rows = first + rest;
        lemma_rows_padded(data, q, width, changes, relaxed, (n - 1) as nat);
        assert(stride + stride * (n - 1) == stride * n) by (nonlinear_arith);
        assert forall|y: int, x: int| 0 <= y < n && width <= x < 8 * stride implies
            #[trigger] column(rows, stride, y, x) == 0 by {
            if y == 0 {
                assert(stride * 0 == 0);
                let b = x / 8;
                assert(rows[b] == first[b]);
                lemma_packed_bit(changes, width, 8 * b, x % 8);
                assert(8 * b + x % 8 == x);
            } else {
                assert(stride * y == stride + stride * (y - 1)) by (nonlinear_arith);
                assert(0 <= stride * (y - 1) && stride * (y - 1) + stride <= stride * (n - 1))
                    by (nonlinear_arith)
                    requires
                        0 <= stride,
                        1 <= y < n,
                ;
                let at = 8 * (stride * (y - 1)) + x;
                assert(8 * (stride * y) + x == 8 * stride + at);
                assert((8 * stride + at) / 8 == stride + at / 8);
                assert((8 * stride + at) % 8 == at % 8);
                assert(rows[stride + at / 8] == rest[at / 8]);
                assert(column(rest, stride, y - 1, x) == 0);
            }
        }
    }
}

/// A decoded image has the octets that its size asks for, and every bit past
/// its last column is zero.
pub proof fn law_image_measures(data: Seq<u8>, width: u32, height: u32, relaxed: bool)
    ensures
        image_rows(data, width, height, relaxed) matches Some(rows) ==> rows.len() == ((width + 7)
            / 8) * height && is_padded(rows, width as int, height as int),
{
    if image_rows(data, width, height, relaxed) is Some {
        lemma_rows_padded(data, 0, width as int, Seq::empty(), relaxed, height as nat);
    }
}

// ------------------------------------------------------------ two ways to read

/// No stretch of the row uses the uncompressed extension.
pub open spec fn is_plain_row(data: Seq<u8>, width: int, reference: Seq<int>, s: RowState) -> bool
    decreases 8 * data.len() - s.p,
{
    if s.a0 >= width {
        true
    } else {
        proof {
            lemma_step_moves(data, width, reference, false, s);
        }
        (match mode_from(data, s.p, 1) {
            Some((Mode::Uncompressed, _)) => false,
            _ => true,
        }) && (match row_step(data, width, reference, false, s) {
            None => true,
            Some(t) => is_plain_row(data, width, reference, t),
        })
    }
}

/// None of `n` rows from `p` on uses the uncompressed extension.
pub open spec fn are_plain_rows(
    data: Seq<u8>,
    p: int,
    width: int,
    reference: Seq<int>,
    n: nat,
) -> bool
    decreases n,
{
    n == 0 || (is_plain_row(
        data,
        width,
        reference,
        RowState { p, a0: 0, white: true, changes: Seq::empty() },
    ) && (match row_at(data, p, width, reference, false) {
        None => true,
        Some((changes, q)) => are_plain_rows(data, q, width, changes, (n - 1) as nat),
    }))
}

/// The change at place `i`, or the right edge.
spec fn change_at(s: Seq<int>, i: int, width: int) -> int {
    if 0 <= i < s.len() {
        s[i]
    } else {
        width
    }
}

/// The changes are within the row, and the same but for those at its edge.
spec fn alike(a: Seq<int>, b: Seq<int>, width: int) -> bool {
    &&& forall|i: int| 0 <= i ==> #[trigger] change_at(a, i, width) == change_at(b, i, width)
    &&& forall|i: int| 0 <= i ==> #[trigger] change_at(a, i, width) <= width
}

proof fn lemma_alike_pair(a: Seq<int>, b: Seq<int>, width: int, a0: int, i: int)
    requires
        alike(a, b, width),
        0 <= a0 < width,
        0 <= i,
    ensures
        pair_from(a, a0, i, width) == pair_from(b, a0, i, width),
    decreases a.len() + b.len() + 1 - i,
{
    assert(change_at(a, i, width) == change_at(b, i, width));
    assert(change_at(a, i + 1, width) == change_at(b, i + 1, width));
    if i < a.len() || i < b.len() {
        lemma_alike_pair(a, b, width, a0, i + 2);
    }
}

proof fn lemma_alike_reference(a: Seq<int>, b: Seq<int>, width: int, a0: int, white: bool)
    requires
        alike(a, b, width),
        0 <= a0 < width,
    ensures
        reference_pair_of(a, a0, white, width) == reference_pair_of(b, a0, white, width),
{
    assert(a.len() > 0 ==> change_at(a, a.len() - 1, width) <= width);
    assert(b.len() > 0 ==> change_at(a, b.len() - 1, width) == change_at(b, b.len() - 1, width));
    assert(right_edge(a, width) == width);
    assert(right_edge(b, width) == width);
    lemma_alike_pair(
        a,
        b,
        width,
        a0,
        if white {
            0
        } else {
            1
        },
    );
}

proof fn lemma_alike_until(a: Seq<int>, b: Seq<int>, width: int, x: int)
    requires
        alike(a, b, width),
        x < width,
    ensures
        changes_until(a, x) == changes_until(b, x),
    decreases a.len() + b.len(),
{
    if a.len() < b.len() {
        let last = b.len() - 1;
        assert(change_at(a, last, width) == change_at(b, last, width));
        let less = b.drop_last();
        assert forall|i: int| 0 <= i implies #[trigger] change_at(a, i, width) == change_at(
            less,
            i,
            width,
        ) by {
            assert(change_at(a, i, width) == change_at(b, i, width));
        }
        lemma_alike_until(a, less, width, x);
    } else if b.len() < a.len() {
        let last = a.len() - 1;
        assert(change_at(a, last, width) == change_at(b, last, width));
        let less = a.drop_last();
        assert forall|i: int| 0 <= i implies #[trigger] change_at(less, i, width) == change_at(
            b,
            i,
            width,
        ) && change_at(less, i, width) <= width by {
            assert(change_at(a, i, width) == change_at(b, i, width));
        }
        lemma_alike_until(less, b, width, x);
    } else {
        assert forall|i: int| 0 <= i < a.len() implies a[i] == b[i] by {
            assert(change_at(a, i, width) == change_at(b, i, width));
        }
        assert(a =~= b);
    }
}

proof fn lemma_alike_pixels(a: Seq<int>, b: Seq<int>, width: int, x: int, n: nat)
    requires
        alike(a, b, width),
    ensures
        packed_pixels(a, width, x, n) == packed_pixels(b, width, x, n),
    decreases n,
{
    if n > 0 {
        lemma_alike_pixels(a, b, width, x, (n - 1) as nat);
        if x + n - 1 < width {
            lemma_alike_until(a, b, width, x + n - 1);
        }
    }
}

proof fn lemma_alike_bytes(a: Seq<int>, b: Seq<int>, width: int)
    requires
        alike(a, b, width),
    ensures
        row_bytes(a, width) == row_bytes(b, width),
{
    assert forall|k: int| 0 <= k < row_bytes(a, width).len() implies row_bytes(a, width)[k]
        == row_bytes(b, width)[k] by {
        lemma_alike_pixels(a, b, width, 8 * k, 8);
    }
    assert(row_bytes(a, width) =~= row_bytes(b, width));
}

/// The changes of a row that reached its edge.
spec fn closed(s: RowState, width: int) -> Seq<int> {
    if s.changes.len() == 0 || s.changes.last() < width {
        s.changes.push(width)
    } else {
        s.changes
    }
}

/// Changes within the row, with more of them at its edge.
proof fn lemma_edges_alike(c: Seq<int>, a: Seq<int>, b: Seq<int>, width: int)
    requires
        forall|i: int| 0 <= i < c.len() ==> #[trigger] c[i] <= width,
        a == c || a == c.push(width) || a == c.push(width).push(width),
        b == c || b == c.push(width) || b == c.push(width).push(width),
    ensures
        alike(a, b, width),
{
}

/// One mode of a row, read in both ways: the same, or the row ends in both.
proof fn lemma_step_both(data: Seq<u8>, width: int, strict: Seq<int>, loose: Seq<int>, s: RowState)
    requires
        alike(strict, loose, width),
        0 <= s.a0 < width,
        forall|i: int| 0 <= i < s.changes.len() ==> #[trigger] s.changes[i] <= width,
        !(mode_from(data, s.p, 1) matches Some((Mode::Uncompressed, _))),
        row_step(data, width, strict, false, s) is Some,
    ensures
        row_step(data, width, loose, true, s) is Some,
        ({
            let t = row_step(data, width, strict, false, s)->0;
            let u = row_step(data, width, loose, true, s)->0;
            &&& t.p == u.p && t.a0 == u.a0 && t.white == u.white
            &&& 0 <= t.a0 <= width
            &&& if t.a0 < width {
                &&& t.changes == u.changes
                &&& forall|i: int| 0 <= i < t.changes.len() ==> #[trigger] t.changes[i] <= width
            } else {
                alike(closed(t, width), closed(u, width), width)
            }
        }),
{
    lemma_alike_reference(strict, loose, width, s.a0, s.white);
    let (mode, q) = mode_from(data, s.p, 1)->0;
    let t = row_step(data, width, strict, false, s)->0;
    let u = row_step(data, width, loose, true, s)->0;
    let c = s.changes;
    match mode {
        Mode::Pass => {
            if t.a0 >= width {
                lemma_edges_alike(c, closed(t, width), closed(u, width), width);
            }
        },
        Mode::Horizontal => {
            let first = (run_at(data, q, !s.white, 0)->0).0;
            let a1 = s.a0 + first;
            if t.a0 >= width {
                if a1 < width {
                    lemma_edges_alike(
                        c.push(a1),
                        closed(t, width),
                        closed(u, width),
                        width,
                    );
                } else {
                    lemma_edges_alike(c, closed(t, width), closed(u, width), width);
                }
            }
        },
        Mode::Vertical(delta) => {
            if t.a0 >= width {
                lemma_edges_alike(c, closed(t, width), closed(u, width), width);
            }
        },
        Mode::Uncompressed => {},
    }
}

proof fn lemma_row_both(data: Seq<u8>, width: int, strict: Seq<int>, loose: Seq<int>, s: RowState)
    requires
        alike(strict, loose, width),
        0 <= s.a0 < width,
        forall|i: int| 0 <= i < s.changes.len() ==> #[trigger] s.changes[i] <= width,
        is_plain_row(data, width, strict, s),
        row_from(data, width, strict, false, s) is Some,
    ensures
        row_from(data, width, loose, true, s) is Some,
        ({
            let (a, p) = row_from(data, width, strict, false, s)->0;
            let (b, q) = row_from(data, width, loose, true, s)->0;
            p == q && alike(a, b, width)
        }),
    decreases 8 * data.len() - s.p,
{
    lemma_step_moves(data, width, strict, false, s);
    lemma_step_both(data, width, strict, loose, s);
    let t = row_step(data, width, strict, false, s)->0;
    let u = row_step(data, width, loose, true, s)->0;
    if t.a0 < width {
        assert(t == u);
        lemma_row_both(data, width, strict, loose, t);
    } else {
        assert(row_from(data, width, strict, false, t) == Some((closed(t, width), t.p)));
        assert(row_from(data, width, loose, true, u) == Some((closed(u, width), u.p)));
    }
}

proof fn lemma_rows_both(
    data: Seq<u8>,
    p: int,
    width: int,
    strict: Seq<int>,
    loose: Seq<int>,
    n: nat,
)
    requires
        0 < width,
        alike(strict, loose, width),
        are_plain_rows(data, p, width, strict, n),
        rows_at(data, p, width, strict, false, n) is Some,
    ensures
        rows_at(data, p, width, loose, true, n) == rows_at(data, p, width, strict, false, n),
    decreases n,
{
    if n > 0 {
        lemma_row_both(
            data,
            width,
            strict,
            loose,
            RowState { p, a0: 0, white: true, changes: Seq::empty() },
        );
        let (a, q) = row_at(data, p, width, strict, false)->0;
        let (b, r) = row_at(data, p, width, loose, true)->0;
        lemma_alike_bytes(a, b, width);
        lemma_rows_both(data, q, width, a, b, (n - 1) as nat);
    }
}

/// An image that can be read strictly, and whose rows do without the
/// uncompressed extension, reads the same where stray changes are tolerated.
pub proof fn law_readings_agree(data: Seq<u8>, width: u32, height: u32)
    requires
        are_plain_rows(data, 0, width as int, Seq::empty(), height as nat),
    ensures
        image_rows(data, width, height, false) matches Some(rows) ==> image_rows(
            data,
            width,
            height,
            true,
        ) == Some(rows),
{
    if image_rows(data, width, height, false) is Some {
        lemma_rows_both(data, 0, width as int, Seq::empty(), Seq::empty(), height as nat);
    }
}

} // verus!
