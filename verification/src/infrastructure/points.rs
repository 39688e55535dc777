//! The point lists of geometry comments.
use crate::infrastructure::octets::{i16_at, i16_of, i32_at, i32_of, u32_at, u32_of};
use vstd::prelude::*;
use vstd::slice::slice_subrange;

verus! {

/// Absolute 32-bit points.
pub const CODE_I32: u8 = 0x00;

/// Absolute 16-bit points.
pub const CODE_I16: u8 = 0x20;

/// One octet for each delta.
pub const CODE_I8: u8 = 0x40;

/// One octet for each point, a nibble for each delta.
pub const CODE_NIBBLE: u8 = 0x80;

/// The longest list that is read.
pub const MAX_POINTS: u32 = 0x10_0000;

/// An octet as a signed number.
pub open spec fn signed8(b: u8) -> i32 {
    (if b >= 0x80 {
        b - 0x100
    } else {
        b as int
    }) as i32
}

/// Four bits as a signed number.
pub open spec fn signed4(v: int) -> i32 {
    (if v >= 8 {
        v - 16
    } else {
        v
    }) as i32
}

/// The first `n` points when each adds two octets, at `12` and on, to the one
/// before. Sums wrap.
pub open spec fn byte_points(body: Seq<u8>, first: (i32, i32), n: int) -> Seq<(i32, i32)>
    decreases n,
{
    if n <= 1 {
        seq![first]
    } else {
        let before = byte_points(body, first, n - 1);
        let (x, y) = before.last();
        let at = 12 + 2 * (n - 2);
        before.push((x.wrapping_add(signed8(body[at])), y.wrapping_add(signed8(body[at + 1]))))
    }
}

/// A delta at `at`: the nibble itself, or, where it is -8, the octet that
/// follows, or, where wide deltas are read and that octet is -128, the two
/// octets after it. With the offset behind it.
pub open spec fn delta(payload: Seq<u8>, at: int, nibble: i32, wide: bool) -> Option<(i32, int)> {
    if nibble != -8 {
        Some((nibble, at))
    } else if at >= payload.len() {
        None
    } else if wide && payload[at] == 0x80 {
        match i16_of(payload, at + 1) {
            Some(v) => Some((v as i32, at + 3)),
            None => None,
        }
    } else {
        Some((signed8(payload[at]), at + 1))
    }
}

/// The point after `p`, from the octet at `at` and what it calls for; with the
/// offset behind it.
pub open spec fn nibble_point(payload: Seq<u8>, at: int, p: (i32, i32), wide: bool) -> Option<
    ((i32, i32), int),
> {
    if at < 0 || at >= payload.len() {
        None
    } else {
        match delta(payload, at + 1, signed4((payload[at] / 16) as int), wide) {
            None => None,
            Some((dx, next)) => match delta(payload, next, signed4((payload[at] % 16) as int), wide) {
                None => None,
                Some((dy, end)) => Some(((p.0.wrapping_add(dx), p.1.wrapping_add(dy)), end)),
            },
        }
    }
}

/// The first `n` points of a compact list, and the offset behind them.
pub open spec fn nibble_points(payload: Seq<u8>, first: (i32, i32), n: int, wide: bool) -> Option<
    (Seq<(i32, i32)>, int),
>
    decreases n,
{
    if n <= 1 {
        Some((seq![first], 0))
    } else {
        match nibble_points(payload, first, n - 1, wide) {
            None => None,
            Some((before, at)) => match nibble_point(payload, at, before.last(), wide) {
                None => None,
                Some((p, end)) => Some((before.push(p), end)),
            },
        }
    }
}

/// A compact list whose deltas stay within an octet where that uses up the
/// record, and are wide otherwise.
pub open spec fn compact_points(payload: Seq<u8>, first: (i32, i32), n: int) -> Option<
    Seq<(i32, i32)>,
> {
    match nibble_points(payload, first, n, false) {
        None => None,
        Some((narrow, used)) => if used == payload.len() {
            Some(narrow)
        } else {
            match nibble_points(payload, first, n, true) {
                Some((points, used)) => if used == payload.len() {
                    Some(points)
                } else {
                    None
                },
                None => None,
            }
        },
    }
}

/// The points of a geometry comment. The count is followed by the points as
/// 32-bit or 16-bit values, or by the first one as 16-bit values and deltas
/// for the others.
pub open spec fn points_of(body: Seq<u8>) -> Option<Seq<(i32, i32)>> {
    match u32_of(body, 4) {
        None => None,
        Some(n) => {
            let code = body[3];
            if n == 0 || n > MAX_POINTS {
                None
            } else if code == CODE_I32 {
                if 8 + 8 * n > body.len() {
                    None
                } else {
                    Some(
                        Seq::new(
                            n as nat,
                            |i: int| (i32_of(body, 8 + 8 * i)->0, i32_of(body, 12 + 8 * i)->0),
                        ),
                    )
                }
            } else if body.len() < 12 {
                None
            } else {
                let first = (i16_of(body, 8)->0 as i32, i16_of(body, 10)->0 as i32);
                if code == CODE_I16 {
                    if 8 + 4 * n > body.len() {
                        None
                    } else {
                        Some(
                            Seq::new(
                                n as nat,
                                |i: int|
                                    (
                                        i16_of(body, 8 + 4 * i)->0 as i32,
                                        i16_of(body, 10 + 4 * i)->0 as i32,
                                    ),
                            ),
                        )
                    }
                } else if code == CODE_I8 {
                    if 10 + 2 * n > body.len() {
                        None
                    } else {
                        Some(byte_points(body, first, n as int))
                    }
                } else if code == CODE_NIBBLE {
                    compact_points(body.subrange(12, body.len() as int), first, n as int)
                } else {
                    None
                }
            }
        },
    }
}

fn read_signed8(b: u8) -> (v: i32)
    ensures
        v == signed8(b),
{
    if b >= 0x80 {
        b as i32 - 0x100
    } else {
        b as i32
    }
}

fn read_signed4(b: u8) -> (v: i32)
    requires
        b < 16,
    ensures
        v == signed4(b as int),
{
    if b >= 8 {
        b as i32 - 16
    } else {
        b as i32
    }
}

fn read_delta(payload: &[u8], at: usize, nibble: i32, wide: bool) -> (r: Option<(i32, usize)>)
    requires
        at <= payload.len(),
    ensures
        match (r, delta(payload@, at as int, nibble, wide)) {
            (Some((d, n)), Some((e, m))) => d == e && n == m && n <= payload.len(),
            (None, None) => true,
            _ => false,
        },
{
    if nibble != -8 {
        return Some((nibble, at));
    }
    if at >= payload.len() {
        return None;
    }
    let b: u8 = payload[at];
    if wide && b == 0x80 {
        match i16_at(payload, at + 1) {
            Some(v) => Some((v as i32, at + 3)),
            None => None,
        }
    } else {
        Some((read_signed8(b), at + 1))
    }
}

fn decode_nibbles(payload: &[u8], n: usize, first: (i32, i32), wide: bool) -> (r: Option<
    (Vec<(i32, i32)>, usize),
>)
    requires
        n >= 1,
    ensures
        match (r, nibble_points(payload@, first, n as int, wide)) {
            (Some((v, k)), Some((s, m))) => v@ == s && k == m,
            (None, None) => true,
            _ => false,
        },
{
    let mut x: i32 = first.0;
    let mut y: i32 = first.1;
    let mut pts: Vec<(i32, i32)> = Vec::new();
    pts.push((x, y));
    let mut at: usize = 0;
    let mut k: usize = 1;
    proof {
        assert(pts@ =~= seq![first]);
    }
    while k < n
        invariant
            1 <= k <= n,
            at <= payload.len(),
            pts@.len() > 0,
            pts@.last() == (x, y),
            nibble_points(payload@, first, k as int, wide) == Some((pts@, at as int)),
        decreases n - k,
    {
        if at >= payload.len() {
            proof {
                lemma_nibbles_fail(payload@, first, k + 1, n as int, wide);
            }
            return None;
        }
        let b: u8 = payload[at];
        let (dx, next): (i32, usize) = match read_delta(payload, at + 1, read_signed4(b / 16), wide) {
            Some(d) => d,
            None => {
                proof {
                    lemma_nibbles_fail(payload@, first, k + 1, n as int, wide);
                }
                return None;
            },
        };
        let (dy, end): (i32, usize) = match read_delta(payload, next, read_signed4(b % 16), wide) {
            Some(d) => d,
            None => {
                proof {
                    lemma_nibbles_fail(payload@, first, k + 1, n as int, wide);
                }
                return None;
            },
        };
        x = x.wrapping_add(dx);
        y = y.wrapping_add(dy);
        pts.push((x, y));
        at = end;
        k += 1;
    }
    Some((pts, at))
}

proof fn lemma_nibbles_fail(payload: Seq<u8>, first: (i32, i32), k: int, n: int, wide: bool)
    requires
        nibble_points(payload, first, k, wide) is None,
        1 <= k <= n,
    ensures
        nibble_points(payload, first, n, wide) is None,
    decreases n,
{
    if k < n {
        lemma_nibbles_fail(payload, first, k, n - 1, wide);
    }
}

fn read_wide(body: &[u8], n: usize) -> (v: Vec<(i32, i32)>)
    requires
        8 + 8 * n <= body.len(),
    ensures
        v@ == Seq::new(
            n as nat,
            |i: int| (i32_of(body@, 8 + 8 * i)->0, i32_of(body@, 12 + 8 * i)->0),
        ),
{
    let mut v: Vec<(i32, i32)> = Vec::new();
    let mut i: usize = 0;
    while i < n
        invariant
            i <= n,
            8 + 8 * n <= body.len(),
            v@.len() == i,
            forall|k: int|
                0 <= k < i ==> #[trigger] v@[k] == (
                    i32_of(body@, 8 + 8 * k)->0,
                    i32_of(body@, 12 + 8 * k)->0,
                ),
        decreases n - i,
    {
        match (i32_at(body, 8 + 8 * i), i32_at(body, 12 + 8 * i)) {
            (Some(x), Some(y)) => {
                v.push((x, y));
            },
            _ => {},
        }
        i += 1;
    }
    proof {
        assert(v@ =~= Seq::new(
            n as nat,
            |i: int| (i32_of(body@, 8 + 8 * i)->0, i32_of(body@, 12 + 8 * i)->0),
        ));
    }
    v
}

fn read_narrow(body: &[u8], n: usize) -> (v: Vec<(i32, i32)>)
    requires
        8 + 4 * n <= body.len(),
    ensures
        v@ == Seq::new(
            n as nat,
            |i: int| (i16_of(body@, 8 + 4 * i)->0 as i32, i16_of(body@, 10 + 4 * i)->0 as i32),
        ),
{
    let mut v: Vec<(i32, i32)> = Vec::new();
    let mut i: usize = 0;
    while i < n
        invariant
            i <= n,
            8 + 4 * n <= body.len(),
            v@.len() == i,
            forall|k: int|
                0 <= k < i ==> #[trigger] v@[k] == (
                    i16_of(body@, 8 + 4 * k)->0 as i32,
                    i16_of(body@, 10 + 4 * k)->0 as i32,
                ),
        decreases n - i,
    {
        match (i16_at(body, 8 + 4 * i), i16_at(body, 10 + 4 * i)) {
            (Some(x), Some(y)) => {
                v.push((x as i32, y as i32));
            },
            _ => {},
        }
        i += 1;
    }
    proof {
        assert(v@ =~= Seq::new(
            n as nat,
            |i: int| (i16_of(body@, 8 + 4 * i)->0 as i32, i16_of(body@, 10 + 4 * i)->0 as i32),
        ));
    }
    v
}

fn read_bytes(body: &[u8], first: (i32, i32), n: usize) -> (v: Vec<(i32, i32)>)
    requires
        n >= 1,
        10 + 2 * n <= body.len(),
    ensures
        v@ == byte_points(body@, first, n as int),
{
    let mut x: i32 = first.0;
    let mut y: i32 = first.1;
    let mut v: Vec<(i32, i32)> = Vec::new();
    v.push((x, y));
    let mut k: usize = 1;
    proof {
        assert(v@ =~= seq![first]);
    }
    while k < n
        invariant
            1 <= k <= n,
            10 + 2 * n <= body.len(),
            v@.len() > 0,
            v@.last() == (x, y),
            v@ == byte_points(body@, first, k as int),
        decreases n - k,
    {
        let at: usize = 12 + 2 * (k - 1);
        x = x.wrapping_add(read_signed8(body[at]));
        y = y.wrapping_add(read_signed8(body[at + 1]));
        v.push((x, y));
        k += 1;
    }
    v
}

fn read_compact(payload: &[u8], first: (i32, i32), n: usize) -> (r: Option<Vec<(i32, i32)>>)
    requires
        n >= 1,
    ensures
        match (r, compact_points(payload@, first, n as int)) {
            (Some(v), Some(s)) => v@ == s,
            (None, None) => true,
            _ => false,
        },
{
    match decode_nibbles(payload, n, first, false) {
        None => None,
        Some((narrow, used)) => {
            if used == payload.len() {
                return Some(narrow);
            }
            match decode_nibbles(payload, n, first, true) {
                Some((points, used)) => {
                    if used == payload.len() {
                        Some(points)
                    } else {
                        None
                    }
                },
                None => None,
            }
        },
    }
}

/// Decodes the point list of a geometry comment.
pub fn decode_points(body: &[u8]) -> (r: Option<Vec<(i32, i32)>>)
    ensures
        match (r, points_of(body@)) {
            (Some(v), Some(s)) => v@ == s,
            (None, None) => true,
            _ => false,
        },
{
    let n: u32 = match u32_at(body, 4) {
        Some(n) => n,
        None => {
            return None;
        },
    };
    let code: u8 = body[3];
    if n == 0 || n > MAX_POINTS {
        return None;
    }
    let n: usize = n as usize;
    if code == CODE_I32 {
        if 8 + 8 * n > body.len() {
            return None;
        }
        return Some(read_wide(body, n));
    }
    let (x, y): (i16, i16) = match (i16_at(body, 8), i16_at(body, 10)) {
        (Some(x), Some(y)) => (x, y),
        _ => {
            return None;
        },
    };
    let first: (i32, i32) = (x as i32, y as i32);
    if code == CODE_I16 {
        if 8 + 4 * n > body.len() {
            return None;
        }
        return Some(read_narrow(body, n));
    }
    if code == CODE_I8 {
        if 10 + 2 * n > body.len() {
            return None;
        }
        return Some(read_bytes(body, first, n));
    }
    if code == CODE_NIBBLE {
        return read_compact(slice_subrange(body, 12, body.len()), first, n);
    }
    None
}

} // verus!
