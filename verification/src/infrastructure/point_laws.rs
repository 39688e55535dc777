//! The points of a geometry comment come back in each of the ways to write them.
use crate::infrastructure::points::{
    byte_points, delta, nibble_point, nibble_points, points_of, signed8,
};
use crate::infrastructure::writing::{
    lemma_lies_apart, lemma_lies_in_rest, lemma_long_read, lemma_signed_long_read,
    lemma_signed_short_read, lies_at, long, signed_long, signed_short,
};
use vstd::prelude::*;

verus! {

/// The comment starts with three octets, how the points are written, and how
/// many there are.
pub open spec fn starts_list(body: Seq<u8>, code: u8, n: nat) -> bool {
    &&& 1 <= n <= 0x10_0000
    &&& lies_at(body, 3, seq![code])
    &&& lies_at(body, 4, long(n))
}

proof fn lemma_start(body: Seq<u8>, code: u8, n: nat)
    requires
        starts_list(body, code, n),
    ensures
        body[3] == code,
        crate::infrastructure::octets::u32_of(body, 4) == Some(n as u32),
{
    assert(body[3 + 0int] == seq![code][0]);
    lemma_long_read(body, 4, n);
}

/// Points of two numbers of 32 bits each come back.
pub proof fn law_long_points_come_back(body: Seq<u8>, points: Seq<(i32, i32)>)
    requires
        starts_list(body, 0x00, points.len()),
        forall|i: int|
            0 <= i < points.len() ==> lies_at(
                body,
                8 + 8 * i,
                signed_long((#[trigger] points[i]).0 as int) + signed_long(points[i].1 as int),
            ),
    ensures
        points_of(body) == Some(points),
{
    lemma_start(body, 0x00, points.len());
    assert forall|i: int| 0 <= i < points.len() implies (#[trigger] points[i]) == (
        crate::infrastructure::octets::i32_of(body, 8 + 8 * i)->0,
        crate::infrastructure::octets::i32_of(body, 12 + 8 * i)->0,
    ) && 16 + 8 * i <= body.len() by {
        let (x, y) = points[i];
        lemma_lies_apart(body, 8 + 8 * i, signed_long(x as int), signed_long(y as int));
        lemma_signed_long_read(body, 8 + 8 * i, x as int);
        lemma_signed_long_read(body, 12 + 8 * i, y as int);
    }
    let last = points[points.len() - 1];
    assert(points_of(body)->0 =~= points);
}

/// Points of two numbers of 16 bits each come back.
pub proof fn law_short_points_come_back(body: Seq<u8>, points: Seq<(i32, i32)>)
    requires
        starts_list(body, 0x20, points.len()),
        forall|i: int|
            0 <= i < points.len() ==> -0x8000 <= (#[trigger] points[i]).0 < 0x8000 && -0x8000
                <= points[i].1 < 0x8000 && lies_at(
                body,
                8 + 4 * i,
                signed_short(points[i].0 as int) + signed_short(points[i].1 as int),
            ),
    ensures
        points_of(body) == Some(points),
{
    lemma_start(body, 0x20, points.len());
    assert forall|i: int| 0 <= i < points.len() implies (#[trigger] points[i]) == (
        crate::infrastructure::octets::i16_of(body, 8 + 4 * i)->0 as i32,
        crate::infrastructure::octets::i16_of(body, 10 + 4 * i)->0 as i32,
    ) && 12 + 4 * i <= body.len() by {
        let (x, y) = points[i];
        lemma_lies_apart(body, 8 + 4 * i, signed_short(x as int), signed_short(y as int));
        lemma_signed_short_read(body, 8 + 4 * i, x as int);
        lemma_signed_short_read(body, 10 + 4 * i, y as int);
    }
    let first = points[0];
    let last = points[points.len() - 1];
    assert(points_of(body)->0 =~= points);
}

/// A small step as an octet: a negative one stands for itself and 256.
pub open spec fn signed_octet(v: int) -> u8 {
    (if v < 0 {
        v + 256
    } else {
        v
    }) as u8
}

/// How far a point is from the one before.
pub open spec fn across(points: Seq<(i32, i32)>, i: int) -> int {
    points[i].0 - points[i - 1].0
}

pub open spec fn down(points: Seq<(i32, i32)>, i: int) -> int {
    points[i].1 - points[i - 1].1
}

/// The first point stands as two numbers of 16 bits.
pub open spec fn has_first(body: Seq<u8>, points: Seq<(i32, i32)>) -> bool {
    &&& points.len() > 0
    &&& -0x8000 <= points[0].0 < 0x8000
    &&& -0x8000 <= points[0].1 < 0x8000
    &&& lies_at(body, 8, signed_short(points[0].0 as int) + signed_short(points[0].1 as int))
}

proof fn lemma_first_point(body: Seq<u8>, points: Seq<(i32, i32)>)
    requires
        has_first(body, points),
    ensures
        body.len() >= 12,
        crate::infrastructure::octets::i16_of(body, 8)->0 as i32 == points[0].0,
        crate::infrastructure::octets::i16_of(body, 10)->0 as i32 == points[0].1,
{
    let (x, y) = points[0];
    lemma_lies_apart(body, 8, signed_short(x as int), signed_short(y as int));
    lemma_signed_short_read(body, 8, x as int);
    lemma_signed_short_read(body, 10, y as int);
}

proof fn lemma_moved(a: i32, b: i32, d: i32)
    requires
        b - a == d,
    ensures
        a.wrapping_add(d) == b,
{
}

proof fn lemma_octet_steps(body: Seq<u8>, points: Seq<(i32, i32)>, n: int)
    requires
        1 <= n <= points.len(),
        forall|i: int|
            1 <= i < points.len() ==> -128 <= #[trigger] across(points, i) <= 127 && -128 <= down(
                points,
                i,
            ) <= 127 && lies_at(
                body,
                10 + 2 * i,
                seq![signed_octet(across(points, i)), signed_octet(down(points, i))],
            ),
    ensures
        byte_points(body, points[0], n) == points.take(n),
    decreases n,
{
    if n == 1 {
        assert(byte_points(body, points[0], n) =~= points.take(1));
    } else {
        lemma_octet_steps(body, points, n - 1);
        let i = n - 1;
        let (dx, dy) = (across(points, i), down(points, i));
        let pair = seq![signed_octet(dx), signed_octet(dy)];
        assert(lies_at(body, 10 + 2 * i, pair));
        assert(body[10 + 2 * i + 0] == pair[0] && body[10 + 2 * i + 1] == pair[1]);
        lemma_moved(points[i - 1].0, points[i].0, signed8(pair[0]));
        lemma_moved(points[i - 1].1, points[i].1, signed8(pair[1]));
        assert(byte_points(body, points[0], n) =~= points.take(n));
    }
}

/// Points come back from the first and two octets for each step.
pub proof fn law_octet_points_come_back(body: Seq<u8>, points: Seq<(i32, i32)>)
    requires
        starts_list(body, 0x40, points.len()),
        has_first(body, points),
        forall|i: int|
            1 <= i < points.len() ==> -128 <= #[trigger] across(points, i) <= 127 && -128 <= down(
                points,
                i,
            ) <= 127 && lies_at(
                body,
                10 + 2 * i,
                seq![signed_octet(across(points, i)), signed_octet(down(points, i))],
            ),
    ensures
        points_of(body) == Some(points),
{
    lemma_start(body, 0x40, points.len());
    lemma_first_point(body, points);
    let n = points.len() as int;
    lemma_octet_steps(body, points, n);
    assert(points.take(n) =~= points);
    if n > 1 {
        let last = across(points, n - 1);
    }
}

/// A step that a nibble holds, -7 to 7; -8 says that it stands behind.
pub open spec fn nibble_of(v: int) -> int {
    if 0 <= v <= 7 {
        v
    } else if -7 <= v < 0 {
        v + 16
    } else {
        8
    }
}

/// What stands behind the nibbles for a step that does not fit: an octet, or,
/// where steps may be wide and it does not fit one either, `80` and two octets.
pub open spec fn behind(v: int, wide: bool) -> Seq<u8> {
    if -7 <= v <= 7 {
        Seq::empty()
    } else if -128 < v <= 127 || (v == -128 && !wide) {
        seq![signed_octet(v)]
    } else {
        seq![0x80u8] + signed_short(v)
    }
}

pub open spec fn step_octets(dx: int, dy: int, wide: bool) -> Seq<u8> {
    seq![(16 * nibble_of(dx) + nibble_of(dy)) as u8] + (behind(dx, wide) + behind(dy, wide))
}

/// The steps to the points from the second up to the `n`-th.
pub open spec fn steps_octets(points: Seq<(i32, i32)>, n: int, wide: bool) -> Seq<u8>
    decreases n,
{
    if n <= 1 {
        Seq::empty()
    } else {
        steps_octets(points, n - 1, wide) + step_octets(
            across(points, n - 1),
            down(points, n - 1),
            wide,
        )
    }
}

/// Whether a step can be written.
pub open spec fn is_small(v: int, wide: bool) -> bool {
    if wide {
        -0x8000 <= v < 0x8000
    } else {
        -128 <= v < 128
    }
}

proof fn lemma_behind(data: Seq<u8>, at: int, v: int, nibble: i32, wide: bool)
    requires
        is_small(v, wide),
        lies_at(data, at, behind(v, wide)),
        nibble == (if -7 <= v <= 7 {
            v
        } else {
            -8
        }),
    ensures
        delta(data, at, nibble, wide) == Some((v as i32, at + behind(v, wide).len())),
{
    if -7 <= v <= 7 {
    } else if -128 < v <= 127 || (v == -128 && !wide) {
        assert(data[at + 0] == behind(v, wide)[0]);
    } else {
        let mark = seq![0x80u8];
        lemma_lies_apart(data, at, mark, signed_short(v));
        assert(data[at + 0] == mark[0]);
        lemma_signed_short_read(data, at + 1, v);
    }
}

proof fn lemma_step(data: Seq<u8>, at: int, p: (i32, i32), q: (i32, i32), wide: bool)
    requires
        is_small(q.0 - p.0, wide),
        is_small(q.1 - p.1, wide),
        lies_at(data, at, step_octets(q.0 - p.0, q.1 - p.1, wide)),
    ensures
        nibble_point(data, at, p, wide) == Some(
            (q, at + step_octets(q.0 - p.0, q.1 - p.1, wide).len()),
        ),
{
    let (dx, dy) = (q.0 - p.0, q.1 - p.1);
    let head = seq![(16 * nibble_of(dx) + nibble_of(dy)) as u8];
    let (a, b) = (behind(dx, wide), behind(dy, wide));
    lemma_lies_apart(data, at, head, a + b);
    lemma_lies_apart(data, at + 1, a, b);
    assert(data[at + 0] == head[0]);
    assert(data[at] / 16 == nibble_of(dx));
    assert(data[at] % 16 == nibble_of(dy));
    let n = if -7 <= dx <= 7 {
        dx as i32
    } else {
        -8i32
    };
    let m = if -7 <= dy <= 7 {
        dy as i32
    } else {
        -8i32
    };
    lemma_behind(data, at + 1, dx, n, wide);
    lemma_behind(data, at + 1 + a.len(), dy, m, wide);
    lemma_moved(p.0, q.0, dx as i32);
    lemma_moved(p.1, q.1, dy as i32);
}

proof fn lemma_steps(data: Seq<u8>, points: Seq<(i32, i32)>, n: int, wide: bool)
    requires
        1 <= n <= points.len(),
        forall|i: int|
            1 <= i < points.len() ==> is_small(#[trigger] across(points, i), wide) && is_small(
                down(points, i),
                wide,
            ),
        lies_at(data, 0, steps_octets(points, n, wide)),
    ensures
        nibble_points(data, points[0], n, wide) == Some(
            (points.take(n), steps_octets(points, n, wide).len() as int),
        ),
    decreases n,
{
    if n == 1 {
        assert(seq![points[0]] =~= points.take(1));
    } else {
        let i = n - 1;
        let before = steps_octets(points, i, wide);
        let one = step_octets(across(points, i), down(points, i), wide);
        lemma_lies_apart(data, 0, before, one);
        lemma_steps(data, points, n - 1, wide);
        assert(is_small(across(points, i), wide));
        assert(points.take(i).last() == points[i - 1]);
        lemma_step(data, before.len() as int, points[i - 1], points[i], wide);
        assert(points.take(i).push(points[i]) =~= points.take(n));
    }
}

/// Points come back from the first and a nibble for each small step, an octet
/// for each larger one.
pub proof fn law_nibble_points_come_back(body: Seq<u8>, points: Seq<(i32, i32)>)
    requires
        starts_list(body, 0x80, points.len()),
        has_first(body, points),
        forall|i: int|
            1 <= i < points.len() ==> is_small(#[trigger] across(points, i), false) && is_small(
                down(points, i),
                false,
            ),
        lies_at(body, 12, steps_octets(points, points.len() as int, false)),
        body.len() == 12 + steps_octets(points, points.len() as int, false).len(),
    ensures
        points_of(body) == Some(points),
{
    let n = points.len() as int;
    lemma_start(body, 0x80, points.len());
    lemma_first_point(body, points);
    let payload = body.subrange(12, body.len() as int);
    lemma_lies_in_rest(body, 12, 0, steps_octets(points, n, false));
    lemma_steps(payload, points, n, false);
    assert(points.take(n) =~= points);
}

/// Points come back as well where a step takes two octets more, as long as the
/// list, read as if none did, leaves something over.
pub proof fn law_wide_nibble_points_come_back(body: Seq<u8>, points: Seq<(i32, i32)>)
    requires
        starts_list(body, 0x80, points.len()),
        has_first(body, points),
        forall|i: int|
            1 <= i < points.len() ==> is_small(#[trigger] across(points, i), true) && is_small(
                down(points, i),
                true,
            ),
        lies_at(body, 12, steps_octets(points, points.len() as int, true)),
        body.len() == 12 + steps_octets(points, points.len() as int, true).len(),
        nibble_points(
            body.subrange(12, body.len() as int),
            points[0],
            points.len() as int,
            false,
        ) matches Some(read) && read.1 != body.len() - 12,
    ensures
        points_of(body) == Some(points),
{
    let n = points.len() as int;
    lemma_start(body, 0x80, points.len());
    lemma_first_point(body, points);
    let payload = body.subrange(12, body.len() as int);
    lemma_lies_in_rest(body, 12, 0, steps_octets(points, n, true));
    lemma_steps(payload, points, n, true);
    assert(points.take(n) =~= points);
}

} // verus!
