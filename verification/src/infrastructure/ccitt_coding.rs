//! Group 4 images as they are written, and what is read of them.
use crate::infrastructure::ccitt::{
    changes_until, image_rows, mode_from, mode_word, pair_from, right_edge, row_at, row_bytes,
    row_from, row_step, rows_at, Mode, RowState,
};
use crate::infrastructure::ccitt_laws::lemma_packed_bit;
use crate::infrastructure::ccitt_words::{is_run, lemma_prefix_read, lemma_run_read, run_bits};
use crate::infrastructure::lzh::{bit_at, bits_at};
use crate::infrastructure::spelling::{
    binary, is_one, lemma_is_one, lemma_stand_apart, stand_in,
};
use vstd::arithmetic::power2::{lemma2_to64, pow2};
use vstd::prelude::*;

verus! {

// -------------------------------------------------------------------- the rows

/// The colour turns at `x`: the pixel there is not that of its left neighbour.
/// In front of the row everything is white.
pub open spec fn turns(row: Seq<bool>, x: int) -> bool {
    0 <= x < row.len() && row[x] != (x > 0 && row[x - 1])
}

/// The first turn from `x` on, or the right edge.
pub open spec fn turn_from(row: Seq<bool>, x: int) -> int
    decreases row.len() - x,
{
    if x >= row.len() {
        row.len() as int
    } else if turns(row, x) {
        x
    } else {
        turn_from(row, x + 1)
    }
}

/// The first turn to a colour from `x` on, or the right edge.
pub open spec fn turn_to(row: Seq<bool>, black: bool, x: int) -> int
    decreases row.len() - x,
{
    if x >= row.len() {
        row.len() as int
    } else if turns(row, x) && row[x] == black {
        x
    } else {
        turn_to(row, black, x + 1)
    }
}

/// How the next stretch of a row is written: nothing turns as far as both turns
/// above; two runs; or a turn so far to the right of the one above.
pub enum Step {
    Pass,
    Runs { first: Seq<int>, second: Seq<int> },
    Shifted(int),
}

/// The step is right where all up to `at` is written and the colour is white or
/// not; `at` is -1 in front of a row.
pub open spec fn is_step(cur: Seq<bool>, above: Seq<bool>, at: int, white: bool, s: Step) -> bool {
    let a1 = turn_from(cur, at + 1);
    let a2 = turn_from(cur, a1 + 1);
    let b1 = turn_to(above, white, at + 1);
    let b2 = turn_from(above, b1 + 1);
    match s {
        Step::Pass => b2 < a1,
        Step::Runs { first, second } => is_run(
            first,
            if at < 0 {
                a1
            } else {
                a1 - at
            },
        ) && is_run(second, a2 - a1),
        Step::Shifted(k) => -3 <= k <= 3 && a1 == b1 + k,
    }
}

/// Where the row is written up to after the step.
pub open spec fn step_end(cur: Seq<bool>, above: Seq<bool>, at: int, white: bool, s: Step) -> int {
    let a1 = turn_from(cur, at + 1);
    match s {
        Step::Pass => turn_from(above, turn_to(above, white, at + 1) + 1),
        Step::Runs { first, second } => turn_from(cur, a1 + 1),
        Step::Shifted(k) => a1,
    }
}

/// A step as it is written.
pub open spec fn step_bits(white: bool, s: Step) -> Seq<bool> {
    match s {
        Step::Pass => binary(0b0001, 4),
        Step::Runs { first, second } => binary(0b001, 3) + (run_bits(!white, first) + run_bits(
            white,
            second,
        )),
        Step::Shifted(k) => if k == 0 {
            binary(0b1, 1)
        } else if k == 1 {
            binary(0b011, 3)
        } else if k == 2 {
            binary(0b000011, 6)
        } else if k == 3 {
            binary(0b0000011, 7)
        } else if k == -1 {
            binary(0b010, 3)
        } else if k == -2 {
            binary(0b000010, 6)
        } else {
            binary(0b0000010, 7)
        },
    }
}

/// The colour after the step.
pub open spec fn step_colour(white: bool, s: Step) -> bool {
    if s is Shifted {
        !white
    } else {
        white
    }
}

/// The steps are right one after another, and reach the right edge.
pub open spec fn are_steps(
    cur: Seq<bool>,
    above: Seq<bool>,
    at: int,
    white: bool,
    steps: Seq<Step>,
) -> bool
    decreases steps.len(),
{
    if steps.len() == 0 {
        at >= cur.len()
    } else {
        &&& at < cur.len()
        &&& is_step(cur, above, at, white, steps[0])
        &&& are_steps(
            cur,
            above,
            step_end(cur, above, at, white, steps[0]),
            step_colour(white, steps[0]),
            steps.drop_first(),
        )
    }
}

pub open spec fn steps_bits(white: bool, steps: Seq<Step>) -> Seq<bool>
    decreases steps.len(),
{
    if steps.len() == 0 {
        Seq::empty()
    } else {
        step_bits(white, steps[0]) + steps_bits(step_colour(white, steps[0]), steps.drop_first())
    }
}

// ------------------------------------------------------------------- the modes

proof fn lemma_mode_read(data: Seq<u8>, p: int, v: nat, n: nat, m: Mode)
    requires
        stand_in(data, p, binary(v, n)),
        1 <= n <= 7,
        v < pow2(n),
        mode_word(n as int, v as int) == Some(m),
    ensures
        mode_from(data, p, 1) == Some((m, p + n)),
{
    lemma2_to64();
    lemma_prefix_read(data, p, v, n, 1);
    if n >= 2 {
        lemma_prefix_read(data, p, v, n, 2);
    }
    if n >= 3 {
        lemma_prefix_read(data, p, v, n, 3);
    }
    if n >= 4 {
        lemma_prefix_read(data, p, v, n, 4);
    }
    if n >= 5 {
        lemma_prefix_read(data, p, v, n, 5);
    }
    if n >= 6 {
        lemma_prefix_read(data, p, v, n, 6);
    }
    if n >= 7 {
        lemma_prefix_read(data, p, v, n, 7);
    }
    reveal_with_fuel(mode_from, 8);
    if n == 1 {
        assert(v / 1 == v);
    } else if n == 3 {
        assert(v == 1 || v == 2 || v == 3);
        assert(bits_at(data, p, 1) == v / 4);
        assert(bits_at(data, p, 2) == v / 2);
        assert(bits_at(data, p, 3) == v);
    } else if n == 4 {
        assert(v == 1);
        assert(bits_at(data, p, 1) == v / 8);
        assert(bits_at(data, p, 2) == v / 4);
        assert(bits_at(data, p, 3) == v / 2);
        assert(bits_at(data, p, 4) == v);
    } else if n == 6 {
        assert(v == 2 || v == 3);
        assert(bits_at(data, p, 1) == v / 32);
        assert(bits_at(data, p, 2) == v / 16);
        assert(bits_at(data, p, 3) == v / 8);
        assert(bits_at(data, p, 4) == v / 4);
        assert(bits_at(data, p, 5) == v / 2);
        assert(bits_at(data, p, 6) == v);
    } else {
        assert(n == 7);
        assert(v == 2 || v == 3);
        assert(bits_at(data, p, 1) == v / 64);
        assert(bits_at(data, p, 2) == v / 32);
        assert(bits_at(data, p, 3) == v / 16);
        assert(bits_at(data, p, 4) == v / 8);
        assert(bits_at(data, p, 5) == v / 4);
        assert(bits_at(data, p, 6) == v / 2);
        assert(bits_at(data, p, 7) == v);
    }
}

// ------------------------------------------------------------------- the turns

/// The turns in front of `x`, in order.
spec fn turn_list(row: Seq<bool>, x: int) -> Seq<int>
    decreases x,
{
    if x <= 0 {
        Seq::empty()
    } else if turns(row, x - 1) {
        turn_list(row, x - 1).push(x - 1)
    } else {
        turn_list(row, x - 1)
    }
}

proof fn lemma_turn_list(row: Seq<bool>, x: int)
    requires
        0 <= x <= row.len(),
    ensures
        (turn_list(row, x).len() % 2 == 1) == (x > 0 && row[x - 1]),
        forall|i: int|
            0 <= i < turn_list(row, x).len() ==> {
                let t = #[trigger] turn_list(row, x)[i];
                0 <= t < x && turns(row, t) && turn_list(row, t).len() == i
            },
    decreases x,
{
    if x > 0 {
        lemma_turn_list(row, x - 1);
    }
}

/// The lists agree as far as the shorter one goes.
proof fn lemma_turn_list_grows(row: Seq<bool>, x: int, y: int)
    requires
        0 <= x <= y,
    ensures
        turn_list(row, x).len() <= turn_list(row, y).len(),
        turn_list(row, y).take(turn_list(row, x).len() as int) == turn_list(row, x),
    decreases y,
{
    if x < y {
        lemma_turn_list_grows(row, x, y - 1);
        let a = turn_list(row, x);
        assert(turn_list(row, y).take(a.len() as int) =~= turn_list(row, y - 1).take(
            a.len() as int,
        ));
    } else {
        assert(turn_list(row, y).take(turn_list(row, x).len() as int) =~= turn_list(row, x));
    }
}

/// A turn stands in the list behind those in front of it.
proof fn lemma_turn_place(row: Seq<bool>, t: int, y: int)
    requires
        0 <= t < y,
        turns(row, t),
    ensures
        turn_list(row, t).len() < turn_list(row, y).len(),
        turn_list(row, y)[turn_list(row, t).len() as int] == t,
{
    lemma_turn_list_grows(row, t + 1, y);
    let k = turn_list(row, t).len() as int;
    assert(turn_list(row, t + 1)[k] == t);
    assert(turn_list(row, y).take(k + 1)[k] == turn_list(row, y)[k]);
}

proof fn lemma_turn_from(row: Seq<bool>, x: int)
    requires
        0 <= x <= row.len(),
    ensures
        x <= turn_from(row, x) <= row.len(),
        turn_from(row, x) < row.len() ==> turns(row, turn_from(row, x)),
        turn_list(row, turn_from(row, x)) == turn_list(row, x),
    decreases row.len() - x,
{
    if x < row.len() && !turns(row, x) {
        lemma_turn_from(row, x + 1);
    }
}

proof fn lemma_turn_from_edge(row: Seq<bool>, x: int)
    requires
        x >= row.len(),
    ensures
        turn_from(row, x) == row.len(),
        turn_to(row, true, x) == row.len(),
        turn_to(row, false, x) == row.len(),
{
}

/// No turn to the colour stands between `x` and the first.
proof fn lemma_turn_to(row: Seq<bool>, black: bool, x: int)
    requires
        0 <= x <= row.len(),
    ensures
        x <= turn_to(row, black, x) <= row.len(),
        turn_to(row, black, x) < row.len() ==> turns(row, turn_to(row, black, x)) && row[turn_to(
            row,
            black,
            x,
        )] == black,
        forall|t: int|
            x <= t < turn_to(row, black, x) ==> !(#[trigger] turns(row, t) && row[t] == black),
    decreases row.len() - x,
{
    if x < row.len() && !(turns(row, x) && row[x] == black) {
        lemma_turn_to(row, black, x + 1);
        assert forall|t: int| x <= t < turn_to(row, black, x) implies !(#[trigger] turns(row, t)
            && row[t] == black) by {
            if t > x {
            }
        }
    }
}

/// The list is that of the row's turns, with the right edge any number of times
/// behind them.
spec fn reads_as(list: Seq<int>, row: Seq<bool>) -> bool {
    let all = turn_list(row, row.len() as int);
    &&& all.len() <= list.len()
    &&& list.take(all.len() as int) == all
    &&& forall|i: int| all.len() <= i < list.len() ==> #[trigger] list[i] == row.len()
}

/// The change at `i` of such a list.
proof fn lemma_list_at(list: Seq<int>, row: Seq<bool>, i: int)
    requires
        reads_as(list, row),
        0 <= i < list.len(),
    ensures
        0 <= list[i] <= row.len(),
        list[i] < row.len() ==> turns(row, list[i]) && turn_list(row, list[i]).len() == i && row[list[i]]
            == (i % 2 == 0),
        list[i] == row.len() ==> turn_list(row, row.len() as int).len() <= i,
{
    let n = row.len() as int;
    let all = turn_list(row, n);
    lemma_turn_list(row, n);
    if i < all.len() {
        assert(list.take(all.len() as int)[i] == list[i]);
        let t = all[i];
        lemma_turn_list(row, t);
    }
}

/// A turn of the row stands in such a list.
proof fn lemma_list_has(list: Seq<int>, row: Seq<bool>, t: int)
    requires
        reads_as(list, row),
        turns(row, t),
    ensures
        turn_list(row, t).len() < list.len(),
        list[turn_list(row, t).len() as int] == t,
        row[t] == (turn_list(row, t).len() % 2 == 0),
{
    let n = row.len() as int;
    lemma_turn_place(row, t, n);
    lemma_turn_list(row, t);
    let k = turn_list(row, t).len() as int;
    assert(list.take(turn_list(row, n).len() as int)[k] == list[k]);
}

/// The two turns above that the decoder looks for.
proof fn lemma_pair(list: Seq<int>, row: Seq<bool>, at: int, white: bool, i: int)
    requires
        reads_as(list, row),
        -1 <= at < row.len(),
        0 <= i,
        i % 2 == (if white {
            0int
        } else {
            1
        }),
        at < 0 ==> white,
        at == 0 ==> !white,
        forall|j: int| 0 <= j < i && j < list.len() && j % 2 == i % 2 ==> #[trigger] list[j] <= at,
    ensures
        pair_from(
            list,
            if at < 0 {
                0
            } else {
                at
            },
            i,
            row.len() as int,
        ) == (
            turn_to(row, white, at + 1),
            turn_from(row, turn_to(row, white, at + 1) + 1),
        ),
    decreases list.len() + 1 - i,
{
    let n = row.len() as int;
    let b1 = turn_to(row, white, at + 1);
    lemma_turn_to(row, white, at + 1);
    if b1 < n {
        lemma_list_has(list, row, b1);
        lemma_turn_from(row, b1 + 1);
    } else {
        lemma_turn_from_edge(row, b1 + 1);
    }
    let k = turn_list(row, b1).len() as int;
    if i < list.len() {
        lemma_list_at(list, row, i);
        if i + 1 < list.len() {
            lemma_list_at(list, row, i + 1);
        }
        if i > 0 {
            lemma_list_at(list, row, i - 1);
        }
        if list[i] > at {
            // Nothing nearer turns to that colour.
            if b1 < n {
                assert(k >= i) by {
                    if k < i {
                        assert(list[k] <= at);
                    }
                }
                if k > i {
                    if list[i] < n {
                        assert(turns(row, list[i]) && row[list[i]] == white);
                        lemma_turn_list_grows(row, b1, list[i]);
                        assert(list[i] < b1) by {
                            if b1 <= list[i] {
                                lemma_turn_list_grows(row, b1, list[i]);
                            }
                        }
                    } else {
                        lemma_turn_place(row, b1, n);
                    }
                }
                assert(list[i] == b1);
                lemma_next_turn(list, row, i);
            } else {
                if list[i] < n {
                    assert(turns(row, list[i]) && row[list[i]] == white);
                }
            }
        } else {
            assert(at >= 0 ==> at > 0 || !white);
            assert forall|j: int|
                0 <= j < i + 2 && j < list.len() && j % 2 == (i + 2) % 2 implies #[trigger] list[j]
                <= at by {
                if j >= i {
                    assert(j == i);
                }
            }
            lemma_pair(list, row, at, white, i + 2);
        }
    } else if b1 < n {
        assert(list[k] <= at);
    }
}

/// The turn behind the one at `i` of such a list.
proof fn lemma_next_turn(list: Seq<int>, row: Seq<bool>, i: int)
    requires
        reads_as(list, row),
        0 <= i < list.len(),
        list[i] < row.len(),
    ensures
        turn_from(row, list[i] + 1) == (if i + 1 < list.len() {
            list[i + 1]
        } else {
            row.len() as int
        }),
{
    let n = row.len() as int;
    let t = list[i];
    lemma_list_at(list, row, i);
    lemma_turn_from(row, t + 1);
    let u = turn_from(row, t + 1);
    assert(turn_list(row, u).len() == i + 1);
    if u < n {
        lemma_list_has(list, row, u);
    } else if i + 1 < list.len() {
        lemma_list_at(list, row, i + 1);
        if list[i + 1] < n {
            lemma_turn_place(row, list[i + 1], n);
        }
    }
}

// -------------------------------------------------------------------- the steps

/// Where the decoder stands when all up to `at` is read.
spec fn has_read(s: RowState, cur: Seq<bool>, at: int, white: bool) -> bool {
    if at < cur.len() {
        &&& -1 <= at
        &&& s.a0 == (if at < 0 {
            0
        } else {
            at
        })
        &&& s.white == white
        &&& s.changes == turn_list(cur, at + 1)
        &&& white == (turn_list(cur, at + 1).len() % 2 == 0)
        &&& at == 0 ==> !white
    } else {
        &&& at == cur.len()
        &&& s.a0 == cur.len()
        &&& reads_as(s.changes, cur)
    }
}

proof fn lemma_all_turns(row: Seq<bool>, list: Seq<int>)
    requires
        list == turn_list(row, row.len() as int) || list == turn_list(row, row.len() as int).push(
            row.len() as int,
        ) || list == turn_list(row, row.len() as int).push(row.len() as int).push(
            row.len() as int,
        ),
    ensures
        reads_as(list, row),
{
    let all = turn_list(row, row.len() as int);
    assert(list.take(all.len() as int) =~= all);
}

proof fn lemma_edge(list: Seq<int>, row: Seq<bool>)
    requires
        reads_as(list, row),
    ensures
        right_edge(list, row.len() as int) == row.len(),
{
    if list.len() > 0 {
        lemma_list_at(list, row, list.len() - 1);
    }
}

/// A step is read as it was written.
proof fn lemma_step_read(
    data: Seq<u8>,
    cur: Seq<bool>,
    above: Seq<bool>,
    list: Seq<int>,
    relaxed: bool,
    at: int,
    white: bool,
    step: Step,
    s: RowState,
)
    requires
        cur.len() == above.len(),
        cur.len() <= 0xFFFF_FFFF,
        at < cur.len(),
        reads_as(list, above),
        has_read(s, cur, at, white),
        is_step(cur, above, at, white, step),
        stand_in(data, s.p, step_bits(white, step)),
    ensures
        row_step(data, cur.len() as int, list, relaxed, s) matches Some(t) && t.p == s.p
            + step_bits(white, step).len() && has_read(
            t,
            cur,
            step_end(cur, above, at, white, step),
            step_colour(white, step),
        ),
{
    let w = cur.len() as int;
    lemma2_to64();
    lemma_edge(list, above);
    lemma_pair(
        list,
        above,
        at,
        white,
        if white {
            0
        } else {
            1
        },
    );
    let a1 = turn_from(cur, at + 1);
    lemma_turn_from(cur, at + 1);
    lemma_turn_list(cur, at + 1);
    let b1 = turn_to(above, white, at + 1);
    lemma_turn_to(above, white, at + 1);
    let b2 = turn_from(above, b1 + 1);
    let a2 = turn_from(cur, a1 + 1);
    if a1 < w {
        lemma_turn_from(cur, a1 + 1);
        assert(turn_list(cur, a1 + 1) == s.changes.push(a1));
    } else {
        lemma_turn_from_edge(cur, a1 + 1);
        assert(a2 == w);
    }
    match step {
        Step::Pass => {
            lemma_mode_read(data, s.p, 1, 4, Mode::Pass);
            if b1 < w {
                lemma_turn_from(above, b1 + 1);
            } else {
                lemma_turn_from_edge(above, b1 + 1);
            }
            lemma_turn_lists_between(cur, at + 1, b2 + 1, a1);
        },
        Step::Runs { first, second } => {
            lemma_stand_apart(
                data,
                s.p,
                binary(0b001, 3),
                run_bits(!white, first) + run_bits(white, second),
            );
            lemma_mode_read(data, s.p, 1, 3, Mode::Horizontal);
            let q = s.p + 3;
            lemma_stand_apart(data, q, run_bits(!white, first), run_bits(white, second));
            lemma_run_read(
                data,
                q,
                !white,
                first,
                if at < 0 {
                    a1
                } else {
                    a1 - at
                },
                0,
            );
            lemma_run_read(
                data,
                q + run_bits(!white, first).len(),
                white,
                second,
                a2 - a1,
                0,
            );
            let t = row_step(data, w, list, relaxed, s)->0;
            if a2 < w {
                assert(turn_list(cur, a2 + 1) == s.changes.push(a1).push(a2));
            } else if a1 < w {
                assert(turn_list(cur, w) == s.changes.push(a1));
                lemma_all_turns(cur, t.changes);
            } else {
                lemma_all_turns(cur, t.changes);
            }
        },
        Step::Shifted(k) => {
            if k == 0 {
                lemma_mode_read(data, s.p, 0b1, 1, Mode::Vertical(0));
            } else if k == 1 {
                lemma_mode_read(data, s.p, 0b011, 3, Mode::Vertical(1));
            } else if k == 2 {
                lemma_mode_read(data, s.p, 0b000011, 6, Mode::Vertical(2));
            } else if k == 3 {
                lemma_mode_read(data, s.p, 0b0000011, 7, Mode::Vertical(3));
            } else if k == -1 {
                lemma_mode_read(data, s.p, 0b010, 3, Mode::Vertical((-1) as i32));
            } else if k == -2 {
                lemma_mode_read(data, s.p, 0b000010, 6, Mode::Vertical((-2) as i32));
            } else {
                lemma_mode_read(data, s.p, 0b0000010, 7, Mode::Vertical((-3) as i32));
            }
            let t = row_step(data, w, list, relaxed, s)->0;
            if a1 >= w {
                lemma_all_turns(cur, t.changes);
            }
        },
    }
}

/// Without a turn in between the list does not grow.
proof fn lemma_turn_lists_between(row: Seq<bool>, x: int, y: int, z: int)
    requires
        0 <= x <= y <= z,
        turn_list(row, x) == turn_list(row, z),
    ensures
        turn_list(row, y) == turn_list(row, x),
{
    lemma_turn_list_grows(row, x, y);
    lemma_turn_list_grows(row, y, z);
    let n = turn_list(row, x).len() as int;
    assert(turn_list(row, y).take(n) =~= turn_list(row, y));
}

/// A row is read as it was written.
proof fn lemma_steps_read(
    data: Seq<u8>,
    cur: Seq<bool>,
    above: Seq<bool>,
    list: Seq<int>,
    relaxed: bool,
    at: int,
    white: bool,
    steps: Seq<Step>,
    s: RowState,
)
    requires
        cur.len() == above.len(),
        0 < cur.len() <= 0xFFFF_FFFF,
        reads_as(list, above),
        has_read(s, cur, at, white),
        are_steps(cur, above, at, white, steps),
        stand_in(data, s.p, steps_bits(white, steps)),
    ensures
        row_from(data, cur.len() as int, list, relaxed, s) matches Some((changes, q)) && q == s.p
            + steps_bits(white, steps).len() && reads_as(changes, cur),
    decreases steps.len(),
{
    let w = cur.len() as int;
    if steps.len() == 0 {
        let changes = (row_from(data, w, list, relaxed, s)->0).0;
        let all = turn_list(cur, w);
        if s.changes.len() == 0 || s.changes.last() < w {
            assert(changes == s.changes.push(w));
            assert(changes.take(all.len() as int) =~= s.changes.take(all.len() as int));
        }
    } else {
        let step = steps[0];
        let rest = steps.drop_first();
        lemma_stand_apart(
            data,
            s.p,
            step_bits(white, step),
            steps_bits(step_colour(white, step), rest),
        );
        lemma_step_read(data, cur, above, list, relaxed, at, white, step, s);
        let t = row_step(data, w, list, relaxed, s)->0;
        lemma_steps_read(
            data,
            cur,
            above,
            list,
            relaxed,
            step_end(cur, above, at, white, step),
            step_colour(white, step),
            rest,
            t,
        );
    }
}

// ------------------------------------------------------------------- the image

/// A white row.
pub open spec fn white_row(width: nat) -> Seq<bool> {
    Seq::new(width, |x: int| false)
}

/// Every row has its width, and is written in steps that are right below the
/// row above; a white row is above the first.
pub open spec fn is_written(
    image: Seq<Seq<bool>>,
    above: Seq<bool>,
    steps: Seq<Seq<Step>>,
) -> bool
    decreases image.len(),
{
    if image.len() == 0 {
        steps.len() == 0
    } else {
        &&& steps.len() > 0
        &&& image[0].len() == above.len()
        &&& are_steps(image[0], above, -1, true, steps[0])
        &&& is_written(image.drop_first(), image[0], steps.drop_first())
    }
}

/// The rows one after another.
pub open spec fn image_bits(steps: Seq<Seq<Step>>) -> Seq<bool>
    decreases steps.len(),
{
    if steps.len() == 0 {
        Seq::empty()
    } else {
        steps_bits(true, steps[0]) + image_bits(steps.drop_first())
    }
}

/// The octets hold the image: a row starts with an octet of its own, a black
/// pixel is a one, and what fills up a row is zero.
pub open spec fn holds_image(rows: Seq<u8>, image: Seq<Seq<bool>>, width: int) -> bool {
    let stride = (width + 7) / 8;
    &&& rows.len() == stride * image.len()
    &&& forall|y: int, x: int|
        0 <= y < image.len() && 0 <= x < 8 * stride ==> #[trigger] dot(rows, stride, y, x) == (x
            < width && image[y][x])
}

/// The pixel at `x` of the row `y`.
pub open spec fn dot(rows: Seq<u8>, stride: int, y: int, x: int) -> bool {
    is_one(rows, 8 * (stride * y) + x)
}

proof fn lemma_until(list: Seq<int>, row: Seq<bool>, x: int)
    requires
        reads_as(list, row),
        0 <= x < row.len(),
    ensures
        (changes_until(list, x) % 2 == 1) == row[x],
{
    let n = row.len() as int;
    let all = turn_list(row, n);
    lemma_until_edge(list, all.len() as int, n, x);
    lemma_until_turns(row, n, x);
    lemma_turn_list(row, x + 1);
}

/// Changes at the edge are never reached.
proof fn lemma_until_edge(list: Seq<int>, k: int, n: int, x: int)
    requires
        0 <= k <= list.len(),
        forall|i: int| k <= i < list.len() ==> #[trigger] list[i] == n,
        x < n,
    ensures
        changes_until(list, x) == changes_until(list.take(k), x),
    decreases list.len(),
{
    if k < list.len() {
        let less = list.drop_last();
        lemma_until_edge(less, k, n, x);
        assert(less.take(k) =~= list.take(k));
    } else {
        assert(list.take(k) =~= list);
    }
}

proof fn lemma_until_turns(row: Seq<bool>, n: int, x: int)
    requires
        0 <= x < n <= row.len(),
    ensures
        changes_until(turn_list(row, n), x) == turn_list(row, x + 1).len(),
    decreases n,
{
    let all = turn_list(row, n);
    if n == x + 1 {
        lemma_turn_list(row, n);
        lemma_until_all(all, x);
    } else {
        lemma_until_turns(row, n - 1, x);
        if turns(row, n - 1) {
            assert(all.drop_last() =~= turn_list(row, n - 1));
        }
    }
}

proof fn lemma_until_all(list: Seq<int>, x: int)
    requires
        forall|i: int| 0 <= i < list.len() ==> #[trigger] list[i] <= x,
    ensures
        changes_until(list, x) == list.len(),
    decreases list.len(),
{
    if list.len() > 0 {
        let less = list.drop_last();
        assert forall|i: int| 0 <= i < less.len() implies #[trigger] less[i] <= x by {
            assert(list[i] == less[i]);
        }
        lemma_until_all(less, x);
        assert(list[list.len() - 1] <= x);
    }
}

/// The octets of a row hold it.
proof fn lemma_row_bytes(list: Seq<int>, row: Seq<bool>, x: int)
    requires
        reads_as(list, row),
        0 <= x < 8 * ((row.len() + 7) / 8),
    ensures
        is_one(row_bytes(list, row.len() as int), x) == (x < row.len() && row[x]),
{
    let w = row.len() as int;
    let b = x / 8;
    lemma_packed_bit(list, w, 8 * b, x % 8);
    assert(8 * b + x % 8 == x);
    lemma_is_one(row_bytes(list, w), x);
    if x < w {
        lemma_until(list, row, x);
    }
}

proof fn lemma_image_read(
    data: Seq<u8>,
    p: int,
    image: Seq<Seq<bool>>,
    above: Seq<bool>,
    list: Seq<int>,
    relaxed: bool,
    steps: Seq<Seq<Step>>,
)
    requires
        0 < above.len() <= 0xFFFF_FFFF,
        reads_as(list, above),
        is_written(image, above, steps),
        stand_in(data, p, image_bits(steps)),
    ensures
        rows_at(data, p, above.len() as int, list, relaxed, image.len()) matches Some(rows)
            && holds_image(rows, image, above.len() as int),
    decreases image.len(),
{
    let w = above.len() as int;
    let stride = (w + 7) / 8;
    if image.len() == 0 {
        assert(stride * 0 == 0);
    } else {
        let cur = image[0];
        let rest = image.drop_first();
        let more = steps.drop_first();
        lemma_stand_apart(data, p, steps_bits(true, steps[0]), image_bits(more));
        let s = RowState { p, a0: 0, white: true, changes: Seq::empty() };
        assert(turn_list(cur, 0) =~= Seq::<int>::empty());
        lemma_steps_read(data, cur, above, list, relaxed, -1, true, steps[0], s);
        let (changes, q) = row_at(data, p, w, list, relaxed)->0;
        lemma_image_read(data, q, rest, cur, changes, relaxed, more);
        let first = row_bytes(changes, w);
        let tail = rows_at(data, q, w, changes, relaxed, rest.len())->0;
        let rows = first + tail;
        assert(stride + stride * rest.len() == stride * image.len()) by (nonlinear_arith)
            requires
                rest.len() == image.len() - 1,
        ;
        assert forall|y: int, x: int| 0 <= y < image.len() && 0 <= x < 8 * stride implies
            #[trigger] dot(rows, stride, y, x) == (x < w && image[y][x]) by {
            if y == 0 {
                assert(stride * 0 == 0);
                lemma_row_bytes(changes, cur, x);
                assert(rows[x / 8] == first[x / 8]);
            } else {
                assert(stride * y == stride + stride * (y - 1)) by (nonlinear_arith);
                assert(0 <= stride * (y - 1) && stride * (y - 1) + stride <= stride * rest.len())
                    by (nonlinear_arith)
                    requires
                        0 <= stride,
                        1 <= y,
                        y - 1 < rest.len(),
                ;
                let at = 8 * (stride * (y - 1)) + x;
                assert((8 * stride + at) / 8 == stride + at / 8);
                assert((8 * stride + at) % 8 == at % 8);
                assert(rows[stride + at / 8] == tail[at / 8]);
                assert(dot(tail, stride, y - 1, x) == (x < w && rest[y - 1][x]));
                assert(rest[y - 1] == image[y]);
            }
        }
    }
}

/// Whatever image is written comes back, in whichever steps it is written, with
/// stray changes tolerated or not, and whatever follows it in the stream.
pub proof fn law_image_comes_back(
    data: Seq<u8>,
    width: u32,
    height: u32,
    relaxed: bool,
    image: Seq<Seq<bool>>,
    steps: Seq<Seq<Step>>,
)
    requires
        width > 0,
        height > 0,
        width * height <= 67_108_864,
        image.len() == height,
        is_written(image, white_row(width as nat), steps),
        stand_in(data, 0, image_bits(steps)),
    ensures
        image_rows(data, width, height, relaxed) matches Some(rows) && holds_image(
            rows,
            image,
            width as int,
        ),
{
    let none = Seq::<int>::empty();
    let above = white_row(width as nat);
    lemma_white_row(width as nat, width as int);
    assert(reads_as(none, above)) by {
        assert(none.take(0) =~= none);
    }
    lemma_image_read(data, 0, image, above, none, relaxed, steps);
}

proof fn lemma_white_row(width: nat, x: int)
    ensures
        turn_list(white_row(width), x) == Seq::<int>::empty(),
    decreases x,
{
    if x > 0 {
        lemma_white_row(width, x - 1);
    }
}

// ----------------------------------------------------------- the usual coding

/// The words that a run is usually written with: the longest ones first.
pub open spec fn usual_words(n: int) -> Seq<int>
    decreases n,
{
    if n < 64 {
        seq![n]
    } else if n < 2560 {
        seq![n / 64 + 63, n % 64]
    } else {
        seq![103] + usual_words(n - 2560)
    }
}

/// The step that is usually taken: a pass where the row above turns twice
/// before this one does, a shift where the turns are near, and runs otherwise.
pub open spec fn usual_step(cur: Seq<bool>, above: Seq<bool>, at: int, white: bool) -> Step {
    let a1 = turn_from(cur, at + 1);
    let a2 = turn_from(cur, a1 + 1);
    let b1 = turn_to(above, white, at + 1);
    let b2 = turn_from(above, b1 + 1);
    if b2 < a1 {
        Step::Pass
    } else if -3 <= a1 - b1 <= 3 {
        Step::Shifted(a1 - b1)
    } else {
        Step::Runs {
            first: usual_words(
                if at < 0 {
                    a1
                } else {
                    a1 - at
                },
            ),
            second: usual_words(a2 - a1),
        }
    }
}

pub open spec fn usual_steps(cur: Seq<bool>, above: Seq<bool>, at: int, white: bool) -> Seq<Step>
    decreases cur.len() - at,
{
    if at >= cur.len() || at < -1 || cur.len() != above.len() {
        Seq::empty()
    } else {
        proof {
            lemma_step_end(cur, above, at, white);
        }
        let s = usual_step(cur, above, at, white);
        seq![s] + usual_steps(
            cur,
            above,
            step_end(cur, above, at, white, s),
            step_colour(white, s),
        )
    }
}

pub proof fn lemma_step_end(cur: Seq<bool>, above: Seq<bool>, at: int, white: bool)
    requires
        -1 <= at < cur.len(),
        cur.len() == above.len(),
    ensures
        ({
            let s = usual_step(cur, above, at, white);
            &&& at < step_end(cur, above, at, white, s) <= cur.len()
            &&& is_step(cur, above, at, white, s)
        }),
{
    let a1 = turn_from(cur, at + 1);
    lemma_turn_from(cur, at + 1);
    let b1 = turn_to(above, white, at + 1);
    lemma_turn_to(above, white, at + 1);
    if b1 < above.len() {
        lemma_turn_from(above, b1 + 1);
    } else {
        lemma_turn_from_edge(above, b1 + 1);
    }
    if a1 < cur.len() {
        lemma_turn_from(cur, a1 + 1);
    } else {
        lemma_turn_from_edge(cur, a1 + 1);
    }
    let a2 = turn_from(cur, a1 + 1);
    lemma_usual_words(
        if at < 0 {
            a1
        } else {
            a1 - at
        },
    );
    lemma_usual_words(a2 - a1);
}

proof fn lemma_usual_words(n: int)
    requires
        0 <= n,
    ensures
        is_run(usual_words(n), n),
        usual_words(n).len() > 0,
    decreases n,
{
    if n >= 2560 {
        lemma_usual_words(n - 2560);
        let w = usual_words(n);
        assert(w.drop_first() =~= usual_words(n - 2560));
    } else if n >= 64 {
        let w = usual_words(n);
        assert(w.drop_first() =~= seq![n % 64]);
        assert(is_run(w.drop_first(), n % 64));
        assert(crate::infrastructure::ccitt_words::run_of(n / 64 + 63) == n - n % 64);
    }
}

proof fn lemma_usual_steps(cur: Seq<bool>, above: Seq<bool>, at: int, white: bool)
    requires
        -1 <= at <= cur.len(),
        cur.len() == above.len(),
    ensures
        are_steps(cur, above, at, white, usual_steps(cur, above, at, white)),
    decreases cur.len() - at,
{
    if at < cur.len() {
        lemma_step_end(cur, above, at, white);
        let s = usual_step(cur, above, at, white);
        let end = step_end(cur, above, at, white, s);
        let c = step_colour(white, s);
        lemma_usual_steps(cur, above, end, c);
        let all = usual_steps(cur, above, at, white);
        assert(all.drop_first() =~= usual_steps(cur, above, end, c));
    }
}

/// The steps of the usual coding of an image below a row.
pub open spec fn group4(image: Seq<Seq<bool>>, above: Seq<bool>) -> Seq<Seq<Step>>
    decreases image.len(),
{
    if image.len() == 0 {
        Seq::empty()
    } else {
        seq![usual_steps(image[0], above, -1, true)] + group4(image.drop_first(), image[0])
    }
}

proof fn lemma_group4(image: Seq<Seq<bool>>, above: Seq<bool>)
    requires
        forall|y: int| 0 <= y < image.len() ==> (#[trigger] image[y]).len() == above.len(),
    ensures
        is_written(image, above, group4(image, above)),
    decreases image.len(),
{
    if image.len() > 0 {
        let cur = image[0];
        let rest = image.drop_first();
        assert forall|y: int| 0 <= y < rest.len() implies (#[trigger] rest[y]).len()
            == cur.len() by {
            assert(rest[y] == image[y + 1]);
        }
        lemma_usual_steps(cur, above, -1, true);
        lemma_group4(rest, cur);
        assert(group4(image, above).drop_first() =~= group4(rest, cur));
    }
}

/// Every image can be written: its usual coding reads as the image.
pub proof fn law_every_image_can_be_written(
    data: Seq<u8>,
    width: u32,
    height: u32,
    image: Seq<Seq<bool>>,
)
    requires
        width > 0,
        height > 0,
        width * height <= 67_108_864,
        image.len() == height,
        forall|y: int| 0 <= y < image.len() ==> (#[trigger] image[y]).len() == width,
        stand_in(data, 0, image_bits(group4(image, white_row(width as nat)))),
    ensures
        image_rows(data, width, height, false) matches Some(rows) && holds_image(
            rows,
            image,
            width as int,
        ),
        image_rows(data, width, height, true) == image_rows(data, width, height, false),
{
    let above = white_row(width as nat);
    lemma_group4(image, above);
    let steps = group4(image, above);
    law_image_comes_back(data, width, height, false, image, steps);
    law_image_comes_back(data, width, height, true, image, steps);
    lemma_one_image(
        image_rows(data, width, height, false)->0,
        image_rows(data, width, height, true)->0,
        image,
        width as int,
    );
}

/// Only one string of octets holds an image.
proof fn lemma_one_image(a: Seq<u8>, b: Seq<u8>, image: Seq<Seq<bool>>, width: int)
    requires
        0 < width,
        holds_image(a, image, width),
        holds_image(b, image, width),
    ensures
        a == b,
{
    let stride = (width + 7) / 8;
    assert forall|k: int| 0 <= k < a.len() implies a[k] == b[k] by {
        let y = k / stride;
        vstd::arithmetic::div_mod::lemma_fundamental_div_mod(k, stride);
        assert(y < image.len()) by (nonlinear_arith)
            requires
                y == k / stride,
                0 <= k < stride * image.len(),
                0 < stride,
        ;
        assert(0 <= y) by (nonlinear_arith)
            requires
                y == k / stride,
                0 <= k,
                0 < stride,
        ;
        let c = k % stride;
        assert forall|j: int| 0 <= j < 8 implies #[trigger] same_bit(a, b, k, j) by {
            let x = 8 * c + j;
            assert(8 * (stride * y) + x == 8 * k + j);
            assert(dot(a, stride, y, x) == dot(b, stride, y, x));
            lemma_is_one(a, 8 * k + j);
            lemma_is_one(b, 8 * k + j);
        }
        lemma_octet(a, b, k);
    }
    assert(a =~= b);
}

spec fn same_bit(a: Seq<u8>, b: Seq<u8>, k: int, j: int) -> bool {
    bit_at(a, 8 * k + j) == bit_at(b, 8 * k + j)
}

proof fn lemma_octet(a: Seq<u8>, b: Seq<u8>, k: int)
    requires
        0 <= k,
        forall|j: int| 0 <= j < 8 ==> #[trigger] same_bit(a, b, k, j),
    ensures
        a[k] == b[k],
{
    let u = a[k];
    let v = b[k];
    assert(same_bit(a, b, k, 0));
    assert(same_bit(a, b, k, 1));
    assert(same_bit(a, b, k, 2));
    assert(same_bit(a, b, k, 3));
    assert(same_bit(a, b, k, 4));
    assert(same_bit(a, b, k, 5));
    assert(same_bit(a, b, k, 6));
    assert(same_bit(a, b, k, 7));
    assert(u / 1 == u && v / 1 == v);
    lemma_same_digits(u as int, v as int);
}

proof fn lemma_same_digits(u: int, v: int)
    requires
        0 <= u < 256,
        0 <= v < 256,
        u / 128 % 2 == v / 128 % 2,
        u / 64 % 2 == v / 64 % 2,
        u / 32 % 2 == v / 32 % 2,
        u / 16 % 2 == v / 16 % 2,
        u / 8 % 2 == v / 8 % 2,
        u / 4 % 2 == v / 4 % 2,
        u / 2 % 2 == v / 2 % 2,
        u % 2 == v % 2,
    ensures
        u == v,
{
    assert(u / 128 == v / 128);
    assert(u / 64 == v / 64);
    assert(u / 32 == v / 32);
    assert(u / 16 == v / 16);
    assert(u / 8 == v / 8);
    assert(u / 4 == v / 4);
    assert(u / 2 == v / 2);
}

} // verus!
