//! Writing that runs down the page in columns, one character at a time.
use crate::domain::rendering::{Metafile, Text, TextModel};
use crate::text::whitespace;
use vstd::prelude::*;

verus! {

/// The run shows something.
pub open spec fn is_visible(t: TextModel) -> bool {
    exists|i: int| 0 <= i < t.chars.len() && !whitespace(#[trigger] t.chars[i])
}

/// The places of the visible runs among the first `k`.
pub open spec fn visible_runs(text: Seq<TextModel>, k: int) -> Seq<int>
    decreases k,
{
    if k <= 0 {
        Seq::empty()
    } else if is_visible(text[k - 1]) {
        visible_runs(text, k - 1).push(k - 1)
    } else {
        visible_runs(text, k - 1)
    }
}

/// The run is a single character turned by `angle` tenths of a degree.
pub open spec fn is_turned_char(t: TextModel, angle: int) -> bool {
    t.chars.len() == 1 && t.xs.len() == 1 && t.escapement % 3600 == angle
}

/// Two places are at most a pixel apart.
pub open spec fn is_close(a: i64, b: i64) -> bool {
    -1000 <= a - b <= 1000
}

/// The runs stand in columns: two of them share one, and not all are at the
/// height of the first.
pub open spec fn in_columns(places: Seq<(i64, i64)>, runs: Seq<int>) -> bool {
    (exists|j: int, k: int|
        0 <= j < k < runs.len() && is_close(
            (#[trigger] places[runs[j]]).0,
            (#[trigger] places[runs[k]]).0,
        )) && exists|k: int|
        0 < k < runs.len() && !is_close((#[trigger] places[runs[k]]).1, places[runs[0]].1)
}

/// The characters are already set upright in columns: three or more single
/// characters, all turned by the same right angle.
pub open spec fn is_upright(text: Seq<TextModel>, places: Seq<(i64, i64)>) -> bool {
    let runs = visible_runs(text, text.len() as int);
    runs.len() >= 3 && {
        let angle = text[runs[0]].escapement % 3600;
        (angle == 900 || angle == 2700) && (forall|k: int|
            0 <= k < runs.len() ==> is_turned_char(text[#[trigger] runs[k]], angle as int))
            && in_columns(places, runs)
    }
}

fn shows(t: &Text) -> (r: bool)
    ensures
        r == is_visible(t@),
{
    let mut i: usize = 0;
    while i < t.chars.len()
        invariant
            i <= t.chars@.len(),
            forall|k: int| 0 <= k < i ==> whitespace(#[trigger] t@.chars[k]),
        decreases t.chars@.len() - i,
    {
        if !t.chars[i].is_whitespace() {
            assert(!whitespace(t@.chars[i as int]));
            return true;
        }
        i += 1;
    }
    false
}

fn near(a: i64, b: i64) -> (r: bool)
    ensures
        r == is_close(a, b),
{
    let d: i128 = a as i128 - b as i128;
    -1000 <= d && d <= 1000
}

fn share_column(places: &Vec<(i64, i64)>, runs: &Vec<usize>) -> (r: bool)
    requires
        forall|k: int| 0 <= k < runs@.len() ==> #[trigger] runs@[k] < places@.len(),
    ensures
        r == exists|j: int, k: int|
            0 <= j < k < runs@.len() && is_close(
                (#[trigger] places@[runs@[j] as int]).0,
                (#[trigger] places@[runs@[k] as int]).0,
            ),
{
    let mut k: usize = 0;
    while k < runs.len()
        invariant
            k <= runs@.len(),
            forall|i: int| 0 <= i < runs@.len() ==> #[trigger] runs@[i] < places@.len(),
            forall|i: int, j: int|
                0 <= i < j < k ==> !is_close(
                    (#[trigger] places@[runs@[i] as int]).0,
                    (#[trigger] places@[runs@[j] as int]).0,
                ),
        decreases runs@.len() - k,
    {
        let mut j: usize = 0;
        while j < k
            invariant
                j <= k < runs@.len(),
                forall|i: int| 0 <= i < runs@.len() ==> #[trigger] runs@[i] < places@.len(),
                forall|i: int|
                    0 <= i < j ==> !is_close(
                        (#[trigger] places@[runs@[i] as int]).0,
                        places@[runs@[k as int] as int].0,
                    ),
            decreases k - j,
        {
            if near(places[runs[j]].0, places[runs[k]].0) {
                return true;
            }
            j += 1;
        }
        k += 1;
    }
    false
}

fn differ_in_height(places: &Vec<(i64, i64)>, runs: &Vec<usize>) -> (r: bool)
    requires
        forall|k: int| 0 <= k < runs@.len() ==> #[trigger] runs@[k] < places@.len(),
        runs@.len() > 0,
    ensures
        r == exists|k: int|
            0 < k < runs@.len() && !is_close(
                (#[trigger] places@[runs@[k] as int]).1,
                places@[runs@[0] as int].1,
            ),
{
    let mut k: usize = 1;
    while k < runs.len()
        invariant
            1 <= k <= runs@.len(),
            forall|i: int| 0 <= i < runs@.len() ==> #[trigger] runs@[i] < places@.len(),
            forall|i: int|
                0 < i < k ==> is_close(
                    (#[trigger] places@[runs@[i] as int]).1,
                    places@[runs@[0] as int].1,
                ),
        decreases runs@.len() - k,
    {
        if !near(places[runs[k]].1, places[runs[0]].1) {
            return true;
        }
        k += 1;
    }
    false
}

fn turn(t: &Text) -> (a: i32)
    ensures
        a == t.escapement as int % 3600,
        0 <= a < 3600,
{
    let e: i32 = t.escapement;
    if e >= 0 {
        e % 3600
    } else {
        let back: i64 = (-(e as i64)) % 3600;
        proof {
            lemma_turn(e as int, back as int);
        }
        if back == 0 {
            0
        } else {
            (3600 - back) as i32
        }
    }
}

proof fn lemma_turn(e: int, back: int)
    requires
        e < 0,
        back == (-e) % 3600,
    ensures
        e % 3600 == (if back == 0 {
            0
        } else {
            3600 - back
        }),
{
    let q = (-e) / 3600;
    assert(-e == 3600 * q + back);
    if back == 0 {
        assert(e == 3600 * (-q));
        vstd::arithmetic::div_mod::lemma_fundamental_div_mod_converse(e, 3600, -q, 0);
    } else {
        assert(e == 3600 * (-q - 1) + (3600 - back));
        vstd::arithmetic::div_mod::lemma_fundamental_div_mod_converse(
            e,
            3600,
            -q - 1,
            3600 - back,
        );
    }
}

impl Metafile {
    /// Whether the text is already set upright in vertical columns.
    ///
    /// Some drivers place each character of a column by itself and say the
    /// direction of writing with a turn; turning each character as well would
    /// lay it on its side. A repeated column and a right angle tell this from
    /// a label that is turned as a whole.
    ///
    /// `places` says where each run's first character stands, in thousandths
    /// of a pixel.
    pub fn uses_upright_vertical_text(&self, places: &Vec<(i64, i64)>) -> (r: bool)
        requires
            places@.len() == self.text@.len(),
        ensures
            r == is_upright(self@.text, places@),
    {
        let ghost text = self@.text;
        let ghost want = visible_runs(text, text.len() as int);
        let mut runs: Vec<usize> = Vec::new();
        let mut i: usize = 0;
        while i < self.text.len()
            invariant
                i <= self.text@.len(),
                text == self@.text,
                text.len() == self.text@.len(),
                runs@.len() == visible_runs(text, i as int).len(),
                forall|k: int|
                    0 <= k < runs@.len() ==> #[trigger] runs@[k] == visible_runs(text, i as int)[k]
                        && runs@[k] < i,
            decreases self.text@.len() - i,
        {
            proof {
                assert(text[i as int] == self.text@[i as int]@);
            }
            if shows(&self.text[i]) {
                runs.push(i);
            }
            i += 1;
        }
        if runs.len() < 3 {
            return false;
        }
        proof {
            assert(want[0] == runs@[0]);
            assert(text[runs@[0] as int] == self.text@[runs@[0] as int]@);
        }
        let angle: i32 = turn(&self.text[runs[0]]);
        if angle != 900 && angle != 2700 {
            return false;
        }
        let mut k: usize = 0;
        while k < runs.len()
            invariant
                k <= runs@.len(),
                text == self@.text,
                text.len() == self.text@.len(),
                runs@.len() == want.len(),
                want == visible_runs(text, text.len() as int),
                forall|j: int|
                    0 <= j < runs@.len() ==> #[trigger] runs@[j] == want[j] && runs@[j]
                        < self.text@.len(),
                forall|j: int| 0 <= j < k ==> is_turned_char(text[#[trigger] want[j]], angle as int),
                want.len() >= 3,
                angle == text[want[0]].escapement % 3600,
                angle == 900 || angle == 2700,
            decreases runs@.len() - k,
        {
            let t: &Text = &self.text[runs[k]];
            proof {
                assert(text[runs@[k as int] as int] == t@);
                assert(want[k as int] == runs@[k as int]);
            }
            if t.chars.len() != 1 || t.xs.len() != 1 || turn(t) != angle {
                assert(!is_turned_char(text[want[k as int]], angle as int));
                return false;
            }
            k += 1;
        }
        let shared: bool = share_column(places, &runs);
        let varied: bool = differ_in_height(places, &runs);
        proof {
            assert forall|j: int| 0 <= j < runs@.len() implies places@[#[trigger] want[j]]
                == places@[runs@[j] as int] by {
                assert(runs@[j] == want[j]);
            }
            if shared {
                let (a, b) = choose|a: int, b: int|
                    0 <= a < b < runs@.len() && is_close(
                        (#[trigger] places@[runs@[a] as int]).0,
                        (#[trigger] places@[runs@[b] as int]).0,
                    );
                assert(is_close(places@[want[a]].0, places@[want[b]].0));
            } else {
                assert forall|a: int, b: int| 0 <= a < b < want.len() implies !is_close(
                    (#[trigger] places@[want[a]]).0,
                    (#[trigger] places@[want[b]]).0,
                ) by {
                    assert(!is_close(places@[runs@[a] as int].0, places@[runs@[b] as int].0));
                }
            }
            if varied {
                let b = choose|b: int|
                    0 < b < runs@.len() && !is_close(
                        (#[trigger] places@[runs@[b] as int]).1,
                        places@[runs@[0] as int].1,
                    );
                assert(!is_close(places@[want[b]].1, places@[want[0]].1));
            } else {
                assert forall|b: int| 0 < b < want.len() implies is_close(
                    (#[trigger] places@[want[b]]).1,
                    places@[want[0]].1,
                ) by {
                    assert(is_close(places@[runs@[b] as int].1, places@[runs@[0] as int].1));
                }
            }
        }
        shared && varied
    }
}

} // verus!
