//! How far the characters of a text record advance.
use crate::infrastructure::cp932::{byte_len, octets_of};
use crate::infrastructure::gdi::sane_advances;
use crate::infrastructure::octets::{i16_at, i16_of, i32_at, i32_of};
use vstd::prelude::*;

verus! {

/// A table of advances in a record: where it starts, how many entries it has,
/// and whether they are 32 or 16 bits wide.
#[derive(Debug, Clone, Copy, PartialEq, Eq, Structural)]
pub struct Table {
    pub at: usize,
    pub entries: usize,
    pub wide: bool,
}

impl Table {
    /// The octets of an entry.
    pub open spec fn width(self) -> int {
        if self.wide {
            4
        } else {
            2
        }
    }

    /// The table lies inside a record of `n` octets.
    pub open spec fn fits(self, n: nat) -> bool {
        self.at + self.entries * self.width() <= n
    }

    /// The advance at a position in logical units; none is zero.
    pub open spec fn entry(self, r: Seq<u8>, i: int) -> int {
        if !(0 <= i < self.entries) {
            0
        } else if self.wide {
            match i32_of(r, self.at + 4 * i) {
                Some(v) => v as int,
                None => 0,
            }
        } else {
            match i16_of(r, self.at + 2 * i) {
                Some(v) => v as int,
                None => 0,
            }
        }
    }

    /// The table of a record, where it is all there.
    pub open spec fn found(at: int, entries: usize, wide: bool, n: nat) -> Option<Table> {
        let t = Table { at: at as usize, entries, wide };
        if at + entries * t.width() <= n {
            Some(t)
        } else {
            None
        }
    }

    fn read(&self, r: &[u8], i: u128) -> (v: i64)
        requires
            self.fits(r.len() as nat),
        ensures
            v == self.entry(r@, i as int),
            -0x8000_0000 <= v <= 0x7FFF_FFFF,
    {
        if i >= self.entries as u128 {
            return 0;
        }
        let i: usize = i as usize;
        if self.wide {
            match i32_at(r, self.at + 4 * i) {
                Some(v) => v as i64,
                None => 0,
            }
        } else {
            match i16_at(r, self.at + 2 * i) {
                Some(v) => v as i64,
                None => 0,
            }
        }
    }
}

/// The table that starts at `at`, where it is all there.
pub fn find_table(r: &[u8], at: usize, entries: usize, wide: bool) -> (t: Option<Table>)
    ensures
        t == Table::found(at as int, entries, wide, r.len() as nat),
        t matches Some(table) ==> table.fits(r.len() as nat),
{
    let width: u128 = if wide {
        4
    } else {
        2
    };
    proof {
        assert(0 <= entries * width <= 4 * entries) by (nonlinear_arith)
            requires
                0 <= entries,
                0 <= width <= 4,
        ;
    }
    if at as u128 + entries as u128 * width > r.len() as u128 {
        return None;
    }
    Some(Table { at, entries, wide })
}

/// The advance of one unit for each of `n` characters, in half logical units.
pub open spec fn unit_advances(r: Seq<u8>, table: Option<Table>, n: nat) -> Seq<i64> {
    Seq::new(
        n,
        |i: int|
            match table {
                Some(t) => (2 * t.entry(r, i)) as i64,
                None => 0,
            },
    )
}

/// The octets of the first `n` characters.
pub open spec fn octets_below(chars: Seq<char>, n: int) -> int
    decreases n,
{
    if n <= 0 {
        0
    } else {
        octets_below(chars, n - 1) + octets_of(chars[n - 1])
    }
}

/// The advance of a character that took `taken` octets from `i` on: the table
/// has an entry for every octet.
pub open spec fn octets_advance(r: Seq<u8>, t: Table, i: int, taken: int) -> int {
    t.entry(r, i) + (if taken > 1 {
        t.entry(r, i + 1)
    } else {
        0
    })
}

/// The advances of characters in a code of one or two octets, in half logical
/// units.
pub open spec fn code_advances(r: Seq<u8>, table: Option<Table>, chars: Seq<char>) -> Seq<i64> {
    Seq::new(
        chars.len(),
        |k: int|
            match table {
                Some(t) => (2 * octets_advance(
                    r,
                    t,
                    octets_below(chars, k),
                    octets_of(chars[k]),
                )) as i64,
                None => 0,
            },
    )
}

/// The advances where none are recorded: the height of the font, and half of
/// it for a character of one octet; in half logical units.
pub open spec fn guessed_advances(chars: Seq<char>, height: u32) -> Seq<i64> {
    let step = if height > 1 {
        height as int
    } else {
        1
    };
    Seq::new(
        chars.len(),
        |k: int|
            (if octets_of(chars[k]) == 1 {
                step
            } else {
                2 * step
            }) as i64,
    )
}

/// Reads the advance of each unit.
pub fn read_unit_advances(r: &[u8], table: Option<Table>, n: usize) -> (v: Vec<i64>)
    requires
        table matches Some(t) ==> t.fits(r.len() as nat),
    ensures
        v@ == unit_advances(r@, table, n as nat),
        sane_advances(v@),
{
    let mut v: Vec<i64> = Vec::new();
    let mut i: usize = 0;
    while i < n
        invariant
            i <= n,
            table matches Some(t) ==> t.fits(r.len() as nat),
            v@.len() == i,
            sane_advances(v@),
            forall|k: int|
                0 <= k < i ==> #[trigger] v@[k] == unit_advances(r@, table, n as nat)[k],
        decreases n - i,
    {
        let a: i64 = match table {
            Some(t) => 2 * t.read(r, i as u128),
            None => 0,
        };
        v.push(a);
        i += 1;
    }
    proof {
        assert(v@ =~= unit_advances(r@, table, n as nat));
    }
    v
}

/// Reads the advance of each character of a code of one or two octets.
pub fn read_code_advances(r: &[u8], table: Option<Table>, chars: &Vec<char>) -> (v: Vec<i64>)
    requires
        table matches Some(t) ==> t.fits(r.len() as nat),
    ensures
        v@ == code_advances(r@, table, chars@),
        sane_advances(v@),
{
    let mut v: Vec<i64> = Vec::new();
    let mut at: u128 = 0;
    let mut k: usize = 0;
    while k < chars.len()
        invariant
            k <= chars@.len(),
            table matches Some(t) ==> t.fits(r.len() as nat),
            at == octets_below(chars@, k as int),
            at <= 2 * k,
            v@.len() == k,
            sane_advances(v@),
            forall|j: int| 0 <= j < k ==> #[trigger] v@[j] == code_advances(r@, table, chars@)[j],
        decreases chars@.len() - k,
    {
        let taken: usize = byte_len(chars[k]);
        let a: i64 = match table {
            Some(t) => {
                let one: i64 = t.read(r, at);
                let two: i64 = if taken > 1 {
                    t.read(r, at + 1)
                } else {
                    0
                };
                2 * (one + two)
            },
            None => 0,
        };
        v.push(a);
        at += taken as u128;
        k += 1;
    }
    proof {
        assert(v@ =~= code_advances(r@, table, chars@));
    }
    v
}

/// Spaces the characters by the height of the font, the best guess without the
/// face.
pub fn guess_advances(chars: &Vec<char>, height: u32) -> (v: Vec<i64>)
    requires
        height <= 0x8000_0000,
    ensures
        v@ == guessed_advances(chars@, height),
        sane_advances(v@),
{
    let step: i64 = if height > 1 {
        height as i64
    } else {
        1
    };
    let mut v: Vec<i64> = Vec::new();
    let mut k: usize = 0;
    while k < chars.len()
        invariant
            k <= chars@.len(),
            1 <= step <= 0x8000_0000,
            step == (if height > 1 {
                height as int
            } else {
                1
            }),
            v@.len() == k,
            sane_advances(v@),
            forall|j: int| 0 <= j < k ==> #[trigger] v@[j] == guessed_advances(chars@, height)[j],
        decreases chars@.len() - k,
    {
        let a: i64 = if byte_len(chars[k]) == 1 {
            step
        } else {
            2 * step
        };
        v.push(a);
        k += 1;
    }
    proof {
        assert(v@ =~= guessed_advances(chars@, height));
    }
    v
}

} // verus!
