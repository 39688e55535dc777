//! What holds of fonts: the characters, widths and tables that are written into
//! a font file are those that are read.
use crate::infrastructure::octets::{be16_of, be32_of};
use crate::infrastructure::ttf::{
    advances_of, char_map, font_model, group_map, groups_map, preference, preferred, segment,
    segment_glyph, segment_map, segments_map, subtable_map, table_at, table_of, Segment,
};
use vstd::prelude::*;

verus! {

/// 16-bit numbers as they stand in a font file: the upper octet first.
pub open spec fn in_octets(w: Seq<u16>) -> Seq<u8> {
    Seq::new(
        2 * w.len(),
        |k: int|
            if k % 2 == 0 {
                (w[k / 2] / 256) as u8
            } else {
                (w[k / 2] % 256) as u8
            },
    )
}

/// The 32-bit number that two of them make.
pub open spec fn long_at(w: Seq<u16>, i: int) -> int {
    65536 * w[i] + w[i + 1]
}

proof fn lemma_word(w: Seq<u16>, rest: Seq<u8>, i: int)
    requires
        0 <= i < w.len(),
    ensures
        be16_of(in_octets(w) + rest, 2 * i) == Some(w[i]),
{
    let s = in_octets(w) + rest;
    assert(s[2 * i] == in_octets(w)[2 * i]);
    assert(s[2 * i + 1] == in_octets(w)[2 * i + 1]);
    assert((2 * i + 1) % 2 == 1 && (2 * i + 1) / 2 == i);
    assert((2 * i) % 2 == 0 && (2 * i) / 2 == i);
    let v = w[i];
    assert(256 * (v / 256) + v % 256 == v);
}

proof fn lemma_long(w: Seq<u16>, rest: Seq<u8>, i: int)
    requires
        0 <= i,
        i + 1 < w.len(),
    ensures
        be32_of(in_octets(w) + rest, 2 * i) == Some(long_at(w, i) as u32),
{
    let s = in_octets(w) + rest;
    let o = in_octets(w);
    assert(s[2 * i] == o[2 * i]);
    assert(s[2 * i + 1] == o[2 * i + 1]);
    assert(s[2 * i + 2] == o[2 * i + 2]);
    assert(s[2 * i + 3] == o[2 * i + 3]);
    assert((2 * i) % 2 == 0 && (2 * i) / 2 == i);
    assert((2 * i + 1) % 2 == 1 && (2 * i + 1) / 2 == i);
    assert((2 * i + 2) % 2 == 0 && (2 * i + 2) / 2 == i + 1);
    assert((2 * i + 3) % 2 == 1 && (2 * i + 3) / 2 == i + 1);
    let v = w[i];
    let u = w[i + 1];
    assert(256 * (v / 256) + v % 256 == v);
    assert(256 * (u / 256) + u % 256 == u);
}

// ------------------------------------------------------------ characters

/// Characters in a row and their glyphs; glyph zero stands for none.
pub struct Stretch {
    pub first: int,
    pub glyphs: Seq<u16>,
}

impl Stretch {
    /// The character belongs to the stretch.
    pub open spec fn covers(self, c: int) -> bool {
        self.first <= c < self.first + self.glyphs.len()
    }

    pub open spec fn last(self) -> int {
        self.first + self.glyphs.len() - 1
    }
}

/// The glyph of a character: that of the last of the first `n` stretches that
/// has one for it, or zero.
pub open spec fn glyph_among(all: Seq<Stretch>, n: int, c: int) -> u16
    decreases n,
{
    if n <= 0 {
        0
    } else {
        let s = all[n - 1];
        if s.covers(c) && s.glyphs[c - s.first] != 0 {
            s.glyphs[c - s.first]
        } else {
            glyph_among(all, n - 1, c)
        }
    }
}

/// The map gives every character the glyph that the first `n` stretches give
/// it, and no other character any.
pub open spec fn gives(m: Map<u32, u16>, all: Seq<Stretch>, n: int) -> bool {
    forall|c: u32|
        (#[trigger] m.contains_key(c) <==> glyph_among(all, n, c as int) != 0) && (
        m.contains_key(c) ==> m[c] == glyph_among(all, n, c as int))
}

/// How a stretch stands in a segmented map of `n` segments at place `k`: the
/// last character, the first, a difference, and where the glyphs are listed.
/// Without a list the difference is that of every glyph and its character, in
/// 16 bits; with one it is that of every glyph and its entry, which is zero
/// for none. Lists are found by their distance from this number.
pub open spec fn stands_segmented(w: Seq<u16>, n: int, k: int, s: Stretch) -> bool {
    let delta = w[8 + 2 * n + k];
    let list = w[8 + 3 * n + k];
    &&& 0 <= s.first
    &&& 0 < s.glyphs.len()
    &&& s.last() < 0xFFFF
    &&& w[7 + k] == s.last()
    &&& w[8 + n + k] == s.first
    &&& list % 2 == 0
    &&& forall|i: int|
        0 <= i < s.glyphs.len() ==> stands_for_glyph(
            w,
            delta,
            if list == 0 {
                None
            } else {
                Some(8 + 3 * n + k + list / 2 + i)
            },
            s.first + i,
            #[trigger] s.glyphs[i],
        )
}

/// How the glyph of a character stands there, in a list or not.
pub open spec fn stands_for_glyph(
    w: Seq<u16>,
    delta: u16,
    listed: Option<int>,
    c: int,
    glyph: u16,
) -> bool {
    match listed {
        None => (c + delta) % 0x1_0000 == glyph,
        Some(at) => at < w.len() && (if glyph == 0 {
            w[at] == 0
        } else {
            w[at] != 0 && (w[at] + delta) % 0x1_0000 == glyph
        }),
    }
}

/// The numbers are a segmented map of the stretches: format 4, twice their
/// number in the fourth place, and behind them the end of the characters.
pub open spec fn is_segmented(w: Seq<u16>, all: Seq<Stretch>) -> bool {
    let n = all.len() as int + 1;
    &&& n <= 0x7FFF
    &&& 8 + 4 * n <= w.len()
    &&& w[0] == 4
    &&& w[3] == 2 * n
    &&& w[7 + n - 1] == 0xFFFF
    &&& w[8 + n + n - 1] == 0xFFFF
    &&& forall|k: int| 0 <= k < all.len() ==> stands_segmented(w, n, k, #[trigger] all[k])
}

proof fn lemma_segment(w: Seq<u16>, rest: Seq<u8>, n: int, k: int)
    requires
        0 <= k < n,
        8 + 4 * n <= w.len(),
    ensures
        segment(in_octets(w) + rest, n, k) == Some(
            Segment {
                end: w[7 + k] as int,
                start: w[8 + n + k] as int,
                delta: w[8 + 2 * n + k] as int,
                range_off: w[8 + 3 * n + k] as int,
                at: 2 * (8 + 3 * n + k),
            },
        ),
{
    lemma_word(w, rest, 7 + k);
    lemma_word(w, rest, 8 + n + k);
    lemma_word(w, rest, 8 + 2 * n + k);
    lemma_word(w, rest, 8 + 3 * n + k);
    assert(2 * (7 + k) == 14 + 2 * k);
    assert(2 * (8 + n + k) == 16 + 2 * n + 2 * k);
    assert(2 * (8 + 2 * n + k) == 16 + 2 * n + 2 * n + 2 * k);
    assert(2 * (8 + 3 * n + k) == 16 + 2 * n + 2 * n + 2 * n + 2 * k);
}

/// What a segment gives the characters of its stretch up to `c`.
proof fn lemma_segment_map(
    sub: Seq<u8>,
    g: Segment,
    m: Map<u32, u16>,
    s: Stretch,
    c: int,
    x: u32,
)
    requires
        0 <= g.start,
        g.start == s.first,
        s.first <= c <= s.first + s.glyphs.len(),
        s.last() < 0xFFFF,
        forall|y: int|
            s.first <= y < c ==> #[trigger] segment_glyph(sub, g, y) == s.glyphs[y - s.first],
    ensures
        ({
            let r = segment_map(sub, g, m, c);
            if s.first <= x < c && s.glyphs[x - s.first] != 0 {
                r.contains_key(x) && r[x] == s.glyphs[x - s.first]
            } else {
                r.contains_key(x) == m.contains_key(x) && (m.contains_key(x) ==> r[x] == m[x])
            }
        }),
    decreases c - s.first,
{
    if c > s.first {
        lemma_segment_map(sub, g, m, s, c - 1, x);
        assert(segment_glyph(sub, g, c - 1) == s.glyphs[c - 1 - s.first]);
    }
}

proof fn lemma_segments(w: Seq<u16>, rest: Seq<u8>, all: Seq<Stretch>, k: int)
    requires
        is_segmented(w, all),
        0 <= k <= all.len(),
    ensures
        segments_map(in_octets(w) + rest, all.len() as int + 1, k) matches Some(m) && gives(m, all, k),
    decreases k,
{
    let sub = in_octets(w) + rest;
    let n = all.len() as int + 1;
    if k > 0 {
        lemma_segments(w, rest, all, k - 1);
        let m = segments_map(sub, n, k - 1)->0;
        let s = all[k - 1];
        assert(stands_segmented(w, n, k - 1, s));
        lemma_segment(w, rest, n, k - 1);
        let g = segment(sub, n, k - 1)->0;
        assert forall|x: int| s.first <= x < s.first + s.glyphs.len() implies
            #[trigger] segment_glyph(sub, g, x) == s.glyphs[x - s.first] by {
            let i = x - s.first;
            assert(stands_for_glyph(
                w,
                g.delta as u16,
                if g.range_off == 0 {
                    None
                } else {
                    Some(8 + 3 * n + (k - 1) + g.range_off / 2 + i)
                },
                s.first + i,
                s.glyphs[i],
            ));
            if g.range_off != 0 {
                let at = 8 + 3 * n + (k - 1) + g.range_off / 2 + i;
                lemma_word(w, rest, at);
                assert(2 * at == g.at + g.range_off + 2 * (x - g.start));
            }
        }
        let r = segment_map(sub, g, m, g.end + 1);
        assert forall|c: u32|
            (#[trigger] r.contains_key(c) <==> glyph_among(all, k, c as int) != 0) && (
            r.contains_key(c) ==> r[c] == glyph_among(all, k, c as int)) by {
            assert(m.contains_key(c) <==> glyph_among(all, k - 1, c as int) != 0);
            lemma_segment_map(sub, g, m, s, g.end + 1, c);
        }
    }
}

/// A segmented map gives every character the glyph that was written for it,
/// however the glyphs are written.
pub proof fn law_segmented_map_comes_back(w: Seq<u16>, rest: Seq<u8>, all: Seq<Stretch>)
    requires
        is_segmented(w, all),
    ensures
        subtable_map(in_octets(w) + rest) matches Some(m) && gives(m, all, all.len() as int),
{
    let sub = in_octets(w) + rest;
    let n = all.len() as int + 1;
    lemma_word(w, rest, 0);
    lemma_word(w, rest, 3);
    lemma_segments(w, rest, all, all.len() as int);
    lemma_segment(w, rest, n, n - 1);
    let m = segments_map(sub, n, n - 1)->0;
    let g = segment(sub, n, n - 1)->0;
    assert(g.start == 0xFFFF && g.end == 0xFFFF);
    assert(segment_map(sub, g, m, 0xFFFF) == m);
    assert(segment_glyph(sub, g, 0xFFFF) == 0);
    assert(segment_map(sub, g, m, 0x1_0000) == m);
    assert(segments_map(sub, n, n) == Some(m));
}

/// How a stretch stands in a map of groups at place `k`: the first character,
/// the last, and the glyph of the first, from which the others count up.
pub open spec fn stands_grouped(w: Seq<u16>, k: int, s: Stretch) -> bool {
    let at = 8 + 6 * k;
    &&& 0 <= s.first
    &&& 0 < s.glyphs.len() <= 0x1_0001
    &&& long_at(w, at) == s.first
    &&& long_at(w, at + 2) == s.last()
    &&& forall|i: int|
        0 <= i < s.glyphs.len() ==> #[trigger] s.glyphs[i] == (if long_at(w, at + 4) + i
            <= 0xFFFF {
            long_at(w, at + 4) + i
        } else {
            0
        })
}

/// The numbers are a map of groups of the stretches: format 12, their number in
/// the seventh and eighth place, and the groups.
pub open spec fn is_grouped(w: Seq<u16>, all: Seq<Stretch>) -> bool {
    &&& all.len() <= 200_000
    &&& 8 + 6 * all.len() <= w.len()
    &&& w[0] == 12
    &&& long_at(w, 6) == all.len()
    &&& forall|k: int| 0 <= k < all.len() ==> stands_grouped(w, k, #[trigger] all[k])
}

proof fn lemma_group_map(m: Map<u32, u16>, s: Stretch, gid: int, c: int, x: u32)
    requires
        0 <= s.first,
        s.first <= c <= s.first + s.glyphs.len(),
        c <= 0x1_0000_0000,
        0 <= gid,
        forall|i: int|
            0 <= i < s.glyphs.len() ==> #[trigger] s.glyphs[i] == (if gid + i <= 0xFFFF {
                gid + i
            } else {
                0
            }),
    ensures
        ({
            let r = group_map(m, s.first, gid, c);
            if s.first <= x < c && s.glyphs[x - s.first] != 0 {
                r.contains_key(x) && r[x] == s.glyphs[x - s.first]
            } else {
                r.contains_key(x) == m.contains_key(x) && (m.contains_key(x) ==> r[x] == m[x])
            }
        }),
    decreases c - s.first,
{
    if c > s.first {
        lemma_group_map(m, s, gid, c - 1, x);
        let i = c - 1 - s.first;
        assert(s.glyphs[i] == (if gid + i <= 0xFFFF {
            gid + i
        } else {
            0
        }));
    }
}

proof fn lemma_groups(w: Seq<u16>, rest: Seq<u8>, all: Seq<Stretch>, k: int)
    requires
        is_grouped(w, all),
        0 <= k <= all.len(),
    ensures
        groups_map(in_octets(w) + rest, k) matches Some(m) && gives(m, all, k),
    decreases k,
{
    let sub = in_octets(w) + rest;
    if k > 0 {
        lemma_groups(w, rest, all, k - 1);
        let m = groups_map(sub, k - 1)->0;
        let s = all[k - 1];
        assert(stands_grouped(w, k - 1, s));
        let at = 8 + 6 * (k - 1);
        lemma_long(w, rest, at);
        lemma_long(w, rest, at + 2);
        lemma_long(w, rest, at + 4);
        assert(2 * at == 16 + 12 * (k - 1));
        assert(2 * (at + 2) == 16 + 12 * (k - 1) + 4);
        assert(2 * (at + 4) == 16 + 12 * (k - 1) + 8);
        let gid = long_at(w, at + 4);
        let r = group_map(m, s.first, gid, s.last() + 1);
        assert(groups_map(sub, k) == Some(r));
        assert forall|c: u32|
            (#[trigger] r.contains_key(c) <==> glyph_among(all, k, c as int) != 0) && (
            r.contains_key(c) ==> r[c] == glyph_among(all, k, c as int)) by {
            assert(m.contains_key(c) <==> glyph_among(all, k - 1, c as int) != 0);
            lemma_group_map(m, s, gid, s.last() + 1, c);
        }
    }
}

/// A map of groups gives every character the glyph that was written for it.
pub proof fn law_grouped_map_comes_back(w: Seq<u16>, rest: Seq<u8>, all: Seq<Stretch>)
    requires
        is_grouped(w, all),
    ensures
        subtable_map(in_octets(w) + rest) matches Some(m) && gives(m, all, all.len() as int),
{
    lemma_word(w, rest, 0);
    lemma_long(w, rest, 6);
    lemma_groups(w, rest, all, all.len() as int);
}

/// A font stored either way gives each character the same glyph.
pub proof fn law_formats_agree(
    v: Seq<u16>,
    w: Seq<u16>,
    rest: Seq<u8>,
    more: Seq<u8>,
    all: Seq<Stretch>,
)
    requires
        is_segmented(v, all),
        is_grouped(w, all),
    ensures
        subtable_map(in_octets(v) + rest) == subtable_map(in_octets(w) + more),
{
    law_segmented_map_comes_back(v, rest, all);
    law_grouped_map_comes_back(w, more, all);
    let a = subtable_map(in_octets(v) + rest)->0;
    let b = subtable_map(in_octets(w) + more)->0;
    assert forall|c: u32| a.contains_key(c) == b.contains_key(c) && (a.contains_key(c) ==> a[c]
        == b[c]) by {
        assert(a.contains_key(c) <==> glyph_among(all, all.len() as int, c as int) != 0);
        assert(b.contains_key(c) <==> glyph_among(all, all.len() as int, c as int) != 0);
    }
    assert(a =~= b);
}

/// The line in which the maps of a font are asked: the full one for Windows,
/// the full ones for Unicode, the basic one for Windows, other Unicode maps.
pub open spec fn turn_of(platform: u16, encoding: u16) -> Option<int> {
    if platform == 3 {
        if encoding == 10 {
            Some(1)
        } else if encoding == 1 {
            Some(3)
        } else {
            None
        }
    } else if platform == 0 {
        if encoding == 4 || encoding == 6 {
            Some(2)
        } else {
            Some(4)
        }
    } else {
        None
    }
}

/// The map at place `k` is asked before the one at place `j`.
pub open spec fn is_asked_first(w: Seq<u16>, size: nat, k: int, j: int) -> bool {
    let (a, b) = (turn_of(w[2 + 4 * k], w[3 + 4 * k]), turn_of(w[2 + 4 * j], w[3 + 4 * j]));
    &&& a is Some
    &&& long_at(w, 4 + 4 * k) < size
    &&& b is None || long_at(w, 4 + 4 * j) >= size || a->0 < b->0 || (a->0 == b->0 && k <= j)
}

proof fn lemma_preferred(w: Seq<u16>, rest: Seq<u8>, k: int, n: int, m: int)
    requires
        0 <= k < n,
        0 <= m <= n,
        2 + 4 * n <= w.len(),
        forall|j: int|
            0 <= j < n ==> #[trigger] is_asked_first(w, 2 * w.len() + rest.len(), k, j),
    ensures
        match preferred(in_octets(w) + rest, m) {
            None => false,
            Some((best, score)) => if m > k {
                best == Some(long_at(w, 4 + 4 * k)) && score == preference(
                    w[2 + 4 * k],
                    w[3 + 4 * k],
                )
            } else {
                score < preference(w[2 + 4 * k], w[3 + 4 * k])
            },
        },
    decreases m,
{
    let d = in_octets(w) + rest;
    assert(is_asked_first(w, 2 * w.len() + rest.len(), k, k));
    if m > 0 {
        let j = m - 1;
        lemma_preferred(w, rest, k, n, j);
        lemma_word(w, rest, 2 + 4 * j);
        lemma_word(w, rest, 3 + 4 * j);
        lemma_long(w, rest, 4 + 4 * j);
        assert(2 * (2 + 4 * j) == 4 + 8 * j);
        assert(2 * (3 + 4 * j) == 4 + 8 * j + 2);
        assert(2 * (4 + 4 * j) == 4 + 8 * j + 4);
        assert(is_asked_first(w, 2 * w.len() + rest.len(), k, j));
        assert(d.len() == 2 * w.len() + rest.len());
    }
}

/// Of the maps in a font the one that is first in line is read. The number of
/// maps stands in the second place, and behind it of each map the platform, the
/// encoding and where it starts.
pub proof fn law_first_map_in_line_is_read(w: Seq<u16>, rest: Seq<u8>, k: int)
    requires
        2 <= w.len(),
        w[1] <= 64,
        2 + 4 * w[1] <= w.len(),
        0 <= k < w[1],
        forall|j: int|
            0 <= j < w[1] ==> #[trigger] is_asked_first(w, 2 * w.len() + rest.len(), k, j),
    ensures
        char_map(in_octets(w) + rest) == subtable_map(
            (in_octets(w) + rest).skip(long_at(w, 4 + 4 * k)),
        ),
{
    lemma_word(w, rest, 1);
    lemma_preferred(w, rest, k, w[1] as int, w[1] as int);
}

// ------------------------------------------------------------------ widths

/// Every glyph has the width that was written for it; those past the last one
/// written share that.
pub proof fn law_widths_come_back(w: Seq<u16>, rest: Seq<u8>, written: int, n: int)
    requires
        0 < written,
        2 * written <= w.len(),
        0 <= n,
    ensures
        advances_of(in_octets(w) + rest, written, n).len() == n,
        forall|g: int|
            0 <= g < n ==> #[trigger] advances_of(in_octets(w) + rest, written, n)[g] == w[2 * (
            if g < written {
                g
            } else {
                written - 1
            })],
    decreases n,
{
    if n > 0 {
        law_widths_come_back(w, rest, written, n - 1);
        if n - 1 < written {
            lemma_word(w, rest, 2 * (n - 1));
            assert(2 * (2 * (n - 1)) == 4 * (n - 1));
        }
    }
}

// ------------------------------------------------------------------ tables

/// The record at place `k` of a font file names the table.
pub open spec fn names(w: Seq<u16>, k: int, name: int) -> bool {
    long_at(w, 6 + 8 * k) == name
}

proof fn lemma_table(w: Seq<u16>, rest: Seq<u8>, k: int, n: int, name: u32)
    requires
        0 <= k < n,
        6 + 8 * n <= w.len(),
        names(w, k, name as int),
        long_at(w, 10 + 8 * k) + long_at(w, 12 + 8 * k) <= 2 * w.len() + rest.len(),
        forall|j: int| k < j < n ==> !#[trigger] names(w, j, name as int),
    ensures
        table_at(in_octets(w) + rest, n, name) == Some(
            (long_at(w, 10 + 8 * k), long_at(w, 12 + 8 * k)),
        ),
    decreases n,
{
    let j = n - 1;
    lemma_long(w, rest, 6 + 8 * j);
    lemma_long(w, rest, 10 + 8 * j);
    lemma_long(w, rest, 12 + 8 * j);
    assert(2 * (6 + 8 * j) == 12 + 16 * j);
    assert(2 * (10 + 8 * j) == 12 + 16 * j + 8);
    assert(2 * (12 + 8 * j) == 12 + 16 * j + 12);
    if k < j {
        assert(!names(w, j, name as int));
        lemma_table(w, rest, k, n - 1, name);
    }
}

/// Where a table of a font file stands: the name, where it starts and how long
/// it is, at place `k` of the records, and no later record of that name.
pub open spec fn is_table(w: Seq<u16>, rest: Seq<u8>, k: int, name: int, table: Seq<u8>) -> bool {
    let (off, len) = (long_at(w, 10 + 8 * k), long_at(w, 12 + 8 * k));
    &&& 0 <= k < w[2]
    &&& names(w, k, name)
    &&& off + len <= 2 * w.len() + rest.len()
    &&& (in_octets(w) + rest).subrange(off, off + len) == table
    &&& forall|j: int| k < j < w[2] ==> !#[trigger] names(w, j, name)
}

/// A font file: the mark, the number of tables in the third place, the records
/// of the tables, and the tables themselves.
pub struct FontFile {
    pub numbers: Seq<u16>,
    pub rest: Seq<u8>,
    /// Which records are those of the tables `head`, `hhea`, `hmtx`, `maxp` and
    /// `cmap`.
    pub at: (int, int, int, int, int),
    /// The numbers in those tables, and what follows them.
    pub head: (Seq<u16>, Seq<u8>),
    pub hhea: (Seq<u16>, Seq<u8>),
    pub hmtx: (Seq<u16>, Seq<u8>),
    pub maxp: (Seq<u16>, Seq<u8>),
    pub cmap: (Seq<u16>, Seq<u8>),
    /// Which of its maps is first in line, the numbers in it, and what follows.
    pub map: int,
    pub sub: (Seq<u16>, Seq<u8>),
}

/// A table in octets.
pub open spec fn table_octets(t: (Seq<u16>, Seq<u8>)) -> Seq<u8> {
    in_octets(t.0) + t.1
}

/// The file is put together from its tables, and holds the stretches.
pub open spec fn is_font_file(f: FontFile, all: Seq<Stretch>) -> bool {
    let w = f.numbers;
    &&& 6 <= w.len()
    &&& w[2] <= 512
    &&& 6 + 8 * w[2] <= w.len()
    &&& long_at(w, 0) == 0x0001_0000 || long_at(w, 0) == 0x7472_7565
    &&& is_table(w, f.rest, f.at.0, 0x6865_6164, table_octets(f.head))
    &&& is_table(w, f.rest, f.at.1, 0x6868_6561, table_octets(f.hhea))
    &&& is_table(w, f.rest, f.at.2, 0x686D_7478, table_octets(f.hmtx))
    &&& is_table(w, f.rest, f.at.3, 0x6D61_7870, table_octets(f.maxp))
    &&& is_table(w, f.rest, f.at.4, 0x636D_6170, table_octets(f.cmap))
    &&& 26 <= f.head.0.len()
    &&& 18 <= f.hhea.0.len()
    &&& 3 <= f.maxp.0.len()
    &&& 0 < f.hhea.0[17]
    &&& 2 * f.hhea.0[17] <= f.hmtx.0.len()
    &&& is_map_table(f.cmap, f.map)
    &&& table_octets(f.cmap).skip(long_at(f.cmap.0, 4 + 4 * f.map)) == table_octets(f.sub)
    &&& is_segmented(f.sub.0, all) || is_grouped(f.sub.0, all)
}

/// The map at place `k` is first in line.
pub open spec fn is_map_table(t: (Seq<u16>, Seq<u8>), k: int) -> bool {
    &&& 2 <= t.0.len()
    &&& t.0[1] <= 64
    &&& 2 + 4 * t.0[1] <= t.0.len()
    &&& 0 <= k < t.0[1]
    &&& forall|j: int|
        0 <= j < t.0[1] ==> #[trigger] is_asked_first(
            t.0,
            2 * t.0.len() + t.1.len(),
            k,
            j,
        )
}

proof fn lemma_one_table(w: Seq<u16>, rest: Seq<u8>, k: int, name: u32, t: (Seq<u16>, Seq<u8>))
    requires
        6 <= w.len(),
        6 + 8 * w[2] <= w.len(),
        is_table(w, rest, k, name as int, table_octets(t)),
    ensures
        table_of(in_octets(w) + rest, w[2] as int, name) == Some(table_octets(t)),
{
    lemma_table(w, rest, k, w[2] as int, name);
}

/// A font file is read as it was put together: every character has the glyph
/// that was written for it, every glyph its width, and the em its units. A file
/// without a glyph for any character holds no font.
pub proof fn law_font_comes_back(f: FontFile, all: Seq<Stretch>)
    requires
        is_font_file(f, all),
    ensures
        match font_model(in_octets(f.numbers) + f.rest) {
            Some(m) => {
                &&& gives(m.map, all, all.len() as int)
                &&& m.units_per_em == (if f.head.0[9] == 0 {
                    1
                } else {
                    f.head.0[9]
                })
                &&& m.advances.len() == f.maxp.0[2]
                &&& forall|g: int|
                    0 <= g < f.maxp.0[2] ==> #[trigger] m.advances[g] == f.hmtx.0[2 * (if g
                        < f.hhea.0[17] {
                        g
                    } else {
                        f.hhea.0[17] - 1
                    })]
            },
            None => forall|c: int|
                0 <= c <= u32::MAX ==> #[trigger] glyph_among(all, all.len() as int, c) == 0,
        },
{
    let w = f.numbers;
    let data = in_octets(w) + f.rest;
    lemma_long(w, f.rest, 0);
    lemma_word(w, f.rest, 2);
    lemma_one_table(w, f.rest, f.at.0, 0x6865_6164, f.head);
    lemma_one_table(w, f.rest, f.at.1, 0x6868_6561, f.hhea);
    lemma_one_table(w, f.rest, f.at.2, 0x686D_7478, f.hmtx);
    lemma_one_table(w, f.rest, f.at.3, 0x6D61_7870, f.maxp);
    lemma_one_table(w, f.rest, f.at.4, 0x636D_6170, f.cmap);
    lemma_word(f.head.0, f.head.1, 9);
    lemma_word(f.head.0, f.head.1, 25);
    lemma_word(f.hhea.0, f.hhea.1, 17);
    lemma_word(f.maxp.0, f.maxp.1, 2);
    law_first_map_in_line_is_read(f.cmap.0, f.cmap.1, f.map);
    if is_segmented(f.sub.0, all) {
        law_segmented_map_comes_back(f.sub.0, f.sub.1, all);
    } else {
        law_grouped_map_comes_back(f.sub.0, f.sub.1, all);
    }
    law_widths_come_back(f.hmtx.0, f.hmtx.1, f.hhea.0[17] as int, f.maxp.0[2] as int);
    let m = char_map(table_octets(f.cmap))->0;
    if m == Map::<u32, u16>::empty() {
        assert forall|c: int| 0 <= c <= u32::MAX implies #[trigger] glyph_among(
            all,
            all.len() as int,
            c,
        ) == 0 by {
            assert(!m.contains_key(c as u32));
        }
    }
}

} // verus!
