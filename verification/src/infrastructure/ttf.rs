//! The little of TrueType that embedding a font in a PDF needs: which glyph
//! draws a character, and how wide it is.
use crate::infrastructure::octets::{be16_at, be16_of, be32_at, be32_of};
use std::collections::HashMap;
use vstd::prelude::*;
use vstd::slice::slice_subrange;
use vstd::string::*;

verus! {

broadcast use vstd::std_specs::hash::group_hash_axioms;

pub const HEAD: u32 = 0x6865_6164;

pub const HHEA: u32 = 0x6868_6561;

pub const HMTX: u32 = 0x686D_7478;

pub const MAXP: u32 = 0x6D61_7870;

pub const CMAP: u32 = 0x636D_6170;

// ----------------------------------------------------------------- the tables

/// The table records can all be read.
pub open spec fn records_readable(data: Seq<u8>, n: int) -> bool {
    n == 0 || 12 + 16 * n <= data.len()
}

/// Where the table `name` lies according to the first `n` records; a later
/// record replaces an earlier one, and one that starts outside the file does
/// not count.
pub open spec fn table_at(data: Seq<u8>, n: int, name: u32) -> Option<(int, int)>
    decreases n,
{
    if n <= 0 {
        None
    } else {
        let rec = 12 + 16 * (n - 1);
        match (be32_of(data, rec), be32_of(data, rec + 8), be32_of(data, rec + 12)) {
            (Some(tag), Some(off), Some(len)) => if tag == name && off <= data.len() {
                Some(
                    (
                        off as int,
                        if len < data.len() - off {
                            len as int
                        } else {
                            data.len() - off
                        },
                    ),
                )
            } else {
                table_at(data, n - 1, name)
            },
            _ => None,
        }
    }
}

/// The contents of the table `name`.
pub open spec fn table_of(data: Seq<u8>, n: int, name: u32) -> Option<Seq<u8>> {
    match table_at(data, n, name) {
        Some((off, len)) => Some(data.subrange(off, off + len)),
        None => None,
    }
}

fn find_table<'a>(data: &'a [u8], n: usize, name: u32) -> (r: Option<&'a [u8]>)
    requires
        n <= 512,
        records_readable(data@, n as int),
    ensures
        match (r, table_of(data@, n as int, name)) {
            (Some(a), Some(b)) => a@ == b,
            (None, None) => true,
            _ => false,
        },
{
    let mut i: usize = n;
    while i > 0
        invariant
            i <= n <= 512,
            records_readable(data@, n as int),
            table_at(data@, n as int, name) == table_at(data@, i as int, name),
        decreases i,
    {
        let rec: usize = 12 + 16 * (i - 1);
        match (be32_at(data, rec), be32_at(data, rec + 8), be32_at(data, rec + 12)) {
            (Some(tag), Some(off), Some(len)) => {
                if tag == name && off as usize <= data.len() {
                    let off: usize = off as usize;
                    let rest: usize = data.len() - off;
                    let take: usize = if (len as usize) < rest {
                        len as usize
                    } else {
                        rest
                    };
                    return Some(slice_subrange(data, off, off + take));
                }
            },
            _ => {
                return None;
            },
        }
        i -= 1;
    }
    None
}

// ------------------------------------------------------------ character maps

/// How much a character map of a platform and encoding is preferred.
pub open spec fn preference(platform: u16, encoding: u16) -> int {
    if platform == 3 && encoding == 10 {
        4
    } else if platform == 0 && (encoding == 4 || encoding == 6) {
        3
    } else if platform == 3 && encoding == 1 {
        2
    } else if platform == 0 {
        1
    } else {
        -1
    }
}

/// The preferred subtable among the first `n`: its offset and preference, the
/// first of equals. Nothing when a record cannot be read.
pub open spec fn preferred(d: Seq<u8>, n: int) -> Option<(Option<int>, int)>
    decreases n,
{
    if n <= 0 {
        Some((None, -1))
    } else {
        match preferred(d, n - 1) {
            None => None,
            Some((best, score)) => {
                let rec = 4 + 8 * (n - 1);
                match (be16_of(d, rec), be16_of(d, rec + 2), be32_of(d, rec + 4)) {
                    (Some(platform), Some(encoding), Some(off)) => if preference(
                        platform,
                        encoding,
                    ) > score && off < d.len() {
                        Some((Some(off as int), preference(platform, encoding)))
                    } else {
                        Some((best, score))
                    },
                    _ => None,
                }
            },
        }
    }
}

/// `m` with one more character; glyph zero draws nothing and is left out.
pub open spec fn mapped(m: Map<u32, u16>, c: u32, gid: int) -> Map<u32, u16> {
    if gid == 0 {
        m
    } else {
        m.insert(c, gid as u16)
    }
}

/// One segment of a segmented map.
pub struct Segment {
    pub end: int,
    pub start: int,
    pub delta: int,
    pub range_off: int,
    /// Where the segment's own range offset stands.
    pub at: int,
}

/// The glyph that a segment gives a character; zero for none.
pub open spec fn segment_glyph(sub: Seq<u8>, g: Segment, c: int) -> int {
    if c == 0xFFFF {
        0
    } else if g.range_off == 0 {
        (c + g.delta) % 0x1_0000
    } else {
        match be16_of(sub, g.at + g.range_off + 2 * (c - g.start)) {
            Some(v) => if v == 0 {
                0
            } else {
                (v + g.delta) % 0x1_0000
            },
            None => 0,
        }
    }
}

/// `m` with the characters of a segment from its start up to but not
/// including `c`.
pub open spec fn segment_map(sub: Seq<u8>, g: Segment, m: Map<u32, u16>, c: int) -> Map<u32, u16>
    decreases c - g.start,
{
    if c <= g.start {
        m
    } else {
        mapped(segment_map(sub, g, m, c - 1), (c - 1) as u32, segment_glyph(sub, g, c - 1))
    }
}

/// The segment `s` of `segs`.
pub open spec fn segment(sub: Seq<u8>, segs: int, s: int) -> Option<Segment> {
    let starts = 16 + 2 * segs;
    let deltas = starts + 2 * segs;
    let ranges = deltas + 2 * segs;
    match (
        be16_of(sub, 14 + 2 * s),
        be16_of(sub, starts + 2 * s),
        be16_of(sub, deltas + 2 * s),
        be16_of(sub, ranges + 2 * s),
    ) {
        (Some(end), Some(start), Some(delta), Some(range_off)) => Some(
            Segment {
                end: end as int,
                start: start as int,
                delta: delta as int,
                range_off: range_off as int,
                at: ranges + 2 * s,
            },
        ),
        _ => None,
    }
}

/// The map of the first `s` segments.
pub open spec fn segments_map(sub: Seq<u8>, segs: int, s: int) -> Option<Map<u32, u16>>
    decreases s,
{
    if s <= 0 {
        Some(Map::empty())
    } else {
        match segments_map(sub, segs, s - 1) {
            None => None,
            Some(m) => match segment(sub, segs, s - 1) {
                None => None,
                Some(g) => Some(segment_map(sub, g, m, g.end + 1)),
            },
        }
    }
}

/// `m` with the characters of a group from `start` up to but not including
/// `c`, whose glyphs count up from `gid`.
pub open spec fn group_map(m: Map<u32, u16>, start: int, gid: int, c: int) -> Map<u32, u16>
    decreases c - start,
{
    if c <= start {
        m
    } else {
        let id = gid + (c - 1 - start);
        mapped(
            group_map(m, start, gid, c - 1),
            (c - 1) as u32,
            if id <= 0xFFFF {
                id
            } else {
                0
            },
        )
    }
}

/// The map of the first `g` groups; one that is empty or absurdly long does
/// not count.
pub open spec fn groups_map(sub: Seq<u8>, g: int) -> Option<Map<u32, u16>>
    decreases g,
{
    if g <= 0 {
        Some(Map::empty())
    } else {
        match groups_map(sub, g - 1) {
            None => None,
            Some(m) => {
                let rec = 16 + 12 * (g - 1);
                match (be32_of(sub, rec), be32_of(sub, rec + 4), be32_of(sub, rec + 8)) {
                    (Some(start), Some(end), Some(gid)) => if start > end || end - start
                        > 0x1_0000 {
                        Some(m)
                    } else {
                        Some(group_map(m, start as int, gid as int, end + 1))
                    },
                    _ => None,
                }
            },
        }
    }
}

pub open spec fn at_most(v: int, limit: int) -> int {
    if v < limit {
        v
    } else {
        limit
    }
}

/// The map that a subtable holds, in the two formats that are read.
pub open spec fn subtable_map(sub: Seq<u8>) -> Option<Map<u32, u16>> {
    match be16_of(sub, 0) {
        None => None,
        Some(format) => if format == 4 {
            match be16_of(sub, 6) {
                None => None,
                Some(v) => segments_map(sub, (v / 2) as int, (v / 2) as int),
            }
        } else if format == 12 {
            match be32_of(sub, 12) {
                None => None,
                Some(n) => groups_map(sub, at_most(n as int, 200_000)),
            }
        } else {
            None
        },
    }
}

/// The map from characters to glyphs that a `cmap` table holds.
pub open spec fn char_map(d: Seq<u8>) -> Option<Map<u32, u16>> {
    match be16_of(d, 2) {
        None => None,
        Some(n) => match preferred(d, at_most(n as int, 64)) {
            Some((Some(off), _)) => subtable_map(d.skip(off)),
            _ => None,
        },
    }
}

fn score_of(platform: u16, encoding: u16) -> (r: i32)
    ensures
        r == preference(platform, encoding),
{
    if platform == 3 && encoding == 10 {
        4
    } else if platform == 0 && (encoding == 4 || encoding == 6) {
        3
    } else if platform == 3 && encoding == 1 {
        2
    } else if platform == 0 {
        1
    } else {
        -1
    }
}

fn put_glyph(map: &mut HashMap<u32, u16>, c: u32, gid: u16)
    ensures
        final(map)@ == mapped(old(map)@, c, gid as int),
{
    if gid != 0 {
        map.insert(c, gid);
    }
}

/// Maps the characters of one segment, whose range offset stands at `at`.
fn map_segment(
    sub: &[u8],
    map: &mut HashMap<u32, u16>,
    start: u16,
    end: u16,
    delta: u16,
    range_off: u16,
    at: usize,
)
    requires
        at <= 0x5_0000,
    ensures
        final(map)@ == segment_map(
            sub@,
            Segment {
                end: end as int,
                start: start as int,
                delta: delta as int,
                range_off: range_off as int,
                at: at as int,
            },
            old(map)@,
            end + 1,
        ),
{
    let ghost before = map@;
    let ghost g = Segment {
        end: end as int,
        start: start as int,
        delta: delta as int,
        range_off: range_off as int,
        at: at as int,
    };
    if start > end {
        return;
    }
    let mut c: u32 = start as u32;
    while c <= end as u32
        invariant
            start <= c <= end + 1,
            at <= 0x5_0000,
            g == (Segment {
                end: end as int,
                start: start as int,
                delta: delta as int,
                range_off: range_off as int,
                at: at as int,
            }),
            map@ == segment_map(sub@, g, before, c as int),
        decreases end + 1 - c,
    {
        let mut gid: u16 = 0;
        if c != 0xFFFF {
            if range_off == 0 {
                gid = ((c + delta as u32) % 0x1_0000) as u16;
            } else {
                let from: usize = at + range_off as usize + (c - start as u32) as usize * 2;
                match be16_at(sub, from) {
                    Some(v) => {
                        if v != 0 {
                            gid = ((v as u32 + delta as u32) % 0x1_0000) as u16;
                        }
                    },
                    None => {},
                }
            }
        }
        put_glyph(map, c, gid);
        c += 1;
    }
}

/// Reads a segmented map (format 4).
fn read_segments(sub: &[u8]) -> (r: Option<HashMap<u32, u16>>)
    ensures
        match (
            r,
            match be16_of(sub@, 6) {
                None => None,
                Some(v) => segments_map(sub@, (v / 2) as int, (v / 2) as int),
            },
        ) {
            (Some(a), Some(b)) => a@ == b,
            (None, None) => true,
            _ => false,
        },
{
    let segs: usize = match be16_at(sub, 6) {
        Some(v) => (v / 2) as usize,
        None => {
            return None;
        },
    };
    let starts: usize = 16 + 2 * segs;
    let deltas: usize = starts + 2 * segs;
    let ranges: usize = deltas + 2 * segs;
    let mut map: HashMap<u32, u16> = HashMap::new();
    let ghost want = segments_map(sub@, segs as int, segs as int);
    let mut s: usize = 0;
    while s < segs
        invariant
            s <= segs <= 0x7FFF,
            starts == 16 + 2 * segs,
            deltas == starts + 2 * segs,
            ranges == deltas + 2 * segs,
            segments_map(sub@, segs as int, s as int) == Some(map@),
            want == segments_map(sub@, segs as int, segs as int),
            be16_of(sub@, 6) matches Some(v) && segs == v / 2,
        decreases segs - s,
    {
        let (end, start, delta, range_off): (u16, u16, u16, u16) = match (
            be16_at(sub, 14 + 2 * s),
            be16_at(sub, starts + 2 * s),
            be16_at(sub, deltas + 2 * s),
            be16_at(sub, ranges + 2 * s),
        ) {
            (Some(a), Some(b), Some(c), Some(d)) => (a, b, c, d),
            _ => {
                proof {
                    lemma_segments_fail(sub@, segs as int, s + 1, segs as int);
                }
                return None;
            },
        };
        map_segment(sub, &mut map, start, end, delta, range_off, ranges + 2 * s);
        s += 1;
    }
    Some(map)
}

proof fn lemma_segments_fail(sub: Seq<u8>, segs: int, s: int, n: int)
    requires
        segments_map(sub, segs, s) is None,
        s <= n,
    ensures
        segments_map(sub, segs, n) is None,
    decreases n,
{
    if s < n {
        lemma_segments_fail(sub, segs, s, n - 1);
        if n <= 0 {
        }
    }
}

proof fn lemma_groups_fail(sub: Seq<u8>, g: int, n: int)
    requires
        groups_map(sub, g) is None,
        g <= n,
    ensures
        groups_map(sub, n) is None,
    decreases n,
{
    if g < n {
        lemma_groups_fail(sub, g, n - 1);
        if n <= 0 {
        }
    }
}

proof fn lemma_preferred_fail(d: Seq<u8>, k: int, n: int)
    requires
        preferred(d, k) is None,
        k <= n,
    ensures
        preferred(d, n) is None,
    decreases n,
{
    if k < n {
        lemma_preferred_fail(d, k, n - 1);
        if n <= 0 {
        }
    }
}

/// Reads a map of groups (format 12).
fn read_groups(sub: &[u8]) -> (r: Option<HashMap<u32, u16>>)
    ensures
        match (
            r,
            match be32_of(sub@, 12) {
                None => None,
                Some(n) => groups_map(sub@, at_most(n as int, 200_000)),
            },
        ) {
            (Some(a), Some(b)) => a@ == b,
            (None, None) => true,
            _ => false,
        },
{
    let groups: usize = match be32_at(sub, 12) {
        Some(v) => if v < 200_000 {
            v as usize
        } else {
            200_000
        },
        None => {
            return None;
        },
    };
    let mut map: HashMap<u32, u16> = HashMap::new();
    let mut g: usize = 0;
    while g < groups
        invariant
            g <= groups <= 200_000,
            groups_map(sub@, g as int) == Some(map@),
            be32_of(sub@, 12) matches Some(n) && groups == at_most(n as int, 200_000),
        decreases groups - g,
    {
        let ghost before = map@;
        let rec: usize = 16 + 12 * g;
        let (start, end, gid): (u32, u32, u32) = match (
            be32_at(sub, rec),
            be32_at(sub, rec + 4),
            be32_at(sub, rec + 8),
        ) {
            (Some(a), Some(b), Some(c)) => (a, b, c),
            _ => {
                proof {
                    lemma_groups_fail(sub@, g + 1, groups as int);
                }
                return None;
            },
        };
        if start <= end && end - start <= 0x1_0000 {
            let mut c: u64 = start as u64;
            while c <= end as u64
                invariant
                    start <= c <= end + 1,
                    map@ == group_map(before, start as int, gid as int, c as int),
                decreases end + 1 - c,
            {
                let id: u64 = gid as u64 + (c - start as u64);
                let glyph: u16 = if id <= 0xFFFF {
                    id as u16
                } else {
                    0
                };
                put_glyph(&mut map, c as u32, glyph);
                c += 1;
            }
        }
        g += 1;
    }
    Some(map)
}

fn read_cmap(d: &[u8]) -> (r: Option<HashMap<u32, u16>>)
    ensures
        match (r, char_map(d@)) {
            (Some(a), Some(b)) => a@ == b,
            (None, None) => true,
            _ => false,
        },
{
    let n: usize = match be16_at(d, 2) {
        Some(v) => if v < 64 {
            v as usize
        } else {
            64
        },
        None => {
            return None;
        },
    };
    let mut best: Option<usize> = None;
    let mut best_score: i32 = -1;
    let mut i: usize = 0;
    while i < n
        invariant
            i <= n <= 64,
            be16_of(d@, 2) matches Some(v) && n == at_most(v as int, 64),
            preferred(d@, i as int) == Some(
                (
                    match best {
                        Some(o) => Some(o as int),
                        None => None,
                    },
                    best_score as int,
                ),
            ),
            best matches Some(o) ==> o < d@.len(),
        decreases n - i,
    {
        let rec: usize = 4 + 8 * i;
        let (platform, encoding, off): (u16, u16, u32) = match (
            be16_at(d, rec),
            be16_at(d, rec + 2),
            be32_at(d, rec + 4),
        ) {
            (Some(a), Some(b), Some(c)) => (a, b, c),
            _ => {
                proof {
                    lemma_preferred_fail(d@, i + 1, n as int);
                }
                return None;
            },
        };
        let score: i32 = score_of(platform, encoding);
        if score > best_score && (off as usize) < d.len() {
            best_score = score;
            best = Some(off as usize);
        }
        i += 1;
    }
    let off: usize = match best {
        Some(o) => o,
        None => {
            return None;
        },
    };
    let sub = slice_subrange(d, off, d.len());
    proof {
        assert(sub@ =~= d@.skip(off as int));
    }
    match be16_at(sub, 0) {
        None => None,
        Some(format) => {
            if format == 4 {
                read_segments(sub)
            } else if format == 12 {
                read_groups(sub)
            } else {
                None
            }
        },
    }
}

// ------------------------------------------------------------------- the font

/// The advance widths of the first `n` glyphs. Glyphs past the long metrics,
/// and any whose metric is missing, repeat the last width.
pub open spec fn advances_of(hmtx: Seq<u8>, long_metrics: int, n: int) -> Seq<u16>
    decreases n,
{
    if n <= 0 {
        Seq::empty()
    } else {
        let shorter = advances_of(hmtx, long_metrics, n - 1);
        let last = if n == 1 {
            0u16
        } else {
            shorter.last()
        };
        shorter.push(
            if n - 1 < long_metrics {
                match be16_of(hmtx, 4 * (n - 1)) {
                    Some(v) => v,
                    None => last,
                }
            } else {
                last
            },
        )
    }
}

/// What parsing takes out of a font file.
pub struct FontModel {
    pub units_per_em: u16,
    pub map: Map<u32, u16>,
    pub advances: Seq<u16>,
}

/// The font that a file holds. A collection, a file with a table missing or
/// cut short, and one without a usable character map hold none.
pub open spec fn font_model(data: Seq<u8>) -> Option<FontModel> {
    match (be32_of(data, 0), be16_of(data, 4)) {
        (Some(tag), Some(count)) => {
            let n = at_most(count as int, 512);
            if (tag != 0x0001_0000 && tag != 0x7472_7565) || !records_readable(data, n) {
                None
            } else {
                match (
                    table_of(data, n, HEAD),
                    table_of(data, n, HHEA),
                    table_of(data, n, HMTX),
                    table_of(data, n, MAXP),
                    table_of(data, n, CMAP),
                ) {
                    (Some(head), Some(hhea), Some(hmtx), Some(maxp), Some(cmap)) => match (
                        be16_of(head, 18),
                        be16_of(head, 50),
                        be16_of(hhea, 34),
                        be16_of(maxp, 4),
                        char_map(cmap),
                    ) {
                        (Some(em), Some(_), Some(long_metrics), Some(glyphs), Some(map)) => {
                            if map == Map::<u32, u16>::empty() {
                                None
                            } else {
                                Some(
                                    FontModel {
                                        units_per_em: if em < 1 {
                                            1u16
                                        } else {
                                            em
                                        },
                                        map,
                                        advances: advances_of(
                                            hmtx,
                                            long_metrics as int,
                                            glyphs as int,
                                        ),
                                    },
                                )
                            }
                        },
                        _ => None,
                    },
                    _ => None,
                }
            }
        },
        _ => None,
    }
}

/// A character that may stand in a PostScript name.
pub open spec fn name_char(c: char) -> bool {
    ('0' <= c && c <= '9') || ('A' <= c && c <= 'Z') || ('a' <= c && c <= 'z') || c == '-'
}

/// The first `n` characters of a path, reduced to a name: what follows the
/// last separator, up to the first dot, without characters a name may not
/// hold. The flag says that a dot has been passed.
pub open spec fn name_of(s: Seq<char>, n: int) -> (Seq<char>, bool)
    decreases n,
{
    if n <= 0 {
        (Seq::empty(), false)
    } else {
        let (name, dotted) = name_of(s, n - 1);
        let c = s[n - 1];
        if c == '/' || c == '\\' {
            (Seq::empty(), false)
        } else if c == '.' {
            (name, true)
        } else if !dotted && name_char(c) {
            (name.push(c), dotted)
        } else {
            (name, dotted)
        }
    }
}

/// A name that can be written into a PDF, made from a font's path.
pub open spec fn postscript_name(s: Seq<char>) -> Seq<char> {
    let name = name_of(s, s.len() as int).0;
    if name.len() == 0 {
        "EmbeddedFont"@
    } else {
        name
    }
}

fn sanitise(s: &str) -> (r: String)
    ensures
        r@ == postscript_name(s@),
{
    let n: usize = s.unicode_len();
    let mut out = String::new();
    let mut dotted: bool = false;
    let mut i: usize = 0;
    while i < n
        invariant
            i <= n,
            n == s@.len(),
            (out@, dotted) == name_of(s@, i as int),
        decreases n - i,
    {
        let c: char = s.get_char(i);
        if c == '/' || c == '\\' {
            out = String::new();
            dotted = false;
        } else if c == '.' {
            dotted = true;
        } else if !dotted && (('0' <= c && c <= '9') || ('A' <= c && c <= 'Z') || ('a' <= c && c
            <= 'z') || c == '-') {
            out.push(c);
        }
        i += 1;
    }
    if out.as_str().unicode_len() == 0 {
        return String::from_str("EmbeddedFont");
    }
    out
}

/// A TrueType font, parsed as far as embedding needs.
pub struct Font {
    /// The font file. A PDF gets only the glyphs it uses.
    pub data: Vec<u8>,
    /// Design units per em.
    pub units_per_em: u16,
    /// The glyph of each character.
    pub cmap: HashMap<u32, u16>,
    /// The advance width of each glyph, in design units.
    pub advances: Vec<u16>,
    /// A PostScript name that can be written into a PDF.
    pub name: String,
}

impl Font {
    /// What was parsed.
    pub open spec fn model(self) -> FontModel {
        FontModel {
            units_per_em: self.units_per_em,
            map: self.cmap@,
            advances: self.advances@,
        }
    }

    /// The units per em can be divided by.
    pub open spec fn wf(self) -> bool {
        self.model().units_per_em > 0
    }

    /// Reads a font file.
    pub fn parse(data: Vec<u8>, fallback_name: &str) -> (r: Option<Font>)
        ensures
            match (r, font_model(data@)) {
                (Some(f), Some(m)) => f.model() == m && f.data@ == data@ && f.name@
                    == postscript_name(fallback_name@) && f.wf(),
                (None, None) => true,
                _ => false,
            },
    {
        let (tag, count): (u32, u16) = match (
            be32_at(data.as_slice(), 0),
            be16_at(data.as_slice(), 4),
        ) {
            (Some(a), Some(b)) => (a, b),
            _ => {
                return None;
            },
        };
        if tag != 0x0001_0000 && tag != 0x7472_7565 {
            return None;
        }
        let n: usize = if count < 512 {
            count as usize
        } else {
            512
        };
        if n > 0 && data.len() < 12 + 16 * n {
            return None;
        }
        let d = data.as_slice();
        let (head, hhea, hmtx, maxp, cmap) = match (
            find_table(d, n, HEAD),
            find_table(d, n, HHEA),
            find_table(d, n, HMTX),
            find_table(d, n, MAXP),
            find_table(d, n, CMAP),
        ) {
            (Some(a), Some(b), Some(c), Some(e), Some(f)) => (a, b, c, e, f),
            _ => {
                return None;
            },
        };
        let (em, long_metrics, glyphs, map) = match (
            be16_at(head, 18),
            be16_at(head, 50),
            be16_at(hhea, 34),
            be16_at(maxp, 4),
            read_cmap(cmap),
        ) {
            (Some(a), Some(_), Some(b), Some(c), Some(m)) => (a, b as usize, c as usize, m),
            _ => {
                return None;
            },
        };
        proof {
            if map@.is_empty() {
                assert(map@ =~= Map::<u32, u16>::empty());
            }
        }
        if map.is_empty() {
            return None;
        }
        let mut advances: Vec<u16> = Vec::new();
        let mut last: u16 = 0;
        let mut g: usize = 0;
        while g < glyphs
            invariant
                g <= glyphs <= 0xFFFF,
                advances@ == advances_of(hmtx@, long_metrics as int, g as int),
                last == (if g == 0 {
                    0u16
                } else {
                    advances@.last()
                }),
            decreases glyphs - g,
        {
            if g < long_metrics {
                last = match be16_at(hmtx, 4 * g) {
                    Some(v) => v,
                    None => last,
                };
            }
            advances.push(last);
            g += 1;
        }
        let name = sanitise(fallback_name);
        Some(
            Font {
                units_per_em: if em < 1 {
                    1
                } else {
                    em
                },
                cmap: map,
                advances,
                name,
                data,
            },
        )
    }

    /// The glyph that draws a character.
    pub fn glyph(&self, c: char) -> (r: Option<u16>)
        ensures
            r == (if self.model().map.contains_key(c as u32) {
                Some(self.model().map[c as u32])
            } else {
                None::<u16>
            }),
    {
        match self.cmap.get(&(c as u32)) {
            Some(g) => Some(*g),
            None => None,
        }
    }

    /// A glyph's width in the thousandths of an em that PDF counts in.
    pub fn width(&self, gid: u16) -> (w: u16)
        requires
            self.wf(),
        ensures
            w == at_most(
                (if gid < self.model().advances.len() {
                    self.model().advances[gid as int] as int
                } else {
                    0
                }) * 1000 / self.model().units_per_em as int,
                0xFFFF,
            ),
    {
        let raw: u32 = if (gid as usize) < self.advances.len() {
            self.advances[gid as usize] as u32
        } else {
            0
        };
        let w: u32 = raw * 1000 / self.units_per_em as u32;
        if w < 0xFFFF {
            w as u16
        } else {
            0xFFFF
        }
    }
}

} // verus!
