//! Which glyphs can be taken out of a font file: those that can be counted
//! with 16-bit numbers, together with the glyphs they are put together from
//! and with the names of the font.
use crate::adapters::pdf::subset::{assigned, glyph_order, is_only_place};
use crate::infrastructure::octets::{be16_at, be16_of, be32_at, be32_of};
use subsetter::GlyphRemapper;
use vstd::prelude::*;
use vstd::slice::slice_subrange;

verus! {

pub const GLYF: u32 = 0x676C_7966;

pub const LOCA: u32 = 0x6C6F_6361;

pub const HEAD: u32 = 0x6865_6164;

pub const NAME: u32 = 0x6E61_6D65;

pub const COMPACT: u32 = 0x4346_4620;

pub const COLLECTION: u32 = 0x7474_6366;

// ----------------------------------------------------------- the directory

/// Where the directory of the first font in a file starts.
#[verifier::opaque]
pub open spec fn font_start(d: Seq<u8>) -> int {
    if be32_of(d, 0) == Some(COLLECTION) {
        match be32_of(d, 12) {
            Some(at) => at as int,
            None => 0,
        }
    } else {
        0
    }
}

/// The name of the table record at place `i`.
pub open spec fn record_name(d: Seq<u8>, base: int, i: int) -> Option<u32> {
    be32_of(d, base + 12 + 16 * i)
}

/// The table of the record at place `i`, when it lies in the file.
pub open spec fn record_table(d: Seq<u8>, base: int, i: int) -> Option<Seq<u8>> {
    match (be32_of(d, base + 12 + 16 * i + 8), be32_of(d, base + 12 + 16 * i + 12)) {
        (Some(off), Some(len)) => if off + len <= d.len() {
            Some(d.subrange(off as int, off + len))
        } else {
            None
        },
        _ => None,
    }
}

/// The first of the records from `i` to `n` that has a name.
pub open spec fn first_record(d: Seq<u8>, base: int, i: int, n: int, name: u32) -> Option<int>
    decreases n - i,
{
    if i >= n {
        None
    } else if record_name(d, base, i) == Some(name) {
        Some(i)
    } else {
        first_record(d, base, i + 1, n, name)
    }
}

/// No two records have the name, so that it is settled which table it means.
#[verifier::opaque]
pub open spec fn is_settled(d: Seq<u8>, base: int, n: int, name: u32) -> bool {
    match first_record(d, base, 0, n, name) {
        Some(i) => first_record(d, base, i + 1, n, name) is None,
        None => true,
    }
}

/// The table with the name, when there is one and it lies in the file.
#[verifier::opaque]
pub open spec fn stored_table(d: Seq<u8>, base: int, n: int, name: u32) -> Option<Seq<u8>> {
    match first_record(d, base, 0, n, name) {
        Some(i) => record_table(d, base, i),
        None => None,
    }
}

/// The record at place `i` has a name, and the one before it no later one.
pub open spec fn follows(d: Seq<u8>, base: int, i: int) -> bool {
    match (record_name(d, base, i - 1), record_name(d, base, i)) {
        (Some(a), Some(b)) => a <= b,
        _ => false,
    }
}

/// The records stand in the order of their names.
pub open spec fn in_order(d: Seq<u8>, base: int, n: int) -> bool {
    forall|i: int| 1 <= i < n ==> #[trigger] follows(d, base, i)
}

/// The outlines that are read are not the compact ones.
#[verifier::opaque]
pub open spec fn outlines_plain(d: Seq<u8>, base: int, n: int) -> bool {
    first_record(d, base, 0, n, COMPACT) is None || (in_order(d, base, n) && stored_table(
        d,
        base,
        n,
        GLYF,
    ) is Some)
}

// -------------------------------------------------------------- the names

/// The name record at place `i` is kept: it is in Unicode, and of one of the
/// kinds that say whose the font is.
pub open spec fn name_kept(t: Seq<u8>, i: int) -> bool {
    let at = 6 + 12 * i;
    match (be16_of(t, at), be16_of(t, at + 2), be16_of(t, at + 6)) {
        (Some(platform), Some(encoding), Some(kind)) => (platform == 0 || (platform == 3 && (
        encoding == 0 || encoding == 1 || encoding == 10))) && (kind <= 9 || 11 <= kind <= 14),
        _ => false,
    }
}

/// How long the string of the name record at place `i` is.
pub open spec fn name_length(t: Seq<u8>, i: int) -> int {
    match be16_of(t, 6 + 12 * i + 8) {
        Some(len) => len as int,
        None => 0,
    }
}

/// Where the string of the name record at place `i` starts among the strings.
pub open spec fn name_start(t: Seq<u8>, i: int) -> int {
    match be16_of(t, 6 + 12 * i + 10) {
        Some(off) => off as int,
        None => 0,
    }
}

/// The string of the name record at place `i`, when it lies in the table.
pub open spec fn name_octets(t: Seq<u8>, i: int) -> Option<Seq<u8>> {
    match be16_of(t, 4) {
        Some(strings) => {
            let from = strings + name_start(t, i);
            if from + name_length(t, i) <= t.len() {
                Some(t.subrange(from, from + name_length(t, i)))
            } else {
                None
            }
        },
        None => None,
    }
}

/// A kept record before place `i` has the same string.
pub open spec fn name_repeats(t: Seq<u8>, i: int) -> bool {
    exists|j: int|
        0 <= j < i && #[trigger] name_kept(t, j) && name_octets(t, j) == name_octets(t, i)
}

/// How many of the first `n` records are kept.
pub open spec fn kept_names(t: Seq<u8>, n: int) -> int
    decreases n,
{
    if n <= 0 {
        0
    } else {
        kept_names(t, n - 1) + (if name_kept(t, n - 1) {
            1int
        } else {
            0
        })
    }
}

/// How long the strings of the kept records among the first `n` are together,
/// each string once.
pub open spec fn strings_length(t: Seq<u8>, n: int) -> int
    decreases n,
{
    if n <= 0 {
        0
    } else {
        strings_length(t, n - 1) + (if name_kept(t, n - 1) && !name_repeats(t, n - 1) {
            name_length(t, n - 1)
        } else {
            0
        })
    }
}

/// The kept names can be counted and placed with 16-bit numbers.
#[verifier::opaque]
pub open spec fn names_fit(t: Seq<u8>) -> bool {
    match (be16_of(t, 0), be16_of(t, 2)) {
        (Some(version), Some(count)) => version != 0 || {
            &&& forall|i: int|
                0 <= i < count && #[trigger] name_kept(t, i) ==> name_start(t, i) + name_length(t, i)
                    <= 0xFFFF
            &&& 6 + 12 * kept_names(t, count as int) <= 0xFFFF
            &&& strings_length(t, count as int) <= 0xFFFF
        },
        _ => true,
    }
}

// -------------------------------------------------------------- the glyphs

/// Where the glyph `id` starts in the glyph table: the offset at place `id`.
pub open spec fn glyph_offset(loca: Seq<u8>, long: bool, id: int) -> Option<int> {
    if long {
        match be32_of(loca, 4 * id) {
            Some(n) => Some(n as int),
            None => None,
        }
    } else {
        match be16_of(loca, 2 * id) {
            Some(n) => Some(2 * n),
            None => None,
        }
    }
}

/// The tables that say what the glyphs are.
pub struct OutlineModel {
    pub loca: Seq<u8>,
    pub glyf: Seq<u8>,
    pub long: bool,
}

/// How long the entry for a part is.
pub open spec fn part_size(flags: u16) -> int {
    (if flags & 1 != 0 {
        8int
    } else {
        6
    }) + (if flags & 8 != 0 {
        2int
    } else if flags & 0x40 != 0 {
        4
    } else if flags & 0x80 != 0 {
        8
    } else {
        0
    })
}

/// The list of parts at `at` names a part.
pub open spec fn names_part(g: Seq<u8>, at: int, part: u16) -> bool
    decreases
        (if at < g.len() {
            g.len() - at
        } else {
            0
        }),
{
    match (be16_of(g, at), be16_of(g, at + 2)) {
        (Some(flags), Some(id)) => id == part || (flags & 0x20 != 0 && names_part(
            g,
            at + part_size(flags),
            part,
        )),
        _ => false,
    }
}

impl OutlineModel {
    /// What is stored for a glyph.
    pub open spec fn glyph(self, id: u16) -> Option<Seq<u8>> {
        match (
            glyph_offset(self.loca, self.long, id as int),
            glyph_offset(self.loca, self.long, id + 1),
        ) {
            (Some(from), Some(to)) => if from <= to <= self.glyf.len() {
                Some(self.glyf.subrange(from, to))
            } else {
                None
            },
            _ => None,
        }
    }

    /// A glyph is put together from others, and `part` is one of them.
    pub open spec fn has_part(self, id: u16, part: u16) -> bool {
        match self.glyph(id) {
            Some(g) => g.len() > 0 && g[0] >= 0x80 && names_part(g, 10, part),
            None => false,
        }
    }

    /// The set holds the glyphs in `order`, and with each glyph its parts.
    pub open spec fn is_closed(self, order: Seq<u16>, s: Set<u16>) -> bool {
        &&& forall|i: int| 0 <= i < order.len() ==> s.contains(#[trigger] order[i])
        &&& forall|id: u16, part: u16|
            s.contains(id) && #[trigger] self.has_part(id, part) ==> s.contains(part)
    }

    /// With the parts of the glyphs in `order`, and with the parts of those,
    /// there are fewer glyphs than 16-bit numbers.
    pub open spec fn parts_fit(self, order: Seq<u16>) -> bool {
        exists|s: Set<u16>, free: u16|
            #[trigger] self.is_closed(order, s) && !#[trigger] s.contains(free)
    }
}

/// The tables that say what the glyphs are, when they are there.
pub open spec fn outlines(d: Seq<u8>, base: int, n: int) -> Option<OutlineModel> {
    match (
        stored_table(d, base, n, LOCA),
        stored_table(d, base, n, GLYF),
        stored_table(d, base, n, HEAD),
    ) {
        (Some(loca), Some(glyf), Some(head)) => match be16_of(head, 50) {
            Some(width) => Some(OutlineModel { loca, glyf, long: width != 0 }),
            None => None,
        },
        _ => None,
    }
}

/// The glyphs in `order` can be taken out of the first font in the file.
pub open spec fn can_take_glyphs(d: Seq<u8>, order: Seq<u16>) -> bool {
    let base = font_start(d);
    match be16_of(d, base + 4) {
        Some(count) => {
            let n = count as int;
            &&& is_settled(d, base, n, LOCA)
            &&& is_settled(d, base, n, GLYF)
            &&& is_settled(d, base, n, HEAD)
            &&& is_settled(d, base, n, NAME)
            &&& outlines_plain(d, base, n)
            &&& match stored_table(d, base, n, NAME) {
                Some(t) => names_fit(t),
                None => true,
            }
            &&& match outlines(d, base, n) {
                Some(o) => o.parts_fit(order),
                None => true,
            }
        },
        None => true,
    }
}

// ------------------------------------------------------ reading a directory

fn find_record(d: &[u8], base: usize, i: usize, n: usize, name: u32) -> (r: Option<usize>)
    requires
        base <= 0xFFFF_FFFF,
        i <= 0x1_0000,
        n <= 0xFFFF,
    ensures
        match (r, first_record(d@, base as int, i as int, n as int, name)) {
            (Some(a), Some(b)) => a == b && a < n,
            (None, None) => true,
            _ => false,
        },
{
    let mut k: usize = i;
    while k < n
        invariant
            base <= 0xFFFF_FFFF,
            i <= k <= 0x1_0000,
            n <= 0xFFFF,
            first_record(d@, base as int, i as int, n as int, name) == first_record(
                d@,
                base as int,
                k as int,
                n as int,
                name,
            ),
        decreases n - k,
    {
        let is_it: bool = match be32_within(d, base, 12 + 16 * k) {
            Some(tag) => tag == name,
            None => false,
        };
        if is_it {
            return Some(k);
        }
        k += 1;
    }
    None
}

fn be32_within(d: &[u8], base: usize, at: usize) -> (r: Option<u32>)
    requires
        base <= 0xFFFF_FFFF,
        at <= 0x20_0000,
    ensures
        r == be32_of(d@, base + at),
{
    if base > d.len() || d.len() - base < at {
        None
    } else {
        be32_at(d, base + at)
    }
}

fn read_table(d: &[u8], base: usize, i: usize) -> (r: Option<&[u8]>)
    requires
        base <= 0xFFFF_FFFF,
        i <= 0xFFFF,
    ensures
        match (r, record_table(d@, base as int, i as int)) {
            (Some(a), Some(b)) => a@ == b,
            (None, None) => true,
            _ => false,
        },
{
    match (be32_within(d, base, 12 + 16 * i + 8), be32_within(d, base, 12 + 16 * i + 12)) {
        (Some(off), Some(len)) => {
            let off: usize = off as usize;
            let len: usize = len as usize;
            if off <= d.len() && len <= d.len() - off {
                Some(slice_subrange(d, off, off + len))
            } else {
                None
            }
        },
        _ => None,
    }
}

/// Whether it is settled which table a name means, and that table.
fn find_table(d: &[u8], base: usize, n: usize, name: u32) -> (r: (bool, Option<&[u8]>))
    requires
        base <= 0xFFFF_FFFF,
        n <= 0xFFFF,
    ensures
        r.0 == is_settled(d@, base as int, n as int, name),
        match (r.1, stored_table(d@, base as int, n as int, name)) {
            (Some(a), Some(b)) => a@ == b,
            (None, None) => true,
            _ => false,
        },
{
    reveal(is_settled);
    reveal(stored_table);
    match find_record(d, base, 0, n, name) {
        Some(i) => {
            let sole: bool = find_record(d, base, i + 1, n, name).is_none();
            (sole, read_table(d, base, i))
        },
        None => (true, None),
    }
}

fn is_in_order(d: &[u8], base: usize, n: usize) -> (r: bool)
    requires
        base <= 0xFFFF_FFFF,
        n <= 0xFFFF,
    ensures
        r == in_order(d@, base as int, n as int),
{
    let mut i: usize = 1;
    while i < n
        invariant
            1 <= i,
            base <= 0xFFFF_FFFF,
            n <= 0xFFFF,
            n >= 1 ==> i <= n,
            forall|k: int| 1 <= k < i ==> #[trigger] follows(d@, base as int, k),
        decreases n - i,
    {
        let up: bool = match (
            be32_within(d, base, 12 + 16 * (i - 1)),
            be32_within(d, base, 12 + 16 * i),
        ) {
            (Some(a), Some(b)) => a <= b,
            _ => false,
        };
        assert(up == follows(d@, base as int, i as int));
        if !up {
            return false;
        }
        i += 1;
    }
    true
}

// --------------------------------------------------------- reading the names

fn is_name_kept(t: &[u8], i: usize) -> (r: bool)
    requires
        i <= 0xFFFF,
    ensures
        r == name_kept(t@, i as int),
{
    let at: usize = 6 + 12 * i;
    match (be16_at(t, at), be16_at(t, at + 2), be16_at(t, at + 6)) {
        (Some(platform), Some(encoding), Some(kind)) => (platform == 0 || (platform == 3 && (
        encoding == 0 || encoding == 1 || encoding == 10))) && (kind <= 9 || (11 <= kind && kind
            <= 14)),
        _ => false,
    }
}

fn read_name(t: &[u8], i: usize) -> (r: (usize, usize))
    requires
        i <= 0xFFFF,
    ensures
        r.0 == name_start(t@, i as int),
        r.1 == name_length(t@, i as int),
        r.0 <= 0xFFFF,
        r.1 <= 0xFFFF,
{
    let start: usize = match be16_at(t, 6 + 12 * i + 10) {
        Some(off) => off as usize,
        None => 0,
    };
    let len: usize = match be16_at(t, 6 + 12 * i + 8) {
        Some(len) => len as usize,
        None => 0,
    };
    (start, len)
}

fn find_name(t: &[u8], i: usize) -> (r: Option<&[u8]>)
    requires
        i <= 0xFFFF,
    ensures
        match (r, name_octets(t@, i as int)) {
            (Some(a), Some(b)) => a@ == b,
            (None, None) => true,
            _ => false,
        },
{
    match be16_at(t, 4) {
        Some(strings) => {
            let (start, len) = read_name(t, i);
            let from: usize = strings as usize + start;
            if from + len <= t.len() {
                Some(slice_subrange(t, from, from + len))
            } else {
                None
            }
        },
        None => None,
    }
}

fn same_octets(x: &[u8], y: &[u8]) -> (r: bool)
    ensures
        r == (x@ == y@),
{
    if x.len() != y.len() {
        return false;
    }
    let mut k: usize = 0;
    while k < x.len()
        invariant
            k <= x@.len(),
            x@.len() == y@.len(),
            forall|j: int| 0 <= j < k ==> #[trigger] x@[j] == y@[j],
        decreases x@.len() - k,
    {
        if x[k] != y[k] {
            return false;
        }
        k += 1;
    }
    proof {
        assert(x@ =~= y@);
    }
    true
}

fn same_string(a: Option<&[u8]>, b: Option<&[u8]>) -> (r: bool)
    ensures
        r == (match (a, b) {
            (Some(x), Some(y)) => x@ == y@,
            (None, None) => true,
            _ => false,
        }),
{
    match (a, b) {
        (Some(x), Some(y)) => same_octets(x, y),
        (None, None) => true,
        _ => false,
    }
}

fn is_name_repeated(t: &[u8], i: usize) -> (r: bool)
    requires
        i <= 0xFFFF,
    ensures
        r == name_repeats(t@, i as int),
{
    let own = find_name(t, i);
    let mut j: usize = 0;
    while j < i
        invariant
            j <= i <= 0xFFFF,
            match (own, name_octets(t@, i as int)) {
                (Some(a), Some(b)) => a@ == b,
                (None, None) => true,
                _ => false,
            },
            forall|k: int|
                0 <= k < j && #[trigger] name_kept(t@, k) ==> name_octets(t@, k) != name_octets(
                    t@,
                    i as int,
                ),
        decreases i - j,
    {
        if is_name_kept(t, j) && same_string(find_name(t, j), own) {
            assert(name_kept(t@, j as int) && name_octets(t@, j as int) == name_octets(
                t@,
                i as int,
            ));
            return true;
        }
        j += 1;
    }
    false
}

/// How many names are kept, when their strings can be placed.
fn count_names(t: &[u8], n: usize) -> (r: Option<usize>)
    requires
        n <= 0xFFFF,
    ensures
        match r {
            Some(kept) => kept == kept_names(t@, n as int) && kept <= n && forall|i: int|
                0 <= i < n && #[trigger] name_kept(t@, i) ==> name_start(t@, i) + name_length(
                    t@,
                    i,
                ) <= 0xFFFF,
            None => !(forall|i: int|
                0 <= i < n && #[trigger] name_kept(t@, i) ==> name_start(t@, i) + name_length(
                    t@,
                    i,
                ) <= 0xFFFF),
        },
{
    let mut kept: usize = 0;
    let mut i: usize = 0;
    while i < n
        invariant
            kept <= i <= n <= 0xFFFF,
            kept == kept_names(t@, i as int),
            forall|k: int|
                0 <= k < i && #[trigger] name_kept(t@, k) ==> name_start(t@, k) + name_length(
                    t@,
                    k,
                ) <= 0xFFFF,
        decreases n - i,
    {
        if is_name_kept(t, i) {
            let (start, len) = read_name(t, i);
            if start + len > 0xFFFF {
                assert(name_kept(t@, i as int));
                return None;
            }
            kept += 1;
        }
        i += 1;
    }
    Some(kept)
}

proof fn lemma_strings_grow(t: Seq<u8>, i: int, n: int)
    requires
        0 <= i <= n,
    ensures
        strings_length(t, i) <= strings_length(t, n),
    decreases n - i,
{
    if i < n {
        lemma_strings_grow(t, i, n - 1);
    }
}

/// Whether the kept strings, each once, are short enough to be placed.
fn do_strings_fit(t: &[u8], n: usize) -> (r: bool)
    requires
        n <= 0xFFFF,
    ensures
        r == (strings_length(t@, n as int) <= 0xFFFF),
{
    let mut sum: usize = 0;
    let mut i: usize = 0;
    while i < n
        invariant
            i <= n <= 0xFFFF,
            sum <= 0xFFFF,
            sum == strings_length(t@, i as int),
        decreases n - i,
    {
        if is_name_kept(t, i) && !is_name_repeated(t, i) {
            let (_, len) = read_name(t, i);
            sum += len;
        }
        i += 1;
        if sum > 0xFFFF {
            proof {
                lemma_strings_grow(t@, i as int, n as int);
            }
            return false;
        }
    }
    true
}

fn do_names_fit(t: &[u8]) -> (r: bool)
    ensures
        r == names_fit(t@),
{
    reveal(names_fit);
    match (be16_at(t, 0), be16_at(t, 2)) {
        (Some(version), Some(count)) => {
            if version != 0 {
                return true;
            }
            match count_names(t, count as usize) {
                Some(kept) => 6 + 12 * kept <= 0xFFFF && do_strings_fit(t, count as usize),
                None => false,
            }
        },
        _ => true,
    }
}

// --------------------------------------------------------- reading the glyphs

fn find_offset(loca: &[u8], long: bool, id: usize) -> (r: Option<usize>)
    requires
        id <= 0x1_0000,
    ensures
        match (r, glyph_offset(loca@, long, id as int)) {
            (Some(a), Some(b)) => a == b,
            (None, None) => true,
            _ => false,
        },
{
    if long {
        match be32_at(loca, 4 * id) {
            Some(n) => Some(n as usize),
            None => None,
        }
    } else {
        match be16_at(loca, 2 * id) {
            Some(n) => Some(2 * n as usize),
            None => None,
        }
    }
}

/// The tables that say what the glyphs are.
struct Outlines<'a> {
    loca: &'a [u8],
    glyf: &'a [u8],
    long: bool,
}

impl<'a> Outlines<'a> {
    spec fn model(self) -> OutlineModel {
        OutlineModel { loca: self.loca@, glyf: self.glyf@, long: self.long }
    }

    fn find_glyph(&self, id: u16) -> (r: Option<&[u8]>)
        ensures
            match (r, self.model().glyph(id)) {
                (Some(a), Some(b)) => a@ == b,
                (None, None) => true,
                _ => false,
            },
    {
        match (
            find_offset(self.loca, self.long, id as usize),
            find_offset(self.loca, self.long, id as usize + 1),
        ) {
            (Some(from), Some(to)) => if from <= to && to <= self.glyf.len() {
                Some(slice_subrange(self.glyf, from, to))
            } else {
                None
            },
            _ => None,
        }
    }
}

/// How many glyphs are not marked.
spec fn unmarked(marked: Seq<bool>) -> nat
    decreases marked.len(),
{
    if marked.len() == 0 {
        0
    } else {
        unmarked(marked.drop_last()) + (if marked.last() {
            0nat
        } else {
            1
        })
    }
}

proof fn lemma_mark(marked: Seq<bool>, i: int)
    requires
        0 <= i < marked.len(),
        !marked[i],
    ensures
        unmarked(marked.update(i, true)) + 1 == unmarked(marked),
    decreases marked.len(),
{
    let after = marked.update(i, true);
    if i == marked.len() - 1 {
        assert(after.drop_last() =~= marked.drop_last());
    } else {
        assert(after.drop_last() =~= marked.drop_last().update(i, true));
        lemma_mark(marked.drop_last(), i);
    }
}

/// The flags and the number of the part at `at`.
fn read_part(g: &[u8], at: usize) -> (r: Option<(u16, u16)>)
    ensures
        match (r, be16_of(g@, at as int), be16_of(g@, at + 2)) {
            (Some((flags, id)), Some(a), Some(b)) => flags == a && id == b && at + 4 <= g@.len(),
            (None, None, _) => true,
            (None, _, None) => true,
            _ => false,
        },
{
    if at > g.len() || g.len() - at < 4 {
        return None;
    }
    match (be16_at(g, at), be16_at(g, at + 2)) {
        (Some(flags), Some(id)) => Some((flags, id)),
        _ => None,
    }
}

fn measure_part(flags: u16) -> (n: usize)
    ensures
        n == part_size(flags),
        6 <= n <= 16,
{
    let args: usize = if flags & 1 != 0 {
        8
    } else {
        6
    };
    let scale: usize = if flags & 8 != 0 {
        2
    } else if flags & 0x40 != 0 {
        4
    } else if flags & 0x80 != 0 {
        8
    } else {
        0
    };
    args + scale
}

/// Marks the parts that the list at `from` names. Those that were not marked
/// before are added to `pending`.
fn mark_parts(g: &[u8], from: usize, marked: &mut Vec<bool>, pending: &mut Vec<u16>)
    requires
        from <= 0x10,
        old(marked)@.len() == 0x1_0000,
    ensures
        final(marked)@.len() == 0x1_0000,
        forall|id: u16|
            #[trigger] final(marked)@[id as int] <==> old(marked)@[id as int] || names_part(
                g@,
                from as int,
                id,
            ),
        old(pending)@.len() <= final(pending)@.len(),
        final(pending)@.take(old(pending)@.len() as int) == old(pending)@,
        forall|id: u16|
            #[trigger] final(marked)@[id as int] && !old(marked)@[id as int]
                ==> final(pending)@.contains(id),
        forall|k: int|
            old(pending)@.len() <= k < final(pending)@.len()
                ==> final(marked)@[#[trigger] final(pending)@[k] as int],
        unmarked(final(marked)@) + final(pending)@.len() == unmarked(old(marked)@)
            + old(pending)@.len(),
{
    let ghost was = marked@;
    let ghost waited = pending@;
    let mut at: usize = from;
    let mut more: bool = true;
    proof {
        assert(pending@.take(waited.len() as int) =~= waited);
    }
    while more
        invariant
            at <= 0x10 || at <= g@.len(),
            marked@.len() == 0x1_0000,
            was.len() == 0x1_0000,
            forall|id: u16|
                was[id as int] || names_part(g@, from as int, id) <==> #[trigger] marked@[id as int]
                    || (more && names_part(g@, at as int, id)),
            forall|id: u16| was[id as int] ==> #[trigger] marked@[id as int],
            waited.len() <= pending@.len(),
            pending@.take(waited.len() as int) == waited,
            forall|id: u16|
                #[trigger] marked@[id as int] && !was[id as int] ==> pending@.contains(id),
            forall|k: int|
                waited.len() <= k < pending@.len() ==> marked@[#[trigger] pending@[k] as int],
            unmarked(marked@) + pending@.len() == unmarked(was) + waited.len(),
        decreases
            (if more {
                g@.len() + 0x20 - at
            } else {
                0
            }),
    {
        let entry: Option<(u16, u16)> = read_part(g, at);
        match entry {
            Some((flags, id)) => {
                let ghost before = marked@;
                let ghost queue = pending@;
                if !marked[id as usize] {
                    proof {
                        lemma_mark(marked@, id as int);
                    }
                    marked.set(id as usize, true);
                    pending.push(id);
                    proof {
                        assert(pending@.take(waited.len() as int) =~= waited);
                        assert forall|x: u16|
                            #[trigger] marked@[x as int] && !was[x as int] implies pending@.contains(
                            x,
                        ) by {
                            if x == id {
                                assert(pending@[queue.len() as int] == x);
                            } else {
                                assert(before[x as int]);
                                let k = choose|k: int| 0 <= k < queue.len() && queue[k] == x;
                                assert(pending@[k] == x);
                            }
                        }
                    }
                }
                let size: usize = measure_part(flags);
                let ghost place = at as int;
                if flags & 0x20 != 0 && g.len() - at > size {
                    at += size;
                } else {
                    more = false;
                }
                proof {
                    assert forall|x: u16|
                        was[x as int] || names_part(g@, from as int, x) <==> #[trigger] marked@[x as int]
                            || (more && names_part(g@, at as int, x)) by {
                        assert(was[x as int] || names_part(g@, from as int, x)
                            <==> before[x as int] || names_part(g@, place, x));
                        assert(marked@[x as int] == (before[x as int] || x == id));
                        assert(names_part(g@, place, x) == (id == x || (flags & 0x20 != 0
                            && names_part(g@, place + size, x))));
                        if place + size >= g@.len() {
                            assert(!names_part(g@, place + size, x));
                        }
                    }
                }
            },
            None => {
                proof {
                    assert forall|x: u16|
                        was[x as int] || names_part(g@, from as int, x) <==> #[trigger] marked@[x as int] by {
                        assert(!names_part(g@, at as int, x));
                    }
                }
                more = false;
            },
        }
    }
}

/// What is marked belongs to every set that is closed.
spec fn is_forced(o: OutlineModel, order: Seq<u16>, marked: Seq<bool>) -> bool {
    forall|s: Set<u16>, id: u16|
        #[trigger] o.is_closed(order, s) && #[trigger] marked[id as int] ==> s.contains(id)
}

/// What is marked and not pending has its parts marked.
spec fn is_settled_but(o: OutlineModel, marked: Seq<bool>, pending: Seq<u16>) -> bool {
    forall|id: u16, part: u16|
        marked[id as int] && !pending.contains(id) && #[trigger] o.has_part(id, part)
            ==> marked[part as int]
}

impl<'a> Outlines<'a> {
    /// Marks the parts of one glyph that was pending.
    fn take_parts(
        &self,
        id: u16,
        marked: &mut Vec<bool>,
        pending: &mut Vec<u16>,
        Ghost(order): Ghost<Seq<u16>>,
    )
        requires
            old(marked)@.len() == 0x1_0000,
            old(marked)@[id as int],
            is_forced(self.model(), order, old(marked)@),
            is_settled_but(self.model(), old(marked)@, old(pending)@.push(id)),
            forall|k: int|
                0 <= k < old(pending)@.len() ==> old(marked)@[#[trigger] old(pending)@[k] as int],
        ensures
            final(marked)@.len() == 0x1_0000,
            forall|x: u16| old(marked)@[x as int] ==> #[trigger] final(marked)@[x as int],
            is_forced(self.model(), order, final(marked)@),
            is_settled_but(self.model(), final(marked)@, final(pending)@),
            forall|k: int|
                0 <= k < final(pending)@.len()
                    ==> final(marked)@[#[trigger] final(pending)@[k] as int],
            old(pending)@.len() <= final(pending)@.len(),
            unmarked(final(marked)@) + final(pending)@.len() == unmarked(old(marked)@)
                + old(pending)@.len(),
    {
        let ghost o = self.model();
        let ghost was = marked@;
        let ghost waited = pending@;
        let ghost all = pending@.push(id);
        let mut whole: bool = true;
        if let Some(g) = self.find_glyph(id) {
            if g.len() > 0 && g[0] >= 0x80 {
                mark_parts(g, 10, marked, pending);
                whole = false;
            }
        }
        proof {
            assert(forall|part: u16| whole ==> !#[trigger] o.has_part(id, part));
            assert forall|x: u16| was[x as int] implies #[trigger] marked@[x as int] by {}
            assert forall|s: Set<u16>, x: u16|
                #[trigger] o.is_closed(order, s) && #[trigger] marked@[x as int] implies s.contains(
                x,
            ) by {
                assert(was[id as int]);
                if !was[x as int] {
                    assert(o.has_part(id, x));
                }
            }
            assert forall|x: u16, part: u16|
                marked@[x as int] && !pending@.contains(x) && #[trigger] o.has_part(
                    x,
                    part,
                ) implies marked@[part as int] by {
                if x == id {
                    assert(!whole);
                } else {
                    assert(was[x as int]);
                    if all.contains(x) {
                        let k = choose|k: int| 0 <= k < all.len() && all[k] == x;
                        assert(waited[k] == x);
                        assert(pending@.take(waited.len() as int)[k] == x);
                        assert(pending@[k] == x);
                    }
                }
            }
            assert forall|k: int| 0 <= k < pending@.len() implies marked@[#[trigger] pending@[k] as int] by {
                if k < waited.len() {
                    assert(pending@.take(waited.len() as int)[k] == pending@[k]);
                    assert(was[waited[k] as int]);
                }
            }
        }
    }
}

/// Marks the glyphs that a table holds. They are all pending.
fn mark_order(m: &GlyphRemapper) -> (r: (Vec<bool>, Vec<u16>))
    ensures
        r.0@.len() == 0x1_0000,
        forall|id: u16| #[trigger] r.0@[id as int] <==> glyph_order(*m).contains(id),
        forall|id: u16| #[trigger] r.0@[id as int] <==> r.1@.contains(id),
{
    let ghost order = glyph_order(*m);
    let mut marked: Vec<bool> = Vec::new();
    let mut pending: Vec<u16> = Vec::new();
    let mut n: u32 = 0;
    while n < 0x1_0000
        invariant
            n <= 0x1_0000,
            order == glyph_order(*m),
            marked@.len() == n,
            forall|id: u16| id < n ==> (#[trigger] marked@[id as int] <==> order.contains(id)),
            forall|id: u16| id < n ==> (#[trigger] marked@[id as int] <==> pending@.contains(id)),
            forall|k: int| 0 <= k < pending@.len() ==> (#[trigger] pending@[k]) < n,
        decreases 0x1_0000 - n,
    {
        let gid: u16 = n as u16;
        let ghost queue = pending@;
        let held: bool = assigned(m, gid).is_some();
        marked.push(held);
        if held {
            pending.push(gid);
        }
        proof {
            assert(held == order.contains(gid)) by {
                if held {
                    let k = choose|k: int| is_only_place(order, gid, k);
                    assert(order[k] == gid);
                }
            }
            assert forall|id: u16| id < n + 1 implies (#[trigger] marked@[id as int]
                <==> pending@.contains(id)) by {
                if id == gid {
                    if held {
                        assert(pending@[queue.len() as int] == id);
                    }
                } else {
                    if queue.contains(id) {
                        let k = choose|k: int| 0 <= k < queue.len() && queue[k] == id;
                        assert(pending@[k] == id);
                    }
                    if pending@.contains(id) {
                        let k = choose|k: int| 0 <= k < pending@.len() && pending@[k] == id;
                        assert(k < queue.len());
                        assert(queue[k] == id);
                    }
                }
            }
        }
        n += 1;
    }
    (marked, pending)
}

fn some_unmarked(marked: &Vec<bool>) -> (r: bool)
    requires
        marked@.len() == 0x1_0000,
    ensures
        r == exists|id: u16| !#[trigger] marked@[id as int],
{
    let mut i: u32 = 0;
    while i < 0x1_0000
        invariant
            i <= 0x1_0000,
            marked@.len() == 0x1_0000,
            forall|k: int| 0 <= k < i ==> #[trigger] marked@[k],
        decreases 0x1_0000 - i,
    {
        if !marked[i as usize] {
            let id: u16 = i as u16;
            assert(!marked@[id as int]);
            return true;
        }
        i += 1;
    }
    assert forall|id: u16| #[trigger] marked@[id as int] by {}
    false
}

impl<'a> Outlines<'a> {
    fn do_parts_fit(&self, m: &GlyphRemapper) -> (r: bool)
        ensures
            r == self.model().parts_fit(glyph_order(*m)),
    {
        let ghost o = self.model();
        let ghost order = glyph_order(*m);
        let (marked0, pending0) = mark_order(m);
        let mut marked: Vec<bool> = marked0;
        let mut pending: Vec<u16> = pending0;
        proof {
            assert forall|s: Set<u16>, id: u16|
                #[trigger] o.is_closed(order, s) && #[trigger] marked@[id as int] implies s.contains(
                id,
            ) by {
                let k = choose|k: int| 0 <= k < order.len() && order[k] == id;
                assert(s.contains(order[k]));
            }
            assert forall|k: int| 0 <= k < pending@.len() implies marked@[#[trigger] pending@[k] as int] by {
                assert(pending@.contains(pending@[k]));
            }
        }
        while pending.len() > 0
            invariant
                o == self.model(),
                order == glyph_order(*m),
                marked@.len() == 0x1_0000,
                forall|id: u16| order.contains(id) ==> #[trigger] marked@[id as int],
                is_forced(o, order, marked@),
                is_settled_but(o, marked@, pending@),
                forall|k: int|
                    0 <= k < pending@.len() ==> marked@[#[trigger] pending@[k] as int],
            decreases unmarked(marked@), pending@.len(),
        {
            let ghost queue = pending@;
            match pending.pop() {
                Some(id) => {
                    proof {
                        assert(pending@.push(id) =~= queue);
                        assert(queue[queue.len() - 1] == id);
                    }
                    self.take_parts(id, &mut marked, &mut pending, Ghost(order));
                },
                None => {},
            }
        }
        let r: bool = some_unmarked(&marked);
        proof {
            let all = Set::new(|id: u16| marked@[id as int]);
            assert(o.is_closed(order, all)) by {
                assert forall|i: int| 0 <= i < order.len() implies all.contains(#[trigger] order[i]) by {
                    assert(order.contains(order[i]));
                }
                assert forall|id: u16, part: u16|
                    all.contains(id) && #[trigger] o.has_part(id, part) implies all.contains(part) by {
                    assert(!pending@.contains(id));
                }
            }
            if r {
                let free = choose|id: u16| !#[trigger] marked@[id as int];
                assert(!all.contains(free));
            }
            if o.parts_fit(order) {
                let (s, free) = choose|s: Set<u16>, free: u16|
                    #[trigger] o.is_closed(order, s) && !#[trigger] s.contains(free);
                assert(!marked@[free as int]);
            }
        }
        r
    }
}

/// Whether the glyphs that a table holds can be taken out of the font file.
pub fn is_takeable(d: &[u8], m: &GlyphRemapper) -> (r: bool)
    ensures
        r == can_take_glyphs(d@, glyph_order(*m)),
{
    reveal(font_start);
    reveal(outlines_plain);
    let start: u32 = match (be32_at(d, 0), be32_at(d, 12)) {
        (Some(kind), Some(at)) => if kind == COLLECTION {
            at
        } else {
            0
        },
        _ => 0,
    };
    let base: usize = start as usize;
    if base > d.len() {
        return true;
    }
    if d.len() - base < 4 {
        return true;
    }
    match be16_at(d, base + 4) {
        Some(count) => {
            let n: usize = count as usize;
            let (loca_known, loca) = find_table(d, base, n, LOCA);
            let (glyf_known, glyf) = find_table(d, base, n, GLYF);
            let (head_known, head) = find_table(d, base, n, HEAD);
            let (name_known, name) = find_table(d, base, n, NAME);
            if !loca_known || !glyf_known || !head_known || !name_known {
                return false;
            }
            let plain: bool = find_record(d, base, 0, n, COMPACT).is_none() || (is_in_order(
                d,
                base,
                n,
            ) && glyf.is_some());
            if !plain {
                return false;
            }
            let named: bool = match name {
                Some(t) => do_names_fit(t),
                None => true,
            };
            if !named {
                return false;
            }
            match (loca, glyf, head) {
                (Some(loca), Some(glyf), Some(head)) => match be16_at(head, 50) {
                    Some(width) => Outlines { loca, glyf, long: width != 0 }.do_parts_fit(m),
                    None => true,
                },
                _ => true,
            }
        },
        None => true,
    }
}

} // verus!
