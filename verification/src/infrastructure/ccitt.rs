//! CCITT Group 4 (T.6/MMR) bitmap decoding.
//!
//! Some older image pages store a one-bit page image as a bare Group 4 bit
//! stream. The stream has no TIFF or PDF wrapper; the image size is carried by
//! the surrounding page fields. A row is coded as its changing elements, the
//! positions where the colour turns, relative to those of the row above.
use crate::domain::rendering::Raster;
use crate::infrastructure::lzh::{bit_at, bits_at, BIT_WEIGHT};
use vstd::prelude::*;

verus! {

pub const MAX_PIXELS: u64 = 67_108_864;

/// The black code words: how many bits, the bits, and the run they stand for.
/// Runs of 64 and more are makeup words, which another word follows.
pub const BLACK_CODES: [(u8, u16, u16); 104] = [
    (2, 0x2, 3),
    (2, 0x3, 2),
    (3, 0x2, 1),
    (3, 0x3, 4),
    (4, 0x2, 6),
    (4, 0x3, 5),
    (5, 0x3, 7),
    (6, 0x4, 9),
    (6, 0x5, 8),
    (7, 0x4, 10),
    (7, 0x5, 11),
    (7, 0x7, 12),
    (8, 0x4, 13),
    (8, 0x7, 14),
    (9, 0x18, 15),
    (10, 0x17, 16),
    (10, 0x18, 17),
    (10, 0x37, 0),
    (10, 0x8, 18),
    (10, 0xf, 64),
    (11, 0x17, 24),
    (11, 0x18, 25),
    (11, 0x28, 23),
    (11, 0x37, 22),
    (11, 0x67, 19),
    (11, 0x68, 20),
    (11, 0x6c, 21),
    (11, 0x8, 1792),
    (11, 0xc, 1856),
    (11, 0xd, 1920),
    (12, 0x12, 1984),
    (12, 0x13, 2048),
    (12, 0x14, 2112),
    (12, 0x15, 2176),
    (12, 0x16, 2240),
    (12, 0x17, 2304),
    (12, 0x1c, 2368),
    (12, 0x1d, 2432),
    (12, 0x1e, 2496),
    (12, 0x1f, 2560),
    (12, 0x24, 52),
    (12, 0x27, 55),
    (12, 0x28, 56),
    (12, 0x2b, 59),
    (12, 0x2c, 60),
    (12, 0x33, 320),
    (12, 0x34, 384),
    (12, 0x35, 448),
    (12, 0x37, 53),
    (12, 0x38, 54),
    (12, 0x52, 50),
    (12, 0x53, 51),
    (12, 0x54, 44),
    (12, 0x55, 45),
    (12, 0x56, 46),
    (12, 0x57, 47),
    (12, 0x58, 57),
    (12, 0x59, 58),
    (12, 0x5a, 61),
    (12, 0x5b, 256),
    (12, 0x64, 48),
    (12, 0x65, 49),
    (12, 0x66, 62),
    (12, 0x67, 63),
    (12, 0x68, 30),
    (12, 0x69, 31),
    (12, 0x6a, 32),
    (12, 0x6b, 33),
    (12, 0x6c, 40),
    (12, 0x6d, 41),
    (12, 0xc8, 128),
    (12, 0xc9, 192),
    (12, 0xca, 26),
    (12, 0xcb, 27),
    (12, 0xcc, 28),
    (12, 0xcd, 29),
    (12, 0xd2, 34),
    (12, 0xd3, 35),
    (12, 0xd4, 36),
    (12, 0xd5, 37),
    (12, 0xd6, 38),
    (12, 0xd7, 39),
    (12, 0xda, 42),
    (12, 0xdb, 43),
    (13, 0x4a, 640),
    (13, 0x4b, 704),
    (13, 0x4c, 768),
    (13, 0x4d, 832),
    (13, 0x52, 1280),
    (13, 0x53, 1344),
    (13, 0x54, 1408),
    (13, 0x55, 1472),
    (13, 0x5a, 1536),
    (13, 0x5b, 1600),
    (13, 0x64, 1664),
    (13, 0x65, 1728),
    (13, 0x6c, 512),
    (13, 0x6d, 576),
    (13, 0x72, 896),
    (13, 0x73, 960),
    (13, 0x74, 1024),
    (13, 0x75, 1088),
    (13, 0x76, 1152),
    (13, 0x77, 1216),
];

/// The white code words, in the same form.
pub const WHITE_CODES: [(u8, u16, u16); 104] = [
    (4, 0x7, 2),
    (4, 0x8, 3),
    (4, 0xb, 4),
    (4, 0xc, 5),
    (4, 0xe, 6),
    (4, 0xf, 7),
    (5, 0x12, 128),
    (5, 0x13, 8),
    (5, 0x14, 9),
    (5, 0x1b, 64),
    (5, 0x7, 10),
    (5, 0x8, 11),
    (6, 0x17, 192),
    (6, 0x18, 1664),
    (6, 0x2a, 16),
    (6, 0x2b, 17),
    (6, 0x3, 13),
    (6, 0x34, 14),
    (6, 0x35, 15),
    (6, 0x7, 1),
    (6, 0x8, 12),
    (7, 0x13, 26),
    (7, 0x17, 21),
    (7, 0x18, 28),
    (7, 0x24, 27),
    (7, 0x27, 18),
    (7, 0x28, 24),
    (7, 0x2b, 25),
    (7, 0x3, 22),
    (7, 0x37, 256),
    (7, 0x4, 23),
    (7, 0x8, 20),
    (7, 0xc, 19),
    (8, 0x12, 33),
    (8, 0x13, 34),
    (8, 0x14, 35),
    (8, 0x15, 36),
    (8, 0x16, 37),
    (8, 0x17, 38),
    (8, 0x1a, 31),
    (8, 0x1b, 32),
    (8, 0x2, 29),
    (8, 0x24, 53),
    (8, 0x25, 54),
    (8, 0x28, 39),
    (8, 0x29, 40),
    (8, 0x2a, 41),
    (8, 0x2b, 42),
    (8, 0x2c, 43),
    (8, 0x2d, 44),
    (8, 0x3, 30),
    (8, 0x32, 61),
    (8, 0x33, 62),
    (8, 0x34, 63),
    (8, 0x35, 0),
    (8, 0x36, 320),
    (8, 0x37, 384),
    (8, 0x4, 45),
    (8, 0x4a, 59),
    (8, 0x4b, 60),
    (8, 0x5, 46),
    (8, 0x52, 49),
    (8, 0x53, 50),
    (8, 0x54, 51),
    (8, 0x55, 52),
    (8, 0x58, 55),
    (8, 0x59, 56),
    (8, 0x5a, 57),
    (8, 0x5b, 58),
    (8, 0x64, 448),
    (8, 0x65, 512),
    (8, 0x67, 640),
    (8, 0x68, 576),
    (8, 0xa, 47),
    (8, 0xb, 48),
    (9, 0x98, 1472),
    (9, 0x99, 1536),
    (9, 0x9a, 1600),
    (9, 0x9b, 1728),
    (9, 0xcc, 704),
    (9, 0xcd, 768),
    (9, 0xd2, 832),
    (9, 0xd3, 896),
    (9, 0xd4, 960),
    (9, 0xd5, 1024),
    (9, 0xd6, 1088),
    (9, 0xd7, 1152),
    (9, 0xd8, 1216),
    (9, 0xd9, 1280),
    (9, 0xda, 1344),
    (9, 0xdb, 1408),
    (11, 0x8, 1792),
    (11, 0xc, 1856),
    (11, 0xd, 1920),
    (12, 0x12, 1984),
    (12, 0x13, 2048),
    (12, 0x14, 2112),
    (12, 0x15, 2176),
    (12, 0x16, 2240),
    (12, 0x17, 2304),
    (12, 0x1c, 2368),
    (12, 0x1d, 2432),
    (12, 0x1e, 2496),
    (12, 0x1f, 2560),
];

// ------------------------------------------------------------------ the codes

/// How the next stretch of a row is coded.
#[derive(Debug, Clone, Copy, PartialEq, Eq, Structural)]
pub enum Mode {
    Pass,
    Horizontal,
    Vertical(i32),
    Uncompressed,
}

/// The mode that a code word of `len` bits names.
pub open spec fn mode_word(len: int, code: int) -> Option<Mode> {
    if len == 1 && code == 0b1 {
        Some(Mode::Vertical(0))
    } else if len == 3 && code == 0b001 {
        Some(Mode::Horizontal)
    } else if len == 3 && code == 0b010 {
        Some(Mode::Vertical((-1) as i32))
    } else if len == 3 && code == 0b011 {
        Some(Mode::Vertical(1))
    } else if len == 4 && code == 0b0001 {
        Some(Mode::Pass)
    } else if len == 6 && code == 0b000010 {
        Some(Mode::Vertical((-2) as i32))
    } else if len == 6 && code == 0b000011 {
        Some(Mode::Vertical(2))
    } else if len == 7 && code == 0b0000010 {
        Some(Mode::Vertical((-3) as i32))
    } else if len == 7 && code == 0b0000011 {
        Some(Mode::Vertical(3))
    } else if len == 10 && code == 0b0000001111 {
        Some(Mode::Uncompressed)
    } else {
        None
    }
}

/// The mode whose code word at `p` has `len` bits or more, and the position
/// after it.
pub open spec fn mode_from(data: Seq<u8>, p: int, len: nat) -> Option<(Mode, int)>
    decreases 11 - len,
{
    if len > 10 || p + len > 8 * data.len() {
        None
    } else {
        match mode_word(len as int, bits_at(data, p, len) as int) {
            Some(m) => Some((m, p + len)),
            None => mode_from(data, p, len + 1),
        }
    }
}

/// The run of the first entry from `k` on with these bits.
pub open spec fn lookup(table: Seq<(u8, u16, u16)>, k: int, len: int, code: int) -> Option<nat>
    decreases table.len() - k,
{
    if k < 0 || k >= table.len() {
        None
    } else if table[k].0 == len && table[k].1 == code {
        Some(table[k].2 as nat)
    } else {
        lookup(table, k + 1, len, code)
    }
}

/// The run that a code word of `len` bits stands for.
pub open spec fn run_word(black: bool, len: int, code: int) -> Option<nat> {
    if black {
        lookup(BLACK_CODES@, 0, len, code)
    } else {
        lookup(WHITE_CODES@, 0, len, code)
    }
}

/// The longest code word of a colour.
pub open spec fn longest_word(black: bool) -> int {
    if black {
        13
    } else {
        12
    }
}

/// The run whose code word at `p` has `len` bits or more, and the position
/// after it.
pub open spec fn word_from(data: Seq<u8>, p: int, black: bool, len: nat) -> Option<(nat, int)>
    decreases 14 - len,
{
    if len > longest_word(black) || p + len > 8 * data.len() {
        None
    } else {
        match run_word(black, len as int, bits_at(data, p, len) as int) {
            Some(run) => Some((run, p + len)),
            None => word_from(data, p, black, len + 1),
        }
    }
}

pub proof fn lemma_word_moves(data: Seq<u8>, p: int, black: bool, len: nat)
    requires
        len >= 1,
    ensures
        word_from(data, p, black, len) matches Some((run, q)) ==> p < q <= 8 * data.len(),
    decreases 14 - len,
{
    if !(len > longest_word(black) || p + len > 8 * data.len()) {
        if run_word(black, len as int, bits_at(data, p, len) as int) is None {
            lemma_word_moves(data, p, black, len + 1);
        }
    }
}

/// A whole run at `p`: makeup words, then a terminating one.
pub open spec fn run_at(data: Seq<u8>, p: int, black: bool, total: nat) -> Option<(nat, int)>
    decreases 8 * data.len() - p,
{
    match word_from(data, p, black, 1) {
        None => None,
        Some((run, q)) => {
            proof {
                lemma_word_moves(data, p, black, 1);
            }
            if total + run > usize::MAX {
                None
            } else if run < 64 {
                Some((total + run, q))
            } else {
                run_at(data, q, black, total + run)
            }
        },
    }
}

// ------------------------------------------------------------------- the rows

/// Where the decoding of a row stands.
pub struct RowState {
    /// The position in the stream.
    pub p: int,
    /// The position in the row.
    pub a0: int,
    pub white: bool,
    /// The changing elements so far.
    pub changes: Seq<int>,
}

/// The first change from `i` on, every second one, that lies beyond `a0`, and
/// the change after it.
pub open spec fn pair_from(reference: Seq<int>, a0: int, i: int, edge: int) -> (int, int)
    decreases reference.len() + 1 - i,
{
    if i < 0 || i >= reference.len() {
        (edge, edge)
    } else if a0 == 0 || reference[i] > a0 {
        (
            reference[i],
            if i + 1 < reference.len() {
                reference[i + 1]
            } else {
                edge
            },
        )
    } else {
        pair_from(reference, a0, i + 2, edge)
    }
}

/// The imaginary change at the right edge of a row.
pub open spec fn right_edge(reference: Seq<int>, width: int) -> int {
    if reference.len() > 0 && reference.last() > width {
        reference.last()
    } else {
        width
    }
}

/// The two changes of the row above that the next element is coded against.
///
/// Rows begin with white. Consequently white runs use even changing-element
/// indices and black runs use odd indices.
pub open spec fn reference_pair_of(
    reference: Seq<int>,
    a0: int,
    white: bool,
    width: int,
) -> (int, int) {
    pair_from(
        reference,
        a0,
        if white {
            0
        } else {
            1
        },
        right_edge(reference, width),
    )
}

/// How far past the right edge a change may be recorded.
pub open spec fn within_slack(position: int, width: int) -> bool {
    position <= width + 64
}

/// The zero bits at `p` and the one that ends them.
pub open spec fn zeroes_at(data: Seq<u8>, p: int, n: nat) -> Option<(nat, int)>
    decreases 11 - n,
{
    if p + 1 > 8 * data.len() {
        None
    } else if bit_at(data, p) == 1 {
        Some((n, p + 1))
    } else if n + 1 > 10 {
        None
    } else {
        zeroes_at(data, p + 1, n + 1)
    }
}

pub proof fn lemma_zeroes_move(data: Seq<u8>, p: int, n: nat)
    ensures
        zeroes_at(data, p, n) matches Some((z, q)) ==> p < q <= 8 * data.len() && n <= z
            && (n <= 10 ==> z <= 10),
    decreases 11 - n,
{
    if !(p + 1 > 8 * data.len()) && bit_at(data, p) != 1 && n + 1 <= 10 {
        lemma_zeroes_move(data, p + 1, n + 1);
    }
}

/// `count` more pixels of one colour.
pub open spec fn appended(
    s: RowState,
    run_white: bool,
    count: int,
    width: int,
    relaxed: bool,
) -> Option<RowState> {
    if !relaxed && count > width - s.a0 {
        None
    } else {
        Some(
            RowState {
                p: s.p,
                a0: if s.a0 + count < width {
                    s.a0 + count
                } else {
                    width
                },
                white: run_white,
                changes: if s.white != run_white && s.a0 < width {
                    s.changes.push(s.a0)
                } else {
                    s.changes
                },
            },
        )
    }
}

/// The optional uncompressed mode, from the state `s` to its exit code.
///
/// Five image zeroes are written `000001`: the final one is a stuffing bit. An
/// exit code is six to ten zeroes, a one and a tag bit, which names the colour
/// of the next compressed run.
pub open spec fn uncompressed(data: Seq<u8>, s: RowState, width: int, relaxed: bool) -> Option<
    RowState,
>
    decreases 8 * data.len() - s.p,
{
    match zeroes_at(data, s.p, 0) {
        None => None,
        Some((z, q)) => {
            proof {
                lemma_zeroes_move(data, s.p, 0);
            }
            let at = RowState { p: q, ..s };
            if z >= 6 {
                if q + 1 > 8 * data.len() {
                    None
                } else {
                    match appended(at, true, z - 6, width, relaxed) {
                        None => None,
                        Some(t) => {
                            let next_white = bit_at(data, q) != 1;
                            Some(
                                RowState {
                                    p: q + 1,
                                    a0: t.a0,
                                    white: next_white,
                                    changes: if t.white != next_white && t.a0 < width {
                                        t.changes.push(t.a0)
                                    } else {
                                        t.changes
                                    },
                                },
                            )
                        },
                    }
                }
            } else {
                let more = if z == 5 {
                    appended(at, true, 5, width, relaxed)
                } else {
                    match appended(at, true, z as int, width, relaxed) {
                        None => None,
                        Some(t) => appended(t, false, 1, width, relaxed),
                    }
                };
                match more {
                    None => None,
                    Some(t) => if t.a0 >= width && !relaxed {
                        Some(t)
                    } else {
                        uncompressed(data, t, width, relaxed)
                    },
                }
            }
        },
    }
}

/// One mode of a row.
pub open spec fn row_step(
    data: Seq<u8>,
    width: int,
    reference: Seq<int>,
    relaxed: bool,
    s: RowState,
) -> Option<RowState> {
    match mode_from(data, s.p, 1) {
        None => None,
        Some((mode, q)) => match mode {
            Mode::Pass => {
                let b2 = reference_pair_of(reference, s.a0, s.white, width).1;
                if b2 <= s.a0 || (!relaxed && b2 > width) || (relaxed && b2 >= width
                    && !within_slack(b2, width)) {
                    None
                } else {
                    Some(
                        RowState {
                            p: q,
                            a0: if b2 < width {
                                b2
                            } else {
                                width
                            },
                            white: s.white,
                            changes: if relaxed && b2 >= width {
                                s.changes.push(b2)
                            } else {
                                s.changes
                            },
                        },
                    )
                }
            },
            Mode::Horizontal => match run_at(data, q, !s.white, 0) {
                None => None,
                Some((first, r)) => match run_at(data, r, s.white, 0) {
                    None => None,
                    Some((second, t)) => {
                        let a1 = s.a0 + first;
                        let a2 = a1 + second;
                        if a2 > usize::MAX || (!relaxed && a2 > width) {
                            None
                        } else if a1 >= width || a2 >= width {
                            if relaxed && !within_slack(a2, width) {
                                None
                            } else {
                                Some(
                                    RowState {
                                        p: t,
                                        a0: width,
                                        white: s.white,
                                        changes: if relaxed {
                                            s.changes.push(a1).push(a2)
                                        } else if a1 < width {
                                            s.changes.push(a1)
                                        } else {
                                            s.changes
                                        },
                                    },
                                )
                            }
                        } else {
                            Some(
                                RowState {
                                    p: t,
                                    a0: a2,
                                    white: s.white,
                                    changes: s.changes.push(a1).push(a2),
                                },
                            )
                        }
                    },
                },
            },
            Mode::Vertical(delta) => {
                let a1 = reference_pair_of(reference, s.a0, s.white, width).0 + delta;
                if a1 < s.a0 || (!relaxed && a1 > width) || (relaxed && a1 >= width
                    && !within_slack(a1, width)) {
                    None
                } else if a1 >= width {
                    Some(
                        RowState {
                            p: q,
                            a0: width,
                            white: s.white,
                            changes: if relaxed {
                                s.changes.push(a1)
                            } else {
                                s.changes
                            },
                        },
                    )
                } else {
                    Some(
                        RowState {
                            p: q,
                            a0: a1,
                            white: !s.white,
                            changes: s.changes.push(a1),
                        },
                    )
                }
            },
            Mode::Uncompressed => uncompressed(data, RowState { p: q, ..s }, width, relaxed),
        },
    }
}

/// A row from the state `s` to its right edge: its changing elements, the last
/// of them at the edge or beyond, and the position after it.
pub open spec fn row_from(
    data: Seq<u8>,
    width: int,
    reference: Seq<int>,
    relaxed: bool,
    s: RowState,
) -> Option<(Seq<int>, int)>
    decreases 8 * data.len() - s.p,
{
    if s.a0 >= width {
        Some(
            (
                if s.changes.len() == 0 || s.changes.last() < width {
                    s.changes.push(width)
                } else {
                    s.changes
                },
                s.p,
            ),
        )
    } else {
        proof {
            lemma_step_moves(data, width, reference, relaxed, s);
        }
        match row_step(data, width, reference, relaxed, s) {
            None => None,
            Some(t) => row_from(data, width, reference, relaxed, t),
        }
    }
}

/// A row at `p` below a row with the changing elements `reference`.
pub open spec fn row_at(
    data: Seq<u8>,
    p: int,
    width: int,
    reference: Seq<int>,
    relaxed: bool,
) -> Option<(Seq<int>, int)> {
    row_from(
        data,
        width,
        reference,
        relaxed,
        RowState { p, a0: 0, white: true, changes: Seq::empty() },
    )
}

proof fn lemma_mode_moves(data: Seq<u8>, p: int, len: nat)
    requires
        len >= 1,
    ensures
        mode_from(data, p, len) matches Some((m, q)) ==> p < q <= 8 * data.len() && (m matches
            Mode::Vertical(d) ==> -3 <= d <= 3),
    decreases 11 - len,
{
    if !(len > 10 || p + len > 8 * data.len()) {
        if mode_word(len as int, bits_at(data, p, len) as int) is None {
            lemma_mode_moves(data, p, len + 1);
        }
    }
}

proof fn lemma_run_moves(data: Seq<u8>, p: int, black: bool, total: nat)
    ensures
        run_at(data, p, black, total) matches Some((run, q)) ==> p < q <= 8 * data.len() && run
            <= usize::MAX,
    decreases 8 * data.len() - p,
{
    lemma_word_moves(data, p, black, 1);
    match word_from(data, p, black, 1) {
        None => {},
        Some((run, q)) => if total + run <= usize::MAX && run >= 64 {
            lemma_run_moves(data, q, black, total + run);
        },
    }
}

/// The changes are in order, none before what has been decoded.
pub open spec fn in_order(s: Seq<int>) -> bool {
    forall|i: int, j: int| 0 <= i <= j < s.len() ==> #[trigger] s[i] <= #[trigger] s[j]
}

/// What holds of a row while it is decoded.
pub open spec fn row_inv(s: RowState, width: int) -> bool {
    &&& 0 <= s.a0 <= width
    &&& in_order(s.changes)
    &&& s.changes.len() > 0 && s.a0 < width ==> s.changes.last() <= s.a0
    &&& forall|i: int| 0 <= i < s.changes.len() ==> 0 <= #[trigger] s.changes[i] <= width + 64
}

proof fn lemma_push_in_order(s: Seq<int>, x: int)
    requires
        in_order(s),
        s.len() > 0 ==> s.last() <= x,
    ensures
        in_order(s.push(x)),
{
    let t = s.push(x);
    assert forall|i: int, j: int| 0 <= i <= j < t.len() implies #[trigger] t[i] <= #[trigger] t[j] by {
        if j == s.len() && i < s.len() {
            assert(s[i] <= s[s.len() - 1]);
        }
    }
}

proof fn lemma_appended(s: RowState, run_white: bool, count: int, width: int, relaxed: bool)
    requires
        row_inv(s, width),
        s.changes.len() > 0 ==> s.changes.last() <= s.a0,
        count >= 0,
    ensures
        appended(s, run_white, count, width, relaxed) matches Some(t) ==> row_inv(t, width) && t.p
            == s.p && (t.changes.len() > 0 ==> t.changes.last() <= t.a0),
{
    if s.white != run_white && s.a0 < width {
        lemma_push_in_order(s.changes, s.a0);
    }
}

proof fn lemma_uncompressed(data: Seq<u8>, s: RowState, width: int, relaxed: bool)
    requires
        row_inv(s, width),
        s.changes.len() > 0 ==> s.changes.last() <= s.a0,
    ensures
        uncompressed(data, s, width, relaxed) matches Some(t) ==> row_inv(t, width) && s.p < t.p
            <= 8 * data.len(),
    decreases 8 * data.len() - s.p,
{
    lemma_zeroes_move(data, s.p, 0);
    match zeroes_at(data, s.p, 0) {
        None => {},
        Some((z, q)) => {
            let at = RowState { p: q, ..s };
            if z >= 6 {
                lemma_appended(at, true, z - 6, width, relaxed);
                match appended(at, true, z - 6, width, relaxed) {
                    None => {},
                    Some(t) => {
                        if t.a0 < width {
                            lemma_push_in_order(t.changes, t.a0);
                        }
                    },
                }
            } else if z == 5 {
                lemma_appended(at, true, 5, width, relaxed);
                match appended(at, true, 5, width, relaxed) {
                    None => {},
                    Some(t) => lemma_uncompressed(data, t, width, relaxed),
                }
            } else {
                lemma_appended(at, true, z as int, width, relaxed);
                match appended(at, true, z as int, width, relaxed) {
                    None => {},
                    Some(t) => {
                        lemma_appended(t, false, 1, width, relaxed);
                        match appended(t, false, 1, width, relaxed) {
                            None => {},
                            Some(u) => lemma_uncompressed(data, u, width, relaxed),
                        }
                    },
                }
            }
        },
    }
}

proof fn lemma_uncompressed_moves(data: Seq<u8>, s: RowState, width: int, relaxed: bool)
    ensures
        uncompressed(data, s, width, relaxed) matches Some(t) ==> s.p < t.p <= 8 * data.len(),
    decreases 8 * data.len() - s.p,
{
    lemma_zeroes_move(data, s.p, 0);
    match zeroes_at(data, s.p, 0) {
        None => {},
        Some((z, q)) => {
            let at = RowState { p: q, ..s };
            if z < 6 {
                let more = if z == 5 {
                    appended(at, true, 5, width, relaxed)
                } else {
                    match appended(at, true, z as int, width, relaxed) {
                        None => None,
                        Some(t) => appended(t, false, 1, width, relaxed),
                    }
                };
                match more {
                    None => {},
                    Some(t) => {
                        assert(t.p == q);
                        lemma_uncompressed_moves(data, t, width, relaxed);
                    },
                }
            }
        },
    }
}

/// Every mode takes at least one bit.
pub proof fn lemma_step_moves(
    data: Seq<u8>,
    width: int,
    reference: Seq<int>,
    relaxed: bool,
    s: RowState,
)
    ensures
        row_step(data, width, reference, relaxed, s) matches Some(t) ==> s.p < t.p <= 8
            * data.len(),
{
    lemma_mode_moves(data, s.p, 1);
    match mode_from(data, s.p, 1) {
        None => {},
        Some((mode, q)) => match mode {
            Mode::Horizontal => {
                lemma_run_moves(data, q, !s.white, 0);
                match run_at(data, q, !s.white, 0) {
                    None => {},
                    Some((first, r)) => lemma_run_moves(data, r, s.white, 0),
                }
            },
            Mode::Uncompressed => lemma_uncompressed_moves(
                data,
                RowState { p: q, ..s },
                width,
                relaxed,
            ),
            _ => {},
        },
    }
}

/// What holds of a row keeps holding.
proof fn lemma_step_inv(
    data: Seq<u8>,
    width: int,
    reference: Seq<int>,
    relaxed: bool,
    s: RowState,
)
    requires
        row_inv(s, width),
        s.a0 < width,
    ensures
        row_step(data, width, reference, relaxed, s) matches Some(t) ==> row_inv(t, width),
{
    match mode_from(data, s.p, 1) {
        None => {},
        Some((mode, q)) => match mode {
            Mode::Pass => {
                let b2 = reference_pair_of(reference, s.a0, s.white, width).1;
                if b2 > s.a0 {
                    lemma_push_in_order(s.changes, b2);
                }
            },
            Mode::Horizontal => match run_at(data, q, !s.white, 0) {
                None => {},
                Some((first, r)) => match run_at(data, r, s.white, 0) {
                    None => {},
                    Some((second, t)) => {
                        lemma_push_in_order(s.changes, s.a0 + first);
                        lemma_push_in_order(s.changes.push(s.a0 + first), s.a0 + first + second);
                    },
                },
            },
            Mode::Vertical(delta) => {
                let a1 = reference_pair_of(reference, s.a0, s.white, width).0 + delta;
                if a1 >= s.a0 {
                    lemma_push_in_order(s.changes, a1);
                }
            },
            Mode::Uncompressed => lemma_uncompressed(
                data,
                RowState { p: q, ..s },
                width,
                relaxed,
            ),
        },
    }
}

// ----------------------------------------------------------------- the pixels

/// How many changes lie at `x` or before it.
pub open spec fn changes_until(changes: Seq<int>, x: int) -> nat
    decreases changes.len(),
{
    if changes.len() == 0 {
        0
    } else {
        changes_until(changes.drop_last(), x) + (if changes.last() <= x {
            1nat
        } else {
            0
        })
    }
}

/// The pixel at `x`, one for black. A row starts white and every change turns
/// the colour; past the right edge there is nothing.
pub open spec fn pixel(changes: Seq<int>, width: int, x: int) -> nat {
    if x < width && changes_until(changes, x) % 2 == 1 {
        1
    } else {
        0
    }
}

/// The first `n` pixels from `x` on, packed into a number.
pub open spec fn packed_pixels(changes: Seq<int>, width: int, x: int, n: nat) -> nat
    decreases n,
{
    if n == 0 {
        0
    } else {
        2 * packed_pixels(changes, width, x, (n - 1) as nat) + pixel(changes, width, x + n - 1)
    }
}

/// The octets of a row.
pub open spec fn row_bytes(changes: Seq<int>, width: int) -> Seq<u8> {
    Seq::new(
        ((width + 7) / 8) as nat,
        |b: int| packed_pixels(changes, width, 8 * b, 8) as u8,
    )
}

/// The octets of `n` rows from `p` on, below a row with the changing elements
/// `reference`.
pub open spec fn rows_at(
    data: Seq<u8>,
    p: int,
    width: int,
    reference: Seq<int>,
    relaxed: bool,
    n: nat,
) -> Option<Seq<u8>>
    decreases n,
{
    if n == 0 {
        Some(Seq::empty())
    } else {
        match row_at(data, p, width, reference, relaxed) {
            None => None,
            Some((changes, q)) => match rows_at(
                data,
                q,
                width,
                changes,
                relaxed,
                (n - 1) as nat,
            ) {
                None => None,
                Some(rest) => Some(row_bytes(changes, width) + rest),
            },
        }
    }
}

/// The octets of the whole image; an empty or absurdly large size has none.
pub open spec fn image_rows(data: Seq<u8>, width: u32, height: u32, relaxed: bool) -> Option<
    Seq<u8>,
> {
    if width == 0 || height == 0 || width * height > MAX_PIXELS {
        None
    } else {
        rows_at(data, 0, width as int, Seq::empty(), relaxed, height as nat)
    }
}

// --------------------------------------------------------------- the decoder

struct BitReader<'a> {
    data: &'a [u8],
    byte: usize,
    bit: usize,
}

impl<'a> BitReader<'a> {
    spec fn wf(self) -> bool {
        &&& self.bit < 8
        &&& self.byte <= self.data@.len()
        &&& self.byte == self.data@.len() ==> self.bit == 0
    }

    spec fn pos(self) -> int {
        8 * self.byte + self.bit
    }

    fn new(data: &'a [u8]) -> (r: Self)
        ensures
            r.wf(),
            r.pos() == 0,
            r.data@ == data@,
    {
        BitReader { data, byte: 0, bit: 0 }
    }

    fn bit(&mut self) -> (r: Option<bool>)
        requires
            old(self).wf(),
        ensures
            final(self).wf(),
            final(self).data@ == old(self).data@,
            match r {
                Some(b) => final(self).pos() == old(self).pos() + 1 && old(self).pos() < 8 * old(
                    self,
                ).data@.len() && b == (bit_at(old(self).data@, old(self).pos()) == 1) && bit_at(
                    old(self).data@,
                    old(self).pos(),
                ) <= 1,
                None => old(self).pos() + 1 > 8 * old(self).data@.len(),
            },
    {
        let ghost p = self.pos();
        proof {
            assert(p / 8 == self.byte && p % 8 == self.bit);
        }
        if self.byte >= self.data.len() {
            return None;
        }
        let b: u8 = self.data[self.byte] / BIT_WEIGHT[self.bit] % 2;
        if self.bit == 7 {
            self.byte = self.byte + 1;
            self.bit = 0;
        } else {
            self.bit = self.bit + 1;
        }
        Some(b == 1)
    }
}

fn word_mode(len: u32, code: u32) -> (m: Option<Mode>)
    ensures
        m == mode_word(len as int, code as int),
{
    if len == 1 && code == 0b1 {
        Some(Mode::Vertical(0))
    } else if len == 3 && code == 0b001 {
        Some(Mode::Horizontal)
    } else if len == 3 && code == 0b010 {
        Some(Mode::Vertical(-1))
    } else if len == 3 && code == 0b011 {
        Some(Mode::Vertical(1))
    } else if len == 4 && code == 0b0001 {
        Some(Mode::Pass)
    } else if len == 6 && code == 0b000010 {
        Some(Mode::Vertical(-2))
    } else if len == 6 && code == 0b000011 {
        Some(Mode::Vertical(2))
    } else if len == 7 && code == 0b0000010 {
        Some(Mode::Vertical(-3))
    } else if len == 7 && code == 0b0000011 {
        Some(Mode::Vertical(3))
    } else if len == 10 && code == 0b0000001111 {
        Some(Mode::Uncompressed)
    } else {
        None
    }
}

fn read_mode(reader: &mut BitReader<'_>) -> (r: Option<Mode>)
    requires
        old(reader).wf(),
    ensures
        final(reader).wf(),
        final(reader).data@ == old(reader).data@,
        match (r, mode_from(old(reader).data@, old(reader).pos(), 1)) {
            (Some(m), Some((n, q))) => m == n && final(reader).pos() == q,
            (None, None) => true,
            _ => false,
        },
{
    let ghost data = reader.data@;
    let ghost p = reader.pos();
    let mut code: u32 = 0;
    let mut len: u32 = 1;
    let ghost mut limit: nat = 1;
    proof {
        vstd::arithmetic::power2::lemma2_to64();
    }
    while len <= 10
        invariant
            1 <= len <= 11,
            reader.wf(),
            reader.data@ == data,
            data == old(reader).data@,
            p == old(reader).pos(),
            reader.pos() == p + len - 1,
            code == bits_at(data, p, (len - 1) as nat),
            limit == vstd::arithmetic::power2::pow2((len - 1) as nat),
            code < limit <= 1024,
            mode_from(data, p, 1) == mode_from(data, p, len as nat),
        decreases 11 - len,
    {
        match reader.bit() {
            Some(b) => {
                code = 2 * code + if b {
                    1u32
                } else {
                    0u32
                };
            },
            None => {
                return None;
            },
        }
        match word_mode(len, code) {
            Some(m) => {
                return Some(m);
            },
            None => {},
        }
        proof {
            vstd::arithmetic::power2::lemma2_to64();
            vstd::arithmetic::power2::lemma_pow2_unfold(len as nat);
            limit = 2 * limit;
            if len < 10 {
                vstd::arithmetic::power2::lemma_pow2_strictly_increases(len as nat, 10);
            }
        }
        len += 1;
    }
    None
}

fn find_run(table: &[(u8, u16, u16)], len: u32, code: u32) -> (r: Option<usize>)
    ensures
        match (r, lookup(table@, 0, len as int, code as int)) {
            (Some(a), Some(b)) => a == b,
            (None, None) => true,
            _ => false,
        },
{
    let mut k: usize = 0;
    while k < table.len()
        invariant
            k <= table@.len(),
            lookup(table@, 0, len as int, code as int) == lookup(
                table@,
                k as int,
                len as int,
                code as int,
            ),
        decreases table@.len() - k,
    {
        let e = table[k];
        if e.0 as u32 == len && e.1 as u32 == code {
            return Some(e.2 as usize);
        }
        k += 1;
    }
    None
}

fn read_run_code(reader: &mut BitReader<'_>, black: bool) -> (r: Option<usize>)
    requires
        old(reader).wf(),
    ensures
        final(reader).wf(),
        final(reader).data@ == old(reader).data@,
        match (r, word_from(old(reader).data@, old(reader).pos(), black, 1)) {
            (Some(m), Some((n, q))) => m == n && final(reader).pos() == q,
            (None, None) => true,
            _ => false,
        },
{
    let ghost data = reader.data@;
    let ghost p = reader.pos();
    let last: u32 = if black {
        13
    } else {
        12
    };
    let mut code: u32 = 0;
    let mut len: u32 = 1;
    let ghost mut limit: nat = 1;
    proof {
        vstd::arithmetic::power2::lemma2_to64();
    }
    while len <= last
        invariant
            1 <= len <= last + 1 <= 14,
            last == longest_word(black),
            reader.wf(),
            reader.data@ == data,
            data == old(reader).data@,
            p == old(reader).pos(),
            reader.pos() == p + len - 1,
            code == bits_at(data, p, (len - 1) as nat),
            limit == vstd::arithmetic::power2::pow2((len - 1) as nat),
            code < limit <= 8192,
            word_from(data, p, black, 1) == word_from(data, p, black, len as nat),
        decreases 14 - len,
    {
        match reader.bit() {
            Some(b) => {
                code = 2 * code + if b {
                    1u32
                } else {
                    0u32
                };
            },
            None => {
                return None;
            },
        }
        let found: Option<usize> = if black {
            find_run(&BLACK_CODES, len, code)
        } else {
            find_run(&WHITE_CODES, len, code)
        };
        match found {
            Some(run) => {
                return Some(run);
            },
            None => {},
        }
        proof {
            vstd::arithmetic::power2::lemma2_to64();
            vstd::arithmetic::power2::lemma_pow2_unfold(len as nat);
            limit = 2 * limit;
            if len < 13 {
                vstd::arithmetic::power2::lemma_pow2_strictly_increases(len as nat, 13);
            }
        }
        len += 1;
    }
    None
}

fn decode_run(reader: &mut BitReader<'_>, black: bool) -> (r: Option<usize>)
    requires
        old(reader).wf(),
    ensures
        final(reader).wf(),
        final(reader).data@ == old(reader).data@,
        match (r, run_at(old(reader).data@, old(reader).pos(), black, 0)) {
            (Some(m), Some((n, q))) => m == n && final(reader).pos() == q,
            (None, None) => true,
            _ => false,
        },
{
    let ghost data = reader.data@;
    let ghost p = reader.pos();
    let mut total: usize = 0;
    loop
        invariant
            reader.wf(),
            reader.data@ == data,
            data == old(reader).data@,
            p == old(reader).pos(),
            run_at(data, p, black, 0) == run_at(data, reader.pos(), black, total as nat),
        decreases 8 * data.len() - reader.pos(),
    {
        proof {
            lemma_word_moves(data, reader.pos(), black, 1);
        }
        let run: usize = match read_run_code(reader, black) {
            Some(r) => r,
            None => {
                return None;
            },
        };
        total = match total.checked_add(run) {
            Some(t) => t,
            None => {
                return None;
            },
        };
        if run < 64 {
            return Some(total);
        }
    }
}

spec fn ints(s: Seq<usize>) -> Seq<int> {
    Seq::new(s.len(), |i: int| s[i] as int)
}

fn reference_pair(reference: &Vec<usize>, a0: usize, white: bool, width: usize) -> (r: (
    usize,
    usize,
))
    ensures
        (r.0 as int, r.1 as int) == reference_pair_of(
            ints(reference@),
            a0 as int,
            white,
            width as int,
        ),
{
    let n: usize = reference.len();
    let edge: usize = if n > 0 && reference[n - 1] > width {
        reference[n - 1]
    } else {
        width
    };
    let mut i: usize = if white {
        0
    } else {
        1
    };
    let ghost refs = ints(reference@);
    while i < n
        invariant
            n == reference.len(),
            refs == ints(reference@),
            edge == right_edge(refs, width as int),
            reference_pair_of(refs, a0 as int, white, width as int) == pair_from(
                refs,
                a0 as int,
                i as int,
                edge as int,
            ),
        decreases n + 1 - i,
    {
        if a0 == 0 || reference[i] > a0 {
            let b2: usize = if i + 1 < n {
                reference[i + 1]
            } else {
                edge
            };
            return (reference[i], b2);
        }
        if n - i < 2 {
            assert(pair_from(refs, a0 as int, i + 2, edge as int) == (edge as int, edge as int));
            return (edge, edge);
        }
        i += 2;
    }
    (edge, edge)
}

/// A row while it is decoded.
struct Row {
    a0: usize,
    white: bool,
    changes: Vec<usize>,
}

impl Row {
    spec fn state(self, p: int) -> RowState {
        RowState { p, a0: self.a0 as int, white: self.white, changes: ints(self.changes@) }
    }

    fn change(&mut self, at: usize)
        ensures
            final(self).a0 == old(self).a0,
            final(self).white == old(self).white,
            ints(final(self).changes@) == ints(old(self).changes@).push(at as int),
    {
        let ghost before = self.changes@;
        self.changes.push(at);
        proof {
            assert(ints(self.changes@) =~= ints(before).push(at as int));
        }
    }

    /// `count` more pixels of one colour; whether they fit.
    fn append_run(
        &mut self,
        run_white: bool,
        count: usize,
        width: usize,
        relaxed: bool,
        p: Ghost<int>,
    ) -> (ok: bool)
        requires
            old(self).a0 <= width,
            width + count <= usize::MAX,
        ensures
            final(self).a0 <= width,
            match appended(
                old(self).state(p@),
                run_white,
                count as int,
                width as int,
                relaxed,
            ) {
                Some(t) => ok && t == final(self).state(p@),
                None => !ok,
            },
    {
        if !relaxed && count > width - self.a0 {
            return false;
        }
        if self.white != run_white && self.a0 < width {
            let at: usize = self.a0;
            self.change(at);
        }
        self.white = run_white;
        self.a0 = if self.a0 + count < width {
            self.a0 + count
        } else {
            width
        };
        true
    }
}

/// Reads the optional uncompressed mode up to its exit code; whether it could
/// be read.
fn decode_uncompressed(reader: &mut BitReader<'_>, row: &mut Row, width: usize, relaxed: bool) -> (ok:
    bool)
    requires
        old(reader).wf(),
        old(row).a0 <= width,
        width <= MAX_PIXELS,
    ensures
        final(reader).wf(),
        final(reader).data@ == old(reader).data@,
        final(row).a0 <= width,
        match uncompressed(
            old(reader).data@,
            old(row).state(old(reader).pos()),
            width as int,
            relaxed,
        ) {
            Some(t) => ok && t == final(row).state(final(reader).pos()),
            None => !ok,
        },
{
    let ghost data = reader.data@;
    let ghost start = row.state(reader.pos());
    loop
        invariant
            reader.wf(),
            reader.data@ == data,
            data == old(reader).data@,
            start == old(row).state(old(reader).pos()),
            row.a0 <= width,
            width <= MAX_PIXELS,
            uncompressed(data, start, width as int, relaxed) == uncompressed(
                data,
                row.state(reader.pos()),
                width as int,
                relaxed,
            ),
        decreases 8 * data.len() - reader.pos(),
    {
        let ghost from = reader.pos();
        let ghost s = row.state(from);
        proof {
            lemma_zeroes_move(data, from, 0);
        }
        let mut zeroes: usize = 0;
        let mut more: bool = true;
        while more
            invariant
                reader.wf(),
                reader.data@ == data,
                data == old(reader).data@,
                zeroes <= 10,
                row.a0 <= width,
                s == row.state(from),
                start == old(row).state(old(reader).pos()),
                more ==> zeroes_at(data, from, 0) == zeroes_at(
                    data,
                    reader.pos(),
                    zeroes as nat,
                ),
                !more ==> zeroes_at(data, from, 0) == Some((zeroes as nat, reader.pos())),
                uncompressed(data, start, width as int, relaxed) == uncompressed(
                    data,
                    s,
                    width as int,
                    relaxed,
                ),
                s.p == from,
            decreases
                    11 - zeroes,
                    (if more {
                        1int
                    } else {
                        0
                    }),
        {
            match reader.bit() {
                None => {
                    return false;
                },
                Some(b) => {
                    if b {
                        more = false;
                    } else {
                        if zeroes + 1 > 10 {
                            return false;
                        }
                        zeroes += 1;
                    }
                },
            }
        }
        let ghost at = RowState { p: reader.pos(), ..s };
        assert(at == row.state(at.p));
        if zeroes >= 6 {
            let next_black: bool = match reader.bit() {
                None => {
                    return false;
                },
                Some(b) => b,
            };
            if !row.append_run(true, zeroes - 6, width, relaxed, Ghost(at.p)) {
                return false;
            }
            let next_white: bool = !next_black;
            if row.white != next_white && row.a0 < width {
                let x: usize = row.a0;
                row.change(x);
            }
            row.white = next_white;
            return true;
        }
        if zeroes == 5 {
            if !row.append_run(true, 5, width, relaxed, Ghost(at.p)) {
                return false;
            }
        } else {
            if !row.append_run(true, zeroes, width, relaxed, Ghost(at.p)) {
                return false;
            }
            if !row.append_run(false, 1, width, relaxed, Ghost(at.p)) {
                return false;
            }
        }
        if row.a0 >= width && !relaxed {
            return true;
        }
    }
}

/// Decodes one mode of a row; whether it could be decoded.
fn decode_mode(
    reader: &mut BitReader<'_>,
    row: &mut Row,
    width: usize,
    reference: &Vec<usize>,
    relaxed: bool,
) -> (ok: bool)
    requires
        old(reader).wf(),
        old(row).a0 < width,
        width <= MAX_PIXELS,
        forall|i: int| 0 <= i < reference@.len() ==> #[trigger] reference@[i] <= width + 64,
    ensures
        final(reader).wf(),
        final(reader).data@ == old(reader).data@,
        final(row).a0 <= width,
        match row_step(
            old(reader).data@,
            width as int,
            ints(reference@),
            relaxed,
            old(row).state(old(reader).pos()),
        ) {
            Some(t) => ok && t == final(row).state(final(reader).pos()),
            None => !ok,
        },
{
    let ghost data = reader.data@;
    proof {
        lemma_mode_moves(data, reader.pos(), 1);
    }
    let mode = match read_mode(reader) {
        Some(m) => m,
        None => {
            return false;
        },
    };
    match mode {
        Mode::Pass => {
            let (_, b2) = reference_pair(reference, row.a0, row.white, width);
            if b2 <= row.a0 || (!relaxed && b2 > width) {
                return false;
            }
            if relaxed && b2 >= width {
                if b2 - width > 64 {
                    return false;
                }
                row.change(b2);
            }
            row.a0 = if b2 < width {
                b2
            } else {
                width
            };
            true
        },
        Mode::Horizontal => {
            proof {
                lemma_run_moves(data, reader.pos(), !row.white, 0);
            }
            let first: usize = match decode_run(reader, !row.white) {
                Some(n) => n,
                None => {
                    return false;
                },
            };
            proof {
                lemma_run_moves(data, reader.pos(), row.white, 0);
            }
            let second: usize = match decode_run(reader, row.white) {
                Some(n) => n,
                None => {
                    return false;
                },
            };
            let a1: usize = match row.a0.checked_add(first) {
                Some(n) => n,
                None => {
                    return false;
                },
            };
            let a2: usize = match a1.checked_add(second) {
                Some(n) => n,
                None => {
                    return false;
                },
            };
            if !relaxed && a2 > width {
                return false;
            }
            if a1 >= width || a2 >= width {
                if relaxed {
                    if a2 > width && a2 - width > 64 {
                        return false;
                    }
                    row.change(a1);
                    row.change(a2);
                } else if a1 < width {
                    row.change(a1);
                }
                row.a0 = width;
                return true;
            }
            row.change(a1);
            row.change(a2);
            row.a0 = a2;
            true
        },
        Mode::Vertical(delta) => {
            let (b1, _) = reference_pair(reference, row.a0, row.white, width);
            proof {
                lemma_pair_bound(
                    ints(reference@),
                    row.a0 as int,
                    row.white,
                    width as int,
                );
            }
            let a1: i64 = b1 as i64 + delta as i64;
            if a1 < row.a0 as i64 || (!relaxed && a1 > width as i64) {
                return false;
            }
            let a1: usize = a1 as usize;
            if a1 >= width {
                if relaxed {
                    if a1 - width > 64 {
                        return false;
                    }
                    row.change(a1);
                }
                row.a0 = width;
                return true;
            }
            row.change(a1);
            row.a0 = a1;
            row.white = !row.white;
            true
        },
        Mode::Uncompressed => decode_uncompressed(reader, row, width, relaxed),
    }
}

proof fn lemma_pair_bound(reference: Seq<int>, a0: int, white: bool, width: int)
    requires
        0 <= width,
        forall|i: int| 0 <= i < reference.len() ==> 0 <= #[trigger] reference[i] <= width + 64,
    ensures
        0 <= reference_pair_of(reference, a0, white, width).0 <= width + 64,
{
    lemma_pair_from_bound(
        reference,
        a0,
        if white {
            0
        } else {
            1
        },
        right_edge(reference, width),
        width + 64,
    );
}

proof fn lemma_pair_from_bound(reference: Seq<int>, a0: int, i: int, edge: int, bound: int)
    requires
        0 <= edge <= bound,
        forall|k: int| 0 <= k < reference.len() ==> 0 <= #[trigger] reference[k] <= bound,
    ensures
        0 <= pair_from(reference, a0, i, edge).0 <= bound,
    decreases reference.len() + 1 - i,
{
    if !(i < 0 || i >= reference.len()) && !(a0 == 0 || reference[i] > a0) {
        lemma_pair_from_bound(reference, a0, i + 2, edge, bound);
    }
}

/// Decodes one row and returns its changing elements.
fn decode_row(reader: &mut BitReader<'_>, width: usize, reference: &Vec<usize>, relaxed: bool) -> (r:
    Option<Vec<usize>>)
    requires
        old(reader).wf(),
        0 < width <= MAX_PIXELS,
        forall|i: int| 0 <= i < reference@.len() ==> #[trigger] reference@[i] <= width + 64,
    ensures
        final(reader).wf(),
        final(reader).data@ == old(reader).data@,
        match (
            r,
            row_at(
                old(reader).data@,
                old(reader).pos(),
                width as int,
                ints(reference@),
                relaxed,
            ),
        ) {
            (Some(v), Some((changes, q))) => ints(v@) == changes && final(reader).pos() == q,
            (None, None) => true,
            _ => false,
        },
        r matches Some(v) ==> in_order(ints(v@)) && forall|i: int|
            0 <= i < v@.len() ==> #[trigger] v@[i] <= width + 64,
{
    let ghost data = reader.data@;
    let ghost refs = ints(reference@);
    let ghost start = reader.pos();
    let mut row = Row { a0: 0, white: true, changes: Vec::new() };
    proof {
        assert(ints(row.changes@) =~= Seq::<int>::empty());
    }
    while row.a0 < width
        invariant
            reader.wf(),
            reader.data@ == data,
            data == old(reader).data@,
            start == old(reader).pos(),
            refs == ints(reference@),
            0 < width <= MAX_PIXELS,
            forall|i: int| 0 <= i < reference@.len() ==> #[trigger] reference@[i] <= width + 64,
            row_inv(row.state(reader.pos()), width as int),
            row_at(data, start, width as int, refs, relaxed) == row_from(
                data,
                width as int,
                refs,
                relaxed,
                row.state(reader.pos()),
            ),
        decreases 8 * data.len() - reader.pos(),
    {
        proof {
            lemma_step_moves(data, width as int, refs, relaxed, row.state(reader.pos()));
            lemma_step_inv(data, width as int, refs, relaxed, row.state(reader.pos()));
        }
        if !decode_mode(reader, &mut row, width, reference, relaxed) {
            return None;
        }
    }
    let ghost before = row.state(reader.pos()).changes;
    let n: usize = row.changes.len();
    if n == 0 || row.changes[n - 1] < width {
        row.change(width);
        proof {
            lemma_push_in_order(before, width as int);
        }
    }
    proof {
        let all = ints(row.changes@);
        assert(all.len() == row.changes@.len());
        assert forall|i: int| 0 <= i < row.changes@.len() implies #[trigger] row.changes@[i] <= width
            + 64 by {
            assert(all[i] == row.changes@[i]);
            if i < before.len() {
                assert(before[i] <= width + 64);
                assert(before[i] == all[i]);
            } else {
                assert(all == before.push(width as int));
                assert(all[i] == width);
            }
        }
    }
    Some(row.changes)
}

proof fn lemma_changes_until(changes: Seq<int>, x: int, k: int)
    requires
        in_order(changes),
        0 <= k <= changes.len(),
        k > 0 ==> changes[k - 1] <= x,
        k < changes.len() ==> changes[k] > x,
    ensures
        changes_until(changes, x) == k,
    decreases changes.len(),
{
    if changes.len() > 0 {
        let shorter = changes.drop_last();
        assert(in_order(shorter)) by {
            assert forall|i: int, j: int| 0 <= i <= j < shorter.len() implies #[trigger] shorter[i]
                <= #[trigger] shorter[j] by {
                assert(changes[i] <= changes[j]);
            }
        }
        if k < changes.len() {
            assert(changes[k] <= changes[changes.len() - 1]);
            lemma_changes_until(shorter, x, k);
        } else {
            if k >= 2 {
                assert(changes[k - 2] <= changes[k - 1]);
            }
            lemma_changes_until(shorter, x, k - 1);
        }
    }
}

/// Appends the octets of a row.
fn paint_row(rows: &mut Vec<u8>, width: usize, changes: &Vec<usize>)
    requires
        0 < width <= MAX_PIXELS,
        in_order(ints(changes@)),
    ensures
        final(rows)@ == old(rows)@ + row_bytes(ints(changes@), width as int),
{
    let ghost all = ints(changes@);
    let ghost before = rows@;
    let stride: usize = (width + 7) / 8;
    let mut b: usize = 0;
    let mut k: usize = 0;
    while b < stride
        invariant
            b <= stride,
            stride == (width + 7) / 8,
            0 < width <= MAX_PIXELS,
            all == ints(changes@),
            in_order(all),
            k <= changes@.len(),
            k > 0 ==> all[k - 1] < 8 * b,
            rows@ == before + row_bytes(all, width as int).take(b as int),
        decreases stride - b,
    {
        let mut v: u32 = 0;
        let mut j: usize = 0;
        let ghost mut limit: nat = 1;
        while j < 8
            invariant
                j <= 8,
                b < stride,
                stride == (width + 7) / 8,
                0 < width <= MAX_PIXELS,
                all == ints(changes@),
                in_order(all),
                k <= changes@.len(),
                k > 0 ==> all[k - 1] < 8 * b + j,
                v == packed_pixels(all, width as int, 8 * b as int, j as nat),
                v < limit,
                limit == (if j == 0 { 1nat } else if j == 1 { 2 } else if j == 2 { 4 } else if j == 3 { 8 } else if j == 4 { 16 } else if j == 5 { 32 } else if j == 6 { 64 } else if j == 7 { 128 } else { 256 }),
            decreases 8 - j,
        {
            let x: usize = 8 * b + j;
            while k < changes.len() && changes[k] <= x
                invariant
                    k <= changes@.len(),
                    all == ints(changes@),
                    k > 0 ==> all[k - 1] <= x,
                decreases changes@.len() - k,
            {
                k += 1;
            }
            proof {
                lemma_changes_until(all, x as int, k as int);
                limit = 2 * limit;
            }
            v = 2 * v + if x < width && k % 2 == 1 {
                1u32
            } else {
                0u32
            };
            j += 1;
        }
        rows.push(v as u8);
        proof {
            let octets = row_bytes(all, width as int);
            assert(octets[b as int] == v as u8);
            assert(octets.take(b + 1) =~= octets.take(b as int).push(v as u8));
            assert(rows@ =~= before + octets.take(b + 1));
        }
        b += 1;
    }
    proof {
        let octets = row_bytes(all, width as int);
        assert(octets.take(stride as int) =~= octets);
    }
}

proof fn lemma_rows_len(
    data: Seq<u8>,
    p: int,
    width: int,
    reference: Seq<int>,
    relaxed: bool,
    n: nat,
)
    requires
        0 < width,
    ensures
        rows_at(data, p, width, reference, relaxed, n) matches Some(rows) ==> rows.len() == ((width
            + 7) / 8) * n,
    decreases n,
{
    if n > 0 {
        match row_at(data, p, width, reference, relaxed) {
            None => {},
            Some((changes, q)) => {
                lemma_rows_len(data, q, width, changes, relaxed, (n - 1) as nat);
                let stride = (width + 7) / 8;
                assert(stride + stride * (n - 1) == stride * n) by (nonlinear_arith);
            },
        }
    } else {
        assert(((width + 7) / 8) * 0 == 0);
    }
}

/// The raster is the decoded image: one bit a pixel, white then black.
pub open spec fn is_image(r: Raster, width: u32, height: u32, rows: Seq<u8>) -> bool {
    &&& r.width == width
    &&& r.height == height
    &&& r.bits == 1
    &&& r.palette@ == seq![(255u8, 255u8, 255u8), (0u8, 0u8, 0u8)]
    &&& r.rows@ == rows
    &&& r.stencil is None
    &&& r.full()
}

fn decode_inner(data: &[u8], width: u32, height: u32, relaxed: bool) -> (r: Option<Raster>)
    ensures
        match (r, image_rows(data@, width, height, relaxed)) {
            (Some(raster), Some(rows)) => is_image(raster, width, height, rows),
            (None, None) => true,
            _ => false,
        },
{
    proof {
        assert(0 <= width * height <= 0xFFFF_FFFF * 0xFFFF_FFFF) by (nonlinear_arith)
            requires
                0 <= width <= 0xFFFF_FFFF,
                0 <= height <= 0xFFFF_FFFF,
        ;
    }
    if width == 0 || height == 0 || width as u64 * height as u64 > MAX_PIXELS {
        return None;
    }
    proof {
        assert(width <= width * height) by (nonlinear_arith)
            requires
                width > 0,
                height > 0,
        ;
        lemma_rows_len(data@, 0, width as int, Seq::empty(), relaxed, height as nat);
    }
    let w: usize = width as usize;
    let mut rows: Vec<u8> = Vec::new();
    let mut reader = BitReader::new(data);
    let mut reference: Vec<usize> = Vec::new();
    let ghost want = image_rows(data@, width, height, relaxed);
    proof {
        assert(ints(reference@) =~= Seq::<int>::empty());
    }
    let mut y: u32 = 0;
    while y < height
        invariant
            y <= height,
            w == width,
            0 < w <= MAX_PIXELS,
            reader.wf(),
            reader.data@ == data@,
            forall|i: int| 0 <= i < reference@.len() ==> #[trigger] reference@[i] <= w + 64,
            want == (match rows_at(
                data@,
                reader.pos(),
                w as int,
                ints(reference@),
                relaxed,
                (height - y) as nat,
            ) {
                Some(rest) => Some(rows@ + rest),
                None => None,
            }),
            want == image_rows(data@, width, height, relaxed),
        decreases height - y,
    {
        let ghost before = rows@;
        let changes = match decode_row(&mut reader, w, &reference, relaxed) {
            Some(c) => c,
            None => {
                return None;
            },
        };
        paint_row(&mut rows, w, &changes);
        reference = changes;
        y += 1;
        proof {
            let octets = row_bytes(ints(reference@), w as int);
            match rows_at(
                data@,
                reader.pos(),
                w as int,
                ints(reference@),
                relaxed,
                (height - y) as nat,
            ) {
                Some(rest) => assert(before + (octets + rest) =~= rows@ + rest),
                None => {},
            }
        }
    }
    proof {
        assert(rows@ + Seq::<u8>::empty() =~= rows@);
    }
    let mut palette: Vec<(u8, u8, u8)> = Vec::new();
    palette.push((255, 255, 255));
    palette.push((0, 0, 0));
    proof {
        assert(palette@ =~= seq![(255u8, 255u8, 255u8), (0u8, 0u8, 0u8)]);
    }
    Some(Raster { width, height, bits: 1, palette, rows, stencil: None })
}

/// Decode a wrapper-less CCITT T.6 (Group 4/MMR) stream.
///
/// The stream is MSB-first, white is zero and black is one. There is no
/// per-row end mark; decoding stops after the declared number of rows and
/// anything after them is ignored.
pub fn decode(data: &[u8], width: u32, height: u32) -> (r: Option<Raster>)
    ensures
        match (r, image_rows(data@, width, height, false)) {
            (Some(raster), Some(rows)) => is_image(raster, width, height, rows),
            (None, None) => true,
            _ => false,
        },
{
    decode_inner(data, width, height, false)
}

/// Decode a Group 4 stream found in an old full-size preview.
///
/// Those streams use the optional uncompressed extension and a few writers
/// emit a changing element just beyond the declared right edge, which this
/// entry point tolerates up to a bound.
pub fn decode_relaxed(data: &[u8], width: u32, height: u32) -> (r: Option<Raster>)
    ensures
        match (r, image_rows(data@, width, height, true)) {
            (Some(raster), Some(rows)) => is_image(raster, width, height, rows),
            (None, None) => true,
            _ => false,
        },
{
    decode_inner(data, width, height, true)
}

} // verus!
