//! The words that runs are written with in Group 4 images, and what is read of
//! them.
use crate::infrastructure::ccitt::{
    lookup, run_at, run_word, word_from, BLACK_CODES, WHITE_CODES,
};
use crate::infrastructure::lzh::bits_at;
use crate::infrastructure::spelling::{
    binary, is_one, lemma_binary_start, lemma_number_read, lemma_stand_apart, stand_in,
};
use vstd::arithmetic::power2::{lemma2_to64, lemma_pow2_adds, lemma_pow2_pos, pow2};
use vstd::prelude::*;

verus! {

/// The white words: how many bits, and the bits. First those of the runs from 0
/// to 63, then those of the multiples of 64 up to 2560.
pub const WHITE_WORDS: [(u8, u16); 104] = [
    (8, 0b00110101),
    (6, 0b000111),
    (4, 0b0111),
    (4, 0b1000),
    (4, 0b1011),
    (4, 0b1100),
    (4, 0b1110),
    (4, 0b1111),
    (5, 0b10011),
    (5, 0b10100),
    (5, 0b00111),
    (5, 0b01000),
    (6, 0b001000),
    (6, 0b000011),
    (6, 0b110100),
    (6, 0b110101),
    (6, 0b101010),
    (6, 0b101011),
    (7, 0b0100111),
    (7, 0b0001100),
    (7, 0b0001000),
    (7, 0b0010111),
    (7, 0b0000011),
    (7, 0b0000100),
    (7, 0b0101000),
    (7, 0b0101011),
    (7, 0b0010011),
    (7, 0b0100100),
    (7, 0b0011000),
    (8, 0b00000010),
    (8, 0b00000011),
    (8, 0b00011010),
    (8, 0b00011011),
    (8, 0b00010010),
    (8, 0b00010011),
    (8, 0b00010100),
    (8, 0b00010101),
    (8, 0b00010110),
    (8, 0b00010111),
    (8, 0b00101000),
    (8, 0b00101001),
    (8, 0b00101010),
    (8, 0b00101011),
    (8, 0b00101100),
    (8, 0b00101101),
    (8, 0b00000100),
    (8, 0b00000101),
    (8, 0b00001010),
    (8, 0b00001011),
    (8, 0b01010010),
    (8, 0b01010011),
    (8, 0b01010100),
    (8, 0b01010101),
    (8, 0b00100100),
    (8, 0b00100101),
    (8, 0b01011000),
    (8, 0b01011001),
    (8, 0b01011010),
    (8, 0b01011011),
    (8, 0b01001010),
    (8, 0b01001011),
    (8, 0b00110010),
    (8, 0b00110011),
    (8, 0b00110100),
    (5, 0b11011),
    (5, 0b10010),
    (6, 0b010111),
    (7, 0b0110111),
    (8, 0b00110110),
    (8, 0b00110111),
    (8, 0b01100100),
    (8, 0b01100101),
    (8, 0b01101000),
    (8, 0b01100111),
    (9, 0b011001100),
    (9, 0b011001101),
    (9, 0b011010010),
    (9, 0b011010011),
    (9, 0b011010100),
    (9, 0b011010101),
    (9, 0b011010110),
    (9, 0b011010111),
    (9, 0b011011000),
    (9, 0b011011001),
    (9, 0b011011010),
    (9, 0b011011011),
    (9, 0b010011000),
    (9, 0b010011001),
    (9, 0b010011010),
    (6, 0b011000),
    (9, 0b010011011),
    (11, 0b00000001000),
    (11, 0b00000001100),
    (11, 0b00000001101),
    (12, 0b000000010010),
    (12, 0b000000010011),
    (12, 0b000000010100),
    (12, 0b000000010101),
    (12, 0b000000010110),
    (12, 0b000000010111),
    (12, 0b000000011100),
    (12, 0b000000011101),
    (12, 0b000000011110),
    (12, 0b000000011111),
];

/// Where the words stand in the white table.
pub const WHITE_PLACES: [u8; 104] = [
    54, 19, 0, 1, 2, 3, 4, 5, 7, 8, 10, 11, 20,
    16, 17, 18, 14, 15, 25, 32, 31, 22, 28, 30, 26, 27,
    21, 24, 23, 41, 50, 39, 40, 33, 34, 35, 36, 37, 38,
    44, 45, 46, 47, 48, 49, 57, 60, 73, 74, 61, 62, 63,
    64, 42, 43, 65, 66, 67, 68, 58, 59, 51, 52, 53, 9,
    6, 12, 29, 55, 56, 69, 70, 72, 71, 79, 80, 81, 82,
    83, 84, 85, 86, 87, 88, 89, 90, 75, 76, 77, 13, 78,
    91, 92, 93, 94, 95, 96, 97, 98, 99, 100, 101, 102, 103,
];

/// The white words in the order of their bits.
pub const WHITE_ORDER: [u8; 104] = [
    91, 94, 95, 96, 97, 98, 99, 92, 93, 100, 101, 102, 103,
    29, 30, 45, 46, 22, 23, 47, 48, 13, 20, 33, 34, 35,
    36, 37, 38, 19, 31, 32, 1, 12, 53, 54, 26, 39, 40,
    41, 42, 43, 44, 21, 28, 61, 62, 63, 0, 68, 69, 10,
    11, 27, 59, 60, 86, 87, 88, 90, 18, 24, 49, 50, 51,
    52, 25, 55, 56, 57, 58, 66, 89, 70, 71, 74, 75, 73,
    72, 76, 77, 78, 79, 80, 81, 82, 83, 84, 85, 67, 2,
    3, 65, 8, 9, 16, 17, 4, 5, 14, 15, 64, 6, 7,
];

/// The rank of each white word in that order.
pub const WHITE_RANKS: [u8; 104] = [
    48, 32, 90, 91, 97, 98, 102, 103, 93, 94, 51, 52, 33,
    21, 99, 100, 95, 96, 60, 29, 22, 43, 17, 18, 61, 66,
    36, 53, 44, 13, 14, 30, 31, 23, 24, 25, 26, 27, 28,
    37, 38, 39, 40, 41, 42, 15, 16, 19, 20, 62, 63, 64,
    65, 34, 35, 67, 68, 69, 70, 54, 55, 45, 46, 47, 101,
    92, 71, 89, 49, 50, 73, 74, 78, 77, 75, 76, 79, 80,
    81, 82, 83, 84, 85, 86, 87, 88, 56, 57, 58, 72, 59,
    0, 7, 8, 1, 2, 3, 4, 5, 6, 9, 10, 11, 12,
];

/// The black words: how many bits, and the bits. First those of the runs from 0
/// to 63, then those of the multiples of 64 up to 2560.
pub const BLACK_WORDS: [(u8, u16); 104] = [
    (10, 0b0000110111),
    (3, 0b010),
    (2, 0b11),
    (2, 0b10),
    (3, 0b011),
    (4, 0b0011),
    (4, 0b0010),
    (5, 0b00011),
    (6, 0b000101),
    (6, 0b000100),
    (7, 0b0000100),
    (7, 0b0000101),
    (7, 0b0000111),
    (8, 0b00000100),
    (8, 0b00000111),
    (9, 0b000011000),
    (10, 0b0000010111),
    (10, 0b0000011000),
    (10, 0b0000001000),
    (11, 0b00001100111),
    (11, 0b00001101000),
    (11, 0b00001101100),
    (11, 0b00000110111),
    (11, 0b00000101000),
    (11, 0b00000010111),
    (11, 0b00000011000),
    (12, 0b000011001010),
    (12, 0b000011001011),
    (12, 0b000011001100),
    (12, 0b000011001101),
    (12, 0b000001101000),
    (12, 0b000001101001),
    (12, 0b000001101010),
    (12, 0b000001101011),
    (12, 0b000011010010),
    (12, 0b000011010011),
    (12, 0b000011010100),
    (12, 0b000011010101),
    (12, 0b000011010110),
    (12, 0b000011010111),
    (12, 0b000001101100),
    (12, 0b000001101101),
    (12, 0b000011011010),
    (12, 0b000011011011),
    (12, 0b000001010100),
    (12, 0b000001010101),
    (12, 0b000001010110),
    (12, 0b000001010111),
    (12, 0b000001100100),
    (12, 0b000001100101),
    (12, 0b000001010010),
    (12, 0b000001010011),
    (12, 0b000000100100),
    (12, 0b000000110111),
    (12, 0b000000111000),
    (12, 0b000000100111),
    (12, 0b000000101000),
    (12, 0b000001011000),
    (12, 0b000001011001),
    (12, 0b000000101011),
    (12, 0b000000101100),
    (12, 0b000001011010),
    (12, 0b000001100110),
    (12, 0b000001100111),
    (10, 0b0000001111),
    (12, 0b000011001000),
    (12, 0b000011001001),
    (12, 0b000001011011),
    (12, 0b000000110011),
    (12, 0b000000110100),
    (12, 0b000000110101),
    (13, 0b0000001101100),
    (13, 0b0000001101101),
    (13, 0b0000001001010),
    (13, 0b0000001001011),
    (13, 0b0000001001100),
    (13, 0b0000001001101),
    (13, 0b0000001110010),
    (13, 0b0000001110011),
    (13, 0b0000001110100),
    (13, 0b0000001110101),
    (13, 0b0000001110110),
    (13, 0b0000001110111),
    (13, 0b0000001010010),
    (13, 0b0000001010011),
    (13, 0b0000001010100),
    (13, 0b0000001010101),
    (13, 0b0000001011010),
    (13, 0b0000001011011),
    (13, 0b0000001100100),
    (13, 0b0000001100101),
    (11, 0b00000001000),
    (11, 0b00000001100),
    (11, 0b00000001101),
    (12, 0b000000010010),
    (12, 0b000000010011),
    (12, 0b000000010100),
    (12, 0b000000010101),
    (12, 0b000000010110),
    (12, 0b000000010111),
    (12, 0b000000011100),
    (12, 0b000000011101),
    (12, 0b000000011110),
    (12, 0b000000011111),
];

/// Where the words stand in the black table.
pub const BLACK_PLACES: [u8; 104] = [
    17, 2, 1, 0, 3, 5, 4, 6, 8, 7, 9, 10, 11,
    12, 13, 14, 15, 16, 18, 24, 25, 26, 23, 22, 20, 21,
    72, 73, 74, 75, 64, 65, 66, 67, 76, 77, 78, 79, 80,
    81, 68, 69, 82, 83, 52, 53, 54, 55, 60, 61, 50, 51,
    40, 48, 49, 41, 42, 56, 57, 43, 44, 58, 62, 63, 19,
    70, 71, 59, 45, 46, 47, 96, 97, 84, 85, 86, 87, 98,
    99, 100, 101, 102, 103, 88, 89, 90, 91, 92, 93, 94, 95,
    27, 28, 29, 30, 31, 32, 33, 34, 35, 36, 37, 38, 39,
];

/// The black words in the order of their bits.
pub const BLACK_ORDER: [u8; 104] = [
    91, 94, 95, 96, 97, 98, 99, 92, 93, 100, 101, 102, 103,
    18, 52, 73, 74, 75, 76, 55, 56, 83, 84, 85, 86, 59,
    60, 87, 88, 24, 25, 89, 90, 68, 69, 70, 71, 72, 53,
    54, 77, 78, 79, 80, 81, 82, 64, 13, 23, 50, 51, 44,
    45, 46, 47, 57, 58, 61, 67, 16, 17, 48, 49, 62, 63,
    30, 31, 32, 33, 40, 41, 22, 14, 10, 11, 15, 65, 66,
    26, 27, 28, 29, 19, 20, 34, 35, 36, 37, 38, 39, 21,
    42, 43, 0, 12, 9, 8, 7, 6, 5, 1, 4, 3, 2,
];

/// The rank of each black word in that order.
pub const BLACK_RANKS: [u8; 104] = [
    93, 100, 103, 102, 101, 99, 98, 97, 96, 95, 73, 74, 94,
    47, 72, 75, 59, 60, 13, 82, 83, 90, 71, 48, 29, 30,
    78, 79, 80, 81, 65, 66, 67, 68, 84, 85, 86, 87, 88,
    89, 69, 70, 91, 92, 51, 52, 53, 54, 61, 62, 49, 50,
    14, 38, 39, 19, 20, 55, 56, 25, 26, 57, 63, 64, 46,
    76, 77, 58, 33, 34, 35, 36, 37, 15, 16, 17, 18, 40,
    41, 42, 43, 44, 45, 21, 22, 23, 24, 27, 28, 31, 32,
    0, 7, 8, 1, 2, 3, 4, 5, 6, 9, 10, 11, 12,
];

// ------------------------------------------------------------------ the words

/// The words of a colour.
#[verifier::opaque]
pub open spec fn words_of(black: bool) -> Seq<(u8, u16)> {
    if black {
        BLACK_WORDS@
    } else {
        WHITE_WORDS@
    }
}

/// The run that the word at place `i` stands for.
pub open spec fn run_of(i: int) -> nat {
    (if i < 64 {
        i
    } else {
        64 * (i - 63)
    }) as nat
}

/// The bits of the word at place `i`.
pub open spec fn word_bits(black: bool, i: int) -> Seq<bool> {
    let w = words_of(black)[i];
    binary(w.1 as nat, w.0 as nat)
}

#[verifier::opaque]
spec fn entries(black: bool) -> Seq<(u8, u16, u16)> {
    if black {
        BLACK_CODES@
    } else {
        WHITE_CODES@
    }
}

#[verifier::opaque]
spec fn places(black: bool) -> Seq<u8> {
    if black {
        BLACK_PLACES@
    } else {
        WHITE_PLACES@
    }
}

#[verifier::opaque]
spec fn order(black: bool) -> Seq<u8> {
    if black {
        BLACK_ORDER@
    } else {
        WHITE_ORDER@
    }
}

#[verifier::opaque]
spec fn ranks(black: bool) -> Seq<u8> {
    if black {
        BLACK_RANKS@
    } else {
        WHITE_RANKS@
    }
}

/// The place of the word for a run.
spec fn place_of(run: int) -> int {
    if run < 64 {
        run
    } else {
        run / 64 + 63
    }
}

/// The first string of 13 bits that starts with a word, and the first behind
/// it that does not.
#[verifier::opaque]
spec fn bounds(w: (u8, u16)) -> (int, int) {
    let (a, b) = (w.1 as int, w.1 + 1);
    if w.0 == 2 {
        (2048 * a, 2048 * b)
    } else if w.0 == 3 {
        (1024 * a, 1024 * b)
    } else if w.0 == 4 {
        (512 * a, 512 * b)
    } else if w.0 == 5 {
        (256 * a, 256 * b)
    } else if w.0 == 6 {
        (128 * a, 128 * b)
    } else if w.0 == 7 {
        (64 * a, 64 * b)
    } else if w.0 == 8 {
        (32 * a, 32 * b)
    } else if w.0 == 9 {
        (16 * a, 16 * b)
    } else if w.0 == 10 {
        (8 * a, 8 * b)
    } else if w.0 == 11 {
        (4 * a, 4 * b)
    } else if w.0 == 12 {
        (2 * a, 2 * b)
    } else {
        (a, b)
    }
}

/// The tables agree on entry, word and rank `i`.
spec fn is_settled(black: bool, i: int) -> bool {
    let e = entries(black)[i];
    let w = words_of(black)[i];
    let k = place_of(e.2 as int);
    &&& 0 <= k < 104 && words_of(black)[k].0 == e.0 && words_of(black)[k].1 == e.1 && run_of(k)
        == e.2
    &&& 2 <= w.0 <= 13 && (!black ==> w.0 <= 12) && bounds(w).1 <= 8192
    &&& places(black)[i] < 104 && entries(black)[places(black)[i] as int] == (
        w.0,
        w.1,
        run_of(i) as u16,
    )
    &&& ranks(black)[i] < 104 && order(black)[ranks(black)[i] as int] == i
    &&& i < 103 ==> bounds(words_of(black)[order(black)[i] as int]).1 <= bounds(
        words_of(black)[order(black)[i + 1] as int],
    ).0
}

spec fn are_settled(black: bool, n: nat) -> bool
    decreases n,
{
    n == 0 || (are_settled(black, (n - 1) as nat) && is_settled(black, n - 1))
}

proof fn lemma_white_settled()
    ensures
        are_settled(false, 104),
{
    reveal_with_fuel(are_settled, 5);
    reveal(words_of);
    reveal(entries);
    reveal(places);
    reveal(order);
    reveal(ranks);
    reveal(bounds);
    assert(are_settled(false, 4));
    assert(are_settled(false, 8));
    assert(are_settled(false, 12));
    assert(are_settled(false, 16));
    assert(are_settled(false, 20));
    assert(are_settled(false, 24));
    assert(are_settled(false, 28));
    assert(are_settled(false, 32));
    assert(are_settled(false, 36));
    assert(are_settled(false, 40));
    assert(are_settled(false, 44));
    assert(are_settled(false, 48));
    assert(are_settled(false, 52));
    assert(are_settled(false, 56));
    assert(are_settled(false, 60));
    assert(are_settled(false, 64));
    assert(are_settled(false, 68));
    assert(are_settled(false, 72));
    assert(are_settled(false, 76));
    assert(are_settled(false, 80));
    assert(are_settled(false, 84));
    assert(are_settled(false, 88));
    assert(are_settled(false, 92));
    assert(are_settled(false, 96));
    assert(are_settled(false, 100));
    assert(are_settled(false, 104));
}

proof fn lemma_black_settled()
    ensures
        are_settled(true, 104),
{
    reveal_with_fuel(are_settled, 5);
    reveal(words_of);
    reveal(entries);
    reveal(places);
    reveal(order);
    reveal(ranks);
    reveal(bounds);
    assert(are_settled(true, 4));
    assert(are_settled(true, 8));
    assert(are_settled(true, 12));
    assert(are_settled(true, 16));
    assert(are_settled(true, 20));
    assert(are_settled(true, 24));
    assert(are_settled(true, 28));
    assert(are_settled(true, 32));
    assert(are_settled(true, 36));
    assert(are_settled(true, 40));
    assert(are_settled(true, 44));
    assert(are_settled(true, 48));
    assert(are_settled(true, 52));
    assert(are_settled(true, 56));
    assert(are_settled(true, 60));
    assert(are_settled(true, 64));
    assert(are_settled(true, 68));
    assert(are_settled(true, 72));
    assert(are_settled(true, 76));
    assert(are_settled(true, 80));
    assert(are_settled(true, 84));
    assert(are_settled(true, 88));
    assert(are_settled(true, 92));
    assert(are_settled(true, 96));
    assert(are_settled(true, 100));
    assert(are_settled(true, 104));
}

proof fn lemma_all_settled(black: bool, n: nat, i: int)
    requires
        are_settled(black, n),
        0 <= i < n,
    ensures
        is_settled(black, i),
    decreases n,
{
    if i < n - 1 {
        lemma_all_settled(black, (n - 1) as nat, i);
    }
}

proof fn lemma_settled(black: bool, i: int)
    requires
        0 <= i < 104,
    ensures
        is_settled(black, i),
{
    lemma_white_settled();
    lemma_black_settled();
    lemma_all_settled(black, 104, i);
}

proof fn lemma_order(black: bool, r: int, s: int)
    requires
        0 <= r < s < 104,
    ensures
        bounds(words_of(black)[order(black)[r] as int]).1 <= bounds(
            words_of(black)[order(black)[s] as int],
        ).0,
    decreases s - r,
{
    lemma_settled(black, s - 1);
    if r < s - 1 {
        lemma_order(black, r, s - 1);
        lemma_bounds_differ(words_of(black)[order(black)[s - 1] as int]);
    }
}

proof fn lemma_bounds_differ(w: (u8, u16))
    ensures
        bounds(w).0 < bounds(w).1,
{
    reveal(bounds);
}

/// Two words that one string starts with are the same.
proof fn lemma_words_differ(black: bool, i: int, j: int)
    requires
        0 <= i < 104,
        0 <= j < 104,
        bounds(words_of(black)[i]).0 < bounds(words_of(black)[j]).1,
        bounds(words_of(black)[j]).0 < bounds(words_of(black)[i]).1,
    ensures
        i == j,
{
    lemma_settled(black, i);
    lemma_settled(black, j);
    let r = ranks(black)[i] as int;
    let s = ranks(black)[j] as int;
    if r < s {
        lemma_order(black, r, s);
    } else if s < r {
        lemma_order(black, s, r);
    }
}

proof fn lemma_bounds(w: (u8, u16))
    requires
        1 <= w.0 <= 13,
    ensures
        w.0 >= 2 ==> bounds(w) == (w.1 * pow2((13 - w.0) as nat), (w.1 + 1) * pow2(
            (13 - w.0) as nat,
        )),
{
    lemma2_to64();
    reveal(bounds);
    let k = pow2((13 - w.0) as nat) as int;
    let a = w.1 as int;
    assert(k == 1 || k == 2 || k == 4 || k == 8 || k == 16 || k == 32 || k == 64 || k == 128 || k
        == 256 || k == 512 || k == 1024 || k == 2048 || k == 4096);
    assert(k == 1 ==> a * k == a && (a + 1) * k == a + 1) by (nonlinear_arith);
    assert(k == 2 ==> a * k == 2 * a && (a + 1) * k == 2 * (a + 1)) by (nonlinear_arith);
    assert(k == 4 ==> a * k == 4 * a && (a + 1) * k == 4 * (a + 1)) by (nonlinear_arith);
    assert(k == 8 ==> a * k == 8 * a && (a + 1) * k == 8 * (a + 1)) by (nonlinear_arith);
    assert(k == 16 ==> a * k == 16 * a && (a + 1) * k == 16 * (a + 1)) by (nonlinear_arith);
    assert(k == 32 ==> a * k == 32 * a && (a + 1) * k == 32 * (a + 1)) by (nonlinear_arith);
    assert(k == 64 ==> a * k == 64 * a && (a + 1) * k == 64 * (a + 1)) by (nonlinear_arith);
    assert(k == 128 ==> a * k == 128 * a && (a + 1) * k == 128 * (a + 1)) by (nonlinear_arith);
    assert(k == 256 ==> a * k == 256 * a && (a + 1) * k == 256 * (a + 1)) by (nonlinear_arith);
    assert(k == 512 ==> a * k == 512 * a && (a + 1) * k == 512 * (a + 1)) by (nonlinear_arith);
    assert(k == 1024 ==> a * k == 1024 * a && (a + 1) * k == 1024 * (a + 1)) by (nonlinear_arith);
    assert(k == 2048 ==> a * k == 2048 * a && (a + 1) * k == 2048 * (a + 1)) by (nonlinear_arith);
}

proof fn lemma_lookup(table: Seq<(u8, u16, u16)>, k: int, len: int, code: int)
    requires
        0 <= k,
    ensures
        match lookup(table, k, len, code) {
            Some(run) => exists|j: int|
                k <= j < table.len() && (#[trigger] table[j]).0 == len && table[j].1 == code
                    && table[j].2 == run,
            None => forall|j: int|
                k <= j < table.len() ==> !((#[trigger] table[j]).0 == len && table[j].1 == code),
        },
    decreases table.len() - k,
{
    if k < table.len() && !(table[k].0 == len && table[k].1 == code) {
        lemma_lookup(table, k + 1, len, code);
    }
}

proof fn lemma_entries(black: bool)
    ensures
        entries(black).len() == 104,
        forall|len: int, code: int|
            #[trigger] run_word(black, len, code) == lookup(entries(black), 0, len, code),
{
    reveal(entries);
}

/// What stands for a word in the table is that word.
proof fn lemma_entry(black: bool, len: int, code: int)
    ensures
        run_word(black, len, code) matches Some(run) ==> ({
            let j = place_of(run as int);
            0 <= j < 104 && words_of(black)[j].0 == len && words_of(black)[j].1 == code && run_of(
                j,
            ) == run
        }),
{
    lemma_lookup(entries(black), 0, len, code);
    lemma_entries(black);
    if run_word(black, len, code) is Some {
        let run = run_word(black, len, code)->0;
        let k = choose|k: int|
            0 <= k < entries(black).len() && (#[trigger] entries(black)[k]).0 == len && entries(
                black,
            )[k].1 == code && entries(black)[k].2 == run;
        lemma_settled(black, k);
    }
}

proof fn lemma_word_found(black: bool, i: int)
    requires
        0 <= i < 104,
    ensures
        run_word(black, words_of(black)[i].0 as int, words_of(black)[i].1 as int) == Some(
            run_of(i),
        ),
{
    let w = words_of(black)[i];
    lemma_settled(black, i);
    lemma_lookup(entries(black), 0, w.0 as int, w.1 as int);
    lemma_entries(black);
    assert(entries(black)[places(black)[i] as int].0 == w.0);
    lemma_entry(black, w.0 as int, w.1 as int);
    let run = run_word(black, w.0 as int, w.1 as int)->0;
    lemma_bounds_differ(w);
    assert(words_of(black)[place_of(run as int)] == w);
    lemma_words_differ(black, place_of(run as int), i);
}

proof fn lemma_no_word_in(black: bool, i: int, l: nat)
    requires
        0 <= i < 104,
        1 <= l < words_of(black)[i].0,
    ensures
        run_word(
            black,
            l as int,
            (words_of(black)[i].1 as nat / pow2((words_of(black)[i].0 - l) as nat)) as int,
        ) is None,
{
    let w = words_of(black)[i];
    lemma_settled(black, i);
    let d = (w.0 - l) as nat;
    let code = w.1 as nat;
    let part = code / pow2(d);
    lemma_entry(black, l as int, part as int);
    if run_word(black, l as int, part as int) is Some {
        let j = place_of(run_word(black, l as int, part as int)->0 as int);
        lemma_settled(black, j);
        let v = words_of(black)[j];
        lemma_bounds(w);
        lemma_bounds(v);
        lemma_pow2_pos(d);
        lemma_pow2_pos((13 - w.0) as nat);
        lemma_pow2_adds(d, (13 - w.0) as nat);
        vstd::arithmetic::div_mod::lemma_fundamental_div_mod(code as int, pow2(d) as int);
        let e = pow2((13 - w.0) as nat);
        let f = pow2(d);
        let rest = code % f;
        assert((13 - v.0) as nat == d + (13 - w.0) as nat);
        assert(part * (f * e) < (code + 1) * e && code * e < (part + 1) * (f * e))
            by (nonlinear_arith)
            requires
                code == f * part + rest,
                0 <= rest < f,
                0 < e,
        ;
        lemma_words_differ(black, i, j);
    }
}

proof fn lemma_word_read(black: bool, i: int, data: Seq<u8>, p: int, l: nat)
    requires
        0 <= i < 104,
        1 <= l <= words_of(black)[i].0,
        stand_in(data, p, word_bits(black, i)),
    ensures
        word_from(data, p, black, l) == Some((run_of(i), p + word_bits(black, i).len())),
    decreases words_of(black)[i].0 - l,
{
    let w = words_of(black)[i];
    lemma_settled(black, i);
    let code = w.1 as nat;
    lemma_code_bound(w);
    lemma_prefix_read(data, p, code, w.0 as nat, l);
    if l < w.0 {
        lemma_no_word_in(black, i, l);
        lemma_word_read(black, i, data, p, l + 1);
    } else {
        lemma2_to64();
        assert(code / 1 == code);
        lemma_word_found(black, i);
    }
}

proof fn lemma_code_bound(w: (u8, u16))
    requires
        2 <= w.0 <= 13,
        bounds(w).1 <= 8192,
    ensures
        w.1 < pow2(w.0 as nat),
{
    lemma_bounds(w);
    lemma2_to64();
    lemma_pow2_adds(w.0 as nat, (13 - w.0) as nat);
    lemma_pow2_pos((13 - w.0) as nat);
    let a = w.1 as int;
    let k = pow2((13 - w.0) as nat) as int;
    let m = pow2(w.0 as nat) as int;
    assert(a < m) by (nonlinear_arith)
        requires
            (a + 1) * k <= m * k,
            k > 0,
    ;
}

/// The first `l` digits of a number that stands in the stream.
pub proof fn lemma_prefix_read(data: Seq<u8>, p: int, v: nat, n: nat, l: nat)
    requires
        stand_in(data, p, binary(v, n)),
        v < pow2(n),
        l <= n,
    ensures
        p + l <= 8 * data.len(),
        bits_at(data, p, l) == v / pow2((n - l) as nat),
{
    let d = (n - l) as nat;
    lemma_binary_start(v, n, l);
    let b = binary(v, n);
    let part = binary(v / pow2(d), l);
    assert forall|i: int| 0 <= i < part.len() implies #[trigger] part[i] == is_one(data, p + i) by {
        assert(b.take(l as int)[i] == b[i]);
    }
    lemma_pow2_pos(d);
    lemma_pow2_adds(d, l);
    vstd::arithmetic::div_mod::lemma_div_by_multiple_is_strongly_ordered(
        v as int,
        pow2(n) as int,
        pow2(l) as int,
        pow2(d) as int,
    );
    vstd::arithmetic::div_mod::lemma_div_by_multiple(pow2(l) as int, pow2(d) as int);
    lemma_number_read(data, p, v / pow2(d), l);
}

// ------------------------------------------------------------------- the runs

/// A run as it is written: any number of words for multiples of 64, and one for
/// what is left.
pub open spec fn is_run(words: Seq<int>, n: int) -> bool
    decreases words.len(),
{
    if words.len() == 0 {
        false
    } else if words.len() == 1 {
        0 <= words[0] < 64 && n == run_of(words[0])
    } else {
        64 <= words[0] < 104 && is_run(words.drop_first(), n - run_of(words[0]))
    }
}

pub open spec fn run_bits(black: bool, words: Seq<int>) -> Seq<bool>
    decreases words.len(),
{
    if words.len() == 0 {
        Seq::empty()
    } else {
        word_bits(black, words[0]) + run_bits(black, words.drop_first())
    }
}

proof fn lemma_run_positive(words: Seq<int>, n: int)
    requires
        is_run(words, n),
    ensures
        0 <= n,
    decreases words.len(),
{
    if words.len() > 1 {
        lemma_run_positive(words.drop_first(), n - run_of(words[0]));
    }
}

pub proof fn lemma_run_read(data: Seq<u8>, p: int, black: bool, words: Seq<int>, n: int, total: nat)
    requires
        is_run(words, n),
        total + n <= usize::MAX,
        stand_in(data, p, run_bits(black, words)),
    ensures
        run_at(data, p, black, total) == Some(
            ((total + n) as nat, p + run_bits(black, words).len()),
        ),
    decreases words.len(),
{
    let i = words[0];
    let rest = words.drop_first();
    lemma_stand_apart(data, p, word_bits(black, i), run_bits(black, rest));
    lemma_settled(black, i);
    lemma_word_read(black, i, data, p, 1);
    if words.len() > 1 {
        lemma_run_positive(rest, n - run_of(i));
        lemma_run_read(
            data,
            p + word_bits(black, i).len(),
            black,
            rest,
            n - run_of(i),
            total + run_of(i),
        );
    } else {
        assert(run_bits(black, rest) =~= Seq::empty());
    }
}

} // verus!
