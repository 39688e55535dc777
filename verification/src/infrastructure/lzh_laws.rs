//! What holds of streams in the page coding: whatever is written in it, in any
//! code tables, is read back.
use crate::error::Error;
use crate::infrastructure::deflate::repeated;
use crate::infrastructure::lzh::{
    code_length, code_lengths, decoded, distance, expand, first_code, length_table, main_lengths,
    main_table, next_symbol, symbol, symbol_from, symbols_below, symbols_of, unary, with_zeros,
    zero_run, Table,
};
use crate::infrastructure::spelling::{
    binary, is_one, lemma_binary_start, lemma_is_one, lemma_number_read, lemma_stand_apart,
    stand_in,
};
use vstd::arithmetic::power2::{lemma2_to64, lemma_pow2_adds, lemma_pow2_pos, pow2};
use vstd::prelude::*;

verus! {

// ------------------------------------------------------------------ the codes

/// A code: one symbol that takes no bits, or so many bits for each symbol
/// (none where it does not occur).
pub enum Book {
    Only(nat),
    Lengths(Seq<nat>),
}

/// How much of all words starts with a word of `len` bits, in parts of 65536.
pub open spec fn share(len: nat) -> nat {
    if len == 0 || len > 16 {
        0
    } else {
        pow2((16 - len) as nat)
    }
}

/// The shares of the first `n` symbols together.
pub open spec fn shares(lengths: Seq<nat>, n: int) -> nat
    decreases n,
{
    if n <= 0 {
        0
    } else {
        shares(lengths, n - 1) + share(lengths[n - 1])
    }
}

/// Shorter words come first, and those of the lower symbols among equals.
pub open spec fn comes_before(lengths: Seq<nat>, t: int, s: int) -> bool {
    lengths[t] < lengths[s] || (lengths[t] == lengths[s] && t < s)
}

/// The shares of those of the first `n` symbols that come before `s`.
pub open spec fn shares_before(lengths: Seq<nat>, s: int, n: int) -> nat
    decreases n,
{
    if n <= 0 {
        0
    } else {
        shares_before(lengths, s, n - 1) + (if comes_before(lengths, n - 1, s) {
            share(lengths[n - 1])
        } else {
            0
        })
    }
}

/// The word of a symbol: its place behind all that come before it.
pub open spec fn word(lengths: Seq<nat>, s: nat) -> Seq<bool> {
    binary(
        shares_before(lengths, s as int, lengths.len() as int) / share(lengths[s as int]),
        lengths[s as int],
    )
}

/// No word is longer than 16 bits, and there is room for all.
pub open spec fn is_sound_book(b: Book) -> bool {
    match b {
        Book::Only(s) => true,
        Book::Lengths(l) => (forall|i: int| 0 <= i < l.len() ==> #[trigger] l[i] <= 16) && shares(
            l,
            l.len() as int,
        ) <= 65536,
    }
}

/// The symbol has a word.
pub open spec fn has_word(b: Book, s: nat) -> bool {
    match b {
        Book::Only(t) => s == t,
        Book::Lengths(l) => s < l.len() && l[s as int] > 0,
    }
}

/// The word of a symbol that has one.
pub open spec fn word_in(b: Book, s: nat) -> Seq<bool> {
    match b {
        Book::Only(t) => Seq::empty(),
        Book::Lengths(l) => word(l, s),
    }
}

/// The code as the decoder keeps it.
pub open spec fn table_of(b: Book) -> Table {
    match b {
        Book::Only(s) => Table::Single(s),
        Book::Lengths(l) => Table::Canonical(l),
    }
}

/// The shares of those of the first `n` symbols that have under `l` bits.
spec fn shares_under(lengths: Seq<nat>, l: nat, n: int) -> nat
    decreases n,
{
    if n <= 0 {
        0
    } else {
        shares_under(lengths, l, n - 1) + (if lengths[n - 1] < l {
            share(lengths[n - 1])
        } else {
            0
        })
    }
}

proof fn lemma_shares_next(lengths: Seq<nat>, l: nat, n: int)
    requires
        1 <= l <= 16,
        n <= lengths.len(),
    ensures
        shares_under(lengths, l + 1, n) == shares_under(lengths, l, n) + symbols_below(
            lengths,
            l,
            n,
        ).len() * share(l),
    decreases n,
{
    if n > 0 {
        lemma_shares_next(lengths, l, n - 1);
        let k = symbols_below(lengths, l, n - 1).len();
        assert((k + 1) * share(l) == k * share(l) + share(l)) by (nonlinear_arith);
    } else {
        assert(0 * share(l) == 0);
    }
}

proof fn lemma_shares_zero(lengths: Seq<nat>, n: int)
    requires
        n <= lengths.len(),
    ensures
        shares_under(lengths, 1, n) == 0,
    decreases n,
{
    if n > 0 {
        lemma_shares_zero(lengths, n - 1);
    }
}

/// The first code of a length is where the shares of the shorter ones end.
proof fn lemma_first_code(lengths: Seq<nat>, l: nat)
    requires
        1 <= l <= 16,
    ensures
        first_code(lengths, l) * share(l) == shares_under(lengths, l, lengths.len() as int),
    decreases l,
{
    let n = lengths.len() as int;
    if l == 1 {
        lemma_shares_zero(lengths, n);
        assert(first_code(lengths, 1) == 0);
        assert(0 * share(l) == 0);
    } else {
        let m = (l - 1) as nat;
        lemma_first_code(lengths, m);
        lemma_shares_next(lengths, m, n);
        lemma_pow2_adds((16 - l) as nat, 1);
        lemma2_to64();
        assert(share(m) == 2 * share(l)) by {
            assert((16 - l) as nat + 1 == (16 - m) as nat);
        }
        let f = first_code(lengths, m);
        let c = symbols_of(lengths, m).len();
        let s = share(l);
        assert((2 * (f + c)) * s == f * (2 * s) + c * (2 * s)) by (nonlinear_arith);
    }
}

proof fn lemma_shares_split(lengths: Seq<nat>, s: int, n: int)
    requires
        0 <= s < lengths.len(),
        n <= lengths.len(),
        1 <= lengths[s] <= 16,
    ensures
        shares_before(lengths, s, n) == shares_under(lengths, lengths[s], n) + symbols_below(
            lengths,
            lengths[s],
            if n < s {
                n
            } else {
                s
            },
        ).len() * share(lengths[s]),
    decreases n,
{
    let l = lengths[s];
    if n > 0 {
        lemma_shares_split(lengths, s, n - 1);
        if n <= s {
            let k = symbols_below(lengths, l, n - 1).len();
            assert((k + 1) * share(l) == k * share(l) + share(l)) by (nonlinear_arith);
        }
    } else {
        assert(0 * share(l) == 0);
    }
}

/// A symbol stands among those of its length behind the lower ones.
proof fn lemma_rank(lengths: Seq<nat>, l: nat, s: int, n: int)
    requires
        0 <= s < n <= lengths.len(),
        lengths[s] == l,
    ensures
        symbols_below(lengths, l, s).len() < symbols_below(lengths, l, n).len(),
        symbols_below(lengths, l, n)[symbols_below(lengths, l, s).len() as int] == s,
    decreases n,
{
    if n > s + 1 {
        lemma_rank(lengths, l, s, n - 1);
    }
}

proof fn lemma_room(lengths: Seq<nat>, s: int, n: int)
    requires
        0 <= s < lengths.len(),
        0 <= n <= lengths.len(),
    ensures
        shares_before(lengths, s, n) + (if s < n {
            share(lengths[s])
        } else {
            0
        }) <= shares(lengths, n),
    decreases n,
{
    if n > 0 {
        lemma_room(lengths, s, n - 1);
    }
}

proof fn lemma_shares_grow(lengths: Seq<nat>, a: nat, b: nat, n: int)
    requires
        a <= b,
    ensures
        shares_under(lengths, a, n) <= shares_under(lengths, b, n),
    decreases n,
{
    if n > 0 {
        lemma_shares_grow(lengths, a, b, n - 1);
    }
}

/// No start of a word is a word.
proof fn lemma_no_shorter(lengths: Seq<nat>, s: int, l: nat)
    requires
        0 <= s < lengths.len(),
        1 <= l < lengths[s] <= 16,
    ensures
        ({
            let code = shares_before(lengths, s, lengths.len() as int) / share(lengths[s]);
            code / pow2((lengths[s] - l) as nat) >= first_code(lengths, l) + symbols_of(
                lengths,
                l,
            ).len()
        }),
{
    let n = lengths.len() as int;
    let m = lengths[s];
    let d = (m - l) as nat;
    let f = first_code(lengths, l);
    let c = symbols_of(lengths, l).len();
    let before = shares_before(lengths, s, n);
    lemma_first_code(lengths, l);
    lemma_shares_next(lengths, l, n);
    lemma_shares_grow(lengths, l + 1, m, n);
    lemma_shares_split(lengths, s, n);
    lemma_pow2_adds((16 - m) as nat, d);
    lemma_pow2_pos(d);
    lemma_pow2_pos((16 - m) as nat);
    assert((16 - m) as nat + d == (16 - l) as nat);
    let w = share(m);
    let k = pow2(d);
    assert(share(l) == w * k);
    let rank = symbols_below(lengths, m, s).len();
    assert(rank * w >= 0);
    assert((f + c) * share(l) == f * share(l) + c * share(l)) by (nonlinear_arith);
    assert(before >= (f + c) * (w * k));
    vstd::arithmetic::div_mod::lemma_div_denominator(before as int, w as int, k as int);
    assert((before / w) / k == before / (w * k));
    vstd::arithmetic::div_mod::lemma_div_is_ordered(
        ((f + c) * (w * k)) as int,
        before as int,
        (w * k) as int,
    );
    assert(w * k > 0);
    vstd::arithmetic::div_mod::lemma_div_by_multiple((f + c) as int, (w * k) as int);
}

/// A word that stands in the stream is read as its symbol.
proof fn lemma_word_read(lengths: Seq<nat>, s: nat, data: Seq<u8>, p: int, l: nat)
    requires
        is_sound_book(Book::Lengths(lengths)),
        s < lengths.len(),
        1 <= l <= lengths[s as int],
        stand_in(data, p, word(lengths, s)),
    ensures
        symbol_from(lengths, data, p, l) == Ok::<(nat, int), Error>(
            (s, p + lengths[s as int]),
        ),
    decreases lengths[s as int] - l,
{
    let n = lengths.len() as int;
    let m = lengths[s as int];
    assert(m <= 16);
    let w = share(m);
    let code = shares_before(lengths, s as int, n) / w;
    lemma_pow2_pos((16 - m) as nat);
    let d = (m - l) as nat;
    lemma_binary_start(code, m, l);
    let b = binary(code, m);
    let part = binary(code / pow2(d), l);
    assert forall|i: int| 0 <= i < part.len() implies #[trigger] part[i] == is_one(data, p + i) by {
        assert(b.take(l as int)[i] == b[i]);
    }
    // The code has room.
    lemma_room(lengths, s as int, n);
    lemma_first_code(lengths, m);
    lemma_shares_split(lengths, s as int, n);
    lemma_rank(lengths, m, s as int, n);
    let rank = symbols_below(lengths, m, s as int).len();
    let f = first_code(lengths, m);
    assert((f + rank) * w == f * w + rank * w) by (nonlinear_arith);
    vstd::arithmetic::div_mod::lemma_div_by_multiple((f + rank) as int, w as int);
    assert(code == f + rank);
    lemma_pow2_adds((16 - m) as nat, m);
    lemma2_to64();
    assert(w * pow2(m) == 65536);
    assert(code < pow2(m)) by (nonlinear_arith)
        requires
            code * w + w <= w * pow2(m),
            w > 0,
    ;
    lemma_pow2_pos(d);
    lemma_pow2_adds(d, l);
    assert(code / pow2(d) < pow2(l)) by {
        vstd::arithmetic::div_mod::lemma_div_by_multiple_is_strongly_ordered(
            code as int,
            pow2(m) as int,
            pow2(l) as int,
            pow2(d) as int,
        );
        vstd::arithmetic::div_mod::lemma_div_by_multiple(pow2(l) as int, pow2(d) as int);
    }
    lemma_number_read(data, p, code / pow2(d), l);
    if l < m {
        lemma_no_shorter(lengths, s as int, l);
        lemma_word_read(lengths, s, data, p, l + 1);
    } else {
        assert(pow2(0) == 1);
        assert(code / 1 == code);
    }
}

proof fn lemma_symbol_read(b: Book, s: nat, data: Seq<u8>, p: int)
    requires
        is_sound_book(b),
        has_word(b, s),
        stand_in(data, p, word_in(b, s)),
    ensures
        symbol(table_of(b), data, p) == Ok::<(nat, int), Error>((s, p + word_in(b, s).len())),
{
    match b {
        Book::Only(t) => {},
        Book::Lengths(l) => lemma_word_read(l, s, data, p, 1),
    }
}

// ----------------------------------------------------------------- the tables

/// `n` ones.
pub open spec fn ones(n: nat) -> Seq<bool> {
    Seq::new(n, |i: int| true)
}

/// A number of bits as it is written in a short table: three binary digits;
/// from seven on, a one for each further bit and a zero.
pub open spec fn length_bits(l: nat) -> Seq<bool> {
    if l < 7 {
        binary(l, 3)
    } else {
        binary(7, 3) + ones((l - 7) as nat) + seq![false]
    }
}

/// The lengths from `i` up to but not including `n`, one after another.
pub open spec fn lengths_bits(l: Seq<nat>, i: int, n: int) -> Seq<bool>
    decreases n - i,
{
    if i >= n {
        Seq::empty()
    } else {
        length_bits(l[i]) + lengths_bits(l, i + 1, n)
    }
}

/// Every symbol from `n` on does without a word.
pub open spec fn unused_from(l: Seq<nat>, n: int) -> bool {
    forall|i: int| n <= i < l.len() ==> #[trigger] l[i] == 0
}

/// The table of the distances: how many of the 14 lengths follow, in four bits,
/// and the lengths; or none, and the only symbol.
pub open spec fn distance_table(b: Book, n: nat) -> Seq<bool> {
    match b {
        Book::Only(s) => binary(0, 4) + binary(s, 4),
        Book::Lengths(l) => binary(n, 4) + lengths_bits(l, 0, n as int),
    }
}

pub open spec fn is_distance_table(b: Book, n: nat) -> bool {
    match b {
        Book::Only(s) => s < 16,
        Book::Lengths(l) => l.len() == 14 && 1 <= n <= 14 && unused_from(l, n as int),
    }
}

/// The table of the code that the main lengths are in: as that of the
/// distances, in five bits and for 19 symbols, but behind the third length two
/// bits say how many symbols are left out as unused.
pub open spec fn lengths_table(b: Book, n: nat, unused: nat) -> Seq<bool> {
    match b {
        Book::Only(s) => binary(0, 5) + binary(s, 5),
        Book::Lengths(l) => if n < 3 {
            binary(n, 5) + lengths_bits(l, 0, n as int)
        } else {
            binary(n, 5) + (lengths_bits(l, 0, 3) + (binary(unused, 2) + lengths_bits(
                l,
                3 + unused as int,
                n as int,
            )))
        },
    }
}

pub open spec fn is_lengths_table(b: Book, n: nat, unused: nat) -> bool {
    match b {
        Book::Only(s) => s < 32,
        Book::Lengths(l) => {
            &&& l.len() == 19
            &&& 1 <= n <= 19
            &&& unused_from(l, n as int)
            &&& n >= 3 ==> unused <= 3 && forall|i: int|
                3 <= i < 3 + unused ==> #[trigger] l[i] == 0
        },
    }
}

proof fn lemma_unary_read(data: Seq<u8>, p: int, c: nat, n: nat)
    requires
        c + n <= 16,
        stand_in(data, p, ones(n) + seq![false]),
    ensures
        unary(data, p, c) == Ok::<(nat, int), Error>((c + n, p + n + 1)),
    decreases n,
{
    let b = ones(n) + seq![false];
    assert(b[0] == is_one(data, p + 0));
    lemma_is_one(data, p);
    if n > 0 {
        let less = ones((n - 1) as nat) + seq![false];
        assert forall|i: int| 0 <= i < less.len() implies #[trigger] less[i] == is_one(
            data,
            p + 1 + i,
        ) by {
            assert(b[i + 1] == less[i]);
        }
        lemma_unary_read(data, p + 1, c + 1, (n - 1) as nat);
    }
}

proof fn lemma_length_read(data: Seq<u8>, p: int, l: nat)
    requires
        l <= 16,
        stand_in(data, p, length_bits(l)),
    ensures
        code_length(data, p) == Ok::<(nat, int), Error>((l, p + length_bits(l).len())),
{
    lemma2_to64();
    if l < 7 {
        lemma_number_read(data, p, l, 3);
    } else {
        assert(length_bits(l) =~= binary(7, 3) + (ones((l - 7) as nat) + seq![false]));
        lemma_stand_apart(data, p, binary(7, 3), ones((l - 7) as nat) + seq![false]);
        lemma_number_read(data, p, 7, 3);
        lemma_unary_read(data, p + 3, 7, (l - 7) as nat);
    }
}

/// Lengths that are written one after another are read one after another.
proof fn lemma_lengths_read(
    data: Seq<u8>,
    p: int,
    l: Seq<nat>,
    i: int,
    k: int,
    n: int,
    n_max: int,
    special: int,
)
    requires
        0 <= i <= k <= n <= l.len(),
        !(i < special <= k),
        forall|j: int| 0 <= j < l.len() ==> #[trigger] l[j] <= 16,
        stand_in(data, p, lengths_bits(l, i, k)),
    ensures
        code_lengths(data, p, n, n_max, special, l.take(i)) == code_lengths(
            data,
            p + lengths_bits(l, i, k).len(),
            n,
            n_max,
            special,
            l.take(k),
        ),
    decreases k - i,
{
    if i < k {
        lemma_stand_apart(data, p, length_bits(l[i]), lengths_bits(l, i + 1, k));
        lemma_length_read(data, p, l[i]);
        assert(l.take(i).push(l[i]) =~= l.take(i + 1));
        lemma_lengths_read(
            data,
            p + length_bits(l[i]).len(),
            l,
            i + 1,
            k,
            n,
            n_max,
            special,
        );
    }
}

proof fn lemma_no_long(l: Seq<nat>)
    requires
        forall|j: int| 0 <= j < l.len() ==> #[trigger] l[j] <= 16,
    ensures
        crate::infrastructure::lzh::canonical(l) == Ok::<Table, Error>(Table::Canonical(l)),
{
}

proof fn lemma_distance_table_read(data: Seq<u8>, p: int, b: Book, n: nat)
    requires
        is_sound_book(b),
        is_distance_table(b, n),
        stand_in(data, p, distance_table(b, n)),
    ensures
        length_table(data, p, 14, 4, usize::MAX as int) == Ok::<(Table, int), Error>(
            (table_of(b), p + distance_table(b, n).len()),
        ),
{
    lemma2_to64();
    match b {
        Book::Only(s) => {
            lemma_stand_apart(data, p, binary(0, 4), binary(s, 4));
            lemma_number_read(data, p, 0, 4);
            lemma_number_read(data, p + 4, s, 4);
        },
        Book::Lengths(l) => {
            let m = n as int;
            lemma_stand_apart(data, p, binary(n, 4), lengths_bits(l, 0, m));
            lemma_number_read(data, p, n, 4);
            lemma_lengths_read(data, p + 4, l, 0, m, m, 14, usize::MAX as int);
            assert(l.take(0) =~= Seq::<nat>::empty());
            assert(with_zeros(l.take(m), 14 - m) =~= l);
            lemma_no_long(l);
        },
    }
}

proof fn lemma_lengths_table_read(data: Seq<u8>, p: int, b: Book, n: nat, unused: nat)
    requires
        is_sound_book(b),
        is_lengths_table(b, n, unused),
        stand_in(data, p, lengths_table(b, n, unused)),
    ensures
        length_table(data, p, 19, 5, 3) == Ok::<(Table, int), Error>(
            (table_of(b), p + lengths_table(b, n, unused).len()),
        ),
{
    lemma2_to64();
    match b {
        Book::Only(s) => {
            lemma_stand_apart(data, p, binary(0, 5), binary(s, 5));
            lemma_number_read(data, p, 0, 5);
            lemma_number_read(data, p + 5, s, 5);
        },
        Book::Lengths(l) => {
            let m = n as int;
            lemma_no_long(l);
            assert(l.take(0) =~= Seq::<nat>::empty());
            if n < 3 {
                lemma_stand_apart(data, p, binary(n, 5), lengths_bits(l, 0, m));
                lemma_number_read(data, p, n, 5);
                lemma_lengths_read(data, p + 5, l, 0, m, m, 19, 3);
                assert(with_zeros(l.take(m), 19 - m) =~= l);
            } else {
                let rest = lengths_bits(l, 3 + unused as int, m);
                let tail = binary(unused, 2) + rest;
                lemma_stand_apart(data, p, binary(n, 5), lengths_bits(l, 0, 3) + tail);
                lemma_number_read(data, p, n, 5);
                lemma_stand_apart(data, p + 5, lengths_bits(l, 0, 3), tail);
                lemma_lengths_split(l, 0, 2, 3);
                assert(lengths_bits(l, 2, 3) =~= length_bits(l[2])) by {
                    assert(lengths_bits(l, 3, 3) =~= Seq::empty());
                }
                let first = lengths_bits(l, 0, 2);
                lemma_stand_apart(data, p + 5, first, length_bits(l[2]));
                lemma_lengths_read(data, p + 5, l, 0, 2, m, 19, 3);
                let q = p + 5 + first.len();
                lemma_length_read(data, q, l[2]);
                let r = q + length_bits(l[2]).len();
                assert(r == p + 5 + lengths_bits(l, 0, 3).len());
                lemma_stand_apart(data, r, binary(unused, 2), rest);
                lemma_number_read(data, r, unused, 2);
                let at = 3 + unused;
                assert(with_zeros(l.take(2).push(l[2]), unused as int) =~= l.take(at as int));
                if at < m {
                    lemma_lengths_read(data, r + 2, l, at as int, m, m, 19, 3);
                    assert(with_zeros(l.take(m), 19 - m) =~= l);
                } else {
                    assert(rest =~= Seq::empty());
                    assert(with_zeros(l.take(at as int), 19 - at) =~= l);
                }
            }
        },
    }
}

proof fn lemma_lengths_split(l: Seq<nat>, i: int, k: int, n: int)
    requires
        i <= k <= n,
    ensures
        lengths_bits(l, i, n) == lengths_bits(l, i, k) + lengths_bits(l, k, n),
    decreases k - i,
{
    if i < k {
        lemma_lengths_split(l, i + 1, k, n);
        assert(lengths_bits(l, i, n) =~= lengths_bits(l, i, k) + lengths_bits(l, k, n));
    } else {
        assert(lengths_bits(l, i, n) =~= lengths_bits(l, i, k) + lengths_bits(l, k, n));
    }
}

/// One item of the main table: the length of the next symbol's word, or a run
/// of symbols that do not occur.
pub enum Item {
    Length(nat),
    Unused(nat),
}

/// What can be written: lengths from one to 16, and runs of one, of 3 to 18 and
/// of 20 to 531 symbols.
pub open spec fn is_item(it: Item) -> bool {
    match it {
        Item::Length(l) => 1 <= l <= 16,
        Item::Unused(n) => n == 1 || 3 <= n <= 18 || 20 <= n <= 531,
    }
}

/// The symbol that an item is written with: 0 for one unused symbol, 1 and 2
/// for the shorter and the longer runs, and two more than a length.
pub open spec fn item_symbol(it: Item) -> nat {
    match it {
        Item::Length(l) => l + 2,
        Item::Unused(n) => if n == 1 {
            0
        } else if n <= 18 {
            1
        } else {
            2
        },
    }
}

/// An item as it is written: its symbol's word, and of a run how much longer it
/// is than the shortest of its kind, in four or nine bits.
pub open spec fn item_bits(b: Book, it: Item) -> Seq<bool> {
    word_in(b, item_symbol(it)) + (match it {
        Item::Length(l) => Seq::empty(),
        Item::Unused(n) => if n == 1 {
            Seq::empty()
        } else if n <= 18 {
            binary((n - 3) as nat, 4)
        } else {
            binary((n - 20) as nat, 9)
        },
    })
}

pub open spec fn items_bits(b: Book, items: Seq<Item>) -> Seq<bool>
    decreases items.len(),
{
    if items.len() == 0 {
        Seq::empty()
    } else {
        item_bits(b, items[0]) + items_bits(b, items.drop_first())
    }
}

/// The lengths that the items give the symbols in order.
pub open spec fn listed(items: Seq<Item>) -> Seq<nat>
    decreases items.len(),
{
    if items.len() == 0 {
        Seq::empty()
    } else {
        (match items[0] {
            Item::Length(l) => seq![l],
            Item::Unused(n) => Seq::new(n, |i: int| 0nat),
        }) + listed(items.drop_first())
    }
}

/// The main table: how many lengths are listed, in nine bits, and the items
/// that list them; or none, and the only symbol.
pub open spec fn symbols_table(main: Book, b: Book, items: Seq<Item>) -> Seq<bool> {
    match main {
        Book::Only(s) => binary(0, 9) + binary(s, 9),
        Book::Lengths(l) => binary(listed(items).len(), 9) + items_bits(b, items),
    }
}

pub open spec fn is_symbols_table(main: Book, b: Book, items: Seq<Item>) -> bool {
    match main {
        Book::Only(s) => s < 510,
        Book::Lengths(l) => {
            &&& l.len() == 510
            &&& 1 <= listed(items).len() <= 510
            &&& l.take(listed(items).len() as int) == listed(items)
            &&& unused_from(l, listed(items).len() as int)
            &&& forall|i: int|
                0 <= i < items.len() ==> is_item(#[trigger] items[i]) && has_word(
                    b,
                    item_symbol(items[i]),
                )
        },
    }
}

proof fn lemma_items_read(
    data: Seq<u8>,
    p: int,
    b: Book,
    items: Seq<Item>,
    acc: Seq<nat>,
)
    requires
        is_sound_book(b),
        forall|i: int|
            0 <= i < items.len() ==> is_item(#[trigger] items[i]) && has_word(
                b,
                item_symbol(items[i]),
            ),
        acc.len() + listed(items).len() <= 510,
        stand_in(data, p, items_bits(b, items)),
    ensures
        main_lengths(
            data,
            p,
            (acc.len() + listed(items).len()) as int,
            table_of(b),
            acc,
        ) == Ok::<(Seq<nat>, int), Error>(
            (acc + listed(items), p + items_bits(b, items).len()),
        ),
    decreases items.len(),
{
    lemma2_to64();
    let n = (acc.len() + listed(items).len()) as int;
    if items.len() == 0 {
        assert(acc + listed(items) =~= acc);
    } else {
        let it = items[0];
        let rest = items.drop_first();
        assert(is_item(it) && has_word(b, item_symbol(it)));
        assert forall|i: int| 0 <= i < rest.len() implies is_item(#[trigger] rest[i]) && has_word(
            b,
            item_symbol(rest[i]),
        ) by {
            assert(rest[i] == items[i + 1]);
        }
        let w = word_in(b, item_symbol(it));
        let bits = item_bits(b, it);
        lemma_stand_apart(data, p, bits, items_bits(b, rest));
        let more = match it {
            Item::Length(l) => Seq::empty(),
            Item::Unused(m) => if m == 1 {
                Seq::empty()
            } else if m <= 18 {
                binary((m - 3) as nat, 4)
            } else {
                binary((m - 20) as nat, 9)
            },
        };
        lemma_stand_apart(data, p, w, more);
        lemma_symbol_read(b, item_symbol(it), data, p);
        let q = p + w.len();
        let next = match it {
            Item::Length(l) => acc.push(l),
            Item::Unused(m) => with_zeros(acc, m as int),
        };
        match it {
            Item::Length(l) => {
                assert(acc + listed(items) =~= next + listed(rest));
            },
            Item::Unused(m) => {
                assert(acc + listed(items) =~= next + listed(rest));
                if m > 1 && m <= 18 {
                    lemma_number_read(data, q, (m - 3) as nat, 4);
                } else if m > 18 {
                    lemma_number_read(data, q, (m - 20) as nat, 9);
                }
                assert(zero_run(data, q, item_symbol(it)) == Ok::<(nat, int), Error>(
                    (m, q + more.len()),
                ));
            },
        }
        lemma_items_read(data, p + bits.len(), b, rest, next);
        assert(next.len() + listed(rest).len() == n);
    }
}

proof fn lemma_symbols_table_read(data: Seq<u8>, p: int, main: Book, b: Book, items: Seq<Item>)
    requires
        is_sound_book(b),
        is_sound_book(main),
        is_symbols_table(main, b, items),
        stand_in(data, p, symbols_table(main, b, items)),
    ensures
        main_table(data, p, table_of(b)) == Ok::<(Table, int), Error>(
            (table_of(main), p + symbols_table(main, b, items).len()),
        ),
{
    lemma2_to64();
    match main {
        Book::Only(s) => {
            lemma_stand_apart(data, p, binary(0, 9), binary(s, 9));
            lemma_number_read(data, p, 0, 9);
            lemma_number_read(data, p + 9, s, 9);
        },
        Book::Lengths(l) => {
            let n = listed(items).len();
            lemma_stand_apart(data, p, binary(n, 9), items_bits(b, items));
            lemma_number_read(data, p, n, 9);
            lemma_items_read(data, p + 9, b, items, Seq::empty());
            assert(Seq::<nat>::empty() + listed(items) =~= listed(items));
            assert forall|i: int| 0 <= i < l.len() implies l[i] == with_zeros(
                listed(items),
                510 - n,
            )[i] by {
                if i < n {
                    assert(l.take(n as int)[i] == l[i]);
                }
            }
            assert(with_zeros(listed(items), 510 - n) =~= l);
            lemma_no_long(l);
        },
    }
}

// ----------------------------------------------------------------- the tokens

/// What a text is written as: an octet, or `len` octets that repeat those
/// `back` octets before.
pub enum Token {
    Octet(u8),
    Copy { len: nat, back: nat },
}

/// How many octets a token stands for.
pub open spec fn size_of(t: Token) -> nat {
    match t {
        Token::Octet(b) => 1,
        Token::Copy { len, back } => len,
    }
}

/// The token says what stands in the text at `at`.
pub open spec fn says(t: Token, text: Seq<u8>, at: int) -> bool {
    match t {
        Token::Octet(b) => at < text.len() && text[at] == b,
        Token::Copy { len, back } => {
            &&& 1 <= back <= at
            &&& at + len <= text.len()
            &&& forall|i: int| at <= i < at + len ==> #[trigger] text[i] == text[i - back]
        },
    }
}

/// The tokens, one after another, say all of the text from `at` on.
pub open spec fn all_said(tokens: Seq<Token>, text: Seq<u8>, at: int) -> bool
    decreases tokens.len(),
{
    if tokens.len() == 0 {
        at == text.len()
    } else {
        says(tokens[0], text, at) && all_said(tokens.drop_first(), text, at + size_of(tokens[0]))
    }
}

/// How many binary digits a number has; zero has none.
pub open spec fn digits(v: nat) -> nat
    decreases v,
{
    if v == 0 {
        0
    } else {
        1 + digits(v / 2)
    }
}

/// The symbol of a token: the octet, or 256 for the shortest copy of three
/// octets and so on.
pub open spec fn token_symbol(t: Token) -> nat {
    match t {
        Token::Octet(b) => b as nat,
        Token::Copy { len, back } => (256 + len - 3) as nat,
    }
}

/// A token as it is written: the word of its symbol; for a copy also how many
/// digits the distance from the last octet has, and those digits without the
/// first, which is a one.
pub open spec fn token_bits(main: Book, dist: Book, t: Token) -> Seq<bool> {
    match t {
        Token::Octet(b) => word_in(main, token_symbol(t)),
        Token::Copy { len, back } => {
            let v = (back - 1) as nat;
            word_in(main, token_symbol(t)) + (word_in(dist, digits(v)) + (if v == 0 {
                Seq::empty()
            } else {
                binary(v, (digits(v) - 1) as nat)
            }))
        },
    }
}

/// What can be written: every octet, and copies of 3 to 256 octets whose
/// distance has at most 14 digits, if the codes have the words.
pub open spec fn is_token(main: Book, dist: Book, t: Token) -> bool {
    has_word(main, token_symbol(t)) && (match t {
        Token::Octet(b) => true,
        Token::Copy { len, back } => 3 <= len <= 256 && 1 <= back && digits((back - 1) as nat)
            <= 14 && has_word(dist, digits((back - 1) as nat)),
    })
}

pub open spec fn tokens_bits(main: Book, dist: Book, tokens: Seq<Token>) -> Seq<bool>
    decreases tokens.len(),
{
    if tokens.len() == 0 {
        Seq::empty()
    } else {
        token_bits(main, dist, tokens[0]) + tokens_bits(main, dist, tokens.drop_first())
    }
}

proof fn lemma_digits(v: nat)
    requires
        v > 0,
    ensures
        digits(v) > 0,
        pow2((digits(v) - 1) as nat) <= v < pow2(digits(v)),
    decreases v,
{
    lemma2_to64();
    if v / 2 > 0 {
        lemma_digits(v / 2);
        let d = digits(v / 2);
        lemma_pow2_adds(1, (d - 1) as nat);
        lemma_pow2_adds(1, d);
    } else {
        assert(v == 1);
        assert(digits(0) == 0);
    }
}

proof fn lemma_distance_read(data: Seq<u8>, p: int, dist: Book, v: nat)
    requires
        is_sound_book(dist),
        has_word(dist, digits(v)),
        digits(v) <= 14,
        stand_in(
            data,
            p,
            word_in(dist, digits(v)) + (if v == 0 {
                Seq::empty()
            } else {
                binary(v, (digits(v) - 1) as nat)
            }),
        ),
    ensures
        distance(data, p, table_of(dist)) == Ok::<(nat, int), Error>(
            (
                v,
                p + (word_in(dist, digits(v)) + (if v == 0 {
                    Seq::empty()
                } else {
                    binary(v, (digits(v) - 1) as nat)
                })).len(),
            ),
        ),
{
    let d = digits(v);
    let w = word_in(dist, d);
    let low = if v == 0 {
        Seq::empty()
    } else {
        binary(v, (d - 1) as nat)
    };
    lemma_stand_apart(data, p, w, low);
    lemma_symbol_read(dist, d, data, p);
    if v > 0 {
        lemma_digits(v);
        let e = (d - 1) as nat;
        crate::infrastructure::spelling::lemma_binary_read(data, p + w.len(), v, e);
        lemma_pow2_adds(1, e);
        lemma2_to64();
        vstd::arithmetic::div_mod::lemma_fundamental_div_mod_converse(
            v as int,
            pow2(e) as int,
            1,
            v - pow2(e),
        );
        assert(v % pow2(e) == v - pow2(e));
    }
}

proof fn lemma_copy(text: Seq<u8>, at: int, back: nat, len: nat)
    requires
        says(Token::Copy { len, back }, text, at),
    ensures
        repeated(text.take(at), back, len) == text.take(at + len),
    decreases len,
{
    if len > 0 {
        assert(text[at] == text[at - back]);
        assert(text.take(at).push(text.take(at)[at - back]) =~= text.take(at + 1));
        lemma_copy(text, at + 1, back, (len - 1) as nat);
    }
}

proof fn lemma_token_read(
    data: Seq<u8>,
    p: int,
    main: Book,
    dist: Book,
    t: Token,
    text: Seq<u8>,
    at: int,
)
    requires
        is_sound_book(main),
        is_sound_book(dist),
        is_token(main, dist, t),
        0 <= at,
        says(t, text, at),
        stand_in(data, p, token_bits(main, dist, t)),
    ensures
        next_symbol(data, p, table_of(main), table_of(dist), text.take(at), text.len() as int)
            == Ok::<(Seq<u8>, int), Error>(
            (text.take(at + size_of(t)), p + token_bits(main, dist, t).len()),
        ),
{
    reveal(next_symbol);
    let c = token_symbol(t);
    match t {
        Token::Octet(b) => {
            lemma_symbol_read(main, c, data, p);
            assert(text.take(at).push(b) =~= text.take(at + 1));
        },
        Token::Copy { len, back } => {
            let v = (back - 1) as nat;
            let w = word_in(main, c);
            let far = word_in(dist, digits(v)) + (if v == 0 {
                Seq::empty()
            } else {
                binary(v, (digits(v) - 1) as nat)
            });
            lemma_stand_apart(data, p, w, far);
            lemma_symbol_read(main, c, data, p);
            lemma_distance_read(data, p + w.len(), dist, v);
            lemma_copy(text, at, back, len);
        },
    }
}

// ----------------------------------------------------------------- the blocks

/// A block: its three codes, how their tables are written, and its tokens.
pub struct CodedBlock {
    /// The code that the lengths of the main code are in, how many of its
    /// lengths are written, and how many are left out behind the third.
    pub lengths: Book,
    pub lengths_count: nat,
    pub lengths_unused: nat,
    /// The main code, and the items of its table.
    pub main: Book,
    pub items: Seq<Item>,
    /// The code of the distances, and how many of its lengths are written.
    pub dist: Book,
    pub dist_count: nat,
    pub tokens: Seq<Token>,
}

/// A block as it is written: how many tokens it holds, in 16 bits, its tables
/// and the tokens.
pub open spec fn block_bits(b: CodedBlock) -> Seq<bool> {
    binary(b.tokens.len(), 16) + (lengths_table(b.lengths, b.lengths_count, b.lengths_unused) + (
    symbols_table(b.main, b.lengths, b.items) + (distance_table(b.dist, b.dist_count)
        + tokens_bits(b.main, b.dist, b.tokens))))
}

/// What can be written: one to 65535 tokens, in sound codes that have the
/// words.
pub open spec fn is_block(b: CodedBlock) -> bool {
    &&& 1 <= b.tokens.len() <= 65535
    &&& is_sound_book(b.lengths)
    &&& is_sound_book(b.main)
    &&& is_sound_book(b.dist)
    &&& is_lengths_table(b.lengths, b.lengths_count, b.lengths_unused)
    &&& is_symbols_table(b.main, b.lengths, b.items)
    &&& is_distance_table(b.dist, b.dist_count)
    &&& forall|i: int|
        0 <= i < b.tokens.len() ==> is_token(b.main, b.dist, #[trigger] b.tokens[i])
}

/// The blocks one after another.
pub open spec fn blocks_bits(blocks: Seq<CodedBlock>) -> Seq<bool>
    decreases blocks.len(),
{
    if blocks.len() == 0 {
        Seq::empty()
    } else {
        block_bits(blocks[0]) + blocks_bits(blocks.drop_first())
    }
}

/// The tokens of the blocks one after another.
pub open spec fn blocks_tokens(blocks: Seq<CodedBlock>) -> Seq<Token>
    decreases blocks.len(),
{
    if blocks.len() == 0 {
        Seq::empty()
    } else {
        blocks[0].tokens + blocks_tokens(blocks.drop_first())
    }
}

proof fn lemma_block_read(data: Seq<u8>, p: int, b: CodedBlock)
    requires
        is_block(b),
        stand_in(data, p, block_bits(b)),
    ensures
        crate::infrastructure::lzh::block_start(data, p) matches Ok(s) && s.left == b.tokens.len()
            && s.main == table_of(b.main) && s.dist == table_of(b.dist) && stand_in(
            data,
            s.p,
            tokens_bits(b.main, b.dist, b.tokens),
        ) && s.p + tokens_bits(b.main, b.dist, b.tokens).len() == p + block_bits(b).len(),
{
    reveal(crate::infrastructure::lzh::block_start);
    lemma2_to64();
    let n = b.tokens.len();
    let one = lengths_table(b.lengths, b.lengths_count, b.lengths_unused);
    let two = symbols_table(b.main, b.lengths, b.items);
    let three = distance_table(b.dist, b.dist_count);
    let rest = tokens_bits(b.main, b.dist, b.tokens);
    lemma_stand_apart(data, p, binary(n, 16), one + (two + (three + rest)));
    lemma_number_read(data, p, n, 16);
    let q = p + 16;
    lemma_stand_apart(data, q, one, two + (three + rest));
    lemma_lengths_table_read(data, q, b.lengths, b.lengths_count, b.lengths_unused);
    let r = q + one.len();
    lemma_stand_apart(data, r, two, three + rest);
    lemma_symbols_table_read(data, r, b.main, b.lengths, b.items);
    let s = r + two.len();
    lemma_stand_apart(data, s, three, rest);
    lemma_distance_table_read(data, s, b.dist, b.dist_count);
}

/// What is left of a block is read, and what follows it.
proof fn lemma_rest_read(
    data: Seq<u8>,
    p: int,
    main: Book,
    dist: Book,
    tokens: Seq<Token>,
    blocks: Seq<CodedBlock>,
    text: Seq<u8>,
    at: int,
)
    requires
        0 <= at <= text.len(),
        tokens.len() > 0 ==> is_sound_book(main) && is_sound_book(dist),
        forall|i: int| 0 <= i < tokens.len() ==> is_token(main, dist, #[trigger] tokens[i]),
        forall|i: int| 0 <= i < blocks.len() ==> is_block(#[trigger] blocks[i]),
        all_said(tokens + blocks_tokens(blocks), text, at),
        stand_in(data, p, tokens_bits(main, dist, tokens) + blocks_bits(blocks)),
    ensures
        expand(
            data,
            p,
            tokens.len(),
            table_of(main),
            table_of(dist),
            text.take(at),
            text.len() as int,
        ) == Ok::<Seq<u8>, Error>(text),
    decreases blocks.len(), tokens.len(),
{
    let all = tokens + blocks_tokens(blocks);
    if tokens.len() > 0 {
        let t = tokens[0];
        let rest = tokens.drop_first();
        assert(is_token(main, dist, t));
        assert(all[0] == t);
        assert(all.drop_first() =~= rest + blocks_tokens(blocks));
        assert forall|i: int| 0 <= i < rest.len() implies is_token(main, dist, #[trigger] rest[i]) by {
            assert(rest[i] == tokens[i + 1]);
        }
        let bits = token_bits(main, dist, t);
        let more = tokens_bits(main, dist, rest) + blocks_bits(blocks);
        assert(tokens_bits(main, dist, tokens) + blocks_bits(blocks) =~= bits + more);
        lemma_stand_apart(data, p, bits, more);
        lemma_token_read(data, p, main, dist, t, text, at);
        lemma_rest_read(
            data,
            p + bits.len(),
            main,
            dist,
            rest,
            blocks,
            text,
            at + size_of(t),
        );
    } else if blocks.len() > 0 {
        let b = blocks[0];
        let rest = blocks.drop_first();
        assert(is_block(b));
        assert forall|i: int| 0 <= i < rest.len() implies is_block(#[trigger] rest[i]) by {
            assert(rest[i] == blocks[i + 1]);
        }
        assert(all =~= b.tokens + blocks_tokens(rest));
        assert(all[0] == b.tokens[0]);
        assert(is_token(b.main, b.dist, b.tokens[0]));
        assert(tokens_bits(main, dist, tokens) + blocks_bits(blocks) =~= block_bits(b)
            + blocks_bits(rest));
        lemma_stand_apart(data, p, block_bits(b), blocks_bits(rest));
        lemma_block_read(data, p, b);
        let s = crate::infrastructure::lzh::block_start(data, p)->Ok_0;
        lemma_stand_together(
            data,
            s.p,
            tokens_bits(b.main, b.dist, b.tokens),
            blocks_bits(rest),
        );
        lemma_rest_read(data, s.p, b.main, b.dist, b.tokens, rest, text, at);
    } else {
        assert(text.take(at) =~= text);
    }
}

proof fn lemma_stand_together(data: Seq<u8>, p: int, a: Seq<bool>, b: Seq<bool>)
    requires
        stand_in(data, p, a),
        stand_in(data, p + a.len(), b),
    ensures
        stand_in(data, p, a + b),
{
    let all = a + b;
    assert forall|i: int| 0 <= i < all.len() implies #[trigger] all[i] == is_one(data, p + i) by {
        if i < a.len() {
            assert(all[i] == a[i]);
        } else {
            assert(all[i] == b[i - a.len()]);
        }
    }
}

/// Whatever text is written in the coding comes back: in any number of blocks,
/// in any codes that have room for their words, and whatever follows the last
/// block in the stream.
pub proof fn law_text_comes_back(data: Seq<u8>, blocks: Seq<CodedBlock>, text: Seq<u8>)
    requires
        forall|i: int| 0 <= i < blocks.len() ==> is_block(#[trigger] blocks[i]),
        all_said(blocks_tokens(blocks), text, 0),
        stand_in(data, 0, blocks_bits(blocks)),
        text.len() <= 268_435_456,
    ensures
        decoded(data, text.len() as int) == Ok::<Seq<u8>, Error>(text),
{
    let none = Seq::<Token>::empty();
    let any = Book::Only(0);
    assert(none + blocks_tokens(blocks) =~= blocks_tokens(blocks));
    assert(tokens_bits(any, any, none) + blocks_bits(blocks) =~= blocks_bits(blocks));
    assert(text.take(0) =~= Seq::<u8>::empty());
    lemma_rest_read(data, 0, any, any, none, blocks, text, 0);
}

} // verus!
