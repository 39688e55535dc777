//! A decoder for the page coding, compatible with LHA's `-lh5-`.
//!
//! The stream is a sequence of blocks. A block states how many symbols it
//! holds and the code tables they are written in; a symbol is an octet or the
//! length of a match, which a distance follows.
use crate::error::Error;
use crate::infrastructure::deflate::repeated;
use vstd::prelude::*;

verus! {

pub const THRESHOLD: usize = 3;

/// The number of literal and length symbols.
pub const NC: usize = 510;

/// The number of symbols of the code that the main code's lengths are in.
pub const NT: usize = 19;

/// The number of distance symbols.
pub const NP: usize = 14;

pub const MAX_CODE_LEN: usize = 16;

/// The longest output that is believed.
pub const CEILING: usize = 268_435_456;

pub const BIT_WEIGHT: [u8; 8] = [128, 64, 32, 16, 8, 4, 2, 1];

// ------------------------------------------------------------------- the bits

/// The bit at position `p`, most significant bit of each octet first.
pub open spec fn bit_at(data: Seq<u8>, p: int) -> nat {
    (data[p / 8] / BIT_WEIGHT@[p % 8] % 2) as nat
}

/// The number that the `n` bits from `p` on spell.
pub open spec fn bits_at(data: Seq<u8>, p: int, n: nat) -> nat
    decreases n,
{
    if n == 0 {
        0
    } else {
        2 * bits_at(data, p, (n - 1) as nat) + bit_at(data, p + n - 1)
    }
}

/// The stream ends before it is complete; where it ends, in bits.
pub open spec fn cut_off(data: Seq<u8>) -> Error {
    Error::CodingTruncated {
        at: if 8 * data.len() > usize::MAX {
            usize::MAX
        } else {
            (8 * data.len()) as usize
        },
    }
}

/// Reads `n` bits at `p`: the number and the position after them.
pub open spec fn read_number(data: Seq<u8>, p: int, n: nat) -> Result<(nat, int), Error> {
    if p + n > 8 * data.len() {
        Err(cut_off(data))
    } else {
        Ok((bits_at(data, p, n), p + n))
    }
}

// ------------------------------------------------------------------ the codes

/// A code table: one symbol that takes no bits, or the canonical code in which
/// symbol `i` has `lengths[i]` bits (none at all where that is zero).
pub enum Table {
    Single(nat),
    Canonical(Seq<nat>),
}

/// The first `n` symbols' share of those that have `l` bits, in order.
pub open spec fn symbols_below(lengths: Seq<nat>, l: nat, n: int) -> Seq<nat>
    decreases n,
{
    if n <= 0 {
        Seq::empty()
    } else if lengths[n - 1] == l {
        symbols_below(lengths, l, n - 1).push((n - 1) as nat)
    } else {
        symbols_below(lengths, l, n - 1)
    }
}

/// The symbols that have `l` bits, in order.
pub open spec fn symbols_of(lengths: Seq<nat>, l: nat) -> Seq<nat> {
    symbols_below(lengths, l, lengths.len() as int)
}

/// The first code of `l` bits.
pub open spec fn first_code(lengths: Seq<nat>, l: nat) -> nat
    decreases l,
{
    if l <= 1 {
        0
    } else {
        2 * (first_code(lengths, (l - 1) as nat) + symbols_of(lengths, (l - 1) as nat).len())
    }
}

/// Reads a symbol whose code at `p` has `l` bits or more.
pub open spec fn symbol_from(lengths: Seq<nat>, data: Seq<u8>, p: int, l: nat) -> Result<
    (nat, int),
    Error,
>
    decreases 17 - l,
{
    if l > MAX_CODE_LEN {
        Err(Error::CodingBadTable)
    } else if p + l > 8 * data.len() {
        Err(cut_off(data))
    } else {
        let rank = bits_at(data, p, l) - first_code(lengths, l);
        if rank < symbols_of(lengths, l).len() {
            Ok((symbols_of(lengths, l)[rank], p + l))
        } else {
            symbol_from(lengths, data, p, l + 1)
        }
    }
}

/// Reads a symbol at `p`: the symbol and the position after its code.
pub open spec fn symbol(t: Table, data: Seq<u8>, p: int) -> Result<(nat, int), Error> {
    match t {
        Table::Single(s) => Ok((s, p)),
        Table::Canonical(lengths) => symbol_from(lengths, data, p, 1),
    }
}

/// `s` followed by `n` zeros.
pub open spec fn with_zeros(s: Seq<nat>, n: int) -> Seq<nat> {
    s + Seq::new((if n < 0 { 0 } else { n }) as nat, |i: int| 0nat)
}

/// The canonical code of the lengths, unless one of them is too long.
pub open spec fn canonical(lengths: Seq<nat>) -> Result<Table, Error> {
    if exists|i: int| 0 <= i < lengths.len() && #[trigger] lengths[i] > MAX_CODE_LEN {
        Err(Error::CodingBadTable)
    } else {
        Ok(Table::Canonical(lengths))
    }
}

/// Counts up from `c` for every one bit at `p`, up to the zero bit that ends
/// them.
pub open spec fn unary(data: Seq<u8>, p: int, c: nat) -> Result<(nat, int), Error>
    decreases 17 - c,
{
    if p + 1 > 8 * data.len() {
        Err(cut_off(data))
    } else if bit_at(data, p) != 1 {
        Ok((c, p + 1))
    } else if c + 1 > MAX_CODE_LEN {
        Err(Error::CodingBadTable)
    } else {
        unary(data, p + 1, c + 1)
    }
}

/// Reads one code length: three bits, and seven goes on in unary.
pub open spec fn code_length(data: Seq<u8>, p: int) -> Result<(nat, int), Error> {
    match read_number(data, p, 3) {
        Err(e) => Err(e),
        Ok((c, q)) => if c == 7 {
            unary(data, q, 7)
        } else {
            Ok((c, q))
        },
    }
}

/// Reads code lengths until there are `n`, after `acc` has been read. When
/// `special` of them have been read, two bits say how many zeros follow.
pub open spec fn code_lengths(
    data: Seq<u8>,
    p: int,
    n: int,
    n_max: int,
    special: int,
    acc: Seq<nat>,
) -> Result<(Seq<nat>, int), Error>
    decreases
            (if acc.len() < n {
                n - acc.len()
            } else {
                0
            }),
{
    if acc.len() >= n {
        Ok((acc, p))
    } else {
        match code_length(data, p) {
            Err(e) => Err(e),
            Ok((c, q)) => if acc.len() + 1 == special {
                match read_number(data, q, 2) {
                    Err(e) => Err(e),
                    Ok((skip, r)) => if acc.len() + 1 + skip > n_max {
                        Err(Error::CodingBadTable)
                    } else {
                        code_lengths(
                            data,
                            r,
                            n,
                            n_max,
                            special,
                            with_zeros(acc.push(c), skip as int),
                        )
                    },
                }
            } else {
                code_lengths(data, q, n, n_max, special, acc.push(c))
            },
        }
    }
}

/// Reads a table of at most `n_max` code lengths, whose number is `n_bits`
/// wide.
pub open spec fn length_table(
    data: Seq<u8>,
    p: int,
    n_max: int,
    n_bits: nat,
    special: int,
) -> Result<(Table, int), Error> {
    match read_number(data, p, n_bits) {
        Err(e) => Err(e),
        Ok((n, q)) => if n == 0 {
            match read_number(data, q, n_bits) {
                Err(e) => Err(e),
                Ok((s, r)) => Ok((Table::Single(s), r)),
            }
        } else if n > n_max {
            Err(Error::CodingBadTable)
        } else {
            match code_lengths(data, q, n as int, n_max, special, Seq::empty()) {
                Err(e) => Err(e),
                Ok((lengths, r)) => match canonical(with_zeros(lengths, n_max - lengths.len())) {
                    Err(e) => Err(e),
                    Ok(t) => Ok((t, r)),
                },
            }
        },
    }
}

/// How many zeros a run symbol of the main table stands for.
pub open spec fn zero_run(data: Seq<u8>, p: int, c: nat) -> Result<(nat, int), Error> {
    if c == 0 {
        Ok((1, p))
    } else if c == 1 {
        match read_number(data, p, 4) {
            Err(e) => Err(e),
            Ok((n, q)) => Ok((n + 3, q)),
        }
    } else {
        match read_number(data, p, 9) {
            Err(e) => Err(e),
            Ok((n, q)) => Ok((n + 20, q)),
        }
    }
}

/// Reads the main code's lengths until there are `n`, after `acc` has been
/// read.
pub open spec fn main_lengths(
    data: Seq<u8>,
    p: int,
    n: int,
    lengths_of: Table,
    acc: Seq<nat>,
) -> Result<(Seq<nat>, int), Error>
    decreases
            (if acc.len() < n {
                n - acc.len()
            } else {
                0
            }),
{
    if acc.len() >= n {
        Ok((acc, p))
    } else {
        match symbol(lengths_of, data, p) {
            Err(e) => Err(e),
            Ok((c, q)) => if c <= 2 {
                match zero_run(data, q, c) {
                    Err(e) => Err(e),
                    Ok((run, r)) => if acc.len() + run > NC {
                        Err(Error::CodingBadTable)
                    } else {
                        main_lengths(data, r, n, lengths_of, with_zeros(acc, run as int))
                    },
                }
            } else {
                main_lengths(data, q, n, lengths_of, acc.push((c - 2) as nat))
            },
        }
    }
}

/// Reads the main table.
pub open spec fn main_table(data: Seq<u8>, p: int, lengths_of: Table) -> Result<
    (Table, int),
    Error,
> {
    match read_number(data, p, 9) {
        Err(e) => Err(e),
        Ok((n, q)) => if n == 0 {
            match read_number(data, q, 9) {
                Err(e) => Err(e),
                Ok((s, r)) => Ok((Table::Single(s), r)),
            }
        } else if n > NC {
            Err(Error::CodingBadTable)
        } else {
            match main_lengths(data, q, n as int, lengths_of, Seq::empty()) {
                Err(e) => Err(e),
                Ok((lengths, r)) => match canonical(with_zeros(lengths, NC - lengths.len())) {
                    Err(e) => Err(e),
                    Ok(t) => Ok((t, r)),
                },
            }
        },
    }
}

// ------------------------------------------------------------------ the blocks

/// What a block starts with: how many symbols it holds, and its two tables.
pub struct Block {
    pub left: nat,
    pub main: Table,
    pub dist: Table,
    pub p: int,
}

/// Reads the start of a block at `p`.
#[verifier::opaque]
pub open spec fn block_start(data: Seq<u8>, p: int) -> Result<Block, Error> {
    match read_number(data, p, 16) {
        Err(e) => Err(e),
        Ok((left, q)) => if left == 0 {
            Err(Error::CodingBadTable)
        } else {
            match length_table(data, q, NT as int, 5, 3) {
                Err(e) => Err(e),
                Ok((lengths_of, r)) => match main_table(data, r, lengths_of) {
                    Err(e) => Err(e),
                    Ok((main, s)) => match length_table(data, s, NP as int, 4, usize::MAX as int) {
                        Err(e) => Err(e),
                        Ok((dist, t)) => Ok(Block { left, main, dist, p: t }),
                    },
                },
            }
        },
    }
}

/// Reads a distance: how many octets back from the last one.
pub open spec fn distance(data: Seq<u8>, p: int, dist: Table) -> Result<(nat, int), Error> {
    match symbol(dist, data, p) {
        Err(e) => Err(e),
        Ok((d, q)) => if d == 0 {
            Ok((0, q))
        } else if d > NP {
            Err(Error::CodingBadTable)
        } else {
            match read_number(data, q, (d - 1) as nat) {
                Err(e) => Err(e),
                Ok((low, r)) => Ok(
                    (vstd::arithmetic::power2::pow2((d - 1) as nat) + low, r),
                ),
            }
        },
    }
}

/// One symbol and what it adds to `out`, which is never more than `expanded`.
#[verifier::opaque]
pub open spec fn next_symbol(
    data: Seq<u8>,
    p: int,
    main: Table,
    dist: Table,
    out: Seq<u8>,
    expanded: int,
) -> Result<(Seq<u8>, int), Error> {
    match symbol(main, data, p) {
        Err(e) => Err(e),
        Ok((c, q)) => if c < 256 {
            Ok((out.push(c as u8), q))
        } else {
            match distance(data, q, dist) {
                Err(e) => Err(e),
                Ok((d, r)) => if out.len() < d + 1 {
                    Err(Error::CodingBadDistance)
                } else {
                    let len = c - 256 + THRESHOLD;
                    let room = expanded - out.len();
                    Ok((repeated(out, d + 1, (if len < room { len } else { room }) as nat), r))
                },
            }
        },
    }
}

/// What the stream expands to from `p` on, after `out` has been produced and
/// with `left` symbols of the block still to come.
pub open spec fn expand(
    data: Seq<u8>,
    p: int,
    left: nat,
    main: Table,
    dist: Table,
    out: Seq<u8>,
    expanded: int,
) -> Result<Seq<u8>, Error>
    decreases
            expanded - out.len(),
            (if left == 0 {
                1int
            } else {
                0
            }),
{
    if out.len() >= expanded {
        Ok(out)
    } else if left == 0 {
        match block_start(data, p) {
            Err(e) => Err(e),
            Ok(b) => {
                proof {
                    lemma_block_start(data, p);
                }
                expand(data, b.p, b.left, b.main, b.dist, out, expanded)
            },
        }
    } else {
        match next_symbol(data, p, main, dist, out, expanded) {
            Err(e) => Err(e),
            Ok((more, q)) => {
                proof {
                    lemma_next_symbol_grows(data, p, main, dist, out, expanded);
                }
                expand(data, q, (left - 1) as nat, main, dist, more, expanded)
            },
        }
    }
}

/// What `data` decodes to when `expanded` octets are declared.
pub open spec fn decoded(data: Seq<u8>, expanded: int) -> Result<Seq<u8>, Error> {
    if expanded > CEILING {
        Err(Error::CodingAbsurdLength { len: expanded as usize })
    } else {
        expand(data, 0, 0, Table::Single(0), Table::Single(0), Seq::empty(), expanded)
    }
}

/// A block that can be read holds at least one symbol.
pub proof fn lemma_block_start(data: Seq<u8>, p: int)
    ensures
        block_start(data, p) matches Ok(b) ==> b.left > 0,
{
    reveal(block_start);
}

pub proof fn lemma_repeated_len(out: Seq<u8>, dist: nat, len: nat)
    ensures
        repeated(out, dist, len).len() == out.len() + len,
    decreases len,
{
    if len > 0 {
        lemma_repeated_len(out.push(out[out.len() - dist]), dist, (len - 1) as nat);
    }
}

/// Every symbol adds at least one octet and keeps what was there.
pub proof fn lemma_next_symbol_grows(
    data: Seq<u8>,
    p: int,
    main: Table,
    dist: Table,
    out: Seq<u8>,
    expanded: int,
)
    requires
        out.len() < expanded,
    ensures
        next_symbol(data, p, main, dist, out, expanded) matches Ok((more, q)) ==> out.len()
            < more.len() <= expanded,
{
    reveal(next_symbol);
    match symbol(main, data, p) {
        Err(e) => {},
        Ok((c, q)) => if c >= 256 {
            match distance(data, q, dist) {
                Err(e) => {},
                Ok((d, r)) => {
                    let len = c - 256 + THRESHOLD;
                    let room = expanded - out.len();
                    lemma_repeated_len(
                        out,
                        d + 1,
                        (if len < room {
                            len
                        } else {
                            room
                        }) as nat,
                    );
                },
            }
        },
    }
}

/// A stream that decodes gives exactly as many octets as were declared.
pub proof fn law_decoded_length(data: Seq<u8>, expanded: int)
    requires
        0 <= expanded,
    ensures
        decoded(data, expanded) matches Ok(out) ==> out.len() == expanded,
{
    if expanded <= CEILING {
        lemma_expand_length(
            data,
            0,
            0,
            Table::Single(0),
            Table::Single(0),
            Seq::empty(),
            expanded,
        );
    }
}

proof fn lemma_expand_length(
    data: Seq<u8>,
    p: int,
    left: nat,
    main: Table,
    dist: Table,
    out: Seq<u8>,
    expanded: int,
)
    requires
        out.len() <= expanded,
    ensures
        expand(data, p, left, main, dist, out, expanded) matches Ok(r) ==> r.len() == expanded,
    decreases
            expanded - out.len(),
            (if left == 0 {
                1int
            } else {
                0
            }),
{
    if out.len() < expanded {
        if left == 0 {
            match block_start(data, p) {
                Err(e) => {},
                Ok(b) => {
                    lemma_block_start(data, p);
                    lemma_expand_length(data, b.p, b.left, b.main, b.dist, out, expanded);
                },
            }
        } else {
            lemma_next_symbol_grows(data, p, main, dist, out, expanded);
            match next_symbol(data, p, main, dist, out, expanded) {
                Err(e) => {},
                Ok((more, q)) => lemma_expand_length(
                    data,
                    q,
                    (left - 1) as nat,
                    main,
                    dist,
                    more,
                    expanded,
                ),
            }
        }
    }
}

/// A shorter copy is the start of a longer one, and what was there stays.
proof fn lemma_repeated_start(out: Seq<u8>, dist: nat, short: nat, long: nat)
    requires
        short <= long,
    ensures
        repeated(out, dist, long).take(out.len() as int) == out,
        repeated(out, dist, long).take((out.len() + short) as int) == repeated(out, dist, short),
    decreases long,
{
    lemma_repeated_len(out, dist, short);
    lemma_repeated_len(out, dist, long);
    let all = repeated(out, dist, long);
    if long == 0 {
        assert(out.take(out.len() as int) =~= out);
    } else {
        let more = out.push(out[out.len() - dist]);
        let rest = (long - 1) as nat;
        lemma_repeated_start(more, dist, rest, rest);
        assert(all.take(out.len() as int) =~= more.take(out.len() as int));
        assert(more.take(out.len() as int) =~= out);
        if short > 0 {
            lemma_repeated_start(more, dist, (short - 1) as nat, rest);
        }
    }
}

/// One symbol adds the start of what it adds where more is wanted.
proof fn lemma_next_symbol_start(
    data: Seq<u8>,
    p: int,
    main: Table,
    dist: Table,
    out: Seq<u8>,
    m: int,
    n: int,
)
    requires
        out.len() < m <= n,
    ensures
        match (next_symbol(data, p, main, dist, out, m), next_symbol(data, p, main, dist, out, n)) {
            (Ok((a, q)), Ok((b, r))) => q == r && b.take(out.len() as int) == out && a == (
            if b.len() <= m {
                b
            } else {
                b.take(m)
            }),
            (Err(_), Err(_)) => true,
            _ => false,
        },
{
    reveal(next_symbol);
    match symbol(main, data, p) {
        Err(e) => {},
        Ok((c, q)) => if c < 256 {
            assert(out.push(c as u8).take(out.len() as int) =~= out);
        } else {
            match distance(data, q, dist) {
                Err(e) => {},
                Ok((d, r)) => {
                    let len = c - 256 + THRESHOLD;
                    let short = (if len < m - out.len() {
                        len
                    } else {
                        m - out.len()
                    }) as nat;
                    let long = (if len < n - out.len() {
                        len
                    } else {
                        n - out.len()
                    }) as nat;
                    lemma_repeated_len(out, d + 1, long);
                    lemma_repeated_start(out, d + 1, short, long);
                },
            }
        },
    }
}

proof fn lemma_expand_start(
    data: Seq<u8>,
    p: int,
    left: nat,
    main: Table,
    dist: Table,
    out: Seq<u8>,
    m: int,
    n: int,
)
    requires
        out.len() <= n,
        m <= n,
        expand(data, p, left, main, dist, out, n) is Ok,
    ensures
        ({
            let v = expand(data, p, left, main, dist, out, n)->Ok_0;
            &&& v.len() == n
            &&& v.take(out.len() as int) == out
            &&& out.len() <= m ==> expand(data, p, left, main, dist, out, m)
                == Ok::<Seq<u8>, Error>(v.take(m))
        }),
    decreases
            n - out.len(),
            (if left == 0 {
                1int
            } else {
                0
            }),
{
    let v = expand(data, p, left, main, dist, out, n)->Ok_0;
    lemma_expand_length(data, p, left, main, dist, out, n);
    if out.len() >= n {
        assert(v == out);
        assert(v.take(n) =~= out);
    } else if left == 0 {
        lemma_block_start(data, p);
        let b = block_start(data, p)->Ok_0;
        lemma_expand_start(data, b.p, b.left, b.main, b.dist, out, m, n);
    } else {
        lemma_next_symbol_grows(data, p, main, dist, out, n);
        let (more, q) = next_symbol(data, p, main, dist, out, n)->Ok_0;
        lemma_expand_start(data, q, (left - 1) as nat, main, dist, more, m, n);
        lemma_next_symbol_start(data, p, main, dist, out, n, n);
        assert(v.take(out.len() as int) =~= v.take(more.len() as int).take(out.len() as int));
        if out.len() < m {
            lemma_next_symbol_start(data, p, main, dist, out, m, n);
            let part = next_symbol(data, p, main, dist, out, m)->Ok_0.0;
            if more.len() > m {
                assert(v.take(m) =~= v.take(more.len() as int).take(m));
                assert(expand(data, q, (left - 1) as nat, main, dist, part, m) == Ok::<
                    Seq<u8>,
                    Error,
                >(part));
            } else {
                assert(part == more);
            }
        }
    }
}

/// A stream that decodes to some length decodes to every shorter one, and then
/// gives the start of what it gave.
pub proof fn law_decoded_start(data: Seq<u8>, m: int, n: int)
    requires
        0 <= m <= n,
    ensures
        decoded(data, n) matches Ok(v) ==> decoded(data, m) == Ok::<Seq<u8>, Error>(v.take(m)),
{
    if decoded(data, n) is Ok {
        lemma_expand_start(
            data,
            0,
            0,
            Table::Single(0),
            Table::Single(0),
            Seq::empty(),
            m,
            n,
        );
    }
}

/// A length past anything plausible is refused, whatever the stream holds.
pub proof fn law_absurd_length(data: Seq<u8>, expanded: usize)
    ensures
        expanded > 268_435_456 ==> decoded(data, expanded as int) == Err::<Seq<u8>, Error>(
            Error::CodingAbsurdLength { len: expanded },
        ),
{
}

// --------------------------------------------------------------- the decoder

struct Bits<'a> {
    data: &'a [u8],
    byte: usize,
    bit: usize,
}

/// The executable counterpart of a model result: the same value with the
/// reader at the same position, or the same error.
spec fn agrees<T>(r: Result<T, Error>, v: spec_fn(T) -> nat, p: int, s: Result<(nat, int), Error>) -> bool {
    match (r, s) {
        (Ok(x), Ok((y, q))) => v(x) == y && p == q,
        (Err(a), Err(b)) => a == b,
        _ => false,
    }
}

impl<'a> Bits<'a> {
    spec fn wf(self) -> bool {
        &&& self.bit < 8
        &&& self.byte <= self.data@.len()
        &&& self.byte == self.data@.len() ==> self.bit == 0
    }

    spec fn pos(self) -> int {
        8 * self.byte + self.bit
    }

    fn new(data: &'a [u8]) -> (b: Self)
        ensures
            b.wf(),
            b.pos() == 0,
            b.data@ == data@,
    {
        Bits { data, byte: 0, bit: 0 }
    }

    fn bit(&mut self) -> (r: Result<u32, Error>)
        requires
            old(self).wf(),
        ensures
            final(self).wf(),
            final(self).data@ == old(self).data@,
            r matches Ok(v) ==> v < 2,
            agrees(
                r,
                |v: u32| v as nat,
                final(self).pos(),
                read_number(old(self).data@, old(self).pos(), 1),
            ),
            r matches Ok(v) ==> v == bit_at(old(self).data@, old(self).pos()),
    {
        let ghost p = self.pos();
        proof {
            reveal_with_fuel(bits_at, 2);
            assert(p / 8 == self.byte && p % 8 == self.bit);
        }
        if self.byte >= self.data.len() {
            let n: usize = self.data.len();
            return Err(
                Error::CodingTruncated {
                    at: if n > usize::MAX / 8 {
                        usize::MAX
                    } else {
                        8 * n
                    },
                },
            );
        }
        let b: u8 = self.data[self.byte] / BIT_WEIGHT[self.bit] % 2;
        if self.bit == 7 {
            self.byte = self.byte + 1;
            self.bit = 0;
        } else {
            self.bit = self.bit + 1;
        }
        Ok(b as u32)
    }

    fn bits(&mut self, n: u32) -> (r: Result<u32, Error>)
        requires
            old(self).wf(),
            n <= 16,
        ensures
            final(self).wf(),
            final(self).data@ == old(self).data@,
            agrees(
                r,
                |v: u32| v as nat,
                final(self).pos(),
                read_number(old(self).data@, old(self).pos(), n as nat),
            ),
            r matches Ok(v) ==> v < 0x1_0000 && v < vstd::arithmetic::power2::pow2(n as nat),
    {
        let ghost p = self.pos();
        let mut v: u32 = 0;
        let mut i: u32 = 0;
        proof {
            vstd::arithmetic::power2::lemma2_to64();
        }
        while i < n
            invariant
                i <= n <= 16,
                self.wf(),
                self.data@ == old(self).data@,
                self.pos() == p + i,
                p == old(self).pos(),
                p + i <= 8 * self.data@.len(),
                v == bits_at(self.data@, p, i as nat),
                v < vstd::arithmetic::power2::pow2(i as nat),
            decreases n - i,
        {
            proof {
                vstd::arithmetic::power2::lemma2_to64();
                vstd::arithmetic::power2::lemma_pow2_unfold((i + 1) as nat);
                if i < 16 {
                    vstd::arithmetic::power2::lemma_pow2_strictly_increases(i as nat, 16);
                }
            }
            match self.bit() {
                Ok(b) => {
                    v = 2 * v + b;
                },
                Err(e) => {
                    return Err(e);
                },
            }
            i += 1;
        }
        proof {
            if n < 16 {
                vstd::arithmetic::power2::lemma_pow2_strictly_increases(n as nat, 16);
            }
        }
        Ok(v)
    }
}

struct Huffman {
    counts: Vec<usize>,
    symbols: Vec<u16>,
    only: Option<u16>,
}

/// All symbols of at most `l` bits, shorter codes first.
spec fn sorted(lengths: Seq<nat>, l: nat) -> Seq<nat>
    decreases l,
{
    if l == 0 {
        Seq::empty()
    } else {
        sorted(lengths, (l - 1) as nat) + symbols_of(lengths, l)
    }
}

spec fn as_nats(s: Seq<u16>) -> Seq<nat> {
    Seq::new(s.len(), |i: int| s[i] as nat)
}

spec fn widths(s: Seq<u8>) -> Seq<nat> {
    Seq::new(s.len(), |i: int| s[i] as nat)
}

/// `v` is a symbol of the table.
spec fn below(t: Table, v: nat) -> bool {
    match t {
        Table::Single(s) => v == s,
        Table::Canonical(lengths) => v < lengths.len(),
    }
}

/// A table of code lengths: its symbols are few.
spec fn small(t: Table) -> bool {
    match t {
        Table::Single(s) => s < 32,
        Table::Canonical(lengths) => lengths.len() <= NT,
    }
}

proof fn lemma_symbols_below(lengths: Seq<nat>, l: nat, n: int)
    ensures
        forall|i: int|
            0 <= i < symbols_below(lengths, l, n).len() ==> #[trigger] symbols_below(lengths, l, n)[i]
                < n,
    decreases n,
{
    if n > 0 {
        lemma_symbols_below(lengths, l, n - 1);
        let shorter = symbols_below(lengths, l, n - 1);
        let all = symbols_below(lengths, l, n);
        assert forall|i: int| 0 <= i < all.len() implies #[trigger] all[i] < n by {
            if i < shorter.len() {
                assert(all[i] == shorter[i]);
            }
        }
    }
}

impl Huffman {
    /// The structure holds the table.
    spec fn holds(self, t: Table) -> bool {
        match t {
            Table::Single(s) => self.only is Some && self.only->0 == s,
            Table::Canonical(lengths) => {
                &&& self.only is None
                &&& self.counts@.len() == 17
                &&& forall|l: int|
                    1 <= l <= 16 ==> #[trigger] self.counts@[l] == symbols_of(
                        lengths,
                        l as nat,
                    ).len()
                &&& as_nats(self.symbols@) == sorted(lengths, 16)
            },
        }
    }

    fn single(sym: u16) -> (h: Self)
        ensures
            h.holds(Table::Single(sym as nat)),
    {
        Huffman { counts: Vec::new(), symbols: Vec::new(), only: Some(sym) }
    }

    fn build(lengths: &Vec<u8>) -> (r: Result<Self, Error>)
        requires
            lengths@.len() <= 0xFFFF,
        ensures
            match (r, canonical(widths(lengths@))) {
                (Ok(h), Ok(t)) => h.holds(t),
                (Err(a), Err(b)) => a == b,
                _ => false,
            },
    {
        let ghost w = widths(lengths@);
        let mut i: usize = 0;
        while i < lengths.len()
            invariant
                i <= lengths@.len(),
                w == widths(lengths@),
                forall|k: int| 0 <= k < i ==> #[trigger] w[k] <= MAX_CODE_LEN,
            decreases lengths@.len() - i,
        {
            if lengths[i] as usize > MAX_CODE_LEN {
                assert(w[i as int] > MAX_CODE_LEN);
                return Err(Error::CodingBadTable);
            }
            i += 1;
        }
        let mut counts: Vec<usize> = Vec::new();
        counts.push(0);
        let mut symbols: Vec<u16> = Vec::new();
        let mut l: usize = 1;
        proof {
            assert(as_nats(symbols@) =~= sorted(w, 0));
        }
        while l <= MAX_CODE_LEN
            invariant
                1 <= l <= 17,
                lengths@.len() <= 0xFFFF,
                w == widths(lengths@),
                counts@.len() == l,
                forall|k: int|
                    1 <= k < l ==> #[trigger] counts@[k] == symbols_of(w, k as nat).len(),
                as_nats(symbols@) == sorted(w, (l - 1) as nat),
            decreases 17 - l,
        {
            let mut n: usize = 0;
            let mut sym: usize = 0;
            let ghost before = as_nats(symbols@);
            proof {
                assert(before + symbols_below(w, l as nat, 0) =~= before);
            }
            while sym < lengths.len()
                invariant
                    sym <= lengths@.len() <= 0xFFFF,
                    w == widths(lengths@),
                    n == symbols_below(w, l as nat, sym as int).len(),
                    n <= sym,
                    as_nats(symbols@) == before + symbols_below(w, l as nat, sym as int),
                decreases lengths@.len() - sym,
            {
                if lengths[sym] as usize == l {
                    let ghost prior = symbols@;
                    symbols.push(sym as u16);
                    n += 1;
                    proof {
                        assert(as_nats(symbols@) =~= as_nats(prior).push(sym as nat));
                        assert(as_nats(symbols@) =~= before + symbols_below(
                            w,
                            l as nat,
                            sym + 1,
                        ));
                    }
                }
                sym += 1;
            }
            counts.push(n);
            l += 1;
        }
        Ok(Huffman { counts, symbols, only: None })
    }

    fn decode(&self, bits: &mut Bits<'_>, t: Ghost<Table>) -> (r: Result<u16, Error>)
        requires
            self.holds(t@),
            old(bits).wf(),
        ensures
            final(bits).wf(),
            final(bits).data@ == old(bits).data@,
            agrees(
                r,
                |v: u16| v as nat,
                final(bits).pos(),
                symbol(t@, old(bits).data@, old(bits).pos()),
            ),
            r matches Ok(v) ==> below(t@, v as nat),
    {
        if let Some(s) = self.only {
            return Ok(s);
        }
        let ghost lengths = t@->Canonical_0;
        let ghost data = bits.data@;
        let ghost p = bits.pos();
        let mut code: u32 = 0;
        let mut first: u32 = 0;
        let mut index: usize = 0;
        let mut len: usize = 1;
        proof {
            vstd::arithmetic::power2::lemma2_to64();
            reveal_with_fuel(first_code, 2);
        }
        while len <= MAX_CODE_LEN
            invariant
                1 <= len <= 17,
                self.holds(t@),
                t@ == Table::Canonical(lengths),
                bits.wf(),
                bits.data@ == data,
                data == old(bits).data@,
                p == old(bits).pos(),
                bits.pos() == p + len - 1,
                p + len - 1 <= 8 * data.len(),
                code == bits_at(data, p, (len - 1) as nat),
                code < vstd::arithmetic::power2::pow2((len - 1) as nat),
                first == first_code(lengths, len as nat),
                first <= 2 * code,
                index == sorted(lengths, (len - 1) as nat).len(),
                symbol(t@, data, p) == symbol_from(lengths, data, p, len as nat),
            decreases 17 - len,
        {
            proof {
                vstd::arithmetic::power2::lemma2_to64();
                vstd::arithmetic::power2::lemma_pow2_unfold(len as nat);
                if len < 16 {
                    vstd::arithmetic::power2::lemma_pow2_strictly_increases(len as nat, 16);
                }
                lemma_sorted_prefix(lengths, len as nat, 16);
            }
            match bits.bit() {
                Ok(b) => {
                    code = 2 * code + b;
                },
                Err(e) => {
                    return Err(e);
                },
            }
            let count: usize = self.counts[len];
            proof {
                assert(sorted(lengths, len as nat).len() == index + count);
                assert(as_nats(self.symbols@).len() == self.symbols.len());
            }
            if ((code - first) as usize) < count {
                let at: usize = index + (code - first) as usize;
                proof {
                    let rank = code - first;
                    assert(sorted(lengths, len as nat)[at as int] == symbols_of(
                        lengths,
                        len as nat,
                    )[rank as int]);
                    assert(as_nats(self.symbols@)[at as int] == self.symbols@[at as int] as nat);
                    lemma_symbols_below(lengths, len as nat, lengths.len() as int);
                }
                return Ok(self.symbols[at]);
            }
            index = index + count;
            first = 2 * (first + count as u32);
            len += 1;
        }
        Err(Error::CodingBadTable)
    }
}

proof fn lemma_sorted_prefix(lengths: Seq<nat>, l: nat, m: nat)
    requires
        l <= m,
    ensures
        sorted(lengths, l).len() <= sorted(lengths, m).len(),
        forall|i: int|
            0 <= i < sorted(lengths, l).len() ==> #[trigger] sorted(lengths, l)[i] == sorted(
                lengths,
                m,
            )[i],
    decreases m,
{
    if l < m {
        lemma_sorted_prefix(lengths, l, (m - 1) as nat);
    }
}

/// Appends `n` zeros to lengths of which there are at most `max`.
fn push_zeros(lengths: &mut Vec<u8>, n: usize, max: usize)
    requires
        old(lengths)@.len() + n <= max,
    ensures
        widths(final(lengths)@) == with_zeros(widths(old(lengths)@), n as int),
        final(lengths)@.len() == old(lengths)@.len() + n,
{
    let mut k: usize = 0;
    let ghost before = widths(lengths@);
    proof {
        assert(with_zeros(before, 0) =~= before);
    }
    while k < n
        invariant
            k <= n,
            lengths@.len() == old(lengths)@.len() + k,
            widths(lengths@) == with_zeros(before, k as int),
        decreases n - k,
    {
        let ghost prior = lengths@;
        lengths.push(0);
        k += 1;
        proof {
            assert(widths(lengths@) =~= widths(prior).push(0));
            assert(with_zeros(before, k as int) =~= with_zeros(before, k - 1).push(0));
        }
    }
}

fn read_length_table(
    bits: &mut Bits<'_>,
    n_max: usize,
    n_bits: u32,
    special: usize,
) -> (r: Result<(Huffman, Ghost<Table>), Error>)
    requires
        old(bits).wf(),
        n_bits <= 5,
        n_max <= 19,
    ensures
        final(bits).wf(),
        final(bits).data@ == old(bits).data@,
        match (
            r,
            length_table(
                old(bits).data@,
                old(bits).pos(),
                n_max as int,
                n_bits as nat,
                special as int,
            ),
        ) {
            (Ok((h, t)), Ok((s, q))) => h.holds(t@) && t@ == s && final(bits).pos() == q && small(
                t@,
            ),
            (Err(a), Err(b)) => a == b,
            _ => false,
        },
{
    let ghost data = bits.data@;
    proof {
        vstd::arithmetic::power2::lemma2_to64();
        if n_bits < 5 {
            vstd::arithmetic::power2::lemma_pow2_strictly_increases(n_bits as nat, 5);
        }
    }
    let n: usize = match bits.bits(n_bits) {
        Ok(v) => v as usize,
        Err(e) => return Err(e),
    };
    if n == 0 {
        let s: u32 = match bits.bits(n_bits) {
            Ok(v) => v,
            Err(e) => return Err(e),
        };
        return Ok((Huffman::single(s as u16), Ghost(Table::Single(s as nat))));
    }
    if n > n_max {
        return Err(Error::CodingBadTable);
    }
    let mut lengths: Vec<u8> = Vec::new();
    let ghost start = bits.pos();
    let ghost want = code_lengths(
        data,
        start,
        n as int,
        n_max as int,
        special as int,
        Seq::empty(),
    );
    proof {
        assert(widths(lengths@) =~= Seq::<nat>::empty());
    }
    while lengths.len() < n
        invariant
            bits.wf(),
            bits.data@ == data,
            n <= n_max <= 19,
            lengths@.len() <= n_max,
            want == code_lengths(
                data,
                bits.pos(),
                n as int,
                n_max as int,
                special as int,
                widths(lengths@),
            ),
            data == old(bits).data@,
            want is Err ==> length_table(
                old(bits).data@,
                old(bits).pos(),
                n_max as int,
                n_bits as nat,
                special as int,
            ) == Err::<(Table, int), Error>(want->Err_0),
        decreases 40 - lengths@.len(),
    {
        let ghost acc = widths(lengths@);
        let ghost p = bits.pos();
        let mut c: u32 = match bits.bits(3) {
            Ok(v) => v,
            Err(e) => return Err(e),
        };
        proof {
            vstd::arithmetic::power2::lemma2_to64();
        }
        if c == 7 {
            let ghost from = bits.pos();
            let mut more: bool = true;
            while more
                invariant
                    bits.wf(),
                    bits.data@ == data,
                    7 <= c <= 16,
                    more ==> unary(data, from, 7) == unary(data, bits.pos(), c as nat),
                    !more ==> unary(data, from, 7) == Ok::<(nat, int), Error>(
                        (c as nat, bits.pos()),
                    ),
                    unary(data, from, 7) is Err ==> want == Err::<(Seq<nat>, int), Error>(
                        unary(data, from, 7)->Err_0,
                    ),
                    data == old(bits).data@,
                    want is Err ==> length_table(
                        old(bits).data@,
                        old(bits).pos(),
                        n_max as int,
                        n_bits as nat,
                        special as int,
                    ) == Err::<(Table, int), Error>(want->Err_0),
                decreases
                        17 - c,
                        (if more {
                            1int
                        } else {
                            0
                        }),
            {
                let b: u32 = match bits.bit() {
                    Ok(v) => v,
                    Err(e) => return Err(e),
                };
                if b == 1 {
                    if c as usize + 1 > MAX_CODE_LEN {
                        return Err(Error::CodingBadTable);
                    }
                    c += 1;
                } else {
                    more = false;
                }
            }
        }
        proof {
            assert(code_length(data, p) == Ok::<(nat, int), Error>((c as nat, bits.pos())));
        }
        lengths.push(c as u8);
        proof {
            assert(widths(lengths@) =~= acc.push(c as nat));
        }
        if lengths.len() == special {
            let skip: u32 = match bits.bits(2) {
                Ok(v) => v,
                Err(e) => return Err(e),
            };
            if lengths.len() + skip as usize > n_max {
                return Err(Error::CodingBadTable);
            }
            push_zeros(&mut lengths, skip as usize, n_max);
        }
    }
    let rest: usize = n_max - lengths.len();
    push_zeros(&mut lengths, rest, n_max);
    match Huffman::build(&lengths) {
        Ok(h) => Ok((h, Ghost(Table::Canonical(widths(lengths@))))),
        Err(e) => Err(e),
    }
}

fn read_main_table(bits: &mut Bits<'_>, lengths_of: &Huffman, t: Ghost<Table>) -> (r: Result<
    (Huffman, Ghost<Table>),
    Error,
>)
    requires
        old(bits).wf(),
        lengths_of.holds(t@),
        small(t@),
    ensures
        final(bits).wf(),
        final(bits).data@ == old(bits).data@,
        match (r, main_table(old(bits).data@, old(bits).pos(), t@)) {
            (Ok((h, u)), Ok((s, q))) => h.holds(u@) && u@ == s && final(bits).pos() == q,
            (Err(a), Err(b)) => a == b,
            _ => false,
        },
{
    let ghost data = bits.data@;
    proof {
        vstd::arithmetic::power2::lemma2_to64();
    }
    let n: usize = match bits.bits(9) {
        Ok(v) => v as usize,
        Err(e) => return Err(e),
    };
    if n == 0 {
        let s: u32 = match bits.bits(9) {
            Ok(v) => v,
            Err(e) => return Err(e),
        };
        return Ok((Huffman::single(s as u16), Ghost(Table::Single(s as nat))));
    }
    if n > NC {
        return Err(Error::CodingBadTable);
    }
    let mut lengths: Vec<u8> = Vec::new();
    let ghost want = main_lengths(data, bits.pos(), n as int, t@, Seq::empty());
    proof {
        assert(widths(lengths@) =~= Seq::<nat>::empty());
    }
    while lengths.len() < n
        invariant
            bits.wf(),
            bits.data@ == data,
            lengths_of.holds(t@),
            small(t@),
            data == old(bits).data@,
            n <= NC,
            lengths@.len() <= NC,
            want == main_lengths(data, bits.pos(), n as int, t@, widths(lengths@)),
            want is Err ==> main_table(old(bits).data@, old(bits).pos(), t@) == Err::<
                (Table, int),
                Error,
            >(want->Err_0),
        decreases NC - lengths@.len(),
    {
        let ghost acc = widths(lengths@);
        let c: u16 = match lengths_of.decode(bits, t) {
            Ok(v) => v,
            Err(e) => return Err(e),
        };
        if c <= 2 {
            let run: usize = if c == 0 {
                1
            } else if c == 1 {
                match bits.bits(4) {
                    Ok(v) => v as usize + 3,
                    Err(e) => return Err(e),
                }
            } else {
                match bits.bits(9) {
                    Ok(v) => v as usize + 20,
                    Err(e) => return Err(e),
                }
            };
            if lengths.len() + run > NC {
                return Err(Error::CodingBadTable);
            }
            push_zeros(&mut lengths, run, NC);
        } else {
            lengths.push((c - 2) as u8);
            proof {
                assert(widths(lengths@) =~= acc.push((c - 2) as nat));
            }
        }
    }
    let rest: usize = NC - lengths.len();
    push_zeros(&mut lengths, rest, NC);
    match Huffman::build(&lengths) {
        Ok(h) => Ok((h, Ghost(Table::Canonical(widths(lengths@))))),
        Err(e) => Err(e),
    }
}

/// The least power of two with `n` zeros, for a distance of `n + 1` bits.
fn power_of_two(n: u32) -> (r: usize)
    requires
        n <= 13,
    ensures
        r == vstd::arithmetic::power2::pow2(n as nat),
        r <= 8192,
{
    let mut r: usize = 1;
    let mut i: u32 = 0;
    proof {
        vstd::arithmetic::power2::lemma2_to64();
    }
    while i < n
        invariant
            i <= n <= 13,
            r == vstd::arithmetic::power2::pow2(i as nat),
            r <= 8192,
        decreases n - i,
    {
        proof {
            vstd::arithmetic::power2::lemma2_to64();
            vstd::arithmetic::power2::lemma_pow2_unfold((i + 1) as nat);
            if i + 1 < 13 {
                vstd::arithmetic::power2::lemma_pow2_strictly_increases((i + 1) as nat, 13);
            }
        }
        r = 2 * r;
        i += 1;
    }
    r
}

fn read_distance(bits: &mut Bits<'_>, dist: &Huffman, t: Ghost<Table>) -> (r: Result<usize, Error>)
    requires
        old(bits).wf(),
        dist.holds(t@),
    ensures
        final(bits).wf(),
        final(bits).data@ == old(bits).data@,
        agrees(
            r,
            |v: usize| v as nat,
            final(bits).pos(),
            distance(old(bits).data@, old(bits).pos(), t@),
        ),
        r matches Ok(v) ==> v < 0x2_0000,
{
    let d: u16 = match dist.decode(bits, t) {
        Ok(v) => v,
        Err(e) => return Err(e),
    };
    if d == 0 {
        return Ok(0);
    }
    if d as usize > NP {
        return Err(Error::CodingBadTable);
    }
    match bits.bits(d as u32 - 1) {
        Ok(low) => Ok(power_of_two(d as u32 - 1) + low as usize),
        Err(e) => Err(e),
    }
}

/// The start of a block as it was read.
struct BlockTables {
    left: u32,
    main: Huffman,
    dist: Huffman,
    main_t: Ghost<Table>,
    dist_t: Ghost<Table>,
}

fn read_block(bits: &mut Bits<'_>) -> (r: Result<BlockTables, Error>)
    requires
        old(bits).wf(),
    ensures
        final(bits).wf(),
        final(bits).data@ == old(bits).data@,
        match (r, block_start(old(bits).data@, old(bits).pos())) {
            (Ok(b), Ok(s)) => {
                &&& b.left == s.left
                &&& b.left > 0
                &&& b.main_t@ == s.main
                &&& b.dist_t@ == s.dist
                &&& b.main.holds(s.main)
                &&& b.dist.holds(s.dist)
                &&& final(bits).pos() == s.p
            },
            (Err(a), Err(b)) => a == b,
            _ => false,
        },
{
    proof {
        reveal(block_start);
    }
    let left: u32 = match bits.bits(16) {
        Ok(v) => v,
        Err(e) => return Err(e),
    };
    if left == 0 {
        return Err(Error::CodingBadTable);
    }
    let (lengths_of, lengths_t) = match read_length_table(bits, NT, 5, 3) {
        Ok(v) => v,
        Err(e) => return Err(e),
    };
    let (main, main_t) = match read_main_table(bits, &lengths_of, lengths_t) {
        Ok(v) => v,
        Err(e) => return Err(e),
    };
    let (dist, dist_t) = match read_length_table(bits, NP, 4, usize::MAX) {
        Ok(v) => v,
        Err(e) => return Err(e),
    };
    Ok(BlockTables { left, main, dist, main_t, dist_t })
}

/// Reads one symbol and appends what it stands for.
fn read_symbol(bits: &mut Bits<'_>, b: &BlockTables, out: &mut Vec<u8>, expanded: usize) -> (r:
    Result<(), Error>)
    requires
        old(bits).wf(),
        b.main.holds(b.main_t@),
        b.dist.holds(b.dist_t@),
        old(out)@.len() < expanded,
    ensures
        final(bits).wf(),
        final(bits).data@ == old(bits).data@,
        match (
            r,
            next_symbol(
                old(bits).data@,
                old(bits).pos(),
                b.main_t@,
                b.dist_t@,
                old(out)@,
                expanded as int,
            ),
        ) {
            (Ok(_), Ok((more, q))) => final(out)@ == more && final(bits).pos() == q,
            (Err(x), Err(y)) => x == y,
            _ => false,
        },
{
    proof {
        reveal(next_symbol);
    }
    let c: usize = match b.main.decode(bits, b.main_t) {
        Ok(v) => v as usize,
        Err(e) => return Err(e),
    };
    if c < 256 {
        out.push(c as u8);
        return Ok(());
    }
    let d: usize = match read_distance(bits, &b.dist, b.dist_t) {
        Ok(v) => v,
        Err(e) => return Err(e),
    };
    if out.len() < d + 1 {
        return Err(Error::CodingBadDistance);
    }
    let len: usize = c - 256 + THRESHOLD;
    let room: usize = expanded - out.len();
    let n: usize = if len < room {
        len
    } else {
        room
    };
    let ghost before = out@;
    let mut k: usize = 0;
    while k < n
        invariant
            k <= n,
            d + 1 <= out@.len(),
            d < 0x2_0000,
            repeated(before, (d + 1) as nat, n as nat) == repeated(
                out@,
                (d + 1) as nat,
                (n - k) as nat,
            ),
        decreases n - k,
    {
        let at: u8 = out[out.len() - (d + 1)];
        out.push(at);
        k += 1;
    }
    Ok(())
}

/// Expands a coded stream to the length the container declared for it.
///
/// The result has exactly `expanded` octets. A stream that ends too soon, a
/// table that cannot be used, a match that points before the start, and a
/// declared length past anything plausible are each their own error.
pub fn decode(data: &[u8], expanded: usize) -> (r: Result<Vec<u8>, Error>)
    ensures
        match (r, decoded(data@, expanded as int)) {
            (Ok(v), Ok(s)) => v@ == s,
            (Err(a), Err(b)) => a == b,
            _ => false,
        },
        r matches Ok(v) ==> v@.len() == expanded,
{
    if expanded > CEILING {
        return Err(Error::CodingAbsurdLength { len: expanded });
    }
    let mut bits = Bits::new(data);
    let mut out: Vec<u8> = Vec::with_capacity(expanded);
    let mut left: u32 = 0;
    let mut b = BlockTables {
        left: 0,
        main: Huffman::single(0),
        dist: Huffman::single(0),
        main_t: Ghost(Table::Single(0)),
        dist_t: Ghost(Table::Single(0)),
    };
    let ghost want = decoded(data@, expanded as int);
    while out.len() < expanded
        invariant
            expanded <= CEILING,
            out@.len() <= expanded,
            bits.wf(),
            bits.data@ == data@,
            b.main.holds(b.main_t@),
            b.dist.holds(b.dist_t@),
            want == decoded(data@, expanded as int),
            want == expand(
                data@,
                bits.pos(),
                left as nat,
                b.main_t@,
                b.dist_t@,
                out@,
                expanded as int,
            ),
        decreases expanded - out@.len(),
    {
        if left == 0 {
            b = match read_block(&mut bits) {
                Ok(v) => v,
                Err(e) => return Err(e),
            };
            left = b.left;
            assert(want == expand(
                data@,
                bits.pos(),
                left as nat,
                b.main_t@,
                b.dist_t@,
                out@,
                expanded as int,
            ));
        }
        proof {
            lemma_next_symbol_grows(
                data@,
                bits.pos(),
                b.main_t@,
                b.dist_t@,
                out@,
                expanded as int,
            );
        }
        match read_symbol(&mut bits, &b, &mut out, expanded) {
            Ok(_) => {},
            Err(e) => return Err(e),
        }
        left -= 1;
    }
    Ok(out)
}

} // verus!
