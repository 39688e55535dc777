//! A small zlib compressor, enough to put bitmaps into PDF and PNG streams.
//!
//! Emits one deflate block with the fixed Huffman code, LZ77 matches found
//! through a hash chain. Not the tightest possible stream, but a page of flat
//! colour or a bilevel scan shrinks by a large factor. A reader of such
//! streams is given as a specification, and every stream the compressor
//! writes is proved to read back as what went in.
use crate::infrastructure::bitseq::{
    bits_value, bytes_bits, code_bits, code_value, lemma_bytes_bits_push, lemma_code_bits_len,
    lemma_code_bits_value, lemma_num_bits_concat, lemma_num_bits_len, lemma_num_bits_low_octet,
    lemma_num_bits_value, lemma_pack_bytes, lemma_pack_keeps_bits, num_bits, pack,
};
use vstd::arithmetic::power2::{
    lemma2_to64, lemma_pow2_adds, lemma_pow2_pos, lemma_pow2_strictly_increases, pow2,
};
use vstd::prelude::*;

verus! {

pub const WINDOW: usize = 32768;

pub const MIN_MATCH: usize = 3;

pub const MAX_MATCH: usize = 258;

pub const HASH_SIZE: usize = 32768;

pub const MAX_CHAIN: usize = 32;

pub const LENGTH_BASE: [u16; 29] = [
    3, 4, 5, 6, 7, 8, 9, 10, 11, 13, 15, 17, 19, 23, 27, 31, 35, 43, 51, 59, 67, 83, 99, 115, 131,
    163, 195, 227, 258,
];

pub const LENGTH_EXTRA: [u8; 29] = [
    0, 0, 0, 0, 0, 0, 0, 0, 1, 1, 1, 1, 2, 2, 2, 2, 3, 3, 3, 3, 4, 4, 4, 4, 5, 5, 5, 5, 0,
];

pub const DIST_BASE: [u16; 30] = [
    1, 2, 3, 4, 5, 7, 9, 13, 17, 25, 33, 49, 65, 97, 129, 193, 257, 385, 513, 769, 1025, 1537,
    2049, 3073, 4097, 6145, 8193, 12289, 16385, 24577,
];

pub const DIST_EXTRA: [u8; 30] = [
    0, 0, 0, 0, 1, 1, 2, 2, 3, 3, 4, 4, 5, 5, 6, 6, 7, 7, 8, 8, 9, 9, 10, 10, 11, 11, 12, 12, 13,
    13,
];

// ---------------------------------------------------------------- checksums

/// The two running sums of Adler-32 over `s`.
pub open spec fn adler_sums(s: Seq<u8>) -> (nat, nat)
    decreases s.len(),
{
    if s.len() == 0 {
        (1, 0)
    } else {
        let (a, b) = adler_sums(s.drop_last());
        let a2 = (a + s.last() as nat) % 65521;
        (a2, (b + a2) % 65521)
    }
}

/// The Adler-32 checksum of `s`.
pub open spec fn adler(s: Seq<u8>) -> nat {
    adler_sums(s).1 * 0x1_0000 + adler_sums(s).0
}

proof fn lemma_adler_range(s: Seq<u8>)
    ensures
        adler_sums(s).0 < 65521,
        adler_sums(s).1 < 65521,
    decreases s.len(),
{
    if s.len() > 0 {
        lemma_adler_range(s.drop_last());
    }
}

pub fn adler32(data: &[u8]) -> (r: u32)
    ensures
        r == adler(data@),
{
    let mut a: u32 = 1;
    let mut b: u32 = 0;
    let mut i: usize = 0;
    while i < data.len()
        invariant
            i <= data@.len(),
            (a as nat, b as nat) == adler_sums(data@.take(i as int)),
            a < 65521,
            b < 65521,
        decreases data@.len() - i,
    {
        proof {
            assert(data@.take(i as int + 1).drop_last() =~= data@.take(i as int));
        }
        a = (a + data[i] as u32) % 65521;
        b = (b + a) % 65521;
        i += 1;
    }
    proof {
        assert(data@.take(i as int) =~= data@);
    }
    b * 0x1_0000 + a
}

/// One bit of the reflected CRC-32 division.
pub open spec fn crc_step(c: u32) -> u32 {
    if c & 1 != 0 {
        (c >> 1) ^ 0xEDB8_8320
    } else {
        c >> 1
    }
}

/// `n` bits of the division.
pub open spec fn crc_steps(c: u32, n: nat) -> u32
    decreases n,
{
    if n == 0 {
        c
    } else {
        crc_step(crc_steps(c, (n - 1) as nat))
    }
}

/// The CRC-32 register after the octets of `s`.
pub open spec fn crc_register(s: Seq<u8>) -> u32
    decreases s.len(),
{
    if s.len() == 0 {
        0xFFFF_FFFF
    } else {
        crc_steps(crc_register(s.drop_last()) ^ (s.last() as u32), 8)
    }
}

/// CRC-32 as PNG uses it.
pub open spec fn crc(s: Seq<u8>) -> u32 {
    !crc_register(s)
}

/// CRC-32 as PNG uses it.
pub fn crc32(data: &[u8]) -> (r: u32)
    ensures
        r == crc(data@),
{
    let mut crc: u32 = 0xFFFF_FFFF;
    let mut i: usize = 0;
    while i < data.len()
        invariant
            i <= data@.len(),
            crc == crc_register(data@.take(i as int)),
        decreases data@.len() - i,
    {
        proof {
            assert(data@.take(i as int + 1).drop_last() =~= data@.take(i as int));
        }
        crc = crc ^ (data[i] as u32);
        let ghost start = crc;
        let mut k: u32 = 0;
        while k < 8
            invariant
                k <= 8,
                crc == crc_steps(start, k as nat),
            decreases 8 - k,
        {
            crc = if crc & 1 != 0 {
                (crc >> 1) ^ 0xEDB8_8320
            } else {
                crc >> 1
            };
            k += 1;
        }
        i += 1;
    }
    proof {
        assert(data@.take(i as int) =~= data@);
    }
    !crc
}

// ------------------------------------------------------------ the bit writer

/// Collects bits into octets, least significant bit first.
struct Bits {
    out: Vec<u8>,
    acc: u64,
    n: u32,
}

impl Bits {
    spec fn wf(self) -> bool {
        self.n < 8 && self.acc < pow2(self.n as nat)
    }

    /// Everything written so far.
    spec fn written(self) -> Seq<bool> {
        bytes_bits(self.out@) + num_bits(self.acc as nat, self.n as nat)
    }

    fn new() -> (b: Self)
        ensures
            b.wf(),
            b.written() == Seq::<bool>::empty(),
    {
        proof {
            lemma2_to64();
        }
        Bits { out: Vec::new(), acc: 0, n: 0 }
    }

    /// Deflate packs bits least-significant first.
    fn put(&mut self, value: u32, width: u32)
        requires
            old(self).wf(),
            width <= 16,
            value < pow2(width as nat),
        ensures
            final(self).wf(),
            final(self).written() == old(self).written() + num_bits(value as nat, width as nat),
    {
        let ghost target = self.written() + num_bits(value as nat, width as nat);
        let ghost n0 = self.n as nat;
        let ghost acc0 = self.acc as nat;
        proof {
            lemma2_to64();
            if n0 < 8 {
                lemma_pow2_strictly_increases(n0, 8);
            }
            if width < 16 {
                lemma_pow2_strictly_increases(width as nat, 16);
            }
            lemma_pow2_adds(n0, width as nat);
            lemma_pow2_pos(n0);
            assert(value * pow2(n0) <= 65536 * 256) by (nonlinear_arith)
                requires
                    value <= 65536,
                    0 < pow2(n0) <= 256,
            ;
            assert(value * pow2(n0) + pow2(n0) <= pow2(n0) * pow2(width as nat))
                by (nonlinear_arith)
                requires
                    value + 1 <= pow2(width as nat),
                    0 < pow2(n0),
            ;
            vstd::bits::lemma_u64_shl_is_mul(value as u64, self.n as u64);
            lemma_num_bits_concat(acc0, n0, value as nat, width as nat);
        }
        self.acc = self.acc + ((value as u64) << (self.n as u64));
        self.n = self.n + width;
        proof {
            assert(self.acc < pow2(self.n as nat));
            assert(self.written() =~= target);
        }
        while self.n >= 8
            invariant
                self.acc < pow2(self.n as nat),
                self.written() == target,
            decreases self.n,
        {
            let ghost before = *self;
            proof {
                lemma2_to64();
                lemma_num_bits_low_octet(self.acc as nat, self.n as nat);
                lemma_bytes_bits_push(self.out@, (self.acc % 256) as u8);
                lemma_pow2_adds(8, (self.n - 8) as nat);
                assert(self.acc / 256 < pow2((self.n - 8) as nat));
            }
            self.out.push((self.acc % 256) as u8);
            self.acc = self.acc / 256;
            self.n = self.n - 8;
            proof {
                assert(self.written() =~= before.written());
            }
        }
    }

    /// Huffman codes go out most-significant bit first.
    fn put_code(&mut self, code: u32, width: u32)
        requires
            old(self).wf(),
            width <= 16,
            code < pow2(width as nat),
        ensures
            final(self).wf(),
            final(self).written() == old(self).written() + code_bits(code as nat, width as nat),
    {
        let mut rev: u32 = 0;
        let mut c: u32 = code;
        let mut i: u32 = 0;
        proof {
            lemma2_to64();
            assert(code_bits(code as nat, width as nat) + num_bits(0, 0) =~= code_bits(
                code as nat,
                width as nat,
            ));
        }
        while i < width
            invariant
                i <= width <= 16,
                rev < pow2(i as nat),
                code_bits(code as nat, width as nat) == code_bits(c as nat, (width - i) as nat)
                    + num_bits(rev as nat, i as nat),
            decreases width - i,
        {
            let ghost m = (width - i) as nat;
            proof {
                lemma2_to64();
                vstd::arithmetic::power2::lemma_pow2_unfold((i + 1) as nat);
                if i + 1 < 16 {
                    lemma_pow2_strictly_increases((i + 1) as nat, 16);
                }
                let r2 = (2 * rev + c % 2) as nat;
                assert(r2 / 2 == rev);
                assert(code_bits(c as nat, m) + num_bits(rev as nat, i as nat) =~= code_bits(
                    (c / 2) as nat,
                    (m - 1) as nat,
                ) + num_bits(r2, (i + 1) as nat));
            }
            rev = 2 * rev + c % 2;
            c = c / 2;
            i += 1;
        }
        proof {
            assert(code_bits(c as nat, 0) + num_bits(rev as nat, width as nat) =~= num_bits(
                rev as nat,
                width as nat,
            ));
        }
        self.put(rev, width);
    }

    /// The octets, the last one filled up with zeros.
    fn finish(self) -> (out: Vec<u8>)
        requires
            self.wf(),
        ensures
            out@ == pack(self.written()),
    {
        let mut out = self.out;
        proof {
            lemma_pack_bytes(self.out@, num_bits(self.acc as nat, self.n as nat));
            lemma_num_bits_len(self.acc as nat, self.n as nat);
            lemma_num_bits_value(self.acc as nat, self.n as nat);
            lemma2_to64();
            lemma_pow2_strictly_increases(self.n as nat, 8);
            assert(self.out@ + Seq::<u8>::empty() =~= self.out@);
        }
        if self.n > 0 {
            out.push((self.acc % 256) as u8);
            proof {
                assert(out@ =~= self.out@ + seq![self.acc as u8]);
            }
        }
        out
    }
}

// ----------------------------------------------------------- the fixed codes

/// The bits of a literal/length symbol in the fixed code.
pub open spec fn symbol_bits(sym: nat) -> Seq<bool> {
    if sym <= 143 {
        code_bits(0x30 + sym, 8)
    } else if sym <= 255 {
        code_bits((0x190 + sym - 144) as nat, 9)
    } else if sym <= 279 {
        code_bits((sym - 256) as nat, 7)
    } else {
        code_bits((0xC0 + sym - 280) as nat, 8)
    }
}

/// The last of the first `n` entries that does not exceed `v`, or the first
/// entry.
pub open spec fn last_at_most(base: Seq<u16>, v: int, n: int) -> int
    decreases n,
{
    if n <= 1 {
        0
    } else if base[n - 1] <= v {
        n - 1
    } else {
        last_at_most(base, v, n - 1)
    }
}

/// The bits of a match length: its symbol, then the extra bits.
pub open spec fn length_bits(len: nat) -> Seq<bool> {
    let i = last_at_most(LENGTH_BASE@, len as int, 29);
    symbol_bits((257 + i) as nat) + num_bits(
        (len - LENGTH_BASE@[i]) as nat,
        LENGTH_EXTRA@[i] as nat,
    )
}

/// The bits of a match distance: its code, then the extra bits.
pub open spec fn distance_bits(dist: nat) -> Seq<bool> {
    let i = last_at_most(DIST_BASE@, dist as int, 30);
    code_bits(i as nat, 5) + num_bits((dist - DIST_BASE@[i]) as nat, DIST_EXTRA@[i] as nat)
}

/// Literal/length symbol in the fixed code.
fn put_symbol(b: &mut Bits, sym: u32)
    requires
        old(b).wf(),
        sym <= 287,
    ensures
        final(b).wf(),
        final(b).written() == old(b).written() + symbol_bits(sym as nat),
{
    proof {
        lemma2_to64();
    }
    if sym <= 143 {
        b.put_code(0x30 + sym, 8);
    } else if sym <= 255 {
        b.put_code(0x190 + (sym - 144), 9);
    } else if sym <= 279 {
        b.put_code(sym - 256, 7);
    } else {
        b.put_code(0xC0 + (sym - 280), 8);
    }
}

proof fn lemma_length_index(len: int)
    requires
        3 <= len <= 258,
    ensures
        ({
            let i = last_at_most(LENGTH_BASE@, len, 29);
            0 <= i < 29 && LENGTH_BASE@[i] <= len && len - LENGTH_BASE@[i] < pow2(
                LENGTH_EXTRA@[i] as nat,
            ) && LENGTH_EXTRA@[i] <= 5
        }),
{
    lemma2_to64();
    reveal_with_fuel(last_at_most, 30);
}

proof fn lemma_distance_index(dist: int)
    requires
        1 <= dist <= 32768,
    ensures
        ({
            let i = last_at_most(DIST_BASE@, dist, 30);
            0 <= i < 30 && DIST_BASE@[i] <= dist && dist - DIST_BASE@[i] < pow2(
                DIST_EXTRA@[i] as nat,
            ) && DIST_EXTRA@[i] <= 13
        }),
{
    lemma2_to64();
    reveal_with_fuel(last_at_most, 31);
}

fn put_length(b: &mut Bits, len: usize)
    requires
        old(b).wf(),
        3 <= len <= 258,
    ensures
        final(b).wf(),
        final(b).written() == old(b).written() + length_bits(len as nat),
{
    let mut i: usize = 28;
    while i > 0 && LENGTH_BASE[i] as usize > len
        invariant
            i < 29,
            last_at_most(LENGTH_BASE@, len as int, 29) == last_at_most(
                LENGTH_BASE@,
                len as int,
                i + 1,
            ),
        decreases i,
    {
        i -= 1;
    }
    proof {
        lemma_length_index(len as int);
        lemma2_to64();
        assert(num_bits((len - LENGTH_BASE@[i as int]) as nat, 0) =~= Seq::<bool>::empty());
    }
    let ghost before = b.written();
    put_symbol(b, 257 + i as u32);
    let extra: u8 = LENGTH_EXTRA[i];
    if extra > 0 {
        b.put((len - LENGTH_BASE[i] as usize) as u32, extra as u32);
    }
    proof {
        assert(b.written() =~= before + length_bits(len as nat));
    }
}

fn put_distance(b: &mut Bits, dist: usize)
    requires
        old(b).wf(),
        1 <= dist <= 32768,
    ensures
        final(b).wf(),
        final(b).written() == old(b).written() + distance_bits(dist as nat),
{
    let mut i: usize = 29;
    while i > 0 && DIST_BASE[i] as usize > dist
        invariant
            i < 30,
            last_at_most(DIST_BASE@, dist as int, 30) == last_at_most(
                DIST_BASE@,
                dist as int,
                i + 1,
            ),
        decreases i,
    {
        i -= 1;
    }
    proof {
        lemma_distance_index(dist as int);
        lemma2_to64();
        assert(num_bits((dist - DIST_BASE@[i as int]) as nat, 0) =~= Seq::<bool>::empty());
    }
    let ghost before = b.written();
    b.put_code(i as u32, 5);
    let extra: u8 = DIST_EXTRA[i];
    if extra > 0 {
        b.put((dist - DIST_BASE[i] as usize) as u32, extra as u32);
    }
    proof {
        assert(b.written() =~= before + distance_bits(dist as nat));
    }
}

// ------------------------------------------------------------- the matches

/// The hash of the three octets at `i`.
pub open spec fn hash_at(d: Seq<u8>, i: int) -> int {
    ((d[i] * 0x1_0000 + d[i + 1] * 0x100 + d[i + 2]) * 0x9E37_79B1) % 0x1_0000_0000 / 0x2_0000
}

/// The last position below `below` whose hash is `h`, or `-1`.
pub open spec fn latest(d: Seq<u8>, h: int, below: int) -> int
    decreases below,
{
    if below <= 0 {
        -1
    } else if hash_at(d, below - 1) == h {
        below - 1
    } else {
        latest(d, h, below - 1)
    }
}

/// How far the octets at `c` and at `i` agree, from `k` on and up to `limit`.
pub open spec fn agree_from(d: Seq<u8>, c: int, i: int, k: int, limit: int) -> int
    decreases limit - k,
{
    if k < limit && d[c + k] == d[i + k] {
        agree_from(d, c, i, k + 1, limit)
    } else {
        k
    }
}

/// The longest match that may start at `i`.
pub open spec fn match_limit(d: Seq<u8>, i: int) -> int {
    if d.len() - i < MAX_MATCH {
        d.len() - i
    } else {
        MAX_MATCH as int
    }
}

/// The positions tried for a match at `i`: the nearest `n` below `below` with
/// the hash `h`, nearest first, ending at the first one outside the window.
pub open spec fn candidates(d: Seq<u8>, h: int, i: int, below: int, n: int) -> Seq<int>
    decreases n,
{
    let c = latest(d, h, below);
    if n <= 0 || c < 0 || i - c > WINDOW {
        Seq::empty()
    } else {
        seq![c] + candidates(d, h, i, c, n - 1)
    }
}

/// The longest match among the candidates, the first of equals, as its length
/// and distance; `(0, 0)` when nothing matches.
pub open spec fn longest(d: Seq<u8>, i: int, cands: Seq<int>) -> (int, int)
    decreases cands.len(),
{
    if cands.len() == 0 {
        (0, 0)
    } else {
        let (len, dist) = longest(d, i, cands.drop_last());
        let m = agree_from(d, cands.last(), i, 0, match_limit(d, i));
        if m > len {
            (m, i - cands.last())
        } else {
            (len, dist)
        }
    }
}

/// The match chosen at `i`.
pub open spec fn best_match(d: Seq<u8>, i: int) -> (int, int) {
    if i + MIN_MATCH <= d.len() {
        longest(d, i, candidates(d, hash_at(d, i), i, i, MAX_CHAIN as int))
    } else {
        (0, 0)
    }
}

/// One step of the compressed stream.
pub enum Token {
    /// One octet as it is.
    Literal(u8),
    /// `len` octets again, from `dist` octets back.
    Again { len: nat, dist: nat },
}

/// The bits of one step.
pub open spec fn token_bits(t: Token) -> Seq<bool> {
    match t {
        Token::Literal(b) => symbol_bits(b as nat),
        Token::Again { len, dist } => length_bits(len) + distance_bits(dist),
    }
}

/// The bits of the steps from `i` to the end of `d`: greedily the chosen match
/// where it is three octets or more, else a literal.
pub open spec fn body_bits(d: Seq<u8>, i: int) -> Seq<bool>
    decreases d.len() - i,
        when 0 <= i
{
    if i >= d.len() {
        Seq::empty()
    } else {
        proof {
            lemma_best_match(d, i);
        }
        let (len, dist) = best_match(d, i);
        if len >= MIN_MATCH {
            token_bits(Token::Again { len: len as nat, dist: dist as nat }) + body_bits(d, i + len)
        } else {
            token_bits(Token::Literal(d[i])) + body_bits(d, i + 1)
        }
    }
}

/// The four octets of `v`, most significant first.
pub open spec fn be32(v: nat) -> Seq<u8> {
    seq![
        (v / 0x100_0000 % 256) as u8,
        (v / 0x1_0000 % 256) as u8,
        (v / 0x100 % 256) as u8,
        (v % 256) as u8,
    ]
}

/// The bits before the steps: the two header octets (deflate, 32K window,
/// default level, no dictionary), then one final block with the fixed code.
pub open spec fn head_bits() -> Seq<bool> {
    num_bits(0x78, 8) + num_bits(0x9C, 8) + num_bits(1, 1) + num_bits(1, 2)
}

/// The zlib stream of `d`.
pub open spec fn zlib_stream(d: Seq<u8>) -> Seq<u8> {
    pack(head_bits() + body_bits(d, 0) + symbol_bits(256)) + be32(adler(d))
}

proof fn lemma_latest(d: Seq<u8>, h: int, below: int)
    ensures
        -1 <= latest(d, h, below) < below || below <= 0,
        latest(d, h, below) >= -1,
        latest(d, h, below) >= 0 ==> hash_at(d, latest(d, h, below)) == h,
    decreases below,
{
    if below > 0 && hash_at(d, below - 1) != h {
        lemma_latest(d, h, below - 1);
    }
}

proof fn lemma_agree(d: Seq<u8>, c: int, i: int, k: int, limit: int)
    requires
        k <= limit,
    ensures
        k <= agree_from(d, c, i, k, limit) <= limit,
        forall|j: int|
            #![trigger d[i + j]]
            k <= j < agree_from(d, c, i, k, limit) ==> d[c + j] == d[i + j],
        agree_from(d, c, i, k, limit) < limit ==> d[c + agree_from(d, c, i, k, limit)] != d[i
            + agree_from(d, c, i, k, limit)],
    decreases limit - k,
{
    if k < limit && d[c + k] == d[i + k] {
        lemma_agree(d, c, i, k + 1, limit);
    }
}

/// What the chosen match is: octets that occurred before, inside the window.
proof fn lemma_longest(d: Seq<u8>, i: int, cands: Seq<int>)
    requires
        0 <= i < d.len(),
        forall|k: int| 0 <= k < cands.len() ==> 0 <= #[trigger] cands[k] < i && i - cands[k]
            <= WINDOW,
    ensures
        ({
            let (len, dist) = longest(d, i, cands);
            &&& 0 <= len <= match_limit(d, i)
            &&& len > 0 ==> 1 <= dist <= WINDOW && dist <= i
            &&& forall|j: int| #![trigger d[i + j]] 0 <= j < len ==> d[i - dist + j] == d[i + j]
        }),
    decreases cands.len(),
{
    if cands.len() > 0 {
        let c = cands.last();
        assert(c == cands[cands.len() - 1]);
        lemma_longest(d, i, cands.drop_last());
        lemma_agree(d, c, i, 0, match_limit(d, i));
        let (len, dist) = longest(d, i, cands);
        let m = agree_from(d, c, i, 0, match_limit(d, i));
        assert forall|j: int| #![trigger d[i + j]] 0 <= j < len implies d[i - dist + j] == d[i
            + j] by {
            if m > longest(d, i, cands.drop_last()).0 {
                assert(d[c + j] == d[i + j]);
                assert(i - dist + j == c + j);
            }
        }
    }
}

proof fn lemma_candidates(d: Seq<u8>, h: int, i: int, below: int, n: int)
    requires
        below <= i,
    ensures
        forall|k: int|
            0 <= k < candidates(d, h, i, below, n).len() ==> 0 <= (#[trigger] candidates(
                d,
                h,
                i,
                below,
                n,
            )[k]) < i && i - candidates(d, h, i, below, n)[k] <= WINDOW,
    decreases n,
{
    let c = latest(d, h, below);
    lemma_latest(d, h, below);
    if !(n <= 0 || c < 0 || i - c > WINDOW) {
        lemma_candidates(d, h, i, c, n - 1);
        let rest = candidates(d, h, i, c, n - 1);
        let all = candidates(d, h, i, below, n);
        assert forall|k: int| 0 <= k < all.len() implies 0 <= (#[trigger] all[k]) < i && i
            - all[k] <= WINDOW by {
            if k > 0 {
                assert(all[k] == rest[k - 1]);
            }
        }
    }
}

/// Nothing after a match of full length is chosen instead of it.
proof fn lemma_longest_full(d: Seq<u8>, i: int, a: Seq<int>, b: Seq<int>)
    requires
        0 <= i < d.len(),
        longest(d, i, a).0 >= match_limit(d, i),
    ensures
        longest(d, i, a + b) == longest(d, i, a),
    decreases b.len(),
{
    if b.len() == 0 {
        assert(a + b =~= a);
    } else {
        lemma_longest_full(d, i, a, b.drop_last());
        assert((a + b).drop_last() =~= a + b.drop_last());
        assert((a + b).last() == b.last());
        lemma_agree(d, b.last(), i, 0, match_limit(d, i));
    }
}

/// The chosen match repeats octets that occurred before, inside the window.
pub proof fn lemma_best_match(d: Seq<u8>, i: int)
    requires
        0 <= i < d.len(),
    ensures
        ({
            let (len, dist) = best_match(d, i);
            &&& 0 <= len <= match_limit(d, i)
            &&& len > 0 ==> 1 <= dist <= WINDOW && dist <= i
            &&& forall|j: int| #![trigger d[i + j]] 0 <= j < len ==> d[i - dist + j] == d[i + j]
        }),
{
    if i + MIN_MATCH <= d.len() {
        lemma_candidates(d, hash_at(d, i), i, i, MAX_CHAIN as int);
        lemma_longest(d, i, candidates(d, hash_at(d, i), i, i, MAX_CHAIN as int));
    }
}

fn hash(d: &[u8], at: usize) -> (h: usize)
    requires
        at + 2 < d@.len(),
    ensures
        h == hash_at(d@, at as int),
        h < HASH_SIZE,
{
    let v: u32 = d[at] as u32 * 0x1_0000 + d[at + 1] as u32 * 0x100 + d[at + 2] as u32;
    let p: u64 = v as u64 * 0x9E37_79B1;
    (p % 0x1_0000_0000 / 0x2_0000) as usize
}

/// A position as it is stored: `usize::MAX` stands for none.
spec fn stored(c: int) -> usize {
    if c < 0 {
        usize::MAX
    } else {
        c as usize
    }
}

/// How many positions before `i` have a hash.
spec fn hashed(n: int, i: int) -> int {
    if i + 2 <= n {
        i
    } else if n >= 2 {
        n - 2
    } else {
        0
    }
}

/// `head` holds the latest position of each hash before `i`, and `prev` links
/// each position to the one before it with the same hash.
spec fn chains(d: Seq<u8>, head: Seq<usize>, prev: Seq<usize>, i: int) -> bool {
    &&& head.len() == HASH_SIZE
    &&& prev.len() == d.len()
    &&& d.len() <= usize::MAX
    &&& forall|h: int|
        0 <= h < HASH_SIZE ==> #[trigger] head[h] == stored(latest(d, h, hashed(d.len() as int, i)))
    &&& forall|c: int|
        0 <= c < hashed(d.len() as int, i) ==> #[trigger] prev[c] == stored(
            latest(d, hash_at(d, c), c),
        )
}

/// Enters the position `at` into the chains.
fn enter(data: &[u8], head: &mut Vec<usize>, prev: &mut Vec<usize>, at: usize)
    requires
        at < data@.len(),
        chains(data@, old(head)@, old(prev)@, at as int),
    ensures
        chains(data@, final(head)@, final(prev)@, at + 1),
{
    if data.len() - at >= MIN_MATCH {
        let h: usize = hash(data, at);
        let last: usize = head[h];
        prev[at] = last;
        head[h] = at;
        proof {
            let d = data@;
            assert forall|g: int| 0 <= g < HASH_SIZE implies #[trigger] head@[g] == stored(
                latest(d, g, hashed(d.len() as int, at + 1)),
            ) by {
                assert(hashed(d.len() as int, at + 1) == at + 1);
            }
        }
    }
}

/// The match chosen at `i`, as its length and distance.
fn choose_match(data: &[u8], head: &Vec<usize>, prev: &Vec<usize>, i: usize) -> (r: (usize, usize))
    requires
        i + MIN_MATCH <= data@.len(),
        chains(data@, head@, prev@, i as int),
    ensures
        (r.0 as int, r.1 as int) == best_match(data@, i as int),
{
    let h: usize = hash(data, i);
    let limit: usize = if data.len() - i < MAX_MATCH {
        data.len() - i
    } else {
        MAX_MATCH
    };
    let mut cand: usize = head[h];
    let mut chain: usize = 0;
    let mut best_len: usize = 0;
    let mut best_dist: usize = 0;
    let ghost mut done: Seq<int> = Seq::empty();
    let ghost mut below: int = i as int;
    let ghost total = candidates(data@, h as int, i as int, i as int, MAX_CHAIN as int);
    proof {
        assert(done + total =~= total);
        lemma_latest(data@, h as int, i as int);
    }
    while cand != usize::MAX && chain < MAX_CHAIN && i - cand <= WINDOW
        invariant
            i + MIN_MATCH <= data.len(),
            chains(data@, head@, prev@, i as int),
            h == hash_at(data@, i as int),
            limit == match_limit(data@, i as int),
            chain <= MAX_CHAIN,
            0 <= below <= i,
            cand == stored(latest(data@, h as int, below)),
            total == done + candidates(data@, h as int, i as int, below, MAX_CHAIN - chain),
            total == candidates(data@, h as int, i as int, i as int, MAX_CHAIN as int),
            (best_len as int, best_dist as int) == longest(data@, i as int, done),
            best_len < limit,
            cand != usize::MAX ==> cand < i,
        decreases MAX_CHAIN - chain,
    {
        let ghost c = latest(data@, h as int, below);
        proof {
            lemma_latest(data@, h as int, below);
            lemma_agree(data@, cand as int, i as int, 0, limit as int);
            assert(done.push(c).drop_last() =~= done);
            assert(done + (seq![c] + candidates(data@, h as int, i as int, c, MAX_CHAIN - chain - 1))
                =~= done.push(c) + candidates(
                data@,
                h as int,
                i as int,
                c,
                MAX_CHAIN - chain - 1,
            ));
        }
        if data[cand + best_len] == data[i + best_len] {
            let mut len: usize = 0;
            while len < limit && data[cand + len] == data[i + len]
                invariant
                    len <= limit,
                    cand < i,
                    i + limit <= data.len(),
                    agree_from(data@, cand as int, i as int, 0, limit as int) == agree_from(
                        data@,
                        cand as int,
                        i as int,
                        len as int,
                        limit as int,
                    ),
                decreases limit - len,
            {
                len += 1;
            }
            if len > best_len {
                best_len = len;
                best_dist = i - cand;
                if len == limit {
                    proof {
                        lemma_longest_full(
                            data@,
                            i as int,
                            done.push(c),
                            candidates(data@, h as int, i as int, c, MAX_CHAIN - chain - 1),
                        );
                    }
                    return (best_len, best_dist);
                }
            }
        } else {
            proof {
                let m = agree_from(data@, cand as int, i as int, 0, limit as int);
                if m > best_len {
                    assert(data@[cand + best_len] == data@[i + best_len]);
                }
            }
        }
        proof {
            lemma_latest(data@, h as int, c);
            done = done.push(c);
            below = c;
        }
        cand = prev[cand];
        chain += 1;
    }
    proof {
        lemma_latest(data@, h as int, below);
        assert(done + Seq::<int>::empty() =~= done);
    }
    (best_len, best_dist)
}

/// Compress `data` into a zlib stream.
pub fn zlib(data: &[u8]) -> (out: Vec<u8>)
    ensures
        out@ == zlib_stream(data@),
{
    let mut b = Bits::new();
    proof {
        lemma2_to64();
    }
    b.put(0x78, 8);
    b.put(0x9C, 8);
    b.put(1, 1);
    b.put(1, 2);
    proof {
        assert(b.written() =~= head_bits());
    }
    let mut head: Vec<usize> = vec![usize::MAX; HASH_SIZE];
    let mut prev: Vec<usize> = vec![usize::MAX; data.len()];
    let mut i: usize = 0;
    let ghost goal = head_bits() + body_bits(data@, 0);
    proof {
        assert(hashed(data@.len() as int, 0) <= 0);
    }
    while i < data.len()
        invariant
            i <= data.len(),
            b.wf(),
            chains(data@, head@, prev@, i as int),
            goal == b.written() + body_bits(data@, i as int),
        decreases data.len() - i,
    {
        let mut best_len: usize = 0;
        let mut best_dist: usize = 0;
        if data.len() - i >= MIN_MATCH {
            let found = choose_match(data, &head, &prev, i);
            best_len = found.0;
            best_dist = found.1;
        }
        proof {
            lemma_best_match(data@, i as int);
        }
        let ghost before = b.written();
        enter(data, &mut head, &mut prev, i);
        if best_len >= MIN_MATCH {
            put_length(&mut b, best_len);
            put_distance(&mut b, best_dist);
            // The skipped positions are entered too, so later matches can
            // start inside this one.
            let mut k: usize = 1;
            while k < best_len
                invariant
                    1 <= k <= best_len,
                    i + best_len <= data.len(),
                    chains(data@, head@, prev@, i + k),
                decreases best_len - k,
            {
                enter(data, &mut head, &mut prev, i + k);
                k += 1;
            }
            proof {
                assert(b.written() + body_bits(data@, i + best_len) =~= before + body_bits(
                    data@,
                    i as int,
                ));
            }
            i += best_len;
        } else {
            put_symbol(&mut b, data[i] as u32);
            proof {
                assert(b.written() + body_bits(data@, i + 1) =~= before + body_bits(
                    data@,
                    i as int,
                ));
            }
            i += 1;
        }
    }
    proof {
        assert(b.written() + body_bits(data@, i as int) =~= b.written());
    }
    put_symbol(&mut b, 256);
    let mut out = b.finish();
    let sum: u32 = adler32(data);
    let ghost packed = out@;
    out.push((sum / 0x100_0000 % 256) as u8);
    out.push((sum / 0x1_0000 % 256) as u8);
    out.push((sum / 0x100 % 256) as u8);
    out.push((sum % 256) as u8);
    proof {
        assert(out@ =~= packed + be32(adler(data@)));
    }
    out
}

// -------------------------------------------------------------- reading back

/// Reads one literal/length symbol of the fixed code: the symbol and the bits
/// after it.
pub open spec fn read_symbol(s: Seq<bool>) -> Option<(nat, Seq<bool>)> {
    if s.len() < 7 {
        None
    } else if code_value(s.take(7)) <= 23 {
        Some((code_value(s.take(7)) + 256, s.skip(7)))
    } else if s.len() < 8 {
        None
    } else if code_value(s.take(8)) <= 191 {
        Some(((code_value(s.take(8)) - 48) as nat, s.skip(8)))
    } else if code_value(s.take(8)) <= 199 {
        Some(((code_value(s.take(8)) - 192 + 280) as nat, s.skip(8)))
    } else if s.len() < 9 {
        None
    } else {
        Some(((code_value(s.take(9)) - 400 + 144) as nat, s.skip(9)))
    }
}

/// Reads a number of `w` bits: the number and the bits after it.
pub open spec fn read_number(s: Seq<bool>, w: nat) -> Option<(nat, Seq<bool>)> {
    if s.len() < w {
        None
    } else {
        Some((bits_value(s.take(w as int)), s.skip(w as int)))
    }
}

/// Reads what follows a length symbol: the length, the distance and the bits
/// after them.
pub open spec fn read_again(sym: nat, s: Seq<bool>) -> Option<(nat, nat, Seq<bool>)> {
    let i = sym - 257;
    if i >= 29 {
        None
    } else {
        match read_number(s, LENGTH_EXTRA@[i] as nat) {
            None => None,
            Some((more, s2)) => if s2.len() < 5 {
                None
            } else {
                let k = code_value(s2.take(5)) as int;
                if k >= 30 {
                    None
                } else {
                    match read_number(s2.skip(5), DIST_EXTRA@[k] as nat) {
                        None => None,
                        Some((far, s3)) => Some(
                            (LENGTH_BASE@[i] as nat + more, DIST_BASE@[k] as nat + far, s3),
                        ),
                    }
                }
            },
        }
    }
}

/// `out` followed by `len` octets, each repeated from `dist` octets back.
pub open spec fn repeated(out: Seq<u8>, dist: nat, len: nat) -> Seq<u8>
    decreases len,
{
    if len == 0 {
        out
    } else {
        repeated(out.push(out[out.len() - dist]), dist, (len - 1) as nat)
    }
}

/// Reads symbols up to the end of the block, after `out` has been read.
pub open spec fn inflate_block(s: Seq<bool>, out: Seq<u8>) -> Option<Seq<u8>>
    decreases s.len(),
{
    match read_symbol(s) {
        None => None,
        Some((sym, rest)) => if sym < 256 {
            inflate_block(rest, out.push(sym as u8))
        } else if sym == 256 {
            Some(out)
        } else {
            match read_again(sym, rest) {
                None => None,
                Some((len, dist, after)) => if dist > out.len() || after.len() >= s.len() {
                    None
                } else {
                    inflate_block(after, repeated(out, dist, len))
                },
            }
        },
    }
}

/// Reads a zlib stream that holds one final block with the fixed code: the
/// header octets, the block, and the checksum of what was read.
pub open spec fn inflate(z: Seq<u8>) -> Option<Seq<u8>> {
    if z.len() < 6 || z[0] != 0x78 || z[1] != 0x9C {
        None
    } else {
        let s = bytes_bits(z.subrange(2, z.len() - 4));
        if s.len() < 3 || bits_value(s.take(1)) != 1 || bits_value(s.subrange(1, 3)) != 1 {
            None
        } else {
            match inflate_block(s.skip(3), Seq::empty()) {
                None => None,
                Some(out) => if z.skip(z.len() - 4) == be32(adler(out)) {
                    Some(out)
                } else {
                    None
                },
            }
        }
    }
}

proof fn lemma_code_bits_take(v: nat, w: nat, k: nat)
    requires
        k <= w,
    ensures
        code_bits(v, w).take(k as int) == code_bits(v / pow2((w - k) as nat), k),
    decreases w,
{
    lemma_code_bits_len(v, w);
    lemma2_to64();
    if k == w {
        assert(v / 1 == v);
        assert(code_bits(v, w).take(k as int) =~= code_bits(v, w));
    } else {
        lemma_code_bits_take(v / 2, (w - 1) as nat, k);
        lemma_code_bits_len(v / 2, (w - 1) as nat);
        assert(code_bits(v, w).take(k as int) =~= code_bits(v / 2, (w - 1) as nat).take(k as int));
        vstd::arithmetic::power2::lemma_pow2_unfold((w - k) as nat);
        lemma_pow2_pos((w - 1 - k) as nat);
        vstd::arithmetic::div_mod::lemma_div_denominator(
            v as int,
            2,
            pow2((w - 1 - k) as nat) as int,
        );
    }
}

proof fn lemma_read_symbol(sym: nat, rest: Seq<bool>)
    requires
        sym <= 287,
    ensures
        read_symbol(symbol_bits(sym) + rest) == Some((sym, rest)),
        symbol_bits(sym).len() >= 7,
{
    lemma2_to64();
    let s = symbol_bits(sym) + rest;
    let (c, w): (nat, nat) = if sym <= 143 {
        (0x30 + sym, 8)
    } else if sym <= 255 {
        ((0x190 + sym - 144) as nat, 9)
    } else if sym <= 279 {
        ((sym - 256) as nat, 7)
    } else {
        ((0xC0 + sym - 280) as nat, 8)
    };
    lemma_code_bits_len(c, w);
    lemma_code_bits_value(c, w);
    assert(s.take(w as int) =~= code_bits(c, w));
    assert(s.skip(w as int) =~= rest);
    if w == 8 {
        lemma_code_bits_take(c, 8, 7);
        assert(c / pow2(1) == c / 2);
        assert(s.take(7) =~= code_bits(c, 8).take(7));
        lemma_code_bits_value(c / 2, 7);
    }
    if w == 9 {
        lemma_code_bits_take(c, 9, 7);
        assert(c / pow2(2) == c / 4);
        assert(s.take(7) =~= code_bits(c, 9).take(7));
        lemma_code_bits_value(c / 4, 7);
        lemma_code_bits_take(c, 9, 8);
        assert(c / pow2(1) == c / 2);
        assert(s.take(8) =~= code_bits(c, 9).take(8));
        lemma_code_bits_value(c / 2, 8);
    }
}

proof fn lemma_read_number(v: nat, w: nat, rest: Seq<bool>)
    requires
        v < pow2(w),
    ensures
        read_number(num_bits(v, w) + rest, w) == Some((v, rest)),
{
    lemma_num_bits_len(v, w);
    lemma_num_bits_value(v, w);
    assert((num_bits(v, w) + rest).take(w as int) =~= num_bits(v, w));
    assert((num_bits(v, w) + rest).skip(w as int) =~= rest);
}

proof fn lemma_read_again(len: nat, dist: nat, rest: Seq<bool>)
    requires
        3 <= len <= 258,
        1 <= dist <= 32768,
    ensures
        ({
            let i = last_at_most(LENGTH_BASE@, len as int, 29);
            let tail = num_bits((len - LENGTH_BASE@[i]) as nat, LENGTH_EXTRA@[i] as nat)
                + distance_bits(dist) + rest;
            &&& 0 <= i < 29
            &&& read_again((257 + i) as nat, tail) == Some((len, dist, rest))
            &&& token_bits(Token::Again { len, dist }) + rest == symbol_bits((257 + i) as nat)
                + tail
            &&& rest.len() < tail.len()
        }),
{
    lemma2_to64();
    lemma_length_index(len as int);
    lemma_distance_index(dist as int);
    let i = last_at_most(LENGTH_BASE@, len as int, 29);
    let k = last_at_most(DIST_BASE@, dist as int, 30);
    let more = (len - LENGTH_BASE@[i]) as nat;
    let far = (dist - DIST_BASE@[k]) as nat;
    let lw = LENGTH_EXTRA@[i] as nat;
    let dw = DIST_EXTRA@[k] as nat;
    let s3 = num_bits(far, dw) + rest;
    let s2 = code_bits(k as nat, 5) + s3;
    let tail = num_bits(more, lw) + distance_bits(dist) + rest;
    assert(tail =~= num_bits(more, lw) + s2);
    lemma_read_number(more, lw, s2);
    lemma_code_bits_len(k as nat, 5);
    lemma_code_bits_value(k as nat, 5);
    assert(s2.take(5) =~= code_bits(k as nat, 5));
    assert(s2.skip(5) =~= s3);
    lemma_read_number(far, dw, rest);
    assert(token_bits(Token::Again { len, dist }) + rest =~= symbol_bits((257 + i) as nat) + tail);
}

/// Repeating octets that were found again gives the data itself.
proof fn lemma_repeated(d: Seq<u8>, i: int, dist: nat, len: nat)
    requires
        0 <= i,
        i + len <= d.len(),
        1 <= dist <= i,
        forall|j: int| #![trigger d[i + j]] 0 <= j < len ==> d[i - dist + j] == d[i + j],
    ensures
        repeated(d.take(i), dist, len) == d.take(i + len),
    decreases len,
{
    if len > 0 {
        assert(d[i + 0] == d[i - dist + 0]);
        assert(d.take(i).push(d[i - dist]) =~= d.take(i + 1));
        assert forall|j: int| #![trigger d[i + 1 + j]] 0 <= j < len - 1 implies d[i + 1 - dist + j]
            == d[i + 1 + j] by {
            assert(d[i + (1 + j)] == d[i - dist + (1 + j)]);
        }
        lemma_repeated(d, i + 1, dist, (len - 1) as nat);
    }
}

#[verifier::rlimit(80)]
#[verifier::spinoff_prover]
proof fn lemma_inflate_body(d: Seq<u8>, i: int, fill: Seq<bool>)
    requires
        0 <= i <= d.len(),
    ensures
        inflate_block(body_bits(d, i) + symbol_bits(256) + fill, d.take(i)) == Some(d),
    decreases d.len() - i,
{
    let s = body_bits(d, i) + symbol_bits(256) + fill;
    if i >= d.len() {
        assert(s =~= symbol_bits(256) + fill);
        lemma_read_symbol(256, fill);
        assert(d.take(i) =~= d);
    } else {
        lemma_best_match(d, i);
        let (len, dist) = best_match(d, i);
        if len >= MIN_MATCH {
            let rest = body_bits(d, i + len) + symbol_bits(256) + fill;
            let t = Token::Again { len: len as nat, dist: dist as nat };
            assert(s =~= token_bits(t) + rest);
            lemma_read_again(len as nat, dist as nat, rest);
            let k = last_at_most(LENGTH_BASE@, len, 29);
            let tail = num_bits((len - LENGTH_BASE@[k]) as nat, LENGTH_EXTRA@[k] as nat)
                + distance_bits(dist as nat) + rest;
            lemma_read_symbol((257 + k) as nat, tail);
            lemma_repeated(d, i, dist as nat, len as nat);
            lemma_inflate_body(d, i + len, fill);
        } else {
            let rest = body_bits(d, i + 1) + symbol_bits(256) + fill;
            assert(s =~= symbol_bits(d[i] as nat) + rest);
            lemma_read_symbol(d[i] as nat, rest);
            assert(d.take(i).push(d[i]) =~= d.take(i + 1));
            lemma_inflate_body(d, i + 1, fill);
        }
    }
}

/// Whatever is compressed comes back: the stream of `d` reads as `d`, with the
/// header octets in front and the checksum of `d` at the end.
pub proof fn law_zlib_round_trip(d: Seq<u8>)
    ensures
        inflate(zlib_stream(d)) == Some(d),
        zlib_stream(d).take(2) == seq![0x78u8, 0x9Cu8],
{
    lemma2_to64();
    let body = body_bits(d, 0) + symbol_bits(256);
    let block = num_bits(1, 1) + num_bits(1, 2) + body;
    let head = seq![0x78u8, 0x9Cu8];
    reveal_with_fuel(bytes_bits, 3);
    assert(head.drop_first() =~= seq![0x9Cu8]);
    assert(head.drop_first().drop_first() =~= Seq::<u8>::empty());
    assert(bytes_bits(head) =~= num_bits(0x78, 8) + num_bits(0x9C, 8));
    assert(head_bits() + body_bits(d, 0) + symbol_bits(256) =~= bytes_bits(head) + block);
    lemma_pack_bytes(head, block);
    let packed = pack(block);
    let z = zlib_stream(d);
    assert(z =~= head + packed + be32(adler(d)));
    assert(z.take(2) =~= head);
    lemma_num_bits_len(1, 1);
    lemma_num_bits_len(1, 2);
    lemma_num_bits_value(1, 1);
    lemma_num_bits_value(1, 2);
    lemma_pack_keeps_bits(block);
    lemma_read_symbol(256, Seq::empty());
    let s = bytes_bits(packed);
    assert(z.subrange(2, z.len() - 4) =~= packed);
    assert(z.skip(z.len() - 4) =~= be32(adler(d)));
    let fill = s.skip(block.len() as int);
    assert(block =~= s.take(block.len() as int));
    assert(s =~= block + fill);
    assert(s.take(1) =~= num_bits(1, 1));
    assert(s.subrange(1, 3) =~= num_bits(1, 2));
    assert(s.skip(3) =~= body + fill);
    lemma_inflate_body(d, 0, fill);
    assert(d.take(0) =~= Seq::<u8>::empty());
}

} // verus!
