//! Octets as text.
use vstd::prelude::*;
use vstd::string::*;

verus! {

/// The character of six bits.
pub open spec fn sextet(v: int) -> char {
    if v < 26 {
        ('A' as int + v) as char
    } else if v < 52 {
        ('a' as int + v - 26) as char
    } else if v < 62 {
        ('0' as int + v - 52) as char
    } else if v == 62 {
        '+'
    } else {
        '/'
    }
}

/// The four characters of three octets, of which the last `3 - n` are missing.
pub open spec fn quad(a: u8, b: u8, c: u8, n: int) -> Seq<char> {
    let v = a as int * 0x1_0000 + b as int * 0x100 + c as int;
    seq![
        sextet(v / 0x4_0000),
        sextet(v / 0x1000 % 64),
        if n < 2 {
            '='
        } else {
            sextet(v / 64 % 64)
        },
        if n < 3 {
            '='
        } else {
            sextet(v % 64)
        },
    ]
}

/// The octet at `i`; zero where there is none.
pub open spec fn octet_or_zero(d: Seq<u8>, i: int) -> u8 {
    if 0 <= i < d.len() {
        d[i]
    } else {
        0
    }
}

/// The octets from `i` on, in standard base64 with padding.
pub open spec fn base64_from(d: Seq<u8>, i: int) -> Seq<char>
    decreases d.len() + 2 - i,
{
    if i < 0 || i >= d.len() {
        Seq::empty()
    } else {
        quad(d[i], octet_or_zero(d, i + 1), octet_or_zero(d, i + 2), d.len() - i) + base64_from(
            d,
            i + 3,
        )
    }
}

/// Octets in standard base64 with padding.
pub open spec fn base64(d: Seq<u8>) -> Seq<char> {
    base64_from(d, 0)
}

fn sextet_char(v: u32) -> (c: char)
    requires
        v < 64,
    ensures
        c == sextet(v as int),
{
    if v < 26 {
        (0x41 + v as u8) as char
    } else if v < 52 {
        (0x61 + (v - 26) as u8) as char
    } else if v < 62 {
        (0x30 + (v - 52) as u8) as char
    } else if v == 62 {
        '+'
    } else {
        '/'
    }
}

fn push_quad(out: &mut String, a: u8, b: u8, c: u8, n: usize)
    ensures
        final(out)@ == old(out)@ + quad(a, b, c, n as int),
{
    let v: u32 = a as u32 * 0x1_0000 + b as u32 * 0x100 + c as u32;
    out.push(sextet_char(v / 0x4_0000));
    out.push(sextet_char(v / 0x1000 % 64));
    if n < 2 {
        out.push('=');
    } else {
        out.push(sextet_char(v / 64 % 64));
    }
    if n < 3 {
        out.push('=');
    } else {
        out.push(sextet_char(v % 64));
    }
    proof {
        assert(out@ =~= old(out)@ + quad(a, b, c, n as int));
    }
}

/// Standard base64 with padding.
pub fn b64(data: &[u8]) -> (out: String)
    ensures
        out@ == base64(data@),
{
    let mut out = String::new();
    let n: usize = data.len();
    let mut i: usize = 0;
    proof {
        assert(out@ + base64_from(data@, 0) =~= base64(data@));
    }
    while n - i >= 3
        invariant
            i <= n,
            n == data@.len(),
            out@ + base64_from(data@, i as int) == base64(data@),
        decreases n - i,
    {
        let ghost before = out@;
        push_quad(&mut out, data[i], data[i + 1], data[i + 2], 3);
        proof {
            assert(quad(data@[i as int], data@[i + 1], data@[i + 2], 3) =~= quad(
                data@[i as int],
                data@[i + 1],
                data@[i + 2],
                n - i,
            ));
            assert(out@ + base64_from(data@, i + 3) =~= before + base64_from(data@, i as int));
        }
        i += 3;
    }
    if i < n {
        let b: u8 = if n - i > 1 {
            data[i + 1]
        } else {
            0
        };
        push_quad(&mut out, data[i], b, 0, n - i);
        proof {
            assert(base64_from(data@, i + 3) =~= Seq::empty());
            assert(out@ =~= base64(data@));
        }
    } else {
        proof {
            assert(out@ =~= base64(data@));
        }
    }
    out
}

/// The six bits of a character.
pub open spec fn bits_of(c: char) -> int {
    if 'A' <= c && c <= 'Z' {
        c as int - 'A' as int
    } else if 'a' <= c && c <= 'z' {
        c as int - 'a' as int + 26
    } else if '0' <= c && c <= '9' {
        c as int - '0' as int + 52
    } else if c == '+' {
        62
    } else {
        63
    }
}

/// What a reader makes of base64 from `i` on.
pub open spec fn read_base64(t: Seq<char>, i: int) -> Seq<u8>
    decreases t.len() - i,
{
    if i < 0 || i + 4 > t.len() {
        Seq::empty()
    } else {
        let (p, q) = (bits_of(t[i]), bits_of(t[i + 1]));
        let first = (p * 4 + q / 16) as u8;
        if t[i + 2] == '=' {
            seq![first] + read_base64(t, i + 4)
        } else {
            let r = bits_of(t[i + 2]);
            let second = (q % 16 * 16 + r / 4) as u8;
            if t[i + 3] == '=' {
                seq![first, second] + read_base64(t, i + 4)
            } else {
                let s = bits_of(t[i + 3]);
                seq![first, second, (r % 4 * 64 + s) as u8] + read_base64(t, i + 4)
            }
        }
    }
}

proof fn lemma_sextet(v: int)
    requires
        0 <= v < 64,
    ensures
        bits_of(sextet(v)) == v,
        sextet(v) != '=',
{
}

proof fn lemma_octets(a: u8, b: u8, c: u8)
    ensures
        ({
            let v = a as int * 0x1_0000 + b as int * 0x100 + c as int;
            &&& 0 <= v / 0x4_0000 < 64
            &&& v / 0x4_0000 * 4 + v / 0x1000 % 64 / 16 == a
            &&& v / 0x1000 % 64 % 16 * 16 + v / 64 % 64 / 4 == b
            &&& v / 64 % 64 % 4 * 64 + v % 64 == c
        }),
{
    let v: u32 = (a as u32 * 0x1_0000 + b as u32 * 0x100 + c as u32) as u32;
    let (x, y, z) = (a as u32, b as u32, c as u32);
    assert(v / 0x4_0000 < 64 && v / 0x4_0000 * 4 + v / 0x1000 % 64 / 16 == x && v / 0x1000 % 64
        % 16 * 16 + v / 64 % 64 / 4 == y && v / 64 % 64 % 4 * 64 + v % 64 == z) by (bit_vector)
        requires
            v == x * 0x1_0000 + y * 0x100 + z,
            x < 256,
            y < 256,
            z < 256,
    ;
}

proof fn lemma_read_from(t: Seq<char>, front: Seq<char>, i: int)
    requires
        i >= front.len(),
    ensures
        read_base64(front + t, i) == read_base64(t, i - front.len()),
    decreases front.len() + t.len() - i,
{
    let all = front + t;
    let k = i - front.len();
    if i + 4 <= all.len() {
        lemma_read_from(t, front, i + 4);
        assert(all[i] == t[k] && all[i + 1] == t[k + 1] && all[i + 2] == t[k + 2] && all[i + 3]
            == t[k + 3]);
    }
}

proof fn lemma_reads_back(d: Seq<u8>, i: int)
    requires
        0 <= i <= d.len(),
    ensures
        read_base64(base64_from(d, i), 0) == d.skip(i),
    decreases d.len() - i,
{
    if i == d.len() {
        assert(d.skip(i) =~= Seq::<u8>::empty());
    } else {
        let (a, b, c) = (d[i], octet_or_zero(d, i + 1), octet_or_zero(d, i + 2));
        let n = d.len() - i;
        let v = a as int * 0x1_0000 + b as int * 0x100 + c as int;
        let head = quad(a, b, c, n);
        let rest = base64_from(d, i + 3);
        let t = base64_from(d, i);
        lemma_octets(a, b, c);
        lemma_sextet(v / 0x4_0000);
        lemma_sextet(v / 0x1000 % 64);
        lemma_sextet(v / 64 % 64);
        lemma_sextet(v % 64);
        lemma_read_from(rest, head, 4);
        assert(t =~= head + rest);
        assert(t[0] == head[0] && t[1] == head[1] && t[2] == head[2] && t[3] == head[3]);
        if n >= 3 {
            lemma_reads_back(d, i + 3);
            assert(read_base64(t, 0) =~= seq![a, b, c] + d.skip(i + 3));
            assert(d.skip(i) =~= seq![a, b, c] + d.skip(i + 3));
        } else {
            assert(rest =~= Seq::empty());
            assert(read_base64(rest, 0) =~= Seq::empty());
            if n == 2 {
                assert(read_base64(t, 0) =~= seq![a, b]);
                assert(d.skip(i) =~= seq![a, b]);
            } else {
                assert(read_base64(t, 0) =~= seq![a]);
                assert(d.skip(i) =~= seq![a]);
            }
        }
    }
}

/// Base64 gives the octets back.
pub proof fn law_base64_reads_back(d: Seq<u8>)
    ensures
        read_base64(base64(d), 0) == d,
{
    lemma_reads_back(d, 0);
    assert(d.skip(0) =~= d);
}

} // verus!
