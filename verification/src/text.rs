//! Text building shared by the modules that produce words and markup.
use vstd::arithmetic::power::pow;
use vstd::prelude::*;
use vstd::string::*;

verus! {

/// White space of any script: the characters that have the property
/// `White_Space` in Unicode.
pub open spec fn whitespace(c: char) -> bool {
    let n = c as u32;
    (9 <= n <= 13) || n == 0x20 || n == 0x85 || n == 0xA0 || n == 0x1680 || (0x2000 <= n <= 0x200A)
        || n == 0x2028 || n == 0x2029 || n == 0x202F || n == 0x205F || n == 0x3000
}

/// `char::is_whitespace` tells whether a character has the property
/// `White_Space` in Unicode.
pub assume_specification[ char::is_whitespace ](c: char) -> (r: bool)
    ensures
        r == whitespace(c),
;

/// `String::push` appends one character and changes nothing else.
pub assume_specification[ String::push ](s: &mut String, ch: char)
    ensures
        final(s)@ == old(s)@.push(ch),
;

/// The character of a decimal or lower-case hexadecimal digit.
pub open spec fn digit(d: int) -> char {
    if d <= 0 {
        '0'
    } else if d == 1 {
        '1'
    } else if d == 2 {
        '2'
    } else if d == 3 {
        '3'
    } else if d == 4 {
        '4'
    } else if d == 5 {
        '5'
    } else if d == 6 {
        '6'
    } else if d == 7 {
        '7'
    } else if d == 8 {
        '8'
    } else if d == 9 {
        '9'
    } else if d == 10 {
        'a'
    } else if d == 11 {
        'b'
    } else if d == 12 {
        'c'
    } else if d == 13 {
        'd'
    } else if d == 14 {
        'e'
    } else {
        'f'
    }
}

/// `n` written in decimal, without leading zeros.
pub open spec fn decimal(n: nat) -> Seq<char>
    decreases n,
{
    if n < 10 {
        seq![digit(n as int)]
    } else {
        decimal(n / 10).push(digit((n % 10) as int))
    }
}

/// `n` written in lower-case hexadecimal, without leading zeros.
pub open spec fn hexadecimal(n: nat) -> Seq<char>
    decreases n,
{
    if n < 16 {
        seq![digit(n as int)]
    } else {
        hexadecimal(n / 16).push(digit((n % 16) as int))
    }
}

/// `s` with `fill` put in front until it is `width` characters long.
pub open spec fn padded(s: Seq<char>, width: nat, fill: char) -> Seq<char>
    decreases width - s.len(),
{
    if s.len() < width {
        padded(seq![fill] + s, width, fill)
    } else {
        s
    }
}

/// The character of a digit below sixteen.
pub fn digit_char(d: u64) -> (c: char)
    requires
        d < 16,
    ensures
        c == digit(d as int),
{
    match d {
        0 => '0',
        1 => '1',
        2 => '2',
        3 => '3',
        4 => '4',
        5 => '5',
        6 => '6',
        7 => '7',
        8 => '8',
        9 => '9',
        10 => 'a',
        11 => 'b',
        12 => 'c',
        13 => 'd',
        14 => 'e',
        _ => 'f',
    }
}

/// Appends `n` in decimal.
pub fn push_wide(out: &mut String, n: u128)
    ensures
        final(out)@ == old(out)@ + decimal(n as nat),
    decreases n,
{
    if n >= 10 {
        push_wide(out, n / 10);
    }
    out.push(digit_char((n % 10) as u64));
    proof {
        assert(out@ =~= old(out)@ + decimal(n as nat));
    }
}

/// Appends `n` in decimal.
pub fn push_decimal(out: &mut String, n: u64)
    ensures
        final(out)@ == old(out)@ + decimal(n as nat),
{
    push_wide(out, n as u128);
}

/// Appends `n` in lower-case hexadecimal, two digits or more.
pub fn push_hex2(out: &mut String, n: u8)
    ensures
        final(out)@ == old(out)@ + padded(hexadecimal(n as nat), 2, '0'),
{
    out.push(digit_char((n / 16) as u64));
    out.push(digit_char((n % 16) as u64));
    proof {
        reveal_with_fuel(hexadecimal, 3);
        reveal_with_fuel(padded, 3);
        assert(out@ =~= old(out)@ + padded(hexadecimal(n as nat), 2, '0'));
    }
}

/// Whether two texts are the same.
pub fn same_text(a: &str, b: &str) -> (r: bool)
    ensures
        r == (a@ == b@),
{
    let n: usize = a.unicode_len();
    if n != b.unicode_len() {
        return false;
    }
    let mut i: usize = 0;
    while i < n
        invariant
            i <= n,
            n == a@.len(),
            n == b@.len(),
            a@.take(i as int) == b@.take(i as int),
        decreases n - i,
    {
        if a.get_char(i) != b.get_char(i) {
            return false;
        }
        proof {
            assert(a@.take(i + 1) =~= a@.take(i as int).push(a@[i as int]));
            assert(b@.take(i + 1) =~= b@.take(i as int).push(b@[i as int]));
        }
        i += 1;
    }
    proof {
        assert(a@.take(n as int) =~= a@);
        assert(b@.take(n as int) =~= b@);
    }
    true
}

/// The characters of a text.
pub fn characters(s: &str) -> (r: Vec<char>)
    ensures
        r@ == s@,
{
    let mut r: Vec<char> = Vec::new();
    for c in it: s.chars()
        invariant
            it.seq() == s@,
            r@ == s@.take(it.index() as int),
    {
        proof {
            assert(s@.take(it.index() + 1) =~= s@.take(it.index() as int).push(c));
        }
        r.push(c);
    }
    proof {
        assert(s@.take(s@.len() as int) =~= s@);
    }
    r
}

/// The character of an upper-case hexadecimal digit.
pub open spec fn upper_digit(d: int) -> char {
    if d <= 9 {
        digit(d)
    } else if d == 10 {
        'A'
    } else if d == 11 {
        'B'
    } else if d == 12 {
        'C'
    } else if d == 13 {
        'D'
    } else if d == 14 {
        'E'
    } else {
        'F'
    }
}

/// The last `width` upper-case hexadecimal digits of `n`.
pub open spec fn upper_hex(n: nat, width: nat) -> Seq<char>
    decreases width,
{
    if width == 0 {
        Seq::empty()
    } else {
        upper_hex(n / 16, (width - 1) as nat).push(upper_digit((n % 16) as int))
    }
}

fn upper_char(d: u32) -> (c: char)
    requires
        d < 16,
    ensures
        c == upper_digit(d as int),
{
    match d {
        10 => 'A',
        11 => 'B',
        12 => 'C',
        13 => 'D',
        14 => 'E',
        15 => 'F',
        _ => digit_char(d as u64),
    }
}

/// Appends the last `width` hexadecimal digits of `n`, in upper case.
pub fn push_upper_hex(out: &mut String, n: u32, width: usize)
    ensures
        final(out)@ == old(out)@ + upper_hex(n as nat, width as nat),
    decreases width,
{
    if width > 0 {
        push_upper_hex(out, n / 16, width - 1);
        out.push(upper_char(n % 16));
    }
    proof {
        assert(out@ =~= old(out)@ + upper_hex(n as nat, width as nat));
    }
}

proof fn lemma_padded(s: Seq<char>, width: nat, fill: char)
    ensures
        s.len() >= width ==> padded(s, width, fill) == s,
        s.len() < width ==> padded(s, width, fill) == Seq::new(
            (width - s.len()) as nat,
            |i: int| fill,
        ) + s,
    decreases width - s.len(),
{
    if s.len() < width {
        lemma_padded(seq![fill] + s, width, fill);
        assert(padded(s, width, fill) =~= Seq::new((width - s.len()) as nat, |i: int| fill) + s);
    }
}

/// A number below ten to the `width` has at most `width` digits, and its digits
/// are plain ASCII.
pub proof fn lemma_decimal(n: nat, width: nat)
    requires
        width >= 1,
        n < pow(10, width),
    ensures
        1 <= decimal(n).len() <= width,
        forall|i: int| 0 <= i < decimal(n).len() ==> '0' <= #[trigger] decimal(n)[i] <= '9',
    decreases width,
{
    reveal_with_fuel(pow, 2);
    if n >= 10 {
        assert(width > 1);
        assert(pow(10, width) == 10 * pow(10, (width - 1) as nat));
        lemma_decimal(n / 10, (width - 1) as nat);
        let front = decimal(n / 10);
        assert forall|i: int| 0 <= i < decimal(n).len() implies '0' <= #[trigger] decimal(n)[i]
            <= '9' by {
            if i < front.len() {
                assert(decimal(n)[i] == front[i]);
            }
        }
    }
}

/// A number padded to `width` digits has exactly that many.
pub proof fn lemma_padded_decimal(n: nat, width: nat)
    requires
        width >= 1,
        n < pow(10, width),
    ensures
        padded(decimal(n), width, '0').len() == width,
        forall|i: int|
            0 <= i < width ==> '0' <= #[trigger] padded(decimal(n), width, '0')[i] <= '9',
{
    lemma_decimal(n, width);
    lemma_padded(decimal(n), width, '0');
    let zeros = Seq::new((width - decimal(n).len()) as nat, |i: int| '0');
    assert forall|i: int| 0 <= i < width implies '0' <= #[trigger] padded(
        decimal(n),
        width,
        '0',
    )[i] <= '9' by {
        if decimal(n).len() < width {
            if i >= zeros.len() {
                assert(padded(decimal(n), width, '0')[i] == decimal(n)[i - zeros.len()]);
            }
        }
    }
}

/// Appends `n` in decimal, with `fill` in front up to `width` characters.
pub fn push_filled(out: &mut String, n: u64, width: usize, fill: char)
    ensures
        final(out)@ == old(out)@ + padded(decimal(n as nat), width as nat, fill),
{
    let mut written = String::new();
    push_decimal(&mut written, n);
    let digits: usize = written.as_str().unicode_len();
    let mut k: usize = digits;
    proof {
        assert(out@ + Seq::new(0, |i: int| fill) =~= out@);
    }
    while k < width
        invariant
            digits <= k,
            k <= digits || k <= width,
            digits == decimal(n as nat).len(),
            out@ == old(out)@ + Seq::new((k - digits) as nat, |i: int| fill),
        decreases width - k,
    {
        out.push(fill);
        k += 1;
        proof {
            assert(out@ =~= old(out)@ + Seq::new((k - digits) as nat, |i: int| fill));
        }
    }
    out.append(written.as_str());
    proof {
        lemma_padded(decimal(n as nat), width as nat, fill);
        assert(written@ =~= decimal(n as nat));
        assert(out@ =~= old(out)@ + padded(decimal(n as nat), width as nat, fill));
    }
}

/// Appends `n` in decimal, with zeros in front up to `width` digits.
pub fn push_padded(out: &mut String, n: u64, width: usize)
    ensures
        final(out)@ == old(out)@ + padded(decimal(n as nat), width as nat, '0'),
{
    push_filled(out, n, width, '0');
}

/// `s` with spaces behind it until it is `width` characters long.
pub open spec fn spaced(s: Seq<char>, width: nat) -> Seq<char> {
    if s.len() < width {
        s + Seq::new((width - s.len()) as nat, |i: int| ' ')
    } else {
        s
    }
}

/// Appends `s`, with spaces behind it up to `width` characters.
pub fn push_spaced(out: &mut String, s: &str, width: usize)
    ensures
        final(out)@ == old(out)@ + spaced(s@, width as nat),
{
    out.append(s);
    let len: usize = s.unicode_len();
    let mut k: usize = len;
    proof {
        assert(out@ =~= old(out)@ + s@ + Seq::new(0, |i: int| ' '));
    }
    while k < width
        invariant
            len <= k,
            k <= len || k <= width,
            len == s@.len(),
            out@ == old(out)@ + s@ + Seq::new((k - len) as nat, |i: int| ' '),
        decreases width - k,
    {
        out.push(' ');
        k += 1;
        proof {
            assert(out@ =~= old(out)@ + s@ + Seq::new((k - len) as nat, |i: int| ' '));
        }
    }
    proof {
        assert(out@ =~= old(out)@ + spaced(s@, width as nat));
    }
}

/// A number is written with at least one digit.
pub proof fn lemma_decimal_digits(n: nat)
    ensures
        decimal(n).len() >= 1,
    decreases n,
{
    if n >= 10 {
        lemma_decimal_digits(n / 10);
    }
}

proof fn lemma_digit_tells(a: int, b: int)
    requires
        0 <= a < 10,
        0 <= b < 10,
        digit(a) == digit(b),
    ensures
        a == b,
{
}

/// Different numbers are written differently.
pub proof fn lemma_decimal_tells(m: nat, n: nat)
    requires
        decimal(m) == decimal(n),
    ensures
        m == n,
    decreases m,
{
    lemma_decimal_digits(m / 10);
    lemma_decimal_digits(n / 10);
    let (a, b) = (decimal(m), decimal(n));
    assert(a.last() == b.last());
    lemma_digit_tells((m % 10) as int, (n % 10) as int);
    if m >= 10 && n >= 10 {
        assert(a.drop_last() =~= decimal(m / 10));
        assert(b.drop_last() =~= decimal(n / 10));
        lemma_decimal_tells(m / 10, n / 10);
    }
}

} // verus!
