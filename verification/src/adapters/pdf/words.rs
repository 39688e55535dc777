//! The texts that go into a PDF.
use crate::domain::output::Language;
use crate::text::{characters, decimal, padded, push_decimal, push_padded, push_upper_hex, upper_hex};
use vstd::prelude::*;
use vstd::string::*;

verus! {

/// A character that a literal string can hold as it is.
pub open spec fn printable(c: char) -> bool {
    ' ' <= c && c <= '~'
}

/// One character of a literal string.
pub open spec fn escaped_char(c: char) -> Seq<char> {
    if c == '(' || c == ')' || c == '\\' {
        seq!['\\', c]
    } else if printable(c) {
        seq![c]
    } else {
        seq!['?']
    }
}

/// The inside of a literal string.
pub open spec fn escaped(s: Seq<char>) -> Seq<char>
    decreases s.len(),
{
    if s.len() == 0 {
        Seq::empty()
    } else {
        escaped(s.drop_last()) + escaped_char(s.last())
    }
}

/// The inside of a literal string for a text.
pub fn escape(s: &str) -> (out: String)
    ensures
        out@ == escaped(s@),
{
    let chars = characters(s);
    let mut out = String::new();
    let mut i: usize = 0;
    proof {
        assert(s@.take(0) =~= Seq::empty());
    }
    while i < chars.len()
        invariant
            i <= chars@.len(),
            chars@ == s@,
            out@ == escaped(s@.take(i as int)),
        decreases chars@.len() - i,
    {
        let c: char = chars[i];
        proof {
            assert(s@.take(i + 1).drop_last() =~= s@.take(i as int));
        }
        let ghost before = out@;
        if c == '(' || c == ')' || c == '\\' {
            out.push('\\');
            out.push(c);
        } else if ' ' <= c && c <= '~' {
            out.push(c);
        } else {
            out.push('?');
        }
        proof {
            assert(out@ =~= before + escaped_char(c));
        }
        i += 1;
    }
    proof {
        assert(s@.take(i as int) =~= s@);
    }
    out
}

/// What a reader makes of the inside of a literal string: a backslash is left
/// out and the character behind it taken as it is.
pub open spec fn unescaped(t: Seq<char>) -> Seq<char>
    decreases t.len(),
{
    if t.len() == 0 {
        Seq::empty()
    } else if t[0] == '\\' && t.len() > 1 {
        seq![t[1]] + unescaped(t.skip(2))
    } else {
        seq![t[0]] + unescaped(t.skip(1))
    }
}

/// A bracket stands in the literal string that no backslash guards.
pub open spec fn bare_bracket(t: Seq<char>) -> bool
    decreases t.len(),
{
    if t.len() == 0 {
        false
    } else if t[0] == '\\' && t.len() > 1 {
        bare_bracket(t.skip(2))
    } else {
        t[0] == '(' || t[0] == ')' || bare_bracket(t.skip(1))
    }
}

proof fn lemma_escaped_first(s: Seq<char>)
    requires
        s.len() > 0,
    ensures
        escaped(s) == escaped_char(s[0]) + escaped(s.skip(1)),
    decreases s.len(),
{
    if s.len() == 1 {
        assert(s.drop_last() =~= Seq::empty());
        assert(s.skip(1) =~= Seq::empty());
        assert(escaped(s) =~= escaped_char(s[0]) + escaped(s.skip(1)));
    } else {
        lemma_escaped_first(s.drop_last());
        assert(s.drop_last().skip(1) =~= s.skip(1).drop_last());
        assert(s.skip(1).last() == s.last());
        assert(escaped(s) =~= escaped_char(s[0]) + escaped(s.skip(1)));
    }
}

/// An escaped text cannot end its string early, and a reader of the string
/// gets the text back, with a question mark for every character that is not
/// printable.
pub proof fn law_escaped_text_reads_back(s: Seq<char>)
    ensures
        !bare_bracket(escaped(s)),
        unescaped(escaped(s)) == Seq::new(
            s.len(),
            |i: int|
                if printable(s[i]) {
                    s[i]
                } else {
                    '?'
                },
        ),
    decreases s.len(),
{
    let shown = |t: Seq<char>|
        Seq::new(
            t.len(),
            |i: int|
                if printable(t[i]) {
                    t[i]
                } else {
                    '?'
                },
        );
    if s.len() == 0 {
        assert(unescaped(escaped(s)) =~= shown(s));
    } else {
        lemma_escaped_first(s);
        law_escaped_text_reads_back(s.skip(1));
        let c = s[0];
        let t = escaped(s);
        let rest = escaped(s.skip(1));
        if c == '(' || c == ')' || c == '\\' {
            assert(t.skip(2) =~= rest);
            assert(t[0] == '\\' && t[1] == c);
        } else {
            assert(t.skip(1) =~= rest);
            assert(t[0] != '\\' && t[0] != '(' && t[0] != ')');
        }
        assert(unescaped(t) =~= shown(s));
    }
}

/// The 16-bit units of a character.
pub open spec fn units_of(c: char) -> Seq<u32> {
    if (c as u32) < 0x1_0000 {
        seq![c as u32]
    } else {
        seq![
            (0xD800 + (c as u32 - 0x1_0000) / 0x400) as u32,
            (0xDC00 + (c as u32 - 0x1_0000) % 0x400) as u32,
        ]
    }
}

/// The units of a character in hexadecimal.
pub open spec fn unit_text(c: char) -> Seq<char> {
    if (c as u32) < 0x1_0000 {
        upper_hex(units_of(c)[0] as nat, 4)
    } else {
        upper_hex(units_of(c)[0] as nat, 4) + upper_hex(units_of(c)[1] as nat, 4)
    }
}

/// The 16-bit units of a text in hexadecimal.
pub open spec fn hex_units(s: Seq<char>) -> Seq<char>
    decreases s.len(),
{
    if s.len() == 0 {
        Seq::empty()
    } else {
        hex_units(s.drop_last()) + unit_text(s.last())
    }
}

/// Appends the 16-bit units of a character in hexadecimal.
pub fn push_units(out: &mut String, c: char)
    ensures
        final(out)@ == old(out)@ + unit_text(c),
{
    let code: u32 = c as u32;
    if code < 0x1_0000 {
        push_upper_hex(out, code, 4);
    } else {
        push_upper_hex(out, 0xD800 + (code - 0x1_0000) / 0x400, 4);
        push_upper_hex(out, 0xDC00 + (code - 0x1_0000) % 0x400, 4);
    }
    proof {
        assert(out@ =~= old(out)@ + unit_text(c));
    }
}

fn push_all_units(out: &mut String, chars: &Vec<char>)
    ensures
        final(out)@ == old(out)@ + hex_units(chars@),
{
    let mut i: usize = 0;
    proof {
        assert(chars@.take(0) =~= Seq::empty());
        assert(out@ =~= old(out)@ + hex_units(chars@.take(0)));
    }
    while i < chars.len()
        invariant
            i <= chars@.len(),
            out@ == old(out)@ + hex_units(chars@.take(i as int)),
        decreases chars@.len() - i,
    {
        proof {
            assert(chars@.take(i + 1).drop_last() =~= chars@.take(i as int));
        }
        push_units(out, chars[i]);
        i += 1;
        proof {
            assert(out@ =~= old(out)@ + hex_units(chars@.take(i as int)));
        }
    }
    proof {
        assert(chars@.take(i as int) =~= chars@);
    }
}

/// A string as a text-showing operand, quoted or hexadecimal as the font of
/// the language needs.
pub open spec fn shown_text(s: Seq<char>, lang: Language) -> Seq<char> {
    match lang {
        Language::English => "("@ + escaped(s) + ")"@,
        Language::Japanese => "<"@ + hex_units(s) + ">"@,
    }
}

/// A string as a text-showing operand.
pub fn show(s: &str, lang: Language) -> (out: String)
    ensures
        out@ == shown_text(s@, lang),
{
    let mut out = String::new();
    match lang {
        Language::English => {
            out.append("(");
            let inside = escape(s);
            out.append(inside.as_str());
            out.append(")");
        },
        Language::Japanese => {
            out.append("<");
            let chars = characters(s);
            push_all_units(&mut out, &chars);
            out.append(">");
        },
    }
    proof {
        assert(out@ =~= shown_text(s@, lang));
    }
    out
}

/// A complete string object. Plain ASCII goes in as a literal string. Anything
/// else becomes a hexadecimal string of 16-bit units behind a byte order mark.
pub open spec fn string_object(s: Seq<char>) -> Seq<char> {
    if forall|i: int| 0 <= i < s.len() ==> printable(#[trigger] s[i]) {
        "("@ + escaped(s) + ")"@
    } else {
        "<FEFF"@ + hex_units(s) + ">"@
    }
}

/// A complete string object, delimiters and all.
pub fn text_string(s: &str) -> (out: String)
    ensures
        out@ == string_object(s@),
{
    let chars = characters(s);
    let mut plain: bool = true;
    let mut i: usize = 0;
    while i < chars.len()
        invariant
            i <= chars@.len(),
            plain == (forall|k: int| 0 <= k < i ==> printable(#[trigger] chars@[k])),
        decreases chars@.len() - i,
    {
        if !(' ' <= chars[i] && chars[i] <= '~') {
            assert(!printable(chars@[i as int]));
            plain = false;
        }
        i += 1;
    }
    let mut out = String::new();
    if plain {
        out.append("(");
        let inside = escape(s);
        out.append(inside.as_str());
        out.append(")");
    } else {
        out.append("<FEFF");
        push_all_units(&mut out, &chars);
        out.append(">");
    }
    proof {
        assert(out@ =~= string_object(s@));
    }
    out
}

/// What follows the last separator among the first `n` characters.
pub open spec fn after_separator(s: Seq<char>, n: int) -> Seq<char>
    decreases n,
{
    if n <= 0 {
        Seq::empty()
    } else if s[n - 1] == '/' || s[n - 1] == '\\' {
        Seq::empty()
    } else {
        after_separator(s, n - 1).push(s[n - 1])
    }
}

/// A letter or digit of ASCII.
pub open spec fn ascii_word_char(c: char) -> bool {
    ('0' <= c && c <= '9') || ('A' <= c && c <= 'Z') || ('a' <= c && c <= 'z')
}

/// Whether a character is a letter or digit of ASCII.
pub fn is_word_char(c: char) -> (r: bool)
    ensures
        r == ascii_word_char(c),
{
    ('0' <= c && c <= '9') || ('A' <= c && c <= 'Z') || ('a' <= c && c <= 'z')
}

/// A character that is safe in a file name; an underscore stands for others.
pub open spec fn safe_char(c: char) -> char {
    if ascii_word_char(c) || c == '.' || c == '-' || c == '_' {
        c
    } else {
        '_'
    }
}

/// The file name at the end of a path, in safe characters.
pub open spec fn safe_base(s: Seq<char>) -> Seq<char> {
    let base = after_separator(s, s.len() as int);
    Seq::new(base.len(), |i: int| safe_char(base[i]))
}

/// The name ends with a dot, then `a`, `b`, `c` in either case.
pub open spec fn has_extension(s: Seq<char>, a: (char, char), b: (char, char), c: (char, char)) -> bool {
    let n = s.len() as int;
    n >= 4 && s[n - 4] == '.' && (s[n - 3] == a.0 || s[n - 3] == a.1) && (s[n - 2] == b.0 || s[n - 2]
        == b.1) && (s[n - 1] == c.0 || s[n - 1] == c.1)
}

/// The name has one of the two extensions of the container format.
pub open spec fn names_container(s: Seq<char>) -> bool {
    has_extension(s, ('x', 'X'), ('d', 'D'), ('w', 'W')) || has_extension(
        s,
        ('x', 'X'),
        ('b', 'B'),
        ('d', 'D'),
    )
}

/// The text holds nothing but underscores.
pub open spec fn only_underscores(s: Seq<char>) -> bool {
    forall|i: int| 0 <= i < s.len() ==> #[trigger] s[i] == '_'
}

/// The name that a carried source document gets.
pub open spec fn carried_name(title: Option<Seq<char>>) -> Seq<char> {
    let safe = safe_base(
        match title {
            Some(t) => t,
            None => "source.xdw"@,
        },
    );
    let name = if only_underscores(safe) {
        "source"@
    } else {
        safe
    };
    if names_container(name) {
        name
    } else {
        name + ".xdw"@
    }
}

/// The file name at the end of a path, in safe characters.
fn safe_chars(s: &str) -> (r: Vec<char>)
    ensures
        r@ == safe_base(s@),
{
    let chars = characters(s);
    let mut r: Vec<char> = Vec::new();
    let mut i: usize = 0;
    proof {
        assert(r@ =~= Seq::new(
            after_separator(s@, 0).len(),
            |k: int| safe_char(after_separator(s@, 0)[k]),
        ));
    }
    while i < chars.len()
        invariant
            i <= chars@.len(),
            chars@ == s@,
            r@ == Seq::new(
                after_separator(s@, i as int).len(),
                |k: int| safe_char(after_separator(s@, i as int)[k]),
            ),
        decreases chars@.len() - i,
    {
        let c: char = chars[i];
        if c == '/' || c == '\\' {
            r = Vec::new();
        } else if is_word_char(c) || c == '.' || c == '-' || c == '_' {
            r.push(c);
        } else {
            r.push('_');
        }
        i += 1;
        proof {
            assert(r@ =~= Seq::new(
                after_separator(s@, i as int).len(),
                |k: int| safe_char(after_separator(s@, i as int)[k]),
            ));
        }
    }
    r
}

fn is_container_name(s: &Vec<char>) -> (r: bool)
    ensures
        r == names_container(s@),
{
    let n: usize = s.len();
    if n < 4 || s[n - 4] != '.' || !(s[n - 3] == 'x' || s[n - 3] == 'X') {
        return false;
    }
    ((s[n - 2] == 'd' || s[n - 2] == 'D') && (s[n - 1] == 'w' || s[n - 1] == 'W')) || ((s[n - 2]
        == 'b' || s[n - 2] == 'B') && (s[n - 1] == 'd' || s[n - 1] == 'D'))
}

/// A plain ASCII file name for the carried source, safe inside a PDF string.
pub fn source_name(title: Option<&str>) -> (out: String)
    ensures
        out@ == carried_name(
            match title {
                Some(t) => Some(t@),
                None => None,
            },
        ),
{
    let base: &str = match title {
        Some(t) => t,
        None => "source.xdw",
    };
    let mut name = safe_chars(base);
    let ghost safe = name@;
    let mut blank: bool = true;
    let mut i: usize = 0;
    while i < name.len()
        invariant
            i <= name@.len(),
            name@ == safe,
            blank == (forall|k: int| 0 <= k < i ==> #[trigger] name@[k] == '_'),
        decreases name@.len() - i,
    {
        if name[i] != '_' {
            blank = false;
        }
        i += 1;
    }
    proof {
        assert(blank == only_underscores(safe));
    }
    if blank {
        name = characters("source");
    }
    let known: bool = is_container_name(&name);
    let mut out = String::new();
    let mut k: usize = 0;
    while k < name.len()
        invariant
            k <= name@.len(),
            out@ == name@.take(k as int),
        decreases name@.len() - k,
    {
        proof {
            assert(name@.take(k + 1) =~= name@.take(k as int).push(name@[k as int]));
        }
        out.push(name[k]);
        k += 1;
    }
    proof {
        assert(name@.take(k as int) =~= name@);
        assert(name@ == (if blank {
            "source"@
        } else {
            safe
        }));
    }
    if !known {
        out.append(".xdw");
    }
    out
}

/// The texts of a list.
pub open spec fn texts(v: Seq<String>) -> Seq<Seq<char>> {
    Seq::new(v.len(), |i: int| v[i]@)
}

/// The wordings for a placeholder, longest first, so that the fullest one that
/// fits at a readable size is used. Page zero stands for the whole document.
pub open spec fn wordings(page_no: nat, lang: Language) -> Seq<Seq<char>> {
    match lang {
        Language::English => if page_no == 0 {
            seq!["No page of this document could be recovered."@]
        } else {
            seq![
                "Page "@ + decimal(page_no)
                    + " could not be recovered: image stored in the container's own coding."@,
                "Page "@ + decimal(page_no) + " not recovered (vendor coding)"@,
                "Page "@ + decimal(page_no) + " not recovered"@,
                "p."@ + decimal(page_no),
            ]
        },
        Language::Japanese => if page_no == 0 {
            seq![
                "この文書からは 1 ページも取り出せませんでした。"@,
                "取り出せるページがありません"@,
            ]
        } else {
            seq![
                decimal(page_no) + " ページ目は取り出せませんでした（独自符号化のため）"@,
                decimal(page_no) + " ページ目：取り出せません"@,
                decimal(page_no) + " ページ目"@,
                "p."@ + decimal(page_no),
            ]
        },
    }
}

fn around(before: &str, n: usize, after: &str) -> (s: String)
    ensures
        s@ == before@ + decimal(n as nat) + after@,
{
    let mut s = String::from_str(before);
    push_decimal(&mut s, n as u64);
    s.append(after);
    s
}

fn numbered(before: &str, n: usize) -> (s: String)
    ensures
        s@ == before@ + decimal(n as nat),
{
    let mut s = String::from_str(before);
    push_decimal(&mut s, n as u64);
    s
}

fn counted(n: usize, after: &str) -> (s: String)
    ensures
        s@ == decimal(n as nat) + after@,
{
    let mut s = String::new();
    push_decimal(&mut s, n as u64);
    proof {
        assert(s@ =~= decimal(n as nat));
    }
    s.append(after);
    s
}

/// The wordings for a placeholder, longest first.
pub fn notes(page_no: usize, lang: Language) -> (v: Vec<String>)
    ensures
        texts(v@) == wordings(page_no as nat, lang),
{
    let mut v: Vec<String> = Vec::new();
    match lang {
        Language::English => if page_no == 0 {
            v.push(String::from_str("No page of this document could be recovered."));
        } else {
            v.push(
                around(
                    "Page ",
                    page_no,
                    " could not be recovered: image stored in the container's own coding.",
                ),
            );
            v.push(around("Page ", page_no, " not recovered (vendor coding)"));
            v.push(around("Page ", page_no, " not recovered"));
            v.push(numbered("p.", page_no));
        },
        Language::Japanese => if page_no == 0 {
            v.push(String::from_str("この文書からは 1 ページも取り出せませんでした。"));
            v.push(String::from_str("取り出せるページがありません"));
        } else {
            v.push(
                counted(
                    page_no,
                    " ページ目は取り出せませんでした（独自符号化のため）",
                ),
            );
            v.push(counted(page_no, " ページ目：取り出せません"));
            v.push(counted(page_no, " ページ目"));
            v.push(numbered("p.", page_no));
        },
    }
    proof {
        assert(texts(v@) =~= wordings(page_no as nat, lang));
    }
    v
}

/// A share of 255 in thousandths, rounded to the nearest.
pub open spec fn thousandths(v: u8) -> nat {
    ((v as nat) * 2000 + 255) / 510
}

/// A share of 255 as a decimal fraction.
pub open spec fn fraction(v: u8) -> Seq<char> {
    decimal(thousandths(v) / 1000) + "."@ + padded(decimal(thousandths(v) % 1000), 3, '0')
}

/// A colour as the three operands of a colour operator.
pub open spec fn colour_text(rgb: (u8, u8, u8)) -> Seq<char> {
    fraction(rgb.0) + " "@ + fraction(rgb.1) + " "@ + fraction(rgb.2)
}

fn push_fraction(out: &mut String, v: u8)
    ensures
        final(out)@ == old(out)@ + fraction(v),
{
    let t: u64 = (v as u64 * 2000 + 255) / 510;
    push_decimal(out, t / 1000);
    out.append(".");
    push_padded(out, t % 1000, 3);
    proof {
        assert(out@ =~= old(out)@ + fraction(v));
    }
}

/// A colour as the three operands of a colour operator.
pub fn colour(rgb: (u8, u8, u8)) -> (out: String)
    ensures
        out@ == colour_text(rgb),
{
    let mut out = String::new();
    push_fraction(&mut out, rgb.0);
    out.append(" ");
    push_fraction(&mut out, rgb.1);
    out.append(" ");
    push_fraction(&mut out, rgb.2);
    proof {
        assert(out@ =~= colour_text(rgb));
    }
    out
}

} // verus!
