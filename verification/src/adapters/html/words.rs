//! The texts that go into an HTML page.
use crate::adapters::pdf::words::after_separator;
use crate::domain::output::Language;
use crate::domain::rendering::BlendMode;
use crate::text::{characters, hexadecimal, padded, push_hex2};
use vstd::prelude::*;
use vstd::string::*;

verus! {

/// A letter or digit of any script, as the Unicode tables of the standard
/// library have it.
pub uninterp spec fn alphanumeric(c: char) -> bool;

/// `char::is_alphanumeric` tells letters and digits of any script. What it
/// says depends on the character alone.
pub assume_specification[ char::is_alphanumeric ](c: char) -> (r: bool)
    ensures
        r == alphanumeric(c),
;

/// The style sheet.
pub const CSS: &'static str = ":root{color-scheme:light dark;--bg:#fff;--fg:#1b1b1a;--dim:#6b6b68}@media(prefers-color-scheme:dark){:root{--bg:#16161a;--fg:#e9e9e6;--dim:#9a9a96}}*{box-sizing:border-box}body{margin:0;padding:0 16px 48px;background:var(--bg);color:var(--fg);font:15px/1.55 system-ui,-apple-system,'Segoe UI',sans-serif}main{max-width:960px;margin:0 auto}figure{margin:0 0 28px}.frame{position:relative;width:100%;overflow:hidden;container-type:size}.sheet{position:absolute;left:0;top:0;width:100%;background:#fff;color:#000;overflow:hidden;container-type:size}.sheet.turn90{width:100cqh;height:100cqw;transform-origin:0 0;transform:translateX(100cqw) rotate(90deg)}.sheet.turn180{transform:rotate(180deg)}.sheet.turn270{width:100cqh;height:100cqw;transform-origin:0 0;transform:translateY(100cqh) rotate(-90deg)}.sheet .art{position:absolute;display:block;object-fit:contain;object-position:center}.sheet img.art{background:#fff}.sheet .picture-stack{position:absolute;left:4%;top:54%;width:92%;height:42%;display:flex;flex-direction:column;gap:4px;overflow:hidden}.sheet .picture-stack .art{position:relative;left:auto;top:auto;width:100%;height:100%;min-height:0;flex:1;margin:0}.sheet .picture-stack .bands{height:100%}.sheet .picture-stack .bands img{height:100%;object-fit:contain}.sheet span{position:absolute;white-space:pre;line-height:1;font-family:\"Hiragino Kaku Gothic ProN\",\"Yu Gothic\",\"Meiryo\",\"Noto Sans JP\",sans-serif}.files{margin:28px 0 0;padding-left:18px;font-size:.85rem}figure>img{display:block;width:100%;height:auto}.gap .why{margin:0 0 28px;color:var(--dim);font-size:.9rem}.arts{display:flex;flex-direction:column;gap:6px}.art{margin:0;position:relative}.bands{display:flex;flex-direction:column;line-height:0;overflow:hidden}.art img{display:block;width:100%;height:auto}@media print{body{background:#fff}figure{break-inside:avoid}}";

/// Every string that is written into the page by itself.
#[derive(Debug, Clone, Copy, PartialEq, Eq)]
pub struct Wording {
    pub lang_attr: &'static str,
    pub gap_why: &'static str,
    pub page_alt: &'static str,
    pub art_alt: &'static str,
    pub empty: &'static str,
}

impl Wording {
    /// The strings of a language.
    pub fn for_lang(lang: Language) -> (w: Wording)
        ensures
            match lang {
                Language::Japanese => {
                    &&& w.lang_attr@ == "ja"@
                    &&& w.gap_why@
                        == "ページ画像がコンテナ独自の符号化で格納されており、復元できません。"@
                    &&& w.page_alt@ == "復元したページ"@
                    &&& w.art_alt@ == "ページから取り出した画像"@
                    &&& w.empty@ == "この文書から復元できるページはありません。"@
                },
                Language::English => {
                    &&& w.lang_attr@ == "en"@
                    &&& w.gap_why@
                        == "The page image is stored in the container's own coding and was not recovered."@
                    &&& w.page_alt@ == "Recovered document page"@
                    &&& w.art_alt@ == "Artwork recovered from this page"@
                    &&& w.empty@ == "No page of this document could be recovered."@
                },
            },
    {
        match lang {
            Language::Japanese => Wording {
                lang_attr: "ja",
                gap_why: "ページ画像がコンテナ独自の符号化で格納されており、復元できません。",
                page_alt: "復元したページ",
                art_alt: "ページから取り出した画像",
                empty: "この文書から復元できるページはありません。",
            },
            Language::English => Wording {
                lang_attr: "en",
                gap_why: "The page image is stored in the container's own coding and was not recovered.",
                page_alt: "Recovered document page",
                art_alt: "Artwork recovered from this page",
                empty: "No page of this document could be recovered.",
            },
        }
    }
}

/// One character of a text in markup.
pub open spec fn markup_char(c: char) -> Seq<char> {
    if c == '&' {
        "&amp;"@
    } else if c == '<' {
        "&lt;"@
    } else if c == '>' {
        "&gt;"@
    } else if c == '"' {
        "&quot;"@
    } else if c == '\'' {
        "&#39;"@
    } else {
        seq![c]
    }
}

/// A text in markup.
pub open spec fn markup(s: Seq<char>) -> Seq<char>
    decreases s.len(),
{
    if s.len() == 0 {
        Seq::empty()
    } else {
        markup(s.drop_last()) + markup_char(s.last())
    }
}

/// A text as it stands in markup.
pub fn esc(s: &str) -> (out: String)
    ensures
        out@ == markup(s@),
{
    let chars = characters(s);
    let mut out = String::new();
    let mut i: usize = 0;
    proof {
        assert(s@.take(0) =~= Seq::empty());
    }
    while i < chars.len()
        invariant
            i <= chars@.len(),
            chars@ == s@,
            out@ == markup(s@.take(i as int)),
        decreases chars@.len() - i,
    {
        let c: char = chars[i];
        let ghost before = out@;
        proof {
            assert(s@.take(i + 1).drop_last() =~= s@.take(i as int));
        }
        match c {
            '&' => out.append("&amp;"),
            '<' => out.append("&lt;"),
            '>' => out.append("&gt;"),
            '"' => out.append("&quot;"),
            '\'' => out.append("&#39;"),
            _ => out.push(c),
        }
        proof {
            assert(out@ =~= before + markup_char(c));
        }
        i += 1;
    }
    proof {
        assert(s@.take(i as int) =~= s@);
    }
    out
}

/// A character that can open a tag or end an attribute.
pub open spec fn is_active(c: char) -> bool {
    c == '<' || c == '>' || c == '"' || c == '\''
}

/// No text can open a tag or end an attribute once it stands in markup.
pub proof fn law_markup_is_inert(s: Seq<char>)
    ensures
        forall|i: int| 0 <= i < markup(s).len() ==> !is_active(#[trigger] markup(s)[i]),
    decreases s.len(),
{
    if s.len() > 0 {
        let front = markup(s.drop_last());
        let last = markup_char(s.last());
        law_markup_is_inert(s.drop_last());
        reveal_strlit("&amp;");
        reveal_strlit("&lt;");
        reveal_strlit("&gt;");
        reveal_strlit("&quot;");
        reveal_strlit("&#39;");
        assert(forall|i: int| 0 <= i < last.len() ==> !is_active(#[trigger] last[i]));
        assert forall|i: int| 0 <= i < markup(s).len() implies !is_active(
            #[trigger] markup(s)[i],
        ) by {
            if i < front.len() {
                assert(markup(s)[i] == front[i]);
            } else {
                assert(markup(s)[i] == last[i - front.len()]);
            }
        }
    }
}

/// What comes before the first dot from `i` on.
pub open spec fn before_dot(s: Seq<char>, i: int) -> Seq<char>
    decreases s.len() - i,
{
    if i < 0 || i >= s.len() || s[i] == '.' {
        Seq::empty()
    } else {
        seq![s[i]] + before_dot(s, i + 1)
    }
}

/// The name of a file without its path and from its first dot on, in letters,
/// digits and underscores.
pub open spec fn stem_of(title: Seq<char>) -> Seq<char> {
    let base = before_dot(after_separator(title, title.len() as int), 0);
    Seq::new(
        base.len(),
        |i: int|
            if alphanumeric(base[i]) {
                base[i]
            } else {
                '_'
            },
    )
}

fn base_of(title: &str) -> (r: Vec<char>)
    ensures
        r@ == after_separator(title@, title@.len() as int),
{
    let chars = characters(title);
    let mut r: Vec<char> = Vec::new();
    let mut i: usize = 0;
    while i < chars.len()
        invariant
            i <= chars@.len(),
            chars@ == title@,
            r@ == after_separator(title@, i as int),
        decreases chars@.len() - i,
    {
        let c: char = chars[i];
        if c == '/' || c == '\\' {
            r = Vec::new();
        } else {
            r.push(c);
        }
        i += 1;
    }
    r
}

/// The name that files offered for download start with.
pub fn stem(title: &str) -> (out: String)
    ensures
        out@ == stem_of(title@),
{
    let base = base_of(title);
    let ghost kept = before_dot(base@, 0);
    let mut out = String::new();
    let mut i: usize = 0;
    let ghost shown = |t: Seq<char>|
        Seq::new(
            t.len(),
            |k: int|
                if alphanumeric(t[k]) {
                    t[k]
                } else {
                    '_'
                },
        );
    proof {
        assert(base@.take(0) =~= Seq::empty());
        assert(kept =~= base@.take(0) + before_dot(base@, 0));
        assert(out@ =~= shown(base@.take(0)));
    }
    while i < base.len() && base[i] != '.'
        invariant
            i <= base@.len(),
            kept == base@.take(i as int) + before_dot(base@, i as int),
            shown == (|t: Seq<char>|
                Seq::new(
                    t.len(),
                    |k: int|
                        if alphanumeric(t[k]) {
                            t[k]
                        } else {
                            '_'
                        },
                )),
            out@ == shown(base@.take(i as int)),
        decreases base@.len() - i,
    {
        let c: char = base[i];
        if c.is_alphanumeric() {
            out.push(c);
        } else {
            out.push('_');
        }
        proof {
            assert(base@.take(i + 1) =~= base@.take(i as int).push(c));
            assert(kept =~= base@.take(i + 1) + before_dot(base@, i + 1));
            assert(out@ =~= shown(base@.take(i + 1)));
        }
        i += 1;
    }
    proof {
        assert(before_dot(base@, i as int) =~= Seq::empty());
        assert(kept =~= base@.take(i as int));
        assert(out@ =~= stem_of(title@));
    }
    out
}

/// A colour in a style.
pub open spec fn colour_code(rgb: (u8, u8, u8)) -> Seq<char> {
    "#"@ + padded(hexadecimal(rgb.0 as nat), 2, '0') + padded(hexadecimal(rgb.1 as nat), 2, '0')
        + padded(hexadecimal(rgb.2 as nat), 2, '0')
}

/// A colour in a style.
pub fn hex(rgb: (u8, u8, u8)) -> (out: String)
    ensures
        out@ == colour_code(rgb),
{
    let mut out = String::from_str("#");
    push_hex2(&mut out, rgb.0);
    push_hex2(&mut out, rgb.1);
    push_hex2(&mut out, rgb.2);
    proof {
        assert(out@ =~= colour_code(rgb));
    }
    out
}

/// The attribute for a blend mode.
pub fn blend_attr(mode: BlendMode) -> (s: &'static str)
    ensures
        s@ == (match mode {
            BlendMode::Normal => ""@,
            BlendMode::Multiply => " style=\"mix-blend-mode:multiply\""@,
        }),
{
    match mode {
        BlendMode::Normal => "",
        BlendMode::Multiply => " style=\"mix-blend-mode:multiply\"",
    }
}

} // verus!
