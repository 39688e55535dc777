//! What is said of each file that was written, and of all of them.
use crate::adapters::html;
use crate::adapters::pdf;
use crate::commands::inventory::sum;
use crate::domain::attachment::{extension_of, Kind};
use crate::text::{decimal, padded, push_decimal, push_padded};
use vstd::prelude::*;
use vstd::string::*;

verus! {

// ------------------------------------------------------------- single files

/// The name of the file that a page's picture is written to.
pub open spec fn picture_name(stem: Seq<char>, index: nat) -> Seq<char> {
    stem + "_p"@ + padded(decimal(index + 1), 3, '0') + ".jpg"@
}

/// The name of the file that a page's picture is written to.
pub fn picture_file(stem: &str, index: usize) -> (r: String)
    requires
        index < usize::MAX,
    ensures
        r@ == picture_name(stem@, index as nat),
{
    let mut out = String::new();
    out.append(stem);
    out.append("_p");
    push_padded(&mut out, (index + 1) as u64, 3);
    out.append(".jpg");
    proof {
        assert(out@ =~= picture_name(stem@, index as nat));
    }
    out
}

/// The name of the file that an embedded original is written to.
pub open spec fn original_name(stem: Seq<char>, i: nat, kind: Kind) -> Seq<char> {
    stem + "_original"@ + decimal(i) + "."@ + extension_of(kind)
}

/// The name of the file that an embedded original is written to.
pub fn original_file(stem: &str, i: usize, kind: Kind) -> (r: String)
    ensures
        r@ == original_name(stem@, i as nat, kind),
{
    let mut out = String::new();
    out.append(stem);
    out.append("_original");
    push_decimal(&mut out, i as u64);
    out.append(".");
    out.append(kind.extension());
    proof {
        assert(out@ =~= original_name(stem@, i as nat, kind));
    }
    out
}

/// What is said of the files written out of a document.
pub open spec fn extraction_line(name: Seq<char>, written: nat, stuck: nat) -> Seq<char> {
    name + ": wrote "@ + decimal(written) + " file(s)"@ + (if stuck > 0 {
        "; "@ + decimal(stuck) + " sheet(s) left behind (vendor coding)"@
    } else {
        ""@
    })
}

/// Says how many files were written out of a document, and how many sheets
/// were left behind.
pub fn extraction_summary(name: &str, written: usize, stuck: usize) -> (out: String)
    ensures
        out@ == extraction_line(name@, written as nat, stuck as nat),
{
    let mut out = String::new();
    out.append(name);
    out.append(": wrote ");
    push_decimal(&mut out, written as u64);
    out.append(" file(s)");
    if stuck > 0 {
        out.append("; ");
        push_decimal(&mut out, stuck as u64);
        out.append(" sheet(s) left behind (vendor coding)");
    } else {
        out.append("");
    }
    proof {
        assert(out@ =~= extraction_line(name@, written as nat, stuck as nat));
    }
    out
}

// ---------------------------------------------------------------- documents

/// What has been made of the documents so far.
#[derive(Clone, Copy, PartialEq, Eq, Structural)]
pub struct Totals {
    pub files: usize,
    pub reproduced: usize,
    pub missing: usize,
    pub characters: usize,
    pub pictures: usize,
}

impl Default for Totals {
    fn default() -> (t: Totals)
        ensures
            t == (Totals { files: 0, reproduced: 0, missing: 0, characters: 0, pictures: 0 }),
    {
        Totals { files: 0, reproduced: 0, missing: 0, characters: 0, pictures: 0 }
    }
}

impl Totals {
    /// One PDF document more.
    pub fn add_pdf(&mut self, r: &pdf::Report)
        ensures
            *final(self) == (Totals {
                files: sum(old(self).files, 1),
                reproduced: sum(old(self).reproduced, sum(r.embedded, r.drawn)),
                missing: sum(old(self).missing, r.placeholders),
                characters: sum(old(self).characters, r.glyphs),
                pictures: sum(old(self).pictures, r.pictures_placed),
            }),
    {
        self.files = self.files.saturating_add(1);
        self.reproduced = self.reproduced.saturating_add(r.embedded.saturating_add(r.drawn));
        self.missing = self.missing.saturating_add(r.placeholders);
        self.characters = self.characters.saturating_add(r.glyphs);
        self.pictures = self.pictures.saturating_add(r.pictures_placed);
    }

    /// One HTML document more.
    pub fn add_html(&mut self, r: &html::Report)
        ensures
            *final(self) == (Totals {
                files: sum(old(self).files, 1),
                reproduced: sum(old(self).reproduced, r.embedded),
                missing: sum(old(self).missing, r.gaps),
                characters: sum(old(self).characters, r.glyphs),
                pictures: sum(old(self).pictures, r.pictures),
            }),
    {
        self.files = self.files.saturating_add(1);
        self.reproduced = self.reproduced.saturating_add(r.embedded);
        self.missing = self.missing.saturating_add(r.gaps);
        self.characters = self.characters.saturating_add(r.glyphs);
        self.pictures = self.pictures.saturating_add(r.pictures);
    }

    /// Says what was made of all the documents. Only a PDF says how much text.
    pub fn summary(&self, with_text: bool) -> (out: String)
        ensures
            out@ == totals_line(*self, with_text),
    {
        let mut out = String::new();
        push_decimal(&mut out, self.files as u64);
        out.append(" file(s): ");
        push_decimal(&mut out, self.reproduced as u64);
        out.append(" page(s) reproduced, ");
        push_decimal(&mut out, self.missing as u64);
        out.append(" not, ");
        if with_text {
            push_decimal(&mut out, self.characters as u64);
            out.append(" character(s) of text, ");
        }
        push_decimal(&mut out, self.pictures as u64);
        out.append(" picture(s) salvaged");
        proof {
            assert(out@ =~= totals_line(*self, with_text));
        }
        out
    }
}

/// What is said of all the documents.
pub open spec fn totals_line(t: Totals, with_text: bool) -> Seq<char> {
    decimal(t.files as nat) + " file(s): "@ + decimal(t.reproduced as nat)
        + " page(s) reproduced, "@ + decimal(t.missing as nat) + " not, "@ + (if with_text {
        decimal(t.characters as nat) + " character(s) of text, "@
    } else {
        Seq::empty()
    }) + decimal(t.pictures as nat) + " picture(s) salvaged"@
}

/// What is said of one PDF document.
pub open spec fn pdf_line(name: Seq<char>, target: Seq<char>, r: pdf::Report) -> Seq<char> {
    name + " -> "@ + target + "  ("@ + decimal(sum(r.embedded, r.drawn) as nat)
        + " page(s) reproduced, "@ + decimal(r.placeholders as nat) + " not, "@ + decimal(
        r.glyphs as nat,
    ) + " character(s) of text, "@ + decimal(r.pictures_placed as nat) + " picture(s) salvaged, "@
        + decimal(r.attachments as nat) + " attachment(s), "@ + decimal(r.bookmarks as nat)
        + " bookmark(s))"@
}

/// Says what was made of one PDF document.
pub fn pdf_summary(name: &str, target: &str, r: &pdf::Report) -> (out: String)
    ensures
        out@ == pdf_line(name@, target@, *r),
{
    let mut out = String::new();
    out.append(name);
    out.append(" -> ");
    out.append(target);
    out.append("  (");
    push_decimal(&mut out, r.embedded.saturating_add(r.drawn) as u64);
    out.append(" page(s) reproduced, ");
    push_decimal(&mut out, r.placeholders as u64);
    out.append(" not, ");
    push_decimal(&mut out, r.glyphs as u64);
    out.append(" character(s) of text, ");
    push_decimal(&mut out, r.pictures_placed as u64);
    out.append(" picture(s) salvaged, ");
    push_decimal(&mut out, r.attachments as u64);
    out.append(" attachment(s), ");
    push_decimal(&mut out, r.bookmarks as u64);
    out.append(" bookmark(s))");
    proof {
        assert(out@ =~= pdf_line(name@, target@, *r));
    }
    out
}

/// What is said of one HTML document.
pub open spec fn html_line(name: Seq<char>, target: Seq<char>, r: html::Report) -> Seq<char> {
    name + " -> "@ + target + "  ("@ + decimal(r.embedded as nat) + " page(s) reproduced, "@
        + decimal(r.gaps as nat) + " not, "@ + decimal(r.pictures as nat)
        + " picture(s) salvaged off them, "@ + decimal(r.attachments as nat)
        + " file(s) carried)"@
}

/// Says what was made of one HTML document.
pub fn html_summary(name: &str, target: &str, r: &html::Report) -> (out: String)
    ensures
        out@ == html_line(name@, target@, *r),
{
    let mut out = String::new();
    out.append(name);
    out.append(" -> ");
    out.append(target);
    out.append("  (");
    push_decimal(&mut out, r.embedded as u64);
    out.append(" page(s) reproduced, ");
    push_decimal(&mut out, r.gaps as u64);
    out.append(" not, ");
    push_decimal(&mut out, r.pictures as u64);
    out.append(" picture(s) salvaged off them, ");
    push_decimal(&mut out, r.attachments as u64);
    out.append(" file(s) carried)");
    proof {
        assert(out@ =~= html_line(name@, target@, *r));
    }
    out
}

} // verus!
