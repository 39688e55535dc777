//! Whole archives in tables: what a faithful conversion must contain, whether
//! one does, and what an archive is made of.
use crate::application::service::Analysis;
use crate::application::verification::{finding_text, means_loss, Expectation, Finding, Report};
use crate::binary32::{one_decimal, push_quotient, quotient_tenths};
use crate::commands::csv::{csv_field, field};
use crate::domain::coverage::Coverage;
use crate::domain::document::Document;
use crate::domain::page::{kind_name_of, Page, Role};
use crate::domain::policy::{verdict_meaning, verdict_name};
use crate::text::{
    decimal, padded, push_decimal, push_filled, push_spaced, same_text, spaced,
};
use vstd::prelude::*;
use vstd::string::*;

verus! {

// ------------------------------------------------------------- the manifest

pub const MANIFEST_HEAD: &'static str = "path,page,kind,width_mm,height_mm,recoverable\n";

/// Width and height in millimetres, as two fields; empty where the paper is
/// not known.
pub open spec fn size_fields(paper: Option<(u32, u32)>) -> Seq<char> {
    match paper {
        Some((w, h)) => one_decimal(quotient_tenths(w as nat, 100)) + ","@ + one_decimal(
            quotient_tenths(h as nat, 100),
        ),
        None => ","@,
    }
}

/// The paper of the page at place `i`, as far as the expectation knows it.
pub open spec fn expected_paper(sizes: Seq<Option<(u32, u32)>>, i: int) -> Option<(u32, u32)> {
    if 0 <= i < sizes.len() {
        sizes[i]
    } else {
        None
    }
}

/// One row of the manifest.
pub open spec fn manifest_row(
    file: Seq<char>,
    i: int,
    p: Page,
    sizes: Seq<Option<(u32, u32)>>,
) -> Seq<char> {
    field(file) + ","@ + decimal((i + 1) as nat) + ","@ + kind_name_of(p.data) + ","@ + size_fields(
        expected_paper(sizes, i),
    ) + ","@ + (if p.data is Jpeg {
        "true"@
    } else {
        "false"@
    }) + "\n"@
}

/// The rows for the first `k` of the pages that count.
pub open spec fn manifest(
    file: Seq<char>,
    pages: Seq<Page>,
    sizes: Seq<Option<(u32, u32)>>,
    k: int,
) -> Seq<char>
    decreases k,
{
    if k <= 0 {
        Seq::empty()
    } else {
        manifest(file, pages, sizes, k - 1) + manifest_row(file, k - 1, pages[k - 1], sizes)
    }
}

fn push_size(out: &mut String, paper: Option<(u32, u32)>)
    ensures
        final(out)@ == old(out)@ + size_fields(paper),
{
    match paper {
        Some((w, h)) => {
            push_quotient(out, w as u64, 100);
            out.append(",");
            push_quotient(out, h as u64, 100);
        },
        None => out.append(","),
    }
    proof {
        assert(out@ =~= old(out)@ + size_fields(paper));
    }
}

fn write_manifest_row(file: &str, i: usize, p: &Page, sizes: &Vec<Option<(u32, u32)>>) -> (out:
    String)
    requires
        i < usize::MAX,
    ensures
        out@ == manifest_row(file@, i as int, *p, sizes@),
{
    let mut out = csv_field(file);
    out.append(",");
    push_decimal(&mut out, (i + 1) as u64);
    out.append(",");
    out.append(p.kind_name());
    out.append(",");
    let paper: Option<(u32, u32)> = if i < sizes.len() {
        sizes[i]
    } else {
        None
    };
    push_size(&mut out, paper);
    out.append(",");
    if p.is_recoverable() {
        out.append("true");
    } else {
        out.append("false");
    }
    out.append("\n");
    proof {
        assert(out@ =~= manifest_row(file@, i as int, *p, sizes@));
    }
    out
}

/// The rows of the manifest for one document: each page that a faithful
/// conversion has.
pub fn manifest_rows(file: &str, doc: &Document, exp: &Expectation) -> (out: String)
    ensures
        ({
            let pages = doc.pages@.filter(|p: Page| p.role != Role::Thumbnail);
            out@ == manifest(file@, pages, exp.sizes@, pages.len() as int)
        }),
{
    let pages = doc.content_pages();
    let ghost content = pages@.unref();
    let mut out = String::new();
    let mut i: usize = 0;
    proof {
        assert(out@ =~= Seq::empty());
    }
    while i < pages.len()
        invariant
            i <= pages@.len(),
            content == pages@.unref(),
            out@ == manifest(file@, content, exp.sizes@, i as int),
        decreases pages@.len() - i,
    {
        assert(i < pages.len());
        let row = write_manifest_row(file, i, pages[i], &exp.sizes);
        out.append(row.as_str());
        i += 1;
    }
    out
}

/// What is said of a document's manifest.
pub open spec fn manifest_line(name: Seq<char>, pages: nat, previews: nat) -> Seq<char> {
    name + ": a faithful conversion has "@ + decimal(pages) + " page(s)  ("@ + decimal(previews)
        + " preview entr(y/ies) must not appear)"@
}

/// Says how many pages a faithful conversion has.
pub fn manifest_summary(name: &str, exp: &Expectation) -> (out: String)
    ensures
        out@ == manifest_line(name@, exp.pages as nat, exp.previews as nat),
{
    let mut out = String::new();
    out.append(name);
    out.append(": a faithful conversion has ");
    push_decimal(&mut out, exp.pages as u64);
    out.append(" page(s)  (");
    push_decimal(&mut out, exp.previews as u64);
    out.append(" preview entr(y/ies) must not appear)");
    proof {
        assert(out@ =~= manifest_line(name@, exp.pages as nat, exp.previews as nat));
    }
    out
}

// ----------------------------------------------------------- the comparison

/// The lines on the first `k` findings.
pub open spec fn finding_lines(v: Seq<Finding>, k: int) -> Seq<char>
    decreases k,
{
    if k <= 0 {
        Seq::empty()
    } else {
        finding_lines(v, k - 1) + "  ! "@ + finding_text(v[k - 1]) + "\n"@
    }
}

/// The last line of a comparison.
pub open spec fn conclusion(clean: bool, present: bool) -> Seq<char> {
    if clean {
        "  OK: page counts agree\n"@
    } else if present {
        "  no page is missing; see the notes above\n"@
    } else {
        ""@
    }
}

/// No finding means that a page is missing.
pub open spec fn nothing_lost(v: Seq<Finding>) -> bool {
    forall|i: int| 0 <= i < v.len() ==> !means_loss(#[trigger] v[i])
}

/// What a comparison comes to.
pub open spec fn comparison(name: Seq<char>, r: Report) -> Seq<char> {
    name + ": container "@ + decimal(r.expected_pages as nat) + " page(s), converted file "@
        + decimal(r.observed_pages as nat) + " page(s)\n"@ + finding_lines(
        r.findings@,
        r.findings@.len() as int,
    ) + conclusion(r.findings@.len() == 0, nothing_lost(r.findings@))
}

fn write_findings(v: &Vec<Finding>) -> (out: String)
    ensures
        out@ == finding_lines(v@, v@.len() as int),
{
    let mut out = String::new();
    let mut i: usize = 0;
    proof {
        assert(out@ =~= Seq::empty());
    }
    while i < v.len()
        invariant
            i <= v@.len(),
            out@ == finding_lines(v@, i as int),
        decreases v@.len() - i,
    {
        out.append("  ! ");
        let text = v[i].describe();
        out.append(text.as_str());
        out.append("\n");
        i += 1;
    }
    out
}

/// Says what a comparison comes to, and whether the page counts agree.
pub fn comparison_text(name: &str, r: &Report) -> (out: (String, bool))
    ensures
        out.0@ == comparison(name@, *r),
        out.1 == (r.observed_pages == r.expected_pages),
{
    let mut out = String::new();
    out.append(name);
    out.append(": container ");
    push_decimal(&mut out, r.expected_pages as u64);
    out.append(" page(s), converted file ");
    push_decimal(&mut out, r.observed_pages as u64);
    out.append(" page(s)\n");
    let findings = write_findings(&r.findings);
    out.append(findings.as_str());
    let clean: bool = r.is_clean();
    let present: bool = r.pages_all_present();
    if clean {
        out.append("  OK: page counts agree\n");
    } else if present {
        out.append("  no page is missing; see the notes above\n");
    } else {
        out.append("");
    }
    proof {
        assert(out@ =~= comparison(name@, *r));
    }
    (out, r.observed_pages == r.expected_pages)
}

// --------------------------------------------------------------- the archive

pub const TRIAGE_HEAD: &'static str = "path,bytes,generation,entries,sheets,thumbnails,pictures,sheets_in_vendor_coding,blank_pages,recovered,attachments,verdict,note\n";

/// How many of a kind of document there are, with how many sheets, and how
/// many of these come out blank.
pub struct Tally {
    pub kind: String,
    pub files: usize,
    pub sheets: usize,
    pub blank: usize,
}

/// A tally as a value.
pub struct TallyModel {
    pub kind: Seq<char>,
    pub files: usize,
    pub sheets: usize,
    pub blank: usize,
}

impl View for Tally {
    type V = TallyModel;

    open spec fn view(&self) -> TallyModel {
        TallyModel {
            kind: self.kind@,
            files: self.files,
            sheets: self.sheets,
            blank: self.blank,
        }
    }
}

/// The tallies as values.
pub open spec fn tallies(v: Seq<Tally>) -> Seq<TallyModel> {
    Seq::new(v.len(), |i: int| v[i]@)
}

/// A sum that stops at the largest number.
pub open spec fn sum(a: usize, b: usize) -> usize {
    if a + b <= usize::MAX {
        (a + b) as usize
    } else {
        usize::MAX
    }
}

/// The first tally of a kind at or behind place `k`; as many as there are,
/// where there is none.
pub open spec fn place_of(v: Seq<TallyModel>, kind: Seq<char>, k: int) -> int
    decreases v.len() - k,
{
    if k < 0 || k >= v.len() {
        v.len() as int
    } else if v[k].kind == kind {
        k
    } else {
        place_of(v, kind, k + 1)
    }
}

/// One document more of a kind.
pub open spec fn counted(v: Seq<TallyModel>, kind: Seq<char>, sheets: usize, blank: usize) -> Seq<
    TallyModel,
> {
    let i = place_of(v, kind, 0);
    if i < v.len() {
        v.update(
            i,
            TallyModel {
                kind,
                files: sum(v[i].files, 1),
                sheets: sum(v[i].sheets, sheets),
                blank: sum(v[i].blank, blank),
            },
        )
    } else {
        v.push(TallyModel { kind, files: 1, sheets, blank })
    }
}

/// The row on a document.
pub open spec fn triage_row(path: Seq<char>, len: nat, doc: Document, a: Analysis) -> Seq<char> {
    let c = a.coverage;
    field(path) + ","@ + decimal(len) + ","@ + decimal(doc.generation as nat) + ","@ + decimal(
        doc.pages@.len(),
    ) + ","@ + decimal(c.sheets as nat) + ","@ + decimal(c.thumbnails as nat) + ","@ + decimal(
        c.pictures as nat,
    ) + ","@ + decimal(left_coded(c)) + ","@ + decimal(c.sheets_blank as nat) + ","@ + decimal(
        sum(c.sheets_recovered, c.pictures_recovered) as nat,
    ) + ","@ + decimal(a.attachments@.len()) + ","@ + verdict_name(a.verdict) + ","@ + field(
        verdict_meaning(a.verdict),
    ) + "\n"@
}

/// How many sheets are left in the container's own coding.
pub open spec fn left_coded(c: Coverage) -> nat {
    if c.sheets >= c.sheets_recovered {
        (c.sheets - c.sheets_recovered) as nat
    } else {
        0
    }
}

/// The row on a file that is something else.
pub open spec fn other_row(path: Seq<char>, len: nat, looks_like: Seq<char>) -> Seq<char> {
    field(path) + ","@ + decimal(len) + ",,,,,,,,,,OTHER,"@ + field(looks_like) + "\n"@
}

/// An archive, as far as it has been gone through.
pub struct Archive {
    pub csv: String,
    pub tally: Vec<Tally>,
    /// Files that could not be read.
    pub failed: usize,
}

/// An archive as a value.
pub struct ArchiveModel {
    pub csv: Seq<char>,
    pub tally: Seq<TallyModel>,
    pub failed: usize,
}

impl View for Archive {
    type V = ArchiveModel;

    open spec fn view(&self) -> ArchiveModel {
        ArchiveModel { csv: self.csv@, tally: tallies(self.tally@), failed: self.failed }
    }
}

fn find_place(v: &Vec<Tally>, kind: &str) -> (i: usize)
    ensures
        i == place_of(tallies(v@), kind@, 0),
        i <= v@.len(),
{
    let mut i: usize = 0;
    while i < v.len()
        invariant
            i <= v@.len(),
            place_of(tallies(v@), kind@, 0) == place_of(tallies(v@), kind@, i as int),
        decreases v@.len() - i,
    {
        proof {
            assert(tallies(v@)[i as int].kind == v@[i as int].kind@);
        }
        if same_text(v[i].kind.as_str(), kind) {
            return i;
        }
        i += 1;
    }
    i
}

fn count(v: &mut Vec<Tally>, kind: &str, sheets: usize, blank: usize)
    ensures
        tallies(final(v)@) == counted(tallies(old(v)@), kind@, sheets, blank),
{
    let i: usize = find_place(v, kind);
    let ghost before = v@;
    if i < v.len() {
        let t = Tally {
            kind: kind.to_owned(),
            files: v[i].files.saturating_add(1),
            sheets: v[i].sheets.saturating_add(sheets),
            blank: v[i].blank.saturating_add(blank),
        };
        let ghost m = t@;
        v.set(i, t);
        proof {
            assert(tallies(v@) =~= tallies(before).update(i as int, m));
        }
    } else {
        let t = Tally { kind: kind.to_owned(), files: 1, sheets, blank };
        let ghost m = t@;
        v.push(t);
        proof {
            assert(tallies(v@) =~= tallies(before).push(m));
        }
    }
}

fn write_triage_row(path: &str, len: usize, doc: &Document, a: &Analysis) -> (out: String)
    ensures
        out@ == triage_row(path@, len as nat, *doc, *a),
{
    let c: Coverage = a.coverage;
    let mut out = csv_field(path);
    out.append(",");
    push_decimal(&mut out, len as u64);
    out.append(",");
    push_decimal(&mut out, doc.generation as u64);
    out.append(",");
    push_decimal(&mut out, doc.pages.len() as u64);
    out.append(",");
    push_decimal(&mut out, c.sheets as u64);
    out.append(",");
    push_decimal(&mut out, c.thumbnails as u64);
    out.append(",");
    push_decimal(&mut out, c.pictures as u64);
    out.append(",");
    push_decimal(&mut out, c.printer_derived() as u64);
    out.append(",");
    push_decimal(&mut out, c.sheets_blank as u64);
    out.append(",");
    push_decimal(&mut out, c.sheets_recovered.saturating_add(c.pictures_recovered) as u64);
    out.append(",");
    push_decimal(&mut out, a.attachments.len() as u64);
    out.append(",");
    out.append(a.verdict.as_str());
    out.append(",");
    let note = csv_field(a.verdict.explain());
    out.append(note.as_str());
    out.append("\n");
    proof {
        assert(out@ =~= triage_row(path@, len as nat, *doc, *a));
    }
    out
}

impl Archive {
    /// Nothing has been gone through.
    pub fn new() -> (r: Archive)
        ensures
            r@ == (ArchiveModel { csv: TRIAGE_HEAD@, tally: Seq::empty(), failed: 0 }),
    {
        let r = Archive { csv: TRIAGE_HEAD.to_owned(), tally: Vec::new(), failed: 0 };
        proof {
            assert(r@.tally =~= Seq::empty());
        }
        r
    }

    /// Takes down a document.
    pub fn add(&mut self, path: &str, len: usize, doc: &Document, a: &Analysis)
        ensures
            final(self)@ == (ArchiveModel {
                csv: old(self)@.csv + triage_row(path@, len as nat, *doc, *a),
                tally: counted(
                    old(self)@.tally,
                    verdict_name(a.verdict),
                    a.coverage.sheets,
                    a.coverage.sheets_blank,
                ),
                failed: old(self)@.failed,
            }),
    {
        let row = write_triage_row(path, len, doc, a);
        self.csv.append(row.as_str());
        count(&mut self.tally, a.verdict.as_str(), a.coverage.sheets, a.coverage.sheets_blank);
    }

    /// Takes down a file that is something else than its name says. That is no
    /// failure of the archive but a fact about it.
    pub fn add_other(&mut self, path: &str, len: u64, looks_like: &str)
        ensures
            final(self)@ == (ArchiveModel {
                csv: old(self)@.csv + other_row(path@, len as nat, looks_like@),
                tally: counted(old(self)@.tally, "OTHER"@, 0, 0),
                failed: old(self)@.failed,
            }),
    {
        let mut row = csv_field(path);
        row.append(",");
        push_decimal(&mut row, len);
        row.append(",,,,,,,,,,OTHER,");
        let what = csv_field(looks_like);
        row.append(what.as_str());
        row.append("\n");
        proof {
            assert(row@ =~= other_row(path@, len as nat, looks_like@));
        }
        self.csv.append(row.as_str());
        count(&mut self.tally, "OTHER", 0, 0);
    }

    /// Takes down a file that cannot be read.
    pub fn add_failure(&mut self)
        ensures
            final(self)@ == (ArchiveModel {
                failed: sum(old(self)@.failed, 1),
                ..old(self)@
            }),
    {
        self.failed = self.failed.saturating_add(1);
    }
}

/// The line on a kind of document.
pub open spec fn tally_line(t: TallyModel) -> Seq<char> {
    "  "@ + spaced(t.kind, 9) + " "@ + padded(decimal(t.files as nat), 6, ' ') + " file(s) / "@
        + padded(decimal(t.sheets as nat), 7, ' ') + " sheet(s) / "@ + padded(
        decimal(t.blank as nat),
        7,
        ' ',
    ) + " would come out blank\n"@
}

/// The lines on the first `k` kinds of document.
pub open spec fn tally_lines(v: Seq<TallyModel>, k: int) -> Seq<char>
    decreases k,
{
    if k <= 0 {
        Seq::empty()
    } else {
        tally_lines(v, k - 1) + tally_line(v[k - 1])
    }
}

/// The sheets of the first `k` kinds, and how many of them come out blank.
pub open spec fn all_sheets(v: Seq<TallyModel>, k: int) -> (usize, usize)
    decreases k,
{
    if k <= 0 {
        (0, 0)
    } else {
        let (sheets, blank) = all_sheets(v, k - 1);
        (sum(sheets, v[k - 1].sheets), sum(blank, v[k - 1].blank))
    }
}

/// What an archive is made of. The share of blank sheets, in hundredths, is
/// measured by the caller.
pub open spec fn archive_text(a: ArchiveModel, share: Seq<char>) -> Seq<char> {
    let (sheets, blank) = all_sheets(a.tally, a.tally.len() as int);
    tally_lines(a.tally, a.tally.len() as int) + (if sheets > 0 {
        "  "@ + decimal(blank as nat) + " of "@ + decimal(sheets as nat) + " sheet(s) ("@ + share
            + "%) would come out blank\n"@
    } else {
        ""@
    }) + (if a.failed > 0 {
        "  "@ + decimal(a.failed as nat) + " file(s) could not be read\n"@
    } else {
        ""@
    })
}

fn push_tally(out: &mut String, t: &Tally)
    ensures
        final(out)@ == old(out)@ + tally_line(t@),
{
    out.append("  ");
    push_spaced(out, t.kind.as_str(), 9);
    out.append(" ");
    push_filled(out, t.files as u64, 6, ' ');
    out.append(" file(s) / ");
    push_filled(out, t.sheets as u64, 7, ' ');
    out.append(" sheet(s) / ");
    push_filled(out, t.blank as u64, 7, ' ');
    out.append(" would come out blank\n");
    proof {
        assert(out@ =~= old(out)@ + tally_line(t@));
    }
}

fn push_share(out: &mut String, sheets: usize, blank: usize, share: &str)
    ensures
        final(out)@ == old(out)@ + (if sheets > 0 {
            "  "@ + decimal(blank as nat) + " of "@ + decimal(sheets as nat) + " sheet(s) ("@
                + share@ + "%) would come out blank\n"@
        } else {
            ""@
        }),
{
    if sheets > 0 {
        out.append("  ");
        push_decimal(out, blank as u64);
        out.append(" of ");
        push_decimal(out, sheets as u64);
        out.append(" sheet(s) (");
        out.append(share);
        out.append("%) would come out blank\n");
        proof {
            assert(out@ =~= old(out)@ + ("  "@ + decimal(blank as nat) + " of "@ + decimal(
                sheets as nat,
            ) + " sheet(s) ("@ + share@ + "%) would come out blank\n"@));
        }
    } else {
        out.append("");
    }
}

fn push_failed(out: &mut String, failed: usize)
    ensures
        final(out)@ == old(out)@ + (if failed > 0 {
            "  "@ + decimal(failed as nat) + " file(s) could not be read\n"@
        } else {
            ""@
        }),
{
    if failed > 0 {
        out.append("  ");
        push_decimal(out, failed as u64);
        out.append(" file(s) could not be read\n");
        proof {
            assert(out@ =~= old(out)@ + ("  "@ + decimal(failed as nat)
                + " file(s) could not be read\n"@));
        }
    } else {
        out.append("");
    }
}

impl Archive {
    /// How many sheets there are, and how many of them come out blank.
    pub fn sheets(&self) -> (r: (usize, usize))
        ensures
            r == all_sheets(self@.tally, self@.tally.len() as int),
    {
        let mut sheets: usize = 0;
        let mut blank: usize = 0;
        let mut i: usize = 0;
        while i < self.tally.len()
            invariant
                i <= self.tally@.len(),
                self@.tally == tallies(self.tally@),
                (sheets, blank) == all_sheets(self@.tally, i as int),
            decreases self.tally@.len() - i,
        {
            proof {
                assert(self@.tally[i as int] == self.tally@[i as int]@);
            }
            sheets = sheets.saturating_add(self.tally[i].sheets);
            blank = blank.saturating_add(self.tally[i].blank);
            i += 1;
        }
        (sheets, blank)
    }

    /// Says what the archive is made of. The number of blank sheets is what a
    /// migration is sized by.
    pub fn summary(&self, share: &str) -> (out: String)
        ensures
            out@ == archive_text(self@, share@),
    {
        let mut out = String::new();
        let mut i: usize = 0;
        proof {
            assert(out@ =~= Seq::empty());
        }
        while i < self.tally.len()
            invariant
                i <= self.tally@.len(),
                self@.tally == tallies(self.tally@),
                out@ == tally_lines(self@.tally, i as int),
            decreases self.tally@.len() - i,
        {
            proof {
                assert(self@.tally[i as int] == self.tally@[i as int]@);
            }
            push_tally(&mut out, &self.tally[i]);
            i += 1;
        }
        let (sheets, blank): (usize, usize) = self.sheets();
        push_share(&mut out, sheets, blank, share);
        push_failed(&mut out, self.failed);
        out
    }
}

} // verus!
