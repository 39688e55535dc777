//! Checking that a conversion kept every page.
//!
//! A bulk migration's worst failure is the quiet one: a few pages go missing
//! and nobody notices until the original is gone. The page table read out of
//! the container says how many pages there should be and how big each one is;
//! reading the converted file back is left to whatever tool is trusted for it.
use crate::binary32::one_decimal;
use crate::domain::document::{is_sheet, structural_coverage, Document};
use crate::domain::page::Page;
use crate::text::{decimal, digit_char, push_decimal, push_wide};
use vstd::prelude::*;
use vstd::string::*;

verus! {

/// What a converted document ought to look like.
#[derive(Debug, Clone, PartialEq, Eq)]
pub struct Expectation {
    /// Pages a faithful conversion should produce: the document's sheets.
    ///
    /// Thumbnails are not pages, and neither are the pictures a sheet is made
    /// of. Both are counted separately, so a converter that emitted either is
    /// recognisable from its page total alone.
    pub pages: usize,
    /// Thumbnail entries, listed so a count that includes them is recognisable.
    pub previews: usize,
    /// Picture entries, likewise.
    pub pictures: usize,
    /// Paper size of each page in hundredths of a millimetre, where the
    /// container records one. `None` means that nothing can be compared.
    pub sizes: Vec<Option<(u32, u32)>>,
}

/// The papers of the pages.
pub open spec fn papers(pages: Seq<Page>) -> Seq<Option<(u32, u32)>> {
    Seq::new(pages.len(), |i: int| pages[i].paper)
}

/// Millimetres to the nearest tenth, as a number of tenths; a hundredth that
/// lies between two goes up.
pub open spec fn tenths_of_paper(mm100: u32) -> nat {
    ((mm100 + 5) / 10) as nat
}

impl Expectation {
    /// Reads the expectation out of a parsed container.
    pub fn of(doc: &Document) -> (e: Expectation)
        ensures
            e.pages == doc.pages@.filter(|p: Page| is_sheet(p)).len(),
            e.previews == structural_coverage(doc.pages@).thumbnails,
            e.pictures == structural_coverage(doc.pages@).pictures,
            e.sizes@ == papers(doc.pages@.filter(|p: Page| is_sheet(p))),
    {
        let cov = doc.coverage();
        let pages = doc.sheets();
        let ghost sheets = pages@.unref();
        let mut sizes: Vec<Option<(u32, u32)>> = Vec::new();
        let mut i: usize = 0;
        while i < pages.len()
            invariant
                i <= pages@.len(),
                sheets == pages@.unref(),
                sizes@.len() == i,
                forall|k: int| 0 <= k < i ==> #[trigger] sizes@[k] == sheets[k].paper,
            decreases pages@.len() - i,
        {
            sizes.push(pages[i].paper);
            i += 1;
        }
        proof {
            assert(sizes@ =~= papers(sheets));
        }
        Expectation {
            pages: pages.len(),
            previews: cov.thumbnails,
            pictures: cov.pictures,
            sizes,
        }
    }

    /// The size of a page in tenths of a millimetre, for reporting.
    pub fn size_mm(&self, index: usize) -> (r: Option<(u32, u32)>)
        ensures
            r == (if index < self.sizes@.len() {
                match self.sizes@[index as int] {
                    Some((w, h)) => Some(
                        (tenths_of_paper(w) as u32, tenths_of_paper(h) as u32),
                    ),
                    None => None,
                }
            } else {
                None
            }),
    {
        if index >= self.sizes.len() {
            return None;
        }
        match self.sizes[index] {
            Some((w, h)) => Some(
                (((w as u64 + 5) / 10) as u32, ((h as u64 + 5) / 10) as u32),
            ),
            None => None,
        }
    }
}

/// One thing that does not line up.
#[derive(Debug, Clone, Copy, PartialEq, Eq)]
pub enum Finding {
    /// Pages are missing or extra. This is the one that matters.
    PageCount { expected: usize, observed: usize },
    /// The observed count matches pages and thumbnails together, which means
    /// that thumbnails were converted as pages.
    PreviewsConverted { previews: usize },
    /// The observed count matches pages plus the pictures placed on them, which
    /// means that each piece of page artwork got a sheet of its own.
    PicturesConverted { pictures: usize },
    /// A page came out a different size: what was expected in hundredths of a
    /// millimetre, what was observed in thousandths of a point.
    PageSize { index: usize, expected: (u32, u32), observed: (u32, u32) },
}

/// Millimetres to the nearest tenth, from thousandths of a point, as a number
/// of tenths.
pub open spec fn tenths_of_points(millipoints: u32) -> nat {
    ((millipoints * 254 + 36_000) / 72_000) as nat
}

/// Width and height as a report gives them.
pub open spec fn size_words(w: nat, h: nat) -> Seq<char> {
    one_decimal(w) + " x "@ + one_decimal(h) + " mm"@
}

/// What a report says of a finding.
pub open spec fn finding_text(f: Finding) -> Seq<char> {
    match f {
        Finding::PageCount { expected, observed } => {
            let counts = "page count: container says "@ + decimal(expected as nat)
                + ", converted file has "@ + decimal(observed as nat) + " ("@;
            if observed < expected {
                counts + decimal((expected - observed) as nat) + " missing)"@
            } else {
                counts + decimal((observed - expected) as nat) + " extra)"@
            }
        },
        Finding::PicturesConverted { pictures } => "the extra pages match the "@ + decimal(
            pictures as nat,
        )
            + " picture entr(y/ies); the converter gave each picture on a page a page of its own"@,
        Finding::PreviewsConverted { previews } => "the extra pages match the "@ + decimal(
            previews as nat,
        ) + " preview entries; the converter treated thumbnails as pages"@,
        Finding::PageSize { index, expected, observed } => "page "@ + decimal((index + 1) as nat)
            + ": container "@ + size_words(
            tenths_of_paper(expected.0),
            tenths_of_paper(expected.1),
        ) + ", converted "@ + size_words(
            tenths_of_points(observed.0),
            tenths_of_points(observed.1),
        ),
    }
}

/// Pages were lost, as against merely changed.
pub open spec fn means_loss(f: Finding) -> bool {
    f matches Finding::PageCount { expected, observed } && observed < expected
}

fn push_tenths(s: &mut String, tenths: u64)
    ensures
        final(s)@ == old(s)@ + one_decimal(tenths as nat),
{
    push_decimal(s, tenths / 10);
    s.push('.');
    s.push(digit_char(tenths % 10));
    proof {
        assert(s@ =~= old(s)@ + one_decimal(tenths as nat));
    }
}

fn push_size(s: &mut String, w: u64, h: u64)
    ensures
        final(s)@ == old(s)@ + size_words(w as nat, h as nat),
{
    push_tenths(s, w);
    s.append(" x ");
    push_tenths(s, h);
    s.append(" mm");
    proof {
        assert(s@ =~= old(s)@ + size_words(w as nat, h as nat));
    }
}

impl Finding {
    /// Whether this means pages were lost, as against merely changed.
    pub fn is_loss(&self) -> (r: bool)
        ensures
            r == means_loss(*self),
    {
        match self {
            Finding::PageCount { expected, observed } => *observed < *expected,
            _ => false,
        }
    }

    /// The finding in words.
    pub fn describe(&self) -> (s: String)
        ensures
            s@ == finding_text(*self),
    {
        let mut s = String::new();
        match self {
            Finding::PageCount { expected, observed } => {
                s.append("page count: container says ");
                push_decimal(&mut s, *expected as u64);
                s.append(", converted file has ");
                push_decimal(&mut s, *observed as u64);
                s.append(" (");
                if *observed < *expected {
                    push_decimal(&mut s, (*expected - *observed) as u64);
                    s.append(" missing)");
                } else {
                    push_decimal(&mut s, (*observed - *expected) as u64);
                    s.append(" extra)");
                }
            },
            Finding::PicturesConverted { pictures } => {
                s.append("the extra pages match the ");
                push_decimal(&mut s, *pictures as u64);
                s.append(
                    " picture entr(y/ies); the converter gave each picture on a page a page of its own",
                );
            },
            Finding::PreviewsConverted { previews } => {
                s.append("the extra pages match the ");
                push_decimal(&mut s, *previews as u64);
                s.append(" preview entries; the converter treated thumbnails as pages");
            },
            Finding::PageSize { index, expected, observed } => {
                s.append("page ");
                push_wide(&mut s, *index as u128 + 1);
                s.append(": container ");
                push_size(
                    &mut s,
                    (expected.0 as u64 + 5) / 10,
                    (expected.1 as u64 + 5) / 10,
                );
                s.append(", converted ");
                push_size(
                    &mut s,
                    (observed.0 as u64 * 254 + 36_000) / 72_000,
                    (observed.1 as u64 * 254 + 36_000) / 72_000,
                );
            },
        }
        proof {
            assert(s@ =~= finding_text(*self));
        }
        s
    }
}

/// The outcome of a comparison.
#[derive(Debug, Clone, PartialEq, Eq)]
pub struct Report {
    pub expected_pages: usize,
    pub observed_pages: usize,
    /// How many page sizes could actually be compared.
    pub compared_sizes: usize,
    pub findings: Vec<Finding>,
}

impl Report {
    /// Nothing differs at all.
    pub fn is_clean(&self) -> (r: bool)
        ensures
            r == (self.findings@.len() == 0),
    {
        self.findings.len() == 0
    }

    /// No page went missing, whatever else differs.
    pub fn pages_all_present(&self) -> (r: bool)
        ensures
            r == (forall|i: int|
                0 <= i < self.findings@.len() ==> !means_loss(#[trigger] self.findings@[i])),
    {
        let mut i: usize = 0;
        while i < self.findings.len()
            invariant
                i <= self.findings@.len(),
                forall|k: int| 0 <= k < i ==> !means_loss(#[trigger] self.findings@[k]),
            decreases self.findings@.len() - i,
        {
            if self.findings[i].is_loss() {
                assert(means_loss(self.findings@[i as int]));
                return false;
            }
            i += 1;
        }
        true
    }
}

/// How much two lengths may differ before it counts, in thousandths of a point.
///
/// Converters round paper to whole millimetres or to a standard sheet, so a
/// couple of points of drift is normal and anything past that is a real change
/// of size.
pub const SIZE_TOLERANCE: u32 = 2000;

/// A length in hundredths of a millimetre and one in thousandths of a point are
/// within the tolerance. A point is 25.4 / 72 millimetres.
pub open spec fn same_length(mm100: u32, millipoints: u32) -> bool {
    let d = mm100 * 72_000 - millipoints * 2540;
    -(SIZE_TOLERANCE * 2540) <= d <= SIZE_TOLERANCE * 2540
}

/// Sizes match either way round: turning a page loses nothing.
pub open spec fn same_size(a: (u32, u32), b: (u32, u32)) -> bool {
    (same_length(a.0, b.0) && same_length(a.1, b.1)) || (same_length(a.0, b.1) && same_length(
        a.1,
        b.0,
    ))
}

fn is_same_length(mm100: u32, millipoints: u32) -> (r: bool)
    ensures
        r == same_length(mm100, millipoints),
{
    let d: i64 = mm100 as i64 * 72_000 - millipoints as i64 * 2540;
    -(2000 * 2540) <= d && d <= 2000 * 2540
}

fn close(a: (u32, u32), b: (u32, u32)) -> (r: bool)
    ensures
        r == same_size(a, b),
{
    (is_same_length(a.0, b.0) && is_same_length(a.1, b.1)) || (is_same_length(a.0, b.1)
        && is_same_length(a.1, b.0))
}

/// What the page count alone shows.
pub open spec fn count_findings(
    pages: usize,
    previews: usize,
    pictures: usize,
    observed: usize,
) -> Seq<Finding> {
    if observed == pages {
        Seq::empty()
    } else {
        seq![Finding::PageCount { expected: pages, observed }] + (if observed == pages + previews
            && previews > 0 {
            seq![Finding::PreviewsConverted { previews }]
        } else {
            Seq::empty()
        }) + (if observed == pages + pictures && pictures > 0 {
            seq![Finding::PicturesConverted { pictures }]
        } else {
            Seq::empty()
        })
    }
}

/// The size of page `i` can be compared.
pub open spec fn comparable(
    sizes: Seq<Option<(u32, u32)>>,
    observed: Seq<(u32, u32)>,
    i: int,
) -> bool {
    sizes[i] is Some && i < observed.len()
}

/// What the sizes of the first `n` pages show.
pub open spec fn size_findings(
    sizes: Seq<Option<(u32, u32)>>,
    observed: Seq<(u32, u32)>,
    n: int,
) -> Seq<Finding>
    decreases n,
{
    if n <= 0 {
        Seq::empty()
    } else {
        let before = size_findings(sizes, observed, n - 1);
        let i = n - 1;
        if comparable(sizes, observed, i) && !same_size(sizes[i]->0, observed[i]) {
            before.push(
                Finding::PageSize {
                    index: i as usize,
                    expected: sizes[i]->0,
                    observed: observed[i],
                },
            )
        } else {
            before
        }
    }
}

/// How many of the first `n` sizes can be compared.
pub open spec fn compared_below(
    sizes: Seq<Option<(u32, u32)>>,
    observed: Seq<(u32, u32)>,
    n: int,
) -> nat
    decreases n,
{
    if n <= 0 {
        0
    } else {
        compared_below(sizes, observed, n - 1) + (if comparable(sizes, observed, n - 1) {
            1nat
        } else {
            0
        })
    }
}

/// Compares the container's expectation with what a tool reported of the
/// converted file.
///
/// `observed_sizes` is in thousandths of a point and may be empty, in which
/// case only the page count is compared.
pub fn compare(
    expected: &Expectation,
    observed_pages: usize,
    observed_sizes: &[(u32, u32)],
) -> (r: Report)
    ensures
        r.expected_pages == expected.pages,
        r.observed_pages == observed_pages,
        r.compared_sizes == compared_below(
            expected.sizes@,
            observed_sizes@,
            expected.sizes@.len() as int,
        ),
        r.findings@ == count_findings(
            expected.pages,
            expected.previews,
            expected.pictures,
            observed_pages,
        ) + size_findings(expected.sizes@, observed_sizes@, expected.sizes@.len() as int),
{
    let mut findings: Vec<Finding> = Vec::new();
    if observed_pages != expected.pages {
        findings.push(
            Finding::PageCount { expected: expected.pages, observed: observed_pages },
        );
        if observed_pages as u128 == expected.pages as u128 + expected.previews as u128
            && expected.previews > 0 {
            findings.push(Finding::PreviewsConverted { previews: expected.previews });
        }
        if observed_pages as u128 == expected.pages as u128 + expected.pictures as u128
            && expected.pictures > 0 {
            findings.push(Finding::PicturesConverted { pictures: expected.pictures });
        }
    }
    let ghost counted = count_findings(
        expected.pages,
        expected.previews,
        expected.pictures,
        observed_pages,
    );
    proof {
        assert(findings@ =~= counted);
        assert(counted + size_findings(expected.sizes@, observed_sizes@, 0) =~= counted);
    }
    let mut compared: usize = 0;
    let mut i: usize = 0;
    while i < expected.sizes.len()
        invariant
            i <= expected.sizes@.len(),
            compared <= i,
            compared == compared_below(expected.sizes@, observed_sizes@, i as int),
            findings@ == counted + size_findings(expected.sizes@, observed_sizes@, i as int),
        decreases expected.sizes@.len() - i,
    {
        match expected.sizes[i] {
            Some(want) => {
                if i < observed_sizes.len() {
                    let got: (u32, u32) = observed_sizes[i];
                    compared += 1;
                    if !close(want, got) {
                        let finding = Finding::PageSize { index: i, expected: want, observed: got };
                        proof {
                            let before = size_findings(expected.sizes@, observed_sizes@, i as int);
                            assert((counted + before).push(finding) =~= counted + before.push(
                                finding,
                            ));
                        }
                        findings.push(finding);
                    }
                }
            },
            None => {},
        }
        i += 1;
    }
    Report {
        expected_pages: expected.pages,
        observed_pages,
        compared_sizes: compared,
        findings,
    }
}

proof fn lemma_sizes_are_no_loss(sizes: Seq<Option<(u32, u32)>>, observed: Seq<(u32, u32)>, n: int)
    ensures
        forall|i: int|
            0 <= i < size_findings(sizes, observed, n).len() ==> !means_loss(
                #[trigger] size_findings(sizes, observed, n)[i],
            ),
    decreases n,
{
    if n > 0 {
        lemma_sizes_are_no_loss(sizes, observed, n - 1);
        let before = size_findings(sizes, observed, n - 1);
        let all = size_findings(sizes, observed, n);
        assert forall|i: int| 0 <= i < all.len() implies !means_loss(#[trigger] all[i]) by {
            if i < before.len() {
                assert(all[i] == before[i]);
            }
        }
    }
}

/// A conversion that lost a page is always found out, and one that lost none is
/// never said to have.
pub proof fn law_loss_is_found(
    e: Expectation,
    observed: usize,
    sizes: Seq<(u32, u32)>,
)
    ensures
        ({
            let findings = count_findings(e.pages, e.previews, e.pictures, observed)
                + size_findings(e.sizes@, sizes, e.sizes@.len() as int);
            (exists|i: int| 0 <= i < findings.len() && means_loss(#[trigger] findings[i]))
                <==> observed < e.pages
        }),
{
    let counted = count_findings(e.pages, e.previews, e.pictures, observed);
    let sized = size_findings(e.sizes@, sizes, e.sizes@.len() as int);
    let findings = counted + sized;
    lemma_sizes_are_no_loss(e.sizes@, sizes, e.sizes@.len() as int);
    if observed < e.pages {
        assert(findings[0] == counted[0]);
        assert(means_loss(findings[0]));
    } else {
        assert forall|i: int| 0 <= i < findings.len() implies !means_loss(#[trigger] findings[i]) by {
            if i < counted.len() {
                assert(findings[i] == counted[i]);
            } else {
                assert(findings[i] == sized[i - counted.len()]);
            }
        }
    }
}

} // verus!
