//! Lays the page table out as the document properties show it.
use crate::domain::document::{display_models, DisplayMember, DisplayModel, DisplayPage};
use crate::domain::page::{
    duplicate_overlays, overlay_models, page_models, Overlay, OverlayModel, Page, PageData,
    PageModel, PagePlacement, Role,
};
use crate::infrastructure::xdw_properties::{info_models, InfoModel, PageInfo};
use vstd::prelude::*;

verus! {

/// How far two lengths of one paper may differ, in hundredths of a millimetre.
pub const PAPER_TOLERANCE: u32 = 100;

/// Two lengths are the same paper's, up to rounding.
pub open spec fn close(a: u32, b: u32) -> bool {
    -PAPER_TOLERANCE <= a - b <= PAPER_TOLERANCE
}

fn is_close(a: u32, b: u32) -> (r: bool)
    ensures
        r == close(a, b),
{
    if a > b {
        a - b <= PAPER_TOLERANCE
    } else {
        b - a <= PAPER_TOLERANCE
    }
}

// ------------------------------------------------------- counting what is there

/// The positions of the sheets among the first `n` entries.
pub open spec fn sheets_below(pages: Seq<PageModel>, n: int) -> Seq<usize>
    decreases n,
{
    if n <= 0 {
        Seq::empty()
    } else if pages[n - 1].role == Role::Sheet {
        sheets_below(pages, n - 1).push((n - 1) as usize)
    } else {
        sheets_below(pages, n - 1)
    }
}

/// The positions of the sheets.
pub open spec fn sheet_positions(pages: Seq<PageModel>) -> Seq<usize> {
    sheets_below(pages, pages.len() as int)
}

/// How many page bodies the first `n` descriptions place.
pub open spec fn placed_below(shown: Seq<InfoModel>, n: int) -> nat
    decreases n,
{
    if n <= 0 {
        0
    } else {
        placed_below(shown, n - 1) + shown[n - 1].placements.len()
    }
}

/// How many of the first `n` descriptions place exactly one page body.
pub open spec fn singles_below(shown: Seq<InfoModel>, n: int) -> nat
    decreases n,
{
    if n <= 0 {
        0
    } else {
        singles_below(shown, n - 1) + (if shown[n - 1].placements.len() == 1 {
            1nat
        } else {
            0
        })
    }
}

/// A sheet that says something about itself.
pub open spec fn has_shape(p: PageModel) -> bool {
    !(p.data is Bare) || p.paper is Some || p.pixels is Some
}

/// How many of the first `n` sheets say something about themselves.
pub open spec fn shaped_below(pages: Seq<PageModel>, sheets: Seq<usize>, n: int) -> nat
    decreases n,
{
    if n <= 0 {
        0
    } else {
        shaped_below(pages, sheets, n - 1) + (if has_shape(pages[sheets[n - 1] as int]) {
            1nat
        } else {
            0
        })
    }
}

/// The descriptions match the page table well enough to compose pages by them.
///
/// A container that was saved over can keep old bodies in its table. One
/// description with one reference is still trusted then. Where there are more
/// descriptions than bodies, none is repeated. Explicit blank pages are
/// trusted where every other description places one body.
pub open spec fn trusted(pages: Seq<PageModel>, shown: Seq<InfoModel>) -> bool {
    let sheets = sheet_positions(pages);
    let placed = placed_below(shown, shown.len() as int);
    ||| shown.len() == sheets.len()
    ||| shown.len() == 1 && placed == sheets.len()
    ||| shown.len() == 1 && placed > 0 && shaped_below(pages, sheets, sheets.len() as int) <= placed
    ||| placed == sheets.len() && singles_below(shown, shown.len() as int) == placed
}

pub proof fn lemma_sheets_below(pages: Seq<PageModel>, n: int)
    requires
        0 <= n <= pages.len(),
    ensures
        sheets_below(pages, n).len() <= n,
        forall|k: int| 0 <= k < sheets_below(pages, n).len() ==> #[trigger] sheets_below(pages, n)[k] < n,
    decreases n,
{
    if n > 0 {
        lemma_sheets_below(pages, n - 1);
    }
}

fn find_sheets(pages: &Vec<Page>) -> (v: Vec<usize>)
    ensures
        v@ == sheet_positions(page_models(pages@)),
        forall|k: int| 0 <= k < v@.len() ==> #[trigger] v@[k] < pages@.len(),
{
    let mut v: Vec<usize> = Vec::new();
    let mut i: usize = 0;
    while i < pages.len()
        invariant
            i <= pages@.len(),
            v@ == sheets_below(page_models(pages@), i as int),
        decreases pages@.len() - i,
    {
        if pages[i].is_sheet() {
            v.push(i);
        }
        i += 1;
    }
    proof {
        lemma_sheets_below(page_models(pages@), i as int);
    }
    v
}

fn is_trusted(pages: &Vec<Page>, sheets: &Vec<usize>, shown: &Vec<PageInfo>) -> (r: bool)
    requires
        sheets@ == sheet_positions(page_models(pages@)),
        forall|k: int| 0 <= k < sheets@.len() ==> #[trigger] sheets@[k] < pages@.len(),
    ensures
        r == trusted(page_models(pages@), info_models(shown@)),
{
    let ghost m = info_models(shown@);
    let mut placed: u128 = 0;
    let mut singles: u128 = 0;
    let mut i: usize = 0;
    while i < shown.len()
        invariant
            i <= shown@.len(),
            m == info_models(shown@),
            placed == placed_below(m, i as int),
            singles == singles_below(m, i as int),
            placed <= i * usize::MAX,
            singles <= i,
        decreases shown@.len() - i,
    {
        let n: usize = shown[i].placements.len();
        proof {
            assert(i * usize::MAX + usize::MAX == (i + 1) * usize::MAX) by (nonlinear_arith);
            assert((i + 1) * usize::MAX <= 0x1_0000_0000_0000_0000 * 0xFFFF_FFFF_FFFF_FFFF)
                by (nonlinear_arith)
                requires
                    i < 0xFFFF_FFFF_FFFF_FFFF,
                    usize::MAX <= 0xFFFF_FFFF_FFFF_FFFF,
            ;
        }
        placed += n as u128;
        if n == 1 {
            singles += 1;
        }
        i += 1;
    }
    let mut shaped: usize = 0;
    let mut k: usize = 0;
    while k < sheets.len()
        invariant
            k <= sheets@.len(),
            forall|j: int| 0 <= j < sheets@.len() ==> #[trigger] sheets@[j] < pages@.len(),
            shaped == shaped_below(page_models(pages@), sheets@, k as int),
            shaped <= k,
        decreases sheets@.len() - k,
    {
        let p = &pages[sheets[k]];
        let bare: bool = match p.data {
            PageData::Bare { .. } => true,
            _ => false,
        };
        if !bare || p.paper.is_some() || p.pixels.is_some() {
            shaped += 1;
        }
        k += 1;
    }
    let bodies: u128 = sheets.len() as u128;
    shown.len() == sheets.len() || (shown.len() == 1 && placed == bodies) || (shown.len() == 1
        && placed > 0 && shaped as u128 <= placed) || (placed == bodies && singles == placed)
}

// ------------------------------------------------------- attributes, one to one

/// The page with the rotation, the paper and the overlays of a description.
pub open spec fn attributed(p: PageModel, info: InfoModel) -> PageModel {
    PageModel {
        rotation: info.rotation,
        paper: if info.paper is Some {
            info.paper
        } else {
            p.paper
        },
        overlays: info.overlays,
        ..p
    }
}

/// The pages once the first `n` sheets have the attributes of the description
/// with the same number.
pub open spec fn with_attributes(pages: Seq<PageModel>, shown: Seq<InfoModel>, n: int) -> Seq<
    PageModel,
>
    decreases n,
{
    if n <= 0 {
        pages
    } else {
        let before = with_attributes(pages, shown, n - 1);
        let k = n - 1;
        if k < sheet_positions(pages).len() {
            let i = sheet_positions(pages)[k] as int;
            before.update(i, attributed(before[i], shown[k]))
        } else {
            before
        }
    }
}

/// Gives the sheets the attributes of the descriptions, one to one.
fn apply_page_attributes(pages: &mut Vec<Page>, sheets: &Vec<usize>, shown: &Vec<PageInfo>)
    requires
        sheets@ == sheet_positions(page_models(old(pages)@)),
        forall|k: int| 0 <= k < sheets@.len() ==> #[trigger] sheets@[k] < old(pages)@.len(),
    ensures
        page_models(final(pages)@) == with_attributes(
            page_models(old(pages)@),
            info_models(shown@),
            shown@.len() as int,
        ),
{
    let ghost start = page_models(pages@);
    let ghost m = info_models(shown@);
    let mut k: usize = 0;
    while k < shown.len()
        invariant
            k <= shown@.len(),
            m == info_models(shown@),
            pages@.len() == start.len(),
            sheets@ == sheet_positions(start),
            forall|j: int| 0 <= j < sheets@.len() ==> #[trigger] sheets@[j] < pages@.len(),
            page_models(pages@) == with_attributes(start, m, k as int),
        decreases shown@.len() - k,
    {
        if k < sheets.len() {
            let i: usize = sheets[k];
            let ghost before = pages@;
            pages[i].rotation = shown[k].rotation;
            if shown[k].paper.is_some() {
                pages[i].paper = shown[k].paper;
            }
            pages[i].overlays = duplicate_overlays(&shown[k].overlays);
            proof {
                assert(page_models(pages@) =~= page_models(before).update(
                    i as int,
                    attributed(before[i as int]@, m[k as int]),
                ));
            }
        }
        k += 1;
    }
}

// ------------------------------------------------------- matching a placement

/// How well a page body fits a placement: how many times too long its sides
/// are, as a fraction, or nothing to go by. Less is better.
pub enum Fit {
    Ratio(u64, u64),
    Unknown,
}

/// The longer of two lengths.
pub open spec fn longer(a: u32, b: u32) -> u32 {
    if a > b {
        a
    } else {
        b
    }
}

/// The shorter of two lengths.
pub open spec fn shorter(a: u32, b: u32) -> u32 {
    if a > b {
        b
    } else {
        a
    }
}

/// The factor by which the sides of a body differ from those of a frame, both
/// factors multiplied; each is at least one.
pub open spec fn ratio(pw: u32, ph: u32, fw: u32, fh: u32) -> Fit {
    Fit::Ratio(
        (longer(pw, fw) * longer(ph, fh)) as u64,
        (shorter(pw, fw) * shorter(ph, fh)) as u64,
    )
}

/// One fit is better than the other. A side of zero length fits worse than
/// anything, even than nothing to go by.
pub open spec fn better(a: Fit, b: Fit) -> bool {
    match (a, b) {
        (Fit::Ratio(n, d), Fit::Ratio(m, e)) => n * e < m * d,
        (Fit::Ratio(_, d), Fit::Unknown) => d > 0,
        (Fit::Unknown, Fit::Ratio(_, e)) => e == 0,
        (Fit::Unknown, Fit::Unknown) => false,
    }
}

/// How well a page fits the frame of a placement, upright or turned. Without a
/// frame every page fits.
pub open spec fn fit(p: PageModel, frame: Option<(u32, u32)>) -> Fit {
    match frame {
        None => Fit::Ratio(1, 1),
        Some((fw, fh)) => if fw == 0 || fh == 0 {
            Fit::Unknown
        } else {
            match (if p.paper is Some {
                p.paper
            } else {
                p.pixels
            }) {
                None => Fit::Unknown,
                Some((pw, ph)) => {
                    let upright = ratio(pw, ph, fw, fh);
                    let turned = ratio(pw, ph, fh, fw);
                    if better(turned, upright) {
                        turned
                    } else {
                        upright
                    }
                },
            }
        },
    }
}

/// Which of the first `n` sheets, among those not used, fits best; the first
/// of several that fit equally.
pub open spec fn best_sheet(
    pages: Seq<PageModel>,
    sheets: Seq<usize>,
    used: Seq<bool>,
    frame: Option<(u32, u32)>,
    n: int,
) -> Option<int>
    decreases n,
{
    if n <= 0 {
        None
    } else {
        let best = best_sheet(pages, sheets, used, frame, n - 1);
        let i = sheets[n - 1] as int;
        if used[i] {
            best
        } else {
            match best {
                None => Some(n - 1),
                Some(b) => if better(fit(pages[i], frame), fit(pages[sheets[b] as int], frame)) {
                    Some(n - 1)
                } else {
                    Some(b)
                },
            }
        }
    }
}

fn product(a: u32, b: u32) -> (p: u64)
    ensures
        p == a * b,
{
    proof {
        assert(0 <= a * b <= 0xFFFF_FFFF * 0xFFFF_FFFF) by (nonlinear_arith)
            requires
                0 <= a <= 0xFFFF_FFFF,
                0 <= b <= 0xFFFF_FFFF,
        ;
    }
    a as u64 * b as u64
}

fn read_ratio(pw: u32, ph: u32, fw: u32, fh: u32) -> (r: Fit)
    ensures
        r == ratio(pw, ph, fw, fh),
{
    let (a, b): (u32, u32) = if pw > fw {
        (pw, fw)
    } else {
        (fw, pw)
    };
    let (c, d): (u32, u32) = if ph > fh {
        (ph, fh)
    } else {
        (fh, ph)
    };
    Fit::Ratio(product(a, c), product(b, d))
}

fn is_better(a: &Fit, b: &Fit) -> (r: bool)
    ensures
        r == better(*a, *b),
{
    match (a, b) {
        (Fit::Ratio(n, d), Fit::Ratio(m, e)) => {
            proof {
                assert(0 <= *n * *e <= u64::MAX * u64::MAX) by (nonlinear_arith)
                    requires
                        0 <= *n <= u64::MAX,
                        0 <= *e <= u64::MAX,
                ;
                assert(0 <= *m * *d <= u64::MAX * u64::MAX) by (nonlinear_arith)
                    requires
                        0 <= *m <= u64::MAX,
                        0 <= *d <= u64::MAX,
                ;
            }
            (*n as u128) * (*e as u128) < (*m as u128) * (*d as u128)
        },
        (Fit::Ratio(_, d), Fit::Unknown) => *d > 0,
        (Fit::Unknown, Fit::Ratio(_, e)) => *e == 0,
        (Fit::Unknown, Fit::Unknown) => false,
    }
}

/// Holds the shape that a page states against the frame of a placement.
fn geometry_score(page: &Page, frame: Option<(u32, u32)>) -> (r: Fit)
    ensures
        r == fit(page@, frame),
{
    match frame {
        None => Fit::Ratio(1, 1),
        Some((fw, fh)) => {
            if fw == 0 || fh == 0 {
                return Fit::Unknown;
            }
            let dims = if page.paper.is_some() {
                page.paper
            } else {
                page.pixels
            };
            match dims {
                None => Fit::Unknown,
                Some((pw, ph)) => {
                    let upright = read_ratio(pw, ph, fw, fh);
                    let turned = read_ratio(pw, ph, fh, fw);
                    if is_better(&turned, &upright) {
                        turned
                    } else {
                        upright
                    }
                },
            }
        },
    }
}

/// Picks the page body, among those not used, that best fits a placement.
fn pick_sheet(
    pages: &Vec<Page>,
    sheets: &Vec<usize>,
    used: &Vec<bool>,
    placement: &PagePlacement,
) -> (r: Option<usize>)
    requires
        used@.len() == pages@.len(),
        forall|k: int| 0 <= k < sheets@.len() ==> #[trigger] sheets@[k] < pages@.len(),
    ensures
        match (
            r,
            best_sheet(
                page_models(pages@),
                sheets@,
                used@,
                placement.frame,
                sheets@.len() as int,
            ),
        ) {
            (Some(a), Some(b)) => a == b && a < sheets@.len(),
            (None, None) => true,
            _ => false,
        },
{
    let mut best: Option<usize> = None;
    let mut n: usize = 0;
    while n < sheets.len()
        invariant
            n <= sheets@.len(),
            used@.len() == pages@.len(),
            forall|k: int| 0 <= k < sheets@.len() ==> #[trigger] sheets@[k] < pages@.len(),
            match (
                best,
                best_sheet(page_models(pages@), sheets@, used@, placement.frame, n as int),
            ) {
                (Some(a), Some(b)) => a == b && a < n,
                (None, None) => true,
                _ => false,
            },
        decreases sheets@.len() - n,
    {
        let i: usize = sheets[n];
        if !used[i] {
            match best {
                None => {
                    best = Some(n);
                },
                Some(b) => {
                    let score = geometry_score(&pages[i], placement.frame);
                    let old_score = geometry_score(&pages[sheets[b]], placement.frame);
                    if is_better(&score, &old_score) {
                        best = Some(n);
                    }
                },
            }
        }
        n += 1;
    }
    best
}

// ------------------------------------------------------- composing the pages

/// The paper of a displayed page. A page with a single body has the paper of
/// the body where both agree up to rounding; a composed page has the paper
/// that the properties state.
pub open spec fn display_paper(
    declared: Option<(u32, u32)>,
    rotation: u16,
    pages: Seq<PageModel>,
    members: Seq<DisplayMember>,
) -> Option<(u32, u32)> {
    if members.len() != 1 || members[0].page_index >= pages.len() {
        declared
    } else {
        match pages[members[0].page_index as int].paper {
            None => declared,
            Some((w, h)) => {
                let native = if rotation % 180 == 90 {
                    (h, w)
                } else {
                    (w, h)
                };
                match declared {
                    Some((a, b)) => if close(a, native.0) && close(b, native.1) {
                        Some(native)
                    } else {
                        declared
                    },
                    None => Some(native),
                }
            },
        }
    }
}

/// The paper of a displayed page, from what the properties state and the paper
/// of its body.
pub fn resolved_display_paper(
    declared: Option<(u32, u32)>,
    rotation: u16,
    pages: &Vec<Page>,
    members: &Vec<DisplayMember>,
) -> (r: Option<(u32, u32)>)
    ensures
        r == display_paper(declared, rotation, page_models(pages@), members@),
{
    if members.len() != 1 || members[0].page_index >= pages.len() {
        return declared;
    }
    match pages[members[0].page_index].paper {
        None => declared,
        Some((w, h)) => {
            let native: (u32, u32) = if rotation % 180 == 90 {
                (h, w)
            } else {
                (w, h)
            };
            match declared {
                Some((a, b)) => {
                    if is_close(a, native.0) && is_close(b, native.1) {
                        Some(native)
                    } else {
                        declared
                    }
                },
                None => Some(native),
            }
        },
    }
}

/// The composition so far: which entries are used, where the search for the
/// next one starts, and the bodies of the current page.
pub struct Placing {
    pub used: Seq<bool>,
    pub next: int,
    pub members: Seq<DisplayMember>,
}

/// One placement of a page takes the body that fits best, if one is left.
pub open spec fn place(
    pages: Seq<PageModel>,
    sheets: Seq<usize>,
    s: Placing,
    placement: PagePlacement,
) -> Placing {
    match best_sheet(pages, sheets, s.used, placement.frame, sheets.len() as int) {
        None => s,
        Some(k) => Placing {
            used: s.used.update(sheets[k] as int, true),
            next: k + 1,
            members: s.members.push(
                DisplayMember { page_index: sheets[k], area: Some(placement.area) },
            ),
        },
    }
}

/// The first `n` placements of a page.
pub open spec fn place_all(
    pages: Seq<PageModel>,
    sheets: Seq<usize>,
    s: Placing,
    placements: Seq<PagePlacement>,
    n: int,
) -> Placing
    decreases n,
{
    if n <= 0 {
        s
    } else {
        place(pages, sheets, place_all(pages, sheets, s, placements, n - 1), placements[n - 1])
    }
}

/// The first sheet from position `k` on that is not used.
pub open spec fn unused_from(sheets: Seq<usize>, used: Seq<bool>, k: int) -> Option<usize>
    decreases sheets.len() - k,
{
    if k < 0 || k >= sheets.len() {
        None
    } else if !used[sheets[k] as int] {
        Some(sheets[k])
    } else {
        unused_from(sheets, used, k + 1)
    }
}

/// The bodies of one page. A page without placements, in a document that
/// describes every sheet, takes the next sheet not used.
pub open spec fn bodies(
    pages: Seq<PageModel>,
    sheets: Seq<usize>,
    used: Seq<bool>,
    next: int,
    info: InfoModel,
    all_described: bool,
) -> Placing {
    let s = place_all(
        pages,
        sheets,
        Placing { used, next, members: Seq::empty() },
        info.placements,
        info.placements.len() as int,
    );
    if s.members.len() == 0 && all_described {
        let later = unused_from(sheets, s.used, s.next);
        match (if later is Some {
            later
        } else {
            unused_from(sheets, s.used, 0)
        }) {
            Some(i) => Placing {
                used: s.used.update(i as int, true),
                next: s.next,
                members: s.members.push(DisplayMember { page_index: i, area: None }),
            },
            None => s,
        }
    } else {
        s
    }
}

/// The layout so far.
pub struct Layout {
    pub pages: Seq<PageModel>,
    pub used: Seq<bool>,
    pub next: int,
    pub shown: Seq<DisplayModel>,
}

/// The page table once the first body of a displayed page has its rotation and
/// overlays.
pub open spec fn anchored(
    pages: Seq<PageModel>,
    members: Seq<DisplayMember>,
    info: InfoModel,
) -> Seq<PageModel> {
    if members.len() == 0 {
        pages
    } else {
        let i = members[0].page_index as int;
        pages.update(
            i,
            PageModel { rotation: info.rotation, overlays: info.overlays, ..pages[i] },
        )
    }
}

/// One description becomes a displayed page, unless it says nothing at all.
pub open spec fn compose(
    s: Layout,
    sheets: Seq<usize>,
    info: InfoModel,
    all_described: bool,
) -> Layout {
    let b = bodies(s.pages, sheets, s.used, s.next, info, all_described);
    let pages = anchored(s.pages, b.members, info);
    Layout {
        pages,
        used: b.used,
        next: b.next,
        shown: if b.members.len() == 0 && info.paper is None && info.overlays.len() == 0 {
            s.shown
        } else {
            s.shown.push(
                DisplayModel {
                    paper: display_paper(info.paper, info.rotation, pages, b.members),
                    rotation: info.rotation,
                    overlays: info.overlays,
                    members: b.members,
                },
            )
        },
    }
}

/// The layout after the first `n` descriptions.
pub open spec fn composed(pages: Seq<PageModel>, shown: Seq<InfoModel>, n: int) -> Layout
    decreases n,
{
    if n <= 0 {
        Layout {
            pages,
            used: Seq::new(pages.len(), |i: int| false),
            next: 0,
            shown: Seq::empty(),
        }
    } else {
        compose(
            composed(pages, shown, n - 1),
            sheet_positions(pages),
            shown[n - 1],
            shown.len() == sheet_positions(pages).len(),
        )
    }
}

/// The page table and the displayed pages.
pub open spec fn laid_out(pages: Seq<PageModel>, shown: Seq<InfoModel>) -> (
    Seq<PageModel>,
    Seq<DisplayModel>,
) {
    if shown.len() == 0 {
        (pages, Seq::empty())
    } else if trusted(pages, shown) {
        let s = composed(pages, shown, shown.len() as int);
        (s.pages, s.shown)
    } else {
        (with_attributes(pages, shown, shown.len() as int), Seq::empty())
    }
}

fn find_unused(sheets: &Vec<usize>, used: &Vec<bool>, from: usize) -> (r: Option<usize>)
    requires
        forall|k: int| 0 <= k < sheets@.len() ==> #[trigger] sheets@[k] < used@.len(),
    ensures
        r == unused_from(sheets@, used@, from as int),
        r matches Some(i) ==> i < used@.len(),
{
    let mut k: usize = from;
    while k < sheets.len()
        invariant
            forall|j: int| 0 <= j < sheets@.len() ==> #[trigger] sheets@[j] < used@.len(),
            unused_from(sheets@, used@, from as int) == unused_from(sheets@, used@, k as int),
        decreases sheets@.len() - k,
    {
        let i: usize = sheets[k];
        if !used[i] {
            return Some(i);
        }
        k += 1;
    }
    None
}

/// Finds the bodies of one displayed page.
fn find_bodies(
    pages: &Vec<Page>,
    sheets: &Vec<usize>,
    used: &mut Vec<bool>,
    next: usize,
    info: &PageInfo,
    all_described: bool,
) -> (r: (usize, Vec<DisplayMember>))
    requires
        old(used)@.len() == pages@.len(),
        next <= sheets@.len(),
        forall|k: int| 0 <= k < sheets@.len() ==> #[trigger] sheets@[k] < pages@.len(),
    ensures
        final(used)@.len() == pages@.len(),
        r.0 <= sheets@.len(),
        r.1@.len() > 0 ==> r.1@[0].page_index < pages@.len(),
        bodies(page_models(pages@), sheets@, old(used)@, next as int, info@, all_described) == (
        Placing { used: final(used)@, next: r.0 as int, members: r.1@ }),
{
    let ghost m = page_models(pages@);
    let ghost s0 = Placing { used: used@, next: next as int, members: Seq::empty() };
    let mut at: usize = next;
    let mut members: Vec<DisplayMember> = Vec::new();
    let mut n: usize = 0;
    while n < info.placements.len()
        invariant
            n <= info.placements@.len(),
            m == page_models(pages@),
            used@.len() == pages@.len(),
            at <= sheets@.len(),
            forall|k: int| 0 <= k < sheets@.len() ==> #[trigger] sheets@[k] < pages@.len(),
            members@.len() > 0 ==> members@[0].page_index < pages@.len(),
            place_all(m, sheets@, s0, info.placements@, n as int) == (Placing {
                used: used@,
                next: at as int,
                members: members@,
            }),
        decreases info.placements@.len() - n,
    {
        let placement: PagePlacement = info.placements[n];
        match pick_sheet(pages, sheets, used, &placement) {
            Some(k) => {
                let i: usize = sheets[k];
                used.set(i, true);
                assert(k < sheets.len());
                at = k + 1;
                members.push(DisplayMember { page_index: i, area: Some(placement.area) });
            },
            None => {},
        }
        n += 1;
    }
    if members.len() == 0 && all_described {
        let later = find_unused(sheets, used, at);
        let found = if later.is_some() {
            later
        } else {
            find_unused(sheets, used, 0)
        };
        match found {
            Some(i) => {
                used.set(i, true);
                members.push(DisplayMember { page_index: i, area: None });
            },
            None => {},
        }
    }
    (at, members)
}

/// Gives an entry the rotation and overlays of a description.
fn set_display(page: &mut Page, info: &PageInfo)
    ensures
        final(page)@ == (PageModel {
            rotation: info.rotation,
            overlays: info@.overlays,
            ..old(page)@
        }),
{
    page.rotation = info.rotation;
    page.overlays = duplicate_overlays(&info.overlays);
}

/// Applies the display hierarchy of the properties to the page table.
///
/// A description is a displayed page. References without a drawing mean
/// entries of the page table; the table may also hold old bodies that a
/// saved-over document left behind, so a reference takes the entry whose shape
/// fits it best.
pub fn apply_display_layout(pages: &mut Vec<Page>, shown: &Vec<PageInfo>) -> (r: Vec<DisplayPage>)
    ensures
        laid_out(page_models(old(pages)@), info_models(shown@)) == (
            page_models(final(pages)@),
            display_models(r@),
        ),
{
    let mut result: Vec<DisplayPage> = Vec::new();
    proof {
        assert(display_models(result@) =~= Seq::<DisplayModel>::empty());
    }
    if shown.len() == 0 {
        return result;
    }
    let sheets = find_sheets(pages);
    if !is_trusted(pages, &sheets, shown) {
        apply_page_attributes(pages, &sheets, shown);
        return result;
    }
    let ghost start = page_models(pages@);
    let ghost m = info_models(shown@);
    let mut used: Vec<bool> = Vec::new();
    while used.len() < pages.len()
        invariant
            used@.len() <= pages@.len(),
            used@ == Seq::new(used@.len(), |i: int| false),
            pages@ == old(pages)@,
        decreases pages@.len() - used@.len(),
    {
        used.push(false);
    }
    let mut next: usize = 0;
    let mut n: usize = 0;
    proof {
        assert(used@ =~= Seq::new(start.len(), |i: int| false));
    }
    while n < shown.len()
        invariant
            n <= shown@.len(),
            m == info_models(shown@),
            sheets@ == sheet_positions(start),
            pages@.len() == start.len(),
            used@.len() == start.len(),
            next <= sheets@.len(),
            forall|k: int| 0 <= k < sheets@.len() ==> #[trigger] sheets@[k] < pages@.len(),
            composed(start, m, n as int) == (Layout {
                pages: page_models(pages@),
                used: used@,
                next: next as int,
                shown: display_models(result@),
            }),
        decreases shown@.len() - n,
    {
        let info = &shown[n];
        let ghost before = pages@;
        let ghost shown_before = display_models(result@);
        let (at, members) = find_bodies(
            pages,
            &sheets,
            &mut used,
            next,
            info,
            shown.len() == sheets.len(),
        );
        next = at;
        if members.len() > 0 {
            let i: usize = members[0].page_index;
            set_display(&mut pages[i], info);
            proof {
                assert(page_models(pages@) =~= anchored(page_models(before), members@, info@));
            }
        }
        if members.len() > 0 || info.paper.is_some() || info.overlays.len() > 0 {
            let page = DisplayPage {
                paper: resolved_display_paper(info.paper, info.rotation, pages, &members),
                rotation: info.rotation,
                overlays: duplicate_overlays(&info.overlays),
                members,
            };
            let ghost d = page@;
            result.push(page);
            proof {
                assert(display_models(result@) =~= shown_before.push(d));
            }
        }
        n += 1;
    }
    result
}

/// Every body of the page is used, and no two are the same entry.
pub open spec fn distinct_bodies(sheets: Seq<usize>, used: Seq<bool>, members: Seq<DisplayMember>) -> bool {
    &&& forall|i: int|
        0 <= i < members.len() ==> used[(#[trigger] members[i]).page_index as int]
            && sheets.contains(members[i].page_index)
    &&& forall|i: int, j: int|
        0 <= i < j < members.len() ==> (#[trigger] members[i]).page_index != (
        #[trigger] members[j]).page_index
}

/// Bodies that were not used before.
pub open spec fn fresh_bodies(before: Seq<bool>, members: Seq<DisplayMember>) -> bool {
    forall|i: int| 0 <= i < members.len() ==> !before[(#[trigger] members[i]).page_index as int]
}

/// What was used stays used.
pub open spec fn keeps_used(a: Seq<bool>, b: Seq<bool>) -> bool {
    &&& a.len() == b.len()
    &&& forall|i: int| 0 <= i < a.len() && a[i] ==> #[trigger] b[i]
}

/// The positions lie in a table of `n` entries.
pub open spec fn positions_in(sheets: Seq<usize>, n: int) -> bool {
    forall|k: int| 0 <= k < sheets.len() ==> #[trigger] sheets[k] < n
}

proof fn lemma_best_sheet(
    pages: Seq<PageModel>,
    sheets: Seq<usize>,
    used: Seq<bool>,
    frame: Option<(u32, u32)>,
    n: int,
)
    requires
        0 <= n <= sheets.len(),
    ensures
        best_sheet(pages, sheets, used, frame, n) matches Some(k) ==> 0 <= k < n
            && !used[sheets[k] as int],
    decreases n,
{
    if n > 0 {
        lemma_best_sheet(pages, sheets, used, frame, n - 1);
    }
}

proof fn lemma_unused_from(sheets: Seq<usize>, used: Seq<bool>, k: int)
    ensures
        unused_from(sheets, used, k) matches Some(i) ==> sheets.contains(i) && !used[i as int],
    decreases sheets.len() - k,
{
    if 0 <= k < sheets.len() && used[sheets[k] as int] {
        lemma_unused_from(sheets, used, k + 1);
    }
}

/// A body that is not used yet joins the page.
proof fn lemma_body_joins(
    sheets: Seq<usize>,
    start: Seq<bool>,
    used: Seq<bool>,
    members: Seq<DisplayMember>,
    m: DisplayMember,
)
    requires
        distinct_bodies(sheets, used, members),
        fresh_bodies(start, members),
        keeps_used(start, used),
        positions_in(sheets, used.len() as int),
        sheets.contains(m.page_index),
        !used[m.page_index as int],
    ensures
        distinct_bodies(sheets, used.update(m.page_index as int, true), members.push(m)),
        fresh_bodies(start, members.push(m)),
        keeps_used(start, used.update(m.page_index as int, true)),
{
    let k = choose|k: int| 0 <= k < sheets.len() && sheets[k] == m.page_index;
    assert(sheets[k] < used.len());
    let all = members.push(m);
    let now = used.update(m.page_index as int, true);
    assert forall|i: int| 0 <= i < all.len() implies now[(#[trigger] all[i]).page_index as int]
        && sheets.contains(all[i].page_index) by {
        if i < members.len() {
            assert(all[i] == members[i]);
        }
    }
    assert forall|i: int, j: int| 0 <= i < j < all.len() implies (#[trigger] all[i]).page_index != (
    #[trigger] all[j]).page_index by {
        assert(all[i] == members[i]);
        if j < members.len() {
            assert(all[j] == members[j]);
        }
    }
    assert forall|i: int| 0 <= i < all.len() implies !start[(
    #[trigger] all[i]).page_index as int] by {
        if i < members.len() {
            assert(all[i] == members[i]);
        } else if start[m.page_index as int] {
            assert(used[m.page_index as int]);
        }
    }
}

proof fn lemma_place_all(
    pages: Seq<PageModel>,
    sheets: Seq<usize>,
    s: Placing,
    placements: Seq<PagePlacement>,
    n: int,
)
    requires
        s.members.len() == 0,
        positions_in(sheets, s.used.len() as int),
    ensures
        ({
            let t = place_all(pages, sheets, s, placements, n);
            &&& distinct_bodies(sheets, t.used, t.members)
            &&& fresh_bodies(s.used, t.members)
            &&& keeps_used(s.used, t.used)
        }),
    decreases n,
{
    if n > 0 {
        lemma_place_all(pages, sheets, s, placements, n - 1);
        let t = place_all(pages, sheets, s, placements, n - 1);
        let frame = placements[n - 1].frame;
        lemma_best_sheet(pages, sheets, t.used, frame, sheets.len() as int);
        match best_sheet(pages, sheets, t.used, frame, sheets.len() as int) {
            Some(k) => {
                lemma_body_joins(
                    sheets,
                    s.used,
                    t.used,
                    t.members,
                    DisplayMember { page_index: sheets[k], area: Some(placements[n - 1].area) },
                );
            },
            None => {},
        }
    }
}

proof fn lemma_bodies(
    pages: Seq<PageModel>,
    sheets: Seq<usize>,
    used: Seq<bool>,
    next: int,
    info: InfoModel,
    all_described: bool,
)
    requires
        positions_in(sheets, used.len() as int),
    ensures
        ({
            let t = bodies(pages, sheets, used, next, info, all_described);
            &&& distinct_bodies(sheets, t.used, t.members)
            &&& fresh_bodies(used, t.members)
            &&& keeps_used(used, t.used)
        }),
{
    let s0 = Placing { used, next, members: Seq::<DisplayMember>::empty() };
    lemma_place_all(pages, sheets, s0, info.placements, info.placements.len() as int);
    let s = place_all(pages, sheets, s0, info.placements, info.placements.len() as int);
    lemma_unused_from(sheets, s.used, s.next);
    lemma_unused_from(sheets, s.used, 0);
    if s.members.len() == 0 && all_described {
        let later = unused_from(sheets, s.used, s.next);
        let found = if later is Some {
            later
        } else {
            unused_from(sheets, s.used, 0)
        };
        match found {
            Some(i) => {
                lemma_body_joins(
                    sheets,
                    used,
                    s.used,
                    s.members,
                    DisplayMember { page_index: i, area: None },
                );
            },
            None => {},
        }
    }
}

/// No entry of the page table is on two places of the displayed pages.
pub open spec fn no_repeats(shown: Seq<DisplayModel>) -> bool {
    &&& forall|a: int, i: int, j: int|
        0 <= a < shown.len() && 0 <= i < j < shown[a].members.len() ==> (
        #[trigger] shown[a].members[i]).page_index != (#[trigger] shown[a].members[j]).page_index
    &&& forall|a: int, b: int, i: int, j: int|
        0 <= a < b < shown.len() && 0 <= i < shown[a].members.len() && 0 <= j
            < shown[b].members.len() ==> (#[trigger] shown[a].members[i]).page_index != (
        #[trigger] shown[b].members[j]).page_index
}

/// Every body of the displayed pages is one of the sheets, and used.
pub open spec fn all_used(
    shown: Seq<DisplayModel>,
    sheets: Seq<usize>,
    used: Seq<bool>,
) -> bool {
    forall|a: int, i: int|
        0 <= a < shown.len() && 0 <= i < shown[a].members.len() ==> used[(
        #[trigger] shown[a].members[i]).page_index as int] && sheets.contains(
            shown[a].members[i].page_index,
        )
}

proof fn lemma_composed(pages: Seq<PageModel>, shown: Seq<InfoModel>, n: int)
    ensures
        ({
            let s = composed(pages, shown, n);
            &&& s.used.len() == pages.len()
            &&& no_repeats(s.shown)
            &&& all_used(s.shown, sheet_positions(pages), s.used)
        }),
    decreases n,
{
    if n > 0 {
        lemma_composed(pages, shown, n - 1);
        let s = composed(pages, shown, n - 1);
        let t = composed(pages, shown, n);
        let sheets = sheet_positions(pages);
        let info = shown[n - 1];
        let all = shown.len() == sheets.len();
        let b = bodies(s.pages, sheets, s.used, s.next, info, all);
        lemma_sheets_below(pages, pages.len() as int);
        lemma_bodies(s.pages, sheets, s.used, s.next, info, all);
        if t.shown.len() > s.shown.len() {
            let last = s.shown.len() as int;
            assert(t.shown[last].members == b.members);
            assert forall|a: int| 0 <= a < last implies #[trigger] t.shown[a] == s.shown[a] by {}
            assert forall|a: int, c: int, i: int, j: int|
                0 <= a < c < t.shown.len() && 0 <= i < t.shown[a].members.len() && 0 <= j
                    < t.shown[c].members.len() implies (
            #[trigger] t.shown[a].members[i]).page_index != (
            #[trigger] t.shown[c].members[j]).page_index by {
                assert(t.shown[a] == s.shown[a]);
                assert(s.used[s.shown[a].members[i].page_index as int]);
                if c == last {
                    assert(!s.used[b.members[j].page_index as int]);
                } else {
                    assert(t.shown[c] == s.shown[c]);
                }
            }
        }
        assert(t.shown == s.shown || t.shown.len() == s.shown.len() + 1);
        lemma_used_kept(s.shown, sheets, s.used, b.used);
    }
}

proof fn lemma_used_kept(
    shown: Seq<DisplayModel>,
    sheets: Seq<usize>,
    used: Seq<bool>,
    now: Seq<bool>,
)
    requires
        all_used(shown, sheets, used),
        keeps_used(used, now),
        positions_in(sheets, used.len() as int),
    ensures
        all_used(shown, sheets, now),
{
    assert forall|a: int, i: int|
        0 <= a < shown.len() && 0 <= i < shown[a].members.len() implies now[(
    #[trigger] shown[a].members[i]).page_index as int] && sheets.contains(
        shown[a].members[i].page_index,
    ) by {
        let x = shown[a].members[i].page_index;
        assert(used[x as int]);
        let k = choose|k: int| 0 <= k < sheets.len() && sheets[k] == x;
        assert(sheets[k] < used.len());
    }
}

/// The layout shows no entry twice, and only sheets.
pub proof fn law_layout_shows_each_sheet_once(pages: Seq<PageModel>, shown: Seq<InfoModel>)
    ensures
        no_repeats(laid_out(pages, shown).1),
        forall|a: int, i: int|
            #![trigger laid_out(pages, shown).1[a].members[i]]
            0 <= a < laid_out(pages, shown).1.len() && 0 <= i < laid_out(
                pages,
                shown,
            ).1[a].members.len() ==> sheet_positions(pages).contains(
                laid_out(pages, shown).1[a].members[i].page_index,
            ),
{
    lemma_composed(pages, shown, shown.len() as int);
}

// ------------------------------------------------------- annotation sheets

/// Two papers are the same, upright or turned, up to rounding.
pub open spec fn same_paper(a: Option<(u32, u32)>, b: Option<(u32, u32)>) -> bool {
    match (a, b) {
        (Some((ow, oh)), Some((tw, th))) => (close(ow, tw) && close(oh, th)) || (close(ow, th)
            && close(oh, tw)),
        _ => false,
    }
}

/// Some picture belongs to the entry number.
pub open spec fn has_picture(pages: Seq<PageModel>, index: usize) -> bool {
    exists|k: int|
        0 <= k < pages.len() && (#[trigger] pages[k]).role == Role::Picture && pages[k].belongs_to
            == Some(index)
}

/// The entry at `o` only carries an annotation of the entry at `t`: it has no
/// body, nothing stored belongs to it, and paper and rotation agree with those
/// of a whole image.
pub open spec fn is_annotation_of(pages: Seq<PageModel>, o: usize, t: usize) -> bool {
    let a = pages[o as int];
    let b = pages[t as int];
    &&& a.data is Bare
    &&& a.overlays.len() > 0
    &&& same_paper(a.paper, b.paper)
    &&& a.rotation % 360 == b.rotation % 360
    &&& !has_picture(pages, o)
    &&& b.standard_image()
}

/// The pages once the annotation has moved from the entry at `o` to the one at
/// `t`.
pub open spec fn annotation_moved(pages: Seq<PageModel>, o: usize, t: usize) -> Seq<PageModel> {
    let a = pages[o as int];
    let b = pages[t as int];
    pages.update(t as int, PageModel { overlays: b.overlays + a.overlays, ..b }).update(
        o as int,
        PageModel { overlays: Seq::empty(), role: Role::Data, belongs_to: None, ..a },
    )
}

/// The pages after the first `n` pairs of neighbouring sheets.
pub open spec fn annotations_merged(pages: Seq<PageModel>, sheets: Seq<usize>, n: int) -> Seq<
    PageModel,
>
    decreases n,
{
    if n <= 0 {
        pages
    } else {
        let before = annotations_merged(pages, sheets, n - 1);
        let o = sheets[n - 1];
        let t = sheets[n];
        if is_annotation_of(before, o, t) {
            annotation_moved(before, o, t)
        } else {
            before
        }
    }
}

/// The page table with every annotation on the body that follows it.
pub open spec fn merged(pages: Seq<PageModel>) -> Seq<PageModel> {
    let sheets = sheet_positions(pages);
    annotations_merged(pages, sheets, sheets.len() - 1)
}

fn annotates(pages: &Vec<Page>, o: usize, t: usize) -> (r: bool)
    requires
        o < pages@.len(),
        t < pages@.len(),
    ensures
        r == is_annotation_of(page_models(pages@), o, t),
{
    let ghost m = page_models(pages@);
    let a = &pages[o];
    let b = &pages[t];
    let bare: bool = match a.data {
        PageData::Bare { .. } => true,
        _ => false,
    };
    let same: bool = match (a.paper, b.paper) {
        (Some((ow, oh)), Some((tw, th))) => (is_close(ow, tw) && is_close(oh, th)) || (is_close(
            ow,
            th,
        ) && is_close(oh, tw)),
        _ => false,
    };
    if !bare || a.overlays.len() == 0 || !same || a.rotation % 360 != b.rotation % 360
        || !b.is_standard_image() {
        assert(m[o as int] == pages@[o as int]@);
        return false;
    }
    let mut k: usize = 0;
    while k < pages.len()
        invariant
            k <= pages@.len(),
            m == page_models(pages@),
            forall|j: int|
                0 <= j < k ==> !((#[trigger] m[j]).role == Role::Picture && m[j].belongs_to == Some(
                    o,
                )),
        decreases pages@.len() - k,
    {
        let picture: bool = pages[k].role == Role::Picture && match pages[k].belongs_to {
            Some(i) => i == o,
            None => false,
        };
        if picture {
            assert(m[k as int].role == Role::Picture);
            return false;
        }
        k += 1;
    }
    true
}

fn move_annotation(pages: &mut Vec<Page>, o: usize, t: usize)
    requires
        o < t < old(pages)@.len(),
    ensures
        final(pages)@.len() == old(pages)@.len(),
        page_models(final(pages)@) == annotation_moved(page_models(old(pages)@), o, t),
{
    let ghost start = page_models(pages@);
    let mut overlays: Vec<Overlay> = Vec::new();
    std::mem::swap(&mut pages[o].overlays, &mut overlays);
    pages[o].role = Role::Data;
    pages[o].belongs_to = None;
    let ghost moved = overlays@;
    let ghost there = pages@[t as int].overlays@;
    pages[t].overlays.append(&mut overlays);
    proof {
        assert(overlay_models(there + moved) =~= overlay_models(there) + overlay_models(moved));
        assert(overlay_models(Seq::<Overlay>::empty()) =~= Seq::<OverlayModel>::empty());
        assert(page_models(pages@) =~= annotation_moved(start, o, t));
    }
}

pub proof fn lemma_sheets_ascend(pages: Seq<PageModel>, n: int)
    requires
        0 <= n <= pages.len() <= usize::MAX,
    ensures
        forall|j: int, k: int|
            0 <= j < k < sheets_below(pages, n).len() ==> sheets_below(pages, n)[j]
                < sheets_below(pages, n)[k],
    decreases n,
{
    if n > 0 {
        lemma_sheets_ascend(pages, n - 1);
        lemma_sheets_below(pages, n - 1);
    }
}

/// Moves a sheet that only carries an annotation onto the body that follows.
///
/// Some writers keep an annotation as an entry without a body between two
/// ordinary entries. As a page of its own it would be a stamp on a blank sheet
/// and shift every later page number.
pub fn merge_orphan_overlay_sheets(pages: &mut Vec<Page>)
    ensures
        page_models(final(pages)@) == merged(page_models(old(pages)@)),
{
    let ghost start = page_models(pages@);
    let sheets = find_sheets(pages);
    proof {
        assert(start.len() == pages.len());
        lemma_sheets_ascend(start, start.len() as int);
    }
    let mut n: usize = 0;
    while n + 1 < sheets.len()
        invariant
            n + 1 <= sheets.len() || (n == 0 && sheets@.len() == 0),
            sheets@ == sheet_positions(start),
            pages@.len() == start.len(),
            forall|k: int| 0 <= k < sheets@.len() ==> #[trigger] sheets@[k] < pages@.len(),
            forall|j: int, k: int| 0 <= j < k < sheets@.len() ==> sheets@[j] < sheets@[k],
            page_models(pages@) == annotations_merged(start, sheets@, n as int),
        decreases sheets@.len() - n,
    {
        let o: usize = sheets[n];
        let t: usize = sheets[n + 1];
        if annotates(pages, o, t) {
            move_annotation(pages, o, t);
        }
        n += 1;
    }
}

/// How many overlays the first `n` entries carry.
pub open spec fn overlays_below(pages: Seq<PageModel>, n: int) -> nat
    decreases n,
{
    if n <= 0 {
        0
    } else {
        overlays_below(pages, n - 1) + pages[n - 1].overlays.len()
    }
}

proof fn lemma_overlays_update(pages: Seq<PageModel>, i: int, p: PageModel, n: int)
    requires
        0 <= n <= pages.len(),
        0 <= i < pages.len(),
    ensures
        overlays_below(pages.update(i, p), n) == overlays_below(pages, n) + (if i < n {
            p.overlays.len() - pages[i].overlays.len()
        } else {
            0
        }),
    decreases n,
{
    if n > 0 {
        lemma_overlays_update(pages, i, p, n - 1);
    }
}

proof fn lemma_merged(pages: Seq<PageModel>, sheets: Seq<usize>, n: int)
    requires
        positions_in(sheets, pages.len() as int),
        forall|j: int, k: int| 0 <= j < k < sheets.len() ==> sheets[j] < sheets[k],
        n < sheets.len() || n <= 0,
    ensures
        annotations_merged(pages, sheets, n).len() == pages.len(),
        overlays_below(annotations_merged(pages, sheets, n), pages.len() as int) == overlays_below(
            pages,
            pages.len() as int,
        ),
    decreases n,
{
    if n > 0 {
        lemma_merged(pages, sheets, n - 1);
        let before = annotations_merged(pages, sheets, n - 1);
        let o = sheets[n - 1];
        let t = sheets[n];
        assert(o < t < pages.len());
        if is_annotation_of(before, o, t) {
            let a = before[o as int];
            let b = before[t as int];
            let q = PageModel { overlays: b.overlays + a.overlays, ..b };
            lemma_overlays_update(before, t as int, q, pages.len() as int);
            lemma_overlays_update(
                before.update(t as int, q),
                o as int,
                PageModel { overlays: Seq::empty(), role: Role::Data, belongs_to: None, ..a },
                pages.len() as int,
            );
        }
    }
}

/// Merging annotation sheets loses no entry and no overlay.
pub proof fn law_merge_keeps_overlays(pages: Seq<PageModel>)
    requires
        pages.len() <= usize::MAX,
    ensures
        merged(pages).len() == pages.len(),
        overlays_below(merged(pages), pages.len() as int) == overlays_below(
            pages,
            pages.len() as int,
        ),
{
    lemma_sheets_ascend(pages, pages.len() as int);
    lemma_sheets_below(pages, pages.len() as int);
    let sheets = sheet_positions(pages);
    lemma_merged(pages, sheets, sheets.len() - 1);
}

/// The entries of two page tables hold the same bodies.
pub open spec fn keeps_bodies(a: Seq<PageModel>, b: Seq<PageModel>) -> bool {
    &&& a.len() == b.len()
    &&& forall|i: int|
        0 <= i < a.len() ==> (#[trigger] a[i]).data == b[i].data && a[i].index == b[i].index
            && a[i].pixels == b[i].pixels
}

proof fn lemma_attributes_keep_bodies(pages: Seq<PageModel>, shown: Seq<InfoModel>, n: int)
    ensures
        keeps_bodies(with_attributes(pages, shown, n), pages),
    decreases n,
{
    if n > 0 {
        lemma_attributes_keep_bodies(pages, shown, n - 1);
        lemma_sheets_below(pages, pages.len() as int);
    }
}

proof fn lemma_composed_keeps_bodies(pages: Seq<PageModel>, shown: Seq<InfoModel>, n: int)
    ensures
        keeps_bodies(composed(pages, shown, n).pages, pages),
    decreases n,
{
    if n > 0 {
        lemma_composed_keeps_bodies(pages, shown, n - 1);
        lemma_composed(pages, shown, n - 1);
        let s = composed(pages, shown, n - 1);
        let sheets = sheet_positions(pages);
        let info = shown[n - 1];
        let all = shown.len() == sheets.len();
        let b = bodies(s.pages, sheets, s.used, s.next, info, all);
        lemma_sheets_below(pages, pages.len() as int);
        lemma_bodies(s.pages, sheets, s.used, s.next, info, all);
        if b.members.len() > 0 {
            let i = b.members[0].page_index;
            assert(sheets.contains(i));
            let k = choose|k: int| 0 <= k < sheets.len() && sheets[k] == i;
            assert(sheets[k] < pages.len());
        }
    }
}

/// Applying the properties to the page table leaves the bodies of its entries.
pub proof fn law_layout_keeps_bodies(pages: Seq<PageModel>, shown: Seq<InfoModel>)
    ensures
        keeps_bodies(laid_out(pages, shown).0, pages),
{
    lemma_attributes_keep_bodies(pages, shown, shown.len() as int);
    lemma_composed_keeps_bodies(pages, shown, shown.len() as int);
}

proof fn lemma_merged_keeps_bodies(pages: Seq<PageModel>, sheets: Seq<usize>, n: int)
    requires
        positions_in(sheets, pages.len() as int),
        n < sheets.len() || n <= 0,
    ensures
        keeps_bodies(annotations_merged(pages, sheets, n), pages),
    decreases n,
{
    if n > 0 {
        lemma_merged_keeps_bodies(pages, sheets, n - 1);
        assert(sheets[n - 1] < pages.len() && sheets[n] < pages.len());
    }
}

/// Merging annotation sheets leaves the bodies of the entries.
pub proof fn law_merge_keeps_bodies(pages: Seq<PageModel>)
    ensures
        keeps_bodies(merged(pages), pages),
{
    lemma_sheets_below(pages, pages.len() as int);
    let sheets = sheet_positions(pages);
    lemma_merged_keeps_bodies(pages, sheets, sheets.len() - 1);
}

} // verus!
