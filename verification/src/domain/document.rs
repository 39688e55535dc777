//! A whole document, as a model.
use crate::domain::coverage::Coverage;
use crate::domain::page::{
    overlay_models, page_models, Area, Overlay, OverlayModel, Page, PageModel, Role,
};
use vstd::prelude::*;

verus! {

/// The container generations that are read.
///
/// Generation 11 only as an ordinary container; the parser refuses protected
/// documents.
pub const SUPPORTED_GENERATIONS: [u32; 3] = [7, 10, 11];

/// One displayed page, as the properties block records it.
#[derive(Debug, Clone, PartialEq, Eq)]
pub struct DisplayPage {
    /// Width and height of the displayed paper, in hundredths of a millimetre.
    pub paper: Option<(u32, u32)>,
    /// Clockwise rotation when shown.
    pub rotation: u16,
    /// Annotations laid over the displayed page.
    pub overlays: Vec<Overlay>,
    /// The page bodies that make up the displayed page.
    pub members: Vec<DisplayMember>,
}

/// A page-table entry placed on a displayed page.
#[derive(Debug, Clone, Copy, PartialEq, Eq)]
pub struct DisplayMember {
    /// Index into `Document.pages`.
    pub page_index: usize,
    /// Where it sits; the whole page where the container does not say.
    pub area: Option<Area>,
}

/// A displayed page as a value.
pub struct DisplayModel {
    pub paper: Option<(u32, u32)>,
    pub rotation: u16,
    pub overlays: Seq<OverlayModel>,
    pub members: Seq<DisplayMember>,
}

impl View for DisplayPage {
    type V = DisplayModel;

    open spec fn view(&self) -> DisplayModel {
        DisplayModel {
            paper: self.paper,
            rotation: self.rotation,
            overlays: overlay_models(self.overlays@),
            members: self.members@,
        }
    }
}

/// The displayed pages as values.
pub open spec fn display_models(v: Seq<DisplayPage>) -> Seq<DisplayModel> {
    Seq::new(v.len(), |i: int| v[i]@)
}

/// Why the page table was rebuilt.
#[derive(Debug, Clone, Copy, PartialEq, Eq, Structural)]
pub enum Rebuilt {
    /// An offset in the trailer pointed outside the file.
    OffsetOutsideFile,
    /// An offset pointed at data that is not a page element.
    OffsetNotAPage,
}

/// The reason in words.
pub open spec fn rebuilt_text(r: Rebuilt) -> Seq<char> {
    match r {
        Rebuilt::OffsetOutsideFile => "the page table points outside the file"@,
        Rebuilt::OffsetNotAPage => "the page table points at something that is not a page"@,
    }
}

impl Rebuilt {
    pub fn as_str(self) -> (s: &'static str)
        ensures
            s@ == rebuilt_text(self),
    {
        match self {
            Rebuilt::OffsetOutsideFile => "the page table points outside the file",
            Rebuilt::OffsetNotAPage => "the page table points at something that is not a page",
        }
    }
}

/// A document extracted from a container.
#[derive(Debug, Clone)]
pub struct Document {
    /// The generation number in the file header.
    pub generation: u32,
    /// The four guard octets in the file header.
    pub guard: [u8; 4],
    /// The tag of the trailer element, which differs between generations.
    pub trailer_tag: u8,
    /// Offset of the trailer element in the file.
    pub trailer_at: usize,
    /// How many entries the trailer declares, previews among them.
    pub declared_entries: u32,
    pub pages: Vec<Page>,
    /// The displayed pages, from the document properties. Where there are
    /// none, every sheet is displayed by itself.
    pub display_pages: Vec<DisplayPage>,
    /// Offset and length of the properties block.
    pub properties: Option<(usize, usize)>,
    /// Stored and expanded length of the properties block.
    pub properties_len: Option<(u32, u32)>,
    /// Page numbers the trailer registers as coming from images.
    pub image_derived: Vec<u32>,
    pub checksum: Option<u32>,
    /// How many document elements the file holds.
    pub generations_present: usize,
    /// Tag, offset and length of elements that were not interpreted.
    pub unknown_tags: Vec<(u8, usize, usize)>,
    /// Why the pages were rebuilt by scanning, if they were.
    pub rebuilt: Option<Rebuilt>,
}

/// A document as a value.
pub struct DocumentModel {
    pub generation: u32,
    pub guard: Seq<u8>,
    pub trailer_tag: u8,
    pub trailer_at: usize,
    pub declared_entries: u32,
    pub pages: Seq<PageModel>,
    pub display_pages: Seq<DisplayModel>,
    pub properties: Option<(usize, usize)>,
    pub properties_len: Option<(u32, u32)>,
    pub image_derived: Seq<u32>,
    pub checksum: Option<u32>,
    pub generations_present: usize,
    pub unknown_tags: Seq<(u8, usize, usize)>,
    pub rebuilt: Option<Rebuilt>,
}

impl View for Document {
    type V = DocumentModel;

    open spec fn view(&self) -> DocumentModel {
        DocumentModel {
            generation: self.generation,
            guard: self.guard@,
            trailer_tag: self.trailer_tag,
            trailer_at: self.trailer_at,
            declared_entries: self.declared_entries,
            pages: page_models(self.pages@),
            display_pages: display_models(self.display_pages@),
            properties: self.properties,
            properties_len: self.properties_len,
            image_derived: self.image_derived@,
            checksum: self.checksum,
            generations_present: self.generations_present,
            unknown_tags: self.unknown_tags@,
            rebuilt: self.rebuilt,
        }
    }
}

/// A sheet of the document.
pub open spec fn is_sheet(p: Page) -> bool {
    p.role == Role::Sheet
}

/// A picture placed on the sheet with the entry number `index`.
pub open spec fn is_picture_on(p: Page, index: usize) -> bool {
    p.role == Role::Picture && p.belongs_to == Some(index)
}

/// How many of the pages satisfy a condition.
pub open spec fn count(pages: Seq<Page>, cond: spec_fn(Page) -> bool) -> nat
    decreases pages.len(),
{
    if pages.len() == 0 {
        0
    } else {
        count(pages.drop_last(), cond) + (if cond(pages.last()) {
            1nat
        } else {
            0
        })
    }
}

/// Some picture on the sheet satisfies a condition.
pub open spec fn some_picture(
    pages: Seq<Page>,
    index: usize,
    cond: spec_fn(Page) -> bool,
) -> bool {
    exists|k: int|
        0 <= k < pages.len() && is_picture_on(#[trigger] pages[k], index) && cond(pages[k])
}

/// A sheet that comes out empty: it is not an image that can be written out,
/// and neither is any picture on it.
pub open spec fn is_blank(pages: Seq<Page>, p: Page) -> bool {
    &&& is_sheet(p)
    &&& !p@.recoverable()
    &&& !some_picture(pages, p.index, |q: Page| q@.recoverable())
}

/// What the structure alone says can be recovered.
pub open spec fn structural_coverage(pages: Seq<Page>) -> Coverage {
    Coverage {
        sheets: count(pages, |p: Page| is_sheet(p)) as usize,
        sheets_recovered: count(pages, |p: Page| is_sheet(p) && p@.recoverable()) as usize,
        pictures: count(pages, |p: Page| p.role == Role::Picture) as usize,
        pictures_recovered: count(
            pages,
            |p: Page| p.role == Role::Picture && p@.recoverable(),
        ) as usize,
        thumbnails: count(pages, |p: Page| p.role == Role::Thumbnail) as usize,
        data_tables: count(pages, |p: Page| p.role == Role::Data) as usize,
        sheets_with_pictures: count(
            pages,
            |p: Page| is_sheet(p) && some_picture(pages, p.index, |q: Page| q@.recoverable()),
        ) as usize,
        sheets_blank: count(pages, |p: Page| is_blank(pages, p)) as usize,
    }
}

/// Two pictures that record the same width, one above the other in one image.
pub open spec fn joins(above: Page, below: Page) -> bool {
    match (above.pixels, below.pixels) {
        (Some((a, _)), Some((b, _))) => a == b,
        _ => false,
    }
}

/// The pictures joined into bands: a picture joins the one before it when both
/// record the same width.
pub open spec fn bands(pictures: Seq<Page>) -> Seq<Seq<Page>>
    decreases pictures.len(),
{
    if pictures.len() == 0 {
        Seq::empty()
    } else {
        let runs = bands(pictures.drop_last());
        let p = pictures.last();
        if pictures.len() > 1 && joins(pictures[pictures.len() - 2], p) {
            runs.drop_last().push(runs.last().push(p))
        } else {
            runs.push(seq![p])
        }
    }
}

/// The runs put one after another.
pub open spec fn joined(runs: Seq<Seq<Page>>) -> Seq<Page>
    decreases runs.len(),
{
    if runs.len() == 0 {
        Seq::empty()
    } else {
        joined(runs.drop_last()) + runs.last()
    }
}

pub proof fn lemma_count_bound(pages: Seq<Page>, cond: spec_fn(Page) -> bool)
    ensures
        count(pages, cond) <= pages.len(),
    decreases pages.len(),
{
    if pages.len() > 0 {
        lemma_count_bound(pages.drop_last(), cond);
    }
}

proof fn lemma_count_weaker(
    pages: Seq<Page>,
    a: spec_fn(Page) -> bool,
    b: spec_fn(Page) -> bool,
)
    requires
        forall|p: Page| #[trigger] a(p) ==> b(p),
    ensures
        count(pages, a) <= count(pages, b),
    decreases pages.len(),
{
    if pages.len() > 0 {
        lemma_count_weaker(pages.drop_last(), a, b);
    }
}

proof fn lemma_count_split(
    pages: Seq<Page>,
    a: spec_fn(Page) -> bool,
    b: spec_fn(Page) -> bool,
    whole: spec_fn(Page) -> bool,
)
    requires
        forall|p: Page| #![trigger a(p)] !(a(p) && b(p)),
        forall|p: Page| #![trigger whole(p)] a(p) || b(p) ==> whole(p),
    ensures
        count(pages, a) + count(pages, b) <= count(pages, whole),
    decreases pages.len(),
{
    if pages.len() > 0 {
        lemma_count_split(pages.drop_last(), a, b, whole);
        let p = pages.last();
        assert(whole(p) || !whole(p));
        assert(a(p) || !a(p));
    }
}

/// The counts fit together: nothing is counted as recovered that is not there,
/// blank sheets are neither recovered nor pictured ones, and every entry has
/// exactly one role, so a thumbnail is never counted as a page.
pub proof fn law_coverage(pages: Seq<Page>)
    requires
        pages.len() <= usize::MAX,
    ensures
        ({
            let c = structural_coverage(pages);
            &&& c.sheets_recovered + c.sheets_blank <= c.sheets
            &&& c.sheets_with_pictures + c.sheets_blank <= c.sheets
            &&& c.pictures_recovered <= c.pictures
            &&& c.sheets + c.pictures + c.thumbnails + c.data_tables == pages.len()
        }),
{
    let sheet = |p: Page| is_sheet(p);
    let sheet_ok = |p: Page| is_sheet(p) && p@.recoverable();
    let picture = |p: Page| p.role == Role::Picture;
    let picture_ok = |p: Page| p.role == Role::Picture && p@.recoverable();
    let thumb = |p: Page| p.role == Role::Thumbnail;
    let data = |p: Page| p.role == Role::Data;
    let with = |p: Page| is_sheet(p) && some_picture(pages, p.index, |q: Page| q@.recoverable());
    let blank = |p: Page| is_blank(pages, p);
    lemma_count_bound(pages, sheet);
    lemma_count_bound(pages, sheet_ok);
    lemma_count_bound(pages, picture);
    lemma_count_bound(pages, picture_ok);
    lemma_count_bound(pages, thumb);
    lemma_count_bound(pages, data);
    lemma_count_bound(pages, with);
    lemma_count_bound(pages, blank);
    lemma_count_weaker(pages, picture_ok, picture);
    lemma_count_split(pages, sheet_ok, blank, sheet);
    lemma_count_split(pages, with, blank, sheet);
    lemma_roles_partition(pages);
}

proof fn lemma_roles_partition(pages: Seq<Page>)
    ensures
        count(pages, |p: Page| is_sheet(p)) + count(pages, |p: Page| p.role == Role::Picture)
            + count(pages, |p: Page| p.role == Role::Thumbnail) + count(
            pages,
            |p: Page| p.role == Role::Data,
        ) == pages.len(),
    decreases pages.len(),
{
    if pages.len() > 0 {
        lemma_roles_partition(pages.drop_last());
    }
}

/// The bands of a sheet hold its pictures, each once and in order.
pub proof fn law_bands_keep_pictures(pictures: Seq<Page>)
    ensures
        joined(bands(pictures)) == pictures,
        pictures.len() > 0 ==> bands(pictures).len() > 0,
    decreases pictures.len(),
{
    if pictures.len() > 0 {
        law_bands_keep_pictures(pictures.drop_last());
        let runs = bands(pictures.drop_last());
        let p = pictures.last();
        let all = bands(pictures);
        if pictures.len() > 1 && joins(pictures[pictures.len() - 2], p) {
            assert(all.drop_last() =~= runs.drop_last());
            assert(all.last() == runs.last().push(p));
            assert(joined(all) =~= joined(runs).push(p));
        } else {
            assert(all.drop_last() =~= runs);
            assert(joined(all) =~= joined(runs).push(p));
        }
        assert(pictures.drop_last().push(p) =~= pictures);
    } else {
        assert(joined(bands(pictures)) =~= pictures);
    }
}

impl Document {
    /// The sheets of the document, in order.
    pub fn sheets(&self) -> (r: Vec<&Page>)
        ensures
            r@.unref() == self.pages@.filter(|p: Page| is_sheet(p)),
    {
        let mut r: Vec<&Page> = Vec::new();
        let mut i: usize = 0;
        let ghost want = |p: Page| is_sheet(p);
        proof {
            reveal(Seq::filter);
            assert(r@.unref() =~= self.pages@.take(0).filter(want));
        }
        while i < self.pages.len()
            invariant
                i <= self.pages@.len(),
                want == (|p: Page| is_sheet(p)),
                r@.unref() == self.pages@.take(i as int).filter(want),
            decreases self.pages@.len() - i,
        {
            let ghost before = r@.unref();
            proof {
                reveal(Seq::filter);
                assert(self.pages@.take(i + 1).drop_last() =~= self.pages@.take(i as int));
            }
            if self.pages[i].is_sheet() {
                r.push(&self.pages[i]);
                proof {
                    assert(r@.unref() =~= before.push(self.pages@[i as int]));
                }
            }
            i += 1;
        }
        proof {
            assert(self.pages@.take(i as int) =~= self.pages@);
        }
        r
    }

    /// The entries that are not thumbnails, in order.
    pub fn content_pages(&self) -> (r: Vec<&Page>)
        ensures
            r@.unref() == self.pages@.filter(|p: Page| p.role != Role::Thumbnail),
    {
        let mut r: Vec<&Page> = Vec::new();
        let mut i: usize = 0;
        let ghost want = |p: Page| p.role != Role::Thumbnail;
        proof {
            reveal(Seq::filter);
            assert(r@.unref() =~= self.pages@.take(0).filter(want));
        }
        while i < self.pages.len()
            invariant
                i <= self.pages@.len(),
                want == (|p: Page| p.role != Role::Thumbnail),
                r@.unref() == self.pages@.take(i as int).filter(want),
            decreases self.pages@.len() - i,
        {
            let ghost before = r@.unref();
            proof {
                reveal(Seq::filter);
                assert(self.pages@.take(i + 1).drop_last() =~= self.pages@.take(i as int));
            }
            if !self.pages[i].is_preview() {
                r.push(&self.pages[i]);
                proof {
                    assert(r@.unref() =~= before.push(self.pages@[i as int]));
                }
            }
            i += 1;
        }
        proof {
            assert(self.pages@.take(i as int) =~= self.pages@);
        }
        r
    }

    /// The entries that can be written out without the container's codec.
    pub fn recoverable_pages(&self) -> (r: Vec<&Page>)
        ensures
            r@.unref() == self.pages@.filter(|p: Page| p@.recoverable()),
    {
        let mut r: Vec<&Page> = Vec::new();
        let mut i: usize = 0;
        let ghost want = |p: Page| p@.recoverable();
        proof {
            reveal(Seq::filter);
            assert(r@.unref() =~= self.pages@.take(0).filter(want));
        }
        while i < self.pages.len()
            invariant
                i <= self.pages@.len(),
                want == (|p: Page| p@.recoverable()),
                r@.unref() == self.pages@.take(i as int).filter(want),
            decreases self.pages@.len() - i,
        {
            let ghost before = r@.unref();
            proof {
                reveal(Seq::filter);
                assert(self.pages@.take(i + 1).drop_last() =~= self.pages@.take(i as int));
            }
            if self.pages[i].is_recoverable() {
                r.push(&self.pages[i]);
                proof {
                    assert(r@.unref() =~= before.push(self.pages@[i as int]));
                }
            }
            i += 1;
        }
        proof {
            assert(self.pages@.take(i as int) =~= self.pages@);
        }
        r
    }

    /// The pictures placed on the sheet with the entry number `index`.
    pub fn pictures_on(&self, index: usize) -> (r: Vec<&Page>)
        ensures
            r@.unref() == self.pages@.filter(|p: Page| is_picture_on(p, index)),
    {
        let mut r: Vec<&Page> = Vec::new();
        let mut i: usize = 0;
        let ghost want = |p: Page| is_picture_on(p, index);
        proof {
            reveal(Seq::filter);
            assert(r@.unref() =~= self.pages@.take(0).filter(want));
        }
        while i < self.pages.len()
            invariant
                i <= self.pages@.len(),
                want == (|p: Page| is_picture_on(p, index)),
                r@.unref() == self.pages@.take(i as int).filter(want),
            decreases self.pages@.len() - i,
        {
            let ghost before = r@.unref();
            proof {
                reveal(Seq::filter);
                assert(self.pages@.take(i + 1).drop_last() =~= self.pages@.take(i as int));
            }
            if on_sheet(&self.pages[i], index) {
                r.push(&self.pages[i]);
                proof {
                    assert(r@.unref() =~= before.push(self.pages@[i as int]));
                }
            }
            i += 1;
        }
        proof {
            assert(self.pages@.take(i as int) =~= self.pages@);
        }
        r
    }

    /// The pictures of a sheet joined into the bands that make up one image.
    pub fn picture_runs(&self, sheet: usize) -> (runs: Vec<Vec<&Page>>)
        ensures
            run_models(runs@) == bands(self.pages@.filter(|p: Page| is_picture_on(p, sheet))),
    {
        let pictures = self.pictures_on(sheet);
        let ghost all = pictures@.unref();
        let mut runs: Vec<Vec<&Page>> = Vec::new();
        let mut i: usize = 0;
        proof {
            assert(run_models(runs@) =~= bands(all.take(0)));
        }
        while i < pictures.len()
            invariant
                i <= pictures@.len(),
                all == pictures@.unref(),
                run_models(runs@) == bands(all.take(i as int)),
                i > 0 ==> runs@.len() > 0,
            decreases pictures@.len() - i,
        {
            let ghost before = runs@;
            let p: &Page = pictures[i];
            proof {
                assert(all.take(i + 1).drop_last() =~= all.take(i as int));
                assert(all.take(i + 1).last() == *p);
                law_bands_keep_pictures(all.take(i as int));
            }
            let same_image: bool = if i == 0 {
                false
            } else {
                match (pictures[i - 1].pixels, p.pixels) {
                    (Some((a, _)), Some((b, _))) => a == b,
                    _ => false,
                }
            };
            if same_image {
                let mut last = runs.pop().unwrap();
                let ghost prior = last@;
                last.push(p);
                runs.push(last);
                proof {
                    assert(runs@.last()@.unref() =~= prior.unref().push(*p));
                    assert(run_models(runs@) =~= run_models(before).drop_last().push(
                        run_models(before).last().push(*p),
                    ));
                }
            } else {
                let mut fresh: Vec<&Page> = Vec::new();
                fresh.push(p);
                runs.push(fresh);
                proof {
                    assert(runs@.last()@.unref() =~= seq![*p]);
                    assert(run_models(runs@) =~= run_models(before).push(seq![*p]));
                }
            }
            i += 1;
        }
        proof {
            assert(all.take(i as int) =~= all);
        }
        runs
    }

    /// What can be recovered, from the structure alone.
    pub fn coverage(&self) -> (c: Coverage)
        ensures
            c == structural_coverage(self.pages@),
    {
        let mut sheets: usize = 0;
        let mut sheets_recovered: usize = 0;
        let mut pictures: usize = 0;
        let mut pictures_recovered: usize = 0;
        let mut thumbnails: usize = 0;
        let mut data_tables: usize = 0;
        let mut sheets_with_pictures: usize = 0;
        let mut sheets_blank: usize = 0;
        let ghost pages = self.pages@;
        let mut i: usize = 0;
        while i < self.pages.len()
            invariant
                i <= self.pages@.len(),
                pages == self.pages@,
                sheets <= i,
                sheets_recovered <= i,
                pictures <= i,
                pictures_recovered <= i,
                thumbnails <= i,
                data_tables <= i,
                sheets_with_pictures <= i,
                sheets_blank <= i,
                sheets == count(pages.take(i as int), |p: Page| is_sheet(p)),
                sheets_recovered == count(
                    pages.take(i as int),
                    |p: Page| is_sheet(p) && p@.recoverable(),
                ),
                pictures == count(pages.take(i as int), |p: Page| p.role == Role::Picture),
                pictures_recovered == count(
                    pages.take(i as int),
                    |p: Page| p.role == Role::Picture && p@.recoverable(),
                ),
                thumbnails == count(pages.take(i as int), |p: Page| p.role == Role::Thumbnail),
                data_tables == count(pages.take(i as int), |p: Page| p.role == Role::Data),
                sheets_with_pictures == count(
                    pages.take(i as int),
                    |p: Page|
                        is_sheet(p) && some_picture(pages, p.index, |q: Page| q@.recoverable()),
                ),
                sheets_blank == count(pages.take(i as int), |p: Page| is_blank(pages, p)),
            decreases self.pages@.len() - i,
        {
            proof {
                assert(pages.take(i + 1).drop_last() =~= pages.take(i as int));
            }
            let p = &self.pages[i];
            let recoverable: bool = p.is_recoverable();
            match p.role {
                Role::Sheet => {
                    let pictured: bool = self.has_recoverable_picture(p.index);
                    sheets += 1;
                    if recoverable {
                        sheets_recovered += 1;
                    } else if !pictured {
                        sheets_blank += 1;
                    }
                    if pictured {
                        sheets_with_pictures += 1;
                    }
                },
                Role::Picture => {
                    pictures += 1;
                    if recoverable {
                        pictures_recovered += 1;
                    }
                },
                Role::Thumbnail => {
                    thumbnails += 1;
                },
                Role::Data => {
                    data_tables += 1;
                },
            }
            i += 1;
        }
        proof {
            assert(pages.take(i as int) =~= pages);
        }
        Coverage {
            sheets,
            sheets_recovered,
            pictures,
            pictures_recovered,
            thumbnails,
            data_tables,
            sheets_with_pictures,
            sheets_blank,
        }
    }

    /// Whether a sheet has a picture that can be written out.
    pub fn has_recoverable_picture(&self, index: usize) -> (r: bool)
        ensures
            r == some_picture(self.pages@, index, |q: Page| q@.recoverable()),
    {
        let mut i: usize = 0;
        while i < self.pages.len()
            invariant
                i <= self.pages@.len(),
                forall|k: int|
                    0 <= k < i ==> !(is_picture_on(#[trigger] self.pages@[k], index)
                        && self.pages@[k]@.recoverable()),
            decreases self.pages@.len() - i,
        {
            if on_sheet(&self.pages[i], index) && self.pages[i].is_recoverable() {
                return true;
            }
            i += 1;
        }
        false
    }
}

/// The runs as values.
pub open spec fn run_models(runs: Seq<Vec<&Page>>) -> Seq<Seq<Page>> {
    Seq::new(runs.len(), |i: int| runs[i]@.unref())
}

fn on_sheet(p: &Page, index: usize) -> (r: bool)
    ensures
        r == is_picture_on(*p, index),
{
    match (p.role, p.belongs_to) {
        (Role::Picture, Some(owner)) => owner == index,
        _ => false,
    }
}

} // verus!
