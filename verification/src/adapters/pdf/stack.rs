//! Pictures recovered off a sheet that cannot itself be reproduced. Pictures
//! that are bands of one image are put together again; where they stood on the
//! sheet is lost.
use crate::adapters::pdf::images::{jpeg_dict, jpeg_object, push_resource, resource_entry, tagged, tagged_name};
use crate::adapters::pdf::writer::{stream_body, Writer};
use crate::domain::document::run_models;
use crate::domain::page::{Page, PageData};
use crate::infrastructure::jpeg::{info, jpeg_info};
use vstd::prelude::*;
use vstd::slice::slice_subrange;
use vstd::string::*;

verus! {

/// One band: where its octets are and how big it is.
#[derive(Clone, Copy, PartialEq, Eq)]
pub struct Band {
    pub offset: usize,
    pub len: usize,
    pub px: (u32, u32),
    pub comps: u8,
}

impl Band {
    /// The band lies in a file of `n` octets.
    pub open spec fn fits(self, n: nat) -> bool {
        self.offset + self.len <= n
    }

    /// The octets of the band.
    pub open spec fn stream(self, data: Seq<u8>) -> Seq<u8> {
        data.subrange(self.offset as int, self.offset + self.len)
    }
}

/// The band that a page is: a JPEG in the file with a size, its own or the one
/// that the page records.
pub open spec fn band_of(data: Seq<u8>, p: Page) -> Option<Band> {
    match p.data {
        PageData::Jpeg { offset, len } => if offset + len <= data.len() {
            let own = jpeg_info(data.subrange(offset as int, offset + len));
            let px = match own {
                Some(i) => Some((i.width, i.height)),
                None => p.pixels,
            };
            match px {
                Some(px) => if px.0 == 0 || px.1 == 0 {
                    None
                } else {
                    Some(
                        Band {
                            offset,
                            len,
                            px,
                            comps: match own {
                                Some(i) => i.components,
                                None => 3u8,
                            },
                        },
                    )
                },
                None => None,
            }
        } else {
            None
        },
        _ => None,
    }
}

/// The bands of a run of pages.
pub open spec fn block_of(data: Seq<u8>, run: Seq<Page>) -> Seq<Band>
    decreases run.len(),
{
    if run.len() == 0 {
        Seq::empty()
    } else {
        match band_of(data, run.last()) {
            Some(b) => block_of(data, run.drop_last()).push(b),
            None => block_of(data, run.drop_last()),
        }
    }
}

/// The blocks of all runs, without the empty ones.
pub open spec fn blocks_of(data: Seq<u8>, runs: Seq<Seq<Page>>) -> Seq<Seq<Band>>
    decreases runs.len(),
{
    if runs.len() == 0 {
        Seq::empty()
    } else {
        let block = block_of(data, runs.last());
        if block.len() == 0 {
            blocks_of(data, runs.drop_last())
        } else {
            blocks_of(data, runs.drop_last()).push(block)
        }
    }
}

/// The blocks as values.
pub open spec fn block_models(v: Seq<Vec<Band>>) -> Seq<Seq<Band>> {
    Seq::new(v.len(), |i: int| v[i]@)
}

/// Every band lies in a file of `n` octets.
pub open spec fn all_fit(blocks: Seq<Seq<Band>>, n: nat) -> bool {
    forall|i: int, k: int|
        0 <= i < blocks.len() && 0 <= k < blocks[i].len() ==> (#[trigger] blocks[i][k]).fits(n)
}

fn read_band(data: &[u8], p: &Page) -> (r: Option<Band>)
    ensures
        r == band_of(data@, *p),
        r matches Some(b) ==> b.fits(data@.len()),
{
    match p.data {
        PageData::Jpeg { offset, len } => {
            if offset > data.len() || len > data.len() - offset {
                return None;
            }
            let own = info(slice_subrange(data, offset, offset + len));
            let px: (u32, u32) = match own {
                Some(i) => (i.width, i.height),
                None => match p.pixels {
                    Some(px) => px,
                    None => {
                        return None;
                    },
                },
            };
            if px.0 == 0 || px.1 == 0 {
                return None;
            }
            let comps: u8 = match own {
                Some(i) => i.components,
                None => 3,
            };
            Some(Band { offset, len, px, comps })
        },
        _ => None,
    }
}

fn read_block(data: &[u8], run: &Vec<&Page>) -> (r: Vec<Band>)
    ensures
        r@ == block_of(data@, run@.unref()),
        forall|k: int| 0 <= k < r@.len() ==> (#[trigger] r@[k]).fits(data@.len()),
{
    let ghost pages = run@.unref();
    let mut r: Vec<Band> = Vec::new();
    let mut i: usize = 0;
    proof {
        assert(r@ =~= block_of(data@, pages.take(0)));
    }
    while i < run.len()
        invariant
            i <= run@.len(),
            pages == run@.unref(),
            r@ == block_of(data@, pages.take(i as int)),
            forall|k: int| 0 <= k < r@.len() ==> (#[trigger] r@[k]).fits(data@.len()),
        decreases run@.len() - i,
    {
        proof {
            assert(pages.take(i + 1).drop_last() =~= pages.take(i as int));
        }
        if let Some(b) = read_band(data, run[i]) {
            r.push(b);
        }
        i += 1;
    }
    proof {
        assert(pages.take(i as int) =~= pages);
    }
    r
}

/// The blocks that the runs of pictures make.
pub fn read_blocks(data: &[u8], runs: &Vec<Vec<&Page>>) -> (r: Vec<Vec<Band>>)
    ensures
        block_models(r@) == blocks_of(data@, run_models(runs@)),
        all_fit(block_models(r@), data@.len()),
{
    let ghost all = run_models(runs@);
    let mut r: Vec<Vec<Band>> = Vec::new();
    let mut i: usize = 0;
    proof {
        assert(block_models(r@) =~= blocks_of(data@, all.take(0)));
    }
    while i < runs.len()
        invariant
            i <= runs@.len(),
            all == run_models(runs@),
            block_models(r@) == blocks_of(data@, all.take(i as int)),
            all_fit(block_models(r@), data@.len()),
        decreases runs@.len() - i,
    {
        proof {
            assert(all.take(i + 1).drop_last() =~= all.take(i as int));
        }
        let block = read_block(data, &runs[i]);
        if block.len() > 0 {
            let ghost before = r@;
            let ghost b = block@;
            r.push(block);
            proof {
                assert(block_models(r@) =~= block_models(before).push(b));
                assert forall|j: int, k: int|
                    0 <= j < block_models(r@).len() && 0 <= k < block_models(r@)[j].len() implies (
                #[trigger] block_models(r@)[j][k]).fits(data@.len()) by {
                    if j < before.len() {
                        assert(block_models(before)[j][k].fits(data@.len()));
                    }
                }
            }
        }
        i += 1;
    }
    proof {
        assert(all.take(i as int) =~= all);
    }
    r
}

// ------------------------------------------------------------- the drawing

/// The numbers of a block: the matrix that places it, and for each band its
/// width, its height and how far up it stands.
pub struct BlockNumbers {
    pub matrix: String,
    pub bands: Vec<(String, String, String)>,
}

/// The numbers go with the blocks, one set for each.
pub open spec fn numbers_match(blocks: Seq<Seq<Band>>, numbers: Seq<BlockNumbers>) -> bool {
    numbers.len() == blocks.len() && forall|i: int|
        0 <= i < blocks.len() ==> (#[trigger] numbers[i]).bands@.len() == blocks[i].len()
}

/// What has been drawn so far: the objects, the page's resources and content,
/// and the number of the next picture.
pub struct Stacked {
    pub objects: Seq<Option<Seq<u8>>>,
    pub xobjects: Seq<char>,
    pub content: Seq<char>,
    pub next: nat,
}

/// The operators that draw a band.
pub open spec fn band_ops(n: (String, String, String), name: Seq<char>) -> Seq<char> {
    "q "@ + n.0@ + " 0 0 "@ + n.1@ + " 0 "@ + n.2@ + " cm /"@ + name + " Do Q\n"@
}

/// One band more.
pub open spec fn with_band(
    s: Stacked,
    data: Seq<u8>,
    b: Band,
    n: (String, String, String),
) -> Stacked {
    let name = tagged(""@, "Ar"@, s.next);
    let objects = s.objects.push(Some(stream_body(jpeg_dict(b.px, b.comps), b.stream(data))));
    Stacked {
        objects,
        xobjects: s.xobjects + resource_entry(name, objects.len()),
        content: s.content + band_ops(n, name),
        next: s.next + 1,
    }
}

/// The first `k` bands of a block more.
pub open spec fn with_bands(
    s: Stacked,
    data: Seq<u8>,
    block: Seq<Band>,
    n: Seq<(String, String, String)>,
    k: int,
) -> Stacked
    decreases k,
{
    if k <= 0 {
        s
    } else {
        with_band(with_bands(s, data, block, n, k - 1), data, block[k - 1], n[k - 1])
    }
}

/// One block more.
pub open spec fn with_block(s: Stacked, data: Seq<u8>, block: Seq<Band>, n: BlockNumbers) -> Stacked {
    let t = with_bands(
        Stacked { content: s.content + "q\n"@ + n.matrix@ + " cm\n"@, ..s },
        data,
        block,
        n.bands@,
        block.len() as int,
    );
    Stacked { content: t.content + "Q\n"@, ..t }
}

/// The first `k` blocks more.
pub open spec fn with_blocks(
    s: Stacked,
    data: Seq<u8>,
    blocks: Seq<Seq<Band>>,
    n: Seq<BlockNumbers>,
    k: int,
) -> Stacked
    decreases k,
{
    if k <= 0 {
        s
    } else {
        with_block(with_blocks(s, data, blocks, n, k - 1), data, blocks[k - 1], n[k - 1])
    }
}

fn push_band_ops(content: &mut String, n: &(String, String, String), name: &str)
    ensures
        final(content)@ == old(content)@ + band_ops(*n, name@),
{
    content.append("q ");
    content.append(n.0.as_str());
    content.append(" 0 0 ");
    content.append(n.1.as_str());
    content.append(" 0 ");
    content.append(n.2.as_str());
    content.append(" cm /");
    content.append(name);
    content.append(" Do Q\n");
    proof {
        assert(content@ =~= old(content)@ + band_ops(*n, name@));
    }
}

/// Draws the bands of a block, with nothing between them.
fn draw_block(
    w: &mut Writer,
    data: &[u8],
    block: &Vec<Band>,
    n: &BlockNumbers,
    xobjects: &mut String,
    content: &mut String,
    first: usize,
) -> (next: usize)
    requires
        n.bands@.len() == block@.len(),
        forall|k: int| 0 <= k < block@.len() ==> (#[trigger] block@[k]).fits(data@.len()),
        first + block@.len() <= usize::MAX,
    ensures
        (Stacked {
            objects: final(w)@,
            xobjects: final(xobjects)@,
            content: final(content)@,
            next: next as nat,
        }) == with_block(
            Stacked {
                objects: old(w)@,
                xobjects: old(xobjects)@,
                content: old(content)@,
                next: first as nat,
            },
            data@,
            block@,
            *n,
        ),
        next == first + block@.len(),
{
    content.append("q\n");
    content.append(n.matrix.as_str());
    content.append(" cm\n");
    let ghost start = Stacked {
        objects: w@,
        xobjects: xobjects@,
        content: content@,
        next: first as nat,
    };
    let mut i: usize = 0;
    while i < block.len()
        invariant
            i <= block@.len(),
            n.bands@.len() == block@.len(),
            forall|k: int| 0 <= k < block@.len() ==> (#[trigger] block@[k]).fits(data@.len()),
            first + block@.len() <= usize::MAX,
            (Stacked {
                objects: w@,
                xobjects: xobjects@,
                content: content@,
                next: (first + i) as nat,
            }) == with_bands(start, data@, block@, n.bands@, i as int),
        decreases block@.len() - i,
    {
        let b: Band = block[i];
        assert(b.fits(data@.len()) && b.offset + b.len <= data.len());
        let name = tagged_name("", "Ar", first + i);
        let id: usize = jpeg_object(
            w,
            slice_subrange(data, b.offset, b.offset + b.len),
            b.px,
            b.comps,
        );
        push_resource(xobjects, name.as_str(), id);
        push_band_ops(content, &n.bands[i], name.as_str());
        i += 1;
    }
    content.append("Q\n");
    first + block.len()
}

/// How many bands there are in the first `k` blocks.
pub open spec fn band_count(blocks: Seq<Seq<Band>>, k: int) -> nat
    decreases k,
{
    if k <= 0 {
        0
    } else {
        band_count(blocks, k - 1) + blocks[k - 1].len()
    }
}

/// Counts the bands; none where there are more than can be counted.
fn count_bands(blocks: &Vec<Vec<Band>>) -> (r: Option<usize>)
    ensures
        match r {
            Some(n) => n == band_count(block_models(blocks@), blocks@.len() as int),
            None => band_count(block_models(blocks@), blocks@.len() as int) > usize::MAX,
        },
{
    let mut n: usize = 0;
    let mut i: usize = 0;
    while i < blocks.len()
        invariant
            i <= blocks@.len(),
            n == band_count(block_models(blocks@), i as int),
        decreases blocks@.len() - i,
    {
        proof {
            assert(block_models(blocks@)[i as int] == blocks@[i as int]@);
        }
        match n.checked_add(blocks[i].len()) {
            Some(sum) => {
                n = sum;
            },
            None => {
                proof {
                    lemma_more_bands(block_models(blocks@), i + 1, blocks@.len() as int);
                }
                return None;
            },
        }
        i += 1;
    }
    Some(n)
}

proof fn lemma_more_bands(blocks: Seq<Seq<Band>>, j: int, k: int)
    requires
        j <= k,
    ensures
        band_count(blocks, j) <= band_count(blocks, k),
    decreases k - j,
{
    if j < k {
        lemma_more_bands(blocks, j, k - 1);
    }
}

/// Draws the blocks, each where its numbers place it, and gives how many
/// pictures that took. Draws nothing where there are more than can be counted.
pub fn draw_blocks(
    w: &mut Writer,
    data: &[u8],
    blocks: &Vec<Vec<Band>>,
    numbers: &Vec<BlockNumbers>,
    xobjects: &mut String,
    content: &mut String,
) -> (drawn: usize)
    requires
        numbers_match(block_models(blocks@), numbers@),
        all_fit(block_models(blocks@), data@.len()),
    ensures
        ({
            let before = Stacked {
                objects: old(w)@,
                xobjects: old(xobjects)@,
                content: old(content)@,
                next: 0,
            };
            (Stacked {
                objects: final(w)@,
                xobjects: final(xobjects)@,
                content: final(content)@,
                next: drawn as nat,
            }) == (if band_count(block_models(blocks@), blocks@.len() as int) <= usize::MAX {
                with_blocks(before, data@, block_models(blocks@), numbers@, blocks@.len() as int)
            } else {
                before
            })
        }),
{
    let ghost all = block_models(blocks@);
    let ghost start = Stacked { objects: w@, xobjects: xobjects@, content: content@, next: 0 };
    let total: usize = match count_bands(blocks) {
        Some(n) => n,
        None => {
            return 0;
        },
    };
    let mut next: usize = 0;
    let mut i: usize = 0;
    while i < blocks.len()
        invariant
            i <= blocks@.len(),
            all == block_models(blocks@),
            numbers_match(all, numbers@),
            all_fit(all, data@.len()),
            total == band_count(all, blocks@.len() as int),
            next == band_count(all, i as int),
            (Stacked {
                objects: w@,
                xobjects: xobjects@,
                content: content@,
                next: next as nat,
            }) == with_blocks(start, data@, all, numbers@, i as int),
        decreases blocks@.len() - i,
    {
        proof {
            assert(all[i as int] == blocks@[i as int]@);
            lemma_more_bands(all, i + 1, blocks@.len() as int);
            assert forall|k: int| 0 <= k < blocks@[i as int]@.len() implies (
            #[trigger] blocks@[i as int]@[k]).fits(data@.len()) by {
                assert(all[i as int][k].fits(data@.len()));
            }
        }
        next = draw_block(w, data, &blocks[i], &numbers[i], xobjects, content, next);
        i += 1;
    }
    next
}

/// Every band of every block is drawn once.
pub proof fn law_each_band_is_drawn(
    s: Stacked,
    data: Seq<u8>,
    blocks: Seq<Seq<Band>>,
    n: Seq<BlockNumbers>,
    k: int,
)
    requires
        0 <= k <= blocks.len(),
    ensures
        with_blocks(s, data, blocks, n, k).next == s.next + band_count(blocks, k),
        with_blocks(s, data, blocks, n, k).objects.len() == s.objects.len() + band_count(blocks, k),
    decreases k,
{
    if k > 0 {
        law_each_band_is_drawn(s, data, blocks, n, k - 1);
        let t = with_blocks(s, data, blocks, n, k - 1);
        let opened = Stacked {
            content: t.content + "q\n"@ + n[k - 1].matrix@ + " cm\n"@,
            ..t
        };
        lemma_block_bands(opened, data, blocks[k - 1], n[k - 1].bands@, blocks[k - 1].len() as int);
    }
}

proof fn lemma_block_bands(
    s: Stacked,
    data: Seq<u8>,
    block: Seq<Band>,
    n: Seq<(String, String, String)>,
    k: int,
)
    requires
        0 <= k,
    ensures
        with_bands(s, data, block, n, k).next == s.next + k,
        with_bands(s, data, block, n, k).objects.len() == s.objects.len() + k,
    decreases k,
{
    if k > 0 {
        lemma_block_bands(s, data, block, n, k - 1);
    }
}

} // verus!
