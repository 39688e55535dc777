//! How the parts of one drawing go together: which stored pictures it calls
//! for, which of its placements are one masked picture, and in which order its
//! parts are painted.
use crate::adapters::masks::{can_mask, is_mask};
use crate::adapters::pdf::images::{can_be_masked, is_maskable, jpeg_stream, stream_of};
use crate::adapters::sheets::Format;
use crate::domain::page::Page;
use crate::domain::rendering::{
    pair_pictures, pairing, Image, Metafile, MetafileModel, Raster, RasterOp, Rect, Source,
};
use vstd::prelude::*;

verus! {

// -------------------------------------------------------------- calls

/// A call for a stored picture: its ordinal and the size it is drawn at.
pub type Call = (usize, (u32, u32));

/// The size `a` comes before `b`.
pub open spec fn smaller(a: (u32, u32), b: (u32, u32)) -> bool {
    a.0 < b.0 || (a.0 == b.0 && a.1 < b.1)
}

/// The calls with `c` among them, in the order of their ordinals. Of two calls
/// with one ordinal the smaller is kept.
pub open spec fn with_call(v: Seq<Call>, c: Call) -> Seq<Call>
    decreases v.len(),
{
    if v.len() == 0 || v.last().0 < c.0 {
        v.push(c)
    } else if v.last().0 == c.0 {
        if smaller(c.1, v.last().1) {
            v.drop_last().push(c)
        } else {
            v
        }
    } else {
        with_call(v.drop_last(), c).push(v.last())
    }
}

/// The calls of the first `n` images, each ordinal once.
pub open spec fn calls_below(images: Seq<Image>, n: int) -> Seq<Call>
    decreases n,
{
    if n <= 0 {
        Seq::empty()
    } else {
        match images[n - 1].source {
            Source::Stored { ordinal, px } => with_call(
                calls_below(images, n - 1),
                (ordinal, px),
            ),
            Source::Inline(_) => calls_below(images, n - 1),
        }
    }
}

fn insert_call(v: &mut Vec<Call>, c: Call)
    ensures
        final(v)@ == with_call(old(v)@, c),
{
    let ghost all = v@;
    let mut n: usize = v.len();
    proof {
        assert(all.take(n as int) =~= all);
        assert(with_call(all, c) =~= with_call(all.take(n as int), c) + all.skip(n as int));
    }
    while n > 0 && v[n - 1].0 > c.0
        invariant
            n <= v@.len(),
            v@ == all,
            with_call(all, c) == with_call(all.take(n as int), c) + all.skip(n as int),
        decreases n,
    {
        proof {
            let t = all.take(n as int);
            assert(t.drop_last() =~= all.take(n - 1));
            assert(t.last() == all[n - 1]);
            assert(all.skip(n - 1) =~= seq![all[n - 1]] + all.skip(n as int));
            assert(with_call(all, c) =~= with_call(all.take(n - 1), c) + all.skip(n - 1));
        }
        n -= 1;
    }
    proof {
        if n > 0 {
            assert(all.take(n as int).last() == all[n - 1]);
            assert(all.take(n as int).drop_last() =~= all.take(n - 1));
        }
    }
    if n > 0 && v[n - 1].0 == c.0 {
        let known: (u32, u32) = v[n - 1].1;
        if c.1.0 < known.0 || (c.1.0 == known.0 && c.1.1 < known.1) {
            v.set(n - 1, c);
        }
    } else {
        v.insert(n, c);
    }
    proof {
        assert(v@ =~= with_call(all, c));
    }
}

/// The stored pictures that a drawing calls for, in the order of their
/// ordinals, and which picture beside the sheet each of them is.
pub struct Pictures {
    pub calls: Vec<Call>,
    pub picks: Vec<Option<usize>>,
}

/// The sizes that the pages record.
pub open spec fn recorded_sizes(stored: Seq<Page>) -> Seq<Option<(u32, u32)>> {
    Seq::new(stored.len(), |i: int| stored[i].pixels)
}

/// What the first call with an ordinal picks, among those from `k` on.
pub open spec fn pick_from(
    calls: Seq<Call>,
    picks: Seq<Option<usize>>,
    ordinal: usize,
    k: int,
) -> Option<usize>
    decreases calls.len() - k,
{
    if k < 0 || k >= calls.len() || k >= picks.len() {
        None
    } else if calls[k].0 == ordinal {
        picks[k]
    } else {
        pick_from(calls, picks, ordinal, k + 1)
    }
}

/// Which of the pictures beside the sheet an ordinal of a drawing names.
pub open spec fn picture_named(m: MetafileModel, stored: Seq<Page>, ordinal: usize) -> Option<
    usize,
> {
    let calls = calls_below(m.images, m.images.len() as int);
    pick_from(calls, pairing(calls, recorded_sizes(stored)), ordinal, 0)
}

impl Pictures {
    /// The calls and picks of a drawing beside so many stored pictures.
    pub open spec fn of(self, m: MetafileModel, stored: Seq<Page>) -> bool {
        self.calls@ == calls_below(m.images, m.images.len() as int) && self.picks@ == pairing(
            self.calls@,
            recorded_sizes(stored),
        )
    }

    /// Pairs the pictures that a drawing names with those beside the sheet.
    pub fn pair(meta: &Metafile, stored: &Vec<&Page>) -> (r: Pictures)
        ensures
            r.of(meta@, stored@.unref()),
    {
        let mut calls: Vec<Call> = Vec::new();
        let mut i: usize = 0;
        while i < meta.images.len()
            invariant
                i <= meta.images@.len(),
                calls@ == calls_below(meta.images@, i as int),
            decreases meta.images@.len() - i,
        {
            if let Source::Stored { ordinal, px } = meta.images[i].source {
                insert_call(&mut calls, (ordinal, px));
            }
            i += 1;
        }
        let mut sizes: Vec<Option<(u32, u32)>> = Vec::new();
        let mut k: usize = 0;
        while k < stored.len()
            invariant
                k <= stored@.len(),
                sizes@ == recorded_sizes(stored@.unref()).take(k as int),
            decreases stored@.len() - k,
        {
            proof {
                let all = recorded_sizes(stored@.unref());
                assert(all.take(k + 1) =~= all.take(k as int).push(stored@[k as int].pixels));
            }
            sizes.push(stored[k].pixels);
            k += 1;
        }
        proof {
            let all = recorded_sizes(stored@.unref());
            assert(all.take(k as int) =~= all);
        }
        let picks = pair_pictures(calls.as_slice(), sizes.as_slice());
        Pictures { calls, picks }
    }

    /// Which of the pictures beside the sheet an ordinal names.
    pub fn pick(&self, ordinal: usize) -> (r: Option<usize>)
        ensures
            r == pick_from(self.calls@, self.picks@, ordinal, 0),
    {
        let mut k: usize = 0;
        while k < self.calls.len() && k < self.picks.len()
            invariant
                k <= self.calls@.len(),
                k <= self.picks@.len(),
                pick_from(self.calls@, self.picks@, ordinal, 0) == pick_from(
                    self.calls@,
                    self.picks@,
                    ordinal,
                    k as int,
                ),
            decreases self.calls@.len() - k,
        {
            if self.calls[k].0 == ordinal {
                return self.picks[k];
            }
            k += 1;
        }
        None
    }
}

// -------------------------------------------------------------- masks

/// The same clip, or none in both.
pub open spec fn same_clip(a: Option<Rect>, b: Option<Rect>) -> bool {
    match (a, b) {
        (Some(x), Some(y)) => x.same(y),
        (None, None) => true,
        _ => false,
    }
}

/// Both images are drawn to one place, under one clip.
pub open spec fn same_place(a: Image, b: Image) -> bool {
    a.left.near(b.left) && a.top.near(b.top) && a.right.near(b.right) && a.bottom.near(b.bottom)
        && same_clip(a.clip, b.clip) && a.clip_path == b.clip_path
}

/// Whether both images are drawn to one place, under one clip.
pub fn same_image_placement(a: &Image, b: &Image) -> (r: bool)
    ensures
        r == same_place(*a, *b),
{
    let clips: bool = match (&a.clip, &b.clip) {
        (Some(x), Some(y)) => x.is_same(y),
        (None, None) => true,
        _ => false,
    };
    let paths: bool = match (a.clip_path, b.clip_path) {
        (Some(x), Some(y)) => x == y,
        (None, None) => true,
        _ => false,
    };
    a.left.is_near(&b.left) && a.top.is_near(&b.top) && a.right.is_near(&b.right)
        && a.bottom.is_near(&b.bottom) && clips && paths
}

/// The image covers some area.
pub open spec fn has_area(i: Image) -> bool {
    i.left.before(i.right) && i.top.before(i.bottom)
}

/// Whether the image covers some area.
pub fn image_geometry_is_valid(image: &Image) -> (r: bool)
    ensures
        r == has_area(*image),
{
    image.left.is_before(&image.right) && image.top.is_before(&image.bottom)
}

/// The number that follows `n`, as far as numbers go.
pub open spec fn successor(n: usize) -> int {
    if n < usize::MAX {
        n + 1
    } else {
        usize::MAX as int
    }
}

/// Three placements in a row that invert with a stored picture, mask with a
/// bitmap and invert with the picture again, all at one place: a transparent
/// picture.
pub open spec fn is_masked_triple(m: MetafileModel, stored: Seq<Page>, i: int) -> bool {
    let (a, b, c) = (m.images[i], m.images[i + 1], m.images[i + 2]);
    match (a.source, b.source, c.source) {
        (
            Source::Stored { ordinal: first, .. },
            Source::Inline(_),
            Source::Stored { ordinal: second, .. },
        ) => {
            &&& a.raster_op == RasterOp::SourceInvert
            &&& c.raster_op == RasterOp::SourceInvert
            &&& b.raster_op == RasterOp::And
            &&& a.src == c.src
            &&& b.order == successor(a.order)
            &&& c.order == successor(b.order)
            &&& same_place(a, b)
            &&& same_place(a, c)
            &&& picture_named(m, stored, first) == picture_named(m, stored, second)
        },
        _ => false,
    }
}

/// The format can draw the picture of the triple at `i` through its mask.
pub open spec fn can_draw_masked(
    format: Format,
    data: Seq<u8>,
    m: MetafileModel,
    stored: Seq<Page>,
    i: int,
) -> bool {
    match (m.images[i].source, m.images[i + 1].source) {
        (Source::Stored { ordinal, .. }, Source::Inline(mask)) => match picture_named(
            m,
            stored,
            ordinal,
        ) {
            Some(k) => mask < m.rasters.len() && k < stored.len() && match format {
                Format::Pdf => can_be_masked(
                    data,
                    Some(stored[k as int].data),
                    m.rasters[mask as int],
                    m.images[i].src,
                ),
                Format::Html => has_area(m.images[i]) && is_mask(m.rasters[mask as int])
                    && m.rasters[mask as int].width * m.rasters[mask as int].height <= usize::MAX
                    && jpeg_stream(data, Some(stored[k as int].data)) is Some,
            },
            None => false,
        },
        _ => false,
    }
}

/// A masked picture starts at `i`. No placement belongs to two of them.
pub open spec fn starts_masked(
    format: Format,
    data: Seq<u8>,
    m: MetafileModel,
    stored: Seq<Page>,
    i: int,
) -> bool
    decreases i + 2,
{
    if i < 0 || i + 2 >= m.images.len() {
        false
    } else {
        !starts_masked(format, data, m, stored, i - 1) && !starts_masked(
            format,
            data,
            m,
            stored,
            i - 2,
        ) && is_masked_triple(m, stored, i) && can_draw_masked(format, data, m, stored, i)
    }
}

/// The rows of every bitmap can be measured, also with an octet for each
/// pixel.
pub open spec fn is_measurable(rasters: Seq<Raster>) -> bool {
    forall|i: int|
        0 <= i < rasters.len() ==> (#[trigger] rasters[i]).measurable() && rasters[i].width * 8 + 7
            <= usize::MAX
}

/// Whether the rows of every bitmap can be measured.
pub fn can_measure(meta: &Metafile) -> (r: bool)
    ensures
        r == is_measurable(meta.rasters@),
{
    let mut i: usize = 0;
    while i < meta.rasters.len()
        invariant
            i <= meta.rasters@.len(),
            forall|k: int|
                0 <= k < i ==> (#[trigger] meta.rasters@[k]).measurable()
                    && meta.rasters@[k].width * 8 + 7 <= usize::MAX,
        decreases meta.rasters@.len() - i,
    {
        let r: &Raster = &meta.rasters[i];
        proof {
            assert(0 <= r.width * r.bits <= 0xFFFF_FFFF * 0xFF) by (nonlinear_arith)
                requires
                    0 <= r.width <= 0xFFFF_FFFF,
                    0 <= r.bits <= 0xFF,
            ;
        }
        if r.width as u64 * r.bits as u64 + 7 > usize::MAX as u64 || r.width as u64 * 8 + 7
            > usize::MAX as u64 {
            assert(!(meta.rasters@[i as int].measurable() && meta.rasters@[i as int].width * 8 + 7
                <= usize::MAX));
            return false;
        }
        i += 1;
    }
    true
}

fn masked_triple(meta: &Metafile, pictures: &Pictures, stored: Ghost<Seq<Page>>, i: usize) -> (r:
    bool)
    requires
        i + 2 < meta.images@.len(),
        pictures.of(meta@, stored@),
    ensures
        r == is_masked_triple(meta@, stored@, i as int),
{
    assert(i + 2 < meta.images.len());
    let a: &Image = &meta.images[i];
    let b: &Image = &meta.images[i + 1];
    let c: &Image = &meta.images[i + 2];
    match (a.source, b.source, c.source) {
        (
            Source::Stored { ordinal: first, .. },
            Source::Inline(_),
            Source::Stored { ordinal: second, .. },
        ) => {
            let same: bool = match (pictures.pick(first), pictures.pick(second)) {
                (Some(x), Some(y)) => x == y,
                (None, None) => true,
                _ => false,
            };
            a.raster_op == RasterOp::SourceInvert && c.raster_op == RasterOp::SourceInvert
                && b.raster_op == RasterOp::And && a.src.0 == c.src.0 && a.src.1 == c.src.1
                && b.order == a.order.saturating_add(1) && c.order == b.order.saturating_add(1)
                && same_image_placement(a, b) && same_image_placement(a, c) && same
        },
        _ => false,
    }
}

fn can_mask_at(
    format: Format,
    data: &[u8],
    meta: &Metafile,
    stored: &Vec<&Page>,
    pictures: &Pictures,
    i: usize,
) -> (r: bool)
    requires
        i + 2 < meta.images@.len(),
        pictures.of(meta@, stored@.unref()),
        is_measurable(meta.rasters@),
    ensures
        r == can_draw_masked(format, data@, meta@, stored@.unref(), i as int),
{
    assert(i + 2 < meta.images.len());
    match (meta.images[i].source, meta.images[i + 1].source) {
        (Source::Stored { ordinal, .. }, Source::Inline(mask)) => {
            let k: usize = match pictures.pick(ordinal) {
                Some(k) => k,
                None => {
                    return false;
                },
            };
            if mask >= meta.rasters.len() || k >= stored.len() {
                return false;
            }
            let raster: &Raster = &meta.rasters[mask];
            let page: &Page = stored[k];
            proof {
                assert(meta@.rasters[mask as int] == raster@);
                assert(stored@.unref()[k as int] == *page);
            }
            match format {
                Format::Pdf => is_maskable(data, page, raster, meta.images[i].src),
                Format::Html => image_geometry_is_valid(&meta.images[i]) && can_mask(raster) && (
                raster.width as usize).checked_mul(raster.height as usize).is_some() && stream_of(
                    data,
                    page,
                ).is_some(),
            }
        },
        _ => false,
    }
}

/// The bitmap that masks the picture starting at `i`, if one starts there.
pub open spec fn mask_at(
    format: Format,
    data: Seq<u8>,
    m: MetafileModel,
    stored: Seq<Page>,
    i: int,
) -> Option<usize> {
    if starts_masked(format, data, m, stored, i) {
        match m.images[i + 1].source {
            Source::Inline(mask) => Some(mask),
            Source::Stored { .. } => None,
        }
    } else {
        None
    }
}

/// The masks of a drawing's pictures.
pub open spec fn masks_of(format: Format, data: Seq<u8>, m: MetafileModel, stored: Seq<Page>) -> Seq<
    Option<usize>,
> {
    Seq::new(m.images.len(), |i: int| mask_at(format, data, m, stored, i))
}

/// The masked pictures of a drawing: for the image that each starts with, the
/// bitmap that masks it. The two images behind that one belong to it and are
/// not drawn by themselves.
pub fn masked_pictures(
    format: Format,
    data: &[u8],
    meta: &Metafile,
    stored: &Vec<&Page>,
    pictures: &Pictures,
) -> (r: Vec<Option<usize>>)
    requires
        pictures.of(meta@, stored@.unref()),
        is_measurable(meta.rasters@),
    ensures
        r@ == Seq::new(
            meta.images@.len(),
            |i: int| mask_at(format, data@, meta@, stored@.unref(), i),
        ),
{
    let ghost pages = stored@.unref();
    let mut r: Vec<Option<usize>> = Vec::new();
    let mut one: bool = false;
    let mut two: bool = false;
    let mut i: usize = 0;
    proof {
        assert(!starts_masked(format, data@, meta@, pages, -1));
        assert(!starts_masked(format, data@, meta@, pages, -2));
    }
    while i < meta.images.len()
        invariant
            i <= meta.images@.len(),
            pages == stored@.unref(),
            pictures.of(meta@, pages),
            is_measurable(meta.rasters@),
            r@.len() == i,
            one == starts_masked(format, data@, meta@, pages, i - 1),
            two == starts_masked(format, data@, meta@, pages, i - 2),
            forall|k: int|
                0 <= k < i ==> #[trigger] r@[k] == mask_at(format, data@, meta@, pages, k),
        decreases meta.images@.len() - i,
    {
        let starts: bool = !one && !two && meta.images.len() - i > 2 && masked_triple(
            meta,
            pictures,
            Ghost(pages),
            i,
        ) && can_mask_at(format, data, meta, stored, pictures, i);
        assert(starts == starts_masked(format, data@, meta@, pages, i as int));
        let mask: Option<usize> = if starts {
            match meta.images[i + 1].source {
                Source::Inline(k) => Some(k),
                Source::Stored { .. } => None,
            }
        } else {
            None
        };
        r.push(mask);
        two = one;
        one = starts;
        i += 1;
    }
    proof {
        assert(r@ =~= Seq::new(
            meta.images@.len(),
            |i: int| mask_at(format, data@, meta@, pages, i),
        ));
    }
    r
}

/// Whether the image at `i` belongs to a masked picture that starts before it.
pub open spec fn is_masked_part(masks: Seq<Option<usize>>, i: int) -> bool {
    (i >= 1 && i - 1 < masks.len() && masks[i - 1] is Some) || (i >= 2 && i - 2 < masks.len()
        && masks[i - 2] is Some)
}

/// Whether the image at `i` belongs to a masked picture that starts before it.
pub fn belongs_to_mask(masks: &Vec<Option<usize>>, i: usize) -> (r: bool)
    ensures
        r == is_masked_part(masks@, i as int),
{
    (i >= 1 && i - 1 < masks.len() && masks[i - 1].is_some()) || (i >= 2 && i - 2 < masks.len()
        && masks[i - 2].is_some())
}

// -------------------------------------------------------------- order

/// What a mark stands for. Things with one number are painted in this order.
#[derive(Debug, Clone, Copy, PartialEq, Eq, Structural)]
pub enum Part {
    Fill,
    Image,
    Shape,
    Text,
}

/// One part of a drawing: its number in the drawing order, what it is, and its
/// place among its likes.
#[derive(Debug, Clone, Copy, PartialEq, Eq, Structural)]
pub struct Mark {
    pub order: usize,
    pub part: Part,
    pub index: usize,
}

/// The place of a kind of part among those with one number.
pub open spec fn rank(p: Part) -> int {
    match p {
        Part::Fill => 0,
        Part::Image => 1,
        Part::Shape => 2,
        Part::Text => 3,
    }
}

/// `a` is painted before `b`, or they are one.
pub open spec fn painted_first(a: Mark, b: Mark) -> bool {
    a.order < b.order || (a.order == b.order && (rank(a.part) < rank(b.part) || (rank(a.part)
        == rank(b.part) && a.index <= b.index)))
}

/// The marks are in the order of painting.
pub open spec fn in_order(v: Seq<Mark>) -> bool {
    forall|i: int, j: int| 0 <= i <= j < v.len() ==> painted_first(#[trigger] v[i], #[trigger] v[j])
}

/// The marks of a drawing's parts, kind by kind; those of its text if asked
/// for.
pub open spec fn marks_of(m: MetafileModel, text: bool) -> Seq<Mark> {
    Seq::new(
        m.fills.len(),
        |i: int| Mark { order: m.fills[i].order, part: Part::Fill, index: i as usize },
    ) + Seq::new(
        m.images.len(),
        |i: int| Mark { order: m.images[i].order, part: Part::Image, index: i as usize },
    ) + Seq::new(
        m.shapes.len(),
        |i: int| Mark { order: m.shapes[i].order, part: Part::Shape, index: i as usize },
    ) + (if text {
        Seq::new(
            m.text.len(),
            |i: int| Mark { order: m.text[i].order, part: Part::Text, index: i as usize },
        )
    } else {
        Seq::empty()
    })
}

fn rank_of(p: Part) -> (r: u8)
    ensures
        r == rank(p),
{
    match p {
        Part::Fill => 0,
        Part::Image => 1,
        Part::Shape => 2,
        Part::Text => 3,
    }
}

fn is_first(a: &Mark, b: &Mark) -> (r: bool)
    ensures
        r == painted_first(*a, *b),
{
    let (p, q): (u8, u8) = (rank_of(a.part), rank_of(b.part));
    a.order < b.order || (a.order == b.order && (p < q || (p == q && a.index <= b.index)))
}

fn merge(a: &Vec<Mark>, b: &Vec<Mark>) -> (r: Vec<Mark>)
    requires
        in_order(a@),
        in_order(b@),
    ensures
        in_order(r@),
        r@.to_multiset() == a@.to_multiset().add(b@.to_multiset()),
{
    broadcast use vstd::seq_lib::group_to_multiset_ensures;

    let mut r: Vec<Mark> = Vec::new();
    let mut i: usize = 0;
    let mut j: usize = 0;
    proof {
        assert(a@.take(0) =~= Seq::<Mark>::empty());
        assert(b@.take(0) =~= Seq::<Mark>::empty());
        assert(r@.to_multiset() =~= a@.take(0).to_multiset().add(b@.take(0).to_multiset()));
    }
    while i < a.len() || j < b.len()
        invariant
            i <= a@.len(),
            j <= b@.len(),
            in_order(a@),
            in_order(b@),
            in_order(r@),
            forall|k: int|
                0 <= k < r@.len() ==> (i < a@.len() ==> painted_first(
                    #[trigger] r@[k],
                    a@[i as int],
                )) && (j < b@.len() ==> painted_first(r@[k], b@[j as int])),
            r@.to_multiset() == a@.take(i as int).to_multiset().add(
                b@.take(j as int).to_multiset(),
            ),
        decreases (a@.len() - i) + (b@.len() - j),
    {
        let from_a: bool = if i < a.len() {
            if j < b.len() {
                is_first(&a[i], &b[j])
            } else {
                true
            }
        } else {
            false
        };
        if from_a {
            let x: Mark = a[i];
            r.push(x);
            proof {
                broadcast use vstd::seq_lib::group_to_multiset_ensures;

                assert(a@.take(i + 1) =~= a@.take(i as int).push(x));
                assert(r@.to_multiset() =~= a@.take(i + 1).to_multiset().add(
                    b@.take(j as int).to_multiset(),
                ));
            }
            i += 1;
        } else {
            let x: Mark = b[j];
            r.push(x);
            proof {
                broadcast use vstd::seq_lib::group_to_multiset_ensures;

                assert(b@.take(j + 1) =~= b@.take(j as int).push(x));
                assert(r@.to_multiset() =~= a@.take(i as int).to_multiset().add(
                    b@.take(j + 1).to_multiset(),
                ));
            }
            j += 1;
        }
    }
    proof {
        assert(a@.take(i as int) =~= a@);
        assert(b@.take(j as int) =~= b@);
    }
    r
}

fn sort(v: &Vec<Mark>, from: usize, to: usize) -> (r: Vec<Mark>)
    requires
        from <= to <= v@.len(),
    ensures
        in_order(r@),
        r@.to_multiset() == v@.subrange(from as int, to as int).to_multiset(),
    decreases to - from,
{
    if to - from < 2 {
        let mut r: Vec<Mark> = Vec::new();
        if from < to {
            r.push(v[from]);
        }
        proof {
            assert(r@ =~= v@.subrange(from as int, to as int));
        }
        return r;
    }
    let middle: usize = from + (to - from) / 2;
    let a = sort(v, from, middle);
    let b = sort(v, middle, to);
    proof {
        let x = v@.subrange(from as int, middle as int);
        let y = v@.subrange(middle as int, to as int);
        assert(v@.subrange(from as int, to as int) =~= x + y);
        vstd::seq_lib::lemma_multiset_commutative(x, y);
    }
    merge(&a, &b)
}

/// The parts of a drawing in the order in which they are painted, so that a
/// white block drawn over a picture still covers it and text still sits on top
/// of the rule under it.
pub fn draw_order(meta: &Metafile, text: bool) -> (r: Vec<Mark>)
    ensures
        in_order(r@),
        r@.to_multiset() == marks_of(meta@, text).to_multiset(),
{
    let ghost all = marks_of(meta@, text);
    let ghost (f, g, h) = (meta.fills@.len(), meta.images@.len(), meta.shapes@.len());
    let mut v: Vec<Mark> = Vec::new();
    let mut i: usize = 0;
    while i < meta.fills.len()
        invariant
            i <= meta.fills@.len(),
            all == marks_of(meta@, text),
            v@ == all.take(i as int),
        decreases meta.fills@.len() - i,
    {
        let m = Mark { order: meta.fills[i].order, part: Part::Fill, index: i };
        proof {
            assert(all[i as int] == m);
            assert(all.take(i + 1) =~= all.take(i as int).push(m));
        }
        v.push(m);
        i += 1;
    }
    i = 0;
    while i < meta.images.len()
        invariant
            i <= meta.images@.len(),
            f == meta.fills@.len(),
            all == marks_of(meta@, text),
            v@ == all.take(f + i),
        decreases meta.images@.len() - i,
    {
        let m = Mark { order: meta.images[i].order, part: Part::Image, index: i };
        proof {
            assert(all[f + i] == m);
            assert(all.take(f + i + 1) =~= all.take(f + i).push(m));
        }
        v.push(m);
        i += 1;
    }
    i = 0;
    while i < meta.shapes.len()
        invariant
            i <= meta.shapes@.len(),
            f == meta.fills@.len(),
            g == meta.images@.len(),
            all == marks_of(meta@, text),
            v@ == all.take(f + g + i),
        decreases meta.shapes@.len() - i,
    {
        let m = Mark { order: meta.shapes[i].order, part: Part::Shape, index: i };
        proof {
            assert(meta@.shapes[i as int] == meta.shapes@[i as int]@);
            assert(all[f + g + i] == m);
            assert(all.take(f + g + i + 1) =~= all.take(f + g + i).push(m));
        }
        v.push(m);
        i += 1;
    }
    if text {
        i = 0;
        while i < meta.text.len()
            invariant
                i <= meta.text@.len(),
                f == meta.fills@.len(),
                g == meta.images@.len(),
                h == meta.shapes@.len(),
                text,
                all == marks_of(meta@, text),
                v@ == all.take(f + g + h + i),
            decreases meta.text@.len() - i,
        {
            let m = Mark { order: meta.text[i].order, part: Part::Text, index: i };
            proof {
                assert(meta@.text[i as int] == meta.text@[i as int]@);
                assert(all[f + g + h + i] == m);
                assert(all.take(f + g + h + i + 1) =~= all.take(f + g + h + i).push(m));
            }
            v.push(m);
            i += 1;
        }
    }
    proof {
        assert(v@ =~= all);
        assert(v@.subrange(0, v@.len() as int) =~= v@);
    }
    let n: usize = v.len();
    sort(&v, 0, n)
}

/// The marks name parts of the drawing.
pub open spec fn marks_valid(m: MetafileModel, marks: Seq<Mark>) -> bool {
    forall|k: int|
        0 <= k < marks.len() ==> {
            let mark = #[trigger] marks[k];
            match mark.part {
                Part::Fill => mark.index < m.fills.len(),
                Part::Image => mark.index < m.images.len(),
                Part::Shape => mark.index < m.shapes.len(),
                Part::Text => mark.index < m.text.len(),
            }
        }
}

/// The marks are those of the drawing, in the order of painting.
pub open spec fn is_paint_order(m: MetafileModel, text: bool, marks: Seq<Mark>) -> bool {
    in_order(marks) && marks.to_multiset() == marks_of(m, text).to_multiset()
}

/// The marks of a drawing in the order of painting.
pub open spec fn paint_order(m: MetafileModel, text: bool) -> Seq<Mark> {
    marks_of(m, text).sort_by(|a: Mark, b: Mark| painted_first(a, b))
}

/// There is one order of painting.
pub proof fn lemma_one_paint_order(m: MetafileModel, text: bool, marks: Seq<Mark>)
    requires
        is_paint_order(m, text, marks),
    ensures
        marks == paint_order(m, text),
{
    let leq = |a: Mark, b: Mark| painted_first(a, b);
    assert(vstd::relations::total_ordering(leq)) by {
        assert(vstd::relations::reflexive(leq));
        assert(vstd::relations::antisymmetric(leq));
        assert(vstd::relations::transitive(leq));
        assert(vstd::relations::strongly_connected(leq));
    }
    marks_of(m, text).lemma_sort_by_ensures(leq);
    assert(vstd::relations::sorted_by(marks, leq));
    vstd::seq_lib::lemma_sorted_unique(marks, paint_order(m, text), leq);
}

/// Marks in the order of painting name parts of the drawing.
pub proof fn lemma_order_is_valid(m: MetafileModel, text: bool, marks: Seq<Mark>)
    requires
        is_paint_order(m, text, marks),
        m.fills.len() <= usize::MAX,
        m.images.len() <= usize::MAX,
        m.shapes.len() <= usize::MAX,
        m.text.len() <= usize::MAX,
    ensures
        marks_valid(m, marks),
{
    law_paint_order_follows_source(m, text, marks);
    let all = marks_of(m, text);
    assert forall|k: int| 0 <= k < marks.len() implies {
        let mark = #[trigger] marks[k];
        match mark.part {
            Part::Fill => mark.index < m.fills.len(),
            Part::Image => mark.index < m.images.len(),
            Part::Shape => mark.index < m.shapes.len(),
            Part::Text => mark.index < m.text.len(),
        }
    } by {
        assert(marks.contains(marks[k]));
        assert(all.contains(marks[k]));
        let j = choose|j: int| 0 <= j < all.len() && all[j] == marks[k];
        assert(all[j] == marks[k]);
    }
}

/// Painting goes by the numbers that the source gave its parts.
pub proof fn law_paint_order_follows_source(m: MetafileModel, text: bool, painted: Seq<Mark>)
    requires
        in_order(painted),
        painted.to_multiset() == marks_of(m, text).to_multiset(),
    ensures
        painted.len() == marks_of(m, text).len(),
        forall|i: int, j: int|
            0 <= i <= j < painted.len() ==> (#[trigger] painted[i]).order <= (#[trigger] painted[j]).order,
        forall|k: Mark| painted.contains(k) <==> marks_of(m, text).contains(k),
{
    broadcast use vstd::seq_lib::group_to_multiset_ensures;

    let all = marks_of(m, text);
    assert(painted.to_multiset().len() == painted.len());
    assert(all.to_multiset().len() == all.len());
    assert forall|k: Mark| painted.contains(k) <==> all.contains(k) by {
        assert(painted.contains(k) <==> painted.to_multiset().count(k) > 0);
        assert(all.contains(k) <==> all.to_multiset().count(k) > 0);
    }
}

} // verus!
