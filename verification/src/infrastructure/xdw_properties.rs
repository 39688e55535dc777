//! How each page is shown, from the expanded document properties.
//!
//! The block is a flat run of records. Each carries a level: 2 opens a page, 3
//! gives the box of a child, 4 is the page's own record or, later in the run,
//! an annotation on it or a reference to a page body. A tag whose low five
//! bits are all set goes on in the octets that follow. Values are lists of
//! length-prefixed big-endian integers.
use crate::domain::page::{
    overlay_models, Area, Overlay, OverlayModel, PagePlacement,
};
use crate::infrastructure::octets::append;
use crate::infrastructure::tlv::{
    find, find_uint, first_with_tag, len_field, lemma_len_field, read_len, read_window, uint_of,
    window, Tlv,
};
use crate::infrastructure::xdw_page::{number, read_size, size};
use vstd::prelude::*;
use vstd::slice::slice_subrange;

verus! {

pub const RECORD: u64 = 0x62;

pub const LEVEL: u64 = 0x80;

pub const PAPER: u64 = 0x85;

pub const DRAWING: u64 = 0x87;

pub const ROTATION: u64 = 0x9F3D;

pub const CHILD_SIZE: u64 = 0x9F8F51;

pub const CHILD_POSITION: u64 = 0x9F34;

pub const LEVEL_PAGE: u64 = 2;

pub const LEVEL_CHILD: u64 = 3;

pub const LEVEL_CONTENT: u64 = 4;

// Fields of a drawing element, laid out like a page body.
pub const D_KIND: u8 = 0x80;

pub const D_EXPANDED: u8 = 0x81;

pub const D_DATA: u8 = 0x86;

pub const D_PIXEL_W: u8 = 0x90;

pub const D_PIXEL_H: u8 = 0x91;

/// The largest drawing that is expanded.
pub const MAX_DRAWING: u64 = 0x1000_0000;

/// What the properties say about how one page is shown.
#[derive(Debug, Clone, PartialEq, Eq)]
pub struct PageInfo {
    /// Paper as displayed, width and height in hundredths of a millimetre.
    pub paper: Option<(u32, u32)>,
    /// Clockwise rotation applied when the page is shown, in degrees.
    pub rotation: u16,
    /// Drawings laid over the page: the page's own overlay first, then any
    /// annotations, each with its position.
    pub overlays: Vec<Overlay>,
    /// The page bodies placed on the page.
    pub placements: Vec<PagePlacement>,
}

/// What the properties say of a page, as a value.
pub struct InfoModel {
    pub paper: Option<(u32, u32)>,
    pub rotation: u16,
    pub overlays: Seq<OverlayModel>,
    pub placements: Seq<PagePlacement>,
}

impl View for PageInfo {
    type V = InfoModel;

    open spec fn view(&self) -> InfoModel {
        InfoModel {
            paper: self.paper,
            rotation: self.rotation,
            overlays: overlay_models(self.overlays@),
            placements: self.placements@,
        }
    }
}

/// The descriptions as values.
pub open spec fn info_models(v: Seq<PageInfo>) -> Seq<InfoModel> {
    Seq::new(v.len(), |i: int| v[i]@)
}

// ------------------------------------------------------------ elements

/// An element of the block: its tag, as the number that the tag's octets
/// spell, and where its value lies.
#[derive(Debug, Clone, Copy, PartialEq, Eq, Structural)]
pub struct Piece {
    pub tag: u64,
    pub value: usize,
    pub len: usize,
}

impl Piece {
    /// The element lies inside a buffer of `n` octets.
    pub open spec fn fits(self, n: nat) -> bool {
        self.value + self.len <= n
    }

    /// The octets of the value.
    pub open spec fn of(self, d: Seq<u8>) -> Seq<u8> {
        d.subrange(self.value as int, self.value + self.len)
    }
}

/// A tag after `n` octets that spell `tag`: it goes on at `i`, until an octet
/// below `0x80` or the fifth.
pub open spec fn tag_rest(d: Seq<u8>, i: int, n: nat, tag: nat) -> Option<(nat, int)>
    decreases d.len() - i,
{
    if !(0 <= i < d.len()) {
        None
    } else {
        let longer = tag * 256 + d[i] as nat;
        if d[i] < 0x80 || n + 1 > 4 {
            Some((longer, i + 1))
        } else {
            tag_rest(d, i + 1, n + 1, longer)
        }
    }
}

/// The tag at `at`, and where its length field starts.
pub open spec fn tag_at(d: Seq<u8>, at: int) -> Option<(nat, int)> {
    if !(0 <= at < d.len()) {
        None
    } else if d[at] % 32 == 31 {
        tag_rest(d, at + 1, 1, d[at] as nat)
    } else {
        Some((d[at] as nat, at + 1))
    }
}

pub proof fn lemma_tag_rest(d: Seq<u8>, i: int, n: nat, tag: nat)
    ensures
        tag_rest(d, i, n, tag) matches Some((_, next)) ==> i < next <= d.len(),
    decreases d.len() - i,
{
    if 0 <= i < d.len() && !(d[i] < 0x80 || n + 1 > 4) {
        lemma_tag_rest(d, i + 1, n + 1, tag * 256 + d[i] as nat);
    }
}

/// The element at `at`.
pub open spec fn piece_at(d: Seq<u8>, at: int) -> Option<Piece> {
    match tag_at(d, at) {
        None => None,
        Some((tag, i)) => match len_field(d, i) {
            None => None,
            Some((len, value)) => if value + len > d.len() {
                None
            } else {
                Some(Piece { tag: tag as u64, value: value as usize, len: len as usize })
            },
        },
    }
}

pub proof fn lemma_piece_advances(d: Seq<u8>, at: int)
    ensures
        piece_at(d, at) matches Some(p) ==> (d.len() <= usize::MAX ==> at < p.value && p.fits(
            d.len(),
        )),
{
    if 0 <= at < d.len() {
        lemma_tag_rest(d, at + 1, 1, d[at] as nat);
        if tag_at(d, at) is Some {
            lemma_len_field(d, (tag_at(d, at)->0).1);
        }
    }
}

/// The elements from `at` on; the first that cannot be read ends them.
pub open spec fn pieces(d: Seq<u8>, at: int) -> Seq<Piece>
    decreases d.len() - at,
    when d.len() <= usize::MAX
{
    proof {
        lemma_piece_advances(d, at);
    }
    match piece_at(d, at) {
        None => Seq::empty(),
        Some(p) => seq![p] + pieces(d, p.value + p.len),
    }
}

fn read_tag(d: &[u8], at: usize) -> (r: Option<(u64, usize)>)
    ensures
        match (r, tag_at(d@, at as int)) {
            (Some((t, i)), Some((tag, next))) => t == tag && i == next && i <= d@.len(),
            (None, None) => true,
            _ => false,
        },
{
    if at >= d.len() {
        return None;
    }
    let mut tag: u64 = d[at] as u64;
    let mut i: usize = at + 1;
    if tag % 32 != 31 {
        return Some((tag, i));
    }
    let mut n: usize = 1;
    while i < d.len()
        invariant
            i <= d.len(),
            1 <= n <= 4,
            n == 1 ==> tag < 0x100,
            n == 2 ==> tag < 0x1_0000,
            n == 3 ==> tag < 0x100_0000,
            n == 4 ==> tag < 0x1_0000_0000,
            tag_at(d@, at as int) == tag_rest(d@, i as int, n as nat, tag as nat),
        decreases d.len() - i,
    {
        let b: u8 = d[i];
        tag = tag * 256 + b as u64;
        i += 1;
        if b < 0x80 || n + 1 > 4 {
            return Some((tag, i));
        }
        n += 1;
    }
    None
}

fn read_piece(d: &[u8], at: usize) -> (r: Option<Piece>)
    ensures
        r == piece_at(d@, at as int),
        r matches Some(p) ==> at < p.value && p.fits(d.len() as nat),
{
    proof {
        lemma_piece_advances(d@, at as int);
    }
    match read_tag(d, at) {
        None => None,
        Some((tag, i)) => match read_len(d, i) {
            Err(_) => None,
            Ok((len, value)) => {
                if len > d.len() - value {
                    None
                } else {
                    Some(Piece { tag, value, len })
                }
            },
        },
    }
}

/// Reads the elements of `d`.
fn elements(d: &[u8]) -> (v: Vec<Piece>)
    ensures
        v@ == pieces(d@, 0),
        forall|k: int| 0 <= k < v@.len() ==> (#[trigger] v@[k]).fits(d.len() as nat),
{
    let mut v: Vec<Piece> = Vec::new();
    let mut at: usize = 0;
    proof {
        assert(v@ + pieces(d@, 0) =~= pieces(d@, 0));
    }
    loop
        invariant
            at <= d.len(),
            d@.len() == d.len(),
            v@ + pieces(d@, at as int) == pieces(d@, 0),
            forall|k: int| 0 <= k < v@.len() ==> (#[trigger] v@[k]).fits(d.len() as nat),
        decreases d.len() - at,
    {
        match read_piece(d, at) {
            None => {
                proof {
                    assert(v@ + Seq::<Piece>::empty() =~= v@);
                }
                return v;
            },
            Some(p) => {
                proof {
                    assert(v@ + pieces(d@, at as int) =~= v@.push(p) + pieces(
                        d@,
                        p.value + p.len,
                    ));
                }
                v.push(p);
                at = p.value + p.len;
            },
        }
    }
}

/// The value of the first element with the tag.
pub open spec fn field(d: Seq<u8>, items: Seq<Piece>, tag: u64) -> Option<Seq<u8>>
    decreases items.len(),
{
    if items.len() == 0 {
        None
    } else if items[0].tag == tag {
        Some(items[0].of(d))
    } else {
        field(d, items.drop_first(), tag)
    }
}

fn find_field<'a>(d: &'a [u8], items: &Vec<Piece>, tag: u64) -> (r: Option<&'a [u8]>)
    requires
        forall|k: int| 0 <= k < items@.len() ==> (#[trigger] items@[k]).fits(d.len() as nat),
    ensures
        match (r, field(d@, items@, tag)) {
            (Some(v), Some(w)) => v@ == w,
            (None, None) => true,
            _ => false,
        },
{
    let mut i: usize = 0;
    proof {
        assert(items@.skip(0) =~= items@);
    }
    while i < items.len()
        invariant
            i <= items@.len(),
            field(d@, items@, tag) == field(d@, items@.skip(i as int), tag),
            forall|k: int| 0 <= k < items@.len() ==> (#[trigger] items@[k]).fits(d.len() as nat),
        decreases items@.len() - i,
    {
        let p: Piece = items[i];
        if p.tag == tag {
            return Some(slice_subrange(d, p.value, p.value + p.len));
        }
        proof {
            assert(items@.skip(i as int).drop_first() =~= items@.skip(i as int + 1));
        }
        i += 1;
    }
    None
}

// ------------------------------------------------------------ numbers

/// The integers of a length-prefixed list, from `i` on.
pub open spec fn integers(v: Seq<u8>, i: int) -> Seq<u64>
    decreases v.len() - i,
{
    if !(0 <= i < v.len()) {
        Seq::empty()
    } else {
        let n = v[i] as int;
        if n == 0 || n > 8 || i + 1 + n > v.len() {
            Seq::empty()
        } else {
            seq![number_of(v.subrange(i + 1, i + 1 + n))->0] + integers(v, i + 1 + n)
        }
    }
}

/// The number that one to eight octets spell.
pub open spec fn number_of(v: Seq<u8>) -> Option<u64> {
    uint_of(v, Tlv { tag: 0, start: 0, value: 0, len: v.len() as usize })
}

/// The first two integers of a list, when both are positive and fit.
pub open spec fn pair_of(v: Seq<u8>) -> Option<(u32, u32)> {
    let list = integers(v, 0);
    if list.len() >= 2 && 0 < list[0] < 0x1_0000_0000 && 0 < list[1] < 0x1_0000_0000 {
        Some((list[0] as u32, list[1] as u32))
    } else {
        None
    }
}

fn ints(v: &[u8]) -> (out: Vec<u64>)
    ensures
        out@ == integers(v@, 0),
{
    let mut out: Vec<u64> = Vec::new();
    let mut i: usize = 0;
    proof {
        assert(out@ + integers(v@, 0) =~= integers(v@, 0));
    }
    while i < v.len()
        invariant
            i <= v.len(),
            out@ + integers(v@, i as int) == integers(v@, 0),
        decreases v.len() - i,
    {
        let n: usize = v[i] as usize;
        if n == 0 || n > 8 || n > v.len() - i - 1 {
            proof {
                assert(out@ + Seq::<u64>::empty() =~= out@);
            }
            return out;
        }
        match uint(slice_subrange(v, i + 1, i + 1 + n)) {
            Some(x) => {
                proof {
                    assert(out@ + integers(v@, i as int) =~= out@.push(x) + integers(
                        v@,
                        i + 1 + n,
                    ));
                }
                out.push(x);
            },
            None => {},
        }
        i = i + 1 + n;
    }
    proof {
        assert(out@ + Seq::<u64>::empty() =~= out@);
    }
    out
}

fn uint(v: &[u8]) -> (r: Option<u64>)
    ensures
        r == number_of(v@),
{
    Tlv { tag: 0, start: 0, value: 0, len: v.len() }.uint(v)
}

fn pair(v: &[u8]) -> (r: Option<(u32, u32)>)
    ensures
        r == pair_of(v@),
{
    let list = ints(v);
    if list.len() >= 2 && list[0] > 0 && list[1] > 0 && list[0] < 0x1_0000_0000 && list[1]
        < 0x1_0000_0000 {
        Some((list[0] as u32, list[1] as u32))
    } else {
        None
    }
}

fn pair_field(d: &[u8], items: &Vec<Piece>, tag: u64) -> (r: Option<(u32, u32)>)
    requires
        forall|k: int| 0 <= k < items@.len() ==> (#[trigger] items@[k]).fits(d.len() as nat),
    ensures
        r == pair_in(d@, items@, tag),
{
    match find_field(d, items, tag) {
        Some(v) => pair(v),
        None => None,
    }
}

// ------------------------------------------------------------ drawings

/// The drawing that an element holds: kind, expanded length and coded octets.
pub open spec fn drawing_of(v: Seq<u8>, area: Option<Area>) -> Option<OverlayModel> {
    match window(v, 0, v.len() as int) {
        Err(_) => None,
        Ok(fields) => match (
            number(v, fields, D_KIND),
            number(v, fields, D_EXPANDED),
            first_with_tag(fields, D_DATA),
        ) {
            (Some(kind), Some(expanded), Some(data)) => if expanded == 0 || expanded
                > MAX_DRAWING {
                None
            } else {
                Some(
                    OverlayModel {
                        kind,
                        expanded: expanded as usize,
                        coded: v.subrange(data.value as int, data.value + data.len),
                        pixels: size(v, fields, D_PIXEL_W, D_PIXEL_H),
                        area,
                    },
                )
            },
            _ => None,
        },
    }
}

fn drawing(v: &[u8], area: Option<Area>) -> (r: Option<Overlay>)
    ensures
        match (r, drawing_of(v@, area)) {
            (Some(o), Some(m)) => o@ == m,
            (None, None) => true,
            _ => false,
        },
{
    let fields = match read_window(v, 0, v.len()) {
        Ok(f) => f,
        Err(_) => {
            return None;
        },
    };
    match (
        find_uint(fields.as_slice(), v, D_KIND),
        find_uint(fields.as_slice(), v, D_EXPANDED),
        find(fields.as_slice(), D_DATA),
    ) {
        (Some(kind), Some(expanded), Some(data)) => {
            if expanded == 0 || expanded > MAX_DRAWING {
                return None;
            }
            let mut coded: Vec<u8> = Vec::new();
            append(&mut coded, data.bytes(v));
            proof {
                assert(coded@ =~= v@.subrange(data.value as int, data.value + data.len));
            }
            Some(
                Overlay {
                    kind,
                    expanded: expanded as usize,
                    coded,
                    pixels: read_size(&fields, v, D_PIXEL_W, D_PIXEL_H),
                    area,
                },
            )
        },
        _ => None,
    }
}

// ------------------------------------------------------------ the records

/// What has been read so far: the pages, whether the next record of level 4 is
/// the current page's own, and the box the last child announced.
pub struct Reading {
    pub pages: Seq<InfoModel>,
    pub expecting: bool,
    pub child: Option<Area>,
}

/// A pair in a field of the record.
pub open spec fn pair_in(d: Seq<u8>, items: Seq<Piece>, tag: u64) -> Option<(u32, u32)> {
    match field(d, items, tag) {
        Some(v) => pair_of(v),
        None => None,
    }
}

/// The rotation that a record states, in degrees within one turn.
pub open spec fn rotation_in(d: Seq<u8>, items: Seq<Piece>) -> Option<u16> {
    match field(d, items, ROTATION) {
        Some(v) => if integers(v, 0).len() > 0 {
            Some((integers(v, 0)[0] % 360) as u16)
        } else {
            None
        },
        None => None,
    }
}

/// The page after its own record: rotation, and paper where there was none.
pub open spec fn with_own(page: InfoModel, d: Seq<u8>, items: Seq<Piece>) -> InfoModel {
    InfoModel {
        rotation: match rotation_in(d, items) {
            Some(r) => r,
            None => page.rotation,
        },
        paper: if page.paper is None {
            pair_in(d, items, PAPER)
        } else {
            page.paper
        },
        ..page
    }
}

/// The page with what the record lays on it: a drawing, or a page body in the
/// box that the child record before it announced.
pub open spec fn with_content(
    page: InfoModel,
    d: Seq<u8>,
    items: Seq<Piece>,
    area: Option<Area>,
) -> InfoModel {
    match field(d, items, DRAWING) {
        Some(v) => match drawing_of(v, area) {
            Some(o) => InfoModel { overlays: page.overlays.push(o), ..page },
            None => page,
        },
        None => match area {
            Some(a) => InfoModel {
                placements: page.placements.push(
                    PagePlacement { frame: pair_in(d, items, PAPER), area: a },
                ),
                ..page
            },
            None => page,
        },
    }
}

/// The level of a record.
pub open spec fn level_of(d: Seq<u8>, items: Seq<Piece>) -> Option<u64> {
    match field(d, items, LEVEL) {
        Some(v) => number_of(v),
        None => None,
    }
}

/// What is known after one more record, whose octets are `d`.
pub open spec fn after_record(s: Reading, d: Seq<u8>) -> Reading {
    let items = pieces(d, 0);
    match level_of(d, items) {
        Some(level) => if level == LEVEL_PAGE {
            Reading {
                pages: s.pages.push(
                    InfoModel {
                        paper: pair_in(d, items, PAPER),
                        rotation: 0,
                        overlays: Seq::empty(),
                        placements: Seq::empty(),
                    },
                ),
                expecting: true,
                child: None,
            }
        } else if level == LEVEL_CHILD {
            Reading {
                child: match (
                    pair_in(d, items, CHILD_POSITION),
                    pair_in(d, items, CHILD_SIZE),
                ) {
                    (Some((x, y)), Some((w, h))) => Some((x, y, w, h)),
                    _ => None,
                },
                ..s
            }
        } else if level == LEVEL_CONTENT && s.pages.len() > 0 {
            let page = s.pages.last();
            let own = if s.expecting {
                with_own(page, d, items)
            } else {
                page
            };
            Reading {
                pages: s.pages.drop_last().push(with_content(own, d, items, s.child)),
                expecting: false,
                child: None,
            }
        } else {
            s
        },
        None => s,
    }
}

/// What is known after the elements of the block.
pub open spec fn after_all(block: Seq<u8>, items: Seq<Piece>) -> Reading
    decreases items.len(),
{
    if items.len() == 0 {
        Reading { pages: Seq::empty(), expecting: false, child: None }
    } else {
        let s = after_all(block, items.drop_last());
        if items.last().tag == RECORD {
            after_record(s, items.last().of(block))
        } else {
            s
        }
    }
}

/// How the pages are shown.
pub open spec fn shown_pages(block: Seq<u8>) -> Seq<InfoModel> {
    after_all(block, pieces(block, 0)).pages
}

/// Adds what a record of level 4 says to the page.
fn add_content(page: &mut PageInfo, d: &[u8], items: &Vec<Piece>, own: bool, area: Option<Area>)
    requires
        forall|k: int| 0 <= k < items@.len() ==> (#[trigger] items@[k]).fits(d.len() as nat),
    ensures
        final(page)@ == with_content(
            (if own {
                with_own(old(page)@, d@, items@)
            } else {
                old(page)@
            }),
            d@,
            items@,
            area,
        ),
{
    if own {
        match find_field(d, items, ROTATION) {
            Some(v) => {
                let list = ints(v);
                if list.len() > 0 {
                    page.rotation = (list[0] % 360) as u16;
                }
            },
            None => {},
        }
        if page.paper.is_none() {
            page.paper = pair_field(d, items, PAPER);
        }
    }
    let ghost between = page@;
    match find_field(d, items, DRAWING) {
        Some(v) => {
            match drawing(v, area) {
                Some(o) => {
                    let ghost m = o@;
                    page.overlays.push(o);
                    proof {
                        assert(page@.overlays =~= between.overlays.push(m));
                    }
                },
                None => {},
            }
        },
        None => {
            match area {
                Some(a) => {
                    let frame = pair_field(d, items, PAPER);
                    page.placements.push(PagePlacement { frame, area: a });
                },
                None => {},
            }
        },
    }
}

/// Per-page display attributes, in page order.
pub fn pages(block: &[u8]) -> (out: Vec<PageInfo>)
    ensures
        info_models(out@) == shown_pages(block@),
{
    let mut out: Vec<PageInfo> = Vec::new();
    let mut expecting: bool = false;
    let mut child: Option<Area> = None;
    let all = elements(block);
    let mut k: usize = 0;
    proof {
        assert(info_models(out@) =~= Seq::<InfoModel>::empty());
    }
    while k < all.len()
        invariant
            k <= all@.len(),
            forall|j: int| 0 <= j < all@.len() ==> (#[trigger] all@[j]).fits(block.len() as nat),
            after_all(block@, all@.take(k as int)) == (Reading {
                pages: info_models(out@),
                expecting,
                child,
            }),
        decreases all@.len() - k,
    {
        let p: Piece = all[k];
        proof {
            assert(all@.take(k + 1).drop_last() =~= all@.take(k as int));
        }
        k += 1;
        if p.tag == RECORD {
            let d = slice_subrange(block, p.value, p.value + p.len);
            let items = elements(d);
            let level = match find_field(d, &items, LEVEL) {
                Some(v) => uint(v),
                None => None,
            };
            let ghost before = info_models(out@);
            match level {
                Some(LEVEL_PAGE) => {
                    let info = PageInfo {
                        paper: pair_field(d, &items, PAPER),
                        rotation: 0,
                        overlays: Vec::new(),
                        placements: Vec::new(),
                    };
                    let ghost m = info@;
                    out.push(info);
                    expecting = true;
                    child = None;
                    proof {
                        assert(m.overlays =~= Seq::<OverlayModel>::empty());
                        assert(info_models(out@) =~= before.push(m));
                    }
                },
                Some(LEVEL_CHILD) => {
                    child = match (
                        pair_field(d, &items, CHILD_POSITION),
                        pair_field(d, &items, CHILD_SIZE),
                    ) {
                        (Some((x, y)), Some((w, h))) => Some((x, y, w, h)),
                        _ => None,
                    };
                },
                Some(LEVEL_CONTENT) => {
                    match out.pop() {
                        Some(mut page) => {
                            proof {
                                assert(info_models(out@) =~= before.drop_last());
                                assert(page@ == before.last());
                            }
                            let area = child;
                            child = None;
                            add_content(&mut page, d, &items, expecting, area);
                            expecting = false;
                            let ghost m = page@;
                            out.push(page);
                            proof {
                                assert(info_models(out@) =~= before.drop_last().push(m));
                            }
                        },
                        None => {},
                    }
                },
                _ => {},
            }
        }
    }
    proof {
        assert(all@.take(k as int) =~= all@);
    }
    out
}

} // verus!
