//! Decodes coded pages into the drawing model.
use crate::application::ports::{same_drawing, PageDecoder};
use crate::domain::document::{Document, DocumentModel};
use crate::domain::page::{Overlay, OverlayModel, Page, PageData, PageModel, Role, KIND_GROUP4};
use crate::domain::rendering::{
    blank_page, Coord, Image, Metafile, MetafileModel, Raster, RasterModel, RasterOp, Source,
};
use crate::infrastructure::ccitt::{decode as decode_ccitt, image_rows};
use crate::infrastructure::dib::{bitmap_of, decode as decode_dib, header, header_of};
use crate::infrastructure::emf::{emf_page, read as read_emf};
use crate::infrastructure::lzh::{decode as decode_lzh, decoded};
use crate::infrastructure::octets::{append, u32_at, u32_of};
use crate::infrastructure::wmf::{read as read_wmf, wmf_page};
use vstd::prelude::*;
use vstd::slice::slice_subrange;

verus! {

/// A drawing of this kind is a bitmap in the form of a preview.
pub const KIND_BITMAP: u64 = 7;

/// The paper where none is stated, in hundredths of a millimetre.
pub const DEFAULT_PAPER: (u32, u32) = (21000, 29700);

/// The coding of a page-sized preview.
pub const METHOD_FULL: u32 = 5;

/// Paper, or what stands for it.
pub open spec fn paper_or_default(paper: Option<(u32, u32)>) -> (u32, u32) {
    match paper {
        Some(p) => p,
        None => DEFAULT_PAPER,
    }
}

/// Paper, or what stands for it.
pub fn or_default(paper: Option<(u32, u32)>) -> (p: (u32, u32))
    ensures
        p == paper_or_default(paper),
{
    match paper {
        Some(p) => p,
        None => DEFAULT_PAPER,
    }
}

// ------------------------------------------------------------ one bitmap as a page

/// A bitmap drawn from the top left corner over so many pixels.
pub open spec fn placed(index: usize, src: (u32, u32), right: u32, bottom: u32) -> Image {
    Image {
        left: Coord::whole(0),
        top: Coord::whole(0),
        right: Coord::whole(right),
        bottom: Coord::whole(bottom),
        src,
        source: Source::Inline(index),
        raster_op: RasterOp::Copy,
        order: 1,
        clip: None,
        clip_path: None,
    }
}

/// A page that is one bitmap, on a device of so many pixels.
pub open spec fn bitmap_page(r: RasterModel, size: (u32, u32), paper: (u32, u32)) -> MetafileModel {
    MetafileModel {
        rasters: seq![r],
        images: seq![placed(0, (r.width, r.height), size.0, size.1)],
        ..blank_page((size.0 as i32, size.1 as i32), (paper.0 as i32, paper.1 as i32))
    }
}

/// A page that is one bitmap, pixel for pixel.
pub open spec fn raster_page(r: RasterModel, paper: (u32, u32)) -> MetafileModel {
    bitmap_page(r, (r.width, r.height), paper)
}

fn place(index: usize, src: (u32, u32), right: u32, bottom: u32) -> (i: Image)
    ensures
        i == placed(index, src, right, bottom),
{
    Image {
        left: Coord::pixels(0),
        top: Coord::pixels(0),
        right: Coord::pixels(right),
        bottom: Coord::pixels(bottom),
        src,
        source: Source::Inline(index),
        raster_op: RasterOp::Copy,
        order: 1,
        clip: None,
        clip_path: None,
    }
}

fn make_bitmap_page(raster: Raster, size: (u32, u32), paper: (u32, u32)) -> (m: Metafile)
    ensures
        m@ == bitmap_page(raster@, size, paper),
{
    #[verifier::truncate]
    let device: (i32, i32) = (size.0 as i32, size.1 as i32);
    #[verifier::truncate]
    let frame: (i32, i32) = (paper.0 as i32, paper.1 as i32);
    let mut m = Metafile::blank(device, frame);
    let src: (u32, u32) = (raster.width, raster.height);
    let ghost r = raster@;
    m.rasters.push(raster);
    m.images.push(place(0, src, size.0, size.1));
    proof {
        assert(m@.rasters =~= seq![r]);
        assert(m@.images =~= seq![placed(0, src, size.0, size.1)]);
    }
    m
}

fn raster_metafile(raster: Raster, paper: (u32, u32)) -> (m: Metafile)
    ensures
        m@ == raster_page(raster@, paper),
{
    let size: (u32, u32) = (raster.width, raster.height);
    make_bitmap_page(raster, size, paper)
}

// ------------------------------------------------------------ metafiles

/// The page that expanded octets draw, in whichever flavour of metafile.
pub open spec fn metafile_page(raw: Seq<u8>, paper: (u32, u32)) -> Option<MetafileModel> {
    match emf_page(raw) {
        Some(p) => Some(p),
        None => wmf_page(raw, (paper.0 as i32, paper.1 as i32)),
    }
}

/// Reads whichever metafile flavour the expanded octets hold.
pub fn metafile(raw: &[u8], paper_mm100: (u32, u32)) -> (r: Option<Metafile>)
    ensures
        same_drawing(r, metafile_page(raw@, paper_mm100)),
{
    match read_emf(raw) {
        Some(m) => Some(m),
        None => {
            #[verifier::truncate]
            let paper: (i32, i32) = (paper_mm100.0 as i32, paper_mm100.1 as i32);
            read_wmf(raw, paper)
        },
    }
}

/// A drawing that draws something.
pub open spec fn visible(m: Option<MetafileModel>) -> Option<MetafileModel> {
    match m {
        Some(p) => if p.is_blank() {
            None
        } else {
            Some(p)
        },
        None => None,
    }
}

/// Drops a drawing that draws nothing.
pub fn unless_empty(m: Option<Metafile>) -> (r: Option<Metafile>)
    ensures
        forall|s: Option<MetafileModel>|
            #![trigger same_drawing(m, s)]
            same_drawing(m, s) ==> same_drawing(r, visible(s)),
{
    match m {
        Some(p) => {
            if p.is_empty() {
                None
            } else {
                Some(p)
            }
        },
        None => None,
    }
}

/// The page that coded octets draw once expanded.
pub open spec fn coded_page(coded: Seq<u8>, expanded: int, paper: (u32, u32)) -> Option<
    MetafileModel,
> {
    match decoded(coded, expanded) {
        Ok(raw) => visible(metafile_page(raw, paper)),
        Err(_) => None,
    }
}

fn expand_page(coded: &[u8], expanded: usize, paper: (u32, u32)) -> (r: Option<Metafile>)
    ensures
        same_drawing(r, coded_page(coded@, expanded as int, paper)),
{
    match decode_lzh(coded, expanded) {
        Ok(raw) => {
            let m = metafile(raw.as_slice(), paper);
            unless_empty(m)
        },
        Err(_) => None,
    }
}

// ------------------------------------------------------------ Group 4 images

/// A bilevel image, white and black.
pub open spec fn bilevel(width: u32, height: u32, rows: Seq<u8>) -> RasterModel {
    RasterModel {
        width,
        height,
        bits: 1,
        palette: seq![(255u8, 255u8, 255u8), (0u8, 0u8, 0u8)],
        rows,
        stencil: None,
    }
}

/// The page that a Group 4 stream of a known size is.
pub open spec fn group4_page(coded: Seq<u8>, pixels: Option<(u32, u32)>, paper: (u32, u32)) -> Option<
    MetafileModel,
> {
    match pixels {
        None => None,
        Some((w, h)) => match image_rows(coded, w, h, false) {
            Some(rows) => Some(raster_page(bilevel(w, h, rows), paper)),
            None => None,
        },
    }
}

fn read_group4(coded: &[u8], pixels: Option<(u32, u32)>, paper: (u32, u32)) -> (r: Option<Metafile>)
    ensures
        same_drawing(r, group4_page(coded@, pixels, paper)),
{
    match pixels {
        None => None,
        Some((w, h)) => match decode_ccitt(coded, w, h) {
            Some(raster) => Some(raster_metafile(raster, paper)),
            None => None,
        },
    }
}

// ------------------------------------------------------------ previews

/// The octets from `at` on, `n` of them, where they are all there.
pub open spec fn octets_at(s: Seq<u8>, at: int, n: int) -> Option<Seq<u8>> {
    if at + n > s.len() {
        None
    } else {
        Some(s.subrange(at, at + n))
    }
}

fn read_octets<'a>(s: &'a [u8], at: usize, n: usize) -> (r: Option<&'a [u8]>)
    ensures
        match (r, octets_at(s@, at as int, n as int)) {
            (Some(v), Some(w)) => v@ == w,
            (None, None) => true,
            _ => false,
        },
{
    if at > s.len() || n > s.len() - at {
        return None;
    }
    Some(slice_subrange(s, at, at + n))
}

/// The pixels of a preview by its coding: as they are, or expanded.
pub open spec fn preview_bits(method: u32, coded: Seq<u8>, expanded: int) -> Option<Seq<u8>> {
    if method == 0 {
        octets_at(coded, 0, expanded)
    } else if method == 1 || method == METHOD_FULL {
        match decoded(coded, expanded) {
            Ok(bits) => Some(bits),
            Err(_) => None,
        }
    } else {
        None
    }
}

fn read_bits(method: u32, coded: &[u8], expanded: usize) -> (r: Option<Vec<u8>>)
    ensures
        match (r, preview_bits(method, coded@, expanded as int)) {
            (Some(v), Some(w)) => v@ == w,
            (None, None) => true,
            _ => false,
        },
{
    if method == 0 {
        return match read_octets(coded, 0, expanded) {
            Some(part) => {
                let mut v: Vec<u8> = Vec::new();
                append(&mut v, part);
                proof {
                    assert(v@ =~= part@);
                }
                Some(v)
            },
            None => None,
        };
    }
    if method == 1 || method == METHOD_FULL {
        return match decode_lzh(coded, expanded) {
            Ok(v) => Some(v),
            Err(_) => None,
        };
    }
    None
}

/// Octets of one stored row of a bilevel bitmap.
pub open spec fn stored_row(width: u32) -> int {
    (width + 31) / 32 * 4
}

/// The header with its height replaced, so that rows run from the top.
pub open spec fn turned_header(info: Seq<u8>, rows: u32) -> Seq<u8> {
    let v = 0x1_0000_0000 - rows;
    info.update(8, (v % 0x100) as u8).update(9, (v / 0x100 % 0x100) as u8).update(
        10,
        (v / 0x1_0000 % 0x100) as u8,
    ).update(11, (v / 0x100_0000 % 0x100) as u8)
}

/// The rows of a page-sized preview: bilevel, written from the top, and only
/// as many as the sub-header declares.
pub open spec fn full_preview(info: Seq<u8>, bits: Seq<u8>, rows: u32) -> Option<RasterModel> {
    match header_of(info) {
        None => None,
        Some(h) => if h.bits != 1 || h.compression != 0 || rows == 0 || rows > h.height || rows
            > 0x7FFF_FFFF || bits.len() != stored_row(h.width) * rows {
            None
        } else {
            bitmap_of(turned_header(info, rows), bits)
        },
    }
}

fn method5_raster(info: &[u8], bits: &[u8], rows: u32) -> (r: Option<Raster>)
    ensures
        match (r, full_preview(info@, bits@, rows)) {
            (Some(v), Some(m)) => v@ == m,
            (None, None) => true,
            _ => false,
        },
{
    let h = match header(info) {
        Some(h) => h,
        None => {
            return None;
        },
    };
    if h.bits != 1 || h.compression != 0 || rows == 0 || rows > h.height || rows > 0x7FFF_FFFF {
        return None;
    }
    let stride: u64 = (h.width as u64 + 31) / 32 * 4;
    proof {
        assert(0 <= stride * rows <= 0x2000_0000 * 0xFFFF_FFFF) by (nonlinear_arith)
            requires
                0 <= stride <= 0x2000_0000,
                0 <= rows <= 0xFFFF_FFFF,
        ;
    }
    if bits.len() as u64 != stride * rows as u64 {
        return None;
    }
    let mut turned: Vec<u8> = Vec::new();
    append(&mut turned, info);
    let v: u64 = 0x1_0000_0000 - rows as u64;
    proof {
        assert(turned@ =~= info@);
    }
    turned.set(8, (v % 0x100) as u8);
    turned.set(9, (v / 0x100 % 0x100) as u8);
    turned.set(10, (v / 0x1_0000 % 0x100) as u8);
    turned.set(11, (v / 0x100_0000 % 0x100) as u8);
    decode_dib(turned.as_slice(), bits)
}

/// The page that a preview of the page table is.
pub open spec fn preview_page(data: Seq<u8>, page: PageModel) -> Option<MetafileModel> {
    match page.data {
        PageData::Preview { offset, len, pixels_at, stored, expanded, rows, method, .. } => {
            match octets_at(data, offset as int, len as int) {
                None => None,
                Some(image) => match (
                    octets_at(image, 0, pixels_at as int),
                    octets_at(image, pixels_at + 16, stored as int),
                ) {
                    (Some(info), Some(coded)) => match preview_bits(
                        method,
                        coded,
                        expanded as int,
                    ) {
                        None => None,
                        Some(bits) => match (if method == METHOD_FULL {
                            full_preview(info, bits, rows)
                        } else {
                            bitmap_of(info, bits)
                        }) {
                            Some(r) => Some(raster_page(r, paper_or_default(page.paper))),
                            None => None,
                        },
                    },
                    _ => None,
                },
            }
        },
        _ => None,
    }
}

fn preview_metafile(data: &[u8], page: &Page) -> (r: Option<Metafile>)
    ensures
        same_drawing(r, preview_page(data@, page@)),
{
    match page.data {
        PageData::Preview { offset, len, pixels_at, stored, expanded, rows, method, .. } => {
            let image = match read_octets(data, offset, len) {
                Some(i) => i,
                None => {
                    return None;
                },
            };
            let info = match read_octets(image, 0, pixels_at) {
                Some(i) => i,
                None => {
                    return None;
                },
            };
            if image.len() - pixels_at < 16 {
                return None;
            }
            let coded = match read_octets(image, pixels_at + 16, stored as usize) {
                Some(c) => c,
                None => {
                    return None;
                },
            };
            let bits = match read_bits(method, coded, expanded as usize) {
                Some(b) => b,
                None => {
                    return None;
                },
            };
            let raster = if method == METHOD_FULL {
                method5_raster(info, bits.as_slice(), rows)
            } else {
                decode_dib(info, bits.as_slice())
            };
            match raster {
                Some(r) => Some(raster_metafile(r, or_default(page.paper))),
                None => None,
            }
        },
        _ => None,
    }
}

// ------------------------------------------------------------ overlays

/// The bitmap that an overlay in the form of a preview is. What stands for its
/// expanded length is where the sub-header lies.
pub open spec fn overlay_bitmap(o: OverlayModel) -> Option<RasterModel> {
    let info = o.coded;
    let at = o.expanded as int;
    match (
        header_of(info),
        u32_of(info, at),
        u32_of(info, at + 4),
        u32_of(info, at + 8),
    ) {
        (Some(h), Some(method), Some(stored), Some(expanded)) => if at < h.info_len || method
            == METHOD_FULL {
            None
        } else {
            match octets_at(info, at + 16, stored as int) {
                None => None,
                Some(coded) => match preview_bits(method, coded, expanded as int) {
                    Some(bits) => bitmap_of(info.take(at), bits),
                    None => None,
                },
            }
        },
        _ => None,
    }
}

fn read_overlay_bitmap(o: &Overlay) -> (r: Option<Raster>)
    ensures
        match (r, overlay_bitmap(o@)) {
            (Some(v), Some(m)) => v@ == m,
            (None, None) => true,
            _ => false,
        },
{
    let info = o.coded.as_slice();
    let at: usize = o.expanded;
    let h = match header(info) {
        Some(h) => h,
        None => {
            return None;
        },
    };
    if at > info.len() || info.len() - at < 12 {
        return None;
    }
    match (u32_at(info, at), u32_at(info, at + 4), u32_at(info, at + 8)) {
        (Some(method), Some(stored), Some(expanded)) => {
            if at < h.info_len || method == METHOD_FULL || info.len() - at < 16 {
                return None;
            }
            let coded = match read_octets(info, at + 16, stored as usize) {
                Some(c) => c,
                None => {
                    return None;
                },
            };
            match read_bits(method, coded, expanded as usize) {
                Some(bits) => {
                    let head = slice_subrange(info, 0, at);
                    proof {
                        assert(head@ =~= info@.take(at as int));
                    }
                    decode_dib(head, bits.as_slice())
                },
                None => None,
            }
        },
        _ => None,
    }
}

/// The frame of an overlay: its own box, or the page.
pub open spec fn overlay_frame(o: OverlayModel, paper: (u32, u32)) -> (u32, u32) {
    match o.area {
        Some((_, _, w, h)) => (w, h),
        None => paper,
    }
}

/// What an overlay draws.
pub open spec fn overlay_page(o: OverlayModel, paper: (u32, u32)) -> Option<MetafileModel> {
    let frame = overlay_frame(o, paper);
    if o.kind == KIND_GROUP4 {
        group4_page(o.coded, o.pixels, frame)
    } else if o.kind == KIND_BITMAP {
        match overlay_bitmap(o) {
            Some(r) => Some(raster_page(r, frame)),
            None => None,
        }
    } else {
        coded_page(o.coded, o.expanded as int, frame)
    }
}

// ------------------------------------------------------------ pages

/// What a page of the page table draws by itself.
pub open spec fn page_of(data: Seq<u8>, page: PageModel) -> Option<MetafileModel> {
    match page.data {
        PageData::Preview { .. } => preview_page(data, page),
        PageData::Encoded { offset, len, kind_code, aux_len, .. } => match octets_at(
            data,
            offset as int,
            len as int,
        ) {
            None => None,
            Some(coded) => {
                let paper = paper_or_default(page.paper);
                if kind_code == KIND_GROUP4 {
                    group4_page(coded, page.pixels, paper)
                } else {
                    match aux_len {
                        Some(n) => if n <= usize::MAX {
                            coded_page(coded, n as int, paper)
                        } else {
                            None
                        },
                        None => None,
                    }
                }
            },
        },
        _ => None,
    }
}

/// The entry is the thumbnail of the page.
pub open spec fn is_thumbnail_of(candidate: PageModel, index: usize) -> bool {
    candidate.role == Role::Thumbnail && candidate.belongs_to == Some(index) && candidate.data is Preview
}

/// The first thumbnail of the page among the entries from `k` on.
pub open spec fn thumbnail_of(pages: Seq<PageModel>, index: usize, k: int) -> Option<PageModel>
    decreases pages.len() - k,
{
    if k < 0 || k >= pages.len() {
        None
    } else if is_thumbnail_of(pages[k], index) {
        Some(pages[k])
    } else {
        thumbnail_of(pages, index, k + 1)
    }
}

/// A whole page from its thumbnail, with the sharp band of the page-sized
/// preview over its upper edge where there is one.
pub open spec fn combined(
    page: PageModel,
    base: MetafileModel,
    high: Option<MetafileModel>,
) -> MetafileModel {
    let size = match page.pixels {
        Some(p) => p,
        None => (0u32, 0u32),
    };
    if base.rasters.len() == 0 {
        match high {
            Some(p) => p,
            None => blank_page((0, 0), (0, 0)),
        }
    } else {
        let whole = bitmap_page(base.rasters[0], size, paper_or_default(page.paper));
        match high {
            Some(p) => if p.rasters.len() > 0 && p.rasters[0].width == size.0
                && p.rasters[0].height < size.1 {
                MetafileModel {
                    rasters: whole.rasters.push(p.rasters[0]),
                    images: whole.images.push(
                        placed(
                            1,
                            (size.0, p.rasters[0].height),
                            size.0,
                            p.rasters[0].height,
                        ),
                    ),
                    ..whole
                }
            } else {
                whole
            },
            None => whole,
        }
    }
}

/// What a page draws in its document.
pub open spec fn page_in(data: Seq<u8>, page: PageModel, document: DocumentModel) -> Option<
    MetafileModel,
> {
    let high = visible(page_of(data, page));
    if page.full_size_preview() {
        match thumbnail_of(document.pages, page.index, 0) {
            Some(thumbnail) => match visible(page_of(data, thumbnail)) {
                Some(base) => Some(combined(page, base, high)),
                None => high,
            },
            None => high,
        }
    } else {
        high
    }
}

fn first_raster(m: Metafile) -> (r: Option<Raster>)
    ensures
        match r {
            Some(raster) => m@.rasters.len() > 0 && raster@ == m@.rasters[0],
            None => m@.rasters.len() == 0,
        },
{
    let mut rasters = m.rasters;
    if rasters.len() == 0 {
        None
    } else {
        Some(rasters.swap_remove(0))
    }
}

fn combine_full_preview(page: &Page, base: Metafile, high: Option<Metafile>) -> (m: Metafile)
    ensures
        forall|h: Option<MetafileModel>|
            #![trigger same_drawing(high, h)]
            same_drawing(high, h) ==> m@ == combined(page@, base@, h),
{
    let size: (u32, u32) = match page.pixels {
        Some(p) => p,
        None => (0, 0),
    };
    let base_raster = match first_raster(base) {
        Some(r) => r,
        None => {
            return match high {
                Some(m) => m,
                None => Metafile::blank((0, 0), (0, 0)),
            };
        },
    };
    let mut result = make_bitmap_page(base_raster, size, or_default(page.paper));
    let ghost whole = result@;
    match high {
        Some(m) => {
            match first_raster(m) {
                Some(raster) => {
                    if raster.width == size.0 && raster.height < size.1 {
                        let tall: u32 = raster.height;
                        let ghost r = raster@;
                        result.rasters.push(raster);
                        result.images.push(place(1, (size.0, tall), size.0, tall));
                        proof {
                            assert(result@.rasters =~= whole.rasters.push(r));
                            assert(result@.images =~= whole.images.push(
                                placed(1, (size.0, tall), size.0, tall),
                            ));
                        }
                    }
                },
                None => {},
            }
        },
        None => {},
    }
    result
}

fn find_thumbnail<'a>(document: &'a Document, index: usize) -> (r: Option<&'a Page>)
    ensures
        match (r, thumbnail_of(document@.pages, index, 0)) {
            (Some(p), Some(m)) => p@ == m,
            (None, None) => true,
            _ => false,
        },
{
    let mut k: usize = 0;
    while k < document.pages.len()
        invariant
            k <= document.pages@.len(),
            thumbnail_of(document@.pages, index, 0) == thumbnail_of(
                document@.pages,
                index,
                k as int,
            ),
        decreases document.pages@.len() - k,
    {
        let p = &document.pages[k];
        proof {
            assert(document@.pages[k as int] == p@);
        }
        let mine: bool = match p.belongs_to {
            Some(o) => o == index,
            None => false,
        };
        let preview: bool = match p.data {
            PageData::Preview { .. } => true,
            _ => false,
        };
        if p.role == Role::Thumbnail && mine && preview {
            return Some(p);
        }
        k += 1;
    }
    None
}

/// Decodes the vendor stream and translates the metafile inside, in either of
/// its two flavours, into the drawing model.
#[derive(Debug, Clone, Copy)]
pub struct LzhMetafileDecoder;

impl PageDecoder for LzhMetafileDecoder {
    open spec fn page_drawing(&self, data: Seq<u8>, page: PageModel) -> Option<MetafileModel> {
        page_of(data, page)
    }

    open spec fn document_drawing(
        &self,
        data: Seq<u8>,
        page: PageModel,
        document: DocumentModel,
    ) -> Option<MetafileModel> {
        page_in(data, page, document)
    }

    open spec fn overlay_drawing(&self, overlay: OverlayModel, paper: (u32, u32)) -> Option<
        MetafileModel,
    > {
        overlay_page(overlay, paper)
    }

    fn decode(&self, data: &[u8], page: &Page) -> (r: Option<Metafile>) {
        match page.data {
            PageData::Preview { .. } => preview_metafile(data, page),
            PageData::Encoded { offset, len, kind_code, aux_len, .. } => {
                let coded = match read_octets(data, offset, len) {
                    Some(c) => c,
                    None => {
                        return None;
                    },
                };
                let paper = or_default(page.paper);
                if kind_code == KIND_GROUP4 {
                    return read_group4(coded, page.pixels, paper);
                }
                match aux_len {
                    Some(n) => {
                        if n <= usize::MAX as u64 {
                            expand_page(coded, n as usize, paper)
                        } else {
                            None
                        }
                    },
                    None => None,
                }
            },
            _ => None,
        }
    }

    fn decode_with_document(&self, data: &[u8], page: &Page, document: &Document) -> (r: Option<
        Metafile,
    >) {
        let m = self.decode(data, page);
        let high = unless_empty(m);
        if page.is_full_size_preview() {
            match find_thumbnail(document, page.index) {
                Some(thumbnail) => {
                    let t = self.decode(data, thumbnail);
                    match unless_empty(t) {
                        Some(base) => {
                            return Some(combine_full_preview(page, base, high));
                        },
                        None => {},
                    }
                },
                None => {},
            }
        }
        high
    }

    fn decode_overlay(&self, overlay: &Overlay, paper: (u32, u32)) -> (r: Option<Metafile>) {
        let frame: (u32, u32) = match overlay.area {
            Some((_, _, w, h)) => (w, h),
            None => paper,
        };
        if overlay.kind == KIND_GROUP4 {
            return read_group4(overlay.coded.as_slice(), overlay.pixels, frame);
        }
        if overlay.kind == KIND_BITMAP {
            return match read_overlay_bitmap(overlay) {
                Some(r) => Some(raster_metafile(r, frame)),
                None => None,
            };
        }
        expand_page(overlay.coded.as_slice(), overlay.expanded, frame)
    }
}

} // verus!
