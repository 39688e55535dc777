//! Reads a whole container into the document model.
use crate::domain::document::{
    display_models, DisplayModel, DisplayPage, Document, DocumentModel, Rebuilt, SUPPORTED_GENERATIONS,
};
use crate::domain::page::{
    duplicate_overlays, page_models, Page, PageData, PageModel, Role,
};
use crate::error::Error;
use crate::infrastructure::attachments::{
    find as find_octets, first_at, stands, stands_at, CFB_MAGIC, EXCEL_DIR, PDF_MAGIC,
    POWERPOINT_DIR, WORD_DIR, ZIP_LOCAL,
};
use crate::infrastructure::lzh::{decode, decoded};
use crate::infrastructure::octets::u32_at;
use crate::infrastructure::tlv::{
    element, find, find_uint, first_with_tag, le32, le_u32s, len_field, lemma_len_field, read_len,
    read_one, read_window, window, Tlv,
};
use crate::infrastructure::xdw_layout::{
    apply_display_layout, keeps_bodies, laid_out, law_layout_keeps_bodies,
    law_layout_shows_each_sheet_once, law_merge_keeps_bodies, lemma_sheets_below,
    merge_orphan_overlay_sheets, merged, no_repeats, sheet_positions,
};
use crate::infrastructure::xdw_page::{
    law_page_lies_in_file, lies_in, number, page_at, read as read_page,
};
use crate::infrastructure::xdw_properties::{
    info_models, pages as read_properties, shown_pages, InfoModel, PageInfo,
};
use crate::infrastructure::xdw_roles::{assign_roles, assigned, law_roles};
use vstd::prelude::*;
use vstd::slice::slice_subrange;

verus! {

pub const T_HEADER: u8 = 0x60;

pub const T_BODY: u8 = 0x61;

pub const T_PROPERTIES: u8 = 0x63;

pub const T_PAGE: u8 = 0x64;

pub const H_GENERATION: u8 = 0x82;

pub const H_GUARD: u8 = 0x83;

pub const TR_PAGE_COUNT: u8 = 0x80;

pub const TR_PAGE_OFFSETS: u8 = 0x81;

pub const TR_PROPS_EXPANDED: u8 = 0x83;

pub const TR_PROPS_STORED: u8 = 0x84;

pub const TR_CHECKSUM: u8 = 0x85;

pub const TR_SELF_LEN: u8 = 0x86;

pub const TR_SECURITY: u8 = 0x88;

pub const TR_IMAGE_PAGES: u8 = 0x8D;

/// The generation that can be protected.
pub const PROTECTABLE_GENERATION: u32 = 11;

/// `SECU`
pub const SECURITY_MARK: [u8; 4] = [0x53, 0x45, 0x43, 0x55];

// ------------------------------------------------------------ other formats

pub const JPEG_START: [u8; 3] = [0xFF, 0xD8, 0xFF];

pub const PNG_START: [u8; 8] = [0x89, 0x50, 0x4E, 0x47, 0x0D, 0x0A, 0x1A, 0x0A];

/// `II*`, zero
pub const TIFF_LITTLE: [u8; 4] = [0x49, 0x49, 0x2A, 0x00];

/// `MM`, zero, `*`
pub const TIFF_BIG: [u8; 4] = [0x4D, 0x4D, 0x00, 0x2A];

/// `{`, carriage return, `tf`
pub const RTF_START: [u8; 4] = [0x7B, 0x0D, 0x74, 0x66];

/// `<!DOCTYPE`
pub const DOCTYPE: [u8; 9] = [0x3C, 0x21, 0x44, 0x4F, 0x43, 0x54, 0x59, 0x50, 0x45];

/// `<html`
pub const HTML_START: [u8; 5] = [0x3C, 0x68, 0x74, 0x6D, 0x6C];

/// `<?xml`
pub const XML_START: [u8; 5] = [0x3C, 0x3F, 0x78, 0x6D, 0x6C];

/// How far into an archive its kind is looked for.
pub const ARCHIVE_HEAD: usize = 512;

/// The start of an archive.
pub open spec fn archive_head(data: Seq<u8>) -> Seq<u8> {
    data.take(
        if data.len() < ARCHIVE_HEAD {
            data.len() as int
        } else {
            ARCHIVE_HEAD as int
        },
    )
}

/// What an archive is, from the names in it.
pub open spec fn archive_kind(head: Seq<u8>) -> &'static str {
    if first_at(head, WORD_DIR@, 0) is Some {
        "a Word document (.docx)"
    } else if first_at(head, EXCEL_DIR@, 0) is Some {
        "an Excel workbook (.xlsx)"
    } else if first_at(head, POWERPOINT_DIR@, 0) is Some {
        "a PowerPoint file (.pptx)"
    } else {
        "a zip archive"
    }
}

/// The known format of a file that is no container.
pub open spec fn sniffed(data: Seq<u8>) -> Option<&'static str> {
    if stands_at(data, PDF_MAGIC@, 0) {
        Some("a PDF")
    } else if stands_at(data, ZIP_LOCAL@, 0) {
        Some(archive_kind(archive_head(data)))
    } else if stands_at(data, CFB_MAGIC@, 0) {
        Some("an older Office document (compound file)")
    } else if stands_at(data, JPEG_START@, 0) {
        Some("a JPEG image")
    } else if stands_at(data, PNG_START@, 0) {
        Some("a PNG image")
    } else if stands_at(data, TIFF_LITTLE@, 0) || stands_at(data, TIFF_BIG@, 0) {
        Some("a TIFF image")
    } else if stands_at(data, RTF_START@, 0) {
        Some("an RTF document")
    } else if stands_at(data, DOCTYPE@, 0) || stands_at(data, HTML_START@, 0) || stands_at(
        data,
        XML_START@,
        0,
    ) {
        Some("markup, not a document container")
    } else {
        None
    }
}

fn name_archive(head: &[u8]) -> (r: &'static str)
    ensures
        r == archive_kind(head@),
{
    if find_octets(head, &WORD_DIR, 0).is_some() {
        return "a Word document (.docx)";
    }
    if find_octets(head, &EXCEL_DIR, 0).is_some() {
        return "an Excel workbook (.xlsx)";
    }
    if find_octets(head, &POWERPOINT_DIR, 0).is_some() {
        return "a PowerPoint file (.pptx)";
    }
    "a zip archive"
}

/// Names the format of a file that is no container.
pub fn sniff(data: &[u8]) -> (r: Option<&'static str>)
    ensures
        r == sniffed(data@),
{
    if stands(data, &PDF_MAGIC, 0) {
        return Some("a PDF");
    }
    if stands(data, &ZIP_LOCAL, 0) {
        let n: usize = if data.len() < ARCHIVE_HEAD {
            data.len()
        } else {
            ARCHIVE_HEAD
        };
        let head = slice_subrange(data, 0, n);
        proof {
            assert(head@ =~= archive_head(data@));
        }
        return Some(name_archive(head));
    }
    if stands(data, &CFB_MAGIC, 0) {
        return Some("an older Office document (compound file)");
    }
    if stands(data, &JPEG_START, 0) {
        return Some("a JPEG image");
    }
    if stands(data, &PNG_START, 0) {
        return Some("a PNG image");
    }
    if stands(data, &TIFF_LITTLE, 0) || stands(data, &TIFF_BIG, 0) {
        return Some("a TIFF image");
    }
    if stands(data, &RTF_START, 0) {
        return Some("an RTF document");
    }
    if stands(data, &DOCTYPE, 0) || stands(data, &HTML_START, 0) || stands(data, &XML_START, 0) {
        return Some("markup, not a document container");
    }
    None
}

// ------------------------------------------------------------ the file header

/// The first four octets of the guard; those that are missing are zero.
pub open spec fn guard_of(data: Seq<u8>, fields: Seq<Tlv>) -> Seq<u8> {
    Seq::new(
        4,
        |i: int|
            match first_with_tag(fields, H_GUARD) {
                Some(t) => if i < t.len {
                    data[t.value + i]
                } else {
                    0
                },
                None => 0,
            },
    )
}

/// The generation and the guard in the file header, or why the file is none
/// that is read.
pub open spec fn header_of(data: Seq<u8>) -> Result<(u32, Seq<u8>), Error> {
    let first = element(data, 0);
    if first is Ok && first->Ok_0.tag == T_HEADER {
        match window(data, first->Ok_0.value as int, first->Ok_0.len as int) {
            Err(e) => Err(e),
            Ok(fields) => match number(data, fields, H_GENERATION) {
                None => Err(Error::MissingField { tag: H_GENERATION, in_tag: T_HEADER }),
                Some(v) => if !SUPPORTED_GENERATIONS@.contains(v as u32) {
                    Err(Error::UnsupportedGeneration(v as u32))
                } else {
                    Ok((v as u32, guard_of(data, fields)))
                },
            },
        }
    } else {
        match sniffed(data) {
            Some(looks_like) => Err(Error::NotAContainer { looks_like }),
            None => match first {
                Err(e) => Err(e),
                Ok(_) => Err(Error::NoFileHeader),
            },
        }
    }
}

fn is_supported(generation: u32) -> (r: bool)
    ensures
        r == SUPPORTED_GENERATIONS@.contains(generation),
{
    let mut i: usize = 0;
    while i < SUPPORTED_GENERATIONS.len()
        invariant
            i <= SUPPORTED_GENERATIONS@.len(),
            forall|k: int| 0 <= k < i ==> #[trigger] SUPPORTED_GENERATIONS@[k] != generation,
        decreases SUPPORTED_GENERATIONS@.len() - i,
    {
        if SUPPORTED_GENERATIONS[i] == generation {
            assert(SUPPORTED_GENERATIONS@[i as int] == generation);
            return true;
        }
        i += 1;
    }
    false
}

fn read_guard(data: &[u8], fields: &Vec<Tlv>) -> (guard: [u8; 4])
    requires
        forall|k: int| 0 <= k < fields@.len() ==> (#[trigger] fields@[k]).fits(data@.len()),
    ensures
        guard@ == guard_of(data@, fields@),
{
    let mut guard: [u8; 4] = [0, 0, 0, 0];
    match find(fields.as_slice(), H_GUARD) {
        Some(t) => {
            let mut i: usize = 0;
            while i < 4 && i < t.len
                invariant
                    i <= 4,
                    i <= t.len,
                    t.fits(data.len() as nat),
                    guard@.len() == 4,
                    forall|k: int| 0 <= k < i ==> guard@[k] == data@[t.value + k],
                    forall|k: int| i <= k < 4 ==> guard@[k] == 0,
                decreases 4 - i,
            {
                guard[i] = data[t.value + i];
                i += 1;
            }
        },
        None => {},
    }
    proof {
        assert(guard@ =~= guard_of(data@, fields@));
    }
    guard
}

fn read_header(data: &[u8]) -> (r: Result<(u32, [u8; 4]), Error>)
    ensures
        match (r, header_of(data@)) {
            (Ok((a, g)), Ok((b, h))) => a == b && g@ == h,
            (Err(a), Err(b)) => a == b,
            _ => false,
        },
{
    let first = read_one(data, 0);
    match first {
        Ok(h) => {
            if h.tag == T_HEADER {
                let fields = match read_window(data, h.value, h.len) {
                    Ok(f) => f,
                    Err(e) => {
                        return Err(e);
                    },
                };
                let generation: u32 = match find_uint(fields.as_slice(), data, H_GENERATION) {
                    Some(v) => v as u32,
                    None => {
                        return Err(Error::MissingField { tag: H_GENERATION, in_tag: T_HEADER });
                    },
                };
                if !is_supported(generation) {
                    return Err(Error::UnsupportedGeneration(generation));
                }
                return Ok((generation, read_guard(data, &fields)));
            }
        },
        Err(_) => {},
    }
    match sniff(data) {
        Some(looks_like) => Err(Error::NotAContainer { looks_like }),
        None => match first {
            Err(e) => Err(e),
            Ok(_) => Err(Error::NoFileHeader),
        },
    }
}

// ------------------------------------------------------------ the trailer

/// The trailer whose header takes `hdr` octets or more. The length field can
/// be one to four octets wide; the one that ends the file exactly is meant.
pub open spec fn trailer_with(data: Seq<u8>, len: int, hdr: int) -> Result<(Tlv, Seq<Tlv>), Error>
    decreases 6 - hdr,
{
    if hdr > 5 {
        Err(Error::NoTrailer)
    } else {
        let start = data.len() - len - hdr;
        if start >= 0 && len_field(data, start + 1) == Some((len as nat, start + hdr)) {
            match window(data, start + hdr, len) {
                Err(e) => Err(e),
                Ok(fields) => Ok(
                    (
                        Tlv {
                            tag: data[start],
                            start: start as usize,
                            value: (start + hdr) as usize,
                            len: len as usize,
                        },
                        fields,
                    ),
                ),
            }
        } else {
            trailer_with(data, len, hdr + 1)
        }
    }
}

/// The trailer, found from its own length at the end of the file.
pub open spec fn trailer_of(data: Seq<u8>) -> Result<(Tlv, Seq<Tlv>), Error> {
    let n = data.len() as int;
    if n < 8 || data[n - 6] != TR_SELF_LEN || data[n - 5] != 4 {
        Err(Error::NoTrailer)
    } else {
        trailer_with(data, le32(data, n - 4) as int, 2)
    }
}

/// Finds the trailer from the end of the file.
fn read_trailer(data: &[u8]) -> (r: Result<(Tlv, Vec<Tlv>), Error>)
    ensures
        match (r, trailer_of(data@)) {
            (Ok((t, v)), Ok((u, w))) => t == u && v@ == w,
            (Err(a), Err(b)) => a == b,
            _ => false,
        },
        r matches Ok((t, v)) ==> t.start <= data.len() && forall|k: int|
            0 <= k < v@.len() ==> (#[trigger] v@[k]).fits(data@.len()),
{
    let n: usize = data.len();
    if n < 8 || data[n - 6] != TR_SELF_LEN || data[n - 5] != 4 {
        return Err(Error::NoTrailer);
    }
    let len: usize = match u32_at(data, n - 4) {
        Some(v) => v as usize,
        None => 0,
    };
    let mut hdr: usize = 2;
    while hdr <= 5
        invariant
            2 <= hdr <= 6,
            n == data.len(),
            trailer_of(data@) == trailer_with(data@, len as int, hdr as int),
        decreases 6 - hdr,
    {
        if len <= n && hdr <= n - len {
            let start: usize = n - len - hdr;
            match read_len(data, start + 1) {
                Ok((l, value)) => {
                    if l == len && value == start + hdr {
                        return match read_window(data, value, len) {
                            Ok(fields) => Ok(
                                (Tlv { tag: data[start], start, value, len }, fields),
                            ),
                            Err(e) => Err(e),
                        };
                    }
                },
                Err(_) => {},
            }
        }
        hdr += 1;
    }
    Err(Error::NoTrailer)
}

/// Where the properties block lies: right before the trailer, behind a header
/// of `hdr` octets or more.
pub open spec fn properties_with(data: Seq<u8>, trailer_at: int, stored: int, hdr: int) -> Option<
    (usize, usize),
>
    decreases 6 - hdr,
{
    let start = trailer_at - stored - hdr;
    if hdr > 5 || start < 0 {
        None
    } else if start < data.len() && data[start] == T_PROPERTIES && len_field(data, start + 1)
        == Some((stored as nat, start + hdr)) {
        Some(((start + hdr) as usize, stored as usize))
    } else {
        properties_with(data, trailer_at, stored, hdr + 1)
    }
}

fn locate_properties(data: &[u8], trailer_at: usize, stored: usize) -> (r: Option<(usize, usize)>)
    requires
        trailer_at <= data.len(),
    ensures
        r == properties_with(data@, trailer_at as int, stored as int, 2),
        r matches Some((at, len)) ==> at + len == trailer_at,
{
    let mut hdr: usize = 2;
    while hdr <= 5
        invariant
            2 <= hdr <= 6,
            trailer_at <= data.len(),
            properties_with(data@, trailer_at as int, stored as int, 2) == properties_with(
                data@,
                trailer_at as int,
                stored as int,
                hdr as int,
            ),
        decreases 6 - hdr,
    {
        if stored > trailer_at || hdr > trailer_at - stored {
            return None;
        }
        let start: usize = trailer_at - stored - hdr;
        if data[start] == T_PROPERTIES {
            match read_len(data, start + 1) {
                Ok((l, value)) => {
                    if l == stored && value == start + hdr {
                        return Some((value, stored));
                    }
                },
                Err(_) => {},
            }
        }
        hdr += 1;
    }
    None
}

/// A security description that starts with the mark of a protected document.
pub open spec fn protected(data: Seq<u8>, fields: Seq<Tlv>) -> bool {
    match first_with_tag(fields, TR_SECURITY) {
        Some(t) => stands_at(
            data.subrange(t.value as int, t.value + t.len),
            SECURITY_MARK@,
            0,
        ),
        None => false,
    }
}

/// Whether the trailer carries the mark of a protected document. The security
/// description itself is not read.
fn is_protected(fields: &Vec<Tlv>, data: &[u8]) -> (r: bool)
    requires
        forall|k: int| 0 <= k < fields@.len() ==> (#[trigger] fields@[k]).fits(data@.len()),
    ensures
        r == protected(data@, fields@),
{
    match find(fields.as_slice(), TR_SECURITY) {
        Some(t) => stands(t.bytes(data), &SECURITY_MARK, 0),
        None => false,
    }
}

// ------------------------------------------------------------ the page table

/// The octets at `i` look like a page element: where its value starts and how
/// long it is.
pub open spec fn page_shape(data: Seq<u8>, i: int) -> Option<(nat, int)> {
    if data[i] != T_PAGE {
        None
    } else {
        match len_field(data, i + 1) {
            None => None,
            Some((len, value)) => if value + len <= data.len() && len > 10 && data[value] == 0x81
                && data[value + 1] == 4 && data[value + 6] == 0x82 {
                Some((len, value))
            } else {
                None
            },
        }
    }
}

/// The offsets from `i` on that look like page elements.
pub open spec fn page_offsets(data: Seq<u8>, i: int) -> Seq<usize>
    decreases data.len() - i,
{
    if i < 0 || i + 8 >= data.len() {
        Seq::empty()
    } else {
        proof {
            lemma_len_field(data, i + 1);
        }
        match page_shape(data, i) {
            Some((len, value)) => seq![i as usize] + page_offsets(data, value + len),
            None => page_offsets(data, i + 1),
        }
    }
}

/// Looks for page elements in a container whose page table is unusable.
fn scan_for_pages(data: &[u8]) -> (out: Vec<usize>)
    ensures
        out@ == page_offsets(data@, 0),
{
    let mut out: Vec<usize> = Vec::new();
    let mut i: usize = 0;
    proof {
        assert(out@ + page_offsets(data@, 0) =~= page_offsets(data@, 0));
    }
    while i < data.len() && data.len() - i > 8
        invariant
            i <= data.len(),
            out@ + page_offsets(data@, i as int) == page_offsets(data@, 0),
        decreases data.len() - i,
    {
        let mut next: usize = i + 1;
        if data[i] == T_PAGE {
            match read_len(data, i + 1) {
                Ok((len, value)) => {
                    proof {
                        lemma_len_field(data@, i + 1);
                    }
                    if len > 10 && len <= data.len() - value && data[value] == 0x81 && data[value
                        + 1] == 4 && data[value + 6] == 0x82 {
                        proof {
                            assert(out@ + page_offsets(data@, i as int) =~= out@.push(i)
                                + page_offsets(data@, value + len));
                        }
                        out.push(i);
                        next = value + len;
                    }
                },
                Err(_) => {},
            }
        }
        i = next;
    }
    proof {
        assert(out@ + Seq::<usize>::empty() =~= out@);
    }
    out
}

/// The pages at the first `n` offsets of the table, or what is wrong with it.
pub open spec fn table(data: Seq<u8>, offsets: Seq<u32>, n: int) -> Result<Seq<PageModel>, Rebuilt>
    decreases n,
{
    if n <= 0 {
        Ok(Seq::empty())
    } else {
        match table(data, offsets, n - 1) {
            Err(r) => Err(r),
            Ok(pages) => {
                let off = offsets[n - 1] as usize;
                if off >= data.len() {
                    Err(Rebuilt::OffsetOutsideFile)
                } else {
                    match page_at(data, (n - 1) as usize, off) {
                        Ok(p) => Ok(pages.push(p)),
                        Err(_) => Err(Rebuilt::OffsetNotAPage),
                    }
                }
            },
        }
    }
}

/// The pages at the first `n` of the offsets that were found; one that cannot
/// be read is left out.
pub open spec fn rescued(data: Seq<u8>, offsets: Seq<usize>, n: int) -> Seq<PageModel>
    decreases n,
{
    if n <= 0 {
        Seq::empty()
    } else {
        match page_at(data, (n - 1) as usize, offsets[n - 1]) {
            Ok(p) => rescued(data, offsets, n - 1).push(p),
            Err(_) => rescued(data, offsets, n - 1),
        }
    }
}

/// The page table, and why it was rebuilt if it was.
pub open spec fn table_pages(data: Seq<u8>, offsets: Seq<u32>) -> (
    Seq<PageModel>,
    Option<Rebuilt>,
) {
    match table(data, offsets, offsets.len() as int) {
        Ok(pages) => (pages, None),
        Err(r) => {
            let found = page_offsets(data, 0);
            (rescued(data, found, found.len() as int), Some(r))
        },
    }
}

fn read_table(data: &[u8], offsets: &Vec<u32>) -> (r: Result<Vec<Page>, Rebuilt>)
    ensures
        match (r, table(data@, offsets@, offsets@.len() as int)) {
            (Ok(v), Ok(m)) => page_models(v@) == m,
            (Err(a), Err(b)) => a == b,
            _ => false,
        },
{
    let mut pages: Vec<Page> = Vec::new();
    let mut i: usize = 0;
    proof {
        assert(page_models(pages@) =~= Seq::<PageModel>::empty());
    }
    while i < offsets.len()
        invariant
            i <= offsets@.len(),
            table(data@, offsets@, i as int) == Ok::<Seq<PageModel>, Rebuilt>(page_models(pages@)),
        decreases offsets@.len() - i,
    {
        let off: usize = offsets[i] as usize;
        if off >= data.len() {
            proof {
                lemma_table_fails(data@, offsets@, i + 1, offsets@.len() as int);
            }
            return Err(Rebuilt::OffsetOutsideFile);
        }
        match read_page(data, i, off) {
            Ok(p) => {
                let ghost before = page_models(pages@);
                let ghost m = p@;
                pages.push(p);
                proof {
                    assert(page_models(pages@) =~= before.push(m));
                }
            },
            Err(_) => {
                proof {
                    lemma_table_fails(data@, offsets@, i + 1, offsets@.len() as int);
                }
                return Err(Rebuilt::OffsetNotAPage);
            },
        }
        i += 1;
    }
    Ok(pages)
}

proof fn lemma_table_fails(data: Seq<u8>, offsets: Seq<u32>, k: int, n: int)
    requires
        table(data, offsets, k) is Err,
        0 <= k <= n,
    ensures
        table(data, offsets, n) == table(data, offsets, k),
    decreases n,
{
    if k < n {
        lemma_table_fails(data, offsets, k, n - 1);
    }
}

fn rescue(data: &[u8]) -> (pages: Vec<Page>)
    ensures
        page_models(pages@) == rescued(
            data@,
            page_offsets(data@, 0),
            page_offsets(data@, 0).len() as int,
        ),
{
    let found = scan_for_pages(data);
    let mut pages: Vec<Page> = Vec::new();
    let mut i: usize = 0;
    proof {
        assert(page_models(pages@) =~= Seq::<PageModel>::empty());
    }
    while i < found.len()
        invariant
            i <= found@.len(),
            page_models(pages@) == rescued(data@, found@, i as int),
        decreases found@.len() - i,
    {
        match read_page(data, i, found[i]) {
            Ok(p) => {
                let ghost before = page_models(pages@);
                let ghost m = p@;
                pages.push(p);
                proof {
                    assert(page_models(pages@) =~= before.push(m));
                }
            },
            Err(_) => {},
        }
        i += 1;
    }
    pages
}

fn read_pages(data: &[u8], offsets: &Vec<u32>) -> (r: (Vec<Page>, Option<Rebuilt>))
    ensures
        (page_models(r.0@), r.1) == table_pages(data@, offsets@),
{
    match read_table(data, offsets) {
        Ok(pages) => (pages, None),
        Err(why) => (rescue(data), Some(why)),
    }
}

// ------------------------------------------------------------ what is shown

/// How the pages are shown, when the properties can be expanded.
pub open spec fn shown_of(
    data: Seq<u8>,
    properties: Option<(usize, usize)>,
    expanded: Option<u32>,
) -> Seq<InfoModel> {
    match (properties, expanded) {
        (Some((at, stored)), Some(n)) => match decoded(data.subrange(at as int, at + stored), n as int) {
            Ok(block) => shown_pages(block),
            Err(_) => Seq::empty(),
        },
        _ => Seq::empty(),
    }
}

fn read_shown(
    data: &[u8],
    properties: Option<(usize, usize)>,
    expanded: Option<u32>,
) -> (r: Vec<PageInfo>)
    requires
        properties matches Some((at, stored)) ==> at + stored <= data.len(),
    ensures
        info_models(r@) == shown_of(data@, properties, expanded),
{
    match (properties, expanded) {
        (Some((at, stored)), Some(n)) => {
            match decode(slice_subrange(data, at, at + stored), n as usize) {
                Ok(block) => {
                    return read_properties(block.as_slice());
                },
                Err(_) => {},
            }
        },
        _ => {},
    }
    let none: Vec<PageInfo> = Vec::new();
    proof {
        assert(info_models(none@) =~= Seq::<InfoModel>::empty());
    }
    none
}

/// A sheet that only the properties describe.
pub open spec fn described_page(info: InfoModel, index: usize, at: usize) -> PageModel {
    PageModel {
        index,
        role: Role::Sheet,
        belongs_to: None,
        offset: at,
        checksum: None,
        paper: info.paper,
        pixels: None,
        rotation: info.rotation,
        overlays: info.overlays,
        data: PageData::Bare { offset: at, len: 0 },
        unknown_fields: Seq::empty(),
    }
}

/// The sheets that the properties describe.
pub open spec fn described_pages(shown: Seq<InfoModel>, at: usize) -> Seq<PageModel> {
    Seq::new(shown.len(), |i: int| described_page(shown[i], i as usize, at))
}

fn make_described(shown: &Vec<PageInfo>, at: usize) -> (pages: Vec<Page>)
    ensures
        page_models(pages@) == described_pages(info_models(shown@), at),
{
    let mut pages: Vec<Page> = Vec::new();
    let mut i: usize = 0;
    while i < shown.len()
        invariant
            i <= shown@.len(),
            pages@.len() == i,
            forall|k: int|
                0 <= k < i ==> (#[trigger] pages@[k])@ == described_page(
                    shown@[k]@,
                    k as usize,
                    at,
                ),
        decreases shown@.len() - i,
    {
        let info = &shown[i];
        pages.push(
            Page {
                index: i,
                role: Role::Sheet,
                belongs_to: None,
                offset: at,
                checksum: None,
                paper: info.paper,
                pixels: None,
                rotation: info.rotation,
                overlays: duplicate_overlays(&info.overlays),
                data: PageData::Bare { offset: at, len: 0 },
                unknown_fields: Vec::new(),
            },
        );
        i += 1;
    }
    proof {
        assert(page_models(pages@) =~= described_pages(info_models(shown@), at));
    }
    pages
}

// ------------------------------------------------------------ the survey

/// A tag that can stand in a document element and is accounted for.
pub open spec fn accounted_for(tag: u8) -> bool {
    tag == T_PAGE || tag == T_PROPERTIES || tag == 0x65 || tag == 0x68
}

/// Tag, offset and length of the first `n` elements, without those that are
/// accounted for.
pub open spec fn strangers(items: Seq<Tlv>, n: int) -> Seq<(u8, usize, usize)>
    decreases n,
{
    if n <= 0 {
        Seq::empty()
    } else {
        let t = items[n - 1];
        if accounted_for(t.tag) {
            strangers(items, n - 1)
        } else {
            strangers(items, n - 1).push((t.tag, t.start, t.len))
        }
    }
}

/// How many document elements the file holds from `i` on, and what stands in
/// them that is not interpreted.
pub open spec fn survey_from(data: Seq<u8>, i: int) -> (nat, Seq<(u8, usize, usize)>)
    decreases data.len() - i,
    when data.len() <= usize::MAX
{
    proof {
        lemma_len_field(data, i + 1);
    }
    if i < 0 || i >= data.len() {
        (0, Seq::empty())
    } else {
        match element(data, i) {
            Err(_) => (0, Seq::empty()),
            Ok(t) => {
                let rest = survey_from(data, t.value + t.len);
                if t.tag == T_BODY {
                    match window(data, t.value as int, t.len as int) {
                        Ok(items) => (
                            rest.0 + 1,
                            strangers(items, items.len() as int) + rest.1,
                        ),
                        Err(_) => (rest.0 + 1, rest.1),
                    }
                } else {
                    rest
                }
            },
        }
    }
}

fn add_strangers(items: &Vec<Tlv>, unknown: &mut Vec<(u8, usize, usize)>)
    ensures
        final(unknown)@ == old(unknown)@ + strangers(items@, items@.len() as int),
{
    let mut n: usize = 0;
    proof {
        assert(unknown@ + strangers(items@, 0) =~= unknown@);
    }
    while n < items.len()
        invariant
            n <= items@.len(),
            unknown@ == old(unknown)@ + strangers(items@, n as int),
        decreases items@.len() - n,
    {
        let t: Tlv = items[n];
        if !(t.tag == T_PAGE || t.tag == T_PROPERTIES || t.tag == 0x65 || t.tag == 0x68) {
            proof {
                assert((unknown@).push((t.tag, t.start, t.len)) =~= old(unknown)@ + strangers(
                    items@,
                    n + 1,
                ));
            }
            unknown.push((t.tag, t.start, t.len));
        }
        n += 1;
    }
}

/// Counts the document elements and collects what is not interpreted.
fn survey(data: &[u8]) -> (r: (usize, Vec<(u8, usize, usize)>))
    ensures
        r.0 == survey_from(data@, 0).0,
        r.1@ == survey_from(data@, 0).1,
{
    let mut generations: usize = 0;
    let mut unknown: Vec<(u8, usize, usize)> = Vec::new();
    let mut i: usize = 0;
    proof {
        assert(unknown@ + survey_from(data@, 0).1 =~= survey_from(data@, 0).1);
    }
    while i < data.len()
        invariant
            i <= data.len(),
            data@.len() == data.len(),
            generations <= i,
            generations + survey_from(data@, i as int).0 == survey_from(data@, 0).0,
            unknown@ + survey_from(data@, i as int).1 == survey_from(data@, 0).1,
        decreases data.len() - i,
    {
        let t: Tlv = match read_one(data, i) {
            Ok(t) => t,
            Err(_) => {
                proof {
                    assert(unknown@ + Seq::<(u8, usize, usize)>::empty() =~= unknown@);
                }
                return (generations, unknown);
            },
        };
        let ghost before = unknown@;
        if t.tag == T_BODY {
            generations += 1;
            match read_window(data, t.value, t.len) {
                Ok(items) => {
                    add_strangers(&items, &mut unknown);
                    proof {
                        let mine = strangers(items@, items@.len() as int);
                        let rest = survey_from(data@, t.value + t.len).1;
                        assert(before + (mine + rest) =~= (before + mine) + rest);
                    }
                },
                Err(_) => {},
            }
        }
        i = t.end();
    }
    proof {
        assert(unknown@ + Seq::<(u8, usize, usize)>::empty() =~= unknown@);
    }
    (generations, unknown)
}

// ------------------------------------------------------------ the document

/// A field of the trailer as a number of 32 bits.
pub open spec fn number32(data: Seq<u8>, fields: Seq<Tlv>, tag: u8) -> Option<u32> {
    match number(data, fields, tag) {
        Some(v) => Some(v as u32),
        None => None,
    }
}

/// A field of the trailer as a list of numbers.
pub open spec fn list32(data: Seq<u8>, fields: Seq<Tlv>, tag: u8) -> Option<Seq<u32>> {
    match first_with_tag(fields, tag) {
        Some(t) => {
            let b = data.subrange(t.value as int, t.value + t.len);
            Some(Seq::new(b.len() / 4, |k: int| le32(b, 4 * k) as u32))
        },
        None => None,
    }
}

/// The first number of every pair.
pub open spec fn every_other(list: Seq<u32>) -> Seq<u32> {
    Seq::new(((list.len() + 1) / 2) as nat, |k: int| list[2 * k])
}

/// The page table as read, before the properties are applied to it.
pub open spec fn bodies_of(data: Seq<u8>, fields: Seq<Tlv>) -> (
    Seq<PageModel>,
    Option<Rebuilt>,
) {
    match list32(data, fields, TR_PAGE_OFFSETS) {
        Some(offsets) => {
            let (pages, rebuilt) = table_pages(data, offsets);
            (assigned(pages), rebuilt)
        },
        None => (assigned(Seq::empty()), None),
    }
}

/// The pages and the displayed pages, once the properties are applied and
/// annotation sheets are merged where the properties gave no layout.
pub open spec fn arranged(pages: Seq<PageModel>, shown: Seq<InfoModel>) -> (
    Seq<PageModel>,
    Seq<DisplayModel>,
) {
    let (laid, display) = laid_out(pages, shown);
    if display.len() == 0 {
        (merged(laid), display)
    } else {
        (laid, display)
    }
}

/// The document that the body of a container describes.
pub open spec fn body_of(
    data: Seq<u8>,
    generation: u32,
    guard: Seq<u8>,
    trailer: Tlv,
    fields: Seq<Tlv>,
) -> Result<DocumentModel, Error> {
    let (found, rebuilt) = bodies_of(data, fields);
    let stored = number32(data, fields, TR_PROPS_STORED);
    let expanded = number32(data, fields, TR_PROPS_EXPANDED);
    let properties = match stored {
        Some(s) => properties_with(data, trailer.start as int, s as int, 2),
        None => None,
    };
    let shown = shown_of(data, properties, expanded);
    if found.len() == 0 && shown.len() == 0 && list32(data, fields, TR_PAGE_OFFSETS) is None {
        Err(Error::MissingField { tag: TR_PAGE_OFFSETS, in_tag: trailer.tag })
    } else {
        let pages = if found.len() == 0 {
            described_pages(shown, trailer.start)
        } else {
            found
        };
        let (pages, display_pages) = arranged(pages, shown);
        let (generations, unknown_tags) = survey_from(data, 0);
        Ok(
            DocumentModel {
                generation,
                guard,
                trailer_tag: trailer.tag,
                trailer_at: trailer.start,
                declared_entries: match number32(data, fields, TR_PAGE_COUNT) {
                    Some(v) => v,
                    None => 0,
                },
                pages,
                display_pages,
                properties,
                properties_len: match (stored, expanded) {
                    (Some(s), Some(e)) => Some((s, e)),
                    _ => None,
                },
                image_derived: match list32(data, fields, TR_IMAGE_PAGES) {
                    Some(list) => every_other(list),
                    None => Seq::empty(),
                },
                checksum: number32(data, fields, TR_CHECKSUM),
                generations_present: if generations > 1 {
                    generations as usize
                } else {
                    1
                },
                unknown_tags,
                rebuilt,
            },
        )
    }
}

/// The document that a container holds, or why it cannot be read.
pub open spec fn document_of(data: Seq<u8>) -> Result<DocumentModel, Error> {
    match header_of(data) {
        Err(e) => Err(e),
        Ok((generation, guard)) => match trailer_of(data) {
            Err(e) => Err(e),
            Ok((trailer, fields)) => if generation == PROTECTABLE_GENERATION && protected(
                data,
                fields,
            ) {
                Err(Error::ProtectedDocument)
            } else {
                body_of(data, generation, guard, trailer, fields)
            },
        },
    }
}

/// The octets of an entry's body lie in the file, and those of one that is an
/// image to be written out as it is start like a JPEG stream.
pub open spec fn is_sound_entry(data: Seq<u8>, p: PageModel) -> bool {
    &&& lies_in(p.data, data.len())
    &&& p.data matches PageData::Jpeg { offset, len } ==> len >= 2 && data[offset as int] == 0xFF
        && data[offset + 1] == 0xD8
}

/// All that a document refers to is there: the body of every entry and the
/// properties lie in the file, and the displayed pages show entries of the page
/// table, none of them twice. A document that its access control protects is
/// none.
pub open spec fn is_sound(data: Seq<u8>, d: DocumentModel) -> bool {
    &&& forall|i: int| 0 <= i < d.pages.len() ==> is_sound_entry(data, #[trigger] d.pages[i])
    &&& d.trailer_at <= data.len()
    &&& d.properties matches Some((at, len)) ==> at + len == d.trailer_at
    &&& no_repeats(d.display_pages)
    &&& forall|a: int, i: int|
        0 <= a < d.display_pages.len() && 0 <= i < d.display_pages[a].members.len() ==> (
        #[trigger] d.display_pages[a].members[i]).page_index < d.pages.len()
    &&& may_be_read(data, d.generation)
}

/// The generation is one that is read, and no access control protects the
/// document.
pub open spec fn may_be_read(data: Seq<u8>, generation: u32) -> bool {
    &&& SUPPORTED_GENERATIONS@.contains(generation)
    &&& generation == PROTECTABLE_GENERATION ==> match trailer_of(data) {
        Ok((_, fields)) => !protected(data, fields),
        Err(_) => false,
    }
}

spec fn all_sound(data: Seq<u8>, pages: Seq<PageModel>) -> bool {
    forall|i: int| 0 <= i < pages.len() ==> is_sound_entry(data, #[trigger] pages[i])
}

proof fn lemma_table_is_sound(data: Seq<u8>, offsets: Seq<u32>, n: int)
    requires
        data.len() <= usize::MAX,
    ensures
        table(data, offsets, n) matches Ok(pages) ==> all_sound(data, pages),
    decreases n,
{
    if n > 0 {
        lemma_table_is_sound(data, offsets, n - 1);
        law_page_lies_in_file(data, (n - 1) as usize, offsets[n - 1] as usize);
    }
}

proof fn lemma_rescued_is_sound(data: Seq<u8>, offsets: Seq<usize>, n: int)
    requires
        data.len() <= usize::MAX,
    ensures
        all_sound(data, rescued(data, offsets, n)),
    decreases n,
{
    if n > 0 {
        lemma_rescued_is_sound(data, offsets, n - 1);
        law_page_lies_in_file(data, (n - 1) as usize, offsets[n - 1]);
    }
}

proof fn lemma_table_pages_are_sound(data: Seq<u8>, offsets: Seq<u32>)
    requires
        data.len() <= usize::MAX,
    ensures
        all_sound(data, table_pages(data, offsets).0),
{
    lemma_table_is_sound(data, offsets, offsets.len() as int);
    let found = page_offsets(data, 0);
    lemma_rescued_is_sound(data, found, found.len() as int);
}

proof fn lemma_roles_keep_soundness(data: Seq<u8>, pages: Seq<PageModel>)
    requires
        pages.len() <= usize::MAX,
        all_sound(data, pages),
    ensures
        all_sound(data, assigned(pages)),
        assigned(pages).len() == pages.len(),
{
    law_roles(pages);
    let r = assigned(pages);
    assert forall|i: int| 0 <= i < r.len() implies is_sound_entry(data, #[trigger] r[i]) by {
        assert(r[i] == pages[i].with_role(r[i].role, r[i].belongs_to));
        assert(is_sound_entry(data, pages[i]));
    }
}

proof fn lemma_arranging_keeps_soundness(
    data: Seq<u8>,
    pages: Seq<PageModel>,
    shown: Seq<InfoModel>,
)
    requires
        all_sound(data, pages),
    ensures
        ({
            let (laid, display) = arranged(pages, shown);
            &&& all_sound(data, laid)
            &&& no_repeats(display)
            &&& forall|a: int, i: int|
                0 <= a < display.len() && 0 <= i < display[a].members.len() ==> (
                #[trigger] display[a].members[i]).page_index < laid.len()
        }),
{
    law_layout_keeps_bodies(pages, shown);
    law_layout_shows_each_sheet_once(pages, shown);
    lemma_sheets_below(pages, pages.len() as int);
    let (first, display) = laid_out(pages, shown);
    law_merge_keeps_bodies(first);
    let laid = arranged(pages, shown).0;
    assert(keeps_bodies(laid, pages));
    assert forall|i: int| 0 <= i < laid.len() implies is_sound_entry(data, #[trigger] laid[i]) by {
        assert(is_sound_entry(data, pages[i]));
    }
    assert forall|a: int, i: int|
        0 <= a < display.len() && 0 <= i < display[a].members.len() implies (
    #[trigger] display[a].members[i]).page_index < laid.len() by {
        let x = display[a].members[i].page_index;
        assert(sheet_positions(pages).contains(x));
        let sheets = sheet_positions(pages);
        let k = choose|k: int| 0 <= k < sheets.len() && sheets[k] == x;
        assert(sheets[k] < pages.len());
    }
}

fn read_u32(data: &[u8], fields: &Vec<Tlv>, tag: u8) -> (r: Option<u32>)
    requires
        forall|k: int| 0 <= k < fields@.len() ==> (#[trigger] fields@[k]).fits(data@.len()),
    ensures
        r == number32(data@, fields@, tag),
{
    match find_uint(fields.as_slice(), data, tag) {
        Some(v) => {
            #[verifier::truncate]
            let low: u32 = v as u32;
            Some(low)
        },
        None => None,
    }
}

fn read_list(data: &[u8], fields: &Vec<Tlv>, tag: u8) -> (r: Option<Vec<u32>>)
    requires
        forall|k: int| 0 <= k < fields@.len() ==> (#[trigger] fields@[k]).fits(data@.len()),
    ensures
        match (r, list32(data@, fields@, tag)) {
            (Some(v), Some(w)) => v@ == w,
            (None, None) => true,
            _ => false,
        },
{
    match find(fields.as_slice(), tag) {
        Some(t) => Some(le_u32s(t.bytes(data))),
        None => None,
    }
}

fn read_image_pages(data: &[u8], fields: &Vec<Tlv>) -> (r: Vec<u32>)
    requires
        forall|k: int| 0 <= k < fields@.len() ==> (#[trigger] fields@[k]).fits(data@.len()),
    ensures
        r@ == (match list32(data@, fields@, TR_IMAGE_PAGES) {
            Some(list) => every_other(list),
            None => Seq::empty(),
        }),
{
    let mut r: Vec<u32> = Vec::new();
    match read_list(data, fields, TR_IMAGE_PAGES) {
        Some(list) => {
            let n: usize = list.len() / 2 + list.len() % 2;
            let mut k: usize = 0;
            while k < n
                invariant
                    k <= n,
                    n == list.len() / 2 + list.len() % 2,
                    k == r@.len(),
                    forall|j: int| 0 <= j < r@.len() ==> #[trigger] r@[j] == list@[2 * j],
                decreases n - k,
            {
                r.push(list[2 * k]);
                k += 1;
            }
            proof {
                assert(r@ =~= every_other(list@));
            }
        },
        None => {},
    }
    r
}

fn arrange(pages: &mut Vec<Page>, shown: &Vec<PageInfo>) -> (display: Vec<DisplayPage>)
    ensures
        arranged(page_models(old(pages)@), info_models(shown@)) == (
            page_models(final(pages)@),
            display_models(display@),
        ),
{
    let display = apply_display_layout(pages, shown);
    if display.len() == 0 {
        merge_orphan_overlay_sheets(pages);
    }
    display
}

fn parse_body(
    data: &[u8],
    generation: u32,
    guard: [u8; 4],
    trailer: Tlv,
    fields: &Vec<Tlv>,
) -> (r: Result<Document, Error>)
    requires
        trailer.start <= data.len(),
        forall|k: int| 0 <= k < fields@.len() ==> (#[trigger] fields@[k]).fits(data@.len()),
    ensures
        match (r, body_of(data@, generation, guard@, trailer, fields@)) {
            (Ok(d), Ok(m)) => d@ == m,
            (Err(a), Err(b)) => a == b,
            _ => false,
        },
        may_be_read(data@, generation) ==> (r matches Ok(d) ==> is_sound(data@, d@)),
{
    let offsets = read_list(data, fields, TR_PAGE_OFFSETS);
    let (mut pages, rebuilt): (Vec<Page>, Option<Rebuilt>) = match &offsets {
        Some(list) => read_pages(data, list),
        None => (Vec::new(), None),
    };
    proof {
        if offsets is None {
            assert(page_models(pages@) =~= Seq::<PageModel>::empty());
        } else {
            lemma_table_pages_are_sound(data@, offsets->0@);
        }
        assert(page_models(pages@).len() == pages.len());
        lemma_roles_keep_soundness(data@, page_models(pages@));
    }
    assign_roles(&mut pages);
    let stored = read_u32(data, fields, TR_PROPS_STORED);
    let expanded = read_u32(data, fields, TR_PROPS_EXPANDED);
    let properties = match stored {
        Some(s) => locate_properties(data, trailer.start, s as usize),
        None => None,
    };
    let shown = read_shown(data, properties, expanded);
    proof {
        assert(page_models(pages@).len() == pages@.len());
        assert(info_models(shown@).len() == shown@.len());
    }
    if pages.len() == 0 {
        if shown.len() == 0 && offsets.is_none() {
            return Err(Error::MissingField { tag: TR_PAGE_OFFSETS, in_tag: trailer.tag });
        }
        pages = make_described(&shown, trailer.start);
    }
    proof {
        assert(all_sound(data@, page_models(pages@)));
        lemma_arranging_keeps_soundness(data@, page_models(pages@), info_models(shown@));
    }
    let display_pages = arrange(&mut pages, &shown);
    let (generations, unknown_tags) = survey(data);
    Ok(
        Document {
            generation,
            guard,
            trailer_tag: trailer.tag,
            trailer_at: trailer.start,
            declared_entries: match read_u32(data, fields, TR_PAGE_COUNT) {
                Some(v) => v,
                None => 0,
            },
            pages,
            display_pages,
            properties,
            properties_len: match (stored, expanded) {
                (Some(s), Some(e)) => Some((s, e)),
                _ => None,
            },
            image_derived: read_image_pages(data, fields),
            checksum: read_u32(data, fields, TR_CHECKSUM),
            generations_present: if generations > 1 {
                generations
            } else {
                1
            },
            unknown_tags,
            rebuilt,
        },
    )
}

/// Reads a whole container. All that the document refers to is there.
pub fn parse(data: &[u8]) -> (r: Result<Document, Error>)
    ensures
        match (r, document_of(data@)) {
            (Ok(d), Ok(m)) => d@ == m,
            (Err(a), Err(b)) => a == b,
            _ => false,
        },
        r matches Ok(d) ==> is_sound(data@, d@),
{
    let (generation, guard) = match read_header(data) {
        Ok(h) => h,
        Err(e) => {
            return Err(e);
        },
    };
    let (trailer, fields) = match read_trailer(data) {
        Ok(t) => t,
        Err(e) => {
            return Err(e);
        },
    };
    if generation == PROTECTABLE_GENERATION && is_protected(&fields, data) {
        return Err(Error::ProtectedDocument);
    }
    parse_body(data, generation, guard, trailer, &fields)
}

} // verus!
