//! Turns a page element of the container into a page of the model.
use crate::domain::page::{OverlayModel, Page, PageData, PageModel, Role};
use crate::error::Error;
use crate::infrastructure::octets::{signed32, u16_at, u16_of, u32_at};
use crate::infrastructure::tlv::{
    element, find, find_uint, first_with_tag, law_window_is_tiled, le32, lemma_first_with_tag,
    lemma_len_field, read_one, read_window, uint_of, window, Tlv,
};
use vstd::prelude::*;
use vstd::slice::slice_subrange;

verus! {

// Fields of a page element.
pub const F_CHECKSUM: u8 = 0x81;

pub const F_BODY: u8 = 0x82;

// Fields of a nested page body.
pub const B_KIND: u8 = 0x80;

pub const B_AUX: u8 = 0x81;

pub const B_PAPER_W: u8 = 0x84;

pub const B_PAPER_H: u8 = 0x85;

pub const B_DATA: u8 = 0x86;

pub const B_STORED_LEN: u8 = 0x89;

pub const B_METHOD: u8 = 0x8A;

pub const B_COLOUR: u8 = 0x8D;

pub const B_PIXEL_W: u8 = 0x90;

pub const B_PIXEL_H: u8 = 0x91;

/// A nested body that is a JPEG image.
pub const KIND_JPEG: u64 = 5;

/// A nested body that is a preview image.
pub const KIND_PREVIEW: u64 = 7;

// -------------------------------------------------------------- the fields

/// A field of a page element that is interpreted.
pub open spec fn known_page_field(tag: u8) -> bool {
    tag == F_CHECKSUM || tag == F_BODY
}

/// A field of a nested body that is interpreted.
pub open spec fn known_body_field(tag: u8) -> bool {
    tag == B_KIND || tag == B_AUX || tag == B_PAPER_W || tag == B_PAPER_H || tag == B_DATA || tag
        == B_STORED_LEN || tag == B_METHOD || tag == B_COLOUR || tag == B_PIXEL_W || tag
        == B_PIXEL_H
}

/// The tags below `n` that occur and are not interpreted, in ascending order.
pub open spec fn unknown_below(items: Seq<Tlv>, nested: bool, n: int) -> Seq<u8>
    decreases n,
{
    if n <= 0 {
        Seq::empty()
    } else {
        let t = (n - 1) as u8;
        if first_with_tag(items, t) is Some && !(if nested {
            known_body_field(t)
        } else {
            known_page_field(t)
        }) {
            unknown_below(items, nested, n - 1).push(t)
        } else {
            unknown_below(items, nested, n - 1)
        }
    }
}

/// The first field with the tag, as a number.
pub open spec fn number(data: Seq<u8>, items: Seq<Tlv>, tag: u8) -> Option<u64> {
    match first_with_tag(items, tag) {
        Some(t) => uint_of(data, t),
        None => None,
    }
}

/// Two fields that together give a size.
pub open spec fn size(data: Seq<u8>, items: Seq<Tlv>, w: u8, h: u8) -> Option<(u32, u32)> {
    match (number(data, items, w), number(data, items, h)) {
        (Some(a), Some(b)) => Some((a as u32, b as u32)),
        _ => None,
    }
}

fn unknown(items: &Vec<Tlv>, nested: bool) -> (v: Vec<u8>)
    ensures
        v@ == unknown_below(items@, nested, 256),
{
    let mut v: Vec<u8> = Vec::new();
    let mut n: u16 = 0;
    while n < 256
        invariant
            n <= 256,
            v@ == unknown_below(items@, nested, n as int),
        decreases 256 - n,
    {
        let t: u8 = n as u8;
        let known: bool = if nested {
            t == B_KIND || t == B_AUX || t == B_PAPER_W || t == B_PAPER_H || t == B_DATA || t
                == B_STORED_LEN || t == B_METHOD || t == B_COLOUR || t == B_PIXEL_W || t
                == B_PIXEL_H
        } else {
            t == F_CHECKSUM || t == F_BODY
        };
        if !known && find(items.as_slice(), t).is_some() {
            v.push(t);
        }
        n += 1;
    }
    v
}

pub(crate) fn read_size(items: &Vec<Tlv>, data: &[u8], w: u8, h: u8) -> (r: Option<(u32, u32)>)
    requires
        forall|k: int| 0 <= k < items@.len() ==> (#[trigger] items@[k]).fits(data@.len()),
    ensures
        r == size(data@, items@, w, h),
{
    match (find_uint(items.as_slice(), data, w), find_uint(items.as_slice(), data, h)) {
        (Some(a), Some(b)) => {
            #[verifier::truncate]
            let size: (u32, u32) = (a as u32, b as u32);
            Some(size)
        },
        _ => None,
    }
}

// ------------------------------------------------------------ preview images

/// What the bitmap header at the start of a preview says: width, height, depth
/// and colours.
pub open spec fn preview_header(d: Seq<u8>) -> Option<(u32, u32, u16, u32)> {
    if d.len() < 40 || le32(d, 0) != 40 {
        None
    } else {
        let h = signed32(le32(d, 8) as u32);
        Some(
            (
                le32(d, 4) as u32,
                (if h < 0 {
                    -h
                } else {
                    h as int
                }) as u32,
                u16_of(d, 14)->0,
                le32(d, 32) as u32,
            ),
        )
    }
}

/// What the sub-header behind the palette says: method, stored length,
/// expanded length and rows.
pub open spec fn preview_sub_header(d: Seq<u8>, at: int) -> Option<(u32, u32, u32, u32)> {
    if at + 16 > d.len() {
        None
    } else {
        Some(
            (
                le32(d, at) as u32,
                le32(d, at + 4) as u32,
                le32(d, at + 8) as u32,
                le32(d, at + 12) as u32,
            ),
        )
    }
}

fn bitmap_header(d: &[u8]) -> (r: Option<(u32, u32, u16, u32)>)
    ensures
        r == preview_header(d@),
{
    match (u32_at(d, 0), u32_at(d, 4), u32_at(d, 8), u16_at(d, 14), u32_at(d, 32)) {
        (Some(size), Some(w), Some(h), Some(bpp), Some(colours)) => {
            if d.len() < 40 || size != 40 {
                return None;
            }
            let h: i32 = crate::infrastructure::octets::to_signed32(h);
            let tall: i64 = if h < 0 {
                -(h as i64)
            } else {
                h as i64
            };
            Some((w, tall as u32, bpp, colours))
        },
        _ => None,
    }
}

fn sub_header(d: &[u8], at: usize) -> (r: Option<(u32, u32, u32, u32)>)
    ensures
        r == preview_sub_header(d@, at as int),
{
    if at > d.len() || d.len() - at < 16 {
        return None;
    }
    match (u32_at(d, at), u32_at(d, at + 4), u32_at(d, at + 8), u32_at(d, at + 12)) {
        (Some(a), Some(b), Some(c), Some(e)) => Some((a, b, c, e)),
        _ => None,
    }
}

// ------------------------------------------------------------- nested bodies

/// The storage form and pixel size of a nested body.
pub open spec fn nested_data(data: Seq<u8>, f: Seq<Tlv>, body: Tlv) -> (
    PageData,
    Option<(u32, u32)>,
) {
    let pixels = size(data, f, B_PIXEL_W, B_PIXEL_H);
    let kind_code = match number(data, f, B_KIND) {
        Some(k) => k,
        None => 0,
    };
    let aux_len = number(data, f, B_AUX);
    match first_with_tag(f, B_DATA) {
        None => (PageData::Bare { offset: body.value, len: body.len }, pixels),
        Some(img) => {
            let d = data.subrange(img.value as int, img.value + img.len);
            if kind_code == KIND_PREVIEW {
                let pixels_at = match aux_len {
                    Some(v) => v as usize,
                    None => 0,
                };
                let (w, h, bpp, colours) = match preview_header(d) {
                    Some(t) => t,
                    None => (0u32, 0u32, 0u16, 0u32),
                };
                let (method, stored, expanded, rows) = match preview_sub_header(
                    d,
                    pixels_at as int,
                ) {
                    Some(t) => t,
                    None => (0u32, 0u32, 0u32, 0u32),
                };
                (
                    PageData::Preview {
                        offset: img.value,
                        len: img.len,
                        pixels_at,
                        bpp,
                        palette_colours: colours,
                        stored,
                        expanded,
                        rows,
                        method,
                    },
                    if w > 0 {
                        Some((w, h))
                    } else {
                        pixels
                    },
                )
            } else if kind_code == KIND_JPEG && d.len() >= 2 && d[0] == 0xFF && d[1] == 0xD8 {
                (PageData::Jpeg { offset: img.value, len: img.len }, pixels)
            } else {
                (
                    PageData::Encoded {
                        offset: img.value,
                        len: img.len,
                        kind_code,
                        aux_len,
                        method: number(data, f, B_METHOD),
                        colour: number(data, f, B_COLOUR),
                    },
                    pixels,
                )
            }
        },
    }
}

fn read_nested(data: &[u8], f: &Vec<Tlv>, body: Tlv) -> (r: (PageData, Option<(u32, u32)>))
    requires
        forall|k: int| 0 <= k < f@.len() ==> (#[trigger] f@[k]).fits(data.len() as nat),
    ensures
        r == nested_data(data@, f@, body),
{
    let pixels = read_size(f, data, B_PIXEL_W, B_PIXEL_H);
    let kind_code: u64 = match find_uint(f.as_slice(), data, B_KIND) {
        Some(k) => k,
        None => 0,
    };
    let aux_len = find_uint(f.as_slice(), data, B_AUX);
    let img = match find(f.as_slice(), B_DATA) {
        None => {
            return (PageData::Bare { offset: body.value, len: body.len }, pixels);
        },
        Some(t) => t,
    };
    let d = img.bytes(data);
    if kind_code == KIND_PREVIEW {
        #[verifier::truncate]
        let pixels_at: usize = match aux_len {
            Some(v) => v as usize,
            None => 0,
        };
        let (w, h, bpp, colours) = match bitmap_header(d) {
            Some(t) => t,
            None => (0u32, 0u32, 0u16, 0u32),
        };
        let (method, stored, expanded, rows) = match sub_header(d, pixels_at) {
            Some(t) => t,
            None => (0u32, 0u32, 0u32, 0u32),
        };
        return (
            PageData::Preview {
                offset: img.value,
                len: img.len,
                pixels_at,
                bpp,
                palette_colours: colours,
                stored,
                expanded,
                rows,
                method,
            },
            if w > 0 {
                Some((w, h))
            } else {
                pixels
            },
        );
    }
    if kind_code == KIND_JPEG && d.len() >= 2 && d[0] == 0xFF && d[1] == 0xD8 {
        return (PageData::Jpeg { offset: img.value, len: img.len }, pixels);
    }
    (
        PageData::Encoded {
            offset: img.value,
            len: img.len,
            kind_code,
            aux_len,
            method: find_uint(f.as_slice(), data, B_METHOD),
            colour: find_uint(f.as_slice(), data, B_COLOUR),
        },
        pixels,
    )
}

// -------------------------------------------------------------- field tables

/// The octets from `a` up to `b` are printable ASCII.
pub open spec fn printable(raw: Seq<u8>, a: int, b: int) -> bool {
    forall|k: int| a <= k < b ==> 0x20 <= #[trigger] raw[k] < 0x7F
}

/// The value of `n` octets at `i` is a name: printable, zero-terminated and
/// not too short.
pub open spec fn is_name(raw: Seq<u8>, i: int, n: int) -> bool {
    n >= 3 && raw[i + n - 1] == 0 && printable(raw, i, i + n - 1)
}

/// How many records, and how many names among them, follow from `i` on when
/// everything to the end is length-prefixed values.
pub open spec fn records_from(raw: Seq<u8>, i: int, records: nat, names: nat) -> Option<(nat, nat)>
    decreases raw.len() - i,
{
    if i < 0 || i >= raw.len() {
        Some((records, names))
    } else {
        let n = raw[i] as int;
        if n == 0 || i + 1 + n > raw.len() {
            None
        } else {
            records_from(
                raw,
                i + 1 + n,
                records + 1,
                if is_name(raw, i + 1, n) {
                    names + 1
                } else {
                    names
                },
            )
        }
    }
}

/// The number of records, when the octets are a table of named fields in the
/// clear.
pub open spec fn field_records(raw: Seq<u8>) -> Option<nat> {
    if raw.len() < 8 {
        None
    } else {
        match records_from(raw, 0, 0, 0) {
            None => None,
            Some((records, names)) => if names * 40 >= records {
                Some(records)
            } else {
                None
            },
        }
    }
}

fn name_at(raw: &[u8], i: usize, n: usize) -> (r: bool)
    requires
        i + n <= raw.len(),
    ensures
        r == is_name(raw@, i as int, n as int),
{
    if n < 3 || raw[i + n - 1] != 0 {
        return false;
    }
    let mut k: usize = i;
    while k < i + n - 1
        invariant
            i <= k <= i + n - 1,
            i + n <= raw.len(),
            n >= 3,
            printable(raw@, i as int, k as int),
        decreases i + n - 1 - k,
    {
        if raw[k] < 0x20 || raw[k] >= 0x7F {
            return false;
        }
        k += 1;
    }
    true
}

/// Whether the body is a run of length-prefixed fields in the clear, and how
/// many.
fn field_table(raw: &[u8]) -> (r: Option<usize>)
    ensures
        match (r, field_records(raw@)) {
            (Some(a), Some(b)) => a == b,
            (None, None) => true,
            _ => false,
        },
{
    if raw.len() < 8 {
        return None;
    }
    let mut i: usize = 0;
    let mut records: usize = 0;
    let mut names: usize = 0;
    while i < raw.len()
        invariant
            i <= raw.len(),
            records <= i,
            names <= records,
            records_from(raw@, 0, 0, 0) == records_from(
                raw@,
                i as int,
                records as nat,
                names as nat,
            ),
            raw@.len() >= 8,
        decreases raw.len() - i,
    {
        let n: usize = raw[i] as usize;
        if n == 0 || n > raw.len() - i - 1 {
            return None;
        }
        if name_at(raw, i + 1, n) {
            names += 1;
        }
        records += 1;
        i = i + 1 + n;
    }
    if names as u128 * 40 >= records as u128 {
        Some(records)
    } else {
        None
    }
}

/// An ASCII value as text.
pub open spec fn ascii_text(raw: Seq<u8>, i: int, n: int) -> Seq<char> {
    Seq::new((if n < 0 { 0 } else { n }) as nat, |k: int| raw[i + k] as char)
}

/// `names` with one more, unless it is there already.
pub open spec fn with_name(names: Seq<Seq<char>>, name: Seq<char>) -> Seq<Seq<char>> {
    if names.contains(name) {
        names
    } else {
        names.push(name)
    }
}

/// The names from `i` on, after `names`; a value that cannot be read ends
/// them.
pub open spec fn names_from(raw: Seq<u8>, i: int, names: Seq<Seq<char>>) -> Seq<Seq<char>>
    decreases raw.len() - i,
{
    if i < 0 || i >= raw.len() {
        names
    } else {
        let n = raw[i] as int;
        if n == 0 || i + 1 + n > raw.len() {
            names
        } else {
            names_from(
                raw,
                i + 1 + n,
                if is_name(raw, i + 1, n) {
                    with_name(names, ascii_text(raw, i + 1, n - 1))
                } else {
                    names
                },
            )
        }
    }
}

/// The texts as sequences of characters.
pub open spec fn texts(v: Seq<String>) -> Seq<Seq<char>> {
    Seq::new(v.len(), |i: int| v[i]@)
}

fn add_name(out: &mut Vec<String>, name: String)
    ensures
        texts(final(out)@) == with_name(texts(old(out)@), name@),
{
    let ghost all = texts(out@);
    let mut k: usize = 0;
    while k < out.len()
        invariant
            k <= out@.len(),
            out@ == old(out)@,
            all == texts(out@),
            forall|j: int| 0 <= j < k ==> #[trigger] all[j] != name@,
        decreases out@.len() - k,
    {
        if out[k] == name {
            assert(all[k as int] == name@);
            return;
        }
        k += 1;
    }
    let ghost text = name@;
    out.push(name);
    proof {
        assert(texts(out@) =~= all.push(text));
    }
}

/// The names in a field table, in order of appearance and each once.
pub fn field_names(data: &[u8], offset: usize, len: usize) -> (out: Vec<String>)
    ensures
        texts(out@) == (if offset + len > data@.len() {
            Seq::<Seq<char>>::empty()
        } else {
            names_from(
                data@.subrange(offset as int, offset + len),
                0,
                Seq::<Seq<char>>::empty(),
            )
        }),
{
    let mut out: Vec<String> = Vec::new();
    proof {
        assert(texts(out@) =~= Seq::<Seq<char>>::empty());
    }
    if offset > data.len() || len > data.len() - offset {
        return out;
    }
    let raw = slice_subrange(data, offset, offset + len);
    let ghost want = names_from(raw@, 0, Seq::<Seq<char>>::empty());
    let mut i: usize = 0;
    while i < raw.len()
        invariant
            i <= raw.len(),
            want == names_from(raw@, i as int, texts(out@)),
            raw@ == data@.subrange(offset as int, offset + len),
            offset + len <= data@.len(),
            want == names_from(raw@, 0, Seq::<Seq<char>>::empty()),
        decreases raw.len() - i,
    {
        let n: usize = raw[i] as usize;
        if n == 0 || n > raw.len() - i - 1 {
            return out;
        }
        if name_at(raw, i + 1, n) {
            let mut s = String::new();
            let mut k: usize = 0;
            while k < n - 1
                invariant
                    k <= n - 1,
                    n >= 1,
                    i + 1 + n <= raw.len(),
                    s@ == ascii_text(raw@, i + 1, k as int),
                decreases n - k,
            {
                s.push(raw[i + 1 + k] as char);
                k += 1;
                proof {
                    assert(s@ =~= ascii_text(raw@, i + 1, k as int));
                }
            }
            add_name(&mut out, s);
        }
        i = i + 1 + n;
    }
    out
}

// ------------------------------------------------------------ the page element

/// A page with the parts that every shape shares.
pub open spec fn page_of(
    index: usize,
    offset: usize,
    checksum: Option<u32>,
    role: Role,
    paper: Option<(u32, u32)>,
    pixels: Option<(u32, u32)>,
    data: PageData,
    unknown_fields: Seq<u8>,
) -> PageModel {
    PageModel {
        index,
        role,
        belongs_to: None,
        offset,
        checksum,
        paper,
        pixels,
        rotation: 0,
        overlays: Seq::<OverlayModel>::empty(),
        data,
        unknown_fields,
    }
}

/// The octets are a JPEG stream behind a header of sixteen octets, which
/// repeats the length and gives the size.
pub open spec fn is_framed_jpeg(raw: Seq<u8>) -> bool {
    raw.len() > 18 && le32(raw, 0) == raw.len() && raw[16] == 0xFF && raw[17] == 0xD8
}

/// The page that the element at `offset` holds. A body is nested fields, a
/// framed JPEG stream, a table of fields in the clear, or none of these.
pub open spec fn page_at(data: Seq<u8>, index: usize, offset: usize) -> Result<PageModel, Error> {
    match element(data, offset as int) {
        Err(e) => Err(e),
        Ok(elem) => match window(data, elem.value as int, elem.len as int) {
            Err(e) => Err(e),
            Ok(fields) => {
                let checksum = match number(data, fields, F_CHECKSUM) {
                    Some(v) => Some(v as u32),
                    None => None,
                };
                let outer = unknown_below(fields, false, 256);
                match first_with_tag(fields, F_BODY) {
                    None => Ok(
                        page_of(
                            index,
                            offset,
                            checksum,
                            Role::Sheet,
                            None,
                            None,
                            PageData::Bare { offset: elem.value, len: elem.len },
                            outer,
                        ),
                    ),
                    Some(body) => {
                        let raw = data.subrange(body.value as int, body.value + body.len);
                        let inner = window(data, body.value as int, body.len as int);
                        if raw.len() > 0 && raw[0] == B_KIND && inner is Ok && inner->Ok_0.len()
                            > 0 {
                            let f = inner->Ok_0;
                            let (form, pixels) = nested_data(data, f, body);
                            Ok(
                                page_of(
                                    index,
                                    offset,
                                    checksum,
                                    Role::Sheet,
                                    size(data, f, B_PAPER_W, B_PAPER_H),
                                    pixels,
                                    form,
                                    outer + unknown_below(f, true, 256),
                                ),
                            )
                        } else if is_framed_jpeg(raw) {
                            Ok(
                                page_of(
                                    index,
                                    offset,
                                    checksum,
                                    Role::Sheet,
                                    None,
                                    Some((le32(raw, 8) as u32, le32(raw, 12) as u32)),
                                    PageData::Jpeg {
                                        offset: (body.value + 16) as usize,
                                        len: (body.len - 16) as usize,
                                    },
                                    outer,
                                ),
                            )
                        } else if field_records(raw) is Some {
                            Ok(
                                page_of(
                                    index,
                                    offset,
                                    checksum,
                                    Role::Data,
                                    None,
                                    None,
                                    PageData::Fields {
                                        offset: body.value,
                                        len: body.len,
                                        records: field_records(raw)->0 as usize,
                                    },
                                    outer,
                                ),
                            )
                        } else {
                            Ok(
                                page_of(
                                    index,
                                    offset,
                                    checksum,
                                    Role::Sheet,
                                    None,
                                    None,
                                    PageData::Bare { offset: body.value, len: body.len },
                                    outer,
                                ),
                            )
                        }
                    },
                }
            },
        },
    }
}

fn make_page(
    index: usize,
    offset: usize,
    checksum: Option<u32>,
    role: Role,
    paper: Option<(u32, u32)>,
    pixels: Option<(u32, u32)>,
    data: PageData,
    unknown_fields: Vec<u8>,
) -> (p: Page)
    ensures
        p@ == page_of(index, offset, checksum, role, paper, pixels, data, unknown_fields@),
{
    let p = Page {
        index,
        role,
        belongs_to: None,
        offset,
        checksum,
        paper,
        pixels,
        rotation: 0,
        overlays: Vec::new(),
        data,
        unknown_fields,
    };
    proof {
        assert(p@.overlays =~= Seq::<OverlayModel>::empty());
    }
    p
}

/// Reads the page element whose tag is at `offset`.
pub fn read(data: &[u8], index: usize, offset: usize) -> (r: Result<Page, Error>)
    ensures
        match (r, page_at(data@, index, offset)) {
            (Ok(p), Ok(m)) => p@ == m,
            (Err(a), Err(b)) => a == b,
            _ => false,
        },
{
    let elem = match read_one(data, offset) {
        Ok(t) => t,
        Err(e) => {
            return Err(e);
        },
    };
    let fields = match read_window(data, elem.value, elem.len) {
        Ok(v) => v,
        Err(e) => {
            return Err(e);
        },
    };
    #[verifier::truncate]
    let checksum: Option<u32> = match find_uint(fields.as_slice(), data, F_CHECKSUM) {
        Some(v) => Some(v as u32),
        None => None,
    };
    let mut unknown_fields = unknown(&fields, false);
    let body = match find(fields.as_slice(), F_BODY) {
        Some(b) => b,
        None => {
            return Ok(
                make_page(
                    index,
                    offset,
                    checksum,
                    Role::Sheet,
                    None,
                    None,
                    PageData::Bare { offset: elem.value, len: elem.len },
                    unknown_fields,
                ),
            );
        },
    };
    let raw = body.bytes(data);
    if raw.len() > 0 && raw[0] == B_KIND {
        match read_window(data, body.value, body.len) {
            Ok(f) => {
                if f.len() > 0 {
                    let mut inner = unknown(&f, true);
                    unknown_fields.append(&mut inner);
                    let (form, pixels) = read_nested(data, &f, body);
                    return Ok(
                        make_page(
                            index,
                            offset,
                            checksum,
                            Role::Sheet,
                            read_size(&f, data, B_PAPER_W, B_PAPER_H),
                            pixels,
                            form,
                            unknown_fields,
                        ),
                    );
                }
            },
            Err(_) => {},
        }
    }
    if raw.len() > 18 {
        match (u32_at(raw, 0), u32_at(raw, 8), u32_at(raw, 12)) {
            (Some(declared), Some(w), Some(h)) => {
                if declared as usize == raw.len() && raw[16] == 0xFF && raw[17] == 0xD8 {
                    return Ok(
                        make_page(
                            index,
                            offset,
                            checksum,
                            Role::Sheet,
                            None,
                            Some((w, h)),
                            PageData::Jpeg { offset: body.value + 16, len: body.len - 16 },
                            unknown_fields,
                        ),
                    );
                }
            },
            _ => {},
        }
    }
    match field_table(raw) {
        Some(records) => Ok(
            make_page(
                index,
                offset,
                checksum,
                Role::Data,
                None,
                None,
                PageData::Fields { offset: body.value, len: body.len, records },
                unknown_fields,
            ),
        ),
        None => Ok(
            make_page(
                index,
                offset,
                checksum,
                Role::Sheet,
                None,
                None,
                PageData::Bare { offset: body.value, len: body.len },
                unknown_fields,
            ),
        ),
    }
}

/// The octets that hold a page's data lie in a file of `n` octets.
pub open spec fn lies_in(d: PageData, n: nat) -> bool {
    match d {
        PageData::Jpeg { offset, len } => offset + len <= n,
        PageData::Preview { offset, len, .. } => offset + len <= n,
        PageData::Encoded { offset, len, .. } => offset + len <= n,
        PageData::Fields { offset, len, .. } => offset + len <= n,
        PageData::Bare { offset, len } => offset + len <= n,
    }
}

/// What a page refers to lies in the file, and the octets of one that is an
/// image to be written out as it is start like a JPEG stream.
pub proof fn law_page_lies_in_file(data: Seq<u8>, index: usize, offset: usize)
    requires
        data.len() <= usize::MAX,
    ensures
        page_at(data, index, offset) matches Ok(p) ==> {
            &&& lies_in(p.data, data.len())
            &&& p.data matches PageData::Jpeg { offset: at, len } ==> len >= 2 && data[at as int]
                == 0xFF && data[at + 1] == 0xD8
        },
{
    if element(data, offset as int) is Ok {
        let elem = element(data, offset as int)->Ok_0;
        lemma_len_field(data, offset + 1);
        let outer = window(data, elem.value as int, elem.len as int);
        if outer is Ok {
            law_window_is_tiled(data, elem.value as int, elem.len as int);
            lemma_first_with_tag(outer->Ok_0, F_BODY);
            match first_with_tag(outer->Ok_0, F_BODY) {
                Some(body) => {
                    let raw = data.subrange(body.value as int, body.value + body.len);
                    let inner = window(data, body.value as int, body.len as int);
                    if inner is Ok {
                        law_window_is_tiled(data, body.value as int, body.len as int);
                        lemma_first_with_tag(inner->Ok_0, B_DATA);
                        match first_with_tag(inner->Ok_0, B_DATA) {
                            Some(img) => {
                                let d = data.subrange(img.value as int, img.value + img.len);
                                if d.len() >= 2 {
                                    assert(d[0] == data[img.value as int]);
                                    assert(d[1] == data[img.value + 1]);
                                }
                            },
                            None => {},
                        }
                    }
                    if raw.len() > 18 {
                        assert(raw[16] == data[body.value + 16]);
                        assert(raw[17] == data[body.value + 17]);
                    }
                },
                None => {},
            }
        }
    }
}

} // verus!
