//! Finds original files carried inside a document by their magic numbers and
//! their own length fields.
use crate::application::ports::AttachmentScanner;
use crate::domain::attachment::{extension_of, Attachment, Kind};
use crate::infrastructure::attachment_laws::{
    is_directory_of, law_archives_are_named, named_after, Entry,
};
use crate::infrastructure::octets::{u16_at, u16_of, u32_at, u32_of};
use vstd::prelude::*;

verus! {

pub const ZIP_LOCAL: [u8; 4] = [0x50, 0x4B, 0x03, 0x04];

pub const ZIP_EOCD: [u8; 4] = [0x50, 0x4B, 0x05, 0x06];

pub const ZIP_CENTRAL: [u8; 4] = [0x50, 0x4B, 0x01, 0x02];

pub const CFB_MAGIC: [u8; 8] = [0xD0, 0xCF, 0x11, 0xE0, 0xA1, 0xB1, 0x1A, 0xE1];

/// `%PDF-`
pub const PDF_MAGIC: [u8; 5] = [0x25, 0x50, 0x44, 0x46, 0x2D];

/// `%%EOF`
pub const PDF_END: [u8; 5] = [0x25, 0x25, 0x45, 0x4F, 0x46];

/// `word/`
pub const WORD_DIR: [u8; 5] = [0x77, 0x6F, 0x72, 0x64, 0x2F];

/// `xl/`
pub const EXCEL_DIR: [u8; 3] = [0x78, 0x6C, 0x2F];

/// `ppt/`
pub const POWERPOINT_DIR: [u8; 4] = [0x70, 0x70, 0x74, 0x2F];

// ----------------------------------------------------------------- searching

/// `needle` stands at `p`.
pub open spec fn stands_at(hay: Seq<u8>, needle: Seq<u8>, p: int) -> bool {
    &&& 0 <= p
    &&& p + needle.len() <= hay.len()
    &&& hay.subrange(p, p + needle.len()) == needle
}

/// The first place from `from` on where `needle` stands.
pub open spec fn first_at(hay: Seq<u8>, needle: Seq<u8>, from: int) -> Option<int>
    decreases hay.len() - from,
{
    if from < 0 || from >= hay.len() || from + needle.len() > hay.len() {
        None
    } else if stands_at(hay, needle, from) {
        Some(from)
    } else {
        first_at(hay, needle, from + 1)
    }
}

/// The last place where `needle` stands and ends at `before` or earlier.
pub open spec fn last_at(hay: Seq<u8>, needle: Seq<u8>, before: int) -> Option<int>
    decreases before,
{
    let p = before - needle.len();
    if before <= 0 || p < 0 {
        None
    } else if stands_at(hay, needle, p) {
        Some(p)
    } else {
        last_at(hay, needle, before - 1)
    }
}

pub proof fn lemma_first_at(hay: Seq<u8>, needle: Seq<u8>, from: int)
    ensures
        first_at(hay, needle, from) matches Some(p) ==> from <= p && stands_at(hay, needle, p) && p
            < hay.len(),
    decreases hay.len() - from,
{
    if !(from < 0 || from >= hay.len() || from + needle.len() > hay.len()) && !stands_at(
        hay,
        needle,
        from,
    ) {
        lemma_first_at(hay, needle, from + 1);
    }
}

pub proof fn lemma_last_at(hay: Seq<u8>, needle: Seq<u8>, before: int)
    ensures
        last_at(hay, needle, before) matches Some(p) ==> p + needle.len() <= before && stands_at(
            hay,
            needle,
            p,
        ),
    decreases before,
{
    let p = before - needle.len();
    if !(before <= 0 || p < 0) && !stands_at(hay, needle, p) {
        lemma_last_at(hay, needle, before - 1);
    }
}

pub(crate) fn stands(hay: &[u8], needle: &[u8], p: usize) -> (r: bool)
    ensures
        r == stands_at(hay@, needle@, p as int),
{
    if p > hay.len() || hay.len() - p < needle.len() {
        return false;
    }
    let mut k: usize = 0;
    while k < needle.len()
        invariant
            k <= needle@.len(),
            p + needle@.len() <= hay.len(),
            forall|j: int| 0 <= j < k ==> hay@[p + j] == #[trigger] needle@[j],
        decreases needle@.len() - k,
    {
        if hay[p + k] != needle[k] {
            proof {
                assert(hay@.subrange(p as int, p + needle@.len())[k as int] != needle@[k as int]);
            }
            return false;
        }
        k += 1;
    }
    proof {
        assert(hay@.subrange(p as int, p + needle@.len()) =~= needle@);
    }
    true
}

pub(crate) fn find(hay: &[u8], needle: &[u8], from: usize) -> (r: Option<usize>)
    requires
        needle@.len() > 0,
    ensures
        match (r, first_at(hay@, needle@, from as int)) {
            (Some(a), Some(b)) => a == b,
            (None, None) => true,
            _ => false,
        },
{
    let mut i: usize = from;
    while i < hay.len() && needle.len() <= hay.len() - i
        invariant
            needle@.len() > 0,
            from <= i,
            first_at(hay@, needle@, from as int) == first_at(hay@, needle@, i as int),
        decreases hay@.len() - i,
    {
        if stands(hay, needle, i) {
            return Some(i);
        }
        i += 1;
    }
    None
}

fn rfind(hay: &[u8], needle: &[u8], before: usize) -> (r: Option<usize>)
    requires
        needle@.len() > 0,
        before <= hay@.len(),
    ensures
        match (r, last_at(hay@, needle@, before as int)) {
            (Some(a), Some(b)) => a == b,
            (None, None) => true,
            _ => false,
        },
{
    let mut end: usize = before;
    while needle.len() <= end
        invariant
            needle@.len() > 0,
            end <= before,
            last_at(hay@, needle@, before as int) == last_at(hay@, needle@, end as int),
        decreases end,
    {
        let p: usize = end - needle.len();
        if stands(hay, needle, p) {
            return Some(p);
        }
        end -= 1;
    }
    None
}

// ----------------------------------------------------------------- ZIP files

/// The office format that a name in a ZIP directory gives away.
pub open spec fn part_of_name(data: Seq<u8>, at: int, len: int) -> Option<&'static str> {
    let name = data.subrange(at, at + len);
    if stands_at(name, WORD_DIR@, 0) {
        Some("docx")
    } else if stands_at(name, EXCEL_DIR@, 0) {
        Some("xlsx")
    } else if stands_at(name, POWERPOINT_DIR@, 0) {
        Some("pptx")
    } else {
        None
    }
}

/// The office format that the directory entries from `i` up to `end` name.
pub open spec fn part_from(data: Seq<u8>, i: int, end: int) -> Option<&'static str>
    decreases end - i,
{
    if i < 0 || i + 46 > end || end > data.len() || !stands_at(data, ZIP_CENTRAL@, i) {
        None
    } else {
        match (u16_of(data, i + 28), u16_of(data, i + 30), u16_of(data, i + 32)) {
            (Some(name_len), Some(extra), Some(comment)) => if i + 46 + name_len > data.len() {
                None
            } else {
                match part_of_name(data, i + 46, name_len as int) {
                    Some(p) => Some(p),
                    None => if i + 46 + name_len + extra + comment > end {
                        None
                    } else {
                        part_from(data, i + 46 + name_len + extra + comment, end)
                    },
                }
            },
            _ => None,
        }
    }
}

/// The office format of a ZIP file whose directory is `size` octets at `start`.
pub open spec fn office_part_of(data: Seq<u8>, start: int, size: int) -> Option<&'static str> {
    part_from(
        data,
        start,
        if start + size < data.len() {
            start + size
        } else {
            data.len() as int
        },
    )
}

/// The ZIP file that starts at `start`, found by the last end record before
/// `before` whose directory lies just in front of it.
pub open spec fn zip_before(data: Seq<u8>, start: int, before: int) -> Option<Attachment>
    decreases before,
{
    match last_at(data, ZIP_EOCD@, before) {
        None => None,
        Some(eocd) => {
            proof {
                lemma_last_at(data, ZIP_EOCD@, before);
            }
            if eocd < start {
                None
            } else {
                match (u32_of(data, eocd + 12), u32_of(data, eocd + 16), u16_of(data, eocd + 20)) {
                    (Some(size), Some(offset), Some(comment)) => {
                        let end = eocd + 22 + comment;
                        if end <= data.len() && start + offset + size == eocd {
                            Some(
                                Attachment {
                                    offset: start as usize,
                                    len: (end - start) as usize,
                                    kind: Kind::Zip {
                                        part: office_part_of(data, start + offset, size as int),
                                    },
                                    length_is_estimate: false,
                                },
                            )
                        } else {
                            zip_before(data, start, eocd)
                        }
                    },
                    _ => None,
                }
            }
        },
    }
}

fn name_part(data: &[u8], at: usize, len: usize) -> (r: Option<&'static str>)
    requires
        at + len <= data.len(),
    ensures
        r == part_of_name(data@, at as int, len as int),
{
    let name = vstd::slice::slice_subrange(data, at, at + len);
    if stands(name, &WORD_DIR, 0) {
        Some("docx")
    } else if stands(name, &EXCEL_DIR, 0) {
        Some("xlsx")
    } else if stands(name, &POWERPOINT_DIR, 0) {
        Some("pptx")
    } else {
        None
    }
}

fn office_part(data: &[u8], cd_start: usize, cd_size: usize) -> (r: Option<&'static str>)
    requires
        cd_start <= data.len(),
    ensures
        r == office_part_of(data@, cd_start as int, cd_size as int),
{
    let end: usize = if cd_size < data.len() - cd_start {
        cd_start + cd_size
    } else {
        data.len()
    };
    let mut i: usize = cd_start;
    while i <= end && end - i >= 46
        invariant
            end <= data.len(),
            i <= end,
            office_part_of(data@, cd_start as int, cd_size as int) == part_from(
                data@,
                i as int,
                end as int,
            ),
        decreases end - i,
    {
        if !stands(data, &ZIP_CENTRAL, i) {
            return None;
        }
        let (name_len, more, comment): (usize, usize, usize) = match (
            u16_at(data, i + 28),
            u16_at(data, i + 30),
            u16_at(data, i + 32),
        ) {
            (Some(a), Some(b), Some(c)) => (a as usize, b as usize, c as usize),
            _ => {
                return None;
            },
        };
        if data.len() - i - 46 < name_len {
            return None;
        }
        match name_part(data, i + 46, name_len) {
            Some(p) => {
                return Some(p);
            },
            None => {},
        }
        if end - i - 46 < name_len + more + comment {
            return None;
        }
        i = i + 46 + name_len + more + comment;
    }
    None
}

fn carve_zip(data: &[u8], start: usize) -> (r: Option<Attachment>)
    requires
        start <= data.len(),
    ensures
        r == zip_before(data@, start as int, data@.len() as int),
{
    let mut before: usize = data.len();
    loop
        invariant
            start <= data.len(),
            before <= data.len(),
            zip_before(data@, start as int, data@.len() as int) == zip_before(
                data@,
                start as int,
                before as int,
            ),
        decreases before,
    {
        proof {
            lemma_last_at(data@, ZIP_EOCD@, before as int);
        }
        let eocd: usize = match rfind(data, &ZIP_EOCD, before) {
            Some(p) => p,
            None => {
                return None;
            },
        };
        if eocd < start || data.len() - eocd < 22 {
            return None;
        }
        let (size, offset, comment): (u32, u32, u16) = match (
            u32_at(data, eocd + 12),
            u32_at(data, eocd + 16),
            u16_at(data, eocd + 20),
        ) {
            (Some(a), Some(b), Some(c)) => (a, b, c),
            _ => {
                return None;
            },
        };
        if comment as usize <= data.len() - eocd - 22 && offset as u64 + size as u64 == (eocd
            - start) as u64 {
            let end: usize = eocd + 22 + comment as usize;
            return Some(
                Attachment {
                    offset: start,
                    len: end - start,
                    kind: Kind::Zip {
                        part: office_part(data, start + offset as usize, size as usize),
                    },
                    length_is_estimate: false,
                },
            );
        }
        before = eocd;
    }
}

// ----------------------------------------------------------- the other kinds

/// The compound file at `start`, as long as its allocation table could make
/// it.
pub open spec fn compound_at(data: Seq<u8>, start: int) -> Option<Attachment> {
    if start + 512 > data.len() {
        None
    } else {
        match (u16_of(data, start + 30), u32_of(data, start + 44)) {
            (Some(shift), Some(tables)) => if !(7 <= shift <= 12) || tables == 0 || tables > 4096 {
                None
            } else {
                let sector = vstd::arithmetic::power2::pow2(shift as nat);
                let bound = 512 + tables * ((sector / 4) * sector);
                Some(
                    Attachment {
                        offset: start as usize,
                        len: (if bound < data.len() - start {
                            bound
                        } else {
                            data.len() - start
                        }) as usize,
                        kind: Kind::CompoundFile,
                        length_is_estimate: true,
                    },
                )
            },
            _ => None,
        }
    }
}

fn carve_cfb(data: &[u8], start: usize) -> (r: Option<Attachment>)
    requires
        start <= data.len(),
    ensures
        r == compound_at(data@, start as int),
{
    if data.len() - start < 512 {
        return None;
    }
    let (shift, tables): (u16, u32) = match (u16_at(data, start + 30), u32_at(data, start + 44)) {
        (Some(a), Some(b)) => (a, b),
        _ => {
            return None;
        },
    };
    if shift < 7 || shift > 12 || tables == 0 || tables > 4096 {
        return None;
    }
    proof {
        vstd::arithmetic::power2::lemma2_to64();
    }
    let sector: u64 = if shift == 7 {
        128
    } else if shift == 8 {
        256
    } else if shift == 9 {
        512
    } else if shift == 10 {
        1024
    } else if shift == 11 {
        2048
    } else {
        4096
    };
    proof {
        assert((sector / 4) * sector <= 4_194_304) by (nonlinear_arith)
            requires
                sector <= 4096,
        ;
        assert(tables * ((sector / 4) * sector) <= 4096 * 4_194_304) by (nonlinear_arith)
            requires
                tables <= 4096,
                0 <= (sector / 4) * sector <= 4_194_304,
        ;
    }
    let bound: u64 = 512 + tables as u64 * ((sector / 4) * sector);
    let rest: usize = data.len() - start;
    let len: usize = if bound < rest as u64 {
        bound as usize
    } else {
        rest
    };
    Some(Attachment { offset: start, len, kind: Kind::CompoundFile, length_is_estimate: true })
}

/// Where the last end mark from `i` on ends.
pub open spec fn pdf_end(data: Seq<u8>, i: int, found: Option<int>) -> Option<int>
    decreases data.len() - i,
{
    match first_at(data, PDF_END@, i) {
        None => found,
        Some(p) => {
            proof {
                lemma_first_at(data, PDF_END@, i);
            }
            pdf_end(data, p + 5, Some(p + 5))
        },
    }
}

/// The PDF file at `start`, up to the last end mark.
pub open spec fn pdf_at(data: Seq<u8>, start: int) -> Option<Attachment> {
    match pdf_end(data, start, None) {
        None => None,
        Some(end) => Some(
            Attachment {
                offset: start as usize,
                len: (end - start) as usize,
                kind: Kind::Pdf,
                length_is_estimate: false,
            },
        ),
    }
}

fn carve_pdf(data: &[u8], start: usize) -> (r: Option<Attachment>)
    requires
        start <= data.len(),
    ensures
        r == pdf_at(data@, start as int),
{
    let mut end: Option<usize> = None;
    let mut i: usize = start;
    let mut more: bool = true;
    while more
        invariant
            start <= i <= data.len(),
            end matches Some(e) ==> start <= e <= data.len(),
            more ==> pdf_end(data@, start as int, None) == pdf_end(
                data@,
                i as int,
                match end {
                    Some(e) => Some(e as int),
                    None => None,
                },
            ),
            !more ==> pdf_end(data@, start as int, None) == (match end {
                Some(e) => Some(e as int),
                None => None,
            }),
        decreases
                data.len() - i,
                (if more {
                    1int
                } else {
                    0
                }),
    {
        proof {
            lemma_first_at(data@, PDF_END@, i as int);
        }
        match find(data, &PDF_END, i) {
            Some(p) => {
                end = Some(p + 5);
                i = p + 5;
            },
            None => {
                more = false;
            },
        }
    }
    match end {
        Some(e) => Some(
            Attachment { offset: start, len: e - start, kind: Kind::Pdf, length_is_estimate: false },
        ),
        None => None,
    }
}

// ------------------------------------------------------------------- the scan

/// The three kinds of file that are looked for.
#[derive(Debug, Clone, Copy, PartialEq, Eq, Structural)]
pub enum Sought {
    Zip,
    Compound,
    Pdf,
}

/// What a kind of file starts with.
pub open spec fn magic(s: Sought) -> Seq<u8> {
    match s {
        Sought::Zip => ZIP_LOCAL@,
        Sought::Compound => CFB_MAGIC@,
        Sought::Pdf => PDF_MAGIC@,
    }
}

/// Which kind of file was looked for where one of the kind was found.
pub open spec fn sought_as(k: Kind) -> Sought {
    match k {
        Kind::Zip { .. } => Sought::Zip,
        Kind::CompoundFile => Sought::Compound,
        Kind::Pdf => Sought::Pdf,
    }
}

/// The file of a kind at `start`, if it can be delimited.
pub open spec fn carved(s: Sought, data: Seq<u8>, start: int) -> Option<Attachment> {
    match s {
        Sought::Zip => zip_before(data, start, data.len() as int),
        Sought::Compound => compound_at(data, start),
        Sought::Pdf => pdf_at(data, start),
    }
}

/// The files of a kind from `i` on, none inside another.
pub open spec fn carved_from(s: Sought, data: Seq<u8>, i: int) -> Seq<Attachment>
    decreases data.len() - i,
        when 0 <= i && data.len() <= usize::MAX
{
    match first_at(data, magic(s), i) {
        None => Seq::empty(),
        Some(p) => {
            proof {
                lemma_first_at(data, magic(s), i);
                lemma_carved(s, data, p);
            }
            match carved(s, data, p) {
                Some(a) => seq![a] + carved_from(s, data, a.offset + a.len),
                None => carved_from(s, data, p + 1),
            }
        },
    }
}

/// A file that was found is not empty, is of the kind that was looked for,
/// starts where it was looked for and lies inside the data. Only the length of
/// a compound file is an estimate.
pub proof fn lemma_carved(s: Sought, data: Seq<u8>, start: int)
    requires
        0 <= start < data.len() <= usize::MAX,
    ensures
        carved(s, data, start) matches Some(a) ==> a.offset == start && a.len > 0 && a.fits(
            data.len(),
        ) && sought_as(a.kind) == s && a.length_is_estimate == (s == Sought::Compound),
{
    match s {
        Sought::Zip => lemma_zip(data, start, data.len() as int),
        Sought::Compound => {
            if start + 512 <= data.len() {
                match (u16_of(data, start + 30), u32_of(data, start + 44)) {
                    (Some(shift), Some(tables)) => {
                        let sector = vstd::arithmetic::power2::pow2(shift as nat);
                        vstd::arithmetic::power2::lemma_pow2_pos(shift as nat);
                        assert(0 <= tables * ((sector / 4) * sector)) by (nonlinear_arith)
                            requires
                                sector > 0,
                                tables >= 0,
                        ;
                    },
                    _ => {},
                }
            }
        },
        Sought::Pdf => lemma_pdf_end(data, start, start, None),
    }
}

proof fn lemma_zip(data: Seq<u8>, start: int, before: int)
    requires
        0 <= start < data.len() <= usize::MAX,
        before <= data.len(),
    ensures
        zip_before(data, start, before) matches Some(a) ==> a.offset == start && a.len > 0
            && a.fits(data.len()) && sought_as(a.kind) == Sought::Zip && !a.length_is_estimate,
    decreases before,
{
    lemma_last_at(data, ZIP_EOCD@, before);
    match last_at(data, ZIP_EOCD@, before) {
        None => {},
        Some(eocd) => {
            lemma_zip(data, start, eocd);
        },
    }
}

proof fn lemma_pdf_end(data: Seq<u8>, start: int, i: int, found: Option<int>)
    requires
        0 <= start <= i,
        found matches Some(e) ==> start < e <= data.len(),
    ensures
        pdf_end(data, i, found) matches Some(e) ==> start < e <= data.len(),
    decreases data.len() - i,
{
    lemma_first_at(data, PDF_END@, i);
    match first_at(data, PDF_END@, i) {
        None => {},
        Some(p) => lemma_pdf_end(data, start, p + 5, Some(p + 5)),
    }
}

/// `a` put behind every attachment that does not start after it.
pub open spec fn inserted(s: Seq<Attachment>, a: Attachment) -> Seq<Attachment>
    decreases s.len(),
{
    if s.len() > 0 && s.last().offset > a.offset {
        inserted(s.drop_last(), a).push(s.last())
    } else {
        s.push(a)
    }
}

/// The attachments in the order of their offsets, equal ones as they were.
pub open spec fn by_offset(s: Seq<Attachment>) -> Seq<Attachment>
    decreases s.len(),
{
    if s.len() == 0 {
        Seq::empty()
    } else {
        inserted(by_offset(s.drop_last()), s.last())
    }
}

/// Everything that is found in the data.
pub open spec fn scanned(data: Seq<u8>) -> Seq<Attachment> {
    by_offset(
        carved_from(Sought::Zip, data, 0) + carved_from(Sought::Compound, data, 0) + carved_from(
            Sought::Pdf,
            data,
            0,
        ),
    )
}

fn scan_for(s: Sought, data: &[u8], out: &mut Vec<Attachment>)
    ensures
        final(out)@ == old(out)@ + carved_from(s, data@, 0),
{
    let ghost before = out@;
    let mut i: usize = 0;
    let mut more: bool = true;
    let ghost all = carved_from(s, data@, 0);
    proof {
        assert(out@ + all =~= before + all);
    }
    while more
        invariant
            i <= data.len(),
            more ==> out@ + carved_from(s, data@, i as int) == before + all,
            !more ==> out@ == before + all,
        decreases
                data.len() - i,
                (if more {
                    1int
                } else {
                    0
                }),
    {
        proof {
            lemma_first_at(data@, magic(s), i as int);
        }
        let found = match s {
            Sought::Zip => find(data, &ZIP_LOCAL, i),
            Sought::Compound => find(data, &CFB_MAGIC, i),
            Sought::Pdf => find(data, &PDF_MAGIC, i),
        };
        match found {
            None => {
                more = false;
                proof {
                    assert(out@ + Seq::<Attachment>::empty() =~= out@);
                }
            },
            Some(p) => {
                proof {
                    lemma_carved(s, data@, p as int);
                }
                let file = match s {
                    Sought::Zip => carve_zip(data, p),
                    Sought::Compound => carve_cfb(data, p),
                    Sought::Pdf => carve_pdf(data, p),
                };
                match file {
                    Some(a) => {
                        let ghost prior = out@;
                        i = a.offset + a.len;
                        out.push(a);
                        proof {
                            let rest = carved_from(s, data@, i as int);
                            assert(prior + (seq![a] + rest) =~= out@ + rest);
                        }
                    },
                    None => {
                        i = p + 1;
                    },
                }
            },
        }
    }
}

/// Puts the attachments in the order of their offsets.
fn sort_by_offset(v: Vec<Attachment>) -> (r: Vec<Attachment>)
    ensures
        r@ == by_offset(v@),
{
    let mut v = v;
    let ghost all = v@;
    let mut taken: Vec<Attachment> = Vec::new();
    while v.len() > 0
        invariant
            taken@ == all.skip(v@.len() as int).reverse(),
            v@ == all.take(v@.len() as int),
            v@.len() <= all.len(),
        decreases v@.len(),
    {
        let ghost n = v@.len() as int;
        let a = v.pop().unwrap();
        taken.push(a);
        proof {
            assert(v@ =~= all.take(n - 1));
            assert(taken@ =~= all.skip(n - 1).reverse());
        }
    }
    let mut r: Vec<Attachment> = Vec::new();
    proof {
        assert(taken@ =~= all.reverse());
        assert(all.take(0) =~= Seq::<Attachment>::empty());
    }
    let ghost mut k: int = 0;
    while taken.len() > 0
        invariant
            0 <= k <= all.len(),
            taken@ == all.skip(k).reverse(),
            r@ == by_offset(all.take(k)),
        decreases taken@.len(),
    {
        let ghost before = r@;
        let a = taken.pop().unwrap();
        proof {
            assert(a == all[k]);
            assert(taken@ =~= all.skip(k + 1).reverse());
            assert(all.take(k + 1).drop_last() =~= all.take(k));
        }
        let mut at: usize = r.len();
        proof {
            assert(before.take(before.len() as int) =~= before);
            assert(before.skip(before.len() as int) =~= Seq::<Attachment>::empty());
            assert(inserted(before, a) + Seq::<Attachment>::empty() =~= inserted(before, a));
        }
        while at > 0 && r[at - 1].offset > a.offset
            invariant
                at <= r@.len(),
                r@ == before,
                inserted(before, a) == inserted(before.take(at as int), a) + before.skip(
                    at as int,
                ),
            decreases at,
        {
            proof {
                let head = before.take(at as int);
                assert(head.drop_last() =~= before.take(at - 1));
                assert(inserted(before.take(at - 1), a).push(head.last()) + before.skip(at as int)
                    =~= inserted(before.take(at - 1), a) + before.skip(at - 1));
            }
            at -= 1;
        }
        proof {
            assert(before.take(at as int).push(a) + before.skip(at as int) =~= before.insert(
                at as int,
                a,
            ));
        }
        r.insert(at, a);
        proof {
            k = k + 1;
        }
    }
    proof {
        assert(all.skip(k).len() == 0) by {
            assert(all.skip(k).reverse().len() == all.skip(k).len());
        }
        assert(all.take(k) =~= all);
    }
    r
}

/// Finds the original files carried inside a document.
pub fn scan(data: &[u8]) -> (r: Vec<Attachment>)
    ensures
        r@ == scanned(data@),
        forall|i: int| 0 <= i < r@.len() ==> (#[trigger] r@[i]).fits(data@.len()),
        forall|i: int, entries: Seq<Entry>|
            0 <= i < r@.len() && r@[i].kind is Zip && #[trigger] is_directory_of(
                data@,
                r@[i],
                entries,
            ) ==> extension_of(r@[i].kind) == named_after(entries),
{
    let mut out: Vec<Attachment> = Vec::new();
    scan_for(Sought::Zip, data, &mut out);
    scan_for(Sought::Compound, data, &mut out);
    scan_for(Sought::Pdf, data, &mut out);
    proof {
        let d = data@;
        assert(d.len() == data.len());
        assert(out@ =~= carved_from(Sought::Zip, d, 0) + carved_from(Sought::Compound, d, 0)
            + carved_from(Sought::Pdf, d, 0));
        law_scan(d);
        assert forall|i: int, entries: Seq<Entry>|
            0 <= i < scanned(d).len() && scanned(d)[i].kind is Zip && #[trigger] is_directory_of(
                d,
                scanned(d)[i],
                entries,
            ) implies extension_of(scanned(d)[i].kind) == named_after(entries) by {
            law_archives_are_named(d, i, entries);
        }
    }
    sort_by_offset(out)
}

/// What the scan finds is in the order of the offsets, is not empty, lies
/// inside the data and starts with the mark of its kind. Only the length of a
/// compound file is an estimate, and no two files of one kind overlap.
pub proof fn law_scan(data: Seq<u8>)
    requires
        data.len() <= usize::MAX,
    ensures
        forall|i: int, j: int|
            0 <= i <= j < scanned(data).len() ==> (#[trigger] scanned(data)[i]).offset <= (
            #[trigger] scanned(data)[j]).offset,
        forall|i: int| 0 <= i < scanned(data).len() ==> sound(#[trigger] scanned(data)[i], data),
        forall|i: int, j: int|
            0 <= i < j < scanned(data).len() && sought_as((#[trigger] scanned(data)[i]).kind)
                == sought_as((#[trigger] scanned(data)[j]).kind) ==> scanned(data)[i].offset
                + scanned(data)[i].len <= scanned(data)[j].offset,
{
    let z = carved_from(Sought::Zip, data, 0);
    let c = carved_from(Sought::Compound, data, 0);
    let p = carved_from(Sought::Pdf, data, 0);
    lemma_carved_from(Sought::Zip, data, 0);
    lemma_carved_from(Sought::Compound, data, 0);
    lemma_carved_from(Sought::Pdf, data, 0);
    let all = z + c + p;
    let at = |i: int|
        if i < z.len() {
            (Sought::Zip, i)
        } else if i < z.len() + c.len() {
            (Sought::Compound, i - z.len())
        } else {
            (Sought::Pdf, i - z.len() - c.len())
        };
    assert forall|i: int| 0 <= i < all.len() implies sound(#[trigger] all[i], data) && all[i]
        == carved_from(at(i).0, data, 0)[at(i).1] && sought_as(all[i].kind) == at(i).0 by {
        if i < z.len() {
            assert(all[i] == z[i]);
        } else if i < z.len() + c.len() {
            assert(all[i] == c[i - z.len()]);
        } else {
            assert(all[i] == p[i - z.len() - c.len()]);
        }
    }
    assert forall|i: int, j: int| 0 <= i < j < all.len() implies apart(
        #[trigger] all[i],
        #[trigger] all[j],
    ) by {
        if sought_as(all[i].kind) == sought_as(all[j].kind) {
            let one = carved_from(at(i).0, data, 0);
            assert(ends_before(one[at(i).1], one[at(j).1]));
        }
    }
    lemma_by_offset(all, data);
    let r = scanned(data);
    assert forall|i: int, j: int|
        0 <= i < j < r.len() && sought_as((#[trigger] r[i]).kind) == sought_as(
            (#[trigger] r[j]).kind,
        ) implies r[i].offset + r[i].len <= r[j].offset by {
        assert(apart(r[i], r[j]));
        assert(sound(r[j], data));
        assert(r[i].offset <= r[j].offset);
    }
}

/// What holds of every file that is found.
pub open spec fn sound(a: Attachment, data: Seq<u8>) -> bool {
    &&& a.fits(data.len())
    &&& a.len > 0
    &&& stands_at(data, magic(sought_as(a.kind)), a.offset as int)
    &&& a.length_is_estimate == (a.kind is CompoundFile)
}

spec fn ends_before(a: Attachment, b: Attachment) -> bool {
    a.offset + a.len <= b.offset
}

/// The two are not of one kind, or do not overlap.
spec fn apart(a: Attachment, b: Attachment) -> bool {
    sought_as(a.kind) == sought_as(b.kind) ==> ends_before(a, b) || ends_before(b, a)
}

spec fn all_apart(s: Seq<Attachment>) -> bool {
    forall|i: int, j: int| 0 <= i < j < s.len() ==> apart(#[trigger] s[i], #[trigger] s[j])
}

spec fn all_sound(s: Seq<Attachment>, data: Seq<u8>) -> bool {
    forall|i: int| 0 <= i < s.len() ==> sound(#[trigger] s[i], data)
}

spec fn ascending(s: Seq<Attachment>) -> bool {
    forall|i: int, j: int|
        0 <= i <= j < s.len() ==> (#[trigger] s[i]).offset <= (#[trigger] s[j]).offset
}

proof fn lemma_carved_from(s: Sought, data: Seq<u8>, i: int)
    requires
        0 <= i,
        data.len() <= usize::MAX,
    ensures
        all_sound(carved_from(s, data, i), data),
        forall|k: int|
            0 <= k < carved_from(s, data, i).len() ==> i <= (#[trigger] carved_from(
                s,
                data,
                i,
            )[k]).offset && sought_as(carved_from(s, data, i)[k].kind) == s,
        forall|k: int, l: int|
            0 <= k < l < carved_from(s, data, i).len() ==> ends_before(
                #[trigger] carved_from(s, data, i)[k],
                #[trigger] carved_from(s, data, i)[l],
            ),
    decreases data.len() - i,
{
    lemma_first_at(data, magic(s), i);
    match first_at(data, magic(s), i) {
        None => {},
        Some(p) => {
            lemma_carved(s, data, p);
            match carved(s, data, p) {
                Some(a) => {
                    let rest = carved_from(s, data, a.offset + a.len);
                    lemma_carved_from(s, data, a.offset + a.len);
                    let all = seq![a] + rest;
                    assert forall|k: int| 0 <= k < all.len() implies sound(#[trigger] all[k], data)
                        && i <= all[k].offset && sought_as(all[k].kind) == s by {
                        if k > 0 {
                            assert(all[k] == rest[k - 1]);
                        }
                    }
                    assert forall|k: int, l: int| 0 <= k < l < all.len() implies ends_before(
                        #[trigger] all[k],
                        #[trigger] all[l],
                    ) by {
                        assert(all[l] == rest[l - 1]);
                        if k > 0 {
                            assert(all[k] == rest[k - 1]);
                        }
                    }
                },
                None => lemma_carved_from(s, data, p + 1),
            }
        },
    }
}

/// Where `a` is put among the attachments.
proof fn lemma_insertion(s: Seq<Attachment>, a: Attachment) -> (at: int)
    ensures
        0 <= at <= s.len(),
        inserted(s, a) == s.insert(at, a),
    decreases s.len(),
{
    if s.len() > 0 && s.last().offset > a.offset {
        let at = lemma_insertion(s.drop_last(), a);
        assert(s.drop_last().insert(at, a).push(s.last()) =~= s.insert(at, a));
        at
    } else {
        assert(s.push(a) =~= s.insert(s.len() as int, a));
        s.len() as int
    }
}

proof fn lemma_inserted(s: Seq<Attachment>, a: Attachment, data: Seq<u8>)
    requires
        ascending(s),
        all_sound(s, data),
        sound(a, data),
    ensures
        ascending(inserted(s, a)),
        all_sound(inserted(s, a), data),
        inserted(s, a).len() == s.len() + 1,
        forall|k: int|
            0 <= k < inserted(s, a).len() ==> (#[trigger] inserted(s, a)[k]).offset <= (
            if s.len() > 0 && s.last().offset > a.offset {
                s.last().offset
            } else {
                a.offset
            }),
    decreases s.len(),
{
    let r = inserted(s, a);
    if s.len() > 0 && s.last().offset > a.offset {
        let shorter = s.drop_last();
        assert(ascending(shorter)) by {
            assert forall|i: int, j: int| 0 <= i <= j < shorter.len() implies (
            #[trigger] shorter[i]).offset <= (#[trigger] shorter[j]).offset by {
                assert(s[i].offset <= s[j].offset);
            }
        }
        assert(all_sound(shorter, data)) by {
            assert forall|i: int| 0 <= i < shorter.len() implies sound(
                #[trigger] shorter[i],
                data,
            ) by {
                assert(s[i] == shorter[i]);
            }
        }
        lemma_inserted(shorter, a, data);
        if shorter.len() > 0 {
            assert(s[s.len() - 2].offset <= s[s.len() - 1].offset);
        }
        let inner = inserted(shorter, a);
        assert forall|k: int| 0 <= k < r.len() implies (#[trigger] r[k]).offset
            <= s.last().offset by {
            if k < inner.len() {
                assert(r[k] == inner[k]);
            }
        }
        assert forall|i: int, j: int| 0 <= i <= j < r.len() implies (#[trigger] r[i]).offset <= (
        #[trigger] r[j]).offset by {
            if j < inner.len() {
                assert(inner[i].offset <= inner[j].offset);
            }
        }
        assert forall|i: int| 0 <= i < r.len() implies sound(#[trigger] r[i], data) by {
            if i < inner.len() {
                assert(r[i] == inner[i]);
            } else {
                assert(s[s.len() - 1] == r[i]);
            }
        }
    } else {
        assert forall|i: int, j: int| 0 <= i <= j < r.len() implies (#[trigger] r[i]).offset <= (
        #[trigger] r[j]).offset by {
            if i < s.len() {
                assert(s[i].offset <= s[s.len() - 1].offset);
                if j < s.len() {
                    assert(s[i].offset <= s[j].offset);
                }
            }
        }
        assert forall|k: int| 0 <= k < r.len() implies (#[trigger] r[k]).offset <= a.offset by {
            if k < s.len() {
                assert(s[k].offset <= s[s.len() - 1].offset);
            }
        }
        assert forall|i: int| 0 <= i < r.len() implies sound(#[trigger] r[i], data) by {
            if i < s.len() {
                assert(s[i] == r[i]);
            }
        }
    }
}

proof fn lemma_by_offset(s: Seq<Attachment>, data: Seq<u8>)
    requires
        all_sound(s, data),
        all_apart(s),
    ensures
        ascending(by_offset(s)),
        all_sound(by_offset(s), data),
        all_apart(by_offset(s)),
        forall|k: int| 0 <= k < by_offset(s).len() ==> s.contains(#[trigger] by_offset(s)[k]),
        by_offset(s).len() == s.len(),
    decreases s.len(),
{
    if s.len() > 0 {
        let shorter = s.drop_last();
        assert forall|i: int| 0 <= i < shorter.len() implies sound(#[trigger] shorter[i], data) by {
            assert(s[i] == shorter[i]);
        }
        assert forall|i: int, j: int| 0 <= i < j < shorter.len() implies apart(
            #[trigger] shorter[i],
            #[trigger] shorter[j],
        ) by {
            assert(apart(s[i], s[j]));
        }
        lemma_by_offset(shorter, data);
        let a = s.last();
        let before = by_offset(shorter);
        assert(sound(s[s.len() - 1], data));
        lemma_inserted(before, a, data);
        let at = lemma_insertion(before, a);
        let r = by_offset(s);
        assert forall|k: int| 0 <= k < before.len() implies s.contains(#[trigger] before[k])
            && apart(before[k], a) by {
            let m = choose|m: int| 0 <= m < shorter.len() && shorter[m] == before[k];
            assert(shorter.contains(before[k]));
            assert(s[m] == before[k]);
            assert(apart(s[m], s[s.len() - 1]));
        }
        let of = |k: int|
            if k < at {
                k
            } else {
                k - 1
            };
        assert forall|k: int| 0 <= k < r.len() implies s.contains(#[trigger] r[k]) by {
            if k == at {
                assert(s[s.len() - 1] == r[k]);
            } else {
                assert(r[k] == before[of(k)]);
            }
        }
        assert forall|i: int, j: int| 0 <= i < j < r.len() implies apart(
            #[trigger] r[i],
            #[trigger] r[j],
        ) by {
            if i == at {
                assert(r[j] == before[of(j)]);
            } else if j == at {
                assert(r[i] == before[of(i)]);
            } else {
                assert(r[i] == before[of(i)] && r[j] == before[of(j)]);
                assert(apart(before[of(i)], before[of(j)]));
            }
        }
    }
}

/// Finds source files by the marks they start with.
#[derive(Debug, Clone, Copy)]
pub struct MagicAttachmentScanner;

impl AttachmentScanner for MagicAttachmentScanner {
    open spec fn found(&self, data: Seq<u8>) -> Seq<Attachment> {
        scanned(data)
    }

    fn scan(&self, data: &[u8]) -> (r: Vec<Attachment>) {
        scan(data)
    }
}

} // verus!
