//! What holds of the files that are found in a document: they are those that
//! were put there, and are called what they are.
use crate::domain::attachment::{extension_of, label_of, Attachment, Kind};
use crate::infrastructure::attachments::{
    by_offset, carved, carved_from, compound_at, first_at, inserted, last_at, lemma_carved,
    lemma_first_at, lemma_last_at, magic, office_part_of, part_from, part_of_name, pdf_at, pdf_end,
    scanned, sought_as, stands_at, zip_before, Sought, CFB_MAGIC, EXCEL_DIR, PDF_END, PDF_MAGIC,
    POWERPOINT_DIR, WORD_DIR, ZIP_CENTRAL, ZIP_EOCD, ZIP_LOCAL,
};
use crate::infrastructure::octets::{u16_of, u32_of};
use crate::infrastructure::writing::{
    lemma_lies_apart, lemma_long_read, lemma_short_read, lies_at, long, short,
};
use vstd::prelude::*;

verus! {

// ------------------------------------------------------------------- searching

proof fn lemma_lies(data: Seq<u8>, p: int, s: Seq<u8>)
    ensures
        lies_at(data, p, s) == stands_at(data, s, p),
{
    if lies_at(data, p, s) {
        assert(data.subrange(p, p + s.len()) =~= s);
    } else if stands_at(data, s, p) {
        assert forall|i: int| 0 <= i < s.len() implies data[p + i] == #[trigger] s[i] by {
            assert(data.subrange(p, p + s.len())[i] == s[i]);
        }
    }
}

/// The first place is found.
proof fn lemma_first(data: Seq<u8>, s: Seq<u8>, from: int, p: int)
    requires
        0 <= from <= p,
        0 < s.len(),
        lies_at(data, p, s),
        forall|q: int| from <= q < p ==> !#[trigger] lies_at(data, q, s),
    ensures
        first_at(data, s, from) == Some(p),
    decreases p - from,
{
    lemma_lies(data, from, s);
    if from < p {
        assert(!lies_at(data, from, s));
        lemma_first(data, s, from + 1, p);
    }
}

/// The last place is found.
proof fn lemma_last(data: Seq<u8>, s: Seq<u8>, before: int, p: int)
    requires
        0 < s.len(),
        p + s.len() <= before <= data.len(),
        lies_at(data, p, s),
        forall|q: int| p < q ==> !#[trigger] lies_at(data, q, s),
    ensures
        last_at(data, s, before) == Some(p),
    decreases before - p,
{
    lemma_lies(data, before - s.len(), s);
    if p + s.len() < before {
        assert(!lies_at(data, before - s.len(), s));
        lemma_last(data, s, before - 1, p);
    }
}

/// `PK` and 3, 4: how an archive starts.
pub open spec fn archive_mark() -> Seq<u8> {
    seq![0x50u8, 0x4Bu8, 0x03u8, 0x04u8]
}

/// `PK` and 5, 6: how the end of an archive starts.
pub open spec fn end_mark() -> Seq<u8> {
    seq![0x50u8, 0x4Bu8, 0x05u8, 0x06u8]
}

/// `%PDF-`: how a PDF file starts.
pub open spec fn pdf_mark() -> Seq<u8> {
    seq![0x25u8, 0x50u8, 0x44u8, 0x46u8, 0x2Du8]
}

/// `%%EOF`: how a PDF file ends.
pub open spec fn pdf_end_mark() -> Seq<u8> {
    seq![0x25u8, 0x25u8, 0x45u8, 0x4Fu8, 0x46u8]
}

/// How a compound file starts.
pub open spec fn compound_mark() -> Seq<u8> {
    seq![0xD0u8, 0xCFu8, 0x11u8, 0xE0u8, 0xA1u8, 0xB1u8, 0x1Au8, 0xE1u8]
}

// ------------------------------------------------------------------- archives

/// A file in the directory of an archive.
pub struct Entry {
    /// What stands between the mark and the lengths, and behind them.
    pub front: Seq<u8>,
    pub middle: Seq<u8>,
    pub name: Seq<u8>,
    pub extra_field: Seq<u8>,
    pub comment: Seq<u8>,
}

pub open spec fn is_entry(e: Entry) -> bool {
    &&& e.front.len() == 24
    &&& e.middle.len() == 12
    &&& e.name.len() < 0x1_0000
    &&& e.extra_field.len() < 0x1_0000
    &&& e.comment.len() < 0x1_0000
}

/// The entry as it is written: `PK` and 1, 2, three lengths, and what they are
/// the lengths of.
pub open spec fn entry_octets(e: Entry) -> Seq<u8> {
    seq![0x50u8, 0x4Bu8, 0x01u8, 0x02u8] + (e.front + (short(e.name.len()) + (short(
        e.extra_field.len(),
    ) + (short(e.comment.len()) + (e.middle + (e.name + (e.extra_field + e.comment)))))))
}

pub open spec fn directory_octets(entries: Seq<Entry>) -> Seq<u8>
    decreases entries.len(),
{
    if entries.len() == 0 {
        Seq::empty()
    } else {
        entry_octets(entries[0]) + directory_octets(entries.drop_first())
    }
}

/// The name starts with the folder.
pub open spec fn is_under(name: Seq<u8>, folder: Seq<u8>) -> bool {
    folder.len() <= name.len() && name.take(folder.len() as int) == folder
}

/// The extension that the first file in `word/`, `xl/` or `ppt/` gives away.
pub open spec fn named_after(entries: Seq<Entry>) -> Seq<char>
    decreases entries.len(),
{
    if entries.len() == 0 {
        "zip"@
    } else {
        let name = entries[0].name;
        if is_under(name, seq![0x77u8, 0x6Fu8, 0x72u8, 0x64u8, 0x2Fu8]) {
            "docx"@
        } else if is_under(name, seq![0x78u8, 0x6Cu8, 0x2Fu8]) {
            "xlsx"@
        } else if is_under(name, seq![0x70u8, 0x70u8, 0x74u8, 0x2Fu8]) {
            "pptx"@
        } else {
            named_after(entries.drop_first())
        }
    }
}

proof fn lemma_under(name: Seq<u8>, folder: Seq<u8>)
    ensures
        is_under(name, folder) == stands_at(name, folder, 0),
{
    if folder.len() <= name.len() {
        assert(name.subrange(0, folder.len() as int) =~= name.take(folder.len() as int));
    }
}

proof fn lemma_part_of_name(data: Seq<u8>, at: int, name: Seq<u8>)
    requires
        lies_at(data, at, name),
    ensures
        ({
            let p = part_of_name(data, at, name.len() as int);
            if is_under(name, seq![0x77u8, 0x6Fu8, 0x72u8, 0x64u8, 0x2Fu8]) {
                p is Some && (p->0)@ == "docx"@
            } else if is_under(name, seq![0x78u8, 0x6Cu8, 0x2Fu8]) {
                p is Some && (p->0)@ == "xlsx"@
            } else if is_under(name, seq![0x70u8, 0x70u8, 0x74u8, 0x2Fu8]) {
                p is Some && (p->0)@ == "pptx"@
            } else {
                p is None
            }
        }),
{
    assert(data.subrange(at, at + name.len()) =~= name);
    assert(WORD_DIR@ =~= seq![0x77u8, 0x6Fu8, 0x72u8, 0x64u8, 0x2Fu8]);
    assert(EXCEL_DIR@ =~= seq![0x78u8, 0x6Cu8, 0x2Fu8]);
    assert(POWERPOINT_DIR@ =~= seq![0x70u8, 0x70u8, 0x74u8, 0x2Fu8]);
    lemma_under(name, WORD_DIR@);
    lemma_under(name, EXCEL_DIR@);
    lemma_under(name, POWERPOINT_DIR@);
}

proof fn lemma_entry(data: Seq<u8>, at: int, e: Entry)
    requires
        is_entry(e),
        lies_at(data, at, entry_octets(e)),
    ensures
        stands_at(data, ZIP_CENTRAL@, at),
        u16_of(data, at + 28) == Some(e.name.len() as u16),
        u16_of(data, at + 30) == Some(e.extra_field.len() as u16),
        u16_of(data, at + 32) == Some(e.comment.len() as u16),
        lies_at(data, at + 46, e.name),
        entry_octets(e).len() == 46 + e.name.len() + e.extra_field.len() + e.comment.len(),
{
    let mark = seq![0x50u8, 0x4Bu8, 0x01u8, 0x02u8];
    let g = e.extra_field + e.comment;
    let f = e.name + g;
    let d = e.middle + f;
    let c = short(e.comment.len()) + d;
    let b = short(e.extra_field.len()) + c;
    let a = short(e.name.len()) + b;
    let z = e.front + a;
    lemma_lies_apart(data, at, mark, z);
    assert(ZIP_CENTRAL@ =~= mark);
    lemma_lies(data, at, mark);
    lemma_lies_apart(data, at + 4, e.front, a);
    lemma_lies_apart(data, at + 28, short(e.name.len()), b);
    lemma_short_read(data, at + 28, e.name.len());
    lemma_lies_apart(data, at + 30, short(e.extra_field.len()), c);
    lemma_short_read(data, at + 30, e.extra_field.len());
    lemma_lies_apart(data, at + 32, short(e.comment.len()), d);
    lemma_short_read(data, at + 32, e.comment.len());
    lemma_lies_apart(data, at + 34, e.middle, f);
    lemma_lies_apart(data, at + 46, e.name, g);
}

proof fn lemma_directory(data: Seq<u8>, at: int, end: int, entries: Seq<Entry>)
    requires
        forall|i: int| 0 <= i < entries.len() ==> is_entry(#[trigger] entries[i]),
        lies_at(data, at, directory_octets(entries)),
        end == at + directory_octets(entries).len(),
    ensures
        extension_of(Kind::Zip { part: part_from(data, at, end) }) == named_after(entries),
    decreases entries.len(),
{
    if entries.len() > 0 {
        let e = entries[0];
        let rest = entries.drop_first();
        assert(is_entry(e));
        assert forall|i: int| 0 <= i < rest.len() implies is_entry(#[trigger] rest[i]) by {
            assert(rest[i] == entries[i + 1]);
        }
        lemma_lies_apart(data, at, entry_octets(e), directory_octets(rest));
        lemma_entry(data, at, e);
        lemma_part_of_name(data, at + 46, e.name);
        lemma_directory(data, at + entry_octets(e).len(), end, rest);
    }
}

/// What an archive is called follows from the names in its directory: the first
/// file in one of the three folders of office documents decides.
pub proof fn law_names_decide(data: Seq<u8>, at: int, entries: Seq<Entry>)
    requires
        forall|i: int| 0 <= i < entries.len() ==> is_entry(#[trigger] entries[i]),
        lies_at(data, at, directory_octets(entries)),
    ensures
        extension_of(
            Kind::Zip { part: office_part_of(data, at, directory_octets(entries).len() as int) },
        ) == named_after(entries),
{
    lemma_directory(data, at, at + directory_octets(entries).len(), entries);
}

/// The end of an archive as it is written: `PK` and 5, 6, how long the directory
/// is, how far from the start of the archive, and a comment.
pub open spec fn end_octets(counts: Seq<u8>, size: nat, offset: nat, comment: Seq<u8>) -> Seq<u8> {
    end_mark() + (counts + (long(size) + (long(offset) + (short(
        comment.len(),
    ) + comment))))
}

proof fn lemma_end(
    data: Seq<u8>,
    at: int,
    counts: Seq<u8>,
    size: nat,
    offset: nat,
    comment: Seq<u8>,
)
    requires
        counts.len() == 8,
        size < 0x1_0000_0000,
        offset < 0x1_0000_0000,
        comment.len() < 0x1_0000,
        lies_at(data, at, end_octets(counts, size, offset, comment)),
    ensures
        stands_at(data, ZIP_EOCD@, at),
        u32_of(data, at + 12) == Some(size as u32),
        u32_of(data, at + 16) == Some(offset as u32),
        u16_of(data, at + 20) == Some(comment.len() as u16),
        end_octets(counts, size, offset, comment).len() == 22 + comment.len(),
        at + 22 + comment.len() <= data.len(),
        lies_at(data, at, end_mark()),
{
    let mark = end_mark();
    let d = short(comment.len()) + comment;
    let c = long(offset) + d;
    let b = long(size) + c;
    let a = counts + b;
    lemma_lies_apart(data, at, mark, a);
    assert(ZIP_EOCD@ =~= mark);
    lemma_lies(data, at, mark);
    lemma_lies_apart(data, at + 4, counts, b);
    lemma_lies_apart(data, at + 12, long(size), c);
    lemma_long_read(data, at + 12, size);
    lemma_lies_apart(data, at + 16, long(offset), d);
    lemma_long_read(data, at + 16, offset);
    lemma_lies_apart(data, at + 20, short(comment.len()), comment);
    lemma_short_read(data, at + 20, comment.len());
}

/// An archive: what is in it, its directory, and its end.
pub struct Archived {
    pub body: Seq<u8>,
    pub entries: Seq<Entry>,
    pub counts: Seq<u8>,
    pub comment: Seq<u8>,
}

pub open spec fn archive_octets(a: Archived) -> Seq<u8> {
    a.body + (directory_octets(a.entries) + end_octets(
        a.counts,
        directory_octets(a.entries).len(),
        a.body.len(),
        a.comment,
    ))
}

/// It starts with `PK` and 3, 4, and its lengths fit their places.
pub open spec fn is_archive(a: Archived) -> bool {
    &&& is_under(a.body, archive_mark())
    &&& a.body.len() < 0x1_0000_0000
    &&& directory_octets(a.entries).len() < 0x1_0000_0000
    &&& a.counts.len() == 8
    &&& a.comment.len() < 0x1_0000
    &&& forall|i: int| 0 <= i < a.entries.len() ==> is_entry(#[trigger] a.entries[i])
}

/// An attachment that is found stays in when all are put in order.
proof fn lemma_in_order(s: Seq<Attachment>, a: Attachment)
    requires
        s.contains(a),
    ensures
        by_offset(s).contains(a),
    decreases s.len(),
{
    let less = s.drop_last();
    let i = choose|i: int| 0 <= i < s.len() && s[i] == a;
    if i < s.len() - 1 {
        assert(less[i] == a);
        lemma_in_order(less, a);
    }
    lemma_inserted_has(by_offset(less), s.last(), a);
}

proof fn lemma_inserted_has(s: Seq<Attachment>, b: Attachment, a: Attachment)
    ensures
        s.contains(a) || a == b ==> inserted(s, b).contains(a),
    decreases s.len(),
{
    let r = inserted(s, b);
    if s.len() > 0 && s.last().offset > b.offset {
        let less = s.drop_last();
        lemma_inserted_has(less, b, a);
        if s.contains(a) && a != b {
            let i = choose|i: int| 0 <= i < s.len() && s[i] == a;
            if i < less.len() {
                assert(less[i] == a);
            } else {
                assert(r[r.len() - 1] == a);
            }
        }
        if inserted(less, b).contains(a) {
            let k = choose|k: int| 0 <= k < inserted(less, b).len() && inserted(less, b)[k] == a;
            assert(r[k] == a);
        }
    } else {
        if s.contains(a) {
            let i = choose|i: int| 0 <= i < s.len() && s[i] == a;
            assert(r[i] == a);
        }
        if a == b {
            assert(r[r.len() - 1] == a);
        }
    }
}

/// The first file of a kind is found.
proof fn lemma_found(s: Sought, data: Seq<u8>, p: int, a: Attachment)
    requires
        data.len() <= usize::MAX,
        first_at(data, magic(s), 0) == Some(p),
        carved(s, data, p) == Some(a),
    ensures
        scanned(data).contains(a),
{
    lemma_first_at(data, magic(s), 0);
    lemma_carved(s, data, p);
    let z = carved_from(Sought::Zip, data, 0);
    let c = carved_from(Sought::Compound, data, 0);
    let d = carved_from(Sought::Pdf, data, 0);
    let all = z + c + d;
    let one = carved_from(s, data, 0);
    assert(one[0] == a);
    match s {
        Sought::Zip => {
            assert(all[0] == a);
        },
        Sought::Compound => {
            assert(all[z.len() as int] == a);
        },
        Sought::Pdf => {
            assert(all[(z.len() + c.len()) as int] == a);
        },
    }
    lemma_in_order(all, a);
}

/// An archive that stands in a document is found, whole, and called after the
/// names in its directory, where it is the first there and nothing behind it
/// looks like the end of one.
pub proof fn law_archive_is_found(data: Seq<u8>, at: int, a: Archived)
    requires
        data.len() <= usize::MAX,
        is_archive(a),
        lies_at(data, at, archive_octets(a)),
        forall|q: int|
            0 <= q < at ==> !#[trigger] lies_at(data, q, archive_mark()),
        forall|q: int|
            at + a.body.len() + directory_octets(a.entries).len() < q ==> !#[trigger] lies_at(data, q, end_mark()),
    ensures
        exists|f: Attachment| #[trigger]
            scanned(data).contains(f) && f.offset == at && f.len == archive_octets(a).len()
                && f.kind is Zip && extension_of(f.kind) == named_after(a.entries)
                && !f.length_is_estimate,
{
    let dir = directory_octets(a.entries);
    let end = end_octets(a.counts, dir.len(), a.body.len(), a.comment);
    let mark = archive_mark();
    let last = end_mark();
    lemma_lies_apart(data, at, a.body, dir + end);
    let start = at + a.body.len();
    lemma_lies_apart(data, start, dir, end);
    let eocd = start + dir.len();
    lemma_end(data, eocd, a.counts, dir.len(), a.body.len(), a.comment);
    assert(ZIP_LOCAL@ =~= mark);
    assert(ZIP_EOCD@ =~= last);
    assert(lies_at(data, at, mark)) by {
        assert forall|i: int| 0 <= i < mark.len() implies data[at + i] == #[trigger] mark[i] by {
            assert(a.body.take(4)[i] == a.body[i]);
        }
    }
    lemma_first(data, mark, 0, at);
    lemma_last(data, last, data.len() as int, eocd);
    law_names_decide(data, start, a.entries);
    let f = zip_before(data, at, data.len() as int)->0;
    lemma_found(Sought::Zip, data, at, f);
}

/// The end of an archive that starts at `from` stands at `at`, with the
/// directory just in front of it.
pub open spec fn is_end_of(data: Seq<u8>, from: int, len: int, at: int) -> bool {
    &&& lies_at(data, at, end_mark())
    &&& match (u32_of(data, at + 12), u32_of(data, at + 16), u16_of(data, at + 20)) {
        (Some(size), Some(offset), Some(comment)) => from + offset + size == at && at + 22 + comment
            == from + len,
        _ => false,
    }
}

/// The directory in front of that end.
pub open spec fn is_directory(data: Seq<u8>, from: int, at: int, entries: Seq<Entry>) -> bool {
    let start = from + u32_of(data, at + 16)->0;
    &&& lies_at(data, start, directory_octets(entries))
    &&& start + directory_octets(entries).len() == at
    &&& forall|i: int| 0 <= i < entries.len() ==> is_entry(#[trigger] entries[i])
}

/// The entries are the directory of an archive that was found, wherever it
/// ends.
pub open spec fn is_directory_of(data: Seq<u8>, a: Attachment, entries: Seq<Entry>) -> bool {
    forall|at: int| #[trigger]
        is_end_of(data, a.offset as int, a.len as int, at) ==> is_directory(
            data,
            a.offset as int,
            at,
            entries,
        )
}

proof fn lemma_archive_end(data: Seq<u8>, start: int, before: int) -> (at: int)
    requires
        0 <= start,
        data.len() <= usize::MAX,
        zip_before(data, start, before) is Some,
    ensures
        ({
            let a = zip_before(data, start, before)->0;
            &&& start <= at
            &&& is_end_of(data, start, a.len as int, at)
            &&& a.kind == Kind::Zip {
                part: office_part_of(
                    data,
                    start + u32_of(data, at + 16)->0,
                    u32_of(data, at + 12)->0 as int,
                ),
            }
        }),
    decreases before,
{
    lemma_last_at(data, ZIP_EOCD@, before);
    let eocd = last_at(data, ZIP_EOCD@, before)->0;
    let last = end_mark();
    assert(ZIP_EOCD@ =~= last);
    lemma_lies(data, eocd, last);
    let (size, offset, comment) = (
        u32_of(data, eocd + 12)->0,
        u32_of(data, eocd + 16)->0,
        u16_of(data, eocd + 20)->0,
    );
    if eocd + 22 + comment <= data.len() && start + offset + size == eocd {
        eocd
    } else {
        lemma_archive_end(data, start, eocd)
    }
}

/// Every archive that is found ends with the end of an archive, and is called
/// after the names in the directory in front of it.
pub proof fn law_archives_are_named(data: Seq<u8>, k: int, entries: Seq<Entry>)
    requires
        data.len() <= usize::MAX,
        0 <= k < scanned(data).len(),
        scanned(data)[k].kind is Zip,
        is_directory_of(data, scanned(data)[k], entries),
    ensures
        extension_of(scanned(data)[k].kind) == named_after(entries),
        exists|at: int|
            #[trigger] is_end_of(
                data,
                scanned(data)[k].offset as int,
                scanned(data)[k].len as int,
                at,
            ),
{
    let a = scanned(data)[k];
    lemma_scanned_is_carved(data, k);
    let at = lemma_archive_end(data, a.offset as int, data.len() as int);
    assert(is_directory(data, a.offset as int, at, entries));
    law_names_decide(data, a.offset + u32_of(data, at + 16)->0, entries);
}

/// What is found was cut out where it starts.
proof fn lemma_scanned_is_carved(data: Seq<u8>, k: int)
    requires
        data.len() <= usize::MAX,
        0 <= k < scanned(data).len(),
    ensures
        ({
            let a = scanned(data)[k];
            carved(
                sought_as(a.kind),
                data,
                a.offset as int,
            ) == Some(a)
        }),
{
    let z = carved_from(Sought::Zip, data, 0);
    let c = carved_from(Sought::Compound, data, 0);
    let d = carved_from(Sought::Pdf, data, 0);
    let all = z + c + d;
    lemma_order_has(all, k);
    let a = scanned(data)[k];
    let i = choose|i: int| 0 <= i < all.len() && all[i] == a;
    if i < z.len() {
        lemma_from_is_carved(Sought::Zip, data, 0, i);
    } else if i < z.len() + c.len() {
        lemma_from_is_carved(Sought::Compound, data, 0, i - z.len());
    } else {
        lemma_from_is_carved(Sought::Pdf, data, 0, i - z.len() - c.len());
    }
}

proof fn lemma_from_is_carved(s: Sought, data: Seq<u8>, from: int, k: int)
    requires
        0 <= from,
        data.len() <= usize::MAX,
        0 <= k < carved_from(s, data, from).len(),
    ensures
        ({
            let a = carved_from(s, data, from)[k];
            carved(s, data, a.offset as int) == Some(a)
                && sought_as(a.kind) == s
        }),
    decreases data.len() - from,
{
    lemma_first_at(data, magic(s), from);
    let p = first_at(data, magic(s), from)->0;
    lemma_carved(s, data, p);
    match carved(s, data, p) {
        Some(a) => {
            if k > 0 {
                let rest = carved_from(s, data, a.offset + a.len);
                assert(carved_from(s, data, from)[k] == rest[k - 1]);
                lemma_from_is_carved(s, data, a.offset + a.len, k - 1);
            }
        },
        None => lemma_from_is_carved(s, data, p + 1, k),
    }
}

/// Nothing comes in when all are put in order.
proof fn lemma_order_has(s: Seq<Attachment>, k: int)
    requires
        0 <= k < by_offset(s).len(),
    ensures
        s.contains(by_offset(s)[k]),
    decreases s.len(),
{
    let less = s.drop_last();
    let before = by_offset(less);
    let j = lemma_inserted_from(before, s.last(), k);
    if j < before.len() {
        lemma_order_has(less, j);
        let i = choose|i: int| 0 <= i < less.len() && less[i] == before[j];
        assert(s[i] == before[j]);
    } else {
        assert(s[s.len() - 1] == by_offset(s)[k]);
    }
}

/// Where an attachment stood before another was put in; past the end for that
/// one.
proof fn lemma_inserted_from(s: Seq<Attachment>, b: Attachment, k: int) -> (j: int)
    requires
        0 <= k < inserted(s, b).len(),
    ensures
        0 <= j <= s.len(),
        j < s.len() ==> s[j] == inserted(s, b)[k],
        j == s.len() ==> b == inserted(s, b)[k],
    decreases s.len(),
{
    if s.len() > 0 && s.last().offset > b.offset {
        let less = s.drop_last();
        let r = inserted(less, b);
        if k < r.len() {
            let j = lemma_inserted_from(less, b, k);
            if j == less.len() {
                s.len() as int
            } else {
                j
            }
        } else {
            s.len() - 1
        }
    } else {
        k
    }
}

// -------------------------------------------------------------- other files

/// A PDF file that stands in a document is found from its mark `%PDF-` up to the
/// last end mark `%%EOF`.
pub proof fn law_pdf_is_found(data: Seq<u8>, at: int, end: int)
    requires
        data.len() <= usize::MAX,
        0 <= at <= end,
        lies_at(data, at, pdf_mark()),
        forall|q: int|
            0 <= q < at ==> !#[trigger] lies_at(data, q, pdf_mark()),
        lies_at(data, end, pdf_end_mark()),
        forall|q: int|
            end < q ==> !#[trigger] lies_at(data, q, pdf_end_mark()),
    ensures
        scanned(data).contains(
            Attachment {
                offset: at as usize,
                len: (end + 5 - at) as usize,
                kind: Kind::Pdf,
                length_is_estimate: false,
            },
        ),
{
    let mark = pdf_mark();
    let last = pdf_end_mark();
    assert(PDF_MAGIC@ =~= mark);
    assert(PDF_END@ =~= last);
    lemma_first(data, mark, 0, at);
    lemma_pdf_end(data, at, end, None);
    lemma_found(Sought::Pdf, data, at, pdf_at(data, at)->0);
}

proof fn lemma_pdf_end(data: Seq<u8>, i: int, end: int, found: Option<int>)
    requires
        0 <= i <= end,
        lies_at(data, end, pdf_end_mark()),
        forall|q: int|
            end < q ==> !#[trigger] lies_at(data, q, pdf_end_mark()),
    ensures
        pdf_end(data, i, found) == Some(end + 5),
    decreases end - i,
{
    let last = pdf_end_mark();
    assert(PDF_END@ =~= last);
    lemma_first_at(data, last, i);
    lemma_some_first(data, last, i, end);
    let p = first_at(data, last, i)->0;
    lemma_lies(data, p, last);
    if p < end {
        // Two end marks do not overlap.
        assert(data[p + 0] == last[0] && data[p + 1] == last[1] && data[p + 2] == last[2] && data[p
            + 3] == last[3] && data[p + 4] == last[4]);
        assert(data[end + 0] == last[0] && data[end + 1] == last[1]);
        assert(p + 5 <= end);
        lemma_pdf_end(data, p + 5, end, Some(p + 5));
    } else {
        assert(first_at(data, last, p + 5) is None) by {
            lemma_first_at(data, last, p + 5);
            if first_at(data, last, p + 5) is Some {
                let q = first_at(data, last, p + 5)->0;
                lemma_lies(data, q, last);
            }
        }
    }
}

proof fn lemma_some_first(data: Seq<u8>, s: Seq<u8>, from: int, p: int)
    requires
        0 <= from <= p,
        0 < s.len(),
        lies_at(data, p, s),
    ensures
        first_at(data, s, from) matches Some(q) && q <= p,
    decreases p - from,
{
    lemma_lies(data, from, s);
    if from < p && !lies_at(data, from, s) {
        lemma_some_first(data, s, from + 1, p);
    }
}

/// A compound file that stands in a document is found from its mark on, as long
/// as its allocation tables can make it: 512 octets, and for every four octets
/// of the tables a sector. That is an estimate.
pub proof fn law_compound_file_is_found(
    data: Seq<u8>,
    at: int,
    shift: nat,
    tables: nat,
    sector: nat,
)
    requires
        data.len() <= usize::MAX,
        0 <= at,
        at + 512 <= data.len(),
        lies_at(data, at, compound_mark()),
        forall|q: int|
            0 <= q < at ==> !#[trigger] lies_at(data, q, compound_mark()),
        7 <= shift <= 12,
        sector == vstd::arithmetic::power2::pow2(shift),
        1 <= tables <= 4096,
        lies_at(data, at + 30, short(shift)),
        lies_at(data, at + 44, long(tables)),
    ensures
        scanned(data).contains(
            Attachment {
                offset: at as usize,
                len: (if 512 + tables * ((sector / 4) * sector) < data.len() - at {
                    (512 + tables * ((sector / 4) * sector)) as int
                } else {
                    data.len() - at
                }) as usize,
                kind: Kind::CompoundFile,
                length_is_estimate: true,
            },
        ),
{
    let mark = compound_mark();
    assert(CFB_MAGIC@ =~= mark);
    lemma_first(data, mark, 0, at);
    lemma_short_read(data, at + 30, shift);
    lemma_long_read(data, at + 44, tables);
    lemma_found(Sought::Compound, data, at, compound_at(data, at)->0);
}

/// What a file is called goes with its extension.
pub proof fn law_labels_follow_extensions(k: Kind)
    ensures
        extension_of(k) == "docx"@ ==> label_of(k) == "Word document"@,
        extension_of(k) == "xlsx"@ ==> label_of(k) == "Excel workbook"@,
        extension_of(k) == "pptx"@ ==> label_of(k) == "PowerPoint deck"@,
        extension_of(k) == "pdf"@ && !(k is Zip) ==> label_of(k) == "PDF"@,
        extension_of(k) == "cfb"@ && !(k is Zip) ==> label_of(k)
            == "compound file (legacy Office)"@,
        extension_of(k) == "zip"@ ==> label_of(k) == "zip container"@,
        k is Pdf ==> extension_of(k) == "pdf"@,
        k is CompoundFile ==> extension_of(k) == "cfb"@,
{
    reveal_strlit("docx");
    reveal_strlit("xlsx");
    reveal_strlit("pptx");
    reveal_strlit("pdf");
    reveal_strlit("cfb");
    reveal_strlit("zip");
    assert("docx"@[0] == 'd' && "xlsx"@[0] == 'x' && "pptx"@[0] == 'p');
    assert("pdf"@.len() == 3 && "cfb"@[0] == 'c' && "zip"@[0] == 'z');
}

} // verus!
