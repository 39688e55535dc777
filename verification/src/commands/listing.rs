//! What is said of one document: its structure, and an inventory of its pages.
use crate::application::service::Analysis;
use crate::domain::attachment::{label_of, Attachment};
use crate::domain::coverage::Coverage;
use crate::domain::document::{rebuilt_text, Document};
use crate::domain::page::{page_text, Page, PageData};
use crate::domain::policy::{verdict_name, Verdict};
use crate::infrastructure::xdw_page::{field_names, names_from, texts};
use crate::text::{decimal, hexadecimal, padded, push_decimal, push_filled, push_hex2};
use vstd::prelude::*;
use vstd::string::*;

verus! {

/// The line that names the document.
pub open spec fn title_line(name: Seq<char>, len: nat, doc: Document) -> Seq<char> {
    name + "  "@ + decimal(len) + " bytes  generation "@ + decimal(doc.generation as nat)
        + "  trailer 0x"@ + padded(hexadecimal(doc.trailer_tag as nat), 2, '0') + "\n"@
}

fn write_title(name: &str, len: usize, doc: &Document) -> (out: String)
    ensures
        out@ == title_line(name@, len as nat, *doc),
{
    let mut out = String::new();
    out.append(name);
    out.append("  ");
    push_decimal(&mut out, len as u64);
    out.append(" bytes  generation ");
    push_decimal(&mut out, doc.generation as u64);
    out.append("  trailer 0x");
    push_hex2(&mut out, doc.trailer_tag);
    out.append("\n");
    proof {
        assert(out@ =~= title_line(name@, len as nat, *doc));
    }
    out
}

/// The line that counts the entries.
pub open spec fn entries_line(entries: nat, c: Coverage, v: Verdict) -> Seq<char> {
    "  "@ + decimal(c.sheets as nat) + " sheet(s)  ["@ + decimal(entries) + " entries = "@ + decimal(
        c.sheets as nat,
    ) + " sheet + "@ + decimal(c.pictures as nat) + " picture + "@ + decimal(c.thumbnails as nat)
        + " thumbnail"@ + (if c.data_tables > 0 {
        " + "@ + decimal(c.data_tables as nat) + " data table"@
    } else {
        ""@
    }) + "]   verdict "@ + verdict_name(v) + "\n"@
}

fn push_tables(out: &mut String, n: usize)
    ensures
        final(out)@ == old(out)@ + (if n > 0 {
            " + "@ + decimal(n as nat) + " data table"@
        } else {
            ""@
        }),
{
    if n > 0 {
        out.append(" + ");
        push_decimal(out, n as u64);
        out.append(" data table");
        proof {
            assert(out@ =~= old(out)@ + (" + "@ + decimal(n as nat) + " data table"@));
        }
    } else {
        out.append("");
    }
}

fn write_entries(entries: usize, c: &Coverage, v: &Verdict) -> (out: String)
    ensures
        out@ == entries_line(entries as nat, *c, *v),
{
    let mut out = String::from_str("  ");
    push_decimal(&mut out, c.sheets as u64);
    out.append(" sheet(s)  [");
    push_decimal(&mut out, entries as u64);
    out.append(" entries = ");
    push_decimal(&mut out, c.sheets as u64);
    out.append(" sheet + ");
    push_decimal(&mut out, c.pictures as u64);
    out.append(" picture + ");
    push_decimal(&mut out, c.thumbnails as u64);
    out.append(" thumbnail");
    push_tables(&mut out, c.data_tables);
    out.append("]   verdict ");
    out.append(v.as_str());
    out.append("\n");
    proof {
        assert(out@ =~= entries_line(entries as nat, *c, *v));
    }
    out
}

/// The line that counts what is recovered, and the one on blank sheets.
pub open spec fn recovery_lines(c: Coverage) -> Seq<char> {
    "  sheets recovered "@ + decimal(c.sheets_recovered as nat) + "/"@ + decimal(c.sheets as nat)
        + "   pictures off those sheets "@ + decimal(c.pictures_recovered as nat) + "/"@ + decimal(
        c.pictures as nat,
    ) + " on "@ + decimal(c.sheets_with_pictures as nat) + " sheet(s)\n"@ + (if c.sheets_blank > 0 {
        "  "@ + decimal(c.sheets_blank as nat)
            + " sheet(s) come out blank: neither the sheet nor any artwork on it recovers\n"@
    } else {
        ""@
    })
}

fn push_blank(out: &mut String, n: usize)
    ensures
        final(out)@ == old(out)@ + (if n > 0 {
            "  "@ + decimal(n as nat)
                + " sheet(s) come out blank: neither the sheet nor any artwork on it recovers\n"@
        } else {
            ""@
        }),
{
    if n > 0 {
        out.append("  ");
        push_decimal(out, n as u64);
        out.append(" sheet(s) come out blank: neither the sheet nor any artwork on it recovers\n");
        proof {
            assert(out@ =~= old(out)@ + ("  "@ + decimal(n as nat)
                + " sheet(s) come out blank: neither the sheet nor any artwork on it recovers\n"@));
        }
    } else {
        out.append("");
    }
}

fn write_recovery(c: &Coverage) -> (out: String)
    ensures
        out@ == recovery_lines(*c),
{
    let mut out = String::from_str("  sheets recovered ");
    push_decimal(&mut out, c.sheets_recovered as u64);
    out.append("/");
    push_decimal(&mut out, c.sheets as u64);
    out.append("   pictures off those sheets ");
    push_decimal(&mut out, c.pictures_recovered as u64);
    out.append("/");
    push_decimal(&mut out, c.pictures as u64);
    out.append(" on ");
    push_decimal(&mut out, c.sheets_with_pictures as u64);
    out.append(" sheet(s)\n");
    push_blank(&mut out, c.sheets_blank);
    proof {
        assert(out@ =~= recovery_lines(*c));
    }
    out
}

/// The lines on a file that was found by scanning, or saved over.
pub open spec fn history_lines(doc: Document) -> Seq<char> {
    (match doc.rebuilt {
        Some(why) => "  ! "@ + rebuilt_text(why)
            + "; the pages below were found by scanning the file, and in a\n    document that has been saved over that includes earlier states\n"@,
        None => ""@,
    }) + (if doc.generations_present > 1 {
        "  saved over: "@ + decimal(doc.generations_present as nat)
            + " document states present; earlier pages are still in the file\n"@
    } else {
        ""@
    })
}

fn write_history(doc: &Document) -> (out: String)
    ensures
        out@ == history_lines(*doc),
{
    let mut out = String::new();
    match doc.rebuilt {
        Some(why) => {
            out.append("  ! ");
            out.append(why.as_str());
            out.append(
                "; the pages below were found by scanning the file, and in a\n    document that has been saved over that includes earlier states\n",
            );
        },
        None => out.append(""),
    }
    if doc.generations_present > 1 {
        out.append("  saved over: ");
        push_decimal(&mut out, doc.generations_present as u64);
        out.append(" document states present; earlier pages are still in the file\n");
    } else {
        out.append("");
    }
    proof {
        assert(out@ =~= history_lines(*doc));
    }
    out
}

// ------------------------------------------------------------ field tables

/// The first `k` texts with a space between each two.
pub open spec fn joined(v: Seq<Seq<char>>, k: int) -> Seq<char>
    decreases k,
{
    if k <= 0 {
        Seq::empty()
    } else if k == 1 {
        v[0]
    } else {
        joined(v, k - 1) + " "@ + v[k - 1]
    }
}

/// The names in a field table.
pub open spec fn table_names(data: Seq<u8>, offset: usize, len: usize) -> Seq<Seq<char>> {
    if offset + len > data.len() {
        Seq::empty()
    } else {
        names_from(
            data.subrange(offset as int, offset + len),
            0,
            Seq::<Seq<char>>::empty(),
        )
    }
}

/// The line of names: the first sixteen, and how many more there are.
pub open spec fn names_line(names: Seq<Seq<char>>) -> Seq<char> {
    if names.len() == 0 {
        ""@
    } else if names.len() > 16 {
        "    "@ + joined(names, 16) + " ... (+"@ + decimal((names.len() - 16) as nat) + ")"@ + "\n"@
    } else {
        "    "@ + joined(names, names.len() as int) + ""@ + "\n"@
    }
}

/// The lines on a table of names in the clear.
pub open spec fn table_lines(p: Page, data: Seq<u8>) -> Seq<char> {
    match p.data {
        PageData::Fields { offset, len, records } => {
            let names = table_names(data, offset, len);
            "  data table at entry "@ + decimal(p.index as nat) + ": "@ + decimal(records as nat)
                + " field(s) in the clear, "@ + decimal(names.len()) + " name(s)\n"@ + names_line(
                names,
            )
        },
        _ => Seq::empty(),
    }
}

/// The lines on the tables among the first `k` pages.
pub open spec fn tables_lines(pages: Seq<Page>, data: Seq<u8>, k: int) -> Seq<char>
    decreases k,
{
    if k <= 0 {
        Seq::empty()
    } else {
        tables_lines(pages, data, k - 1) + table_lines(pages[k - 1], data)
    }
}

fn push_joined(out: &mut String, v: &Vec<String>, k: usize)
    requires
        k <= v@.len(),
    ensures
        final(out)@ == old(out)@ + joined(texts(v@), k as int),
{
    let mut i: usize = 0;
    proof {
        assert(out@ =~= old(out)@ + joined(texts(v@), 0));
    }
    while i < k
        invariant
            i <= k <= v@.len(),
            out@ == old(out)@ + joined(texts(v@), i as int),
        decreases k - i,
    {
        if i > 0 {
            out.append(" ");
        }
        out.append(v[i].as_str());
        proof {
            assert(texts(v@)[i as int] == v@[i as int]@);
            assert(out@ =~= old(out)@ + joined(texts(v@), i + 1));
        }
        i += 1;
    }
}

fn push_names(out: &mut String, names: &Vec<String>)
    ensures
        final(out)@ == old(out)@ + names_line(texts(names@)),
{
    if names.len() == 0 {
        out.append("");
        return;
    }
    out.append("    ");
    if names.len() > 16 {
        push_joined(out, names, 16);
        out.append(" ... (+");
        push_decimal(out, (names.len() - 16) as u64);
        out.append(")");
    } else {
        push_joined(out, names, names.len());
        out.append("");
    }
    out.append("\n");
    proof {
        assert(out@ =~= old(out)@ + names_line(texts(names@)));
    }
}

fn push_table(out: &mut String, p: &Page, data: &[u8])
    ensures
        final(out)@ == old(out)@ + table_lines(*p, data@),
{
    if let PageData::Fields { offset, len, records } = p.data {
        let names = field_names(data, offset, len);
        out.append("  data table at entry ");
        push_decimal(out, p.index as u64);
        out.append(": ");
        push_decimal(out, records as u64);
        out.append(" field(s) in the clear, ");
        push_decimal(out, names.len() as u64);
        out.append(" name(s)\n");
        push_names(out, &names);
    }
    proof {
        assert(out@ =~= old(out)@ + table_lines(*p, data@));
    }
}

fn write_tables(doc: &Document, data: &[u8]) -> (out: String)
    ensures
        out@ == tables_lines(doc.pages@, data@, doc.pages@.len() as int),
{
    let mut out = String::new();
    let mut i: usize = 0;
    proof {
        assert(out@ =~= Seq::empty());
    }
    while i < doc.pages.len()
        invariant
            i <= doc.pages@.len(),
            out@ == tables_lines(doc.pages@, data@, i as int),
        decreases doc.pages@.len() - i,
    {
        push_table(&mut out, &doc.pages[i], data);
        i += 1;
    }
    out
}

// --------------------------------------------------------------- the pages

/// The line on the properties.
pub open spec fn properties_line(sizes: Option<(u32, u32)>) -> Seq<char> {
    match sizes {
        Some((stored, expanded)) => "  properties block: "@ + decimal(stored as nat)
            + " B stored, "@ + decimal(expanded as nat) + " B expanded (vendor coding)\n"@,
        None => ""@,
    }
}

fn write_properties(sizes: Option<(u32, u32)>) -> (out: String)
    ensures
        out@ == properties_line(sizes),
{
    let mut out = String::new();
    match sizes {
        Some((stored, expanded)) => {
            out.append("  properties block: ");
            push_decimal(&mut out, stored as u64);
            out.append(" B stored, ");
            push_decimal(&mut out, expanded as u64);
            out.append(" B expanded (vendor coding)\n");
        },
        None => out.append(""),
    }
    proof {
        assert(out@ =~= properties_line(sizes));
    }
    out
}

/// The line on an entry.
pub open spec fn page_line(p: Page) -> Seq<char> {
    "    ["@ + padded(decimal(p.index as nat), 3, ' ') + "] "@ + page_text(p@) + "\n"@
}

/// The lines on the first `k` entries.
pub open spec fn page_lines(pages: Seq<Page>, k: int) -> Seq<char>
    decreases k,
{
    if k <= 0 {
        Seq::empty()
    } else {
        page_lines(pages, k - 1) + page_line(pages[k - 1])
    }
}

/// The lines on the first eight entries, and how many more there are.
pub open spec fn inventory(pages: Seq<Page>) -> Seq<char> {
    if pages.len() > 8 {
        page_lines(pages, 8) + "    ...  "@ + decimal((pages.len() - 8) as nat) + " more\n"@
    } else {
        page_lines(pages, pages.len() as int)
    }
}

fn push_page(out: &mut String, p: &Page)
    ensures
        final(out)@ == old(out)@ + page_line(*p),
{
    out.append("    [");
    push_filled(out, p.index as u64, 3, ' ');
    out.append("] ");
    let text = p.describe();
    out.append(text.as_str());
    out.append("\n");
    proof {
        assert(out@ =~= old(out)@ + page_line(*p));
    }
}

fn write_inventory(doc: &Document) -> (out: String)
    ensures
        out@ == inventory(doc.pages@),
{
    let mut out = String::new();
    let n: usize = if doc.pages.len() > 8 {
        8
    } else {
        doc.pages.len()
    };
    let mut i: usize = 0;
    proof {
        assert(out@ =~= Seq::empty());
    }
    while i < n
        invariant
            i <= n <= doc.pages@.len(),
            out@ == page_lines(doc.pages@, i as int),
        decreases n - i,
    {
        push_page(&mut out, &doc.pages[i]);
        i += 1;
    }
    if doc.pages.len() > 8 {
        out.append("    ...  ");
        push_decimal(&mut out, (doc.pages.len() - 8) as u64);
        out.append(" more\n");
    }
    out
}

// ----------------------------------------------------- what is not understood

/// Some page has a field with the tag `t` that was not interpreted.
pub open spec fn is_unknown(pages: Seq<Page>, t: u8) -> bool {
    exists|i: int| 0 <= i < pages.len() && (#[trigger] pages[i]).unknown_fields@.contains(t)
}

/// The tags below `k` that were not interpreted, each once, in order.
pub open spec fn unknown_list(pages: Seq<Page>, k: int) -> Seq<char>
    decreases k,
{
    if k <= 0 {
        Seq::empty()
    } else if is_unknown(pages, (k - 1) as u8) {
        let before = unknown_list(pages, k - 1);
        (if before.len() == 0 {
            before
        } else {
            before + " "@
        }) + "0x"@ + padded(hexadecimal((k - 1) as nat), 2, '0')
    } else {
        unknown_list(pages, k - 1)
    }
}

/// The line on fields that were not interpreted.
pub open spec fn unknown_line(pages: Seq<Page>) -> Seq<char> {
    let list = unknown_list(pages, 256);
    if list.len() == 0 {
        ""@
    } else {
        "  unrecognised page fields: "@ + list + "\n"@
    }
}

fn has_unknown(pages: &Vec<Page>, t: u8) -> (r: bool)
    ensures
        r == is_unknown(pages@, t),
{
    let mut i: usize = 0;
    while i < pages.len()
        invariant
            i <= pages@.len(),
            forall|k: int|
                0 <= k < i ==> !(#[trigger] pages@[k]).unknown_fields@.contains(t),
        decreases pages@.len() - i,
    {
        let fields: &Vec<u8> = &pages[i].unknown_fields;
        let mut j: usize = 0;
        while j < fields.len()
            invariant
                i < pages@.len(),
                *fields == pages@[i as int].unknown_fields,
                j <= fields@.len(),
                forall|k: int| 0 <= k < j ==> fields@[k] != t,
            decreases fields@.len() - j,
        {
            if fields[j] == t {
                assert(pages@[i as int].unknown_fields@.contains(t));
                return true;
            }
            j += 1;
        }
        i += 1;
    }
    false
}

fn write_unknown(pages: &Vec<Page>) -> (out: String)
    ensures
        out@ == unknown_line(pages@),
{
    let mut list = String::new();
    let mut t: u16 = 0;
    proof {
        assert(list@ =~= Seq::empty());
    }
    while t < 256
        invariant
            t <= 256,
            list@ == unknown_list(pages@, t as int),
        decreases 256 - t,
    {
        if has_unknown(pages, t as u8) {
            if list.as_str().unicode_len() > 0 {
                list.append(" ");
            }
            list.append("0x");
            push_hex2(&mut list, t as u8);
        }
        t += 1;
    }
    if list.as_str().unicode_len() == 0 {
        return String::from_str("");
    }
    let mut out = String::from_str("  unrecognised page fields: ");
    out.append(list.as_str());
    out.append("\n");
    out
}

/// The lines on the first `k` document elements that were not recognised.
pub open spec fn element_lines(tags: Seq<(u8, usize, usize)>, k: int) -> Seq<char>
    decreases k,
{
    if k <= 0 {
        Seq::empty()
    } else {
        let (tag, at, len) = tags[k - 1];
        element_lines(tags, k - 1) + "  unrecognised document element 0x"@ + padded(
            hexadecimal(tag as nat),
            2,
            '0',
        ) + " at "@ + decimal(at as nat) + ", "@ + decimal(len as nat) + " B\n"@
    }
}

fn write_elements(tags: &Vec<(u8, usize, usize)>) -> (out: String)
    ensures
        out@ == element_lines(tags@, tags@.len() as int),
{
    let mut out = String::new();
    let mut i: usize = 0;
    proof {
        assert(out@ =~= Seq::empty());
    }
    while i < tags.len()
        invariant
            i <= tags@.len(),
            out@ == element_lines(tags@, i as int),
        decreases tags@.len() - i,
    {
        let (tag, at, len): (u8, usize, usize) = tags[i];
        out.append("  unrecognised document element 0x");
        push_hex2(&mut out, tag);
        out.append(" at ");
        push_decimal(&mut out, at as u64);
        out.append(", ");
        push_decimal(&mut out, len as u64);
        out.append(" B\n");
        i += 1;
    }
    out
}

/// The lines on the first `k` embedded files.
pub open spec fn attachment_lines(v: Seq<Attachment>, k: int) -> Seq<char>
    decreases k,
{
    if k <= 0 {
        Seq::empty()
    } else {
        let a = v[k - 1];
        attachment_lines(v, k - 1) + "  embedded "@ + label_of(a.kind) + " at "@ + decimal(
            a.offset as nat,
        ) + ", "@ + decimal(a.len as nat) + " B"@ + (if a.length_is_estimate {
            " (length estimated)"@
        } else {
            ""@
        }) + "\n"@
    }
}

fn write_attachments(v: &Vec<Attachment>) -> (out: String)
    ensures
        out@ == attachment_lines(v@, v@.len() as int),
{
    let mut out = String::new();
    let mut i: usize = 0;
    proof {
        assert(out@ =~= Seq::empty());
    }
    while i < v.len()
        invariant
            i <= v@.len(),
            out@ == attachment_lines(v@, i as int),
        decreases v@.len() - i,
    {
        let a: &Attachment = &v[i];
        out.append("  embedded ");
        out.append(a.kind.label());
        out.append(" at ");
        push_decimal(&mut out, a.offset as u64);
        out.append(", ");
        push_decimal(&mut out, a.len as u64);
        out.append(" B");
        if a.length_is_estimate {
            out.append(" (length estimated)");
        } else {
            out.append("");
        }
        out.append("\n");
        i += 1;
    }
    out
}

/// Everything that is said of a document.
pub open spec fn listing(name: Seq<char>, data: Seq<u8>, doc: Document, a: Analysis) -> Seq<char> {
    title_line(name, data.len(), doc) + entries_line(doc.pages@.len(), a.coverage, a.verdict)
        + recovery_lines(a.coverage) + history_lines(doc) + tables_lines(
        doc.pages@,
        data,
        doc.pages@.len() as int,
    ) + properties_line(doc.properties_len) + inventory(doc.pages@) + unknown_line(doc.pages@)
        + element_lines(doc.unknown_tags@, doc.unknown_tags@.len() as int) + attachment_lines(
        a.attachments@,
        a.attachments@.len() as int,
    ) + "\n"@
}

/// Says everything of a document: its size and generation, its entries and
/// what is recovered of them, the names it holds in the clear, an inventory of
/// its first pages, what was not understood, and the files it carries.
pub fn document_listing(name: &str, data: &[u8], doc: &Document, a: &Analysis) -> (out: String)
    ensures
        out@ == listing(name@, data@, *doc, *a),
{
    let mut out = write_title(name, data.len(), doc);
    let entries = write_entries(doc.pages.len(), &a.coverage, &a.verdict);
    out.append(entries.as_str());
    let recovery = write_recovery(&a.coverage);
    out.append(recovery.as_str());
    let history = write_history(doc);
    out.append(history.as_str());
    let tables = write_tables(doc, data);
    out.append(tables.as_str());
    let properties = write_properties(doc.properties_len);
    out.append(properties.as_str());
    let pages = write_inventory(doc);
    out.append(pages.as_str());
    let unknown = write_unknown(&doc.pages);
    out.append(unknown.as_str());
    let elements = write_elements(&doc.unknown_tags);
    out.append(elements.as_str());
    let attachments = write_attachments(&a.attachments);
    out.append(attachments.as_str());
    out.append("\n");
    out
}

} // verus!
