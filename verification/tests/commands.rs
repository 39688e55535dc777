use xdw_salvage::adapters::{html, pdf};
use xdw_salvage::application::service::Analysis;
use xdw_salvage::application::verification::{compare, Expectation, Finding};
use xdw_salvage::commands::inventory::{
    comparison_text, manifest_rows, manifest_summary, Archive,
};
use xdw_salvage::commands::listing::document_listing;
use xdw_salvage::commands::streams::{stream_file, undecoded_streams, Index};
use xdw_salvage::commands::totals::{
    extraction_summary, html_summary, original_file, pdf_summary, picture_file, Totals,
};
use xdw_salvage::commands::{csv_field, Namer};
use xdw_salvage::domain::attachment::{Attachment, Kind};
use xdw_salvage::domain::document::{Document, Rebuilt};
use xdw_salvage::domain::page::{Page, PageData, Role};
use xdw_salvage::domain::policy::classify;

fn page(index: usize, role: Role, data: PageData) -> Page {
    Page {
        index,
        role,
        belongs_to: None,
        offset: 0,
        checksum: None,
        paper: Some((21000, 29700)),
        pixels: None,
        rotation: 0,
        overlays: Vec::new(),
        data,
        unknown_fields: Vec::new(),
    }
}

fn document(pages: Vec<Page>) -> Document {
    Document {
        generation: 7,
        guard: [0; 4],
        trailer_tag: 0x65,
        trailer_at: 0,
        declared_entries: pages.len() as u32,
        pages,
        display_pages: Vec::new(),
        properties: None,
        properties_len: None,
        image_derived: Vec::new(),
        checksum: None,
        generations_present: 1,
        unknown_tags: Vec::new(),
        rebuilt: None,
    }
}

fn analysis(doc: &Document, attachments: Vec<Attachment>) -> Analysis {
    let coverage = doc.coverage();
    Analysis {
        coverage,
        verdict: classify(coverage, !attachments.is_empty()),
        attachments,
    }
}

fn encoded(offset: usize, len: usize, expanded: Option<u64>) -> PageData {
    PageData::Encoded {
        offset,
        len,
        kind_code: 4,
        aux_len: expanded,
        method: Some(1),
        colour: None,
    }
}

#[test]
fn fields_are_quoted_where_they_must_be() {
    assert_eq!(csv_field("plain"), "plain");
    assert_eq!(csv_field("a,b"), "\"a,b\"");
    assert_eq!(csv_field("say \"hi\""), "\"say \"\"hi\"\"\"");
    assert_eq!(csv_field("two\nlines"), "\"two\nlines\"");
}

#[test]
fn a_name_is_claimed_once_and_numbered_from_then_on() {
    let mut n = Namer::default();
    assert_eq!(n.stem("Note"), "Note");
    assert_eq!(n.stem("Other"), "Other");
    assert_eq!(n.stem("Note"), "Note~2");
    assert_eq!(n.stem("Note"), "Note~3");
}

#[test]
fn undecoded_streams_are_listed_with_their_lengths() {
    let mut doc = document(vec![
        page(0, Role::Sheet, encoded(0, 4, Some(40))),
        page(1, Role::Sheet, PageData::Jpeg { offset: 0, len: 4 }),
        page(
            2,
            Role::Thumbnail,
            PageData::Preview {
                offset: 2,
                len: 24,
                pixels_at: 4,
                bpp: 1,
                palette_colours: 2,
                stored: 100,
                expanded: 9,
                rows: 1,
                method: 1,
            },
        ),
        page(3, Role::Sheet, PageData::Bare { offset: 50, len: 1 }),
        page(4, Role::Sheet, PageData::Bare { offset: 60, len: 50 }),
    ]);
    doc.properties = Some((10, 5));
    doc.properties_len = Some((5, 500));
    let data = vec![1u8; 64];
    let streams = undecoded_streams(&doc, data.len());
    let found: Vec<(&str, usize, usize, usize, Option<u64>)> = streams
        .iter()
        .map(|s| (s.role, s.idx, s.offset, s.len, s.expanded))
        .collect();
    assert_eq!(
        found,
        vec![
            ("page", 0, 0, 4, Some(40)),
            ("preview", 2, 22, 4, Some(9)),
            ("bare", 3, 50, 1, None),
            ("properties", 5, 10, 5, Some(500)),
        ]
    );
    assert_eq!(stream_file("doc", &streams[0]), "doc.0000.page.bin");
    let mut index = Index::new();
    for s in &streams {
        let name = stream_file("doc", s);
        index.add("a,b.xdw", &name, &data, s, "r");
    }
    assert_eq!((index.count, index.stored), (4, 14));
    let rows: Vec<&str> = index.csv.lines().collect();
    assert_eq!(
        rows[0],
        "path,entry,role,offset,stored,coder_header,expanded_declared,ratio,kind,method,colour"
    );
    assert_eq!(rows[1], "\"a,b.xdw\",0,page,0,4,257,40,r,4,1,");
    assert_eq!(rows[3], "\"a,b.xdw\",3,bare,50,1,257,,r,bare,,");
    let best = index.leanest.as_ref().expect("a stream with a length");
    assert_eq!(best.name, "doc.0005.properties.bin");
    assert!(best.describe("100").starts_with(
        "most compressible stream: doc.0005.properties.bin  5 -> 500 B (100x)\n"
    ));
    assert_eq!(
        index.summary("out/index.csv"),
        "4 stream(s), 14 B stored, index at out/index.csv"
    );
}

#[test]
fn a_document_is_listed_line_by_line() {
    let mut odd = page(0, Role::Sheet, PageData::Jpeg { offset: 0, len: 4 });
    odd.unknown_fields = vec![0x9A, 0x0B, 0x9A];
    let mut doc = document(vec![odd]);
    doc.unknown_tags = vec![(0x7F, 12, 3)];
    doc.generations_present = 2;
    doc.properties_len = Some((5, 500));
    let a = analysis(
        &doc,
        vec![Attachment {
            offset: 7,
            len: 9,
            kind: Kind::Pdf,
            length_is_estimate: true,
        }],
    );
    let text = document_listing("n.xdw", &[0; 32], &doc, &a);
    let lines: Vec<&str> = text.lines().collect();
    assert_eq!(lines[0], "n.xdw  32 bytes  generation 7  trailer 0x65");
    assert!(lines[1].starts_with(
        "  1 sheet(s)  [1 entries = 1 sheet + 0 picture + 0 thumbnail]   verdict "
    ));
    assert_eq!(
        lines[2],
        "  sheets recovered 1/1   pictures off those sheets 0/0 on 0 sheet(s)"
    );
    assert_eq!(
        lines[3],
        "  saved over: 2 document states present; earlier pages are still in the file"
    );
    assert_eq!(
        lines[4],
        "  properties block: 5 B stored, 500 B expanded (vendor coding)"
    );
    assert!(lines[5].starts_with("    [  0] JPEG"));
    assert_eq!(lines[6], "  unrecognised page fields: 0x0b 0x9a");
    assert_eq!(
        lines[7],
        "  unrecognised document element 0x7f at 12, 3 B"
    );
    assert!(lines[8].starts_with("  embedded ") && lines[8].ends_with(" at 7, 9 B (length estimated)"));
    assert_eq!(lines[9], "");
    doc.rebuilt = Some(Rebuilt::OffsetOutsideFile);
    assert!(document_listing("n.xdw", &[0; 32], &doc, &a).contains("\n  ! "));
}

#[test]
fn a_long_inventory_is_cut_short() {
    let pages: Vec<Page> = (0..11)
        .map(|i| page(i, Role::Sheet, PageData::Bare { offset: 0, len: 1 }))
        .collect();
    let doc = document(pages);
    let a = analysis(&doc, Vec::new());
    let text = document_listing("n", &[0; 4], &doc, &a);
    assert!(text.contains("    [  7] "));
    assert!(!text.contains("    [  8] "));
    assert!(text.contains("    ...  3 more\n"));
    assert!(text.contains("  11 sheet(s) come out blank: "));
}

#[test]
fn the_manifest_has_a_row_for_each_page() {
    let mut second = page(1, Role::Sheet, encoded(0, 1, None));
    second.paper = None;
    let doc = document(vec![
        page(0, Role::Sheet, PageData::Jpeg { offset: 0, len: 1 }),
        second,
    ]);
    let exp = Expectation::of(&doc);
    assert_eq!(
        manifest_rows("f", &doc, &exp),
        "f,1,jpeg,210.0,297.0,true\nf,2,encoded,,,false\n"
    );
    assert_eq!(
        manifest_summary("f", &exp),
        "f: a faithful conversion has 2 page(s)  (0 preview entr(y/ies) must not appear)"
    );
}

#[test]
fn a_comparison_tells_lost_pages() {
    let doc = document(vec![
        page(0, Role::Sheet, PageData::Jpeg { offset: 0, len: 1 }),
        page(1, Role::Sheet, PageData::Jpeg { offset: 0, len: 1 }),
    ]);
    let exp = Expectation::of(&doc);
    let (text, agrees) = comparison_text("f", &compare(&exp, 2, &[]));
    assert_eq!(
        text,
        "f: container 2 page(s), converted file 2 page(s)\n  OK: page counts agree\n"
    );
    assert!(agrees);
    let report = compare(&exp, 1, &[]);
    assert!(matches!(
        report.findings[0],
        Finding::PageCount {
            expected: 2,
            observed: 1
        }
    ));
    let (text, agrees) = comparison_text("f", &report);
    assert!(text.starts_with("f: container 2 page(s), converted file 1 page(s)\n  ! "));
    assert!(!agrees);
    // Pages too many do not agree either.
    let (text, agrees) = comparison_text("f", &compare(&exp, 3, &[]));
    assert!(text.starts_with("f: container 2 page(s), converted file 3 page(s)\n  ! "));
    assert!(text.ends_with("  no page is missing; see the notes above\n"));
    assert!(!agrees);
}

#[test]
fn an_archive_is_tallied_by_verdict() {
    let doc = document(vec![
        page(0, Role::Sheet, PageData::Jpeg { offset: 0, len: 1 }),
        page(1, Role::Sheet, PageData::Bare { offset: 0, len: 1 }),
    ]);
    let a = analysis(&doc, Vec::new());
    let mut archive = Archive::new();
    archive.add("one.xdw", 10, &doc, &a);
    archive.add("two.xdw", 10, &doc, &a);
    archive.add_other("three.xdw", 5, "a PDF");
    archive.add_failure();
    assert_eq!(archive.tally.len(), 2);
    assert_eq!(
        (
            archive.tally[0].files,
            archive.tally[0].sheets,
            archive.tally[0].blank
        ),
        (2, 4, 2)
    );
    assert_eq!(archive.sheets(), (4, 2));
    let rows: Vec<&str> = archive.csv.lines().collect();
    assert_eq!(rows.len(), 4);
    assert!(rows[1].starts_with("one.xdw,10,7,2,2,0,0,1,1,1,0,"));
    assert_eq!(rows[3], "three.xdw,5,,,,,,,,,,OTHER,a PDF");
    let text = archive.summary("50");
    assert!(text.contains("  OTHER          1 file(s) /       0 sheet(s) /       0 would come out blank\n"));
    assert!(text.ends_with(
        "  2 of 4 sheet(s) (50%) would come out blank\n  1 file(s) could not be read\n"
    ));
}

#[test]
fn written_files_are_named_and_counted() {
    assert_eq!(picture_file("doc", 4), "doc_p005.jpg");
    assert!(original_file("doc", 2, Kind::Pdf).starts_with("doc_original2."));
    assert_eq!(extraction_summary("f", 3, 0), "f: wrote 3 file(s)");
    assert_eq!(
        extraction_summary("f", 3, 2),
        "f: wrote 3 file(s); 2 sheet(s) left behind (vendor coding)"
    );
    let mut r = pdf::Report::default();
    r.embedded = 1;
    r.drawn = 2;
    r.placeholders = 3;
    r.glyphs = 4;
    r.pictures_placed = 5;
    r.attachments = 6;
    r.bookmarks = 7;
    assert_eq!(
        pdf_summary("f", "f.pdf", &r),
        "f -> f.pdf  (3 page(s) reproduced, 3 not, 4 character(s) of text, 5 picture(s) salvaged, 6 attachment(s), 7 bookmark(s))"
    );
    let mut h = html::Report::default();
    h.embedded = 1;
    h.gaps = 2;
    h.pictures = 3;
    h.attachments = 4;
    assert_eq!(
        html_summary("f", "f.html", &h),
        "f -> f.html  (1 page(s) reproduced, 2 not, 3 picture(s) salvaged off them, 4 file(s) carried)"
    );
    let mut t = Totals::default();
    t.add_pdf(&r);
    t.add_pdf(&r);
    assert_eq!(
        t.summary(true),
        "2 file(s): 6 page(s) reproduced, 6 not, 8 character(s) of text, 10 picture(s) salvaged"
    );
    let mut t = Totals::default();
    t.add_html(&h);
    assert_eq!(
        t.summary(false),
        "1 file(s): 1 page(s) reproduced, 2 not, 3 picture(s) salvaged"
    );
}

#[test]
fn no_two_files_get_one_name() {
    let mut n = Namer::default();
    assert_eq!(n.stem("Note"), "Note");
    assert_eq!(n.stem("Note"), "Note~2");
    assert_eq!(n.stem("Note~2"), "Note~2~2");
    assert_eq!(n.stem("Note"), "Note~3");
    let mut n = Namer::default();
    assert_eq!(n.stem("Note~2"), "Note~2");
    assert_eq!(n.stem("Note"), "Note");
    assert_eq!(n.stem("Note"), "Note~3");
}

#[test]
fn a_sheet_counts_as_pictured_by_a_picture_that_can_be_written_out() {
    let mut lost = page(1, Role::Picture, PageData::Bare { offset: 0, len: 1 });
    lost.belongs_to = Some(0);
    let sheet = page(0, Role::Sheet, PageData::Bare { offset: 0, len: 1 });
    let c = document(vec![sheet, lost]).coverage();
    assert_eq!((c.pictures, c.sheets_with_pictures, c.sheets_blank), (1, 0, 1));
    let mut kept = page(1, Role::Picture, PageData::Jpeg { offset: 0, len: 1 });
    kept.belongs_to = Some(0);
    let sheet = page(0, Role::Sheet, PageData::Bare { offset: 0, len: 1 });
    let c = document(vec![sheet, kept]).coverage();
    assert_eq!((c.pictures, c.sheets_with_pictures, c.sheets_blank), (1, 1, 0));
}

#[test]
fn the_leanest_stream_is_told_in_double_precision() {
    let stream = |len: usize, expanded: u64| {
        let doc = document(vec![page(0, Role::Sheet, encoded(0, len, Some(expanded)))]);
        undecoded_streams(&doc, 64).remove(0)
    };
    let leanest = |streams: &[(usize, u64)]| {
        let mut index = Index::new();
        for (i, &(len, expanded)) in streams.iter().enumerate() {
            let name = format!("{i}");
            index.add("f", &name, &[0; 64], &stream(len, expanded), "");
        }
        index.leanest.expect("a stream with a length").name
    };
    assert_eq!(leanest(&[(4, 40), (5, 500), (1, 99)]), "1");
    // A third is leaner than what falls short of it.
    assert_eq!(leanest(&[(3, 1), (9, 3), (6, 3)]), "2");
    // The one so far stays, of those that are told to be equal.
    let big = 1u64 << 53;
    assert_eq!((big + 1) as f64, big as f64);
    assert_eq!(leanest(&[(1, big), (1, big + 1)]), "0");
    assert_eq!(leanest(&[(1, big), (1, big + 3)]), "1");
    for (a, b) in [
        ((7, 3), (21, 9)),
        ((3, 7), (13, 31)),
        ((11, u64::MAX), (11, u64::MAX - 2047)),
        ((11, u64::MAX), (11, u64::MAX - 1023)),
        ((49, 1), (50, 1)),
        ((9, 0), (5, 0)),
    ] {
        let ratio = |s: (usize, u64)| s.1 as f64 / s.0 as f64;
        let second = ratio(b) > ratio(a);
        assert_eq!(leanest(&[a, b]), if second { "1" } else { "0" });
        let first = ratio(a) > ratio(b);
        assert_eq!(leanest(&[b, a]), if first { "1" } else { "0" });
    }
}

#[test]
fn no_two_claims_get_one_name() {
    let claims = ["Note", "Note~2", "Note", "Note~2", "Note", "Note~2~2", "Note~3", "Note~3"];
    let mut n = Namer::default();
    let names: Vec<String> = claims.iter().map(|c| n.stem(c)).collect();
    assert_eq!(
        names,
        [
            "Note", "Note~2", "Note~3", "Note~2~2", "Note~4", "Note~2~2~2", "Note~3~2",
            "Note~3~3"
        ]
    );
}
