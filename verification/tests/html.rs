use xdw_salvage::adapters::html::page::{
    artwork, push_display_gap, push_sheet_figure, write_document, write_files,
};
use xdw_salvage::adapters::html::words::Wording;
use xdw_salvage::adapters::html::{b64, blend_attr, esc, hex, stem, Options, Outcome, Report};
use xdw_salvage::domain::attachment::{Attachment, Kind};
use xdw_salvage::domain::document::Document;
use xdw_salvage::domain::output::Language;
use xdw_salvage::domain::page::{Page, PageData, Role};
use xdw_salvage::domain::rendering::BlendMode;

#[test]
fn base64_matches_the_standard() {
    assert_eq!(b64(b""), "");
    assert_eq!(b64(b"f"), "Zg==");
    assert_eq!(b64(b"fo"), "Zm8=");
    assert_eq!(b64(b"foo"), "Zm9v");
    assert_eq!(b64(b"foob"), "Zm9vYg==");
    assert_eq!(b64(b"fooba"), "Zm9vYmE=");
    assert_eq!(b64(b"foobar"), "Zm9vYmFy");
    assert_eq!(b64(&[0xFF, 0xFF, 0xFF]), "////");
    assert_eq!(b64(&[0x00, 0x00, 0x00]), "AAAA");
}

#[test]
fn markup_in_a_text_is_written_as_text() {
    assert_eq!(esc("a<b>&\"c\""), "a&lt;b&gt;&amp;&quot;c&quot;");
    assert_eq!(esc("日本"), "日本");
}

#[test]
fn a_title_gives_a_plain_file_stem() {
    let s = stem("dir/報告 2024.xdw");
    assert!(!s.contains('/'));
    assert!(s.starts_with("報告"));
    assert!(!s.contains(' '));
}

#[test]
fn colours_and_blending_are_written_as_attributes() {
    assert_eq!(hex((255, 0, 16)), "#ff0010");
    assert_eq!(blend_attr(BlendMode::Normal), "");
    assert_eq!(
        blend_attr(BlendMode::Multiply),
        " style=\"mix-blend-mode:multiply\""
    );
}

#[test]
fn each_sheet_is_counted_as_shown_missing_or_left_out() {
    let mut r = Report::default();
    r.count(Outcome::Shown {
        glyphs: 5,
        pictures: 2,
    });
    r.count(Outcome::Gap { pictures: 1 });
    r.count(Outcome::Skipped);
    assert_eq!(
        (r.embedded, r.gaps, r.skipped, r.glyphs, r.pictures),
        (1, 1, 1, 5, 3)
    );
}

fn options() -> Options {
    Options {
        decode: true,
        lang: Language::English,
        title: None,
        include_previews: false,
        embed_originals: true,
        skip_missing: false,
        carry_source: false,
    }
}

#[test]
fn an_original_is_offered_for_download() {
    let files = vec![Attachment {
        offset: 1,
        len: 3,
        kind: Kind::Pdf,
        length_is_estimate: false,
    }];
    let (text, n) = write_files(b"xfoox", "report.xdw", &files, &options());
    assert_eq!(n, 1);
    assert!(text.contains("base64,Zm9v"));
    let mut o = options();
    o.embed_originals = false;
    let (text, n) = write_files(b"xfoox", "report.xdw", &files, &o);
    assert_eq!((text.as_str(), n), ("", 0));
    o.carry_source = true;
    let (text, n) = write_files(b"foo", "report.xdw", &files, &o);
    assert_eq!(n, 1);
    assert!(text.contains("base64,Zm9v"));
}

#[test]
fn a_document_without_sheets_says_so() {
    let words = Wording::for_lang(Language::English);
    let empty = write_document(&words, "a<b", "", "");
    assert!(empty.contains("<title>a&lt;b</title>"));
    assert!(empty.contains("No page of this document could be recovered."));
    let full = write_document(&words, "t", "<figure></figure>", "");
    assert!(!full.contains("No page of this document could be recovered."));
    assert!(full.contains("lang=\"en\""));
}

#[test]
fn a_turned_sheet_has_its_class() {
    let mut body = String::new();
    push_sheet_figure(&mut body, 90, 3, "F", "S", "<svg/>", "<span/>");
    assert!(body.contains("turn90"));
    assert!(body.contains("<svg/>") && body.contains("<span/>"));
    let mut body = String::new();
    push_display_gap(&mut body, 3, "why");
    assert!(body.contains("why"));
}

#[test]
fn pictures_of_a_lost_sheet_are_shown() {
    let page = |index: usize, role: Role, data: PageData| Page {
        index,
        role,
        belongs_to: Some(0),
        offset: 0,
        checksum: None,
        paper: None,
        pixels: Some((2, 2)),
        rotation: 0,
        overlays: Vec::new(),
        data,
        unknown_fields: Vec::new(),
    };
    let doc = Document {
        generation: 7,
        guard: [0; 4],
        trailer_tag: 0x65,
        trailer_at: 0,
        declared_entries: 2,
        pages: vec![
            page(0, Role::Sheet, PageData::Bare { offset: 0, len: 0 }),
            page(1, Role::Picture, PageData::Jpeg { offset: 0, len: 3 }),
            page(2, Role::Picture, PageData::Jpeg { offset: 0, len: 9 }),
        ],
        display_pages: Vec::new(),
        properties: None,
        properties_len: None,
        image_derived: Vec::new(),
        checksum: None,
        generations_present: 1,
        unknown_tags: Vec::new(),
        rebuilt: None,
    };
    let (text, n) = artwork(b"foo", &doc, 0, "art");
    assert_eq!(n, 1);
    assert!(text.contains("data:image/jpeg;base64,Zm9v"));
}
