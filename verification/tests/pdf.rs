use subsetter::GlyphRemapper;
use xdw_salvage::adapters::pdf::assembly::{display_turn, pdf_paper_size, sheet_turn};
use xdw_salvage::adapters::pdf::content::{Numbers, TextNumbers};
use xdw_salvage::adapters::pdf::fonts::{face_of, Glyphs};
use xdw_salvage::adapters::pdf::layer::draw_page;
use xdw_salvage::adapters::pdf::stack::{draw_blocks, read_blocks, BlockNumbers};
use xdw_salvage::adapters::pdf::tables::is_takeable;
use xdw_salvage::adapters::pdf::words::{colour, escape, notes, show, source_name, text_string};
use xdw_salvage::adapters::pdf::{Assembly, Lang, Missing, Options, Outcome, Writer, A4, LETTER};
use xdw_salvage::domain::attachment::{Attachment, Kind};
use xdw_salvage::domain::page::{Page, PageData, Role};
use xdw_salvage::domain::rendering::{
    BlendMode, Coord, Fill, FontKind, Hang, Length, Metafile, Text,
};
use xdw_salvage::infrastructure::ttf::Font;

fn points(size: u64) -> f64 {
    size as f64 / 1_000_000.0
}

#[test]
fn paper_boxes_match_the_print_grid_and_recover_near_a4_frames() {
    let a4 = pdf_paper_size((21_000, 29_700));
    assert!((points(a4.0) - 595.32).abs() < 0.01);
    assert!((points(a4.1) - 841.92).abs() < 0.01);

    let near_a4 = pdf_paper_size((20_997, 29_692));
    assert!((points(near_a4.0) - 595.32).abs() < 0.01);
    assert!((points(near_a4.1) - 841.92).abs() < 0.01);

    let image_frame_a4 = pdf_paper_size((20_928, 29_672));
    assert!((points(image_frame_a4.0) - 595.32).abs() < 0.01);
    assert!((points(image_frame_a4.1) - 841.92).abs() < 0.01);

    let custom = pdf_paper_size((10_000, 14_800));
    assert!((points(custom.0) - 283.44).abs() < 0.01);
    assert!((points(custom.1) - 419.52).abs() < 0.01);
}

#[test]
fn the_named_papers_have_their_sizes() {
    assert!((points(A4.0) - 595.0).abs() < 1.0);
    assert!((points(A4.1) - 842.0).abs() < 1.0);
    assert!((points(LETTER.0) - 612.0).abs() < 1.0);
    assert!((points(LETTER.1) - 792.0).abs() < 1.0);
}

#[test]
fn only_quarter_turns_are_shown() {
    assert_eq!(display_turn(450), display_turn(90));
    assert_eq!(sheet_turn(360), 0);
}

#[test]
fn literal_strings_are_escaped() {
    assert_eq!(escape("a(b)\\c"), "a\\(b\\)\\\\c");
    assert_eq!(escape("é"), "?");
    assert!(text_string("é").starts_with('<'));
    assert!(show("A", Lang::English).contains("(A)"));
    assert_eq!(colour((255, 0, 0)), "1.000 0.000 0.000");
}

#[test]
fn a_gap_is_explained_in_words() {
    let english = notes(3, Lang::English);
    assert!(!english.is_empty());
    assert!(english[0].contains('3'));
    assert!(!source_name(Some("dir/file.xdw")).contains('/'));
}

fn text_of(bytes: &[u8]) -> String {
    String::from_utf8_lossy(bytes).into_owned()
}

#[test]
fn the_cross_reference_table_finds_every_object() {
    let mut w = Writer::new();
    let a = w.reserve();
    let b = w.add("<< /Type /Catalog >>");
    let c = w.add_stream("<< /Kind /X >>", b"payload");
    w.set(a, "<< /First true >>");
    assert_eq!((a, b, c), (1, 2, 3));
    let out = w.finish(b, None);
    let text = text_of(&out);
    assert!(text.starts_with("%PDF-"));
    let start: usize = text
        .rsplit("startxref\n")
        .next()
        .and_then(|t| t.split('\n').next())
        .and_then(|n| n.parse().ok())
        .expect("an offset");
    assert_eq!(&out[start..start + 4], b"xref");
    let table = text_of(&out[start..]);
    let rows: Vec<&str> = table.lines().skip(3).take(3).collect();
    for (i, row) in rows.iter().enumerate() {
        let at: usize = row[..10].parse().expect("an offset");
        let head = format!("{} 0 obj", i + 1);
        assert_eq!(&out[at..at + head.len()], head.as_bytes());
    }
}

fn options() -> Options {
    Options {
        missing: Missing::Placeholder,
        decode: true,
        include_previews: false,
        paper: None,
        embed_originals: true,
        lang: Lang::English,
        title: Some("report.xdw".into()),
        bookmark_gaps: true,
        carry_source: false,
    }
}

#[test]
fn pages_gaps_and_attachments_go_into_the_file() {
    let mut a = Assembly::new(false);
    a.add_page(
        A4,
        0,
        "",
        "",
        "0 0 m\n",
        Outcome::Embedded {
            glyphs: 2,
            pictures: 0,
        },
    );
    let fonts = a.note_resources(Lang::English);
    a.add_page(
        A4,
        90,
        fonts.as_str(),
        "",
        "BT ET\n",
        Outcome::Gap {
            page_no: 2,
            pictures: 1,
        },
    );
    a.skip_page();
    let files = vec![Attachment {
        offset: 0,
        len: 3,
        kind: Kind::Pdf,
        length_is_estimate: false,
    }];
    let (bytes, report) = a.finish(b"foobar", &files, &options(), 3);
    assert_eq!(
        (
            report.embedded,
            report.placeholders,
            report.skipped,
            report.glyphs,
            report.attachments,
            report.bookmarks,
            report.pictures_placed
        ),
        (1, 1, 1, 2, 1, 1, 1)
    );
    let text = text_of(&bytes);
    assert!(text.contains("/Count 2 /Kids ["));
    assert!(text.contains("/Rotate 90") || text.contains("/Rotate"));
    assert!(text.contains("/Outlines"));
    assert!(text.contains("/EmbeddedFile"));
}

// ------------------------------------------------------------- the content

fn no_numbers() -> Numbers {
    Numbers {
        fills: Vec::new(),
        fill_clips: Vec::new(),
        images: Vec::new(),
        image_clips: Vec::new(),
        shapes: Vec::new(),
        shape_clips: Vec::new(),
        strokes: Vec::new(),
        paths: Vec::new(),
        texts: Vec::new(),
    }
}

fn fill(order: usize, rgb: (u8, u8, u8)) -> Fill {
    Fill {
        left: Coord::pixels(0),
        top: Coord::pixels(0),
        right: Coord::pixels(10),
        bottom: Coord::pixels(10),
        rgb,
        blend: BlendMode::Normal,
        order,
        clip: None,
        clip_path: None,
    }
}

fn run(order: usize, kind: FontKind, chars: Vec<char>) -> Text {
    Text {
        x: Coord::pixels(0),
        xs: vec![0; chars.len()],
        y: Coord::pixels(0),
        hang: Hang::Baseline,
        chars,
        font_kind: kind,
        size: Length::pixels(10),
        escapement: 0,
        rgb: (0, 0, 0),
        order,
        bold: false,
        underline: false,
    }
}

fn run_numbers(n: usize) -> TextNumbers {
    TextNumbers {
        drawn: true,
        size: "10.00".into(),
        matrix: "1.0000 0.0000 0.0000 1.0000".into(),
        xs: vec!["1.00".into(); n],
        ends: vec!["2.00".into(); n],
        y: "5.00".into(),
        bold: "0.30".into(),
        line_width: "0.50".into(),
        line_from: "1.00".into(),
        line_y: "4.00".into(),
    }
}

#[test]
fn parts_are_painted_in_the_order_of_the_source() {
    let mut m = Metafile::blank((100, 100), (1000, 1000));
    m.fills = vec![fill(2, (0, 255, 0)), fill(1, (255, 0, 0))];
    let mut n = no_numbers();
    n.fills = vec!["GREEN re f\n".into(), "RED re f\n".into()];
    let mut w = Writer::new();
    let mut xobjects = String::new();
    let painted = draw_page(
        &mut w,
        &[],
        &m,
        &n,
        &Vec::new(),
        "",
        &mut xobjects,
        None,
        Glyphs::new(None),
    );
    assert!(painted.painted);
    let red = painted.content.find("RED").expect("red");
    let green = painted.content.find("GREEN").expect("green");
    assert!(red < green);
    assert!(painted.content.contains("1.000 0.000 0.000 rg"));
}

#[test]
fn text_without_a_font_names_a_face_by_its_kind() {
    assert_ne!(
        face_of(FontKind::Latin, 'A'),
        face_of(FontKind::Japanese, 'あ')
    );
    let mut m = Metafile::blank((100, 100), (1000, 1000));
    m.text = vec![run(1, FontKind::Latin, vec!['A'])];
    let mut n = no_numbers();
    n.texts = vec![run_numbers(1)];
    let mut w = Writer::new();
    let mut xobjects = String::new();
    let painted = draw_page(
        &mut w,
        &[],
        &m,
        &n,
        &Vec::new(),
        "",
        &mut xobjects,
        None,
        Glyphs::new(None),
    );
    assert_eq!(painted.placed, 1);
    assert!(painted.content.contains("<41>"));
}

// --------------------------------------------------------- the embedded font

fn be16(v: &mut Vec<u8>, n: u16) {
    v.extend_from_slice(&n.to_be_bytes());
}

fn be32(v: &mut Vec<u8>, n: u32) {
    v.extend_from_slice(&n.to_be_bytes());
}

/// A font of four glyphs; the characters `A`, `B` and `C` have the last three.
fn font_file() -> Vec<u8> {
    let glyph: [u8; 14] = [0, 1, 0, 0, 0, 0, 0, 1, 0, 1, 0, 0, 0, 0];
    let mut cmap = Vec::new();
    be16(&mut cmap, 0);
    be16(&mut cmap, 1);
    be16(&mut cmap, 3);
    be16(&mut cmap, 10);
    be32(&mut cmap, 12);
    be16(&mut cmap, 12);
    be16(&mut cmap, 0);
    be32(&mut cmap, 28);
    be32(&mut cmap, 0);
    be32(&mut cmap, 1);
    be32(&mut cmap, 'A' as u32);
    be32(&mut cmap, 'C' as u32);
    be32(&mut cmap, 1);
    let mut glyf = Vec::new();
    let mut loca = Vec::new();
    for _ in 0..4 {
        be16(&mut loca, (glyf.len() / 2) as u16);
        glyf.extend_from_slice(&glyph);
    }
    be16(&mut loca, (glyf.len() / 2) as u16);
    let mut head = vec![0u8; 54];
    head[..4].copy_from_slice(&[0, 1, 0, 0]);
    head[18..20].copy_from_slice(&1000u16.to_be_bytes());
    let mut hhea = vec![0u8; 36];
    hhea[..4].copy_from_slice(&[0, 1, 0, 0]);
    hhea[34..36].copy_from_slice(&4u16.to_be_bytes());
    let mut hmtx = Vec::new();
    for n in [500u16, 600, 700, 800] {
        be16(&mut hmtx, n);
        be16(&mut hmtx, 0);
    }
    let mut maxp = vec![0u8; 32];
    maxp[..4].copy_from_slice(&[0, 1, 0, 0]);
    maxp[4..6].copy_from_slice(&4u16.to_be_bytes());
    let tables: Vec<(&[u8; 4], Vec<u8>)> = vec![
        (b"cmap", cmap),
        (b"glyf", glyf),
        (b"head", head),
        (b"hhea", hhea),
        (b"hmtx", hmtx),
        (b"loca", loca),
        (b"maxp", maxp),
    ];
    let mut out = Vec::new();
    be32(&mut out, 0x0001_0000);
    be16(&mut out, tables.len() as u16);
    be16(&mut out, 64);
    be16(&mut out, 2);
    be16(&mut out, 48);
    let mut at = 12 + 16 * tables.len();
    let mut body = Vec::new();
    for (tag, t) in &tables {
        out.extend_from_slice(*tag);
        be32(&mut out, 0);
        be32(&mut out, at as u32);
        be32(&mut out, t.len() as u32);
        body.extend_from_slice(t);
        at += t.len();
        while at % 4 != 0 {
            body.push(0);
            at += 1;
        }
    }
    out.extend_from_slice(&body);
    out
}

#[test]
fn a_font_maps_characters_and_measures_glyphs() {
    let font = Font::parse(font_file(), "dir/My Font.ttf").expect("a font");
    assert_eq!(font.glyph('A'), Some(1));
    assert_eq!(font.glyph('C'), Some(3));
    assert_eq!(font.glyph('D'), None);
    assert_eq!(font.width(2), 700);
    assert_eq!(font.name, "MyFont");
    assert!(Font::parse(b"OTTO....".to_vec(), "x").is_none());
}

/// A font file with other tables.
fn with_tables(file: &[u8], more: &[(&[u8; 4], Vec<u8>)]) -> Vec<u8> {
    let n = u16::from_be_bytes([file[4], file[5]]) as usize;
    let word = |at: usize| u32::from_be_bytes([file[at], file[at + 1], file[at + 2], file[at + 3]]);
    let mut tables: Vec<([u8; 4], Vec<u8>)> = (0..n)
        .map(|i| {
            let r = 12 + 16 * i;
            let (from, len) = (word(r + 8) as usize, word(r + 12) as usize);
            let tag = [file[r], file[r + 1], file[r + 2], file[r + 3]];
            (tag, file[from..from + len].to_vec())
        })
        .collect();
    for (tag, t) in more {
        tables.retain(|(known, _)| known != *tag);
        tables.push((**tag, t.clone()));
    }
    tables.sort();
    let mut out = file[..4].to_vec();
    be16(&mut out, tables.len() as u16);
    out.extend_from_slice(&[0; 6]);
    let mut at = 12 + 16 * tables.len();
    for (tag, t) in &tables {
        out.extend_from_slice(tag);
        be32(&mut out, 0);
        be32(&mut out, at as u32);
        be32(&mut out, t.len() as u32);
        at += t.len();
    }
    for (_, t) in &tables {
        out.extend_from_slice(t);
    }
    out
}

/// A table of names in Unicode, each the string of `len` octets at `off`.
fn names(records: &[(u16, u16)], strings: usize) -> Vec<u8> {
    let mut t = Vec::new();
    be16(&mut t, 0);
    be16(&mut t, records.len() as u16);
    be16(&mut t, (6 + 12 * records.len()) as u16);
    for &(off, len) in records {
        for v in [3, 1, 0x409, 1, len, off] {
            be16(&mut t, v);
        }
    }
    t.extend((0..strings).map(|i| (i % 251) as u8));
    t
}

#[test]
fn glyphs_are_taken_out_wherever_they_and_the_names_can_be_counted() {
    let m = GlyphRemapper::new();
    let good = font_file();
    assert!(is_takeable(&good, &m));
    // The order of the records is of no matter, nor is what is refused anyway.
    let mut mixed = good.clone();
    for k in 0..16 {
        mixed.swap(12 + 16 * 5 + k, 12 + 16 * 6 + k);
    }
    assert!(is_takeable(&mixed, &m));
    assert!(is_takeable(&good[..40], &m));
    // Compact outlines beside plain ones are not read.
    assert!(is_takeable(&with_tables(&good, &[(b"CFF ", vec![1, 2, 3])]), &m));
    let mut compact = good.clone();
    compact[12 + 16..12 + 16 + 4].copy_from_slice(b"CFF ");
    assert!(!is_takeable(&compact, &m));
    // It is not settled which of two tables is meant.
    let mut twice = good.clone();
    twice[12..16].copy_from_slice(b"head");
    assert!(!is_takeable(&twice, &m));
    // A string is placed once, however often it is named.
    let same: Vec<(u16, u16)> = vec![(0, 40_000); 3];
    assert!(is_takeable(&with_tables(&good, &[(b"name", names(&same, 50_000))]), &m));
    let two = [(0, 40_000), (1, 40_000)];
    assert!(!is_takeable(&with_tables(&good, &[(b"name", names(&two, 50_000))]), &m));
    let far = [(40_000, 30_000)];
    assert!(!is_takeable(&with_tables(&good, &[(b"name", names(&far, 100))]), &m));
    assert!(is_takeable(&with_tables(&good, &[(b"name", names(&[(0, 4)], 4))]), &m));
}

#[test]
fn the_parts_of_a_glyph_count_with_it() {
    let m = GlyphRemapper::new();
    // The first glyph names every number there is as a part.
    let parts = |n: u32| {
        let mut g = vec![0xFFu8, 0xFF];
        g.resize(10, 0);
        for id in 0..n {
            let more = if id + 1 < n { 0x20 } else { 0 };
            for v in [more, id as u16, 0] {
                be16(&mut g, v);
            }
        }
        g
    };
    let font = |n: u32| {
        let glyf = parts(n);
        let mut loca = Vec::new();
        for at in [0, glyf.len(), glyf.len()] {
            be32(&mut loca, at as u32);
        }
        let mut head = vec![0u8; 54];
        head[18..20].copy_from_slice(&1000u16.to_be_bytes());
        head[51] = 1;
        with_tables(&font_file(), &[(b"glyf", glyf), (b"loca", loca), (b"head", head)])
    };
    assert!(is_takeable(&font(65_535), &m));
    assert!(!is_takeable(&font(65_536), &m));
    assert!(is_takeable(&font(3), &m));
}

#[test]
fn a_font_with_names_is_cut_down() {
    let file = with_tables(&font_file(), &[(b"name", names(&[(0, 4), (0, 4)], 400))]);
    let whole = file.len();
    let font = Font::parse(file, "f.ttf").expect("a font");
    let mut glyphs = Glyphs::new(Some(&font));
    assert_eq!(
        glyphs.operand(Some(&font), FontKind::Latin, 'C'),
        Some("<0001>".to_string())
    );
    let mut w = Writer::new();
    let id = w.reserve();
    assert!(glyphs.embed(&mut w, id, &font));
    let root = w.add("<< /Type /Catalog >>");
    let text = text_of(&w.finish(root, None));
    assert!(!text.contains(&format!("/Length1 {whole} ")));
}

#[test]
fn used_glyphs_get_new_numbers_and_only_they_are_embedded() {
    let font = Font::parse(font_file(), "f.ttf").expect("a font");
    let mut glyphs = Glyphs::new(Some(&font));
    assert!(glyphs.is_empty());
    // The glyph for unknown characters keeps the number zero.
    let c = glyphs.operand(Some(&font), FontKind::Latin, 'C');
    let b = glyphs.operand(Some(&font), FontKind::Latin, 'B');
    let again = glyphs.operand(Some(&font), FontKind::Latin, 'C');
    assert_eq!(c, Some("<0001>".to_string()));
    assert_eq!(b, Some("<0002>".to_string()));
    assert_eq!(again, c);
    assert_eq!(glyphs.operand(Some(&font), FontKind::Latin, 'D'), None);
    let used: Vec<(u16, char, u16)> = glyphs
        .used()
        .iter()
        .map(|u| (u.gid, u.character, u.width))
        .collect();
    assert_eq!(used, vec![(1, 'C', 800), (2, 'B', 700)]);

    let mut w = Writer::new();
    let id = w.reserve();
    assert!(glyphs.embed(&mut w, id, &font));
    let root = w.add("<< /Type /Catalog >>");
    let text = text_of(&w.finish(root, None));
    assert!(text.contains("/FontFile2"));
    assert!(text.contains("/Length1 "));
    let length: usize = text
        .split("/Length1 ")
        .nth(1)
        .and_then(|t| t.split(|c: char| !c.is_ascii_digit()).next())
        .and_then(|n| n.parse().ok())
        .expect("a length");
    assert!(length > 0 && length < font_file().len());
}

#[test]
fn a_font_that_cannot_be_cut_down_is_embedded_whole() {
    let mut file = font_file();
    for k in 0..16 {
        file.swap(12 + 16 * 5 + k, 12 + 16 * 6 + k);
    }
    let whole = file.len();
    let font = Font::parse(file, "f.ttf").expect("a font");
    let mut glyphs = Glyphs::new(Some(&font));
    assert_eq!(
        glyphs.operand(Some(&font), FontKind::Latin, 'C'),
        Some("<0003>".to_string())
    );
    let mut w = Writer::new();
    let id = w.reserve();
    assert!(glyphs.embed(&mut w, id, &font));
    let root = w.add("<< /Type /Catalog >>");
    let text = text_of(&w.finish(root, None));
    assert!(text.contains(&format!("/Length1 {whole} ")));
}

#[test]
fn bands_of_one_picture_are_drawn_together() {
    let page = |index: usize, offset: usize| Page {
        index,
        role: Role::Picture,
        belongs_to: Some(0),
        offset: 0,
        checksum: None,
        paper: None,
        pixels: Some((20, 10)),
        rotation: 0,
        overlays: Vec::new(),
        data: PageData::Jpeg { offset, len: 3 },
        unknown_fields: Vec::new(),
    };
    let pages = vec![page(1, 0), page(2, 3), page(3, 9)];
    let runs: Vec<Vec<&Page>> = vec![vec![&pages[0], &pages[1]], vec![&pages[2]]];
    // The third picture lies outside the file, and its run is left out.
    let blocks = read_blocks(b"foobar", &runs);
    assert_eq!(blocks.len(), 1);
    assert_eq!(blocks[0].len(), 2);
    assert_eq!((blocks[0][1].offset, blocks[0][1].px), (3, (20, 10)));
    let band = || ("20.000".to_string(), "10.000".to_string(), "0.000".to_string());
    let numbers = vec![BlockNumbers {
        matrix: "1 0 0 1 5.00 6.00".into(),
        bands: vec![band(), band()],
    }];
    let mut w = Writer::new();
    let mut xobjects = String::new();
    let mut content = String::new();
    let drawn = draw_blocks(
        &mut w,
        b"foobar",
        &blocks,
        &numbers,
        &mut xobjects,
        &mut content,
    );
    assert_eq!(drawn, 2);
    assert_eq!(xobjects, "/Ar0 1 0 R /Ar1 2 0 R ");
    assert_eq!(
        content,
        "q\n1 0 0 1 5.00 6.00 cm\nq 20.000 0 0 10.000 0 0.000 cm /Ar0 Do Q\nq 20.000 0 0 10.000 0 0.000 cm /Ar1 Do Q\nQ\n"
    );
}
