use xdw_salvage::adapters::html;
use xdw_salvage::adapters::html::compose::MemberNumbers;
use xdw_salvage::adapters::html::sheets::{
    add_displays, add_sheets, finish_page, DisplayLayers, DisplayNumbers, Figures, SheetLayers,
    SheetNumbers,
};
use xdw_salvage::adapters::html::svg::{BoxNumbers, SpanNumbers, SvgNumbers};
use xdw_salvage::adapters::html::words::Wording;
use xdw_salvage::adapters::pdf;
use xdw_salvage::adapters::pdf::content::{Numbers, TextNumbers};
use xdw_salvage::adapters::pdf::fonts::Glyphs;
use xdw_salvage::adapters::plan::{
    displayed_overlays, label_behind, number_sheets, plan_sheets, SheetPlan,
};
use xdw_salvage::adapters::sheets::{
    member_layers, overlay_layers, Body, Format, MemberLayer, OverlayLayer,
};
use xdw_salvage::domain::document::{DisplayMember, DisplayPage, Document};
use xdw_salvage::domain::output::Language;
use xdw_salvage::domain::page::{Overlay, Page, PageData, Role};
use xdw_salvage::domain::rendering::{Coord, Image, Metafile, Raster, RasterOp, Source};
use xdw_salvage::infrastructure::recovery::LzhMetafileDecoder;

/// A stream in the container's coding: each run of equal octets is a block
/// whose tables hold a single code.
fn coded(raw: &[u8]) -> Vec<u8> {
    let mut bits: Vec<u8> = Vec::new();
    let mut put = |value: usize, n: usize| {
        for k in (0..n).rev() {
            bits.push(((value >> k) & 1) as u8);
        }
    };
    let mut i = 0;
    while i < raw.len() {
        let mut n = 1;
        while i + n < raw.len() && raw[i + n] == raw[i] && n < 0xFFFF {
            n += 1;
        }
        put(n, 16);
        put(0, 10);
        put(0, 9);
        put(raw[i] as usize, 9);
        put(0, 8);
        i += n;
    }
    bits.chunks(8)
        .map(|c| {
            let mut b = 0u8;
            for (k, bit) in c.iter().enumerate() {
                b |= bit << (7 - k);
            }
            b
        })
        .collect()
}

fn put_i32(v: &mut Vec<u8>, n: i32) {
    v.extend_from_slice(&n.to_le_bytes());
}

fn emf(device: (i32, i32), frame: (i32, i32), records: &[Vec<u8>]) -> Vec<u8> {
    let mut d = vec![0u8; 88];
    let mut set = |at: usize, n: i32| d[at..at + 4].copy_from_slice(&n.to_le_bytes());
    set(0, 1);
    set(4, 88);
    set(32, frame.0);
    set(36, frame.1);
    set(52, records.len() as i32 + 2);
    set(72, device.0);
    set(76, device.1);
    d[40..44].copy_from_slice(b" EMF");
    for r in records {
        d.extend_from_slice(r);
    }
    put_i32(&mut d, 14);
    put_i32(&mut d, 8);
    d
}

fn text_record(x: i32, y: i32, text: &str) -> Vec<u8> {
    let units: Vec<u16> = text.encode_utf16().collect();
    let mut r = Vec::new();
    put_i32(&mut r, 84);
    put_i32(&mut r, 0);
    r.resize(36, 0);
    put_i32(&mut r, x);
    put_i32(&mut r, y);
    put_i32(&mut r, units.len() as i32);
    put_i32(&mut r, 76);
    r.resize(72, 0);
    let at = 76 + 2 * units.len();
    put_i32(&mut r, at as i32);
    for u in &units {
        r.extend_from_slice(&u.to_le_bytes());
    }
    for _ in &units {
        put_i32(&mut r, 10);
    }
    let size = r.len() as u32;
    r[4..8].copy_from_slice(&size.to_le_bytes());
    r
}

fn rectangle_record(l: i32, t: i32, r: i32, b: i32) -> Vec<u8> {
    let mut v = Vec::new();
    for n in [43, 24, l, t, r, b] {
        put_i32(&mut v, n);
    }
    v
}

fn overlay(raw: &[u8], area: Option<(u32, u32, u32, u32)>) -> Overlay {
    Overlay {
        kind: 1,
        expanded: raw.len(),
        coded: coded(raw),
        pixels: None,
        area,
    }
}

fn page(index: usize, data: PageData, overlays: Vec<Overlay>) -> Page {
    Page {
        index,
        role: Role::Sheet,
        belongs_to: None,
        offset: 0,
        checksum: None,
        paper: Some((21000, 29700)),
        pixels: Some((2, 1)),
        rotation: 0,
        overlays,
        data,
        unknown_fields: Vec::new(),
    }
}

fn document(pages: Vec<Page>) -> Document {
    Document {
        generation: 7,
        guard: [0; 4],
        trailer_tag: 0x65,
        trailer_at: 0,
        declared_entries: 1,
        pages,
        display_pages: Vec::new(),
        properties: None,
        properties_len: None,
        image_derived: Vec::new(),
        checksum: None,
        generations_present: 1,
        unknown_tags: Vec::new(),
        rebuilt: None,
    }
}

fn encoded(data: &[u8], expanded: usize) -> PageData {
    PageData::Encoded {
        offset: 0,
        len: data.len(),
        kind_code: 4,
        aux_len: Some(expanded as u64),
        method: Some(1),
        colour: None,
    }
}


fn comment_record(body: &[u8]) -> Vec<u8> {
    let mut r = Vec::new();
    put_i32(&mut r, 70);
    put_i32(&mut r, 12 + body.len() as i32);
    put_i32(&mut r, body.len() as i32);
    r.extend_from_slice(body);
    r
}

fn letter() -> Vec<u8> {
    emf((100, 100), (21000, 29700), &[text_record(10, 20, "A")])
}

fn outline() -> Vec<u8> {
    emf((100, 100), (21000, 29700), &[rectangle_record(10, 10, 90, 90)])
}

/// A drawing that calls for the next stored picture and places it.
fn calling() -> Vec<u8> {
    let mut place = b"DWc\0".to_vec();
    let fields: [i32; 14] = [0, 0, 0, 0, 0, 0, 0, 0, 2, 1, 0, 0x00CC_0020, 100, 100];
    for v in fields {
        place.extend_from_slice(&v.to_le_bytes());
    }
    emf(
        (100, 100),
        (21000, 29700),
        &[comment_record(b"DWb\0"), comment_record(&place)],
    )
}

/// A drawing of one red pixel over the whole page.
fn painting() -> Vec<u8> {
    let mut body = Vec::new();
    let fields: [i32; 18] = [
        0, 0, 100, 100, 0, 0, 0, 0, 1, 1, 80, 40, 120, 4, 0, 0x00CC_0020, 100, 100,
    ];
    for v in fields {
        put_i32(&mut body, v);
    }
    for v in [40i32, 1, 1, 0x0018_0001, 0, 4, 0, 0, 0, 0] {
        put_i32(&mut body, v);
    }
    body.extend_from_slice(&[0, 0, 255, 0]);
    let mut record = Vec::new();
    put_i32(&mut record, 81);
    put_i32(&mut record, 8 + body.len() as i32);
    record.extend_from_slice(&body);
    emf((100, 100), (21000, 29700), &[record])
}

// --------------------------------------------------------------- the page

fn whole() -> BoxNumbers {
    BoxNumbers {
        x: "0.000".into(),
        y: "0.000".into(),
        width: "100.000".into(),
        height: "100.000".into(),
    }
}

fn svg_numbers(m: &Metafile) -> SvgNumbers {
    let boxes = |n: usize| (0..n).map(|_| whole()).collect::<Vec<_>>();
    SvgNumbers {
        place: whole(),
        view_box: "0 0 100 100".into(),
        extent: ("100".into(), "100".into()),
        fills: boxes(m.fills.len()),
        fill_clips: boxes(m.fills.len()),
        images: boxes(m.images.len()),
        image_clips: boxes(m.images.len()),
        masks: boxes(m.images.len()),
        shapes: m.shapes.iter().map(|_| "M10 10Z".to_string()).collect(),
        shape_clips: boxes(m.shapes.len()),
        strokes: m.shapes.iter().map(|_| "1".to_string()).collect(),
        paths: m.paths.iter().map(|_| "M0 0Z".to_string()).collect(),
        spans: m
            .text
            .iter()
            .map(|t| SpanNumbers {
                top: "2.000".into(),
                size: "1.000".into(),
                lefts: t.chars.iter().map(|_| "1.000".to_string()).collect(),
                turn: String::new(),
            })
            .collect(),
    }
}

fn html_options() -> html::Options {
    html::Options {
        embed_originals: false,
        ..html::Options::default()
    }
}

fn html_page(data: &[u8], doc: &Document, opts: &html::Options) -> (String, html::Report) {
    let decoder = LzhMetafileDecoder;
    let words = Wording::for_lang(opts.lang);
    let mut figures = Figures::new();
    let blank = Metafile::blank((100, 100), (21000, 29700));
    if doc.display_pages.is_empty() {
        let (selected, plans) = plan_sheets(
            data,
            doc,
            opts.include_previews,
            opts.decode,
            &decoder,
        );
        let layers: Vec<SheetLayers> = selected
            .iter()
            .map(|&k| {
                let p = &doc.pages[k];
                let paper = p.paper.unwrap_or((21000, 29700));
                let overlays = overlay_layers(Format::Html, &p.overlays, paper, &decoder);
                let numbers = overlays.iter().map(|o| svg_numbers(&o.drawing)).collect();
                sheet_layers(overlays, numbers, svg_numbers(&blank))
            })
            .collect();
        add_sheets(
            &mut figures,
            data,
            doc,
            &selected,
            &plans,
            &layers,
            opts.skip_missing,
            &words,
        );
    } else {
        let layers: Vec<DisplayLayers> = doc
            .display_pages
            .iter()
            .map(|d| {
                let members = member_layers(Format::Html, data, doc, d, opts.decode, &decoder);
                let overlays = displayed_overlays(Format::Html, d, &decoder);
                display_layers(members, overlays)
            })
            .collect();
        add_displays(
            &mut figures,
            data,
            doc,
            &layers,
            opts.skip_missing,
            &words,
            &decoder,
        );
    }
    finish_page(figures, data, &Vec::new(), opts, &words)
}

fn sheet_layers(
    overlays: Vec<OverlayLayer>,
    numbers: Vec<SvgNumbers>,
    body: SvgNumbers,
) -> SheetLayers {
    let blank = Metafile::blank((100, 100), (21000, 29700));
    SheetLayers {
        overlays,
        numbers: SheetNumbers {
            frame: "0.7071".into(),
            sheet: "0.7071".into(),
            body,
            overlays: numbers,
            label: svg_numbers(&blank),
        },
    }
}

fn display_layers(members: Vec<MemberLayer>, overlays: Vec<OverlayLayer>) -> DisplayLayers {
    let blank = Metafile::blank((100, 100), (21000, 29700));
    let numbers = DisplayNumbers {
        members: members
            .iter()
            .map(|l| MemberNumbers {
                place: whole(),
                drawing: match &l.body {
                    Body::Drawing(m) => svg_numbers(m),
                    Body::Picture => svg_numbers(&blank),
                },
            })
            .collect(),
        overlays: overlays.iter().map(|o| svg_numbers(&o.drawing)).collect(),
        ratio: "0.7071".into(),
    };
    DisplayLayers {
        members,
        overlays,
        numbers,
    }
}

fn displayed(overlays: Vec<Overlay>) -> DisplayPage {
    DisplayPage {
        paper: Some((21000, 29700)),
        rotation: 0,
        overlays,
        members: vec![DisplayMember {
            page_index: 0,
            area: None,
        }],
    }
}

#[test]
fn properties_only_text_is_not_reported_as_a_gap() {
    let mut p = page(0, PageData::Bare { offset: 0, len: 0 }, vec![overlay(&letter(), None)]);
    p.pixels = None;
    let (html, report) = html_page(&[], &document(vec![p]), &html_options());
    assert_eq!(report.embedded, 1);
    assert_eq!(report.gaps, 0);
    assert!(html.contains(">A</span>"));
    assert!(html.contains("<title>document</title>"));
    assert!(!html.contains("<h1>"));
    assert!(!html.contains("class=\"page\""));
    assert!(!html.contains("<figcaption>"));
    assert!(!html.contains("pages recovered"));
}

#[test]
fn vector_only_display_page_is_recovered_like_pdf() {
    let raw = outline();
    let data = coded(&raw);
    let mut doc = document(vec![page(0, encoded(&data, raw.len()), Vec::new())]);
    doc.display_pages = vec![displayed(Vec::new())];
    let (html, report) = html_page(&data, &doc, &html_options());
    assert_eq!(report.embedded, 1);
    assert_eq!(report.gaps, 0);
    assert!(html.contains("<path"));
}

#[test]
fn jpeg_keeps_annotation_text_above_the_image() {
    let doc = document(vec![page(
        0,
        PageData::Jpeg { offset: 0, len: 3 },
        vec![overlay(&letter(), None)],
    )]);
    let (html, report) = html_page(&[1, 2, 3], &doc, &html_options());
    assert_eq!(report.embedded, 1);
    assert_eq!(report.glyphs, 1);
    assert!(html.contains("data:image/jpeg;base64,AQID"));
    assert!(html.contains(">A</span>"));
}

#[test]
fn stored_overlay_replaces_full_sheet_display_jpeg() {
    let mut doc = document(vec![page(
        0,
        PageData::Jpeg { offset: 0, len: 3 },
        Vec::new(),
    )]);
    doc.display_pages = vec![displayed(vec![overlay(&calling(), None)])];
    let (html, report) = html_page(&[1, 2, 3], &doc, &html_options());
    assert_eq!(report.embedded, 1);
    // The picture is shown only through the drawing that calls for it.
    assert_eq!(html.matches("<img class=\"art\"").count(), 0);
    assert_eq!(html.matches("data:image/jpeg;base64,AQID").count(), 2);
    // Without the drawing it is shown itself.
    doc.display_pages = vec![displayed(Vec::new())];
    let (html, _) = html_page(&[1, 2, 3], &doc, &html_options());
    assert_eq!(html.matches("<img class=\"art\"").count(), 1);
}

fn masked_picture() -> Metafile {
    let mut m = Metafile::blank((100, 100), (21000, 29700));
    let image = |order: usize, source: Source, op: RasterOp| Image {
        left: Coord::pixels(0),
        top: Coord::pixels(0),
        right: Coord::pixels(100),
        bottom: Coord::pixels(100),
        src: (2, 1),
        source,
        raster_op: op,
        order,
        clip: None,
        clip_path: None,
    };
    let stored = |ordinal: usize| Source::Stored {
        ordinal,
        px: (2, 1),
    };
    m.images.push(image(0, stored(0), RasterOp::SourceInvert));
    m.images.push(image(1, Source::Inline(0), RasterOp::And));
    m.images.push(image(2, stored(1), RasterOp::SourceInvert));
    m.rasters.push(Raster {
        width: 2,
        height: 1,
        bits: 1,
        palette: vec![(0, 0, 0), (255, 255, 255)],
        rows: vec![0b1000_0000],
        stencil: None,
    });
    m
}

#[test]
fn masked_picture_sequence_becomes_one_svg_image() {
    let data = [1u8, 2, 3];
    let doc = document(vec![page(
        0,
        PageData::Jpeg { offset: 0, len: 3 },
        vec![overlay(&[], None)],
    )]);
    let opts = html_options();
    let words = Wording::for_lang(opts.lang);
    let (selected, plans) =
        plan_sheets(&data, &doc, false, true, &LzhMetafileDecoder);
    let m = masked_picture();
    let numbers = vec![svg_numbers(&m)];
    let overlays = vec![OverlayLayer {
        number: 0,
        drawing: m,
        area: None,
        anchored: false,
        calls_pictures: true,
    }];
    let blank = Metafile::blank((100, 100), (21000, 29700));
    let layers = vec![sheet_layers(overlays, numbers, svg_numbers(&blank))];
    let mut figures = Figures::new();
    add_sheets(
        &mut figures,
        &data,
        &doc,
        &selected,
        &plans,
        &layers,
        false,
        &words,
    );
    let (html, report) = finish_page(figures, &data, &Vec::new(), &opts, &words);
    assert_eq!(report.embedded, 1);
    // The one image is the page's own picture, so it is not counted as
    // additional artwork.
    assert_eq!(report.pictures, 0);
    assert!(html.contains("mask=\"url(#p1o0mask0)\""));
    assert_eq!(html.matches("data:image/jpeg;base64,AQID").count(), 2);
}

#[test]
fn a_lost_sheet_is_noted_or_left_out() {
    let doc = document(vec![
        page(0, PageData::Jpeg { offset: 0, len: 3 }, Vec::new()),
        page(1, PageData::Bare { offset: 0, len: 0 }, Vec::new()),
    ]);
    let mut opts = html_options();
    let (html, report) = html_page(&[1, 2, 3], &doc, &opts);
    assert_eq!((report.embedded, report.gaps, report.skipped), (1, 1, 0));
    assert!(html.contains("<figure id=\"p1\">"));
    assert!(html.contains("<section id=\"p2\" class=\"gap\">"));
    opts.skip_missing = true;
    let (html, report) = html_page(&[1, 2, 3], &doc, &opts);
    assert_eq!((report.embedded, report.gaps, report.skipped), (1, 0, 1));
    assert!(!html.contains("<section"));
}

#[test]
fn a_drawing_without_an_extent_shows_nothing() {
    let mut m = masked_picture();
    m.device = (0, 100);
    let n = svg_numbers(&m);
    let drawn = html::layer::draw_metafile(&[1, 2, 3], &m, &n, 1, "", &Vec::new(), "art");
    assert_eq!(drawn.0, "");
    assert!(!drawn.2.painted);
}

// --------------------------------------------------------------- the file

fn pdf_numbers(m: &Metafile) -> Numbers {
    let texts = |n: usize, s: &str| (0..n).map(|_| s.to_string()).collect::<Vec<_>>();
    Numbers {
        fills: texts(m.fills.len(), "0 0 1 1"),
        fill_clips: texts(m.fills.len(), "0 0 1 1"),
        images: texts(m.images.len(), "10 0 0 10 0 0"),
        image_clips: texts(m.images.len(), "0 0 1 1"),
        shapes: texts(m.shapes.len(), "1 1 m\n"),
        shape_clips: texts(m.shapes.len(), "0 0 1 1"),
        strokes: texts(m.shapes.len(), "1.00"),
        paths: texts(m.paths.len(), "0 0 m\n"),
        texts: m
            .text
            .iter()
            .map(|t| TextNumbers {
                drawn: true,
                size: "9.00".into(),
                matrix: "1.00000 0.00000 -0.00000 1.00000".into(),
                xs: texts(t.chars.len(), "5.00"),
                ends: texts(t.chars.len(), "6.00"),
                y: "7.00".into(),
                bold: "0.27".into(),
                line_width: "0.54".into(),
                line_from: "5.00".into(),
                line_y: "6.50".into(),
            })
            .collect(),
    }
}

fn layer(m: &Metafile) -> pdf::compose::LayerNumbers {
    pdf::compose::LayerNumbers {
        drawing: pdf_numbers(m),
        turn: None,
    }
}

fn place() -> pdf::compose::PlaceNumbers {
    pdf::compose::PlaceNumbers {
        width: "300.00".into(),
        height: "200.00".into(),
        x: "1.00".into(),
        y: "2.00".into(),
    }
}

fn pdf_sheets(data: &[u8], doc: &Document, opts: &pdf::Options) -> (String, pdf::Report) {
    let decoder = LzhMetafileDecoder;
    let blank = Metafile::blank((100, 100), (21000, 29700));
    let (selected, plans) = plan_sheets(
        data,
        doc,
        opts.include_previews,
        opts.decode,
        &decoder,
    );
    let layers: Vec<pdf::file::SheetLayers> = selected
        .iter()
        .enumerate()
        .map(|(i, &k)| {
            let p = &doc.pages[k];
            let paper = p.paper.unwrap_or((21000, 29700));
            let overlays = overlay_layers(Format::Pdf, &p.overlays, paper, &decoder);
            let body = match &plans[i] {
                xdw_salvage::adapters::plan::SheetPlan::Drawing(m) => layer(m),
                _ => layer(&blank),
            };
            pdf::file::SheetLayers {
                numbers: pdf::sheets::SheetNumbers {
                    natural: pdf::A4,
                    body,
                    place: place(),
                    overlays: overlays.iter().map(|o| layer(&o.drawing)).collect(),
                    label: None,
                    blocks: Vec::new(),
                    note: "BT /FA 10.00 Tf (lost) Tj ET\n".into(),
                },
                overlays,
            }
        })
        .collect();
    let mut a = pdf::Assembly::new(false);
    let glyphs = pdf::file::add_sheets(
        &mut a,
        Glyphs::new(None),
        data,
        doc,
        &selected,
        &plans,
        &layers,
        opts,
        None,
    );
    let (bytes, report) = pdf::file::finish_file(
        a,
        &glyphs,
        data,
        None,
        &Vec::new(),
        opts,
        selected.len(),
        "",
    )
    .expect("a file");
    (bytes.iter().map(|&b| b as char).collect(), report)
}

#[test]
fn pictures_drawings_and_gaps_become_pages_in_order() {
    let raw = letter();
    let mut data = coded(&raw);
    let drawing = encoded(&data, raw.len());
    let at = data.len();
    data.extend_from_slice(&[1, 2, 3]);
    let doc = document(vec![
        page(0, PageData::Jpeg { offset: at, len: 3 }, Vec::new()),
        page(1, drawing, Vec::new()),
        page(2, PageData::Bare { offset: 0, len: 0 }, Vec::new()),
    ]);
    let mut opts = pdf::Options {
        embed_originals: false,
        ..pdf::Options::default()
    };
    let (text, report) = pdf_sheets(&data, &doc, &opts);
    assert_eq!((report.embedded, report.drawn, report.placeholders), (1, 1, 1));
    assert_eq!((report.glyphs, report.skipped, report.bookmarks), (1, 0, 1));
    assert!(text.contains("/Count 3 /Kids"));
    assert!(text.contains("q 300.00 0 0 200.00 1.00 2.00 cm /Im0 Do Q"));
    // The picture goes into the file as it is.
    assert!(text.contains("/Filter /DCTDecode"));
    assert!(text.contains("\nstream\n\u{1}\u{2}\u{3}\nendstream"));
    assert!(text.contains("BT /FM 9.00 Tf"));
    assert!(text.contains("(lost) Tj"));
    assert!(text.contains("/Title (Page 3 not recovered)"));
    assert!(text.contains("recovered 2 of 3 page\\(s\\)") || text.contains("recovered 2 of 3 page(s)"));
    opts.missing = pdf::Missing::Skip;
    let (text, report) = pdf_sheets(&data, &doc, &opts);
    assert_eq!((report.placeholders, report.skipped), (0, 1));
    assert!(text.contains("/Count 2 /Kids"));
}

#[test]
fn an_overlay_that_places_pictures_is_the_page() {
    let doc = document(vec![page(
        0,
        PageData::Jpeg { offset: 0, len: 3 },
        vec![overlay(&calling(), None)],
    )]);
    let opts = pdf::Options {
        embed_originals: false,
        ..pdf::Options::default()
    };
    let (text, report) = pdf_sheets(&[1, 2, 3], &doc, &opts);
    assert_eq!((report.embedded, report.pictures_placed), (1, 0));
    assert!(!text.contains("/Im0"));
    assert!(text.contains("/O0Pc0 Do"));
}

#[test]
fn an_empty_document_still_has_a_page() {
    let (text, report) = pdf_sheets(&[], &document(Vec::new()), &pdf::Options::default());
    assert!(text.contains("/Count 1 /Kids"));
    assert!(text.contains("/MediaBox [0 0 595.32 841.92]"));
    assert_eq!(report, pdf::Report::default());
}

#[test]
fn a_displayed_page_shows_its_bodies_and_overlays() {
    let raw = outline();
    let data = coded(&raw);
    let mut doc = document(vec![page(0, encoded(&data, raw.len()), Vec::new())]);
    doc.display_pages = vec![displayed(vec![overlay(&letter(), None)]), displayed(Vec::new())];
    doc.display_pages[1].members[0].page_index = 9;
    let opts = pdf::Options {
        embed_originals: false,
        ..pdf::Options::default()
    };
    let decoder = LzhMetafileDecoder;
    let layers: Vec<pdf::file::DisplayLayers> = doc
        .display_pages
        .iter()
        .map(|d| {
            let members = member_layers(Format::Pdf, &data, &doc, d, true, &decoder);
            let overlays = displayed_overlays(Format::Pdf, d, &decoder);
            let numbers = pdf::pages::DisplayNumbers {
                members: members
                    .iter()
                    .map(|l| pdf::compose::MemberNumbers {
                        place: place(),
                        layer: match &l.body {
                            Body::Drawing(m) => layer(m),
                            Body::Picture => layer(&Metafile::blank((1, 1), (1, 1))),
                        },
                    })
                    .collect(),
                overlays: overlays.iter().map(|o| layer(&o.drawing)).collect(),
                note: "BT /FA 10.00 Tf (lost) Tj ET\n".into(),
            };
            pdf::file::DisplayLayers {
                members,
                overlays,
                numbers,
            }
        })
        .collect();
    assert_eq!(layers[0].members.len(), 1);
    assert_eq!(layers[1].members.len(), 0);
    let mut a = pdf::Assembly::new(false);
    let glyphs = pdf::file::add_displays(
        &mut a,
        Glyphs::new(None),
        &data,
        &doc,
        &layers,
        &opts,
        None,
        &decoder,
    );
    let (bytes, report) =
        pdf::file::finish_file(a, &glyphs, &data, None, &Vec::new(), &opts, 2, "").expect("a file");
    let text: String = bytes.iter().map(|&b| b as char).collect();
    assert_eq!((report.drawn, report.placeholders, report.glyphs), (1, 1, 1));
    let shape = text.find("1 1 m").expect("the outline");
    let run = text.find("BT /FM 9.00 Tf").expect("the text");
    assert!(shape < run);
    assert!(text.contains("(lost) Tj"));
}

#[test]
fn text_after_a_page_in_english_finds_its_japanese_faces() {
    let mut a = pdf::Assembly::new(true);
    let note = a.note_resources(Language::English);
    assert_eq!(note, "/FA 3 0 R");
    let text = a.text_resources(Language::Japanese);
    assert_eq!(text, "/FA 2 0 R /FJ 7 0 R /FM 11 0 R /FP 15 0 R /FG 19 0 R");
    // They are made once.
    assert_eq!(a.text_resources(Language::Japanese), text);
    assert_eq!(
        a.note_resources(Language::English),
        "/FA 3 0 R /FJ 7 0 R /FM 11 0 R /FP 15 0 R /FG 19 0 R"
    );
    let mut a = pdf::Assembly::new(true);
    assert_eq!(
        a.note_resources(Language::Japanese),
        "/FA 3 0 R /FJ 7 0 R /FM 11 0 R /FP 15 0 R /FG 19 0 R"
    );
    assert_eq!(
        a.text_resources(Language::Japanese),
        "/FA 2 0 R /FJ 7 0 R /FM 11 0 R /FP 15 0 R /FG 19 0 R"
    );
}

#[test]
fn a_note_in_english_does_not_keep_a_drawing_from_its_faces() {
    let raw = letter();
    let data = coded(&raw);
    let doc = document(vec![
        page(0, PageData::Bare { offset: 0, len: 0 }, Vec::new()),
        page(1, encoded(&data, raw.len()), Vec::new()),
    ]);
    let opts = pdf::Options {
        embed_originals: false,
        lang: Language::English,
        ..pdf::Options::default()
    };
    let (text, report) = pdf_sheets(&data, &doc, &opts);
    assert_eq!((report.drawn, report.placeholders), (1, 1));
    assert!(text.contains("/FJ "));
    assert!(text.contains("BT /FM 9.00 Tf"));
}

#[test]
fn overlays_stand_for_a_lost_sheet_even_where_gaps_are_left_out() {
    let doc = document(vec![
        page(0, PageData::Bare { offset: 0, len: 0 }, vec![overlay(&letter(), None)]),
        page(1, PageData::Bare { offset: 0, len: 0 }, Vec::new()),
    ]);
    let opts = pdf::Options {
        embed_originals: false,
        missing: pdf::Missing::Skip,
        ..pdf::Options::default()
    };
    let (text, report) = pdf_sheets(&[], &doc, &opts);
    assert_eq!((report.drawn, report.skipped), (1, 1));
    assert!(text.contains("/Count 1 /Kids"));
    let mut page_opts = html_options();
    page_opts.skip_missing = true;
    let (_, report) = html_page(&[], &doc, &page_opts);
    assert_eq!((report.embedded, report.skipped), (1, 1));
}

#[test]
fn a_page_is_recovered_in_html_as_it_is_in_a_pdf() {
    // A body in the bare coding is redrawn.
    let raw = outline();
    let data = coded(&raw);
    let bare = PageData::Bare {
        offset: 0,
        len: data.len(),
    };
    let mut doc = document(vec![page(0, bare, Vec::new())]);
    let (_, plans) = plan_sheets(&data, &doc, false, true, &LzhMetafileDecoder);
    let drawn = matches!(plans[0], SheetPlan::Drawing(_));
    let (_, report) = html_page(&data, &doc, &html_options());
    assert_eq!(report.embedded, usize::from(drawn));
    // Overlays need no body to lie on.
    doc.display_pages = vec![DisplayPage {
        members: Vec::new(),
        ..displayed(vec![overlay(&letter(), None)])
    }];
    let (html, report) = html_page(&data, &doc, &html_options());
    assert_eq!((report.embedded, report.gaps), (1, 0));
    assert!(html.contains(">A</span>"));
    // A page that has nothing to show is a page.
    doc.display_pages = vec![DisplayPage {
        members: Vec::new(),
        ..displayed(Vec::new())
    }];
    let (_, report) = html_page(&data, &doc, &html_options());
    assert_eq!((report.embedded, report.gaps), (1, 0));
}

#[test]
fn leaving_gaps_out_changes_nothing_else() {
    let raw = letter();
    let data = coded(&raw);
    let doc = document(vec![
        page(0, encoded(&data, raw.len()), Vec::new()),
        page(1, PageData::Bare { offset: 0, len: 0 }, Vec::new()),
        page(2, PageData::Bare { offset: 0, len: 0 }, Vec::new()),
    ]);
    let mut opts = html_options();
    let (_, noting) = html_page(&data, &doc, &opts);
    opts.skip_missing = true;
    let (_, skipping) = html_page(&data, &doc, &opts);
    assert_eq!(
        (skipping.embedded, skipping.glyphs, skipping.attachments),
        (noting.embedded, noting.glyphs, noting.attachments)
    );
    assert_eq!((skipping.skipped, skipping.gaps), (2, 0));
    assert_eq!((noting.skipped, noting.gaps), (0, 2));
}

#[test]
fn sheets_are_numbered_without_their_labels() {
    let m = || Metafile::blank((1, 1), (1, 1));
    let plans = vec![
        SheetPlan::Picture {
            offset: 0,
            len: 1,
            overlaid: false,
        },
        SheetPlan::Label(m()),
        SheetPlan::Missing { overlaid: false },
        SheetPlan::Drawing(m()),
    ];
    assert_eq!(number_sheets(&plans), (vec![1, 1, 2, 3], 3));
    assert!(label_behind(&plans, 0).is_some());
    assert!(label_behind(&plans, 1).is_none());
    assert!(label_behind(&plans, 3).is_none());
}

#[test]
fn the_fonts_of_a_note_are_made_before_the_overlays_of_a_lost_sheet() {
    let doc = document(vec![page(
        0,
        PageData::Bare { offset: 0, len: 0 },
        vec![overlay(&painting(), None)],
    )]);
    let mut opts = pdf::Options {
        embed_originals: false,
        ..pdf::Options::default()
    };
    let (text, report) = pdf_sheets(&[], &doc, &opts);
    assert_eq!((report.drawn, report.placeholders), (1, 0));
    let font = text.find("/Type /Font").expect("a font");
    let picture = text.find("/Subtype /Image").expect("a picture");
    assert!(font < picture);
    // Where no note can come, they are made when the page is.
    opts.missing = pdf::Missing::Skip;
    let (text, report) = pdf_sheets(&[], &doc, &opts);
    assert_eq!((report.drawn, report.skipped), (1, 0));
    let font = text.find("/Type /Font").expect("a font");
    let picture = text.find("/Subtype /Image").expect("a picture");
    assert!(picture < font);
}
