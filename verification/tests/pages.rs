use xdw_salvage::adapters::drawing::Pictures;
use xdw_salvage::adapters::html::layer::draw_metafile;
use xdw_salvage::adapters::html::svg::{BoxNumbers, SpanNumbers, SvgNumbers};
use xdw_salvage::adapters::html::{HtmlDrawn, CSS};
use xdw_salvage::adapters::plan::{plan_sheets, SheetPlan};
use xdw_salvage::adapters::sheets::{
    component_rotation, covers_frame, group_of, member_layers, overlay_layers, selected_pages,
    serial_label, Body, Format,
};
use xdw_salvage::application::recovery::{
    area_covers_paper, coverage, decode_page, page_body_replaced_by_vector_overlay,
    page_is_recoverable,
};
use xdw_salvage::domain::document::{DisplayMember, DisplayPage, Document};
use xdw_salvage::domain::page::{Overlay, Page, PageData, Role};
use xdw_salvage::domain::rendering::{
    Coord, Image, Metafile, Raster, RasterOp, Source,
};
use xdw_salvage::infrastructure::recovery::LzhMetafileDecoder;

// ---------------------------------------------------------- what is decoded

/// A stream in the container's coding: each run of equal octets is a block
/// whose tables hold a single code.
fn coded(raw: &[u8]) -> Vec<u8> {
    let mut bits: Vec<u8> = Vec::new();
    let mut put = |value: usize, n: usize| {
        for k in (0..n).rev() {
            bits.push(((value >> k) & 1) as u8);
        }
    };
    let mut i = 0;
    while i < raw.len() {
        let mut n = 1;
        while i + n < raw.len() && raw[i + n] == raw[i] && n < 0xFFFF {
            n += 1;
        }
        put(n, 16);
        put(0, 10);
        put(0, 9);
        put(raw[i] as usize, 9);
        put(0, 8);
        i += n;
    }
    bits.chunks(8)
        .map(|c| {
            let mut b = 0u8;
            for (k, bit) in c.iter().enumerate() {
                b |= bit << (7 - k);
            }
            b
        })
        .collect()
}

fn put_i32(v: &mut Vec<u8>, n: i32) {
    v.extend_from_slice(&n.to_le_bytes());
}

fn emf(device: (i32, i32), frame: (i32, i32), records: &[Vec<u8>]) -> Vec<u8> {
    let mut d = vec![0u8; 88];
    let mut set = |at: usize, n: i32| d[at..at + 4].copy_from_slice(&n.to_le_bytes());
    set(0, 1);
    set(4, 88);
    set(32, frame.0);
    set(36, frame.1);
    set(52, records.len() as i32 + 2);
    set(72, device.0);
    set(76, device.1);
    d[40..44].copy_from_slice(b" EMF");
    for r in records {
        d.extend_from_slice(r);
    }
    put_i32(&mut d, 14);
    put_i32(&mut d, 8);
    d
}

fn text_record(x: i32, y: i32, text: &str) -> Vec<u8> {
    let units: Vec<u16> = text.encode_utf16().collect();
    let mut r = Vec::new();
    put_i32(&mut r, 84);
    put_i32(&mut r, 0);
    r.resize(36, 0);
    put_i32(&mut r, x);
    put_i32(&mut r, y);
    put_i32(&mut r, units.len() as i32);
    put_i32(&mut r, 76);
    r.resize(72, 0);
    let at = 76 + 2 * units.len();
    put_i32(&mut r, at as i32);
    for u in &units {
        r.extend_from_slice(&u.to_le_bytes());
    }
    for _ in &units {
        put_i32(&mut r, 10);
    }
    let size = r.len() as u32;
    r[4..8].copy_from_slice(&size.to_le_bytes());
    r
}

fn rectangle_record(l: i32, t: i32, r: i32, b: i32) -> Vec<u8> {
    let mut v = Vec::new();
    for n in [43, 24, l, t, r, b] {
        put_i32(&mut v, n);
    }
    v
}

fn overlay(raw: &[u8], area: Option<(u32, u32, u32, u32)>) -> Overlay {
    Overlay {
        kind: 1,
        expanded: raw.len(),
        coded: coded(raw),
        pixels: None,
        area,
    }
}

fn page(index: usize, data: PageData, overlays: Vec<Overlay>) -> Page {
    Page {
        index,
        role: Role::Sheet,
        belongs_to: None,
        offset: 0,
        checksum: None,
        paper: Some((21000, 29700)),
        pixels: Some((2, 1)),
        rotation: 0,
        overlays,
        data,
        unknown_fields: Vec::new(),
    }
}

fn document(pages: Vec<Page>) -> Document {
    Document {
        generation: 7,
        guard: [0; 4],
        trailer_tag: 0x65,
        trailer_at: 0,
        declared_entries: 1,
        pages,
        display_pages: Vec::new(),
        properties: None,
        properties_len: None,
        image_derived: Vec::new(),
        checksum: None,
        generations_present: 1,
        unknown_tags: Vec::new(),
        rebuilt: None,
    }
}

fn encoded(data: &[u8], expanded: usize) -> PageData {
    PageData::Encoded {
        offset: 0,
        len: data.len(),
        kind_code: 4,
        aux_len: Some(expanded as u64),
        method: Some(1),
        colour: None,
    }
}

fn letter() -> Vec<u8> {
    emf((100, 100), (21000, 29700), &[text_record(10, 20, "A")])
}

fn outline() -> Vec<u8> {
    emf((100, 100), (21000, 29700), &[rectangle_record(1, 2, 30, 40)])
}

#[test]
fn a_coded_drawing_is_decoded_with_its_text() {
    let raw = letter();
    let data = coded(&raw);
    let p = page(0, encoded(&data, raw.len()), Vec::new());
    let m = decode_page(&data, &p, &LzhMetafileDecoder).expect("a drawing");
    assert_eq!(m.device, (100, 100));
    assert_eq!(m.text.len(), 1);
    assert_eq!(m.text[0].chars, vec!['A']);
    let doc = document(vec![p]);
    assert!(page_is_recoverable(&data, &doc.pages[0], &doc, &LzhMetafileDecoder));
    assert_eq!(coverage(&data, &doc, &LzhMetafileDecoder).sheets_recovered, 1);
}

#[test]
fn double_byte_text_is_read_in_the_japanese_code_page() {
    let mut r = Vec::new();
    put_i32(&mut r, 83);
    put_i32(&mut r, 0);
    r.resize(36, 0);
    put_i32(&mut r, 10);
    put_i32(&mut r, 20);
    put_i32(&mut r, 3);
    put_i32(&mut r, 76);
    r.resize(72, 0);
    put_i32(&mut r, 80);
    r.extend_from_slice(&[0x93, 0xFA, b'a', 0]);
    for n in [7, 8, 5] {
        put_i32(&mut r, n);
    }
    let size = r.len() as u32;
    r[4..8].copy_from_slice(&size.to_le_bytes());
    let raw = emf((100, 100), (21000, 29700), &[r]);
    let data = coded(&raw);
    let p = page(0, encoded(&data, raw.len()), Vec::new());
    let m = decode_page(&data, &p, &LzhMetafileDecoder).expect("a drawing");
    assert_eq!(m.text[0].chars, vec!['日', 'a']);
    // The second character stands behind both halves of the first.
    assert_eq!(m.text[0].xs[1] - m.text[0].xs[0], 4 * 15);
}

#[test]
fn a_stream_that_is_cut_off_decodes_to_nothing() {
    let raw = letter();
    let data = coded(&raw);
    let p = page(0, encoded(&data[..20], raw.len()), Vec::new());
    assert!(decode_page(&data[..20], &p, &LzhMetafileDecoder).is_none());
}

// ----------------------------------------------------------- what is shown

fn thumbnail_body(width: u32, height: u32) -> Metafile {
    let mut m = Metafile::blank((width as i32, height as i32), (21000, 29700));
    m.images.push(Image {
        left: Coord::pixels(0),
        top: Coord::pixels(0),
        right: Coord::pixels(width),
        bottom: Coord::pixels(height),
        src: (width, height),
        source: Source::Inline(0),
        raster_op: RasterOp::Copy,
        order: 0,
        clip: None,
        clip_path: None,
    });
    m.rasters.push(Raster {
        width,
        height,
        bits: 8,
        palette: Vec::new(),
        rows: Vec::new(),
        stencil: None,
    });
    m
}

fn full_sheet_overlay() -> Overlay {
    overlay(&letter(), Some((0, 0, 21000, 29700)))
}

#[test]
fn thumbnail_page_body_is_replaced_by_full_sheet_vector_overlay() {
    assert!(page_body_replaced_by_vector_overlay(
        &thumbnail_body(104, 146),
        &[full_sheet_overlay()],
        (21000, 29700),
        &LzhMetafileDecoder,
    ));
}

#[test]
fn page_sized_bitmap_is_not_replaced_by_vector_overlay() {
    assert!(!page_body_replaced_by_vector_overlay(
        &thumbnail_body(2480, 3508),
        &[full_sheet_overlay()],
        (21000, 29700),
        &LzhMetafileDecoder,
    ));
}

#[test]
fn an_area_covers_the_paper_when_no_edge_is_left_out() {
    assert!(area_covers_paper((0, 0, 21000, 29700), (21000, 29700)));
    assert!(!area_covers_paper((5000, 0, 16000, 29700), (21000, 29700)));
}

#[test]
fn a_sheet_with_only_an_overlay_is_planned_as_missing_but_overlaid() {
    let doc = document(vec![page(
        0,
        PageData::Bare { offset: 0, len: 0 },
        vec![overlay(&letter(), None)],
    )]);
    let (selected, plans) = plan_sheets(&[], &doc, false, true, &LzhMetafileDecoder);
    assert_eq!(selected, vec![0]);
    assert!(matches!(plans[0], SheetPlan::Missing { overlaid: true }));
    let (_, plans) = plan_sheets(&[], &document(vec![page(
        0,
        PageData::Bare { offset: 0, len: 0 },
        Vec::new(),
    )]), false, true, &LzhMetafileDecoder);
    assert!(matches!(plans[0], SheetPlan::Missing { overlaid: false }));
}

#[test]
fn a_stored_picture_is_planned_as_a_picture_and_a_drawing_as_a_drawing() {
    let raw = outline();
    let data = coded(&raw);
    let doc = document(vec![
        page(0, PageData::Jpeg { offset: 0, len: 3 }, Vec::new()),
        page(1, encoded(&data, raw.len()), Vec::new()),
    ]);
    let (selected, plans) = plan_sheets(&data, &doc, false, true, &LzhMetafileDecoder);
    assert_eq!(selected, vec![0, 1]);
    assert!(matches!(
        plans[0],
        SheetPlan::Picture {
            offset: 0,
            len: 3,
            overlaid: false
        }
    ));
    match &plans[1] {
        SheetPlan::Drawing(m) => assert_eq!(m.shapes.len(), 1),
        _ => panic!("the drawing is shown"),
    }
    let (_, plans) = plan_sheets(&data, &doc, false, false, &LzhMetafileDecoder);
    assert!(matches!(plans[1], SheetPlan::Missing { overlaid: false }));
}

#[test]
fn a_displayed_drawing_is_a_layer_of_its_page() {
    let raw = outline();
    let data = coded(&raw);
    let mut doc = document(vec![page(0, encoded(&data, raw.len()), Vec::new())]);
    doc.display_pages = vec![DisplayPage {
        paper: Some((21000, 29700)),
        rotation: 0,
        overlays: Vec::new(),
        members: vec![DisplayMember {
            page_index: 0,
            area: None,
        }],
    }];
    let layers = member_layers(
        Format::Html,
        &data,
        &doc,
        &doc.display_pages[0],
        true,
        &LzhMetafileDecoder,
    );
    assert_eq!(layers.len(), 1);
    match &layers[0].body {
        Body::Drawing(m) => assert_eq!(m.shapes.len(), 1),
        Body::Picture => panic!("a drawing"),
    }
}

#[test]
fn thumbnails_are_left_out_unless_asked_for() {
    let mut thumb = page(1, PageData::Jpeg { offset: 0, len: 1 }, Vec::new());
    thumb.role = Role::Thumbnail;
    thumb.belongs_to = Some(0);
    let doc = document(vec![
        page(0, PageData::Jpeg { offset: 0, len: 1 }, Vec::new()),
        thumb,
    ]);
    assert_eq!(selected_pages(&doc, false), vec![0]);
    assert_eq!(selected_pages(&doc, true), vec![0, 1]);
}

#[test]
fn the_pictures_of_a_sheet_are_its_group() {
    let mut picture = page(1, PageData::Jpeg { offset: 0, len: 1 }, Vec::new());
    picture.role = Role::Picture;
    picture.belongs_to = Some(0);
    let doc = document(vec![
        page(0, PageData::Jpeg { offset: 0, len: 1 }, Vec::new()),
        picture,
    ]);
    let group = group_of(&doc, &doc.pages[0]);
    assert!(group.iter().any(|p| p.index == 1));
}

#[test]
fn a_part_turned_on_its_side_is_turned_back() {
    assert_eq!(component_rotation((21000, 29700), true, 90), 90);
    assert_eq!(component_rotation((29700, 21000), true, 0), 0);
    assert!(!covers_frame(None, (21000, 29700)));
    assert!(covers_frame(Some((0, 0, 21000, 29700)), (21000, 29700)));
    assert!(!covers_frame(Some((0, 0, 100, 100)), (21000, 29700)));
}

#[test]
fn an_annotation_becomes_a_layer_with_its_place() {
    let area = Some((100, 200, 300, 400));
    let layers = overlay_layers(
        Format::Pdf,
        &vec![overlay(&letter(), area)],
        (21000, 29700),
        &LzhMetafileDecoder,
    );
    assert_eq!(layers.len(), 1);
    assert_eq!(layers[0].number, 0);
    assert_eq!(layers[0].area, area);
    assert!(!layers[0].calls_pictures);
}

#[test]
fn a_drawing_without_text_is_no_serial_label() {
    let raw = outline();
    let data = coded(&raw);
    let p = page(0, encoded(&data, raw.len()), Vec::new());
    let m = decode_page(&data, &p, &LzhMetafileDecoder).expect("a drawing");
    assert!(!serial_label(&m));
}

// ------------------------------------------------------------- the markup

fn no_box() -> BoxNumbers {
    BoxNumbers {
        x: String::new(),
        y: String::new(),
        width: String::new(),
        height: String::new(),
    }
}

fn numbers() -> SvgNumbers {
    SvgNumbers {
        place: BoxNumbers {
            x: "0.00".into(),
            y: "0.00".into(),
            width: "100.00".into(),
            height: "100.00".into(),
        },
        view_box: "0 0 100 100".into(),
        extent: ("100".into(), "100".into()),
        fills: Vec::new(),
        fill_clips: Vec::new(),
        images: Vec::new(),
        image_clips: Vec::new(),
        masks: Vec::new(),
        shapes: Vec::new(),
        shape_clips: Vec::new(),
        strokes: Vec::new(),
        paths: Vec::new(),
        spans: Vec::new(),
    }
}

#[test]
fn text_becomes_a_span_and_white_space_does_not() {
    let raw = emf((100, 100), (21000, 29700), &[text_record(10, 20, "A <")]);
    let data = coded(&raw);
    let p = page(0, encoded(&data, raw.len()), Vec::new());
    let m = decode_page(&data, &p, &LzhMetafileDecoder).expect("a drawing");
    let mut n = numbers();
    n.spans = vec![SpanNumbers {
        top: "2.00".into(),
        size: "1.00".into(),
        lefts: vec!["1.00".into(), "2.00".into(), "3.00".into()],
        turn: String::new(),
    }];
    let (svg, spans, drawn) = draw_metafile(&data, &m, &n, 1, "o0", &Vec::new(), "page 1");
    assert!(svg.starts_with("<svg class=\"art\" style=\"left:0.00%;"));
    assert!(svg.ends_with("</svg>\n"));
    assert_eq!(
        spans,
        "<span style=\"left:1.00%;top:2.00%;font-size:1.00cqh;\">A</span><span style=\"left:3.00%;top:2.00%;font-size:1.00cqh;\">&lt;</span>\n"
    );
    assert_eq!(
        drawn,
        HtmlDrawn {
            glyphs: 2,
            pictures: 0,
            painted: true
        }
    );
}

#[test]
fn an_outline_becomes_a_path() {
    let raw = outline();
    let data = coded(&raw);
    let p = page(0, encoded(&data, raw.len()), Vec::new());
    let m = decode_page(&data, &p, &LzhMetafileDecoder).expect("a drawing");
    let mut n = numbers();
    n.shapes = vec!["M1 2 L30 2 L30 40 L1 40 Z".into()];
    n.shape_clips = vec![no_box()];
    n.strokes = vec!["1".into()];
    let (svg, _, drawn) = draw_metafile(&data, &m, &n, 1, "", &Vec::new(), "page 1");
    assert!(svg.contains("<path d=\"M1 2 L30 2 L30 40 L1 40 Z\" fill=\""));
    assert!(drawn.painted);
}

fn masked_picture() -> Metafile {
    let mut m = Metafile::blank((100, 100), (21000, 29700));
    let image = |order: usize, source: Source, op: RasterOp| Image {
        left: Coord::pixels(0),
        top: Coord::pixels(0),
        right: Coord::pixels(2),
        bottom: Coord::pixels(1),
        src: (2, 1),
        source,
        raster_op: op,
        order,
        clip: None,
        clip_path: None,
    };
    let stored = |ordinal: usize| Source::Stored {
        ordinal,
        px: (2, 1),
    };
    m.images.push(image(1, stored(0), RasterOp::SourceInvert));
    m.images.push(image(2, Source::Inline(0), RasterOp::And));
    m.images.push(image(3, stored(1), RasterOp::SourceInvert));
    m.rasters.push(Raster {
        width: 2,
        height: 1,
        bits: 1,
        palette: vec![(0, 0, 0), (255, 255, 255)],
        rows: vec![0b0100_0000],
        stencil: Some((0, 0, 0)),
    });
    m
}

#[test]
fn a_masked_sequence_of_three_becomes_one_image() {
    let m = masked_picture();
    let p = page(0, PageData::Jpeg { offset: 0, len: 3 }, Vec::new());
    let stored = vec![&p];
    let pictures = Pictures::pair(&m, &stored);
    assert_eq!(pictures.pick(0), Some(0));
    assert_eq!(pictures.pick(1), Some(0));
    assert_eq!(pictures.pick(2), None);
    let mut n = numbers();
    let whole = || BoxNumbers {
        x: "0".into(),
        y: "0".into(),
        width: "2".into(),
        height: "1".into(),
    };
    n.images = vec![whole(), whole(), whole()];
    n.masks = vec![whole(), no_box(), no_box()];
    let (svg, _, drawn) = draw_metafile(&[1, 2, 3], &m, &n, 1, "o0", &stored, "page 1");
    assert!(svg.contains("mask=\"url(#p1o0mask0)\""));
    assert_eq!(svg.matches("data:image/jpeg;base64,AQID").count(), 2);
    assert_eq!(svg.matches("<title>page 1</title>").count(), 1);
    assert_eq!(drawn.pictures, 1);
    // Outside the file there is no picture to mask.
    let (svg, _, drawn) = draw_metafile(&[1, 2], &m, &n, 1, "o0", &stored, "page 1");
    assert!(!svg.contains("mask=\"url("));
    assert_eq!(svg.matches("data:image/jpeg").count(), 0);
    assert_eq!(drawn.pictures, 1);
}

#[test]
fn svg_layers_are_transparent_but_bitmap_layers_keep_a_white_backdrop() {
    assert!(CSS.contains(
        ".sheet .art{position:absolute;display:block;object-fit:contain;object-position:center}"
    ));
    assert!(CSS.contains(".sheet img.art{background:#fff}"));
    assert!(!CSS.contains(
        ".sheet .art{position:absolute;display:block;object-fit:contain;object-position:center;background:#fff}"
    ));
}
