use xdw_salvage::domain::rendering::{
    pair_pictures, Coord, FontKind, Hang, Length, Metafile, Point, RasterOp, Rect, Segment, Source,
    Text,
};
use xdw_salvage::infrastructure::comments::{OP_LINE, OP_POLYLINE};
use xdw_salvage::infrastructure::gdi::{
    decode_points, Canvas, Object, NULL_BRUSH, NULL_PEN, SRCAND, STOCK, TA_CENTER,
};
use xdw_salvage::infrastructure::points::CODE_I16;

const BEGIN_PATH: &[u8] = b"DW02";
const STROKE_PATH: &[u8] = b"DW05";

fn value(c: &Coord) -> f64 {
    c.offset as f64 / c.per as f64 * c.num as f64 / c.den as f64 + c.origin as f64
}

fn length(l: &Length) -> f64 {
    l.units as f64 / l.per as f64 * (l.num as f64 / l.den as f64).abs()
}

fn point(p: &Point) -> (f64, f64) {
    (value(&p.0), value(&p.1))
}

fn left_edges(t: &Text) -> Vec<f64> {
    t.xs
        .iter()
        .map(|q| value(&t.x) + *q as f64 / 4.0 * t.x.num as f64 / t.x.den as f64)
        .collect()
}

fn line(s: &Segment) -> (f64, f64) {
    match s {
        Segment::Line(p) => point(p),
        _ => panic!("a line was drawn"),
    }
}

fn curve(s: &Segment) -> [(f64, f64); 3] {
    match s {
        Segment::Curve(a, b, c) => [point(a), point(b), point(c)],
        _ => panic!("a curve was drawn"),
    }
}

fn geometry(op: u8, code: u8, n: u32, first: (i16, i16), rest: &[u8]) -> Vec<u8> {
    let mut b = b"DW".to_vec();
    b.push(op);
    b.push(code);
    b.extend_from_slice(&n.to_le_bytes());
    b.extend_from_slice(&first.0.to_le_bytes());
    b.extend_from_slice(&first.1.to_le_bytes());
    b.extend_from_slice(rest);
    b
}

fn text(ch: char, escapement: i32) -> Text {
    Text {
        x: Coord::pixels(0),
        xs: vec![0],
        y: Coord::pixels(0),
        hang: Hang::Baseline,
        chars: vec![ch],
        font_kind: FontKind::Japanese,
        size: Length::pixels(10),
        escapement,
        rgb: (0, 0, 0),
        order: 0,
        bold: false,
        underline: false,
    }
}

#[test]
fn detects_glyphs_already_positioned_in_vertical_columns() {
    let mut m = Metafile::default();
    m.text = vec![text('縦', 2700), text('書', 2700), text('き', 2700)];
    let places = vec![(100_000, 10_000), (100_000, 20_000), (80_000, 10_000)];
    assert!(m.uses_upright_vertical_text(&places));
}

#[test]
fn does_not_treat_a_single_rotated_run_as_vertical_writing() {
    let mut m = Metafile::default();
    m.text = vec![text('A', 2700), text('B', 2700), text('C', 2700)];
    let places = vec![(100_000, 10_000), (110_000, 10_000), (120_000, 10_000)];
    assert!(!m.uses_upright_vertical_text(&places));
}

#[test]
fn vertical_writing_takes_three_visible_characters_at_one_right_angle() {
    let places = vec![(100_000, 10_000), (100_500, 20_000), (80_000, 10_000)];
    let mut m = Metafile::default();
    m.text = vec![text('a', -900), text('b', 2700), text('c', 6300)];
    assert!(m.uses_upright_vertical_text(&places));
    m.text[2] = text('c', 900);
    assert!(!m.uses_upright_vertical_text(&places));
    m.text[2] = text('\u{3000}', 2700);
    assert!(!m.uses_upright_vertical_text(&places));
    m.text[2] = text('c', 450);
    m.text[0] = text('a', 450);
    m.text[1] = text('b', 450);
    assert!(!m.uses_upright_vertical_text(&places));
}

#[test]
fn classifies_the_raster_operations_used_by_picture_masks() {
    assert_eq!(RasterOp::from_code(0x00CC_0020), RasterOp::Copy);
    assert_eq!(RasterOp::from_code(0x0088_00C6), RasterOp::And);
    assert_eq!(RasterOp::from_code(0x0066_0046), RasterOp::SourceInvert);
    assert_eq!(RasterOp::from_code(0x00B8_074A), RasterOp::MaskPaint);
    assert_eq!(
        RasterOp::from_code(0x1234_5678),
        RasterOp::Other(0x1234_5678)
    );
}

#[test]
fn repeated_calls_for_one_size_share_the_one_stored_picture() {
    let calls = [
        (0, (128, 128)),
        (1, (116, 128)),
        (2, (128, 128)),
        (3, (400, 604)),
    ];
    let stored = [Some((128, 128)), Some((116, 128)), Some((400, 604))];
    assert_eq!(
        pair_pictures(&calls, &stored),
        vec![Some(0), Some(1), Some(0), Some(2)]
    );
}

#[test]
fn distinct_pictures_of_one_size_are_handed_out_in_order() {
    let calls = [(0, (10, 10)), (1, (10, 10)), (2, (10, 10))];
    let stored = [Some((10, 10)), Some((10, 10)), Some((10, 10))];
    assert_eq!(
        pair_pictures(&calls, &stored),
        vec![Some(0), Some(1), Some(2)]
    );
}

#[test]
fn a_size_nothing_matches_falls_back_to_the_next_unused_picture() {
    let calls = [(0, (5, 5))];
    let stored = [Some((10, 10))];
    assert_eq!(pair_pictures(&calls, &stored), vec![Some(0)]);
    assert_eq!(pair_pictures(&calls, &[]), vec![None]);
}

#[test]
fn paired_mask_and_colour_passes_share_each_stored_picture() {
    let calls = [(0, (20, 30)), (1, (20, 30)), (2, (40, 50)), (3, (40, 50))];
    let stored = [Some((20, 30)), Some((40, 50))];
    assert_eq!(
        pair_pictures(&calls, &stored),
        vec![Some(0), Some(0), Some(1), Some(1)]
    );
}

#[test]
fn sixteen_bit_points_are_absolute() {
    let b = geometry(0x20, 0x20, 2, (10, 20), &[30, 0, 40, 0]);
    assert_eq!(decode_points(&b), Some(vec![(10, 20), (30, 40)]));
}

#[test]
fn thirty_two_bit_points_are_absolute() {
    let mut b = b"DW\x13\0".to_vec();
    b.extend_from_slice(&4u32.to_le_bytes());
    for (x, y) in [(10i32, 20i32), (30, 40), (50, 60), (70, 80)] {
        b.extend_from_slice(&x.to_le_bytes());
        b.extend_from_slice(&y.to_le_bytes());
    }
    assert_eq!(
        decode_points(&b),
        Some(vec![(10, 20), (30, 40), (50, 60), (70, 80)])
    );
}

#[test]
fn eight_bit_points_are_deltas() {
    let b = geometry(0x20, 0x40, 3, (10, 20), &[2, 0xFF, 0x80, 1]);
    assert_eq!(
        decode_points(&b),
        Some(vec![(10, 20), (12, 19), (-116, 20)])
    );
}

#[test]
fn nibble_points_escape_to_wider_deltas() {
    let rest = [0xD1, 0x82, 0xD6, 0x88, 0x05, 0x80, 0xE8, 0x03];
    let b = geometry(0x02, 0x80, 4, (100, 100), &rest);
    assert_eq!(
        decode_points(&b),
        Some(vec![(100, 100), (97, 101), (55, 103), (60, 1103)])
    );
}

#[test]
fn nibble_points_keep_a_signed_128_escape_in_the_byte_form() {
    let b = geometry(0x02, 0x80, 3, (0, 0), &[0x08, 0x80, 0x11]);
    assert_eq!(decode_points(&b), Some(vec![(0, 0), (0, -128), (1, -127)]));
}

#[test]
fn a_short_list_is_refused_rather_than_read_past_the_end() {
    let b = geometry(0x20, 0x20, 3, (10, 20), &[30, 0, 40, 0]);
    assert_eq!(decode_points(&b), None);
}

#[test]
fn the_window_origin_shifts_logical_points_onto_the_device() {
    let mut c = Canvas::new((4961, 7016), (21000, 29700));
    c.set_window_org(-109, -109);
    assert_eq!(point(&c.device(0, 0)), (109.0, 109.0));
    assert_eq!(point(&c.device(600, 4876)), (709.0, 4985.0));
}

#[test]
fn centered_text_uses_the_reference_point_as_its_center() {
    let mut c = Canvas::new((100, 100), (1000, 1000));
    c.set_text_align(TA_CENTER);
    // Advances are counted in halves: twenty units each.
    c.text(100, 200, vec!['a', 'b'], &[40, 40]);
    assert_eq!(left_edges(&c.page.text[0]), vec![80.0, 100.0]);
}

#[test]
fn multi_polygon_keeps_contours_in_one_shape() {
    let mut c = Canvas::new((100, 100), (1000, 1000));
    c.polygons(
        &[
            vec![(10, 10), (40, 10), (40, 40)],
            vec![(60, 60), (90, 60), (90, 90)],
        ],
        true,
    );
    assert_eq!(c.page.shapes.len(), 1);
    assert_eq!(c.page.shapes[0].path.figures.len(), 2);
    assert!(c.page.shapes[0].path.figures.iter().all(|f| f.closed));
}

fn corners(r: &Rect) -> (f64, f64, f64, f64) {
    (
        value(&r.left),
        value(&r.top),
        value(&r.right),
        value(&r.bottom),
    )
}

#[test]
fn a_clip_rectangle_covering_the_page_is_no_clip_at_all() {
    let mut c = Canvas::new((4961, 7016), (21000, 29700));
    c.set_window_org(-109, -109);
    c.set_clip_rect(-109, -109, 4961, 7016);
    assert!(c.state.clip.is_none());
    c.set_clip_rect(100, 100, 200, 300);
    assert_eq!(
        c.state.clip.as_ref().map(corners),
        Some((209.0, 209.0, 309.0, 409.0))
    );
}

#[test]
fn restore_state_reinstates_the_clip_and_mapping() {
    let mut c = Canvas::new((1000, 1000), (1000, 1000));
    c.set_window_org(10, 20);
    c.save_state();
    c.set_window_org(100, 200);
    c.set_clip_rect(120, 220, 180, 280);
    assert!(c.state.clip.is_some());

    c.restore_state(-1);

    assert_eq!(c.state.window_org, (10, 20));
    assert_eq!(c.state.clip, None);
}

#[test]
fn restoring_a_positive_level_discards_newer_snapshots() {
    let mut c = Canvas::new((100, 100), (100, 100));
    c.set_window_org(1, 2);
    c.save_state();
    c.set_window_org(3, 4);
    c.save_state();
    c.set_window_org(5, 6);

    c.restore_state(1);

    assert_eq!(c.state.window_org, (1, 2));
    c.set_window_org(7, 8);
    c.save_state();
    c.set_window_org(9, 10);
    c.restore_state(-1);
    assert_eq!(c.state.window_org, (7, 8));
}

#[test]
fn the_next_picture_marker_hands_out_ordinals_in_order() {
    let mut c = Canvas::new((100, 100), (1000, 1000));
    let mut place = b"DWc\0".to_vec();
    let fields: [i32; 14] = [0, 0, 0, 0, 10, 10, 0, 0, 8, 4, 0, 0x00CC_0020, 20, 10];
    for v in fields {
        place.extend_from_slice(&v.to_le_bytes());
    }
    assert!(c.comment(b"DWb\0"));
    assert!(c.comment(&place));
    assert!(c.comment(&place));
    assert!(c.comment(b"DWb\0"));
    assert!(c.comment(&place));
    let ordinals: Vec<Source> = c.page.images.iter().map(|i| i.source).collect();
    assert_eq!(
        ordinals,
        vec![
            Source::Stored {
                ordinal: 0,
                px: (8, 4)
            },
            Source::Stored {
                ordinal: 0,
                px: (8, 4)
            },
            Source::Stored {
                ordinal: 1,
                px: (8, 4)
            }
        ]
    );
    let i = c.page.images[0];
    assert_eq!(
        (
            value(&i.left),
            value(&i.top),
            value(&i.right),
            value(&i.bottom)
        ),
        (10.0, 10.0, 30.0, 20.0)
    );
    assert_eq!(i.raster_op, RasterOp::Copy);
}

#[test]
fn a_clip_path_is_stored_once_and_shared_by_the_fills_inside_it() {
    let mut c = Canvas::new((100, 100), (1000, 1000));
    c.create(1, Object::Brush(Some((1, 2, 3))));
    c.select(1);
    let square = geometry(
        0x03,
        0x20,
        4,
        (0, 0),
        &[50, 0, 0, 0, 50, 0, 50, 0, 0, 0, 50, 0],
    );
    for _ in 0..3 {
        assert!(c.comment(b"DW02"));
        assert!(c.comment(&square));
        assert!(c.comment(b"DW03"));
        c.pat_fill(0, 10, 100, 5);
    }
    assert_eq!(c.page.paths.len(), 1);
    assert_eq!(c.page.fills.len(), 3);
    assert!(c.page.fills.iter().all(|f| f.clip_path == Some(0)));
    assert_eq!(c.page.shape_masks, 3);
    // A clip rectangle lifts the path clip.
    c.comment(&{
        let mut b = b"DW06".to_vec();
        for v in [0i32, 0, 100, 100] {
            b.extend_from_slice(&v.to_le_bytes());
        }
        b
    });
    c.pat_fill(0, 0, 10, 10);
    assert_eq!(c.page.fills[3].clip_path, None);
}

#[test]
fn a_polyline_continues_the_current_private_path_figure() {
    let mut c = Canvas::new((100, 100), (1000, 1000));
    c.select(STOCK | NULL_BRUSH);
    let first = geometry(OP_LINE, CODE_I16, 2, (10, 20), &[30, 0, 40, 0]);
    let continuation = geometry(OP_POLYLINE, CODE_I16, 2, (50, 60), &[70, 0, 80, 0]);

    assert!(c.comment(BEGIN_PATH));
    assert!(c.comment(&first));
    assert!(c.comment(&continuation));
    assert!(c.comment(STROKE_PATH));

    assert_eq!(c.page.shapes.len(), 1);
    assert_eq!(c.page.shapes[0].path.figures.len(), 1);
    let drawn: Vec<(f64, f64)> = c.page.shapes[0].path.figures[0]
        .segments
        .iter()
        .map(line)
        .collect();
    assert_eq!(drawn, vec![(30.0, 40.0), (50.0, 60.0), (70.0, 80.0)]);
}

#[test]
fn a_stroked_path_takes_the_pen_and_a_filled_one_the_brush() {
    let mut c = Canvas::new((100, 100), (1000, 1000));
    c.create(1, Object::Pen(Some(((9, 9, 9), Length::pixels(6)))));
    c.select(1);
    c.select(STOCK | NULL_BRUSH);
    let square = geometry(
        0x03,
        0x20,
        4,
        (0, 0),
        &[50, 0, 0, 0, 50, 0, 50, 0, 0, 0, 50, 0],
    );
    c.comment(b"DW02");
    c.comment(&square);
    c.comment(b"DW05");
    c.create(2, Object::Brush(Some((1, 2, 3))));
    c.select(2);
    c.comment(b"DW02");
    c.comment(&square);
    c.comment(b"DW04");
    assert_eq!(c.page.shapes.len(), 2);
    assert_eq!(
        c.page.shapes[0].stroke.map(|(rgb, w)| (rgb, length(&w))),
        Some(((9, 9, 9), 6.0))
    );
    assert_eq!(c.page.shapes[0].fill, None);
    assert_eq!(c.page.shapes[1].fill, Some((1, 2, 3)));
    assert_eq!(c.page.shapes[1].stroke, None);
}

#[test]
fn a_polygon_comment_paints_at_once_with_pen_and_brush() {
    let mut c = Canvas::new((100, 100), (1000, 1000));
    c.create(1, Object::Brush(Some((1, 2, 3))));
    c.select(1);
    c.select(STOCK | NULL_PEN);
    let quad = geometry(
        0x20,
        0x20,
        4,
        (0, 0),
        &[50, 0, 0, 0, 50, 0, 50, 0, 0, 0, 50, 0],
    );
    assert!(c.comment(&quad));
    assert_eq!(c.page.shapes.len(), 1);
    assert_eq!(c.page.shapes[0].fill, Some((1, 2, 3)));
    assert_eq!(c.page.shapes[0].stroke, None);
    assert_eq!(c.page.shapes[0].path.figures[0].segments.len(), 3);
}

#[test]
fn a_direct_line_comment_is_painted_without_a_path() {
    let mut c = Canvas::new((100, 100), (1000, 1000));
    c.select(STOCK | NULL_BRUSH);
    let direct = geometry(0x40, CODE_I16, 2, (10, 20), &[30, 0, 40, 0]);
    assert!(c.comment(&direct));
    assert_eq!(c.page.shapes.len(), 1);
    let figure = &c.page.shapes[0].path.figures[0];
    assert_eq!(point(&figure.start), (10.0, 20.0));
    let drawn: Vec<(f64, f64)> = figure.segments.iter().map(line).collect();
    assert_eq!(drawn, vec![(30.0, 40.0)]);
}

#[test]
fn extended_path_comments_keep_cubic_segments_together() {
    let mut c = Canvas::new((100, 100), (1000, 1000));
    c.select(STOCK | NULL_BRUSH);
    let start = geometry(
        0x11,
        CODE_I16,
        4,
        (0, 0),
        &[10, 0, 0, 0, 20, 0, 10, 0, 30, 0, 20, 0],
    );
    let continuation = geometry(
        0x10,
        CODE_I16,
        3,
        (40, 30),
        &[50, 0, 40, 0, 60, 0, 50, 0],
    );
    assert!(c.comment(b"DW02"));
    assert!(c.comment(&start));
    assert!(c.comment(&continuation));
    assert!(c.comment(b"DW05"));
    assert_eq!(c.page.shapes.len(), 1);
    let segments = &c.page.shapes[0].path.figures[0].segments;
    assert_eq!(segments.len(), 2);
    assert_eq!(curve(&segments[0]), [(10.0, 0.0), (20.0, 10.0), (30.0, 20.0)]);
    assert_eq!(
        curve(&segments[1]),
        [(40.0, 30.0), (50.0, 40.0), (60.0, 50.0)]
    );
}

#[test]
fn an_ellipse_becomes_a_closed_four_curve_path() {
    let mut c = Canvas::new((100, 100), (1000, 1000));
    c.ellipse(10, 20, 50, 80);
    assert_eq!(c.page.shapes.len(), 1);
    let figure = &c.page.shapes[0].path.figures[0];
    assert!(figure.closed);
    assert_eq!(figure.segments.len(), 4);
    assert!(figure
        .segments
        .iter()
        .all(|s| matches!(s, Segment::Curve(..))));
}

#[test]
fn srcand_turns_a_black_palette_entry_into_a_black_stencil() {
    let mut info = Vec::new();
    info.extend_from_slice(&40u32.to_le_bytes());
    info.extend_from_slice(&1i32.to_le_bytes());
    info.extend_from_slice(&1i32.to_le_bytes());
    info.extend_from_slice(&1u16.to_le_bytes());
    info.extend_from_slice(&1u16.to_le_bytes());
    info.extend_from_slice(&0u32.to_le_bytes());
    info.extend_from_slice(&[0u8; 12]);
    info.extend_from_slice(&2u32.to_le_bytes());
    info.extend_from_slice(&0u32.to_le_bytes());
    // Palette entries are blue, green, red, reserved: white then black.
    info.extend_from_slice(&[255, 255, 255, 0, 0, 0, 0, 0]);

    let mut c = Canvas::new((1, 1), (100, 100));
    assert!(c.stretch_dib(&info, &[0x80, 0, 0, 0], (0, 0, 1, 1), (0, 0, 1, 1), SRCAND));
    assert_eq!(c.page.rasters[0].stencil, Some((0, 0, 0)));
    assert_eq!(c.page.rasters[0].rows, vec![0x7f]);
    assert_eq!(c.page.images[0].raster_op, RasterOp::And);
}

#[test]
fn an_inline_picture_is_decoded_and_placed_by_the_next_placement() {
    let mut c = Canvas::new((100, 100), (1000, 1000));
    let mut body = b"DWa\0".to_vec();
    let off_bmi = 12 + 4 + 16;
    body.extend_from_slice(&(off_bmi as u32).to_le_bytes());
    body.extend_from_slice(&48u32.to_le_bytes());
    body.extend_from_slice(&((off_bmi + 48) as u32).to_le_bytes());
    body.extend_from_slice(&4u32.to_le_bytes());
    body.extend_from_slice(&40u32.to_le_bytes());
    body.extend_from_slice(&1i32.to_le_bytes());
    body.extend_from_slice(&1i32.to_le_bytes());
    body.extend_from_slice(&1u16.to_le_bytes());
    body.extend_from_slice(&1u16.to_le_bytes());
    body.extend_from_slice(&[0u8; 24]);
    body.extend_from_slice(&[0, 0, 0, 0, 255, 255, 255, 0]);
    body.extend_from_slice(&[0x80, 0, 0, 0]);
    assert!(c.comment(&body));
    let mut place = b"DWc\0".to_vec();
    let fields: [i32; 14] = [0, 0, 0, 0, 5, 5, 0, 0, 1, 1, 0, 0x00CC_0020, 10, 10];
    for v in fields {
        place.extend_from_slice(&v.to_le_bytes());
    }
    assert!(c.comment(&place));
    assert_eq!(c.page.rasters.len(), 1);
    assert_eq!(c.page.images[0].source, Source::Inline(0));
    assert_eq!(c.page.images[0].src, (1, 1));
    assert_eq!(c.page.images[0].raster_op, RasterOp::Copy);
}

#[test]
fn a_saved_state_comes_back_with_its_font_and_colour() {
    let mut c = Canvas::new((100, 100), (1000, 1000));
    c.set_text_colour(0x0000_00FF);
    c.save_state();
    c.set_text_colour(0x00FF_0000);
    c.restore_state(-1);
    c.text(0, 0, vec!['x'], &[10]);
    assert_eq!(c.page.text[0].rgb, (255, 0, 0));
}

fn emf_record(kind: u32, fields: &[i32]) -> Vec<u8> {
    let mut r = kind.to_le_bytes().to_vec();
    r.extend_from_slice(&(8 + 4 * fields.len() as u32).to_le_bytes());
    for f in fields {
        r.extend_from_slice(&f.to_le_bytes());
    }
    r
}

#[test]
fn records_save_and_restore_the_clip_and_the_mapping() {
    let mut d = vec![0u8; 88];
    d[0] = 1;
    d[4] = 88;
    d[40..44].copy_from_slice(b" EMF");
    d[72..76].copy_from_slice(&100i32.to_le_bytes());
    d[76..80].copy_from_slice(&100i32.to_le_bytes());
    let rectangle = [10, 10, 20, 20];
    for r in [
        emf_record(33, &[]),
        emf_record(10, &[5, 5]),
        emf_record(30, &[6, 6, 30, 30]),
        emf_record(43, &rectangle),
        emf_record(34, &[-1]),
        emf_record(43, &rectangle),
        // There is nothing left to restore.
        emf_record(34, &[-1]),
        emf_record(14, &[]),
    ] {
        d.extend_from_slice(&r);
    }
    let m = xdw_salvage::infrastructure::emf::read(&d).expect("a drawing");
    assert_eq!(m.shapes.len(), 2);
    assert!(m.shapes[0].clip.is_some() && m.shapes[1].clip.is_none());
    assert_eq!(point(&m.shapes[0].path.figures[0].start), (5.0, 5.0));
    assert_eq!(point(&m.shapes[1].path.figures[0].start), (10.0, 10.0));
    assert!(m.skipped.is_empty());
}

fn wmf_record(kind: u16, words: &[i16]) -> Vec<u8> {
    let mut r = (3 + words.len() as u32).to_le_bytes().to_vec();
    r.extend_from_slice(&kind.to_le_bytes());
    for w in words {
        r.extend_from_slice(&w.to_le_bytes());
    }
    r
}

#[test]
fn the_older_records_save_and_restore_too() {
    let mut d = vec![0u8; 18];
    d[0] = 1;
    d[2] = 9;
    d[5] = 3;
    for r in [
        wmf_record(0x020C, &[100, 100]),
        wmf_record(0x001E, &[]),
        wmf_record(0x020B, &[5, 5]),
        wmf_record(0x041B, &[20, 20, 10, 10]),
        wmf_record(0x0127, &[-1]),
        wmf_record(0x041B, &[20, 20, 10, 10]),
        wmf_record(0x0000, &[]),
    ] {
        d.extend_from_slice(&r);
    }
    assert!(xdw_salvage::infrastructure::wmf::looks_like(&d));
    let m = xdw_salvage::infrastructure::wmf::read(&d, (21000, 29700)).expect("a drawing");
    assert_eq!(m.frame_mm100, (21000, 29700));
    assert_eq!(point(&m.shapes[0].path.figures[0].start), (5.0, 5.0));
    assert_eq!(point(&m.shapes[1].path.figures[0].start), (10.0, 10.0));
    d[2] = 8;
    assert!(!xdw_salvage::infrastructure::wmf::looks_like(&d));
    assert!(xdw_salvage::infrastructure::wmf::read(&d, (21000, 29700)).is_none());
}

fn single(c: &Coord) -> f32 {
    c.offset as f32 * (c.num as f32 / c.den as f32) + c.origin as f32
}

#[test]
fn positions_are_compared_in_single_precision() {
    let offsets = [
        0i64, 1, -1, 7, 12345, 16_777_216, 16_777_217, -16_777_219, 123_456_789, 4_294_967_295,
    ];
    let scales = [(1, 1), (3, 7), (-3, 7), (1, 3), (2_147_483_647, 3), (1, i32::MIN), (-7, -10)];
    let origins = [0, -5, 16_777_217];
    let mut all = Vec::new();
    for offset in offsets {
        for (num, den) in scales {
            for origin in origins {
                all.push(Coord { offset, per: 1, num, den, origin });
            }
        }
    }
    for a in &all {
        for b in &all {
            let (x, y) = (single(a), single(b));
            assert_eq!(a.is_before(b), x < y, "{a:?} {b:?}");
            assert_eq!(a.is_same(b), x == y, "{a:?} {b:?}");
            assert_eq!(a.is_near(b), (x - y).abs() <= 0.01, "{a:?} {b:?}");
        }
        for limit in [0, 1, -1, 100, 16_777_217, i32::MAX, i32::MIN] {
            assert_eq!(a.is_at_most(limit), single(a) <= limit as f32, "{a:?} {limit}");
            assert_eq!(a.is_at_least(limit), single(a) >= limit as f32, "{a:?} {limit}");
            let length = limit.unsigned_abs();
            assert_eq!(a.is_short_of(length), single(a) < length as f32 * 0.95, "{a:?} {length}");
        }
    }
}

#[test]
fn a_box_without_an_area_in_single_precision_is_not_painted() {
    let mut c = Canvas::new((100, 100), (1000, 1000));
    c.pat_fill(16_777_216, 0, 1, 10);
    assert_eq!(c.page.fills.len(), 0);
    c.pat_fill(16_777_216, 0, 2, 10);
    assert_eq!(c.page.fills.len(), 1);
    c.ellipse(16_777_216, 0, 16_777_217, 10);
    assert_eq!(c.page.shapes.len(), 0);
    c.ellipse(16_777_216, 0, 16_777_218, 10);
    assert_eq!(c.page.shapes.len(), 1);
}
