use xdw_salvage::adapters::pdf::pages::display_size;
use xdw_salvage::adapters::pdf::sheets::{lost_size, sheet_size};
use xdw_salvage::adapters::pdf::A4;
use xdw_salvage::application::verification::Expectation;
use xdw_salvage::domain::coverage::Coverage;
use xdw_salvage::domain::page::{Page, PageData, Role};
use xdw_salvage::domain::rendering::{Coord, Image, Metafile, RasterOp, Segment, Source};
use xdw_salvage::infrastructure::{ccitt, cp932};
use xdw_salvage::infrastructure::gdi::Canvas;
use xdw_salvage::infrastructure::tlv::window_is_nested;
use xdw_salvage::rounding::{round_quotient, round_whole, DOUBLE, SINGLE};

fn value(c: &Coord) -> f64 {
    c.offset as f64 / c.per as f64 * c.num as f64 / c.den as f64 + c.origin as f64
}

fn page(paper: Option<(u32, u32)>, rotation: u16) -> Page {
    Page {
        index: 0,
        role: Role::Sheet,
        belongs_to: None,
        offset: 0,
        checksum: None,
        paper,
        pixels: None,
        rotation,
        overlays: Vec::new(),
        data: PageData::Bare { offset: 0, len: 0 },
        unknown_fields: Vec::new(),
    }
}

#[test]
fn a_quarter_turn_swaps_the_paper_that_is_shown() {
    assert_eq!(page(Some((21000, 29700)), 0).shown_paper(), Some((21000, 29700)));
    assert_eq!(page(Some((21000, 29700)), 90).shown_paper(), Some((29700, 21000)));
    assert_eq!(page(Some((21000, 29700)), 180).shown_paper(), Some((21000, 29700)));
    assert_eq!(page(Some((21000, 29700)), 270).shown_paper(), Some((29700, 21000)));
    assert_eq!(page(None, 90).shown_paper(), None);
}

#[test]
fn sizes_are_reported_in_tenths_of_a_millimetre() {
    let e = Expectation {
        pages: 2,
        previews: 0,
        pictures: 0,
        sizes: vec![Some((21000, 29700)), None],
    };
    assert_eq!(e.size_mm(0), Some((2100, 2970)));
    assert_eq!(e.size_mm(1), None);
    assert_eq!(e.size_mm(2), None);
}

#[test]
fn the_share_of_pictures_needs_pictures() {
    let mut c = Coverage {
        sheets: 1,
        sheets_recovered: 0,
        pictures: 0,
        pictures_recovered: 0,
        thumbnails: 0,
        data_tables: 0,
        sheets_with_pictures: 0,
        sheets_blank: 1,
    };
    assert_eq!(c.recovery_of_pictures(), None);
    c.pictures = 4;
    c.pictures_recovered = 3;
    assert_eq!(c.recovery_of_pictures(), Some((3, 4)));
}

fn placed(source: Source, src: (u32, u32)) -> Image {
    Image {
        left: Coord::pixels(0),
        top: Coord::pixels(0),
        right: Coord::pixels(1),
        bottom: Coord::pixels(1),
        src,
        source,
        raster_op: RasterOp::Copy,
        order: 0,
        clip: None,
        clip_path: None,
    }
}

#[test]
fn a_page_tells_which_stored_pictures_it_calls_for() {
    let mut m = Metafile::blank((10, 10), (1000, 1000));
    assert_eq!(m.stored_pictures(), 0);
    let stored = |ordinal: usize, px: (u32, u32)| Source::Stored { ordinal, px };
    m.images.push(placed(stored(2, (8, 4)), (8, 4)));
    m.images.push(placed(Source::Inline(0), (3, 3)));
    m.images.push(placed(stored(0, (8, 4)), (8, 4)));
    m.images.push(placed(stored(1, (9, 9)), (9, 9)));
    assert_eq!(m.stored_pictures(), 3);
    assert_eq!(m.image_sizes(), vec![(8, 4), (9, 9)]);
}

#[test]
fn a_window_is_nested_where_it_reads_as_elements() {
    let data = [0x80u8, 2, 7, 7, 0x81, 0];
    assert!(window_is_nested(&data, 0, 6));
    assert!(window_is_nested(&data, 0, 4));
    assert!(!window_is_nested(&data, 0, 5));
    assert!(!window_is_nested(&data, 0, 0));
    assert!(!window_is_nested(&data, 0, 7));
}

#[test]
fn a_relaxed_stream_reads_as_an_ordinary_one_does() {
    let plain = ccitt::decode(&[0xFF], 8, 8).expect("all white");
    let relaxed = ccitt::decode_relaxed(&[0xFF], 8, 8).expect("all white");
    assert_eq!(plain.rows, relaxed.rows);
    assert!(ccitt::decode_relaxed(&[], 0, 8).is_none());
}

#[test]
fn the_corners_of_a_rectangle_are_rounded() {
    let mut c = Canvas::new((100, 100), (1000, 1000));
    c.round_rect(10, 20, 50, 80, 20, 10);
    let f = &c.page.shapes[0].path.figures[0];
    assert!(f.closed);
    assert_eq!((value(&f.start.0), value(&f.start.1)), (20.0, 20.0));
    assert_eq!(f.segments.len(), 8);
    match &f.segments[0] {
        Segment::Line(p) => assert_eq!((value(&p.0), value(&p.1)), (40.0, 20.0)),
        Segment::Curve(..) => panic!("a line comes first"),
    }
    match &f.segments[1] {
        Segment::Curve(_, _, p) => assert_eq!((value(&p.0), value(&p.1)), (50.0, 25.0)),
        Segment::Line(_) => panic!("a corner is a curve"),
    }
    // Without an area there is nothing to round.
    let mut c = Canvas::new((100, 100), (1000, 1000));
    c.round_rect(10, 20, 10, 80, 20, 10);
    assert!(c.page.shapes.is_empty());
}

#[test]
fn a_page_takes_the_size_that_is_asked_for_or_that_of_its_paper() {
    let forced = Some((1_000_000u64, 2_000_000u64));
    let natural = (30_000_000u64, 40_000_000u64);
    let paper = Some((21000u32, 29700u32));
    assert_eq!(sheet_size(forced, paper, natural, 90), (1_000_000, 2_000_000));
    assert_eq!(sheet_size(None, paper, natural, 0), A4);
    assert_eq!(sheet_size(None, paper, natural, 270), (A4.1, A4.0));
    assert_eq!(sheet_size(None, None, natural, 0), natural);
    assert_eq!(sheet_size(None, None, natural, 90), (40_000_000, 30_000_000));
    assert_eq!(lost_size(forced, paper), (1_000_000, 2_000_000));
    assert_eq!(lost_size(None, Some((29700, 21000))), (A4.1, A4.0));
    assert_eq!(lost_size(None, None), A4);
    assert_eq!(display_size(None, None), A4);
    assert_eq!(display_size(forced, paper), (1_000_000, 2_000_000));
}

#[test]
fn the_lengths_of_decoded_characters_add_up() {
    let bytes = [0x41u8, 0xB1, 0x83, 0x65, 0x80, 0x8A, 0xBF];
    let chars = cp932::decode(&bytes);
    assert_eq!(chars, vec!['A', '\u{FF71}', 'テ', '\u{80}', '漢']);
    let total: usize = chars.iter().map(|&c| cp932::byte_len(c)).sum();
    assert_eq!(total, bytes.len());
    assert!(cp932::decode(&[0x83]).contains(&'\u{FFFD}'));
}

#[test]
fn numbers_are_rounded_to_the_nearest_that_a_precision_has() {
    for v in [0i128, 1, -1, 16_777_217, 16_777_219, -16_777_219, 1 << 60, (1 << 60) + 1, 33_554_435] {
        assert_eq!(round_whole(SINGLE, v), v as f32 as i128);
        assert_eq!(round_whole(DOUBLE, v), v as f64 as i128);
    }
    for (n, d) in [(1u128, 3u128), (2, 3), (1, 10), (10, 1), (7, 9), (123_456_789, 1000)] {
        let r = round_quotient(DOUBLE, n, d);
        assert_eq!(
            r.bits as f64 * (r.power as f64).exp2(),
            n as f64 / d as f64
        );
        assert!(r.bits >= DOUBLE / 2 && r.bits < DOUBLE);
    }
    assert!(round_quotient(SINGLE, 2, 3).is_above(&round_quotient(SINGLE, 1, 3)));
    assert!(!round_quotient(SINGLE, 16_777_217, 1).is_above(&round_quotient(SINGLE, 16_777_216, 1)));
    assert_eq!(round_quotient(SINGLE, 33_554_431, 1).power, 2);
}
