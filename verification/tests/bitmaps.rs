use xdw_salvage::adapters::masks::{html_mask_png, mask_alpha, should_draw_source_invert};
use xdw_salvage::domain::rendering::{Raster, RasterOp};
use xdw_salvage::infrastructure::dib::{decode, BI_RGB, BI_RLE4, BI_RLE8};
use xdw_salvage::infrastructure::png::encode;

fn info(
    width: i32,
    height: i32,
    bits: u16,
    compression: u32,
    palette: &[(u8, u8, u8)],
) -> Vec<u8> {
    let mut v = Vec::new();
    v.extend_from_slice(&40u32.to_le_bytes());
    v.extend_from_slice(&width.to_le_bytes());
    v.extend_from_slice(&height.to_le_bytes());
    v.extend_from_slice(&1u16.to_le_bytes());
    v.extend_from_slice(&bits.to_le_bytes());
    v.extend_from_slice(&compression.to_le_bytes());
    v.extend_from_slice(&[0u8; 12]);
    v.extend_from_slice(&(palette.len() as u32).to_le_bytes());
    v.extend_from_slice(&0u32.to_le_bytes());
    for (r, g, b) in palette {
        v.extend_from_slice(&[*b, *g, *r, 0]);
    }
    v
}

#[test]
fn a_bottom_up_one_bit_image_comes_out_top_down_and_unpadded() {
    let i = info(3, 2, 1, BI_RGB, &[(0, 0, 0), (255, 255, 255)]);
    let bits = [0b1010_0000, 0, 0, 0, 0b0100_0000, 0, 0, 0];
    let r = decode(&i, &bits).expect("decodes");
    assert_eq!((r.width, r.height, r.bits), (3, 2, 1));
    assert_eq!(r.rows, vec![0b0100_0000, 0b1010_0000]);
    assert!(r.is_bilevel());
}

#[test]
fn a_short_palette_is_padded_rather_than_indexed_past_its_end() {
    let i = info(1, 1, 1, BI_RGB, &[(0, 0, 0)]);
    let r = decode(&i, &[0x80, 0, 0, 0]).expect("decodes");
    assert_eq!(r.palette.len(), 2);
}

#[test]
fn twenty_four_bit_pixels_are_reordered_to_red_green_blue() {
    let i = info(1, 1, 24, BI_RGB, &[]);
    let r = decode(&i, &[10, 20, 30, 0]).expect("decodes");
    assert_eq!(r.rows, vec![30, 20, 10]);
    assert_eq!(r.bits, 24);
}

#[test]
fn run_length_eight_expands_runs_escapes_and_deltas() {
    let i = info(
        5,
        2,
        8,
        BI_RLE8,
        &[(0, 0, 0), (1, 1, 1), (2, 2, 2), (3, 3, 3)],
    );
    let bits = [2, 1, 0, 3, 2, 2, 2, 0, 0, 0, 0, 2, 2, 0, 3, 3, 0, 1];
    let r = decode(&i, &bits).expect("decodes");
    assert_eq!(r.rows, vec![0, 0, 3, 3, 3, 1, 1, 2, 2, 2]);
}

#[test]
fn run_length_four_alternates_nibbles() {
    let i = info(4, 1, 4, BI_RLE4, &[(0, 0, 0); 16]);
    let bits = [4, 0x12, 0, 1];
    let r = decode(&i, &bits).expect("decodes");
    assert_eq!(r.rows, vec![0x12, 0x12]);
}

#[test]
fn a_header_with_an_absurd_size_is_refused() {
    let i = info(100_000, 100_000, 8, BI_RGB, &[]);
    assert!(decode(&i, &[]).is_none());
}

#[test]
fn an_indexed_raster_becomes_a_well_formed_png() {
    let r = Raster {
        width: 2,
        height: 1,
        bits: 8,
        palette: vec![(1, 2, 3), (4, 5, 6)],
        rows: vec![0, 1],
        stencil: None,
    };
    let png = encode(&r);
    assert_eq!(&png[..8], b"\x89PNG\r\n\x1a\n");
    assert_eq!(&png[12..16], b"IHDR");
    assert_eq!(&png[16..24], &[0, 0, 0, 2, 0, 0, 0, 1]);
    assert_eq!(&png[24..29], &[8, 3, 0, 0, 0]);
    assert!(png.windows(4).any(|w| w == b"PLTE"));
    assert!(!png.windows(4).any(|w| w == b"tRNS"));
    assert_eq!(&png[png.len() - 8..png.len() - 4], b"IEND");
}

#[test]
fn a_stencil_becomes_explicit_rgba() {
    let r = Raster {
        width: 8,
        height: 1,
        bits: 1,
        palette: vec![(0, 0, 0), (255, 255, 255)],
        rows: vec![0b1010_1010],
        stencil: Some((255, 0, 0)),
    };
    let png = encode(&r);
    assert_eq!(&png[24..29], &[8, 6, 0, 0, 0]);
    assert!(!png.windows(4).any(|w| w == b"PLTE"));
    assert!(!png.windows(4).any(|w| w == b"tRNS"));
}

#[test]
fn source_and_mask_zero_bits_become_opaque_alpha() {
    let mask = Raster {
        width: 8,
        height: 1,
        bits: 1,
        palette: vec![(0, 0, 0), (255, 255, 255)],
        rows: vec![0b0101_0101],
        stencil: Some((0, 0, 0)),
    };
    assert_eq!(
        mask_alpha(&mask, 8, 1),
        Some(vec![255, 0, 255, 0, 255, 0, 255, 0])
    );
}

#[test]
fn a_device_resolution_mask_is_resized_to_the_jpeg_size() {
    let mask = Raster {
        width: 4,
        height: 2,
        bits: 1,
        palette: vec![(0, 0, 0), (255, 255, 255)],
        rows: vec![0b0011_0000, 0b0011_0000],
        stencil: Some((0, 0, 0)),
    };
    assert_eq!(mask_alpha(&mask, 2, 1), Some(vec![255, 0]));
}

#[test]
fn a_picture_is_no_mask() {
    let r = Raster {
        width: 1,
        height: 1,
        bits: 24,
        palette: Vec::new(),
        rows: vec![1, 2, 3],
        stencil: None,
    };
    assert_eq!(mask_alpha(&r, 1, 1), None);
    assert!(html_mask_png(&r).is_none());
}

#[test]
fn source_invert_is_only_drawn_as_part_of_a_recognised_mask() {
    assert!(!should_draw_source_invert(RasterOp::SourceInvert, false));
    assert!(should_draw_source_invert(RasterOp::SourceInvert, true));
    assert!(should_draw_source_invert(RasterOp::Copy, false));
}

#[test]
fn rows_stored_the_other_way_round_give_the_same_picture() {
    let palette = [(0, 0, 0), (255, 255, 255)];
    let bits = [0b1010_0000u8, 0, 0, 0, 0b0100_0000, 0, 0, 0];
    let reversed = [0b0100_0000u8, 0, 0, 0, 0b1010_0000, 0, 0, 0];
    let up = decode(&info(3, 2, 1, BI_RGB, &palette), &bits);
    let down = decode(&info(3, -2, 1, BI_RGB, &palette), &reversed);
    assert!(up.is_some());
    assert_eq!(up, down);
    let pixels = [1u8, 2, 3, 0, 4, 5, 6, 0];
    let turned = [4u8, 5, 6, 0, 1, 2, 3, 0];
    let up = decode(&info(1, 2, 24, BI_RGB, &[]), &pixels).expect("decodes");
    assert_eq!(up.rows, vec![6, 5, 4, 3, 2, 1]);
    assert!(up.palette.is_empty() && up.stencil.is_none());
    assert_eq!(Some(up), decode(&info(1, -2, 24, BI_RGB, &[]), &turned));
}
