use xdw_salvage::domain::document::DisplayMember;
use xdw_salvage::domain::page::{Overlay, Page, PageData, Role};
use xdw_salvage::error::Error;
use xdw_salvage::infrastructure::xdw_document::{parse, sniff};
use xdw_salvage::infrastructure::xdw_layout::{
    merge_orphan_overlay_sheets, resolved_display_paper,
};
use xdw_salvage::infrastructure::xdw_properties::{pages, PageInfo};
use xdw_salvage::infrastructure::xdw_roles::assign_roles;

const RECORD: u8 = 0x62;

fn sheet(index: usize, paper: (u32, u32)) -> Page {
    Page {
        index,
        role: Role::Sheet,
        belongs_to: None,
        offset: 0,
        checksum: None,
        paper: Some(paper),
        pixels: None,
        rotation: 0,
        overlays: Vec::new(),
        data: PageData::Bare { offset: 0, len: 0 },
        unknown_fields: Vec::new(),
    }
}

fn preview(index: usize) -> Page {
    Page {
        index,
        role: Role::Data,
        belongs_to: None,
        offset: 0,
        checksum: None,
        paper: None,
        pixels: Some((160, 120)),
        rotation: 0,
        overlays: Vec::new(),
        data: PageData::Preview {
            offset: 0,
            len: 0,
            pixels_at: 0,
            bpp: 1,
            palette_colours: 2,
            stored: 1,
            expanded: 1,
            rows: 1,
            method: 1,
        },
        unknown_fields: Vec::new(),
    }
}

fn annotation() -> Overlay {
    Overlay {
        kind: 1,
        expanded: 0,
        coded: Vec::new(),
        pixels: None,
        area: Some((100, 200, 300, 400)),
    }
}

#[test]
fn standalone_previews_are_kept_as_pages() {
    let mut pages = vec![preview(0), preview(1)];

    assign_roles(&mut pages);

    assert!(pages.iter().all(|page| page.role == Role::Sheet));
    assert!(pages.iter().all(|page| page.belongs_to.is_none()));
}

#[test]
fn preview_after_a_body_is_a_thumbnail_but_next_orphan_is_a_page() {
    let mut pages = vec![sheet(0, (21000, 29700)), preview(1), preview(2)];

    assign_roles(&mut pages);

    assert_eq!(pages[0].role, Role::Sheet);
    assert_eq!(pages[1].role, Role::Thumbnail);
    assert_eq!(pages[1].belongs_to, Some(0));
    assert_eq!(pages[2].role, Role::Sheet);
    assert_eq!(pages[2].belongs_to, None);
}

#[test]
fn properties_only_sheet_is_merged_into_the_following_body() {
    let mut pages = vec![sheet(0, (21000, 29700)), sheet(1, (21000, 29700))];
    pages[0].overlays.push(annotation());
    pages[1].data = PageData::Encoded {
        offset: 0,
        len: 1,
        kind_code: 9,
        aux_len: None,
        method: None,
        colour: None,
    };

    merge_orphan_overlay_sheets(&mut pages);

    assert!(pages[0].overlays.is_empty());
    assert_eq!(pages[0].role, Role::Data);
    assert_eq!(pages[1].overlays, vec![annotation()]);
}

#[test]
fn rounded_display_paper_uses_the_native_single_sheet_size() {
    let pages = vec![sheet(0, (21590, 27940))];
    let members = vec![DisplayMember {
        page_index: 0,
        area: None,
    }];
    assert_eq!(
        resolved_display_paper(Some((21600, 27900)), 0, &pages, &members),
        Some((21590, 27940))
    );
}

#[test]
fn rotated_display_paper_follows_the_native_orientation() {
    let pages = vec![sheet(0, (29700, 42000))];
    let members = vec![DisplayMember {
        page_index: 0,
        area: None,
    }];
    assert_eq!(
        resolved_display_paper(Some((42000, 29700)), 90, &pages, &members),
        Some((42000, 29700))
    );
}

#[test]
fn composed_display_paper_keeps_the_parent_canvas() {
    let pages = vec![sheet(0, (10000, 10000)), sheet(1, (10000, 10000))];
    let members = vec![
        DisplayMember {
            page_index: 0,
            area: None,
        },
        DisplayMember {
            page_index: 1,
            area: None,
        },
    ];
    assert_eq!(
        resolved_display_paper(Some((42000, 29700)), 0, &pages, &members),
        Some((42000, 29700))
    );
}

fn record(fields: &[&[u8]]) -> Vec<u8> {
    let body: Vec<u8> = fields.concat();
    let mut v = vec![RECORD, body.len() as u8];
    v.extend_from_slice(&body);
    v
}

#[test]
fn a_page_record_yields_its_paper_and_the_content_record_its_rotation() {
    let mut block = record(&[&[0x80, 1, 0]]);
    block.extend(record(&[
        &[0x80, 1, 2],
        &[0x85, 7, 0x03, 0x00, 0xA4, 0x10, 0x02, 0x74, 0x04],
    ]));
    block.extend(record(&[&[0x80, 1, 3]]));
    block.extend(record(&[&[0x80, 1, 4], &[0x9F, 0x3D, 2, 1, 90]]));
    // An annotation record at level 4 must not disturb the page's values.
    block.extend(record(&[&[0x80, 1, 4], &[0x9F, 0x3D, 2, 1, 180]]));
    block.extend(record(&[
        &[0x80, 1, 2],
        &[0x85, 6, 2, 0x52, 0x08, 2, 0x74, 0x04],
    ]));
    block.extend(record(&[&[0x80, 1, 4]]));
    assert_eq!(
        pages(&block),
        vec![
            PageInfo {
                paper: Some((42000, 29700)),
                rotation: 90,
                overlays: Vec::new(),
                placements: Vec::new(),
            },
            PageInfo {
                paper: Some((21000, 29700)),
                rotation: 0,
                overlays: Vec::new(),
                placements: Vec::new(),
            }
        ]
    );
}

#[test]
fn a_drawing_on_the_page_record_and_on_an_annotation_are_both_kept() {
    // A drawing element: kind 1, expanded 10, three coded bytes.
    let element: &[u8] = &[0x80, 1, 1, 0x81, 1, 10, 0x86, 3, 7, 8, 9];
    let mut with_drawing = vec![0x87, element.len() as u8];
    with_drawing.extend_from_slice(element);
    let mut block = record(&[&[0x80, 1, 2]]);
    block.extend(record(&[
        &[0x80, 1, 3],
        &[0x9F, 0x34, 6, 2, 0x03, 0xE8, 2, 0x07, 0xD0],
        &[0x9F, 0x8F, 0x51, 6, 2, 0x01, 0x2C, 2, 0x01, 0x90],
    ]));
    block.extend(record(&[&[0x80, 1, 4], &with_drawing]));
    block.extend(record(&[
        &[0x80, 1, 3],
        &[0x9F, 0x34, 6, 2, 0x03, 0xE8, 2, 0x07, 0xD0],
        &[0x9F, 0x8F, 0x51, 6, 2, 0x01, 0x2C, 2, 0x01, 0x90],
    ]));
    block.extend(record(&[&[0x80, 1, 4], &with_drawing]));
    let pages = pages(&block);
    assert_eq!(pages.len(), 1);
    let overlays = &pages[0].overlays;
    assert_eq!(overlays.len(), 2);
    assert_eq!(overlays[0].area, Some((1000, 2000, 300, 400)));
    assert_eq!(overlays[0].coded, vec![7, 8, 9]);
    assert_eq!(overlays[0].expanded, 10);
    assert_eq!(overlays[1].area, Some((1000, 2000, 300, 400)));
}

#[test]
fn rubbish_yields_nothing_rather_than_a_panic() {
    assert!(pages(&[0x62, 0x85, 0xFF, 0xFF, 0x00]).is_empty());
    assert!(pages(&[0x9F, 0xFF, 0xFF, 0xFF, 0xFF, 0xFF]).is_empty());
}

#[test]
fn a_file_of_another_kind_is_named() {
    assert_eq!(sniff(b"%PDF-1.4 and so on"), Some("a PDF"));
    assert_eq!(sniff(b"{\rtf1 and so on"), Some("an RTF document"));
    assert_eq!(sniff(b"{\\rtf1\\ansi and so on"), None);
    assert!(matches!(
        parse(b"%PDF-1.4 and so on"),
        Err(Error::NotAContainer { looks_like: "a PDF" })
    ));
}

#[test]
fn the_role_of_an_entry_fits_its_data() {
    let mut table = sheet(2, (21000, 29700));
    table.data = PageData::Fields { offset: 0, len: 0, records: 0 };
    let mut picture = sheet(1, (21000, 29700));
    picture.paper = None;
    picture.pixels = Some((4, 4));
    let mut body = sheet(0, (21000, 29700));
    body.data = PageData::Encoded {
        offset: 0,
        len: 1,
        kind_code: 9,
        aux_len: None,
        method: None,
        colour: None,
    };
    let mut full = preview(4);
    if let PageData::Preview { method, .. } = &mut full.data {
        *method = 5;
    }
    let mut pages = vec![body, picture, table, preview(3), full];
    assign_roles(&mut pages);
    let roles: Vec<(Role, Option<usize>)> =
        pages.iter().map(|p| (p.role, p.belongs_to)).collect();
    assert_eq!(
        roles,
        vec![
            (Role::Sheet, None),
            (Role::Picture, Some(0)),
            (Role::Data, None),
            (Role::Thumbnail, Some(0)),
            (Role::Sheet, None),
        ]
    );
}
