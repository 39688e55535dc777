use xdw_salvage::application::ports::DocumentReader;
use xdw_salvage::application::service::SalvageService;
use xdw_salvage::domain::page::{PageData, Role};
use xdw_salvage::domain::policy::Verdict;
use xdw_salvage::error::Error;
use xdw_salvage::infrastructure::attachments::{scan, MagicAttachmentScanner};
use xdw_salvage::infrastructure::jpeg;
use xdw_salvage::infrastructure::lzh;
use xdw_salvage::infrastructure::recovery::LzhMetafileDecoder;
use xdw_salvage::infrastructure::tlv::{find_uint, le_u32s, read_len, read_one, read_window};
use xdw_salvage::infrastructure::xdw::XdwDocumentParser;
use xdw_salvage::infrastructure::xdw_document::parse;

/// Files held in memory.
struct Shelf {
    files: Vec<(String, Vec<u8>)>,
}

impl DocumentReader for Shelf {
    fn read(&self, path: &str) -> Result<Vec<u8>, Error> {
        for (name, data) in &self.files {
            if name == path {
                return Ok(data.clone());
            }
        }
        Err(Error::Io(format!("{path}: no such file")))
    }
}

fn service(
    files: Vec<(String, Vec<u8>)>,
) -> SalvageService<Shelf, XdwDocumentParser, MagicAttachmentScanner, LzhMetafileDecoder> {
    SalvageService::new(
        Shelf { files },
        XdwDocumentParser,
        MagicAttachmentScanner,
        LzhMetafileDecoder,
    )
}

fn element(tag: u8, value: &[u8]) -> Vec<u8> {
    let mut v = vec![tag];
    if value.len() < 0x80 {
        v.push(value.len() as u8);
    } else {
        v.push(0x82);
        v.extend_from_slice(&(value.len() as u16).to_be_bytes());
    }
    v.extend_from_slice(value);
    v
}

fn header(generation: u8) -> Vec<u8> {
    let mut fields = element(0x82, &[generation]);
    fields.extend(element(0x83, &[1, 2, 3, 4]));
    element(0x60, &fields)
}

fn with_trailer(mut file: Vec<u8>, fields: &[Vec<u8>]) -> Vec<u8> {
    let mut value: Vec<u8> = fields.concat();
    let len = value.len() as u32 + 6;
    value.extend_from_slice(&[0x86, 4]);
    value.extend_from_slice(&len.to_le_bytes());
    file.extend(element(0x65, &value));
    file
}

/// A JPEG of nothing but its size: sixteen by eight pixels, grey.
fn tiny_jpeg() -> Vec<u8> {
    vec![
        0xFF, 0xD8, 0xFF, 0xC0, 0, 11, 8, 0, 8, 0, 16, 1, 1, 0x11, 0, 0xFF, 0xD9,
    ]
}

/// The body of a picture page: its length again, its size, and the picture.
fn picture_body() -> Vec<u8> {
    let mut v = Vec::new();
    for n in [16 + tiny_jpeg().len() as u32, 0, 16, 8] {
        v.extend_from_slice(&n.to_le_bytes());
    }
    v.extend(tiny_jpeg());
    v
}

fn container(generation: u8) -> Vec<u8> {
    let mut file = header(generation);
    let at = file.len() as u32;
    let mut fields = element(0x81, &[9]);
    fields.extend(element(0x82, &picture_body()));
    file.extend(element(0x64, &fields));
    with_trailer(
        file,
        &[
            element(0x80, &[1]),
            element(0x81, &at.to_le_bytes()),
        ],
    )
}

#[test]
fn a_container_is_opened_and_analysed() {
    let s = service(vec![("a.xdw".into(), container(7))]);
    let asset = s.open("a.xdw").expect("a document");
    assert_eq!(asset.data, container(7));
    let doc = &asset.document;
    assert_eq!((doc.generation, doc.guard), (7, [1, 2, 3, 4]));
    assert_eq!((doc.trailer_tag, doc.declared_entries), (0x65, 1));
    assert_eq!(doc.pages.len(), 1);
    let page = &doc.pages[0];
    assert_eq!(page.role, Role::Sheet);
    assert_eq!(page.checksum, Some(9));
    match page.data {
        PageData::Jpeg { offset, len } => {
            assert_eq!(&asset.data[offset..offset + len], tiny_jpeg().as_slice())
        }
        _ => panic!("the page is a picture"),
    }
    let a = s.analyze(&asset);
    assert_eq!((a.coverage.sheets, a.coverage.sheets_recovered), (1, 1));
    assert!(a.attachments.is_empty());
    assert_eq!(a.verdict, s.verdict(&asset.data, doc));
    assert_eq!(a.verdict, Verdict::AllPages);
}

#[test]
fn what_the_reader_says_is_handed_on() {
    let s = service(Vec::new());
    match s.open("gone.xdw") {
        Err(Error::Io(why)) => assert_eq!(why, "gone.xdw: no such file"),
        _ => panic!("there is no such file"),
    }
}

#[test]
fn an_embedded_original_is_found() {
    let mut file = container(7);
    let pdf = b"%PDF-1.4\n1 0 obj\n<< >>\nendobj\nstartxref\n0\n%%EOF\n";
    let mut whole = header(7);
    whole.extend(element(0x61, pdf));
    whole.append(&mut file);
    let s = service(Vec::new());
    let found = s.attachments(&whole);
    assert_eq!(found.len(), 1);
    assert_eq!(found[0].bytes(&whole)[..8], pdf[..8]);
}

#[test]
fn a_file_without_a_header_is_no_container() {
    assert!(matches!(parse(&[0x61, 0]), Err(Error::NoFileHeader)));
    assert!(matches!(parse(&[]), Err(Error::BadLength { at: 0 })));
}

#[test]
fn a_generation_that_is_not_known_is_refused() {
    assert!(matches!(
        parse(&container(3)),
        Err(Error::UnsupportedGeneration(3))
    ));
    let no_generation = element(0x60, &element(0x83, &[1, 2, 3, 4]));
    assert!(matches!(
        parse(&no_generation),
        Err(Error::MissingField {
            tag: 0x82,
            in_tag: 0x60
        })
    ));
}

#[test]
fn a_file_cut_short_has_no_trailer() {
    let whole = container(10);
    assert!(parse(&whole).is_ok());
    assert!(matches!(
        parse(&whole[..whole.len() - 1]),
        Err(Error::NoTrailer)
    ));
    let bare = with_trailer(header(7), &[element(0x80, &[0])]);
    assert!(matches!(
        parse(&bare),
        Err(Error::MissingField {
            tag: 0x81,
            in_tag: 0x65
        })
    ));
}

#[test]
fn a_protected_document_is_refused() {
    let plain = container(11);
    assert!(parse(&plain).is_ok());
    let mut file = header(11);
    let at = file.len() as u32;
    file.extend(element(0x64, &element(0x82, &picture_body())));
    let secured = with_trailer(
        file,
        &[
            element(0x80, &[1]),
            element(0x81, &at.to_le_bytes()),
            element(0x88, b"SECU1"),
        ],
    );
    assert!(matches!(parse(&secured), Err(Error::ProtectedDocument)));
}

#[test]
fn pages_are_found_by_scanning_when_the_table_is_wrong() {
    let mut file = header(7);
    file.extend(element(0x64, &element(0x82, &picture_body())));
    let broken = with_trailer(
        file,
        &[
            element(0x80, &[1]),
            element(0x81, &0xFFFF_0000u32.to_le_bytes()),
        ],
    );
    let doc = parse(&broken).expect("a document");
    assert!(doc.rebuilt.is_some());
}

#[test]
fn lengths_are_read_in_short_and_long_form() {
    assert_eq!(read_len(&[0x05], 0).ok(), Some((5, 1)));
    assert_eq!(read_len(&[0x82, 1, 2], 0).ok(), Some((0x102, 3)));
    assert!(matches!(
        read_len(&[0x80], 0),
        Err(Error::BadLength { at: 0 })
    ));
    assert!(matches!(
        read_one(&[0x60, 3, 1], 0),
        Err(Error::Truncated { at: 0, tag: 0x60 })
    ));
    let data = [0x80, 1, 7, 0x81, 2, 1, 0];
    let items = read_window(&data, 0, data.len()).expect("two elements");
    assert_eq!(find_uint(&items, &data, 0x81), Some(256));
    assert_eq!(le_u32s(&[1, 0, 0, 0, 2, 0, 0, 0, 9]), vec![1, 2]);
}

#[test]
fn the_size_of_a_jpeg_is_read() {
    let info = jpeg::info(&tiny_jpeg()).expect("a size");
    assert_eq!((info.width, info.height, info.components), (16, 8, 1));
    assert!(jpeg::info(b"nothing").is_none());
}

fn bits(parts: &[(usize, usize)]) -> Vec<u8> {
    let mut v: Vec<u8> = Vec::new();
    let mut n = 0;
    for (value, width) in parts {
        for k in (0..*width).rev() {
            if n % 8 == 0 {
                v.push(0);
            }
            let bit = ((value >> k) & 1) as u8;
            let last = v.len() - 1;
            v[last] |= bit << (7 - n % 8);
            n += 1;
        }
    }
    v
}

#[test]
fn each_fault_of_a_coded_stream_is_told_apart() {
    assert!(matches!(
        lzh::decode(&[0x00], 1),
        Err(Error::CodingTruncated { at: 8 })
    ));
    assert!(matches!(
        lzh::decode(&[0, 0, 0, 0], 1),
        Err(Error::CodingBadTable)
    ));
    // The first symbol copies three octets from before the start.
    let copy = bits(&[(1, 16), (0, 10), (0, 9), (256, 9), (0, 8), (0, 32)]);
    assert!(matches!(
        lzh::decode(&copy, 3),
        Err(Error::CodingBadDistance)
    ));
    assert!(matches!(
        lzh::decode(&[], usize::MAX),
        Err(Error::CodingAbsurdLength { .. })
    ));
}

#[test]
fn each_error_is_put_into_words() {
    assert_eq!(
        Error::Truncated { at: 12, tag: 0x64 }.describe(),
        "element 0x64 at offset 12 runs past end of file"
    );
    assert_eq!(
        Error::CodingBadDistance.describe(),
        "coded stream copies from before the start of the page"
    );
    for e in [
        Error::NoFileHeader,
        Error::NoTrailer,
        Error::ProtectedDocument,
        Error::UnsupportedGeneration(3),
        Error::MissingField { tag: 1, in_tag: 2 },
        Error::CodingBadTable,
        Error::CodingAbsurdLength { len: 3 },
    ] {
        assert!(!e.describe().is_empty());
    }
}

#[test]
fn files_of_one_kind_do_not_overlap_and_only_a_compound_length_is_an_estimate() {
    let mut data = Vec::new();
    for _ in 0..2 {
        // An empty archive with one local header in front.
        let start = data.len();
        data.extend_from_slice(b"PK\x03\x04....");
        let directory = (data.len() - start) as u32;
        data.extend_from_slice(b"PK\x05\x06");
        data.extend_from_slice(&[0; 8]);
        data.extend_from_slice(&0u32.to_le_bytes());
        data.extend_from_slice(&directory.to_le_bytes());
        data.extend_from_slice(&[0; 2]);
    }
    let compound = data.len();
    data.extend_from_slice(&[0xD0, 0xCF, 0x11, 0xE0, 0xA1, 0xB1, 0x1A, 0xE1]);
    data.resize(compound + 600, 0);
    data[compound + 30] = 9;
    data[compound + 44] = 1;
    let found = scan(&data);
    let seen: Vec<(usize, usize, &str, bool)> = found
        .iter()
        .map(|a| (a.offset, a.len, a.kind.extension(), a.length_is_estimate))
        .collect();
    assert_eq!(
        seen,
        vec![(0, 30, "zip", false), (30, 30, "zip", false), (60, 600, "cfb", true)]
    );
}
