use xdw_salvage::infrastructure::ccitt;
use xdw_salvage::infrastructure::deflate::{adler32, crc32, zlib};
use xdw_salvage::infrastructure::lzh;

fn bits(s: &str) -> Vec<u8> {
    let mut out = Vec::new();
    let mut byte = 0u8;
    let digits: Vec<u8> = s.bytes().filter(|b| *b == b'0' || *b == b'1').collect();
    for (i, bit) in digits.iter().enumerate() {
        byte = (byte << 1) | u8::from(*bit == b'1');
        if i % 8 == 7 {
            out.push(byte);
            byte = 0;
        }
    }
    let rem = digits.len() % 8;
    if rem != 0 {
        out.push(byte << (8 - rem));
    }
    out
}

#[test]
fn decodes_all_white_rows_against_an_imaginary_reference() {
    let raster = ccitt::decode(&[0xFF], 8, 8).expect("all-white Group 4");
    assert_eq!(raster.rows, vec![0; 8]);
}

#[test]
fn decodes_horizontal_black_run_and_vertical_repeat() {
    let stream = bits("001 0111 011 1 1 1 1");
    let raster = ccitt::decode(&stream, 8, 2).expect("synthetic Group 4");
    assert_eq!(raster.rows, vec![0x3C, 0x3C]);
}

#[test]
fn a_cut_off_group_4_stream_is_refused_unless_it_may_be_short() {
    let stream = bits("001 0111 011 1");
    assert!(ccitt::decode(&stream, 8, 64).is_none());
    assert!(ccitt::decode(&[], 0, 8).is_none());
}

/// Reads a stream of one block in the fixed code, without its checksum.
fn inflate_fixed(z: &[u8]) -> Vec<u8> {
    const LENGTH_BASE: [usize; 29] = [
        3, 4, 5, 6, 7, 8, 9, 10, 11, 13, 15, 17, 19, 23, 27, 31, 35, 43, 51, 59, 67, 83, 99, 115,
        131, 163, 195, 227, 258,
    ];
    const LENGTH_EXTRA: [u32; 29] = [
        0, 0, 0, 0, 0, 0, 0, 0, 1, 1, 1, 1, 2, 2, 2, 2, 3, 3, 3, 3, 4, 4, 4, 4, 5, 5, 5, 5, 0,
    ];
    const DIST_BASE: [usize; 30] = [
        1, 2, 3, 4, 5, 7, 9, 13, 17, 25, 33, 49, 65, 97, 129, 193, 257, 385, 513, 769, 1025, 1537,
        2049, 3073, 4097, 6145, 8193, 12289, 16385, 24577,
    ];
    const DIST_EXTRA: [u32; 30] = [
        0, 0, 0, 0, 1, 1, 2, 2, 3, 3, 4, 4, 5, 5, 6, 6, 7, 7, 8, 8, 9, 9, 10, 10, 11, 11, 12, 12,
        13, 13,
    ];
    let mut at = 16usize;
    let mut bit = || {
        let b = (z[at / 8] >> (at % 8)) & 1;
        at += 1;
        u32::from(b)
    };
    let mut out: Vec<u8> = Vec::new();
    assert_eq!(bit(), 1);
    assert_eq!(bit() | (bit() << 1), 1);
    loop {
        let mut code = 0u32;
        let mut n = 0;
        let symbol = loop {
            code = (code << 1) | bit();
            n += 1;
            match (n, code) {
                (7, 0..=23) => break code + 256,
                (8, 48..=191) => break code - 48,
                (8, 192..=199) => break code - 192 + 280,
                (9, 400..=511) => break code - 400 + 144,
                _ => assert!(n < 9),
            }
        };
        if symbol < 256 {
            out.push(symbol as u8);
            continue;
        }
        if symbol == 256 {
            return out;
        }
        let k = (symbol - 257) as usize;
        let mut len = LENGTH_BASE[k];
        for i in 0..LENGTH_EXTRA[k] {
            len += (bit() << i) as usize;
        }
        let mut d = 0u32;
        for _ in 0..5 {
            d = (d << 1) | bit();
        }
        let mut dist = DIST_BASE[d as usize];
        for i in 0..DIST_EXTRA[d as usize] {
            dist += (bit() << i) as usize;
        }
        let start = out.len() - dist;
        for k in 0..len {
            out.push(out[start + k]);
        }
    }
}

fn round_trip(data: &[u8]) {
    let z = zlib(data);
    assert_eq!(&z[..2], &[0x78, 0x9C]);
    let back = inflate_fixed(&z[..z.len() - 4]);
    assert_eq!(back, data);
    let tail = &z[z.len() - 4..];
    assert_eq!(
        u32::from_be_bytes([tail[0], tail[1], tail[2], tail[3]]),
        adler32(data)
    );
}

#[test]
fn empty_and_tiny_inputs_round_trip() {
    round_trip(b"");
    round_trip(b"a");
    round_trip(b"ab");
    round_trip(b"abc");
}

#[test]
fn repeated_bytes_become_matches_and_come_back() {
    let data = vec![0xFFu8; 100_000];
    let z = zlib(&data);
    assert!(z.len() < 1000, "a flat page should shrink hard: {}", z.len());
    round_trip(&data);
}

#[test]
fn mixed_content_round_trips() {
    let mut data = Vec::new();
    for i in 0..20_000u32 {
        data.push((i.wrapping_mul(2654435761) >> 13) as u8);
        if i % 7 == 0 {
            data.extend_from_slice(b"the same phrase again and again");
        }
    }
    round_trip(&data);
}

#[test]
fn matches_across_the_maximum_length_and_far_distances_round_trip() {
    let mut data: Vec<u8> = (0..40_000u32).map(|i| (i % 251) as u8).collect();
    data.extend_from_slice(&data.clone()[..5000]);
    round_trip(&data);
}

#[test]
fn the_checksums_match_the_standard_test_values() {
    assert_eq!(adler32(b"Wikipedia"), 0x11E6_0398);
    assert_eq!(crc32(b"123456789"), 0xCBF4_3926);
}

#[test]
fn the_checksums_of_nothing() {
    assert_eq!(adler32(b""), 1);
    assert_eq!(crc32(b""), 0);
}

#[test]
fn a_coded_stream_of_one_repeated_symbol_expands() {
    // One block of five symbols: every table holds a single code of no bits.
    let mut s = String::new();
    s.push_str(&format!("{:016b}", 5));
    // The length table: no codes, the one value 0.
    s.push_str("00000 00000");
    // The symbol table: no codes, the one value 65.
    s.push_str("000000000 001000001");
    // The distance table: no codes, the one value 0.
    s.push_str("0000 0000");
    s.push_str(&"0".repeat(64));
    let data = bits(&s);
    match lzh::decode(&data, 5) {
        Ok(out) => assert_eq!(out, b"AAAAA"),
        Err(e) => panic!("{}", e.describe()),
    }
}

#[test]
fn a_stream_that_expands_to_nothing_is_nothing() {
    assert_eq!(lzh::decode(&[], 0).ok(), Some(Vec::new()));
    assert!(lzh::decode(&[], 5).is_err());
}

#[test]
fn a_shorter_expansion_is_the_start_of_a_longer_one() {
    let mut s = String::new();
    s.push_str(&format!("{:016b}", 5));
    s.push_str("00000 00000 000000000 001000001 0000 0000");
    s.push_str(&"0".repeat(64));
    let data = bits(&s);
    let whole = lzh::decode(&data, 5).ok().expect("five octets");
    for m in 0..=5 {
        assert_eq!(lzh::decode(&data, m).ok(), Some(whole[..m].to_vec()));
    }
    assert!(matches!(
        lzh::decode(&data, 268_435_457),
        Err(xdw_salvage::Error::CodingAbsurdLength { len: 268_435_457 })
    ));
}

#[test]
fn what_follows_the_rows_is_ignored_and_the_last_columns_are_clear() {
    let mut stream = bits("001 0111 011 1 1 1 1");
    let r = ccitt::decode(&stream, 6, 2).expect("two rows");
    assert_eq!((r.width, r.height, r.rows.len()), (6, 2, 2));
    assert!(r.rows.iter().all(|b| b & 0x03 == 0));
    stream.extend_from_slice(&[0xAA, 0x00, 0xFF]);
    assert_eq!(ccitt::decode(&stream, 6, 2), Some(r));
}

#[test]
fn a_row_that_ends_at_its_edge_reads_the_same_either_way() {
    // A white run of six, then a black run of none, then rows like it.
    let stream = bits("001 1110 0000110111 1 1 1 1");
    let strict = ccitt::decode(&stream, 6, 2);
    assert!(strict.is_some());
    assert_eq!(strict, ccitt::decode_relaxed(&stream, 6, 2));
}
