use registry_index::container::{decode_dump, decode_table, encode_dump, encode_table};
use registry_index::package::Crate;
use registry_index::wire::{put_count, put_frame, put_text, put_u32, DecodeError, Reader};

fn sample() -> Crate {
    Crate {
        name: "ab".to_string(),
        repository: Some("r".to_string()),
        homepage: None,
        documentation: None,
        description: String::new(),
        latest_stable_version: Some("1.0.0".to_string()),
        latest_version: None,
        categories: vec![],
        keywords: vec![3, 258],
        num_versions: 2,
        order: 1,
    }
}

fn sample_bytes() -> Vec<u8> {
    let mut b: Vec<u8> = Vec::new();
    b.extend_from_slice(&[1, 0, 0, 0]);
    b.extend_from_slice(&[2, 0, 0, 0]);
    b.extend_from_slice(&[2, 0, 0, 0]);
    b.extend_from_slice(&[3, 0, 0, 0]);
    b.extend_from_slice(&[2, 1, 0, 0]);
    b.extend_from_slice(&[0, 0, 0, 0]);
    b.extend_from_slice(&[2, 0, 0, 0]);
    b.extend_from_slice(b"ab");
    b.extend_from_slice(&[0, 0, 0, 0]);
    b.extend_from_slice(&[1, 0, 0, 0]);
    b.extend_from_slice(b"r");
    b.extend_from_slice(&[0, 0, 0, 0]);
    b.extend_from_slice(&[0, 0, 0, 0]);
    b.extend_from_slice(&[5, 0, 0, 0]);
    b.extend_from_slice(b"1.0.0");
    b.extend_from_slice(&[0, 0, 0, 0]);
    b
}

fn full() -> Crate {
    Crate {
        name: "serde".to_string(),
        repository: Some("https://github.com/serde-rs/serde".to_string()),
        homepage: Some("https://serde.rs".to_string()),
        documentation: Some("https://docs.rs/serde".to_string()),
        description: "A generic serialization/deserialization framework — ünïcödé".to_string(),
        latest_stable_version: Some("1.0.200".to_string()),
        latest_version: Some("1.0.0-rc.1".to_string()),
        categories: vec![7, 0, u32::MAX],
        keywords: vec![1, 2, 2, 70000],
        num_versions: 301,
        order: 4_000_000_000,
    }
}

#[test]
fn u32_is_written_least_significant_byte_first() {
    let mut out = vec![9u8];
    put_u32(&mut out, 0x0403_0201);
    put_u32(&mut out, 0);
    put_u32(&mut out, u32::MAX);
    assert_eq!(out, vec![9, 1, 2, 3, 4, 0, 0, 0, 0, 255, 255, 255, 255]);
}

#[test]
fn count_is_written_as_u32() {
    let mut out = Vec::new();
    put_count(&mut out, 258);
    assert_eq!(out, vec![2, 1, 0, 0]);
}

#[test]
fn text_is_length_prefixed_utf8() {
    let mut out = Vec::new();
    put_text(&mut out, "hé");
    assert_eq!(out, vec![3, 0, 0, 0, b'h', 0xC3, 0xA9]);
    let mut empty = Vec::new();
    put_text(&mut empty, "");
    assert_eq!(empty, vec![0, 0, 0, 0]);
}

#[test]
fn frame_is_length_then_bytes() {
    let mut out = Vec::new();
    put_frame(&mut out, &[7, 8, 9]);
    assert_eq!(out, vec![3, 0, 0, 0, 7, 8, 9]);
}

#[test]
fn to_vec_follows_the_layout() {
    assert_eq!(sample().to_vec(), sample_bytes());
    assert_eq!(sample().to_bytes(), sample_bytes());
}

#[test]
fn from_vec_reads_the_layout() {
    assert_eq!(Crate::from_vec(sample_bytes()), Ok(sample()));
    assert_eq!(Crate::from_bytes(&sample_bytes()), Ok(sample()));
}

#[test]
fn record_round_trips() {
    assert_eq!(Crate::from_vec(full().to_vec()), Ok(full()));
    assert_eq!(Crate::from_vec(sample().to_vec()), Ok(sample()));
}

#[test]
fn absent_fields_stay_absent() {
    let c = Crate {
        name: "n".to_string(),
        repository: None,
        homepage: None,
        documentation: None,
        description: "d".to_string(),
        latest_stable_version: None,
        latest_version: None,
        categories: vec![],
        keywords: vec![],
        num_versions: 0,
        order: 0,
    };
    let back = Crate::from_vec(c.clone().to_vec()).unwrap();
    assert_eq!(back.repository, None);
    assert_eq!(back.homepage, None);
    assert_eq!(back.documentation, None);
    assert_eq!(back.latest_stable_version, None);
    assert_eq!(back.latest_version, None);
    assert_eq!(back, c);
}

#[test]
fn present_but_empty_reads_as_absent() {
    let mut c = sample();
    c.homepage = Some(String::new());
    c.latest_version = Some(String::new());
    let back = Crate::from_vec(c.to_vec()).unwrap();
    assert_eq!(back, sample());
}

#[test]
fn bytes_after_the_record_are_ignored() {
    let mut bytes = sample_bytes();
    bytes.extend_from_slice(&[1, 2, 3]);
    assert_eq!(Crate::from_vec(bytes), Ok(sample()));
}

#[test]
fn every_strict_prefix_is_an_error() {
    let bytes = sample_bytes();
    for cut in 0..bytes.len() {
        let r = Crate::from_vec(bytes[..cut].to_vec());
        assert!(r.is_err(), "prefix of {} bytes decoded", cut);
    }
}

#[test]
fn short_fixed_field_is_truncated() {
    assert_eq!(Crate::from_vec(vec![]), Err(DecodeError::Truncated));
    assert_eq!(Crate::from_vec(vec![1, 0, 0]), Err(DecodeError::Truncated));
    assert_eq!(Crate::from_vec(vec![1, 0, 0, 0, 2, 0]), Err(DecodeError::Truncated));
}

#[test]
fn short_identifier_list_is_truncated() {
    // order, num_versions, then a count of 3 with one identifier only
    let bytes = vec![0, 0, 0, 0, 0, 0, 0, 0, 3, 0, 0, 0, 9, 0, 0, 0];
    assert_eq!(Crate::from_vec(bytes), Err(DecodeError::Truncated));
    let huge = vec![0, 0, 0, 0, 0, 0, 0, 0, 255, 255, 255, 255];
    assert_eq!(Crate::from_vec(huge), Err(DecodeError::Truncated));
}

#[test]
fn short_text_is_truncated() {
    // name declares 5 bytes, 2 follow
    let bytes = vec![0, 0, 0, 0, 0, 0, 0, 0, 0, 0, 0, 0, 0, 0, 0, 0, 5, 0, 0, 0, b'a', b'b'];
    assert_eq!(Crate::from_vec(bytes), Err(DecodeError::Truncated));
}

#[test]
fn missing_optional_field_is_unexpected_end() {
    let bytes = sample_bytes();
    // cut before the last optional field
    let cut = bytes.len() - 4;
    assert_eq!(Crate::from_vec(bytes[..cut].to_vec()), Err(DecodeError::UnexpectedEnd));
    // cut before the first optional field: after name and description
    let head = 4 * 6 + 4 + 2 + 4;
    assert_eq!(Crate::from_vec(bytes[..head].to_vec()), Err(DecodeError::UnexpectedEnd));
}

#[test]
fn partial_optional_field_is_truncated() {
    let bytes = sample_bytes();
    let cut = bytes.len() - 2;
    assert_eq!(Crate::from_vec(bytes[..cut].to_vec()), Err(DecodeError::Truncated));
}

#[test]
fn invalid_utf8_is_an_error() {
    let mut bytes = vec![0, 0, 0, 0, 0, 0, 0, 0, 0, 0, 0, 0, 0, 0, 0, 0];
    bytes.extend_from_slice(&[2, 0, 0, 0, 0xFF, 0xFE]);
    assert_eq!(Crate::from_vec(bytes), Err(DecodeError::InvalidUtf8));
}

#[test]
fn reader_reads_in_sequence() {
    let data = vec![1, 0, 0, 0, 2, 0, 0, 0, b'h', b'i', 0, 0, 0, 0, 1, 0, 0, 0, 7];
    let mut r = Reader::new(&data);
    assert!(!r.at_end());
    assert_eq!(r.read_u32(), Ok(1));
    assert_eq!(r.read_text(), Ok("hi".to_string()));
    assert_eq!(r.read_optional_text(), Ok(None));
    assert_eq!(r.read_frame(), Ok(&[7u8][..]));
    assert!(r.at_end());
    assert_eq!(r.read_u32(), Err(DecodeError::Truncated));
    assert_eq!(r.read_optional_text(), Err(DecodeError::UnexpectedEnd));
}

#[test]
fn reader_reads_identifier_lists() {
    let data = vec![1, 0, 0, 0, 0, 1, 0, 0, 9];
    let mut r = Reader::new(&data);
    assert_eq!(r.read_ids(2), Ok(vec![1, 256]));
    assert_eq!(r.read_ids(0), Ok(vec![]));
    assert_eq!(r.read_ids(1), Err(DecodeError::Truncated));
}

#[test]
fn dump_frames_each_record() {
    let bytes = encode_dump(&vec![sample(), sample()]);
    let rec = sample_bytes();
    let mut want = Vec::new();
    for _ in 0..2 {
        want.extend_from_slice(&(rec.len() as u32).to_le_bytes());
        want.extend_from_slice(&rec);
    }
    assert_eq!(bytes, want);
    assert_eq!(encode_dump(&vec![]), Vec::<u8>::new());
}

#[test]
fn dump_round_trips_in_order() {
    let crates = vec![full(), sample(), full()];
    let bytes = encode_dump(&crates);
    assert_eq!(decode_dump(&bytes), Ok(crates));
    assert_eq!(decode_dump(&[]), Ok(vec![]));
}

#[test]
fn dump_with_short_frame_is_truncated() {
    let mut bytes = encode_dump(&vec![sample()]);
    bytes.pop();
    assert_eq!(decode_dump(&bytes), Err(DecodeError::Truncated));
    assert_eq!(decode_dump(&[5, 0]), Err(DecodeError::Truncated));
}

#[test]
fn dump_with_bad_record_reports_the_record_error() {
    // a frame of four bytes holds only the order field
    let bytes = vec![4, 0, 0, 0, 1, 0, 0, 0];
    assert_eq!(decode_dump(&bytes), Err(DecodeError::Truncated));
}

#[test]
fn table_is_flat() {
    let entries = vec![(1u32, "cli".to_string()), (258u32, "".to_string())];
    let bytes = encode_table(&entries);
    assert_eq!(bytes, vec![1, 0, 0, 0, 3, 0, 0, 0, b'c', b'l', b'i', 2, 1, 0, 0, 0, 0, 0, 0]);
    assert_eq!(encode_table(&vec![]), Vec::<u8>::new());
}

#[test]
fn table_round_trips() {
    let entries =
        vec![(9u32, "web".to_string()), (2u32, "日本語".to_string()), (9u32, "again".to_string())];
    assert_eq!(decode_table(&encode_table(&entries)), Ok(entries));
    assert_eq!(decode_table(&[]), Ok(vec![]));
}

#[test]
fn table_errors() {
    assert_eq!(decode_table(&[1, 0]), Err(DecodeError::Truncated));
    assert_eq!(decode_table(&[1, 0, 0, 0]), Err(DecodeError::Truncated));
    assert_eq!(decode_table(&[1, 0, 0, 0, 2, 0, 0, 0, b'a']), Err(DecodeError::Truncated));
    assert_eq!(decode_table(&[1, 0, 0, 0, 1, 0, 0, 0, 0x80]), Err(DecodeError::InvalidUtf8));
}

#[test]
fn every_combination_of_optional_fields_round_trips() {
    for mask in 0..32u32 {
        let pick = |bit: u32, text: &str| {
            if mask & (1 << bit) != 0 {
                Some(text.to_string())
            } else {
                None
            }
        };
        let c = Crate {
            name: "name".to_string(),
            repository: pick(0, "repo"),
            homepage: pick(1, "home"),
            documentation: pick(2, "docs"),
            description: "text".to_string(),
            latest_stable_version: pick(3, "1.2.3"),
            latest_version: pick(4, "1.3.0-pre"),
            categories: vec![mask],
            keywords: vec![],
            num_versions: mask,
            order: 31 - mask,
        };
        assert_eq!(Crate::from_vec(c.clone().to_vec()), Ok(c));
    }
}

#[test]
fn long_identifier_lists_round_trip() {
    let mut c = sample();
    c.keywords = (0..1000u32).map(|i| i * 4_000_000).collect();
    c.categories = (0..300u32).rev().collect();
    let bytes = c.clone().to_vec();
    assert_eq!(bytes.len(), sample_bytes().len() + 4 * (1000 - 2) + 4 * 300);
    assert_eq!(Crate::from_vec(bytes), Ok(c));
}
