use kvstore::digest::put_decimal;
use kvstore::msgpack::{
    put_header, put_text, same_text, take_header, take_str, take_text, Kind, MAX_LEN,
};

fn header(kind: Kind, len: usize) -> Vec<u8> {
    let mut out = vec![0x2a];
    put_header(&mut out, kind, len);
    assert_eq!(out[0], 0x2a);
    out[1..].to_vec()
}

fn decimal(n: usize) -> Vec<u8> {
    let mut out = Vec::new();
    put_decimal(&mut out, n);
    out
}

#[test]
fn string_headers_take_the_shortest_form() {
    assert_eq!(header(Kind::Str, 0), vec![0xa0]);
    assert_eq!(header(Kind::Str, 31), vec![0xbf]);
    assert_eq!(header(Kind::Str, 32), vec![0xd9, 32]);
    assert_eq!(header(Kind::Str, 255), vec![0xd9, 255]);
    assert_eq!(header(Kind::Str, 256), vec![0xda, 1, 0]);
    assert_eq!(header(Kind::Str, 0xffff), vec![0xda, 0xff, 0xff]);
    assert_eq!(header(Kind::Str, 0x1_0000), vec![0xdb, 0, 1, 0, 0]);
    assert_eq!(header(Kind::Str, 0x0102_0304), vec![0xdb, 1, 2, 3, 4]);
    assert_eq!(header(Kind::Str, MAX_LEN), vec![0xdb, 0xff, 0xff, 0xff, 0xff]);
}

#[test]
fn array_headers_take_the_shortest_form() {
    assert_eq!(header(Kind::Array, 0), vec![0x90]);
    assert_eq!(header(Kind::Array, 15), vec![0x9f]);
    assert_eq!(header(Kind::Array, 16), vec![0xdc, 0, 16]);
    assert_eq!(header(Kind::Array, 0xabcd), vec![0xdc, 0xab, 0xcd]);
    assert_eq!(header(Kind::Array, 0x1_0000), vec![0xdd, 0, 1, 0, 0]);
    assert_eq!(header(Kind::Array, MAX_LEN), vec![0xdd, 0xff, 0xff, 0xff, 0xff]);
}

#[test]
fn map_headers_take_the_shortest_form() {
    assert_eq!(header(Kind::Assoc, 0), vec![0x80]);
    assert_eq!(header(Kind::Assoc, 15), vec![0x8f]);
    assert_eq!(header(Kind::Assoc, 16), vec![0xde, 0, 16]);
    assert_eq!(header(Kind::Assoc, 300), vec![0xde, 1, 44]);
    assert_eq!(header(Kind::Assoc, 0x1_0000), vec![0xdf, 0, 1, 0, 0]);
}

#[test]
fn headers_are_read_back() {
    for kind in [Kind::Str, Kind::Array, Kind::Assoc] {
        for len in [0, 1, 15, 16, 31, 32, 255, 256, 0xffff, 0x1_0000, 0x0102_0304, MAX_LEN] {
            let mut bytes = vec![0xc0, 0xc0];
            put_header(&mut bytes, kind, len);
            let end = bytes.len();
            bytes.push(0xc1);
            assert_eq!(take_header(&bytes, 2, kind), Some((len, end)));
        }
    }
}

#[test]
fn header_of_another_family_is_not_read() {
    assert_eq!(take_header(&[0xa3], 0, Kind::Array), None);
    assert_eq!(take_header(&[0xa3], 0, Kind::Assoc), None);
    assert_eq!(take_header(&[0x93], 0, Kind::Str), None);
    assert_eq!(take_header(&[0x83], 0, Kind::Array), None);
    assert_eq!(take_header(&[0xd9, 3], 0, Kind::Array), None);
    assert_eq!(take_header(&[0xdc, 0, 3], 0, Kind::Assoc), None);
    assert_eq!(take_header(&[0xc0], 0, Kind::Str), None);
    assert_eq!(take_header(&[0x7f], 0, Kind::Assoc), None);
}

#[test]
fn header_that_is_cut_short_is_not_read() {
    assert_eq!(take_header(&[], 0, Kind::Str), None);
    assert_eq!(take_header(&[0xa1], 1, Kind::Str), None);
    assert_eq!(take_header(&[0xd9], 0, Kind::Str), None);
    assert_eq!(take_header(&[0xda, 0], 0, Kind::Str), None);
    assert_eq!(take_header(&[0xdb, 0, 0, 0], 0, Kind::Str), None);
    assert_eq!(take_header(&[0xdd, 0, 0, 0], 0, Kind::Array), None);
    assert_eq!(take_header(&[0xde, 0], 0, Kind::Assoc), None);
}

#[test]
fn longer_forms_of_short_lengths_are_read() {
    assert_eq!(take_header(&[0xd9, 3], 0, Kind::Str), Some((3, 2)));
    assert_eq!(take_header(&[0xda, 0, 3], 0, Kind::Str), Some((3, 3)));
    assert_eq!(take_header(&[0xdb, 0, 0, 0, 3], 0, Kind::Str), Some((3, 5)));
    assert_eq!(take_header(&[0xdf, 0, 0, 1, 2], 0, Kind::Assoc), Some((258, 5)));
}

#[test]
fn strings_are_read_where_they_stand() {
    let bytes = b"\xc0\xa3abc\xa0\xd9\x02de";
    assert_eq!(take_str(bytes, 1), Some((2, 5)));
    assert_eq!(take_str(bytes, 5), Some((6, 6)));
    assert_eq!(take_str(bytes, 6), Some((8, 10)));
    assert_eq!(take_str(bytes, 0), None);
    assert_eq!(take_str(bytes, 10), None);
    assert_eq!(take_str(b"\xa3ab", 0), None);
    assert_eq!(take_str(b"\xdb\xff\xff\xff\xffab", 0), None);
}

#[test]
fn texts_are_written_and_read_back() {
    let mut bytes = Vec::new();
    put_text(&mut bytes, "héllo");
    put_text(&mut bytes, "");
    put_text(&mut bytes, &"x".repeat(300));
    assert_eq!(&bytes[..7], b"\xa6h\xc3\xa9llo");
    assert_eq!(bytes[7], 0xa0);
    assert_eq!(&bytes[8..11], &[0xda, 1, 44]);
    assert_eq!(take_text(&bytes, 0), Some(("héllo".to_string(), 7)));
    assert_eq!(take_text(&bytes, 7), Some((String::new(), 8)));
    assert_eq!(take_text(&bytes, 8), Some(("x".repeat(300), 311)));
    assert_eq!(take_text(&bytes, 311), None);
}

#[test]
fn text_that_is_not_utf8_is_not_read() {
    assert_eq!(take_text(b"\xa1\x80", 0), None);
    assert_eq!(take_text(b"\xa2\xc0\xaf", 0), None);
    assert_eq!(take_text(b"\xa3\xed\xa0\x80", 0), None);
    assert_eq!(take_text(b"\xa4\xf4\x90\x80\x80", 0), None);
    assert_eq!(take_text(b"\xa2\xc3", 0), None);
    assert_eq!(
        take_text(b"\xa4\xf0\x9f\xa6\x80", 0),
        Some(("🦀".to_string(), 5))
    );
}

#[test]
fn texts_are_compared_on_their_bytes() {
    assert!(same_text("", ""));
    assert!(same_text("Get", "Get"));
    assert!(!same_text("Get", "Put"));
    assert!(!same_text("Get", "Gets"));
    assert!(!same_text("Get", "get"));
    assert!(same_text("clé", "clé"));
    assert!(!same_text("cle", "clé"));
}

#[test]
fn numbers_are_written_in_decimal() {
    assert_eq!(decimal(0), b"0".to_vec());
    assert_eq!(decimal(7), b"7".to_vec());
    assert_eq!(decimal(10), b"10".to_vec());
    assert_eq!(decimal(109), b"109".to_vec());
    assert_eq!(decimal(9_876_543_210), b"9876543210".to_vec());
    assert_eq!(decimal(usize::MAX), usize::MAX.to_string().into_bytes());
}
