use fift_core::bitstring::{decode_binary_bitstring, decode_hex_bitstring};
use fift_core::error::Error;

fn chars(s: &str) -> Vec<char> {
    s.chars().collect()
}

fn hex_bits(s: &str) -> Result<(u16, Vec<u8>), Error> {
    decode_hex_bitstring(&chars(s)).map(|b| (b.size_bits(), b.raw_data().to_vec()))
}

fn bin_bits(s: &str) -> Result<(u16, Vec<u8>), Error> {
    decode_binary_bitstring(&chars(s)).map(|b| (b.size_bits(), b.raw_data().to_vec()))
}

#[test]
fn hex_bitstring_whole_bytes() {
    let (bits, data) = hex_bits("a5ff").ok().unwrap();
    assert_eq!(bits, 16);
    assert_eq!(&data[..2], &[0xa5, 0xff]);
}

#[test]
fn hex_bitstring_half_byte() {
    let (bits, data) = hex_bits("a5f").ok().unwrap();
    assert_eq!(bits, 12);
    assert_eq!(&data[..2], &[0xa5, 0xf0]);
}

#[test]
fn hex_bitstring_with_tag() {
    // 0x8 tagged: the last 1 bit ends the data, nothing is left
    assert_eq!(hex_bits("8_").ok().unwrap().0, 0);
    // 0xa4 tagged: 1010_0100 -> data 10100
    let (bits, data) = hex_bits("a4_").ok().unwrap();
    assert_eq!(bits, 5);
    assert_eq!(data[0] & 0xf8, 0xa0);
    assert_eq!(hex_bits("00_").ok().unwrap().0, 0);
}

#[test]
fn hex_bitstring_errors() {
    assert!(matches!(hex_bits("zz"), Err(Error::InvalidBitString)));
    assert!(matches!(hex_bits("az"), Err(Error::InvalidBitString)));
    assert!(matches!(hex_bits("é"), Err(Error::InvalidBitString)));
    let long = "f".repeat(258);
    assert!(matches!(hex_bits(&long), Err(Error::InvalidBitString)));
    let full = "f".repeat(256);
    assert!(matches!(hex_bits(&full), Err(Error::CellOverflow)));
}

#[test]
fn binary_bitstring() {
    let (bits, data) = bin_bits("1011").ok().unwrap();
    assert_eq!(bits, 4);
    assert_eq!(data[0] & 0xf0, 0xb0);
    assert_eq!(bin_bits("").ok().unwrap().0, 0);
}

#[test]
fn binary_bitstring_errors() {
    assert!(matches!(bin_bits("102"), Err(Error::InvalidBitString)));
    let max = "1".repeat(1023);
    assert_eq!(bin_bits(&max).ok().unwrap().0, 1023);
    let over = "1".repeat(1024);
    assert!(matches!(bin_bits(&over), Err(Error::InvalidBitString)));
}

fn text(data: &[u8], bits: u16) -> String {
    let mut buf = vec![0u8; 128];
    buf[..data.len()].copy_from_slice(data);
    fift_core::bitstring::slice_data_text(&buf, bits).into_iter().collect()
}

#[test]
fn slice_text_whole_bytes() {
    assert_eq!(text(&[0xa5, 0xff], 16), "x{a5f}");
    assert_eq!(text(&[], 0), "x{}");
}

#[test]
fn slice_text_with_tag() {
    // 4 bits 1010: digit a, no tag
    assert_eq!(text(&[0xa0], 4), "x{a}");
    // 5 bits 10100 + tag 1 -> 1010_0100 = a4, ends in a tag
    assert_eq!(text(&[0xa0], 5), "x{a4_}");
    // 3 bits 101 + tag -> 1011 = b
    assert_eq!(text(&[0xa0], 3), "x{b_}");
}

#[test]
fn append_tag_sets_end_bit() {
    let mut buf = vec![0xffu8; 128];
    fift_core::bitstring::append_tag(&mut buf, 3);
    assert_eq!(buf[0], 0xf0);
    let mut buf = vec![0u8; 128];
    fift_core::bitstring::append_tag(&mut buf, 16);
    assert_eq!(buf[2], 0);
}
