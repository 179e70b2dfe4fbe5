//! Compression.

use b2fmsg::lzhuf::crc::crc16;
use b2fmsg::lzhuf::position::{d_tables, p_code_table, p_len_table};
use b2fmsg::lzhuf::{compress, decode_b2, decompress, encode_b2};

fn roundtrip(data: &[u8]) {
    let packed = encode_b2(data);
    assert_eq!(decode_b2(&packed).unwrap(), data);
}

#[test]
fn position_tables_match_lzhuf() {
    let (p_len, p_code, (d_code, d_len)) = (p_len_table(), p_code_table(), d_tables());
    // Spot checks against the published LZHUF tables.
    assert_eq!(
        &p_code[..8],
        &[0x00, 0x20, 0x30, 0x40, 0x50, 0x58, 0x60, 0x68]
    );
    assert_eq!(
        &p_code[56..],
        &[0xF8, 0xF9, 0xFA, 0xFB, 0xFC, 0xFD, 0xFE, 0xFF]
    );
    assert_eq!(p_len[0], 3);
    assert_eq!(p_len[63], 8);
    assert_eq!(d_code[0x30], 2);
    assert_eq!(d_len[0x30], 4);
    assert_eq!(d_code[0xC0], 0x18);
    assert_eq!(d_code[0xFF], 0x3F);
}

#[test]
fn crc_xmodem_check_value() {
    assert_eq!(crc16(b"123456789"), 0x31C3);
}

#[test]
fn empty_is_six_bytes() {
    let packed = encode_b2(b"");
    assert_eq!(packed.len(), 6);
    assert_eq!(decode_b2(&packed).unwrap(), b"");
}

#[test]
fn roundtrips() {
    roundtrip(b"a");
    roundtrip(b"abc");
    roundtrip(b"aaaaaaaaaaaaaaaaaaaaaaaaaaaaaaaaaaaaaaaaaaaaaaaaaaaaaaaaaaaaaaaaaaaaaaa");
    roundtrip(b"Hello, Winlink! Hello, Winlink! Hello, Winlink!\r\n");
    let text: Vec<u8> = (0..20_000)
        .map(|i| b"the quick brown fox jumps over the lazy dog "[i % 44])
        .collect();
    roundtrip(&text);
    let mut noise = Vec::with_capacity(70_000);
    let mut x: u32 = 0x1234_5678;
    for _ in 0..70_000 {
        x ^= x << 13;
        x ^= x >> 17;
        x ^= x << 5;
        noise.push((x >> 24) as u8);
    }
    roundtrip(&noise);
    // Long runs force frequent tree reconstruction.
    roundtrip(&vec![0u8; 200_000]);
}

#[test]
fn compresses_text() {
    let text = b"CQ CQ CQ de SA0KAM SA0KAM SA0KAM pse k. ".repeat(50);
    let packed = encode_b2(&text);
    assert!(
        packed.len() * 4 < text.len(),
        "{} vs {}",
        packed.len(),
        text.len()
    );
}

#[test]
fn detects_corruption() {
    let mut packed = encode_b2(b"Some message body that is long enough to matter.");
    let last = packed.len() - 1;
    packed[last] ^= 0x55;
    assert!(decode_b2(&packed).unwrap_err().contains("CRC"));
    assert!(decode_b2(&[1, 2, 3]).is_err());
}

#[test]
fn detects_truncation() {
    let text = b"truncate me please, truncate me please, 0123456789".repeat(20);
    let raw = compress(&text);
    assert!(decompress(&raw[..raw.len() / 2], text.len()).is_err());
}
