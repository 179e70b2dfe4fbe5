//! The codecs: base64, MD5, dates, charsets, compression, clock arithmetic.

use b2fmsg::base64;
use b2fmsg::charset::{decode_header, decode_text, encode_header, encode_text, is_latin1};
use b2fmsg::clock;
use b2fmsg::date;
use b2fmsg::lzhuf::{compress, decode_b2, decompress, encode_b2};
use b2fmsg::md5;

fn hex(bytes: &[u8]) -> String {
    bytes.iter().map(|b| format!("{b:02x}")).collect()
}

#[test]
fn base64_vectors() {
    for (plain, coded) in [
        ("", ""),
        ("f", "Zg=="),
        ("fo", "Zm8="),
        ("foo", "Zm9v"),
        ("foob", "Zm9vYg=="),
        ("fooba", "Zm9vYmE="),
        ("foobar", "Zm9vYmFy"),
    ] {
        assert_eq!(base64::encode(plain.as_bytes()), coded);
        assert_eq!(base64::decode(coded).unwrap(), plain.as_bytes());
    }
    assert_eq!(base64::encode(&[0xfb, 0xff]), "+/8=");
}

#[test]
fn base64_rejects_what_is_not_base64() {
    for s in ["Zg", "Zg=", "Z===", "Zm9v!", "Zm9*", "Zg==Zg=="] {
        assert_eq!(base64::decode(s).unwrap_err(), "invalid base64", "{s}");
    }
}

#[test]
fn base64_gives_back_every_byte() {
    let all: Vec<u8> = (0..=255).collect();
    assert_eq!(base64::decode(&base64::encode(&all)).unwrap(), all);
}

#[test]
fn md5_vectors() {
    assert_eq!(hex(&md5::digest(b"")), "d41d8cd98f00b204e9800998ecf8427e");
    assert_eq!(
        hex(&md5::digest(b"abc")),
        "900150983cd24fb0d6963f7d28e17f72"
    );
    assert_eq!(
        hex(&md5::digest(b"message digest")),
        "f96b697d7cb7938d525a2f31aaf161d0"
    );
    assert_eq!(
        hex(&md5::digest(
            b"12345678901234567890123456789012345678901234567890123456789012345678901234567890"
        )),
        "57edf4a22be3c955ac49da2e2107b67a"
    );
}

#[test]
fn dates_at_the_edges() {
    assert_eq!(date::format(59), "1970/01/01 00:00");
    assert_eq!(date::format(-60), "1969/12/31 23:59");
    assert_eq!(date::parse("1969/12/31 23:59"), Some(-60));
    assert_eq!(date::format(4_107_542_399), "2100/02/28 23:59");
    assert_eq!(date::parse("2026/09/24 24:00"), None);
    assert_eq!(date::parse("2026/09/24 10:60"), None);
    assert_eq!(date::parse("2026/00/24 10:45"), None);
    assert_eq!(date::parse("2026/09/32 10:45"), None);
    assert_eq!(date::parse(""), None);
    assert_eq!(date::parse("2026/09/24"), None);
}

#[test]
fn clock_arithmetic() {
    assert_eq!(clock::now_secs(1_790_246_700_999), 1_790_246_700);
    assert_eq!(clock::entropy(5, 0), 5);
    assert_eq!(clock::entropy(0, 3), 0xdaa66d2c7ddf743f);
    assert_eq!(clock::seed(0, 1), 1 << 32);
    assert_eq!(clock::seed(0xff, 0), 0xff);
    assert_eq!(clock::web_seed(0, 12_345), 12_345u64.rotate_left(21));
    assert_eq!(clock::web_seed(0, u64::MAX - 6), (u64::MAX - 6).rotate_left(21));
}

#[test]
fn entropy_never_repeats_in_a_run() {
    let mut seen: Vec<u64> = (0..1000).map(|n| clock::entropy(0x1234, n)).collect();
    seen.sort_unstable();
    seen.dedup();
    assert_eq!(seen.len(), 1000);
}

#[test]
fn invalid_utf8_is_shown_all_the_same() {
    assert_eq!(decode_text(b"ab\xff", "UTF-8"), "ab\u{fffd}");
    assert_eq!(decode_text("Łódź".as_bytes(), "utf8"), "Łódź");
    assert_eq!(decode_text(b"caf\xe9", "ISO-8859-1"), "café");
    // An unknown charset is taken for UTF-8 where it can be, else Latin-1.
    assert_eq!(decode_text("Łódź".as_bytes(), "koi8-r"), "Łódź");
    assert_eq!(decode_text(b"caf\xe9", "koi8-r"), "café");
}

#[test]
fn text_roundtrip_in_both_charsets() {
    for s in ["", "Hej då", "Cześć", "日本", "plain"] {
        let (bytes, charset) = encode_text(s);
        assert_eq!(decode_text(&bytes, charset), s);
        assert_eq!(is_latin1(s), bytes.len() == s.chars().count());
    }
}

#[test]
fn header_words_are_short_and_exact() {
    assert_eq!(encode_header("Hej då"), "=?ISO-8859-1?Q?Hej_d=E5?=");
    assert_eq!(encode_header("Ł"), "=?UTF-8?Q?=C5=81?=");
    let long = encode_header(&"ł".repeat(60));
    assert!(long.split(' ').all(|word| word.len() <= 75));
    assert!(long.split(' ').count() > 1);
    assert_eq!(decode_header(&long), "ł".repeat(60));
    // White space between two words is dropped, any other is kept.
    assert_eq!(
        decode_header("=?utf-8?Q?a?= =?utf-8?Q?b?= c"),
        "ab c"
    );
    assert_eq!(decode_header("=?utf-8?X?a?="), "=?utf-8?X?a?=");
}

#[test]
fn compressed_data_is_given_back() {
    for data in [
        b"".to_vec(),
        b"x".to_vec(),
        b"abcabcabcabcabcabcabcabc".to_vec(),
        (0..=255u8).cycle().take(5000).collect(),
    ] {
        assert_eq!(decompress(&compress(&data), data.len()).unwrap(), data);
        assert_eq!(decode_b2(&encode_b2(&data)).unwrap(), data);
    }
}

#[test]
fn container_faults_are_told_apart() {
    assert!(decode_b2(&[1, 2, 3]).unwrap_err().contains("too short"));
    let mut packed = encode_b2(b"hello, hello, hello");
    packed[0] ^= 1;
    assert!(decode_b2(&packed).unwrap_err().contains("CRC mismatch"));
    assert_eq!(
        decompress(&[], 10).unwrap_err(),
        "compressed data ends early"
    );
    let run = compress(&[7u8; 50]);
    assert_eq!(
        decompress(&run, 10).unwrap_err(),
        "compressed data runs past the declared length"
    );
}
