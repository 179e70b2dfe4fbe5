//! Body and header charsets.

use b2fmsg::charset::{decode_header, decode_text, encode_header, encode_text, LATIN1, UTF8};

#[test]
fn latin1_or_utf8() {
    assert_eq!(encode_text("Hej då").1, LATIN1);
    assert_eq!(encode_text("Cześć").1, UTF8);
    let (bytes, cs) = encode_text("Hej då");
    assert_eq!(decode_text(&bytes, cs), "Hej då");
}

#[test]
fn header_roundtrip() {
    for s in [
        "plain ascii subject",
        "Grüße aus Stockholm",
        "Zażółć gęślą jaźń",
        "a_b=c?d",
        &"ł".repeat(60),
    ] {
        let enc = encode_header(s);
        assert!(enc.is_ascii(), "{enc}");
        assert_eq!(decode_header(&enc), s, "{enc}");
    }
    assert_eq!(encode_header("plain"), "plain");
}

#[test]
fn decodes_foreign_words() {
    assert_eq!(decode_header("=?utf-8?B?SGVqIGTDpQ==?="), "Hej då");
    assert_eq!(
        decode_header("Re: =?ISO-8859-1?Q?caf=E9?= ok"),
        "Re: café ok"
    );
    assert_eq!(decode_header("=?x?Q?broken"), "=?x?Q?broken");
}
