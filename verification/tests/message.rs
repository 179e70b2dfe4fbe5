//! The message format.

use b2fmsg::message::{
    display_address, generate_mid, normalize_address, Attachment, Draft, Message,
};

fn draft() -> Draft {
    Draft {
        from: "sa0kam".into(),
        to: vec!["sm0abc, friend@example.com".into()],
        cc: vec!["N0CALL@winlink.org".into()],
        subject: "Hej från stationen".into(),
        body: "Line one\nLine two\n".into(),
        files: vec![Attachment {
            name: "../../etc/log.txt".into(),
            data: b"QSO 14.070".to_vec(),
        }],
        date: 1_790_246_700,
        mid: "ABCDEFGHIJKL".into(),
    }
}

#[test]
fn compose_and_parse_roundtrip() {
    let (msg, warnings) = Message::compose(draft()).unwrap();
    assert!(warnings.is_empty());
    assert_eq!(msg.to(), ["SM0ABC", "SMTP:friend@example.com"]);
    assert_eq!(msg.cc(), ["N0CALL"]);
    assert_eq!(msg.files[0].name, "log.txt");
    let bytes = msg.to_bytes();
    assert!(bytes.starts_with(b"Mid: ABCDEFGHIJKL\r\n"));
    let back = Message::parse(&bytes).unwrap();
    assert_eq!(back.to_bytes(), bytes);
    assert_eq!(back.subject(), "Hej från stationen");
    assert_eq!(back.body_text(), "Line one\r\nLine two\r\n");
    assert_eq!(back.date(), "2026/09/24 10:45");
    assert_eq!(back.files[0].data, b"QSO 14.070");
}

#[test]
fn utf8_warns() {
    let mut d = draft();
    d.body = "Pozdrawiam, Łódź".into();
    let (msg, warnings) = Message::compose(d).unwrap();
    assert_eq!(warnings.len(), 1);
    assert_eq!(msg.charset(), "UTF-8");
    assert_eq!(
        Message::parse(&msg.to_bytes()).unwrap().body_text(),
        "Pozdrawiam, Łódź\r\n"
    );
}

#[test]
fn parses_pat_style_without_trailing_crlf() {
    let raw = b"\r\nMid: XYZ123\r\nBody: 4\r\nFrom: N0CALL\r\nTo: SA0KAM\r\nSubject: hi\r\nDate: 2026/01/02 03:04\r\n\r\nhi\r\n";
    let msg = Message::parse(raw).unwrap();
    assert_eq!(msg.mid(), "XYZ123");
    assert_eq!(msg.body, b"hi\r\n");
}

#[test]
fn rejects_truncation() {
    let raw = b"Mid: X\r\nBody: 40\r\n\r\nshort";
    assert!(Message::parse(raw).unwrap_err().contains("truncated"));
}

#[test]
fn addresses() {
    assert_eq!(normalize_address("sa0kam").unwrap(), "SA0KAM");
    assert_eq!(normalize_address("a@b.se").unwrap(), "SMTP:a@b.se");
    assert_eq!(normalize_address("smtp:a@b.se").unwrap(), "SMTP:a@b.se");
    assert_eq!(normalize_address("so5km@WINLINK.org").unwrap(), "SO5KM");
    assert!(normalize_address("not an address").is_err());
    assert!(normalize_address("x@").is_err());
    assert_eq!(display_address("SMTP:a@b.se"), "a@b.se");
}

#[test]
fn mids_are_valid() {
    let a = generate_mid("SA0KAM", 1, 2);
    let b = generate_mid("SA0KAM", 1, 3);
    assert_eq!(a.len(), 12);
    assert_ne!(a, b);
    assert!(
        a.bytes()
            .all(|c| c.is_ascii_uppercase() || (b'2'..=b'7').contains(&c))
    );
}

#[test]
fn validation_errors() {
    let mut d = draft();
    d.to.clear();
    d.cc.clear();
    assert!(Message::compose(d).is_err());
    let mut d = draft();
    d.subject = "x".repeat(200);
    assert!(Message::compose(d).unwrap_err().contains("subject"));
    let mut d = draft();
    d.body = String::new();
    assert_eq!(Message::compose(d).unwrap().0.body, b"\r\n");
}
