//! Messages, headers, addresses: edge cases and errors.

use b2fmsg::message::{
    generate_mid, normalize_address, normalize_body, parse_addresses, sanitize_filename,
    Attachment, Draft, Header, Message, MAX_SUBJECT_LEN, UTF8_WARNING,
};
use b2fmsg::message::header::canonical_key;

fn draft() -> Draft {
    Draft {
        from: "SA0KAM".into(),
        to: vec!["SO5KM".into()],
        subject: "hi".into(),
        body: "hello".into(),
        date: 1_790_246_700,
        mid: "TESTMID00001".into(),
        ..Draft::default()
    }
}

fn refused(d: Draft) -> String {
    Message::compose(d).unwrap_err()
}

#[test]
fn compose_refuses_what_cannot_be_sent() {
    let mut d = draft();
    d.from = "  ".into();
    assert_eq!(refused(d), "sender callsign is empty");
    let mut d = draft();
    d.to = vec![" , ".into()];
    assert_eq!(refused(d), "add at least one recipient");
    let mut d = draft();
    d.subject = " ".into();
    assert_eq!(refused(d), "the subject is empty");
    let mut d = draft();
    d.mid = "".into();
    assert_eq!(refused(d), "message has no MID");
    let mut d = draft();
    d.mid = "THIRTEENCHARS".into();
    assert_eq!(
        refused(d),
        "MID THIRTEENCHARS is longer than 12 characters"
    );
    let mut d = draft();
    d.subject = "x".repeat(MAX_SUBJECT_LEN + 1);
    assert_eq!(
        refused(d),
        "TESTMID00001: subject is 129 bytes on the wire (limit 128); shorten it"
    );
    let mut d = draft();
    d.files = vec![Attachment {
        name: "n".repeat(256),
        data: vec![],
    }];
    assert_eq!(
        refused(d),
        format!("TESTMID00001: attachment name too long: {}", "n".repeat(256))
    );
    let mut d = draft();
    d.cc = vec!["a b".into()];
    assert_eq!(refused(d), "address \"a b\" contains spaces");
}

#[test]
fn a_message_without_parts_is_not_valid() {
    let m = Message::parse(b"Mid: X\r\nBody: 0\r\n\r\n").unwrap();
    assert_eq!(m.validate().unwrap_err(), "X: no recipient");
    let m = Message::parse(b"Mid: X\r\nTo: A\r\nBody: 0\r\n\r\n").unwrap();
    assert_eq!(m.validate().unwrap_err(), "X: empty From");
    let m = Message::parse(b"Mid: X\r\nTo: A\r\nFrom: B\r\nBody: 0\r\n\r\n").unwrap();
    assert_eq!(m.validate().unwrap_err(), "X: empty body");
    let m = Message::parse(b"Mid: X\r\nTo: A\r\nFrom: B\r\nBody: 2\r\n\r\nhi\r\n").unwrap();
    assert_eq!(m.validate().unwrap_err(), "X: empty subject");
    let m = Message::parse(b"Mid: X\r\nTo: A\r\nFrom: B\r\nSubject: s\r\nBody: 2\r\n\r\nhi\r\n")
        .unwrap();
    assert!(m.validate().is_ok());
}

#[test]
fn parse_errors() {
    for (raw, error) in [
        (&b""[..], "empty message"),
        (&b"\r\n \t\r\n"[..], "empty message"),
        (&b"Mid: X\r\n"[..], "message header is not terminated"),
        (&b"Mid: X\r\nBody: many\r\n\r\n"[..], "Body: is not a number"),
        (&b"Body: 0\r\n\r\n"[..], "message has no Mid header"),
        (&b"Mid: X\r\nnonsense\r\n\r\n"[..], "malformed header line \"nonsense\""),
        (
            &b"Mid: X\r\nBody: 2\r\nFile: 3\r\n\r\nhi\r\nabc\r\n"[..],
            "malformed File header \"3\"",
        ),
        (
            &b"Mid: X\r\nBody: 2\r\nFile: x y\r\n\r\nhi\r\nabc\r\n"[..],
            "malformed File size \"x\"",
        ),
    ] {
        let e = Message::parse(raw).unwrap_err();
        assert!(e.starts_with(error), "{e} / {error}");
    }
}

#[test]
fn what_is_composed_arrives() {
    let mut d = draft();
    d.cc = vec!["friend@example.com; n0call@winlink.org".into()];
    d.subject = "Zażółć".into();
    d.body = "One\nTwo\r\n\r\nFour".into();
    d.files = vec![
        Attachment {
            name: "C:\\log\\qso.txt".into(),
            data: b"abc\r\n".to_vec(),
        },
        Attachment {
            name: "empty.bin".into(),
            data: vec![],
        },
    ];
    let (m, warnings) = Message::compose(d).unwrap();
    assert_eq!(warnings, [UTF8_WARNING]);
    let bytes = m.to_bytes();
    let back = Message::parse(&bytes).unwrap();
    assert_eq!(back.mid(), "TESTMID00001");
    assert_eq!(back.from(), "SA0KAM");
    assert_eq!(back.to(), ["SO5KM"]);
    assert_eq!(back.cc(), ["SMTP:friend@example.com", "N0CALL"]);
    assert_eq!(
        back.recipients(),
        ["SO5KM", "SMTP:friend@example.com", "N0CALL"]
    );
    assert_eq!(back.subject(), "Zażółć");
    assert_eq!(back.body_text(), "One\r\nTwo\r\n\r\nFour\r\n");
    assert_eq!(back.unix_date(), Some(1_790_246_700));
    assert_eq!(back.charset(), "ISO-8859-1");
    assert_eq!(back.files.len(), 2);
    assert_eq!(back.files[0].name, "qso.txt");
    assert_eq!(back.files[0].data, b"abc\r\n");
    assert_eq!(back.files[1].data, b"");
    assert_eq!(back.to_bytes(), bytes);
}

#[test]
fn the_wire_format_is_exact() {
    let (m, _) = Message::compose(draft()).unwrap();
    let expect = "Mid: TESTMID00001\r\n\
                  Body: 7\r\n\
                  Content-Transfer-Encoding: 8bit\r\n\
                  Content-Type: text/plain; charset=ISO-8859-1\r\n\
                  Date: 2026/09/24 10:45\r\n\
                  From: SA0KAM\r\n\
                  Mbo: SA0KAM\r\n\
                  Subject: hi\r\n\
                  To: SO5KM\r\n\
                  Type: Private\r\n\
                  \r\n\
                  hello\r\n\
                  \r\n";
    assert_eq!(String::from_utf8(m.to_bytes()).unwrap(), expect);
}

#[test]
fn header_lines_are_folded_and_read_in_any_case() {
    let m = Message::parse(b"mid: X\r\nsubject: a\r\n b\r\nbody: 0\r\n\r\n").unwrap();
    assert_eq!(m.mid(), "X");
    assert_eq!(m.subject(), "a b");
    assert_eq!(m.header.get("SUBJECT"), Some("a b"));
    assert_eq!(m.header.get("Cc"), None);
    assert_eq!(m.header.get_or("Cc", "none"), "none");
}

#[test]
fn a_field_that_is_set_is_read() {
    let mut h = Header::default();
    h.set("content-type", "text/plain");
    h.add("To", "A");
    h.add("to", "B");
    assert_eq!(h.get("Content-Type"), Some("text/plain"));
    assert_eq!(h.get_all("TO"), ["A", "B"]);
    h.set("Content-Type", "other");
    assert_eq!(h.get("content-type"), Some("other"));
    assert_eq!(h.get_all("To"), ["A", "B"]);
    h.remove("TO");
    assert!(h.get_all("To").is_empty());
    assert_eq!(h.iter().len(), 1);
    assert_eq!(canonical_key("content-tRANSFER-encoding"), "Content-Transfer-Encoding");
}

#[test]
fn address_errors() {
    for (addr, error) in [
        ("", "empty address"),
        ("<>", "empty address"),
        ("a b", "address \"a b\" contains spaces"),
        ("http:x", "unsupported address \"http:x\""),
        ("smtp:x", "unsupported address \"smtp:x\""),
        ("x@", "malformed e-mail address \"x@\""),
        ("@y", "malformed e-mail address \"@y\""),
        ("x@y@z", "malformed e-mail address \"x@y@z\""),
        (
            "näme",
            "\"näme\" is neither a callsign nor an e-mail address",
        ),
    ] {
        assert_eq!(normalize_address(addr).unwrap_err(), error);
    }
}

#[test]
fn address_lists_hold_nothing_twice() {
    let v = parse_addresses(&["sa0kam; a@b.se,,SA0KAM".to_string(), "a@b.se".to_string()]);
    assert_eq!(v.unwrap(), ["SA0KAM", "SMTP:a@b.se"]);
    for addr in ["SA0KAM", "SMTP:a@b.se", "SK0XYZ-10"] {
        assert_eq!(normalize_address(addr).unwrap(), addr);
    }
    // The whole Unicode mapping is used for what stands before the @.
    assert_eq!(normalize_address("straße@winlink.org").unwrap(), "STRASSE");
}

#[test]
fn bodies_are_lines_with_crlf() {
    assert_eq!(normalize_body(""), "\r\n");
    assert_eq!(normalize_body("\n\n"), "\r\n");
    assert_eq!(normalize_body("a\nb\r\nc"), "a\r\nb\r\nc\r\n");
    assert_eq!(normalize_body("a\r\r\n"), "a\r\n");
    let long = "ä".repeat(600);
    let lines = normalize_body(&long);
    assert_eq!(lines, format!("{}\r\n{}\r\n", "ä".repeat(499), "ä".repeat(101)));
}

#[test]
fn file_names_have_no_path() {
    assert_eq!(sanitize_filename("../../etc/passwd"), "passwd");
    assert_eq!(sanitize_filename("C:\\x\\log.txt"), "log.txt");
    assert_eq!(sanitize_filename(" .hidden "), "hidden");
    assert_eq!(sanitize_filename("a\u{7}b\n"), "ab");
    assert_eq!(sanitize_filename("dir/"), "attachment");
    assert_eq!(sanitize_filename("..."), "attachment");
}

#[test]
fn message_ids_are_exact() {
    assert_eq!(generate_mid("SA0KAM", 1_790_246_700_123, 7), "GV2C6C63OY66");
    assert_eq!(generate_mid("SA0KAM", 1, 2), "SI2EZRUPLD7N");
}

#[test]
fn odd_names_do_not_disturb_the_message() {
    let (m, _) = Message::compose(Draft {
        from: "SA0KAM".into(),
        to: vec!["SO5KM".into()],
        subject: "is a =? b".into(),
        body: "hello".into(),
        files: vec![
            Attachment {
                name: ". first".into(),
                data: b"one".to_vec(),
            },
            Attachment {
                name: "=?utf-8?Q?=61?=".into(),
                data: b"two\r\n".to_vec(),
            },
        ],
        date: 1_790_246_700,
        mid: "ODDNAMES0001".into(),
        ..Draft::default()
    })
    .unwrap();
    let raw = m.to_bytes();
    assert!(raw.starts_with(b"Mid: ODDNAMES0001\r\n"));
    let back = Message::parse(&raw).unwrap();
    assert_eq!(back.to_bytes(), raw);
    assert_eq!(back.body, m.body);
    assert_eq!(back.subject(), "is a =? b");
    assert_eq!(back.files.len(), 2);
    assert_eq!(back.files[0].data, b"one");
    assert_eq!(back.files[1].data, b"two\r\n");
    assert_eq!(back.files[0].name, "first");
    assert_eq!(back.files[1].name, "a");
}

#[test]
fn other_scripts_in_upper_case_take_one_line() {
    let (m, _) = Message::compose(Draft {
        from: "straße".into(),
        to: vec!["ångström@winlink.org".into()],
        subject: "x".into(),
        body: "hello".into(),
        date: 1_790_246_700,
        mid: "UPPERCASE001".into(),
        ..Draft::default()
    })
    .unwrap();
    let back = Message::parse(&m.to_bytes()).unwrap();
    assert_eq!(back.from(), "STRASSE");
    assert_eq!(back.to(), ["ÅNGSTRÖM"]);
    assert_eq!(back.to_bytes(), m.to_bytes());
}
