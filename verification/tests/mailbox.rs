//! The mailbox: names, places and lists.

use b2fmsg::mailbox::{counts_as_held, Folder, Found, Mailbox};
use b2fmsg::message::{Draft, Message};

fn raw(mid: &str, date: i64) -> Vec<u8> {
    Message::compose(Draft {
        from: "SA0KAM".into(),
        to: vec!["SO5KM".into()],
        subject: "hi".into(),
        body: "body".into(),
        date,
        mid: mid.into(),
        ..Draft::default()
    })
    .unwrap()
    .0
    .to_bytes()
}

fn found(path: &str, raw: Vec<u8>) -> Found {
    Found {
        path: path.into(),
        raw: Ok(raw),
    }
}

#[test]
fn folders_have_names() {
    let dirs: Vec<&str> = Folder::ALL.iter().map(|f| f.dir()).collect();
    assert_eq!(dirs, ["in", "out", "sent", "archive"]);
    let labels: Vec<&str> = Folder::ALL.iter().map(|f| f.label()).collect();
    assert_eq!(labels, ["inbox", "outbox", "sent", "archive"]);
}

#[test]
fn messages_have_their_place() {
    let mb = Mailbox::open("sa0kam");
    assert_eq!(mb.root(), "SA0KAM");
    let p = mb.path(Folder::Outbox, "STOREMID0001");
    assert_eq!(
        (p.root.as_str(), p.dir, p.file.as_str()),
        ("SA0KAM", "out", "STOREMID0001.b2f")
    );
    let (tmp, place) = mb.store(Folder::Inbox, "STOREMID0001").unwrap();
    assert_eq!(tmp.file, "STOREMID0001.b2f.tmp");
    assert_eq!((place.dir, place.file.as_str()), ("in", "STOREMID0001.b2f"));
}

#[test]
fn a_mid_cannot_leave_the_mailbox() {
    let mb = Mailbox::open("SA0KAM");
    for mid in ["", "../evil", "a/b", "a\\b", "a.b"] {
        assert_eq!(
            mb.store(Folder::Inbox, mid).unwrap_err(),
            format!("bad MID {mid:?}")
        );
    }
}

#[test]
fn lists_are_oldest_first_and_name_what_is_broken() {
    let (entries, problems) = Mailbox::list(vec![
        found("c", raw("CCC", 1_790_246_700)),
        found("broken", b"garbage".to_vec()),
        found("b", raw("BBB", 1_790_000_000)),
        found("a", raw("AAA", 1_790_246_700)),
        found("undated", b"Mid: ZZZ\r\nBody: 0\r\n\r\n".to_vec()),
        Found {
            path: "locked".into(),
            raw: Err("permission denied".into()),
        },
    ]);
    let mids: Vec<&str> = entries.iter().map(|e| e.mid.as_str()).collect();
    assert_eq!(mids, ["ZZZ", "BBB", "AAA", "CCC"]);
    assert_eq!(entries[1].bytes, raw("BBB", 1_790_000_000).len());
    assert_eq!(problems.len(), 2);
    assert!(problems[0].starts_with("broken: "));
    assert_eq!(problems[1], "locked: permission denied");
}

#[test]
fn known_ids_come_from_file_names() {
    let names: Vec<String> = ["STOREMID0001.b2f", ".b2f", "x.b2f.tmp", "notes.txt", "b2f", "A.b2f"]
        .iter()
        .map(|s| s.to_string())
        .collect();
    assert_eq!(Mailbox::known_mids(&names), ["STOREMID0001", "A"]);
    assert_eq!(Mailbox::stem("STOREMID0001.b2f"), Some("STOREMID0001".into()));
    assert_eq!(Mailbox::stem("STOREMID0001.b2f.tmp"), None);
}

#[test]
fn received_messages_count_as_held() {
    let held: Vec<Folder> = Folder::ALL
        .into_iter()
        .filter(|f| counts_as_held(*f))
        .collect();
    assert_eq!(held, [Folder::Inbox, Folder::Archive]);
}
