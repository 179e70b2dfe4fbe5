//! The B2F session.

use b2fmsg::message::{Draft, Message};
use b2fmsg::secure;
use b2fmsg::session::{
    encode_transfer, parse_answers, Answer, Event, LogKind, Outbound, Session, SessionConfig, EOT,
    MAX_LINE, SOH,
};

fn cfg(call: &str, target: &str, master: bool) -> SessionConfig {
    SessionConfig {
        mycall: call.into(),
        targetcall: target.into(),
        locator: "JO89".into(),
        password: Some("secret".into()),
        master,
    }
}

fn message(from: &str, to: &str, subject: &str, body: &str, mid: &str) -> Message {
    Message::compose(Draft {
        from: from.into(),
        to: vec![to.into()],
        subject: subject.into(),
        body: body.into(),
        date: 1_790_246_700,
        mid: mid.into(),
        ..Draft::default()
    })
    .unwrap()
    .0
}

fn transmitted(ev: &[Event]) -> Vec<u8> {
    ev.iter()
        .filter_map(|e| match e {
            Event::Transmit(b) => Some(b.clone()),
            _ => None,
        })
        .flatten()
        .collect()
}

#[derive(Default)]
struct Tally {
    received: Vec<Message>,
    delivered: Vec<String>,
    rejected: Vec<String>,
    deferred: Vec<String>,
    finished: bool,
    failed: Option<String>,
}

fn tally(t: &mut Tally, ev: Vec<Event>) -> Vec<u8> {
    let bytes = transmitted(&ev);
    for e in ev {
        match e {
            Event::Received { message, .. } => t.received.push(message),
            Event::Delivered(m) => t.delivered.push(m),
            Event::AlreadyDelivered(m) => t.rejected.push(m),
            Event::Deferred(m) => t.deferred.push(m),
            Event::Finished => t.finished = true,
            Event::Failed(r) => t.failed = Some(r),
            _ => {}
        }
    }
    bytes
}

/// Runs two sessions against each other, delivering bytes in small
/// fragments to exercise partial reads.
fn run_pair(mut client: Session, mut master: Session, frag: usize) -> (Tally, Tally) {
    let (mut tc, mut tm) = (Tally::default(), Tally::default());
    let mut to_client = tally(&mut tm, master.start());
    let mut to_master = tally(&mut tc, client.start());
    for _ in 0..10_000 {
        if to_client.is_empty() && to_master.is_empty() {
            break;
        }
        if !to_client.is_empty() {
            let n = frag.min(to_client.len());
            let chunk: Vec<u8> = to_client.drain(..n).collect();
            to_master.extend(tally(&mut tc, client.feed(&chunk)));
        }
        if !to_master.is_empty() {
            let n = frag.min(to_master.len());
            let chunk: Vec<u8> = to_master.drain(..n).collect();
            to_client.extend(tally(&mut tm, master.feed(&chunk)));
        }
    }
    (tc, tm)
}

#[test]
fn peer_to_peer_both_directions() {
    let big_body = "73 de SA0KAM\n".repeat(400);
    let out_c = vec![
        Outbound::new(&message("SA0KAM", "SO5KM", "one", "hello", "MIDCLIENT001")).unwrap(),
        Outbound::new(&message(
            "SA0KAM",
            "SO5KM",
            "two",
            &big_body,
            "MIDCLIENT002",
        ))
        .unwrap(),
    ];
    let out_m =
        vec![Outbound::new(&message("SO5KM", "SA0KAM", "back", "hi", "MIDMASTER001")).unwrap()];
    for frag in [1, 7, 4096] {
        let client = Session::new(cfg("SA0KAM", "SO5KM", false), out_c.clone(), Vec::new());
        let master = Session::new(cfg("SO5KM", "SA0KAM", true), out_m.clone(), Vec::new());
        let (tc, tm) = run_pair(client, master, frag);
        assert!(tc.failed.is_none(), "client: {:?}", tc.failed);
        assert!(tm.failed.is_none(), "master: {:?}", tm.failed);
        assert!(tc.finished && tm.finished);
        let mut delivered = tc.delivered.clone();
        delivered.sort();
        assert_eq!(delivered, ["MIDCLIENT001", "MIDCLIENT002"]);
        assert_eq!(tm.received.len(), 2);
        assert_eq!(
            tm.received
                .iter()
                .find(|m| m.mid() == "MIDCLIENT002")
                .unwrap()
                .body_text()
                .len(),
            big_body.len() + 400
        );
        assert_eq!(tc.received.len(), 1);
        assert_eq!(tc.received[0].subject(), "back");
        assert_eq!(tm.delivered, ["MIDMASTER001"]);
    }
}

#[test]
fn duplicates_are_rejected_and_extra_blocks_flow() {
    let outs: Vec<Outbound> = (0..7)
        .map(|i| {
            Outbound::new(&message(
                "SA0KAM",
                "SO5KM",
                &format!("m{i}"),
                "x",
                &format!("MID{i:09}"),
            ))
            .unwrap()
        })
        .collect();
    let known: Vec<String> = vec!["MID000000003".to_string()];
    let client = Session::new(cfg("SA0KAM", "SO5KM", false), outs, Vec::new());
    let master = Session::new(cfg("SO5KM", "SA0KAM", true), Vec::new(), known);
    let (tc, tm) = run_pair(client, master, 13);
    assert!(
        tc.failed.is_none() && tm.failed.is_none(),
        "{:?} {:?}",
        tc.failed,
        tm.failed
    );
    assert_eq!(tc.delivered.len(), 6);
    assert_eq!(tc.rejected, ["MID000000003"]);
    assert_eq!(tm.received.len(), 6);
}

#[test]
fn p2p_only_offers_messages_for_the_peer() {
    let outs = vec![
        Outbound::new(&message("SA0KAM", "SO5KM", "for peer", "x", "FORPEER00001")).unwrap(),
        Outbound::new(&message(
            "SA0KAM",
            "a@b.se",
            "internet",
            "x",
            "INTERNET0001",
        ))
        .unwrap(),
    ];
    let client = Session::new(cfg("SA0KAM", "SO5KM", false), outs, Vec::new());
    let master = Session::new(cfg("SO5KM", "SA0KAM", true), Vec::new(), Vec::new());
    let mut client = client;
    let mut master = master;
    let mut to_client = transmitted(&master.start());
    let mut logs = Vec::new();
    while !to_client.is_empty() {
        let ev = client.feed(&std::mem::take(&mut to_client));
        for e in &ev {
            if let Event::Log(LogKind::Info, t) = e {
                logs.push(t.clone());
            }
        }
        let reply = transmitted(&ev);
        to_client = transmitted(&master.feed(&reply));
        if client.is_finished() {
            break;
        }
    }
    assert!(
        logs.iter()
            .any(|l| l.contains("INTERNET0001 stays in the outbox")),
        "{logs:?}"
    );
    let client = Session::new(
        cfg("SA0KAM", "SO5KM", false),
        vec![
            Outbound::new(&message("SA0KAM", "SO5KM", "for peer", "x", "FORPEER00001"))
                .unwrap(),
            Outbound::new(&message(
                "SA0KAM",
                "a@b.se",
                "internet",
                "x",
                "INTERNET0001",
            ))
            .unwrap(),
        ],
        Vec::new(),
    );
    let master = Session::new(cfg("SO5KM", "SA0KAM", true), Vec::new(), Vec::new());
    let (tc, tm) = run_pair(client, master, 64);
    assert_eq!(tc.delivered, ["FORPEER00001"]);
    assert_eq!(tm.received.len(), 1);
}

/// The CMS exchange from Pat's TestSessionCMSv4, byte for byte.
#[test]
fn cms_transcript() {
    let mut c = Session::new(cfg("LA5NTA", "LA1B-10", false), Vec::new(), Vec::new());
    let mut t = Tally::default();
    let sent = tally(&mut t, c.feed(b"[WL2K-4.0-B2FWIHJM$]\rTest CMS >\r"));
    let sent = String::from_utf8(sent).unwrap();
    let version = "0.1.0";
    assert_eq!(
        sent,
        format!(";FW: LA5NTA\r[b2fmsg-{version}-B2FHM$]\r; LA1B-10 DE LA5NTA (JO89)\rFF\r")
    );
    c.note_known("TJKYEIMMHSRB");
    let sent = tally(
        &mut t,
        c.feed(b";PM: LA5NTA TJKYEIMMHSRB 123 someone@example.com\r;WARNING: Foo\rFC EM TJKYEIMMHSRB 527 123 0\rF> 3b\r"),
    );
    assert_eq!(sent, b"FS -\rFF\r");
    tally(&mut t, c.feed(b";WARNING: Foo bar baz\rFQ\r"));
    assert!(t.finished && t.failed.is_none(), "{:?}", t.failed);
}

#[test]
fn secure_login_and_missing_password() {
    let mut c = Session::new(cfg("LA5NTA", "WL2K", false), Vec::new(), Vec::new());
    let sent = transmitted(&c.feed(b"[WL2K-5.0-B2FWIHJM$]\r;PQ: 23753528\rCMS >\r"));
    let expect = format!(";PR: {}\r", secure::login_response("23753528", "secret"));
    assert!(String::from_utf8(sent).unwrap().contains(&expect));

    let mut no_pw = cfg("LA5NTA", "WL2K", false);
    no_pw.password = None;
    let mut c = Session::new(no_pw, Vec::new(), Vec::new());
    let ev = c.feed(b"[WL2K-5.0-B2FWIHJM$]\r;PQ: 1\rCMS >\r");
    assert!(
        ev.iter()
            .any(|e| matches!(e, Event::Failed(r) if r.contains("password")))
    );
}

#[test]
fn remote_errors_and_bad_checksums_fail() {
    let mut c = Session::new(cfg("A1A", "WL2K", false), Vec::new(), Vec::new());
    c.feed(b"[WL2K-5.0-B2FWIHJM$]\r>\r");
    let ev = c.feed(b"*** Secure login failed - account password does not match.\r");
    assert!(
        ev.iter()
            .any(|e| matches!(e, Event::Failed(r) if r.contains("Secure login failed")))
    );

    let mut c = Session::new(cfg("A1A", "WL2K", false), Vec::new(), Vec::new());
    c.feed(b"[WL2K-5.0-B2FWIHJM$]\r>\r");
    let ev = c.feed(b"FC EM TJKYEIMMHSRB 527 123 0\rF> 00\r");
    assert!(
        ev.iter()
            .any(|e| matches!(e, Event::Failed(r) if r.contains("checksum")))
    );

    let mut c = Session::new(cfg("A1A", "WL2K", false), Vec::new(), Vec::new());
    let ev = c.feed(b"[FBB-7.0-FHM$]\r");
    assert!(
        ev.iter()
            .any(|e| matches!(e, Event::Failed(r) if r.contains("B2F")))
    );
    assert!(c.remote_closed().is_empty());
}

#[test]
fn answer_parsing() {
    assert_eq!(
        parse_answers("+-=Y!123N").unwrap(),
        vec![
            Answer::Accept(0),
            Answer::Reject,
            Answer::Defer,
            Answer::Accept(0),
            Answer::Accept(123),
            Answer::Reject
        ]
    );
    assert!(parse_answers("?").is_err());
    assert!(parse_answers("!").is_err());
}

#[test]
fn transfer_framing() {
    let o = Outbound::new(&message(
        "A1A",
        "B1B",
        "t",
        &"y".repeat(3000),
        "FRAMING00001",
    ))
    .unwrap();
    let bytes = encode_transfer(&o, 0);
    assert_eq!(bytes[0], SOH);
    let header_len = usize::from(bytes[1]);
    assert_eq!(&bytes[2..2 + header_len], b"t\x000\x00");
    assert_eq!(bytes[bytes.len() - 2], EOT);
    let sum: u32 = o.compressed.iter().map(|&b| u32::from(b)).sum::<u32>()
        + u32::from(bytes[bytes.len() - 1]);
    assert_eq!(sum % 256, 0);
}

#[test]
fn comment_after_transfer_is_not_delivery() {
    let outbound =
        vec![Outbound::new(&message("A1A", "B1B", "hi", "body", "COMMENT00001")).unwrap()];
    let mut c = Session::new(cfg("A1A", "B1B", false), outbound, Vec::new());
    c.feed(b"[WL2K-5.0-B2FWIHJM$]\r>\r");
    let ev = c.feed(b"FS +\r");
    assert!(
        !ev.iter().any(|e| matches!(e, Event::Delivered(_))),
        "still transferring"
    );
    // A `;` warning must not count as turnover / delivery confirmation.
    let ev = c.feed(b";WARNING: ignore me\r");
    assert!(
        !ev.iter().any(|e| matches!(e, Event::Delivered(_))),
        "; comment must not mark Delivered"
    );
    assert!(!c.is_finished());
    // Real turnover finally confirms delivery.
    let ev = c.feed(b"FF\r");
    assert!(
        ev.iter()
            .any(|e| matches!(e, Event::Delivered(m) if m == "COMMENT00001"))
    );
}

#[test]
fn oversized_proposal_is_deferred() {
    let mut c = Session::new(cfg("A1A", "WL2K", false), Vec::new(), Vec::new());
    c.feed(b"[WL2K-5.0-B2FWIHJM$]\r>\r");
    let fc = "FC EM HUGE00000001 100 999999999 0";
    let sum: u32 = fc.bytes().map(u32::from).sum::<u32>() + u32::from(b'\r');
    let chk = (sum as u8).wrapping_neg();
    let ev = c.feed(format!("{fc}\rF> {chk:02X}\r").as_bytes());
    let sent = String::from_utf8(transmitted(&ev)).unwrap();
    assert!(
        sent.contains("FS ="),
        "oversized proposal should be deferred, got {sent:?}"
    );
    assert!(
        ev.iter()
            .any(|e| matches!(e, Event::Log(LogKind::Warn, t) if t.contains("exceeds limit"))),
    );
    assert!(!c.is_receiving());
}

#[test]
fn rejects_overlong_protocol_line() {
    let mut c = Session::new(cfg("A1A", "WL2K", false), Vec::new(), Vec::new());
    let junk = vec![b'X'; MAX_LINE + 1];
    let ev = c.feed(&junk);
    assert!(
        ev.iter()
            .any(|e| matches!(e, Event::Failed(r) if r.contains("longer than")))
    );
}
