//! The session, the login and the frames: edge cases, errors and promises.

use b2fmsg::agw;
use b2fmsg::exchange::{Action, Exchange, ExchangeConfig, LinkSpec};
use b2fmsg::message::{Draft, Message};
use b2fmsg::session::{
    encode_transfer, parse_answers, parse_proposal, remote_error, Event, LogKind, Outbound,
    Session, SessionConfig, MAX_BLOCK, STX,
};
use b2fmsg::telnet::{Accept, Login, Step, MAX_LINE};

const SID: &[u8] = b"[WL2K-5.0-B2FWIHJM$]\r>\r";

fn config(master: bool) -> SessionConfig {
    SessionConfig {
        mycall: "A1A".into(),
        targetcall: "WL2K".into(),
        locator: "JO89".into(),
        password: Some("secret".into()),
        master,
    }
}

fn composed(mid: &str, subject: &str, body: &str) -> Message {
    Message::compose(Draft {
        from: "A1A".into(),
        to: vec!["B1B".into()],
        subject: subject.into(),
        body: body.into(),
        date: 1_790_246_700,
        mid: mid.into(),
        ..Draft::default()
    })
    .unwrap()
    .0
}

fn offered(mid: &str, subject: &str) -> Outbound {
    Outbound::new(&composed(mid, subject, "hello")).unwrap()
}

fn bytes_of(ev: &[Event]) -> Vec<u8> {
    let mut out = Vec::new();
    for e in ev {
        if let Event::Transmit(b) = e {
            out.extend_from_slice(b);
        }
    }
    out
}

fn failure(ev: &[Event]) -> String {
    for e in ev {
        if let Event::Failed(reason) = e {
            return reason.clone();
        }
    }
    panic!("no failure in {ev:?}");
}

fn caller(outbound: Vec<Outbound>) -> Session {
    Session::new(config(false), outbound, Vec::new())
}

fn check_of(lines: &[&str]) -> String {
    let mut sum: u32 = 0;
    for line in lines {
        sum += line.bytes().map(u32::from).sum::<u32>() + 13;
    }
    format!("F> {:02X}\r", (sum as u8).wrapping_neg())
}

#[test]
fn session_failures_are_told_apart() {
    let mut s = caller(vec![]);
    assert_eq!(
        failure(&s.feed(b">\r")),
        "remote sent its prompt without a SID"
    );
    let mut s = caller(vec![]);
    assert!(failure(&s.feed(b"[FBB-7.0-FHM$]\r")).starts_with("remote does not speak B2F (SID "));
    let mut s = caller(vec![]);
    s.feed(SID);
    assert!(failure(&s.feed(b"FX\r")).starts_with("unknown protocol command "));
    let mut s = caller(vec![]);
    s.feed(SID);
    assert!(failure(&s.feed(b"hello\r")).starts_with("unexpected protocol line "));
    let mut s = caller(vec![]);
    s.feed(SID);
    assert!(failure(&s.feed(b"FC EM ONLYTHREE 1\r")).starts_with("malformed proposal "));
    let mut s = caller(vec![offered("ANSWERS00001", "x")]);
    s.feed(SID);
    assert!(failure(&s.feed(b"FF\r")).starts_with("expected a proposal answer (FS), got "));
    let mut s = caller(vec![offered("ANSWERS00001", "x")]);
    s.feed(SID);
    assert_eq!(
        failure(&s.feed(b"FS ++\r")),
        "got 2 answers for 1 proposals"
    );
    let mut s = caller(vec![offered("ANSWERS00001", "x")]);
    s.feed(SID);
    assert!(failure(&s.feed(b"FS ?\r")).contains("invalid proposal answer '?'"));
    let mut s = caller(vec![offered("AFTERTX00001", "x")]);
    s.feed(SID);
    s.feed(b"FS +\r");
    assert!(failure(&s.feed(b"thanks\r")).starts_with("unexpected reply after transfer: "));
}

#[test]
fn a_session_that_is_over_says_nothing() {
    let mut s = caller(vec![]);
    s.feed(b"[FBB-7.0-FHM$]\r");
    assert!(s.is_finished());
    assert!(s.feed(SID).is_empty());
    assert!(s.remote_closed().is_empty());
    assert!(s.abort("again").is_empty());
}

#[test]
fn a_closed_or_aborted_session_fails() {
    let mut s = caller(vec![]);
    assert_eq!(
        failure(&s.remote_closed()),
        "the link closed before the exchange finished"
    );
    let mut s = caller(vec![]);
    assert_eq!(failure(&s.abort("no more time")), "no more time");
}

#[test]
fn an_offer_names_the_message() {
    let o = offered("OFFERED00001", "hi");
    let mut s = caller(vec![o.clone()]);
    let sent = String::from_utf8(bytes_of(&s.feed(SID))).unwrap();
    let line = format!("FC EM OFFERED00001 {} {} 0", o.size, o.compressed.len());
    assert!(sent.contains(&format!("{line}\r{}", check_of(&[&line]))));
    let p = parse_proposal(&line).unwrap();
    assert_eq!(
        (p.code, p.mid.as_str(), p.raw_size, p.csize),
        ('C', "OFFERED00001", o.size, o.compressed.len())
    );
}

#[test]
fn answers_decide_what_happens_to_a_message() {
    let mids = ["ACCEPTED0001", "REJECTED0001", "DEFERRED0001"];
    let outbound: Vec<Outbound> = mids.iter().map(|m| offered(m, "same")).collect();
    let mut s = caller(outbound);
    let sent = String::from_utf8(bytes_of(&s.feed(SID))).unwrap();
    let order: Vec<&str> = sent
        .lines()
        .flat_map(|l| l.split('\r'))
        .filter(|l| l.starts_with("FC"))
        .map(|l| l.split(' ').nth(2).unwrap())
        .collect();
    let answers: String = order
        .iter()
        .map(|m| match *m {
            "ACCEPTED0001" => '+',
            "REJECTED0001" => '-',
            _ => '=',
        })
        .collect();
    let mut ev = s.feed(format!("FS {answers}\r").as_bytes());
    ev.extend(s.feed(b"FF\r"));
    let mut seen = (false, false, false);
    for e in &ev {
        match e {
            Event::Delivered(m) => seen.0 |= m == "ACCEPTED0001",
            Event::AlreadyDelivered(m) => seen.1 |= m == "REJECTED0001",
            Event::Deferred(m) => seen.2 |= m == "DEFERRED0001",
            _ => {}
        }
    }
    assert_eq!(seen, (true, true, true));
}

#[test]
fn at_most_one_block_is_offered_at_a_time() {
    let outbound: Vec<Outbound> = (0..MAX_BLOCK + 2)
        .map(|i| offered(&format!("BLOCK{i:07}"), "x"))
        .collect();
    let mut s = caller(outbound);
    let sent = String::from_utf8(bytes_of(&s.feed(SID))).unwrap();
    assert_eq!(sent.matches("FC EM ").count(), MAX_BLOCK);
    // What was deferred is not offered again in this session.
    let sent = bytes_of(&s.feed(b"FS =====\r"));
    assert!(sent.is_empty() || !String::from_utf8(sent).unwrap().contains("BLOCK0000000"));
}

#[test]
fn a_transfer_arrives_whatever_the_fragments() {
    let message = composed("TRANSFER0001", "Długi temat", &"line of text\n".repeat(300));
    let o = Outbound::new(&message).unwrap();
    let line = format!("FC EM TRANSFER0001 {} {} 0", o.size, o.compressed.len());
    let transfer = encode_transfer(&o, 0);
    for size in [1, 3, 250, 100_000] {
        let mut s = caller(vec![]);
        s.feed(SID);
        let answer = s.feed(format!("{line}\r{}", check_of(&[&line])).as_bytes());
        assert_eq!(bytes_of(&answer), b"FS +\r");
        assert!(s.is_receiving());
        let mut got = Vec::new();
        for piece in transfer.chunks(size) {
            for e in s.feed(piece) {
                if let Event::Received { message, raw } = e {
                    got.push((message, raw));
                }
            }
        }
        assert_eq!(got.len(), 1);
        assert_eq!(got[0].0.mid(), "TRANSFER0001");
        assert_eq!(got[0].0.subject(), "Długi temat");
        assert_eq!(got[0].1, message.to_bytes());
    }
}

#[test]
fn corrupt_transfers_fail() {
    let message = composed("CORRUPT00001", "x", "hello");
    let o = Outbound::new(&message).unwrap();
    let line = format!("FC EM CORRUPT00001 {} {} 0", o.size, o.compressed.len());
    let open = || {
        let mut s = caller(vec![]);
        s.feed(SID);
        s.feed(format!("{line}\r{}", check_of(&[&line])).as_bytes());
        s
    };
    let good = encode_transfer(&o, 0);
    let mut bad = good.clone();
    let last = bad.len() - 1;
    bad[last] ^= 1;
    assert!(failure(&open().feed(&bad)).contains("transfer checksum error"));
    let mut bad = good.clone();
    bad[2 + usize::from(good[1])] = STX + 1;
    assert!(failure(&open().feed(&bad)).starts_with("corrupt transfer: unexpected byte "));
    assert!(failure(&open().feed(b"X\r")).starts_with("expected a message transfer, got "));
    assert!(failure(&open().feed(b"*** no\r")).starts_with("remote reported an error: "));
}

#[test]
fn a_known_message_is_refused() {
    let mut s = Session::new(config(false), vec![], vec!["KNOWN0000001".into()]);
    s.feed(SID);
    let line = "FC EM KNOWN0000001 100 80 0";
    let ev = s.feed(format!("{line}\r{}", check_of(&[line])).as_bytes());
    assert_eq!(bytes_of(&ev), b"FS -\rFF\r");
}

#[test]
fn remote_errors_are_recognised() {
    assert_eq!(remote_error("*** busy"), Some("busy".into()));
    assert_eq!(remote_error("FF"), None);
    assert!(parse_answers("!").is_err());
    assert!(parse_proposal("FC XX M 1 2 0")
        .unwrap_err()
        .starts_with("unsupported message type in "));
    assert!(parse_proposal("FC EM M 1 x 0")
        .unwrap_err()
        .starts_with("malformed size in "));
}

#[test]
fn frames_are_given_back() {
    let f = agw::Frame::new(b'D', 3, "SA0KAM", "SK0XYZ-10", vec![1, 2, 3]);
    let bytes = f.encode();
    assert_eq!(bytes.len(), agw::HEADER_LEN + 3);
    for cut in 0..bytes.len() {
        let mut d = agw::Decoder::default();
        let mut frames = d.push(&bytes[..cut]).unwrap();
        assert!(frames.is_empty());
        frames.extend(d.push(&bytes[cut..]).unwrap());
        assert_eq!(frames, [f.clone()]);
    }
    let query = agw::outstanding_query(1, "A1A", "B1B");
    assert_eq!(query[4], b'Y');
    let register = agw::register(0, "A1A");
    assert_eq!((register[4], &register[8..11]), (b'X', &b"A1A"[..]));
    let mut junk = vec![0u8; agw::HEADER_LEN];
    junk[31] = 0xff;
    let e = agw::Decoder::default().push(&junk).unwrap_err();
    assert!(e.starts_with("AGW frame claims "), "{e}");
}

#[test]
fn login_lines_may_come_in_any_pieces() {
    let text = b"Welcome\r\nCallsign :\r\nPassword :\r[WL2K-5.0-B2FWIHJM$]\r";
    let mut whole = Login::new("A1A", "pw");
    whole.feed(text);
    assert!(whole.is_done());
    let mut l = Login::new("A1A", "pw");
    let mut steps = Vec::new();
    for b in text {
        steps.extend(l.feed(&[*b]));
    }
    assert!(l.is_done());
    assert!(steps.contains(&Step::Send(b"A1A\r".to_vec())));
    assert!(steps.contains(&Step::Send(b"pw\r".to_vec())));
    let mut a = Accept::default();
    a.start();
    let steps = a.feed(&vec![b'x'; MAX_LINE + 1]);
    assert!(matches!(steps.as_slice(), [Step::Failed(_)]));
}

#[test]
fn done_comes_exactly_once() {
    let link = LinkSpec::Raw;
    let mut ex = Exchange::new(
        ExchangeConfig {
            mycall: "A1A".into(),
            target: "WL2K".into(),
            locator: "".into(),
            password: None,
            idle_timeout_ms: ExchangeConfig::default_timeout(&link),
            link,
        },
        vec![],
        vec![],
    );
    let count = |v: &[Action]| {
        v.iter()
            .filter(|a| matches!(a, Action::Done { .. }))
            .count()
    };
    let mut n = count(&ex.start(0));
    n += count(&ex.on_bytes(b"[WL2K-5.0-B2FWIHJM$]\r>\r", 10));
    assert_eq!(n, 0);
    let last = ex.on_bytes(b"FQ\r", 20);
    assert!(matches!(
        last.last(),
        Some(Action::Done { ok: true, summary }) if summary == "exchange complete: 0 sent, 0 received"
    ));
    n += count(&last);
    assert!(ex.is_done());
    n += count(&ex.abort("late"));
    n += count(&ex.on_closed());
    n += count(&ex.poll(10_000_000));
    n += count(&ex.on_bytes(b"more", 30));
    assert_eq!(n, 1);
}

#[test]
fn timeouts_depend_on_the_link() {
    assert_eq!(ExchangeConfig::default_timeout(&LinkSpec::Raw), 120_000);
    let radio = LinkSpec::Agw {
        port: 0,
        via: vec![],
        paclen: 128,
    };
    assert_eq!(ExchangeConfig::default_timeout(&radio), 600_000);
}

#[test]
fn urgent_subjects_go_first() {
    let routine = offered("ROUTINE00001", "weather");
    let flash = offered("FLASH0000001", "//WL2K Z/ flash");
    let mut s = caller(vec![routine, flash]);
    let ev = s.feed(SID);
    let sent = String::from_utf8(bytes_of(&ev)).unwrap();
    let a = sent.find("FLASH0000001").unwrap();
    let b = sent.find("ROUTINE00001").unwrap();
    assert!(a < b, "{sent}");
    assert!(ev
        .iter()
        .any(|e| matches!(e, Event::Log(LogKind::Tx, t) if t.starts_with("FC EM"))));
}

fn with_password(password: Option<&str>) -> Session {
    let cfg = SessionConfig {
        password: password.map(|p| p.to_string()),
        ..config(false)
    };
    Session::new(cfg, vec![offered("PASSWORD0001", "x")], Vec::new())
}

#[test]
fn a_password_is_used_for_challenges_only() {
    let mut a = with_password(Some("secret"));
    let mut b = with_password(Some("another"));
    for data in [SID, b"FS +\r", b"FF\r"] {
        assert_eq!(format!("{:?}", a.feed(data)), format!("{:?}", b.feed(data)));
    }

    let challenge = b"[WL2K-5.0-B2FWIHJM$]\r;PQ: 23753528\rCMS>\r";
    let sent = String::from_utf8(bytes_of(&with_password(Some("secret")).feed(challenge))).unwrap();
    assert!(sent.contains(";PR: "), "{sent}");
    assert!(!sent.contains("secret"));
    let other = bytes_of(&with_password(Some("another")).feed(challenge));
    assert_ne!(sent.as_bytes(), other.as_slice());
    let reason = failure(&with_password(None).feed(challenge));
    assert!(reason.contains("password"), "{reason}");
    failure(&with_password(Some("")).feed(challenge));
}

#[test]
fn a_session_ends_when_nothing_is_left() {
    let mut s = caller(vec![]);
    assert!(bytes_of(&s.feed(SID)).ends_with(b"FF\r"));
    assert!(!s.is_finished());
    let ev = s.feed(b"FF\r");
    assert_eq!(bytes_of(&ev), b"FQ\r");
    assert!(matches!(ev.last(), Some(Event::Finished)));
    assert!(s.is_finished());

    let mut s = caller(vec![]);
    s.feed(SID);
    let ev = s.feed(b"FQ\r");
    assert!(bytes_of(&ev).is_empty());
    assert!(matches!(ev.last(), Some(Event::Finished)));
}

#[test]
fn labels_are_short_and_plain() {
    let o = offered("LABELS000001", &("ö".to_string() + &"x".repeat(85)));
    assert!(o.title.len() <= 80);
    assert!(o.title.bytes().all(|b| (0x20..0x7f).contains(&b)));
    let bytes = encode_transfer(&o, 0);
    let end = bytes.iter().position(|b| *b == 0).unwrap();
    assert_eq!(&bytes[2..end], o.title.as_bytes());
}

#[test]
fn a_radio_link_is_drained_before_it_is_dropped() {
    let link = LinkSpec::Agw {
        port: 0,
        via: vec![],
        paclen: 128,
    };
    let mut ex = Exchange::new(
        ExchangeConfig {
            mycall: "A1A".into(),
            target: "B1B".into(),
            locator: "".into(),
            password: None,
            idle_timeout_ms: ExchangeConfig::default_timeout(&link),
            link,
        },
        vec![],
        vec![],
    );
    let frame = |kind: u8, data: &[u8]| agw::Frame::new(kind, 0, "B1B", "A1A", data.to_vec()).encode();
    let kinds = |actions: &[Action]| {
        let mut dec = agw::Decoder::default();
        let mut kinds = Vec::new();
        for a in actions {
            if let Action::Transmit(b) = a {
                kinds.extend(dec.push(b).unwrap().iter().map(|f| f.kind));
            }
        }
        kinds
    };
    ex.start(0);
    ex.on_bytes(&frame(b'C', b"*** CONNECTED With Station B1B\r"), 10);
    ex.on_bytes(&frame(b'D', SID), 20);
    let a = ex.on_bytes(&frame(b'D', b"FQ\r"), 1_000);
    assert_eq!(kinds(&a), [b'Y']);
    assert!(ex.poll(1_500).is_empty());
    assert_eq!(kinds(&ex.poll(2_100)), [b'Y']);
    assert!(ex.on_bytes(&frame(b'Y', &[3, 0, 0, 0]), 2_200).is_empty());
    let a = ex.on_bytes(&frame(b'Y', &[0, 0, 0, 0]), 2_300);
    assert_eq!(kinds(&a), [b'd']);
    assert!(!ex.is_done());
    let a = ex.on_bytes(&frame(b'd', b""), 2_400);
    assert!(matches!(a.last(), Some(Action::Done { ok: true, .. })));
}

#[test]
fn packets_keep_to_the_length_asked_for() {
    let text: String = (0..400u32).map(|i| char::from(33 + (i * i % 90) as u8)).collect();
    for (asked, most) in [(1, 16), (20, 20), (128, 128), (10_000, 256)] {
        let link = LinkSpec::Agw {
            port: 0,
            via: vec![],
            paclen: asked,
        };
        let mut ex = Exchange::new(
            ExchangeConfig {
                mycall: "A1A".into(),
                target: "B1B".into(),
                locator: "".into(),
                password: None,
                idle_timeout_ms: ExchangeConfig::default_timeout(&link),
                link,
            },
            vec![Outbound::new(&composed("PACKETS00001", "x", &text)).unwrap()],
            vec![],
        );
        assert!(!ex.is_done());
        let frame =
            |kind: u8, data: &[u8]| agw::Frame::new(kind, 0, "B1B", "A1A", data.to_vec()).encode();
        let mut out = ex.start(0);
        out.extend(ex.on_bytes(&frame(b'C', b"*** CONNECTED With Station B1B\r"), 10));
        out.extend(ex.on_bytes(&frame(b'D', SID), 20));
        out.extend(ex.on_bytes(&frame(b'D', b"FS +\r"), 30));
        let mut dec = agw::Decoder::default();
        let mut longest = 0;
        for a in &out {
            if let Action::Transmit(b) = a {
                for f in dec.push(b).unwrap() {
                    if f.kind == b'D' {
                        longest = longest.max(f.data.len());
                    }
                }
            }
        }
        assert_eq!(longest, most, "{asked}");
    }
}

#[test]
fn a_full_block_holds_the_most_urgent() {
    let mut all: Vec<Outbound> = (0..6)
        .map(|i| offered(&format!("ROUTINE0000{i}"), "weather"))
        .collect();
    all.push(offered("FLASH0000001", "//WL2K Z/ flash"));
    let mut s = caller(all);
    let sent = String::from_utf8(bytes_of(&s.feed(SID))).unwrap();
    assert_eq!(sent.matches("FC EM").count(), MAX_BLOCK);
    assert!(sent.contains("FLASH0000001"));
    assert!(!sent.contains("ROUTINE00004"));
    assert!(!sent.contains("ROUTINE00005"));
}

#[test]
fn an_exchange_keeps_the_password_to_itself() {
    let run = |password: Option<&str>, challenge: &[u8]| {
        let link = LinkSpec::Raw;
        let mut ex = Exchange::new(
            ExchangeConfig {
                mycall: "A1A".into(),
                target: "WL2K".into(),
                locator: "".into(),
                password: password.map(|p| p.to_string()),
                idle_timeout_ms: ExchangeConfig::default_timeout(&link),
                link,
            },
            vec![offered("SECRETS00001", "x")],
            vec![],
        );
        let mut out = ex.start(0);
        out.extend(ex.on_bytes(b"[WL2K-5.0-B2FWIHJM$]\r", 10));
        out.extend(ex.on_bytes(challenge, 20));
        out.extend(ex.on_bytes(b"CMS>\r", 30));
        out.extend(ex.on_bytes(b"FS +\r", 40));
        out.extend(ex.poll(50));
        out.extend(ex.on_closed());
        format!("{out:?}")
    };
    assert_eq!(run(Some("secret"), b""), run(Some("another"), b""));
    let asked = run(Some("secret"), b";PQ: 23753528\r");
    assert_ne!(asked, run(Some("another"), b";PQ: 23753528\r"));
    assert!(!asked.contains("secret"));
    assert!(run(None, b";PQ: 23753528\r").contains("no Winlink password is set"));
}
