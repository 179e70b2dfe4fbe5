//! Whole exchanges over each kind of link.

use b2fmsg::agw;
use b2fmsg::exchange::{Action, Exchange, ExchangeConfig, LinkSpec};
use b2fmsg::message::{Draft, Message};
use b2fmsg::session::{Event, Outbound, Session, SessionConfig};

fn outbound(mid: &str, to: &str) -> Outbound {
    let (msg, _) = Message::compose(Draft {
        from: "SA0KAM".into(),
        to: vec![to.into()],
        subject: "test".into(),
        body: "hello over the air".into(),
        date: 1_790_246_700,
        mid: mid.into(),
        ..Draft::default()
    })
    .unwrap();
    Outbound::new(&msg).unwrap()
}

fn cfg(link: LinkSpec, call: &str, target: &str) -> ExchangeConfig {
    ExchangeConfig {
        mycall: call.into(),
        target: target.into(),
        locator: "JO89".into(),
        password: Some("pw".into()),
        idle_timeout_ms: ExchangeConfig::default_timeout(&link),
        link,
    }
}

fn transmitted(actions: &[Action]) -> Vec<u8> {
    actions
        .iter()
        .filter_map(|a| match a {
            Action::Transmit(b) => Some(b.clone()),
            _ => None,
        })
        .flatten()
        .collect()
}

fn done(actions: &[Action]) -> Option<bool> {
    actions.iter().find_map(|a| match a {
        Action::Done { ok, .. } => Some(*ok),
        _ => None,
    })
}

/// Caller (telnet login) against answerer (prompts), end to end.
#[test]
fn telnet_peer_to_peer() {
    let mut caller = Exchange::new(
        cfg(
            LinkSpec::Telnet {
                login_password: String::new(),
            },
            "SA0KAM",
            "SO5KM",
        ),
        vec![outbound("CALLERMID001", "SO5KM")],
        Vec::new(),
    );
    let mut answer = Exchange::new(
        cfg(LinkSpec::TelnetAnswer, "SO5KM", ""),
        vec![outbound("ANSWERMID001", "SA0KAM")],
        Vec::new(),
    );
    let mut to_caller = transmitted(&answer.start(0));
    let mut to_answer = transmitted(&caller.start(0));
    let (mut caller_done, mut answer_done) = (None, None);
    let (mut got_caller, mut got_answer) = (0, 0);
    for t in 1..200 {
        let a = caller.on_bytes(&std::mem::take(&mut to_caller), t);
        got_caller += a
            .iter()
            .filter(|x| matches!(x, Action::Received { .. }))
            .count();
        caller_done = caller_done.or(done(&a));
        to_answer.extend(transmitted(&a));
        let b = answer.on_bytes(&std::mem::take(&mut to_answer), t);
        got_answer += b
            .iter()
            .filter(|x| matches!(x, Action::Received { .. }))
            .count();
        answer_done = answer_done.or(done(&b));
        to_caller.extend(transmitted(&b));
        if caller.is_done() && answer.is_done() {
            break;
        }
    }
    assert_eq!(caller_done, Some(true));
    assert_eq!(answer_done, Some(true));
    assert_eq!((got_caller, got_answer), (1, 1));
}

/// Fake Direwolf: answers the connect, relays data to a master session.
#[test]
fn agw_connected_mode() {
    let link = LinkSpec::Agw {
        port: 0,
        via: vec![],
        paclen: 64,
    };
    let mut ex = Exchange::new(
        cfg(link, "SA0KAM", "SK0GW-10"),
        vec![outbound("AGWMID000001", "a@b.se")],
        Vec::new(),
    );
    let mut gw = Session::new(
        SessionConfig {
            mycall: "SK0GW-10".into(),
            targetcall: "SA0KAM".into(),
            locator: String::new(),
            password: None,
            master: true,
        },
        Vec::new(),
        Vec::new(),
    );
    let mut dec = agw::Decoder::default();
    let frames = dec.push(&transmitted(&ex.start(0))).unwrap();
    assert_eq!(
        frames.iter().map(|f| f.kind).collect::<Vec<_>>(),
        [b'X', b'C']
    );

    let reply = |kind: u8, data: &[u8]| {
        agw::Frame::new(kind, 0, "SK0GW-10", "SA0KAM", data.to_vec()).encode()
    };
    let mut inbound = reply(b'C', b"*** CONNECTED With Station SK0GW-10\r");
    for e in gw.start() {
        if let Event::Transmit(b) = e {
            inbound.extend(reply(b'D', &b));
        }
    }
    let mut result = None;
    let mut disconnected = false;
    for t in 1..500u64 {
        let actions = ex.on_bytes(&std::mem::take(&mut inbound), t * 100);
        let mut actions = actions;
        actions.extend(ex.poll(t * 100));
        result = result.or(done(&actions));
        for frame in dec.push(&transmitted(&actions)).unwrap() {
            match frame.kind {
                b'D' => {
                    assert!(frame.data.len() <= 64);
                    for e in gw.feed(&frame.data) {
                        if let Event::Transmit(b) = e {
                            inbound.extend(reply(b'D', &b));
                        }
                    }
                }
                b'Y' => inbound.extend(reply(b'Y', &0u32.to_le_bytes())),
                b'd' => {
                    disconnected = true;
                    inbound.extend(reply(b'd', b"*** DISCONNECTED From Station SK0GW-10\r"));
                }
                _ => {}
            }
        }
        if result.is_some() {
            break;
        }
    }
    assert!(disconnected, "client should hang up after draining");
    assert_eq!(result, Some(true));
}

#[test]
fn agw_connect_failure() {
    let link = LinkSpec::Agw {
        port: 0,
        via: vec!["SK0DIG".into()],
        paclen: 128,
    };
    let mut ex = Exchange::new(cfg(link, "SA0KAM", "SK0GW-10"), vec![], Vec::new());
    ex.start(0);
    let d = agw::Frame::new(
        b'd',
        0,
        "SK0GW-10",
        "SA0KAM",
        b"*** DISCONNECTED RETRYOUT With SK0GW-10\r".to_vec(),
    )
    .encode();
    let actions = ex.on_bytes(&d, 1);
    assert_eq!(done(&actions), Some(false));
    assert!(actions.iter().any(
        |a| matches!(a, Action::Done { summary, .. } if summary.contains("could not connect"))
    ));
}

#[test]
fn idle_timeout_and_close() {
    let mut ex = Exchange::new(cfg(LinkSpec::Raw, "SA0KAM", "WL2K"), vec![], Vec::new());
    ex.start(0);
    assert!(ex.poll(60_000).is_empty());
    let actions = ex.poll(200_000);
    assert_eq!(done(&actions), Some(false));
    assert!(ex.poll(300_000).is_empty());
    assert!(ex.on_closed().is_empty());

    let mut ex = Exchange::new(cfg(LinkSpec::Raw, "SA0KAM", "WL2K"), vec![], Vec::new());
    ex.start(0);
    assert_eq!(done(&ex.on_closed()), Some(false));
}
