//! The mail program: command line, commands, dialogs.

use b2fmsg::cli::app::{App, Ask, Purpose, Turn};
use b2fmsg::cli::args::{parse_args, Config, Outcome};
use b2fmsg::cli::compose::{compose_line, Compose, Read, Stage, Step};
use b2fmsg::cli::save::save_name;
use b2fmsg::cli::say::Say;
use b2fmsg::cli::target::{plan, with_port, Target};
use b2fmsg::exchange::{Action, LinkSpec};
use b2fmsg::mailbox::{Folder, Found};
use b2fmsg::message::{Draft, Message};
use b2fmsg::{CMS_ADDRESS, P2P_PORT};

const NOW: u64 = 1_790_246_700_000;

fn strings(v: &[&str]) -> Vec<String> {
    v.iter().map(|s| s.to_string()).collect()
}

fn settings(v: &[&str]) -> Config {
    match parse_args(strings(v), None) {
        Outcome::Settings(cfg) => cfg,
        other => panic!("{other:?}"),
    }
}

fn refusal(v: &[&str]) -> String {
    match parse_args(strings(v), None) {
        Outcome::Refused(e) => e,
        other => panic!("{other:?}"),
    }
}

fn app(v: &[&str]) -> App {
    App::new(settings(v), true)
}

fn idle_app() -> App {
    app(&["--call", "SA0KAM"])
}

fn errors(t: &Turn) -> Vec<String> {
    t.says
        .iter()
        .filter_map(|s| match s {
            Say::Error(e) => Some(e.clone()),
            _ => None,
        })
        .collect()
}

fn infos(t: &Turn) -> Vec<String> {
    t.says
        .iter()
        .filter_map(|s| match s {
            Say::Info(e) => Some(e.clone()),
            _ => None,
        })
        .collect()
}

fn raw(mid: &str) -> Vec<u8> {
    Message::compose(Draft {
        from: "SA0KAM".into(),
        to: vec!["SO5KM".into()],
        subject: "hi".into(),
        body: "body".into(),
        date: 1_790_246_700,
        mid: mid.into(),
        ..Draft::default()
    })
    .unwrap()
    .0
    .to_bytes()
}

fn in_folder(mid: &str) -> Found {
    Found {
        path: format!("{mid}.b2f"),
        raw: Ok(raw(mid)),
    }
}

/// Applies every action of a turn; gives what was said and sent.
fn settle(app: &mut App, turn: Turn) -> (Vec<Say>, Vec<u8>) {
    let (mut says, mut sent) = (turn.says, Vec::new());
    let Ask::Apply(actions) = turn.ask else {
        panic!("no actions: {:?}", turn.ask);
    };
    for action in actions {
        let t = app.act(action);
        says.extend(t.says);
        match t.ask {
            Ask::Send(bytes) => sent.extend(bytes),
            Ask::Stop => break,
            _ => {}
        }
    }
    (says, sent)
}

fn running(v: &[&str]) -> App {
    let mut a = app(v);
    let t = a.run_exchange(LinkSpec::Raw, "WL2K".into(), Ok(vec![]), &[], Ok(()), NOW);
    settle(&mut a, t);
    assert!(a.busy());
    a
}

#[test]
fn settings_from_the_command_line() {
    let cfg = settings(&[
        "--call", " sa0kam ", "--locator", "jo89", "--mailbox", "/m", "--cms", "h:1", "--agw",
        "h:2", "--agw-port", "3", "--paclen", "64", "--timeout", "10", "--once", "cms", "--quiet",
        "--no-color",
    ]);
    assert_eq!(cfg.call, "SA0KAM");
    assert_eq!(cfg.locator, "JO89");
    assert_eq!(cfg.mailbox.as_deref(), Some("/m"));
    assert_eq!((cfg.cms.as_str(), cfg.agw.as_str()), ("h:1", "h:2"));
    assert_eq!((cfg.agw_port, cfg.paclen), (3, 64));
    assert_eq!(cfg.timeout, Some(10));
    assert_eq!(cfg.once.as_deref(), Some("cms"));
    assert!(cfg.quiet && cfg.no_color);
    let cfg = settings(&["--call", "A1A"]);
    assert_eq!(cfg.cms, CMS_ADDRESS);
    assert_eq!(cfg.agw, "127.0.0.1:8000");
    assert_eq!((cfg.agw_port, cfg.paclen, cfg.timeout), (0, 128, None));
    assert!(cfg.password.is_none() && cfg.mailbox.is_none() && cfg.once.is_none());
}

#[test]
fn command_lines_that_are_refused() {
    assert_eq!(refusal(&[]), "--call is required");
    assert_eq!(refusal(&["--call"]), "--call needs a value");
    assert_eq!(refusal(&["--call", "a b"]), "\"A B\" is not a callsign");
    assert_eq!(refusal(&["--call", " "]), "\"\" is not a callsign");
    assert_eq!(refusal(&["--nope"]), "unknown argument \"--nope\"");
    assert_eq!(refusal(&["--agw-port", "256"]), "--agw-port must be 0-255");
    assert_eq!(refusal(&["--paclen", "15"]), "--paclen must be 16-256");
    assert_eq!(refusal(&["--paclen", "257"]), "--paclen must be 16-256");
    assert_eq!(
        refusal(&["--timeout", "9"]),
        "--timeout must be at least 10 seconds"
    );
    assert!(matches!(
        parse_args(strings(&["--help"]), None),
        Outcome::Help
    ));
    assert!(matches!(parse_args(strings(&["-h"]), None), Outcome::Help));
}

#[test]
fn the_password_may_come_from_a_file() {
    let given = strings(&["--password-file", "pw.txt", "--call", "A1A"]);
    let Outcome::Password { path, rest } = parse_args(given.clone(), Some("env".into())) else {
        panic!();
    };
    assert_eq!(path, "pw.txt");
    let Outcome::Settings(cfg) = rest.resume(&path, Ok("secret\r\n".into())) else {
        panic!();
    };
    assert_eq!(cfg.password.as_deref(), Some("secret"));
    let Outcome::Password { path, rest } = parse_args(given, None) else {
        panic!();
    };
    assert!(matches!(
        rest.resume(&path, Err("not found".into())),
        Outcome::Refused(e) if e == "pw.txt: not found"
    ));
    let Outcome::Settings(cfg) = parse_args(strings(&["--call", "A1A"]), Some("env".into())) else {
        panic!();
    };
    assert_eq!(cfg.password.as_deref(), Some("env"));
    let Outcome::Settings(cfg) = parse_args(strings(&["--call", "A1A"]), Some("".into())) else {
        panic!();
    };
    assert!(cfg.password.is_none());
}

#[test]
fn targets_are_read() {
    let parse = |v: &[&str]| Target::parse(&strings(v));
    for v in [&[][..], &["cms"], &["telnet"]] {
        assert!(matches!(parse(v), Ok(Target::Cms)));
    }
    assert!(matches!(
        parse(&["ax25", "sk0xyz-10"]),
        Ok(Target::Ax25 { gateway, via }) if gateway == "SK0XYZ-10" && via.is_empty()
    ));
    assert!(matches!(
        parse(&["ax25", "gw", "via", "sk0dig,,wide2-1"]),
        Ok(Target::Ax25 { via, .. }) if via == ["SK0DIG", "WIDE2-1"]
    ));
    assert!(matches!(
        parse(&["p2p", "host", "so5km"]),
        Ok(Target::P2p { addr, call }) if addr == "host:8774" && call == "SO5KM"
    ));
    for v in [&["ax25"][..], &["p2p", "host"], &["x"], &["ax25", "gw", "by", "d"]] {
        assert!(parse(v).unwrap_err().starts_with("usage: connect"));
    }
    // Upper case goes by the whole Unicode mapping.
    assert!(matches!(
        parse(&["ax25", "straße"]),
        Ok(Target::Ax25 { gateway, .. }) if gateway == "STRASSE"
    ));
    assert_eq!(with_port("h", P2P_PORT), "h:8774");
    assert_eq!(with_port("h:1", P2P_PORT), "h:1");
}

#[test]
fn plans_name_the_link() {
    let cfg = settings(&["--call", "A1A", "--agw-port", "2", "--paclen", "32"]);
    let p = plan(&cfg, &Target::Cms);
    assert_eq!((p.addr.as_str(), p.remote.as_str()), (CMS_ADDRESS, "WL2K"));
    assert!(matches!(p.link, LinkSpec::Telnet { login_password } if login_password == "CMSTelnet"));
    let t = Target::parse(&strings(&["ax25", "gw"])).unwrap();
    let p = plan(&cfg, &t);
    assert_eq!((p.addr.as_str(), p.remote.as_str()), ("127.0.0.1:8000", "GW"));
    assert!(matches!(
        p.link,
        LinkSpec::Agw {
            port: 2,
            paclen: 32,
            ..
        }
    ));
    let t = Target::parse(&strings(&["p2p", "h:1", "b1b"])).unwrap();
    assert!(!t.needs_password());
    let p = plan(&cfg, &t);
    assert!(matches!(p.link, LinkSpec::Telnet { login_password } if login_password.is_empty()));
}

#[test]
fn names_for_saved_files() {
    assert_eq!(save_name("log.txt", 0), "log.txt");
    assert_eq!(save_name("log.txt", 1), "log (1).txt");
    assert_eq!(save_name("a.tar.gz", 12), "a.tar (12).gz");
    assert_eq!(save_name("README", 2), "README (2)");
    assert_eq!(save_name(".profile", 1), ".profile (1)");
    assert_eq!(save_name("dot.", 1), "dot (1).");
}

#[test]
fn a_message_is_written_line_by_line() {
    let mut a = idle_app();
    let t = a.handle_line("compose", NOW, 1);
    assert!(matches!(&t.says[0], Say::Prompt(p) if p.starts_with("To (callsigns")));
    let t = a.handle_line("not an address\r\n", NOW, 1);
    assert_eq!(errors(&t), ["address \"not an address\" contains spaces"]);
    for line in ["so5km\n", "\n", "\n", " A subject \n", "One", " ..", "", "."] {
        let t = a.handle_line(line, NOW, 1);
        assert!(errors(&t).is_empty(), "{line:?}");
        assert!(matches!(t.ask, Ask::Nothing));
    }
    let t = a.handle_line(" log.txt \n", NOW, 1);
    assert!(matches!(&t.ask, Ask::Attach(path) if path == "log.txt"));
    let t = a.attached(
        "log.txt",
        Ok(Read {
            name: Some("log.txt".into()),
            data: vec![0; 50_001],
            size: "50.0 kB".into(),
        }),
    );
    assert!(matches!(
        &t.says[0],
        Say::Warn(w) if w == "log.txt is 50.0 kB; large attachments take a long time over radio"
    ));
    let t = a.attached("gone", Err("not found".into()));
    assert_eq!(errors(&t), ["gone: not found"]);
    let t = a.handle_line("", NOW, 1);
    let Ask::StoreOutgoing(m) = t.ask else {
        panic!("{t:?}");
    };
    assert_eq!(m.to(), ["SO5KM"]);
    assert_eq!(m.subject(), "A subject");
    assert_eq!(m.body_text(), "One\r\n ..\r\n");
    assert_eq!(m.files.len(), 1);
    assert_eq!(m.date(), "2026/09/24 10:45");
    assert!(!a.busy());
    assert!(matches!(&a.stored(m.clone(), Ok(())).says[0], Say::Queued(q) if q.mid() == m.mid()));
    assert_eq!(
        errors(&a.stored(m, Err("disk full".into()))),
        ["cannot write to the outbox: disk full"]
    );
}

#[test]
fn a_message_can_be_dropped_at_any_stage() {
    for lines in [&["~q"][..], &["A1A", "~q"], &["A1A", "", "s", " ~q "], &[""]] {
        let mut a = idle_app();
        a.handle_line("compose", NOW, 1);
        for (i, line) in lines.iter().enumerate() {
            assert!(a.busy());
            let t = a.handle_line(line, NOW, 1);
            if i + 1 == lines.len() {
                assert_eq!(infos(&t), ["message discarded"]);
            }
        }
        assert!(!a.busy());
    }
}

#[test]
fn the_body_is_what_was_typed() {
    let mut c = Compose::new();
    c.stage = Stage::Body;
    for line in ["first", "", "..", " last "] {
        let (Step::More(d), says) = compose_line(c, line) else {
            panic!();
        };
        assert!(says.is_empty());
        c = d;
    }
    assert_eq!(c.body, ["first", "", "..", " last "]);
}

#[test]
fn quick_messages() {
    let mut a = idle_app();
    let t = a.handle_line("msg friend@example.com Arrived at the cabin, all well", NOW, 3);
    let Ask::StoreOutgoing(m) = t.ask else {
        panic!("{t:?}");
    };
    assert_eq!(m.to(), ["SMTP:friend@example.com"]);
    assert_eq!(m.subject(), "Arrived at the cabin, all well");
    assert_eq!(m.body_text(), "Arrived at the cabin, all well\r\n");
    let long = "x".repeat(70);
    let t = a.handle_line(&format!("msg A1A {long}"), NOW, 4);
    assert!(matches!(&t.ask, Ask::StoreOutgoing(m) if m.subject() == "x".repeat(60)));
    for line in ["msg", "msg A1A", "msg A1A   "] {
        assert_eq!(errors(&a.handle_line(line, NOW, 5)), ["usage: msg TO text"]);
    }
}

#[test]
fn folders_and_messages_by_number() {
    let mut a = idle_app();
    assert_eq!(
        errors(&a.handle_line("read 1", NOW, 1)),
        ["list a folder first (inbox, outbox, sent)"]
    );
    for (line, folder) in [
        ("inbox", Folder::Inbox),
        ("in", Folder::Inbox),
        ("outbox", Folder::Outbox),
        ("out", Folder::Outbox),
        ("sent", Folder::Sent),
        ("archive", Folder::Archive),
    ] {
        let t = a.handle_line(line, NOW, 1);
        assert!(matches!(t.ask, Ask::List(f) if f == folder));
    }
    assert_eq!(
        errors(&a.listed(Folder::Sent, Err("no such directory".into()))),
        ["cannot read sent: no such directory"]
    );
    let t = a.listed(
        Folder::Inbox,
        Ok(vec![
            in_folder("LISTED000002"),
            in_folder("LISTED000001"),
            Found {
                path: "bad.b2f".into(),
                raw: Ok(vec![]),
            },
        ]),
    );
    assert!(matches!(&t.says[0], Say::Warn(w) if w == "skipped unreadable bad.b2f: empty message"));
    assert!(matches!(&t.says[1], Say::Listing(Folder::Inbox, e) if e.len() == 2));
    for line in ["read", "read 0", "read 3", "read x", "show -1"] {
        assert_eq!(
            errors(&a.handle_line(line, NOW, 1)),
            ["give a number from 1 to 2"]
        );
    }
    let t = a.handle_line("read 1", NOW, 1);
    let Ask::Read {
        purpose,
        folder,
        mid,
    } = t.ask
    else {
        panic!("{t:?}");
    };
    assert_eq!((folder, mid.as_str()), (Folder::Inbox, "LISTED000001"));
    let t = a.read(purpose, folder, mid, Ok(raw("LISTED000001")));
    assert!(matches!(&t.says[0], Say::Whole(m) if m.mid() == "LISTED000001"));
    let t = a.read(Purpose::Show, Folder::Inbox, "M".into(), Err("gone".into()));
    assert_eq!(errors(&t), ["M: gone"]);
    let t = a.handle_line("save 2 dir", NOW, 1);
    assert!(matches!(
        &t.ask,
        Ask::Read { purpose: Purpose::Save(dir), mid, .. } if dir == "dir" && mid == "LISTED000002"
    ));
    let t = a.read(
        Purpose::Save(".".into()),
        Folder::Inbox,
        "M".into(),
        Ok(raw("M")),
    );
    assert_eq!(infos(&t), ["this message has no attachments"]);
    let t = a.read(Purpose::Delete, Folder::Inbox, "M".into(), Ok(raw("M")));
    assert!(matches!(&t.ask, Ask::Delete { mid, .. } if mid == "M"));
    let t = a.deleted(Folder::Inbox, "M", Err("busy".into()));
    assert_eq!(errors(&t), ["cannot delete M: busy"]);
    let t = a.deleted(Folder::Inbox, "M", Ok(()));
    assert_eq!(infos(&t), ["deleted M from inbox"]);
    assert_eq!(
        errors(&a.handle_line("read 1", NOW, 1)),
        ["list a folder first (inbox, outbox, sent)"]
    );
}

#[test]
fn small_commands() {
    let mut a = idle_app();
    assert!(matches!(a.handle_line("help", NOW, 1).says[0], Say::Commands));
    assert!(matches!(a.handle_line("?", NOW, 1).says[0], Say::Commands));
    assert!(a.handle_line("  ", NOW, 1).says.is_empty());
    assert_eq!(
        infos(&a.handle_line("abort", NOW, 1)),
        ["nothing to abort"]
    );
    assert_eq!(
        errors(&a.handle_line("dance", NOW, 1)),
        ["unknown command \"dance\"; type help"]
    );
    assert!(a.trace());
    assert_eq!(
        infos(&a.handle_line("trace", NOW, 1)),
        ["protocol transcript off"]
    );
    assert!(!a.trace());
    a.handle_line("trace", NOW, 1);
    assert!(a.trace());
    assert_eq!(a.exit_status(), None);
    a.handle_line("quit", NOW, 1);
    assert_eq!(a.exit_status(), Some(0));
}

#[test]
fn listening() {
    let mut a = idle_app();
    assert_eq!(infos(&a.handle_line("stop", NOW, 1)), ["not listening"]);
    let t = a.handle_line("listen", NOW, 1);
    let Ask::Listen(addr) = t.ask else {
        panic!("{t:?}");
    };
    assert_eq!(addr, "0.0.0.0:8774");
    assert_eq!(
        errors(&a.listening(addr.clone(), Err("in use".into()))),
        ["cannot listen on 0.0.0.0:8774: in use"]
    );
    let t = a.listening(addr, Ok(()));
    assert!(matches!(&t.says[0], Say::Success(_)));
    assert_eq!(
        infos(&a.handle_line("listen h:1", NOW, 1)),
        ["already listening on 0.0.0.0:8774"]
    );
    let t = a.accepted("1.2.3.4:5");
    assert!(matches!(&t.ask, Ask::Begin { link: LinkSpec::TelnetAnswer, remote } if remote.is_empty()));
    let t = a.handle_line("stop", NOW, 1);
    assert!(matches!(t.ask, Ask::StopListening));
    a.listening("x".into(), Ok(()));
    assert_eq!(errors(&a.listen_failed("gone")), ["listener stopped: gone"]);
}

#[test]
fn the_password_is_asked_for_and_hidden() {
    let mut a = idle_app();
    let t = a.handle_line("connect", NOW, 1);
    assert!(matches!(t.says.last(), Some(Say::Echo(false))));
    assert!(a.busy());
    let t = a.handle_line("secret\n", NOW, 1);
    assert!(matches!(t.says[0], Say::Echo(true)));
    assert_eq!(infos(&t), ["connecting to server.winlink.org:8772"]);
    assert!(matches!(
        &t.ask,
        Ask::Connect { addr, target: Target::Cms } if addr == CMS_ADDRESS
    ));
    assert_eq!(a.config().password.as_deref(), Some("secret"));
    // A peer needs none.
    let mut a = idle_app();
    let t = a.handle_line("c p2p h b1b", NOW, 1);
    assert!(matches!(t.ask, Ask::Connect { .. }));
    // Nobody to ask.
    let mut a = App::new(settings(&["--call", "A1A"]), false);
    assert!(matches!(
        a.handle_line("connect", NOW, 1).ask,
        Ask::Connect { .. }
    ));
}

#[test]
fn an_unreachable_station_is_reported() {
    let mut a = app(&["--call", "A1A", "--once", "ax25 gw"]);
    let t = a.begin_once().unwrap();
    let Ask::Connect { target, .. } = t.ask else {
        panic!("{t:?}");
    };
    let t = a.reached(&target, Err("refused".into()));
    assert_eq!(
        errors(&t),
        ["cannot reach 127.0.0.1:8000: refused — is Direwolf running with its AGW port enabled?"]
    );
    assert_eq!(a.exit_status(), Some(1));
    let mut a = app(&["--call", "A1A", "--once", "nonsense"]);
    assert!(a.begin_once().unwrap_err().starts_with("usage: connect"));
}

#[test]
fn one_exchange_and_out() {
    for (last, code) in [(&b"FQ\r"[..], 0), (&b"*** sorry\r"[..], 1)] {
        let mut a = running(&["--call", "A1A", "--once", "cms"]);
        let id = a.next_id() - 1;
        let t = a.net(id, b"[WL2K-5.0-B2FWIHJM$]\r>\r", NOW + 1);
        let (_, sent) = settle(&mut a, t);
        assert!(String::from_utf8(sent).unwrap().ends_with("FF\r"));
        assert_eq!(a.exit_status(), None);
        let t = a.net(id, last, NOW + 2);
        let (says, _) = settle(&mut a, t);
        assert!(matches!(says.last(), Some(Say::Done { ok, .. }) if *ok == (code == 0)));
        assert_eq!(a.exit_status(), Some(code));
        assert!(matches!(a.act(Action::Close).ask, Ask::Stop));
    }
}

#[test]
fn while_an_exchange_runs() {
    let mut a = running(&["--call", "A1A"]);
    let id = a.next_id() - 1;
    assert!(matches!(a.accepted("peer").ask, Ask::Refuse));
    let t = a.handle_line("inbox", NOW, 1);
    assert!(matches!(
        &t.says[0],
        Say::Warn(w) if w == "an exchange is running; wait for it or type abort"
    ));
    assert!(a.handle_line("", NOW, 1).says.is_empty());
    // Another connection does not matter.
    assert!(matches!(a.net(id + 1, b"x", NOW).ask, Ask::Nothing));
    assert!(matches!(a.net_closed(id + 1, None).ask, Ask::Nothing));
    assert!(matches!(a.tick(NOW + 1000).ask, Ask::Apply(_)));
    let t = a.handle_line("abort", NOW, 1);
    let (says, _) = settle(&mut a, t);
    assert!(says.iter().any(
        |s| matches!(s, Say::Done { ok: false, summary } if summary.contains("aborted by operator"))
    ));
    assert!(!a.busy());

    let mut a = running(&["--call", "A1A"]);
    let id = a.next_id() - 1;
    let t = a.net_closed(id, Some("reset".into()));
    assert!(matches!(&t.says[0], Say::Warn(w) if w == "link error: reset"));
    settle(&mut a, t);
    assert!(!a.busy());

    let mut a = running(&["--call", "A1A"]);
    let t = a.write_failed("broken pipe");
    let (says, _) = settle(&mut a, t);
    assert!(says.iter().any(
        |s| matches!(s, Say::Done { ok: false, summary } if summary.contains("write failed: broken pipe"))
    ));
}

#[test]
fn the_outbox_is_offered() {
    let mut a = idle_app();
    let unsendable = Found {
        path: "x".into(),
        raw: Ok(b"Mid: EMPTY\r\nBody: 0\r\n\r\n".to_vec()),
    };
    let t = a.run_exchange(
        LinkSpec::Raw,
        "WL2K".into(),
        Ok(vec![in_folder("OUTBOX000001"), unsendable]),
        &[],
        Ok(()),
        NOW,
    );
    assert!(matches!(&t.says[0], Say::Warn(w) if w == "not sending EMPTY: EMPTY: no recipient"));
    assert_eq!(infos(&t), ["1 message(s) in the outbox"]);
    let id = a.next_id() - 1;
    settle(&mut a, t);
    let t = a.net(id, b"[WL2K-5.0-B2FWIHJM$]\r>\r", NOW);
    let (_, sent) = settle(&mut a, t);
    assert!(String::from_utf8(sent).unwrap().contains("FC EM OUTBOX000001"));

    let mut a = app(&["--call", "A1A", "--once", "cms"]);
    let t = a.run_exchange(
        LinkSpec::Raw,
        "WL2K".into(),
        Err("no directory".into()),
        &[],
        Err("no socket".into()),
        NOW,
    );
    assert_eq!(
        errors(&t),
        ["cannot read the outbox: no directory", "socket error: no socket"]
    );
    assert_eq!(a.exit_status(), Some(1));
}

#[test]
fn mail_is_kept_and_moved() {
    let mut a = running(&["--call", "A1A"]);
    let message = Message::parse(&raw("KEPT00000001")).unwrap();
    let t = a.act(Action::Received {
        message: message.clone(),
        raw: raw("KEPT00000001"),
    });
    assert!(matches!(&t.ask, Ask::Keep { raw: r, .. } if *r == raw("KEPT00000001")));
    assert!(matches!(&a.kept(message.clone(), Ok(())).says[0], Say::Received(_)));
    assert_eq!(
        errors(&a.kept(message, Err("full".into()))),
        ["received KEPT00000001 but cannot save it: full"]
    );
    let t = a.act(Action::Delivered("M".into()));
    assert!(matches!(t.ask, Ask::MoveToSent { already: false, .. }));
    assert!(matches!(&a.moved("M".into(), false, Ok(())).says[0], Say::Delivered(m) if m == "M"));
    let t = a.moved("M".into(), true, Err("locked".into()));
    assert_eq!(
        errors(&t),
        ["M was delivered but could not be moved to sent: locked"]
    );
    assert!(matches!(&t.says[1], Say::AlreadyDelivered(m) if m == "M"));
}

#[test]
fn the_end_of_input() {
    let mut a = idle_app();
    a.handle_line("compose", NOW, 1);
    let t = a.input_closed();
    assert!(matches!(t.says[0], Say::Echo(true)));
    assert_eq!(a.exit_status(), Some(0));
    let mut a = idle_app();
    a.listening("x".into(), Ok(()));
    a.input_closed();
    assert_eq!(a.exit_status(), None);
}
