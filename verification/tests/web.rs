//! The exchange and the messages as the browser page sees them.

use b2fmsg::base64;
use b2fmsg::session::LogKind;
use b2fmsg::web::{
    compose_message, kind_name, read_message, DraftIn, ExchangeOptions, FileIn, WebAction,
    WebExchange, DEFAULT_PACLEN,
};

const NOW: u64 = 1_790_246_700_000;

fn options(mode: &str) -> ExchangeOptions {
    ExchangeOptions {
        mode: mode.into(),
        call: " sa0kam ".into(),
        password: Some("".into()),
        locator: "jo89".into(),
        gateway: "".into(),
        via: vec![],
        agw_port: 0,
        paclen: DEFAULT_PACLEN,
        outbox: vec![],
        known: vec![],
    }
}

fn written() -> DraftIn {
    DraftIn {
        from: "sa0kam".into(),
        to: "so5km".into(),
        cc: "".into(),
        subject: "Hej".into(),
        body: "text".into(),
        files: vec![FileIn {
            name: "a.txt".into(),
            data: "YWJj".into(),
        }],
    }
}

fn refused(o: ExchangeOptions) -> String {
    WebExchange::new(o).unwrap_err()
}

#[test]
fn options_that_are_refused() {
    let mut o = options("cms");
    o.call = " ".into();
    assert_eq!(refused(o), "enter your callsign");
    assert_eq!(refused(options("agw")), "enter the RMS gateway callsign");
    assert_eq!(
        refused(options("ham")),
        "mode must be cms or agw, not \"ham\""
    );
    let mut o = options("cms");
    o.outbox = vec!["!".into()];
    assert_eq!(refused(o), "invalid base64");
    let mut o = options("cms");
    o.outbox = vec!["".into()];
    assert_eq!(refused(o), "empty message");
    let mut o = options("cms");
    o.outbox = vec![base64::encode(b"Mid: X\r\nBody: 0\r\n\r\n")];
    assert_eq!(refused(o), "X: no recipient");
}

#[test]
fn the_page_logs_in() {
    let mut ex = WebExchange::new(options("cms")).unwrap();
    ex.start(NOW);
    let actions = ex.on_bytes(b"Callsign :\r", NOW + 1);
    assert!(actions
        .iter()
        .any(|a| matches!(a, WebAction::Send { data } if base64::decode(data).unwrap() == b"SA0KAM\r")));
    let actions = ex.on_closed();
    assert!(matches!(
        actions.last(),
        Some(WebAction::Done { ok: false, .. })
    ));
    assert!(ex.is_done());
    assert!(ex.poll(NOW + 2).is_empty());
    assert!(ex.abort().is_empty());
}

#[test]
fn the_page_calls_a_gateway() {
    let mut o = options("agw");
    o.gateway = " sk0xyz-10".into();
    o.via = vec![" ".into(), "sk0dig".into()];
    let mut ex = WebExchange::new(o).unwrap();
    let mut bytes = Vec::new();
    for a in ex.start(NOW) {
        if let WebAction::Send { data } = a {
            bytes.extend(base64::decode(&data).unwrap());
        }
    }
    let text = String::from_utf8_lossy(&bytes).into_owned();
    assert!(text.contains("SK0XYZ-10") && text.contains("SK0DIG"));
}

#[test]
fn log_kinds_have_names() {
    let names: Vec<&str> = [
        LogKind::Info,
        LogKind::Tx,
        LogKind::Rx,
        LogKind::Warn,
        LogKind::Error,
        LogKind::Success,
    ]
    .into_iter()
    .map(kind_name)
    .collect();
    assert_eq!(names, ["info", "tx", "rx", "warn", "error", "ok"]);
}

#[test]
fn what_the_page_writes_it_can_read() {
    let c = compose_message(written(), NOW, 7).unwrap();
    assert!(c.warnings.is_empty());
    assert_eq!(c.mid.len(), 12);
    let m = read_message(&c.raw).unwrap();
    assert_eq!(m.mid, c.mid);
    assert_eq!(m.from, "SA0KAM");
    assert_eq!(m.to, ["SO5KM"]);
    assert!(m.cc.is_empty());
    assert_eq!(m.subject, "Hej");
    assert_eq!(m.date, "2026/09/24 10:45");
    assert_eq!(m.time, Some(1_790_246_700));
    assert_eq!(m.body, "text\r\n");
    assert_eq!(m.files[0].name, "a.txt");
    assert_eq!((m.files[0].size, m.files[0].data.as_str()), (3, "YWJj"));
    assert_eq!(m.size, base64::decode(&c.raw).unwrap().len());
    let mut o = options("cms");
    o.outbox = vec![c.raw];
    assert!(WebExchange::new(o).is_ok());
}

#[test]
fn page_messages_that_are_refused() {
    let mut d = written();
    d.files[0].data = "?".into();
    assert_eq!(compose_message(d, NOW, 1).unwrap_err(), "invalid base64");
    let mut d = written();
    d.to = "".into();
    assert_eq!(
        compose_message(d, NOW, 1).unwrap_err(),
        "add at least one recipient"
    );
    assert_eq!(read_message("?").unwrap_err(), "invalid base64");
    assert_eq!(read_message("").unwrap_err(), "empty message");
}
