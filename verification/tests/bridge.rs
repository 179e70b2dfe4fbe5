//! The bridge: settings, origins and routes.

use b2fmsg::bridge::{
    greet, judge, not_reachable, origin_allowed, parse_args, relay, target, Admission, FromPage,
    Outcome, Relay, Route, Settings,
};

fn strings(v: &[&str]) -> Vec<String> {
    v.iter().map(|s| s.to_string()).collect()
}

fn settings(v: &[&str]) -> Settings {
    match parse_args(&strings(v)) {
        Outcome::Run(s) => s,
        other => panic!("{other:?}"),
    }
}

#[test]
fn bridge_settings() {
    let s = settings(&[]);
    assert_eq!(s.listen, "127.0.0.1:8765");
    assert_eq!(s.cms, "server.winlink.org:8772");
    assert_eq!(s.agw, "127.0.0.1:8000");
    assert_eq!(
        s.origins,
        ["https://mashu.github.io", "http://localhost", "http://127.0.0.1"]
    );
    let s = settings(&[
        "--listen", "l", "--cms", "c", "--agw", "a", "--allow-origin", "https://x.org//",
    ]);
    assert_eq!((s.listen.as_str(), s.cms.as_str(), s.agw.as_str()), ("l", "c", "a"));
    assert_eq!(s.origins[3], "https://x.org");
    assert!(!s.any_origin);
    assert!(settings(&["--allow-origin", "*"]).any_origin);
    assert!(matches!(parse_args(&strings(&["--help"])), Outcome::Help));
    assert!(matches!(
        parse_args(&strings(&["--cms"])),
        Outcome::Refused(e) if e == "--cms needs a value"
    ));
    assert!(matches!(
        parse_args(&strings(&["x"])),
        Outcome::Refused(e) if e == "unknown argument \"x\""
    ));
}

#[test]
fn only_allowed_origins_may_connect() {
    let s = settings(&[]);
    for origin in [
        None,
        Some("https://mashu.github.io"),
        Some("http://localhost"),
        Some("http://localhost:8080"),
        Some("http://127.0.0.1:1"),
    ] {
        assert!(origin_allowed(&s, origin), "{origin:?}");
    }
    for origin in [
        "https://evil.example",
        "http://localhost.evil.example",
        "http://localhost:80a",
        "http://localhost:80/x",
        "",
    ] {
        assert!(!origin_allowed(&s, Some(origin)), "{origin:?}");
    }
    assert!(origin_allowed(&settings(&["--allow-origin", "*"]), Some("x")));
    // More origins shut none of the usual ones out.
    let more = settings(&["--allow-origin", "https://x.org"]);
    assert!(origin_allowed(&more, Some("https://x.org")));
    assert!(origin_allowed(&more, Some("http://localhost:3000")));
}

#[test]
fn routes_are_fixed() {
    let s = settings(&[]);
    assert!(matches!(judge(&s, None, "/cms"), Admission::Open(Route::Cms)));
    assert!(matches!(judge(&s, None, "/agw//"), Admission::Open(Route::Agw)));
    assert!(matches!(
        judge(&s, None, "/other/"),
        Admission::Unknown(e) if e == "unknown route \"/other\"; use /cms or /agw"
    ));
    assert!(matches!(
        judge(&s, Some("https://evil.example"), "/cms"),
        Admission::Forbidden { answer, note }
            if answer == "origin https://evil.example is not allowed"
            && note == "refused page from https://evil.example (add --allow-origin https://evil.example to permit)"
    ));
    assert_eq!(target(&s, Route::Cms), "server.winlink.org:8772");
    assert_eq!(target(&s, Route::Agw), "127.0.0.1:8000");
}

#[test]
fn the_page_is_told_why() {
    let s = settings(&[]);
    assert_eq!(
        not_reachable(&s, Route::Agw, "refused"),
        "Direwolf AGW port not reachable at 127.0.0.1:8000 (refused) — start Direwolf with its AGW port enabled"
    );
    assert_eq!(
        not_reachable(&s, Route::Cms, "timeout"),
        "Winlink CMS not reachable at server.winlink.org:8772 (timeout) — check your internet connection"
    );
    assert_eq!(
        greet(&s, "127.0.0.1:8765"),
        [
            "ws://127.0.0.1:8765/cms → tcp://server.winlink.org:8772",
            "ws://127.0.0.1:8765/agw → tcp://127.0.0.1:8000",
            "accepting pages from https://mashu.github.io, http://localhost, http://127.0.0.1",
        ]
    );
}

#[test]
fn bytes_are_passed_on() {
    assert!(matches!(relay(FromPage::Binary(vec![1, 2])), Relay::Write(b) if b == [1, 2]));
    assert!(matches!(relay(FromPage::Words("å".into())), Relay::Write(b) if b == "å".as_bytes()));
    assert!(matches!(relay(FromPage::Ping(vec![9])), Relay::Pong(b) if b == [9]));
    assert!(matches!(relay(FromPage::Pong), Relay::Nothing));
    assert!(matches!(relay(FromPage::Close), Relay::End));
}
