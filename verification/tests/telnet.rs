//! The telnet login.

use b2fmsg::telnet::{Accept, Login, Step, MAX_LINE};

#[test]
fn cms_login() {
    let mut l = Login::new("SA0KAM", "CMSTelnet");
    assert_eq!(
        l.feed(b"Welcome\r\nCallsign :\r\n"),
        vec![
            Step::Banner("Welcome".into()),
            Step::Send(b"SA0KAM\r".to_vec())
        ]
    );
    assert_eq!(
        l.feed(b"Password :\r[WL2K-5.0-B2FWIHJM$]\r"),
        vec![
            Step::Send(b"CMSTelnet\r".to_vec()),
            Step::Done(b"[WL2K-5.0-B2FWIHJM$]\r".to_vec())
        ]
    );
    assert!(l.is_done());
    assert_eq!(l.feed(b"x"), vec![Step::Done(b"x".to_vec())]);
}

#[test]
fn prompt_without_newline() {
    let mut l = Login::new("A1A", "");
    assert_eq!(l.feed(b"Callsign :"), vec![Step::Send(b"A1A\r".to_vec())]);
}

#[test]
fn accept_side() {
    let mut a = Accept::default();
    assert_eq!(a.start(), vec![Step::Send(b"Callsign :\r".to_vec())]);
    assert_eq!(
        a.feed(b"so5km\r"),
        vec![Step::Send(b"Password :\r".to_vec())]
    );
    assert_eq!(a.remote_call(), "SO5KM");
    assert_eq!(
        a.feed(b"\r;FW: SO5KM\r"),
        vec![Step::Done(b";FW: SO5KM\r".to_vec())]
    );
}

#[test]
fn rejects_overlong_login_line() {
    let mut l = Login::new("A1A", "");
    let junk = vec![b'X'; MAX_LINE + 1];
    let steps = l.feed(&junk);
    assert!(matches!(steps.as_slice(), [Step::Failed(_)]));
}
