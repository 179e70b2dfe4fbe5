//! What the terminal shows.

use b2fmsg::mailbox::{Folder, Found, Mailbox};
use b2fmsg::message::{Attachment, Draft, Message};
use b2fmsg::session::LogKind;
use b2fmsg::ui::{fit, stamp, Style, Ui};

/// 10:45:09 on some day.
const NOW: u64 = 1_790_246_709;

fn plain() -> Ui {
    Ui::new(true, true, false, true)
}

fn message() -> Message {
    Message::compose(Draft {
        from: "SA0KAM".into(),
        to: vec!["SO5KM, friend@example.com".into()],
        subject: "A subject".into(),
        body: "one\ntwo".into(),
        files: vec![Attachment {
            name: "log.txt".into(),
            data: b"abc".to_vec(),
        }],
        date: 1_790_246_700,
        mid: "SHOWNMID0001".into(),
        ..Draft::default()
    })
    .unwrap()
    .0
}

#[test]
fn stamps_are_times_of_day() {
    assert_eq!(stamp(NOW), "10:45:09Z");
    assert_eq!(stamp(0), "00:00:00Z");
    assert_eq!(stamp(86_399), "23:59:59Z");
    assert_eq!(stamp(86_400), "00:00:00Z");
}

#[test]
fn colours_need_a_terminal() {
    assert!(Ui::new(false, true, false, true).color);
    assert!(!Ui::new(true, true, false, true).color);
    assert!(!Ui::new(false, true, true, true).color);
    assert!(!Ui::new(false, true, false, false).color);
    let ui = Ui::new(false, false, false, true);
    assert_eq!(ui.paint(Style::Red, "x"), "\x1b[1;31mx\x1b[0m");
    assert_eq!(ui.paint(Style::Red, ""), "");
    assert_eq!(plain().paint(Style::Bold, "x"), "x");
}

#[test]
fn lines_carry_their_markers() {
    let ui = plain();
    assert_eq!(ui.info(NOW, "text"), "10:45:09Z text");
    assert_eq!(ui.warn(NOW, "text"), "10:45:09Z ! text");
    assert_eq!(ui.error(NOW, "text"), "10:45:09Z ✗ text");
    assert_eq!(ui.ok(NOW, "text"), "10:45:09Z ✓ text");
    assert_eq!(ui.prompt("To:"), "To: ");
    assert_eq!(ui.delivered(NOW, "M"), "10:45:09Z ✓ M delivered");
    assert_eq!(
        ui.already(NOW, "M"),
        "10:45:09Z ✓ M was already delivered; moved to sent"
    );
    assert_eq!(
        ui.deferred(NOW, "M"),
        "10:45:09Z … M deferred by the remote; stays in the outbox"
    );
    assert_eq!(ui.done(NOW, true, "s"), ui.ok(NOW, "s"));
    assert_eq!(ui.done(NOW, false, "s"), ui.error(NOW, "s"));
}

#[test]
fn protocol_lines_are_shown_while_traced() {
    let mut ui = plain();
    assert!(ui.trace());
    assert_eq!(ui.log(NOW, LogKind::Tx, "FF").unwrap(), "10:45:09Z › FF");
    assert_eq!(ui.log(NOW, LogKind::Rx, "FF").unwrap(), "10:45:09Z ‹ FF");
    ui.set_trace(false);
    assert_eq!(ui.log(NOW, LogKind::Tx, "FF"), None);
    assert_eq!(ui.log(NOW, LogKind::Rx, "FF"), None);
    assert_eq!(ui.log(NOW, LogKind::Info, "x"), Some(ui.info(NOW, "x")));
    assert_eq!(ui.log(NOW, LogKind::Warn, "x"), Some(ui.warn(NOW, "x")));
    assert_eq!(ui.log(NOW, LogKind::Error, "x"), Some(ui.error(NOW, "x")));
    assert_eq!(ui.log(NOW, LogKind::Success, "x"), Some(ui.ok(NOW, "x")));
}

#[test]
fn messages_on_one_line() {
    let ui = plain();
    assert_eq!(
        ui.queued(NOW, "SHOWNMID0001", &message()),
        "10:45:09Z → SO5KM, friend@example.com A subject  SHOWNMID0001 queued — connect to send"
    );
    assert_eq!(
        ui.received(NOW, &message()),
        "10:45:09Z ← SA0KAM A subject  SHOWNMID0001  +1 attachment"
    );
}

#[test]
fn columns_are_filled_or_cut() {
    assert_eq!(fit("abc", 5), "abc  ");
    assert_eq!(fit("abcde", 5), "abcde");
    assert_eq!(fit("abcdef", 5), "abcd…");
    assert_eq!(fit("żółć", 6), "żółć  ");
}

#[test]
fn folders_are_listed_with_numbers() {
    let ui = plain();
    assert_eq!(
        ui.listing(NOW, Folder::Sent, &[], &[]),
        ["10:45:09Z sent is empty"]
    );
    let (entries, _) = Mailbox::list(vec![Found {
        path: "x".into(),
        raw: Ok(message().to_bytes()),
    }]);
    let sizes = vec!["400 B".to_string()];
    let lines = ui.listing(NOW, Folder::Inbox, &entries, &sizes);
    assert_eq!(lines[0], "inbox (1)");
    assert_eq!(
        lines[1],
        format!(
            "  1  2026/09/24 10:45  {:<22}  {:<38}  400 B +1",
            "SA0KAM", "A subject"
        )
    );
    let lines = ui.listing(NOW, Folder::Outbox, &entries, &sizes);
    assert!(lines[1].contains("SO5KM, friend@example…"));
}

#[test]
fn a_message_is_shown_whole() {
    let lines = plain().show_message(&message(), &["3 B".to_string()]);
    assert_eq!(
        lines,
        [
            "",
            "    From SA0KAM",
            "      To SO5KM, friend@example.com",
            "    Date 2026/09/24 10:45 UTC",
            " Subject A subject",
            "     MID SHOWNMID0001",
            "",
            "  one",
            "  two",
            "",
            "  📎 log.txt  3 B",
            "  save N [DIR] writes the attachments",
            "",
        ]
    );
}
