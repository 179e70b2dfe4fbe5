//! Laws of what the terminal shows of a message.

use vstd::prelude::*;

use crate::mailbox::{EntryView, Folder};
use crate::message;
use crate::message::address;
use crate::message::wire;
use crate::message::MessageView;
use crate::session::LogKind;
use crate::text;
use crate::ui;

verus! {

/// A line with this label, which is dim where colours are on.
pub open spec fn is_labelled(color: bool, line: Seq<char>, label: Seq<char>, value: Seq<char>) -> bool {
    line == (if color {
        "\x1b[2m"@ + label + "\x1b[0m"@ + " "@ + value
    } else {
        label + " "@ + value
    })
}

/// Addresses for people, with commas between them.
pub open spec fn for_people(v: Seq<Seq<char>>) -> Seq<char> {
    text::join(v.map_values(|a: Seq<char>| address::displayed(a)), ", "@)
}

proof fn lemma_for_people(v: Seq<Seq<char>>)
    ensures
        ui::shown(v) == for_people(v),
{
    assert(Seq::new(v.len(), |i: int| address::displayed(v[i])) =~= v.map_values(
        |a: Seq<char>| address::displayed(a),
    ));
}

proof fn lemma_head_line(color: bool, label: Seq<char>, full: Seq<char>, value: Seq<char>)
    requires
        text::right_aligned(label, 8) == full,
        full.len() > 0,
    ensures
        is_labelled(color, ui::head_line(color, label, value), full, value),
{
    reveal_strlit("\x1b[2m");
    reveal_strlit("\x1b[");
    reveal_strlit("2");
    reveal_strlit("m");
    assert("\x1b["@ + "2"@ + "m"@ =~= "\x1b[2m"@);
}

proof fn lemma_labels()
    ensures
        text::right_aligned("From"@, 8) == "    From"@,
        text::right_aligned("To"@, 8) == "      To"@,
        text::right_aligned("Cc"@, 8) == "      Cc"@,
        text::right_aligned("Date"@, 8) == "    Date"@,
        text::right_aligned("Subject"@, 8) == " Subject"@,
        text::right_aligned("MID"@, 8) == "     MID"@,
        "    From"@.len() == 8,
        "      To"@.len() == 8,
        "      Cc"@.len() == 8,
        "    Date"@.len() == 8,
        " Subject"@.len() == 8,
        "     MID"@.len() == 8,
{
    reveal_strlit("From");
    reveal_strlit("To");
    reveal_strlit("Cc");
    reveal_strlit("Date");
    reveal_strlit("Subject");
    reveal_strlit("MID");
    reveal_strlit("    From");
    reveal_strlit("      To");
    reveal_strlit("      Cc");
    reveal_strlit("    Date");
    reveal_strlit(" Subject");
    reveal_strlit("     MID");
    assert(text::right_aligned("From"@, 8) =~= "    From"@);
    assert(text::right_aligned("To"@, 8) =~= "      To"@);
    assert(text::right_aligned("Cc"@, 8) =~= "      Cc"@);
    assert(text::right_aligned("Date"@, 8) =~= "    Date"@);
    assert(text::right_aligned("Subject"@, 8) =~= " Subject"@);
    assert(text::right_aligned("MID"@, 8) =~= "     MID"@);
}

/// A message is shown under its labels: the sender after `From`, every To
/// address and no other after `To`, every Cc address and no other after `Cc`
/// (a line that is there only if the message has one), then date, subject and
/// ID; then the lines of its text, each indented, and for each attachment a
/// line with its name and size.
pub proof fn law_message_is_shown(color: bool, m: MessageView, sizes: Seq<Seq<char>>)
    requires
        sizes.len() == m.files.len(),
    ensures
        ({
            let lines = ui::message_lines(color, m, sizes);
            let k: int = if message::cc_of(m).len() > 0 {
                1
            } else {
                0
            };
            let body = text::lines(message::body_text_of(m));
            let end = 7 + k + body.len();
            &&& is_labelled(color, lines[1], "    From"@, address::displayed(message::from_of(m)))
            &&& is_labelled(color, lines[2], "      To"@, for_people(message::to_of(m)))
            &&& k == 1 ==> is_labelled(
                color,
                lines[3],
                "      Cc"@,
                for_people(message::cc_of(m)),
            )
            &&& is_labelled(color, lines[3 + k], "    Date"@, message::date_of(m) + " UTC"@)
            &&& is_labelled(
                color,
                lines[4 + k],
                " Subject"@,
                ui::painted(color, ui::Style::Bold, message::subject_of(m)),
            )
            &&& is_labelled(color, lines[5 + k], "     MID"@, wire::mid_of(m))
            &&& forall|i: int|
                0 <= i < body.len() ==> #[trigger] lines[7 + k + i] == "  "@ + body[i]
            &&& m.files.len() == 0 ==> lines.len() == end + 1
            &&& m.files.len() > 0 ==> lines.len() == end + m.files.len() + 3
            &&& forall|i: int|
                0 <= i < m.files.len() ==> (#[trigger] lines[end + 1 + i]) == "  "@ + ui::painted(
                    color,
                    ui::Style::Blue,
                    "📎"@,
                ) + " "@ + m.files[i].0 + "  "@ + ui::painted(color, ui::Style::Dim, sizes[i])
        }),
{
    lemma_labels();
    lemma_for_people(message::to_of(m));
    lemma_for_people(message::cc_of(m));
    lemma_head_line(color, "From"@, "    From"@, address::displayed(message::from_of(m)));
    lemma_head_line(color, "To"@, "      To"@, ui::shown(message::to_of(m)));
    lemma_head_line(color, "Cc"@, "      Cc"@, ui::shown(message::cc_of(m)));
    lemma_head_line(color, "Date"@, "    Date"@, message::date_of(m) + " UTC"@);
    lemma_head_line(
        color,
        "Subject"@,
        " Subject"@,
        ui::painted(color, ui::Style::Bold, message::subject_of(m)),
    );
    lemma_head_line(color, "MID"@, "     MID"@, wire::mid_of(m));
    let lines = ui::message_lines(color, m, sizes);
    let head = ui::head_lines(color, m);
    let k: int = if message::cc_of(m).len() > 0 {
        1
    } else {
        0
    };
    assert(head.len() == 7 + k);
    let body = text::lines(message::body_text_of(m));
    let end = 7 + k + body.len();
    assert(lines[1] == head[1] && lines[2] == head[2] && lines[3] == head[3] && lines[3 + k]
        == head[3 + k] && lines[4 + k] == head[4 + k] && lines[5 + k] == head[5 + k]);
    assert forall|i: int| 0 <= i < body.len() implies #[trigger] lines[7 + k + i] == "  "@
        + body[i] by {
        assert(lines[7 + k + i] == ui::body_lines(m)[i]);
    }
    assert forall|i: int| 0 <= i < m.files.len() implies (#[trigger] lines[end + 1 + i]) == "  "@
        + ui::painted(color, ui::Style::Blue, "📎"@) + " "@ + m.files[i].0 + "  "@ + ui::painted(
        color,
        ui::Style::Dim,
        sizes[i],
    ) by {
        assert(lines[end + 1 + i] == ui::file_lines(color, m, sizes)[1 + i]);
    }
}

/// Without colours a style changes nothing; with them the text itself stands
/// between the two sequences.
pub proof fn law_style_keeps_the_text(color: bool, style: ui::Style, s: Seq<char>)
    ensures
        !color ==> ui::painted(color, style, s) == s,
        color && s.len() > 0 ==> exists|p: Seq<char>|
            #[trigger] ui::painted(color, style, s) == p + s + "\x1b[0m"@,
{
    if color && s.len() > 0 {
        let p = "\x1b["@ + ui::sgr_of(style) + "m"@;
        assert(ui::painted(color, style, s) == p + s + "\x1b[0m"@);
    }
}

/// A queued message is named by all of its recipients, those in copy too; a
/// received one by its sender.
pub proof fn law_one_line_names_the_stations(now: int, mid: Seq<char>, m: MessageView)
    ensures
        ui::queued_line(false, now, mid, m) == ui::stamp_of(now) + " "@ + "→"@ + " "@ + (for_people(
            message::to_of(m) + message::cc_of(m),
        ) + " "@ + message::subject_of(m) + "  "@ + (mid + " queued — connect to send"@)),
        ui::received_line(false, now, m) == ui::stamp_of(now) + " "@ + "←"@ + " "@ + (
        address::displayed(message::from_of(m)) + " "@ + message::subject_of(m) + ("  "@
            + wire::mid_of(m) + ui::files_note(m.files.len()))),
{
    lemma_for_people(message::to_of(m) + message::cc_of(m));
}

/// A list shows for each message its number, date, station, subject and size:
/// the sender in the inbox, everyone it goes to in the other folders.
pub proof fn law_rows_name_the_stations(folder: Folder, n: nat, e: EntryView, size: Seq<char>)
    ensures
        ({
            let m = e.message;
            let who = if folder == Folder::Inbox {
                address::displayed(message::from_of(m))
            } else {
                for_people(message::to_of(m) + message::cc_of(m))
            };
            let files = if m.files.len() == 0 {
                ""@
            } else {
                " +"@ + text::decimal(m.files.len())
            };
            ui::row(false, folder, n, e, size) == text::right_aligned(text::decimal(n), 3) + "  "@
                + message::date_of(m) + "  "@ + ui::fitted(who, 22) + "  "@ + ui::fitted(
                message::subject_of(m),
                38,
            ) + "  "@ + (size + files)
        }),
{
    lemma_for_people(message::to_of(e.message) + message::cc_of(e.message));
}

/// The rows of a list are its messages, in order, numbered from one.
pub proof fn law_list_is_numbered(
    color: bool,
    now: int,
    folder: Folder,
    entries: Seq<EntryView>,
    sizes: Seq<Seq<char>>,
)
    requires
        entries.len() > 0,
        sizes.len() == entries.len(),
    ensures
        ({
            let lines = ui::listing_lines(color, now, folder, entries, sizes);
            &&& lines.len() == entries.len() + 1
            &&& forall|i: int|
                1 <= i < lines.len() ==> #[trigger] lines[i] == ui::row(
                    color,
                    folder,
                    i as nat,
                    entries[i - 1],
                    sizes[i - 1],
                )
        }),
{
}

/// What is sent and received is shown only in a trace; everything else in the
/// log is always shown. Without colours a line is the time, perhaps a mark,
/// and the text.
pub proof fn law_log_is_shown(ui: ui::Ui, now: int, kind: LogKind, s: Seq<char>)
    ensures
        ({
            let line = ui::log_line(ui, now, kind, s);
            &&& line is None <==> !ui.trace && (kind is Tx || kind is Rx)
            &&& line is Some && !ui.color ==> {
                let t = line->0;
                let at = ui::stamp_of(now);
                &&& t.len() > at.len() + s.len()
                &&& t.take(at.len() as int) == at
                &&& t.skip(t.len() - s.len()) == s
            }
        }),
{
    reveal_strlit(" ");
    if let Some(t) = ui::log_line(ui, now, kind, s) {
        if !ui.color {
            let at = ui::stamp_of(now);
            assert(t.take(at.len() as int) =~= at);
            assert(t.skip(t.len() - s.len()) =~= s);
        }
    }
}

/// The time of day is shown in hours, minutes and seconds, two digits each.
pub proof fn law_time_of_day(now: int)
    requires
        now >= 0,
    ensures
        exists|h: nat, m: nat, s: nat|
            #![trigger text::decimal(h), text::decimal(m), text::decimal(s)]
            {
                &&& h < 24 && m < 60 && s < 60
                &&& h * 3600 + m * 60 + s == now % 86_400
                &&& ui::stamp_of(now) == text::zero_fill(text::decimal(h), 2) + ":"@
                    + text::zero_fill(text::decimal(m), 2) + ":"@ + text::zero_fill(
                    text::decimal(s),
                    2,
                ) + "Z"@
            },
{
    let secs = now % 86_400;
    let (h, m, s) = ((secs / 3600) as nat, (secs / 60 % 60) as nat, (secs % 60) as nat);
    assert(h * 3600 + m * 60 + s == secs);
    assert(text::decimal(h) == text::decimal(h) && text::decimal(m) == text::decimal(m)
        && text::decimal(s) == text::decimal(s));
}

} // verus!
