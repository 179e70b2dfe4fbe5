//! Laws of the page: what is written on it, what it shows, and what its
//! options ask for.

use vstd::prelude::*;

use crate::base64;
use crate::charset;
use crate::date;
use crate::exchange::model::LinkView;
use crate::exchange::ActionView;
use crate::message;
use crate::message::address;
use crate::message::body;
use crate::message::compose_laws;
use crate::message::header;
use crate::message::laws::one_line;
use crate::message::wire;
use crate::message::MessageView;
use crate::session;
use crate::text;
use crate::text::Class;
use crate::unicode;
use crate::web;
use crate::web::{DraftIn, ExchangeOptions, FileIn, Shown, WebAction};

verus! {

/// The files of the page's message are attached under their names, with the
/// data that is given in base64.
pub proof fn law_page_files(v: Seq<FileIn>, files: Seq<(Seq<char>, Seq<u8>)>)
    requires
        web::unpacked(web::file_pairs(v)) == Some(files),
    ensures
        files.len() == v.len(),
        forall|i: int|
            0 <= i < v.len() ==> (#[trigger] files[i]).0 == v[i].name@ && base64::decoded(
                v[i].data@,
            ) == Some(files[i].1),
{
    lemma_unpacked(web::file_pairs(v), files);
    assert forall|i: int| 0 <= i < v.len() implies (#[trigger] files[i]).0 == v[i].name@
        && base64::decoded(v[i].data@) == Some(files[i].1) by {
        assert(web::file_pairs(v)[i] == (v[i].name@, v[i].data@));
    }
}

proof fn lemma_unpacked(v: Seq<(Seq<char>, Seq<char>)>, files: Seq<(Seq<char>, Seq<u8>)>)
    requires
        web::unpacked(v) == Some(files),
    ensures
        files.len() == v.len(),
        forall|i: int|
            0 <= i < v.len() ==> (#[trigger] files[i]).0 == v[i].0 && base64::decoded(v[i].1)
                == Some(files[i].1),
    decreases v.len(),
{
    if v.len() > 0 {
        let less = files.drop_last();
        assert(web::unpacked(v.drop_last()) == Some(less)) by {
            assert(files.drop_last() =~= web::unpacked(v.drop_last())->0);
        }
        lemma_unpacked(v.drop_last(), less);
        assert forall|i: int| 0 <= i < v.len() implies (#[trigger] files[i]).0 == v[i].0
            && base64::decoded(v[i].1) == Some(files[i].1) by {
            if i < v.len() - 1 {
                assert(less[i] == files[i]);
                assert(v.drop_last()[i] == v[i]);
            }
        }
    }
}

/// A message that is written on the page goes to the addresses in its To
/// field and, in copy, to those in its Cc field; it is from the callsign that
/// was given, with the subject, the text and the files of the page.
#[verifier::spinoff_prover]
#[verifier::rlimit(60)]
pub proof fn law_page_message_is_what_was_written(
    d: DraftIn,
    files: Seq<(Seq<char>, Seq<u8>)>,
    m: MessageView,
    warnings: Seq<Seq<char>>,
    now_ms: int,
    entropy: int,
)
    requires
        web::unpacked(web::file_pairs(d.files@)) == Some(files),
        message::composed(web::draft_of(d, files, now_ms, entropy)) == Ok::<_, Seq<char>>(
            (m, warnings),
        ),
        one_line(text::trim(d.from@)),
    ensures
        address::addresses(seq![d.to@]) == Ok::<_, Seq<char>>(header::values_of(m.fields, "To"@)),
        address::addresses(seq![d.cc@]) == Ok::<_, Seq<char>>(header::values_of(m.fields, "Cc"@)),
        header::values_of(m.fields, "From"@) == seq![
            unicode::upper(text::trim(unicode::upper(text::trim(d.from@)))),
        ],
        header::values_of(m.fields, "Subject"@) == seq![
            charset::encoded_header(text::trim(d.subject@)),
        ],
        header::values_of(m.fields, "Date"@) == seq![date::formatted(now_ms / 1000)],
        m.body == charset::encoded_text(body::normalized_body(d.body@)),
        m.files.len() == files.len(),
        forall|i: int|
            0 <= i < files.len() ==> #[trigger] m.files[i] == (
                body::sanitized(files[i].0),
                files[i].1,
            ),
{
    let draft = web::draft_of(d, files, now_ms, entropy);
    let from = text::trim(d.from@);
    assert(unicode::is_unbroken(from)) by {
        assert forall|i: int| 0 <= i < from.len() implies #[trigger] from[i] != '\n' by {
            assert(!text::is_in(Class::One('\n'), from[i]));
        }
    }
    unicode::law_upper_is_unbroken(from);
    assert(one_line(unicode::upper(from)));
    compose_laws::lemma_one_line_trim(unicode::upper(from));
    body::law_mid_is_valid(draft.from, now_ms as nat, entropy as nat);
    assert(one_line(draft.mid)) by {
        assert forall|i: int| 0 <= i < draft.mid.len() implies !text::is_in(
            Class::One('\n'),
            #[trigger] draft.mid[i],
        ) by {
            assert(body::is_base32(draft.mid[i]));
        }
    }
    compose_laws::lemma_one_line_trim(draft.mid);
    compose_laws::law_header_is_what_was_given(draft);
    assert(compose_laws::made(draft) == m);
}

/// The page shows of a message its ID, sender, subject, date and text, the To
/// addresses as To and the Cc addresses as Cc, and of each attachment the
/// name, the size and the data.
pub proof fn law_page_shows_the_message(s: Shown, m: MessageView, size: nat)
    requires
        web::shows(s, m, size),
    ensures
        s.mid@ == wire::mid_of(m),
        s.from@ == address::displayed(message::from_of(m)),
        s.subject@ == message::subject_of(m),
        s.date@ == message::date_of(m),
        s.body@ == message::body_text_of(m),
        s.size == size,
        s.to@.len() == message::to_of(m).len(),
        forall|i: int|
            0 <= i < s.to@.len() ==> (#[trigger] s.to@[i])@ == address::displayed(
                message::to_of(m)[i],
            ),
        s.cc@.len() == message::cc_of(m).len(),
        forall|i: int|
            0 <= i < s.cc@.len() ==> (#[trigger] s.cc@[i])@ == address::displayed(
                message::cc_of(m)[i],
            ),
        s.files@.len() == m.files.len(),
        forall|i: int|
            0 <= i < s.files@.len() ==> {
                let f = #[trigger] s.files@[i];
                f.name@ == m.files[i].0 && f.size == m.files[i].1.len() && base64::decoded(f.data@)
                    == Some(m.files[i].1)
            },
        s.time matches Some(t) ==> date::parsed(message::date_of(m)) == Some(t as int),
        s.time is None ==> date::parsed(message::date_of(m)) is None,
{
    assert(text::texts(s.to@).len() == s.to@.len());
    assert(text::texts(s.cc@).len() == s.cc@.len());
    assert forall|i: int| 0 <= i < s.to@.len() implies (#[trigger] s.to@[i])@
        == address::displayed(message::to_of(m)[i]) by {
        assert(text::texts(s.to@)[i] == web::displayed_all(message::to_of(m))[i]);
    }
    assert forall|i: int| 0 <= i < s.cc@.len() implies (#[trigger] s.cc@[i])@
        == address::displayed(message::cc_of(m)[i]) by {
        assert(text::texts(s.cc@)[i] == web::displayed_all(message::cc_of(m))[i]);
    }
    assert(web::file_outs(s.files@).len() == s.files@.len());
    assert forall|i: int| 0 <= i < s.files@.len() implies {
        let f = #[trigger] s.files@[i];
        f.name@ == m.files[i].0 && f.size == m.files[i].1.len() && base64::decoded(f.data@) == Some(
            m.files[i].1,
        )
    } by {
        assert(web::file_outs(s.files@)[i] == web::packed(m.files)[i]);
        base64::law_base64_roundtrip(m.files[i].1);
    }
}

/// The page's options make the exchange that they ask for: under its own
/// callsign and password; by `cms` to the Winlink system, by `agw` to the
/// gateway that is named, on that port and packet length, through the
/// digipeaters that are named.
pub proof fn law_options_are_followed(o: ExchangeOptions)
    ensures
        web::planned(o@) matches Ok(x) ==> {
            &&& x.mycall == unicode::upper(text::trim(o.call@))
            &&& x.mycall.len() > 0
            &&& x.locator == unicode::upper(text::trim(o.locator@))
            &&& o.password is Some && o.password->0@.len() > 0 ==> x.password == Some(
                o.password->0@,
            )
            &&& (o.password is None || o.password->0@.len() == 0) ==> x.password is None
            &&& o.mode@ == "cms"@ || o.mode@ == "agw"@
            &&& o.mode@ == "cms"@ ==> x.target == "WL2K"@ && (x.link matches LinkView::Telnet(l)
                && l.call == x.mycall && l.password == "CMSTelnet"@)
            &&& o.mode@ == "agw"@ ==> {
                &&& x.target == unicode::upper(text::trim(o.gateway@))
                &&& x.link matches LinkView::Agw(l) && {
                    &&& l.port == o.agw_port
                    &&& 16 <= o.paclen <= 256 ==> l.paclen == o.paclen
                    &&& forall|i: int| 0 <= i < o.via@.len() ==> names_call(l.via, #[trigger] o.via@[i]@)
                    &&& forall|j: int|
                        0 <= j < l.via.len() ==> exists|i: int|
                            0 <= i < o.via@.len() && unicode::upper(text::trim(o.via@[i]@))
                                == #[trigger] l.via[j]
                }
            }
            &&& x.session matches Some(s) && s.cfg.mycall == x.mycall && s.cfg.targetcall
                == x.target && s.cfg.password == x.password && s.outbound.len() == o.outbox@.len()
                && s.known == text::texts(o.known@).to_set()
        },
{
    reveal_strlit("cms");
    reveal_strlit("agw");
    assert("cms"@[0] != "agw"@[0]);
    if let Ok(x) = web::planned(o@) {
        lemma_ready_count(text::texts(o.outbox@));
        let given = text::texts(o.via@);
        lemma_path(given);
        if o.mode@ == "agw"@ {
            let via = web::path_of(given);
            assert forall|i: int| 0 <= i < o.via@.len() implies names_call(
                via,
                #[trigger] o.via@[i]@,
            ) by {
                assert(given[i] == o.via@[i]@);
            }
            assert forall|j: int| 0 <= j < via.len() implies exists|i: int|
                0 <= i < o.via@.len() && unicode::upper(text::trim(o.via@[i]@))
                    == #[trigger] via[j] by {
                let i = choose|i: int|
                    0 <= i < given.len() && unicode::upper(text::trim(#[trigger] given[i]))
                        == via[j];
                assert(given[i] == o.via@[i]@);
            }
        }
    }
}

/// Is this digipeater on the path, unless it is blank?
pub open spec fn names_call(path: Seq<Seq<char>>, given: Seq<char>) -> bool {
    unicode::upper(text::trim(given)).len() > 0 ==> path.contains(
        unicode::upper(text::trim(given)),
    )
}

proof fn lemma_path(v: Seq<Seq<char>>)
    ensures
        forall|i: int| 0 <= i < v.len() ==> names_call(web::path_of(v), #[trigger] v[i]),
        forall|j: int|
            #![trigger web::path_of(v)[j]]
            0 <= j < web::path_of(v).len() ==> exists|i: int|
                0 <= i < v.len() && unicode::upper(text::trim(#[trigger] v[i])) == web::path_of(
                    v,
                )[j],
    decreases v.len(),
{
    if v.len() > 0 {
        let less = v.drop_last();
        lemma_path(less);
        let (a, b) = (web::path_of(less), web::path_of(v));
        assert forall|i: int| 0 <= i < v.len() implies names_call(b, #[trigger] v[i]) by {
            let call = unicode::upper(text::trim(v[i]));
            if call.len() > 0 {
                if i < less.len() {
                    assert(names_call(a, less[i]));
                    let k = choose|k: int| 0 <= k < a.len() && a[k] == call;
                    assert(b[k] == call);
                } else {
                    assert(b[b.len() - 1] == call);
                }
            }
        }
        assert forall|j: int| #![trigger b[j]] 0 <= j < b.len() implies exists|i: int|
            0 <= i < v.len() && unicode::upper(text::trim(#[trigger] v[i])) == b[j] by {
            if j < a.len() {
                assert(b[j] == a[j]);
                let i = choose|i: int|
                    0 <= i < less.len() && unicode::upper(text::trim(#[trigger] less[i])) == a[j];
                assert(v[i] == less[i]);
            } else {
                assert(v[v.len() - 1] == v.last());
            }
        }
    }
}

proof fn lemma_ready_count(v: Seq<Seq<char>>)
    ensures
        web::all_ready(v) matches Ok(out) ==> out.len() == v.len(),
    decreases v.len(),
{
    if v.len() > 0 {
        lemma_ready_count(v.drop_last());
    }
}

/// Each message in the page's outbox is offered: it is the one that was
/// stored there.
#[verifier::spinoff_prover]
#[verifier::rlimit(60)]
pub proof fn law_page_outbox_is_offered(stored: Seq<Seq<char>>, i: int)
    requires
        0 <= i < stored.len(),
    ensures
        web::all_ready(stored) matches Ok(out) ==> exists|raw: Seq<u8>, m: MessageView|
            is_stored_as(stored[i], raw, m) && out[i] == session::prepared(m),
    decreases stored.len(),
{
    if let Ok(out) = web::all_ready(stored) {
        lemma_ready_count(stored.drop_last());
        if i < stored.len() - 1 {
            law_page_outbox_is_offered(stored.drop_last(), i);
            assert(stored.drop_last()[i] == stored[i]);
            let less = web::all_ready(stored.drop_last())->Ok_0;
            let (raw, m) = choose|raw: Seq<u8>, m: MessageView|
                is_stored_as(stored[i], raw, m) && less[i] == session::prepared(m);
            assert(is_stored_as(stored[i], raw, m));
            assert(out[i] == session::prepared(m));
        } else {
            reveal(web::ready);
            let raw = base64::decoded(stored[i])->0;
            let m = wire::read(raw)->Ok_0;
            assert(is_stored_as(stored[i], raw, m));
            assert(out[i] == session::prepared(m));
        }
    }
}

/// Does the page hold this message, in base64?
pub open spec fn is_stored_as(stored: Seq<char>, raw: Seq<u8>, m: MessageView) -> bool {
    base64::decoded(stored) == Some(raw) && wire::read(raw) == Ok::<_, Seq<char>>(m)
}

/// Every action of the exchange reaches the page as what it is.
pub proof fn law_page_is_told(a: ActionView, w: WebAction)
    requires
        w@ == web::for_page(a),
    ensures
        match a {
            ActionView::Transmit(bytes) => w matches WebAction::Send { data } && base64::decoded(
                data@,
            ) == Some(bytes),
            ActionView::Log(_, line) => w matches WebAction::Log { text, .. } && text@ == line,
            ActionView::Received { message: m, raw } => w matches WebAction::Received {
                mid,
                raw: stored,
            } && mid@ == wire::mid_of(m) && base64::decoded(stored@) == Some(raw),
            ActionView::Delivered(m) => w matches WebAction::Delivered { mid } && mid@ == m,
            ActionView::AlreadyDelivered(m) => w matches WebAction::AlreadyDelivered { mid } && mid@
                == m,
            ActionView::Deferred(m) => w matches WebAction::Deferred { mid } && mid@ == m,
            ActionView::Close => w is Close,
            ActionView::Done { ok, summary } => w matches WebAction::Done { ok: good, text } && good
                == ok && text@ == summary,
        },
{
    match a {
        ActionView::Transmit(bytes) => base64::law_base64_roundtrip(bytes),
        ActionView::Received { message: m, raw } => base64::law_base64_roundtrip(raw),
        _ => {},
    }
}

} // verus!
