//! Laws of the login: which prompt gets which answer.

use vstd::prelude::*;
use vstd::utf8::*;

use crate::session::lines;
use crate::telnet;
use crate::telnet::{AcceptView, LoginView, StepView};
use crate::text;
use crate::unicode;

verus! {

/// Bytes of one line, without its end.
pub open spec fn is_one_line(b: Seq<u8>) -> bool {
    b.len() <= 4096 && forall|i: int| 0 <= i < b.len() ==> #[trigger] b[i] != 13 && b[i] != 10
}

proof fn lemma_one_line(b: Seq<u8>)
    requires
        is_one_line(b),
    ensures
        lines::break_at(b.push(13)) == b.len(),
        b.push(13).take(b.len() as int) == b,
        b.push(13).skip(b.len() as int + 1) == Seq::<u8>::empty(),
        lines::break_at(Seq::<u8>::empty()) == 0,
        text::latin1(Seq::<u8>::empty()) == Seq::<char>::empty(),
{
    let all = b.push(13);
    assert forall|i: int| 0 <= i < b.len() implies #[trigger] all[i] != 13 && all[i] != 10 by {
        assert(b[i] == all[i]);
    }
    lines::lemma_break_at_is(all, b.len() as int);
    assert(all.take(b.len() as int) =~= b);
    assert(all.skip(b.len() as int + 1) =~= Seq::<u8>::empty());
    assert(text::latin1(Seq::<u8>::empty()) =~= Seq::<char>::empty());
}

/// The prompt for the callsign gets the callsign, the prompt for the password
/// the password, and then the session begins; any other line is shown.
pub proof fn law_prompts_are_answered(l: LoginView, b: Seq<u8>)
    requires
        l.buf.len() == 0,
        !l.done,
        is_one_line(b),
    ensures
        ({
            let line = text::trim(text::latin1(b));
            let small = text::ascii_lower(line);
            let (next, steps) = telnet::login_fed(l, b.push(13));
            &&& text::starts_with(small, "callsign"@) ==> steps == seq![
                StepView::Send(encode_utf8(l.call + "\r"@)),
            ] && !next.done
            &&& text::starts_with(small, "password"@) ==> steps == seq![
                StepView::Send(encode_utf8(l.password + "\r"@)),
                StepView::Done(seq![]),
            ] && next.done
            &&& !text::starts_with(small, "callsign"@) && !text::starts_with(small, "password"@)
                && line.len() > 0 ==> steps == seq![StepView::Banner(line)] && !next.done
            &&& line.len() == 0 ==> steps.len() == 0 && !next.done
            &&& next.call == l.call && next.password == l.password
        }),
{
    lemma_one_line(b);
    let empty = Seq::<u8>::empty();
    assert(l.buf + b.push(13) =~= b.push(13));
    reveal_strlit("callsign");
    reveal_strlit("password");
    let line = text::trim(text::latin1(b));
    let small = text::ascii_lower(line);
    assert(small.len() == line.len());
    if text::starts_with(small, "callsign"@) {
        assert(small.take(8)[0] == 'c');
    }
    if text::starts_with(small, "password"@) {
        assert(small.take(8)[0] == 'p');
    }
    assert(text::trim(text::latin1(empty)).len() == 0) by {
        text::lemma_leading(Seq::<char>::empty(), text::Class::Space);
        text::lemma_trailing(Seq::<char>::empty(), text::Class::Space);
    }
    assert(telnet::login_line(empty) is More);
    reveal_with_fuel(telnet::answered, 3);
}

/// Once the login is done, what comes is the session's.
pub proof fn law_session_gets_the_rest(l: LoginView, a: AcceptView, data: Seq<u8>)
    requires
        l.done,
        a.stage >= 2,
    ensures
        telnet::login_fed(l, data) == (l, seq![StepView::Done(data)]),
        telnet::accept_fed(a, data) == (a, seq![StepView::Done(data)]),
{
}

/// A caller is known by the first word of the first line, in upper case, and
/// is then asked for a password; whatever that is, the session begins.
pub proof fn law_caller_is_known(a: AcceptView, b: Seq<u8>, c: Seq<u8>)
    requires
        a.stage == 0,
        a.buf.len() == 0,
        is_one_line(b),
        is_one_line(c),
        text::trim(text::latin1(b)).len() > 0,
        text::split_words(text::trim(text::latin1(b))).len() > 0,
    ensures
        ({
            let (next, steps) = telnet::accept_fed(a, b.push(13));
            let (last, more) = telnet::accept_fed(next, c.push(13));
            &&& steps == seq![StepView::Send(encode_utf8("Password :\r"@))]
            &&& next.remote == unicode::upper(text::split_words(text::trim(text::latin1(b)))[0])
            &&& more == seq![StepView::Done(seq![])]
            &&& last.remote == next.remote
            &&& last.stage == 2
        }),
{
    lemma_one_line(b);
    lemma_one_line(c);
    assert(a.buf + b.push(13) =~= b.push(13));
    reveal_with_fuel(telnet::accepted, 3);
    let (next, steps) = telnet::accept_fed(a, b.push(13));
    assert(next.buf =~= Seq::<u8>::empty());
    assert(next.buf + c.push(13) =~= c.push(13));
}

} // verus!
