//! The Winlink "telnet" login used by the CMS and by peer-to-peer TCP
//! sessions: the answering side prompts `Callsign :` and `Password :`,
//! then the B2F session starts on the same stream.

use vstd::prelude::*;
use vstd::slice::slice_to_vec;
use vstd::utf8::*;

use crate::session::lines;
use crate::text;
use crate::text::Class;
use crate::unicode;

pub mod laws;

verus! {

/// Login lines longer than this are refused.
pub const MAX_LINE: usize = 4096;

#[derive(Debug, PartialEq, Eq)]
pub enum Step {
    Send(Vec<u8>),
    /// A line that was not a prompt (banner text).
    Banner(String),
    /// Login finished; these bytes already belong to the B2F session.
    Done(Vec<u8>),
    /// The peer sent an absurdly long line before login finished.
    Failed(String),
}

/// What a step says.
#[verifier::ext_equal]
pub enum StepView {
    Send(Seq<u8>),
    Banner(Seq<char>),
    Done(Seq<u8>),
    Failed(Seq<char>),
}

impl View for Step {
    type V = StepView;

    open spec fn view(&self) -> StepView {
        match self {
            Step::Send(b) => StepView::Send(b@),
            Step::Banner(t) => StepView::Banner(t@),
            Step::Done(b) => StepView::Done(b@),
            Step::Failed(t) => StepView::Failed(t@),
        }
    }
}

/// What some steps say.
pub open spec fn step_views(v: Seq<Step>) -> Seq<StepView> {
    Seq::new(v.len(), |i: int| v[i]@)
}

fn take_step(steps: &mut Vec<Step>, s: Step)
    ensures
        step_views(final(steps)@) == step_views(old(steps)@).push(s@),
{
    let ghost x = s@;
    steps.push(s);
    assert(step_views(steps@) =~= step_views(old(steps)@).push(x));
}

/// A line of the login as text.
pub open spec fn line_text(bytes: Seq<u8>) -> Seq<char> {
    text::trim(text::latin1(bytes))
}

fn text_of(bytes: &[u8]) -> (r: String)
    ensures
        r@ == line_text(bytes@),
{
    text::string(text::trimmed(&text::latin1_chars(bytes)))
}

pub open spec fn asks_call(line: Seq<char>) -> bool {
    text::starts_with(text::ascii_lower(line), "callsign"@)
}

pub open spec fn asks_password(line: Seq<char>) -> bool {
    text::starts_with(text::ascii_lower(line), "password"@)
}

/// A prompt that may stand without a line ending.
pub open spec fn is_prompt_line(line: Seq<char>) -> bool {
    (asks_call(line) || asks_password(line)) && text::ends_with(text::ascii_lower(line), ":"@)
}

fn is_prompt(line: &str) -> (r: bool)
    ensures
        r == is_prompt_line(line@),
{
    let lower = text::to_ascii_lower(&text::chars(line));
    (text::has_prefix(&lower, "callsign") || text::has_prefix(&lower, "password"))
        && text::has_suffix(&lower, ":")
}

// ---------------------------------------------------------------------
// Client side

/// The state of a login.
#[verifier::ext_equal]
pub struct LoginView {
    pub call: Seq<char>,
    pub password: Seq<char>,
    pub buf: Seq<u8>,
    pub done: bool,
}

/// What looking for a login line gives.
pub enum LoginLine {
    /// A line, and the bytes behind it.
    Line(Seq<char>, Seq<u8>),
    More,
    TooLong(Seq<char>),
}

/// The next line. Prompts may arrive without a line ending.
pub open spec fn login_line(buf: Seq<u8>) -> LoginLine {
    let end = lines::break_at(buf) as int;
    if end < buf.len() {
        if end > MAX_LINE {
            LoginLine::TooLong("login line longer than 4096 bytes"@)
        } else {
            LoginLine::Line(line_text(buf.take(end)), buf.skip(end + 1))
        }
    } else if is_prompt_line(line_text(buf)) {
        LoginLine::Line(line_text(buf), seq![])
    } else if buf.len() > MAX_LINE {
        LoginLine::TooLong("login line longer than 4096 bytes without a line ending"@)
    } else {
        LoginLine::More
    }
}

pub proof fn lemma_login_line(buf: Seq<u8>)
    ensures
        login_line(buf) matches LoginLine::Line(line, rest) ==> rest.len() < buf.len(),
{
    lines::lemma_break_at(buf);
    if buf.len() == 0 {
        reveal_strlit("callsign");
        reveal_strlit("password");
        text::lemma_trimmed_ends(text::latin1(buf), Class::Space);
        assert(line_text(buf).len() == 0);
    }
}

/// Answers the prompts in the bytes that are there.
pub open spec fn answered(l: LoginView, steps: Seq<StepView>) -> (LoginView, Seq<StepView>)
    decreases l.buf.len(),
{
    proof {
        lemma_login_line(l.buf);
    }
    match login_line(l.buf) {
        LoginLine::More => (l, steps),
        LoginLine::TooLong(e) => (
            LoginView { buf: seq![], ..l },
            steps.push(StepView::Failed(e)),
        ),
        LoginLine::Line(line, rest) => {
            let next = LoginView { buf: rest, ..l };
            if asks_call(line) {
                answered(next, steps.push(StepView::Send(encode_utf8(l.call + "\r"@))))
            } else if asks_password(line) {
                (
                    LoginView { buf: seq![], done: true, ..l },
                    steps.push(StepView::Send(encode_utf8(l.password + "\r"@))).push(
                        StepView::Done(rest),
                    ),
                )
            } else if line.len() > 0 {
                answered(next, steps.push(StepView::Banner(line)))
            } else {
                answered(next, steps)
            }
        },
    }
}

/// A login is given some bytes. Once it is done they pass through.
pub open spec fn login_fed(l: LoginView, data: Seq<u8>) -> (LoginView, Seq<StepView>) {
    if l.done {
        (l, seq![StepView::Done(data)])
    } else {
        answered(LoginView { buf: l.buf + data, ..l }, seq![])
    }
}

/// Client side: answers the prompts.
#[derive(Debug)]
pub struct Login {
    call: String,
    password: String,
    buf: Vec<u8>,
    done: bool,
}

impl View for Login {
    type V = LoginView;

    closed spec fn view(&self) -> LoginView {
        LoginView {
            call: self.call@,
            password: self.password@,
            buf: self.buf@,
            done: self.done,
        }
    }
}

impl Login {
    pub fn new(call: &str, password: &str) -> (r: Login)
        ensures
            r@ == (LoginView { call: call@, password: password@, buf: seq![], done: false }),
    {
        let r = Login {
            call: call.to_owned(),
            password: password.to_owned(),
            buf: Vec::new(),
            done: false,
        };
        assert(r@.buf =~= seq![]);
        r
    }

    pub fn is_done(&self) -> (r: bool)
        ensures
            r == self@.done,
    {
        self.done
    }

    pub fn feed(&mut self, data: &[u8]) -> (r: Vec<Step>)
        ensures
            (final(self)@, step_views(r@)) == login_fed(old(self)@, data@),
    {
        let mut steps: Vec<Step> = Vec::new();
        assert(step_views(steps@) =~= seq![]);
        if self.done {
            take_step(&mut steps, Step::Done(slice_to_vec(data)));
            assert(step_views(steps@) =~= seq![StepView::Done(data@)]);
            return steps;
        }
        self.buf.extend_from_slice(data);
        let ghost goal = login_fed(old(self)@, data@);
        assert(self@ =~= LoginView { buf: old(self)@.buf + data@, ..old(self)@ });
        loop
            invariant_except_break
                answered(self@, step_views(steps@)) == goal,
            invariant
                goal == login_fed(old(self)@, data@),
            ensures
                (self@, step_views(steps@)) == goal,
            decreases self.buf@.len(),
        {
            proof {
                lemma_login_line(self.buf@);
            }
            let end = lines::find_break(&self.buf);
            let line: String;
            if end < self.buf.len() {
                if end > MAX_LINE {
                    self.buf.clear();
                    assert(self.buf@ =~= seq![]);
                    take_step(
                        &mut steps,
                        Step::Failed("login line longer than 4096 bytes".to_owned()),
                    );
                    return steps;
                }
                line = text_of(&self.buf[0..end]);
                assert(self.buf@.subrange(0, end as int) =~= self.buf@.take(end as int));
                lines::drop_front(&mut self.buf, end + 1);
            } else {
                let all = text_of(&self.buf);
                if is_prompt(&all) {
                    line = all;
                    self.buf.clear();
                    assert(self.buf@ =~= seq![]);
                } else if self.buf.len() > MAX_LINE {
                    self.buf.clear();
                    assert(self.buf@ =~= seq![]);
                    take_step(
                        &mut steps,
                        Step::Failed(
                            "login line longer than 4096 bytes without a line ending".to_owned(),
                        ),
                    );
                    return steps;
                } else {
                    break;
                }
            }
            let lower = text::to_ascii_lower(&text::chars(&line));
            if text::has_prefix(&lower, "callsign") {
                take_step(
                    &mut steps,
                    Step::Send(text::utf8_bytes(&text::cat2(&self.call, "\r"))),
                );
            } else if text::has_prefix(&lower, "password") {
                take_step(
                    &mut steps,
                    Step::Send(text::utf8_bytes(&text::cat2(&self.password, "\r"))),
                );
                self.done = true;
                let mut rest: Vec<u8> = Vec::new();
                std::mem::swap(&mut rest, &mut self.buf);
                assert(self.buf@ =~= seq![]);
                take_step(&mut steps, Step::Done(rest));
                break;
            } else if !line.as_str().is_empty() {
                take_step(&mut steps, Step::Banner(line));
            }
        }
        steps
    }
}

// ---------------------------------------------------------------------
// Answering side

/// The state of the answering side: what it waits for, and who called.
#[verifier::ext_equal]
pub struct AcceptView {
    /// 0: the call; 1: the password; 2: nothing more.
    pub stage: int,
    pub buf: Seq<u8>,
    pub remote: Seq<char>,
}

/// The bytes of a line with its ending. CRLF is one line ending, so an empty
/// password stays empty.
pub open spec fn line_with_end(buf: Seq<u8>) -> int {
    let end = lines::break_at(buf) as int;
    if buf[end] == 13 && end + 1 < buf.len() && buf[end + 1] == 10 {
        end + 2
    } else {
        end + 1
    }
}

/// The first word in upper case.
pub open spec fn caller(line: Seq<char>) -> Seq<char> {
    let words = text::split_words(line);
    unicode::upper(
        if words.len() > 0 {
            words[0]
        } else {
            seq![]
        },
    )
}

/// Takes the lines that are there.
pub open spec fn accepted(a: AcceptView, steps: Seq<StepView>) -> (AcceptView, Seq<StepView>)
    decreases a.buf.len(),
{
    let end = lines::break_at(a.buf) as int;
    if end >= a.buf.len() {
        (a, steps)
    } else if end > MAX_LINE {
        (
            AcceptView { buf: seq![], ..a },
            steps.push(StepView::Failed("login line longer than 4096 bytes"@)),
        )
    } else {
        let line = line_text(a.buf.take(end));
        let rest = a.buf.skip(line_with_end(a.buf));
        if a.stage != 0 {
            (AcceptView { stage: 2, buf: seq![], ..a }, steps.push(StepView::Done(rest)))
        } else if line.len() == 0 {
            accepted(AcceptView { buf: rest, ..a }, steps)
        } else {
            accepted(
                AcceptView { stage: 1, buf: rest, remote: caller(line) },
                steps.push(StepView::Send(encode_utf8("Password :\r"@))),
            )
        }
    }
}

/// The answering side is given some bytes. Once it is done they pass
/// through.
pub open spec fn accept_fed(a: AcceptView, data: Seq<u8>) -> (AcceptView, Seq<StepView>) {
    let buf = a.buf + data;
    if a.stage >= 2 {
        (a, seq![StepView::Done(data)])
    } else if buf.len() > MAX_LINE && lines::break_at(buf) >= buf.len() {
        (
            AcceptView { buf: seq![], ..a },
            seq![
                StepView::Failed("login line longer than 4096 bytes without a line ending"@),
            ],
        )
    } else {
        accepted(AcceptView { buf, ..a }, seq![])
    }
}

/// Answering side (peer-to-peer listener): prompts and learns the caller.
#[derive(Debug)]
pub struct Accept {
    stage: u8,
    buf: Vec<u8>,
    remote: String,
}

impl View for Accept {
    type V = AcceptView;

    closed spec fn view(&self) -> AcceptView {
        AcceptView { stage: self.stage as int, buf: self.buf@, remote: self.remote@ }
    }
}

impl Default for Accept {
    fn default() -> (r: Accept)
        ensures
            r@ == (AcceptView { stage: 0, buf: seq![], remote: seq![] }),
    {
        let r = Accept { stage: 0, buf: Vec::new(), remote: String::new() };
        assert(r@ =~= AcceptView { stage: 0, buf: seq![], remote: seq![] });
        r
    }
}

impl Accept {
    pub fn start(&mut self) -> (r: Vec<Step>)
        ensures
            final(self)@ == old(self)@,
            step_views(r@) == seq![StepView::Send(encode_utf8("Callsign :\r"@))],
    {
        let mut steps: Vec<Step> = Vec::new();
        take_step(&mut steps, Step::Send(text::utf8_bytes("Callsign :\r")));
        assert(step_views(steps@) =~= seq![StepView::Send(encode_utf8("Callsign :\r"@))]);
        steps
    }

    /// Who called.
    pub fn remote_call(&self) -> (r: &str)
        ensures
            r@ == self@.remote,
    {
        self.remote.as_str()
    }

    pub fn feed(&mut self, data: &[u8]) -> (r: Vec<Step>)
        ensures
            (final(self)@, step_views(r@)) == accept_fed(old(self)@, data@),
    {
        let mut steps: Vec<Step> = Vec::new();
        assert(step_views(steps@) =~= seq![]);
        if self.stage >= 2 {
            take_step(&mut steps, Step::Done(slice_to_vec(data)));
            assert(step_views(steps@) =~= seq![StepView::Done(data@)]);
            return steps;
        }
        self.buf.extend_from_slice(data);
        assert(self.buf@ =~= old(self)@.buf + data@);
        if self.buf.len() > MAX_LINE && lines::find_break(&self.buf) == self.buf.len() {
            self.buf.clear();
            assert(self.buf@ =~= seq![]);
            take_step(
                &mut steps,
                Step::Failed("login line longer than 4096 bytes without a line ending".to_owned()),
            );
            assert(step_views(steps@) =~= seq![
                StepView::Failed("login line longer than 4096 bytes without a line ending"@),
            ]);
            return steps;
        }
        let ghost goal = accept_fed(old(self)@, data@);
        loop
            invariant_except_break
                accepted(self@, step_views(steps@)) == goal,
                self.stage < 2,
            invariant
                goal == accept_fed(old(self)@, data@),
            ensures
                (self@, step_views(steps@)) == goal,
            decreases self.buf@.len(),
        {
            let end = lines::find_break(&self.buf);
            if end == self.buf.len() {
                break;
            }
            if end > MAX_LINE {
                self.buf.clear();
                assert(self.buf@ =~= seq![]);
                take_step(
                    &mut steps,
                    Step::Failed("login line longer than 4096 bytes".to_owned()),
                );
                return steps;
            }
            let line = text_of(&self.buf[0..end]);
            assert(self.buf@.subrange(0, end as int) =~= self.buf@.take(end as int));
            let crlf = self.buf[end] == 13 && self.buf.len() - end > 1 && self.buf[end + 1] == 10;
            let n: usize = if crlf {
                end + 2
            } else {
                end + 1
            };
            lines::drop_front(&mut self.buf, n);
            if self.stage == 0 {
                let cs = text::chars(&line);
                if cs.len() > 0 {
                    let words = text::words(&cs);
                    let ghost all = text::views(words@);
                    assert(all.len() == words@.len());
                    let first = if words.len() > 0 {
                        assert(all[0] == words@[0]@);
                        text::string(&words[0])
                    } else {
                        let none = String::new();
                        assert(none@ =~= seq![]);
                        none
                    };
                    self.remote = unicode::to_uppercase(&first);
                    self.stage = 1;
                    take_step(&mut steps, Step::Send(text::utf8_bytes("Password :\r")));
                }
            } else {
                self.stage = 2;
                let mut rest: Vec<u8> = Vec::new();
                std::mem::swap(&mut rest, &mut self.buf);
                assert(self.buf@ =~= seq![]);
                take_step(&mut steps, Step::Done(rest));
                break;
            }
        }
        steps
    }
}

} // verus!
