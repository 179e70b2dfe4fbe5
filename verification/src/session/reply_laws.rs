//! Laws of what is sent first, of what a message is sent as, and of what the
//! answers to a proposal do.

use vstd::prelude::*;
use vstd::utf8::*;

use crate::lzhuf;
use crate::message;
use crate::message::wire;
use crate::message::MessageView;
use crate::session;
use crate::session::lines;
use crate::session::lines::{Answer, ProposalView};
use crate::session::model;
use crate::session::model::{EventView, Flow, OutboundView, ReceiverView, SessionView, StateView};
use crate::session::turn_laws;
use crate::session::{Event, Outbound, SessionConfig};
use crate::text;
use crate::text::Class;
use crate::unicode;

verus! {

// ---------------------------------------------------------------------
// What is sent first

/// Of two messages in a block, the first is at least as urgent; if it is just
/// as urgent, it is not longer; if it is as long, its ID is not the later one.
/// What is left for another block is not more urgent than what is in this
/// one. A block has at most five messages.
pub proof fn law_urgent_goes_first(s: SessionView)
    requires
        s.offered.len() == s.outbound.len(),
    ensures
        ({
            let batch = model::next_batch(s);
            &&& batch.len() <= 5
            &&& forall|i: int, j: int|
                0 <= i < j < batch.len() ==> not_later(
                    s.outbound[#[trigger] batch[i]],
                    s.outbound[#[trigger] batch[j]],
                )
            &&& forall|i: int, k: int|
                0 <= i < s.outbound.len() && !s.offered[i] && model::deliverable(
                    s.remote_fw,
                    s.outbound[i].recipients,
                ) && !(#[trigger] batch.contains(i)) && 0 <= k < batch.len() ==> batch.len() == 5
                    && not_later(s.outbound[#[trigger] batch[k]], s.outbound[i])
        }),
{
    turn_laws::law_next_batch(s);
    let batch = model::next_batch(s);
    assert forall|i: int, j: int| 0 <= i < j < batch.len() implies not_later(
        s.outbound[#[trigger] batch[i]],
        s.outbound[#[trigger] batch[j]],
    ) by {
        lemma_not_later(s.outbound[batch[i]], s.outbound[batch[j]]);
    }
    assert forall|i: int, k: int|
        0 <= i < s.outbound.len() && !s.offered[i] && model::deliverable(
            s.remote_fw,
            s.outbound[i].recipients,
        ) && !(#[trigger] batch.contains(i)) && 0 <= k < batch.len() implies batch.len() == 5
        && not_later(s.outbound[#[trigger] batch[k]], s.outbound[i]) by {
        assert(turn_laws::is_candidate(s, i));
        lemma_not_later(s.outbound[batch[k]], s.outbound[i]);
    }
}

/// At least as urgent; else at most as long; else with an ID that is not the
/// later one.
pub open spec fn not_later(a: OutboundView, b: OutboundView) -> bool {
    ||| a.precedence < b.precedence
    ||| a.precedence == b.precedence && a.compressed.len() < b.compressed.len()
    ||| a.precedence == b.precedence && a.compressed.len() == b.compressed.len() && (a.mid == b.mid
        || comes_first(a.mid, b.mid))
}

/// The first text is a beginning of the second, or the smaller one where they
/// first differ.
pub open spec fn comes_first(a: Seq<char>, b: Seq<char>) -> bool {
    exists|n: int|
        0 <= n <= a.len() && n < b.len() && #[trigger] a.take(n) == b.take(n) && (n == a.len()
            || a[n] < b[n])
}

proof fn lemma_comes_first(a: Seq<char>, b: Seq<char>)
    requires
        text::before(a, b),
    ensures
        comes_first(a, b),
    decreases a.len(),
{
    if a.len() == 0 || a[0] != b[0] {
        assert(a.take(0) =~= b.take(0));
    } else {
        let (c, d) = (a.drop_first(), b.drop_first());
        lemma_comes_first(c, d);
        let n = choose|n: int|
            0 <= n <= c.len() && n < d.len() && #[trigger] c.take(n) == d.take(n) && (n == c.len()
                || c[n] < d[n]);
        assert(a.take(n + 1) =~= seq![a[0]] + c.take(n));
        assert(b.take(n + 1) =~= seq![b[0]] + d.take(n));
    }
}

proof fn lemma_not_later(a: OutboundView, b: OutboundView)
    requires
        !model::sooner(b, a),
    ensures
        not_later(a, b),
{
    text::lemma_before_total(a.mid, b.mid);
    if text::before(a.mid, b.mid) {
        lemma_comes_first(a.mid, b.mid);
    }
}

/// A flash message is the most urgent, then an immediate one, then a priority
/// one; every other message is routine.
pub proof fn law_precedence_markers(a: Seq<char>, b: Seq<char>, other: Seq<char>)
    ensures
        lines::precedence_of(a + "//WL2K Z/"@ + b) <= lines::precedence_of(other),
        lines::precedence_of(a + "//WL2K O/"@ + b) <= lines::precedence_of(other) || text::contains(
            other,
            "//WL2K Z/"@,
        ),
        lines::precedence_of(a + "//WL2K P/"@ + b) <= lines::precedence_of(other) || text::contains(
            other,
            "//WL2K Z/"@,
        ) || text::contains(other, "//WL2K O/"@),
        !text::contains(other, "//WL2K Z/"@) && !text::contains(other, "//WL2K O/"@)
            && !text::contains(other, "//WL2K P/"@) ==> {
            &&& lines::precedence_of(a + "//WL2K P/"@ + b) < lines::precedence_of(other)
            &&& lines::precedence_of(a + "//WL2K O/"@ + b) < lines::precedence_of(other)
            &&& lines::precedence_of(a + "//WL2K Z/"@ + b) < lines::precedence_of(other)
        },
{
    lemma_contains(a, "//WL2K Z/"@, b);
    lemma_contains(a, "//WL2K O/"@, b);
    lemma_contains(a, "//WL2K P/"@, b);
}

proof fn lemma_contains(a: Seq<char>, p: Seq<char>, b: Seq<char>)
    ensures
        text::contains(a + p + b, p),
    decreases a.len(),
{
    let s = a + p + b;
    if a.len() == 0 {
        assert(s.take(p.len() as int) =~= p);
    } else {
        lemma_contains(a.skip(1), p, b);
        assert(s.skip(1) =~= a.skip(1) + p + b);
    }
}

// ---------------------------------------------------------------------
// What a message is sent as

/// A message goes out compressed, from which its bytes come back; it is for
/// those in its To field and then those in its Cc field.
pub proof fn law_message_is_made_ready(m: MessageView)
    ensures
        ({
            let o = session::prepared(m);
            let (to, cc) = (message::to_of(m), message::cc_of(m));
            &&& o.mid == wire::mid_of(m)
            &&& o.size == wire::written(m).len()
            &&& o.recipients.len() == to.len() + cc.len()
            &&& forall|i: int| 0 <= i < to.len() ==> #[trigger] o.recipients[i] == to[i]
            &&& forall|i: int|
                0 <= i < cc.len() ==> o.recipients[to.len() + i] == #[trigger] cc[i]
            &&& text::trim(message::subject_of(m)).len() == 0 ==> o.title == "No title"@
            &&& o.precedence == lines::precedence_of(message::subject_of(m))
        }),
        wire::written(m).len() <= lzhuf::MAX_UNCOMPRESSED ==> lzhuf::opened(
            session::prepared(m).compressed,
        ) == Ok::<_, Seq<char>>(wire::written(m)),
{
    if wire::written(m).len() <= lzhuf::MAX_UNCOMPRESSED {
        lzhuf::law_container_roundtrip(wire::written(m));
    }
}

/// A transfer starts with SOH and the title, and gives the offset in decimal;
/// it ends with EOT and the byte that makes the sum of the data zero, modulo
/// 256.
pub proof fn law_transfer_form(title: Seq<char>, compressed: Seq<u8>, offset: nat)
    requires
        offset <= compressed.len(),
    ensures
        ({
            let t = lines::transfer(title, compressed, offset);
            let n = lines::title_bytes(title).len() as int;
            let d = encode_utf8(text::decimal(offset));
            let sum = lines::byte_sum(compressed.skip(offset as int));
            &&& t.len() >= 6 + n + d.len()
            &&& t[0] == 1
            &&& n + d.len() + 2 < 256 ==> t[1] == n + d.len() + 2
            &&& t.subrange(2, 2 + n) == lines::title_bytes(title)
            &&& t[2 + n] == 0
            &&& t.subrange(3 + n, 3 + n + d.len()) == d
            &&& t[3 + n + d.len()] == 0
            &&& t[t.len() - 2] == 4
            &&& (sum + t[t.len() - 1]) % 256 == 0
        }),
{
    let t = lines::transfer(title, compressed, offset);
    let head = lines::title_bytes(title);
    let n = head.len() as int;
    let d = encode_utf8(text::decimal(offset));
    assert(t.subrange(2, 2 + n) =~= head);
    assert(t.subrange(3 + n, 3 + n + d.len()) =~= d);
}

// ---------------------------------------------------------------------
// Answers of the remote

/// The answers to a block are taken one by one, in order: what is accepted is
/// sent, from the offset that was asked for, or from the start where there is
/// no such offset; what is rejected counts as delivered before; what is
/// deferred stays. Nothing else changes.
pub proof fn law_answers_are_followed(f: Flow, batch: Seq<int>, answers: Seq<Answer>, k: int)
    requires
        batch.len() == answers.len(),
        0 <= k < batch.len(),
    ensures
        ({
            let (g, sent) = model::replied(f, batch, answers);
            let o = f.s.outbound[batch[k]];
            &&& g.s == f.s
            &&& answers[k] matches Answer::Accept(n) ==> sent.contains(o.mid) && g.ev.contains(
                EventView::Transmit(
                    lines::transfer(
                        o.title,
                        o.compressed,
                        if n < o.compressed.len() {
                            n as nat
                        } else {
                            0
                        },
                    ),
                ),
            )
            &&& answers[k] is Reject ==> g.ev.contains(EventView::AlreadyDelivered(o.mid))
            &&& answers[k] is Defer ==> g.ev.contains(EventView::Deferred(o.mid))
        }),
    decreases batch.len(),
{
    let (g, sent) = model::replied(f, batch, answers);
    let (less, less_answers) = (batch.drop_last(), answers.drop_last());
    let (h, less_sent) = model::replied(f, less, less_answers);
    if k < batch.len() - 1 {
        law_answers_are_followed(f, less, less_answers, k);
        assert(less[k] == batch[k] && less_answers[k] == answers[k]);
        lemma_still_there(h.ev, g.ev);
        lemma_still_listed(less_sent, sent);
    } else {
        lemma_replied_keeps(f, less, less_answers);
        assert(g.ev[g.ev.len() - 1] == g.ev.last());
        if answers[k] is Accept {
            assert(sent[sent.len() - 1] == sent.last());
        }
    }
}

/// Does the block have a message of this ID that was accepted?
pub open spec fn is_accepted(
    outbound: Seq<OutboundView>,
    batch: Seq<int>,
    answers: Seq<Answer>,
    mid: Seq<char>,
) -> bool {
    exists|k: int|
        0 <= k < batch.len() && answers[k] is Accept && outbound[#[trigger] batch[k]].mid == mid
}

/// Only what the remote accepted is sent, and only that is waited for.
pub proof fn law_only_accepted_is_sent(f: Flow, batch: Seq<int>, answers: Seq<Answer>)
    requires
        batch.len() == answers.len(),
    ensures
        ({
            let (g, sent) = model::replied(f, batch, answers);
            forall|j: int|
                0 <= j < sent.len() ==> is_accepted(
                    f.s.outbound,
                    batch,
                    answers,
                    #[trigger] sent[j],
                )
        }),
    decreases batch.len(),
{
    if batch.len() > 0 {
        let (less, less_answers) = (batch.drop_last(), answers.drop_last());
        law_only_accepted_is_sent(f, less, less_answers);
        let (g, sent) = model::replied(f, batch, answers);
        let (h, less_sent) = model::replied(f, less, less_answers);
        assert forall|j: int| 0 <= j < sent.len() implies is_accepted(
            f.s.outbound,
            batch,
            answers,
            #[trigger] sent[j],
        ) by {
            if j < less_sent.len() {
                assert(sent[j] == less_sent[j]);
                assert(is_accepted(f.s.outbound, less, less_answers, less_sent[j]));
                let k = choose|k: int|
                    0 <= k < less.len() && less_answers[k] is Accept
                        && f.s.outbound[#[trigger] less[k]].mid == less_sent[j];
                assert(batch[k] == less[k] && answers[k] == less_answers[k]);
            } else {
                assert(batch[batch.len() - 1] == batch.last());
            }
        }
    }
}

proof fn lemma_replied_keeps(f: Flow, batch: Seq<int>, answers: Seq<Answer>)
    ensures
        model::replied(f, batch, answers).0.s == f.s,
    decreases batch.len(),
{
    if batch.len() > 0 && answers.len() > 0 {
        lemma_replied_keeps(f, batch.drop_last(), answers.drop_last());
    }
}

proof fn lemma_still_there(a: Seq<EventView>, b: Seq<EventView>)
    requires
        a.len() <= b.len(),
        forall|i: int| 0 <= i < a.len() ==> a[i] == #[trigger] b[i],
    ensures
        forall|e: EventView| a.contains(e) ==> #[trigger] b.contains(e),
{
    assert forall|e: EventView| a.contains(e) implies #[trigger] b.contains(e) by {
        let i = choose|i: int| 0 <= i < a.len() && a[i] == e;
        assert(b[i] == e);
    }
}

proof fn lemma_still_listed(a: Seq<Seq<char>>, b: Seq<Seq<char>>)
    requires
        a.len() <= b.len(),
        forall|i: int| 0 <= i < a.len() ==> a[i] == #[trigger] b[i],
    ensures
        forall|e: Seq<char>| a.contains(e) ==> #[trigger] b.contains(e),
{
    assert forall|e: Seq<char>| a.contains(e) implies #[trigger] b.contains(e) by {
        let i = choose|i: int| 0 <= i < a.len() && a[i] == e;
        assert(b[i] == e);
    }
}

/// `+` and `Y` accept, `-`, `N` and `R` reject, `=`, `L` and `H` defer; in
/// lower case too.
pub open spec fn is_answer(b: u8, a: Answer) -> bool {
    match a {
        Answer::Accept(n) => n == 0 && (b == 43 || b == 89 || b == 121),
        Answer::Reject => b == 45 || b == 78 || b == 110 || b == 82 || b == 114,
        Answer::Defer => b == 61 || b == 76 || b == 108 || b == 72 || b == 104,
    }
}

/// Each character of a plain answer line answers one proposal, in order.
pub proof fn law_answer_letters(b: Seq<u8>, s: Seq<char>, given: Seq<Answer>)
    requires
        b.len() == given.len(),
        forall|i: int| 0 <= i < b.len() ==> is_answer(#[trigger] b[i], given[i]),
    ensures
        lines::answers(b, s) == Ok::<_, Seq<char>>(given),
    decreases b.len(),
{
    if b.len() > 0 {
        let (rest, more) = (b.skip(1), given.skip(1));
        assert forall|i: int| 0 <= i < rest.len() implies is_answer(
            #[trigger] rest[i],
            more[i],
        ) by {
            assert(rest[i] == b[i + 1]);
        }
        law_answer_letters(rest, s, more);
        assert(is_answer(b[0], given[0]));
        assert(seq![given[0]] + more =~= given);
    } else {
        assert(given =~= seq![]);
    }
}

// ---------------------------------------------------------------------
// Our answers

/// We answer each proposal with one character: `+` exactly to a message in
/// the format of this program that is new, not too large and not offered
/// before in the block; `-` to one that we have; `=` to the rest. What we say
/// `+` to is what we then expect, in order.
pub proof fn law_proposals_are_answered(ps: Seq<ProposalView>, known: Set<Seq<char>>, k: int)
    requires
        0 <= k < ps.len(),
    ensures
        ({
            let v = model::verdicts(ps, known, ps.len() as int);
            let p = ps[k];
            let first = forall|j: int| 0 <= j < k ==> (#[trigger] ps[j]).mid != p.mid;
            let fits = p.csize <= lzhuf::MAX_UNCOMPRESSED && p.raw_size
                <= lzhuf::MAX_UNCOMPRESSED;
            &&& v.len() == ps.len()
            &&& v[k] == '+' <==> first && fits && p.code == 'C' && !known.contains(p.mid)
            &&& v[k] == '-' <==> first && fits && p.code == 'C' && known.contains(p.mid)
            &&& v[k] == '=' <==> !first || !fits || p.code != 'C'
        }),
{
}

/// Is this one of the first `n` proposals, and one that we say `+` to?
pub open spec fn is_wanted(
    ps: Seq<ProposalView>,
    known: Set<Seq<char>>,
    n: int,
    p: ProposalView,
) -> bool {
    exists|k: int| 0 <= k < n && #[trigger] ps[k] == p && model::verdict(ps, k, known) == '+'
}

/// Exactly the proposals that we say `+` to are taken, in the order in which
/// they came.
pub proof fn law_accepted_is_expected(ps: Seq<ProposalView>, known: Set<Seq<char>>, n: int)
    requires
        0 <= n <= ps.len(),
    ensures
        ({
            let q = model::accepted(ps, known, n);
            &&& forall|k: int|
                0 <= k < n && model::verdict(ps, k, known) == '+' ==> q.contains(#[trigger] ps[k])
            &&& forall|j: int| 0 <= j < q.len() ==> is_wanted(ps, known, n, #[trigger] q[j])
            &&& q.len() <= n
        }),
    decreases n,
{
    if n > 0 {
        law_accepted_is_expected(ps, known, n - 1);
        let (less, q) = (model::accepted(ps, known, n - 1), model::accepted(ps, known, n));
        assert forall|k: int|
            0 <= k < n && model::verdict(ps, k, known) == '+' implies q.contains(
            #[trigger] ps[k],
        ) by {
            if k == n - 1 {
                assert(q[q.len() - 1] == ps[k]);
            } else {
                let j = choose|j: int| 0 <= j < less.len() && less[j] == ps[k];
                assert(q[j] == ps[k]);
            }
        }
        assert forall|j: int| 0 <= j < q.len() implies is_wanted(
            ps,
            known,
            n,
            #[trigger] q[j],
        ) by {
            if j < less.len() {
                assert(q[j] == less[j]);
                assert(is_wanted(ps, known, n - 1, less[j]));
            } else {
                assert(ps[n - 1] == q[j]);
            }
        }
    }
}

/// The answer goes out as one line, and the session waits for what was
/// accepted.
pub proof fn law_answer_is_sent(f: Flow)
    requires
        model::accepted(f.s.proposals, f.s.known, f.s.proposals.len() as int).len() > 0,
    ensures
        ({
            let g = model::answered(f);
            let ps = f.s.proposals;
            &&& g.ev.last() == EventView::Transmit(
                encode_utf8("FS "@ + model::verdicts(ps, f.s.known, ps.len() as int) + "\r"@),
            )
            &&& g.s.state matches StateView::Receiving(r) && r.queue == model::accepted(
                ps,
                f.s.known,
                ps.len() as int,
            )
            &&& g.s.proposals.len() == 0
        }),
{
}

// ---------------------------------------------------------------------
// The remote's forwarding calls

/// Is this the upper case form of a beginning of one of the words?
pub open spec fn is_named(words: Seq<Seq<char>>, call: Seq<char>) -> bool {
    exists|i: int, n: int|
        0 <= i < words.len() && 0 < n <= words[i].len() && call == unicode::upper(
            #[trigger] words[i].take(n),
        )
}

/// A `;FW:` line names the calls that the remote takes mail for: the upper
/// case form of what stands before `|` in each of its words.
pub proof fn law_forwarding_calls(f: Flow, rest: Seq<char>)
    ensures
        ({
            let words = text::split_words(rest);
            let fw = model::noted_fw(f, ";FW:"@ + rest).s.remote_fw;
            &&& forall|i: int, n: int|
                0 <= i < words.len() && 0 < n <= (#[trigger] words[i]).len() && (n < words[i].len()
                    ==> words[i][n] == '|') && (forall|k: int|
                    0 <= k < n ==> words[i][k] != '|') ==> fw.contains(
                    unicode::upper(#[trigger] words[i].take(n)),
                )
            &&& forall|j: int| 0 <= j < fw.len() ==> is_named(words, #[trigger] fw[j])
        }),
{
    let line = ";FW:"@ + rest;
    let words = text::split_words(rest);
    reveal_strlit(";FW:");
    assert(line.take(4) =~= ";FW:"@);
    assert(line.skip(4) =~= rest);
    let fw = model::noted_fw(f, line).s.remote_fw;
    assert(fw == model::fw_calls(words));
    lemma_fw_calls(words);
    assert forall|i: int, n: int|
        0 <= i < words.len() && 0 < n <= (#[trigger] words[i]).len() && (n < words[i].len()
            ==> words[i][n] == '|') && (forall|k: int|
            0 <= k < n ==> words[i][k] != '|') implies fw.contains(
        unicode::upper(#[trigger] words[i].take(n)),
    ) by {
        text::lemma_first(words[i], Class::One('|'));
        let m = text::first(words[i], Class::One('|')) as int;
        assert(m == n) by {
            if n < m {
                assert(!text::is_in(Class::One('|'), words[i][n]));
            } else if m < n {
                assert(text::is_in(Class::One('|'), words[i][m]));
            }
        }
        assert(model::fw_call(words[i]) == words[i].take(n));
    }
}

proof fn lemma_fw_calls(items: Seq<Seq<char>>)
    ensures
        ({
            let fw = model::fw_calls(items);
            &&& forall|i: int|
                0 <= i < items.len() && model::fw_call(#[trigger] items[i]).len() > 0
                    ==> fw.contains(unicode::upper(model::fw_call(items[i])))
            &&& forall|j: int| 0 <= j < fw.len() ==> is_named(items, #[trigger] fw[j])
        }),
    decreases items.len(),
{
    if items.len() > 0 {
        let less = items.drop_last();
        lemma_fw_calls(less);
        let (a, b) = (model::fw_calls(less), model::fw_calls(items));
        assert forall|i: int|
            0 <= i < items.len() && model::fw_call(#[trigger] items[i]).len()
                > 0 implies b.contains(unicode::upper(model::fw_call(items[i]))) by {
            if i < less.len() {
                assert(less[i] == items[i]);
                let k = choose|k: int|
                    0 <= k < a.len() && a[k] == unicode::upper(model::fw_call(less[i]));
                assert(b[k] == a[k]);
            } else {
                assert(b[b.len() - 1] == unicode::upper(model::fw_call(items[i])));
            }
        }
        assert forall|j: int| 0 <= j < b.len() implies is_named(items, #[trigger] b[j]) by {
            if j < a.len() {
                assert(b[j] == a[j]);
                assert(is_named(less, a[j]));
                let (i, n) = choose|i: int, n: int|
                    0 <= i < less.len() && 0 < n <= less[i].len() && a[j] == unicode::upper(
                        #[trigger] less[i].take(n),
                    );
                assert(items[i] == less[i]);
                assert(b[j] == unicode::upper(items[i].take(n)));
            } else {
                let i = items.len() - 1;
                text::lemma_first(items[i], Class::One('|'));
                let n = text::first(items[i], Class::One('|')) as int;
                assert(b[j] == unicode::upper(items[i].take(n)));
            }
        }
    }
}

// ---------------------------------------------------------------------
// What the remote says of itself

/// A remote is taken for one that speaks B2 exactly if `B2` stands in the last
/// part of its SID, in capitals or not; with any other the session fails.
pub proof fn law_only_b2_is_spoken(f: Flow, name: Seq<char>, codes: Seq<char>)
    requires
        text::free_of(codes, Class::One('-')),
    ensures
        ({
            let line = seq!['['] + name + seq!['-'] + codes + seq![']'];
            let g = model::noted_sid(f, line);
            let speaks = text::contains(unicode::upper(codes), "B2"@);
            &&& model::is_sid(line)
            &&& speaks ==> g.s.remote_sid == Some(line) && g.s.state == f.s.state && g.ev == f.ev
            &&& !speaks ==> g.s.state is Failed && g.s.remote_sid == f.s.remote_sid
        }),
{
    let line = seq!['['] + name + seq!['-'] + codes + seq![']'];
    let inner = line.subrange(1, line.len() - 1);
    let k = Class::One('-');
    assert(inner =~= name + seq!['-'] + codes);
    assert forall|i: int| name.len() + 1 <= i < inner.len() implies !text::is_in(
        k,
        #[trigger] inner[i],
    ) by {
        assert(!text::is_in(k, codes[i - name.len() - 1]));
    }
    text::lemma_after_last(inner, k, name.len() as int + 1);
    assert(inner.skip(name.len() as int + 1) =~= codes);
}

/// The data of a transfer goes in blocks of 125 bytes, the last one of what is
/// left: each is STX, its length, and its bytes.
pub proof fn law_blocks(chunk: Seq<u8>, rest: Seq<u8>)
    requires
        0 < chunk.len() <= 125,
        chunk.len() < 125 ==> rest.len() == 0,
    ensures
        lines::blocks(chunk + rest) == seq![2u8, chunk.len() as u8] + chunk + lines::blocks(rest),
{
    let d = chunk + rest;
    let n = chunk.len() as int;
    assert(d.take(n) =~= chunk);
    assert(d.skip(n) =~= rest);
}

// ---------------------------------------------------------------------
// Damage

/// A message that came damaged, with another length than was announced, or
/// unreadable, is not taken: the session fails, and the message stays unknown.
pub proof fn law_damage_is_refused(f: Flow, r: ReceiverView)
    requires
        f.s.rx.len() > 0,
        r.queue.len() > 0,
        (r.sum + f.s.rx[0]) % 256 != 0 || r.data.len() != r.queue[0].csize || lzhuf::opened(
            r.data,
        ) is Err || wire::read(lzhuf::opened(r.data)->Ok_0) is Err,
    ensures
        ({
            let g = model::step_checksum(f, r);
            &&& g.s.state is Failed
            &&& g.s.known == f.s.known
            &&& g.ev.len() == f.ev.len() + 1
            &&& g.ev.last() is Failed
        }),
{
}

/// A message that is taken is handed on as it was read, and is known from
/// then on under the ID that was announced and the ID that it has.
pub proof fn law_message_is_handed_on(f: Flow, p: ProposalView, m: MessageView, raw: Seq<u8>)
    ensures
        ({
            let g = model::stored(f, p, m, raw);
            &&& g.ev.last() is Received && g.ev.last()->message == m && g.ev.last()->raw == raw
            &&& g.s.known.contains(p.mid) && g.s.known.contains(wire::mid_of(m))
            &&& forall|mid: Seq<char>|
                #[trigger] g.s.known.contains(mid) ==> f.s.known.contains(mid) || mid == p.mid
                    || mid == wire::mid_of(m)
            &&& forall|mid: Seq<char>| f.s.known.contains(mid) ==> #[trigger] g.s.known.contains(mid)
        }),
{
}

/// The checksum of a block of proposals makes the sum of all its bytes, with
/// a carriage return for each line, zero modulo 256. A block with another
/// checksum is refused.
pub proof fn law_block_checksum(f: Flow, line: Seq<char>, given: Seq<char>)
    requires
        line.len() >= 2,
        0 <= f.s.proposal_sum < 256,
    ensures
        line[1] == 'C' ==> (model::command(f, line).s.proposal_sum - f.s.proposal_sum
            - lines::byte_sum(encode_utf8(line)) - 13) % 256 == 0,
        given.len() > 0 && (text::parse_unsigned(given, 16, 255) is None || (f.s.proposal_sum
            + text::parse_unsigned(given, 16, 255)->0) % 256 != 0) ==> model::end_of_block(
            f,
            given,
        ).s.state is Failed,
{
}

// ---------------------------------------------------------------------
// What goes in and comes out

/// What a session is given is what it works with.
pub proof fn law_session_input(c: SessionConfig, o: Outbound)
    ensures
        c@.mycall == c.mycall@ && c@.targetcall == c.targetcall@ && c@.locator == c.locator@,
        c@.master == c.master,
        c.password is None ==> c@.password is None,
        c.password is Some ==> c@.password == Some(c.password->0@),
        o@.mid == o.mid@ && o@.title == o.title@ && o@.compressed == o.compressed@,
        o@.size == o.size && o@.precedence == o.precedence,
        o@.recipients.len() == o.recipients@.len(),
        forall|i: int|
            0 <= i < o.recipients@.len() ==> #[trigger] o@.recipients[i] == o.recipients@[i]@,
{
}

/// An event says what the session means by it.
pub proof fn law_session_output(e: Event)
    ensures
        match e {
            Event::Transmit(b) => e@ == EventView::Transmit(b@),
            Event::Log(kind, line) => e@ == EventView::Log(kind, line@),
            Event::Received { message, raw } => e@ is Received && e@->message == message@
                && e@->raw == raw@,
            Event::Delivered(mid) => e@ == EventView::Delivered(mid@),
            Event::AlreadyDelivered(mid) => e@ == EventView::AlreadyDelivered(mid@),
            Event::Deferred(mid) => e@ == EventView::Deferred(mid@),
            Event::Finished => e@ is Finished,
            Event::Failed(reason) => e@ == EventView::Failed(reason@),
        },
{
}

} // verus!
