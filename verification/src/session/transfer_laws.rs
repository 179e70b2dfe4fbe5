//! Laws of the transfer: what one session sends, another receives.

use vstd::prelude::*;
use vstd::utf8::*;

use crate::charset;
use crate::lzhuf;
use crate::message;
use crate::message::laws::{arrived, framed};
use crate::message::wire;
use crate::message::MessageView;
use crate::session::lines;
use crate::session::lines::ProposalView;
use crate::session::model;
use crate::session::model::{EventView, Flow, LogKind, ReceiverView, SessionView, StageView, StateView};
use crate::session::prepared;
use crate::text;
use crate::text::Class;
use crate::unicode;

verus! {

/// The session in a stage of receiving, with these bytes left.
pub open spec fn at_stage(f: Flow, r: ReceiverView, rx: Seq<u8>) -> Flow {
    Flow { s: SessionView { state: StateView::Receiving(r), rx, ..f.s }, ev: f.ev }
}

/// One step of a run.
proof fn lemma_step(f: Flow, r: ReceiverView, g: Flow)
    requires
        f.s.state == StateView::Receiving(r),
        model::stepped(f, r) == Some(g),
    ensures
        model::run(f) == model::run(g),
{
    reveal(model::run);
}

/// A byte that only moves the receiver on.
pub open spec fn next_stage(stage: StageView, b: u8) -> Option<StageView> {
    match stage {
        StageView::Soh => if b == lines::SOH {
            Some(StageView::HeaderLen)
        } else {
            None
        },
        StageView::HeaderLen => Some(StageView::Header { len: b as nat, bytes: seq![] }),
        StageView::Block => if b == lines::STX {
            Some(StageView::BlockLen)
        } else if b == lines::EOT {
            Some(StageView::Checksum)
        } else {
            None
        },
        StageView::BlockLen => if b > 0 {
            Some(StageView::BlockData { remaining: b as nat })
        } else {
            None
        },
        _ => None,
    }
}

proof fn lemma_byte(f: Flow, r: ReceiverView, b: u8, rest: Seq<u8>, stage: StageView)
    requires
        next_stage(r.stage, b) == Some(stage),
    ensures
        model::run(at_stage(f, r, seq![b] + rest)) == model::run(
            at_stage(f, ReceiverView { stage, ..r }, rest),
        ),
{
    let g = at_stage(f, r, seq![b] + rest);
    let h = at_stage(f, ReceiverView { stage, ..r }, rest);
    assert(g.s.rx.skip(1) =~= rest);
    assert(g.s.rx[0] == b);
    lemma_step(g, r, h);
}

/// The data of one block.
proof fn lemma_chunk(f: Flow, r: ReceiverView, chunk: Seq<u8>, rest: Seq<u8>)
    requires
        r.stage == (StageView::BlockData { remaining: chunk.len() }),
        chunk.len() > 0,
    ensures
        model::run(at_stage(f, r, chunk + rest)) == model::run(
            at_stage(
                f,
                ReceiverView {
                    stage: StageView::Block,
                    data: r.data + chunk,
                    sum: (r.sum + lines::byte_sum(chunk)) % 256,
                    ..r
                },
                rest,
            ),
        ),
{
    let g = at_stage(f, r, chunk + rest);
    let n = chunk.len() as int;
    assert(g.s.rx.take(n) =~= chunk);
    assert(g.s.rx.skip(n) =~= rest);
    lemma_step(g, r, model::step_data(g, r, chunk.len()));
}

/// The data blocks are collected, and their bytes summed up.
proof fn lemma_blocks_read(f: Flow, r: ReceiverView, d: Seq<u8>, tail: Seq<u8>)
    requires
        r.stage == StageView::Block,
        0 <= r.sum < 256,
    ensures
        model::run(at_stage(f, r, lines::blocks(d) + tail)) == model::run(
            at_stage(
                f,
                ReceiverView {
                    data: r.data + d,
                    sum: (r.sum + lines::byte_sum(d)) % 256,
                    ..r
                },
                tail,
            ),
        ),
    decreases d.len(),
{
    if d.len() == 0 {
        assert(lines::blocks(d) + tail =~= tail);
        assert(r.data + d =~= r.data);
    } else {
        let n = if d.len() < lines::MAX_CHUNK {
            d.len() as int
        } else {
            lines::MAX_CHUNK as int
        };
        let chunk = d.take(n);
        let more = d.skip(n);
        let rest = lines::blocks(more) + tail;
        let all = lines::blocks(d) + tail;
        assert(all =~= seq![lines::STX] + (seq![n as u8] + (chunk + rest)));
        lemma_byte(f, r, lines::STX, seq![n as u8] + (chunk + rest), StageView::BlockLen);
        let rb = ReceiverView { stage: StageView::BlockLen, ..r };
        let stage = StageView::BlockData { remaining: n as nat };
        lemma_byte(f, rb, n as u8, chunk + rest, stage);
        let rc = ReceiverView { stage, ..rb };
        lemma_chunk(f, rc, chunk, rest);
        let rd = ReceiverView {
            data: r.data + chunk,
            sum: (r.sum + lines::byte_sum(chunk)) % 256,
            ..r
        };
        lemma_blocks_read(f, rd, more, tail);
        lemma_sum(r.sum, chunk, more);
        assert(chunk + more =~= d);
        assert(r.data + chunk + more =~= r.data + d);
    }
}

proof fn lemma_sum(sum: int, a: Seq<u8>, b: Seq<u8>)
    ensures
        ((sum + lines::byte_sum(a)) % 256 + lines::byte_sum(b)) % 256 == (sum + lines::byte_sum(
            a + b,
        )) % 256,
{
    lines::lemma_byte_sum_concat(a, b);
    lines::lemma_byte_sum(a);
    lines::lemma_byte_sum(b);
}

proof fn lemma_nul_at(b: Seq<u8>, n: int)
    requires
        0 <= n <= b.len(),
        forall|i: int| 0 <= i < n ==> #[trigger] b[i] != 0,
        n < b.len() ==> b[n] == 0,
    ensures
        model::nul_at(b) == n,
    decreases b.len(),
{
    if b.len() > 0 && n > 0 {
        assert(b[0] != 0);
        let t = b.drop_first();
        assert forall|i: int| 0 <= i < n - 1 implies #[trigger] t[i] != 0 by {
            assert(b[i + 1] != 0);
        }
        lemma_nul_at(t, n - 1);
    }
}

/// A title that has no NUL in it.
pub open spec fn is_title(title: Seq<char>) -> bool {
    forall|i: int|
        0 <= i < lines::title_bytes(title).len() ==> #[trigger] lines::title_bytes(title)[i] != 0
}

/// Title and offset are read back from a transfer header.
proof fn lemma_header_read(title: Seq<char>)
    requires
        is_title(title),
    ensures
        ({
            let h = lines::transfer_header(title, 0);
            &&& model::header_title(h) == lines::title_bytes(title)
            &&& unicode::decoded_lossy(model::header_offset(h)) == "0"@
            &&& text::trim("0"@) == "0"@
            &&& 3 <= h.len() <= 83
        }),
{
    let t = lines::title_bytes(title);
    let h = lines::transfer_header(title, 0);
    let zero = text::decimal(0);
    reveal_strlit("0");
    assert(zero =~= "0"@);
    assert(is_ascii_chars("0"@));
    text::lemma_utf8_ascii("0"@);
    assert(encode_utf8(zero) =~= seq![0x30u8]);
    assert(h =~= t + seq![0u8, 0x30u8, 0u8]);
    assert forall|i: int| 0 <= i < t.len() implies #[trigger] h[i] != 0 by {
        assert(h[i] == t[i]);
    }
    lemma_nul_at(h, t.len() as int);
    assert(h.take(t.len() as int) =~= t);
    let rest = h.skip(t.len() as int + 1);
    assert(rest =~= seq![0x30u8, 0u8]);
    lemma_nul_at(rest, 1);
    assert(rest.take(1) =~= encode_utf8("0"@));
    encode_utf8_valid_utf8("0"@);
    encode_utf8_decode_utf8("0"@);
    text::lemma_trim_id("0"@, Class::Space);
}

/// What the log says when a transfer starts.
pub open spec fn receiving_text(mid: Seq<char>, title: Seq<char>) -> Seq<char> {
    "receiving "@ + mid + " \""@ + charset::decoded_header(
        text::trim(unicode::decoded_lossy(lines::title_bytes(title))),
    ) + "\""@
}

/// The session with a message taken in, the first of those to come.
pub open spec fn taken_in(
    g: Flow,
    queue: Seq<ProposalView>,
    m: MessageView,
    raw: Seq<u8>,
) -> Flow {
    let h = model::stored(g, queue[0], m, raw);
    if queue.len() == 1 {
        model::our_turn(h)
    } else {
        model::in_state(
            h,
            StateView::Receiving(
                ReceiverView {
                    queue: queue.drop_first(),
                    stage: StageView::Soh,
                    data: seq![],
                    sum: 0,
                },
            ),
        )
    }
}

/// The session when a message has come in.
pub open spec fn with_message(
    f: Flow,
    queue: Seq<ProposalView>,
    title: Seq<char>,
    m: MessageView,
    raw: Seq<u8>,
    tail: Seq<u8>,
) -> Flow {
    taken_in(
        Flow {
            s: SessionView { rx: tail, ..f.s },
            ev: f.ev.push(EventView::Log(LogKind::Info, receiving_text(queue[0].mid, title))),
        },
        queue,
        m,
        raw,
    )
}

/// The header of a transfer.
proof fn lemma_header_step(f: Flow, r: ReceiverView, title: Seq<char>, body: Seq<u8>)
    requires
        is_title(title),
        r.queue.len() > 0,
        r.stage == (StageView::Header {
            len: lines::transfer_header(title, 0).len(),
            bytes: seq![],
        }),
    ensures
        model::run(at_stage(f, r, lines::transfer_header(title, 0) + body)) == model::run(
            at_stage(
                model::said(
                    f,
                    EventView::Log(LogKind::Info, receiving_text(r.queue[0].mid, title)),
                ),
                ReceiverView { stage: StageView::Block, data: seq![], sum: 0, ..r },
                body,
            ),
        ),
{
    lemma_header_read(title);
    let header = lines::transfer_header(title, 0);
    let n = header.len() as int;
    let g = at_stage(f, r, header + body);
    assert(g.s.rx.take(n) =~= header);
    assert(g.s.rx.skip(n) =~= body);
    assert(Seq::<u8>::empty() + header =~= header);
    assert(body.skip(0) =~= body);
    let h = model::step_header(g, r, header.len(), seq![]);
    assert(h == model::header_done(model::past(g, n), r, header));
    lemma_step(g, r, h);
}

/// The end of a transfer.
proof fn lemma_end_step(
    f: Flow,
    r: ReceiverView,
    raw: Seq<u8>,
    m: MessageView,
    check: u8,
    tail: Seq<u8>,
)
    requires
        r.stage == StageView::Checksum,
        r.queue.len() > 0,
        r.data == lzhuf::container(raw),
        r.queue[0].csize == r.data.len(),
        (r.sum + check) % 256 == 0,
        raw.len() <= lzhuf::MAX_UNCOMPRESSED,
        wire::read(raw) == Ok::<_, Seq<char>>(m),
    ensures
        model::run(at_stage(f, r, seq![check] + tail)) == model::run(
            taken_in(Flow { s: SessionView { rx: tail, ..f.s }, ev: f.ev }, r.queue, m, raw),
        ),
{
    let g = at_stage(f, r, seq![check] + tail);
    assert(g.s.rx[0] == check);
    assert(g.s.rx.skip(1) =~= tail);
    lzhuf::law_container_roundtrip(raw);
    let p = r.queue[0];
    let plain = Flow { s: SessionView { rx: tail, ..f.s }, ev: f.ev };
    let left = model::past(g, 1);
    assert(left == model::in_state(plain, left.s.state));
    assert(model::stored(left, p, m, raw) == model::in_state(
        model::stored(plain, p, m, raw),
        left.s.state,
    ));
    model::lemma_our_turn_any_state(model::stored(plain, p, m, raw), left.s.state);
    lemma_step(g, r, model::step_checksum(g, r));
}

/// A message that is sent in a transfer is received: from the bytes of the
/// transfer, the container is put together, its checksum holds, and the
/// message is unpacked and read.
pub proof fn law_transfer_arrives(
    f: Flow,
    r: ReceiverView,
    title: Seq<char>,
    raw: Seq<u8>,
    m: MessageView,
    tail: Seq<u8>,
)
    requires
        f.s.state == StateView::Receiving(r),
        r.stage == StageView::Soh,
        r.queue.len() > 0,
        r.queue[0].csize == lzhuf::container(raw).len(),
        f.s.rx == lines::transfer(title, lzhuf::container(raw), 0) + tail,
        is_title(title),
        raw.len() <= lzhuf::MAX_UNCOMPRESSED,
        wire::read(raw) == Ok::<_, Seq<char>>(m),
    ensures
        model::run(f) == model::run(with_message(f, r.queue, title, m, raw, tail)),
{
    let packed = lzhuf::container(raw);
    let check = lines::complement(lines::byte_sum(packed)) as u8;
    let end = seq![check] + tail;
    let body = lines::blocks(packed) + (seq![lines::EOT] + end);
    lemma_shape(title, packed, tail);
    lines::lemma_byte_sum(packed);
    assert(f == at_stage(f, r, f.s.rx));
    lemma_front(f, r, title, body);
    let note = EventView::Log(LogKind::Info, receiving_text(r.queue[0].mid, title));
    let g = model::said(f, note);
    let rc = ReceiverView { stage: StageView::Block, data: seq![], sum: 0, ..r };
    lemma_back(g, rc, packed, end);
    let re = ReceiverView {
        stage: StageView::Checksum,
        data: packed,
        sum: lines::byte_sum(packed),
        ..r
    };
    lemma_end_step(g, re, raw, m, check, tail);
}

proof fn lemma_shape(title: Seq<char>, packed: Seq<u8>, tail: Seq<u8>)
    ensures
        ({
            let header = lines::transfer_header(title, 0);
            let check = lines::complement(lines::byte_sum(packed)) as u8;
            let body = lines::blocks(packed) + (seq![lines::EOT] + (seq![check] + tail));
            lines::transfer(title, packed, 0) + tail == seq![lines::SOH] + (
            seq![header.len() as u8] + (header + body))
        }),
{
    let header = lines::transfer_header(title, 0);
    let check = lines::complement(lines::byte_sum(packed)) as u8;
    let body = lines::blocks(packed) + (seq![lines::EOT] + (seq![check] + tail));
    assert(packed.skip(0) =~= packed);
    assert(lines::transfer(title, packed, 0) + tail =~= seq![lines::SOH] + (
    seq![header.len() as u8] + (header + body)));
}

proof fn lemma_front(f: Flow, r: ReceiverView, title: Seq<char>, body: Seq<u8>)
    requires
        r.stage == StageView::Soh,
        r.queue.len() > 0,
        is_title(title),
    ensures
        ({
            let header = lines::transfer_header(title, 0);
            let note = EventView::Log(LogKind::Info, receiving_text(r.queue[0].mid, title));
            model::run(
                at_stage(
                    f,
                    r,
                    seq![lines::SOH] + (seq![header.len() as u8] + (header + body)),
                ),
            ) == model::run(
                at_stage(
                    model::said(f, note),
                    ReceiverView { stage: StageView::Block, data: seq![], sum: 0, ..r },
                    body,
                ),
            )
        }),
{
    let header = lines::transfer_header(title, 0);
    let len = header.len() as u8;
    lemma_header_read(title);
    lemma_byte(f, r, lines::SOH, seq![len] + (header + body), StageView::HeaderLen);
    let ra = ReceiverView { stage: StageView::HeaderLen, ..r };
    let stage = StageView::Header { len: header.len(), bytes: seq![] };
    lemma_byte(f, ra, len, header + body, stage);
    lemma_header_step(f, ReceiverView { stage, ..ra }, title, body);
}

proof fn lemma_back(g: Flow, r: ReceiverView, packed: Seq<u8>, end: Seq<u8>)
    requires
        r.stage == StageView::Block,
        r.data == Seq::<u8>::empty(),
        r.sum == 0,
    ensures
        model::run(at_stage(g, r, lines::blocks(packed) + (seq![lines::EOT] + end)))
            == model::run(
            at_stage(
                g,
                ReceiverView {
                    stage: StageView::Checksum,
                    data: packed,
                    sum: lines::byte_sum(packed),
                    ..r
                },
                end,
            ),
        ),
{
    lemma_blocks_read(g, r, packed, seq![lines::EOT] + end);
    lines::lemma_byte_sum(packed);
    assert(Seq::<u8>::empty() + packed =~= packed);
    let rd = ReceiverView { data: packed, sum: lines::byte_sum(packed), ..r };
    lemma_byte(g, rd, lines::EOT, end, StageView::Checksum);
}

/// The label of a message is a title.
proof fn lemma_label(subject: Seq<char>)
    ensures
        is_title(lines::label(subject)),
{
    let s = text::trim(subject);
    let t = lines::label(subject);
    assert(charset::is_plain(t)) by {
        if s.len() == 0 {
            reveal_strlit("No title");
        } else {
            lemma_title_plain(s);
        }
    }
    assert(is_ascii_chars(t));
    text::lemma_utf8_ascii(t);
}

proof fn lemma_title_plain(s: Seq<char>)
    ensures
        charset::is_plain(lines::title_of(s)),
    decreases s.len(),
{
    charset::law_header_is_plain(s);
    let e = charset::encoded_header(s);
    if e.len() > lines::TITLE_MAX {
        if s.len() > 1 {
            lemma_title_plain(s.drop_last());
        } else {
            assert forall|i: int| 0 <= i < lines::TITLE_MAX implies ' ' <= #[trigger] e.take(
                lines::TITLE_MAX as int,
            )[i] && e.take(lines::TITLE_MAX as int)[i] <= '~' by {
                assert(' ' <= e[i] && e[i] <= '~');
            }
        }
    }
}

/// A message that one side has prepared and sends in full is what the other
/// side receives.
pub proof fn law_message_arrives(f: Flow, r: ReceiverView, m: MessageView, tail: Seq<u8>)
    requires
        framed(m),
        wire::written(m).len() <= lzhuf::MAX_UNCOMPRESSED,
        f.s.state == StateView::Receiving(r),
        r.stage == StageView::Soh,
        r.queue.len() > 0,
        r.queue[0].csize == prepared(m).compressed.len(),
        f.s.rx == lines::transfer(prepared(m).title, prepared(m).compressed, 0) + tail,
    ensures
        model::run(f) == model::run(
            with_message(
                f,
                r.queue,
                prepared(m).title,
                arrived(m),
                wire::written(m),
                tail,
            ),
        ),
{
    message::laws::law_framed_roundtrip(m);
    lemma_label(message::subject_of(m));
    law_transfer_arrives(f, r, prepared(m).title, wire::written(m), arrived(m), tail);
}

/// A proposal line is read back as what it offers.
pub proof fn law_offer_is_read(m: MessageView)
    requires
        message::fault(m) is None,
        forall|i: int|
            0 <= i < wire::mid_of(m).len() ==> !text::is_space(#[trigger] wire::mid_of(m)[i]),
        wire::written(m).len() <= usize::MAX,
        lzhuf::container(wire::written(m)).len() <= usize::MAX,
    ensures
        lines::proposal(model::offer_line(prepared(m))) == Ok::<_, Seq<char>>(
            ProposalView {
                code: 'C',
                mid: wire::mid_of(m),
                raw_size: wire::written(m).len(),
                csize: lzhuf::container(wire::written(m)).len(),
            },
        ),
{
    let o = prepared(m);
    text::lemma_decimal(o.size);
    text::lemma_decimal(o.compressed.len());
    text::lemma_parse_decimal(o.size, usize::MAX as nat);
    text::lemma_parse_decimal(o.compressed.len(), usize::MAX as nat);
    let size = text::decimal(o.size);
    let csize = text::decimal(o.compressed.len());
    lemma_offer_words(o.mid, size, csize);
    lemma_words(o.mid, size, csize);
}

/// The words of a proposal line behind `FC`.
pub open spec fn offer_tail(mid: Seq<char>, size: Seq<char>, csize: Seq<char>) -> Seq<char> {
    seq![' '] + ("EM"@ + seq![' '] + (mid + seq![' '] + (size + seq![' '] + (csize + seq![' ']
        + "0"@))))
}

#[verifier::spinoff_prover]
proof fn lemma_offer_shape(mid: Seq<char>, size: Seq<char>, csize: Seq<char>)
    ensures
        ({
            let line = "FC EM "@ + mid + " "@ + size + " "@ + csize + " 0"@;
            &&& line[1] == 'C'
            &&& line.skip(2) == offer_tail(mid, size, csize)
        }),
{
    reveal_strlit("FC EM ");
    reveal_strlit(" ");
    reveal_strlit(" 0");
    reveal_strlit("EM");
    reveal_strlit("0");
    assert("FC EM "@ =~= seq!['F', 'C'] + (seq![' '] + "EM"@ + seq![' ']));
    assert(" "@ =~= seq![' ']);
    assert(" 0"@ =~= seq![' '] + "0"@);
    let line = "FC EM "@ + mid + " "@ + size + " "@ + csize + " 0"@;
    assert(line =~= seq!['F', 'C'] + offer_tail(mid, size, csize));
    assert((seq!['F', 'C'] + offer_tail(mid, size, csize)).skip(2) =~= offer_tail(
        mid,
        size,
        csize,
    ));
}

proof fn lemma_offer_words(mid: Seq<char>, size: Seq<char>, csize: Seq<char>)
    requires
        text::free_of(mid, Class::Space),
        text::free_of(size, Class::Space),
        text::free_of(csize, Class::Space),
    ensures
        ({
            let line = "FC EM "@ + mid + " "@ + size + " "@ + csize + " 0"@;
            &&& line[1] == 'C'
            &&& text::split(line.skip(2), Class::Space) == seq![
                Seq::<char>::empty(),
                "EM"@,
                mid,
                size,
                csize,
                "0"@,
            ]
        }),
{
    lemma_offer_shape(mid, size, csize);
    let k = Class::Space;
    let e = Seq::<char>::empty();
    let t4 = "0"@;
    let t3 = csize + seq![' '] + t4;
    let t2 = size + seq![' '] + t3;
    let t1 = mid + seq![' '] + t2;
    let t0 = "EM"@ + seq![' '] + t1;
    assert(text::free_of("EM"@, k)) by {
        reveal_strlit("EM");
    }
    assert(text::free_of(t4, k)) by {
        reveal_strlit("0");
    }
    text::lemma_free_of_first(t4, k);
    assert(text::split(t4, k) =~= seq![t4]);
    lemma_word_split(csize, t4, seq![t4]);
    lemma_word_split(size, t3, seq![csize] + seq![t4]);
    lemma_word_split(mid, t2, seq![size] + (seq![csize] + seq![t4]));
    lemma_word_split("EM"@, t1, seq![mid] + (seq![size] + (seq![csize] + seq![t4])));
    let words = seq!["EM"@] + (seq![mid] + (seq![size] + (seq![csize] + seq![t4])));
    lemma_word_split(e, t0, words);
    assert(e + seq![' '] + t0 =~= seq![' '] + t0);
    assert(seq![e] + words =~= seq![e, "EM"@, mid, size, csize, t4]);
}

/// A word in front of a line.
proof fn lemma_word_split(word: Seq<char>, line: Seq<char>, words: Seq<Seq<char>>)
    requires
        text::free_of(word, Class::Space),
        text::split(line, Class::Space) == words,
    ensures
        text::split(word + seq![' '] + line, Class::Space) == seq![word] + words,
{
    text::lemma_split_at(word, ' ', line, Class::Space);
}

proof fn lemma_words(a: Seq<char>, b: Seq<char>, c: Seq<char>)
    requires
        a.len() > 0,
        b.len() > 0,
        c.len() > 0,
    ensures
        text::non_empty(seq![Seq::<char>::empty(), "EM"@, a, b, c, "0"@]) == seq![
            "EM"@,
            a,
            b,
            c,
            "0"@,
        ],
{
    reveal_strlit("EM");
    reveal_strlit("0");
    let e = Seq::<char>::empty();
    let s6 = seq![e, "EM"@, a, b, c, "0"@];
    let s5 = seq![e, "EM"@, a, b, c];
    let s4 = seq![e, "EM"@, a, b];
    let s3 = seq![e, "EM"@, a];
    let s2 = seq![e, "EM"@];
    let s1 = seq![e];
    assert(s6.drop_last() =~= s5);
    assert(s5.drop_last() =~= s4);
    assert(s4.drop_last() =~= s3);
    assert(s3.drop_last() =~= s2);
    assert(s2.drop_last() =~= s1);
    assert(s1.drop_last() =~= Seq::<Seq<char>>::empty());
    assert(text::non_empty(Seq::<Seq<char>>::empty()) =~= Seq::<Seq<char>>::empty());
    assert(text::non_empty(s1) =~= Seq::<Seq<char>>::empty());
    assert(text::non_empty(s2) =~= seq!["EM"@]);
    assert(text::non_empty(s3) =~= seq!["EM"@, a]);
    assert(text::non_empty(s4) =~= seq!["EM"@, a, b]);
    assert(text::non_empty(s5) =~= seq!["EM"@, a, b, c]);
    assert(text::non_empty(s6) =~= seq!["EM"@, a, b, c, "0"@]);
}

} // verus!
