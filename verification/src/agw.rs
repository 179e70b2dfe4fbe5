//! AGWPE TCP protocol, as served by Direwolf (default port 8000).
//!
//! Every frame is a 36-byte header plus data. Direwolf runs the AX.25
//! connected-mode state machine (SABM, I-frames, retries); we only ask it to
//! connect, pass data, and disconnect.

use vstd::prelude::*;
use vstd::slice::slice_to_vec;
use vstd::utf8::*;

use crate::lzhuf;
use crate::session::lines;
use crate::text;
use crate::text::Class;
use crate::unicode;

pub mod laws;

verus! {

pub const HEADER_LEN: usize = 36;

/// No-layer-3 protocol identifier used for connected-mode data.
pub const PID_NO_L3: u8 = 0xF0;

/// The most data that a frame may claim.
pub const MAX_DATA: usize = 65536;

/// What a frame holds.
#[verifier::ext_equal]
pub struct FrameView {
    pub port: u8,
    pub kind: u8,
    pub pid: u8,
    pub call_from: Seq<char>,
    pub call_to: Seq<char>,
    pub data: Seq<u8>,
}

#[derive(Debug, PartialEq, Eq)]
pub struct Frame {
    pub port: u8,
    pub kind: u8,
    pub pid: u8,
    pub call_from: String,
    pub call_to: String,
    pub data: Vec<u8>,
}

impl View for Frame {
    type V = FrameView;

    open spec fn view(&self) -> FrameView {
        FrameView {
            port: self.port,
            kind: self.kind,
            pid: self.pid,
            call_from: self.call_from@,
            call_to: self.call_to@,
            data: self.data@,
        }
    }
}

impl Clone for Frame {
    fn clone(&self) -> (r: Frame)
        ensures
            r@ == self@,
    {
        Frame {
            port: self.port,
            kind: self.kind,
            pid: self.pid,
            call_from: self.call_from.clone(),
            call_to: self.call_to.clone(),
            data: slice_to_vec(&self.data),
        }
    }
}

/// What some frames hold.
pub open spec fn frame_views(v: Seq<Frame>) -> Seq<FrameView> {
    Seq::new(v.len(), |i: int| v[i]@)
}

/// A frame of that kind: connected-mode frames name the protocol.
pub open spec fn frame(
    kind: u8,
    port: u8,
    call_from: Seq<char>,
    call_to: Seq<char>,
    data: Seq<u8>,
) -> FrameView {
    FrameView {
        port,
        kind,
        pid: if kind == 0x44 || kind == 0x43 || kind == 0x76 {
            PID_NO_L3
        } else {
            0
        },
        call_from,
        call_to,
        data,
    }
}

pub open spec fn zeros(n: nat) -> Seq<u8> {
    Seq::new(n, |i: int| 0u8)
}

/// A call in a field of ten bytes: at most nine of its own, then zeros.
pub open spec fn call_field(call: Seq<char>) -> Seq<u8> {
    let b = encode_utf8(call);
    let n = if b.len() < 9 {
        b.len() as int
    } else {
        9
    };
    b.take(n) + zeros((10 - n) as nat)
}

/// A frame on the wire.
pub open spec fn encoded(f: FrameView) -> Seq<u8> {
    seq![f.port, 0u8, 0u8, 0u8, f.kind, 0u8, f.pid, 0u8] + call_field(f.call_from) + call_field(
        f.call_to,
    ) + lzhuf::le32(f.data.len() as int) + zeros(4) + f.data
}

/// The bytes before the first zero.
pub open spec fn before_zero(b: Seq<u8>) -> Seq<u8>
    decreases b.len(),
{
    if b.len() == 0 || b[0] == 0 {
        seq![]
    } else {
        seq![b[0]] + before_zero(b.drop_first())
    }
}

/// The call in a field.
pub open spec fn call_in(field: Seq<u8>) -> Seq<char> {
    text::trim(unicode::decoded_lossy(before_zero(field)))
}

/// The amount of data that a header claims.
pub open spec fn claimed(buf: Seq<u8>) -> nat {
    lzhuf::from_le32(buf.subrange(28, 32))
}

/// The frame that the bytes start with.
pub open spec fn first_frame(buf: Seq<u8>) -> FrameView {
    FrameView {
        port: buf[0],
        kind: buf[4],
        pid: buf[6],
        call_from: call_in(buf.subrange(8, 18)),
        call_to: call_in(buf.subrange(18, 28)),
        data: buf.subrange(36, 36 + claimed(buf) as int),
    }
}

/// The frames in a stream, and the bytes that are left. A header that claims
/// too much is an error.
pub open spec fn decoded(buf: Seq<u8>) -> (Result<Seq<FrameView>, Seq<char>>, Seq<u8>)
    decreases buf.len(),
{
    if buf.len() < HEADER_LEN {
        (Ok(seq![]), buf)
    } else if claimed(buf) > MAX_DATA {
        (
            Err(
                "AGW frame claims "@ + text::decimal(claimed(buf))
                    + " bytes of data; is this really an AGW port?"@,
            ),
            seq![],
        )
    } else if buf.len() < HEADER_LEN + claimed(buf) {
        (Ok(seq![]), buf)
    } else {
        let (more, rest) = decoded(buf.skip(HEADER_LEN + claimed(buf)));
        match more {
            Ok(v) => (Ok(seq![first_frame(buf)] + v), rest),
            Err(e) => (Err(e), rest),
        }
    }
}

fn push_call(out: &mut Vec<u8>, call: &str)
    ensures
        final(out)@ == old(out)@ + call_field(call@),
{
    let bytes = text::utf8_bytes(call);
    let n: usize = if bytes.len() < 9 {
        bytes.len()
    } else {
        9
    };
    out.extend_from_slice(&bytes[0..n]);
    assert(bytes@.subrange(0, n as int) =~= bytes@.take(n as int));
    push_zeros(out, 10 - n);
    assert(out@ =~= old(out)@ + call_field(call@));
}

fn push_zeros(out: &mut Vec<u8>, n: usize)
    ensures
        final(out)@ == old(out)@ + zeros(n as nat),
{
    assert(out@ + zeros(0) =~= out@);
    for i in 0..n
        invariant
            out@ == old(out)@ + zeros(i as nat),
    {
        out.push(0);
        assert(out@ =~= old(out)@ + zeros((i + 1) as nat));
    }
}

fn get_call(field: &[u8]) -> (r: String)
    ensures
        r@ == call_in(field@),
{
    let mut part: Vec<u8> = Vec::new();
    let mut i: usize = 0;
    assert(field@.skip(0) =~= field@);
    assert(part@ + before_zero(field@) =~= before_zero(field@));
    while i < field.len() && field[i] != 0
        invariant
            i <= field@.len(),
            before_zero(field@) == part@ + before_zero(field@.skip(i as int)),
        decreases field@.len() - i,
    {
        let ghost rest = field@.skip(i as int);
        let ghost so_far = part@;
        assert(rest.drop_first() =~= field@.skip(i + 1));
        part.push(field[i]);
        assert(so_far + (seq![rest[0]] + before_zero(field@.skip(i + 1))) =~= part@ + before_zero(
            field@.skip(i + 1),
        ));
        i += 1;
    }
    assert(part@ + seq![] =~= part@);
    let s = unicode::decode_lossy(&part);
    text::trim_str(&s)
}

impl Frame {
    pub fn new(kind: u8, port: u8, call_from: &str, call_to: &str, data: Vec<u8>) -> (r: Frame)
        ensures
            r@ == frame(kind, port, call_from@, call_to@, data@),
    {
        Frame {
            port,
            kind,
            pid: if kind == 0x44 || kind == 0x43 || kind == 0x76 {
                PID_NO_L3
            } else {
                0
            },
            call_from: call_from.to_owned(),
            call_to: call_to.to_owned(),
            data,
        }
    }

    /// The frame on the wire.
    pub fn encode(&self) -> (r: Vec<u8>)
        ensures
            r@ == encoded(self@),
    {
        let mut out: Vec<u8> = Vec::new();
        out.push(self.port);
        push_zeros(&mut out, 3);
        out.push(self.kind);
        out.push(0);
        out.push(self.pid);
        out.push(0);
        assert(out@ =~= seq![self.port, 0u8, 0u8, 0u8, self.kind, 0u8, self.pid, 0u8]);
        push_call(&mut out, &self.call_from);
        push_call(&mut out, &self.call_to);
        let len = lzhuf::le32_bytes(self.data.len());
        out.extend_from_slice(&len);
        push_zeros(&mut out, 4);
        out.extend_from_slice(&self.data);
        out
    }
}

/// Splits a TCP byte stream into frames.
#[derive(Debug)]
pub struct Decoder {
    buf: Vec<u8>,
}

impl View for Decoder {
    type V = Seq<u8>;

    closed spec fn view(&self) -> Seq<u8> {
        self.buf@
    }
}

impl Default for Decoder {
    fn default() -> (r: Decoder)
        ensures
            r@ == Seq::<u8>::empty(),
    {
        let r = Decoder { buf: Vec::new() };
        assert(r@ =~= Seq::empty());
        r
    }
}

impl Decoder {
    /// Takes in some bytes; gives the frames that are complete.
    pub fn push(&mut self, data: &[u8]) -> (r: Result<Vec<Frame>, String>)
        ensures
            decoded(old(self)@ + data@) == (
                match r {
                    Ok(v) => Ok::<_, Seq<char>>(frame_views(v@)),
                    Err(e) => Err::<Seq<FrameView>, _>(e@),
                },
                final(self)@,
            ),
    {
        self.buf.extend_from_slice(data);
        let mut frames: Vec<Frame> = Vec::new();
        assert(self.buf@ =~= old(self)@ + data@);
        let ghost whole = decoded(self.buf@);
        assert(forall|v: Seq<FrameView>| #[trigger] (frame_views(frames@) + v) =~= v);
        while self.buf.len() >= HEADER_LEN
            invariant_except_break
                whole == (
                    match decoded(self.buf@).0 {
                        Ok(v) => Ok(frame_views(frames@) + v),
                        Err(e) => Err(e),
                    },
                    decoded(self.buf@).1,
                ),
            invariant
                whole == decoded(old(self)@ + data@),
            ensures
                whole == (Ok::<_, Seq<char>>(frame_views(frames@)), self.buf@),
            decreases self.buf@.len(),
        {
            let len: usize = lzhuf::read_le32(
                self.buf[28],
                self.buf[29],
                self.buf[30],
                self.buf[31],
            );
            assert(self.buf@.subrange(28, 32) =~= seq![
                self.buf@[28],
                self.buf@[29],
                self.buf@[30],
                self.buf@[31],
            ]);
            if len > MAX_DATA {
                self.buf.clear();
                assert(self.buf@ =~= seq![]);
                return Err(
                    text::cat3(
                        "AGW frame claims ",
                        &text::size_text(len),
                        " bytes of data; is this really an AGW port?",
                    ),
                );
            }
            if self.buf.len() < HEADER_LEN + len {
                assert(frame_views(frames@) + seq![] =~= frame_views(frames@));
                break;
            }
            let frame = Frame {
                port: self.buf[0],
                kind: self.buf[4],
                pid: self.buf[6],
                call_from: get_call(&self.buf[8..18]),
                call_to: get_call(&self.buf[18..28]),
                data: slice_to_vec(&self.buf[HEADER_LEN..HEADER_LEN + len]),
            };
            let ghost f = frame@;
            let ghost before = frame_views(frames@);
            assert(f =~= first_frame(self.buf@));
            lines::drop_front(&mut self.buf, HEADER_LEN + len);
            frames.push(frame);
            assert(forall|v: Seq<FrameView>| #[trigger]
                (frame_views(frames@) + v) =~= before + (seq![f] + v));
        }
        assert(frame_views(frames@) + seq![] =~= frame_views(frames@));
        Ok(frames)
    }
}

/// Registers our callsign (lets Direwolf route incoming frames to us).
pub fn register(port: u8, call: &str) -> (r: Vec<u8>)
    ensures
        r@ == encoded(frame(0x58, port, call@, ""@, seq![])),
{
    let none: Vec<u8> = Vec::new();
    assert(none@ =~= seq![]);
    Frame::new(0x58, port, call, "", none).encode()
}

/// The digipeater list of a connect request: how many, then their calls.
pub open spec fn via_list(via: Seq<Seq<char>>) -> Seq<u8> {
    let n = if via.len() < 7 {
        via.len() as int
    } else {
        7
    };
    seq![n as u8] + call_fields(via.take(n))
}

pub open spec fn call_fields(calls: Seq<Seq<char>>) -> Seq<u8>
    decreases calls.len(),
{
    if calls.len() == 0 {
        seq![]
    } else {
        call_fields(calls.drop_last()) + call_field(calls.last())
    }
}

/// A connect request, through at most seven digipeaters.
pub open spec fn connect_frame(
    port: u8,
    mycall: Seq<char>,
    target: Seq<char>,
    via: Seq<Seq<char>>,
) -> FrameView {
    if via.len() == 0 {
        frame(0x43, port, mycall, target, seq![])
    } else {
        frame(0x76, port, mycall, target, via_list(via))
    }
}

/// Opens a connection, optionally through digipeaters.
pub fn connect(port: u8, mycall: &str, target: &str, via: &[String]) -> (r: Vec<u8>)
    ensures
        r@ == encoded(connect_frame(port, mycall@, target@, text::texts(via@))),
{
    let ghost all = text::texts(via@);
    assert(all.len() == via@.len());
    if via.len() == 0 {
        let none: Vec<u8> = Vec::new();
        assert(none@ =~= seq![]);
        return Frame::new(0x43, port, mycall, target, none).encode();
    }
    let n: usize = if via.len() < 7 {
        via.len()
    } else {
        7
    };
    let mut data: Vec<u8> = Vec::new();
    data.push(n as u8);
    let ghost some = all.take(n as int);
    assert(some.take(0) =~= seq![]);
    assert(data@ =~= seq![n as u8] + call_fields(seq![]));
    for i in 0..n
        invariant
            n <= via@.len(),
            all == text::texts(via@),
            some == all.take(n as int),
            data@ == seq![n as u8] + call_fields(some.take(i as int)),
    {
        assert(some.take(i + 1).drop_last() =~= some.take(i as int));
        assert(some.take(i + 1).last() == via@[i as int]@);
        push_call(&mut data, &via[i]);
        assert(data@ =~= seq![n as u8] + call_fields(some.take(i + 1)));
    }
    assert(some.take(n as int) =~= some);
    Frame::new(0x76, port, mycall, target, data).encode()
}

/// Data in frames of at most `n` bytes each.
pub open spec fn data_frames(
    port: u8,
    mycall: Seq<char>,
    target: Seq<char>,
    bytes: Seq<u8>,
    n: int,
) -> Seq<FrameView>
    decreases bytes.len(),
{
    if bytes.len() == 0 || n <= 0 {
        seq![]
    } else {
        let k = if bytes.len() < n {
            bytes.len() as int
        } else {
            n
        };
        seq![frame(0x44, port, mycall, target, bytes.take(k))] + data_frames(
            port,
            mycall,
            target,
            bytes.skip(k),
            n,
        )
    }
}

/// Some frames on the wire.
pub open spec fn encoded_all(frames: Seq<FrameView>) -> Seq<u8>
    decreases frames.len(),
{
    if frames.len() == 0 {
        seq![]
    } else {
        encoded(frames[0]) + encoded_all(frames.drop_first())
    }
}

/// The length of a data frame; at least one byte.
pub open spec fn at_least_one(paclen: usize) -> int {
    if paclen < 1 {
        1
    } else {
        paclen as int
    }
}

/// Connected-mode data, split so each frame fits in one I-frame.
pub fn data(port: u8, mycall: &str, target: &str, bytes: &[u8], paclen: usize) -> (r: Vec<u8>)
    ensures
        r@ == encoded_all(
            data_frames(port, mycall@, target@, bytes@, at_least_one(paclen)),
        ),
{
    let n: usize = if paclen < 1 {
        1
    } else {
        paclen
    };
    let mut out: Vec<u8> = Vec::new();
    let mut at: usize = 0;
    let ghost whole = encoded_all(data_frames(port, mycall@, target@, bytes@, n as int));
    assert(bytes@.skip(0) =~= bytes@);
    assert(out@ + whole =~= whole);
    while at < bytes.len()
        invariant
            at <= bytes@.len(),
            n >= 1,
            whole == out@ + encoded_all(
                data_frames(port, mycall@, target@, bytes@.skip(at as int), n as int),
            ),
        decreases bytes@.len() - at,
    {
        let k: usize = if bytes.len() - at < n {
            bytes.len() - at
        } else {
            n
        };
        let ghost rest = bytes@.skip(at as int);
        let ghost so_far = out@;
        let chunk = slice_to_vec(&bytes[at..at + k]);
        assert(chunk@ =~= rest.take(k as int));
        let one = Frame::new(0x44, port, mycall, target, chunk).encode();
        out.extend_from_slice(&one);
        assert(rest.skip(k as int) =~= bytes@.skip(at + k));
        let ghost f = frame(0x44, port, mycall@, target@, rest.take(k as int));
        let ghost more = data_frames(port, mycall@, target@, bytes@.skip(at + k), n as int);
        assert((seq![f] + more).drop_first() =~= more);
        assert(so_far + (one@ + encoded_all(more)) =~= out@ + encoded_all(more));
        at += k;
    }
    assert(bytes@.skip(at as int) =~= seq![]);
    assert(out@ + encoded_all(seq![]) =~= out@);
    out
}

pub fn disconnect(port: u8, mycall: &str, target: &str) -> (r: Vec<u8>)
    ensures
        r@ == encoded(frame(0x64, port, mycall@, target@, seq![])),
{
    let none: Vec<u8> = Vec::new();
    assert(none@ =~= seq![]);
    Frame::new(0x64, port, mycall, target, none).encode()
}

/// Asks how many frames are still waiting to be sent or acknowledged.
pub fn outstanding_query(port: u8, mycall: &str, target: &str) -> (r: Vec<u8>)
    ensures
        r@ == encoded(frame(0x59, port, mycall@, target@, seq![])),
{
    let none: Vec<u8> = Vec::new();
    assert(none@ =~= seq![]);
    Frame::new(0x59, port, mycall, target, none).encode()
}

// ---------------------------------------------------------------------
// Laws

/// A call that its field carries whole: at most nine bytes, no NUL, no white
/// space around it.
pub open spec fn is_call(call: Seq<char>) -> bool {
    &&& encode_utf8(call).len() <= 9
    &&& text::free_of(call, Class::One('\0'))
    &&& text::trim(call) == call
}

/// A frame that the wire carries whole.
pub open spec fn is_frame(f: FrameView) -> bool {
    is_call(f.call_from) && is_call(f.call_to) && f.data.len() <= MAX_DATA
}

proof fn lemma_before_zero(b: Seq<u8>, tail: Seq<u8>)
    requires
        forall|i: int| 0 <= i < b.len() ==> #[trigger] b[i] != 0,
        tail.len() == 0 || tail[0] == 0,
    ensures
        before_zero(b + tail) == b,
    decreases b.len(),
{
    if b.len() == 0 {
        assert(b + tail =~= tail);
        assert(b =~= seq![]);
    } else {
        let t = b.drop_first();
        assert(b[0] != 0);
        assert forall|i: int| 0 <= i < t.len() implies #[trigger] t[i] != 0 by {
            assert(b[i + 1] != 0);
        }
        lemma_before_zero(t, tail);
        assert((b + tail).drop_first() =~= t + tail);
        assert(seq![b[0]] + t =~= b);
    }
}

proof fn lemma_call(call: Seq<char>)
    requires
        is_call(call),
    ensures
        call_in(call_field(call)) == call,
{
    let b = encode_utf8(call);
    assert forall|i: int| 0 <= i < b.len() implies #[trigger] b[i] != 0 by {
        if b[i] == 0 {
            text::lemma_utf8_byte(call, i);
            let j = choose|j: int| 0 <= j < call.len() && #[trigger] call[j] == b[i] as char;
            assert(!text::is_in(Class::One('\0'), call[j]));
        }
    }
    assert(b.take(b.len() as int) =~= b);
    lemma_before_zero(b, zeros((10 - b.len()) as nat));
    encode_utf8_valid_utf8(call);
    encode_utf8_decode_utf8(call);
}

proof fn lemma_field_len(call: Seq<char>)
    ensures
        call_field(call).len() == 10,
{
}

/// A frame is read back from the wire, and what follows it is left alone.
pub proof fn law_frame_roundtrip(f: FrameView, rest: Seq<u8>)
    requires
        is_frame(f),
    ensures
        decoded(encoded(f) + rest) == (
            match decoded(rest).0 {
                Ok(v) => Ok::<_, Seq<char>>(seq![f] + v),
                Err(e) => Err(e),
            },
            decoded(rest).1,
        ),
{
    let buf = encoded(f) + rest;
    lemma_field_len(f.call_from);
    lemma_field_len(f.call_to);
    lemma_call(f.call_from);
    lemma_call(f.call_to);
    let head = seq![f.port, 0u8, 0u8, 0u8, f.kind, 0u8, f.pid, 0u8];
    let n = f.data.len() as int;
    assert(encoded(f).len() == 36 + n);
    assert(buf.subrange(8, 18) =~= call_field(f.call_from));
    assert(buf.subrange(18, 28) =~= call_field(f.call_to));
    assert(buf.subrange(28, 32) =~= lzhuf::le32(n));
    assert(lzhuf::from_le32(lzhuf::le32(n)) == n);
    assert(buf.subrange(36, 36 + n) =~= f.data);
    assert(buf.skip(36 + n) =~= rest);
    assert(buf[0] == f.port && buf[4] == f.kind && buf[6] == f.pid);
    assert(first_frame(buf) =~= f);
}

/// Frames are read back from the wire, in order.
pub proof fn law_frames_roundtrip(frames: Seq<FrameView>)
    requires
        forall|i: int| 0 <= i < frames.len() ==> is_frame(#[trigger] frames[i]),
    ensures
        decoded(encoded_all(frames)) == (Ok::<_, Seq<char>>(frames), Seq::<u8>::empty()),
    decreases frames.len(),
{
    if frames.len() == 0 {
        assert(frames =~= seq![]);
    } else {
        let more = frames.drop_first();
        assert(is_frame(frames[0]));
        assert forall|i: int| 0 <= i < more.len() implies is_frame(#[trigger] more[i]) by {
            assert(is_frame(frames[i + 1]));
        }
        law_frames_roundtrip(more);
        law_frame_roundtrip(frames[0], encoded_all(more));
        assert(seq![frames[0]] + more =~= frames);
    }
}

/// The data of some frames, one after another.
pub open spec fn data_of(frames: Seq<FrameView>) -> Seq<u8>
    decreases frames.len(),
{
    if frames.len() == 0 {
        seq![]
    } else {
        frames[0].data + data_of(frames.drop_first())
    }
}

/// The frames of some data carry all of it, in order, and none carries more
/// than `n` bytes.
pub proof fn law_data_frames(
    port: u8,
    mycall: Seq<char>,
    target: Seq<char>,
    bytes: Seq<u8>,
    n: int,
)
    requires
        n >= 1,
    ensures
        data_of(data_frames(port, mycall, target, bytes, n)) == bytes,
        forall|i: int|
            0 <= i < data_frames(port, mycall, target, bytes, n).len() ==> (
            #[trigger] data_frames(port, mycall, target, bytes, n)[i]).data.len() <= n,
    decreases bytes.len(),
{
    let all = data_frames(port, mycall, target, bytes, n);
    if bytes.len() == 0 {
        assert(bytes =~= seq![]);
    } else {
        let k = if bytes.len() < n {
            bytes.len() as int
        } else {
            n
        };
        law_data_frames(port, mycall, target, bytes.skip(k), n);
        let more = data_frames(port, mycall, target, bytes.skip(k), n);
        assert(all.drop_first() =~= more);
        assert(bytes.take(k) + bytes.skip(k) =~= bytes);
        assert forall|i: int| 0 <= i < all.len() implies (#[trigger] all[i]).data.len() <= n by {
            if i > 0 {
                assert(all[i] == more[i - 1]);
            }
        }
    }
}

/// It does not matter in which pieces a stream arrives.
pub proof fn law_stream_in_pieces(a: Seq<u8>, b: Seq<u8>)
    requires
        decoded(a).0 is Ok,
    ensures
        decoded(a + b) == (
            match decoded(decoded(a).1 + b).0 {
                Ok(v) => Ok::<_, Seq<char>>(decoded(a).0->Ok_0 + v),
                Err(e) => Err(e),
            },
            decoded(decoded(a).1 + b).1,
        ),
    decreases a.len(),
{
    let none = Seq::<FrameView>::empty();
    if a.len() >= HEADER_LEN && a.len() >= HEADER_LEN + claimed(a) {
        let n = HEADER_LEN + claimed(a) as int;
        let buf = a + b;
        assert(buf.subrange(28, 32) =~= a.subrange(28, 32));
        assert(buf.subrange(8, 18) =~= a.subrange(8, 18));
        assert(buf.subrange(18, 28) =~= a.subrange(18, 28));
        assert(buf.subrange(36, n) =~= a.subrange(36, n));
        assert(first_frame(buf) =~= first_frame(a));
        assert(buf.skip(n) =~= a.skip(n) + b);
        law_stream_in_pieces(a.skip(n), b);
        let v = decoded(a.skip(n)).0->Ok_0;
        if let Ok(w) = decoded(decoded(a).1 + b).0 {
            assert(seq![first_frame(a)] + (v + w) =~= seq![first_frame(a)] + v + w);
        }
    } else {
        if let Ok(v) = decoded(a + b).0 {
            assert(none + v =~= v);
        }
    }
}

} // verus!
