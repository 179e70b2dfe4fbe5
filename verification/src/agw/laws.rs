//! Laws of the frames as an AGW server reads and writes them.

use vstd::prelude::*;
use vstd::utf8::*;

use crate::agw;
use crate::agw::FrameView;

verus! {

/// Does the field hold the first nine bytes of a call, and zeros behind them?
pub open spec fn holds_call(field: Seq<u8>, call: Seq<char>) -> bool {
    &&& field.len() == 10
    &&& forall|j: int|
        0 <= j < 10 ==> #[trigger] field[j] == (if j < 9 && j < encode_utf8(call).len() {
            encode_utf8(call)[j]
        } else {
            0u8
        })
}

/// Where everything stands in a frame: the port comes first, the kind at 4,
/// the protocol at 6, the sender's call at 8, the other call at 18, the
/// length of the data at 28, least significant byte first, and the data at
/// 36.
pub proof fn law_frame_layout(f: FrameView)
    requires
        f.data.len() < 0x1_0000_0000,
    ensures
        ({
            let b = agw::encoded(f);
            &&& b.len() == 36 + f.data.len()
            &&& b[0] == f.port
            &&& b[4] == f.kind
            &&& b[6] == f.pid
            &&& b[1] == 0 && b[2] == 0 && b[3] == 0 && b[5] == 0 && b[7] == 0
            &&& holds_call(b.subrange(8, 18), f.call_from)
            &&& holds_call(b.subrange(18, 28), f.call_to)
            &&& b[28] + 0x100 * b[29] + 0x1_0000 * b[30] + 0x100_0000 * b[31] == f.data.len()
            &&& b[32] == 0 && b[33] == 0 && b[34] == 0 && b[35] == 0
            &&& b.skip(36) == f.data
        }),
{
    let b = agw::encoded(f);
    let n = f.data.len() as int;
    let (x, y, z, w) = (n % 256, n / 256 % 256, n / 65536 % 256, n / 16777216 % 256);
    assert(n == x + 256 * y + 65536 * z + 16777216 * w);
    lemma_call_field(f.call_from);
    lemma_call_field(f.call_to);
    assert(b.subrange(8, 18) =~= agw::call_field(f.call_from));
    assert(b.subrange(18, 28) =~= agw::call_field(f.call_to));
    assert(b.skip(36) =~= f.data);
    assert(b[28] == x && b[29] == y && b[30] == z && b[31] == w);
}

proof fn lemma_call_field(call: Seq<char>)
    ensures
        holds_call(agw::call_field(call), call),
{
}

/// They are read from the same places.
pub proof fn law_frame_read(b: Seq<u8>)
    requires
        b.len() >= 36,
        agw::claimed(b) + 36 <= b.len(),
    ensures
        ({
            let f = agw::first_frame(b);
            &&& f.port == b[0] && f.kind == b[4] && f.pid == b[6]
            &&& f.data.len() == b[28] + 0x100 * b[29] + 0x1_0000 * b[30] + 0x100_0000 * b[31]
            &&& forall|i: int| 0 <= i < f.data.len() ==> #[trigger] f.data[i] == b[36 + i]
        }),
{
    assert(b.subrange(28, 32)[0] == b[28] && b.subrange(28, 32)[1] == b[29] && b.subrange(28, 32)[2]
        == b[30] && b.subrange(28, 32)[3] == b[31]);
}

/// A connection is asked for directly if no digipeater is named, and else
/// through the first seven of those that are, in order.
pub proof fn law_connect_request(port: u8, mycall: Seq<char>, target: Seq<char>, via: Seq<Seq<char>>)
    ensures
        ({
            let f = agw::connect_frame(port, mycall, target, via);
            &&& f.port == port
            &&& f.call_from == mycall
            &&& f.call_to == target
            &&& f.pid == 0xF0
            &&& via.len() == 0 ==> f.kind == 'C' as u8 && f.data.len() == 0
            &&& via.len() > 0 ==> {
                let n = if via.len() <= 7 {
                    via.len() as int
                } else {
                    7
                };
                &&& f.kind == 'v' as u8
                &&& f.data.len() == 1 + 10 * n
                &&& f.data[0] == n
                &&& forall|i: int|
                    0 <= i < n ==> holds_call(
                        f.data.subrange(1 + 10 * i, 11 + 10 * i),
                        #[trigger] via[i],
                    )
            }
        }),
{
    if via.len() > 0 {
        let n = if via.len() <= 7 {
            via.len() as int
        } else {
            7
        };
        let calls = via.take(n);
        let data = agw::via_list(via);
        lemma_call_fields(calls);
        assert forall|i: int| 0 <= i < n implies holds_call(
            data.subrange(1 + 10 * i, 11 + 10 * i),
            #[trigger] via[i],
        ) by {
            assert(calls[i] == via[i]);
            assert(data.subrange(1 + 10 * i, 11 + 10 * i) =~= agw::call_fields(calls).subrange(
                10 * i,
                10 * i + 10,
            ));
        }
    }
}

proof fn lemma_call_fields(calls: Seq<Seq<char>>)
    ensures
        agw::call_fields(calls).len() == 10 * calls.len(),
        forall|i: int|
            0 <= i < calls.len() ==> holds_call(
                agw::call_fields(calls).subrange(10 * i, 10 * i + 10),
                #[trigger] calls[i],
            ),
    decreases calls.len(),
{
    if calls.len() > 0 {
        let less = calls.drop_last();
        let (a, b) = (agw::call_fields(less), agw::call_fields(calls));
        lemma_call_fields(less);
        lemma_call_field(calls.last());
        assert forall|i: int| 0 <= i < calls.len() implies holds_call(
            b.subrange(10 * i, 10 * i + 10),
            #[trigger] calls[i],
        ) by {
            if i < less.len() {
                assert(less[i] == calls[i]);
                assert(b.subrange(10 * i, 10 * i + 10) =~= a.subrange(10 * i, 10 * i + 10));
            } else {
                assert(b.subrange(10 * i, 10 * i + 10) =~= agw::call_field(calls.last()));
            }
        }
    }
}

/// Data goes out in frames of the kind `D`, from our call to the other.
pub proof fn law_data_is_addressed(
    port: u8,
    mycall: Seq<char>,
    target: Seq<char>,
    bytes: Seq<u8>,
    n: int,
)
    ensures
        forall|i: int|
            0 <= i < agw::data_frames(port, mycall, target, bytes, n).len() ==> {
                let f = #[trigger] agw::data_frames(port, mycall, target, bytes, n)[i];
                f.kind == 'D' as u8 && f.port == port && f.call_from == mycall && f.call_to == target
                    && f.pid == 0xF0
            },
    decreases bytes.len(),
{
    if bytes.len() > 0 && n > 0 {
        let k = if bytes.len() < n {
            bytes.len() as int
        } else {
            n
        };
        law_data_is_addressed(port, mycall, target, bytes.skip(k), n);
        let all = agw::data_frames(port, mycall, target, bytes, n);
        let more = agw::data_frames(port, mycall, target, bytes.skip(k), n);
        assert forall|i: int| 0 <= i < all.len() implies {
            let f = #[trigger] all[i];
            f.kind == 'D' as u8 && f.port == port && f.call_from == mycall && f.call_to == target
                && f.pid == 0xF0
        } by {
            if i > 0 {
                assert(all[i] == more[i - 1]);
            }
        }
    }
}

} // verus!
