//! Laws of the stream and its container: what the symbols stand for, and
//! where the checksum and the length are.

use vstd::prelude::*;

use crate::lzhuf;
use crate::lzhuf::bits::Source;
use crate::lzhuf::crc;
use crate::lzhuf::matcher;
use crate::lzhuf::position;
use crate::lzhuf::tree;
use crate::lzhuf::tree::Shape;

verus! {

/// Before the first byte a reader has 2048 bytes: 60 zeros, then spaces.
pub proof fn law_window()
    ensures
        lzhuf::window().len() == 2048,
        forall|i: int| 0 <= i < 60 ==> #[trigger] lzhuf::window()[i] == 0,
        forall|i: int| 60 <= i < 2048 ==> #[trigger] lzhuf::window()[i] == 32,
{
}

/// A copy repeats: each new byte is the one that stands `dist` before it, and
/// what was there stays.
pub proof fn law_copy(h: Seq<u8>, dist: nat, n: nat)
    requires
        1 <= dist <= h.len(),
    ensures
        lzhuf::copied(h, dist, n).len() == h.len() + n,
        forall|i: int| 0 <= i < h.len() ==> #[trigger] lzhuf::copied(h, dist, n)[i] == h[i],
        forall|i: int|
            h.len() <= i < h.len() + n ==> #[trigger] lzhuf::copied(h, dist, n)[i]
                == lzhuf::copied(h, dist, n)[i - dist],
    decreases n,
{
    lzhuf::lemma_copied_len(h, dist, n);
    if n > 0 {
        let g = h.push(h[h.len() - dist]);
        let c = lzhuf::copied(h, dist, n);
        law_copy(g, dist, (n - 1) as nat);
        assert forall|i: int| 0 <= i < h.len() implies #[trigger] c[i] == h[i] by {
            assert(c[i] == g[i]);
        }
        assert forall|i: int| h.len() <= i < h.len() + n implies #[trigger] c[i] == c[i - dist] by {
            if i == h.len() {
                assert(c[i] == g[i]);
                assert(c[i - dist] == g[i - dist]);
            }
        }
    }
}

/// A symbol below 256 is that byte; any other stands for a copy of as many
/// bytes as it is above 253, from as far back as the position that follows
/// it, plus one.
pub proof fn law_symbols_are_followed(t: Shape, s: Source, h: Seq<u8>, goal: nat)
    requires
        h.len() < goal,
    ensures
        ({
            let (symbol, s1) = tree::walk(t.son, 626, s);
            let (p, s2) = position::read_position(s1);
            let next = tree::updated(t, symbol);
            let dist = (p % 2048 + 1) as nat;
            let len = (symbol - 253) as nat;
            &&& symbol < 256 && !s1.overrun ==> lzhuf::unpacked(t, s, h, goal) == lzhuf::unpacked(
                next,
                s1,
                h + seq![symbol as u8],
                goal,
            )
            &&& symbol >= 256 && !s2.overrun && h.len() + len <= goal ==> lzhuf::unpacked(
                t,
                s,
                h,
                goal,
            ) == lzhuf::unpacked(next, s2, lzhuf::copied(h, dist, len), goal)
            &&& symbol >= 256 && h.len() + len > goal ==> lzhuf::unpacked(t, s, h, goal) is Err
            &&& symbol < 256 && s1.overrun ==> lzhuf::unpacked(t, s, h, goal) is Err
            &&& symbol >= 256 && s2.overrun ==> lzhuf::unpacked(t, s, h, goal) is Err
        }),
{
    let (symbol, s1) = tree::walk(t.son, 626, s);
    assert(h.push(symbol as u8) =~= h + seq![symbol as u8]);
    if symbol >= 256 {
        let (p, s2) = position::read_position(s1);
        lzhuf::lemma_copied_len(h, (p % 2048 + 1) as nat, (symbol - 253) as nat);
    }
}

/// What stands for the data from a place on: the byte there, or three to
/// sixty bytes that stand in the data before, not further back than the
/// window reaches. The code is then updated with the symbol.
pub open spec fn stands_for(
    t: Shape,
    data: Seq<u8>,
    pos: int,
    symbol: int,
    len: int,
    dist: int,
) -> bool {
    if symbol < 256 {
        &&& len == 1
        &&& symbol == data[pos]
        &&& lzhuf::stream_bits(t, data, pos) == tree::symbol_bits(t, symbol) + lzhuf::stream_bits(
            tree::updated(t, symbol),
            data,
            pos + 1,
        )
    } else {
        &&& 3 <= len <= 60
        &&& symbol == 253 + len
        &&& pos + len <= data.len()
        &&& 1 <= dist <= 1988
        &&& dist <= pos
        &&& forall|i: int| 0 <= i < len ==> #[trigger] data[pos + i] == data[pos + i - dist]
        &&& lzhuf::stream_bits(t, data, pos) == tree::symbol_bits(t, symbol)
            + position::position_bits((dist - 1) as nat) + lzhuf::stream_bits(
            tree::updated(t, symbol),
            data,
            pos + len,
        )
    }
}

/// Each symbol of a stream stands for the data that it is written for.
pub proof fn law_stream_says_the_data(t: Shape, data: Seq<u8>, pos: int)
    requires
        0 <= pos < data.len(),
    ensures
        exists|symbol: int, len: int, dist: int|
            0 <= symbol < 314 && #[trigger] stands_for(t, data, pos, symbol, len, dist),
{
    matcher::lemma_found(data, pos);
    match lzhuf::next_token(data, pos) {
        lzhuf::Token::Literal(b) => {
            assert(stands_for(t, data, pos, b as int, 1, 0));
        },
        lzhuf::Token::Match { len, dist } => {
            assert(stands_for(t, data, pos, 253int + len, len as int, dist as int));
        },
    }
}

/// Position `k` of those before `cand` that start with three bytes of the
/// same hash as those at `pos`, the nearest first; `cand` itself is the first.
pub open spec fn earlier(data: Seq<u8>, pos: int, cand: int, k: nat) -> int
    decreases k,
{
    if k == 0 {
        cand
    } else {
        earlier(
            data,
            pos,
            matcher::latest(data, matcher::hash_at(data, pos), cand),
            (k - 1) as nat,
        )
    }
}

/// The match that is found is as long as any with the 192 nearest places to
/// try that are in reach.
pub proof fn law_longest_match(data: Seq<u8>, pos: int, k: nat)
    requires
        0 <= pos,
        pos + 3 <= data.len(),
        k < 192,
    ensures
        ({
            let cand = matcher::latest(data, matcher::hash_at(data, pos), pos);
            (forall|j: nat|
                j <= k ==> {
                    let p = #[trigger] earlier(data, pos, cand, j);
                    0 <= p && pos - p <= 1988
                }) ==> matcher::found(data, pos).0 >= matcher::match_len(
                data,
                earlier(data, pos, cand, k),
                pos,
                matcher::max_len(data, pos),
            )
        }),
{
    let cand = matcher::latest(data, matcher::hash_at(data, pos), pos);
    if forall|j: nat|
        j <= k ==> {
            let p = #[trigger] earlier(data, pos, cand, j);
            0 <= p && pos - p <= 1988
        } {
        lemma_best(data, pos, cand, 0, 0, 0, k);
    }
}

proof fn lemma_match_len(data: Seq<u8>, a: int, b: int, max: nat)
    ensures
        matcher::match_len(data, a, b, max) <= max,
    decreases max,
{
    if max > 0 {
        lemma_match_len(data, a + 1, b + 1, (max - 1) as nat);
    }
}

proof fn lemma_best_keeps(data: Seq<u8>, pos: int, cand: int, depth: nat, len: nat, dist: nat)
    ensures
        matcher::best(data, pos, cand, depth, len, dist).0 >= len,
    decreases cand + 1,
{
    if !(cand < 0 || depth >= 192 || pos - cand > 1988) {
        let h = matcher::hash_at(data, pos);
        matcher::lemma_latest(data, h, cand);
        let next = matcher::latest(data, h, cand);
        let n = matcher::match_len(data, cand, pos, matcher::max_len(data, pos));
        lemma_best_keeps(data, pos, next, depth + 1, n, (pos - cand) as nat);
        lemma_best_keeps(data, pos, next, depth + 1, len, dist);
    }
}

proof fn lemma_best(
    data: Seq<u8>,
    pos: int,
    cand: int,
    depth: nat,
    len: nat,
    dist: nat,
    k: nat,
)
    requires
        depth + k < 192,
        forall|j: nat|
            j <= k ==> {
                let p = #[trigger] earlier(data, pos, cand, j);
                0 <= p && pos - p <= 1988
            },
    ensures
        matcher::best(data, pos, cand, depth, len, dist).0 >= matcher::match_len(
            data,
            earlier(data, pos, cand, k),
            pos,
            matcher::max_len(data, pos),
        ),
    decreases k,
{
    assert(earlier(data, pos, cand, 0) == cand);
    let h = matcher::hash_at(data, pos);
    let max = matcher::max_len(data, pos);
    let n = matcher::match_len(data, cand, pos, max);
    let next = matcher::latest(data, h, cand);
    lemma_match_len(data, earlier(data, pos, cand, k), pos, max);
    if k == 0 {
        lemma_best_keeps(data, pos, next, depth + 1, n, (pos - cand) as nat);
        lemma_best_keeps(data, pos, next, depth + 1, len, dist);
    } else {
        assert forall|j: nat| j <= k - 1 implies {
            let p = #[trigger] earlier(data, pos, next, j);
            0 <= p && pos - p <= 1988
        } by {
            assert(earlier(data, pos, cand, (j + 1) as nat) == earlier(data, pos, next, j));
        }
        lemma_best(data, pos, next, depth + 1, n, (pos - cand) as nat, (k - 1) as nat);
        lemma_best(data, pos, next, depth + 1, len, dist, (k - 1) as nat);
    }
}

/// A match of three bytes or more is used, unless one that starts a byte later
/// is longer still; a match of sixty bytes is used in any event.
pub proof fn law_matches_are_used(data: Seq<u8>, pos: int)
    requires
        0 <= pos < data.len(),
    ensures
        ({
            let (len, dist) = matcher::found(data, pos);
            let later = pos + 1 < data.len() && matcher::found(data, pos + 1).0 > len;
            &&& len >= 3 && (len == 60 || !later) ==> lzhuf::next_token(data, pos)
                == lzhuf::Token::Match { len, dist }
            &&& len < 3 || (len < 60 && later) ==> lzhuf::next_token(data, pos)
                == lzhuf::Token::Literal(data[pos])
        }),
{
}

/// A container is the CRC of all that follows it, low byte first; the length
/// of the data, lowest byte first; and the stream.
pub proof fn law_container_layout(data: Seq<u8>)
    requires
        data.len() <= 67108864,
    ensures
        ({
            let c = lzhuf::container(data);
            &&& c.len() >= 6
            &&& c[0] + 256 * c[1] == crc::crc(c.skip(2))
            &&& c[2] + 256 * c[3] + 65536 * c[4] + 16777216 * c[5] == data.len()
            &&& c.skip(6) == lzhuf::compressed(data)
        }),
{
    let c = lzhuf::container(data);
    assert(c.skip(2) =~= lzhuf::container_body(data));
    assert(c.skip(6) =~= lzhuf::compressed(data));
    let n = data.len() as int;
    assert(n % 256 + 256 * (n / 256 % 256) + 65536 * (n / 65536 % 256) + 16777216 * (n / 16777216
        % 256) == n);
}

/// A container whose CRC is not that of the rest is refused, and so is one
/// that is too short or claims more than 64 MiB.
pub proof fn law_bad_containers_are_refused(c: Seq<u8>)
    ensures
        c.len() < 6 ==> lzhuf::opened(c) is Err,
        c.len() >= 6 && c[0] + 256 * c[1] != crc::crc(c.skip(2)) ==> lzhuf::opened(c) is Err,
        c.len() >= 6 && c[2] + 256 * c[3] + 65536 * c[4] + 16777216 * c[5] > 67108864
            ==> lzhuf::opened(c) is Err,
{
}

} // verus!
