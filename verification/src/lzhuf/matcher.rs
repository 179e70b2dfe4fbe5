//! Finding back-references: hash chains over three-byte prefixes.

use vstd::prelude::*;

verus! {

/// Longest match.
pub const F: usize = 60;

/// A match this short is not worth a reference.
pub const THRESHOLD: usize = 2;

/// Farthest back-reference; stays inside the window that every decoder has.
pub const MAX_DISTANCE: usize = 1988;

/// How many earlier positions are tried.
pub const CHAIN_DEPTH: usize = 192;

/// Number of hash chains.
pub const CHAINS: usize = 32768;

/// The chain of three bytes.
pub open spec fn hash3(a: u8, b: u8, c: u8) -> u32 {
    (((a as u32) << 10) ^ ((b as u32) << 5) ^ (c as u32)) & 0x7fff
}

pub open spec fn hash_at(data: Seq<u8>, p: int) -> int {
    hash3(data[p], data[p + 1], data[p + 2]) as int
}

/// The last position before `upto` on chain `h`, or -1.
pub open spec fn latest(data: Seq<u8>, h: int, upto: int) -> int
    decreases upto,
{
    if upto <= 0 {
        -1
    } else if upto + 1 < data.len() && hash_at(data, upto - 1) == h {
        upto - 1
    } else {
        latest(data, h, upto - 1)
    }
}

/// How many bytes from `a` on equal those from `b` on, up to `max`.
pub open spec fn match_len(data: Seq<u8>, a: int, b: int, max: nat) -> nat
    decreases max,
{
    if max > 0 && data[a] == data[b] {
        1 + match_len(data, a + 1, b + 1, (max - 1) as nat)
    } else {
        0
    }
}

/// Longest match possible at `pos`.
pub open spec fn max_len(data: Seq<u8>, pos: int) -> nat {
    (if data.len() - pos < F {
        data.len() - pos
    } else {
        F as int
    }) as nat
}

/// The longest match (length, distance) for `pos` on its chain from `cand`
/// backwards, if it is longer than the best so far; the nearest one if there
/// are several. The search ends at the depth and distance limits, or when no
/// longer match is possible.
pub open spec fn best(data: Seq<u8>, pos: int, cand: int, depth: nat, len: nat, dist: nat) -> (
    nat,
    nat,
)
    decreases cand + 1,
{
    if cand < 0 || depth >= CHAIN_DEPTH || pos - cand > MAX_DISTANCE {
        (len, dist)
    } else {
        proof {
            lemma_latest(data, hash_at(data, pos), cand);
        }
        let max = max_len(data, pos);
        let n = match_len(data, cand, pos, max);
        let next = latest(data, hash_at(data, pos), cand);
        if n > len && n == max {
            (n, (pos - cand) as nat)
        } else if n > len {
            best(data, pos, next, depth + 1, n, (pos - cand) as nat)
        } else {
            best(data, pos, next, depth + 1, len, dist)
        }
    }
}

/// The match that is found for `pos`; length 0 if there is none.
pub open spec fn found(data: Seq<u8>, pos: int) -> (nat, nat) {
    if max_len(data, pos) <= THRESHOLD {
        (0, 0)
    } else {
        best(data, pos, latest(data, hash_at(data, pos), pos), 0, 0, 0)
    }
}

/// Is this a match for `pos`?
pub open spec fn is_match(data: Seq<u8>, pos: int, len: nat, dist: nat) -> bool {
    len > 0 ==> {
        &&& 1 <= dist <= MAX_DISTANCE
        &&& dist <= pos
        &&& len <= max_len(data, pos)
        &&& forall|i: int| 0 <= i < len ==> #[trigger] data[pos + i] == data[pos + i - dist]
    }
}

pub proof fn lemma_latest(data: Seq<u8>, h: int, upto: int)
    ensures
        -1 <= latest(data, h, upto),
        latest(data, h, upto) < upto || latest(data, h, upto) == -1,
        latest(data, h, upto) >= 0 ==> latest(data, h, upto) + 2 < data.len() && hash_at(
            data,
            latest(data, h, upto),
        ) == h,
    decreases upto,
{
    if upto > 0 {
        lemma_latest(data, h, upto - 1);
    }
}

proof fn lemma_match_len(data: Seq<u8>, a: int, b: int, max: nat)
    ensures
        match_len(data, a, b, max) <= max,
        forall|i: int| 0 <= i < match_len(data, a, b, max) ==> #[trigger] data[b + i] == data[a + i],
    decreases max,
{
    if max > 0 && data[a] == data[b] {
        lemma_match_len(data, a + 1, b + 1, (max - 1) as nat);
        assert forall|i: int| 0 <= i < match_len(data, a, b, max) implies #[trigger] data[b + i]
            == data[a + i] by {
            if i > 0 {
                assert(data[b + 1 + (i - 1)] == data[a + 1 + (i - 1)]);
            }
        }
    }
}

proof fn lemma_best(data: Seq<u8>, pos: int, cand: int, depth: nat, len: nat, dist: nat)
    requires
        cand < pos < data.len(),
        is_match(data, pos, len, dist),
    ensures
        ({
            let r = best(data, pos, cand, depth, len, dist);
            is_match(data, pos, r.0, r.1)
        }),
    decreases cand + 1,
{
    if cand < 0 || depth >= CHAIN_DEPTH || pos - cand > MAX_DISTANCE {
    } else {
        let max = max_len(data, pos);
        let n = match_len(data, cand, pos, max);
        let next = latest(data, hash_at(data, pos), cand);
        let d = (pos - cand) as nat;
        lemma_match_len(data, cand, pos, max);
        lemma_latest(data, hash_at(data, pos), cand);
        assert(is_match(data, pos, n, d)) by {
            assert forall|i: int| 0 <= i < n implies #[trigger] data[pos + i] == data[pos + i - d] by {
                assert(data[pos + i] == data[cand + i]);
            }
        }
        if n > len {
            lemma_best(data, pos, next, depth + 1, n, d);
        } else {
            lemma_best(data, pos, next, depth + 1, len, dist);
        }
    }
}

/// What is found is a match.
pub proof fn lemma_found(data: Seq<u8>, pos: int)
    requires
        0 <= pos < data.len(),
    ensures
        is_match(data, pos, found(data, pos).0, found(data, pos).1),
{
    if max_len(data, pos) > THRESHOLD {
        lemma_latest(data, hash_at(data, pos), pos);
        lemma_best(data, pos, latest(data, hash_at(data, pos), pos), 0, 0, 0);
    }
}

/// Hash chains over 3-byte prefixes. Positions are kept one higher, so that
/// zero ends a chain.
pub struct Matcher<'a> {
    data: &'a [u8],
    head: Vec<usize>,
    prev: Vec<usize>,
    inserted: usize,
}

impl<'a> Matcher<'a> {
    pub closed spec fn data(&self) -> Seq<u8> {
        self.data@
    }

    /// How many positions are on the chains.
    pub closed spec fn upto(&self) -> int {
        self.inserted as int
    }

    pub closed spec fn inv(&self) -> bool {
        &&& self.head@.len() == CHAINS
        &&& self.prev@.len() == self.data@.len()
        &&& self.inserted <= self.data@.len()
        &&& forall|h: int|
            0 <= h < CHAINS ==> #[trigger] self.head@[h] == latest(
                self.data@,
                h,
                self.inserted as int,
            ) + 1
        &&& forall|p: int|
            0 <= p < self.inserted && p + 2 < self.data@.len() ==> #[trigger] self.prev@[p]
                == latest(self.data@, hash_at(self.data@, p), p) + 1
    }

    pub fn new(data: &'a [u8]) -> (r: Matcher<'a>)
        ensures
            r.inv(),
            r.data() == data@,
            r.upto() == 0,
    {
        let mut head: Vec<usize> = Vec::new();
        head.resize(CHAINS, 0);
        let mut prev: Vec<usize> = Vec::new();
        prev.resize(data.len(), 0);
        Matcher { data, head, prev, inserted: 0 }
    }

    fn hash(&self, pos: usize) -> (r: usize)
        requires
            pos + 2 < self.data@.len(),
        ensures
            r == hash_at(self.data@, pos as int),
            r < CHAINS,
    {
        let a: u8 = self.data[pos];
        let b: u8 = self.data[pos + 1];
        let c: u8 = self.data[pos + 2];
        let h: u32 = (((a as u32) << 10) ^ ((b as u32) << 5) ^ (c as u32)) & 0x7fff;
        assert((((a as u32) << 10) ^ ((b as u32) << 5) ^ (c as u32)) & 0x7fff < 32768) by (bit_vector);
        h as usize
    }

    /// Adds every position before `upto` to the chains.
    fn insert_until(&mut self, upto: usize)
        requires
            old(self).inv(),
            old(self).upto() <= upto <= old(self).data().len(),
        ensures
            final(self).inv(),
            final(self).data() == old(self).data(),
            final(self).upto() == upto,
    {
        while self.inserted < upto
            invariant
                self.inv(),
                self.inserted <= upto <= self.data@.len(),
                self.data@ == old(self).data@,
            decreases upto - self.inserted,
        {
            let pos: usize = self.inserted;
            if self.data.len() >= 3 && pos < self.data.len() - 2 {
                let h = self.hash(pos);
                let earlier: usize = self.head[h];
                self.prev.set(pos, earlier);
                self.head.set(h, pos + 1);
            }
            self.inserted = pos + 1;
        }
    }

    /// Longest match for `pos` as (length, distance), among the nearest earlier
    /// places on its hash chain, as many as the search goes back.
    pub fn find(&mut self, pos: usize) -> (r: (usize, usize))
        requires
            old(self).inv(),
            old(self).upto() <= pos < old(self).data().len(),
        ensures
            final(self).inv(),
            final(self).data() == old(self).data(),
            final(self).upto() == pos,
            (r.0 as nat, r.1 as nat) == found(old(self).data(), pos as int),
            is_match(old(self).data(), pos as int, r.0 as nat, r.1 as nat),
    {
        self.insert_until(pos);
        proof {
            lemma_found(self.data@, pos as int);
        }
        let left: usize = self.data.len() - pos;
        let max: usize = if left < F {
            left
        } else {
            F
        };
        if max <= THRESHOLD {
            return (0, 0);
        }
        let h = self.hash(pos);
        let mut len: usize = 0;
        let mut dist: usize = 0;
        let mut next: usize = self.head[h];
        let mut depth: usize = 0;
        proof {
            lemma_latest(self.data@, h as int, pos as int);
        }
        while next > 0 && depth < CHAIN_DEPTH
            invariant_except_break
                self.inv(),
                self.data@ == old(self).data@,
                self.inserted == pos,
                pos < self.data@.len(),
                max == max_len(self.data@, pos as int),
                h == hash_at(self.data@, pos as int),
                next <= pos,
                next > 0 ==> next + 1 < self.data@.len() && hash_at(self.data@, next - 1) == h,
                depth <= CHAIN_DEPTH,
                found(self.data@, pos as int) == best(
                    self.data@,
                    pos as int,
                    next - 1,
                    depth as nat,
                    len as nat,
                    dist as nat,
                ),
            ensures
                self.inv(),
                self.data@ == old(self).data@,
                self.inserted == pos,
                found(self.data@, pos as int) == (len as nat, dist as nat),
            decreases next,
        {
            let cand: usize = next - 1;
            if pos - cand > MAX_DISTANCE {
                break ;
            }
            let total: usize = self.data.len();
            let mut n: usize = 0;
            while n < max && self.data[cand + n] == self.data[pos + n]
                invariant
                    n <= max,
                    cand < pos,
                    pos + max <= self.data@.len(),
                    total == self.data@.len(),
                    match_len(self.data@, cand as int, pos as int, max as nat) == n + match_len(
                        self.data@,
                        cand + n,
                        pos + n,
                        (max - n) as nat,
                    ),
                decreases max - n,
            {
                n += 1;
            }
            proof {
                lemma_latest(self.data@, h as int, cand as int);
            }
            if n > len {
                len = n;
                dist = pos - cand;
                if n == max {
                    break ;
                }
            }
            next = self.prev[cand];
            depth += 1;
        }
        (len, dist)
    }
}

} // verus!
