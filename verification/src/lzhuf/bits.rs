//! Bit streams, most significant bit first.

use vstd::prelude::*;

verus! {

/// The low `n` bits of `v`, most significant first.
pub open spec fn bits_of(n: nat, v: nat) -> Seq<bool>
    decreases n,
{
    if n == 0 {
        seq![]
    } else {
        bits_of((n - 1) as nat, v / 2).push(v % 2 == 1)
    }
}

/// The number that some bits spell.
pub open spec fn value_of(bits: Seq<bool>) -> nat
    decreases bits.len(),
{
    if bits.len() == 0 {
        0
    } else {
        2 * value_of(bits.drop_last()) + if bits.last() {
            1nat
        } else {
            0nat
        }
    }
}

/// The bits of a byte string.
pub open spec fn bits_in(bytes: Seq<u8>) -> Seq<bool>
    decreases bytes.len(),
{
    if bytes.len() == 0 {
        seq![]
    } else {
        bits_in(bytes.drop_last()) + bits_of(8, bytes.last() as nat)
    }
}

/// `n` zero bits.
pub open spec fn zeros(n: nat) -> Seq<bool> {
    Seq::new(n, |i: int| false)
}

/// `bits` filled up with zeros to whole bytes.
pub open spec fn padded(bits: Seq<bool>) -> Seq<bool> {
    bits + zeros(((8 - bits.len() % 8) % 8) as nat)
}

/// The bytes that hold `bits`, the last one filled up with zeros.
pub open spec fn packed(bits: Seq<bool>) -> Seq<u8> {
    choose|bytes: Seq<u8>| bits_in(bytes) == padded(bits)
}

/// A byte string is determined by its bits.
pub proof fn lemma_bits_in_injective(a: Seq<u8>, b: Seq<u8>)
    requires
        bits_in(a) == bits_in(b),
    ensures
        a == b,
    decreases a.len(),
{
    lemma_bits_in_len(a);
    lemma_bits_in_len(b);
    if a.len() > 0 {
        let x = bits_of(8, a.last() as nat);
        let y = bits_of(8, b.last() as nat);
        lemma_bits_of_len(8, a.last() as nat);
        lemma_bits_of_len(8, b.last() as nat);
        lemma_bits_in_len(a.drop_last());
        lemma_bits_in_len(b.drop_last());
        let n = bits_in(a.drop_last()).len() as int;
        assert(bits_in(a).take(n) =~= bits_in(a.drop_last()));
        assert(bits_in(b).take(n) =~= bits_in(b.drop_last()));
        assert(bits_in(a).skip(n) =~= x);
        assert(bits_in(b).skip(n) =~= y);
        lemma_bits_in_injective(a.drop_last(), b.drop_last());
        lemma_pow2_small();
        lemma_value_of_bits_of(8, a.last() as nat);
        lemma_value_of_bits_of(8, b.last() as nat);
        assert(a =~= a.drop_last().push(a.last()));
        assert(b =~= b.drop_last().push(b.last()));
    } else {
        assert(a =~= b);
    }
}

/// Any bits are the bits of the number they spell.
pub proof fn lemma_bits_of_value_of(b: Seq<bool>)
    ensures
        bits_of(b.len(), value_of(b)) == b,
        value_of(b) < pow2(b.len()),
    decreases b.len(),
{
    if b.len() > 0 {
        lemma_bits_of_value_of(b.drop_last());
        assert(bits_of(b.len(), value_of(b)) =~= b);
    } else {
        assert(bits_of(0, value_of(b)) =~= b);
    }
}

proof fn lemma_whole_bytes(b: Seq<bool>) -> (bytes: Seq<u8>)
    requires
        b.len() % 8 == 0,
    ensures
        bits_in(bytes) == b,
    decreases b.len(),
{
    if b.len() == 0 {
        assert(bits_in(Seq::<u8>::empty()) =~= b);
        Seq::empty()
    } else {
        let n = b.len() - 8;
        let head = lemma_whole_bytes(b.take(n));
        let tail = b.skip(n);
        lemma_bits_of_value_of(tail);
        lemma_pow2_small();
        let bytes = head.push(value_of(tail) as u8);
        assert(bytes.drop_last() =~= head);
        assert(bits_in(bytes) =~= b);
        bytes
    }
}

/// There are such bytes.
pub proof fn lemma_packed(b: Seq<bool>)
    ensures
        bits_in(packed(b)) == padded(b),
{
    let bytes = lemma_whole_bytes(padded(b));
    assert(bits_in(bytes) == padded(b));
}

pub proof fn lemma_bits_of_len(n: nat, v: nat)
    ensures
        bits_of(n, v).len() == n,
    decreases n,
{
    if n > 0 {
        lemma_bits_of_len((n - 1) as nat, v / 2);
    }
}

pub proof fn lemma_bits_in_len(s: Seq<u8>)
    ensures
        bits_in(s).len() == 8 * s.len(),
    decreases s.len(),
{
    if s.len() > 0 {
        lemma_bits_in_len(s.drop_last());
        lemma_bits_of_len(8, s.last() as nat);
    }
}

/// The bits of a number spell that number.
pub proof fn lemma_value_of_bits_of(n: nat, v: nat)
    requires
        v < pow2(n),
    ensures
        value_of(bits_of(n, v)) == v,
    decreases n,
{
    if n > 0 {
        lemma_value_of_bits_of((n - 1) as nat, v / 2);
        assert(bits_of(n, v).drop_last() =~= bits_of((n - 1) as nat, v / 2));
    }
}

/// Two to the power `n`.
pub open spec fn pow2(n: nat) -> nat
    decreases n,
{
    if n == 0 {
        1
    } else {
        2 * pow2((n - 1) as nat)
    }
}

/// The first of `k + n` bits of a number are the bits of its upper part.
pub proof fn lemma_bits_of_split(k: nat, n: nat, hi: nat, lo: nat)
    requires
        lo < pow2(n),
    ensures
        bits_of(k + n, hi * pow2(n) + lo) == bits_of(k, hi) + bits_of(n, lo),
    decreases n,
{
    if n == 0 {
        assert(hi * pow2(0) + lo == hi) by (nonlinear_arith)
            requires
                lo < 1,
                pow2(0) == 1,
        ;
        assert(bits_of(k, hi) + bits_of(0, lo) =~= bits_of(k, hi));
    } else {
        let m = (n - 1) as nat;
        let p = pow2(m);
        lemma_bits_of_split(k, m, hi, lo / 2);
        let v = hi * pow2(n) + lo;
        assert(v == 2 * (hi * p) + lo) by (nonlinear_arith)
            requires
                v == hi * pow2(n) + lo,
                pow2(n) == 2 * p,
        ;
        assert(v / 2 == hi * p + lo / 2);
        assert(v % 2 == lo % 2);
        assert(bits_of(k + n, v) =~= bits_of((k + m) as nat, v / 2).push(v % 2 == 1));
        assert(bits_of(k, hi) + bits_of(n, lo) =~= (bits_of(k, hi) + bits_of(m, lo / 2)).push(
            lo % 2 == 1,
        ));
    }
}

/// Writes bits; whole bytes go to `out`.
pub struct BitWriter {
    out: Vec<u8>,
    acc: u8,
    bits: u8,
}

impl BitWriter {
    pub closed spec fn inv(&self) -> bool {
        self.bits < 8 && self.acc < pow2(self.bits as nat)
    }

    /// All bits written so far.
    pub closed spec fn written(&self) -> Seq<bool> {
        bits_in(self.out@) + bits_of(self.bits as nat, self.acc as nat)
    }

    /// How many bits wait for a byte to be filled.
    pub closed spec fn pending(&self) -> nat {
        self.bits as nat
    }

    pub fn new() -> (r: BitWriter)
        ensures
            r.inv(),
            r.written() == Seq::<bool>::empty(),
    {
        BitWriter { out: Vec::new(), acc: 0, bits: 0 }
    }

    /// Appends one bit.
    pub fn push(&mut self, bit: bool)
        requires
            old(self).inv(),
        ensures
            final(self).inv(),
            final(self).written() == old(self).written().push(bit),
            final(self).pending() == (old(self).pending() + 1) % 8,
    {
        proof {
            reveal_with_fuel(pow2, 9);
        }
        let acc: u8 = self.acc * 2 + if bit {
            1
        } else {
            0
        };
        let bits: u8 = self.bits + 1;
        let ghost before = bits_in(self.out@);
        assert(bits_of(bits as nat, acc as nat) =~= bits_of(self.bits as nat, self.acc as nat).push(
            bit,
        ));
        if bits == 8 {
            self.out.push(acc);
            self.acc = 0;
            self.bits = 0;
            assert(self.out@.drop_last() =~= old(self).out@);
            assert(self.written() =~= old(self).written().push(bit));
        } else {
            self.acc = acc;
            self.bits = bits;
            assert(self.written() =~= old(self).written().push(bit));
        }
    }

    /// Appends the low `count` bits of `value`, most significant first.
    pub fn put(&mut self, count: u32, value: u64)
        requires
            old(self).inv(),
            count <= 32,
        ensures
            final(self).inv(),
            final(self).written() == old(self).written() + bits_of(count as nat, value as nat),
        decreases count,
    {
        if count > 0 {
            self.put(count - 1, value / 2);
            let ghost mid = self.written();
            self.push(value % 2 == 1);
            assert(self.written() =~= old(self).written() + bits_of(count as nat, value as nat));
        } else {
            assert(self.written() =~= old(self).written() + bits_of(0, value as nat));
        }
    }

    /// The written bits, filled up with zeros to whole bytes.
    pub fn finish(self) -> (r: Vec<u8>)
        requires
            self.inv(),
        ensures
            r@ == packed(self.written()),
    {
        let mut w = self;
        let ghost start = w.written();
        let ghost mut pad: nat = 0;
        assert(start =~= start + zeros(0));
        while w.bits > 0
            invariant
                w.inv(),
                self.inv(),
                w.written() == start + zeros(pad),
                pad == 0 || self.bits > 0,
                pad == 0 ==> w.bits == self.bits,
                w.bits > 0 ==> w.bits == self.bits + pad,
                w.bits == 0 ==> pad == 0 || self.bits + pad == 8,
            decreases (8 - w.bits) % 8,
        {
            w.push(false);
            proof {
                assert((start + zeros(pad)).push(false) =~= start + zeros(pad + 1));
                pad = pad + 1;
            }
        }
        assert(bits_in(w.out@) =~= w.written());
        proof {
            lemma_bits_in_len(self.out@);
            lemma_bits_of_len(self.bits as nat, self.acc as nat);
            assert(start.len() % 8 == self.bits);
            assert(bits_in(w.out@) == padded(start));
            lemma_packed(start);
            lemma_bits_in_injective(w.out@, packed(start));
        }
        w.out
    }
}

/// Reads bits; past the end it reads zeros and remembers that it did.
pub struct BitReader<'a> {
    data: &'a [u8],
    pos: usize,
    used: u8,
    overrun: bool,
}

/// What a reader has left: the bits, and whether more were asked for than
/// there were.
pub struct Source {
    pub rest: Seq<bool>,
    pub overrun: bool,
}

/// The next bit and what is left after it.
pub open spec fn next_bit(s: Source) -> (bool, Source) {
    if s.rest.len() > 0 {
        (s.rest[0], Source { rest: s.rest.drop_first(), overrun: s.overrun })
    } else {
        (false, Source { rest: s.rest, overrun: true })
    }
}

/// The value of the next `n` bits, appended to the bits of `v`.
pub open spec fn next_bits(s: Source, n: nat, v: nat) -> (nat, Source)
    decreases n,
{
    if n == 0 {
        (v, s)
    } else {
        let (b, t) = next_bit(s);
        next_bits(t, (n - 1) as nat, 2 * v + if b {
            1nat
        } else {
            0nat
        })
    }
}

pub proof fn lemma_next_bits_bound(s: Source, n: nat, v: nat)
    ensures
        next_bits(s, n, v).0 < (v + 1) * pow2(n),
        v * pow2(n) <= next_bits(s, n, v).0,
    decreases n,
{
    if n > 0 {
        let (b, t) = next_bit(s);
        let w = 2 * v + if b {
            1nat
        } else {
            0nat
        };
        lemma_next_bits_bound(t, (n - 1) as nat, w);
        let p = pow2((n - 1) as nat);
        assert((w + 1) * p <= (v + 1) * (2 * p)) by (nonlinear_arith)
            requires
                w + 1 <= 2 * (v + 1),
        ;
        assert(v * (2 * p) <= w * p) by (nonlinear_arith)
            requires
                2 * v <= w,
        ;
    } else {
        assert((v + 1) * 1 == v + 1 && v * 1 == v);
    }
}

/// Reading back what `bits_of` spells.
pub proof fn lemma_next_bits_of(n: nat, x: nat, tail: Seq<bool>, v: nat, over: bool)
    requires
        x < pow2(n),
    ensures
        next_bits(Source { rest: bits_of(n, x) + tail, overrun: over }, n, v) == (
            v * pow2(n) + x,
            Source { rest: tail, overrun: over },
        ),
    decreases n,
{
    if n == 0 {
        assert(bits_of(0, x) + tail =~= tail);
        assert(v * 1 == v);
    } else {
        // The first bit of n is the upper part; the rest are the lower n - 1.
        let m = (n - 1) as nat;
        let p = pow2(m);
        let hi = x / p;
        let lo = x % p;
        lemma_pow2_pos(m);
        assert(x == hi * p + lo) by (nonlinear_arith)
            requires
                p > 0,
                hi == x / p,
                lo == x % p,
        ;
        assert(hi < 2) by (nonlinear_arith)
            requires
                x < 2 * p,
                p > 0,
                hi == x / p,
        ;
        lemma_bits_of_split(1, m, hi, lo);
        reveal_with_fuel(bits_of, 2);
        assert(bits_of(1, hi) =~= seq![hi == 1]);
        let s = Source { rest: bits_of(n, x) + tail, overrun: over };
        lemma_bits_of_len(m, lo);
        assert(s.rest =~= seq![hi == 1] + (bits_of(m, lo) + tail));
        assert(s.rest.drop_first() =~= bits_of(m, lo) + tail);
        let w = 2 * v + hi;
        lemma_next_bits_of(m, lo, tail, w, over);
        assert(w * p + lo == v * (2 * p) + x) by (nonlinear_arith)
            requires
                w == 2 * v + hi,
                x == hi * p + lo,
        ;
    }
}

pub proof fn lemma_pow2_small()
    ensures
        pow2(0) == 1,
        pow2(1) == 2,
        pow2(2) == 4,
        pow2(3) == 8,
        pow2(4) == 16,
        pow2(5) == 32,
        pow2(6) == 64,
        pow2(7) == 128,
        pow2(8) == 256,
{
    reveal_with_fuel(pow2, 9);
}

pub proof fn lemma_pow2_pos(n: nat)
    ensures
        pow2(n) > 0,
    decreases n,
{
    if n > 0 {
        lemma_pow2_pos((n - 1) as nat);
    }
}

proof fn lemma_bits_in_skip(s: Seq<u8>, n: int)
    requires
        0 <= n < s.len(),
    ensures
        bits_in(s.skip(n)) == bits_of(8, s[n] as nat) + bits_in(s.skip(n + 1)),
    decreases s.len() - n,
{
    let t = s.skip(n);
    if n + 1 == s.len() {
        assert(t =~= seq![s[n]]);
        assert(t.drop_last() =~= seq![]);
        assert(s.skip(n + 1) =~= seq![]);
        assert(bits_in(t.drop_last()) =~= seq![]);
        assert(bits_in(s.skip(n + 1)) =~= seq![]);
        assert(bits_in(t) == bits_in(t.drop_last()) + bits_of(8, s[n] as nat));
        assert(bits_in(t) =~= bits_of(8, s[n] as nat) + bits_in(s.skip(n + 1)));
    } else {
        let d = s.drop_last();
        lemma_bits_in_skip(d, n);
        assert(t.drop_last() =~= d.skip(n));
        assert(s.skip(n + 1).drop_last() =~= d.skip(n + 1));
        assert(bits_in(t) =~= bits_of(8, s[n] as nat) + bits_in(s.skip(n + 1)));
    }
}

impl<'a> BitReader<'a> {
    pub closed spec fn inv(&self) -> bool {
        &&& self.used < 8
        &&& self.pos <= self.data@.len()
        &&& self.pos == self.data@.len() ==> self.used == 0
    }

    pub closed spec fn source(&self) -> Source {
        Source {
            rest: if self.pos < self.data@.len() {
                bits_of(8, self.data@[self.pos as int] as nat).skip(self.used as int) + bits_in(
                    self.data@.skip(self.pos + 1),
                )
            } else {
                seq![]
            },
            overrun: self.overrun,
        }
    }

    pub fn new(data: &'a [u8]) -> (r: BitReader<'a>)
        ensures
            r.inv(),
            r.source() == (Source { rest: bits_in(data@), overrun: false }),
    {
        let r = BitReader { data, pos: 0, used: 0, overrun: false };
        proof {
            if data@.len() > 0 {
                lemma_bits_in_skip(data@, 0);
                assert(data@.skip(0) =~= data@);
                assert(bits_of(8, data@[0] as nat).skip(0) =~= bits_of(8, data@[0] as nat));
            }
            assert(r.source().rest =~= bits_in(data@));
        }
        r
    }

    pub fn is_overrun(&self) -> (r: bool)
        ensures
            r == self.source().overrun,
    {
        self.overrun
    }

    /// The next bit.
    pub fn bit(&mut self) -> (r: bool)
        requires
            old(self).inv(),
        ensures
            final(self).inv(),
            (r, final(self).source()) == next_bit(old(self).source()),
    {
        if self.pos < self.data.len() {
            let byte: u8 = self.data[self.pos];
            let used: u8 = self.used;
            let r: bool = (byte >> (7 - used)) % 2 == 1;
            proof {
                lemma_bits_of_len(8, byte as nat);
                lemma_byte_bit(byte, used);
            }
            if used == 7 {
                self.used = 0;
                self.pos = self.pos + 1;
                proof {
                    assert(bits_of(8, byte as nat).skip(7) =~= seq![r]);
                    if self.pos < self.data@.len() {
                        lemma_bits_in_skip(self.data@, self.pos as int);
                        let b = self.data@[self.pos as int];
                        assert(bits_of(8, b as nat).skip(0) =~= bits_of(8, b as nat));
                    } else {
                        assert(self.data@.skip(self.pos as int) =~= seq![]);
                    }
                    assert(self.source().rest =~= old(self).source().rest.drop_first());
                }
            } else {
                self.used = used + 1;
                proof {
                    assert(self.source().rest =~= old(self).source().rest.drop_first());
                }
            }
            r
        } else {
            self.overrun = true;
            false
        }
    }

    /// The next `count` bits as a number.
    pub fn get(&mut self, count: u32) -> (r: u32)
        requires
            old(self).inv(),
            count <= 16,
        ensures
            final(self).inv(),
            (r as nat, final(self).source()) == next_bits(old(self).source(), count as nat, 0),
    {
        let mut v: u32 = 0;
        let mut k: u32 = 0;
        proof {
            reveal_with_fuel(pow2, 17);
        }
        while k < count
            invariant
                k <= count <= 16,
                self.inv(),
                v < pow2(k as nat),
                next_bits(old(self).source(), count as nat, 0) == next_bits(
                    self.source(),
                    (count - k) as nat,
                    v as nat,
                ),
            decreases count - k,
        {
            assert(pow2(k as nat) <= 0x10000) by {
                reveal_with_fuel(pow2, 17);
            }
            let b = self.bit();
            v = 2 * v + if b {
                1
            } else {
                0
            };
            k += 1;
        }
        v
    }
}

/// Which bit of a byte a shift brings down.
proof fn lemma_byte_bit(byte: u8, used: u8)
    requires
        used < 8,
    ensures
        bits_of(8, byte as nat)[used as int] == ((byte >> (7 - used)) % 2 == 1),
{
    reveal_with_fuel(bits_of, 9);
    let b = byte as nat;
    assert(byte >> 7 == byte / 128 && byte >> 6 == byte / 64 && byte >> 5 == byte / 32 && byte >> 4
        == byte / 16 && byte >> 3 == byte / 8 && byte >> 2 == byte / 4 && byte >> 1 == byte / 2
        && byte >> 0 == byte) by (bit_vector);
    assert(b / 2 / 2 == b / 4);
    assert(b / 4 / 2 == b / 8);
    assert(b / 8 / 2 == b / 16);
    assert(b / 16 / 2 == b / 32);
    assert(b / 32 / 2 == b / 64);
    assert(b / 64 / 2 == b / 128);
}

} // verus!
