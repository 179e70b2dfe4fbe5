//! The adaptive Huffman tree that encoder and decoder grow in step.
//!
//! Nodes stand in order of their counts; siblings stand side by side, the
//! left one at an even place; a parent stands after its children. A leaf
//! holds `T + symbol` where an inner node holds the place of its left child.

use vstd::prelude::*;

use crate::lzhuf::bits;
use crate::lzhuf::bits::{BitReader, BitWriter, Source};

verus! {

/// Literals 0-255, then one symbol for each match length from 3 to 60.
pub const N_CHAR: usize = 314;

/// Number of nodes.
pub const T: usize = 627;

/// Place of the root.
pub const R: usize = 626;

/// When the root has counted this many symbols, all counts are halved.
pub const MAX_FREQ: usize = 0x8000;

/// The tree: the count of each node (and a sentinel), and what each node
/// holds.
#[verifier::ext_equal]
pub struct Shape {
    pub freq: Seq<usize>,
    pub son: Seq<usize>,
}

// ---------------------------------------------------------------------
// Sums

pub open spec fn sum(s: Seq<usize>) -> int
    decreases s.len(),
{
    if s.len() == 0 {
        0
    } else {
        sum(s.drop_last()) + s.last()
    }
}

proof fn lemma_sum_update(s: Seq<usize>, i: int, v: usize)
    requires
        0 <= i < s.len(),
    ensures
        sum(s.update(i, v)) == sum(s) - s[i] + v,
    decreases s.len(),
{
    let t = s.update(i, v);
    if i == s.len() - 1 {
        assert(t.drop_last() =~= s.drop_last());
    } else {
        lemma_sum_update(s.drop_last(), i, v);
        assert(t.drop_last() =~= s.drop_last().update(i, v));
    }
}

proof fn lemma_sum_insert(s: Seq<usize>, k: int, v: usize)
    requires
        0 <= k <= s.len(),
    ensures
        sum(s.insert(k, v)) == sum(s) + v,
    decreases s.len(),
{
    let t = s.insert(k, v);
    if k == s.len() {
        assert(t.drop_last() =~= s);
    } else {
        lemma_sum_insert(s.drop_last(), k, v);
        assert(t.drop_last() =~= s.drop_last().insert(k, v));
        assert(t.last() == s.last());
    }
}

/// Taking away the first two terms.
proof fn lemma_sum_skip2(s: Seq<usize>)
    requires
        s.len() >= 2,
    ensures
        sum(s) == s[0] + s[1] + sum(s.skip(2)),
    decreases s.len(),
{
    if s.len() == 2 {
        reveal_with_fuel(sum, 3);
        assert(s.skip(2) =~= seq![]);
    } else {
        lemma_sum_skip2(s.drop_last());
        assert(s.drop_last().skip(2) =~= s.skip(2).drop_last());
    }
}

proof fn lemma_sum_nonneg(s: Seq<usize>)
    ensures
        sum(s) >= 0,
    decreases s.len(),
{
    if s.len() > 0 {
        lemma_sum_nonneg(s.drop_last());
    }
}

// ---------------------------------------------------------------------
// Well-formed trees

/// Does node `i` hold `k` (a leaf mark, or a place among its children)?
pub open spec fn holds(son: Seq<usize>, i: int, k: int) -> bool {
    0 <= i < son.len() && son[i] == (if k >= T {
        k
    } else {
        k - k % 2
    })
}

/// The node that holds `k`.
pub open spec fn parent(son: Seq<usize>, k: int) -> int {
    choose|i: int| holds(son, i, k)
}

pub open spec fn leaf_marks(son: Seq<usize>) -> Seq<usize> {
    Seq::new(son.len(), |i: int| if son[i] >= T { 1usize } else { 0usize })
}

pub open spec fn leaf_weights(freq: Seq<usize>, son: Seq<usize>) -> Seq<usize> {
    Seq::new(son.len(), |i: int| if son[i] >= T { freq[i] } else { 0usize })
}

/// What each node holds is its own: a symbol, or a pair of earlier places.
pub open spec fn nodes_ok(son: Seq<usize>) -> bool {
    &&& forall|i: int|
        0 <= i < son.len() ==> (#[trigger] son[i]) < T + N_CHAR && (son[i] < T ==> son[i] % 2 == 0
            && son[i] + 1 < i)
    &&& forall|i: int, j: int|
        0 <= i < son.len() && 0 <= j < son.len() && i != j ==> #[trigger] son[i] != #[trigger] son[j]
}

/// A full binary tree over all symbols.
pub open spec fn tree_ok(son: Seq<usize>) -> bool {
    &&& son.len() == T
    &&& nodes_ok(son)
    &&& forall|k: int|
        0 <= k < T + N_CHAR && k != R ==> holds(son, #[trigger] parent(son, k), k)
    &&& sum(leaf_marks(son)) == N_CHAR
}

/// The counts are positive and in order, and each inner node counts what its
/// children count; but the node `at` still lacks one.
pub open spec fn counts_ok(freq: Seq<usize>, son: Seq<usize>, at: int) -> bool {
    &&& forall|i: int| 0 <= i < son.len() ==> (#[trigger] freq[i]) >= 1
    &&& forall|i: int, j: int|
        0 <= i <= j < son.len() ==> (#[trigger] freq[i]) <= (#[trigger] freq[j])
    &&& forall|i: int|
        0 <= i < son.len() && (#[trigger] son[i]) < T ==> freq[i] + (if i == at {
            1int
        } else {
            0
        }) == freq[son[i] as int] + freq[son[i] + 1]
}

pub open spec fn wf(s: Shape) -> bool {
    &&& tree_ok(s.son)
    &&& s.freq.len() == T + 1
    &&& counts_ok(s.freq, s.son, -1)
    &&& s.freq[R as int] <= MAX_FREQ
    &&& sum(leaf_weights(s.freq, s.son)) == s.freq[R as int]
}

/// Between the steps of an update: node `c` is to count one more.
pub open spec fn mid(s: Shape, c: int) -> bool {
    &&& tree_ok(s.son)
    &&& s.freq.len() == T + 1
    &&& 0 <= c < T
    &&& counts_ok(s.freq, s.son, c)
    &&& s.freq[R as int] < MAX_FREQ
    &&& sum(leaf_weights(s.freq, s.son)) + (if s.son[c] >= T {
        1int
    } else {
        0
    }) == s.freq[R as int] + 1
}

pub proof fn lemma_parent_unique(son: Seq<usize>, i: int, k: int)
    requires
        nodes_ok(son),
        holds(son, i, k),
    ensures
        parent(son, k) == i,
{
    let p = parent(son, k);
    assert(holds(son, p, k));
    if p != i {
        assert(son[p] != son[i]);
    }
}

pub proof fn lemma_parent_above(son: Seq<usize>, k: int)
    requires
        tree_ok(son),
        0 <= k < T + N_CHAR,
        k != R,
    ensures
        0 <= parent(son, k) < T,
        holds(son, parent(son, k), k),
        k < T ==> parent(son, k) > k,
        k < T ==> son[parent(son, k)] == k - k % 2,
        k >= T ==> son[parent(son, k)] == k,
{
    let p = parent(son, k);
    assert(holds(son, p, k));
    assert(son[p] < T ==> son[p] + 1 < p);
}

/// The root is an inner node: the last pair has nowhere else to hang.
pub proof fn lemma_root_inner(son: Seq<usize>)
    requires
        tree_ok(son),
    ensures
        son[R as int] == R - 2,
{
    lemma_parent_above(son, R - 1);
}

// ---------------------------------------------------------------------
// Counting a symbol

/// The last node with the same count as `c`.
pub open spec fn leader(freq: Seq<usize>, c: int) -> int
    decreases R - c,
{
    if c < R && freq[c + 1] == freq[c] {
        leader(freq, c + 1)
    } else {
        c
    }
}

/// Node `c` changes places with the last node of its count, and counts one
/// more there.
pub open spec fn bumped(s: Shape, c: int) -> Shape {
    let l = leader(s.freq, c);
    Shape {
        freq: s.freq.update(l, (s.freq[l] + 1) as usize),
        son: s.son.update(c, s.son[l]).update(l, s.son[c]),
    }
}

/// Counts one more at `c` and at every node above it.
pub open spec fn climb(s: Shape, c: int) -> Shape
    decreases R - c,
{
    let s2 = bumped(s, c);
    let l = leader(s.freq, c);
    let p = parent(s2.son, l);
    if l >= R || p <= c || p > R {
        s2
    } else {
        climb(s2, p)
    }
}

proof fn lemma_leader(freq: Seq<usize>, c: int)
    requires
        0 <= c <= R,
        freq.len() == T + 1,
    ensures
        c <= leader(freq, c) <= R,
        freq[leader(freq, c)] == freq[c],
        leader(freq, c) < R ==> freq[leader(freq, c) + 1] != freq[c],
    decreases R - c,
{
    if c < R && freq[c + 1] == freq[c] {
        lemma_leader(freq, c + 1);
    }
}

proof fn lemma_leader_is(freq: Seq<usize>, c: int, l: int)
    requires
        0 <= c <= l <= R,
        freq.len() == T + 1,
        forall|i: int| c <= i <= l ==> (#[trigger] freq[i]) == freq[c],
        l < R ==> freq[l + 1] != freq[c],
    ensures
        leader(freq, c) == l,
    decreases R - c,
{
    if c < l {
        assert(freq[c + 1] == freq[c]);
        lemma_leader_is(freq, c + 1, l);
    }
}

/// One step keeps the tree in shape; what it changed is still owed to the
/// parent.
#[verifier::rlimit(60)]
pub proof fn lemma_bumped(s: Shape, c: int)
    requires
        mid(s, c),
    ensures
        ({
            let l = leader(s.freq, c);
            let s2 = bumped(s, c);
            let p = parent(s2.son, l);
            &&& c <= l <= R
            &&& l < R ==> c < p <= R && p == parent(s.son, l) && mid(s2, p)
            &&& l == R ==> wf(s2)
            &&& l != c && s.son[l] < T ==> s.son[l] + 1 < c
            &&& s.freq[l] == s.freq[c]
            &&& s.freq[l] < MAX_FREQ
        }),
{
    let l = leader(s.freq, c);
    let s2 = bumped(s, c);
    lemma_leader(s.freq, c);
    let f = s.freq[c];
    lemma_root_inner(s.son);
    if l != c && s.son[l] < T {
        // Both children count less than their parent, so they stand before c.
        let k = s.son[l] as int;
        assert(s.freq[l] == s.freq[k] + s.freq[k + 1]);
        assert(s.freq[k] >= 1 && s.freq[k + 1] >= 1);
        assert(s.freq[k + 1] < f);
        if k + 1 >= c {
            assert(s.freq[c] <= s.freq[k + 1]);
        }
    }
    // Nodes.
    assert(nodes_ok(s2.son)) by {
        assert forall|i: int, j: int|
            0 <= i < s2.son.len() && 0 <= j < s2.son.len() && i != j implies #[trigger] s2.son[i]
            != #[trigger] s2.son[j] by {
            let a = if i == c {
                l
            } else if i == l {
                c
            } else {
                i
            };
            let b = if j == c {
                l
            } else if j == l {
                c
            } else {
                j
            };
            assert(s2.son[i] == s.son[a]);
            assert(s2.son[j] == s.son[b]);
            assert(a != b);
        }
    }
    assert forall|k: int| 0 <= k < T + N_CHAR && k != R implies holds(
        s2.son,
        #[trigger] parent(s2.son, k),
        k,
    ) by {
        lemma_parent_above(s.son, k);
        let p = parent(s.son, k);
        let q = if p == c {
            l
        } else if p == l {
            c
        } else {
            p
        };
        assert(holds(s2.son, q, k));
    }
    // Leaves.
    let m = leaf_marks(s.son);
    lemma_sum_update(m, c, m[l]);
    lemma_sum_update(m.update(c, m[l]), l, m[c]);
    assert(leaf_marks(s2.son) =~= m.update(c, m[l]).update(l, m[c]));
    let w = leaf_weights(s.freq, s.son);
    let wc: usize = if s.son[c] >= T {
        (f + 1) as usize
    } else {
        0
    };
    let wl: usize = if s.son[l] >= T {
        f
    } else {
        0
    };
    lemma_sum_update(w, c, wl);
    lemma_sum_update(w.update(c, wl), l, wc);
    assert(leaf_weights(s2.freq, s2.son) =~= w.update(c, wl).update(l, wc));
    assert(tree_ok(s2.son));
    // Counts.
    assert(s.freq[l] <= s.freq[R as int]);
    let p = if l < R {
        parent(s2.son, l)
    } else {
        -1
    };
    if l < R {
        lemma_parent_above(s.son, l);
        let p0 = parent(s.son, l);
        assert(holds(s2.son, p0, l));
        lemma_parent_unique(s2.son, p0, l);
        assert(s.freq[l] < s.freq[l + 1]);
    }
    assert forall|i: int, j: int| 0 <= i <= j < s2.son.len() implies (#[trigger] s2.freq[i]) <= (
    #[trigger] s2.freq[j]) by {
        assert(s.freq[i] <= s.freq[j]);
        if i == l && j > l {
            assert(s.freq[l + 1] <= s.freq[j]);
        }
    }
    assert forall|i: int| 0 <= i < s2.son.len() && (#[trigger] s2.son[i]) < T implies s2.freq[i] + (
    if i == p {
        1int
    } else {
        0
    }) == s2.freq[s2.son[i] as int] + s2.freq[s2.son[i] + 1] by {
        if i == l {
            let k = s.son[c] as int;
            assert(s2.son[i] == k);
            assert(k + 1 < c);
        } else if i == c {
            let k = s.son[l] as int;
            assert(s2.son[i] == k);
            assert(k + 1 < c);
        } else {
            let k = s.son[i] as int;
            assert(s2.son[i] == k);
            if i == p {
                assert(s.son[p] == l - l % 2);
            } else if l == k || l == k + 1 {
                assert(holds(s.son, i, l));
                if l < R {
                    lemma_parent_unique(s.son, i, l);
                } else {
                    assert(k + 1 < i);
                }
            }
        }
    }
    assert(counts_ok(s2.freq, s2.son, p));
}

/// An update keeps the tree well-formed.
pub proof fn lemma_climb(s: Shape, c: int)
    requires
        mid(s, c),
    ensures
        wf(climb(s, c)),
    decreases R - c,
{
    lemma_bumped(s, c);
    let l = leader(s.freq, c);
    if l < R {
        lemma_climb(bumped(s, c), parent(bumped(s, c).son, l));
    }
}

// ---------------------------------------------------------------------
// Building a tree from its leaves

/// The halved counts of the leaves among the first `n` nodes.
pub open spec fn leaf_counts(s: Shape, n: nat) -> Seq<usize>
    decreases n,
{
    if n == 0 {
        seq![]
    } else if s.son[n - 1] >= T {
        leaf_counts(s, (n - 1) as nat).push(((s.freq[n - 1] + 1) / 2) as usize)
    } else {
        leaf_counts(s, (n - 1) as nat)
    }
}

/// What the leaves among the first `n` nodes hold.
pub open spec fn leaf_sons(s: Shape, n: nat) -> Seq<usize>
    decreases n,
{
    if n == 0 {
        seq![]
    } else if s.son[n - 1] >= T {
        leaf_sons(s, (n - 1) as nat).push(s.son[n - 1])
    } else {
        leaf_sons(s, (n - 1) as nat)
    }
}

/// Where a node with count `f` goes among the first `k`: after the last one
/// that does not count more.
pub open spec fn slot(freq: Seq<usize>, f: int, k: int) -> int
    decreases k,
{
    if k > 0 && f < freq[k - 1] {
        slot(freq, f, k - 1)
    } else {
        k
    }
}

/// Joins the nodes pair by pair, from the place `i` on, until one is left.
pub open spec fn grown(freq: Seq<usize>, son: Seq<usize>, i: int) -> Shape
    decreases T - freq.len(),
{
    if freq.len() >= T {
        Shape { freq: freq.push(0xffff), son }
    } else {
        let f = freq[i] + freq[i + 1];
        let k = slot(freq, f, freq.len() as int);
        proof {
            lemma_slot(freq, f, freq.len() as int);
        }
        grown(freq.insert(k, f as usize), son.insert(k, i as usize), i + 2)
    }
}

/// The tree built anew, all counts halved.
pub open spec fn rebuilt(s: Shape) -> Shape {
    grown(leaf_counts(s, T as nat), leaf_sons(s, T as nat), 0)
}

/// The tree at the start: every symbol counts one.
pub open spec fn initial() -> Shape {
    grown(
        Seq::new(N_CHAR as nat, |i: int| 1usize),
        Seq::new(N_CHAR as nat, |i: int| (T + i) as usize),
        0,
    )
}

/// The tree after `symbol` was counted once more.
pub open spec fn updated(s: Shape, symbol: int) -> Shape {
    let s1 = if s.freq[R as int] == MAX_FREQ {
        rebuilt(s)
    } else {
        s
    };
    climb(s1, parent(s1.son, symbol + T))
}

/// Between the steps of building: the nodes before `i` have parents.
pub open spec fn half_built(freq: Seq<usize>, son: Seq<usize>, i: int, total: int) -> bool {
    &&& N_CHAR <= freq.len() <= T
    &&& son.len() == freq.len()
    &&& i == 2 * (freq.len() - N_CHAR)
    &&& nodes_ok(son)
    &&& counts_ok(freq, son, -1)
    &&& forall|p: int| 0 <= p < son.len() && (#[trigger] son[p]) < T ==> son[p] < i
    &&& forall|k: int| T <= k < T + N_CHAR ==> holds(son, #[trigger] parent(son, k), k)
    &&& forall|k: int| 0 <= k < i ==> holds(son, #[trigger] parent(son, k), k)
    &&& sum(freq.skip(i)) == total
    &&& sum(leaf_weights(freq, son)) == total
    &&& sum(leaf_marks(son)) == N_CHAR
    &&& total <= MAX_FREQ
}

pub proof fn lemma_slot(freq: Seq<usize>, f: int, k: int)
    requires
        0 <= k <= freq.len(),
    ensures
        0 <= slot(freq, f, k) <= k,
        slot(freq, f, k) > 0 ==> freq[slot(freq, f, k) - 1] <= f,
        forall|j: int| slot(freq, f, k) <= j < k ==> f < #[trigger] freq[j],
    decreases k,
{
    if k > 0 && f < freq[k - 1] {
        lemma_slot(freq, f, k - 1);
    }
}

#[verifier::rlimit(60)]
pub proof fn lemma_join(freq: Seq<usize>, son: Seq<usize>, i: int, total: int)
    requires
        half_built(freq, son, i, total),
        freq.len() < T,
    ensures
        ({
            let f = freq[i] + freq[i + 1];
            let k = slot(freq, f, freq.len() as int);
            &&& i + 2 <= k <= freq.len()
            &&& i + 1 < freq.len()
            &&& f <= MAX_FREQ
            &&& half_built(freq.insert(k, f as usize), son.insert(k, i as usize), i + 2, total)
        }),
{
    let n = freq.len() as int;
    let f = freq[i] + freq[i + 1];
    let k = slot(freq, f, n);
    lemma_slot(freq, f, n);
    lemma_sum_skip2(freq.skip(i));
    lemma_sum_nonneg(freq.skip(i).skip(2));
    if k <= i + 1 {
        assert(f < freq[i + 1]);
    }
    let freq2 = freq.insert(k, f as usize);
    let son2 = son.insert(k, i as usize);
    // Sums.
    assert(freq.skip(i).skip(2) =~= freq.skip(i + 2));
    lemma_sum_insert(freq.skip(i + 2), k - i - 2, f as usize);
    assert(freq2.skip(i + 2) =~= freq.skip(i + 2).insert(k - i - 2, f as usize));
    lemma_sum_insert(leaf_weights(freq, son), k, 0);
    assert(leaf_weights(freq2, son2) =~= leaf_weights(freq, son).insert(k, 0));
    lemma_sum_insert(leaf_marks(son), k, 0);
    assert(leaf_marks(son2) =~= leaf_marks(son).insert(k, 0));
    // Nodes.
    assert(nodes_ok(son2)) by {
        assert forall|a: int| 0 <= a < son2.len() implies (#[trigger] son2[a]) < T + N_CHAR && (
        son2[a] < T ==> son2[a] % 2 == 0 && son2[a] + 1 < a) by {
            if a < k {
                assert(son2[a] == son[a]);
            } else if a > k {
                assert(son2[a] == son[a - 1]);
            }
        }
        assert forall|a: int, b: int|
            0 <= a < son2.len() && 0 <= b < son2.len() && a != b implies #[trigger] son2[a]
            != #[trigger] son2[b] by {
            let x = if a < k {
                a
            } else {
                a - 1
            };
            let y = if b < k {
                b
            } else {
                b - 1
            };
            if a != k {
                assert(son2[a] == son[x]);
            }
            if b != k {
                assert(son2[b] == son[y]);
            }
            if a != k && b != k {
                assert(x != y);
            }
        }
    }
    assert forall|p: int| 0 <= p < son2.len() && (#[trigger] son2[p]) < T implies son2[p] < i + 2 by {
        if p < k {
            assert(son2[p] == son[p]);
        } else if p > k {
            assert(son2[p] == son[p - 1]);
        }
    }
    assert forall|c: int| T <= c < T + N_CHAR implies holds(son2, #[trigger] parent(son2, c), c) by {
        let p = parent(son, c);
        assert(holds(son, p, c));
        assert(holds(
            son2,
            if p < k {
                p
            } else {
                p + 1
            },
            c,
        ));
    }
    assert forall|c: int| 0 <= c < i + 2 implies holds(son2, #[trigger] parent(son2, c), c) by {
        if c < i {
            let p = parent(son, c);
            assert(holds(son, p, c));
            assert(holds(
                son2,
                if p < k {
                    p
                } else {
                    p + 1
                },
                c,
            ));
        } else {
            assert(holds(son2, k, c));
        }
    }
    // Counts.
    assert(counts_ok(freq2, son2, -1)) by {
        assert forall|a: int| 0 <= a < son2.len() implies (#[trigger] freq2[a]) >= 1 by {
            if a < k {
                assert(freq2[a] == freq[a]);
            } else if a > k {
                assert(freq2[a] == freq[a - 1]);
            } else {
                assert(freq[i] >= 1);
            }
        }
        assert forall|a: int, b: int| 0 <= a <= b < son2.len() implies (#[trigger] freq2[a]) <= (
        #[trigger] freq2[b]) by {
            let x = if a < k {
                a
            } else {
                a - 1
            };
            let y = if b < k {
                b
            } else {
                b - 1
            };
            if a != k {
                assert(freq2[a] == freq[x]);
            }
            if b != k {
                assert(freq2[b] == freq[y]);
            }
            if a == k && b > k {
                assert(f < freq[y]);
            } else if b == k && a < k {
                assert(freq[x] <= freq[k - 1]);
            } else if a != k && b != k {
                assert(freq[x] <= freq[y]);
            }
        }
        assert forall|a: int| 0 <= a < son2.len() && (#[trigger] son2[a]) < T implies freq2[a]
            == freq2[son2[a] as int] + freq2[son2[a] + 1] by {
            if a < k {
                assert(son2[a] == son[a]);
            } else if a > k {
                assert(son2[a] == son[a - 1]);
            }
        }
    }
}

proof fn lemma_grown(freq: Seq<usize>, son: Seq<usize>, i: int, total: int)
    requires
        half_built(freq, son, i, total),
    ensures
        wf(grown(freq, son, i)),
        grown(freq, son, i).freq[R as int] == total,
    decreases T - freq.len(),
{
    if freq.len() >= T {
        let s = grown(freq, son, i);
        assert(freq.skip(i) =~= seq![freq[R as int]]);
        reveal_with_fuel(sum, 2);
        assert(sum(freq.skip(i)) == freq[R as int]);
        assert(leaf_weights(s.freq, s.son) =~= leaf_weights(freq, son));
        assert(counts_ok(s.freq, s.son, -1)) by {
            assert forall|a: int| 0 <= a < s.son.len() implies (#[trigger] s.freq[a]) >= 1 by {
                assert(s.freq[a] == freq[a]);
            }
            assert forall|a: int, b: int| 0 <= a <= b < s.son.len() implies (#[trigger] s.freq[a])
                <= (#[trigger] s.freq[b]) by {
                assert(s.freq[a] == freq[a]);
                assert(s.freq[b] == freq[b]);
            }
            assert forall|a: int| 0 <= a < s.son.len() && (#[trigger] s.son[a]) < T implies s.freq[a]
                == s.freq[s.son[a] as int] + s.freq[s.son[a] + 1] by {
                assert(s.freq[a] == freq[a]);
            }
        }
    } else {
        lemma_join(freq, son, i, total);
        let f = freq[i] + freq[i + 1];
        let k = slot(freq, f, freq.len() as int);
        lemma_grown(freq.insert(k, f as usize), son.insert(k, i as usize), i + 2, total);
    }
}

proof fn lemma_leaves(s: Shape, n: nat)
    requires
        wf(s),
        n <= T,
    ensures
        leaf_counts(s, n).len() == leaf_sons(s, n).len(),
        leaf_sons(s, n).len() == sum(leaf_marks(s.son).take(n as int)),
        2 * sum(leaf_counts(s, n)) <= sum(leaf_weights(s.freq, s.son).take(n as int)) + leaf_counts(
            s,
            n,
        ).len(),
        forall|a: int| 0 <= a < leaf_sons(s, n).len() ==> T <= (#[trigger] leaf_sons(s, n)[a]) < T
            + N_CHAR && parent(s.son, leaf_sons(s, n)[a] as int) < n,
        forall|a: int, b: int|
            0 <= a < leaf_sons(s, n).len() && 0 <= b < leaf_sons(s, n).len() && a != b
                ==> #[trigger] leaf_sons(s, n)[a] != #[trigger] leaf_sons(s, n)[b],
        forall|a: int|
            0 <= a < leaf_counts(s, n).len() ==> 1 <= (#[trigger] leaf_counts(s, n)[a]) && (n > 0
                ==> leaf_counts(s, n)[a] <= (s.freq[n - 1] + 1) / 2),
        forall|a: int, b: int|
            0 <= a <= b < leaf_counts(s, n).len() ==> (#[trigger] leaf_counts(s, n)[a]) <= (
            #[trigger] leaf_counts(s, n)[b]),
        forall|i: int|
            0 <= i < n && (#[trigger] s.son[i]) >= T ==> leaf_sons(s, n).contains(s.son[i]),
    decreases n,
{
    let m = leaf_marks(s.son);
    let w = leaf_weights(s.freq, s.son);
    if n == 0 {
        assert(m.take(0) =~= seq![]);
        assert(w.take(0) =~= seq![]);
    } else {
        let k = (n - 1) as nat;
        lemma_leaves(s, k);
        assert(m.take(n as int).drop_last() =~= m.take(k as int));
        assert(w.take(n as int).drop_last() =~= w.take(k as int));
        let v = s.son[k as int];
        let ls = leaf_sons(s, n);
        let lc = leaf_counts(s, n);
        assert(k > 0 ==> s.freq[k - 1] <= s.freq[k as int]);
        if v >= T {
            assert(lc.drop_last() =~= leaf_counts(s, k));
            assert(holds(s.son, k as int, v as int));
            lemma_parent_unique(s.son, k as int, v as int);
            assert(ls[ls.len() - 1] == v);
            assert forall|i: int| 0 <= i < n && (#[trigger] s.son[i]) >= T implies ls.contains(
                s.son[i],
            ) by {
                if i < k {
                    let a = leaf_sons(s, k).index_of(s.son[i]);
                    assert(leaf_sons(s, k).contains(s.son[i]));
                    assert(ls[a] == s.son[i]);
                } else {
                    assert(ls[ls.len() - 1] == s.son[i]);
                }
            }
        }
    }
}

/// Building anew keeps the tree well-formed, and makes room to count on.
pub proof fn lemma_rebuilt(s: Shape)
    requires
        wf(s),
    ensures
        wf(rebuilt(s)),
        rebuilt(s).freq[R as int] < MAX_FREQ,
{
    lemma_half_built_from(s);
    let lc = leaf_counts(s, T as nat);
    let ls = leaf_sons(s, T as nat);
    lemma_grown(lc, ls, 0, sum(lc));
    lemma_leaves(s, T as nat);
    assert(leaf_weights(s.freq, s.son).take(T as int) =~= leaf_weights(s.freq, s.son));
    assert(leaf_marks(s.son).take(T as int) =~= leaf_marks(s.son));
}

pub open spec fn half_built_from(s: Shape) -> bool {
    half_built(
        leaf_counts(s, T as nat),
        leaf_sons(s, T as nat),
        0,
        sum(leaf_counts(s, T as nat)),
    )
}

pub proof fn lemma_half_built_from(s: Shape)
    requires
        wf(s),
    ensures
        half_built_from(s),
{
    let lc = leaf_counts(s, T as nat);
    let ls = leaf_sons(s, T as nat);
    lemma_leaves(s, T as nat);
    assert(leaf_weights(s.freq, s.son).take(T as int) =~= leaf_weights(s.freq, s.son));
    assert(leaf_marks(s.son).take(T as int) =~= leaf_marks(s.son));
    assert(lc.skip(0) =~= lc);
    assert(leaf_weights(lc, ls) =~= lc);
    assert forall|k: int| T <= k < T + N_CHAR implies holds(ls, #[trigger] parent(ls, k), k) by {
        lemma_parent_above(s.son, k);
        let i = parent(s.son, k);
        assert(s.son[i] == k);
        assert(ls.contains(s.son[i]));
        let a = ls.index_of(s.son[i]);
        assert(holds(ls, a, k));
    }
    assert(leaf_marks(ls) =~= Seq::new(ls.len(), |i: int| 1usize));
    lemma_sum_ones(ls.len());
}

proof fn lemma_sum_ones(n: nat)
    ensures
        sum(Seq::new(n, |i: int| 1usize)) == n,
    decreases n,
{
    if n > 0 {
        lemma_sum_ones((n - 1) as nat);
        assert(Seq::new(n, |i: int| 1usize).drop_last() =~= Seq::new(
            (n - 1) as nat,
            |i: int| 1usize,
        ));
    }
}

pub proof fn lemma_half_built_initial()
    ensures
        half_built(
            Seq::new(N_CHAR as nat, |i: int| 1usize),
            Seq::new(N_CHAR as nat, |i: int| (T + i) as usize),
            0,
            N_CHAR as int,
        ),
{
    let freq = Seq::new(N_CHAR as nat, |i: int| 1usize);
    let son = Seq::new(N_CHAR as nat, |i: int| (T + i) as usize);
    lemma_sum_ones(N_CHAR as nat);
    assert(freq.skip(0) =~= freq);
    assert(leaf_weights(freq, son) =~= freq);
    assert(leaf_marks(son) =~= freq);
    assert forall|k: int| T <= k < T + N_CHAR implies holds(son, #[trigger] parent(son, k), k) by {
        assert(holds(son, k - T, k));
    }
}

/// The first tree is well-formed.
pub proof fn lemma_initial()
    ensures
        wf(initial()),
{
    lemma_half_built_initial();
    lemma_grown(
        Seq::new(N_CHAR as nat, |i: int| 1usize),
        Seq::new(N_CHAR as nat, |i: int| (T + i) as usize),
        0,
        N_CHAR as int,
    );
}

pub proof fn lemma_mid_start(s: Shape, symbol: int)
    requires
        wf(s),
        s.freq[R as int] < MAX_FREQ,
        0 <= symbol < N_CHAR,
    ensures
        mid(s, parent(s.son, symbol + T)),
{
    lemma_parent_above(s.son, symbol + T);
}

/// Counting a symbol keeps the tree well-formed.
pub proof fn lemma_updated(s: Shape, symbol: int)
    requires
        wf(s),
        0 <= symbol < N_CHAR,
    ensures
        wf(updated(s, symbol)),
{
    let s1 = if s.freq[R as int] == MAX_FREQ {
        lemma_rebuilt(s);
        rebuilt(s)
    } else {
        s
    };
    lemma_mid_start(s1, symbol);
    lemma_climb(s1, parent(s1.son, symbol + T));
}

// ---------------------------------------------------------------------
// Codes

/// The turns from the root to node `k`: true is to the right.
pub open spec fn path(son: Seq<usize>, k: int) -> Seq<bool>
    decreases R - k,
{
    let p = parent(son, k);
    if k >= R || p <= k || p > R {
        seq![]
    } else {
        path(son, p).push(k % 2 == 1)
    }
}

/// The code of a symbol.
pub open spec fn symbol_bits(s: Shape, symbol: int) -> Seq<bool> {
    path(s.son, parent(s.son, symbol + T))
}

/// Follows the bits from node `p` down to a leaf; the symbol there, and what
/// is left to read.
pub open spec fn walk(son: Seq<usize>, p: int, s: Source) -> (int, Source)
    decreases p,
{
    if son[p] >= T {
        (son[p] - T, s)
    } else {
        let (b, t) = bits::next_bit(s);
        let q = son[p] + if b {
            1int
        } else {
            0int
        };
        if q >= p || q < 0 {
            (0, t)
        } else {
            walk(son, q, t)
        }
    }
}

/// The path to a node leads to it.
proof fn lemma_walk_path(son: Seq<usize>, k: int, tail: Seq<bool>, over: bool)
    requires
        tree_ok(son),
        0 <= k <= R,
    ensures
        walk(son, R as int, Source { rest: path(son, k) + tail, overrun: over }) == walk(
            son,
            k,
            Source { rest: tail, overrun: over },
        ),
    decreases R - k,
{
    if k == R {
        assert(path(son, k) + tail =~= tail);
    } else {
        lemma_parent_above(son, k);
        let p = parent(son, k);
        let b = k % 2 == 1;
        let tail2 = seq![b] + tail;
        assert(path(son, k) + tail =~= path(son, p) + tail2);
        lemma_walk_path(son, p, tail2, over);
        assert(tail2.drop_first() =~= tail);
        assert(son[p] + 1 < p);
    }
}

/// A symbol is read back as it was written.
pub proof fn lemma_symbol_roundtrip(s: Shape, symbol: int, tail: Seq<bool>, over: bool)
    requires
        wf(s),
        0 <= symbol < N_CHAR,
    ensures
        walk(
            s.son,
            R as int,
            Source { rest: symbol_bits(s, symbol) + tail, overrun: over },
        ) == (symbol, Source { rest: tail, overrun: over }),
{
    lemma_parent_above(s.son, symbol + T);
    lemma_walk_path(s.son, parent(s.son, symbol + T), tail, over);
}

// ---------------------------------------------------------------------
// The executable tree

/// Adaptive Huffman tree shared (bit for bit) by encoder and decoder.
pub struct Tree {
    freq: Vec<usize>,
    prnt: Vec<usize>,
    son: Vec<usize>,
}

/// `prnt` finds the node that holds each symbol and each place.
spec fn linked(prnt: Seq<usize>, son: Seq<usize>) -> bool {
    &&& prnt.len() == T + N_CHAR
    &&& forall|k: int|
        0 <= k < T + N_CHAR && k != R ==> holds(son, (#[trigger] prnt[k]) as int, k)
}

impl Tree {
    pub closed spec fn shape(&self) -> Shape {
        Shape { freq: self.freq@, son: self.son@ }
    }

    pub closed spec fn inv(&self) -> bool {
        wf(self.shape()) && linked(self.prnt@, self.son@)
    }

    pub fn new() -> (r: Tree)
        ensures
            r.inv(),
            r.shape() == initial(),
    {
        let mut freq: Vec<usize> = Vec::new();
        let mut son: Vec<usize> = Vec::new();
        for i in 0..N_CHAR
            invariant
                freq@ == Seq::new(i as nat, |j: int| 1usize),
                son@ == Seq::new(i as nat, |j: int| (T + j) as usize),
        {
            freq.push(1);
            son.push(T + i);
            assert(freq@ =~= Seq::new((i + 1) as nat, |j: int| 1usize));
            assert(son@ =~= Seq::new((i + 1) as nat, |j: int| (T + j) as usize));
        }
        proof {
            lemma_half_built_initial();
        }
        Tree::assemble(freq, son, Ghost(N_CHAR as int))
    }

    /// Joins leaves into a tree.
    fn assemble(freq: Vec<usize>, son: Vec<usize>, Ghost(total): Ghost<int>) -> (r: Tree)
        requires
            half_built(freq@, son@, 0, total),
        ensures
            r.inv(),
            r.shape() == grown(freq@, son@, 0),
    {
        let ghost goal = grown(freq@, son@, 0);
        let mut freq = freq;
        let mut son = son;
        let mut i: usize = 0;
        while freq.len() < T
            invariant
                half_built(freq@, son@, i as int, total),
                goal == grown(freq@, son@, i as int),
            decreases T - freq@.len(),
        {
            proof {
                lemma_join(freq@, son@, i as int, total);
            }
            let f: usize = freq[i] + freq[i + 1];
            let ghost n = freq@.len() as int;
            let mut k: usize = freq.len();
            while k > 0 && f < freq[k - 1]
                invariant
                    k <= freq@.len() == n,
                    slot(freq@, f as int, n) == slot(freq@, f as int, k as int),
                decreases k,
            {
                k -= 1;
            }
            freq.insert(k, f);
            son.insert(k, i);
            i += 2;
        }
        proof {
            lemma_grown(freq@, son@, i as int, total);
        }
        freq.push(0xffff);
        let mut prnt: Vec<usize> = Vec::new();
        for k in 0..T + N_CHAR
            invariant
                prnt@.len() == k,
        {
            prnt.push(0);
        }
        let ghost s = son@;
        for p in 0..T
            invariant
                son@ == s,
                tree_ok(s),
                prnt@.len() == T + N_CHAR,
                forall|k: int|
                    0 <= k < T + N_CHAR && k != R && parent(s, k) < p ==> holds(
                        s,
                        (#[trigger] prnt@[k]) as int,
                        k,
                    ),
        {
            let v: usize = son[p];
            let ghost before = prnt@;
            prnt.set(v, p);
            if v < T {
                prnt.set(v + 1, p);
            }
            assert forall|k: int| 0 <= k < T + N_CHAR && k != R && parent(s, k) < p + 1 implies holds(
                s,
                (#[trigger] prnt@[k]) as int,
                k,
            ) by {
                lemma_parent_above(s, k);
                let q = parent(s, k);
                if q == p {
                    assert(prnt@[k] == p);
                } else {
                    assert(s[q] != s[p as int]);
                    if v < T && q != p {
                        assert(k != v && k != v + 1);
                    }
                    assert(prnt@[k] == before[k]);
                }
            }
        }
        assert forall|k: int| 0 <= k < T + N_CHAR && k != R implies holds(
            s,
            (#[trigger] prnt@[k]) as int,
            k,
        ) by {
            lemma_parent_above(s, k);
        }
        Tree { freq, prnt, son }
    }

    /// Halves all frequencies and rebuilds the tree.
    fn reconstruct(&mut self)
        requires
            old(self).inv(),
        ensures
            final(self).inv(),
            final(self).shape() == rebuilt(old(self).shape()),
            final(self).freq@[R as int] < MAX_FREQ,
    {
        let mut freq: Vec<usize> = Vec::new();
        let mut son: Vec<usize> = Vec::new();
        let ghost s = self.shape();
        for i in 0..T
            invariant
                s == self.shape(),
                wf(s),
                freq@ == leaf_counts(s, i as nat),
                son@ == leaf_sons(s, i as nat),
        {
            if self.son[i] >= T {
                assert(s.freq[i as int] <= s.freq[R as int]);
                freq.push((self.freq[i] + 1) / 2);
                son.push(self.son[i]);
            }
        }
        proof {
            lemma_rebuilt(s);
            lemma_half_built_from(s);
        }
        *self = Tree::assemble(freq, son, Ghost(sum(leaf_counts(s, T as nat))));
    }

    /// Counts one occurrence of `symbol`, swapping nodes to keep order.
    #[verifier::rlimit(40)]
    pub fn update(&mut self, symbol: usize)
        requires
            old(self).inv(),
            symbol < N_CHAR,
        ensures
            final(self).inv(),
            final(self).shape() == updated(old(self).shape(), symbol as int),
    {
        if self.freq[R] == MAX_FREQ {
            self.reconstruct();
        }
        let mut c: usize = self.prnt[symbol + T];
        let ghost goal = updated(old(self).shape(), symbol as int);
        proof {
            assert(holds(self.son@, c as int, symbol + T));
            lemma_parent_unique(self.son@, c as int, symbol + T);
            lemma_mid_start(self.shape(), symbol as int);
        }
        loop
            invariant
                mid(self.shape(), c as int),
                linked(self.prnt@, self.son@),
                goal == climb(self.shape(), c as int),
                goal == updated(old(self).shape(), symbol as int),
            decreases R - c,
        {
            let ghost s = self.shape();
            let ghost prnt0 = self.prnt@;
            proof {
                lemma_bumped(s, c as int);
            }
            let mut l: usize = c;
            while l < R && self.freq[l + 1] == self.freq[c]
                invariant
                    s == self.shape(),
                    s.freq.len() == T + 1,
                    c <= l <= R,
                    forall|i: int| c <= i <= l ==> (#[trigger] s.freq[i]) == s.freq[c as int],
                decreases R - l,
            {
                l += 1;
            }
            proof {
                lemma_leader_is(s.freq, c as int, l as int);
            }
            let f: usize = self.freq[l];
            self.freq.set(l, f + 1);
            let i: usize = self.son[c];
            let j: usize = self.son[l];
            if l != c {
                self.prnt.set(i, l);
                if i < T {
                    self.prnt.set(i + 1, l);
                }
                self.prnt.set(j, c);
                if j < T {
                    self.prnt.set(j + 1, c);
                }
                self.son.set(c, j);
                self.son.set(l, i);
            }
            assert(self.shape() =~= bumped(s, c as int)) by {
                assert(self.freq@ =~= bumped(s, c as int).freq);
                assert(self.son@ =~= bumped(s, c as int).son);
            }
            assert forall|k: int| 0 <= k < T + N_CHAR && k != R implies holds(
                self.son@,
                (#[trigger] self.prnt@[k]) as int,
                k,
            ) by {
                assert(holds(s.son, prnt0[k] as int, k));
                if l != c {
                    let p = prnt0[k] as int;
                    if p == c {
                        assert(k == i || k == i + 1);
                        assert(self.prnt@[k] == l);
                    } else if p == l {
                        assert(k == j || k == j + 1);
                        assert(self.prnt@[k] == c);
                    } else {
                        assert(s.son[p] != i && s.son[p] != j);
                        assert(self.prnt@[k] == p);
                    }
                }
            }
            if l == R {
                return ;
            }
            proof {
                assert(holds(self.son@, self.prnt@[l as int] as int, l as int));
                lemma_parent_unique(self.son@, self.prnt@[l as int] as int, l as int);
            }
            c = self.prnt[l];
        }
    }

    /// Writes the code of `symbol`, then counts it.
    pub fn encode_symbol(&mut self, out: &mut BitWriter, symbol: usize)
        requires
            old(self).inv(),
            old(out).inv(),
            symbol < N_CHAR,
        ensures
            final(self).inv(),
            final(out).inv(),
            final(self).shape() == updated(old(self).shape(), symbol as int),
            final(out).written() == old(out).written() + symbol_bits(
                old(self).shape(),
                symbol as int,
            ),
    {
        // Walk from leaf to root; odd places are right-hand children.
        let mut turns: Vec<bool> = Vec::new();
        let ghost son = self.son@;
        let mut k: usize = self.prnt[symbol + T];
        let ghost k0 = k as int;
        proof {
            assert(holds(son, k as int, symbol + T));
            lemma_parent_unique(son, k as int, symbol + T);
        }
        assert(path(son, k0) =~= path(son, k as int) + turns@.reverse());
        while k != R
            invariant
                k <= R,
                tree_ok(son),
                son == self.son@,
                linked(self.prnt@, son),
                path(son, k0) == path(son, k as int) + turns@.reverse(),
            decreases R - k,
        {
            let ghost before = turns@;
            let ghost kk = k as int;
            turns.push(k % 2 == 1);
            k = self.prnt[k];
            proof {
                assert(holds(son, k as int, kk));
                lemma_parent_unique(son, k as int, kk);
                lemma_parent_above(son, kk);
                assert(path(son, kk) == path(son, k as int).push(kk % 2 == 1));
                assert(turns@.reverse() =~= seq![kk % 2 == 1] + before.reverse());
                assert(path(son, k0) =~= path(son, k as int) + turns@.reverse());
            }
        }
        assert(path(son, R as int) =~= seq![]);
        assert(path(son, k0) =~= turns@.reverse());
        let mut n: usize = turns.len();
        let ghost start = out.written();
        assert(turns@.skip(n as int).reverse() =~= seq![]);
        assert(out.written() =~= start + turns@.skip(n as int).reverse());
        while n > 0
            invariant
                n <= turns@.len(),
                out.inv(),
                out.written() == start + turns@.skip(n as int).reverse(),
            decreases n,
        {
            n -= 1;
            out.push(turns[n]);
            assert(turns@.skip(n as int).reverse() =~= turns@.skip(n + 1).reverse().push(
                turns@[n as int],
            ));
            assert(out.written() =~= start + turns@.skip(n as int).reverse());
        }
        assert(turns@.skip(0) =~= turns@);
        self.update(symbol);
    }

    /// Reads a symbol, then counts it.
    pub fn decode_symbol(&mut self, input: &mut BitReader) -> (r: usize)
        requires
            old(self).inv(),
            old(input).inv(),
        ensures
            final(self).inv(),
            final(input).inv(),
            r < N_CHAR,
            (r as int, final(input).source()) == walk(
                old(self).shape().son,
                R as int,
                old(input).source(),
            ),
            final(self).shape() == updated(old(self).shape(), r as int),
    {
        let ghost son = self.son@;
        let ghost goal = walk(son, R as int, input.source());
        let mut p: usize = R;
        while self.son[p] < T
            invariant
                p <= R,
                son == self.son@,
                tree_ok(son),
                input.inv(),
                goal == walk(son, p as int, input.source()),
            decreases p,
        {
            let b = input.bit();
            assert(son[p as int] + 1 < p);
            p = self.son[p] + if b {
                1
            } else {
                0
            };
        }
        let symbol: usize = self.son[p] - T;
        self.update(symbol);
        symbol
    }
}

} // verus!
