//! Laws of the adaptive code: the first tree, what counting a symbol does to
//! it, and where the bits of a symbol lead.

use vstd::prelude::*;

use crate::lzhuf::tree;
use crate::lzhuf::tree::Shape;

verus! {

// ---------------------------------------------------------------------
// The first tree

/// In the first tree the nodes 0 to 313 hold the symbols in order, each
/// counted once; node 314 + k has the nodes 2k and 2k + 1 below it.
pub proof fn law_first_tree()
    ensures
        tree::initial().son.len() == 627,
        forall|i: int|
            0 <= i < 314 ==> #[trigger] tree::initial().son[i] == 627 + i
                && tree::initial().freq[i] == 1,
        forall|i: int|
            314 <= i < 627 ==> #[trigger] tree::initial().son[i] == 2 * (i - 314)
                && tree::initial().freq[i] == tree::initial().freq[2 * (i - 314)]
                + tree::initial().freq[2 * (i - 314) + 1],
{
    tree::lemma_half_built_initial();
    lemma_in_rows(
        Seq::new(314, |i: int| 1usize),
        Seq::new(314, |i: int| (627 + i) as usize),
        0,
    );
}

/// The symbols first, then the pairs in order.
spec fn in_rows(freq: Seq<usize>, son: Seq<usize>) -> bool {
    &&& forall|j: int| 0 <= j < 314 ==> #[trigger] son[j] == 627 + j && freq[j] == 1
    &&& forall|j: int|
        314 <= j < son.len() ==> #[trigger] son[j] == 2 * (j - 314) && freq[j] == freq[2 * (j
            - 314)] + freq[2 * (j - 314) + 1]
}

proof fn lemma_in_rows(freq: Seq<usize>, son: Seq<usize>, i: int)
    requires
        tree::half_built(freq, son, i, 314),
        in_rows(freq, son),
    ensures
        in_rows(tree::grown(freq, son, i).freq, tree::grown(freq, son, i).son),
        tree::grown(freq, son, i).son.len() == 627,
    decreases 627 - freq.len(),
{
    if freq.len() < 627 {
        tree::lemma_join(freq, son, i, 314);
        let n = freq.len() as int;
        let f = freq[i] + freq[i + 1];
        assert(!(f < freq[n - 1])) by {
            if n > 314 {
                assert(son[n - 1] == i - 2);
                assert(freq[i - 2] <= freq[i]);
                assert(freq[i - 1] <= freq[i + 1]);
            } else {
                assert(son[0] == 627 && son[1] == 628 && son[313] == 940);
            }
        }
        assert(tree::slot(freq, f, n) == n);
        let (freq2, son2) = (freq.insert(n, f as usize), son.insert(n, i as usize));
        assert(in_rows(freq2, son2)) by {
            assert forall|j: int| 0 <= j < 314 implies #[trigger] son2[j] == 627 + j && freq2[j]
                == 1 by {
                assert(son2[j] == son[j]);
            }
            assert forall|j: int| 314 <= j < son2.len() implies #[trigger] son2[j] == 2 * (j - 314)
                && freq2[j] == freq2[2 * (j - 314)] + freq2[2 * (j - 314) + 1] by {
                if j < n {
                    assert(son2[j] == son[j]);
                }
            }
        }
        assert(tree::grown(freq, son, i) == tree::grown(freq2, son2, i + 2));
        lemma_in_rows(freq2, son2, i + 2);
    } else {
        let g = tree::grown(freq, son, i);
        assert forall|j: int| 0 <= j < 314 implies #[trigger] g.son[j] == 627 + j && g.freq[j]
            == 1 by {
            assert(son[j] == 627 + j);
        }
        assert forall|j: int| 314 <= j < g.son.len() implies #[trigger] g.son[j] == 2 * (j - 314)
            && g.freq[j] == g.freq[2 * (j - 314)] + g.freq[2 * (j - 314) + 1] by {
            assert(son[j] == 2 * (j - 314));
        }
        assert(in_rows(g.freq, g.son));
    }
}

// ---------------------------------------------------------------------
// Counting

/// Counting a symbol counts it once more, and no other symbol: the node of
/// any symbol counts what it did. Only where all counts together have reached
/// 32768 is every count halved first, and rounded up.
pub proof fn law_counting(s: Shape, symbol: int, other: int, i: int, j: int)
    requires
        tree::wf(s),
        0 <= symbol < 314,
        0 <= other < 314,
        0 <= i < 627,
        s.son[i] == 627 + other,
        0 <= j < 627,
        tree::updated(s, symbol).son[j] == 627 + other,
    ensures
        ({
            let before: int = if s.freq[626] == 32768 {
                (s.freq[i] + 1) / 2
            } else {
                s.freq[i] as int
            };
            tree::updated(s, symbol).freq[j] == before + if other == symbol {
                1int
            } else {
                0
            }
        }),
{
    let v = 627 + other;
    if s.freq[626] == 32768 {
        let s1 = tree::rebuilt(s);
        tree::lemma_rebuilt(s);
        tree::lemma_parent_above(s1.son, v);
        let m = tree::parent(s1.son, v);
        lemma_rebuilt_counts(s, i, m);
        lemma_counted(s1, symbol, other, m, j);
    } else {
        lemma_counted(s, symbol, other, i, j);
    }
}

proof fn lemma_counted(s: Shape, symbol: int, other: int, i: int, j: int)
    requires
        tree::wf(s),
        s.freq[626] < 32768,
        0 <= symbol < 314,
        0 <= other < 314,
        0 <= i < 627,
        s.son[i] == 627 + other,
        0 <= j < 627,
        tree::climb(s, tree::parent(s.son, symbol + 627)).son[j] == 627 + other,
    ensures
        tree::climb(s, tree::parent(s.son, symbol + 627)).freq[j] == s.freq[i] + if other == symbol {
            1int
        } else {
            0
        },
{
    let c = tree::parent(s.son, symbol + 627);
    tree::lemma_mid_start(s, symbol);
    tree::lemma_parent_above(s.son, symbol + 627);
    if other == symbol {
        assert(tree::holds(s.son, i, symbol + 627));
        tree::lemma_parent_unique(s.son, i, symbol + 627);
    }
    lemma_climb_counts(s, c, i, j);
}

proof fn lemma_climb_counts(s: Shape, c: int, i: int, j: int)
    requires
        tree::mid(s, c),
        0 <= i < 627,
        s.son[i] >= 627,
        0 <= j < 627,
        tree::climb(s, c).son[j] == s.son[i],
    ensures
        tree::climb(s, c).freq[j] == s.freq[i] + if i == c {
            1int
        } else {
            0
        },
    decreases 626 - c,
{
    tree::lemma_bumped(s, c);
    let l = tree::leader(s.freq, c);
    let s2 = tree::bumped(s, c);
    let q = if i == c {
        l
    } else if i == l {
        c
    } else {
        i
    };
    assert(s2.son[q] == s.son[i]);
    assert(s2.freq[q] == s.freq[i] + if i == c {
        1int
    } else {
        0
    });
    if l < 626 {
        let p = tree::parent(s2.son, l);
        tree::lemma_parent_above(s2.son, l);
        assert(s2.son[p] < 627);
        lemma_climb_counts(s2, p, q, j);
    } else {
        if q != j {
            assert(s2.son[q] != s2.son[j]);
        }
    }
}

/// A rebuilt tree counts half of what was counted, rounded up.
proof fn lemma_rebuilt_counts(s: Shape, i: int, j: int)
    requires
        tree::wf(s),
        0 <= i < 627,
        s.son[i] >= 627,
        0 <= j < 627,
        tree::rebuilt(s).son[j] == s.son[i],
    ensures
        tree::rebuilt(s).freq[j] == (s.freq[i] + 1) / 2,
{
    tree::lemma_half_built_from(s);
    let lc = tree::leaf_counts(s, 627);
    let ls = tree::leaf_sons(s, 627);
    let a = lemma_leaf_at(s, 627, i);
    lemma_grown_counts(lc, ls, 0, tree::sum(lc), a, j);
}

proof fn lemma_leaf_at(s: Shape, n: nat, i: int) -> (a: int)
    requires
        0 <= i < n <= s.son.len(),
        s.son[i] >= 627,
    ensures
        tree::leaf_sons(s, n).len() == tree::leaf_counts(s, n).len(),
        0 <= a < tree::leaf_sons(s, n).len(),
        tree::leaf_sons(s, n)[a] == s.son[i],
        tree::leaf_counts(s, n)[a] == (s.freq[i] + 1) / 2,
    decreases n,
{
    lemma_leaf_lengths(s, n);
    lemma_leaf_lengths(s, (n - 1) as nat);
    if i == n - 1 {
        tree::leaf_sons(s, n).len() - 1
    } else {
        lemma_leaf_at(s, (n - 1) as nat, i)
    }
}

proof fn lemma_leaf_lengths(s: Shape, n: nat)
    ensures
        tree::leaf_sons(s, n).len() == tree::leaf_counts(s, n).len(),
    decreases n,
{
    if n > 0 {
        lemma_leaf_lengths(s, (n - 1) as nat);
    }
}

proof fn lemma_grown_counts(
    freq: Seq<usize>,
    son: Seq<usize>,
    i: int,
    total: int,
    a: int,
    j: int,
)
    requires
        tree::half_built(freq, son, i, total),
        0 <= a < son.len(),
        son[a] >= 627,
        0 <= j < 627,
        tree::grown(freq, son, i).son[j] == son[a],
    ensures
        tree::grown(freq, son, i).freq[j] == freq[a],
    decreases 627 - freq.len(),
{
    if freq.len() < 627 {
        tree::lemma_join(freq, son, i, total);
        let f = freq[i] + freq[i + 1];
        let k = tree::slot(freq, f, freq.len() as int);
        let (freq2, son2) = (freq.insert(k, f as usize), son.insert(k, i as usize));
        let b = if a < k {
            a
        } else {
            a + 1
        };
        assert(son2[b] == son[a] && freq2[b] == freq[a]);
        lemma_grown_counts(freq2, son2, i + 2, total, b, j);
    } else {
        if a != j {
            assert(son[a] != son[j]);
        }
    }
}

/// Whatever is counted, the counts stay in order from the first node to the
/// root, and each inner node counts what the two nodes below it count.
pub proof fn law_counts_stay_in_order(s: Shape, symbol: int)
    requires
        tree::wf(s),
        0 <= symbol < 314,
    ensures
        ({
            let t = tree::updated(s, symbol);
            &&& forall|i: int, j: int|
                0 <= i <= j < 627 ==> #[trigger] t.freq[i] <= #[trigger] t.freq[j]
            &&& forall|i: int|
                0 <= i < 627 && #[trigger] t.son[i] < 627 ==> t.son[i] % 2 == 0 && t.son[i] + 1 < i
                    && t.freq[i] == t.freq[t.son[i] as int] + t.freq[t.son[i] + 1]
            &&& t.freq[626] == 1 + if s.freq[626] == 32768 {
                tree::rebuilt(s).freq[626] as int
            } else {
                s.freq[626] as int
            }
            &&& tree::wf(t)
        }),
{
    tree::lemma_updated(s, symbol);
    let s1 = if s.freq[626] == 32768 {
        tree::lemma_rebuilt(s);
        tree::rebuilt(s)
    } else {
        s
    };
    tree::lemma_mid_start(s1, symbol);
    let c = tree::parent(s1.son, symbol + 627);
    tree::lemma_parent_above(s1.son, symbol + 627);
    tree::lemma_root_inner(s1.son);
    lemma_root_count(s1, c);
}

proof fn lemma_root_count(s: Shape, c: int)
    requires
        tree::mid(s, c),
    ensures
        tree::climb(s, c).freq[626] == s.freq[626] + 1,
    decreases 626 - c,
{
    tree::lemma_bumped(s, c);
    let l = tree::leader(s.freq, c);
    let s2 = tree::bumped(s, c);
    if l < 626 {
        lemma_root_count(s2, tree::parent(s2.son, l));
    }
}

/// In a tree that is built anew, symbols stand before pairs of the same
/// count, and of two pairs of the same count the one of the earlier nodes
/// stands first.
pub proof fn law_rebuilt_ties(s: Shape, i: int, j: int)
    requires
        tree::wf(s),
        0 <= i < j < 627,
        tree::rebuilt(s).freq[i] == tree::rebuilt(s).freq[j],
        tree::rebuilt(s).son[i] < 627,
    ensures
        tree::rebuilt(s).son[i] < tree::rebuilt(s).son[j] < 627,
{
    tree::lemma_half_built_from(s);
    let lc = tree::leaf_counts(s, 627);
    let ls = tree::leaf_sons(s, 627);
    lemma_ties(lc, ls, 0, tree::sum(lc));
    let t = tree::rebuilt(s);
    tree::lemma_rebuilt(s);
    assert(t.son[i] < 627 && t.freq[i] == t.freq[j]);
}

spec fn ties_settled(freq: Seq<usize>, son: Seq<usize>) -> bool {
    forall|a: int, b: int|
        0 <= a < b < son.len() && #[trigger] freq[a] == #[trigger] freq[b] && son[a] < 627
            ==> son[a] < son[b] < 627
}

proof fn lemma_tie(freq: Seq<usize>, son: Seq<usize>, i: usize, f: usize, k: int)
    requires
        freq.len() == son.len(),
        0 <= k <= son.len(),
        i < 627,
        ties_settled(freq, son),
        forall|p: int| 0 <= p < son.len() && (#[trigger] son[p]) < 627 ==> son[p] < i,
        forall|j: int| k <= j < son.len() ==> f < #[trigger] freq[j],
    ensures
        ties_settled(freq.insert(k, f), son.insert(k, i)),
{
    let (freq2, son2) = (freq.insert(k, f), son.insert(k, i));
    assert forall|a: int, b: int|
        0 <= a < b < son2.len() && #[trigger] freq2[a] == #[trigger] freq2[b] && son2[a]
            < 627 implies son2[a] < son2[b] < 627 by {
        let x = if a < k {
            a
        } else {
            a - 1
        };
        let y = if b < k {
            b
        } else {
            b - 1
        };
        if a == k {
            assert(f < freq[y]);
            assert(freq2[b] == freq[y]);
        } else if b == k {
            assert(son2[a] == son[x]);
            assert(son[x] < i);
        } else {
            assert(freq2[a] == freq[x] && freq2[b] == freq[y]);
            assert(son2[a] == son[x] && son2[b] == son[y]);
            assert(son[x] < i);
        }
    }
}

#[verifier::spinoff_prover]
#[verifier::rlimit(40)]
proof fn lemma_ties(freq: Seq<usize>, son: Seq<usize>, i: int, total: int)
    requires
        tree::half_built(freq, son, i, total),
        i == 0 || ties_settled(freq, son),
    ensures
        ties_settled(tree::grown(freq, son, i).freq, tree::grown(freq, son, i).son),
    decreases 627 - freq.len(),
{
    if freq.len() < 627 {
        tree::lemma_join(freq, son, i, total);
        let n = freq.len() as int;
        let f = freq[i] + freq[i + 1];
        let k = tree::slot(freq, f, n);
        tree::lemma_slot(freq, f, n);
        if i == 0 {
            assert(ties_settled(freq, son));
        }
        lemma_tie(freq, son, i as usize, f as usize, k);
        let (freq2, son2) = (freq.insert(k, f as usize), son.insert(k, i as usize));
        assert(tree::grown(freq, son, i) == tree::grown(freq2, son2, i + 2));
        lemma_ties(freq2, son2, i + 2, total);
    } else {
        let g = tree::grown(freq, son, i);
        assert forall|a: int, b: int|
            0 <= a < b < g.son.len() && #[trigger] g.freq[a] == #[trigger] g.freq[b] && g.son[a]
                < 627 implies g.son[a] < g.son[b] < 627 by {
            assert(freq[a] == freq[b]);
        }
    }
}

// ---------------------------------------------------------------------
// Codes

/// The node that some turns lead to from the root: at each node a zero leads
/// to the first of the two nodes below it, a one to the second.
pub open spec fn reached(son: Seq<usize>, turns: Seq<bool>) -> int
    decreases turns.len(),
{
    if turns.len() == 0 {
        626
    } else {
        son[reached(son, turns.drop_last())] + if turns.last() {
            1int
        } else {
            0
        }
    }
}

/// The bits of a symbol lead from the root to the node that holds it.
pub proof fn law_bits_lead_to_the_symbol(s: Shape, symbol: int)
    requires
        tree::wf(s),
        0 <= symbol < 314,
    ensures
        s.son[reached(s.son, tree::symbol_bits(s, symbol))] == 627 + symbol,
{
    tree::lemma_parent_above(s.son, symbol + 627);
    lemma_reached(s.son, tree::parent(s.son, symbol + 627));
}

proof fn lemma_reached(son: Seq<usize>, k: int)
    requires
        tree::tree_ok(son),
        0 <= k < 627,
    ensures
        reached(son, tree::path(son, k)) == k,
    decreases 626 - k,
{
    if k < 626 {
        tree::lemma_parent_above(son, k);
        let p = tree::parent(son, k);
        lemma_reached(son, p);
        let turns = tree::path(son, k);
        assert(turns.drop_last() =~= tree::path(son, p));
    }
}

} // verus!
