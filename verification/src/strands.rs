//! Strand arrangements: the mathematical model behind permutations and braid
//! walks.
//!
//! An arrangement of `n` strands is a sequence `e` of length `n` whose entry
//! `e[k - 1]` names the strand found at position `k`. Strands are named by the
//! position they started from, so the identity arrangement is `1, 2, .., n`.

use vstd::prelude::*;

verus! {

/// The arrangement in which every strand is where it started.
pub open spec fn identity(n: nat) -> Seq<usize> {
    Seq::new(n, |k: int| (k + 1) as usize)
}

/// The arrangement of the half twist: the strands in reverse order.
pub open spec fn reversal(n: nat) -> Seq<usize> {
    Seq::new(n, |k: int| (n - k) as usize)
}

/// `e` holds each of `1..=e.len()` exactly once.
pub open spec fn is_arrangement(e: Seq<usize>) -> bool {
    &&& forall|k: int| 0 <= k < e.len() ==> 1 <= #[trigger] e[k] <= e.len()
    &&& forall|i: int, j: int| 0 <= i < j < e.len() ==> e[i] != e[j]
}

/// `e` with the strands at positions `a` and `b` (counted from 1) exchanged;
/// `e` itself where a position is out of range.
pub open spec fn exchange(e: Seq<usize>, a: int, b: int) -> Seq<usize> {
    if 1 <= a <= e.len() && 1 <= b <= e.len() {
        e.update(a - 1, e[b - 1]).update(b - 1, e[a - 1])
    } else {
        e
    }
}

/// The effect of the generator with index `i`: the strands at positions `i`
/// and `i + 1` cross.
pub open spec fn cross(e: Seq<usize>, i: int) -> Seq<usize> {
    exchange(e, i, i + 1)
}

/// The arrangement reached from `start` by the crossings `w`, first to last.
pub open spec fn walk(start: Seq<usize>, w: Seq<usize>) -> Seq<usize>
    decreases w.len(),
{
    if w.len() == 0 {
        start
    } else {
        cross(walk(start, w.drop_last()), w.last() as int)
    }
}

/// A walk never changes the number of strands.
pub proof fn lemma_walk_len(start: Seq<usize>, w: Seq<usize>)
    ensures
        walk(start, w).len() == start.len(),
    decreases w.len(),
{
    if w.len() > 0 {
        lemma_walk_len(start, w.drop_last());
    }
}

/// Exchanging two positions of an arrangement gives an arrangement.
pub proof fn lemma_exchange_arrangement(e: Seq<usize>, a: int, b: int)
    requires
        is_arrangement(e),
    ensures
        is_arrangement(exchange(e, a, b)),
        exchange(e, a, b).len() == e.len(),
{
    let f = exchange(e, a, b);
    if 1 <= a <= e.len() && 1 <= b <= e.len() {
        assert forall|i: int, j: int| 0 <= i < j < f.len() implies f[i] != f[j] by {
            let oi = if i == a - 1 { b - 1 } else if i == b - 1 { a - 1 } else { i };
            let oj = if j == a - 1 { b - 1 } else if j == b - 1 { a - 1 } else { j };
            assert(f[i] == e[oi]);
            assert(f[j] == e[oj]);
            assert(oi != oj);
            if oi < oj {
                assert(e[oi] != e[oj]);
            } else {
                assert(e[oj] != e[oi]);
            }
        }
        assert forall|k: int| 0 <= k < f.len() implies 1 <= #[trigger] f[k] <= f.len() by {
            let ok = if k == a - 1 { b - 1 } else if k == b - 1 { a - 1 } else { k };
            assert(f[k] == e[ok]);
        }
    }
}

/// A walk that starts from an arrangement ends in one.
pub proof fn lemma_walk_arrangement(start: Seq<usize>, w: Seq<usize>)
    requires
        is_arrangement(start),
    ensures
        is_arrangement(walk(start, w)),
        walk(start, w).len() == start.len(),
    decreases w.len(),
{
    if w.len() > 0 {
        lemma_walk_arrangement(start, w.drop_last());
        let mid = walk(start, w.drop_last());
        lemma_exchange_arrangement(mid, w.last() as int, w.last() as int + 1);
    }
}

/// The identity is an arrangement.
pub proof fn lemma_identity_arrangement(n: nat)
    requires
        n <= usize::MAX,
    ensures
        is_arrangement(identity(n)),
        identity(n).len() == n,
{
}

/// Fills a vector with `1, 2, .., n`.
pub fn identity_vec(n: usize) -> (v: Vec<usize>)
    ensures
        v@ == identity(n as nat),
{
    let mut v: Vec<usize> = Vec::new();
    let mut k: usize = 0;
    while k < n
        invariant
            k <= n,
            v@ == identity(k as nat),
        decreases n - k,
    {
        v.push(k + 1);
        k += 1;
        assert(v@ =~= identity(k as nat));
    }
    v
}

/// Exchanges the entries at positions `a` and `b`, counted from 1.
pub fn exchange_vec(v: &mut Vec<usize>, a: usize, b: usize)
    requires
        1 <= a <= old(v).len(),
        1 <= b <= old(v).len(),
    ensures
        final(v)@ == exchange(old(v)@, a as int, b as int),
{
    let at_a = v[a - 1];
    let at_b = v[b - 1];
    v[b - 1] = at_a;
    v[a - 1] = at_b;
    assert(v@ =~= exchange(old(v)@, a as int, b as int));
}

} // verus!
