//! The canonical word of a permutation is a positive permutation braid that
//! ends in the permutation, and so is the word of the half twist.

use vstd::prelude::*;
use crate::braid::crossings::lemma_simple_inversion;
use crate::braid::segments::{
    crosses_once, crossing, fits, is_simple, lemma_walk_concat, same_pair,
};
use crate::braid::{canonical_upto, canonical_word, descent, half_twist_upto, half_twist_word};
use crate::permutation::{lemma_place_of, place_of};
use crate::strands::{
    cross, identity, is_arrangement, lemma_identity_arrangement, lemma_walk_arrangement,
    reversal, walk,
};

verus! {

/// At every step of the walk of `w` from `start` the strand that comes
/// from the left has the smaller name.
pub open spec fn ascending(start: Seq<usize>, w: Seq<usize>) -> bool {
    forall|t: int|
        0 <= t < w.len() ==> (#[trigger] crossing(start, w, t)).0 < crossing(start, w, t).1
}

/// A walk in which only strands that stand in order cross is a permutation
/// braid.
pub proof fn lemma_ascending_simple(n: nat, w: Seq<usize>, t: int)
    requires
        n <= usize::MAX,
        fits(w, n),
        ascending(identity(n), w),
        0 <= t <= w.len(),
    ensures
        crosses_once(identity(n), w, 0, t),
    decreases t,
{
    let id = identity(n);
    if t > 0 {
        lemma_ascending_simple(n, w, t - 1);
        assert forall|u: int, v: int| 0 <= u < v < t implies !same_pair(
            #[trigger] crossing(id, w, u),
            #[trigger] crossing(id, w, v),
        ) by {
            if v == t - 1 {
                let c = crossing(id, w, v);
                let e = walk(id, w.take(v));
                lemma_identity_arrangement(n);
                lemma_walk_arrangement(id, w.take(v));
                assert(c.0 < c.1);
                lemma_simple_inversion(n, w, v, c.0, c.1);
                lemma_place_of(e, c.0);
                lemma_place_of(e, c.1);
                assert(e[w[v] - 1] == c.0 && e[w[v] as int] == c.1);
                assert(place_of(e, c.0) == w[v]);
                assert(place_of(e, c.1) == w[v] + 1);
            }
        }
    }
}

/// Two walks in a row in which only strands in order cross make one such
/// walk.
pub proof fn lemma_ascending_concat(start: Seq<usize>, a: Seq<usize>, b: Seq<usize>)
    requires
        ascending(start, a),
        ascending(walk(start, a), b),
    ensures
        ascending(start, a + b),
{
    let w = a + b;
    assert forall|t: int| 0 <= t < w.len() implies (#[trigger] crossing(start, w, t)).0
        < crossing(start, w, t).1 by {
        if t < a.len() {
            assert(w.take(t) =~= a.take(t));
            assert(crossing(start, w, t) == crossing(start, a, t));
        } else {
            let u = t - a.len();
            assert(w.take(t) =~= a + b.take(u));
            lemma_walk_concat(start, a, b.take(u));
            assert(crossing(start, w, t) == crossing(walk(start, a), b, u));
        }
    }
}

/// The strand at position `hi` passes to the left over the strands at the
/// positions `lo..hi`, all of which have smaller names: it arrives at `lo`,
/// they move one position to the right, and only strands in order cross.
pub proof fn lemma_run(e: Seq<usize>, hi: int, lo: int)
    requires
        e.len() <= usize::MAX,
        1 <= lo <= hi <= e.len(),
        forall|k: int| lo - 1 <= k < hi - 1 ==> #[trigger] e[k] < e[hi - 1],
    ensures
        walk(e, descent(hi, lo)).len() == e.len(),
        forall|k: int| 0 <= k < lo - 1 || hi <= k < e.len() ==> walk(e, descent(hi, lo))[k] == e[k],
        walk(e, descent(hi, lo))[lo - 1] == e[hi - 1],
        forall|k: int| lo <= k < hi ==> walk(e, descent(hi, lo))[k] == e[k - 1],
        ascending(e, descent(hi, lo)),
        forall|k: int| 0 <= k < descent(hi, lo).len() ==> lo <= #[trigger] descent(hi, lo)[k] < hi,
    decreases hi - lo,
{
    let run = descent(hi, lo);
    if lo == hi {
        assert(run =~= Seq::<usize>::empty());
    } else {
        let shorter = descent(hi, lo + 1);
        lemma_run(e, hi, lo + 1);
        assert(run =~= shorter.push(lo as usize));
        assert(run.drop_last() =~= shorter);
        let mid = walk(e, shorter);
        assert(run.last() == lo);
        assert(walk(e, run) == cross(mid, lo));
        assert forall|t: int| 0 <= t < run.len() implies (#[trigger] crossing(e, run, t)).0
            < crossing(e, run, t).1 by {
            if t < shorter.len() {
                assert(run.take(t) =~= shorter.take(t));
                assert(crossing(e, run, t) == crossing(e, shorter, t));
            } else {
                assert(run.take(t) =~= shorter);
                assert(run[t] == lo);
                assert(mid[lo] == e[hi - 1]);
                assert(mid[lo - 1] == e[lo - 1]);
                assert(e[lo - 1] < e[hi - 1]);
                assert(crossing(e, run, t) == (mid[lo - 1], mid[lo]));
            }
        }
    }
}

/// What holds of the canonical word after phase `p`: the first `p` strands
/// are in place, the others stand in the order of their names, and only
/// strands in order have crossed.
pub proof fn lemma_canonical_upto(perm: Seq<usize>, p: nat)
    requires
        is_arrangement(perm),
        perm.len() <= usize::MAX,
        p < perm.len() || p == 0,
    ensures
        fits(canonical_upto(perm, p), perm.len()),
        is_arrangement(walk(identity(perm.len()), canonical_upto(perm, p))),
        walk(identity(perm.len()), canonical_upto(perm, p)).len() == perm.len(),
        forall|k: int|
            0 <= k < p ==> walk(identity(perm.len()), canonical_upto(perm, p))[k] == perm[k],
        forall|k: int, m: int|
            p <= k < m < perm.len() ==> walk(identity(perm.len()), canonical_upto(perm, p))[k]
                < walk(identity(perm.len()), canonical_upto(perm, p))[m],
        ascending(identity(perm.len()), canonical_upto(perm, p)),
    decreases p,
{
    let n = perm.len();
    let id = identity(n);
    lemma_identity_arrangement(n);
    if p == 0 {
        assert(canonical_upto(perm, 0) =~= Seq::<usize>::empty());
    } else {
        let before = canonical_upto(perm, (p - 1) as nat);
        lemma_canonical_upto(perm, (p - 1) as nat);
        let e = walk(id, before);
        let target = perm[p - 1];
        lemma_place_of(e, target);
        let s = place_of(e, target);
        if s < p {
            assert(e[s - 1] == perm[s - 1]);
            assert(perm[s - 1] != perm[p - 1]);
        }
        let run = descent(s, p as int);
        lemma_run(e, s, p as int);
        lemma_walk_concat(id, before, run);
        lemma_ascending_concat(id, before, run);
        let w = before + run;
        assert(w == canonical_upto(perm, p));
        lemma_walk_arrangement(id, w);
        let f = walk(id, w);
        assert forall|k: int, m: int| p <= k < m < n implies f[k] < f[m] by {
            // both come from the strands that stood in order, without the
            // one that has gone to its place
            let ok = if k < s {
                k - 1
            } else {
                k
            };
            let om = if m < s {
                m - 1
            } else {
                m
            };
            assert(f[k] == e[ok] && f[m] == e[om]);
            assert(p - 1 <= ok < om < n);
        }
    }
}

/// The canonical word of a permutation is a positive permutation braid in
/// which the strands end as the permutation says.
pub proof fn lemma_canonical_word(perm: Seq<usize>)
    requires
        is_arrangement(perm),
        perm.len() <= usize::MAX,
    ensures
        fits(canonical_word(perm), perm.len()),
        walk(identity(perm.len()), canonical_word(perm)) == perm,
        is_simple(perm.len(), canonical_word(perm)),
        ascending(identity(perm.len()), canonical_word(perm)),
{
    let n = perm.len();
    let id = identity(n);
    lemma_identity_arrangement(n);
    if n == 0 {
        assert(walk(id, canonical_word(perm)) =~= perm);
    } else {
        let w = canonical_word(perm);
        lemma_canonical_upto(perm, (n - 1) as nat);
        let e = walk(id, w);
        // the strand that is left belongs at the last position
        lemma_place_of(e, perm[n - 1]);
        let at = place_of(e, perm[n - 1]) - 1;
        if at < n - 1 {
            assert(e[at] == perm[at]);
            assert(perm[at] != perm[n - 1]);
        }
        assert(e =~= perm);
    }
    lemma_ascending_simple(n, canonical_word(perm), canonical_word(perm).len() as int);
}

/// What holds of the word of the half twist after its run `m .. 1`: the
/// first `m + 1` strands stand in reverse order, the others have not
/// moved, and only strands in order have crossed.
pub proof fn lemma_half_twist_upto(n: nat, m: nat)
    requires
        n <= usize::MAX,
        m < n,
    ensures
        fits(half_twist_upto(m), n),
        walk(identity(n), half_twist_upto(m)).len() == n,
        forall|k: int| 0 <= k <= m ==> walk(identity(n), half_twist_upto(m))[k] == m + 1 - k,
        forall|k: int| m < k < n ==> walk(identity(n), half_twist_upto(m))[k] == k + 1,
        ascending(identity(n), half_twist_upto(m)),
    decreases m,
{
    let id = identity(n);
    if m == 0 {
        assert(half_twist_upto(0) =~= Seq::<usize>::empty());
        assert(walk(id, half_twist_upto(0)) == id);
    } else {
        let before = half_twist_upto((m - 1) as nat);
        lemma_half_twist_upto(n, (m - 1) as nat);
        let e = walk(id, before);
        let run = descent(m as int + 1, 1);
        assert forall|k: int| 0 <= k < m implies #[trigger] e[k] < e[m as int] by {
            assert(e[k] == m - k);
            assert(e[m as int] == m + 1);
        }
        lemma_run(e, m as int + 1, 1);
        lemma_walk_concat(id, before, run);
        lemma_ascending_concat(id, before, run);
        assert(half_twist_upto(m) == before + run);
        let f = walk(id, half_twist_upto(m));
        assert(f == walk(e, run));
        assert forall|k: int| m < k < n implies f[k] == k + 1 by {
            assert(f[k] == e[k]);
        }
        assert forall|k: int| 0 <= k <= m implies f[k] == m + 1 - k by {
            if k > 0 {
                assert(f[k] == e[k - 1]);
            }
        }
    }
}

/// The word of the half twist is a positive permutation braid in which the
/// strands end in reverse order.
pub proof fn lemma_half_twist_word(n: nat)
    requires
        n <= usize::MAX,
    ensures
        fits(half_twist_word(n), n),
        walk(identity(n), half_twist_word(n)) == reversal(n),
        is_simple(n, half_twist_word(n)),
        n >= 2 ==> half_twist_word(n).len() > 0,
{
    let id = identity(n);
    if n == 0 {
        assert(walk(id, half_twist_word(n)) =~= reversal(n));
    } else {
        lemma_half_twist_upto(n, (n - 1) as nat);
        assert(walk(id, half_twist_word(n)) =~= reversal(n));
        if n >= 2 {
            assert(half_twist_upto((n - 1) as nat) == half_twist_upto((n - 2) as nat) + descent(
                n as int,
                1,
            ));
        }
    }
    lemma_ascending_simple(n, half_twist_word(n), half_twist_word(n).len() as int);
}

} // verus!
