//! Counting inversions: the measure by which the left-weighting ends.
//!
//! An inversion of an arrangement is a pair of positions at which the left
//! strand has the greater name. A crossing changes the number of inversions
//! by one, and so does taking a crossing off the front of a braid.

use vstd::prelude::*;
use crate::braid::canonical::ascending;
use crate::braid::crossings::{lemma_head_len_is, lemma_segmentation, lemma_simple_inversion};
use crate::braid::segments::{crossing, is_simple, same_pair};
use crate::braid::garside::word_arrangement;
use crate::braid::leftweight::{lemma_in_starting, lemma_outside_finishing};
use crate::braid::segments::lemma_walk_relabel;
use crate::braid::sets::{finishing_seq, starting_seq};
use crate::braid::segments::{fits, head_len, segmentation};
use crate::permutation::{lemma_place_of, place_of};
use crate::strands::{
    cross, identity, is_arrangement, lemma_exchange_arrangement, lemma_identity_arrangement,
    lemma_walk_arrangement, walk,
};

verus! {

/// How many of the first `m` strands of `e` have a name greater than `v`.
pub open spec fn greater_before(e: Seq<usize>, v: usize, m: int) -> nat
    decreases m,
{
    if m <= 0 {
        0
    } else {
        greater_before(e, v, m - 1) + if e[m - 1] > v {
            1nat
        } else {
            0nat
        }
    }
}

/// The number of inversions of `e` whose right position is among the first
/// `m`.
pub open spec fn inversions_upto(e: Seq<usize>, m: int) -> nat
    decreases m,
{
    if m <= 0 {
        0
    } else {
        inversions_upto(e, m - 1) + greater_before(e, e[m - 1], m - 1)
    }
}

/// The number of inversions of `e`.
pub open spec fn inversions(e: Seq<usize>) -> nat {
    inversions_upto(e, e.len() as int)
}

/// The arrangement with the names `j` and `j + 1` exchanged.
pub open spec fn renamed(e: Seq<usize>, j: usize) -> Seq<usize> {
    Seq::new(
        e.len(),
        |k: int|
            if e[k] == j {
                (j + 1) as usize
            } else if e[k] == j + 1 {
                j
            } else {
                e[k]
            },
    )
}

proof fn lemma_greater_before_agree(e: Seq<usize>, f: Seq<usize>, v: usize, m: int)
    requires
        0 <= m <= e.len(),
        m <= f.len(),
        forall|p: int| 0 <= p < m ==> e[p] == f[p],
    ensures
        greater_before(e, v, m) == greater_before(f, v, m),
    decreases m,
{
    if m > 0 {
        lemma_greater_before_agree(e, f, v, m - 1);
    }
}

proof fn lemma_greater_before_cross(e: Seq<usize>, j: int, v: usize, m: int)
    requires
        1 <= j < e.len(),
        j + 1 <= m <= e.len(),
    ensures
        greater_before(cross(e, j), v, m) == greater_before(e, v, m),
    decreases m,
{
    let f = cross(e, j);
    if m == j + 1 {
        lemma_greater_before_agree(e, f, v, j - 1);
        assert(greater_before(f, v, j) == greater_before(f, v, j - 1) + if f[j - 1] > v {
            1nat
        } else {
            0nat
        });
        assert(greater_before(e, v, j) == greater_before(e, v, j - 1) + if e[j - 1] > v {
            1nat
        } else {
            0nat
        });
        assert(f[j - 1] == e[j] && f[j] == e[j - 1]);
    } else {
        lemma_greater_before_cross(e, j, v, m - 1);
        assert(f[m - 1] == e[m - 1]);
    }
}

proof fn lemma_inversions_upto_cross(e: Seq<usize>, j: int, m: int)
    requires
        1 <= j < e.len(),
        0 <= m <= e.len(),
        e[j - 1] != e[j],
    ensures
        m <= j - 1 ==> inversions_upto(cross(e, j), m) == inversions_upto(e, m),
        m >= j + 1 && e[j - 1] < e[j] ==> inversions_upto(cross(e, j), m) == inversions_upto(e, m)
            + 1,
        m >= j + 1 && e[j - 1] > e[j] ==> inversions_upto(cross(e, j), m) + 1 == inversions_upto(
            e,
            m,
        ),
    decreases m,
{
    let f = cross(e, j);
    if m > 0 {
        lemma_inversions_upto_cross(e, j, m - 1);
        if m <= j - 1 {
            lemma_greater_before_agree(e, f, e[m - 1], m - 1);
            assert(f[m - 1] == e[m - 1]);
        } else if m == j + 1 {
            // the two terms of the positions that change places
            lemma_inversions_upto_cross(e, j, j - 1);
            assert(inversions_upto(f, j + 1) == inversions_upto(f, j) + greater_before(
                f,
                f[j],
                j,
            ));
            assert(inversions_upto(f, j) == inversions_upto(f, j - 1) + greater_before(
                f,
                f[j - 1],
                j - 1,
            ));
            assert(inversions_upto(e, j + 1) == inversions_upto(e, j) + greater_before(
                e,
                e[j],
                j,
            ));
            assert(inversions_upto(e, j) == inversions_upto(e, j - 1) + greater_before(
                e,
                e[j - 1],
                j - 1,
            ));
            assert(f[j - 1] == e[j] && f[j] == e[j - 1]);
            lemma_greater_before_agree(e, f, e[j], j - 1);
            lemma_greater_before_agree(e, f, e[j - 1], j - 1);
            assert(greater_before(f, e[j - 1], j) == greater_before(f, e[j - 1], j - 1) + if f[j
                - 1] > e[j - 1] {
                1nat
            } else {
                0nat
            });
            assert(greater_before(e, e[j], j) == greater_before(e, e[j], j - 1) + if e[j - 1]
                > e[j] {
                1nat
            } else {
                0nat
            });
        } else if m > j + 1 {
            lemma_greater_before_cross(e, j, e[m - 1], m - 1);
            assert(f[m - 1] == e[m - 1]);
        }
    }
}

/// A crossing of two strands that stand in order adds an inversion; a
/// crossing of two that do not takes one away.
pub proof fn lemma_inversions_cross(e: Seq<usize>, j: int)
    requires
        is_arrangement(e),
        1 <= j < e.len(),
    ensures
        e[j - 1] < e[j] ==> inversions(cross(e, j)) == inversions(e) + 1,
        e[j - 1] > e[j] ==> inversions(cross(e, j)) + 1 == inversions(e),
        e[j - 1] != e[j],
{
    assert(e[j - 1] != e[j]);
    lemma_inversions_upto_cross(e, j, e.len() as int);
}

proof fn lemma_greater_before_identity(n: nat, v: usize, m: int)
    requires
        n <= usize::MAX,
        0 <= m <= n,
        m <= v,
    ensures
        greater_before(identity(n), v, m) == 0,
    decreases m,
{
    if m > 0 {
        lemma_greater_before_identity(n, v, m - 1);
    }
}

proof fn lemma_inversions_upto_identity(n: nat, m: int)
    requires
        n <= usize::MAX,
        0 <= m <= n,
    ensures
        inversions_upto(identity(n), m) == 0,
    decreases m,
{
    if m > 0 {
        lemma_inversions_upto_identity(n, m - 1);
        lemma_greater_before_identity(n, m as usize, m - 1);
    }
}

/// A braid inverts no more pairs of strands than it has crossings.
pub proof fn lemma_walk_inversions(n: nat, w: Seq<usize>)
    requires
        n <= usize::MAX,
        fits(w, n),
    ensures
        inversions(word_arrangement(n, w)) <= w.len(),
    decreases w.len(),
{
    lemma_identity_arrangement(n);
    if w.len() == 0 {
        lemma_inversions_upto_identity(n, n as int);
    } else {
        let front = w.drop_last();
        lemma_walk_inversions(n, front);
        lemma_walk_arrangement(identity(n), front);
        lemma_inversions_cross(walk(identity(n), front), w.last() as int);
    }
}

proof fn lemma_rename_term(e: Seq<usize>, j: usize, q: int, m: int)
    requires
        is_arrangement(e),
        e.len() <= usize::MAX,
        1 <= j < e.len(),
        0 <= m <= q < e.len(),
        place_of(e, j) > place_of(e, (j + 1) as usize),
    ensures
        greater_before(renamed(e, j), renamed(e, j)[q], m) + (if e[q] == j && place_of(
            e,
            (j + 1) as usize,
        ) - 1 < m {
            1nat
        } else {
            0nat
        }) == greater_before(e, e[q], m),
    decreases m,
{
    let f = renamed(e, j);
    let next = (j + 1) as usize;
    lemma_place_of(e, j);
    lemma_place_of(e, next);
    if m > 0 {
        lemma_rename_term(e, j, q, m - 1);
        let p = m - 1;
        assert(e[p] != e[q]);
        if e[q] == next && e[p] == j {
            // `j` would stand left of `j + 1`
            assert(false);
        }
    }
}

proof fn lemma_rename_upto(e: Seq<usize>, j: usize, m: int)
    requires
        is_arrangement(e),
        e.len() <= usize::MAX,
        1 <= j < e.len(),
        0 <= m <= e.len(),
        place_of(e, j) > place_of(e, (j + 1) as usize),
    ensures
        inversions_upto(renamed(e, j), m) + (if place_of(e, j) - 1 < m {
            1nat
        } else {
            0nat
        }) == inversions_upto(e, m),
    decreases m,
{
    lemma_place_of(e, j);
    lemma_place_of(e, (j + 1) as usize);
    if m > 0 {
        lemma_rename_upto(e, j, m - 1);
        lemma_rename_term(e, j, m - 1, m - 1);
    }
}

/// Where the strand `j` ends right of the strand `j + 1`, exchanging the
/// two names takes one inversion away.
pub proof fn lemma_inversions_renamed(e: Seq<usize>, j: usize)
    requires
        is_arrangement(e),
        e.len() <= usize::MAX,
        1 <= j < e.len(),
        place_of(e, j) > place_of(e, (j + 1) as usize),
    ensures
        inversions(renamed(e, j)) + 1 == inversions(e),
{
    lemma_place_of(e, j);
    lemma_rename_upto(e, j, e.len() as int);
}

/// The crossings of all the factors, counted each with the place of its
/// factor in the list: what the left-weighting uses up. A crossing that
/// moves one factor to the left lowers it by one.
pub open spec fn weight(n: nat, fs: Seq<Seq<usize>>) -> nat
    decreases fs.len(),
{
    if fs.len() == 0 {
        0
    } else {
        weight(n, fs.drop_last()) + (fs.len() - 1) as nat * inversions(
            word_arrangement(n, fs.last()),
        )
    }
}

/// The number of crossings of all the words of a list.
pub open spec fn total_len(fs: Seq<Seq<usize>>) -> nat
    decreases fs.len(),
{
    if fs.len() == 0 {
        0
    } else {
        total_len(fs.drop_last()) + fs.last().len()
    }
}

/// How the weight changes when the factor at `k` is replaced.
pub proof fn lemma_weight_update(n: nat, fs: Seq<Seq<usize>>, k: int, x: Seq<usize>)
    requires
        0 <= k < fs.len(),
    ensures
        weight(n, fs.update(k, x)) + k * inversions(word_arrangement(n, fs[k])) == weight(n, fs)
            + k * inversions(word_arrangement(n, x)),
    decreases fs.len(),
{
    let gs = fs.update(k, x);
    if k == fs.len() - 1 {
        assert(gs.drop_last() =~= fs.drop_last());
        assert(gs.last() == x);
    } else {
        assert(gs.drop_last() =~= fs.drop_last().update(k, x));
        assert(gs.last() == fs.last());
        lemma_weight_update(n, fs.drop_last(), k, x);
    }
}

/// Taking out a factor that inverts nothing does not raise the weight.
pub proof fn lemma_weight_remove(n: nat, fs: Seq<Seq<usize>>, k: int)
    requires
        0 <= k < fs.len(),
        inversions(word_arrangement(n, fs[k])) == 0,
    ensures
        weight(n, fs.remove(k)) <= weight(n, fs),
    decreases fs.len(),
{
    let gs = fs.remove(k);
    if k == fs.len() - 1 {
        assert(gs =~= fs.drop_last());
    } else {
        assert(gs.drop_last() =~= fs.drop_last().remove(k));
        assert(gs.last() == fs.last());
        lemma_weight_remove(n, fs.drop_last(), k);
        let t = inversions(word_arrangement(n, fs.last()));
        let a = (fs.len() - 2) as nat;
        assert(a * t <= (a + 1) * t) by (nonlinear_arith);
    }
}

/// The weight is at most the number of factors times the number of
/// crossings.
pub proof fn lemma_weight_bound(n: nat, fs: Seq<Seq<usize>>)
    requires
        n <= usize::MAX,
        forall|k: int| 0 <= k < fs.len() ==> fits(#[trigger] fs[k], n),
    ensures
        weight(n, fs) <= fs.len() * total_len(fs),
    decreases fs.len(),
{
    if fs.len() > 0 {
        let front = fs.drop_last();
        assert forall|k: int| 0 <= k < front.len() implies fits(#[trigger] front[k], n) by {
            assert(front[k] == fs[k]);
        }
        lemma_weight_bound(n, front);
        lemma_walk_inversions(n, fs.last());
        let t = inversions(word_arrangement(n, fs.last()));
        let l = fs.last().len();
        let c = front.len();
        let s = total_len(front);
        assert(c * s + c * t <= (c + 1) * (s + l)) by (nonlinear_arith)
            requires
                t <= l,
        ;
    }
}

proof fn lemma_total_len_front(x: Seq<usize>, rest: Seq<Seq<usize>>)
    ensures
        total_len(seq![x] + rest) == x.len() + total_len(rest),
    decreases rest.len(),
{
    let all = seq![x] + rest;
    if rest.len() == 0 {
        assert(all.drop_last() =~= Seq::<Seq<usize>>::empty());
        assert(all.last() == x);
        assert(total_len(all.drop_last()) == 0);
    } else {
        assert(all.drop_last() =~= seq![x] + rest.drop_last());
        assert(all.last() == rest.last());
        lemma_total_len_front(x, rest.drop_last());
    }
}

/// The pieces of the greedy cut have the crossings of the word between
/// them, and there are no more pieces than crossings.
pub proof fn lemma_segmentation_len(n: nat, w: Seq<usize>)
    ensures
        total_len(segmentation(n, w)) == w.len(),
        segmentation(n, w).len() <= w.len(),
    decreases w.len(),
{
    if w.len() > 0 {
        lemma_head_len_is(n, w);
        let m = head_len(n, w);
        lemma_segmentation_len(n, w.skip(m as int));
        lemma_total_len_front(w.take(m as int), segmentation(n, w.skip(m as int)));
    }
}

/// The identity has no inversions.
pub proof fn lemma_inversions_identity(n: nat)
    requires
        n <= usize::MAX,
    ensures
        inversions(identity(n)) == 0,
{
    lemma_inversions_upto_identity(n, n as int);
}

/// Moving the crossing `j` from the front of the factor at `i + 1` to the
/// end of the factor at `i` lowers the weight by one.
pub proof fn lemma_move_weight(
    n: nat,
    fs: Seq<Seq<usize>>,
    i: int,
    j: usize,
    grown: Seq<usize>,
    cut: Seq<usize>,
)
    requires
        n <= usize::MAX,
        0 <= i,
        i + 1 < fs.len(),
        fits(fs[i], n),
        fits(fs[i + 1], n),
        1 <= j < n,
        !finishing_seq(word_arrangement(n, fs[i])).contains(j),
        starting_seq(word_arrangement(n, fs[i + 1])).contains(j),
        word_arrangement(n, grown) == cross(word_arrangement(n, fs[i]), j as int),
        word_arrangement(n, cut) == walk(cross(identity(n), j as int), fs[i + 1]),
    ensures
        weight(n, fs.update(i, grown).update(i + 1, cut)) + 1 == weight(n, fs),
        total_inversions(n, fs.update(i, grown).update(i + 1, cut)) == total_inversions(n, fs),
{
    let id = identity(n);
    let ea = word_arrangement(n, fs[i]);
    let eb = word_arrangement(n, fs[i + 1]);
    let tau = cross(id, j as int);
    lemma_identity_arrangement(n);
    lemma_walk_arrangement(id, fs[i]);
    lemma_walk_arrangement(id, fs[i + 1]);
    lemma_exchange_arrangement(id, j as int, j + 1);
    // the first factor gains an inversion
    lemma_outside_finishing(ea, j);
    lemma_inversions_cross(ea, j as int);
    // the second loses one
    lemma_in_starting(eb, j);
    lemma_walk_relabel(tau, fs[i + 1]);
    assert(walk(tau, fs[i + 1]) =~= renamed(eb, j));
    lemma_inversions_renamed(eb, j);
    let ta = inversions(ea);
    let tb = inversions(word_arrangement(n, cut));
    let mid = fs.update(i, grown);
    lemma_weight_update(n, fs, i, grown);
    lemma_weight_update(n, mid, i + 1, cut);
    lemma_total_update(n, fs, i, grown);
    lemma_total_update(n, mid, i + 1, cut);
    assert(mid[i + 1] == fs[i + 1]);
    assert(i * (ta + 1) == i * ta + i) by (nonlinear_arith);
    assert((i + 1) * (tb + 1) == (i + 1) * tb + i + 1) by (nonlinear_arith);
}

/// The pairs of strands that all the factors of a list invert, counted
/// factor by factor.
pub open spec fn total_inversions(n: nat, fs: Seq<Seq<usize>>) -> nat
    decreases fs.len(),
{
    if fs.len() == 0 {
        0
    } else {
        total_inversions(n, fs.drop_last()) + inversions(word_arrangement(n, fs.last()))
    }
}

/// How the count changes when the factor at `k` is replaced.
pub proof fn lemma_total_update(n: nat, fs: Seq<Seq<usize>>, k: int, x: Seq<usize>)
    requires
        0 <= k < fs.len(),
    ensures
        total_inversions(n, fs.update(k, x)) + inversions(word_arrangement(n, fs[k]))
            == total_inversions(n, fs) + inversions(word_arrangement(n, x)),
    decreases fs.len(),
{
    let gs = fs.update(k, x);
    if k == fs.len() - 1 {
        assert(gs.drop_last() =~= fs.drop_last());
        assert(gs.last() == x);
    } else {
        assert(gs.drop_last() =~= fs.drop_last().update(k, x));
        assert(gs.last() == fs.last());
        lemma_total_update(n, fs.drop_last(), k, x);
    }
}

/// Taking out a factor that inverts nothing leaves the count.
pub proof fn lemma_total_remove(n: nat, fs: Seq<Seq<usize>>, k: int)
    requires
        0 <= k < fs.len(),
        inversions(word_arrangement(n, fs[k])) == 0,
    ensures
        total_inversions(n, fs.remove(k)) == total_inversions(n, fs),
    decreases fs.len(),
{
    let gs = fs.remove(k);
    if k == fs.len() - 1 {
        assert(gs =~= fs.drop_last());
    } else {
        assert(gs.drop_last() =~= fs.drop_last().remove(k));
        assert(gs.last() == fs.last());
        lemma_total_remove(n, fs.drop_last(), k);
    }
}

/// In a walk in which only strands in order cross, every crossing makes an
/// inversion.
pub proof fn lemma_ascending_inversions(n: nat, w: Seq<usize>, t: int)
    requires
        n <= usize::MAX,
        fits(w, n),
        ascending(identity(n), w),
        0 <= t <= w.len(),
    ensures
        inversions(walk(identity(n), w.take(t))) == t,
    decreases t,
{
    let id = identity(n);
    lemma_identity_arrangement(n);
    if t == 0 {
        assert(w.take(0) =~= Seq::<usize>::empty());
        lemma_inversions_identity(n);
    } else {
        lemma_ascending_inversions(n, w, t - 1);
        let e = walk(id, w.take(t - 1));
        lemma_walk_arrangement(id, w.take(t - 1));
        assert(w.take(t).drop_last() =~= w.take(t - 1));
        let c = crossing(id, w, t - 1);
        assert(c.0 < c.1);
        lemma_inversions_cross(e, w[t - 1] as int);
    }
}

/// In a permutation braid only strands in order cross.
pub proof fn lemma_simple_ascending(n: nat, w: Seq<usize>)
    requires
        n <= usize::MAX,
        fits(w, n),
        is_simple(n, w),
    ensures
        ascending(identity(n), w),
        inversions(word_arrangement(n, w)) == w.len(),
{
    let id = identity(n);
    lemma_identity_arrangement(n);
    assert forall|t: int| 0 <= t < w.len() implies (#[trigger] crossing(id, w, t)).0 < crossing(
        id,
        w,
        t,
    ).1 by {
        let e = walk(id, w.take(t));
        let c = crossing(id, w, t);
        lemma_walk_arrangement(id, w.take(t));
        lemma_place_of(e, c.0);
        lemma_place_of(e, c.1);
        assert(e[w[t] - 1] != e[w[t] as int]);
        if c.0 > c.1 {
            // the two stand inverted, so they have crossed before
            lemma_simple_inversion(n, w, t, c.1, c.0);
            let u = choose|u: int|
                0 <= u < t && same_pair(#[trigger] crossing(id, w, u), (c.1, c.0));
            assert(same_pair(crossing(id, w, u), crossing(id, w, t)));
        }
    }
    lemma_ascending_inversions(n, w, w.len() as int);
    assert(w.take(w.len() as int) =~= w);
}

/// Lists of permutation braids invert as many pairs as they have crossings.
pub proof fn lemma_total_simple(n: nat, fs: Seq<Seq<usize>>)
    requires
        n <= usize::MAX,
        forall|k: int| 0 <= k < fs.len() ==> fits(#[trigger] fs[k], n) && is_simple(n, fs[k]),
    ensures
        total_inversions(n, fs) == total_len(fs),
    decreases fs.len(),
{
    if fs.len() > 0 {
        let front = fs.drop_last();
        assert forall|k: int| 0 <= k < front.len() implies fits(#[trigger] front[k], n)
            && is_simple(n, front[k]) by {
            assert(front[k] == fs[k]);
        }
        lemma_total_simple(n, front);
        lemma_simple_ascending(n, fs.last());
    }
}

/// The pieces of the greedy cut invert as many pairs as the word has
/// crossings.
pub proof fn lemma_segmentation_total(n: nat, w: Seq<usize>)
    requires
        n <= usize::MAX,
        fits(w, n),
    ensures
        total_inversions(n, segmentation(n, w)) == w.len(),
{
    lemma_segmentation(n, w);
    lemma_segmentation_len(n, w);
    lemma_total_simple(n, segmentation(n, w));
}

} // verus!
