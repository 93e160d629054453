//! What the left-weighting keeps true of its factors, and what follows for
//! the factors of the normal form.

use vstd::prelude::*;
use crate::braid::crossings::{
    crossed_before, lemma_place_cross, lemma_place_identity, lemma_simple_inversion,
};
use crate::braid::crossings::{lemma_segmentation, lemma_simple_moves};
use crate::braid::garside::{absorb, all_weighted, weighted, word_arrangement};
use crate::braid::segments::segmentation;
use crate::braid::segments::{
    crossing, fits, is_simple, lemma_crossing_take, lemma_walk_relabel, same_pair,
};
use crate::braid::sets::{finishing_seq, lemma_descents, places, starting_seq};
use crate::ordered_set::covers;
use crate::permutation::{lemma_place_of, place_of};
use crate::strands::{
    cross, identity, is_arrangement, lemma_exchange_arrangement, lemma_identity_arrangement,
    lemma_walk_arrangement, reversal, walk,
};

verus! {

/// The strands that leave `e0` at the positions `x < y` are inverted by
/// `e0`, and the strands that enter `e1` at these positions are inverted by
/// `e1`.
pub open spec fn inverted_by_both(e0: Seq<usize>, e1: Seq<usize>, x: usize, y: usize) -> bool {
    &&& 1 <= x < y <= e0.len()
    &&& e0[x - 1] > e0[y - 1]
    &&& place_of(e1, x) > place_of(e1, y)
}

/// Some two strands are inverted by `e0` and again by `e1`: a braid with
/// these two factors is no permutation braid.
pub open spec fn crossed_by_both(e0: Seq<usize>, e1: Seq<usize>) -> bool {
    exists|x: usize, y: usize| #[trigger] inverted_by_both(e0, e1, x, y)
}

/// The factors of a normal form on `n` strands are as they should be: each
/// is an arrangement that is neither the identity nor the half twist, and
/// each is left-weighted against the next.
pub open spec fn canonical_factors(n: nat, fs: Seq<Seq<usize>>) -> bool {
    &&& forall|k: int|
        0 <= k < fs.len() ==> is_arrangement(#[trigger] fs[k]) && fs[k].len() == n && fs[k]
            != identity(n) && fs[k] != reversal(n)
    &&& forall|k: int|
        0 <= k < fs.len() - 1 ==> covers(
            finishing_seq(#[trigger] fs[k]),
            starting_seq(fs[k + 1]),
        )
}

/// A position that is not in the finishing set holds a smaller strand than
/// the next position.
pub proof fn lemma_outside_finishing(e: Seq<usize>, j: usize)
    requires
        is_arrangement(e),
        e.len() <= usize::MAX,
        1 <= j < e.len(),
    ensures
        finishing_seq(e).contains(j) <==> e[j - 1] > e[j as int],
        !finishing_seq(e).contains(j) <==> e[j - 1] < e[j as int],
{
    lemma_descents(e, (e.len() - 1) as nat);
    assert(e[j - 1] != e[j as int]);
}

/// A position is in the starting set exactly if the strands that start
/// there and at the next position end inverted.
pub proof fn lemma_in_starting(e: Seq<usize>, j: usize)
    requires
        is_arrangement(e),
        e.len() <= usize::MAX,
        1 <= j < e.len(),
    ensures
        starting_seq(e).contains(j) <==> place_of(e, j) > place_of(e, (j + 1) as usize),
{
    lemma_descents(places(e), (e.len() - 1) as nat);
    lemma_place_of(e, j);
    lemma_place_of(e, (j + 1) as usize);
    assert(places(e)[j - 1] == place_of(e, j) as usize);
    assert(places(e)[j as int] == place_of(e, (j + 1) as usize) as usize);
    if place_of(e, j) == place_of(e, (j + 1) as usize) {
        assert(false);
    }
}

/// Where a piece of the greedy cut ends because the next crossing would
/// repeat one of its own, that pair of strands is inverted by the piece and
/// by the piece that follows.
pub proof fn lemma_cut_crossed_by_both(n: nat, a: Seq<usize>, b: Seq<usize>)
    requires
        n <= usize::MAX,
        fits(a, n),
        fits(b, n),
        a.len() > 0,
        b.len() > 0,
        is_simple(n, a),
        is_simple(n, b),
        !is_simple(n, a.push(b[0])),
    ensures
        crossed_by_both(walk(identity(n), a), walk(identity(n), b)),
{
    let id = identity(n);
    let s = b[0];
    let next = (s + 1) as usize;
    let e0 = walk(id, a);
    let e1 = walk(id, b);
    let longer = a.push(s);
    let m = a.len() as int;
    lemma_identity_arrangement(n);
    lemma_walk_arrangement(id, a);
    lemma_walk_arrangement(id, b);
    assert(longer.take(m) =~= a);
    // the crossing that cannot be added repeats one of `a`
    let (u, t) = choose|u: int, t: int|
        0 <= u < t < longer.len() && same_pair(
            #[trigger] crossing(id, longer, u),
            #[trigger] crossing(id, longer, t),
        );
    lemma_crossing_take(id, longer, m, u);
    if t < m {
        lemma_crossing_take(id, longer, m, t);
        assert(same_pair(crossing(id, a, u), crossing(id, a, t)));
        assert(false);
    }
    let left = e0[s - 1];
    let right = e0[s as int];
    assert(crossing(id, longer, m) == (left, right));
    assert(a.take(m) =~= a);
    lemma_place_of(e0, left);
    lemma_place_of(e0, right);
    assert(left != right);
    if left < right {
        lemma_simple_inversion(n, a, m, left, right);
        assert(same_pair(crossing(id, a, u), (left, right)));
        assert(crossed_before(n, a, m, left, right));
        assert(false);
    }
    // the first crossing of `b` stays with it
    assert(b.take(0) =~= Seq::<usize>::empty());
    assert(crossing(id, b, 0) == (s, next));
    lemma_simple_inversion(n, b, b.len() as int, s, next);
    assert(b.take(b.len() as int) =~= b);
    assert(same_pair(crossing(id, b, 0), (s, next)));
    assert(inverted_by_both(e0, e1, s, next));
}

/// Moving a crossing from the front of the second factor to the end of the
/// first leaves a pair of strands that both invert.
pub proof fn lemma_move_keeps_both(n: nat, e0: Seq<usize>, b: Seq<usize>, j: usize)
    requires
        n <= usize::MAX,
        is_arrangement(e0),
        e0.len() == n,
        1 <= j < n,
        e0[j - 1] < e0[j as int],
        crossed_by_both(e0, walk(identity(n), b)),
    ensures
        crossed_by_both(cross(e0, j as int), walk(cross(identity(n), j as int), b)),
{
    let id = identity(n);
    let e1 = walk(id, b);
    let tau = cross(id, j as int);
    let f0 = cross(e0, j as int);
    let f1 = walk(tau, b);
    lemma_identity_arrangement(n);
    lemma_exchange_arrangement(id, j as int, j + 1);
    lemma_exchange_arrangement(e0, j as int, j + 1);
    lemma_walk_arrangement(id, b);
    lemma_walk_arrangement(tau, b);
    lemma_walk_relabel(tau, b);
    let (x, y) = choose|x: usize, y: usize| #[trigger] inverted_by_both(e0, e1, x, y);
    let x2 = tau[x - 1];
    let y2 = tau[y - 1];
    assert(x2 < y2);
    assert(tau[x2 - 1] == x && tau[y2 - 1] == y);
    assert(f0[x2 - 1] == e0[x - 1]);
    assert(f0[y2 - 1] == e0[y - 1]);
    // `f1` holds at each position the strand of `e1` there, renamed
    lemma_place_of(e1, x);
    lemma_place_of(e1, y);
    lemma_place_of(f1, x2);
    lemma_place_of(f1, y2);
    let px = place_of(e1, x);
    let py = place_of(e1, y);
    assert(f1[px - 1] == tau[e1[px - 1] - 1]);
    assert(f1[py - 1] == tau[e1[py - 1] - 1]);
    assert(place_of(f1, x2) == px);
    assert(place_of(f1, y2) == py);
    assert(inverted_by_both(f0, f1, x2, y2));
}

/// A crossing added at the end of the second factor, where it inverts no
/// pair back, leaves a pair of strands that both invert.
pub proof fn lemma_grow_keeps_both(e0: Seq<usize>, e1: Seq<usize>, j: usize)
    requires
        is_arrangement(e1),
        e0.len() == e1.len(),
        1 <= j < e1.len(),
        e1[j - 1] < e1[j as int],
        crossed_by_both(e0, e1),
    ensures
        crossed_by_both(e0, cross(e1, j as int)),
{
    let (x, y) = choose|x: usize, y: usize| #[trigger] inverted_by_both(e0, e1, x, y);
    lemma_place_cross(e1, j as int, x);
    lemma_place_cross(e1, j as int, y);
    lemma_place_of(e1, x);
    lemma_place_of(e1, y);
    assert(inverted_by_both(e0, cross(e1, j as int), x, y));
}

/// A crossing added where the strands stand in order does not lead to the
/// identity.
pub proof fn lemma_grow_moves(n: nat, e: Seq<usize>, j: usize)
    requires
        n <= usize::MAX,
        e.len() == n,
        1 <= j < n,
        e[j - 1] < e[j as int],
    ensures
        cross(e, j as int) != identity(n),
{
    let f = cross(e, j as int);
    assert(f[j - 1] == e[j as int]);
    assert(f[j as int] == e[j - 1]);
    if f == identity(n) {
        assert(identity(n)[j - 1] == j);
        assert(identity(n)[j as int] == j + 1);
        assert(false);
    }
}

/// An arrangement that steps down everywhere is the reversal.
pub proof fn lemma_all_descents(e: Seq<usize>)
    requires
        is_arrangement(e),
        e.len() <= usize::MAX,
        forall|j: int| 1 <= j < e.len() ==> e[j - 1] > #[trigger] e[j],
    ensures
        e == reversal(e.len()),
{
    let n = e.len() as int;
    if n > 0 {
        lemma_steps_down(e, n - 1);
        assert forall|k: int| 0 <= k < n implies e[k] == n - k by {
            lemma_steps_down(e, k);
            lemma_steps_up(e, k);
        }
    }
    assert(e =~= reversal(e.len()));
}

proof fn lemma_steps_down(e: Seq<usize>, k: int)
    requires
        is_arrangement(e),
        0 <= k < e.len(),
        forall|j: int| 1 <= j < e.len() ==> e[j - 1] > #[trigger] e[j],
    ensures
        e[k] <= e.len() - k,
    decreases k,
{
    if k > 0 {
        lemma_steps_down(e, k - 1);
        assert(e[k - 1] > e[k]);
    }
}

proof fn lemma_steps_up(e: Seq<usize>, k: int)
    requires
        is_arrangement(e),
        0 <= k < e.len(),
        forall|j: int| 1 <= j < e.len() ==> e[j - 1] > #[trigger] e[j],
    ensures
        e[k] >= e.len() - k,
    decreases e.len() - k,
{
    if k < e.len() - 1 {
        lemma_steps_up(e, k + 1);
        assert(e[k] > e[k + 1]);
    }
}

/// Only a half twist is left-weighted against a half twist.
pub proof fn lemma_before_twist(n: nat, e: Seq<usize>)
    requires
        n <= usize::MAX,
        is_arrangement(e),
        e.len() == n,
        covers(finishing_seq(e), starting_seq(reversal(n))),
    ensures
        e == reversal(n),
{
    let r = reversal(n);
    assert(is_arrangement(r));
    assert forall|i: int| 1 <= i < n implies e[i - 1] > #[trigger] e[i] by {
        let j = i as usize;
        lemma_place_of(r, j);
        lemma_place_of(r, (j + 1) as usize);
        assert(r[n - j] == j);
        assert(r[n - j - 1] == j + 1);
        lemma_in_starting(r, j);
        let s = starting_seq(r);
        let k = choose|k: int| 0 <= k < s.len() && s[k] == j;
        assert(finishing_seq(e).contains(s[k]));
        lemma_outside_finishing(e, j);
    }
    lemma_all_descents(e);
}

/// The factors that are left when the half twists have been taken out of a
/// left-weighted list without identities are those of a normal form.
pub proof fn lemma_absorb(n: nat, fs: Seq<Seq<usize>>)
    requires
        n <= usize::MAX,
        forall|k: int| 0 <= k < fs.len() ==> fits(#[trigger] fs[k], n),
        forall|k: int| 0 <= k < fs.len() ==> word_arrangement(n, #[trigger] fs[k]) != identity(n),
        all_weighted(n, fs),
    ensures
        canonical_factors(n, absorb(n, fs).1),
        absorb(n, fs).0 <= fs.len(),
        fs.len() > 0 ==> (absorb(n, fs).1.len() == 0 && word_arrangement(n, fs.last())
            == reversal(n)) || (absorb(n, fs).1.len() > 0 && absorb(n, fs).1.last()
            == word_arrangement(n, fs.last())),
    decreases fs.len(),
{
    if fs.len() > 0 {
        let front = fs.drop_last();
        assert forall|k: int| 0 <= k < front.len() implies fits(#[trigger] front[k], n) by {
            assert(front[k] == fs[k]);
        }
        assert forall|k: int| 0 <= k < front.len() implies word_arrangement(
            n,
            #[trigger] front[k],
        ) != identity(n) by {
            assert(front[k] == fs[k]);
        }
        assert(all_weighted(n, front)) by {
            assert forall|k: int| 0 <= k < front.len() - 1 implies #[trigger] crate::braid::garside::weighted(
                n,
                front[k],
                front[k + 1],
            ) by {
                assert(front[k] == fs[k] && front[k + 1] == fs[k + 1]);
                assert(crate::braid::garside::weighted(n, fs[k], fs[k + 1]));
            }
        }
        lemma_absorb(n, front);
        let kept = absorb(n, front).1;
        let e = word_arrangement(n, fs.last());
        lemma_identity_arrangement(n);
        lemma_walk_arrangement(identity(n), fs.last());
        if front.len() > 0 {
            let prev = word_arrangement(n, front.last());
            let k = fs.len() - 2;
            assert(front.last() == fs[k]);
            assert(fs.last() == fs[k + 1]);
            assert(crate::braid::garside::weighted(n, fs[k], fs[k + 1]));
            lemma_walk_arrangement(identity(n), front.last());
            if e == reversal(n) {
                lemma_before_twist(n, prev);
            }
        }
        if e != reversal(n) {
            let out = kept.push(e);
            assert(absorb(n, fs).1 == out);
            assert forall|k: int| 0 <= k < out.len() - 1 implies covers(
                finishing_seq(#[trigger] out[k]),
                starting_seq(out[k + 1]),
            ) by {
                if k < kept.len() - 1 {
                    assert(out[k] == kept[k] && out[k + 1] == kept[k + 1]);
                }
            }
            assert forall|k: int| 0 <= k < out.len() implies is_arrangement(#[trigger] out[k])
                && out[k].len() == n && out[k] != identity(n) && out[k] != reversal(n) by {
                if k < kept.len() {
                    assert(out[k] == kept[k]);
                }
            }
        }
    }
}

/// What holds of the list of factors while the left-weighting stands at
/// position `i`: no factor is the identity, every factor before `i` is
/// left-weighted against the next, and the first two factors invert some
/// pair of strands twice, so that the second cannot be used up.
pub open spec fn weighting_holds(n: nat, fs: Seq<Seq<usize>>, i: int) -> bool {
    &&& forall|k: int| 0 <= k < fs.len() ==> fits(#[trigger] fs[k], n)
    &&& forall|k: int| 0 <= k < fs.len() ==> word_arrangement(n, #[trigger] fs[k]) != identity(n)
    &&& forall|k: int| 0 <= k < i && k + 1 < fs.len() ==> #[trigger] weighted(n, fs[k], fs[k + 1])
    &&& fs.len() >= 2 ==> crossed_by_both(word_arrangement(n, fs[0]), word_arrangement(n, fs[1]))
}

/// No pair of strands is inverted by the identity.
pub proof fn lemma_identity_inverts_nothing(n: nat, e0: Seq<usize>)
    requires
        n <= usize::MAX,
        e0.len() == n,
    ensures
        !crossed_by_both(e0, identity(n)),
{
    if crossed_by_both(e0, identity(n)) {
        let (x, y) = choose|x: usize, y: usize| #[trigger] inverted_by_both(e0, identity(n), x, y);
        lemma_place_identity(n, x);
        lemma_place_identity(n, y);
    }
}

/// The greedy cut is where the left-weighting can start.
pub proof fn lemma_weighting_starts(n: nat, w: Seq<usize>)
    requires
        n <= usize::MAX,
        fits(w, n),
    ensures
        weighting_holds(n, segmentation(n, w), 0),
{
    let segs = segmentation(n, w);
    lemma_segmentation(n, w);
    assert forall|k: int| 0 <= k < segs.len() implies word_arrangement(n, #[trigger] segs[k])
        != identity(n) by {
        lemma_simple_moves(n, segs[k]);
    }
    if segs.len() >= 2 {
        lemma_cut_crossed_by_both(n, segs[0], segs[1]);
    }
}

/// One visit of the pair at position `i` keeps what holds of the list.
pub proof fn lemma_weighting_step(
    n: nat,
    fs: Seq<Seq<usize>>,
    i: int,
    a: Seq<usize>,
    b: Seq<usize>,
    changed: bool,
)
    requires
        n <= usize::MAX,
        weighting_holds(n, fs, i),
        0 <= i,
        i + 1 < fs.len(),
        fits(a, n),
        fits(b, n),
        weighted(n, a, b),
        word_arrangement(n, a) != identity(n),
        !changed ==> a == fs[i] && b == fs[i + 1],
        crossed_by_both(word_arrangement(n, fs[i]), word_arrangement(n, fs[i + 1]))
            ==> crossed_by_both(word_arrangement(n, a), word_arrangement(n, b)),
        crossed_by_both(word_arrangement(n, fs[0]), word_arrangement(n, fs[i]))
            ==> crossed_by_both(word_arrangement(n, fs[0]), word_arrangement(n, a)),
    ensures
        weighting_holds(
            n,
            if word_arrangement(n, b) == identity(n) {
                fs.update(i, a).update(i + 1, b).remove(i + 1)
            } else {
                fs.update(i, a).update(i + 1, b)
            },
            if changed && i > 0 {
                i - 1
            } else {
                i + 1
            },
        ),
{
    let moved = fs.update(i, a).update(i + 1, b);
    let gone = word_arrangement(n, b) == identity(n);
    let kept = if gone {
        moved.remove(i + 1)
    } else {
        moved
    };
    let next = if changed && i > 0 {
        i - 1
    } else {
        i + 1
    };
    lemma_walk_arrangement(identity(n), a);
    lemma_identity_arrangement(n);
    if i == 0 {
        // the second factor is inverted with the first on some pair, so it
        // is not used up
        lemma_identity_inverts_nothing(n, word_arrangement(n, a));
        assert(!gone);
    }
    if !changed {
        assert(!gone);
    }
    assert forall|k: int| 0 <= k < kept.len() implies fits(#[trigger] kept[k], n)
        && word_arrangement(n, kept[k]) != identity(n) by {
        if gone {
            if k <= i {
                assert(kept[k] == moved[k]);
            } else {
                assert(kept[k] == moved[k + 1]);
                assert(moved[k + 1] == fs[k + 1]);
            }
        }
        if k != i && k != i + 1 {
            if !gone {
                assert(kept[k] == fs[k]);
            }
        }
    }
    assert forall|k: int| 0 <= k < next && k + 1 < kept.len() implies #[trigger] weighted(
        n,
        kept[k],
        kept[k + 1],
    ) by {
        if k + 1 < i {
            assert(kept[k] == fs[k] && kept[k + 1] == fs[k + 1]);
            assert(weighted(n, fs[k], fs[k + 1]));
        } else if k + 1 == i {
            // only reached when nothing changed
            assert(!changed);
            assert(kept[k] == fs[k] && kept[k + 1] == fs[k + 1]);
            assert(weighted(n, fs[k], fs[k + 1]));
        } else {
            assert(k == i);
            assert(!gone);
        }
    }
    if kept.len() >= 2 {
        if i == 0 {
            assert(kept[0] == a && kept[1] == b);
        } else if i == 1 {
            assert(kept[0] == fs[0] && kept[1] == a);
        } else {
            assert(kept[0] == fs[0] && kept[1] == fs[1]);
        }
    }
}

/// When the left-weighting has reached the end of the list, what is left
/// after the half twists have been taken out are the factors of a normal
/// form.
pub proof fn lemma_weighting_ends(n: nat, fs: Seq<Seq<usize>>, i: int)
    requires
        n <= usize::MAX,
        weighting_holds(n, fs, i),
        i + 1 >= fs.len(),
    ensures
        all_weighted(n, fs),
        canonical_factors(n, absorb(n, fs).1),
        absorb(n, fs).0 <= fs.len(),
{
    assert forall|k: int| 0 <= k < fs.len() - 1 implies #[trigger] weighted(
        n,
        fs[k],
        fs[k + 1],
    ) by {}
    lemma_absorb(n, fs);
}

} // verus!
