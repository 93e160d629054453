//! What crossings do to the order of the strands.
//!
//! Two strands are inverted in an arrangement when the one with the smaller
//! name stands right of the other. In a permutation braid the inverted pairs
//! are the pairs that have crossed.

use vstd::prelude::*;
use crate::braid::segments::{
    crosses_once, crossing, fits, head_len, is_simple, joined, lemma_joined_front, same_pair,
    segmentation,
};
use crate::permutation::{lemma_place_of, place_of};
use crate::strands::{
    cross, identity, is_arrangement, lemma_exchange_arrangement, lemma_identity_arrangement,
    lemma_walk_arrangement, walk,
};

verus! {

/// Where a strand stands after the crossing `i`: the two strands that cross
/// change places, every other strand stays.
pub proof fn lemma_place_cross(e: Seq<usize>, i: int, x: usize)
    requires
        is_arrangement(e),
        1 <= i < e.len(),
        1 <= x <= e.len(),
    ensures
        is_arrangement(cross(e, i)),
        place_of(cross(e, i), x) == if place_of(e, x) == i {
            i + 1
        } else if place_of(e, x) == i + 1 {
            i
        } else {
            place_of(e, x)
        },
{
    let f = cross(e, i);
    lemma_exchange_arrangement(e, i, i + 1);
    lemma_place_of(e, x);
    lemma_place_of(f, x);
    let p = place_of(e, x);
    let q = if p == i {
        i + 1
    } else if p == i + 1 {
        i
    } else {
        p
    };
    assert(f[q - 1] == x);
}

/// In the identity every strand stands at the position of its name.
pub proof fn lemma_place_identity(n: nat, x: usize)
    requires
        n <= usize::MAX,
        1 <= x <= n,
    ensures
        place_of(identity(n), x) == x,
{
    lemma_identity_arrangement(n);
    lemma_place_of(identity(n), x);
    assert(identity(n)[x - 1] == x);
}

/// Some step before `t` of the walk of `w` from the identity crosses the
/// strands `x` and `y`.
pub open spec fn crossed_before(n: nat, w: Seq<usize>, t: int, x: usize, y: usize) -> bool {
    exists|u: int| 0 <= u < t && same_pair(#[trigger] crossing(identity(n), w, u), (x, y))
}

/// As long as no two strands have crossed twice, two strands are inverted
/// exactly if they have crossed.
pub proof fn lemma_simple_inversion(n: nat, w: Seq<usize>, t: int, x: usize, y: usize)
    requires
        n <= usize::MAX,
        fits(w, n),
        0 <= t <= w.len(),
        crosses_once(identity(n), w, 0, t),
        1 <= x < y <= n,
    ensures
        is_arrangement(walk(identity(n), w.take(t))),
        walk(identity(n), w.take(t)).len() == n,
        place_of(walk(identity(n), w.take(t)), x) > place_of(walk(identity(n), w.take(t)), y)
            <==> crossed_before(n, w, t, x, y),
    decreases t,
{
    let id = identity(n);
    lemma_identity_arrangement(n);
    lemma_walk_arrangement(id, w.take(t));
    if t == 0 {
        assert(w.take(0) =~= Seq::<usize>::empty());
        lemma_place_identity(n, x);
        lemma_place_identity(n, y);
    } else {
        lemma_simple_inversion(n, w, t - 1, x, y);
        let e = walk(id, w.take(t - 1));
        let i = w[t - 1] as int;
        assert(w.take(t).drop_last() =~= w.take(t - 1));
        assert(walk(id, w.take(t)) == cross(e, i));
        lemma_place_cross(e, i, x);
        lemma_place_cross(e, i, y);
        lemma_place_of(e, x);
        lemma_place_of(e, y);
        let c = crossing(id, w, t - 1);
        assert(c == (e[i - 1], e[i]));
        if same_pair(c, (x, y)) {
            // the two have not crossed before, so they stood in order
            if crossed_before(n, w, t - 1, x, y) {
                let u = choose|u: int|
                    0 <= u < t - 1 && same_pair(#[trigger] crossing(id, w, u), (x, y));
                assert(same_pair(crossing(id, w, u), crossing(id, w, t - 1)));
            }
            assert(place_of(e, x) < place_of(e, y));
        } else {
            if crossed_before(n, w, t, x, y) {
                let u = choose|u: int|
                    0 <= u < t && same_pair(#[trigger] crossing(id, w, u), (x, y));
                assert(u != t - 1);
                assert(0 <= u < t - 1 && same_pair(crossing(id, w, u), (x, y)));
            }
            if crossed_before(n, w, t - 1, x, y) {
                let u = choose|u: int|
                    0 <= u < t - 1 && same_pair(#[trigger] crossing(id, w, u), (x, y));
                assert(0 <= u < t && same_pair(crossing(id, w, u), (x, y)));
            }
            // the crossing moves at most one of the two, past neither
            if place_of(e, x) == i && place_of(e, y) == i + 1 {
                assert(e[i - 1] == x && e[i] == y);
            }
            if place_of(e, x) == i + 1 && place_of(e, y) == i {
                assert(e[i - 1] == y && e[i] == x);
            }
        }
    }
}

/// A permutation braid with at least one crossing moves some strand.
pub proof fn lemma_simple_moves(n: nat, w: Seq<usize>)
    requires
        n <= usize::MAX,
        fits(w, n),
        is_simple(n, w),
        w.len() > 0,
    ensures
        walk(identity(n), w) != identity(n),
{
    let s = w[0];
    let id = identity(n);
    assert(w.take(0) =~= Seq::<usize>::empty());
    assert(crossing(id, w, 0) == (s, (s + 1) as usize));
    lemma_simple_inversion(n, w, w.len() as int, s, (s + 1) as usize);
    assert(w.take(w.len() as int) =~= w);
    assert(same_pair(crossing(id, w, 0), (s, (s + 1) as usize)));
    lemma_place_identity(n, s);
    lemma_place_identity(n, (s + 1) as usize);
}

/// What the longest prefix that is a permutation braid is.
pub proof fn lemma_head_len_is(n: nat, w: Seq<usize>)
    requires
        w.len() > 0,
    ensures
        1 <= head_len(n, w) <= w.len(),
        is_simple(n, w.take(head_len(n, w) as int)),
        head_len(n, w) < w.len() ==> !is_simple(n, w.take(head_len(n, w) as int + 1)),
    decreases w.len(),
{
    if is_simple(n, w) {
        assert(w.take(w.len() as int) =~= w);
    } else {
        let v = w.drop_last();
        if v.len() == 0 {
            // a single crossing cannot repeat anything
            assert(is_simple(n, w));
        }
        lemma_head_len_is(n, v);
        let m = head_len(n, v) as int;
        assert(v.take(m) =~= w.take(m));
        if m < v.len() {
            assert(v.take(m + 1) =~= w.take(m + 1));
        } else {
            assert(w.take(m + 1) =~= w);
        }
    }
}

/// The pieces of the greedy cut: none is empty, each is a permutation braid,
/// and none can take the first crossing of the next and stay one.
pub proof fn lemma_segmentation(n: nat, w: Seq<usize>)
    requires
        fits(w, n),
    ensures
        forall|j: int|
            0 <= j < segmentation(n, w).len() ==> (#[trigger] segmentation(n, w)[j]).len() > 0
                && is_simple(n, segmentation(n, w)[j]) && fits(segmentation(n, w)[j], n),
        forall|j: int|
            0 <= j < segmentation(n, w).len() - 1 ==> !is_simple(
                n,
                (#[trigger] segmentation(n, w)[j]).push(segmentation(n, w)[j + 1][0]),
            ),
        w.len() > 0 ==> segmentation(n, w).len() > 0 && segmentation(n, w)[0] == w.take(
            head_len(n, w) as int,
        ),
    decreases w.len(),
{
    let segs = segmentation(n, w);
    if w.len() > 0 {
        lemma_head_len_is(n, w);
        let m = head_len(n, w) as int;
        let rest = w.skip(m);
        lemma_segmentation(n, rest);
        let tail = segmentation(n, rest);
        assert(segs =~= seq![w.take(m)] + tail);
        assert forall|j: int| 0 <= j < segs.len() implies (#[trigger] segs[j]).len() > 0
            && is_simple(n, segs[j]) && fits(segs[j], n) by {
            if j > 0 {
                assert(segs[j] == tail[j - 1]);
            }
        }
        assert forall|j: int| 0 <= j < segs.len() - 1 implies !is_simple(
            n,
            (#[trigger] segs[j]).push(segs[j + 1][0]),
        ) by {
            if j == 0 {
                assert(rest.len() > 0);
                lemma_head_len_is(n, rest);
                assert(tail[0] == rest.take(head_len(n, rest) as int));
                assert(segs[1][0] == w[m]);
                assert(w.take(m).push(w[m]) =~= w.take(m + 1));
            } else {
                assert(segs[j] == tail[j - 1]);
                assert(segs[j + 1] == tail[j]);
            }
        }
    }
}

/// The pieces of the greedy cut, one after the other, are the word.
pub proof fn lemma_segmentation_joins(n: nat, w: Seq<usize>)
    ensures
        joined(segmentation(n, w)) == w,
    decreases w.len(),
{
    if w.len() > 0 {
        lemma_head_len_is(n, w);
        let m = head_len(n, w) as int;
        lemma_segmentation_joins(n, w.skip(m));
        lemma_joined_front(w.take(m), segmentation(n, w.skip(m)));
        assert(w.take(m) + w.skip(m) =~= w);
    } else {
        assert(segmentation(n, w) =~= Seq::<Seq<usize>>::empty());
        assert(joined(segmentation(n, w)) =~= w);
    }
}

} // verus!
