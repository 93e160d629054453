//! The word of a normal form: its half twists, then the canonical words of
//! its factors. The greedy cut finds these pieces again, and the
//! left-weighting leaves them as they are.

use vstd::prelude::*;
use crate::braid::canonical::{lemma_canonical_word, lemma_half_twist_word};
use crate::braid::crossings::{crossed_before, lemma_simple_inversion};
use crate::braid::garside::{
    absorb, all_weighted, first_unweighted, settle, weigh, weighted, word_arrangement,
};
use crate::braid::leftweight::{canonical_factors, lemma_in_starting, lemma_outside_finishing};
use crate::braid::segments::{
    crossing, fits, head_len, is_simple, joined, lemma_head_len, lemma_joined_front, same_pair,
    segmentation,
};
use crate::braid::sets::{finishing_seq, lemma_descents, places, starting_seq};
use crate::braid::{canonical_word, half_twist_word};
use crate::ordered_set::{covers, lemma_first_outside};
use crate::permutation::lemma_place_of;
use crate::strands::{
    identity, is_arrangement, lemma_identity_arrangement, lemma_walk_arrangement, reversal, walk,
};

verus! {

/// The canonical words of a list of arrangements.
pub open spec fn canonical_words(fs: Seq<Seq<usize>>) -> Seq<Seq<usize>> {
    Seq::new(fs.len(), |k: int| canonical_word(fs[k]))
}

/// The word of the half twist, `p` times.
pub open spec fn twists(n: nat, p: nat) -> Seq<Seq<usize>> {
    Seq::new(p, |k: int| half_twist_word(n))
}

/// The pieces of the word of a normal form with exponent `p` and the
/// factors `fs`.
pub open spec fn rebuilt_pieces(n: nat, p: nat, fs: Seq<Seq<usize>>) -> Seq<Seq<usize>> {
    twists(n, p) + canonical_words(fs)
}

/// The word of a normal form with exponent `p` and the factors `fs`.
pub open spec fn rebuilt_word(n: nat, p: nat, fs: Seq<Seq<usize>>) -> Seq<usize> {
    joined(rebuilt_pieces(n, p, fs))
}

/// Pieces that are permutation braids, none of which can take the first
/// crossing of the next, are what the greedy cut makes of their product.
pub proof fn lemma_cut_unique(n: nat, pieces: Seq<Seq<usize>>)
    requires
        forall|k: int|
            0 <= k < pieces.len() ==> (#[trigger] pieces[k]).len() > 0 && is_simple(n, pieces[k]),
        forall|k: int|
            0 <= k < pieces.len() - 1 ==> !is_simple(
                n,
                (#[trigger] pieces[k]).push(pieces[k + 1][0]),
            ),
    ensures
        segmentation(n, joined(pieces)) == pieces,
    decreases pieces.len(),
{
    if pieces.len() == 0 {
        assert(joined(pieces) =~= Seq::<usize>::empty());
        assert(head_len(n, joined(pieces)) == 0);
        assert(segmentation(n, joined(pieces)) =~= pieces);
    } else {
        let x = pieces[0];
        let rest = pieces.skip(1);
        assert(pieces =~= seq![x] + rest);
        lemma_joined_front(x, rest);
        let w = joined(pieces);
        let m = x.len() as int;
        assert(w.take(m) =~= x);
        assert(w.skip(m) =~= joined(rest));
        if rest.len() > 0 {
            let y = rest[0];
            assert(y == pieces[1]);
            let tail = rest.skip(1);
            assert(rest =~= seq![y] + tail);
            lemma_joined_front(y, tail);
            assert(joined(rest)[0] == y[0]);
            assert(w.take(m + 1) =~= x.push(y[0]));
        } else {
            assert(joined(rest) =~= Seq::<usize>::empty());
        }
        lemma_head_len(n, w, m);
        assert forall|k: int| 0 <= k < rest.len() implies (#[trigger] rest[k]).len() > 0
            && is_simple(n, rest[k]) by {
            assert(rest[k] == pieces[k + 1]);
        }
        assert forall|k: int| 0 <= k < rest.len() - 1 implies !is_simple(
            n,
            (#[trigger] rest[k]).push(rest[k + 1][0]),
        ) by {
            assert(rest[k] == pieces[k + 1]);
            assert(rest[k + 1] == pieces[k + 2]);
        }
        lemma_cut_unique(n, rest);
        assert(segmentation(n, w) =~= seq![x] + rest);
    }
}

/// A permutation braid that is left-weighted against the next cannot take
/// the first crossing of the next.
pub proof fn lemma_weighted_is_maximal(n: nat, x: Seq<usize>, y: Seq<usize>)
    requires
        n <= usize::MAX,
        fits(x, n),
        fits(y, n),
        is_simple(n, x),
        is_simple(n, y),
        y.len() > 0,
        weighted(n, x, y),
    ensures
        !is_simple(n, x.push(y[0])),
{
    let id = identity(n);
    let s = y[0];
    let next = (s + 1) as usize;
    let ex = walk(id, x);
    let ey = walk(id, y);
    lemma_identity_arrangement(n);
    lemma_walk_arrangement(id, x);
    lemma_walk_arrangement(id, y);
    // the first crossing of `y` puts `s` into its starting set
    assert(y.take(0) =~= Seq::<usize>::empty());
    assert(crossing(id, y, 0) == (s, next));
    lemma_simple_inversion(n, y, y.len() as int, s, next);
    assert(y.take(y.len() as int) =~= y);
    assert(same_pair(crossing(id, y, 0), (s, next)));
    lemma_in_starting(ey, s);
    // so `s` is in the finishing set of `x`: the strands there have crossed
    let st = starting_seq(ey);
    let at = choose|k: int| 0 <= k < st.len() && st[k] == s;
    assert(finishing_seq(ex).contains(st[at]));
    lemma_outside_finishing(ex, s);
    let l = ex[s - 1];
    let r = ex[s as int];
    lemma_place_of(ex, l);
    lemma_place_of(ex, r);
    lemma_simple_inversion(n, x, x.len() as int, r, l);
    assert(x.take(x.len() as int) =~= x);
    assert(crossed_before(n, x, x.len() as int, r, l));
    let u = choose|u: int| 0 <= u < x.len() && same_pair(#[trigger] crossing(id, x, u), (r, l));
    let longer = x.push(s);
    let m = x.len() as int;
    assert(longer.take(m) =~= x);
    assert(longer.take(u) =~= x.take(u));
    assert(crossing(id, longer, u) == crossing(id, x, u));
    assert(crossing(id, longer, m) == (l, r));
    assert(same_pair(crossing(id, longer, u), crossing(id, longer, m)));
}

/// Every arrangement is left-weighted after the half twist.
pub proof fn lemma_after_twist(n: nat, e: Seq<usize>)
    requires
        n <= usize::MAX,
        is_arrangement(e),
        e.len() == n,
    ensures
        covers(finishing_seq(reversal(n)), starting_seq(e)),
{
    let st = starting_seq(e);
    if n > 0 {
        lemma_descents(places(e), (n - 1) as nat);
    }
    assert forall|k: int| 0 <= k < st.len() implies finishing_seq(reversal(n)).contains(
        #[trigger] st[k],
    ) by {
        assert(st.contains(st[k]));
        lemma_outside_finishing(reversal(n), st[k]);
    }
}

/// A list of factors that is left-weighted and has no identity is what the
/// left-weighting makes of it.
pub proof fn lemma_weigh_settled(n: nat, fs: Seq<Seq<usize>>, i: nat, moves: nat)
    requires
        all_weighted(n, fs),
        forall|k: int| 0 <= k < fs.len() ==> word_arrangement(n, #[trigger] fs[k]) != identity(n),
    ensures
        weigh(n, fs, i, moves) == Some(fs),
    decreases fs.len() - i,
{
    if i + 1 < fs.len() {
        let a = fs[i as int];
        let b = fs[i as int + 1];
        assert(weighted(n, fs[i as int], fs[i as int + 1]));
        lemma_first_outside(
            starting_seq(word_arrangement(n, b)),
            finishing_seq(word_arrangement(n, a)),
        );
        assert(first_unweighted(n, a, b) is None);
        assert(settle(n, a, b, moves) == Some((a, b, moves)));
        assert(fs.update(i as int, a).update(i as int + 1, b) =~= fs);
        lemma_weigh_settled(n, fs, i + 1, moves);
    }
}

/// Taking the half twists out of the pieces of a normal form gives its
/// exponent and its factors back.
pub proof fn lemma_absorb_rebuilt(n: nat, p: nat, fs: Seq<Seq<usize>>)
    requires
        n <= usize::MAX,
        canonical_factors(n, fs),
    ensures
        absorb(n, rebuilt_pieces(n, p, fs)) == (p, fs),
    decreases fs.len(), p,
{
    let pieces = rebuilt_pieces(n, p, fs);
    if fs.len() > 0 {
        let front = fs.drop_last();
        assert(canonical_factors(n, front)) by {
            assert forall|k: int| 0 <= k < front.len() implies is_arrangement(#[trigger] front[k])
                && front[k].len() == n && front[k] != identity(n) && front[k] != reversal(n) by {
                assert(front[k] == fs[k]);
            }
            assert forall|k: int| 0 <= k < front.len() - 1 implies covers(
                finishing_seq(#[trigger] front[k]),
                starting_seq(front[k + 1]),
            ) by {
                assert(front[k] == fs[k] && front[k + 1] == fs[k + 1]);
            }
        }
        lemma_absorb_rebuilt(n, p, front);
        assert(pieces.drop_last() =~= rebuilt_pieces(n, p, front));
        assert(pieces.last() == canonical_word(fs.last()));
        lemma_canonical_word(fs.last());
        assert(absorb(n, pieces).1 =~= fs);
    } else if p > 0 {
        lemma_absorb_rebuilt(n, (p - 1) as nat, fs);
        assert(pieces.drop_last() =~= rebuilt_pieces(n, (p - 1) as nat, fs));
        assert(pieces.last() == half_twist_word(n));
        lemma_half_twist_word(n);
    } else {
        assert(pieces =~= Seq::<Seq<usize>>::empty());
        assert(absorb(n, pieces).1 =~= fs);
    }
}

/// The pieces of the word of a normal form: each is a permutation braid
/// with at least one crossing that is not the identity, and each is
/// left-weighted against the next.
pub proof fn lemma_rebuilt_pieces(n: nat, p: nat, fs: Seq<Seq<usize>>)
    requires
        2 <= n <= usize::MAX,
        canonical_factors(n, fs),
    ensures
        forall|k: int|
            0 <= k < rebuilt_pieces(n, p, fs).len() ==> (#[trigger] rebuilt_pieces(
                n,
                p,
                fs,
            )[k]).len() > 0 && is_simple(n, rebuilt_pieces(n, p, fs)[k]) && fits(
                rebuilt_pieces(n, p, fs)[k],
                n,
            ) && word_arrangement(n, rebuilt_pieces(n, p, fs)[k]) != identity(n),
        all_weighted(n, rebuilt_pieces(n, p, fs)),
{
    let pieces = rebuilt_pieces(n, p, fs);
    let id = identity(n);
    lemma_half_twist_word(n);
    lemma_identity_arrangement(n);
    assert(reversal(n)[0] != identity(n)[0]);
    assert forall|k: int| 0 <= k < pieces.len() implies (#[trigger] pieces[k]).len() > 0
        && is_simple(n, pieces[k]) && fits(pieces[k], n) && word_arrangement(n, pieces[k])
        != identity(n) && is_arrangement(word_arrangement(n, pieces[k])) && word_arrangement(
        n,
        pieces[k],
    ).len() == n && (k < p ==> word_arrangement(n, pieces[k]) == reversal(n)) && (k >= p
        ==> word_arrangement(n, pieces[k]) == fs[k - p]) by {
        if k >= p {
            let f = fs[k - p];
            assert(pieces[k] == canonical_word(f));
            lemma_canonical_word(f);
            if canonical_word(f).len() == 0 {
                assert(walk(id, canonical_word(f)) == id);
            }
        } else {
            assert(pieces[k] == half_twist_word(n));
        }
    }
    assert forall|k: int| 0 <= k < pieces.len() - 1 implies #[trigger] weighted(
        n,
        pieces[k],
        pieces[k + 1],
    ) by {
        let ea = word_arrangement(n, pieces[k]);
        let eb = word_arrangement(n, pieces[k + 1]);
        assert(pieces[k].len() > 0 && is_arrangement(eb));
        if k < p {
            lemma_after_twist(n, eb);
        } else {
            assert(ea == fs[k - p]);
            assert(eb == fs[k - p + 1]);
        }
    }
}

} // verus!
