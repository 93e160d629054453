//! The permutation that a braid induces, followed through the normal form.
//!
//! Forgetting which strand passes over which turns a braid into a
//! permutation. Equal braids have equal permutations, and the normal form
//! of a word has the permutation of the word.

use vstd::prelude::*;
use crate::braid::canonical::lemma_canonical_word;
use crate::braid::garside::{
    absorb, all_weighted, complement_arrangement, complement_word, flipped, inverse_count,
    slid_word, weighted, word_arrangement,
};
use crate::braid::leftweight::{lemma_absorb, lemma_before_twist};
use crate::braid::rebuild::canonical_words;
use crate::braid::segments::{fits, joined, lemma_walk_concat, lemma_walk_relabel};
use crate::braid::{canonical_word, in_range, indices, lemma_walk_push, BrGen};
use crate::strands::{
    cross, identity, is_arrangement, lemma_exchange_arrangement, lemma_identity_arrangement,
    lemma_walk_arrangement, lemma_walk_len, reversal, walk,
};

verus! {

/// The arrangement with every strand `v` renamed to `n + 1 - v`.
pub open spec fn mirrored(e: Seq<usize>) -> Seq<usize> {
    Seq::new(e.len(), |k: int| (e.len() + 1 - e[k]) as usize)
}

/// The arrangement read from the right, with every strand `v` renamed to
/// `n + 1 - v`: what is seen from behind.
pub open spec fn turned(e: Seq<usize>) -> Seq<usize> {
    Seq::new(e.len(), |k: int| (e.len() + 1 - e[e.len() - 1 - k]) as usize)
}

/// The arrangement mirrored `c` times.
pub open spec fn mirrored_times(e: Seq<usize>, c: nat) -> Seq<usize> {
    if c % 2 == 0 {
        e
    } else {
        mirrored(e)
    }
}

/// The arrangement in which a power of the half twist ends: the identity
/// for an even exponent, the reversal for an odd one.
pub open spec fn twisted_start(n: nat, p: int) -> Seq<usize> {
    if p % 2 == 0 {
        identity(n)
    } else {
        reversal(n)
    }
}

/// The arrangement in which a normal form with exponent `p` and the
/// factors `es` ends.
pub open spec fn form_arrangement(n: nat, p: int, es: Seq<Seq<usize>>) -> Seq<usize> {
    walk(twisted_start(n, p), joined(canonical_words(es)))
}

/// The arrangement in which the words of a list, walked one after the
/// other from `start`, end.
pub open spec fn product(start: Seq<usize>, fs: Seq<Seq<usize>>) -> Seq<usize> {
    walk(start, joined(fs))
}

/// Renaming the strands and letting two of them cross can be done in either
/// order.
pub proof fn lemma_mirror_cross(e: Seq<usize>, i: int)
    ensures
        cross(mirrored(e), i) == mirrored(cross(e, i)),
{
    assert(cross(mirrored(e), i) =~= mirrored(cross(e, i)));
}

/// A walk from the mirrored arrangement ends in the mirrored end.
pub proof fn lemma_mirror_walk(e: Seq<usize>, w: Seq<usize>)
    ensures
        walk(mirrored(e), w) == mirrored(walk(e, w)),
    decreases w.len(),
{
    if w.len() > 0 {
        lemma_mirror_walk(e, w.drop_last());
        lemma_mirror_cross(walk(e, w.drop_last()), w.last() as int);
    }
}

/// Mirroring twice gives the arrangement back.
pub proof fn lemma_mirror_twice(e: Seq<usize>)
    requires
        is_arrangement(e),
        e.len() <= usize::MAX,
    ensures
        mirrored(mirrored(e)) == e,
        is_arrangement(mirrored(e)),
{
    let m = mirrored(e);
    assert forall|k: int| 0 <= k < e.len() implies 1 <= #[trigger] m[k] <= e.len() && m[k]
        == e.len() + 1 - e[k] by {
        assert(1 <= e[k] <= e.len());
    }
    assert(mirrored(m) =~= e);
    assert forall|i: int, j: int| 0 <= i < j < m.len() implies m[i] != m[j] by {
        assert(e[i] != e[j]);
        assert(m[i] == e.len() + 1 - e[i]);
        assert(m[j] == e.len() + 1 - e[j]);
    }
}

/// The identity and the reversal are mirror images.
pub proof fn lemma_mirror_identity(n: nat)
    requires
        n <= usize::MAX,
    ensures
        mirrored(identity(n)) == reversal(n),
        mirrored(reversal(n)) == identity(n),
{
    assert(mirrored(identity(n)) =~= reversal(n));
    assert(mirrored(reversal(n)) =~= identity(n));
}

/// Seen from behind, the crossing `a` is the crossing `n - a`.
pub proof fn lemma_turn_cross(e: Seq<usize>, a: int)
    requires
        1 <= a < e.len(),
    ensures
        cross(turned(e), e.len() - a) == turned(cross(e, a)),
{
    assert(cross(turned(e), e.len() - a) =~= turned(cross(e, a)));
}

/// The word with every index `a` replaced by `n - a` is the word seen from
/// behind.
pub proof fn lemma_turn_walk(n: nat, u: Seq<usize>)
    requires
        n <= usize::MAX,
        fits(u, n),
    ensures
        walk(identity(n), flipped(u, n)) == turned(walk(identity(n), u)),
    decreases u.len(),
{
    let id = identity(n);
    if u.len() == 0 {
        assert(flipped(u, n) =~= Seq::<usize>::empty());
        assert(turned(id) =~= id);
    } else {
        let front = u.drop_last();
        lemma_turn_walk(n, front);
        assert(flipped(u, n).drop_last() =~= flipped(front, n));
        assert(flipped(u, n).last() == n - u.last());
        lemma_walk_len(id, front);
        lemma_turn_cross(walk(id, front), u.last() as int);
    }
}

/// What an inverse generator becomes when it gives up its half twist, on
/// the arrangement: the crossing, and all strands renamed.
pub proof fn lemma_slide_inverse(n: nat, u: Seq<usize>, i: int)
    requires
        n <= usize::MAX,
        fits(u, n),
        1 <= i < n,
    ensures
        walk(identity(n), flipped(u, n) + complement_word(i, n)) == mirrored(
            cross(walk(identity(n), u), i),
        ),
{
    let id = identity(n);
    let e = walk(id, u);
    let b = complement_word(i, n);
    let r = reversal(n);
    lemma_identity_arrangement(n);
    lemma_walk_arrangement(id, u);
    assert(is_arrangement(r));
    lemma_exchange_arrangement(r, i + 1, i);
    lemma_canonical_word(complement_arrangement(i, n));
    lemma_turn_walk(n, u);
    let start = walk(id, flipped(u, n));
    lemma_walk_concat(id, flipped(u, n), b);
    lemma_walk_relabel(start, b);
    let out = walk(start, b);
    let want = mirrored(cross(e, i));
    assert forall|k: int| 0 <= k < n implies out[k] == want[k] by {
        let at = complement_arrangement(i, n)[k];
        assert(out[k] == start[at - 1]);
        assert(1 <= e[k] <= n);
    }
    assert(out =~= want);
}

/// Moving the half twists to the front changes the arrangement by one
/// renaming of the strands for each inverse generator.
pub proof fn lemma_slide_arrangement(g: Seq<BrGen>, n: nat)
    requires
        n <= usize::MAX,
        in_range(g, n),
    ensures
        fits(slid_word(g, n), n),
        walk(identity(n), slid_word(g, n)) == mirrored_times(
            walk(identity(n), indices(g)),
            inverse_count(g),
        ),
    decreases g.len(),
{
    let id = identity(n);
    lemma_identity_arrangement(n);
    if g.len() > 0 {
        let front = g.drop_last();
        assert forall|k: int| 0 <= k < front.len() implies 1 <= (#[trigger] front[k]).index()
            < n by {
            assert(front[k] == g[k]);
        }
        lemma_slide_arrangement(front, n);
        let u = slid_word(front, n);
        let a = walk(id, indices(front));
        let c = inverse_count(front);
        let i = g.last().index();
        assert(g.last() == g[g.len() - 1]);
        assert(1 <= g[g.len() - 1].index() < n);
        assert(indices(g).drop_last() =~= indices(front));
        assert(indices(g).last() == i);
        lemma_walk_arrangement(id, indices(front));
        lemma_walk_arrangement(id, u);
        lemma_mirror_cross(a, i as int);
        lemma_exchange_arrangement(a, i as int, i + 1);
        lemma_mirror_twice(cross(a, i as int));
        match g.last() {
            BrGen::Sigma(_) => {
                lemma_walk_push(id, u, i);
                assert(slid_word(g, n) == u.push(i));
            },
            BrGen::SigmaInv(_) => {
                lemma_slide_inverse(n, u, i as int);
                lemma_canonical_word(complement_arrangement(i as int, n));
                assert(is_arrangement(reversal(n)));
                lemma_exchange_arrangement(reversal(n), i + 1, i as int);
            },
        }
    } else {
        assert(indices(g) =~= Seq::<usize>::empty());
    }
}

/// The list walked to its end is the list without its last word walked to
/// its end, and then the last word.
pub proof fn lemma_product_last(start: Seq<usize>, fs: Seq<Seq<usize>>)
    requires
        fs.len() > 0,
    ensures
        product(start, fs) == walk(product(start, fs.drop_last()), fs.last()),
{
    lemma_walk_concat(start, joined(fs.drop_last()), fs.last());
}

/// Words that end in one arrangement from the identity end in one from
/// every start.
pub proof fn lemma_walk_same(start: Seq<usize>, x: Seq<usize>, y: Seq<usize>)
    requires
        start.len() <= usize::MAX,
        walk(identity(start.len()), x) == walk(identity(start.len()), y),
    ensures
        walk(start, x) == walk(start, y),
{
    lemma_walk_relabel(start, x);
    lemma_walk_relabel(start, y);
    assert(walk(start, x) =~= walk(start, y));
}

/// Moving the crossing `j` from the front of the factor at `i + 1` to the
/// end of the factor at `i` leaves where the list ends.
pub proof fn lemma_product_move(
    n: nat,
    fs: Seq<Seq<usize>>,
    i: int,
    j: usize,
    grown: Seq<usize>,
    cut: Seq<usize>,
    upto: int,
)
    requires
        n <= usize::MAX,
        0 <= i,
        i + 1 < upto <= fs.len(),
        1 <= j < n,
        word_arrangement(n, grown) == cross(word_arrangement(n, fs[i]), j as int),
        word_arrangement(n, cut) == walk(cross(identity(n), j as int), fs[i + 1]),
    ensures
        product(identity(n), fs.update(i, grown).update(i + 1, cut).take(upto)) == product(
            identity(n),
            fs.take(upto),
        ),
    decreases upto,
{
    let id = identity(n);
    let gs = fs.update(i, grown).update(i + 1, cut);
    let old_part = fs.take(upto);
    let new_part = gs.take(upto);
    lemma_product_last(id, old_part);
    lemma_product_last(id, new_part);
    if upto == i + 2 {
        let before = fs.take(i);
        assert(old_part.drop_last().drop_last() =~= before);
        assert(new_part.drop_last().drop_last() =~= before);
        lemma_product_last(id, old_part.drop_last());
        lemma_product_last(id, new_part.drop_last());
        let s = product(id, before);
        lemma_walk_len(id, joined(before));
        let a = fs[i];
        let b = fs[i + 1];
        assert(old_part.last() == b && old_part.drop_last().last() == a);
        assert(new_part.last() == cut && new_part.drop_last().last() == grown);
        // from `s`: first `a` and the crossing, then what is left of `b`
        let sa = walk(s, a);
        lemma_walk_len(s, a);
        lemma_walk_relabel(s, a);
        lemma_walk_relabel(s, grown);
        assert(walk(s, grown) =~= cross(sa, j as int));
        let tau = cross(id, j as int);
        lemma_walk_relabel(cross(sa, j as int), cut);
        lemma_walk_relabel(tau, b);
        lemma_walk_relabel(sa, b);
        assert(walk(cross(sa, j as int), cut) =~= walk(sa, b));
    } else {
        assert(old_part.drop_last() =~= fs.take(upto - 1));
        assert(new_part.drop_last() =~= gs.take(upto - 1));
        assert(old_part.last() == new_part.last());
        lemma_product_move(n, fs, i, j, grown, cut, upto - 1);
    }
}

/// Taking out a factor that moves no strand leaves where the list ends.
pub proof fn lemma_product_remove(n: nat, fs: Seq<Seq<usize>>, k: int)
    requires
        n <= usize::MAX,
        0 <= k < fs.len(),
        word_arrangement(n, fs[k]) == identity(n),
    ensures
        product(identity(n), fs.remove(k)) == product(identity(n), fs),
    decreases fs.len(),
{
    let id = identity(n);
    let gs = fs.remove(k);
    lemma_product_last(id, fs);
    if k == fs.len() - 1 {
        assert(gs =~= fs.drop_last());
        let s = product(id, fs.drop_last());
        lemma_walk_len(id, joined(fs.drop_last()));
        lemma_walk_relabel(s, fs[k]);
        assert(walk(s, fs[k]) =~= s);
    } else {
        assert(gs.drop_last() =~= fs.drop_last().remove(k));
        assert(gs.last() == fs.last());
        lemma_product_last(id, gs);
        lemma_product_remove(n, fs.drop_last(), k);
    }
}

/// Where a left-weighted list of factors without identities ends is where
/// the normal form ends that is made of it.
pub proof fn lemma_absorb_arrangement(n: nat, fs: Seq<Seq<usize>>)
    requires
        n <= usize::MAX,
        forall|k: int| 0 <= k < fs.len() ==> fits(#[trigger] fs[k], n),
        forall|k: int| 0 <= k < fs.len() ==> word_arrangement(n, #[trigger] fs[k]) != identity(n),
        all_weighted(n, fs),
    ensures
        product(identity(n), fs) == form_arrangement(n, absorb(n, fs).0 as int, absorb(n, fs).1),
    decreases fs.len(),
{
    let id = identity(n);
    lemma_identity_arrangement(n);
    if fs.len() == 0 {
        assert(joined(fs) =~= Seq::<usize>::empty());
        assert(canonical_words(absorb(n, fs).1) =~= Seq::<Seq<usize>>::empty());
        assert(joined(canonical_words(absorb(n, fs).1)) =~= Seq::<usize>::empty());
    } else {
        let front = fs.drop_last();
        assert forall|k: int| 0 <= k < front.len() implies fits(#[trigger] front[k], n)
            && word_arrangement(n, front[k]) != identity(n) by {
            assert(front[k] == fs[k]);
        }
        assert(all_weighted(n, front)) by {
            assert forall|k: int| 0 <= k < front.len() - 1 implies #[trigger] weighted(
                n,
                front[k],
                front[k + 1],
            ) by {
                assert(front[k] == fs[k] && front[k + 1] == fs[k + 1]);
                assert(weighted(n, fs[k], fs[k + 1]));
            }
        }
        lemma_absorb_arrangement(n, front);
        lemma_absorb(n, front);
        lemma_product_last(id, fs);
        let t = absorb(n, front).0;
        let kept = absorb(n, front).1;
        let e = word_arrangement(n, fs.last());
        let reached = product(id, front);
        lemma_walk_arrangement(id, fs.last());
        lemma_walk_len(id, joined(front));
        if e == reversal(n) {
            // every factor before a half twist is a half twist
            if front.len() > 0 {
                let k = fs.len() - 2;
                assert(front.last() == fs[k] && fs.last() == fs[k + 1]);
                assert(weighted(n, fs[k], fs[k + 1]));
                lemma_walk_arrangement(id, front.last());
                lemma_before_twist(n, word_arrangement(n, front.last()));
            }
            assert(kept.len() == 0);
            assert(canonical_words(kept) =~= Seq::<Seq<usize>>::empty());
            assert(joined(canonical_words(kept)) =~= Seq::<usize>::empty());
            assert(reached == twisted_start(n, t as int));
            lemma_walk_relabel(reached, fs.last());
            assert(walk(reached, fs.last()) =~= twisted_start(n, t as int + 1));
        } else {
            let out = kept.push(e);
            assert(canonical_words(out).drop_last() =~= canonical_words(kept));
            assert(canonical_words(out).last() == canonical_word(e));
            lemma_canonical_word(e);
            let s = twisted_start(n, t as int);
            lemma_walk_concat(s, joined(canonical_words(kept)), canonical_word(e));
            lemma_walk_same(reached, fs.last(), canonical_word(e));
        }
    }
}

/// Renaming the strands at the start of a normal form is one half twist
/// more.
pub proof fn lemma_form_mirrored(n: nat, p: int, c: nat, es: Seq<Seq<usize>>)
    requires
        n <= usize::MAX,
    ensures
        mirrored_times(form_arrangement(n, p, es), c) == form_arrangement(n, p - c, es),
{
    let w = joined(canonical_words(es));
    lemma_mirror_identity(n);
    lemma_mirror_walk(identity(n), w);
    lemma_mirror_walk(reversal(n), w);
}

} // verus!
