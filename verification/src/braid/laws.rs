//! Laws that hold of braid words and of their normal forms.

use vstd::prelude::*;
use crate::braid::canonical::lemma_canonical_word;
use crate::braid::crossings::{crossed_before, lemma_simple_inversion};
use crate::braid::exponent::lemma_canonical_len;
use crate::braid::garside::{
    budget, garside_model, inverse_count, slid_word, weighted, without_front, word_arrangement,
};
use crate::braid::inversions::{inversions, lemma_inversions_renamed, lemma_simple_ascending, renamed};
use crate::braid::leftweight::{lemma_in_starting, lemma_outside_finishing};
use crate::braid::segments::{crossing, fits, is_simple, lemma_walk_relabel, same_pair};
use crate::braid::sets::{finishing_seq, starting_seq};
use crate::permutation::lemma_place_of;
use crate::strands::{
    cross, identity, lemma_exchange_arrangement, lemma_identity_arrangement,
    lemma_walk_arrangement, walk,
};
use crate::braid::leftweight::canonical_factors;
use crate::braid::rebuild::{
    lemma_absorb_rebuilt, lemma_cut_unique, lemma_rebuilt_pieces, lemma_weigh_settled,
    lemma_weighted_is_maximal, rebuilt_pieces, rebuilt_word,
};
use crate::braid::segments::segmentation;
use crate::braid::positive_word;
use crate::braid::text::form_text;
use crate::braid::{all_positive, in_range, indices, inverse_word, shifted_word, BrGen, Braid};

verus! {

/// The printable normal form of the word `g` on `n` strands; nothing where
/// the left-weighting runs out of its budget.
pub open spec fn canonical_text(n: nat, g: Seq<BrGen>) -> Option<Seq<char>> {
    match garside_model(n, g) {
        None => None,
        Some((p, fs)) => Some(form_text(p, fs)),
    }
}

/// The product of braids is associative on the words themselves, so the two
/// ways of multiplying three braids have one normal form and one printable
/// form.
pub proof fn lemma_product_associative(a: Braid, b: Braid, c: Braid)
    requires
        a.n == b.n,
        b.n == c.n,
    ensures
        (a.gens@ + b.gens@) + c.gens@ == a.gens@ + (b.gens@ + c.gens@),
        garside_model(a.n as nat, (a.gens@ + b.gens@) + c.gens@) == garside_model(
            a.n as nat,
            a.gens@ + (b.gens@ + c.gens@),
        ),
        canonical_text(a.n as nat, (a.gens@ + b.gens@) + c.gens@) == canonical_text(
            a.n as nat,
            a.gens@ + (b.gens@ + c.gens@),
        ),
{
    assert((a.gens@ + b.gens@) + c.gens@ =~= a.gens@ + (b.gens@ + c.gens@));
}

/// The inverse of the inverse of a word is the word.
pub proof fn lemma_inverse_involution(g: Seq<BrGen>)
    ensures
        inverse_word(inverse_word(g)) == g,
{
    assert(inverse_word(inverse_word(g)) =~= g);
}

/// The inverse of a product is the product of the inverses in the other
/// order.
pub proof fn lemma_inverse_of_product(g: Seq<BrGen>, h: Seq<BrGen>)
    ensures
        inverse_word(g + h) == inverse_word(h) + inverse_word(g),
{
    assert(inverse_word(g + h) =~= inverse_word(h) + inverse_word(g));
}

/// Shifting twice gives the word back, where its indices do not exceed the
/// strand count.
pub proof fn lemma_shift_involution(g: Seq<BrGen>, n: usize)
    requires
        forall|k: int| 0 <= k < g.len() ==> (#[trigger] g[k]).index() <= n,
    ensures
        shifted_word(shifted_word(g, n), n) == g,
{
    assert(shifted_word(shifted_word(g, n), n) =~= g);
}

/// Shifting keeps the indices of a word in range.
pub proof fn lemma_shift_in_range(g: Seq<BrGen>, n: usize)
    requires
        in_range(g, n as nat),
    ensures
        in_range(shifted_word(g, n), n as nat),
{
    assert forall|k: int| 0 <= k < g.len() implies 1 <= (#[trigger] shifted_word(
        g,
        n,
    )[k]).index() < n by {
        assert(1 <= g[k].index() < n);
    }
}

/// A positive word gives up no half twist: it is its own positive part.
pub proof fn lemma_slide_positive(g: Seq<BrGen>, n: nat)
    requires
        all_positive(g),
    ensures
        slid_word(g, n) == indices(g),
        inverse_count(g) == 0,
    decreases g.len(),
{
    if g.len() > 0 {
        let front = g.drop_last();
        assert forall|k: int| 0 <= k < front.len() implies #[trigger] front[k] is Sigma by {
            assert(front[k] == g[k]);
        }
        lemma_slide_positive(front, n);
        assert(g.last() == g[g.len() - 1]);
        assert(g[g.len() - 1] is Sigma);
        assert(slid_word(g, n) =~= indices(g));
    } else {
        assert(slid_word(g, n) =~= indices(g));
    }
}

/// Moving the half twists of a positive word to the front and putting the
/// word together again gives the word: it has no half twist to give up.
pub proof fn lemma_slide_round_trip_positive(g: Seq<BrGen>, n: nat)
    requires
        all_positive(g),
    ensures
        inverse_count(g) == 0,
        positive_word(slid_word(g, n)) == g,
        garside_model(n, positive_word(slid_word(g, n))) == garside_model(n, g),
{
    lemma_slide_positive(g, n);
    assert(positive_word(indices(g)) =~= g) by {
        assert forall|k: int| 0 <= k < g.len() implies positive_word(indices(g))[k] == g[k] by {
            assert(g[k] is Sigma);
        }
    }
}

/// The normal form of the word of a normal form is that normal form, where
/// its exponent is not negative: the word of `p` half twists followed by the
/// canonical words of factors that are admissible and left-weighted has the
/// exponent `p` and these factors.
pub proof fn lemma_normal_form_idempotent(n: nat, p: nat, fs: Seq<Seq<usize>>)
    requires
        2 <= n <= usize::MAX,
        canonical_factors(n, fs),
    ensures
        garside_model(n, positive_word(rebuilt_word(n, p, fs))) == Some((p as int, fs)),
{
    let pieces = rebuilt_pieces(n, p, fs);
    let w = rebuilt_word(n, p, fs);
    let g = positive_word(w);
    lemma_slide_positive(g, n);
    assert(indices(g) =~= w);
    lemma_rebuilt_pieces(n, p, fs);
    assert forall|k: int| 0 <= k < pieces.len() - 1 implies !is_simple_next(n, pieces, k) by {
        assert(weighted(n, pieces[k], pieces[k + 1]));
        lemma_weighted_is_maximal(n, pieces[k], pieces[k + 1]);
    }
    assert forall|k: int| 0 <= k < pieces.len() - 1 implies !crate::braid::segments::is_simple(
        n,
        (#[trigger] pieces[k]).push(pieces[k + 1][0]),
    ) by {
        assert(!is_simple_next(n, pieces, k));
    }
    lemma_cut_unique(n, pieces);
    lemma_weigh_settled(n, pieces, 0, budget(segmentation(n, w).len(), w.len()));
    lemma_absorb_rebuilt(n, p, fs);
}

/// The piece at `k` can take the first crossing of the next piece and stay
/// a permutation braid.
pub open spec fn is_simple_next(n: nat, pieces: Seq<Seq<usize>>, k: int) -> bool {
    crate::braid::segments::is_simple(n, pieces[k].push(pieces[k + 1][0]))
}

/// A position is in the starting set of a permutation braid exactly if
/// the strands that start there and at the next position cross in it.
pub proof fn lemma_starting_set_crossings(n: nat, w: Seq<usize>, j: usize)
    requires
        n <= usize::MAX,
        fits(w, n),
        is_simple(n, w),
        1 <= j < n,
    ensures
        starting_seq(word_arrangement(n, w)).contains(j) <==> crossed_before(
            n,
            w,
            w.len() as int,
            j,
            (j + 1) as usize,
        ),
{
    lemma_simple_inversion(n, w, w.len() as int, j, (j + 1) as usize);
    assert(w.take(w.len() as int) =~= w);
    lemma_in_starting(word_arrangement(n, w), j);
}

/// A position is in the finishing set of a permutation braid exactly if
/// the strands that end there and at the next position have crossed in it.
pub proof fn lemma_finishing_set_crossings(n: nat, w: Seq<usize>, j: usize)
    requires
        n <= usize::MAX,
        fits(w, n),
        is_simple(n, w),
        1 <= j < n,
    ensures
        finishing_seq(word_arrangement(n, w)).contains(j) <==> exists|u: int|
            0 <= u < w.len() && same_pair(
                #[trigger] crossing(identity(n), w, u),
                (word_arrangement(n, w)[j - 1], word_arrangement(n, w)[j as int]),
            ),
{
    let id = identity(n);
    let e = word_arrangement(n, w);
    lemma_identity_arrangement(n);
    lemma_walk_arrangement(id, w);
    lemma_outside_finishing(e, j);
    let l = e[j - 1];
    let r = e[j as int];
    lemma_place_of(e, l);
    lemma_place_of(e, r);
    assert(w.take(w.len() as int) =~= w);
    if l < r {
        lemma_simple_inversion(n, w, w.len() as int, l, r);
        if exists|u: int| 0 <= u < w.len() && same_pair(#[trigger] crossing(id, w, u), (l, r)) {
            let u = choose|u: int|
                0 <= u < w.len() && same_pair(#[trigger] crossing(id, w, u), (l, r));
            assert(crossed_before(n, w, w.len() as int, l, r));
        }
    } else {
        lemma_simple_inversion(n, w, w.len() as int, r, l);
        let u = choose|u: int| 0 <= u < w.len() && same_pair(#[trigger] crossing(id, w, u), (r, l));
        assert(same_pair(crossing(id, w, u), (l, r)));
    }
}

/// A position of the starting set can be split off at the front: the
/// crossing followed by what the left-weighting leaves of the braid ends as
/// the braid ends, and what is left is a permutation braid with one
/// crossing less than the braid inverts pairs of strands.
pub proof fn lemma_front_factor(n: nat, w: Seq<usize>, j: usize)
    requires
        n <= usize::MAX,
        fits(w, n),
        1 <= j < n,
        starting_seq(word_arrangement(n, w)).contains(j),
    ensures
        walk(identity(n), seq![j] + without_front(n, w, j)) == word_arrangement(n, w),
        is_simple(n, without_front(n, w, j)),
        fits(without_front(n, w, j), n),
        without_front(n, w, j).len() + 1 == inversions(word_arrangement(n, w)),
        is_simple(n, w) ==> without_front(n, w, j).len() + 1 == w.len(),
{
    let id = identity(n);
    let e = word_arrangement(n, w);
    let tau = cross(id, j as int);
    let reached = walk(tau, w);
    let rest = without_front(n, w, j);
    lemma_identity_arrangement(n);
    lemma_exchange_arrangement(id, j as int, j + 1);
    lemma_walk_arrangement(id, w);
    lemma_walk_arrangement(tau, w);
    lemma_canonical_word(reached);
    lemma_canonical_len(reached);
    lemma_walk_relabel(tau, w);
    assert(reached =~= renamed(e, j));
    lemma_in_starting(e, j);
    lemma_inversions_renamed(e, j);
    // the crossing first, then the rest
    crate::braid::segments::lemma_walk_concat(id, seq![j], rest);
    let none = Seq::<usize>::empty();
    assert(seq![j] =~= none.push(j));
    crate::braid::lemma_walk_push(id, none, j);
    assert(walk(id, none) == id);
    assert(walk(id, seq![j]) == tau);
    lemma_walk_relabel(tau, rest);
    assert(walk(tau, rest) =~= e);
    if is_simple(n, w) {
        lemma_simple_ascending(n, w);
    }
}

} // verus!
