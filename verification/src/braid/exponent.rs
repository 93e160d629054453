//! The exponent sum of a braid: its generators counted with their signs. It
//! is the same for all words of a braid, and the normal form keeps it.

use vstd::prelude::*;
use crate::braid::canonical::{lemma_canonical_word, lemma_half_twist_upto, lemma_half_twist_word};
use crate::braid::garside::{
    absorb, complement_arrangement, complement_word, flipped, inverse_count, slid_word,
    word_arrangement,
};
use crate::braid::inversions::{
    inversions, lemma_ascending_inversions, lemma_inversions_cross, total_inversions,
};
use crate::braid::{canonical_word, half_twist_word, in_range, BrGen};
use crate::strands::{cross, identity, is_arrangement, reversal};

verus! {

/// The generators of the word counted with their signs: one for each
/// positive generator, minus one for each inverse.
pub open spec fn exponent_sum(g: Seq<BrGen>) -> int
    decreases g.len(),
{
    if g.len() == 0 {
        0
    } else {
        exponent_sum(g.drop_last()) + if g.last() is Sigma {
            1int
        } else {
            -1int
        }
    }
}

/// The number of crossings of the half twist on `n` strands.
pub open spec fn twist_len(n: nat) -> nat {
    half_twist_word(n).len()
}

/// The pairs of strands that the arrangements of a list invert, counted
/// arrangement by arrangement.
pub open spec fn factor_inversions(es: Seq<Seq<usize>>) -> nat
    decreases es.len(),
{
    if es.len() == 0 {
        0
    } else {
        factor_inversions(es.drop_last()) + inversions(es.last())
    }
}

/// The exponent sum of a normal form with exponent `p` and the factors
/// `es`: each half twist counts with all its crossings, each factor with
/// the pairs of strands that it inverts, which are its crossings.
pub open spec fn form_exponent_sum(n: nat, p: int, es: Seq<Seq<usize>>) -> int {
    p * twist_len(n) + factor_inversions(es)
}

/// The canonical word of a permutation has a crossing for each pair of
/// strands that the permutation inverts.
pub proof fn lemma_canonical_len(e: Seq<usize>)
    requires
        is_arrangement(e),
        e.len() <= usize::MAX,
    ensures
        canonical_word(e).len() == inversions(e),
{
    let w = canonical_word(e);
    lemma_canonical_word(e);
    lemma_ascending_inversions(e.len(), w, w.len() as int);
    assert(w.take(w.len() as int) =~= w);
}

/// The half twist inverts every pair of strands once.
pub proof fn lemma_twist_len(n: nat)
    requires
        n <= usize::MAX,
    ensures
        inversions(reversal(n)) == twist_len(n),
{
    let w = half_twist_word(n);
    lemma_half_twist_word(n);
    if n > 0 {
        lemma_half_twist_upto(n, (n - 1) as nat);
    } else {
        assert(crate::braid::canonical::ascending(identity(n), w));
    }
    lemma_ascending_inversions(n, w, w.len() as int);
    assert(w.take(w.len() as int) =~= w);
}

/// The braid that stands for an inverse generator has one crossing less
/// than the half twist.
pub proof fn lemma_complement_len(i: int, n: nat)
    requires
        n <= usize::MAX,
        1 <= i < n,
    ensures
        complement_word(i, n).len() + 1 == twist_len(n),
{
    let r = reversal(n);
    assert(is_arrangement(r));
    assert(complement_arrangement(i, n) =~= cross(r, i));
    crate::strands::lemma_exchange_arrangement(r, i, i + 1);
    lemma_inversions_cross(r, i);
    assert(r[i - 1] > r[i]);
    lemma_canonical_len(complement_arrangement(i, n));
    lemma_twist_len(n);
}

/// Moving the half twists to the front keeps the exponent sum: the positive
/// part has the crossings of the word and, for each inverse generator, those
/// of a half twist.
pub proof fn lemma_slide_sum(g: Seq<BrGen>, n: nat)
    requires
        n <= usize::MAX,
        in_range(g, n),
    ensures
        exponent_sum(g) == slid_word(g, n).len() - inverse_count(g) * twist_len(n),
    decreases g.len(),
{
    if g.len() > 0 {
        let front = g.drop_last();
        assert forall|k: int| 0 <= k < front.len() implies 1 <= (#[trigger] front[k]).index()
            < n by {
            assert(front[k] == g[k]);
        }
        lemma_slide_sum(front, n);
        let c = inverse_count(front);
        let t = twist_len(n);
        let u = slid_word(front, n);
        assert(g.last() == g[g.len() - 1]);
        match g.last() {
            BrGen::Sigma(i) => {
                assert(slid_word(g, n) == u.push(i));
                assert(inverse_count(g) == c);
                assert(exponent_sum(g) == exponent_sum(front) + 1);
            },
            BrGen::SigmaInv(i) => {
                assert(1 <= g[g.len() - 1].index() < n);
                lemma_complement_len(i as int, n);
                assert(slid_word(g, n) == flipped(u, n) + complement_word(i as int, n));
                assert(flipped(u, n).len() == u.len());
                assert(inverse_count(g) == c + 1);
                assert(exponent_sum(g) == exponent_sum(front) - 1);
                assert((c + 1) * t == c * t + t) by (nonlinear_arith);
            },
        }
    } else {
        assert(inverse_count(g) * twist_len(n) == 0) by (nonlinear_arith)
            requires
                inverse_count(g) == 0,
        ;
    }
}

/// Taking the half twists out of a list of factors keeps what the list
/// inverts: each half twist stands for all the pairs of strands.
pub proof fn lemma_absorb_total(n: nat, fs: Seq<Seq<usize>>)
    requires
        n <= usize::MAX,
    ensures
        absorb(n, fs).0 * twist_len(n) + factor_inversions(absorb(n, fs).1) == total_inversions(
            n,
            fs,
        ),
    decreases fs.len(),
{
    if fs.len() > 0 {
        let front = fs.drop_last();
        lemma_absorb_total(n, front);
        let e = word_arrangement(n, fs.last());
        let t = twist_len(n);
        let a = absorb(n, front).0;
        if e == reversal(n) {
            lemma_twist_len(n);
            assert((a + 1) * t == a * t + t) by (nonlinear_arith);
        } else {
            let kept = absorb(n, front).1.push(e);
            assert(kept.drop_last() =~= absorb(n, front).1);
            assert(kept.last() == e);
        }
    }
}

} // verus!
