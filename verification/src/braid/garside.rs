//! The Garside left normal form of a braid.

use vstd::prelude::*;
use crate::braid::segments::{
    break_into_permutations, factor_words, positive_factors, segmentation,
};
use crate::braid::exponent::{
    exponent_sum, form_exponent_sum, lemma_absorb_total, lemma_slide_sum, twist_len,
};
use crate::braid::induced::{
    form_arrangement, lemma_absorb_arrangement, lemma_form_mirrored, lemma_mirror_twice,
    lemma_product_move, lemma_product_remove, lemma_slide_arrangement, product,
};
use crate::braid::inversions::{
    lemma_inversions_identity, lemma_move_weight, lemma_segmentation_len,
    lemma_segmentation_total, lemma_total_remove, lemma_weight_bound, lemma_weight_remove,
    total_inversions, weight,
};
use crate::braid::leftweight::{
    canonical_factors, crossed_by_both, lemma_grow_keeps_both, lemma_grow_moves,
    lemma_move_keeps_both, lemma_outside_finishing, lemma_weighting_ends, lemma_weighting_starts,
    lemma_weighting_step, weighting_holds,
};
use crate::braid::segments::{fits, is_simple};
use crate::braid::sets::{finishing_seq, lemma_descents, places, starting_seq};
use crate::braid::{append_gens, canonical_word, in_range, indices, positive_word, BrGen, Braid};
use crate::error::BraidError;
use crate::ordered_set::{
    covers, first_outside, lemma_first_outside, set_first_difference, set_is_superset,
};
use crate::permutation::{Permutation, VecPermutation};
use crate::strands::{
    cross, exchange, exchange_vec, identity, identity_vec, is_arrangement,
    lemma_exchange_arrangement, lemma_identity_arrangement, lemma_walk_arrangement,
    lemma_walk_len, reversal, walk,
};

verus! {

/// The arrangement of the positive braid `B_i` with `SigmaInv(i) = Delta^-1 B_i`:
/// the reversal with the strands at positions `i` and `i + 1` exchanged.
pub open spec fn complement_arrangement(i: int, n: nat) -> Seq<usize> {
    exchange(reversal(n), i + 1, i)
}

/// The canonical word of `B_i`.
pub open spec fn complement_word(i: int, n: nat) -> Seq<usize> {
    canonical_word(complement_arrangement(i, n))
}

/// The word with every index `a` replaced by `n - a`.
pub open spec fn flipped(w: Seq<usize>, n: nat) -> Seq<usize> {
    Seq::new(w.len(), |k: int| (n - w[k]) as usize)
}

/// The positive word that is left when every inverse generator of `g` has
/// given up a `Delta^-1` and all of these have moved to the front.
///
/// A positive generator is kept. An inverse `SigmaInv(i)` becomes `B_i`, and
/// the `Delta^-1` that it gives up passes over all that stands before it,
/// which replaces each index `a` there by `n - a`.
pub open spec fn slid_word(g: Seq<BrGen>, n: nat) -> Seq<usize>
    decreases g.len(),
{
    if g.len() == 0 {
        Seq::empty()
    } else {
        let before = slid_word(g.drop_last(), n);
        match g.last() {
            BrGen::Sigma(i) => before.push(i),
            BrGen::SigmaInv(i) => flipped(before, n) + complement_word(i as int, n),
        }
    }
}

/// The number of inverse generators in a word.
pub open spec fn inverse_count(g: Seq<BrGen>) -> nat
    decreases g.len(),
{
    if g.len() == 0 {
        0
    } else {
        inverse_count(g.drop_last()) + if g.last() is SigmaInv {
            1nat
        } else {
            0nat
        }
    }
}

/// A word has no more inverse generators than generators.
pub proof fn lemma_inverse_count_bound(g: Seq<BrGen>)
    ensures
        inverse_count(g) <= g.len(),
    decreases g.len(),
{
    if g.len() > 0 {
        lemma_inverse_count_bound(g.drop_last());
    }
}

/// The reversal is an arrangement.
pub proof fn lemma_reversal_arrangement(n: nat)
    requires
        n <= usize::MAX,
    ensures
        is_arrangement(reversal(n)),
        reversal(n).len() == n,
{
}

/// Fills a vector with `n, n - 1, .., 1`.
pub fn reversal_vec(n: usize) -> (v: Vec<usize>)
    ensures
        v@ == reversal(n as nat),
{
    let mut v: Vec<usize> = Vec::new();
    let mut k: usize = 0;
    while k < n
        invariant
            k <= n,
            v@.len() == k,
            forall|j: int| 0 <= j < k ==> v@[j] == n - j,
        decreases n - k,
    {
        v.push(n - k);
        k += 1;
    }
    assert(v@ =~= reversal(n as nat));
    v
}

impl Braid {
    /// The positive permutation braid `B_i` with `SigmaInv(i) = Delta^-1 B_i`
    /// on `n` strands, as its canonical word.
    pub fn neg_pow_to_permute(i: usize, n: usize) -> (r: Result<Self, BraidError>)
        ensures
            !(1 <= i < n) ==> (r matches Err(e) && e == BraidError::InvalidGenerator),
            1 <= i < n ==> (r matches Ok(b) && b.n == n && b.wf() && b.gens@ == positive_word(
                complement_word(i as int, n as nat),
            ) && b.arrangement() == complement_arrangement(i as int, n as nat) && is_simple(
                n as nat,
                complement_word(i as int, n as nat),
            )),
    {
        if i == 0 || i >= n {
            return Err(BraidError::InvalidGenerator);
        }
        let mut p = reversal_vec(n);
        exchange_vec(&mut p, i + 1, i);
        proof {
            lemma_reversal_arrangement(n as nat);
            lemma_exchange_arrangement(reversal(n as nat), i + 1, i as int);
        }
        Self::from_slice(p.as_slice())
    }
}

/// Splits a braid into a power of the half twist and a positive braid to its
/// right: `b = Delta^p w`, with `p` the number of inverse generators of `b`,
/// negated.
pub fn left_slide_delta_form(b: &Braid) -> (r: Result<(i128, Braid), BraidError>)
    ensures
        !b.wf() ==> (r matches Err(e) && e == BraidError::InvalidGenerator),
        b.wf() ==> (r matches Ok((p, w)) && p == -inverse_count(b.gens@) && w.n == b.n && w.wf()
            && w.gens@ == positive_word(slid_word(b.gens@, b.n as nat))),
{
    if !b.is_well_formed() {
        return Err(BraidError::InvalidGenerator);
    }
    let n = b.n;
    let len = b.gens.len();
    let mut out: Vec<BrGen> = Vec::new();
    let mut counter: i128 = 0;
    let mut k: usize = 0;
    proof {
        assert(out@ =~= positive_word(slid_word(b.gens@.take(0), n as nat)));
    }
    while k < len
        invariant
            k <= len,
            len == b.gens@.len(),
            n == b.n,
            b.wf(),
            counter == -inverse_count(b.gens@.take(k as int)),
            inverse_count(b.gens@.take(k as int)) <= k,
            out@ == positive_word(slid_word(b.gens@.take(k as int), n as nat)),
            in_range(out@, n as nat),
        decreases len - k,
    {
        let ghost before = slid_word(b.gens@.take(k as int), n as nat);
        proof {
            assert(b.gens@.take(k + 1).drop_last() =~= b.gens@.take(k as int));
            assert(1 <= b.gens@[k as int].index() < n);
        }
        match b.gens[k] {
            BrGen::Sigma(i) => {
                out.push(BrGen::Sigma(i));
                proof {
                    assert(out@ =~= positive_word(before.push(i)));
                }
            },
            BrGen::SigmaInv(i) => {
                let m = out.len();
                let mut j: usize = 0;
                proof {
                    assert forall|t: int| 0 <= t < m implies 1 <= #[trigger] before[t] < n by {
                        assert(out@[t].index() == before[t]);
                    }
                }
                while j < m
                    invariant
                        j <= m,
                        m == out@.len(),
                        m == before.len(),
                        forall|t: int| 0 <= t < m ==> 1 <= #[trigger] before[t] < n,
                        forall|t: int| 0 <= t < j ==> #[trigger] out@[t] == BrGen::Sigma((n - before[t]) as usize),
                        forall|t: int| j <= t < m ==> #[trigger] out@[t] == BrGen::Sigma(before[t]),
                    decreases m - j,
                {
                    match out[j] {
                        BrGen::Sigma(a) => {
                            out[j] = BrGen::Sigma(n - a);
                        },
                        BrGen::SigmaInv(_) => {
                            assert(false);
                            return Err(BraidError::InvariantViolation);
                        },
                    }
                    j += 1;
                }
                let replacement = Braid::neg_pow_to_permute(i, n);
                match replacement {
                    Ok(piece) => {
                        proof {
                            assert(out@ =~= positive_word(flipped(before, n as nat)));
                        }
                        append_gens(&mut out, &piece.gens);
                        proof {
                            assert(out@ =~= positive_word(
                                flipped(before, n as nat) + complement_word(i as int, n as nat),
                            ));
                        }
                    },
                    Err(e) => {
                        assert(false);
                        return Err(e);
                    },
                }
                counter = counter - 1;
            },
        }
        k += 1;
    }
    proof {
        assert(b.gens@.take(len as int) =~= b.gens@);
    }
    Ok((counter, Braid { gens: out, n }))
}

/// The arrangement in which the positive word `w` on `n` strands ends.
pub open spec fn word_arrangement(n: nat, w: Seq<usize>) -> Seq<usize> {
    walk(identity(n), w)
}

/// The factor `a` is left-weighted against the factor `b` that follows it:
/// the finishing set of `a` holds the starting set of `b`.
pub open spec fn weighted(n: nat, a: Seq<usize>, b: Seq<usize>) -> bool {
    covers(finishing_seq(word_arrangement(n, a)), starting_seq(word_arrangement(n, b)))
}

/// The first position of the starting set of `b` that the finishing set of
/// `a` lacks.
pub open spec fn first_unweighted(n: nat, a: Seq<usize>, b: Seq<usize>) -> Option<usize> {
    first_outside(starting_seq(word_arrangement(n, b)), finishing_seq(word_arrangement(n, a)))
}

/// The positive permutation braid that is left of `b` when the crossing `j`
/// is taken off its front: the canonical word of the arrangement that `b`
/// reaches from the identity with the strands at `j` and `j + 1` exchanged.
pub open spec fn without_front(n: nat, b: Seq<usize>, j: usize) -> Seq<usize> {
    canonical_word(walk(cross(identity(n), j as int), b))
}

/// Moves crossings from the front of `b` to the end of `a` until `a` is
/// left-weighted against `b`. Gives the two factors and what is left of the
/// `moves` that were allowed, or nothing if they did not suffice.
pub open spec fn settle(n: nat, a: Seq<usize>, b: Seq<usize>, moves: nat) -> Option<
    (Seq<usize>, Seq<usize>, nat),
>
    decreases moves,
{
    match first_unweighted(n, a, b) {
        None => Some((a, b, moves)),
        Some(j) => if moves == 0 {
            None
        } else {
            settle(n, a.push(j), without_front(n, b, j), (moves - 1) as nat)
        },
    }
}

/// Settling two factors leaves them left-weighted, uses up a move for each
/// crossing by which the first has grown, and changes nothing where it uses
/// none.
pub proof fn lemma_settle(n: nat, a: Seq<usize>, b: Seq<usize>, moves: nat)
    ensures
        settle(n, a, b, moves) matches Some((x, y, left)) ==> left <= moves && x.len() >= a.len()
            && first_unweighted(n, x, y) is None && (x.len() != a.len() ==> left < moves) && (
        x.len() == a.len() ==> x == a && y == b && left == moves),
    decreases moves,
{
    if let Some(j) = first_unweighted(n, a, b) {
        if moves > 0 {
            lemma_settle(n, a.push(j), without_front(n, b, j), (moves - 1) as nat);
        }
    }
}

/// Makes the list of factors left-weighted from position `i` on: the pair
/// at `i` is settled; a second factor that has given up all its crossings
/// leaves the list; where the first has grown, the pair before it is looked
/// at again, else the pair after it. Nothing where the `moves` that are
/// allowed do not suffice.
pub open spec fn weigh(n: nat, fs: Seq<Seq<usize>>, i: nat, moves: nat) -> Option<
    Seq<Seq<usize>>,
>
    decreases 3 * moves + fs.len() - i,
{
    if i + 1 >= fs.len() {
        Some(fs)
    } else {
        match settle(n, fs[i as int], fs[i as int + 1], moves) {
            None => None,
            Some((a, b, left)) => {
                let grown = a.len() != fs[i as int].len();
                let moved = fs.update(i as int, a).update(i as int + 1, b);
                let kept = if word_arrangement(n, b) == identity(n) {
                    moved.remove(i as int + 1)
                } else {
                    moved
                };
                let next = if grown && i > 0 {
                    (i - 1) as nat
                } else {
                    i + 1
                };
                if left <= moves && (grown ==> left < moves) {
                    weigh(n, kept, next, left)
                } else {
                    None
                }
            },
        }
    }
}

/// The moves that the left-weighting of `k` factors with `len` crossings
/// in all is allowed: no crossing moves more often than there are factors.
pub open spec fn budget(k: nat, len: nat) -> nat {
    k * len
}

/// Takes the half twists out of a list of factors: how many there are, and
/// the arrangements of the other factors in their order.
pub open spec fn absorb(n: nat, fs: Seq<Seq<usize>>) -> (nat, Seq<Seq<usize>>)
    decreases fs.len(),
{
    if fs.len() == 0 {
        (0, Seq::empty())
    } else {
        let (twists, kept) = absorb(n, fs.drop_last());
        let e = word_arrangement(n, fs.last());
        if e == reversal(n) {
            (twists + 1, kept)
        } else {
            (twists, kept.push(e))
        }
    }
}

/// The left normal form of the word `g` on `n` strands: the exponent of the
/// half twist and the arrangements of the factors. Nothing where the
/// left-weighting runs out of its budget.
pub open spec fn garside_model(n: nat, g: Seq<BrGen>) -> Option<(int, Seq<Seq<usize>>)> {
    let w = slid_word(g, n);
    let segs = segmentation(n, w);
    match weigh(n, segs, 0, budget(segs.len(), w.len())) {
        None => None,
        Some(fs) => Some((absorb(n, fs).0 - inverse_count(g), absorb(n, fs).1)),
    }
}

/// A braid in left normal form: a power of the half twist, then factors
/// that are positive permutation braids, each given by its arrangement.
pub struct GarsideForm {
    delta_exp: i128,
    permutations: Vec<VecPermutation>,
}

impl GarsideForm {
    /// The exponent of the half twist.
    pub closed spec fn exponent(&self) -> int {
        self.delta_exp as int
    }

    /// The arrangements of the factors, first factor first.
    pub closed spec fn factors(&self) -> Seq<Seq<usize>> {
        Seq::new(self.permutations@.len(), |k: int| self.permutations@[k]@)
    }

    /// The exponent of the half twist.
    pub fn delta_exp(&self) -> (p: i128)
        ensures
            p == self.exponent(),
    {
        self.delta_exp
    }

    /// The number of factors.
    pub fn len(&self) -> (k: usize)
        ensures
            k == self.factors().len(),
    {
        self.permutations.len()
    }

    /// The arrangement of factor `k`, counted from 0.
    pub fn factor(&self, k: usize) -> (e: &VecPermutation)
        requires
            k < self.factors().len(),
        ensures
            e@ == self.factors()[k as int],
    {
        &self.permutations[k]
    }

    /// The arrangements of the factors, first factor first.
    pub fn permutations(&self) -> (ps: &Vec<VecPermutation>)
        ensures
            ps@.len() == self.factors().len(),
            forall|k: int| 0 <= k < ps@.len() ==> (#[trigger] ps@[k])@ == self.factors()[k],
    {
        &self.permutations
    }
}

fn compute_budget(k: usize, len: usize) -> (moves: u128)
    ensures
        moves == budget(k as nat, len as nat),
{
    assert(usize::MAX <= 0xffff_ffff_ffff_ffff);
    assert(k * len <= u128::MAX) by (nonlinear_arith)
        requires
            0 <= k <= 0xffff_ffff_ffff_ffff,
            0 <= len <= 0xffff_ffff_ffff_ffff,
    ;
    (k as u128) * (len as u128)
}

/// A copy of the positive braid `a` with the crossing `j` added at its end.
fn extended(a: &Braid, j: usize) -> (b: Braid)
    requires
        a.positive(),
        a.wf(),
        1 <= j < a.n,
    ensures
        b.n == a.n,
        b.positive(),
        b.wf(),
        indices(b.gens@) == indices(a.gens@).push(j),
{
    let mut gens: Vec<BrGen> = Vec::new();
    append_gens(&mut gens, &a.gens);
    gens.push(BrGen::Sigma(j));
    let b = Braid { gens, n: a.n };
    assert(indices(b.gens@) =~= indices(a.gens@).push(j));
    b
}

/// The positive braid `b` with the crossing `j` taken off its front, as a
/// canonical word.
fn shortened(b: &Braid, j: usize) -> (r: Braid)
    requires
        b.positive(),
        b.wf(),
        1 <= j < b.n,
    ensures
        r.n == b.n,
        r.positive(),
        r.wf(),
        indices(r.gens@) == without_front(b.n as nat, indices(b.gens@), j),
        r.arrangement() == walk(cross(identity(b.n as nat), j as int), indices(b.gens@)),
{
    let n = b.n;
    let mut perm = identity_vec(n);
    exchange_vec(&mut perm, j, j + 1);
    proof {
        lemma_identity_arrangement(n as nat);
        lemma_exchange_arrangement(identity(n as nat), j as int, j + 1);
        lemma_walk_arrangement(cross(identity(n as nat), j as int), indices(b.gens@));
    }
    let walked = b.permute(&mut perm);
    assert(walked is Ok);
    match Braid::from_slice(perm.as_slice()) {
        Ok(r) => {
            assert(indices(r.gens@) =~= without_front(n as nat, indices(b.gens@), j));
            r
        },
        Err(_) => {
            assert(false);
            Braid { gens: Vec::new(), n }
        },
    }
}

/// Whether the positive braid `a` is left-weighted against the positive
/// braid `b` on the same strands; if not, the first position that is
/// missing.
fn unweighted_at(a: &Braid, b: &Braid) -> (j: Option<usize>)
    requires
        a.positive(),
        a.wf(),
        b.positive(),
        b.wf(),
        a.n == b.n,
    ensures
        j == first_unweighted(a.n as nat, indices(a.gens@), indices(b.gens@)),
        j is None <==> weighted(a.n as nat, indices(a.gens@), indices(b.gens@)),
        j matches Some(x) ==> 1 <= x < a.n && !finishing_seq(a.arrangement()).contains(x)
            && starting_seq(b.arrangement()).contains(x),
{
    let ghost n = a.n as nat;
    let ghost ea = word_arrangement(n, indices(a.gens@));
    let ghost eb = word_arrangement(n, indices(b.gens@));
    proof {
        lemma_first_outside(starting_seq(eb), finishing_seq(ea));
        lemma_walk_len(identity(n), indices(b.gens@));
        if n > 0 {
            lemma_descents(places(eb), (n - 1) as nat);
        }
    }
    let next_starting = match b.starting_set() {
        Ok(s) => s,
        Err(_) => {
            assert(false);
            return None;
        },
    };
    let prev_finishing = match a.finishing_set() {
        Ok(s) => s,
        Err(_) => {
            assert(false);
            return None;
        },
    };
    if set_is_superset(&prev_finishing, &next_starting) {
        None
    } else {
        set_first_difference(&next_starting, &prev_finishing)
    }
}

/// The words of positive factors on `n` strands have their indices in range.
pub proof fn lemma_fits(fs: Seq<Braid>, n: usize)
    requires
        positive_factors(fs, n),
    ensures
        forall|k: int| 0 <= k < fs.len() ==> fits(#[trigger] factor_words(fs)[k], n as nat),
{
    assert forall|k: int| 0 <= k < fs.len() implies fits(#[trigger] factor_words(fs)[k], n as nat) by {
        let w = factor_words(fs)[k];
        assert forall|t: int| 0 <= t < w.len() implies 1 <= #[trigger] w[t] < n by {
            assert(fs[k].gens@[t].index() == w[t]);
        }
    }
}

/// The list after the pair at `i` has been settled into `a` and `b`: `b`
/// has left it if it has given up all its crossings.
pub open spec fn after_visit(n: nat, fs: Seq<Seq<usize>>, i: int, a: Seq<usize>, b: Seq<usize>) -> Seq<
    Seq<usize>,
> {
    if word_arrangement(n, b) == identity(n) {
        fs.update(i, a).update(i + 1, b).remove(i + 1)
    } else {
        fs.update(i, a).update(i + 1, b)
    }
}

/// The position that is looked at after the pair at `i`.
pub open spec fn next_visit(i: int, changed: bool) -> int {
    if changed && i > 0 {
        i - 1
    } else {
        i + 1
    }
}

/// One visit of the pair at `i` in the left-weighting: the rest of the
/// work is the left-weighting of the list that the visit leaves, what holds
/// of the list still holds, the moves still cover its weight, and the
/// measure by which the work ends has gone down.
pub proof fn lemma_visit(
    n: nat,
    fs: Seq<Seq<usize>>,
    i: int,
    allowed: nat,
    a: Seq<usize>,
    b: Seq<usize>,
    left: nat,
    changed: bool,
)
    requires
        n <= usize::MAX,
        weighting_holds(n, fs, i),
        0 <= i,
        i + 1 < fs.len(),
        settle(n, fs[i], fs[i + 1], allowed) == Some((a, b, left)),
        changed == (a.len() != fs[i].len()),
        fits(a, n),
        fits(b, n),
        weighted(n, a, b),
        changed ==> word_arrangement(n, a) != identity(n),
        !changed ==> a == fs[i] && b == fs[i + 1],
        crossed_by_both(word_arrangement(n, fs[i]), word_arrangement(n, fs[i + 1]))
            ==> crossed_by_both(word_arrangement(n, a), word_arrangement(n, b)),
        crossed_by_both(word_arrangement(n, fs[0]), word_arrangement(n, fs[i]))
            ==> crossed_by_both(word_arrangement(n, fs[0]), word_arrangement(n, a)),
        left >= weight(n, fs.update(i, a).update(i + 1, b)),
        total_inversions(n, fs.update(i, a).update(i + 1, b)) == total_inversions(n, fs),
        product(identity(n), fs.update(i, a).update(i + 1, b)) == product(identity(n), fs),
    ensures
        total_inversions(n, after_visit(n, fs, i, a, b)) == total_inversions(n, fs),
        product(identity(n), after_visit(n, fs, i, a, b)) == product(identity(n), fs),
        weigh(n, fs, i as nat, allowed) == weigh(
            n,
            after_visit(n, fs, i, a, b),
            next_visit(i, changed) as nat,
            left,
        ),
        weighting_holds(n, after_visit(n, fs, i, a, b), next_visit(i, changed)),
        left >= weight(n, after_visit(n, fs, i, a, b)),
        0 <= next_visit(i, changed),
        3 * left + after_visit(n, fs, i, a, b).len() - next_visit(i, changed) < 3 * allowed
            + fs.len() - i,
{
    lemma_settle(n, fs[i], fs[i + 1], allowed);
    lemma_weighting_step(n, fs, i, a, b, changed);
    let moved = fs.update(i, a).update(i + 1, b);
    if word_arrangement(n, b) == identity(n) {
        lemma_inversions_identity(n);
        lemma_weight_remove(n, moved, i + 1);
        lemma_total_remove(n, moved, i + 1);
        lemma_product_remove(n, moved, i + 1);
    }
}

/// Moves crossings from the front of factor `i + 1` to the end of factor
/// `i` until the two are left-weighted, and tells whether anything moved.
/// The moves that are left suffice as long as they cover the weight of the
/// list.
fn settle_pair(
    bs: &mut Vec<Braid>,
    i: usize,
    n: usize,
    moves: &mut u128,
    Ghost(e0): Ghost<Seq<usize>>,
) -> (r: Result<bool, BraidError>)
    requires
        positive_factors(old(bs)@, n),
        i + 1 < old(bs)@.len(),
        e0.len() == n,
        *old(moves) >= weight(n as nat, factor_words(old(bs)@)),
    ensures
        final(bs)@.len() == old(bs)@.len(),
        r matches Ok(changed) && positive_factors(final(bs)@, n) && settle(
            n as nat,
            factor_words(old(bs)@)[i as int],
            factor_words(old(bs)@)[i + 1],
            *old(moves) as nat,
        ) == Some(
            (
                factor_words(final(bs)@)[i as int],
                factor_words(final(bs)@)[i + 1],
                *final(moves) as nat,
            ),
        ) && factor_words(final(bs)@) == factor_words(old(bs)@).update(
            i as int,
            factor_words(final(bs)@)[i as int],
        ).update(i + 1, factor_words(final(bs)@)[i + 1]) && changed == (factor_words(
            final(bs)@,
        )[i as int].len() != factor_words(old(bs)@)[i as int].len()) && weighted(
            n as nat,
            factor_words(final(bs)@)[i as int],
            factor_words(final(bs)@)[i + 1],
        ) && (!changed ==> factor_words(final(bs)@) == factor_words(old(bs)@)) && (changed
            ==> word_arrangement(n as nat, factor_words(final(bs)@)[i as int]) != identity(
            n as nat,
        )) && (crossed_by_both(
            word_arrangement(n as nat, factor_words(old(bs)@)[i as int]),
            word_arrangement(n as nat, factor_words(old(bs)@)[i + 1]),
        ) ==> crossed_by_both(
            word_arrangement(n as nat, factor_words(final(bs)@)[i as int]),
            word_arrangement(n as nat, factor_words(final(bs)@)[i + 1]),
        )) && (crossed_by_both(e0, word_arrangement(n as nat, factor_words(old(bs)@)[i as int]))
            ==> crossed_by_both(
            e0,
            word_arrangement(n as nat, factor_words(final(bs)@)[i as int]),
        )) && *final(moves) >= weight(n as nat, factor_words(final(bs)@)) && total_inversions(
            n as nat,
            factor_words(final(bs)@),
        ) == total_inversions(n as nat, factor_words(old(bs)@)) && product(
            identity(n as nat),
            factor_words(final(bs)@),
        ) == product(identity(n as nat), factor_words(old(bs)@)),
{
    let ghost start = factor_words(bs@);
    let ghost goal = settle(n as nat, start[i as int], start[i + 1], *moves as nat);
    let mut changed = false;
    let count = bs.len();
    assert(i < count);
    loop
        invariant
            positive_factors(bs@, n),
            bs@.len() == old(bs)@.len(),
            i + 1 < bs@.len(),
            i < usize::MAX,
            start == factor_words(old(bs)@),
            goal == settle(n as nat, start[i as int], start[i + 1], *old(moves) as nat),
            factor_words(bs@) == start.update(i as int, factor_words(bs@)[i as int]).update(
                i + 1,
                factor_words(bs@)[i + 1],
            ),
            factor_words(bs@)[i as int].len() >= start[i as int].len(),
            changed == (factor_words(bs@)[i as int].len() != start[i as int].len()),
            goal == settle(
                n as nat,
                factor_words(bs@)[i as int],
                factor_words(bs@)[i + 1],
                *moves as nat,
            ),
            e0.len() == n,
            *moves >= weight(n as nat, factor_words(bs@)),
            total_inversions(n as nat, factor_words(bs@)) == total_inversions(n as nat, start),
            product(identity(n as nat), factor_words(bs@)) == product(identity(n as nat), start),
            !changed ==> factor_words(bs@) == start,
            changed ==> word_arrangement(n as nat, factor_words(bs@)[i as int]) != identity(
                n as nat,
            ),
            crossed_by_both(
                word_arrangement(n as nat, start[i as int]),
                word_arrangement(n as nat, start[i + 1]),
            ) ==> crossed_by_both(
                word_arrangement(n as nat, factor_words(bs@)[i as int]),
                word_arrangement(n as nat, factor_words(bs@)[i + 1]),
            ),
            crossed_by_both(e0, word_arrangement(n as nat, start[i as int])) ==> crossed_by_both(
                e0,
                word_arrangement(n as nat, factor_words(bs@)[i as int]),
            ),
        ensures
            goal == Some(
                (factor_words(bs@)[i as int], factor_words(bs@)[i + 1], *moves as nat),
            ),
            weighted(n as nat, factor_words(bs@)[i as int], factor_words(bs@)[i + 1]),
        decreases *moves,
    {
        let j = match unweighted_at(&bs[i], &bs[i + 1]) {
            None => {
                break ;
            },
            Some(j) => j,
        };
        let ghost before = factor_words(bs@);
        let grown = extended(&bs[i], j);
        let cut = shortened(&bs[i + 1], j);
        proof {
            let ea = word_arrangement(n as nat, before[i as int]);
            let wb = before[i + 1];
            lemma_fits(bs@, n);
            lemma_identity_arrangement(n as nat);
            lemma_walk_arrangement(identity(n as nat), before[i as int]);
            lemma_outside_finishing(ea, j);
            crate::braid::lemma_walk_push(identity(n as nat), before[i as int], j);
            lemma_grow_moves(n as nat, ea, j);
            if crossed_by_both(ea, word_arrangement(n as nat, wb)) {
                lemma_move_keeps_both(n as nat, ea, wb, j);
            }
            if crossed_by_both(e0, ea) {
                lemma_grow_keeps_both(e0, ea, j);
            }
            lemma_move_weight(
                n as nat,
                before,
                i as int,
                j,
                indices(grown.gens@),
                indices(cut.gens@),
            );
            lemma_product_move(
                n as nat,
                before,
                i as int,
                j,
                indices(grown.gens@),
                indices(cut.gens@),
                before.len() as int,
            );
            let after = before.update(i as int, indices(grown.gens@)).update(
                i + 1,
                indices(cut.gens@),
            );
            assert(after.take(before.len() as int) =~= after);
            assert(before.take(before.len() as int) =~= before);
        }
        if *moves == 0 {
            // the weight of the list is at least one here
            assert(false);
            return Err(BraidError::WeightingDivergence);
        }
        *moves = *moves - 1;
        bs[i] = grown;
        bs[i + 1] = cut;
        changed = true;
        proof {
            assert(factor_words(bs@) =~= before.update(i as int, before[i as int].push(j)).update(
                i + 1,
                without_front(n as nat, before[i + 1], j),
            ));
            assert(factor_words(bs@) =~= start.update(i as int, factor_words(bs@)[i as int]).update(
                i + 1,
                factor_words(bs@)[i + 1],
            ));
        }
    }
    Ok(changed)
}

impl Braid {
    /// The Garside left normal form of the braid: the half twists that its
    /// inverse generators give up are moved to the front, what is left is
    /// cut into positive permutation braids, these are made left-weighted,
    /// and the factors that have become half twists join the exponent.
    ///
    /// Every word with its indices in range has a normal form. Its factors
    /// are neither the identity nor the half twist, and each is
    /// left-weighted against the next.
    pub fn as_garside_form(&self) -> (r: Result<GarsideForm, BraidError>)
        ensures
            // a word has a normal form exactly if its indices are in range
            !self.wf() ==> (r matches Err(e) && e == BraidError::InvalidGenerator),
            self.wf() ==> r is Ok,
            // the form is the one that the steps above define
            r matches Ok(form) ==> garside_model(self.n as nat, self.gens@) == Some(
                (form.exponent(), form.factors()),
            ),
            // its factors are admissible and left-weighted
            r matches Ok(form) ==> canonical_factors(self.n as nat, form.factors()),
            // it has the exponent sum of the word
            r matches Ok(form) ==> form_exponent_sum(
                self.n as nat,
                form.exponent(),
                form.factors(),
            ) == exponent_sum(self.gens@),
            // it induces the permutation of the word
            r matches Ok(form) ==> form_arrangement(
                self.n as nat,
                form.exponent(),
                form.factors(),
            ) == self.arrangement(),
    {
        let n = self.n;
        let (exponent, braid) = match left_slide_delta_form(self) {
            Ok(pair) => pair,
            Err(e) => {
                return Err(e);
            },
        };
        let ghost w = slid_word(self.gens@, n as nat);
        proof {
            assert(indices(braid.gens@) =~= w);
            lemma_inverse_count_bound(self.gens@);
        }
        let mut bs = match break_into_permutations(&braid) {
            Ok(bs) => bs,
            Err(e) => {
                assert(false);
                return Err(e);
            },
        };
        let mut moves = compute_budget(bs.len(), braid.gens.len());
        let ghost goal = weigh(n as nat, factor_words(bs@), 0, moves as nat);
        proof {
            assert(fits(w, n as nat)) by {
                assert forall|k: int| 0 <= k < w.len() implies 1 <= #[trigger] w[k] < n by {
                    assert(braid.gens@[k].index() == w[k]);
                }
            }
            lemma_weighting_starts(n as nat, w);
            lemma_fits(bs@, n);
            lemma_weight_bound(n as nat, factor_words(bs@));
            lemma_segmentation_len(n as nat, w);
            lemma_segmentation_total(n as nat, w);
            lemma_slide_sum(self.gens@, n as nat);
            crate::braid::crossings::lemma_segmentation_joins(n as nat, w);
            lemma_slide_arrangement(self.gens@, n as nat);
        }
        let mut working_index: usize = 0;
        while bs.len() >= 2 && working_index < bs.len() - 1
            invariant
                self.wf(),
                n == self.n,
                positive_factors(bs@, n),
                goal == weigh(n as nat, factor_words(bs@), working_index as nat, moves as nat),
                weighting_holds(n as nat, factor_words(bs@), working_index as int),
                moves >= weight(n as nat, factor_words(bs@)),
                total_inversions(n as nat, factor_words(bs@)) == w.len(),
                product(identity(n as nat), factor_words(bs@)) == walk(identity(n as nat), w),
            decreases 3 * moves + bs@.len() - working_index,
        {
            let ghost before = factor_words(bs@);
            let ghost allowed = moves;
            let ghost e0 = word_arrangement(n as nat, before[0]);
            proof {
                lemma_walk_len(identity(n as nat), before[0]);
            }
            let changed = match settle_pair(&mut bs, working_index, n, &mut moves, Ghost(e0)) {
                Ok(changed) => changed,
                Err(e) => {
                    assert(false);
                    return Err(e);
                },
            };
            let ghost moved = factor_words(bs@);
            let ghost a = moved[working_index as int];
            let ghost b = moved[working_index + 1];
            proof {
                lemma_walk_len(identity(n as nat), b);
                lemma_fits(bs@, n);
                assert(moved == before.update(working_index as int, a).update(
                    working_index + 1,
                    b,
                ));
                lemma_visit(
                    n as nat,
                    before,
                    working_index as int,
                    allowed as nat,
                    a,
                    b,
                    moves as nat,
                    changed,
                );
            }
            if bs[working_index + 1].is_identity() {
                bs.remove(working_index + 1);
                proof {
                    assert(factor_words(bs@) =~= moved.remove(working_index + 1));
                }
            }
            proof {
                assert(factor_words(bs@) == after_visit(
                    n as nat,
                    before,
                    working_index as int,
                    a,
                    b,
                ));
            }
            if changed && working_index != 0 {
                working_index -= 1;
            } else {
                working_index += 1;
            }
        }
        let ghost fs = factor_words(bs@);
        assert(goal == Some(fs));
        proof {
            lemma_weighting_ends(n as nat, fs, working_index as int);
            lemma_absorb_total(n as nat, fs);
            lemma_absorb_arrangement(n as nat, fs);
            lemma_form_mirrored(
                n as nat,
                absorb(n as nat, fs).0 as int,
                inverse_count(self.gens@),
                absorb(n as nat, fs).1,
            );
            lemma_identity_arrangement(n as nat);
            lemma_walk_arrangement(identity(n as nat), indices(self.gens@));
            lemma_mirror_twice(self.arrangement());
        }
        let mut delta_exp: i128 = exponent;
        let mut result: Vec<VecPermutation> = Vec::new();
        let count = bs.len();
        let mut k: usize = 0;
        let ghost mut kept: Seq<Seq<usize>> = Seq::empty();
        proof {
            assert(fs.take(0) =~= Seq::<Seq<usize>>::empty());
        }
        while k < count
            invariant
                k <= count,
                count == bs@.len(),
                fs == factor_words(bs@),
                positive_factors(bs@, n),
                -inverse_count(self.gens@) == exponent,
                inverse_count(self.gens@) <= self.gens@.len(),
                delta_exp == exponent + absorb(n as nat, fs.take(k as int)).0,
                absorb(n as nat, fs.take(k as int)).0 <= k,
                kept == absorb(n as nat, fs.take(k as int)).1,
                kept.len() == result@.len(),
                forall|j: int| 0 <= j < kept.len() ==> (#[trigger] result@[j])@ == kept[j],
            decreases count - k,
        {
            proof {
                assert(fs.take(k + 1).drop_last() =~= fs.take(k as int));
                assert(fs.take(k + 1).last() == fs[k as int]);
                lemma_walk_len(identity(n as nat), fs[k as int]);
                lemma_identity_arrangement(n as nat);
                lemma_walk_arrangement(identity(n as nat), fs[k as int]);
            }
            let perm = bs[k].as_vec();
            if perm.is_twist() {
                delta_exp = delta_exp + 1;
            } else {
                proof {
                    kept = kept.push(perm@);
                }
                result.push(perm);
            }
            k += 1;
        }
        proof {
            assert(fs.take(count as int) =~= fs);
        }
        let form = GarsideForm { delta_exp, permutations: result };
        proof {
            assert(form.factors() =~= kept);
            let t = absorb(n as nat, fs).0 as int;
            let c = inverse_count(self.gens@) as int;
            let len = twist_len(n as nat) as int;
            assert((t - c) * len == t * len - c * len) by (nonlinear_arith);
        }
        Ok(form)
    }

    /// Whether the cut of the positive word into permutation braids is
    /// left-weighted as it stands.
    pub fn is_left_weighted(&self) -> (r: Result<bool, BraidError>)
        ensures
            !self.wf() ==> (r matches Err(e) && e == BraidError::InvalidGenerator),
            self.wf() && !self.positive() ==> (r matches Err(e) && e
                == BraidError::NonPositiveWord),
            self.wf() && self.positive() ==> (r matches Ok(yes) && yes == all_weighted(
                self.n as nat,
                segmentation(self.n as nat, indices(self.gens@)),
            )),
    {
        let ps = match break_into_permutations(self) {
            Ok(ps) => ps,
            Err(e) => {
                return Err(e);
            },
        };
        let ghost fs = factor_words(ps@);
        let mut i: usize = 0;
        while ps.len() >= 2 && i < ps.len() - 1
            invariant
                self.wf(),
                self.positive(),
                fs == segmentation(self.n as nat, indices(self.gens@)),
                fs == factor_words(ps@),
                positive_factors(ps@, self.n),
                forall|k: int| 0 <= k < i ==> #[trigger] weighted(self.n as nat, fs[k], fs[k + 1]),
            decreases ps.len() - i,
        {
            if unweighted_at(&ps[i], &ps[i + 1]).is_some() {
                assert(!weighted(self.n as nat, fs[i as int], fs[i + 1]));
                return Ok(false);
            }
            i += 1;
        }
        Ok(true)
    }
}

/// Every factor of the list is left-weighted against the next one.
pub open spec fn all_weighted(n: nat, fs: Seq<Seq<usize>>) -> bool {
    forall|k: int| 0 <= k < fs.len() - 1 ==> #[trigger] weighted(n, fs[k], fs[k + 1])
}

} // verus!
