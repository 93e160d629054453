//! Random positive braids, and rewrites of a word that keep the braid.

use vstd::prelude::*;
use rand::prng::hc128::Hc128Rng;
use crate::braid::segments::fits;
use crate::braid::{
    append_gens, canonical_word, in_range, lemma_walk_push, positive_word, BrGen, Braid,
};
use crate::error::BraidError;
use crate::permutation::{Permutation, VecPermutation};
use crate::rng::{draw, os_rng, os_seed, seeded};
use crate::strands::{
    exchange_vec, identity, identity_vec, is_arrangement, lemma_exchange_arrangement,
    lemma_identity_arrangement, walk,
};

verus! {

/// The arrangement is reached from the identity by at most `limit`
/// crossings of neighbouring strands.
pub open spec fn within_crossings(e: Seq<usize>, limit: nat) -> bool {
    exists|w: Seq<usize>| #[trigger]
        fits(w, e.len()) && w.len() <= limit && e == walk(identity(e.len()), w)
}

/// The canonical words of the permutations, one after the other.
pub open spec fn canonical_product(perms: Seq<Seq<usize>>) -> Seq<usize>
    decreases perms.len(),
{
    if perms.len() == 0 {
        Seq::empty()
    } else {
        canonical_product(perms.drop_last()) + canonical_word(perms.last())
    }
}

/// An HC-128 generator with a seed from the operating system.
fn make_rng() -> (r: Result<Hc128Rng, BraidError>)
    ensures
        r matches Err(e) ==> e == BraidError::RandomSource,
{
    match os_rng() {
        Err(_) => Err(BraidError::RandomSource),
        Ok(mut os) => {
            let seed = os_seed(&mut os);
            rng_of_seed(seed)
        },
    }
}

/// What comes of the answer of the operating system: the generator with the
/// seed that it gave, or `RandomSource` where it gave none.
fn rng_of_seed(seed: Result<[u8; 32], rand::Error>) -> (r: Result<Hc128Rng, BraidError>)
    ensures
        r is Ok <==> seed is Ok,
        r matches Err(e) ==> e == BraidError::RandomSource,
{
    match seed {
        Err(_) => Err(BraidError::RandomSource),
        Ok(bytes) => Ok(seeded(bytes)),
    }
}

/// A permutation of `n` strands made of up to `complexity` crossings of
/// neighbouring strands. Each crossing is left out with probability
/// `miss_num / miss_den`; its place is drawn evenly.
fn random_permutation(
    n: usize,
    complexity: usize,
    miss_num: usize,
    miss_den: usize,
    rng: &mut Hc128Rng,
) -> (perm: VecPermutation)
    requires
        miss_den > 0,
    ensures
        perm@.len() == n,
        is_arrangement(perm@),
        within_crossings(perm@, complexity as nat),
{
    let mut perm = identity_vec(n);
    let ghost mut done: Seq<usize> = Seq::empty();
    let mut round: usize = 0;
    proof {
        lemma_identity_arrangement(n as nat);
    }
    while round < complexity
        invariant
            round <= complexity,
            miss_den > 0,
            perm@.len() == n,
            is_arrangement(perm@),
            fits(done, n as nat),
            done.len() <= round,
            perm@ == walk(identity(n as nat), done),
        decreases complexity - round,
    {
        round += 1;
        let drawing = draw(rng, 0, miss_den);
        if drawing < miss_num || n < 2 {
            continue ;
        }
        let place = draw(rng, 1, n);
        proof {
            lemma_exchange_arrangement(perm@, place as int, place + 1);
            lemma_walk_push(identity(n as nat), done, place);
            done = done.push(place);
        }
        exchange_vec(&mut perm, place, place + 1);
    }
    proof {
        assert(fits(done, perm@.len()) && done.len() <= complexity && perm@ == walk(
            identity(perm@.len()),
            done,
        ));
    }
    perm
}

/// The positive braid on `n` strands that is the product of the canonical
/// words of the given permutations of `n` strands.
pub fn product_of_permutations(n: usize, perms: &Vec<VecPermutation>) -> (r: Result<
    Braid,
    BraidError,
>)
    ensures
        r is Ok <==> forall|k: int|
            0 <= k < perms@.len() ==> is_arrangement((#[trigger] perms@[k])@) && perms@[k]@.len()
                == n,
        r matches Err(e) ==> e == BraidError::InvalidGenerator,
        r matches Ok(b) ==> b.n == n && b.wf() && b.gens@ == positive_word(
            canonical_product(Seq::new(perms@.len(), |k: int| perms@[k]@)),
        ),
{
    let ghost all = Seq::new(perms@.len(), |k: int| perms@[k]@);
    let mut gens: Vec<BrGen> = Vec::new();
    let mut k: usize = 0;
    proof {
        assert(all.take(0) =~= Seq::<Seq<usize>>::empty());
        assert(gens@ =~= positive_word(canonical_product(all.take(0))));
    }
    while k < perms.len()
        invariant
            k <= perms.len(),
            all == Seq::new(perms@.len(), |k: int| perms@[k]@),
            forall|j: int|
                0 <= j < k ==> is_arrangement((#[trigger] perms@[j])@) && perms@[j]@.len() == n,
            gens@ == positive_word(canonical_product(all.take(k as int))),
            in_range(gens@, n as nat),
        decreases perms.len() - k,
    {
        if perms[k].len() != n {
            return Err(BraidError::InvalidGenerator);
        }
        match Braid::from_slice(perms[k].as_slice()) {
            Err(e) => {
                return Err(e);
            },
            Ok(piece) => {
                proof {
                    assert(all.take(k + 1).drop_last() =~= all.take(k as int));
                    assert(all.take(k + 1).last() == perms@[k as int]@);
                    assert(positive_word(
                        canonical_product(all.take(k as int)) + canonical_word(perms@[k as int]@),
                    ) =~= gens@ + piece.gens@);
                }
                append_gens(&mut gens, &piece.gens);
            },
        }
        k += 1;
    }
    proof {
        assert(all.take(k as int) =~= all);
    }
    Ok(Braid { gens, n })
}

/// The word with the generator `v` and then its inverse put in before the
/// generator at `idx`.
pub open spec fn with_pair(g: Seq<BrGen>, idx: int, v: usize) -> Seq<BrGen> {
    g.take(idx) + seq![BrGen::Sigma(v), BrGen::SigmaInv(v)] + g.skip(idx)
}

/// The two generators have the same sign and indices that differ by more
/// than one, so that they commute.
pub open spec fn far_apart(x: BrGen, y: BrGen) -> bool {
    &&& x is Sigma <==> y is Sigma
    &&& x.index() - y.index() > 1 || y.index() - x.index() > 1
}

/// The word after the neighbours at `k - 1` and `k` have changed places for
/// each `k` from 1 up to `upto - 1` in turn, wherever the two commute.
pub open spec fn swapped_upto(g: Seq<BrGen>, upto: nat) -> Seq<BrGen>
    decreases upto,
{
    if upto <= 1 {
        g
    } else {
        let h = swapped_upto(g, (upto - 1) as nat);
        let k = upto - 1;
        if k < h.len() && far_apart(h[k - 1], h[k]) {
            h.update(k - 1, h[k]).update(k, h[k - 1])
        } else {
            h
        }
    }
}

/// The three generators are `a`, `a + 1`, `a` with one sign.
pub open spec fn is_triple(x: BrGen, y: BrGen, z: BrGen) -> bool {
    &&& x is Sigma <==> y is Sigma
    &&& y is Sigma <==> z is Sigma
    &&& x.index() == z.index()
    &&& y.index() == x.index() + 1
}

/// The word after each triple `a, a + 1, a` that starts at a place below
/// `upto` has become `a + 1, a, a + 1`, the places taken in rising order.
pub open spec fn exchanged_upto(g: Seq<BrGen>, upto: nat) -> Seq<BrGen>
    decreases upto,
{
    if upto == 0 {
        g
    } else {
        let h = exchanged_upto(g, (upto - 1) as nat);
        let k = upto - 1;
        if k + 2 < h.len() && is_triple(h[k], h[k + 1], h[k + 2]) {
            h.update(k, h[k + 1]).update(k + 1, h[k]).update(k + 2, h[k + 1])
        } else {
            h
        }
    }
}

/// One rewrite leads from `a` to `b`: a pair put in, a pass of swaps, or a
/// pass of exchanges.
pub open spec fn one_rewrite(a: Seq<BrGen>, b: Seq<BrGen>, n: usize) -> bool {
    ||| b == swapped_upto(a, a.len())
    ||| b == exchanged_upto(a, a.len())
    ||| exists|idx: int, v: usize|
        0 <= idx <= a.len() && 1 <= v < n && b == #[trigger] with_pair(a, idx, v)
}

/// Each word of the list comes from the one before by one rewrite.
pub open spec fn rewrite_chain(chain: Seq<Seq<BrGen>>, n: usize) -> bool {
    forall|k: int| 0 <= k < chain.len() - 1 ==> one_rewrite(#[trigger] chain[k], chain[k + 1], n)
}

fn same_sign(x: BrGen, y: BrGen) -> (yes: bool)
    ensures
        yes == (x is Sigma <==> y is Sigma),
{
    match (x, y) {
        (BrGen::Sigma(_), BrGen::Sigma(_)) => true,
        (BrGen::SigmaInv(_), BrGen::SigmaInv(_)) => true,
        _ => false,
    }
}

fn index_of(x: BrGen) -> (i: usize)
    ensures
        i == x.index(),
{
    match x {
        BrGen::Sigma(i) => i,
        BrGen::SigmaInv(i) => i,
    }
}

impl Braid {
    /// A random positive braid on `n` strands: the product of `num_perms`
    /// random permutation braids, each made of up to `complexity` crossings
    /// of neighbouring strands, each of which is left out with probability
    /// `miss_num / miss_den`.
    pub fn random_positive(
        n: usize,
        num_perms: usize,
        complexity: usize,
        miss_num: usize,
        miss_den: usize,
    ) -> (r: Result<Self, BraidError>)
        requires
            0 < miss_den,
            miss_num <= miss_den,
        ensures
            r matches Err(e) ==> e == BraidError::RandomSource,
            r matches Ok(b) ==> b.n == n && b.wf() && b.positive() && exists|
                perms: Seq<Seq<usize>>,
            |
                perms.len() == num_perms && b.gens@ == positive_word(
                    #[trigger] canonical_product(perms),
                ) && forall|k: int|
                    0 <= k < perms.len() ==> is_arrangement(#[trigger] perms[k]) && perms[k].len()
                        == n && within_crossings(perms[k], complexity as nat),
    {
        let mut rng = match make_rng() {
            Ok(rng) => rng,
            Err(e) => {
                return Err(e);
            },
        };
        let mut perms: Vec<VecPermutation> = Vec::new();
        let mut k: usize = 0;
        while k < num_perms
            invariant
                k <= num_perms,
                0 < miss_den,
                perms@.len() == k,
                forall|j: int|
                    0 <= j < k ==> is_arrangement((#[trigger] perms@[j])@) && perms@[j]@.len() == n
                        && within_crossings(perms@[j]@, complexity as nat),
            decreases num_perms - k,
        {
            let perm = random_permutation(n, complexity, miss_num, miss_den, &mut rng);
            perms.push(perm);
            k += 1;
        }
        match product_of_permutations(n, &perms) {
            Ok(b) => {
                proof {
                    let all = Seq::new(perms@.len(), |k: int| perms@[k]@);
                    assert(all.len() == num_perms && b.gens@ == positive_word(
                        canonical_product(all),
                    ));
                }
                Ok(b)
            },
            Err(_) => {
                assert(false);
                Err(BraidError::InvariantViolation)
            },
        }
    }

    /// Rewrites the word `rounds` times, each time in a way that is drawn
    /// evenly from three: a generator and its inverse are put in at a random
    /// place, or a pass of swaps is made, or a pass of exchanges. Each of
    /// these follows a relation of the braid group.
    pub fn mutate(&mut self, rounds: usize) -> (r: Result<(), BraidError>)
        ensures
            final(self).n == old(self).n,
            old(self).wf() ==> final(self).wf(),
            r matches Err(e) ==> e == BraidError::RandomSource && final(self).gens@ == old(
                self,
            ).gens@,
            r is Ok ==> exists|chain: Seq<Seq<BrGen>>|
                #![trigger rewrite_chain(chain, old(self).n)]
                1 <= chain.len() <= rounds + 1 && chain[0] == old(self).gens@ && chain.last()
                    == final(self).gens@ && rewrite_chain(chain, old(self).n),
            old(self).wf() ==> crate::braid::rewrites::same_images(
                old(self).gens@,
                final(self).gens@,
                old(self).n,
            ),
    {
        let mut rng = match make_rng() {
            Ok(rng) => rng,
            Err(e) => {
                return Err(e);
            },
        };
        let ghost mut chain: Seq<Seq<BrGen>> = seq![self.gens@];
        let mut round: usize = 0;
        while round < rounds
            invariant
                round <= rounds,
                self.n == old(self).n,
                old(self).wf() ==> self.wf(),
                1 <= chain.len() <= round + 1,
                chain[0] == old(self).gens@,
                chain.last() == self.gens@,
                rewrite_chain(chain, self.n),
            decreases rounds - round,
        {
            round += 1;
            let ghost before = self.gens@;
            let ghost so_far = chain;
            let choice = draw(&mut rng, 1, 4);
            if choice == 1 {
                if self.n < 2 {
                    continue ;
                }
                let len = self.gens.len();
                let idx = if len == 0 {
                    0
                } else {
                    draw(&mut rng, 0, len)
                };
                let v = draw(&mut rng, 1, self.n);
                self.insert_mutation(idx, v);
                proof {
                    assert(one_rewrite(before, self.gens@, self.n));
                    if old(self).wf() {
                        assert forall|k: int| 0 <= k < self.gens@.len() implies 1 <= (
                        #[trigger] self.gens@[k]).index() < self.n by {
                            if k < idx {
                                assert(self.gens@[k] == before[k]);
                            } else if k >= idx + 2 {
                                assert(self.gens@[k] == before[k - 2]);
                            }
                        }
                    }
                }
            } else if choice == 2 {
                self.swap_mutation();
            } else {
                self.exchange_mutation();
            }
            proof {
                chain = so_far.push(self.gens@);
                assert forall|k: int| 0 <= k < chain.len() - 1 implies one_rewrite(
                    #[trigger] chain[k],
                    chain[k + 1],
                    self.n,
                ) by {
                    if k < so_far.len() - 1 {
                        assert(chain[k] == so_far[k] && chain[k + 1] == so_far[k + 1]);
                    } else {
                        assert(chain[k] == before);
                    }
                }
            }
        }
        proof {
            if old(self).wf() {
                crate::braid::rewrites::lemma_chain_keeps(chain, self.n);
            }
        }
        Ok(())
    }

    /// Puts the generator `v` and then its inverse in before the generator
    /// at `idx`.
    pub fn insert_mutation(&mut self, idx: usize, v: usize)
        requires
            idx <= old(self).gens@.len(),
        ensures
            final(self).n == old(self).n,
            final(self).gens@ == with_pair(old(self).gens@, idx as int, v),
    {
        self.gens.insert(idx, BrGen::Sigma(v));
        let grown = self.gens.len();
        assert(idx < grown);
        self.gens.insert(idx + 1, BrGen::SigmaInv(v));
        assert(self.gens@ =~= with_pair(old(self).gens@, idx as int, v));
    }

    /// One pass over the word in which two neighbours change places where
    /// they have one sign and indices that differ by more than one.
    pub fn swap_mutation(&mut self)
        ensures
            final(self).n == old(self).n,
            final(self).gens@ == swapped_upto(old(self).gens@, old(self).gens@.len()),
            final(self).gens@.len() == old(self).gens@.len(),
            old(self).wf() ==> final(self).wf(),
    {
        let len = self.gens.len();
        let mut indx: usize = 1;
        while indx < len
            invariant
                1 <= indx,
                indx <= len || len == 0,
                len == self.gens@.len(),
                len == old(self).gens@.len(),
                self.n == old(self).n,
                self.gens@ == swapped_upto(old(self).gens@, indx as nat),
                old(self).wf() ==> self.wf(),
            decreases len - indx,
        {
            let last = self.gens[indx - 1];
            let curr = self.gens[indx];
            let a = index_of(last);
            let b = index_of(curr);
            if same_sign(last, curr) && ((a > b && a - b > 1) || (b > a && b - a > 1)) {
                self.gens[indx] = last;
                self.gens[indx - 1] = curr;
                proof {
                    let h = swapped_upto(old(self).gens@, indx as nat);
                    assert(self.gens@ =~= h.update(indx - 1, h[indx as int]).update(
                        indx as int,
                        h[indx - 1],
                    ));
                    if old(self).wf() {
                        assert forall|k: int| 0 <= k < self.gens@.len() implies 1 <= (
                        #[trigger] self.gens@[k]).index() < self.n by {
                            if k == indx {
                                assert(1 <= h[indx - 1].index() < self.n);
                            } else if k == indx - 1 {
                                assert(1 <= h[indx as int].index() < self.n);
                            } else {
                                assert(self.gens@[k] == h[k]);
                            }
                        }
                    }
                }
            }
            indx += 1;
        }
    }

    /// One pass over the word in which each triple `a, a + 1, a` of one sign
    /// becomes `a + 1, a, a + 1`.
    pub fn exchange_mutation(&mut self)
        ensures
            final(self).n == old(self).n,
            final(self).gens@ == exchanged_upto(old(self).gens@, old(self).gens@.len()),
            final(self).gens@.len() == old(self).gens@.len(),
            old(self).wf() ==> final(self).wf(),
    {
        let len = self.gens.len();
        let mut idx: usize = 0;
        while idx < len
            invariant
                idx <= len,
                len == self.gens@.len(),
                len == old(self).gens@.len(),
                self.n == old(self).n,
                self.gens@ == exchanged_upto(old(self).gens@, idx as nat),
                old(self).wf() ==> self.wf(),
            decreases len - idx,
        {
            if len - idx > 2 {
                let kern1 = self.gens[idx];
                let kern2 = self.gens[idx + 1];
                let kern3 = self.gens[idx + 2];
                let a = index_of(kern1);
                let b = index_of(kern2);
                let c = index_of(kern3);
                if same_sign(kern1, kern2) && same_sign(kern2, kern3) && a == c && b > 0 && b - 1
                    == a {
                    self.gens[idx] = kern2;
                    self.gens[idx + 1] = kern1;
                    self.gens[idx + 2] = kern2;
                    proof {
                        let h = exchanged_upto(old(self).gens@, idx as nat);
                        assert(self.gens@ =~= h.update(idx as int, h[idx + 1]).update(
                            idx + 1,
                            h[idx as int],
                        ).update(idx + 2, h[idx + 1]));
                        if old(self).wf() {
                            assert forall|k: int| 0 <= k < self.gens@.len() implies 1 <= (
                            #[trigger] self.gens@[k]).index() < self.n by {
                                assert(1 <= h[idx as int].index() < self.n);
                                assert(1 <= h[idx + 1].index() < self.n);
                                if k != idx && k != idx + 1 && k != idx + 2 {
                                    assert(self.gens@[k] == h[k]);
                                }
                            }
                        }
                    }
                }
            }
            idx += 1;
        }
    }
}

} // verus!
