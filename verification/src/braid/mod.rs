//! Braid words: sequences of signed generators on a fixed number of strands.

pub mod canonical;
pub mod crossings;
pub mod exponent;
pub mod garside;
pub mod induced;
pub mod inversions;
pub mod laws;
pub mod leftweight;
pub mod ops;
pub mod random;
pub mod rebuild;
pub mod reduce;
pub mod rewrites;
pub mod segments;
pub mod text;
pub mod sets;

use vstd::prelude::*;
use crate::braid::canonical::{lemma_canonical_word, lemma_half_twist_word};
use crate::braid::segments::is_simple;
use crate::error::BraidError;
use crate::permutation::{is_permutation_slice, lemma_place_of, place_of, Permutation};
use crate::strands::{
    cross, exchange, identity, identity_vec, is_arrangement, lemma_exchange_arrangement,
    lemma_identity_arrangement, lemma_walk_arrangement, lemma_walk_len, walk,
};

verus! {

/// A generator of the braid group: `Sigma(i)` crosses the strand at position
/// `i` over the one at `i + 1`, `SigmaInv(i)` is its inverse.
#[derive(Debug, Copy, Clone, PartialEq, Eq, Structural)]
pub enum BrGen {
    Sigma(usize),
    SigmaInv(usize),
}

/// A word in the generators of the braid group on `n` strands.
#[derive(Debug, Clone, PartialEq, Eq)]
pub struct Braid {
    pub gens: Vec<BrGen>,
    pub n: usize,
}

impl BrGen {
    /// The index `i` of the generator, whatever its sign.
    pub open spec fn index(self) -> usize {
        match self {
            BrGen::Sigma(i) => i,
            BrGen::SigmaInv(i) => i,
        }
    }

    /// The generator with the same index and the other sign.
    pub open spec fn inverted(self) -> BrGen {
        match self {
            BrGen::Sigma(i) => BrGen::SigmaInv(i),
            BrGen::SigmaInv(i) => BrGen::Sigma(i),
        }
    }

    /// The generator with index `n - i` and the same sign.
    pub open spec fn shifted(self, n: usize) -> BrGen {
        match self {
            BrGen::Sigma(i) => BrGen::Sigma((n - i) as usize),
            BrGen::SigmaInv(i) => BrGen::SigmaInv((n - i) as usize),
        }
    }

    /// The generator that a signed index stands for.
    pub open spec fn of_signed(s: isize) -> BrGen {
        if s > 0 {
            BrGen::Sigma(s as usize)
        } else {
            BrGen::SigmaInv((-s) as usize)
        }
    }

    pub fn inverse(&self) -> (g: Self)
        ensures
            g == self.inverted(),
    {
        match self {
            BrGen::Sigma(a) => BrGen::SigmaInv(*a),
            BrGen::SigmaInv(a) => BrGen::Sigma(*a),
        }
    }

    pub fn shift(&self, n: usize) -> (g: Self)
        requires
            self.index() <= n,
        ensures
            g == self.shifted(n),
    {
        match *self {
            BrGen::Sigma(i) => BrGen::Sigma(n - i),
            BrGen::SigmaInv(i) => BrGen::SigmaInv(n - i),
        }
    }

    /// Lets the strands at positions `i` and `i + 1` of `v` cross, where this
    /// generator is `Sigma(i)` and both positions exist.
    pub fn permute(&self, v: &mut Vec<usize>) -> (r: Result<(), BraidError>)
        ensures
            !(1 <= self.index() < old(v).len()) ==> r == Err::<(), BraidError>(
                BraidError::InvalidGenerator,
            ),
            1 <= self.index() < old(v).len() && self is SigmaInv ==> r == Err::<(), BraidError>(
                BraidError::NonPositiveWord,
            ),
            1 <= self.index() < old(v).len() && self is Sigma ==> r is Ok,
            r is Ok ==> final(v)@ == cross(old(v)@, self.index() as int),
            r is Err ==> final(v)@ == old(v)@,
    {
        match *self {
            BrGen::Sigma(a) => {
                if a == 0 || a >= v.len() {
                    return Err(BraidError::InvalidGenerator);
                }
                let left = v[a - 1];
                let right = v[a];
                v[a] = left;
                v[a - 1] = right;
                assert(v@ =~= cross(old(v)@, a as int));
                Ok(())
            },
            BrGen::SigmaInv(a) => {
                if a == 0 || a >= v.len() {
                    Err(BraidError::InvalidGenerator)
                } else {
                    Err(BraidError::NonPositiveWord)
                }
            },
        }
    }
}

/// The indices of the generators of a word, signs dropped.
pub open spec fn indices(g: Seq<BrGen>) -> Seq<usize> {
    Seq::new(g.len(), |k: int| g[k].index())
}

/// The positive word with the given indices.
pub open spec fn positive_word(w: Seq<usize>) -> Seq<BrGen> {
    Seq::new(w.len(), |k: int| BrGen::Sigma(w[k]))
}

/// No generator of the word is an inverse.
pub open spec fn all_positive(g: Seq<BrGen>) -> bool {
    forall|k: int| 0 <= k < g.len() ==> #[trigger] g[k] is Sigma
}

/// Every generator index lies in `1..n`.
pub open spec fn in_range(g: Seq<BrGen>, n: nat) -> bool {
    forall|k: int| 0 <= k < g.len() ==> 1 <= (#[trigger] g[k]).index() < n
}

/// The word read backwards with every sign flipped.
pub open spec fn inverse_word(g: Seq<BrGen>) -> Seq<BrGen> {
    Seq::new(g.len(), |k: int| g[g.len() - 1 - k].inverted())
}

/// The word with every index `i` replaced by `n - i`.
pub open spec fn shifted_word(g: Seq<BrGen>, n: usize) -> Seq<BrGen> {
    Seq::new(g.len(), |k: int| g[k].shifted(n))
}

/// The absolute value of a signed index.
fn magnitude(s: isize) -> (m: usize)
    ensures
        s >= 0 ==> m == s,
        s < 0 ==> m == -s,
{
    if s >= 0 {
        s as usize
    } else {
        let below: isize = -(s + 1);
        (below as usize) + 1
    }
}

impl Braid {
    /// Every generator index lies in `1..n`.
    pub open spec fn wf(&self) -> bool {
        in_range(self.gens@, self.n as nat)
    }

    /// The word has no inverse generator.
    pub open spec fn positive(&self) -> bool {
        all_positive(self.gens@)
    }

    /// The arrangement that the strands end in: entry `k - 1` is the start
    /// position of the strand that ends at position `k`. Signs play no part.
    pub open spec fn arrangement(&self) -> Seq<usize> {
        walk(identity(self.n as nat), indices(self.gens@))
    }

    /// The positive word with the given generator indices. The indices are
    /// taken as they are; `wf` tells whether they fit the strand count.
    pub fn from_positive_sigmas(sigmas: &[usize], n: usize) -> (b: Self)
        ensures
            b.n == n,
            b.gens@ == positive_word(sigmas@),
    {
        let mut gens: Vec<BrGen> = Vec::new();
        let mut k: usize = 0;
        while k < sigmas.len()
            invariant
                k <= sigmas.len(),
                gens@ == positive_word(sigmas@.take(k as int)),
            decreases sigmas.len() - k,
        {
            gens.push(BrGen::Sigma(sigmas[k]));
            k += 1;
            assert(gens@ =~= positive_word(sigmas@.take(k as int)));
        }
        assert(sigmas@.take(k as int) =~= sigmas@);
        Braid { gens, n }
    }

    /// The positive word with the given generator indices.
    pub fn make_positive(sigmas: Vec<usize>, n: usize) -> (b: Self)
        ensures
            b.n == n,
            b.gens@ == positive_word(sigmas@),
    {
        Self::from_positive_sigmas(sigmas.as_slice(), n)
    }

    /// The canonical positive braid of a permutation given by its ending
    /// array.
    pub fn from_permutation(perm: Vec<usize>) -> (r: Result<Self, BraidError>)
        ensures
            r is Ok <==> is_arrangement(perm@),
            r matches Err(e) ==> e == BraidError::InvalidGenerator,
            r matches Ok(b) ==> b.n == perm@.len() && b.wf() && b.arrangement() == perm@
                && b.gens@ == positive_word(canonical_word(perm@)) && is_simple(
                perm@.len(),
                canonical_word(perm@),
            ),
    {
        Self::from_slice(perm.as_slice())
    }

    /// The half twist on `n` strands, in which every two strands cross once:
    /// the runs `1`, then `2 1`, then `3 2 1`, up to `n - 1 .. 1`. It is a
    /// positive braid whose strands end in reverse order.
    pub fn make_half_twist(n: usize) -> (b: Self)
        ensures
            b.n == n,
            b.wf(),
            b.gens@ == positive_word(half_twist_word(n as nat)),
            b.arrangement() == crate::strands::reversal(n as nat),
            is_simple(n as nat, half_twist_word(n as nat)),
    {
        let mut gens: Vec<BrGen> = Vec::new();
        let mut k: usize = 1;
        let ghost id = identity(n as nat);
        proof {
            assert(gens@ =~= positive_word(half_twist_upto(0)));
            assert(indices(gens@) =~= Seq::<usize>::empty());
        }
        while k < n
            invariant
                1 <= k,
                k <= n || k == 1,
                id == identity(n as nat),
                gens@ == positive_word(half_twist_upto((k - 1) as nat)),
                in_range(gens@, n as nat),
                walk(id, indices(gens@)).len() == n,
                forall|p: int| 0 <= p < k && p < n ==> walk(id, indices(gens@))[p] == k - p,
                forall|p: int| k <= p < n ==> walk(id, indices(gens@))[p] == p + 1,
            decreases n - k,
        {
            let ghost before = half_twist_upto((k - 1) as nat);
            let mut j: usize = k;
            proof {
                assert(gens@ =~= positive_word(before + descent(k + 1, j + 1)));
            }
            while j > 0
                invariant
                    j <= k < n,
                    id == identity(n as nat),
                    gens@ == positive_word(before + descent(k + 1, j + 1)),
                    in_range(gens@, n as nat),
                    walk(id, indices(gens@)).len() == n,
                    forall|p: int| 0 <= p < j ==> walk(id, indices(gens@))[p] == k - p,
                    walk(id, indices(gens@))[j as int] == k + 1,
                    forall|p: int| j < p <= k ==> walk(id, indices(gens@))[p] == k + 1 - p,
                    forall|p: int| k < p < n ==> walk(id, indices(gens@))[p] == p + 1,
                decreases j,
            {
                let ghost reached = walk(id, indices(gens@));
                proof {
                    lemma_walk_push(id, indices(gens@), j);
                    assert(indices(gens@.push(BrGen::Sigma(j))) =~= indices(gens@).push(j));
                }
                gens.push(BrGen::Sigma(j));
                proof {
                    assert(gens@ =~= positive_word(before + descent(k + 1, j as int)));
                    assert(walk(id, indices(gens@)) == cross(reached, j as int));
                }
                j -= 1;
            }
            k += 1;
        }
        let b = Braid { gens, n };
        proof {
            assert(b.arrangement() =~= crate::strands::reversal(n as nat));
            lemma_half_twist_word(n as nat);
        }
        b
    }

    /// The word with the given signed indices: `i > 0` stands for `Sigma(i)`,
    /// `-i` for `SigmaInv(i)`. Zero and indices not below `n` are refused.
    pub fn from_sigmas(sigmas: &[isize], n: usize) -> (r: Result<Self, BraidError>)
        ensures
            r is Ok <==> forall|k: int|
                0 <= k < sigmas@.len() ==> sigmas@[k] != 0 && -(n as int) < #[trigger] sigmas@[k]
                    < n,
            r is Err ==> r.unwrap_err() == BraidError::InvalidGenerator,
            r is Ok ==> r.unwrap().n == n && r.unwrap().wf() && r.unwrap().gens@ == Seq::new(
                sigmas@.len(),
                |k: int| BrGen::of_signed(sigmas@[k]),
            ),
    {
        let mut gens: Vec<BrGen> = Vec::new();
        let mut k: usize = 0;
        while k < sigmas.len()
            invariant
                k <= sigmas.len(),
                gens@.len() == k,
                forall|j: int| 0 <= j < k ==> gens@[j] == BrGen::of_signed(#[trigger] sigmas@[j]),
                forall|j: int|
                    0 <= j < k ==> sigmas@[j] != 0 && -(n as int) < #[trigger] sigmas@[j] < n,
                in_range(gens@, n as nat),
            decreases sigmas.len() - k,
        {
            let s = sigmas[k];
            let m = magnitude(s);
            if m == 0 || m >= n {
                return Err(BraidError::InvalidGenerator);
            }
            if s > 0 {
                gens.push(BrGen::Sigma(m));
            } else {
                gens.push(BrGen::SigmaInv(m));
            }
            k += 1;
        }
        assert(gens@ =~= Seq::new(sigmas@.len(), |k: int| BrGen::of_signed(sigmas@[k])));
        Ok(Braid { gens, n })
    }

    /// The generators of the word, first to last.
    pub fn iter(&self) -> (it: std::slice::Iter<'_, BrGen>)
        ensures
            vstd::std_specs::slice::into_iter_elts(it) == self.gens@,
    {
        broadcast use vstd::std_specs::slice::axiom_spec_slice_iter;

        let it = self.gens.as_slice().iter();
        assert(vstd::std_specs::slice::into_iter_elts(it) =~= self.gens@);
        it
    }

    /// Whether every generator index lies in `1..n`.
    pub fn is_well_formed(&self) -> (ok: bool)
        ensures
            ok == self.wf(),
    {
        let mut k: usize = 0;
        while k < self.gens.len()
            invariant
                k <= self.gens.len(),
                in_range(self.gens@.take(k as int), self.n as nat),
            decreases self.gens.len() - k,
        {
            let a = match self.gens[k] {
                BrGen::Sigma(a) => a,
                BrGen::SigmaInv(a) => a,
            };
            if a == 0 || a >= self.n {
                return false;
            }
            k += 1;
            assert forall|j: int| 0 <= j < k implies 1 <= (#[trigger] self.gens@.take(
                k as int,
            )[j]).index() < self.n by {
                if j < k - 1 {
                    assert(self.gens@.take(k as int)[j] == self.gens@.take(k - 1)[j]);
                }
            }
        }
        assert(self.gens@.take(k as int) =~= self.gens@);
        true
    }

    /// Whether the word has no inverse generator.
    pub fn is_positive(&self) -> (ok: bool)
        ensures
            ok == self.positive(),
    {
        let mut k: usize = 0;
        while k < self.gens.len()
            invariant
                k <= self.gens.len(),
                forall|j: int| 0 <= j < k ==> #[trigger] self.gens@[j] is Sigma,
            decreases self.gens.len() - k,
        {
            match self.gens[k] {
                BrGen::Sigma(_) => {},
                BrGen::SigmaInv(_) => {
                    return false;
                },
            }
            k += 1;
        }
        true
    }

    /// Turns the word into its inverse: backwards, with every sign flipped.
    pub fn invert(&mut self)
        ensures
            final(self).n == old(self).n,
            final(self).gens@ == inverse_word(old(self).gens@),
    {
        let inv = self.inverse();
        self.gens = inv.gens;
    }

    /// The inverse word: backwards, with every sign flipped.
    pub fn inverse(&self) -> (b: Self)
        ensures
            b.n == self.n,
            b.gens@ == inverse_word(self.gens@),
    {
        let len = self.gens.len();
        let mut gens: Vec<BrGen> = Vec::new();
        let mut k: usize = 0;
        while k < len
            invariant
                k <= len,
                len == self.gens@.len(),
                gens@.len() == k,
                forall|j: int| 0 <= j < k ==> #[trigger] gens@[j] == self.gens@[len - 1 - j].inverted(),
            decreases len - k,
        {
            gens.push(self.gens[len - 1 - k].inverse());
            k += 1;
        }
        assert(gens@ =~= inverse_word(self.gens@));
        Braid { gens, n: self.n }
    }

    /// Replaces every generator index `i` by `n - i`: conjugation by the half
    /// twist.
    pub fn shift(&mut self)
        requires
            forall|k: int| 0 <= k < old(self).gens@.len() ==> (#[trigger] old(self).gens@[k]).index() <= old(self).n,
        ensures
            final(self).n == old(self).n,
            final(self).gens@ == shifted_word(old(self).gens@, old(self).n),
    {
        let n = self.n;
        let len = self.gens.len();
        let mut k: usize = 0;
        while k < len
            invariant
                k <= len,
                n == self.n,
                n == old(self).n,
                len == self.gens@.len(),
                len == old(self).gens@.len(),
                forall|j: int| 0 <= j < k ==> #[trigger] self.gens@[j] == old(self).gens@[j].shifted(n),
                forall|j: int| k <= j < len ==> #[trigger] self.gens@[j] == old(self).gens@[j],
                forall|j: int| 0 <= j < len ==> (#[trigger] old(self).gens@[j]).index() <= n,
            decreases len - k,
        {
            let g = self.gens[k].shift(n);
            self.gens[k] = g;
            k += 1;
        }
        assert(self.gens@ =~= shifted_word(old(self).gens@, n));
    }

    /// The product of two braids on the same number of strands: the first
    /// word followed by the second.
    pub fn multiply(&self, other: &Braid) -> (r: Result<Braid, BraidError>)
        ensures
            self.n != other.n ==> r == Err::<Braid, BraidError>(BraidError::MismatchedStrands),
            self.n == other.n ==> r is Ok && r.unwrap().n == self.n && r.unwrap().gens@
                == self.gens@ + other.gens@,
    {
        if self.n != other.n {
            return Err(BraidError::MismatchedStrands);
        }
        let mut gens: Vec<BrGen> = Vec::new();
        append_gens(&mut gens, &self.gens);
        append_gens(&mut gens, &other.gens);
        Ok(Braid { gens, n: self.n })
    }
}

/// Appends a copy of `src` to `dst`.
pub fn append_gens(dst: &mut Vec<BrGen>, src: &Vec<BrGen>)
    ensures
        final(dst)@ == old(dst)@ + src@,
{
    let mut k: usize = 0;
    while k < src.len()
        invariant
            k <= src.len(),
            dst@ == old(dst)@ + src@.take(k as int),
        decreases src.len() - k,
    {
        dst.push(src[k]);
        k += 1;
        assert(dst@ =~= old(dst)@ + src@.take(k as int));
    }
    assert(src@.take(k as int) =~= src@);
}

/// The word of the half twist up to and with its run `m .. 1`.
pub open spec fn half_twist_upto(m: nat) -> Seq<usize>
    decreases m,
{
    if m == 0 {
        Seq::empty()
    } else {
        half_twist_upto((m - 1) as nat) + descent(m as int + 1, 1)
    }
}

/// The word of the half twist on `n` strands.
pub open spec fn half_twist_word(n: nat) -> Seq<usize> {
    if n == 0 {
        Seq::empty()
    } else {
        half_twist_upto((n - 1) as nat)
    }
}

/// The run of indices `hi - 1, hi - 2, .., lo`; empty unless `lo < hi`.
pub open spec fn descent(hi: int, lo: int) -> Seq<usize> {
    if lo < hi {
        Seq::new((hi - lo) as nat, |k: int| (hi - 1 - k) as usize)
    } else {
        Seq::empty()
    }
}

/// The canonical positive word of a permutation, up to and with phase `p`.
///
/// Phase `p` brings the strand `perm[p - 1]` from where the earlier phases
/// left it down to position `p`, one crossing at a time.
pub open spec fn canonical_upto(perm: Seq<usize>, p: nat) -> Seq<usize>
    decreases p,
{
    if p == 0 {
        Seq::empty()
    } else {
        let before = canonical_upto(perm, (p - 1) as nat);
        let reached = walk(identity(perm.len()), before);
        before + descent(place_of(reached, perm[p - 1]), p as int)
    }
}

/// The canonical positive word of a permutation given by its ending array.
pub open spec fn canonical_word(perm: Seq<usize>) -> Seq<usize> {
    if perm.len() == 0 {
        Seq::empty()
    } else {
        canonical_upto(perm, (perm.len() - 1) as nat)
    }
}

/// `fwd` tells for each strand where `inv` holds it.
pub open spec fn tables_agree(fwd: Seq<usize>, inv: Seq<usize>) -> bool {
    &&& fwd.len() == inv.len()
    &&& is_arrangement(inv)
    &&& forall|k: int| 0 <= k < inv.len() ==> fwd[#[trigger] inv[k] - 1] == k + 1
}

/// One more crossing at the end of a walk.
pub proof fn lemma_walk_push(start: Seq<usize>, w: Seq<usize>, i: usize)
    ensures
        walk(start, w.push(i)) == cross(walk(start, w), i as int),
{
    assert(w.push(i).drop_last() =~= w);
}

/// Lets the strands at positions `i` and `i + 1` of `inv` cross and keeps
/// `fwd` in step.
fn do_swap(fwd: &mut Vec<usize>, inv: &mut Vec<usize>, i: usize)
    requires
        1 <= i < old(inv).len(),
        tables_agree(old(fwd)@, old(inv)@),
    ensures
        final(inv)@ == cross(old(inv)@, i as int),
        tables_agree(final(fwd)@, final(inv)@),
{
    let left = inv[i - 1];
    let right = inv[i];
    assert(old(inv)@[i - 1] != old(inv)@[i as int]);
    inv[i - 1] = right;
    inv[i] = left;
    fwd[left - 1] = i + 1;
    fwd[right - 1] = i;
    proof {
        assert(inv@ =~= cross(old(inv)@, i as int));
        lemma_exchange_arrangement(old(inv)@, i as int, i + 1);
        assert forall|k: int| 0 <= k < inv@.len() implies fwd@[#[trigger] inv@[k] - 1] == k
            + 1 by {
            if k != i - 1 && k != i {
                assert(inv@[k] == old(inv)@[k]);
                if k < i - 1 {
                    assert(old(inv)@[k] != old(inv)@[i - 1]);
                    assert(old(inv)@[k] != old(inv)@[i as int]);
                } else {
                    assert(old(inv)@[i - 1] != old(inv)@[k]);
                    assert(old(inv)@[i as int] != old(inv)@[k]);
                }
            }
        }
    }
}

impl Braid {
    /// Lets the strands of `v` cross as the word says, first generator first.
    /// The word must be positive and every index must name two positions of
    /// `v`; otherwise `v` is left as it was.
    pub fn permute(&self, v: &mut Vec<usize>) -> (r: Result<(), BraidError>)
        ensures
            !in_range(self.gens@, old(v)@.len()) ==> r == Err::<(), BraidError>(
                BraidError::InvalidGenerator,
            ),
            in_range(self.gens@, old(v)@.len()) && !self.positive() ==> r == Err::<
                (),
                BraidError,
            >(BraidError::NonPositiveWord),
            in_range(self.gens@, old(v)@.len()) && self.positive() ==> r is Ok,
            r is Ok ==> final(v)@ == walk(old(v)@, indices(self.gens@)),
            r is Err ==> final(v)@ == old(v)@,
    {
        let probe = Braid { gens: Vec::new(), n: v.len() };
        let len = self.gens.len();
        let mut k: usize = 0;
        while k < len
            invariant
                k <= len,
                len == self.gens@.len(),
                v@ == old(v)@,
                in_range(self.gens@.take(k as int), v@.len()),
            decreases len - k,
        {
            let a = match self.gens[k] {
                BrGen::Sigma(a) => a,
                BrGen::SigmaInv(a) => a,
            };
            if a == 0 || a >= v.len() {
                return Err(BraidError::InvalidGenerator);
            }
            k += 1;
            assert forall|j: int| 0 <= j < k implies 1 <= (#[trigger] self.gens@.take(
                k as int,
            )[j]).index() < v@.len() by {
                if j < k - 1 {
                    assert(self.gens@.take(k as int)[j] == self.gens@.take(k - 1)[j]);
                }
            }
        }
        assert(self.gens@.take(len as int) =~= self.gens@);
        if !self.is_positive() {
            return Err(BraidError::NonPositiveWord);
        }
        k = 0;
        while k < len
            invariant
                k <= len,
                len == self.gens@.len(),
                v@.len() == old(v)@.len(),
                in_range(self.gens@, v@.len()),
                self.positive(),
                v@ == walk(old(v)@, indices(self.gens@).take(k as int)),
            decreases len - k,
        {
            let ghost before = v@;
            let g = self.gens[k];
            let r = g.permute(v);
            proof {
                assert(self.gens@[k as int] is Sigma);
                assert(1 <= self.gens@[k as int].index() < v@.len());
                let w = indices(self.gens@).take(k as int);
                lemma_walk_push(old(v)@, w, g.index());
                assert(w.push(g.index()) =~= indices(self.gens@).take(k + 1));
                lemma_walk_len(old(v)@, indices(self.gens@).take(k + 1));
            }
            k += 1;
        }
        assert(indices(self.gens@).take(len as int) =~= indices(self.gens@));
        Ok(())
    }
}

impl Permutation for Braid {
    open spec fn ending(&self) -> Seq<usize> {
        self.arrangement()
    }

    open spec fn well_formed(&self) -> bool {
        self.wf()
    }

    proof fn lemma_ending(&self) {
        lemma_identity_arrangement(self.n as nat);
        lemma_walk_arrangement(identity(self.n as nat), indices(self.gens@));
    }

    fn id(n: usize) -> (p: Self) {
        Braid { gens: Vec::new(), n }
    }

    fn size(&self) -> (n: usize) {
        proof {
            lemma_walk_len(identity(self.n as nat), indices(self.gens@));
        }
        self.n
    }

    /// Adds crossings to the word that exchange the strands at positions
    /// `a` and `b`: the left one passes to the right over all that stands
    /// between, then the right one passes back to the left.
    fn swap_(&mut self, a: usize, b: usize) {
        let n = self.n;
        let lo = if a < b {
            a
        } else {
            b
        };
        let hi = if a < b {
            b
        } else {
            a
        };
        let ghost start = self.arrangement();
        let ghost first = old(self).gens@;
        proof {
            lemma_walk_len(identity(n as nat), indices(self.gens@));
            assert(exchange(start, a as int, b as int) =~= exchange(start, lo as int, hi as int));
        }
        let mut k: usize = lo;
        while k < hi
            invariant
                1 <= lo <= k <= hi <= n,
                n == self.n,
                start.len() == n,
                self.arrangement().len() == n,
                old(self).wf() ==> self.wf(),
                forall|p: int| 0 <= p < lo - 1 || k <= p < n ==> self.arrangement()[p] == start[p],
                forall|p: int| lo - 1 <= p < k - 1 ==> self.arrangement()[p] == start[p + 1],
                self.arrangement()[k - 1] == start[lo - 1],
            decreases hi - k,
        {
            let ghost before = self.arrangement();
            proof {
                lemma_walk_push(identity(n as nat), indices(self.gens@), k);
                assert(indices(self.gens@.push(BrGen::Sigma(k))) =~= indices(self.gens@).push(k));
            }
            self.gens.push(BrGen::Sigma(k));
            proof {
                assert(self.arrangement() == cross(before, k as int));
            }
            k += 1;
        }
        if hi > lo {
            let mut k: usize = hi - 1;
            while k > lo
                invariant
                    1 <= lo <= k < hi <= n,
                    n == self.n,
                    start.len() == n,
                    self.arrangement().len() == n,
                    old(self).wf() ==> self.wf(),
                    forall|p: int|
                        0 <= p < lo - 1 || hi <= p < n || k <= p < hi - 1 ==> self.arrangement()[p]
                            == start[p],
                    forall|p: int| lo - 1 <= p < k - 1 ==> self.arrangement()[p] == start[p + 1],
                    self.arrangement()[k - 1] == start[hi - 1],
                    self.arrangement()[hi - 1] == start[lo - 1],
                decreases k,
            {
                let ghost before = self.arrangement();
                k -= 1;
                proof {
                    lemma_walk_push(identity(n as nat), indices(self.gens@), k);
                    assert(indices(self.gens@.push(BrGen::Sigma(k))) =~= indices(self.gens@).push(
                        k,
                    ));
                }
                self.gens.push(BrGen::Sigma(k));
                proof {
                    assert(self.arrangement() == cross(before, k as int));
                }
            }
        }
        assert(self.arrangement() =~= exchange(start, lo as int, hi as int));
    }

    fn position(&self, x: usize) -> (k: usize) {
        let len = self.gens.len();
        let mut ret = x;
        let mut t: usize = 0;
        proof {
            lemma_walk_len(identity(self.n as nat), indices(self.gens@));
        }
        while t < len
            invariant
                t <= len,
                len == self.gens@.len(),
                self.wf(),
                1 <= ret <= self.n,
                walk(identity(self.n as nat), indices(self.gens@).take(t as int)).len() == self.n,
                walk(identity(self.n as nat), indices(self.gens@).take(t as int))[ret - 1] == x,
            decreases len - t,
        {
            let a = match self.gens[t] {
                BrGen::Sigma(a) => a,
                BrGen::SigmaInv(a) => a,
            };
            proof {
                assert(1 <= self.gens@[t as int].index() < self.n);
                let w = indices(self.gens@).take(t as int);
                lemma_walk_push(identity(self.n as nat), w, a);
                assert(w.push(a) =~= indices(self.gens@).take(t + 1));
                lemma_walk_len(identity(self.n as nat), indices(self.gens@).take(t + 1));
            }
            if ret == a {
                ret += 1;
            } else if ret == a + 1 {
                ret -= 1;
            }
            t += 1;
        }
        proof {
            assert(indices(self.gens@).take(len as int) =~= indices(self.gens@));
            lemma_identity_arrangement(self.n as nat);
            lemma_walk_arrangement(identity(self.n as nat), indices(self.gens@));
            lemma_place_of(self.arrangement(), x);
        }
        ret
    }

    fn from_slice(perm: &[usize]) -> (r: Result<Self, BraidError>)
        ensures
            r matches Ok(b) ==> b.n == perm@.len() && b.positive() && b.gens@ == positive_word(
                canonical_word(perm@),
            ) && is_simple(perm@.len(), canonical_word(perm@)),
    {
        if !is_permutation_slice(perm) {
            return Err(BraidError::InvalidGenerator);
        }
        let n = perm.len();
        let mut fwd = identity_vec(n);
        let mut inv = identity_vec(n);
        let mut gens: Vec<BrGen> = Vec::new();
        let ghost mut word: Seq<usize> = Seq::empty();
        let mut phase: usize = 1;
        proof {
            lemma_identity_arrangement(n as nat);
            assert(gens@ =~= positive_word(word));
        }
        while phase < n
            invariant
                1 <= phase,
                phase <= n || phase == 1,
                n == perm@.len(),
                is_arrangement(perm@),
                word == canonical_upto(perm@, (phase - 1) as nat),
                gens@ == positive_word(word),
                inv@ == walk(identity(n as nat), word),
                inv@.len() == n,
                tables_agree(fwd@, inv@),
                forall|j: int| 0 <= j < phase - 1 ==> inv@[j] == perm@[j],
                forall|j: int| 0 <= j < word.len() ==> 1 <= #[trigger] word[j] < n,
            decreases n - phase,
        {
            let target = perm[phase - 1];
            assert(1 <= target <= n);
            let source = fwd[target - 1];
            proof {
                lemma_place_of(inv@, target);
                let at = place_of(inv@, target) - 1;
                assert(fwd@[inv@[at] - 1] == at + 1);
                assert(source == place_of(inv@, target));
                if source < phase {
                    assert(inv@[source - 1] == perm@[source - 1]);
                    assert(perm@[source - 1] != perm@[phase - 1]);
                }
            }
            let ghost before = word;
            let mut num = source;
            assert(before + descent(source as int, num as int) =~= word);
            while num > phase
                invariant
                    1 <= phase <= num <= source <= n,
                    n == perm@.len(),
                    inv@.len() == n,
                    inv@[num - 1] == target,
                    word == before + descent(source as int, num as int),
                    gens@ == positive_word(word),
                    inv@ == walk(identity(n as nat), word),
                    tables_agree(fwd@, inv@),
                    forall|j: int| 0 <= j < phase - 1 ==> inv@[j] == perm@[j],
                    forall|j: int| 0 <= j < word.len() ==> 1 <= #[trigger] word[j] < n,
                decreases num,
            {
                num -= 1;
                do_swap(&mut fwd, &mut inv, num);
                gens.push(BrGen::Sigma(num));
                proof {
                    lemma_walk_push(identity(n as nat), word, num);
                    assert(before + descent(source as int, num as int) =~= word.push(num));
                    assert(gens@ =~= positive_word(word.push(num)));
                    word = word.push(num);
                }
            }
            phase += 1;
        }
        let b = Braid { gens, n };
        proof {
            assert(indices(b.gens@) =~= word);
            if n >= 1 {
                assert(phase == n);
                let last = perm@[n - 1];
                lemma_place_of(inv@, last);
                let at = place_of(inv@, last) - 1;
                if at < n - 1 {
                    assert(inv@[at] == perm@[at]);
                    assert(perm@[at] != perm@[n - 1]);
                }
            }
            assert(inv@ =~= perm@);
            assert(b.gens@ =~= positive_word(canonical_word(perm@)));
            lemma_canonical_word(perm@);
        }
        Ok(b)
    }

    fn as_vec(&self) -> (v: Vec<usize>) {
        let len = self.gens.len();
        let mut v = identity_vec(self.n);
        let mut k: usize = 0;
        while k < len
            invariant
                k <= len,
                len == self.gens@.len(),
                self.wf(),
                v@.len() == self.n,
                v@ == walk(identity(self.n as nat), indices(self.gens@).take(k as int)),
            decreases len - k,
        {
            let a = match self.gens[k] {
                BrGen::Sigma(a) => a,
                BrGen::SigmaInv(a) => a,
            };
            proof {
                assert(1 <= self.gens@[k as int].index() < self.n);
                let w = indices(self.gens@).take(k as int);
                lemma_walk_push(identity(self.n as nat), w, a);
                assert(w.push(a) =~= indices(self.gens@).take(k + 1));
            }
            let left = v[a - 1];
            let right = v[a];
            v[a] = left;
            v[a - 1] = right;
            assert(v@ =~= cross(walk(identity(self.n as nat), indices(self.gens@).take(k as int)), a as int));
            k += 1;
        }
        assert(indices(self.gens@).take(len as int) =~= indices(self.gens@));
        v
    }
}

} // verus!
