//! Permutations of `1..=n`, as a capability with two realizations: an array
//! of strand names, and the permutation that a braid induces.

use vstd::prelude::*;
use vstd::set_lib::{lemma_int_range, lemma_subset_equality, set_int_range};
use crate::error::BraidError;
use crate::strands::{exchange, exchange_vec, identity, identity_vec, is_arrangement, reversal};

verus! {

/// A permutation held as its ending array: entry `k - 1` names the strand
/// that ends at position `k`.
pub type VecPermutation = Vec<usize>;

/// In an arrangement every strand name of `1..=n` occurs.
pub proof fn lemma_arrangement_onto(e: Seq<usize>, x: usize)
    requires
        is_arrangement(e),
        1 <= x <= e.len(),
    ensures
        exists|k: int| 0 <= k < e.len() && e[k] == x,
{
    let n = e.len() as int;
    let ints = Seq::new(e.len(), |k: int| e[k] as int);
    assert(ints.no_duplicates()) by {
        assert forall|i: int, j: int|
            0 <= i < ints.len() && 0 <= j < ints.len() && i != j implies ints[i] != ints[j] by {
            if i < j {
                assert(e[i] != e[j]);
            } else {
                assert(e[j] != e[i]);
            }
        }
    }
    ints.unique_seq_to_set();
    lemma_int_range(1, n + 1);
    let all = set_int_range(1, n + 1);
    assert(ints.to_set().subset_of(all)) by {
        assert forall|v: int| ints.to_set().contains(v) implies all.contains(v) by {
            let k = choose|k: int| 0 <= k < ints.len() && ints[k] == v;
            assert(1 <= e[k] <= e.len());
        }
    }
    vstd::set_lib::lemma_set_subset_finite(all, ints.to_set());
    lemma_subset_equality(ints.to_set(), all);
    assert(all.contains(x as int));
    assert(ints.to_set().contains(x as int));
    let k = choose|k: int| 0 <= k < ints.len() && ints[k] == x as int;
    assert(e[k] == x);
}

/// The position, counted from 1, at which strand `x` stands in `e`.
pub open spec fn place_of(e: Seq<usize>, x: usize) -> int {
    e.index_of(x) + 1
}

/// `place_of` finds the one position that holds the strand.
pub proof fn lemma_place_of(e: Seq<usize>, x: usize)
    requires
        is_arrangement(e),
        1 <= x <= e.len(),
    ensures
        1 <= place_of(e, x) <= e.len(),
        e[place_of(e, x) - 1] == x,
        forall|k: int| 0 <= k < e.len() && e[k] == x ==> k == place_of(e, x) - 1,
{
    lemma_arrangement_onto(e, x);
    let p = e.index_of(x);
    assert(0 <= p < e.len() && e[p] == x);
    assert forall|k: int| 0 <= k < e.len() && e[k] == x implies k == p by {
        if k < p {
            assert(e[k] != e[p]);
        } else if p < k {
            assert(e[p] != e[k]);
        }
    }
}

/// The ending array of the permutation that lets the strands run through
/// `first` and then through `second`.
pub open spec fn composed(first: Seq<usize>, second: Seq<usize>) -> Seq<usize> {
    Seq::new(second.len(), |k: int| first[second[k] - 1])
}

/// An array that holds each strand where its way through two arrangements
/// ends is their composition, and an arrangement.
pub proof fn lemma_composed(e1: Seq<usize>, e2: Seq<usize>, res: Seq<usize>)
    requires
        is_arrangement(e1),
        is_arrangement(e2),
        e1.len() == e2.len(),
        res.len() == e1.len(),
        e1.len() <= usize::MAX,
        forall|s: usize|
            1 <= s <= e1.len() ==> res[place_of(e2, #[trigger] place_of(e1, s) as usize) - 1] == s,
    ensures
        res == composed(e1, e2),
        is_arrangement(res),
{
    assert forall|k: int| 0 <= k < res.len() implies res[k] == composed(e1, e2)[k] by {
        let mid = e2[k];
        let s = e1[mid - 1];
        lemma_place_of(e1, s);
        lemma_place_of(e2, mid);
        assert(place_of(e1, s) == mid);
        assert(place_of(e2, place_of(e1, s) as usize) == k + 1);
    }
    assert(res =~= composed(e1, e2));
    assert forall|i: int, j: int| 0 <= i < j < res.len() implies res[i] != res[j] by {
        if e1[e2[i] - 1] == e1[e2[j] - 1] {
            if e2[i] < e2[j] {
                assert(e1[e2[i] - 1] != e1[e2[j] - 1]);
            } else if e2[j] < e2[i] {
                assert(e1[e2[j] - 1] != e1[e2[i] - 1]);
            } else {
                assert(e2[i] != e2[j]);
            }
        }
    }
}

/// What a permutation of `1..=n` can be asked and told.
pub trait Permutation: Sized {
    /// The ending array: entry `k - 1` names the strand that ends at
    /// position `k`, a strand's name being the position it started from.
    spec fn ending(&self) -> Seq<usize>;

    /// The value stands for a permutation.
    spec fn well_formed(&self) -> bool;

    /// The ending array of a permutation holds each of `1..=n` once.
    proof fn lemma_ending(&self)
        requires
            self.well_formed(),
        ensures
            is_arrangement(self.ending()),
    ;

    /// The identity on `n` strands.
    fn id(n: usize) -> (p: Self)
        ensures
            p.well_formed(),
            p.ending() == identity(n as nat),
    ;

    /// The number of strands.
    fn size(&self) -> (n: usize)
        ensures
            n == self.ending().len(),
    ;

    /// Exchanges the strands at positions `a` and `b`, counted from 1.
    fn swap_(&mut self, a: usize, b: usize)
        requires
            1 <= a <= old(self).ending().len(),
            1 <= b <= old(self).ending().len(),
        ensures
            final(self).ending() == exchange(old(self).ending(), a as int, b as int),
            old(self).well_formed() ==> final(self).well_formed(),
    ;

    /// Where the strand that starts at position `x` ends.
    fn position(&self, x: usize) -> (k: usize)
        requires
            self.well_formed(),
            1 <= x <= self.ending().len(),
        ensures
            k == place_of(self.ending(), x),
    ;

    /// The permutation with the given ending array, if it is one.
    fn from_slice(v: &[usize]) -> (r: Result<Self, BraidError>)
        ensures
            r is Ok <==> is_arrangement(v@),
            r matches Err(e) ==> e == BraidError::InvalidGenerator,
            r matches Ok(p) ==> p.well_formed() && p.ending() == v@,
    ;

    /// The ending array.
    fn as_vec(&self) -> (v: Vec<usize>)
        requires
            self.well_formed(),
        ensures
            v@ == self.ending(),
    ;

    /// Where the strand that ends at position `x` started.
    fn follow_ending(&self, x: usize) -> (s: usize)
        requires
            self.well_formed(),
            1 <= x <= self.ending().len(),
        ensures
            s == self.ending()[x - 1],
    {
        let v = self.as_vec();
        v[x - 1]
    }

    /// Whether every strand ends where it started.
    fn is_identity(&self) -> (yes: bool)
        requires
            self.well_formed(),
        ensures
            yes == (self.ending() == identity(self.ending().len())),
    {
        let v = self.as_vec();
        let n = v.len();
        let mut k: usize = 0;
        while k < n
            invariant
                k <= n,
                n == v@.len(),
                v@ == self.ending(),
                forall|j: int| 0 <= j < k ==> v@[j] == j + 1,
            decreases n - k,
        {
            if v[k] != k + 1 {
                assert(identity(n as nat)[k as int] == k + 1);
                return false;
            }
            k += 1;
        }
        assert(v@ =~= identity(n as nat));
        true
    }

    /// Whether the strands end in reverse order, as after a half twist.
    fn is_twist(&self) -> (yes: bool)
        requires
            self.well_formed(),
        ensures
            yes == (self.ending() == reversal(self.ending().len())),
    {
        let v = self.as_vec();
        let n = v.len();
        let mut k: usize = 0;
        while k < n
            invariant
                k <= n,
                n == v@.len(),
                v@ == self.ending(),
                forall|j: int| 0 <= j < k ==> v@[j] == n - j,
            decreases n - k,
        {
            if v[k] != n - k {
                assert(reversal(n as nat)[k as int] == n - k);
                return false;
            }
            k += 1;
        }
        assert(v@ =~= reversal(n as nat));
        true
    }
}

/// Whether the slice holds each of `1..=len` exactly once.
pub fn is_permutation_slice(v: &[usize]) -> (yes: bool)
    ensures
        yes == is_arrangement(v@),
{
    let n = v.len();
    let mut seen: Vec<bool> = Vec::new();
    let mut k: usize = 0;
    while k < n
        invariant
            k <= n,
            seen@.len() == k,
            forall|j: int| 0 <= j < k ==> !seen@[j],
        decreases n - k,
    {
        seen.push(false);
        k += 1;
    }
    k = 0;
    while k < n
        invariant
            k <= n,
            n == v@.len(),
            seen@.len() == n,
            forall|j: int| 0 <= j < k ==> 1 <= #[trigger] v@[j] <= n,
            forall|i: int, j: int| 0 <= i < j < k ==> v@[i] != v@[j],
            forall|s: int|
                0 <= s < n ==> (#[trigger] seen@[s] <==> exists|j: int|
                    0 <= j < k && v@[j] == s + 1),
        decreases n - k,
    {
        let x = v[k];
        if x == 0 || x > n {
            return false;
        }
        if seen[x - 1] {
            let ghost j = choose|j: int| 0 <= j < k && v@[j] == x;
            assert(v@[j] == v@[k as int]);
            return false;
        }
        seen[x - 1] = true;
        proof {
            assert forall|s: int| 0 <= s < n implies (#[trigger] seen@[s] <==> exists|j: int|
                0 <= j < k + 1 && v@[j] == s + 1) by {
                if s == x - 1 {
                    assert(v@[k as int] == s + 1);
                } else if seen@[s] {
                    let j = choose|j: int| 0 <= j < k && v@[j] == s + 1;
                    assert(0 <= j < k + 1 && v@[j] == s + 1);
                }
            }
        }
        k += 1;
    }
    true
}

impl Permutation for VecPermutation {
    open spec fn ending(&self) -> Seq<usize> {
        self@
    }

    open spec fn well_formed(&self) -> bool {
        is_arrangement(self@)
    }

    proof fn lemma_ending(&self) {
    }

    fn id(n: usize) -> (p: Self) {
        identity_vec(n)
    }

    fn size(&self) -> (n: usize) {
        self.len()
    }

    fn swap_(&mut self, a: usize, b: usize) {
        proof {
            if is_arrangement(self@) {
                crate::strands::lemma_exchange_arrangement(self@, a as int, b as int);
            }
        }
        exchange_vec(self, a, b);
    }

    fn position(&self, x: usize) -> (k: usize) {
        proof {
            lemma_place_of(self@, x);
        }
        let n = self.len();
        let mut k: usize = 0;
        while self[k] != x
            invariant
                1 <= place_of(self@, x) <= self@.len() == n,
                k <= place_of(self@, x) - 1,
                self@[place_of(self@, x) - 1] == x,
            decreases self@.len() - k,
        {
            k += 1;
        }
        proof {
            lemma_place_of(self@, x);
        }
        k + 1
    }

    fn from_slice(v: &[usize]) -> (r: Result<Self, BraidError>) {
        if !is_permutation_slice(v) {
            return Err(BraidError::InvalidGenerator);
        }
        let mut out: Vec<usize> = Vec::new();
        let mut k: usize = 0;
        while k < v.len()
            invariant
                k <= v.len(),
                out@ == v@.take(k as int),
            decreases v.len() - k,
        {
            out.push(v[k]);
            k += 1;
            assert(out@ =~= v@.take(k as int));
        }
        assert(v@.take(k as int) =~= v@);
        Ok(out)
    }

    fn as_vec(&self) -> (v: Vec<usize>) {
        let mut out: Vec<usize> = Vec::new();
        let mut k: usize = 0;
        while k < self.len()
            invariant
                k <= self.len(),
                out@ == self@.take(k as int),
            decreases self.len() - k,
        {
            out.push(self[k]);
            k += 1;
            assert(out@ =~= self@.take(k as int));
        }
        assert(self@.take(k as int) =~= self@);
        out
    }
}

    /// The permutation that lets the strands run through `first` and then
/// through `second`.
pub fn compose<A: Permutation, B: Permutation, C: Permutation>(
    first: &A,
    second: &B,
) -> (r: Result<C, BraidError>)
        requires
            first.well_formed(),
            second.well_formed(),
        ensures
            first.ending().len() != second.ending().len() ==> (r matches Err(e) && e
                == BraidError::MismatchedStrands),
            first.ending().len() == second.ending().len() ==> (r matches Ok(c) && c.well_formed()
                && c.ending() == composed(first.ending(), second.ending())),
    {
        let n = first.size();
        if n != second.size() {
            return Err(BraidError::MismatchedStrands);
        }
        let ghost e1 = first.ending();
        let ghost e2 = second.ending();
        proof {
            first.lemma_ending();
            second.lemma_ending();
        }
        let mut res = identity_vec(n);
        let mut strand: usize = 1;
        while strand <= n
            invariant
                1 <= strand <= n + 1,
                n == e1.len(),
                n == e2.len(),
                e1 == first.ending(),
                e2 == second.ending(),
                first.well_formed(),
                second.well_formed(),
                is_arrangement(e1),
                is_arrangement(e2),
                res@.len() == n,
                forall|s: usize|
                    1 <= s < strand ==> res@[place_of(e2, #[trigger] place_of(e1, s) as usize)
                        - 1] == s,
            decreases n + 1 - strand,
        {
            let after_first = first.position(strand);
            proof {
                lemma_place_of(e1, strand);
                lemma_place_of(e2, after_first);
            }
            let result_place = second.position(after_first);
            res[result_place - 1] = strand;
            proof {
                assert forall|s: usize| 1 <= s < strand + 1 implies res@[place_of(
                    e2,
                    #[trigger] place_of(e1, s) as usize,
                ) - 1] == s by {
                    if s < strand {
                        lemma_place_of(e1, s);
                        lemma_place_of(e2, place_of(e1, s) as usize);
                    }
                }
            }
            if strand == n {
                proof {
                    lemma_composed(e1, e2, res@);
                }
                return C::from_slice(res.as_slice());
            }
            strand += 1;
        }
        proof {
            lemma_composed(e1, e2, res@);
        }
        C::from_slice(res.as_slice())
    }


/// Builds the permutation with the given ending array by exchanges of two
/// strands: for each position in turn, the strand that belongs there is
/// looked up and brought in.
pub fn from_slice_slow<P: Permutation>(v: &[usize]) -> (r: Result<P, BraidError>)
    ensures
        r is Ok <==> is_arrangement(v@),
        r matches Err(e) ==> e == BraidError::InvalidGenerator,
        r matches Ok(p) ==> p.well_formed() && p.ending() == v@,
{
    let n = v.len();
    let mut res = P::id(n);
    let mut reference = identity_vec(n);
    let mut i: usize = 0;
    proof {
        crate::strands::lemma_identity_arrangement(n as nat);
    }
    while i < n
        invariant
            i <= n,
            n == v@.len(),
            reference@.len() == n,
            is_arrangement(reference@),
            res.well_formed(),
            res.ending() == reference@,
            forall|k: int| 0 <= k < i ==> reference@[k] == v@[k],
        decreases n - i,
    {
        let target = v[i];
        // the strands before `i` are in place; the one that belongs at `i`
        // must be among the others
        let mut place_to = i;
        while place_to < n && reference[place_to] != target
            invariant
                i <= place_to <= n,
                n == reference@.len(),
                forall|k: int| i <= k < place_to ==> reference@[k] != target,
            decreases n - place_to,
        {
            place_to += 1;
        }
        if place_to == n {
            proof {
                // `target` is out of range or stands at an earlier position
                if is_arrangement(v@) {
                    lemma_place_of(reference@, target);
                    let at = place_of(reference@, target) - 1;
                    assert(reference@[at] == v@[at]);
                    assert(v@[at] != v@[i as int]);
                }
            }
            return Err(BraidError::InvalidGenerator);
        }
        proof {
            crate::strands::lemma_exchange_arrangement(reference@, i + 1, place_to + 1);
        }
        res.swap_(i + 1, place_to + 1);
        exchange_vec(&mut reference, i + 1, place_to + 1);
        i += 1;
    }
    assert(reference@ =~= v@);
    Ok(res)
}

} // verus!
