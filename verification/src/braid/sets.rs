//! Starting and finishing sets of a positive braid.
//!
//! Both are read off the arrangement that the strands end in. Position `i`
//! is in the finishing set when the strand that ends at `i` started right of
//! the one that ends at `i + 1`; it is in the starting set when the strands
//! that start at `i` and `i + 1` end in the other order. For a positive
//! permutation braid these are the generators that can be split off at its
//! end and at its beginning.

use vstd::prelude::*;
use indexmap::IndexSet;
use crate::braid::Braid;
use crate::error::BraidError;
use crate::ordered_set::{set_insert, set_items, set_new};
use crate::permutation::{lemma_place_of, place_of, Permutation};
use crate::strands::{is_arrangement, lemma_identity_arrangement, lemma_walk_arrangement, identity};

verus! {

/// The positions `i` in `1..=m` at which `e` steps down, in rising order:
/// those with `e[i] < e[i - 1]`, entries counted from 0.
pub open spec fn descents_upto(e: Seq<usize>, m: nat) -> Seq<usize>
    decreases m,
{
    if m == 0 {
        Seq::empty()
    } else {
        let before = descents_upto(e, (m - 1) as nat);
        if m < e.len() && e[m as int] < e[m - 1] {
            before.push(m as usize)
        } else {
            before
        }
    }
}

/// All the positions at which `e` steps down, in rising order.
pub open spec fn descents(e: Seq<usize>) -> Seq<usize> {
    if e.len() == 0 {
        Seq::empty()
    } else {
        descents_upto(e, (e.len() - 1) as nat)
    }
}

/// The finishing set of an arrangement, in rising order.
pub open spec fn finishing_seq(e: Seq<usize>) -> Seq<usize> {
    descents(e)
}

/// For each strand, the position at which it ends.
pub open spec fn places(e: Seq<usize>) -> Seq<usize> {
    Seq::new(e.len(), |k: int| place_of(e, (k + 1) as usize) as usize)
}

/// The starting set of an arrangement, in rising order.
pub open spec fn starting_seq(e: Seq<usize>) -> Seq<usize> {
    descents(places(e))
}

/// What `descents_upto` holds.
pub proof fn lemma_descents(e: Seq<usize>, m: nat)
    requires
        m < e.len() || m == 0,
        e.len() <= usize::MAX,
    ensures
        forall|i: usize|
            descents_upto(e, m).contains(i) <==> 1 <= i <= m && e[i as int] < e[i - 1],
        descents_upto(e, m).no_duplicates(),
    decreases m,
{
    let d = descents_upto(e, m);
    if m > 0 {
        let before = descents_upto(e, (m - 1) as nat);
        lemma_descents(e, (m - 1) as nat);
        if e[m as int] < e[m - 1] {
            assert forall|i: usize| d.contains(i) <==> 1 <= i <= m && e[i as int] < e[i
                - 1] by {
                if d.contains(i) {
                    let k = choose|k: int| 0 <= k < d.len() && d[k] == i;
                    if k < before.len() {
                        assert(before[k] == i);
                        assert(before.contains(i));
                    }
                }
                if 1 <= i <= m && e[i as int] < e[i - 1] {
                    if i == m {
                        assert(d[d.len() - 1] == i);
                    } else {
                        assert(before.contains(i));
                        let k = choose|k: int| 0 <= k < before.len() && before[k] == i;
                        assert(d[k] == i);
                    }
                }
            }
            assert forall|i: int, j: int|
                0 <= i < d.len() && 0 <= j < d.len() && i != j implies d[i] != d[j] by {
                if i < before.len() {
                    assert(before.contains(before[i]));
                }
                if j < before.len() {
                    assert(before.contains(before[j]));
                }
            }
        }
    } else {
        assert forall|i: usize| !d.contains(i) by {}
    }
}

/// The set of the positions at which `e` steps down.
fn descent_set(e: &Vec<usize>) -> (s: IndexSet<usize>)
    ensures
        set_items(s) == descents(e@),
{
    let n = e.len();
    let mut s = set_new();
    let mut i: usize = 1;
    while i < n
        invariant
            1 <= i,
            i <= n || i == 1,
            n == e@.len(),
            set_items(s) == descents_upto(e@, (i - 1) as nat),
        decreases n - i,
    {
        if e[i] < e[i - 1] {
            proof {
                lemma_descents(e@, (i - 1) as nat);
            }
            let fresh = set_insert(&mut s, i);
            assert(fresh);
        }
        i += 1;
    }
    s
}

impl Braid {
    /// Whether the word can be read as a positive braid on `n` strands:
    /// `InvalidGenerator` where an index is out of range, else
    /// `NonPositiveWord` where a generator is an inverse.
    pub fn check_positive(&self) -> (r: Result<(), BraidError>)
        ensures
            !self.wf() ==> r == Err::<(), BraidError>(BraidError::InvalidGenerator),
            self.wf() && !self.positive() ==> r == Err::<(), BraidError>(
                BraidError::NonPositiveWord,
            ),
            self.wf() && self.positive() ==> r is Ok,
    {
        if !self.is_well_formed() {
            Err(BraidError::InvalidGenerator)
        } else if !self.is_positive() {
            Err(BraidError::NonPositiveWord)
        } else {
            Ok(())
        }
    }

    /// The finishing set of a positive braid: the positions `i` at which the
    /// strand that ends at `i` started right of the strand that ends at
    /// `i + 1`, in rising order.
    pub fn finishing_set(&self) -> (r: Result<IndexSet<usize>, BraidError>)
        ensures
            !self.wf() ==> (r matches Err(e) && e == BraidError::InvalidGenerator),
            self.wf() && !self.positive() ==> (r matches Err(e) && e
                == BraidError::NonPositiveWord),
            self.wf() && self.positive() ==> (r matches Ok(s) && set_items(s) == finishing_seq(
                self.arrangement(),
            )),
    {
        match self.check_positive() {
            Err(e) => Err(e),
            Ok(()) => {
                let arr = self.as_vec();
                Ok(descent_set(&arr))
            },
        }
    }

    /// The starting set of a positive braid: the positions `i` for which the
    /// strands that start at `i` and at `i + 1` end in the other order, in
    /// rising order.
    pub fn starting_set(&self) -> (r: Result<IndexSet<usize>, BraidError>)
        ensures
            !self.wf() ==> (r matches Err(e) && e == BraidError::InvalidGenerator),
            self.wf() && !self.positive() ==> (r matches Err(e) && e
                == BraidError::NonPositiveWord),
            self.wf() && self.positive() ==> (r matches Ok(s) && set_items(s) == starting_seq(
                self.arrangement(),
            )),
    {
        match self.check_positive() {
            Err(e) => Err(e),
            Ok(()) => {
                let arr = self.as_vec();
                proof {
                    lemma_identity_arrangement(self.n as nat);
                    lemma_walk_arrangement(
                        identity(self.n as nat),
                        crate::braid::indices(self.gens@),
                    );
                }
                let ends = places_vec(&arr);
                Ok(descent_set(&ends))
            },
        }
    }
}

/// For each strand, the position at which it ends.
pub fn places_vec(e: &Vec<usize>) -> (p: Vec<usize>)
    requires
        is_arrangement(e@),
    ensures
        p@ == places(e@),
{
    let n = e.len();
    let mut p: Vec<usize> = Vec::new();
    let mut k: usize = 0;
    while k < n
        invariant
            k <= n,
            p@.len() == k,
        decreases n - k,
    {
        p.push(0);
        k += 1;
    }
    k = 0;
    while k < n
        invariant
            k <= n,
            n == e@.len(),
            p@.len() == n,
            is_arrangement(e@),
            forall|j: int| 0 <= j < k ==> p@[#[trigger] e@[j] - 1] == j + 1,
        decreases n - k,
    {
        let strand = e[k];
        p[strand - 1] = k + 1;
        proof {
            assert forall|j: int| 0 <= j < k + 1 implies p@[#[trigger] e@[j] - 1] == j + 1 by {
                if j < k {
                    assert(e@[j] != e@[k as int]);
                }
            }
        }
        k += 1;
    }
    proof {
        assert forall|s: int| 0 <= s < n implies p@[s] == places(e@)[s] by {
            lemma_place_of(e@, (s + 1) as usize);
            let at = place_of(e@, (s + 1) as usize) - 1;
            assert(p@[e@[at] - 1] == at + 1);
        }
        assert(p@ =~= places(e@));
    }
    p
}

} // verus!
