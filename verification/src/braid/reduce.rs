//! Free reduction: striking out a generator that is followed by its own
//! inverse. It plays no part in the normal form.

use vstd::prelude::*;
use crate::braid::{BrGen, Braid};

verus! {

/// `x` is a positive generator and `y` its inverse.
pub open spec fn cancels(x: BrGen, y: BrGen) -> bool {
    x is Sigma && y is SigmaInv && x.index() == y.index()
}

/// One pass from the left over the word: where a generator is followed by
/// its inverse, both are struck out and the pass goes on behind them.
pub open spec fn reduce_pass(g: Seq<BrGen>) -> Seq<BrGen>
    decreases g.len(),
{
    if g.len() < 2 {
        g
    } else if cancels(g[0], g[1]) {
        reduce_pass(g.skip(2))
    } else {
        seq![g[0]] + reduce_pass(g.skip(1))
    }
}

/// The word after as many passes as strike anything out.
pub open spec fn fully_reduced(g: Seq<BrGen>) -> Seq<BrGen>
    decreases g.len(),
{
    let r = reduce_pass(g);
    if r.len() < g.len() {
        fully_reduced(r)
    } else {
        g
    }
}

/// A pass makes the word no longer, and leaves it as it is if it strikes
/// nothing out.
pub proof fn lemma_reduce_pass(g: Seq<BrGen>)
    ensures
        reduce_pass(g).len() <= g.len(),
        reduce_pass(g).len() == g.len() ==> reduce_pass(g) == g,
    decreases g.len(),
{
    if g.len() >= 2 {
        if cancels(g[0], g[1]) {
            lemma_reduce_pass(g.skip(2));
        } else {
            lemma_reduce_pass(g.skip(1));
            if reduce_pass(g).len() == g.len() {
                assert(seq![g[0]] + g.skip(1) =~= g);
            }
        }
    }
}

impl Braid {
    /// One pass of free reduction. Tells whether anything was struck out.
    pub fn free_reduce_once(&mut self) -> (changed: bool)
        ensures
            final(self).n == old(self).n,
            final(self).gens@ == reduce_pass(old(self).gens@),
            changed == (final(self).gens@.len() != old(self).gens@.len()),
    {
        let len = self.gens.len();
        let mut kept: Vec<BrGen> = Vec::new();
        let mut changed = false;
        let mut i: usize = 0;
        proof {
            assert(self.gens@.skip(0) =~= self.gens@);
            assert(kept@ + reduce_pass(self.gens@.skip(0)) =~= reduce_pass(self.gens@));
            lemma_reduce_pass(self.gens@);
        }
        while i < len
            invariant
                i <= len,
                len == self.gens@.len(),
                self.gens@ == old(self).gens@,
                kept@ + reduce_pass(self.gens@.skip(i as int)) == reduce_pass(self.gens@),
                kept@.len() <= i,
                changed == (kept@.len() != i),
            decreases len - i,
        {
            let ghost rest = self.gens@.skip(i as int);
            proof {
                lemma_reduce_pass(rest);
            }
            let here = self.gens[i];
            let mut struck = false;
            if i + 1 < len {
                let next = self.gens[i + 1];
                match (here, next) {
                    (BrGen::Sigma(a), BrGen::SigmaInv(b)) => {
                        if a == b {
                            struck = true;
                        }
                    },
                    _ => {},
                }
                proof {
                    assert(rest[0] == here && rest[1] == next);
                    assert(struck == cancels(rest[0], rest[1]));
                }
            }
            if struck {
                proof {
                    assert(rest.skip(2) =~= self.gens@.skip(i + 2));
                }
                changed = true;
                i += 2;
            } else {
                proof {
                    assert(rest.skip(1) =~= self.gens@.skip(i + 1));
                    if rest.len() < 2 {
                        assert(rest =~= seq![here]);
                        assert(reduce_pass(rest.skip(1)) =~= Seq::<BrGen>::empty());
                    }
                    assert(kept@.push(here) + reduce_pass(self.gens@.skip(i + 1)) =~= kept@
                        + reduce_pass(rest));
                }
                kept.push(here);
                i += 1;
            }
        }
        proof {
            assert(self.gens@.skip(len as int) =~= Seq::<BrGen>::empty());
            assert(kept@ + Seq::<BrGen>::empty() =~= kept@);
        }
        self.gens = kept;
        changed
    }

    /// Free reduction, pass after pass, until a pass strikes nothing out.
    pub fn free_reduce(&mut self)
        ensures
            final(self).n == old(self).n,
            final(self).gens@ == fully_reduced(old(self).gens@),
    {
        loop
            invariant
                self.n == old(self).n,
                fully_reduced(self.gens@) == fully_reduced(old(self).gens@),
            ensures
                self.gens@ == fully_reduced(old(self).gens@),
            decreases self.gens@.len(),
        {
            let ghost before = self.gens@;
            proof {
                lemma_reduce_pass(before);
            }
            if !self.free_reduce_once() {
                break ;
            }
        }
    }
}

} // verus!
