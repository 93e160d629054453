//! What the rewrites of a word keep: each follows a relation of the braid
//! group, so the exponent sum and the induced permutation stay.

use vstd::prelude::*;
use crate::braid::exponent::exponent_sum;
use crate::braid::random::{
    exchanged_upto, far_apart, is_triple, one_rewrite, rewrite_chain, swapped_upto, with_pair,
};
use crate::braid::segments::lemma_walk_concat;
use crate::braid::{in_range, indices, BrGen};
use crate::strands::{cross, identity, walk};

verus! {

/// The word has the exponent sum and, on `n` strands, the induced
/// permutation of the other, and its indices are in range as well.
pub open spec fn same_images(a: Seq<BrGen>, b: Seq<BrGen>, n: usize) -> bool {
    &&& exponent_sum(a) == exponent_sum(b)
    &&& walk(identity(n as nat), indices(a)) == walk(identity(n as nat), indices(b))
    &&& in_range(b, n as nat)
}

/// The exponent sum of a product is the sum of the exponent sums.
pub proof fn lemma_exponent_sum_concat(a: Seq<BrGen>, b: Seq<BrGen>)
    ensures
        exponent_sum(a + b) == exponent_sum(a) + exponent_sum(b),
    decreases b.len(),
{
    if b.len() == 0 {
        assert(a + b =~= a);
    } else {
        lemma_exponent_sum_concat(a, b.drop_last());
        assert((a + b).drop_last() =~= a + b.drop_last());
        assert((a + b).last() == b.last());
    }
}

/// The exponent sum of a word of two generators.
pub proof fn lemma_exponent_sum_two(x: BrGen, y: BrGen)
    ensures
        exponent_sum(seq![x, y]) == exponent_sum(seq![x]) + exponent_sum(seq![y]),
        exponent_sum(seq![x]) == if x is Sigma {
            1int
        } else {
            -1int
        },
{
    let one = seq![x];
    assert(one.drop_last() =~= Seq::<BrGen>::empty());
    assert(exponent_sum(one.drop_last()) == 0);
    assert(seq![x, y] =~= seq![x] + seq![y]);
    lemma_exponent_sum_concat(seq![x], seq![y]);
    let other = seq![y];
    assert(other.drop_last() =~= Seq::<BrGen>::empty());
    assert(exponent_sum(other.drop_last()) == 0);
}

/// Where a middle part of a word is replaced by one that has its exponent
/// sum and acts on the strands as it does, the word keeps both.
pub proof fn lemma_replace_middle(
    head: Seq<BrGen>,
    old_part: Seq<BrGen>,
    new_part: Seq<BrGen>,
    tail: Seq<BrGen>,
    n: usize,
)
    requires
        exponent_sum(old_part) == exponent_sum(new_part),
        forall|e: Seq<usize>|
            e.len() == n ==> #[trigger] walk(e, indices(old_part)) == walk(e, indices(new_part)),
    ensures
        exponent_sum(head + old_part + tail) == exponent_sum(head + new_part + tail),
        walk(identity(n as nat), indices(head + old_part + tail)) == walk(
            identity(n as nat),
            indices(head + new_part + tail),
        ),
{
    let id = identity(n as nat);
    lemma_exponent_sum_concat(head, old_part);
    lemma_exponent_sum_concat(head, new_part);
    lemma_exponent_sum_concat(head + old_part, tail);
    lemma_exponent_sum_concat(head + new_part, tail);
    assert(indices(head + old_part + tail) =~= indices(head) + indices(old_part) + indices(tail));
    assert(indices(head + new_part + tail) =~= indices(head) + indices(new_part) + indices(tail));
    lemma_walk_concat(id, indices(head) + indices(old_part), indices(tail));
    lemma_walk_concat(id, indices(head) + indices(new_part), indices(tail));
    lemma_walk_concat(id, indices(head), indices(old_part));
    lemma_walk_concat(id, indices(head), indices(new_part));
    let e = walk(id, indices(head));
    crate::strands::lemma_walk_len(id, indices(head));
    assert(walk(e, indices(old_part)) == walk(e, indices(new_part)));
}

/// The walk of a word of two generators.
pub proof fn lemma_walk_two(e: Seq<usize>, x: BrGen, y: BrGen)
    ensures
        walk(e, indices(seq![x, y])) == cross(cross(e, x.index() as int), y.index() as int),
{
    let none = Seq::<usize>::empty();
    let one = none.push(x.index());
    assert(indices(seq![x, y]) =~= one.push(y.index()));
    crate::braid::lemma_walk_push(e, none, x.index());
    crate::braid::lemma_walk_push(e, one, y.index());
    assert(walk(e, none) == e);
}

/// The walk of a word of three generators.
pub proof fn lemma_walk_three(e: Seq<usize>, x: BrGen, y: BrGen, z: BrGen)
    ensures
        walk(e, indices(seq![x, y, z])) == cross(
            cross(cross(e, x.index() as int), y.index() as int),
            z.index() as int,
        ),
{
    let two = indices(seq![x, y]);
    assert(indices(seq![x, y, z]) =~= two.push(z.index()));
    crate::braid::lemma_walk_push(e, two, z.index());
    lemma_walk_two(e, x, y);
}

/// Putting in a generator and its inverse keeps the exponent sum and the
/// induced permutation.
pub proof fn lemma_pair_keeps(g: Seq<BrGen>, idx: int, v: usize, n: usize)
    requires
        in_range(g, n as nat),
        0 <= idx <= g.len(),
        1 <= v < n,
    ensures
        same_images(g, with_pair(g, idx, v), n),
{
    let head = g.take(idx);
    let tail = g.skip(idx);
    let none = Seq::<BrGen>::empty();
    let pair = seq![BrGen::Sigma(v), BrGen::SigmaInv(v)];
    lemma_exponent_sum_two(BrGen::Sigma(v), BrGen::SigmaInv(v));
    lemma_exponent_sum_two(BrGen::SigmaInv(v), BrGen::Sigma(v));
    assert forall|e: Seq<usize>| e.len() == n implies #[trigger] walk(e, indices(none)) == walk(
        e,
        indices(pair),
    ) by {
        lemma_walk_two(e, BrGen::Sigma(v), BrGen::SigmaInv(v));
        assert(indices(none) =~= Seq::<usize>::empty());
        assert(cross(cross(e, v as int), v as int) =~= e);
    }
    lemma_replace_middle(head, none, pair, tail, n);
    assert(head + none + tail =~= g);
    assert forall|k: int| 0 <= k < with_pair(g, idx, v).len() implies 1 <= (#[trigger] with_pair(
        g,
        idx,
        v,
    )[k]).index() < n by {
        if k < idx {
            assert(with_pair(g, idx, v)[k] == g[k]);
        } else if k >= idx + 2 {
            assert(with_pair(g, idx, v)[k] == g[k - 2]);
        }
    }
}

/// A pass of swaps keeps the exponent sum and the induced permutation.
pub proof fn lemma_swaps_keep(g: Seq<BrGen>, upto: nat, n: usize)
    requires
        in_range(g, n as nat),
    ensures
        same_images(g, swapped_upto(g, upto), n),
        swapped_upto(g, upto).len() == g.len(),
    decreases upto,
{
    if upto > 1 {
        lemma_swaps_keep(g, (upto - 1) as nat, n);
        let h = swapped_upto(g, (upto - 1) as nat);
        let k = upto - 1;
        if k < h.len() && far_apart(h[k - 1], h[k]) {
            let x = h[k - 1];
            let y = h[k];
            let head = h.take(k - 1);
            let tail = h.skip(k + 1);
            let out = swapped_upto(g, upto);
            assert(h =~= head + seq![x, y] + tail);
            assert(out =~= head + seq![y, x] + tail);
            lemma_exponent_sum_two(x, y);
            lemma_exponent_sum_two(y, x);
            let old_part = seq![x, y];
            let new_part = seq![y, x];
            assert forall|e: Seq<usize>| e.len() == n implies #[trigger] walk(
                e,
                indices(old_part),
            ) == walk(e, indices(new_part)) by {
                lemma_walk_two(e, x, y);
                lemma_walk_two(e, y, x);
                assert(cross(cross(e, x.index() as int), y.index() as int) =~= cross(
                    cross(e, y.index() as int),
                    x.index() as int,
                ));
            }
            lemma_replace_middle(head, old_part, new_part, tail, n);
            assert forall|m: int| 0 <= m < out.len() implies 1 <= (#[trigger] out[m]).index()
                < n by {
                if m == k - 1 {
                    assert(out[m] == h[k as int]);
                } else if m == k {
                    assert(out[m] == h[k - 1]);
                } else {
                    assert(out[m] == h[m]);
                }
            }
        }
    }
}

/// A pass of exchanges keeps the exponent sum and the induced permutation.
pub proof fn lemma_exchanges_keep(g: Seq<BrGen>, upto: nat, n: usize)
    requires
        in_range(g, n as nat),
    ensures
        same_images(g, exchanged_upto(g, upto), n),
        exchanged_upto(g, upto).len() == g.len(),
    decreases upto,
{
    if upto > 0 {
        lemma_exchanges_keep(g, (upto - 1) as nat, n);
        let h = exchanged_upto(g, (upto - 1) as nat);
        let k = upto - 1;
        if k + 2 < h.len() && is_triple(h[k as int], h[k + 1], h[k + 2]) {
            let x = h[k as int];
            let y = h[k + 1];
            let head = h.take(k as int);
            let tail = h.skip(k + 3);
            let out = exchanged_upto(g, upto);
            assert(h =~= head + seq![x, y, h[k + 2]] + tail);
            assert(out =~= head + seq![y, x, y] + tail);
            assert(1 <= x.index() < n && 1 <= y.index() < n);
            assert(seq![x, y, h[k + 2]] =~= seq![x, y] + seq![h[k + 2]]);
            assert(seq![y, x, y] =~= seq![y, x] + seq![y]);
            lemma_exponent_sum_concat(seq![x, y], seq![h[k + 2]]);
            lemma_exponent_sum_concat(seq![y, x], seq![y]);
            lemma_exponent_sum_two(x, y);
            lemma_exponent_sum_two(y, x);
            lemma_exponent_sum_two(h[k + 2], y);
            let old_part = seq![x, y, h[k + 2]];
            let new_part = seq![y, x, y];
            assert forall|e: Seq<usize>| e.len() == n implies #[trigger] walk(
                e,
                indices(old_part),
            ) == walk(e, indices(new_part)) by {
                lemma_walk_three(e, x, y, h[k + 2]);
                lemma_walk_three(e, y, x, y);
                let a = x.index() as int;
                assert(cross(cross(cross(e, a), a + 1), a) =~= cross(
                    cross(cross(e, a + 1), a),
                    a + 1,
                ));
            }
            lemma_replace_middle(head, old_part, new_part, tail, n);
            assert forall|m: int| 0 <= m < out.len() implies 1 <= (#[trigger] out[m]).index()
                < n by {
                if m != k && m != k + 1 && m != k + 2 {
                    assert(out[m] == h[m]);
                }
            }
        }
    }
}

/// Every rewrite keeps the exponent sum and the induced permutation of a
/// word with its indices in range.
pub proof fn lemma_rewrite_keeps(a: Seq<BrGen>, b: Seq<BrGen>, n: usize)
    requires
        in_range(a, n as nat),
        one_rewrite(a, b, n),
    ensures
        same_images(a, b, n),
{
    if b == swapped_upto(a, a.len()) {
        lemma_swaps_keep(a, a.len(), n);
    } else if b == exchanged_upto(a, a.len()) {
        lemma_exchanges_keep(a, a.len(), n);
    } else {
        let (idx, v) = choose|idx: int, v: usize|
            0 <= idx <= a.len() && 1 <= v < n && b == #[trigger] with_pair(a, idx, v);
        lemma_pair_keeps(a, idx, v, n);
    }
}

/// A chain of rewrites keeps the exponent sum and the induced permutation.
pub proof fn lemma_chain_keeps(chain: Seq<Seq<BrGen>>, n: usize)
    requires
        chain.len() >= 1,
        in_range(chain[0], n as nat),
        rewrite_chain(chain, n),
    ensures
        same_images(chain[0], chain.last(), n),
    decreases chain.len(),
{
    if chain.len() > 1 {
        let front = chain.drop_last();
        assert forall|k: int| 0 <= k < front.len() - 1 implies one_rewrite(
            #[trigger] front[k],
            front[k + 1],
            n,
        ) by {
            assert(front[k] == chain[k] && front[k + 1] == chain[k + 1]);
        }
        lemma_chain_keeps(front, n);
        let k = chain.len() - 2;
        assert(front.last() == chain[k]);
        assert(chain.last() == chain[k + 1]);
        assert(one_rewrite(chain[k], chain[k + 1], n));
        lemma_rewrite_keeps(chain[k], chain[k + 1], n);
    }
}

} // verus!
