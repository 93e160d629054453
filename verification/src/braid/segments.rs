//! Cutting a positive word into positive permutation braids.
//!
//! A positive word is a permutation braid when no two of its strands cross
//! twice. The cut is greedy: each piece is the longest prefix of what is
//! left that is a permutation braid.

use vstd::prelude::*;
use std::collections::HashSet;
use crate::braid::{indices, lemma_walk_push, positive_word, BrGen, Braid};
use crate::error::BraidError;
use crate::strands::{
    cross, identity, identity_vec, is_arrangement, lemma_identity_arrangement,
    lemma_walk_arrangement, lemma_walk_len, walk,
};

verus! {

/// The two strands that cross at step `t` of the walk of `w` from `start`:
/// the one that comes from the left, then the one that comes from the right.
pub open spec fn crossing(start: Seq<usize>, w: Seq<usize>, t: int) -> (usize, usize) {
    let reached = walk(start, w.take(t));
    (reached[w[t] - 1], reached[w[t] as int])
}

/// The same two strands, in either order.
pub open spec fn same_pair(p: (usize, usize), q: (usize, usize)) -> bool {
    p == q || (p.0 == q.1 && p.1 == q.0)
}

/// Every index of the word lies in `1..n`.
pub open spec fn fits(w: Seq<usize>, n: nat) -> bool {
    forall|k: int| 0 <= k < w.len() ==> 1 <= #[trigger] w[k] < n
}

/// On the walk of `w` from `start`, no two strands cross at two of the steps
/// `from..to`.
pub open spec fn crosses_once(start: Seq<usize>, w: Seq<usize>, from: int, to: int) -> bool {
    forall|u: int, t: int|
        from <= u < t < to ==> !same_pair(
            #[trigger] crossing(start, w, u),
            #[trigger] crossing(start, w, t),
        )
}

/// The positive word `w` on `n` strands is a permutation braid: no two
/// strands cross twice.
pub open spec fn is_simple(n: nat, w: Seq<usize>) -> bool {
    crosses_once(identity(n), w, 0, w.len() as int)
}

/// The length of the longest prefix of `w` that is a permutation braid.
pub open spec fn head_len(n: nat, w: Seq<usize>) -> nat
    decreases w.len(),
{
    if w.len() == 0 {
        0
    } else if is_simple(n, w) {
        w.len()
    } else {
        head_len(n, w.drop_last())
    }
}

/// The greedy cut of a positive word into permutation braids: the longest
/// prefix that is one, then the cut of the rest.
pub open spec fn segmentation(n: nat, w: Seq<usize>) -> Seq<Seq<usize>>
    decreases w.len(),
{
    let m = head_len(n, w);
    if 0 < m <= w.len() {
        seq![w.take(m as int)] + segmentation(n, w.skip(m as int))
    } else {
        Seq::empty()
    }
}

/// The words of a list, one after the other.
pub open spec fn joined(fs: Seq<Seq<usize>>) -> Seq<usize>
    decreases fs.len(),
{
    if fs.len() == 0 {
        Seq::empty()
    } else {
        joined(fs.drop_last()) + fs.last()
    }
}

/// The words of a list of braids, signs dropped.
pub open spec fn factor_words(fs: Seq<Braid>) -> Seq<Seq<usize>> {
    Seq::new(fs.len(), |j: int| indices(fs[j].gens@))
}

/// Every braid of the list is a positive word on `n` strands with its
/// indices in range.
pub open spec fn positive_factors(fs: Seq<Braid>, n: usize) -> bool {
    forall|j: int|
        0 <= j < fs.len() ==> (#[trigger] fs[j]).n == n && fs[j].positive() && fs[j].wf()
}

/// A list that starts with `x` joins to `x` and then the rest.
pub proof fn lemma_joined_front(x: Seq<usize>, rest: Seq<Seq<usize>>)
    ensures
        joined(seq![x] + rest) == x + joined(rest),
    decreases rest.len(),
{
    let all = seq![x] + rest;
    if rest.len() == 0 {
        assert(all.drop_last() =~= Seq::<Seq<usize>>::empty());
        assert(all.last() == x);
        assert(joined(all.drop_last()) =~= Seq::<usize>::empty());
        assert(joined(all) =~= x + joined(rest));
    } else {
        assert(all.drop_last() =~= seq![x] + rest.drop_last());
        assert(all.last() == rest.last());
        lemma_joined_front(x, rest.drop_last());
        assert(joined(all) =~= x + joined(rest));
    }
}

/// A walk of two words in a row is the walk of the second from where the
/// first ends.
pub proof fn lemma_walk_concat(start: Seq<usize>, a: Seq<usize>, b: Seq<usize>)
    ensures
        walk(start, a + b) == walk(walk(start, a), b),
    decreases b.len(),
{
    if b.len() == 0 {
        assert(a + b =~= a);
    } else {
        lemma_walk_concat(start, a, b.drop_last());
        assert((a + b).drop_last() =~= a + b.drop_last());
    }
}

/// Starting a walk from another arrangement only renames the strands.
pub proof fn lemma_walk_relabel(start: Seq<usize>, w: Seq<usize>)
    requires
        start.len() <= usize::MAX,
    ensures
        walk(identity(start.len()), w).len() == start.len(),
        walk(start, w).len() == start.len(),
        forall|k: int|
            0 <= k < start.len() ==> 1 <= #[trigger] walk(identity(start.len()), w)[k]
                <= start.len(),
        forall|k: int|
            0 <= k < start.len() ==> #[trigger] walk(start, w)[k] == start[walk(
                identity(start.len()),
                w,
            )[k] - 1],
    decreases w.len(),
{
    let n = start.len();
    lemma_identity_arrangement(n);
    lemma_walk_arrangement(identity(n), w);
    lemma_walk_len(start, w);
    if w.len() > 0 {
        lemma_walk_relabel(start, w.drop_last());
        lemma_walk_len(start, w.drop_last());
        lemma_walk_arrangement(identity(n), w.drop_last());
    }
}

/// The prefix of a word crosses the strands that the word crosses.
pub proof fn lemma_crossing_take(start: Seq<usize>, w: Seq<usize>, m: int, t: int)
    requires
        0 <= t < m <= w.len(),
    ensures
        crossing(start, w.take(m), t) == crossing(start, w, t),
{
    assert(w.take(m).take(t) =~= w.take(t));
}

/// A prefix of a permutation braid is a permutation braid.
pub proof fn lemma_simple_prefix(n: nat, w: Seq<usize>, m: int)
    requires
        0 <= m <= w.len(),
        is_simple(n, w),
    ensures
        is_simple(n, w.take(m)),
{
    let v = w.take(m);
    assert forall|u: int, t: int| 0 <= u < t < v.len() implies !same_pair(
        #[trigger] crossing(identity(n), v, u),
        #[trigger] crossing(identity(n), v, t),
    ) by {
        lemma_crossing_take(identity(n), w, m, u);
        lemma_crossing_take(identity(n), w, m, t);
    }
}

/// The longest prefix that is a permutation braid is the one that cannot be
/// made longer.
pub proof fn lemma_head_len(n: nat, w: Seq<usize>, m: int)
    requires
        0 < m <= w.len(),
        is_simple(n, w.take(m)),
        m == w.len() || !is_simple(n, w.take(m + 1)),
    ensures
        head_len(n, w) == m,
    decreases w.len() - m,
{
    if m == w.len() {
        assert(w.take(m) =~= w);
    } else {
        if is_simple(n, w) {
            lemma_simple_prefix(n, w, m + 1);
        }
        let v = w.drop_last();
        assert(v.take(m) =~= w.take(m));
        if m < v.len() {
            assert(v.take(m + 1) =~= w.take(m + 1));
        }
        lemma_head_len(n, v, m);
    }
}

/// The pair `g` is the pair `c` with each strand renamed through `base`.
pub open spec fn renames(base: Seq<usize>, c: (usize, usize), g: (usize, usize)) -> bool {
    &&& 1 <= c.0 <= base.len()
    &&& 1 <= c.1 <= base.len()
    &&& g.0 == base[c.0 - 1]
    &&& g.1 == base[c.1 - 1]
}

/// What a piece of a longer walk crosses, read as a walk of its own, is what
/// the longer walk crosses there, up to the names of the strands.
pub proof fn lemma_piece_simple(n: nat, w: Seq<usize>, s: int, k: int)
    requires
        n <= usize::MAX,
        fits(w, n),
        0 <= s <= k <= w.len(),
    ensures
        is_simple(n, w.subrange(s, k)) <==> crosses_once(identity(n), w, s, k),
{
    let v = w.subrange(s, k);
    let id = identity(n);
    let base = walk(id, w.take(s));
    lemma_identity_arrangement(n);
    lemma_walk_arrangement(id, w.take(s));
    assert forall|t: int| 0 <= t < v.len() implies #[trigger] renames(
        base,
        crossing(id, v, t),
        crossing(id, w, s + t),
    ) by {
        assert(w.take(s + t) =~= w.take(s) + v.take(t));
        lemma_walk_concat(id, w.take(s), v.take(t));
        lemma_walk_relabel(base, v.take(t));
        assert(v[t] == w[s + t]);
        assert(1 <= w[s + t] < n);
    }
    if is_simple(n, v) {
        assert forall|u: int, t: int| s <= u < t < k implies !same_pair(
            #[trigger] crossing(id, w, u),
            #[trigger] crossing(id, w, t),
        ) by {
            let cu = crossing(id, v, u - s);
            let ct = crossing(id, v, t - s);
            assert(!same_pair(cu, ct));
            assert(renames(base, cu, crossing(id, w, s + (u - s))));
            assert(renames(base, ct, crossing(id, w, s + (t - s))));
            assert(0 <= cu.0 - 1 < n && 0 <= cu.1 - 1 < n && 0 <= ct.0 - 1 < n && 0 <= ct.1 - 1
                < n);
            lemma_injective(base, cu.0 - 1, ct.0 - 1);
            lemma_injective(base, cu.1 - 1, ct.1 - 1);
            lemma_injective(base, cu.0 - 1, ct.1 - 1);
            lemma_injective(base, cu.1 - 1, ct.0 - 1);
        }
    }
    if crosses_once(id, w, s, k) {
        assert forall|u: int, t: int| 0 <= u < t < v.len() implies !same_pair(
            #[trigger] crossing(id, v, u),
            #[trigger] crossing(id, v, t),
        ) by {
            let gu = crossing(id, w, s + u);
            let gt = crossing(id, w, s + t);
            assert(!same_pair(gu, gt));
            assert(renames(base, crossing(id, v, u), gu));
            assert(renames(base, crossing(id, v, t), gt));
        }
    }
}

/// Two positions of an arrangement that hold the same strand are one.
pub proof fn lemma_injective(e: Seq<usize>, i: int, j: int)
    requires
        is_arrangement(e),
        0 <= i < e.len(),
        0 <= j < e.len(),
    ensures
        e[i] == e[j] ==> i == j,
{
    if i < j {
        assert(e[i] != e[j]);
    } else if j < i {
        assert(e[j] != e[i]);
    }
}

/// The number under which a pair of strands is kept.
pub open spec fn key_of(p: (usize, usize)) -> u128 {
    (p.0 as int * 0x1_0000_0000_0000_0000 + p.1 as int) as u128
}

/// Different pairs are kept under different numbers.
pub proof fn lemma_key_of(p: (usize, usize), q: (usize, usize))
    ensures
        key_of(p) == key_of(q) <==> p == q,
{
    assert(usize::MAX <= 0xffff_ffff_ffff_ffff);
}

fn pair_key(a: usize, b: usize) -> (key: u128)
    ensures
        key == key_of((a, b)),
{
    assert(usize::MAX <= 0xffff_ffff_ffff_ffff);
    (a as u128) * 0x1_0000_0000_0000_0000 + (b as u128)
}

/// Cuts a positive word into positive permutation braids, each the longest
/// that can be taken from the front of what is left.
#[verifier::rlimit(60)]
pub fn break_into_permutations(b: &Braid) -> (r: Result<Vec<Braid>, BraidError>)
    ensures
        !b.wf() ==> (r matches Err(e) && e == BraidError::InvalidGenerator),
        b.wf() && !b.positive() ==> (r matches Err(e) && e == BraidError::NonPositiveWord),
        b.wf() && b.positive() ==> (r matches Ok(segs) && positive_factors(segs@, b.n)
            && factor_words(segs@) == segmentation(b.n as nat, indices(b.gens@)) && joined(
            factor_words(segs@),
        ) == indices(b.gens@) && forall|j: int|
            0 <= j < segs@.len() ==> (#[trigger] factor_words(segs@)[j]).len() > 0 && is_simple(
                b.n as nat,
                factor_words(segs@)[j],
            )),
{
    broadcast use vstd::std_specs::hash::group_hash_axioms;

    match b.check_positive() {
        Err(e) => {
            return Err(e);
        },
        Ok(()) => {},
    }
    let n = b.n;
    let len = b.gens.len();
    let ghost w = indices(b.gens@);
    let ghost id = identity(n as nat);
    let mut string_pos = identity_vec(n);
    let mut has_crossed: HashSet<u128> = HashSet::new();
    let mut res: Vec<Braid> = Vec::new();
    let mut contents: Vec<BrGen> = Vec::new();
    let ghost mut s: int = 0;
    let mut k: usize = 0;
    proof {
        assert(w.skip(0) =~= w);
        assert(factor_words(res@) =~= Seq::<Seq<usize>>::empty());
        assert(factor_words(res@) + segmentation(n as nat, w.skip(s)) =~= segmentation(
            n as nat,
            w,
        ));
        assert(contents@ =~= positive_word(w.subrange(s, k as int)));
        lemma_identity_arrangement(n as nat);
    }
    while k < len
        invariant
            0 <= s <= k <= len,
            s < k || k == 0,
            len == b.gens@.len(),
            w == indices(b.gens@),
            w.len() == len,
            id == identity(n as nat),
            n == b.n,
            b.wf(),
            b.positive(),
            fits(w, n as nat),
            string_pos@ == walk(id, w.take(k as int)),
            string_pos@.len() == n,
            is_arrangement(string_pos@),
            contents@ == positive_word(w.subrange(s, k as int)),
            positive_factors(res@, n),
            factor_words(res@) + segmentation(n as nat, w.skip(s)) == segmentation(n as nat, w),
            crosses_once(id, w, s, k as int),
            forall|key: u128|
                has_crossed@.contains(key) <==> exists|u: int|
                    s <= u < k && key == key_of(#[trigger] crossing(id, w, u)),
        decreases len - k,
    {
        let swap = match b.gens[k] {
            BrGen::Sigma(a) => a,
            BrGen::SigmaInv(a) => a,
        };
        proof {
            assert(b.gens@[k as int] is Sigma);
            assert(1 <= b.gens@[k as int].index() < n);
            assert(w[k as int] == swap);
        }
        let string1_name = string_pos[swap - 1];
        let string2_name = string_pos[swap];
        let key = pair_key(string1_name, string2_name);
        let back = pair_key(string2_name, string1_name);
        let ghost here = crossing(id, w, k as int);
        assert(here == (string1_name, string2_name));
        let seen = has_crossed.contains(&key) || has_crossed.contains(&back);
        if seen {
            proof {
                // the piece up to here is a permutation braid, and this
                // crossing would repeat one of its own
                let u = if has_crossed@.contains(key) {
                    choose|u: int| s <= u < k && key == key_of(#[trigger] crossing(id, w, u))
                } else {
                    choose|u: int| s <= u < k && back == key_of(#[trigger] crossing(id, w, u))
                };
                lemma_key_of(crossing(id, w, u), (string1_name, string2_name));
                lemma_key_of(crossing(id, w, u), (string2_name, string1_name));
                assert(same_pair(crossing(id, w, u), crossing(id, w, k as int)));
                assert(!crosses_once(id, w, s, k + 1));
                lemma_piece_simple(n as nat, w, s, k as int);
                lemma_piece_simple(n as nat, w, s, k + 1);
                let rest = w.skip(s);
                assert(rest.take(k - s) =~= w.subrange(s, k as int));
                assert(rest.take(k - s + 1) =~= w.subrange(s, k + 1));
                lemma_head_len(n as nat, rest, k - s);
                assert(rest.skip(k - s) =~= w.skip(k as int));
                assert(segmentation(n as nat, rest) == seq![w.subrange(s, k as int)]
                    + segmentation(n as nat, w.skip(k as int)));
            }
            let ghost old_res = res@;
            let piece = Braid { gens: contents, n };
            proof {
                assert(indices(piece.gens@) =~= w.subrange(s, k as int));
                assert forall|j: int| 0 <= j < piece.gens@.len() implies 1 <= (
                #[trigger] piece.gens@[j]).index() < n by {
                    assert(piece.gens@[j].index() == w[s + j]);
                }
            }
            res.push(piece);
            contents = Vec::new();
            has_crossed.clear();
            has_crossed.insert(key);
            proof {
                assert(factor_words(res@) =~= factor_words(old_res) + seq![
                    w.subrange(s, k as int),
                ]);
                assert(factor_words(res@) + segmentation(n as nat, w.skip(k as int))
                    =~= factor_words(old_res) + (seq![w.subrange(s, k as int)] + segmentation(
                    n as nat,
                    w.skip(k as int),
                )));
                s = k as int;
                assert forall|key2: u128|
                    has_crossed@.contains(key2) <==> exists|u: int|
                        s <= u < k + 1 && key2 == key_of(#[trigger] crossing(id, w, u)) by {
                    if has_crossed@.contains(key2) {
                        assert(key2 == key_of(crossing(id, w, k as int)));
                    }
                }
            }
        } else {
            let ghost old_set = has_crossed@;
            has_crossed.insert(key);
            proof {
                assert forall|u: int, t: int| s <= u < t < k + 1 implies !same_pair(
                    #[trigger] crossing(id, w, u),
                    #[trigger] crossing(id, w, t),
                ) by {
                    if t == k {
                        let c = crossing(id, w, u);
                        assert(old_set.contains(key_of(c)));
                        lemma_key_of(c, (string1_name, string2_name));
                        lemma_key_of(c, (string2_name, string1_name));
                    }
                }
                assert forall|key2: u128|
                    has_crossed@.contains(key2) <==> exists|u: int|
                        s <= u < k + 1 && key2 == key_of(#[trigger] crossing(id, w, u)) by {
                    if has_crossed@.contains(key2) {
                        if key2 == key {
                            assert(key2 == key_of(crossing(id, w, k as int)));
                        } else {
                            assert(old_set.contains(key2));
                            let u = choose|u: int|
                                s <= u < k && key2 == key_of(#[trigger] crossing(id, w, u));
                            assert(s <= u < k + 1 && key2 == key_of(crossing(id, w, u)));
                        }
                    }
                    if exists|u: int|
                        s <= u < k + 1 && key2 == key_of(#[trigger] crossing(id, w, u)) {
                        let u = choose|u: int|
                            s <= u < k + 1 && key2 == key_of(#[trigger] crossing(id, w, u));
                        if u < k {
                            assert(old_set.contains(key2));
                        }
                    }
                }
            }
        }
        contents.push(BrGen::Sigma(swap));
        string_pos[swap - 1] = string2_name;
        string_pos[swap] = string1_name;
        proof {
            lemma_walk_push(id, w.take(k as int), swap);
            assert(w.take(k as int).push(swap) =~= w.take(k + 1));
            assert(string_pos@ =~= cross(walk(id, w.take(k as int)), swap as int));
            lemma_walk_arrangement(id, w.take(k + 1));
            assert(contents@ =~= positive_word(w.subrange(s, k + 1)));
        }
        k += 1;
    }
    if contents.len() > 0 {
        proof {
            lemma_piece_simple(n as nat, w, s, len as int);
            let rest = w.skip(s);
            assert(rest =~= w.subrange(s, len as int));
            assert(rest.take(len - s) =~= rest);
            lemma_head_len(n as nat, rest, len - s);
            let tail = rest.skip(len - s);
            assert(tail.len() == 0);
            assert(head_len(n as nat, tail) == 0);
            assert(segmentation(n as nat, tail) =~= Seq::<Seq<usize>>::empty());
            assert(segmentation(n as nat, rest) =~= seq![rest]);
        }
        let ghost old_res = res@;
        let piece = Braid { gens: contents, n };
        proof {
            assert(indices(piece.gens@) =~= w.subrange(s, len as int));
            assert forall|j: int| 0 <= j < piece.gens@.len() implies 1 <= (
            #[trigger] piece.gens@[j]).index() < n by {
                assert(piece.gens@[j].index() == w[s + j]);
            }
        }
        res.push(piece);
        proof {
            assert(factor_words(res@) =~= factor_words(old_res) + seq![w.subrange(s, len as int)]);
        }
    } else {
        proof {
            assert(w.skip(s) =~= Seq::<usize>::empty());
            assert(factor_words(res@) + Seq::<Seq<usize>>::empty() =~= factor_words(res@));
        }
    }
    proof {
        crate::braid::crossings::lemma_segmentation(n as nat, w);
        crate::braid::crossings::lemma_segmentation_joins(n as nat, w);
    }
    Ok(res)
}

} // verus!
