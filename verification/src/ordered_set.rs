//! Insertion-ordered sets of strand positions, kept in `indexmap::IndexSet`.
//!
//! Verus does not look inside an `IndexSet`. What this module says of it is
//! taken from the `indexmap` documentation and is believed, not proved.

use vstd::prelude::*;
use indexmap::IndexSet;

verus! {

/// `indexmap::IndexSet`, taken as a type of which nothing is known but what
/// the functions below say.
#[verifier::external_type_specification]
#[verifier::external_body]
#[verifier::reject_recursive_types(T)]
#[verifier::reject_recursive_types(S)]
pub struct ExIndexSet<T, S>(IndexSet<T, S>);

/// The items of the set in the order in which it hands them out, which is
/// the order in which they were first inserted.
pub uninterp spec fn set_items(s: IndexSet<usize>) -> Seq<usize>;

/// Every item of `inner` is an item of `outer`.
pub open spec fn covers(outer: Seq<usize>, inner: Seq<usize>) -> bool {
    forall|k: int| 0 <= k < inner.len() ==> outer.contains(#[trigger] inner[k])
}

/// The first item of `s` that is no item of `f`, if there is one.
pub open spec fn first_outside(s: Seq<usize>, f: Seq<usize>) -> Option<usize>
    decreases s.len(),
{
    if s.len() == 0 {
        None
    } else if !f.contains(s[0]) {
        Some(s[0])
    } else {
        first_outside(s.skip(1), f)
    }
}

/// `IndexSet::new`: a set without items.
#[verifier::external_body]
pub(crate) fn set_new() -> (s: IndexSet<usize>)
    ensures
        set_items(s) == Seq::<usize>::empty(),
{
    IndexSet::new()
}

/// `IndexSet::insert`: an item that the set does not hold goes to the end
/// and `true` comes back; one that it holds changes nothing and `false`
/// comes back.
#[verifier::external_body]
pub(crate) fn set_insert(s: &mut IndexSet<usize>, value: usize) -> (fresh: bool)
    ensures
        fresh == !set_items(*old(s)).contains(value),
        fresh ==> set_items(*final(s)) == set_items(*old(s)).push(value),
        !fresh ==> set_items(*final(s)) == set_items(*old(s)),
{
    s.insert(value)
}

/// `IndexSet::is_superset`: whether every item of `inner` is in `outer`.
#[verifier::external_body]
pub(crate) fn set_is_superset(outer: &IndexSet<usize>, inner: &IndexSet<usize>) -> (yes: bool)
    ensures
        yes == covers(set_items(*outer), set_items(*inner)),
{
    outer.is_superset(inner)
}

/// `IndexSet::difference`, first item: the items of `s` that are not in `f`
/// come in the order of `s`; this hands out the first of them.
#[verifier::external_body]
pub(crate) fn set_first_difference(s: &IndexSet<usize>, f: &IndexSet<usize>) -> (first: Option<
    usize,
>)
    ensures
        first == first_outside(set_items(*s), set_items(*f)),
{
    s.difference(f).next().copied()
}

/// When `outer` does not cover `inner`, the first item outside is an item of
/// `inner` that `outer` lacks.
pub proof fn lemma_first_outside(s: Seq<usize>, f: Seq<usize>)
    ensures
        covers(f, s) <==> first_outside(s, f) is None,
        first_outside(s, f) matches Some(x) ==> s.contains(x) && !f.contains(x),
    decreases s.len(),
{
    if s.len() > 0 {
        let rest = s.skip(1);
        lemma_first_outside(rest, f);
        if f.contains(s[0]) {
            if covers(f, rest) {
                assert forall|k: int| 0 <= k < s.len() implies f.contains(#[trigger] s[k]) by {
                    if k > 0 {
                        assert(s[k] == rest[k - 1]);
                    }
                }
            } else {
                let k = choose|k: int| 0 <= k < rest.len() && !f.contains(#[trigger] rest[k]);
                assert(s[k + 1] == rest[k]);
            }
            if let Some(x) = first_outside(rest, f) {
                let k = choose|k: int| 0 <= k < rest.len() && rest[k] == x;
                assert(s[k + 1] == x);
            }
        } else {
            assert(s[0] == s[0]);
        }
    }
}

} // verus!
