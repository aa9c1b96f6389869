//! A thin trusted layer over `indexmap::IndexSet`, the order-preserving set
//! that holds the board's legal actions. The set's contents are modelled as
//! the sequence of its elements in storage order, named by
//! [`index_set_elems`]; `indexmap` maintains that the elements of a set are
//! pairwise distinct, which each wrapper states of its result.
use vstd::prelude::*;

use crate::board::Action;

verus! {

#[verifier::external_type_specification]
#[verifier::external_body]
#[verifier::reject_recursive_types(T)]
#[verifier::reject_recursive_types(S)]
pub struct ExIndexSet<T, S>(indexmap::IndexSet<T, S>);

/// The elements of the set, in storage order (insertion order, until a
/// swap-removal perturbs it).
pub uninterp spec fn index_set_elems(s: &indexmap::IndexSet<Action>) -> Seq<Action>;

/// Whether the elements of `s` are pairwise distinct. `indexmap` maintains
/// this of every set.
pub open spec fn distinct_elems(s: Seq<Action>) -> bool {
    forall|i: int, j: int| 0 <= i < j < s.len() ==> s[i] != s[j]
}

/// The sequence `s` with the element at `i` removed by swapping the last
/// element into its place: how `IndexSet::swap_remove` reorders storage.
pub open spec fn swap_removed(s: Seq<Action>, i: int) -> Seq<Action> {
    s.update(i, s.last()).drop_last()
}

/// Swap-removal of one position from a duplicate-free sequence removes
/// exactly that element: the result is one shorter, still duplicate-free,
/// and contains precisely the other elements.
pub proof fn lemma_swap_removed_props(s: Seq<Action>, i: int)
    requires
        distinct_elems(s),
        0 <= i < s.len(),
    ensures
        swap_removed(s, i).len() == s.len() - 1,
        distinct_elems(swap_removed(s, i)),
        forall|x: Action| #[trigger]
            swap_removed(s, i).contains(x) <==> (s.contains(x) && x != s[i]),
{
    let t = swap_removed(s, i);
    assert forall|x: Action| #[trigger] t.contains(x) <==> (s.contains(x) && x != s[i]) by {
        if t.contains(x) {
            let j = choose|j: int| 0 <= j < t.len() && t[j] == x;
            if j == i {
                assert(s[s.len() - 1] == x);
            } else {
                assert(s[j] == x);
            }
        }
        if s.contains(x) && x != s[i] {
            let j = choose|j: int| 0 <= j < s.len() && s[j] == x;
            if j == s.len() - 1 {
                if i < s.len() - 1 {
                    assert(t[i] == x);
                }
            } else {
                assert(t[j] == x);
            }
        }
    }
}

/// Relies on `IndexSet::with_capacity`: creates an empty set.
#[verifier::external_body]
pub(crate) fn action_set_with_capacity(n: usize) -> (r: indexmap::IndexSet<Action>)
    ensures
        index_set_elems(&r) == Seq::<Action>::empty(),
{
    indexmap::IndexSet::with_capacity(n)
}

/// Relies on `IndexSet::len`: the number of elements.
#[verifier::external_body]
pub(crate) fn action_set_len(s: &indexmap::IndexSet<Action>) -> (r: usize)
    ensures
        r == index_set_elems(s).len(),
{
    s.len()
}

/// Relies on `IndexSet::insert`: appends a new element at the end of the
/// storage order, or leaves the set unchanged if an equal element is
/// already present.
#[verifier::external_body]
pub(crate) fn action_set_insert(s: &mut indexmap::IndexSet<Action>, value: Action) -> (r: bool)
    ensures
        r == !index_set_elems(old(s)).contains(value),
        r ==> index_set_elems(final(s)) == index_set_elems(old(s)).push(value),
        !r ==> index_set_elems(final(s)) == index_set_elems(old(s)),
        distinct_elems(index_set_elems(final(s))),
        distinct_elems(index_set_elems(old(s))),
{
    s.insert(value)
}

/// Relies on `IndexSet::swap_remove`: removes the element equal to `value`,
/// if present, by swapping the last element into its place, and reports
/// whether it was present.
#[verifier::external_body]
pub(crate) fn action_set_swap_remove(s: &mut indexmap::IndexSet<Action>, value: &Action) -> (r: bool)
    ensures
        r == index_set_elems(old(s)).contains(*value),
        !r ==> index_set_elems(final(s)) == index_set_elems(old(s)),
        r ==> exists|i: int|
            0 <= i < index_set_elems(old(s)).len() && index_set_elems(old(s))[i] == *value
                && index_set_elems(final(s)) == swap_removed(index_set_elems(old(s)), i),
        distinct_elems(index_set_elems(final(s))),
        distinct_elems(index_set_elems(old(s))),
{
    s.swap_remove(value)
}

/// Relies on `IndexSet::get_index`: the element at a storage position,
/// or `None` past the end.
#[verifier::external_body]
pub(crate) fn action_set_get_index(s: &indexmap::IndexSet<Action>, index: usize) -> (r: Option<Action>)
    ensures
        match r {
            Some(a) => index < index_set_elems(s).len() && a == index_set_elems(s)[index as int],
            None => index >= index_set_elems(s).len(),
        },
{
    s.get_index(index).copied()
}

/// Relies on `IndexSet::clear`: removes every element.
#[verifier::external_body]
pub(crate) fn action_set_clear(s: &mut indexmap::IndexSet<Action>)
    ensures
        index_set_elems(final(s)) == Seq::<Action>::empty(),
{
    s.clear()
}

/// Relies on `IndexSet::clone`: an equal set with the same storage order.
#[verifier::external_body]
pub(crate) fn action_set_clone(s: &indexmap::IndexSet<Action>) -> (r: indexmap::IndexSet<Action>)
    ensures
        index_set_elems(&r) == index_set_elems(s),
        distinct_elems(index_set_elems(&r)),
{
    s.clone()
}

/// Relies on `IndexSet::iter`: the elements in storage order.
#[verifier::external_body]
pub(crate) fn action_set_to_vec(s: &indexmap::IndexSet<Action>) -> (r: Vec<Action>)
    ensures
        r@ == index_set_elems(s),
        distinct_elems(r@),
{
    s.iter().copied().collect()
}

} // verus!
