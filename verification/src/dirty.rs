//! Trusted view of the insertion-ordered set that backs each client's
//! dirty-set.
//!
//! `indexmap::IndexSet` keeps its elements in insertion order and never
//! holds an element twice. Each operation the registry uses is wrapped here
//! with a contract over the set's contents, stated as the sequence of
//! elements in iteration order.

use vstd::prelude::*;

verus! {

/// Declares the outside type indexmap::IndexSet so that it can stand in
/// fields and signatures; its contents are visible only through the name
/// below.
#[verifier::external_type_specification]
#[verifier::external_body]
#[verifier::reject_recursive_types(T)]
#[verifier::reject_recursive_types(S)]
pub struct ExIndexSet<T, S>(indexmap::IndexSet<T, S>);

/// What a dirty-set holds: its elements in iteration order. A set never
/// holds an element twice, so the sequence has no duplicates.
pub uninterp spec fn dirty_order(s: indexmap::IndexSet<usize>) -> Seq<usize>;

/// Relies on indexmap::IndexSet::new: the new set is empty.
#[verifier::external_body]
pub(crate) fn dirty_new() -> (r: indexmap::IndexSet<usize>)
    ensures
        dirty_order(r) == Seq::<usize>::empty(),
{
    indexmap::IndexSet::new()
}

/// Relies on indexmap::IndexSet::insert: a new element is appended at the
/// end; an element already present leaves the set unchanged.
#[verifier::external_body]
pub(crate) fn dirty_insert(s: &mut indexmap::IndexSet<usize>, v: usize) -> (added: bool)
    ensures
        added <==> !dirty_order(*old(s)).contains(v),
        added ==> dirty_order(*final(s)) == dirty_order(*old(s)).push(v),
        !added ==> dirty_order(*final(s)) == dirty_order(*old(s)),
        dirty_order(*old(s)).no_duplicates() ==> dirty_order(*final(s)).no_duplicates(),
{
    s.insert(v)
}

/// Relies on indexmap::IndexSet::swap_remove: a present element is removed
/// by swapping the last element into its place and popping; an absent
/// element leaves the set unchanged.
#[verifier::external_body]
pub(crate) fn dirty_swap_remove(s: &mut indexmap::IndexSet<usize>, v: usize) -> (removed: bool)
    ensures
        removed <==> dirty_order(*old(s)).contains(v),
        !removed ==> dirty_order(*final(s)) == dirty_order(*old(s)),
        removed ==> exists|i: int|
            0 <= i < dirty_order(*old(s)).len() && dirty_order(*old(s))[i] == v && dirty_order(
                *final(s),
            ) == dirty_order(*old(s)).update(i, dirty_order(*old(s)).last()).drop_last(),
{
    s.swap_remove(&v)
}

/// Relies on indexmap::IndexSet::drain: yields all elements in iteration
/// order and leaves the set empty.
#[verifier::external_body]
pub(crate) fn dirty_drain(s: &mut indexmap::IndexSet<usize>) -> (r: Vec<usize>)
    ensures
        r@ == dirty_order(*old(s)),
        dirty_order(*final(s)) == Seq::<usize>::empty(),
{
    s.drain(..).collect()
}

} // verus!
