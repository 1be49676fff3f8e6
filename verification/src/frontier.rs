//! Best-first search frontier: a min-priority structure over plain integer
//! triples `(bound, id, level)`, backed by `min_max_heap::MinMaxHeap` behind
//! trusted wrappers. Triples compare lexicographically, so among equal
//! bounds the entry pushed earliest (smallest id) leaves first: a fixed,
//! deterministic tie-break.

use vstd::prelude::*;
use vstd::multiset::Multiset;
use min_max_heap::MinMaxHeap;

verus! {

#[verifier::external_type_specification]
#[verifier::external_body]
#[verifier::reject_recursive_types(T)]
pub struct ExMinMaxHeap<T>(MinMaxHeap<T>);

/// The multiset of triples a frontier heap currently holds.
pub uninterp spec fn heap_elems(h: MinMaxHeap<(u64, u64, u64)>) -> Multiset<(u64, u64, u64)>;

/// Lexicographic order on triples, as std documents `Ord` for tuples.
pub open spec fn entry_le(a: (u64, u64, u64), b: (u64, u64, u64)) -> bool {
    a.0 < b.0 || (a.0 == b.0 && (a.1 < b.1 || (a.1 == b.1 && a.2 <= b.2)))
}

/// Relies on `MinMaxHeap::new`: the fresh heap holds nothing.
#[verifier::external_body]
pub(crate) fn heap_new() -> (h: MinMaxHeap<(u64, u64, u64)>)
    ensures
        heap_elems(h) == Multiset::<(u64, u64, u64)>::empty(),
{
    MinMaxHeap::new()
}

/// Relies on `MinMaxHeap::push`: the element joins the heap's contents and
/// nothing else changes.
#[verifier::external_body]
pub(crate) fn heap_push(h: &mut MinMaxHeap<(u64, u64, u64)>, x: (u64, u64, u64))
    ensures
        heap_elems(*final(h)) == heap_elems(*old(h)).insert(x),
{
    h.push(x)
}

/// Relies on `MinMaxHeap::pop_min`: removes and returns a minimum element
/// under the tuples' lexicographic order, or `None` exactly when the heap
/// is empty.
#[verifier::external_body]
pub(crate) fn heap_pop_min(h: &mut MinMaxHeap<(u64, u64, u64)>) -> (r: Option<(u64, u64, u64)>)
    ensures
        r is None ==> heap_elems(*old(h)).len() == 0 && heap_elems(*final(h)) == heap_elems(
            *old(h),
        ),
        r matches Some(x) ==> heap_elems(*old(h)).count(x) > 0 && heap_elems(*final(h))
            == heap_elems(*old(h)).remove(x) && (forall|y: (u64, u64, u64)|
            #[trigger] heap_elems(*old(h)).count(y) > 0 ==> entry_le(x, y)),
        heap_elems(*old(h)).len() > 0 ==> r is Some,
{
    h.pop_min()
}

} // verus!
