//! How priorities compare.

use std::cmp::Ordering;
use vstd::prelude::*;
use vstd::std_specs::cmp::PartialOrdSpec;

verus! {

/// The priority `a` is higher than `b`.
pub open spec fn is_higher<T: PartialOrd>(a: T, b: T) -> bool {
    a.partial_cmp_spec(&b) == Some(Ordering::Greater)
}

/// `>` tells which priority is higher.
pub open spec fn are_comparable<T: PartialOrd>() -> bool {
    T::obeys_partial_cmp_spec()
}

/// No priority is higher than itself, what is higher than a higher priority is higher, and `>`
/// tells which is higher.
pub open spec fn are_ordered<T: PartialOrd>() -> bool {
    &&& T::obeys_partial_cmp_spec()
    &&& forall|a: T| !#[trigger] is_higher(a, a)
    &&& forall|a: T, b: T, c: T| #[trigger]
        is_higher(a, b) && #[trigger] is_higher(b, c) ==> is_higher(a, c)
}

/// Pairs of numbers are ordered: the first numbers decide, and where they are equal, the second.
pub proof fn pairs_are_ordered()
    ensures
        are_ordered::<(u32, usize)>(),
        forall|a: (u32, usize), b: (u32, usize)| #[trigger]
            is_higher(a, b) <==> a.0 > b.0 || a.0 == b.0 && a.1 > b.1,
{
}

} // verus!
