//! Sets of versions.

use vstd::prelude::*;

use crate::version::Version;

verus! {

/// A set of versions, closed under the Boolean operations.
///
/// Inclusion and disjointness are those of the sets of versions themselves.
pub trait VersionSet: Sized {
    /// The versions that the sets range over.
    type V: Version;

    /// The versions in the set.
    open spec fn view(&self) -> Set<Self::V> {
        arbitrary()
    }

    /// The set without any version.
    fn empty() -> (r: Self)
        ensures
            r@ == Set::<Self::V>::empty(),
    ;

    /// The set of all versions.
    fn full() -> (r: Self)
        ensures
            r@ == Set::<Self::V>::full(),
    ;

    /// The set of one version.
    fn singleton(v: Self::V) -> (r: Self)
        ensures
            r@ == Set::empty().insert(v),
    ;

    /// The versions outside the set.
    fn complement(&self) -> (r: Self)
        ensures
            r@ == self@.complement(),
    ;

    /// The versions in both sets.
    fn intersection(&self, other: &Self) -> (r: Self)
        ensures
            r@ == self@.intersect(other@),
    ;

    /// The versions in at least one of the sets.
    fn union(&self, other: &Self) -> (r: Self)
        ensures
            r@ == self@.union(other@),
    ;

    /// Whether the version is in the set.
    fn contains(&self, v: &Self::V) -> (r: bool)
        ensures
            r == self@.contains(*v),
    ;

    /// Whether no version is in both sets.
    fn is_disjoint(&self, other: &Self) -> (r: bool)
        ensures
            r == self@.disjoint(other@),
    ;

    /// Whether every version of this set is in the other one.
    fn subset_of(&self, other: &Self) -> (r: bool)
        ensures
            r == self@.subset_of(other@),
    ;

    /// A set of the same versions.
    fn duplicate(&self) -> (r: Self)
        ensures
            r@ == self@,
    ;
}

} // verus!
