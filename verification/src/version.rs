//! Versions: a totally ordered set of values.

use std::fmt::Debug;

use vstd::prelude::*;

verus! {

/// A version, drawn from a total order.
///
/// Where an implementation does not define the order in a specification, it is the one that
/// [at_most](Version::at_most) computes.
pub trait Version: Clone + Debug + Sized {
    /// The order on versions: this version is at most the other one.
    open spec fn at_most_spec(self, other: Self) -> bool {
        arbitrary()
    }

    /// The order is total.
    proof fn order_is_total(a: Self, b: Self)
        ensures
            a.at_most_spec(b) || b.at_most_spec(a),
    ;

    /// The order is antisymmetric.
    proof fn order_is_antisymmetric(a: Self, b: Self)
        requires
            a.at_most_spec(b),
            b.at_most_spec(a),
        ensures
            a == b,
    ;

    /// The order is transitive.
    proof fn order_is_transitive(a: Self, b: Self, c: Self)
        requires
            a.at_most_spec(b),
            b.at_most_spec(c),
        ensures
            a.at_most_spec(c),
    ;

    /// Whether this version is at most the other one.
    fn at_most(&self, other: &Self) -> (r: bool)
        ensures
            r == self.at_most_spec(*other),
    ;

    /// A copy of this version.
    fn duplicate(&self) -> (r: Self)
        ensures
            r == *self,
    ;

    /// Whether no version lies strictly between the two bounds, where `None` is unbounded.
    fn none_between(lower: Option<&Self>, upper: Option<&Self>) -> (r: bool)
        ensures
            r == !exists|v: Self|
                #![trigger v.at_most_spec(v)]
                v.at_most_spec(v) && (lower matches Some(l) ==> !v.at_most_spec(*l)) && (upper matches Some(u)
                    ==> !u.at_most_spec(v)),
    ;
}

/// Whether two versions are the same.
pub fn same_version<V: Version>(a: &V, b: &V) -> (r: bool)
    ensures
        r == (*a == *b),
{
    proof {
        V::order_is_total(*a, *a);
        if a.at_most_spec(*b) && b.at_most_spec(*a) {
            V::order_is_antisymmetric(*a, *b);
        }
    }
    a.at_most(b) && b.at_most(a)
}

impl Version for u32 {
    open spec fn at_most_spec(self, other: Self) -> bool {
        self <= other
    }

    proof fn order_is_total(a: Self, b: Self) {
    }

    proof fn order_is_antisymmetric(a: Self, b: Self) {
    }

    proof fn order_is_transitive(a: Self, b: Self, c: Self) {
    }

    fn at_most(&self, other: &Self) -> (r: bool) {
        *self <= *other
    }

    fn duplicate(&self) -> (r: Self) {
        *self
    }

    fn none_between(lower: Option<&Self>, upper: Option<&Self>) -> (r: bool) {
        let least: u32 = match lower {
            Some(l) => if *l == u32::MAX {
                return true;
            } else {
                *l + 1
            },
            None => 0,
        };
        let r = match upper {
            Some(u) => *u <= least,
            None => false,
        };
        proof {
            if !r {
                assert(least.at_most_spec(least));
            }
        }
        r
    }
}

} // verus!
