//! Terms: statements about the state of one package.

use vstd::prelude::*;

use crate::package::Package;
use crate::search::Clause;
use crate::version_set::VersionSet;

verus! {

/// The states of a package that is selected at a version in the set; `None` is the absent package.
pub open spec fn selected_in<V>(set: Set<V>) -> Set<Option<V>> {
    Set::new(|state: Option<V>| state is Some && set.contains(state->0))
}

/// The state of a package that is selected at the version.
pub open spec fn only<V>(v: V) -> Set<Option<V>> {
    selected_in(Set::empty().insert(v))
}

/// The clause that the terms make up.
pub open spec fn parts<P: Package, VS: VersionSet>(terms: Seq<(P, Term<VS>)>) -> Clause<
    P::V,
    VS::V,
> {
    Seq::new(terms.len(), |i: int| (terms[i].0@, terms[i].1@))
}

/// A statement about one package, which is either selected at some version or absent.
#[derive(Debug, Clone, PartialEq, Eq)]
pub enum Term<VS> {
    /// The package is selected at a version in the set.
    Positive(VS),
    /// The package is absent, or selected at a version outside the set.
    Negative(VS),
}

impl<VS: VersionSet> Term<VS> {
    /// The package states of which the statement holds; `None` is the absent package.
    pub open spec fn view(self) -> Set<Option<VS::V>> {
        match self {
            Term::Positive(set) => selected_in(set@),
            Term::Negative(set) => selected_in(set@).complement(),
        }
    }

    /// The statement that holds of every package state.
    pub fn any() -> (r: Self)
        ensures
            r@ == Set::<Option<VS::V>>::full(),
    {
        let r = Term::Negative(VS::empty());
        assert(r@ =~= Set::full());
        r
    }

    /// The statement that holds of no package state.
    pub fn empty() -> (r: Self)
        ensures
            r@ == Set::<Option<VS::V>>::empty(),
    {
        let r = Term::Positive(VS::empty());
        assert(r@ =~= Set::empty());
        r
    }

    /// The opposite statement.
    pub fn negate(&self) -> (r: Self)
        ensures
            r@ == self@.complement(),
    {
        let r = match self {
            Term::Positive(set) => Term::Negative(set.duplicate()),
            Term::Negative(set) => Term::Positive(set.duplicate()),
        };
        assert(r@ =~= self@.complement());
        r
    }

    /// Both statements at once.
    pub fn intersection(&self, other: &Self) -> (r: Self)
        ensures
            r@ == self@.intersect(other@),
    {
        let r = match self {
            Term::Positive(a) => match other {
                Term::Positive(b) => Term::Positive(a.intersection(b)),
                Term::Negative(b) => Term::Positive(a.intersection(&b.complement())),
            },
            Term::Negative(a) => match other {
                Term::Positive(b) => Term::Positive(b.intersection(&a.complement())),
                Term::Negative(b) => Term::Negative(a.union(b)),
            },
        };
        assert(r@ =~= self@.intersect(other@));
        r
    }

    /// At least one of the statements.
    pub fn union(&self, other: &Self) -> (r: Self)
        ensures
            r@ == self@.union(other@),
    {
        let r = self.negate().intersection(&other.negate()).negate();
        assert(r@ =~= self@.union(other@));
        r
    }

    /// Whether the statement holds of the package selected at the version.
    pub fn contains(&self, v: &VS::V) -> (r: bool)
        ensures
            r == self@.contains(Some(*v)),
    {
        match self {
            Term::Positive(set) => set.contains(v),
            Term::Negative(set) => !set.contains(v),
        }
    }

    /// Whether every state that this statement holds of is one that the other holds of.
    pub fn subset_of(&self, other: &Self) -> (r: bool)
        ensures
            r == self@.subset_of(other@),
    {
        match self {
            Term::Positive(a) => match other {
                Term::Positive(b) => {
                    let r = a.subset_of(b);
                    proof {
                        if !r {
                            let v = choose|v: VS::V| a@.contains(v) && !b@.contains(v);
                            assert(self@.contains(Some(v)) && !other@.contains(Some(v)));
                        }
                    }
                    r
                },
                Term::Negative(b) => {
                    let r = a.is_disjoint(b);
                    proof {
                        if !r {
                            let v = choose|v: VS::V| a@.contains(v) && b@.contains(v);
                            assert(self@.contains(Some(v)) && !other@.contains(Some(v)));
                        }
                    }
                    r
                },
            },
            Term::Negative(a) => match other {
                Term::Positive(b) => {
                    assert(self@.contains(None) && !other@.contains(None));
                    false
                },
                Term::Negative(b) => {
                    let r = b.subset_of(a);
                    proof {
                        if !r {
                            let v = choose|v: VS::V| b@.contains(v) && !a@.contains(v);
                            assert(self@.contains(Some(v)) && !other@.contains(Some(v)));
                        }
                    }
                    r
                },
            },
        }
    }

    /// Whether no state is one that both statements hold of.
    pub fn is_disjoint(&self, other: &Self) -> (r: bool)
        ensures
            r == self@.disjoint(other@),
    {
        let opposite = other.negate();
        assert(self@.subset_of(opposite@) <==> self@.disjoint(other@)) by {
            if self@.subset_of(opposite@) {
                assert forall|s: Option<VS::V>| #[trigger] self@.contains(s) implies !other@.contains(
                    s,
                ) by {}
            }
        }
        self.subset_of(&opposite)
    }

    /// Whether both statements hold of the same states.
    pub fn same(&self, other: &Self) -> (r: bool)
        ensures
            r == (self@ == other@),
    {
        let r = self.subset_of(other) && other.subset_of(self);
        assert(r ==> self@ =~= other@);
        r
    }

    /// The same statement.
    pub fn duplicate(&self) -> (r: Self)
        ensures
            r@ == self@,
            r is Positive == self is Positive,
    {
        match self {
            Term::Positive(set) => Term::Positive(set.duplicate()),
            Term::Negative(set) => Term::Negative(set.duplicate()),
        }
    }
}

} // verus!
