//! Where packages, versions and dependencies come from.

use vstd::prelude::*;

use crate::package::Package;
use crate::search::Clause;
use crate::statistics::PackageResolutionStatistics;
use crate::term;
use crate::version_set::VersionSet;

verus! {

/// The dependencies of a package with their version ranges.
///
/// There is a difference in semantics between an empty [DependencyConstraints] and
/// [Dependencies::Unavailable]:
/// The former means the package has no dependency and it is a known fact,
/// while the latter means they could not be fetched by the [DependencyProvider].
#[derive(Debug, Clone, PartialEq, Eq)]
pub struct DependencyConstraints<P, VS>(Vec<(P, VS)>);

impl<P, VS> DependencyConstraints<P, VS> {
    /// The dependencies, in order.
    pub closed spec fn view(self) -> Seq<(P, VS)> {
        self.0@
    }

    /// The dependencies in order, each with its version range.
    pub fn iter(&self) -> (r: &[(P, VS)])
        ensures
            r@ == self@,
    {
        self.0.as_slice()
    }

    /// The dependencies in the given order.
    pub fn from_vec(dependencies: Vec<(P, VS)>) -> (r: Self)
        ensures
            r@ == dependencies@,
    {
        DependencyConstraints(dependencies)
    }

    /// The list of the dependencies.
    pub fn into_vec(self) -> (r: Vec<(P, VS)>)
        ensures
            r@ == self@,
    {
        self.0
    }
}

impl<P, VS> Default for DependencyConstraints<P, VS> {
    /// No dependencies.
    fn default() -> (r: Self)
        ensures
            r@ == Seq::<(P, VS)>::empty(),
    {
        DependencyConstraints(Vec::new())
    }
}

/// One term in a provider-supplied incompatibility clause.
///
/// A positive term is true only when the package is selected in the given
/// range. A negative term is also true when the package is not selected.
#[derive(Debug, Clone, PartialEq, Eq)]
pub enum IncompatibilityConstraintTerm<P, VS> {
    /// The package must be selected in the given range for the term to hold.
    Positive(P, VS),
    /// The term holds when the package is absent or outside the given range.
    Negative(P, VS),
}

impl<P: Package, VS: VersionSet> IncompatibilityConstraintTerm<P, VS> {
    /// The package states that the term is about.
    pub open spec fn part(self) -> (P::V, Set<Option<VS::V>>) {
        match self {
            IncompatibilityConstraintTerm::Positive(p, set) => (p@, term::selected_in(set@)),
            IncompatibilityConstraintTerm::Negative(p, set) => (
                p@,
                term::selected_in(set@).complement(),
            ),
        }
    }
}

/// A clause that must not be satisfied together with the package version whose
/// metadata returned it.
#[derive(Debug, Clone, PartialEq, Eq)]
pub struct IncompatibilityConstraint<P, VS, M> {
    /// Additional terms; the declaring package/version is inserted automatically.
    pub terms: Vec<IncompatibilityConstraintTerm<P, VS>>,
    /// Human-readable reason retained in derivation reports.
    pub reason: M,
}

impl<P: Package, VS: VersionSet, M> IncompatibilityConstraint<P, VS, M> {
    /// The package states that the clause is about.
    pub open spec fn clause(self) -> Clause<P::V, VS::V> {
        clause_of(self.terms@)
    }
}

/// The package states that the terms are about.
pub open spec fn clause_of<P: Package, VS: VersionSet>(
    terms: Seq<IncompatibilityConstraintTerm<P, VS>>,
) -> Clause<P::V, VS::V> {
    Seq::new(terms.len(), |i: int| terms[i].part())
}

/// Provider-supplied incompatibility clauses for one package version.
pub type IncompatibilityConstraints<P, VS, M> = Vec<IncompatibilityConstraint<P, VS, M>>;

/// An enum used by [DependencyProvider] that holds information about package dependencies.
/// For each [Package] there is a set of versions allowed as a dependency.
#[derive(Clone)]
pub enum Dependencies<P: Package, VS: VersionSet, M> {
    /// Package dependencies are unavailable with the reason why they are missing.
    Unavailable(M),
    /// Container for all available package versions.
    Available(DependencyConstraints<P, VS>),
}

impl<P: Package, VS: VersionSet, M> Dependencies<P, VS, M> {
    /// The required packages with the versions that they are required at, if available.
    pub open spec fn requirements(self) -> Option<Seq<(P::V, Set<VS::V>)>> {
        match self {
            Dependencies::Unavailable(_) => None,
            Dependencies::Available(constraints) => Some(requirements_of(constraints@)),
        }
    }
}

/// The required packages with the versions that they are required at.
pub open spec fn requirements_of<P: Package, VS: VersionSet>(
    constraints: Seq<(P, VS)>,
) -> Seq<(P::V, Set<VS::V>)> {
    Seq::new(constraints.len(), |i: int| (constraints[i].0@, constraints[i].1@))
}

/// The clauses of the incompatibilities.
pub open spec fn clauses<P: Package, VS: VersionSet, M>(
    constraints: Seq<IncompatibilityConstraint<P, VS, M>>,
) -> Seq<Clause<P::V, VS::V>> {
    Seq::new(constraints.len(), |i: int| constraints[i].clause())
}

/// Trait that allows the algorithm to retrieve available packages and their dependencies.
/// An implementor needs to be supplied to the [resolve](crate::resolve) function.
///
/// What the provider knows does not change while it is in use: it offers certain versions of each
/// package, and each of them has certain dependencies and incompatibilities. Specification
/// functions say so; where an implementation does not define them, they stand for whatever it does.
pub trait DependencyProvider: Sized {
    /// How this provider stores the name of the packages.
    type P: Package;

    /// How this provider stores the version requirements for the packages, and through them how
    /// it stores the versions.
    ///
    /// A common choice is [`Ranges`][crate::Ranges].
    type VS: VersionSet;

    /// The type returned from `prioritize`. The resolver does not care what type this is
    /// as long as it can pick a largest one.
    type Priority: PartialOrd;

    /// Type for custom incompatibilities.
    ///
    /// There are reasons in user code that can cause packages or versions to be unavailable.
    /// Examples:
    /// * The version would require building the package, but builds are disabled.
    /// * The package is not available in the cache, but internet access has been disabled.
    /// * The package uses a legacy format not supported anymore.
    ///
    /// The intended use is to track them in an enum and assign them to this type. You can also
    /// assign [`String`] as placeholder.
    type M;

    /// The kind of error returned from these methods.
    ///
    /// Returning this signals that resolution should fail with this error.
    type Err;

    /// The package is offered at the version.
    open spec fn offers(
        &self,
        package: <Self::P as View>::V,
        version: <Self::VS as VersionSet>::V,
    ) -> bool {
        arbitrary()
    }

    /// What the package version requires, if its dependencies are available.
    open spec fn requirements(
        &self,
        package: <Self::P as View>::V,
        version: <Self::VS as VersionSet>::V,
    ) -> Option<Seq<(<Self::P as View>::V, Set<<Self::VS as VersionSet>::V>)>> {
        arbitrary()
    }

    /// What must not hold together with the package version.
    open spec fn conflicts(
        &self,
        package: <Self::P as View>::V,
        version: <Self::VS as VersionSet>::V,
    ) -> Seq<Clause<<Self::P as View>::V, <Self::VS as VersionSet>::V>> {
        Seq::empty()
    }

    /// The priority of the package in the range, given its four conflict counts.
    open spec fn priority(
        &self,
        package: <Self::P as View>::V,
        range: Set<<Self::VS as VersionSet>::V>,
        counts: (u32, u32, u32, u32),
    ) -> Self::Priority {
        arbitrary()
    }

    /// A method of the provider may return an error.
    open spec fn may_fail(&self) -> bool {
        arbitrary()
    }

    /// The provider offers finitely many package versions.
    proof fn offers_are_finite(&self)
        ensures
            Set::new(
                |pair: (<Self::P as View>::V, <Self::VS as VersionSet>::V)|
                    self.offers(pair.0, pair.1),
            ).finite(),
    ;

    /// Determine the order in which versions are chosen for packages.
    ///
    /// Decisions are always made for the highest priority package first. The order of decisions
    /// determines which solution is chosen and can drastically change the performances of the
    /// solver. If there is a conflict between two package versions, decisions will be backtracked
    /// until the lower priority package version is discarded preserving the higher priority
    /// package. Usually, you want to decide more certain packages (e.g. those with a single version
    /// constraint) and packages with more conflicts first.
    ///
    /// The `package_conflicts_counts` argument provides access to some other heuristics that
    /// production users have found useful. Although the exact meaning/efficacy of those
    /// arguments may change.
    ///
    /// The priority only depends on the arguments.
    ///
    /// If two packages have the same priority, PubGrub will bias toward a breadth first search.
    fn prioritize(
        &self,
        package: &Self::P,
        range: &Self::VS,
        package_conflicts_counts: &PackageResolutionStatistics,
    ) -> (r: Self::Priority)
        ensures
            r == self.priority(package@, range@, package_conflicts_counts.counts()),
    ;

    /// Once the resolver has found the highest `Priority` package from all potential valid
    /// packages, it needs to know what version of that package to use. The most common pattern
    /// is to select the largest version that the range contains.
    fn choose_version(&self, package: &Self::P, range: &Self::VS) -> (r: Result<
        Option<<Self::VS as VersionSet>::V>,
        Self::Err,
    >)
        ensures
            match r {
                Ok(Some(v)) => range@.contains(v) && self.offers(package@, v),
                Ok(None) => forall|v: <Self::VS as VersionSet>::V|
                    #![trigger range@.contains(v)]
                    range@.contains(v) ==> !self.offers(package@, v),
                Err(_) => self.may_fail(),
            },
    ;

    /// Retrieves the package dependencies.
    /// Return [Dependencies::Unavailable] if its dependencies are unavailable.
    fn get_dependencies(
        &self,
        package: &Self::P,
        version: &<Self::VS as VersionSet>::V,
    ) -> (r: Result<Dependencies<Self::P, Self::VS, Self::M>, Self::Err>)
        ensures
            match r {
                Ok(dependencies) => dependencies.requirements() == self.requirements(
                    package@,
                    *version,
                ),
                Err(_) => self.may_fail(),
            },
    ;

    /// Retrieves conditional incompatibilities declared by this package
    /// version. The current package/version is automatically included as a
    /// positive term in every returned clause.
    fn get_incompatibilities(
        &self,
        package: &Self::P,
        version: &<Self::VS as VersionSet>::V,
    ) -> (r: Result<IncompatibilityConstraints<Self::P, Self::VS, Self::M>, Self::Err>)
        ensures
            r is Err ==> self.may_fail(),
        default_ensures
            r matches Ok(constraints) && constraints@.len() == 0,
    {
        Ok(Vec::new())
    }

    /// What the provider declares of a package version is what must not hold together with it.
    proof fn declarations_are_conflicts(
        &self,
        package: &Self::P,
        version: &<Self::VS as VersionSet>::V,
        constraints: IncompatibilityConstraints<Self::P, Self::VS, Self::M>,
    )
        requires
            call_ensures(Self::get_incompatibilities, (self, package, version), Ok(constraints)),
        ensures
            clauses(constraints@) == self.conflicts(package@, *version),
    ;

    /// This is called fairly regularly during the resolution,
    /// if it returns an Err then resolution will be terminated.
    /// This is helpful if you want to add some form of early termination like a timeout,
    /// or you want to add some form of user feedback if things are taking a while.
    /// If not provided the resolver will run as long as needed.
    fn should_cancel(&self) -> (r: Result<(), Self::Err>)
        ensures
            r is Err ==> self.may_fail(),
    {
        Ok(())
    }
}

} // verus!
