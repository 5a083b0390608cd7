//! How a resolution can fail.

use std::sync::Arc;

use vstd::prelude::*;

use crate::problem;
use crate::problem::{Key, VersionOf};
use crate::provider::DependencyProvider;
use crate::report::DerivationTree;
use crate::search::Clause;
use crate::version_set::VersionSet;

verus! {

/// Errors that may occur while solving dependencies.
#[derive(Debug)]
pub enum PubGrubError<DP: DependencyProvider> {
    /// There is no solution for this set of dependencies.
    NoSolution(Arc<DerivationTree<DP::P, DP::VS, DP::M>>),
    /// The dependency provider returned an error when asked for the dependencies or the
    /// incompatibilities of a package version.
    ErrorRetrievingDependencies {
        /// Package whose dependencies we want.
        package: DP::P,
        /// Version of the package for which we want the dependencies.
        version: <DP::VS as VersionSet>::V,
        /// Error raised by the provider.
        source: DP::Err,
    },
    /// The dependency provider returned an error when asked to choose a version.
    ErrorChoosingVersion {
        /// Package for which a version was to be chosen.
        package: DP::P,
        /// Error raised by the provider.
        source: DP::Err,
    },
    /// The dependency provider asked to cancel the resolution.
    ErrorInShouldCancel(DP::Err),
    /// The caller's version ordering contradicts itself at a selected version.
    InvalidVersionOrdering {
        /// Package whose version was selected.
        package: DP::P,
        /// The selected version.
        version: <DP::VS as VersionSet>::V,
        /// The condition that does not hold.
        reason: &'static str,
    },
}

/// The provider may raise the error when asked for the dependencies or the incompatibilities of the
/// package version.
pub open spec fn fails_to_retrieve<DP: DependencyProvider>(
    dp: DP,
    k: Key<DP>,
    version: VersionOf<DP>,
    source: DP::Err,
) -> bool {
    exists|p: DP::P|
        #![trigger call_ensures(DP::get_dependencies, (&dp, &p, &version), Err(source))]
        #![trigger call_ensures(DP::get_incompatibilities, (&dp, &p, &version), Err(source))]
        p@ == k && {
            ||| call_ensures(DP::get_dependencies, (&dp, &p, &version), Err(source))
            ||| call_ensures(DP::get_incompatibilities, (&dp, &p, &version), Err(source))
        }
}

/// The provider may raise the error when asked to choose a version of the package.
pub open spec fn fails_to_choose<DP: DependencyProvider>(
    dp: DP,
    k: Key<DP>,
    source: DP::Err,
) -> bool {
    exists|p: DP::P, range: DP::VS|
        p@ == k && #[trigger] call_ensures(DP::choose_version, (&dp, &p, &range), Err(source))
}

impl<DP: DependencyProvider> PubGrubError<DP> {
    /// The error is one that the dependency provider raised, about the package and the version that
    /// it names.
    pub open spec fn raised_by(self, dp: DP) -> bool {
        match self {
            PubGrubError::ErrorRetrievingDependencies { package, version, source } => {
                fails_to_retrieve(dp, package@, version, source)
            },
            PubGrubError::ErrorChoosingVersion { package, source } => fails_to_choose(
                dp,
                package@,
                source,
            ),
            PubGrubError::ErrorInShouldCancel(source) => call_ensures(
                DP::should_cancel,
                (&dp,),
                Err(source),
            ),
            _ => false,
        }
    }

    /// The error proves that the problem has no solution that avoids the exclusions: its derivation
    /// tree draws sound conclusions from facts of the problem and from the exclusions, and every
    /// selection of the root package at its version runs into one of them.
    pub open spec fn proves_no_solution(
        self,
        dp: DP,
        root: Key<DP>,
        version: VersionOf<DP>,
        exclusions: Seq<Clause<Key<DP>, VersionOf<DP>>>,
    ) -> bool {
        match self {
            PubGrubError::NoSolution(tree) => {
                &&& tree.rests_on(problem::facts(dp, root, version, exclusions))
                &&& tree.is_sound()
                &&& forall|s: Map<Key<DP>, VersionOf<DP>>|
                    s.get(root) == Some(version) ==> #[trigger] tree.refutes(s)
            },
            _ => false,
        }
    }
}

/// The provider may let the resolution go on.
pub open spec fn may_go_on<DP: DependencyProvider>(dp: DP) -> bool {
    exists|done: ()| #[trigger] call_ensures(DP::should_cancel, (&dp,), Ok(done))
}

/// Unless it was cancelled, the provider has let the resolution go on.
pub open spec fn heeds_cancellation<T, DP: DependencyProvider>(
    dp: DP,
    r: Result<T, PubGrubError<DP>>,
) -> bool {
    !(r is Err && r->Err_0 is ErrorInShouldCancel) ==> may_go_on(dp)
}

/// How an enumeration fails: with a proof that the problem has no solution, or with an error that
/// the provider raised.
pub open spec fn is_failure<DP: DependencyProvider>(
    error: PubGrubError<DP>,
    dp: DP,
    root: Key<DP>,
    version: VersionOf<DP>,
) -> bool {
    &&& {
        ||| error.proves_no_solution(dp, root, version, Seq::empty())
        ||| error.raised_by(dp) && dp.may_fail()
    }
    &&& error is NoSolution ==> !problem::solvable(dp, root, version)
}

/// A proof that there is no solution leaves none.
pub proof fn lemma_proves_no_solution<DP: DependencyProvider>(
    error: PubGrubError<DP>,
    dp: DP,
    root: Key<DP>,
    version: VersionOf<DP>,
    exclusions: Seq<Clause<Key<DP>, VersionOf<DP>>>,
)
    requires
        error.proves_no_solution(dp, root, version, exclusions),
    ensures
        forall|s: Map<Key<DP>, VersionOf<DP>>|
            problem::avoids(exclusions, s) ==> !#[trigger] problem::is_solution(
                dp,
                root,
                version,
                s,
            ),
        exclusions.len() == 0 ==> !problem::solvable(dp, root, version),
{
    match &error {
        PubGrubError::NoSolution(tree) => {
            assert forall|s: Map<Key<DP>, VersionOf<DP>>|
                problem::avoids(exclusions, s) implies !#[trigger] problem::is_solution(
                dp,
                root,
                version,
                s,
            ) by {
                if problem::is_solution(dp, root, version, s) {
                    problem::no_solution_is_refuted(dp, root, version, exclusions, &**tree, s);
                }
            }
            if exclusions.len() == 0 && problem::solvable(dp, root, version) {
                let s = choose|s: Map<Key<DP>, VersionOf<DP>>| #[trigger]
                    problem::is_solution(dp, root, version, s);
                assert(problem::avoids(exclusions, s));
            }
        },
        _ => {},
    }
}

} // verus!
