//! The entry points: from a provider and a root package to solutions.

use vstd::prelude::*;

use crate::ascent::Quest;
use crate::attempts;
use crate::error;
use crate::error::PubGrubError;
use crate::factored;
use crate::factored::{select_components, split_front};
use crate::finite;
use crate::front;
use crate::front::{enumerate_maximal_preference_satisfactions, required_terms};
use crate::machine;
use crate::maximal;
use crate::maximal::{enumerate_maximal_solutions_with_constraints, projected_packages};
use crate::observer;
use crate::observer::{NoopSolverObserver, Observed, SolverEvent, SolverObserver};
use crate::ordering;
use crate::ordering::{Precedence, VersionOrdering};
use crate::package;
use crate::package::Package;
use crate::path;
use crate::polls;
use crate::preference;
use crate::preference::{
    usable_preferences, FactoredPreferenceSolutions, PackagePreference, PreferenceDecision,
    PreferenceFactor,
};
use crate::problem;
use crate::problem::{Key, Selection, VersionOf};
use crate::promises;
use crate::provider::DependencyProvider;
use crate::run;
use crate::run::SolverState;
use crate::search::Clause;
use crate::selected::{MaximalSolutions, SelectedDependencies};
use crate::term;
use crate::term::Term;
use crate::version_set::VersionSet;

verus! {

/// Finds a set of packages satisfying dependency bounds for a given package + version pair.
///
/// It consists in efficiently finding a set of packages and versions
/// that satisfy all the constraints of a given project dependencies.
/// In addition, when that is not possible,
/// PubGrub tries to provide a very human-readable and clear
/// explanation as to why that failed.
///
/// Is generic over an implementation of [DependencyProvider] which represents where the dependency
/// constraints come from.
/// The associated types on the DependencyProvider allow flexibility for the representation of
/// package names, version requirements, version numbers, and other things.
/// See its documentation for more details.
/// For simple cases [OfflineDependencyProvider](crate::OfflineDependencyProvider) may be sufficient.
///
/// The call to [resolve] for a given package at a given version
/// will compute the set of packages and versions needed
/// to satisfy the dependencies of that package and version pair.
/// If there is no solution, the reason will be provided as clear as possible.
pub fn resolve<DP: DependencyProvider>(
    dependency_provider: &DP,
    package: DP::P,
    version: VersionOf<DP>,
) -> (r: Result<SelectedDependencies<DP::P, VersionOf<DP>>, PubGrubError<DP>>)
    ensures
        resolved(*dependency_provider, package@, version, r),
        exists|told: Seq<Observed<Key<DP>, VersionOf<DP>>>| #[trigger]
            tells_resolution::<DP, NoopSolverObserver<DP::P, DP::VS>>(
                *dependency_provider,
                package@,
                version,
                Seq::empty(),
                told,
                r,
            ),
{
    let ghost root = package@;
    let mut observer = NoopSolverObserver::new();
    let r = resolve_with_observer(dependency_provider, package, version, &mut observer);
    proof {
        let told = observer.told();
        assert(tells_resolution::<DP, NoopSolverObserver<DP::P, DP::VS>>(
            *dependency_provider,
            root,
            version,
            Seq::empty(),
            told,
            r,
        ));
    }
    r
}

/// What a resolution returns: a solution, or a proof that there is none, or an error that the
/// provider raised. Without such errors it finds a solution exactly when there is one. The solution
/// holds what is needed and nothing else, unless an incompatibility asks for one of several
/// packages to be selected.
pub open spec fn resolved<DP: DependencyProvider>(
    dp: DP,
    root: Key<DP>,
    version: VersionOf<DP>,
    r: Result<SelectedDependencies<DP::P, VersionOf<DP>>, PubGrubError<DP>>,
) -> bool {
    let nothing = Seq::<Clause<Key<DP>, VersionOf<DP>>>::empty();
    &&& match r {
        Ok(solution) => {
            &&& problem::is_solution(dp, root, version, solution@)
            &&& problem::asks_for_one(dp) ==> problem::is_minimal(dp, root, version, solution@)
        },
        Err(error) => error.proves_no_solution(dp, root, version, nothing) || (error.raised_by(dp)
            && dp.may_fail()),
    }
    &&& error::heeds_cancellation(dp, r)
    &&& r is Err && r->Err_0 is NoSolution ==> !problem::solvable(dp, root, version)
    &&& !dp.may_fail() ==> (r is Ok <==> problem::solvable(dp, root, version))
}

/// What an observer is told of a resolution: the path of the run, and in the end that there is a
/// solution, if one is found. Every choice of a package is one of highest priority, every choice of a
/// version is what the provider answered, and every cause rests on facts of the problem. Everything
/// that the solution selects was decided, and that decision was not discarded. Whoever is told of
/// everything can tell the solution from the decisions, and was told how a version was ruled out that
/// was not allowed when its package was chosen, unless an incompatibility asks for one of several
/// packages to be selected. It can retrace the steps of the solver: every event is one that can happen
/// after them, and every cause is a single fact or one for which the solver went back before. A cause,
/// or a failure, rests on ranges without a version only where the observer was told of them before.
/// Nothing is told before the provider has let the resolution go on.
pub open spec fn tells_resolution<DP: DependencyProvider, O: SolverObserver<DP::P, DP::VS, DP::M>>(
    dp: DP,
    root: Key<DP>,
    version: VersionOf<DP>,
    before: Seq<Observed<Key<DP>, VersionOf<DP>>>,
    after: Seq<Observed<Key<DP>, VersionOf<DP>>>,
    r: Result<SelectedDependencies<DP::P, VersionOf<DP>>, PubGrubError<DP>>,
) -> bool {
    let nothing = Seq::<(Key<DP>, VersionOf<DP>)>::empty();
    let no_exclusions = Seq::<Clause<Key<DP>, VersionOf<DP>>>::empty();
    &&& after == before || error::may_go_on(dp)
    &&& match r {
        Ok(solution) => {
            let path = after.drop_last();
            &&& run::is_run(
                dp,
                root,
                version,
                machine::at_first(root, version),
                machine::choices_told(before.len() as int, path),
                r,
            )
            &&& after.len() > before.len()
            &&& after.last() == Observed::<Key<DP>, VersionOf<DP>>::Solution
            &&& observer::follows_path::<DP::P, DP::VS, DP::M, O>(before, path)
            &&& exists|chosen: Seq<polls::Choice<DP>>| #[trigger]
                polls::are_fresh_choices(dp, Seq::empty(), chosen, before, path, r)
            &&& exists|polls: Seq<(int, Result<(), DP::Err>)>| #[trigger]
                polls::are_in_time(dp, Seq::empty(), polls, before, path, r)
            &&& exists|last: int| #[trigger]
                observer::count_levels(
                    0,
                    last,
                    before.len() as int,
                    path,
                    observer::always_asks::<DP::P, DP::VS, DP::M, O>(),
                )
            &&& observer::at_rest(before, path)
            &&& problem::are_answers(dp, before, path)
            &&& run::chooses_first::<DP, O>(dp, root, version, before, path)
            &&& observer::causes_rest_on(
                before,
                path,
                problem::facts(dp, root, version, no_exclusions),
            )
            &&& problem::causes_are_told::<DP::P, DP::VS, DP::M>(before, path)
            &&& run::retells::<DP, O>(
                dp,
                root,
                version,
                no_exclusions,
                Seq::empty(),
                before,
                path,
            )
            &&& observer::always_asks::<DP::P, DP::VS, DP::M, O>() ==> observer::causes_are_sourced(
                before,
                path,
                problem::facts(dp, root, version, no_exclusions),
            )
            &&& forall|k: Key<DP>| #[trigger]
                solution@.dom().contains(k) ==> observer::is_committed(
                    before,
                    path,
                    k,
                    solution@[k],
                )
            &&& observer::always_asks::<DP::P, DP::VS, DP::M, O>() && observer::levels_fit(
                before.len() as int,
                path,
            ) ==> run::is_left(nothing, before, path, solution@)
            &&& observer::always_asks::<DP::P, DP::VS, DP::M, O>() && problem::asks_for_one(dp)
                ==> observer::explains_choices(before.len() as int, path)
        },
        Err(error) => {
            &&& run::is_run(
                dp,
                root,
                version,
                machine::at_first(root, version),
                machine::choices_told(before.len() as int, after),
                r,
            )
            &&& observer::follows_path::<DP::P, DP::VS, DP::M, O>(before, after)
            &&& exists|chosen: Seq<polls::Choice<DP>>| #[trigger]
                polls::are_fresh_choices(dp, Seq::empty(), chosen, before, after, r)
            &&& exists|polls: Seq<(int, Result<(), DP::Err>)>| #[trigger]
                polls::are_in_time(dp, Seq::empty(), polls, before, after, r)
            &&& exists|last: int| #[trigger]
                observer::count_levels(
                    0,
                    last,
                    before.len() as int,
                    after,
                    observer::always_asks::<DP::P, DP::VS, DP::M, O>(),
                )
            &&& problem::are_answers(dp, before, after)
            &&& run::chooses_first::<DP, O>(dp, root, version, before, after)
            &&& observer::causes_rest_on(
                before,
                after,
                problem::facts(dp, root, version, no_exclusions),
            )
            &&& problem::causes_are_told::<DP::P, DP::VS, DP::M>(before, after)
            &&& run::retells::<DP, O>(
                dp,
                root,
                version,
                no_exclusions,
                Seq::empty(),
                before,
                after,
            )
            &&& observer::always_asks::<DP::P, DP::VS, DP::M, O>() ==> observer::causes_are_sourced(
                before,
                after,
                problem::facts(dp, root, version, no_exclusions),
            )
            &&& error is NoSolution ==> error->NoSolution_0.rests_on(
                problem::told_facts(before, after),
            )
            &&& observer::always_asks::<DP::P, DP::VS, DP::M, O>() && problem::asks_for_one(dp)
                ==> observer::explains_choices(before.len() as int, after)
        },
    }
}

/// Finds a set of packages satisfying dependency bounds and reports the path taken by the solver.
///
/// Unlike the derivation tree returned for an unsatisfiable resolution, observer events describe
/// one concrete solver run. In particular, they can explain when a version was excluded by
/// propagation or discarded by backtracking even if a different solver path could select it.
pub fn resolve_with_observer<DP: DependencyProvider, O: SolverObserver<DP::P, DP::VS, DP::M>>(
    dependency_provider: &DP,
    package: DP::P,
    version: VersionOf<DP>,
    observer: &mut O,
) -> (r: Result<SelectedDependencies<DP::P, VersionOf<DP>>, PubGrubError<DP>>)
    ensures
        resolved(*dependency_provider, package@, version, r),
        tells_resolution::<DP, O>(
            *dependency_provider,
            package@,
            version,
            old(observer).log(),
            final(observer).log(),
            r,
        ),
{
    let ghost root = package@;
    let ghost nothing = Seq::<Clause<Key<DP>, VersionOf<DP>>>::empty();
    let ghost log = observer.log();
    let ghost no_decisions = Seq::<(Key<DP>, VersionOf<DP>)>::empty();
    let mut solver = SolverState::new(package, version);
    let ghost start = solver;
    assert(start.polls() =~= Seq::empty());
    assert(start.choices() =~= Seq::empty());
    assert(solver.agrees(*dependency_provider));
    assert(start.is_new(root, version));
    reveal(run::is_explained);
    reveal(run::is_retraceable);
    match solver.run_until_solution(dependency_provider, observer) {
        Ok(solution) => {
            let ghost told = observer.log();
            observer.on_event(SolverEvent::Solution);
            proof {
                assert(observer.log().drop_last() =~= told);
                assert forall|k: Key<DP>| #[trigger]
                    solution@.dom().contains(k) implies observer::is_committed(
                    log,
                    told,
                    k,
                    solution@[k],
                ) by {
                    assert(!no_decisions.contains((k, solution@[k])));
                }
                assert(problem::is_solution(*dependency_provider, root, version, solution@));
            }
            Ok(solution)
        },
        Err(error) => {
            proof {
                if error.proves_no_solution(*dependency_provider, root, version, nothing) {
                    error::lemma_proves_no_solution(
                        error,
                        *dependency_provider,
                        root,
                        version,
                        nothing,
                    );
                    assert(!problem::solvable(*dependency_provider, root, version)) by {
                        if problem::solvable(*dependency_provider, root, version) {
                            let s = choose|s: Selection<DP>| #[trigger]
                                problem::is_solution(*dependency_provider, root, version, s);
                            assert(problem::avoids(nothing, s));
                        }
                    }
                }
            }
            Err(error)
        },
    }
}

/// What an enumeration of maximal solutions returns: solutions that nothing dominates and that
/// speak for all solutions which meet the demands; or a proof that there is none; or a flaw of the
/// ordering; or an error that the provider raised.
pub open spec fn maximized<DP: DependencyProvider>(
    dp: DP,
    root: Key<DP>,
    version: VersionOf<DP>,
    demands: Clause<Key<DP>, VersionOf<DP>>,
    o: Precedence<VersionOf<DP>>,
    projection: Seq<Key<DP>>,
    r: Result<MaximalSolutions<DP::P, VersionOf<DP>>, PubGrubError<DP>>,
) -> bool {
    &&& match r {
        Ok(solutions) => maximal::is_maximal_set(
            dp,
            root,
            version,
            demands,
            o,
            projection,
            maximal::selections(solutions@),
        ),
        Err(error) => {
            ||| error.proves_no_solution(
                dp,
                root,
                version,
                run::forced_clauses(root, version, demands),
            )
            ||| maximal::finds_flaw(dp, root, version, demands, o, projection, error)
            ||| error.raised_by(dp) && dp.may_fail()
        },
    }
    &&& error::heeds_cancellation(dp, r)
}

/// Finds the complete Pareto front of the selected package versions.
///
/// `same_version` maps a selected provider version to representations that are the same selectable
/// realization. `same_precedence` maps it to every representation with the same ordering rank, and
/// `strictly_higher` maps it to the set of versions that count as an upgrade. A realization is
/// retained when its rank vector is Pareto-maximal; distinct `same_version` classes at the same
/// maximal rank are all returned. Packages outside the projection may change and do not make two
/// projected solutions distinct.
///
/// For every selected version, both equivalence sets must contain that version, `same_version` must
/// be a subset of `same_precedence`, and `same_precedence` must be disjoint from
/// `strictly_higher`. The solver validates these conditions so an invalid ordering cannot make
/// enumeration repeat a solution forever.
///
/// Each retained point excludes the complete region it dominates, rather than only its exact
/// projection. Enumeration is therefore driven by the size and shape of the Pareto and co-Pareto
/// fronts instead of visiting the Cartesian product of independent dominated choices. The
/// dependency provider's [`should_cancel`](DependencyProvider::should_cancel) hook remains active
/// throughout both enumeration and maximality checks.
pub fn resolve_maximal_solutions<
    DP: DependencyProvider,
    E: Fn(&VersionOf<DP>) -> DP::VS,
    R: Fn(&VersionOf<DP>) -> DP::VS,
    F: Fn(&VersionOf<DP>) -> DP::VS,
>(
    dependency_provider: &DP,
    package: DP::P,
    version: VersionOf<DP>,
    maximized_packages: Vec<DP::P>,
    version_ordering: VersionOrdering<E, R, F>,
) -> (r: Result<MaximalSolutions<DP::P, VersionOf<DP>>, PubGrubError<DP>>)
    requires
        ordering::is_ordering::<DP::VS, E, R, F>(version_ordering),
        ordering::precedence::<DP::VS, E, R, F>(version_ordering).is_ranked(
            finite::offered_versions(*dependency_provider),
        ),
    ensures
        maximized(
            *dependency_provider,
            package@,
            version,
            Seq::empty(),
            ordering::precedence::<DP::VS, E, R, F>(version_ordering),
            maximal::projection_of(package@, package::keys(maximized_packages@)),
            r,
        ),
        exists|told: Seq<Observed<Key<DP>, VersionOf<DP>>>| #[trigger]
            maximal::tells_enumeration::<DP, NoopSolverObserver<DP::P, DP::VS>>(
                *dependency_provider,
                package@,
                version,
                maximal::projection_of(package@, package::keys(maximized_packages@)),
                Seq::empty(),
                told,
                r,
            ) && maximal::is_enumeration(
                Quest {
                    dp: *dependency_provider,
                    root: package@,
                    version,
                    demands: Seq::empty(),
                    o: ordering::precedence::<DP::VS, E, R, F>(version_ordering),
                    projection: maximal::projection_of(package@, package::keys(maximized_packages@)),
                },
                machine::choices_told(0, told),
                r,
            ),
{
    let ghost root = package@;
    let mut observer = NoopSolverObserver::new();
    let r = resolve_maximal_solutions_with_observer(
        dependency_provider,
        package,
        version,
        maximized_packages,
        version_ordering,
        &mut observer,
    );
    proof {
        let told = observer.told();
        assert(maximal::tells_enumeration::<DP, NoopSolverObserver<DP::P, DP::VS>>(
            *dependency_provider,
            root,
            version,
            maximal::projection_of(root, package::keys(maximized_packages@)),
            Seq::empty(),
            told,
            r,
        ));
    }
    r
}

/// Finds the complete Pareto front and reports each retained solution's actual solver path.
///
/// [`SolverEvent::Solution`] is emitted once for every returned solution. Intermediate events
/// between two solution events belong to the continued enumeration path. A successful maximality
/// probe becomes the path of the improved candidate; a failed probe does not. Probe boundaries and
/// outcomes let stateful observers commit or roll back the enclosed events accordingly.
pub fn resolve_maximal_solutions_with_observer<
    DP: DependencyProvider,
    E: Fn(&VersionOf<DP>) -> DP::VS,
    R: Fn(&VersionOf<DP>) -> DP::VS,
    F: Fn(&VersionOf<DP>) -> DP::VS,
    O: SolverObserver<DP::P, DP::VS, DP::M>,
>(
    dependency_provider: &DP,
    package: DP::P,
    version: VersionOf<DP>,
    maximized_packages: Vec<DP::P>,
    version_ordering: VersionOrdering<E, R, F>,
    observer: &mut O,
) -> (r: Result<MaximalSolutions<DP::P, VersionOf<DP>>, PubGrubError<DP>>)
    requires
        ordering::is_ordering::<DP::VS, E, R, F>(version_ordering),
        ordering::precedence::<DP::VS, E, R, F>(version_ordering).is_ranked(
            finite::offered_versions(*dependency_provider),
        ),
    ensures
        maximized(
            *dependency_provider,
            package@,
            version,
            Seq::empty(),
            ordering::precedence::<DP::VS, E, R, F>(version_ordering),
            maximal::projection_of(package@, package::keys(maximized_packages@)),
            r,
        ),
        maximal::is_enumeration(
            Quest {
                dp: *dependency_provider,
                root: package@,
                version,
                demands: Seq::empty(),
                o: ordering::precedence::<DP::VS, E, R, F>(version_ordering),
                projection: maximal::projection_of(package@, package::keys(maximized_packages@)),
            },
            machine::choices_told(old(observer).log().len() as int, final(observer).log()),
            r,
        ),
        maximal::tells_enumeration::<DP, O>(
            *dependency_provider,
            package@,
            version,
            maximal::projection_of(package@, package::keys(maximized_packages@)),
            old(observer).log(),
            final(observer).log(),
            r,
        ),
{
    let projection = projected_packages(&package, maximized_packages);
    let nothing: Vec<(DP::P, Term<DP::VS>)> = Vec::new();
    assert(term::parts(nothing@) =~= Seq::empty());
    enumerate_maximal_solutions_with_constraints(
        dependency_provider,
        &package,
        &version,
        &projection,
        &version_ordering,
        &nothing,
        observer,
    )
}

/// The decisions about packages other than the root.
pub open spec fn foreign<P: Package, VS: VersionSet>(
    root: P::V,
    decisions: Seq<PreferenceDecision<P, VS>>,
) -> Seq<PreferenceDecision<P, VS>> {
    decisions.filter(|decision: PreferenceDecision<P, VS>| decision.key() != root)
}

/// The terms that the decisions about packages other than the root demand.
fn decision_terms<P: Package, VS: VersionSet>(
    root: &P,
    decisions: &Vec<PreferenceDecision<P, VS>>,
) -> (r: Vec<(P, Term<VS>)>)
    ensures
        term::parts(r@) == preference::demands(foreign(root@, decisions@)),
{
    let ghost all = decisions@;
    let ghost keep = |decision: PreferenceDecision<P, VS>| decision.key() != root@;
    let mut terms: Vec<(P, Term<VS>)> = Vec::new();
    let mut i: usize = 0;
    proof {
        reveal(Seq::filter);
        assert(all.take(0).filter(keep) =~= Seq::empty());
        assert(term::parts(terms@) =~= preference::demands(all.take(0).filter(keep)));
    }
    while i < decisions.len()
        invariant
            all == decisions@,
            keep == (|decision: PreferenceDecision<P, VS>| decision.key() != root@),
            i <= decisions@.len(),
            term::parts(terms@) == preference::demands(all.take(i as int).filter(keep)),
        decreases decisions@.len() - i,
    {
        let ghost before = term::parts(terms@);
        let ghost kept = all.take(i as int).filter(keep);
        let preference = decisions[i].preference();
        if !preference.package().same(root) {
            let term = if decisions[i].is_satisfied() {
                preference.preferred().duplicate()
            } else {
                preference.preferred().negate()
            };
            terms.push((preference.package().duplicate(), term));
        }
        proof {
            reveal(Seq::filter);
            assert(all.take(i + 1).drop_last() =~= all.take(i as int));
            assert(all.take(i + 1).last() == all[i as int]);
            let after = all.take(i + 1).filter(keep);
            if keep(all[i as int]) {
                assert(after =~= kept.push(all[i as int]));
                assert(term::parts(terms@) =~= before.push(all[i as int].part()));
                assert(preference::demands(after) =~= preference::demands(kept).push(
                    all[i as int].part(),
                ));
            } else {
                assert(after =~= kept);
            }
        }
        i += 1;
    }
    assert(all.take(i as int) =~= all);
    terms
}

/// Maximize versions after a complete factored preference assignment has been selected.
pub fn resolve_maximal_solutions_for_preference_decisions<
    DP: DependencyProvider,
    E: Fn(&VersionOf<DP>) -> DP::VS,
    R: Fn(&VersionOf<DP>) -> DP::VS,
    F: Fn(&VersionOf<DP>) -> DP::VS,
>(
    dependency_provider: &DP,
    package: DP::P,
    version: VersionOf<DP>,
    decisions: Vec<PreferenceDecision<DP::P, DP::VS>>,
    maximized_packages: Vec<DP::P>,
    version_ordering: VersionOrdering<E, R, F>,
) -> (r: Result<MaximalSolutions<DP::P, VersionOf<DP>>, PubGrubError<DP>>)
    requires
        ordering::is_ordering::<DP::VS, E, R, F>(version_ordering),
        ordering::precedence::<DP::VS, E, R, F>(version_ordering).is_ranked(
            finite::offered_versions(*dependency_provider),
        ),
    ensures
        r matches Ok(solutions) ==> forall|i: int, j: int|
            0 <= i < decisions@.len() && 0 <= j < solutions@.len() && (
            #[trigger] decisions@[i]).key() != package@ ==> decisions@[i].states().contains(
                (#[trigger] solutions@[j])@.get(decisions@[i].key()),
            ) == decisions@[i].satisfied(),
        maximized(
            *dependency_provider,
            package@,
            version,
            preference::demands(foreign(package@, decisions@)),
            ordering::precedence::<DP::VS, E, R, F>(version_ordering),
            maximal::projection_of(package@, package::keys(maximized_packages@)),
            r,
        ),
        exists|told: Seq<Observed<Key<DP>, VersionOf<DP>>>| #[trigger]
            maximal::tells_enumeration::<DP, NoopSolverObserver<DP::P, DP::VS>>(
                *dependency_provider,
                package@,
                version,
                maximal::projection_of(package@, package::keys(maximized_packages@)),
                Seq::empty(),
                told,
                r,
            ) && maximal::is_enumeration(
                Quest {
                    dp: *dependency_provider,
                    root: package@,
                    version,
                    demands: preference::demands(foreign(package@, decisions@)),
                    o: ordering::precedence::<DP::VS, E, R, F>(version_ordering),
                    projection: maximal::projection_of(package@, package::keys(maximized_packages@)),
                },
                machine::choices_told(0, told),
                r,
            ),
{
    let ghost root = package@;
    let mut observer = NoopSolverObserver::new();
    let r = resolve_maximal_solutions_for_preference_decisions_with_observer(
        dependency_provider,
        package,
        version,
        decisions,
        maximized_packages,
        version_ordering,
        &mut observer,
    );
    proof {
        let told = observer.told();
        assert(maximal::tells_enumeration::<DP, NoopSolverObserver<DP::P, DP::VS>>(
            *dependency_provider,
            root,
            version,
            maximal::projection_of(root, package::keys(maximized_packages@)),
            Seq::empty(),
            told,
            r,
        ));
    }
    r
}

/// Version maximization for a selected preference assignment with observer events.
pub fn resolve_maximal_solutions_for_preference_decisions_with_observer<
    DP: DependencyProvider,
    E: Fn(&VersionOf<DP>) -> DP::VS,
    R: Fn(&VersionOf<DP>) -> DP::VS,
    F: Fn(&VersionOf<DP>) -> DP::VS,
    O: SolverObserver<DP::P, DP::VS, DP::M>,
>(
    dependency_provider: &DP,
    package: DP::P,
    version: VersionOf<DP>,
    decisions: Vec<PreferenceDecision<DP::P, DP::VS>>,
    maximized_packages: Vec<DP::P>,
    version_ordering: VersionOrdering<E, R, F>,
    observer: &mut O,
) -> (r: Result<MaximalSolutions<DP::P, VersionOf<DP>>, PubGrubError<DP>>)
    requires
        ordering::is_ordering::<DP::VS, E, R, F>(version_ordering),
        ordering::precedence::<DP::VS, E, R, F>(version_ordering).is_ranked(
            finite::offered_versions(*dependency_provider),
        ),
    ensures
        r matches Ok(solutions) ==> forall|i: int, j: int|
            0 <= i < decisions@.len() && 0 <= j < solutions@.len() && (
            #[trigger] decisions@[i]).key() != package@ ==> decisions@[i].states().contains(
                (#[trigger] solutions@[j])@.get(decisions@[i].key()),
            ) == decisions@[i].satisfied(),
        maximized(
            *dependency_provider,
            package@,
            version,
            preference::demands(foreign(package@, decisions@)),
            ordering::precedence::<DP::VS, E, R, F>(version_ordering),
            maximal::projection_of(package@, package::keys(maximized_packages@)),
            r,
        ),
        maximal::is_enumeration(
            Quest {
                dp: *dependency_provider,
                root: package@,
                version,
                demands: preference::demands(foreign(package@, decisions@)),
                o: ordering::precedence::<DP::VS, E, R, F>(version_ordering),
                projection: maximal::projection_of(package@, package::keys(maximized_packages@)),
            },
            machine::choices_told(old(observer).log().len() as int, final(observer).log()),
            r,
        ),
        maximal::tells_enumeration::<DP, O>(
            *dependency_provider,
            package@,
            version,
            maximal::projection_of(package@, package::keys(maximized_packages@)),
            old(observer).log(),
            final(observer).log(),
            r,
        ),
{
    let terms = decision_terms(&package, &decisions);
    let projection = projected_packages(&package, maximized_packages);
    let r = enumerate_maximal_solutions_with_constraints(
        dependency_provider,
        &package,
        &version,
        &projection,
        &version_ordering,
        &terms,
        observer,
    );
    proof {
        if r is Ok {
            promises::decisions_are_met(
                *dependency_provider,
                package@,
                version,
                decisions@,
                ordering::precedence::<DP::VS, E, R, F>(version_ordering),
                package::keys(projection@),
                r->Ok_0,
            );
        }
    }
    r
}

/// The lists one after the other.
pub open spec fn joined<T>(groups: Seq<Seq<T>>) -> Seq<T>
    decreases groups.len(),
{
    if groups.len() == 0 {
        Seq::empty()
    } else {
        joined(groups.drop_last()) + groups.last()
    }
}

/// The front holds the maximal combinations of preferences that a solution can preserve, and the
/// groups hold maximal solutions among those that preserve exactly these.
pub open spec fn is_grouped<DP: DependencyProvider>(
    dp: DP,
    root: Key<DP>,
    version: VersionOf<DP>,
    preferences: Seq<PackagePreference<DP::P, DP::VS>>,
    o: Precedence<VersionOf<DP>>,
    projection: Seq<Key<DP>>,
    front: Seq<Seq<bool>>,
    groups: Seq<Seq<Selection<DP>>>,
) -> bool {
    &&& front::is_front(front::preservable(dp, root, version, preferences), front)
    &&& groups.len() == front.len()
    &&& groups.len() > 0
    &&& forall|i: int|
        0 <= i < groups.len() ==> maximal::is_maximal_set(
            dp,
            root,
            version,
            front::demands_for(preferences, front[i]),
            o,
            projection,
            #[trigger] groups[i],
        )
}

/// The selections are the maximal solutions for each maximal combination of preferences, one
/// combination after the other.
pub open spec fn is_minimal_change<DP: DependencyProvider>(
    dp: DP,
    root: Key<DP>,
    version: VersionOf<DP>,
    preferences: Seq<PackagePreference<DP::P, DP::VS>>,
    o: Precedence<VersionOf<DP>>,
    projection: Seq<Key<DP>>,
    found: Seq<Selection<DP>>,
) -> bool {
    exists|front: Seq<Seq<bool>>, groups: Seq<Seq<Selection<DP>>>| #[trigger]
        is_grouped(dp, root, version, preferences, o, projection, front, groups) && joined(groups)
            == found
}

/// What the enumeration may return, whatever it tells.
pub open spec fn enumerates<DP: DependencyProvider>(
    quest: Quest<DP>,
    r: Result<MaximalSolutions<DP::P, VersionOf<DP>>, PubGrubError<DP>>,
) -> bool {
    exists|told: Seq<Observed<Key<DP>, VersionOf<DP>>>| #[trigger]
        maximal::is_enumeration(quest, told, r)
}

/// What is selected in each group.
pub open spec fn grouped<P: Package, V>(groups: Seq<MaximalSolutions<P, V>>) -> Seq<
    Seq<Map<P::V, V>>,
> {
    Seq::new(groups.len(), |i: int| maximal::selections(groups[i]@))
}

/// One enumeration for each of the maximal combinations of preferences, in their order: all that
/// they return, or the first error among them.
pub open spec fn are_turns<DP: DependencyProvider>(
    dp: DP,
    root: Key<DP>,
    version: VersionOf<DP>,
    preferences: Seq<PackagePreference<DP::P, DP::VS>>,
    o: Precedence<VersionOf<DP>>,
    projection: Seq<Key<DP>>,
    front: Seq<Seq<bool>>,
    groups: Seq<MaximalSolutions<DP::P, VersionOf<DP>>>,
    r: Result<MaximalSolutions<DP::P, VersionOf<DP>>, PubGrubError<DP>>,
) -> bool {
    &&& front::is_front(front::preservable(dp, root, version, preferences), front)
    &&& front.len() > 0
    &&& groups.len() <= front.len()
    &&& forall|i: int|
        0 <= i < groups.len() ==> enumerates(
            Quest {
                dp,
                root,
                version,
                demands: front::demands_for(preferences, front[i]),
                o,
                projection,
            },
            Ok(#[trigger] groups[i]),
        )
    &&& match r {
        Ok(solutions) => {
            &&& groups.len() == front.len()
            &&& maximal::selections(solutions@) == joined(grouped(groups))
        },
        Err(error) => {
            &&& groups.len() < front.len()
            &&& enumerates(
                Quest {
                    dp,
                    root,
                    version,
                    demands: front::demands_for(preferences, front[groups.len() as int]),
                    o,
                    projection,
                },
                Err(error),
            )
        },
    }
}

/// The result is made of one enumeration for each of the maximal combinations of preferences, unless
/// there is no solution.
pub open spec fn takes_turns<DP: DependencyProvider>(
    dp: DP,
    root: Key<DP>,
    version: VersionOf<DP>,
    preferences: Seq<PackagePreference<DP::P, DP::VS>>,
    o: Precedence<VersionOf<DP>>,
    projection: Seq<Key<DP>>,
    r: Result<MaximalSolutions<DP::P, VersionOf<DP>>, PubGrubError<DP>>,
) -> bool {
    ||| exists|front: Seq<Seq<bool>>, groups: Seq<MaximalSolutions<DP::P, VersionOf<DP>>>| #[trigger]
        are_turns(dp, root, version, preferences, o, projection, front, groups, r)
    ||| {
        &&& r is Err
        &&& r->Err_0 is NoSolution
        &&& !problem::solvable(dp, root, version)
        &&& preferences.len() == 0 ==> run::ends_as(dp, root, version, Seq::empty(), r)
    }
}

/// The preferences that say something about a package other than the root.
pub open spec fn usable_among<P: Package, VS: VersionSet>(
    root: P::V,
    preferences: Seq<PackagePreference<P, VS>>,
) -> Seq<PackagePreference<P, VS>> {
    preferences.filter(|preference: PackagePreference<P, VS>| preference::usable(root, preference))
}

proof fn lemma_usable_among<P: Package, VS: VersionSet>(
    root: P::V,
    preferences: Seq<PackagePreference<P, VS>>,
)
    ensures
        forall|i: int|
            0 <= i < usable_among(root, preferences).len() ==> preference::usable(
                root,
                #[trigger] usable_among(root, preferences)[i],
            ),
    decreases preferences.len(),
{
    reveal(Seq::filter);
    if preferences.len() > 0 {
        lemma_usable_among(root, preferences.drop_last());
    }
}

/// Finds every standard Pareto-minimal change set and, within each equal change set, retains the
/// Pareto-maximal projected versions.
///
/// Each [`PackagePreference`] describes one fact from the caller's baseline state. A solution is
/// discarded when another feasible solution satisfies a strict superset of its preferences. This
/// is the set-inclusion definition of minimal change: no package preference can be restored without
/// losing another one that the solution already preserves. Incomparable minimal change sets are all
/// returned.
///
/// Version maximization is secondary and is performed only among solutions with exactly the same
/// satisfied preference set. It therefore cannot upgrade an otherwise preservable package merely
/// to obtain a newer solution. The same identity, precedence, and strict-upgrade callbacks used by
/// [`resolve_maximal_solutions`] define this secondary Pareto front.
pub fn resolve_minimal_change_solutions<
    DP: DependencyProvider,
    E: Fn(&VersionOf<DP>) -> DP::VS,
    R: Fn(&VersionOf<DP>) -> DP::VS,
    F: Fn(&VersionOf<DP>) -> DP::VS,
>(
    dependency_provider: &DP,
    package: DP::P,
    version: VersionOf<DP>,
    preferences: Vec<PackagePreference<DP::P, DP::VS>>,
    maximized_packages: Vec<DP::P>,
    version_ordering: VersionOrdering<E, R, F>,
) -> (r: Result<MaximalSolutions<DP::P, VersionOf<DP>>, PubGrubError<DP>>)
    requires
        ordering::is_ordering::<DP::VS, E, R, F>(version_ordering),
        ordering::precedence::<DP::VS, E, R, F>(version_ordering).is_ranked(
            finite::offered_versions(*dependency_provider),
        ),
    ensures
        minimally_changed(
            *dependency_provider,
            package@,
            version,
            usable_among(package@, preferences@),
            ordering::precedence::<DP::VS, E, R, F>(version_ordering),
            maximal::projection_of(package@, package::keys(maximized_packages@)),
            r,
        ),
        exists|told: Seq<Observed<Key<DP>, VersionOf<DP>>>| #[trigger]
            tells_minimal_change::<DP, NoopSolverObserver<DP::P, DP::VS>>(
                *dependency_provider,
                package@,
                version,
                usable_among(package@, preferences@),
                ordering::precedence::<DP::VS, E, R, F>(version_ordering),
                maximal::projection_of(package@, package::keys(maximized_packages@)),
                Seq::empty(),
                told,
                r,
            ),
{
    let ghost root = package@;
    let mut observer = NoopSolverObserver::new();
    let r = resolve_minimal_change_solutions_with_observer(
        dependency_provider,
        package,
        version,
        preferences,
        maximized_packages,
        version_ordering,
        &mut observer,
    );
    proof {
        let told = observer.told();
        assert(tells_minimal_change::<DP, NoopSolverObserver<DP::P, DP::VS>>(
            *dependency_provider,
            root,
            version,
            usable_among(root, preferences@),
            ordering::precedence::<DP::VS, E, R, F>(version_ordering),
            maximal::projection_of(root, package::keys(maximized_packages@)),
            Seq::empty(),
            told,
            r,
        ));
    }
    r
}

/// What an enumeration of minimal changes returns: the maximal solutions for each maximal
/// combination of preferences; or a proof that there is no solution; or a flaw of the ordering; or
/// an error that the provider raised.
pub open spec fn minimally_changed<DP: DependencyProvider>(
    dp: DP,
    root: Key<DP>,
    version: VersionOf<DP>,
    preferences: Seq<PackagePreference<DP::P, DP::VS>>,
    o: Precedence<VersionOf<DP>>,
    projection: Seq<Key<DP>>,
    r: Result<MaximalSolutions<DP::P, VersionOf<DP>>, PubGrubError<DP>>,
) -> bool {
    &&& error::heeds_cancellation(dp, r)
    &&& {
        ||| takes_turns(dp, root, version, preferences, o, projection, r)
        ||| {
            &&& r is Err
            &&& r->Err_0.raised_by(dp)
            &&& preferences.len() == 0 ==> run::ends_as(dp, root, version, Seq::empty(), r)
        }
    }
    &&& match r {
        Ok(solutions) => is_minimal_change(
            dp,
            root,
            version,
            preferences,
            o,
            projection,
            maximal::selections(solutions@),
        ),
        Err(error) => error::is_failure(error, dp, root, version) || finds_flaw_in_group(
            dp,
            root,
            version,
            preferences,
            o,
            projection,
            error,
        ),
    }
}

/// The error points out a flaw of the relations at a version that some solution selects which
/// preserves one of the maximal combinations of preferences.
pub open spec fn finds_flaw_in_group<DP: DependencyProvider>(
    dp: DP,
    root: Key<DP>,
    version: VersionOf<DP>,
    preferences: Seq<PackagePreference<DP::P, DP::VS>>,
    o: Precedence<VersionOf<DP>>,
    projection: Seq<Key<DP>>,
    error: PubGrubError<DP>,
) -> bool {
    exists|kept: Seq<bool>| #[trigger]
        front::maximal(front::preservable(dp, root, version, preferences), kept)
            && maximal::finds_flaw(
            dp,
            root,
            version,
            front::demands_for(preferences, kept),
            o,
            projection,
            error,
        )
}

/// The log has grown by at least so many enumerations, and by so many solutions.
pub open spec fn tells_chapters<DP: DependencyProvider, O: SolverObserver<DP::P, DP::VS, DP::M>>(
    before: Seq<Observed<Key<DP>, VersionOf<DP>>>,
    after: Seq<Observed<Key<DP>, VersionOf<DP>>>,
    least: nat,
    solutions: int,
) -> bool {
    exists|chapters: nat|
        chapters >= least && #[trigger] observer::narrates::<DP::P, DP::VS, DP::M, O>(
            before,
            after,
            chapters,
            solutions,
        )
}

/// The log has grown by what is told of one enumeration of solutions for each group.
pub open spec fn tells_each_group<
    DP: DependencyProvider,
    O: SolverObserver<DP::P, DP::VS, DP::M>,
>(
    projection: Seq<Key<DP>>,
    before: Seq<Observed<Key<DP>, VersionOf<DP>>>,
    after: Seq<Observed<Key<DP>, VersionOf<DP>>>,
    groups: Seq<Seq<Selection<DP>>>,
) -> bool
    decreases groups.len(),
{
    if groups.len() == 0 {
        after == before
    } else {
        exists|middle: Seq<Observed<Key<DP>, VersionOf<DP>>>|
            tells_each_group::<DP, O>(projection, before, middle, groups.drop_last())
                && #[trigger] maximal::tells_solutions::<DP, O>(
                projection,
                middle,
                after,
                groups.last(),
            )
    }
}

/// The log has grown by the search for preferences, and then by one enumeration of solutions for
/// each of the maximal combinations, in their order.
pub open spec fn tells_groups<DP: DependencyProvider, O: SolverObserver<DP::P, DP::VS, DP::M>>(
    dp: DP,
    root: Key<DP>,
    version: VersionOf<DP>,
    preferences: Seq<PackagePreference<DP::P, DP::VS>>,
    o: Precedence<VersionOf<DP>>,
    projection: Seq<Key<DP>>,
    before: Seq<Observed<Key<DP>, VersionOf<DP>>>,
    after: Seq<Observed<Key<DP>, VersionOf<DP>>>,
    found: Seq<Selection<DP>>,
) -> bool {
    exists|
        front: Seq<Seq<bool>>,
        groups: Seq<Seq<Selection<DP>>>,
        middle: Seq<Observed<Key<DP>, VersionOf<DP>>>,
    |
        {
            &&& #[trigger] is_grouped(
                dp,
                root,
                version,
                preferences,
                o,
                projection,
                front,
                groups,
            )
            &&& joined(groups) == found
            &&& attempts::tells_each::<DP>(
                dp,
                root,
                version,
                preferences,
                before,
                middle,
                Ok(()),
            )
            &&& #[trigger] tells_each_group::<DP, O>(projection, middle, after, groups)
            &&& middle.is_prefix_of(after)
            &&& path::are_stretches::<DP, O>(dp, root, version, middle, after)
            &&& observer::narrates::<DP::P, DP::VS, DP::M, O>(
                before,
                after,
                front.len() + 1,
                found.len() as int,
            )
        }
}

/// The log has grown by the search for preferences, by what is told of one enumeration for each of
/// some groups, and by an enumeration that has failed.
pub open spec fn tells_groups_until<
    DP: DependencyProvider,
    O: SolverObserver<DP::P, DP::VS, DP::M>,
>(
    dp: DP,
    root: Key<DP>,
    version: VersionOf<DP>,
    preferences: Seq<PackagePreference<DP::P, DP::VS>>,
    projection: Seq<Key<DP>>,
    before: Seq<Observed<Key<DP>, VersionOf<DP>>>,
    after: Seq<Observed<Key<DP>, VersionOf<DP>>>,
) -> bool {
    exists|
        middle: Seq<Observed<Key<DP>, VersionOf<DP>>>,
        told: Seq<Observed<Key<DP>, VersionOf<DP>>>,
        groups: Seq<Seq<Selection<DP>>>,
    |
        {
            &&& attempts::tells_each::<DP>(
                dp,
                root,
                version,
                preferences,
                before,
                middle,
                Ok(()),
            )
            &&& #[trigger] tells_each_group::<DP, O>(projection, middle, told, groups)
            &&& maximal::tells_failure::<DP, O>(told, after)
            &&& path::are_stretches::<DP, O>(dp, root, version, middle, after)
        }
}

/// The log begins with the search for preferences. Where that fails, it is all, and its error is
/// returned.
pub open spec fn begins_with_search<DP: DependencyProvider>(
    dp: DP,
    root: Key<DP>,
    version: VersionOf<DP>,
    preferences: Seq<PackagePreference<DP::P, DP::VS>>,
    before: Seq<Observed<Key<DP>, VersionOf<DP>>>,
    after: Seq<Observed<Key<DP>, VersionOf<DP>>>,
    r: Result<MaximalSolutions<DP::P, VersionOf<DP>>, PubGrubError<DP>>,
) -> bool {
    exists|
        middle: Seq<Observed<Key<DP>, VersionOf<DP>>>,
        search: Result<(), PubGrubError<DP>>,
    | #[trigger]
        attempts::tells_each::<DP>(
            dp,
            root,
            version,
            preferences,
            before,
            middle,
            search,
        ) && middle.is_prefix_of(after) && (search matches Err(error) ==> middle == after && r is Err
            && r->Err_0 == error)
}

/// What an observer is told of an enumeration of minimal changes: the boundaries of the search for
/// preferences, and then one enumeration of solutions for each combination of preferences, each of
/// them with complete runs numbered from one on. One solution is announced for each that is returned,
/// with the decisions that make it. A probe ends with an error only where that error is returned.
pub open spec fn tells_minimal_change<
    DP: DependencyProvider,
    O: SolverObserver<DP::P, DP::VS, DP::M>,
>(
    dp: DP,
    root: Key<DP>,
    version: VersionOf<DP>,
    preferences: Seq<PackagePreference<DP::P, DP::VS>>,
    o: Precedence<VersionOf<DP>>,
    projection: Seq<Key<DP>>,
    before: Seq<Observed<Key<DP>, VersionOf<DP>>>,
    after: Seq<Observed<Key<DP>, VersionOf<DP>>>,
    r: Result<MaximalSolutions<DP::P, VersionOf<DP>>, PubGrubError<DP>>,
) -> bool {
    &&& begins_with_search::<DP>(dp, root, version, preferences, before, after, r)
    &&& problem::are_answers(dp, before, after)
    &&& match r {
        Ok(solutions) => {
            &&& tells_groups::<DP, O>(
                dp,
                root,
                version,
                preferences,
                o,
                projection,
                before,
                after,
                maximal::selections(solutions@),
            )
            &&& forall|i: int|
                0 <= i < solutions@.len() ==> observer::tells_selection(
                    before,
                    after,
                    #[trigger] maximal::selections(solutions@)[i],
                )
        },
        Err(error) => {
            &&& exists|found: int| #[trigger] tells_chapters::<DP, O>(before, after, 1, found)
            &&& {
                ||| attempts::tells_each::<DP>(
                    dp,
                    root,
                    version,
                    preferences,
                    before,
                    after,
                    Err(error),
                )
                ||| tells_groups_until::<DP, O>(
                    dp,
                    root,
                    version,
                    preferences,
                    projection,
                    before,
                    after,
                )
            }
        },
    }
    &&& r is Ok || !r->Err_0.raised_by(dp) ==> observer::no_probe_failed(before, after)
}

/// Minimal-change solution enumeration with observer events for every returned solver path.
///
/// Preference-front feasibility work emits enumeration and maximality-probe boundaries, while the
/// decision and derivation events retained by the observer come from the secondary version solve
/// which produced each returned solution. This keeps path diagnostics aligned with actual output.
#[verifier::rlimit(40)]
pub fn resolve_minimal_change_solutions_with_observer<
    DP: DependencyProvider,
    E: Fn(&VersionOf<DP>) -> DP::VS,
    R: Fn(&VersionOf<DP>) -> DP::VS,
    F: Fn(&VersionOf<DP>) -> DP::VS,
    O: SolverObserver<DP::P, DP::VS, DP::M>,
>(
    dependency_provider: &DP,
    package: DP::P,
    version: VersionOf<DP>,
    preferences: Vec<PackagePreference<DP::P, DP::VS>>,
    maximized_packages: Vec<DP::P>,
    version_ordering: VersionOrdering<E, R, F>,
    observer: &mut O,
) -> (r: Result<MaximalSolutions<DP::P, VersionOf<DP>>, PubGrubError<DP>>)
    requires
        ordering::is_ordering::<DP::VS, E, R, F>(version_ordering),
        ordering::precedence::<DP::VS, E, R, F>(version_ordering).is_ranked(
            finite::offered_versions(*dependency_provider),
        ),
    ensures
        minimally_changed(
            *dependency_provider,
            package@,
            version,
            usable_among(package@, preferences@),
            ordering::precedence::<DP::VS, E, R, F>(version_ordering),
            maximal::projection_of(package@, package::keys(maximized_packages@)),
            r,
        ),
        tells_minimal_change::<DP, O>(
            *dependency_provider,
            package@,
            version,
            usable_among(package@, preferences@),
            ordering::precedence::<DP::VS, E, R, F>(version_ordering),
            maximal::projection_of(package@, package::keys(maximized_packages@)),
            old(observer).log(),
            final(observer).log(),
            r,
        ),
{
    let ghost dp = *dependency_provider;
    let ghost root = package@;
    let ghost o = ordering::precedence::<DP::VS, E, R, F>(version_ordering);
    let ghost log = observer.log();
    let ghost wanted = usable_among(root, preferences@);
    let usable = usable_preferences(&package, preferences);
    let projection = projected_packages(&package, maximized_packages);
    let ghost projected = package::keys(projection@);
    proof {
        assert(usable@ == wanted);
        lemma_usable_among(root, preferences@);
        lemma_usable_among(root, wanted);
    }
    let ghost good = front::preservable(dp, root, version, wanted);
    let result = enumerate_maximal_preference_satisfactions(
        dependency_provider,
        &package,
        &version,
        &usable,
        observer,
    );
    proof {
        lemma_first_chapter::<DP, O>(log, observer.log());
        assert(observer::narrates::<DP::P, DP::VS, DP::M, O>(log, observer.log(), 1, 0));
        assert(tells_chapters::<DP, O>(log, observer.log(), 1, 0));
        assert(observer.log().is_prefix_of(observer.log()));
        let runs = choose|runs: u64|
            runs >= 1 && #[trigger] observer::reports::<DP::P, DP::VS, DP::M, O>(
                log,
                observer.log(),
                runs,
                0,
            );
        observer::lemma_leads_prefix::<DP::P, DP::VS, DP::M, O>(
            log,
            observer.log(),
            observer::idle(0),
            observer::idle(runs),
            0,
        );
    }
    let ghost searched = observer.log();
    let ghost search = attempts::outcome(result);
    proof {
        assert(attempts::tells_each::<DP>(
            dp,
            root,
            version,
            wanted,
            log,
            searched,
            search,
        ));
    }
    assert(problem::are_answers(dp, log, searched)) by {
        assert forall|m: int| log.len() <= m < searched.len() implies problem::is_answer(
            dp,
            #[trigger] searched[m],
        ) by {
            assert(observer::is_boundary(searched[m]));
        }
    }
    let satisfactions = match result {
        Ok(satisfactions) => satisfactions,
        Err(error) => {
            return Err(error);
        },
    };
    proof {
        path::lemma_no_stretch::<DP, O>(dp, root, version, searched, searched);
    }
    let ghost front = front::masks(satisfactions@);
    let mut solutions: MaximalSolutions<DP::P, VersionOf<DP>> = Vec::new();
    let ghost mut groups: Seq<Seq<Selection<DP>>> = Seq::empty();
    let ghost mut turns: Seq<MaximalSolutions<DP::P, VersionOf<DP>>> = Seq::empty();
    assert(groups =~= grouped(turns));
    assert(maximal::selections(solutions@) =~= joined(groups));
    let mut i: usize = 0;
    while i < satisfactions.len()
        invariant
            dp == *dependency_provider,
            root == package@,
            ordering::is_ordering::<DP::VS, E, R, F>(version_ordering),
            o == ordering::precedence::<DP::VS, E, R, F>(version_ordering),
            o.is_ranked(finite::offered_versions(dp)),
            log == old(observer).log(),
            wanted == usable@,
            wanted == usable_among(root, preferences@),
            projected == package::keys(projection@),
            projected == maximal::projection_of(root, package::keys(maximized_packages@)),
            good == front::preservable(dp, root, version, wanted),
            front == front::masks(satisfactions@),
            front::is_front(good, front),
            forall|j: int|
                0 <= j < satisfactions@.len() ==> (#[trigger] satisfactions@[j])@.len()
                    == wanted.len(),
            i <= satisfactions@.len(),
            groups.len() == i,
            turns.len() == i,
            groups == grouped(turns),
            front.len() == satisfactions@.len(),
            front.len() > 0,
            forall|j: int|
                0 <= j < turns.len() ==> enumerates(
                    Quest {
                        dp,
                        root,
                        version,
                        demands: front::demands_for(wanted, front[j]),
                        o,
                        projection: projected,
                    },
                    Ok(#[trigger] turns[j]),
                ),
            maximal::selections(solutions@) == joined(groups),
            forall|j: int|
                0 <= j < groups.len() ==> maximal::is_maximal_set(
                    dp,
                    root,
                    version,
                    front::demands_for(wanted, front[j]),
                    o,
                    projected,
                    #[trigger] groups[j],
                ),
            observer::narrates::<DP::P, DP::VS, DP::M, O>(
                log,
                observer.log(),
                (i + 1) as nat,
                solutions@.len() as int,
            ),
            observer::no_probe_failed(log, observer.log()),
            attempts::tells_each::<DP>(dp, root, version, wanted, log, searched, search),
            search == Ok::<(), PubGrubError<DP>>(()),
            tells_each_group::<DP, O>(projected, searched, observer.log(), groups),
            path::are_stretches::<DP, O>(dp, root, version, searched, observer.log()),
            problem::are_answers(dp, log, observer.log()),
            forall|j: int|
                0 <= j < solutions@.len() ==> observer::tells_selection(
                    log,
                    observer.log(),
                    #[trigger] maximal::selections(solutions@)[j],
                ),
            log.len() <= observer.log().len(),
            searched.is_prefix_of(observer.log()),
            error::may_go_on(dp),
        decreases satisfactions@.len() - i,
    {
        let ghost kept = front[i as int];
        let ghost count = solutions@.len() as int;
        let ghost told = observer.log();
        let terms = required_terms(&usable, &satisfactions[i]);
        let result = enumerate_maximal_solutions_with_constraints(
            dependency_provider,
            &package,
            &version,
            &projection,
            &version_ordering,
            &terms,
            observer,
        );
        let ghost quest = Quest {
            dp,
            root,
            version,
            demands: front::demands_for(wanted, kept),
            o,
            projection: projected,
        };
        assert(enumerates(quest, result)) by {
            assert(maximal::is_enumeration(
                quest,
                machine::choices_told(told.len() as int, observer.log()),
                result,
            ));
        }
        match result {
            Ok(more) => {
                let ghost turn = more;
                let mut more = more;
                let ghost group = maximal::selections(more@);
                let ghost before = solutions@;
                let ghost added = more@;
                proof {
                    let runs = choose|runs: u64| #[trigger]
                        observer::reports::<DP::P, DP::VS, DP::M, O>(
                            told,
                            observer.log(),
                            runs,
                            more@.len() as int,
                        ) && maximal::is_run_count(projected, maximal::selections(more@), runs);
                    observer::lemma_narrates_chain::<DP::P, DP::VS, DP::M, O>(
                        log,
                        told,
                        observer.log(),
                        (i + 1) as nat,
                        count,
                        runs,
                        more@.len() as int,
                    );
                    observer::lemma_leads_prefix::<DP::P, DP::VS, DP::M, O>(
                        told,
                        observer.log(),
                        observer::idle(0),
                        observer::idle(runs),
                        more@.len() as int,
                    );
                    run::lemma_prefix_chain(searched, told, observer.log());
                    path::lemma_stretches_chain::<DP, O>(
                        dp,
                        root,
                        version,
                        searched,
                        told,
                        observer.log(),
                    );
                    maximal::lemma_no_failure(log, told, observer.log());
                    problem::lemma_answers_chain(dp, log, told, observer.log());
                }
                solutions.append(&mut more);
                proof {
                    assert forall|j: int| 0 <= j < solutions@.len() implies
                        observer::tells_selection(
                        log,
                        observer.log(),
                        #[trigger] maximal::selections(solutions@)[j],
                    ) by {
                        let s = maximal::selections(solutions@)[j];
                        if j < before.len() {
                            assert(s == maximal::selections(before)[j]);
                            observer::lemma_selection_later(log, log, told, observer.log(), s);
                        } else {
                            assert(s == group[j - before.len()]);
                            assert(observer.log().is_prefix_of(observer.log()));
                            observer::lemma_selection_later(
                                log,
                                told,
                                observer.log(),
                                observer.log(),
                                s,
                            );
                        }
                    }
                    assert(maximal::selections(before + added) =~= maximal::selections(before)
                        + group);
                    assert(groups.push(group).drop_last() =~= groups);
                    let earlier = groups;
                    groups = groups.push(group);
                    turns = turns.push(turn);
                    assert(groups =~= grouped(turns));
                    assert(joined(groups) =~= joined(earlier) + group);
                    assert(groups.drop_last() =~= earlier);
                    assert(groups.last() == group);
                    assert(tells_each_group::<DP, O>(projected, searched, told, earlier));
                    assert(maximal::tells_solutions::<DP, O>(
                        projected,
                        told,
                        observer.log(),
                        group,
                    ));
                    assert(tells_each_group::<DP, O>(
                        projected,
                        searched,
                        observer.log(),
                        groups,
                    ));
                    assert forall|j: int| 0 <= j < groups.len() implies maximal::is_maximal_set(
                        dp,
                        root,
                        version,
                        front::demands_for(wanted, front[j]),
                        o,
                        projected,
                        #[trigger] groups[j],
                    ) by {
                        if j < earlier.len() {
                            assert(groups[j] == earlier[j]);
                        }
                    }
                }
            },
            Err(error) => {
                proof {
                    let demands = front::demands_for(wanted, kept);
                    assert(are_turns(
                        dp,
                        root,
                        version,
                        wanted,
                        o,
                        projected,
                        front,
                        turns,
                        Err(error),
                    ));
                    let forced = run::forced_clauses(root, version, demands);
                    if error.proves_no_solution(dp, root, version, forced) {
                        error::lemma_proves_no_solution(error, dp, root, version, forced);
                        assert(front.contains(kept));
                        assert(good(kept));
                        let s = choose|s: Selection<DP>| #[trigger]
                            problem::is_solution(dp, root, version, s) && front::profile(wanted, s)
                                == kept;
                        front::lemma_demands_for(wanted, kept, s);
                        run::lemma_forced(root, version, demands, s);
                        assert(problem::avoids(forced, s));
                        assert(false);
                    }
                    if maximal::finds_flaw(dp, root, version, demands, o, projected, error) {
                        assert(front.contains(kept));
                        assert(front::maximal(good, kept));
                        assert(finds_flaw_in_group(
                            dp,
                            root,
                            version,
                            wanted,
                            o,
                            projected,
                            error,
                        ));
                    }
                    let announced = choose|found: Seq<Selection<DP>>| #[trigger]
                        path::announces::<DP::P, DP::VS, DP::M, O>(told, observer.log(), found)
                            && observer::reports::<DP::P, DP::VS, DP::M, O>(
                            told,
                            observer.log(),
                            observer::run_number(found.len() as int + 1),
                            found.len() as int,
                        );
                    let found = announced.len() as int;
                    observer::lemma_narrates_chain::<DP::P, DP::VS, DP::M, O>(
                        log,
                        told,
                        observer.log(),
                        (i + 1) as nat,
                        count,
                        observer::run_number(found + 1),
                        found,
                    );
                    assert(tells_chapters::<DP, O>(log, observer.log(), 1, count + found)) by {
                        assert(observer::narrates::<DP::P, DP::VS, DP::M, O>(
                            log,
                            observer.log(),
                            (i + 1) as nat + 1,
                            count + found,
                        ));
                    }
                    observer::lemma_leads_prefix::<DP::P, DP::VS, DP::M, O>(
                        told,
                        observer.log(),
                        observer::idle(0),
                        observer::idle(observer::run_number(found + 1)),
                        found,
                    );
                    run::lemma_prefix_chain(searched, told, observer.log());
                    path::lemma_stretches_chain::<DP, O>(
                        dp,
                        root,
                        version,
                        searched,
                        told,
                        observer.log(),
                    );
                    assert(begins_with_search::<DP>(
                        dp,
                        root,
                        version,
                        wanted,
                        log,
                        observer.log(),
                        Err(error),
                    ));
                    assert(tells_each_group::<DP, O>(projected, searched, told, groups));
                    assert(tells_groups_until::<DP, O>(
                        dp,
                        root,
                        version,
                        wanted,
                        projected,
                        log,
                        observer.log(),
                    ));
                    problem::lemma_answers_chain(dp, log, told, observer.log());
                    if !error.raised_by(dp) {
                        maximal::lemma_no_failure(log, told, observer.log());
                    }
                }
                return Err(error);
            },
        }
        i += 1;
    }
    proof {
        assert(are_turns(dp, root, version, wanted, o, projected, front, turns, Ok(solutions)));
        assert(is_grouped(dp, root, version, wanted, o, projected, front, groups));
        assert(begins_with_search::<DP>(
            dp,
            root,
            version,
            wanted,
            log,
            observer.log(),
            Ok(solutions),
        ));
        assert(tells_groups::<DP, O>(
            dp,
            root,
            version,
            wanted,
            o,
            projected,
            log,
            observer.log(),
            maximal::selections(solutions@),
        )) by {
            assert(tells_each_group::<DP, O>(projected, searched, observer.log(), groups));
            assert(observer::narrates::<DP::P, DP::VS, DP::M, O>(
                log,
                observer.log(),
                front.len() + 1,
                maximal::selections(solutions@).len() as int,
            ));
        }
    }
    Ok(solutions)
}

proof fn lemma_first_chapter<DP: DependencyProvider, O: SolverObserver<DP::P, DP::VS, DP::M>>(
    before: Seq<Observed<Key<DP>, VersionOf<DP>>>,
    after: Seq<Observed<Key<DP>, VersionOf<DP>>>,
)
    requires
        front::tells_runs::<DP, O>(before, after),
    ensures
        observer::narrates::<DP::P, DP::VS, DP::M, O>(before, after, 1, 0),
{
    let runs = choose|runs: u64|
        runs >= 1 && #[trigger] observer::reports::<DP::P, DP::VS, DP::M, O>(
            before,
            after,
            runs,
            0,
        );
    observer::lemma_leads_nowhere::<DP::P, DP::VS, DP::M, O>(before);
    observer::lemma_narrates_chain::<DP::P, DP::VS, DP::M, O>(before, before, after, 0, 0, runs, 0);
}

/// The product is made of fronts of the components: what each front agrees on is common, and each
/// front that leaves a choice is a factor.
pub open spec fn is_product<DP: DependencyProvider>(
    dp: DP,
    root: Key<DP>,
    version: VersionOf<DP>,
    components: Seq<Seq<PackagePreference<DP::P, DP::VS>>>,
    product: FactoredPreferenceSolutions<DP::P, DP::VS>,
) -> bool {
    exists|fronts: Seq<Seq<Seq<bool>>>| #[trigger]
        factored::are_fronts(dp, root, version, components, fronts) && product.shared()
            == factored::common_of(components, fronts, components.len() as int)
            && product.open_choices() == factored::factors_of(
            components,
            fronts,
            components.len() as int,
        )
}

/// What a factored enumeration returns: the product of the fronts of the components, where there is a
/// solution; or a proof that there is none; or an error that the provider raised. Without components
/// it ends as a run does.
pub open spec fn factorized<DP: DependencyProvider>(
    dp: DP,
    root: Key<DP>,
    version: VersionOf<DP>,
    components: Seq<Seq<PackagePreference<DP::P, DP::VS>>>,
    r: Result<FactoredPreferenceSolutions<DP::P, DP::VS>, PubGrubError<DP>>,
) -> bool {
    &&& error::heeds_cancellation(dp, r)
    &&& components.len() == 0 ==> run::ends_as(dp, root, version, Seq::empty(), r)
    &&& match r {
        Ok(product) => {
            &&& problem::solvable(dp, root, version)
            &&& is_product(dp, root, version, components, product)
        },
        Err(error) => error::is_failure(error, dp, root, version),
    }
}

/// Enumerate independent preference components without expanding their Cartesian product.
///
/// Each inner vector must be one dependency-graph component: no selectable package or
/// incompatibility may couple preferences in different components. PubGrub verifies every local
/// alternative against the complete provider graph, but discovering a safe partition is the
/// caller's responsibility because [`DependencyProvider`] intentionally does not expose its graph.
/// When that condition holds, the product of the returned factors is exactly the global Pareto
/// front under set-inclusion preference ordering.
pub fn resolve_factored_preference_solutions<DP: DependencyProvider>(
    dependency_provider: &DP,
    package: DP::P,
    version: VersionOf<DP>,
    preference_components: Vec<Vec<PackagePreference<DP::P, DP::VS>>>,
) -> (r: Result<FactoredPreferenceSolutions<DP::P, DP::VS>, PubGrubError<DP>>)
    ensures
        factorized(
            *dependency_provider,
            package@,
            version,
            factored::usable_components(package@, preference_components@),
            r,
        ),
        exists|told: Seq<Observed<Key<DP>, VersionOf<DP>>>| #[trigger]
            tells_factors::<DP, NoopSolverObserver<DP::P, DP::VS>>(
                *dependency_provider,
                package@,
                version,
                factored::usable_components(package@, preference_components@),
                Seq::empty(),
                told,
                r,
            ),
{
    let ghost root = package@;
    let mut observer = NoopSolverObserver::new();
    let r = resolve_factored_preference_solutions_with_observer(
        dependency_provider,
        package,
        version,
        preference_components,
        &mut observer,
    );
    proof {
        let told = observer.told();
        assert(tells_factors::<DP, NoopSolverObserver<DP::P, DP::VS>>(
            *dependency_provider,
            root,
            version,
            factored::usable_components(root, preference_components@),
            Seq::empty(),
            told,
            r,
        ));
    }
    r
}

/// The log has grown by some of so many enumerations, and by no solution.
pub open spec fn tells_some<DP: DependencyProvider, O: SolverObserver<DP::P, DP::VS, DP::M>>(
    before: Seq<Observed<Key<DP>, VersionOf<DP>>>,
    after: Seq<Observed<Key<DP>, VersionOf<DP>>>,
    most: nat,
) -> bool {
    exists|chapters: nat| #[trigger]
        observer::narrates::<DP::P, DP::VS, DP::M, O>(before, after, chapters, 0) && 1 <= chapters
            <= most
}

/// The log has grown by what is told of a successful search for preferences for each component.
pub open spec fn tells_components<DP: DependencyProvider>(
    dp: DP,
    root: Key<DP>,
    version: VersionOf<DP>,
    components: Seq<Seq<PackagePreference<DP::P, DP::VS>>>,
    before: Seq<Observed<Key<DP>, VersionOf<DP>>>,
    after: Seq<Observed<Key<DP>, VersionOf<DP>>>,
) -> bool
    decreases components.len(),
{
    if components.len() == 0 {
        after == before
    } else {
        exists|middle: Seq<Observed<Key<DP>, VersionOf<DP>>>|
            tells_components(dp, root, version, components.drop_last(), before, middle)
                && #[trigger] attempts::tells_each::<DP>(
                dp,
                root,
                version,
                components.last(),
                middle,
                after,
                Ok(()),
            )
    }
}

/// The log has grown by what is told of a successful search for preferences for each one of the
/// first components, and of one for the next component that has failed.
pub open spec fn tells_components_until<DP: DependencyProvider>(
    dp: DP,
    root: Key<DP>,
    version: VersionOf<DP>,
    components: Seq<Seq<PackagePreference<DP::P, DP::VS>>>,
    before: Seq<Observed<Key<DP>, VersionOf<DP>>>,
    after: Seq<Observed<Key<DP>, VersionOf<DP>>>,
    error: PubGrubError<DP>,
) -> bool {
    exists|n: int, middle: Seq<Observed<Key<DP>, VersionOf<DP>>>|
        0 <= n < components.len() && #[trigger] tells_components(
            dp,
            root,
            version,
            components.take(n),
            before,
            middle,
        ) && attempts::tells_each::<DP>(
            dp,
            root,
            version,
            components[n],
            middle,
            after,
            Err(error),
        )
}

/// The searches for preferences that are made where there are these components: one for each, and
/// one without preferences where there is none.
pub open spec fn searched_components<P: Package, VS: VersionSet>(
    components: Seq<Seq<PackagePreference<P, VS>>>,
) -> Seq<Seq<PackagePreference<P, VS>>> {
    if components.len() == 0 {
        seq![Seq::empty()]
    } else {
        components
    }
}

/// What an observer is told of a factored enumeration: one search for preferences for each of the
/// components, or a single one where there are none, and nothing but the boundaries of its runs and
/// probes. A probe ends with an error only where that error is returned.
pub open spec fn tells_factors<DP: DependencyProvider, O: SolverObserver<DP::P, DP::VS, DP::M>>(
    dp: DP,
    root: Key<DP>,
    version: VersionOf<DP>,
    components: Seq<Seq<PackagePreference<DP::P, DP::VS>>>,
    before: Seq<Observed<Key<DP>, VersionOf<DP>>>,
    after: Seq<Observed<Key<DP>, VersionOf<DP>>>,
    r: Result<FactoredPreferenceSolutions<DP::P, DP::VS>, PubGrubError<DP>>,
) -> bool {
    let searched = searched_components(components);
    &&& match r {
        Ok(_) => {
            &&& tells_components(dp, root, version, searched, before, after)
            &&& observer::narrates::<DP::P, DP::VS, DP::M, O>(before, after, searched.len(), 0)
        },
        Err(error) => tells_components_until(
            dp,
            root,
            version,
            searched,
            before,
            after,
            error,
        ),
    }
    &&& tells_some::<DP, O>(before, after, searched.len())
    &&& observer::only_boundaries(before, after)
    &&& r is Ok || !r->Err_0.raised_by(dp) ==> observer::no_probe_failed(before, after)
}

/// Factored preference enumeration with observer events for all feasibility work.
pub fn resolve_factored_preference_solutions_with_observer<
    DP: DependencyProvider,
    O: SolverObserver<DP::P, DP::VS, DP::M>,
>(
    dependency_provider: &DP,
    package: DP::P,
    version: VersionOf<DP>,
    preference_components: Vec<Vec<PackagePreference<DP::P, DP::VS>>>,
    observer: &mut O,
) -> (r: Result<FactoredPreferenceSolutions<DP::P, DP::VS>, PubGrubError<DP>>)
    ensures
        tells_factors::<DP, O>(
            *dependency_provider,
            package@,
            version,
            factored::usable_components(package@, preference_components@),
            old(observer).log(),
            final(observer).log(),
            r,
        ),
        factorized(
            *dependency_provider,
            package@,
            version,
            factored::usable_components(package@, preference_components@),
            r,
        ),
{
    let ghost dp = *dependency_provider;
    let ghost root = package@;
    let ghost log = observer.log();
    let ghost wanted = factored::usable_components(root, preference_components@);
    let components = select_components(&package, preference_components);
    let mut common: Vec<PreferenceDecision<DP::P, DP::VS>> = Vec::new();
    let mut factors: Vec<PreferenceFactor<DP::P, DP::VS>> = Vec::new();
    let ghost mut fronts: Seq<Seq<Seq<bool>>> = Seq::empty();
    proof {
        observer::lemma_leads_nowhere::<DP::P, DP::VS, DP::M, O>(log);
        assert(preference::decided(common@) =~= Seq::empty());
        assert(preference::factored(factors@) =~= Seq::empty());
        lemma_usable_components(root, preference_components@);
    }
    if components.len() == 0 {
        let none: Vec<PackagePreference<DP::P, DP::VS>> = Vec::new();
        let result = enumerate_maximal_preference_satisfactions(
            dependency_provider,
            &package,
            &version,
            &none,
            observer,
        );
        proof {
            lemma_first_chapter::<DP, O>(log, observer.log());
            assert(tells_some::<DP, O>(log, observer.log(), 1));
            assert(observer::narrates::<DP::P, DP::VS, DP::M, O>(log, observer.log(), 1, 0));
            assert(wanted.len() == 0);
            assert(none@ =~= Seq::empty());
            lemma_component_told(
                dp,
                root,
                version,
                searched_components(wanted),
                0,
                log,
                log,
                observer.log(),
                attempts::outcome(result),
            );
            let all = searched_components(wanted);
            assert(all.take(1) =~= all);
        }
        if let Err(error) = result {
            return Err(error);
        }
        proof {
            assert(factored::contents(components@) =~= Seq::empty());
            assert(factored::are_fronts(dp, root, version, wanted, fronts));
        }
        return Ok(FactoredPreferenceSolutions::new(common, factors));
    }
    let mut i: usize = 0;
    while i < components.len()
        invariant
            dp == *dependency_provider,
            root == package@,
            log == old(observer).log(),
            observer::narrates::<DP::P, DP::VS, DP::M, O>(log, observer.log(), i as nat, 0),
            i > 0 ==> tells_some::<DP, O>(log, observer.log(), wanted.len()),
            tells_components(dp, root, version, wanted.take(i as int), log, observer.log()),
            observer::only_boundaries(log, observer.log()),
            observer::no_probe_failed(log, observer.log()),
            i > 0 ==> error::may_go_on(dp),
            wanted == factored::contents(components@),
            wanted == factored::usable_components(root, preference_components@),
            wanted.len() > 0,
            forall|j: int, m: int|
                0 <= j < wanted.len() && 0 <= m < wanted[j].len() ==> preference::usable(
                    root,
                    #[trigger] wanted[j][m],
                ),
            i <= components@.len(),
            fronts.len() == i,
            i > 0 ==> problem::solvable(dp, root, version),
            forall|j: int|
                0 <= j < fronts.len() ==> {
                    &&& (#[trigger] fronts[j]).len() > 0
                    &&& front::is_front(
                        front::preservable(dp, root, version, wanted[j]),
                        fronts[j],
                    )
                },
            preference::decided(common@) == factored::common_of(wanted, fronts, i as int),
            preference::factored(factors@) == factored::factors_of(wanted, fronts, i as int),
            preference::branching(preference::factored(factors@)),
        decreases components@.len() - i,
    {
        let ghost told = observer.log();
        let preferences = &components[i];
        assert(wanted[i as int] == preferences@);
        assert forall|m: int| 0 <= m < preferences@.len() implies preference::usable(
            root,
            #[trigger] preferences@[m],
        ) by {
            assert(wanted[i as int][m] == preferences@[m]);
        }
        let result = enumerate_maximal_preference_satisfactions(
            dependency_provider,
            &package,
            &version,
            preferences,
            observer,
        );
        proof {
            let runs = choose|runs: u64|
                runs >= 1 && #[trigger] observer::reports::<DP::P, DP::VS, DP::M, O>(
                    told,
                    observer.log(),
                    runs,
                    0,
                );
            observer::lemma_narrates_chain::<DP::P, DP::VS, DP::M, O>(
                log,
                told,
                observer.log(),
                i as nat,
                0,
                runs,
                0,
            );
            assert(tells_some::<DP, O>(log, observer.log(), wanted.len())) by {
                assert(observer::narrates::<DP::P, DP::VS, DP::M, O>(
                    log,
                    observer.log(),
                    (i + 1) as nat,
                    0,
                ));
                assert(1 <= (i + 1) as nat <= wanted.len());
            }
            observer::lemma_leads_prefix::<DP::P, DP::VS, DP::M, O>(
                told,
                observer.log(),
                observer::idle(0),
                observer::idle(runs),
                0,
            );
            assert forall|m: int| log.len() <= m < observer.log().len() implies
                observer::is_boundary(#[trigger] observer.log()[m])
                && !(observer.log()[m] is Solution) by {
                if m < told.len() {
                    assert(told[m] == observer.log().subrange(0, told.len() as int)[m]);
                    assert(told[m] == observer.log()[m]);
                }
            }
            if result is Ok || !result->Err_0.raised_by(dp) {
                maximal::lemma_no_failure(log, told, observer.log());
            }
            lemma_component_told(
                dp,
                root,
                version,
                wanted,
                i as int,
                log,
                told,
                observer.log(),
                attempts::outcome(result),
            );
        }
        let satisfactions = match result {
            Ok(satisfactions) => satisfactions,
            Err(error) => {
                return Err(error);
            },
        };
        let ghost front = front::masks(satisfactions@);
        let ghost earlier = fronts;
        let ghost common_before = common@;
        let ghost factors_before = factors@;
        let (mut agreed, alternatives) = split_front(preferences, &satisfactions);
        let ghost agreed_list = agreed@;
        common.append(&mut agreed);
        let many = alternatives.len() > 1;
        let ghost choices = preference::choices(alternatives@);
        assert(choices.len() == front.len());
        assert(choices == factored::alternatives_of(wanted[i as int], front));
        if many {
            factors.push(PreferenceFactor::new(alternatives));
        }
        proof {
            fronts = fronts.push(front);
            lemma_same_fronts(wanted, earlier, fronts, i as int);
            assert(fronts[i as int] == front);
            assert(preference::decided(common@) =~= preference::decided(common_before)
                + preference::decided(agreed_list));
            if many {
                assert(preference::factored(factors@) =~= preference::factored(
                    factors_before,
                ).push(choices));
            }
            assert forall|j: int| 0 <= j < fronts.len() implies {
                &&& (#[trigger] fronts[j]).len() > 0
                &&& front::is_front(front::preservable(dp, root, version, wanted[j]), fronts[j])
            } by {
                if j < i {
                    assert(fronts[j] == earlier[j]);
                }
            }
            assert(preference::branching(preference::factored(factors@))) by {
                assert forall|j: int| 0 <= j < preference::factored(factors@).len() implies (
                #[trigger] preference::factored(factors@)[j]).len() >= 2 by {
                    if j < preference::factored(factors_before).len() {
                        assert(preference::factored(factors@)[j] == preference::factored(
                            factors_before,
                        )[j]);
                    }
                }
            }
        }
        i += 1;
    }
    proof {
        assert(factored::are_fronts(dp, root, version, wanted, fronts));
        assert(observer::narrates::<DP::P, DP::VS, DP::M, O>(log, observer.log(), i as nat, 0));
        assert(wanted.take(i as int) =~= wanted);
    }
    Ok(FactoredPreferenceSolutions::new(common, factors))
}

/// The search for one component more.
proof fn lemma_component_told<DP: DependencyProvider>(
    dp: DP,
    root: Key<DP>,
    version: VersionOf<DP>,
    components: Seq<Seq<PackagePreference<DP::P, DP::VS>>>,
    n: int,
    log: Seq<Observed<Key<DP>, VersionOf<DP>>>,
    told: Seq<Observed<Key<DP>, VersionOf<DP>>>,
    after: Seq<Observed<Key<DP>, VersionOf<DP>>>,
    r: Result<(), PubGrubError<DP>>,
)
    requires
        0 <= n < components.len(),
        tells_components(dp, root, version, components.take(n), log, told),
        attempts::tells_each::<DP>(dp, root, version, components[n], told, after, r),
    ensures
        match r {
            Ok(_) => tells_components(dp, root, version, components.take(n + 1), log, after),
            Err(error) => tells_components_until(
                dp,
                root,
                version,
                components,
                log,
                after,
                error,
            ),
        },
{
    match r {
        Ok(done) => {
            let more = components.take(n + 1);
            assert(more.drop_last() =~= components.take(n));
            assert(more.last() == components[n]);
            assert(Ok::<(), PubGrubError<DP>>(done) == Ok::<(), PubGrubError<DP>>(()));
        },
        Err(_) => {},
    }
}

proof fn lemma_usable_components<P: Package, VS: VersionSet>(
    root: P::V,
    components: Seq<Vec<PackagePreference<P, VS>>>,
)
    ensures
        forall|j: int, m: int|
            0 <= j < factored::usable_components(root, components).len() && 0 <= m
                < factored::usable_components(root, components)[j].len() ==> preference::usable(
                root,
                #[trigger] factored::usable_components(root, components)[j][m],
            ),
    decreases components.len(),
{
    if components.len() > 0 {
        let before = factored::usable_components(root, components.drop_last());
        let all = factored::usable_components(root, components);
        lemma_usable_components(root, components.drop_last());
        lemma_usable_among(root, components.last()@);
        assert forall|j: int, m: int|
            0 <= j < all.len() && 0 <= m < all[j].len() implies preference::usable(
            root,
            #[trigger] all[j][m],
        ) by {
            if j < before.len() {
                assert(all[j] == before[j]);
            } else {
                assert(all[j] == usable_among(root, components.last()@));
            }
        }
    }
}

/// What is made of the first fronts depends on them alone.
proof fn lemma_same_fronts<P: Package, VS: VersionSet>(
    components: Seq<Seq<PackagePreference<P, VS>>>,
    a: Seq<Seq<Seq<bool>>>,
    b: Seq<Seq<Seq<bool>>>,
    n: int,
)
    requires
        n <= a.len(),
        n <= b.len(),
        forall|i: int| 0 <= i < n ==> a[i] == b[i],
    ensures
        factored::common_of(components, a, n) == factored::common_of(components, b, n),
        factored::factors_of(components, a, n) == factored::factors_of(components, b, n),
    decreases n,
{
    if n > 0 {
        lemma_same_fronts(components, a, b, n - 1);
    }
}

} // verus!
