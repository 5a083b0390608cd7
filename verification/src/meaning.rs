//! What the words mean that the other statements are made of.

use vstd::prelude::*;

use crate::attempts;
use crate::attempts::Attempt;
use crate::error::PubGrubError;
use crate::front;
use crate::machine;
use crate::maximal;
use crate::observer;
use crate::observer::{Cause, MaximalityProbeResult, Observed, SolverEvent, SolverObserver};
use crate::offline::OfflineDependencyProvider;
use crate::package;
use crate::package::Package;
use crate::path;
use crate::preference;
use crate::preference::{PackagePreference, PreferenceDecision};
use crate::priority;
use crate::problem;
use crate::problem::{Key, Selection, VersionOf};
use crate::provider;
use crate::provider::{
    Dependencies, DependencyProvider, IncompatibilityConstraint, IncompatibilityConstraintTerm,
};
use crate::report;
use crate::report::{Derived, DerivationTree, External};
use crate::run;
use crate::search;
use crate::selected::{MaximalSolutions, SelectedDependencies};
use crate::solver;
use crate::statistics::PackageResolutionStatistics;
use crate::term;
use crate::term::Term;
use crate::trace;
use crate::tracker;
use crate::tracker::Counts;
use crate::version_set::VersionSet;

verus! {

/// A positive term holds of a package that is selected at a version in its set, and a negative one of
/// every other state, absence included.
pub proof fn term_holds_of_its_states<VS: VersionSet>(t: Term<VS>, v: VS::V)
    ensures
        t@.contains(Some(v)) <==> match t {
            Term::Positive(set) => set@.contains(v),
            Term::Negative(set) => !set@.contains(v),
        },
        t@.contains(None) <==> t is Negative,
{
}

/// The clause that terms make up speaks of their packages and states, in their order.
pub proof fn clause_speaks_of_its_terms<P: Package, VS: VersionSet>(
    terms: Seq<(P, Term<VS>)>,
    i: int,
)
    requires
        0 <= i < terms.len(),
    ensures
        term::parts(terms).len() == terms.len(),
        term::parts(terms)[i].0 == terms[i].0@,
        term::parts(terms)[i].1 == terms[i].1@,
{
}

/// What is required is what the provider lists: nothing where it has no answer, and else every
/// package with its versions, in the order of the list.
pub proof fn requirements_are_what_is_listed<P: Package, VS: VersionSet, M>(
    dependencies: Dependencies<P, VS, M>,
    i: int,
)
    ensures
        dependencies.requirements() is None <==> dependencies is Unavailable,
        dependencies matches Dependencies::Available(list) ==> {
            let requirements = dependencies.requirements()->0;
            &&& requirements.len() == list@.len()
            &&& 0 <= i < list@.len() ==> requirements[i].0 == list@[i].0@ && requirements[i].1
                == list@[i].1@
        },
{
}

/// A declared incompatibility speaks of its terms in their order: a positive one holds of a package
/// selected at a version in the range, and a negative one of every other state.
pub proof fn conflict_speaks_of_its_terms<P: Package, VS: VersionSet, M>(
    constraints: Seq<IncompatibilityConstraint<P, VS, M>>,
    c: int,
    i: int,
    v: VS::V,
)
    requires
        0 <= c < constraints.len(),
        0 <= i < constraints[c].terms@.len(),
    ensures
        provider::clauses(constraints).len() == constraints.len(),
        provider::clauses(constraints)[c].len() == constraints[c].terms@.len(),
        match constraints[c].terms@[i] {
            IncompatibilityConstraintTerm::Positive(p, set) => {
                let part = provider::clauses(constraints)[c][i];
                &&& part.0 == p@
                &&& part.1.contains(Some(v)) <==> set@.contains(v)
                &&& !part.1.contains(None)
            },
            IncompatibilityConstraintTerm::Negative(p, set) => {
                let part = provider::clauses(constraints)[c][i];
                &&& part.0 == p@
                &&& part.1.contains(Some(v)) <==> !set@.contains(v)
                &&& part.1.contains(None)
            },
        },
{
}

/// Every conflict counts: one that affects a package, or whose cause speaks of it, makes the sum of its
/// counts one more, unless a count is at its limit, and another one leaves all of them alone. What is
/// counted is told apart by whether the package was affected and where the conflict was met.
pub proof fn every_conflict_counts(
    counts: Counts,
    affected: bool,
    involved: bool,
    in_propagation: bool,
)
    requires
        counts.0 < u32::MAX,
        counts.1 < u32::MAX,
        counts.2 < u32::MAX,
        counts.3 < u32::MAX,
    ensures
        ({
            let after = tracker::after_conflict(counts, affected, involved, in_propagation);
            &&& after.0 == counts.0 + if affected && in_propagation {
                1int
            } else {
                0int
            }
            &&& after.1 == counts.1 + if !affected && involved && in_propagation {
                1int
            } else {
                0int
            }
            &&& after.2 == counts.2 + if affected && !in_propagation {
                1int
            } else {
                0int
            }
            &&& after.3 == counts.3 + if !affected && involved && !in_propagation {
                1int
            } else {
                0int
            }
        }),
{
}

/// The number of conflicts of a package is the sum of its four counts.
pub proof fn conflicts_are_the_sum_of_the_counts(statistics: PackageResolutionStatistics)
    ensures
        statistics.total() == statistics.counts().0 + statistics.counts().1
            + statistics.counts().2 + statistics.counts().3,
{
}

/// An offline provider ranks packages with more conflicts above others, among those with equally many
/// the ones with fewer versions in the range, and above all of them those without any.
pub proof fn offline_provider_ranks_conflicts_first<P: Package, VS: VersionSet>(
    provider: OfflineDependencyProvider<P, VS>,
    a: P::V,
    range: Set<VS::V>,
    counts: Counts,
    b: P::V,
    other_range: Set<VS::V>,
    other_counts: Counts,
)
    ensures
        ({
            let offered = Set::new(
                |v: VS::V| range.contains(v) && provider@.dom().contains((a, v)),
            ).len();
            let other_offered = Set::new(
                |v: VS::V| other_range.contains(v) && provider@.dom().contains((b, v)),
            ).len();
            let conflicts = counts.0 + counts.1 + counts.2 + counts.3;
            let other_conflicts = other_counts.0 + other_counts.1 + other_counts.2 + other_counts.3;
            let above = priority::is_higher(
                provider.priority(a, range, counts),
                provider.priority(b, other_range, other_counts),
            );
            other_offered <= usize::MAX && offered <= usize::MAX && other_offered > 0 ==> {
                &&& offered == 0 ==> above
                &&& offered > 0 && other_conflicts < conflicts <= u32::MAX ==> above
                &&& offered > 0 && conflicts == other_conflicts && conflicts <= u32::MAX ==> (above
                    <==> offered < other_offered)
                &&& offered > 0 && conflicts < other_conflicts <= u32::MAX ==> !above
            }
        }),
{
    priority::pairs_are_ordered();
    assert(provider.versions_in(a, range) =~= Set::new(
        |v: VS::V| range.contains(v) && provider@.dom().contains((a, v)),
    ));
    assert(provider.versions_in(b, other_range) =~= Set::new(
        |v: VS::V| other_range.contains(v) && provider@.dom().contains((b, v)),
    ));
}

/// An observer is told what is in the event: its packages, versions and sets of versions, its levels,
/// and its number or outcome.
pub proof fn events_are_told_as_they_are<'a, P: Package, VS: VersionSet, M>(
    event: SolverEvent<'a, P, VS, M>,
)
    ensures
        match event {
            SolverEvent::PackageChoice { package, allowed } => event.observed()
                == Observed::<P::V, VS::V>::PackageChoice(package@, allowed@),
            SolverEvent::VersionChoice { package, version, allowed } => event.observed()
                == Observed::<P::V, VS::V>::VersionChoice(package@, *version, allowed@),
            SolverEvent::Decision { package, version, decision_level } => event.observed()
                == Observed::<P::V, VS::V>::Decision(package@, *version, decision_level),
            SolverEvent::NoVersion { package, allowed } => event.observed()
                == Observed::<P::V, VS::V>::NoVersion(package@, allowed@),
            SolverEvent::Derivation { package, previous, current, cause } => {
                &&& event.observed() is Derivation
                &&& event.observed()->Derivation_0 == package@
                &&& event.observed()->Derivation_1 is Some <==> previous is Some
                &&& previous is Some ==> event.observed()->Derivation_1->0 == previous->0@
                &&& event.observed()->Derivation_2 == current@
                &&& event.observed()->Derivation_3 == cause.told()
            },
            SolverEvent::Conflict { cause } => event.observed() == Observed::<
                P::V,
                VS::V,
            >::Conflict(cause.told()),
            SolverEvent::Backtrack { from_level, to_level, cause } => event.observed()
                == Observed::<P::V, VS::V>::Backtrack(from_level, to_level, cause.told()),
            SolverEvent::Solution => event.observed() == Observed::<P::V, VS::V>::Solution,
            SolverEvent::EnumerationRunStarted { run } => event.observed() == Observed::<
                P::V,
                VS::V,
            >::EnumerationRunStarted(run),
            SolverEvent::EnumerationRunFinished { run } => event.observed() == Observed::<
                P::V,
                VS::V,
            >::EnumerationRunFinished(run),
            SolverEvent::MaximalityProbeStarted { package } => event.observed() == Observed::<
                P::V,
                VS::V,
            >::MaximalityProbeStarted(package@),
            SolverEvent::MaximalityProbeFinished { package, result } => event.observed()
                == Observed::<P::V, VS::V>::MaximalityProbeFinished(package@, result),
            SolverEvent::PreferenceProbeStarted { package } => event.observed() == Observed::<
                P::V,
                VS::V,
            >::PreferenceProbeStarted(package@),
            SolverEvent::PreferenceProbeFinished { package, result } => event.observed()
                == Observed::<P::V, VS::V>::PreferenceProbeFinished(package@, result),
        },
{
}

/// Packages are compared in the order in which they were given: of two of them, the one that was given
/// first comes first.
pub proof fn packages_are_compared_in_the_given_order<K>(
    root: K,
    packages: Seq<K>,
    a: int,
    b: int,
    i: int,
)
    requires
        0 <= a < b < maximal::projection_of(root, packages).len(),
        0 <= i < packages.len(),
        packages[i] == maximal::projection_of(root, packages)[b],
    ensures
        exists|j: int|
            0 <= j < i && (#[trigger] packages[j]) == maximal::projection_of(root, packages)[a],
    decreases packages.len(),
{
    let init = packages.drop_last();
    let before = maximal::projection_of(root, init);
    let after = maximal::projection_of(root, packages);
    maximal::projection_holds_every_other_package_once(root, init);
    if b < before.len() {
        assert(before.contains(before[b]));
        assert(init.contains(before[b]));
        let m = choose|m: int| 0 <= m < init.len() && init[m] == before[b];
        if i < init.len() {
            packages_are_compared_in_the_given_order(root, init, a, b, i);
            let j = choose|j: int| 0 <= j < i && (#[trigger] init[j]) == before[a];
            assert(packages[j] == after[a]);
        } else {
            packages_are_compared_in_the_given_order(root, init, a, b, m);
            let j = choose|j: int| 0 <= j < m && (#[trigger] init[j]) == before[a];
            assert(packages[j] == after[a]);
        }
    } else {
        assert(after == before.push(packages.last()));
        assert(before.contains(before[a]));
        assert(init.contains(before[a]));
        let j = choose|j: int| 0 <= j < init.len() && init[j] == before[a];
        assert(packages[j] == after[a]);
        if i < init.len() {
            assert(init[i] == packages[i]);
            assert(init.contains(packages[i]));
            assert(packages[i] != root);
            assert(before.contains(packages[i]));
        }
    }
}

/// There is one assignment without factors, and a factor more makes as many assignments of each as it
/// has alternatives.
pub proof fn every_factor_multiplies_the_assignments<T>(factors: Seq<Seq<T>>, more: Seq<T>)
    ensures
        preference::product(Seq::<Seq<T>>::empty()) == 1,
        preference::product(factors.push(more)) == preference::product(factors) * more.len(),
{
    assert(factors.push(more).drop_last() =~= factors);
}

/// An assignment holds, behind what is decided for the factors before, the whole alternative that was
/// selected of each factor.
pub proof fn assignment_holds_the_selected_alternatives<T>(
    factors: Seq<Seq<Seq<T>>>,
    more: Seq<Seq<T>>,
    selected: Seq<usize>,
)
    ensures
        preference::picked(Seq::<Seq<Seq<T>>>::empty(), selected).len() == 0,
        preference::picked(factors.push(more), selected) == preference::picked(factors, selected)
            + more[selected[factors.len() as int] as int],
{
    assert(factors.push(more).drop_last() =~= factors);
}

/// What is decided is told with the package, its preferred states and the truth value.
pub proof fn decisions_are_told_as_they_are<P: Package, VS: VersionSet>(
    decisions: Seq<PreferenceDecision<P, VS>>,
    i: int,
)
    requires
        0 <= i < decisions.len(),
    ensures
        preference::decided(decisions).len() == decisions.len(),
        preference::decided(decisions)[i].0 == decisions[i].key(),
        preference::decided(decisions)[i].1 == decisions[i].states(),
        preference::decided(decisions)[i].2 == decisions[i].satisfied(),
{
}

proof fn lemma_lost_push(kept: Seq<bool>, n: int)
    requires
        0 <= n <= kept.len() <= usize::MAX,
    ensures
        front::lost(kept).len() >= front::lost(kept.take(n)).len(),
        forall|j: int|
            0 <= j < front::lost(kept.take(n)).len() ==> front::lost(kept)[j]
                == #[trigger] front::lost(kept.take(n))[j],
        forall|j: int|
            front::lost(kept.take(n)).len() <= j < front::lost(kept).len() ==> n
                <= #[trigger] front::lost(kept)[j] < kept.len() && !kept[front::lost(
                kept,
            )[j] as int],
    decreases kept.len(),
{
    if n == kept.len() {
        assert(kept.take(n) =~= kept);
    } else {
        let before = kept.drop_last();
        lemma_lost_push(before, n);
        assert(before.take(n) =~= kept.take(n));
        assert forall|j: int|
            front::lost(kept.take(n)).len() <= j < front::lost(kept).len() implies n
            <= #[trigger] front::lost(kept)[j] < kept.len() && !kept[front::lost(
            kept,
        )[j] as int] by {
            if j < front::lost(before).len() {
                assert(front::lost(kept)[j] == front::lost(before)[j]);
                assert(!before[front::lost(before)[j] as int]);
            }
        }
    }
}

proof fn lemma_precedes_after(a: Seq<usize>, b: Seq<usize>, n: int)
    requires
        0 <= n <= a.len(),
        n <= b.len(),
        forall|j: int| 0 <= j < n ==> a[j] == b[j],
        front::precedes(a, b),
    ensures
        n < b.len(),
        n < a.len() ==> a[n] <= b[n],
    decreases n,
{
    if n > 0 {
        lemma_precedes_after(a.skip(1), b.skip(1), n - 1);
    }
}

/// Maximal combinations of preferences come in the order of what they give up: of two of them, at the
/// first preference on which they differ, the earlier one gives it up and the later one preserves it.
pub proof fn earlier_preferences_are_given_up_first(
    good: spec_fn(Seq<bool>) -> bool,
    fronts: Seq<Seq<bool>>,
    a: int,
    b: int,
    d: int,
)
    requires
        front::is_front(good, fronts),
        0 <= a < b < fronts.len(),
        fronts[a].len() == fronts[b].len(),
        fronts[a].len() <= usize::MAX,
        0 <= d < fronts[a].len(),
        forall|i: int| 0 <= i < d ==> #[trigger] fronts[a][i] == fronts[b][i],
        fronts[a][d] != fronts[b][d],
    ensures
        !fronts[a][d] && fronts[b][d],
{
    let x = fronts[a];
    let y = fronts[b];
    assert(front::precedes(front::lost(x), front::lost(y)));
    assert(x.take(d) =~= y.take(d)) by {
        assert forall|i: int| 0 <= i < d implies x.take(d)[i] == y.take(d)[i] by {
            assert(fronts[a][i] == fronts[b][i]);
        }
    }
    let n = front::lost(x.take(d)).len() as int;
    lemma_lost_push(x, d);
    lemma_lost_push(y, d);
    lemma_lost_push(x, d + 1);
    lemma_lost_push(y, d + 1);
    assert(x.take(d + 1).drop_last() =~= x.take(d));
    assert(y.take(d + 1).drop_last() =~= y.take(d));
    if x[d] {
        let p = front::lost(x);
        let q = front::lost(y);
        assert forall|j: int| 0 <= j < n implies p[j] == q[j] by {
            assert(p[j] == front::lost(x.take(d))[j]);
            assert(q[j] == front::lost(y.take(d))[j]);
        }
        lemma_precedes_after(p, q, n);
        assert(q[n] == d) by {
            assert(front::lost(y.take(d + 1))[n] == d as usize);
        }
        if n < p.len() {
            assert(p[n] >= d + 1);
        } else {
            assert(front::includes(x, y)) by {
                assert forall|i: int| 0 <= i < y.len() && #[trigger] y[i] implies x[i] by {
                    if !x[i] {
                        if i < d {
                            assert(fronts[a][i] == fronts[b][i]);
                        } else {
                            front::lemma_lost(x);
                            assert(p.contains(i as usize));
                            let j = choose|j: int| 0 <= j < p.len() && p[j] == i as usize;
                            assert(p[j] == front::lost(x.take(d))[j]);
                            lemma_lost_push(x.take(d), 0);
                            assert(x.take(d).take(0) =~= Seq::empty());
                            assert(front::lost(x.take(d))[j] < d);
                        }
                    }
                }
            }
            assert(fronts.contains(x) && fronts.contains(y));
            assert(front::maximal(good, y) && front::maximal(good, x));
        }
    }
}

proof fn lemma_staged<K, V>(start: int, log: Seq<Observed<K, V>>, n: int, i: int)
    requires
        0 <= start <= i <= n <= log.len(),
        observer::stage_after(observer::idle(0), start, log.take(n)) is Some,
    ensures
        observer::stage_after(observer::idle(0), start, log.take(i)) is Some,
    decreases n,
{
    if i < n {
        assert(log.take(n).drop_last() =~= log.take(n - 1));
        lemma_staged(start, log, n - 1, i);
    }
}

/// The number of the run at the place is that of the last one that started.
proof fn lemma_run_under_way<K, V>(start: int, log: Seq<Observed<K, V>>, i: int, j: int)
    requires
        0 <= start <= i <= log.len(),
        observer::stage_after(observer::idle(0), start, log.take(i)) is Some,
        start <= j < i ==> log[j] is EnumerationRunStarted,
        start - 1 <= j < i || i == start,
        forall|m: int| start <= m < i && m > j ==> !((#[trigger] log[m]) is EnumerationRunStarted),
    ensures
        observer::stage_after(observer::idle(0), start, log.take(i))->0.run == if start <= j < i {
            log[j]->EnumerationRunStarted_0
        } else {
            0
        },
    decreases i,
{
    if i > start {
        assert(log.take(i).drop_last() =~= log.take(i - 1));
        assert(log.take(i).last() == log[i - 1]);
        lemma_staged(start, log, i, i - 1);
        if j < i - 1 {
            lemma_run_under_way(start, log, i - 1, j);
            assert(!(log[i - 1] is EnumerationRunStarted));
        }
    }
}

/// The runs of an enumeration are told with their numbers: the first one is number one, each later one
/// has the next number, and a run ends with the number with which it started.
pub proof fn runs_are_numbered_from_one_on<
    DP: DependencyProvider,
    O: SolverObserver<DP::P, DP::VS, DP::M>,
>(
    dp: DP,
    root: Key<DP>,
    version: VersionOf<DP>,
    projection: Seq<Key<DP>>,
    before: Seq<Observed<Key<DP>, VersionOf<DP>>>,
    after: Seq<Observed<Key<DP>, VersionOf<DP>>>,
    r: Result<MaximalSolutions<DP::P, VersionOf<DP>>, PubGrubError<DP>>,
    i: int,
)
    requires
        maximal::tells_enumeration::<DP, O>(dp, root, version, projection, before, after, r),
        before.len() <= i < after.len(),
    ensures
        after[i] is EnumerationRunStarted && (forall|m: int|
            before.len() <= m < i ==> !((#[trigger] after[m]) is EnumerationRunStarted))
            ==> after[i]->EnumerationRunStarted_0 == 1,
        forall|j: int|
            before.len() <= j < i && (#[trigger] after[j]) is EnumerationRunStarted && (forall|m: int|
                j < m < i ==> !((#[trigger] after[m]) is EnumerationRunStarted)) ==> {
                let run = after[j]->EnumerationRunStarted_0;
                &&& after[i] is EnumerationRunStarted && run < u64::MAX
                    ==> after[i]->EnumerationRunStarted_0 == run + 1
                &&& after[i] is EnumerationRunFinished ==> after[i]->EnumerationRunFinished_0 == run
            },
{
    reveal(observer::leads);
    let start = before.len() as int;
    assert(observer::stage_after(observer::idle(0), start, after) is Some);
    assert(after.take(after.len() as int) =~= after);
    lemma_staged(start, after, after.len() as int, i);
    lemma_staged(start, after, after.len() as int, i + 1);
    assert(after.take(i + 1).drop_last() =~= after.take(i));
    assert(after.take(i + 1).last() == after[i]);
    if forall|m: int| start <= m < i ==> !((#[trigger] after[m]) is EnumerationRunStarted) {
        lemma_run_under_way(start, after, i, start - 1);
    }
    assert forall|j: int|
        start <= j < i && (#[trigger] after[j]) is EnumerationRunStarted && (forall|m: int|
            j < m < i ==> !((#[trigger] after[m]) is EnumerationRunStarted)) implies {
        let run = after[j]->EnumerationRunStarted_0;
        &&& after[i] is EnumerationRunStarted && run < u64::MAX
            ==> after[i]->EnumerationRunStarted_0 == run + 1
        &&& after[i] is EnumerationRunFinished ==> after[i]->EnumerationRunFinished_0 == run
    } by {
        lemma_run_under_way(start, after, i, j);
    }
}

/// The package that is chosen leads the pending ones: nothing pending has a higher priority, and where
/// priorities are ranked in classes, it stands above every one that was narrowed before it.
pub proof fn first_of_the_highest_leads<K>(higher: spec_fn(K, K) -> bool, list: Seq<K>, n: int)
    requires
        0 < n <= list.len(),
        forall|a: K| !#[trigger] higher(a, a),
        forall|a: K, b: K, c: K| #[trigger]
            higher(a, b) && #[trigger] higher(b, c) ==> higher(a, c),
    ensures
        0 <= machine::leader(higher, list, n) < n,
        forall|j: int|
            0 <= j < n ==> !#[trigger] higher(list[j], list[machine::leader(higher, list, n)]),
        (forall|a: K, b: K, c: K| #[trigger]
            higher(a, c) ==> #[trigger] higher(a, b) || higher(b, c)) ==> forall|j: int|
            0 <= j < machine::leader(higher, list, n) ==> #[trigger] higher(
                list[machine::leader(higher, list, n)],
                list[j],
            ),
    decreases n,
{
    if n > 1 {
        first_of_the_highest_leads(higher, list, n - 1);
        let best = machine::leader(higher, list, n - 1);
        let new = list[n - 1];
        if higher(new, list[best]) {
            assert forall|j: int| 0 <= j < n implies !#[trigger] higher(list[j], new) by {
                if j < n - 1 && higher(list[j], new) {
                    assert(higher(list[j], list[best]));
                }
            }
            if forall|a: K, b: K, c: K| #[trigger]
                higher(a, c) ==> #[trigger] higher(a, b) || higher(b, c) {
                assert forall|j: int| 0 <= j < n - 1 implies #[trigger] higher(new, list[j]) by {
                    assert(higher(new, list[j]) || higher(list[j], list[best]));
                }
            }
        }
    }
}

/// A selection runs into a fact exactly where it has what the fact rules out: the root package at
/// another version or absent; a version that there is not; a version without what it depends on; a
/// version that cannot be used; or all the terms that must not hold together.
pub proof fn selection_runs_into_a_fact<P: Package, VS: VersionSet, M>(
    fact: External<P, VS, M>,
    s: Map<P::V, VS::V>,
)
    ensures
        DerivationTree::External(fact).refutes(s) <==> match fact {
            External::NotRoot(p, v) => s.get(p@) != Some(v),
            External::NoVersions(p, set) => s.dom().contains(p@) && set@.contains(s[p@]),
            External::FromDependencyOf(p, set, q, required) => s.dom().contains(p@) && set@.contains(
                s[p@],
            ) && !(s.dom().contains(q@) && required@.contains(s[q@])),
            External::Custom(p, set, _) => s.dom().contains(p@) && set@.contains(s[p@]),
            External::Incompatible { terms, .. } => forall|i: int|
                0 <= i < terms@.len() ==> (#[trigger] terms@[i]).1@.contains(s.get(terms@[i].0@)),
            External::ExcludedSolution { terms } => forall|i: int|
                0 <= i < terms@.len() ==> (#[trigger] terms@[i]).1@.contains(s.get(terms@[i].0@)),
        },
{
    let clause = fact.clause();
    match fact {
        External::NotRoot(p, v) => {
            assert(clause[0].1.contains(s.get(clause[0].0)) <==> s.get(p@) != Some(v));
        },
        External::NoVersions(p, set) => {
            assert(clause[0].1.contains(s.get(clause[0].0)) <==> s.dom().contains(p@)
                && set@.contains(s[p@]));
        },
        External::FromDependencyOf(p, set, q, required) => {
            assert(clause[0].1.contains(s.get(clause[0].0)) <==> s.dom().contains(p@)
                && set@.contains(s[p@]));
            assert(clause[1].1.contains(s.get(clause[1].0)) <==> !(s.dom().contains(q@)
                && required@.contains(s[q@])));
        },
        External::Custom(p, set, _) => {
            assert(clause[0].1.contains(s.get(clause[0].0)) <==> s.dom().contains(p@)
                && set@.contains(s[p@]));
        },
        External::Incompatible { terms, .. } => {
            lemma_terms_hold(terms@, s);
        },
        External::ExcludedSolution { terms } => {
            lemma_terms_hold(terms@, s);
        },
    }
}

proof fn lemma_terms_hold<P: Package, VS: VersionSet>(
    terms: Seq<(P, Term<VS>)>,
    s: Map<P::V, VS::V>,
)
    ensures
        search::violates(term::parts(terms), s) <==> forall|i: int|
            0 <= i < terms.len() ==> (#[trigger] terms[i]).1@.contains(s.get(terms[i].0@)),
{
    let clause = term::parts(terms);
    if search::violates(clause, s) {
        assert forall|i: int| 0 <= i < terms.len() implies (#[trigger] terms[i]).1@.contains(
            s.get(terms[i].0@),
        ) by {
            assert(clause[i].1.contains(s.get(clause[i].0)));
        }
    }
    if forall|i: int|
        0 <= i < terms.len() ==> (#[trigger] terms[i]).1@.contains(s.get(terms[i].0@)) {
        assert forall|i: int| 0 <= i < clause.len() implies (#[trigger] clause[i]).1.contains(
            s.get(clause[i].0),
        ) by {
            assert(terms[i].1@.contains(s.get(terms[i].0@)));
        }
    }
}

/// A conclusion rests on what its causes rest on: a selection runs into it, a package occurs in it or
/// is forced by it exactly where this is so of one of them.
pub proof fn conclusion_rests_on_its_causes<P: Package, VS: VersionSet, M>(
    derived: Derived<P, VS, M>,
    s: Map<P::V, VS::V>,
    k: P::V,
)
    ensures
        DerivationTree::Derived(derived).refutes(s) <==> derived.cause1.refutes(s)
            || derived.cause2.refutes(s),
        DerivationTree::Derived(derived).involves(k) <==> derived.cause1.involves(k)
            || derived.cause2.involves(k),
        DerivationTree::Derived(derived).forces(k) <==> derived.cause1.forces(k)
            || derived.cause2.forces(k),
{
}

/// The packages that occur in a fact are those that it names.
pub proof fn fact_involves_the_packages_that_it_names<P: Package, VS: VersionSet, M>(
    fact: External<P, VS, M>,
    k: P::V,
)
    ensures
        DerivationTree::External(fact).involves(k) <==> match fact {
            External::NotRoot(p, _) => p@ == k,
            External::NoVersions(p, _) => p@ == k,
            External::FromDependencyOf(p, _, q, _) => p@ == k || q@ == k,
            External::Custom(p, _, _) => p@ == k,
            External::Incompatible { terms, .. } => exists|i: int|
                0 <= i < terms@.len() && (#[trigger] terms@[i]).0@ == k,
            External::ExcludedSolution { terms } => exists|i: int|
                0 <= i < terms@.len() && (#[trigger] terms@[i]).0@ == k,
        },
        DerivationTree::External(fact).forces(k) ==> fact is ExcludedSolution,
        fact is ExcludedSolution ==> (DerivationTree::External(fact).forces(k)
            <==> DerivationTree::External(fact).involves(k)),
{
    let clause = fact.clause();
    match fact {
        External::NotRoot(p, v) => {
            assert(clause[0].0 == p@);
        },
        External::NoVersions(p, set) => {
            assert(clause[0].0 == p@);
        },
        External::FromDependencyOf(p, set, q, required) => {
            assert(clause[0].0 == p@ && clause[1].0 == q@);
        },
        External::Custom(p, set, _) => {
            assert(clause[0].0 == p@);
        },
        External::Incompatible { terms, .. } => {
            lemma_terms_mention(terms@, k);
        },
        External::ExcludedSolution { terms } => {
            lemma_terms_mention(terms@, k);
        },
    }
}

proof fn lemma_terms_mention<P: Package, VS: VersionSet>(terms: Seq<(P, Term<VS>)>, k: P::V)
    ensures
        search::mentions(term::parts(terms), k) <==> exists|i: int|
            0 <= i < terms.len() && (#[trigger] terms[i]).0@ == k,
{
    let clause = term::parts(terms);
    if search::mentions(clause, k) {
        let i = choose|i: int| 0 <= i < clause.len() && (#[trigger] clause[i]).0 == k;
        assert(terms[i].0@ == k);
    }
    if exists|i: int| 0 <= i < terms.len() && (#[trigger] terms[i]).0@ == k {
        let i = choose|i: int| 0 <= i < terms.len() && (#[trigger] terms[i]).0@ == k;
        assert(clause[i].0 == k);
    }
}

/// A failure is explained by what the provider states: the tree rests on the root package, on packages
/// without an offered version in a range, on requirements and incompatibilities of offered versions,
/// on offered versions that cannot be used, and on nothing else; and every selection of the root package
/// at its version runs into one of these.
pub proof fn failure_is_explained_by_the_provider<DP: DependencyProvider>(
    dp: DP,
    root: Key<DP>,
    version: VersionOf<DP>,
    r: Result<SelectedDependencies<DP::P, VersionOf<DP>>, PubGrubError<DP>>,
    s: Map<Key<DP>, VersionOf<DP>>,
)
    requires
        solver::resolved(dp, root, version, r),
        r is Err && r->Err_0 is NoSolution,
    ensures
        s.get(root) == Some(version) ==> r->Err_0->NoSolution_0.refutes(s),
        r->Err_0->NoSolution_0.rests_on(
            |fact: External<DP::P, DP::VS, DP::M>|
                match fact {
                    External::NotRoot(p, v) => p@ == root && v == version,
                    External::NoVersions(p, set) => forall|v: VersionOf<DP>|
                        #![trigger set@.contains(v)]
                        set@.contains(v) ==> !dp.offers(p@, v),
                    External::FromDependencyOf(p, set, q, required) => forall|v: VersionOf<DP>|
                        #![trigger set@.contains(v)]
                        set@.contains(v) ==> dp.offers(p@, v) && dp.requirements(p@, v) is Some
                            && dp.requirements(p@, v)->0.contains((q@, required@)),
                    External::Custom(p, set, _) => forall|v: VersionOf<DP>|
                        #![trigger set@.contains(v)]
                        set@.contains(v) ==> dp.offers(p@, v) && dp.requirements(p@, v) is None,
                    External::Incompatible { terms, .. } => exists|
                        k: Key<DP>,
                        v: VersionOf<DP>,
                        i: int,
                    |
                        0 <= i < dp.conflicts(k, v).len() && dp.offers(k, v) && terms@.len()
                            == (#[trigger] dp.conflicts(k, v)[i]).len() + 1,
                    External::ExcludedSolution { .. } => false,
                },
        ),
{
    let tree = r->Err_0->NoSolution_0;
    let fact = problem::facts(dp, root, version, Seq::empty());
    let wider = |fact: External<DP::P, DP::VS, DP::M>|
        match fact {
            External::NotRoot(p, v) => p@ == root && v == version,
            External::NoVersions(p, set) => forall|v: VersionOf<DP>|
                        #![trigger set@.contains(v)]
                        set@.contains(v) ==> !dp.offers(p@, v),
            External::FromDependencyOf(p, set, q, required) => forall|v: VersionOf<DP>|
                        #![trigger set@.contains(v)]
                        set@.contains(v) ==> dp.offers(p@, v) && dp.requirements(p@, v) is Some
                    && dp.requirements(p@, v)->0.contains((q@, required@)),
            External::Custom(p, set, _) => forall|v: VersionOf<DP>|
                        #![trigger set@.contains(v)]
                        set@.contains(v) ==> dp.offers(p@, v) && dp.requirements(p@, v) is None,
            External::Incompatible { terms, .. } => exists|
                k: Key<DP>,
                v: VersionOf<DP>,
                i: int,
            |
                0 <= i < dp.conflicts(k, v).len() && dp.offers(k, v) && terms@.len()
                    == (#[trigger] dp.conflicts(k, v)[i]).len() + 1,
            External::ExcludedSolution { .. } => false,
        };
    assert(r->Err_0.proves_no_solution(dp, root, version, Seq::empty()));
    assert forall|e: External<DP::P, DP::VS, DP::M>| #[trigger] fact(e) implies wider(e) by {
        assert(problem::is_fact(dp, root, version, Seq::empty(), e));
        if let External::Incompatible { terms, reason } = e {
            let (k, v, i) = choose|k: Key<DP>, v: VersionOf<DP>, i: int|
                0 <= i < dp.conflicts(k, v).len() && term::parts(terms@)
                    == problem::conflict_clause(k, v, #[trigger] dp.conflicts(k, v)[i])
                    && dp.offers(k, v) && problem::is_declared(
                    dp,
                    k,
                    v,
                    dp.conflicts(k, v)[i],
                    reason,
                );
            assert(term::parts(terms@).len() == dp.conflicts(k, v)[i].len() + 1);
            assert(wider(e));
        }
    }
    report::lemma_rests_on_wider(&*tree, fact, wider);
}

/// The pending packages are those that must be selected and are not decided, in the order in which they
/// were narrowed first: of two of them, some step about the one that is listed first comes before every
/// step about the other one.
pub proof fn pending_packages_are_listed_as_they_were_narrowed<K, V>(
    steps: Seq<trace::Step<K, V>>,
    n: int,
    a: int,
    b: int,
    i: int,
)
    requires
        0 <= n <= steps.len(),
        0 <= a < b < trace::pending_in_turn(steps, n).len(),
        0 <= i < n,
        steps[i].key == trace::pending_in_turn(steps, n)[b],
    ensures
        exists|j: int| 0 <= j < i && (#[trigger] steps[j]).key == trace::pending_in_turn(steps, n)[a],
    decreases n,
{
    let before = trace::pending_in_turn(steps, n - 1);
    let after = trace::pending_in_turn(steps, n);
    let k = steps[n - 1].key;
    if b < before.len() {
        let m = lemma_pending_step(steps, n - 1, b);
        if i < n - 1 {
            pending_packages_are_listed_as_they_were_narrowed(steps, n - 1, a, b, i);
        } else {
            pending_packages_are_listed_as_they_were_narrowed(steps, n - 1, a, b, m);
            let j = choose|j: int| 0 <= j < m && (#[trigger] steps[j]).key == before[a];
            assert(steps[j].key == after[a]);
        }
    } else {
        assert(after == before.push(k));
        let m = lemma_pending_step(steps, n - 1, a);
        assert(steps[m].key == after[a]);
        if i < n - 1 {
            lemma_pending_listed(steps, n - 1, i);
        }
    }
}

proof fn lemma_pending_step<K, V>(steps: Seq<trace::Step<K, V>>, n: int, a: int) -> (m: int)
    requires
        0 <= n <= steps.len(),
        0 <= a < trace::pending_in_turn(steps, n).len(),
    ensures
        0 <= m < n,
        steps[m].key == trace::pending_in_turn(steps, n)[a],
        trace::is_pending(steps, steps[m].key),
    decreases n,
{
    if n > 0 {
        let before = trace::pending_in_turn(steps, n - 1);
        if a < before.len() {
            lemma_pending_step(steps, n - 1, a)
        } else {
            n - 1
        }
    } else {
        0
    }
}

pub proof fn lemma_pending_listed<K, V>(steps: Seq<trace::Step<K, V>>, n: int, i: int)
    requires
        0 <= i < n <= steps.len(),
        trace::is_pending(steps, steps[i].key),
    ensures
        trace::pending_in_turn(steps, n).contains(steps[i].key),
    decreases n,
{
    let before = trace::pending_in_turn(steps, n - 1);
    let after = trace::pending_in_turn(steps, n);
    let k = steps[i].key;
    if i < n - 1 {
        lemma_pending_listed(steps, n - 1, i);
        let j = choose|j: int| 0 <= j < before.len() && before[j] == k;
        assert(after[j] == k);
    } else if !before.contains(k) {
        assert(after[before.len() as int] == k);
    }
}

/// A package is pending exactly where what the last step about it leaves does not allow it to be absent,
/// and no step decides on it.
pub proof fn pending_packages_are_listed<K, V>(steps: Seq<trace::Step<K, V>>, i: int)
    requires
        0 <= i < steps.len(),
        forall|j: int| i < j < steps.len() ==> (#[trigger] steps[j]).key != steps[i].key,
    ensures
        trace::pending_in_turn(steps, steps.len() as int).contains(steps[i].key)
            <==> !steps[i].set.contains(None) && forall|j: int|
            0 <= j < steps.len() && (#[trigger] steps[j]).key == steps[i].key ==> !steps[j].decided,
{
    let k = steps[i].key;
    let n = steps.len() as int;
    lemma_open_at(steps, n, i);
    assert(steps.take(n) =~= steps);
    if trace::is_pending(steps, k) {
        lemma_pending_listed(steps, n, i);
    }
    let list = trace::pending_in_turn(steps, n);
    if list.contains(k) {
        let a = choose|a: int| 0 <= a < list.len() && list[a] == k;
        let m = lemma_pending_step(steps, n, a);
    }
}

proof fn lemma_open_at<K, V>(steps: Seq<trace::Step<K, V>>, n: int, i: int)
    requires
        0 <= i < n <= steps.len(),
        forall|j: int| i < j < n ==> (#[trigger] steps[j]).key != steps[i].key,
    ensures
        trace::open_states(steps.take(n), steps[i].key) == steps[i].set,
    decreases n,
{
    assert(steps.take(n).drop_last() =~= steps.take(n - 1));
    assert(steps.take(n).last() == steps[n - 1]);
    if i < n - 1 {
        lemma_open_at(steps, n - 1, i);
    }
}

/// In the end the search for an upgrade of every given package that a returned solution selects was in
/// vain, and the observer was told so.
pub proof fn upgrades_were_searched_for_in_vain<
    DP: DependencyProvider,
    O: SolverObserver<DP::P, DP::VS, DP::M>,
>(
    dp: DP,
    root: Key<DP>,
    version: VersionOf<DP>,
    packages: Seq<DP::P>,
    before: Seq<Observed<Key<DP>, VersionOf<DP>>>,
    after: Seq<Observed<Key<DP>, VersionOf<DP>>>,
    solutions: MaximalSolutions<DP::P, VersionOf<DP>>,
    j: int,
    m: int,
) -> (i: int)
    requires
        maximal::tells_enumeration::<DP, O>(
            dp,
            root,
            version,
            maximal::projection_of(root, package::keys(packages)),
            before,
            after,
            Ok(solutions),
        ),
        0 <= j < solutions@.len(),
        0 <= m < packages.len(),
        packages[m]@ != root,
        solutions@[j]@.dom().contains(packages[m]@),
    ensures
        before.len() <= i < after.len(),
        after[i] == Observed::<Key<DP>, VersionOf<DP>>::MaximalityProbeFinished(
            packages[m]@,
            MaximalityProbeResult::NoImprovement,
        ),
{
    let keys = package::keys(packages);
    let projection = maximal::projection_of(root, keys);
    let found = maximal::selections(solutions@);
    let k = packages[m]@;
    maximal::projection_holds_every_other_package_once(root, keys);
    assert(keys[m] == k);
    assert(keys.contains(k));
    assert(projection.contains(k));
    assert(found[j] == solutions@[j]@);
    assert(maximal::are_at_best(projection, found[j], before, after));
    assert(observer::is_at_best(before, after, k));
    choose|i: int|
        before.len() <= i < after.len() && #[trigger] after[i] == Observed::<
            Key<DP>,
            VersionOf<DP>,
        >::MaximalityProbeFinished(k, MaximalityProbeResult::NoImprovement)
}

proof fn lemma_total_solutions<K, V>(a: Seq<Observed<K, V>>, b: Seq<Observed<K, V>>)
    requires
        a.is_prefix_of(b),
    ensures
        observer::total(b, observer::solution_weight()) == observer::total(
            a,
            observer::solution_weight(),
        ) + b.skip(a.len() as int).filter(|o: Observed<K, V>| o is Solution).len(),
    decreases b.len(),
{
    reveal(Seq::filter);
    let keep = |o: Observed<K, V>| o is Solution;
    let rest = b.skip(a.len() as int);
    if b.len() == a.len() {
        assert(b =~= a);
        assert(rest =~= Seq::empty());
        assert(rest.filter(keep) =~= Seq::empty());
    } else {
        let shorter = b.drop_last();
        assert(a =~= shorter.subrange(0, a.len() as int)) by {
            assert forall|i: int| 0 <= i < a.len() implies a[i] == shorter[i] by {
                assert(a[i] == b.subrange(0, a.len() as int)[i]);
            }
        }
        lemma_total_solutions(a, shorter);
        assert(rest.drop_last() =~= shorter.skip(a.len() as int));
        assert(rest.last() == b.last());
    }
}

/// One solution is announced for each that an enumeration returns.
pub proof fn every_returned_solution_is_announced<
    DP: DependencyProvider,
    O: SolverObserver<DP::P, DP::VS, DP::M>,
>(
    dp: DP,
    root: Key<DP>,
    version: VersionOf<DP>,
    projection: Seq<Key<DP>>,
    before: Seq<Observed<Key<DP>, VersionOf<DP>>>,
    after: Seq<Observed<Key<DP>, VersionOf<DP>>>,
    solutions: MaximalSolutions<DP::P, VersionOf<DP>>,
)
    requires
        maximal::tells_enumeration::<DP, O>(
            dp,
            root,
            version,
            projection,
            before,
            after,
            Ok(solutions),
        ),
    ensures
        before.is_prefix_of(after),
        after.skip(before.len() as int).filter(
            |o: Observed<Key<DP>, VersionOf<DP>>| o is Solution,
        ).len() == solutions@.len(),
{
    reveal(observer::leads);
    let found = maximal::selections(solutions@);
    assert(found.len() == solutions@.len());
    let runs = choose|runs: u64| #[trigger]
        observer::reports::<DP::P, DP::VS, DP::M, O>(before, after, runs, found.len() as int)
            && maximal::is_run_count(projection, found, runs);
    lemma_total_solutions(before, after);
}

/// An offline provider offers exactly the package versions that it was told about, each with what was
/// listed for it.
pub proof fn offline_provider_offers_what_it_was_told<P: Package, VS: VersionSet>(
    provider: OfflineDependencyProvider<P, VS>,
    k: P::V,
    v: VS::V,
)
    ensures
        provider.offers(k, v) <==> provider@.dom().contains((k, v)),
        provider.requirements(k, v) is Some <==> provider@.dom().contains((k, v)),
        provider@.dom().contains((k, v)) ==> provider.requirements(k, v)->0 == provider@[(k, v)],
        provider.conflicts(k, v).len() == 0,
        !provider.may_fail(),
{
}

/// Each time the solver goes back, the package of the derivation that follows is set back for the cause
/// of going back, and nothing else is.
pub proof fn going_back_sets_a_package_back<K, V>(
    start: int,
    log: Seq<Observed<K, V>>,
    last: Observed<K, V>,
    o: Observed<K, V>,
)
    requires
        0 <= start <= log.len(),
    ensures
        observer::setbacks(start, log.push(last).push(o)) == if last is Backtrack
            && o is Derivation {
            observer::setbacks(start, log.push(last)).push(
                (o->Derivation_0, last->Backtrack_2),
            )
        } else {
            observer::setbacks(start, log.push(last))
        },
        observer::setbacks(log.len() as int, log).len() == 0,
{
    let longer = log.push(last).push(o);
    assert(longer.drop_last() =~= log.push(last));
    assert(longer[longer.len() - 2] == last);
}

/// Every setback counts for the package that was affected, and for those of which its cause speaks; and
/// every version that was turned down counts in the same way, apart from the others.
pub proof fn every_setback_counts<K, V>(
    counts: Counts,
    setbacks: Seq<(K, Cause<K, V>)>,
    affected: K,
    cause: Cause<K, V>,
    turned_down: Seq<(K, V)>,
    causes: Seq<Cause<K, V>>,
    v: V,
    k: K,
)
    requires
        turned_down.len() == causes.len(),
    ensures
        run::after_setbacks::<K, V>(counts, Seq::empty(), k) == counts,
        run::after_setbacks(counts, setbacks.push((affected, cause)), k)
            == tracker::after_conflict(
            run::after_setbacks(counts, setbacks, k),
            k == affected,
            cause.named.contains(k),
            true,
        ),
        run::after_rejections(counts, Seq::<(K, V)>::empty(), Seq::empty(), k) == counts,
        run::after_rejections(counts, turned_down.push((affected, v)), causes.push(cause), k)
            == tracker::after_conflict(
            run::after_rejections(counts, turned_down, causes, k),
            k == affected,
            cause.named.contains(k),
            false,
        ),
{
    assert(setbacks.push((affected, cause)).drop_last() =~= setbacks);
    assert(turned_down.push((affected, v)).drop_last() =~= turned_down);
    assert(causes.push(cause).drop_last() =~= causes);
}

/// A version that was chosen and whose dependencies are known counts as turned down unless it is decided
/// on.
pub proof fn chosen_version_is_decided_on_or_turned_down<DP: DependencyProvider>(
    dp: DP,
    start: int,
    log: Seq<Observed<Key<DP>, VersionOf<DP>>>,
    k: Key<DP>,
    v: VersionOf<DP>,
    allowed: Set<VersionOf<DP>>,
    level: u32,
)
    requires
        0 <= start <= log.len(),
        dp.requirements(k, v) is Some,
    ensures
        ({
            let chosen = log.push(Observed::VersionChoice(k, v, allowed));
            &&& run::rejected(dp, start, chosen) == run::rejected(dp, start, log).push((k, v))
            &&& run::rejected(dp, start, chosen.push(Observed::Decision(k, v, level)))
                == run::rejected(dp, start, log)
        }),
{
    let chosen = log.push(Observed::VersionChoice(k, v, allowed));
    let decided = chosen.push(Observed::Decision(k, v, level));
    assert(chosen.drop_last() =~= log);
    assert(chosen.last() == Observed::<Key<DP>, VersionOf<DP>>::VersionChoice(k, v, allowed));
    assert(run::rejected(dp, start, chosen) == run::rejected(dp, start, log).push((k, v)));
    assert(decided.drop_last() =~= chosen);
    assert(decided.last() == Observed::<Key<DP>, VersionOf<DP>>::Decision(k, v, level));
    assert(run::rejected(dp, start, log).push((k, v)).drop_last() =~= run::rejected(
        dp,
        start,
        log,
    ));
}

proof fn lemma_told_of_attempt<DP: DependencyProvider>(
    preferences: Seq<PackagePreference<DP::P, DP::VS>>,
    attempts: Seq<Attempt>,
    i: int,
) -> (j: int)
    requires
        0 <= i < attempts::attempts_told::<DP>(preferences, attempts).len(),
        attempts::attempts_told::<DP>(preferences, attempts)[i] is PreferenceProbeFinished,
    ensures
        0 <= j < attempts.len(),
        attempts[j].given_up is Some,
        attempts::attempts_told::<DP>(preferences, attempts)[i] == Observed::<
            Key<DP>,
            VersionOf<DP>,
        >::PreferenceProbeFinished(
            preferences[attempts[j].given_up->0].key(),
            attempts[j].result,
        ),
    decreases attempts.len(),
{
    let before = attempts::attempts_told::<DP>(preferences, attempts.drop_last());
    if i < before.len() {
        lemma_told_of_attempt::<DP>(preferences, attempts.drop_last(), i)
    } else {
        attempts.len() - 1
    }
}

proof fn lemma_within_attempts<DP: DependencyProvider>(
    preferences: Seq<PackagePreference<DP::P, DP::VS>>,
    attempts: Seq<Attempt>,
    before: Seq<Observed<Key<DP>, VersionOf<DP>>>,
    after: Seq<Observed<Key<DP>, VersionOf<DP>>>,
    r: Result<(), PubGrubError<DP>>,
    i: int,
)
    requires
        attempts::lead_to::<DP>(preferences, attempts, before, after, r),
        before.len() <= i < after.len(),
        after[i] is PreferenceProbeFinished,
    ensures
        i - before.len() < attempts::attempts_told::<DP>(preferences, attempts).len(),
        after[i] == attempts::attempts_told::<DP>(preferences, attempts)[i - before.len()],
{
    let told = before + attempts::attempts_told::<DP>(preferences, attempts);
    if after != told {
        let last = front::attempt_told::<DP>(
            observer::run_number(attempts.len() as int + 1),
            None,
            front::probe_result(r),
        );
        assert(after == told + last);
        if i >= told.len() {
            assert(after[i] == last[i - told.len()]);
        }
    }
}

/// A search that gives up a preference finds something only where some solution does not preserve the
/// preference, and the observer is told of the package of that preference.
pub proof fn preference_is_given_up_for_a_solution<DP: DependencyProvider>(
    dp: DP,
    root: Key<DP>,
    version: VersionOf<DP>,
    preferences: Seq<PackagePreference<DP::P, DP::VS>>,
    before: Seq<Observed<Key<DP>, VersionOf<DP>>>,
    after: Seq<Observed<Key<DP>, VersionOf<DP>>>,
    r: Result<(), PubGrubError<DP>>,
    i: int,
) -> (found: (int, Selection<DP>))
    requires
        attempts::tells_each::<DP>(dp, root, version, preferences, before, after, r),
        before.len() <= i < after.len(),
        after[i] is PreferenceProbeFinished,
        after[i]->PreferenceProbeFinished_1 is Improved,
    ensures
        0 <= found.0 < preferences.len(),
        preferences[found.0].key() == after[i]->PreferenceProbeFinished_0,
        problem::is_solution(dp, root, version, found.1),
        !preferences[found.0].states().contains(found.1.get(preferences[found.0].key())),
{
    let attempts = choose|attempts: Seq<Attempt>| #[trigger]
        attempts::are_attempts(dp, root, version, preferences, attempts) && attempts::lead_to::<
            DP,
        >(preferences, attempts, before, after, r);
    let told = attempts::attempts_told::<DP>(preferences, attempts);
    let n = before.len() as int;
    lemma_within_attempts::<DP>(preferences, attempts, before, after, r, i);
    let j = lemma_told_of_attempt::<DP>(preferences, attempts, i - n);
    let g = attempts[j].given_up->0;
    attempts::attempt_gives_up_one_more(dp, root, version, preferences, attempts, j);
    let earlier = attempts.take(j);
    let q = choose|q: int|
        0 <= q < earlier.len() && (#[trigger] earlier[q]).result is NoImprovement && 0 <= g
            < earlier[q].kept.len() && earlier[q].kept[g] && earlier[q].blamed[g]
            && attempts[j].kept == earlier[q].kept.update(g, false);
    assert(attempts::goes_right(dp, root, version, preferences, attempts[j])) by {
        assert(attempts::is_due(preferences.len(), attempts, j));
    }
    assert(front::achievable(dp, root, version, preferences, attempts[j].kept));
    let s = choose|s: Selection<DP>| #[trigger]
        problem::is_solution(dp, root, version, s) && front::profile(preferences, s)
            == attempts[j].kept;
    assert(front::profile(preferences, s)[g] == preferences[g].kept_in(s));
    (g, s)
}

proof fn lemma_places_count<K, V>(start: int, log: Seq<Observed<K, V>>)
    requires
        0 <= start <= log.len(),
    ensures
        path::solution_places(start, log).len() == log.subrange(start, log.len() as int).filter(
            |o: Observed<K, V>| o is Solution,
        ).len(),
    decreases log.len(),
{
    reveal(Seq::filter);
    let keep = |o: Observed<K, V>| o is Solution;
    let rest = log.subrange(start, log.len() as int);
    if log.len() == start {
        assert(rest =~= Seq::empty());
        assert(rest.filter(keep) =~= Seq::empty());
    } else {
        let shorter = log.drop_last();
        lemma_places_count(start, shorter);
        assert(rest.drop_last() =~= shorter.subrange(start, shorter.len() as int));
        assert(rest.last() == log.last());
    }
}

proof fn lemma_place_of<K, V>(start: int, log: Seq<Observed<K, V>>, i: int)
    requires
        0 <= start <= log.len(),
        0 <= i < path::solution_places(start, log).len(),
    ensures
        ({
            let p = path::solution_places(start, log)[i];
            &&& start <= p < log.len()
            &&& log[p] is Solution
            &&& log.subrange(start, p).filter(|o: Observed<K, V>| o is Solution).len() == i
        }),
    decreases log.len(),
{
    let shorter = log.drop_last();
    let earlier = path::solution_places(start, shorter);
    if i < earlier.len() {
        lemma_place_of(start, shorter, i);
        let p = earlier[i];
        assert(shorter.subrange(start, p) =~= log.subrange(start, p));
        assert(path::solution_places(start, log)[i] == p);
    } else {
        lemma_places_count(start, shorter);
        let p = log.len() - 1;
        assert(shorter.subrange(start, shorter.len() as int) =~= log.subrange(start, p));
    }
}

/// One of the events from `start` on decides on the version.
spec fn is_decision_told<K, V>(start: int, log: Seq<Observed<K, V>>, k: K, v: V) -> bool {
    exists|m: int|
        start <= m < log.len() && (#[trigger] log[m]) is Decision && log[m]->Decision_0 == k
            && log[m]->Decision_1 == v
}

proof fn lemma_decision_told_later<K, V>(start: int, log: Seq<Observed<K, V>>, k: K, v: V)
    requires
        0 <= start,
        log.len() > 0,
        is_decision_told(start, log.drop_last(), k, v),
    ensures
        is_decision_told(start, log, k, v),
{
    let shorter = log.drop_last();
    let m = choose|m: int|
        start <= m < shorter.len() && (#[trigger] shorter[m]) is Decision && shorter[m]->Decision_0
            == k && shorter[m]->Decision_1 == v;
    assert(log[m] == shorter[m]);
}

proof fn lemma_paths_are_told<K, V>(start: int, log: Seq<Observed<K, V>>, k: K, v: V)
    requires
        0 <= start <= log.len(),
    ensures
        ({
            let paths = path::paths_after(false, path::no_paths(), start, log);
            &&& paths.run.contains((k, v)) ==> is_decision_told(start, log, k, v)
            &&& paths.best.contains((k, v)) ==> is_decision_told(start, log, k, v)
            &&& paths.probe is Some && paths.probe->0.contains((k, v)) ==> is_decision_told(
                start,
                log,
                k,
                v,
            )
        }),
    decreases log.len(),
{
    if log.len() > start {
        let shorter = log.drop_last();
        let o = log.last();
        lemma_paths_are_told(start, shorter, k, v);
        if is_decision_told(start, shorter, k, v) {
            lemma_decision_told_later(start, log, k, v);
        }
        if o is Decision && o->Decision_0 == k && o->Decision_1 == v {
            assert(log[log.len() - 1] == o);
        }
        let paths = path::paths_after(false, path::no_paths(), start, shorter);
        lemma_pushed(paths.run, o, k, v);
        if paths.probe is Some {
            lemma_pushed(paths.probe->0, o, k, v);
        }
    }
}

proof fn lemma_pushed<K, V>(decisions: Seq<(K, V)>, o: Observed<K, V>, k: K, v: V)
    ensures
        path::next_decisions(false, decisions, o).contains((k, v)) ==> decisions.contains((k, v))
            || (o is Decision && o->Decision_0 == k && o->Decision_1 == v),
{
    let after = path::next_decisions(false, decisions, o);
    if after.contains((k, v)) {
        let i = choose|i: int| 0 <= i < after.len() && after[i] == (k, v);
        if i < decisions.len() {
            assert(decisions[i] == (k, v));
        }
    }
}

/// Solutions are returned in the order in which they are announced: as many are announced before each
/// as are returned before it, and all decisions that make it were told by then.
pub proof fn solutions_are_returned_as_they_are_announced<
    DP: DependencyProvider,
    O: SolverObserver<DP::P, DP::VS, DP::M>,
>(
    dp: DP,
    root: Key<DP>,
    version: VersionOf<DP>,
    projection: Seq<Key<DP>>,
    before: Seq<Observed<Key<DP>, VersionOf<DP>>>,
    after: Seq<Observed<Key<DP>, VersionOf<DP>>>,
    solutions: MaximalSolutions<DP::P, VersionOf<DP>>,
    i: int,
) -> (p: int)
    requires
        maximal::tells_enumeration::<DP, O>(
            dp,
            root,
            version,
            projection,
            before,
            after,
            Ok(solutions),
        ),
        0 <= i < solutions@.len(),
    ensures
        before.len() <= p < after.len(),
        after[p] is Solution,
        after.subrange(before.len() as int, p).filter(
            |o: Observed<Key<DP>, VersionOf<DP>>| o is Solution,
        ).len() == i,
        forall|k: Key<DP>| #[trigger]
            solutions@[i]@.dom().contains(k) ==> exists|m: int|
                before.len() <= m < p && (#[trigger] after[m]) is Decision && after[m]->Decision_0
                    == k && after[m]->Decision_1 == solutions@[i]@[k],
{
    let start = before.len() as int;
    let found = maximal::selections(solutions@);
    assert(before.is_prefix_of(after)) by {
        every_returned_solution_is_announced::<DP, O>(
            dp,
            root,
            version,
            projection,
            before,
            after,
            solutions,
        );
    }
    reveal(path::announces);
    assert(path::announces::<DP::P, DP::VS, DP::M, O>(before, after, found));
    let p = path::solution_places(start, after)[i];
    lemma_place_of(start, after, i);
    let told = after.take(p);
    assert(found[i] == solutions@[i]@);
    assert(path::in_force::<DP::P, DP::VS, DP::M, O>(before, told, found[i]));
    let best = path::paths_after(false, path::no_paths(), start, told).best;
    assert(path::belong_to::<DP::P, DP::VS, DP::M, O>(false, best, before, told, found[i]));
    assert forall|k: Key<DP>| #[trigger] solutions@[i]@.dom().contains(k) implies exists|m: int|
        before.len() <= m < p && (#[trigger] after[m]) is Decision && after[m]->Decision_0 == k
            && after[m]->Decision_1 == solutions@[i]@[k] by {
        let v = solutions@[i]@[k];
        assert(best.contains((k, v)));
        lemma_paths_are_told(start, told, k, v);
        let m = choose|m: int|
            start <= m < told.len() && (#[trigger] told[m]) is Decision && told[m]->Decision_0 == k
                && told[m]->Decision_1 == v;
        assert(after[m] == told[m]);
    }
    p
}

} // verus!
