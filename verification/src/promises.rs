//! What the entry points promise of what they return, in terms of what they are given.

use vstd::prelude::*;

use crate::error;
use crate::error::PubGrubError;
use crate::factored;
use crate::finite;
use crate::front;
use crate::laws;
use crate::machine;
use crate::maximal;
use crate::meaning;
use crate::observer;
use crate::observer::{Observed, SolverObserver};
use crate::ordering;
use crate::ordering::{Precedence, VersionOrdering};
use crate::package;
use crate::package::Package;
use crate::polls;
use crate::polls::Choice;
use crate::preference;
use crate::preference::{FactoredPreferenceSolutions, PackagePreference, PreferenceDecision};
use crate::priority;
use crate::problem;
use crate::problem::{Key, Selection, VersionOf};
use crate::provider::DependencyProvider;
use crate::residual;
use crate::residual::partition;
use crate::run;
use crate::search;
use crate::selected::{MaximalSolutions, SelectedDependencies};
use crate::solver;
use crate::trace;
use crate::version_set::VersionSet;

verus! {

/// In a solution the root package is selected at its version, and every selected version is offered,
/// is known to the provider, has each package that it requires selected at one of the required
/// versions, and is declared incompatible with nothing that holds.
pub proof fn solution_meets_every_requirement<DP: DependencyProvider>(
    dp: DP,
    root: Key<DP>,
    version: VersionOf<DP>,
    s: Selection<DP>,
)
    requires
        problem::is_solution(dp, root, version, s),
    ensures
        s.dom().contains(root) && s[root] == version,
        forall|k: Key<DP>| #[trigger]
            s.dom().contains(k) ==> dp.offers(k, s[k]) && dp.requirements(k, s[k]) is Some,
        forall|k: Key<DP>, i: int|
            #![trigger dp.requirements(k, s[k])->0[i]]
            s.dom().contains(k) && 0 <= i < dp.requirements(k, s[k])->0.len() ==> s.dom().contains(
                dp.requirements(k, s[k])->0[i].0,
            ) && dp.requirements(k, s[k])->0[i].1.contains(s[dp.requirements(k, s[k])->0[i].0]),
        forall|k: Key<DP>, i: int|
            #![trigger dp.conflicts(k, s[k])[i]]
            s.dom().contains(k) && 0 <= i < dp.conflicts(k, s[k]).len() ==> dp.conflicts(
                k,
                s[k],
            )[i].len() > 0 && exists|j: int|
                0 <= j < dp.conflicts(k, s[k])[i].len()
                    && !(#[trigger] dp.conflicts(k, s[k])[i][j]).1.contains(
                    s.get(dp.conflicts(k, s[k])[i][j].0),
                ),
{
    assert forall|k: Key<DP>, i: int|
        #![trigger dp.requirements(k, s[k])->0[i]]
        s.dom().contains(k) && 0 <= i < dp.requirements(k, s[k])->0.len() implies s.dom().contains(
        dp.requirements(k, s[k])->0[i].0,
    ) && dp.requirements(k, s[k])->0[i].1.contains(s[dp.requirements(k, s[k])->0[i].0]) by {
        assert(problem::fits(dp, s, k));
        assert(problem::meets(s, dp.requirements(k, s[k])->0[i]));
    }
    assert forall|k: Key<DP>, i: int|
        #![trigger dp.conflicts(k, s[k])[i]]
        s.dom().contains(k) && 0 <= i < dp.conflicts(k, s[k]).len() implies dp.conflicts(
            k,
            s[k],
        )[i].len() > 0 && exists|j: int|
        0 <= j < dp.conflicts(k, s[k])[i].len()
            && !(#[trigger] dp.conflicts(k, s[k])[i][j]).1.contains(
            s.get(dp.conflicts(k, s[k])[i][j].0),
        ) by {
        assert(problem::fits(dp, s, k));
        assert(!search::violates(dp.conflicts(k, s[k])[i], s));
    }
}

/// Whatever selects the root package at its version, and only offered and known versions with all
/// that they require and nothing that they are incompatible with, is a solution.
pub proof fn what_meets_every_requirement_is_a_solution<DP: DependencyProvider>(
    dp: DP,
    root: Key<DP>,
    version: VersionOf<DP>,
    s: Selection<DP>,
)
    requires
        s.dom().contains(root) && s[root] == version,
        forall|k: Key<DP>| #[trigger]
            s.dom().contains(k) ==> dp.offers(k, s[k]) && dp.requirements(k, s[k]) is Some,
        forall|k: Key<DP>, i: int|
            #![trigger dp.requirements(k, s[k])->0[i]]
            s.dom().contains(k) && 0 <= i < dp.requirements(k, s[k])->0.len() ==> s.dom().contains(
                dp.requirements(k, s[k])->0[i].0,
            ) && dp.requirements(k, s[k])->0[i].1.contains(s[dp.requirements(k, s[k])->0[i].0]),
        forall|k: Key<DP>, i: int|
            #![trigger dp.conflicts(k, s[k])[i]]
            s.dom().contains(k) && 0 <= i < dp.conflicts(k, s[k]).len() ==> dp.conflicts(
                k,
                s[k],
            )[i].len() > 0 && exists|j: int|
                0 <= j < dp.conflicts(k, s[k])[i].len()
                    && !(#[trigger] dp.conflicts(k, s[k])[i][j]).1.contains(
                    s.get(dp.conflicts(k, s[k])[i][j].0),
                ),
    ensures
        problem::is_solution(dp, root, version, s),
{
    assert forall|k: Key<DP>| #[trigger] s.dom().contains(k) implies problem::fits(dp, s, k) by {
        assert forall|i: int| 0 <= i < dp.requirements(k, s[k])->0.len() implies problem::meets(
            s,
            #[trigger] dp.requirements(k, s[k])->0[i],
        ) by {
            assert(s.dom().contains(dp.requirements(k, s[k])->0[i].0));
        }
        assert forall|i: int| 0 <= i < dp.conflicts(k, s[k]).len() implies !search::violates(
            #[trigger] dp.conflicts(k, s[k])[i],
            s,
        ) by {
            let j = choose|j: int|
                0 <= j < dp.conflicts(k, s[k])[i].len()
                    && !(#[trigger] dp.conflicts(k, s[k])[i][j]).1.contains(
                    s.get(dp.conflicts(k, s[k])[i][j].0),
                );
            assert(!dp.conflicts(k, s[k])[i][j].1.contains(
                s.get(dp.conflicts(k, s[k])[i][j].0),
            ));
        }
    }
}

/// What is left of a list comes from it.
proof fn lemma_filtered<T>(list: Seq<T>, keep: spec_fn(T) -> bool, j: int)
    requires
        0 <= j < list.filter(keep).len(),
    ensures
        list.contains(list.filter(keep)[j]),
    decreases list.len(),
{
    reveal(Seq::filter);
    if list.len() > 0 {
        let before = list.drop_last();
        let kept = before.filter(keep);
        if j < kept.len() {
            lemma_filtered(before, keep, j);
            let i = choose|i: int| 0 <= i < before.len() && before[i] == kept[j];
            assert(list[i] == kept[j]);
            assert(list.filter(keep)[j] == kept[j]);
        } else {
            assert(list[list.len() - 1] == list.filter(keep)[j]);
        }
    }
}

/// The decisions about packages other than the root demand what they decide.
proof fn lemma_demanded<P: Package, VS: VersionSet>(
    root: P::V,
    decisions: Seq<PreferenceDecision<P, VS>>,
    s: Map<P::V, VS::V>,
)
    ensures
        search::violates(preference::demands(solver::foreign(root, decisions)), s) <==> forall|
            i: int,
        |
            0 <= i < decisions.len() && (#[trigger] decisions[i]).key() != root
                ==> decisions[i].states().contains(s.get(decisions[i].key()))
                == decisions[i].satisfied(),
{
    let keep = |decision: PreferenceDecision<P, VS>| decision.key() != root;
    let kept = solver::foreign(root, decisions);
    let demands = preference::demands(kept);
    decisions.filter_lemma(keep);
    if search::violates(demands, s) {
        assert forall|i: int|
            0 <= i < decisions.len() && (#[trigger] decisions[i]).key()
                != root implies decisions[i].states().contains(s.get(decisions[i].key()))
            == decisions[i].satisfied() by {
            assert(kept.contains(decisions[i]));
            let j = choose|j: int| 0 <= j < kept.len() && kept[j] == decisions[i];
            assert(demands[j] == decisions[i].part());
            assert(demands[j].1.contains(s.get(demands[j].0)));
        }
    }
    if forall|i: int|
        0 <= i < decisions.len() && (#[trigger] decisions[i]).key() != root
            ==> decisions[i].states().contains(s.get(decisions[i].key()))
            == decisions[i].satisfied() {
        assert forall|j: int| 0 <= j < demands.len() implies (#[trigger] demands[j]).1.contains(
            s.get(demands[j].0),
        ) by {
            lemma_filtered(decisions, keep, j);
            assert(keep(kept[j]));
            let i = choose|i: int| 0 <= i < decisions.len() && decisions[i] == kept[j];
            assert(decisions[i].key() != root);
        }
    }
}

/// A maximal solution under decisions meets each of them that is about a package other than the
/// root: the state of the package in the solution, absence included, is a preferred one exactly where
/// the decision says so.
pub proof fn decisions_are_met<DP: DependencyProvider>(
    dp: DP,
    root: Key<DP>,
    version: VersionOf<DP>,
    decisions: Seq<PreferenceDecision<DP::P, DP::VS>>,
    o: Precedence<VersionOf<DP>>,
    projection: Seq<Key<DP>>,
    solutions: MaximalSolutions<DP::P, VersionOf<DP>>,
)
    requires
        solver::maximized(
            dp,
            root,
            version,
            preference::demands(solver::foreign(root, decisions)),
            o,
            projection,
            Ok(solutions),
        ),
    ensures
        forall|i: int, j: int|
            0 <= i < decisions.len() && 0 <= j < solutions@.len() && (
            #[trigger] decisions[i]).key() != root ==> decisions[i].states().contains(
                (#[trigger] solutions@[j])@.get(decisions[i].key()),
            ) == decisions[i].satisfied(),
{
    let demands = preference::demands(solver::foreign(root, decisions));
    assert forall|i: int, j: int|
        0 <= i < decisions.len() && 0 <= j < solutions@.len() && (
        #[trigger] decisions[i]).key() != root implies decisions[i].states().contains(
        (#[trigger] solutions@[j])@.get(decisions[i].key()),
    ) == decisions[i].satisfied() by {
        let found = maximal::selections(solutions@);
        assert(found[j] == solutions@[j]@);
        assert(maximal::is_peak(dp, root, version, demands, o, projection, found[j]));
        lemma_demanded(root, decisions, found[j]);
    }
}

/// An enumeration under decisions fails for want of a solution only where no solution meets the
/// decisions about packages other than the root.
pub proof fn refusal_means_that_the_decisions_cannot_be_met<DP: DependencyProvider>(
    dp: DP,
    root: Key<DP>,
    version: VersionOf<DP>,
    decisions: Seq<PreferenceDecision<DP::P, DP::VS>>,
    o: Precedence<VersionOf<DP>>,
    projection: Seq<Key<DP>>,
    error: PubGrubError<DP>,
    s: Selection<DP>,
)
    requires
        solver::maximized(
            dp,
            root,
            version,
            preference::demands(solver::foreign(root, decisions)),
            o,
            projection,
            Err(error),
        ),
        error is NoSolution,
        problem::is_solution(dp, root, version, s),
    ensures
        exists|i: int|
            0 <= i < decisions.len() && (#[trigger] decisions[i]).key() != root
                && decisions[i].states().contains(s.get(decisions[i].key()))
                != decisions[i].satisfied(),
{
    let demands = preference::demands(solver::foreign(root, decisions));
    let exclusions = run::forced_clauses(root, version, demands);
    error::lemma_proves_no_solution(error, dp, root, version, exclusions);
    lemma_demanded(root, decisions, s);
    run::lemma_forced(root, version, demands, s);
}

/// A preference about a package other than the root that some state meets and some state does not is
/// among the usable ones, and only such.
proof fn lemma_usable<P: Package, VS: VersionSet>(
    root: P::V,
    preferences: Seq<PackagePreference<P, VS>>,
)
    ensures
        forall|i: int|
            0 <= i < preferences.len() && (#[trigger] preferences[i]).key() != root && (exists|
                x: Option<VS::V>,
            | #[trigger]
                preferences[i].states().contains(x)) && (exists|x: Option<VS::V>|
                !#[trigger] preferences[i].states().contains(x)) ==> solver::usable_among(
                root,
                preferences,
            ).contains(preferences[i]),
        forall|j: int|
            0 <= j < solver::usable_among(root, preferences).len() ==> preferences.contains(
                #[trigger] solver::usable_among(root, preferences)[j],
            ),
{
    let keep = |preference: PackagePreference<P, VS>| preference::usable(root, preference);
    preferences.filter_lemma(keep);
    assert forall|i: int|
        0 <= i < preferences.len() && (#[trigger] preferences[i]).key() != root && (exists|
            x: Option<VS::V>,
        | #[trigger]
            preferences[i].states().contains(x)) && (exists|x: Option<VS::V>|
            !#[trigger] preferences[i].states().contains(x)) implies solver::usable_among(
        root,
        preferences,
    ).contains(preferences[i]) by {
        assert(keep(preferences[i]));
    }
    assert forall|j: int| 0 <= j < solver::usable_among(root, preferences).len() implies preferences.contains(
        #[trigger] solver::usable_among(root, preferences)[j],
    ) by {
        lemma_filtered(preferences, keep, j);
    }
}

/// Solutions differ on the given preferences where they differ on the usable ones.
proof fn lemma_same_usable<DP: DependencyProvider>(
    dp: DP,
    root: Key<DP>,
    version: VersionOf<DP>,
    preferences: Seq<PackagePreference<DP::P, DP::VS>>,
    a: Selection<DP>,
    b: Selection<DP>,
)
    requires
        problem::is_solution(dp, root, version, a),
        problem::is_solution(dp, root, version, b),
    ensures
        (forall|i: int|
            0 <= i < preferences.len() && (#[trigger] preferences[i]).states().contains(
                a.get(preferences[i].key()),
            ) ==> preferences[i].states().contains(b.get(preferences[i].key())))
            <==> front::includes(
            front::profile(solver::usable_among(root, preferences), b),
            front::profile(solver::usable_among(root, preferences), a),
        ),
{
    let kept = solver::usable_among(root, preferences);
    let more = front::profile(kept, b);
    let less = front::profile(kept, a);
    lemma_usable(root, preferences);
    if forall|i: int|
        0 <= i < preferences.len() && (#[trigger] preferences[i]).states().contains(
            a.get(preferences[i].key()),
        ) ==> preferences[i].states().contains(b.get(preferences[i].key())) {
        assert forall|j: int| 0 <= j < less.len() && #[trigger] less[j] implies more[j] by {
            assert(preferences.contains(kept[j]));
            let i = choose|i: int| 0 <= i < preferences.len() && preferences[i] == kept[j];
            assert(preferences[i].states().contains(a.get(preferences[i].key())));
        }
    }
    if front::includes(more, less) {
        assert forall|i: int|
            0 <= i < preferences.len() && (#[trigger] preferences[i]).states().contains(
                a.get(preferences[i].key()),
            ) implies preferences[i].states().contains(b.get(preferences[i].key())) by {
            let p = preferences[i];
            if p.key() != root && !p.states().contains(b.get(p.key())) {
                assert(kept.contains(p));
                let j = choose|j: int| 0 <= j < kept.len() && kept[j] == p;
                assert(less[j]);
                assert(more[j]);
            }
        }
    }
}

/// A minimal change is minimal in the caller's preferences: no solution preserves all of them that a
/// returned one preserves, and another one.
pub proof fn no_given_preference_is_lost_in_vain<DP: DependencyProvider>(
    dp: DP,
    root: Key<DP>,
    version: VersionOf<DP>,
    preferences: Seq<PackagePreference<DP::P, DP::VS>>,
    o: Precedence<VersionOf<DP>>,
    projection: Seq<Key<DP>>,
    solutions: MaximalSolutions<DP::P, VersionOf<DP>>,
    j: int,
    s: Selection<DP>,
)
    requires
        solver::minimally_changed(
            dp,
            root,
            version,
            solver::usable_among(root, preferences),
            o,
            projection,
            Ok(solutions),
        ),
        0 <= j < solutions@.len(),
        problem::is_solution(dp, root, version, s),
        forall|i: int|
            0 <= i < preferences.len() && (#[trigger] preferences[i]).states().contains(
                solutions@[j]@.get(preferences[i].key()),
            ) ==> preferences[i].states().contains(s.get(preferences[i].key())),
    ensures
        forall|i: int|
            0 <= i < preferences.len() && (#[trigger] preferences[i]).states().contains(
                s.get(preferences[i].key()),
            ) ==> preferences[i].states().contains(solutions@[j]@.get(preferences[i].key())),
{
    let kept = solver::usable_among(root, preferences);
    let found = maximal::selections(solutions@);
    let x = solutions@[j]@;
    assert(found[j] == x);
    laws::lemma_minimal_change_solves(dp, root, version, kept, o, projection, found, j);
    lemma_same_usable(dp, root, version, preferences, x, s);
    laws::minimal_change_preserves_what_it_can(
        dp,
        root,
        version,
        kept,
        o,
        projection,
        found,
        j,
        s,
    );
    lemma_same_usable(dp, root, version, preferences, s, x);
}

/// Every minimal change is returned: whatever a solution preserves of the caller's preferences, a
/// returned solution preserves.
pub proof fn given_preferences_are_preserved_together<DP: DependencyProvider>(
    dp: DP,
    root: Key<DP>,
    version: VersionOf<DP>,
    preferences: Seq<PackagePreference<DP::P, DP::VS>>,
    o: Precedence<VersionOf<DP>>,
    projection: Seq<Key<DP>>,
    solutions: MaximalSolutions<DP::P, VersionOf<DP>>,
    s: Selection<DP>,
) -> (j: int)
    requires
        solver::minimally_changed(
            dp,
            root,
            version,
            solver::usable_among(root, preferences),
            o,
            projection,
            Ok(solutions),
        ),
        problem::is_solution(dp, root, version, s),
    ensures
        0 <= j < solutions@.len(),
        problem::is_solution(dp, root, version, solutions@[j]@),
        forall|i: int|
            0 <= i < preferences.len() && (#[trigger] preferences[i]).states().contains(
                s.get(preferences[i].key()),
            ) ==> preferences[i].states().contains(solutions@[j]@.get(preferences[i].key())),
{
    let kept = solver::usable_among(root, preferences);
    let found = maximal::selections(solutions@);
    let j = laws::every_minimal_change_is_returned(
        dp,
        root,
        version,
        kept,
        o,
        projection,
        found,
        s,
    );
    laws::lemma_minimal_change_solves(dp, root, version, kept, o, projection, found, j);
    assert(found[j] == solutions@[j]@);
    lemma_same_usable(dp, root, version, preferences, s, found[j]);
    j
}

proof fn lemma_times_push<P: Package, VS: VersionSet>(
    preferences: Seq<PackagePreference<P, VS>>,
    last: PackagePreference<P, VS>,
    n: int,
    k: P::V,
    states: Set<Option<VS::V>>,
)
    requires
        0 <= n <= preferences.len(),
    ensures
        laws::times_preferred(preferences.push(last), n, k, states) == laws::times_preferred(
            preferences,
            n,
            k,
            states,
        ),
    decreases n,
{
    if n > 0 {
        lemma_times_push(preferences, last, n - 1, k, states);
    }
}

/// The usable preferences are about a package and its states as often as all are, or never.
proof fn lemma_times_usable<P: Package, VS: VersionSet>(
    root: P::V,
    preferences: Seq<PackagePreference<P, VS>>,
    k: P::V,
    states: Set<Option<VS::V>>,
    x: Option<VS::V>,
    y: Option<VS::V>,
)
    requires
        k != root,
        states.contains(x),
        !states.contains(y),
    ensures
        ({
            let keep = |preference: PackagePreference<P, VS>| preference::usable(root, preference);
            laws::times_preferred(
                preferences.filter(keep),
                preferences.filter(keep).len() as int,
                k,
                states,
            ) == laws::times_preferred(preferences, preferences.len() as int, k, states)
        }),
    decreases preferences.len(),
{
    let keep = |preference: PackagePreference<P, VS>| preference::usable(root, preference);
    reveal(Seq::filter);
    if preferences.len() > 0 {
        let before = preferences.drop_last();
        let last = preferences.last();
        let n = before.len() as int;
        lemma_times_usable(root, before, k, states, x, y);
        assert(preferences =~= before.push(last));
        lemma_times_push(before, last, n, k, states);
        let kept = before.filter(keep);
        lemma_times_push(kept, last, kept.len() as int, k, states);
        if last.key() == k && last.states() == states {
            assert(keep(last));
        }
        if keep(last) {
            assert(preferences.filter(keep) =~= kept.push(last));
        } else {
            assert(preferences.filter(keep) =~= kept);
        }
    }
}

proof fn lemma_times_in_push<P: Package, VS: VersionSet>(
    components: Seq<Seq<PackagePreference<P, VS>>>,
    last: Seq<PackagePreference<P, VS>>,
    n: int,
    k: P::V,
    states: Set<Option<VS::V>>,
)
    requires
        0 <= n <= components.len(),
    ensures
        laws::times_in(components.push(last), n, k, states) == laws::times_in(
            components,
            n,
            k,
            states,
        ),
    decreases n,
{
    if n > 0 {
        lemma_times_in_push(components, last, n - 1, k, states);
    }
}

proof fn lemma_times_in_usable<P: Package, VS: VersionSet>(
    root: P::V,
    components: Seq<Vec<PackagePreference<P, VS>>>,
    k: P::V,
    states: Set<Option<VS::V>>,
    x: Option<VS::V>,
    y: Option<VS::V>,
)
    requires
        k != root,
        states.contains(x),
        !states.contains(y),
    ensures
        laws::times_in(
            factored::usable_components(root, components),
            factored::usable_components(root, components).len() as int,
            k,
            states,
        ) == laws::times_in(
            Seq::new(components.len(), |i: int| components[i]@),
            components.len() as int,
            k,
            states,
        ),
    decreases components.len(),
{
    if components.len() > 0 {
        let given = Seq::new(components.len(), |i: int| components[i]@);
        let init = components.drop_last();
        let before = Seq::new(init.len(), |i: int| init[i]@);
        let last = components.last()@;
        let n = init.len() as int;
        lemma_times_in_usable(root, init, k, states, x, y);
        assert(given =~= before.push(last));
        lemma_times_in_push(before, last, n, k, states);
        lemma_times_usable(root, last, k, states, x, y);
        let keep = |preference: PackagePreference<P, VS>| preference::usable(root, preference);
        let kept = factored::usable_components(root, init);
        let usable = last.filter(keep);
        lemma_times_in_push(kept, usable, kept.len() as int, k, states);
        if usable.len() > 0 {
            assert(factored::usable_components(root, components) =~= kept.push(usable));
        } else {
            assert(factored::usable_components(root, components) =~= kept);
        }
    }
}

/// A complete assignment is about every preference of the given components: each one that is about a
/// package other than the root, and that some state meets and some state does not, is decided exactly
/// as often as it was given.
pub proof fn assignment_decides_on_every_given_preference<DP: DependencyProvider>(
    dp: DP,
    root: Key<DP>,
    version: VersionOf<DP>,
    components: Seq<Vec<PackagePreference<DP::P, DP::VS>>>,
    product: FactoredPreferenceSolutions<DP::P, DP::VS>,
    selected: Seq<usize>,
    k: Key<DP>,
    states: Set<Option<VersionOf<DP>>>,
    x: Option<VersionOf<DP>>,
    y: Option<VersionOf<DP>>,
)
    requires
        solver::factorized(
            dp,
            root,
            version,
            factored::usable_components(root, components),
            Ok(product),
        ),
        selected.len() == product.open_choices().len(),
        forall|i: int|
            0 <= i < selected.len() ==> #[trigger] selected[i] < product.open_choices()[i].len(),
        k != root,
        states.contains(x),
        !states.contains(y),
    ensures
        laws::times(
            product.shared() + preference::picked(product.open_choices(), selected),
            k,
            states,
        ) == laws::times_in(
            Seq::new(components.len(), |i: int| components[i]@),
            components.len() as int,
            k,
            states,
        ),
{
    let kept = factored::usable_components(root, components);
    laws::assignment_is_about_every_preference_once(
        dp,
        root,
        version,
        kept,
        product,
        selected,
        k,
        states,
    );
    lemma_times_in_usable(root, components, k, states, x, y);
}

proof fn lemma_levels_bound<K, V>(levels: Seq<int>, start: int, log: Seq<Observed<K, V>>, n: int)
    requires
        observer::are_levels(levels, start, log, true),
        levels[0] == 0,
        0 <= n < levels.len(),
    ensures
        0 <= levels[n] <= n,
    decreases n,
{
    if n > 0 {
        lemma_levels_bound(levels, start, log, n - 1);
        let o = log[start + n - 1];
        assert(observer::is_level_step(levels[n - 1], levels[n], o, true));
    }
}

proof fn lemma_levels_flat<K, V>(
    levels: Seq<int>,
    start: int,
    log: Seq<Observed<K, V>>,
    a: int,
    b: int,
)
    requires
        observer::are_levels(levels, start, log, true),
        start <= a <= b <= log.len(),
        forall|i: int| a <= i < b ==> !((#[trigger] log[i]) is Decision) && !(log[i] is Backtrack),
    ensures
        levels[b - start] == levels[a - start],
    decreases b,
{
    if a < b {
        lemma_levels_flat(levels, start, log, a, b - 1);
        assert(observer::is_level_step(
            levels[b - 1 - start],
            levels[b - 1 - start + 1],
            log[b - 1],
            true,
        ));
    }
}

proof fn lemma_no_decision<K, V>(levels: Seq<int>, start: int, log: Seq<Observed<K, V>>, b: int)
    requires
        observer::are_levels(levels, start, log, true),
        levels[0] == 0,
        start <= b <= log.len(),
        forall|i: int| start <= i < b ==> !((#[trigger] log[i]) is Decision),
    ensures
        levels[b - start] <= 0,
    decreases b,
{
    if start < b {
        lemma_no_decision(levels, start, log, b - 1);
        assert(observer::is_level_step(
            levels[b - 1 - start],
            levels[b - 1 - start + 1],
            log[b - 1],
            true,
        ));
    }
}

proof fn lemma_resolution_levels<
    DP: DependencyProvider,
    O: SolverObserver<DP::P, DP::VS, DP::M>,
>(
    dp: DP,
    root: Key<DP>,
    version: VersionOf<DP>,
    before: Seq<Observed<Key<DP>, VersionOf<DP>>>,
    after: Seq<Observed<Key<DP>, VersionOf<DP>>>,
    r: Result<SelectedDependencies<DP::P, VersionOf<DP>>, PubGrubError<DP>>,
) -> (last: int)
    requires
        solver::tells_resolution::<DP, O>(dp, root, version, before, after, r),
        observer::always_asks::<DP::P, DP::VS, DP::M, O>(),
    ensures
        observer::count_levels(0, last, before.len() as int, after, true),
{
    let start = before.len() as int;
    let path = if r is Ok {
        after.drop_last()
    } else {
        after
    };
    let last = choose|last: int| #[trigger] observer::count_levels(0, last, start, path, true);
    if r is Ok {
        assert(last >= 0) by {
            reveal(observer::count_levels);
        }
        observer::lemma_levels_push(0, last, last, start, path, after.last(), true);
        assert(path.push(after.last()) =~= after);
    }
    last
}

proof fn lemma_levels_at<K, V>(
    levels: Seq<int>,
    before: Seq<Observed<K, V>>,
    after: Seq<Observed<K, V>>,
    i: int,
)
    requires
        observer::are_levels(levels, before.len() as int, after, true),
        levels[0] == 0,
        after.len() - before.len() <= u32::MAX,
        before.len() <= i < after.len(),
    ensures
        after[i] is Decision && (forall|m: int|
            before.len() <= m < i ==> !((#[trigger] after[m]) is Decision) && !(
            after[m] is Backtrack)) ==> after[i]->Decision_2 == 1,
        after[i] is Backtrack ==> exists|m: int|
            before.len() <= m < i && (#[trigger] after[m]) is Decision,
        forall|j: int|
            before.len() <= j < i && ((#[trigger] after[j]) is Decision || after[j] is Backtrack)
                && (forall|m: int|
                j < m < i ==> !((#[trigger] after[m]) is Decision) && !(after[m] is Backtrack))
                ==> {
                let in_force = if after[j] is Decision {
                    after[j]->Decision_2 as int
                } else {
                    after[j]->Backtrack_1 as int
                };
                &&& after[i] is Decision ==> after[i]->Decision_2 == in_force + 1
                &&& after[i] is Backtrack ==> after[i]->Backtrack_0 == in_force
                    && after[i]->Backtrack_1 < in_force
            },
{
    let start = before.len() as int;
    lemma_levels_bound(levels, start, after, i - start);
    lemma_levels_bound(levels, start, after, i - start + 1);
    assert(observer::is_level_step(levels[i - start], levels[i - start + 1], after[i], true));
    if forall|m: int|
        before.len() <= m < i ==> !((#[trigger] after[m]) is Decision) && !(after[m] is Backtrack) {
        lemma_levels_flat(levels, start, after, start, i);
    }
    if after[i] is Backtrack {
        if forall|m: int| before.len() <= m < i ==> !((#[trigger] after[m]) is Decision) {
            lemma_no_decision(levels, start, after, i);
        }
    }
    assert forall|j: int|
        before.len() <= j < i && ((#[trigger] after[j]) is Decision || after[j] is Backtrack) && (
        forall|m: int|
            j < m < i ==> !((#[trigger] after[m]) is Decision) && !(
            after[m] is Backtrack)) implies {
        let in_force = if after[j] is Decision {
            after[j]->Decision_2 as int
        } else {
            after[j]->Backtrack_1 as int
        };
        &&& after[i] is Decision ==> after[i]->Decision_2 == in_force + 1
        &&& after[i] is Backtrack ==> after[i]->Backtrack_0 == in_force && after[i]->Backtrack_1
            < in_force
    } by {
        assert(observer::is_level_step(levels[j - start], levels[j - start + 1], after[j], true));
        lemma_levels_bound(levels, start, after, j - start + 1);
        lemma_levels_flat(levels, start, after, j + 1, i);
    }
}

/// The levels that an observer is told of are numbers of decisions in force. Without a decision before,
/// that number is zero; a decision makes it one more, and is told with the number that includes it;
/// going back is told with the number before and the number that is left, from which the next
/// decision counts on.
pub proof fn levels_count_the_decisions_in_force<
    DP: DependencyProvider,
    O: SolverObserver<DP::P, DP::VS, DP::M>,
>(
    dp: DP,
    root: Key<DP>,
    version: VersionOf<DP>,
    before: Seq<Observed<Key<DP>, VersionOf<DP>>>,
    after: Seq<Observed<Key<DP>, VersionOf<DP>>>,
    r: Result<SelectedDependencies<DP::P, VersionOf<DP>>, PubGrubError<DP>>,
    i: int,
)
    requires
        solver::tells_resolution::<DP, O>(dp, root, version, before, after, r),
        observer::always_asks::<DP::P, DP::VS, DP::M, O>(),
        after.len() - before.len() <= u32::MAX,
        before.len() <= i < after.len(),
    ensures
        after[i] is Decision && (forall|m: int|
            before.len() <= m < i ==> !((#[trigger] after[m]) is Decision) && !(
            after[m] is Backtrack)) ==> after[i]->Decision_2 == 1,
        after[i] is Backtrack ==> exists|m: int|
            before.len() <= m < i && (#[trigger] after[m]) is Decision,
        forall|j: int|
            before.len() <= j < i && ((#[trigger] after[j]) is Decision || after[j] is Backtrack)
                && (forall|m: int|
                j < m < i ==> !((#[trigger] after[m]) is Decision) && !(after[m] is Backtrack))
                ==> {
                let in_force = if after[j] is Decision {
                    after[j]->Decision_2 as int
                } else {
                    after[j]->Backtrack_1 as int
                };
                &&& after[i] is Decision ==> after[i]->Decision_2 == in_force + 1
                &&& after[i] is Backtrack ==> after[i]->Backtrack_0 == in_force
                    && after[i]->Backtrack_1 < in_force
            },
{
    let last = lemma_resolution_levels::<DP, O>(dp, root, version, before, after, r);
    reveal(observer::count_levels);
    let levels = choose|levels: Seq<int>| #[trigger]
        observer::are_levels(levels, before.len() as int, after, true) && levels[0] == 0;
    lemma_levels_at(levels, before, after, i);
}

/// The provider is asked anew whether to go on, with what it answers then: before the first event of a
/// run, between any two choices of a package, and after every decision. The run goes on where it lets
/// it, and its first error is what the run returns.
pub proof fn provider_is_asked_before_every_step<DP: DependencyProvider, T>(
    dp: DP,
    earlier: Seq<(int, Result<(), DP::Err>)>,
    polls: Seq<(int, Result<(), DP::Err>)>,
    before: Seq<Observed<Key<DP>, VersionOf<DP>>>,
    after: Seq<Observed<Key<DP>, VersionOf<DP>>>,
    r: Result<T, PubGrubError<DP>>,
)
    requires
        polls::are_in_time(dp, earlier, polls, before, after, r),
    ensures
        earlier.len() < polls.len(),
        forall|j: int|
            earlier.len() <= j < polls.len() ==> call_ensures(
                DP::should_cancel,
                (&dp,),
                (#[trigger] polls[j]).1,
            ),
        polls[earlier.len() as int].0 == before.len(),
        forall|a: int, b: int|
            before.len() <= a < b < after.len() && (#[trigger] after[a]) is PackageChoice && (
            #[trigger] after[b]) is PackageChoice ==> exists|j: int|
                earlier.len() <= j < polls.len() && a < (#[trigger] polls[j]).0 <= b,
        forall|i: int|
            before.len() <= i < after.len() && (#[trigger] after[i]) is Decision ==> exists|j: int|
                earlier.len() <= j < polls.len() && (#[trigger] polls[j]).0 == i + 1,
        forall|j: int|
            earlier.len() <= j < polls.len() && (#[trigger] polls[j]).1 is Err ==> r is Err
                && r->Err_0 == PubGrubError::<DP>::ErrorInShouldCancel(polls[j].1->Err_0) && j
                == polls.len() - 1,
        r is Err && r->Err_0 is ErrorInShouldCancel ==> polls.last().1 == Err::<(), DP::Err>(
            r->Err_0->ErrorInShouldCancel_0,
        ),
{
    reveal(polls::are_in_time);
    assert forall|j: int|
        earlier.len() <= j < polls.len() && (#[trigger] polls[j]).1 is Err implies r is Err
        && r->Err_0 == PubGrubError::<DP>::ErrorInShouldCancel(polls[j].1->Err_0) && j
        == polls.len() - 1 by {
        if j < polls.len() - 1 {
            assert(polls[j].1 is Ok);
        }
    }
}

/// The relations between versions are those that the caller's mappings return.
pub proof fn versions_compare_as_the_mappings_say<
    VS: VersionSet,
    E: Fn(&VS::V) -> VS,
    R: Fn(&VS::V) -> VS,
    F: Fn(&VS::V) -> VS,
>(version_ordering: VersionOrdering<E, R, F>, v: VS::V, same: VS, equal: VS, higher: VS)
    requires
        ordering::is_ordering::<VS, E, R, F>(version_ordering),
        version_ordering.identity().ensures((&v,), same),
        version_ordering.rank().ensures((&v,), equal),
        version_ordering.upgrade().ensures((&v,), higher),
    ensures
        (ordering::precedence::<VS, E, R, F>(version_ordering).same)(v) == same@,
        (ordering::precedence::<VS, E, R, F>(version_ordering).equal)(v) == equal@,
        (ordering::precedence::<VS, E, R, F>(version_ordering).higher)(v) == higher@,
{
    ordering::lemma_mapped::<VS, E>(version_ordering.identity(), v, same);
    ordering::lemma_mapped::<VS, R>(version_ordering.rank(), v, equal);
    ordering::lemma_mapped::<VS, F>(version_ordering.upgrade(), v, higher);
}

/// The packages that are compared are the given ones other than the root.
proof fn lemma_projected<P: Package>(root: P::V, packages: Seq<P>)
    ensures
        forall|k: P::V| #[trigger]
            maximal::projection_of(root, package::keys(packages)).contains(k) <==> k != root
                && exists|m: int| 0 <= m < packages.len() && (#[trigger] packages[m])@ == k,
{
    let keys = package::keys(packages);
    maximal::projection_holds_every_other_package_once(root, keys);
    assert forall|k: P::V| keys.contains(k) <==> exists|m: int|
        0 <= m < packages.len() && (#[trigger] packages[m])@ == k by {
        if keys.contains(k) {
            let m = choose|m: int| 0 <= m < keys.len() && keys[m] == k;
            assert(packages[m]@ == k);
        }
        if exists|m: int| 0 <= m < packages.len() && (#[trigger] packages[m])@ == k {
            let m = choose|m: int| 0 <= m < packages.len() && (#[trigger] packages[m])@ == k;
            assert(keys[m] == k);
        }
    }
}

proof fn lemma_not_upgraded<DP: DependencyProvider>(
    dp: DP,
    root: Key<DP>,
    version: VersionOf<DP>,
    demands: search::Clause<Key<DP>, VersionOf<DP>>,
    o: Precedence<VersionOf<DP>>,
    packages: Seq<DP::P>,
    solutions: Seq<SelectedDependencies<DP::P, VersionOf<DP>>>,
    j: int,
    s: Selection<DP>,
    u: int,
)
    requires
        maximal::is_maximal_set(
            dp,
            root,
            version,
            demands,
            o,
            maximal::projection_of(root, package::keys(packages)),
            maximal::selections(solutions),
        ),
        0 <= j < solutions.len(),
        problem::is_solution(dp, root, version, s),
        search::violates(demands, s),
        0 <= u < packages.len(),
        packages[u]@ != root,
        solutions[j]@.dom().contains(packages[u]@),
        s.dom().contains(packages[u]@),
        (o.higher)(solutions[j]@[packages[u]@]).contains(s[packages[u]@]),
    ensures
        exists|m: int|
            0 <= m < packages.len() && (#[trigger] packages[m])@ != root && packages[m]@
                != packages[u]@ && solutions[j]@.dom().contains(packages[m]@) && !(
            s.dom().contains(packages[m]@) && ((o.equal)(
                solutions[j]@[packages[m]@],
            ).contains(s[packages[m]@]) || (o.higher)(solutions[j]@[packages[m]@]).contains(
                s[packages[m]@],
            ))),
{
    let projection = maximal::projection_of(root, package::keys(packages));
    let found = maximal::selections(solutions);
    let x = solutions[j]@;
    let k = packages[u]@;
    lemma_projected(root, packages);
    assert(found[j] == x);
    assert(maximal::is_peak(dp, root, version, demands, o, projection, found[j]));
    assert(maximal::qualifies(dp, root, version, demands, s));
    if forall|m: int|
        0 <= m < packages.len() && (#[trigger] packages[m])@ != root && packages[m]@ != k
            && x.dom().contains(packages[m]@) ==> s.dom().contains(packages[m]@) && ((o.equal)(
            x[packages[m]@],
        ).contains(s[packages[m]@]) || (o.higher)(x[packages[m]@]).contains(s[packages[m]@])) {
        assert(o.improves(projection, x, s, k)) by {
            assert(projection.contains(k));
            assert forall|q: Key<DP>| #[trigger] x.dom().contains(q) && projection.contains(
                q,
            ) implies {
                &&& s.dom().contains(q)
                &&& if q == k {
                    (o.higher)(x[q]).contains(s[q])
                } else {
                    o.at_least(x[q]).contains(s[q])
                }
            } by {
                let m = choose|m: int| 0 <= m < packages.len() && (#[trigger] packages[m])@ == q;
                assert(packages[m]@ == q);
            }
        }
        assert(o.dominates(projection, x, s));
    }
}

/// No solution upgrades one of the given packages in a returned solution, unless it downgrades another
/// one of them or leaves it out.
pub proof fn returned_solution_is_not_upgraded<DP: DependencyProvider>(
    dp: DP,
    root: Key<DP>,
    version: VersionOf<DP>,
    o: Precedence<VersionOf<DP>>,
    packages: Seq<DP::P>,
    solutions: MaximalSolutions<DP::P, VersionOf<DP>>,
    j: int,
    s: Selection<DP>,
    u: int,
)
    requires
        solver::maximized(
            dp,
            root,
            version,
            Seq::empty(),
            o,
            maximal::projection_of(root, package::keys(packages)),
            Ok(solutions),
        ),
        0 <= j < solutions@.len(),
        problem::is_solution(dp, root, version, s),
        0 <= u < packages.len(),
        packages[u]@ != root,
        solutions@[j]@.dom().contains(packages[u]@),
        s.dom().contains(packages[u]@),
        (o.higher)(solutions@[j]@[packages[u]@]).contains(s[packages[u]@]),
    ensures
        exists|m: int|
            0 <= m < packages.len() && (#[trigger] packages[m])@ != root && packages[m]@
                != packages[u]@ && solutions@[j]@.dom().contains(packages[m]@) && !(
            s.dom().contains(packages[m]@) && ((o.equal)(
                solutions@[j]@[packages[m]@],
            ).contains(s[packages[m]@]) || (o.higher)(solutions@[j]@[packages[m]@]).contains(
                s[packages[m]@],
            ))),
{
    lemma_not_upgraded(
        dp,
        root,
        version,
        Seq::empty(),
        o,
        packages,
        solutions@,
        j,
        s,
        u,
    );
}

/// The same holds under decisions, of the solutions that meet those about packages other than the root.
pub proof fn returned_solution_is_not_upgraded_under_decisions<DP: DependencyProvider>(
    dp: DP,
    root: Key<DP>,
    version: VersionOf<DP>,
    decisions: Seq<PreferenceDecision<DP::P, DP::VS>>,
    o: Precedence<VersionOf<DP>>,
    packages: Seq<DP::P>,
    solutions: MaximalSolutions<DP::P, VersionOf<DP>>,
    j: int,
    s: Selection<DP>,
    u: int,
)
    requires
        solver::maximized(
            dp,
            root,
            version,
            preference::demands(solver::foreign(root, decisions)),
            o,
            maximal::projection_of(root, package::keys(packages)),
            Ok(solutions),
        ),
        0 <= j < solutions@.len(),
        problem::is_solution(dp, root, version, s),
        forall|i: int|
            0 <= i < decisions.len() && (#[trigger] decisions[i]).key() != root
                ==> decisions[i].states().contains(s.get(decisions[i].key()))
                == decisions[i].satisfied(),
        0 <= u < packages.len(),
        packages[u]@ != root,
        solutions@[j]@.dom().contains(packages[u]@),
        s.dom().contains(packages[u]@),
        (o.higher)(solutions@[j]@[packages[u]@]).contains(s[packages[u]@]),
    ensures
        exists|m: int|
            0 <= m < packages.len() && (#[trigger] packages[m])@ != root && packages[m]@
                != packages[u]@ && solutions@[j]@.dom().contains(packages[m]@) && !(
            s.dom().contains(packages[m]@) && ((o.equal)(
                solutions@[j]@[packages[m]@],
            ).contains(s[packages[m]@]) || (o.higher)(solutions@[j]@[packages[m]@]).contains(
                s[packages[m]@],
            ))),
{
    lemma_demanded(root, decisions, s);
    lemma_not_upgraded(
        dp,
        root,
        version,
        preference::demands(solver::foreign(root, decisions)),
        o,
        packages,
        solutions@,
        j,
        s,
        u,
    );
}

/// Among the solutions that preserve the same of the caller's preferences as a returned one, none
/// upgrades one of the given packages in it, unless it downgrades another one of them or leaves it
/// out.
pub proof fn minimal_change_is_not_upgraded<DP: DependencyProvider>(
    dp: DP,
    root: Key<DP>,
    version: VersionOf<DP>,
    preferences: Seq<PackagePreference<DP::P, DP::VS>>,
    o: Precedence<VersionOf<DP>>,
    packages: Seq<DP::P>,
    solutions: MaximalSolutions<DP::P, VersionOf<DP>>,
    j: int,
    s: Selection<DP>,
    u: int,
)
    requires
        solver::minimally_changed(
            dp,
            root,
            version,
            solver::usable_among(root, preferences),
            o,
            maximal::projection_of(root, package::keys(packages)),
            Ok(solutions),
        ),
        0 <= j < solutions@.len(),
        problem::is_solution(dp, root, version, s),
        forall|i: int|
            0 <= i < preferences.len() ==> (#[trigger] preferences[i]).states().contains(
                s.get(preferences[i].key()),
            ) == preferences[i].states().contains(solutions@[j]@.get(preferences[i].key())),
        0 <= u < packages.len(),
        packages[u]@ != root,
        solutions@[j]@.dom().contains(packages[u]@),
        s.dom().contains(packages[u]@),
        (o.higher)(solutions@[j]@[packages[u]@]).contains(s[packages[u]@]),
    ensures
        exists|m: int|
            0 <= m < packages.len() && (#[trigger] packages[m])@ != root && packages[m]@
                != packages[u]@ && solutions@[j]@.dom().contains(packages[m]@) && !(
            s.dom().contains(packages[m]@) && ((o.equal)(
                solutions@[j]@[packages[m]@],
            ).contains(s[packages[m]@]) || (o.higher)(solutions@[j]@[packages[m]@]).contains(
                s[packages[m]@],
            ))),
{
    let projection = maximal::projection_of(root, package::keys(packages));
    let kept = solver::usable_among(root, preferences);
    let found = maximal::selections(solutions@);
    let x = solutions@[j]@;
    let k = packages[u]@;
    assert(found[j] == x);
    laws::lemma_minimal_change_solves(dp, root, version, kept, o, projection, found, j);
    lemma_same_usable(dp, root, version, preferences, x, s);
    lemma_same_usable(dp, root, version, preferences, s, x);
    front::lemma_includes_antisymmetric(front::profile(kept, s), front::profile(kept, x));
    laws::minimal_change_maximizes_versions_second(
        dp,
        root,
        version,
        kept,
        o,
        projection,
        found,
        j,
        s,
    );
    if forall|m: int|
        0 <= m < packages.len() && (#[trigger] packages[m])@ != root && packages[m]@
            != packages[u]@ && x.dom().contains(packages[m]@) ==> s.dom().contains(packages[m]@) && (
        (o.equal)(x[packages[m]@]).contains(s[packages[m]@]) || (o.higher)(
            x[packages[m]@],
        ).contains(s[packages[m]@])) {
        lemma_projected(root, packages);
        assert(o.improves(projection, x, s, k)) by {
            assert(projection.contains(k));
            assert forall|q: Key<DP>| #[trigger] x.dom().contains(q) && projection.contains(
                q,
            ) implies {
                &&& s.dom().contains(q)
                &&& if q == k {
                    (o.higher)(x[q]).contains(s[q])
                } else {
                    o.at_least(x[q]).contains(s[q])
                }
            } by {
                let m = choose|m: int| 0 <= m < packages.len() && (#[trigger] packages[m])@ == q;
                assert(packages[m]@ == q);
            }
        }
        assert(o.dominates(projection, x, s));
    }
}

/// Every solution that meets the demands is answered for by a returned one: on the given packages
/// that the returned one selects it has the same realizations, or it has one of them at a version
/// that is neither of equal rank nor an upgrade, and upgrades none.
proof fn lemma_answered_for<DP: DependencyProvider>(
    dp: DP,
    root: Key<DP>,
    version: VersionOf<DP>,
    demands: search::Clause<Key<DP>, VersionOf<DP>>,
    o: Precedence<VersionOf<DP>>,
    packages: Seq<DP::P>,
    solutions: Seq<SelectedDependencies<DP::P, VersionOf<DP>>>,
    s: Selection<DP>,
) -> (j: int)
    requires
        maximal::is_maximal_set(
            dp,
            root,
            version,
            demands,
            o,
            maximal::projection_of(root, package::keys(packages)),
            maximal::selections(solutions),
        ),
        problem::is_solution(dp, root, version, s),
        search::violates(demands, s),
    ensures
        0 <= j < solutions.len(),
        (forall|m: int|
            0 <= m < packages.len() && (#[trigger] packages[m])@ != root
                && solutions[j]@.dom().contains(packages[m]@) ==> s.dom().contains(packages[m]@) && (
            o.same)(solutions[j]@[packages[m]@]).contains(s[packages[m]@])) || (exists|l: int|
            0 <= l < packages.len() && (#[trigger] packages[l])@ != root
                && solutions[j]@.dom().contains(packages[l]@) && s.dom().contains(packages[l]@)
                && !(o.equal)(solutions[j]@[packages[l]@]).contains(s[packages[l]@]) && !(o.higher)(
                solutions[j]@[packages[l]@],
            ).contains(s[packages[l]@])),
        (forall|m: int|
            0 <= m < packages.len() && (#[trigger] packages[m])@ != root
                && solutions[j]@.dom().contains(packages[m]@) ==> s.dom().contains(packages[m]@) && (
            o.same)(solutions[j]@[packages[m]@]).contains(s[packages[m]@])) || (forall|m: int|
            0 <= m < packages.len() && (#[trigger] packages[m])@ != root
                && solutions[j]@.dom().contains(packages[m]@) && s.dom().contains(packages[m]@)
                ==> !(o.higher)(solutions[j]@[packages[m]@]).contains(s[packages[m]@])),
{
    let projection = maximal::projection_of(root, package::keys(packages));
    let found = maximal::selections(solutions);
    lemma_projected(root, packages);
    assert(maximal::qualifies(dp, root, version, demands, s));
    let j = choose|j: int| 0 <= j < found.len() && o.speaks_for(projection, #[trigger] found[j], s);
    let x = solutions[j]@;
    assert(found[j] == x);
    if o.repeats(projection, x, s) {
        assert forall|m: int|
            0 <= m < packages.len() && (#[trigger] packages[m])@ != root && x.dom().contains(
                packages[m]@,
            ) implies s.dom().contains(packages[m]@) && (o.same)(x[packages[m]@]).contains(
            s[packages[m]@],
        ) by {
            assert(projection.contains(packages[m]@));
        }
    } else {
        let k = choose|k: Key<DP>| #[trigger] o.falls_short(projection, x, s, k);
        let l = choose|l: int| 0 <= l < packages.len() && (#[trigger] packages[l])@ == k;
        assert(packages[l]@ == k);
        assert(x.dom().contains(k) && projection.contains(k));
        assert forall|m: int|
            0 <= m < packages.len() && (#[trigger] packages[m])@ != root && x.dom().contains(
                packages[m]@,
            ) && s.dom().contains(packages[m]@) implies !(o.higher)(x[packages[m]@]).contains(
            s[packages[m]@],
        ) by {
            assert(projection.contains(packages[m]@));
        }
    }
    j
}

/// No solution is lost: a returned one has the same realizations of the given packages that it
/// selects, or has one of them at a version of which that solution has neither an equal nor a higher
/// one, while that solution upgrades none of them.
pub proof fn every_solution_is_answered_for<DP: DependencyProvider>(
    dp: DP,
    root: Key<DP>,
    version: VersionOf<DP>,
    o: Precedence<VersionOf<DP>>,
    packages: Seq<DP::P>,
    solutions: MaximalSolutions<DP::P, VersionOf<DP>>,
    s: Selection<DP>,
) -> (j: int)
    requires
        solver::maximized(
            dp,
            root,
            version,
            Seq::empty(),
            o,
            maximal::projection_of(root, package::keys(packages)),
            Ok(solutions),
        ),
        problem::is_solution(dp, root, version, s),
    ensures
        0 <= j < solutions@.len(),
        problem::is_solution(dp, root, version, solutions@[j]@),
        (forall|m: int|
            0 <= m < packages.len() && (#[trigger] packages[m])@ != root
                && solutions@[j]@.dom().contains(packages[m]@) ==> s.dom().contains(packages[m]@)
                && (o.same)(solutions@[j]@[packages[m]@]).contains(s[packages[m]@])) || ((exists|
            l: int,
        |
            0 <= l < packages.len() && (#[trigger] packages[l])@ != root
                && solutions@[j]@.dom().contains(packages[l]@) && s.dom().contains(packages[l]@)
                && !(o.equal)(solutions@[j]@[packages[l]@]).contains(s[packages[l]@]) && !(
            o.higher)(solutions@[j]@[packages[l]@]).contains(s[packages[l]@])) && (forall|m: int|
            0 <= m < packages.len() && (#[trigger] packages[m])@ != root
                && solutions@[j]@.dom().contains(packages[m]@) && s.dom().contains(packages[m]@)
                ==> !(o.higher)(solutions@[j]@[packages[m]@]).contains(s[packages[m]@]))),
{
    let j = lemma_answered_for(
        dp,
        root,
        version,
        Seq::empty(),
        o,
        packages,
        solutions@,
        s,
    );
    let found = maximal::selections(solutions@);
    assert(maximal::is_peak(
        dp,
        root,
        version,
        Seq::empty(),
        o,
        maximal::projection_of(root, package::keys(packages)),
        found[j],
    ));
    assert(found[j] == solutions@[j]@);
    j
}

/// The same holds under decisions, of the solutions that meet those about packages other than the root.
pub proof fn every_solution_under_decisions_is_answered_for<DP: DependencyProvider>(
    dp: DP,
    root: Key<DP>,
    version: VersionOf<DP>,
    decisions: Seq<PreferenceDecision<DP::P, DP::VS>>,
    o: Precedence<VersionOf<DP>>,
    packages: Seq<DP::P>,
    solutions: MaximalSolutions<DP::P, VersionOf<DP>>,
    s: Selection<DP>,
) -> (j: int)
    requires
        solver::maximized(
            dp,
            root,
            version,
            preference::demands(solver::foreign(root, decisions)),
            o,
            maximal::projection_of(root, package::keys(packages)),
            Ok(solutions),
        ),
        problem::is_solution(dp, root, version, s),
        forall|i: int|
            0 <= i < decisions.len() && (#[trigger] decisions[i]).key() != root
                ==> decisions[i].states().contains(s.get(decisions[i].key()))
                == decisions[i].satisfied(),
    ensures
        0 <= j < solutions@.len(),
        problem::is_solution(dp, root, version, solutions@[j]@),
        (forall|m: int|
            0 <= m < packages.len() && (#[trigger] packages[m])@ != root
                && solutions@[j]@.dom().contains(packages[m]@) ==> s.dom().contains(packages[m]@)
                && (o.same)(solutions@[j]@[packages[m]@]).contains(s[packages[m]@])) || ((exists|
            l: int,
        |
            0 <= l < packages.len() && (#[trigger] packages[l])@ != root
                && solutions@[j]@.dom().contains(packages[l]@) && s.dom().contains(packages[l]@)
                && !(o.equal)(solutions@[j]@[packages[l]@]).contains(s[packages[l]@]) && !(
            o.higher)(solutions@[j]@[packages[l]@]).contains(s[packages[l]@])) && (forall|m: int|
            0 <= m < packages.len() && (#[trigger] packages[m])@ != root
                && solutions@[j]@.dom().contains(packages[m]@) && s.dom().contains(packages[m]@)
                ==> !(o.higher)(solutions@[j]@[packages[m]@]).contains(s[packages[m]@]))),
{
    let demands = preference::demands(solver::foreign(root, decisions));
    lemma_demanded(root, decisions, s);
    let j = lemma_answered_for(dp, root, version, demands, o, packages, solutions@, s);
    let found = maximal::selections(solutions@);
    assert(maximal::is_peak(
        dp,
        root,
        version,
        demands,
        o,
        maximal::projection_of(root, package::keys(packages)),
        found[j],
    ));
    assert(found[j] == solutions@[j]@);
    j
}

/// A resolution that returns a selection returns a solution, and one that fails for want of a solution
/// does so only where there is none. Unless the provider may fail, one of the two is returned.
pub proof fn resolution_finds_what_there_is<DP: DependencyProvider>(
    dp: DP,
    root: Key<DP>,
    version: VersionOf<DP>,
    r: Result<SelectedDependencies<DP::P, VersionOf<DP>>, PubGrubError<DP>>,
    s: Selection<DP>,
)
    requires
        solver::resolved(dp, root, version, r),
    ensures
        r matches Ok(solution) ==> problem::is_solution(dp, root, version, solution@),
        r is Err && r->Err_0 is NoSolution ==> !problem::is_solution(dp, root, version, s),
        !dp.may_fail() ==> r is Ok || r->Err_0 is NoSolution,
        r matches Err(PubGrubError::ErrorInShouldCancel(source)) ==> call_ensures(
            DP::should_cancel,
            (&dp,),
            Err(source),
        ),
        r matches Err(PubGrubError::ErrorChoosingVersion { package, source }) ==> exists|
            p: DP::P,
            range: DP::VS,
        |
            p@ == package@ && #[trigger] call_ensures(
                DP::choose_version,
                (&dp, &p, &range),
                Err(source),
            ),
        r matches Err(
            PubGrubError::ErrorRetrievingDependencies { package, version: asked, source },
        ) ==> exists|p: DP::P|
            #![trigger call_ensures(DP::get_dependencies, (&dp, &p, &asked), Err(source))]
            #![trigger call_ensures(DP::get_incompatibilities, (&dp, &p, &asked), Err(source))]
            p@ == package@ && (call_ensures(
                DP::get_dependencies,
                (&dp, &p, &asked),
                Err(source),
            ) || call_ensures(DP::get_incompatibilities, (&dp, &p, &asked), Err(source))),
        !(r is Err && r->Err_0 is InvalidVersionOrdering),
{
}

proof fn lemma_asks_for_one<DP: DependencyProvider>(dp: DP)
    requires
        forall|k: Key<DP>, v: VersionOf<DP>, i: int, a: int, b: int|
            #![trigger dp.conflicts(k, v)[i][a], dp.conflicts(k, v)[i][b]]
            0 <= i < dp.conflicts(k, v).len() && 0 <= a < dp.conflicts(k, v)[i].len() && 0 <= b
                < dp.conflicts(k, v)[i].len() && dp.conflicts(k, v)[i][a].1.contains(None)
                && dp.conflicts(k, v)[i][b].1.contains(None) ==> dp.conflicts(k, v)[i][a].0
                == dp.conflicts(k, v)[i][b].0,
    ensures
        problem::asks_for_one(dp),
{
    assert(problem::asks_for_one(dp)) by {
        assert forall|k: Key<DP>, v: VersionOf<DP>, i: int|
            0 <= i < dp.conflicts(k, v).len() implies problem::is_definite(
            #[trigger] dp.conflicts(k, v)[i],
        ) by {
            let clause = dp.conflicts(k, v)[i];
            assert forall|a: int, b: int|
                0 <= a < clause.len() && 0 <= b < clause.len() && (
                #[trigger] clause[a]).1.contains(None) && (#[trigger] clause[b]).1.contains(
                    None,
                ) implies clause[a].0 == clause[b].0 by {
                assert(dp.conflicts(k, v)[i][a].1.contains(None));
                assert(dp.conflicts(k, v)[i][b].1.contains(None));
            }
        }
    }
}

/// Where every declared incompatibility has at most one package that may be absent when it holds, a
/// resolution returns nothing that could be left out: no solution selects less at the same versions.
pub proof fn nothing_returned_can_be_left_out<DP: DependencyProvider>(
    dp: DP,
    root: Key<DP>,
    version: VersionOf<DP>,
    solution: SelectedDependencies<DP::P, VersionOf<DP>>,
    s: Selection<DP>,
    k: Key<DP>,
)
    requires
        solver::resolved(dp, root, version, Ok(solution)),
        forall|k: Key<DP>, v: VersionOf<DP>, i: int, a: int, b: int|
            #![trigger dp.conflicts(k, v)[i][a], dp.conflicts(k, v)[i][b]]
            0 <= i < dp.conflicts(k, v).len() && 0 <= a < dp.conflicts(k, v)[i].len() && 0 <= b
                < dp.conflicts(k, v)[i].len() && dp.conflicts(k, v)[i][a].1.contains(None)
                && dp.conflicts(k, v)[i][b].1.contains(None) ==> dp.conflicts(k, v)[i][a].0
                == dp.conflicts(k, v)[i][b].0,
        problem::is_solution(dp, root, version, s),
        forall|q: Key<DP>| #[trigger]
            s.dom().contains(q) ==> solution@.dom().contains(q) && solution@[q] == s[q],
        solution@.dom().contains(k),
    ensures
        s.dom().contains(k),
{
    lemma_asks_for_one(dp);
    assert(s.submap_of(solution@));
}

/// Where the usable preferences of a component are found.
spec fn place<P: Package, VS: VersionSet>(
    root: P::V,
    components: Seq<Vec<PackagePreference<P, VS>>>,
    c: int,
) -> int {
    factored::usable_components(root, components.take(c)).len() as int
}

proof fn lemma_place<P: Package, VS: VersionSet>(
    root: P::V,
    components: Seq<Vec<PackagePreference<P, VS>>>,
    n: int,
    c: int,
)
    requires
        0 <= c < n <= components.len(),
        solver::usable_among(root, components[c]@).len() > 0,
    ensures
        0 <= place(root, components, c) < place(root, components, n),
        factored::usable_components(root, components.take(n))[place(root, components, c)]
            == solver::usable_among(root, components[c]@),
    decreases n,
{
    let shorter = components.take(n - 1);
    assert(components.take(n).drop_last() =~= shorter);
    assert(components.take(n).last() == components[n - 1]);
    if c < n - 1 {
        lemma_place(root, components, n - 1, c);
    }
}

proof fn lemma_placed<P: Package, VS: VersionSet>(
    root: P::V,
    components: Seq<Vec<PackagePreference<P, VS>>>,
    n: int,
    u: int,
) -> (c: int)
    requires
        0 <= n <= components.len(),
        0 <= u < factored::usable_components(root, components.take(n)).len(),
    ensures
        0 <= c < n,
        place(root, components, c) == u,
        solver::usable_among(root, components[c]@).len() > 0,
    decreases n,
{
    if n == 0 {
        assert(components.take(0) =~= Seq::empty());
        0
    } else {
        let shorter = components.take(n - 1);
        assert(components.take(n).drop_last() =~= shorter);
        assert(components.take(n).last() == components[n - 1]);
        if u < factored::usable_components(root, shorter).len() {
            lemma_placed(root, components, n - 1, u)
        } else {
            n - 1
        }
    }
}

/// What solutions preserve of the given components compares like what they preserve of the usable ones.
proof fn lemma_same_usable_components<DP: DependencyProvider>(
    dp: DP,
    root: Key<DP>,
    version: VersionOf<DP>,
    components: Seq<Vec<PackagePreference<DP::P, DP::VS>>>,
    a: Selection<DP>,
    b: Selection<DP>,
)
    requires
        problem::is_solution(dp, root, version, a),
        problem::is_solution(dp, root, version, b),
    ensures
        (forall|c: int, i: int|
            0 <= c < components.len() && 0 <= i < components[c]@.len() && (
            #[trigger] components[c]@[i]).states().contains(a.get(components[c]@[i].key()))
                ==> components[c]@[i].states().contains(b.get(components[c]@[i].key())))
            <==> factored::includes_all(
            factored::profiles(factored::usable_components(root, components), b),
            factored::profiles(factored::usable_components(root, components), a),
        ),
{
    let kept = factored::usable_components(root, components);
    let more = factored::profiles(kept, b);
    let less = factored::profiles(kept, a);
    let n = components.len() as int;
    assert(components.take(n) =~= components);
    if forall|c: int, i: int|
        0 <= c < components.len() && 0 <= i < components[c]@.len() && (
        #[trigger] components[c]@[i]).states().contains(a.get(components[c]@[i].key()))
            ==> components[c]@[i].states().contains(b.get(components[c]@[i].key())) {
        assert forall|u: int| 0 <= u < less.len() implies front::includes(
            more[u],
            #[trigger] less[u],
        ) by {
            let c = lemma_placed(root, components, n, u);
            lemma_place(root, components, n, c);
            let list = components[c]@;
            assert forall|i: int|
                0 <= i < list.len() && (#[trigger] list[i]).states().contains(
                    a.get(list[i].key()),
                ) implies list[i].states().contains(b.get(list[i].key())) by {
                assert(components[c]@[i].states().contains(a.get(components[c]@[i].key())));
            }
            lemma_same_usable(dp, root, version, list, a, b);
        }
    }
    if factored::includes_all(more, less) {
        assert forall|c: int, i: int|
            0 <= c < components.len() && 0 <= i < components[c]@.len() && (
            #[trigger] components[c]@[i]).states().contains(
                a.get(components[c]@[i].key()),
            ) implies components[c]@[i].states().contains(b.get(components[c]@[i].key())) by {
            let list = components[c]@;
            let usable = solver::usable_among(root, list);
            if usable.len() > 0 {
                lemma_place(root, components, n, c);
                let u = place(root, components, c);
                assert(front::includes(more[u], less[u]));
            } else {
                assert(front::profile(usable, b) =~= front::profile(usable, a));
            }
            assert(front::includes(front::profile(usable, b), front::profile(usable, a)));
            lemma_same_usable(dp, root, version, list, a, b);
            assert(list[i].states().contains(a.get(list[i].key())));
        }
    }
}

/// Whatever solutions preserve of each given component can be preserved together.
spec fn are_uncoupled<DP: DependencyProvider>(
    dp: DP,
    root: Key<DP>,
    version: VersionOf<DP>,
    components: Seq<Vec<PackagePreference<DP::P, DP::VS>>>,
) -> bool {
    forall|picks: Seq<Selection<DP>>|
        picks.len() == components.len() && (forall|c: int|
            0 <= c < picks.len() ==> problem::is_solution(dp, root, version, #[trigger] picks[c]))
            ==> #[trigger] are_joined(dp, root, version, components, picks)
}

spec fn are_joined<DP: DependencyProvider>(
    dp: DP,
    root: Key<DP>,
    version: VersionOf<DP>,
    components: Seq<Vec<PackagePreference<DP::P, DP::VS>>>,
    picks: Seq<Selection<DP>>,
) -> bool {
    exists|t: Selection<DP>| #[trigger]
        problem::is_solution(dp, root, version, t) && forall|c: int, i: int|
            0 <= c < components.len() && 0 <= i < components[c]@.len() ==> (
            #[trigger] components[c]@[i]).states().contains(t.get(components[c]@[i].key()))
                == components[c]@[i].states().contains(picks[c].get(components[c]@[i].key()))
}

proof fn lemma_uncoupled<DP: DependencyProvider>(
    dp: DP,
    root: Key<DP>,
    version: VersionOf<DP>,
    components: Seq<Vec<PackagePreference<DP::P, DP::VS>>>,
    some: Selection<DP>,
)
    requires
        are_uncoupled(dp, root, version, components),
        problem::is_solution(dp, root, version, some),
    ensures
        factored::independent(dp, root, version, factored::usable_components(root, components)),
{
    let kept = factored::usable_components(root, components);
    let n = components.len() as int;
    assert(components.take(n) =~= components);
    assert forall|rows: Seq<Seq<bool>>|
        rows.len() == kept.len() && (forall|u: int|
            0 <= u < rows.len() ==> front::achievable(
                dp,
                root,
                version,
                kept[u],
                #[trigger] rows[u],
            )) implies #[trigger] factored::jointly_achievable(dp, root, version, kept, rows) by {
        let picks = Seq::new(
            components.len(),
            |c: int|
                if solver::usable_among(root, components[c]@).len() > 0 {
                    choose|s: Selection<DP>| #[trigger]
                        problem::is_solution(dp, root, version, s) && front::profile(
                            kept[place(root, components, c)],
                            s,
                        ) == rows[place(root, components, c)]
                } else {
                    some
                },
        );
        assert forall|c: int| 0 <= c < picks.len() implies problem::is_solution(
            dp,
            root,
            version,
            #[trigger] picks[c],
        ) && (solver::usable_among(root, components[c]@).len() > 0 ==> front::profile(
            kept[place(root, components, c)],
            picks[c],
        ) == rows[place(root, components, c)]) by {
            if solver::usable_among(root, components[c]@).len() > 0 {
                lemma_place(root, components, n, c);
                let u = place(root, components, c);
                assert(front::achievable(dp, root, version, kept[u], rows[u]));
            }
        }
        assert(are_joined(dp, root, version, components, picks));
        let t = choose|t: Selection<DP>| #[trigger]
            problem::is_solution(dp, root, version, t) && forall|c: int, i: int|
                0 <= c < components.len() && 0 <= i < components[c]@.len() ==> (
                #[trigger] components[c]@[i]).states().contains(t.get(components[c]@[i].key()))
                    == components[c]@[i].states().contains(
                    picks[c].get(components[c]@[i].key()),
                );
        assert forall|u: int| 0 <= u < rows.len() implies #[trigger] factored::profiles(
            kept,
            t,
        )[u] == rows[u] by {
            let c = lemma_placed(root, components, n, u);
            lemma_place(root, components, n, c);
            let list = components[c]@;
            let usable = solver::usable_among(root, list);
            lemma_usable(root, list);
            assert(front::profile(usable, picks[c]) == rows[u]);
            assert forall|m: int| 0 <= m < usable.len() implies front::profile(usable, t)[m]
                == front::profile(usable, picks[c])[m] by {
                assert(list.contains(usable[m]));
                let i = choose|i: int| 0 <= i < list.len() && list[i] == usable[m];
                assert(components[c]@[i] == usable[m]);
            }
            assert(front::profile(usable, t) =~= rows[u]);
        }
        assert(factored::profiles(kept, t) =~= rows);
    }
}

proof fn lemma_front_of_given<DP: DependencyProvider>(
    dp: DP,
    root: Key<DP>,
    version: VersionOf<DP>,
    components: Seq<Vec<PackagePreference<DP::P, DP::VS>>>,
    product: FactoredPreferenceSolutions<DP::P, DP::VS>,
    s: Selection<DP>,
)
    requires
        solver::factorized(
            dp,
            root,
            version,
            factored::usable_components(root, components),
            Ok(product),
        ),
        forall|picks: Seq<Selection<DP>>|
            picks.len() == components.len() && (forall|c: int|
                0 <= c < picks.len() ==> problem::is_solution(
                    dp,
                    root,
                    version,
                    #[trigger] picks[c],
                )) ==> exists|t: Selection<DP>| #[trigger]
                problem::is_solution(dp, root, version, t) && forall|c: int, i: int|
                    0 <= c < components.len() && 0 <= i < components[c]@.len() ==> (
                    #[trigger] components[c]@[i]).states().contains(
                        t.get(components[c]@[i].key()),
                    ) == components[c]@[i].states().contains(
                        (#[trigger] picks[c]).get(components[c]@[i].key()),
                    ),
        problem::is_solution(dp, root, version, s),
    ensures
        (forall|t: Selection<DP>| #[trigger]
            problem::is_solution(dp, root, version, t) && (forall|c: int, i: int|
                0 <= c < components.len() && 0 <= i < components[c]@.len() && (
                #[trigger] components[c]@[i]).states().contains(s.get(components[c]@[i].key()))
                    ==> components[c]@[i].states().contains(t.get(components[c]@[i].key())))
                ==> (forall|c: int, i: int|
                0 <= c < components.len() && 0 <= i < components[c]@.len() && (
                #[trigger] components[c]@[i]).states().contains(t.get(components[c]@[i].key()))
                    ==> components[c]@[i].states().contains(s.get(components[c]@[i].key()))))
            <==> exists|selected: Seq<usize>| #[trigger]
            factored::is_assignment(product.open_choices(), selected) && factored::all_met(
                product.shared() + preference::picked(product.open_choices(), selected),
                s,
            ),
{
    let kept = factored::usable_components(root, components);
    let rows = factored::profiles(kept, s);
    assert(are_uncoupled(dp, root, version, components)) by {
        assert forall|picks: Seq<Selection<DP>>|
            picks.len() == components.len() && (forall|c: int|
                0 <= c < picks.len() ==> problem::is_solution(
                    dp,
                    root,
                    version,
                    #[trigger] picks[c],
                )) implies #[trigger] are_joined(dp, root, version, components, picks) by {}
    }
    lemma_uncoupled(dp, root, version, components, s);
    laws::product_is_the_pareto_front(dp, root, version, kept, product, s);
    assert(factored::jointly_achievable(dp, root, version, kept, rows));
    if factored::jointly_maximal(dp, root, version, kept, rows) {
        assert forall|t: Selection<DP>| #[trigger]
            problem::is_solution(dp, root, version, t) && (forall|c: int, i: int|
                0 <= c < components.len() && 0 <= i < components[c]@.len() && (
                #[trigger] components[c]@[i]).states().contains(s.get(components[c]@[i].key()))
                    ==> components[c]@[i].states().contains(
                    t.get(components[c]@[i].key()),
                )) implies forall|c: int, i: int|
            0 <= c < components.len() && 0 <= i < components[c]@.len() && (
            #[trigger] components[c]@[i]).states().contains(t.get(components[c]@[i].key()))
                ==> components[c]@[i].states().contains(s.get(components[c]@[i].key())) by {
            lemma_same_usable_components(dp, root, version, components, s, t);
            let other = factored::profiles(kept, t);
            assert(factored::jointly_achievable(dp, root, version, kept, other));
            assert(other == rows);
            assert(factored::includes_all(rows, other));
            lemma_same_usable_components(dp, root, version, components, t, s);
        }
    }
    if forall|t: Selection<DP>| #[trigger]
        problem::is_solution(dp, root, version, t) && (forall|c: int, i: int|
            0 <= c < components.len() && 0 <= i < components[c]@.len() && (
            #[trigger] components[c]@[i]).states().contains(s.get(components[c]@[i].key()))
                ==> components[c]@[i].states().contains(t.get(components[c]@[i].key()))) ==> (
        forall|c: int, i: int|
            0 <= c < components.len() && 0 <= i < components[c]@.len() && (
            #[trigger] components[c]@[i]).states().contains(t.get(components[c]@[i].key()))
                ==> components[c]@[i].states().contains(s.get(components[c]@[i].key()))) {
        assert forall|other: Seq<Seq<bool>>| #[trigger]
            factored::jointly_achievable(dp, root, version, kept, other) && factored::includes_all(
                other,
                rows,
            ) implies other == rows by {
            let t = choose|t: Selection<DP>| #[trigger]
                problem::is_solution(dp, root, version, t) && factored::profiles(kept, t) == other;
            lemma_same_usable_components(dp, root, version, components, s, t);
            lemma_same_usable_components(dp, root, version, components, t, s);
            assert forall|u: int| 0 <= u < rows.len() implies other[u] == rows[u] by {
                assert(front::includes(other[u], rows[u]));
                assert(front::includes(rows[u], other[u]));
                front::lemma_includes_antisymmetric(other[u], rows[u]);
            }
            assert(other =~= rows);
        }
    }
}

/// Where whatever solutions preserve of each given component can be preserved together, a solution
/// that meets every decision of a complete assignment is on the front of the given preferences: no
/// solution preserves all of them that it preserves, and another one.
pub proof fn assignment_is_on_the_front_of_the_given_preferences<DP: DependencyProvider>(
    dp: DP,
    root: Key<DP>,
    version: VersionOf<DP>,
    components: Seq<Vec<PackagePreference<DP::P, DP::VS>>>,
    product: FactoredPreferenceSolutions<DP::P, DP::VS>,
    s: Selection<DP>,
    selected: Seq<usize>,
)
    requires
        solver::factorized(
            dp,
            root,
            version,
            factored::usable_components(root, components),
            Ok(product),
        ),
        forall|picks: Seq<Selection<DP>>|
            picks.len() == components.len() && (forall|c: int|
                0 <= c < picks.len() ==> problem::is_solution(
                    dp,
                    root,
                    version,
                    #[trigger] picks[c],
                )) ==> exists|t: Selection<DP>| #[trigger]
                problem::is_solution(dp, root, version, t) && forall|c: int, i: int|
                    0 <= c < components.len() && 0 <= i < components[c]@.len() ==> (
                    #[trigger] components[c]@[i]).states().contains(
                        t.get(components[c]@[i].key()),
                    ) == components[c]@[i].states().contains(
                        (#[trigger] picks[c]).get(components[c]@[i].key()),
                    ),
        problem::is_solution(dp, root, version, s),
        selected.len() == product.open_choices().len(),
        forall|f: int|
            0 <= f < selected.len() ==> #[trigger] selected[f] < product.open_choices()[f].len(),
        ({
            let decided = product.shared() + preference::picked(product.open_choices(), selected);
            forall|d: int|
                0 <= d < decided.len() ==> (#[trigger] decided[d]).1.contains(
                    s.get(decided[d].0),
                ) == decided[d].2
        }),
    ensures
        (forall|t: Selection<DP>| #[trigger]
            problem::is_solution(dp, root, version, t) && (forall|c: int, i: int|
                0 <= c < components.len() && 0 <= i < components[c]@.len() && (
                #[trigger] components[c]@[i]).states().contains(s.get(components[c]@[i].key()))
                    ==> components[c]@[i].states().contains(t.get(components[c]@[i].key())))
                ==> (forall|c: int, i: int|
                0 <= c < components.len() && 0 <= i < components[c]@.len() && (
                #[trigger] components[c]@[i]).states().contains(t.get(components[c]@[i].key()))
                    ==> components[c]@[i].states().contains(s.get(components[c]@[i].key())))),
{
    lemma_front_of_given(dp, root, version, components, product, s);
    assert(factored::is_assignment(product.open_choices(), selected));
    assert(factored::all_met(
        product.shared() + preference::picked(product.open_choices(), selected),
        s,
    ));
}

/// Where whatever solutions preserve of each given component can be preserved together, a solution on
/// the front of the given preferences meets every decision of some complete assignment.
pub proof fn front_of_the_given_preferences_is_assigned<DP: DependencyProvider>(
    dp: DP,
    root: Key<DP>,
    version: VersionOf<DP>,
    components: Seq<Vec<PackagePreference<DP::P, DP::VS>>>,
    product: FactoredPreferenceSolutions<DP::P, DP::VS>,
    s: Selection<DP>,
) -> (selected: Seq<usize>)
    requires
        solver::factorized(
            dp,
            root,
            version,
            factored::usable_components(root, components),
            Ok(product),
        ),
        forall|picks: Seq<Selection<DP>>|
            picks.len() == components.len() && (forall|c: int|
                0 <= c < picks.len() ==> problem::is_solution(
                    dp,
                    root,
                    version,
                    #[trigger] picks[c],
                )) ==> exists|t: Selection<DP>| #[trigger]
                problem::is_solution(dp, root, version, t) && forall|c: int, i: int|
                    0 <= c < components.len() && 0 <= i < components[c]@.len() ==> (
                    #[trigger] components[c]@[i]).states().contains(
                        t.get(components[c]@[i].key()),
                    ) == components[c]@[i].states().contains(
                        (#[trigger] picks[c]).get(components[c]@[i].key()),
                    ),
        problem::is_solution(dp, root, version, s),
        (forall|t: Selection<DP>| #[trigger]
            problem::is_solution(dp, root, version, t) && (forall|c: int, i: int|
                0 <= c < components.len() && 0 <= i < components[c]@.len() && (
                #[trigger] components[c]@[i]).states().contains(s.get(components[c]@[i].key()))
                    ==> components[c]@[i].states().contains(t.get(components[c]@[i].key())))
                ==> (forall|c: int, i: int|
                0 <= c < components.len() && 0 <= i < components[c]@.len() && (
                #[trigger] components[c]@[i]).states().contains(t.get(components[c]@[i].key()))
                    ==> components[c]@[i].states().contains(s.get(components[c]@[i].key())))),
    ensures
        selected.len() == product.open_choices().len(),
        forall|f: int|
            0 <= f < selected.len() ==> #[trigger] selected[f] < product.open_choices()[f].len(),
        ({
            let decided = product.shared() + preference::picked(product.open_choices(), selected);
            forall|d: int|
                0 <= d < decided.len() ==> (#[trigger] decided[d]).1.contains(
                    s.get(decided[d].0),
                ) == decided[d].2
        }),
{
    lemma_front_of_given(dp, root, version, components, product, s);
    let selected = choose|selected: Seq<usize>| #[trigger]
        factored::is_assignment(product.open_choices(), selected) && factored::all_met(
            product.shared() + preference::picked(product.open_choices(), selected),
            s,
        );
    selected
}

/// A version at which the caller's mappings contradict themselves is pointed out only where they do:
/// it is one of a given package, some solution selects it, and the reason names the first of the
/// conditions that does not hold.
pub proof fn contradiction_is_pointed_out_where_it_is<DP: DependencyProvider>(
    dp: DP,
    root: Key<DP>,
    version: VersionOf<DP>,
    demands: search::Clause<Key<DP>, VersionOf<DP>>,
    o: Precedence<VersionOf<DP>>,
    packages: Seq<DP::P>,
    error: PubGrubError<DP>,
)
    requires
        solver::maximized(
            dp,
            root,
            version,
            demands,
            o,
            maximal::projection_of(root, package::keys(packages)),
            Err(error),
        ),
        error is InvalidVersionOrdering,
    ensures
        ({
            let k = error->InvalidVersionOrdering_package@;
            let v = error->InvalidVersionOrdering_version;
            let reason = error->InvalidVersionOrdering_reason@;
            &&& k != root
            &&& exists|m: int| 0 <= m < packages.len() && (#[trigger] packages[m])@ == k
            &&& exists|s: Selection<DP>| #[trigger]
                problem::is_solution(dp, root, version, s) && s.get(k) == Some(v)
            &&& !((o.same)(v).contains(v)) ==> reason
                == "same_version must contain the selected version"@
            &&& (o.same)(v).contains(v) && !((o.equal)(v).contains(v)) ==> reason
                == "same_precedence must contain the selected version"@
            &&& (o.same)(v).contains(v) && (o.equal)(v).contains(v) && !(o.same)(v).subset_of(
                (o.equal)(v),
            ) ==> reason == "same_version must be a subset of same_precedence"@
            &&& (o.equal)(v).contains(v) && (o.same)(v).contains(v) && (o.same)(v).subset_of(
                (o.equal)(v),
            ) && (o.higher)(v).contains(v) ==> reason
                == "strictly_higher must not contain the selected version"@
            &&& (o.equal)(v).contains(v) && (o.same)(v).contains(v) && (o.same)(v).subset_of(
                (o.equal)(v),
            ) && !(o.higher)(v).contains(v) ==> reason
                == "same_precedence and strictly_higher must be disjoint"@ && exists|w: VersionOf<
                DP,
            >| (o.equal)(v).contains(w) && #[trigger] (o.higher)(v).contains(w)
        }),
{
    lemma_projected(root, packages);
    let projection = maximal::projection_of(root, package::keys(packages));
    let k = error->InvalidVersionOrdering_package@;
    let v = error->InvalidVersionOrdering_version;
    assert(maximal::finds_flaw(dp, root, version, demands, o, projection, error));
    assert(projection.contains(k));
    let s = choose|s: Selection<DP>| #[trigger]
        maximal::qualifies(dp, root, version, demands, s) && s.get(k) == Some(v);
    assert(problem::is_solution(dp, root, version, s) && s.get(k) == Some(v));
    if !(o.equal)(v).disjoint((o.higher)(v)) {
        let w = choose|w: VersionOf<DP>| (o.equal)(v).contains(w) && #[trigger] (o.higher)(
            v,
        ).contains(w);
        assert((o.equal)(v).contains(w) && (o.higher)(v).contains(w));
    }
}

/// At the versions of the given packages that a returned solution selects, the caller's mappings do
/// not contradict themselves.
pub proof fn returned_versions_are_not_contradictory<DP: DependencyProvider>(
    dp: DP,
    root: Key<DP>,
    version: VersionOf<DP>,
    demands: search::Clause<Key<DP>, VersionOf<DP>>,
    o: Precedence<VersionOf<DP>>,
    packages: Seq<DP::P>,
    solutions: MaximalSolutions<DP::P, VersionOf<DP>>,
    j: int,
    m: int,
    w: VersionOf<DP>,
)
    requires
        solver::maximized(
            dp,
            root,
            version,
            demands,
            o,
            maximal::projection_of(root, package::keys(packages)),
            Ok(solutions),
        ),
        0 <= j < solutions@.len(),
        0 <= m < packages.len(),
        packages[m]@ != root,
        solutions@[j]@.dom().contains(packages[m]@),
    ensures
        ({
            let v = solutions@[j]@[packages[m]@];
            &&& (o.same)(v).contains(v)
            &&& (o.equal)(v).contains(v)
            &&& !(o.higher)(v).contains(v)
            &&& (o.same)(v).contains(w) ==> (o.equal)(v).contains(w)
            &&& !((o.equal)(v).contains(w) && (o.higher)(v).contains(w))
        }),
{
    lemma_projected(root, packages);
    let projection = maximal::projection_of(root, package::keys(packages));
    let found = maximal::selections(solutions@);
    let k = packages[m]@;
    assert(found[j] == solutions@[j]@);
    assert(maximal::is_peak(dp, root, version, demands, o, projection, found[j]));
    assert(projection.contains(k));
    assert(o.flaw(found[j][k]) is None);
    let v = solutions@[j]@[k];
    if (o.equal)(v).contains(w) && (o.higher)(v).contains(w) {
        assert(!(o.equal)(v).disjoint((o.higher)(v)));
    }
}

/// Of the solutions returned that select the same given packages, none has the same realizations of
/// all of them as an earlier one.
pub proof fn no_realization_is_returned_twice<DP: DependencyProvider>(
    dp: DP,
    root: Key<DP>,
    version: VersionOf<DP>,
    demands: search::Clause<Key<DP>, VersionOf<DP>>,
    o: Precedence<VersionOf<DP>>,
    packages: Seq<DP::P>,
    solutions: MaximalSolutions<DP::P, VersionOf<DP>>,
    a: int,
    b: int,
)
    requires
        o.is_ranked(finite::offered_versions(dp)),
        solver::maximized(
            dp,
            root,
            version,
            demands,
            o,
            maximal::projection_of(root, package::keys(packages)),
            Ok(solutions),
        ),
        0 <= a < b < solutions@.len(),
        forall|m: int|
            0 <= m < packages.len() && (#[trigger] packages[m])@ != root
                ==> solutions@[a]@.dom().contains(packages[m]@) == solutions@[b]@.dom().contains(
                packages[m]@,
            ),
    ensures
        exists|m: int|
            0 <= m < packages.len() && (#[trigger] packages[m])@ != root
                && solutions@[a]@.dom().contains(packages[m]@) && !(solutions@[b]@.dom().contains(
                packages[m]@,
            ) && (o.same)(solutions@[a]@[packages[m]@]).contains(solutions@[b]@[packages[m]@])),
{
    let projection = maximal::projection_of(root, package::keys(packages));
    let found = maximal::selections(solutions@);
    lemma_projected(root, packages);
    assert(found[a] == solutions@[a]@ && found[b] == solutions@[b]@);
    assert forall|k: Key<DP>| #[trigger] projection.contains(k) implies (found[a].dom().contains(k)
        <==> found[b].dom().contains(k)) by {
        let m = choose|m: int| 0 <= m < packages.len() && (#[trigger] packages[m])@ == k;
        assert(packages[m]@ == k);
    }
    laws::pareto_front_repeats_nothing(dp, root, version, demands, o, projection, found, a, b);
    let k = choose|k: Key<DP>| #[trigger]
        found[a].dom().contains(k) && projection.contains(k) && !(found[b].dom().contains(k) && (
        o.same)(found[a][k]).contains(found[b][k]));
    let m = choose|m: int| 0 <= m < packages.len() && (#[trigger] packages[m])@ == k;
    assert(packages[m]@ == k);
}

proof fn lemma_resolution_path<
    DP: DependencyProvider,
    O: SolverObserver<DP::P, DP::VS, DP::M>,
>(
    dp: DP,
    root: Key<DP>,
    version: VersionOf<DP>,
    before: Seq<Observed<Key<DP>, VersionOf<DP>>>,
    after: Seq<Observed<Key<DP>, VersionOf<DP>>>,
    r: Result<SelectedDependencies<DP::P, VersionOf<DP>>, PubGrubError<DP>>,
) -> (path: Seq<Observed<Key<DP>, VersionOf<DP>>>)
    requires
        solver::tells_resolution::<DP, O>(dp, root, version, before, after, r),
    ensures
        observer::follows_path::<DP::P, DP::VS, DP::M, O>(before, path),
        problem::are_answers(dp, before, path),
        run::retells::<DP, O>(dp, root, version, Seq::empty(), Seq::empty(), before, path),
        run::chooses_first::<DP, O>(dp, root, version, before, path),
        r is Ok ==> after == path.push(Observed::Solution) && observer::at_rest(before, path),
        r is Err ==> after == path,
{
    if r is Ok {
        let path = after.drop_last();
        assert(path.push(after.last()) =~= after);
        path
    } else {
        after
    }
}

/// What an observer is told of choices belongs together: what is said of a version comes right after
/// the choice of its package, within the versions that were allowed, and is what the provider answered
/// for them; a decision comes right after the choice of its version; and where a solution is found, that
/// is the last event, and the only one of its kind.
pub proof fn choices_and_decisions_belong_together<
    DP: DependencyProvider,
    O: SolverObserver<DP::P, DP::VS, DP::M>,
>(
    dp: DP,
    root: Key<DP>,
    version: VersionOf<DP>,
    before: Seq<Observed<Key<DP>, VersionOf<DP>>>,
    after: Seq<Observed<Key<DP>, VersionOf<DP>>>,
    r: Result<SelectedDependencies<DP::P, VersionOf<DP>>, PubGrubError<DP>>,
    i: int,
)
    requires
        solver::tells_resolution::<DP, O>(dp, root, version, before, after, r),
        before.len() <= i < after.len(),
    ensures
        match after[i] {
            Observed::VersionChoice(k, v, allowed) => {
                &&& i > before.len()
                &&& after[i - 1] == Observed::<Key<DP>, VersionOf<DP>>::PackageChoice(k, allowed)
                &&& exists|p: DP::P, set: DP::VS|
                    p@ == k && set@ == allowed && #[trigger] call_ensures(
                        DP::choose_version,
                        (&dp, &p, &set),
                        Ok(Some(v)),
                    )
            },
            Observed::NoVersion(k, allowed) => {
                &&& i > before.len()
                &&& after[i - 1] == Observed::<Key<DP>, VersionOf<DP>>::PackageChoice(k, allowed)
                &&& exists|p: DP::P, set: DP::VS|
                    p@ == k && set@ == allowed && #[trigger] call_ensures(
                        DP::choose_version,
                        (&dp, &p, &set),
                        Ok(None),
                    )
            },
            Observed::Decision(k, v, _) => {
                &&& i > before.len()
                &&& after[i - 1] is VersionChoice
                &&& after[i - 1]->VersionChoice_0 == k
                &&& after[i - 1]->VersionChoice_1 == v
            },
            Observed::PackageChoice(_, _) => {
                ||| i + 1 < after.len() && (after[i + 1] is VersionChoice
                    || after[i + 1] is NoVersion)
                ||| i + 1 == after.len() && r is Err
            },
            Observed::Derivation(_, _, _, _) => true,
            Observed::Conflict(_) => true,
            Observed::Backtrack(_, _, _) => true,
            Observed::Solution => r is Ok && i == after.len() - 1,
            _ => false,
        },
        r is Ok ==> after.last() is Solution,
{
    let path = lemma_resolution_path::<DP, O>(dp, root, version, before, after, r);
    if i < path.len() {
        assert(path[i] == after[i]);
        assert(observer::on_path(path[i]));
        assert(observer::well_placed(before.len() as int, path, i)) by {
            assert(observer::on_path(path[i]) || observer::is_boundary(path[i]));
        }
        assert(problem::is_answer(dp, path[i]));
        if i + 1 < path.len() {
            assert(path[i + 1] == after[i + 1]);
            assert(observer::on_path(path[i + 1]));
            assert(observer::well_placed(before.len() as int, path, i + 1)) by {
                assert(observer::on_path(path[i + 1]) || observer::is_boundary(path[i + 1]));
            }
        }
    }
}

proof fn lemma_committed<DP: DependencyProvider, O: SolverObserver<DP::P, DP::VS, DP::M>>(
    dp: DP,
    root: Key<DP>,
    version: VersionOf<DP>,
    before: Seq<Observed<Key<DP>, VersionOf<DP>>>,
    after: Seq<Observed<Key<DP>, VersionOf<DP>>>,
    r: Result<SelectedDependencies<DP::P, VersionOf<DP>>, PubGrubError<DP>>,
    k: Key<DP>,
)
    requires
        solver::tells_resolution::<DP, O>(dp, root, version, before, after, r),
        r is Ok,
        r->Ok_0@.dom().contains(k),
    ensures
        observer::is_committed(before, after.drop_last(), k, r->Ok_0@[k]),
        after.len() > before.len(),
        after.last() is Solution,
{
}

/// A solution is made of decisions that stand: an observer was told of each of them, and of nothing
/// later on that went back below its level.
pub proof fn solution_is_made_of_decisions_that_stand<
    DP: DependencyProvider,
    O: SolverObserver<DP::P, DP::VS, DP::M>,
>(
    dp: DP,
    root: Key<DP>,
    version: VersionOf<DP>,
    before: Seq<Observed<Key<DP>, VersionOf<DP>>>,
    after: Seq<Observed<Key<DP>, VersionOf<DP>>>,
    solution: SelectedDependencies<DP::P, VersionOf<DP>>,
    k: Key<DP>,
) -> (i: int)
    requires
        solver::tells_resolution::<DP, O>(dp, root, version, before, after, Ok(solution)),
        solution@.dom().contains(k),
    ensures
        before.len() <= i < after.len(),
        after[i] is Decision,
        after[i]->Decision_0 == k,
        after[i]->Decision_1 == solution@[k],
        forall|j: int|
            i < j < after.len() && (#[trigger] after[j]) is Backtrack ==> after[j]->Backtrack_1
                >= after[i]->Decision_2,
{
    let path = after.drop_last();
    lemma_committed::<DP, O>(dp, root, version, before, after, Ok(solution), k);
    let i = choose|i: int|
        before.len() <= i < path.len() && #[trigger] observer::stands(path, i, k, solution@[k]);
    assert(after[i] == path[i]);
    assert forall|j: int| i < j < after.len() && (#[trigger] after[j]) is Backtrack implies
        after[j]->Backtrack_1 >= after[i]->Decision_2 by {
        if j < path.len() {
            assert(path[j] == after[j]);
        }
    }
    i
}

/// The last step about the package is the one that the event at the place tells of.
proof fn lemma_last_step<K, V>(
    start: int,
    log: Seq<Observed<K, V>>,
    j: int,
    i: int,
    k: K,
    set: Set<Option<V>>,
)
    requires
        0 <= start <= j < i <= log.len(),
        match log[j] {
            Observed::Derivation(q, _, current, _) => q == k && current == set,
            Observed::Decision(q, v, _) => q == k && set == set![Some(v)],
            _ => false,
        },
        forall|m: int|
            j < m < i ==> match #[trigger] log[m] {
                Observed::Derivation(q, _, _, _) => q != k,
                Observed::Decision(q, _, _) => q != k,
                Observed::Backtrack(_, _, _) => false,
                _ => true,
            },
    ensures
        trace::is_assigned(trace::retraced(Seq::empty(), start, log.take(i)), k),
        trace::open_states(trace::retraced(Seq::empty(), start, log.take(i)), k) == set,
    decreases i,
{
    let steps = trace::retraced(Seq::empty(), start, log.take(i));
    let earlier = trace::retraced(Seq::empty(), start, log.take(i - 1));
    assert(log.take(i).drop_last() =~= log.take(i - 1));
    assert(log.take(i).last() == log[i - 1]);
    if j == i - 1 {
        assert(steps.last().key == k);
        assert(steps[steps.len() - 1].key == k);
    } else {
        lemma_last_step(start, log, j, i - 1, k, set);
        let m = choose|m: int| 0 <= m < earlier.len() && (#[trigger] earlier[m]).key == k;
        if steps.len() > earlier.len() {
            assert(steps.drop_last() =~= earlier);
            assert(steps[m].key == k);
        }
    }
}

proof fn lemma_no_step<K, V>(start: int, log: Seq<Observed<K, V>>, i: int, k: K)
    requires
        0 <= start <= i <= log.len(),
        forall|m: int|
            start <= m < i ==> match #[trigger] log[m] {
                Observed::Derivation(q, _, _, _) => q != k,
                Observed::Decision(q, _, _) => q != k,
                _ => true,
            },
    ensures
        !trace::is_assigned(trace::retraced(Seq::empty(), start, log.take(i)), k),
    decreases i,
{
    let steps = trace::retraced(Seq::<trace::Step<K, V>>::empty(), start, log.take(i));
    if i > start {
        let earlier = trace::retraced(Seq::<trace::Step<K, V>>::empty(), start, log.take(i - 1));
        assert(log.take(i).drop_last() =~= log.take(i - 1));
        assert(log.take(i).last() == log[i - 1]);
        lemma_no_step(start, log, i - 1, k);
        if log[i - 1] is Backtrack {
            lemma_cut_prefix(earlier, log[i - 1]->Backtrack_1 as int);
        }
        if trace::is_assigned(steps, k) {
            let m = choose|m: int| 0 <= m < steps.len() && (#[trigger] steps[m]).key == k;
            if m < earlier.len() {
                assert(earlier[m] == steps[m]);
            }
        }
    }
}

proof fn lemma_cut_prefix<K, V>(steps: Seq<trace::Step<K, V>>, level: int)
    ensures
        trace::cut(steps, level).len() <= steps.len(),
        forall|m: int|
            0 <= m < trace::cut(steps, level).len() ==> #[trigger] trace::cut(steps, level)[m]
                == steps[m],
    decreases steps.len(),
{
    if steps.len() > 0 && steps.last().level > level {
        lemma_cut_prefix(steps.drop_last(), level);
    }
}

proof fn lemma_levels_are_small<
    DP: DependencyProvider,
    O: SolverObserver<DP::P, DP::VS, DP::M>,
>(
    dp: DP,
    root: Key<DP>,
    version: VersionOf<DP>,
    before: Seq<Observed<Key<DP>, VersionOf<DP>>>,
    after: Seq<Observed<Key<DP>, VersionOf<DP>>>,
    r: Result<SelectedDependencies<DP::P, VersionOf<DP>>, PubGrubError<DP>>,
)
    requires
        solver::tells_resolution::<DP, O>(dp, root, version, before, after, r),
        observer::always_asks::<DP::P, DP::VS, DP::M, O>(),
        after.len() - before.len() <= u32::MAX,
    ensures
        observer::levels_fit(before.len() as int, after),
{
    let start = before.len() as int;
    let last = lemma_resolution_levels::<DP, O>(dp, root, version, before, after, r);
    reveal(observer::count_levels);
    let levels = choose|levels: Seq<int>| #[trigger]
        observer::are_levels(levels, start, after, true) && levels[0] == 0;
    assert forall|i: int| start <= i < after.len() && (#[trigger] after[i]) is Backtrack implies
        after[i]->Backtrack_0 < u32::MAX by {
        lemma_levels_bound(levels, start, after, i - start);
        assert(observer::is_level_step(levels[i - start], levels[i - start + 1], after[i], true));
    }
}

/// What an observer is told of a package builds on what it was told before. As long as nothing goes
/// back, a derivation tells as the previous states of a package those that the last derivation about
/// it left, or the version of the decision about it; and none where there was neither. Where no
/// declared incompatibility has two packages that may be absent when it holds, the versions that are
/// allowed when a package is chosen are those that the last derivation about it left.
pub proof fn derivations_build_on_each_other<
    DP: DependencyProvider,
    O: SolverObserver<DP::P, DP::VS, DP::M>,
>(
    dp: DP,
    root: Key<DP>,
    version: VersionOf<DP>,
    before: Seq<Observed<Key<DP>, VersionOf<DP>>>,
    after: Seq<Observed<Key<DP>, VersionOf<DP>>>,
    r: Result<SelectedDependencies<DP::P, VersionOf<DP>>, PubGrubError<DP>>,
    j: int,
    i: int,
    k: Key<DP>,
)
    requires
        solver::tells_resolution::<DP, O>(dp, root, version, before, after, r),
        observer::always_asks::<DP::P, DP::VS, DP::M, O>(),
        after.len() - before.len() <= u32::MAX,
        before.len() <= i < after.len(),
        before.len() <= j < i,
        after[j] is Derivation && after[j]->Derivation_0 == k,
        forall|m: int|
            j < m < i ==> match #[trigger] after[m] {
                Observed::Derivation(q, _, _, _) => q != k,
                Observed::Decision(q, _, _) => q != k,
                Observed::Backtrack(_, _, _) => false,
                _ => true,
            },
    ensures
        after[i] is Derivation && after[i]->Derivation_0 == k ==> {
            &&& after[i]->Derivation_1 == Some(after[j]->Derivation_2)
            &&& forall|x: Option<VersionOf<DP>>| #[trigger]
                after[i]->Derivation_2.contains(x) ==> after[j]->Derivation_2.contains(x)
            &&& exists|x: Option<VersionOf<DP>>|
                after[j]->Derivation_2.contains(x) && !#[trigger] after[i]->Derivation_2.contains(x)
            &&& exists|x: Option<VersionOf<DP>>| #[trigger] after[i]->Derivation_2.contains(x)
        },
        after[i] is Decision && after[i]->Decision_0 == k ==> after[j]->Derivation_2.contains(
            Some(after[i]->Decision_1),
        ),
        after[i] is PackageChoice && after[i]->PackageChoice_0 == k ==> forall|v: VersionOf<DP>|
            #[trigger] after[i]->PackageChoice_1.contains(v)
                ==> after[j]->Derivation_2.contains(Some(v)),
        after[i] is PackageChoice && after[i]->PackageChoice_0 == k && (forall|
            q: Key<DP>,
            v: VersionOf<DP>,
            c: int,
            a: int,
            b: int,
        |
            #![trigger dp.conflicts(q, v)[c][a], dp.conflicts(q, v)[c][b]]
            0 <= c < dp.conflicts(q, v).len() && 0 <= a < dp.conflicts(q, v)[c].len() && 0 <= b
                < dp.conflicts(q, v)[c].len() && dp.conflicts(q, v)[c][a].1.contains(None)
                && dp.conflicts(q, v)[c][b].1.contains(None) ==> dp.conflicts(q, v)[c][a].0
                == dp.conflicts(q, v)[c][b].0) ==> {
            &&& !after[j]->Derivation_2.contains(None)
            &&& forall|v: VersionOf<DP>| #[trigger]
                after[j]->Derivation_2.contains(Some(v)) ==> after[i]->PackageChoice_1.contains(v)
        },
{
    let start = before.len() as int;
    let path = lemma_resolution_path::<DP, O>(dp, root, version, before, after, r);
    lemma_levels_are_small::<DP, O>(dp, root, version, before, after, r);
    assert(observer::levels_fit(start, path)) by {
        assert forall|m: int| start <= m < path.len() && (#[trigger] path[m]) is Backtrack implies
            path[m]->Backtrack_0 < u32::MAX by {
            assert(after[m] == path[m]);
        }
    }
    if i < path.len() {
        assert(path.take(i) =~= after.take(i));
        assert(path[i] == after[i]);
        assert(trace::is_possible(problem::asks_for_one(dp), Seq::empty(), start, path));
        let steps = trace::retraced(Seq::empty(), start, path.take(i));
        assert(trace::can_happen(problem::asks_for_one(dp), steps, path[i]));
        lemma_last_step(start, after, j, i, k, after[j]->Derivation_2);
        if after[i] is PackageChoice && after[i]->PackageChoice_0 == k && (forall|
            q: Key<DP>,
            v: VersionOf<DP>,
            c: int,
            a: int,
            b: int,
        |
            #![trigger dp.conflicts(q, v)[c][a], dp.conflicts(q, v)[c][b]]
            0 <= c < dp.conflicts(q, v).len() && 0 <= a < dp.conflicts(q, v)[c].len() && 0 <= b
                < dp.conflicts(q, v)[c].len() && dp.conflicts(q, v)[c][a].1.contains(None)
                && dp.conflicts(q, v)[c][b].1.contains(None) ==> dp.conflicts(q, v)[c][a].0
                == dp.conflicts(q, v)[c][b].0) {
            lemma_asks_for_one(dp);
        }
    }
}

/// A derivation about a package of which nothing was told before tells of no previous states.
pub proof fn first_derivation_has_no_previous_states<
    DP: DependencyProvider,
    O: SolverObserver<DP::P, DP::VS, DP::M>,
>(
    dp: DP,
    root: Key<DP>,
    version: VersionOf<DP>,
    before: Seq<Observed<Key<DP>, VersionOf<DP>>>,
    after: Seq<Observed<Key<DP>, VersionOf<DP>>>,
    r: Result<SelectedDependencies<DP::P, VersionOf<DP>>, PubGrubError<DP>>,
    i: int,
)
    requires
        solver::tells_resolution::<DP, O>(dp, root, version, before, after, r),
        observer::always_asks::<DP::P, DP::VS, DP::M, O>(),
        after.len() - before.len() <= u32::MAX,
        before.len() <= i < after.len(),
        after[i] is Derivation,
        forall|m: int|
            before.len() <= m < i ==> match #[trigger] after[m] {
                Observed::Derivation(q, _, _, _) => q != after[i]->Derivation_0,
                Observed::Decision(q, _, _) => q != after[i]->Derivation_0,
                _ => true,
            },
    ensures
        after[i]->Derivation_1 is None,
{
    let start = before.len() as int;
    let path = lemma_resolution_path::<DP, O>(dp, root, version, before, after, r);
    lemma_levels_are_small::<DP, O>(dp, root, version, before, after, r);
    assert(observer::levels_fit(start, path)) by {
        assert forall|m: int| start <= m < path.len() && (#[trigger] path[m]) is Backtrack implies
            path[m]->Backtrack_0 < u32::MAX by {
            assert(after[m] == path[m]);
        }
    }
    if i < path.len() {
        assert(path.take(i) =~= after.take(i));
        assert(path[i] == after[i]);
        assert(trace::is_possible(problem::asks_for_one(dp), Seq::empty(), start, path));
        let steps = trace::retraced(Seq::empty(), start, path.take(i));
        assert(trace::can_happen(problem::asks_for_one(dp), steps, path[i]));
        lemma_no_step(start, after, i, after[i]->Derivation_0);
    }
}

/// The groups hold every projected package and nothing else, and no package is in two of them.
pub proof fn components_hold_every_package_once<DP: DependencyProvider>(
    dp: DP,
    root: Key<DP>,
    version: VersionOf<DP>,
    projected: Seq<Key<DP>>,
    required: search::Clause<Key<DP>, VersionOf<DP>>,
    groups: Seq<Seq<Key<DP>>>,
    k: Key<DP>,
)
    requires
        partition::are_components(dp, root, version, projected, required, groups),
    ensures
        projected.contains(k) <==> exists|g: int|
            0 <= g < groups.len() && (#[trigger] groups[g]).contains(k),
        forall|g: int, h: int|
            0 <= g < groups.len() && 0 <= h < groups.len() && (#[trigger] groups[g]).contains(k) && (
            #[trigger] groups[h]).contains(k) ==> g == h,
{
    let model = choose|model: residual::ConstraintModel<DP::P, DP::VS>| #[trigger]
        partition::are_components_in(dp, root, version, projected, required, model, groups);
    let rules = model.rules();
    let start = model.start(root, version, required);
    let (variable, fixed) = choose|variable: Seq<Seq<Key<DP>>>, fixed: Seq<Key<DP>>| #[trigger]
        partition::is_partition(rules, start, projected, variable, fixed) && groups
            == if fixed.len() == 0 {
            variable
        } else {
            variable.push(fixed)
        };
    let d = choose|d: partition::Choices<Key<DP>, VersionOf<DP>>| #[trigger]
        partition::propagates(rules, start, d) && if partition::is_refuted(rules, d) {
            variable == seq![projected] && fixed == Seq::<Key<DP>>::empty()
        } else {
            partition::is_settled(rules, d) && partition::is_split(
                rules,
                d,
                projected,
                variable,
                fixed,
            )
        };
    if partition::is_refuted(rules, d) {
        assert(groups =~= seq![projected]);
        if projected.contains(k) {
            assert(groups[0].contains(k));
        }
    } else {
        let members = partition::undecided(d, projected);
        let open = |q: Key<DP>| d[q].len() > 1;
        let closed = |q: Key<DP>| d[q].len() <= 1;
        partition::lemma_filter_contains(projected, open, k);
        partition::lemma_filter_contains(projected, closed, k);
        assert forall|g: int| 0 <= g < groups.len() implies (#[trigger] groups[g]).contains(k)
            <==> if g < variable.len() {
            members.contains(k) && partition::linked(rules, d, variable[g][0], k)
        } else {
            fixed.contains(k)
        } by {
            if g < variable.len() {
                assert(groups[g] == variable[g]);
                partition::lemma_filter_contains(
                    members,
                    |q: Key<DP>| partition::linked(rules, d, variable[g][0], q),
                    k,
                );
            }
        }
        if members.contains(k) {
            let g = choose|g: int| 0 <= g < variable.len() && (#[trigger] variable[g]).contains(k);
            assert(groups[g].contains(k));
        }
        if fixed.contains(k) {
            assert(groups[variable.len() as int] == fixed);
        }
        assert forall|g: int, h: int|
            0 <= g < h < groups.len() && (#[trigger] groups[g]).contains(k) && (
            #[trigger] groups[h]).contains(k) implies g == h by {
            if h < variable.len() {
                lemma_apart(rules, d, members, variable, g, h, k);
            }
        }
    }
}

proof fn lemma_apart<K, V>(
    rules: Seq<search::Clause<K, V>>,
    d: partition::Choices<K, V>,
    members: Seq<K>,
    groups: Seq<Seq<K>>,
    g: int,
    h: int,
    k: K,
)
    requires
        partition::is_grouping(rules, d, members, groups),
        0 <= g < h < groups.len(),
        groups[g].contains(k),
        groups[h].contains(k),
    ensures
        g == h,
{
    assert(partition::comes_before(members, groups[g], groups[h]));
    let i = choose|i: int|
        0 <= i < members.len() && groups[g].contains(#[trigger] members[i]) && forall|j: int|
            0 <= j <= i ==> !groups[h].contains(#[trigger] members[j]);
    let x = members[i];
    let to_g = |q: K| partition::linked(rules, d, groups[g][0], q);
    let to_h = |q: K| partition::linked(rules, d, groups[h][0], q);
    partition::lemma_filter_contains(members, to_g, k);
    partition::lemma_filter_contains(members, to_h, k);
    partition::lemma_filter_contains(members, to_g, x);
    partition::lemma_filter_contains(members, to_h, x);
    assert(members.contains(x));
    assert(partition::linked(rules, d, groups[h][0], x));
    assert(groups[h].contains(x));
}

/// Where what is left of a list was in it, in order.
proof fn lemma_filter_places<T>(list: Seq<T>, keep: spec_fn(T) -> bool) -> (places: Seq<int>)
    ensures
        places.len() == list.filter(keep).len(),
        forall|j: int|
            0 <= j < places.len() ==> 0 <= (#[trigger] places[j]) < list.len() && list[places[j]]
                == list.filter(keep)[j],
        forall|i: int, j: int|
            0 <= i < j < places.len() ==> (#[trigger] places[i]) < (#[trigger] places[j]),
        forall|i: int|
            0 <= i < list.len() && keep(#[trigger] list[i]) ==> places.contains(i),
    decreases list.len(),
{
    reveal(Seq::filter);
    if list.len() == 0 {
        Seq::empty()
    } else {
        let before = list.drop_last();
        let n = before.len() as int;
        let earlier = lemma_filter_places(before, keep);
        let places = if keep(list.last()) {
            earlier.push(n)
        } else {
            earlier
        };
        assert forall|j: int| 0 <= j < places.len() implies 0 <= (#[trigger] places[j])
            < list.len() && list[places[j]] == list.filter(keep)[j] by {
            if j < earlier.len() {
                assert(places[j] == earlier[j]);
                assert(before[earlier[j]] == list[earlier[j]]);
            }
        }
        assert forall|i: int, j: int| 0 <= i < j < places.len() implies (#[trigger] places[i]) < (
        #[trigger] places[j]) by {
            assert(places[i] == earlier[i]);
            if j < earlier.len() {
                assert(places[j] == earlier[j]);
            }
        }
        assert forall|i: int| 0 <= i < list.len() && keep(#[trigger] list[i]) implies places.contains(
            i,
        ) by {
            if i < n {
                assert(before[i] == list[i]);
                let j = choose|j: int| 0 <= j < earlier.len() && earlier[j] == i;
                assert(places[j] == i);
            } else {
                assert(places[earlier.len() as int] == i);
            }
        }
        places
    }
}

/// Of two elements of what was joined, the first one is from the same group or an earlier one.
proof fn lemma_joined_order<T>(groups: Seq<Seq<T>>, a: int, b: int) -> (r: (int, int, int, int))
    requires
        0 <= a < b < solver::joined(groups).len(),
    ensures
        0 <= r.0 <= r.2 < groups.len(),
        0 <= r.1 < groups[r.0].len(),
        0 <= r.3 < groups[r.2].len(),
        groups[r.0][r.1] == solver::joined(groups)[a],
        groups[r.2][r.3] == solver::joined(groups)[b],
    decreases groups.len(),
{
    let init = groups.drop_last();
    let before = solver::joined(init);
    let n = groups.len() - 1;
    assert(groups.last() == groups[n]);
    if b < before.len() {
        let r = lemma_joined_order(init, a, b);
        assert(init[r.0] == groups[r.0] && init[r.2] == groups[r.2]);
        r
    } else if a < before.len() {
        let (g, m) = laws::lemma_joined_from(init, a);
        assert(init[g] == groups[g]);
        (g, m, n, b - before.len())
    } else {
        (n, a - before.len(), n, b - before.len())
    }
}

/// Minimal changes come in the order of what they give up: of two returned solutions, at the first of
/// the caller's preferences on which they differ, the earlier one gives it up and the later one
/// preserves it.
#[verifier::rlimit(60)]
#[verifier::spinoff_prover]
pub proof fn minimal_changes_come_in_the_order_of_what_they_give_up<DP: DependencyProvider>(
    dp: DP,
    root: Key<DP>,
    version: VersionOf<DP>,
    preferences: Seq<PackagePreference<DP::P, DP::VS>>,
    o: Precedence<VersionOf<DP>>,
    projection: Seq<Key<DP>>,
    solutions: MaximalSolutions<DP::P, VersionOf<DP>>,
    a: int,
    b: int,
    d: int,
)
    requires
        solver::minimally_changed(
            dp,
            root,
            version,
            solver::usable_among(root, preferences),
            o,
            projection,
            Ok(solutions),
        ),
        preferences.len() <= usize::MAX,
        0 <= a < b < solutions@.len(),
        0 <= d < preferences.len(),
        forall|i: int|
            0 <= i < d ==> (#[trigger] preferences[i]).states().contains(
                solutions@[a]@.get(preferences[i].key()),
            ) == preferences[i].states().contains(solutions@[b]@.get(preferences[i].key())),
        preferences[d].states().contains(solutions@[a]@.get(preferences[d].key()))
            != preferences[d].states().contains(solutions@[b]@.get(preferences[d].key())),
    ensures
        !preferences[d].states().contains(solutions@[a]@.get(preferences[d].key())),
        preferences[d].states().contains(solutions@[b]@.get(preferences[d].key())),
{
    let kept = solver::usable_among(root, preferences);
    let keep = |preference: PackagePreference<DP::P, DP::VS>| preference::usable(root, preference);
    let found = maximal::selections(solutions@);
    let x = solutions@[a]@;
    let y = solutions@[b]@;
    assert(found[a] == x && found[b] == y);
    laws::lemma_minimal_change_solves(dp, root, version, kept, o, projection, found, a);
    laws::lemma_minimal_change_solves(dp, root, version, kept, o, projection, found, b);
    let (fronts, groups) = choose|fronts: Seq<Seq<bool>>, groups: Seq<Seq<Selection<DP>>>|
        #[trigger]
        solver::is_grouped(dp, root, version, kept, o, projection, fronts, groups)
            && solver::joined(groups) == found;
    let (g, m, h, n) = lemma_joined_order(groups, a, b);
    laws::lemma_group_of(dp, root, version, kept, o, projection, fronts, groups, g, m);
    laws::lemma_group_of(dp, root, version, kept, o, projection, fronts, groups, h, n);
    assert(front::profile(kept, x) == fronts[g]);
    assert(front::profile(kept, y) == fronts[h]);
    let p = preferences[d];
    assert(p.key() != root);
    assert(p.states() != Set::<Option<VersionOf<DP>>>::full());
    assert(p.states() != Set::<Option<VersionOf<DP>>>::empty());
    assert(keep(preferences[d]));
    let places = lemma_filter_places(preferences, keep);
    let e = choose|e: int| 0 <= e < places.len() && places[e] == d;
    assert(kept[e] == p);
    assert(fronts[g][e] == p.kept_in(x));
    assert(fronts[h][e] == p.kept_in(y));
    assert forall|i: int| 0 <= i < e implies #[trigger] fronts[g][i] == fronts[h][i] by {
        assert(places[i] < places[e]);
        assert(preferences[places[i]] == kept[i]);
        assert(fronts[g][i] == kept[i].kept_in(x));
        assert(fronts[h][i] == kept[i].kept_in(y));
    }
    assert(kept.len() <= preferences.len()) by {
        preferences.filter_lemma(keep);
    }
    meaning::earlier_preferences_are_given_up_first(
        front::preservable(dp, root, version, kept),
        fronts,
        g,
        h,
        e,
    );
}

/// Every time a package is chosen, the provider is asked anew for a version of it among those that are
/// allowed, right after the choice was told, and what it answers then decides: that version is told,
/// or that there is none, or the error is returned.
pub proof fn provider_is_asked_for_every_version_anew<DP: DependencyProvider, T>(
    dp: DP,
    earlier: Seq<Choice<DP>>,
    chosen: Seq<Choice<DP>>,
    before: Seq<Observed<Key<DP>, VersionOf<DP>>>,
    after: Seq<Observed<Key<DP>, VersionOf<DP>>>,
    r: Result<T, PubGrubError<DP>>,
    i: int,
) -> (c: int)
    requires
        polls::are_fresh_choices(dp, earlier, chosen, before, after, r),
        before.len() <= i < after.len(),
        after[i] is PackageChoice,
    ensures
        earlier.len() <= c < chosen.len(),
        chosen[c].told == i + 1,
        chosen[c].package == after[i]->PackageChoice_0,
        chosen[c].range == after[i]->PackageChoice_1,
        exists|p: DP::P, set: DP::VS|
            p@ == chosen[c].package && set@ == chosen[c].range && #[trigger] call_ensures(
                DP::choose_version,
                (&dp, &p, &set),
                chosen[c].answer,
            ),
        match chosen[c].answer {
            Ok(Some(v)) => i + 1 < after.len() && after[i + 1] == Observed::<
                Key<DP>,
                VersionOf<DP>,
            >::VersionChoice(after[i]->PackageChoice_0, v, after[i]->PackageChoice_1),
            Ok(None) => i + 1 < after.len() && after[i + 1] == Observed::<
                Key<DP>,
                VersionOf<DP>,
            >::NoVersion(after[i]->PackageChoice_0, after[i]->PackageChoice_1),
            Err(source) => i + 1 == after.len() && r is Err && r->Err_0 is ErrorChoosingVersion
                && r->Err_0->ErrorChoosingVersion_package@ == after[i]->PackageChoice_0
                && r->Err_0->ErrorChoosingVersion_source == source,
        },
{
    reveal(polls::are_fresh_choices);
    let c = choose|c: int|
        earlier.len() <= c < chosen.len() && (#[trigger] chosen[c]).told == i + 1;
    assert(polls::is_answered(dp, chosen[c]));
    c
}

/// The provider is not asked twice what a version depends on.
pub proof fn dependencies_are_asked_for_once<K, V>(
    retrieved: Seq<(int, K, V)>,
    a: int,
    b: int,
)
    requires
        polls::asks_once(retrieved),
        0 <= a < retrieved.len(),
        0 <= b < retrieved.len(),
        retrieved[a].1 == retrieved[b].1,
        retrieved[a].2 == retrieved[b].2,
    ensures
        a == b,
{
}

proof fn lemma_no_decision_step<K, V>(start: int, log: Seq<Observed<K, V>>, i: int, k: K)
    requires
        0 <= start <= i <= log.len(),
        forall|m: int|
            start <= m < i && (#[trigger] log[m]) is Decision ==> log[m]->Decision_0 != k,
    ensures
        !trace::is_decided(trace::retraced(Seq::empty(), start, log.take(i)), k),
    decreases i,
{
    let steps = trace::retraced(Seq::<trace::Step<K, V>>::empty(), start, log.take(i));
    if i > start {
        let earlier = trace::retraced(Seq::<trace::Step<K, V>>::empty(), start, log.take(i - 1));
        assert(log.take(i).drop_last() =~= log.take(i - 1));
        assert(log.take(i).last() == log[i - 1]);
        lemma_no_decision_step(start, log, i - 1, k);
        if log[i - 1] is Backtrack {
            lemma_cut_prefix(earlier, log[i - 1]->Backtrack_1 as int);
        }
        if trace::is_decided(steps, k) {
            let m = choose|m: int|
                0 <= m < steps.len() && (#[trigger] steps[m]).key == k && steps[m].decided;
            if m < earlier.len() {
                assert(earlier[m] == steps[m]);
            }
        }
    }
}

proof fn lemma_first_choice_at<
    DP: DependencyProvider,
    O: SolverObserver<DP::P, DP::VS, DP::M>,
>(
    dp: DP,
    root: Key<DP>,
    version: VersionOf<DP>,
    before: Seq<Observed<Key<DP>, VersionOf<DP>>>,
    path: Seq<Observed<Key<DP>, VersionOf<DP>>>,
    i: int,
) -> (solver: run::SolverState<DP>)
    requires
        run::chooses_first::<DP, O>(dp, root, version, before, path),
        observer::always_asks::<DP::P, DP::VS, DP::M, O>(),
        observer::levels_fit(before.len() as int, path),
        before.len() <= i < path.len(),
        path[i] is PackageChoice,
    ensures
        solver.chooses(dp, path[i]->PackageChoice_0, path[i]->PackageChoice_1),
        solver.steps() == trace::retraced(Seq::empty(), before.len() as int, path.take(i)),
        forall|k: Key<DP>|
            {
                let told = run::after_setbacks(
                    (0u32, 0u32, 0u32, 0u32),
                    observer::setbacks(before.len() as int, path.take(i)),
                    k,
                );
                (#[trigger] solver.counts(k)).0 == told.0 && solver.counts(k).1 == told.1
            },
{
    let start = before.len() as int;
    reveal(run::are_first_choices);
    reveal(run::counts_up_to);
    let first = choose|solver: run::SolverState<DP>| #[trigger]
        solver.is_new(root, version) && run::are_first_choices::<DP, O>(dp, solver, before, path);
    let k = path[i]->PackageChoice_0;
    let allowed = path[i]->PackageChoice_1;
    assert(run::is_first_choice::<DP, O>(dp, first, before, path.take(i), k, allowed));
    assert(observer::levels_fit(start, path.take(i))) by {
        assert forall|m: int| start <= m < path.take(i).len() && (
        #[trigger] path.take(i)[m]) is Backtrack implies path.take(i)[m]->Backtrack_0 < u32::MAX by {
            assert(path[m] == path.take(i)[m]);
        }
    }
    choose|solver: run::SolverState<DP>|
        {
            &&& solver.wf(dp)
            &&& solver.same_problem(first)
            &&& run::tells::<DP, O>(
                dp,
                first.decided(),
                solver.decided(),
                before,
                path.take(i),
            )
            &&& run::counts_setbacks::<DP, O>(dp, first, solver, before, path.take(i))
            &&& observer::always_asks::<DP::P, DP::VS, DP::M, O>() && observer::levels_fit(
                before.len() as int,
                path.take(i),
            ) ==> solver.steps() == trace::retraced(first.steps(), start, path.take(i))
            &&& #[trigger] solver.chooses(dp, k, allowed)
        }
}

/// The package of highest priority is chosen: where priorities are ordered, no package that must be
/// selected, and of which no decision was told, has a higher one, by the versions that the last
/// derivation about it left and by how often the search was set back for it. This is said of priorities
/// that do not depend on how often versions were turned down.
pub proof fn package_of_highest_priority_is_chosen<
    DP: DependencyProvider,
    O: SolverObserver<DP::P, DP::VS, DP::M>,
>(
    dp: DP,
    root: Key<DP>,
    version: VersionOf<DP>,
    before: Seq<Observed<Key<DP>, VersionOf<DP>>>,
    after: Seq<Observed<Key<DP>, VersionOf<DP>>>,
    r: Result<SelectedDependencies<DP::P, VersionOf<DP>>, PubGrubError<DP>>,
    j: int,
    i: int,
    q: Key<DP>,
)
    requires
        solver::tells_resolution::<DP, O>(dp, root, version, before, after, r),
        observer::always_asks::<DP::P, DP::VS, DP::M, O>(),
        after.len() - before.len() <= u32::MAX,
        priority::are_ordered::<DP::Priority>(),
        forall|k: Key<DP>, range: Set<VersionOf<DP>>, a: (u32, u32, u32, u32), b: (
            u32,
            u32,
            u32,
            u32,
        )|
            a.0 == b.0 && a.1 == b.1 ==> #[trigger] dp.priority(k, range, a)
                == #[trigger] dp.priority(k, range, b),
        before.len() <= j < i < after.len(),
        after[i] is PackageChoice,
        after[j] is Derivation && after[j]->Derivation_0 == q,
        !after[j]->Derivation_2.contains(None),
        forall|m: int|
            j < m < i ==> match #[trigger] after[m] {
                Observed::Derivation(p, _, _, _) => p != q,
                Observed::Backtrack(_, _, _) => false,
                _ => true,
            },
        forall|m: int|
            before.len() <= m < i && (#[trigger] after[m]) is Decision ==> after[m]->Decision_0 != q,
    ensures
        ({
            let k = after[i]->PackageChoice_0;
            let setbacks = observer::setbacks(before.len() as int, after.take(i));
            !priority::is_higher(
                dp.priority(
                    q,
                    Set::new(|v: VersionOf<DP>| after[j]->Derivation_2.contains(Some(v))),
                    run::after_setbacks((0u32, 0u32, 0u32, 0u32), setbacks, q),
                ),
                dp.priority(
                    k,
                    after[i]->PackageChoice_1,
                    run::after_setbacks((0u32, 0u32, 0u32, 0u32), setbacks, k),
                ),
            )
        }),
{
    let start = before.len() as int;
    let path = lemma_resolution_path::<DP, O>(dp, root, version, before, after, r);
    lemma_levels_are_small::<DP, O>(dp, root, version, before, after, r);
    assert(observer::levels_fit(start, path)) by {
        assert forall|m: int| start <= m < path.len() && (#[trigger] path[m]) is Backtrack implies
            path[m]->Backtrack_0 < u32::MAX by {
            assert(after[m] == path[m]);
        }
    }
    if i < path.len() {
        assert(path.take(i) =~= after.take(i));
        assert(path[i] == after[i]);
        let solver = lemma_first_choice_at::<DP, O>(dp, root, version, before, path, i);
        let k = after[i]->PackageChoice_0;
        let steps = solver.steps();
        lemma_last_step(start, after, j, i, q, after[j]->Derivation_2);
        lemma_no_decision_step(start, after, i, q);
        assert(trace::is_pending(steps, q));
        assert(trace::open_versions(steps, q) =~= Set::new(
            |v: VersionOf<DP>| after[j]->Derivation_2.contains(Some(v)),
        ));
        let left = trace::open_versions(steps, q);
        let allowed = after[i]->PackageChoice_1;
        assert(!priority::is_higher(solver.rank(dp, q), solver.rank(dp, k)));
        let setbacks = observer::setbacks(start, after.take(i));
        let counts = run::after_setbacks((0u32, 0u32, 0u32, 0u32), setbacks, q);
        let own = run::after_setbacks((0u32, 0u32, 0u32, 0u32), setbacks, k);
        assert(solver.counts(q).0 == counts.0 && solver.counts(k).0 == own.0);
        assert(dp.priority(q, left, counts) == dp.priority(q, left, solver.counts(q)));
        assert(dp.priority(k, allowed, own) == dp.priority(k, allowed, solver.counts(k)));
    }
}

proof fn lemma_steps_kept<K, V>(start: int, log: Seq<Observed<K, V>>, m: int, i: int)
    requires
        0 <= start <= m <= i <= log.len(),
        forall|n: int| m <= n < i ==> !((#[trigger] log[n]) is Backtrack),
    ensures
        trace::retraced(Seq::empty(), start, log.take(m)).is_prefix_of(
            trace::retraced(Seq::empty(), start, log.take(i)),
        ),
    decreases i,
{
    let a = trace::retraced(Seq::<trace::Step<K, V>>::empty(), start, log.take(m));
    let c = trace::retraced(Seq::<trace::Step<K, V>>::empty(), start, log.take(i));
    if m == i {
        assert(a =~= c.subrange(0, a.len() as int));
    } else {
        let b = trace::retraced(Seq::<trace::Step<K, V>>::empty(), start, log.take(i - 1));
        lemma_steps_kept(start, log, m, i - 1);
        assert(log.take(i).drop_last() =~= log.take(i - 1));
        assert(log.take(i).last() == log[i - 1]);
        assert(b =~= c.subrange(0, b.len() as int));
        run::lemma_prefix_chain(a, b, c);
    }
}

/// Of packages with equal priorities the one that was narrowed first is chosen: where priorities are
/// ranked in classes and do not depend on conflicts, and nothing went back, a package that must be
/// selected, of which no decision was told, and that was narrowed before the chosen one has a lower
/// priority.
pub proof fn of_equal_packages_the_one_narrowed_first_is_chosen<
    DP: DependencyProvider,
    O: SolverObserver<DP::P, DP::VS, DP::M>,
>(
    dp: DP,
    root: Key<DP>,
    version: VersionOf<DP>,
    before: Seq<Observed<Key<DP>, VersionOf<DP>>>,
    after: Seq<Observed<Key<DP>, VersionOf<DP>>>,
    r: Result<SelectedDependencies<DP::P, VersionOf<DP>>, PubGrubError<DP>>,
    f: int,
    j: int,
    i: int,
    q: Key<DP>,
    counts: (u32, u32, u32, u32),
)
    requires
        solver::tells_resolution::<DP, O>(dp, root, version, before, after, r),
        observer::always_asks::<DP::P, DP::VS, DP::M, O>(),
        after.len() - before.len() <= u32::MAX,
        priority::are_ordered::<DP::Priority>(),
        forall|a: DP::Priority, b: DP::Priority, c: DP::Priority| #[trigger]
            priority::is_higher(a, c) ==> #[trigger] priority::is_higher(a, b)
                || priority::is_higher(b, c),
        forall|k: Key<DP>, range: Set<VersionOf<DP>>, a: (u32, u32, u32, u32), b: (
            u32,
            u32,
            u32,
            u32,
        )| #[trigger] dp.priority(k, range, a) == #[trigger] dp.priority(k, range, b),
        before.len() <= f <= j < i < after.len(),
        after[i] is PackageChoice,
        after[i]->PackageChoice_0 != q,
        after[f] is Derivation && after[f]->Derivation_0 == q,
        after[j] is Derivation && after[j]->Derivation_0 == q,
        !after[j]->Derivation_2.contains(None),
        forall|m: int|
            before.len() <= m < i ==> match #[trigger] after[m] {
                Observed::Derivation(p, _, _, _) => (m > j ==> p != q) && (m < f ==> p
                    != after[i]->PackageChoice_0),
                Observed::Decision(p, _, _) => p != q && (m < f ==> p
                    != after[i]->PackageChoice_0),
                Observed::Backtrack(_, _, _) => false,
                _ => true,
            },
    ensures
        priority::is_higher(
            dp.priority(after[i]->PackageChoice_0, after[i]->PackageChoice_1, counts),
            dp.priority(
                q,
                Set::new(|v: VersionOf<DP>| after[j]->Derivation_2.contains(Some(v))),
                counts,
            ),
        ),
{
    let start = before.len() as int;
    let path = lemma_resolution_path::<DP, O>(dp, root, version, before, after, r);
    lemma_levels_are_small::<DP, O>(dp, root, version, before, after, r);
    assert(observer::levels_fit(start, path)) by {
        assert forall|m: int| start <= m < path.len() && (#[trigger] path[m]) is Backtrack implies
            path[m]->Backtrack_0 < u32::MAX by {
            assert(after[m] == path[m]);
        }
    }
    if i < path.len() {
        assert(path.take(i) =~= after.take(i));
        assert(path[i] == after[i]);
        let solver = lemma_first_choice_at::<DP, O>(dp, root, version, before, path, i);
        let k = after[i]->PackageChoice_0;
        let steps = solver.steps();
        let n = steps.len() as int;
        lemma_last_step(start, after, j, i, q, after[j]->Derivation_2);
        lemma_no_decision_step(start, after, i, q);
        assert(trace::is_pending(steps, q));
        assert(trace::open_versions(steps, q) =~= Set::new(
            |v: VersionOf<DP>| after[j]->Derivation_2.contains(Some(v)),
        ));
        let early = trace::retraced(Seq::empty(), start, after.take(f));
        let next = trace::retraced(Seq::empty(), start, after.take(f + 1));
        assert(after.take(f + 1).drop_last() =~= after.take(f));
        assert(after.take(f + 1).last() == after[f]);
        lemma_steps_kept(start, after, f, i);
        lemma_steps_kept(start, after, f + 1, i);
        let p = early.len() as int;
        assert(next[p].key == q);
        assert(steps[p] == next[p]) by {
            assert(next[p] == steps.subrange(0, next.len() as int)[p]);
        }
        lemma_no_step(start, after, f, k);
        assert forall|m: int| 0 <= m < p implies (#[trigger] steps[m]).key != k by {
            assert(early[m] == steps.subrange(0, early.len() as int)[m]);
            assert(early[m] == steps[m]);
        }
        lemma_leads_by_order(dp, solver, k, q, p);
        let left = trace::open_versions(steps, q);
        let allowed = after[i]->PackageChoice_1;
        assert(priority::is_higher(solver.rank(dp, k), solver.rank(dp, q)));
        assert(dp.priority(q, left, counts) == dp.priority(q, left, solver.counts(q)));
        assert(dp.priority(k, allowed, counts) == dp.priority(k, allowed, solver.counts(k)));
    }
}

/// What leads the pending packages stands above every one of them that was narrowed before it.
proof fn lemma_leads_by_order<DP: DependencyProvider>(
    dp: DP,
    solver: run::SolverState<DP>,
    k: Key<DP>,
    q: Key<DP>,
    p: int,
)
    requires
        priority::are_ordered::<DP::Priority>(),
        forall|a: DP::Priority, b: DP::Priority, c: DP::Priority| #[trigger]
            priority::is_higher(a, c) ==> #[trigger] priority::is_higher(a, b)
                || priority::is_higher(b, c),
        trace::is_pending(solver.steps(), q),
        k != q,
        0 <= p < solver.steps().len(),
        solver.steps()[p].key == q,
        forall|m: int| 0 <= m < p ==> (#[trigger] solver.steps()[m]).key != k,
        exists|range: Set<VersionOf<DP>>| #[trigger] solver.chooses(dp, k, range),
    ensures
        priority::is_higher(solver.rank(dp, k), solver.rank(dp, q)),
{
    let steps = solver.steps();
    let n = steps.len() as int;
    let list = trace::pending_in_turn(steps, n);
    let higher = solver.ranks_above(dp);
    let range = choose|range: Set<VersionOf<DP>>| #[trigger] solver.chooses(dp, k, range);
    assert(solver.chooses(dp, k, range));
    let b = machine::leader(higher, list, list.len() as int);
    assert(k == list[b]);
    meaning::lemma_pending_listed(steps, n, p);
    let a = choose|a: int| 0 <= a < list.len() && list[a] == q;
    assert forall|x: Key<DP>| !#[trigger] higher(x, x) by {}
    assert forall|x: Key<DP>, y: Key<DP>, z: Key<DP>| #[trigger]
        higher(x, y) && #[trigger] higher(y, z) implies higher(x, z) by {
        assert(priority::is_higher(solver.rank(dp, x), solver.rank(dp, y)));
        assert(priority::is_higher(solver.rank(dp, y), solver.rank(dp, z)));
    }
    assert forall|x: Key<DP>, y: Key<DP>, z: Key<DP>| #[trigger]
        higher(x, z) implies #[trigger] higher(x, y) || higher(y, z) by {
        assert(priority::is_higher(solver.rank(dp, x), solver.rank(dp, z)));
        assert(priority::is_higher(solver.rank(dp, x), solver.rank(dp, y)) || priority::is_higher(
            solver.rank(dp, y),
            solver.rank(dp, z),
        ));
    }
    meaning::first_of_the_highest_leads(higher, list, list.len() as int);
    if b < a {
        meaning::pending_packages_are_listed_as_they_were_narrowed(steps, n, b, a, p);
        let m = choose|m: int| 0 <= m < p && (#[trigger] steps[m]).key == list[b];
        assert(steps[m].key != k);
    } else {
        assert(a < b);
        assert(higher(list[b], list[a]));
    }
}

/// One of the first decisions of both has these truth values.
spec fn is_told_before<K, V>(
    a: Seq<(K, Set<Option<V>>, bool)>,
    b: Seq<(K, Set<Option<V>>, bool)>,
    d: int,
    x: bool,
    y: bool,
) -> bool {
    exists|e: int| 0 <= e < d && (#[trigger] a[e]).2 == x && b[e].2 == y
}

/// Where a decision of an element of the front comes from.
proof fn lemma_own_place<P: Package, VS: VersionSet>(
    preferences: Seq<PackagePreference<P, VS>>,
    fronts: Seq<Seq<bool>>,
    x: Seq<bool>,
    y: Seq<bool>,
    n: int,
    d: int,
) -> (m: int)
    requires
        0 <= d < factored::own_decisions(preferences, fronts, x, n).len(),
    ensures
        0 <= m < n,
        factored::own_decisions(preferences, fronts, x, n).len() == factored::own_decisions(
            preferences,
            fronts,
            y,
            n,
        ).len(),
        factored::own_decisions(preferences, fronts, x, n)[d].2 == x[m],
        factored::own_decisions(preferences, fronts, y, n)[d].2 == y[m],
        forall|i: int|
            0 <= i < m ==> #[trigger] factored::agreed(fronts, i) || is_told_before(
                factored::own_decisions(preferences, fronts, x, n),
                factored::own_decisions(preferences, fronts, y, n),
                d,
                x[i],
                y[i],
            ),
    decreases n,
{
    if n <= 0 {
        0
    } else {
        let a = factored::own_decisions(preferences, fronts, x, n - 1);
        let b = factored::own_decisions(preferences, fronts, y, n - 1);
        let all = factored::own_decisions(preferences, fronts, x, n);
        let other = factored::own_decisions(preferences, fronts, y, n);
        lemma_own_lengths(preferences, fronts, x, y, n - 1);
        if d < a.len() {
            let m = lemma_own_place(preferences, fronts, x, y, n - 1, d);
            assert forall|i: int| 0 <= i < m implies #[trigger] factored::agreed(fronts, i)
                || is_told_before(all, other, d, x[i], y[i]) by {
                if !factored::agreed(fronts, i) {
                    assert(is_told_before(a, b, d, x[i], y[i]));
                    let e = choose|e: int|
                        0 <= e < d && (#[trigger] a[e]).2 == x[i] && b[e].2 == y[i];
                    assert(all[e] == a[e] && other[e] == b[e]);
                }
            }
            m
        } else {
            assert forall|i: int| 0 <= i < n - 1 implies #[trigger] factored::agreed(fronts, i)
                || is_told_before(all, other, d, x[i], y[i]) by {
                if !factored::agreed(fronts, i) {
                    let e = lemma_own_listed(preferences, fronts, x, y, n - 1, i);
                    assert(all[e] == a[e] && other[e] == b[e]);
                }
            }
            n - 1
        }
    }
}

proof fn lemma_own_lengths<P: Package, VS: VersionSet>(
    preferences: Seq<PackagePreference<P, VS>>,
    fronts: Seq<Seq<bool>>,
    x: Seq<bool>,
    y: Seq<bool>,
    n: int,
)
    ensures
        factored::own_decisions(preferences, fronts, x, n).len() == factored::own_decisions(
            preferences,
            fronts,
            y,
            n,
        ).len(),
    decreases n,
{
    if n > 0 {
        lemma_own_lengths(preferences, fronts, x, y, n - 1);
    }
}

proof fn lemma_own_listed<P: Package, VS: VersionSet>(
    preferences: Seq<PackagePreference<P, VS>>,
    fronts: Seq<Seq<bool>>,
    x: Seq<bool>,
    y: Seq<bool>,
    n: int,
    i: int,
) -> (e: int)
    requires
        0 <= i < n,
        !factored::agreed(fronts, i),
    ensures
        0 <= e < factored::own_decisions(preferences, fronts, x, n).len(),
        factored::own_decisions(preferences, fronts, x, n).len() == factored::own_decisions(
            preferences,
            fronts,
            y,
            n,
        ).len(),
        factored::own_decisions(preferences, fronts, x, n)[e].2 == x[i],
        factored::own_decisions(preferences, fronts, y, n)[e].2 == y[i],
    decreases n,
{
    let a = factored::own_decisions(preferences, fronts, x, n - 1);
    let b = factored::own_decisions(preferences, fronts, y, n - 1);
    lemma_own_lengths(preferences, fronts, x, y, n - 1);
    if i < n - 1 {
        let e = lemma_own_listed(preferences, fronts, x, y, n - 1, i);
        assert(factored::own_decisions(preferences, fronts, x, n)[e] == a[e]);
        assert(factored::own_decisions(preferences, fronts, y, n)[e] == b[e]);
        e
    } else {
        a.len() as int
    }
}

proof fn lemma_factor_from<P: Package, VS: VersionSet>(
    components: Seq<Seq<PackagePreference<P, VS>>>,
    fronts: Seq<Seq<Seq<bool>>>,
    n: int,
    f: int,
) -> (c: int)
    requires
        0 <= f < factored::factors_of(components, fronts, n).len(),
    ensures
        0 <= c < n,
        factored::factors_of(components, fronts, n)[f] == factored::alternatives_of(
            components[c],
            fronts[c],
        ),
    decreases n,
{
    if n <= 0 {
        0
    } else {
        let before = factored::factors_of(components, fronts, n - 1);
        if f < before.len() {
            lemma_factor_from(components, fronts, n - 1, f)
        } else {
            n - 1
        }
    }
}

/// The alternatives of a factor come in the order of what they give up: of two of them, at the first
/// decision in which they differ, the earlier one gives the preference up and the later one preserves
/// it.
pub proof fn alternatives_come_in_the_order_of_what_they_give_up<DP: DependencyProvider>(
    dp: DP,
    root: Key<DP>,
    version: VersionOf<DP>,
    components: Seq<Seq<PackagePreference<DP::P, DP::VS>>>,
    product: FactoredPreferenceSolutions<DP::P, DP::VS>,
    f: int,
    a: int,
    b: int,
    d: int,
)
    requires
        solver::factorized(dp, root, version, components, Ok(product)),
        forall|c: int| 0 <= c < components.len() ==> (#[trigger] components[c]).len() <= usize::MAX,
        0 <= f < product.open_choices().len(),
        0 <= a < b < product.open_choices()[f].len(),
        0 <= d < product.open_choices()[f][a].len(),
        forall|e: int|
            0 <= e < d ==> (#[trigger] product.open_choices()[f][a][e]).2
                == product.open_choices()[f][b][e].2,
        product.open_choices()[f][a][d].2 != product.open_choices()[f][b][d].2,
    ensures
        !product.open_choices()[f][a][d].2,
        product.open_choices()[f][b][d].2,
{
    let n = components.len() as int;
    let fronts = choose|fronts: Seq<Seq<Seq<bool>>>| #[trigger]
        factored::are_fronts(dp, root, version, components, fronts) && product.shared()
            == factored::common_of(components, fronts, components.len() as int)
            && product.open_choices() == factored::factors_of(
            components,
            fronts,
            components.len() as int,
        );
    let c = lemma_factor_from(components, fronts, n, f);
    let preferences = components[c];
    let front = fronts[c];
    let size = preferences.len() as int;
    laws::lemma_rows_fit(dp, root, version, components, fronts);
    let x = front[a];
    let y = front[b];
    let p = factored::own_decisions(preferences, front, x, size);
    let q = factored::own_decisions(preferences, front, y, size);
    assert(product.open_choices()[f][a] == p);
    assert(product.open_choices()[f][b] == q);
    let m = lemma_own_place(preferences, front, x, y, size, d);
    assert forall|i: int| 0 <= i < m implies #[trigger] front[a][i] == front[b][i] by {
        if factored::agreed(front, i) {
            assert(front[a][i] == front[0][i]);
            assert(front[b][i] == front[0][i]);
        } else {
            assert(is_told_before(p, q, d, x[i], y[i]));
            let e = choose|e: int| 0 <= e < d && (#[trigger] p[e]).2 == x[i] && q[e].2 == y[i];
            assert(product.open_choices()[f][a][e].2 == product.open_choices()[f][b][e].2);
        }
    }
    meaning::earlier_preferences_are_given_up_first(
        front::preservable(dp, root, version, preferences),
        front,
        a,
        b,
        m,
    );
}

/// Loading a model asks the provider whether to go on for each package and for each version of it: a
/// state more that is listed, or a package more with its states, takes so many answers more; and an
/// error that it answers is what is returned.
pub proof fn loading_asks_for_every_state<DP: DependencyProvider>(
    dp: DP,
    polls: Seq<(int, Result<(), DP::Err>)>,
    r: Result<residual::ConstraintModel<DP::P, DP::VS>, PubGrubError<DP>>,
    n: int,
)
    requires
        residual::is_polled(dp, polls, r),
        r matches Ok(model) ==> 0 < n <= model.domains().len(),
    ensures
        forall|j: int|
            0 <= j < polls.len() ==> call_ensures(
                DP::should_cancel,
                (&dp,),
                (#[trigger] polls[j]).1,
            ),
        forall|j: int|
            0 <= j < polls.len() && (#[trigger] polls[j]).1 is Err ==> r is Err && r->Err_0
                == PubGrubError::<DP>::ErrorInShouldCancel(polls[j].1->Err_0),
        r matches Ok(model) ==> {
            &&& polls.len() == residual::states_listed(
                model.domains(),
                model.domains().len() as int,
            )
            &&& residual::states_listed(model.domains(), 0) == 0
            &&& residual::states_listed(model.domains(), n) == residual::states_listed(
                model.domains(),
                n - 1,
            ) + model.domains()[n - 1].values@.len()
        },
{
    assert forall|j: int| 0 <= j < polls.len() && (#[trigger] polls[j]).1 is Err implies r is Err
        && r->Err_0 == PubGrubError::<DP>::ErrorInShouldCancel(polls[j].1->Err_0) by {
        if j < polls.len() - 1 {
            assert(polls[j].1 is Ok);
        }
    }
}

} // verus!
