//! What holds of the enumerations as a whole.

use vstd::prelude::*;

use crate::ascent::{Quest, Search};
use crate::attempts;
use crate::error;
use crate::error::PubGrubError;
use crate::factored;
use crate::finite;
use crate::front;
use crate::machine;
use crate::machine::Machine;
use crate::maximal;
use crate::observer;
use crate::observer::{Observed, SolverObserver};
use crate::ordering::Precedence;
use crate::package::Package;
use crate::path;
use crate::preference;
use crate::preference::{FactoredPreferenceSolutions, PackagePreference, PreferenceDecision};
use crate::problem;
use crate::problem::{Key, Selection, VersionOf};
use crate::provider::DependencyProvider;
use crate::run;
use crate::search::Clause;
use crate::selected::{MaximalSolutions, SelectedDependencies};
use crate::solver;
use crate::version_set::VersionSet;

verus! {

/// The Pareto front is complete: where the offered versions are ranked by a total preorder, a
/// solution that nothing dominates has the same realizations as one that was found.
///
/// Every solution found selects the projected packages that the given one selects; where a
/// projected package may be left out, solutions are compared by what both select.
pub proof fn pareto_front_is_complete<DP: DependencyProvider>(
    dp: DP,
    root: Key<DP>,
    version: VersionOf<DP>,
    demands: Clause<Key<DP>, VersionOf<DP>>,
    o: Precedence<VersionOf<DP>>,
    projection: Seq<Key<DP>>,
    found: Seq<Selection<DP>>,
    s: Selection<DP>,
) -> (i: int)
    requires
        maximal::is_maximal_set(dp, root, version, demands, o, projection, found),
        o.is_total(finite::offered_versions(dp)),
        maximal::qualifies(dp, root, version, demands, s),
        forall|other: Selection<DP>| #[trigger]
            maximal::qualifies(dp, root, version, demands, other) ==> !o.dominates(
                projection,
                s,
                other,
            ),
        selects_projected(projection, s, found),
    ensures
        0 <= i < found.len(),
        o.repeats(projection, found[i], s),
{
    let i = choose|i: int| 0 <= i < found.len() && o.speaks_for(projection, #[trigger] found[i], s);
    let f = found[i];
    if !o.repeats(projection, f, s) {
        let lower = choose|k: Key<DP>| #[trigger] o.falls_short(projection, f, s, k);
        assert(f.dom().contains(lower) && projection.contains(lower));
        assert(maximal::is_peak(dp, root, version, demands, o, projection, found[i]));
        maximal::lemma_offered(dp, root, version, demands, s);
        maximal::lemma_offered(dp, root, version, demands, f);
        assert forall|k: Key<DP>| #[trigger] s.dom().contains(k) && projection.contains(k) implies {
            &&& f.dom().contains(k)
            &&& if k == lower {
                (o.higher)(s[k]).contains(f[k])
            } else {
                o.at_least(s[k]).contains(f[k])
            }
        } by {
            assert(found[i].dom().contains(k));
            assert(f.dom().contains(k) && projection.contains(k));
            assert(!(o.higher)(f[k]).contains(s[k]));
            assert((o.higher)(s[k]).contains(f[k]) || (o.equal)(s[k]).contains(f[k]));
        }
        assert(o.improves(projection, s, f, lower));
        assert(o.dominates(projection, s, f));
    }
    i
}

/// No solution is returned twice: of two solutions with the same projected packages, the later one
/// has another realization somewhere.
pub proof fn pareto_front_repeats_nothing<DP: DependencyProvider>(
    dp: DP,
    root: Key<DP>,
    version: VersionOf<DP>,
    demands: Clause<Key<DP>, VersionOf<DP>>,
    o: Precedence<VersionOf<DP>>,
    projection: Seq<Key<DP>>,
    found: Seq<Selection<DP>>,
    i: int,
    j: int,
)
    requires
        maximal::is_maximal_set(dp, root, version, demands, o, projection, found),
        o.is_ranked(finite::offered_versions(dp)),
        0 <= i < j < found.len(),
        forall|k: Key<DP>| #[trigger]
            projection.contains(k) ==> (found[i].dom().contains(k) <==> found[j].dom().contains(k)),
    ensures
        !o.repeats(projection, found[i], found[j]),
{
    let a = found[i];
    let b = found[j];
    if o.repeats(projection, a, b) {
        let among = finite::offered_versions(dp);
        let number = choose|number: spec_fn(VersionOf<DP>) -> int| #[trigger]
            o.numbered(among, number);
        assert(maximal::is_peak(dp, root, version, demands, o, projection, found[j]));
        maximal::lemma_offered(dp, root, version, demands, a);
        maximal::lemma_offered(dp, root, version, demands, b);
        assert(maximal::is_reached(dp, root, version, demands, o, projection, found, j));
        let s = choose|s: Selection<DP>| #[trigger]
            maximal::leads_to(dp, root, version, demands, o, projection, found.take(j), s, b);
        assert(found.take(j)[i] == a);
        assert(!o.speaks_for(projection, found.take(j)[i], s));
        assert(o.climbs(projection, s, b, number));
        assert(maximal::is_peak(dp, root, version, demands, o, projection, found[i]));
        if b != s {
            let lower = choose|k: Key<DP>| #[trigger]
                s.dom().contains(k) && projection.contains(k) && number(b[k]) > number(s[k]);
            assert(b.dom().contains(lower));
            assert forall|k: Key<DP>| #[trigger]
                a.dom().contains(k) && projection.contains(k) implies if k == lower {
                s.dom().contains(k) && !o.at_least(a[k]).contains(s[k])
            } else {
                s.dom().contains(k) ==> !(o.higher)(a[k]).contains(s[k])
            } by {
                assert(o.flaw(a[k]) is None);
                assert((o.same)(a[k]).contains(b[k]));
                assert((o.equal)(a[k]).contains(b[k]));
                assert(number(b[k]) == number(a[k]));
                if s.dom().contains(k) {
                    assert(number(b[k]) >= number(s[k]));
                    if (o.higher)(a[k]).contains(s[k]) {
                        assert(number(s[k]) > number(a[k]));
                    }
                    if (o.equal)(a[k]).contains(s[k]) {
                        assert(number(s[k]) == number(a[k]));
                    }
                }
            }
            assert(o.falls_short(projection, a, s, lower));
        }
        assert(o.speaks_for(projection, a, s));
    }
}

/// Where the provider raises no error and the ordering has no flaw at a version that can be
/// selected, maximal solutions are found exactly when there is a solution.
pub proof fn pareto_front_exists_for_every_solvable_problem<DP: DependencyProvider>(
    dp: DP,
    root: Key<DP>,
    version: VersionOf<DP>,
    demands: Clause<Key<DP>, VersionOf<DP>>,
    o: Precedence<VersionOf<DP>>,
    projection: Seq<Key<DP>>,
    r: Result<MaximalSolutions<DP::P, VersionOf<DP>>, PubGrubError<DP>>,
)
    requires
        solver::maximized(dp, root, version, demands, o, projection, r),
        !dp.may_fail(),
        forall|s: Selection<DP>| #[trigger]
            maximal::qualifies(dp, root, version, demands, s) ==> o.flawless(projection, s),
    ensures
        r is Ok <==> exists|s: Selection<DP>| #[trigger]
            maximal::qualifies(dp, root, version, demands, s),
{
    match r {
        Ok(solutions) => {
            let found = maximal::selections(solutions@);
            assert(maximal::is_peak(dp, root, version, demands, o, projection, found[0]));
            assert(maximal::qualifies(dp, root, version, demands, found[0]));
        },
        Err(error) => {
            if maximal::finds_flaw(dp, root, version, demands, o, projection, error) {
                let s = choose|s: Selection<DP>| #[trigger]
                    maximal::qualifies(dp, root, version, demands, s) && s.get(
                        error->InvalidVersionOrdering_package@,
                    ) == Some(error->InvalidVersionOrdering_version);
                let k = error->InvalidVersionOrdering_package@;
                assert(s.dom().contains(k) && projection.contains(k));
            }
            let forced = run::forced_clauses(root, version, demands);
            error::lemma_proves_no_solution(error, dp, root, version, forced);
            assert forall|s: Selection<DP>| !#[trigger] maximal::qualifies(
                dp,
                root,
                version,
                demands,
                s,
            ) by {
                if maximal::qualifies(dp, root, version, demands, s) {
                    run::lemma_forced(root, version, demands, s);
                    assert(problem::avoids(forced, s));
                }
            }
        },
    }
}

/// Where in the groups the element of the joined list comes from.
pub proof fn lemma_joined_from<T>(groups: Seq<Seq<T>>, i: int) -> (at: (int, int))
    requires
        0 <= i < solver::joined(groups).len(),
    ensures
        0 <= at.0 < groups.len(),
        0 <= at.1 < groups[at.0].len(),
        solver::joined(groups)[i] == groups[at.0][at.1],
    decreases groups.len(),
{
    let before = solver::joined(groups.drop_last());
    if i < before.len() {
        lemma_joined_from(groups.drop_last(), i)
    } else {
        (groups.len() - 1, i - before.len())
    }
}

/// Where the element of a group is in the joined list.
proof fn lemma_joined_to<T>(groups: Seq<Seq<T>>, g: int, m: int) -> (i: int)
    requires
        0 <= g < groups.len(),
        0 <= m < groups[g].len(),
    ensures
        0 <= i < solver::joined(groups).len(),
        solver::joined(groups)[i] == groups[g][m],
    decreases groups.len(),
{
    let before = solver::joined(groups.drop_last());
    if g < groups.len() - 1 {
        lemma_joined_to(groups.drop_last(), g, m)
    } else {
        before.len() + m
    }
}

/// The group that a solution with a minimal change comes from.
pub proof fn lemma_group_of<DP: DependencyProvider>(
    dp: DP,
    root: Key<DP>,
    version: VersionOf<DP>,
    preferences: Seq<PackagePreference<DP::P, DP::VS>>,
    o: Precedence<VersionOf<DP>>,
    projection: Seq<Key<DP>>,
    fronts: Seq<Seq<bool>>,
    groups: Seq<Seq<Selection<DP>>>,
    g: int,
    m: int,
)
    requires
        solver::is_grouped(dp, root, version, preferences, o, projection, fronts, groups),
        0 <= g < groups.len(),
        0 <= m < groups[g].len(),
    ensures
        front::profile(preferences, groups[g][m]) == fronts[g],
        front::maximal(front::preservable(dp, root, version, preferences), fronts[g]),
        maximal::is_peak(
            dp,
            root,
            version,
            front::demands_for(preferences, fronts[g]),
            o,
            projection,
            groups[g][m],
        ),
{
    let kept = fronts[g];
    let demands = front::demands_for(preferences, kept);
    assert(maximal::is_maximal_set(dp, root, version, demands, o, projection, groups[g]));
    assert(maximal::is_peak(dp, root, version, demands, o, projection, groups[g][m]));
    assert(fronts.contains(kept));
    assert(front::maximal(front::preservable(dp, root, version, preferences), kept));
    assert(kept.len() == preferences.len()) by {
        assert(front::achievable(dp, root, version, preferences, kept));
    }
    front::lemma_demands_for(preferences, kept, groups[g][m]);
}

/// What is returned solves the problem.
pub proof fn lemma_minimal_change_solves<DP: DependencyProvider>(
    dp: DP,
    root: Key<DP>,
    version: VersionOf<DP>,
    preferences: Seq<PackagePreference<DP::P, DP::VS>>,
    o: Precedence<VersionOf<DP>>,
    projection: Seq<Key<DP>>,
    found: Seq<Selection<DP>>,
    i: int,
)
    requires
        solver::is_minimal_change(dp, root, version, preferences, o, projection, found),
        0 <= i < found.len(),
    ensures
        problem::is_solution(dp, root, version, found[i]),
{
    let (fronts, groups) = choose|fronts: Seq<Seq<bool>>, groups: Seq<Seq<Selection<DP>>>|
        #[trigger]
        solver::is_grouped(dp, root, version, preferences, o, projection, fronts, groups)
            && solver::joined(groups) == found;
    let (g, m) = lemma_joined_from(groups, i);
    lemma_group_of(dp, root, version, preferences, o, projection, fronts, groups, g, m);
}

/// The change is minimal: no solution preserves all preferences that a returned one preserves, and
/// more.
pub proof fn minimal_change_preserves_what_it_can<DP: DependencyProvider>(
    dp: DP,
    root: Key<DP>,
    version: VersionOf<DP>,
    preferences: Seq<PackagePreference<DP::P, DP::VS>>,
    o: Precedence<VersionOf<DP>>,
    projection: Seq<Key<DP>>,
    found: Seq<Selection<DP>>,
    i: int,
    s: Selection<DP>,
)
    requires
        solver::is_minimal_change(dp, root, version, preferences, o, projection, found),
        0 <= i < found.len(),
        problem::is_solution(dp, root, version, s),
        front::includes(front::profile(preferences, s), front::profile(preferences, found[i])),
    ensures
        front::profile(preferences, s) == front::profile(preferences, found[i]),
{
    let (fronts, groups) = choose|fronts: Seq<Seq<bool>>, groups: Seq<Seq<Selection<DP>>>|
        #[trigger]
        solver::is_grouped(dp, root, version, preferences, o, projection, fronts, groups)
            && solver::joined(groups) == found;
    let (g, m) = lemma_joined_from(groups, i);
    lemma_group_of(dp, root, version, preferences, o, projection, fronts, groups, g, m);
    let kept = front::profile(preferences, s);
    assert(front::achievable(dp, root, version, preferences, kept));
    assert(front::preservable(dp, root, version, preferences)(kept));
}

/// Versions are maximized second: no solution that preserves the same preferences dominates a
/// returned one.
pub proof fn minimal_change_maximizes_versions_second<DP: DependencyProvider>(
    dp: DP,
    root: Key<DP>,
    version: VersionOf<DP>,
    preferences: Seq<PackagePreference<DP::P, DP::VS>>,
    o: Precedence<VersionOf<DP>>,
    projection: Seq<Key<DP>>,
    found: Seq<Selection<DP>>,
    i: int,
    s: Selection<DP>,
)
    requires
        solver::is_minimal_change(dp, root, version, preferences, o, projection, found),
        0 <= i < found.len(),
        problem::is_solution(dp, root, version, s),
        front::profile(preferences, s) == front::profile(preferences, found[i]),
    ensures
        !o.dominates(projection, found[i], s),
{
    let (fronts, groups) = choose|fronts: Seq<Seq<bool>>, groups: Seq<Seq<Selection<DP>>>|
        #[trigger]
        solver::is_grouped(dp, root, version, preferences, o, projection, fronts, groups)
            && solver::joined(groups) == found;
    let (g, m) = lemma_joined_from(groups, i);
    lemma_group_of(dp, root, version, preferences, o, projection, fronts, groups, g, m);
    front::lemma_demands_for(preferences, fronts[g], s);
    assert(maximal::qualifies(
        dp,
        root,
        version,
        front::demands_for(preferences, fronts[g]),
        s,
    ));
}

/// The number of preferences that are not preserved.
spec fn losses(kept: Seq<bool>) -> nat
    decreases kept.len(),
{
    if kept.len() == 0 {
        0
    } else {
        losses(kept.drop_last()) + if kept.last() {
            0nat
        } else {
            1nat
        }
    }
}

proof fn lemma_losses(more: Seq<bool>, kept: Seq<bool>)
    requires
        front::includes(more, kept),
    ensures
        losses(more) <= losses(kept),
        more != kept ==> losses(more) < losses(kept),
    decreases kept.len(),
{
    if kept.len() > 0 {
        let a = more.drop_last();
        let b = kept.drop_last();
        assert(front::includes(a, b)) by {
            assert forall|i: int| 0 <= i < b.len() && #[trigger] b[i] implies a[i] by {
                assert(kept[i]);
            }
        }
        lemma_losses(a, b);
        assert(kept.last() ==> more.last()) by {
            assert(kept[kept.len() - 1] ==> more[kept.len() - 1]);
        }
        if more != kept && a == b {
            assert(more =~= a.push(more.last()));
            assert(kept =~= b.push(kept.last()));
        }
    } else {
        assert(more =~= kept);
    }
}

/// Whatever is good is below a maximal element.
proof fn lemma_maximal_above(good: spec_fn(Seq<bool>) -> bool, kept: Seq<bool>) -> (top: Seq<bool>)
    requires
        good(kept),
    ensures
        front::maximal(good, top),
        front::includes(top, kept),
    decreases losses(kept),
{
    if front::maximal(good, kept) {
        kept
    } else {
        let other = choose|other: Seq<bool>| #[trigger]
            good(other) && front::includes(other, kept) && other != kept;
        lemma_losses(other, kept);
        let top = lemma_maximal_above(good, other);
        assert forall|i: int| 0 <= i < kept.len() && #[trigger] kept[i] implies top[i] by {
            assert(other[i]);
        }
        top
    }
}

/// All minimal change sets are returned: whatever a solution preserves, a returned one preserves,
/// and where nothing preserves more, one that preserves exactly as much is returned.
pub proof fn every_minimal_change_is_returned<DP: DependencyProvider>(
    dp: DP,
    root: Key<DP>,
    version: VersionOf<DP>,
    preferences: Seq<PackagePreference<DP::P, DP::VS>>,
    o: Precedence<VersionOf<DP>>,
    projection: Seq<Key<DP>>,
    found: Seq<Selection<DP>>,
    s: Selection<DP>,
) -> (i: int)
    requires
        solver::is_minimal_change(dp, root, version, preferences, o, projection, found),
        problem::is_solution(dp, root, version, s),
    ensures
        0 <= i < found.len(),
        front::includes(front::profile(preferences, found[i]), front::profile(preferences, s)),
        front::maximal(
            front::preservable(dp, root, version, preferences),
            front::profile(preferences, s),
        ) ==> front::profile(preferences, found[i]) == front::profile(preferences, s),
{
    let (fronts, groups) = choose|fronts: Seq<Seq<bool>>, groups: Seq<Seq<Selection<DP>>>|
        #[trigger]
        solver::is_grouped(dp, root, version, preferences, o, projection, fronts, groups)
            && solver::joined(groups) == found;
    let good = front::preservable(dp, root, version, preferences);
    let kept = front::profile(preferences, s);
    assert(front::achievable(dp, root, version, preferences, kept));
    assert(good(kept));
    let top = lemma_maximal_above(good, kept);
    assert(fronts.contains(top));
    let g = choose|g: int| 0 <= g < fronts.len() && fronts[g] == top;
    assert(maximal::is_maximal_set(
        dp,
        root,
        version,
        front::demands_for(preferences, fronts[g]),
        o,
        projection,
        groups[g],
    ));
    lemma_group_of(dp, root, version, preferences, o, projection, fronts, groups, g, 0);
    let i = lemma_joined_to(groups, g, 0);
    if front::maximal(good, kept) {
        assert(good(top));
    }
    i
}

/// Where components are not coupled, a combination is maximal exactly when it is maximal in each
/// component.
pub proof fn independent_fronts_multiply<DP: DependencyProvider>(
    dp: DP,
    root: Key<DP>,
    version: VersionOf<DP>,
    components: Seq<Seq<PackagePreference<DP::P, DP::VS>>>,
    fronts: Seq<Seq<Seq<bool>>>,
    rows: Seq<Seq<bool>>,
)
    requires
        factored::are_fronts(dp, root, version, components, fronts),
        factored::independent(dp, root, version, components),
        rows.len() == components.len(),
    ensures
        factored::jointly_maximal(dp, root, version, components, rows) <==> forall|i: int|
            0 <= i < fronts.len() ==> (#[trigger] fronts[i]).contains(rows[i]),
{
    if factored::jointly_maximal(dp, root, version, components, rows) {
        assert forall|i: int| 0 <= i < fronts.len() implies (#[trigger] fronts[i]).contains(
            rows[i],
        ) by {
            let good = front::preservable(dp, root, version, components[i]);
            lemma_rows_achievable(dp, root, version, components, rows);
            assert(front::achievable(dp, root, version, components[i], rows[i]));
            assert forall|other: Seq<bool>| #[trigger]
                good(other) && front::includes(other, rows[i]) implies other == rows[i] by {
                let more = rows.update(i, other);
                assert forall|j: int| 0 <= j < more.len() implies front::achievable(
                    dp,
                    root,
                    version,
                    components[j],
                    #[trigger] more[j],
                ) by {
                    if j != i {
                        assert(front::achievable(dp, root, version, components[j], rows[j]));
                    }
                }
                assert(factored::jointly_achievable(dp, root, version, components, more));
                assert forall|j: int| 0 <= j < rows.len() implies front::includes(
                    more[j],
                    #[trigger] rows[j],
                ) by {}
                assert(factored::includes_all(more, rows));
                assert(more[i] == rows[i]);
            }
            assert(front::maximal(good, rows[i]));
        }
    }
    if forall|i: int| 0 <= i < fronts.len() ==> (#[trigger] fronts[i]).contains(rows[i]) {
        assert forall|i: int| 0 <= i < rows.len() implies front::maximal(
            front::preservable(dp, root, version, components[i]),
            #[trigger] rows[i],
        ) by {
            assert(fronts[i].contains(rows[i]));
        }
        assert forall|i: int| 0 <= i < rows.len() implies front::achievable(
            dp,
            root,
            version,
            components[i],
            #[trigger] rows[i],
        ) by {
            assert(front::preservable(dp, root, version, components[i])(rows[i]));
        }
        assert(factored::jointly_achievable(dp, root, version, components, rows));
        assert forall|other: Seq<Seq<bool>>| #[trigger]
            factored::jointly_achievable(dp, root, version, components, other)
                && factored::includes_all(other, rows) implies other == rows by {
            lemma_rows_achievable(dp, root, version, components, other);
            assert forall|i: int| 0 <= i < rows.len() implies other[i] == rows[i] by {
                assert(front::achievable(dp, root, version, components[i], other[i]));
                assert(front::preservable(dp, root, version, components[i])(other[i]));
                assert(front::includes(other[i], rows[i]));
            }
            assert(other =~= rows);
        }
    }
}

/// What is achievable for all components is achievable for each.
proof fn lemma_rows_achievable<DP: DependencyProvider>(
    dp: DP,
    root: Key<DP>,
    version: VersionOf<DP>,
    components: Seq<Seq<PackagePreference<DP::P, DP::VS>>>,
    rows: Seq<Seq<bool>>,
)
    requires
        factored::jointly_achievable(dp, root, version, components, rows),
    ensures
        rows.len() == components.len(),
        forall|i: int|
            0 <= i < rows.len() ==> front::achievable(
                dp,
                root,
                version,
                components[i],
                #[trigger] rows[i],
            ),
{
    let s = choose|s: Selection<DP>| #[trigger]
        problem::is_solution(dp, root, version, s) && factored::profiles(components, s) == rows;
    assert forall|i: int| 0 <= i < rows.len() implies front::achievable(
        dp,
        root,
        version,
        components[i],
        #[trigger] rows[i],
    ) by {
        assert(front::profile(components[i], s) == rows[i]);
    }
}

/// The number of the first fronts that leave a choice.
spec fn choices_before(fronts: Seq<Seq<Seq<bool>>>, n: int) -> int
    decreases n,
{
    if n <= 0 {
        0
    } else {
        choices_before(fronts, n - 1) + if fronts[n - 1].len() > 1 {
            1int
        } else {
            0int
        }
    }
}

/// The element of the front that the choice names.
spec fn named_row(fronts: Seq<Seq<Seq<bool>>>, selected: Seq<usize>, i: int) -> Seq<bool> {
    if fronts[i].len() > 1 {
        fronts[i][selected[choices_before(fronts, i)] as int]
    } else {
        fronts[i][0]
    }
}

proof fn lemma_all_met_add<K, V>(
    a: Seq<(K, Set<Option<V>>, bool)>,
    b: Seq<(K, Set<Option<V>>, bool)>,
    s: Map<K, V>,
)
    ensures
        factored::all_met(a + b, s) <==> factored::all_met(a, s) && factored::all_met(b, s),
{
    let both = a + b;
    if factored::all_met(both, s) {
        assert forall|i: int| 0 <= i < a.len() implies (#[trigger] a[i]).1.contains(s.get(a[i].0))
            == a[i].2 by {
            assert(both[i] == a[i]);
        }
        assert forall|i: int| 0 <= i < b.len() implies (#[trigger] b[i]).1.contains(s.get(b[i].0))
            == b[i].2 by {
            assert(both[a.len() + i] == b[i]);
        }
    }
}

proof fn lemma_all_met_push<K, V>(
    a: Seq<(K, Set<Option<V>>, bool)>,
    d: (K, Set<Option<V>>, bool),
    s: Map<K, V>,
)
    ensures
        factored::all_met(a.push(d), s) <==> factored::all_met(a, s) && d.1.contains(s.get(d.0))
            == d.2,
{
    lemma_all_met_add(a, seq![d], s);
    assert(a.push(d) =~= a + seq![d]);
    assert(seq![d][0] == d);
    if d.1.contains(s.get(d.0)) == d.2 {
        assert(factored::all_met(seq![d], s));
    }
}

/// The decisions of one component hold exactly where its preferences are preserved as the element
/// of its front says.
proof fn lemma_component_met<P: Package, VS: VersionSet>(
    preferences: Seq<PackagePreference<P, VS>>,
    front: Seq<Seq<bool>>,
    kept: Seq<bool>,
    n: int,
    s: Map<P::V, VS::V>,
)
    requires
        front.contains(kept),
        0 <= n <= preferences.len(),
    ensures
        (factored::all_met(factored::agreed_decisions(preferences, front, n), s)
            && factored::all_met(factored::own_decisions(preferences, front, kept, n), s))
            <==> forall|j: int|
            0 <= j < n ==> (#[trigger] preferences[j]).kept_in(s) == kept[j],
    decreases n,
{
    if n > 0 {
        lemma_component_met(preferences, front, kept, n - 1, s);
        let last = preferences[n - 1];
        let agreed = factored::agreed_decisions(preferences, front, n - 1);
        let own = factored::own_decisions(preferences, front, kept, n - 1);
        let g = choose|g: int| 0 <= g < front.len() && front[g] == kept;
        if factored::agreed(front, n - 1) {
            assert(front[g][n - 1] == front[0][n - 1]);
            lemma_all_met_push(agreed, (last.key(), last.states(), front[0][n - 1]), s);
        } else {
            lemma_all_met_push(own, (last.key(), last.states(), kept[n - 1]), s);
        }
        assert((forall|j: int|
            0 <= j < n ==> (#[trigger] preferences[j]).kept_in(s) == kept[j]) <==> (forall|j: int|
            0 <= j < n - 1 ==> (#[trigger] preferences[j]).kept_in(s) == kept[j]) && last.kept_in(s)
            == kept[n - 1]) by {
            if forall|j: int| 0 <= j < n ==> (#[trigger] preferences[j]).kept_in(s) == kept[j] {
                assert(preferences[n - 1].kept_in(s) == kept[n - 1]);
            }
        }
    }
}

/// A front with one element has nothing to decide.
proof fn lemma_single_front<P: Package, VS: VersionSet>(
    preferences: Seq<PackagePreference<P, VS>>,
    front: Seq<Seq<bool>>,
    n: int,
)
    requires
        front.len() == 1,
        0 <= n <= preferences.len(),
    ensures
        factored::own_decisions(preferences, front, front[0], n).len() == 0,
    decreases n,
{
    if n > 0 {
        lemma_single_front(preferences, front, n - 1);
        assert(factored::agreed(front, n - 1));
    }
}

proof fn lemma_choices_count(fronts: Seq<Seq<Seq<bool>>>, n: int)
    ensures
        choices_before(fronts, n) >= 0,
    decreases n,
{
    if n > 0 {
        lemma_choices_count(fronts, n - 1);
    }
}

proof fn lemma_factors_len<P: Package, VS: VersionSet>(
    components: Seq<Seq<PackagePreference<P, VS>>>,
    fronts: Seq<Seq<Seq<bool>>>,
    n: int,
)
    ensures
        factored::factors_of(components, fronts, n).len() == choices_before(fronts, n),
    decreases n,
{
    if n > 0 {
        lemma_factors_len(components, fronts, n - 1);
    }
}

/// The decisions of an assignment hold exactly where the preferences of each component are
/// preserved as the named element of its front says.
proof fn lemma_assignment_met<P: Package, VS: VersionSet>(
    components: Seq<Seq<PackagePreference<P, VS>>>,
    fronts: Seq<Seq<Seq<bool>>>,
    selected: Seq<usize>,
    n: int,
    s: Map<P::V, VS::V>,
)
    requires
        0 <= n <= components.len(),
        fronts.len() == components.len(),
        forall|i: int| 0 <= i < fronts.len() ==> (#[trigger] fronts[i]).len() > 0,
        forall|i: int, j: int|
            0 <= i < fronts.len() && 0 <= j < fronts[i].len() ==> (#[trigger] fronts[i][j]).len()
                == components[i].len(),
        choices_before(fronts, n) <= selected.len(),
        forall|i: int|
            0 <= i < n && (#[trigger] fronts[i]).len() > 1 ==> selected[choices_before(fronts, i)]
                < fronts[i].len(),
    ensures
        (factored::all_met(factored::common_of(components, fronts, n), s) && factored::all_met(
            preference::picked(factored::factors_of(components, fronts, n), selected),
            s,
        )) <==> forall|i: int|
            0 <= i < n ==> front::profile(#[trigger] components[i], s) == named_row(
                fronts,
                selected,
                i,
            ),
    decreases n,
{
    if n > 0 {
        let m = n - 1;
        lemma_choices_count(fronts, m);
        lemma_assignment_met(components, fronts, selected, m, s);
        let preferences = components[m];
        let front = fronts[m];
        let kept = named_row(fronts, selected, m);
        let all = preferences.len() as int;
        assert(fronts[m].len() > 0);
        let g = if front.len() > 1 {
            selected[choices_before(fronts, m)] as int
        } else {
            0
        };
        assert(front[g] == kept);
        assert(front.contains(kept));
        assert(fronts[m][g].len() == components[m].len());
        lemma_component_met(preferences, front, kept, all, s);
        let agreed = factored::agreed_decisions(preferences, front, all);
        let own = factored::own_decisions(preferences, front, kept, all);
        lemma_all_met_add(factored::common_of(components, fronts, m), agreed, s);
        let earlier = factored::factors_of(components, fronts, m);
        lemma_factors_len(components, fronts, m);
        if front.len() > 1 {
            let factor = factored::alternatives_of(preferences, front);
            let later = factored::factors_of(components, fronts, n);
            assert(later.drop_last() =~= earlier);
            assert(later.last() == factor);
            assert(factor[g] == own);
            assert(preference::picked(later, selected) == preference::picked(earlier, selected)
                + own);
            lemma_all_met_add(preference::picked(earlier, selected), own, s);
        } else {
            lemma_single_front(preferences, front, all);
            assert(factored::all_met(own, s));
        }
        let row = front::profile(preferences, s);
        assert(row == kept <==> forall|j: int|
            0 <= j < all ==> (#[trigger] preferences[j]).kept_in(s) == kept[j]) by {
            if row == kept {
                assert forall|j: int| 0 <= j < all implies (#[trigger] preferences[j]).kept_in(s)
                    == kept[j] by {
                    assert(row[j] == kept[j]);
                }
            } else if forall|j: int|
                0 <= j < all ==> (#[trigger] preferences[j]).kept_in(s) == kept[j] {
                assert(row =~= kept);
            }
        }
        assert((forall|i: int|
            0 <= i < n ==> front::profile(#[trigger] components[i], s) == named_row(
                fronts,
                selected,
                i,
            )) <==> (forall|i: int|
            0 <= i < m ==> front::profile(#[trigger] components[i], s) == named_row(
                fronts,
                selected,
                i,
            )) && row == kept) by {
            if forall|i: int|
                0 <= i < n ==> front::profile(#[trigger] components[i], s) == named_row(
                    fronts,
                    selected,
                    i,
                ) {
                assert(front::profile(components[m], s) == named_row(fronts, selected, m));
            }
        }
    }
}

/// The fronts of a product hold one truth value for each preference of their component.
pub proof fn lemma_rows_fit<DP: DependencyProvider>(
    dp: DP,
    root: Key<DP>,
    version: VersionOf<DP>,
    components: Seq<Seq<PackagePreference<DP::P, DP::VS>>>,
    fronts: Seq<Seq<Seq<bool>>>,
)
    requires
        factored::are_fronts(dp, root, version, components, fronts),
    ensures
        forall|i: int, j: int|
            0 <= i < fronts.len() && 0 <= j < fronts[i].len() ==> (#[trigger] fronts[i][j]).len()
                == components[i].len(),
{
    assert forall|i: int, j: int|
        0 <= i < fronts.len() && 0 <= j < fronts[i].len() implies (#[trigger] fronts[i][j]).len()
        == components[i].len() by {
        let kept = fronts[i][j];
        assert(fronts[i].contains(kept));
        assert(front::maximal(front::preservable(dp, root, version, components[i]), kept));
        assert(front::achievable(dp, root, version, components[i], kept));
    }
}

/// The factor of a component whose front leaves a choice.
proof fn lemma_factor_at<P: Package, VS: VersionSet>(
    components: Seq<Seq<PackagePreference<P, VS>>>,
    fronts: Seq<Seq<Seq<bool>>>,
    i: int,
    n: int,
)
    requires
        0 <= i < n,
        fronts[i].len() > 1,
    ensures
        0 <= choices_before(fronts, i) < factored::factors_of(components, fronts, n).len(),
        factored::factors_of(components, fronts, n)[choices_before(fronts, i)].len()
            == fronts[i].len(),
    decreases n,
{
    lemma_factors_len(components, fronts, n - 1);
    lemma_choices_count(fronts, i);
    if i < n - 1 {
        lemma_factor_at(components, fronts, i, n - 1);
    }
}

/// The choice that names the given elements of the fronts.
spec fn naming(fronts: Seq<Seq<Seq<bool>>>, rows: Seq<Seq<bool>>, n: int) -> Seq<usize>
    decreases n,
{
    if n <= 0 {
        Seq::empty()
    } else {
        let before = naming(fronts, rows, n - 1);
        if fronts[n - 1].len() > 1 {
            before.push(fronts[n - 1].index_of(rows[n - 1]) as usize)
        } else {
            before
        }
    }
}

proof fn lemma_naming<P: Package, VS: VersionSet>(
    components: Seq<Seq<PackagePreference<P, VS>>>,
    fronts: Seq<Seq<Seq<bool>>>,
    rows: Seq<Seq<bool>>,
    n: int,
)
    requires
        0 <= n <= fronts.len(),
        forall|i: int| 0 <= i < fronts.len() ==> (#[trigger] fronts[i]).contains(rows[i]),
        forall|i: int| 0 <= i < fronts.len() ==> (#[trigger] fronts[i]).len() <= usize::MAX,
    ensures
        naming(fronts, rows, n).len() == choices_before(fronts, n),
        factored::is_assignment(
            factored::factors_of(components, fronts, n),
            naming(fronts, rows, n),
        ),
        forall|i: int, more: Seq<usize>|
            0 <= i < n && naming(fronts, rows, n).is_prefix_of(more) ==> #[trigger] named_row(
                fronts,
                more,
                i,
            ) == rows[i],
    decreases n,
{
    if n > 0 {
        let m = n - 1;
        lemma_naming(components, fronts, rows, m);
        lemma_factors_len(components, fronts, m);
        let before = naming(fronts, rows, m);
        let after = naming(fronts, rows, n);
        let front = fronts[m];
        assert(fronts[m].contains(rows[m]));
        let g = front.index_of(rows[m]);
        assert(0 <= g < front.len() && front[g] == rows[m]);
        assert(g as usize == g);
        assert(before.is_prefix_of(after));
        let earlier = factored::factors_of(components, fronts, m);
        let later = factored::factors_of(components, fronts, n);
        assert forall|i: int| 0 <= i < after.len() implies #[trigger] after[i]
            < later[i].len() by {
            if i < before.len() {
                assert(after[i] == before[i]);
                assert(before[i] < earlier[i].len());
            }
        }
        assert forall|i: int, more: Seq<usize>|
            0 <= i < n && after.is_prefix_of(more) implies #[trigger] named_row(fronts, more, i)
            == rows[i] by {
            if i < m {
                assert(before.is_prefix_of(more)) by {
                    assert(more.take(before.len() as int) =~= before);
                }
            } else if front.len() > 1 {
                assert(more[before.len() as int] == after[before.len() as int]);
            } else {
                assert(g == 0);
            }
        }
    }
}

/// Where components are not coupled, the product is exactly the Pareto front: a solution preserves
/// a maximal combination of preferences exactly when it meets a complete assignment.
pub proof fn product_is_the_pareto_front<DP: DependencyProvider>(
    dp: DP,
    root: Key<DP>,
    version: VersionOf<DP>,
    components: Seq<Seq<PackagePreference<DP::P, DP::VS>>>,
    product: FactoredPreferenceSolutions<DP::P, DP::VS>,
    s: Selection<DP>,
)
    requires
        solver::is_product(dp, root, version, components, product),
        factored::independent(dp, root, version, components),
        problem::is_solution(dp, root, version, s),
    ensures
        factored::jointly_maximal(
            dp,
            root,
            version,
            components,
            factored::profiles(components, s),
        ) <==> exists|selected: Seq<usize>| #[trigger]
            factored::is_assignment(product.open_choices(), selected) && factored::all_met(
                product.shared() + preference::picked(product.open_choices(), selected),
                s,
            ),
{
    let fronts = choose|fronts: Seq<Seq<Seq<bool>>>| #[trigger]
        factored::are_fronts(dp, root, version, components, fronts) && product.shared()
            == factored::common_of(components, fronts, components.len() as int)
            && product.open_choices() == factored::factors_of(
            components,
            fronts,
            components.len() as int,
        );
    let n = components.len() as int;
    let rows = factored::profiles(components, s);
    let factors = product.open_choices();
    independent_fronts_multiply(dp, root, version, components, fronts, rows);
    lemma_rows_fit(dp, root, version, components, fronts);
    lemma_factors_len(components, fronts, n);
    if factored::jointly_maximal(dp, root, version, components, rows) {
        product.lemma_alternatives_are_numbered();
        assert forall|i: int| 0 <= i < fronts.len() implies (#[trigger] fronts[i]).len()
            <= usize::MAX by {
            if fronts[i].len() > 1 {
                lemma_factor_at(components, fronts, i, n);
                assert(factors[choices_before(fronts, i)].len() <= usize::MAX);
            }
        }
        lemma_naming(components, fronts, rows, n);
        let selected = naming(fronts, rows, n);
        assert(selected.is_prefix_of(selected));
        assert forall|i: int| 0 <= i < n && (#[trigger] fronts[i]).len() > 1 implies selected[choices_before(
            fronts,
            i,
        )] < fronts[i].len() by {
            lemma_factor_at(components, fronts, i, n);
        }
        lemma_assignment_met(components, fronts, selected, n, s);
        assert forall|i: int| 0 <= i < n implies front::profile(#[trigger] components[i], s)
            == named_row(fronts, selected, i) by {
            assert(rows[i] == front::profile(components[i], s));
        }
        lemma_all_met_add(product.shared(), preference::picked(factors, selected), s);
        assert(factored::is_assignment(factors, selected));
    }
    if exists|selected: Seq<usize>| #[trigger]
        factored::is_assignment(product.open_choices(), selected) && factored::all_met(
            product.shared() + preference::picked(product.open_choices(), selected),
            s,
        ) {
        let selected = choose|selected: Seq<usize>| #[trigger]
            factored::is_assignment(product.open_choices(), selected) && factored::all_met(
                product.shared() + preference::picked(product.open_choices(), selected),
                s,
            );
        lemma_all_met_add(product.shared(), preference::picked(factors, selected), s);
        assert forall|i: int| 0 <= i < n && (#[trigger] fronts[i]).len() > 1 implies selected[choices_before(
            fronts,
            i,
        )] < fronts[i].len() by {
            lemma_factor_at(components, fronts, i, n);
        }
        lemma_assignment_met(components, fronts, selected, n, s);
        assert forall|i: int| 0 <= i < fronts.len() implies (#[trigger] fronts[i]).contains(
            rows[i],
        ) by {
            assert(front::profile(components[i], s) == named_row(fronts, selected, i));
            if fronts[i].len() > 1 {
                let g = selected[choices_before(fronts, i)] as int;
                assert(fronts[i][g] == rows[i]);
            } else {
                assert(fronts[i].len() > 0);
                assert(fronts[i][0] == rows[i]);
            }
        }
    }
}

/// Where components are not coupled, every complete assignment of the product is met by a solution.
pub proof fn every_assignment_is_feasible<DP: DependencyProvider>(
    dp: DP,
    root: Key<DP>,
    version: VersionOf<DP>,
    components: Seq<Seq<PackagePreference<DP::P, DP::VS>>>,
    product: FactoredPreferenceSolutions<DP::P, DP::VS>,
    selected: Seq<usize>,
) -> (s: Selection<DP>)
    requires
        solver::is_product(dp, root, version, components, product),
        factored::independent(dp, root, version, components),
        factored::is_assignment(product.open_choices(), selected),
    ensures
        problem::is_solution(dp, root, version, s),
        factored::all_met(
            product.shared() + preference::picked(product.open_choices(), selected),
            s,
        ),
{
    let fronts = choose|fronts: Seq<Seq<Seq<bool>>>| #[trigger]
        factored::are_fronts(dp, root, version, components, fronts) && product.shared()
            == factored::common_of(components, fronts, components.len() as int)
            && product.open_choices() == factored::factors_of(
            components,
            fronts,
            components.len() as int,
        );
    let n = components.len() as int;
    let factors = product.open_choices();
    let rows = Seq::new(components.len(), |i: int| named_row(fronts, selected, i));
    lemma_rows_fit(dp, root, version, components, fronts);
    lemma_factors_len(components, fronts, n);
    assert forall|i: int| 0 <= i < n && (#[trigger] fronts[i]).len() > 1 implies selected[choices_before(
        fronts,
        i,
    )] < fronts[i].len() by {
        lemma_factor_at(components, fronts, i, n);
    }
    assert forall|i: int| 0 <= i < rows.len() implies front::achievable(
        dp,
        root,
        version,
        components[i],
        #[trigger] rows[i],
    ) by {
        let g = if fronts[i].len() > 1 {
            selected[choices_before(fronts, i)] as int
        } else {
            0
        };
        assert(fronts[i].len() > 0);
        assert(fronts[i][g] == rows[i]);
        assert(fronts[i].contains(rows[i]));
        assert(front::preservable(dp, root, version, components[i])(rows[i]));
    }
    assert(factored::jointly_achievable(dp, root, version, components, rows));
    let s = choose|s: Selection<DP>| #[trigger]
        problem::is_solution(dp, root, version, s) && factored::profiles(components, s) == rows;
    lemma_assignment_met(components, fronts, selected, n, s);
    assert forall|i: int| 0 <= i < n implies front::profile(#[trigger] components[i], s)
        == named_row(fronts, selected, i) by {
        assert(factored::profiles(components, s)[i] == rows[i]);
    }
    lemma_all_met_add(product.shared(), preference::picked(factors, selected), s);
    s
}

/// Without projected packages an enumeration gives a single solution, and where the provider raises
/// no errors, it does so exactly where there is one.
pub proof fn empty_projection_gives_one_solution<DP: DependencyProvider>(
    dp: DP,
    root: Key<DP>,
    version: VersionOf<DP>,
    o: Precedence<VersionOf<DP>>,
    r: Result<MaximalSolutions<DP::P, VersionOf<DP>>, PubGrubError<DP>>,
)
    requires
        solver::maximized(dp, root, version, Seq::empty(), o, Seq::empty(), r),
    ensures
        r matches Ok(solutions) ==> solutions@.len() == 1 && problem::is_solution(
            dp,
            root,
            version,
            solutions@[0]@,
        ),
        !dp.may_fail() ==> (r is Ok <==> problem::solvable(dp, root, version)),
{
    let nothing = Seq::<Key<DP>>::empty();
    let demands = Seq::<(Key<DP>, Set<Option<VersionOf<DP>>>)>::empty();
    match r {
        Ok(solutions) => {
            let found = maximal::selections(solutions@);
            assert(maximal::is_peak(dp, root, version, demands, o, nothing, found[0]));
            assert(problem::is_solution(dp, root, version, found[0]));
            if found.len() > 1 {
                assert(maximal::is_reached(dp, root, version, demands, o, nothing, found, 1));
                let s = choose|s: Selection<DP>| #[trigger]
                    maximal::leads_to(
                        dp,
                        root,
                        version,
                        demands,
                        o,
                        nothing,
                        found.take(1),
                        s,
                        found[1],
                    );
                assert(o.repeats(nothing, found.take(1)[0], s));
                assert(o.speaks_for(nothing, found.take(1)[0], s));
            }
        },
        Err(error) => {
            assert(run::forced_clauses(root, version, demands) =~= Seq::empty());
            if error.proves_no_solution(dp, root, version, Seq::empty()) {
                error::lemma_proves_no_solution(error, dp, root, version, Seq::empty());
            }
        },
    }
}

/// Observing changes nothing: where the provider's answers depend on their arguments alone, two
/// resolutions of one problem return the same solution or raise the same kind of error, and their
/// observers are told of the same choices and decisions, whatever each observer is and whether or not
/// it asks for derivation trees.
pub proof fn observing_changes_nothing<
    DP: DependencyProvider,
    O: SolverObserver<DP::P, DP::VS, DP::M>,
    Q: SolverObserver<DP::P, DP::VS, DP::M>,
>(
    dp: DP,
    root: Key<DP>,
    version: VersionOf<DP>,
    before: Seq<Observed<Key<DP>, VersionOf<DP>>>,
    after: Seq<Observed<Key<DP>, VersionOf<DP>>>,
    a: Result<SelectedDependencies<DP::P, VersionOf<DP>>, PubGrubError<DP>>,
    other_before: Seq<Observed<Key<DP>, VersionOf<DP>>>,
    other_after: Seq<Observed<Key<DP>, VersionOf<DP>>>,
    b: Result<SelectedDependencies<DP::P, VersionOf<DP>>, PubGrubError<DP>>,
)
    requires
        machine::is_deterministic(dp),
        solver::tells_resolution::<DP, O>(dp, root, version, before, after, a),
        solver::tells_resolution::<DP, Q>(dp, root, version, other_before, other_after, b),
    ensures
        run::is_same_result(a, b),
        machine::choices_told(before.len() as int, after) == machine::choices_told(
            other_before.len() as int,
            other_after,
        ),
{
    let told = if a is Ok {
        after.drop_last()
    } else {
        after
    };
    let other_told = if b is Ok {
        other_after.drop_last()
    } else {
        other_after
    };
    run::lemma_same_run(
        dp,
        root,
        version,
        machine::at_first(root, version),
        machine::choices_told(before.len() as int, told),
        a,
        machine::choices_told(other_before.len() as int, other_told),
        b,
    );
}

/// Both return the same solutions in the same order, or both raise the same kind of error, of the same
/// package at the same version.
pub open spec fn are_same_results<DP: DependencyProvider>(
    a: Result<MaximalSolutions<DP::P, VersionOf<DP>>, PubGrubError<DP>>,
    b: Result<MaximalSolutions<DP::P, VersionOf<DP>>, PubGrubError<DP>>,
) -> bool {
    match (a, b) {
        (Ok(some), Ok(same)) => maximal::selections(some@) == maximal::selections(same@),
        (Err(_), Err(_)) => run::outcome(a) == run::outcome(b),
        _ => false,
    }
}

proof fn lemma_same_listings<P: Package, V>(
    a: Seq<SelectedDependencies<P, V>>,
    b: Seq<SelectedDependencies<P, V>>,
)
    requires
        maximal::listings(a) == maximal::listings(b),
    ensures
        maximal::selections(a) == maximal::selections(b),
{
    assert(maximal::listings(a).len() == a.len() && maximal::listings(b).len() == b.len());
    assert forall|i: int| 0 <= i < a.len() implies a[i]@ == b[i]@ by {
        assert(maximal::listings(a)[i] == maximal::listings(b)[i]);
        a[i].lemma_same_list(b[i]);
    }
    assert(maximal::selections(a) =~= maximal::selections(b));
}

/// Observing an enumeration changes nothing: where the provider's answers depend on their arguments
/// alone, two enumerations of the same return the same solutions in the same order or raise the same
/// kind of error, and their observers are told of the same choices, decisions, runs and searches for
/// upgrades, whatever each observer is and whether or not it asks for derivation trees.
pub proof fn observing_changes_no_enumeration<DP: DependencyProvider>(
    quest: Quest<DP>,
    told: Seq<Observed<Key<DP>, VersionOf<DP>>>,
    a: Result<MaximalSolutions<DP::P, VersionOf<DP>>, PubGrubError<DP>>,
    other_told: Seq<Observed<Key<DP>, VersionOf<DP>>>,
    b: Result<MaximalSolutions<DP::P, VersionOf<DP>>, PubGrubError<DP>>,
)
    requires
        machine::is_deterministic(quest.dp),
        maximal::is_enumeration(quest, told, a),
        maximal::is_enumeration(quest, other_told, b),
    ensures
        are_same_results(a, b),
        told == other_told,
{
    let x = choose|end: Search<Key<DP>, VersionOf<DP>>|
        {
            &&& #[trigger] quest.comes_to(end)
            &&& end.told == told
            &&& end.end == Some(run::outcome(a))
            &&& a matches Ok(solutions) ==> end.found == maximal::listings(solutions@)
        };
    let y = choose|end: Search<Key<DP>, VersionOf<DP>>|
        {
            &&& #[trigger] quest.comes_to(end)
            &&& end.told == other_told
            &&& end.end == Some(run::outcome(b))
            &&& b matches Ok(solutions) ==> end.found == maximal::listings(solutions@)
        };
    quest.search_ends_in_one_way(x, y);
    if a is Ok && b is Ok {
        lemma_same_listings(a->Ok_0@, b->Ok_0@);
    }
}

/// Observing an enumeration of minimal changes changes nothing that it returns: where the provider's
/// answers depend on their arguments alone, two of them return the same solutions in the same order or
/// raise the same kind of error, unless the provider has raised one in the search for preferences.
pub proof fn observing_changes_no_minimal_change<DP: DependencyProvider>(
    dp: DP,
    root: Key<DP>,
    version: VersionOf<DP>,
    preferences: Seq<PackagePreference<DP::P, DP::VS>>,
    o: Precedence<VersionOf<DP>>,
    projection: Seq<Key<DP>>,
    a: Result<MaximalSolutions<DP::P, VersionOf<DP>>, PubGrubError<DP>>,
    b: Result<MaximalSolutions<DP::P, VersionOf<DP>>, PubGrubError<DP>>,
)
    requires
        machine::is_deterministic(dp),
        solver::takes_turns(dp, root, version, preferences, o, projection, a),
        solver::takes_turns(dp, root, version, preferences, o, projection, b),
    ensures
        are_same_results(a, b),
{
    if problem::solvable(dp, root, version) {
        let (front, groups) = choose|
            front: Seq<Seq<bool>>,
            groups: Seq<MaximalSolutions<DP::P, VersionOf<DP>>>,
        | #[trigger]
            solver::are_turns(dp, root, version, preferences, o, projection, front, groups, a);
        let (same_front, same_groups) = choose|
            front: Seq<Seq<bool>>,
            groups: Seq<MaximalSolutions<DP::P, VersionOf<DP>>>,
        | #[trigger]
            solver::are_turns(dp, root, version, preferences, o, projection, front, groups, b);
        let good = front::preservable(dp, root, version, preferences);
        front::front_is_unique(good, front, same_front);
        let n = if groups.len() < same_groups.len() {
            groups.len() as int
        } else {
            same_groups.len() as int
        };
        assert forall|i: int| 0 <= i < n implies maximal::selections(groups[i]@)
            == maximal::selections(same_groups[i]@) by {
            let quest = Quest {
                dp,
                root,
                version,
                demands: front::demands_for(preferences, front[i]),
                o,
                projection,
            };
            lemma_enumerates_the_same(quest, Ok(groups[i]), Ok(same_groups[i]));
        }
        if n < front.len() {
            let quest = Quest {
                dp,
                root,
                version,
                demands: front::demands_for(preferences, front[n]),
                o,
                projection,
            };
            if groups.len() == n && same_groups.len() == n {
                lemma_enumerates_the_same(quest, Err(a->Err_0), Err(b->Err_0));
            } else if groups.len() == n {
                lemma_enumerates_the_same(quest, Err(a->Err_0), Ok(same_groups[n]));
            } else {
                lemma_enumerates_the_same(quest, Ok(groups[n]), Err(b->Err_0));
            }
        } else {
            assert(solver::grouped(groups) =~= solver::grouped(same_groups));
        }
    } else {
        lemma_no_turns(dp, root, version, preferences, o, projection, a);
        lemma_no_turns(dp, root, version, preferences, o, projection, b);
    }
}

proof fn lemma_no_turns<DP: DependencyProvider>(
    dp: DP,
    root: Key<DP>,
    version: VersionOf<DP>,
    preferences: Seq<PackagePreference<DP::P, DP::VS>>,
    o: Precedence<VersionOf<DP>>,
    projection: Seq<Key<DP>>,
    a: Result<MaximalSolutions<DP::P, VersionOf<DP>>, PubGrubError<DP>>,
)
    requires
        !problem::solvable(dp, root, version),
        solver::takes_turns(dp, root, version, preferences, o, projection, a),
    ensures
        a is Err && a->Err_0 is NoSolution,
{
    let good = front::preservable(dp, root, version, preferences);
    if exists|front: Seq<Seq<bool>>, groups: Seq<MaximalSolutions<DP::P, VersionOf<DP>>>| #[trigger]
        solver::are_turns(dp, root, version, preferences, o, projection, front, groups, a) {
        let (front, groups) = choose|
            front: Seq<Seq<bool>>,
            groups: Seq<MaximalSolutions<DP::P, VersionOf<DP>>>,
        | #[trigger]
            solver::are_turns(dp, root, version, preferences, o, projection, front, groups, a);
        assert(front.contains(front[0]));
        assert(front::maximal(good, front[0]));
        assert(good(front[0]));
        let s = choose|s: Selection<DP>| #[trigger]
            problem::is_solution(dp, root, version, s) && front::profile(preferences, s)
                == front[0];
        assert(problem::is_solution(dp, root, version, s));
    }
}

proof fn lemma_enumerates_the_same<DP: DependencyProvider>(
    quest: Quest<DP>,
    a: Result<MaximalSolutions<DP::P, VersionOf<DP>>, PubGrubError<DP>>,
    b: Result<MaximalSolutions<DP::P, VersionOf<DP>>, PubGrubError<DP>>,
)
    requires
        machine::is_deterministic(quest.dp),
        solver::enumerates(quest, a),
        solver::enumerates(quest, b),
    ensures
        are_same_results(a, b),
{
    let told = choose|told: Seq<Observed<Key<DP>, VersionOf<DP>>>| #[trigger]
        maximal::is_enumeration(quest, told, a);
    let also_told = choose|told: Seq<Observed<Key<DP>, VersionOf<DP>>>| #[trigger]
        maximal::is_enumeration(quest, told, b);
    observing_changes_no_enumeration(quest, told, a, also_told, b);
}

/// Where the provider's answers depend on their arguments alone, an enumeration of minimal changes
/// with no preferences returns what the plain enumeration does: the same solutions in the same order,
/// or the same kind of error.
pub proof fn preferring_nothing_changes_nothing<DP: DependencyProvider>(
    dp: DP,
    root: Key<DP>,
    version: VersionOf<DP>,
    o: Precedence<VersionOf<DP>>,
    projection: Seq<Key<DP>>,
    a: Result<MaximalSolutions<DP::P, VersionOf<DP>>, PubGrubError<DP>>,
    told: Seq<Observed<Key<DP>, VersionOf<DP>>>,
    b: Result<MaximalSolutions<DP::P, VersionOf<DP>>, PubGrubError<DP>>,
)
    requires
        machine::is_deterministic(dp),
        solver::minimally_changed(dp, root, version, Seq::empty(), o, projection, a),
        maximal::is_enumeration(
            Quest { dp, root, version, demands: Seq::empty(), o, projection },
            told,
            b,
        ),
    ensures
        are_same_results(a, b),
{
    let none = Seq::<PackagePreference<DP::P, DP::VS>>::empty();
    let quest = Quest { dp, root, version, demands: Seq::empty(), o, projection };
    assert(solver::enumerates(quest, b));
    if exists|front: Seq<Seq<bool>>, groups: Seq<MaximalSolutions<DP::P, VersionOf<DP>>>| #[trigger]
        solver::are_turns(dp, root, version, none, o, projection, front, groups, a) {
        let (front, groups) = choose|
            front: Seq<Seq<bool>>,
            groups: Seq<MaximalSolutions<DP::P, VersionOf<DP>>>,
        | #[trigger]
            solver::are_turns(dp, root, version, none, o, projection, front, groups, a);
        let good = front::preservable(dp, root, version, none);
        assert forall|i: int| 0 <= i < front.len() implies #[trigger] front[i] == Seq::<
            bool,
        >::empty() by {
            assert(front.contains(front[i]));
            assert(front::maximal(good, front[i]));
            assert(good(front[i]));
            let s = choose|s: Selection<DP>| #[trigger]
                problem::is_solution(dp, root, version, s) && front::profile(none, s) == front[i];
            assert(front::profile(none, s) =~= Seq::empty());
        }
        if front.len() > 1 {
            assert(front[0] == front[1]);
            front::lemma_in_order_distinct(front, 0, 1);
        }
        assert(front::demands_for(none, front[0]) =~= Seq::empty());
        match a {
            Ok(solutions) => {
                lemma_enumerates_the_same(quest, Ok(groups[0]), b);
                assert(solver::joined(solver::grouped(groups).drop_last()) =~= Seq::empty());
                assert(solver::joined(solver::grouped(groups)) =~= maximal::selections(
                    groups[0]@,
                ));
            },
            Err(error) => {
                lemma_enumerates_the_same(quest, Err(error), b);
            },
        }
    } else {
        let outcome = run::outcome(a);
        assert(!(outcome is Solved));
        assert(run::ends_as(dp, root, version, Seq::empty(), a));
        let first = quest.searched(0);
        assert(quest.demands + Seq::empty() =~= Seq::empty());
        assert(machine::run_of(dp, root, version, first.core).end == Some(outcome));
        let last = quest.searched(1);
        assert(last == quest.search_step(first)) by {
            assert(quest.searched(0) == first);
        }
        assert(last.end == Some(outcome));
        assert(quest.comes_to(last)) by {
            reveal(Quest::comes_to);
        }
        let y = choose|end: Search<Key<DP>, VersionOf<DP>>|
            {
                &&& #[trigger] quest.comes_to(end)
                &&& end.told == told
                &&& end.end == Some(run::outcome(b))
                &&& b matches Ok(solutions) ==> end.found == maximal::listings(solutions@)
            };
        quest.search_ends_in_one_way(last, y);
    }
}

/// Where the provider's answers depend on their arguments alone, a factored enumeration without
/// components decides nothing where a resolution finds a solution, and else raises the same kind of
/// error.
pub proof fn factoring_nothing_ends_like_a_resolution<
    DP: DependencyProvider,
    O: SolverObserver<DP::P, DP::VS, DP::M>,
>(
    dp: DP,
    root: Key<DP>,
    version: VersionOf<DP>,
    r: Result<FactoredPreferenceSolutions<DP::P, DP::VS>, PubGrubError<DP>>,
    before: Seq<Observed<Key<DP>, VersionOf<DP>>>,
    after: Seq<Observed<Key<DP>, VersionOf<DP>>>,
    resolution: Result<SelectedDependencies<DP::P, VersionOf<DP>>, PubGrubError<DP>>,
)
    requires
        machine::is_deterministic(dp),
        solver::factorized(dp, root, version, Seq::empty(), r),
        solver::tells_resolution::<DP, O>(dp, root, version, before, after, resolution),
    ensures
        r is Ok <==> resolution is Ok,
        r matches Ok(product) ==> product.shared().len() == 0 && product.open_choices().len() == 0,
        r is Err ==> run::outcome(r) == run::outcome(resolution),
{
    let start = machine::at_first(root, version);
    let choices = machine::choices_told(
        before.len() as int,
        if resolution is Ok {
            after.drop_last()
        } else {
            after
        },
    );
    assert(run::is_run(dp, root, version, start, choices, resolution));
    let end = choose|end: Machine<Key<DP>, VersionOf<DP>>|
        #[trigger] machine::runs_to(dp, root, version, start, end) && end.end == Some(
            run::outcome(resolution),
        );
    machine::lemma_run_of(dp, root, version, start, end);
    assert(run::ends_as(dp, root, version, Seq::empty(), r));
    assert(run::outcome(r) == run::outcome(resolution));
    match r {
        Ok(product) => {
            let components = Seq::<Seq<PackagePreference<DP::P, DP::VS>>>::empty();
            let fronts = choose|fronts: Seq<Seq<Seq<bool>>>| #[trigger]
                factored::are_fronts(dp, root, version, components, fronts) && product.shared()
                    == factored::common_of(components, fronts, components.len() as int)
                    && product.open_choices() == factored::factors_of(
                    components,
                    fronts,
                    components.len() as int,
                );
        },
        Err(_) => {},
    }
}

/// Where the provider's answers depend on their arguments alone, an enumeration with no decisions to
/// keep to returns and tells what the plain enumeration does.
pub proof fn keeping_to_no_decisions_changes_nothing<DP: DependencyProvider>(
    dp: DP,
    root: Key<DP>,
    version: VersionOf<DP>,
    o: Precedence<VersionOf<DP>>,
    projection: Seq<Key<DP>>,
    told: Seq<Observed<Key<DP>, VersionOf<DP>>>,
    a: Result<MaximalSolutions<DP::P, VersionOf<DP>>, PubGrubError<DP>>,
    other_told: Seq<Observed<Key<DP>, VersionOf<DP>>>,
    b: Result<MaximalSolutions<DP::P, VersionOf<DP>>, PubGrubError<DP>>,
)
    requires
        machine::is_deterministic(dp),
        maximal::is_enumeration(
            Quest {
                dp,
                root,
                version,
                demands: preference::demands(
                    solver::foreign(root, Seq::<PreferenceDecision<DP::P, DP::VS>>::empty()),
                ),
                o,
                projection,
            },
            told,
            a,
        ),
        maximal::is_enumeration(
            Quest { dp, root, version, demands: Seq::empty(), o, projection },
            other_told,
            b,
        ),
    ensures
        are_same_results(a, b),
        told == other_told,
{
    let none = Seq::<PreferenceDecision<DP::P, DP::VS>>::empty();
    assert(preference::demands(solver::foreign(root, none)) =~= Seq::empty()) by {
        reveal(Seq::filter);
        assert(solver::foreign(root, none) =~= Seq::empty());
    }
    observing_changes_no_enumeration(
        Quest { dp, root, version, demands: Seq::empty(), o, projection },
        told,
        a,
        other_told,
        b,
    );
}

/// Where the provider's answers depend on their arguments alone and no package is projected, an
/// enumeration returns what a resolution does: its solution alone, or the same kind of error.
pub proof fn nothing_projected_returns_the_resolution<
    DP: DependencyProvider,
    O: SolverObserver<DP::P, DP::VS, DP::M>,
>(
    quest: Quest<DP>,
    before: Seq<Observed<Key<DP>, VersionOf<DP>>>,
    after: Seq<Observed<Key<DP>, VersionOf<DP>>>,
    a: Result<SelectedDependencies<DP::P, VersionOf<DP>>, PubGrubError<DP>>,
    told: Seq<Observed<Key<DP>, VersionOf<DP>>>,
    b: Result<MaximalSolutions<DP::P, VersionOf<DP>>, PubGrubError<DP>>,
)
    requires
        machine::is_deterministic(quest.dp),
        quest.demands.len() == 0,
        quest.projection.len() == 0,
        solver::tells_resolution::<DP, O>(quest.dp, quest.root, quest.version, before, after, a),
        maximal::is_enumeration(quest, told, b),
    ensures
        match (a, b) {
            (Ok(solution), Ok(solutions)) => maximal::selections(solutions@) == seq![solution@],
            (Err(_), Err(_)) => run::outcome(a) == run::outcome(b),
            _ => false,
        },
{
    let start = machine::at_first(quest.root, quest.version);
    let choices = machine::choices_told(
        before.len() as int,
        if a is Ok {
            after.drop_last()
        } else {
            after
        },
    );
    assert(run::is_run(quest.dp, quest.root, quest.version, start, choices, a));
    let end = choose|end: Machine<Key<DP>, VersionOf<DP>>|
        {
            &&& #[trigger] machine::runs_to(quest.dp, quest.root, quest.version, start, end)
            &&& end.told == choices
            &&& end.end == Some(run::outcome(a))
            &&& a matches Ok(solution) ==> {
                &&& solution@ == machine::selected(end.core.trail)
                &&& solution.listed() == machine::solution_list(end.core.trail)
            }
        };
    assert(a is Err ==> !(run::outcome(a) is Solved));
    machine::lemma_run_of(quest.dp, quest.root, quest.version, start, end);
    assert(quest.asking(Seq::empty()) == start) by {
        assert(quest.demands + Seq::empty() =~= Seq::empty());
    }
    let first = quest.searched(0);
    assert(first.core == start);
    let last = quest.searched(1);
    assert(last == quest.search_step(first)) by {
        assert(quest.searched(0) == first);
    }
    assert(last.end is Some);
    assert(quest.comes_to(last)) by {
        reveal(Quest::comes_to);
    }
    let y = choose|end: Search<Key<DP>, VersionOf<DP>>|
        {
            &&& #[trigger] quest.comes_to(end)
            &&& end.told == told
            &&& end.end == Some(run::outcome(b))
            &&& b matches Ok(solutions) ==> end.found == maximal::listings(solutions@)
        };
    quest.search_ends_in_one_way(last, y);
    if a is Ok && b is Ok {
        assert(maximal::listings(b->Ok_0@) == seq![a->Ok_0.listed()]);
        assert(maximal::listings(seq![a->Ok_0]) =~= seq![a->Ok_0.listed()]);
        lemma_same_listings(b->Ok_0@, seq![a->Ok_0]);
        assert(maximal::selections(seq![a->Ok_0]) =~= seq![a->Ok_0@]);
    }
}

/// Whatever is observed of them, and whichever way the provider answers, two resolutions of one
/// problem both find a solution or both find that there is none, unless the provider raises an error.
pub proof fn observing_changes_no_verdict<DP: DependencyProvider>(
    dp: DP,
    root: Key<DP>,
    version: VersionOf<DP>,
    a: Result<SelectedDependencies<DP::P, VersionOf<DP>>, PubGrubError<DP>>,
    b: Result<SelectedDependencies<DP::P, VersionOf<DP>>, PubGrubError<DP>>,
)
    requires
        solver::resolved(dp, root, version, a),
        solver::resolved(dp, root, version, b),
        a is Ok || a->Err_0 is NoSolution,
        b is Ok || b->Err_0 is NoSolution,
    ensures
        a is Ok <==> b is Ok,
{
    if a is Ok {
        assert(problem::is_solution(dp, root, version, a->Ok_0@));
    }
    if b is Ok {
        assert(problem::is_solution(dp, root, version, b->Ok_0@));
    }
}

/// Whatever is observed of them, and whichever way the provider answers, two resolutions of one
/// problem return the same solution where there is only one that holds nothing but what is needed,
/// unless an incompatibility asks for one of several packages to be selected.
pub proof fn only_minimal_solution_is_returned<DP: DependencyProvider>(
    dp: DP,
    root: Key<DP>,
    version: VersionOf<DP>,
    a: SelectedDependencies<DP::P, VersionOf<DP>>,
    b: SelectedDependencies<DP::P, VersionOf<DP>>,
)
    requires
        problem::asks_for_one(dp),
        forall|s: Selection<DP>, t: Selection<DP>| #[trigger]
            problem::is_minimal(dp, root, version, s) && #[trigger] problem::is_minimal(
                dp,
                root,
                version,
                t,
            ) && problem::is_solution(dp, root, version, s) && problem::is_solution(
                dp,
                root,
                version,
                t,
            ) ==> s == t,
        solver::resolved(dp, root, version, Ok(a)),
        solver::resolved(dp, root, version, Ok(b)),
    ensures
        a@ == b@,
{
    assert(problem::is_minimal(dp, root, version, a@));
    assert(problem::is_minimal(dp, root, version, b@));
}

proof fn lemma_nothing_given_up<K, V>(
    middle: Seq<Observed<K, V>>,
    after: Seq<Observed<K, V>>,
    k: K,
)
    requires
        middle.is_prefix_of(after),
        forall|i: int|
            middle.len() <= i < after.len() ==> !((#[trigger] after[i]) is PreferenceProbeStarted),
    ensures
        observer::total(after, attempts::given_up_weight(k)) == observer::total(
            middle,
            attempts::given_up_weight(k),
        ),
    decreases after.len(),
{
    if after.len() == middle.len() {
        assert(after =~= middle);
    } else {
        let shorter = after.drop_last();
        assert(middle =~= shorter.subrange(0, middle.len() as int)) by {
            assert forall|i: int| 0 <= i < middle.len() implies middle[i] == shorter[i] by {
                assert(middle[i] == after.subrange(0, middle.len() as int)[i]);
            }
        }
        assert forall|i: int| middle.len() <= i < shorter.len() implies !((
        #[trigger] shorter[i]) is PreferenceProbeStarted) by {
            assert(shorter[i] == after[i]);
        }
        lemma_nothing_given_up(middle, shorter, k);
        assert(!(after[after.len() - 1] is PreferenceProbeStarted));
    }
}

/// In an enumeration of minimal changes, a preference that cannot be preserved is not tried again:
/// where it comes first, and everything else can be preserved without it, an observer is told exactly
/// once that it is given up.
pub proof fn impossible_preference_is_tried_once<
    DP: DependencyProvider,
    O: SolverObserver<DP::P, DP::VS, DP::M>,
>(
    dp: DP,
    root: Key<DP>,
    version: VersionOf<DP>,
    preferences: Seq<PackagePreference<DP::P, DP::VS>>,
    o: Precedence<VersionOf<DP>>,
    projection: Seq<Key<DP>>,
    before: Seq<Observed<Key<DP>, VersionOf<DP>>>,
    after: Seq<Observed<Key<DP>, VersionOf<DP>>>,
    solutions: MaximalSolutions<DP::P, VersionOf<DP>>,
)
    requires
        preferences.len() > 0,
        forall|i: int|
            0 < i < preferences.len() ==> (#[trigger] preferences[i]).key() != preferences[0].key(),
        solver::tells_minimal_change::<DP, O>(
            dp,
            root,
            version,
            preferences,
            o,
            projection,
            before,
            after,
            Ok(solutions),
        ),
        !front::achievable(dp, root, version, preferences, attempts::everything(preferences.len())),
        front::achievable(
            dp,
            root,
            version,
            preferences,
            attempts::everything(preferences.len()).update(0, false),
        ),
    ensures
        observer::total(after, attempts::given_up_weight(preferences[0].key())) == observer::total(
            before,
            attempts::given_up_weight(preferences[0].key()),
        ) + 1,
{
    let found = maximal::selections(solutions@);
    let (front, groups, middle) = choose|
        front: Seq<Seq<bool>>,
        groups: Seq<Seq<Selection<DP>>>,
        middle: Seq<Observed<Key<DP>, VersionOf<DP>>>,
    |
        {
            &&& #[trigger] solver::is_grouped(
                dp,
                root,
                version,
                preferences,
                o,
                projection,
                front,
                groups,
            )
            &&& solver::joined(groups) == found
            &&& attempts::tells_each::<DP>(
                dp,
                root,
                version,
                preferences,
                before,
                middle,
                Ok(()),
            )
            &&& #[trigger] solver::tells_each_group::<DP, O>(projection, middle, after, groups)
            &&& middle.is_prefix_of(after)
            &&& path::are_stretches::<DP, O>(dp, root, version, middle, after)
            &&& observer::narrates::<DP::P, DP::VS, DP::M, O>(
                before,
                after,
                front.len() + 1,
                found.len() as int,
            )
        };
    reveal(path::are_stretches);
    attempts::failed_preference_is_told_once(dp, root, version, preferences, before, middle);
    lemma_nothing_given_up(middle, after, preferences[0].key());
}

/// Whatever is observed of them, two enumerations of maximal solutions find the same front: where
/// the offered versions are ranked by a total preorder, every solution of the one has the same
/// realizations as one of the other, if all of them select the same projected packages.
pub proof fn observing_changes_no_front<DP: DependencyProvider>(
    dp: DP,
    root: Key<DP>,
    version: VersionOf<DP>,
    demands: Clause<Key<DP>, VersionOf<DP>>,
    o: Precedence<VersionOf<DP>>,
    projection: Seq<Key<DP>>,
    a: Seq<Selection<DP>>,
    b: Seq<Selection<DP>>,
    i: int,
) -> (j: int)
    requires
        maximal::is_maximal_set(dp, root, version, demands, o, projection, a),
        maximal::is_maximal_set(dp, root, version, demands, o, projection, b),
        o.is_total(finite::offered_versions(dp)),
        0 <= i < a.len(),
        selects_projected(projection, a[i], b),
    ensures
        0 <= j < b.len(),
        o.repeats(projection, b[j], a[i]),
{
    lemma_found_is_peak(dp, root, version, demands, o, projection, a, i);
    pareto_front_is_complete(dp, root, version, demands, o, projection, b, a[i])
}

/// Each of the others selects the projected packages that the selection selects.
pub open spec fn selects_projected<K, V>(
    projection: Seq<K>,
    s: Map<K, V>,
    others: Seq<Map<K, V>>,
) -> bool {
    forall|i: int, k: K|
        0 <= i < others.len() && projection.contains(k) && s.dom().contains(k)
            ==> #[trigger] others[i].dom().contains(k)
}

proof fn lemma_found_is_peak<DP: DependencyProvider>(
    dp: DP,
    root: Key<DP>,
    version: VersionOf<DP>,
    demands: Clause<Key<DP>, VersionOf<DP>>,
    o: Precedence<VersionOf<DP>>,
    projection: Seq<Key<DP>>,
    found: Seq<Selection<DP>>,
    i: int,
)
    requires
        maximal::is_maximal_set(dp, root, version, demands, o, projection, found),
        0 <= i < found.len(),
    ensures
        maximal::is_peak(dp, root, version, demands, o, projection, found[i]),
{
}

/// Whatever is observed of them, and whichever way the provider answers, two factored enumerations of
/// one problem return the same product.
pub proof fn factoring_has_one_product<DP: DependencyProvider>(
    dp: DP,
    root: Key<DP>,
    version: VersionOf<DP>,
    components: Seq<Seq<PackagePreference<DP::P, DP::VS>>>,
    a: Result<FactoredPreferenceSolutions<DP::P, DP::VS>, PubGrubError<DP>>,
    b: Result<FactoredPreferenceSolutions<DP::P, DP::VS>, PubGrubError<DP>>,
)
    requires
        solver::factorized(dp, root, version, components, a),
        solver::factorized(dp, root, version, components, b),
        a is Ok || a->Err_0 is NoSolution,
        b is Ok || b->Err_0 is NoSolution,
    ensures
        a is Ok <==> b is Ok,
        a is Ok ==> {
            &&& a->Ok_0.shared() == b->Ok_0.shared()
            &&& a->Ok_0.open_choices() == b->Ok_0.open_choices()
        },
{
    if let Err(error) = a {
        error::lemma_proves_no_solution(error, dp, root, version, Seq::empty());
    }
    if let Err(error) = b {
        error::lemma_proves_no_solution(error, dp, root, version, Seq::empty());
    }
    if a is Ok && b is Ok {
        let n = components.len() as int;
        let first = choose|fronts: Seq<Seq<Seq<bool>>>| #[trigger]
            factored::are_fronts(dp, root, version, components, fronts) && a->Ok_0.shared()
                == factored::common_of(components, fronts, n) && a->Ok_0.open_choices()
                == factored::factors_of(components, fronts, n);
        let second = choose|fronts: Seq<Seq<Seq<bool>>>| #[trigger]
            factored::are_fronts(dp, root, version, components, fronts) && b->Ok_0.shared()
                == factored::common_of(components, fronts, n) && b->Ok_0.open_choices()
                == factored::factors_of(components, fronts, n);
        assert forall|i: int| 0 <= i < first.len() implies first[i] == second[i] by {
            front::front_is_unique(
                front::preservable(dp, root, version, components[i]),
                first[i],
                second[i],
            );
        }
        assert(first =~= second);
    }
}

/// Unless the provider raises an error, a factored enumeration succeeds exactly where a resolution
/// does. Without components it decides nothing.
pub proof fn factoring_succeeds_like_a_resolution<DP: DependencyProvider>(
    dp: DP,
    root: Key<DP>,
    version: VersionOf<DP>,
    components: Seq<Seq<PackagePreference<DP::P, DP::VS>>>,
    r: Result<FactoredPreferenceSolutions<DP::P, DP::VS>, PubGrubError<DP>>,
    resolution: Result<SelectedDependencies<DP::P, VersionOf<DP>>, PubGrubError<DP>>,
)
    requires
        solver::factorized(dp, root, version, components, r),
        solver::resolved(dp, root, version, resolution),
    ensures
        !dp.may_fail() ==> (r is Ok <==> resolution is Ok),
        (r is Ok || r->Err_0 is NoSolution) && (resolution is Ok || resolution->Err_0 is NoSolution)
            ==> (r is Ok <==> resolution is Ok),
        r matches Ok(product) ==> components.len() == 0 ==> product.shared().len() == 0
            && product.open_choices().len() == 0,
{
    match r {
        Ok(product) => {
            let fronts = choose|fronts: Seq<Seq<Seq<bool>>>| #[trigger]
                factored::are_fronts(dp, root, version, components, fronts) && product.shared()
                    == factored::common_of(components, fronts, components.len() as int)
                    && product.open_choices() == factored::factors_of(
                    components,
                    fronts,
                    components.len() as int,
                );
        },
        Err(error) => {
            if error.proves_no_solution(dp, root, version, Seq::empty()) {
                error::lemma_proves_no_solution(error, dp, root, version, Seq::empty());
            }
        },
    }
}

/// Without decisions there is nothing to demand: the enumeration is the plain one.
pub proof fn no_decisions_demand_nothing<P: Package, VS: VersionSet>(root: P::V)
    ensures
        preference::demands::<P, VS>(solver::foreign(root, Seq::empty())) == Seq::<
            (P::V, Set<Option<VS::V>>),
        >::empty(),
{
    reveal(Seq::filter);
    assert(preference::demands::<P, VS>(solver::foreign(root, Seq::empty())) =~= Seq::empty());
}

/// How many of the decisions are about the package and the states.
pub open spec fn times<K, V>(
    decisions: Seq<(K, Set<Option<V>>, bool)>,
    k: K,
    states: Set<Option<V>>,
) -> nat
    decreases decisions.len(),
{
    if decisions.len() == 0 {
        0
    } else {
        times(decisions.drop_last(), k, states) + if decisions.last().0 == k
            && decisions.last().1 == states {
            1nat
        } else {
            0nat
        }
    }
}

/// How many of the first `n` preferences are about the package and the states.
pub open spec fn times_preferred<P: Package, VS: VersionSet>(
    preferences: Seq<PackagePreference<P, VS>>,
    n: int,
    k: P::V,
    states: Set<Option<VS::V>>,
) -> nat
    decreases n,
{
    if n <= 0 {
        0
    } else {
        times_preferred(preferences, n - 1, k, states) + if preferences[n - 1].key() == k
            && preferences[n - 1].states() == states {
            1nat
        } else {
            0nat
        }
    }
}

/// How many preferences of the first `n` components are about the package and the states.
pub open spec fn times_in<P: Package, VS: VersionSet>(
    components: Seq<Seq<PackagePreference<P, VS>>>,
    n: int,
    k: P::V,
    states: Set<Option<VS::V>>,
) -> nat
    decreases n,
{
    if n <= 0 {
        0
    } else {
        times_in(components, n - 1, k, states) + times_preferred(
            components[n - 1],
            components[n - 1].len() as int,
            k,
            states,
        )
    }
}

proof fn lemma_times_add<K, V>(
    a: Seq<(K, Set<Option<V>>, bool)>,
    b: Seq<(K, Set<Option<V>>, bool)>,
    k: K,
    states: Set<Option<V>>,
)
    ensures
        times(a + b, k, states) == times(a, k, states) + times(b, k, states),
    decreases b.len(),
{
    if b.len() == 0 {
        assert(a + b =~= a);
    } else {
        assert((a + b).drop_last() =~= a + b.drop_last());
        lemma_times_add(a, b.drop_last(), k, states);
    }
}

/// What all elements of a front agree on and what one of them decides on its own is about every
/// preference once.
proof fn lemma_times_component<P: Package, VS: VersionSet>(
    preferences: Seq<PackagePreference<P, VS>>,
    front: Seq<Seq<bool>>,
    kept: Seq<bool>,
    n: int,
    k: P::V,
    states: Set<Option<VS::V>>,
)
    ensures
        times(factored::agreed_decisions(preferences, front, n), k, states) + times(
            factored::own_decisions(preferences, front, kept, n),
            k,
            states,
        ) == times_preferred(preferences, n, k, states),
    decreases n,
{
    if n > 0 {
        lemma_times_component(preferences, front, kept, n - 1, k, states);
        let last = preferences[n - 1];
        let common = factored::agreed_decisions(preferences, front, n - 1);
        let own = factored::own_decisions(preferences, front, kept, n - 1);
        if factored::agreed(front, n - 1) {
            assert(factored::agreed_decisions(preferences, front, n).drop_last() =~= common);
        } else {
            assert(factored::own_decisions(preferences, front, kept, n).drop_last() =~= own);
        }
    }
}

/// A single element has nothing to decide on its own.
proof fn lemma_nothing_own<P: Package, VS: VersionSet>(
    preferences: Seq<PackagePreference<P, VS>>,
    front: Seq<Seq<bool>>,
    kept: Seq<bool>,
    n: int,
)
    requires
        front.len() <= 1,
    ensures
        factored::own_decisions(preferences, front, kept, n).len() == 0,
    decreases n,
{
    if n > 0 {
        lemma_nothing_own(preferences, front, kept, n - 1);
        assert(factored::agreed(front, n - 1));
    }
}

proof fn lemma_times_assignment<P: Package, VS: VersionSet>(
    components: Seq<Seq<PackagePreference<P, VS>>>,
    fronts: Seq<Seq<Seq<bool>>>,
    selected: Seq<usize>,
    n: int,
    k: P::V,
    states: Set<Option<VS::V>>,
)
    requires
        0 <= n <= components.len(),
        n <= fronts.len(),
        forall|i: int| 0 <= i < fronts.len() ==> (#[trigger] fronts[i]).len() > 0,
        factored::factors_of(components, fronts, n).len() <= selected.len(),
        forall|f: int|
            0 <= f < factored::factors_of(components, fronts, n).len() ==> #[trigger] selected[f]
                < factored::factors_of(components, fronts, n)[f].len(),
    ensures
        times(factored::common_of(components, fronts, n), k, states) + times(
            preference::picked(factored::factors_of(components, fronts, n), selected),
            k,
            states,
        ) == times_in(components, n, k, states),
    decreases n,
{
    if n > 0 {
        let preferences = components[n - 1];
        let front = fronts[n - 1];
        let m = preferences.len() as int;
        let before = factored::factors_of(components, fronts, n - 1);
        let after = factored::factors_of(components, fronts, n);
        assert forall|f: int| 0 <= f < before.len() implies #[trigger] selected[f]
            < before[f].len() by {
            assert(after[f] == before[f]);
        }
        lemma_times_assignment(components, fronts, selected, n - 1, k, states);
        lemma_times_add(
            factored::common_of(components, fronts, n - 1),
            factored::agreed_decisions(preferences, front, m),
            k,
            states,
        );
        if front.len() > 1 {
            let f = before.len() as int;
            let alternatives = factored::alternatives_of(preferences, front);
            assert(after.drop_last() =~= before);
            assert(after[f] == alternatives);
            let j = selected[f] as int;
            lemma_times_component(preferences, front, front[j], m, k, states);
            lemma_times_add(preference::picked(before, selected), alternatives[j], k, states);
        } else {
            lemma_times_component(preferences, front, front[0], m, k, states);
            lemma_nothing_own(preferences, front, front[0], m);
        }
    }
}

/// A complete assignment is about every preference once.
pub proof fn assignment_is_about_every_preference_once<DP: DependencyProvider>(
    dp: DP,
    root: Key<DP>,
    version: VersionOf<DP>,
    components: Seq<Seq<PackagePreference<DP::P, DP::VS>>>,
    product: FactoredPreferenceSolutions<DP::P, DP::VS>,
    selected: Seq<usize>,
    k: Key<DP>,
    states: Set<Option<VersionOf<DP>>>,
)
    requires
        solver::is_product(dp, root, version, components, product),
        factored::is_assignment(product.open_choices(), selected),
    ensures
        times(
            product.shared() + preference::picked(product.open_choices(), selected),
            k,
            states,
        ) == times_in(components, components.len() as int, k, states),
{
    let n = components.len() as int;
    let fronts = choose|fronts: Seq<Seq<Seq<bool>>>| #[trigger]
        factored::are_fronts(dp, root, version, components, fronts) && product.shared()
            == factored::common_of(components, fronts, components.len() as int)
            && product.open_choices() == factored::factors_of(
            components,
            fronts,
            components.len() as int,
        );
    lemma_times_assignment(components, fronts, selected, n, k, states);
    lemma_times_add(
        product.shared(),
        preference::picked(product.open_choices(), selected),
        k,
        states,
    );
}

proof fn lemma_own_decisions_differ<P: Package, VS: VersionSet>(
    preferences: Seq<PackagePreference<P, VS>>,
    front: Seq<Seq<bool>>,
    a: int,
    b: int,
    n: int,
)
    requires
        0 <= a < front.len(),
        0 <= b < front.len(),
        0 <= n <= preferences.len(),
    ensures
        factored::own_decisions(preferences, front, front[a], n).len() == factored::own_decisions(
            preferences,
            front,
            front[b],
            n,
        ).len(),
        factored::own_decisions(preferences, front, front[a], n) == factored::own_decisions(
            preferences,
            front,
            front[b],
            n,
        ) ==> forall|i: int| 0 <= i < n ==> #[trigger] front[a][i] == front[b][i],
    decreases n,
{
    if n > 0 {
        lemma_own_decisions_differ(preferences, front, a, b, n - 1);
        let x = factored::own_decisions(preferences, front, front[a], n);
        let y = factored::own_decisions(preferences, front, front[b], n);
        if factored::agreed(front, n - 1) {
            assert(front[a][n - 1] == front[0][n - 1]);
            assert(front[b][n - 1] == front[0][n - 1]);
        } else if x == y {
            assert(x.drop_last() =~= factored::own_decisions(preferences, front, front[a], n - 1));
            assert(y.drop_last() =~= factored::own_decisions(preferences, front, front[b], n - 1));
            assert(x.last().2 == front[a][n - 1]);
            assert(y.last().2 == front[b][n - 1]);
        }
    }
}

/// Of each factor, the alternatives are equally long and differ from each other.
spec fn are_alternatives<T>(factors: Seq<Seq<Seq<T>>>) -> bool {
    forall|f: int, a: int, b: int|
        0 <= f < factors.len() && 0 <= a < factors[f].len() && 0 <= b < factors[f].len() ==> {
            &&& (#[trigger] factors[f][a]).len() == (#[trigger] factors[f][b]).len()
            &&& factors[f][a] == factors[f][b] ==> a == b
        }
}

proof fn lemma_picked_differ<T>(factors: Seq<Seq<Seq<T>>>, a: Seq<usize>, b: Seq<usize>)
    requires
        are_alternatives(factors),
        factors.len() <= a.len(),
        factors.len() <= b.len(),
        forall|f: int| 0 <= f < factors.len() ==> #[trigger] a[f] < factors[f].len(),
        forall|f: int| 0 <= f < factors.len() ==> #[trigger] b[f] < factors[f].len(),
    ensures
        preference::picked(factors, a).len() == preference::picked(factors, b).len(),
        preference::picked(factors, a) == preference::picked(factors, b) ==> forall|f: int|
            0 <= f < factors.len() ==> #[trigger] a[f] == b[f],
    decreases factors.len(),
{
    if factors.len() > 0 {
        let shorter = factors.drop_last();
        let f = factors.len() - 1;
        assert(are_alternatives(shorter)) by {
            assert forall|g: int, x: int, y: int|
                0 <= g < shorter.len() && 0 <= x < shorter[g].len() && 0 <= y
                    < shorter[g].len() implies {
                &&& (#[trigger] shorter[g][x]).len() == (#[trigger] shorter[g][y]).len()
                &&& shorter[g][x] == shorter[g][y] ==> x == y
            } by {
                assert(factors[g][x].len() == factors[g][y].len());
            }
        }
        assert forall|g: int| 0 <= g < shorter.len() implies #[trigger] a[g]
            < shorter[g].len() by {
            assert(factors[g] == shorter[g]);
        }
        assert forall|g: int| 0 <= g < shorter.len() implies #[trigger] b[g]
            < shorter[g].len() by {
            assert(factors[g] == shorter[g]);
        }
        lemma_picked_differ(shorter, a, b);
        let x = preference::picked(shorter, a);
        let y = preference::picked(shorter, b);
        let u = factors[f][a[f] as int];
        let v = factors[f][b[f] as int];
        assert(u.len() == v.len());
        if preference::picked(factors, a) == preference::picked(factors, b) {
            assert(x =~= (x + u).take(x.len() as int));
            assert(y =~= (y + v).take(y.len() as int));
            assert(u =~= (x + u).skip(x.len() as int));
            assert(v =~= (y + v).skip(y.len() as int));
            assert(a[f] == b[f]);
        }
    }
}

proof fn lemma_factors_are_alternatives<DP: DependencyProvider>(
    dp: DP,
    root: Key<DP>,
    version: VersionOf<DP>,
    components: Seq<Seq<PackagePreference<DP::P, DP::VS>>>,
    fronts: Seq<Seq<Seq<bool>>>,
    n: int,
)
    requires
        factored::are_fronts(dp, root, version, components, fronts),
        0 <= n <= fronts.len(),
    ensures
        are_alternatives(factored::factors_of(components, fronts, n)),
    decreases n,
{
    if n > 0 {
        lemma_factors_are_alternatives(dp, root, version, components, fronts, n - 1);
        lemma_rows_fit(dp, root, version, components, fronts);
        let before = factored::factors_of(components, fronts, n - 1);
        let after = factored::factors_of(components, fronts, n);
        let front = fronts[n - 1];
        let preferences = components[n - 1];
        let m = preferences.len() as int;
        assert forall|f: int, a: int, b: int|
            0 <= f < after.len() && 0 <= a < after[f].len() && 0 <= b < after[f].len() implies {
            &&& (#[trigger] after[f][a]).len() == (#[trigger] after[f][b]).len()
            &&& after[f][a] == after[f][b] ==> a == b
        } by {
            if f < before.len() {
                assert(after[f] == before[f]);
                assert(before[f][a].len() == before[f][b].len());
            } else {
                assert(after[f] == factored::alternatives_of(preferences, front));
                lemma_own_decisions_differ(preferences, front, a, b, m);
                assert(fronts[n - 1][a].len() == m && fronts[n - 1][b].len() == m);
                if after[f][a] == after[f][b] {
                    assert(front[a] =~= front[b]);
                    front::lemma_in_order_distinct(front, a, b);
                }
            }
        }
    }
}

/// Different choices of alternatives are different assignments.
pub proof fn different_choices_are_different_assignments<DP: DependencyProvider>(
    dp: DP,
    root: Key<DP>,
    version: VersionOf<DP>,
    components: Seq<Seq<PackagePreference<DP::P, DP::VS>>>,
    product: FactoredPreferenceSolutions<DP::P, DP::VS>,
    a: Seq<usize>,
    b: Seq<usize>,
)
    requires
        solver::is_product(dp, root, version, components, product),
        factored::is_assignment(product.open_choices(), a),
        factored::is_assignment(product.open_choices(), b),
        a != b,
    ensures
        product.shared() + preference::picked(product.open_choices(), a) != product.shared()
            + preference::picked(product.open_choices(), b),
{
    let n = components.len() as int;
    let fronts = choose|fronts: Seq<Seq<Seq<bool>>>| #[trigger]
        factored::are_fronts(dp, root, version, components, fronts) && product.shared()
            == factored::common_of(components, fronts, components.len() as int)
            && product.open_choices() == factored::factors_of(
            components,
            fronts,
            components.len() as int,
        );
    lemma_factors_are_alternatives(dp, root, version, components, fronts, n);
    let x = preference::picked(product.open_choices(), a);
    let y = preference::picked(product.open_choices(), b);
    lemma_picked_differ(product.open_choices(), a, b);
    let shared = product.shared();
    if shared + x == shared + y {
        assert(x =~= (shared + x).skip(shared.len() as int));
        assert(y =~= (shared + y).skip(shared.len() as int));
        assert(a =~= b);
    }
}

} // verus!
