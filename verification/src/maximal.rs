//! Enumeration of the solutions whose projected versions cannot be improved.

use vstd::prelude::*;
use vstd::set_lib::*;

use crate::ascent;
use crate::ascent::{Climb, Found, Quest, Search};
use crate::error;
use crate::error::PubGrubError;
use crate::finite;
use crate::front::next_run;
use crate::machine;
use crate::machine::Outcome;
use crate::observer;
use crate::observer::{MaximalityProbeResult, Observed, SolverEvent, SolverObserver};
use crate::ordering;
use crate::ordering::{Precedence, VersionOrdering};
use crate::package;
use crate::package::{holds_package, Package};
use crate::path;
use crate::problem;
use crate::problem::{Key, Selection, VersionOf};
use crate::provider::DependencyProvider;
use crate::run;
use crate::run::SolverState;
use crate::search;
use crate::search::Clause;
use crate::selected;
use crate::selected::{MaximalSolutions, SelectedDependencies};
use crate::state::duplicate_terms;
use crate::term;
use crate::term::Term;
use crate::version::Version;
use crate::version_set::VersionSet;

verus! {

/// The packages other than the root, each of them once, in the order in which they come first.
pub open spec fn projection_of<K>(root: K, packages: Seq<K>) -> Seq<K>
    decreases packages.len(),
{
    if packages.len() == 0 {
        Seq::empty()
    } else {
        let before = projection_of(root, packages.drop_last());
        if packages.last() == root || before.contains(packages.last()) {
            before
        } else {
            before.push(packages.last())
        }
    }
}

/// The packages other than the root, each of them once, in the order in which they come first.
pub fn projected_packages<P: Package>(root: &P, packages: Vec<P>) -> (r: Vec<P>)
    ensures
        package::keys(r@) == projection_of(root@, package::keys(packages@)),
{
    let ghost all = package::keys(packages@);
    let mut kept: Vec<P> = Vec::new();
    let mut i: usize = 0;
    assert(all.take(0) =~= Seq::empty());
    assert(package::keys(kept@) =~= Seq::empty());
    while i < packages.len()
        invariant
            all == package::keys(packages@),
            i <= packages@.len(),
            package::keys(kept@) == projection_of(root@, all.take(i as int)),
        decreases packages@.len() - i,
    {
        let ghost before = package::keys(kept@);
        proof {
            assert(all.take(i + 1).drop_last() =~= all.take(i as int));
            assert(all.take(i + 1).last() == packages@[i as int]@);
        }
        if !packages[i].same(root) && !holds_package(&kept, &packages[i]) {
            kept.push(packages[i].duplicate());
            assert(package::keys(kept@) =~= before.push(packages@[i as int]@));
        }
        i += 1;
    }
    assert(all.take(i as int) =~= all);
    kept
}

/// The projection holds the given packages other than the root.
pub proof fn projection_holds_every_other_package_once<K>(root: K, packages: Seq<K>)
    ensures
        forall|k: K| #[trigger]
            projection_of(root, packages).contains(k) <==> k != root && packages.contains(k),
        projection_of(root, packages).no_duplicates(),
    decreases packages.len(),
{
    if packages.len() > 0 {
        let init = packages.drop_last();
        let last = packages.last();
        let before = projection_of(root, init);
        let after = projection_of(root, packages);
        projection_holds_every_other_package_once(root, init);
        assert(packages =~= init.push(last));
        assert forall|k: K| #[trigger] after.contains(k) <==> k != root && packages.contains(k) by {
            assert(before.contains(k) <==> k != root && init.contains(k));
            assert(init.push(last).contains(k) <==> init.contains(k) || k == last) by {
                assert(init.push(last)[init.len() as int] == last);
                if init.contains(k) {
                    let j = choose|j: int| 0 <= j < init.len() && init[j] == k;
                    assert(init.push(last)[j] == k);
                }
            }
            assert(before.push(last).contains(k) <==> before.contains(k) || k == last) by {
                assert(before.push(last)[before.len() as int] == last);
                if before.contains(k) {
                    let j = choose|j: int| 0 <= j < before.len() && before[j] == k;
                    assert(before.push(last)[j] == k);
                }
            }
        }
    }
}

/// What another solution has to do to compare with one in a certain way.
pub enum Goal<K> {
    /// Have the same realizations.
    Repeat,
    /// Have a lower version of the package, and no upgrade of any other.
    FallShort(K),
    /// Have an upgrade of the package, and no downgrade of any other.
    Improve(K),
}

impl<K> Goal<K> {
    /// The states that the goal leaves a package which the solution has at the version.
    pub open spec fn allows<V>(self, o: Precedence<V>, k: K, v: V) -> Set<Option<V>> {
        match self {
            Goal::Repeat => term::selected_in((o.same)(v)),
            Goal::FallShort(lower) => if k == lower {
                term::selected_in(o.at_least(v).complement())
            } else {
                term::selected_in((o.higher)(v)).complement()
            },
            Goal::Improve(upgraded) => if k == upgraded {
                term::selected_in((o.higher)(v))
            } else {
                term::selected_in(o.at_least(v))
            },
        }
    }

    /// The other selection has only states that the goal leaves it.
    pub open spec fn reached<V>(
        self,
        o: Precedence<V>,
        projection: Seq<K>,
        s: Map<K, V>,
        other: Map<K, V>,
    ) -> bool {
        forall|k: K| #[trigger]
            s.dom().contains(k) && projection.contains(k) ==> self.allows(o, k, s[k]).contains(
                other.get(k),
            )
    }
}

proof fn lemma_goal<K, V>(
    o: Precedence<V>,
    projection: Seq<K>,
    s: Map<K, V>,
    other: Map<K, V>,
    k: K,
)
    ensures
        Goal::<K>::Repeat.reached(o, projection, s, other) <==> o.repeats(projection, s, other),
        s.dom().contains(k) && projection.contains(k) ==> (Goal::FallShort(k).reached(
            o,
            projection,
            s,
            other,
        ) <==> o.falls_short(projection, s, other, k)),
        s.dom().contains(k) && projection.contains(k) ==> (Goal::Improve(k).reached(
            o,
            projection,
            s,
            other,
        ) <==> o.improves(projection, s, other, k)),
{
    assert forall|q: K| other.dom().contains(q) <==> #[trigger] other.get(q) is Some by {}
    if Goal::<K>::Repeat.reached(o, projection, s, other) {
        assert forall|q: K| #[trigger] s.dom().contains(q) && projection.contains(
            q,
        ) implies other.dom().contains(q) && (o.same)(s[q]).contains(other[q]) by {
            assert(Goal::<K>::Repeat.allows(o, q, s[q]).contains(other.get(q)));
        }
    }
    if o.repeats(projection, s, other) {
        assert forall|q: K| #[trigger] s.dom().contains(q) && projection.contains(
            q,
        ) implies Goal::<K>::Repeat.allows(o, q, s[q]).contains(other.get(q)) by {}
    }
    if s.dom().contains(k) && projection.contains(k) {
        let short = Goal::FallShort(k);
        if short.reached(o, projection, s, other) {
            assert forall|q: K| #[trigger] s.dom().contains(q) && projection.contains(
                q,
            ) implies if q == k {
                other.dom().contains(q) && !o.at_least(s[q]).contains(other[q])
            } else {
                other.dom().contains(q) ==> !(o.higher)(s[q]).contains(other[q])
            } by {
                assert(short.allows(o, q, s[q]).contains(other.get(q)));
            }
            assert(o.falls_short(projection, s, other, k));
        }
        if o.falls_short(projection, s, other, k) {
            assert forall|q: K| #[trigger] s.dom().contains(q) && projection.contains(
                q,
            ) implies short.allows(o, q, s[q]).contains(other.get(q)) by {}
        }
        let improve = Goal::Improve(k);
        if improve.reached(o, projection, s, other) {
            assert forall|q: K| #[trigger] s.dom().contains(q) && projection.contains(q) implies {
                &&& other.dom().contains(q)
                &&& if q == k {
                    (o.higher)(s[q]).contains(other[q])
                } else {
                    o.at_least(s[q]).contains(other[q])
                }
            } by {
                assert(improve.allows(o, q, s[q]).contains(other.get(q)));
            }
            assert(o.improves(projection, s, other, k));
        }
        if o.improves(projection, s, other, k) {
            assert forall|q: K| #[trigger] s.dom().contains(q) && projection.contains(
                q,
            ) implies improve.allows(o, q, s[q]).contains(other.get(q)) by {}
        }
    }
}

/// What another solution has to do to compare with one in a certain way.
enum Aim<'a, P> {
    Repeat,
    FallShort(&'a P),
    Improve(&'a P),
}

impl<'a, P: Package> Aim<'a, P> {
    spec fn view(self) -> Goal<P::V> {
        match self {
            Aim::Repeat => Goal::Repeat,
            Aim::FallShort(p) => Goal::FallShort(p@),
            Aim::Improve(p) => Goal::Improve(p@),
        }
    }
}

/// The term that the aim leaves a package which the solution has at the version.
fn aimed_term<
    P: Package,
    VS: VersionSet,
    E: Fn(&VS::V) -> VS,
    R: Fn(&VS::V) -> VS,
    F: Fn(&VS::V) -> VS,
>(
    aim: &Aim<'_, P>,
    package: &P,
    version: &VS::V,
    version_ordering: &VersionOrdering<E, R, F>,
) -> (r: Term<VS>)
    requires
        ordering::is_ordering::<VS, E, R, F>(*version_ordering),
    ensures
        r@ == aim@.allows(
            ordering::precedence::<VS, E, R, F>(*version_ordering),
            package@,
            *version,
        ),
{
    match aim {
        Aim::Repeat => Term::Positive(version_ordering.same_version(version)),
        Aim::FallShort(lower) => {
            let higher: VS = version_ordering.strictly_higher(version);
            if package.same(lower) {
                let equal: VS = version_ordering.same_precedence(version);
                Term::Positive(equal.union(&higher).complement())
            } else {
                Term::Negative(higher)
            }
        },
        Aim::Improve(upgraded) => {
            let higher: VS = version_ordering.strictly_higher(version);
            if package.same(upgraded) {
                Term::Positive(higher)
            } else {
                let equal: VS = version_ordering.same_precedence(version);
                Term::Positive(equal.union(&higher))
            }
        },
    }
}

/// The first packages of the list are in states that the goal leaves them.
spec fn reached_by<P: Package, V>(
    goal: Goal<P::V>,
    o: Precedence<V>,
    projection: Seq<P::V>,
    pairs: Seq<(P, V)>,
    n: int,
    other: Map<P::V, V>,
) -> bool {
    forall|j: int|
        0 <= j < n && projection.contains((#[trigger] pairs[j]).0@) ==> goal.allows(
            o,
            pairs[j].0@,
            pairs[j].1,
        ).contains(other.get(pairs[j].0@))
}

proof fn lemma_reached_by<P: Package, V>(
    goal: Goal<P::V>,
    o: Precedence<V>,
    projection: Seq<P::V>,
    pairs: Seq<(P, V)>,
    other: Map<P::V, V>,
)
    requires
        selected::pairs_distinct(pairs),
    ensures
        reached_by(goal, o, projection, pairs, pairs.len() as int, other) <==> goal.reached(
            o,
            projection,
            selected::pairs_map(pairs),
            other,
        ),
{
    let s = selected::pairs_map(pairs);
    selected::lemma_pairs_map(pairs);
    if reached_by(goal, o, projection, pairs, pairs.len() as int, other) {
        assert forall|k: P::V| #[trigger] s.dom().contains(k) && projection.contains(
            k,
        ) implies goal.allows(o, k, s[k]).contains(other.get(k)) by {
            let j = choose|j: int|
                0 <= j < pairs.len() && (#[trigger] pairs[j]).0@ == k && pairs[j].1 == s[k];
            assert(projection.contains(pairs[j].0@));
        }
    }
    if goal.reached(o, projection, s, other) {
        assert forall|j: int|
            0 <= j < pairs.len() && projection.contains((#[trigger] pairs[j]).0@) implies goal.allows(
            o,
            pairs[j].0@,
            pairs[j].1,
        ).contains(other.get(pairs[j].0@)) by {
            assert(s.dom().contains(pairs[j].0@));
            assert(s[pairs[j].0@] == pairs[j].1);
        }
    }
}

/// The terms that hold in another solution exactly when it reaches the aim.
fn aimed_terms<
    P: Package,
    VS: VersionSet,
    E: Fn(&VS::V) -> VS,
    R: Fn(&VS::V) -> VS,
    F: Fn(&VS::V) -> VS,
>(
    aim: &Aim<'_, P>,
    solution: &SelectedDependencies<P, VS::V>,
    projection: &Vec<P>,
    version_ordering: &VersionOrdering<E, R, F>,
) -> (r: Vec<(P, Term<VS>)>)
    requires
        ordering::is_ordering::<VS, E, R, F>(*version_ordering),
    ensures
        term::parts(r@) == ascent::goal_clause(
            aim@,
            ordering::precedence::<VS, E, R, F>(*version_ordering),
            package::keys(projection@),
            solution.listed(),
            solution.listed().len() as int,
        ),
        forall|other: Map<P::V, VS::V>| #[trigger]
            search::violates(term::parts(r@), other) <==> aim@.reached(
                ordering::precedence::<VS, E, R, F>(*version_ordering),
                package::keys(projection@),
                solution@,
                other,
            ),
        forall|k: P::V| #[trigger]
            search::mentions(term::parts(r@), k) ==> package::keys(projection@).contains(k),
{
    let ghost o = ordering::precedence::<VS, E, R, F>(*version_ordering);
    let ghost projected = package::keys(projection@);
    let pairs = solution.iter();
    let ghost list = solution.listed();
    let mut terms: Vec<(P, Term<VS>)> = Vec::new();
    let mut i: usize = 0;
    assert(list.len() == pairs@.len());
    assert(term::parts(terms@) =~= ascent::goal_clause(aim@, o, projected, list, 0));
    while i < pairs.len()
        invariant
            list == selected::keyed(pairs@),
            list.len() == pairs@.len(),
            term::parts(terms@) == ascent::goal_clause(aim@, o, projected, list, i as int),
            ordering::is_ordering::<VS, E, R, F>(*version_ordering),
            o == ordering::precedence::<VS, E, R, F>(*version_ordering),
            projected == package::keys(projection@),
            i <= pairs@.len(),
            forall|other: Map<P::V, VS::V>| #[trigger]
                search::violates(term::parts(terms@), other) <==> reached_by(
                    aim@,
                    o,
                    projected,
                    pairs@,
                    i as int,
                    other,
                ),
            forall|k: P::V| #[trigger]
                search::mentions(term::parts(terms@), k) ==> projected.contains(k),
        decreases pairs@.len() - i,
    {
        let ghost before = term::parts(terms@);
        let ghost k = pairs@[i as int].0@;
        let wanted = holds_package(projection, &pairs[i].0);
        if wanted {
            let term = aimed_term(aim, &pairs[i].0, &pairs[i].1, version_ordering);
            terms.push((pairs[i].0.duplicate(), term));
        }
        proof {
            let after = term::parts(terms@);
            let part = (k, aim@.allows(o, k, pairs@[i as int].1));
            assert(list[i as int] == (k, pairs@[i as int].1));
            if wanted {
                assert(after =~= before.push(part));
            } else {
                assert(after =~= before);
            }
            assert forall|other: Map<P::V, VS::V>| #[trigger]
                search::violates(after, other) <==> reached_by(
                aim@,
                o,
                projected,
                pairs@,
                i + 1,
                other,
            ) by {
                assert(search::violates(before, other) <==> reached_by(
                    aim@,
                    o,
                    projected,
                    pairs@,
                    i as int,
                    other,
                ));
                if wanted {
                    search::lemma_violates_push(before, part, other);
                }
                if reached_by(aim@, o, projected, pairs@, i + 1, other) {
                    assert(projected.contains(pairs@[i as int].0@) == wanted);
                }
            }
            assert forall|q: P::V| #[trigger] search::mentions(after, q) implies projected.contains(
                q,
            ) by {
                let j = choose|j: int| 0 <= j < after.len() && (#[trigger] after[j]).0 == q;
                if j < before.len() {
                    assert(before[j].0 == q);
                    assert(search::mentions(before, q));
                }
            }
        }
        i += 1;
    }
    proof {
        assert forall|other: Map<P::V, VS::V>| #[trigger]
            search::violates(term::parts(terms@), other) <==> aim@.reached(
            o,
            projected,
            solution@,
            other,
        ) by {
            lemma_reached_by(aim@, o, projected, pairs@, other);
        }
    }
    terms
}

/// Whether the ordering has no flaw at the projected versions of the solution; else the first such
/// version, and the condition that does not hold.
pub fn validate_version_ordering<
    DP: DependencyProvider,
    E: Fn(&VersionOf<DP>) -> DP::VS,
    R: Fn(&VersionOf<DP>) -> DP::VS,
    F: Fn(&VersionOf<DP>) -> DP::VS,
>(
    solution: &SelectedDependencies<DP::P, VersionOf<DP>>,
    maximized_packages: &Vec<DP::P>,
    version_ordering: &VersionOrdering<E, R, F>,
) -> (r: Result<(), PubGrubError<DP>>)
    requires
        ordering::is_ordering::<DP::VS, E, R, F>(*version_ordering),
    ensures
        ({
            let o = ordering::precedence::<DP::VS, E, R, F>(*version_ordering);
            let projection = package::keys(maximized_packages@);
            &&& r is Ok <==> o.flawless(projection, solution@)
            &&& match ascent::first_flaw(o, projection, solution.listed(), 0) {
                None => r is Ok,
                Some((k, v)) => r is Err && run::outcome(r) == Outcome::InvalidOrdering(k, v),
            }
            &&& r matches Err(error) ==> shows_flaw(o, projection, error) && solution@.get(
                error->InvalidVersionOrdering_package@,
            ) == Some(error->InvalidVersionOrdering_version)
        }),
{
    let ghost o = ordering::precedence::<DP::VS, E, R, F>(*version_ordering);
    let ghost projection = package::keys(maximized_packages@);
    let pairs = solution.iter();
    let ghost list = solution.listed();
    proof {
        selected::lemma_pairs_map(pairs@);
        assert(list.len() == pairs@.len());
    }
    let mut i: usize = 0;
    while i < pairs.len()
        invariant
            list == selected::keyed(pairs@),
            list.len() == pairs@.len(),
            ascent::first_flaw(o, projection, solution.listed(), 0) == ascent::first_flaw(
                o,
                projection,
                list,
                i as int,
            ),
            ordering::is_ordering::<DP::VS, E, R, F>(*version_ordering),
            o == ordering::precedence::<DP::VS, E, R, F>(*version_ordering),
            projection == package::keys(maximized_packages@),
            i <= pairs@.len(),
            forall|j: int|
                0 <= j < pairs@.len() ==> solution@.dom().contains((#[trigger] pairs@[j]).0@)
                    && solution@[pairs@[j].0@] == pairs@[j].1,
            forall|j: int|
                0 <= j < i && projection.contains((#[trigger] pairs@[j]).0@) ==> o.flaw(
                    pairs@[j].1,
                ) is None,
        decreases pairs@.len() - i,
    {
        assert(list[i as int] == (pairs@[i as int].0@, pairs@[i as int].1));
        if holds_package(maximized_packages, &pairs[i].0) {
            let version = &pairs[i].1;
            let equivalent: DP::VS = version_ordering.same_version(version);
            let same_precedence: DP::VS = version_ordering.same_precedence(version);
            let higher: DP::VS = version_ordering.strictly_higher(version);
            let reason: Option<&'static str> = if !equivalent.contains(version) {
                Some("same_version must contain the selected version")
            } else if !same_precedence.contains(version) {
                Some("same_precedence must contain the selected version")
            } else if !equivalent.subset_of(&same_precedence) {
                Some("same_version must be a subset of same_precedence")
            } else if higher.contains(version) {
                Some("strictly_higher must not contain the selected version")
            } else if !same_precedence.is_disjoint(&higher) {
                Some("same_precedence and strictly_higher must be disjoint")
            } else {
                None
            };
            if let Some(reason) = reason {
                let package = pairs[i].0.duplicate();
                assert(solution@.dom().contains(pairs@[i as int].0@));
                return Err(
                    PubGrubError::InvalidVersionOrdering {
                        package,
                        version: version.duplicate(),
                        reason,
                    },
                );
            }
        }
        i += 1;
    }
    proof {
        assert forall|k: Key<DP>| #[trigger] solution@.dom().contains(k) && projection.contains(
            k,
        ) implies o.flaw(solution@[k]) is None by {
            let j = choose|j: int|
                0 <= j < pairs@.len() && (#[trigger] pairs@[j]).0@ == k && pairs@[j].1
                    == solution@[k];
            assert(projection.contains(pairs@[j].0@));
        }
    }
    Ok(())
}

/// The error points out a version at which the relations have the flaw that it names.
pub open spec fn shows_flaw<DP: DependencyProvider>(
    o: Precedence<VersionOf<DP>>,
    projection: Seq<Key<DP>>,
    error: PubGrubError<DP>,
) -> bool {
    match error {
        PubGrubError::InvalidVersionOrdering { package, version, reason } => {
            &&& projection.contains(package@)
            &&& o.flaw(version) == Some(reason@)
        },
        _ => false,
    }
}

/// The selection solves the problem and meets the demands.
pub open spec fn qualifies<DP: DependencyProvider>(
    dp: DP,
    root: Key<DP>,
    version: VersionOf<DP>,
    demands: Clause<Key<DP>, VersionOf<DP>>,
    s: Selection<DP>,
) -> bool {
    problem::is_solution(dp, root, version, s) && search::violates(demands, s)
}

/// What qualifies selects offered versions.
pub proof fn lemma_offered<DP: DependencyProvider>(
    dp: DP,
    root: Key<DP>,
    version: VersionOf<DP>,
    demands: Clause<Key<DP>, VersionOf<DP>>,
    s: Selection<DP>,
)
    requires
        qualifies(dp, root, version, demands, s),
    ensures
        ordering::is_among(s, finite::offered_versions(dp)),
{
    assert forall|k: Key<DP>| #[trigger] s.dom().contains(k) implies finite::offered_versions(
        dp,
    ).contains(s[k]) by {
        assert(problem::fits(dp, s, k));
        assert(dp.offers(k, s[k]));
    }
}

/// The error points out a version at which the relations have the flaw that it names, and which
/// some solution that meets the demands selects.
pub open spec fn finds_flaw<DP: DependencyProvider>(
    dp: DP,
    root: Key<DP>,
    version: VersionOf<DP>,
    demands: Clause<Key<DP>, VersionOf<DP>>,
    o: Precedence<VersionOf<DP>>,
    projection: Seq<Key<DP>>,
    error: PubGrubError<DP>,
) -> bool {
    &&& shows_flaw(o, projection, error)
    &&& exists|s: Selection<DP>| #[trigger]
        qualifies(dp, root, version, demands, s) && s.get(
            error->InvalidVersionOrdering_package@,
        ) == Some(error->InvalidVersionOrdering_version)
}

/// The projected packages that the selection holds.
pub open spec fn held<K, V>(projection: Seq<K>, s: Map<K, V>) -> Seq<K> {
    projection.filter(|k: K| s.dom().contains(k))
}

/// The packages were tried in turn, each of them without success.
pub open spec fn all_tried<K>(packages: Seq<K>) -> Seq<(K, MaximalityProbeResult)> {
    Seq::new(packages.len(), |i: int| (packages[i], MaximalityProbeResult::NoImprovement))
}

/// The probes of one round that has found an upgrade: the projected packages that the selection holds
/// were tried in turn, up to the one that was upgraded.
pub open spec fn is_round<K, V>(
    projection: Seq<K>,
    s: Map<K, V>,
    told: Seq<(K, MaximalityProbeResult)>,
) -> bool {
    exists|i: int|
        0 <= i < projection.len() && s.dom().contains(#[trigger] projection[i]) && told
            == all_tried(held(projection.take(i), s)).push(
            (projection[i], MaximalityProbeResult::Improved),
        )
}

/// The probes of rounds that lead from one of the selections to the next.
#[verifier::opaque]
pub open spec fn are_rounds<K, V>(
    projection: Seq<K>,
    told: Seq<(K, MaximalityProbeResult)>,
    chain: Seq<Map<K, V>>,
) -> bool
    decreases chain.len(),
{
    if chain.len() <= 1 {
        chain.len() == 1 && told.len() == 0
    } else {
        exists|n: int|
            0 <= n <= told.len() && #[trigger] is_round(
                projection,
                chain[chain.len() - 2],
                told.skip(n),
            ) && are_rounds(projection, told.take(n), chain.drop_last())
    }
}

/// The probes that lead up to the selection: rounds that find upgrades, and a last one in which every
/// projected package that the selection holds was tried in vain.
#[verifier::opaque]
pub open spec fn is_climb<K, V>(
    projection: Seq<K>,
    told: Seq<(K, MaximalityProbeResult)>,
    s: Map<K, V>,
) -> bool {
    exists|rounds: Seq<(K, MaximalityProbeResult)>, chain: Seq<Map<K, V>>| #[trigger]
        are_rounds(projection, rounds, chain) && chain.last() == s && told == rounds + all_tried(
            held(projection, s),
        )
}

/// The probes that lead up to the selections, one after the other.
#[verifier::opaque]
pub open spec fn are_climbs<K, V>(
    projection: Seq<K>,
    told: Seq<(K, MaximalityProbeResult)>,
    found: Seq<Map<K, V>>,
) -> bool
    decreases found.len(),
{
    if found.len() == 0 {
        told.len() == 0
    } else {
        exists|n: int|
            0 <= n <= told.len() && #[trigger] is_climb(projection, told.skip(n), found.last())
                && are_climbs(projection, told.take(n), found.drop_last())
    }
}

proof fn lemma_one_more_round<K, V>(
    projection: Seq<K>,
    earlier: Seq<(K, MaximalityProbeResult)>,
    chain: Seq<Map<K, V>>,
    last: Seq<(K, MaximalityProbeResult)>,
    better: Map<K, V>,
)
    requires
        are_rounds(projection, earlier, chain),
        is_round(projection, chain.last(), last),
    ensures
        are_rounds(projection, earlier + last, chain.push(better)),
{
    reveal_with_fuel(are_rounds, 2);
    let longer = chain.push(better);
    let told = earlier + last;
    assert(chain.len() > 0);
    assert(longer.drop_last() =~= chain);
    assert(longer[longer.len() - 2] == chain.last());
    let n = earlier.len() as int;
    assert(told.take(n) =~= earlier);
    assert(told.skip(n) =~= last);
    assert(is_round(projection, longer[longer.len() - 2], told.skip(n)));
}

proof fn lemma_one_more_climb<K, V>(
    projection: Seq<K>,
    earlier: Seq<(K, MaximalityProbeResult)>,
    found: Seq<Map<K, V>>,
    last: Seq<(K, MaximalityProbeResult)>,
    s: Map<K, V>,
)
    requires
        are_climbs(projection, earlier, found),
        is_climb(projection, last, s),
    ensures
        are_climbs(projection, earlier + last, found.push(s)),
{
    reveal_with_fuel(are_climbs, 2);
    let longer = found.push(s);
    let told = earlier + last;
    assert(longer.drop_last() =~= found);
    let n = earlier.len() as int;
    assert(told.take(n) =~= earlier);
    assert(told.skip(n) =~= last);
    assert(is_climb(projection, told.skip(n), longer.last()));
}

/// Where nothing is projected, nothing is tried.
proof fn lemma_no_climb<K, V>(s: Map<K, V>)
    ensures
        is_climb(Seq::empty(), Seq::empty(), s),
{
    let none = Seq::<K>::empty();
    let told = Seq::<(K, MaximalityProbeResult)>::empty();
    let chain = seq![s];
    reveal(Seq::filter);
    reveal(is_climb);
    reveal_with_fuel(are_rounds, 1);
    assert(held(none, s) =~= none);
    assert(told =~= told + all_tried(held(none, s)));
    assert(are_rounds(none, told, chain));
}

/// The projected packages that the selection holds were tried in turn, until an upgrade was found
/// or an error was raised, and what was told of them is how it went.
pub open spec fn are_outcomes<K, V, T, X>(
    projection: Seq<K>,
    s: Map<K, V>,
    told: Seq<(K, MaximalityProbeResult)>,
    r: Result<Option<T>, X>,
) -> bool {
    match r {
        Ok(None) => told == all_tried(held(projection, s)),
        _ => exists|i: int|
            0 <= i < projection.len() && s.dom().contains(#[trigger] projection[i]) && told
                == all_tried(held(projection.take(i), s)).push(
                (
                    projection[i],
                    if r is Ok {
                        MaximalityProbeResult::Improved
                    } else {
                        MaximalityProbeResult::Error
                    },
                ),
            ),
    }
}

/// The search for an upgrade of each projected package that the selection holds ended without one.
pub open spec fn are_at_best<K, V>(
    projection: Seq<K>,
    s: Map<K, V>,
    before: Seq<Observed<K, V>>,
    after: Seq<Observed<K, V>>,
) -> bool {
    forall|k: K| #[trigger]
        s.dom().contains(k) && projection.contains(k) ==> observer::is_at_best(before, after, k)
}

/// What was told stays told.
proof fn lemma_at_best_later<K, V>(
    projection: Seq<K>,
    s: Map<K, V>,
    a: Seq<Observed<K, V>>,
    b: Seq<Observed<K, V>>,
    c: Seq<Observed<K, V>>,
    d: Seq<Observed<K, V>>,
)
    requires
        are_at_best(projection, s, b, c),
        a.len() <= b.len(),
        c.is_prefix_of(d),
    ensures
        are_at_best(projection, s, a, d),
{
    assert forall|k: K| #[trigger] s.dom().contains(k) && projection.contains(
        k,
    ) implies observer::is_at_best(a, d, k) by {
        let i = choose|i: int|
            b.len() <= i < c.len() && #[trigger] c[i] == Observed::<K, V>::MaximalityProbeFinished(
                k,
                MaximalityProbeResult::NoImprovement,
            );
        assert(c[i] == d.subrange(0, c.len() as int)[i]);
        assert(d[i] == c[i]);
    }
}

/// Where no probe failed, and none later, none did.
pub proof fn lemma_no_failure<K, V>(
    a: Seq<Observed<K, V>>,
    b: Seq<Observed<K, V>>,
    c: Seq<Observed<K, V>>,
)
    requires
        b.is_prefix_of(c),
        observer::no_probe_failed(a, b),
        observer::no_probe_failed(b, c),
    ensures
        observer::no_probe_failed(a, c),
{
    assert forall|i: int| a.len() <= i < c.len() implies match #[trigger] c[i] {
        Observed::MaximalityProbeFinished(_, result) => !(result is Error),
        Observed::PreferenceProbeFinished(_, result) => !(result is Error),
        _ => true,
    } by {
        if i < b.len() {
            assert(b[i] == c.subrange(0, b.len() as int)[i]);
            assert(b[i] == c[i]);
        }
    }
}

/// What the search for a better solution finds that returns this.
pub open spec fn found_as<DP: DependencyProvider>(
    r: Result<Option<SelectedDependencies<DP::P, VersionOf<DP>>>, PubGrubError<DP>>,
) -> Found<Key<DP>, VersionOf<DP>> {
    match r {
        Ok(Some(better)) => Found::Better(better.listed()),
        Ok(None) => Found::Best,
        Err(_) => Found::Failed(run::outcome(r)),
    }
}

/// Looks for a solution that upgrades one of the projected packages without downgrading any other.
pub fn find_dominating_solution<
    DP: DependencyProvider,
    E: Fn(&VersionOf<DP>) -> DP::VS,
    R: Fn(&VersionOf<DP>) -> DP::VS,
    F: Fn(&VersionOf<DP>) -> DP::VS,
    O: SolverObserver<DP::P, DP::VS, DP::M>,
>(
    dependency_provider: &DP,
    solution: &SelectedDependencies<DP::P, VersionOf<DP>>,
    root_package: &DP::P,
    root_version: &VersionOf<DP>,
    maximized_packages: &Vec<DP::P>,
    version_ordering: &VersionOrdering<E, R, F>,
    required_terms: &Vec<(DP::P, Term<DP::VS>)>,
    observer: &mut O,
) -> (r: Result<Option<SelectedDependencies<DP::P, VersionOf<DP>>>, PubGrubError<DP>>)
    requires
        ordering::is_ordering::<DP::VS, E, R, F>(*version_ordering),
    ensures
        (Quest {
            dp: *dependency_provider,
            root: root_package@,
            version: *root_version,
            demands: term::parts(required_terms@),
            o: ordering::precedence::<DP::VS, E, R, F>(*version_ordering),
            projection: package::keys(maximized_packages@),
        }).ends_probing(
            solution.listed(),
            found_as(r),
            machine::choices_told(old(observer).log().len() as int, final(observer).log()),
        ),
        observer::probes::<DP::P, DP::VS, DP::M, O>(old(observer).log(), final(observer).log()),
        are_outcomes(
            package::keys(maximized_packages@),
            solution@,
            observer::upgrades(old(observer).log().len() as int, final(observer).log()),
            r,
        ),
        problem::are_answers(*dependency_provider, old(observer).log(), final(observer).log()),
        r matches Ok(Some(better)) ==> observer::tells_selection(
            old(observer).log(),
            final(observer).log(),
            better@,
        ),
        r matches Ok(found) ==> path::climbs_to::<DP::P, DP::VS, DP::M, O>(
            old(observer).log(),
            final(observer).log(),
            solution@,
            match found {
                Some(better) => better@,
                None => solution@,
            },
        ),
        path::are_stretches::<DP, O>(
            *dependency_provider,
            root_package@,
            *root_version,
            old(observer).log(),
            final(observer).log(),
        ),
        r is Ok ==> observer::no_probe_failed(old(observer).log(), final(observer).log()),
        r is Err ==> error::heeds_cancellation(*dependency_provider, r),
        r == Ok::<Option<SelectedDependencies<DP::P, VersionOf<DP>>>, PubGrubError<DP>>(None)
            ==> are_at_best(
            package::keys(maximized_packages@),
            solution@,
            old(observer).log(),
            final(observer).log(),
        ),
        ({
            let o = ordering::precedence::<DP::VS, E, R, F>(*version_ordering);
            let projection = package::keys(maximized_packages@);
            let demands = term::parts(required_terms@);
            match r {
                Ok(Some(better)) => {
                    &&& qualifies(
                        *dependency_provider,
                        root_package@,
                        *root_version,
                        demands,
                        better@,
                    )
                    &&& o.dominates(projection, solution@, better@)
                },
                Ok(None) => forall|s: Selection<DP>| #[trigger]
                    qualifies(*dependency_provider, root_package@, *root_version, demands, s)
                        ==> !o.dominates(projection, solution@, s),
                Err(error) => error.raised_by(*dependency_provider)
                    && dependency_provider.may_fail(),
            }
        }),
{
    let ghost dp = *dependency_provider;
    let ghost root = root_package@;
    let ghost version = *root_version;
    let ghost o = ordering::precedence::<DP::VS, E, R, F>(*version_ordering);
    let ghost projection = package::keys(maximized_packages@);
    let ghost demands = term::parts(required_terms@);
    let ghost log = observer.log();
    let ghost list = solution.listed();
    let ghost quest = Quest { dp, root, version, demands, o, projection };
    proof {
        quest.begins_probing(list, machine::choices_told(log.len() as int, log));
        observer::lemma_leads_nowhere::<DP::P, DP::VS, DP::M, O>(log);
        path::lemma_nothing_announced::<DP::P, DP::VS, DP::M, O>(log, solution@);
        path::lemma_no_stretch::<DP, O>(dp, root, version, log, log);
        reveal(Seq::filter);
        assert(projection.take(0) =~= Seq::empty());
        assert(observer::upgrades(log.len() as int, log) =~= all_tried(
            held(projection.take(0), solution@),
        ));
    }
    let mut i: usize = 0;
    while i < maximized_packages.len()
        invariant
            dp == *dependency_provider,
            root == root_package@,
            version == *root_version,
            ordering::is_ordering::<DP::VS, E, R, F>(*version_ordering),
            o == ordering::precedence::<DP::VS, E, R, F>(*version_ordering),
            projection == package::keys(maximized_packages@),
            demands == term::parts(required_terms@),
            log == old(observer).log(),
            list == solution.listed(),
            quest == (Quest { dp, root, version, demands, o, projection }),
            quest.has_probed(
                list,
                i as int,
                machine::choices_told(log.len() as int, observer.log()),
            ),
            observer::probes::<DP::P, DP::VS, DP::M, O>(log, observer.log()),
            observer::upgrades(log.len() as int, observer.log()) == all_tried(
                held(projection.take(i as int), solution@),
            ),
            path::climbs_to::<DP::P, DP::VS, DP::M, O>(
                log,
                observer.log(),
                solution@,
                solution@,
            ),
            observer::no_probe_failed(log, observer.log()),
            problem::are_answers(dp, log, observer.log()),
            path::are_stretches::<DP, O>(dp, root, version, log, observer.log()),
            forall|j: int|
                0 <= j < i && solution@.dom().contains(#[trigger] projection[j])
                    ==> observer::is_at_best(log, observer.log(), projection[j]),
            i <= maximized_packages@.len(),
            forall|j: int, s: Selection<DP>|
                0 <= j < i && #[trigger] qualifies(dp, root, version, demands, s) ==> !o.improves(
                    projection,
                    solution@,
                    s,
                    #[trigger] projection[j],
                ),
        decreases maximized_packages@.len() - i,
    {
        let candidate = &maximized_packages[i];
        let ghost k = candidate@;
        assert(projection[i as int] == k);
        assert(projection.contains(k));
        let ghost earlier = observer.log();
        proof {
            reveal(Seq::filter);
            assert(projection.take(i + 1).drop_last() =~= projection.take(i as int));
            assert(projection.take(i + 1).last() == k);
            solution.lemma_listed(k);
        }
        if solution.get(candidate).is_some() {
            let aim = Aim::Improve(candidate);
            let mut aimed = aimed_terms(&aim, solution, maximized_packages, version_ordering);
            let ghost goal = term::parts(aimed@);
            let mut terms = duplicate_terms(required_terms);
            let ghost given = terms@;
            let ghost extra = aimed@;
            terms.append(&mut aimed);
            let ghost all = term::parts(terms@);
            proof {
                assert(all =~= demands + goal) by {
                    assert(terms@ == given + extra);
                    assert forall|j: int| 0 <= j < all.len() implies all[j] == (demands
                        + goal)[j] by {
                        if j < given.len() {
                            assert(term::parts(given)[j] == demands[j]);
                        }
                    }
                }
            }
            let mut probe: SolverState<DP> = SolverState::new(
                root_package.duplicate(),
                root_version.duplicate(),
            );
            assert(probe.agrees(dp));
            probe.force_terms(&terms);
            let ghost exclusions = run::forced_clauses(root, version, all);
            assert(probe.exclusions() =~= exclusions);
            assert(probe.agrees(dp));
            let ghost made = probe.decided();
            let ghost blank = probe;
            let event = SolverEvent::MaximalityProbeStarted { package: candidate };
            let ghost begun = event.observed();
            observer.on_event(event);
            let ghost told = observer.log();
            let result = probe.run_until_solution(dependency_provider, observer);
            let ghost heard = observer.log();
            let outcome = match &result {
                Ok(_) => MaximalityProbeResult::Improved,
                Err(PubGrubError::NoSolution(_)) => MaximalityProbeResult::NoImprovement,
                Err(_) => MaximalityProbeResult::Error,
            };
            let event = SolverEvent::MaximalityProbeFinished { package: candidate, result: outcome };
            let ghost ended = event.observed();
            observer.on_event(event);
            proof {
                lemma_probe::<DP, O>(dp, log, earlier, begun, heard, ended, k, outcome);
                quest.probes(
                    list,
                    i as int,
                    log.len() as int,
                    earlier,
                    heard,
                    outcome,
                    blank.takes_course(dp, told),
                    probe.holdings(),
                    run::outcome(result),
                );
                let next = match &result {
                    Ok(better) => better@,
                    Err(_) => solution@,
                };
                assert(made =~= Seq::empty());
                path::lemma_stretch::<DP, O>(
                    dp,
                    blank,
                    earlier,
                    begun,
                    heard,
                    ended,
                    probe.decided(),
                );
                path::lemma_stretches_chain::<DP, O>(
                    dp,
                    root,
                    version,
                    log,
                    earlier,
                    observer.log(),
                );
                path::lemma_climb_probe::<DP::P, DP::VS, DP::M, O>(
                    earlier,
                    k,
                    heard,
                    outcome,
                    probe.decided(),
                    solution@,
                    next,
                );
                path::lemma_climbs_chain::<DP::P, DP::VS, DP::M, O>(
                    log,
                    earlier,
                    observer.log(),
                    solution@,
                    solution@,
                    next,
                );
                if let Ok(better) = &result {
                    assert forall|x: Key<DP>| #[trigger]
                        better@.dom().contains(x) implies observer::is_decided(
                        log,
                        observer.log(),
                        x,
                        better@[x],
                    ) by {
                        assert(!made.contains((x, better@[x])));
                        assert(probe.decided().contains((x, better@[x])));
                        observer::lemma_decided_later(
                            log,
                            told,
                            heard,
                            observer.log(),
                            x,
                            better@[x],
                        );
                    }
                }
                let tried = held(projection.take(i as int), solution@);
                assert(held(projection.take(i + 1), solution@) =~= tried.push(k));
                if outcome is NoImprovement {
                    assert(all_tried(tried).push((k, outcome)) =~= all_tried(tried.push(k)));
                    assert forall|j: int|
                        0 <= j < i + 1 && solution@.dom().contains(
                            #[trigger] projection[j],
                        ) implies observer::is_at_best(log, observer.log(), projection[j]) by {
                        if j == i {
                            assert(observer.log()[heard.len() as int] == ended);
                        } else {
                            let m = choose|m: int|
                                log.len() <= m < earlier.len() && #[trigger] earlier[m]
                                    == Observed::<
                                    Key<DP>,
                                    VersionOf<DP>,
                                >::MaximalityProbeFinished(
                                    projection[j],
                                    MaximalityProbeResult::NoImprovement,
                                );
                            assert(observer.log()[m] == earlier[m]);
                        }
                    }
                } else {
                    assert(solution@.dom().contains(projection[i as int]));
                }
            }
            match result {
                Ok(better) => {
                    proof {
                        run::lemma_forced(root, version, all, better@);
                        search::lemma_violates_both(demands, goal, better@);
                        lemma_goal(o, projection, solution@, better@, k);
                        assert(aim@ == Goal::Improve(k));
                        assert(o.improves(projection, solution@, better@, k));
                    }
                    return Ok(Some(better));
                },
                Err(PubGrubError::NoSolution(reason)) => {
                    proof {
                        let error = PubGrubError::<DP>::NoSolution(reason);
                        error::lemma_proves_no_solution(
                            error,
                            dp,
                            root,
                            version,
                            exclusions,
                        );
                        assert forall|s: Selection<DP>| #[trigger]
                            qualifies(dp, root, version, demands, s) implies !o.improves(
                            projection,
                            solution@,
                            s,
                            k,
                        ) by {
                            if o.improves(projection, solution@, s, k) {
                                lemma_goal(o, projection, solution@, s, k);
                                search::lemma_violates_both(demands, goal, s);
                                run::lemma_forced(root, version, all, s);
                                assert(problem::avoids(exclusions, s));
                                assert(problem::is_solution(dp, root, version, s));
                            }
                        }
                    }
                },
                Err(error) => {
                    return Err(error);
                },
            }
        } else {
            proof {
                quest.skips(
                    list,
                    i as int,
                    machine::choices_told(log.len() as int, observer.log()),
                );
                assert forall|s: Selection<DP>| #[trigger]
                    qualifies(dp, root, version, demands, s) implies !o.improves(
                    projection,
                    solution@,
                    s,
                    k,
                ) by {}
                assert(held(projection.take(i + 1), solution@) =~= held(
                    projection.take(i as int),
                    solution@,
                ));
            }
        }
        i += 1;
    }
    proof {
        assert(projection.take(i as int) =~= projection);
        quest.finds_none(list, machine::choices_told(log.len() as int, observer.log()));
        assert forall|k: Key<DP>| #[trigger] solution@.dom().contains(k) && projection.contains(
            k,
        ) implies observer::is_at_best(log, observer.log(), k) by {
            let j = choose|j: int| 0 <= j < projection.len() && projection[j] == k;
            assert(solution@.dom().contains(projection[j]));
        }
        assert forall|s: Selection<DP>| #[trigger]
            qualifies(dp, root, version, demands, s) implies !o.dominates(
            projection,
            solution@,
            s,
        ) by {
            if o.dominates(projection, solution@, s) {
                let k = choose|k: Key<DP>| #[trigger] o.improves(projection, solution@, s, k);
                let j = choose|j: int| 0 <= j < projection.len() && projection[j] == k;
                assert(!o.improves(projection, solution@, s, projection[j]));
            }
        }
    }
    Ok(None)
}

/// The events of one probe.
#[verifier::rlimit(40)]
proof fn lemma_probe<DP: DependencyProvider, O: SolverObserver<DP::P, DP::VS, DP::M>>(
    dp: DP,
    log: Seq<Observed<Key<DP>, VersionOf<DP>>>,
    earlier: Seq<Observed<Key<DP>, VersionOf<DP>>>,
    begun: Observed<Key<DP>, VersionOf<DP>>,
    heard: Seq<Observed<Key<DP>, VersionOf<DP>>>,
    ended: Observed<Key<DP>, VersionOf<DP>>,
    k: Key<DP>,
    outcome: MaximalityProbeResult,
)
    requires
        observer::probes::<DP::P, DP::VS, DP::M, O>(log, earlier),
        begun == Observed::<Key<DP>, VersionOf<DP>>::MaximalityProbeStarted(k),
        observer::follows_path::<DP::P, DP::VS, DP::M, O>(earlier.push(begun), heard),
        ended == Observed::<Key<DP>, VersionOf<DP>>::MaximalityProbeFinished(k, outcome),
        observer::no_probe_failed(log, earlier),
        problem::are_answers(dp, log, earlier),
        problem::are_answers(dp, earlier.push(begun), heard),
    ensures
        problem::are_answers(dp, log, heard.push(ended)),
        heard.is_prefix_of(heard.push(ended)),
        log.len() <= earlier.len(),
        observer::probes::<DP::P, DP::VS, DP::M, O>(log, heard.push(ended)),
        observer::upgrades(log.len() as int, heard.push(ended)) == observer::upgrades(
            log.len() as int,
            earlier,
        ).push((k, outcome)),
        !(outcome is Error) ==> observer::no_probe_failed(log, heard.push(ended)),
        forall|m: int| 0 <= m < earlier.len() ==> earlier[m] == heard.push(ended)[m],
        earlier.is_prefix_of(heard.push(ended)),
        log.len() <= heard.len(),
{
    reveal(observer::leads);
    let told = earlier.push(begun);
    let after = heard.push(ended);
    assert(told.drop_last() =~= earlier);
    assert(after.drop_last() =~= heard);
    assert(heard =~= after.subrange(0, heard.len() as int));
    problem::lemma_answers_push(dp, log, earlier, begun);
    problem::lemma_answers_chain(dp, log, told, heard);
    problem::lemma_answers_push(dp, log, heard, ended);
    assert forall|m: int| 0 <= m < earlier.len() implies earlier[m] == after[m] by {
        assert(told[m] == heard.subrange(0, told.len() as int)[m]);
    }
    assert(earlier =~= after.subrange(0, earlier.len() as int));
    assert(observer::leads::<DP::P, DP::VS, DP::M, O>(
        log,
        earlier,
        observer::idle(0),
        observer::idle(0),
        0,
    ));
    assert forall|run: u64| #[trigger]
        observer::leads::<DP::P, DP::VS, DP::M, O>(
            log,
            after,
            observer::idle(run),
            observer::idle(run),
            0,
        ) by {
        let idle = observer::idle::<Key<DP>>(run);
        let probing = observer::Stage { run, running: false, probe: Some(k) };
        assert(observer::leads::<DP::P, DP::VS, DP::M, O>(log, earlier, idle, idle, 0));
        observer::lemma_leads_push::<DP::P, DP::VS, DP::M, O>(log, earlier, begun, idle, idle, 0);
        observer::lemma_leads_path::<DP::P, DP::VS, DP::M, O>(log, told, heard, idle, probing, 0);
        observer::lemma_leads_push::<DP::P, DP::VS, DP::M, O>(log, heard, ended, idle, probing, 0);
    }
    let idle = observer::idle::<Key<DP>>(0);
    let probing = observer::Stage { run: 0, running: false, probe: Some(k) };
    observer::lemma_leads_push::<DP::P, DP::VS, DP::M, O>(log, earlier, begun, idle, idle, 0);
    observer::lemma_leads_path::<DP::P, DP::VS, DP::M, O>(log, told, heard, idle, probing, 0);
    if !(outcome is Error) {
        assert forall|i: int| log.len() <= i < after.len() implies match #[trigger] after[i] {
            Observed::MaximalityProbeFinished(_, result) => !(result is Error),
            Observed::PreferenceProbeFinished(_, result) => !(result is Error),
            _ => true,
        } by {
            if i < earlier.len() {
                assert(after[i] == earlier[i]);
            } else if i < heard.len() {
                assert(heard[i] == after[i]);
                if i < told.len() {
                    assert(told[i] == heard.subrange(0, told.len() as int)[i]);
                } else {
                    assert(observer::on_path(heard[i]));
                }
            }
        }
    }
}

/// What a climb from the solution returns and tells, where the provider is deterministic.
pub open spec fn is_climb_of<DP: DependencyProvider>(
    quest: Quest<DP>,
    list: Seq<(Key<DP>, VersionOf<DP>)>,
    told: Seq<Observed<Key<DP>, VersionOf<DP>>>,
    r: Result<SelectedDependencies<DP::P, VersionOf<DP>>, PubGrubError<DP>>,
) -> bool {
    exists|a: Climb<Key<DP>, VersionOf<DP>>|
        {
            &&& #[trigger] quest.climbs_to(list, a)
            &&& a.told == told
            &&& a.end == Some(run::outcome(r))
            &&& r matches Ok(top) ==> a.list == top.listed()
        }
}

/// Climb from the solution by upgrades until there is none left.
fn climb<
    DP: DependencyProvider,
    E: Fn(&VersionOf<DP>) -> DP::VS,
    R: Fn(&VersionOf<DP>) -> DP::VS,
    F: Fn(&VersionOf<DP>) -> DP::VS,
    O: SolverObserver<DP::P, DP::VS, DP::M>,
>(
    dependency_provider: &DP,
    start: SelectedDependencies<DP::P, VersionOf<DP>>,
    root_package: &DP::P,
    root_version: &VersionOf<DP>,
    maximized_packages: &Vec<DP::P>,
    version_ordering: &VersionOrdering<E, R, F>,
    required_terms: &Vec<(DP::P, Term<DP::VS>)>,
    observer: &mut O,
) -> (r: Result<SelectedDependencies<DP::P, VersionOf<DP>>, PubGrubError<DP>>)
    requires
        ordering::is_ordering::<DP::VS, E, R, F>(*version_ordering),
        ordering::precedence::<DP::VS, E, R, F>(*version_ordering).is_ranked(
            finite::offered_versions(*dependency_provider),
        ),
        qualifies(
            *dependency_provider,
            root_package@,
            *root_version,
            term::parts(required_terms@),
            start@,
        ),
    ensures
        is_climb_of(
            Quest {
                dp: *dependency_provider,
                root: root_package@,
                version: *root_version,
                demands: term::parts(required_terms@),
                o: ordering::precedence::<DP::VS, E, R, F>(*version_ordering),
                projection: package::keys(maximized_packages@),
            },
            start.listed(),
            machine::choices_told(old(observer).log().len() as int, final(observer).log()),
            r,
        ),
        observer::probes::<DP::P, DP::VS, DP::M, O>(old(observer).log(), final(observer).log()),
        problem::are_answers(*dependency_provider, old(observer).log(), final(observer).log()),
        r matches Ok(top) ==> top@ == start@ || observer::tells_selection(
            old(observer).log(),
            final(observer).log(),
            top@,
        ),
        r matches Ok(top) ==> path::climbs_to::<DP::P, DP::VS, DP::M, O>(
            old(observer).log(),
            final(observer).log(),
            start@,
            top@,
        ),
        path::are_stretches::<DP, O>(
            *dependency_provider,
            root_package@,
            *root_version,
            old(observer).log(),
            final(observer).log(),
        ),
        r matches Ok(top) ==> is_climb(
            package::keys(maximized_packages@),
            observer::upgrades(old(observer).log().len() as int, final(observer).log()),
            top@,
        ),
        r is Ok || !r->Err_0.raised_by(*dependency_provider) ==> observer::no_probe_failed(
            old(observer).log(),
            final(observer).log(),
        ),
        ({
            let o = ordering::precedence::<DP::VS, E, R, F>(*version_ordering);
            let projection = package::keys(maximized_packages@);
            let demands = term::parts(required_terms@);
            match r {
                Ok(top) => {
                    &&& is_peak(
                        *dependency_provider,
                        root_package@,
                        *root_version,
                        demands,
                        o,
                        projection,
                        top@,
                    )
                    &&& are_at_best(
                        projection,
                        top@,
                        old(observer).log(),
                        final(observer).log(),
                    )
                    &&& forall|number: spec_fn(VersionOf<DP>) -> int| #[trigger]
                        o.numbered(finite::offered_versions(*dependency_provider), number)
                            ==> o.climbs(projection, start@, top@, number)
                },
                Err(error) => finds_flaw(
                    *dependency_provider,
                    root_package@,
                    *root_version,
                    demands,
                    o,
                    projection,
                    error,
                ) || (error.raised_by(*dependency_provider) && dependency_provider.may_fail()),
            }
        }),
{
    let ghost dp = *dependency_provider;
    let ghost root = root_package@;
    let ghost version = *root_version;
    let ghost o = ordering::precedence::<DP::VS, E, R, F>(*version_ordering);
    let ghost projection = package::keys(maximized_packages@);
    let ghost demands = term::parts(required_terms@);
    let ghost log = observer.log();
    let ghost from = start@;
    let ghost begun = start.listed();
    let ghost quest = Quest { dp, root, version, demands, o, projection };
    let ghost versions = finite::offered_versions(dp);
    let ghost number = choose|number: spec_fn(VersionOf<DP>) -> int| #[trigger]
        o.numbered(versions, number);
    let ghost n = projection.len() as int;
    proof {
        quest.begins_climb(begun, machine::choices_told(log.len() as int, log));
        observer::lemma_leads_nowhere::<DP::P, DP::VS, DP::M, O>(log);
        path::lemma_nothing_announced::<DP::P, DP::VS, DP::M, O>(log, from);
        path::lemma_no_stretch::<DP, O>(dp, root, version, log, log);
        finite::lemma_offered_versions_finite(dp);
    }
    let mut solution = start;
    let ghost mut chain = seq![from];
    assert(are_rounds(projection, observer::upgrades(log.len() as int, observer.log()), chain)) by {
        reveal_with_fuel(are_rounds, 1);
    }
    loop
        invariant
            dp == *dependency_provider,
            root == root_package@,
            version == *root_version,
            ordering::is_ordering::<DP::VS, E, R, F>(*version_ordering),
            o == ordering::precedence::<DP::VS, E, R, F>(*version_ordering),
            projection == package::keys(maximized_packages@),
            demands == term::parts(required_terms@),
            log == old(observer).log(),
            begun == start.listed(),
            quest == (Quest { dp, root, version, demands, o, projection }),
            quest.climbs_to(
                begun,
                Climb {
                    list: solution.listed(),
                    told: machine::choices_told(log.len() as int, observer.log()),
                    end: None,
                },
            ),
            observer::probes::<DP::P, DP::VS, DP::M, O>(log, observer.log()),
            observer::no_probe_failed(log, observer.log()),
            problem::are_answers(dp, log, observer.log()),
            solution@ == from || observer::tells_selection(log, observer.log(), solution@),
            path::climbs_to::<DP::P, DP::VS, DP::M, O>(log, observer.log(), from, solution@),
            path::are_stretches::<DP, O>(dp, root, version, log, observer.log()),
            are_rounds(projection, observer::upgrades(log.len() as int, observer.log()), chain),
            chain.len() > 0,
            chain.last() == solution@,
            o.numbered(versions, number),
            versions == finite::offered_versions(dp),
            versions.finite(),
            n == projection.len(),
            from == start@,
            qualifies(dp, root, version, demands, solution@),
            forall|number: spec_fn(VersionOf<DP>) -> int| #[trigger]
                o.numbered(versions, number) ==> o.climbs(projection, from, solution@, number),
        decreases finite::room_left(versions, number, projection, solution@, n),
    {
        let ghost standing = Climb {
            list: solution.listed(),
            told: machine::choices_told(log.len() as int, observer.log()),
            end: None,
        };
        if let Err(error) = validate_version_ordering::<DP, E, R, F>(
            &solution,
            maximized_packages,
            version_ordering,
        ) {
            proof {
                let failed = Climb {
                    end: Some(
                        run::outcome(
                            Err::<SelectedDependencies<DP::P, VersionOf<DP>>, PubGrubError<DP>>(
                                error,
                            ),
                        ),
                    ),
                    ..standing
                };
                quest.goes_on_climbing(begun, standing, failed);
            }
            return Err(error);
        }
        let ghost told = observer.log();
        let found = find_dominating_solution(
            dependency_provider,
            &solution,
            root_package,
            root_version,
            maximized_packages,
            version_ordering,
            required_terms,
            observer,
        );
        proof {
            lemma_probes_chain::<DP, O>(log, told, observer.log());
            quest.climbs_round(
                begun,
                standing,
                found_as(found),
                machine::choices_told(told.len() as int, observer.log()),
            );
            machine::lemma_choices_chain(log.len() as int, told, observer.log());
            path::lemma_stretches_chain::<DP, O>(dp, root, version, log, told, observer.log());
            problem::lemma_answers_chain(dp, log, told, observer.log());
            if solution@ != from {
                observer::lemma_selection_later(log, log, told, observer.log(), solution@);
            }
            if let Ok(Some(better)) = &found {
                observer::lemma_selection_later(log, told, observer.log(), observer.log(), better@);
            }
            if let Ok(next) = &found {
                path::lemma_climbs_chain::<DP::P, DP::VS, DP::M, O>(
                    log,
                    told,
                    observer.log(),
                    from,
                    solution@,
                    match next {
                        Some(better) => better@,
                        None => solution@,
                    },
                );
            }
            if found is Ok {
                lemma_no_failure(log, told, observer.log());
            }
        }
        match found {
            Err(error) => {
                return Err(error);
            },
            Ok(None) => {
                proof {
                    lemma_at_best_later(
                        projection,
                        solution@,
                        log,
                        told,
                        observer.log(),
                        observer.log(),
                    );
                    let rounds = observer::upgrades(log.len() as int, told);
                    assert(are_rounds(projection, rounds, chain));
                    reveal(is_climb);
                }
                return Ok(solution);
            },
            Ok(Some(better)) => {
                let ghost before = solution@;
                solution = better;
                proof {
                    let after = solution@;
                    let last = observer::upgrades(told.len() as int, observer.log());
                    assert(is_round(projection, before, last));
                    lemma_one_more_round(
                        projection,
                        observer::upgrades(log.len() as int, told),
                        chain,
                        last,
                        after,
                    );
                    chain = chain.push(after);
                    lemma_offered(dp, root, version, demands, before);
                    lemma_offered(dp, root, version, demands, after);
                    assert forall|number: spec_fn(VersionOf<DP>) -> int| #[trigger]
                        o.numbered(versions, number) implies o.climbs(
                        projection,
                        from,
                        after,
                        number,
                    ) by {
                        ordering::lemma_climb(o, versions, projection, from, before, after, number);
                    }
                    ordering::lemma_climb(o, versions, projection, from, before, after, number);
                    assert forall|k: Key<DP>| #[trigger] after.dom().contains(
                        k,
                    ) implies versions.contains(after[k]) by {
                        assert(problem::fits(dp, after, k));
                        assert(dp.offers(k, after[k]));
                    }
                    finite::lemma_room_left(versions, number, projection, before, after, n);
                    let k = choose|k: Key<DP>| #[trigger]
                        before.dom().contains(k) && projection.contains(k) && number(after[k])
                            > number(before[k]);
                    let i = choose|i: int| 0 <= i < projection.len() && projection[i] == k;
                    assert(before.dom().contains(projection[i]));
                }
            },
        }
    }
}

proof fn lemma_probes_chain<DP: DependencyProvider, O: SolverObserver<DP::P, DP::VS, DP::M>>(
    a: Seq<Observed<Key<DP>, VersionOf<DP>>>,
    b: Seq<Observed<Key<DP>, VersionOf<DP>>>,
    c: Seq<Observed<Key<DP>, VersionOf<DP>>>,
)
    requires
        observer::probes::<DP::P, DP::VS, DP::M, O>(a, b),
        observer::probes::<DP::P, DP::VS, DP::M, O>(b, c),
    ensures
        observer::probes::<DP::P, DP::VS, DP::M, O>(a, c),
        a.len() <= b.len(),
        b.is_prefix_of(c),
        c.is_prefix_of(c),
        observer::upgrades(a.len() as int, c) == observer::upgrades(a.len() as int, b)
            + observer::upgrades(b.len() as int, c),
{
    assert forall|run: u64| #[trigger]
        observer::leads::<DP::P, DP::VS, DP::M, O>(
            a,
            c,
            observer::idle(run),
            observer::idle(run),
            0,
        ) by {
        let idle = observer::idle::<Key<DP>>(run);
        assert(observer::leads::<DP::P, DP::VS, DP::M, O>(a, b, idle, idle, 0));
        assert(observer::leads::<DP::P, DP::VS, DP::M, O>(b, c, idle, idle, 0));
        observer::lemma_leads_chain::<DP::P, DP::VS, DP::M, O>(a, b, c, idle, idle, idle, 0, 0);
    }
    let idle = observer::idle::<Key<DP>>(0);
    assert(observer::leads::<DP::P, DP::VS, DP::M, O>(a, b, idle, idle, 0));
    assert(observer::leads::<DP::P, DP::VS, DP::M, O>(b, c, idle, idle, 0));
    observer::lemma_leads_prefix::<DP::P, DP::VS, DP::M, O>(a, b, idle, idle, 0);
    observer::lemma_leads_prefix::<DP::P, DP::VS, DP::M, O>(b, c, idle, idle, 0);
    reveal(observer::leads);
    observer::lemma_stage_chain(a, b, c, idle, idle);
}

/// The selection qualifies, the relations have no flaw at its projected versions, and nothing that
/// qualifies dominates it.
pub open spec fn is_peak<DP: DependencyProvider>(
    dp: DP,
    root: Key<DP>,
    version: VersionOf<DP>,
    demands: Clause<Key<DP>, VersionOf<DP>>,
    o: Precedence<VersionOf<DP>>,
    projection: Seq<Key<DP>>,
    s: Selection<DP>,
) -> bool {
    &&& qualifies(dp, root, version, demands, s)
    &&& o.flawless(projection, s)
    &&& forall|other: Selection<DP>| #[trigger]
        qualifies(dp, root, version, demands, other) ==> !o.dominates(projection, s, other)
}

/// Rule out all that the solution speaks for. Returns `false` where that is everything.
fn rule_out<
    DP: DependencyProvider,
    E: Fn(&VersionOf<DP>) -> DP::VS,
    R: Fn(&VersionOf<DP>) -> DP::VS,
    F: Fn(&VersionOf<DP>) -> DP::VS,
>(
    solver: &mut SolverState<DP>,
    retained: &SelectedDependencies<DP::P, VersionOf<DP>>,
    maximized_packages: &Vec<DP::P>,
    version_ordering: &VersionOrdering<E, R, F>,
) -> (r: bool)
    requires
        ordering::is_ordering::<DP::VS, E, R, F>(*version_ordering),
        old(solver).ok(),
    ensures
        final(solver).ok(),
        final(solver).root() == old(solver).root(),
        final(solver).version() == old(solver).version(),
        final(solver).decided() == old(solver).decided(),
        forall|dp: DP| old(solver).agrees(dp) ==> #[trigger] final(solver).agrees(dp),
        forall|dp: DP| old(solver).is_settled(dp) ==> #[trigger] final(solver).is_settled(dp),
        forall|quest: Quest<DP>|
            quest.o == ordering::precedence::<DP::VS, E, R, F>(*version_ordering)
                && quest.projection == package::keys(maximized_packages@) ==> {
                &&& final(solver).holdings() == #[trigger] quest.without(
                    old(solver).holdings(),
                    retained.listed(),
                )
                &&& r <==> machine::tidied(quest.aims_at(Goal::Repeat, retained.listed())).len()
                    > 0
            },
        ({
            let o = ordering::precedence::<DP::VS, E, R, F>(*version_ordering);
            let projection = package::keys(maximized_packages@);
            &&& r ==> forall|s: Selection<DP>| #[trigger]
                problem::avoids(final(solver).exclusions(), s) <==> problem::avoids(
                    old(solver).exclusions(),
                    s,
                ) && !o.speaks_for(projection, retained@, s)
            &&& !r ==> forall|s: Selection<DP>| #[trigger] o.speaks_for(projection, retained@, s)
        }),
{
    let ghost o = ordering::precedence::<DP::VS, E, R, F>(*version_ordering);
    let ghost projection = package::keys(maximized_packages@);
    let ghost start = *solver;
    let aim = Aim::Repeat;
    let exact = aimed_terms(&aim, retained, maximized_packages, version_ordering);
    let ghost clause = term::parts(exact@);
    if !solver.add_solution_exclusion(exact) {
        proof {
            assert forall|s: Selection<DP>| #[trigger] o.speaks_for(projection, retained@, s) by {
                assert(search::violates(clause, s));
                lemma_goal(o, projection, retained@, s, arbitrary());
            }
        }
        return false;
    }
    let pairs = retained.iter();
    let ghost first = *solver;
    let ghost list = retained.listed();
    assert(list.len() == pairs@.len());
    proof {
        selected::lemma_pairs_map(pairs@);
        assert forall|s: Selection<DP>| #[trigger]
            problem::avoids(first.exclusions(), s) <==> problem::avoids(start.exclusions(), s)
            && !o.repeats(projection, retained@, s) by {
            lemma_avoids_push(start.exclusions(), clause, s);
            lemma_goal(o, projection, retained@, s, arbitrary());
        }
    }
    let mut i: usize = 0;
    while i < pairs.len()
        invariant
            ordering::is_ordering::<DP::VS, E, R, F>(*version_ordering),
            o == ordering::precedence::<DP::VS, E, R, F>(*version_ordering),
            projection == package::keys(maximized_packages@),
            solver.ok(),
            list == selected::keyed(pairs@),
            list == retained.listed(),
            list.len() == pairs@.len(),
            forall|quest: Quest<DP>|
                quest.o == o && quest.projection == projection ==> solver.holdings()
                    == #[trigger] quest.falling(first.holdings(), list, i as int),
            solver.root() == start.root(),
            solver.version() == start.version(),
            solver.decided() == start.decided(),
            forall|dp: DP| start.agrees(dp) ==> #[trigger] solver.agrees(dp),
            forall|dp: DP| start.is_settled(dp) ==> #[trigger] solver.is_settled(dp),
            i <= pairs@.len(),
            forall|j: int|
                0 <= j < pairs@.len() ==> retained@.dom().contains((#[trigger] pairs@[j]).0@),
            forall|s: Selection<DP>| #[trigger]
                problem::avoids(solver.exclusions(), s) <==> problem::avoids(first.exclusions(), s)
                    && forall|j: int|
                    0 <= j < i ==> !o.falls_short(
                        projection,
                        retained@,
                        s,
                        (#[trigger] pairs@[j]).0@,
                    ),
        decreases pairs@.len() - i,
    {
        let ghost before = *solver;
        let ghost k = pairs@[i as int].0@;
        let wanted = holds_package(maximized_packages, &pairs[i].0);
        let ghost mut short = clause;
        if wanted {
            let aim = Aim::FallShort(&pairs[i].0);
            let terms = aimed_terms(&aim, retained, maximized_packages, version_ordering);
            proof {
                short = term::parts(terms@);
                assert(aim@ == Goal::FallShort(k));
                assert(retained@.dom().contains(k));
            }
            let added = solver.add_solution_exclusion(terms);
            proof {
                if !added {
                    let nothing = Map::<Key<DP>, VersionOf<DP>>::empty();
                    assert(search::violates(short, nothing));
                    lemma_goal(o, projection, retained@, nothing, k);
                    assert(false);
                }
            }
        }
        proof {
            assert forall|quest: Quest<DP>|
                quest.o == o && quest.projection == projection implies solver.holdings()
                == #[trigger] quest.falling(first.holdings(), list, i + 1) by {
                assert(before.holdings() == quest.falling(first.holdings(), list, i as int));
                assert(list[i as int].0 == k);
            }
            assert forall|s: Selection<DP>| #[trigger]
                problem::avoids(solver.exclusions(), s) <==> problem::avoids(first.exclusions(), s)
                && forall|j: int|
                0 <= j < i + 1 ==> !o.falls_short(
                    projection,
                    retained@,
                    s,
                    (#[trigger] pairs@[j]).0@,
                ) by {
                assert(problem::avoids(before.exclusions(), s) <==> problem::avoids(
                    first.exclusions(),
                    s,
                ) && forall|j: int|
                    0 <= j < i ==> !o.falls_short(
                        projection,
                        retained@,
                        s,
                        (#[trigger] pairs@[j]).0@,
                    ));
                if wanted {
                    lemma_avoids_push(before.exclusions(), short, s);
                    lemma_goal(o, projection, retained@, s, k);
                }
                assert(o.falls_short(projection, retained@, s, k) ==> wanted);
                if problem::avoids(solver.exclusions(), s) {
                    assert forall|j: int| 0 <= j < i + 1 implies !o.falls_short(
                        projection,
                        retained@,
                        s,
                        (#[trigger] pairs@[j]).0@,
                    ) by {
                        if j == i {
                            assert(pairs@[j].0@ == k);
                        }
                    }
                }
                if forall|j: int|
                    0 <= j < i + 1 ==> !o.falls_short(
                        projection,
                        retained@,
                        s,
                        (#[trigger] pairs@[j]).0@,
                    ) {
                    assert(!o.falls_short(projection, retained@, s, pairs@[i as int].0@));
                }
            }
        }
        i += 1;
    }
    proof {
        assert forall|s: Selection<DP>| #[trigger]
            problem::avoids(solver.exclusions(), s) <==> problem::avoids(start.exclusions(), s)
            && !o.speaks_for(projection, retained@, s) by {
            assert(problem::avoids(first.exclusions(), s) <==> problem::avoids(
                start.exclusions(),
                s,
            ) && !o.repeats(projection, retained@, s));
            if exists|k: Key<DP>| #[trigger] o.falls_short(projection, retained@, s, k) {
                let k = choose|k: Key<DP>| #[trigger] o.falls_short(projection, retained@, s, k);
                let j = choose|j: int|
                    0 <= j < pairs@.len() && (#[trigger] pairs@[j]).0@ == k && pairs@[j].1
                        == retained@[k];
                assert(o.falls_short(projection, retained@, s, pairs@[j].0@));
            }
        }
    }
    true
}

proof fn lemma_avoids_push<K, V>(exclusions: Seq<Clause<K, V>>, clause: Clause<K, V>, s: Map<K, V>)
    ensures
        problem::avoids(exclusions.push(clause), s) <==> problem::avoids(exclusions, s)
            && !search::violates(clause, s),
{
    let longer = exclusions.push(clause);
    if problem::avoids(longer, s) {
        assert forall|i: int| 0 <= i < exclusions.len() implies !search::violates(
            #[trigger] exclusions[i],
            s,
        ) by {
            assert(longer[i] == exclusions[i]);
        }
        assert(longer[exclusions.len() as int] == clause);
    }
    if problem::avoids(exclusions, s) && !search::violates(clause, s) {
        assert forall|i: int| 0 <= i < longer.len() implies !search::violates(
            #[trigger] longer[i],
            s,
        ) by {
            if i < exclusions.len() {
                assert(longer[i] == exclusions[i]);
            }
        }
    }
}

/// The versions of the selected packages of each solution.
pub open spec fn selections<P: Package, V>(
    solutions: Seq<SelectedDependencies<P, V>>,
) -> Seq<Map<P::V, V>> {
    Seq::new(solutions.len(), |i: int| solutions[i]@)
}

/// One of the selections speaks for the given one.
pub open spec fn spoken_for<K, V>(
    o: Precedence<V>,
    projection: Seq<K>,
    found: Seq<Map<K, V>>,
    s: Map<K, V>,
) -> bool {
    exists|i: int| 0 <= i < found.len() && o.speaks_for(projection, #[trigger] found[i], s)
}

/// The selection qualifies, none of those found before speaks for it, and the last one was reached
/// from it by upgrades.
pub open spec fn leads_to<DP: DependencyProvider>(
    dp: DP,
    root: Key<DP>,
    version: VersionOf<DP>,
    demands: Clause<Key<DP>, VersionOf<DP>>,
    o: Precedence<VersionOf<DP>>,
    projection: Seq<Key<DP>>,
    before: Seq<Selection<DP>>,
    s: Selection<DP>,
    last: Selection<DP>,
) -> bool {
    &&& qualifies(dp, root, version, demands, s)
    &&& !spoken_for(o, projection, before, s)
    &&& forall|number: spec_fn(VersionOf<DP>) -> int| #[trigger]
        o.numbered(finite::offered_versions(dp), number) ==> o.climbs(
            projection,
            s,
            last,
            number,
        )
}

/// The selection was reached by upgrades from where none of the earlier ones speaks for.
pub open spec fn is_reached<DP: DependencyProvider>(
    dp: DP,
    root: Key<DP>,
    version: VersionOf<DP>,
    demands: Clause<Key<DP>, VersionOf<DP>>,
    o: Precedence<VersionOf<DP>>,
    projection: Seq<Key<DP>>,
    found: Seq<Selection<DP>>,
    j: int,
) -> bool {
    exists|s: Selection<DP>| #[trigger]
        leads_to(dp, root, version, demands, o, projection, found.take(j), s, found[j])
}

/// The selections are peaks which nothing qualified dominates, together they speak for all that
/// qualifies, and each was reached from where none of the earlier ones speaks for.
pub open spec fn is_maximal_set<DP: DependencyProvider>(
    dp: DP,
    root: Key<DP>,
    version: VersionOf<DP>,
    demands: Clause<Key<DP>, VersionOf<DP>>,
    o: Precedence<VersionOf<DP>>,
    projection: Seq<Key<DP>>,
    found: Seq<Selection<DP>>,
) -> bool {
    &&& found.len() > 0
    &&& forall|i: int|
        0 <= i < found.len() ==> is_peak(
            dp,
            root,
            version,
            demands,
            o,
            projection,
            #[trigger] found[i],
        )
    &&& forall|s: Selection<DP>| #[trigger]
        qualifies(dp, root, version, demands, s) ==> spoken_for(o, projection, found, s)
    &&& forall|j: int|
        0 <= j < found.len() ==> #[trigger] is_reached(
            dp,
            root,
            version,
            demands,
            o,
            projection,
            found,
            j,
        )
}

/// The states of the projected packages in the solutions that are not ruled out.
spec fn open_rows<DP: DependencyProvider>(
    dp: DP,
    root: Key<DP>,
    version: VersionOf<DP>,
    projection: Seq<Key<DP>>,
    exclusions: Seq<Clause<Key<DP>, VersionOf<DP>>>,
) -> Set<Seq<Option<VersionOf<DP>>>> {
    Set::new(
        |row: Seq<Option<VersionOf<DP>>>|
            exists|s: Selection<DP>| #[trigger]
                problem::is_solution(dp, root, version, s) && problem::avoids(exclusions, s)
                    && finite::states_of(projection, s) == row,
    )
}

/// Whether a selection speaks for another one depends on the projected packages alone.
proof fn lemma_speaks_for_row<K, V>(
    o: Precedence<V>,
    projection: Seq<K>,
    s: Map<K, V>,
    a: Map<K, V>,
    b: Map<K, V>,
)
    requires
        finite::states_of(projection, a) == finite::states_of(projection, b),
        o.speaks_for(projection, s, a),
    ensures
        o.speaks_for(projection, s, b),
{
    assert forall|k: K| #[trigger] projection.contains(k) implies a.get(k) == b.get(k) by {
        let i = choose|i: int| 0 <= i < projection.len() && projection[i] == k;
        assert(finite::states_of(projection, a)[i] == finite::states_of(projection, b)[i]);
    }
    assert forall|k: K| #[trigger] projection.contains(k) implies {
        &&& a.dom().contains(k) == b.dom().contains(k)
        &&& a.dom().contains(k) ==> a[k] == b[k]
    } by {
        assert(a.get(k) == b.get(k));
    }
    if o.repeats(projection, s, a) {
        assert forall|k: K| #[trigger] s.dom().contains(k) && projection.contains(
            k,
        ) implies b.dom().contains(k) && (o.same)(s[k]).contains(b[k]) by {
            assert(a.dom().contains(k));
        }
        assert(o.repeats(projection, s, b));
    } else {
        let lower = choose|k: K| #[trigger] o.falls_short(projection, s, a, k);
        assert(o.falls_short(projection, s, b, lower));
    }
}

proof fn lemma_open_rows<DP: DependencyProvider>(
    dp: DP,
    root: Key<DP>,
    version: VersionOf<DP>,
    projection: Seq<Key<DP>>,
    before: Seq<Clause<Key<DP>, VersionOf<DP>>>,
    after: Seq<Clause<Key<DP>, VersionOf<DP>>>,
    o: Precedence<VersionOf<DP>>,
    top: Selection<DP>,
    s: Selection<DP>,
)
    requires
        problem::is_solution(dp, root, version, s),
        problem::avoids(before, s),
        o.speaks_for(projection, top, s),
        forall|t: Selection<DP>| #[trigger]
            problem::avoids(after, t) <==> problem::avoids(before, t) && !o.speaks_for(
                projection,
                top,
                t,
            ),
    ensures
        open_rows(dp, root, version, projection, after).len() < open_rows(
            dp,
            root,
            version,
            projection,
            before,
        ).len(),
{
    let n = projection.len();
    let many = open_rows(dp, root, version, projection, before);
    let fewer = open_rows(dp, root, version, projection, after);
    let states = finite::possible_states(finite::offered_versions(dp));
    finite::lemma_offered_versions_finite(dp);
    finite::lemma_possible_states_finite(finite::offered_versions(dp));
    finite::lemma_rows_finite(states, n);
    assert(many.subset_of(finite::rows(states, n))) by {
        assert forall|row: Seq<Option<VersionOf<DP>>>| #[trigger] many.contains(
            row,
        ) implies finite::rows(states, n).contains(row) by {
            let t = choose|t: Selection<DP>| #[trigger]
                problem::is_solution(dp, root, version, t) && problem::avoids(before, t)
                    && finite::states_of(projection, t) == row;
            assert forall|i: int| 0 <= i < row.len() implies states.contains(#[trigger] row[i]) by {
                let k = projection[i];
                if t.get(k) is Some {
                    assert(problem::fits(dp, t, k));
                    assert(dp.offers(k, t[k]));
                }
            }
        }
    }
    lemma_set_subset_finite(finite::rows(states, n), many);
    assert(fewer.subset_of(many)) by {
        assert forall|row: Seq<Option<VersionOf<DP>>>| #[trigger] fewer.contains(
            row,
        ) implies many.contains(row) by {
            let t = choose|t: Selection<DP>| #[trigger]
                problem::is_solution(dp, root, version, t) && problem::avoids(after, t)
                    && finite::states_of(projection, t) == row;
            assert(problem::avoids(before, t));
        }
    }
    let row = finite::states_of(projection, s);
    assert(many.contains(row));
    assert(!fewer.contains(row)) by {
        if fewer.contains(row) {
            let t = choose|t: Selection<DP>| #[trigger]
                problem::is_solution(dp, root, version, t) && problem::avoids(after, t)
                    && finite::states_of(projection, t) == row;
            lemma_speaks_for_row(o, projection, top, s, t);
        }
    }
    fewer.lemma_subset_not_in_lt(many, row);
}

/// The selection holds a projected package.
pub open spec fn holds_projected<K, V>(projection: Seq<K>, s: Map<K, V>) -> bool {
    exists|k: K| #[trigger] s.dom().contains(k) && projection.contains(k)
}

/// How many runs it takes to find the solutions: one for each of them, and one more that finds
/// nothing. That one is spared only where the last solution holds no projected package.
pub open spec fn is_run_count<K, V>(
    projection: Seq<K>,
    found: Seq<Map<K, V>>,
    runs: u64,
) -> bool {
    ||| runs == observer::run_number(found.len() as int + 1)
    ||| {
        &&& runs == observer::run_number(found.len() as int)
        &&& found.len() > 0
        &&& !holds_projected(projection, found.last())
    }
}

/// The log has grown by the runs that it takes to find the solutions, and by one solution for each.
pub open spec fn tells_runs<DP: DependencyProvider, O: SolverObserver<DP::P, DP::VS, DP::M>>(
    projection: Seq<Key<DP>>,
    before: Seq<Observed<Key<DP>, VersionOf<DP>>>,
    after: Seq<Observed<Key<DP>, VersionOf<DP>>>,
    found: Seq<Selection<DP>>,
) -> bool {
    exists|runs: u64| #[trigger]
        observer::reports::<DP::P, DP::VS, DP::M, O>(before, after, runs, found.len() as int)
            && is_run_count(projection, found, runs)
}

/// The log has grown by some solutions, one run for each, and one run more.
pub open spec fn tells_failure<DP: DependencyProvider, O: SolverObserver<DP::P, DP::VS, DP::M>>(
    before: Seq<Observed<Key<DP>, VersionOf<DP>>>,
    after: Seq<Observed<Key<DP>, VersionOf<DP>>>,
) -> bool {
    exists|found: Seq<Selection<DP>>| #[trigger]
        path::announces::<DP::P, DP::VS, DP::M, O>(before, after, found) && observer::reports::<
            DP::P,
            DP::VS,
            DP::M,
            O,
        >(before, after, observer::run_number(found.len() as int + 1), found.len() as int)
}

/// What an observer is told of an enumeration that finds the selections: complete runs and probes,
/// and one solution for each selection, in this order, where the decisions in force make the
/// selection. The probes are those that lead up to each of them in turn, and in the end the search
/// for an upgrade of every projected package is in vain.
pub open spec fn tells_solutions<
    DP: DependencyProvider,
    O: SolverObserver<DP::P, DP::VS, DP::M>,
>(
    projection: Seq<Key<DP>>,
    before: Seq<Observed<Key<DP>, VersionOf<DP>>>,
    after: Seq<Observed<Key<DP>, VersionOf<DP>>>,
    found: Seq<Selection<DP>>,
) -> bool {
    &&& tells_runs::<DP, O>(projection, before, after, found)
    &&& path::announces::<DP::P, DP::VS, DP::M, O>(before, after, found)
    &&& are_climbs(projection, observer::upgrades(before.len() as int, after), found)
    &&& forall|i: int|
        0 <= i < found.len() ==> observer::tells_selection(before, after, #[trigger] found[i])
    &&& forall|i: int|
        0 <= i < found.len() ==> are_at_best(projection, #[trigger] found[i], before, after)
}

/// What an observer is told of an enumeration: what belongs to the solutions that are returned, or
/// else complete runs and probes up to the failure. What is said of choices of versions is what the
/// provider answered, and within each run and each probe the steps can be retraced. A probe ends with an error only where that error is returned.
pub open spec fn tells_enumeration<
    DP: DependencyProvider,
    O: SolverObserver<DP::P, DP::VS, DP::M>,
>(
    dp: DP,
    root: Key<DP>,
    version: VersionOf<DP>,
    projection: Seq<Key<DP>>,
    before: Seq<Observed<Key<DP>, VersionOf<DP>>>,
    after: Seq<Observed<Key<DP>, VersionOf<DP>>>,
    r: Result<MaximalSolutions<DP::P, VersionOf<DP>>, PubGrubError<DP>>,
) -> bool {
    &&& problem::are_answers(dp, before, after)
    &&& path::are_stretches::<DP, O>(dp, root, version, before, after)
    &&& match r {
        Ok(solutions) => tells_solutions::<DP, O>(
            projection,
            before,
            after,
            selections(solutions@),
        ),
        Err(_) => tells_failure::<DP, O>(before, after),
    }
    &&& r is Ok || !r->Err_0.raised_by(dp) ==> observer::no_probe_failed(before, after)
}

/// The solutions as they are listed.
pub open spec fn listings<P: Package, V>(solutions: Seq<SelectedDependencies<P, V>>) -> Seq<
    Seq<(P::V, V)>,
> {
    Seq::new(solutions.len(), |i: int| solutions[i].listed())
}

/// What an enumeration returns and tells, where the provider is deterministic: what follows from what
/// is enumerated.
pub open spec fn is_enumeration<DP: DependencyProvider>(
    quest: Quest<DP>,
    told: Seq<Observed<Key<DP>, VersionOf<DP>>>,
    r: Result<MaximalSolutions<DP::P, VersionOf<DP>>, PubGrubError<DP>>,
) -> bool {
    exists|end: Search<Key<DP>, VersionOf<DP>>|
        {
            &&& #[trigger] quest.comes_to(end)
            &&& end.told == told
            &&& end.end == Some(run::outcome(r))
            &&& r matches Ok(solutions) ==> end.found == listings(solutions@)
        }
}

/// Finds solutions that meet the required terms and that no other such solution dominates, until
/// they speak for all of them.
#[verifier::rlimit(100)]
pub fn enumerate_maximal_solutions_with_constraints<
    DP: DependencyProvider,
    E: Fn(&VersionOf<DP>) -> DP::VS,
    R: Fn(&VersionOf<DP>) -> DP::VS,
    F: Fn(&VersionOf<DP>) -> DP::VS,
    O: SolverObserver<DP::P, DP::VS, DP::M>,
>(
    dependency_provider: &DP,
    root_package: &DP::P,
    root_version: &VersionOf<DP>,
    maximized_packages: &Vec<DP::P>,
    version_ordering: &VersionOrdering<E, R, F>,
    required_terms: &Vec<(DP::P, Term<DP::VS>)>,
    observer: &mut O,
) -> (r: Result<MaximalSolutions<DP::P, VersionOf<DP>>, PubGrubError<DP>>)
    requires
        ordering::is_ordering::<DP::VS, E, R, F>(*version_ordering),
        ordering::precedence::<DP::VS, E, R, F>(*version_ordering).is_ranked(
            finite::offered_versions(*dependency_provider),
        ),
    ensures
        is_enumeration(
            Quest {
                dp: *dependency_provider,
                root: root_package@,
                version: *root_version,
                demands: term::parts(required_terms@),
                o: ordering::precedence::<DP::VS, E, R, F>(*version_ordering),
                projection: package::keys(maximized_packages@),
            },
            machine::choices_told(old(observer).log().len() as int, final(observer).log()),
            r,
        ),
        ({
            let o = ordering::precedence::<DP::VS, E, R, F>(*version_ordering);
            let projection = package::keys(maximized_packages@);
            let demands = term::parts(required_terms@);
            match r {
                Ok(solutions) => {
                    &&& is_maximal_set(
                        *dependency_provider,
                        root_package@,
                        *root_version,
                        demands,
                        o,
                        projection,
                        selections(solutions@),
                    )
                },
                Err(error) => {
                    &&& {
                        ||| error.proves_no_solution(
                            *dependency_provider,
                            root_package@,
                            *root_version,
                            run::forced_clauses(root_package@, *root_version, demands),
                        )
                        ||| finds_flaw(
                            *dependency_provider,
                            root_package@,
                            *root_version,
                            demands,
                            o,
                            projection,
                            error,
                        )
                        ||| error.raised_by(*dependency_provider) && dependency_provider.may_fail()
                    }
                },
            }
        }),
        tells_enumeration::<DP, O>(
            *dependency_provider,
            root_package@,
            *root_version,
            package::keys(maximized_packages@),
            old(observer).log(),
            final(observer).log(),
            r,
        ),
        error::heeds_cancellation(*dependency_provider, r),
{
    let ghost dp = *dependency_provider;
    let ghost root = root_package@;
    let ghost version = *root_version;
    let ghost o = ordering::precedence::<DP::VS, E, R, F>(*version_ordering);
    let ghost projection = package::keys(maximized_packages@);
    let ghost demands = term::parts(required_terms@);
    let ghost forced = run::forced_clauses(root, version, demands);
    let ghost log = observer.log();
    let mut solver: SolverState<DP> = SolverState::new(
        root_package.duplicate(),
        root_version.duplicate(),
    );
    assert(solver.agrees(dp));
    solver.force_terms(required_terms);
    assert(solver.agrees(dp));
    let mut solutions: MaximalSolutions<DP::P, VersionOf<DP>> = Vec::new();
    let mut run: u64 = 0;
    let ghost quest = Quest { dp, root, version, demands, o, projection };
    proof {
        assert(demands + Seq::empty() =~= demands);
        quest.begins_search(
            Search {
                core: solver.holdings(),
                found: listings(solutions@),
                run,
                told: machine::choices_told(log.len() as int, log),
                end: None,
            },
        );
        observer::lemma_leads_nowhere::<DP::P, DP::VS, DP::M, O>(log);
        path::lemma_nothing_announced::<DP::P, DP::VS, DP::M, O>(log, Map::empty());
        path::lemma_no_stretch::<DP, O>(dp, root, version, log, log);
        assert(solver.decided() =~= Seq::empty());
        assert(selections(solutions@) =~= Seq::empty());
        assert(are_climbs(
            projection,
            observer::upgrades(log.len() as int, log),
            selections(solutions@),
        )) by {
            reveal_with_fuel(are_climbs, 1);
        }
        assert(solver.exclusions() =~= forced);
        assert forall|s: Selection<DP>| s.get(root) == Some(version) implies (
        #[trigger] problem::avoids(solver.exclusions(), s) <==> search::violates(demands, s)
            && !spoken_for(o, projection, selections(solutions@), s)) by {
            run::lemma_forced(root, version, demands, s);
        }
    }
    loop
        invariant
            dp == *dependency_provider,
            root == root_package@,
            version == *root_version,
            ordering::is_ordering::<DP::VS, E, R, F>(*version_ordering),
            o == ordering::precedence::<DP::VS, E, R, F>(*version_ordering),
            o.is_ranked(finite::offered_versions(dp)),
            projection == package::keys(maximized_packages@),
            demands == term::parts(required_terms@),
            forced == run::forced_clauses(root, version, demands),
            log == old(observer).log(),
            quest == (Quest { dp, root, version, demands, o, projection }),
            quest.comes_to(
                Search {
                    core: solver.holdings(),
                    found: listings(solutions@),
                    run,
                    told: machine::choices_told(log.len() as int, observer.log()),
                    end: None,
                },
            ),
            observer::reports::<DP::P, DP::VS, DP::M, O>(
                log,
                observer.log(),
                run,
                solutions@.len() as int,
            ),
            run == observer::run_number(solutions@.len() as int),
            observer::no_probe_failed(log, observer.log()),
            problem::are_answers(dp, log, observer.log()),
            path::are_stretches::<DP, O>(dp, root, version, log, observer.log()),
            run::knows_decisions(Seq::empty(), solver.decided(), log, observer.log()),
            path::holds_runs::<DP::P, DP::VS, DP::M, O>(solver.decided(), log, observer.log()),
            path::announces::<DP::P, DP::VS, DP::M, O>(
                log,
                observer.log(),
                selections(solutions@),
            ),
            are_climbs(
                projection,
                observer::upgrades(log.len() as int, observer.log()),
                selections(solutions@),
            ),
            forall|i: int|
                0 <= i < solutions@.len() ==> observer::tells_selection(
                    log,
                    observer.log(),
                    #[trigger] selections(solutions@)[i],
                ),
            forall|i: int|
                0 <= i < solutions@.len() ==> are_at_best(
                    projection,
                    #[trigger] selections(solutions@)[i],
                    log,
                    observer.log(),
                ),
            solver.wf(dp),
            solver.is_settled(dp),
            solver.root() == root,
            solver.version() == version,
            solutions@.len() == 0 ==> solver.exclusions() == forced,
            forall|s: Selection<DP>|
                s.get(root) == Some(version) ==> (#[trigger] problem::avoids(
                    solver.exclusions(),
                    s,
                ) <==> search::violates(demands, s) && !spoken_for(
                    o,
                    projection,
                    selections(solutions@),
                    s,
                )),
            forall|i: int|
                0 <= i < solutions@.len() ==> is_peak(
                    dp,
                    root,
                    version,
                    demands,
                    o,
                    projection,
                    #[trigger] selections(solutions@)[i],
                ),
            forall|j: int|
                0 <= j < solutions@.len() ==> #[trigger] is_reached(
                    dp,
                    root,
                    version,
                    demands,
                    o,
                    projection,
                    selections(solutions@),
                    j,
                ),
        decreases open_rows(dp, root, version, projection, solver.exclusions()).len(),
    {
        let ghost found = selections(solutions@);
        let ghost count = solutions@.len() as int;
        let ghost before = solver.exclusions();
        let ghost earlier = observer.log();
        let ghost last_run = run;
        let ghost standing = Search {
            core: solver.holdings(),
            found: listings(solutions@),
            run,
            told: machine::choices_told(log.len() as int, observer.log()),
            end: None,
        };
        run = next_run(run);
        let ghost made = solver.decided();
        let ghost resting = solver;
        let event = SolverEvent::EnumerationRunStarted { run };
        let ghost begun = event.observed();
        observer.on_event(event);
        let result = solver.run_until_solution(dependency_provider, observer);
        let ghost heard = observer.log();
        let event = SolverEvent::EnumerationRunFinished { run };
        let ghost ended = event.observed();
        observer.on_event(event);
        let ghost told = observer.log();
        proof {
            lemma_run::<DP, O>(dp, log, earlier, begun, heard, ended, last_run, run, count);
            quest.makes_run(
                standing,
                log.len() as int,
                earlier,
                run,
                heard,
                solver.holdings(),
                run::outcome(result),
            );
            lemma_knows_later::<DP>(made, solver.decided(), log, earlier, begun, heard, told);
            path::lemma_stretch::<DP, O>(
                dp,
                resting,
                earlier,
                begun,
                heard,
                ended,
                solver.decided(),
            );
            path::lemma_stretches_chain::<DP, O>(dp, root, version, log, earlier, told);
            path::lemma_runs_walked::<DP::P, DP::VS, DP::M, O>(
                log,
                earlier,
                run,
                heard,
                made,
                solver.decided(),
            );
            path::lemma_announced_later::<DP::P, DP::VS, DP::M, O>(log, earlier, told, found);
            if let Ok(solution) = &result {
                assert forall|k: Key<DP>| #[trigger]
                    solution@.dom().contains(k) implies observer::is_decided(
                    log,
                    told,
                    k,
                    solution@[k],
                ) by {
                    assert(solver.decided().contains((k, solution@[k])));
                }
                assert(observer::tells_selection(log, told, solution@));
                assert(path::cover(solver.decided(), solution@));
                assert(path::in_force::<DP::P, DP::VS, DP::M, O>(log, told, solution@));
            }
            assert forall|i: int| 0 <= i < solutions@.len() implies observer::tells_selection(
                log,
                told,
                #[trigger] selections(solutions@)[i],
            ) by {
                observer::lemma_selection_later(
                    log,
                    log,
                    earlier,
                    told,
                    selections(solutions@)[i],
                );
            }
            assert forall|i: int| 0 <= i < solutions@.len() implies are_at_best(
                projection,
                #[trigger] selections(solutions@)[i],
                log,
                told,
            ) by {
                lemma_at_best_later(projection, selections(solutions@)[i], log, log, earlier, told);
            }
        }
        assert(tells_failure::<DP, O>(log, told)) by {
            assert(observer::reports::<DP::P, DP::VS, DP::M, O>(
                log,
                told,
                observer::run_number(count + 1),
                count,
            ));
        }
        assert(tells_runs::<DP, O>(projection, log, told, found)) by {
            assert(observer::reports::<DP::P, DP::VS, DP::M, O>(
                log,
                told,
                run,
                found.len() as int,
            ));
            assert(is_run_count(projection, found, run));
        }
        let solution = match result {
            Ok(solution) => solution,
            Err(error) => {
                if let PubGrubError::NoSolution(_) = &error {
                    if solutions.len() > 0 {
                        proof {
                            error::lemma_proves_no_solution(
                                error,
                                dp,
                                root,
                                version,
                                before,
                            );
                            assert forall|s: Selection<DP>| #[trigger]
                                qualifies(dp, root, version, demands, s) implies spoken_for(
                                o,
                                projection,
                                found,
                                s,
                            ) by {
                                if !spoken_for(o, projection, found, s) {
                                    assert(problem::avoids(before, s));
                                    assert(problem::is_solution(dp, root, version, s));
                                }
                            }
                        }
                        return Ok(solutions);
                    }
                }
                return Err(error);
            },
        };
        let ghost s = solution@;
        let ghost list = solution.listed();
        let ghost turning = Search {
            core: solver.holdings(),
            run,
            told: machine::choices_told(log.len() as int, told),
            ..standing
        };
        assert(qualifies(dp, root, version, demands, s));
        assert(!spoken_for(o, projection, found, s));
        if maximized_packages.len() == 0 {
            let event = SolverEvent::Solution;
            observer.on_event(event);
            proof {
                lemma_solution_told::<DP, O>(dp, log, told, run, count);
                quest.takes_only(turning, list);
                machine::lemma_choice_told(log.len() as int, told, event.observed());
                observer::lemma_selection_later(log, log, told, observer.log(), s);
                path::lemma_no_stretch::<DP, O>(dp, root, version, told, observer.log());
                path::lemma_stretches_chain::<DP, O>(dp, root, version, log, told, observer.log());
                path::lemma_announced_push::<DP::P, DP::VS, DP::M, O>(
                    log,
                    told,
                    solver.decided(),
                    found,
                    s,
                );
            }
            let mut only: MaximalSolutions<DP::P, VersionOf<DP>> = Vec::new();
            only.push(solution);
            proof {
                assert(projection =~= Seq::empty());
                if count > 0 {
                    assert(o.repeats(projection, found[0], s));
                    assert(o.speaks_for(projection, found[0], s));
                }
                let single = selections(only@);
                assert(listings(only@) =~= seq![list]);
                assert(single[0] == s);
                assert(count == 0);
                assert(single.last() == s);
                assert(single =~= found.push(s));
                let tried = observer::upgrades(log.len() as int, told);
                lemma_no_climb(s);
                lemma_one_more_climb(projection, tried, found, Seq::empty(), s);
                assert(tried + Seq::empty() =~= tried);
                assert(tells_runs::<DP, O>(projection, log, observer.log(), single)) by {
                    assert(observer::reports::<DP::P, DP::VS, DP::M, O>(
                        log,
                        observer.log(),
                        run,
                        single.len() as int,
                    ));
                    assert(is_run_count(projection, single, run));
                }
                assert(is_peak(dp, root, version, demands, o, projection, s));
                assert forall|t: Selection<DP>| #[trigger]
                    qualifies(dp, root, version, demands, t) implies spoken_for(
                    o,
                    projection,
                    single,
                    t,
                ) by {
                    assert(o.repeats(projection, single[0], t));
                    assert(o.speaks_for(projection, single[0], t));
                }
                assert(leads_to(
                    dp,
                    root,
                    version,
                    demands,
                    o,
                    projection,
                    single.take(0),
                    s,
                    single[0],
                ));
            }
            return Ok(only);
        }
        let climbed = climb(
            dependency_provider,
            solution,
            root_package,
            root_version,
            maximized_packages,
            version_ordering,
            required_terms,
            observer,
        );
        proof {
            let idle = observer::idle::<Key<DP>>(run);
            assert(observer::leads::<DP::P, DP::VS, DP::M, O>(
                told,
                observer.log(),
                idle,
                idle,
                0,
            ));
            observer::lemma_leads_chain::<DP::P, DP::VS, DP::M, O>(
                log,
                told,
                observer.log(),
                observer::idle(0),
                idle,
                idle,
                count,
                0,
            );
            observer::lemma_leads_prefix::<DP::P, DP::VS, DP::M, O>(
                told,
                observer.log(),
                idle,
                idle,
                0,
            );
            path::lemma_stretches_chain::<DP, O>(dp, root, version, log, told, observer.log());
            machine::lemma_choices_chain(log.len() as int, told, observer.log());
            lemma_same_total::<DP, O>(told, observer.log(), run);
            lemma_upgrades_chain::<DP, O>(log, told, observer.log(), run, count);
            path::lemma_announced_later::<DP::P, DP::VS, DP::M, O>(
                log,
                told,
                observer.log(),
                found,
            );
            assert(tells_failure::<DP, O>(log, observer.log())) by {
                assert(observer::reports::<DP::P, DP::VS, DP::M, O>(
                    log,
                    observer.log(),
                    observer::run_number(count + 1),
                    count,
                ));
            }
            problem::lemma_answers_chain(dp, log, told, observer.log());
            if climbed is Ok || !climbed->Err_0.raised_by(dp) {
                lemma_no_failure(log, told, observer.log());
            }
        }
        let ghost ascended = choose|a: Climb<Key<DP>, VersionOf<DP>>|
            {
                &&& #[trigger] quest.climbs_to(list, a)
                &&& a.told == machine::choices_told(told.len() as int, observer.log())
                &&& a.end == Some(run::outcome(climbed))
                &&& climbed matches Ok(top) ==> a.list == top.listed()
            };
        let top = match climbed {
            Ok(top) => top,
            Err(error) => {
                proof {
                    quest.fails_climb(turning, list, ascended);
                }
                return Err(error);
            },
        };
        let ghost peak = top@;
        let event = SolverEvent::Solution;
        let ghost climbed_log = observer.log();
        proof {
            let offered = finite::offered_versions(dp);
            let number = choose|number: spec_fn(VersionOf<DP>) -> int| #[trigger]
                o.numbered(offered, number);
            lemma_offered(dp, root, version, demands, s);
            lemma_offered(dp, root, version, demands, peak);
            ordering::lemma_speaks_for_start(o, offered, projection, s, peak, number);
        }
        observer.on_event(event);
        proof {
            lemma_solution_told::<DP, O>(dp, log, climbed_log, run, count);
            path::lemma_no_stretch::<DP, O>(dp, root, version, climbed_log, observer.log());
            path::lemma_stretches_chain::<DP, O>(
                dp,
                root,
                version,
                log,
                climbed_log,
                observer.log(),
            );
            lemma_one_more_climb(
                projection,
                observer::upgrades(log.len() as int, told),
                found,
                observer::upgrades(told.len() as int, climbed_log),
                peak,
            );
            path::lemma_climbed::<DP::P, DP::VS, DP::M, O>(
                log,
                told,
                climbed_log,
                solver.decided(),
                s,
                peak,
            );
            path::lemma_announced_push::<DP::P, DP::VS, DP::M, O>(
                log,
                climbed_log,
                solver.decided(),
                found,
                peak,
            );
            run::lemma_prefix_chain(told, climbed_log, observer.log());
            if peak == s {
                observer::lemma_selection_later(log, log, told, observer.log(), s);
            } else {
                observer::lemma_selection_later(log, told, climbed_log, observer.log(), peak);
            }
            lemma_still_knows::<DP>(solver.decided(), log, told, observer.log());
            machine::lemma_choice_told(log.len() as int, climbed_log, event.observed());
        }
        let more = rule_out(&mut solver, &top, maximized_packages, version_ordering);
        let ghost before_push = solutions@;
        solutions.push(top);
        proof {
            assert(solver.holdings() == quest.without(turning.core, ascended.list));
            quest.takes_top(turning, list, ascended, more);
            assert(listings(solutions@) =~= listings(before_push).push(ascended.list));
            let after = selections(solutions@);
            assert(after =~= found.push(peak));
            assert forall|i: int| 0 <= i < solutions@.len() implies observer::tells_selection(
                log,
                observer.log(),
                #[trigger] after[i],
            ) by {
                if i < count {
                    assert(after[i] == found[i]);
                    observer::lemma_selection_later(log, log, told, observer.log(), found[i]);
                }
            }
            assert forall|i: int| 0 <= i < solutions@.len() implies are_at_best(
                projection,
                #[trigger] after[i],
                log,
                observer.log(),
            ) by {
                if i < count {
                    assert(after[i] == found[i]);
                    lemma_at_best_later(projection, found[i], log, log, told, observer.log());
                } else {
                    lemma_at_best_later(
                        projection,
                        peak,
                        log,
                        told,
                        climbed_log,
                        observer.log(),
                    );
                }
            }
            assert forall|i: int| 0 <= i < solutions@.len() implies is_peak(
                dp,
                root,
                version,
                demands,
                o,
                projection,
                #[trigger] after[i],
            ) by {
                if i < count {
                    assert(after[i] == found[i]);
                }
            }
            assert forall|j: int| 0 <= j < solutions@.len() implies #[trigger] is_reached(
                dp,
                root,
                version,
                demands,
                o,
                projection,
                after,
                j,
            ) by {
                if j < count {
                    assert(after.take(j) =~= found.take(j));
                    assert(after[j] == found[j]);
                    assert(is_reached(dp, root, version, demands, o, projection, found, j));
                } else {
                    assert(after.take(j) =~= found);
                    assert(leads_to(
                        dp,
                        root,
                        version,
                        demands,
                        o,
                        projection,
                        after.take(j),
                        s,
                        after[j],
                    ));
                }
            }
            assert forall|t: Selection<DP>| #[trigger]
                spoken_for(o, projection, after, t) <==> spoken_for(o, projection, found, t)
                || o.speaks_for(projection, peak, t) by {
                lemma_spoken_for_push(o, projection, found, peak, t);
            }
        }
        if !more {
            proof {
                assert forall|t: Selection<DP>| #[trigger]
                    qualifies(dp, root, version, demands, t) implies spoken_for(
                    o,
                    projection,
                    selections(solutions@),
                    t,
                ) by {
                    assert(o.speaks_for(projection, peak, t));
                }
                assert(!holds_projected(projection, peak)) by {
                    let none = Map::<Key<DP>, VersionOf<DP>>::empty();
                    assert(o.speaks_for(projection, peak, none));
                    if holds_projected(projection, peak) {
                        let k = choose|k: Key<DP>| #[trigger]
                            peak.dom().contains(k) && projection.contains(k);
                        assert(!none.dom().contains(k));
                    }
                }
                assert(selections(solutions@).last() == peak);
                assert(tells_runs::<DP, O>(
                    projection,
                    log,
                    observer.log(),
                    selections(solutions@),
                )) by {
                    assert(observer::reports::<DP::P, DP::VS, DP::M, O>(
                        log,
                        observer.log(),
                        run,
                        selections(solutions@).len() as int,
                    ));
                    assert(is_run_count(projection, selections(solutions@), run));
                }
            }
            return Ok(solutions);
        }
        proof {
            lemma_open_rows(
                dp,
                root,
                version,
                projection,
                before,
                solver.exclusions(),
                o,
                peak,
                s,
            );
        }
    }
}

/// The events of one run.
proof fn lemma_run<DP: DependencyProvider, O: SolverObserver<DP::P, DP::VS, DP::M>>(
    dp: DP,
    log: Seq<Observed<Key<DP>, VersionOf<DP>>>,
    earlier: Seq<Observed<Key<DP>, VersionOf<DP>>>,
    begun: Observed<Key<DP>, VersionOf<DP>>,
    heard: Seq<Observed<Key<DP>, VersionOf<DP>>>,
    ended: Observed<Key<DP>, VersionOf<DP>>,
    last: u64,
    run: u64,
    count: int,
)
    requires
        observer::reports::<DP::P, DP::VS, DP::M, O>(log, earlier, last, count),
        run == observer::run_number(last + 1),
        begun == Observed::<Key<DP>, VersionOf<DP>>::EnumerationRunStarted(run),
        observer::follows_path::<DP::P, DP::VS, DP::M, O>(earlier.push(begun), heard),
        ended == Observed::<Key<DP>, VersionOf<DP>>::EnumerationRunFinished(run),
        observer::no_probe_failed(log, earlier),
        problem::are_answers(dp, log, earlier),
        problem::are_answers(dp, earlier.push(begun), heard),
    ensures
        problem::are_answers(dp, log, heard.push(ended)),
        observer::reports::<DP::P, DP::VS, DP::M, O>(log, heard.push(ended), run, count),
        observer::no_probe_failed(log, heard.push(ended)),
        earlier.is_prefix_of(heard.push(ended)),
        observer::total(earlier, observer::solution_weight()) == observer::total(
            heard.push(ended),
            observer::solution_weight(),
        ),
        heard.push(ended).drop_last() == heard,
        observer::upgrades(log.len() as int, heard.push(ended)) == observer::upgrades(
            log.len() as int,
            earlier,
        ),
        log.len() <= earlier.len(),
        log.len() <= heard.push(ended).len(),
{
    reveal(observer::leads);
    let told = earlier.push(begun);
    let after = heard.push(ended);
    problem::lemma_answers_push(dp, log, earlier, begun);
    problem::lemma_answers_chain(dp, log, told, heard);
    problem::lemma_answers_push(dp, log, heard, ended);
    let from = observer::idle::<Key<DP>>(0);
    let idle = observer::idle::<Key<DP>>(last);
    let running = observer::Stage { run, running: true, probe: None::<Key<DP>> };
    observer::lemma_leads_push::<DP::P, DP::VS, DP::M, O>(log, earlier, begun, from, idle, count);
    observer::lemma_leads_path::<DP::P, DP::VS, DP::M, O>(log, told, heard, from, running, count);
    observer::lemma_leads_push::<DP::P, DP::VS, DP::M, O>(log, heard, ended, from, running, count);
    assert forall|m: int| 0 <= m < earlier.len() implies earlier[m] == after[m] by {
        assert(told[m] == heard.subrange(0, told.len() as int)[m]);
    }
    assert(earlier =~= after.subrange(0, earlier.len() as int));
    assert(after.drop_last() =~= heard);
    assert(told.drop_last() =~= earlier);
    assert forall|i: int| log.len() <= i < after.len() implies match #[trigger] after[i] {
        Observed::MaximalityProbeFinished(_, result) => !(result is Error),
        Observed::PreferenceProbeFinished(_, result) => !(result is Error),
        _ => true,
    } by {
        if i < earlier.len() {
            assert(after[i] == earlier[i]);
        } else if i < heard.len() {
            assert(heard[i] == after[i]);
            if i < told.len() {
                assert(told[i] == heard.subrange(0, told.len() as int)[i]);
            } else {
                assert(observer::on_path(heard[i]));
            }
        }
    }
}

/// The probes after a run come after those before it.
proof fn lemma_upgrades_chain<DP: DependencyProvider, O: SolverObserver<DP::P, DP::VS, DP::M>>(
    log: Seq<Observed<Key<DP>, VersionOf<DP>>>,
    told: Seq<Observed<Key<DP>, VersionOf<DP>>>,
    after: Seq<Observed<Key<DP>, VersionOf<DP>>>,
    run: u64,
    count: int,
)
    requires
        observer::reports::<DP::P, DP::VS, DP::M, O>(log, told, run, count),
        told.is_prefix_of(after),
    ensures
        observer::upgrades(log.len() as int, after) == observer::upgrades(log.len() as int, told)
            + observer::upgrades(told.len() as int, after),
{
    reveal(observer::leads);
    observer::lemma_stage_chain(log, told, after, observer::idle(0), observer::idle(run));
}

/// Probes announce no solution.
proof fn lemma_same_total<DP: DependencyProvider, O: SolverObserver<DP::P, DP::VS, DP::M>>(
    before: Seq<Observed<Key<DP>, VersionOf<DP>>>,
    after: Seq<Observed<Key<DP>, VersionOf<DP>>>,
    run: u64,
)
    requires
        observer::leads::<DP::P, DP::VS, DP::M, O>(
            before,
            after,
            observer::idle(run),
            observer::idle(run),
            0,
        ),
    ensures
        observer::total(before, observer::solution_weight()) == observer::total(
            after,
            observer::solution_weight(),
        ),
{
    reveal(observer::leads);
}

/// What was told of decisions stays told.
proof fn lemma_still_knows<DP: DependencyProvider>(
    left: Seq<(Key<DP>, VersionOf<DP>)>,
    log: Seq<Observed<Key<DP>, VersionOf<DP>>>,
    told: Seq<Observed<Key<DP>, VersionOf<DP>>>,
    after: Seq<Observed<Key<DP>, VersionOf<DP>>>,
)
    requires
        run::knows_decisions(Seq::empty(), left, log, told),
        told.is_prefix_of(after),
    ensures
        run::knows_decisions(Seq::empty(), left, log, after),
{
    let nothing = Seq::<(Key<DP>, VersionOf<DP>)>::empty();
    assert forall|k: Key<DP>, v: VersionOf<DP>| #[trigger] left.contains((k, v)) implies
        nothing.contains((k, v)) || observer::is_decided(log, after, k, v) by {
        assert(!nothing.contains((k, v)));
        observer::lemma_decided_later(log, log, told, after, k, v);
    }
}

/// After a run the observer knows the decisions that are left.
proof fn lemma_knows_later<DP: DependencyProvider>(
    made: Seq<(Key<DP>, VersionOf<DP>)>,
    left: Seq<(Key<DP>, VersionOf<DP>)>,
    log: Seq<Observed<Key<DP>, VersionOf<DP>>>,
    earlier: Seq<Observed<Key<DP>, VersionOf<DP>>>,
    begun: Observed<Key<DP>, VersionOf<DP>>,
    heard: Seq<Observed<Key<DP>, VersionOf<DP>>>,
    told: Seq<Observed<Key<DP>, VersionOf<DP>>>,
)
    requires
        run::knows_decisions(Seq::empty(), made, log, earlier),
        run::knows_decisions(made, left, earlier.push(begun), heard),
        log.len() <= earlier.len(),
        earlier.is_prefix_of(told),
        told.len() > 0,
        told.drop_last() == heard,
    ensures
        run::knows_decisions(Seq::empty(), left, log, told),
{
    let nothing = Seq::<(Key<DP>, VersionOf<DP>)>::empty();
    assert(heard =~= told.subrange(0, heard.len() as int));
    assert forall|k: Key<DP>, v: VersionOf<DP>| #[trigger] left.contains((k, v)) implies
        nothing.contains((k, v)) || observer::is_decided(log, told, k, v) by {
        if made.contains((k, v)) {
            assert(!nothing.contains((k, v)));
            observer::lemma_decided_later(log, log, earlier, told, k, v);
        } else {
            observer::lemma_decided_later(log, earlier.push(begun), heard, told, k, v);
        }
    }
}

proof fn lemma_solution_told<DP: DependencyProvider, O: SolverObserver<DP::P, DP::VS, DP::M>>(
    dp: DP,
    log: Seq<Observed<Key<DP>, VersionOf<DP>>>,
    told: Seq<Observed<Key<DP>, VersionOf<DP>>>,
    run: u64,
    count: int,
)
    requires
        observer::reports::<DP::P, DP::VS, DP::M, O>(log, told, run, count),
        observer::no_probe_failed(log, told),
        problem::are_answers(dp, log, told),
    ensures
        problem::are_answers(dp, log, told.push(Observed::Solution)),
        observer::reports::<DP::P, DP::VS, DP::M, O>(
            log,
            told.push(Observed::Solution),
            run,
            count + 1,
        ),
        observer::no_probe_failed(log, told.push(Observed::Solution)),
        told.is_prefix_of(told.push(Observed::Solution)),
        observer::upgrades(log.len() as int, told.push(Observed::Solution)) == observer::upgrades(
            log.len() as int,
            told,
        ),
{
    reveal(observer::leads);
    let o = Observed::<Key<DP>, VersionOf<DP>>::Solution;
    let after = told.push(o);
    observer::lemma_leads_push::<DP::P, DP::VS, DP::M, O>(
        log,
        told,
        o,
        observer::idle(0),
        observer::idle(run),
        count,
    );
    assert(told =~= after.subrange(0, told.len() as int));
    assert(after.drop_last() =~= told);
    lemma_no_failure(log, told, after);
    problem::lemma_answers_push(dp, log, told, o);
}

proof fn lemma_spoken_for_push<K, V>(
    o: Precedence<V>,
    projection: Seq<K>,
    found: Seq<Map<K, V>>,
    last: Map<K, V>,
    s: Map<K, V>,
)
    ensures
        spoken_for(o, projection, found.push(last), s) <==> spoken_for(o, projection, found, s)
            || o.speaks_for(projection, last, s),
{
    let after = found.push(last);
    if spoken_for(o, projection, found, s) {
        let i = choose|i: int|
            0 <= i < found.len() && o.speaks_for(projection, #[trigger] found[i], s);
        assert(o.speaks_for(projection, after[i], s));
    }
    if o.speaks_for(projection, last, s) {
        assert(o.speaks_for(projection, after[found.len() as int], s));
    }
    if spoken_for(o, projection, after, s) {
        let i = choose|i: int|
            0 <= i < after.len() && o.speaks_for(projection, #[trigger] after[i], s);
        if i < found.len() {
            assert(o.speaks_for(projection, found[i], s));
        }
    }
}

} // verus!
