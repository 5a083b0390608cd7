//! What a resolution problem is, and what solves it.
//!
//! A problem is given by a dependency provider and a root package at some version. A selection maps
//! packages to versions; it solves the problem if it selects the root package at that version and
//! everything that it selects is offered, has its requirements met and its incompatibilities
//! avoided.

use vstd::prelude::*;

use crate::observer;
use crate::observer::{Cause, Observed};
use crate::package::Package;
use crate::provider;
use crate::provider::{Dependencies, DependencyProvider};
use crate::report::{DerivationTree, External};
use crate::search;
use crate::search::Clause;
use crate::term;
use crate::version_set::VersionSet;

verus! {

/// What identifies a package of the provider.
pub type Key<DP> = <<DP as DependencyProvider>::P as View>::V;

/// The versions of the provider.
pub type VersionOf<DP> = <<DP as DependencyProvider>::VS as VersionSet>::V;

/// A choice of packages with one version each.
pub type Selection<DP> = Map<Key<DP>, VersionOf<DP>>;

/// The selection holds the required package at one of the required versions.
pub open spec fn meets<K, V>(s: Map<K, V>, requirement: (K, Set<V>)) -> bool {
    s.get(requirement.0) matches Some(v) && requirement.1.contains(v)
}

/// The selected version of the package is offered, its dependencies are known and met, and nothing
/// that it is incompatible with holds.
pub open spec fn fits<DP: DependencyProvider>(dp: DP, s: Selection<DP>, k: Key<DP>) -> bool {
    &&& dp.offers(k, s[k])
    &&& dp.requirements(k, s[k]) is Some
    &&& forall|i: int|
        0 <= i < dp.requirements(k, s[k])->0.len() ==> meets(
            s,
            #[trigger] dp.requirements(k, s[k])->0[i],
        )
    &&& forall|i: int|
        0 <= i < dp.conflicts(k, s[k]).len() ==> !search::violates(
            #[trigger] dp.conflicts(k, s[k])[i],
            s,
        )
}

/// The selection solves the problem.
pub open spec fn is_solution<DP: DependencyProvider>(
    dp: DP,
    root: Key<DP>,
    version: VersionOf<DP>,
    s: Selection<DP>,
) -> bool {
    &&& s.get(root) == Some(version)
    &&& forall|k: Key<DP>| #[trigger] s.dom().contains(k) ==> fits(dp, s, k)
}

/// The problem has a solution.
pub open spec fn solvable<DP: DependencyProvider>(
    dp: DP,
    root: Key<DP>,
    version: VersionOf<DP>,
) -> bool {
    exists|s: Selection<DP>| #[trigger] is_solution(dp, root, version, s)
}

/// Nothing can be left out of the solution: no part of it is a solution.
pub open spec fn is_minimal<DP: DependencyProvider>(
    dp: DP,
    root: Key<DP>,
    version: VersionOf<DP>,
    s: Selection<DP>,
) -> bool {
    forall|part: Selection<DP>| #[trigger]
        is_solution(dp, root, version, part) && part.submap_of(s) ==> part == s
}

/// Only one of the packages that the clause speaks of may be absent where it is violated.
pub open spec fn is_definite<K, V>(clause: Clause<K, V>) -> bool {
    forall|i: int, j: int|
        0 <= i < clause.len() && 0 <= j < clause.len() && (#[trigger] clause[i]).1.contains(None)
            && (#[trigger] clause[j]).1.contains(None) ==> clause[i].0 == clause[j].0
}

/// No package version asks for one of several packages to be selected.
pub open spec fn asks_for_one<DP: DependencyProvider>(dp: DP) -> bool {
    forall|k: Key<DP>, v: VersionOf<DP>, i: int|
        0 <= i < dp.conflicts(k, v).len() ==> is_definite(#[trigger] dp.conflicts(k, v)[i])
}

/// None of the clauses is violated.
pub open spec fn avoids<K, V>(exclusions: Seq<Clause<K, V>>, s: Map<K, V>) -> bool {
    forall|i: int| 0 <= i < exclusions.len() ==> !search::violates(#[trigger] exclusions[i], s)
}

/// The root package is not selected at its version.
pub open spec fn root_clause<K, V>(root: K, version: V) -> Clause<K, V> {
    seq![(root, term::only(version).complement())]
}

/// The package version is selected.
pub open spec fn owner_clause<K, V>(k: K, v: V) -> Clause<K, V> {
    seq![(k, term::only(v))]
}

/// The package version is selected, and its requirement is not met.
pub open spec fn requirement_clause<K, V>(k: K, v: V, requirement: (K, Set<V>)) -> Clause<K, V> {
    seq![(k, term::only(v)), (requirement.0, term::selected_in(requirement.1).complement())]
}

/// The package version is selected, and something that it is incompatible with holds.
pub open spec fn conflict_clause<K, V>(k: K, v: V, conflict: Clause<K, V>) -> Clause<K, V> {
    seq![(k, term::only(v))] + conflict
}

/// The provider gave the reason why the package cannot be used at the version.
pub open spec fn is_reason<DP: DependencyProvider>(
    dp: DP,
    k: Key<DP>,
    v: VersionOf<DP>,
    reason: DP::M,
) -> bool {
    exists|p: DP::P|
        p@ == k && #[trigger] call_ensures(
            DP::get_dependencies,
            (&dp, &p, &v),
            Ok(Dependencies::Unavailable(reason)),
        )
}

/// The provider declared, for the package version and with the reason, that the clause must not
/// hold.
pub open spec fn is_declared<DP: DependencyProvider>(
    dp: DP,
    k: Key<DP>,
    v: VersionOf<DP>,
    conflict: Clause<Key<DP>, VersionOf<DP>>,
    reason: DP::M,
) -> bool {
    exists|p: DP::P, list: provider::IncompatibilityConstraints<DP::P, DP::VS, DP::M>, i: int|
        #![trigger call_ensures(DP::get_incompatibilities, (&dp, &p, &v), Ok(list)), list@[i]]
        {
            &&& p@ == k
            &&& call_ensures(DP::get_incompatibilities, (&dp, &p, &v), Ok(list))
            &&& 0 <= i < list@.len()
            &&& list@[i].clause() == conflict
            &&& list@[i].reason == reason
        }
}

/// The provider may give the answer when asked for a version of the package in the range.
pub open spec fn may_answer<DP: DependencyProvider>(
    dp: DP,
    k: Key<DP>,
    range: Set<VersionOf<DP>>,
    answer: Option<VersionOf<DP>>,
) -> bool {
    exists|p: DP::P, set: DP::VS|
        p@ == k && set@ == range && #[trigger] call_ensures(
            DP::choose_version,
            (&dp, &p, &set),
            Ok(answer),
        )
}

/// What is told of the cause is told of a sound tree that rests on what the provider says, on a root,
/// and on what was ruled out.
pub open spec fn is_genuine<DP: DependencyProvider>(
    dp: DP,
    cause: Cause<Key<DP>, VersionOf<DP>>,
) -> bool {
    exists|
        root: Key<DP>,
        version: VersionOf<DP>,
        exclusions: Seq<Clause<Key<DP>, VersionOf<DP>>>,
    | #[trigger]
        observer::is_told_of_tree(cause, facts(dp, root, version, exclusions))
}

/// What is told of a choice is what the provider answered, and what is told of a cause is genuine.
pub open spec fn is_answer<DP: DependencyProvider>(
    dp: DP,
    o: Observed<Key<DP>, VersionOf<DP>>,
) -> bool {
    match o {
        Observed::VersionChoice(k, v, allowed) => may_answer(dp, k, allowed, Some(v)),
        Observed::NoVersion(k, allowed) => may_answer(dp, k, allowed, None),
        Observed::Derivation(_, _, _, cause) => is_genuine(dp, cause),
        Observed::Conflict(cause) => is_genuine(dp, cause),
        Observed::Backtrack(_, _, cause) => is_genuine(dp, cause),
        _ => true,
    }
}

/// What the new events say of choices is what the provider answered.
pub open spec fn are_answers<DP: DependencyProvider>(
    dp: DP,
    before: Seq<Observed<Key<DP>, VersionOf<DP>>>,
    after: Seq<Observed<Key<DP>, VersionOf<DP>>>,
) -> bool {
    forall|i: int| before.len() <= i < after.len() ==> is_answer(dp, #[trigger] after[i])
}

/// The fact is one that the problem states, about offered versions, or one of the exclusions.
pub open spec fn is_fact<DP: DependencyProvider>(
    dp: DP,
    root: Key<DP>,
    version: VersionOf<DP>,
    exclusions: Seq<Clause<Key<DP>, VersionOf<DP>>>,
    fact: External<DP::P, DP::VS, DP::M>,
) -> bool {
    match fact {
        External::NotRoot(p, v) => p@ == root && v == version,
        External::NoVersions(p, set) => forall|v: VersionOf<DP>| #[trigger]
            set@.contains(v) ==> !dp.offers(p@, v),
        External::FromDependencyOf(p, set, q, required) => forall|v: VersionOf<DP>| #[trigger]
            set@.contains(v) ==> dp.offers(p@, v) && dp.requirements(p@, v) is Some
                && dp.requirements(p@, v)->0.contains((q@, required@)),
        External::Custom(p, set, reason) => forall|v: VersionOf<DP>| #[trigger]
            set@.contains(v) ==> dp.offers(p@, v) && dp.requirements(p@, v) is None && is_reason(
                dp,
                p@,
                v,
                reason,
            ),
        External::Incompatible { terms, reason } => exists|k: Key<DP>, v: VersionOf<DP>, i: int|
            0 <= i < dp.conflicts(k, v).len() && term::parts(terms@) == conflict_clause(
                k,
                v,
                #[trigger] dp.conflicts(k, v)[i],
            ) && dp.offers(k, v) && is_declared(dp, k, v, dp.conflicts(k, v)[i], reason),
        External::ExcludedSolution { terms } => exclusions.contains(term::parts(terms@)),
    }
}

/// The facts that the problem states, and the exclusions.
pub open spec fn facts<DP: DependencyProvider>(
    dp: DP,
    root: Key<DP>,
    version: VersionOf<DP>,
    exclusions: Seq<Clause<Key<DP>, VersionOf<DP>>>,
) -> spec_fn(External<DP::P, DP::VS, DP::M>) -> bool {
    |fact: External<DP::P, DP::VS, DP::M>| is_fact(dp, root, version, exclusions, fact)
}

pub proof fn lemma_answers_chain<DP: DependencyProvider>(
    dp: DP,
    a: Seq<Observed<Key<DP>, VersionOf<DP>>>,
    b: Seq<Observed<Key<DP>, VersionOf<DP>>>,
    c: Seq<Observed<Key<DP>, VersionOf<DP>>>,
)
    requires
        are_answers(dp, a, b),
        are_answers(dp, b, c),
        b.is_prefix_of(c),
    ensures
        are_answers(dp, a, c),
{
    assert forall|i: int| a.len() <= i < c.len() implies is_answer(dp, #[trigger] c[i]) by {
        if i < b.len() {
            assert(b[i] == c.subrange(0, b.len() as int)[i]);
            assert(is_answer(dp, b[i]));
        }
    }
}

pub proof fn lemma_answers_push<DP: DependencyProvider>(
    dp: DP,
    before: Seq<Observed<Key<DP>, VersionOf<DP>>>,
    after: Seq<Observed<Key<DP>, VersionOf<DP>>>,
    o: Observed<Key<DP>, VersionOf<DP>>,
)
    requires
        are_answers(dp, before, after),
        is_answer(dp, o),
    ensures
        are_answers(dp, before, after.push(o)),
{
    let longer = after.push(o);
    assert forall|i: int| before.len() <= i < longer.len() implies is_answer(
        dp,
        #[trigger] longer[i],
    ) by {
        if i < after.len() {
            assert(longer[i] == after[i]);
        }
    }
}

/// The fact is one that the provider states of the version: of its dependencies, of what it is
/// incompatible with, or that it is unavailable.
pub open spec fn is_of_version<P: Package, VS: VersionSet, M>(
    fact: External<P, VS, M>,
    k: P::V,
    v: VS::V,
) -> bool {
    &&& fact is FromDependencyOf || fact is Custom || fact is Incompatible
    &&& fact.clause().len() > 0
    &&& fact.clause()[0] == (k, term::only(v))
}

/// Where the fact is that a package has no version in a range, the observer was told so; and where
/// the provider states it of a version, the observer was told that this was chosen.
pub open spec fn is_told<P: Package, VS: VersionSet, M>(
    before: Seq<Observed<P::V, VS::V>>,
    after: Seq<Observed<P::V, VS::V>>,
    fact: External<P, VS, M>,
) -> bool {
    match fact {
        External::NoVersions(p, set) => exists|i: int|
            before.len() <= i < after.len() && #[trigger] after[i] == Observed::NoVersion(
                p@,
                set@,
            ),
        External::NotRoot(_, _) => true,
        External::ExcludedSolution { .. } => true,
        _ => exists|i: int|
            before.len() <= i < after.len() && (#[trigger] after[i]) is VersionChoice
                && is_of_version(fact, after[i]->VersionChoice_0, after[i]->VersionChoice_1),
    }
}

/// The facts of which the observer was told, as far as they are that there is no version.
pub open spec fn told_facts<P: Package, VS: VersionSet, M>(
    before: Seq<Observed<P::V, VS::V>>,
    after: Seq<Observed<P::V, VS::V>>,
) -> spec_fn(External<P, VS, M>) -> bool {
    |fact: External<P, VS, M>| is_told(before, after, fact)
}

/// Every derivation tree that the new events hold rests on ranges without a version of which the
/// observer was told before, and on what the provider states of versions that were chosen before.
pub open spec fn causes_are_told<P: Package, VS: VersionSet, M>(
    before: Seq<Observed<P::V, VS::V>>,
    after: Seq<Observed<P::V, VS::V>>,
) -> bool {
    forall|i: int|
        before.len() <= i < after.len() && observer::holds_tree(#[trigger] after[i])
            ==> observer::is_told_of_tree(
            observer::cause_of(after[i]),
            told_facts::<P, VS, M>(before, after.take(i)),
        )
}

/// A solution runs into a fact only if that is one of the exclusions.
proof fn lemma_fact<DP: DependencyProvider>(
    dp: DP,
    root: Key<DP>,
    version: VersionOf<DP>,
    exclusions: Seq<Clause<Key<DP>, VersionOf<DP>>>,
    s: Selection<DP>,
    fact: External<DP::P, DP::VS, DP::M>,
)
    requires
        is_solution(dp, root, version, s),
        is_fact(dp, root, version, exclusions, fact),
        search::violates(fact.clause(), s),
    ensures
        fact is ExcludedSolution,
{
    let clause = fact.clause();
    assert(fact !is ExcludedSolution ==> false) by {
        match fact {
            External::NotRoot(p, v) => {
                assert(clause[0].1.contains(s.get(clause[0].0)));
                assert(term::only(v).contains(Some(v)));
            },
            External::NoVersions(p, set) => {
                assert(clause[0].1.contains(s.get(clause[0].0)));
                assert(fits(dp, s, p@));
                assert(set@.contains(s[p@]));
            },
            External::FromDependencyOf(p, set, q, required) => {
                assert(clause[0].1.contains(s.get(clause[0].0)));
                assert(clause[1].1.contains(s.get(clause[1].0)));
                assert(fits(dp, s, p@));
                assert(set@.contains(s[p@]));
                let requirements = dp.requirements(p@, s[p@])->0;
                let i = choose|i: int|
                    0 <= i < requirements.len() && requirements[i] == (q@, required@);
                assert(meets(s, requirements[i]));
            },
            External::Custom(p, set, _) => {
                assert(clause[0].1.contains(s.get(clause[0].0)));
                assert(fits(dp, s, p@));
                assert(set@.contains(s[p@]));
            },
            External::Incompatible { terms, .. } => {
                let (k, v, i) = choose|k: Key<DP>, v: VersionOf<DP>, i: int|
                    0 <= i < dp.conflicts(k, v).len() && term::parts(terms@) == conflict_clause(
                        k,
                        v,
                        #[trigger] dp.conflicts(k, v)[i],
                    );
                assert(clause[0].1.contains(s.get(clause[0].0)));
                assert(clause[0] == (k, term::only(v)));
                assert(s.dom().contains(k) && s[k] == v);
                assert(fits(dp, s, k));
                let conflict = dp.conflicts(k, s[k])[i];
                assert(search::violates(conflict, s)) by {
                    assert forall|j: int| 0 <= j < conflict.len() implies (
                    #[trigger] conflict[j]).1.contains(s.get(conflict[j].0)) by {
                        assert(clause[j + 1] == conflict[j]);
                    }
                }
            },
            External::ExcludedSolution { .. } => {},
        }
    }
}

/// A solution that a derivation tree refutes violates one of the exclusions that the tree rests on.
pub proof fn lemma_blame<DP: DependencyProvider>(
    dp: DP,
    root: Key<DP>,
    version: VersionOf<DP>,
    exclusions: Seq<Clause<Key<DP>, VersionOf<DP>>>,
    tree: &DerivationTree<DP::P, DP::VS, DP::M>,
    s: Selection<DP>,
) -> (i: int)
    requires
        is_solution(dp, root, version, s),
        tree.rests_on(facts(dp, root, version, exclusions)),
        tree.refutes(s),
    ensures
        0 <= i < exclusions.len(),
        search::violates(exclusions[i], s),
        forall|k: Key<DP>| #[trigger] search::mentions(exclusions[i], k) ==> tree.forces(k),
    decreases tree,
{
    match tree {
        DerivationTree::External(external) => {
            lemma_fact(dp, root, version, exclusions, s, *external);
            let clause = external.clause();
            choose|i: int| 0 <= i < exclusions.len() && exclusions[i] == clause
        },
        DerivationTree::Derived(derived) => {
            let first = &*derived.cause1;
            if first.refutes(s) {
                lemma_blame(dp, root, version, exclusions, first, s)
            } else {
                lemma_blame(dp, root, version, exclusions, &*derived.cause2, s)
            }
        },
    }
}

/// Whatever solves the problem and avoids the exclusions is not refuted: a derivation tree that
/// refutes every selection of the root package at its version proves that there is no solution.
pub proof fn no_solution_is_refuted<DP: DependencyProvider>(
    dp: DP,
    root: Key<DP>,
    version: VersionOf<DP>,
    exclusions: Seq<Clause<Key<DP>, VersionOf<DP>>>,
    tree: &DerivationTree<DP::P, DP::VS, DP::M>,
    s: Selection<DP>,
)
    requires
        is_solution(dp, root, version, s),
        avoids(exclusions, s),
        tree.rests_on(facts(dp, root, version, exclusions)),
    ensures
        !tree.refutes(s),
{
    if tree.refutes(s) {
        let i = lemma_blame(dp, root, version, exclusions, tree, s);
        assert(search::violates(exclusions[i], s));
    }
}

/// Whatever violates the first clause violates the second one.
pub open spec fn covered_by<K, V>(clause: Clause<K, V>, other: Clause<K, V>) -> bool {
    forall|s: Map<K, V>| #[trigger] search::violates(clause, s) ==> search::violates(other, s)
}

/// Whatever violates the first clause violates the second one, which mentions the packages that the
/// first one speaks of.
pub open spec fn is_held_as<K, V>(clause: Clause<K, V>, other: Clause<K, V>) -> bool {
    &&& covered_by(clause, other)
    &&& forall|k: K| #[trigger] search::mentions(other, k) <==> search::speaks_of(clause, k)
}

/// Whatever violates the clause violates one of the store.
pub open spec fn covers<K, V>(store: Seq<Clause<K, V>>, clause: Clause<K, V>) -> bool {
    exists|i: int| 0 <= i < store.len() && covered_by(clause, #[trigger] store[i])
}

/// Whatever violates the clause violates one of the store, which mentions the same packages.
pub open spec fn keeps<K, V>(store: Seq<Clause<K, V>>, clause: Clause<K, V>) -> bool {
    exists|i: int| 0 <= i < store.len() && is_held_as(clause, #[trigger] store[i])
}

pub proof fn lemma_keeps_grow<K, V>(
    store: Seq<Clause<K, V>>,
    longer: Seq<Clause<K, V>>,
    clause: Clause<K, V>,
)
    requires
        store.is_prefix_of(longer),
        keeps(store, clause),
    ensures
        keeps(longer, clause),
{
    let i = choose|i: int| 0 <= i < store.len() && is_held_as(clause, #[trigger] store[i]);
    assert(longer[i] == store[i]);
}

pub proof fn lemma_covers_grow<K, V>(
    store: Seq<Clause<K, V>>,
    longer: Seq<Clause<K, V>>,
    clause: Clause<K, V>,
)
    requires
        store.is_prefix_of(longer),
        covers(store, clause),
    ensures
        covers(longer, clause),
{
    let i = choose|i: int| 0 <= i < store.len() && covered_by(clause, #[trigger] store[i]);
    assert(longer[i] == store[i]);
}

/// Everything that the provider says about the package version is in the store.
pub open spec fn explained<DP: DependencyProvider>(
    dp: DP,
    store: Seq<Clause<Key<DP>, VersionOf<DP>>>,
    k: Key<DP>,
    v: VersionOf<DP>,
) -> bool {
    match dp.requirements(k, v) {
        None => covers(store, owner_clause(k, v)),
        Some(requirements) => {
            &&& forall|i: int|
                0 <= i < requirements.len() ==> covers(
                    store,
                    requirement_clause(k, v, #[trigger] requirements[i]),
                )
            &&& forall|i: int|
                0 <= i < dp.conflicts(k, v).len() ==> covers(
                    store,
                    conflict_clause(k, v, #[trigger] dp.conflicts(k, v)[i]),
                )
        },
    }
}

pub proof fn lemma_explained_grow<DP: DependencyProvider>(
    dp: DP,
    store: Seq<Clause<Key<DP>, VersionOf<DP>>>,
    longer: Seq<Clause<Key<DP>, VersionOf<DP>>>,
    k: Key<DP>,
    v: VersionOf<DP>,
)
    requires
        store.is_prefix_of(longer),
        explained(dp, store, k, v),
    ensures
        explained(dp, longer, k, v),
{
    match dp.requirements(k, v) {
        None => {
            lemma_covers_grow(store, longer, owner_clause(k, v));
        },
        Some(requirements) => {
            assert forall|i: int| 0 <= i < requirements.len() implies covers(
                longer,
                requirement_clause(k, v, #[trigger] requirements[i]),
            ) by {
                lemma_covers_grow(
                    store,
                    longer,
                    requirement_clause(k, v, requirements[i]),
                );
            }
            assert forall|i: int| 0 <= i < dp.conflicts(k, v).len() implies covers(
                longer,
                conflict_clause(k, v, #[trigger] dp.conflicts(k, v)[i]),
            ) by {
                lemma_covers_grow(
                    store,
                    longer,
                    conflict_clause(k, v, dp.conflicts(k, v)[i]),
                );
            }
        },
    }
}

/// Everything that the provider says about the package version is in the store, about the same
/// packages.
pub open spec fn recorded<DP: DependencyProvider>(
    dp: DP,
    store: Seq<Clause<Key<DP>, VersionOf<DP>>>,
    k: Key<DP>,
    v: VersionOf<DP>,
) -> bool {
    match dp.requirements(k, v) {
        None => keeps(store, owner_clause(k, v)),
        Some(requirements) => {
            &&& forall|i: int|
                0 <= i < requirements.len() ==> keeps(
                    store,
                    requirement_clause(k, v, #[trigger] requirements[i]),
                )
            &&& forall|i: int|
                0 <= i < dp.conflicts(k, v).len() ==> keeps(
                    store,
                    conflict_clause(k, v, #[trigger] dp.conflicts(k, v)[i]),
                )
        },
    }
}

pub proof fn lemma_recorded_grow<DP: DependencyProvider>(
    dp: DP,
    store: Seq<Clause<Key<DP>, VersionOf<DP>>>,
    longer: Seq<Clause<Key<DP>, VersionOf<DP>>>,
    k: Key<DP>,
    v: VersionOf<DP>,
)
    requires
        store.is_prefix_of(longer),
        recorded(dp, store, k, v),
    ensures
        recorded(dp, longer, k, v),
{
    match dp.requirements(k, v) {
        None => {
            lemma_keeps_grow(store, longer, owner_clause(k, v));
        },
        Some(requirements) => {
            assert forall|i: int| 0 <= i < requirements.len() implies keeps(
                longer,
                requirement_clause(k, v, #[trigger] requirements[i]),
            ) by {
                lemma_keeps_grow(store, longer, requirement_clause(k, v, requirements[i]));
            }
            assert forall|i: int| 0 <= i < dp.conflicts(k, v).len() implies keeps(
                longer,
                conflict_clause(k, v, #[trigger] dp.conflicts(k, v)[i]),
            ) by {
                lemma_keeps_grow(store, longer, conflict_clause(k, v, dp.conflicts(k, v)[i]));
            }
        },
    }
}

/// A clause that the store covers is not violated where no clause of the store is.
pub proof fn lemma_not_covered<K, V>(store: Seq<Clause<K, V>>, clause: Clause<K, V>, s: Map<K, V>)
    requires
        covers(store, clause),
        forall|i: int| 0 <= i < store.len() ==> !search::violates(#[trigger] store[i], s),
    ensures
        !search::violates(clause, s),
{
    let i = choose|i: int| 0 <= i < store.len() && covered_by(clause, #[trigger] store[i]);
    assert(!search::violates(store[i], s));
}

/// What the provider says about the package version is not violated.
pub open spec fn is_respected<DP: DependencyProvider>(
    dp: DP,
    k: Key<DP>,
    v: VersionOf<DP>,
    s: Selection<DP>,
) -> bool {
    match dp.requirements(k, v) {
        None => !search::violates(owner_clause(k, v), s),
        Some(requirements) => {
            &&& forall|i: int|
                0 <= i < requirements.len() ==> !search::violates(
                    requirement_clause(k, v, #[trigger] requirements[i]),
                    s,
                )
            &&& forall|i: int|
                0 <= i < dp.conflicts(k, v).len() ==> !search::violates(
                    conflict_clause(k, v, #[trigger] dp.conflicts(k, v)[i]),
                    s,
                )
        },
    }
}

/// A selected package version fits where what the provider says about it is not violated.
pub proof fn lemma_respected_fits<DP: DependencyProvider>(dp: DP, k: Key<DP>, s: Selection<DP>)
    requires
        s.dom().contains(k),
        dp.offers(k, s[k]),
        is_respected(dp, k, s[k], s),
    ensures
        fits(dp, s, k),
{
    let v = s[k];
    assert(s.get(k) == Some(v));
    assert(term::only(v).contains(Some(v)));
    match dp.requirements(k, v) {
        None => {
            let owner = owner_clause(k, v);
            assert(search::violates(owner, s));
        },
        Some(requirements) => {
            assert forall|j: int| 0 <= j < requirements.len() implies meets(
                s,
                #[trigger] requirements[j],
            ) by {
                let clause = requirement_clause(k, v, requirements[j]);
                if !meets(s, requirements[j]) {
                    assert(clause[1].1.contains(s.get(clause[1].0)));
                    assert(clause[0].1.contains(s.get(clause[0].0)));
                    assert(search::violates(clause, s));
                }
            }
            assert forall|j: int| 0 <= j < dp.conflicts(k, v).len() implies !search::violates(
                #[trigger] dp.conflicts(k, v)[j],
                s,
            ) by {
                let conflict = dp.conflicts(k, v)[j];
                let clause = conflict_clause(k, v, conflict);
                if search::violates(conflict, s) {
                    assert forall|m: int| 0 <= m < clause.len() implies (
                    #[trigger] clause[m]).1.contains(s.get(clause[m].0)) by {
                        if m > 0 {
                            assert(clause[m] == conflict[m - 1]);
                        }
                    }
                    assert(search::violates(clause, s));
                }
            }
        },
    }
}

/// A selected package version that is explained fits where no clause of the store is violated.
pub proof fn lemma_explained_fits<DP: DependencyProvider>(
    dp: DP,
    store: Seq<Clause<Key<DP>, VersionOf<DP>>>,
    k: Key<DP>,
    s: Selection<DP>,
)
    requires
        s.dom().contains(k),
        dp.offers(k, s[k]),
        explained(dp, store, k, s[k]),
        forall|i: int| 0 <= i < store.len() ==> !search::violates(#[trigger] store[i], s),
    ensures
        fits(dp, s, k),
{
    let v = s[k];
    match dp.requirements(k, v) {
        None => {
            lemma_not_covered(store, owner_clause(k, v), s);
        },
        Some(requirements) => {
            assert forall|j: int| 0 <= j < requirements.len() implies !search::violates(
                requirement_clause(k, v, #[trigger] requirements[j]),
                s,
            ) by {
                lemma_not_covered(store, requirement_clause(k, v, requirements[j]), s);
            }
            assert forall|j: int| 0 <= j < dp.conflicts(k, v).len() implies !search::violates(
                conflict_clause(k, v, #[trigger] dp.conflicts(k, v)[j]),
                s,
            ) by {
                lemma_not_covered(store, conflict_clause(k, v, dp.conflicts(k, v)[j]), s);
            }
        },
    }
    lemma_respected_fits(dp, k, s);
}

/// No cause that an observer is told of rules out a solution.
pub proof fn told_causes_spare_solutions<DP: DependencyProvider>(
    dp: DP,
    root: Key<DP>,
    version: VersionOf<DP>,
    before: Seq<Observed<Key<DP>, VersionOf<DP>>>,
    after: Seq<Observed<Key<DP>, VersionOf<DP>>>,
    s: Selection<DP>,
    i: int,
)
    requires
        observer::causes_rest_on(before, after, facts(dp, root, version, Seq::empty())),
        is_solution(dp, root, version, s),
        before.len() <= i < after.len(),
        observer::holds_tree(after[i]),
    ensures
        !observer::cause_of(after[i]).refuted.contains(s),
{
    let nothing = Seq::<Clause<Key<DP>, VersionOf<DP>>>::empty();
    let fact = facts(dp, root, version, nothing);
    assert(observer::is_told_of_tree(observer::cause_of(after[i]), fact));
    let tree = choose|tree: DerivationTree<DP::P, DP::VS, DP::M>| #[trigger]
        tree.rests_on(fact) && tree.is_sound() && observer::cause_of(after[i]) == tree.told();
    if tree.refutes(s) {
        no_solution_is_refuted(dp, root, version, nothing, &tree, s);
    }
}

} // verus!
